//! Appending entries to a section, with its length and count fields kept true.
use crate::error::PatchError;
use crate::surgery::{edit_views, replace_bytes, splice, Edit};
use crate::varint::{
    decode_varint, encode_varint, lemma_leb128_len_monotone, lemma_leb128_len_u32, leb128, varint_at,
};
use crate::wasm::WasmSection;
use vstd::prelude::*;

verus! {

/// The entries laid end to end, in their order.
pub open spec fn concat(entries: Seq<Seq<u8>>) -> Seq<u8>
    decreases entries.len(),
{
    if entries.len() == 0 {
        Seq::empty()
    } else {
        concat(entries.drop_last()) + entries.last()
    }
}

pub open spec fn entry_views(entries: Seq<Vec<u8>>) -> Seq<Seq<u8>> {
    entries.map_values(|e: Vec<u8>| e@)
}

/// The edits that append `entries` to `section` in module `w`: the section's
/// length field, its count field, and the entries at its end. Other edits
/// inside the section change its length by `inner_growth`.
#[verifier::opaque]
pub open spec fn section_edits(
    w: Seq<u8>,
    section: WasmSection,
    inner_growth: int,
    entries: Seq<Seq<u8>>,
) -> Result<Seq<(int, int, Seq<u8>)>, PatchError> {
    let lp = section.start_position + 1;
    match varint_at(w, lp) {
        None => Err(PatchError::MissingSectionField),
        Some(len) => {
            let cp = lp + leb128(len).len();
            match varint_at(w, cp) {
                None => Err(PatchError::MissingSectionField),
                Some(count) => {
                    let new_count = count + entries.len();
                    let new_len = len + inner_growth + concat(entries).len() + leb128(new_count).len()
                        - leb128(count).len();
                    if new_count > u32::MAX || new_len < 0 || new_len > u32::MAX {
                        Err(PatchError::PositionOutOfBounds)
                    } else {
                        Ok(
                            seq![
                                (lp, leb128(len).len() as int, leb128(new_len as nat)),
                                (cp, leb128(count).len() as int, leb128(new_count)),
                                (section.end_position as int, 0int, concat(entries)),
                            ],
                        )
                    }
                },
            }
        },
    }
}

/// The three edits of a section, as they are when they exist.
pub proof fn lemma_section_edits_shape(
    w: Seq<u8>,
    section: WasmSection,
    inner_growth: int,
    entries: Seq<Seq<u8>>,
)
    requires
        section_edits(w, section, inner_growth, entries) is Ok,
    ensures
        ({
            let es = section_edits(w, section, inner_growth, entries)->Ok_0;
            let lp = section.start_position + 1;
            let len = varint_at(w, lp)->Some_0;
            let cp = lp + leb128(len).len();
            let count = varint_at(w, cp)->Some_0;
            let new_count = count + entries.len();
            let new_len = len + inner_growth + concat(entries).len() + leb128(new_count).len() - leb128(
                count,
            ).len();
            &&& varint_at(w, lp) is Some
            &&& varint_at(w, cp) is Some
            &&& 0 <= new_len <= u32::MAX
            &&& new_count <= u32::MAX
            &&& es.len() == 3
            &&& es[0] == (lp, leb128(len).len() as int, leb128(new_len as nat))
            &&& es[1] == (cp, leb128(count).len() as int, leb128(new_count))
            &&& es[2] == (section.end_position as int, 0int, concat(entries))
        }),
{
    reveal(section_edits);
}

/// Lays `entries` end to end in one buffer.
pub fn concat_entries(entries: &Vec<Vec<u8>>) -> (r: Vec<u8>)
    ensures
        r@ == concat(entry_views(entries@)),
{
    let ghost ev = entry_views(entries@);
    let mut out: Vec<u8> = Vec::new();
    let mut i: usize = 0;
    while i < entries.len()
        invariant
            ev == entry_views(entries@),
            i <= entries@.len(),
            out@ == concat(ev.take(i as int)),
        decreases entries@.len() - i,
    {
        let e = &entries[i];
        let ghost head = out@;
        let mut j: usize = 0;
        while j < e.len()
            invariant
                j <= e@.len(),
                out@ == head + e@.subrange(0, j as int),
            decreases e@.len() - j,
        {
            out.push(e[j]);
            j = j + 1;
            assert(out@ =~= head + e@.subrange(0, j as int));
        }
        assert(e@.subrange(0, e@.len() as int) =~= e@);
        assert(ev.take(i + 1).drop_last() =~= ev.take(i as int));
        assert(ev.take(i + 1).last() == e@);
        i = i + 1;
    }
    assert(ev.take(i as int) =~= ev);
    out
}

/// Plans the append of `entries` to `section` without touching the buffer:
/// returns the edits to its length field, its count field and its end, all
/// at positions of the buffer as given. Other planned edits inside the
/// section change its length by `insertion_offset` bytes; the new length
/// counts them.
pub fn plan_section_append(
    wasm_binary_vec: &Vec<u8>,
    insertion_offset: i128,
    entries: &Vec<Vec<u8>>,
    section: &WasmSection,
) -> (r: Result<Vec<Edit>, PatchError>)
    requires
        -0x1_0000_0000_0000_0000_0000 <= insertion_offset <= 0x1_0000_0000_0000_0000_0000,
    ensures
        match r {
            Ok(es) => section_edits(
                wasm_binary_vec@,
                *section,
                insertion_offset as int,
                entry_views(entries@),
            ) == Ok::<_, PatchError>(edit_views(es@)),
            Err(e) => section_edits(
                wasm_binary_vec@,
                *section,
                insertion_offset as int,
                entry_views(entries@),
            ) == Err::<Seq<(int, int, Seq<u8>)>, _>(e),
        },
{
    proof {
        reveal(section_edits);
    }
    let ghost w = wasm_binary_vec@;
    if section.start_position >= wasm_binary_vec.len() {
        assert(varint_at(w, section.start_position + 1) is None) by {
            if varint_at(w, section.start_position + 1) is Some {
                let v = varint_at(w, section.start_position + 1)->0;
                lemma_leb128_len_u32(v);
            }
        }
        return Err(PatchError::MissingSectionField);
    }
    let lp: usize = section.start_position + 1;
    let (len, len_bytes) = match decode_varint(wasm_binary_vec, lp) {
        Ok(d) => d,
        Err(_) => {
            return Err(PatchError::MissingSectionField);
        },
    };
    let cp: usize = lp + len_bytes;
    let (count, count_bytes) = match decode_varint(wasm_binary_vec, cp) {
        Ok(d) => d,
        Err(_) => {
            return Err(PatchError::MissingSectionField);
        },
    };
    let new_count: u128 = count as u128 + entries.len() as u128;
    if new_count > u32::MAX as u128 {
        return Err(PatchError::PositionOutOfBounds);
    }
    let appended = concat_entries(entries);
    let count_field = encode_varint(new_count as u32);
    let total: i128 = len as i128 + insertion_offset + appended.len() as i128
        + count_field.len() as i128 - count_bytes as i128;
    if total < 0 || total > u32::MAX as i128 {
        return Err(PatchError::PositionOutOfBounds);
    }
    let new_len: u32 = total as u32;
    let length_field = encode_varint(new_len);
    let mut es: Vec<Edit> = Vec::new();
    es.push(Edit { position: lp, removed: len_bytes, bytes: length_field });
    es.push(Edit { position: cp, removed: count_bytes, bytes: count_field });
    es.push(Edit { position: section.end_position, removed: 0, bytes: appended });
    proof {
        let ev = edit_views(es@);
        let sv = section_edits(w, *section, insertion_offset as int, entry_views(entries@));
        assert(sv is Ok);
        assert(ev =~= sv->Ok_0);
    }
    Ok(es)
}

/// The buffer after appending `entries` to `section` in `w`, or why there is
/// none. The section's positions are moved by `starting_offset`, and
/// `insertion_offset` bytes already stand inside it that its length field
/// does not count yet: the new length counts them, the entries, and the
/// growth of the count field, and the entries go after those bytes.
pub open spec fn appended_section(
    w: Seq<u8>,
    starting_offset: int,
    insertion_offset: int,
    entries: Seq<Seq<u8>>,
    section: WasmSection,
) -> Result<Seq<u8>, PatchError> {
    let p = starting_offset + section.start_position + 1;
    match varint_at(w, p) {
        None => Err(PatchError::MissingSectionField),
        Some(len) => {
            let a = leb128(len).len() as int;
            match varint_at(w, p + a) {
                None => Err(PatchError::MissingSectionField),
                Some(count) => {
                    let b = leb128(count).len() as int;
                    let new_count = count + entries.len();
                    let new_len = len + insertion_offset + concat(entries).len() + leb128(
                        new_count,
                    ).len() - b;
                    let e = starting_offset + insertion_offset + section.end_position;
                    if new_count > u32::MAX || new_len > u32::MAX || !(p + a + b <= e <= w.len()) {
                        Err(PatchError::PositionOutOfBounds)
                    } else {
                        Ok(
                            w.subrange(0, p) + leb128(new_len as nat) + leb128(new_count) + w.subrange(
                                p + a + b,
                                e,
                            ) + concat(entries) + w.subrange(e, w.len() as int),
                        )
                    }
                },
            }
        },
    }
}

/// Rewriting two header fields and appending at a later end, as one buffer.
proof fn lemma_header_and_tail(
    w: Seq<u8>,
    p: int,
    a: int,
    b: int,
    e: int,
    l: Seq<u8>,
    c: Seq<u8>,
    x: Seq<u8>,
)
    requires
        0 <= p,
        0 <= a,
        0 <= b,
        p + a + b <= e <= w.len(),
    ensures
        splice(splice(splice(w, e, 0, x), p + a, b, c), p, a, l) == w.subrange(0, p) + l + c
            + w.subrange(p + a + b, e) + x + w.subrange(e, w.len() as int),
{
    let w1 = splice(w, e, 0, x);
    let w2 = splice(w1, p + a, b, c);
    assert(w2 =~= w.subrange(0, p + a) + c + w.subrange(p + a + b, e) + x + w.subrange(
        e,
        w.len() as int,
    ));
    assert(splice(w2, p, a, l) =~= w.subrange(0, p) + l + c + w.subrange(p + a + b, e) + x
        + w.subrange(e, w.len() as int));
}

/// Appends `entries` to the end of `section`, after the `insertion_offset`
/// bytes that earlier edits put inside it, and rewrites the section's length
/// and count fields. `starting_offset` is what earlier edits added before the
/// section. Returns how many bytes the buffer grew by; on an error the
/// buffer is left as it was.
pub fn add_entries_to_section(
    wasm_binary_vec: &mut Vec<u8>,
    starting_offset: usize,
    insertion_offset: usize,
    entries: &Vec<Vec<u8>>,
    section: &WasmSection,
) -> (r: Result<usize, PatchError>)
    ensures
        match r {
            Ok(d) => appended_section(
                old(wasm_binary_vec)@,
                starting_offset as int,
                insertion_offset as int,
                entry_views(entries@),
                *section,
            ) == Ok::<_, PatchError>(final(wasm_binary_vec)@) && d == final(wasm_binary_vec)@.len()
                - old(wasm_binary_vec)@.len(),
            Err(e) => appended_section(
                old(wasm_binary_vec)@,
                starting_offset as int,
                insertion_offset as int,
                entry_views(entries@),
                *section,
            ) == Err::<Seq<u8>, _>(e) && final(wasm_binary_vec)@ == old(wasm_binary_vec)@,
        },
{
    let ghost w = wasm_binary_vec@;
    let len_w: usize = wasm_binary_vec.len();
    if starting_offset >= len_w || section.start_position >= len_w - starting_offset {
        assert(varint_at(w, starting_offset + section.start_position + 1) is None) by {
            if varint_at(w, starting_offset + section.start_position + 1) is Some {
                lemma_leb128_len_u32(varint_at(w, starting_offset + section.start_position + 1)->Some_0);
            }
        }
        return Err(PatchError::MissingSectionField);
    }
    let p: usize = starting_offset + section.start_position + 1;
    let (len, a) = match decode_varint(wasm_binary_vec, p) {
        Ok(d) => d,
        Err(_) => {
            return Err(PatchError::MissingSectionField);
        },
    };
    let (count, b) = match decode_varint(wasm_binary_vec, p + a) {
        Ok(d) => d,
        Err(_) => {
            return Err(PatchError::MissingSectionField);
        },
    };
    let new_count: u128 = count as u128 + entries.len() as u128;
    let appended = concat_entries(entries);
    let e: u128 = starting_offset as u128 + insertion_offset as u128 + section.end_position as u128;
    if new_count > u32::MAX as u128 {
        return Err(PatchError::PositionOutOfBounds);
    }
    let count_field = encode_varint(new_count as u32);
    proof {
        lemma_leb128_len_monotone(count as nat, new_count as nat);
    }
    assert(count_field@.len() >= b);
    let new_len: u128 = len as u128 + insertion_offset as u128 + appended.len() as u128
        + (count_field.len() - b) as u128;
    if new_len > u32::MAX as u128 || e < (p + a + b) as u128 || e > len_w as u128 {
        return Err(PatchError::PositionOutOfBounds);
    }
    let e: usize = e as usize;
    let length_field = encode_varint(new_len as u32);
    proof {
        lemma_leb128_len_monotone(len as nat, new_len as nat);
        lemma_header_and_tail(w, p as int, a as int, b as int, e as int, length_field@, count_field@, appended@);
    }
    replace_bytes(wasm_binary_vec, e, 0, &appended);
    replace_bytes(wasm_binary_vec, p + a, b, &count_field);
    replace_bytes(wasm_binary_vec, p, a, &length_field);
    Ok(wasm_binary_vec.len() - len_w)
}

} // verus!
