//! What holds of every successful patch, read back from the patched bytes.
use crate::error::PatchError;
use crate::patch::{import_edits, patch_edits, patched, section_index};
use crate::calls::{body_growth, call_edits, lemma_call_edits_contain, size_edit};
use crate::redirect::{call_operand_edit, import_edit, import_index, import_signature_field, lowered_index, trampoline_index};
use crate::section::{appended_section, concat, lemma_section_edits_shape, section_edits};
use crate::surgery::{apply_edits, edits_in_order, growth, lemma_apply_edits_places};
use crate::varint::{has_varint_at, lemma_varint_at, leb128, varint_at};
use crate::wasm::{LoweredSignature, TrampolineFunction, WasmCall, WasmFunction, WasmSection, WasmSectionCode};
use vstd::prelude::*;

verus! {

/// The entry count of the section whose id byte is at `start`: the varint
/// after its length field.
pub open spec fn section_count(w: Seq<u8>, start: int) -> Option<nat> {
    match varint_at(w, start + 1) {
        None => None,
        Some(len) => varint_at(w, start + 1 + leb128(len).len()),
    }
}

/// An edit that writes the encoding of `v` reads back as `v` at its place in
/// the result.
pub proof fn lemma_edit_reads_back(s: Seq<u8>, es: Seq<(int, int, Seq<u8>)>, i: int, v: nat)
    requires
        edits_in_order(es, s.len() as int),
        0 <= i < es.len(),
        es[i].2 == leb128(v),
        v <= u32::MAX,
    ensures
        varint_at(apply_edits(s, es), es[i].0 + growth(es.take(i))) == Some(v),
{
    lemma_apply_edits_places(s, es, i);
    let out = apply_edits(s, es);
    let p = es[i].0 + growth(es.take(i));
    assert(has_varint_at(out, p, v));
    lemma_varint_at(out, p, v);
}

/// Growth of one more edit.
pub proof fn lemma_growth_take(es: Seq<(int, int, Seq<u8>)>, k: int)
    requires
        0 <= k < es.len(),
    ensures
        growth(es.take(k + 1)) == growth(es.take(k)) + es[k].2.len() - es[k].1,
{
    assert(es.take(k + 1).drop_last() =~= es.take(k));
}

/// The import edits are one per import, each that import's own edit.
pub proof fn lemma_import_edits(
    w: Seq<u8>,
    imports: Seq<&WasmFunction>,
    lowered: Seq<LoweredSignature>,
    n_types: int,
)
    requires
        import_edits(w, imports, lowered, n_types) is Ok,
    ensures
        ({
            let es = import_edits(w, imports, lowered, n_types)->Ok_0;
            &&& es.len() == imports.len()
            &&& forall|j: int|
                0 <= j < imports.len() ==> import_edit(w, *imports[j], lowered, n_types) == Ok::<
                    _,
                    PatchError,
                >(#[trigger] es[j])
        }),
    decreases imports.len(),
{
    if imports.len() > 0 {
        lemma_import_edits(w, imports.drop_last(), lowered, n_types);
    }
}

/// A section's edits rewrite its length field and then its count field, so
/// that the count reads back raised by the number of entries.
proof fn lemma_section_count_after(
    w: Seq<u8>,
    section: WasmSection,
    inner: int,
    entries: Seq<Seq<u8>>,
    es: Seq<(int, int, Seq<u8>)>,
    k: int,
)
    requires
        section_edits(w, section, inner, entries) is Ok,
        0 <= k,
        k + 2 <= es.len(),
        edits_in_order(es, w.len() as int),
        es[k] == section_edits(w, section, inner, entries)->Ok_0[0],
        es[k + 1] == section_edits(w, section, inner, entries)->Ok_0[1],
    ensures
        section_count(w, section.start_position as int) is Some,
        section_count(apply_edits(w, es), section.start_position + growth(es.take(k))) == Some(
            section_count(w, section.start_position as int)->Some_0 + entries.len(),
        ),
{
    lemma_section_edits_shape(w, section, inner, entries);
    let lp = section.start_position + 1;
    let len = varint_at(w, lp)->Some_0;
    let cp = lp + leb128(len).len();
    let count = varint_at(w, cp)->Some_0;
    let new_count = count + entries.len();
    let new_len = (len + inner + crate::section::concat(entries).len() + leb128(new_count).len()
        - leb128(count).len()) as nat;
    lemma_edit_reads_back(w, es, k, new_len);
    lemma_edit_reads_back(w, es, k + 1, new_count);
    lemma_growth_take(es, k);
    let out = apply_edits(w, es);
    let d = growth(es.take(k));
    assert(varint_at(out, section.start_position + d + 1) == Some(new_len));
}

/// Where the parts of a patch stand in its list of edits.
proof fn lemma_parts_index(
    es: Seq<(int, int, Seq<u8>)>,
    a: Seq<(int, int, Seq<u8>)>,
    b: Seq<(int, int, Seq<u8>)>,
    c: Seq<(int, int, Seq<u8>)>,
    d: Seq<(int, int, Seq<u8>)>,
    e: Seq<(int, int, Seq<u8>)>,
)
    requires
        es == a + b + c + d.take(2) + e + d.skip(2),
        a.len() == 3,
        c.len() == 3,
        d.len() == 3,
    ensures
        es.len() == 9 + b.len() + e.len(),
        es[0] == a[0],
        es[1] == a[1],
        forall|j: int| 0 <= j < b.len() ==> es[3 + j] == #[trigger] b[j],
        es[3 + b.len() as int] == c[0],
        es[4 + b.len() as int] == c[1],
        es[6 + b.len() as int] == d[0],
        es[7 + b.len() as int] == d[1],
        forall|j: int| 0 <= j < e.len() ==> es[8 + b.len() as int + j] == #[trigger] e[j],
{
}

/// After a patch the type section counts the lowered signatures on top of its
/// old entries, and the function and code sections count the trampolines on
/// top of theirs. Each section starts where the edits before it moved it.
pub proof fn law_count_consistency(
    w: Seq<u8>,
    imports: Seq<&WasmFunction>,
    ts: Seq<TrampolineFunction>,
    ls: Seq<LoweredSignature>,
    sections: Seq<WasmSection>,
    n_types: int,
    n_functions: int,
    calls: Seq<WasmCall>,
)
    requires
        imports.len() > 0,
        patched(w, imports, ts, ls, sections, n_types, n_functions, calls) is Ok,
    ensures
        ({
            let out = patched(w, imports, ts, ls, sections, n_types, n_functions, calls)->Ok_0;
            let es = patch_edits(w, imports, ts, ls, sections, n_types, n_functions, calls)->Ok_0;
            let type_start = sections[section_index(sections, WasmSectionCode::Type)->Some_0].start_position as int;
            let fn_start = sections[section_index(
                sections,
                WasmSectionCode::Function,
            )->Some_0].start_position as int;
            let code_start = sections[section_index(sections, WasmSectionCode::Code)->Some_0].start_position as int;
            &&& section_count(out, type_start) == Some(section_count(w, type_start)->Some_0 + ls.len())
            &&& section_count(out, fn_start + growth(es.take(3 + imports.len() as int)))
                == Some(section_count(w, fn_start)->Some_0 + ts.len())
            &&& section_count(out, code_start + growth(es.take(6 + imports.len() as int)))
                == Some(section_count(w, code_start)->Some_0 + ts.len())
        }),
{
    let es = patch_edits(w, imports, ts, ls, sections, n_types, n_functions, calls)->Ok_0;
    let tsec = sections[section_index(sections, WasmSectionCode::Type)->Some_0];
    let fsec = sections[section_index(sections, WasmSectionCode::Function)->Some_0];
    let csec = sections[section_index(sections, WasmSectionCode::Code)->Some_0];
    crate::patch::lemma_patch_edits_parts(w, imports, ts, ls, sections, n_types, n_functions, calls);
    let call_es = crate::calls::call_edits(w, calls, imports, ts, n_functions, 0)->Ok_0;
    let type_es = section_edits(w, tsec, 0, crate::patch::lowered_entries(ls))->Ok_0;
    let import_es = import_edits(w, imports, ls, n_types)->Ok_0;
    let function_es = section_edits(w, fsec, 0, crate::patch::trampoline_declarations(ts))->Ok_0;
    let code_es = section_edits(w, csec, growth(call_es), crate::patch::trampoline_bodies(ts))->Ok_0;
    lemma_section_edits_shape(w, tsec, 0, crate::patch::lowered_entries(ls));
    lemma_section_edits_shape(w, fsec, 0, crate::patch::trampoline_declarations(ts));
    lemma_section_edits_shape(w, csec, growth(call_es), crate::patch::trampoline_bodies(ts));
    lemma_import_edits(w, imports, ls, n_types);
    lemma_parts_index(es, type_es, import_es, function_es, code_es, call_es);
    let n = imports.len() as int;
    assert(es.take(0) =~= Seq::<(int, int, Seq<u8>)>::empty());
    lemma_section_count_after(w, tsec, 0, crate::patch::lowered_entries(ls), es, 0);
    lemma_section_count_after(w, fsec, 0, crate::patch::trampoline_declarations(ts), es, 3 + n);
    lemma_section_count_after(w, csec, growth(call_es), crate::patch::trampoline_bodies(ts), es, 6 + n);
}

/// After a patch each affected import's signature field reads back as the
/// number of existing signatures plus the place of its lowered signature
/// among the lowered ones; the field has moved by the growth of the edits
/// before it.
pub proof fn law_signature_redirection(
    w: Seq<u8>,
    imports: Seq<&WasmFunction>,
    ts: Seq<TrampolineFunction>,
    ls: Seq<LoweredSignature>,
    sections: Seq<WasmSection>,
    n_types: int,
    n_functions: int,
    calls: Seq<WasmCall>,
    j: int,
)
    requires
        imports.len() > 0,
        n_types >= 0,
        n_types + ls.len() <= u32::MAX,
        patched(w, imports, ts, ls, sections, n_types, n_functions, calls) is Ok,
        0 <= j < imports.len(),
    ensures
        ({
            let out = patched(w, imports, ts, ls, sections, n_types, n_functions, calls)->Ok_0;
            let es = patch_edits(w, imports, ts, ls, sections, n_types, n_functions, calls)->Ok_0;
            let field = import_signature_field(w, imports[j].position as int);
            let k = lowered_index(ls, imports[j].signature_index);
            &&& field is Ok
            &&& k is Some
            &&& varint_at(out, field->Ok_0.0 + growth(es.take(3 + j))) == Some(
                (n_types + k->Some_0) as nat,
            )
        }),
{
    let es = patch_edits(w, imports, ts, ls, sections, n_types, n_functions, calls)->Ok_0;
    let tsec = sections[section_index(sections, WasmSectionCode::Type)->Some_0];
    let fsec = sections[section_index(sections, WasmSectionCode::Function)->Some_0];
    let csec = sections[section_index(sections, WasmSectionCode::Code)->Some_0];
    crate::patch::lemma_patch_edits_parts(w, imports, ts, ls, sections, n_types, n_functions, calls);
    let call_es = crate::calls::call_edits(w, calls, imports, ts, n_functions, 0)->Ok_0;
    let type_es = section_edits(w, tsec, 0, crate::patch::lowered_entries(ls))->Ok_0;
    let import_es = import_edits(w, imports, ls, n_types)->Ok_0;
    let function_es = section_edits(w, fsec, 0, crate::patch::trampoline_declarations(ts))->Ok_0;
    let code_es = section_edits(w, csec, growth(call_es), crate::patch::trampoline_bodies(ts))->Ok_0;
    lemma_section_edits_shape(w, tsec, 0, crate::patch::lowered_entries(ls));
    lemma_section_edits_shape(w, fsec, 0, crate::patch::trampoline_declarations(ts));
    lemma_section_edits_shape(w, csec, growth(call_es), crate::patch::trampoline_bodies(ts));
    lemma_import_edits(w, imports, ls, n_types);
    lemma_parts_index(es, type_es, import_es, function_es, code_es, call_es);
    assert(es[3 + j] == import_es[j]);
    let k = lowered_index(ls, imports[j].signature_index);
    crate::redirect::lemma_first_index(
        ls.map_values(|l: LoweredSignature| l.original_signature_index),
        imports[j].signature_index,
    );
    lemma_edit_reads_back(w, es, 3 + j, (n_types + k->Some_0) as nat);
}

/// The edits of a successful patch, with the call edits found at their place.
proof fn lemma_call_edit_in_patch(
    w: Seq<u8>,
    imports: Seq<&WasmFunction>,
    ts: Seq<TrampolineFunction>,
    ls: Seq<LoweredSignature>,
    sections: Seq<WasmSection>,
    n_types: int,
    n_functions: int,
    calls: Seq<WasmCall>,
    x: (int, int, Seq<u8>),
)
    requires
        imports.len() > 0,
        patched(w, imports, ts, ls, sections, n_types, n_functions, calls) is Ok,
        exists|m: int|
            0 <= m < call_edits(w, calls, imports, ts, n_functions, 0)->Ok_0.len() && call_edits(
                w,
                calls,
                imports,
                ts,
                n_functions,
                0,
            )->Ok_0[m] == x,
    ensures
        call_edits(w, calls, imports, ts, n_functions, 0) is Ok,
        exists|k: int|
            0 <= k < patch_edits(w, imports, ts, ls, sections, n_types, n_functions, calls)->Ok_0.len()
                && patch_edits(w, imports, ts, ls, sections, n_types, n_functions, calls)->Ok_0[k] == x,
        edits_in_order(
            patch_edits(w, imports, ts, ls, sections, n_types, n_functions, calls)->Ok_0,
            w.len() as int,
        ),
        patched(w, imports, ts, ls, sections, n_types, n_functions, calls)->Ok_0 == apply_edits(
            w,
            patch_edits(w, imports, ts, ls, sections, n_types, n_functions, calls)->Ok_0,
        ),
{
    let es = patch_edits(w, imports, ts, ls, sections, n_types, n_functions, calls)->Ok_0;
    let tsec = sections[section_index(sections, WasmSectionCode::Type)->Some_0];
    let fsec = sections[section_index(sections, WasmSectionCode::Function)->Some_0];
    let csec = sections[section_index(sections, WasmSectionCode::Code)->Some_0];
    crate::patch::lemma_patch_edits_parts(w, imports, ts, ls, sections, n_types, n_functions, calls);
    let call_es = call_edits(w, calls, imports, ts, n_functions, 0)->Ok_0;
    let type_es = section_edits(w, tsec, 0, crate::patch::lowered_entries(ls))->Ok_0;
    let import_es = import_edits(w, imports, ls, n_types)->Ok_0;
    let function_es = section_edits(w, fsec, 0, crate::patch::trampoline_declarations(ts))->Ok_0;
    let code_es = section_edits(w, csec, growth(call_es), crate::patch::trampoline_bodies(ts))->Ok_0;
    lemma_section_edits_shape(w, tsec, 0, crate::patch::lowered_entries(ls));
    lemma_section_edits_shape(w, fsec, 0, crate::patch::trampoline_declarations(ts));
    lemma_section_edits_shape(w, csec, growth(call_es), crate::patch::trampoline_bodies(ts));
    lemma_parts_index(es, type_es, import_es, function_es, code_es, call_es);
    let m = choose|m: int| 0 <= m < call_es.len() && call_es[m] == x;
    assert(es[8 + import_es.len() + m] == call_es[m]);
}

/// After a patch each call of an affected import reads back as the index of
/// its trampoline: the number of functions already declared plus the
/// trampoline's place among the trampolines. The operand has moved by the
/// growth of the edits before it.
pub proof fn law_call_redirection(
    w: Seq<u8>,
    imports: Seq<&WasmFunction>,
    ts: Seq<TrampolineFunction>,
    ls: Seq<LoweredSignature>,
    sections: Seq<WasmSection>,
    n_types: int,
    n_functions: int,
    calls: Seq<WasmCall>,
    j: int,
)
    requires
        imports.len() > 0,
        n_functions >= 0,
        n_functions + ts.len() <= u32::MAX,
        patched(w, imports, ts, ls, sections, n_types, n_functions, calls) is Ok,
        0 <= j < calls.len(),
        import_index(imports, calls[j].function_index) is Some,
    ensures
        ({
            let out = patched(w, imports, ts, ls, sections, n_types, n_functions, calls)->Ok_0;
            let es = patch_edits(w, imports, ts, ls, sections, n_types, n_functions, calls)->Ok_0;
            let imp = imports[import_index(imports, calls[j].function_index)->Some_0];
            let t = trampoline_index(ts, imp.signature_index);
            &&& t is Some
            &&& exists|k: int|
                0 <= k < es.len() && es[k].0 == calls[j].position && varint_at(
                    out,
                    calls[j].position + growth(es.take(k)),
                ) == Some((n_functions + t->Some_0) as nat)
        }),
{
    let es = patch_edits(w, imports, ts, ls, sections, n_types, n_functions, calls)->Ok_0;
    crate::patch::lemma_patch_edits_parts(w, imports, ts, ls, sections, n_types, n_functions, calls);
    lemma_call_edits_contain(w, calls, imports, ts, n_functions, 0, j);
    let x = call_operand_edit(w, calls[j], imports, ts, n_functions)->Ok_0->Some_0;
    let imp = imports[import_index(imports, calls[j].function_index)->Some_0];
    let t = trampoline_index(ts, imp.signature_index)->Some_0;
    crate::redirect::lemma_first_index(ts.map_values(|t: TrampolineFunction| t.signature_index), imp.signature_index);
    lemma_call_edit_in_patch(w, imports, ts, ls, sections, n_types, n_functions, calls, x);
    let k = choose|k: int| 0 <= k < es.len() && es[k] == x;
    lemma_edit_reads_back(w, es, k, (n_functions + t) as nat);
}

/// After a patch, the size field of each body that holds redirected calls
/// whose operands changed length reads back as its old value plus the sum
/// of those changes over the body's run of calls. The field has moved by
/// the growth of the edits before it.
pub proof fn law_body_size(
    w: Seq<u8>,
    imports: Seq<&WasmFunction>,
    ts: Seq<TrampolineFunction>,
    ls: Seq<LoweredSignature>,
    sections: Seq<WasmSection>,
    n_types: int,
    n_functions: int,
    calls: Seq<WasmCall>,
    j: int,
)
    requires
        imports.len() > 0,
        patched(w, imports, ts, ls, sections, n_types, n_functions, calls) is Ok,
        0 <= j < calls.len(),
        j == 0 || calls[j - 1].function_body_position != calls[j].function_body_position,
        body_growth(w, calls, imports, ts, n_functions, j, calls[j].function_body_position) != 0,
    ensures
        ({
            let out = patched(w, imports, ts, ls, sections, n_types, n_functions, calls)->Ok_0;
            let es = patch_edits(w, imports, ts, ls, sections, n_types, n_functions, calls)->Ok_0;
            let bp = calls[j].function_body_position as int;
            let g = body_growth(w, calls, imports, ts, n_functions, j, calls[j].function_body_position);
            &&& varint_at(w, bp) is Some
            &&& exists|k: int|
                0 <= k < es.len() && es[k].0 == bp && varint_at(out, bp + growth(es.take(k))) == Some(
                    (varint_at(w, bp)->Some_0 + g) as nat,
                )
        }),
{
    let es = patch_edits(w, imports, ts, ls, sections, n_types, n_functions, calls)->Ok_0;
    let bpu = calls[j].function_body_position;
    let bp = bpu as int;
    let g = body_growth(w, calls, imports, ts, n_functions, j, bpu);
    crate::patch::lemma_patch_edits_parts(w, imports, ts, ls, sections, n_types, n_functions, calls);
    lemma_call_edits_contain(w, calls, imports, ts, n_functions, 0, j);
    let size = varint_at(w, bp)->Some_0;
    let x = (bp, leb128(size).len() as int, leb128((size + g) as nat));
    assert(size_edit(w, bp, g)->Ok_0 == seq![x]);
    lemma_call_edit_in_patch(w, imports, ts, ls, sections, n_types, n_functions, calls, x);
    let k = choose|k: int| 0 <= k < es.len() && es[k] == x;
    lemma_edit_reads_back(w, es, k, (size + g) as nat);
}

/// With no affected import, a patch succeeds and leaves every byte as it was.
pub proof fn law_no_affected_imports(
    w: Seq<u8>,
    ts: Seq<TrampolineFunction>,
    ls: Seq<LoweredSignature>,
    sections: Seq<WasmSection>,
    n_types: int,
    n_functions: int,
    calls: Seq<WasmCall>,
)
    ensures
        patched(w, Seq::<&WasmFunction>::empty(), ts, ls, sections, n_types, n_functions, calls)
            == Ok::<_, PatchError>(w),
{
}

/// Appending to a section whose length field is true, with room in 32 bits
/// for the new length and count, succeeds. Afterwards the count reads back
/// raised by the number of entries, and the length field reads back as the
/// number of bytes from its own end to the end of the appended entries,
/// which close the section.
pub proof fn law_append_keeps_section_true(
    w: Seq<u8>,
    starting_offset: int,
    insertion_offset: int,
    entries: Seq<Seq<u8>>,
    section: WasmSection,
)
    requires
        starting_offset >= 0,
        insertion_offset >= 0,
        ({
            let p = starting_offset + section.start_position + 1;
            let e = starting_offset + insertion_offset + section.end_position;
            &&& varint_at(w, p) is Some
            &&& varint_at(w, p + leb128(varint_at(w, p)->Some_0).len()) is Some
            &&& {
                let len = varint_at(w, p)->Some_0;
                let a = leb128(len).len() as int;
                let count = varint_at(w, p + a)->Some_0;
                let b = leb128(count).len() as int;
                &&& p + a + b <= e <= w.len()
                &&& len + insertion_offset == e - (p + a)
                &&& count + entries.len() <= u32::MAX
                &&& len + insertion_offset + concat(entries).len() + 5 <= u32::MAX
            }
        }),
    ensures
        ({
            let p = starting_offset + section.start_position + 1;
            let e = starting_offset + insertion_offset + section.end_position;
            let len = varint_at(w, p)->Some_0;
            let a = leb128(len).len() as int;
            let count = varint_at(w, p + a)->Some_0;
            let r = appended_section(w, starting_offset, insertion_offset, entries, section);
            &&& r is Ok
            &&& varint_at(r->Ok_0, p) is Some
            &&& {
                let new_len = varint_at(r->Ok_0, p)->Some_0;
                let q = p + leb128(new_len).len();
                let end = e + (q - p - a) + (leb128(count + entries.len()).len() - leb128(count).len())
                    + concat(entries).len();
                &&& varint_at(r->Ok_0, q) == Some(count + entries.len())
                &&& new_len == end - q
                &&& r->Ok_0.subrange(end - concat(entries).len(), end) == concat(entries)
            }
        }),
{
    let p = starting_offset + section.start_position + 1;
    let e = starting_offset + insertion_offset + section.end_position;
    let len = varint_at(w, p)->Some_0;
    let a = leb128(len).len() as int;
    let count = varint_at(w, p + a)->Some_0;
    let b = leb128(count).len() as int;
    let new_count = count + entries.len();
    crate::varint::lemma_leb128_len_u32(count);
    crate::varint::lemma_leb128_len_u32(new_count);
    crate::varint::lemma_leb128_len_monotone(count, new_count);
    let new_len = (len + insertion_offset + concat(entries).len() + leb128(new_count).len() - b) as nat;
    crate::varint::lemma_leb128_len_u32(new_len);
    let out = appended_section(w, starting_offset, insertion_offset, entries, section)->Ok_0;
    let ln = leb128(new_len);
    let cn = leb128(new_count);
    let x = concat(entries);
    let mid = w.subrange(p + a + b, e);
    assert(out == w.subrange(0, p) + ln + cn + mid + x + w.subrange(e, w.len() as int));
    let q = p + ln.len();
    assert(out.subrange(p, q) =~= ln);
    lemma_varint_at(out, p, new_len);
    assert(out.subrange(q, q + cn.len()) =~= cn);
    lemma_varint_at(out, q, new_count);
    let end = e + (q - p - a) + (cn.len() - b) + x.len();
    assert(out.subrange(end - x.len(), end) =~= x);
}

} // verus!
