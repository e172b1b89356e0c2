//! Pointing affected imports at their lowered signatures, and calls to them at
//! the trampolines.
use crate::error::PatchError;
use crate::surgery::Edit;
use crate::varint::{decode_varint, encode_varint, lemma_leb128_len_u32, leb128, varint_at};
use crate::wasm::{LoweredSignature, TrampolineFunction, WasmCall, WasmFunction};
use vstd::prelude::*;

verus! {

/// The first index at which `keys` holds `key`.
pub open spec fn first_index(keys: Seq<usize>, key: usize) -> Option<int>
    decreases keys.len(),
{
    if keys.len() == 0 {
        None
    } else {
        match first_index(keys.drop_last(), key) {
            Some(i) => Some(i),
            None => if keys.last() == key {
                Some(keys.len() - 1)
            } else {
                None
            },
        }
    }
}

/// The index of the first lowered signature that stands in for signature `sig`.
pub open spec fn lowered_index(ls: Seq<LoweredSignature>, sig: usize) -> Option<int> {
    first_index(ls.map_values(|l: LoweredSignature| l.original_signature_index), sig)
}

/// The index of the first trampoline with signature `sig`.
pub open spec fn trampoline_index(ts: Seq<TrampolineFunction>, sig: usize) -> Option<int> {
    first_index(ts.map_values(|t: TrampolineFunction| t.signature_index), sig)
}

/// The index of the first affected import with function index `f`.
pub open spec fn import_index(imports: Seq<&WasmFunction>, f: usize) -> Option<int> {
    first_index(imports.map_values(|i: &WasmFunction| i.function_index), f)
}

/// What the first index is: where the key stands, with no earlier place
/// holding it.
pub proof fn lemma_first_index(keys: Seq<usize>, key: usize)
    ensures
        match first_index(keys, key) {
            Some(i) => 0 <= i < keys.len() && keys[i] == key && forall|j: int|
                0 <= j < i ==> keys[j] != key,
            None => forall|j: int| 0 <= j < keys.len() ==> keys[j] != key,
        },
    decreases keys.len(),
{
    if keys.len() > 0 {
        lemma_first_index(keys.drop_last(), key);
        assert(forall|j: int| 0 <= j < keys.len() - 1 ==> keys.drop_last()[j] == keys[j]);
    }
}

/// Once a prefix holds the key, the whole sequence has it at the same index.
pub proof fn lemma_first_index_prefix(keys: Seq<usize>, n: int, key: usize)
    requires
        0 <= n <= keys.len(),
        first_index(keys.take(n), key) is Some,
    ensures
        first_index(keys, key) == first_index(keys.take(n), key),
    decreases keys.len() - n,
{
    if n == keys.len() {
        assert(keys.take(n) =~= keys);
    } else {
        assert(keys.take(n + 1).drop_last() =~= keys.take(n));
        lemma_first_index_prefix(keys, n + 1, key);
    }
}

pub fn find_lowered(ls: &[LoweredSignature], sig: usize) -> (r: Option<usize>)
    ensures
        match r {
            Some(i) => lowered_index(ls@, sig) == Some(i as int) && i < ls@.len(),
            None => lowered_index(ls@, sig) is None,
        },
{
    let ghost keys = ls@.map_values(|l: LoweredSignature| l.original_signature_index);
    let mut i: usize = 0;
    while i < ls.len()
        invariant
            i <= ls@.len(),
            keys == ls@.map_values(|l: LoweredSignature| l.original_signature_index),
            first_index(keys.take(i as int), sig) is None,
        decreases ls@.len() - i,
    {
        assert(keys.take(i + 1).drop_last() =~= keys.take(i as int));
        if ls[i].original_signature_index == sig {
            proof {
                lemma_first_index_prefix(keys, i + 1, sig);
            }
            return Some(i);
        }
        i = i + 1;
    }
    assert(keys.take(i as int) =~= keys);
    None
}

pub fn find_trampoline(ts: &[TrampolineFunction], sig: usize) -> (r: Option<usize>)
    ensures
        match r {
            Some(i) => trampoline_index(ts@, sig) == Some(i as int) && i < ts@.len(),
            None => trampoline_index(ts@, sig) is None,
        },
{
    let ghost keys = ts@.map_values(|t: TrampolineFunction| t.signature_index);
    let mut i: usize = 0;
    while i < ts.len()
        invariant
            i <= ts@.len(),
            keys == ts@.map_values(|t: TrampolineFunction| t.signature_index),
            first_index(keys.take(i as int), sig) is None,
        decreases ts@.len() - i,
    {
        assert(keys.take(i + 1).drop_last() =~= keys.take(i as int));
        if ts[i].signature_index == sig {
            proof {
                lemma_first_index_prefix(keys, i + 1, sig);
            }
            return Some(i);
        }
        i = i + 1;
    }
    assert(keys.take(i as int) =~= keys);
    None
}

pub fn find_import(imports: &[&WasmFunction], f: usize) -> (r: Option<usize>)
    ensures
        match r {
            Some(i) => import_index(imports@, f) == Some(i as int) && i < imports@.len(),
            None => import_index(imports@, f) is None,
        },
{
    let ghost keys = imports@.map_values(|i: &WasmFunction| i.function_index);
    let mut i: usize = 0;
    while i < imports.len()
        invariant
            i <= imports@.len(),
            keys == imports@.map_values(|i: &WasmFunction| i.function_index),
            first_index(keys.take(i as int), f) is None,
        decreases imports@.len() - i,
    {
        assert(keys.take(i + 1).drop_last() =~= keys.take(i as int));
        if imports[i].function_index == f {
            proof {
                lemma_first_index_prefix(keys, i + 1, f);
            }
            return Some(i);
        }
        i = i + 1;
    }
    assert(keys.take(i as int) =~= keys);
    None
}

/// Where the signature-index field of the import entry at `pos` starts, and
/// its value. The entry holds a module name and a field name, each after its
/// length, then a one-byte kind, then the field. A field that would start
/// past the end of `w` is out of bounds; one that does not decode there is
/// malformed.
pub open spec fn import_signature_field(w: Seq<u8>, pos: int) -> Result<(int, nat), PatchError> {
    if pos >= w.len() {
        Err(PatchError::PositionOutOfBounds)
    } else {
        match varint_at(w, pos) {
            None => Err(PatchError::MalformedVarint),
            Some(m) => {
                let p1 = pos + leb128(m).len() + m;
                if p1 >= w.len() {
                    Err(PatchError::PositionOutOfBounds)
                } else {
                    match varint_at(w, p1) {
                        None => Err(PatchError::MalformedVarint),
                        Some(f) => {
                            let p2 = p1 + leb128(f).len() + f + 1;
                            if p2 >= w.len() {
                                Err(PatchError::PositionOutOfBounds)
                            } else {
                                match varint_at(w, p2) {
                                    None => Err(PatchError::MalformedVarint),
                                    Some(sig) => Ok((p2, sig)),
                                }
                            }
                        },
                    }
                }
            },
        }
    }
}

/// The edit that points import `imp` at its lowered signature, whose index is
/// the number of existing signatures plus its place among the lowered ones.
pub open spec fn import_edit(
    w: Seq<u8>,
    imp: WasmFunction,
    lowered: Seq<LoweredSignature>,
    n_types: int,
) -> Result<(int, int, Seq<u8>), PatchError> {
    match import_signature_field(w, imp.position as int) {
        Err(e) => Err(e),
        Ok((p, sig)) => match lowered_index(lowered, imp.signature_index) {
            None => Err(PatchError::UnresolvedSignatureMapping),
            Some(k) => Ok((p, leb128(sig).len() as int, leb128((n_types + k) as nat))),
        },
    }
}

/// Finds the signature-index field of the import entry at `position`.
pub fn locate_import_signature(wasm_binary_vec: &Vec<u8>, position: usize) -> (r: Result<
    (usize, u32, usize),
    PatchError,
>)
    ensures
        match r {
            Ok((p, sig, n)) => import_signature_field(wasm_binary_vec@, position as int) == Ok::<
                _,
                PatchError,
            >((p as int, sig as nat)) && n == leb128(sig as nat).len(),
            Err(e) => import_signature_field(wasm_binary_vec@, position as int) == Err::<
                (int, nat),
                _,
            >(e),
        },
{
    let len: usize = wasm_binary_vec.len();
    if position >= len {
        return Err(PatchError::PositionOutOfBounds);
    }
    let (m, n1) = decode_varint(wasm_binary_vec, position)?;
    let rest: usize = len - (position + n1);
    if m as usize >= rest {
        return Err(PatchError::PositionOutOfBounds);
    }
    let p1: usize = position + n1 + m as usize;
    let (f, n2) = decode_varint(wasm_binary_vec, p1)?;
    let rest: usize = len - (p1 + n2);
    if rest == 0 || f as usize >= rest - 1 {
        return Err(PatchError::PositionOutOfBounds);
    }
    let p2: usize = p1 + n2 + f as usize + 1;
    let (sig, n3) = decode_varint(wasm_binary_vec, p2)?;
    Ok((p2, sig, n3))
}

/// Rewrites import `imp` to use its lowered signature: returns the edit to
/// its signature-index field.
pub fn rewrite_import_signature(
    wasm_binary_vec: &Vec<u8>,
    imp: &WasmFunction,
    lowered_signatures: &[LoweredSignature],
    n_types: usize,
) -> (r: Result<Edit, PatchError>)
    requires
        n_types + lowered_signatures@.len() <= u32::MAX,
    ensures
        match r {
            Ok(e) => import_edit(wasm_binary_vec@, *imp, lowered_signatures@, n_types as int) == Ok::<
                _,
                PatchError,
            >(e@),
            Err(e) => import_edit(wasm_binary_vec@, *imp, lowered_signatures@, n_types as int)
                == Err::<(int, int, Seq<u8>), _>(e),
        },
{
    let (p, _sig, n) = locate_import_signature(wasm_binary_vec, imp.position)?;
    let k = match find_lowered(lowered_signatures, imp.signature_index) {
        Some(k) => k,
        None => {
            return Err(PatchError::UnresolvedSignatureMapping);
        },
    };
    let bytes = encode_varint((n_types + k) as u32);
    Ok(Edit { position: p, removed: n, bytes })
}

/// The edit that points call `c` at the trampoline of its import: none when
/// `c` calls no affected import. The trampoline's function index is the
/// number of functions already declared plus its place among the trampolines.
pub open spec fn call_operand_edit(
    w: Seq<u8>,
    c: WasmCall,
    imports: Seq<&WasmFunction>,
    ts: Seq<TrampolineFunction>,
    n_functions: int,
) -> Result<Option<(int, int, Seq<u8>)>, PatchError> {
    match import_index(imports, c.function_index) {
        None => Ok(None),
        Some(i) => match trampoline_index(ts, imports[i].signature_index) {
            None => Err(PatchError::UnresolvedSignatureMapping),
            Some(t) => if c.position >= w.len() {
                Err(PatchError::PositionOutOfBounds)
            } else {
                match varint_at(w, c.position as int) {
                    None => Err(PatchError::MalformedVarint),
                    Some(old) => Ok(
                        Some(
                            (
                                c.position as int,
                                leb128(old).len() as int,
                                leb128((n_functions + t) as nat),
                            ),
                        ),
                    ),
                }
            },
        },
    }
}

/// Redirects call `c` to the trampoline of its import; `None` when it calls
/// no affected import.
pub fn redirect_call(
    wasm_binary_vec: &Vec<u8>,
    c: &WasmCall,
    imports: &[&WasmFunction],
    trampoline_functions: &[TrampolineFunction],
    n_functions: usize,
) -> (r: Result<Option<Edit>, PatchError>)
    requires
        n_functions + trampoline_functions@.len() <= u32::MAX,
    ensures
        match r {
            Ok(Some(e)) => call_operand_edit(
                wasm_binary_vec@,
                *c,
                imports@,
                trampoline_functions@,
                n_functions as int,
            ) == Ok::<_, PatchError>(Some(e@)) && 1 <= e.removed <= 5 && 1 <= e.bytes@.len() <= 5,
            Ok(None) => call_operand_edit(
                wasm_binary_vec@,
                *c,
                imports@,
                trampoline_functions@,
                n_functions as int,
            ) == Ok::<Option<(int, int, Seq<u8>)>, PatchError>(None),
            Err(e) => call_operand_edit(
                wasm_binary_vec@,
                *c,
                imports@,
                trampoline_functions@,
                n_functions as int,
            ) == Err::<Option<(int, int, Seq<u8>)>, _>(e),
        },
{
    let i = match find_import(imports, c.function_index) {
        Some(i) => i,
        None => {
            return Ok(None);
        },
    };
    let t = match find_trampoline(trampoline_functions, imports[i].signature_index) {
        Some(t) => t,
        None => {
            return Err(PatchError::UnresolvedSignatureMapping);
        },
    };
    if c.position >= wasm_binary_vec.len() {
        return Err(PatchError::PositionOutOfBounds);
    }
    let (old, n) = decode_varint(wasm_binary_vec, c.position)?;
    let bytes = encode_varint((n_functions + t) as u32);
    proof {
        lemma_leb128_len_u32(old as nat);
        lemma_leb128_len_u32((n_functions + t) as nat);
    }
    Ok(Some(Edit { position: c.position, removed: n, bytes }))
}

} // verus!
