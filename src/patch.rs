//! The whole patch: the five phases in the order the module format asks for,
//! planned against the original bytes and then applied in one pass.
use crate::calls::{call_edits, redirect_calls};
use crate::error::PatchError;
use crate::redirect::{import_edit, rewrite_import_signature};
use crate::section::{entry_views, plan_section_append, section_edits};
use crate::surgery::{apply_edits, apply_edits_to_buffer, edit_views, edits_in_order, growth, Edit};
use crate::varint::{encode_varint, leb128};
use crate::wasm::{
    LoweredSignature, TrampolineFunction, WasmCall, WasmFunction, WasmSection, WasmSectionCode,
    WasmTypeSignature,
};
use vstd::prelude::*;

verus! {

/// The index of the first section of kind `code`.
pub open spec fn section_index(sections: Seq<WasmSection>, code: WasmSectionCode) -> Option<int>
    decreases sections.len(),
{
    if sections.len() == 0 {
        None
    } else {
        match section_index(sections.drop_last(), code) {
            Some(i) => Some(i),
            None => if sections.last().code == code {
                Some(sections.len() - 1)
            } else {
                None
            },
        }
    }
}

/// The edits to the signature fields of the affected imports, in their order.
pub open spec fn import_edits(
    w: Seq<u8>,
    imports: Seq<&WasmFunction>,
    lowered: Seq<LoweredSignature>,
    n_types: int,
) -> Result<Seq<(int, int, Seq<u8>)>, PatchError>
    decreases imports.len(),
{
    if imports.len() == 0 {
        Ok(seq![])
    } else {
        match import_edits(w, imports.drop_last(), lowered, n_types) {
            Err(e) => Err(e),
            Ok(es) => match import_edit(w, *imports.last(), lowered, n_types) {
                Err(e) => Err(e),
                Ok(e) => Ok(es.push(e)),
            },
        }
    }
}

/// The type-section entries of the lowered signatures.
pub open spec fn lowered_entries(ls: Seq<LoweredSignature>) -> Seq<Seq<u8>> {
    ls.map_values(|l: LoweredSignature| l.bytes@)
}

/// The function-section entries of the trampolines: their signature indices.
pub open spec fn trampoline_declarations(ts: Seq<TrampolineFunction>) -> Seq<Seq<u8>> {
    ts.map_values(|t: TrampolineFunction| leb128(t.signature_index as nat))
}

/// The code-section entries of the trampolines: their bodies.
pub open spec fn trampoline_bodies(ts: Seq<TrampolineFunction>) -> Seq<Seq<u8>> {
    ts.map_values(|t: TrampolineFunction| t.bytes@)
}

/// Every edit of the patch, in the order of the module: the type section,
/// the imports, the function section, then the code section, whose header
/// comes before the call edits and whose new bodies come after them.
#[verifier::opaque]
pub open spec fn patch_edits(
    w: Seq<u8>,
    imports: Seq<&WasmFunction>,
    ts: Seq<TrampolineFunction>,
    ls: Seq<LoweredSignature>,
    sections: Seq<WasmSection>,
    n_types: int,
    n_functions: int,
    calls: Seq<WasmCall>,
) -> Result<Seq<(int, int, Seq<u8>)>, PatchError> {
    match section_index(sections, WasmSectionCode::Type) {
        None => Err(PatchError::MissingSectionField),
        Some(ti) => match section_edits(w, sections[ti], 0, lowered_entries(ls)) {
            Err(e) => Err(e),
            Ok(type_es) => match import_edits(w, imports, ls, n_types) {
                Err(e) => Err(e),
                Ok(import_es) => match section_index(sections, WasmSectionCode::Function) {
                    None => Err(PatchError::MissingSectionField),
                    Some(fi) => match section_edits(w, sections[fi], 0, trampoline_declarations(ts)) {
                        Err(e) => Err(e),
                        Ok(function_es) => match call_edits(w, calls, imports, ts, n_functions, 0) {
                            Err(e) => Err(e),
                            Ok(call_es) => match section_index(sections, WasmSectionCode::Code) {
                                None => Err(PatchError::MissingSectionField),
                                Some(ci) => match section_edits(
                                    w,
                                    sections[ci],
                                    growth(call_es),
                                    trampoline_bodies(ts),
                                ) {
                                    Err(e) => Err(e),
                                    Ok(code_es) => Ok(
                                        type_es + import_es + function_es + code_es.take(2) + call_es
                                            + code_es.skip(2),
                                    ),
                                },
                            },
                        },
                    },
                },
            },
        },
    }
}

/// The patched module, or why there is none. With no affected import there
/// is nothing to do; otherwise every edit is made, provided the edits follow
/// one another through the module without overlap.
pub open spec fn patched(
    w: Seq<u8>,
    imports: Seq<&WasmFunction>,
    ts: Seq<TrampolineFunction>,
    ls: Seq<LoweredSignature>,
    sections: Seq<WasmSection>,
    n_types: int,
    n_functions: int,
    calls: Seq<WasmCall>,
) -> Result<Seq<u8>, PatchError> {
    if imports.len() == 0 {
        Ok(w)
    } else {
        match patch_edits(w, imports, ts, ls, sections, n_types, n_functions, calls) {
            Err(e) => Err(e),
            Ok(es) => if edits_in_order(es, w.len() as int) {
                Ok(apply_edits(w, es))
            } else {
                Err(PatchError::PositionOutOfBounds)
            },
        }
    }
}

fn find_section(sections: &[WasmSection], code: WasmSectionCode) -> (r: Option<usize>)
    ensures
        match r {
            Some(i) => section_index(sections@, code) == Some(i as int) && i < sections@.len(),
            None => section_index(sections@, code) is None,
        },
{
    let mut i: usize = 0;
    while i < sections.len()
        invariant
            i <= sections@.len(),
            section_index(sections@.take(i as int), code) is None,
        decreases sections@.len() - i,
    {
        assert(sections@.take(i + 1).drop_last() =~= sections@.take(i as int));
        if sections[i].code == code {
            proof {
                lemma_section_index_prefix(sections@, i + 1, code);
            }
            return Some(i);
        }
        i = i + 1;
    }
    assert(sections@.take(i as int) =~= sections@);
    None
}

proof fn lemma_section_index_prefix(sections: Seq<WasmSection>, n: int, code: WasmSectionCode)
    requires
        0 <= n <= sections.len(),
        section_index(sections.take(n), code) is Some,
    ensures
        section_index(sections, code) == section_index(sections.take(n), code),
    decreases sections.len() - n,
{
    if n == sections.len() {
        assert(sections.take(n) =~= sections);
    } else {
        assert(sections.take(n + 1).drop_last() =~= sections.take(n));
        lemma_section_index_prefix(sections, n + 1, code);
    }
}

/// Whether each edit ends before the next begins, the last inside `len` bytes.
fn edits_are_in_order(edits: &Vec<Edit>, len: usize) -> (r: bool)
    ensures
        r == edits_in_order(edit_views(edits@), len as int),
{
    let ghost es = edit_views(edits@);
    let mut i: usize = 0;
    while i < edits.len()
        invariant
            es == edit_views(edits@),
            i <= edits@.len(),
            forall|k: int|
                0 <= k < i ==> {
                    &&& 0 <= #[trigger] es[k].0
                    &&& 0 <= es[k].1
                    &&& es[k].0 + es[k].1 <= if k + 1 < es.len() {
                        es[k + 1].0
                    } else {
                        len as int
                    }
                },
        decreases edits@.len() - i,
    {
        let end: u128 = edits[i].position as u128 + edits[i].removed as u128;
        let next: usize = if i + 1 < edits.len() {
            edits[i + 1].position
        } else {
            len
        };
        assert(es[i as int] == edits@[i as int]@);
        if i + 1 < edits.len() {
            assert(es[i + 1] == edits@[i + 1]@);
        }
        if end > next as u128 {
            assert(es[i as int].0 + es[i as int].1 > if i + 1 < es.len() {
                es[i + 1].0
            } else {
                len as int
            });
            return false;
        }
        i = i + 1;
    }
    true
}

/// The entries of `ls`, each its encoded signature.
fn lowered_signature_entries(ls: &[LoweredSignature]) -> (r: Vec<Vec<u8>>)
    ensures
        entry_views(r@) == lowered_entries(ls@),
{
    let mut out: Vec<Vec<u8>> = Vec::new();
    let mut i: usize = 0;
    while i < ls.len()
        invariant
            i <= ls@.len(),
            out@.len() == i,
            forall|k: int| 0 <= k < i ==> #[trigger] out@[k]@ == ls@[k].bytes@,
        decreases ls@.len() - i,
    {
        let b = ls[i].bytes.clone();
        assert(b@ =~= ls@[i as int].bytes@);
        out.push(b);
        i = i + 1;
    }
    assert(entry_views(out@) =~= lowered_entries(ls@));
    out
}

/// The function-section entries of `ts`.
fn trampoline_declaration_entries(ts: &[TrampolineFunction]) -> (r: Vec<Vec<u8>>)
    requires
        forall|k: int| 0 <= k < ts@.len() ==> #[trigger] ts@[k].signature_index <= u32::MAX,
    ensures
        entry_views(r@) == trampoline_declarations(ts@),
{
    let mut out: Vec<Vec<u8>> = Vec::new();
    let mut i: usize = 0;
    while i < ts.len()
        invariant
            i <= ts@.len(),
            forall|k: int| 0 <= k < ts@.len() ==> #[trigger] ts@[k].signature_index <= u32::MAX,
            out@.len() == i,
            forall|k: int| 0 <= k < i ==> #[trigger] out@[k]@ == leb128(ts@[k].signature_index as nat),
        decreases ts@.len() - i,
    {
        let b = encode_varint(ts[i].signature_index as u32);
        out.push(b);
        i = i + 1;
    }
    assert(entry_views(out@) =~= trampoline_declarations(ts@));
    out
}

/// The code-section entries of `ts`.
fn trampoline_body_entries(ts: &[TrampolineFunction]) -> (r: Vec<Vec<u8>>)
    ensures
        entry_views(r@) == trampoline_bodies(ts@),
{
    let mut out: Vec<Vec<u8>> = Vec::new();
    let mut i: usize = 0;
    while i < ts.len()
        invariant
            i <= ts@.len(),
            out@.len() == i,
            forall|k: int| 0 <= k < i ==> #[trigger] out@[k]@ == ts@[k].bytes@,
        decreases ts@.len() - i,
    {
        let b = ts[i].bytes.clone();
        assert(b@ =~= ts@[i as int].bytes@);
        out.push(b);
        i = i + 1;
    }
    assert(entry_views(out@) =~= trampoline_bodies(ts@));
    out
}

/// The parts a successful patch is made of, in their order.
pub proof fn lemma_patch_edits_parts(
    w: Seq<u8>,
    imports: Seq<&WasmFunction>,
    ts: Seq<TrampolineFunction>,
    ls: Seq<LoweredSignature>,
    sections: Seq<WasmSection>,
    n_types: int,
    n_functions: int,
    calls: Seq<WasmCall>,
)
    requires
        patch_edits(w, imports, ts, ls, sections, n_types, n_functions, calls) is Ok,
    ensures
        ({
            let es = patch_edits(w, imports, ts, ls, sections, n_types, n_functions, calls)->Ok_0;
            let tsec = sections[section_index(sections, WasmSectionCode::Type)->Some_0];
            let fsec = sections[section_index(sections, WasmSectionCode::Function)->Some_0];
            let csec = sections[section_index(sections, WasmSectionCode::Code)->Some_0];
            let call_r = call_edits(w, calls, imports, ts, n_functions, 0);
            &&& section_index(sections, WasmSectionCode::Type) is Some
            &&& section_index(sections, WasmSectionCode::Function) is Some
            &&& section_index(sections, WasmSectionCode::Code) is Some
            &&& section_edits(w, tsec, 0, lowered_entries(ls)) is Ok
            &&& import_edits(w, imports, ls, n_types) is Ok
            &&& section_edits(w, fsec, 0, trampoline_declarations(ts)) is Ok
            &&& call_r is Ok
            &&& section_edits(w, csec, growth(call_r->Ok_0), trampoline_bodies(ts)) is Ok
            &&& es == section_edits(w, tsec, 0, lowered_entries(ls))->Ok_0 + import_edits(
                w,
                imports,
                ls,
                n_types,
            )->Ok_0 + section_edits(w, fsec, 0, trampoline_declarations(ts))->Ok_0 + section_edits(
                w,
                csec,
                growth(call_r->Ok_0),
                trampoline_bodies(ts),
            )->Ok_0.take(2) + call_r->Ok_0 + section_edits(
                w,
                csec,
                growth(call_r->Ok_0),
                trampoline_bodies(ts),
            )->Ok_0.skip(2)
        }),
{
    reveal(patch_edits);
}

proof fn lemma_import_edits_err_prefix(
    w: Seq<u8>,
    imports: Seq<&WasmFunction>,
    lowered: Seq<LoweredSignature>,
    n_types: int,
    n: int,
)
    requires
        0 <= n <= imports.len(),
        import_edits(w, imports.take(n), lowered, n_types) is Err,
    ensures
        import_edits(w, imports, lowered, n_types) == import_edits(w, imports.take(n), lowered, n_types),
    decreases imports.len() - n,
{
    if n == imports.len() {
        assert(imports.take(n) =~= imports);
    } else {
        assert(imports.take(n + 1).drop_last() =~= imports.take(n));
        lemma_import_edits_err_prefix(w, imports, lowered, n_types, n + 1);
    }
}

/// Points every affected import at its lowered signature, in the order given.
fn rewrite_imports(
    wasm_binary_vec: &Vec<u8>,
    imports: &[&WasmFunction],
    lowered_signatures: &[LoweredSignature],
    n_types: usize,
) -> (r: Result<Vec<Edit>, PatchError>)
    requires
        n_types + lowered_signatures@.len() <= u32::MAX,
    ensures
        match r {
            Ok(es) => import_edits(wasm_binary_vec@, imports@, lowered_signatures@, n_types as int)
                == Ok::<_, PatchError>(edit_views(es@)),
            Err(e) => import_edits(wasm_binary_vec@, imports@, lowered_signatures@, n_types as int)
                == Err::<Seq<(int, int, Seq<u8>)>, _>(e),
        },
{
    let ghost w = wasm_binary_vec@;
    let mut out: Vec<Edit> = Vec::new();
    let mut i: usize = 0;
    assert(imports@.take(0) =~= Seq::<&WasmFunction>::empty());
    assert(edit_views(out@) =~= Seq::<(int, int, Seq<u8>)>::empty());
    while i < imports.len()
        invariant
            w == wasm_binary_vec@,
            i <= imports@.len(),
            n_types + lowered_signatures@.len() <= u32::MAX,
            import_edits(w, imports@.take(i as int), lowered_signatures@, n_types as int) == Ok::<
                _,
                PatchError,
            >(edit_views(out@)),
        decreases imports@.len() - i,
    {
        assert(imports@.take(i + 1).drop_last() =~= imports@.take(i as int));
        assert(imports@.take(i + 1).last() == imports@[i as int]);
        match rewrite_import_signature(wasm_binary_vec, imports[i], lowered_signatures, n_types) {
            Ok(e) => {
                let ghost before = edit_views(out@);
                out.push(e);
                assert(edit_views(out@) =~= before.push(out@.last()@));
            },
            Err(e) => {
                proof {
                    lemma_import_edits_err_prefix(w, imports@, lowered_signatures@, n_types as int, i + 1);
                }
                return Err(e);
            },
        }
        i = i + 1;
    }
    assert(imports@.take(i as int) =~= imports@);
    Ok(out)
}

/// Patches a module in place so that each affected import is declared with
/// its lowered signature and each call of it goes through a trampoline of
/// the original signature, appended to the module.
///
/// All positions in the arguments refer to `wasm_binary_vec` as it is on
/// entry. Every edit is planned against those bytes before any is made, so
/// on an error the buffer is left as it was. Imports and calls are taken in
/// the order given, which must be the order of the module with each body's
/// calls together: nothing is sorted, and edits that do not follow one
/// another through the module are refused.
pub fn apply_transformations_to_wasm_binary_vec(
    wasm_binary_vec: &mut Vec<u8>,
    imported_i64_functions: &[&WasmFunction],
    trampoline_functions: &[TrampolineFunction],
    lowered_signatures: &[LoweredSignature],
    wasm_sections: &[WasmSection],
    type_signatures: &[WasmTypeSignature],
    wasm_functions: &[WasmFunction],
    wasm_calls: &[WasmCall],
) -> (r: Result<(), PatchError>)
    requires
        imported_i64_functions@.len() > 0 ==> {
            &&& type_signatures@.len() + lowered_signatures@.len() <= u32::MAX
            &&& wasm_functions@.len() + trampoline_functions@.len() <= u32::MAX
            &&& forall|k: int|
                0 <= k < trampoline_functions@.len()
                    ==> #[trigger] trampoline_functions@[k].signature_index <= u32::MAX
        },
    ensures
        match r {
            Ok(()) => patched(
                old(wasm_binary_vec)@,
                imported_i64_functions@,
                trampoline_functions@,
                lowered_signatures@,
                wasm_sections@,
                type_signatures@.len() as int,
                wasm_functions@.len() as int,
                wasm_calls@,
            ) == Ok::<_, PatchError>(final(wasm_binary_vec)@),
            Err(e) => patched(
                old(wasm_binary_vec)@,
                imported_i64_functions@,
                trampoline_functions@,
                lowered_signatures@,
                wasm_sections@,
                type_signatures@.len() as int,
                wasm_functions@.len() as int,
                wasm_calls@,
            ) == Err::<Seq<u8>, _>(e) && final(wasm_binary_vec)@ == old(wasm_binary_vec)@,
        },
{
    proof {
        reveal(patch_edits);
    }
    if imported_i64_functions.len() == 0 {
        return Ok(());
    }
    let n_types: usize = type_signatures.len();
    let n_functions: usize = wasm_functions.len();
    let ti = match find_section(wasm_sections, WasmSectionCode::Type) {
        Some(i) => i,
        None => {
            return Err(PatchError::MissingSectionField);
        },
    };
    let lowered = lowered_signature_entries(lowered_signatures);
    let mut es = plan_section_append(wasm_binary_vec, 0, &lowered, &wasm_sections[ti])?;
    let mut import_es = rewrite_imports(
        wasm_binary_vec,
        imported_i64_functions,
        lowered_signatures,
        n_types,
    )?;
    let fi = match find_section(wasm_sections, WasmSectionCode::Function) {
        Some(i) => i,
        None => {
            return Err(PatchError::MissingSectionField);
        },
    };
    let declarations = trampoline_declaration_entries(trampoline_functions);
    let mut function_es = plan_section_append(
        wasm_binary_vec,
        0,
        &declarations,
        &wasm_sections[fi],
    )?;
    let (mut call_es, calls_byte_offset) = redirect_calls(
        wasm_binary_vec,
        wasm_calls,
        imported_i64_functions,
        trampoline_functions,
        n_functions,
    )?;
    let ci = match find_section(wasm_sections, WasmSectionCode::Code) {
        Some(i) => i,
        None => {
            return Err(PatchError::MissingSectionField);
        },
    };
    // the call growth is bounded by the number of calls, which fits a usize
    let _n_calls: usize = wasm_calls.len();
    let bodies = trampoline_body_entries(trampoline_functions);
    let mut code_es = plan_section_append(
        wasm_binary_vec,
        calls_byte_offset,
        &bodies,
        &wasm_sections[ci],
    )?;
    let ghost type_v = edit_views(es@);
    let ghost import_v = edit_views(import_es@);
    let ghost function_v = edit_views(function_es@);
    let ghost call_v = edit_views(call_es@);
    let ghost code_v = edit_views(code_es@);
    proof {
        crate::section::lemma_section_edits_shape(
            wasm_binary_vec@,
            wasm_sections@[ci as int],
            calls_byte_offset as int,
            entry_views(bodies@),
        );
    }
    let tail = code_es.pop().unwrap();
    es.append(&mut import_es);
    es.append(&mut function_es);
    es.append(&mut code_es);
    es.append(&mut call_es);
    es.push(tail);
    proof {
        assert(edit_views(es@) =~= type_v + import_v + function_v + code_v.take(2) + call_v + code_v.skip(2));
    }
    if !edits_are_in_order(&es, wasm_binary_vec.len()) {
        return Err(PatchError::PositionOutOfBounds);
    }
    apply_edits_to_buffer(wasm_binary_vec, &es);
    Ok(())
}

} // verus!
