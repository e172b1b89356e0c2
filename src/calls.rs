//! Redirecting every call of an affected import, and keeping the size field
//! of each function body that holds such a call true.
use crate::error::PatchError;
use crate::redirect::{call_operand_edit, redirect_call};
use crate::surgery::{edit_views, growth, Edit};
use crate::varint::{decode_varint, encode_varint, lemma_leb128_len_u32, leb128, varint_at};
use crate::wasm::{TrampolineFunction, WasmCall, WasmFunction};
use vstd::prelude::*;

verus! {

/// `pre` in front of the edits of `r`, or the error of `r`.
pub open spec fn prepend(pre: Seq<(int, int, Seq<u8>)>, r: Result<Seq<(int, int, Seq<u8>)>, PatchError>) -> Result<
    Seq<(int, int, Seq<u8>)>,
    PatchError,
> {
    match r {
        Ok(rest) => Ok(pre + rest),
        Err(e) => Err(e),
    }
}

/// How many bytes redirecting call `c` adds to its body.
pub open spec fn call_growth(
    w: Seq<u8>,
    c: WasmCall,
    imports: Seq<&WasmFunction>,
    ts: Seq<TrampolineFunction>,
    n_functions: int,
) -> int {
    match call_operand_edit(w, c, imports, ts, n_functions) {
        Ok(Some(e)) => e.2.len() - e.1,
        _ => 0,
    }
}

/// How many bytes the calls from `i` on add to body `bp`, up to the first
/// call that lies in another body.
pub open spec fn body_growth(
    w: Seq<u8>,
    calls: Seq<WasmCall>,
    imports: Seq<&WasmFunction>,
    ts: Seq<TrampolineFunction>,
    n_functions: int,
    i: int,
    bp: usize,
) -> int
    decreases calls.len() - i,
{
    if 0 <= i < calls.len() && calls[i].function_body_position == bp {
        call_growth(w, calls[i], imports, ts, n_functions) + body_growth(
            w,
            calls,
            imports,
            ts,
            n_functions,
            i + 1,
            bp,
        )
    } else {
        0
    }
}

/// The edit that adds `g` to the size field of the body at `bp`; none when `g` is zero.
pub open spec fn size_edit(w: Seq<u8>, bp: int, g: int) -> Result<Seq<(int, int, Seq<u8>)>, PatchError> {
    if g == 0 {
        Ok(seq![])
    } else if bp >= w.len() {
        Err(PatchError::PositionOutOfBounds)
    } else {
        match varint_at(w, bp) {
            None => Err(PatchError::MalformedVarint),
            Some(size) => if size + g < 0 || size + g > u32::MAX {
                Err(PatchError::PositionOutOfBounds)
            } else {
                Ok(seq![(bp, leb128(size).len() as int, leb128((size + g) as nat))])
            },
        }
    }
}

pub open spec fn opt_edit(o: Option<(int, int, Seq<u8>)>) -> Seq<(int, int, Seq<u8>)> {
    match o {
        Some(e) => seq![e],
        None => seq![],
    }
}

/// The edits for the calls from `i` on, in their order: where a body's run
/// of calls begins, the edit to its size field, then each call's operand.
pub open spec fn call_edits(
    w: Seq<u8>,
    calls: Seq<WasmCall>,
    imports: Seq<&WasmFunction>,
    ts: Seq<TrampolineFunction>,
    n_functions: int,
    i: int,
) -> Result<Seq<(int, int, Seq<u8>)>, PatchError>
    decreases calls.len() - i,
{
    if i < 0 || i >= calls.len() {
        Ok(seq![])
    } else {
        match call_operand_edit(w, calls[i], imports, ts, n_functions) {
            Err(e) => Err(e),
            Ok(op) => {
                let bp = calls[i].function_body_position;
                let se = if i == 0 || calls[i - 1].function_body_position != bp {
                    size_edit(w, bp as int, body_growth(w, calls, imports, ts, n_functions, i, bp))
                } else {
                    Ok(seq![])
                };
                match se {
                    Err(e) => Err(e),
                    Ok(se) => prepend(
                        se + opt_edit(op),
                        call_edits(w, calls, imports, ts, n_functions, i + 1),
                    ),
                }
            },
        }
    }
}

/// What the run of calls from `start` in body `bp` adds to that body.
fn run_growth(
    wasm_binary_vec: &Vec<u8>,
    calls: &[WasmCall],
    imports: &[&WasmFunction],
    trampoline_functions: &[TrampolineFunction],
    n_functions: usize,
    start: usize,
    bp: usize,
) -> (r: i128)
    requires
        n_functions + trampoline_functions@.len() <= u32::MAX,
        start <= calls@.len(),
    ensures
        r == body_growth(
            wasm_binary_vec@,
            calls@,
            imports@,
            trampoline_functions@,
            n_functions as int,
            start as int,
            bp,
        ),
        -4 * calls@.len() <= r <= 4 * calls@.len(),
{
    let ghost w = wasm_binary_vec@;
    let mut acc: i128 = 0;
    let mut j: usize = start;
    while j < calls.len() && calls[j].function_body_position == bp
        invariant
            w == wasm_binary_vec@,
            start <= j <= calls@.len(),
            n_functions + trampoline_functions@.len() <= u32::MAX,
            -4 * (j - start) <= acc <= 4 * (j - start),
            acc + body_growth(w, calls@, imports@, trampoline_functions@, n_functions as int, j as int, bp)
                == body_growth(
                w,
                calls@,
                imports@,
                trampoline_functions@,
                n_functions as int,
                start as int,
                bp,
            ),
        decreases calls@.len() - j,
    {
        let res = redirect_call(wasm_binary_vec, &calls[j], imports, trampoline_functions, n_functions);
        let ghost cg = call_growth(w, calls@[j as int], imports@, trampoline_functions@, n_functions as int);
        match res {
            Ok(Some(e)) => {
                assert(cg == e.bytes@.len() - e.removed);
                acc = acc + e.bytes.len() as i128 - e.removed as i128;
            },
            _ => {
                assert(cg == 0);
            },
        }
        assert(body_growth(w, calls@, imports@, trampoline_functions@, n_functions as int, j as int, bp)
            == call_growth(w, calls@[j as int], imports@, trampoline_functions@, n_functions as int)
            + body_growth(w, calls@, imports@, trampoline_functions@, n_functions as int, j + 1, bp));
        j = j + 1;
    }
    acc
}

/// The edits held in `o`.
pub open spec fn edits_of(o: Option<Edit>) -> Seq<(int, int, Seq<u8>)> {
    match o {
        Some(e) => seq![e@],
        None => seq![],
    }
}

/// Adds `g` to the size field of the body at `bp`; no edit when `g` is zero.
fn body_size_edit(wasm_binary_vec: &Vec<u8>, bp: usize, g: i128) -> (r: Result<Option<Edit>, PatchError>)
    requires
        -0x1_0000_0000_0000_0000_0000 <= g <= 0x1_0000_0000_0000_0000_0000,
    ensures
        match r {
            Ok(o) => size_edit(wasm_binary_vec@, bp as int, g as int) == Ok::<_, PatchError>(edits_of(o))
                && match o {
                Some(e) => 1 <= e.removed <= 5 && e.bytes@.len() <= 5,
                None => true,
            },
            Err(e) => size_edit(wasm_binary_vec@, bp as int, g as int) == Err::<
                Seq<(int, int, Seq<u8>)>,
                _,
            >(e),
        },
{
    if g == 0 {
        return Ok(None);
    }
    if bp >= wasm_binary_vec.len() {
        return Err(PatchError::PositionOutOfBounds);
    }
    let (size, n) = decode_varint(wasm_binary_vec, bp)?;
    let new_size: i128 = size as i128 + g;
    if new_size < 0 || new_size > u32::MAX as i128 {
        return Err(PatchError::PositionOutOfBounds);
    }
    let bytes = encode_varint(new_size as u32);
    proof {
        lemma_leb128_len_u32(size as nat);
        lemma_leb128_len_u32(new_size as nat);
    }
    let e = Edit { position: bp, removed: n, bytes };
    assert(edits_of(Some(e)) =~= seq![(bp as int, n as int, leb128((size + g) as nat))]);
    Ok(Some(e))
}

pub proof fn lemma_call_edits_unfold(
    w: Seq<u8>,
    calls: Seq<WasmCall>,
    imports: Seq<&WasmFunction>,
    ts: Seq<TrampolineFunction>,
    n_functions: int,
    i: int,
)
    requires
        0 <= i < calls.len(),
    ensures
        call_edits(w, calls, imports, ts, n_functions, i) == match call_operand_edit(
            w,
            calls[i],
            imports,
            ts,
            n_functions,
        ) {
            Err(e) => Err(e),
            Ok(op) => {
                let bp = calls[i].function_body_position;
                let se = if i == 0 || calls[i - 1].function_body_position != bp {
                    size_edit(w, bp as int, body_growth(w, calls, imports, ts, n_functions, i, bp))
                } else {
                    Ok(seq![])
                };
                match se {
                    Err(e) => Err(e),
                    Ok(se) => prepend(
                        se + opt_edit(op),
                        call_edits(w, calls, imports, ts, n_functions, i + 1),
                    ),
                }
            },
        },
{
}

proof fn lemma_growth_one(e: (int, int, Seq<u8>))
    ensures
        growth(seq![e]) == e.2.len() - e.1,
{
    assert(seq![e].drop_last() =~= Seq::<(int, int, Seq<u8>)>::empty());
    assert(growth(seq![e].drop_last()) == 0);
}

/// Growth of a list of edits with one more edit at its end.
proof fn lemma_growth_push(es: Seq<(int, int, Seq<u8>)>, more: Seq<(int, int, Seq<u8>)>)
    requires
        more.len() <= 1,
    ensures
        growth(es + more) == growth(es) + growth(more),
{
    if more.len() == 1 {
        assert((es + more).drop_last() =~= es);
        assert(more.drop_last() =~= Seq::<(int, int, Seq<u8>)>::empty());
        assert(growth(more.drop_last()) == 0);
    } else {
        assert(es + more =~= es);
    }
}

/// Redirects every call of an affected import, in the order of `calls`.
/// Returns the edits, with how many bytes they add in all.
pub fn redirect_calls(
    wasm_binary_vec: &Vec<u8>,
    calls: &[WasmCall],
    imports: &[&WasmFunction],
    trampoline_functions: &[TrampolineFunction],
    n_functions: usize,
) -> (r: Result<(Vec<Edit>, i128), PatchError>)
    requires
        n_functions + trampoline_functions@.len() <= u32::MAX,
    ensures
        match r {
            Ok((es, g)) => call_edits(
                wasm_binary_vec@,
                calls@,
                imports@,
                trampoline_functions@,
                n_functions as int,
                0,
            ) == Ok::<_, PatchError>(edit_views(es@)) && g == growth(edit_views(es@)) && -8 * calls@.len()
                <= g <= 8 * calls@.len(),
            Err(e) => call_edits(
                wasm_binary_vec@,
                calls@,
                imports@,
                trampoline_functions@,
                n_functions as int,
                0,
            ) == Err::<Seq<(int, int, Seq<u8>)>, _>(e),
        },
{
    let ghost w = wasm_binary_vec@;
    let ghost all = call_edits(w, calls@, imports@, trampoline_functions@, n_functions as int, 0);
    let mut out: Vec<Edit> = Vec::new();
    let mut g: i128 = 0;
    let mut i: usize = 0;
    assert(edit_views(out@) =~= Seq::<(int, int, Seq<u8>)>::empty());
    assert(prepend(edit_views(out@), all) =~= all) by {
        match all {
            Ok(rest) => {
                assert(edit_views(out@) + rest =~= rest);
            },
            Err(_) => {},
        }
    }
    while i < calls.len()
        invariant
            w == wasm_binary_vec@,
            i <= calls@.len(),
            n_functions + trampoline_functions@.len() <= u32::MAX,
            all == call_edits(w, calls@, imports@, trampoline_functions@, n_functions as int, 0),
            all == prepend(
                edit_views(out@),
                call_edits(w, calls@, imports@, trampoline_functions@, n_functions as int, i as int),
            ),
            -8 * i <= g <= 8 * i,
            g == growth(edit_views(out@)),
        decreases calls@.len() - i,
    {
        let ghost before = edit_views(out@);
        let ghost here = call_edits(w, calls@, imports@, trampoline_functions@, n_functions as int, i as int);
        let ghost rest = call_edits(w, calls@, imports@, trampoline_functions@, n_functions as int, i + 1);
        let op = match redirect_call(wasm_binary_vec, &calls[i], imports, trampoline_functions, n_functions) {
            Ok(op) => op,
            Err(e) => {
                return Err(e);
            },
        };
        let bp: usize = calls[i].function_body_position;
        let se: Option<Edit> = if i == 0 || calls[i - 1].function_body_position != bp {
            let g = run_growth(wasm_binary_vec, calls, imports, trampoline_functions, n_functions, i, bp);
            match body_size_edit(wasm_binary_vec, bp, g) {
                Ok(o) => o,
                Err(e) => {
                    return Err(e);
                },
            }
        } else {
            None
        };
        proof {
            lemma_call_edits_unfold(w, calls@, imports@, trampoline_functions@, n_functions as int, i as int);
        }
        assert(here == prepend(edits_of(se) + edits_of(op), rest));
        let ghost added_views = edits_of(se) + edits_of(op);
        let ghost sev = edits_of(se);
        let ghost opv = edits_of(op);
        let ghost a0 = g;
        assert(growth(Seq::<(int, int, Seq<u8>)>::empty()) == 0);
        match se {
            Some(e) => {
                proof {
                    lemma_growth_one(e@);
                }
                g = g + e.bytes.len() as i128 - e.removed as i128;
                out.push(e);
            },
            None => {},
        }
        let ghost a1 = g;
        assert(a1 - a0 == growth(sev));
        match op {
            Some(e) => {
                proof {
                    lemma_growth_one(e@);
                }
                g = g + e.bytes.len() as i128 - e.removed as i128;
                out.push(e);
            },
            None => {},
        }
        assert(g - a1 == growth(opv));
        proof {
            assert(edit_views(out@) =~= before + added_views);
            lemma_growth_push(before, edits_of(se));
            lemma_growth_push(before + edits_of(se), edits_of(op));
            assert(before + edits_of(se) + edits_of(op) =~= before + added_views);
            match rest {
                Ok(r) => {
                    assert(before + (added_views + r) =~= edit_views(out@) + r);
                },
                Err(_) => {},
            }
        }
        i = i + 1;
    }
    Ok((out, g))
}

/// Every redirected call has its operand edit among the call edits, and the
/// call that begins a body's run has that body's size edit there too.
pub proof fn lemma_call_edits_contain(
    w: Seq<u8>,
    calls: Seq<WasmCall>,
    imports: Seq<&WasmFunction>,
    ts: Seq<TrampolineFunction>,
    n_functions: int,
    i: int,
    j: int,
)
    requires
        0 <= i <= j < calls.len(),
        call_edits(w, calls, imports, ts, n_functions, i) is Ok,
    ensures
        ({
            let ce = call_edits(w, calls, imports, ts, n_functions, i)->Ok_0;
            let bp = calls[j].function_body_position;
            &&& call_operand_edit(w, calls[j], imports, ts, n_functions) is Ok
            &&& call_operand_edit(w, calls[j], imports, ts, n_functions)->Ok_0 is Some ==> exists|m: int|
                0 <= m < ce.len() && ce[m] == call_operand_edit(
                    w,
                    calls[j],
                    imports,
                    ts,
                    n_functions,
                )->Ok_0->Some_0
            &&& (j == 0 || calls[j - 1].function_body_position != bp) ==> size_edit(
                w,
                bp as int,
                body_growth(w, calls, imports, ts, n_functions, j, bp),
            ) is Ok && forall|x: (int, int, Seq<u8>)|
                size_edit(w, bp as int, body_growth(w, calls, imports, ts, n_functions, j, bp))->Ok_0
                    == seq![x] ==> exists|m: int| 0 <= m < ce.len() && ce[m] == x
        }),
    decreases j - i,
{
    lemma_call_edits_unfold(w, calls, imports, ts, n_functions, i);
    let op = call_operand_edit(w, calls[i], imports, ts, n_functions)->Ok_0;
    let bp = calls[i].function_body_position;
    let se_r = if i == 0 || calls[i - 1].function_body_position != bp {
        size_edit(w, bp as int, body_growth(w, calls, imports, ts, n_functions, i, bp))
    } else {
        Ok(seq![])
    };
    let se = se_r->Ok_0;
    let rest = call_edits(w, calls, imports, ts, n_functions, i + 1);
    let ce = call_edits(w, calls, imports, ts, n_functions, i)->Ok_0;
    assert(rest is Ok);
    assert(ce == se + opt_edit(op) + rest->Ok_0);
    if i == j {
        if op is Some {
            assert(ce[se.len() as int] == op->Some_0);
        }
        assert forall|x: (int, int, Seq<u8>)|
            (i == 0 || calls[i - 1].function_body_position != bp) && se == seq![x] implies exists|m: int|
            0 <= m < ce.len() && ce[m] == x by {
            assert(ce[0] == x);
        }
    } else {
        lemma_call_edits_contain(w, calls, imports, ts, n_functions, i + 1, j);
        let r = rest->Ok_0;
        let off = se.len() + opt_edit(op).len();
        assert forall|m: int| 0 <= m < r.len() implies ce[off + m] == #[trigger] r[m] by {}
        let bpj = calls[j].function_body_position;
        if call_operand_edit(w, calls[j], imports, ts, n_functions)->Ok_0 is Some {
            let m = choose|m: int|
                0 <= m < r.len() && r[m] == call_operand_edit(
                    w,
                    calls[j],
                    imports,
                    ts,
                    n_functions,
                )->Ok_0->Some_0;
            assert(ce[off + m] == r[m]);
        }
        assert forall|x: (int, int, Seq<u8>)|
            (j == 0 || calls[j - 1].function_body_position != bpj) && size_edit(
                w,
                bpj as int,
                body_growth(w, calls, imports, ts, n_functions, j, bpj),
            )->Ok_0 == seq![x] implies exists|m: int| 0 <= m < ce.len() && ce[m] == x by {
            let m = choose|m: int| 0 <= m < r.len() && r[m] == x;
            assert(ce[off + m] == r[m]);
        }
    }
}

} // verus!
