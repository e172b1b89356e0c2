//! The only operations that change a buffer: removing and inserting bytes,
//! and replaying a list of edits whose positions all refer to one buffer.
use vstd::prelude::*;

verus! {

/// One change to a buffer: `removed` bytes at `position` give way to `bytes`.
/// Positions are those of the buffer before any edit of its list.
pub struct Edit {
    pub position: usize,
    pub removed: usize,
    pub bytes: Vec<u8>,
}

impl View for Edit {
    type V = (int, int, Seq<u8>);

    open spec fn view(&self) -> (int, int, Seq<u8>) {
        (self.position as int, self.removed as int, self.bytes@)
    }
}

/// The views of a list of edits.
pub open spec fn edit_views(es: Seq<Edit>) -> Seq<(int, int, Seq<u8>)> {
    es.map_values(|e: Edit| e@)
}

/// `s` with `removed` bytes at `pos` replaced by `bytes`.
pub open spec fn splice(s: Seq<u8>, pos: int, removed: int, bytes: Seq<u8>) -> Seq<u8> {
    s.subrange(0, pos) + bytes + s.subrange(pos + removed, s.len() as int)
}

/// Each edit ends before the next one starts, and the last ends inside a
/// buffer of `len` bytes.
pub open spec fn edits_in_order(es: Seq<(int, int, Seq<u8>)>, len: int) -> bool {
    forall|i: int|
        0 <= i < es.len() ==> {
            &&& 0 <= #[trigger] es[i].0
            &&& 0 <= es[i].1
            &&& es[i].0 + es[i].1 <= if i + 1 < es.len() {
                es[i + 1].0
            } else {
                len
            }
        }
}

/// The buffer that results from `s` when every edit is made, each at the
/// position it names in `s`. The edits are made last to first, so that
/// none moves the bytes an earlier edit refers to.
pub open spec fn apply_edits(s: Seq<u8>, es: Seq<(int, int, Seq<u8>)>) -> Seq<u8>
    decreases es.len(),
{
    if es.len() == 0 {
        s
    } else {
        let e = es.last();
        apply_edits(splice(s, e.0, e.1, e.2), es.drop_last())
    }
}

/// How many bytes a list of edits adds to a buffer (negative when it removes more).
pub open spec fn growth(es: Seq<(int, int, Seq<u8>)>) -> int
    decreases es.len(),
{
    if es.len() == 0 {
        0
    } else {
        growth(es.drop_last()) + es.last().2.len() - es.last().1
    }
}

/// Edits in order within `bound` bytes leave what follows `bound` alone.
pub proof fn lemma_apply_edits_prefix(t: Seq<u8>, es: Seq<(int, int, Seq<u8>)>, bound: int)
    requires
        edits_in_order(es, bound),
        0 <= bound <= t.len(),
    ensures
        apply_edits(t, es) == apply_edits(t.take(bound), es) + t.skip(bound),
    decreases es.len(),
{
    if es.len() == 0 {
        assert(t =~= t.take(bound) + t.skip(bound));
    } else {
        let e = es.last();
        let es2 = es.drop_last();
        assert(e.0 + e.1 <= bound);
        let t2 = splice(t, e.0, e.1, e.2);
        let u = splice(t.take(bound), e.0, e.1, e.2);
        assert(edits_in_order(es2, e.0)) by {
            assert forall|i: int| 0 <= i < es2.len() implies {
                &&& 0 <= #[trigger] es2[i].0
                &&& 0 <= es2[i].1
                &&& es2[i].0 + es2[i].1 <= if i + 1 < es2.len() {
                    es2[i + 1].0
                } else {
                    e.0
                }
            } by {
                assert(es2[i] == es[i]);
                assert(es[i].0 + es[i].1 <= es[i + 1].0);
            }
        }
        lemma_apply_edits_prefix(t2, es2, e.0);
        lemma_apply_edits_prefix(u, es2, e.0);
        assert(t2.take(e.0) =~= u.take(e.0));
        assert(t2.skip(e.0) =~= u.skip(e.0) + t.skip(bound));
        assert(apply_edits(t2.take(e.0), es2) + (u.skip(e.0) + t.skip(bound)) =~= apply_edits(
            u.take(e.0),
            es2,
        ) + u.skip(e.0) + t.skip(bound));
    }
}

/// Edits in order change the length of a buffer by their growth.
pub proof fn lemma_apply_edits_len(s: Seq<u8>, es: Seq<(int, int, Seq<u8>)>)
    requires
        edits_in_order(es, s.len() as int),
    ensures
        apply_edits(s, es).len() == s.len() + growth(es),
    decreases es.len(),
{
    if es.len() > 0 {
        let e = es.last();
        let es2 = es.drop_last();
        let t2 = splice(s, e.0, e.1, e.2);
        assert(e.0 + e.1 <= s.len());
        lemma_drop_last_in_order(es, s.len() as int, t2.len() as int);
        lemma_apply_edits_len(t2, es2);
    }
}

/// Without its last edit, a list in order stays in order within any bound
/// that the last edit's position does not exceed.
pub proof fn lemma_drop_last_in_order(es: Seq<(int, int, Seq<u8>)>, len: int, bound: int)
    requires
        edits_in_order(es, len),
        es.len() > 0,
        es.last().0 <= bound,
    ensures
        edits_in_order(es.drop_last(), bound),
{
    let es2 = es.drop_last();
    assert forall|i: int| 0 <= i < es2.len() implies {
        &&& 0 <= #[trigger] es2[i].0
        &&& 0 <= es2[i].1
        &&& es2[i].0 + es2[i].1 <= if i + 1 < es2.len() {
            es2[i + 1].0
        } else {
            bound
        }
    } by {
        assert(es2[i] == es[i]);
        assert(es[i].0 + es[i].1 <= es[i + 1].0);
    }
}

/// Each edit's bytes stand in the result at its position moved by the growth
/// of the edits before it.
pub proof fn lemma_apply_edits_places(s: Seq<u8>, es: Seq<(int, int, Seq<u8>)>, i: int)
    requires
        edits_in_order(es, s.len() as int),
        0 <= i < es.len(),
    ensures
        ({
            let out = apply_edits(s, es);
            let p = es[i].0 + growth(es.take(i));
            &&& 0 <= p
            &&& p + es[i].2.len() <= out.len()
            &&& out.subrange(p, p + es[i].2.len()) == es[i].2
        }),
    decreases es.len(),
{
    let e = es.last();
    let es2 = es.drop_last();
    let t2 = splice(s, e.0, e.1, e.2);
    assert(0 <= e.0 && 0 <= e.1 && e.0 + e.1 <= s.len());
    lemma_drop_last_in_order(es, s.len() as int, t2.len() as int);
    if i < es.len() - 1 {
        assert(es2[i] == es[i]);
        assert(es2.take(i) =~= es.take(i));
        lemma_apply_edits_places(t2, es2, i);
    } else {
        assert(es.take(i) =~= es2);
        lemma_drop_last_in_order(es, s.len() as int, e.0);
        lemma_apply_edits_prefix(t2, es2, e.0);
        lemma_apply_edits_len(t2.take(e.0), es2);
        let a = apply_edits(t2.take(e.0), es2);
        let out = apply_edits(s, es);
        assert(out == a + t2.skip(e.0));
        assert(out.subrange(a.len() as int, (a.len() + e.2.len()) as int) =~= e.2);
    }
}

/// Deletes `len` bytes starting at `pos`.
pub fn remove_bytes(buf: &mut Vec<u8>, pos: usize, len: usize)
    requires
        pos + len <= old(buf)@.len(),
    ensures
        final(buf)@ == old(buf)@.subrange(0, pos as int) + old(buf)@.subrange(
            pos + len,
            old(buf)@.len() as int,
        ),
{
    let mut out: Vec<u8> = Vec::new();
    let mut i: usize = 0;
    while i < pos
        invariant
            i <= pos,
            pos + len <= buf@.len(),
            out@ == buf@.subrange(0, i as int),
        decreases pos - i,
    {
        out.push(buf[i]);
        i = i + 1;
        assert(out@ =~= buf@.subrange(0, i as int));
    }
    let ghost head = out@;
    let n: usize = buf.len();
    i = pos + len;
    while i < buf.len()
        invariant
            pos + len <= i <= buf@.len(),
            head == buf@.subrange(0, pos as int),
            out@ == head + buf@.subrange(pos + len, i as int),
        decreases buf@.len() - i,
    {
        out.push(buf[i]);
        i = i + 1;
        assert(out@ =~= head + buf@.subrange(pos + len, i as int));
    }
    *buf = out;
}

/// Inserts `bytes` at `pos`, moving what stood there and after it later.
pub fn insert_bytes(buf: &mut Vec<u8>, pos: usize, bytes: &Vec<u8>)
    requires
        pos <= old(buf)@.len(),
    ensures
        final(buf)@ == old(buf)@.subrange(0, pos as int) + bytes@ + old(buf)@.subrange(
            pos as int,
            old(buf)@.len() as int,
        ),
{
    let mut out: Vec<u8> = Vec::new();
    let mut i: usize = 0;
    while i < pos
        invariant
            i <= pos <= buf@.len(),
            out@ == buf@.subrange(0, i as int),
        decreases pos - i,
    {
        out.push(buf[i]);
        i = i + 1;
        assert(out@ =~= buf@.subrange(0, i as int));
    }
    let ghost head = out@;
    let mut j: usize = 0;
    while j < bytes.len()
        invariant
            j <= bytes@.len(),
            out@ == head + bytes@.subrange(0, j as int),
        decreases bytes@.len() - j,
    {
        out.push(bytes[j]);
        j = j + 1;
        assert(out@ =~= head + bytes@.subrange(0, j as int));
    }
    assert(bytes@.subrange(0, bytes@.len() as int) =~= bytes@);
    let ghost mid = out@;
    i = pos;
    while i < buf.len()
        invariant
            pos <= i <= buf@.len(),
            out@ == mid + buf@.subrange(pos as int, i as int),
        decreases buf@.len() - i,
    {
        out.push(buf[i]);
        i = i + 1;
        assert(out@ =~= mid + buf@.subrange(pos as int, i as int));
    }
    *buf = out;
}

/// Replaces the `removed` bytes at `pos` by `bytes`.
pub fn replace_bytes(buf: &mut Vec<u8>, pos: usize, removed: usize, bytes: &Vec<u8>)
    requires
        pos + removed <= old(buf)@.len(),
    ensures
        final(buf)@ == splice(old(buf)@, pos as int, removed as int, bytes@),
{
    let ghost before = buf@;
    remove_bytes(buf, pos, removed);
    insert_bytes(buf, pos, bytes);
    assert(buf@ =~= splice(before, pos as int, removed as int, bytes@));
}

/// Makes every edit of `edits`, whose positions refer to the buffer as it is
/// on entry, last edit first.
pub fn apply_edits_to_buffer(buf: &mut Vec<u8>, edits: &Vec<Edit>)
    requires
        edits_in_order(edit_views(edits@), old(buf)@.len() as int),
    ensures
        final(buf)@ == apply_edits(old(buf)@, edit_views(edits@)),
{
    let ghost es = edit_views(edits@);
    let ghost orig = buf@;
    let mut i: usize = edits.len();
    assert(es.take(i as int) =~= es);
    while i > 0
        invariant
            es == edit_views(edits@),
            i <= edits@.len(),
            edits_in_order(es, orig.len() as int),
            apply_edits(orig, es) == apply_edits(buf@, es.take(i as int)),
            buf@.len() >= if i < edits@.len() {
                es[i as int].0
            } else {
                orig.len() as int
            },
        decreases i,
    {
        let e = &edits[i - 1];
        assert(es[i - 1] == e@);
        replace_bytes(buf, e.position, e.removed, &e.bytes);
        assert(es.take(i as int).drop_last() =~= es.take(i - 1));
        assert(es.take(i as int).last() == es[i - 1]);
        i = i - 1;
    }
    assert(es.take(0) =~= Seq::<(int, int, Seq<u8>)>::empty());
}

} // verus!
