//! Unsigned LEB128, the variable-length integer encoding of the module format.
use crate::error::PatchError;
use vstd::arithmetic::div_mod::lemma_fundamental_div_mod_converse;
use vstd::prelude::*;

verus! {

/// The canonical (shortest) encoding of `v`: seven bits per byte, low bits
/// first, the high bit set on every byte but the last.
pub open spec fn leb128(v: nat) -> Seq<u8>
    decreases v,
{
    if v < 128 {
        seq![v as u8]
    } else {
        seq![(v % 128 + 128) as u8] + leb128(v / 128)
    }
}

/// The bytes of `s` from `pos` on begin with the canonical encoding of `v`.
pub open spec fn has_varint_at(s: Seq<u8>, pos: int, v: nat) -> bool {
    &&& 0 <= pos
    &&& pos + leb128(v).len() <= s.len()
    &&& s.subrange(pos, pos + leb128(v).len()) == leb128(v)
}

pub proof fn lemma_leb128_len(v: nat)
    ensures
        leb128(v).len() >= 1,
        v < 128 ==> leb128(v).len() == 1,
    decreases v,
{
    if v >= 128 {
        lemma_leb128_len(v / 128);
    }
}

/// A larger value never has a shorter encoding.
pub proof fn lemma_leb128_len_monotone(a: nat, b: nat)
    requires
        a <= b,
    ensures
        leb128(a).len() <= leb128(b).len(),
    decreases b,
{
    lemma_leb128_len(a);
    lemma_leb128_len(b);
    if a >= 128 {
        assert(a / 128 <= b / 128) by (nonlinear_arith)
            requires
                a <= b,
        ;
        lemma_leb128_len_monotone(a / 128, b / 128);
    }
}

/// The value of the canonical 32-bit varint that starts at `pos`, if any.
pub open spec fn varint_at(s: Seq<u8>, pos: int) -> Option<nat> {
    if exists|v: nat| v <= u32::MAX && has_varint_at(s, pos, v) {
        Some(choose|v: nat| v <= u32::MAX && has_varint_at(s, pos, v))
    } else {
        None
    }
}

pub proof fn lemma_varint_at(s: Seq<u8>, pos: int, v: nat)
    requires
        v <= u32::MAX,
        has_varint_at(s, pos, v),
    ensures
        varint_at(s, pos) == Some(v),
{
    let w = choose|w: nat| w <= u32::MAX && has_varint_at(s, pos, w);
    lemma_varint_unique(s, pos, v, w);
}

/// Powers of 128.
pub open spec fn pow128(k: nat) -> nat
    decreases k,
{
    if k == 0 {
        1
    } else {
        128 * pow128((k - 1) as nat)
    }
}

/// A value below 128 to the `k` takes at most `k` bytes.
pub proof fn lemma_leb128_len_bound(v: nat, k: nat)
    requires
        k >= 1,
        v < pow128(k),
    ensures
        leb128(v).len() <= k,
    decreases k,
{
    lemma_leb128_len(v);
    if v >= 128 {
        let p = pow128((k - 1) as nat);
        assert(k >= 2) by {
            if k == 1 {
                assert(pow128(1) == 128 * pow128(0));
            }
        }
        assert(v / 128 < p) by (nonlinear_arith)
            requires
                v < 128 * p,
        ;
        lemma_leb128_len_bound(v / 128, (k - 1) as nat);
    }
}

/// A 32-bit value takes at most five bytes.
pub proof fn lemma_leb128_len_u32(v: nat)
    requires
        v <= u32::MAX,
    ensures
        1 <= leb128(v).len() <= 5,
{
    reveal_with_fuel(pow128, 6);
    lemma_leb128_len(v);
    lemma_leb128_len_bound(v, 5);
}

/// The encoding is prefix-free: at a given position at most one value is encoded.
pub proof fn lemma_varint_unique(s: Seq<u8>, pos: int, a: nat, b: nat)
    requires
        has_varint_at(s, pos, a),
        has_varint_at(s, pos, b),
    ensures
        a == b,
    decreases a,
{
    lemma_leb128_len(a);
    lemma_leb128_len(b);
    assert(s[pos] == leb128(a)[0]);
    assert(s[pos] == leb128(b)[0]);
    if a >= 128 && b >= 128 {
        lemma_varint_tail(s, pos, a);
        lemma_varint_tail(s, pos, b);
        lemma_varint_unique(s, pos + 1, a / 128, b / 128);
        assert(a == 128 * (a / 128) + a % 128);
        assert(b == 128 * (b / 128) + b % 128);
    }
}

/// The encoding of a value of 128 or more continues with that of `v / 128`.
pub proof fn lemma_varint_tail(s: Seq<u8>, pos: int, v: nat)
    requires
        has_varint_at(s, pos, v),
        v >= 128,
    ensures
        has_varint_at(s, pos + 1, v / 128),
        s[pos] == (v % 128 + 128) as u8,
{
    let e = leb128(v);
    let t = leb128(v / 128);
    assert(e == seq![(v % 128 + 128) as u8] + t);
    assert(s.subrange(pos + 1, pos + 1 + t.len()) =~= e.subrange(1, e.len() as int));
    assert(e.subrange(1, e.len() as int) =~= t);
    assert(s[pos] == e[0]);
}

/// Encodes `value` in its canonical form.
pub fn encode_varint(value: u32) -> (r: Vec<u8>)
    ensures
        r@ == leb128(value as nat),
{
    let mut out: Vec<u8> = Vec::new();
    let mut v: u32 = value;
    while v >= 128
        invariant
            leb128(value as nat) == out@ + leb128(v as nat),
        decreases v,
    {
        let b: u8 = (v % 128 + 128) as u8;
        let ghost before = out@;
        out.push(b);
        assert(leb128(v as nat) == seq![b] + leb128((v / 128) as nat));
        assert(before + leb128(v as nat) =~= out@ + leb128((v / 128) as nat));
        v = v / 128;
    }
    let ghost before = out@;
    out.push(v as u8);
    assert(before + leb128(v as nat) =~= out@);
    out
}

/// Decodes the canonical varint that starts at `pos`, giving its value and
/// its length in bytes.
pub fn decode_varint(buf: &Vec<u8>, pos: usize) -> (r: Result<(u32, usize), PatchError>)
    ensures
        match r {
            Ok((v, n)) => n == leb128(v as nat).len() && has_varint_at(buf@, pos as int, v as nat)
                && varint_at(buf@, pos as int) == Some(v as nat),
            Err(e) => e == PatchError::MalformedVarint && forall|v: nat|
                v <= u32::MAX ==> !#[trigger] has_varint_at(buf@, pos as int, v),
        },
        r is Err <==> varint_at(buf@, pos as int) is None,
    decreases buf@.len() - pos,
{
    if pos >= buf.len() {
        proof {
            assert forall|v: nat| v <= u32::MAX implies !#[trigger] has_varint_at(buf@, pos as int, v) by {
                lemma_leb128_len(v);
            }
        }
        return Err(PatchError::MalformedVarint);
    }
    let b: u8 = buf[pos];
    if b < 128 {
        proof {
            assert(buf@.subrange(pos as int, pos + 1) =~= leb128(b as nat));
            lemma_varint_at(buf@, pos as int, b as nat);
        }
        return Ok((b as u32, 1));
    }
    proof {
        assert forall|v: nat| #[trigger] has_varint_at(buf@, pos as int, v) implies v >= 128 by {
            lemma_leb128_len(v);
            assert(buf@[pos as int] == leb128(v)[0]);
        }
    }
    match decode_varint(buf, pos + 1) {
        Err(e) => {
            proof {
                assert forall|v: nat| v <= u32::MAX implies !#[trigger] has_varint_at(
                    buf@,
                    pos as int,
                    v,
                ) by {
                    if has_varint_at(buf@, pos as int, v) {
                        lemma_varint_tail(buf@, pos as int, v);
                        assert(!has_varint_at(buf@, pos + 1, v / 128));
                    }
                }
            }
            Err(e)
        },
        Ok((w, n)) => {
            if w == 0 || w > 0x1ff_ffff {
                proof {
                    assert forall|v: nat| v <= u32::MAX implies !#[trigger] has_varint_at(
                        buf@,
                        pos as int,
                        v,
                    ) by {
                        if has_varint_at(buf@, pos as int, v) {
                            lemma_varint_tail(buf@, pos as int, v);
                            lemma_varint_unique(buf@, pos + 1, v / 128, w as nat);
                        }
                    }
                }
                return Err(PatchError::MalformedVarint);
            }
            let v: u32 = (b - 128) as u32 + 128 * w;
            proof {
                lemma_fundamental_div_mod_converse(v as int, 128, w as int, (b - 128) as int);
                let e = leb128(v as nat);
                assert(e == seq![b] + leb128(w as nat));
                assert(buf@.subrange(pos as int, pos + e.len()) =~= e);
                lemma_varint_at(buf@, pos as int, v as nat);
            }
            Ok((v, n + 1))
        },
    }
}

} // verus!
