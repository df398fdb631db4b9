//! Unsigned little-endian base-128 variable-length integers.
//!
//! Each byte carries seven payload bits in its low bits; the high bit is set
//! when another byte follows. Writers always produce the shortest form and
//! readers accept exactly that form.

use vstd::prelude::*;

verus! {

/// The shortest base-128 encoding of `v`, least-significant seven bits first.
pub open spec fn varint_enc(v: nat) -> Seq<u8>
    decreases v,
{
    if v < 128 {
        seq![v as u8]
    } else {
        seq![(v % 128 + 128) as u8] + varint_enc(v / 128)
    }
}

/// Number of bytes in the shortest encoding of `v`.
pub open spec fn varint_len(v: nat) -> nat
    decreases v,
{
    if v < 128 {
        1
    } else {
        1 + varint_len(v / 128)
    }
}

/// The bytes of `s` starting at `off` spell the shortest encoding of `v`.
pub open spec fn is_varint_at(s: Seq<u8>, off: int, v: nat) -> bool {
    &&& 0 <= off
    &&& off + varint_len(v) <= s.len()
    &&& s.subrange(off, off + varint_len(v) as int) == varint_enc(v)
}

pub proof fn lemma_varint_enc_len(v: nat)
    ensures
        varint_enc(v).len() == varint_len(v),
    decreases v,
{
    if v >= 128 {
        lemma_varint_enc_len(v / 128);
    }
}

/// A value's encoding is at most ten bytes when the value fits in 64 bits.
pub proof fn lemma_varint_len_bound(v: nat)
    requires
        v < 0x1_0000_0000_0000_0000,
    ensures
        varint_len(v) <= 10,
{
    let v1 = v / 128;
    let v2 = v1 / 128;
    let v3 = v2 / 128;
    let v4 = v3 / 128;
    let v5 = v4 / 128;
    let v6 = v5 / 128;
    let v7 = v6 / 128;
    let v8 = v7 / 128;
    let v9 = v8 / 128;
    assert(v1 < 0x200_0000_0000_0000) by (nonlinear_arith)
        requires v < 0x1_0000_0000_0000_0000 && v1 == v / 128;
    assert(v2 < 0x4_0000_0000_0000) by (nonlinear_arith)
        requires v1 < 0x200_0000_0000_0000 && v2 == v1 / 128;
    assert(v3 < 0x800_0000_0000) by (nonlinear_arith)
        requires v2 < 0x4_0000_0000_0000 && v3 == v2 / 128;
    assert(v4 < 0x10_0000_0000) by (nonlinear_arith)
        requires v3 < 0x800_0000_0000 && v4 == v3 / 128;
    assert(v5 < 0x2000_0000) by (nonlinear_arith)
        requires v4 < 0x10_0000_0000 && v5 == v4 / 128;
    assert(v6 < 0x40_0000) by (nonlinear_arith)
        requires v5 < 0x2000_0000 && v6 == v5 / 128;
    assert(v7 < 0x8000) by (nonlinear_arith)
        requires v6 < 0x40_0000 && v7 == v6 / 128;
    assert(v8 < 0x100) by (nonlinear_arith)
        requires v7 < 0x8000 && v8 == v7 / 128;
    assert(v9 < 2) by (nonlinear_arith)
        requires v8 < 0x100 && v9 == v8 / 128;
    assert(varint_len(v9) == 1);
    assert(varint_len(v8) <= 2);
    assert(varint_len(v7) <= 3);
    assert(varint_len(v6) <= 4);
    assert(varint_len(v5) <= 5);
    assert(varint_len(v4) <= 6);
    assert(varint_len(v3) <= 7);
    assert(varint_len(v2) <= 8);
    assert(varint_len(v1) <= 9);
    assert(varint_len(v) <= 10);
}

/// A varint already in the buffer survives appending more bytes.
pub proof fn lemma_varint_at_app(s1: Seq<u8>, s2: Seq<u8>, off: int, v: nat)
    requires
        is_varint_at(s1, off, v),
    ensures
        is_varint_at(s1 + s2, off, v),
{
    assert((s1 + s2).subrange(off, off + varint_len(v) as int)
        =~= s1.subrange(off, off + varint_len(v) as int));
}

/// Behind its first byte, a multi-byte varint holds the encoding of the
/// remaining digits.
pub proof fn lemma_varint_at_tail(s: Seq<u8>, off: int, v: nat)
    requires
        v >= 128,
        is_varint_at(s, off, v),
    ensures
        is_varint_at(s, off + 1, v / 128),
{
    lemma_varint_enc_len(v);
    lemma_varint_enc_len(v / 128);
    let l2 = varint_len(v / 128) as int;
    assert forall|i: int| 0 <= i < l2 implies
        s.subrange(off + 1, off + 1 + l2)[i] == #[trigger] varint_enc(v / 128)[i] by {
        assert(s.subrange(off, off + varint_len(v) as int)[i + 1] == varint_enc(v)[i + 1]);
    }
    assert(s.subrange(off + 1, off + 1 + l2) =~= varint_enc(v / 128));
}

/// A fixed position in a byte sequence decodes to at most one value.
pub proof fn lemma_varint_at_unique(s: Seq<u8>, off: int, v1: nat, v2: nat)
    requires
        is_varint_at(s, off, v1),
        is_varint_at(s, off, v2),
    ensures
        v1 == v2,
    decreases v1,
{
    lemma_varint_enc_len(v1);
    lemma_varint_enc_len(v2);
    assert(s[off] == varint_enc(v1)[0]);
    assert(s[off] == varint_enc(v2)[0]);
    if v1 < 128 && v2 < 128 {
        assert(v1 as u8 == v2 as u8);
    } else if v1 >= 128 && v2 >= 128 {
        assert((v1 % 128 + 128) as u8 == (v2 % 128 + 128) as u8);
        assert(v1 % 128 == v2 % 128);
        lemma_varint_at_tail(s, off, v1);
        lemma_varint_at_tail(s, off, v2);
        lemma_varint_at_unique(s, off + 1, v1 / 128, v2 / 128);
    } else if v1 < 128 {
        assert(varint_enc(v1)[0] < 128);
        assert(varint_enc(v2)[0] >= 128);
    } else {
        assert(varint_enc(v2)[0] < 128);
        assert(varint_enc(v1)[0] >= 128);
    }
}

/// Round trip: the writer's output decodes, at its own start, to the value
/// written, so a read directly after a write returns that value and its
/// encoded length.
pub proof fn lemma_varint_round_trip(v: nat)
    ensures
        is_varint_at(varint_enc(v), 0, v),
{
    lemma_varint_enc_len(v);
    assert(varint_enc(v).subrange(0, varint_len(v) as int) =~= varint_enc(v));
}

/// Appends the shortest encoding of `v` to `bytes`; returns the number of
/// bytes written.
pub fn write_varint(bytes: &mut Vec<u8>, v: usize) -> (n: usize)
    ensures
        final(bytes)@ == old(bytes)@ + varint_enc(v as nat),
        n == varint_len(v as nat),
{
    proof {
        lemma_varint_len_bound(v as nat);
    }
    let mut rest: usize = v;
    let mut n: usize = 0;
    while rest >= 128
        invariant
            old(bytes)@ + varint_enc(v as nat) == bytes@ + varint_enc(rest as nat),
            varint_len(v as nat) == n + varint_len(rest as nat),
            varint_len(v as nat) <= 10,
        decreases rest,
    {
        proof {
            assert(varint_enc(rest as nat)
                == seq![(rest as nat % 128 + 128) as u8] + varint_enc(rest as nat / 128));
        }
        bytes.push((rest % 128 + 128) as u8);
        proof {
            assert(bytes@ + varint_enc(rest as nat / 128)
                =~= old(bytes)@ + varint_enc(v as nat));
        }
        rest = rest / 128;
        n = n + 1;
    }
    bytes.push(rest as u8);
    proof {
        assert(varint_enc(rest as nat) == seq![rest as u8]);
        assert(bytes@ =~= old(bytes)@ + varint_enc(v as nat));
    }
    n + 1
}

/// Reads the varint that starts at `start`; returns the value and the number
/// of bytes it occupies.
pub fn read_varint(bytes: &Vec<u8>, start: usize) -> (r: (usize, usize))
    requires
        exists|v: nat| v <= usize::MAX && is_varint_at(bytes@, start as int, v),
    ensures
        is_varint_at(bytes@, start as int, r.0 as nat),
        r.1 == varint_len(r.0 as nat),
        start + r.1 <= bytes@.len(),
{
    let ghost v0 = choose|v: nat| v <= usize::MAX && is_varint_at(bytes@, start as int, v);
    proof {
        lemma_varint_len_bound(v0);
    }
    let ghost mut vrem = v0;
    let mut pos: usize = start;
    let mut acc: usize = 0;
    let mut mult: usize = 1;
    loop
        invariant
            start <= pos,
            vrem <= v0 <= usize::MAX,
            v0 == acc + vrem * mult,
            mult >= 1,
            acc <= v0,
            mult <= v0 || (mult == 1 && acc == 0),
            is_varint_at(bytes@, pos as int, vrem),
            varint_len(v0) == (pos - start) + varint_len(vrem),
            varint_len(v0) <= 10,
            is_varint_at(bytes@, start as int, v0),
        decreases bytes@.len() - pos,
    {
        proof {
            lemma_varint_enc_len(vrem);
            assert(bytes@[pos as int] == varint_enc(vrem)[0]);
        }
        let b = bytes[pos];
        if b < 128 {
            proof {
                assert(vrem < 128) by {
                    if vrem >= 128 {
                        assert(varint_enc(vrem)[0] == (vrem % 128 + 128) as u8);
                    }
                }
                assert(varint_enc(vrem)[0] == vrem as u8);
                assert(b as nat == vrem);
                assert(acc + (b as int) * (mult as int) == v0);
            }
            let r0 = acc + (b as usize) * mult;
            return (r0, (pos - start) + 1);
        } else {
            proof {
                assert(vrem >= 128) by {
                    if vrem < 128 {
                        assert(varint_enc(vrem)[0] == vrem as u8);
                    }
                }
                assert(varint_enc(vrem)[0] == (vrem % 128 + 128) as u8);
                assert(b as nat == vrem % 128 + 128);
                assert(vrem == 128 * (vrem / 128) + vrem % 128) by (nonlinear_arith);
                assert(acc + ((vrem % 128) as int) * (mult as int)
                    + ((vrem / 128) as int) * ((mult as int) * 128) == v0)
                    by (nonlinear_arith)
                    requires
                        v0 == acc + vrem * mult,
                        vrem == 128 * (vrem / 128) + vrem % 128,
                ;
                assert(vrem / 128 >= 1);
                assert(((vrem / 128) as int) * ((mult as int) * 128) >= (mult as int) * 128)
                    by (nonlinear_arith)
                    requires vrem / 128 >= 1 && mult >= 1;
                assert(((vrem % 128) as int) * (mult as int) >= 0) by (nonlinear_arith);
                assert((b - 128) as int == (vrem % 128) as int);
                assert(acc + ((vrem % 128) as int) * (mult as int) <= v0);
                assert((mult as int) * 128 <= v0);
                assert(pos + 1 <= bytes.len());
                lemma_varint_at_tail(bytes@, pos as int, vrem);
            }
            acc = acc + ((b - 128) as usize) * mult;
            mult = mult * 128;
            pos = pos + 1;
            proof {
                vrem = vrem / 128;
            }
        }
    }
}

} // verus!
