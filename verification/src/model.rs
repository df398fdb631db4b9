//! The mathematical model of a prefix set.
//!
//! A CIDR prefix is modelled as the sequence of its significant bits,
//! most-significant first; a set of prefixes as the sequence of prefixes in
//! insertion order. An address of `BITS` bits is a bit sequence of that
//! length, and membership means that some inserted prefix is a prefix of it.

use vstd::prelude::*;

verus! {

/// Bit `i` of `a`, counting from the most significant bit.
pub open spec fn u32_bit(a: u32, i: int) -> bool {
    a >> (31 - i) as u32 & 1u32 == 1u32
}

/// The top `n` bits of `a`, most-significant first.
pub open spec fn u32_prefix(a: u32, n: int) -> Seq<bool> {
    Seq::new(n as nat, |i: int| u32_bit(a, i))
}

/// Bit `i` of `a`, counting from the most significant bit.
pub open spec fn u128_bit(a: u128, i: int) -> bool {
    a >> (127 - i) as u128 & 1u128 == 1u128
}

/// The top `n` bits of `a`, most-significant first.
pub open spec fn u128_prefix(a: u128, n: int) -> Seq<bool> {
    Seq::new(n as nat, |i: int| u128_bit(a, i))
}

/// Some prefix in `ps` covers the address bits `b`.
pub open spec fn covered_by(ps: Seq<Seq<bool>>, b: Seq<bool>) -> bool {
    exists|i: int| 0 <= i < ps.len() && ps[i].is_prefix_of(b)
}

/// What a built set answers for the address bits `b`: membership is
/// coverage by some inserted prefix, so a set built with no insertions
/// contains no address.
pub open spec fn prefix_set_contains(ps: Seq<Seq<bool>>, b: Seq<bool>) -> bool {
    covered_by(ps, b)
}

/// Pushing one more prefix extends coverage by exactly the paths that the
/// new prefix covers.
pub proof fn lemma_covered_push(ps: Seq<Seq<bool>>, p: Seq<bool>, b: Seq<bool>)
    ensures
        covered_by(ps.push(p), b) == (covered_by(ps, b) || p.is_prefix_of(b)),
{
    if covered_by(ps, b) {
        let i = choose|i: int| 0 <= i < ps.len() && ps[i].is_prefix_of(b);
        assert(ps.push(p)[i] == ps[i]);
        assert(covered_by(ps.push(p), b));
    }
    if p.is_prefix_of(b) {
        assert(ps.push(p)[ps.len() as int] == p);
        assert(covered_by(ps.push(p), b));
    }
    if covered_by(ps.push(p), b) {
        let i = choose|i: int| 0 <= i < ps.push(p).len() && ps.push(p)[i].is_prefix_of(b);
        if i < ps.len() {
            assert(ps[i] == ps.push(p)[i]);
            assert(covered_by(ps, b));
        } else {
            assert(ps.push(p)[i] == p);
        }
    }
}

/// The top `n` bits of `a` as a vector, most-significant first.
pub fn u32_bits(a: u32, n: usize) -> (r: Vec<bool>)
    requires
        n <= 32,
    ensures
        r@ == u32_prefix(a, n as int),
{
    let mut r: Vec<bool> = Vec::new();
    let mut i: usize = 0;
    while i < n
        invariant
            i <= n <= 32,
            r@.len() == i,
            forall|k: int| 0 <= k < i ==> r@[k] == u32_bit(a, k),
        decreases n - i,
    {
        r.push(a >> (31 - i) as u32 & 1u32 == 1u32);
        i = i + 1;
    }
    proof {
        assert(r@ =~= u32_prefix(a, n as int));
    }
    r
}

/// The top `n` bits of `a` as a vector, most-significant first.
pub fn u128_bits(a: u128, n: usize) -> (r: Vec<bool>)
    requires
        n <= 128,
    ensures
        r@ == u128_prefix(a, n as int),
{
    let mut r: Vec<bool> = Vec::new();
    let mut i: usize = 0;
    while i < n
        invariant
            i <= n <= 128,
            r@.len() == i,
            forall|k: int| 0 <= k < i ==> r@[k] == u128_bit(a, k),
        decreases n - i,
    {
        r.push(a >> (127 - i) as u128 & 1u128 == 1u128);
        i = i + 1;
    }
    proof {
        assert(r@ =~= u128_prefix(a, n as int));
    }
    r
}

} // verus!
