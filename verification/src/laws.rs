//! General laws of the prefix-set model.
//!
//! The builder records its prefixes in insertion order and a built set
//! answers queries by `prefix_set_contains`, so each law about inserting
//! and querying is stated over that model.

use vstd::prelude::*;
use crate::model::{covered_by, lemma_covered_push, prefix_set_contains};

verus! {

/// Correctness against the reference semantics: the set contains an
/// address exactly when some inserted prefix is a prefix of its bits; in
/// particular a set built with no insertions contains no address.
pub proof fn lemma_reference_semantics(ps: Seq<Seq<bool>>, b: Seq<bool>)
    ensures
        prefix_set_contains(ps, b) <==> exists|i: int|
            0 <= i < ps.len() && ps[i].is_prefix_of(b),
{
}

/// A prefix of a prefix of `b` is itself a prefix of `b`.
proof fn lemma_prefix_trans(a: Seq<bool>, p: Seq<bool>, b: Seq<bool>)
    requires
        a.is_prefix_of(p),
        p.is_prefix_of(b),
    ensures
        a.is_prefix_of(b),
{
    assert forall|k: int| 0 <= k < a.len() implies
        b.subrange(0, a.len() as int)[k] == #[trigger] a[k] by {
        assert(a[k] == p.subrange(0, a.len() as int)[k]);
        assert(p[k] == b.subrange(0, p.len() as int)[k]);
    }
    assert(a =~= b.subrange(0, a.len() as int));
}

/// Subsumption: inserting a prefix that some earlier, broader or equal
/// prefix already covers leaves the set's answers unchanged.
pub proof fn lemma_subsumption(ps: Seq<Seq<bool>>, p: Seq<bool>, i: int, b: Seq<bool>)
    requires
        0 <= i < ps.len(),
        ps[i].is_prefix_of(p),
    ensures
        prefix_set_contains(ps.push(p), b) == prefix_set_contains(ps, b),
{
    lemma_covered_push(ps, p, b);
    if p.is_prefix_of(b) {
        lemma_prefix_trans(ps[i], p, b);
        assert(covered_by(ps, b));
    }
}

/// Order independence: two insertion orders of the same prefixes give
/// sets that agree on every address.
pub proof fn lemma_order_independent(ps1: Seq<Seq<bool>>, ps2: Seq<Seq<bool>>, b: Seq<bool>)
    requires
        ps1.to_multiset() == ps2.to_multiset(),
    ensures
        prefix_set_contains(ps1, b) == prefix_set_contains(ps2, b),
{
    ps1.to_multiset_ensures();
    ps2.to_multiset_ensures();
    assert(ps1.len() == ps2.len());
    if covered_by(ps1, b) {
        let i = choose|i: int| 0 <= i < ps1.len() && ps1[i].is_prefix_of(b);
        let x = ps1[i];
        assert(ps1.contains(x));
        assert(ps2.to_multiset().count(x) > 0);
        assert(ps2.contains(x));
        let j = choose|j: int| 0 <= j < ps2.len() && ps2[j] == x;
        assert(ps2[j].is_prefix_of(b));
        assert(covered_by(ps2, b));
    }
    if covered_by(ps2, b) {
        let i = choose|i: int| 0 <= i < ps2.len() && ps2[i].is_prefix_of(b);
        let x = ps2[i];
        assert(ps2.contains(x));
        assert(ps1.to_multiset().count(x) > 0);
        assert(ps1.contains(x));
        let j = choose|j: int| 0 <= j < ps1.len() && ps1[j] == x;
        assert(ps1[j].is_prefix_of(b));
        assert(covered_by(ps1, b));
    }
}

/// Idempotence: inserting the same prefix twice gives the same answers as
/// inserting it once.
pub proof fn lemma_add_idempotent(ps: Seq<Seq<bool>>, p: Seq<bool>, b: Seq<bool>)
    ensures
        prefix_set_contains(ps.push(p).push(p), b) == prefix_set_contains(ps.push(p), b),
{
    lemma_covered_push(ps, p, b);
    lemma_covered_push(ps.push(p), p, b);
}

/// Broadest wins: after inserting a narrower prefix and then a broader
/// one of the same address, the set contains every address the broader
/// prefix covers.
pub proof fn lemma_broadest_wins(
    ps: Seq<Seq<bool>>,
    long: Seq<bool>,
    short: Seq<bool>,
    b: Seq<bool>,
)
    requires
        short.is_prefix_of(long),
        short.is_prefix_of(b),
    ensures
        prefix_set_contains(ps.push(long).push(short), b),
{
    lemma_covered_push(ps.push(long), short, b);
}

} // verus!
