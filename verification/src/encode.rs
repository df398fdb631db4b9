//! Ghost arithmetic for the fixed-point encoding pass.
//!
//! During encoding every slot `j` holds a candidate delta value; emitting
//! the buffer lays the varint of slot `j` at the offset `ofs_of(vals, j)`,
//! the sum of the encoded lengths of all earlier slots. The recomputation
//! step replaces each delta by the distance between its slot's offset and
//! its child's; these lemmas show that candidates only grow, stay bounded,
//! and therefore reach a fixed point.

use vstd::prelude::*;
use crate::varint::{varint_len, lemma_varint_len_bound};

verus! {

/// Byte offset at which slot `j`'s varint starts when the candidate values
/// `vals` are emitted in order.
pub(crate) open spec fn ofs_of(vals: Seq<usize>, j: int) -> int
    decreases j,
{
    if j <= 0 {
        0
    } else {
        ofs_of(vals, j - 1) + varint_len(vals[j - 1] as nat)
    }
}

/// Sum of a sequence of values.
pub(crate) open spec fn seq_sum(s: Seq<usize>) -> int
    decreases s.len(),
{
    if s.len() == 0 {
        0
    } else {
        seq_sum(s.drop_last()) + s.last()
    }
}

/// Longer encodings belong to larger values.
pub(crate) proof fn lemma_varint_len_mono(a: nat, b: nat)
    requires
        a <= b,
    ensures
        varint_len(a) <= varint_len(b),
    decreases b,
{
    if b >= 128 && a >= 128 {
        assert(a / 128 <= b / 128) by (nonlinear_arith)
            requires a <= b;
        lemma_varint_len_mono(a / 128, b / 128);
    }
}

/// Offsets strictly increase with the slot index: every varint takes at
/// least one byte.
pub(crate) proof fn lemma_ofs_mono(vals: Seq<usize>, a: int, b: int)
    requires
        0 <= a <= b,
    ensures
        ofs_of(vals, a) + (b - a) <= ofs_of(vals, b),
    decreases b,
{
    if a < b {
        lemma_ofs_mono(vals, a, b - 1);
    }
}

/// Pointwise larger values can only stretch the span between two offsets.
pub(crate) proof fn lemma_ofs_diff_le(v1: Seq<usize>, v2: Seq<usize>, j: int, c: int)
    requires
        0 <= j <= c,
        forall|k: int| j <= k < c ==> v1[k] <= #[trigger] v2[k],
    ensures
        ofs_of(v1, c) - ofs_of(v1, j) <= ofs_of(v2, c) - ofs_of(v2, j),
    decreases c,
{
    if j < c {
        lemma_ofs_diff_le(v1, v2, j, c - 1);
        lemma_varint_len_mono(v1[c - 1] as nat, v2[c - 1] as nat);
    }
}

/// No slot's varint is longer than ten bytes, so offsets are bounded.
pub(crate) proof fn lemma_ofs_bound(vals: Seq<usize>, j: int)
    requires
        j >= 0,
    ensures
        ofs_of(vals, j) <= 10 * j,
    decreases j,
{
    if j > 0 {
        lemma_ofs_bound(vals, j - 1);
        assert((vals[j - 1] as nat) < 0x1_0000_0000_0000_0000);
        lemma_varint_len_bound(vals[j - 1] as nat);
    }
}

/// Pointwise larger values have a larger sum.
pub(crate) proof fn lemma_sum_le(v1: Seq<usize>, v2: Seq<usize>)
    requires
        v1.len() == v2.len(),
        forall|k: int| 0 <= k < v1.len() ==> v1[k] <= #[trigger] v2[k],
    ensures
        seq_sum(v1) <= seq_sum(v2),
    decreases v1.len(),
{
    if v1.len() > 0 {
        lemma_sum_le(v1.drop_last(), v2.drop_last());
    }
}

/// Pointwise larger values, one of them strictly, have a strictly larger
/// sum.
pub(crate) proof fn lemma_sum_lt(v1: Seq<usize>, v2: Seq<usize>, at: int)
    requires
        v1.len() == v2.len(),
        forall|k: int| 0 <= k < v1.len() ==> v1[k] <= #[trigger] v2[k],
        0 <= at < v1.len(),
        v1[at] < v2[at],
    ensures
        seq_sum(v1) < seq_sum(v2),
    decreases v1.len(),
{
    if at == v1.len() - 1 {
        lemma_sum_le(v1.drop_last(), v2.drop_last());
    } else {
        lemma_sum_lt(v1.drop_last(), v2.drop_last(), at);
    }
}

/// A sequence of values below a bound sums below length times the bound.
pub(crate) proof fn lemma_sum_bound(s: Seq<usize>, m: int)
    requires
        forall|k: int| 0 <= k < s.len() ==> #[trigger] s[k] <= m,
    ensures
        seq_sum(s) <= s.len() * m,
        seq_sum(s) >= 0,
    decreases s.len(),
{
    if s.len() == 0 {
    } else {
        lemma_sum_bound(s.drop_last(), m);
        assert(s.len() * m == (s.len() - 1) * m + m) by (nonlinear_arith);
        assert(s[s.len() - 1] <= m);
    }
}

} // verus!
