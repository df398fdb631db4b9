//! Flattening the trie into parallel child-index slots.
//!
//! A pre-order walk gives every node two consecutive slots in one vector:
//! the left and the right child's slot index, or zero for an absent child.
//! Slot zero is the root, which is never anybody's child, so zero is free
//! to mean "no child". All child references point strictly forward.

use vstd::prelude::*;
use crate::trie::{Node, node_denotes, no_childless, node_size};

verus! {

/// Whether the bit path `b` ends inside the set described by the flattened
/// trie `ri`, starting at the node whose slots are `s` and `s + 1`. Mirrors
/// `node_denotes`, with the pair of zero slots as the `Matched` sentinel.
pub(crate) open spec fn flat_denotes(ri: Seq<usize>, s: int, b: Seq<bool>) -> bool
    decreases b.len(),
{
    if !(0 <= s && s + 1 < ri.len()) {
        false
    } else {
        let l = ri[s] as int;
        let r = ri[s + 1] as int;
        if l == 0 && r == 0 {
            true
        } else if b.len() == 0 {
            true
        } else {
            let c = if !b[0] {
                l
            } else {
                r
            };
            if c == 0 {
                false
            } else {
                flat_denotes(ri, c, b.drop_first())
            }
        }
    }
}

/// Every slot in `[lo, hi)` either holds zero or points strictly forward,
/// to an even slot that still leaves room for its partner below `hi`.
pub(crate) open spec fn region_closed(ri: Seq<usize>, lo: int, hi: int) -> bool {
    forall|j: int| #![trigger ri[j]] lo <= j < hi ==>
        (ri[j] == 0 || (j < ri[j] && ri[j] + 1 < hi && ri[j] % 2 == 0))
}

/// A well-formed flattened trie: an even number of slots, at least one
/// node, and all child references forward, even and in bounds.
pub(crate) open spec fn flat_wf(ri: Seq<usize>) -> bool {
    &&& ri.len() >= 2
    &&& ri.len() % 2 == 0
    &&& region_closed(ri, 0, ri.len() as int)
}

/// The region of `ri` that starts at slot `at` describes exactly the tree
/// `n`.
pub(crate) open spec fn flat_same(ri: Seq<usize>, at: int, n: Node) -> bool {
    forall|b: Seq<bool>| #![trigger flat_denotes(ri, at, b)]
        flat_denotes(ri, at, b) == node_denotes(n, b)
}

/// Each index of a prefix reads the same in the longer sequence.
pub(crate) proof fn lemma_prefix_index(p: Seq<usize>, q: Seq<usize>)
    requires
        p.is_prefix_of(q),
    ensures
        forall|j: int| 0 <= j < p.len() ==> p[j] == #[trigger] q[j],
{
    assert forall|j: int| 0 <= j < p.len() implies p[j] == #[trigger] q[j] by {
        assert(p[j] == q.subrange(0, p.len() as int)[j]);
    }
}

/// Instantiates `flat_same` on one path.
pub(crate) proof fn lemma_flat_same_use(ri: Seq<usize>, at: int, n: Node, b: Seq<bool>)
    requires
        flat_same(ri, at, n),
    ensures
        flat_denotes(ri, at, b) == node_denotes(n, b),
{
    assert(flat_denotes(ri, at, b) == flat_denotes(ri, at, b));
}

/// Two slot vectors that agree on a closed region decode alike anywhere in
/// that region: the walk never reads a slot outside it.
pub(crate) proof fn lemma_flat_frame(
    r1: Seq<usize>,
    r2: Seq<usize>,
    lo: int,
    hi: int,
    s: int,
    b: Seq<bool>,
)
    requires
        0 <= lo <= s,
        s + 1 < hi,
        hi <= r1.len(),
        hi <= r2.len(),
        forall|j: int| lo <= j < hi ==> r1[j] == #[trigger] r2[j],
        region_closed(r1, lo, hi),
    ensures
        flat_denotes(r1, s, b) == flat_denotes(r2, s, b),
    decreases b.len(),
{
    let l = r1[s] as int;
    let r = r1[s + 1] as int;
    if l == 0 && r == 0 {
    } else if b.len() == 0 {
    } else {
        let c = if !b[0] {
            l
        } else {
            r
        };
        if c != 0 {
            assert(s < c && c + 1 < hi);
            lemma_flat_frame(r1, r2, lo, hi, c, b.drop_first());
        }
    }
}

/// Carries `flat_same` across a change that leaves the region untouched.
pub(crate) proof fn lemma_flat_same_frame(
    r1: Seq<usize>,
    r2: Seq<usize>,
    lo: int,
    hi: int,
    at: int,
    n: Node,
)
    requires
        0 <= lo <= at,
        at + 1 < hi,
        hi <= r1.len(),
        hi <= r2.len(),
        forall|j: int| lo <= j < hi ==> r1[j] == #[trigger] r2[j],
        region_closed(r1, lo, hi),
        flat_same(r1, at, n),
    ensures
        flat_same(r2, at, n),
{
    assert forall|b: Seq<bool>| #![trigger flat_denotes(r2, at, b)]
        flat_denotes(r2, at, b) == node_denotes(n, b) by {
        lemma_flat_frame(r1, r2, lo, hi, at, b);
        lemma_flat_same_use(r1, at, n, b);
    }
}

/// Appends the pre-order flattening of the tree `node` to `nodes`: two
/// slots for this node, then the whole left subtree, then the whole right
/// subtree, with this node's slots back-patched to its children's slots.
pub(crate) fn push_node(nodes: &mut Vec<usize>, node: &Node)
    requires
        no_childless(*node),
        old(nodes)@.len() % 2 == 0,
    ensures
        final(nodes)@.len() == old(nodes)@.len() + 2 * node_size(*node),
        old(nodes)@.is_prefix_of(final(nodes)@),
        region_closed(final(nodes)@, old(nodes)@.len() as int,
            final(nodes)@.len() as int),
        flat_same(final(nodes)@, old(nodes)@.len() as int, *node),
    decreases *node,
{
    let idx = nodes.len();
    nodes.push(0);
    nodes.push(0);
    match node {
        Node::Matched => {
            proof {
                assert(nodes@ =~= old(nodes)@ + seq![0usize, 0usize]);
                assert(old(nodes)@.is_prefix_of(nodes@)) by {
                    assert(old(nodes)@ =~= nodes@.subrange(0, idx as int));
                }
                assert forall|b: Seq<bool>| #![trigger flat_denotes(nodes@, idx as int, b)]
                    flat_denotes(nodes@, idx as int, b) == node_denotes(*node, b) by {
                    assert(nodes@[idx as int] == 0);
                    assert(nodes@[idx + 1] == 0);
                }
            }
        }
        Node::Building { left, right } => {
            let ghost g1 = nodes@;
            let li: usize;
            match left {
                Option::None => {
                    li = 0;
                }
                Option::Some(c) => {
                    li = nodes.len();
                    push_node(nodes, c);
                }
            }
            let ghost g2 = nodes@;
            let ghost lsize: nat = (match left {
                Option::None => 0nat,
                Option::Some(c) => node_size(**c),
            });
            let ri_: usize;
            match right {
                Option::None => {
                    ri_ = 0;
                }
                Option::Some(c) => {
                    ri_ = nodes.len();
                    push_node(nodes, c);
                }
            }
            let ghost g3 = nodes@;
            proof {
                assert(g2.len() == idx + 2 + 2 * lsize);
                assert(g2.is_prefix_of(g3));
                assert(forall|j: int| 0 <= j < g2.len() ==> g2[j] == #[trigger] g3[j]);
            }
            nodes[idx] = li;
            nodes[idx + 1] = ri_;
            let ghost g4 = nodes@;
            proof {
                lemma_push_node_join(g1, g2, g3, g4, *node, idx as int, li, ri_, lsize);
                lemma_prefix_index(g1, g2);
                lemma_prefix_index(g2, g3);
                assert forall|j: int| 0 <= j < idx implies
                    old(nodes)@[j] == #[trigger] g4[j] by {
                    assert(old(nodes)@[j] == g1[j]);
                    assert(g1[j] == g2[j]);
                    assert(g2[j] == g3[j]);
                }
                assert(old(nodes)@.is_prefix_of(g4)) by {
                    assert(old(nodes)@ =~= g4.subrange(0, idx as int));
                }
            }
        }
    }
}

/// The joining step of the flattening proof, shared by the four
/// present-or-absent child combinations of a `Building` node.
proof fn lemma_push_node_join(
    g1: Seq<usize>,
    g2: Seq<usize>,
    g3: Seq<usize>,
    g4: Seq<usize>,
    n: Node,
    idx: int,
    li: usize,
    ri_: usize,
    lsize: nat,
)
    requires
        n matches Node::Building { left, right },
        no_childless(n),
        idx % 2 == 0,
        idx >= 0,
        g1.len() == idx + 2,
        g1[idx] == 0,
        g1[idx + 1] == 0,
        g2.len() == idx + 2 + 2 * lsize,
        g1.is_prefix_of(g2),
        g2.is_prefix_of(g3),
        g4 == g3.update(idx, li).update(idx + 1, ri_),
        li as int == (match n->Building_left {
            Option::None => 0int,
            Option::Some(c) => idx + 2,
        }),
        ri_ as int == (match n->Building_right {
            Option::None => 0int,
            Option::Some(c) => g2.len() as int,
        }),
        (match n->Building_left {
            Option::None => lsize == 0,
            Option::Some(c) => {
                &&& lsize == node_size(*c)
                &&& region_closed(g2, idx + 2, g2.len() as int)
                &&& flat_same(g2, idx + 2, *c)
            }
        }),
        (match n->Building_right {
            Option::None => g3.len() == g2.len(),
            Option::Some(c) => {
                &&& g3.len() == g2.len() + 2 * node_size(*c)
                &&& region_closed(g3, g2.len() as int, g3.len() as int)
                &&& flat_same(g3, g2.len() as int, *c)
            }
        }),
    ensures
        g4.len() == idx + 2 * node_size(n),
        region_closed(g4, idx, g4.len() as int),
        flat_same(g4, idx, n),
{
    let hi = g4.len() as int;
    let nl = n->Building_left;
    let nr = n->Building_right;
    assert(g4.len() == g3.len());
    lemma_prefix_index(g1, g2);
    lemma_prefix_index(g2, g3);
    // child facts carried to g4
    if nl is Some {
        let c = nl->0;
        assert(forall|j: int| idx + 2 <= j < g2.len() ==>
            g2[j] == #[trigger] g4[j]);
        assert(region_closed(g4, idx + 2, g2.len() as int)) by {
            assert(forall|j: int| idx + 2 <= j < g2.len() ==> g2[j] == #[trigger] g4[j]);
        }
        lemma_flat_same_frame(g2, g4, idx + 2, g2.len() as int, idx + 2, *c);
    }
    if nr is Some {
        let c = nr->0;
        assert(forall|j: int| g2.len() <= j < g3.len() ==>
            g3[j] == #[trigger] g4[j]);
        assert(region_closed(g4, g2.len() as int, g3.len() as int)) by {
            assert(forall|j: int| g2.len() <= j < g3.len() ==> g3[j] == #[trigger] g4[j]);
        }
        lemma_flat_same_frame(g3, g4, g2.len() as int, g3.len() as int, g2.len() as int, *c);
    }
    // the whole region is closed
    assert forall|j: int| idx <= j < hi implies
        (#[trigger] g4[j] == 0 || (j < g4[j] && g4[j] + 1 < hi && g4[j] % 2 == 0)) by {
        if j == idx {
            if nl is Some {
                assert(g4[j] == idx + 2);
                assert(2 * node_size(*nl->0) >= 2);
            }
        } else if j == idx + 1 {
            if nr is Some {
                assert(g4[j] == g2.len());
                assert(g2.len() % 2 == 0);
                assert(2 * node_size(*nr->0) >= 2);
            }
        } else if idx + 2 <= j < g2.len() {
            assert(nl is Some);
            assert(g4[j] == 0 || (j < g4[j] && g4[j] + 1 < g2.len() && g4[j] % 2 == 0));
        } else {
            assert(nr is Some);
            assert(g4[j] == 0 || (j < g4[j] && g4[j] + 1 < g3.len() && g4[j] % 2 == 0));
        }
    }
    // the region describes the tree
    assert forall|b: Seq<bool>| #![trigger flat_denotes(g4, idx, b)]
        flat_denotes(g4, idx, b) == node_denotes(n, b) by {
        assert(g4[idx] == li && g4[idx + 1] == ri_);
        assert(!(li == 0 && ri_ == 0));
        if b.len() == 0 {
        } else {
            if !b[0] {
                match nl {
                    Option::None => {
                        assert(li == 0);
                        assert(!flat_denotes(g4, idx, b));
                    }
                    Option::Some(c) => {
                        lemma_flat_same_use(g4, idx + 2, *c, b.drop_first());
                    }
                }
            } else {
                match nr {
                    Option::None => {
                        assert(ri_ == 0);
                        assert(!flat_denotes(g4, idx, b));
                    }
                    Option::Some(c) => {
                        lemma_flat_same_use(g4, g2.len() as int, *c, b.drop_first());
                    }
                }
            }
        }
    }
}

} // verus!
