//! The mutable binary trie of the build phase.
//!
//! A `Matched` node marks "every address whose bit path reaches here is in
//! the set" and never has children; a `Building` node is an interior node
//! with up to two children. Insertion walks the prefix bits from the root,
//! creating `Building` nodes on demand, and marks the final node `Matched`.

use vstd::prelude::*;

verus! {

pub(crate) enum Node {
    Matched,
    Building { left: Option<Box<Node>>, right: Option<Box<Node>> },
}

/// Whether the bit path `b` ends inside the set described by the trie `n`:
/// reaching a `Matched` node, or exhausting the path, counts as contained;
/// needing an absent child does not.
pub(crate) open spec fn node_denotes(n: Node, b: Seq<bool>) -> bool
    decreases b.len(),
{
    match n {
        Node::Matched => true,
        Node::Building { left, right } => {
            if b.len() == 0 {
                true
            } else {
                let side = if !b[0] {
                    left
                } else {
                    right
                };
                match side {
                    Option::None => false,
                    Option::Some(c) => node_denotes(*c, b.drop_first()),
                }
            }
        }
    }
}

/// What an optional child denotes: an absent child denotes nothing.
pub(crate) open spec fn opt_denotes(o: Option<Box<Node>>, s: Seq<bool>) -> bool {
    match o {
        Option::None => false,
        Option::Some(c) => node_denotes(*c, s),
    }
}

/// Every `Building` node in the tree, the root included, has at least one
/// child.
pub(crate) open spec fn no_childless(n: Node) -> bool
    decreases n,
{
    match n {
        Node::Matched => true,
        Node::Building { left, right } => {
            &&& left is Some || right is Some
            &&& match left {
                Option::None => true,
                Option::Some(c) => no_childless(*c),
            }
            &&& match right {
                Option::None => true,
                Option::Some(c) => no_childless(*c),
            }
        }
    }
}

/// Every `Building` node strictly below the root has at least one child;
/// the root itself may be childless (a freshly created trie).
pub(crate) open spec fn children_ok(n: Node) -> bool {
    match n {
        Node::Matched => true,
        Node::Building { left, right } => {
            &&& match left {
                Option::None => true,
                Option::Some(c) => no_childless(*c),
            }
            &&& match right {
                Option::None => true,
                Option::Some(c) => no_childless(*c),
            }
        }
    }
}

/// The state of a trie that has seen no insertion.
pub(crate) open spec fn is_fresh(n: Node) -> bool {
    n == (Node::Building { left: Option::<Box<Node>>::None, right: Option::<Box<Node>>::None })
}

impl Node {
    /// A fresh interior node with no children.
    pub(crate) fn new_empty_ref() -> (r: Node)
        ensures
            is_fresh(r),
    {
        Node::Building { left: Option::None, right: Option::None }
    }
}

/// Number of nodes in the tree.
pub(crate) open spec fn node_size(n: Node) -> nat
    decreases n,
{
    match n {
        Node::Matched => 1,
        Node::Building { left, right } => {
            1 + (match left {
                Option::None => 0nat,
                Option::Some(c) => node_size(*c),
            }) + (match right {
                Option::None => 0nat,
                Option::Some(c) => node_size(*c),
            })
        }
    }
}

/// A tree whose every `Building` node has a child in particular has its
/// root's subtrees in that shape.
pub(crate) proof fn lemma_no_childless_children_ok(n: Node)
    requires
        no_childless(n),
    ensures
        children_ok(n),
{
}

/// The prefix `bits[from..]` covers the bit path `s`.
pub(crate) open spec fn covers_from(bits: Seq<bool>, from: int, s: Seq<bool>) -> bool {
    bits.skip(from).is_prefix_of(s)
}

/// Insertion summary: on every path long enough to decide the question,
/// the new tree `r` denotes what the old tree `n` denoted, plus every path
/// that the prefix `bits[from..]` covers.
pub(crate) open spec fn add_ok(r: Node, n: Node, bits: Seq<bool>, from: int) -> bool {
    forall|s: Seq<bool>|
        #![trigger covers_from(bits, from, s)]
        #![trigger node_denotes(r, s)]
        s.len() >= bits.len() - from ==>
            (node_denotes(r, s) <==> node_denotes(n, s) || covers_from(bits, from, s))
}

/// Instantiates `add_ok` on one path.
pub(crate) proof fn lemma_add_ok_use(r: Node, n: Node, bits: Seq<bool>, from: int, s: Seq<bool>)
    requires
        add_ok(r, n, bits, from),
        s.len() >= bits.len() - from,
    ensures
        node_denotes(r, s) <==> node_denotes(n, s) || covers_from(bits, from, s),
{
    assert(covers_from(bits, from, s) || !covers_from(bits, from, s));
}

/// A non-empty prefix `p` is a prefix of a non-empty `s` exactly when their
/// first bits agree and the rest of `p` is a prefix of the rest of `s`.
proof fn lemma_prefix_step(p: Seq<bool>, s: Seq<bool>)
    requires
        p.len() >= 1,
        s.len() >= 1,
    ensures
        p.is_prefix_of(s) <==> (s[0] == p[0] && p.drop_first().is_prefix_of(s.drop_first())),
{
    if p.len() <= s.len() {
        if s[0] == p[0] && p.drop_first().is_prefix_of(s.drop_first()) {
            assert forall|i: int| 0 <= i < p.len() implies
                s.subrange(0, p.len() as int)[i] == #[trigger] p[i] by {
                if i > 0 {
                    assert(p.drop_first()[i - 1] == s.drop_first().subrange(
                        0, p.drop_first().len() as int)[i - 1]);
                }
            }
            assert(p =~= s.subrange(0, p.len() as int));
        }
        if p.is_prefix_of(s) {
            assert(p[0] == s.subrange(0, p.len() as int)[0]);
            assert forall|i: int| 0 <= i < p.len() - 1 implies
                s.drop_first().subrange(0, p.len() - 1)[i] == #[trigger] p.drop_first()[i] by {
                assert(p[i + 1] == s.subrange(0, p.len() as int)[i + 1]);
            }
            assert(p.drop_first() =~= s.drop_first().subrange(0, p.len() - 1));
        }
    }
}

/// Inserts the prefix `bits[from..]` into `n` and returns the new tree.
///
/// A walk that meets a `Matched` node stops: the new prefix is subsumed.
/// Otherwise the node reached after the last prefix bit becomes `Matched`,
/// discarding whatever was below it.
pub(crate) fn add_node(n: Node, bits: &Vec<bool>, from: usize) -> (r: Node)
    requires
        from <= bits@.len(),
        children_ok(n),
    ensures
        no_childless(r),
        add_ok(r, n, bits@, from as int),
    decreases bits@.len() - from,
{
    match n {
        Node::Matched => {
            proof {
                assert forall|s: Seq<bool>| s.len() >= bits@.len() - from implies
                    (node_denotes(Node::Matched, s) <==> node_denotes(n, s)
                        || #[trigger] covers_from(bits@, from as int, s)) by {
                    assert(node_denotes(Node::Matched, s));
                }
            }
            Node::Matched
        }
        Node::Building { left, right } => {
            if from == bits.len() {
                proof {
                    assert forall|s: Seq<bool>| s.len() >= bits@.len() - from implies
                        (node_denotes(Node::Matched, s) <==> node_denotes(n, s)
                            || #[trigger] covers_from(bits@, from as int, s)) by {
                        assert(node_denotes(Node::Matched, s));
                        assert(bits@.skip(from as int) =~= s.subrange(0, 0));
                        assert(covers_from(bits@, from as int, s));
                    }
                }
                Node::Matched
            } else {
                let bit = bits[from];
                let next = from + 1;
                let ghost gl = left;
                let ghost gr = right;
                if !bit {
                    let newchild: Node = match left {
                        Option::None => add_node(Node::new_empty_ref(), bits, next),
                        Option::Some(cb) => add_node(*cb, bits, next),
                    };
                    let r = Node::Building {
                        left: Option::Some(Box::new(newchild)),
                        right,
                    };
                    proof {
                        lemma_add_branch(r, newchild, gl, gr, bits@, from as int, next as int,
                            false);
                        assert(n == (Node::Building { left: gl, right: gr }));
                    }
                    r
                } else {
                    let newchild: Node = match right {
                        Option::None => add_node(Node::new_empty_ref(), bits, next),
                        Option::Some(cb) => add_node(*cb, bits, next),
                    };
                    let r = Node::Building {
                        left,
                        right: Option::Some(Box::new(newchild)),
                    };
                    proof {
                        lemma_add_branch(r, newchild, gl, gr, bits@, from as int, next as int,
                            true);
                        assert(n == (Node::Building { left: gl, right: gr }));
                    }
                    r
                }
            }
        }
    }
}

/// The step case of the insertion proof: descending along bit `bit` of the
/// prefix and replacing that child with the recursively grown `child`
/// realizes the insertion summary one level up.
proof fn lemma_add_branch(
    r: Node,
    child: Node,
    nl: Option<Box<Node>>,
    nr: Option<Box<Node>>,
    bits: Seq<bool>,
    from: int,
    next: int,
    bit: bool,
)
    requires
        0 <= from < bits.len(),
        next == from + 1,
        bits[from] == bit,
        r == (if !bit {
            Node::Building { left: Option::Some(Box::new(child)), right: nr }
        } else {
            Node::Building { left: nl, right: Option::Some(Box::new(child)) }
        }),
        (match (if !bit {
            nl
        } else {
            nr
        }) {
            Option::None => add_ok(
                child,
                Node::Building { left: Option::None, right: Option::None },
                bits,
                next,
            ),
            Option::Some(c) => add_ok(child, *c, bits, next),
        }),
    ensures
        add_ok(r, Node::Building { left: nl, right: nr }, bits, from),
{
    let n = Node::Building { left: nl, right: nr };
    let fresh = Node::Building { left: Option::<Box<Node>>::None, right: Option::<Box<Node>>::None };
    let pre = bits.skip(from);
    let sub = bits.skip(next);
    assert(pre.drop_first() =~= sub);
    assert forall|s: Seq<bool>|
        #![trigger covers_from(bits, from, s)]
        #![trigger node_denotes(r, s)]
        s.len() >= bits.len() - from implies
        (node_denotes(r, s) <==> node_denotes(n, s)
            || covers_from(bits, from, s)) by {
        assert(s.len() >= 1);
        lemma_prefix_step(pre, s);
        let sdf = s.drop_first();
        if s[0] == bit {
            assert(sdf.len() >= bits.len() - next);
            assert(node_denotes(r, s) == node_denotes(child, sdf));
            assert(node_denotes(n, s) == opt_denotes(
                if !bit {
                    nl
                } else {
                    nr
                }, sdf));
            assert(covers_from(bits, from, s) == covers_from(bits, next, sdf));
            match (if !bit {
                nl
            } else {
                nr
            }) {
                Option::None => {
                    lemma_add_ok_use(child, fresh, bits, next, sdf);
                    if sdf.len() == 0 {
                        assert(bits.skip(next) =~= sdf.subrange(0, 0));
                        assert(covers_from(bits, next, sdf));
                    } else {
                        assert(!node_denotes(fresh, sdf));
                    }
                }
                Option::Some(c) => {
                    lemma_add_ok_use(child, *c, bits, next, sdf);
                }
            }
        } else {
            assert(!pre.is_prefix_of(s));
            assert(node_denotes(r, s) == opt_denotes(
                if !bit {
                    nr
                } else {
                    nl
                }, sdf));
            assert(node_denotes(n, s) == opt_denotes(
                if !bit {
                    nr
                } else {
                    nl
                }, sdf));
        }
    }
}

} // verus!
