//! A compact, read-optimized IP-prefix set.
//!
//! A builder accepts CIDR prefixes and maintains a binary trie; `build`
//! collapses the trie into a single byte buffer of varint-encoded forward
//! deltas, and the resulting set answers containment queries by walking
//! that buffer bit by bit.

pub(crate) mod encode;
pub(crate) mod flat;
pub mod laws;
pub mod model;
pub(crate) mod trie;
pub mod varint;

use vstd::prelude::*;

use crate::encode::{
    lemma_ofs_bound, lemma_ofs_diff_le, lemma_ofs_mono, lemma_sum_bound, lemma_sum_lt, ofs_of,
    seq_sum,
};
use crate::flat::{flat_denotes, flat_wf, lemma_flat_same_use, push_node};
use crate::model::{
    covered_by, lemma_covered_push, prefix_set_contains, u128_bits, u128_prefix, u32_bits,
    u32_prefix,
};
use crate::trie::{
    add_node, children_ok, is_fresh, lemma_add_ok_use, lemma_no_childless_children_ok,
    no_childless, node_denotes, Node,
};
use crate::varint::{
    is_varint_at, lemma_varint_at_app, lemma_varint_at_unique, lemma_varint_enc_len, read_varint,
    varint_enc, varint_len, write_varint,
};

verus! {

pub type IpSetV4 = IpSet<32>;

pub type IpSetV6 = IpSet<128>;

pub type IpSetBuilderV4 = IpSetBuilder<32>;

pub type IpSetBuilderV6 = IpSetBuilder<128>;

/// An immutable set of `BITS`-bit addresses, stored as one byte buffer.
///
/// Each encoded node is two varints: the forward byte distance to the left
/// and to the right child, zero meaning "no child", and a node with two
/// zeros meaning "matched". The root starts at byte zero. A set built
/// with no insertions is the empty buffer, since a childless root would
/// read as the matched sentinel and claim every address.
pub struct IpSet<const BITS: usize> {
    nodes: Vec<u8>,
    index: Ghost<Seq<usize>>,
    deltas: Ghost<Seq<usize>>,
    prefixes: Ghost<Seq<Seq<bool>>>,
}

impl<const BITS: usize> IpSet<BITS> {
    /// The prefixes that were inserted into the builder this set came from,
    /// in insertion order, each as its sequence of significant bits.
    pub closed spec fn prefixes(self) -> Seq<Seq<bool>> {
        self.prefixes@
    }

    /// The byte buffer, its ghost slot index and delta values, and the
    /// prefix model agree. This is the shape of every set with at least
    /// one inserted prefix.
    closed spec fn encoded_wf(self) -> bool {
        let ri = self.index@;
        let dv = self.deltas@;
        &&& flat_wf(ri)
        &&& dv.len() == ri.len()
        &&& self.nodes@.len() == ofs_of(dv, ri.len() as int)
        &&& self.nodes@.len() >= 2
        &&& forall|j: int| #![trigger dv[j]] 0 <= j < ri.len() ==>
            is_varint_at(self.nodes@, ofs_of(dv, j), dv[j] as nat)
        &&& forall|j: int| #![trigger ri[j]] 0 <= j < ri.len() ==> dv[j] as int == (if ri[j] == 0 {
            0int
        } else {
            ofs_of(dv, ri[j] as int) - ofs_of(dv, j)
        })
        &&& forall|b: Seq<bool>| #![trigger flat_denotes(ri, 0, b)] b.len() == BITS as int ==>
            (flat_denotes(ri, 0, b) <==> prefix_set_contains(self.prefixes@, b))
    }

    #[verifier::type_invariant]
    closed spec fn wf(self) -> bool {
        &&& (self.prefixes@.len() == 0 ==> self.nodes@.len() == 0 && self.index@.len() == 0)
        &&& (self.prefixes@.len() > 0 ==> self.encoded_wf())
    }

    /// Starts building a new, empty set.
    pub fn builder() -> (r: IpSetBuilder<BITS>)
        ensures
            r.wf(),
            r.prefixes() == Seq::<Seq<bool>>::empty(),
    {
        IpSetBuilder::new()
    }

    /// Reads one encoded node: the two varints at `offset`, turned into
    /// the absolute byte offsets of the left and the right child, zero
    /// standing for an absent child (no node can start at byte zero but
    /// the root, which is never a child).
    fn load_node_refs(&self, offset: usize, Ghost(slot): Ghost<int>) -> (r: (usize, usize))
        requires
            0 <= slot,
            slot + 1 < self.index@.len(),
            offset as int == ofs_of(self.deltas@, slot),
        ensures
            r.0 as int == (if self.index@[slot] == 0 {
                0int
            } else {
                ofs_of(self.deltas@, self.index@[slot] as int)
            }),
            r.1 as int == (if self.index@[slot + 1] == 0 {
                0int
            } else {
                ofs_of(self.deltas@, self.index@[slot + 1] as int)
            }),
    {
        proof {
            use_type_invariant(&*self);
        }
        let ghost ri = self.index@;
        let ghost dv = self.deltas@;
        proof {
            assert(is_varint_at(self.nodes@, ofs_of(dv, slot), dv[slot] as nat));
            assert(dv[slot] <= usize::MAX);
        }
        let (left_off, n) = read_varint(&self.nodes, offset);
        proof {
            lemma_varint_at_unique(self.nodes@, offset as int, left_off as nat, dv[slot] as nat);
            assert(ofs_of(dv, slot + 1) == ofs_of(dv, slot) + varint_len(dv[slot] as nat));
            assert(is_varint_at(self.nodes@, ofs_of(dv, slot + 1), dv[slot + 1] as nat));
            assert(self.nodes@.len() <= usize::MAX) by {
                assert(self.nodes.len() == self.nodes@.len());
            }
        }
        let (right_off, _n2) = read_varint(&self.nodes, offset + n);
        proof {
            lemma_varint_at_unique(self.nodes@, ofs_of(dv, slot + 1), right_off as nat,
                dv[slot + 1] as nat);
            assert(dv[slot] as int == (if ri[slot] == 0 {
                0int
            } else {
                ofs_of(dv, ri[slot] as int) - ofs_of(dv, slot)
            }));
            assert(dv[slot + 1] as int == (if ri[slot + 1] == 0 {
                0int
            } else {
                ofs_of(dv, ri[slot + 1] as int) - ofs_of(dv, slot + 1)
            }));
            if ri[slot] != 0 {
                assert(slot < ri[slot] && ri[slot] + 1 < ri.len());
                lemma_ofs_mono(dv, slot, ri[slot] as int);
                lemma_ofs_mono(dv, ri[slot] as int, ri.len() as int);
            }
            if ri[slot + 1] != 0 {
                assert(slot + 1 < ri[slot + 1] && ri[slot + 1] + 1 < ri.len());
                lemma_ofs_mono(dv, slot + 1, ri[slot + 1] as int);
                lemma_ofs_mono(dv, ri[slot + 1] as int, ri.len() as int);
            }
        }
        let left_ref_to = if left_off != 0 {
            offset + left_off
        } else {
            0
        };
        let right_ref_to = if right_off != 0 {
            offset + n + right_off
        } else {
            0
        };
        (left_ref_to, right_ref_to)
    }

    /// Walks the encoded trie along the given address bits: a matched node
    /// answers yes, a missing child answers no, and a fully consumed path
    /// answers yes. A set built with no insertions has an empty buffer and
    /// contains nothing.
    #[verifier::loop_isolation(false)]
    #[verifier::rlimit(60)]
    pub fn contains_with(&self, bits: &Vec<bool>) -> (r: bool)
        requires
            bits@.len() == BITS as int,
        ensures
            r == prefix_set_contains(self.prefixes(), bits@),
    {
        proof {
            use_type_invariant(&*self);
        }
        if self.nodes.len() == 0 {
            proof {
                assert(self.prefixes@.len() == 0);
                assert(!covered_by(self.prefixes@, bits@));
            }
            return false;
        }
        proof {
            assert(self.prefixes@.len() > 0);
        }
        let ghost ri = self.index@;
        let ghost dv = self.deltas@;
        let mut offset: usize = 0;
        let mut i: usize = 0;
        let ghost mut slot: int = 0;
        proof {
            assert(bits@.skip(0) =~= bits@);
        }
        while i < bits.len()
            invariant
                i <= bits@.len(),
                0 <= slot,
                slot + 1 < ri.len(),
                offset as int == ofs_of(dv, slot),
                flat_denotes(ri, slot, bits@.skip(i as int)) == flat_denotes(ri, 0, bits@),
            decreases bits@.len() - i,
        {
            let (left_node_ref, right_node_ref) = self.load_node_refs(offset, Ghost(slot));
            proof {
                if ri[slot] != 0 {
                    assert(slot < ri[slot] && ri[slot] + 1 < ri.len());
                    lemma_ofs_mono(dv, 0, ri[slot] as int);
                }
                if ri[slot + 1] != 0 {
                    assert(slot + 1 < ri[slot + 1] && ri[slot + 1] + 1 < ri.len());
                    lemma_ofs_mono(dv, 0, ri[slot + 1] as int);
                }
                assert(left_node_ref == 0 <==> ri[slot] == 0);
                assert(right_node_ref == 0 <==> ri[slot + 1] == 0);
                assert(bits@.skip(i as int).len() == bits@.len() - i);
            }
            if left_node_ref == 0 && right_node_ref == 0 {
                proof {
                    assert(flat_denotes(ri, slot, bits@.skip(i as int)));
                }
                return true;
            }
            let bit = bits[i];
            let target = if !bit {
                left_node_ref
            } else {
                right_node_ref
            };
            if target == 0 {
                proof {
                    assert(!flat_denotes(ri, slot, bits@.skip(i as int)));
                }
                return false;
            }
            proof {
                assert(bits@.skip(i as int).drop_first() =~= bits@.skip(i + 1));
                if !bit {
                    assert(flat_denotes(ri, ri[slot] as int, bits@.skip(i + 1))
                        == flat_denotes(ri, slot, bits@.skip(i as int)));
                } else {
                    assert(flat_denotes(ri, ri[slot + 1] as int, bits@.skip(i + 1))
                        == flat_denotes(ri, slot, bits@.skip(i as int)));
                }
            }
            offset = target;
            proof {
                slot = (if !bit {
                    ri[slot] as int
                } else {
                    ri[slot + 1] as int
                });
            }
            i = i + 1;
        }
        proof {
            assert(bits@.skip(i as int) =~= Seq::<bool>::empty());
            assert(flat_denotes(ri, slot, bits@.skip(i as int)));
        }
        true
    }
}

impl IpSet<32> {
    /// Is the IPv4 address `addr`, given as its 32-bit value, covered by
    /// some prefix of the set?
    pub fn contains(&self, addr: u32) -> (r: bool)
        ensures
            r == prefix_set_contains(self.prefixes(), u32_prefix(addr, 32)),
    {
        let bits = u32_bits(addr, 32);
        self.contains_with(&bits)
    }
}

impl IpSet<128> {
    /// Is the IPv6 address `addr`, given as its 128-bit value, covered by
    /// some prefix of the set?
    pub fn contains(&self, addr: u128) -> (r: bool)
        ensures
            r == prefix_set_contains(self.prefixes(), u128_prefix(addr, 128)),
    {
        let bits = u128_bits(addr, 128);
        self.contains_with(&bits)
    }
}

/// A mutable prefix-set builder: a binary trie that accepts insertions and
/// is then consumed by `build`.
pub struct IpSetBuilder<const BITS: usize> {
    root: Node,
    prefixes: Ghost<Seq<Seq<bool>>>,
}

impl<const BITS: usize> IpSetBuilder<BITS> {
    /// The prefixes inserted so far, in insertion order, each as its
    /// sequence of significant bits.
    pub closed spec fn prefixes(self) -> Seq<Seq<bool>> {
        self.prefixes@
    }

    /// The builder's trie faithfully mirrors the prefixes inserted so far.
    pub closed spec fn wf(self) -> bool {
        &&& children_ok(self.root)
        &&& (self.prefixes@.len() == 0 <==> is_fresh(self.root))
        &&& (self.prefixes@.len() > 0 ==> no_childless(self.root))
        &&& forall|i: int| #![trigger self.prefixes@[i]] 0 <= i < self.prefixes@.len() ==>
            self.prefixes@[i].len() <= BITS as int
        &&& self.prefixes@.len() > 0 ==> forall|b: Seq<bool>|
            #![trigger node_denotes(self.root, b)]
            b.len() == BITS as int ==> (node_denotes(self.root, b) <==> covered_by(
                self.prefixes@, b))
    }

    fn new() -> (r: Self)
        ensures
            r.wf(),
            r.prefixes() == Seq::<Seq<bool>>::empty(),
    {
        IpSetBuilder { root: Node::new_empty_ref(), prefixes: Ghost(Seq::empty()) }
    }

    /// Inserts one prefix, given as the sequence of its significant bits,
    /// most-significant first.
    pub fn add_with(&mut self, bits: &Vec<bool>)
        requires
            old(self).wf(),
            bits@.len() <= BITS as int,
        ensures
            final(self).wf(),
            final(self).prefixes() == old(self).prefixes().push(bits@),
    {
        let ghost ps = self.prefixes@;
        let ghost oldroot = self.root;
        let mut tmp: Node = Node::new_empty_ref();
        core::mem::swap(&mut tmp, &mut self.root);
        let newroot = add_node(tmp, bits, 0);
        self.root = newroot;
        self.prefixes = Ghost(ps.push(bits@));
        proof {
            lemma_no_childless_children_ok(self.root);
            assert(!is_fresh(self.root)) by {
                if is_fresh(self.root) {
                    assert(!no_childless(self.root));
                }
            }
            assert(bits@.skip(0) =~= bits@);
            assert forall|b: Seq<bool>| #![trigger node_denotes(self.root, b)]
                b.len() == BITS as int implies (node_denotes(self.root, b) <==> covered_by(
                    self.prefixes@, b)) by {
                lemma_add_ok_use(self.root, oldroot, bits@, 0, b);
                lemma_covered_push(ps, bits@, b);
                if ps.len() > 0 {
                    assert(node_denotes(oldroot, b) <==> covered_by(ps, b));
                } else {
                    assert(is_fresh(oldroot));
                    assert(!covered_by(ps, b));
                    if b.len() == 0 {
                        assert(bits@ =~= b.subrange(0, 0));
                        assert(bits@.is_prefix_of(b));
                        assert(node_denotes(self.root, b));
                    } else {
                        assert(!node_denotes(oldroot, b));
                    }
                }
            }
        }
    }

    /// Flattens the trie into pre-order child-index slots. Only a builder
    /// that has seen an insertion is flattened: a childless root would be
    /// byte-identical to the matched sentinel, so the empty set is encoded
    /// as an empty buffer instead, outside this walk.
    fn build_nodes_ref_index(self) -> (r: Vec<usize>)
        requires
            self.wf(),
            self.prefixes().len() > 0,
        ensures
            flat_wf(r@),
            forall|b: Seq<bool>| #![trigger flat_denotes(r@, 0, b)] b.len() == BITS as int ==>
                (flat_denotes(r@, 0, b) <==> prefix_set_contains(self.prefixes@, b)),
    {
        let mut nodes: Vec<usize> = Vec::new();
        proof {
            assert(no_childless(self.root));
        }
        push_node(&mut nodes, &self.root);
        proof {
            assert(nodes@.len() >= 2);
            assert forall|b: Seq<bool>| #![trigger flat_denotes(nodes@, 0, b)]
                b.len() == BITS as int implies (flat_denotes(nodes@, 0, b)
                    <==> prefix_set_contains(self.prefixes@, b)) by {
                lemma_flat_same_use(nodes@, 0, self.root, b);
                assert(node_denotes(self.root, b) <==> covered_by(self.prefixes@, b));
            }
        }
        nodes
    }

    /// Consumes the builder and produces the encoded set. A builder with
    /// no insertions yields the empty buffer, which contains nothing.
    ///
    /// The byte layout is found as a fixed point: starting from all-zero
    /// delta candidates, the buffer is emitted and every delta recomputed
    /// from the resulting offsets, over and over until nothing changes.
    /// Candidates grow monotonically and are bounded, so the loop provably
    /// terminates, and it only stops once the emitted buffer agrees with
    /// its own offsets.
    #[verifier::rlimit(100)]
    pub fn build(self) -> (r: IpSet<BITS>)
        requires
            self.wf(),
        ensures
            r.prefixes() == self.prefixes(),
    {
        let ghost ps = self.prefixes@;
        match &self.root {
            Node::Building { left: Option::None, right: Option::None } => {
                proof {
                    assert(is_fresh(self.root));
                    assert(ps.len() == 0);
                }
                IpSet {
                    nodes: Vec::new(),
                    index: Ghost(Seq::empty()),
                    deltas: Ghost(Seq::empty()),
                    prefixes: Ghost(ps),
                }
            }
            _ => {
                proof {
                    assert(!is_fresh(self.root));
                    assert(ps.len() > 0);
                }
                let ri = self.build_nodes_ref_index();
                let n = ri.len();
                let ghost gri = ri@;
                let mut vals: Vec<usize> = Vec::new();
                let mut k: usize = 0;
                while k < n
                    invariant
                        vals@.len() == k,
                        k <= n,
                        forall|j: int| #![trigger vals@[j]] 0 <= j < k ==> vals@[j] == 0,
                    decreases n - k,
                {
                    vals.push(0);
                    k = k + 1;
                }
                let mut offs: Vec<usize> = Vec::new();
                let mut k2: usize = 0;
                while k2 < n
                    invariant
                        offs@.len() == k2,
                        k2 <= n,
                    decreases n - k2,
                {
                    offs.push(0);
                    k2 = k2 + 1;
                }
                let mut bytes: Vec<u8> = Vec::new();
                let mut has_changed = true;
                proof {
                    assert forall|j: int| #![trigger gri[j]] 0 <= j < n implies
                        vals@[j] as int <= (if gri[j] == 0 {
                            0int
                        } else {
                            ofs_of(vals@, gri[j] as int) - ofs_of(vals@, j)
                        }) by {
                        if gri[j] != 0 {
                            assert(j < gri[j] && gri[j] + 1 < n);
                            lemma_ofs_mono(vals@, j, gri[j] as int);
                        }
                    }
                    lemma_sum_bound(vals@, 0);
                    assert(seq_sum(vals@) <= 10 * (n as int) * (n as int)) by (nonlinear_arith)
                        requires seq_sum(vals@) <= 0 && n >= 2;
                }
                while has_changed
                    invariant
                        vals@.len() == n,
                        offs@.len() == n,
                        ri@ == gri,
                        gri.len() == n,
                        flat_wf(gri),
                        n >= 2,
                        forall|j: int| #![trigger gri[j]] 0 <= j < n ==> vals@[j] as int <= (if gri[j]
                            == 0 {
                            0int
                        } else {
                            ofs_of(vals@, gri[j] as int) - ofs_of(vals@, j)
                        }),
                        seq_sum(vals@) <= 10 * (n as int) * (n as int),
                        seq_sum(vals@) >= 0,
                        !has_changed ==> bytes@.len() == ofs_of(vals@, n as int),
                        !has_changed ==> forall|j: int| #![trigger vals@[j]] 0 <= j < n ==>
                            is_varint_at(bytes@, ofs_of(vals@, j), vals@[j] as nat),
                        !has_changed ==> forall|j: int| #![trigger gri[j]] 0 <= j < n ==>
                            vals@[j] as int == (if gri[j] == 0 {
                                0int
                            } else {
                                ofs_of(vals@, gri[j] as int) - ofs_of(vals@, j)
                            }),
                    decreases
                        10 * (n as int) * (n as int) - seq_sum(vals@),
                        (if has_changed {
                            1int
                        } else {
                            0int
                        }),
                {
                    has_changed = false;
                    bytes.clear();
                    let mut j: usize = 0;
                    while j < n
                        invariant
                            j <= n,
                            vals@.len() == n,
                            offs@.len() == n,
                            forall|k3: int| #![trigger offs@[k3]] 0 <= k3 < j ==> offs@[k3] as int
                                == ofs_of(vals@, k3),
                            bytes@.len() == ofs_of(vals@, j as int),
                            forall|k3: int| #![trigger vals@[k3]] 0 <= k3 < j ==> is_varint_at(
                                bytes@, ofs_of(vals@, k3), vals@[k3] as nat),
                        decreases n - j,
                    {
                        let here = bytes.len();
                        offs[j] = here;
                        let ghost gb = bytes@;
                        let v = vals[j];
                        let _w = write_varint(&mut bytes, v);
                        proof {
                            lemma_varint_enc_len(v as nat);
                            assert(is_varint_at(bytes@, here as int, v as nat)) by {
                                assert(bytes@.subrange(here as int, here + varint_len(v as nat) as int)
                                    =~= varint_enc(v as nat));
                            }
                            assert forall|k3: int| 0 <= k3 < j implies is_varint_at(
                                bytes@, ofs_of(vals@, k3), #[trigger] vals@[k3] as nat) by {
                                lemma_varint_at_app(gb, varint_enc(v as nat), ofs_of(vals@, k3),
                                    vals@[k3] as nat);
                            }
                        }
                        j = j + 1;
                    }
                    let ghost pv = vals@;
                    let mut j2: usize = 0;
                    while j2 < n
                        invariant
                            j2 <= n,
                            vals@.len() == n,
                            pv.len() == n,
                            offs@.len() == n,
                            ri@ == gri,
                            gri.len() == n,
                            flat_wf(gri),
                            forall|k3: int| #![trigger offs@[k3]] 0 <= k3 < n ==> offs@[k3] as int
                                == ofs_of(pv, k3),
                            forall|k3: int| #![trigger vals@[k3]] j2 <= k3 < n ==> vals@[k3] == pv[k3],
                            forall|k3: int| #![trigger gri[k3]] 0 <= k3 < j2 ==> vals@[k3] as int == (
                                if gri[k3] == 0 {
                                    0int
                                } else {
                                    ofs_of(pv, gri[k3] as int) - ofs_of(pv, k3)
                                }),
                            forall|k3: int| #![trigger pv[k3]] 0 <= k3 < n ==> pv[k3] <= vals@[k3],
                            has_changed <==> exists|k3: int| 0 <= k3 < j2 && vals@[k3] != pv[k3],
                            forall|j3: int| #![trigger gri[j3]] 0 <= j3 < n ==> pv[j3] as int <= (
                                if gri[j3] == 0 {
                                    0int
                                } else {
                                    ofs_of(pv, gri[j3] as int) - ofs_of(pv, j3)
                                }),
                        decreases n - j2,
                    {
                        let c = ri[j2];
                        let nv: usize;
                        if c != 0 {
                            proof {
                                assert(j2 < c && c + 1 < n);
                                lemma_ofs_mono(pv, j2 as int, c as int);
                            }
                            nv = offs[c] - offs[j2];
                        } else {
                            nv = 0;
                        }
                        proof {
                            assert(pv[j2 as int] as int <= (if gri[j2 as int] == 0 {
                                0int
                            } else {
                                ofs_of(pv, gri[j2 as int] as int) - ofs_of(pv, j2 as int)
                            }));
                            assert(pv[j2 as int] <= nv);
                        }
                        let cur = vals[j2];
                        if nv != cur {
                            vals[j2] = nv;
                            has_changed = true;
                        }
                        j2 = j2 + 1;
                    }
                    proof {
                        if !has_changed {
                            assert(vals@ =~= pv);
                        } else {
                            let kc = choose|k3: int| 0 <= k3 < n && vals@[k3] != pv[k3];
                            lemma_sum_lt(pv, vals@, kc);
                        }
                        assert forall|j3: int| #![trigger gri[j3]] 0 <= j3 < n implies
                            vals@[j3] as int <= (if gri[j3] == 0 {
                                0int
                            } else {
                                ofs_of(vals@, gri[j3] as int) - ofs_of(vals@, j3)
                            }) by {
                            if gri[j3] != 0 {
                                assert(j3 < gri[j3] && gri[j3] + 1 < n);
                                lemma_ofs_diff_le(pv, vals@, j3, gri[j3] as int);
                            }
                        }
                        assert forall|j3: int| 0 <= j3 < n implies #[trigger] vals@[j3] as int <= 10 * (
                            n as int) by {
                            if gri[j3] != 0 {
                                assert(j3 < gri[j3] && gri[j3] + 1 < n);
                                lemma_ofs_mono(pv, 0, j3);
                                lemma_ofs_mono(pv, gri[j3] as int, n as int);
                                lemma_ofs_bound(pv, n as int);
                            }
                        }
                        lemma_sum_bound(vals@, 10 * (n as int));
                        assert((n as int) * (10 * (n as int)) == 10 * (n as int) * (n as int))
                            by (nonlinear_arith);
                    }
                }
                let ghost dv = vals@;
                proof {
                    lemma_ofs_mono(dv, 0, n as int);
                }
                let s = IpSet {
                    nodes: bytes,
                    index: Ghost(gri),
                    deltas: Ghost(dv),
                    prefixes: Ghost(ps),
                };
                s
            }
        }
    }
}

impl IpSetBuilder<32> {
    /// Inserts the CIDR `addr/prefix` for an IPv4 address given as its
    /// 32-bit value.
    pub fn add(&mut self, addr: u32, prefix: u8)
        requires
            old(self).wf(),
            prefix <= 32,
        ensures
            final(self).wf(),
            final(self).prefixes() == old(self).prefixes().push(
                u32_prefix(addr, prefix as int)),
    {
        let bits = u32_bits(addr, prefix as usize);
        self.add_with(&bits);
    }
}

impl IpSetBuilder<128> {
    /// Inserts the CIDR `addr/prefix` for an IPv6 address given as its
    /// 128-bit value.
    pub fn add(&mut self, addr: u128, prefix: u8)
        requires
            old(self).wf(),
            prefix <= 128,
        ensures
            final(self).wf(),
            final(self).prefixes() == old(self).prefixes().push(
                u128_prefix(addr, prefix as int)),
    {
        let bits = u128_bits(addr, prefix as usize);
        self.add_with(&bits);
    }
}

} // verus!
