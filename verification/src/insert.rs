//! Insertion with bottom-up rebalancing. After the recursive descent returns,
//! each level compares the heights of its two children and, when they differ
//! by more than one, restores the balance invariant with the rotation selected
//! by the pair of the two most recent descent directions.

use vstd::prelude::*;

use crate::rotate::{
    lemma_above_get_none, lemma_below_get_none, node_parts, rot_l_on_parts, rot_l_rel,
    rot_r_on_parts, rot_r_rel,
};
use crate::tree::{Inserted, Node, Tree};

verus! {

impl<V> Tree<V> {
    /// Insert `key` mapped to `value`. A key already present is left with its
    /// first value and the tree is not changed at all. The returned pair is
    /// the direction taken at this node and the direction the child reported,
    /// the same pair this node used for its own rotation decision.
    ///
    /// The tree stays a binary search tree, stays balanced, and afterwards a
    /// lookup of `key` finds the inserted value while every other lookup is
    /// unchanged; the height grows by at most one.
    pub fn add(&mut self, key: i64, value: V) -> (r: (Inserted, Inserted))
        requires
            old(self).is_bst(),
            old(self).balanced(),
            old(self).height() < isize::MAX,
        ensures
            final(self).is_bst(),
            final(self).balanced(),
            forall|c: int|
                old(self).all_below(c) && (key as int) < c
                    ==> #[trigger] final(self).all_below(c),
            forall|c: int|
                old(self).all_above(c) && (key as int) > c
                    ==> #[trigger] final(self).all_above(c),
            old(self).contains_key(key as int) ==> *final(self) == *old(self),
            !old(self).contains_key(key as int) ==> final(self).spec_get(key as int)
                == Option::Some(value),
            forall|j: int|
                j != key as int ==> #[trigger] final(self).spec_get(j) == old(self).spec_get(j),
            old(self).height() <= final(self).height() <= old(self).height() + 1,
            final(self).height() == old(self).height() + 1 ==> final(self).grew_toward(r.0),
            (match *old(self) {
                Tree::Empty => r == (Inserted::Leaf, Inserted::Nothing),
                Tree::With(n) => {
                    &&& key < n.key ==> r.0 == Inserted::Left
                    &&& key > n.key ==> r.0 == Inserted::Right
                    &&& key == n.key ==> r == (Inserted::Nothing, Inserted::Nothing)
                },
            }),
        decreases old(self).height(),
    {
        let mut cur = Tree::Empty;
        core::mem::swap(self, &mut cur);
        match cur {
            Tree::Empty => {
                *self = Tree::With(
                    Box::new(Node { key, value, ltree: Tree::Empty, rtree: Tree::Empty }),
                );
                (Inserted::Leaf, Inserted::Nothing)
            },
            Tree::With(mut node) => {
                let ghost t0 = *old(self);
                let ghost k0 = node.key;
                let ghost v0 = node.value;
                let ghost l0 = node.ltree;
                let ghost r0 = node.rtree;
                let ghost h0 = t0.height();
                proof {
                    assert(t0 == Tree::With(node));
                    assert(l0.height() < h0 && r0.height() < h0);
                }
                let inserted: (Inserted, Inserted);
                if key < node.key {
                    let sub = Tree::add(&mut node.ltree, key, value);
                    inserted = (Inserted::Left, sub.0);
                } else if key > node.key {
                    let sub = Tree::add(&mut node.rtree, key, value);
                    inserted = (Inserted::Right, sub.0);
                } else {
                    inserted = (Inserted::Nothing, Inserted::Nothing);
                }
                let ghost l1 = node.ltree;
                let ghost r1 = node.rtree;
                let lh = node.ltree.level_max();
                let rh = node.rtree.level_max();
                *self = Tree::With(node);
                let ghost t1 = *self;
                proof {
                    assert(lh as int == l1.height() && rh as int == r1.height());
                    if (key as int) < k0 as int {
                        assert(r1 == r0);
                        assert(l1.all_below(k0 as int));
                        assert(t1.is_bst());
                        assert(t0.contains_key(key as int) == l0.contains_key(key as int)) by {
                            lemma_above_get_none(r0, k0 as int, key as int);
                        }
                        if t0.contains_key(key as int) {
                            assert(l1 == l0);
                            assert(t1 == t0);
                        } else {
                            assert(t1.spec_get(key as int) == Option::Some(value));
                        }
                        assert forall|c: int|
                            t0.all_below(c) && (key as int) < c implies t1.all_below(c) by {
                            assert(l0.all_below(c));
                            assert(l1.all_below(c));
                        }
                        assert forall|c: int|
                            t0.all_above(c) && (key as int) > c implies t1.all_above(c) by {
                            assert(l0.all_above(c));
                            assert(l1.all_above(c));
                        }
                        assert forall|j: int|
                            j != key as int implies t1.spec_get(j) == t0.spec_get(j) by {
                            if j < k0 {
                                assert(l1.spec_get(j) == l0.spec_get(j));
                            }
                        }
                    } else if (key as int) > k0 as int {
                        assert(l1 == l0);
                        assert(r1.all_above(k0 as int));
                        assert(t1.is_bst());
                        assert(t0.contains_key(key as int) == r0.contains_key(key as int)) by {
                            lemma_below_get_none(l0, k0 as int, key as int);
                        }
                        if t0.contains_key(key as int) {
                            assert(r1 == r0);
                            assert(t1 == t0);
                        } else {
                            assert(t1.spec_get(key as int) == Option::Some(value));
                        }
                        assert forall|c: int|
                            t0.all_below(c) && (key as int) < c implies t1.all_below(c) by {
                            assert(r0.all_below(c));
                            assert(r1.all_below(c));
                        }
                        assert forall|c: int|
                            t0.all_above(c) && (key as int) > c implies t1.all_above(c) by {
                            assert(r0.all_above(c));
                            assert(r1.all_above(c));
                        }
                        assert forall|j: int|
                            j != key as int implies t1.spec_get(j) == t0.spec_get(j) by {
                            if j > k0 {
                                assert(r1.spec_get(j) == r0.spec_get(j));
                            }
                        }
                    } else {
                        assert(t1 == t0);
                    }
                }
                let diff: isize = lh - rh;
                let ad: isize = if diff < 0 {
                    -diff
                } else {
                    diff
                };
                if ad > 1 {
                    match inserted {
                        (Inserted::Left, Inserted::Left) => {
                            proof {
                                assert(l1.height() == r0.height() + 2 && l1.height() == l0.height()
                                    + 1);
                                assert(l1.grew_toward(Inserted::Left));
                                assert(!t0.contains_key(key as int));
                            }
                            self.rot_rsingle();
                            proof {
                                let hr = r0.height() as int;
                                let ln = l1->With_0;
                                assert(ln.ltree.height() == hr + 1 && ln.rtree.height() == hr);
                                assert(rot_r_on_parts(k0, v0, l1, r0, *self));
                                let b2 = (*self)->With_0;
                                assert(b2.ltree == ln.ltree && node_parts(
                                    b2.rtree,
                                    k0,
                                    v0,
                                    ln.rtree,
                                    r0,
                                ));
                                assert(b2.rtree.height() == hr + 1 && b2.rtree.balanced());
                                assert((*self).height() == hr + 2 && h0 == hr + 2);
                                assert((*self).balanced());
                                lemma_chain_after_rotation(t0, t1, *self, key as int, value);
                            }
                        },
                        (Inserted::Left, Inserted::Right) => {
                            proof {
                                assert(l1.height() == r0.height() + 2 && l1.height() == l0.height()
                                    + 1);
                                assert(l1.grew_toward(Inserted::Right));
                                assert(!t0.contains_key(key as int));
                            }
                            self.rot_rdouble();
                            proof {
                                let hr = r0.height() as int;
                                let ln = l1->With_0;
                                assert(ln.rtree.height() == hr + 1 && ln.ltree.height() == hr);
                                assert(ln.rtree is With);
                                let mn = ln.rtree->With_0;
                                let mp = mn.ltree.height() as int;
                                let mq = mn.rtree.height() as int;
                                assert(ln.rtree.height() == 1 + (if mp >= mq {
                                    mp
                                } else {
                                    mq
                                }));
                                assert(ln.ltree.balanced() && ln.rtree.balanced());
                                assert(mn.ltree.balanced() && mn.rtree.balanced());
                                assert(mp + 1 >= mq && mq + 1 >= mp);
                                assert(mp <= hr && mq <= hr && mp >= hr - 1 && mq >= hr - 1);
                                let mid = choose|mid: Tree<V>|
                                    #[trigger] rot_l_rel(l1, mid) && rot_r_on_parts(
                                        k0,
                                        v0,
                                        mid,
                                        r0,
                                        *self,
                                    );
                                let m2 = mid->With_0;
                                assert(m2.key == mn.key && m2.rtree == mn.rtree && node_parts(
                                    m2.ltree,
                                    ln.key,
                                    ln.value,
                                    ln.ltree,
                                    mn.ltree,
                                ));
                                assert(m2.ltree.height() == hr + 1 && m2.ltree.balanced());
                                let c2 = (*self)->With_0;
                                assert(c2.ltree == m2.ltree && node_parts(
                                    c2.rtree,
                                    k0,
                                    v0,
                                    m2.rtree,
                                    r0,
                                ));
                                assert(c2.rtree.height() == hr + 1 && c2.rtree.balanced());
                                assert((*self).height() == hr + 2 && h0 == hr + 2);
                                assert((*self).balanced());
                                lemma_chain_after_rotation(t0, t1, *self, key as int, value);
                            }
                        },
                        (Inserted::Right, Inserted::Right) => {
                            proof {
                                assert(r1.height() == l0.height() + 2 && r1.height() == r0.height()
                                    + 1);
                                assert(r1.grew_toward(Inserted::Right));
                                assert(!t0.contains_key(key as int));
                            }
                            self.rot_lsingle();
                            proof {
                                let hl = l0.height() as int;
                                let rn = r1->With_0;
                                assert(rn.rtree.height() == hl + 1 && rn.ltree.height() == hl);
                                assert(rot_l_on_parts(k0, v0, l0, r1, *self));
                                let b2 = (*self)->With_0;
                                assert(b2.rtree == rn.rtree && node_parts(
                                    b2.ltree,
                                    k0,
                                    v0,
                                    l0,
                                    rn.ltree,
                                ));
                                assert(b2.ltree.height() == hl + 1 && b2.ltree.balanced());
                                assert((*self).height() == hl + 2 && h0 == hl + 2);
                                assert((*self).balanced());
                                lemma_chain_after_rotation(t0, t1, *self, key as int, value);
                            }
                        },
                        (Inserted::Right, Inserted::Left) => {
                            proof {
                                assert(r1.height() == l0.height() + 2 && r1.height() == r0.height()
                                    + 1);
                                assert(r1.grew_toward(Inserted::Left));
                                assert(!t0.contains_key(key as int));
                            }
                            self.rot_ldouble();
                            proof {
                                let hl = l0.height() as int;
                                let rn = r1->With_0;
                                assert(rn.ltree.height() == hl + 1 && rn.rtree.height() == hl);
                                assert(rn.ltree is With);
                                let mn = rn.ltree->With_0;
                                let mp = mn.ltree.height() as int;
                                let mq = mn.rtree.height() as int;
                                assert(rn.ltree.height() == 1 + (if mp >= mq {
                                    mp
                                } else {
                                    mq
                                }));
                                assert(rn.ltree.balanced() && rn.rtree.balanced());
                                assert(mn.ltree.balanced() && mn.rtree.balanced());
                                assert(mp + 1 >= mq && mq + 1 >= mp);
                                assert(mp <= hl && mq <= hl && mp >= hl - 1 && mq >= hl - 1);
                                let mid = choose|mid: Tree<V>|
                                    #[trigger] rot_r_rel(r1, mid) && rot_l_on_parts(
                                        k0,
                                        v0,
                                        l0,
                                        mid,
                                        *self,
                                    );
                                let m2 = mid->With_0;
                                assert(m2.key == mn.key && m2.ltree == mn.ltree && node_parts(
                                    m2.rtree,
                                    rn.key,
                                    rn.value,
                                    mn.rtree,
                                    rn.rtree,
                                ));
                                assert(m2.rtree.height() == hl + 1 && m2.rtree.balanced());
                                let c2 = (*self)->With_0;
                                assert(c2.rtree == m2.rtree && node_parts(
                                    c2.ltree,
                                    k0,
                                    v0,
                                    l0,
                                    m2.ltree,
                                ));
                                assert(c2.ltree.height() == hl + 1 && c2.ltree.balanced());
                                assert((*self).height() == hl + 2 && h0 == hl + 2);
                                assert((*self).balanced());
                                lemma_chain_after_rotation(t0, t1, *self, key as int, value);
                            }
                        },
                        _ => {
                            // An imbalance can only follow a height growth of the
                            // entered child, and a grown subtree always reports a
                            // direction; no other pairing coexists with `ad > 1`.
                            proof {
                                assert(false);
                            }
                        },
                    }
                } else {
                    proof {
                        assert((*self).balanced());
                        if (*self).height() == h0 + 1 {
                            if (key as int) < k0 as int {
                                assert(l1.height() == r1.height() + 1);
                            } else if (key as int) > k0 as int {
                                assert(r1.height() == l1.height() + 1);
                            }
                        }
                    }
                }
                inserted
            },
        }
    }
}

/// Carries the facts that the insertion step established about the overgrown
/// tree through the rotation that repaired it: the rotation's own contract
/// preserves the order invariant, both key bounds and every lookup, so the
/// insertion's lookup- and bound-effects hold of the repaired tree as well.
proof fn lemma_chain_after_rotation<V>(t0: Tree<V>, t1: Tree<V>, t2: Tree<V>, key: int, value: V)
    requires
        t1.is_bst(),
        !t0.contains_key(key),
        t1.spec_get(key) == Option::Some(value),
        forall|c: int| t0.all_below(c) && key < c ==> #[trigger] t1.all_below(c),
        forall|c: int| t0.all_above(c) && key > c ==> #[trigger] t1.all_above(c),
        forall|j: int| j != key ==> #[trigger] t1.spec_get(j) == t0.spec_get(j),
        forall|c: int| t1.all_below(c) ==> #[trigger] t2.all_below(c),
        forall|c: int| t1.all_above(c) ==> #[trigger] t2.all_above(c),
        t2.is_bst(),
        forall|j: int| #[trigger] t2.spec_get(j) == t1.spec_get(j),
    ensures
        t2.spec_get(key) == Option::Some(value),
        forall|c: int| t0.all_below(c) && key < c ==> #[trigger] t2.all_below(c),
        forall|c: int| t0.all_above(c) && key > c ==> #[trigger] t2.all_above(c),
        forall|j: int| j != key ==> #[trigger] t2.spec_get(j) == t0.spec_get(j),
{
    assert forall|c: int| t0.all_below(c) && key < c implies #[trigger] t2.all_below(c) by {
        assert(t1.all_below(c));
    }
    assert forall|c: int| t0.all_above(c) && key > c implies #[trigger] t2.all_above(c) by {
        assert(t1.all_above(c));
    }
    assert forall|j: int| j != key implies #[trigger] t2.spec_get(j) == t0.spec_get(j) by {
        assert(t1.spec_get(j) == t0.spec_get(j));
    }
}

} // verus!
