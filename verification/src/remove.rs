//! Deletion. A matched key has its whole subtree — the node together with
//! both children — detached and handed back to the caller; the parent slot
//! becomes empty, nothing is spliced or re-attached. A missing key leaves the
//! tree untouched and yields an empty detached tree.

use vstd::prelude::*;

use crate::rotate::{lemma_above_get_none, lemma_below_get_none};
use crate::tree::Tree;

verus! {

/// After deleting `k` from `pre`: `post` is `pre` with the subtree whose root
/// carries `k` replaced by an empty slot, and `det` is that detached subtree
/// whole; when `k` is absent, `post` is `pre` itself and `det` is empty.
pub open spec fn del_rel<V>(pre: Tree<V>, k: int, post: Tree<V>, det: Tree<V>) -> bool
    decreases pre,
{
    match pre {
        Tree::Empty => post == pre && det == Tree::<V>::Empty,
        Tree::With(n) => {
            if k == n.key {
                post == Tree::<V>::Empty && det == pre
            } else if k < n.key {
                match post {
                    Tree::Empty => false,
                    Tree::With(m) => m.key == n.key && m.value == n.value && m.rtree == n.rtree
                        && del_rel(n.ltree, k, m.ltree, det),
                }
            } else {
                match post {
                    Tree::Empty => false,
                    Tree::With(m) => m.key == n.key && m.value == n.value && m.ltree == n.ltree
                        && del_rel(n.rtree, k, m.rtree, det),
                }
            }
        },
    }
}

impl<V> Tree<V> {
    /// Delete `key`: detach and return the entire subtree rooted at the node
    /// carrying `key`, leaving an empty slot in its place. When `key` is not
    /// present the tree is unchanged and the result is an empty tree.
    pub fn del(&mut self, key: i64) -> (r: Tree<V>)
        ensures
            del_rel(*old(self), key as int, *final(self), r),
            forall|c: int| old(self).all_below(c) ==> #[trigger] final(self).all_below(c),
            forall|c: int| old(self).all_above(c) ==> #[trigger] final(self).all_above(c),
            forall|c: int| old(self).all_below(c) ==> #[trigger] r.all_below(c),
            forall|c: int| old(self).all_above(c) ==> #[trigger] r.all_above(c),
            old(self).is_bst() ==> final(self).is_bst() && r.is_bst(),
            old(self).balanced() ==> r.balanced(),
            final(self).height() <= old(self).height(),
            r.height() <= old(self).height(),
            old(self).is_bst() ==> !final(self).contains_key(key as int),
            old(self).is_bst() && old(self).contains_key(key as int) ==> r.spec_get(key as int)
                == old(self).spec_get(key as int),
            old(self).is_bst() && !old(self).contains_key(key as int) ==> *final(self) == *old(
                self,
            ) && r == Tree::<V>::Empty,
            old(self).is_bst() ==> forall|j: int|
                !r.contains_key(j) ==> #[trigger] final(self).spec_get(j) == old(self).spec_get(j),
            old(self).is_bst() ==> forall|j: int|
                #[trigger] r.contains_key(j) ==> r.spec_get(j) == old(self).spec_get(j),
        decreases old(self).height(),
    {
        let mut cur = Tree::Empty;
        core::mem::swap(self, &mut cur);
        match cur {
            Tree::Empty => {
                proof {
                    assert forall|c: int|
                        #[trigger] old(self).all_below(c) implies (*self).all_below(c) by {}
                    assert forall|c: int|
                        #[trigger] old(self).all_above(c) implies (*self).all_above(c) by {}
                }
                Tree::Empty
            },
            Tree::With(mut node) => {
                let ghost t0 = *old(self);
                let ghost k0 = node.key;
                let ghost l0 = node.ltree;
                let ghost r0 = node.rtree;
                proof {
                    assert(t0 == Tree::With(node));
                    assert(l0.height() < t0.height() && r0.height() < t0.height());
                }
                if key == node.key {
                    proof {
                        assert forall|c: int|
                            #[trigger] old(self).all_below(c) implies (*self).all_below(c) by {}
                        assert forall|c: int|
                            #[trigger] old(self).all_above(c) implies (*self).all_above(c) by {}
                    }
                    Tree::With(node)
                } else if key < node.key {
                    let d = Tree::del(&mut node.ltree, key);
                    let ghost l1 = node.ltree;
                    *self = Tree::With(node);
                    proof {
                        assert forall|c: int|
                            #[trigger] t0.all_below(c) implies (*self).all_below(c)
                                && d.all_below(c) by {
                            assert(l0.all_below(c));
                            assert(l1.all_below(c) && d.all_below(c));
                        }
                        assert forall|c: int|
                            #[trigger] t0.all_above(c) implies (*self).all_above(c)
                                && d.all_above(c) by {
                            assert(l0.all_above(c));
                            assert(l1.all_above(c) && d.all_above(c));
                        }
                        if t0.is_bst() {
                            assert(l1.all_below(k0 as int));
                            assert((*self).is_bst());
                            assert(del_rel(t0, key as int, *self, d));
                            crate::laws::lemma_del_partitions(t0, key as int, *self, d);
                            lemma_above_get_none(r0, k0 as int, key as int);
                        }
                    }
                    d
                } else {
                    let d = Tree::del(&mut node.rtree, key);
                    let ghost r1 = node.rtree;
                    *self = Tree::With(node);
                    proof {
                        assert forall|c: int|
                            #[trigger] t0.all_below(c) implies (*self).all_below(c)
                                && d.all_below(c) by {
                            assert(r0.all_below(c));
                            assert(r1.all_below(c) && d.all_below(c));
                        }
                        assert forall|c: int|
                            #[trigger] t0.all_above(c) implies (*self).all_above(c)
                                && d.all_above(c) by {
                            assert(r0.all_above(c));
                            assert(r1.all_above(c) && d.all_above(c));
                        }
                        if t0.is_bst() {
                            assert(r1.all_above(k0 as int));
                            assert((*self).is_bst());
                            assert(del_rel(t0, key as int, *self, d));
                            crate::laws::lemma_del_partitions(t0, key as int, *self, d);
                            lemma_below_get_none(l0, k0 as int, key as int);
                        }
                    }
                    d
                }
            },
        }
    }
}

} // verus!
