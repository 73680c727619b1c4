//! The four rotation operators: structural rewirings that restore the balance
//! invariant while leaving the in-order key sequence, the order invariant and
//! every lookup result unchanged. Each exec rotation is specified by an exact
//! structural relation between the tree before and after the call.

use vstd::prelude::*;
use crate::tree::Tree;

verus! {

/// `t` is a node with exactly the given key, value and children.
pub open spec fn node_parts<V>(t: Tree<V>, k: i64, v: V, l: Tree<V>, r: Tree<V>) -> bool {
    match t {
        Tree::Empty => false,
        Tree::With(n) => n.key == k && n.value == v && n.ltree == l && n.rtree == r,
    }
}

/// What a single left rotation makes of a node with parts `(k, v, l, r)`:
/// if `r` is a node `B`, then `B` becomes the root, and the old root becomes
/// `B`'s left child, adopting `B`'s old left child as its right subtree;
/// if `r` is empty the node is left unchanged.
pub open spec fn rot_l_on_parts<V>(k: i64, v: V, l: Tree<V>, r: Tree<V>, post: Tree<V>) -> bool {
    match r {
        Tree::Empty => node_parts(post, k, v, l, r),
        Tree::With(b) => match post {
            Tree::Empty => false,
            Tree::With(b2) => b2.key == b.key && b2.value == b.value && b2.rtree == b.rtree
                && node_parts(b2.ltree, k, v, l, b.ltree),
        },
    }
}

/// What a single right rotation makes of a node with parts `(k, v, l, r)`:
/// the mirror image of `rot_l_on_parts`, pivoting on the left child.
pub open spec fn rot_r_on_parts<V>(k: i64, v: V, l: Tree<V>, r: Tree<V>, post: Tree<V>) -> bool {
    match l {
        Tree::Empty => node_parts(post, k, v, l, r),
        Tree::With(b) => match post {
            Tree::Empty => false,
            Tree::With(b2) => b2.key == b.key && b2.value == b.value && b2.ltree == b.ltree
                && node_parts(b2.rtree, k, v, b.rtree, r),
        },
    }
}

/// The tree after a single left rotation of `pre` is exactly `post`.
pub open spec fn rot_l_rel<V>(pre: Tree<V>, post: Tree<V>) -> bool {
    match pre {
        Tree::Empty => post == pre,
        Tree::With(a) => rot_l_on_parts(a.key, a.value, a.ltree, a.rtree, post),
    }
}

/// The tree after a single right rotation of `pre` is exactly `post`.
pub open spec fn rot_r_rel<V>(pre: Tree<V>, post: Tree<V>) -> bool {
    match pre {
        Tree::Empty => post == pre,
        Tree::With(a) => rot_r_on_parts(a.key, a.value, a.ltree, a.rtree, post),
    }
}

/// The tree after a double left rotation of `pre` is exactly `post`: the
/// right child is first rotated right, then the root is rotated left.
pub open spec fn rot_ld_rel<V>(pre: Tree<V>, post: Tree<V>) -> bool {
    match pre {
        Tree::Empty => post == pre,
        Tree::With(a) => exists|mid: Tree<V>|
            #[trigger] rot_r_rel(a.rtree, mid) && rot_l_on_parts(a.key, a.value, a.ltree, mid, post),
    }
}

/// The tree after a double right rotation of `pre` is exactly `post`: the
/// left child is first rotated left, then the root is rotated right.
pub open spec fn rot_rd_rel<V>(pre: Tree<V>, post: Tree<V>) -> bool {
    match pre {
        Tree::Empty => post == pre,
        Tree::With(a) => exists|mid: Tree<V>|
            #[trigger] rot_l_rel(a.ltree, mid) && rot_r_on_parts(a.key, a.value, mid, a.rtree, post),
    }
}

/// A tree whose keys all lie below a bound also lies below any larger bound.
proof fn lemma_all_below_weaken<V>(t: Tree<V>, x: int, y: int)
    requires
        t.all_below(x),
        x <= y,
    ensures
        t.all_below(y),
    decreases t,
{
    match t {
        Tree::Empty => {},
        Tree::With(n) => {
            lemma_all_below_weaken(n.ltree, x, y);
            lemma_all_below_weaken(n.rtree, x, y);
        },
    }
}

/// A tree whose keys all lie above a bound also lies above any smaller bound.
proof fn lemma_all_above_weaken<V>(t: Tree<V>, x: int, y: int)
    requires
        t.all_above(x),
        x >= y,
    ensures
        t.all_above(y),
    decreases t,
{
    match t {
        Tree::Empty => {},
        Tree::With(n) => {
            lemma_all_above_weaken(n.ltree, x, y);
            lemma_all_above_weaken(n.rtree, x, y);
        },
    }
}

/// A descent for a key at or above a strict upper bound of a tree finds nothing.
pub proof fn lemma_below_get_none<V>(t: Tree<V>, c: int, j: int)
    requires
        t.all_below(c),
        j >= c,
    ensures
        t.spec_get(j) is None,
    decreases t,
{
    match t {
        Tree::Empty => {},
        Tree::With(n) => {
            lemma_below_get_none(n.ltree, c, j);
            lemma_below_get_none(n.rtree, c, j);
        },
    }
}

/// A descent for a key at or below a strict lower bound of a tree finds nothing.
pub proof fn lemma_above_get_none<V>(t: Tree<V>, c: int, j: int)
    requires
        t.all_above(c),
        j <= c,
    ensures
        t.spec_get(j) is None,
    decreases t,
{
    match t {
        Tree::Empty => {},
        Tree::With(n) => {
            lemma_above_get_none(n.ltree, c, j);
            lemma_above_get_none(n.rtree, c, j);
        },
    }
}

/// Everything a single left rotation of a node with parts `(k, v, l, r)`
/// preserves: the in-order key sequence, both key bounds, the order
/// invariant, and every lookup result.
proof fn lemma_rot_l_parts_props<V>(k: i64, v: V, l: Tree<V>, r: Tree<V>, post: Tree<V>)
    requires
        rot_l_on_parts(k, v, l, r, post),
    ensures
        post.key_seq() == l.key_seq() + seq![k] + r.key_seq(),
        forall|c: int| l.all_below(c) && k < c && r.all_below(c) ==> #[trigger] post.all_below(c),
        forall|c: int| l.all_above(c) && k > c && r.all_above(c) ==> #[trigger] post.all_above(c),
        l.all_below(k as int) && r.all_above(k as int) && l.is_bst() && r.is_bst()
            ==> post.is_bst(),
        l.all_below(k as int) && r.all_above(k as int) && l.is_bst() && r.is_bst()
            ==> forall|j: int|
            #[trigger] post.spec_get(j) == (if j == k {
                Option::Some(v)
            } else if j < k {
                l.spec_get(j)
            } else {
                r.spec_get(j)
            }),
{
    match r {
        Tree::Empty => {
            assert(post.key_seq() =~= l.key_seq() + seq![k] + r.key_seq());
        },
        Tree::With(b) => {
            let b2 = post->With_0;
            let inner = b2.ltree;
            assert(node_parts(inner, k, v, l, b.ltree));
            assert(inner.key_seq() =~= l.key_seq() + seq![k] + b.ltree.key_seq());
            assert(r.key_seq() == b.ltree.key_seq() + seq![b.key] + b.rtree.key_seq());
            assert(post.key_seq() == inner.key_seq() + seq![b2.key] + b2.rtree.key_seq());
            assert(post.key_seq() =~= l.key_seq() + seq![k] + r.key_seq());
            assert forall|c: int|
                l.all_below(c) && k < c && r.all_below(c) implies #[trigger] post.all_below(
                c,
            ) by {
                assert(inner.all_below(c));
            }
            assert forall|c: int|
                l.all_above(c) && k > c && r.all_above(c) implies #[trigger] post.all_above(
                c,
            ) by {
                assert(inner.all_above(c));
            }
            if l.all_below(k as int) && r.all_above(k as int) && l.is_bst() && r.is_bst() {
                assert(b.key > k);
                assert(b.ltree.all_above(k as int));
                lemma_all_below_weaken(l, k as int, b.key as int);
                assert(inner.is_bst());
                assert(inner.all_below(b.key as int));
                assert(post.is_bst());
                assert forall|j: int|
                    #[trigger] post.spec_get(j) == (if j == k {
                        Option::Some(v)
                    } else if j < k {
                        l.spec_get(j)
                    } else {
                        r.spec_get(j)
                    }) by {
                    if j < b.key {
                        assert(post.spec_get(j) == inner.spec_get(j));
                        assert(r.spec_get(j) == (if j == b.key as int {
                            Option::Some(b.value)
                        } else {
                            b.ltree.spec_get(j)
                        }));
                    }
                }
            }
        },
    }
}

/// The mirror of `lemma_rot_l_parts_props`, for a single right rotation.
proof fn lemma_rot_r_parts_props<V>(k: i64, v: V, l: Tree<V>, r: Tree<V>, post: Tree<V>)
    requires
        rot_r_on_parts(k, v, l, r, post),
    ensures
        post.key_seq() == l.key_seq() + seq![k] + r.key_seq(),
        forall|c: int| l.all_below(c) && k < c && r.all_below(c) ==> #[trigger] post.all_below(c),
        forall|c: int| l.all_above(c) && k > c && r.all_above(c) ==> #[trigger] post.all_above(c),
        l.all_below(k as int) && r.all_above(k as int) && l.is_bst() && r.is_bst()
            ==> post.is_bst(),
        l.all_below(k as int) && r.all_above(k as int) && l.is_bst() && r.is_bst()
            ==> forall|j: int|
            #[trigger] post.spec_get(j) == (if j == k {
                Option::Some(v)
            } else if j < k {
                l.spec_get(j)
            } else {
                r.spec_get(j)
            }),
{
    match l {
        Tree::Empty => {
            assert(post.key_seq() =~= l.key_seq() + seq![k] + r.key_seq());
        },
        Tree::With(b) => {
            let b2 = post->With_0;
            let inner = b2.rtree;
            assert(node_parts(inner, k, v, b.rtree, r));
            assert(inner.key_seq() =~= b.rtree.key_seq() + seq![k] + r.key_seq());
            assert(l.key_seq() == b.ltree.key_seq() + seq![b.key] + b.rtree.key_seq());
            assert(post.key_seq() == b2.ltree.key_seq() + seq![b2.key] + inner.key_seq());
            assert(post.key_seq() =~= l.key_seq() + seq![k] + r.key_seq());
            assert forall|c: int|
                l.all_below(c) && k < c && r.all_below(c) implies #[trigger] post.all_below(
                c,
            ) by {
                assert(inner.all_below(c));
            }
            assert forall|c: int|
                l.all_above(c) && k > c && r.all_above(c) implies #[trigger] post.all_above(
                c,
            ) by {
                assert(inner.all_above(c));
            }
            if l.all_below(k as int) && r.all_above(k as int) && l.is_bst() && r.is_bst() {
                assert(b.key < k);
                assert(b.rtree.all_below(k as int));
                lemma_all_above_weaken(r, k as int, b.key as int);
                assert(inner.is_bst());
                assert(inner.all_above(b.key as int));
                assert(post.is_bst());
                assert forall|j: int|
                    #[trigger] post.spec_get(j) == (if j == k {
                        Option::Some(v)
                    } else if j < k {
                        l.spec_get(j)
                    } else {
                        r.spec_get(j)
                    }) by {
                    if j > b.key {
                        assert(post.spec_get(j) == inner.spec_get(j));
                        assert(l.spec_get(j) == (if j == b.key as int {
                            Option::Some(b.value)
                        } else {
                            b.rtree.spec_get(j)
                        }));
                    }
                }
            }
        },
    }
}

impl<V> Tree<V> {
    /// Single left rotation: the right child, if any, becomes the root of
    /// this position; a missing right child leaves the tree unchanged.
    pub fn rot_lsingle(&mut self)
        ensures
            rot_l_rel(*old(self), *final(self)),
            final(self).key_seq() == old(self).key_seq(),
            forall|c: int| old(self).all_below(c) ==> #[trigger] final(self).all_below(c),
            forall|c: int| old(self).all_above(c) ==> #[trigger] final(self).all_above(c),
            old(self).is_bst() ==> final(self).is_bst(),
            old(self).is_bst() ==> forall|j: int|
                #[trigger] final(self).spec_get(j) == old(self).spec_get(j),
    {
        let mut a = Tree::Empty;
        core::mem::swap(&mut a, self);
        match a {
            Tree::Empty => {
                proof {
                    lemma_rot_rel_props(*old(self), *self, false);
                }
            },
            Tree::With(mut anode) => {
                let mut b = Tree::Empty;
                core::mem::swap(&mut b, &mut anode.rtree);
                match b {
                    Tree::Empty => {
                        anode.rtree = Tree::Empty;
                        *self = Tree::With(anode);
                        proof {
                            lemma_rot_rel_props(*old(self), *self, false);
                        }
                    },
                    Tree::With(mut bnode) => {
                        let mut c = Tree::Empty;
                        core::mem::swap(&mut c, &mut bnode.ltree);
                        anode.rtree = c;
                        bnode.ltree = Tree::With(anode);
                        *self = Tree::With(bnode);
                        proof {
                            lemma_rot_rel_props(*old(self), *self, false);
                        }
                    },
                }
            },
        }
    }

    /// Single right rotation: the left child, if any, becomes the root of
    /// this position; a missing left child leaves the tree unchanged.
    pub fn rot_rsingle(&mut self)
        ensures
            rot_r_rel(*old(self), *final(self)),
            final(self).key_seq() == old(self).key_seq(),
            forall|c: int| old(self).all_below(c) ==> #[trigger] final(self).all_below(c),
            forall|c: int| old(self).all_above(c) ==> #[trigger] final(self).all_above(c),
            old(self).is_bst() ==> final(self).is_bst(),
            old(self).is_bst() ==> forall|j: int|
                #[trigger] final(self).spec_get(j) == old(self).spec_get(j),
    {
        let mut a = Tree::Empty;
        core::mem::swap(&mut a, self);
        match a {
            Tree::Empty => {
                proof {
                    lemma_rot_rel_props(*old(self), *self, true);
                }
            },
            Tree::With(mut anode) => {
                let mut b = Tree::Empty;
                core::mem::swap(&mut b, &mut anode.ltree);
                match b {
                    Tree::Empty => {
                        anode.ltree = Tree::Empty;
                        *self = Tree::With(anode);
                        proof {
                            lemma_rot_rel_props(*old(self), *self, true);
                        }
                    },
                    Tree::With(mut bnode) => {
                        let mut c = Tree::Empty;
                        core::mem::swap(&mut c, &mut bnode.rtree);
                        anode.ltree = c;
                        bnode.rtree = Tree::With(anode);
                        *self = Tree::With(bnode);
                        proof {
                            lemma_rot_rel_props(*old(self), *self, true);
                        }
                    },
                }
            },
        }
    }
}

impl<V> Tree<V> {
    /// Double left rotation: the right child is first rotated right, then
    /// the root is rotated left; an empty tree is left unchanged.
    pub fn rot_ldouble(&mut self)
        ensures
            rot_ld_rel(*old(self), *final(self)),
            final(self).key_seq() == old(self).key_seq(),
            forall|c: int| old(self).all_below(c) ==> #[trigger] final(self).all_below(c),
            forall|c: int| old(self).all_above(c) ==> #[trigger] final(self).all_above(c),
            old(self).is_bst() ==> final(self).is_bst(),
            old(self).is_bst() ==> forall|j: int|
                #[trigger] final(self).spec_get(j) == old(self).spec_get(j),
    {
        let mut cur = Tree::Empty;
        core::mem::swap(&mut cur, self);
        match cur {
            Tree::Empty => {
                proof {
                    lemma_rot_d_rel_props(*old(self), *self, false);
                }
            },
            Tree::With(mut node) => {
                let ghost k0 = node.key;
                let ghost v0 = node.value;
                let ghost l0 = node.ltree;
                let ghost r0 = node.rtree;
                (&mut node.rtree).rot_rsingle();
                let ghost mid = node.rtree;
                *self = Tree::With(node);
                let ghost pre2 = *self;
                self.rot_lsingle();
                proof {
                    assert(rot_r_rel(r0, mid));
                    assert(node_parts(pre2, k0, v0, l0, mid));
                    assert(rot_l_on_parts(k0, v0, l0, mid, *self));
                    assert(rot_ld_rel(*old(self), *self));
                    lemma_rot_d_rel_props(*old(self), *self, false);
                }
            },
        }
    }

    /// Double right rotation: the left child is first rotated left, then
    /// the root is rotated right; an empty tree is left unchanged.
    pub fn rot_rdouble(&mut self)
        ensures
            rot_rd_rel(*old(self), *final(self)),
            final(self).key_seq() == old(self).key_seq(),
            forall|c: int| old(self).all_below(c) ==> #[trigger] final(self).all_below(c),
            forall|c: int| old(self).all_above(c) ==> #[trigger] final(self).all_above(c),
            old(self).is_bst() ==> final(self).is_bst(),
            old(self).is_bst() ==> forall|j: int|
                #[trigger] final(self).spec_get(j) == old(self).spec_get(j),
    {
        let mut cur = Tree::Empty;
        core::mem::swap(&mut cur, self);
        match cur {
            Tree::Empty => {
                proof {
                    lemma_rot_d_rel_props(*old(self), *self, true);
                }
            },
            Tree::With(mut node) => {
                let ghost k0 = node.key;
                let ghost v0 = node.value;
                let ghost l0 = node.ltree;
                let ghost r0 = node.rtree;
                (&mut node.ltree).rot_lsingle();
                let ghost mid = node.ltree;
                *self = Tree::With(node);
                let ghost pre2 = *self;
                self.rot_rsingle();
                proof {
                    assert(rot_l_rel(l0, mid));
                    assert(node_parts(pre2, k0, v0, mid, r0));
                    assert(rot_r_on_parts(k0, v0, mid, r0, *self));
                    assert(rot_rd_rel(*old(self), *self));
                    lemma_rot_d_rel_props(*old(self), *self, true);
                }
            },
        }
    }
}

/// Bundles the preservation facts of a finished double rotation: what holds
/// of a tree relates unchanged to the result, through the intermediate tree.
/// `to_right` selects between the right-double and left-double relation.
proof fn lemma_rot_d_rel_props<V>(pre: Tree<V>, post: Tree<V>, to_right: bool)
    requires
        to_right ==> rot_rd_rel(pre, post),
        !to_right ==> rot_ld_rel(pre, post),
    ensures
        post.key_seq() == pre.key_seq(),
        forall|c: int| pre.all_below(c) ==> #[trigger] post.all_below(c),
        forall|c: int| pre.all_above(c) ==> #[trigger] post.all_above(c),
        pre.is_bst() ==> post.is_bst(),
        pre.is_bst() ==> forall|j: int| #[trigger] post.spec_get(j) == pre.spec_get(j),
{
    match pre {
        Tree::Empty => {},
        Tree::With(a) => {
            if !to_right {
                let mid = choose|mid: Tree<V>|
                    #[trigger] rot_r_rel(a.rtree, mid) && rot_l_on_parts(
                        a.key,
                        a.value,
                        a.ltree,
                        mid,
                        post,
                    );
                lemma_rot_rel_props(a.rtree, mid, true);
                lemma_rot_l_parts_props(a.key, a.value, a.ltree, mid, post);
                assert(pre.key_seq() == a.ltree.key_seq() + seq![a.key] + a.rtree.key_seq());
                assert(post.key_seq() == a.ltree.key_seq() + seq![a.key] + mid.key_seq());
                assert forall|c: int| pre.all_below(c) implies #[trigger] post.all_below(c) by {
                    assert(a.rtree.all_below(c));
                    assert(mid.all_below(c));
                }
                assert forall|c: int| pre.all_above(c) implies #[trigger] post.all_above(c) by {
                    assert(a.rtree.all_above(c));
                    assert(mid.all_above(c));
                }
                if pre.is_bst() {
                    assert(mid.all_above(a.key as int));
                    assert(mid.is_bst());
                    assert(post.is_bst());
                    assert forall|j: int| #[trigger] post.spec_get(j) == pre.spec_get(j) by {
                        if j > a.key {
                            assert(mid.spec_get(j) == a.rtree.spec_get(j));
                        }
                    }
                }
            } else {
                let mid = choose|mid: Tree<V>|
                    #[trigger] rot_l_rel(a.ltree, mid) && rot_r_on_parts(
                        a.key,
                        a.value,
                        mid,
                        a.rtree,
                        post,
                    );
                lemma_rot_rel_props(a.ltree, mid, false);
                lemma_rot_r_parts_props(a.key, a.value, mid, a.rtree, post);
                assert(pre.key_seq() == a.ltree.key_seq() + seq![a.key] + a.rtree.key_seq());
                assert(post.key_seq() == mid.key_seq() + seq![a.key] + a.rtree.key_seq());
                assert forall|c: int| pre.all_below(c) implies #[trigger] post.all_below(c) by {
                    assert(a.ltree.all_below(c));
                    assert(mid.all_below(c));
                }
                assert forall|c: int| pre.all_above(c) implies #[trigger] post.all_above(c) by {
                    assert(a.ltree.all_above(c));
                    assert(mid.all_above(c));
                }
                if pre.is_bst() {
                    assert(mid.all_below(a.key as int));
                    assert(mid.is_bst());
                    assert(post.is_bst());
                    assert forall|j: int| #[trigger] post.spec_get(j) == pre.spec_get(j) by {
                        if j < a.key {
                            assert(mid.spec_get(j) == a.ltree.spec_get(j));
                        }
                    }
                }
            }
        },
    }
}

/// Bundles the preservation facts of a finished single rotation, so that the
/// two exec rotations can discharge their postconditions in one step.
/// `to_right` selects between the right-rotation and left-rotation relation.
proof fn lemma_rot_rel_props<V>(pre: Tree<V>, post: Tree<V>, to_right: bool)
    requires
        to_right ==> rot_r_rel(pre, post),
        !to_right ==> rot_l_rel(pre, post),
    ensures
        post.key_seq() == pre.key_seq(),
        forall|c: int| pre.all_below(c) ==> #[trigger] post.all_below(c),
        forall|c: int| pre.all_above(c) ==> #[trigger] post.all_above(c),
        pre.is_bst() ==> post.is_bst(),
        pre.is_bst() ==> forall|j: int| #[trigger] post.spec_get(j) == pre.spec_get(j),
{
    match pre {
        Tree::Empty => {},
        Tree::With(a) => {
            if to_right {
                lemma_rot_r_parts_props(a.key, a.value, a.ltree, a.rtree, post);
            } else {
                lemma_rot_l_parts_props(a.key, a.value, a.ltree, a.rtree, post);
            }
            assert(pre.key_seq() == a.ltree.key_seq() + seq![a.key] + a.rtree.key_seq());
            if pre.is_bst() {
                assert forall|j: int| #[trigger] post.spec_get(j) == pre.spec_get(j) by {
                }
            }
        },
    }
}

} // verus!
