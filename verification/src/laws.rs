//! The library's general laws, proved once over the spec-level model: the
//! order invariant yields a strictly increasing in-order key sequence, and
//! deletion detaches a whole branch whose keys are exactly the ones that
//! vanish from the remaining tree.

use vstd::prelude::*;

use crate::remove::del_rel;
use crate::rotate::{lemma_above_get_none, lemma_below_get_none};
use crate::tree::Tree;

verus! {

/// Every entry of the in-order key sequence respects a strict upper bound on
/// the tree's keys.
proof fn lemma_all_below_seq<V>(t: Tree<V>, c: int)
    requires
        t.all_below(c),
    ensures
        forall|i: int| 0 <= i < t.key_seq().len() ==> #[trigger] t.key_seq()[i] < c,
    decreases t,
{
    match t {
        Tree::Empty => {},
        Tree::With(n) => {
            lemma_all_below_seq(n.ltree, c);
            lemma_all_below_seq(n.rtree, c);
            let ls = n.ltree.key_seq();
            let rs = n.rtree.key_seq();
            assert(t.key_seq() == ls + seq![n.key] + rs);
            assert forall|i: int| 0 <= i < t.key_seq().len() implies #[trigger] t.key_seq()[i]
                < c by {
                if i < ls.len() {
                    assert(t.key_seq()[i] == ls[i]);
                } else if i == ls.len() {
                    assert(t.key_seq()[i] == n.key);
                } else {
                    assert(t.key_seq()[i] == rs[i - ls.len() - 1]);
                }
            }
        },
    }
}

/// Every entry of the in-order key sequence respects a strict lower bound on
/// the tree's keys.
proof fn lemma_all_above_seq<V>(t: Tree<V>, c: int)
    requires
        t.all_above(c),
    ensures
        forall|i: int| 0 <= i < t.key_seq().len() ==> #[trigger] t.key_seq()[i] > c,
    decreases t,
{
    match t {
        Tree::Empty => {},
        Tree::With(n) => {
            lemma_all_above_seq(n.ltree, c);
            lemma_all_above_seq(n.rtree, c);
            let ls = n.ltree.key_seq();
            let rs = n.rtree.key_seq();
            assert(t.key_seq() == ls + seq![n.key] + rs);
            assert forall|i: int| 0 <= i < t.key_seq().len() implies #[trigger] t.key_seq()[i]
                > c by {
                if i < ls.len() {
                    assert(t.key_seq()[i] == ls[i]);
                } else if i == ls.len() {
                    assert(t.key_seq()[i] == n.key);
                } else {
                    assert(t.key_seq()[i] == rs[i - ls.len() - 1]);
                }
            }
        },
    }
}

/// Order law: in a tree satisfying the order invariant, the in-order
/// traversal lists the keys in strictly increasing order — in particular
/// without duplicates.
pub proof fn lemma_inorder_sorted<V>(t: Tree<V>)
    requires
        t.is_bst(),
    ensures
        forall|i: int, j: int|
            0 <= i < j < t.key_seq().len() ==> #[trigger] t.key_seq()[i] < #[trigger] t.key_seq()[j],
    decreases t,
{
    match t {
        Tree::Empty => {},
        Tree::With(n) => {
            lemma_inorder_sorted(n.ltree);
            lemma_inorder_sorted(n.rtree);
            lemma_all_below_seq(n.ltree, n.key as int);
            lemma_all_above_seq(n.rtree, n.key as int);
            let ls = n.ltree.key_seq();
            let rs = n.rtree.key_seq();
            assert(t.key_seq() == ls + seq![n.key] + rs);
            assert forall|i: int, j: int|
                0 <= i < j < t.key_seq().len() implies #[trigger] t.key_seq()[i]
                < #[trigger] t.key_seq()[j] by {
                if i < ls.len() {
                    assert(t.key_seq()[i] == ls[i]);
                } else if i == ls.len() {
                    assert(t.key_seq()[i] == n.key);
                } else {
                    assert(t.key_seq()[i] == rs[i - ls.len() - 1]);
                }
                if j < ls.len() {
                    assert(t.key_seq()[j] == ls[j]);
                } else if j == ls.len() {
                    assert(t.key_seq()[j] == n.key);
                } else {
                    assert(t.key_seq()[j] == rs[j - ls.len() - 1]);
                }
            }
        },
    }
}

/// Deletion law: deleting a present key hands back the branch in which the
/// key is still found (with the very value the original tree held); every key
/// of the detached branch is gone from the remaining tree; and together the
/// remaining and the detached tree hold exactly the keys of the original.
/// Deleting an absent key detaches nothing and changes nothing.
pub proof fn lemma_del_partitions<V>(pre: Tree<V>, k: int, post: Tree<V>, det: Tree<V>)
    requires
        del_rel(pre, k, post, det),
        pre.is_bst(),
    ensures
        pre.contains_key(k) ==> det.spec_get(k) == pre.spec_get(k) && det.contains_key(k),
        !pre.contains_key(k) ==> det == Tree::<V>::Empty && post == pre,
        forall|j: int| #[trigger] det.contains_key(j) ==> !post.contains_key(j),
        forall|j: int|
            #[trigger] pre.contains_key(j) <==> post.contains_key(j) || det.contains_key(j),
        forall|j: int| !det.contains_key(j) ==> #[trigger] post.spec_get(j) == pre.spec_get(j),
        forall|j: int| #[trigger] det.contains_key(j) ==> det.spec_get(j) == pre.spec_get(j),
    decreases pre,
{
    match pre {
        Tree::Empty => {},
        Tree::With(n) => {
            if k == n.key {
                assert forall|j: int| #[trigger] det.contains_key(j) implies !post.contains_key(
                    j,
                ) by {}
                assert forall|j: int|
                    !det.contains_key(j) implies #[trigger] post.spec_get(j) == pre.spec_get(
                    j,
                ) by {}
            } else if k < n.key {
                let m = post->With_0;
                lemma_del_partitions(n.ltree, k, m.ltree, det);
                lemma_above_get_none(n.rtree, n.key as int, k);
                if !n.ltree.contains_key(k) {
                    assert(m.ltree == n.ltree);
                    assert(post == pre);
                }
                assert forall|j: int| #[trigger] det.contains_key(j) implies !post.contains_key(
                    j,
                ) by {
                    assert(n.ltree.contains_key(j));
                    if j >= n.key {
                        lemma_below_get_none(n.ltree, n.key as int, j);
                    }
                    assert(j < n.key);
                    assert(post.spec_get(j) == m.ltree.spec_get(j));
                }
                assert forall|j: int|
                    #[trigger] pre.contains_key(j) <==> post.contains_key(j) || det.contains_key(
                        j,
                    ) by {
                    if j < n.key {
                        assert(pre.spec_get(j) == n.ltree.spec_get(j));
                        assert(post.spec_get(j) == m.ltree.spec_get(j));
                        assert(n.ltree.contains_key(j) == (m.ltree.contains_key(j)
                            || det.contains_key(j)));
                    } else {
                        assert(pre.spec_get(j) == (if j == n.key {
                            Option::Some(n.value)
                        } else {
                            n.rtree.spec_get(j)
                        }));
                        assert(post.spec_get(j) == (if j == n.key {
                            Option::Some(m.value)
                        } else {
                            n.rtree.spec_get(j)
                        }));
                        if det.contains_key(j) {
                            assert(n.ltree.contains_key(j));
                            lemma_below_get_none(n.ltree, n.key as int, j);
                        }
                    }
                }
                assert forall|j: int|
                    !det.contains_key(j) implies #[trigger] post.spec_get(j) == pre.spec_get(
                    j,
                ) by {
                    if j < n.key {
                        assert(m.ltree.spec_get(j) == n.ltree.spec_get(j));
                        assert(post.spec_get(j) == m.ltree.spec_get(j));
                        assert(pre.spec_get(j) == n.ltree.spec_get(j));
                    }
                }
                assert forall|j: int|
                    #[trigger] det.contains_key(j) implies det.spec_get(j) == pre.spec_get(
                    j,
                ) by {
                    assert(n.ltree.contains_key(j));
                    if j >= n.key {
                        lemma_below_get_none(n.ltree, n.key as int, j);
                    }
                    assert(j < n.key);
                    assert(det.spec_get(j) == n.ltree.spec_get(j));
                    assert(pre.spec_get(j) == n.ltree.spec_get(j));
                }
            } else {
                let m = post->With_0;
                lemma_del_partitions(n.rtree, k, m.rtree, det);
                lemma_below_get_none(n.ltree, n.key as int, k);
                if !n.rtree.contains_key(k) {
                    assert(m.rtree == n.rtree);
                    assert(post == pre);
                }
                assert forall|j: int| #[trigger] det.contains_key(j) implies !post.contains_key(
                    j,
                ) by {
                    assert(n.rtree.contains_key(j));
                    if j <= n.key {
                        lemma_above_get_none(n.rtree, n.key as int, j);
                    }
                    assert(j > n.key);
                    assert(post.spec_get(j) == m.rtree.spec_get(j));
                }
                assert forall|j: int|
                    #[trigger] pre.contains_key(j) <==> post.contains_key(j) || det.contains_key(
                        j,
                    ) by {
                    if j > n.key {
                        assert(pre.spec_get(j) == n.rtree.spec_get(j));
                        assert(post.spec_get(j) == m.rtree.spec_get(j));
                        assert(n.rtree.contains_key(j) == (m.rtree.contains_key(j)
                            || det.contains_key(j)));
                    } else {
                        assert(pre.spec_get(j) == (if j == n.key {
                            Option::Some(n.value)
                        } else {
                            n.ltree.spec_get(j)
                        }));
                        assert(post.spec_get(j) == (if j == n.key {
                            Option::Some(m.value)
                        } else {
                            n.ltree.spec_get(j)
                        }));
                        if det.contains_key(j) {
                            assert(n.rtree.contains_key(j));
                            lemma_above_get_none(n.rtree, n.key as int, j);
                        }
                    }
                }
                assert forall|j: int|
                    !det.contains_key(j) implies #[trigger] post.spec_get(j) == pre.spec_get(
                    j,
                ) by {
                    if j > n.key {
                        assert(m.rtree.spec_get(j) == n.rtree.spec_get(j));
                        assert(post.spec_get(j) == m.rtree.spec_get(j));
                        assert(pre.spec_get(j) == n.rtree.spec_get(j));
                    }
                }
                assert forall|j: int|
                    #[trigger] det.contains_key(j) implies det.spec_get(j) == pre.spec_get(
                    j,
                ) by {
                    assert(n.rtree.contains_key(j));
                    if j <= n.key {
                        lemma_above_get_none(n.rtree, n.key as int, j);
                    }
                    assert(j > n.key);
                    assert(det.spec_get(j) == n.rtree.spec_get(j));
                    assert(pre.spec_get(j) == n.rtree.spec_get(j));
                }
            }
        },
    }
}

} // verus!
