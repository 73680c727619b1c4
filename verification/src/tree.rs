//! The tree data model: an empty slot or a node owning a key, a value and two
//! child subtrees, together with the spec-level view of a tree as a mapping
//! and the height and balance measures that the rebalancing machinery uses.

use vstd::prelude::*;

verus! {

/// A binary search tree: either empty, or a node with exclusively owned
/// left and right subtrees.
pub enum Tree<V> {
    Empty,
    With(Box<Node<V>>),
}

/// One key/value pair and its two child subtrees.
pub struct Node<V> {
    pub key: i64,
    pub value: V,
    pub ltree: Tree<V>,
    pub rtree: Tree<V>,
}

/// The path information reported by an insertion: where the descent went at a
/// node (`Left`/`Right`), that a fresh leaf was created (`Leaf`), or that no
/// insertion took place (`Nothing`).
#[derive(Clone, Copy, Debug, PartialEq, Eq, Structural)]
pub enum Inserted {
    Nothing,
    Leaf,
    Left,
    Right,
}

impl<V> Tree<V> {
    /// Length of the longest root-to-leaf path; 0 for an empty tree.
    pub open spec fn height(self) -> nat
        decreases self,
    {
        match self {
            Tree::Empty => 0,
            Tree::With(n) => {
                let hl = n.ltree.height();
                let hr = n.rtree.height();
                1 + if hl >= hr {
                    hl
                } else {
                    hr
                }
            },
        }
    }

    /// At every node the heights of the two children differ by at most one.
    pub open spec fn balanced(self) -> bool
        decreases self,
    {
        match self {
            Tree::Empty => true,
            Tree::With(n) => {
                let hl = n.ltree.height();
                let hr = n.rtree.height();
                &&& hl <= hr + 1
                &&& hr <= hl + 1
                &&& n.ltree.balanced()
                &&& n.rtree.balanced()
            },
        }
    }

    /// Every key in the tree is strictly below `bound`.
    pub open spec fn all_below(self, bound: int) -> bool
        decreases self,
    {
        match self {
            Tree::Empty => true,
            Tree::With(n) => n.key < bound && n.ltree.all_below(bound) && n.rtree.all_below(
                bound,
            ),
        }
    }

    /// Every key in the tree is strictly above `bound`.
    pub open spec fn all_above(self, bound: int) -> bool
        decreases self,
    {
        match self {
            Tree::Empty => true,
            Tree::With(n) => n.key > bound && n.ltree.all_above(bound) && n.rtree.all_above(
                bound,
            ),
        }
    }

    /// The order invariant: at every node, the left subtree holds only smaller
    /// keys and the right subtree only greater ones.
    pub open spec fn is_bst(self) -> bool
        decreases self,
    {
        match self {
            Tree::Empty => true,
            Tree::With(n) => {
                &&& n.ltree.all_below(n.key as int)
                &&& n.rtree.all_above(n.key as int)
                &&& n.ltree.is_bst()
                &&& n.rtree.is_bst()
            },
        }
    }

    /// The value found by a comparator-driven descent for `k`, if any.
    pub open spec fn spec_get(self, k: int) -> Option<V>
        decreases self,
    {
        match self {
            Tree::Empty => Option::None,
            Tree::With(n) => if k == n.key {
                Option::Some(n.value)
            } else if k < n.key {
                n.ltree.spec_get(k)
            } else {
                n.rtree.spec_get(k)
            },
        }
    }

    /// Whether a descent for `k` finds a node.
    pub open spec fn contains_key(self, k: int) -> bool {
        self.spec_get(k) is Some
    }

    /// The shape a tree has when an insertion has just raised its height:
    /// the step `d` that the insertion reported at its root points into the
    /// child that is now the strictly taller one (or, for a fresh leaf, at
    /// two empty children). No tree has this shape for `Nothing`.
    pub open spec fn grew_toward(self, d: Inserted) -> bool {
        match self {
            Tree::Empty => false,
            Tree::With(n) => match d {
                Inserted::Left => n.ltree.height() == n.rtree.height() + 1,
                Inserted::Right => n.rtree.height() == n.ltree.height() + 1,
                Inserted::Leaf => n.ltree is Empty && n.rtree is Empty,
                Inserted::Nothing => false,
            },
        }
    }

    /// The in-order key sequence of the tree.
    pub open spec fn key_seq(self) -> Seq<i64>
        decreases self,
    {
        match self {
            Tree::Empty => Seq::empty(),
            Tree::With(n) => n.ltree.key_seq() + seq![n.key] + n.rtree.key_seq(),
        }
    }
}

impl<V> Tree<V> {
    /// Look `key` up by comparator-driven descent; read-only, never fails,
    /// returns a reference to the stored value when the key is present.
    pub fn get(&self, key: i64) -> (r: Option<&V>)
        ensures
            (match r {
                Option::Some(v) => self.spec_get(key as int) == Option::Some(*v),
                Option::None => self.spec_get(key as int) is None,
            }),
        decreases self,
    {
        match self {
            Tree::Empty => Option::None,
            Tree::With(node) => {
                if key == node.key {
                    Option::Some(&node.value)
                } else if key < node.key {
                    node.ltree.get(key)
                } else {
                    node.rtree.get(key)
                }
            },
        }
    }

    /// The length of the longest root-to-leaf path, 0 for an empty tree.
    pub fn level_max(&self) -> (r: isize)
        requires
            self.height() <= isize::MAX,
        ensures
            r as int == self.height() as int,
        decreases self,
    {
        match self {
            Tree::Empty => 0,
            Tree::With(node) => {
                let l = node.ltree.level_max();
                let r = node.rtree.level_max();
                if l >= r {
                    l + 1
                } else {
                    r + 1
                }
            },
        }
    }

    /// The reported "minimum level" statistic. Deliberately defined with the
    /// same formula as `level_max` — one plus the larger of the children's
    /// `level_max` values, not a recursive shortest-path measure — so it is
    /// the same longest-path figure under another name.
    pub fn level_min(&self) -> (r: isize)
        requires
            self.height() <= isize::MAX,
        ensures
            r as int == self.height() as int,
        decreases self,
    {
        match self {
            Tree::Empty => 0,
            Tree::With(node) => {
                let l = node.ltree.level_max();
                let r = node.rtree.level_max();
                if l >= r {
                    l + 1
                } else {
                    r + 1
                }
            },
        }
    }
}

} // verus!
