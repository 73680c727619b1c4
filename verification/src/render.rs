//! The diagnostic, indentation-based dump of a tree: one `key: value` line
//! per node in pre-order — root, then left subtree, then right subtree —
//! with a fixed indent unit marking the depth. Purely for human inspection.

use vstd::prelude::*;
use vstd::string::StringExecFns;

use crate::tree::Tree;

verus! {

/// The text `key: value` as std's integer formatting writes the two numbers.
pub uninterp spec fn entry_text(key: int, value: int) -> Seq<char>;

/// Relies on `format!` with std's `Display` for `i64`: the produced line is
/// a function of the two numbers alone.
#[verifier::external_body]
fn key_value_line(key: i64, value: i64) -> (r: String)
    ensures
        r@ == entry_text(key as int, value as int),
{
    format!("{}: {}", key, value)
}

/// Four spaces of indentation for each nesting level.
pub open spec fn indent_text(d: nat) -> Seq<char> {
    Seq::new(4 * d, |i: int| ' ')
}

impl Tree<i64> {
    /// The text that `print` emits for this subtree standing at depth `d`.
    pub open spec fn render(self, d: nat) -> Seq<char>
        decreases self,
    {
        match self {
            Tree::Empty => Seq::empty(),
            Tree::With(n) => indent_text(d) + entry_text(n.key as int, n.value as int)
                + seq!['\n'] + n.ltree.render(d + 1) + n.rtree.render(d + 1),
        }
    }

    /// Pre-order textual dump of the whole tree, starting at depth zero.
    pub fn print(&self) -> (r: String)
        requires
            self.height() <= usize::MAX,
        ensures
            r@ == self.render(0),
    {
        let mut out = String::new();
        self.print_deep(0, &mut out);
        out
    }

    /// Appends the dump of this subtree, standing at depth `level`, to `out`.
    fn print_deep(&self, level: usize, out: &mut String)
        requires
            level + self.height() <= usize::MAX,
        ensures
            final(out)@ == old(out)@ + self.render(level as nat),
        decreases self,
    {
        match self {
            Tree::Empty => {
                proof {
                    assert(out@ =~= out@ + self.render(level as nat));
                }
            },
            Tree::With(node) => {
                let ghost base = out@;
                proof {
                    assert(out@ =~= base + indent_text(0));
                }
                let mut i: usize = 0;
                while i < level
                    invariant
                        i <= level,
                        out@ == base + indent_text(i as nat),
                    decreases level - i,
                {
                    out.append("    ");
                    i = i + 1;
                    proof {
                        reveal_strlit("    ");
                        assert("    "@ =~= seq![' ', ' ', ' ', ' ']);
                        assert(base + indent_text((i - 1) as nat) + "    "@ =~= base + indent_text(
                            i as nat,
                        ));
                    }
                }
                let line = key_value_line(node.key, node.value);
                out.append(line.as_str());
                out.append("\n");
                proof {
                    reveal_strlit("\n");
                    assert("\n"@ =~= seq!['\n']);
                }
                node.ltree.print_deep(level + 1, out);
                node.rtree.print_deep(level + 1, out);
                proof {
                    assert(out@ =~= old(out)@ + self.render(level as nat));
                }
            },
        }
    }
}

} // verus!
