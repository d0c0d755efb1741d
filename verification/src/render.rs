//! Debug rendering of a tree: every leaf entry is shown as a
//! `"Key: <k>, value: <v>; "` fragment preceded by a `" // "` separator,
//! and a branch node renders as the empty fragment, a known gap of this
//! rendering — it is diagnostic only, and lossy by design.

use vstd::prelude::*;
use vstd::string::StringExecFns;

use crate::btree::BTree;
use crate::btree::Leaf;
use crate::btree::LeafElt;
use crate::btree::Node;

verus! {

/// The character for one decimal digit.
pub open spec fn spec_digit_char(d: int) -> char {
    if d == 0 {
        '0'
    } else if d == 1 {
        '1'
    } else if d == 2 {
        '2'
    } else if d == 3 {
        '3'
    } else if d == 4 {
        '4'
    } else if d == 5 {
        '5'
    } else if d == 6 {
        '6'
    } else if d == 7 {
        '7'
    } else if d == 8 {
        '8'
    } else {
        '9'
    }
}

/// The decimal digits of a natural number, most significant first, with no
/// leading zeroes.
pub open spec fn spec_nat_digits(n: nat) -> Seq<char>
    decreases n,
{
    if n < 10 {
        seq![spec_digit_char(n as int)]
    } else {
        spec_nat_digits(n / 10) + seq![spec_digit_char((n % 10) as int)]
    }
}

/// The decimal rendering of a signed number: its digits, preceded by `-`
/// when it is negative.
pub open spec fn spec_i64_digits(k: int) -> Seq<char> {
    if k < 0 {
        seq!['-'] + spec_nat_digits((-k) as nat)
    } else {
        spec_nat_digits(k as nat)
    }
}

/// Relies on std's `i64::to_string` (through `Display`): it renders the
/// value as its decimal digits without leading zeroes, preceded by `-` when
/// the value is negative.
#[verifier::external_body]
fn i64_to_string(k: i64) -> (r: String)
    ensures
        r@ == spec_i64_digits(k as int),
{
    k.to_string()
}

/// The rendering of one leaf entry.
pub open spec fn spec_render_leaf_elt(e: LeafElt) -> Seq<char> {
    "Key: "@ + spec_i64_digits(e.key as int) + ", value: "@ + e.value@ + "; "@
}

/// The rendering of the entries of a leaf from position `i` on, each
/// preceded by its separator.
pub open spec fn spec_render_leaf_entries(elts: Seq<LeafElt>, i: int) -> Seq<char>
    decreases elts.len() - i,
{
    if i < 0 || i >= elts.len() {
        Seq::empty()
    } else {
        " // "@ + spec_render_leaf_elt(elts[i]) + spec_render_leaf_entries(elts, i + 1)
    }
}

impl LeafElt {
    /// Renders this entry as its `"Key: <k>, value: <v>; "` fragment.
    pub fn to_str(&self) -> (r: String)
        ensures
            r@ == spec_render_leaf_elt(*self),
    {
        let mut out = String::new();
        out.append("Key: ");
        let digits = i64_to_string(self.key);
        out.append(digits.as_str());
        out.append(", value: ");
        out.append(self.value.as_str());
        out.append("; ");
        proof {
            assert(out@ =~= spec_render_leaf_elt(*self));
        }
        out
    }
}

impl Leaf {
    /// Renders every entry in storage order, each preceded by its
    /// separator.
    pub fn to_str(&self) -> (r: String)
        ensures
            r@ == spec_render_leaf_entries(self.elts@, 0),
    {
        let n = self.elts.len();
        let mut out = String::new();
        let mut i: usize = 0;
        proof {
            assert(Seq::<char>::empty() + spec_render_leaf_entries(self.elts@, 0)
                =~= spec_render_leaf_entries(self.elts@, 0));
        }
        while i < n
            invariant
                n == self.elts@.len(),
                0 <= i <= n,
                spec_render_leaf_entries(self.elts@, 0) == out@ + spec_render_leaf_entries(
                    self.elts@,
                    i as int,
                ),
            decreases n - i,
        {
            let ghost pre = out@;
            out.append(" // ");
            let fragment = self.elts[i].to_str();
            out.append(fragment.as_str());
            proof {
                let ii = i as int;
                assert(spec_render_leaf_entries(self.elts@, ii) == " // "@ + spec_render_leaf_elt(
                    self.elts@[ii],
                ) + spec_render_leaf_entries(self.elts@, ii + 1));
                assert(pre + spec_render_leaf_entries(self.elts@, ii) =~= out@
                    + spec_render_leaf_entries(self.elts@, ii + 1));
            }
            i += 1;
        }
        proof {
            assert(spec_render_leaf_entries(self.elts@, n as int) == Seq::<char>::empty());
            assert(out@ + Seq::<char>::empty() =~= out@);
        }
        out
    }
}

impl Node {
    /// The rendering of the subtree rooted here: a leaf shows its entries;
    /// a branch yields the empty fragment.
    pub open spec fn spec_render(self) -> Seq<char> {
        match self {
            Node::LeafNode(leaf) => spec_render_leaf_entries(leaf.elts@, 0),
            Node::BranchNode(_) => Seq::empty(),
        }
    }

    /// Renders the subtree rooted here.
    pub fn to_str(&self) -> (r: String)
        ensures
            r@ == self.spec_render(),
    {
        match self {
            Node::LeafNode(leaf) => leaf.to_str(),
            Node::BranchNode(_) => String::new(),
        }
    }
}

impl BTree {
    /// The rendering of the whole tree: the root subtree's rendering.
    pub closed spec fn spec_render(self) -> Seq<char> {
        self.root.spec_render()
    }

    /// Renders the tree for debugging.
    pub fn to_str(&self) -> (r: String)
        ensures
            r@ == self.spec_render(),
    {
        self.root.to_str()
    }
}

} // verus!
