use vstd::prelude::*;

verus! {

/// A node of a code tree, with the weight of all symbols beneath it.
#[derive(Debug, PartialEq, Eq)]
pub struct Node {
    pub weight: u64,
    pub kind: NodeKind,
}

/// What a node is: a symbol, or the owner of two subtrees.
#[derive(Debug, PartialEq, Eq)]
pub enum NodeKind {
    Internal { left: Box<Node>, right: Box<Node> },
    Leaf { symbol: char },
}

/// One entry of a code table as mathematics: a symbol and its bits, written
/// with the characters `'0'` and `'1'`.
pub type CodeSpec = (char, Seq<char>);

/// `a` is a prefix of `b` (every sequence is a prefix of itself).
pub open spec fn is_prefix(a: Seq<char>, b: Seq<char>) -> bool {
    a.len() <= b.len() && forall|k: int| 0 <= k < a.len() ==> a[k] == b[k]
}

/// `c` is one of the two characters that codes are written with.
pub open spec fn is_bit(c: char) -> bool {
    c == '0' || c == '1'
}

/// No code of the table is a prefix of the code at another place of it.
pub open spec fn prefix_free(table: Seq<CodeSpec>) -> bool {
    forall|i: int, j: int|
        0 <= i < table.len() && 0 <= j < table.len() && i != j ==> !is_prefix(
            #[trigger] table[i].1,
            #[trigger] table[j].1,
        )
}

/// The symbols of a code table, in its order.
pub open spec fn code_symbols(table: Seq<CodeSpec>) -> Seq<char> {
    Seq::new(table.len(), |i: int| table[i].0)
}

impl Node {
    /// A leaf for `symbol`.
    pub open spec fn leaf(symbol: char, weight: u64) -> Node {
        Node { weight, kind: NodeKind::Leaf { symbol } }
    }

    /// The node above `a` and `b`: `a` becomes the left subtree, `b` the right.
    pub open spec fn join(a: Node, b: Node) -> Node {
        Node {
            weight: (a.weight + b.weight) as u64,
            kind: NodeKind::Internal { left: Box::new(a), right: Box::new(b) },
        }
    }

    pub open spec fn is_leaf(self) -> bool {
        self.kind is Leaf
    }

    /// The symbols at the leaves, from left to right.
    pub open spec fn symbols(self) -> Seq<char>
        decreases self,
    {
        match self.kind {
            NodeKind::Leaf { symbol } => seq![symbol],
            NodeKind::Internal { left, right } => left.symbols() + right.symbols(),
        }
    }

    /// The sum of the weights at the leaves.
    pub open spec fn leaf_weight(self) -> nat
        decreases self,
    {
        match self.kind {
            NodeKind::Leaf { .. } => self.weight as nat,
            NodeKind::Internal { left, right } => left.leaf_weight() + right.leaf_weight(),
        }
    }

    /// Every node carries the weight of the leaves beneath it.
    pub open spec fn well_formed(self) -> bool
        decreases self,
    {
        match self.kind {
            NodeKind::Leaf { .. } => true,
            NodeKind::Internal { left, right } => left.well_formed() && right.well_formed()
                && self.weight == left.weight + right.weight,
        }
    }

    /// The codes of the leaves from left to right, for a tree that hangs
    /// under the path `path`: going left writes `'0'`, going right `'1'`.
    pub open spec fn codes(self, path: Seq<char>) -> Seq<CodeSpec>
        decreases self,
    {
        match self.kind {
            NodeKind::Leaf { symbol } => seq![(symbol, path)],
            NodeKind::Internal { left, right } => left.codes(path.push('0')) + right.codes(
                path.push('1'),
            ),
        }
    }

    /// The code table of the tree with this root. A root that is itself a
    /// leaf gets the one-bit code `0`.
    pub open spec fn code_table(self) -> Seq<CodeSpec> {
        match self.kind {
            NodeKind::Leaf { symbol } => seq![(symbol, seq!['0'])],
            NodeKind::Internal { .. } => self.codes(Seq::empty()),
        }
    }
}

/// Every code under a node starts with the path to that node, the codes stand
/// in the order of the leaves, and below an inner node each is longer than the path.
pub proof fn lemma_codes_follow_path(node: Node, path: Seq<char>)
    ensures
        node.codes(path).len() == node.symbols().len(),
        node.codes(path).len() >= 1,
        forall|i: int|
            0 <= i < node.codes(path).len() ==> {
                &&& (#[trigger] node.codes(path)[i]).0 == node.symbols()[i]
                &&& is_prefix(path, node.codes(path)[i].1)
                &&& !node.is_leaf() ==> node.codes(path)[i].1.len() > path.len()
            },
    decreases node,
{
    match node.kind {
        NodeKind::Leaf { .. } => {},
        NodeKind::Internal { left, right } => {
            let lp = path.push('0');
            let rp = path.push('1');
            lemma_codes_follow_path(*left, lp);
            lemma_codes_follow_path(*right, rp);
            let l = left.codes(lp);
            let r = right.codes(rp);
            assert forall|i: int| 0 <= i < node.codes(path).len() implies {
                &&& (#[trigger] node.codes(path)[i]).0 == node.symbols()[i]
                &&& is_prefix(path, node.codes(path)[i].1)
                &&& node.codes(path)[i].1.len() > path.len()
            } by {
                if i < l.len() {
                    assert(node.codes(path)[i] == l[i]);
                    assert(is_prefix(lp, l[i].1));
                    assert forall|k: int| 0 <= k < path.len() implies path[k] == l[i].1[k] by {
                        assert(lp[k] == path[k]);
                    }
                } else {
                    let m = i - l.len();
                    assert(node.codes(path)[i] == r[m]);
                    assert(is_prefix(rp, r[m].1));
                    assert forall|k: int| 0 <= k < path.len() implies path[k] == r[m].1[k] by {
                        assert(rp[k] == path[k]);
                    }
                }
            }
        },
    }
}

/// Under a node with the subtrees `left` and `right`, the code at place `i`
/// is one of the left subtree where `i` counts one of its leaves, and one of
/// the right subtree otherwise; the bit that follows the path says which.
proof fn lemma_code_names_its_branch(left: Node, right: Node, path: Seq<char>, i: int)
    requires
        0 <= i < left.codes(path.push('0')).len() + right.codes(path.push('1')).len(),
    ensures
        ({
            let l = left.codes(path.push('0'));
            let r = right.codes(path.push('1'));
            let code = (l + r)[i].1;
            &&& code.len() > path.len()
            &&& i < l.len() ==> (l + r)[i] == l[i] && code[path.len() as int] == '0'
            &&& i >= l.len() ==> (l + r)[i] == r[i - l.len()] && code[path.len() as int] == '1'
        }),
{
    let lp = path.push('0');
    let rp = path.push('1');
    let d = path.len() as int;
    lemma_codes_follow_path(left, lp);
    lemma_codes_follow_path(right, rp);
    if i < left.codes(lp).len() {
        assert(is_prefix(lp, left.codes(lp)[i].1));
        assert(lp[d] == '0');
    } else {
        assert(is_prefix(rp, right.codes(rp)[i - left.codes(lp).len()].1));
        assert(rp[d] == '1');
    }
}

/// The codes under a node are prefix-free, whatever the path to the node.
pub proof fn lemma_codes_prefix_free(node: Node, path: Seq<char>)
    ensures
        prefix_free(node.codes(path)),
    decreases node,
{
    match node.kind {
        NodeKind::Leaf { .. } => {},
        NodeKind::Internal { left, right } => {
            lemma_codes_prefix_free(*left, path.push('0'));
            lemma_codes_prefix_free(*right, path.push('1'));
            let all = node.codes(path);
            assert forall|i: int, j: int|
                0 <= i < all.len() && 0 <= j < all.len() && i != j implies !is_prefix(
                #[trigger] all[i].1,
                #[trigger] all[j].1,
            ) by {
                lemma_code_names_its_branch(*left, *right, path, i);
                lemma_code_names_its_branch(*left, *right, path, j);
            }
        },
    }
}

/// Below the path to a node every code is written with `'0'` and `'1'`, and
/// it is shorter than the path and the number of leaves under the node together.
pub proof fn lemma_codes_shape(node: Node, path: Seq<char>)
    ensures
        forall|i: int|
            0 <= i < node.codes(path).len() ==> {
                &&& (#[trigger] node.codes(path)[i]).1.len() < path.len() + node.symbols().len()
                &&& forall|k: int|
                    path.len() <= k < node.codes(path)[i].1.len() ==> is_bit(
                        #[trigger] node.codes(path)[i].1[k],
                    )
            },
    decreases node,
{
    match node.kind {
        NodeKind::Leaf { .. } => {},
        NodeKind::Internal { left, right } => {
            lemma_codes_shape(*left, path.push('0'));
            lemma_codes_shape(*right, path.push('1'));
            lemma_codes_follow_path(*left, path.push('0'));
            lemma_codes_follow_path(*right, path.push('1'));
            let all = node.codes(path);
            assert forall|i: int| 0 <= i < all.len() implies {
                &&& (#[trigger] all[i]).1.len() < path.len() + node.symbols().len()
                &&& forall|k: int| path.len() <= k < all[i].1.len() ==> is_bit(#[trigger] all[i].1[k])
            } by {
                lemma_code_names_its_branch(*left, *right, path, i);
            }
        },
    }
}

/// The weight of a well-formed node is the sum of the weights at its leaves.
pub proof fn well_formed_weight_is_leaf_weight(node: Node)
    requires
        node.well_formed(),
    ensures
        node.weight == node.leaf_weight(),
    decreases node,
{
    match node.kind {
        NodeKind::Leaf { .. } => {},
        NodeKind::Internal { left, right } => {
            well_formed_weight_is_leaf_weight(*left);
            well_formed_weight_is_leaf_weight(*right);
        },
    }
}

/// Every code of a tree's code table is written with `'0'` and `'1'` alone,
/// and none is longer than the tree has leaves.
pub proof fn code_table_is_binary(root: Node)
    ensures
        forall|i: int|
            0 <= i < root.code_table().len() ==> {
                &&& (#[trigger] root.code_table()[i]).1.len() <= root.symbols().len()
                &&& forall|k: int|
                    0 <= k < root.code_table()[i].1.len() ==> is_bit(
                        #[trigger] root.code_table()[i].1[k],
                    )
            },
{
    lemma_codes_shape(root, Seq::empty());
}

/// The code table of any tree is prefix-free: no code is a prefix of the
/// code at another place of the table.
pub proof fn code_table_is_prefix_free(root: Node)
    ensures
        prefix_free(root.code_table()),
{
    lemma_codes_prefix_free(root, Seq::empty());
}

/// The code table of any tree gives each leaf, from left to right, one code,
/// and no code is empty: a lone leaf gets one bit too.
pub proof fn code_table_covers_leaves(root: Node)
    ensures
        code_symbols(root.code_table()) == root.symbols(),
        forall|i: int|
            0 <= i < root.code_table().len() ==> (#[trigger] root.code_table()[i]).1.len() >= 1,
{
    lemma_codes_follow_path(root, Seq::empty());
    assert(code_symbols(root.code_table()) =~= root.symbols());
}

} // verus!
