//! The syntax tree: a closed sum of grammatical node categories.
//!
//! Every tree slot has a fixed kind; a replacement written into a slot must
//! carry the same kind.  The mathematical model of a tree is [`NodeV`], a
//! pure value in which child lists are sequences and literal text is a
//! sequence of bytes.

use vstd::prelude::*;

verus! {

/// The grammatical category of a node.
#[derive(Clone, Copy, Debug, PartialEq, Eq, Structural)]
pub enum NodeKind {
    Program,
    ClassBody,
    NumericLiteral,
}

/// A syntax-tree node.  Child nodes are owned by their parent slot; a
/// numeric literal carries the raw source text of the number as bytes.
pub enum Node {
    Program { children: Vec<Node> },
    ClassBody { children: Vec<Node> },
    NumericLiteral { raw: Vec<u8> },
}

/// The mathematical model of a tree: the same sum with sequences for
/// children and for literal text.
#[verifier::ext_equal]
pub ghost enum NodeV {
    Program { children: Seq<NodeV> },
    ClassBody { children: Seq<NodeV> },
    NumericLiteral { raw: Seq<u8> },
}

/// The model of an executable node.
pub open spec fn node_view(n: Node) -> NodeV
    decreases n,
{
    match n {
        Node::Program { children } => NodeV::Program { children: forest_view(children@) },
        Node::ClassBody { children } => NodeV::ClassBody { children: forest_view(children@) },
        Node::NumericLiteral { raw } => NodeV::NumericLiteral { raw: raw@ },
    }
}

/// The models of a sequence of executable nodes, in order.
pub open spec fn forest_view(s: Seq<Node>) -> Seq<NodeV>
    decreases s,
{
    if s.len() == 0 {
        Seq::empty()
    } else {
        forest_view(s.drop_last()).push(node_view(s.last()))
    }
}

/// `forest_view` is the element-wise model of the sequence.
pub proof fn lemma_forest_view(s: Seq<Node>)
    ensures
        forest_view(s).len() == s.len(),
        forall|i: int| 0 <= i < s.len() ==> forest_view(s)[i] == node_view(s[i]),
    decreases s.len(),
{
    if s.len() > 0 {
        lemma_forest_view(s.drop_last());
    }
}

impl View for Node {
    type V = NodeV;

    open spec fn view(&self) -> NodeV {
        node_view(*self)
    }
}

impl NodeV {
    /// The grammatical category of a modelled node.
    pub open spec fn kind(self) -> NodeKind {
        match self {
            NodeV::Program { .. } => NodeKind::Program,
            NodeV::ClassBody { .. } => NodeKind::ClassBody,
            NodeV::NumericLiteral { .. } => NodeKind::NumericLiteral,
        }
    }

    /// The children of a modelled node; a literal has none.
    pub open spec fn children(self) -> Seq<NodeV> {
        match self {
            NodeV::Program { children } => children,
            NodeV::ClassBody { children } => children,
            NodeV::NumericLiteral { .. } => Seq::empty(),
        }
    }

    /// Rebuild this node around a new child list; a literal is unchanged.
    pub open spec fn with_children(self, cs: Seq<NodeV>) -> NodeV {
        match self {
            NodeV::Program { .. } => NodeV::Program { children: cs },
            NodeV::ClassBody { .. } => NodeV::ClassBody { children: cs },
            NodeV::NumericLiteral { raw } => NodeV::NumericLiteral { raw },
        }
    }
}

/// The number of nodes in the tree rooted at `n`.
pub open spec fn node_size(n: NodeV) -> nat
    decreases n,
{
    match n {
        NodeV::Program { children } => 1 + forest_size(children),
        NodeV::ClassBody { children } => 1 + forest_size(children),
        NodeV::NumericLiteral { .. } => 1,
    }
}

/// The total number of nodes in a sequence of trees.
pub open spec fn forest_size(s: Seq<NodeV>) -> nat
    decreases s,
{
    if s.len() == 0 {
        0
    } else {
        forest_size(s.drop_last()) + node_size(s.last())
    }
}

/// Every tree holds at least its root.
pub proof fn lemma_node_size_pos(n: NodeV)
    ensures
        node_size(n) >= 1,
{
}

/// A member of a forest is no larger than the whole forest.
pub proof fn lemma_forest_member_size(s: Seq<NodeV>, i: int)
    requires
        0 <= i < s.len(),
    ensures
        node_size(s[i]) <= forest_size(s),
    decreases s.len(),
{
    if i == s.len() - 1 {
    } else {
        lemma_forest_member_size(s.drop_last(), i);
    }
}

/// Extending a forest by one tree adds that tree's size.
pub proof fn lemma_forest_size_take_step(s: Seq<NodeV>, i: int)
    requires
        0 <= i < s.len(),
    ensures
        forest_size(s.take(i + 1)) == forest_size(s.take(i)) + node_size(s[i]),
{
    assert(s.take(i + 1).drop_last() =~= s.take(i));
    assert(s.take(i + 1).last() == s[i]);
}

/// A full take is the forest itself.
pub proof fn lemma_forest_size_take_all(s: Seq<NodeV>)
    ensures
        forest_size(s.take(s.len() as int)) == forest_size(s),
{
    assert(s.take(s.len() as int) =~= s);
}

impl Node {
    /// The grammatical category of this node.
    pub fn kind(&self) -> (k: NodeKind)
        ensures
            k == self@.kind(),
    {
        match self {
            Node::Program { .. } => NodeKind::Program,
            Node::ClassBody { .. } => NodeKind::ClassBody,
            Node::NumericLiteral { .. } => NodeKind::NumericLiteral,
        }
    }
}

/// The number of nodes in the tree rooted at `n`.
pub fn node_count(n: &Node) -> (c: u64)
    requires
        node_size(n@) <= u64::MAX,
    ensures
        c == node_size(n@),
    decreases node_size(n@),
{
    match n {
        Node::NumericLiteral { .. } => 1,
        Node::Program { children } | Node::ClassBody { children } => {
            let ghost cs = n@.children();
            let mut c: u64 = 1;
            let mut i: usize = 0;
            proof {
                lemma_forest_view(children@);
            }
            while i < children.len()
                invariant
                    i <= children.len(),
                    cs.len() == children@.len(),
                    forall|j: int| 0 <= j < cs.len() ==> cs[j] == node_view(children@[j]),
                    node_size(n@) == 1 + forest_size(cs),
                    node_size(n@) <= u64::MAX,
                    c == 1 + forest_size(cs.take(i as int)),
                decreases children.len() - i,
            {
                proof {
                    lemma_forest_size_take_step(cs, i as int);
                    lemma_forest_prefix_size(cs, i + 1 as int);
                    lemma_forest_member_size(cs, i as int);
                }
                let d = node_count(&children[i]);
                c = c + d;
                i = i + 1;
            }
            proof {
                lemma_forest_size_take_all(cs);
            }
            c
        },
    }
}

/// A forest's size splits at any point into the prefix's and the rest's.
pub proof fn lemma_forest_size_split(s: Seq<NodeV>, i: int)
    requires
        0 <= i <= s.len(),
    ensures
        forest_size(s) == forest_size(s.take(i)) + forest_size(s.skip(i)),
    decreases s.len() - i,
{
    if i == s.len() {
        assert(s.take(i) =~= s);
        assert(s.skip(i) =~= Seq::<NodeV>::empty());
    } else {
        lemma_forest_size_split(s, i + 1);
        lemma_forest_size_take_step(s, i);
        assert(s.skip(i).drop_first() =~= s.skip(i + 1));
        lemma_forest_skip_step(s, i);
    }
}

/// Dropping the first tree of a forest's tail removes exactly that tree's
/// size.
pub proof fn lemma_forest_skip_step(s: Seq<NodeV>, i: int)
    requires
        0 <= i < s.len(),
    ensures
        forest_size(s.skip(i)) == node_size(s[i]) + forest_size(s.skip(i + 1)),
    decreases s.len(),
{
    if i == s.len() - 1 {
        assert(s.skip(i) =~= seq![s[i]]);
        assert(s.skip(i + 1) =~= Seq::<NodeV>::empty());
        assert(seq![s[i]].drop_last() =~= Seq::<NodeV>::empty());
    } else {
        let sdl = s.drop_last();
        assert(s.skip(i).drop_last() =~= sdl.skip(i));
        assert(s.skip(i).last() == s.last());
        lemma_forest_skip_step(sdl, i);
        assert(sdl[i] == s[i]);
        assert(sdl.skip(i + 1) =~= s.skip(i + 1).drop_last());
        assert(s.skip(i + 1).last() == s.last());
    }
}

/// A prefix of a forest is no larger than the whole forest.
pub proof fn lemma_forest_prefix_size(s: Seq<NodeV>, i: int)
    requires
        0 <= i <= s.len(),
    ensures
        forest_size(s.take(i)) <= forest_size(s),
    decreases s.len() - i,
{
    if i < s.len() {
        lemma_forest_size_take_step(s, i);
        lemma_forest_prefix_size(s, i + 1);
        lemma_node_size_pos(s[i]);
        assert(s.take(s.len() as int) =~= s);
    } else {
        assert(s.take(i) =~= s);
    }
}

} // verus!
