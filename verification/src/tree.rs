//! The parse tree model: grammar rules, parse nodes, and their
//! mathematical view.

use vstd::prelude::*;

verus! {

broadcast use vstd::std_specs::vec::group_vec_axioms;

/// The closed set of lexical productions of the `.pbxproj` grammar.
#[derive(Clone, Copy, PartialEq, Eq, Structural, Debug)]
pub enum GrammarRule {
    File,
    LineComment,
    BlockComment,
    QuotedString,
    UnquotedString,
    Array,
    Dictionary,
    DictionaryEntry,
}

/// Mathematical model of a parse node: the rule that produced it, the
/// half-open byte span it matched, and its children in document order.
#[verifier::ext_equal]
pub ghost struct NodeView {
    pub rule: GrammarRule,
    pub start: int,
    pub end: int,
    pub children: Seq<NodeView>,
}

impl NodeView {
    /// A node is a leaf when it has no children.
    pub open spec fn is_leaf(self) -> bool {
        self.children.len() == 0
    }

    /// Well-formedness: the span is ordered and every child lies inside the
    /// parent's span, children are sorted by start and pairwise
    /// non-overlapping, every node matched at least one byte, and all
    /// children are recursively well-formed.
    pub open spec fn wf(self) -> bool
        decreases self,
    {
        &&& self.start < self.end
        &&& forall|i: int|
            0 <= i < self.children.len() ==> {
                &&& (#[trigger] self.children[i]).wf()
                &&& self.start <= self.children[i].start
                &&& self.children[i].end <= self.end
            }
        &&& forall|i: int, j: int|
            0 <= i < j < self.children.len() ==> (#[trigger] self.children[i]).end <= (
            #[trigger] self.children[j]).start
    }
}

/// A node of the parse tree: one matched grammar rule, the half-open byte
/// span `(start, end)` it matched in the source, and its sub-matches in
/// left-to-right source order. A node with no children is a leaf and is the
/// only kind of node whose span text is directly interpretable.
#[derive(Debug)]
pub struct ParseNode {
    pub rule: GrammarRule,
    pub start: usize,
    pub end: usize,
    pub children: Vec<ParseNode>,
}

/// The mathematical tree that a `ParseNode` stands for.
pub open spec fn node_view(n: ParseNode) -> NodeView
    decreases n, 1int,
{
    proof {
        assert(decreases_to!(n => n.children));
        assert(decreases_to!(n.children => n.children@));
    }
    NodeView {
        rule: n.rule,
        start: n.start as int,
        end: n.end as int,
        children: views_of(n.children@),
    }
}

/// The views of a sequence of parse nodes, element by element.
pub open spec fn views_of(s: Seq<ParseNode>) -> Seq<NodeView>
    decreases s, 0int,
{
    if s.len() == 0 {
        Seq::empty()
    } else {
        views_of(s.drop_last()).push(node_view(s.last()))
    }
}

/// `views_of` maps the sequence pointwise.
pub proof fn lemma_views_of(s: Seq<ParseNode>)
    ensures
        views_of(s).len() == s.len(),
        forall|i: int| 0 <= i < s.len() ==> views_of(s)[i] == node_view(s[i]),
    decreases s.len(),
{
    if s.len() > 0 {
        lemma_views_of(s.drop_last());
    }
}

impl View for ParseNode {
    type V = NodeView;

    open spec fn view(&self) -> NodeView {
        node_view(*self)
    }
}

impl ParseNode {
    /// The grammar rule that produced this node.
    pub fn rule(&self) -> (r: GrammarRule)
        ensures
            r == self@.rule,
    {
        self.rule
    }

    /// The half-open byte span this node matched.
    pub fn span(&self) -> (r: (usize, usize))
        ensures
            r.0 == self@.start,
            r.1 == self@.end,
    {
        (self.start, self.end)
    }

    /// The source text this node matched. Only a leaf's text is directly
    /// interpretable.
    pub fn text<'a>(&self, source: &'a [u8]) -> (r: &'a [u8])
        requires
            self.start <= self.end <= source@.len(),
        ensures
            r@ == source@.subrange(self@.start, self@.end),
    {
        &source[self.start..self.end]
    }

    /// The sub-matches of this node, in document order.
    pub fn children(&self) -> (r: &Vec<ParseNode>)
        ensures
            r@.len() == self@.children.len(),
            forall|i: int| 0 <= i < r@.len() ==> (#[trigger] r@[i])@ == self@.children[i],
    {
        proof {
            lemma_views_of(self.children@);
        }
        &self.children
    }
}

} // verus!
