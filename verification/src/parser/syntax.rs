//! The syntax tree of TRX source text: each node records the grammar rule
//! it was read by, the text it spans, and the nodes it is made of.

use vstd::prelude::*;

verus! {

/// The grammar rules of the TRX language.
#[derive(Debug, Clone, Copy, PartialEq, Eq, Structural)]
pub enum Rule {
    File,
    VariableDecl,
    Diagram,
    DiagramName,
    ScenarioDecl,
    StyleDecl,
    StyleBody,
    LayerBlock,
    Connection,
    Arrow,
    AttrArrow,
    NodeDecl,
    Attributes,
    Attribute,
    AttrKey,
    AttrValue,
    PropertyBlock,
    Property,
    MathExpression,
    MathTerm,
    Operator,
    FunctionCall,
    PropertyRef,
    Identifier,
    Number,
    NumberWithUnit,
    StringLiteral,
    PacketDecl,
    PacketAttrs,
    PacketStmts,
    PacketField,
    BitRange,
    PacketConstraint,
    StateDecl,
    StateStmts,
    StateTransition,
    StateRef,
    Trigger,
    XyDecl,
    XyStmts,
    XyProp,
    RawValue,
    SqltableDecl,
    SqltableField,
    PkFk,
    SqlType,
}

/// A node of the syntax tree: the rule that read it, the text it spans,
/// where that text starts and ends in the source (counted in characters),
/// and the nodes it is made of.
#[derive(Debug)]
pub struct Pair {
    pub rule: Rule,
    pub text: String,
    pub children: Vec<Pair>,
    pub start: usize,
    pub end: usize,
}

/// The nodes among the first `k` of `cs` that were read by rule `r`, in
/// order.
pub open spec fn with_rule(cs: Seq<Pair>, r: Rule, k: int) -> Seq<Pair>
    decreases k,
{
    if k <= 0 {
        Seq::empty()
    } else if cs[k - 1].rule == r {
        with_rule(cs, r, k - 1).push(cs[k - 1])
    } else {
        with_rule(cs, r, k - 1)
    }
}

/// The nodes of `cs` that were read by rule `r`, in order.
pub open spec fn all_with_rule(cs: Seq<Pair>, r: Rule) -> Seq<Pair> {
    with_rule(cs, r, cs.len() as int)
}

/// Every node of `cs` read by rule `r` has at least `n` children.
pub open spec fn children_at_least(cs: Seq<Pair>, r: Rule, n: nat) -> bool {
    forall|i: int| 0 <= i < cs.len() && (#[trigger] cs[i]).rule == r ==> cs[i].children@.len() >= n
}

impl Pair {
    /// The rule this node was read by.
    pub fn as_rule(&self) -> (r: Rule)
        ensures
            r == self.rule,
    {
        self.rule
    }

    /// The text this node spans.
    pub fn as_str(&self) -> (s: &str)
        ensures
            s@ == self.text@,
    {
        self.text.as_str()
    }
}

} // verus!
