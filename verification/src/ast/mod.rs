//! The syntax tree of a TRX project: diagrams of nested layers, nodes and
//! connections, and the packet, state-machine, XY-chart and SQL-table
//! declarations beside them.
//!
//! Node geometry (position and size) is computed by the floating-point
//! layout around the library; the tree here holds what the source declares.
//! Number literals are kept as the text they were written with.

pub mod element;
pub mod style;
pub mod style_buffer;

pub use crate::ast::element::{Id, ShapeKind};

use vstd::prelude::*;
use crate::text::{owned, str_eq};
use crate::textmap::TextMap;

verus! {

/// A whole TRX source: its diagrams and declarations, the `let` variables and
/// the style classes declared in diagrams.
#[derive(Debug)]
pub struct Project {
    pub diagrams: Vec<NamedDiagram>,
    pub packets: Vec<PacketDeclaration>,
    pub states: Vec<StateDeclaration>,
    pub xys: Vec<XyDeclaration>,
    pub sqltables: Vec<SqlTableDeclaration>,
    pub variables: TextMap<Expression>,
    pub classes: TextMap<TextMap<String>>,
}

/// Whether a diagram is shown in a scenario: it belongs to that scenario, or
/// to none.
pub open spec fn shown_in(d: NamedDiagram, scenario: Seq<char>) -> bool {
    match d.scenario {
        Some(s) => s@ == scenario,
        None => true,
    }
}

impl Project {
    /// Keeps the diagrams shown in `scenario`, in order; the rest of the
    /// project is left as it was.
    pub fn retain_scenario(&mut self, scenario: &str)
        ensures
            final(self).diagrams@ == old(self).diagrams@.filter(|d: NamedDiagram| shown_in(d, scenario@)),
            final(self).packets == old(self).packets,
            final(self).states == old(self).states,
            final(self).xys == old(self).xys,
            final(self).sqltables == old(self).sqltables,
            final(self).variables == old(self).variables,
            final(self).classes == old(self).classes,
    {
        let mut rest: Vec<NamedDiagram> = Vec::new();
        std::mem::swap(&mut rest, &mut self.diagrams);
        let ghost all = rest@;
        let ghost f = |d: NamedDiagram| shown_in(d, scenario@);
        let mut kept: Vec<NamedDiagram> = Vec::new();
        let mut i: usize = 0;
        proof {
            reveal(Seq::filter);
            assert(all.take(0).filter(f) =~= Seq::<NamedDiagram>::empty());
            assert(all.len() == rest.len());
        }
        while rest.len() > 0
            invariant
                all.len() <= usize::MAX,
                f == (|d: NamedDiagram| shown_in(d, scenario@)),
                i + rest@.len() == all.len(),
                rest@ == all.skip(i as int),
                kept@ == all.take(i as int).filter(f),
            decreases rest@.len(),
        {
            let d = rest.remove(0);
            let keep = match &d.scenario {
                Some(s) => str_eq(s.as_str(), scenario),
                None => true,
            };
            proof {
                reveal(Seq::filter);
                assert(d == all[i as int]);
                assert(all.take(i + 1).drop_last() =~= all.take(i as int));
                assert(all.take(i + 1).last() == d);
                assert(rest@ =~= all.skip(i + 1));
                assert(keep == shown_in(d, scenario@));
                assert(f(d) == keep);
            }
            if keep {
                kept.push(d);
            }
            i = i + 1;
        }
        proof {
            assert(all.take(i as int) =~= all);
        }
        self.diagrams = kept;
    }

    /// A project with nothing in it.
    pub fn empty() -> (p: Self)
        ensures
            p.diagrams@.len() == 0,
            p.packets@.len() == 0,
            p.states@.len() == 0,
            p.xys@.len() == 0,
            p.sqltables@.len() == 0,
            p.variables@ == Map::<Seq<char>, Expression>::empty(),
            p.classes@ == Map::<Seq<char>, TextMap<String>>::empty(),
            p.variables.key_seq().len() == 0,
            p.classes.key_seq().len() == 0,
    {
        Project {
            diagrams: Vec::new(),
            packets: Vec::new(),
            states: Vec::new(),
            xys: Vec::new(),
            sqltables: Vec::new(),
            variables: TextMap::new(),
            classes: TextMap::new(),
        }
    }
}

impl Default for Project {
    fn default() -> (p: Self)
        ensures
            p.diagrams@.len() == 0,
            p.packets@.len() == 0,
            p.states@.len() == 0,
            p.xys@.len() == 0,
            p.sqltables@.len() == 0,
            p.variables@ == Map::<Seq<char>, Expression>::empty(),
            p.classes@ == Map::<Seq<char>, TextMap<String>>::empty(),
    {
        Project::empty()
    }
}

/// One column of a SQL table.
#[derive(Debug, Clone)]
pub struct SqlField {
    pub name: String,
    pub field_type: String,
    pub is_pk: bool,
    pub is_fk: bool,
    pub fk_ref: Option<String>,
}

/// A `sqltable` declaration.
#[derive(Debug, Clone)]
pub struct SqlTableDeclaration {
    pub name: String,
    pub fields: Vec<SqlField>,
}

/// One bit range of a packet.
#[derive(Debug, Clone)]
pub struct PacketField {
    pub range: String,
    pub name: String,
    pub field_type: String,
}

/// A `packet` declaration.
#[derive(Debug, Clone)]
pub struct PacketDeclaration {
    pub name: String,
    pub size: String,
    pub fields: Vec<PacketField>,
    pub constraint: Option<String>,
}

/// One transition of a state machine.
#[derive(Debug, Clone)]
pub struct StateTransition {
    pub from: String,
    pub to: String,
    pub trigger: Option<String>,
}

/// A `state` declaration.
#[derive(Debug, Clone)]
pub struct StateDeclaration {
    pub name: String,
    pub transitions: Vec<StateTransition>,
}

/// An `xy` chart declaration.
#[derive(Debug, Clone)]
pub struct XyDeclaration {
    pub name: String,
    pub x_axis: String,
    pub y_axis: String,
    pub data: String,
}

/// A diagram: its root layer, its connections and the scenario it belongs to.
#[derive(Debug)]
pub struct NamedDiagram {
    pub name: String,
    pub root: Layer,
    pub connections: Vec<Connection>,
    /// Scenario this diagram is shown in, if any
    pub scenario: Option<String>,
}

impl NamedDiagram {
    /// An empty diagram whose root layer is called `root`.
    pub fn new(name: String) -> (d: Self)
        ensures
            d.name@ == name@,
            d.root.id@ == seq!['r', 'o', 'o', 't'],
            d.root.nodes@.len() == 0,
            d.root.layers@.len() == 0,
            d.connections@.len() == 0,
            d.scenario is None,
    {
        let root_id = owned("root");
        proof {
            reveal_strlit("root");
        }
        NamedDiagram {
            name,
            root: Layer { id: root_id, nodes: Vec::new(), layers: Vec::new() },
            connections: Vec::new(),
            scenario: None,
        }
    }
}

/// A layer: nodes, and the layers nested in it.
#[derive(Debug)]
pub struct Layer {
    pub id: String,
    pub nodes: Vec<Node>,
    pub layers: Vec<Layer>,
}

/// A node as declared: identity, class, label, shape, numeric properties
/// (expressions) and textual attributes.
#[derive(Debug)]
pub struct Node {
    pub id: String,
    pub class: Option<String>,
    pub label: Option<String>,
    pub kind: ShapeKind,
    pub properties: TextMap<Expression>,
    pub attributes: TextMap<String>,
}

/// A connection between two nodes.
#[derive(Debug)]
pub struct Connection {
    pub from: String,
    pub to: String,
    pub arrow: String,
    pub label: Option<String>,
    pub attributes: TextMap<String>,
}

/// An expression of the inline math language. Number literals keep the text
/// they were written with (`1.0`, `10`); a quantity with a unit keeps its
/// numeric text and its unit apart.
#[derive(Debug, PartialEq)]
pub enum Expression {
    Number(String),
    String(String),
    Boolean(bool),
    Unit(String, String),
    VariableRef(String),
    PropertyRef(String, String),
    BinaryOp(Box<Expression>, String, Box<Expression>),
    UnaryOp(String, Box<Expression>),
    FunctionCall { name: String, args: Vec<Expression> },
}

/// The meaning of an [`Expression`], with text as character sequences.
pub enum ExprView {
    Number(Seq<char>),
    String(Seq<char>),
    Boolean(bool),
    Unit(Seq<char>, Seq<char>),
    VariableRef(Seq<char>),
    PropertyRef(Seq<char>, Seq<char>),
    BinaryOp(Box<ExprView>, Seq<char>, Box<ExprView>),
    UnaryOp(Seq<char>, Box<ExprView>),
    FunctionCall { name: Seq<char>, args: Seq<ExprView> },
}

/// The view of an expression.
pub open spec fn expr_view(e: Expression) -> ExprView
    decreases e, 0nat,
{
    match e {
        Expression::Number(n) => ExprView::Number(n@),
        Expression::String(s) => ExprView::String(s@),
        Expression::Boolean(b) => ExprView::Boolean(b),
        Expression::Unit(n, u) => ExprView::Unit(n@, u@),
        Expression::VariableRef(v) => ExprView::VariableRef(v@),
        Expression::PropertyRef(a, b) => ExprView::PropertyRef(a@, b@),
        Expression::BinaryOp(l, op, r) => ExprView::BinaryOp(Box::new(expr_view(*l)), op@, Box::new(expr_view(*r))),
        Expression::UnaryOp(op, x) => ExprView::UnaryOp(op@, Box::new(expr_view(*x))),
        Expression::FunctionCall { name, args } => ExprView::FunctionCall { name: name@, args: exprs_view(args@) },
    }
}

/// The views of a list of expressions.
pub open spec fn exprs_view(es: Seq<Expression>) -> Seq<ExprView>
    decreases es, 1nat,
{
    if es.len() == 0 {
        Seq::empty()
    } else {
        exprs_view(es.drop_last()).push(expr_view(es.last()))
    }
}

} // verus!
