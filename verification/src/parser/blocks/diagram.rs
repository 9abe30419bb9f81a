//! Diagrams: nodes, nested layers, connections, style classes and the
//! scenario a diagram belongs to.

use vstd::prelude::*;
use crate::ast::{Connection, ExprView, Layer, NamedDiagram, Node, ShapeKind, expr_view};
use crate::parser::error::ParseError;
use crate::parser::expressions::{expr_meaning, expr_shaped, parse_math_expr_stable};
use crate::parser::syntax::{Pair, Rule};
use crate::preprocess::{find_char_in, index_of_char, lemma_index_of_char};
use crate::text::{chars_of, owned, strip_both, string_from_range, trim, trim_bounds, trim_matches_char, trim_text};
use crate::textmap::TextMap;

verus! {

/// The text view of a text-to-text map.
pub open spec fn text_map_view(m: TextMap<String>) -> Map<Seq<char>, Seq<char>> {
    m@.map_values(|v: String| v@)
}

/// The expression view of a text-to-expression map.
pub open spec fn expr_map_view(m: TextMap<crate::ast::Expression>) -> Map<Seq<char>, ExprView> {
    m@.map_values(|e: crate::ast::Expression| expr_view(e))
}

/// The map that `key: value` nodes give over `base`: each sets its key to
/// its value (empty when it has none); later ones win.
pub open spec fn kv_fold(base: Map<Seq<char>, Seq<char>>, kvs: Seq<Pair>) -> Map<Seq<char>, Seq<char>>
    decreases kvs.len(),
{
    if kvs.len() == 0 {
        base
    } else {
        let last = kvs.last();
        let v = if last.children@.len() > 1 { last.children@[1].text@ } else { Seq::empty() };
        kv_fold(base, kvs.drop_last()).insert(last.children@[0].text@, v)
    }
}

/// Every `key: value` node has its key.
pub open spec fn kvs_shaped(kvs: Seq<Pair>) -> bool {
    forall|i: int| 0 <= i < kvs.len() ==> (#[trigger] kvs[i]).children@.len() >= 1
}

/// A bracket group written as one bare word, as in `Client[Browser]`: it
/// names the node's label rather than an attribute.
pub open spec fn is_label_group(g: Pair) -> bool {
    &&& g.rule == Rule::Attributes
    &&& g.children@.len() == 1
    &&& g.children@[0].children@.len() == 1
}

/// The label that the last bare-word bracket group among `items[1..k]`
/// names.
pub open spec fn item_label(items: Seq<Pair>, k: int) -> Option<Seq<char>>
    decreases k,
{
    if k <= 1 {
        None
    } else if is_label_group(items[k - 1]) {
        Some(items[k - 1].children@[0].children@[0].text@)
    } else {
        item_label(items, k - 1)
    }
}

/// The attributes that the attribute lists among `items[1..k]` give; a
/// bare-word group gives the label instead.
pub open spec fn item_attrs(items: Seq<Pair>, k: int) -> Map<Seq<char>, Seq<char>>
    decreases k,
{
    if k <= 1 {
        Map::empty()
    } else if items[k - 1].rule == Rule::Attributes && !is_label_group(items[k - 1]) {
        kv_fold(item_attrs(items, k - 1), items[k - 1].children@)
    } else {
        item_attrs(items, k - 1)
    }
}

/// The class that the last identifier among `items[1..k]` names.
pub open spec fn item_class(items: Seq<Pair>, k: int) -> Option<Seq<char>>
    decreases k,
{
    if k <= 1 {
        None
    } else if items[k - 1].rule == Rule::Identifier {
        Some(items[k - 1].text@)
    } else {
        item_class(items, k - 1)
    }
}

/// The map that property nodes give over `base`.
pub open spec fn prop_fold(base: Map<Seq<char>, ExprView>, props: Seq<Pair>) -> Map<Seq<char>, ExprView>
    decreases props.len(),
{
    if props.len() == 0 {
        base
    } else {
        let last = props.last();
        prop_fold(base, props.drop_last()).insert(last.children@[0].text@, expr_meaning(last.children@[1]))
    }
}

/// The properties that the property blocks among `items[1..k]` give.
pub open spec fn item_props(items: Seq<Pair>, k: int) -> Map<Seq<char>, ExprView>
    decreases k,
{
    if k <= 1 {
        Map::empty()
    } else if items[k - 1].rule == Rule::PropertyBlock {
        prop_fold(item_props(items, k - 1), items[k - 1].children@)
    } else {
        item_props(items, k - 1)
    }
}

/// Every property node has a key and a shaped expression.
pub open spec fn props_shaped(props: Seq<Pair>) -> bool {
    forall|i: int| 0 <= i < props.len() ==> (#[trigger] props[i]).children@.len() >= 2 && expr_shaped(props[i].children@[1])
}

/// The parts of a node declaration that its reader takes apart are there.
pub open spec fn node_shaped(p: Pair) -> bool {
    forall|i: int| 1 <= i < p.children@.len() ==> {
        &&& (#[trigger] p.children@[i]).rule == Rule::Attributes ==> kvs_shaped(p.children@[i].children@)
        &&& p.children@[i].rule == Rule::PropertyBlock ==> props_shaped(p.children@[i].children@)
    }
}

/// What a node declaration reads as: the trimmed identifier, the class the
/// last identifier after it names, the label a bare-word bracket group
/// names, the attributes and properties it lists, a box.
pub open spec fn node_denotes(p: Pair, n: Node) -> bool {
    let cs = p.children@;
    &&& n.id@ == trim_text(cs[0].text@)
    &&& match item_class(cs, cs.len() as int) {
        Some(c) => n.class matches Some(t) && t@ == c,
        None => n.class is None,
    }
    &&& match item_label(cs, cs.len() as int) {
        Some(l) => n.label matches Some(t) && t@ == l,
        None => n.label is None,
    }
    &&& n.kind == ShapeKind::Box
    &&& text_map_view(n.attributes) == item_attrs(cs, cs.len() as int)
    &&& expr_map_view(n.properties) == item_props(cs, cs.len() as int)
}

/// The attributes of an attributed arrow: those its attribute lists give.
pub open spec fn arrow_attrs(arrow: Pair) -> Map<Seq<char>, Seq<char>> {
    if arrow.rule == Rule::AttrArrow {
        arrow_attr_fold(arrow.children@, arrow.children@.len() as int)
    } else {
        Map::empty()
    }
}

/// The attributes that the attribute lists among the first `k` children
/// of an arrow give.
pub open spec fn arrow_attr_fold(cs: Seq<Pair>, k: int) -> Map<Seq<char>, Seq<char>>
    decreases k,
{
    if k <= 0 {
        Map::empty()
    } else if cs[k - 1].rule == Rule::Attributes {
        kv_fold(arrow_attr_fold(cs, k - 1), cs[k - 1].children@)
    } else {
        arrow_attr_fold(cs, k - 1)
    }
}

/// The parts of a connection that its reader takes apart are there.
pub open spec fn connection_shaped(p: Pair) -> bool {
    &&& p.children@.len() >= 3
    &&& p.children@[1].rule == Rule::AttrArrow ==> forall|i: int| 0 <= i < p.children@[1].children@.len()
        && (#[trigger] p.children@[1].children@[i]).rule == Rule::Attributes ==> kvs_shaped(p.children@[1].children@[i].children@)
}

/// What a connection reads as: from, arrow and to as written, the label
/// without its quotes, and the attributes of an attributed arrow.
pub open spec fn connection_denotes(p: Pair, c: Connection) -> bool {
    let cs = p.children@;
    &&& c.from@ == cs[0].text@
    &&& c.arrow@ == cs[1].text@
    &&& c.to@ == cs[2].text@
    &&& if cs.len() > 3 {
        c.label matches Some(l) && l@ == strip_both(cs[3].text@, |x: char| x == '"')
    } else {
        c.label is None
    }
    &&& text_map_view(c.attributes) == arrow_attrs(cs[1])
}

pub proof fn lemma_map_values_insert<V, W>(m: Map<Seq<char>, V>, k: Seq<char>, v: V, f: spec_fn(V) -> W)
    ensures
        m.insert(k, v).map_values(f) == m.map_values(f).insert(k, f(v)),
{
    assert(m.insert(k, v).map_values(f) =~= m.map_values(f).insert(k, f(v)));
}

/// Sets each `key: value` of an attribute list in `attrs`.
fn add_kvs(attrs: &mut TextMap<String>, kvs: &Vec<Pair>)
    requires
        kvs_shaped(kvs@),
    ensures
        text_map_view(*final(attrs)) == kv_fold(text_map_view(*old(attrs)), kvs@),
{
    let mut i: usize = 0;
    while i < kvs.len()
        invariant
            i <= kvs@.len(),
            kvs_shaped(kvs@),
            text_map_view(*attrs) == kv_fold(text_map_view(*old(attrs)), kvs@.take(i as int)),
        decreases kvs@.len() - i,
    {
        let kv = &kvs[i];
        let key = kv.children[0].text.clone();
        let val = if kv.children.len() > 1 {
            kv.children[1].text.clone()
        } else {
            String::new()
        };
        let ghost before = *attrs;
        attrs.insert(key, val);
        proof {
            assert(kvs@.take(i + 1).drop_last() == kvs@.take(i as int));
            assert(kvs@.take(i + 1).last() == kv);
            lemma_map_values_insert(before@, key@, val, |v: String| v@);
        }
        i = i + 1;
    }
    proof {
        assert(kvs@.take(kvs@.len() as int) == kvs@);
    }
}

/// Sets each property of a property block.
fn add_props(props: &mut TextMap<crate::ast::Expression>, items: &Vec<Pair>) -> (r: Result<(), ParseError>)
    requires
        props_shaped(items@),
    ensures
        r is Ok,
        expr_map_view(*final(props)) == prop_fold(expr_map_view(*old(props)), items@),
{
    let mut i: usize = 0;
    while i < items.len()
        invariant
            i <= items@.len(),
            props_shaped(items@),
            expr_map_view(*props) == prop_fold(expr_map_view(*old(props)), items@.take(i as int)),
        decreases items@.len() - i,
    {
        let prop = &items[i];
        let key = prop.children[0].text.clone();
        let expr = parse_math_expr_stable(&prop.children[1])?;
        let ghost before = *props;
        props.insert(key, expr);
        proof {
            assert(items@.take(i + 1).drop_last() == items@.take(i as int));
            assert(items@.take(i + 1).last() == prop);
            lemma_map_values_insert(before@, key@, expr, |e: crate::ast::Expression| expr_view(e));
        }
        i = i + 1;
    }
    proof {
        assert(items@.take(items@.len() as int) == items@);
    }
    Ok(())
}

fn parse_node(pair: &Pair) -> (r: Result<Node, ParseError>)
    requires
        node_shaped(*pair),
    ensures
        pair.children@.len() == 0 ==> r matches Err(ParseError::MissingId),
        pair.children@.len() > 0 ==> (r matches Ok(n) && node_denotes(*pair, n)),
{
    if pair.children.len() == 0 {
        return Err(ParseError::MissingId);
    }
    let id = trim(pair.children[0].text.as_str());
    let cs = &pair.children;
    let mut attributes: TextMap<String> = TextMap::new();
    let mut properties: TextMap<crate::ast::Expression> = TextMap::new();
    let mut class: Option<String> = None;
    let mut label: Option<String> = None;
    proof {
        assert(text_map_view(attributes) =~= Map::<Seq<char>, Seq<char>>::empty());
        assert(expr_map_view(properties) =~= Map::<Seq<char>, ExprView>::empty());
    }
    let mut i: usize = 1;
    while i < cs.len()
        invariant
            1 <= i <= cs@.len(),
            cs@ == pair.children@,
            node_shaped(*pair),
            text_map_view(attributes) == item_attrs(cs@, i as int),
            expr_map_view(properties) == item_props(cs@, i as int),
            match item_class(cs@, i as int) {
                Some(c) => class matches Some(t) && t@ == c,
                None => class is None,
            },
            match item_label(cs@, i as int) {
                Some(l) => label matches Some(t) && t@ == l,
                None => label is None,
            },
        decreases cs@.len() - i,
    {
        let item = &cs[i];
        if item.rule == Rule::Identifier {
            class = Some(item.text.clone());
        } else if item.rule == Rule::Attributes && item.children.len() == 1 && item.children[0].children.len() == 1 {
            label = Some(item.children[0].children[0].text.clone());
        } else if item.rule == Rule::Attributes {
            add_kvs(&mut attributes, &item.children);
        } else if item.rule == Rule::PropertyBlock {
            add_props(&mut properties, &item.children)?;
        }
        i = i + 1;
    }
    Ok(Node { id, class, label, kind: ShapeKind::Box, properties, attributes })
}

fn parse_connection(pair: &Pair) -> (r: Result<Connection, ParseError>)
    requires
        connection_shaped(*pair),
    ensures
        r matches Ok(c) && connection_denotes(*pair, c),
{
    let cs = &pair.children;
    let from = cs[0].text.clone();
    let arrow_pair = &cs[1];
    let arrow = arrow_pair.text.clone();
    let mut attributes: TextMap<String> = TextMap::new();
    proof {
        assert(text_map_view(attributes) =~= Map::<Seq<char>, Seq<char>>::empty());
    }
    if arrow_pair.rule == Rule::AttrArrow {
        let acs = &arrow_pair.children;
        let mut j: usize = 0;
        while j < acs.len()
            invariant
                j <= acs@.len(),
                acs@ == pair.children@[1].children@,
                connection_shaped(*pair),
                pair.children@[1].rule == Rule::AttrArrow,
                text_map_view(attributes) == arrow_attr_fold(acs@, j as int),
            decreases acs@.len() - j,
        {
            if acs[j].rule == Rule::Attributes {
                add_kvs(&mut attributes, &acs[j].children);
            }
            j = j + 1;
        }
    }
    let to = cs[2].text.clone();
    let label = if cs.len() > 3 {
        Some(trim_matches_char(cs[3].text.as_str(), '"'))
    } else {
        None
    };
    Ok(Connection { from, to, arrow, label, attributes })
}

/// What one `;`-separated statement of a style body sets over `m`: once
/// trimmed, a statement with a `:` sets the trimmed text before its first
/// `:` to the trimmed text after it; any other statement sets nothing.
pub open spec fn style_stmt(m: Map<Seq<char>, Seq<char>>, stmt: Seq<char>) -> Map<Seq<char>, Seq<char>> {
    let t = trim_text(stmt);
    let i = index_of_char(t, ':');
    if i < 0 {
        m
    } else {
        m.insert(trim_text(t.take(i)), trim_text(t.skip(i + 1)))
    }
}

/// What the statements of `body` from position `p` on set over `m`, read
/// from left to right; statements are separated by `;`.
pub open spec fn style_from(m: Map<Seq<char>, Seq<char>>, body: Seq<char>, p: int) -> Map<Seq<char>, Seq<char>>
    decreases body.len() - p,
{
    if p < 0 || p > body.len() {
        m
    } else {
        let rest = body.skip(p);
        let i = index_of_char(rest, ';');
        if i < 0 {
            style_stmt(m, rest)
        } else {
            proof {
                lemma_index_of_char(rest, ';');
            }
            style_from(style_stmt(m, rest.take(i)), body, p + i + 1)
        }
    }
}

/// The attributes a style body sets.
pub open spec fn style_attrs(body: Seq<char>) -> Map<Seq<char>, Seq<char>> {
    style_from(Map::empty(), body, 0)
}

/// Applies the style statement `cs[a..b)` to `attrs`.
fn apply_style_stmt(attrs: &mut TextMap<String>, cs: &Vec<char>, a: usize, b: usize)
    requires
        a <= b <= cs@.len(),
    ensures
        text_map_view(*final(attrs)) == style_stmt(text_map_view(*old(attrs)), cs@.subrange(a as int, b as int)),
{
    let (ta, tb) = trim_bounds(cs.as_slice(), a, b);
    let ghost t = trim_text(cs@.subrange(a as int, b as int));
    match find_char_in(cs.as_slice(), ta, tb, ':') {
        Some(j) => {
            proof {
                lemma_index_of_char(t, ':');
            }
            let (ka, kb) = trim_bounds(cs.as_slice(), ta, ta + j);
            let (va, vb) = trim_bounds(cs.as_slice(), ta + j + 1, tb);
            proof {
                assert(t.take(j as int) =~= cs@.subrange(ta as int, ta + j));
                assert(t.skip(j + 1) =~= cs@.subrange(ta + j + 1, tb as int));
            }
            let key = string_from_range(cs.as_slice(), ka, kb);
            let val = string_from_range(cs.as_slice(), va, vb);
            let ghost before = *attrs;
            attrs.insert(key, val);
            proof {
                lemma_map_values_insert(before@, key@, val, |v: String| v@);
            }
        },
        None => {},
    }
}

/// Reads the `;`-separated `key: value` statements of a style body.
fn parse_style_body(body: &str) -> (attrs: TextMap<String>)
    ensures
        text_map_view(attrs) == style_attrs(body@),
{
    let cs = chars_of(body);
    let mut attrs: TextMap<String> = TextMap::new();
    proof {
        assert(text_map_view(attrs) =~= Map::<Seq<char>, Seq<char>>::empty());
    }
    let mut p: usize = 0;
    loop
        invariant
            p <= cs@.len(),
            cs@ == body@,
            style_from(text_map_view(attrs), cs@, p as int) == style_attrs(body@),
        decreases cs@.len() - p,
    {
        let ghost rest = cs@.skip(p as int);
        proof {
            assert(rest =~= cs@.subrange(p as int, cs@.len() as int));
        }
        match find_char_in(cs.as_slice(), p, cs.len(), ';') {
            None => {
                apply_style_stmt(&mut attrs, &cs, p, cs.len());
                return attrs;
            },
            Some(i) => {
                proof {
                    lemma_index_of_char(rest, ';');
                    assert(rest.take(i as int) =~= cs@.subrange(p as int, p + i));
                }
                apply_style_stmt(&mut attrs, &cs, p, p + i);
                p = p + i + 1;
            },
        }
    }
}

/// The state that the statements of a diagram carry through its nested
/// layers: the style classes, the scenario, the connections met so far (in
/// reading order), and whether a node without an identifier stopped the
/// reading.
pub struct DiagramScan {
    pub classes: Map<Seq<char>, Map<Seq<char>, Seq<char>>>,
    pub scenario: Option<Seq<char>>,
    pub conns: Seq<Pair>,
    pub failed: bool,
}

/// What one statement does to the state: a scenario declaration sets the
/// scenario (without its quotes), a node without an identifier stops the
/// reading, a layer reads its own statements, a connection is met, a style
/// declaration sets its class to the attributes of its body.
pub open spec fn scan_stmt(st: DiagramScan, p: Pair) -> DiagramScan
    decreases p, 1nat, 0int,
{
    if p.rule == Rule::ScenarioDecl {
        DiagramScan {
            classes: st.classes,
            scenario: Some(strip_both(p.children@[0].text@, |x: char| x == '"')),
            conns: st.conns,
            failed: st.failed,
        }
    } else if p.rule == Rule::NodeDecl {
        DiagramScan { classes: st.classes, scenario: st.scenario, conns: st.conns, failed: p.children@.len() == 0 }
    } else if p.rule == Rule::LayerBlock {
        scan_stmts(st, p.children@, p.children@.len() as int)
    } else if p.rule == Rule::Connection {
        DiagramScan { classes: st.classes, scenario: st.scenario, conns: st.conns.push(p), failed: st.failed }
    } else if p.rule == Rule::StyleDecl {
        DiagramScan {
            classes: st.classes.insert(p.children@[0].text@, style_attrs(p.children@[1].text@)),
            scenario: st.scenario,
            conns: st.conns,
            failed: st.failed,
        }
    } else {
        st
    }
}

/// The state after the statements among `cs[1..k]`, read in order; the
/// reading stops where it failed.
pub open spec fn scan_stmts(st: DiagramScan, cs: Seq<Pair>, k: int) -> DiagramScan
    decreases cs, 0nat, k,
{
    if k <= 1 || k > cs.len() {
        st
    } else {
        let prev = scan_stmts(st, cs, k - 1);
        if prev.failed {
            prev
        } else {
            scan_stmt(prev, cs[k - 1])
        }
    }
}

/// The parts of a statement that its reader takes apart are there.
pub open spec fn stmt_shaped(p: Pair) -> bool
    decreases p, 1nat, 0int,
{
    &&& p.rule == Rule::ScenarioDecl ==> p.children@.len() >= 1
    &&& p.rule == Rule::StyleDecl ==> p.children@.len() >= 2
    &&& p.rule == Rule::NodeDecl ==> node_shaped(p)
    &&& p.rule == Rule::Connection ==> connection_shaped(p)
    &&& p.rule == Rule::LayerBlock ==> p.children@.len() >= 1 && stmts_shaped(p.children@, p.children@.len() as int)
}

/// The statements among `cs[1..k]` are shaped.
pub open spec fn stmts_shaped(cs: Seq<Pair>, k: int) -> bool
    decreases cs, 0nat, k,
{
    if k <= 1 || k > cs.len() {
        true
    } else {
        stmts_shaped(cs, k - 1) && stmt_shaped(cs[k - 1])
    }
}

/// A statement that reads without error: shaped, and every node in it has
/// its identifier.
pub open spec fn stmt_full(p: Pair) -> bool
    decreases p, 1nat, 0int,
{
    &&& p.rule == Rule::ScenarioDecl ==> p.children@.len() >= 1
    &&& p.rule == Rule::StyleDecl ==> p.children@.len() >= 2
    &&& p.rule == Rule::NodeDecl ==> node_shaped(p) && p.children@.len() >= 1
    &&& p.rule == Rule::Connection ==> connection_shaped(p)
    &&& p.rule == Rule::LayerBlock ==> p.children@.len() >= 1 && stmts_full(p.children@, p.children@.len() as int)
}

/// The statements among `cs[1..k]` read without error.
pub open spec fn stmts_full(cs: Seq<Pair>, k: int) -> bool
    decreases cs, 0nat, k,
{
    if k <= 1 || k > cs.len() {
        true
    } else {
        stmts_full(cs, k - 1) && stmt_full(cs[k - 1])
    }
}

/// A statement that reads without error is shaped, and leaves a state that
/// has not failed as it was.
pub proof fn lemma_stmt_full(st: DiagramScan, p: Pair)
    requires
        stmt_full(p),
        !st.failed,
    ensures
        stmt_shaped(p),
        !scan_stmt(st, p).failed,
    decreases p, 1nat, 0int,
{
    if p.rule == Rule::LayerBlock {
        lemma_stmts_full(st, p.children@, p.children@.len() as int);
    }
}

/// Statements that read without error are shaped, and do not fail.
pub proof fn lemma_stmts_full(st: DiagramScan, cs: Seq<Pair>, k: int)
    requires
        stmts_full(cs, k),
        !st.failed,
    ensures
        stmts_shaped(cs, k),
        !scan_stmts(st, cs, k).failed,
    decreases cs, 0nat, k,
{
    if k > 1 && k <= cs.len() {
        lemma_stmts_full(st, cs, k - 1);
        lemma_stmt_full(scan_stmts(st, cs, k - 1), cs[k - 1]);
    }
}

/// Statements each of which reads without error.
pub proof fn lemma_stmts_full_from_all(cs: Seq<Pair>, k: int)
    requires
        k <= cs.len(),
        forall|i: int| 1 <= i < k ==> stmt_full(#[trigger] cs[i]),
    ensures
        stmts_full(cs, k),
    decreases k,
{
    if k > 1 {
        lemma_stmts_full_from_all(cs, k - 1);
    }
}

/// The nodes and layers that the statements among `cs[1..k]` declare, in
/// order, as `nodes` and `layers` hold them.
pub open spec fn layer_items(cs: Seq<Pair>, k: int, nodes: Seq<Node>, layers: Seq<Layer>) -> bool
    decreases cs, 0nat, k,
{
    if k <= 1 || k > cs.len() {
        nodes.len() == 0 && layers.len() == 0
    } else if cs[k - 1].rule == Rule::NodeDecl {
        nodes.len() > 0 && node_denotes(cs[k - 1], nodes.last()) && layer_items(cs, k - 1, nodes.drop_last(), layers)
    } else if cs[k - 1].rule == Rule::LayerBlock {
        layers.len() > 0 && layer_denotes(cs[k - 1], layers.last()) && layer_items(cs, k - 1, nodes, layers.drop_last())
    } else {
        layer_items(cs, k - 1, nodes, layers)
    }
}

/// What a layer block reads as: its identifier as written, and the nodes
/// and layers its statements declare.
pub open spec fn layer_denotes(p: Pair, l: Layer) -> bool
    decreases p, 1nat, 0int,
{
    &&& p.children@.len() >= 1
    &&& l.id@ == p.children@[0].text@
    &&& layer_items(p.children@, p.children@.len() as int, l.nodes@, l.layers@)
}

/// What one statement adds to the layer it stands in.
pub open spec fn item_step(p: Pair, nodes0: Seq<Node>, layers0: Seq<Layer>, nodes1: Seq<Node>, layers1: Seq<Layer>) -> bool {
    if p.rule == Rule::NodeDecl {
        &&& layers1 == layers0
        &&& nodes1.len() == nodes0.len() + 1
        &&& nodes1.drop_last() == nodes0
        &&& node_denotes(p, nodes1.last())
    } else if p.rule == Rule::LayerBlock {
        &&& nodes1 == nodes0
        &&& layers1.len() == layers0.len() + 1
        &&& layers1.drop_last() == layers0
        &&& layer_denotes(p, layers1.last())
    } else {
        nodes1 == nodes0 && layers1 == layers0
    }
}

/// The style classes as maps of text.
pub open spec fn classes_view(m: TextMap<TextMap<String>>) -> Map<Seq<char>, Map<Seq<char>, Seq<char>>> {
    m@.map_values(|t: TextMap<String>| text_map_view(t))
}

/// An optional text as characters.
pub open spec fn opt_text(o: Option<String>) -> Option<Seq<char>> {
    match o {
        Some(s) => Some(s@),
        None => None,
    }
}

/// The connections are what the connection nodes read as, one for one.
pub open spec fn conns_denote(cs: Seq<Connection>, ps: Seq<Pair>) -> bool {
    &&& cs.len() == ps.len()
    &&& forall|i: int| 0 <= i < cs.len() ==> connection_denotes(#[trigger] ps[i], cs[i])
}

/// The classes, scenario and connections are those of the state.
pub open spec fn scan_agrees(st: DiagramScan, classes: TextMap<TextMap<String>>, scenario: Option<String>, conns: Seq<Connection>) -> bool {
    &&& classes_view(classes) == st.classes
    &&& opt_text(scenario) == st.scenario
    &&& conns_denote(conns, st.conns)
}

/// The state a diagram starts from, with the classes declared before it.
pub open spec fn diagram_start(classes: Map<Seq<char>, Map<Seq<char>, Seq<char>>>) -> DiagramScan {
    DiagramScan { classes, scenario: None, conns: Seq::empty(), failed: false }
}

/// What a diagram reads as, given the state its statements end in: its
/// trimmed name, a root layer called `root` with the nodes and layers its
/// statements declare, the connections met and the scenario set.
pub open spec fn diagram_denotes(p: Pair, d: NamedDiagram, end: DiagramScan) -> bool {
    &&& d.name@ == trim_text(p.children@[0].text@)
    &&& d.root.id@ == seq!['r', 'o', 'o', 't']
    &&& layer_items(p.children@, p.children@.len() as int, d.root.nodes@, d.root.layers@)
    &&& conns_denote(d.connections@, end.conns)
    &&& opt_text(d.scenario) == end.scenario
}

/// The state a diagram's statements end in.
pub open spec fn diagram_end(p: Pair, classes: Map<Seq<char>, Map<Seq<char>, Seq<char>>>) -> DiagramScan {
    scan_stmts(diagram_start(classes), p.children@, p.children@.len() as int)
}

proof fn lemma_stmts_shaped(cs: Seq<Pair>, k: int, j: int)
    requires
        stmts_shaped(cs, k),
        1 <= j < k <= cs.len(),
    ensures
        stmt_shaped(cs[j]),
    decreases k,
{
    if j < k - 1 {
        lemma_stmts_shaped(cs, k - 1, j);
    }
}

proof fn lemma_scan_stays(st: DiagramScan, cs: Seq<Pair>, j: int, k: int)
    requires
        1 <= j <= k <= cs.len(),
        scan_stmts(st, cs, j).failed,
    ensures
        scan_stmts(st, cs, k) == scan_stmts(st, cs, j),
    decreases k,
{
    if k > j {
        lemma_scan_stays(st, cs, j, k - 1);
    }
}

/// Reads one statement of a diagram or layer into the layer it stands in,
/// the connections, the classes and the scenario.
fn parse_diagram_stmt(
    pair: &Pair,
    curr_layer: &mut Layer,
    connections: &mut Vec<Connection>,
    classes: &mut TextMap<TextMap<String>>,
    scenario: &mut Option<String>,
    Ghost(st): Ghost<DiagramScan>,
) -> (r: Result<(), ParseError>)
    requires
        stmt_shaped(*pair),
        scan_agrees(st, *old(classes), *old(scenario), old(connections)@),
        !st.failed,
    ensures
        scan_agrees(scan_stmt(st, *pair), *final(classes), *final(scenario), final(connections)@),
        r is Err <==> scan_stmt(st, *pair).failed,
        r is Err ==> r matches Err(ParseError::MissingId),
        r is Ok ==> final(curr_layer).id == old(curr_layer).id,
        r is Ok ==> item_step(*pair, old(curr_layer).nodes@, old(curr_layer).layers@, final(curr_layer).nodes@, final(curr_layer).layers@),
    decreases *pair, 1nat, 0int,
{
    match pair.rule {
        Rule::ScenarioDecl => {
            let s = trim_matches_char(pair.children[0].text.as_str(), '"');
            *scenario = Some(s);
        },
        Rule::NodeDecl => {
            let n = parse_node(pair)?;
            let ghost before = curr_layer.nodes@;
            curr_layer.nodes.push(n);
            proof {
                assert(curr_layer.nodes@.drop_last() =~= before);
            }
        },
        Rule::LayerBlock => {
            let l = parse_layer(pair, connections, classes, scenario, Ghost(st))?;
            let ghost before = curr_layer.layers@;
            curr_layer.layers.push(l);
            proof {
                assert(curr_layer.layers@.drop_last() =~= before);
            }
        },
        Rule::Connection => {
            let c = parse_connection(pair)?;
            connections.push(c);
            proof {
                let s2 = scan_stmt(st, *pair);
                assert forall|i: int| 0 <= i < connections@.len() implies connection_denotes(#[trigger] s2.conns[i], connections@[i]) by {
                    if i < old(connections)@.len() {
                        assert(connection_denotes(st.conns[i], old(connections)@[i]));
                    }
                }
            }
        },
        Rule::StyleDecl => {
            let name = pair.children[0].text.clone();
            let attrs = parse_style_body(pair.children[1].text.as_str());
            let ghost before = *classes;
            classes.insert(name, attrs);
            proof {
                lemma_map_values_insert(before@, name@, attrs, |t: TextMap<String>| text_map_view(t));
            }
        },
        _ => {},
    }
    Ok(())
}

/// Reads a layer block and the statements in it.
fn parse_layer(
    pair: &Pair,
    connections: &mut Vec<Connection>,
    classes: &mut TextMap<TextMap<String>>,
    scenario: &mut Option<String>,
    Ghost(st): Ghost<DiagramScan>,
) -> (r: Result<Layer, ParseError>)
    requires
        pair.children@.len() >= 1,
        stmts_shaped(pair.children@, pair.children@.len() as int),
        scan_agrees(st, *old(classes), *old(scenario), old(connections)@),
        !st.failed,
    ensures
        scan_agrees(scan_stmts(st, pair.children@, pair.children@.len() as int), *final(classes), *final(scenario), final(connections)@),
        r is Err <==> scan_stmts(st, pair.children@, pair.children@.len() as int).failed,
        r is Err ==> r matches Err(ParseError::MissingId),
        r matches Ok(l) ==> layer_denotes(*pair, l),
    decreases *pair, 0nat, 0int,
{
    let cs = &pair.children;
    let id = cs[0].text.clone();
    let mut layer = Layer { id, nodes: Vec::new(), layers: Vec::new() };
    let mut i: usize = 1;
    while i < cs.len()
        invariant
            1 <= i <= cs@.len(),
            cs@ == pair.children@,
            stmts_shaped(cs@, cs@.len() as int),
            scan_agrees(scan_stmts(st, cs@, i as int), *classes, *scenario, connections@),
            !scan_stmts(st, cs@, i as int).failed,
            layer.id@ == cs@[0].text@,
            layer_items(cs@, i as int, layer.nodes@, layer.layers@),
        decreases cs@.len() - i,
    {
        proof {
            lemma_stmts_shaped(cs@, cs@.len() as int, i as int);
            assert(decreases_to!(*pair => cs@[i as int]));
        }
        let ghost prev = scan_stmts(st, cs@, i as int);
        let ghost nodes0 = layer.nodes@;
        let ghost layers0 = layer.layers@;
        let res = parse_diagram_stmt(&cs[i], &mut layer, connections, classes, scenario, Ghost(prev));
        proof {
            assert(scan_stmts(st, cs@, i + 1) == scan_stmt(prev, cs@[i as int]));
        }
        if res.is_err() {
            proof {
                lemma_scan_stays(st, cs@, i + 1, cs@.len() as int);
            }
            return Err(ParseError::MissingId);
        }
        proof {
            if cs@[i as int].rule == Rule::NodeDecl {
                assert(layer.nodes@.drop_last() == nodes0);
            } else if cs@[i as int].rule == Rule::LayerBlock {
                assert(layer.layers@.drop_last() == layers0);
            }
        }
        i = i + 1;
    }
    Ok(layer)
}

/// Reads a diagram: its name, then its statements in order. Style classes
/// go to `classes`, shared by all diagrams of a project.
pub fn parse_single_diagram(pair: &Pair, classes: &mut TextMap<TextMap<String>>) -> (r: Result<NamedDiagram, ParseError>)
    requires
        stmts_shaped(pair.children@, pair.children@.len() as int),
    ensures
        pair.children@.len() == 0 ==> r is Err && *final(classes) == *old(classes),
        pair.children@.len() > 0 ==> classes_view(*final(classes)) == diagram_end(*pair, classes_view(*old(classes))).classes,
        pair.children@.len() > 0 ==> (r is Err <==> diagram_end(*pair, classes_view(*old(classes))).failed),
        r is Err ==> r matches Err(ParseError::MissingId),
        r matches Ok(d) ==> diagram_denotes(*pair, d, diagram_end(*pair, classes_view(*old(classes)))),
{
    let cs = &pair.children;
    if cs.len() == 0 {
        return Err(ParseError::MissingId);
    }
    let name = trim(cs[0].text.as_str());
    let ghost st = diagram_start(classes_view(*classes));
    let mut root = Layer { id: owned("root"), nodes: Vec::new(), layers: Vec::new() };
    proof {
        reveal_strlit("root");
    }
    let mut connections: Vec<Connection> = Vec::new();
    let mut scenario: Option<String> = None;
    let mut i: usize = 1;
    while i < cs.len()
        invariant
            1 <= i <= cs@.len(),
            cs@ == pair.children@,
            st == diagram_start(classes_view(*old(classes))),
            stmts_shaped(cs@, cs@.len() as int),
            scan_agrees(scan_stmts(st, cs@, i as int), *classes, scenario, connections@),
            !scan_stmts(st, cs@, i as int).failed,
            root.id@ == seq!['r', 'o', 'o', 't'],
            layer_items(cs@, i as int, root.nodes@, root.layers@),
        decreases cs@.len() - i,
    {
        proof {
            lemma_stmts_shaped(cs@, cs@.len() as int, i as int);
        }
        let ghost prev = scan_stmts(st, cs@, i as int);
        let ghost nodes0 = root.nodes@;
        let ghost layers0 = root.layers@;
        let res = parse_diagram_stmt(&cs[i], &mut root, &mut connections, classes, &mut scenario, Ghost(prev));
        proof {
            assert(scan_stmts(st, cs@, i + 1) == scan_stmt(prev, cs@[i as int]));
        }
        if res.is_err() {
            proof {
                lemma_scan_stays(st, cs@, i + 1, cs@.len() as int);
            }
            return Err(ParseError::MissingId);
        }
        proof {
            if cs@[i as int].rule == Rule::NodeDecl {
                assert(root.nodes@.drop_last() == nodes0);
            } else if cs@[i as int].rule == Rule::LayerBlock {
                assert(root.layers@.drop_last() == layers0);
            }
        }
        i = i + 1;
    }
    proof {
        assert(scan_agrees(scan_stmts(st, cs@, cs@.len() as int), *classes, scenario, connections@));
    }
    Ok(NamedDiagram { name, root, connections, scenario })
}

} // verus!
