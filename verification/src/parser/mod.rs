//! From TRX source text to a [`Project`](crate::ast::Project): the grammar
//! reads the text into a syntax tree, and the block readers turn the tree
//! into the project's declarations.

pub mod error;
pub mod expressions;
pub mod syntax;
pub mod blocks;
pub mod grammar;

use vstd::prelude::*;
use crate::ast::{ExprView, Expression, NamedDiagram, PacketDeclaration, Project, SqlTableDeclaration, StateDeclaration, XyDeclaration};
use crate::parser::blocks::diagram::{
    classes_view, diagram_denotes, diagram_end, diagram_start, expr_map_view, lemma_map_values_insert,
    lemma_stmts_full, parse_single_diagram,
};
use crate::parser::blocks::packet::{packet_decl_denotes, parse_packet_decl};
use crate::parser::blocks::sqltable::{parse_sqltable_decl, sqltable_decl_denotes};
use crate::parser::blocks::state::{parse_state_decl, state_decl_denotes};
use crate::parser::blocks::xy::{parse_xy_decl, xy_decl_denotes};
use crate::parser::error::{Location, ParseError};
use crate::parser::expressions::{expr_meaning, parse_math_expr_stable};
use crate::parser::grammar::{TrxParser, blank, file_ok, item_ok, stopped_at, syntax_tree};
use crate::parser::syntax::{Pair, Rule, all_with_rule, with_rule};
use crate::text::{chars_of, owned, string_from_range, trim, trim_text};
use crate::textmap::TextMap;

verus! {

/// The style classes that the first `i` diagrams of `ds` leave behind,
/// starting from none.
pub open spec fn classes_after(ds: Seq<Pair>, i: int) -> Map<Seq<char>, Map<Seq<char>, Seq<char>>>
    decreases i,
{
    if i <= 0 || i > ds.len() {
        Map::empty()
    } else {
        diagram_end(ds[i - 1], classes_after(ds, i - 1)).classes
    }
}

/// The variables that the first `k` variable declarations set: each sets
/// its trimmed name to its expression; a later one wins.
pub open spec fn vars_after(vs: Seq<Pair>, k: int) -> Map<Seq<char>, ExprView>
    decreases k,
{
    if k <= 0 || k > vs.len() {
        Map::empty()
    } else {
        vars_after(vs, k - 1).insert(trim_text(vs[k - 1].children@[0].text@), expr_meaning(vs[k - 1].children@[1]))
    }
}

/// What a file node reads as: its diagrams, packets, state machines, XY
/// charts and SQL tables, each in the order written; the style classes the
/// diagrams declare, carried from one diagram to the next; and the
/// variables.
pub open spec fn project_denotes(t: Pair, p: Project) -> bool {
    let items = t.children@;
    let ds = all_with_rule(items, Rule::Diagram);
    let ps = all_with_rule(items, Rule::PacketDecl);
    let ss = all_with_rule(items, Rule::StateDecl);
    let xs = all_with_rule(items, Rule::XyDecl);
    let ts = all_with_rule(items, Rule::SqltableDecl);
    let vs = all_with_rule(items, Rule::VariableDecl);
    &&& p.diagrams@.len() == ds.len()
    &&& forall|i: int| 0 <= i < ds.len() ==> diagram_denotes(ds[i], #[trigger] p.diagrams@[i], diagram_end(ds[i], classes_after(ds, i)))
    &&& classes_view(p.classes) == classes_after(ds, ds.len() as int)
    &&& p.packets@.len() == ps.len()
    &&& forall|i: int| 0 <= i < ps.len() ==> packet_decl_denotes(ps[i], #[trigger] p.packets@[i])
    &&& p.states@.len() == ss.len()
    &&& forall|i: int| 0 <= i < ss.len() ==> state_decl_denotes(ss[i], #[trigger] p.states@[i])
    &&& p.xys@.len() == xs.len()
    &&& forall|i: int| 0 <= i < xs.len() ==> xy_decl_denotes(xs[i], #[trigger] p.xys@[i])
    &&& p.sqltables@.len() == ts.len()
    &&& forall|i: int| 0 <= i < ts.len() ==> sqltable_decl_denotes(ts[i], #[trigger] p.sqltables@[i])
    &&& expr_map_view(p.variables) == vars_after(vs, vs.len() as int)
}

proof fn lemma_classes_after_push(ds: Seq<Pair>, x: Pair, i: int)
    requires
        0 <= i <= ds.len(),
    ensures
        classes_after(ds.push(x), i) == classes_after(ds, i),
    decreases i,
{
    if i > 0 {
        lemma_classes_after_push(ds, x, i - 1);
        assert(ds.push(x)[i - 1] == ds[i - 1]);
    }
}

proof fn lemma_vars_after_push(vs: Seq<Pair>, x: Pair, k: int)
    requires
        0 <= k <= vs.len(),
    ensures
        vars_after(vs.push(x), k) == vars_after(vs, k),
    decreases k,
{
    if k > 0 {
        lemma_vars_after_push(vs, x, k - 1);
        assert(vs.push(x)[k - 1] == vs[k - 1]);
    }
}

/// Reads the items of a file node into a project.
pub fn read_project(tree: &Pair) -> (p: Project)
    requires
        file_ok(*tree),
    ensures
        project_denotes(*tree, p),
{
    let items = &tree.children;
    let mut diagrams: Vec<NamedDiagram> = Vec::new();
    let mut packets: Vec<PacketDeclaration> = Vec::new();
    let mut states: Vec<StateDeclaration> = Vec::new();
    let mut xys: Vec<XyDeclaration> = Vec::new();
    let mut sqltables: Vec<SqlTableDeclaration> = Vec::new();
    let mut variables: TextMap<Expression> = TextMap::new();
    let mut classes: TextMap<TextMap<String>> = TextMap::new();
    proof {
        assert(classes_view(classes) =~= Map::<Seq<char>, Map<Seq<char>, Seq<char>>>::empty());
        assert(expr_map_view(variables) =~= Map::<Seq<char>, ExprView>::empty());
    }
    let mut i: usize = 0;
    while i < items.len()
        invariant
            i <= items@.len(),
            items@ == tree.children@,
            file_ok(*tree),
            diagrams@.len() == with_rule(items@, Rule::Diagram, i as int).len(),
            forall|j: int| 0 <= j < diagrams@.len() ==> diagram_denotes(
                with_rule(items@, Rule::Diagram, i as int)[j],
                #[trigger] diagrams@[j],
                diagram_end(with_rule(items@, Rule::Diagram, i as int)[j], classes_after(with_rule(items@, Rule::Diagram, i as int), j)),
            ),
            classes_view(classes) == classes_after(with_rule(items@, Rule::Diagram, i as int), diagrams@.len() as int),
            packets@.len() == with_rule(items@, Rule::PacketDecl, i as int).len(),
            forall|j: int| 0 <= j < packets@.len() ==> packet_decl_denotes(with_rule(items@, Rule::PacketDecl, i as int)[j], #[trigger] packets@[j]),
            states@.len() == with_rule(items@, Rule::StateDecl, i as int).len(),
            forall|j: int| 0 <= j < states@.len() ==> state_decl_denotes(with_rule(items@, Rule::StateDecl, i as int)[j], #[trigger] states@[j]),
            xys@.len() == with_rule(items@, Rule::XyDecl, i as int).len(),
            forall|j: int| 0 <= j < xys@.len() ==> xy_decl_denotes(with_rule(items@, Rule::XyDecl, i as int)[j], #[trigger] xys@[j]),
            sqltables@.len() == with_rule(items@, Rule::SqltableDecl, i as int).len(),
            forall|j: int| 0 <= j < sqltables@.len() ==> sqltable_decl_denotes(with_rule(items@, Rule::SqltableDecl, i as int)[j], #[trigger] sqltables@[j]),
            expr_map_view(variables) == vars_after(with_rule(items@, Rule::VariableDecl, i as int), with_rule(items@, Rule::VariableDecl, i as int).len() as int),
        decreases items@.len() - i,
    {
        let item = &items[i];
        assert(item_ok(items@[i as int]));
        let ghost ds = with_rule(items@, Rule::Diagram, i as int);
        let ghost vs = with_rule(items@, Rule::VariableDecl, i as int);
        if item.rule == Rule::Diagram {
            proof {
                lemma_stmts_full(diagram_start(classes_view(classes)), item.children@, item.children@.len() as int);
            }
            let ghost before = classes_view(classes);
            match parse_single_diagram(item, &mut classes) {
                Ok(d) => {
                    diagrams.push(d);
                    proof {
                        let ds2 = ds.push(*item);
                        assert(with_rule(items@, Rule::Diagram, i + 1) == ds2);
                        lemma_classes_after_push(ds, *item, ds.len() as int);
                        assert forall|j: int| 0 <= j < diagrams@.len() implies diagram_denotes(
                            ds2[j],
                            #[trigger] diagrams@[j],
                            diagram_end(ds2[j], classes_after(ds2, j)),
                        ) by {
                            lemma_classes_after_push(ds, *item, j);
                            if j < ds.len() {
                                assert(ds2[j] == ds[j]);
                            }
                        }
                    }
                },
                Err(_) => {
                    proof {
                        assert(false);
                    }
                },
            }
        } else if item.rule == Rule::PacketDecl {
            match parse_packet_decl(item) {
                Ok(d) => {
                    packets.push(d);
                },
                Err(_) => {},
            }
        } else if item.rule == Rule::StateDecl {
            match parse_state_decl(item) {
                Ok(d) => {
                    states.push(d);
                },
                Err(_) => {},
            }
        } else if item.rule == Rule::XyDecl {
            match parse_xy_decl(item) {
                Ok(d) => {
                    xys.push(d);
                },
                Err(_) => {},
            }
        } else if item.rule == Rule::SqltableDecl {
            match parse_sqltable_decl(item) {
                Ok(d) => {
                    sqltables.push(d);
                },
                Err(_) => {},
            }
        } else if item.rule == Rule::VariableDecl {
            let id = trim(item.children[0].text.as_str());
            match parse_math_expr_stable(&item.children[1]) {
                Ok(e) => {
                    let ghost before = variables;
                    variables.insert(id, e);
                    proof {
                        lemma_map_values_insert(before@, id@, e, |x: Expression| crate::ast::expr_view(x));
                        lemma_vars_after_push(vs, *item, vs.len() as int);
                        assert(with_rule(items@, Rule::VariableDecl, i + 1) == vs.push(*item));
                    }
                },
                Err(_) => {},
            }
        }
        i = i + 1;
    }
    Project { diagrams, packets, states, xys, sqltables, variables, classes }
}

/// The number of line breaks before position `off`.
pub open spec fn newlines_before(s: Seq<char>, off: int) -> nat
    decreases off,
{
    if off <= 0 || off > s.len() {
        0
    } else {
        newlines_before(s, off - 1) + if s[off - 1] == '\n' { 1nat } else { 0nat }
    }
}

/// Where the line that holds position `off` starts.
pub open spec fn line_start(s: Seq<char>, off: int) -> int
    decreases off,
{
    if off <= 0 || off > s.len() {
        0
    } else if s[off - 1] == '\n' {
        off
    } else {
        line_start(s, off - 1)
    }
}

/// Where the line that holds position `off` ends (before its line break).
pub open spec fn line_end(s: Seq<char>, off: int) -> int
    decreases s.len() - off,
{
    if off < 0 || off >= s.len() {
        s.len() as int
    } else if s[off] == '\n' {
        off
    } else {
        line_end(s, off + 1)
    }
}

/// The location of position `off`: its line and column, both counted from
/// 1, and the text of its line.
pub open spec fn location_at(s: Seq<char>, off: int, loc: Location) -> bool {
    &&& loc.line == newlines_before(s, off) + 1
    &&& loc.col == off - line_start(s, off) + 1
    &&& loc.source@ == s.subrange(line_start(s, off), line_end(s, off))
}

proof fn lemma_line_start_bound(s: Seq<char>, off: int)
    requires
        0 <= off <= s.len(),
    ensures
        0 <= line_start(s, off) <= off,
    decreases off,
{
    if off > 0 && s[off - 1] != '\n' {
        lemma_line_start_bound(s, off - 1);
    }
}

proof fn lemma_line_end_bound(s: Seq<char>, off: int)
    requires
        0 <= off <= s.len(),
    ensures
        off <= line_end(s, off) <= s.len(),
    decreases s.len() - off,
{
    if off < s.len() && s[off] != '\n' {
        lemma_line_end_bound(s, off + 1);
    }
}

/// The location of position `off` in `cs`.
fn locate_error(cs: &Vec<char>, off: usize) -> (loc: Location)
    requires
        off <= cs@.len() < usize::MAX,
    ensures
        location_at(cs@, off as int, loc),
{
    let mut line: usize = 1;
    let mut start: usize = 0;
    let mut j: usize = 0;
    while j < off
        invariant
            j <= off <= cs@.len() < usize::MAX,
            line == newlines_before(cs@, j as int) + 1,
            line <= j + 1,
            start == line_start(cs@, j as int),
            start <= j,
        decreases off - j,
    {
        if cs[j] == '\n' {
            line = line + 1;
            start = j + 1;
        }
        j = j + 1;
    }
    let mut end = off;
    proof {
        lemma_line_end_bound(cs@, off as int);
    }
    while end < cs.len() && cs[end] != '\n'
        invariant
            off <= end <= cs@.len(),
            line_end(cs@, end as int) == line_end(cs@, off as int),
        decreases cs@.len() - end,
    {
        end = end + 1;
    }
    let source = string_from_range(cs.as_slice(), start, end);
    Location { line, col: off - start + 1, source }
}

/// Whether `p` is what a syntax tree of the whole input, as the grammar
/// reads it, reads as.
pub open spec fn reads_as(input: Seq<char>, p: Project) -> bool {
    exists|t: Pair| syntax_tree(input, t) && #[trigger] project_denotes(t, p)
}

/// Whether `e` reports the place in the source where the reader stopped:
/// the first character after a run of complete items, not white space,
/// where no item begins.
pub open spec fn failed_at(s: Seq<char>, e: ParseError) -> bool {
    match e {
        ParseError::ParseFailed { location, .. } => exists|off: int|
            stopped_at(s, off) && #[trigger] location_at(s, off, location),
        _ => false,
    }
}

/// Parses TRX source text into a project. On success the project is what a
/// syntax tree of the whole text reads as. On failure the error gives the
/// line and column where reading stopped: the first character, after a run
/// of complete items each read as far as it goes, where no item begins (see
/// `stopped_at`). A text of white space and comments alone reads without
/// error.
pub fn parse(input: &str) -> (r: Result<Project, ParseError>)
    requires
        input@.len() < usize::MAX,
    ensures
        r matches Ok(p) ==> reads_as(input@, p),
        r matches Err(e) ==> failed_at(input@, e),
        blank(input@) ==> r is Ok,
{
    let cs = chars_of(input);
    match TrxParser::parse_file(input) {
        Ok(t) => {
            let p = read_project(&t);
            proof {
                assert(syntax_tree(input@, t) && project_denotes(t, p));
                assert(reads_as(input@, p));
            }
            Ok(p)
        },
        Err(off) => {
            let location = locate_error(&cs, off);
            let message = owned("expected an item: let, packet, state, xy, sqltable or a # diagram");
            proof {
                assert(location_at(input@, off as int, location));
            }
            let e = ParseError::ParseFailed { location, message };
            assert(location_at(input@, off as int, e->location));
            Err(e)
        },
    }
}

} // verus!
