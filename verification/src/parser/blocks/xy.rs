//! `xy` chart declarations: axis labels and a data source.

use vstd::prelude::*;
use crate::ast::XyDeclaration;
use crate::parser::error::ParseError;
use crate::parser::syntax::{Pair, Rule, all_with_rule, children_at_least, with_rule};
use crate::text::{str_eq, strip_both, trim_matches_char};

verus! {

/// The value of a property node: a string literal without its quotes, any
/// other node as written.
pub open spec fn xy_value(v: Pair) -> Seq<char> {
    if v.rule == Rule::StringLiteral {
        strip_both(v.text@, |c: char| c == '"')
    } else {
        v.text@
    }
}

/// The value that the last property named `key` gives, or the empty text.
pub open spec fn xy_lookup(props: Seq<Pair>, key: Seq<char>) -> Seq<char>
    decreases props.len(),
{
    if props.len() == 0 {
        Seq::empty()
    } else if props.last().children@[0].text@ == key {
        xy_value(props.last().children@[1])
    } else {
        xy_lookup(props.drop_last(), key)
    }
}

/// What an XY declaration node reads as: its first child names it; its
/// property nodes set `x_axis`, `y_axis` and `data` (the last one named
/// wins; other names are ignored).
pub open spec fn xy_decl_denotes(p: Pair, d: XyDeclaration) -> bool {
    let props = if p.children@[1].rule == Rule::XyStmts {
        all_with_rule(p.children@[1].children@, Rule::XyProp)
    } else {
        Seq::empty()
    };
    &&& d.name@ == p.children@[0].text@
    &&& d.x_axis@ == xy_lookup(props, seq!['x', '_', 'a', 'x', 'i', 's'])
    &&& d.y_axis@ == xy_lookup(props, seq!['y', '_', 'a', 'x', 'i', 's'])
    &&& d.data@ == xy_lookup(props, seq!['d', 'a', 't', 'a'])
}

fn xy_value_of(v: &Pair) -> (s: String)
    ensures
        s@ == xy_value(*v),
{
    if v.rule == Rule::StringLiteral {
        trim_matches_char(v.text.as_str(), '"')
    } else {
        v.text.clone()
    }
}

pub fn parse_xy_decl(pair: &Pair) -> (r: Result<XyDeclaration, ParseError>)
    requires
        pair.children@.len() >= 2 ==> children_at_least(pair.children@[1].children@, Rule::XyProp, 2),
    ensures
        pair.children@.len() < 2 ==> r matches Err(ParseError::MissingId),
        pair.children@.len() >= 2 ==> (r matches Ok(d) && xy_decl_denotes(*pair, d)),
{
    if pair.children.len() < 2 {
        return Err(ParseError::MissingId);
    }
    let name = pair.children[0].text.clone();
    let stmts_pair = &pair.children[1];
    let mut x_axis = String::new();
    let mut y_axis = String::new();
    let mut data = String::new();
    proof {
        reveal_strlit("x_axis");
        reveal_strlit("y_axis");
        reveal_strlit("data");
        assert("x_axis"@ =~= seq!['x', '_', 'a', 'x', 'i', 's']);
        assert("y_axis"@ =~= seq!['y', '_', 'a', 'x', 'i', 's']);
        assert("data"@ =~= seq!['d', 'a', 't', 'a']);
    }
    if stmts_pair.rule == Rule::XyStmts {
        let cs = &stmts_pair.children;
        let mut i: usize = 0;
        while i < cs.len()
            invariant
                i <= cs@.len(),
                children_at_least(cs@, Rule::XyProp, 2),
                "x_axis"@ == seq!['x', '_', 'a', 'x', 'i', 's'],
                "y_axis"@ == seq!['y', '_', 'a', 'x', 'i', 's'],
                "data"@ == seq!['d', 'a', 't', 'a'],
                x_axis@ == xy_lookup(with_rule(cs@, Rule::XyProp, i as int), seq!['x', '_', 'a', 'x', 'i', 's']),
                y_axis@ == xy_lookup(with_rule(cs@, Rule::XyProp, i as int), seq!['y', '_', 'a', 'x', 'i', 's']),
                data@ == xy_lookup(with_rule(cs@, Rule::XyProp, i as int), seq!['d', 'a', 't', 'a']),
            decreases cs@.len() - i,
        {
            let stmt = &cs[i];
            proof {
                let w0 = with_rule(cs@, Rule::XyProp, i as int);
                let w1 = with_rule(cs@, Rule::XyProp, i + 1);
                if stmt.rule == Rule::XyProp {
                    assert(w1 == w0.push(cs@[i as int]));
                    assert(w1.drop_last() == w0);
                } else {
                    assert(w1 == w0);
                }
            }
            if stmt.rule == Rule::XyProp {
                let key = stmt.children[0].text.as_str();
                let val = xy_value_of(&stmt.children[1]);
                if str_eq(key, "x_axis") {
                    x_axis = val;
                } else if str_eq(key, "y_axis") {
                    y_axis = val;
                } else if str_eq(key, "data") {
                    data = val;
                }
            }
            i = i + 1;
        }
    }
    Ok(XyDeclaration { name, x_axis, y_axis, data })
}

} // verus!
