//! `packet` declarations: bit ranges, field names and types, a constraint.

use vstd::prelude::*;
use crate::ast::{PacketDeclaration, PacketField};
use crate::parser::error::ParseError;
use crate::parser::syntax::{Pair, Rule, children_at_least};
use crate::text::{chars_of, string_from_range, trim, trim_bounds, trim_text};

verus! {

/// The characters of `constraint:`.
pub open spec fn constraint_prefix() -> Seq<char> {
    seq!['c', 'o', 'n', 's', 't', 'r', 'a', 'i', 'n', 't', ':']
}

/// The text of a constraint statement: trimmed, without its `constraint:`
/// prefix (nothing when the prefix is missing), trimmed again.
pub open spec fn constraint_text(s: Seq<char>) -> Seq<char> {
    let t = trim_text(s);
    if t.len() >= 11 && t.take(11) == constraint_prefix() {
        trim_text(t.skip(11))
    } else {
        Seq::empty()
    }
}

/// What a packet field node reads as: range, name, and the trimmed type
/// attributes (empty when absent).
pub open spec fn packet_field_denotes(f: Pair, pf: PacketField) -> bool {
    &&& pf.range@ == f.children@[0].text@
    &&& pf.name@ == f.children@[1].text@
    &&& pf.field_type@ == if f.children@.len() > 2 { trim_text(f.children@[2].text@) } else { Seq::empty() }
}

/// The packet's statements node: the third child when the second gives the
/// attributes, else the second.
pub open spec fn packet_stmts_of(p: Pair) -> Pair {
    if p.children@[1].rule == Rule::PacketAttrs {
        p.children@[2]
    } else {
        p.children@[1]
    }
}

/// The fields that the first `k` statements give, in order.
pub open spec fn packet_fields_of(stmts: Seq<Pair>, k: int) -> Seq<Pair>
    decreases k,
{
    if k <= 0 {
        Seq::empty()
    } else if stmts[k - 1].rule == Rule::PacketField {
        packet_fields_of(stmts, k - 1).push(stmts[k - 1])
    } else {
        packet_fields_of(stmts, k - 1)
    }
}

/// The constraint that the last constraint statement among the first `k`
/// gives.
pub open spec fn packet_constraint_of(stmts: Seq<Pair>, k: int) -> Option<Seq<char>>
    decreases k,
{
    if k <= 0 {
        None
    } else if stmts[k - 1].rule == Rule::PacketConstraint {
        Some(constraint_text(stmts[k - 1].text@))
    } else {
        packet_constraint_of(stmts, k - 1)
    }
}

/// Whether a packet node has the names its reader needs: a name, and a
/// statements node after the optional attributes.
pub open spec fn packet_has_parts(p: Pair) -> bool {
    p.children@.len() >= 2 && (p.children@[1].rule == Rule::PacketAttrs ==> p.children@.len() >= 3)
}

/// What a packet declaration node reads as.
pub open spec fn packet_decl_denotes(p: Pair, d: PacketDeclaration) -> bool {
    let st = packet_stmts_of(p);
    let stmts = if st.rule == Rule::PacketStmts { st.children@ } else { Seq::empty() };
    let fs = packet_fields_of(stmts, stmts.len() as int);
    &&& d.name@ == p.children@[0].text@
    &&& d.size@ == if p.children@[1].rule == Rule::PacketAttrs { trim_text(p.children@[1].text@) } else { Seq::empty() }
    &&& d.fields@.len() == fs.len()
    &&& forall|i: int| 0 <= i < fs.len() ==> packet_field_denotes(fs[i], #[trigger] d.fields@[i])
    &&& match packet_constraint_of(stmts, stmts.len() as int) {
        Some(c) => d.constraint matches Some(t) && t@ == c,
        None => d.constraint is None,
    }
}

fn constraint_of(s: &str) -> (r: String)
    ensures
        r@ == constraint_text(s@),
{
    let cs = chars_of(s);
    let (a, e) = trim_bounds(cs.as_slice(), 0, cs.len());
    proof {
        assert(cs@.subrange(0, cs@.len() as int) == cs@);
    }
    let ghost t = trim_text(s@);
    if e - a >= 11 && cs[a] == 'c' && cs[a + 1] == 'o' && cs[a + 2] == 'n' && cs[a + 3] == 's' && cs[a + 4] == 't'
        && cs[a + 5] == 'r' && cs[a + 6] == 'a' && cs[a + 7] == 'i' && cs[a + 8] == 'n' && cs[a + 9] == 't'
        && cs[a + 10] == ':' {
        proof {
            assert(t.take(11) =~= constraint_prefix());
            assert(t.skip(11) =~= cs@.subrange(a + 11, e as int));
        }
        let (a2, e2) = trim_bounds(cs.as_slice(), a + 11, e);
        string_from_range(cs.as_slice(), a2, e2)
    } else {
        proof {
            if t.len() >= 11 && t.take(11) == constraint_prefix() {
                assert(t.take(11)[0] == 'c' && t.take(11)[1] == 'o' && t.take(11)[2] == 'n' && t.take(11)[3] == 's');
                assert(t.take(11)[4] == 't' && t.take(11)[5] == 'r' && t.take(11)[6] == 'a' && t.take(11)[7] == 'i');
                assert(t.take(11)[8] == 'n' && t.take(11)[9] == 't' && t.take(11)[10] == ':');
            }
        }
        String::new()
    }
}

pub fn parse_packet_decl(pair: &Pair) -> (r: Result<PacketDeclaration, ParseError>)
    requires
        packet_has_parts(*pair) ==> children_at_least(packet_stmts_of(*pair).children@, Rule::PacketField, 2),
    ensures
        !packet_has_parts(*pair) ==> r matches Err(ParseError::MissingId),
        packet_has_parts(*pair) ==> (r matches Ok(d) && packet_decl_denotes(*pair, d)),
{
    if pair.children.len() < 1 {
        return Err(ParseError::MissingId);
    }
    let name = pair.children[0].text.clone();
    if pair.children.len() < 2 {
        return Err(ParseError::MissingId);
    }
    let next_pair = &pair.children[1];
    let mut attrs = String::new();
    let mut stmts_pair = next_pair;
    if next_pair.rule == Rule::PacketAttrs {
        attrs = trim(next_pair.text.as_str());
        if pair.children.len() < 3 {
            return Err(ParseError::MissingId);
        }
        stmts_pair = &pair.children[2];
    }
    let mut fields: Vec<PacketField> = Vec::new();
    let mut constraint: Option<String> = None;
    if stmts_pair.rule == Rule::PacketStmts {
        let cs = &stmts_pair.children;
        let mut i: usize = 0;
        while i < cs.len()
            invariant
                i <= cs@.len(),
                children_at_least(cs@, Rule::PacketField, 2),
                fields@.len() == packet_fields_of(cs@, i as int).len(),
                forall|j: int| 0 <= j < fields@.len() ==> packet_field_denotes(
                    packet_fields_of(cs@, i as int)[j],
                    #[trigger] fields@[j],
                ),
                match packet_constraint_of(cs@, i as int) {
                    Some(c) => constraint matches Some(t) && t@ == c,
                    None => constraint is None,
                },
            decreases cs@.len() - i,
        {
            let stmt = &cs[i];
            if stmt.rule == Rule::PacketField {
                let range = stmt.children[0].text.clone();
                let f_name = stmt.children[1].text.clone();
                let f_type = if stmt.children.len() > 2 {
                    trim(stmt.children[2].text.as_str())
                } else {
                    String::new()
                };
                let ghost before = fields@;
                fields.push(PacketField { range, name: f_name, field_type: f_type });
                proof {
                    let w = packet_fields_of(cs@, i + 1);
                    assert(w == packet_fields_of(cs@, i as int).push(cs@[i as int]));
                    assert forall|j: int| 0 <= j < fields@.len() implies packet_field_denotes(w[j], #[trigger] fields@[j]) by {
                        if j < before.len() {
                            assert(fields@[j] == before[j]);
                        }
                    }
                }
            } else if stmt.rule == Rule::PacketConstraint {
                constraint = Some(constraint_of(stmt.text.as_str()));
            }
            i = i + 1;
        }
    }
    Ok(PacketDeclaration { name, size: attrs, fields, constraint })
}

} // verus!
