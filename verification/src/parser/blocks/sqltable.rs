//! `sqltable` declarations: columns with primary and foreign keys.

use vstd::prelude::*;
use crate::ast::{SqlField, SqlTableDeclaration};
use crate::parser::error::ParseError;
use crate::parser::syntax::{Pair, Rule};
use crate::text::{str_eq, trim, trim_text};

verus! {

/// Where a field's name sits: after the key marker, if there is one.
pub open spec fn name_index(f: Pair) -> int {
    if f.children@[0].rule == Rule::PkFk { 1 } else { 0 }
}

/// Whether a field node has its parts: a name and a type after the
/// optional key marker.
pub open spec fn field_has_parts(f: Pair) -> bool {
    f.children@.len() >= 1 && f.children@.len() >= name_index(f) + 2
}

/// What a field node reads as: `PK` or `FK` (trimmed) mark a primary or
/// foreign key; name, type and referenced table are trimmed.
pub open spec fn sql_field_denotes(f: Pair, sf: SqlField) -> bool {
    let k = name_index(f);
    let marker = trim_text(f.children@[0].text@);
    &&& sf.is_pk == (k == 1 && marker == seq!['P', 'K'])
    &&& sf.is_fk == (k == 1 && marker == seq!['F', 'K'])
    &&& sf.name@ == trim_text(f.children@[k].text@)
    &&& sf.field_type@ == trim_text(f.children@[k + 1].text@)
    &&& if f.children@.len() > k + 2 {
        sf.fk_ref matches Some(t) && t@ == trim_text(f.children@[k + 2].text@)
    } else {
        sf.fk_ref is None
    }
}

/// The field nodes among the children after the first, up to `k`.
pub open spec fn table_fields(cs: Seq<Pair>, k: int) -> Seq<Pair>
    decreases k,
{
    if k <= 1 {
        Seq::empty()
    } else if cs[k - 1].rule == Rule::SqltableField {
        table_fields(cs, k - 1).push(cs[k - 1])
    } else {
        table_fields(cs, k - 1)
    }
}

/// What a table declaration node reads as: its first child names it
/// (trimmed), and each later field node gives a column.
pub open spec fn sqltable_decl_denotes(p: Pair, d: SqlTableDeclaration) -> bool {
    let fs = table_fields(p.children@, p.children@.len() as int);
    &&& d.name@ == trim_text(p.children@[0].text@)
    &&& d.fields@.len() == fs.len()
    &&& forall|i: int| 0 <= i < fs.len() ==> sql_field_denotes(fs[i], #[trigger] d.fields@[i])
}

/// Every field node after the first child has its parts.
pub open spec fn fields_have_parts(cs: Seq<Pair>) -> bool {
    forall|i: int| 1 <= i < cs.len() && (#[trigger] cs[i]).rule == Rule::SqltableField ==> field_has_parts(cs[i])
}

pub fn parse_sqltable_decl(pair: &Pair) -> (r: Result<SqlTableDeclaration, ParseError>)
    requires
        fields_have_parts(pair.children@),
    ensures
        pair.children@.len() == 0 ==> r matches Err(ParseError::MissingId),
        pair.children@.len() > 0 ==> (r matches Ok(d) && sqltable_decl_denotes(*pair, d)),
{
    if pair.children.len() == 0 {
        return Err(ParseError::MissingId);
    }
    let name = trim(pair.children[0].text.as_str());
    let cs = &pair.children;
    let mut fields: Vec<SqlField> = Vec::new();
    let mut i: usize = 1;
    while i < cs.len()
        invariant
            1 <= i <= cs@.len(),
            fields_have_parts(cs@),
            fields@.len() == table_fields(cs@, i as int).len(),
            forall|j: int| 0 <= j < fields@.len() ==> sql_field_denotes(table_fields(cs@, i as int)[j], #[trigger] fields@[j]),
        decreases cs@.len() - i,
    {
        let stmt = &cs[i];
        if stmt.rule == Rule::SqltableField {
            let f = parse_sqltable_field(stmt)?;
            let ghost before = fields@;
            fields.push(f);
            proof {
                let w = table_fields(cs@, i + 1);
                assert(w == table_fields(cs@, i as int).push(cs@[i as int]));
                assert forall|j: int| 0 <= j < fields@.len() implies sql_field_denotes(w[j], #[trigger] fields@[j]) by {
                    if j < before.len() {
                        assert(fields@[j] == before[j]);
                    }
                }
            }
        }
        i = i + 1;
    }
    Ok(SqlTableDeclaration { name, fields })
}

fn parse_sqltable_field(pair: &Pair) -> (r: Result<SqlField, ParseError>)
    requires
        field_has_parts(*pair),
    ensures
        r matches Ok(f) && sql_field_denotes(*pair, f),
{
    let mut is_pk = false;
    let mut is_fk = false;
    let first = &pair.children[0];
    let mut k: usize = 0;
    proof {
        reveal_strlit("PK");
        reveal_strlit("FK");
        assert("PK"@ =~= seq!['P', 'K']);
        assert("FK"@ =~= seq!['F', 'K']);
    }
    if first.rule == Rule::PkFk {
        let val = trim(first.text.as_str());
        if str_eq(val.as_str(), "PK") {
            is_pk = true;
        } else if str_eq(val.as_str(), "FK") {
            is_fk = true;
        }
        k = 1;
    }
    let name = trim(pair.children[k].text.as_str());
    let field_type = trim(pair.children[k + 1].text.as_str());
    let fk_ref = if pair.children.len() > k + 2 {
        Some(trim(pair.children[k + 2].text.as_str()))
    } else {
        None
    };
    Ok(SqlField { name, field_type, is_pk, is_fk, fk_ref })
}

} // verus!
