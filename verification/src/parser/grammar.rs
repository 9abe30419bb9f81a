//! The TRX grammar: a recursive-descent reader from source text to the
//! syntax tree. Every node it builds spans the part of the source it was
//! read from, and has the parts that the block readers take apart.
//!
//! What the tree says of the text is stated rule by rule: the rules of each
//! node's children ([`form_rules`]), the shape of each token's text, the
//! punctuation and keywords around and between the children
//! ([`layout_rules`]), and that every token takes all the characters it can
//! ([`leaf_ends`]). White space (spaces, tabs, line breaks) and `//` line
//! comments may stand between the tokens of a rule, except where a rule
//! keeps to one line.

use vstd::prelude::*;
use crate::parser::expressions::{args_shaped, ascii_text, expr_shaped, inner_shaped, term_shaped, terms_shaped};
use crate::parser::blocks::diagram::{connection_shaped, kvs_shaped, node_shaped, props_shaped, stmt_full, stmts_full, lemma_stmts_full_from_all};
use crate::parser::blocks::packet::{packet_has_parts, packet_stmts_of};
use crate::parser::blocks::sqltable::fields_have_parts;
use crate::parser::syntax::{Pair, Rule, children_at_least};
use crate::preprocess::{index_of_char, lemma_index_of_char, lemma_index_of_char_unique};
use crate::text::string_from_range;

verus! {

/// Every node spans a stretch `[start, end)` of the input and holds its
/// text; the children of a node lie inside it, in order, without overlap.
pub open spec fn spans_ok(input: Seq<char>, p: Pair) -> bool
    decreases p, 1nat,
{
    &&& p.start <= p.end <= input.len()
    &&& p.text@ == input.subrange(p.start as int, p.end as int)
    &&& ordered_within(input, p.children@, p.start as int, p.end as int)
    &&& form(p.rule, p.text@, p.children@)
    &&& layout(input, p.rule, p.start as int, p.end as int, p.children@)
}

/// The rules of the nodes `kids[lo..hi)` are all `r`.
pub open spec fn rules_are(kids: Seq<Pair>, lo: int, hi: int, r: Rule) -> bool {
    forall|i: int| lo <= i < hi ==> (#[trigger] kids[i]).rule == r
}

/// The rules a diagram statement is read by.
pub open spec fn stmt_rule(r: Rule) -> bool {
    r == Rule::ScenarioDecl || r == Rule::StyleDecl || r == Rule::LayerBlock || r == Rule::Connection || r == Rule::NodeDecl
}

/// The rules a top-level item is read by.
pub open spec fn item_rule(r: Rule) -> bool {
    r == Rule::VariableDecl || r == Rule::PacketDecl || r == Rule::StateDecl || r == Rule::XyDecl || r == Rule::SqltableDecl
        || r == Rule::Diagram
}

/// The rules the inside of a term is read by.
pub open spec fn inner_rule(r: Rule) -> bool {
    r == Rule::FunctionCall || r == Rule::Number || r == Rule::NumberWithUnit || r == Rule::PropertyRef || r == Rule::Identifier
        || r == Rule::StringLiteral
}

/// Where a part of a node declaration stands among the parts after the
/// identifier.
pub open spec fn node_part_rank(r: Rule) -> int {
    if r == Rule::Identifier {
        0
    } else if r == Rule::Attributes {
        1
    } else if r == Rule::PropertyBlock {
        2
    } else {
        3
    }
}

/// Whether a text is a keyword.
pub open spec fn keyword_text(t: Seq<char>) -> bool {
    t == "let"@ || t == "packet"@ || t == "state"@ || t == "xy"@ || t == "sqltable"@ || t == "layer"@ || t == "style"@
        || t == "node"@
}

/// An identifier: a letter or `_`, then letters, digits and `_`; no keyword.
pub open spec fn ident_text(t: Seq<char>) -> bool {
    &&& t.len() > 0
    &&& ident_start(t[0])
    &&& forall|i: int| 0 <= i < t.len() ==> ident_char(#[trigger] t[i])
    &&& !keyword_text(t)
}

/// A string literal: `"`, characters other than `"`, `"`.
pub open spec fn string_text(t: Seq<char>) -> bool {
    &&& t.len() >= 2
    &&& t[0] == '"'
    &&& t[t.len() - 1] == '"'
    &&& forall|i: int| 0 < i < t.len() - 1 ==> #[trigger] t[i] != '"'
}

/// An operator: `==`, `!=`, `<=`, `>=`, `<`, `>`, `+`, `-`, `*` or `/`.
pub open spec fn operator_text(t: Seq<char>) -> bool {
    ||| t.len() == 2 && t[1] == '=' && (t[0] == '=' || t[0] == '!' || t[0] == '<' || t[0] == '>')
    ||| t.len() == 1 && (t[0] == '<' || t[0] == '>' || t[0] == '+' || t[0] == '-' || t[0] == '*' || t[0] == '/')
}

/// An arrow: `->`, `>>` or `==`.
pub open spec fn arrow_text(t: Seq<char>) -> bool {
    t.len() == 2 && ((t[0] == '-' && t[1] == '>') || (t[0] == '>' && t[1] == '>') || (t[0] == '=' && t[1] == '='))
}

/// Whether `t[a..b)` are all decimal digits.
pub open spec fn digits_in(t: Seq<char>, a: int, b: int) -> bool {
    forall|i: int| a <= i < b ==> digit(#[trigger] t[i])
}

/// What follows the digits of a numeral that end at `k`: nothing, or `.`
/// and digits.
pub open spec fn fraction_at(t: Seq<char>, k: int) -> bool {
    k == t.len() || (t[k] == '.' && k + 1 < t.len() && digits_in(t, k + 1, t.len() as int))
}

/// `t[a..)` is a numeral: digits, then optionally `.` and digits.
pub open spec fn numeral_from(t: Seq<char>, a: int) -> bool {
    exists|k: int| a < k <= t.len() && digits_in(t, a, k) && #[trigger] fraction_at(t, k)
}

/// A number: an optional `-`, then a numeral.
pub open spec fn number_text(t: Seq<char>) -> bool {
    numeral_from(t, if t.len() > 0 && t[0] == '-' { 1int } else { 0int })
}

/// Whether `c` may stand in a unit after a number.
pub open spec fn unit_char(c: char) -> bool {
    ('a' <= c && c <= 'z') || ('A' <= c && c <= 'Z') || c == '%'
}

/// From `u` on, `t` is unit characters.
pub open spec fn units_from(t: Seq<char>, u: int) -> bool {
    forall|i: int| u <= i < t.len() ==> unit_char(#[trigger] t[i])
}

/// A number with a unit: a numeral without sign, then unit characters.
pub open spec fn unit_number_text(t: Seq<char>) -> bool {
    exists|u: int| 0 < u < t.len() && numeral_from(t.take(u), 0) && #[trigger] units_from(t, u)
}

/// `t` is two identifiers joined by a `.` at `d`.
pub open spec fn dot_split(t: Seq<char>, d: int) -> bool {
    0 < d && d + 1 < t.len() && t[d] == '.' && ident_text(t.take(d)) && ident_text(t.skip(d + 1))
}

/// A property reference: identifier `.` identifier.
pub open spec fn property_ref_text(t: Seq<char>) -> bool {
    exists|d: int| #[trigger] dot_split(t, d)
}

/// Whether `c` may stand in an attribute key.
pub open spec fn key_char(c: char) -> bool {
    ident_char(c) || c == '-' || c == '.'
}

/// An attribute key: one or more key characters.
pub open spec fn attr_key_text(t: Seq<char>) -> bool {
    t.len() > 0 && forall|i: int| 0 <= i < t.len() ==> key_char(#[trigger] t[i])
}

/// Whether `c` may stand in an unquoted value.
pub open spec fn value_char(c: char) -> bool {
    !(c == ',' || c == ']' || c == '}' || c == '"' || c == ' ' || c == '\t' || c == '\r' || c == '\n')
}

/// An unquoted value: value characters, with spaces and tabs between them.
pub open spec fn raw_value_text(t: Seq<char>) -> bool {
    &&& t.len() > 0
    &&& value_char(t[0])
    &&& value_char(t[t.len() - 1])
    &&& forall|i: int| 0 <= i < t.len() ==> value_char(#[trigger] t[i]) || t[i] == ' ' || t[i] == '\t'
}

/// No unquoted value goes on at `e`: what follows the spaces and tabs
/// there is no value character.
pub open spec fn raw_value_ends(input: Seq<char>, e: int) -> bool {
    forall|t: int| e <= t < input.len() && #[trigger] inline_at(input, e, t) ==> !value_char(input[t])
}

/// `t` holds no `c`.
pub open spec fn none_of(t: Seq<char>, c: char) -> bool {
    forall|i: int| 0 <= i < t.len() ==> #[trigger] t[i] != c
}

/// The rest of a line: neither a line break nor `}`.
pub open spec fn line_text(t: Seq<char>) -> bool {
    forall|i: int| 0 <= i < t.len() ==> #[trigger] t[i] != '\n' && t[i] != '}'
}

/// What follows the digits of a bit range that end at `k`: nothing, or
/// `..` or `-` and digits.
pub open spec fn range_tail(t: Seq<char>, k: int) -> bool {
    ||| k == t.len()
    ||| k + 2 < t.len() && t[k] == '.' && t[k + 1] == '.' && digits_in(t, k + 2, t.len() as int)
    ||| k + 1 < t.len() && t[k] == '-' && digits_in(t, k + 1, t.len() as int)
}

/// A bit range: digits, optionally followed by `..` or `-` and digits.
pub open spec fn bit_range_text(t: Seq<char>) -> bool {
    exists|k: int| 0 < k <= t.len() && digits_in(t, 0, k) && #[trigger] range_tail(t, k)
}

/// What follows the word of a column type that ends at `k`: nothing, or a
/// size in parentheses.
pub open spec fn type_size_at(t: Seq<char>, k: int) -> bool {
    ||| k == t.len()
    ||| k < t.len() - 1 && t[k] == '(' && t[t.len() - 1] == ')' && forall|i: int| k < i < t.len() - 1 ==> #[trigger] t[i]
        != ')'
}

/// A column type: identifier characters, then optionally a size in
/// parentheses.
pub open spec fn sql_type_text(t: Seq<char>) -> bool {
    exists|k: int| 0 < k <= t.len() && (forall|i: int| 0 <= i < k ==> ident_char(#[trigger] t[i])) && #[trigger] type_size_at(t, k)
}

/// What each rule's nodes are: the rules of their children, in order, and
/// what their text is made of (see [`form_rules`]).
#[verifier::opaque]
pub open spec fn form(rule: Rule, t: Seq<char>, kids: Seq<Pair>) -> bool {
    form_rules(rule, t, kids)
}

/// The rules of the children of each rule's nodes, in order, and what their
/// text is made of.
pub open spec fn form_rules(rule: Rule, t: Seq<char>, kids: Seq<Pair>) -> bool {
    let n = kids.len() as int;
    if rule == Rule::Identifier {
        n == 0 && ident_text(t)
    } else if rule == Rule::StringLiteral {
        n == 0 && string_text(t)
    } else if rule == Rule::Operator {
        n == 0 && operator_text(t)
    } else if rule == Rule::Arrow {
        n == 0 && arrow_text(t)
    } else if rule == Rule::Number {
        n == 0 && number_text(t)
    } else if rule == Rule::NumberWithUnit {
        n == 0 && unit_number_text(t)
    } else if rule == Rule::PropertyRef {
        n == 0 && property_ref_text(t)
    } else if rule == Rule::AttrKey {
        n == 0 && attr_key_text(t)
    } else if rule == Rule::AttrValue {
        n == 0
    } else if rule == Rule::StyleBody {
        n == 0 && none_of(t, '}')
    } else if rule == Rule::DiagramName {
        n == 0 && none_of(t, '\n')
    } else if rule == Rule::PacketAttrs {
        n == 0 && none_of(t, ']')
    } else if rule == Rule::BitRange {
        n == 0 && bit_range_text(t)
    } else if rule == Rule::PacketConstraint {
        n == 0 && t.len() >= 11 && t.take(11) == "constraint:"@ && line_text(t.skip(11))
    } else if rule == Rule::StateRef {
        n == 0 && (t == "[*]"@ || ident_text(t))
    } else if rule == Rule::Trigger {
        n == 0 && t.len() > 0 && t[0] == ':' && line_text(t)
    } else if rule == Rule::RawValue {
        n == 0 && raw_value_text(t)
    } else if rule == Rule::PkFk {
        n == 0 && (t == "PK"@ || t == "FK"@)
    } else if rule == Rule::SqlType {
        n == 0 && sql_type_text(t)
    } else if rule == Rule::MathTerm {
        n == 1 && inner_rule(kids[0].rule)
    } else if rule == Rule::MathExpression {
        &&& n % 2 == 1
        &&& forall|i: int| 0 <= i < n ==> (#[trigger] kids[i]).rule == if i % 2 == 0 { Rule::MathTerm } else { Rule::Operator }
    } else if rule == Rule::FunctionCall {
        &&& n >= 1
        &&& kids[0].rule == Rule::Identifier
        &&& forall|i: int| 0 <= i < n ==> (#[trigger] kids[i]).rule == Rule::Identifier || kids[i].rule == Rule::MathExpression
        &&& forall|i: int, j: int| 0 <= i < j < n ==> !((#[trigger] kids[i]).rule == Rule::MathExpression && (#[trigger] kids[j]).rule == Rule::Identifier)
    } else if rule == Rule::Attribute {
        (n == 1 || n == 2) && kids[0].rule == Rule::AttrKey && (n == 2 ==> kids[1].rule == Rule::AttrValue)
    } else if rule == Rule::Attributes {
        rules_are(kids, 0, n, Rule::Attribute)
    } else if rule == Rule::Property {
        n == 2 && kids[0].rule == Rule::Identifier && kids[1].rule == Rule::MathExpression
    } else if rule == Rule::PropertyBlock {
        rules_are(kids, 0, n, Rule::Property)
    } else if rule == Rule::NodeDecl {
        &&& n >= 1
        &&& kids[0].rule == Rule::Identifier
        &&& forall|i: int| 1 <= i < n ==> node_part_rank((#[trigger] kids[i]).rule) < 3
        &&& forall|i: int, j: int| 1 <= i < j < n ==> node_part_rank((#[trigger] kids[i]).rule) < node_part_rank((#[trigger] kids[j]).rule)
    } else if rule == Rule::Connection {
        &&& (n == 3 || n == 4)
        &&& kids[0].rule == Rule::Identifier
        &&& (kids[1].rule == Rule::Arrow || kids[1].rule == Rule::AttrArrow)
        &&& kids[2].rule == Rule::Identifier
        &&& n == 4 ==> kids[3].rule == Rule::StringLiteral
    } else if rule == Rule::AttrArrow {
        n == 1 && kids[0].rule == Rule::Attributes
    } else if rule == Rule::ScenarioDecl {
        n == 1 && kids[0].rule == Rule::StringLiteral
    } else if rule == Rule::StyleDecl {
        n == 2 && kids[0].rule == Rule::Identifier && kids[1].rule == Rule::StyleBody
    } else if rule == Rule::LayerBlock {
        n >= 1 && kids[0].rule == Rule::Identifier && forall|i: int| 1 <= i < n ==> stmt_rule((#[trigger] kids[i]).rule)
    } else if rule == Rule::Diagram {
        n >= 1 && kids[0].rule == Rule::DiagramName && forall|i: int| 1 <= i < n ==> stmt_rule((#[trigger] kids[i]).rule)
    } else if rule == Rule::PacketField {
        (n == 2 || n == 3) && kids[0].rule == Rule::BitRange && kids[1].rule == Rule::Identifier && (n == 3 ==> kids[2].rule
            == Rule::PacketAttrs)
    } else if rule == Rule::PacketStmts {
        forall|i: int| 0 <= i < n ==> (#[trigger] kids[i]).rule == Rule::PacketField || kids[i].rule == Rule::PacketConstraint
    } else if rule == Rule::PacketDecl {
        &&& (n == 2 || n == 3)
        &&& kids[0].rule == Rule::Identifier
        &&& n == 2 ==> kids[1].rule == Rule::PacketStmts
        &&& n == 3 ==> kids[1].rule == Rule::PacketAttrs && kids[2].rule == Rule::PacketStmts
    } else if rule == Rule::StateTransition {
        (n == 2 || n == 3) && kids[0].rule == Rule::StateRef && kids[1].rule == Rule::StateRef && (n == 3 ==> kids[2].rule
            == Rule::Trigger)
    } else if rule == Rule::StateStmts {
        rules_are(kids, 0, n, Rule::StateTransition)
    } else if rule == Rule::StateDecl {
        n == 2 && kids[0].rule == Rule::Identifier && kids[1].rule == Rule::StateStmts
    } else if rule == Rule::XyProp {
        n == 2 && kids[0].rule == Rule::Identifier && (kids[1].rule == Rule::StringLiteral || kids[1].rule == Rule::RawValue)
    } else if rule == Rule::XyStmts {
        rules_are(kids, 0, n, Rule::XyProp)
    } else if rule == Rule::XyDecl {
        n == 2 && kids[0].rule == Rule::Identifier && kids[1].rule == Rule::XyStmts
    } else if rule == Rule::SqltableField {
        let k = if n > 0 && kids[0].rule == Rule::PkFk { 1int } else { 0int };
        &&& n >= k + 2
        &&& n <= k + 3
        &&& kids[k].rule == Rule::Identifier
        &&& kids[k + 1].rule == Rule::SqlType
        &&& n == k + 3 ==> kids[k + 2].rule == Rule::Identifier
    } else if rule == Rule::SqltableDecl {
        n >= 1 && kids[0].rule == Rule::Identifier && rules_are(kids, 1, n, Rule::SqltableField)
    } else if rule == Rule::VariableDecl {
        n == 2 && kids[0].rule == Rule::Identifier && kids[1].rule == Rule::MathExpression
    } else if rule == Rule::File {
        forall|i: int| 0 <= i < n ==> item_rule((#[trigger] kids[i]).rule)
    } else {
        false
    }
}

/// The nodes `kids` lie in order inside `[lo, hi)`, each well spanned.
pub open spec fn ordered_within(input: Seq<char>, kids: Seq<Pair>, lo: int, hi: int) -> bool
    decreases kids, 0nat,
{
    if kids.len() == 0 {
        lo <= hi
    } else {
        &&& ordered_within(input, kids.subrange(0, kids.len() - 1), lo, kids[kids.len() - 1].start as int)
        &&& kids[kids.len() - 1].end <= hi
        &&& spans_ok(input, kids[kids.len() - 1])
    }
}

/// Whether `c` is white space between tokens.
pub open spec fn space(c: char) -> bool {
    c == ' ' || c == '\t' || c == '\r' || c == '\n'
}

/// Whether a text holds only white space and `//` comments (a comment runs
/// to the end of its line).
pub open spec fn blank(s: Seq<char>) -> bool
    decreases s.len(),
{
    if s.len() == 0 {
        true
    } else if space(s[0]) {
        blank(s.drop_first())
    } else if s.len() >= 2 && s[0] == '/' && s[1] == '/' {
        let i = index_of_char(s, '\n');
        if i < 0 {
            true
        } else {
            proof {
                lemma_index_of_char(s, '\n');
            }
            blank(s.skip(i))
        }
    } else {
        false
    }
}

/// Where the white space and `//` comments that start at `p` end: the
/// first position that is neither white space nor the start of a comment
/// (a comment runs up to its line break).
pub open spec fn ws_end(s: Seq<char>, p: int) -> int
    decreases s.len() - p,
{
    if p < 0 || p >= s.len() {
        p
    } else if space(s[p]) {
        ws_end(s, p + 1)
    } else if p + 1 < s.len() && s[p] == '/' && s[p + 1] == '/' {
        let i = index_of_char(s.skip(p), '\n');
        if i < 0 {
            s.len() as int
        } else {
            proof {
                lemma_index_of_char(s.skip(p), '\n');
            }
            ws_end(s, p + i)
        }
    } else {
        p
    }
}

/// Skipping white space twice skips no more than once.
proof fn lemma_ws_end_idem(s: Seq<char>, p: int)
    ensures
        ws_end(s, ws_end(s, p)) == ws_end(s, p),
    decreases s.len() - p,
{
    if 0 <= p < s.len() {
        if space(s[p]) {
            lemma_ws_end_idem(s, p + 1);
        } else if p + 1 < s.len() && s[p] == '/' && s[p + 1] == '/' {
            let i = index_of_char(s.skip(p), '\n');
            lemma_index_of_char(s.skip(p), '\n');
            if i >= 0 {
                assert(s.skip(p)[0] == s[p]);
                lemma_ws_end_idem(s, p + i);
            }
        }
    }
}

/// Where the spaces and tabs that start at `p` end.
pub open spec fn inline_end(s: Seq<char>, p: int) -> int
    decreases s.len() - p,
{
    if 0 <= p < s.len() && (s[p] == ' ' || s[p] == '\t') {
        inline_end(s, p + 1)
    } else {
        p
    }
}

/// An identifier token spans `[a, e)`: it is an identifier and the next
/// character cannot go on with it.
pub open spec fn ident_at(s: Seq<char>, a: int, e: int) -> bool {
    &&& 0 <= a < e <= s.len()
    &&& ident_text(s.subrange(a, e))
    &&& e == s.len() || !ident_char(s[e])
}

/// An identifier token starts at `a`.
pub open spec fn starts_ident(s: Seq<char>, a: int) -> bool {
    exists|e: int| #[trigger] ident_at(s, a, e)
}

/// A number starts at `a`: a digit, after an optional `-`.
pub open spec fn number_start(s: Seq<char>, a: int) -> bool {
    let d = if 0 <= a < s.len() && s[a] == '-' { a + 1 } else { a };
    0 <= a && d < s.len() && digit(s[d])
}

/// A double quote stands at `j`.
pub open spec fn quote_at(s: Seq<char>, j: int) -> bool {
    0 <= j < s.len() && s[j] == '"'
}

/// A string literal starts at `a`: a double quote with another after it.
pub open spec fn string_start(s: Seq<char>, a: int) -> bool {
    quote_at(s, a) && exists|j: int| a < j && #[trigger] quote_at(s, j)
}

/// An operator starts at `a`.
pub open spec fn operator_start(s: Seq<char>, a: int) -> bool {
    ||| 0 <= a && a + 1 < s.len() && s[a + 1] == '=' && (s[a] == '=' || s[a] == '!' || s[a] == '<' || s[a] == '>')
    ||| 0 <= a < s.len() && (s[a] == '<' || s[a] == '>' || s[a] == '+' || s[a] == '-' || s[a] == '*' || s[a] == '/')
}

/// A term of a math expression starts at `a`: an identifier (alone, as a
/// property reference or as a function's name), a number or a string.
pub open spec fn term_start(s: Seq<char>, a: int) -> bool {
    starts_ident(s, a) || number_start(s, a) || string_start(s, a)
}

/// A property reference starts at `a`: an identifier token, `.`, and
/// another identifier token.
pub open spec fn prop_ref_start(s: Seq<char>, a: int) -> bool {
    exists|e: int| #[trigger] ident_at(s, a, e) && e < s.len() && s[e] == '.' && starts_ident(s, e + 1)
}

/// A state reference starts at `a`: `[*]` or an identifier token.
pub open spec fn state_ref_start(s: Seq<char>, a: int) -> bool {
    (0 <= a && a + 2 < s.len() && s[a] == '[' && s[a + 1] == '*' && s[a + 2] == ']') || starts_ident(s, a)
}

/// Where a bracketed label that starts on the line at `p` ends: after the
/// first `]` past the `[` that follows the spaces and tabs; `p` itself
/// when there is no such label.
pub open spec fn label_end(s: Seq<char>, p: int) -> int {
    let b = inline_end(s, p);
    let i = index_of_char(s.skip(b + 1), ']');
    if 0 <= b < s.len() && s[b] == '[' && i >= 0 {
        b + 1 + i + 1
    } else {
        p
    }
}

/// Where the string literal that starts at `a` ends: after the first
/// double quote past the opening one.
pub open spec fn string_end(s: Seq<char>, a: int) -> int {
    a + 1 + index_of_char(s.skip(a + 1), '"') + 1
}

/// A call without arguments starts at `a`: a name that is one identifier
/// token, then `(` and `)`, with white space around them.
pub open spec fn empty_call_at(s: Seq<char>, a: int) -> bool {
    exists|e: int|
        #[trigger] ident_at(s, a, e) && !(e < s.len() && s[e] == '.') && mark(s, ws_end(s, e), '(') && mark(
            s,
            ws_end(s, ws_end(s, e) + 1),
            ')',
        )
}

/// The characters of an attribute key run from `a` to `k`, as far as they
/// go.
pub open spec fn key_at(s: Seq<char>, a: int, k: int) -> bool {
    &&& 0 <= a < k <= s.len()
    &&& forall|j: int| a <= j < k ==> key_char(#[trigger] s[j])
    &&& k == s.len() || !key_char(s[k])
}

/// What may follow an attribute key that ends at `k`: no `:`, or `:` and a
/// quoted or unquoted value.
pub open spec fn attr_value_ok(s: Seq<char>, k: int) -> bool {
    let q = ws_end(s, k);
    let v = ws_end(s, q + 1);
    !mark(s, q, ':') || string_start(s, v) || (0 <= v < s.len() && value_char(s[v]))
}

/// An attribute starts at `a`: a key and what may follow it.
pub open spec fn attr_start(s: Seq<char>, a: int) -> bool {
    exists|k: int| #[trigger] key_at(s, a, k) && attr_value_ok(s, k)
}

/// A property starts at `a`: an identifier token, `:`, and a term.
pub open spec fn property_start(s: Seq<char>, a: int) -> bool {
    exists|e: int|
        #[trigger] ident_at(s, a, e) && mark(s, ws_end(s, e), ':') && term_start(s, ws_end(s, ws_end(s, e) + 1))
}

/// Where the identifier of a node declaration that starts at `a` stands:
/// after the `node` keyword and white space, when they are there.
pub open spec fn node_id_at(s: Seq<char>, a: int) -> int {
    let k = a + "node"@.len();
    if keyword_at(s, a, "node"@) && ws_end(s, k) > k {
        ws_end(s, k)
    } else {
        a
    }
}

/// A statement of a diagram may start at `a`: a `[` or a letter or `_`.
pub open spec fn stmt_start(s: Seq<char>, a: int) -> bool {
    0 <= a < s.len() && (s[a] == '[' || ident_start(s[a]))
}

/// An arrow `->`, `>>` or `==` stands at `x`.
pub open spec fn arrow_at(s: Seq<char>, x: int) -> bool {
    0 <= x && x + 1 < s.len() && ((s[x] == '-' && s[x + 1] == '>') || (s[x] == '>' && s[x + 1] == '>') || (s[x] == '='
        && s[x + 1] == '='))
}

/// A connection with a plain arrow starts at `a`: an identifier token, an
/// optional label, an arrow and an identifier token, on one line.
pub open spec fn plain_connection_at(s: Seq<char>, a: int) -> bool {
    exists|fe: int|
        #[trigger] ident_at(s, a, fe) && arrow_at(s, inline_end(s, label_end(s, fe))) && starts_ident(
            s,
            inline_end(s, inline_end(s, label_end(s, fe)) + 2),
        )
}

/// A scenario declaration starts at `a`: `[`, `scenario`, `:`, a string
/// literal and `]`, with white space between them.
pub open spec fn scenario_start(s: Seq<char>, a: int) -> bool {
    let k = ws_end(s, a + 1);
    let c = ws_end(s, k + "scenario"@.len());
    let l = ws_end(s, c + 1);
    &&& mark(s, a, '[')
    &&& keyword_at(s, k, "scenario"@)
    &&& mark(s, c, ':')
    &&& string_start(s, l)
    &&& mark(s, ws_end(s, string_end(s, l)), ']')
}

/// A `}` stands at `j`.
pub open spec fn close_brace_at(s: Seq<char>, j: int) -> bool {
    0 <= j < s.len() && s[j] == '}'
}

/// A style declaration starts at `a`: `style`, an identifier token, `{`,
/// and a `}` after it.
pub open spec fn style_start(s: Seq<char>, a: int) -> bool {
    exists|ie: int|
        keyword_at(s, a, "style"@) && #[trigger] ident_at(s, ws_end(s, a + "style"@.len()), ie) && mark(
            s,
            ws_end(s, ie),
            '{',
        ) && exists|j: int| ws_end(s, ie) < j && #[trigger] close_brace_at(s, j)
}

/// The keyword `w`, an identifier token, and an empty block `{ }` start at
/// `a`.
pub open spec fn empty_block_decl_at(s: Seq<char>, a: int, w: Seq<char>) -> bool {
    exists|ie: int|
        keyword_at(s, a, w) && #[trigger] ident_at(s, ws_end(s, a + w.len()), ie) && mark(s, ws_end(s, ie), '{') && mark(
            s,
            ws_end(s, ws_end(s, ie) + 1),
            '}',
        )
}

/// Where the digits that start at `a` end.
pub open spec fn digits_end(s: Seq<char>, a: int) -> int
    decreases s.len() - a,
{
    if 0 <= a < s.len() && digit(s[a]) {
        digits_end(s, a + 1)
    } else {
        a
    }
}

/// Where the bit range that starts at `a` ends: its digits, then `..` or
/// `-` and digits when digits follow.
pub open spec fn range_end(s: Seq<char>, a: int) -> int {
    let k = digits_end(s, a);
    let sep = if k + 1 < s.len() && s[k] == '.' && s[k + 1] == '.' {
        k + 2
    } else if k < s.len() && s[k] == '-' {
        k + 1
    } else {
        k
    };
    if sep > k && digits_end(s, sep) > sep {
        digits_end(s, sep)
    } else {
        k
    }
}

/// A packet field starts at `a`: a bit range, `:`, an identifier token.
pub open spec fn packet_field_start(s: Seq<char>, a: int) -> bool {
    let c = ws_end(s, range_end(s, a));
    0 <= a < s.len() && digit(s[a]) && mark(s, c, ':') && starts_ident(s, ws_end(s, c + 1))
}

/// A state reference spans `[a, e)`.
pub open spec fn state_ref_at(s: Seq<char>, a: int, e: int) -> bool {
    if 0 <= a && a + 2 < s.len() && s[a] == '[' && s[a + 1] == '*' && s[a + 2] == ']' {
        e == a + 3
    } else {
        ident_at(s, a, e)
    }
}

/// A transition starts at `a`: a state reference, `->`, a state
/// reference.
pub open spec fn transition_start(s: Seq<char>, a: int) -> bool {
    exists|fe: int|
        #[trigger] state_ref_at(s, a, fe) && ws_end(s, fe) + 1 < s.len() && s[ws_end(s, fe)] == '-' && s[ws_end(s, fe) + 1]
            == '>' && state_ref_start(s, ws_end(s, ws_end(s, fe) + 2))
}

/// A property of an XY chart starts at `a`: an identifier token, `:`, and
/// on the same line a string literal or an unquoted value.
pub open spec fn xy_prop_start(s: Seq<char>, a: int) -> bool {
    exists|ie: int|
        #[trigger] ident_at(s, a, ie) && mark(s, ws_end(s, ie), ':') && {
            let v = inline_end(s, ws_end(s, ie) + 1);
            string_start(s, v) || (0 <= v < s.len() && value_char(s[v]))
        }
}

/// A column of a SQL table without `PK` or `FK` starts at `a`: an
/// identifier token (neither `PK` nor `FK`), `:` and a type.
pub open spec fn plain_sql_field_at(s: Seq<char>, a: int) -> bool {
    exists|ne: int|
        #[trigger] ident_at(s, a, ne) && s.subrange(a, ne) != "PK"@ && s.subrange(a, ne) != "FK"@ && mark(s, ws_end(s, ne), ':')
            && {
            let t = ws_end(s, ws_end(s, ne) + 1);
            0 <= t < s.len() && ident_char(s[t])
        }
}

/// A variable declaration starts at `a`: `let`, an identifier token, `=`,
/// and a term.
pub open spec fn variable_start(s: Seq<char>, a: int) -> bool {
    exists|ie: int|
        keyword_at(s, a, "let"@) && #[trigger] ident_at(s, ws_end(s, a + "let"@.len()), ie) && mark(s, ws_end(s, ie), '=')
            && term_start(s, ws_end(s, ws_end(s, ie) + 1))
}

/// An identifier token starts with a letter or `_`.
proof fn lemma_ident_first(s: Seq<char>, a: int)
    requires
        starts_ident(s, a),
    ensures
        0 <= a < s.len() && ident_start(s[a]),
{
    let e = choose|e: int| ident_at(s, a, e);
    assert(s.subrange(a, e)[0] == s[a]);
}

/// A state reference that starts at `a` ends in one place.
proof fn lemma_state_ref_unique(s: Seq<char>, a: int, e1: int, e2: int)
    requires
        state_ref_at(s, a, e1),
        state_ref_at(s, a, e2),
    ensures
        e1 == e2,
{
    if !(0 <= a && a + 2 < s.len() && s[a] == '[' && s[a + 1] == '*' && s[a + 2] == ']') {
        lemma_ident_unique(s, a, e1, e2);
    }
}

/// The keyword `w` stands at `a`, not followed by a character of an
/// identifier.
pub open spec fn keyword_at(s: Seq<char>, a: int, w: Seq<char>) -> bool {
    word_at(s, a, w) && (a + w.len() == s.len() || !ident_char(s[a + w.len()]))
}

/// Two runs of characters from `a`, each ending where the property stops
/// holding, end at the same place.
proof fn lemma_run_unique(s: Seq<char>, a: int, e1: int, e2: int, f: spec_fn(char) -> bool)
    requires
        0 <= a <= e1 <= s.len(),
        0 <= a <= e2 <= s.len(),
        forall|j: int| a <= j < e1 ==> f(#[trigger] s[j]),
        forall|j: int| a <= j < e2 ==> f(#[trigger] s[j]),
        e1 == s.len() || !f(s[e1]),
        e2 == s.len() || !f(s[e2]),
    ensures
        e1 == e2,
{
    if e1 < e2 {
        assert(f(s[e1]));
    } else if e2 < e1 {
        assert(f(s[e2]));
    }
}

/// An identifier token that starts at `a` ends in one place.
proof fn lemma_ident_unique(s: Seq<char>, a: int, e1: int, e2: int)
    requires
        ident_at(s, a, e1),
        ident_at(s, a, e2),
    ensures
        e1 == e2,
{
    let f = |c: char| ident_char(c);
    assert forall|j: int| a <= j < e1 implies f(#[trigger] s[j]) by {
        assert(s.subrange(a, e1)[j - a] == s[j]);
    }
    assert forall|j: int| a <= j < e2 implies f(#[trigger] s[j]) by {
        assert(s.subrange(a, e2)[j - a] == s[j]);
    }
    lemma_run_unique(s, a, e1, e2, f);
}

/// Whether a text holds only white space and `//` comments, each comment
/// ending with its line break inside the text.
pub open spec fn closed_blank(s: Seq<char>) -> bool
    decreases s.len(),
{
    if s.len() == 0 {
        true
    } else if space(s[0]) {
        closed_blank(s.drop_first())
    } else if s.len() >= 2 && s[0] == '/' && s[1] == '/' {
        let i = index_of_char(s, '\n');
        if i < 0 {
            false
        } else {
            proof {
                lemma_index_of_char(s, '\n');
            }
            closed_blank(s.skip(i))
        }
    } else {
        false
    }
}

/// Between, before and after the nodes `kids` inside `[lo, hi)` there is
/// only white space and comments.
pub open spec fn gaps_blank(input: Seq<char>, kids: Seq<Pair>, lo: int, hi: int) -> bool
    decreases kids.len(),
{
    if kids.len() == 0 {
        blank_at(input, lo, hi)
    } else {
        &&& gaps_blank(input, kids.subrange(0, kids.len() - 1), lo, kids[kids.len() - 1].start as int)
        &&& blank_at(input, kids[kids.len() - 1].end as int, hi)
    }
}

proof fn lemma_index_concat(a: Seq<char>, b: Seq<char>, c: char)
    ensures
        index_of_char(a + b, c) == if index_of_char(a, c) >= 0 {
            index_of_char(a, c)
        } else if index_of_char(b, c) >= 0 {
            a.len() + index_of_char(b, c)
        } else {
            -1
        },
{
    lemma_index_of_char(a, c);
    lemma_index_of_char(b, c);
    let s = a + b;
    let k = if index_of_char(a, c) >= 0 {
        index_of_char(a, c)
    } else if index_of_char(b, c) >= 0 {
        a.len() + index_of_char(b, c)
    } else {
        -1
    };
    assert forall|j: int| 0 <= j < s.len() && (k < 0 || j < k) implies s[j] != c by {
        if j < a.len() {
            assert(s[j] == a[j]);
        } else {
            assert(s[j] == b[j - a.len()]);
        }
    }
    if k >= 0 {
        if index_of_char(a, c) >= 0 {
            assert(s[k] == a[k]);
        } else {
            assert(s[k] == b[k - a.len()]);
        }
    }
    lemma_index_of_char_unique(s, c, k);
}

/// White space with closed comments, followed by more white space, is
/// white space (closed when the second part is).
proof fn lemma_closed_concat(a: Seq<char>, b: Seq<char>)
    requires
        closed_blank(a),
    ensures
        closed_blank(b) ==> closed_blank(a + b),
        blank(b) ==> blank(a + b),
    decreases a.len(),
{
    let s = a + b;
    if a.len() == 0 {
        assert(s =~= b);
    } else if space(a[0]) {
        assert(s[0] == a[0]);
        assert(s.drop_first() =~= a.drop_first() + b);
        lemma_closed_concat(a.drop_first(), b);
    } else {
        assert(s[0] == a[0] && s[1] == a[1]);
        lemma_index_concat(a, b, '\n');
        lemma_index_of_char(a, '\n');
        let i = index_of_char(a, '\n');
        assert(s.skip(i) =~= a.skip(i) + b);
        lemma_closed_concat(a.skip(i), b);
    }
}

/// `input[a..b)` lies in the input and holds only white space and
/// comments; a comment ends with its line break, unless it runs to the end
/// of the input.
pub open spec fn blank_at(input: Seq<char>, a: int, b: int) -> bool {
    &&& 0 <= a <= b <= input.len()
    &&& closed_blank(input.subrange(a, b)) || (b == input.len() && blank(input.subrange(a, b)))
}

/// `input[a..b)` lies in the input and holds only spaces and tabs.
pub open spec fn inline_at(input: Seq<char>, a: int, b: int) -> bool {
    0 <= a <= b <= input.len() && forall|i: int| a <= i < b ==> (#[trigger] input[i] == ' ' || input[i] == '\t')
}

/// The character at `m` is `c`.
pub open spec fn mark(input: Seq<char>, m: int, c: char) -> bool {
    0 <= m < input.len() && input[m] == c
}

/// The word `w` stands at `a`.
pub open spec fn word_at(input: Seq<char>, a: int, w: Seq<char>) -> bool {
    0 <= a && a + w.len() <= input.len() && input.subrange(a, a + w.len()) == w
}

/// `input[a..b)` is white space, the character `c`, white space.
pub open spec fn around(input: Seq<char>, a: int, b: int, c: char) -> bool {
    exists|m: int| blank_at(input, a, m) && #[trigger] mark(input, m, c) && blank_at(input, m + 1, b)
}

/// `input[a..b)` is white space, optionally followed by `,` or `;` and
/// white space.
pub open spec fn separator(input: Seq<char>, a: int, b: int) -> bool {
    blank_at(input, a, b) || around(input, a, b, ',') || around(input, a, b, ';')
}

/// `input[a..b)` is spaces and tabs, the word `w`, spaces and tabs.
pub open spec fn inline_word(input: Seq<char>, a: int, b: int, w: Seq<char>) -> bool {
    exists|m: int| inline_at(input, a, m) && #[trigger] word_at(input, m, w) && inline_at(input, m + w.len(), b)
}

/// `input[a..b)` is white space, the word `w`, white space.
pub open spec fn blank_word(input: Seq<char>, a: int, b: int, w: Seq<char>) -> bool {
    exists|m: int| blank_at(input, a, m) && #[trigger] word_at(input, m, w) && blank_at(input, m + w.len(), b)
}

/// `input[a..b)` is empty, or a bracketed label on the same line: spaces
/// and tabs, `[`, characters other than `]`, `]`.
pub open spec fn label_at(input: Seq<char>, a: int, b: int) -> bool {
    ||| a == b
    ||| exists|m: int| inline_at(input, a, m) && #[trigger] mark(input, m, '[') && m < b - 1 && mark(input, b - 1, ']')
        && forall|i: int| m < i < b - 1 ==> input[i] != ']'
}

/// Where the part before child `i` ends: the node's start for the first.
pub open spec fn before(kids: Seq<Pair>, i: int, start: int) -> int {
    if i == 0 {
        start
    } else {
        kids[i - 1].end as int
    }
}

/// A keyword, then white space up to `b`.
pub open spec fn keyword_then(input: Seq<char>, a: int, b: int, w: Seq<char>) -> bool {
    word_at(input, a, w) && blank_at(input, a + w.len(), b)
}

/// What stands around and between the children of a node of `rule` that
/// spans `[start, end)` (see [`layout_rules`]).
#[verifier::opaque]
pub open spec fn layout(input: Seq<char>, rule: Rule, start: int, end: int, kids: Seq<Pair>) -> bool {
    layout_rules(input, rule, start, end, kids)
}

/// Only white space between child `i - 1` and child `i`.
pub open spec fn blank_gap(input: Seq<char>, kids: Seq<Pair>, i: int) -> bool {
    blank_at(input, kids[i - 1].end as int, kids[i].start as int)
}

/// Only white space between consecutive children from child `from` on.
pub open spec fn blank_gaps(input: Seq<char>, kids: Seq<Pair>, from: int) -> bool {
    forall|i: int| from <= i < kids.len() ==> #[trigger] blank_gap(input, kids, i)
}

/// What stands before child `i` (not the first) of a function call: `.`
/// between the parts of its name, `(` before the first argument, `,`
/// between arguments.
pub open spec fn call_gap(input: Seq<char>, kids: Seq<Pair>, i: int) -> bool {
    let prev = kids[i - 1];
    let k = kids[i];
    let a = prev.end as int;
    if k.rule == Rule::Identifier {
        mark(input, a, '.') && k.start == a + 1
    } else if prev.rule == Rule::Identifier {
        around(input, a, k.start as int, '(')
    } else {
        around(input, a, k.start as int, ',')
    }
}

/// What stands before child `i` (not the first) of a list in brackets:
/// for property blocks an optional `,` or `;`, for attributes a `,`.
pub open spec fn list_gap(input: Seq<char>, rule: Rule, kids: Seq<Pair>, i: int) -> bool {
    let a = kids[i - 1].end as int;
    let b = kids[i].start as int;
    if rule == Rule::PropertyBlock {
        separator(input, a, b)
    } else {
        around(input, a, b, ',')
    }
}

/// What stands before part `i` (not the first) of a node declaration, on
/// its line: `:::` before the class, nothing but spaces before the
/// attributes and the properties.
pub open spec fn node_gap(input: Seq<char>, kids: Seq<Pair>, i: int) -> bool {
    let a = kids[i - 1].end as int;
    let b = kids[i].start as int;
    if kids[i].rule == Rule::Identifier {
        inline_word(input, a, b, ":::"@)
    } else {
        inline_at(input, a, b)
    }
}

/// What stands around and between the children of a node of `rule` that
/// spans `[start, end)`: the grammar's punctuation and keywords, and white
/// space where the grammar allows it.
pub open spec fn layout_rules(input: Seq<char>, rule: Rule, start: int, end: int, kids: Seq<Pair>) -> bool {
    let n = kids.len() as int;
    if rule == Rule::MathTerm {
        kids[0].start == start && kids[0].end == end
    } else if rule == Rule::MathExpression {
        kids[0].start == start && kids[n - 1].end == end && blank_gaps(input, kids, 1)
    } else if rule == Rule::FunctionCall {
        &&& kids[0].start == start
        &&& mark(input, end - 1, ')')
        &&& forall|i: int| 1 <= i < n ==> #[trigger] call_gap(input, kids, i)
        &&& if kids[n - 1].rule == Rule::Identifier {
            around(input, kids[n - 1].end as int, end - 1, '(')
        } else {
            blank_at(input, kids[n - 1].end as int, end - 1)
        }
    } else if rule == Rule::Property {
        kids[0].start == start && around(input, kids[0].end as int, kids[1].start as int, ':') && kids[1].end == end
    } else if rule == Rule::PropertyBlock || rule == Rule::Attributes {
        let (open, close) = if rule == Rule::PropertyBlock { ('{', '}') } else { ('[', ']') };
        &&& mark(input, start, open)
        &&& mark(input, end - 1, close)
        &&& n == 0 ==> blank_at(input, start + 1, end - 1)
        &&& n > 0 ==> blank_at(input, start + 1, kids[0].start as int)
        &&& forall|i: int| 1 <= i < n ==> #[trigger] list_gap(input, rule, kids, i)
        &&& n > 0 ==> if rule == Rule::PropertyBlock {
            separator(input, kids[n - 1].end as int, end - 1)
        } else {
            blank_at(input, kids[n - 1].end as int, end - 1) || around(input, kids[n - 1].end as int, end - 1, ',')
        }
    } else if rule == Rule::Attribute {
        &&& kids[0].start == start
        &&& n == 1 ==> kids[0].end == end
        &&& n == 2 ==> {
            ||| around(input, kids[0].end as int, kids[1].start - 1, ':') && mark(input, kids[1].start - 1, '"')
                && kids[1].end == end - 1 && mark(input, end - 1, '"') && none_of(kids[1].text@, '"')
            ||| around(input, kids[0].end as int, kids[1].start as int, ':') && kids[1].end == end && raw_value_text(
                kids[1].text@,
            ) && raw_value_ends(input, end)
        }
    } else if rule == Rule::NodeDecl {
        &&& kids[0].start == start || keyword_then(input, start, kids[0].start as int, "node"@)
        &&& kids[n - 1].end == end
        &&& forall|i: int| 1 <= i < n ==> #[trigger] node_gap(input, kids, i)
    } else if rule == Rule::Connection {
        &&& kids[0].start == start
        &&& exists|m: int| label_at(input, kids[0].end as int, m) && #[trigger] inline_at(input, m, kids[1].start as int)
        &&& inline_at(input, kids[1].end as int, kids[2].start as int)
        &&& n == 3 ==> label_at(input, kids[2].end as int, end)
        &&& n == 4 ==> kids[3].end == end && exists|m: int| label_at(input, kids[2].end as int, m) && #[trigger] inline_word(
            input,
            m,
            kids[3].start as int,
            seq![':'],
        )
    } else if rule == Rule::AttrArrow {
        mark(input, start, '-') && kids[0].start == start + 1 && kids[0].end == end - 2 && word_at(input, end - 2, "->"@)
    } else if rule == Rule::ScenarioDecl {
        &&& mark(input, start, '[')
        &&& exists|m: int| blank_at(input, start + 1, m) && #[trigger] word_at(input, m, "scenario"@) && around(
            input,
            m + 8,
            kids[0].start as int,
            ':',
        )
        &&& blank_at(input, kids[0].end as int, end - 1)
        &&& mark(input, end - 1, ']')
    } else if rule == Rule::StyleDecl {
        &&& keyword_then(input, start, kids[0].start as int, "style"@)
        &&& blank_at(input, kids[0].end as int, kids[1].start - 1)
        &&& mark(input, kids[1].start - 1, '{')
        &&& kids[1].end == end - 1
        &&& mark(input, end - 1, '}')
    } else if rule == Rule::LayerBlock || rule == Rule::SqltableDecl {
        &&& keyword_then(input, start, kids[0].start as int, if rule == Rule::LayerBlock { "layer"@ } else { "sqltable"@ })
        &&& mark(input, end - 1, '}')
        &&& n == 1 ==> around(input, kids[0].end as int, end - 1, '{')
        &&& n > 1 ==> around(input, kids[0].end as int, kids[1].start as int, '{')
        &&& blank_gaps(input, kids, 2)
        &&& n > 1 ==> blank_at(input, kids[n - 1].end as int, end - 1)
    } else if rule == Rule::Diagram {
        &&& mark(input, start, '#')
        &&& inline_at(input, start + 1, kids[0].start as int)
        &&& (kids[0].end == input.len() || mark(input, kids[0].end as int, '\n'))
        &&& blank_gaps(input, kids, 1)
        &&& kids[n - 1].end == end
    } else if rule == Rule::PacketField {
        &&& kids[0].start == start
        &&& around(input, kids[0].end as int, kids[1].start as int, ':')
        &&& n == 2 ==> kids[1].end == end
        &&& n == 3 ==> inline_at(input, kids[1].end as int, kids[2].start - 1) && mark(input, kids[2].start - 1, '[')
            && kids[2].end == end - 1 && mark(input, end - 1, ']')
    } else if rule == Rule::PacketStmts || rule == Rule::StateStmts || rule == Rule::XyStmts || rule == Rule::File {
        gaps_blank(input, kids, start, end)
    } else if rule == Rule::PacketDecl || rule == Rule::StateDecl || rule == Rule::XyDecl {
        &&& keyword_then(
            input,
            start,
            kids[0].start as int,
            if rule == Rule::PacketDecl { "packet"@ } else if rule == Rule::StateDecl { "state"@ } else { "xy"@ },
        )
        &&& n == 2 ==> blank_at(input, kids[0].end as int, kids[1].start - 1) && mark(input, kids[1].start - 1, '{')
        &&& n == 3 ==> blank_at(input, kids[0].end as int, kids[1].start - 1) && mark(input, kids[1].start - 1, '[')
            && mark(input, kids[1].end as int, ']') && blank_at(input, kids[1].end + 1, kids[2].start - 1) && mark(
            input,
            kids[2].start - 1,
            '{',
        )
        &&& kids[n - 1].end == end - 1
        &&& mark(input, end - 1, '}')
    } else if rule == Rule::StateTransition {
        &&& kids[0].start == start
        &&& blank_word(input, kids[0].end as int, kids[1].start as int, "->"@)
        &&& n == 3 ==> inline_at(input, kids[1].end as int, kids[2].start as int)
        &&& kids[n - 1].end == end
    } else if rule == Rule::XyProp {
        &&& kids[0].start == start
        &&& exists|m: int| blank_at(input, kids[0].end as int, m) && #[trigger] mark(input, m, ':') && inline_at(
            input,
            m + 1,
            kids[1].start as int,
        )
        &&& kids[1].end == end
    } else if rule == Rule::SqltableField {
        let k = if kids[0].rule == Rule::PkFk { 1int } else { 0int };
        &&& kids[0].start == start
        &&& k == 1 ==> blank_at(input, kids[0].end as int, kids[1].start as int)
        &&& around(input, kids[k].end as int, kids[k + 1].start as int, ':')
        &&& n == k + 3 ==> inline_word(input, kids[k + 1].end as int, kids[k + 2].start as int, "->"@)
        &&& kids[n - 1].end == end
    } else if rule == Rule::VariableDecl {
        &&& keyword_then(input, start, kids[0].start as int, "let"@)
        &&& around(input, kids[0].end as int, kids[1].start as int, '=')
        &&& kids[1].end == end
    } else {
        n == 0 && leaf_ends(input, rule, start, end)
    }
}

/// Where a token of `rule` that spans `[start, end)` may end: it takes all
/// of the characters it can.
pub open spec fn leaf_ends(input: Seq<char>, rule: Rule, start: int, end: int) -> bool {
    let at_end = end == input.len();
    if rule == Rule::Identifier {
        at_end || !ident_char(input[end])
    } else if rule == Rule::Number {
        at_end || (!digit(input[end]) && (input[start] == '-' || !unit_char(input[end])))
    } else if rule == Rule::NumberWithUnit {
        at_end || !unit_char(input[end])
    } else if rule == Rule::AttrKey {
        at_end || !key_char(input[end])
    } else if rule == Rule::BitRange {
        at_end || !digit(input[end])
    } else if rule == Rule::StateRef {
        input.subrange(start, end) == "[*]"@ || at_end || !ident_char(input[end])
    } else if rule == Rule::RawValue {
        raw_value_ends(input, end)
    } else if rule == Rule::Trigger || rule == Rule::PacketConstraint {
        at_end || input[end] == '\n' || input[end] == '}'
    } else {
        true
    }
}

/// What a reader that starts at `p` gives back: nothing, or a node of
/// `rule` that starts at or after `p`, ends where reading stopped, and is
/// well spanned.
pub open spec fn parsed(input: Seq<char>, p: int, r: Option<(Pair, usize)>, rule: Rule) -> bool {
    match r {
        Some(x) => x.0.rule == rule && p <= x.0.start && x.0.end == x.1 && spans_ok(input, x.0) && blank_at(
            input,
            p,
            x.0.start as int,
        ),
        None => true,
    }
}

/// White space followed by white space is white space.
proof fn lemma_blank_join(input: Seq<char>, a: int, b: int, c: int)
    requires
        blank_at(input, a, b),
        blank_at(input, b, c),
    ensures
        blank_at(input, a, c),
{
    if closed_blank(input.subrange(a, b)) {
        lemma_closed_concat(input.subrange(a, b), input.subrange(b, c));
        assert(input.subrange(a, b) + input.subrange(b, c) =~= input.subrange(a, c));
    } else {
        assert(input.subrange(a, c) =~= input.subrange(a, b));
    }
}

/// Digits from `a` to `k`, then nothing or `.` and digits up to `e`, make
/// a numeral of `cs[s..e)` from `a - s` on.
proof fn lemma_numeral(cs: Seq<char>, s: int, a: int, k: int, e: int)
    requires
        0 <= s <= a < k <= e <= cs.len(),
        forall|j: int| a <= j < k ==> digit(#[trigger] cs[j]),
        k == e || (cs[k] == '.' && k + 1 < e && forall|j: int| k + 1 <= j < e ==> digit(#[trigger] cs[j])),
    ensures
        numeral_from(cs.subrange(s, e), a - s),
{
    let t = cs.subrange(s, e);
    assert forall|i: int| a - s <= i < k - s implies digit(#[trigger] t[i]) by {
        assert(t[i] == cs[s + i]);
    }
    if k < e {
        assert(t[k - s] == cs[k]);
        assert forall|i: int| k - s + 1 <= i < t.len() implies digit(#[trigger] t[i]) by {
            assert(t[i] == cs[s + i]);
        }
    }
    assert(fraction_at(t, k - s));
}

/// A stretch of white space that is not empty starts with white space or
/// `/`.
proof fn lemma_blank_first(input: Seq<char>, a: int, b: int)
    requires
        blank_at(input, a, b),
        a < b,
    ensures
        space(input[a]) || input[a] == '/',
{
    assert(input.subrange(a, b)[0] == input[a]);
}

/// A reader that skips white space from `p` and finds `c` there, when `c`
/// is neither white space nor `/`, starts at `p`.
proof fn lemma_starts_at(input: Seq<char>, p: int, s: int, c: char)
    requires
        blank_at(input, p, s),
        mark(input, p, c),
        !space(c),
        c != '/',
    ensures
        s == p,
{
    if p < s {
        lemma_blank_first(input, p, s);
    }
}

/// Appending a node after white space keeps the gaps between children
/// blank.
proof fn lemma_blank_gaps_push(input: Seq<char>, kids: Seq<Pair>, c: Pair, from: int)
    requires
        blank_gaps(input, kids, from),
        1 <= from,
        from <= kids.len() ==> blank_at(input, kids[kids.len() - 1].end as int, c.start as int),
    ensures
        blank_gaps(input, kids.push(c), from),
{
    let k = kids.push(c);
    assert forall|i: int| from <= i < k.len() implies #[trigger] blank_gap(input, k, i) by {
        if i < kids.len() {
            assert(blank_gap(input, kids, i));
            assert(k[i] == kids[i] && k[i - 1] == kids[i - 1]);
        } else {
            assert(k[i - 1] == kids[kids.len() - 1]);
        }
    }
}

/// Nothing is white space.
proof fn lemma_blank_empty(input: Seq<char>, a: int)
    requires
        0 <= a <= input.len(),
    ensures
        blank_at(input, a, a),
{
    assert(input.subrange(a, a).len() == 0);
    assert(closed_blank(input.subrange(a, a)));
}

/// Spaces and tabs are white space.
proof fn lemma_inline_blank(input: Seq<char>, a: int, b: int)
    requires
        inline_at(input, a, b),
    ensures
        blank_at(input, a, b),
    decreases b - a,
{
    if a < b {
        lemma_inline_blank(input, a + 1, b);
        let t = input.subrange(a, b);
        assert(input[a] == ' ' || input[a] == '\t');
        assert(t.drop_first() =~= input.subrange(a + 1, b));
        assert(space(t[0]));
        assert(closed_blank(input.subrange(a + 1, b)) || (b == input.len() && blank(input.subrange(a + 1, b))));
    } else {
        lemma_blank_empty(input, a);
    }
}

proof fn lemma_within_grow(input: Seq<char>, kids: Seq<Pair>, lo: int, hi: int, h2: int)
    requires
        ordered_within(input, kids, lo, hi),
        hi <= h2,
    ensures
        ordered_within(input, kids, lo, h2),
{
}

/// Appends a node that starts at or after `hi` to nodes that lie inside
/// `[lo, hi)`.
fn push_kid(kids: &mut Vec<Pair>, c: Pair, Ghost(input): Ghost<Seq<char>>, Ghost(lo): Ghost<int>, Ghost(hi): Ghost<int>)
    requires
        ordered_within(input, old(kids)@, lo, hi),
        hi <= c.start,
        spans_ok(input, c),
    ensures
        final(kids)@ == old(kids)@.push(c),
        ordered_within(input, final(kids)@, lo, c.end as int),
{
    let ghost before = kids@;
    kids.push(c);
    proof {
        assert(kids@.subrange(0, kids@.len() - 1) =~= before);
        lemma_within_grow(input, before, lo, hi, c.start as int);
    }
}

/// A node of `rule` spanning `[start, end)` of the input.
fn node(cs: &Vec<char>, rule: Rule, start: usize, end: usize, children: Vec<Pair>) -> (p: Pair)
    requires
        start <= end <= cs@.len(),
        ordered_within(cs@, children@, start as int, end as int),
        form_rules(rule, cs@.subrange(start as int, end as int), children@),
        layout_rules(cs@, rule, start as int, end as int, children@),
    ensures
        p.rule == rule,
        p.start == start,
        p.end == end,
        p.children@ == children@,
        spans_ok(cs@, p),
{
    let text = string_from_range(cs.as_slice(), start, end);
    proof {
        reveal(form);
        reveal(layout);
    }
    Pair { rule, text, children, start, end }
}

/// A node of `rule` without children.
fn leaf(cs: &Vec<char>, rule: Rule, start: usize, end: usize) -> (p: Pair)
    requires
        start <= end <= cs@.len(),
        form_rules(rule, cs@.subrange(start as int, end as int), Seq::<Pair>::empty()),
        layout_rules(cs@, rule, start as int, end as int, Seq::<Pair>::empty()),
    ensures
        p.rule == rule,
        p.start == start,
        p.end == end,
        p.children@.len() == 0,
        spans_ok(cs@, p),
{
    node(cs, rule, start, end, Vec::new())
}

/// Whether `c` may start an identifier.
pub open spec fn ident_start(c: char) -> bool {
    ('a' <= c && c <= 'z') || ('A' <= c && c <= 'Z') || c == '_'
}

/// Whether `c` is an ASCII digit.
pub open spec fn digit(c: char) -> bool {
    '0' <= c && c <= '9'
}

/// Whether `c` may stand inside an identifier.
pub open spec fn ident_char(c: char) -> bool {
    ident_start(c) || digit(c)
}

fn is_ident_start(c: char) -> (b: bool)
    ensures
        b == ident_start(c),
{
    ('a' <= c && c <= 'z') || ('A' <= c && c <= 'Z') || c == '_'
}

fn is_digit(c: char) -> (b: bool)
    ensures
        b == digit(c),
{
    '0' <= c && c <= '9'
}

fn is_ident_char(c: char) -> (b: bool)
    ensures
        b == ident_char(c),
{
    is_ident_start(c) || is_digit(c)
}

/// Whether `cs[p]` is `c`.
fn at(cs: &Vec<char>, p: usize, c: char) -> (b: bool)
    ensures
        b == (p < cs@.len() && cs@[p as int] == c),
{
    p < cs.len() && cs[p] == c
}

/// Where the characters of `w` end when they stand at `p`.
fn at_word(cs: &Vec<char>, p: usize, w: &str) -> (r: Option<usize>)
    ensures
        r is Some <==> (p + w@.len() <= cs@.len() && cs@.subrange(p as int, p + w@.len()) == w@),
        r matches Some(e) ==> e == p + w@.len(),
{
    let ws = crate::text::chars_of(w);
    if p > cs.len() || ws.len() > cs.len() - p {
        return None;
    }
    let n = cs.len();
    let mut i: usize = 0;
    while i < ws.len()
        invariant
            i <= ws@.len(),
            n == cs@.len(),
            p <= cs@.len(),
            p + ws@.len() <= cs@.len(),
            ws@ == w@,
            forall|j: int| 0 <= j < i ==> cs@[p + j] == ws@[j],
        decreases ws@.len() - i,
    {
        assert(p + i < cs@.len());
        if cs[p + i] != ws[i] {
            proof {
                assert(cs@.subrange(p as int, p + ws@.len())[i as int] != w@[i as int]);
            }
            return None;
        }
        i = i + 1;
    }
    proof {
        assert(cs@.subrange(p as int, p + ws@.len()) =~= w@);
    }
    Some(p + ws.len())
}

/// Where the keyword `w` ends when it stands at `p`: its characters, not
/// followed by a character of an identifier.
fn at_keyword(cs: &Vec<char>, p: usize, w: &str) -> (r: Option<usize>)
    ensures
        r matches Some(e) ==> e == p + w@.len() && e <= cs@.len() && word_at(cs@, p as int, w@),
        r is Some <==> keyword_at(cs@, p as int, w@),
{
    match at_word(cs, p, w) {
        Some(e) => {
            if e < cs.len() && is_ident_char(cs[e]) {
                None
            } else {
                Some(e)
            }
        },
        None => None,
    }
}

/// The position after the white space and `//` comments that start at `p`.
fn skip_ws(cs: &Vec<char>, p: usize) -> (q: usize)
    requires
        p <= cs@.len(),
    ensures
        p <= q <= cs@.len(),
        blank_at(cs@, p as int, q as int),
        q < cs@.len() ==> !space(cs@[q as int]) && !(cs@[q as int] == '/' && q + 1 < cs@.len() && cs@[q + 1] == '/'),
        blank(cs@.subrange(p as int, cs@.len() as int)) ==> q == cs@.len(),
        q == ws_end(cs@, p as int),
{
    let mut q = p;
    proof {
        lemma_blank_empty(cs@, p as int);
    }
    loop
        invariant
            p <= q <= cs@.len(),
            blank_at(cs@, p as int, q as int),
            blank(cs@.subrange(p as int, cs@.len() as int)) ==> blank(cs@.subrange(q as int, cs@.len() as int)),
            ws_end(cs@, q as int) == ws_end(cs@, p as int),
        ensures
            p <= q <= cs@.len(),
            blank_at(cs@, p as int, q as int),
            q < cs@.len() ==> !space(cs@[q as int]) && !(cs@[q as int] == '/' && q + 1 < cs@.len() && cs@[q + 1] == '/'),
            blank(cs@.subrange(p as int, cs@.len() as int)) ==> q == cs@.len(),
            q == ws_end(cs@, p as int),
        decreases cs@.len() - q,
    {
        if q >= cs.len() {
            break;
        }
        let c = cs[q];
        let ghost rest = cs@.subrange(q as int, cs@.len() as int);
        proof {
            assert(rest[0] == c);
            assert(rest.len() >= 2 ==> rest[1] == cs@[q + 1]);
        }
        if c == ' ' || c == '\t' || c == '\r' || c == '\n' {
            proof {
                let w = cs@.subrange(q as int, q + 1);
                assert(w.drop_first().len() == 0);
                assert(closed_blank(w.drop_first()));
                assert(space(w[0]));
                assert(closed_blank(w));
                lemma_blank_join(cs@, p as int, q as int, q + 1);
                assert(rest.drop_first() =~= cs@.subrange(q + 1, cs@.len() as int));
            }
            q = q + 1;
        } else if c == '/' && q + 1 < cs.len() && cs[q + 1] == '/' {
            let ghost q_start = q;
            q = q + 2;
            let ghost q0 = q;
            while q < cs.len() && cs[q] != '\n'
                invariant
                    p <= q_start < q0 <= q <= cs@.len(),
                    q0 == q_start + 2,
                    forall|j: int| q0 <= j < q ==> cs@[j] != '\n',
                decreases cs@.len() - q,
            {
                q = q + 1;
            }
            let ghost nl = q;
            if q < cs.len() {
                q = q + 1;
            }
            proof {
                let w = cs@.subrange(q_start as int, q as int);
                assert(w[0] == '/' && w[1] == '/');
                assert forall|j: int| 0 <= j < w.len() && j < nl - q_start implies w[j] != '\n' by {
                    assert(w[j] == cs@[q_start + j]);
                }
                assert forall|j: int| 0 <= j < rest.len() && j < nl - q_start implies rest[j] != '\n' by {
                    assert(rest[j] == cs@[q_start + j]);
                }
                if nl < cs@.len() {
                    assert(w[nl - q_start] == cs@[nl as int]);
                    lemma_index_of_char_unique(w, '\n', nl - q_start);
                    assert(w.skip(nl - q_start).drop_first().len() == 0);
                    assert(closed_blank(w.skip(nl - q_start).drop_first()));
                    assert(w.skip(nl - q_start)[0] == '\n');
                    assert(closed_blank(w.skip(nl - q_start)));
                    assert(closed_blank(w));
                    assert(rest[nl - q_start] == cs@[nl as int]);
                    lemma_index_of_char_unique(rest, '\n', nl - q_start);
                    assert(rest =~= cs@.skip(q_start as int));
                    assert(ws_end(cs@, nl as int) == ws_end(cs@, nl + 1));
                    assert(rest.skip(nl - q_start)[0] == '\n');
                    assert(rest.skip(nl - q_start).drop_first() =~= cs@.subrange(q as int, cs@.len() as int));
                    if blank(rest) {
                        assert(blank(rest.skip(nl - q_start)));
                        assert(blank(rest.skip(nl - q_start).drop_first()));
                    }
                } else {
                    lemma_index_of_char_unique(w, '\n', -1);
                    assert forall|j: int| 0 <= j < cs@.skip(q_start as int).len() implies cs@.skip(q_start as int)[j] != '\n' by {
                        assert(cs@.skip(q_start as int)[j] == cs@[q_start + j]);
                    }
                    lemma_index_of_char_unique(cs@.skip(q_start as int), '\n', -1);
                    assert(blank(w));
                    assert(cs@.subrange(q as int, cs@.len() as int).len() == 0);
                    assert(blank(cs@.subrange(q as int, cs@.len() as int)));
                }
                lemma_blank_join(cs@, p as int, q_start as int, q as int);
            }
        } else {
            break;
        }
    }
    q
}

/// The position after the spaces and tabs that start at `p`.
fn skip_inline(cs: &Vec<char>, p: usize) -> (q: usize)
    requires
        p <= cs@.len(),
    ensures
        p <= q <= cs@.len(),
        inline_at(cs@, p as int, q as int),
        q < cs@.len() ==> cs@[q as int] != ' ' && cs@[q as int] != '\t',
        q == inline_end(cs@, p as int),
{
    let mut q = p;
    while q < cs.len() && (cs[q] == ' ' || cs[q] == '\t')
        invariant
            p <= q <= cs@.len(),
            inline_at(cs@, p as int, q as int),
            inline_end(cs@, q as int) == inline_end(cs@, p as int),
        decreases cs@.len() - q,
    {
        q = q + 1;
    }
    q
}

/// Whether `cs[s..e)` is a keyword.
fn is_keyword(cs: &Vec<char>, s: usize, e: usize) -> (b: bool)
    requires
        s <= e <= cs@.len(),
    ensures
        b == keyword_text(cs@.subrange(s as int, e as int)),
{
    at_word(cs, s, "let") == Some(e) || at_word(cs, s, "packet") == Some(e) || at_word(cs, s, "state") == Some(e)
        || at_word(cs, s, "xy") == Some(e) || at_word(cs, s, "sqltable") == Some(e) || at_word(cs, s, "layer")
        == Some(e) || at_word(cs, s, "style") == Some(e) || at_word(cs, s, "node") == Some(e)
}

/// The end of the identifier that starts exactly at `s`: a letter or `_`,
/// then letters, digits and `_`; keywords are no identifiers.
fn lex_ident(cs: &Vec<char>, s: usize) -> (r: Option<usize>)
    requires
        s <= cs@.len() < usize::MAX,
    ensures
        r matches Some(e) ==> s < e <= cs@.len() && ident_text(cs@.subrange(s as int, e as int)),
        r matches Some(e) ==> e == cs@.len() || !ident_char(cs@[e as int]),
        r matches Some(e) ==> ident_at(cs@, s as int, e as int),
        r is Some <==> starts_ident(cs@, s as int),
{
    if !(s < cs.len() && is_ident_start(cs[s])) {
        proof {
            if starts_ident(cs@, s as int) {
                let e2 = choose|e2: int| ident_at(cs@, s as int, e2);
                assert(cs@.subrange(s as int, e2)[0] == cs@[s as int]);
            }
        }
        return None;
    }
    let mut e = s + 1;
    while e < cs.len() && is_ident_char(cs[e])
        invariant
            s < e <= cs@.len(),
            ident_start(cs@[s as int]),
            forall|j: int| s <= j < e ==> ident_char(#[trigger] cs@[j]),
        decreases cs@.len() - e,
    {
        e = e + 1;
    }
    if is_keyword(cs, s, e) {
        proof {
            if starts_ident(cs@, s as int) {
                let e2 = choose|e2: int| ident_at(cs@, s as int, e2);
                let f = |c: char| ident_char(c);
                assert forall|j: int| s <= j < e2 implies f(#[trigger] cs@[j]) by {
                    assert(cs@.subrange(s as int, e2)[j - s] == cs@[j]);
                }
                assert forall|j: int| s <= j < e implies f(#[trigger] cs@[j]) by {}
                lemma_run_unique(cs@, s as int, e as int, e2, f);
                assert(keyword_text(cs@.subrange(s as int, e2)));
            }
        }
        None
    } else {
        proof {
            let t = cs@.subrange(s as int, e as int);
            assert forall|i: int| 0 <= i < t.len() implies ident_char(#[trigger] t[i]) by {
                assert(t[i] == cs@[s + i]);
            }
            assert(t[0] == cs@[s as int]);
            assert(ident_at(cs@, s as int, e as int));
        }
        Some(e)
    }
}

/// Where the identifier token that starts at `a` ends.
pub open spec fn ident_end(s: Seq<char>, a: int) -> int {
    choose|e: int| ident_at(s, a, e)
}

proof fn lemma_ident_end(s: Seq<char>, a: int, e: int)
    requires
        ident_at(s, a, e),
    ensures
        ident_end(s, a) == e,
{
    let e2 = ident_end(s, a);
    assert(ident_at(s, a, e2));
    lemma_ident_unique(s, a, e, e2);
}

/// identifier
fn parse_ident(cs: &Vec<char>, p: usize) -> (r: Option<(Pair, usize)>)
    requires
        p <= cs@.len() < usize::MAX,
    ensures
        parsed(cs@, p as int, r, Rule::Identifier),
        r matches Some(x) ==> x.0.children@.len() == 0,
        r is Some <==> starts_ident(cs@, ws_end(cs@, p as int)),
        r matches Some(x) ==> x.0.start == ws_end(cs@, p as int) && ident_at(cs@, x.0.start as int, x.1 as int),
        r matches Some(x) ==> x.1 == ident_end(cs@, ws_end(cs@, p as int)),
{
    let s = skip_ws(cs, p);
    match lex_ident(cs, s) {
        Some(e) => {
            proof {
                lemma_ident_end(cs@, s as int, e as int);
            }
            Some((leaf(cs, Rule::Identifier, s, e), e))
        },
        None => None,
    }
}

/// string_literal: `"`, any characters but `"`, `"`.
fn parse_string(cs: &Vec<char>, p: usize) -> (r: Option<(Pair, usize)>)
    requires
        p <= cs@.len() < usize::MAX,
    ensures
        parsed(cs@, p as int, r, Rule::StringLiteral),
        r is Some <==> string_start(cs@, ws_end(cs@, p as int)),
        r matches Some(x) ==> x.0.start == ws_end(cs@, p as int),
        r matches Some(x) ==> x.1 == string_end(cs@, ws_end(cs@, p as int)),
{
    let s = skip_ws(cs, p);
    if !at(cs, s, '"') {
        return None;
    }
    let mut e = s + 1;
    while e < cs.len() && cs[e] != '"'
        invariant
            s < e <= cs@.len(),
            cs@[s as int] == '"',
            forall|j: int| s < j < e ==> cs@[j] != '"',
        decreases cs@.len() - e,
    {
        e = e + 1;
    }
    if e < cs.len() {
        proof {
            assert(quote_at(cs@, e as int));
            let u = cs@.skip(s + 1);
            assert forall|j: int| 0 <= j < u.len() && j < e - s - 1 implies u[j] != '"' by {
                assert(u[j] == cs@[s + 1 + j]);
            }
            assert(u[e - s - 1] == cs@[e as int]);
            lemma_index_of_char_unique(u, '"', e - s - 1);
            let t = cs@.subrange(s as int, e + 1);
            assert forall|i: int| 0 < i < t.len() - 1 implies #[trigger] t[i] != '"' by {
                assert(t[i] == cs@[s + i]);
            }
        }
        Some((leaf(cs, Rule::StringLiteral, s, e + 1), e + 1))
    } else {
        proof {
            assert forall|j: int| s < j implies !#[trigger] quote_at(cs@, j) by {}
        }
        None
    }
}

/// Whether `c` may stand in a unit after a number.
fn is_unit_char(c: char) -> (b: bool)
    ensures
        b == unit_char(c),
        b ==> c <= '\x7f',
{
    ('a' <= c && c <= 'z') || ('A' <= c && c <= 'Z') || c == '%'
}

/// Where the unit characters that start at `a` end.
pub open spec fn units_end(s: Seq<char>, a: int) -> int
    decreases s.len() - a,
{
    if 0 <= a < s.len() && unit_char(s[a]) {
        units_end(s, a + 1)
    } else {
        a
    }
}

/// Where the number that starts at `a` ends: an optional `-`, digits, a
/// fraction after `.` if a digit follows it, and, without a sign, a unit.
pub open spec fn number_end(s: Seq<char>, a: int) -> int {
    let neg = mark(s, a, '-');
    let d0 = if neg { a + 1 } else { a };
    let k1 = digits_end(s, d0);
    let e = if mark(s, k1, '.') && k1 + 1 < s.len() && digit(s[k1 + 1]) { digits_end(s, k1 + 1) } else { k1 };
    if !neg && 0 <= e < s.len() && unit_char(s[e]) {
        units_end(s, e)
    } else {
        e
    }
}

proof fn lemma_digits_end_step(s: Seq<char>, a: int, e: int)
    requires
        0 <= a <= e <= s.len(),
        forall|j: int| a <= j < e ==> digit(#[trigger] s[j]),
    ensures
        digits_end(s, a) == digits_end(s, e),
    decreases e - a,
{
    if a < e {
        lemma_digits_end_step(s, a + 1, e);
    }
}

proof fn lemma_units_end_step(s: Seq<char>, a: int, e: int)
    requires
        0 <= a <= e <= s.len(),
        forall|j: int| a <= j < e ==> unit_char(#[trigger] s[j]),
    ensures
        units_end(s, a) == units_end(s, e),
    decreases e - a,
{
    if a < e {
        lemma_units_end_step(s, a + 1, e);
    }
}

/// number: an optional `-`, digits, and a fraction after `.`;
/// number_with_unit: a number without sign, then letters or `%`.
fn parse_number(cs: &Vec<char>, p: usize) -> (r: Option<(Pair, usize)>)
    requires
        p <= cs@.len() < usize::MAX,
    ensures
        r matches Some(x) ==> (x.0.rule == Rule::Number || x.0.rule == Rule::NumberWithUnit),
        r matches Some(x) ==> p <= x.0.start && x.0.end == x.1 && spans_ok(cs@, x.0),
        r matches Some(x) ==> (x.0.rule == Rule::NumberWithUnit ==> ascii_text(x.0.text@)),
        r matches Some(x) ==> blank_at(cs@, p as int, x.0.start as int),
        r is Some <==> number_start(cs@, ws_end(cs@, p as int)),
        r matches Some(x) ==> x.0.start == ws_end(cs@, p as int) && x.1 == number_end(cs@, ws_end(cs@, p as int)),
{
    let s = skip_ws(cs, p);
    let neg = at(cs, s, '-');
    let d0 = if neg { s + 1 } else { s };
    let mut e = d0;
    while e < cs.len() && is_digit(cs[e])
        invariant
            s <= d0 <= e <= cs@.len(),
            forall|j: int| d0 <= j < e ==> digit(#[trigger] cs@[j]),
        decreases cs@.len() - e,
    {
        e = e + 1;
    }
    if e == d0 {
        return None;
    }
    let k1 = e;
    proof {
        lemma_digits_end_step(cs@, d0 as int, k1 as int);
        assert(digits_end(cs@, d0 as int) == k1);
    }
    if e + 1 < cs.len() && cs[e] == '.' && is_digit(cs[e + 1]) {
        e = e + 1;
        while e < cs.len() && is_digit(cs[e])
            invariant
                s <= d0 < k1 < e <= cs@.len(),
                cs@[k1 as int] == '.',
                forall|j: int| k1 + 1 <= j < e ==> digit(#[trigger] cs@[j]),
            decreases cs@.len() - e,
        {
            e = e + 1;
        }
        proof {
            lemma_digits_end_step(cs@, k1 + 1, e as int);
            assert(digits_end(cs@, k1 + 1) == e);
        }
    }
    proof {
        lemma_numeral(cs@, s as int, d0 as int, k1 as int, e as int);
        assert(e == cs@.len() || !digit(cs@[e as int]));
        let ke = if mark(cs@, k1 as int, '.') && k1 + 1 < cs@.len() && digit(cs@[k1 + 1]) {
            digits_end(cs@, k1 + 1)
        } else {
            k1 as int
        };
        assert(ke == e);
    }
    if !neg && e < cs.len() && is_unit_char(cs[e]) {
        let mut u = e;
        while u < cs.len() && is_unit_char(cs[u])
            invariant
                s == d0,
                s <= e <= u <= cs@.len(),
                forall|j: int| e <= j < u ==> unit_char(#[trigger] cs@[j]),
            decreases cs@.len() - u,
        {
            u = u + 1;
        }
        proof {
            lemma_units_end_step(cs@, e as int, u as int);
            assert(units_end(cs@, e as int) == u);
            let t = cs@.subrange(s as int, u as int);
            assert(t.take(e - s) =~= cs@.subrange(s as int, e as int));
            assert forall|i: int| e - s <= i < t.len() implies unit_char(#[trigger] t[i]) by {
                assert(t[i] == cs@[s + i]);
            }
            assert(units_from(t, e - s));
        }
        let t = leaf(cs, Rule::NumberWithUnit, s, u);
        proof {
            assert forall|i: int| 0 <= i < t.text@.len() implies t.text@[i] <= '\x7f' by {
                assert(t.text@[i] == cs@[s + i]);
                if s + i < k1 {
                    assert(digit(cs@[s + i]));
                } else if s + i < e {
                    if s + i > k1 {
                        assert(digit(cs@[s + i]));
                    }
                } else {
                    assert(unit_char(cs@[s + i]));
                }
            }
        }
        return Some((t, u));
    }
    proof {
        let t = cs@.subrange(s as int, e as int);
        if neg {
            assert(t[0] == '-');
        } else {
            assert(!(t.len() > 0 && t[0] == '-')) by {
                assert(t[0] == cs@[s as int]);
                assert(digit(cs@[s as int]));
            }
        }
        assert(e < cs@.len() ==> cs@[s as int] == '-' || !unit_char(cs@[e as int]));
    }
    Some((leaf(cs, Rule::Number, s, e), e))
}

/// operator: `==`, `!=`, `<=`, `>=`, `<`, `>`, `+`, `-`, `*`, `/`.
fn parse_operator(cs: &Vec<char>, p: usize) -> (r: Option<(Pair, usize)>)
    requires
        p <= cs@.len() < usize::MAX,
    ensures
        parsed(cs@, p as int, r, Rule::Operator),
        r matches Some(x) ==> x.1 > p,
        r is Some <==> operator_start(cs@, ws_end(cs@, p as int)),
        r matches Some(x) ==> x.1 == operator_end(cs@, ws_end(cs@, p as int)),
{
    let s = skip_ws(cs, p);
    if s + 1 < cs.len() && cs[s + 1] == '=' && (cs[s] == '=' || cs[s] == '!' || cs[s] == '<' || cs[s] == '>') {
        return Some((leaf(cs, Rule::Operator, s, s + 2), s + 2));
    }
    if s < cs.len() && (cs[s] == '<' || cs[s] == '>' || cs[s] == '+' || cs[s] == '-' || cs[s] == '*' || cs[s] == '/') {
        return Some((leaf(cs, Rule::Operator, s, s + 1), s + 1));
    }
    None
}

/// property_ref: identifier `.` identifier, with nothing between.
fn parse_property_ref(cs: &Vec<char>, p: usize) -> (r: Option<(Pair, usize)>)
    requires
        p <= cs@.len() < usize::MAX,
    ensures
        parsed(cs@, p as int, r, Rule::PropertyRef),
        r is Some <==> prop_ref_start(cs@, ws_end(cs@, p as int)),
        r matches Some(x) ==> x.0.start == ws_end(cs@, p as int) && x.1 == ident_end(
            cs@,
            ident_end(cs@, ws_end(cs@, p as int)) + 1,
        ),
{
    let s = skip_ws(cs, p);
    match lex_ident(cs, s) {
        Some(e) => {
            if at(cs, e, '.') {
                match lex_ident(cs, e + 1) {
                    Some(e2) => {
                        proof {
                            lemma_ident_end(cs@, s as int, e as int);
                            lemma_ident_end(cs@, e + 1, e2 as int);
                            assert(ident_at(cs@, s as int, e as int));
                            let t = cs@.subrange(s as int, e2 as int);
                            assert(t.take(e - s) =~= cs@.subrange(s as int, e as int));
                            assert(t.skip(e - s + 1) =~= cs@.subrange(e + 1, e2 as int));
                            assert(dot_split(t, e - s));
                        }
                        Some((leaf(cs, Rule::PropertyRef, s, e2), e2))
                    },
                    None => {
                        proof {
                            if prop_ref_start(cs@, s as int) {
                                let e3 = choose|e3: int| #[trigger] ident_at(cs@, s as int, e3) && e3 < cs@.len() && cs@[e3] == '.' && starts_ident(cs@, e3 + 1);
                                lemma_ident_unique(cs@, s as int, e as int, e3);
                            }
                        }
                        None
                    },
                }
            } else {
                proof {
                    if prop_ref_start(cs@, s as int) {
                        let e3 = choose|e3: int| #[trigger] ident_at(cs@, s as int, e3) && e3 < cs@.len() && cs@[e3] == '.' && starts_ident(cs@, e3 + 1);
                        lemma_ident_unique(cs@, s as int, e as int, e3);
                    }
                }
                None
            }
        },
        None => None,
    }
}

proof fn lemma_terms_from_all(cs: Seq<Pair>, k: int)
    requires
        0 <= k <= cs.len(),
        forall|i: int| 0 <= i < k && i % 2 == 0 ==> term_shaped(#[trigger] cs[i]),
    ensures
        terms_shaped(cs, k),
    decreases k,
{
    if k > 0 {
        lemma_terms_from_all(cs, k - 1);
    }
}

proof fn lemma_args_from_all(cs: Seq<Pair>, k: int)
    requires
        0 <= k <= cs.len(),
        forall|i: int| 0 <= i < k && (#[trigger] cs[i]).rule == Rule::MathExpression ==> expr_shaped(cs[i]),
    ensures
        args_shaped(cs, k),
    decreases k,
{
    if k > 0 {
        lemma_args_from_all(cs, k - 1);
    }
}

/// Where a name that continues with `.` and an identifier, from `e` on,
/// ends; nothing when a `.` is not followed by an identifier.
pub open spec fn chain_end(s: Seq<char>, e: int) -> Option<int>
    decreases s.len() - e,
{
    if 0 <= e < s.len() && s[e] == '.' {
        if starts_ident(s, e + 1) && e < ident_end(s, e + 1) <= s.len() {
            chain_end(s, ident_end(s, e + 1))
        } else {
            None
        }
    } else {
        Some(e)
    }
}

/// Where the function call read from `p` on ends: a name, `(`, and either
/// `)` or arguments up to their `)`; nothing when no call is read there.
pub open spec fn call_end(s: Seq<char>, p: int) -> Option<int>
    decreases s.len() - p, 0nat,
{
    let a = ws_end(s, p);
    if !starts_ident(s, a) {
        None
    } else {
        match chain_end(s, ident_end(s, a)) {
            None => None,
            Some(ce) => {
                let q0 = ws_end(s, ce);
                if !(mark(s, q0, '(') && p <= q0) {
                    None
                } else if mark(s, ws_end(s, q0 + 1), ')') {
                    Some(ws_end(s, q0 + 1) + 1)
                } else {
                    args_end(s, q0 + 1)
                }
            },
        }
    }
}

/// Where the arguments of a call read from `q` on end, after their `)`:
/// an expression, then `,` and more arguments or `)`.
pub open spec fn args_end(s: Seq<char>, q: int) -> Option<int>
    decreases s.len() - q, 4nat,
{
    match expr_end(s, q) {
        None => None,
        Some(ae) => {
            let q2 = ws_end(s, ae);
            if mark(s, q2, ',') && q <= q2 {
                args_end(s, q2 + 1)
            } else if mark(s, q2, ')') {
                Some(q2 + 1)
            } else {
                None
            }
        },
    }
}

/// Where the term read from `p` on ends: a call, a number, a property
/// reference, an identifier or a string, tried in that order.
pub open spec fn term_end(s: Seq<char>, p: int) -> Option<int>
    decreases s.len() - p, 1nat,
{
    let a = ws_end(s, p);
    match call_end(s, p) {
        Some(e) => Some(e),
        None => if number_start(s, a) {
            Some(number_end(s, a))
        } else if prop_ref_start(s, a) {
            Some(ident_end(s, ident_end(s, a) + 1))
        } else if starts_ident(s, a) {
            Some(ident_end(s, a))
        } else if string_start(s, a) {
            Some(string_end(s, a))
        } else {
            None
        },
    }
}

/// Where the operators and terms that follow a term ending at `e` end:
/// while an operator and a term follow, both are taken.
pub open spec fn ops_end(s: Seq<char>, e: int) -> int
    decreases s.len() - e, 2nat,
{
    let a = ws_end(s, e);
    if operator_start(s, a) && e < operator_end(s, a) {
        match term_end(s, operator_end(s, a)) {
            Some(te) => if e < te <= s.len() {
                ops_end(s, te)
            } else {
                e
            },
            None => e,
        }
    } else {
        e
    }
}

/// Where the math expression read from `p` on ends: a term, then as many
/// operators each followed by a term as there are.
pub open spec fn expr_end(s: Seq<char>, p: int) -> Option<int>
    decreases s.len() - p, 3nat,
{
    match term_end(s, p) {
        Some(e) => if p <= e <= s.len() {
            Some(ops_end(s, e))
        } else {
            None
        },
        None => None,
    }
}

/// function_call: identifiers joined by `.` (nothing between), then `(`,
/// math expressions separated by `,`, and `)`.
#[verifier::rlimit(40)]
#[verifier::spinoff_prover]
fn parse_function_call(cs: &Vec<char>, p: usize) -> (r: Option<(Pair, usize)>)
    requires
        p <= cs@.len() < usize::MAX,
    ensures
        parsed(cs@, p as int, r, Rule::FunctionCall),
        r matches Some(x) ==> args_shaped(x.0.children@, x.0.children@.len() as int),
        r is Some ==> starts_ident(cs@, ws_end(cs@, p as int)),
        empty_call_at(cs@, ws_end(cs@, p as int)) ==> r is Some,
        match r {
            Some(x) => call_end(cs@, p as int) == Some(x.1 as int),
            None => call_end(cs@, p as int) is None,
        },
    decreases cs@.len() - p, 0nat,
{
    let s = skip_ws(cs, p);
    let mut e = match lex_ident(cs, s) {
        Some(e) => e,
        None => return None,
    };
    proof {
        if empty_call_at(cs@, s as int) {
            let e2 = choose|e2: int| #[trigger] ident_at(cs@, s as int, e2) && !(e2 < cs@.len() && cs@[e2] == '.') && mark(
                cs@,
                ws_end(cs@, e2),
                '(',
            ) && mark(cs@, ws_end(cs@, ws_end(cs@, e2) + 1), ')');
            lemma_ident_unique(cs@, s as int, e as int, e2);
        }
    }
    let ghost e_first = e;
    proof {
        lemma_ident_end(cs@, s as int, e as int);
    }
    let mut kids: Vec<Pair> = Vec::new();
    push_kid(&mut kids, leaf(cs, Rule::Identifier, s, e), Ghost(cs@), Ghost(s as int), Ghost(s as int));
    while at(cs, e, '.')
        invariant
            chain_end(cs@, e_first as int) == chain_end(cs@, e as int),
            ident_end(cs@, s as int) == e_first,
            s < e <= cs@.len() < usize::MAX,
            ordered_within(cs@, kids@, s as int, e as int),
            kids@.len() >= 1,
            kids@[0].start == s,
            kids@.last().end == e,
            forall|i: int| 0 <= i < kids@.len() ==> (#[trigger] kids@[i]).rule == Rule::Identifier,
            forall|i: int| 1 <= i < kids@.len() ==> #[trigger] call_gap(cs@, kids@, i),
            starts_ident(cs@, s as int),
            s == ws_end(cs@, p as int),
            empty_call_at(cs@, s as int) ==> e == e_first && ident_at(cs@, s as int, e as int) && !(e < cs@.len()
                && cs@[e as int] == '.'),
        decreases cs@.len() - e,
    {
        match lex_ident(cs, e + 1) {
            Some(e2) => {
                proof {
                    lemma_ident_end(cs@, e + 1, e2 as int);
                }
                let ghost before = kids@;
                push_kid(&mut kids, leaf(cs, Rule::Identifier, e + 1, e2), Ghost(cs@), Ghost(s as int), Ghost(e as int));
                proof {
                    assert forall|i: int| 1 <= i < kids@.len() implies #[trigger] call_gap(cs@, kids@, i) by {
                        if i < before.len() {
                            assert(call_gap(cs@, before, i));
                            assert(kids@[i] == before[i] && kids@[i - 1] == before[i - 1]);
                        }
                    }
                }
                e = e2;
            },
            None => return None,
        }
    }
    let q0 = skip_ws(cs, e);
    if !at(cs, q0, '(') {
        return None;
    }
    let mut q = q0 + 1;
    proof {
        lemma_within_grow(cs@, kids@, s as int, e as int, q as int);
    }
    let q1 = skip_ws(cs, q);
    assert(chain_end(cs@, e as int) == Some(e as int));
    if at(cs, q1, ')') {
        proof {
            lemma_within_grow(cs@, kids@, s as int, q as int, q1 + 1);
            lemma_args_from_all(kids@, kids@.len() as int);
            assert(mark(cs@, q0 as int, '('));
        }
        return Some((node(cs, Rule::FunctionCall, s, q1 + 1, kids), q1 + 1));
    }
    let ghost mut m: int = q0 as int;
    loop
        invariant
            s < q <= cs@.len() < usize::MAX,
            p <= s,
            blank_at(cs@, p as int, s as int),
            ordered_within(cs@, kids@, s as int, q as int),
            form_rules(Rule::FunctionCall, Seq::empty(), kids@),
            forall|i: int| 0 <= i < kids@.len() && (#[trigger] kids@[i]).rule == Rule::MathExpression ==> expr_shaped(kids@[i]),
            kids@[0].start == s,
            forall|i: int| 1 <= i < kids@.len() ==> #[trigger] call_gap(cs@, kids@, i),
            m + 1 == q,
            blank_at(cs@, kids@.last().end as int, m),
            mark(cs@, m, if kids@.last().rule == Rule::Identifier { '(' } else { ',' }),
            starts_ident(cs@, s as int),
            s == ws_end(cs@, p as int),
            !empty_call_at(cs@, s as int),
            call_end(cs@, p as int) == args_end(cs@, q as int),
        decreases cs@.len() - q,
    {
        let (arg, ae) = match parse_math_expression(cs, q) {
            Some(x) => x,
            None => return None,
        };
        let ghost before = kids@;
        let ghost prev = kids@.last();
        proof {
            assert(mark(cs@, m, if prev.rule == Rule::Identifier { '(' } else { ',' }));
        }
        push_kid(&mut kids, arg, Ghost(cs@), Ghost(s as int), Ghost(q as int));
        proof {
            assert forall|i: int| 1 <= i < kids@.len() implies #[trigger] call_gap(cs@, kids@, i) by {
                if i < before.len() {
                    assert(call_gap(cs@, before, i));
                    assert(kids@[i] == before[i] && kids@[i - 1] == before[i - 1]);
                } else {
                    assert(kids@[i - 1] == prev && kids@[i] == arg);
                }
            }
        }
        let q2 = skip_ws(cs, ae);
        if at(cs, q2, ',') {
            proof {
                lemma_within_grow(cs@, kids@, s as int, ae as int, q2 + 1);
                m = q2 as int;
            }
            q = q2 + 1;
        } else if at(cs, q2, ')') {
            proof {
                lemma_within_grow(cs@, kids@, s as int, ae as int, q2 + 1);
                lemma_args_from_all(kids@, kids@.len() as int);
            }
            return Some((node(cs, Rule::FunctionCall, s, q2 + 1, kids), q2 + 1));
        } else {
            return None;
        }
    }
}

/// math_term: a function call, a number (with or without unit), a property
/// reference, an identifier or a string literal, tried in that order.
fn parse_math_term(cs: &Vec<char>, p: usize) -> (r: Option<(Pair, usize)>)
    requires
        p <= cs@.len() < usize::MAX,
    ensures
        parsed(cs@, p as int, r, Rule::MathTerm),
        r matches Some(x) ==> term_shaped(x.0),
        r is Some <==> term_start(cs@, ws_end(cs@, p as int)),
        match r {
            Some(x) => term_end(cs@, p as int) == Some(x.1 as int),
            None => term_end(cs@, p as int) is None,
        },
    decreases cs@.len() - p, 1nat,
{
    let ghost a = ws_end(cs@, p as int);
    let (inner, e) = match parse_function_call(cs, p) {
        Some(x) => x,
        None => match parse_number(cs, p) {
            Some(x) => x,
            None => match parse_property_ref(cs, p) {
                Some(x) => x,
                None => match parse_ident(cs, p) {
                    Some(x) => x,
                    None => match parse_string(cs, p) {
                        Some(x) => x,
                        None => {
                            proof {
                                if prop_ref_start(cs@, a) {
                                    let e3 = choose|e3: int| #[trigger] ident_at(cs@, a, e3) && e3 < cs@.len() && cs@[e3] == '.' && starts_ident(cs@, e3 + 1);
                                }
                            }
                            return None;
                        },
                    },
                },
            },
        },
    };
    let ghost st = inner.start;
    proof {
        if prop_ref_start(cs@, a) {
            let e3 = choose|e3: int| #[trigger] ident_at(cs@, a, e3) && e3 < cs@.len() && cs@[e3] == '.' && starts_ident(cs@, e3 + 1);
        }
    }
    assert(inner_shaped(inner));
    assert(blank_at(cs@, p as int, inner.start as int));
    let mut kids: Vec<Pair> = Vec::new();
    push_kid(&mut kids, inner, Ghost(cs@), Ghost(st as int), Ghost(st as int));
    let t = node(cs, Rule::MathTerm, kids[0].start, e, kids);
    Some((t, e))
}

/// Where the operator that starts at `a` ends: two-character operators
/// are taken whole.
pub open spec fn operator_end(s: Seq<char>, a: int) -> int {
    if 0 <= a && a + 1 < s.len() && s[a + 1] == '=' && (s[a] == '=' || s[a] == '!' || s[a] == '<' || s[a] == '>') {
        a + 2
    } else {
        a + 1
    }
}

/// math_expression: a term, then operators each followed by a term.
#[verifier::rlimit(40)]
#[verifier::spinoff_prover]
fn parse_math_expression(cs: &Vec<char>, p: usize) -> (r: Option<(Pair, usize)>)
    requires
        p <= cs@.len() < usize::MAX,
    ensures
        parsed(cs@, p as int, r, Rule::MathExpression),
        r matches Some(x) ==> expr_shaped(x.0),
        r is Some <==> term_start(cs@, ws_end(cs@, p as int)),
        match r {
            Some(x) => expr_end(cs@, p as int) == Some(x.1 as int),
            None => expr_end(cs@, p as int) is None,
        },
    decreases cs@.len() - p, 2nat,
{
    let (first, mut e) = match parse_math_term(cs, p) {
        Some(x) => x,
        None => return None,
    };
    let s = first.start;
    let mut kids: Vec<Pair> = Vec::new();
    push_kid(&mut kids, first, Ghost(cs@), Ghost(s as int), Ghost(s as int));
    loop
        invariant
            p <= s <= e <= cs@.len() < usize::MAX,
            kids@.len() % 2 == 1,
            forall|i: int| 0 <= i < kids@.len() ==> (#[trigger] kids@[i]).rule == if i % 2 == 0 { Rule::MathTerm } else { Rule::Operator },
            ordered_within(cs@, kids@, s as int, e as int),
            forall|i: int| 0 <= i < kids@.len() && i % 2 == 0 ==> term_shaped(#[trigger] kids@[i]),
            kids@[0].start == s,
            kids@.last().end == e,
            blank_gaps(cs@, kids@, 1),
            blank_at(cs@, p as int, s as int),
            expr_end(cs@, p as int) == Some(ops_end(cs@, e as int)),
        ensures
            ops_end(cs@, e as int) == e,
        decreases cs@.len() - e,
    {
        let (op, oe) = match parse_operator(cs, e) {
            Some(x) => x,
            None => break,
        };
        let (term, te) = match parse_math_term(cs, oe) {
            Some(x) => x,
            None => break,
        };
        let ghost before = kids@;
        proof {
            lemma_blank_gaps_push(cs@, before, op, 1);
            lemma_blank_gaps_push(cs@, before.push(op), term, 1);
        }
        push_kid(&mut kids, op, Ghost(cs@), Ghost(s as int), Ghost(e as int));
        push_kid(&mut kids, term, Ghost(cs@), Ghost(s as int), Ghost(oe as int));
        proof {
            let n = before.len() as int;
            assert(kids@ == before.push(op).push(term));
            assert forall|i: int| 0 <= i < kids@.len() implies (#[trigger] kids@[i]).rule == if i % 2 == 0 {
                Rule::MathTerm
            } else {
                Rule::Operator
            } && (i % 2 == 0 ==> term_shaped(kids@[i])) by {
                if i < n {
                    assert(kids@[i] == before[i]);
                } else if i == n {
                    assert(kids@[i] == op);
                    assert(i % 2 == 1);
                } else {
                    assert(kids@[i] == term);
                    assert(i % 2 == 0);
                }
            }
        }
        e = te;
    }
    proof {
        lemma_terms_from_all(kids@, kids@.len() as int);
    }
    Some((node(cs, Rule::MathExpression, s, e, kids), e))
}

/// Whether `c` may stand in an attribute key.
fn is_key_char(c: char) -> (b: bool)
    ensures
        b == key_char(c),
{
    is_ident_char(c) || c == '-' || c == '.'
}

/// Whether `c` may stand in an unquoted value.
fn is_value_char(c: char) -> (b: bool)
    ensures
        b == value_char(c),
{
    !(c == ',' || c == ']' || c == '}' || c == '"' || c == ' ' || c == '\t' || c == '\r' || c == '\n')
}

/// Where the key characters that start at `a` end.
pub open spec fn key_end(s: Seq<char>, a: int) -> int
    decreases s.len() - a,
{
    if 0 <= a < s.len() && key_char(s[a]) {
        key_end(s, a + 1)
    } else {
        a
    }
}

proof fn lemma_key_end_step(s: Seq<char>, a: int, e: int)
    requires
        0 <= a <= e <= s.len(),
        forall|j: int| a <= j < e ==> key_char(#[trigger] s[j]),
    ensures
        key_end(s, a) == key_end(s, e),
    decreases e - a,
{
    if a < e {
        lemma_key_end_step(s, a + 1, e);
    }
}

/// Where an unquoted value that goes on at `e` ends: value characters, and
/// spaces or tabs when a value character follows them.
pub open spec fn raw_end(s: Seq<char>, e: int) -> int
    decreases s.len() - e,
{
    if 0 <= e < s.len() && value_char(s[e]) {
        raw_end(s, e + 1)
    } else {
        let t = inline_end(s, e);
        if 0 <= e < t < s.len() && value_char(s[t]) {
            raw_end(s, t + 1)
        } else {
            e
        }
    }
}

/// Where the attribute read from `p` on ends: a key, then, after `:`, a
/// quoted or an unquoted value; nothing when none is read there.
pub open spec fn attr_end(s: Seq<char>, p: int) -> Option<int> {
    let a = ws_end(s, p);
    let k = key_end(s, a);
    let q = ws_end(s, k);
    let v = ws_end(s, q + 1);
    if k == a {
        None
    } else if !mark(s, q, ':') {
        Some(k)
    } else if mark(s, v, '"') {
        if string_start(s, v) {
            Some(string_end(s, v))
        } else {
            None
        }
    } else if 0 <= v < s.len() && value_char(s[v]) {
        Some(raw_end(s, v + 1))
    } else {
        None
    }
}

/// Where the attributes read from `e` on (after `[` or `,`) end, after
/// their `]`.
pub open spec fn attrs_close(s: Seq<char>, e: int) -> Option<int>
    decreases s.len() - e,
{
    let q = ws_end(s, e);
    if mark(s, q, ']') {
        Some(q + 1)
    } else {
        match attr_end(s, e) {
            None => None,
            Some(ae) => {
                let q2 = ws_end(s, ae);
                if mark(s, q2, ',') && e <= q2 {
                    attrs_close(s, q2 + 1)
                } else if mark(s, q2, ']') {
                    Some(q2 + 1)
                } else {
                    None
                }
            },
        }
    }
}

/// Where the attribute list read from `p` on ends: `[`, attributes
/// separated by `,`, `]`; nothing when none is read there.
#[verifier::opaque]
pub open spec fn attributes_end(s: Seq<char>, p: int) -> Option<int> {
    let a = ws_end(s, p);
    if mark(s, a, '[') {
        attrs_close(s, a + 1)
    } else {
        None
    }
}

/// The end of the unquoted value that starts exactly at `s`: words of value
/// characters, separated by spaces or tabs.
fn lex_raw_value(cs: &Vec<char>, s: usize) -> (r: Option<usize>)
    requires
        s <= cs@.len() < usize::MAX,
    ensures
        r matches Some(e) ==> s < e <= cs@.len() && raw_value_text(cs@.subrange(s as int, e as int)) && raw_value_ends(
            cs@,
            e as int,
        ),
        r is Some <==> s < cs@.len() && value_char(cs@[s as int]),
        r matches Some(e) ==> e == raw_end(cs@, s + 1),
{
    if !(s < cs.len() && is_value_char(cs[s])) {
        return None;
    }
    let mut e = s + 1;
    loop
        invariant
            s < e <= cs@.len() < usize::MAX,
            raw_end(cs@, s + 1) == raw_end(cs@, e as int),
            value_char(cs@[s as int]),
            value_char(cs@[e - 1]),
            forall|j: int| s <= j < e ==> value_char(#[trigger] cs@[j]) || cs@[j] == ' ' || cs@[j] == '\t',
        decreases cs@.len() - e,
    {
        if e < cs.len() && is_value_char(cs[e]) {
            e = e + 1;
        } else {
            let t = skip_inline(cs, e);
            if t < cs.len() && t > e && is_value_char(cs[t]) {
                e = t + 1;
            } else {
                proof {
                    let w = cs@.subrange(s as int, e as int);
                    assert forall|i: int| 0 <= i < w.len() implies value_char(#[trigger] w[i]) || w[i] == ' ' || w[i] == '\t' by {
                        assert(w[i] == cs@[s + i]);
                    }
                    assert(w[0] == cs@[s as int] && w[w.len() - 1] == cs@[e - 1]);
                    assert forall|t2: int| e <= t2 < cs@.len() && #[trigger] inline_at(cs@, e as int, t2) implies !value_char(cs@[t2]) by {
                        if t2 > t {
                            assert(inline_at(cs@, e as int, t2));
                            assert(cs@[t as int] == ' ' || cs@[t as int] == '\t');
                        } else if t2 < t {
                            assert(cs@[t2] == ' ' || cs@[t2] == '\t');
                        }
                    }
                }
                return Some(e);
            }
        }
    }
}

/// attribute: a key, then optionally `:` and a value, quoted (the value is
/// what stands between the quotes) or not.
fn parse_attribute(cs: &Vec<char>, p: usize) -> (r: Option<(Pair, usize)>)
    requires
        p <= cs@.len() < usize::MAX,
    ensures
        parsed(cs@, p as int, r, Rule::Attribute),
        r matches Some(x) ==> x.0.children@.len() >= 1 && x.1 > p,
        r is Some <==> attr_start(cs@, ws_end(cs@, p as int)),
        match r {
            Some(x) => attr_end(cs@, p as int) == Some(x.1 as int),
            None => attr_end(cs@, p as int) is None,
        },
{
    let s = skip_ws(cs, p);
    let mut k = s;
    while k < cs.len() && is_key_char(cs[k])
        invariant
            s <= k <= cs@.len(),
            key_end(cs@, s as int) == key_end(cs@, k as int),
            forall|j: int| s <= j < k ==> key_char(#[trigger] cs@[j]),
        decreases cs@.len() - k,
    {
        k = k + 1;
    }
    if k == s {
        proof {
            if attr_start(cs@, s as int) {
                let k2 = choose|k2: int| #[trigger] key_at(cs@, s as int, k2) && attr_value_ok(cs@, k2);
                assert(key_char(cs@[s as int]));
            }
        }
        return None;
    }
    proof {
        if attr_start(cs@, s as int) {
            let k2 = choose|k2: int| #[trigger] key_at(cs@, s as int, k2) && attr_value_ok(cs@, k2);
            let f = |c: char| key_char(c);
            assert forall|j: int| s <= j < k implies f(#[trigger] cs@[j]) by {}
            assert forall|j: int| s <= j < k2 implies f(#[trigger] cs@[j]) by {}
            lemma_run_unique(cs@, s as int, k as int, k2, f);
        }
        assert(key_at(cs@, s as int, k as int));
    }
    proof {
        let t = cs@.subrange(s as int, k as int);
        assert forall|i: int| 0 <= i < t.len() implies key_char(#[trigger] t[i]) by {
            assert(t[i] == cs@[s + i]);
        }
    }
    let mut kids: Vec<Pair> = Vec::new();
    push_kid(&mut kids, leaf(cs, Rule::AttrKey, s, k), Ghost(cs@), Ghost(s as int), Ghost(s as int));
    let q = skip_ws(cs, k);
    if !at(cs, q, ':') {
        return Some((node(cs, Rule::Attribute, s, k, kids), k));
    }
    let v = skip_ws(cs, q + 1);
    proof {
        assert(mark(cs@, q as int, ':'));
        assert(around(cs@, k as int, v as int, ':'));
    }
    if at(cs, v, '"') {
        let mut c = v + 1;
        while c < cs.len() && cs[c] != '"'
            invariant
                v < c <= cs@.len(),
                forall|j: int| v < j < c ==> cs@[j] != '"',
            decreases cs@.len() - c,
        {
            c = c + 1;
        }
        if c >= cs.len() {
            proof {
                if string_start(cs@, v as int) {
                    let j = choose|j: int| v < j && #[trigger] quote_at(cs@, j);
                }
            }
            return None;
        }
        proof {
            assert(quote_at(cs@, c as int));
            let t = cs@.skip(v + 1);
            assert forall|j: int| 0 <= j < t.len() && (c - v - 1 < 0 || j < c - v - 1) implies t[j] != '"' by {
                assert(t[j] == cs@[v + 1 + j]);
            }
            assert(t[c - v - 1] == cs@[c as int]);
            lemma_index_of_char_unique(t, '"', c - v - 1);
            assert(string_end(cs@, v as int) == c + 1);
        }
        let val = leaf(cs, Rule::AttrValue, v + 1, c);
        proof {
            assert forall|i: int| 0 <= i < val.text@.len() implies #[trigger] val.text@[i] != '"' by {
                assert(val.text@[i] == cs@[v + 1 + i]);
            }
        }
        push_kid(&mut kids, val, Ghost(cs@), Ghost(s as int), Ghost(k as int));
        proof {
            lemma_within_grow(cs@, kids@, s as int, c as int, c + 1);
            assert(mark(cs@, v as int, '"') && mark(cs@, c as int, '"'));
        }
        Some((node(cs, Rule::Attribute, s, c + 1, kids), c + 1))
    } else {
        match lex_raw_value(cs, v) {
            Some(e) => {
                push_kid(&mut kids, leaf(cs, Rule::AttrValue, v, e), Ghost(cs@), Ghost(s as int), Ghost(k as int));
                Some((node(cs, Rule::Attribute, s, e, kids), e))
            },
            None => None,
        }
    }
}

/// attributes: `[`, attributes separated by `,` (a trailing `,` allowed),
/// `]`.
#[verifier::rlimit(40)]
#[verifier::spinoff_prover]
fn parse_attributes(cs: &Vec<char>, p: usize) -> (r: Option<(Pair, usize)>)
    requires
        p <= cs@.len() < usize::MAX,
    ensures
        parsed(cs@, p as int, r, Rule::Attributes),
        r matches Some(x) ==> kvs_shaped(x.0.children@) && x.1 > p,
        r is Some ==> mark(cs@, ws_end(cs@, p as int), '['),
        mark(cs@, ws_end(cs@, p as int), '[') && mark(cs@, ws_end(cs@, ws_end(cs@, p as int) + 1), ']') ==> r is Some,
        match r {
            Some(x) => attributes_end(cs@, p as int) == Some(x.1 as int),
            None => attributes_end(cs@, p as int) is None,
        },
{
    reveal(attributes_end);
    let s = skip_ws(cs, p);
    if !at(cs, s, '[') {
        return None;
    }
    let mut kids: Vec<Pair> = Vec::new();
    let mut e = s + 1;
    let ghost mut m: int = s as int;
    loop
        invariant
            p <= s < e <= cs@.len() < usize::MAX,
            blank_at(cs@, p as int, s as int),
            mark(cs@, s as int, '['),
            s == ws_end(cs@, p as int),
            mark(cs@, ws_end(cs@, s + 1), ']') ==> kids@.len() == 0 && e == s + 1,
            ordered_within(cs@, kids@, s as int, e as int),
            kvs_shaped(kids@),
            rules_are(kids@, 0, kids@.len() as int, Rule::Attribute),
            kids@.len() == 0 ==> e == s + 1,
            kids@.len() > 0 ==> blank_at(cs@, s + 1, kids@[0].start as int),
            kids@.len() > 0 ==> m + 1 == e && mark(cs@, m, ',') && blank_at(cs@, kids@.last().end as int, m),
            forall|i: int| 1 <= i < kids@.len() ==> #[trigger] list_gap(cs@, Rule::Attributes, kids@, i),
            attributes_end(cs@, p as int) == attrs_close(cs@, e as int),
        decreases cs@.len() - e,
    {
        let q = skip_ws(cs, e);
        if at(cs, q, ']') {
            proof {
                lemma_within_grow(cs@, kids@, s as int, e as int, q + 1);
                assert(mark(cs@, q as int, ']'));
                if kids@.len() > 0 {
                    assert(mark(cs@, m, ','));
                    assert(around(cs@, kids@.last().end as int, q as int, ','));
                }
            }
            return Some((node(cs, Rule::Attributes, s, q + 1, kids), q + 1));
        }
        let (a, ae) = match parse_attribute(cs, e) {
            Some(x) => x,
            None => return None,
        };
        let ghost before = kids@;
        proof {
            if before.len() > 0 {
                assert(mark(cs@, m, ','));
            }
        }
        push_kid(&mut kids, a, Ghost(cs@), Ghost(s as int), Ghost(e as int));
        proof {
            assert forall|i: int| 1 <= i < kids@.len() implies #[trigger] list_gap(cs@, Rule::Attributes, kids@, i) by {
                if i < before.len() {
                    assert(list_gap(cs@, Rule::Attributes, before, i));
                    assert(kids@[i] == before[i] && kids@[i - 1] == before[i - 1]);
                } else {
                    assert(kids@[i - 1] == before.last() && kids@[i] == a);
                    assert(mark(cs@, m, ','));
                }
            }
        }
        let q2 = skip_ws(cs, ae);
        if at(cs, q2, ',') {
            proof {
                lemma_within_grow(cs@, kids@, s as int, ae as int, q2 + 1);
                m = q2 as int;
            }
            e = q2 + 1;
        } else if at(cs, q2, ']') {
            proof {
                lemma_within_grow(cs@, kids@, s as int, ae as int, q2 + 1);
                assert(mark(cs@, q2 as int, ']'));
            }
            return Some((node(cs, Rule::Attributes, s, q2 + 1, kids), q2 + 1));
        } else {
            return None;
        }
    }
}

/// Where the property read from `p` on ends: an identifier, `:`, and a
/// math expression; nothing when none is read there.
pub open spec fn prop_end(s: Seq<char>, p: int) -> Option<int> {
    let a = ws_end(s, p);
    let q = ws_end(s, ident_end(s, a));
    if starts_ident(s, a) && mark(s, q, ':') {
        expr_end(s, q + 1)
    } else {
        None
    }
}

/// Where the properties read from `e` on end, after their `}`: each may be
/// followed by `,` or `;`.
pub open spec fn props_close(s: Seq<char>, e: int) -> Option<int>
    decreases s.len() - e,
{
    let q = ws_end(s, e);
    if mark(s, q, '}') {
        Some(q + 1)
    } else {
        match prop_end(s, e) {
            None => None,
            Some(pe) => {
                let q2 = ws_end(s, pe);
                if (mark(s, q2, ',') || mark(s, q2, ';')) && e <= q2 {
                    props_close(s, q2 + 1)
                } else if e < pe <= s.len() {
                    props_close(s, pe)
                } else {
                    None
                }
            },
        }
    }
}

/// Where the property block read from `p` on ends: `{`, properties, `}`;
/// nothing when none is read there.
#[verifier::opaque]
pub open spec fn property_block_end(s: Seq<char>, p: int) -> Option<int> {
    let a = ws_end(s, p);
    if mark(s, a, '{') {
        props_close(s, a + 1)
    } else {
        None
    }
}

/// property: identifier `:` math_expression.
fn parse_property(cs: &Vec<char>, p: usize) -> (r: Option<(Pair, usize)>)
    requires
        p <= cs@.len() < usize::MAX,
    ensures
        parsed(cs@, p as int, r, Rule::Property),
        r matches Some(x) ==> x.0.children@.len() >= 2 && expr_shaped(x.0.children@[1]) && x.1 > p,
        r is Some <==> property_start(cs@, ws_end(cs@, p as int)),
        match r {
            Some(x) => prop_end(cs@, p as int) == Some(x.1 as int),
            None => prop_end(cs@, p as int) is None,
        },
{
    let ghost a = ws_end(cs@, p as int);
    proof {
        if property_start(cs@, a) {
            let e = choose|e: int| #[trigger] ident_at(cs@, a, e) && mark(cs@, ws_end(cs@, e), ':') && term_start(
                cs@,
                ws_end(cs@, ws_end(cs@, e) + 1),
            );
        }
    }
    let (id, ie) = match parse_ident(cs, p) {
        Some(x) => x,
        None => return None,
    };
    let s = id.start;
    proof {
        if property_start(cs@, a) {
            let e = choose|e: int| #[trigger] ident_at(cs@, a, e) && mark(cs@, ws_end(cs@, e), ':') && term_start(
                cs@,
                ws_end(cs@, ws_end(cs@, e) + 1),
            );
            lemma_ident_unique(cs@, a, e, ie as int);
        }
    }
    let q = skip_ws(cs, ie);
    if !at(cs, q, ':') {
        return None;
    }
    let (ex, ee) = match parse_math_expression(cs, q + 1) {
        Some(x) => x,
        None => return None,
    };
    proof {
        assert(ident_at(cs@, a, ie as int));
        assert(property_start(cs@, a));
    }
    let mut kids: Vec<Pair> = Vec::new();
    push_kid(&mut kids, id, Ghost(cs@), Ghost(s as int), Ghost(s as int));
    push_kid(&mut kids, ex, Ghost(cs@), Ghost(s as int), Ghost(ie as int));
    proof {
        assert(mark(cs@, q as int, ':'));
        assert(around(cs@, ie as int, ex.start as int, ':'));
    }
    Some((node(cs, Rule::Property, s, ee, kids), ee))
}

/// property_block: `{`, properties each optionally followed by `,` or `;`,
/// `}`.
#[verifier::rlimit(40)]
#[verifier::spinoff_prover]
fn parse_property_block(cs: &Vec<char>, p: usize) -> (r: Option<(Pair, usize)>)
    requires
        p <= cs@.len() < usize::MAX,
    ensures
        parsed(cs@, p as int, r, Rule::PropertyBlock),
        r matches Some(x) ==> props_shaped(x.0.children@) && x.1 > p,
        r is Some ==> mark(cs@, ws_end(cs@, p as int), '{'),
        mark(cs@, ws_end(cs@, p as int), '{') && mark(cs@, ws_end(cs@, ws_end(cs@, p as int) + 1), '}') ==> r is Some,
        match r {
            Some(x) => property_block_end(cs@, p as int) == Some(x.1 as int),
            None => property_block_end(cs@, p as int) is None,
        },
{
    reveal(property_block_end);
    let s = skip_ws(cs, p);
    if !at(cs, s, '{') {
        return None;
    }
    let mut kids: Vec<Pair> = Vec::new();
    let mut e = s + 1;
    let ghost mut m: int = s as int;
    loop
        invariant
            p <= s < e <= cs@.len() < usize::MAX,
            blank_at(cs@, p as int, s as int),
            mark(cs@, s as int, '{'),
            s == ws_end(cs@, p as int),
            mark(cs@, ws_end(cs@, s + 1), '}') ==> kids@.len() == 0 && e == s + 1,
            ordered_within(cs@, kids@, s as int, e as int),
            props_shaped(kids@),
            rules_are(kids@, 0, kids@.len() as int, Rule::Property),
            kids@.len() == 0 ==> e == s + 1,
            kids@.len() > 0 ==> blank_at(cs@, s + 1, kids@[0].start as int),
            kids@.len() > 0 ==> e == kids@.last().end || (m + 1 == e && (mark(cs@, m, ',') || mark(cs@, m, ';'))
                && blank_at(cs@, kids@.last().end as int, m)),
            forall|i: int| 1 <= i < kids@.len() ==> #[trigger] list_gap(cs@, Rule::PropertyBlock, kids@, i),
            property_block_end(cs@, p as int) == props_close(cs@, e as int),
        decreases cs@.len() - e,
    {
        let q = skip_ws(cs, e);
        if at(cs, q, '}') {
            proof {
                lemma_within_grow(cs@, kids@, s as int, e as int, q + 1);
                assert(mark(cs@, q as int, '}'));
                if kids@.len() > 0 && e != kids@.last().end {
                    if cs@[m] == ',' {
                        assert(mark(cs@, m, ','));
                    } else {
                        assert(mark(cs@, m, ';'));
                    }
                }
            }
            return Some((node(cs, Rule::PropertyBlock, s, q + 1, kids), q + 1));
        }
        let (pr, pe) = match parse_property(cs, e) {
            Some(x) => x,
            None => return None,
        };
        let ghost before = kids@;
        proof {
            if before.len() > 0 && e != before.last().end {
                if cs@[m] == ',' {
                    assert(mark(cs@, m, ','));
                } else {
                    assert(mark(cs@, m, ';'));
                }
            }
        }
        push_kid(&mut kids, pr, Ghost(cs@), Ghost(s as int), Ghost(e as int));
        proof {
            assert forall|i: int| 1 <= i < kids@.len() implies #[trigger] list_gap(cs@, Rule::PropertyBlock, kids@, i) by {
                if i < before.len() {
                    assert(list_gap(cs@, Rule::PropertyBlock, before, i));
                    assert(kids@[i] == before[i] && kids@[i - 1] == before[i - 1]);
                } else {
                    assert(kids@[i - 1] == before.last() && kids@[i] == pr);
                    if e != before.last().end {
                        if cs@[m] == ',' {
                            assert(mark(cs@, m, ','));
                        } else {
                            assert(mark(cs@, m, ';'));
                        }
                    }
                }
            }
        }
        let q2 = skip_ws(cs, pe);
        if at(cs, q2, ',') || at(cs, q2, ';') {
            proof {
                lemma_within_grow(cs@, kids@, s as int, pe as int, q2 + 1);
                m = q2 as int;
            }
            e = q2 + 1;
        } else {
            e = pe;
        }
    }
}

/// node_decl: an optional `node` keyword, the identifier, then on the same
/// line an optional `:::` and class identifier, optional attributes and an
/// optional property block.
#[verifier::rlimit(100)]
#[verifier::spinoff_prover]
fn parse_node_decl(cs: &Vec<char>, p: usize) -> (r: Option<(Pair, usize)>)
    requires
        p <= cs@.len() < usize::MAX,
    ensures
        parsed(cs@, p as int, r, Rule::NodeDecl),
        r matches Some(x) ==> stmt_full(x.0) && x.1 > p,
        r is Some <==> starts_ident(cs@, node_id_at(cs@, ws_end(cs@, p as int))),
        r matches Some(x) ==> x.0.start == ws_end(cs@, p as int),
        r matches Some(x) ==> node_parts_read(cs@, x.0),
        r matches Some(x) ==> x.0.children@.len() >= 1 && (!(x.0.children@.len() > 1 && x.0.children@[1].rule
            == Rule::Identifier) ==> !class_marker_at(cs@, x.0.children@[0].end as int)),
{
    let s = skip_ws(cs, p);
    let id_at = match at_keyword(cs, s, "node") {
        Some(k) => {
            let t = skip_ws(cs, k);
            if t > k {
                t
            } else {
                s
            }
        },
        None => s,
    };
    assert(id_at == s || keyword_then(cs@, s as int, id_at as int, "node"@));
    assert(id_at == node_id_at(cs@, s as int));
    let ie = match lex_ident(cs, id_at) {
        Some(e) => e,
        None => return None,
    };
    proof {
        lemma_ident_end(cs@, id_at as int, ie as int);
    }
    let mut kids: Vec<Pair> = Vec::new();
    push_kid(&mut kids, leaf(cs, Rule::Identifier, id_at, ie), Ghost(cs@), Ghost(s as int), Ghost(s as int));
    let mut e = ie;
    let q = skip_inline(cs, e);
    if at(cs, q, ':') && at(cs, q + 1, ':') && at(cs, q + 2, ':') {
        let c = skip_inline(cs, q + 3);
        match lex_ident(cs, c) {
            Some(ce) => {
                proof {
                    lemma_ident_end(cs@, c as int, ce as int);
                }
                let k = leaf(cs, Rule::Identifier, c, ce);
                proof {
                    reveal_strlit(":::");
                    assert(cs@.subrange(q as int, q + 3) =~= ":::"@);
                    assert(word_at(cs@, q as int, ":::"@));
                    assert(inline_word(cs@, e as int, c as int, ":::"@));
                }
                push_kid(&mut kids, k, Ghost(cs@), Ghost(s as int), Ghost(e as int));
                proof {
                    assert(node_gap(cs@, kids@, 1));
                }
                e = ce;
            },
            None => {},
        }
    }
    let ghost kids1 = kids@;
    assert(kids1.last().end == e);
    assert(forall|i: int| 1 <= i < kids1.len() ==> #[trigger] node_gap(cs@, kids1, i));
    let q = skip_inline(cs, e);
    if at(cs, q, '[') {
        match parse_attributes(cs, q) {
            Some((a, ae)) => {
                proof {
                    lemma_starts_at(cs@, q as int, a.start as int, '[');
                }
                push_kid(&mut kids, a, Ghost(cs@), Ghost(s as int), Ghost(e as int));
                proof {
                    assert(node_gap(cs@, kids@, kids1.len() as int));
                }
                e = ae;
            },
            None => {},
        }
    }
    assert(kids@.len() > kids1.len() ==> kids@ == kids1.push(kids@.last()) && kids@.last().rule == Rule::Attributes
        && node_gap(cs@, kids@, kids1.len() as int));
    assert(kids@.len() == kids1.len() ==> kids@ == kids1);
    let ghost e1 = kids1.last().end as int;
    assert(kids@.len() == kids1.len() ==> !(mark(cs@, inline_end(cs@, e1), '[') && attributes_end(
        cs@,
        inline_end(cs@, e1),
    ) is Some));
    let ghost kids2 = kids@;
    assert(kids2.last().end == e);
    let q = skip_inline(cs, e);
    if at(cs, q, '{') {
        match parse_property_block(cs, q) {
            Some((b, be)) => {
                proof {
                    lemma_starts_at(cs@, q as int, b.start as int, '{');
                }
                push_kid(&mut kids, b, Ghost(cs@), Ghost(s as int), Ghost(e as int));
                proof {
                    assert(node_gap(cs@, kids@, kids2.len() as int));
                }
                e = be;
            },
            None => {},
        }
    }
    assert(kids@.len() > kids2.len() ==> kids@ == kids2.push(kids@.last()) && kids@.last().rule == Rule::PropertyBlock
        && node_gap(cs@, kids@, kids2.len() as int));
    assert(kids@.len() == kids2.len() ==> kids@ == kids2);
    let ghost e2 = kids2.last().end as int;
    assert(kids@.len() == kids2.len() ==> !(mark(cs@, inline_end(cs@, e2), '{') && property_block_end(
        cs@,
        inline_end(cs@, e2),
    ) is Some));
    proof {
        assert forall|i: int| 1 <= i < kids@.len() implies #[trigger] node_gap(cs@, kids@, i) by {
            if i < kids1.len() {
                assert(node_gap(cs@, kids1, i));
                assert(kids@[i] == kids1[i] && kids@[i - 1] == kids1[i - 1]);
            } else if i < kids2.len() {
                assert(kids@[i] == kids2[i] && kids@[i - 1] == kids2[i - 1]);
            }
        }
        assert(kids@.last().end == e);
    }
    let t = node(cs, Rule::NodeDecl, s, e, kids);
    assert(node_parts_read(cs@, t)) by {
        reveal(node_parts_read);
        assert(kids1.len() == 1 || kids1[1].rule == Rule::Identifier);
        assert(kids1.len() <= 2);
    }
    Some((t, e))
}

/// The position after a bracketed label (`[`, anything but `]`, `]`) on
/// the same line at `p`, or `p` when there is none.
fn skip_label(cs: &Vec<char>, p: usize) -> (q: usize)
    requires
        p <= cs@.len() < usize::MAX,
    ensures
        p <= q <= cs@.len(),
        label_at(cs@, p as int, q as int),
        q == label_end(cs@, p as int),
{
    let s = skip_inline(cs, p);
    if !at(cs, s, '[') {
        return p;
    }
    let mut c = s + 1;
    while c < cs.len() && cs[c] != ']'
        invariant
            s < c <= cs@.len(),
            forall|j: int| s < j < c ==> cs@[j] != ']',
        decreases cs@.len() - c,
    {
        c = c + 1;
    }
    let ghost t = cs@.skip(s + 1);
    proof {
        assert forall|j: int| 0 <= j < t.len() && j < c - s - 1 implies t[j] != ']' by {
            assert(t[j] == cs@[s + 1 + j]);
        }
    }
    if c < cs.len() {
        proof {
            assert(mark(cs@, s as int, '['));
            assert(t[c - s - 1] == cs@[c as int]);
            lemma_index_of_char_unique(t, ']', c - s - 1);
        }
        c + 1
    } else {
        proof {
            lemma_index_of_char_unique(t, ']', -1);
        }
        p
    }
}

/// Where the arrow that stands at `a` ends: `->`, `>>` or `==`, or `-`, an
/// attribute list and `->`; nothing when no arrow stands there.
pub open spec fn arrow_end(s: Seq<char>, a: int) -> Option<int> {
    if arrow_at(s, a) {
        Some(a + 2)
    } else if mark(s, a, '-') && mark(s, a + 1, '[') {
        match attributes_end(s, a + 1) {
            Some(be) => if mark(s, be, '-') && mark(s, be + 1, '>') {
                Some(be + 2)
            } else {
                None
            },
            None => None,
        }
    } else {
        None
    }
}

/// Where the connection read from `p` on ends, when one is read there:
/// after the target identifier and its bracketed label, or after a label
/// `: "text"` on the same line.
pub open spec fn connection_end(s: Seq<char>, p: int) -> int {
    let a0 = ws_end(s, p);
    let a = inline_end(s, label_end(s, ident_end(s, a0)));
    let ae = match arrow_end(s, a) {
        Some(e) => e,
        None => a,
    };
    let l2 = label_end(s, ident_end(s, inline_end(s, ae)));
    let c = inline_end(s, l2);
    let l = inline_end(s, c + 1);
    if mark(s, c, ':') && mark(s, l, '"') && string_start(s, l) {
        string_end(s, l)
    } else {
        l2
    }
}

/// A connection is read at `a`: an identifier (with its bracketed label, if
/// any), an arrow on the same line, and an identifier after it.
pub open spec fn connection_at(s: Seq<char>, a: int) -> bool {
    &&& starts_ident(s, a)
    &&& match arrow_end(s, inline_end(s, label_end(s, ident_end(s, a)))) {
        Some(ae) => starts_ident(s, inline_end(s, ae)),
        None => false,
    }
}

/// connection: identifier (with an optional bracketed label), an arrow
/// (`->`, `>>`, `==`, or `-` attributes `->`), identifier (with an optional
/// bracketed label), and optionally `:` and a string literal; all on one
/// line.
#[verifier::rlimit(40)]
#[verifier::spinoff_prover]
fn parse_connection(cs: &Vec<char>, p: usize) -> (r: Option<(Pair, usize)>)
    requires
        p <= cs@.len() < usize::MAX,
    ensures
        parsed(cs@, p as int, r, Rule::Connection),
        r matches Some(x) ==> stmt_full(x.0) && x.1 > p,
        r is Some ==> starts_ident(cs@, ws_end(cs@, p as int)),
        plain_connection_at(cs@, ws_end(cs@, p as int)) ==> r is Some,
        r is Some <==> connection_at(cs@, ws_end(cs@, p as int)),
        r matches Some(x) ==> x.1 == connection_end(cs@, p as int),
        r matches Some(x) ==> x.0.children@.len() >= 3 && (x.0.children@.len() == 3 ==> !trailing_label_at(
            cs@,
            x.0.children@[2].end as int,
        )),
{
    let s = skip_ws(cs, p);
    let fe = match lex_ident(cs, s) {
        Some(e) => e,
        None => return None,
    };
    let mut kids: Vec<Pair> = Vec::new();
    push_kid(&mut kids, leaf(cs, Rule::Identifier, s, fe), Ghost(cs@), Ghost(s as int), Ghost(s as int));
    proof {
        lemma_ident_end(cs@, s as int, fe as int);
        if plain_connection_at(cs@, s as int) {
            let f2 = choose|f2: int| #[trigger] ident_at(cs@, s as int, f2) && arrow_at(cs@, inline_end(cs@, label_end(cs@, f2)))
                && starts_ident(cs@, inline_end(cs@, inline_end(cs@, label_end(cs@, f2)) + 2));
            lemma_ident_unique(cs@, s as int, fe as int, f2);
        }
    }
    let l1 = skip_label(cs, fe);
    let a = skip_inline(cs, l1);
    let ae;
    if a + 1 < cs.len() && ((cs[a] == '-' && cs[a + 1] == '>') || (cs[a] == '>' && cs[a + 1] == '>') || (cs[a] == '='
        && cs[a + 1] == '=')) {
        push_kid(&mut kids, leaf(cs, Rule::Arrow, a, a + 2), Ghost(cs@), Ghost(s as int), Ghost(fe as int));
        ae = a + 2;
    } else if at(cs, a, '-') && at(cs, a + 1, '[') {
        let (attrs, be) = match parse_attributes(cs, a + 1) {
            Some(x) => x,
            None => return None,
        };
        if !(at(cs, be, '-') && at(cs, be + 1, '>')) {
            return None;
        }
        let mut akids: Vec<Pair> = Vec::new();
        push_kid(&mut akids, attrs, Ghost(cs@), Ghost(a as int), Ghost(a as int));
        proof {
            lemma_within_grow(cs@, akids@, a as int, be as int, be + 2);
            lemma_starts_at(cs@, a + 1, attrs.start as int, '[');
            reveal_strlit("->");
            assert(cs@.subrange(be as int, be + 2) =~= "->"@);
        }
        let arrow = node(cs, Rule::AttrArrow, a, be + 2, akids);
        push_kid(&mut kids, arrow, Ghost(cs@), Ghost(s as int), Ghost(fe as int));
        ae = be + 2;
    } else {
        return None;
    }
    assert(arrow_end(cs@, a as int) == Some(ae as int));
    let t = skip_inline(cs, ae);
    let te = match lex_ident(cs, t) {
        Some(e) => e,
        None => return None,
    };
    proof {
        lemma_ident_end(cs@, t as int, te as int);
    }
    push_kid(&mut kids, leaf(cs, Rule::Identifier, t, te), Ghost(cs@), Ghost(s as int), Ghost(ae as int));
    let mut e = skip_label(cs, te);
    proof {
        lemma_within_grow(cs@, kids@, s as int, te as int, e as int);
        assert(inline_at(cs@, l1 as int, kids@[1].start as int));
    }
    let ghost l2 = e;
    let c = skip_inline(cs, e);
    if at(cs, c, ':') {
        let l = skip_inline(cs, c + 1);
        if at(cs, l, '"') {
            match parse_string(cs, l) {
                Some((lit, le)) => {
                    proof {
                        lemma_starts_at(cs@, l as int, lit.start as int, '"');
                        assert(cs@.subrange(c as int, c + 1) =~= seq![':']);
                        assert(word_at(cs@, c as int, seq![':']));
                        assert(inline_word(cs@, l2 as int, lit.start as int, seq![':']));
                        assert(inline_word(cs@, l2 as int, lit.start as int, seq![':']) && label_at(cs@, te as int, l2 as int));
                    }
                    push_kid(&mut kids, lit, Ghost(cs@), Ghost(s as int), Ghost(e as int));
                    e = le;
                },
                None => {},
            }
        }
    }
    proof {
        if kids@.len() == 3 && trailing_label_at(cs@, te as int) {
            assert(cs@[c as int] == ':');
        }
    }
    Some((node(cs, Rule::Connection, s, e, kids), e))
}

/// Where the scenario declaration read from `p` on ends, after its `]`.
pub open spec fn scenario_end(s: Seq<char>, p: int) -> int {
    let a = ws_end(s, p);
    let k = ws_end(s, a + 1);
    let c = ws_end(s, k + 8);
    let lit = ws_end(s, c + 1);
    ws_end(s, string_end(s, lit)) + 1
}

/// Where the style class read from `p` on ends, after the first `}` of its
/// body.
pub open spec fn style_end(s: Seq<char>, p: int) -> int {
    let a = ws_end(s, p);
    let o = ws_end(s, ident_end(s, ws_end(s, a + 5)));
    until_end(s, o + 1, '}') + 1
}

/// scenario_decl: `[`, `scenario`, `:`, a string literal, `]`.
fn parse_scenario(cs: &Vec<char>, p: usize) -> (r: Option<(Pair, usize)>)
    requires
        p <= cs@.len() < usize::MAX,
    ensures
        parsed(cs@, p as int, r, Rule::ScenarioDecl),
        r matches Some(x) ==> stmt_full(x.0) && x.1 > p,
        r is Some <==> scenario_start(cs@, ws_end(cs@, p as int)),
        r matches Some(x) ==> x.1 == scenario_end(cs@, p as int),
{
    let s = skip_ws(cs, p);
    if !at(cs, s, '[') {
        return None;
    }
    let k = skip_ws(cs, s + 1);
    let ke = match at_keyword(cs, k, "scenario") {
        Some(e) => e,
        None => return None,
    };
    let c = skip_ws(cs, ke);
    if !at(cs, c, ':') {
        return None;
    }
    let (lit, le) = match parse_string(cs, c + 1) {
        Some(x) => x,
        None => return None,
    };
    let b = skip_ws(cs, le);
    if !at(cs, b, ']') {
        return None;
    }
    let mut kids: Vec<Pair> = Vec::new();
    push_kid(&mut kids, lit, Ghost(cs@), Ghost(s as int), Ghost(s as int));
    proof {
        lemma_within_grow(cs@, kids@, s as int, le as int, b + 1);
        reveal_strlit("scenario");
        assert(mark(cs@, c as int, ':'));
        assert(around(cs@, k + 8, lit.start as int, ':'));
        assert(word_at(cs@, k as int, "scenario"@));
        assert(mark(cs@, s as int, '[') && mark(cs@, b as int, ']'));
    }
    Some((node(cs, Rule::ScenarioDecl, s, b + 1, kids), b + 1))
}

/// style_decl: `style`, identifier, `{`, the body (everything up to the
/// first `}`), `}`.
fn parse_style(cs: &Vec<char>, p: usize) -> (r: Option<(Pair, usize)>)
    requires
        p <= cs@.len() < usize::MAX,
    ensures
        parsed(cs@, p as int, r, Rule::StyleDecl),
        r matches Some(x) ==> stmt_full(x.0) && x.1 > p,
        r is Some <==> style_start(cs@, ws_end(cs@, p as int)),
        r matches Some(x) ==> x.1 == style_end(cs@, p as int),
{
    let s = skip_ws(cs, p);
    let k = match at_keyword(cs, s, "style") {
        Some(e) => e,
        None => return None,
    };
    let (id, ie) = match parse_ident(cs, k) {
        Some(x) => x,
        None => {
            proof {
                if style_start(cs@, s as int) {
                    let i2 = choose|i2: int| keyword_at(cs@, s as int, "style"@) && #[trigger] ident_at(
                        cs@,
                        ws_end(cs@, s + "style"@.len()),
                        i2,
                    ) && mark(cs@, ws_end(cs@, i2), '{') && exists|j: int| ws_end(cs@, i2) < j && #[trigger] close_brace_at(cs@, j);
                }
            }
            return None;
        },
    };
    proof {
        if style_start(cs@, s as int) {
            let i2 = choose|i2: int| keyword_at(cs@, s as int, "style"@) && #[trigger] ident_at(
                cs@,
                ws_end(cs@, s + "style"@.len()),
                i2,
            ) && mark(cs@, ws_end(cs@, i2), '{') && exists|j: int| ws_end(cs@, i2) < j && #[trigger] close_brace_at(cs@, j);
            lemma_ident_unique(cs@, id.start as int, ie as int, i2);
        }
    }
    let o = skip_ws(cs, ie);
    if !at(cs, o, '{') {
        return None;
    }
    proof {
        reveal_strlit("style");
        assert("style"@.len() == 5);
    }
    let mut c = o + 1;
    while c < cs.len() && cs[c] != '}'
        invariant
            o < c <= cs@.len(),
            forall|j: int| o < j < c ==> cs@[j] != '}',
            until_end(cs@, o + 1, '}') == until_end(cs@, c as int, '}'),
        decreases cs@.len() - c,
    {
        c = c + 1;
    }
    if c >= cs.len() {
        proof {
            assert forall|j: int| o < j implies !#[trigger] close_brace_at(cs@, j) by {}
        }
        return None;
    }
    proof {
        assert(close_brace_at(cs@, c as int));
        assert(ident_at(cs@, id.start as int, ie as int));
    }
    proof {
        let t = cs@.subrange(o + 1, c as int);
        assert forall|i: int| 0 <= i < t.len() implies #[trigger] t[i] != '}' by {
            assert(t[i] == cs@[o + 1 + i]);
        }
    }
    let mut kids: Vec<Pair> = Vec::new();
    push_kid(&mut kids, id, Ghost(cs@), Ghost(s as int), Ghost(s as int));
    push_kid(&mut kids, leaf(cs, Rule::StyleBody, o + 1, c), Ghost(cs@), Ghost(s as int), Ghost(ie as int));
    proof {
        lemma_within_grow(cs@, kids@, s as int, c as int, c + 1);
        assert(keyword_then(cs@, s as int, id.start as int, "style"@));
        assert(mark(cs@, o as int, '{') && mark(cs@, c as int, '}'));
    }
    Some((node(cs, Rule::StyleDecl, s, c + 1, kids), c + 1))
}

/// layer_block: `layer`, identifier, `{`, statements, `}`.
#[verifier::rlimit(40)]
#[verifier::spinoff_prover]
fn parse_layer_block(cs: &Vec<char>, p: usize) -> (r: Option<(Pair, usize)>)
    requires
        p <= cs@.len() < usize::MAX,
    ensures
        parsed(cs@, p as int, r, Rule::LayerBlock),
        r matches Some(x) ==> stmt_full(x.0) && x.1 > p,
        r is Some ==> keyword_at(cs@, ws_end(cs@, p as int), "layer"@),
        empty_block_decl_at(cs@, ws_end(cs@, p as int), "layer"@) ==> r is Some,
    decreases cs@.len() - p, 1nat,
{
    let s = skip_ws(cs, p);
    let k = match at_keyword(cs, s, "layer") {
        Some(e) => e,
        None => return None,
    };
    let (id, ie) = match parse_ident(cs, k) {
        Some(x) => x,
        None => return None,
    };
    proof {
        if empty_block_decl_at(cs@, s as int, "layer"@) {
            let i2 = choose|i2: int| keyword_at(cs@, s as int, "layer"@) && #[trigger] ident_at(
                cs@,
                ws_end(cs@, s + "layer"@.len()),
                i2,
            ) && mark(cs@, ws_end(cs@, i2), '{') && mark(cs@, ws_end(cs@, ws_end(cs@, i2) + 1), '}');
            lemma_ident_unique(cs@, id.start as int, ie as int, i2);
        }
    }
    let o = skip_ws(cs, ie);
    if !at(cs, o, '{') {
        return None;
    }
    let mut kids: Vec<Pair> = Vec::new();
    push_kid(&mut kids, id, Ghost(cs@), Ghost(s as int), Ghost(s as int));
    proof {
        lemma_within_grow(cs@, kids@, s as int, ie as int, o + 1);
        assert(blank_gaps(cs@, kids@, 2));
    }
    let e = parse_stmts(cs, o + 1, &mut kids, Ghost(s as int));
    let c = skip_ws(cs, e);
    if !at(cs, c, '}') {
        return None;
    }
    proof {
        lemma_within_grow(cs@, kids@, s as int, e as int, c + 1);
        lemma_stmts_full_from_all(kids@, kids@.len() as int);
        assert(keyword_then(cs@, s as int, kids@[0].start as int, "layer"@));
        assert(mark(cs@, o as int, '{') && mark(cs@, c as int, '}'));
        if kids@.len() == 1 {
            lemma_blank_join(cs@, o + 1, e as int, c as int);
            assert(around(cs@, ie as int, c as int, '{'));
        } else {
            assert(around(cs@, ie as int, kids@[1].start as int, '{'));
        }
    }
    Some((node(cs, Rule::LayerBlock, s, c + 1, kids), c + 1))
}

/// No diagram statement is read at `a`: neither a node or a connection
/// (an identifier, after an optional `node`), nor a scenario, nor a style
/// class, nor an empty layer.
pub open spec fn no_stmt_at(s: Seq<char>, a: int) -> bool {
    &&& !starts_ident(s, node_id_at(s, a))
    &&& !scenario_start(s, a)
    &&& !style_start(s, a)
    &&& !empty_block_decl_at(s, a, "layer"@)
}

/// A label `: "text"` follows, on the same line, the target identifier
/// that ends at `te` (and its bracketed label, if any).
pub open spec fn trailing_label_at(s: Seq<char>, te: int) -> bool {
    let c = inline_end(s, label_end(s, te));
    let l = inline_end(s, c + 1);
    mark(s, c, ':') && mark(s, l, '"') && string_start(s, ws_end(s, l))
}

/// A class `::: Name` follows, on the same line, the node identifier that
/// ends at `ie`.
pub open spec fn class_marker_at(s: Seq<char>, ie: int) -> bool {
    let q = inline_end(s, ie);
    mark(s, q, ':') && mark(s, q + 1, ':') && mark(s, q + 2, ':') && starts_ident(s, inline_end(s, q + 3))
}

/// The optional parts of a node declaration are read where they stand: no
/// attribute list is left unread after the name (and class), and no
/// property block after them.
#[verifier::opaque]
pub open spec fn node_parts_read(s: Seq<char>, st: Pair) -> bool {
    let c = st.children@;
    let has_class = c.len() > 1 && c[1].rule == Rule::Identifier;
    let ia: int = if has_class { 2 } else { 1 };
    let e1: int = if has_class { c[1].end as int } else { c[0].end as int };
    let has_attrs = ia < c.len() && c[ia].rule == Rule::Attributes;
    let e2: int = if has_attrs { c[ia].end as int } else { e1 };
    let has_block = c.len() > 0 && c.last().rule == Rule::PropertyBlock;
    &&& !has_attrs ==> !(mark(s, inline_end(s, e1), '[') && attributes_end(s, inline_end(s, e1)) is Some)
    &&& !has_block ==> !(mark(s, inline_end(s, e2), '{') && property_block_end(s, inline_end(s, e2)) is Some)
}

/// A statement is read as far as it goes: one read as a node declaration
/// does not start a connection (a connection is tried first), is not
/// followed by a class it was read without, and leaves no attribute list
/// or property block unread; a connection read without a label is not
/// followed by one.
pub open spec fn stmt_maximal(s: Seq<char>, st: Pair) -> bool {
    &&& st.rule == Rule::NodeDecl ==> !connection_at(s, st.start as int)
    &&& st.rule == Rule::NodeDecl ==> node_parts_read(s, st)
    &&& st.rule == Rule::NodeDecl && st.children@.len() >= 1 && !(st.children@.len() > 1 && st.children@[1].rule
        == Rule::Identifier) ==> !class_marker_at(s, st.children@[0].end as int)
    &&& st.rule == Rule::Connection && st.children@.len() == 3 ==> !trailing_label_at(s, st.children@[2].end as int)
}

/// Every statement of a diagram is read as the reader tries them.
pub open spec fn diagram_maximal(s: Seq<char>, d: Pair) -> bool {
    forall|i: int| 1 <= i < d.children@.len() ==> stmt_maximal(s, #[trigger] d.children@[i])
}

/// diagram_stmt: a scenario, a style, a layer, a connection or a node,
/// tried in that order.
fn parse_diagram_stmt(cs: &Vec<char>, p: usize) -> (r: Option<(Pair, usize)>)
    requires
        p <= cs@.len() < usize::MAX,
    ensures
        r matches Some(x) ==> p <= x.0.start && x.0.end == x.1 && spans_ok(cs@, x.0),
        r matches Some(x) ==> stmt_full(x.0) && x.1 > p && stmt_rule(x.0.rule),
        r matches Some(x) ==> blank_at(cs@, p as int, x.0.start as int),
        r is Some ==> stmt_start(cs@, ws_end(cs@, p as int)),
        starts_ident(cs@, node_id_at(cs@, ws_end(cs@, p as int))) ==> r is Some,
        r matches Some(x) ==> stmt_maximal(cs@, x.0),
        r is None ==> no_stmt_at(cs@, ws_end(cs@, p as int)),
    decreases cs@.len() - p, 2nat,
{
    let ghost a = ws_end(cs@, p as int);
    proof {
        reveal_strlit("style");
        reveal_strlit("layer");
        reveal_strlit("node");
        if starts_ident(cs@, a) {
            let e = choose|e: int| ident_at(cs@, a, e);
            assert(cs@.subrange(a, e)[0] == cs@[a]);
        }
        if keyword_at(cs@, a, "style"@) {
            assert(cs@.subrange(a, a + 5)[0] == cs@[a]);
        }
        if keyword_at(cs@, a, "layer"@) {
            assert(cs@.subrange(a, a + 5)[0] == cs@[a]);
        }
        if keyword_at(cs@, a, "node"@) {
            assert(cs@.subrange(a, a + 4)[0] == cs@[a]);
        }
        if style_start(cs@, a) {
            let i2 = choose|i2: int| keyword_at(cs@, a, "style"@) && #[trigger] ident_at(cs@, ws_end(cs@, a + "style"@.len()), i2)
                && mark(cs@, ws_end(cs@, i2), '{') && exists|j: int| ws_end(cs@, i2) < j && #[trigger] close_brace_at(cs@, j);
        }
        if node_id_at(cs@, a) != a {
            assert(keyword_at(cs@, a, "node"@));
        }
    }
    match parse_scenario(cs, p) {
        Some(x) => return Some(x),
        None => {},
    }
    match parse_style(cs, p) {
        Some(x) => return Some(x),
        None => {},
    }
    match parse_layer_block(cs, p) {
        Some(x) => return Some(x),
        None => {},
    }
    match parse_connection(cs, p) {
        Some(x) => return Some(x),
        None => {},
    }
    parse_node_decl(cs, p)
}

/// The statements from `p` on, appended to `kids`; gives where they end.
#[verifier::rlimit(40)]
#[verifier::spinoff_prover]
fn parse_stmts(cs: &Vec<char>, p: usize, kids: &mut Vec<Pair>, Ghost(lo): Ghost<int>) -> (e: usize)
    requires
        p <= cs@.len() < usize::MAX,
        old(kids)@.len() >= 1,
        ordered_within(cs@, old(kids)@, lo, p as int),
        forall|i: int| 1 <= i < old(kids)@.len() ==> stmt_full(#[trigger] old(kids)@[i]),
        forall|i: int| 1 <= i < old(kids)@.len() ==> stmt_rule((#[trigger] old(kids)@[i]).rule),
        forall|i: int| 1 <= i < old(kids)@.len() ==> stmt_maximal(cs@, #[trigger] old(kids)@[i]),
    ensures
        p <= e <= cs@.len(),
        final(kids)@.len() >= old(kids)@.len(),
        final(kids)@.subrange(0, old(kids)@.len() as int) == old(kids)@,
        final(kids)@[0] == old(kids)@[0],
        ordered_within(cs@, final(kids)@, lo, e as int),
        forall|i: int| 1 <= i < final(kids)@.len() ==> stmt_full(#[trigger] final(kids)@[i]),
        forall|i: int| 1 <= i < final(kids)@.len() ==> stmt_rule((#[trigger] final(kids)@[i]).rule),
        forall|i: int| 1 <= i < final(kids)@.len() ==> stmt_maximal(cs@, #[trigger] final(kids)@[i]),
        final(kids)@.len() == old(kids)@.len() ==> e == p,
        final(kids)@.len() > old(kids)@.len() ==> e == final(kids)@.last().end && blank_at(
            cs@,
            p as int,
            final(kids)@[old(kids)@.len() as int].start as int,
        ),
        blank_gaps(cs@, old(kids)@, old(kids)@.len() as int + 1) ==> blank_gaps(cs@, final(kids)@, old(kids)@.len() as int + 1),
        !stmt_start(cs@, ws_end(cs@, p as int)) ==> final(kids)@.len() == old(kids)@.len(),
        no_stmt_at(cs@, ws_end(cs@, e as int)),
    decreases cs@.len() - p, 3nat,
{
    let mut e = p;
    let ghost k0 = kids@;
    loop
        invariant
            p <= e <= cs@.len() < usize::MAX,
            k0 == old(kids)@,
            kids@.len() >= k0.len() >= 1,
            kids@.subrange(0, k0.len() as int) == k0,
            kids@[0] == k0[0],
            ordered_within(cs@, kids@, lo, e as int),
            forall|i: int| 1 <= i < kids@.len() ==> stmt_full(#[trigger] kids@[i]),
            forall|i: int| 1 <= i < kids@.len() ==> stmt_rule((#[trigger] kids@[i]).rule),
            forall|i: int| 1 <= i < kids@.len() ==> stmt_maximal(cs@, #[trigger] kids@[i]),
            kids@.len() == k0.len() ==> e == p,
            kids@.len() > k0.len() ==> e == kids@.last().end && blank_at(cs@, p as int, kids@[k0.len() as int].start as int),
            blank_gaps(cs@, k0, k0.len() as int + 1) ==> blank_gaps(cs@, kids@, k0.len() as int + 1),
            !stmt_start(cs@, ws_end(cs@, p as int)) ==> kids@.len() == k0.len(),
        decreases cs@.len() - e,
    {
        match parse_diagram_stmt(cs, e) {
            Some((st, se)) => {
                let ghost before = kids@;
                proof {
                    if blank_gaps(cs@, k0, k0.len() as int + 1) {
                        lemma_blank_gaps_push(cs@, before, st, k0.len() as int + 1);
                    }
                }
                push_kid(kids, st, Ghost(cs@), Ghost(lo), Ghost(e as int));
                proof {
                    assert(kids@.subrange(0, k0.len() as int) =~= before.subrange(0, k0.len() as int));
                    assert(kids@[k0.len() as int] == if before.len() == k0.len() { st } else { before[k0.len() as int] });
                }
                e = se;
            },
            None => return e,
        }
    }
}

/// diagram: `#`, the name (the rest of the line), then statements.
#[verifier::rlimit(40)]
#[verifier::spinoff_prover]
fn parse_diagram(cs: &Vec<char>, p: usize) -> (r: Option<(Pair, usize)>)
    requires
        p <= cs@.len() < usize::MAX,
    ensures
        parsed(cs@, p as int, r, Rule::Diagram),
        r is Some <==> mark(cs@, ws_end(cs@, p as int), '#'),
        r matches Some(x) ==> x.0.children@.len() >= 1 && stmts_full(x.0.children@, x.0.children@.len() as int),
        r matches Some(x) ==> x.1 > p,
        r matches Some(x) ==> no_stmt_at(cs@, ws_end(cs@, x.1 as int)),
        r matches Some(x) ==> diagram_maximal(cs@, x.0),
{
    let s = skip_ws(cs, p);
    if !at(cs, s, '#') {
        return None;
    }
    let n = skip_inline(cs, s + 1);
    let mut ne = n;
    while ne < cs.len() && cs[ne] != '\n'
        invariant
            n <= ne <= cs@.len(),
            forall|j: int| n <= j < ne ==> cs@[j] != '\n',
        decreases cs@.len() - ne,
    {
        ne = ne + 1;
    }
    proof {
        let t = cs@.subrange(n as int, ne as int);
        assert forall|i: int| 0 <= i < t.len() implies #[trigger] t[i] != '\n' by {
            assert(t[i] == cs@[n + i]);
        }
    }
    let mut kids: Vec<Pair> = Vec::new();
    push_kid(&mut kids, leaf(cs, Rule::DiagramName, n, ne), Ghost(cs@), Ghost(s as int), Ghost(s as int));
    proof {
        assert(blank_gaps(cs@, kids@, 2));
    }
    let e = parse_stmts(cs, ne, &mut kids, Ghost(s as int));
    proof {
        lemma_stmts_full_from_all(kids@, kids@.len() as int);
        assert(mark(cs@, s as int, '#'));
        assert forall|i: int| 1 <= i < kids@.len() implies #[trigger] blank_gap(cs@, kids@, i) by {
            if i >= 2 {
                assert(blank_gaps(cs@, kids@, 2));
            }
        }
        assert(blank_gaps(cs@, kids@, 1));
        assert(ne == cs@.len() || mark(cs@, ne as int, '\n'));
    }
    Some((node(cs, Rule::Diagram, s, e, kids), e))
}

/// Where the text from `e` on up to (not including) the first `stop`, or
/// the end of the input, ends.
pub open spec fn until_end(s: Seq<char>, e: int, stop: char) -> int
    decreases s.len() - e,
{
    if 0 <= e < s.len() && s[e] != stop {
        until_end(s, e + 1, stop)
    } else {
        e
    }
}

/// Where the identifier characters that start at `e` end.
pub open spec fn ident_chars_end(s: Seq<char>, e: int) -> int
    decreases s.len() - e,
{
    if 0 <= e < s.len() && ident_char(s[e]) {
        ident_chars_end(s, e + 1)
    } else {
        e
    }
}

/// The end of the text that starts at `s` and runs up to (not including)
/// the first `stop` or the end of the input.
fn lex_until(cs: &Vec<char>, s: usize, stop: char) -> (e: usize)
    requires
        s <= cs@.len(),
    ensures
        s <= e <= cs@.len(),
        e < cs@.len() ==> cs@[e as int] == stop,
        forall|j: int| s <= j < e ==> cs@[j] != stop,
        e == until_end(cs@, s as int, stop),
{
    let mut e = s;
    while e < cs.len() && cs[e] != stop
        invariant
            until_end(cs@, s as int, stop) == until_end(cs@, e as int, stop),
            s <= e <= cs@.len(),
            forall|j: int| s <= j < e ==> cs@[j] != stop,
        decreases cs@.len() - e,
    {
        e = e + 1;
    }
    e
}

/// Where the rest of the line from `e` on ends: at a line break, a `}`
/// or the end of the input.
pub open spec fn line_rest_end(s: Seq<char>, e: int) -> int
    decreases s.len() - e,
{
    if 0 <= e < s.len() && s[e] != '\n' && s[e] != '}' {
        line_rest_end(s, e + 1)
    } else {
        e
    }
}

/// The end of the rest of a line, stopping before a line break or `}`.
fn lex_line_rest(cs: &Vec<char>, s: usize) -> (e: usize)
    requires
        s <= cs@.len(),
    ensures
        s <= e <= cs@.len(),
        e < cs@.len() ==> cs@[e as int] == '\n' || cs@[e as int] == '}',
        line_text(cs@.subrange(s as int, e as int)),
        e == line_rest_end(cs@, s as int),
{
    let mut e = s;
    while e < cs.len() && cs[e] != '\n' && cs[e] != '}'
        invariant
            s <= e <= cs@.len(),
            line_rest_end(cs@, s as int) == line_rest_end(cs@, e as int),
            forall|j: int| s <= j < e ==> cs@[j] != '\n' && cs@[j] != '}',
        decreases cs@.len() - e,
    {
        e = e + 1;
    }
    proof {
        let t = cs@.subrange(s as int, e as int);
        assert forall|i: int| 0 <= i < t.len() implies #[trigger] t[i] != '\n' && t[i] != '}' by {
            assert(t[i] == cs@[s + i]);
        }
    }
    e
}

/// Where the field of a packet read from `p` on ends: a bit range, `:`, a
/// name, and on the same line an optional bracketed attribute text closed
/// by `]`; nothing when none is read there.
pub open spec fn packet_field_end(s: Seq<char>, p: int) -> Option<int> {
    let a = ws_end(s, p);
    let c = ws_end(s, range_end(s, a));
    let ie = ident_end(s, ws_end(s, c + 1));
    let b = inline_end(s, ie);
    let close = until_end(s, b + 1, ']');
    if !packet_field_start(s, a) {
        None
    } else if mark(s, b, '[') && close < s.len() {
        Some(close + 1)
    } else {
        Some(ie)
    }
}

/// Where the statement of a packet read from `p` on ends: `constraint:`
/// and the rest of the line, or a field.
pub open spec fn packet_stmt_end(s: Seq<char>, p: int) -> Option<int> {
    let a = ws_end(s, p);
    if word_at(s, a, "constraint:"@) {
        Some(line_rest_end(s, a + 11))
    } else {
        packet_field_end(s, p)
    }
}

/// Where the statements of a packet read from `q` on end, after the
/// closing `}`.
pub open spec fn packet_close(s: Seq<char>, q: int) -> Option<int>
    decreases s.len() - q,
{
    match packet_stmt_end(s, q) {
        Some(e) => if q < e <= s.len() {
            packet_close(s, e)
        } else {
            None
        },
        None => if mark(s, ws_end(s, q), '}') {
            Some(ws_end(s, q) + 1)
        } else {
            None
        },
    }
}

/// Where the packet read from `p` on ends: `packet`, a name, an optional
/// bracketed text closed by `]`, `{`, statements, `}`; nothing when none is
/// read there.
pub open spec fn packet_end(s: Seq<char>, p: int) -> Option<int> {
    let a = ws_end(s, p);
    let i = ws_end(s, a + 6);
    let ie = ident_end(s, i);
    let b = ws_end(s, ie);
    let close = until_end(s, b + 1, ']');
    let o = if mark(s, b, '[') { ws_end(s, close + 1) } else { b };
    if keyword_at(s, a, "packet"@) && starts_ident(s, i) && !(mark(s, b, '[') && close >= s.len()) && mark(s, o, '{') {
        packet_close(s, o + 1)
    } else {
        None
    }
}

/// packet_field: a bit range (digits, optionally `..` or `-` and digits),
/// `:`, identifier, and optional `[` type attributes `]`.
#[verifier::rlimit(80)]
#[verifier::spinoff_prover]
fn parse_packet_field(cs: &Vec<char>, p: usize) -> (r: Option<(Pair, usize)>)
    requires
        p <= cs@.len() < usize::MAX,
    ensures
        parsed(cs@, p as int, r, Rule::PacketField),
        r matches Some(x) ==> x.0.children@.len() >= 2 && x.1 > p,
        r is Some <==> packet_field_start(cs@, ws_end(cs@, p as int)),
        match r {
            Some(x) => packet_field_end(cs@, p as int) == Some(x.1 as int),
            None => packet_field_end(cs@, p as int) is None,
        },
{
    let s = skip_ws(cs, p);
    let mut e = s;
    while e < cs.len() && is_digit(cs[e])
        invariant
            s <= e <= cs@.len(),
            digits_end(cs@, e as int) == digits_end(cs@, s as int),
            forall|j: int| s <= j < e ==> digit(#[trigger] cs@[j]),
        decreases cs@.len() - e,
    {
        e = e + 1;
    }
    if e == s {
        return None;
    }
    let k1 = e;
    assert(k1 == digits_end(cs@, s as int));
    let sep = if at(cs, e, '.') && at(cs, e + 1, '.') {
        e + 2
    } else if at(cs, e, '-') {
        e + 1
    } else {
        e
    };
    if sep > e {
        let mut f = sep;
        while f < cs.len() && is_digit(cs[f])
            invariant
                sep <= f <= cs@.len(),
                digits_end(cs@, f as int) == digits_end(cs@, sep as int),
                forall|j: int| sep <= j < f ==> digit(#[trigger] cs@[j]),
            decreases cs@.len() - f,
        {
            f = f + 1;
        }
        if f > sep {
            e = f;
        }
    }
    proof {
        let t = cs@.subrange(s as int, e as int);
        assert forall|i: int| 0 <= i < k1 - s implies digit(#[trigger] t[i]) by {
            assert(t[i] == cs@[s + i]);
        }
        if e > k1 {
            assert forall|i: int| sep - s <= i < t.len() implies digit(#[trigger] t[i]) by {
                assert(t[i] == cs@[s + i]);
            }
            assert(t[k1 - s] == cs@[k1 as int]);
            if sep == k1 + 2 {
                assert(t[k1 - s + 1] == cs@[k1 + 1]);
            }
        }
        assert(range_tail(t, k1 - s));
        assert(e == cs@.len() || !digit(cs@[e as int]));
    }
    assert(e == range_end(cs@, s as int));
    let mut kids: Vec<Pair> = Vec::new();
    push_kid(&mut kids, leaf(cs, Rule::BitRange, s, e), Ghost(cs@), Ghost(s as int), Ghost(s as int));
    let c = skip_ws(cs, e);
    if !at(cs, c, ':') {
        return None;
    }
    let (id, ie) = match parse_ident(cs, c + 1) {
        Some(x) => x,
        None => return None,
    };
    push_kid(&mut kids, id, Ghost(cs@), Ghost(s as int), Ghost(e as int));
    assert(e == range_end(cs@, s as int));
    let mut fe = ie;
    proof {
        assert(mark(cs@, c as int, ':'));
        assert(around(cs@, e as int, id.start as int, ':'));
    }
    let b = skip_inline(cs, ie);
    if at(cs, b, '[') {
        let close = lex_until(cs, b + 1, ']');
        if close < cs.len() {
            proof {
                let t = cs@.subrange(b + 1, close as int);
                assert forall|i: int| 0 <= i < t.len() implies #[trigger] t[i] != ']' by {
                    assert(t[i] == cs@[b + 1 + i]);
                }
            }
            push_kid(&mut kids, leaf(cs, Rule::PacketAttrs, b + 1, close), Ghost(cs@), Ghost(s as int), Ghost(ie as int));
            proof {
                lemma_within_grow(cs@, kids@, s as int, close as int, close + 1);
                assert(mark(cs@, b as int, '[') && mark(cs@, close as int, ']'));
            }
            fe = close + 1;
        }
    }
    Some((node(cs, Rule::PacketField, s, fe, kids), fe))
}

/// A packet statement: a field, or `constraint:` and the rest of the line.
fn parse_packet_stmt(cs: &Vec<char>, p: usize) -> (r: Option<(Pair, usize)>)
    requires
        p <= cs@.len() < usize::MAX,
    ensures
        r matches Some(x) ==> (x.0.rule == Rule::PacketField || x.0.rule == Rule::PacketConstraint),
        r matches Some(x) ==> p <= x.0.start && x.0.end == x.1 && spans_ok(cs@, x.0) && x.1 > p,
        r matches Some(x) ==> (x.0.rule == Rule::PacketField ==> x.0.children@.len() >= 2),
        r matches Some(x) ==> blank_at(cs@, p as int, x.0.start as int),
        r is Some <==> word_at(cs@, ws_end(cs@, p as int), "constraint:"@) || packet_field_start(cs@, ws_end(cs@, p as int)),
        r is Some ==> ws_end(cs@, p as int) < cs@.len() && (cs@[ws_end(cs@, p as int)] == 'c' || digit(
            cs@[ws_end(cs@, p as int)],
        )),
        match r {
            Some(x) => packet_stmt_end(cs@, p as int) == Some(x.1 as int),
            None => packet_stmt_end(cs@, p as int) is None,
        },
{
    proof {
        reveal_strlit("constraint:");
        let a = ws_end(cs@, p as int);
        if word_at(cs@, a, "constraint:"@) {
            assert(cs@.subrange(a, a + 11)[0] == cs@[a]);
        }
    }
    let s = skip_ws(cs, p);
    match at_word(cs, s, "constraint:") {
        Some(k) => {
            proof {
                reveal_strlit("constraint:");
            }
            let e = lex_line_rest(cs, k);
            proof {
                let t = cs@.subrange(s as int, e as int);
                assert(t.take(11) =~= cs@.subrange(s as int, k as int));
                assert(t.skip(11) =~= cs@.subrange(k as int, e as int));
            }
            return Some((leaf(cs, Rule::PacketConstraint, s, e), e));
        },
        None => {},
    }
    parse_packet_field(cs, p)
}

/// packet_decl: `packet`, identifier, optional `[` attributes `]`, `{`,
/// packet statements, `}`.
#[verifier::rlimit(40)]
#[verifier::spinoff_prover]
fn parse_packet(cs: &Vec<char>, p: usize) -> (r: Option<(Pair, usize)>)
    requires
        p <= cs@.len() < usize::MAX,
    ensures
        parsed(cs@, p as int, r, Rule::PacketDecl),
        r matches Some(x) ==> packet_has_parts(x.0) && x.1 > p,
        r matches Some(x) ==> children_at_least(packet_stmts_of(x.0).children@, Rule::PacketField, 2),
        r is Some ==> keyword_at(cs@, ws_end(cs@, p as int), "packet"@),
        empty_block_decl_at(cs@, ws_end(cs@, p as int), "packet"@) ==> r is Some,
        match r {
            Some(x) => packet_end(cs@, p as int) == Some(x.1 as int),
            None => packet_end(cs@, p as int) is None,
        },
{
    let s = skip_ws(cs, p);
    proof {
        reveal_strlit("packet");
        assert("packet"@.len() == 6);
    }
    let k = match at_keyword(cs, s, "packet") {
        Some(e) => e,
        None => return None,
    };
    let (id, ie) = match parse_ident(cs, k) {
        Some(x) => x,
        None => return None,
    };
    proof {
        if empty_block_decl_at(cs@, s as int, "packet"@) {
            let i2 = choose|i2: int| keyword_at(cs@, s as int, "packet"@) && #[trigger] ident_at(
                cs@,
                ws_end(cs@, s + "packet"@.len()),
                i2,
            ) && mark(cs@, ws_end(cs@, i2), '{') && mark(cs@, ws_end(cs@, ws_end(cs@, i2) + 1), '}');
            lemma_ident_unique(cs@, id.start as int, ie as int, i2);
        }
    }
    let mut kids: Vec<Pair> = Vec::new();
    push_kid(&mut kids, id, Ghost(cs@), Ghost(s as int), Ghost(s as int));
    let mut e = ie;
    let b = skip_ws(cs, ie);
    if at(cs, b, '[') {
        let close = lex_until(cs, b + 1, ']');
        if close >= cs.len() {
            return None;
        }
        proof {
            let t = cs@.subrange(b + 1, close as int);
            assert forall|i: int| 0 <= i < t.len() implies #[trigger] t[i] != ']' by {
                assert(t[i] == cs@[b + 1 + i]);
            }
        }
        push_kid(&mut kids, leaf(cs, Rule::PacketAttrs, b + 1, close), Ghost(cs@), Ghost(s as int), Ghost(ie as int));
        e = close + 1;
        proof {
            lemma_within_grow(cs@, kids@, s as int, close as int, e as int);
            assert(mark(cs@, b as int, '[') && mark(cs@, close as int, ']'));
        }
    }
    assert(kids@.len() == 1 ==> e == ie);
    assert(kids@.len() == 2 ==> e == kids@[1].end + 1 && mark(cs@, kids@[1].end as int, ']') && blank_at(
        cs@,
        ie as int,
        kids@[1].start - 1,
    ) && mark(cs@, kids@[1].start - 1, '['));
    let o = skip_ws(cs, e);
    if !at(cs, o, '{') {
        return None;
    }
    let mut stmts: Vec<Pair> = Vec::new();
    let mut q = o + 1;
    proof {
        lemma_blank_empty(cs@, q as int);
    }
    loop
        invariant
            o < q <= cs@.len() < usize::MAX,
            mark(cs@, ws_end(cs@, o + 1), '}') ==> stmts@.len() == 0 && q == o + 1,
            ordered_within(cs@, stmts@, (o + 1) as int, q as int),
            gaps_blank(cs@, stmts@, (o + 1) as int, q as int),
            children_at_least(stmts@, Rule::PacketField, 2),
            forall|i: int| 0 <= i < stmts@.len() ==> (#[trigger] stmts@[i]).rule == Rule::PacketField || stmts@[i].rule == Rule::PacketConstraint,
            packet_end(cs@, p as int) == packet_close(cs@, q as int),
        ensures
            packet_end(cs@, p as int) == packet_close(cs@, q as int),
            packet_stmt_end(cs@, q as int) is None,
        decreases cs@.len() - q,
    {
        match parse_packet_stmt(cs, q) {
            Some((st, se)) => {
                proof {
                    lemma_gaps_extend(cs@, stmts@, (o + 1) as int, q as int, st.start as int);
                }
                let ghost before = stmts@;
                push_kid(&mut stmts, st, Ghost(cs@), Ghost((o + 1) as int), Ghost(q as int));
                proof {
                    assert(stmts@.subrange(0, stmts@.len() - 1) =~= before);
                    lemma_blank_empty(cs@, se as int);
                }
                q = se;
            },
            None => break,
        }
    }
    let c = skip_ws(cs, q);
    if !at(cs, c, '}') {
        return None;
    }
    proof {
        lemma_within_grow(cs@, stmts@, (o + 1) as int, q as int, c as int);
        lemma_gaps_extend(cs@, stmts@, (o + 1) as int, q as int, c as int);
    }
    let body = node(cs, Rule::PacketStmts, o + 1, c, stmts);
    proof {
        lemma_within_grow(cs@, kids@, s as int, e as int, o as int);
    }
    push_kid(&mut kids, body, Ghost(cs@), Ghost(s as int), Ghost(o as int));
    proof {
        lemma_within_grow(cs@, kids@, s as int, c as int, c + 1);
        assert(keyword_then(cs@, s as int, kids@[0].start as int, "packet"@));
        assert(mark(cs@, o as int, '{') && mark(cs@, c as int, '}'));
    }
    Some((node(cs, Rule::PacketDecl, s, c + 1, kids), c + 1))
}

/// state_ref: `[*]` or an identifier.
fn parse_state_ref(cs: &Vec<char>, p: usize) -> (r: Option<(Pair, usize)>)
    requires
        p <= cs@.len() < usize::MAX,
    ensures
        parsed(cs@, p as int, r, Rule::StateRef),
        r matches Some(x) ==> x.1 > p,
        r is Some <==> state_ref_start(cs@, ws_end(cs@, p as int)),
        r matches Some(x) ==> state_ref_at(cs@, ws_end(cs@, p as int), x.1 as int),
        r matches Some(x) ==> x.0.start == ws_end(cs@, p as int),
{
    let s = skip_ws(cs, p);
    if at(cs, s, '[') && at(cs, s + 1, '*') && at(cs, s + 2, ']') {
        proof {
            reveal_strlit("[*]");
            assert(cs@.subrange(s as int, s + 3) =~= "[*]"@);
        }
        return Some((leaf(cs, Rule::StateRef, s, s + 3), s + 3));
    }
    match lex_ident(cs, s) {
        Some(e) => Some((leaf(cs, Rule::StateRef, s, e), e)),
        None => None,
    }
}

/// Where the state reference that starts at `a` ends.
pub open spec fn state_ref_end(s: Seq<char>, a: int) -> int {
    choose|e: int| state_ref_at(s, a, e)
}

/// Where the transition read from `p` on ends: a state reference, `->`, a
/// state reference, and on the same line `:` with the rest of the line;
/// nothing when none is read there.
pub open spec fn transition_end(s: Seq<char>, p: int) -> Option<int> {
    let a0 = ws_end(s, p);
    let a = ws_end(s, state_ref_end(s, a0));
    let t = ws_end(s, a + 2);
    let te = state_ref_end(s, t);
    let c = inline_end(s, te);
    if !(state_ref_start(s, a0) && mark(s, a, '-') && mark(s, a + 1, '>') && state_ref_start(s, t)) {
        None
    } else if mark(s, c, ':') {
        Some(line_rest_end(s, c))
    } else {
        Some(te)
    }
}

/// Where the transitions of a state machine read from `q` on end, after
/// the closing `}`.
pub open spec fn state_close(s: Seq<char>, q: int) -> Option<int>
    decreases s.len() - q,
{
    match transition_end(s, q) {
        Some(e) => if q < e <= s.len() {
            state_close(s, e)
        } else {
            None
        },
        None => if mark(s, ws_end(s, q), '}') {
            Some(ws_end(s, q) + 1)
        } else {
            None
        },
    }
}

/// Where the state machine read from `p` on ends: `state`, a name, `{`,
/// transitions, `}`; nothing when none is read there.
pub open spec fn state_end(s: Seq<char>, p: int) -> Option<int> {
    let a = ws_end(s, p);
    let i = ws_end(s, a + 5);
    let o = ws_end(s, ident_end(s, i));
    if keyword_at(s, a, "state"@) && starts_ident(s, i) && mark(s, o, '{') {
        state_close(s, o + 1)
    } else {
        None
    }
}

/// state_transition: state reference, `->`, state reference, and an
/// optional trigger (`:` and the rest of the line).
fn parse_transition(cs: &Vec<char>, p: usize) -> (r: Option<(Pair, usize)>)
    requires
        p <= cs@.len() < usize::MAX,
    ensures
        parsed(cs@, p as int, r, Rule::StateTransition),
        r matches Some(x) ==> x.0.children@.len() >= 2 && x.1 > p,
        r is Some <==> transition_start(cs@, ws_end(cs@, p as int)),
        match r {
            Some(x) => transition_end(cs@, p as int) == Some(x.1 as int),
            None => transition_end(cs@, p as int) is None,
        },
{
    let ghost a0 = ws_end(cs@, p as int);
    proof {
        if transition_start(cs@, a0) {
            let f2 = choose|f2: int| #[trigger] state_ref_at(cs@, a0, f2) && ws_end(cs@, f2) + 1 < cs@.len() && cs@[ws_end(cs@, f2)]
                == '-' && cs@[ws_end(cs@, f2) + 1] == '>' && state_ref_start(cs@, ws_end(cs@, ws_end(cs@, f2) + 2));
            if a0 + 2 < cs@.len() && cs@[a0] == '[' && cs@[a0 + 1] == '*' && cs@[a0 + 2] == ']' {
            } else {
                assert(starts_ident(cs@, a0));
            }
        }
    }
    let (from, fe) = match parse_state_ref(cs, p) {
        Some(x) => x,
        None => return None,
    };
    let s = from.start;
    proof {
        if transition_start(cs@, a0) {
            let f2 = choose|f2: int| #[trigger] state_ref_at(cs@, a0, f2) && ws_end(cs@, f2) + 1 < cs@.len() && cs@[ws_end(cs@, f2)]
                == '-' && cs@[ws_end(cs@, f2) + 1] == '>' && state_ref_start(cs@, ws_end(cs@, ws_end(cs@, f2) + 2));
            lemma_state_ref_unique(cs@, a0, fe as int, f2);
        }
    }
    proof {
        assert(state_ref_at(cs@, ws_end(cs@, p as int), state_ref_end(cs@, ws_end(cs@, p as int))));
        lemma_state_ref_unique(cs@, ws_end(cs@, p as int), fe as int, state_ref_end(cs@, ws_end(cs@, p as int)));
    }
    let a = skip_ws(cs, fe);
    if !(at(cs, a, '-') && at(cs, a + 1, '>')) {
        return None;
    }
    let (to, te) = match parse_state_ref(cs, a + 2) {
        Some(x) => x,
        None => return None,
    };
    proof {
        let t = ws_end(cs@, a + 2);
        assert(state_ref_at(cs@, t, state_ref_end(cs@, t)));
        lemma_state_ref_unique(cs@, t, te as int, state_ref_end(cs@, t));
    }
    proof {
        assert(state_ref_at(cs@, a0, fe as int));
    }
    let mut kids: Vec<Pair> = Vec::new();
    push_kid(&mut kids, from, Ghost(cs@), Ghost(s as int), Ghost(s as int));
    push_kid(&mut kids, to, Ghost(cs@), Ghost(s as int), Ghost(fe as int));
    let mut e = te;
    proof {
        reveal_strlit("->");
        assert(cs@.subrange(a as int, a + 2) =~= "->"@);
        assert(word_at(cs@, a as int, "->"@));
        assert(blank_word(cs@, fe as int, to.start as int, "->"@));
    }
    let c = skip_inline(cs, te);
    if at(cs, c, ':') {
        let g = lex_line_rest(cs, c);
        proof {
            assert(cs@.subrange(c as int, g as int)[0] == cs@[c as int]);
        }
        push_kid(&mut kids, leaf(cs, Rule::Trigger, c, g), Ghost(cs@), Ghost(s as int), Ghost(te as int));
        e = g;
    }
    Some((node(cs, Rule::StateTransition, s, e, kids), e))
}

/// state_decl: `state`, identifier, `{`, transitions, `}`.
#[verifier::rlimit(40)]
#[verifier::spinoff_prover]
fn parse_state(cs: &Vec<char>, p: usize) -> (r: Option<(Pair, usize)>)
    requires
        p <= cs@.len() < usize::MAX,
    ensures
        parsed(cs@, p as int, r, Rule::StateDecl),
        r matches Some(x) ==> x.0.children@.len() >= 2 && x.1 > p,
        r matches Some(x) ==> children_at_least(x.0.children@[1].children@, Rule::StateTransition, 2),
        r is Some ==> keyword_at(cs@, ws_end(cs@, p as int), "state"@),
        empty_block_decl_at(cs@, ws_end(cs@, p as int), "state"@) ==> r is Some,
        match r {
            Some(x) => state_end(cs@, p as int) == Some(x.1 as int),
            None => state_end(cs@, p as int) is None,
        },
{
    let s = skip_ws(cs, p);
    proof {
        reveal_strlit("state");
        assert("state"@.len() == 5);
    }
    let k = match at_keyword(cs, s, "state") {
        Some(e) => e,
        None => return None,
    };
    let (id, ie) = match parse_ident(cs, k) {
        Some(x) => x,
        None => return None,
    };
    proof {
        if empty_block_decl_at(cs@, s as int, "state"@) {
            let i2 = choose|i2: int| keyword_at(cs@, s as int, "state"@) && #[trigger] ident_at(
                cs@,
                ws_end(cs@, s + "state"@.len()),
                i2,
            ) && mark(cs@, ws_end(cs@, i2), '{') && mark(cs@, ws_end(cs@, ws_end(cs@, i2) + 1), '}');
            lemma_ident_unique(cs@, id.start as int, ie as int, i2);
        }
    }
    let o = skip_ws(cs, ie);
    if !at(cs, o, '{') {
        return None;
    }
    let mut stmts: Vec<Pair> = Vec::new();
    let mut q = o + 1;
    proof {
        lemma_blank_empty(cs@, q as int);
    }
    loop
        invariant
            o < q <= cs@.len() < usize::MAX,
            mark(cs@, ws_end(cs@, o + 1), '}') ==> stmts@.len() == 0 && q == o + 1,
            ordered_within(cs@, stmts@, (o + 1) as int, q as int),
            gaps_blank(cs@, stmts@, (o + 1) as int, q as int),
            children_at_least(stmts@, Rule::StateTransition, 2),
            rules_are(stmts@, 0, stmts@.len() as int, Rule::StateTransition),
            state_end(cs@, p as int) == state_close(cs@, q as int),
        ensures
            state_end(cs@, p as int) == state_close(cs@, q as int),
            transition_end(cs@, q as int) is None,
        decreases cs@.len() - q,
    {
        match parse_transition(cs, q) {
            Some((st, se)) => {
                proof {
                    lemma_gaps_extend(cs@, stmts@, (o + 1) as int, q as int, st.start as int);
                }
                let ghost before = stmts@;
                push_kid(&mut stmts, st, Ghost(cs@), Ghost((o + 1) as int), Ghost(q as int));
                proof {
                    assert(stmts@.subrange(0, stmts@.len() - 1) =~= before);
                    lemma_blank_empty(cs@, se as int);
                }
                q = se;
            },
            None => break,
        }
    }
    let c = skip_ws(cs, q);
    if !at(cs, c, '}') {
        return None;
    }
    proof {
        lemma_within_grow(cs@, stmts@, (o + 1) as int, q as int, c as int);
        lemma_gaps_extend(cs@, stmts@, (o + 1) as int, q as int, c as int);
    }
    let body = node(cs, Rule::StateStmts, o + 1, c, stmts);
    let mut kids: Vec<Pair> = Vec::new();
    push_kid(&mut kids, id, Ghost(cs@), Ghost(s as int), Ghost(s as int));
    push_kid(&mut kids, body, Ghost(cs@), Ghost(s as int), Ghost(ie as int));
    proof {
        lemma_within_grow(cs@, kids@, s as int, c as int, c + 1);
        assert(keyword_then(cs@, s as int, kids@[0].start as int, "state"@));
        assert(mark(cs@, o as int, '{') && mark(cs@, c as int, '}'));
    }
    Some((node(cs, Rule::StateDecl, s, c + 1, kids), c + 1))
}

/// Where the property of an XY chart read from `p` on ends: an
/// identifier, `:`, and on the same line a quoted or an unquoted value;
/// nothing when none is read there.
pub open spec fn xy_prop_end(s: Seq<char>, p: int) -> Option<int> {
    let a = ws_end(s, p);
    let c = ws_end(s, ident_end(s, a));
    let v = inline_end(s, c + 1);
    if !(starts_ident(s, a) && mark(s, c, ':')) {
        None
    } else if mark(s, v, '"') {
        if string_start(s, v) {
            Some(string_end(s, v))
        } else {
            None
        }
    } else if 0 <= v < s.len() && value_char(s[v]) {
        Some(raw_end(s, v + 1))
    } else {
        None
    }
}

/// Where the properties of an XY chart read from `q` on end, after the
/// closing `}`.
pub open spec fn xy_close(s: Seq<char>, q: int) -> Option<int>
    decreases s.len() - q,
{
    match xy_prop_end(s, q) {
        Some(e) => if q < e <= s.len() {
            xy_close(s, e)
        } else {
            None
        },
        None => if mark(s, ws_end(s, q), '}') {
            Some(ws_end(s, q) + 1)
        } else {
            None
        },
    }
}

/// Where the XY chart read from `p` on ends: `xy`, a name, `{`,
/// properties, `}`; nothing when none is read there.
pub open spec fn xy_end(s: Seq<char>, p: int) -> Option<int> {
    let a = ws_end(s, p);
    let i = ws_end(s, a + 2);
    let o = ws_end(s, ident_end(s, i));
    if keyword_at(s, a, "xy"@) && starts_ident(s, i) && mark(s, o, '{') {
        xy_close(s, o + 1)
    } else {
        None
    }
}

/// xy_prop: identifier, `:`, and a string literal or an unquoted value on
/// the same line.
fn parse_xy_prop(cs: &Vec<char>, p: usize) -> (r: Option<(Pair, usize)>)
    requires
        p <= cs@.len() < usize::MAX,
    ensures
        parsed(cs@, p as int, r, Rule::XyProp),
        r matches Some(x) ==> x.0.children@.len() >= 2 && x.1 > p,
        r is Some <==> xy_prop_start(cs@, ws_end(cs@, p as int)),
        match r {
            Some(x) => xy_prop_end(cs@, p as int) == Some(x.1 as int),
            None => xy_prop_end(cs@, p as int) is None,
        },
{
    let ghost a = ws_end(cs@, p as int);
    let (id, ie) = match parse_ident(cs, p) {
        Some(x) => x,
        None => return None,
    };
    let s = id.start;
    proof {
        if xy_prop_start(cs@, a) {
            let i2 = choose|i2: int| #[trigger] ident_at(cs@, a, i2) && mark(cs@, ws_end(cs@, i2), ':') && {
                let v = inline_end(cs@, ws_end(cs@, i2) + 1);
                string_start(cs@, v) || (0 <= v < cs@.len() && value_char(cs@[v]))
            };
            lemma_ident_unique(cs@, a, ie as int, i2);
        }
    }
    let c = skip_ws(cs, ie);
    if !at(cs, c, ':') {
        return None;
    }
    let v = skip_inline(cs, c + 1);
    let mut kids: Vec<Pair> = Vec::new();
    push_kid(&mut kids, id, Ghost(cs@), Ghost(s as int), Ghost(s as int));
    proof {
        assert(mark(cs@, c as int, ':'));
    }
    proof {
        assert(ident_at(cs@, a, ie as int));
    }
    if at(cs, v, '"') {
        assert(ws_end(cs@, v as int) == v);
        let (lit, le) = match parse_string(cs, v) {
            Some(x) => x,
            None => return None,
        };
        proof {
            lemma_starts_at(cs@, v as int, lit.start as int, '"');
        }
        push_kid(&mut kids, lit, Ghost(cs@), Ghost(s as int), Ghost(ie as int));
        return Some((node(cs, Rule::XyProp, s, le, kids), le));
    }
    match lex_raw_value(cs, v) {
        Some(e) => {
            push_kid(&mut kids, leaf(cs, Rule::RawValue, v, e), Ghost(cs@), Ghost(s as int), Ghost(ie as int));
            Some((node(cs, Rule::XyProp, s, e, kids), e))
        },
        None => None,
    }
}

/// xy_decl: `xy`, identifier, `{`, properties, `}`.
#[verifier::rlimit(40)]
#[verifier::spinoff_prover]
fn parse_xy(cs: &Vec<char>, p: usize) -> (r: Option<(Pair, usize)>)
    requires
        p <= cs@.len() < usize::MAX,
    ensures
        parsed(cs@, p as int, r, Rule::XyDecl),
        r matches Some(x) ==> x.0.children@.len() >= 2 && x.1 > p,
        r matches Some(x) ==> children_at_least(x.0.children@[1].children@, Rule::XyProp, 2),
        r is Some ==> keyword_at(cs@, ws_end(cs@, p as int), "xy"@),
        empty_block_decl_at(cs@, ws_end(cs@, p as int), "xy"@) ==> r is Some,
        match r {
            Some(x) => xy_end(cs@, p as int) == Some(x.1 as int),
            None => xy_end(cs@, p as int) is None,
        },
{
    let s = skip_ws(cs, p);
    proof {
        reveal_strlit("xy");
        assert("xy"@.len() == 2);
    }
    let k = match at_keyword(cs, s, "xy") {
        Some(e) => e,
        None => return None,
    };
    let (id, ie) = match parse_ident(cs, k) {
        Some(x) => x,
        None => return None,
    };
    proof {
        if empty_block_decl_at(cs@, s as int, "xy"@) {
            let i2 = choose|i2: int| keyword_at(cs@, s as int, "xy"@) && #[trigger] ident_at(
                cs@,
                ws_end(cs@, s + "xy"@.len()),
                i2,
            ) && mark(cs@, ws_end(cs@, i2), '{') && mark(cs@, ws_end(cs@, ws_end(cs@, i2) + 1), '}');
            lemma_ident_unique(cs@, id.start as int, ie as int, i2);
        }
    }
    let o = skip_ws(cs, ie);
    if !at(cs, o, '{') {
        return None;
    }
    let mut stmts: Vec<Pair> = Vec::new();
    let mut q = o + 1;
    proof {
        lemma_blank_empty(cs@, q as int);
    }
    loop
        invariant
            o < q <= cs@.len() < usize::MAX,
            mark(cs@, ws_end(cs@, o + 1), '}') ==> stmts@.len() == 0 && q == o + 1,
            ordered_within(cs@, stmts@, (o + 1) as int, q as int),
            gaps_blank(cs@, stmts@, (o + 1) as int, q as int),
            children_at_least(stmts@, Rule::XyProp, 2),
            rules_are(stmts@, 0, stmts@.len() as int, Rule::XyProp),
            xy_end(cs@, p as int) == xy_close(cs@, q as int),
        ensures
            xy_end(cs@, p as int) == xy_close(cs@, q as int),
            xy_prop_end(cs@, q as int) is None,
        decreases cs@.len() - q,
    {
        match parse_xy_prop(cs, q) {
            Some((st, se)) => {
                proof {
                    lemma_gaps_extend(cs@, stmts@, (o + 1) as int, q as int, st.start as int);
                }
                let ghost before = stmts@;
                push_kid(&mut stmts, st, Ghost(cs@), Ghost((o + 1) as int), Ghost(q as int));
                proof {
                    assert(stmts@.subrange(0, stmts@.len() - 1) =~= before);
                    lemma_blank_empty(cs@, se as int);
                }
                q = se;
            },
            None => break,
        }
    }
    let c = skip_ws(cs, q);
    if !at(cs, c, '}') {
        return None;
    }
    proof {
        lemma_within_grow(cs@, stmts@, (o + 1) as int, q as int, c as int);
        lemma_gaps_extend(cs@, stmts@, (o + 1) as int, q as int, c as int);
    }
    let body = node(cs, Rule::XyStmts, o + 1, c, stmts);
    let mut kids: Vec<Pair> = Vec::new();
    push_kid(&mut kids, id, Ghost(cs@), Ghost(s as int), Ghost(s as int));
    push_kid(&mut kids, body, Ghost(cs@), Ghost(s as int), Ghost(ie as int));
    proof {
        lemma_within_grow(cs@, kids@, s as int, c as int, c + 1);
        assert(keyword_then(cs@, s as int, kids@[0].start as int, "xy"@));
        assert(mark(cs@, o as int, '{') && mark(cs@, c as int, '}'));
    }
    Some((node(cs, Rule::XyDecl, s, c + 1, kids), c + 1))
}

/// Where the column of a SQL table read from `p` on ends: an optional
/// `PK` or `FK` before a name, the name, `:`, a type (identifier
/// characters, with a bracketed size when `(` follows and a `)` closes it),
/// and on the same line an optional `->` with the table referred to;
/// nothing when none is read there.
pub open spec fn sql_field_end(s: Seq<char>, p: int) -> Option<int> {
    let s0 = ws_end(s, p);
    let marked = (keyword_at(s, s0, "PK"@) || keyword_at(s, s0, "FK"@)) && starts_ident(s, ws_end(s, s0 + 2));
    let n = if marked { ws_end(s, s0 + 2) } else { s0 };
    let c = ws_end(s, ident_end(s, n));
    let t = ws_end(s, c + 1);
    let k1 = ident_chars_end(s, t);
    let close = until_end(s, k1 + 1, ')');
    let te = if mark(s, k1, '(') && close < s.len() { close + 1 } else { k1 };
    let a = inline_end(s, te);
    let r0 = inline_end(s, a + 2);
    if !(starts_ident(s, n) && mark(s, c, ':') && k1 > t) {
        None
    } else if mark(s, a, '-') && mark(s, a + 1, '>') && starts_ident(s, r0) {
        Some(ident_end(s, r0))
    } else {
        Some(te)
    }
}

/// Where the columns of a SQL table read from `q` on end, after the
/// closing `}`.
pub open spec fn sql_close(s: Seq<char>, q: int) -> Option<int>
    decreases s.len() - q,
{
    match sql_field_end(s, q) {
        Some(e) => if q < e <= s.len() {
            sql_close(s, e)
        } else {
            None
        },
        None => if mark(s, ws_end(s, q), '}') {
            Some(ws_end(s, q) + 1)
        } else {
            None
        },
    }
}

/// Where the SQL table read from `p` on ends: `sqltable`, a name, `{`,
/// columns, `}`; nothing when none is read there.
pub open spec fn sqltable_end(s: Seq<char>, p: int) -> Option<int> {
    let a = ws_end(s, p);
    let i = ws_end(s, a + 8);
    let o = ws_end(s, ident_end(s, i));
    if keyword_at(s, a, "sqltable"@) && starts_ident(s, i) && mark(s, o, '{') {
        sql_close(s, o + 1)
    } else {
        None
    }
}

/// sqltable_field: optional `PK` or `FK`, identifier, `:`, the type (a
/// word, optionally with a size in parentheses), and optionally `->` and
/// the referenced table.
#[verifier::rlimit(100)]
#[verifier::spinoff_prover]
fn parse_sql_field(cs: &Vec<char>, p: usize) -> (r: Option<(Pair, usize)>)
    requires
        p <= cs@.len() < usize::MAX,
    ensures
        parsed(cs@, p as int, r, Rule::SqltableField),
        r matches Some(x) ==> x.0.children@.len() >= 2 && x.1 > p,
        r matches Some(x) ==> x.0.children@.len() >= (if x.0.children@[0].rule == Rule::PkFk { 3int } else { 2int }),
        r is Some ==> ws_end(cs@, p as int) < cs@.len() && ident_start(cs@[ws_end(cs@, p as int)]),
        plain_sql_field_at(cs@, ws_end(cs@, p as int)) ==> r is Some,
        match r {
            Some(x) => sql_field_end(cs@, p as int) == Some(x.1 as int),
            None => sql_field_end(cs@, p as int) is None,
        },
{
    let ghost a = ws_end(cs@, p as int);
    proof {
        reveal_strlit("PK");
        reveal_strlit("FK");
        if keyword_at(cs@, a, "PK"@) || keyword_at(cs@, a, "FK"@) {
            assert(cs@.subrange(a, a + 2)[0] == cs@[a]);
            assert(cs@.subrange(a, a + 2)[1] == cs@[a + 1]);
        }
        if plain_sql_field_at(cs@, a) {
            let n2 = choose|n2: int| #[trigger] ident_at(cs@, a, n2) && cs@.subrange(a, n2) != "PK"@ && cs@.subrange(a, n2) != "FK"@
                && mark(cs@, ws_end(cs@, n2), ':') && {
                let t = ws_end(cs@, ws_end(cs@, n2) + 1);
                0 <= t < cs@.len() && ident_char(cs@[t])
            };
            if keyword_at(cs@, a, "PK"@) || keyword_at(cs@, a, "FK"@) {
                let f = |c: char| ident_char(c);
                assert forall|j: int| a <= j < a + 2 implies f(#[trigger] cs@[j]) by {}
                assert forall|j: int| a <= j < n2 implies f(#[trigger] cs@[j]) by {
                    assert(cs@.subrange(a, n2)[j - a] == cs@[j]);
                }
                lemma_run_unique(cs@, a, a + 2, n2, f);
            }
        }
    }
    let s = skip_ws(cs, p);
    let mut kids: Vec<Pair> = Vec::new();
    let mut n = s;
    let mut last = s;
    let marker = match at_keyword(cs, s, "PK") {
        Some(e) => Some(e),
        None => at_keyword(cs, s, "FK"),
    };
    match marker {
        Some(me) => {
            let t = skip_ws(cs, me);
            match lex_ident(cs, t) {
                Some(_) => {
                    proof {
                        assert(cs@.subrange(s as int, me as int) == "PK"@ || cs@.subrange(s as int, me as int) == "FK"@);
                    }
                    push_kid(&mut kids, leaf(cs, Rule::PkFk, s, me), Ghost(cs@), Ghost(s as int), Ghost(s as int));
                    n = t;
                    last = me;
                },
                None => {},
            }
        },
        None => {},
    }
    let had_marker = kids.len() == 1;
    proof {
        reveal_strlit("PK");
        reveal_strlit("FK");
        let s0 = ws_end(cs@, p as int);
        assert("PK"@.len() == 2 && "FK"@.len() == 2);
        let marked = (keyword_at(cs@, s0, "PK"@) || keyword_at(cs@, s0, "FK"@)) && starts_ident(cs@, ws_end(cs@, s0 + 2));
        assert(n == if marked { ws_end(cs@, s0 + 2) } else { s0 });
    }
    let ne = match lex_ident(cs, n) {
        Some(e) => e,
        None => return None,
    };
    proof {
        if plain_sql_field_at(cs@, a) {
            let n2 = choose|n2: int| #[trigger] ident_at(cs@, a, n2) && cs@.subrange(a, n2) != "PK"@ && cs@.subrange(a, n2) != "FK"@
                && mark(cs@, ws_end(cs@, n2), ':') && {
                let t = ws_end(cs@, ws_end(cs@, n2) + 1);
                0 <= t < cs@.len() && ident_char(cs@[t])
            };
            lemma_ident_unique(cs@, a, ne as int, n2);
        }
        if kids@.len() == 0 {
            lemma_ident_first(cs@, a);
        }
    }
    proof {
        lemma_within_grow(cs@, kids@, s as int, last as int, n as int);
    }
    push_kid(&mut kids, leaf(cs, Rule::Identifier, n, ne), Ghost(cs@), Ghost(s as int), Ghost(n as int));
    proof {
        lemma_ident_end(cs@, n as int, ne as int);
    }
    let c = skip_ws(cs, ne);
    if !at(cs, c, ':') {
        return None;
    }
    let t = skip_ws(cs, c + 1);
    let mut te = t;
    while te < cs.len() && is_ident_char(cs[te])
        invariant
            t <= te <= cs@.len(),
            ident_chars_end(cs@, t as int) == ident_chars_end(cs@, te as int),
            forall|j: int| t <= j < te ==> ident_char(#[trigger] cs@[j]),
        decreases cs@.len() - te,
    {
        te = te + 1;
    }
    if te == t {
        return None;
    }
    let k1 = te;
    if at(cs, te, '(') {
        let close = lex_until(cs, te + 1, ')');
        if close < cs.len() {
            te = close + 1;
        }
    }
    proof {
        let w = cs@.subrange(t as int, te as int);
        assert forall|i: int| 0 <= i < k1 - t implies ident_char(#[trigger] w[i]) by {
            assert(w[i] == cs@[t + i]);
        }
        if te > k1 {
            assert(w[k1 - t] == cs@[k1 as int]);
            assert(w[w.len() - 1] == cs@[te - 1]);
            assert forall|i: int| k1 - t < i < w.len() - 1 implies #[trigger] w[i] != ')' by {
                assert(w[i] == cs@[t + i]);
            }
        }
        assert(type_size_at(w, k1 - t));
    }
    push_kid(&mut kids, leaf(cs, Rule::SqlType, t, te), Ghost(cs@), Ghost(s as int), Ghost(ne as int));
    proof {
        assert(mark(cs@, c as int, ':'));
        assert(around(cs@, ne as int, t as int, ':'));
    }
    let mut e = te;
    let a = skip_inline(cs, te);
    if at(cs, a, '-') && at(cs, a + 1, '>') {
        let r0 = skip_inline(cs, a + 2);
        match lex_ident(cs, r0) {
            Some(re) => {
                proof {
                    reveal_strlit("->");
                    assert(cs@.subrange(a as int, a + 2) =~= "->"@);
                    assert(word_at(cs@, a as int, "->"@));
                    assert(inline_word(cs@, te as int, r0 as int, "->"@));
                }
                push_kid(&mut kids, leaf(cs, Rule::Identifier, r0, re), Ghost(cs@), Ghost(s as int), Ghost(te as int));
                proof {
                    lemma_ident_end(cs@, r0 as int, re as int);
                }
                e = re;
            },
            None => {},
        }
    }
    proof {
        assert(had_marker ==> kids@[0].rule == Rule::PkFk);
        assert(!had_marker ==> kids@[0].rule == Rule::Identifier);
        assert(had_marker ==> blank_at(cs@, kids@[0].end as int, kids@[1].start as int));
    }
    Some((node(cs, Rule::SqltableField, s, e, kids), e))
}

/// sqltable_decl: `sqltable`, identifier, `{`, fields, `}`.
#[verifier::rlimit(40)]
#[verifier::spinoff_prover]
fn parse_sqltable(cs: &Vec<char>, p: usize) -> (r: Option<(Pair, usize)>)
    requires
        p <= cs@.len() < usize::MAX,
    ensures
        parsed(cs@, p as int, r, Rule::SqltableDecl),
        r matches Some(x) ==> x.0.children@.len() >= 1 && fields_have_parts(x.0.children@) && x.1 > p,
        r is Some ==> keyword_at(cs@, ws_end(cs@, p as int), "sqltable"@),
        empty_block_decl_at(cs@, ws_end(cs@, p as int), "sqltable"@) ==> r is Some,
        match r {
            Some(x) => sqltable_end(cs@, p as int) == Some(x.1 as int),
            None => sqltable_end(cs@, p as int) is None,
        },
{
    let s = skip_ws(cs, p);
    proof {
        reveal_strlit("sqltable");
        assert("sqltable"@.len() == 8);
    }
    let k = match at_keyword(cs, s, "sqltable") {
        Some(e) => e,
        None => return None,
    };
    let (id, ie) = match parse_ident(cs, k) {
        Some(x) => x,
        None => return None,
    };
    proof {
        if empty_block_decl_at(cs@, s as int, "sqltable"@) {
            let i2 = choose|i2: int| keyword_at(cs@, s as int, "sqltable"@) && #[trigger] ident_at(
                cs@,
                ws_end(cs@, s + "sqltable"@.len()),
                i2,
            ) && mark(cs@, ws_end(cs@, i2), '{') && mark(cs@, ws_end(cs@, ws_end(cs@, i2) + 1), '}');
            lemma_ident_unique(cs@, id.start as int, ie as int, i2);
        }
    }
    let o = skip_ws(cs, ie);
    if !at(cs, o, '{') {
        return None;
    }
    let mut kids: Vec<Pair> = Vec::new();
    push_kid(&mut kids, id, Ghost(cs@), Ghost(s as int), Ghost(s as int));
    let mut q = o + 1;
    proof {
        lemma_within_grow(cs@, kids@, s as int, ie as int, q as int);
    }
    loop
        invariant
            mark(cs@, ws_end(cs@, o + 1), '}') ==> kids@.len() == 1 && q == o + 1,
            p <= s,
            o < q <= cs@.len() < usize::MAX,
            kids@.len() >= 1,
            kids@[0] == id,
            ordered_within(cs@, kids@, s as int, q as int),
            fields_have_parts(kids@),
            rules_are(kids@, 1, kids@.len() as int, Rule::SqltableField),
            sqltable_end(cs@, p as int) == sql_close(cs@, q as int),
            kids@.len() == 1 ==> q == o + 1,
            kids@.len() > 1 ==> q == kids@.last().end && blank_at(cs@, o + 1, kids@[1].start as int),
            blank_gaps(cs@, kids@, 2),
        ensures
            sqltable_end(cs@, p as int) == sql_close(cs@, q as int),
            sql_field_end(cs@, q as int) is None,
        decreases cs@.len() - q,
    {
        match parse_sql_field(cs, q) {
            Some((f, fe)) => {
                let ghost before = kids@;
                proof {
                    lemma_blank_gaps_push(cs@, before, f, 2);
                }
                push_kid(&mut kids, f, Ghost(cs@), Ghost(s as int), Ghost(q as int));
                proof {
                    assert(kids@[1] == if before.len() == 1 { f } else { before[1] });
                }
                q = fe;
            },
            None => break,
        }
    }
    let c = skip_ws(cs, q);
    if !at(cs, c, '}') {
        return None;
    }
    proof {
        lemma_within_grow(cs@, kids@, s as int, q as int, c + 1);
        assert(keyword_then(cs@, s as int, kids@[0].start as int, "sqltable"@));
        assert(mark(cs@, o as int, '{') && mark(cs@, c as int, '}'));
        if kids@.len() == 1 {
            lemma_blank_join(cs@, o + 1, q as int, c as int);
            assert(around(cs@, ie as int, c as int, '{'));
        } else {
            assert(around(cs@, ie as int, kids@[1].start as int, '{'));
        }
    }
    Some((node(cs, Rule::SqltableDecl, s, c + 1, kids), c + 1))
}

/// variable_decl: `let`, identifier, `=`, math_expression.
fn parse_variable(cs: &Vec<char>, p: usize) -> (r: Option<(Pair, usize)>)
    requires
        p <= cs@.len() < usize::MAX,
    ensures
        parsed(cs@, p as int, r, Rule::VariableDecl),
        r is Some <==> variable_start(cs@, ws_end(cs@, p as int)),
        r matches Some(x) ==> x.0.children@.len() == 2 && expr_shaped(x.0.children@[1]) && x.1 > p,
        r matches Some(x) ==> variable_maximal(cs@, x.0),
{
    let s = skip_ws(cs, p);
    let k = match at_keyword(cs, s, "let") {
        Some(e) => e,
        None => return None,
    };
    let (id, ie) = match parse_ident(cs, k) {
        Some(x) => x,
        None => {
            proof {
                if variable_start(cs@, s as int) {
                    let i2 = choose|i2: int| keyword_at(cs@, s as int, "let"@) && #[trigger] ident_at(
                        cs@,
                        ws_end(cs@, s + "let"@.len()),
                        i2,
                    ) && mark(cs@, ws_end(cs@, i2), '=') && term_start(cs@, ws_end(cs@, ws_end(cs@, i2) + 1));
                }
            }
            return None;
        },
    };
    proof {
        if variable_start(cs@, s as int) {
            let i2 = choose|i2: int| keyword_at(cs@, s as int, "let"@) && #[trigger] ident_at(
                cs@,
                ws_end(cs@, s + "let"@.len()),
                i2,
            ) && mark(cs@, ws_end(cs@, i2), '=') && term_start(cs@, ws_end(cs@, ws_end(cs@, i2) + 1));
            lemma_ident_unique(cs@, id.start as int, ie as int, i2);
        }
        assert(ident_at(cs@, id.start as int, ie as int));
    }
    let q = skip_ws(cs, ie);
    if !at(cs, q, '=') {
        return None;
    }
    let (ex, ee) = match parse_math_expression(cs, q + 1) {
        Some(x) => x,
        None => return None,
    };
    let mut kids: Vec<Pair> = Vec::new();
    push_kid(&mut kids, id, Ghost(cs@), Ghost(s as int), Ghost(s as int));
    push_kid(&mut kids, ex, Ghost(cs@), Ghost(s as int), Ghost(ie as int));
    proof {
        assert(keyword_then(cs@, s as int, id.start as int, "let"@));
        assert(mark(cs@, q as int, '='));
        assert(around(cs@, ie as int, ex.start as int, '='));
    }
    Some((node(cs, Rule::VariableDecl, s, ee, kids), ee))
}

/// A top-level item has the parts its reader takes apart.
pub open spec fn item_ok(p: Pair) -> bool {
    ||| p.rule == Rule::VariableDecl && p.children@.len() == 2 && expr_shaped(p.children@[1])
    ||| p.rule == Rule::Diagram && p.children@.len() >= 1 && stmts_full(p.children@, p.children@.len() as int)
    ||| p.rule == Rule::PacketDecl && packet_has_parts(p) && children_at_least(
        packet_stmts_of(p).children@,
        Rule::PacketField,
        2,
    )
    ||| p.rule == Rule::StateDecl && p.children@.len() >= 2 && children_at_least(
        p.children@[1].children@,
        Rule::StateTransition,
        2,
    )
    ||| p.rule == Rule::XyDecl && p.children@.len() >= 2 && children_at_least(p.children@[1].children@, Rule::XyProp, 2)
    ||| p.rule == Rule::SqltableDecl && p.children@.len() >= 1 && fields_have_parts(p.children@)
}

/// A file node whose items all have their parts.
pub open spec fn file_ok(t: Pair) -> bool {
    &&& t.rule == Rule::File
    &&& forall|i: int| 0 <= i < t.children@.len() ==> item_ok(#[trigger] t.children@[i])
}

/// What the grammar reads the whole input as: a file node spanning all of
/// it, whose items have their parts, with only white space and comments
/// around and between the items.
pub open spec fn syntax_tree(input: Seq<char>, t: Pair) -> bool {
    &&& file_ok(t)
    &&& t.start == 0
    &&& t.end == input.len()
    &&& spans_ok(input, t)
    &&& gaps_blank(input, t.children@, 0, input.len() as int)
}

proof fn lemma_gaps_extend(input: Seq<char>, kids: Seq<Pair>, lo: int, e: int, h: int)
    requires
        gaps_blank(input, kids, lo, e),
        ordered_within(input, kids, lo, e),
        0 <= lo,
        e <= h <= input.len(),
        blank_at(input, e, h),
    ensures
        gaps_blank(input, kids, lo, h),
{
    if kids.len() == 0 {
        lemma_blank_join(input, lo, e, h);
    } else {
        let last = kids[kids.len() - 1];
        lemma_blank_join(input, last.end as int, e, h);
    }
}

/// A packet, state machine, XY chart or SQL table declaration is read at
/// `a`, up to its closing `}`.
pub open spec fn block_item_at(s: Seq<char>, a: int) -> bool {
    ||| packet_end(s, a) is Some
    ||| state_end(s, a) is Some
    ||| xy_end(s, a) is Some
    ||| sqltable_end(s, a) is Some
}

/// No item can be read at `pos`: neither a diagram (`#`), nor a variable
/// declaration, nor a packet, state machine, XY chart or SQL table.
pub open spec fn no_item_at(s: Seq<char>, pos: int) -> bool {
    &&& !mark(s, pos, '#')
    &&& !variable_start(s, pos)
    &&& !block_item_at(s, pos)
}

/// A variable declaration whose expression is read as far as it goes: it
/// ends where the reader of a math expression, started just after the
/// `=`, stops (`expr_end`).
pub open spec fn variable_maximal(s: Seq<char>, v: Pair) -> bool {
    &&& v.children@.len() == 2
    &&& expr_end(s, ws_end(s, v.children@[0].end as int) + 1) == Some(v.children@[1].end as int)
}

/// `kids` is a run of complete items that, with only white space and
/// comments around them, fills the input up to `pos`; the statements of
/// each diagram among them are read as far as they go (`stmt_maximal`), so
/// is the expression of each variable declaration (`variable_maximal`), and
/// where the last of them is a diagram, no further statement begins at
/// `pos`.
pub open spec fn items_before(input: Seq<char>, kids: Seq<Pair>, pos: int) -> bool {
    &&& ordered_within(input, kids, 0, pos)
    &&& gaps_blank(input, kids, 0, pos)
    &&& forall|i: int| 0 <= i < kids.len() ==> item_ok(#[trigger] kids[i])
    &&& forall|i: int| 0 <= i < kids.len() && (#[trigger] kids[i]).rule == Rule::Diagram ==> diagram_maximal(input, kids[i])
    &&& forall|i: int| 0 <= i < kids.len() && (#[trigger] kids[i]).rule == Rule::VariableDecl ==> variable_maximal(input, kids[i])
    &&& kids.len() > 0 && kids.last().rule == Rule::Diagram ==> no_stmt_at(input, pos)
}

/// Where the reader of a file stops on text that it cannot read: the first
/// character after a run of complete items, not white space, where no item
/// begins.
pub open spec fn stopped_at(input: Seq<char>, pos: int) -> bool {
    &&& 0 <= pos < input.len()
    &&& !space(input[pos])
    &&& no_item_at(input, pos)
    &&& exists|kids: Seq<Pair>| #[trigger] items_before(input, kids, pos)
}

/// A top-level item: a variable, a packet, a state machine, an XY chart, a
/// SQL table or a diagram, tried in that order.
fn parse_item(cs: &Vec<char>, p: usize) -> (r: Option<(Pair, usize)>)
    requires
        p <= cs@.len() < usize::MAX,
    ensures
        r matches Some(x) ==> p <= x.0.start && x.0.end == x.1 && spans_ok(cs@, x.0),
        r matches Some(x) ==> item_ok(x.0) && x.1 > p,
        mark(cs@, ws_end(cs@, p as int), '#') || variable_start(cs@, ws_end(cs@, p as int)) ==> r is Some,
        block_item_at(cs@, ws_end(cs@, p as int)) ==> r is Some,
        r matches Some(x) ==> blank_at(cs@, p as int, x.0.start as int),
        r matches Some(x) ==> (x.0.rule == Rule::Diagram ==> no_stmt_at(cs@, ws_end(cs@, x.1 as int))),
        r matches Some(x) ==> (x.0.rule == Rule::Diagram ==> diagram_maximal(cs@, x.0)),
        r matches Some(x) ==> (x.0.rule == Rule::VariableDecl ==> variable_maximal(cs@, x.0)),
{
    proof {
        lemma_ws_end_idem(cs@, p as int);
    }
    match parse_variable(cs, p) {
        Some(x) => return Some(x),
        None => {},
    }
    match parse_packet(cs, p) {
        Some(x) => return Some(x),
        None => {},
    }
    match parse_state(cs, p) {
        Some(x) => return Some(x),
        None => {},
    }
    match parse_xy(cs, p) {
        Some(x) => return Some(x),
        None => {},
    }
    match parse_sqltable(cs, p) {
        Some(x) => return Some(x),
        None => {},
    }
    parse_diagram(cs, p)
}

/// The reader of the TRX grammar.
pub struct TrxParser;

impl TrxParser {
    /// Reads a whole source text as a file node, or gives the position
    /// where no item could be read.
    pub fn parse_file(input: &str) -> (r: Result<Pair, usize>)
        requires
            input@.len() < usize::MAX,
        ensures
            r matches Ok(t) ==> syntax_tree(input@, t),
            r matches Err(pos) ==> stopped_at(input@, pos as int),
            blank(input@) ==> r is Ok,
    {
        let cs = crate::text::chars_of(input);
        parse_file(&cs)
    }
}

/// file: items, then the end of the input. On failure, gives the position
/// where no item could be read.
pub fn parse_file(cs: &Vec<char>) -> (r: Result<Pair, usize>)
    requires
        cs@.len() < usize::MAX,
    ensures
        r matches Ok(t) ==> syntax_tree(cs@, t),
        r matches Err(pos) ==> stopped_at(cs@, pos as int),
        blank(cs@) ==> r is Ok,
{
    let mut kids: Vec<Pair> = Vec::new();
    let mut e: usize = 0;
    proof {
        assert(cs@.subrange(0, 0).len() == 0);
        assert(cs@.subrange(0, cs@.len() as int) =~= cs@);
    }
    loop
        invariant
            e <= cs@.len() < usize::MAX,
            blank(cs@) ==> e == 0,
            cs@.subrange(0, cs@.len() as int) == cs@,
            ordered_within(cs@, kids@, 0, e as int),
            gaps_blank(cs@, kids@, 0, e as int),
            forall|i: int| 0 <= i < kids@.len() ==> item_ok(#[trigger] kids@[i]),
            kids@.len() > 0 && kids@.last().rule == Rule::Diagram ==> no_stmt_at(cs@, ws_end(cs@, e as int)),
            forall|i: int| 0 <= i < kids@.len() && (#[trigger] kids@[i]).rule == Rule::Diagram ==> diagram_maximal(cs@, kids@[i]),
            forall|i: int| 0 <= i < kids@.len() && (#[trigger] kids@[i]).rule == Rule::VariableDecl ==> variable_maximal(cs@, kids@[i]),
        decreases cs@.len() - e,
    {
        let q = skip_ws(cs, e);
        if q == cs.len() {
            proof {
                lemma_within_grow(cs@, kids@, 0, e as int, q as int);
                lemma_gaps_extend(cs@, kids@, 0, e as int, q as int);
            }
            return Ok(node(cs, Rule::File, 0, q, kids));
        }
        match parse_item(cs, q) {
            Some((it, ie)) => {
                proof {
                    lemma_gaps_extend(cs@, kids@, 0, e as int, q as int);
                    lemma_gaps_extend(cs@, kids@, 0, q as int, it.start as int);
                    lemma_within_grow(cs@, kids@, 0, e as int, q as int);
                }
                let ghost before = kids@;
                push_kid(&mut kids, it, Ghost(cs@), Ghost(0), Ghost(e as int));
                proof {
                    assert(kids@.subrange(0, kids@.len() - 1) =~= before);
                    lemma_blank_empty(cs@, ie as int);
                }
                e = ie;
            },
            None => {
                proof {
                    lemma_ws_end_idem(cs@, e as int);
                    lemma_within_grow(cs@, kids@, 0, e as int, q as int);
                    lemma_gaps_extend(cs@, kids@, 0, e as int, q as int);
                    assert(items_before(cs@, kids@, q as int));
                }
                return Err(q);
            },
        }
    }
}

} // verus!
