//! Inline math: operator precedence and the expression trees built from a
//! flat run of terms and operators.

use vstd::prelude::*;
use crate::ast::{ExprView, Expression, expr_view, exprs_view};
use crate::parser::error::ParseError;
use crate::parser::syntax::{Pair, Rule};
use crate::text::{chars_of, push_char, push_str, str_eq, string_from_range, trim, trim_bounds, trim_text, lead_len, lemma_lead_len, lemma_lead_len_unique};
use crate::preprocess::{index_of_char, lemma_index_of_char};

verus! {

/// The binding strength of an operator: comparisons bind loosest, then
/// addition and subtraction, then multiplication and division; any other
/// text has level 0.
pub open spec fn operator_precedence(op: Seq<char>) -> int {
    if op == seq!['=', '='] || op == seq!['!', '='] || op == seq!['<'] || op == seq!['>']
        || op == seq!['<', '='] || op == seq!['>', '='] {
        1
    } else if op == seq!['+'] || op == seq!['-'] {
        2
    } else if op == seq!['*'] || op == seq!['/'] {
        3
    } else {
        0
    }
}

/// Index of the last operator of lowest precedence.
pub open spec fn last_loosest(ops: Seq<Seq<char>>) -> int
    decreases ops.len(),
{
    if ops.len() <= 1 {
        0
    } else {
        let k = last_loosest(ops.drop_last());
        if operator_precedence(ops.last()) <= operator_precedence(ops[k]) {
            ops.len() - 1
        } else {
            k
        }
    }
}

/// The texts of a list of strings.
pub open spec fn texts(ss: Seq<String>) -> Seq<Seq<char>> {
    ss.map_values(|s: String| s@)
}

/// The tree that a run `t0 o0 t1 o1 ... tn` reads as: the root is the last
/// operator of lowest precedence, so that equal levels group to the left,
/// and each side is read the same way.
pub open spec fn precedence_tree(terms: Seq<ExprView>, ops: Seq<Seq<char>>) -> ExprView
    decreases ops.len(),
{
    if ops.len() == 0 {
        terms[0]
    } else {
        let k = last_loosest(ops);
        proof {
            lemma_last_loosest_range(ops);
        }
        ExprView::BinaryOp(
            Box::new(precedence_tree(terms.take(k + 1), ops.take(k))),
            ops[k],
            Box::new(precedence_tree(terms.skip(k + 1), ops.skip(k + 1))),
        )
    }
}

/// Returns the mathematical precedence level of an operator.
pub fn get_operator_precedence(op: &str) -> (p: i32)
    ensures
        p == operator_precedence(op@),
{
    proof {
        reveal_strlit("==");
        reveal_strlit("!=");
        reveal_strlit("<");
        reveal_strlit(">");
        reveal_strlit("<=");
        reveal_strlit(">=");
        reveal_strlit("+");
        reveal_strlit("-");
        reveal_strlit("*");
        reveal_strlit("/");
        assert("=="@ =~= seq!['=', '=']);
        assert("!="@ =~= seq!['!', '=']);
        assert("<"@ =~= seq!['<']);
        assert(">"@ =~= seq!['>']);
        assert("<="@ =~= seq!['<', '=']);
        assert(">="@ =~= seq!['>', '=']);
        assert("+"@ =~= seq!['+']);
        assert("-"@ =~= seq!['-']);
        assert("*"@ =~= seq!['*']);
        assert("/"@ =~= seq!['/']);
    }
    if str_eq(op, "==") || str_eq(op, "!=") || str_eq(op, "<") || str_eq(op, ">") || str_eq(op, "<=")
        || str_eq(op, ">=") {
        1
    } else if str_eq(op, "+") || str_eq(op, "-") {
        2
    } else if str_eq(op, "*") || str_eq(op, "/") {
        3
    } else {
        0
    }
}

/// The root of a non-empty run is one of its operators.
pub proof fn lemma_last_loosest_range(ops: Seq<Seq<char>>)
    requires
        ops.len() >= 1,
    ensures
        0 <= last_loosest(ops) < ops.len(),
    decreases ops.len(),
{
    if ops.len() > 1 {
        lemma_last_loosest_range(ops.drop_last());
    }
}

/// The operator at the root binds loosest: no operator before it has a
/// lower precedence, and every operator after it has a strictly higher one
/// (equal levels therefore group to the left).
pub proof fn lemma_root_binds_loosest(ops: Seq<Seq<char>>)
    requires
        ops.len() >= 1,
    ensures
        0 <= last_loosest(ops) < ops.len(),
        forall|j: int| 0 <= j < last_loosest(ops) ==> operator_precedence(ops[last_loosest(ops)]) <= operator_precedence(#[trigger] ops[j]),
        forall|j: int| last_loosest(ops) < j < ops.len() ==> operator_precedence(ops[last_loosest(ops)]) < operator_precedence(#[trigger] ops[j]),
    decreases ops.len(),
{
    if ops.len() > 1 {
        let t = ops.drop_last();
        lemma_root_binds_loosest(t);
        let k = last_loosest(t);
        let n = ops.len() - 1;
        assert forall|j: int| 0 <= j < n implies #[trigger] ops[j] == t[j] by {}
        if operator_precedence(ops.last()) <= operator_precedence(ops[k]) {
            assert(last_loosest(ops) == n);
            assert forall|j: int| 0 <= j < n implies operator_precedence(ops[n]) <= operator_precedence(#[trigger] ops[j]) by {
                assert(ops[j] == t[j]);
                if j != k {
                    if j < k {
                        assert(operator_precedence(t[k]) <= operator_precedence(t[j]));
                    } else {
                        assert(operator_precedence(t[k]) < operator_precedence(t[j]));
                    }
                }
            }
        } else {
            assert(last_loosest(ops) == k);
            assert forall|j: int| 0 <= j < k implies operator_precedence(ops[k]) <= operator_precedence(#[trigger] ops[j]) by {
                assert(ops[j] == t[j]);
            }
            assert forall|j: int| k < j < ops.len() implies operator_precedence(ops[k]) < operator_precedence(#[trigger] ops[j]) by {
                if j < n {
                    assert(ops[j] == t[j]);
                }
            }
        }
    }
}

pub proof fn lemma_exprs_view_len(es: Seq<Expression>)
    ensures
        exprs_view(es).len() == es.len(),
        forall|i: int| 0 <= i < es.len() ==> #[trigger] exprs_view(es)[i] == expr_view(es[i]),
    decreases es.len(),
{
    if es.len() > 0 {
        lemma_exprs_view_len(es.drop_last());
        assert forall|i: int| 0 <= i < es.len() implies #[trigger] exprs_view(es)[i] == expr_view(es[i]) by {
            if i < es.len() - 1 {
                assert(es.drop_last()[i] == es[i]);
            }
        }
    }
}

/// Views commute with cutting a list of expressions in two.
pub proof fn lemma_exprs_view_take_skip(es: Seq<Expression>, k: int)
    requires
        0 <= k <= es.len(),
    ensures
        exprs_view(es.take(k)) == exprs_view(es).take(k),
        exprs_view(es.skip(k)) == exprs_view(es).skip(k),
{
    lemma_exprs_view_len(es);
    lemma_exprs_view_len(es.take(k));
    lemma_exprs_view_len(es.skip(k));
    assert(exprs_view(es.take(k)) =~= exprs_view(es).take(k));
    assert(exprs_view(es.skip(k)) =~= exprs_view(es).skip(k));
}

/// Builds a binary expression tree from a list of terms and operators based on precedence.
pub fn build_precedence_tree(terms: Vec<Expression>, ops: Vec<String>) -> (e: Expression)
    requires
        terms@.len() == ops@.len() + 1,
    ensures
        expr_view(e) == precedence_tree(exprs_view(terms@), texts(ops@)),
    decreases ops@.len(),
{
    let mut terms = terms;
    let mut ops = ops;
    if ops.len() == 0 {
        proof {
            lemma_exprs_view_len(terms@);
        }
        return terms.remove(0);
    }
    // Find the operator with the lowest precedence to serve as the root of this sub-tree;
    // the last such operator wins, so equal levels group to the left.
    let mut min_precedence: i32 = i32::MAX;
    let mut split_index: usize = 0;
    let mut index: usize = 0;
    while index < ops.len()
        invariant
            index <= ops@.len(),
            ops@.len() >= 1,
            index == 0 ==> min_precedence == i32::MAX && split_index == 0,
            index > 0 ==> split_index == last_loosest(texts(ops@).take(index as int)) && split_index < index
                && min_precedence == operator_precedence(ops@[split_index as int]@),
        decreases ops@.len() - index,
    {
        let precedence = get_operator_precedence(ops[index].as_str());
        proof {
            let t = texts(ops@).take(index + 1);
            assert(t.drop_last() == texts(ops@).take(index as int));
            assert(t.last() == ops@[index as int]@);
            if index > 0 {
                assert(t[split_index as int] == ops@[split_index as int]@);
            }
            assert(operator_precedence(ops@[index as int]@) <= 3);
        }
        if precedence <= min_precedence {
            min_precedence = precedence;
            split_index = index;
        }
        index = index + 1;
    }
    proof {
        assert(texts(ops@).take(ops@.len() as int) == texts(ops@));
    }
    let ghost all_terms = terms@;
    let ghost all_ops = ops@;
    let right_ops = ops.split_off(split_index + 1);
    let pivot_op = ops.pop().unwrap();
    let right_terms = terms.split_off(split_index + 1);
    proof {
        assert(ops@ == all_ops.take(split_index as int));
        assert(right_ops@ == all_ops.skip(split_index + 1));
        assert(terms@ == all_terms.take(split_index + 1));
        assert(right_terms@ == all_terms.skip(split_index + 1));
        assert(texts(ops@) == texts(all_ops).take(split_index as int));
        assert(texts(right_ops@) == texts(all_ops).skip(split_index + 1));
        lemma_exprs_view_take_skip(all_terms, split_index + 1);
    }
    let left = build_precedence_tree(terms, ops);
    let right = build_precedence_tree(right_terms, right_ops);
    Expression::BinaryOp(Box::new(left), pivot_op, Box::new(right))
}

/// Parts joined with `.` between them.
pub open spec fn join_dot(parts: Seq<Seq<char>>) -> Seq<char>
    decreases parts.len(),
{
    if parts.len() == 0 {
        Seq::empty()
    } else if parts.len() == 1 {
        parts[0]
    } else {
        join_dot(parts.drop_last()) + seq!['.'] + parts.last()
    }
}

/// Whether a character belongs to the number of a quantity (`10.5px`).
pub open spec fn is_number_char(c: char) -> bool {
    ('0' <= c && c <= '9') || c == '.'
}

/// Whether every character is ASCII.
pub open spec fn ascii_text(s: Seq<char>) -> bool {
    forall|i: int| 0 <= i < s.len() ==> s[i] <= '\x7f'
}

/// Whether an expression node has the parts its reader takes: a math
/// expression has a first term, a term node has its inner node, and the
/// text of a quantity with a unit is ASCII.
pub open spec fn expr_shaped(p: Pair) -> bool
    decreases p, 3nat, 0nat,
{
    p.children@.len() >= 1 && terms_shaped(p.children@, p.children@.len() as int)
}

/// The term positions (even indices below `k`) of an expression's children
/// are shaped.
pub open spec fn terms_shaped(cs: Seq<Pair>, k: int) -> bool
    decreases cs, 1nat, k,
{
    if k <= 0 || k > cs.len() {
        true
    } else {
        terms_shaped(cs, k - 1) && ((k - 1) % 2 != 0 || term_shaped(cs[k - 1]))
    }
}

/// A term node is shaped.
pub open spec fn term_shaped(p: Pair) -> bool
    decreases p, 2nat, 0nat,
{
    if p.rule == Rule::MathTerm {
        p.children@.len() >= 1 && inner_shaped(p.children@[0])
    } else {
        inner_shaped(p)
    }
}

/// The node inside a term is shaped.
pub open spec fn inner_shaped(p: Pair) -> bool
    decreases p, 1nat, 0nat,
{
    if p.rule == Rule::FunctionCall {
        args_shaped(p.children@, p.children@.len() as int)
    } else if p.rule == Rule::NumberWithUnit {
        ascii_text(p.text@)
    } else {
        true
    }
}

/// The argument expressions among a call's first `k` children are shaped.
pub open spec fn args_shaped(cs: Seq<Pair>, k: int) -> bool
    decreases cs, 1nat, k,
{
    if k <= 0 || k > cs.len() {
        true
    } else {
        args_shaped(cs, k - 1) && (cs[k - 1].rule != Rule::MathExpression || expr_shaped(cs[k - 1]))
    }
}

/// What a math expression node means: its terms, read in order, joined by
/// its operators (trimmed) by precedence; a trailing operator with no term
/// after it is ignored.
pub open spec fn expr_meaning(p: Pair) -> ExprView
    decreases p, 3nat, 0nat,
{
    let n = ((p.children@.len() + 1) / 2) as int;
    precedence_tree(terms_meaning(p.children@, n), ops_meaning(p.children@, n - 1))
}

/// The meanings of the first `k` terms among an expression's children.
pub open spec fn terms_meaning(cs: Seq<Pair>, k: int) -> Seq<ExprView>
    decreases cs, 1nat, k,
{
    if k <= 0 || 2 * (k - 1) >= cs.len() {
        Seq::empty()
    } else {
        terms_meaning(cs, k - 1).push(term_meaning(cs[2 * (k - 1)]))
    }
}

/// The first `k` operators among an expression's children, trimmed.
pub open spec fn ops_meaning(cs: Seq<Pair>, k: int) -> Seq<Seq<char>>
    decreases k,
{
    if k <= 0 || 2 * k - 1 >= cs.len() {
        Seq::empty()
    } else {
        ops_meaning(cs, k - 1).push(trim_text(cs[2 * k - 1].text@))
    }
}

/// What a term node means.
pub open spec fn term_meaning(p: Pair) -> ExprView
    decreases p, 2nat, 0nat,
{
    if p.rule == Rule::MathTerm && p.children@.len() > 0 {
        inner_meaning(p.children@[0])
    } else {
        inner_meaning(p)
    }
}

/// What the node inside a term means: a call of the function whose name is
/// the dotted identifiers, with the argument expressions; a variable (the
/// trimmed identifier); a property of a node (`node.property`, split at the
/// first dot); a number; a quantity with a unit (split where the digits and
/// dots end); any other node stands for its text.
pub open spec fn inner_meaning(p: Pair) -> ExprView
    decreases p, 1nat, 0nat,
{
    if p.rule == Rule::FunctionCall {
        ExprView::FunctionCall {
            name: join_dot(name_parts(p.children@, p.children@.len() as int)),
            args: args_meaning(p.children@, p.children@.len() as int),
        }
    } else if p.rule == Rule::Identifier {
        ExprView::VariableRef(trim_text(p.text@))
    } else if p.rule == Rule::PropertyRef {
        let t = trim_text(p.text@);
        let i = index_of_char(t, '.');
        if i >= 0 {
            ExprView::PropertyRef(t.take(i), t.skip(i + 1))
        } else {
            ExprView::VariableRef(t)
        }
    } else if p.rule == Rule::Number {
        ExprView::Number(p.text@)
    } else if p.rule == Rule::NumberWithUnit {
        let k = lead_len(p.text@, |c: char| is_number_char(c));
        ExprView::Unit(p.text@.take(k as int), p.text@.skip(k as int))
    } else {
        ExprView::String(p.text@)
    }
}

/// The texts of the identifiers among the first `k` children.
pub open spec fn name_parts(cs: Seq<Pair>, k: int) -> Seq<Seq<char>>
    decreases k,
{
    if k <= 0 {
        Seq::empty()
    } else if cs[k - 1].rule == Rule::Identifier {
        name_parts(cs, k - 1).push(cs[k - 1].text@)
    } else {
        name_parts(cs, k - 1)
    }
}

/// The meanings of the argument expressions among the first `k` children.
pub open spec fn args_meaning(cs: Seq<Pair>, k: int) -> Seq<ExprView>
    decreases cs, 1nat, k,
{
    if k <= 0 || k > cs.len() {
        Seq::empty()
    } else if cs[k - 1].rule == Rule::MathExpression {
        args_meaning(cs, k - 1).push(expr_meaning(cs[k - 1]))
    } else {
        args_meaning(cs, k - 1)
    }
}

proof fn lemma_exprs_view_push(es: Seq<Expression>, e: Expression)
    ensures
        exprs_view(es.push(e)) == exprs_view(es).push(expr_view(e)),
{
    assert(es.push(e).drop_last() == es);
}

/// Joins parts with `.` between them.
fn join_with_dots(parts: &Vec<String>) -> (s: String)
    ensures
        s@ == join_dot(texts(parts@)),
{
    let mut s = String::new();
    let mut i: usize = 0;
    while i < parts.len()
        invariant
            i <= parts@.len(),
            s@ == join_dot(texts(parts@).take(i as int)),
        decreases parts@.len() - i,
    {
        proof {
            let t = texts(parts@).take(i + 1);
            assert(t.drop_last() == texts(parts@).take(i as int));
            assert(t.last() == parts@[i as int]@);
            if i == 0 {
                assert(texts(parts@).take(0) =~= Seq::<Seq<char>>::empty());
                assert(t.len() == 1);
            }
        }
        if i > 0 {
            push_char(&mut s, '.');
        }
        push_str(&mut s, parts[i].as_str());
        i = i + 1;
    }
    proof {
        assert(texts(parts@).take(parts@.len() as int) == texts(parts@));
    }
    s
}

/// Parses a math expression node into an expression tree with proper
/// operator precedence.
pub fn parse_math_expr_stable(pair: &Pair) -> (r: Result<Expression, ParseError>)
    requires
        expr_shaped(*pair),
    ensures
        r matches Ok(e) && expr_view(e) == expr_meaning(*pair),
    decreases *pair, 3nat, 0nat,
{
    let cs = &pair.children;
    proof {
        assert(terms_shaped(cs@, cs@.len() as int));
        lemma_terms_shaped(cs@, cs@.len() as int, 0);
    }
    // The first term, then each (operator, term) pair.
    let first = parse_math_term(&cs[0])?;
    let mut terms: Vec<Expression> = Vec::new();
    terms.push(first);
    let mut ops: Vec<String> = Vec::new();
    proof {
        assert(terms@ == Seq::<Expression>::empty().push(first));
        lemma_exprs_view_push(Seq::<Expression>::empty(), first);
        assert(terms_meaning(cs@, 0) =~= Seq::<ExprView>::empty());
        assert(exprs_view(Seq::<Expression>::empty()) =~= Seq::<ExprView>::empty());
        assert(texts(ops@) =~= ops_meaning(cs@, 0));
    }
    let mut i: usize = 1;
    while i < cs.len() - 1
        invariant
            1 <= i,
            i % 2 == 1,
            i <= cs@.len() + 1,
            cs@ == pair.children@,
            terms_shaped(cs@, cs@.len() as int),
            terms@.len() == (i + 1) / 2,
            exprs_view(terms@) == terms_meaning(cs@, (i + 1) / 2),
            texts(ops@) == ops_meaning(cs@, (i - 1) / 2),
            ops@.len() + 1 == terms@.len(),
        decreases cs@.len() - i,
    {
        let op = trim(cs[i].text.as_str());
        proof {
            lemma_terms_shaped(cs@, cs@.len() as int, i + 1);
            assert(decreases_to!(*pair => cs@[i + 1]));
        }
        let term = parse_math_term(&cs[i + 1])?;
        let ghost before_terms = terms@;
        let ghost before_ops = ops@;
        ops.push(op);
        terms.push(term);
        proof {
            lemma_exprs_view_push(before_terms, term);
            let k = (i + 1) / 2;
            assert((i + 3) / 2 == k + 1);
            assert(2 * (k + 1 - 1) == i + 1);
            assert(terms_meaning(cs@, k + 1) == terms_meaning(cs@, k).push(term_meaning(cs@[i + 1])));
            assert((i + 1) / 2 == (i - 1) / 2 + 1);
            assert(2 * ((i + 1) / 2) - 1 == i);
            assert(ops_meaning(cs@, (i + 1) / 2) == ops_meaning(cs@, (i - 1) / 2).push(trim_text(cs@[i as int].text@)));
            assert(texts(ops@) == texts(before_ops).push(op@));
        }
        i = i + 2;
    }
    proof {
        assert((cs@.len() + 1) / 2 == (i + 1) / 2);
    }
    Ok(build_precedence_tree(terms, ops))
}

proof fn lemma_terms_shaped(cs: Seq<Pair>, k: int, j: int)
    requires
        terms_shaped(cs, k),
        0 <= j < k <= cs.len(),
        j % 2 == 0,
    ensures
        term_shaped(cs[j]),
    decreases k,
{
    if j < k - 1 {
        lemma_terms_shaped(cs, k - 1, j);
    }
}

proof fn lemma_args_shaped(cs: Seq<Pair>, k: int, j: int)
    requires
        args_shaped(cs, k),
        0 <= j < k <= cs.len(),
        cs[j].rule == Rule::MathExpression,
    ensures
        expr_shaped(cs[j]),
    decreases k,
{
    if j < k - 1 {
        lemma_args_shaped(cs, k - 1, j);
    }
}

/// Parses a single math term (number, variable, function call, etc).
pub fn parse_math_term(pair: &Pair) -> (r: Result<Expression, ParseError>)
    requires
        term_shaped(*pair),
    ensures
        r matches Ok(e) && expr_view(e) == term_meaning(*pair),
    decreases *pair, 2nat, 0nat,
{
    if pair.rule == Rule::MathTerm {
        parse_term_inner(&pair.children[0])
    } else {
        parse_term_inner(pair)
    }
}

/// Parses the node inside a term.
fn parse_term_inner(current: &Pair) -> (r: Result<Expression, ParseError>)
    requires
        inner_shaped(*current),
    ensures
        r matches Ok(e) && expr_view(e) == inner_meaning(*current),
    decreases *current, 1nat, 0nat,
{
    let expression = match current.rule {
        Rule::FunctionCall => {
            let elements = &current.children;
            let mut parts: Vec<String> = Vec::new();
            let mut args: Vec<Expression> = Vec::new();
            let mut j: usize = 0;
            while j < elements.len()
                invariant
                    j <= elements@.len(),
                    elements@ == current.children@,
                    args_shaped(elements@, elements@.len() as int),
                    texts(parts@) == name_parts(elements@, j as int),
                    exprs_view(args@) == args_meaning(elements@, j as int),
                decreases elements@.len() - j,
            {
                let element = &elements[j];
                if element.rule == Rule::Identifier {
                    let ghost before = parts@;
                    parts.push(element.text.clone());
                    proof {
                        assert(texts(parts@) == texts(before).push(element.text@));
                    }
                } else if element.rule == Rule::MathExpression {
                    proof {
                        lemma_args_shaped(elements@, elements@.len() as int, j as int);
                    }
                    let arg = parse_math_expr_stable(element)?;
                    let ghost before = args@;
                    args.push(arg);
                    proof {
                        lemma_exprs_view_push(before, arg);
                    }
                }
                j = j + 1;
            }
            Expression::FunctionCall { name: join_with_dots(&parts), args }
        },
        Rule::Identifier => Expression::VariableRef(trim(current.text.as_str())),
        Rule::PropertyRef => {
            let cs = chars_of(current.text.as_str());
            let (a, e) = trim_bounds(cs.as_slice(), 0, cs.len());
            proof {
                assert(cs@.subrange(0, cs@.len() as int) == cs@);
            }
            let ghost t = trim_text(current.text@);
            match crate::preprocess::find_char_in(cs.as_slice(), a, e, '.') {
                Some(d) => {
                    proof {
                        lemma_index_of_char(t, '.');
                        assert(t.take(d as int) =~= cs@.subrange(a as int, a + d));
                        assert(t.skip(d + 1) =~= cs@.subrange(a + d + 1, e as int));
                    }
                    Expression::PropertyRef(
                        string_from_range(cs.as_slice(), a, a + d),
                        string_from_range(cs.as_slice(), a + d + 1, e),
                    )
                },
                None => Expression::VariableRef(string_from_range(cs.as_slice(), a, e)),
            }
        },
        Rule::Number => Expression::Number(current.text.clone()),
        Rule::NumberWithUnit => {
            let cs = chars_of(current.text.as_str());
            let mut k: usize = 0;
            while k < cs.len() && (('0' <= cs[k] && cs[k] <= '9') || cs[k] == '.')
                invariant
                    k <= cs@.len(),
                    forall|x: int| 0 <= x < k ==> is_number_char(#[trigger] cs@[x]),
                decreases cs@.len() - k,
            {
                k = k + 1;
            }
            proof {
                lemma_lead_len_unique(cs@, |c: char| is_number_char(c), k as int);
            }
            Expression::Unit(string_from_range(cs.as_slice(), 0, k), string_from_range(cs.as_slice(), k, cs.len()))
        },
        _ => Expression::String(current.text.clone()),
    };
    proof {
        if current.rule == Rule::NumberWithUnit {
            assert(current.text@.take(lead_len(current.text@, |c: char| is_number_char(c)) as int)
                == current.text@.subrange(0, lead_len(current.text@, |c: char| is_number_char(c)) as int));
        }
    }
    Ok(expression)
}


/// The comparison operators: `==`, `!=`, `<`, `>`, `<=`, `>=`.
pub open spec fn is_comparison(op: Seq<char>) -> bool {
    ||| op == seq!['=', '=']
    ||| op == seq!['!', '=']
    ||| op == seq!['<']
    ||| op == seq!['>']
    ||| op == seq!['<', '=']
    ||| op == seq!['>', '=']
}

/// The arithmetic operators: `+`, `-`, `*`, `/`.
pub open spec fn is_arithmetic(op: Seq<char>) -> bool {
    ||| op == seq!['+']
    ||| op == seq!['-']
    ||| op == seq!['*']
    ||| op == seq!['/']
}

/// Every comparison operator has level 1, below `+` and `-` (2), which are
/// below `*` and `/` (3): the comparisons share one level.
pub proof fn lemma_precedence_levels(c: Seq<char>, d: Seq<char>)
    requires
        is_comparison(c),
        is_comparison(d),
    ensures
        operator_precedence(c) == 1,
        operator_precedence(c) == operator_precedence(d),
        operator_precedence(c) < operator_precedence(seq!['+']),
        operator_precedence(seq!['+']) == 2 && operator_precedence(seq!['-']) == 2,
        operator_precedence(seq!['*']) == 3 && operator_precedence(seq!['/']) == 3,
{
    lemma_operator_literals();
}

/// The operator texts, told apart by their length and characters.
proof fn lemma_operator_literals()
    ensures
        seq!['=', '='].len() == 2 && seq!['=', '='][0] == '=' && seq!['=', '='][1] == '=',
        seq!['!', '='].len() == 2 && seq!['!', '='][0] == '!' && seq!['!', '='][1] == '=',
        seq!['<', '='].len() == 2 && seq!['<', '='][0] == '<' && seq!['<', '='][1] == '=',
        seq!['>', '='].len() == 2 && seq!['>', '='][0] == '>' && seq!['>', '='][1] == '=',
        seq!['<'].len() == 1 && seq!['<'][0] == '<',
        seq!['>'].len() == 1 && seq!['>'][0] == '>',
        seq!['+'].len() == 1 && seq!['+'][0] == '+',
        seq!['-'].len() == 1 && seq!['-'][0] == '-',
        seq!['*'].len() == 1 && seq!['*'][0] == '*',
        seq!['/'].len() == 1 && seq!['/'][0] == '/',
{
}

/// A binary node of the expression tree.
pub open spec fn bin(l: ExprView, op: Seq<char>, r: ExprView) -> ExprView {
    ExprView::BinaryOp(Box::new(l), op, Box::new(r))
}

/// Arithmetic binds tighter than a comparison, on either side of it: in
/// `x o y c z` and in `x c y o z`, with `o` arithmetic and `c` a
/// comparison, the comparison is at the root and the arithmetic is done
/// first; and of two comparisons the first groups first.
pub proof fn lemma_comparison_binds_loosest(x: ExprView, y: ExprView, z: ExprView, o: Seq<char>, c: Seq<char>, d: Seq<char>)
    requires
        is_arithmetic(o),
        is_comparison(c),
        is_comparison(d),
    ensures
        precedence_tree(seq![x, y, z], seq![o, c]) == bin(bin(x, o, y), c, z),
        precedence_tree(seq![x, y, z], seq![c, o]) == bin(x, c, bin(y, o, z)),
        precedence_tree(seq![x, y, z], seq![c, d]) == bin(bin(x, c, y), d, z),
{
    lemma_precedence_levels(c, d);
    lemma_operator_literals();
    assert(operator_precedence(o) >= 2);
    let ts = seq![x, y, z];
    let one = seq![o, c];
    let two = seq![c, o];
    let three = seq![c, d];
    assert(one.drop_last() =~= seq![o]);
    assert(two.drop_last() =~= seq![c]);
    assert(three.drop_last() =~= seq![c]);
    assert(last_loosest(one) == 1);
    assert(last_loosest(two) == 0);
    assert(last_loosest(three) == 1);
    assert(ts.take(2) =~= seq![x, y]);
    assert(ts.skip(2) =~= seq![z]);
    assert(ts.take(1) =~= seq![x]);
    assert(ts.skip(1) =~= seq![y, z]);
    assert(one.take(1) =~= seq![o]);
    assert(one.skip(2) =~= Seq::<Seq<char>>::empty());
    assert(two.take(0) =~= Seq::<Seq<char>>::empty());
    assert(two.skip(1) =~= seq![o]);
    assert(three.take(1) =~= seq![c]);
    assert(three.skip(2) =~= Seq::<Seq<char>>::empty());
    let xy = seq![x, y];
    let yz = seq![y, z];
    assert(last_loosest(seq![o]) == 0);
    assert(last_loosest(seq![c]) == 0);
    assert(xy.take(1) =~= seq![x]);
    assert(xy.skip(1) =~= seq![y]);
    assert(yz.take(1) =~= seq![y]);
    assert(yz.skip(1) =~= seq![z]);
    assert(seq![o].take(0) =~= Seq::<Seq<char>>::empty());
    assert(seq![o].skip(1) =~= Seq::<Seq<char>>::empty());
    assert(seq![c].take(0) =~= Seq::<Seq<char>>::empty());
    assert(seq![c].skip(1) =~= Seq::<Seq<char>>::empty());
    assert(precedence_tree(seq![x], Seq::<Seq<char>>::empty()) == x);
    assert(precedence_tree(seq![y], Seq::<Seq<char>>::empty()) == y);
    assert(precedence_tree(seq![z], Seq::<Seq<char>>::empty()) == z);
    assert(precedence_tree(xy, seq![o]) == bin(x, o, y));
    assert(precedence_tree(xy, seq![c]) == bin(x, c, y));
    assert(precedence_tree(yz, seq![o]) == bin(y, o, z));
}

} // verus!
