//! `state` declarations: a name and its transitions.

use vstd::prelude::*;
use crate::ast::{StateDeclaration, StateTransition};
use crate::parser::error::ParseError;
use crate::parser::syntax::{Pair, Rule, all_with_rule, children_at_least, with_rule};
use crate::text::{strip_start, trim_start_matches_then_trim, trim_text};

verus! {

/// What a transition node reads as: from, to, and the trigger with its
/// leading colons and surrounding white space removed.
pub open spec fn transition_denotes(t: Pair, tr: StateTransition) -> bool {
    &&& tr.from@ == t.children@[0].text@
    &&& tr.to@ == t.children@[1].text@
    &&& if t.children@.len() > 2 {
        tr.trigger matches Some(g) && g@ == trim_text(strip_start(t.children@[2].text@, |c: char| c == ':'))
    } else {
        tr.trigger is None
    }
}

/// What a state declaration node reads as: its first child names it; its
/// second, when it lists statements, gives one transition per transition
/// node, in order.
pub open spec fn state_decl_denotes(p: Pair, d: StateDeclaration) -> bool {
    &&& d.name@ == p.children@[0].text@
    &&& if p.children@[1].rule == Rule::StateStmts {
        let ts = all_with_rule(p.children@[1].children@, Rule::StateTransition);
        &&& d.transitions@.len() == ts.len()
        &&& forall|i: int| 0 <= i < ts.len() ==> transition_denotes(ts[i], #[trigger] d.transitions@[i])
    } else {
        d.transitions@.len() == 0
    }
}

pub fn parse_state_decl(pair: &Pair) -> (r: Result<StateDeclaration, ParseError>)
    requires
        pair.children@.len() >= 2 ==> children_at_least(pair.children@[1].children@, Rule::StateTransition, 2),
    ensures
        pair.children@.len() < 2 ==> r matches Err(ParseError::MissingId),
        pair.children@.len() >= 2 ==> (r matches Ok(d) && state_decl_denotes(*pair, d)),
{
    if pair.children.len() < 2 {
        return Err(ParseError::MissingId);
    }
    let name = pair.children[0].text.clone();
    let stmts_pair = &pair.children[1];
    let mut transitions: Vec<StateTransition> = Vec::new();
    if stmts_pair.rule == Rule::StateStmts {
        let cs = &stmts_pair.children;
        let mut i: usize = 0;
        while i < cs.len()
            invariant
                i <= cs@.len(),
                children_at_least(cs@, Rule::StateTransition, 2),
                transitions@.len() == with_rule(cs@, Rule::StateTransition, i as int).len(),
                forall|j: int| 0 <= j < transitions@.len() ==> transition_denotes(
                    with_rule(cs@, Rule::StateTransition, i as int)[j],
                    #[trigger] transitions@[j],
                ),
            decreases cs@.len() - i,
        {
            let stmt = &cs[i];
            if stmt.rule == Rule::StateTransition {
                let from = stmt.children[0].text.clone();
                let to = stmt.children[1].text.clone();
                let trigger = if stmt.children.len() > 2 {
                    Some(trim_start_matches_then_trim(stmt.children[2].text.as_str(), ':'))
                } else {
                    None
                };
                let ghost before = transitions@;
                transitions.push(StateTransition { from, to, trigger });
                proof {
                    let w = with_rule(cs@, Rule::StateTransition, i + 1);
                    assert(w == with_rule(cs@, Rule::StateTransition, i as int).push(cs@[i as int]));
                    assert forall|j: int| 0 <= j < transitions@.len() implies transition_denotes(w[j], #[trigger] transitions@[j]) by {
                        if j < before.len() {
                            assert(transitions@[j] == before[j]);
                        }
                    }
                }
            }
            i = i + 1;
        }
    }
    Ok(StateDeclaration { name, transitions })
}

} // verus!
