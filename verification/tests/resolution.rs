use trx_engine::resolution::{ResolveAction, VariableResolution};

#[test]
fn rounds_go_on_while_something_resolves() {
    let mut r = VariableResolution::new(&vec![false, false, true]);
    assert_eq!(r.action(), ResolveAction::Resolve(0));
    r.record(false);
    assert_eq!(r.action(), ResolveAction::Resolve(1));
    r.record(true);
    assert_eq!(r.action(), ResolveAction::Resolve(0));
    r.record(true);
    assert_eq!(r.action(), ResolveAction::Done);
    assert!(r.is_over());
}

#[test]
fn an_unresolvable_variable_fails_after_the_rounds() {
    let mut r = VariableResolution::new(&vec![false, false]);
    assert_eq!(r.action(), ResolveAction::Resolve(0));
    r.record(true);
    assert_eq!(r.action(), ResolveAction::Resolve(1));
    r.record(false);
    assert_eq!(r.action(), ResolveAction::Resolve(1));
    r.record(false);
    assert_eq!(r.action(), ResolveAction::Check(1));
    r.record(false);
    assert_eq!(r.action(), ResolveAction::Fail(1));
    assert!(r.is_over());
}

#[test]
fn text_variables_need_no_evaluation() {
    let r = VariableResolution::new(&vec![true, true]);
    assert_eq!(r.action(), ResolveAction::Done);
    let r = VariableResolution::new(&Vec::new());
    assert_eq!(r.action(), ResolveAction::Done);
}
