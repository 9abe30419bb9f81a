//! Resolving a project's variables: each round tries every variable still
//! unresolved, in order, keeping the values that come out; rounds go on
//! while one of them resolves something, and then each variable still
//! unresolved is evaluated once more, the first failure ending it all.
//! Evaluating is left to the caller (it works on floating-point numbers):
//! [`VariableResolution`] says which variable to evaluate next and is told
//! whether that worked.

use vstd::prelude::*;

verus! {

/// What to do next.
#[derive(Debug, Clone, Copy, PartialEq, Eq)]
pub enum ResolveAction {
    /// Evaluate variable `i` and keep its value if that works.
    Resolve(usize),
    /// Evaluate variable `i` again; a failure ends the resolution.
    Check(usize),
    /// Every variable is settled.
    Done,
    /// Variable `i` could not be evaluated: the resolution fails with its
    /// error.
    Fail(usize),
}

/// The state of resolving a project's variables, by index.
pub struct VariableResolution {
    /// The variables not resolved yet, in order.
    pub pending: Vec<usize>,
    /// The variables the current round (or the final check) goes through.
    pub queue: Vec<usize>,
    /// How far through `queue` it has gone.
    pub pos: usize,
    /// Whether the rounds are over and the remaining variables are checked.
    pub finishing: bool,
    /// The variable whose final check failed, if one has.
    pub failed: Option<usize>,
}

/// The variables among `queue[..pos]` are those of `pending` before the
/// variables still to visit, and those are `queue[pos..]`.
pub open spec fn wf(r: VariableResolution) -> bool {
    &&& r.pos <= r.queue@.len()
    &&& r.pending@.len() >= r.queue@.len() - r.pos
    &&& r.pending@.len() <= r.queue@.len()
    &&& r.pending@.subrange(r.pending@.len() - (r.queue@.len() - r.pos), r.pending@.len() as int) == r.queue@.subrange(
        r.pos as int,
        r.queue@.len() as int,
    )
    &&& r.finishing ==> r.pending@ == r.queue@
    &&& r.failed is Some ==> r.finishing
}

/// What comes next in a state.
pub open spec fn action_of(r: VariableResolution) -> ResolveAction {
    match r.failed {
        Some(i) => ResolveAction::Fail(i),
        None => if r.pos < r.queue@.len() {
            if r.finishing {
                ResolveAction::Check(r.queue@[r.pos as int])
            } else {
                ResolveAction::Resolve(r.queue@[r.pos as int])
            }
        } else {
            ResolveAction::Done
        },
    }
}

/// The state after the round's visits, when the last one has just been
/// made: another round over what is still pending when the round resolved
/// something and something is left, else the final check of what is left.
pub open spec fn round_over(pending: Seq<usize>, queue_len: nat, r: VariableResolution) -> bool {
    &&& r.pending@ == pending
    &&& r.queue@ == pending
    &&& r.pos == 0
    &&& r.failed is None
    &&& r.finishing == !(pending.len() > 0 && pending.len() < queue_len)
}

/// How far from the end a state is: the phase, the size of the round, and
/// the visits left (a failure counting as the last).
pub open spec fn progress(r: VariableResolution) -> (int, int, int) {
    (
        if r.finishing { 0 } else { 1 },
        if r.finishing { 0 } else { r.queue@.len() as int },
        r.queue@.len() - r.pos + if r.failed is None { 1int } else { 0int },
    )
}

/// `a` comes before `b` in the lexicographic order.
pub open spec fn lex_less(a: (int, int, int), b: (int, int, int)) -> bool {
    ||| a.0 < b.0
    ||| a.0 == b.0 && a.1 < b.1
    ||| a.0 == b.0 && a.1 == b.1 && a.2 < b.2
}

impl VariableResolution {
    /// Starts resolving `is_text.len()` variables; those whose expression is
    /// text are settled from the start, the others make up the first round.
    pub fn new(is_text: &Vec<bool>) -> (r: Self)
        ensures
            wf(r),
            r.pending@ == r.queue@,
            r.pos == 0,
            !r.finishing,
            r.failed is None,
            forall|i: int| 0 <= i < r.pending@.len() ==> #[trigger] r.pending@[i] < is_text@.len() && !is_text@[r.pending@[i] as int],
            forall|i: int, j: int| 0 <= i < j < r.pending@.len() ==> r.pending@[i] < r.pending@[j],
            forall|k: int| 0 <= k < is_text@.len() && !is_text@[k] ==> r.pending@.contains(k as usize),
    {
        let mut pending: Vec<usize> = Vec::new();
        let mut k: usize = 0;
        while k < is_text.len()
            invariant
                k <= is_text@.len(),
                forall|i: int| 0 <= i < pending@.len() ==> #[trigger] pending@[i] < k && !is_text@[pending@[i] as int],
                forall|i: int, j: int| 0 <= i < j < pending@.len() ==> pending@[i] < pending@[j],
                forall|m: int| 0 <= m < k && !is_text@[m] ==> pending@.contains(m as usize),
            decreases is_text@.len() - k,
        {
            if !is_text[k] {
                let ghost before = pending@;
                pending.push(k);
                proof {
                    assert forall|m: int| 0 <= m < k + 1 && !is_text@[m] implies pending@.contains(m as usize) by {
                        if m < k {
                            let w = choose|w: int| 0 <= w < before.len() && before[w] == m as usize;
                            assert(pending@[w] == before[w]);
                        } else {
                            assert(pending@[before.len() as int] == k);
                        }
                    }
                }
            }
            k = k + 1;
        }
        let queue = pending.clone();
        proof {
            assert(queue@ == pending@);
            assert(pending@.subrange(0, pending@.len() as int) =~= pending@);
            assert(queue@.subrange(0, queue@.len() as int) =~= queue@);
        }
        VariableResolution { pending, queue, pos: 0, finishing: false, failed: None }
    }

    /// What to do next.
    pub fn action(&self) -> (a: ResolveAction)
        ensures
            a == action_of(*self),
    {
        match self.failed {
            Some(i) => ResolveAction::Fail(i),
            None => if self.pos < self.queue.len() {
                if self.finishing {
                    ResolveAction::Check(self.queue[self.pos])
                } else {
                    ResolveAction::Resolve(self.queue[self.pos])
                }
            } else {
                ResolveAction::Done
            },
        }
    }

    /// Takes the outcome of the evaluation that [`action`](Self::action)
    /// asked for: `worked` tells whether the variable evaluated.
    pub fn record(&mut self, worked: bool)
        requires
            wf(*old(self)),
            old(self).failed is None,
            old(self).pos < old(self).queue@.len(),
        ensures
            wf(*final(self)),
            lex_less(progress(*final(self)), progress(*old(self))),
            old(self).finishing ==> {
                &&& final(self).pending == old(self).pending
                &&& final(self).queue == old(self).queue
                &&& final(self).finishing
                &&& if worked {
                    final(self).pos == old(self).pos + 1 && final(self).failed is None
                } else {
                    final(self).pos == old(self).pos && final(self).failed == Some(
                        old(self).queue@[old(self).pos as int],
                    )
                }
            },
            !old(self).finishing ==> {
                let n = old(self).pending@.len() as int;
                let left = old(self).queue@.len() - old(self).pos;
                let pending = if worked {
                    old(self).pending@.remove(n - left)
                } else {
                    old(self).pending@
                };
                if old(self).pos + 1 < old(self).queue@.len() {
                    &&& final(self).pending@ == pending
                    &&& final(self).queue == old(self).queue
                    &&& final(self).pos == old(self).pos + 1
                    &&& !final(self).finishing
                    &&& final(self).failed is None
                } else {
                    round_over(pending, old(self).queue@.len(), *final(self))
                }
            },
    {
        let ghost old_self = *self;
        let qlen = self.queue.len();
        assert(self.pos < qlen);
        if self.finishing {
            if worked {
                self.pos = self.pos + 1;
            } else {
                self.failed = Some(self.queue[self.pos]);
            }
            proof {
                if worked {
                    assert(self.pending@.subrange(self.pending@.len() - (self.queue@.len() - self.pos), self.pending@.len() as int)
                        =~= self.queue@.subrange(self.pos as int, self.queue@.len() as int));
                }
            }
            return;
        }
        let n = self.pending.len();
        let left = self.queue.len() - self.pos;
        if worked {
            self.pending.remove(n - left);
            proof {
                let p0 = old_self.pending@;
                let q0 = old_self.queue@;
                assert(p0.subrange(n - left, n as int)[0] == q0.subrange(old_self.pos as int, q0.len() as int)[0]);
                assert(self.pending@.subrange(self.pending@.len() - (left - 1), self.pending@.len() as int) =~= p0.subrange(
                    n - left + 1,
                    n as int,
                ));
                assert(p0.subrange(n - left + 1, n as int) =~= p0.subrange(n - left, n as int).subrange(1, left as int));
                assert(q0.subrange(old_self.pos + 1, q0.len() as int) =~= q0.subrange(old_self.pos as int, q0.len() as int).subrange(
                    1,
                    left as int,
                ));
            }
        } else {
            proof {
                let p0 = old_self.pending@;
                let q0 = old_self.queue@;
                assert(p0.subrange(n - (left - 1), n as int) =~= p0.subrange(n - left, n as int).subrange(1, left as int));
                assert(q0.subrange(old_self.pos + 1, q0.len() as int) =~= q0.subrange(old_self.pos as int, q0.len() as int).subrange(
                    1,
                    left as int,
                ));
            }
        }
        self.pos = self.pos + 1;
        if self.pos == self.queue.len() {
            let again = self.pending.len() > 0 && self.pending.len() < self.queue.len();
            self.queue = self.pending.clone();
            self.pos = 0;
            self.finishing = !again;
            proof {
                assert(self.pending@.subrange(self.pending@.len() - (self.queue@.len() - self.pos), self.pending@.len() as int)
                    =~= self.pending@);
                assert(self.queue@.subrange(self.pos as int, self.queue@.len() as int) =~= self.queue@);
            }
        }
    }

    /// Whether the resolution has ended, with every variable settled or one
    /// failing.
    pub fn is_over(&self) -> (b: bool)
        ensures
            b == !(action_of(*self) is Resolve || action_of(*self) is Check),
    {
        self.failed.is_some() || self.pos >= self.queue.len()
    }
}

} // verus!
