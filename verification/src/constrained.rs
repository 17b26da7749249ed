//! A **constrained decode**: an answer generated one constrained token at a
//! time.
//!
//! What crosses the compute seam is a permitted token set per step. The first
//! token of a run is drawn by the prefill and every round returns the token
//! the call before it drew, so a run of K steps costs one constrained prefill
//! and K rounds.

use crate::text::{around, decimal};
use crate::types::TokenId;
use vstd::prelude::*;

verus! {

/// The most tokens one step may permit.
pub const MAX_PERMITTED_TOKENS: usize = 32;

/// The tokens one step of a constrained decode may draw from.
pub type PermittedSet = Vec<TokenId>;

/// The permitted sets a constrained request generates under, one per token it
/// will emit. Its length is the request's generation budget; one with a
/// terminator may end before it.
#[derive(Debug, Clone, PartialEq, Eq)]
pub struct Schedule {
    pub steps: Vec<PermittedSet>,
    pub terminator: Option<TokenId>,
}

/// A step can be drawn from: it permits something, and no more than the cap.
pub open spec fn drawable(step: Seq<TokenId>) -> bool {
    0 < step.len() <= MAX_PERMITTED_TOKENS
}

/// The first step past `from` that cannot be drawn from.
pub open spec fn first_undrawable(steps: Seq<PermittedSet>, from: int) -> Option<int>
    decreases steps.len() - from,
{
    if from < 0 || from >= steps.len() {
        None
    } else if !drawable(steps[from]@) {
        Some(from)
    } else {
        first_undrawable(steps, from + 1)
    }
}

/// The step named is the first of those that permit nothing, or more than can
/// be drawn from; where none is named there is none.
pub proof fn the_first_step_refused_is_named(steps: Seq<PermittedSet>, from: int)
    requires
        0 <= from,
    ensures
        match first_undrawable(steps, from) {
            Some(i) => {
                &&& from <= i < steps.len()
                &&& steps[i]@.len() == 0 || steps[i]@.len() > 32
                &&& forall|j: int| from <= j < i ==> 1 <= (#[trigger] steps[j])@.len() <= 32
            },
            None => forall|j: int|
                from <= j < steps.len() ==> 1 <= (#[trigger] steps[j])@.len() <= 32,
        },
    decreases steps.len() - from,
{
    if from < steps.len() {
        the_first_step_refused_is_named(steps, from + 1);
    }
}

/// Why a step is refused.
pub open spec fn step_refusal(index: int, step: Seq<TokenId>) -> Seq<char> {
    if step.len() == 0 {
        "schedule step "@ + decimal(index as nat) + " permits no token at all"@
    } else {
        "schedule step "@ + decimal(index as nat) + " permits "@ + decimal(step.len())
            + " tokens; 32 is the leaf's cap, and a set past it is refused, never truncated"@
    }
}

/// Whether some step permits `token`.
pub open spec fn permits(steps: Seq<PermittedSet>, token: TokenId) -> bool {
    exists|i: int| 0 <= i < steps.len() && (#[trigger] steps[i])@.contains(token)
}

impl Schedule {
    /// At least one step, every step drawable, and a terminator that some step
    /// permits.
    pub open spec fn wf(self) -> bool {
        &&& self.steps@.len() > 0
        &&& forall|i: int| 0 <= i < self.steps@.len() ==> drawable((#[trigger] self.steps@[i])@)
        &&& self.terminator matches Some(t) ==> permits(self.steps@, t)
    }

    /// Build a schedule from its steps, or say which step is refused. A step
    /// is never truncated or widened.
    pub fn new(steps: Vec<Vec<TokenId>>) -> (schedule: Result<Schedule, String>)
        ensures
            schedule is Ok <==> steps@.len() > 0 && first_undrawable(steps@, 0) is None,
            schedule is Ok <==> steps@.len() > 0 && forall|i: int|
                0 <= i < steps@.len() ==> 1 <= (#[trigger] steps@[i])@.len() <= 32,
            schedule matches Ok(s) ==> s.wf() && s.steps@ == steps@ && s.terminator is None,
            schedule matches Err(text) ==> text@ == (if steps@.len() == 0 {
                "a constrained decode must carry at least one step"@
            } else {
                let index = first_undrawable(steps@, 0)->Some_0;
                step_refusal(index, steps@[index]@)
            }),
    {
        if steps.len() == 0 {
            return Err("a constrained decode must carry at least one step".to_owned());
        }
        let mut index: usize = 0;
        proof {
            the_first_step_refused_is_named(steps@, 0);
        }
        while index < steps.len()
            invariant
                index <= steps@.len(),
                steps@.len() > 0,
                first_undrawable(steps@, 0) == first_undrawable(steps@, index as int),
                forall|i: int| 0 <= i < index ==> drawable((#[trigger] steps@[i])@),
            decreases steps@.len() - index,
        {
            let step = &steps[index];
            if step.len() == 0 {
                return Err(around("schedule step ", index as u64, " permits no token at all"));
            }
            if step.len() > MAX_PERMITTED_TOKENS {
                let named = around("schedule step ", index as u64, " permits ");
                return Err(
                    around(
                        named.as_str(),
                        step.len() as u64,
                        " tokens; 32 is the leaf's cap, and a set past it is refused, never truncated",
                    ),
                );
            }
            index = index + 1;
        }
        Ok(Schedule { steps, terminator: None })
    }

    /// The same schedule, ending early when `terminator` is drawn; refused when
    /// no step permits it.
    pub fn ending_on(self, terminator: TokenId) -> (schedule: Result<Schedule, String>)
        requires
            self.wf(),
        ensures
            schedule is Ok <==> permits(self.steps@, terminator),
            schedule is Ok <==> exists|i: int|
                0 <= i < self.steps@.len() && (#[trigger] self.steps@[i])@.contains(terminator),
            schedule matches Ok(s) ==> s.wf() && s.steps == self.steps && s.terminator == Some(
                terminator,
            ),
            schedule matches Err(text) ==> text@ == "token "@ + decimal(terminator as nat)
                + " would end this run, but no step permits it, so it can never be drawn"@,
    {
        let mut found: bool = false;
        let mut i: usize = 0;
        while i < self.steps.len()
            invariant
                i <= self.steps@.len(),
                found == exists|j: int|
                    0 <= j < i && (#[trigger] self.steps@[j])@.contains(terminator),
            decreases self.steps@.len() - i,
        {
            if permitted_by(&self.steps[i], terminator) {
                found = true;
            }
            i = i + 1;
        }
        if !found {
            return Err(
                around(
                    "token ",
                    terminator as u64,
                    " would end this run, but no step permits it, so it can never be drawn",
                ),
            );
        }
        Ok(Schedule { steps: self.steps, terminator: Some(terminator) })
    }

    /// The token that ends this run early, if it has one.
    pub fn terminator(&self) -> (token: Option<TokenId>)
        ensures
            token == self.terminator,
    {
        self.terminator
    }

    /// Whether `token` ends this run.
    pub fn ends_on(&self, token: TokenId) -> (ends: bool)
        ensures
            ends == (self.terminator == Some(token)),
    {
        match self.terminator {
            Some(terminator) => terminator == token,
            None => false,
        }
    }

    /// How many tokens this run may emit.
    pub fn len(&self) -> (n: usize)
        ensures
            n == self.steps@.len(),
    {
        self.steps.len()
    }

    /// Whether there is no step; never, of a schedule [`Schedule::new`] built.
    pub fn is_empty(&self) -> (empty: bool)
        ensures
            empty == (self.steps@.len() == 0),
            self.wf() ==> !empty,
    {
        self.steps.len() == 0
    }

    /// The set step `index` draws from, `None` past the end.
    pub fn step(&self, index: usize) -> (step: Option<PermittedSet>)
        ensures
            step is Some <==> index < self.steps@.len(),
            step matches Some(s) ==> s@ == self.steps@[index as int]@,
    {
        if index < self.steps.len() {
            let step = self.steps[index].clone();
            assert(step@ =~= self.steps@[index as int]@);
            Some(step)
        } else {
            None
        }
    }

    /// The steps, in order.
    pub fn steps(&self) -> (steps: &[PermittedSet])
        ensures
            steps@ == self.steps@,
    {
        self.steps.as_slice()
    }
}

/// Whether `step` permits `token`.
fn permitted_by(step: &Vec<TokenId>, token: TokenId) -> (found: bool)
    ensures
        found == step@.contains(token),
{
    let mut i: usize = 0;
    while i < step.len()
        invariant
            i <= step@.len(),
            forall|j: int| 0 <= j < i ==> step@[j] != token,
        decreases step@.len() - i,
    {
        if step[i] == token {
            assert(step@[i as int] == token);
            return true;
        }
        i = i + 1;
    }
    false
}

/// One token a constrained decode drew, with the bit pattern of its
/// probability within its own permitted set (an IEEE single).
#[derive(Debug, Clone, Copy, PartialEq, Eq, Structural)]
pub struct Draw {
    pub token: TokenId,
    pub probability_bits: u32,
}

} // verus!
