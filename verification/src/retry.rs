//! When a failed transaction is run again.
//!
//! Running the transaction, and sleeping between two attempts, is the caller's
//! part. What to do after an attempt is decided here.

use vstd::arithmetic::power2::{lemma2_to64, lemma_pow2_strictly_increases, lemma_pow2_unfold, pow2};
use vstd::bits::lemma_u64_shl_is_mul;
use vstd::prelude::*;

use crate::error::{Error, Result};

verus! {

/// The attempt after which a transaction is given up.
pub const MAX_ATTEMPTS: u32 = 100;

/// The attempt from which on the wait no longer grows.
pub const BACKOFF_CEILING: u32 = 10;

/// What to do after an attempt.
#[derive(Debug)]
pub enum Step<R> {
    /// Hand this to the caller.
    Finish(Result<R>),
    /// Wait, then run the transaction again from the top.
    RetryAfter {
        /// How long to wait, in microseconds.
        micros: u64,
    },
}

/// How long to wait after the given failed attempt: twice as long after each,
/// up to a ceiling.
pub open spec fn backoff(attempt: int) -> nat {
    pow2(if attempt < BACKOFF_CEILING {
        attempt as nat
    } else {
        BACKOFF_CEILING as nat
    })
}

/// What follows `outcome`, being that of the given attempt.
pub open spec fn following<R>(attempt: int, outcome: Result<R>) -> Step<R> {
    match outcome {
        Err(e) => if e.retriable() && attempt < MAX_ATTEMPTS {
            Step::RetryAfter { micros: backoff(attempt) as u64 }
        } else {
            Step::Finish(outcome)
        },
        Ok(_) => Step::Finish(outcome),
    }
}

/// The attempts made at one transaction.
#[derive(Debug)]
pub struct Attempts {
    pub made: u32,
}

impl Attempts {
    /// No attempt yet.
    pub fn new() -> (a: Self)
        ensures
            a.made == 0,
    {
        Attempts { made: 0 }
    }

    /// Decide what follows the attempt just made.
    ///
    /// A transaction that could not be placed among the others is run again,
    /// [`MAX_ATTEMPTS`] times at most. Without a growing wait two conflicting
    /// transactions can retry in lockstep and collide at the same point every
    /// time. Everything else is final.
    pub fn after<R>(&mut self, outcome: Result<R>) -> (step: Step<R>)
        requires
            old(self).made < MAX_ATTEMPTS,
        ensures
            final(self).made == old(self).made + 1,
            step == following(final(self).made as int, outcome),
            step is RetryAfter ==> final(self).made < MAX_ATTEMPTS,
    {
        self.made = self.made + 1;
        let again: bool = match &outcome {
            Ok(_) => false,
            Err(e) => e.is_retriable() && self.made < MAX_ATTEMPTS,
        };
        if again {
            let doublings: u64 = if self.made < BACKOFF_CEILING {
                self.made as u64
            } else {
                BACKOFF_CEILING as u64
            };
            proof {
                lemma2_to64();
                if doublings < 10 {
                    lemma_pow2_strictly_increases(doublings as nat, 10);
                }
                lemma_u64_shl_is_mul(1, doublings);
            }
            Step::RetryAfter { micros: 1u64 << doublings }
        } else {
            Step::Finish(outcome)
        }
    }
}

/// However the attempts turn out, the last one allowed is final.
pub proof fn law_retrying_ends<R>(outcome: Result<R>)
    ensures
        following(MAX_ATTEMPTS as int, outcome) == Step::Finish(outcome),
{
}

/// Only conflicts are retried: a mistake in the transaction is reported after
/// the first attempt.
pub proof fn law_only_conflicts_are_retried<R>(attempt: int, outcome: Result<R>)
    ensures
        following(attempt, outcome) is RetryAfter ==> outcome is Err
            && outcome->Err_0.retriable(),
{
}

/// The wait grows from attempt to attempt and never exceeds its ceiling.
pub proof fn law_waits_grow_up_to_a_ceiling(attempt: int)
    requires
        0 < attempt,
    ensures
        2 <= backoff(attempt) <= backoff(attempt + 1) <= 1024,
        attempt < BACKOFF_CEILING ==> backoff(attempt + 1) == 2 * backoff(attempt),
{
    lemma2_to64();
    if attempt < BACKOFF_CEILING {
        lemma_pow2_unfold((attempt + 1) as nat);
        if attempt + 1 < 10 {
            lemma_pow2_strictly_increases((attempt + 1) as nat, 10);
        }
        if 1 < attempt {
            lemma_pow2_strictly_increases(1, attempt as nat);
        }
    }
}

/// A conflict is followed by another attempt, after a wait that doubles with
/// each of the first ten, until a hundred attempts have failed. Every other
/// outcome is handed to the caller as it is.
pub proof fn law_conflicts_are_retried<R>(outcome: Result<R>)
    ensures
        forall|a: Attempts| #[trigger] call_ensures(Attempts::new, (), a) ==> a.made == 0,
        forall|a: &mut Attempts, step: Step<R>| #[trigger]
            call_ensures(Attempts::after::<R>, (a, outcome), step) && a.made < 100 ==> {
                let n = a.made + 1;
                &&& final(a).made == n
                &&& match outcome {
                    Err(Error::WriteConflict { .. }) | Err(Error::SerializationFailure) => if n
                        < 100 {
                        step == Step::<R>::RetryAfter {
                            micros: pow2(
                                if n < 10 {
                                    n as nat
                                } else {
                                    10
                                },
                            ) as u64,
                        }
                    } else {
                        step == Step::Finish(outcome)
                    },
                    _ => step == Step::Finish(outcome),
                }
            },
{
}

} // verus!
