//! Per-actor retry accounting and the priority ticket gate.
//!
//! Each conflict report raises the actor's counter. Within `max_retries` the
//! actor should simply retry; within the cooldown budget beyond that it
//! should back off; after that it should abort. An actor that exhausts its
//! plain retries takes the priority ticket while it is free, and while an
//! actor holds the ticket every other writer is reported blocked.
use vstd::prelude::*;
use crate::state::{klm_get, klm_set, klm_model};

verus! {

/// What a conflicting actor should do next.
#[derive(Debug, Clone, Copy, PartialEq, Eq, Structural)]
pub enum RetryDecision {
    /// Try again right away.
    Retry,
    /// Wait the given milliseconds, then try again.
    Backoff(u64),
    /// Give up.
    Abort,
}

/// Milliseconds a cooling-down actor is told to wait.
pub const BACKOFF_MS: u64 = 50;

/// Retry accounting for every actor, by name.
pub struct ConflictManager {
    /// Plain retries an actor is granted.
    pub max_retries: u64,
    /// Backoff rounds granted beyond the plain retries.
    pub cooldown_budget: u64,
    /// Conflicts seen per actor since its last success.
    pub counters: Vec<(String, u64)>,
    /// Actor currently holding the priority ticket, if any.
    pub ticket: Option<String>,
}

/// The decision for an actor that has now seen `n` conflicts.
pub open spec fn spec_decision(n: u64, max_retries: u64, cooldown_budget: u64) -> RetryDecision {
    if n <= max_retries {
        RetryDecision::Retry
    } else if n <= max_retries + cooldown_budget {
        RetryDecision::Backoff(BACKOFF_MS)
    } else {
        RetryDecision::Abort
    }
}

/// The counter an actor reaches with one more conflict (saturating).
pub open spec fn spec_bumped(counters: Seq<(Seq<char>, u64)>, actor: Seq<char>) -> u64 {
    match klm_get(counters, actor) {
        Some(n) => if n < u64::MAX {
            (n + 1) as u64
        } else {
            n
        },
        None => 1,
    }
}

impl ConflictManager {
    /// A manager with the given budgets and no history.
    pub fn new(max_retries: u64, cooldown_budget: u64) -> (r: ConflictManager)
        ensures
            r.max_retries == max_retries,
            r.cooldown_budget == cooldown_budget,
            klm_model(r.counters@).len() == 0,
            r.ticket is None,
    {
        ConflictManager { max_retries, cooldown_budget, counters: Vec::new(), ticket: None }
    }

    /// Record one more conflict for the actor and say what it should do:
    /// retry within `max_retries`, back off within the cooldown budget, abort
    /// beyond it. An actor that has used up its plain retries takes the
    /// priority ticket while the ticket is free.
    pub fn report_conflict(&mut self, actor: String) -> (r: RetryDecision)
        ensures
            klm_model(final(self).counters@) == klm_set(
                klm_model(old(self).counters@),
                actor@,
                spec_bumped(klm_model(old(self).counters@), actor@),
            ),
            r == spec_decision(spec_bumped(klm_model(old(self).counters@), actor@), old(self).max_retries, old(self).cooldown_budget),
            final(self).ticket == (if old(self).ticket is None && spec_bumped(klm_model(old(self).counters@), actor@) > old(self).max_retries {
                Some(actor)
            } else {
                old(self).ticket
            }),
            final(self).max_retries == old(self).max_retries,
            final(self).cooldown_budget == old(self).cooldown_budget,
    {
        let prior = crate::state::klm_lookup(&self.counters, &actor);
        let n: u64 = match prior {
            Some(c) => if c < u64::MAX {
                c + 1
            } else {
                c
            },
            None => 1,
        };
        crate::state::klm_bind(&mut self.counters, actor.clone(), n);
        if n > self.max_retries && self.ticket.is_none() {
            self.ticket = Some(actor);
        }
        if n <= self.max_retries {
            RetryDecision::Retry
        } else if n - self.max_retries <= self.cooldown_budget {
            RetryDecision::Backoff(BACKOFF_MS)
        } else {
            RetryDecision::Abort
        }
    }

    /// Forget the actor's conflicts and release its ticket, if it held one.
    pub fn report_success(&mut self, actor: String)
        ensures
            klm_model(final(self).counters@) == klm_set(klm_model(old(self).counters@), actor@, 0),
            final(self).ticket == (match old(self).ticket {
                Some(holder) => if holder@ == actor@ {
                    None::<String>
                } else {
                    old(self).ticket
                },
                None => None::<String>,
            }),
            final(self).max_retries == old(self).max_retries,
            final(self).cooldown_budget == old(self).cooldown_budget,
    {
        let release = match &self.ticket {
            Some(holder) => holder.eq(&actor),
            None => false,
        };
        if release {
            self.ticket = None;
        }
        crate::state::klm_bind(&mut self.counters, actor, 0);
    }

    /// Whether the requester is shut out by the priority ticket: true while
    /// another actor (or, for an anonymous requester, anyone) holds it.
    pub fn is_blocked(&self, requester: Option<&String>) -> (r: bool)
        ensures
            r == (match self.ticket {
                Some(holder) => match requester {
                    Some(name) => holder@ != name@,
                    None => true,
                },
                None => false,
            }),
    {
        match &self.ticket {
            Some(holder) => match requester {
                Some(name) => !holder.eq(name),
                None => true,
            },
            None => false,
        }
    }
}

} // verus!
