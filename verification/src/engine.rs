//! The decision engine and the middleware evaluation it feeds.
//!
//! Per scope key the engine consumes the record produced by the store's one
//! atomic increment — never a separate check-then-increment — and admits the
//! request exactly when the count is within the rule's quota; a denial
//! carries the window's remaining seconds as a retry hint. Every request,
//! admitted or denied, consumes one increment against each scope it is
//! evaluated under. When the store is unreachable the configured fail policy
//! alone decides: fail-closed denies, fail-open admits.
//!
//! The middleware evaluates the configured rules in order, deny-wins and
//! short-circuiting: the first denying rule ends evaluation, and scopes
//! after it are neither consulted nor charged.

use vstd::prelude::*;

use crate::rules::{Rule, RuleSet};
use crate::scope::{peer_seq, resolve, scope_key_of, RequestInfo};
use crate::store::{record_after, CounterRecord, MemoryStore};

verus! {

/// The outcome for one request: admitted or denied, a denial carrying a
/// best-effort hint of how many seconds remain until the window resets.
#[derive(Clone, Copy, Debug, PartialEq, Eq)]
pub struct Decision {
    pub allowed: bool,
    pub retry_after_secs: Option<u64>,
}

/// The decision that admits a request.
pub open spec fn admitted() -> Decision {
    Decision { allowed: true, retry_after_secs: None }
}

/// The seconds left until `rec`'s window expires, seen from `now`.
pub open spec fn remaining(rec: CounterRecord, now: u64) -> u64 {
    if now < rec.expires_at {
        (rec.expires_at - now) as u64
    } else {
        0
    }
}

/// The decision for one freshly incremented record under one rule: admitted
/// exactly when the count is within the quota, denied otherwise with the
/// window's remaining time as the retry hint.
pub open spec fn decision_for(rec: CounterRecord, max_requests: u64, now: u64) -> Decision {
    if rec.count <= max_requests {
        admitted()
    } else {
        Decision { allowed: false, retry_after_secs: Some(remaining(rec, now)) }
    }
}

/// Decides one scope from the record its increment returned.
pub fn decide(rec: CounterRecord, max_requests: u64, now: u64) -> (d: Decision)
    ensures
        d == decision_for(rec, max_requests, now),
{
    if rec.count <= max_requests {
        Decision { allowed: true, retry_after_secs: None }
    } else {
        let left = if now < rec.expires_at {
            rec.expires_at - now
        } else {
            0
        };
        Decision { allowed: false, retry_after_secs: Some(left) }
    }
}

/// What to do when the counter store cannot be reached.
#[derive(Clone, Copy, Debug, PartialEq, Eq, Structural)]
pub enum FailPolicy {
    /// Admit every request while the store is unreachable (explicit opt-in).
    Open,
    /// Deny every request while the store is unreachable (the safe default).
    Closed,
}

/// What one store round trip came back with.
#[derive(Clone, Copy, Debug, PartialEq, Eq, Structural)]
pub enum StoreOutcome {
    /// The atomic increment succeeded and produced this record.
    Counted(CounterRecord),
    /// The store could not be reached or timed out.
    Unavailable,
}

/// The decision for one scope given the store's outcome: the record decides
/// when the increment succeeded; the fail policy alone decides when the
/// store was unreachable.
pub open spec fn outcome_decision(
    o: StoreOutcome,
    max_requests: u64,
    now: u64,
    policy: FailPolicy,
) -> Decision {
    match o {
        StoreOutcome::Counted(rec) => decision_for(rec, max_requests, now),
        StoreOutcome::Unavailable => match policy {
            FailPolicy::Open => admitted(),
            FailPolicy::Closed => Decision { allowed: false, retry_after_secs: None },
        },
    }
}

/// Decides one scope from a store outcome under the configured fail policy.
pub fn decide_outcome(o: StoreOutcome, max_requests: u64, now: u64, policy: FailPolicy) -> (d:
    Decision)
    ensures
        d == outcome_decision(o, max_requests, now, policy),
{
    match o {
        StoreOutcome::Counted(rec) => decide(rec, max_requests, now),
        StoreOutcome::Unavailable => match policy {
            FailPolicy::Open => Decision { allowed: true, retry_after_secs: None },
            FailPolicy::Closed => Decision { allowed: false, retry_after_secs: None },
        },
    }
}

/// With the store unreachable the fail policy is deterministic: under
/// fail-closed every request is denied, under fail-open every request is
/// admitted, whatever the rule and the time.
pub proof fn lemma_fail_policy_determinism(max_requests: u64, now: u64)
    ensures
        !outcome_decision(StoreOutcome::Unavailable, max_requests, now, FailPolicy::Closed).allowed,
        outcome_decision(StoreOutcome::Unavailable, max_requests, now, FailPolicy::Open).allowed,
{
}

/// The decision engine's step for one scope key: one atomic increment
/// against the store — a denied request still counts — and the decision for
/// the record that came back. No count is cached across requests: every
/// decision is a fresh consultation of the store.
pub fn decide_key(store: &mut MemoryStore, key: &String, rule: Rule, now: u64) -> (d: Decision)
    requires
        old(store).wf(),
    ensures
        final(store).wf(),
        final(store)@ == old(store)@.insert(
            key@,
            record_after(old(store)@, key@, rule.window_secs, now),
        ),
        d == decision_for(
            record_after(old(store)@, key@, rule.window_secs, now),
            rule.max_requests,
            now,
        ),
{
    let rec = store.increment(key, rule.window_secs, now);
    decide(rec, rule.max_requests, now)
}

/// The store and the decision after evaluating the rules from position `i`
/// on, deny-wins and short-circuiting: each rule in turn charges one
/// increment against its scope key; the first denial ends evaluation with
/// that decision and rules after it leave the store untouched; a request no
/// rule denies is admitted.
pub open spec fn eval_from(
    m: Map<Seq<char>, CounterRecord>,
    rules: Seq<Rule>,
    i: int,
    path: Seq<char>,
    peer: Option<Seq<char>>,
    now: u64,
) -> (Map<Seq<char>, CounterRecord>, Decision)
    decreases rules.len() - i,
{
    if i < 0 || i >= rules.len() {
        (m, admitted())
    } else {
        let key = scope_key_of(rules[i].scope, path, peer);
        let rec = record_after(m, key, rules[i].window_secs, now);
        let m2 = m.insert(key, rec);
        let d = decision_for(rec, rules[i].max_requests, now);
        if !d.allowed {
            (m2, d)
        } else {
            eval_from(m2, rules, i + 1, path, peer, now)
        }
    }
}

/// The middleware adapter's work for one request against the in-memory
/// store: evaluates every configured rule in order, charging one increment
/// per evaluated scope, and returns the first denial or, when no rule
/// denies, the admission.
pub fn check_request(store: &mut MemoryStore, rules: &RuleSet, req: &RequestInfo, now: u64) -> (d:
    Decision)
    requires
        old(store).wf(),
    ensures
        final(store).wf(),
        (final(store)@, d) == eval_from(
            old(store)@,
            rules@,
            0,
            req.path@,
            peer_seq(req.peer_addr),
            now,
        ),
{
    let n = rules.len();
    let mut i: usize = 0;
    while i < n
        invariant
            n == rules@.len(),
            0 <= i <= n,
            store.wf(),
            eval_from(old(store)@, rules@, 0, req.path@, peer_seq(req.peer_addr), now)
                == eval_from(store@, rules@, i as int, req.path@, peer_seq(req.peer_addr), now),
        decreases n - i,
    {
        let rule = rules.get(i);
        let key = resolve(rule.scope, req);
        let d = decide_key(store, &key, rule, now);
        if !d.allowed {
            return d;
        }
        i = i + 1;
    }
    Decision { allowed: true, retry_after_secs: None }
}

/// A cursor over the configured rules for one request, for callers whose
/// counter store is an external service: the caller asks for the current
/// scope to charge, performs the store round trip itself, and feeds the
/// outcome back. Deny-wins, short-circuiting and rule order live here; the
/// caller only moves values.
pub struct Evaluation {
    next_rule: usize,
}

impl Evaluation {
    /// The position of the next rule to evaluate.
    pub closed spec fn index(&self) -> int {
        self.next_rule as int
    }

    /// A fresh evaluation, standing before the first rule.
    pub fn new() -> (e: Evaluation)
        ensures
            e.index() == 0,
    {
        Evaluation { next_rule: 0 }
    }

    /// The scope key and rule the caller must charge next, or `None` when
    /// every rule has admitted the request.
    pub fn current(&self, rules: &RuleSet, req: &RequestInfo) -> (r: Option<(String, Rule)>)
        ensures
            match r {
                Some(p) => self.index() < rules@.len() && p.0@ == scope_key_of(
                    rules@[self.index()].scope,
                    req.path@,
                    peer_seq(req.peer_addr),
                ) && p.1 == rules@[self.index()],
                None => self.index() >= rules@.len(),
            },
    {
        if self.next_rule < rules.len() {
            let rule = rules.get(self.next_rule);
            let key = resolve(rule.scope, req);
            Some((key, rule))
        } else {
            None
        }
    }

    /// Feeds back the store outcome for the current rule: a denial ends the
    /// evaluation with that decision; an admission moves on to the next rule.
    pub fn absorb(
        &mut self,
        rules: &RuleSet,
        outcome: StoreOutcome,
        now: u64,
        policy: FailPolicy,
    ) -> (r: Option<Decision>)
        requires
            old(self).index() < rules@.len(),
        ensures
            ({
                let d = outcome_decision(
                    outcome,
                    rules@[old(self).index()].max_requests,
                    now,
                    policy,
                );
                if d.allowed {
                    r is None && final(self).index() == old(self).index() + 1
                } else {
                    r == Some(d) && final(self).index() == old(self).index()
                }
            }),
    {
        let n = rules.len();
        let rule = rules.get(self.next_rule);
        let d = decide_outcome(outcome, rule.max_requests, now, policy);
        if d.allowed {
            assert(self.next_rule < n);
            self.next_rule = self.next_rule + 1;
            None
        } else {
            Some(d)
        }
    }
}

} // verus!
