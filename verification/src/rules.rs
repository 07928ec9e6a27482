//! Quota rules and their validated, immutable collection.
//!
//! A rule names a scope (per route or per client address), a maximal number
//! of requests and a time window in seconds. A rule set is built once at
//! startup from plain values; invalid values are rejected then, never at
//! request time.

use vstd::prelude::*;

verus! {

/// The dimension along which a quota is tracked.
#[derive(Clone, Copy, Debug, PartialEq, Eq, Structural)]
pub enum ScopeType {
    /// One counter per normalized request path.
    Route,
    /// One counter per client address.
    ClientIp,
}

/// One quota rule: at most `max_requests` requests per `window_secs` seconds,
/// counted per bucket of the rule's scope.
#[derive(Clone, Copy, Debug, PartialEq, Eq, Structural)]
pub struct Rule {
    pub scope: ScopeType,
    pub max_requests: u64,
    pub window_secs: u64,
}

impl Rule {
    /// A rule is well formed when its quota is positive and its window is
    /// a positive number of seconds.
    pub open spec fn wf(self) -> bool {
        &&& self.max_requests >= 1
        &&& self.window_secs >= 1
    }
}

/// Why a rule set was rejected at startup.
#[derive(Clone, Copy, Debug, PartialEq, Eq, Structural)]
pub enum ConfigError {
    /// The rule at `index` has a zero quota.
    InvalidMaxRequests { index: usize },
    /// The rule at `index` has a zero window.
    InvalidWindow { index: usize },
}

/// The error reported for one invalid rule: a zero quota is reported before
/// a zero window.
pub open spec fn rule_error(r: Rule, i: int) -> ConfigError {
    if r.max_requests < 1 {
        ConfigError::InvalidMaxRequests { index: i as usize }
    } else {
        ConfigError::InvalidWindow { index: i as usize }
    }
}

/// The error for the first rule at or after `i` that is not well formed.
pub open spec fn first_error(entries: Seq<Rule>, i: int) -> ConfigError
    decreases entries.len() - i,
{
    if 0 <= i < entries.len() {
        if !entries[i].wf() {
            rule_error(entries[i], i)
        } else {
            first_error(entries, i + 1)
        }
    } else {
        arbitrary()
    }
}

/// Whether every rule in the sequence is well formed.
pub open spec fn all_wf(entries: Seq<Rule>) -> bool {
    forall|i: int| 0 <= i < entries.len() ==> entries[i].wf()
}

/// What loading a list of rules returns: the rules themselves, in order,
/// when all are well formed, and otherwise the error for the first rule
/// that is not.
pub open spec fn load_spec(entries: Seq<Rule>) -> Result<Seq<Rule>, ConfigError> {
    if all_wf(entries) {
        Ok(entries)
    } else {
        Err(first_error(entries, 0))
    }
}

/// An immutable, validated collection of rules, evaluated per request in
/// the order given at construction.
#[derive(Debug, PartialEq, Eq)]
pub struct RuleSet {
    rules: Vec<Rule>,
}

impl View for RuleSet {
    type V = Seq<Rule>;

    closed spec fn view(&self) -> Seq<Rule> {
        self.rules@
    }
}

impl RuleSet {
    /// Every rule of a rule set is well formed.
    pub open spec fn wf(&self) -> bool {
        all_wf(self@)
    }

    /// Builds a rule set from rules read out of the configuration.
    /// Succeeds, keeping order and values, exactly when every rule is
    /// well formed; otherwise reports the first invalid rule.
    pub fn new(entries: Vec<Rule>) -> (r: Result<RuleSet, ConfigError>)
        ensures
            r is Ok <==> all_wf(entries@),
            match r {
                Ok(rs) => rs@ == entries@ && rs.wf(),
                Err(e) => load_spec(entries@) == Err::<Seq<Rule>, ConfigError>(e),
            },
    {
        let n = entries.len();
        let mut i: usize = 0;
        while i < n
            invariant
                n == entries@.len(),
                0 <= i <= n,
                forall|j: int| 0 <= j < i ==> entries@[j].wf(),
            decreases n - i,
        {
            let r = entries[i];
            if r.max_requests < 1 || r.window_secs < 1 {
                proof {
                    lemma_first_error_skip(entries@, 0, i as int);
                }
                if r.max_requests < 1 {
                    return Err(ConfigError::InvalidMaxRequests { index: i });
                } else {
                    return Err(ConfigError::InvalidWindow { index: i });
                }
            }
            i = i + 1;
        }
        Ok(RuleSet { rules: entries })
    }

    /// How many rules the set holds.
    pub fn len(&self) -> (n: usize)
        ensures
            n == self@.len(),
    {
        self.rules.len()
    }

    /// The rule at position `i`.
    pub fn get(&self, i: usize) -> (r: Rule)
        requires
            i < self@.len(),
        ensures
            r == self@[i as int],
    {
        self.rules[i]
    }
}

/// When every rule before `i` is well formed, the first error at or after 0
/// is the first error at or after `i`.
proof fn lemma_first_error_skip(entries: Seq<Rule>, j: int, i: int)
    requires
        0 <= j <= i <= entries.len(),
        forall|k: int| j <= k < i ==> entries[k].wf(),
    ensures
        first_error(entries, j) == first_error(entries, i),
    decreases i - j,
{
    if j < i {
        lemma_first_error_skip(entries, j + 1, i);
    }
}

/// Loading the same rules twice produces identical rule sets: the result of
/// loading, success or error, is a function of the rule values alone.
pub proof fn lemma_load_idempotent(a: Seq<Rule>, b: Seq<Rule>)
    requires
        a == b,
    ensures
        load_spec(a) == load_spec(b),
{
}

} // verus!
