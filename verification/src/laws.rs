//! Laws of the fixed-window counter: what a run of increments on one scope
//! key admits, and that keys never affect one another.

use vstd::prelude::*;

use crate::engine::eval_from;
use crate::rules::Rule;
use crate::scope::scope_key_of;
use crate::store::{active, record_after, sat_add, CounterRecord};

verus! {

/// The store after one increment on `key` at each time in `times`, in order.
pub open spec fn run(
    m: Map<Seq<char>, CounterRecord>,
    key: Seq<char>,
    window: u64,
    times: Seq<u64>,
) -> Map<Seq<char>, CounterRecord>
    decreases times.len(),
{
    if times.len() == 0 {
        m
    } else {
        let rec = record_after(m, key, window, times[0]);
        run(m.insert(key, rec), key, window, times.subrange(1, times.len() as int))
    }
}

/// How many of the increments on `key` at `times` are admitted under a quota
/// of `max` requests.
pub open spec fn admitted_in_run(
    m: Map<Seq<char>, CounterRecord>,
    key: Seq<char>,
    window: u64,
    max: u64,
    times: Seq<u64>,
) -> nat
    decreases times.len(),
{
    if times.len() == 0 {
        0
    } else {
        let rec = record_after(m, key, window, times[0]);
        let head: nat = if rec.count <= max {
            1
        } else {
            0
        };
        head + admitted_in_run(
            m.insert(key, rec),
            key,
            window,
            max,
            times.subrange(1, times.len() as int),
        )
    }
}

/// How many of `n` further requests are admitted when the window's counter
/// already stands at `c` under a quota of `max`.
pub open spec fn admitted_from(c: u64, max: u64, n: nat) -> nat {
    if c >= max {
        0
    } else if c + n <= max {
        n
    } else {
        (max - c) as nat
    }
}

/// Inside one live window the counter rises by exactly one per request and
/// admissions follow the quota: starting from count `c`, a run of requests
/// all before the window's expiry admits `admitted_from(c, max, n)` of them.
proof fn lemma_run_in_window(
    m: Map<Seq<char>, CounterRecord>,
    key: Seq<char>,
    window: u64,
    max: u64,
    times: Seq<u64>,
)
    requires
        m.dom().contains(key),
        forall|i: int| 0 <= i < times.len() ==> times[i] < m[key].expires_at,
        m[key].count + times.len() <= u64::MAX,
    ensures
        admitted_in_run(m, key, window, max, times) == admitted_from(
            m[key].count,
            max,
            times.len(),
        ),
        run(m, key, window, times).dom().contains(key),
        run(m, key, window, times)[key].count == m[key].count + times.len(),
        run(m, key, window, times)[key].expires_at == m[key].expires_at,
    decreases times.len(),
{
    if times.len() > 0 {
        let rec = record_after(m, key, window, times[0]);
        assert(active(m, key, times[0]));
        assert(rec.count == m[key].count + 1);
        let m2 = m.insert(key, rec);
        let rest = times.subrange(1, times.len() as int);
        assert(forall|i: int| 0 <= i < rest.len() ==> rest[i] == times[i + 1]);
        lemma_run_in_window(m2, key, window, max, rest);
    }
}

/// Within any single window, the number of admitted requests for one scope
/// never exceeds the rule's quota: a run that starts a fresh window and
/// stays inside it admits exactly the first `max` requests, and so never
/// more than `max`.
pub proof fn lemma_window_admission_bound(
    m: Map<Seq<char>, CounterRecord>,
    key: Seq<char>,
    window: u64,
    max: u64,
    times: Seq<u64>,
)
    requires
        max >= 1,
        times.len() >= 1,
        times.len() <= u64::MAX,
        !active(m, key, times[0]),
        forall|i: int| 1 <= i < times.len() ==> #[trigger] times[i] < sat_add(times[0], window),
    ensures
        admitted_in_run(m, key, window, max, times) == if times.len() <= max {
            times.len()
        } else {
            max as nat
        },
        admitted_in_run(m, key, window, max, times) <= max,
{
    let rec = record_after(m, key, window, times[0]);
    assert(rec.count == 1 && rec.expires_at == sat_add(times[0], window));
    let m2 = m.insert(key, rec);
    let rest = times.subrange(1, times.len() as int);
    assert(forall|i: int| 0 <= i < rest.len() ==> rest[i] == times[i + 1]);
    lemma_run_in_window(m2, key, window, max, rest);
}

/// Charging the times `a` and then the times `b` is one run over `a + b`,
/// and the admissions add up.
proof fn lemma_run_split(
    m: Map<Seq<char>, CounterRecord>,
    key: Seq<char>,
    window: u64,
    max: u64,
    a: Seq<u64>,
    b: Seq<u64>,
)
    ensures
        run(m, key, window, a + b) == run(run(m, key, window, a), key, window, b),
        admitted_in_run(m, key, window, max, a + b) == admitted_in_run(m, key, window, max, a)
            + admitted_in_run(run(m, key, window, a), key, window, max, b),
    decreases a.len(),
{
    if a.len() == 0 {
        assert(a + b =~= b);
    } else {
        let rec = record_after(m, key, window, a[0]);
        let m2 = m.insert(key, rec);
        assert((a + b)[0] == a[0]);
        assert((a + b).subrange(1, (a + b).len() as int) =~= a.subrange(1, a.len() as int) + b);
        lemma_run_split(m2, key, window, max, a.subrange(1, a.len() as int), b);
    }
}

/// The documented boundary case: requests straddling one window-reset seam —
/// a run filling one window followed by a run filling the next — admit at
/// most twice the quota across the two adjacent windows.
pub proof fn lemma_seam_burst_bound(
    m: Map<Seq<char>, CounterRecord>,
    key: Seq<char>,
    window: u64,
    max: u64,
    a: Seq<u64>,
    b: Seq<u64>,
)
    requires
        max >= 1,
        1 <= a.len() <= u64::MAX,
        1 <= b.len() <= u64::MAX,
        !active(m, key, a[0]),
        forall|i: int| 1 <= i < a.len() ==> #[trigger] a[i] < sat_add(a[0], window),
        !active(run(m, key, window, a), key, b[0]),
        forall|i: int| 1 <= i < b.len() ==> #[trigger] b[i] < sat_add(b[0], window),
    ensures
        admitted_in_run(m, key, window, max, a + b) <= 2 * max,
{
    lemma_run_split(m, key, window, max, a, b);
    lemma_window_admission_bound(m, key, window, max, a);
    lemma_window_admission_bound(run(m, key, window, a), key, window, max, b);
}

/// The store after one whole middleware evaluation per time in `times`:
/// what a sequence of requests with the same path and peer leaves behind.
pub open spec fn checks_from(
    m: Map<Seq<char>, CounterRecord>,
    rules: Seq<Rule>,
    path: Seq<char>,
    peer: Option<Seq<char>>,
    times: Seq<u64>,
) -> Map<Seq<char>, CounterRecord>
    decreases times.len(),
{
    if times.len() == 0 {
        m
    } else {
        checks_from(
            eval_from(m, rules, 0, path, peer, times[0]).0,
            rules,
            path,
            peer,
            times.subrange(1, times.len() as int),
        )
    }
}

/// How many of those evaluations admit the request.
pub open spec fn admitted_checks(
    m: Map<Seq<char>, CounterRecord>,
    rules: Seq<Rule>,
    path: Seq<char>,
    peer: Option<Seq<char>>,
    times: Seq<u64>,
) -> nat
    decreases times.len(),
{
    if times.len() == 0 {
        0
    } else {
        let head: nat = if eval_from(m, rules, 0, path, peer, times[0]).1.allowed {
            1
        } else {
            0
        };
        head + admitted_checks(
            eval_from(m, rules, 0, path, peer, times[0]).0,
            rules,
            path,
            peer,
            times.subrange(1, times.len() as int),
        )
    }
}

/// Under a single configured rule, a middleware evaluation is exactly one
/// increment-and-decide on that rule's scope key.
proof fn lemma_one_rule_run(
    m: Map<Seq<char>, CounterRecord>,
    rule: Rule,
    path: Seq<char>,
    peer: Option<Seq<char>>,
    times: Seq<u64>,
)
    ensures
        checks_from(m, seq![rule], path, peer, times) == run(
            m,
            scope_key_of(rule.scope, path, peer),
            rule.window_secs,
            times,
        ),
        admitted_checks(m, seq![rule], path, peer, times) == admitted_in_run(
            m,
            scope_key_of(rule.scope, path, peer),
            rule.window_secs,
            rule.max_requests,
            times,
        ),
    decreases times.len(),
{
    if times.len() > 0 {
        let key = scope_key_of(rule.scope, path, peer);
        let rec = record_after(m, key, rule.window_secs, times[0]);
        let m2 = m.insert(key, rec);
        assert(eval_from(m2, seq![rule], 1, path, peer, times[0]).0 == m2);
        assert(eval_from(m, seq![rule], 0, path, peer, times[0]).0 == m2);
        assert(eval_from(m, seq![rule], 0, path, peer, times[0]).1.allowed == (rec.count
            <= rule.max_requests));
        lemma_one_rule_run(m2, rule, path, peer, times.subrange(1, times.len() as int));
    }
}

/// The admission bound at the middleware boundary: with one configured rule,
/// the requests one scope's window admits — over whole middleware
/// evaluations, exactly what `check_request` performs per request — never
/// exceed the rule's quota.
pub proof fn lemma_middleware_window_bound(
    m: Map<Seq<char>, CounterRecord>,
    rule: Rule,
    path: Seq<char>,
    peer: Option<Seq<char>>,
    times: Seq<u64>,
)
    requires
        rule.wf(),
        1 <= times.len() <= u64::MAX,
        !active(m, scope_key_of(rule.scope, path, peer), times[0]),
        forall|i: int|
            1 <= i < times.len() ==> #[trigger] times[i] < sat_add(times[0], rule.window_secs),
    ensures
        admitted_checks(m, seq![rule], path, peer, times) <= rule.max_requests,
{
    lemma_one_rule_run(m, rule, path, peer, times);
    lemma_window_admission_bound(
        m,
        scope_key_of(rule.scope, path, peer),
        rule.window_secs,
        rule.max_requests,
        times,
    );
}

/// Requests mapped to different scope keys never affect each other's
/// counters: a run of increments on `a` leaves `b`'s record — and with it
/// the decision any later request under `b` receives — exactly as it was.
pub proof fn lemma_scope_isolation(
    m: Map<Seq<char>, CounterRecord>,
    a: Seq<char>,
    b: Seq<char>,
    window: u64,
    times: Seq<u64>,
)
    requires
        a != b,
    ensures
        run(m, a, window, times).dom().contains(b) == m.dom().contains(b),
        m.dom().contains(b) ==> run(m, a, window, times)[b] == m[b],
        forall|w2: u64, t: u64|
            #[trigger] record_after(run(m, a, window, times), b, w2, t) == record_after(
                m,
                b,
                w2,
                t,
            ),
    decreases times.len(),
{
    if times.len() > 0 {
        let rec = record_after(m, a, window, times[0]);
        lemma_scope_isolation(
            m.insert(a, rec),
            a,
            b,
            window,
            times.subrange(1, times.len() as int),
        );
    }
}

} // verus!
