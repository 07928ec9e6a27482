//! Scope resolution: from a request and a rule's scope to the key that names
//! the counter bucket the request is charged against.
//!
//! Resolution is pure and total. For the route scope the key is derived from
//! the normalized path: the query string and trailing slashes are ignored by
//! design, so `/hello`, `/hello/` and `/hello?x=1` share one bucket. For the
//! client-address scope the key is derived from the peer address as handed in
//! by the caller, which must take it from the direct socket peer — a
//! forwarded-for header is spoofable and must not be used as the source.
//! A request without a determinable peer address falls back to one shared
//! `unknown` bucket, a deliberate policy rather than a failure.

use vstd::prelude::*;

use crate::rules::ScopeType;

verus! {

/// The attributes of one inbound request that scope resolution reads.
pub struct RequestInfo {
    /// The raw request path, possibly with a query string and trailing
    /// slashes.
    pub path: String,
    /// The direct socket peer address, when one could be determined.
    pub peer_addr: Option<String>,
}

/// The view of an optional peer address.
pub open spec fn peer_seq(p: Option<String>) -> Option<Seq<char>> {
    match p {
        Some(s) => Some(s@),
        None => None,
    }
}

/// The position of the first `?` in `p` at or after `i`, or `p.len()` when
/// there is none.
pub open spec fn query_end(p: Seq<char>, i: int) -> int
    decreases p.len() - i,
{
    if 0 <= i < p.len() {
        if p[i] == '?' {
            i
        } else {
            query_end(p, i + 1)
        }
    } else {
        i
    }
}

/// The length of `p`'s prefix of the first `j` characters once trailing `/`
/// characters are removed.
pub open spec fn strip_end(p: Seq<char>, j: int) -> int
    decreases j,
{
    if j <= 0 {
        0
    } else if p[j - 1] == '/' {
        strip_end(p, j - 1)
    } else {
        j
    }
}

/// The normalized path: everything from the first `?` on is cut, then
/// trailing slashes are removed; a path that is left empty becomes `/`.
pub open spec fn normal_path(p: Seq<char>) -> Seq<char> {
    let k = strip_end(p, query_end(p, 0));
    if k == 0 {
        seq!['/']
    } else {
        p.subrange(0, k)
    }
}

/// The prefix of every route-scope key.
pub open spec fn route_prefix() -> Seq<char> {
    seq!['r', 'o', 'u', 't', 'e', ':']
}

/// The prefix of every client-address-scope key.
pub open spec fn ip_prefix() -> Seq<char> {
    seq!['i', 'p', ':']
}

/// The shared bucket name for requests without a determinable peer address.
pub open spec fn unknown_peer() -> Seq<char> {
    seq!['u', 'n', 'k', 'n', 'o', 'w', 'n']
}

/// The scope key a request is charged against under the given scope type.
/// Two requests share a quota exactly when they map to the same key.
pub open spec fn scope_key_of(scope: ScopeType, path: Seq<char>, peer: Option<Seq<char>>) -> Seq<
    char,
> {
    match scope {
        ScopeType::Route => route_prefix() + normal_path(path),
        ScopeType::ClientIp => match peer {
            Some(a) => ip_prefix() + a,
            None => ip_prefix() + unknown_peer(),
        },
    }
}

/// When no character in `[i, e)` is `?` and `e` is the end or a `?`, the
/// first `?` at or after `i` is at `e`.
proof fn lemma_query_end_at(p: Seq<char>, i: int, e: int)
    requires
        0 <= i <= e <= p.len(),
        forall|j: int| i <= j < e ==> p[j] != '?',
        e == p.len() || p[e] == '?',
    ensures
        query_end(p, i) == e,
    decreases e - i,
{
    if i < e {
        lemma_query_end_at(p, i + 1, e);
    }
}

/// Normalizes a request path: cuts the query string and trailing slashes,
/// and maps a path left empty to `/`.
pub fn normalize_path(path: &str) -> (r: String)
    ensures
        r@ == normal_path(path@),
{
    let len = path.unicode_len();
    let mut qe: usize = 0;
    while qe < len && path.get_char(qe) != '?'
        invariant
            0 <= qe <= len,
            len == path@.len(),
            forall|j: int| 0 <= j < qe ==> path@[j] != '?',
        decreases len - qe,
    {
        qe = qe + 1;
    }
    proof {
        lemma_query_end_at(path@, 0, qe as int);
    }
    let mut k: usize = qe;
    while k > 0 && path.get_char(k - 1) == '/'
        invariant
            0 <= k <= qe <= len,
            len == path@.len(),
            strip_end(path@, qe as int) == strip_end(path@, k as int),
        decreases k,
    {
        k = k - 1;
    }
    assert(strip_end(path@, k as int) == k as int);
    if k == 0 {
        let r = String::from_str("/");
        proof {
            reveal_strlit("/");
            assert(r@ =~= seq!['/']);
        }
        r
    } else {
        let r = path.substring_char(0, k).to_owned();
        r
    }
}

/// Resolves the scope key of a request under one scope type: the normalized
/// path for the route scope, the peer address — or the shared `unknown`
/// bucket — for the client-address scope.
pub fn resolve(scope: ScopeType, req: &RequestInfo) -> (k: String)
    ensures
        k@ == scope_key_of(scope, req.path@, peer_seq(req.peer_addr)),
{
    match scope {
        ScopeType::Route => {
            let mut s = String::from_str("route:");
            proof {
                reveal_strlit("route:");
                assert(s@ =~= route_prefix());
            }
            let n = normalize_path(req.path.as_str());
            s.append(n.as_str());
            s
        },
        ScopeType::ClientIp => {
            let mut s = String::from_str("ip:");
            proof {
                reveal_strlit("ip:");
                assert(s@ =~= ip_prefix());
            }
            match &req.peer_addr {
                Some(a) => {
                    s.append(a.as_str());
                },
                None => {
                    let u = String::from_str("unknown");
                    proof {
                        reveal_strlit("unknown");
                        assert(u@ =~= unknown_peer());
                    }
                    s.append(u.as_str());
                },
            }
            s
        },
    }
}

/// A route-scope key and a client-address-scope key never collide: the two
/// scopes count in disjoint buckets.
pub proof fn lemma_scope_kinds_disjoint(
    path: Seq<char>,
    path2: Seq<char>,
    peer: Option<Seq<char>>,
    peer2: Option<Seq<char>>,
)
    ensures
        scope_key_of(ScopeType::Route, path, peer) != scope_key_of(
            ScopeType::ClientIp,
            path2,
            peer2,
        ),
{
    let rk = scope_key_of(ScopeType::Route, path, peer);
    let ik = scope_key_of(ScopeType::ClientIp, path2, peer2);
    assert(rk[0] == 'r');
    assert(ik[0] == 'i');
}

/// Appending to one prefix is injective: equal results mean equal suffixes.
proof fn lemma_append_cancels(a: Seq<char>, x: Seq<char>, y: Seq<char>)
    requires
        a + x == a + y,
    ensures
        x == y,
{
    assert(x =~= (a + x).subrange(a.len() as int, (a + x).len() as int));
    assert(y =~= (a + y).subrange(a.len() as int, (a + y).len() as int));
}

/// Two requests share a route bucket exactly when their normalized paths
/// are equal.
pub proof fn lemma_route_key_injective(
    p1: Seq<char>,
    p2: Seq<char>,
    peer1: Option<Seq<char>>,
    peer2: Option<Seq<char>>,
)
    ensures
        scope_key_of(ScopeType::Route, p1, peer1) == scope_key_of(ScopeType::Route, p2, peer2)
            <==> normal_path(p1) == normal_path(p2),
{
    if scope_key_of(ScopeType::Route, p1, peer1) == scope_key_of(ScopeType::Route, p2, peer2) {
        lemma_append_cancels(route_prefix(), normal_path(p1), normal_path(p2));
    }
}

/// Two requests with determinable peer addresses share a client-address
/// bucket exactly when those addresses are equal.
pub proof fn lemma_ip_key_injective(p1: Seq<char>, p2: Seq<char>, a1: Seq<char>, a2: Seq<char>)
    ensures
        scope_key_of(ScopeType::ClientIp, p1, Some(a1)) == scope_key_of(
            ScopeType::ClientIp,
            p2,
            Some(a2),
        ) <==> a1 == a2,
{
    if scope_key_of(ScopeType::ClientIp, p1, Some(a1)) == scope_key_of(
        ScopeType::ClientIp,
        p2,
        Some(a2),
    ) {
        lemma_append_cancels(ip_prefix(), a1, a2);
    }
}

} // verus!
