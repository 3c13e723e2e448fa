//! Parsing of the HTTP request line and the dispatch decision.
//!
//! A request line has the shape `METHOD SP PATH SP VERSION`. The line is
//! split on single spaces; with fewer than two tokens, or with a method
//! token outside the closed method set, the request is malformed and the
//! caller owes the client the fallback response.

use vstd::prelude::*;
use crate::router::{Method, Router, map_route};

verus! {

/// Length of the leading run of non-space characters of `s`.
pub open spec fn token_len(s: Seq<char>) -> int
    decreases s.len(),
{
    if s.len() == 0 {
        0
    } else if s[0] == ' ' {
        0
    } else {
        1 + token_len(s.drop_first())
    }
}

/// The method named by a token, if it is one of the closed set.
pub open spec fn method_of(tok: Seq<char>) -> Option<Method> {
    if tok == "GET"@ {
        Some(Method::GET)
    } else if tok == "POST"@ {
        Some(Method::POST)
    } else if tok == "PUT"@ {
        Some(Method::PUT)
    } else if tok == "DELETE"@ {
        Some(Method::DELETE)
    } else {
        None
    }
}

/// The method and path of a request line: its first token read as a
/// method and its second token as the path. `None` when the line has
/// fewer than two tokens (in particular when it is empty) or when the
/// method token is not recognized.
pub open spec fn request_target(line: Seq<char>) -> Option<(Method, Seq<char>)> {
    let k = token_len(line);
    if k == line.len() {
        None
    } else {
        let rest = line.skip(k + 1);
        match method_of(line.take(k)) {
            Some(m) => Some((m, rest.take(token_len(rest)))),
            None => None,
        }
    }
}

proof fn lemma_token_len_at(s: Seq<char>, k: int)
    requires
        0 <= k <= s.len(),
        forall|t: int| 0 <= t < k ==> s[t] != ' ',
        k < s.len() ==> s[k] == ' ',
    ensures
        token_len(s) == k,
    decreases s.len(),
{
    if k == 0 {
    } else {
        let d = s.drop_first();
        assert(s[0] != ' ');
        assert forall|t: int| 0 <= t < k - 1 implies d[t] != ' ' by {
            assert(d[t] == s[t + 1]);
        }
        if k - 1 < d.len() {
            assert(d[k - 1] == s[k]);
        }
        lemma_token_len_at(d, k - 1);
    }
}

/// Index of the first space at or after `from`, or the length of `line`.
fn find_space(line: &str, from: usize) -> (k: usize)
    requires
        from <= line@.len(),
    ensures
        from <= k <= line@.len(),
        forall|t: int| from <= t < k ==> line@[t] != ' ',
        k < line@.len() ==> line@[k as int] == ' ',
{
    let n = line.unicode_len();
    let mut k = from;
    while k < n
        invariant
            n == line@.len(),
            from <= k <= n,
            forall|t: int| from <= t < k ==> line@[t] != ' ',
        decreases n - k,
    {
        if line.get_char(k) == ' ' {
            return k;
        }
        k = k + 1;
    }
    k
}

/// The method named by `tok`, if any.
fn method_from_name(tok: &str) -> (r: Option<Method>)
    ensures
        r == method_of(tok@),
{
    let t = String::from_str(tok);
    if t == String::from_str("GET") {
        Some(Method::GET)
    } else if t == String::from_str("POST") {
        Some(Method::POST)
    } else if t == String::from_str("PUT") {
        Some(Method::PUT)
    } else if t == String::from_str("DELETE") {
        Some(Method::DELETE)
    } else {
        None
    }
}

/// Splits a request line on single spaces and reads its method and path
/// tokens, exactly as `request_target` states.
pub fn parse_request_line(line: &str) -> (r: Option<(Method, String)>)
    ensures
        r is Some <==> request_target(line@) is Some,
        r is Some ==> (r->0).0 == (request_target(line@)->0).0 && (r->0).1@ == (request_target(
            line@,
        )->0).1,
{
    let n = line.unicode_len();
    let k = find_space(line, 0);
    proof {
        lemma_token_len_at(line@, k as int);
    }
    if k == n {
        return None;
    }
    let tok = line.substring_char(0, k);
    proof {
        assert(tok@ =~= line@.take(k as int));
    }
    match method_from_name(tok) {
        None => None,
        Some(m) => {
            let k2 = find_space(line, k + 1);
            proof {
                let rest = line@.skip(k + 1);
                assert forall|t: int| 0 <= t < k2 - (k + 1) implies rest[t] != ' ' by {
                    assert(rest[t] == line@[k + 1 + t]);
                }
                if k2 < n {
                    assert(rest[k2 - (k + 1)] == line@[k2 as int]);
                }
                lemma_token_len_at(rest, k2 - (k + 1));
                assert(rest.take(k2 - (k + 1)) =~= line@.subrange(k + 1, k2 as int));
            }
            let path = String::from_str(line.substring_char(k + 1, k2));
            Some((m, path))
        },
    }
}

/// The handler owed for one request line against the route table
/// `routes`: the table's entry for the line's method and path, or `None`
/// when the line is malformed or nothing matches - the caller then owes
/// the fallback response.
pub open spec fn dispatch_route<H>(
    routes: Map<(Method, Seq<Seq<char>>), H>,
    line: Seq<char>,
) -> Option<H> {
    match request_target(line) {
        Some(t) => map_route(routes, t.0, t.1),
        None => None,
    }
}

/// Decides one request line: parses it and consults the router.
pub fn dispatch<'a, H>(router: &'a Router<H>, line: &str) -> (r: Option<&'a H>)
    ensures
        (match r {
            Some(h) => dispatch_route(router@, line@) == Some(*h),
            None => dispatch_route(router@, line@) is None,
        }),
{
    match parse_request_line(line) {
        None => None,
        Some((m, p)) => router.lookup(m, p.as_str()),
    }
}

} // verus!
