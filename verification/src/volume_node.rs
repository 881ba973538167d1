//! How a volume server names itself to the coordinators, and where it sends its
//! heartbeats.
use vstd::prelude::*;
use vstd::string::StringExecFns;
use crate::auth::{is_prefix, starts_with_chars};
use crate::text::{chars_of, decimal, decimal_string, string_from_chars};

verus! {

/// The gRPC address a volume advertises: the configured one, with `http://` in front
/// unless it already starts with `http://` or `https://`; without one, the address the
/// server listens on (`grpc`, as text), on the loopback address where it listens on all
/// interfaces.
pub open spec fn advertised(grpc: Seq<char>, unspecified: bool, port: u16, advertise: Option<Seq<char>>) -> Seq<char> {
    match advertise {
        Some(a) => if is_prefix("http://"@, a) || is_prefix("https://"@, a) { a } else { "http://"@ + a },
        None => if unspecified { "http://127.0.0.1:"@ + decimal(port as nat) } else { "http://"@ + grpc },
    }
}

/// The view of an optional string.
pub open spec fn opt_text(o: Option<String>) -> Option<Seq<char>> {
    match o {
        Some(s) => Some(s@),
        None => None,
    }
}

/// The gRPC address a volume advertises, from the address it listens on (as text,
/// whether its IP is unspecified, and its port) and the configured address, if any.
pub fn advertised_address(grpc: &str, unspecified: bool, port: u16, advertise: Option<String>) -> (r: String)
    ensures
        r@ == advertised(grpc@, unspecified, port, opt_text(advertise)),
{
    match advertise {
        Some(a) => {
            let cs = chars_of(a.as_str());
            if starts_with_chars(&cs, &chars_of("http://")) || starts_with_chars(&cs, &chars_of("https://")) {
                a
            } else {
                let mut s = String::from_str("http://");
                s.append(a.as_str());
                s
            }
        },
        None => {
            if unspecified {
                let mut s = String::from_str("http://127.0.0.1:");
                let p = decimal_string(port as u64);
                s.append(p.as_str());
                s
            } else {
                let mut s = String::from_str("http://");
                s.append(grpc);
                s
            }
        },
    }
}

/// `s` without the `/` characters at its end.
pub open spec fn trim_end_slashes(s: Seq<char>) -> Seq<char>
    decreases s.len(),
{
    if s.len() > 0 && s.last() == '/' {
        trim_end_slashes(s.drop_last())
    } else {
        s
    }
}

/// Where a volume sends its heartbeats to a coordinator: the coordinator's URL without
/// trailing slashes, then `/internal/volumes/heartbeat`.
pub open spec fn heartbeat_endpoint(coordinator: Seq<char>) -> Seq<char> {
    trim_end_slashes(coordinator) + "/internal/volumes/heartbeat"@
}

/// The URL a volume posts its heartbeats to at `coordinator`.
pub fn heartbeat_url(coordinator: &str) -> (r: String)
    ensures
        r@ == heartbeat_endpoint(coordinator@),
{
    let cs = chars_of(coordinator);
    let mut n: usize = cs.len();
    proof { assert(cs@.subrange(0, n as int) =~= cs@); }
    while n > 0 && cs[n - 1] == '/'
        invariant
            n <= cs@.len(),
            trim_end_slashes(cs@.subrange(0, n as int)) == trim_end_slashes(cs@),
        decreases n,
    {
        proof { assert(cs@.subrange(0, n as int).drop_last() =~= cs@.subrange(0, n - 1)); }
        n = n - 1;
    }
    let mut kept: Vec<char> = Vec::new();
    let mut i: usize = 0;
    while i < n
        invariant
            n <= cs@.len(),
            i <= n,
            kept@ == cs@.subrange(0, i as int),
        decreases n - i,
    {
        kept.push(cs[i]);
        i = i + 1;
    }
    let mut s = string_from_chars(&kept);
    s.append("/internal/volumes/heartbeat");
    proof {
        assert(cs@ == coordinator@);
        let t = cs@.subrange(0, n as int);
        if n > 0 {
            assert(t.last() != '/');
        }
        assert(trim_end_slashes(t) == t);
    }
    s
}

} // verus!
