//! Counters and gauges, and the request counters of a server with their Prometheus
//! text. Additions wrap around at 2^64, as atomic additions do.
use vstd::prelude::*;
use vstd::string::StringExecFns;
use crate::text::{decimal, decimal_string};

verus! {

/// A number that only grows (and wraps around past `u64::MAX`).
#[derive(Debug)]
pub struct Counter {
    value: u64,
}

/// A value that goes up and down (and wraps around at the ends).
#[derive(Debug)]
pub struct Gauge {
    value: u64,
}

/// `x + y` modulo 2^64.
pub open spec fn wrap_add(x: u64, y: u64) -> u64 {
    ((x + y) % 0x1_0000_0000_0000_0000) as u64
}

/// `x - y` modulo 2^64.
pub open spec fn wrap_sub(x: u64, y: u64) -> u64 {
    ((x - y + 0x1_0000_0000_0000_0000) % 0x1_0000_0000_0000_0000) as u64
}

impl View for Counter {
    type V = u64;

    closed spec fn view(&self) -> u64 {
        self.value
    }
}

impl View for Gauge {
    type V = u64;

    closed spec fn view(&self) -> u64 {
        self.value
    }
}

impl Counter {
    /// A counter at 0.
    pub fn new() -> (r: Counter)
        ensures
            r@ == 0,
    {
        Counter { value: 0 }
    }

    /// Adds one.
    pub fn inc(&mut self)
        ensures
            final(self)@ == wrap_add(old(self)@, 1),
    {
        self.value = self.value.wrapping_add(1);
    }

    /// Adds `n`.
    pub fn add(&mut self, n: u64)
        ensures
            final(self)@ == wrap_add(old(self)@, n),
    {
        self.value = self.value.wrapping_add(n);
    }

    /// The current value.
    pub fn get(&self) -> (r: u64)
        ensures
            r == self@,
    {
        self.value
    }
}

impl Default for Counter {
    fn default() -> (r: Counter)
        ensures
            r@ == 0,
    {
        Counter::new()
    }
}

impl Gauge {
    /// A gauge at 0.
    pub fn new() -> (r: Gauge)
        ensures
            r@ == 0,
    {
        Gauge { value: 0 }
    }

    /// Sets the value.
    pub fn set(&mut self, v: u64)
        ensures
            final(self)@ == v,
    {
        self.value = v;
    }

    /// Adds one.
    pub fn inc(&mut self)
        ensures
            final(self)@ == wrap_add(old(self)@, 1),
    {
        self.value = self.value.wrapping_add(1);
    }

    /// Subtracts one.
    pub fn dec(&mut self)
        ensures
            final(self)@ == wrap_sub(old(self)@, 1),
    {
        self.value = self.value.wrapping_sub(1);
    }

    /// The current value.
    pub fn get(&self) -> (r: u64)
        ensures
            r == self@,
    {
        self.value
    }
}

impl Default for Gauge {
    fn default() -> (r: Gauge)
        ensures
            r@ == 0,
    {
        Gauge::new()
    }
}

/// An increment followed by a decrement leaves a gauge where it was.
pub proof fn law_gauge_inc_dec(v: u64)
    ensures
        wrap_sub(wrap_add(v, 1), 1) == v,
{
}

/// The counts of one endpoint.
pub struct EndpointCounts {
    pub path: String,
    pub requests_total: Counter,
    pub requests_success: Counter,
    pub requests_error: Counter,
}

/// The value of an endpoint's counts: its path, its requests, successes and errors.
pub struct EndpointView {
    pub path: Seq<char>,
    pub total: u64,
    pub success: u64,
    pub error: u64,
}

impl EndpointCounts {
    /// The value of these counts.
    pub open spec fn view(&self) -> EndpointView {
        EndpointView {
            path: self.path@,
            total: self.requests_total@,
            success: self.requests_success@,
            error: self.requests_error@,
        }
    }
}

/// The request counters of a server: per endpoint, in the order endpoints were first
/// seen, and overall.
pub struct RequestCounters {
    pub endpoints: Vec<EndpointCounts>,
    pub total_requests: Counter,
    pub total_errors: Counter,
    pub total_bytes_read: Counter,
    pub total_bytes_written: Counter,
    pub active_connections: Gauge,
    pub keys_with_ttl: Gauge,
    pub compressed_blobs: Gauge,
    pub rate_limited_requests: Counter,
}

/// The path of each endpoint.
pub open spec fn endpoint_paths(es: Seq<EndpointView>) -> Seq<Seq<char>> {
    es.map_values(|e: EndpointView| e.path)
}

/// The counts after a request to `path`: the endpoint's (made if new, at the end) total
/// and its successes or errors go up by one.
pub open spec fn record_in(es: Seq<EndpointView>, path: Seq<char>, success: bool) -> Seq<EndpointView> {
    let bump = |e: EndpointView| EndpointView {
        path: e.path,
        total: wrap_add(e.total, 1),
        success: if success { wrap_add(e.success, 1) } else { e.success },
        error: if success { e.error } else { wrap_add(e.error, 1) },
    };
    if endpoint_paths(es).contains(path) {
        let i = endpoint_paths(es).index_of(path);
        es.update(i, bump(es[i]))
    } else {
        es.push(bump(EndpointView { path, total: 0, success: 0, error: 0 }))
    }
}

impl RequestCounters {
    /// The endpoints' counts, in the order they were first seen.
    pub open spec fn endpoints(&self) -> Seq<EndpointView> {
        self.endpoints@.map_values(|e: EndpointCounts| e.view())
    }

    /// The internal invariant: each path is counted once.
    pub open spec fn wf(&self) -> bool {
        endpoint_paths(self.endpoints()).no_duplicates()
    }

    /// All counters at 0, no endpoint.
    pub fn new() -> (r: Self)
        ensures
            r.wf(),
            r.endpoints() == Seq::<EndpointView>::empty(),
            r.total_requests@ == 0 && r.total_errors@ == 0 && r.total_bytes_read@ == 0 && r.total_bytes_written@ == 0,
            r.active_connections@ == 0 && r.keys_with_ttl@ == 0 && r.compressed_blobs@ == 0,
            r.rate_limited_requests@ == 0,
    {
        let r = RequestCounters {
            endpoints: Vec::new(),
            total_requests: Counter::new(),
            total_errors: Counter::new(),
            total_bytes_read: Counter::new(),
            total_bytes_written: Counter::new(),
            active_connections: Gauge::new(),
            keys_with_ttl: Gauge::new(),
            compressed_blobs: Gauge::new(),
            rate_limited_requests: Counter::new(),
        };
        proof { assert(r.endpoints() =~= Seq::<EndpointView>::empty()); }
        r
    }

    /// The position of the counts of `path`, made at the end if it is new.
    fn endpoint(&mut self, path: &str) -> (i: usize)
        requires
            old(self).wf(),
        ensures
            final(self).wf(),
            i < final(self).endpoints().len(),
            final(self).endpoints()[i as int].path == path@,
            endpoint_paths(old(self).endpoints()).contains(path@) ==> final(self).endpoints() == old(self).endpoints()
                && i == endpoint_paths(old(self).endpoints()).index_of(path@),
            !endpoint_paths(old(self).endpoints()).contains(path@) ==> final(self).endpoints()
                == old(self).endpoints().push(EndpointView { path: path@, total: 0, success: 0, error: 0 })
                && i == old(self).endpoints().len(),
            final(self).total_requests == old(self).total_requests,
            final(self).total_errors == old(self).total_errors,
            final(self).total_bytes_read == old(self).total_bytes_read,
            final(self).total_bytes_written == old(self).total_bytes_written,
            final(self).active_connections == old(self).active_connections,
            final(self).keys_with_ttl == old(self).keys_with_ttl,
            final(self).compressed_blobs == old(self).compressed_blobs,
            final(self).rate_limited_requests == old(self).rate_limited_requests,
    {
        let wanted = path.to_string();
        let ghost ps = endpoint_paths(self.endpoints());
        let mut i: usize = 0;
        while i < self.endpoints.len()
            invariant
                wanted@ == path@,
                ps == endpoint_paths(self.endpoints()),
                ps.no_duplicates(),
                i <= self.endpoints@.len(),
                forall|j: int| 0 <= j < i ==> ps[j] != path@,
            decreases self.endpoints@.len() - i,
        {
            if self.endpoints[i].path == wanted {
                proof {
                    assert(ps[i as int] == path@);
                    ps.index_of_first_ensures(path@);
                    let k = ps.index_of(path@);
                    assert(ps.no_duplicates());
                    assert(k == i);
                }
                return i;
            }
            proof { assert(ps[i as int] == self.endpoints@[i as int].path@); }
            i = i + 1;
        }
        let n = self.endpoints.len();
        proof {
            if ps.contains(path@) {
                let j = choose|j: int| 0 <= j < ps.len() && ps[j] == path@;
                assert(ps[j] != path@);
            }
        }
        self.endpoints.push(EndpointCounts {
            path: wanted,
            requests_total: Counter::new(),
            requests_success: Counter::new(),
            requests_error: Counter::new(),
        });
        proof {
            let es = self.endpoints();
            assert(es =~= old(self).endpoints().push(EndpointView { path: path@, total: 0, success: 0, error: 0 }));
            assert(endpoint_paths(es) =~= ps.push(path@));
            assert forall|a: int, b: int| 0 <= a < b < endpoint_paths(es).len() implies endpoint_paths(es)[a] != endpoint_paths(es)[b] by {
                if b == ps.len() {
                    assert(endpoint_paths(es)[a] == ps[a]);
                }
            }
        }
        n
    }

    /// Counts a request to `path` that succeeded or failed.
    pub fn record_request(&mut self, path: &str, success: bool)
        requires
            old(self).wf(),
        ensures
            final(self).wf(),
            final(self).endpoints() == record_in(old(self).endpoints(), path@, success),
            final(self).total_requests@ == wrap_add(old(self).total_requests@, 1),
            final(self).total_errors@ == if success { old(self).total_errors@ } else { wrap_add(old(self).total_errors@, 1) },
            final(self).total_bytes_read == old(self).total_bytes_read,
            final(self).total_bytes_written == old(self).total_bytes_written,
            final(self).active_connections == old(self).active_connections,
            final(self).keys_with_ttl == old(self).keys_with_ttl,
            final(self).compressed_blobs == old(self).compressed_blobs,
            final(self).rate_limited_requests == old(self).rate_limited_requests,
    {
        let i = self.endpoint(path);
        let ghost mid = self.endpoints();
        let mut e = self.endpoints.remove(i);
        e.requests_total.inc();
        if success {
            e.requests_success.inc();
        } else {
            e.requests_error.inc();
        }
        let ghost ev = e.view();
        self.endpoints.insert(i, e);
        self.total_requests.inc();
        if !success {
            self.total_errors.inc();
        }
        proof {
            assert(self.endpoints() =~= mid.update(i as int, ev));
            assert(endpoint_paths(self.endpoints()) =~= endpoint_paths(mid));
            let ps = endpoint_paths(old(self).endpoints());
            if !ps.contains(path@) {
                assert(mid.update(i as int, ev) =~= record_in(old(self).endpoints(), path@, success));
            }
        }
    }

    /// Copies of the endpoints' counts: path, requests, successes, errors.
    pub fn endpoint_counts(&self) -> (r: Vec<(String, u64, u64, u64)>)
        ensures
            r@.len() == self.endpoints().len(),
            forall|i: int| 0 <= i < r@.len() ==> {
                &&& (#[trigger] r@[i]).0@ == self.endpoints()[i].path
                &&& r@[i].1 == self.endpoints()[i].total
                &&& r@[i].2 == self.endpoints()[i].success
                &&& r@[i].3 == self.endpoints()[i].error
            },
    {
        let mut out: Vec<(String, u64, u64, u64)> = Vec::new();
        let mut i: usize = 0;
        while i < self.endpoints.len()
            invariant
                i <= self.endpoints@.len(),
                out@.len() == i,
                forall|j: int| 0 <= j < i ==> {
                    &&& (#[trigger] out@[j]).0@ == self.endpoints()[j].path
                    &&& out@[j].1 == self.endpoints()[j].total
                    &&& out@[j].2 == self.endpoints()[j].success
                    &&& out@[j].3 == self.endpoints()[j].error
                },
            decreases self.endpoints@.len() - i,
        {
            let e = &self.endpoints[i];
            out.push((e.path.clone(), e.requests_total.get(), e.requests_success.get(), e.requests_error.get()));
            i = i + 1;
        }
        out
    }

    /// The Prometheus text of the counters: the overall ones, the uptime given, then
    /// requests and errors per endpoint.
    pub fn to_prometheus_counters(&self, uptime_seconds: u64) -> (r: String)
        ensures
            r@ == counters_text(self.total_requests@, self.total_errors@, self.total_bytes_read@,
                self.total_bytes_written@, self.active_connections@, self.keys_with_ttl@,
                self.rate_limited_requests@, uptime_seconds, self.endpoints()),
    {
        let mut out = String::new();
        push_block(&mut out, "minikv_requests_total", "Total number of requests", "counter", self.total_requests.get());
        push_block(&mut out, "minikv_errors_total", "Total number of errors", "counter", self.total_errors.get());
        push_block(&mut out, "minikv_bytes_read_total", "Total bytes read", "counter", self.total_bytes_read.get());
        push_block(&mut out, "minikv_bytes_written_total", "Total bytes written", "counter", self.total_bytes_written.get());
        push_block(&mut out, "minikv_active_connections", "Current active connections", "gauge", self.active_connections.get());
        push_block(&mut out, "minikv_keys_with_ttl", "Number of keys with TTL", "gauge", self.keys_with_ttl.get());
        push_block(&mut out, "minikv_rate_limited_requests", "Total rate limited requests", "counter", self.rate_limited_requests.get());
        push_block(&mut out, "minikv_uptime_seconds", "Server uptime in seconds", "gauge", uptime_seconds);
        push_header(&mut out, "minikv_endpoint_requests_total", "Requests per endpoint", "counter");
        self.push_endpoint_lines(&mut out, "minikv_endpoint_requests_total", false);
        push_header(&mut out, "minikv_endpoint_errors_total", "Errors per endpoint", "counter");
        self.push_endpoint_lines(&mut out, "minikv_endpoint_errors_total", true);
        out
    }

    fn push_endpoint_lines(&self, out: &mut String, name: &str, errors: bool)
        ensures
            final(out)@ == old(out)@ + endpoint_lines(name@, self.endpoints(), errors),
    {
        let mut i: usize = 0;
        let ghost es = self.endpoints();
        while i < self.endpoints.len()
            invariant
                es == self.endpoints(),
                i <= es.len(),
                out@ == old(out)@ + endpoint_lines(name@, es.take(i as int), errors),
            decreases es.len() - i,
        {
            let e = &self.endpoints[i];
            let v = if errors { e.requests_error.get() } else { e.requests_total.get() };
            let ghost before = out@;
            out.append(name);
            out.append("{path=\"");
            out.append(e.path.as_str());
            out.append("\"} ");
            let d = decimal_string(v);
            out.append(d.as_str());
            out.append("\n");
            proof {
                assert(es.take(i as int + 1).drop_last() =~= es.take(i as int));
                assert(es.take(i as int + 1).last() == e.view());
                assert(out@ =~= before + endpoint_line(name@, e.view(), errors));
            }
            i = i + 1;
        }
        proof { assert(es.take(i as int) =~= es); }
    }
}

/// The help and type lines of a metric.
pub open spec fn metric_header(name: Seq<char>, help: Seq<char>, kind: Seq<char>) -> Seq<char> {
    "# HELP "@ + name + " "@ + help + "\n"@ + "# TYPE "@ + name + " "@ + kind + "\n"@
}

/// A metric with one value: its help and type lines and its sample.
pub open spec fn metric_block(name: Seq<char>, help: Seq<char>, kind: Seq<char>, value: u64) -> Seq<char> {
    metric_header(name, help, kind) + name + " "@ + decimal(value as nat) + "\n"@
}

/// The sample of an endpoint: `<name>{path="<path>"} <value>`.
pub open spec fn endpoint_line(name: Seq<char>, e: EndpointView, errors: bool) -> Seq<char> {
    name + "{path=\""@ + e.path + "\"} "@ + decimal((if errors { e.error } else { e.total }) as nat) + "\n"@
}

/// The samples of the endpoints, in order.
pub open spec fn endpoint_lines(name: Seq<char>, es: Seq<EndpointView>, errors: bool) -> Seq<char>
    decreases es.len(),
{
    if es.len() == 0 {
        Seq::empty()
    } else {
        endpoint_lines(name, es.drop_last(), errors) + endpoint_line(name, es.last(), errors)
    }
}

/// The Prometheus text of the request counters.
pub open spec fn counters_text(
    requests: u64,
    errors: u64,
    bytes_read: u64,
    bytes_written: u64,
    connections: u64,
    keys_with_ttl: u64,
    rate_limited: u64,
    uptime: u64,
    es: Seq<EndpointView>,
) -> Seq<char> {
    metric_block("minikv_requests_total"@, "Total number of requests"@, "counter"@, requests)
        + metric_block("minikv_errors_total"@, "Total number of errors"@, "counter"@, errors)
        + metric_block("minikv_bytes_read_total"@, "Total bytes read"@, "counter"@, bytes_read)
        + metric_block("minikv_bytes_written_total"@, "Total bytes written"@, "counter"@, bytes_written)
        + metric_block("minikv_active_connections"@, "Current active connections"@, "gauge"@, connections)
        + metric_block("minikv_keys_with_ttl"@, "Number of keys with TTL"@, "gauge"@, keys_with_ttl)
        + metric_block("minikv_rate_limited_requests"@, "Total rate limited requests"@, "counter"@, rate_limited)
        + metric_block("minikv_uptime_seconds"@, "Server uptime in seconds"@, "gauge"@, uptime)
        + metric_header("minikv_endpoint_requests_total"@, "Requests per endpoint"@, "counter"@)
        + endpoint_lines("minikv_endpoint_requests_total"@, es, false)
        + metric_header("minikv_endpoint_errors_total"@, "Errors per endpoint"@, "counter"@)
        + endpoint_lines("minikv_endpoint_errors_total"@, es, true)
}

fn push_header(out: &mut String, name: &str, help: &str, kind: &str)
    ensures
        final(out)@ == old(out)@ + metric_header(name@, help@, kind@),
{
    let ghost before = out@;
    out.append("# HELP ");
    out.append(name);
    out.append(" ");
    out.append(help);
    out.append("\n");
    out.append("# TYPE ");
    out.append(name);
    out.append(" ");
    out.append(kind);
    out.append("\n");
    proof { assert(out@ =~= before + metric_header(name@, help@, kind@)); }
}

fn push_block(out: &mut String, name: &str, help: &str, kind: &str, value: u64)
    ensures
        final(out)@ == old(out)@ + metric_block(name@, help@, kind@, value),
{
    let ghost before = out@;
    push_header(out, name, help, kind);
    out.append(name);
    out.append(" ");
    let d = decimal_string(value);
    out.append(d.as_str());
    out.append("\n");
    proof { assert(out@ =~= before + metric_block(name@, help@, kind@, value)); }
}

/// Counting a request at an endpoint already seen keeps the endpoints and their order.
pub proof fn law_record_keeps_endpoints(es: Seq<EndpointView>, path: Seq<char>, success: bool)
    requires
        endpoint_paths(es).contains(path),
    ensures
        endpoint_paths(record_in(es, path, success)) == endpoint_paths(es),
{
    let ps = endpoint_paths(es);
    let i = ps.index_of(path);
    ps.index_of_first_ensures(path);
    assert(endpoint_paths(record_in(es, path, success)) =~= ps);
}

} // verus!
