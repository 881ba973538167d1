//! Utilities: node health, durations, key validation and encoding, checksums, clocks.
use vstd::prelude::*;
use vstd::utf8::{encode_utf8, valid_utf8, decode_utf8};
use vstd::string::StringExecFns;
use crate::error::Error;
use crate::text::{chars_of, string_from_chars, decimal, decimal_string};

verus! {

/// Health state of a node.
#[derive(Debug, Clone, Copy, PartialEq, Eq, Structural)]
pub enum NodeState {
    Alive,
    Suspect,
    Dead,
    Draining,
}

impl NodeState {
    /// Is this node healthy enough to serve requests?
    pub fn is_healthy(&self) -> (r: bool)
        ensures
            r == (*self == NodeState::Alive),
    {
        matches!(self, NodeState::Alive)
    }

    /// Can this node accept new writes?
    pub fn can_write(&self) -> (r: bool)
        ensures
            r == (*self == NodeState::Alive),
    {
        matches!(self, NodeState::Alive)
    }

    /// Can this node serve reads?
    pub fn can_read(&self) -> (r: bool)
        ensures
            r == (*self == NodeState::Alive || *self == NodeState::Draining),
    {
        matches!(self, NodeState::Alive | NodeState::Draining)
    }

    /// The state's name in lowercase, as it is displayed.
    pub fn name(&self) -> (r: &'static str)
        ensures
            r@ == node_state_name(*self),
    {
        proof {
            reveal_strlit("alive");
            reveal_strlit("suspect");
            reveal_strlit("dead");
            reveal_strlit("draining");
        }
        match self {
            NodeState::Alive => "alive",
            NodeState::Suspect => "suspect",
            NodeState::Dead => "dead",
            NodeState::Draining => "draining",
        }
    }
}

/// The displayed name of a node state.
pub open spec fn node_state_name(s: NodeState) -> Seq<char> {
    match s {
        NodeState::Alive => seq!['a', 'l', 'i', 'v', 'e'],
        NodeState::Suspect => seq!['s', 'u', 's', 'p', 'e', 'c', 't'],
        NodeState::Dead => seq!['d', 'e', 'a', 'd'],
        NodeState::Draining => seq!['d', 'r', 'a', 'i', 'n', 'i', 'n', 'g'],
    }
}

/// Whether `c` has the Unicode White_Space property (`char::is_whitespace`).
pub open spec fn is_whitespace(c: char) -> bool {
    ||| ('\u{09}' <= c && c <= '\u{0D}')
    ||| c == ' '
    ||| c == '\u{85}'
    ||| c == '\u{A0}'
    ||| c == '\u{1680}'
    ||| ('\u{2000}' <= c && c <= '\u{200A}')
    ||| c == '\u{2028}'
    ||| c == '\u{2029}'
    ||| c == '\u{202F}'
    ||| c == '\u{205F}'
    ||| c == '\u{3000}'
}

/// Whether `c` is a control character (Unicode category Cc, `char::is_control`).
pub open spec fn is_control(c: char) -> bool {
    c <= '\u{1F}' || ('\u{7F}' <= c && c <= '\u{9F}')
}

/// `s` without leading whitespace.
pub open spec fn trim_start(s: Seq<char>) -> Seq<char>
    decreases s.len(),
{
    if s.len() > 0 && is_whitespace(s[0]) {
        trim_start(s.drop_first())
    } else {
        s
    }
}

/// `s` without trailing whitespace.
pub open spec fn trim_end(s: Seq<char>) -> Seq<char>
    decreases s.len(),
{
    if s.len() > 0 && is_whitespace(s.last()) {
        trim_end(s.drop_last())
    } else {
        s
    }
}

/// `s` without leading and trailing whitespace (`str::trim`).
pub open spec fn trim(s: Seq<char>) -> Seq<char> {
    trim_end(trim_start(s))
}

fn is_whitespace_char(c: char) -> (r: bool)
    ensures
        r == is_whitespace(c),
{
    ('\u{09}' <= c && c <= '\u{0D}') || c == ' ' || c == '\u{85}' || c == '\u{A0}' || c == '\u{1680}'
        || ('\u{2000}' <= c && c <= '\u{200A}') || c == '\u{2028}' || c == '\u{2029}' || c == '\u{202F}'
        || c == '\u{205F}' || c == '\u{3000}'
}

proof fn lemma_trim_start_suffix(s: Seq<char>, i: int)
    requires
        0 <= i <= s.len(),
        forall|j: int| 0 <= j < i ==> is_whitespace(s[j]),
    ensures
        trim_start(s) == trim_start(s.subrange(i, s.len() as int)),
    decreases i,
{
    if i > 0 {
        assert(s.drop_first().subrange(i - 1, s.drop_first().len() as int) =~= s.subrange(i, s.len() as int));
        lemma_trim_start_suffix(s.drop_first(), i - 1);
    } else {
        assert(s.subrange(0, s.len() as int) =~= s);
    }
}

proof fn lemma_trim_end_prefix(s: Seq<char>, j: int)
    requires
        0 <= j <= s.len(),
        forall|k: int| j <= k < s.len() ==> is_whitespace(s[k]),
    ensures
        trim_end(s) == trim_end(s.subrange(0, j)),
    decreases s.len() - j,
{
    if j < s.len() {
        assert(s.drop_last().subrange(0, j) =~= s.subrange(0, j));
        lemma_trim_end_prefix(s.drop_last(), j);
    } else {
        assert(s.subrange(0, j) =~= s);
    }
}

proof fn lemma_trim_start_shape(s: Seq<char>)
    ensures
        trim_start(s).len() <= s.len(),
        trim_start(s) == s.subrange(s.len() - trim_start(s).len(), s.len() as int),
        trim_start(s).len() > 0 ==> !is_whitespace(trim_start(s)[0]),
    decreases s.len(),
{
    if s.len() > 0 && is_whitespace(s[0]) {
        lemma_trim_start_shape(s.drop_first());
        let r = trim_start(s.drop_first());
        assert(s.drop_first().subrange(s.drop_first().len() - r.len(), s.drop_first().len() as int)
            =~= s.subrange(s.len() - r.len(), s.len() as int));
    } else {
        assert(s.subrange(0, s.len() as int) =~= s);
    }
}

proof fn lemma_trim_end_shape(s: Seq<char>)
    ensures
        trim_end(s).len() <= s.len(),
        trim_end(s) == s.subrange(0, trim_end(s).len() as int),
        trim_end(s).len() > 0 ==> !is_whitespace(trim_end(s).last()),
    decreases s.len(),
{
    if s.len() > 0 && is_whitespace(s.last()) {
        lemma_trim_end_shape(s.drop_last());
        let r = trim_end(s.drop_last());
        assert(s.drop_last().subrange(0, r.len() as int) =~= s.subrange(0, r.len() as int));
    } else {
        assert(s.subrange(0, s.len() as int) =~= s);
    }
}

/// A trimmed text has no whitespace at either end.
pub proof fn lemma_trim_ends(s: Seq<char>)
    ensures
        trim(s).len() > 0 ==> !is_whitespace(trim(s)[0]) && !is_whitespace(trim(s).last()),
{
    lemma_trim_start_shape(s);
    lemma_trim_end_shape(trim_start(s));
    if trim(s).len() > 0 {
        assert(trim(s)[0] == trim_start(s)[0]);
    }
}

/// A text with no whitespace at either end is its own trim.
pub proof fn lemma_trim_fixed(s: Seq<char>)
    requires
        s.len() > 0 ==> !is_whitespace(s[0]) && !is_whitespace(s.last()),
    ensures
        trim(s) == s,
{
}

/// Trimming twice is trimming once.
pub proof fn lemma_trim_idempotent(s: Seq<char>)
    ensures
        trim(trim(s)) == trim(s),
{
    lemma_trim_ends(s);
    lemma_trim_fixed(trim(s));
}

/// `cs` without leading and trailing whitespace.
pub fn trim_chars(cs: &Vec<char>) -> (r: Vec<char>)
    ensures
        r@ == trim(cs@),
{
    let n = cs.len();
    let mut i: usize = 0;
    while i < n && is_whitespace_char(cs[i])
        invariant
            i <= n == cs@.len(),
            forall|k: int| 0 <= k < i ==> is_whitespace(cs@[k]),
        decreases n - i,
    {
        i = i + 1;
    }
    proof { lemma_trim_start_suffix(cs@, i as int); }
    let ghost t = cs@.subrange(i as int, n as int);
    proof {
        if i < n {
            assert(t[0] == cs@[i as int]);
            assert(trim_start(t) == t);
        } else {
            assert(t.len() == 0);
        }
    }
    let mut j: usize = n;
    while j > i && is_whitespace_char(cs[j - 1])
        invariant
            i <= j <= n == cs@.len(),
            forall|k: int| j <= k < n ==> is_whitespace(cs@[k]),
        decreases j,
    {
        j = j - 1;
    }
    proof {
        lemma_trim_end_prefix(t, j - i);
        let u = t.subrange(0, j - i);
        assert(u =~= cs@.subrange(i as int, j as int));
        if j > i {
            assert(u.last() == cs@[j - 1]);
            assert(trim_end(u) == u);
        }
    }
    let mut out: Vec<char> = Vec::new();
    let mut k: usize = i;
    while k < j
        invariant
            i <= k <= j <= n == cs@.len(),
            out@ == cs@.subrange(i as int, k as int),
        decreases j - k,
    {
        out.push(cs[k]);
        k = k + 1;
        proof { assert(out@ =~= cs@.subrange(i as int, k as int)); }
    }
    out
}

/// The unit of a duration.
#[derive(Debug, Clone, Copy, PartialEq, Eq, Structural)]
pub enum DurationUnit {
    Millis,
    Seconds,
    Minutes,
    Hours,
    Days,
}

/// The number of seconds in one unit (for units of at least a second).
pub open spec fn unit_seconds(u: DurationUnit) -> int {
    match u {
        DurationUnit::Millis => 0,
        DurationUnit::Seconds => 1,
        DurationUnit::Minutes => 60,
        DurationUnit::Hours => 3600,
        DurationUnit::Days => 86400,
    }
}

/// The value of a string of decimal digits.
pub open spec fn digits_value(s: Seq<char>) -> nat
    decreases s.len(),
{
    if s.len() == 0 {
        0
    } else {
        digits_value(s.drop_last()) * 10 + ((s.last() as int) - ('0' as int)) as nat
    }
}

/// Whether every character of `s` is an ASCII digit.
pub open spec fn all_digits(s: Seq<char>) -> bool {
    forall|i: int| 0 <= i < s.len() ==> '0' <= #[trigger] s[i] && s[i] <= '9'
}

/// What `u64::from_str` accepts: an optional `+`, then at least one digit, for a value
/// that fits in a `u64`; the value.
pub open spec fn parse_u64_spec(s: Seq<char>) -> Option<u64> {
    let body = if s.len() > 0 && s[0] == '+' { s.drop_first() } else { s };
    if body.len() > 0 && all_digits(body) && digits_value(body) <= u64::MAX {
        Some(digits_value(body) as u64)
    } else {
        None
    }
}

/// Parses a decimal `u64` as `u64::from_str` does.
pub fn parse_u64(s: &Vec<char>) -> (r: Option<u64>)
    ensures
        r == parse_u64_spec(s@),
{
    let start: usize = if s.len() > 0 && s[0] == '+' { 1 } else { 0 };
    let ghost body = if s@.len() > 0 && s@[0] == '+' { s@.drop_first() } else { s@ };
    proof { assert(body =~= s@.subrange(start as int, s@.len() as int)); }
    if start >= s.len() {
        return None;
    }
    let mut value: u64 = 0;
    let mut i: usize = start;
    while i < s.len()
        invariant
            start <= i <= s@.len(),
            body == s@.subrange(start as int, s@.len() as int),
            body == (if s@.len() > 0 && s@[0] == '+' { s@.drop_first() } else { s@ }),
            body.len() > 0,
            all_digits(s@.subrange(start as int, i as int)),
            value == digits_value(s@.subrange(start as int, i as int)),
        decreases s@.len() - i,
    {
        let c = s[i];
        let ghost pre = s@.subrange(start as int, i as int);
        let ghost next = s@.subrange(start as int, i as int + 1);
        proof { assert(next.drop_last() =~= pre); }
        if c < '0' || c > '9' {
            proof {
                let k = i - start;
                assert(body[k] == c);
                assert(!all_digits(body));
                assert(parse_u64_spec(s@) is None);
            }
            return None;
        }
        let d = (c as u32 - '0' as u32) as u64;
        if value > (u64::MAX - d) / 10 {
            proof {
                assert(digits_value(next) > u64::MAX) by (nonlinear_arith)
                    requires digits_value(next) == value * 10 + d, value > (u64::MAX - d) / 10, d <= 9;
                assert(body.subrange(0, i - start + 1) =~= next);
                if all_digits(body) {
                    lemma_digits_value_mono(body, i - start + 1);
                }
            }
            return None;
        }
        value = value * 10 + d;
        i = i + 1;
    }
    proof { assert(s@.subrange(start as int, i as int) =~= body); }
    Some(value)
}

proof fn lemma_digits_value_mono(s: Seq<char>, k: int)
    requires
        0 <= k <= s.len(),
        all_digits(s),
    ensures
        digits_value(s.subrange(0, k)) <= digits_value(s),
    decreases s.len() - k,
{
    if k < s.len() {
        lemma_digits_value_mono(s, k + 1);
        assert(s.subrange(0, k + 1).drop_last() =~= s.subrange(0, k));
        assert('0' <= s[k]);
    } else {
        assert(s.subrange(0, k) =~= s);
    }
}

/// How a duration string is read: the number and its unit, or `None` for the empty
/// string, `Some(Err(..))` for a string that is not a number followed by a unit
/// (`Err(true)` when the unit is unknown).
pub open spec fn duration_parts(t: Seq<char>) -> Result<(u64, DurationUnit), bool> {
    let ms = t.len() >= 2 && t[t.len() - 2] == 'm' && t[t.len() - 1] == 's';
    let num = if ms { t.subrange(0, t.len() - 2) } else { t.subrange(0, t.len() - 1) };
    let unit = t.last();
    match parse_u64_spec(num) {
        None => Err(false),
        Some(n) => if ms {
            Ok((n, DurationUnit::Millis))
        } else if unit == 's' {
            Ok((n, DurationUnit::Seconds))
        } else if unit == 'm' {
            Ok((n, DurationUnit::Minutes))
        } else if unit == 'h' {
            Ok((n, DurationUnit::Hours))
        } else if unit == 'd' {
            Ok((n, DurationUnit::Days))
        } else {
            Err(true)
        },
    }
}

/// A `Duration` of `secs` seconds, as `Duration::from_secs` makes it.
pub uninterp spec fn duration_from_secs(secs: u64) -> std::time::Duration;

/// A `Duration` of `ms` milliseconds, as `Duration::from_millis` makes it.
pub uninterp spec fn duration_from_millis(ms: u64) -> std::time::Duration;

/// `Duration::from_secs`.
#[verifier::external_body]
pub(crate) fn secs_to_duration(secs: u64) -> (d: std::time::Duration)
    ensures
        d == duration_from_secs(secs),
{
    std::time::Duration::from_secs(secs)
}

/// `Duration::from_millis`.
#[verifier::external_body]
pub(crate) fn millis_to_duration(ms: u64) -> (d: std::time::Duration)
    ensures
        d == duration_from_millis(ms),
{
    std::time::Duration::from_millis(ms)
}

/// Whether `s` parses as a duration whose seconds do not fit in a `u64`.
pub open spec fn duration_overflows(s: Seq<char>) -> bool {
    let t = trim(s);
    t.len() > 0 && match duration_parts(t) {
        Ok((n, u)) => u != DurationUnit::Millis && n * unit_seconds(u) > u64::MAX,
        Err(_) => false,
    }
}

/// Whether the unit can be cut off the string: it is empty, or its last character is
/// ASCII (the unit is cut off by bytes, and a cut inside a character is refused).
pub open spec fn duration_cut_ok(s: Seq<char>) -> bool {
    let t = trim(s);
    t.len() == 0 || (t.last() as int) < 128
}

/// Parses a duration such as `500ms`, `30s`, `5m`, `1h` or `7d`.
pub fn parse_duration(s: &str) -> (r: Result<std::time::Duration, Error>)
    requires
        !duration_overflows(s@),
        duration_cut_ok(s@),
    ensures
        ({
            let t = trim(s@);
            if t.len() == 0 {
                r matches Err(Error::InvalidConfig(m)) && m@ == "empty duration"@
            } else {
                match duration_parts(t) {
                    Err(false) => r matches Err(Error::InvalidConfig(m))
                        && m@ == "invalid duration: "@ + t,
                    Err(true) => r matches Err(Error::InvalidConfig(m))
                        && m@ == "unknown duration unit: "@ + seq![t.last()],
                    Ok((n, u)) => r == Ok::<std::time::Duration, Error>(
                        if u == DurationUnit::Millis {
                            duration_from_millis(n)
                        } else {
                            duration_from_secs((n * unit_seconds(u)) as u64)
                        }),
                }
            }
        }),
{
    let all = chars_of(s);
    let t = trim_chars(&all);
    let len = t.len();
    if len == 0 {
        let m = String::from_str("empty duration");
        proof { reveal_strlit("empty duration"); }
        return Err(Error::InvalidConfig(m));
    }
    let ms = len >= 2 && t[len - 2] == 'm' && t[len - 1] == 's';
    let cut: usize = if ms { len - 2 } else { len - 1 };
    let mut num: Vec<char> = Vec::new();
    let mut i: usize = 0;
    while i < cut
        invariant
            i <= cut < len == t@.len(),
            num@ == t@.subrange(0, i as int),
        decreases cut - i,
    {
        num.push(t[i]);
        i = i + 1;
        proof { assert(num@ =~= t@.subrange(0, i as int)); }
    }
    let unit = t[len - 1];
    match parse_u64(&num) {
        None => {
            let mut m = String::from_str("invalid duration: ");
            proof { reveal_strlit("invalid duration: "); }
            let ts = string_from_chars(&t);
            m.append(ts.as_str());
            Err(Error::InvalidConfig(m))
        },
        Some(n) => {
            if ms {
                Ok(millis_to_duration(n))
            } else if unit == 's' {
                Ok(secs_to_duration(n))
            } else if unit == 'm' {
                Ok(secs_to_duration(n * 60))
            } else if unit == 'h' {
                Ok(secs_to_duration(n * 3600))
            } else if unit == 'd' {
                Ok(secs_to_duration(n * 86400))
            } else {
                let mut m = String::from_str("unknown duration unit: ");
                proof { reveal_strlit("unknown duration unit: "); }
                let mut u = String::new();
                crate::text::push_char(&mut u, unit);
                m.append(u.as_str());
                Err(Error::InvalidConfig(m))
            }
        },
    }
}

/// Why a key is refused, if it is.
pub open spec fn key_problem(key: Seq<char>) -> Option<Seq<char>> {
    if key.len() == 0 {
        Some("key cannot be empty"@)
    } else if encode_utf8(key).len() > 1024 {
        Some("key too long (max 1024 bytes)"@)
    } else if exists|i: int| 0 <= i < key.len() && is_control(#[trigger] key[i]) {
        Some("key contains invalid characters"@)
    } else {
        None
    }
}

/// Checks that a key is not empty, at most 1024 bytes long and free of control characters.
pub fn validate_key(key: &str) -> (r: Result<(), Error>)
    ensures
        match key_problem(key@) {
            None => r is Ok,
            Some(msg) => r matches Err(Error::InvalidConfig(m)) && m@ == msg,
        },
{
    proof {
        reveal_strlit("key cannot be empty");
        reveal_strlit("key too long (max 1024 bytes)");
        reveal_strlit("key contains invalid characters");
    }
    if key.is_empty() {
        return Err(Error::InvalidConfig(String::from_str("key cannot be empty")));
    }
    let bytes = key.as_bytes();
    if bytes.len() > 1024 {
        return Err(Error::InvalidConfig(String::from_str("key too long (max 1024 bytes)")));
    }
    let cs = chars_of(key);
    let mut i: usize = 0;
    while i < cs.len()
        invariant
            i <= cs@.len(),
            cs@ == key@,
            key@.len() > 0,
            encode_utf8(key@).len() <= 1024,
            forall|k: int| 0 <= k < i ==> !is_control(#[trigger] cs@[k]),
        decreases cs@.len() - i,
    {
        let c = cs[i];
        if c <= '\u{1F}' || ('\u{7F}' <= c && c <= '\u{9F}') {
            proof { assert(is_control(key@[i as int])); }
            return Err(Error::InvalidConfig(String::from_str("key contains invalid characters")));
        }
        i = i + 1;
    }
    Ok(())
}

/// The CRC-32 (IEEE) checksum of `data`, as computed by `crc32fast::hash`.
pub uninterp spec fn crc32_of(data: Seq<u8>) -> u32;

/// `crc32fast::hash`.
#[verifier::external_body]
fn crc32_hash(data: &[u8]) -> (r: u32)
    ensures
        r == crc32_of(data@),
{
    crc32fast::hash(data)
}

/// Appends the bytes of `s` to `v` (`Vec::extend_from_slice`).
pub fn append_bytes(v: &mut Vec<u8>, s: &[u8])
    ensures
        final(v)@ == old(v)@ + s@,
{
    let mut i: usize = 0;
    while i < s.len()
        invariant
            i <= s@.len(),
            v@ == old(v)@ + s@.subrange(0, i as int),
        decreases s@.len() - i,
    {
        v.push(s[i]);
        i = i + 1;
        proof { assert(v@ =~= old(v)@ + s@.subrange(0, i as int)); }
    }
    proof { assert(s@.subrange(0, s@.len() as int) =~= s@); }
}

/// The CRC-32 checksum of `data`.
pub fn crc32(data: &[u8]) -> (r: u32)
    ensures
        r == crc32_of(data@),
{
    crc32_hash(data)
}

/// The system clock's reading, carried through without looking inside.
#[verifier::external_type_specification]
#[verifier::external_body]
pub struct ExSystemTime(std::time::SystemTime);

/// `SystemTime::now`: the clock's reading. Each call may give another value, so nothing
/// is stated of it.
#[verifier::external_body]
fn system_time_now() -> (r: std::time::SystemTime)
{
    std::time::SystemTime::now()
}

/// `SystemTime::duration_since(UNIX_EPOCH)`: the time elapsed since the epoch, `None` where
/// the reading lies before it. The reading comes from the clock, so nothing is stated of
/// the result.
#[verifier::external_body]
fn since_unix_epoch(t: &std::time::SystemTime) -> (r: Option<std::time::Duration>)
{
    t.duration_since(std::time::UNIX_EPOCH).ok()
}

/// `Duration::as_millis`: the whole milliseconds of `d`. `Duration` is opaque here, so
/// nothing is stated of the result.
#[verifier::external_body]
fn duration_millis(d: &std::time::Duration) -> (r: u128)
{
    d.as_millis()
}

/// The milliseconds since the Unix epoch on the system clock, `None` if the clock is set
/// before the epoch.
fn unix_time_millis() -> (r: Option<u128>)
{
    let now = system_time_now();
    match since_unix_epoch(&now) {
        Some(d) => Some(duration_millis(&d)),
        None => None,
    }
}

/// The current Unix time in seconds (0 if the clock is set before the epoch).
pub fn timestamp_now() -> (r: u64)
{
    match unix_time_millis() {
        Some(ms) => (ms / 1000) as u64,
        None => 0,
    }
}

/// The current Unix time in milliseconds (0 if the clock is set before the epoch).
pub fn timestamp_now_millis() -> (r: u64)
{
    match unix_time_millis() {
        Some(ms) => ms as u64,
        None => 0,
    }
}

/// The text of an upload id: `<timestamp>-<counter>`, both in decimal.
pub open spec fn upload_id(timestamp: u64, counter: u64) -> Seq<char> {
    decimal(timestamp as nat) + seq!['-'] + decimal(counter as nat)
}

/// An upload id made of a timestamp and a counter: `<timestamp>-<counter>`.
pub fn format_upload_id(timestamp: u64, counter: u64) -> (r: String)
    ensures
        r@ == upload_id(timestamp, counter),
{
    let mut s = decimal_string(timestamp);
    crate::text::push_char(&mut s, '-');
    let c = decimal_string(counter);
    s.append(c.as_str());
    s
}

/// The decimal digits of a number are digits, and they spell the number back.
pub proof fn lemma_decimal_digits(n: nat)
    ensures
        decimal(n).len() > 0,
        all_digits(decimal(n)),
        digits_value(decimal(n)) == n,
    decreases n,
{
    if n < 10 {
        assert(decimal(n).drop_last() =~= Seq::<char>::empty());
        let c = (('0' as int) + n) as char;
        assert(decimal(n).last() == c);
        assert((c as int) - ('0' as int) == n);
        assert(digits_value(decimal(n)) == digits_value(Seq::<char>::empty()) * 10 + n);
    } else {
        lemma_decimal_digits(n / 10);
        let d = decimal(n / 10);
        assert(decimal(n).drop_last() =~= d);
        let c = (('0' as int) + n % 10) as char;
        assert(decimal(n).last() == c);
        assert((c as int) - ('0' as int) == n % 10);
        assert(digits_value(decimal(n)) == digits_value(d) * 10 + n % 10);
        assert((n / 10) * 10 + n % 10 == n);
        assert forall|i: int| 0 <= i < decimal(n).len() implies '0' <= #[trigger] decimal(n)[i] && decimal(n)[i] <= '9' by {
            if i < d.len() {
                assert(decimal(n)[i] == d[i]);
            }
        }
    }
}

/// Upload ids made with different counters differ, whatever their timestamps.
pub proof fn law_upload_ids_with_distinct_counters_differ(t1: u64, c1: u64, t2: u64, c2: u64)
    requires
        c1 != c2,
    ensures
        upload_id(t1, c1) != upload_id(t2, c2),
{
    let a = upload_id(t1, c1);
    let b = upload_id(t2, c2);
    let d1 = decimal(c1 as nat);
    let d2 = decimal(c2 as nat);
    lemma_decimal_digits(c1 as nat);
    lemma_decimal_digits(c2 as nat);
    lemma_decimal_digits(t1 as nat);
    lemma_decimal_digits(t2 as nat);
    if a == b {
        if d1.len() == d2.len() {
            assert(d1 =~= a.subrange(a.len() - d1.len(), a.len() as int));
            assert(d2 =~= b.subrange(b.len() - d2.len(), b.len() as int));
        } else if d1.len() < d2.len() {
            let p = a.len() - d1.len() - 1;
            assert(a[p] == '-');
            assert(b[p] == d2[d2.len() - d1.len() - 1]);
        } else {
            let p = b.len() - d2.len() - 1;
            assert(b[p] == '-');
            assert(a[p] == d1[d1.len() - d2.len() - 1]);
        }
    }
}

/// Two ids made by successive calls on one source differ, whatever the clock read: the
/// second carries the next counter.
pub proof fn law_successive_upload_ids_differ(t1: u64, t2: u64, counter: u64)
    ensures
        upload_id(t1, counter) != upload_id(t2, counter.wrapping_add(1)),
{
    assert(counter.wrapping_add(1) != counter) by {
        if counter == u64::MAX {
            assert(counter.wrapping_add(1) == 0);
        } else {
            assert(counter.wrapping_add(1) == counter + 1);
        }
    }
    law_upload_ids_with_distinct_counters_differ(t1, counter, t2, counter.wrapping_add(1));
}


/// A source of upload ids: each id joins the current time and a counter that moves on
/// by one at every id.
pub struct UploadIds {
    counter: u64,
}

impl UploadIds {
    /// The counter that the next id will carry.
    pub closed spec fn next_counter(&self) -> u64 {
        self.counter
    }

    /// A source whose first id carries the counter 0.
    pub fn new() -> (r: Self)
        ensures
            r.next_counter() == 0,
    {
        UploadIds { counter: 0 }
    }

    /// A new upload id, `<milliseconds since the epoch>-<counter>`.
    pub fn generate_upload_id(&mut self) -> (id: String)
        ensures
            exists|t: u64| id@ == upload_id(t, old(self).next_counter()),
            final(self).next_counter() == old(self).next_counter().wrapping_add(1),
            final(self).next_counter() != old(self).next_counter(),
    {
        let counter = self.counter;
        self.counter = counter.wrapping_add(1);
        let timestamp = timestamp_now_millis();
        let id = format_upload_id(timestamp, counter);
        assert(counter == old(self).next_counter());
        assert(id@ == upload_id(timestamp, old(self).next_counter()));
        id
    }
}


/// The bytes percent-encoded in keys: controls, `/`, `%`, space, `?`, `#` and `&`.
pub open spec fn key_encode_set() -> Set<u8> {
    Set::new(|b: u8| b < 0x20 || b == 0x7F || b == 0x2F || b == 0x25 || b == 0x20 || b == 0x3F || b == 0x23 || b == 0x26)
}

/// The uppercase hexadecimal digit of a value below 16.
pub open spec fn hex_upper(d: int) -> char {
    if d < 10 { (('0' as int) + d) as char } else { (('A' as int) + d - 10) as char }
}

/// Percent-encoding of bytes: a byte that is not ASCII or is in `set` becomes `%` and two
/// uppercase hexadecimal digits, any other byte the character it encodes.
pub open spec fn percent_encoded(bytes: Seq<u8>, set: Set<u8>) -> Seq<char>
    decreases bytes.len(),
{
    if bytes.len() == 0 {
        Seq::empty()
    } else {
        let b = bytes[0];
        let head = if b >= 128 || set.contains(b) {
            seq!['%', hex_upper(b as int / 16), hex_upper(b as int % 16)]
        } else {
            seq![b as char]
        };
        head + percent_encoded(bytes.drop_first(), set)
    }
}

/// The value of a hexadecimal digit of either case.
pub open spec fn hex_value(c: char) -> Option<u8> {
    if '0' <= c && c <= '9' {
        Some(((c as int) - ('0' as int)) as u8)
    } else if 'a' <= c && c <= 'f' {
        Some(((c as int) - ('a' as int) + 10) as u8)
    } else if 'A' <= c && c <= 'F' {
        Some(((c as int) - ('A' as int) + 10) as u8)
    } else {
        None
    }
}

/// Percent-decoding of the UTF-8 bytes of a string: `%` and two hexadecimal digits
/// become the byte they spell, every other byte stays.
pub open spec fn percent_decoded(bytes: Seq<u8>) -> Seq<u8>
    decreases bytes.len(),
{
    if bytes.len() == 0 {
        Seq::empty()
    } else if bytes[0] == 0x25 && bytes.len() >= 3 && hex_value(bytes[1] as char) is Some
        && hex_value(bytes[2] as char) is Some {
        seq![(hex_value(bytes[1] as char)->0 * 16 + hex_value(bytes[2] as char)->0) as u8]
            + percent_decoded(bytes.subrange(3, bytes.len() as int))
    } else {
        seq![bytes[0]] + percent_decoded(bytes.drop_first())
    }
}

/// `String::from_utf8`: the string whose UTF-8 encoding is `bytes`, if they are valid
/// UTF-8, else the error's message (whose wording is not stated).
#[verifier::external_body]
pub(crate) fn string_from_utf8(bytes: Vec<u8>) -> (r: Result<String, String>)
    ensures
        match r {
            Ok(s) => valid_utf8(bytes@) && encode_utf8(s@) == bytes@,
            Err(_) => !valid_utf8(bytes@),
        },
{
    String::from_utf8(bytes).map_err(|e| e.utf8_error().to_string())
}

fn in_key_encode_set(b: u8) -> (r: bool)
    ensures
        r == key_encode_set().contains(b),
{
    b < 0x20 || b == 0x7F || b == 0x2F || b == 0x25 || b == 0x20 || b == 0x3F || b == 0x23 || b == 0x26
}

fn hex_upper_char(d: u8) -> (c: char)
    requires
        d < 16,
    ensures
        c == hex_upper(d as int),
{
    if d < 10 { (48u8 + d) as char } else { (65u8 + d - 10) as char }
}

proof fn lemma_encoded_split(bytes: Seq<u8>, set: Set<u8>, i: int)
    requires
        0 <= i < bytes.len(),
    ensures
        percent_encoded(bytes.subrange(0, i + 1), set) == percent_encoded(bytes.subrange(0, i), set)
            + percent_encoded(seq![bytes[i]], set),
    decreases i,
{
    if i > 0 {
        let t = bytes.drop_first();
        lemma_encoded_split(t, set, i - 1);
        assert(bytes.subrange(0, i + 1).drop_first() =~= t.subrange(0, i));
        assert(bytes.subrange(0, i).drop_first() =~= t.subrange(0, i - 1));
        assert(percent_encoded(seq![bytes[i]], set) == percent_encoded(seq![t[i - 1]], set));
    } else {
        assert(bytes.subrange(0, 0) =~= Seq::<u8>::empty());
        assert(bytes.subrange(0, 1) =~= seq![bytes[0]]);
        assert(seq![bytes[0]].drop_first() =~= Seq::<u8>::empty());
    }
}

/// Encodes a key for use in URLs and file names: its UTF-8 bytes, with controls, `/`,
/// `%`, space, `?`, `#`, `&` and non-ASCII bytes written as `%XX`.
pub fn encode_key(key: &str) -> (r: String)
    ensures
        r@ == percent_encoded(encode_utf8(key@), key_encode_set()),
{
    let bytes = key.as_bytes();
    let mut out = String::new();
    let mut i: usize = 0;
    proof { assert(bytes@.subrange(0, 0) =~= Seq::<u8>::empty()); }
    while i < bytes.len()
        invariant
            i <= bytes@.len(),
            out@ == percent_encoded(bytes@.subrange(0, i as int), key_encode_set()),
        decreases bytes@.len() - i,
    {
        let b = bytes[i];
        proof {
            lemma_encoded_split(bytes@, key_encode_set(), i as int);
            assert(seq![b].drop_first() =~= Seq::<u8>::empty());
        }
        let ghost before = out@;
        if b >= 128 || in_key_encode_set(b) {
            crate::text::push_char(&mut out, '%');
            crate::text::push_char(&mut out, hex_upper_char(b / 16));
            crate::text::push_char(&mut out, hex_upper_char(b % 16));
        } else {
            crate::text::push_char(&mut out, b as char);
        }
        proof {
            let one = seq![b];
            assert(percent_encoded(one.drop_first(), key_encode_set()) =~= Seq::<char>::empty());
            if b >= 128 || key_encode_set().contains(b) {
                assert(percent_encoded(one, key_encode_set()) =~= seq!['%', hex_upper(b as int / 16), hex_upper(b as int % 16)]);
            } else {
                assert(percent_encoded(one, key_encode_set()) =~= seq![b as char]);
            }
            assert(out@ =~= before + percent_encoded(seq![b], key_encode_set()));
        }
        i = i + 1;
    }
    proof { assert(bytes@.subrange(0, bytes@.len() as int) =~= bytes@); }
    out
}

fn hex_value_byte(b: u8) -> (r: Option<u8>)
    ensures
        r == hex_value(b as char),
{
    if 48 <= b && b <= 57 {
        Some(b - 48)
    } else if 97 <= b && b <= 102 {
        Some(b - 97 + 10)
    } else if 65 <= b && b <= 70 {
        Some(b - 65 + 10)
    } else {
        None
    }
}

/// Percent-decodes bytes.
pub fn percent_decode_bytes(bytes: &[u8]) -> (r: Vec<u8>)
    ensures
        r@ == percent_decoded(bytes@),
{
    let mut out: Vec<u8> = Vec::new();
    let mut i: usize = 0;
    let n = bytes.len();
    proof {
        assert(bytes@.subrange(0, n as int) =~= bytes@);
        assert(out@ + percent_decoded(bytes@) =~= percent_decoded(bytes@));
    }
    while i < n
        invariant
            i <= n == bytes@.len(),
            out@ + percent_decoded(bytes@.subrange(i as int, n as int)) == percent_decoded(bytes@),
        decreases n - i,
    {
        let ghost rest = bytes@.subrange(i as int, n as int);
        let b = bytes[i];
        if b == 0x25 && n - i > 2 {
            let h = hex_value_byte(bytes[i + 1]);
            let l = hex_value_byte(bytes[i + 2]);
            if h.is_some() && l.is_some() {
                let v = h.unwrap() * 16 + l.unwrap();
                proof {
                    assert(rest[0] == b && rest[1] == bytes@[i + 1] && rest[2] == bytes@[i + 2]);
                    assert(rest.subrange(3, rest.len() as int) =~= bytes@.subrange(i + 3, n as int));
                    assert(out@.push(v) + percent_decoded(bytes@.subrange(i + 3, n as int)) =~= out@ + percent_decoded(rest));
                }
                out.push(v);
                i = i + 3;
                continue;
            }
        }
        proof {
            assert(rest[0] == b);
            assert(rest.drop_first() =~= bytes@.subrange(i + 1, n as int));
            assert(out@.push(b) + percent_decoded(bytes@.subrange(i + 1, n as int)) =~= out@ + percent_decoded(rest));
        }
        out.push(b);
        i = i + 1;
    }
    proof { assert(out@ + Seq::<u8>::empty() =~= out@); }
    out
}

/// Decodes a percent-encoded key.
pub fn decode_key(encoded: &str) -> (r: Result<String, Error>)
    ensures
        match r {
            Ok(s) => valid_utf8(percent_decoded(encode_utf8(encoded@)))
                && encode_utf8(s@) == percent_decoded(encode_utf8(encoded@)),
            Err(e) => e is Other && !valid_utf8(percent_decoded(encode_utf8(encoded@))),
        },
{
    let decoded = percent_decode_bytes(encoded.as_bytes());
    match string_from_utf8(decoded) {
        Ok(s) => Ok(s),
        Err(msg) => {
            let mut m = String::from_str("Failed to decode key: ");
            m.append(msg.as_str());
            Err(Error::Other(m))
        },
    }
}

/// The bytes of characters that are all ASCII.
pub open spec fn ascii_bytes(cs: Seq<char>) -> Seq<u8> {
    cs.map_values(|c: char| c as u8)
}

proof fn lemma_hex_upper_roundtrip(d: int)
    requires
        0 <= d < 16,
    ensures
        (hex_upper(d) as int) < 128,
        hex_value((hex_upper(d) as u8) as char) == Some(d as u8),
{
}

proof fn lemma_encoded_ascii(bytes: Seq<u8>, set: Set<u8>)
    ensures
        vstd::utf8::is_ascii_chars(percent_encoded(bytes, set)),
    decreases bytes.len(),
{
    if bytes.len() > 0 {
        lemma_encoded_ascii(bytes.drop_first(), set);
        let b = bytes[0];
        if b >= 128 || set.contains(b) {
            lemma_hex_upper_roundtrip(b as int / 16);
            lemma_hex_upper_roundtrip(b as int % 16);
        }
        let e = percent_encoded(bytes, set);
        let r = percent_encoded(bytes.drop_first(), set);
        assert forall|i: int| 0 <= i < e.len() implies '\0' <= #[trigger] e[i] <= '\u{7f}' by {
            if i >= e.len() - r.len() {
                assert(e[i] == r[i - (e.len() - r.len())]);
            }
        }
    }
}

proof fn lemma_decode_encoded(bytes: Seq<u8>, set: Set<u8>)
    requires
        set.contains(0x25u8),
    ensures
        percent_decoded(ascii_bytes(percent_encoded(bytes, set))) == bytes,
    decreases bytes.len(),
{
    if bytes.len() == 0 {
        assert(ascii_bytes(percent_encoded(bytes, set)) =~= Seq::<u8>::empty());
    } else {
        let b = bytes[0];
        let rest = percent_encoded(bytes.drop_first(), set);
        lemma_decode_encoded(bytes.drop_first(), set);
        let all = ascii_bytes(percent_encoded(bytes, set));
        if b >= 128 || set.contains(b) {
            let hi = b as int / 16;
            let lo = b as int % 16;
            lemma_hex_upper_roundtrip(hi);
            lemma_hex_upper_roundtrip(lo);
            let head = seq!['%', hex_upper(hi), hex_upper(lo)];
            assert(all =~= ascii_bytes(head) + ascii_bytes(rest));
            assert(all.subrange(3, all.len() as int) =~= ascii_bytes(rest));
            assert(all[0] == 0x25u8);
            assert(all[1] == hex_upper(hi) as u8);
            assert(all[2] == hex_upper(lo) as u8);
            assert((hi * 16 + lo) as u8 == b);
            assert(percent_decoded(all) =~= seq![b] + bytes.drop_first());
        } else {
            assert(all =~= seq![b] + ascii_bytes(rest));
            assert(all.drop_first() =~= ascii_bytes(rest));
            assert(b != 0x25u8);
            assert(percent_decoded(all) =~= seq![b] + bytes.drop_first());
        }
        assert(seq![b] + bytes.drop_first() =~= bytes);
    }
}

/// Decoding an encoded key gives the key back: the decoded bytes are valid UTF-8 and
/// the only string they encode is the key.
pub proof fn law_decode_key_inverts_encode_key(key: Seq<char>)
    ensures
        valid_utf8(percent_decoded(encode_utf8(percent_encoded(encode_utf8(key), key_encode_set())))),
        forall|s: Seq<char>| #[trigger] encode_utf8(s) == percent_decoded(encode_utf8(percent_encoded(encode_utf8(key), key_encode_set())))
            ==> s == key,
{
    broadcast use vstd::utf8::group_utf8_lib;
    let enc = percent_encoded(encode_utf8(key), key_encode_set());
    lemma_encoded_ascii(encode_utf8(key), key_encode_set());
    vstd::utf8::is_ascii_chars_encode_utf8(enc);
    assert(encode_utf8(enc) =~= ascii_bytes(enc));
    assert(key_encode_set().contains(0x25u8));
    lemma_decode_encoded(encode_utf8(key), key_encode_set());
    assert forall|s: Seq<char>| #[trigger] encode_utf8(s) == percent_decoded(encode_utf8(enc)) implies s == key by {
        vstd::utf8::encode_utf8_decode_utf8(s);
        vstd::utf8::encode_utf8_decode_utf8(key);
    }
}


/// `2` to the power `k`.
pub open spec fn pow2n(k: nat) -> nat
    decreases k,
{
    if k == 0 { 1 } else { 2 * pow2n((k - 1) as nat) }
}

/// The number of low bits that a double cannot hold of `b`: how often `b` must be halved
/// to fall below 2^53.
pub open spec fn excess_bits(b: nat) -> nat
    decreases b,
{
    if b < 0x20_0000_0000_0000 { 0 } else { 1 + excess_bits(b / 2) }
}

/// The value of `b as f64`: `b` rounded to 53 significant bits, a halfway case to the
/// neighbour whose last kept bit is zero (IEEE 754 rounding to nearest, ties to even).
pub open spec fn f64_value(b: nat) -> nat {
    let k = excess_bits(b);
    let p = pow2n(k);
    let q = b / p;
    let r = b % p;
    if k > 0 && (r > p / 2 || (r == p / 2 && q % 2 == 1)) { (q + 1) * p } else { q * p }
}

/// The value of `b as f64`, as a whole number.
fn f64_whole(b: u64) -> (r: u128)
    ensures
        r == f64_value(b as nat),
        r <= b + 0x1000,
{
    let mut x: u64 = b;
    let mut p: u128 = 1;
    let ghost mut k: nat = 0;
    while x >= 0x20_0000_0000_0000
        invariant
            p == pow2n(k),
            0 < p < 0x1000,
            x == b as nat / (p as nat),
            p * x <= b,
            excess_bits(b as nat) == k + excess_bits(x as nat),
        decreases x,
    {
        proof {
            vstd::arithmetic::div_mod::lemma_div_denominator(b as int, p as int, 2);
            assert(p < 0x800) by (nonlinear_arith)
                requires p * x <= b, x >= 0x20_0000_0000_0000, b <= u64::MAX;
            assert(p * 2 * (x / 2) <= p * x) by (nonlinear_arith)
                requires p > 0;
        }
        x = x / 2;
        p = p * 2;
        proof { k = k + 1; }
    }
    proof {
        vstd::arithmetic::div_mod::lemma_fundamental_div_mod(b as int, p as int);
    }
    let rem: u128 = b as u128 - p * x as u128;
    let half = p / 2;
    if p > 1 && (rem > half || (rem == half && x % 2 == 1)) {
        assert((x + 1) * p < 0x1_0000_0000_0000_0000_0000 && (x + 1) * p <= b + p) by (nonlinear_arith)
            requires x <= u64::MAX, 0 < p < 0x1000, p * x <= b;
        (x as u128 + 1) * p
    } else {
        x as u128 * p
    }
}


/// 1024 to the power `k`, for the units up to petabytes.
pub open spec fn unit_divisor(k: nat) -> nat {
    if k == 0 {
        1
    } else if k == 1 {
        1024
    } else if k == 2 {
        1_048_576
    } else if k == 3 {
        1_073_741_824
    } else if k == 4 {
        1_099_511_627_776
    } else {
        1_125_899_906_842_624
    }
}

/// The unit a size of `v` bytes is shown in, counting from unit `i`: the largest unit up
/// to petabytes that the size reaches one of.
pub open spec fn unit_steps(v: nat, i: nat) -> nat
    decreases 5 - i,
{
    if i < 5 && v >= unit_divisor(i + 1) { unit_steps(v, i + 1) } else { i }
}

/// The name of unit `k`.
pub open spec fn unit_name(k: nat) -> Seq<char> {
    if k == 0 {
        "B"@
    } else if k == 1 {
        "KB"@
    } else if k == 2 {
        "MB"@
    } else if k == 3 {
        "GB"@
    } else if k == 4 {
        "TB"@
    } else {
        "PB"@
    }
}

/// `n / d` rounded to the nearest whole number, a halfway case to the even one.
pub open spec fn round_half_even(n: nat, d: nat) -> nat {
    let q = n / d;
    let r = n % d;
    if 2 * r > d || (2 * r == d && q % 2 == 1) { q + 1 } else { q }
}

/// The decimal digit `d`.
pub open spec fn digit(d: nat) -> char {
    (('0' as int) + d) as char
}

/// A byte count as people read it (`{:.2} {unit}` of the count as a double, divided by
/// 1024 while it is 1024 or more, up to petabytes): the count in the unit, rounded to
/// hundredths, halfway cases to the even hundredth.
pub open spec fn bytes_text(bytes: u64) -> Seq<char> {
    let v = f64_value(bytes as nat);
    let k = unit_steps(v, 0);
    let h = round_half_even(v * 100, unit_divisor(k));
    decimal(h / 100) + "."@ + seq![digit((h % 100) / 10), digit(h % 10)] + " "@ + unit_name(k)
}

fn unit_name_str(k: usize) -> (r: &'static str)
    requires
        k <= 5,
    ensures
        r@ == unit_name(k as nat),
{
    proof {
        reveal_strlit("B");
        reveal_strlit("KB");
        reveal_strlit("MB");
        reveal_strlit("GB");
        reveal_strlit("TB");
        reveal_strlit("PB");
    }
    if k == 0 {
        "B"
    } else if k == 1 {
        "KB"
    } else if k == 2 {
        "MB"
    } else if k == 3 {
        "GB"
    } else if k == 4 {
        "TB"
    } else {
        "PB"
    }
}

/// A byte count in the largest unit up to petabytes that it reaches, with two decimals.
pub fn format_bytes(bytes: u64) -> (r: String)
    ensures
        r@ == bytes_text(bytes),
{
    let v = f64_whole(bytes);
    let mut k: usize = 0;
    let mut p: u128 = 1;
    while k < 5 && v >= p * 1024
        invariant
            k <= 5,
            p == unit_divisor(k as nat),
            unit_steps(v as nat, k as nat) == unit_steps(v as nat, 0),
        decreases 5 - k,
    {
        p = p * 1024;
        k = k + 1;
    }
    let t: u128 = v * 100;
    let q = t / p;
    let rem = t % p;
    let h: u128 = if rem * 2 > p || (rem * 2 == p && q % 2 == 1) { q + 1 } else { q };
    proof {
        vstd::arithmetic::div_mod::lemma_fundamental_div_mod(t as int, p as int);
        if k > 0 {
            assert(q * 1024 <= t) by (nonlinear_arith)
                requires q * p + rem == t, rem >= 0, p >= 1024, q >= 0;
        }
    }
    let whole = h / 100;
    let frac = h % 100;
    let mut s = decimal_string(whole as u64);
    s.append(".");
    crate::text::push_char(&mut s, ((frac / 10) as u8 + 48u8) as char);
    crate::text::push_char(&mut s, ((frac % 10) as u8 + 48u8) as char);
    s.append(" ");
    s.append(unit_name_str(k));
    proof {
        reveal_strlit(".");
        reveal_strlit(" ");
        assert(h % 100 % 10 == h % 10);
    }
    s
}

} // verus!
