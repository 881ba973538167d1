//! The decisions of the coordinator's multi-key requests: batches, transactions, range
//! listings and value searches. The caller runs each object operation a decision asks
//! for and hands back its outcome.
use vstd::prelude::*;
use vstd::string::StringExecFns;
use vstd::utf8::{decode_utf8, encode_utf8, valid_utf8};
use crate::backup::bytes_le;
use crate::objects::{object_error_message, ObjectError};
use crate::text::{chars_of, string_from_utf8_lossy, utf8_lossy};

verus! {

/// One operation of a batch or a transaction, as the client sent it.
pub struct KeyOp {
    /// `put`, `get` or `delete`.
    pub op: String,
    pub key: String,
    pub value: Option<String>,
}

/// What to do for one operation.
pub enum OpStep {
    /// Store `value` under the key.
    Put(Vec<u8>),
    /// Read the key (batches only).
    Get,
    /// Delete the key.
    Delete,
    /// Nothing: the operation is refused with this error.
    Refuse(String),
}

/// The value of what to do for one operation.
pub enum OpStepView {
    Put(Seq<u8>),
    Get,
    Delete,
    Refuse(Seq<char>),
}

impl OpStep {
    /// The value of this step.
    pub open spec fn view(&self) -> OpStepView {
        match self {
            OpStep::Put(v) => OpStepView::Put(v@),
            OpStep::Get => OpStepView::Get,
            OpStep::Delete => OpStepView::Delete,
            OpStep::Refuse(m) => OpStepView::Refuse(m@),
        }
    }
}

/// What a batch does for an operation: `put` with a value stores its UTF-8 bytes, `get`
/// reads, `delete` deletes; a `put` without value and any other operation are refused.
pub open spec fn batch_step_of(op: Seq<char>, value: Option<Seq<char>>) -> OpStepView {
    if op == "put"@ {
        match value {
            Some(v) => OpStepView::Put(encode_utf8(v)),
            None => OpStepView::Refuse("Missing value for put"@),
        }
    } else if op == "get"@ {
        OpStepView::Get
    } else if op == "delete"@ {
        OpStepView::Delete
    } else {
        OpStepView::Refuse("Unknown op"@)
    }
}

/// What a transaction does for an operation: as a batch, but it has no `get`, and its
/// refusals read `value required for put` and `unknown operation`.
pub open spec fn transaction_step_of(op: Seq<char>, value: Option<Seq<char>>) -> OpStepView {
    if op == "put"@ {
        match value {
            Some(v) => OpStepView::Put(encode_utf8(v)),
            None => OpStepView::Refuse("value required for put"@),
        }
    } else if op == "delete"@ {
        OpStepView::Delete
    } else {
        OpStepView::Refuse("unknown operation"@)
    }
}

/// The view of an optional string.
pub open spec fn opt_str(o: Option<String>) -> Option<Seq<char>> {
    match o {
        Some(s) => Some(s@),
        None => None,
    }
}

/// What a batch does for `op`.
pub fn batch_step(op: &KeyOp) -> (r: OpStep)
    ensures
        r.view() == batch_step_of(op.op@, opt_str(op.value)),
{
    proof {
        reveal_strlit("put");
        reveal_strlit("get");
        reveal_strlit("delete");
    }
    let put = String::from_str("put");
    let get = String::from_str("get");
    let delete = String::from_str("delete");
    if op.op == put {
        match &op.value {
            Some(v) => OpStep::Put(vstd::slice::slice_to_vec(v.as_str().as_bytes())),
            None => OpStep::Refuse(String::from_str("Missing value for put")),
        }
    } else if op.op == get {
        OpStep::Get
    } else if op.op == delete {
        OpStep::Delete
    } else {
        OpStep::Refuse(String::from_str("Unknown op"))
    }
}

/// What a transaction does for `op`.
pub fn transaction_step(op: &KeyOp) -> (r: OpStep)
    ensures
        r.view() == transaction_step_of(op.op@, opt_str(op.value)),
{
    proof {
        reveal_strlit("put");
        reveal_strlit("delete");
    }
    let put = String::from_str("put");
    let delete = String::from_str("delete");
    if op.op == put {
        match &op.value {
            Some(v) => OpStep::Put(vstd::slice::slice_to_vec(v.as_str().as_bytes())),
            None => OpStep::Refuse(String::from_str("value required for put")),
        }
    } else if op.op == delete {
        OpStep::Delete
    } else {
        OpStep::Refuse(String::from_str("unknown operation"))
    }
}

/// The answer for one operation of a batch.
pub struct BatchResult {
    pub ok: bool,
    pub key: String,
    pub value: Option<String>,
    pub error: Option<String>,
}

/// The answer for a write or a delete of a batch: its success, or the error's message.
pub fn batch_write_result(key: String, outcome: Result<(), ObjectError>) -> (r: BatchResult)
    ensures
        r.key@ == key@,
        r.value is None,
        match outcome {
            Ok(()) => r.ok && r.error is None,
            Err(e) => r.error matches Some(m) && m@ == object_error_message(e) && !r.ok,
        },
{
    match outcome {
        Ok(()) => BatchResult { ok: true, key, value: None, error: None },
        Err(e) => BatchResult { ok: false, key, value: None, error: Some(e.message()) },
    }
}


/// The answer for a read of a batch: the value as text, `Not found`, or the error's
/// message.
pub fn batch_read_result(key: String, outcome: Result<Vec<u8>, ObjectError>) -> (r: BatchResult)
    ensures
        r.key@ == key@,
        match outcome {
            Ok(v) => r.value matches Some(t) && t@ == utf8_lossy(v@) && r.ok && r.error is None,
            Err(ObjectError::NotFound) => r.error matches Some(m) && m@ == "Not found"@ && !r.ok && r.value is None,
            Err(e) => r.error matches Some(m) && m@ == object_error_message(e) && !r.ok && r.value is None,
        },
{
    match outcome {
        Ok(v) => BatchResult { ok: true, key, value: Some(string_from_utf8_lossy(v.as_slice())), error: None },
        Err(ObjectError::NotFound) => BatchResult { ok: false, key, value: None, error: Some(String::from_str("Not found")) },
        Err(e) => BatchResult { ok: false, key, value: None, error: Some(e.message()) },
    }
}

/// The answer for one operation of a transaction.
pub struct TransactionResult {
    pub op: String,
    pub key: String,
    pub success: bool,
    pub error: Option<String>,
}

/// The answer for an operation of a transaction, from the outcome of its object
/// operation; deleting a key that is not there counts as done.
pub fn transaction_result(op: String, key: String, is_delete: bool, outcome: Result<(), ObjectError>) -> (r: TransactionResult)
    ensures
        r.op@ == op@,
        r.key@ == key@,
        match outcome {
            Ok(()) => r.success && r.error is None,
            Err(ObjectError::NotFound) => if is_delete { r.success && r.error is None } else {
                r.error matches Some(m) && m@ == "not found"@ && !r.success
            },
            Err(e) => r.error matches Some(m) && m@ == object_error_message(e) && !r.success,
        },
{
    let outcome = match outcome {
        Err(ObjectError::NotFound) => if is_delete { Ok(()) } else { Err(ObjectError::NotFound) },
        other => other,
    };
    match outcome {
        Ok(()) => TransactionResult { op, key, success: true, error: None },
        Err(e) => TransactionResult { op, key, success: false, error: Some(e.message()) },
    }
}

/// The answer for an operation of a transaction that was refused before running.
pub fn transaction_refusal(op: String, key: String, error: String) -> (r: TransactionResult)
    ensures
        r.error matches Some(m) && m@ == error@ && r.op@ == op@ && r.key@ == key@ && !r.success,
{
    TransactionResult { op, key, success: false, error: Some(error) }
}

/// The number of successful operations.
pub open spec fn successes(rs: Seq<TransactionResult>) -> nat
    decreases rs.len(),
{
    if rs.len() == 0 {
        0
    } else {
        successes(rs.drop_last()) + if rs.last().success { 1nat } else { 0nat }
    }
}

proof fn lemma_successes_le(rs: Seq<TransactionResult>)
    ensures
        successes(rs) <= rs.len(),
    decreases rs.len(),
{
    if rs.len() > 0 {
        lemma_successes_le(rs.drop_last());
    }
}

/// The number of successful operations of a transaction.
pub fn count_successes(results: &Vec<TransactionResult>) -> (r: usize)
    ensures
        r == successes(results@),
{
    let mut n: usize = 0;
    let mut i: usize = 0;
    while i < results.len()
        invariant
            i <= results@.len(),
            n == successes(results@.take(i as int)),
        decreases results@.len() - i,
    {
        proof {
            assert(results@.take(i as int + 1).drop_last() =~= results@.take(i as int));
            lemma_successes_le(results@.take(i as int));
        }
        if results[i].success {
            n = n + 1;
        }
        i = i + 1;
    }
    proof { assert(results@.take(i as int) =~= results@); }
    n
}

/// Whether key `k` lies in the range from `start` to `end`, both included, in `String`
/// order (by UTF-8 bytes).
pub open spec fn in_range(k: Seq<char>, start: Seq<char>, end: Seq<char>) -> bool {
    bytes_le(encode_utf8(start), encode_utf8(k)) && bytes_le(encode_utf8(k), encode_utf8(end))
}

/// `s` with `k` inserted after every key that sorts before or with it.
pub open spec fn insert_key(s: Seq<Seq<char>>, k: Seq<char>) -> Seq<Seq<char>>
    decreases s.len(),
{
    if s.len() == 0 {
        seq![k]
    } else if bytes_le(encode_utf8(s.last()), encode_utf8(k)) {
        s.push(k)
    } else {
        insert_key(s.drop_last(), k).push(s.last())
    }
}

/// The keys in `String` order.
pub open spec fn sorted_keys(s: Seq<Seq<char>>) -> Seq<Seq<char>>
    decreases s.len(),
{
    if s.len() == 0 {
        Seq::empty()
    } else {
        insert_key(sorted_keys(s.drop_last()), s.last())
    }
}

/// The keys in the range, in their order.
pub open spec fn keys_in_range(s: Seq<Seq<char>>, start: Seq<char>, end: Seq<char>) -> Seq<Seq<char>>
    decreases s.len(),
{
    if s.len() == 0 {
        Seq::empty()
    } else if in_range(s.last(), start, end) {
        keys_in_range(s.drop_last(), start, end).push(s.last())
    } else {
        keys_in_range(s.drop_last(), start, end)
    }
}

/// The text of each string.
pub open spec fn texts(s: Seq<String>) -> Seq<Seq<char>> {
    s.map_values(|x: String| x@)
}

fn key_le(a: &String, b: &String) -> (r: bool)
    ensures
        r == bytes_le(encode_utf8(a@), encode_utf8(b@)),
{
    let x = a.as_str().as_bytes();
    let y = b.as_str().as_bytes();
    let mut i: usize = 0;
    proof {
        assert(x@.subrange(0, x@.len() as int) =~= x@);
        assert(y@.subrange(0, y@.len() as int) =~= y@);
    }
    while i < x.len() && i < y.len()
        invariant
            x@ == encode_utf8(a@),
            y@ == encode_utf8(b@),
            i <= x@.len(),
            i <= y@.len(),
            bytes_le(x@, y@) == bytes_le(x@.subrange(i as int, x@.len() as int), y@.subrange(i as int, y@.len() as int)),
        decreases x@.len() - i,
    {
        let ghost xs = x@.subrange(i as int, x@.len() as int);
        let ghost ys = y@.subrange(i as int, y@.len() as int);
        if x[i] != y[i] {
            proof {
                assert(xs[0] == x@[i as int] && ys[0] == y@[i as int]);
                assert(bytes_le(xs, ys) == (xs[0] < ys[0]));
            }
            return x[i] < y[i];
        }
        proof {
            assert(xs.drop_first() =~= x@.subrange(i + 1, x@.len() as int));
            assert(ys.drop_first() =~= y@.subrange(i + 1, y@.len() as int));
        }
        i = i + 1;
    }
    proof {
        let xs = x@.subrange(i as int, x@.len() as int);
        let ys = y@.subrange(i as int, y@.len() as int);
        if i == x@.len() {
            assert(xs.len() == 0);
        } else {
            assert(ys.len() == 0 && xs.len() > 0);
        }
    }
    i == x.len()
}

fn insert_key_exec(out: &mut Vec<String>, k: String)
    ensures
        texts(final(out)@) == insert_key(texts(old(out)@), k@),
{
    let mut p: usize = out.len();
    let ghost kv = k@;
    proof {
        assert(texts(out@).take(p as int) =~= texts(out@));
        assert(insert_key(texts(out@), kv) + texts(out@).skip(p as int) =~= insert_key(texts(out@), kv));
    }
    while p > 0
        invariant
            out@ == old(out)@,
            kv == k@,
            p <= out@.len(),
            insert_key(texts(out@), kv) == insert_key(texts(out@).take(p as int), kv) + texts(out@).skip(p as int),
        ensures
            out@ == old(out)@,
            p <= out@.len(),
            insert_key(texts(out@), kv) == insert_key(texts(out@).take(p as int), kv) + texts(out@).skip(p as int),
            p > 0 ==> bytes_le(encode_utf8(texts(out@)[p - 1]), encode_utf8(kv)),
        decreases p,
    {
        if key_le(&out[p - 1], &k) {
            proof { assert(texts(out@)[p - 1] == out@[p - 1]@); }
            break;
        }
        proof {
            assert(texts(out@)[p - 1] == out@[p - 1]@);
            let t = texts(out@).take(p as int);
            assert(t.drop_last() =~= texts(out@).take(p - 1));
            assert(t.last() == texts(out@)[p - 1]);
            assert(texts(out@).skip(p - 1) =~= seq![texts(out@)[p - 1]] + texts(out@).skip(p as int));
            assert(insert_key(t, kv) == insert_key(t.drop_last(), kv).push(t.last()));
            assert(insert_key(t.drop_last(), kv).push(t.last()) + texts(out@).skip(p as int)
                =~= insert_key(t.drop_last(), kv) + texts(out@).skip(p - 1));
        }
        p = p - 1;
    }
    let ghost before = texts(out@);
    proof {
        let t = before.take(p as int);
        if p > 0 {
            assert(t.last() == before[p - 1]);
            assert(insert_key(t, kv) == t.push(kv));
        } else {
            assert(t =~= Seq::<Seq<char>>::empty());
            assert(insert_key(t, kv) == seq![kv]);
        }
    }
    out.insert(p, k);
    proof {
        assert(texts(out@) =~= before.take(p as int).push(kv) + before.skip(p as int));
    }
}

/// The keys from `start` to `end`, both included, in `String` order.
pub fn range_keys(keys: Vec<String>, start: &String, end: &String) -> (r: Vec<String>)
    ensures
        texts(r@) == sorted_keys(keys_in_range(texts(keys@), start@, end@)),
{
    let mut out: Vec<String> = Vec::new();
    let ghost ks = texts(keys@);
    let ghost mut kept: Seq<Seq<char>> = Seq::empty();
    for k in it: keys
        invariant
            ks == texts(it.seq()),
            kept == keys_in_range(ks.take(it.index() as int), start@, end@),
            texts(out@) == sorted_keys(kept),
    {
        proof {
            assert(ks.take(it.index() as int + 1).drop_last() =~= ks.take(it.index() as int));
            assert(ks.take(it.index() as int + 1).last() == k@);
        }
        if key_le(start, &k) && key_le(&k, end) {
            proof {
                assert(kept.push(k@).drop_last() =~= kept);
                kept = kept.push(k@);
            }
            insert_key_exec(&mut out, k);
        }
    }
    proof { assert(ks.take(ks.len() as int) =~= ks); }
    out
}

/// Whether `pattern` occurs in `text`.
pub open spec fn occurs_in(pattern: Seq<char>, text: Seq<char>) -> bool {
    exists|i: int| 0 <= i <= text.len() - pattern.len() && #[trigger] text.subrange(i, i + pattern.len()) == pattern
}

/// Whether a stored value matches a search: it is UTF-8 and holds the searched text.
pub open spec fn value_matches(value: Seq<u8>, pattern: Seq<char>) -> bool {
    valid_utf8(value) && occurs_in(pattern, decode_utf8(value))
}

/// Whether `pattern` occurs in `text`.
fn contains_text(text: &Vec<char>, pattern: &Vec<char>) -> (r: bool)
    ensures
        r == occurs_in(pattern@, text@),
{
    if pattern.len() > text.len() {
        proof {
            if occurs_in(pattern@, text@) {
                let i = choose|i: int| 0 <= i <= text@.len() - pattern@.len() && #[trigger] text@.subrange(i, i + pattern@.len()) == pattern@;
            }
        }
        return false;
    }
    let n = text.len();
    let last = n - pattern.len();
    let mut i: usize = 0;
    loop
        invariant
            n == text@.len(),
            pattern@.len() <= text@.len(),
            last == text@.len() - pattern@.len(),
            i <= last,
            forall|j: int| 0 <= j < i ==> #[trigger] text@.subrange(j, j + pattern@.len()) != pattern@,
        decreases last - i,
    {
        let mut k: usize = 0;
        let mut same = true;
        while k < pattern.len()
            invariant
                n == text@.len(),
                pattern@.len() <= text@.len(),
                i <= last,
                last == text@.len() - pattern@.len(),
                k <= pattern@.len(),
                same == forall|m: int| 0 <= m < k ==> text@[i + m] == pattern@[m],
            decreases pattern@.len() - k,
        {
            if text[i + k] != pattern[k] {
                same = false;
            }
            k = k + 1;
        }
        proof {
            if same {
                assert(text@.subrange(i as int, i + pattern@.len()) =~= pattern@);
            } else {
                let m = choose|m: int| 0 <= m < k && text@[i + m] != pattern@[m];
                assert(text@.subrange(i as int, i + pattern@.len())[m] == text@[i + m]);
            }
        }
        if same {
            return true;
        }
        if i == last {
            proof {
                if occurs_in(pattern@, text@) {
                    let j = choose|j: int| 0 <= j <= text@.len() - pattern@.len() && #[trigger] text@.subrange(j, j + pattern@.len()) == pattern@;
                    assert(j < i || j == i);
                }
            }
            return false;
        }
        i = i + 1;
    }
}

/// Whether a stored value matches a search for `pattern`.
pub fn value_contains(value: &[u8], pattern: &str) -> (r: bool)
    ensures
        r == value_matches(value@, pattern@),
{
    match crate::utils::string_from_utf8(vstd::slice::slice_to_vec(value)) {
        Ok(text) => {
            proof {
                vstd::utf8::decode_utf8_encode_utf8(value@);
                vstd::utf8::encode_utf8_decode_utf8(text@);
            }
            contains_text(&chars_of(text.as_str()), &chars_of(pattern))
        },
        Err(_) => false,
    }
}

} // verus!
