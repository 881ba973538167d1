//! The on-disk layout of the coordinator's replicated log.
//!
//! The log file is a sequence of records. A record is the length of its body (4 bytes),
//! the CRC-32 of the body (4 bytes) and the body, numbers little-endian. On reopening,
//! the records are read from the start up to the first one that is torn or damaged, or
//! whose entry does not carry the next index; whatever follows is cut off.
use vstd::prelude::*;
use vstd::bytes::{
    lemma_auto_spec_u32_to_from_le_bytes, spec_u32_from_le_bytes, spec_u32_to_le_bytes,
    u32_from_le_bytes, u32_to_le_bytes,
};
use vstd::bytes::{
    lemma_auto_spec_u64_to_from_le_bytes, spec_u64_from_le_bytes, spec_u64_to_le_bytes,
    u64_from_le_bytes, u64_to_le_bytes,
};
use vstd::utf8::{decode_utf8, encode_utf8, valid_utf8};
use crate::utils::{append_bytes, crc32, crc32_of, string_from_utf8};

verus! {

/// The persistent part of a node's Raft state: its term and its vote in that term.
#[derive(Debug, Clone, PartialEq, Eq)]
pub struct HardState {
    pub term: u64,
    pub voted_for: Option<String>,
}

impl Default for HardState {
    fn default() -> (r: Self)
        ensures
            r.term == 0,
            r.voted_for is None,
    {
        HardState { term: 0, voted_for: None }
    }
}

/// The text of an optional string.
pub open spec fn opt_text(o: Option<String>) -> Option<Seq<char>> {
    match o {
        Some(s) => Some(s@),
        None => None,
    }
}

/// The bytes of a hard state: the term (8 bytes, little-endian), then a flag byte, 0 for
/// no vote or 1 for a vote followed by the candidate's name as its UTF-8 length (8 bytes,
/// little-endian) and bytes.
pub open spec fn hard_state_bytes(term: u64, voted_for: Option<Seq<char>>) -> Seq<u8> {
    spec_u64_to_le_bytes(term) + match voted_for {
        None => seq![0u8],
        Some(c) => seq![1u8] + spec_u64_to_le_bytes(encode_utf8(c).len() as u64) + encode_utf8(c),
    }
}

/// The term and vote that the bytes at the start of `b` hold, `None` where they are cut
/// short, have another flag or a name that is not UTF-8. Bytes after them are not read.
pub open spec fn parse_hard_state(b: Seq<u8>) -> Option<(u64, Option<Seq<char>>)> {
    if b.len() < 9 {
        None
    } else {
        let term = spec_u64_from_le_bytes(b.subrange(0, 8));
        if b[8] == 0 {
            Some((term, None))
        } else if b[8] != 1 || b.len() < 17 {
            None
        } else {
            let n = spec_u64_from_le_bytes(b.subrange(9, 17)) as int;
            if b.len() - 17 < n || !valid_utf8(b.subrange(17, 17 + n)) {
                None
            } else {
                Some((term, Some(decode_utf8(b.subrange(17, 17 + n)))))
            }
        }
    }
}

impl HardState {
    /// The bytes that store this state.
    pub fn encode(&self) -> (r: Vec<u8>)
        ensures
            r@ == hard_state_bytes(self.term, opt_text(self.voted_for)),
    {
        let t = u64_to_le_bytes(self.term);
        let mut out: Vec<u8> = Vec::new();
        append_bytes(&mut out, t.as_slice());
        match &self.voted_for {
            None => {
                out.push(0u8);
            },
            Some(c) => {
                out.push(1u8);
                let cb = c.as_str().as_bytes();
                let n = u64_to_le_bytes(cb.len() as u64);
                append_bytes(&mut out, n.as_slice());
                append_bytes(&mut out, cb);
            },
        }
        proof { assert(out@ =~= hard_state_bytes(self.term, opt_text(self.voted_for))); }
        out
    }

    /// The state that stored bytes hold, `None` where `parse_hard_state` finds none.
    pub fn decode(bytes: &[u8]) -> (r: Option<HardState>)
        ensures
            match parse_hard_state(bytes@) {
                Some((t, v)) => r matches Some(h) && h.term == t && opt_text(h.voted_for) == v,
                None => r is None,
            },
    {
        let n = bytes.len();
        if n < 9 {
            return None;
        }
        let term = u64_from_le_bytes(vstd::slice::slice_subrange(bytes, 0, 8));
        if bytes[8] == 0 {
            return Some(HardState { term, voted_for: None });
        }
        if bytes[8] != 1 || n < 17 {
            return None;
        }
        let len = u64_from_le_bytes(vstd::slice::slice_subrange(bytes, 9, 17));
        if ((n - 17) as u64) < len {
            return None;
        }
        let e = 17 + len as usize;
        let name = vstd::slice::slice_to_vec(vstd::slice::slice_subrange(bytes, 17, e));
        proof { assert(name@ =~= bytes@.subrange(17, e as int)); }
        match string_from_utf8(name) {
            Ok(c) => {
                proof {
                    vstd::utf8::decode_utf8_encode_utf8(bytes@.subrange(17, e as int));
                    vstd::utf8::encode_utf8_decode_utf8(c@);
                }
                Some(HardState { term, voted_for: Some(c) })
            },
            Err(_) => None,
        }
    }
}

/// Stored state reads back as what was stored, whatever bytes follow it.
pub proof fn law_hard_state_read_back(term: u64, voted_for: Option<Seq<char>>, rest: Seq<u8>)
    requires
        voted_for matches Some(c) ==> encode_utf8(c).len() <= u64::MAX,
    ensures
        parse_hard_state(hard_state_bytes(term, voted_for) + rest) == Some((term, voted_for)),
{
    lemma_auto_spec_u64_to_from_le_bytes();
    let b = hard_state_bytes(term, voted_for) + rest;
    assert(b.subrange(0, 8) =~= spec_u64_to_le_bytes(term));
    match voted_for {
        None => {
            assert(b[8] == 0);
        },
        Some(c) => {
            let cb = encode_utf8(c);
            assert(b[8] == 1);
            vstd::utf8::encode_utf8_valid_utf8(c);
            vstd::utf8::encode_utf8_decode_utf8(c);
            assert(b.subrange(9, 17) =~= spec_u64_to_le_bytes(cb.len() as u64));
            assert(b.subrange(17, 17 + cb.len() as int) =~= cb);
        },
    }
}

/// The bytes of the record of one body.
pub open spec fn log_record(body: Seq<u8>) -> Seq<u8> {
    spec_u32_to_le_bytes(body.len() as u32) + spec_u32_to_le_bytes(crc32_of(body)) + body
}

/// The bytes of records of the given bodies, one after the other.
pub open spec fn log_records(bodies: Seq<Seq<u8>>) -> Seq<u8>
    decreases bodies.len(),
{
    if bodies.len() == 0 {
        Seq::empty()
    } else {
        log_records(bodies.drop_last()) + log_record(bodies.last())
    }
}

/// The number of bytes that records of the given bodies take.
pub open spec fn records_len(bodies: Seq<Seq<u8>>) -> nat
    decreases bodies.len(),
{
    if bodies.len() == 0 {
        0
    } else {
        records_len(bodies.drop_last()) + 8 + bodies.last().len()
    }
}

/// The length of the body of the intact record at the start of `b`, if there is one:
/// its header and its whole body are there, and the checksum matches.
pub open spec fn frame_at(b: Seq<u8>) -> Option<nat> {
    if b.len() < 8 {
        None
    } else {
        let len = spec_u32_from_le_bytes(b.subrange(0, 4)) as int;
        if b.len() < 8 + len {
            None
        } else if crc32_of(b.subrange(8, 8 + len)) != spec_u32_from_le_bytes(b.subrange(4, 8)) {
            None
        } else {
            Some(len as nat)
        }
    }
}

/// The bodies of the intact records at the start of `b`, up to the first torn or
/// damaged record.
pub open spec fn log_bodies(b: Seq<u8>) -> Seq<Seq<u8>>
    decreases b.len(),
{
    match frame_at(b) {
        Some(len) => seq![b.subrange(8, 8 + len as int)] + log_bodies(b.subrange(8 + len as int, b.len() as int)),
        None => Seq::empty(),
    }
}

/// Whether every body fits the 4-byte length of a record.
pub open spec fn bodies_fit(bodies: Seq<Seq<u8>>) -> bool {
    forall|i: int| 0 <= i < bodies.len() ==> #[trigger] bodies[i].len() <= u32::MAX
}

proof fn lemma_log_records_len(bodies: Seq<Seq<u8>>)
    ensures
        log_records(bodies).len() == records_len(bodies),
    decreases bodies.len(),
{
    if bodies.len() > 0 {
        lemma_log_records_len(bodies.drop_last());
        lemma_auto_spec_u32_to_from_le_bytes();
    }
}

proof fn lemma_records_len_prefix(bodies: Seq<Seq<u8>>, i: int)
    requires
        0 <= i <= bodies.len(),
    ensures
        records_len(bodies.take(i)) <= records_len(bodies),
    decreases bodies.len(),
{
    if i < bodies.len() {
        assert(bodies.drop_last().take(i) =~= bodies.take(i));
        lemma_records_len_prefix(bodies.drop_last(), i);
    } else {
        assert(bodies.take(i) =~= bodies);
    }
}

/// Reading back the record of a body gives that body, whatever bytes follow it.
pub proof fn law_log_record_read_back(body: Seq<u8>, rest: Seq<u8>)
    requires
        body.len() <= u32::MAX,
    ensures
        log_bodies(log_record(body) + rest) == seq![body] + log_bodies(rest),
{
    lemma_auto_spec_u32_to_from_le_bytes();
    let b = log_record(body) + rest;
    let len = body.len() as int;
    assert(b.subrange(0, 4) =~= spec_u32_to_le_bytes(body.len() as u32));
    assert(b.subrange(4, 8) =~= spec_u32_to_le_bytes(crc32_of(body)));
    assert(b.subrange(8, 8 + len) =~= body);
    assert(frame_at(b) == Some(len as nat));
    assert(b.subrange(8 + len, b.len() as int) =~= rest);
}

/// Records written one after the other read back as their bodies, in order, whatever
/// bytes follow them.
pub proof fn law_log_records_read_back(bodies: Seq<Seq<u8>>, rest: Seq<u8>)
    requires
        bodies_fit(bodies),
    ensures
        log_bodies(log_records(bodies) + rest) == bodies + log_bodies(rest),
    decreases bodies.len(),
{
    if bodies.len() == 0 {
        assert(log_records(bodies) + rest =~= rest);
        assert(bodies + log_bodies(rest) =~= log_bodies(rest));
    } else {
        let init = bodies.drop_last();
        let last = bodies.last();
        assert(bodies_fit(init)) by {
            assert forall|i: int| 0 <= i < init.len() implies #[trigger] init[i].len() <= u32::MAX by {
                assert(init[i] == bodies[i]);
            }
        }
        assert(last.len() <= u32::MAX) by {
            assert(bodies[bodies.len() - 1] == last);
        }
        law_log_record_read_back(last, rest);
        law_log_records_read_back(init, log_record(last) + rest);
        assert(log_records(bodies) + rest =~= log_records(init) + (log_record(last) + rest));
        assert(init + (seq![last] + log_bodies(rest)) =~= bodies + log_bodies(rest));
    }
}

/// A record cut short anywhere reads as nothing: a torn tail is dropped.
pub proof fn law_torn_record_is_dropped(body: Seq<u8>, k: int)
    requires
        body.len() <= u32::MAX,
        0 <= k < log_record(body).len(),
    ensures
        log_bodies(log_record(body).subrange(0, k)) == Seq::<Seq<u8>>::empty(),
{
    lemma_auto_spec_u32_to_from_le_bytes();
    let t = log_record(body).subrange(0, k);
    if k >= 8 {
        assert(t.subrange(0, 4) =~= spec_u32_to_le_bytes(body.len() as u32));
    }
    assert(frame_at(t) is None);
}

/// Where one intact record lies in the log file: its start, and the start and end of its
/// body.
#[derive(Debug, Clone, Copy)]
pub struct LogFrame {
    pub offset: usize,
    pub body_start: usize,
    pub body_end: usize,
}

/// Whether `frames` are the records that start the log `bytes`, in order.
pub open spec fn frames_of(frames: Seq<LogFrame>, bytes: Seq<u8>) -> bool {
    let bodies = log_bodies(bytes);
    &&& frames.len() == bodies.len()
    &&& forall|i: int| 0 <= i < frames.len() ==> {
        &&& (#[trigger] frames[i]).offset == records_len(bodies.take(i))
        &&& frames[i].body_start == frames[i].offset + 8
        &&& frames[i].body_end == frames[i].body_start + bodies[i].len()
        &&& frames[i].body_end <= bytes.len()
        &&& bytes.subrange(frames[i].body_start as int, frames[i].body_end as int) == bodies[i]
    }
}

/// The intact records at the start of a log file, up to the first torn or damaged one.
pub fn scan_log_frames(bytes: &[u8]) -> (frames: Vec<LogFrame>)
    ensures
        frames_of(frames@, bytes@),
        records_len(log_bodies(bytes@)) <= bytes@.len(),
        bytes@.subrange(0, records_len(log_bodies(bytes@)) as int) == log_records(log_bodies(bytes@)),
{
    let n = bytes.len();
    let mut frames: Vec<LogFrame> = Vec::new();
    let mut pos: usize = 0;
    let ghost all = log_bodies(bytes@);
    let ghost mut seen: Seq<Seq<u8>> = Seq::empty();
    proof {
        assert(bytes@.subrange(0, n as int) =~= bytes@);
        assert(bytes@.subrange(0, 0) =~= log_records(seen));
        assert(seen + all =~= all);
    }
    loop
        invariant
            n == bytes@.len(),
            pos <= n,
            all == log_bodies(bytes@),
            seen + log_bodies(bytes@.subrange(pos as int, n as int)) == all,
            pos == records_len(seen),
            bytes@.subrange(0, pos as int) == log_records(seen),
            frames@.len() == seen.len(),
            forall|i: int| 0 <= i < frames@.len() ==> {
                &&& (#[trigger] frames@[i]).offset == records_len(seen.take(i))
                &&& frames@[i].body_start == frames@[i].offset + 8
                &&& frames@[i].body_end == frames@[i].body_start + seen[i].len()
                &&& frames@[i].body_end <= pos
                &&& bytes@.subrange(frames@[i].body_start as int, frames@[i].body_end as int) == seen[i]
            },
        ensures
            seen == all,
        decreases n - pos,
    {
        let ghost rest = bytes@.subrange(pos as int, n as int);
        if n - pos < 8 {
            proof {
                assert(log_bodies(rest) =~= Seq::<Seq<u8>>::empty());
                assert(seen + Seq::<Seq<u8>>::empty() =~= seen);
            }
            break;
        }
        let len = u32_from_le_bytes(vstd::slice::slice_subrange(bytes, pos, pos + 4)) as usize;
        let stored = u32_from_le_bytes(vstd::slice::slice_subrange(bytes, pos + 4, pos + 8));
        proof {
            assert(bytes@.subrange(pos as int, pos + 4) =~= rest.subrange(0, 4));
            assert(bytes@.subrange(pos + 4, pos + 8) =~= rest.subrange(4, 8));
        }
        if n - pos - 8 < len {
            proof {
                assert(log_bodies(rest) =~= Seq::<Seq<u8>>::empty());
                assert(seen + Seq::<Seq<u8>>::empty() =~= seen);
            }
            break;
        }
        let start = pos + 8;
        let end = start + len;
        let computed = crc32(vstd::slice::slice_subrange(bytes, start, end));
        proof {
            assert(bytes@.subrange(start as int, end as int) =~= rest.subrange(8, 8 + len));
        }
        if computed != stored {
            proof {
                assert(log_bodies(rest) =~= Seq::<Seq<u8>>::empty());
                assert(seen + Seq::<Seq<u8>>::empty() =~= seen);
            }
            break;
        }
        let ghost body = rest.subrange(8, 8 + len as int);
        proof {
            lemma_auto_spec_u32_to_from_le_bytes();
            assert(frame_at(rest) == Some(len as nat));
            assert(rest.subrange(8 + len as int, rest.len() as int) =~= bytes@.subrange(end as int, n as int));
            assert(log_bodies(rest) == seq![body] + log_bodies(bytes@.subrange(end as int, n as int)));
            assert(seen.push(body) + log_bodies(bytes@.subrange(end as int, n as int)) =~= seen + log_bodies(rest));
            assert(seen.push(body).drop_last() =~= seen);
            assert(body.len() == len);
            assert(body.len() <= u32::MAX);
            assert(spec_u32_to_le_bytes(body.len() as u32) =~= rest.subrange(0, 4)) by {
                assert(spec_u32_to_le_bytes(spec_u32_from_le_bytes(rest.subrange(0, 4))) == rest.subrange(0, 4));
            }
            assert(spec_u32_to_le_bytes(crc32_of(body)) =~= rest.subrange(4, 8)) by {
                assert(spec_u32_to_le_bytes(spec_u32_from_le_bytes(rest.subrange(4, 8))) == rest.subrange(4, 8));
            }
            assert(bytes@.subrange(0, end as int) =~= bytes@.subrange(0, pos as int) + log_record(body));
            assert(log_records(seen.push(body)) == log_records(seen) + log_record(body));
        }
        let frame = LogFrame { offset: pos, body_start: start, body_end: end };
        frames.push(frame);
        proof {
            let s2 = seen.push(body);
            assert forall|i: int| 0 <= i < frames@.len() implies {
                &&& (#[trigger] frames@[i]).offset == records_len(s2.take(i))
                &&& frames@[i].body_start == frames@[i].offset + 8
                &&& frames@[i].body_end == frames@[i].body_start + s2[i].len()
                &&& frames@[i].body_end <= end
                &&& bytes@.subrange(frames@[i].body_start as int, frames@[i].body_end as int) == s2[i]
            } by {
                if i < seen.len() {
                    assert(s2.take(i) =~= seen.take(i));
                } else {
                    assert(s2.take(i) =~= seen);
                }
            }
            seen = s2;
        }
        pos = end;
    }
    proof {
        assert forall|i: int| 0 <= i < frames@.len() implies #[trigger] frames@[i].body_end <= bytes@.len() by {}
    }
    frames
}

/// How many of the entries read from the records, in order, are kept on reopening: those
/// before the first that could not be read (`None`) or does not carry the next index
/// (1 for the first).
pub open spec fn kept_entries(indices: Seq<Option<u64>>) -> nat {
    kept_from(indices, 0)
}

/// Whether an entry was read and carries the index `index`.
pub open spec fn carries_index(o: Option<u64>, index: int) -> bool {
    match o {
        Some(x) => x == index,
        None => false,
    }
}

/// The position of the first entry from `i` on that is not kept, or the length.
pub open spec fn kept_from(indices: Seq<Option<u64>>, i: int) -> nat
    decreases indices.len() - i,
{
    if i < 0 || i >= indices.len() {
        if i < 0 { 0 } else { indices.len() }
    } else {
        if carries_index(indices[i], i + 1) { kept_from(indices, i + 1) } else { i as nat }
    }
}

proof fn lemma_kept_from(indices: Seq<Option<u64>>, i: int)
    requires
        0 <= i <= indices.len(),
        forall|j: int| 0 <= j < i ==> carries_index(#[trigger] indices[j], j + 1),
    ensures
        i <= kept_from(indices, i) <= indices.len(),
        forall|j: int| 0 <= j < kept_from(indices, i) ==> carries_index(#[trigger] indices[j], j + 1),
        kept_from(indices, i) < indices.len() ==> !carries_index(indices[kept_from(indices, i) as int], kept_from(indices, i) as int + 1),
    decreases indices.len() - i,
{
    if i < indices.len() && carries_index(indices[i], i + 1) {
        assert forall|j: int| 0 <= j < i + 1 implies carries_index(#[trigger] indices[j], j + 1) by {}
        lemma_kept_from(indices, i + 1);
    }
}

/// Whether a log file holding the records of `bodies` has its records at `offsets` and
/// ends at `end`.
pub open spec fn layout_describes(offsets: Seq<u64>, end: int, bodies: Seq<Seq<u8>>) -> bool {
    &&& offsets.len() == bodies.len()
    &&& forall|i: int| 0 <= i < bodies.len() ==> #[trigger] offsets[i] == records_len(bodies.take(i))
    &&& end == records_len(bodies)
}

/// The starts of records of `bodies` appended to a file that ends at `end`.
pub open spec fn appended_offsets(end: int, bodies: Seq<Seq<u8>>) -> Seq<u64> {
    Seq::new(bodies.len(), |i: int| (end + records_len(bodies.take(i))) as u64)
}

proof fn lemma_records_len_concat(a: Seq<Seq<u8>>, b: Seq<Seq<u8>>)
    ensures
        records_len(a + b) == records_len(a) + records_len(b),
    decreases b.len(),
{
    if b.len() == 0 {
        assert(a + b =~= a);
    } else {
        assert((a + b).drop_last() =~= a + b.drop_last());
        lemma_records_len_concat(a, b.drop_last());
    }
}

proof fn lemma_log_records_prefix(bodies: Seq<Seq<u8>>, p: int)
    requires
        0 <= p <= bodies.len(),
    ensures
        records_len(bodies.take(p)) <= records_len(bodies),
        log_records(bodies).subrange(0, records_len(bodies.take(p)) as int) == log_records(bodies.take(p)),
    decreases bodies.len(),
{
    lemma_log_records_len(bodies);
    lemma_log_records_len(bodies.take(p));
    if p == bodies.len() {
        assert(bodies.take(p) =~= bodies);
        assert(log_records(bodies).subrange(0, records_len(bodies) as int) =~= log_records(bodies));
    } else {
        let init = bodies.drop_last();
        assert(init.take(p) =~= bodies.take(p));
        lemma_log_records_prefix(init, p);
        lemma_log_records_len(init);
        assert(log_records(bodies).subrange(0, records_len(bodies.take(p)) as int)
            =~= log_records(init).subrange(0, records_len(init.take(p)) as int));
    }
}

/// Appending records to a file keeps its layout: the layout after the append is that of
/// the file holding the old bodies and the new ones.
pub proof fn law_append_keeps_layout(offsets: Seq<u64>, end: int, bodies: Seq<Seq<u8>>, new: Seq<Seq<u8>>)
    requires
        layout_describes(offsets, end, bodies),
        end + records_len(new) <= u64::MAX,
    ensures
        layout_describes(offsets + appended_offsets(end, new), end + records_len(new), bodies + new),
{
    let all = bodies + new;
    let offs = offsets + appended_offsets(end, new);
    lemma_records_len_concat(bodies, new);
    assert forall|i: int| 0 <= i < all.len() implies #[trigger] offs[i] == records_len(all.take(i)) by {
        if i < bodies.len() {
            assert(all.take(i) =~= bodies.take(i));
        } else {
            let k = i - bodies.len();
            assert(all.take(i) =~= bodies + new.take(k));
            lemma_records_len_concat(bodies, new.take(k));
            lemma_records_len_prefix(new, k);
        }
    }
}

/// Cutting the file at the start of the record at position `p` leaves the records before
/// it, with their layout.
pub proof fn law_truncate_keeps_layout(offsets: Seq<u64>, end: int, bodies: Seq<Seq<u8>>, p: int)
    requires
        layout_describes(offsets, end, bodies),
        0 <= p < bodies.len(),
    ensures
        layout_describes(offsets.take(p), offsets[p] as int, bodies.take(p)),
        offsets[p] <= end,
        log_records(bodies).subrange(0, offsets[p] as int) == log_records(bodies.take(p)),
{
    lemma_log_records_prefix(bodies, p);
    assert forall|i: int| 0 <= i < p implies #[trigger] offsets.take(p)[i] == records_len(bodies.take(p).take(i)) by {
        assert(bodies.take(p).take(i) =~= bodies.take(i));
    }
}

/// The records that a reopened log keeps: the first `kept` of the intact ones lie where
/// `frames` say, and the file ends after the last of them.
pub proof fn law_recovered_layout(frames: Seq<LogFrame>, bytes: Seq<u8>, kept: int)
    requires
        frames_of(frames, bytes),
        0 <= kept <= frames.len(),
    ensures
        layout_describes(
            frames.take(kept).map_values(|f: LogFrame| f.offset as u64),
            if kept == 0 { 0 } else { frames[kept - 1].body_end as int },
            log_bodies(bytes).take(kept),
        ),
{
    let bodies = log_bodies(bytes);
    let bs = bodies.take(kept);
    let offs = frames.take(kept).map_values(|f: LogFrame| f.offset as u64);
    assert forall|i: int| 0 <= i < kept implies #[trigger] offs[i] == records_len(bs.take(i)) by {
        assert(bs.take(i) =~= bodies.take(i));
        assert(frames[i].offset == records_len(bodies.take(i)));
    }
    if kept > 0 {
        assert(bs.drop_last() =~= bodies.take(kept - 1));
        assert(bs.last() == bodies[kept - 1]);
        assert(frames[kept - 1].offset == records_len(bodies.take(kept - 1)));
    } else {
        assert(bs =~= Seq::<Seq<u8>>::empty());
    }
}

/// Where the records of the log lie in its file: the start of each, and the end of the
/// last.
pub struct LogLayout {
    offsets: Vec<u64>,
    end: u64,
}

impl LogLayout {
    /// The start of each record, in order.
    pub closed spec fn offsets(&self) -> Seq<u64> {
        self.offsets@
    }

    /// The length of the file.
    pub closed spec fn end(&self) -> u64 {
        self.end
    }

    /// Whether this is the layout of a file holding the records of `bodies`.
    pub open spec fn describes(&self, bodies: Seq<Seq<u8>>) -> bool {
        layout_describes(self.offsets(), self.end() as int, bodies)
    }

    /// The layout of an empty file.
    pub fn empty() -> (r: Self)
        ensures
            r.offsets() == Seq::<u64>::empty(),
            r.end() == 0,
            r.describes(Seq::empty()),
    {
        LogLayout { offsets: Vec::new(), end: 0 }
    }

    /// The number of records.
    pub fn len(&self) -> (r: usize)
        ensures
            r == self.offsets().len(),
    {
        self.offsets.len()
    }

    /// The length of the file.
    pub fn end_offset(&self) -> (r: u64)
        ensures
            r == self.end(),
    {
        self.end
    }

    /// The layout of a reopened log file whose intact records are `frames`, their entries
    /// having the indices `indices` (`None` where an entry could not be read), and how many
    /// entries it keeps: those before the first that could not be read or does not carry
    /// the next index. The file is to be cut to the layout's end.
    pub fn recover(frames: &Vec<LogFrame>, indices: &Vec<Option<u64>>) -> (r: (Self, usize))
        requires
            frames@.len() == indices@.len(),
            forall|i: int| 0 <= i < frames@.len() ==> #[trigger] frames@[i].body_end <= u64::MAX,
        ensures
            r.1 == kept_entries(indices@),
            r.0.offsets() == frames@.take(r.1 as int).map_values(|f: LogFrame| f.offset as u64),
            r.0.end() == if r.1 == 0 { 0 } else { frames@[r.1 - 1].body_end as int },
    {
        proof {
            if indices@.len() == 0 {
                lemma_kept_prefix_point(indices@, 0);
            }
        }
        let mut offsets: Vec<u64> = Vec::new();
        let mut end: u64 = 0;
        let mut i: usize = 0;
        while i < indices.len()
            invariant
                i <= indices@.len() == frames@.len(),
                forall|j: int| 0 <= j < frames@.len() ==> #[trigger] frames@[j].body_end <= u64::MAX,
                forall|j: int| 0 <= j < i ==> carries_index(#[trigger] indices@[j], j + 1),
                offsets@ == frames@.take(i as int).map_values(|f: LogFrame| f.offset as u64),
                end == if i == 0 { 0 } else { frames@[i - 1].body_end as int },
                i == indices@.len() ==> i == kept_entries(indices@),
            ensures
                i == kept_entries(indices@),
                offsets@ == frames@.take(i as int).map_values(|f: LogFrame| f.offset as u64),
                end == if i == 0 { 0 } else { frames@[i - 1].body_end as int },
            decreases indices@.len() - i,
        {
            let keep = match indices[i] {
                Some(x) => (i as u64) < u64::MAX && x == (i as u64) + 1,
                None => false,
            };
            if !keep {
                proof {
                    lemma_kept_from(indices@, i as int);
                    assert(kept_from(indices@, i as int) == i);
                    lemma_kept_prefix_point(indices@, i as int);
                }
                break;
            }
            offsets.push(frames[i].offset as u64);
            end = frames[i].body_end as u64;
            proof {
                assert(frames@.take(i as int + 1).map_values(|f: LogFrame| f.offset as u64)
                    =~= frames@.take(i as int).map_values(|f: LogFrame| f.offset as u64).push(frames@[i as int].offset as u64));
            }
            i = i + 1;
            proof {
                if i == indices@.len() {
                    lemma_kept_prefix_point(indices@, i as int);
                }
            }
        }
        (LogLayout { offsets, end }, i)
    }

    /// The records of `bodies` to append at the end of the file, and the layout after
    /// them. With no bodies nothing is to be written.
    pub fn append_records(&mut self, bodies: &Vec<Vec<u8>>) -> (buffer: Vec<u8>)
        requires
            bodies_fit(bodies@.map_values(|b: Vec<u8>| b@)),
            old(self).end() + records_len(bodies@.map_values(|b: Vec<u8>| b@)) <= u64::MAX,
        ensures
            buffer@ == log_records(bodies@.map_values(|b: Vec<u8>| b@)),
            final(self).offsets() == old(self).offsets() + appended_offsets(old(self).end() as int, bodies@.map_values(|b: Vec<u8>| b@)),
            final(self).end() == old(self).end() + records_len(bodies@.map_values(|b: Vec<u8>| b@)),
    {
        let ghost bv = bodies@.map_values(|b: Vec<u8>| b@);
        let ghost old_offsets = self.offsets@;
        let ghost old_end = self.end;
        let mut buffer: Vec<u8> = Vec::new();
        let mut i: usize = 0;
        while i < bodies.len()
            invariant
                bv == bodies@.map_values(|b: Vec<u8>| b@),
                bodies_fit(bv),
                old_end + records_len(bv) <= u64::MAX,
                i <= bodies@.len(),
                buffer@ == log_records(bv.take(i as int)),
                buffer@.len() == records_len(bv.take(i as int)),
                self.end == old_end,
                self.offsets@ == old_offsets + appended_offsets(old_end as int, bv.take(i as int)),
            decreases bodies@.len() - i,
        {
            let body = &bodies[i];
            proof {
                assert(bv[i as int] == body@);
                assert(bv.take(i as int + 1).drop_last() =~= bv.take(i as int));
                lemma_records_len_prefix(bv, i as int + 1);
            }
            let offset = self.end + buffer.len() as u64;
            self.offsets.push(offset);
            let record = encode_log_record(body.as_slice());
            append_bytes(&mut buffer, record.as_slice());
            proof {
                lemma_log_records_len(bv.take(i as int + 1));
                assert(appended_offsets(old_end as int, bv.take(i as int + 1))
                    =~= appended_offsets(old_end as int, bv.take(i as int)).push(offset)) by {
                    assert forall|k: int| 0 <= k < i as int + 1 implies
                        #[trigger] appended_offsets(old_end as int, bv.take(i as int + 1))[k]
                        == appended_offsets(old_end as int, bv.take(i as int)).push(offset)[k] by {
                        if k < i {
                            assert(bv.take(i as int + 1).take(k) =~= bv.take(i as int).take(k));
                        } else {
                            assert(bv.take(i as int + 1).take(k) =~= bv.take(i as int));
                        }
                    }
                }
            }
            i = i + 1;
        }
        proof { assert(bv.take(bodies@.len() as int) =~= bv); }
        self.end = self.end + buffer.len() as u64;
        buffer
    }

    /// Drops the records from the entry with the given index (counted from 1) on. Gives
    /// the length to cut the file to, or `None` where there is no such record and nothing
    /// changes.
    pub fn truncate_from(&mut self, index: u64) -> (cut: Option<u64>)
        ensures
            ({
                let p = if index == 0 { 0 } else { index - 1 };
                if p >= old(self).offsets().len() {
                    cut is None && *final(self) == *old(self)
                } else {
                    &&& cut == Some(old(self).offsets()[p])
                    &&& final(self).offsets() == old(self).offsets().take(p)
                    &&& final(self).end() == old(self).offsets()[p]
                }
            }),
    {
        let position = index.saturating_sub(1);
        if position >= self.offsets.len() as u64 {
            return None;
        }
        let p = position as usize;
        let offset = self.offsets[p];
        self.offsets.truncate(p);
        self.end = offset;
        Some(offset)
    }
}

proof fn lemma_kept_prefix_point(indices: Seq<Option<u64>>, i: int)
    requires
        0 <= i <= indices.len(),
        forall|j: int| 0 <= j < i ==> carries_index(#[trigger] indices[j], j + 1),
        i == indices.len() || !carries_index(indices[i], i + 1),
    ensures
        kept_entries(indices) == i,
{
    lemma_kept_from_point(indices, 0, i);
}

proof fn lemma_kept_from_point(indices: Seq<Option<u64>>, k: int, i: int)
    requires
        0 <= k <= i <= indices.len(),
        forall|j: int| 0 <= j < i ==> carries_index(#[trigger] indices[j], j + 1),
        i == indices.len() || !carries_index(indices[i], i + 1),
    ensures
        kept_from(indices, k) == i,
    decreases i - k,
{
    if k < i {
        assert(carries_index(indices[k], k + 1));
        lemma_kept_from_point(indices, k + 1, i);
    }
}


/// The record of one body.
pub fn encode_log_record(body: &[u8]) -> (r: Vec<u8>)
    requires
        body@.len() <= u32::MAX,
    ensures
        r@ == log_record(body@),
{
    let mut out: Vec<u8> = Vec::new();
    let len = u32_to_le_bytes(body.len() as u32);
    append_bytes(&mut out, len.as_slice());
    let checksum = u32_to_le_bytes(crc32(body));
    append_bytes(&mut out, checksum.as_slice());
    append_bytes(&mut out, body);
    out
}

} // verus!
