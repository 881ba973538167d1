//! The byte format of the write-ahead log of a volume.
//!
//! An entry is: `WAL1`, the sequence number (8 bytes), the operation (1 byte), the key
//! length and the value length (4 bytes each), the key, the value (puts only), and the
//! CRC-32 of everything between the magic and the checksum. Numbers are little-endian.
use vstd::prelude::*;
use vstd::bytes::{
    lemma_auto_spec_u32_to_from_le_bytes, lemma_auto_spec_u64_to_from_le_bytes, spec_u32_from_le_bytes, spec_u32_to_le_bytes, spec_u64_from_le_bytes, spec_u64_to_le_bytes,
    u32_from_le_bytes, u32_to_le_bytes, u64_from_le_bytes, u64_to_le_bytes,
};
use vstd::utf8::{decode_utf8, encode_utf8, valid_utf8};
use vstd::string::StringExecFns;
use crate::error::Error;
use crate::utils::{append_bytes, crc32, crc32_of, string_from_utf8};

verus! {

/// Operation code of a put.
pub const OP_PUT: u8 = 1;
/// Operation code of a delete.
pub const OP_DELETE: u8 = 2;

/// The magic that starts every entry: `WAL1`.
pub open spec fn wal_magic() -> Seq<u8> {
    seq![0x57u8, 0x41u8, 0x4Cu8, 0x31u8]
}

/// One logged operation.
#[derive(Debug)]
pub struct WalEntry {
    pub sequence: u64,
    pub op: WalOp,
}

/// A put or a delete.
#[derive(Debug)]
pub enum WalOp {
    Put { key: String, value: Vec<u8> },
    Delete { key: String },
}

/// The mathematical value of a logged operation.
pub struct WalEntryView {
    pub sequence: u64,
    pub put: bool,
    pub key: Seq<char>,
    pub value: Seq<u8>,
}

impl WalEntry {
    /// The value of this entry.
    pub open spec fn view(&self) -> WalEntryView {
        match &self.op {
            WalOp::Put { key, value } => WalEntryView { sequence: self.sequence, put: true, key: key@, value: value@ },
            WalOp::Delete { key } => WalEntryView { sequence: self.sequence, put: false, key: key@, value: Seq::empty() },
        }
    }
}

/// The bytes of an entry; the value is written for puts only.
pub open spec fn wal_record(sequence: u64, op: u8, key: Seq<u8>, value: Seq<u8>) -> Seq<u8> {
    let v = if op == OP_PUT { value } else { Seq::empty() };
    let body = spec_u64_to_le_bytes(sequence) + seq![op] + spec_u32_to_le_bytes(key.len() as u32)
        + spec_u32_to_le_bytes(value.len() as u32) + key + v;
    wal_magic() + body + spec_u32_to_le_bytes(crc32_of(body))
}

/// What reading an entry at the start of some bytes gives.
pub enum WalDecode {
    /// No entry starts here (fewer bytes than a magic).
    End,
    /// The bytes here are not a whole, intact entry.
    Corrupt,
    /// An entry, and the number of bytes it takes.
    Entry(WalEntryView, nat),
}

/// Reads the entry at the start of `b`.
pub open spec fn decode_wal_record(b: Seq<u8>) -> WalDecode {
    if b.len() < 4 {
        WalDecode::End
    } else if b.subrange(0, 4) != wal_magic() || b.len() < 21 {
        WalDecode::Corrupt
    } else {
        let sequence = spec_u64_from_le_bytes(b.subrange(4, 12));
        let op = b[12];
        let klen = spec_u32_from_le_bytes(b.subrange(13, 17)) as int;
        let vlen = spec_u32_from_le_bytes(b.subrange(17, 21)) as int;
        let vl = if op == OP_PUT { vlen } else { 0 };
        let key_end = 21 + klen;
        let body_end = key_end + vl;
        if b.len() < body_end + 4 || !valid_utf8(b.subrange(21, key_end)) {
            WalDecode::Corrupt
        } else if crc32_of(b.subrange(4, body_end)) != spec_u32_from_le_bytes(b.subrange(body_end, body_end + 4)) {
            WalDecode::Corrupt
        } else if op != OP_PUT && op != OP_DELETE {
            WalDecode::Corrupt
        } else {
            WalDecode::Entry(
                WalEntryView {
                    sequence,
                    put: op == OP_PUT,
                    key: decode_utf8(b.subrange(21, key_end)),
                    value: b.subrange(key_end, body_end),
                },
                (body_end + 4) as nat,
            )
        }
    }
}

/// The entries of a log, read from the start until the end or the first damage.
pub open spec fn wal_entries(b: Seq<u8>) -> Seq<WalEntryView>
    decreases b.len(),
{
    match decode_wal_record(b) {
        WalDecode::Entry(e, n) => if 0 < n <= b.len() {
            seq![e] + wal_entries(b.subrange(n as int, b.len() as int))
        } else {
            Seq::empty()
        },
        _ => Seq::empty(),
    }
}


/// The bytes of an entry for `key` (and `value`, for a put).
pub fn encode_wal_entry(sequence: u64, op: u8, key: &str, value: &[u8]) -> (r: Vec<u8>)
    requires
        encode_utf8(key@).len() <= u32::MAX,
        value@.len() <= u32::MAX,
    ensures
        r@ == wal_record(sequence, op, encode_utf8(key@), value@),
{
    let key_bytes = key.as_bytes();
    let mut body: Vec<u8> = Vec::new();
    let seq_bytes = u64_to_le_bytes(sequence);
    append_bytes(&mut body, seq_bytes.as_slice());
    body.push(op);
    let klen = u32_to_le_bytes(key_bytes.len() as u32);
    append_bytes(&mut body, klen.as_slice());
    let vlen = u32_to_le_bytes(value.len() as u32);
    append_bytes(&mut body, vlen.as_slice());
    append_bytes(&mut body, key_bytes);
    if op == OP_PUT {
        append_bytes(&mut body, value);
    }
    let checksum = crc32(body.as_slice());
    let mut out: Vec<u8> = Vec::new();
    out.push(0x57);
    out.push(0x41);
    out.push(0x4C);
    out.push(0x31);
    append_bytes(&mut out, body.as_slice());
    let c = u32_to_le_bytes(checksum);
    append_bytes(&mut out, c.as_slice());
    proof {
        let v = if op == OP_PUT { value@ } else { Seq::<u8>::empty() };
        assert(body@ =~= spec_u64_to_le_bytes(sequence) + seq![op] + spec_u32_to_le_bytes(key_bytes@.len() as u32)
            + spec_u32_to_le_bytes(value@.len() as u32) + key_bytes@ + v);
        assert(out@ =~= wal_magic() + body@ + spec_u32_to_le_bytes(checksum));
    }
    out
}

/// Reading back an entry that was just written gives that entry and its length, whatever
/// bytes follow it in the log.
pub proof fn law_wal_entry_roundtrip(sequence: u64, op: u8, key: Seq<char>, value: Seq<u8>, rest: Seq<u8>)
    requires
        op == OP_PUT || op == OP_DELETE,
        encode_utf8(key).len() <= u32::MAX,
        value.len() <= u32::MAX,
    ensures
        decode_wal_record(wal_record(sequence, op, encode_utf8(key), value) + rest) == WalDecode::Entry(
            WalEntryView {
                sequence,
                put: op == OP_PUT,
                key,
                value: if op == OP_PUT { value } else { Seq::empty() },
            },
            wal_record(sequence, op, encode_utf8(key), value).len(),
        ),
{
    let k = encode_utf8(key);
    let v = if op == OP_PUT { value } else { Seq::<u8>::empty() };
    let sb = spec_u64_to_le_bytes(sequence);
    let kb = spec_u32_to_le_bytes(k.len() as u32);
    let vb = spec_u32_to_le_bytes(value.len() as u32);
    let body = sb + seq![op] + kb + vb + k + v;
    let rec = wal_magic() + body + spec_u32_to_le_bytes(crc32_of(body));
    let b = rec + rest;
    lemma_auto_spec_u64_to_from_le_bytes();
    lemma_auto_spec_u32_to_from_le_bytes();
    vstd::utf8::encode_utf8_valid_utf8(key);
    vstd::utf8::encode_utf8_decode_utf8(key);
    assert(rec == wal_record(sequence, op, k, value));
    let klen = k.len() as int;
    let key_end = 21 + klen;
    let body_end = key_end + v.len();
    assert(sb.len() == 8 && kb.len() == 4 && vb.len() == 4);
    assert(b.subrange(0, 4) =~= wal_magic());
    assert(b.subrange(4, 12) =~= sb);
    assert(b[12] == op);
    assert(b.subrange(13, 17) =~= kb);
    assert(b.subrange(17, 21) =~= vb);
    assert(b.subrange(21, key_end) =~= k);
    assert(b.subrange(key_end, body_end) =~= v);
    assert(b.subrange(4, body_end) =~= body);
    assert(b.subrange(body_end, body_end + 4) =~= spec_u32_to_le_bytes(crc32_of(body)));
}

/// The bytes of one entry value, as `encode_wal_entry` writes them.
pub open spec fn wal_record_of(e: WalEntryView) -> Seq<u8> {
    wal_record(e.sequence, if e.put { OP_PUT } else { OP_DELETE }, encode_utf8(e.key), e.value)
}

/// The bytes of a log made of the given entries, written one after the other.
pub open spec fn wal_log(es: Seq<WalEntryView>) -> Seq<u8>
    decreases es.len(),
{
    if es.len() == 0 {
        Seq::empty()
    } else {
        wal_record_of(es[0]) + wal_log(es.drop_first())
    }
}

/// An entry value that `encode_wal_entry` can write: its lengths fit the header, and a
/// delete carries no value.
pub open spec fn wal_writable(e: WalEntryView) -> bool {
    &&& encode_utf8(e.key).len() <= u32::MAX
    &&& e.value.len() <= u32::MAX
    &&& !e.put ==> e.value.len() == 0
}

/// Replaying a log made of written entries gives back exactly those entries, in order.
pub proof fn law_wal_replay_returns_appended(es: Seq<WalEntryView>)
    requires
        forall|i: int| 0 <= i < es.len() ==> wal_writable(#[trigger] es[i]),
    ensures
        wal_entries(wal_log(es)) == es,
    decreases es.len(),
{
    if es.len() == 0 {
        assert(wal_log(es) =~= Seq::<u8>::empty());
        assert(decode_wal_record(Seq::<u8>::empty()) == WalDecode::End);
    } else {
        let e = es[0];
        assert(wal_writable(es[0]));
        let op = if e.put { OP_PUT } else { OP_DELETE };
        let rec = wal_record_of(e);
        let tail = wal_log(es.drop_first());
        assert forall|i: int| 0 <= i < es.drop_first().len() implies wal_writable(#[trigger] es.drop_first()[i]) by {
            assert(es.drop_first()[i] == es[i + 1]);
            assert(wal_writable(es[i + 1]));
        }
        law_wal_replay_returns_appended(es.drop_first());
        law_wal_entry_roundtrip(e.sequence, op, e.key, e.value, tail);
        let v = if op == OP_PUT { e.value } else { Seq::<u8>::empty() };
        assert(v =~= e.value);
        let ev = WalEntryView { sequence: e.sequence, put: op == OP_PUT, key: e.key, value: v };
        assert(ev == e);
        let b = rec + tail;
        assert(wal_log(es) == b);
        assert(rec.len() > 0) by {
            assert(wal_magic().len() == 4);
        }
        assert(b.subrange(rec.len() as int, b.len() as int) =~= tail);
        assert(wal_entries(b) == seq![e] + wal_entries(tail));
        assert(seq![e] + es.drop_first() =~= es);
    }
}

/// What reading an entry at some position of a log gives.
pub enum WalRead {
    End,
    Corrupt(Error),
    Entry(WalEntry, usize),
}

/// Reads the entry that starts at `pos`: the entry and the position after it, the end of
/// the log, or damage.
pub fn read_wal_entry(bytes: &[u8], pos: usize) -> (r: WalRead)
    requires
        pos <= bytes@.len(),
    ensures
        match decode_wal_record(bytes@.subrange(pos as int, bytes@.len() as int)) {
            WalDecode::End => r is End,
            WalDecode::Corrupt => r is Corrupt,
            WalDecode::Entry(e, n) => r matches WalRead::Entry(entry, next) && entry.view() == e && next == pos + n,
        },
{
    let ghost b = bytes@.subrange(pos as int, bytes@.len() as int);
    let n = bytes.len();
    let avail = n - pos;
    if avail < 4 {
        return WalRead::End;
    }
    if !(bytes[pos] == 0x57 && bytes[pos + 1] == 0x41 && bytes[pos + 2] == 0x4C && bytes[pos + 3] == 0x31) {
        proof {
            assert(b.subrange(0, 4) != wal_magic()) by {
                if b.subrange(0, 4) == wal_magic() {
                    assert(b.subrange(0, 4)[0] == b[0]);
                    assert(b.subrange(0, 4)[1] == b[1]);
                    assert(b.subrange(0, 4)[2] == b[2]);
                    assert(b.subrange(0, 4)[3] == b[3]);
                }
            }
        }
        return WalRead::Corrupt(Error::Wal(String::from_str("Invalid WAL magic")));
    }
    proof { assert(b.subrange(0, 4) =~= wal_magic()); }
    if avail < 21 {
        return WalRead::Corrupt(Error::Wal(String::from_str("truncated WAL entry")));
    }
    let sequence = u64_from_le_bytes(vstd::slice::slice_subrange(bytes, pos + 4, pos + 12));
    let op = bytes[pos + 12];
    let klen = u32_from_le_bytes(vstd::slice::slice_subrange(bytes, pos + 13, pos + 17)) as usize;
    let vlen_raw = u32_from_le_bytes(vstd::slice::slice_subrange(bytes, pos + 17, pos + 21)) as usize;
    proof {
        assert(bytes@.subrange(pos + 4, pos + 12) =~= b.subrange(4, 12));
        assert(bytes@.subrange(pos + 13, pos + 17) =~= b.subrange(13, 17));
        assert(bytes@.subrange(pos + 17, pos + 21) =~= b.subrange(17, 21));
    }
    let vl: usize = if op == OP_PUT { vlen_raw } else { 0 };
    if avail - 21 < klen || avail - 21 - klen < vl || avail - 21 - klen - vl < 4 {
        return WalRead::Corrupt(Error::Wal(String::from_str("truncated WAL entry")));
    }
    let key_start = pos + 21;
    let key_end = key_start + klen;
    let body_end = key_end + vl;
    let key_vec = vstd::slice::slice_to_vec(vstd::slice::slice_subrange(bytes, key_start, key_end));
    proof { assert(key_vec@ =~= b.subrange(21, 21 + klen)); }
    let key = match string_from_utf8(key_vec) {
        Ok(k) => k,
        Err(_) => {
            return WalRead::Corrupt(Error::Wal(String::from_str("Invalid UTF-8 in key")));
        },
    };
    let stored = u32_from_le_bytes(vstd::slice::slice_subrange(bytes, body_end, body_end + 4));
    let computed = crc32(vstd::slice::slice_subrange(bytes, pos + 4, body_end));
    proof {
        assert(bytes@.subrange(body_end as int, body_end + 4) =~= b.subrange(21 + klen + vl, 21 + klen + vl + 4));
        assert(bytes@.subrange(pos + 4, body_end as int) =~= b.subrange(4, 21 + klen + vl));
    }
    if computed != stored {
        return WalRead::Corrupt(Error::Wal(String::from_str("Checksum mismatch")));
    }
    let entry = if op == OP_PUT {
        let value = vstd::slice::slice_to_vec(vstd::slice::slice_subrange(bytes, key_end, body_end));
        proof {
            assert(value@ =~= b.subrange(21 + klen, 21 + klen + vl));
            vstd::utf8::decode_utf8_encode_utf8(b.subrange(21, 21 + klen));
            vstd::utf8::encode_utf8_decode_utf8(key@);
        }
        WalEntry { sequence, op: WalOp::Put { key, value } }
    } else if op == OP_DELETE {
        proof {
            vstd::utf8::decode_utf8_encode_utf8(b.subrange(21, 21 + klen));
            vstd::utf8::encode_utf8_decode_utf8(key@);
            assert(b.subrange(21 + klen, 21 + klen) =~= Seq::<u8>::empty());
        }
        WalEntry { sequence, op: WalOp::Delete { key } }
    } else {
        return WalRead::Corrupt(Error::Wal(String::from_str("Unknown op code")));
    };
    WalRead::Entry(entry, body_end + 4)
}

/// The entries of a log, from the start until its end or the first damaged entry, and
/// the damage that stopped the reading, if any.
pub fn replay_entries(bytes: &[u8]) -> (r: (Vec<WalEntry>, Option<Error>))
    ensures
        r.0@.map_values(|e: WalEntry| e.view()) == wal_entries(bytes@),
{
    let mut entries: Vec<WalEntry> = Vec::new();
    let mut pos: usize = 0;
    let n = bytes.len();
    proof { assert(bytes@.subrange(0, n as int) =~= bytes@); }
    loop
        invariant
            pos <= n == bytes@.len(),
            entries@.map_values(|e: WalEntry| e.view()) + wal_entries(bytes@.subrange(pos as int, n as int)) == wal_entries(bytes@),
        decreases n - pos,
    {
        let ghost rest = bytes@.subrange(pos as int, n as int);
        match read_wal_entry(bytes, pos) {
            WalRead::End => {
                proof { assert(entries@.map_values(|e: WalEntry| e.view()) + Seq::<WalEntryView>::empty() =~= entries@.map_values(|e: WalEntry| e.view())); }
                return (entries, None);
            },
            WalRead::Corrupt(e) => {
                proof { assert(entries@.map_values(|e: WalEntry| e.view()) + Seq::<WalEntryView>::empty() =~= entries@.map_values(|e: WalEntry| e.view())); }
                return (entries, Some(e));
            },
            WalRead::Entry(entry, next) => {
                proof {
                    let ghost len = (next - pos) as nat;
                    assert(rest.subrange(len as int, rest.len() as int) =~= bytes@.subrange(next as int, n as int));
                    assert(entries@.push(entry).map_values(|e: WalEntry| e.view()) =~= entries@.map_values(|e: WalEntry| e.view()).push(entry.view()));
                    assert(entries@.map_values(|e: WalEntry| e.view()).push(entry.view()) + wal_entries(bytes@.subrange(next as int, n as int))
                        =~= entries@.map_values(|e: WalEntry| e.view()) + wal_entries(rest));
                }
                entries.push(entry);
                pos = next;
            },
        }
    }
}

/// The highest sequence number among the entries, if any.
pub open spec fn max_sequence(s: Seq<WalEntryView>) -> Option<u64>
    decreases s.len(),
{
    if s.len() == 0 {
        None
    } else {
        match max_sequence(s.drop_last()) {
            None => Some(s.last().sequence),
            Some(m) => Some(if m > s.last().sequence { m } else { s.last().sequence }),
        }
    }
}

/// The sequence number that follows a log: one past its highest (wrapping), or 0.
pub fn next_sequence(bytes: &[u8]) -> (r: u64)
    ensures
        r == match max_sequence(wal_entries(bytes@)) {
            None => 0,
            Some(m) => ((m + 1) % 0x1_0000_0000_0000_0000) as u64,
        },
{
    let (entries, _) = replay_entries(bytes);
    let ghost views = entries@.map_values(|e: WalEntry| e.view());
    let mut max_seq: Option<u64> = None;
    let mut i: usize = 0;
    while i < entries.len()
        invariant
            i <= entries@.len(),
            views == entries@.map_values(|e: WalEntry| e.view()),
            max_seq == max_sequence(views.subrange(0, i as int)),
        decreases entries@.len() - i,
    {
        proof { assert(views.subrange(0, i as int + 1).drop_last() =~= views.subrange(0, i as int)); }
        let s = entries[i].sequence;
        max_seq = match max_seq {
            None => Some(s),
            Some(m) => Some(if m > s { m } else { s }),
        };
        i = i + 1;
    }
    proof { assert(views.subrange(0, i as int) =~= views); }
    match max_seq {
        None => 0,
        Some(m) => m.wrapping_add(1),
    }
}

} // verus!
