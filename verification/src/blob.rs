//! The segment files of a volume's blob store.
//!
//! Blobs are appended to segment files. A record is a magic (`BLOB`, or `BLOC` for a
//! LZ4-compressed value), the key's length (4 bytes), the stored value's length and the
//! original value's length (8 bytes each), the key, the stored value, and the CRC-32 of
//! everything between the magic and the checksum; numbers are little-endian. A segment
//! is closed once it grows past the segment size.
use vstd::prelude::*;
use vstd::bytes::{
    lemma_auto_spec_u32_to_from_le_bytes, lemma_auto_spec_u64_to_from_le_bytes, spec_u32_from_le_bytes,
    spec_u32_to_le_bytes, spec_u64_from_le_bytes, spec_u64_to_le_bytes, u32_from_le_bytes, u32_to_le_bytes,
    u64_from_le_bytes, u64_to_le_bytes,
};
use vstd::utf8::encode_utf8;
use vstd::string::StringExecFns;
use crate::error::Error;
use crate::hash::{blake3_bytes, blake3_digest, blake3_hash};
use crate::index::{key_views, unexpired, valid_entry, BlobLocation, BlobLocationView, Index};
use crate::wal::{WalEntry, WalOp};
use crate::text::{decimal, decimal_string, hex_lower, string_from_utf8_lossy, to_hex, utf8_lossy};
use crate::utils::{append_bytes, crc32, crc32_of, parse_u64, parse_u64_spec};

verus! {

/// The size past which a segment is closed, in bytes.
pub const SEGMENT_SIZE: u64 = 67_108_864;
/// The number of segments a volume may have.
pub const MAX_SEGMENTS: u64 = 1000;
/// Values shorter than this are never compressed.
pub const COMPRESSION_THRESHOLD: usize = 128;

/// How values are stored.
#[derive(Debug, Clone, Copy, PartialEq, Eq, Structural)]
pub enum CompressionMode {
    /// Values are stored as they are.
    Plain,
    Lz4,
}

impl Default for CompressionMode {
    fn default() -> (r: Self)
        ensures
            r == CompressionMode::Plain,
    {
        CompressionMode::Plain
    }
}

/// The magic of a record: `BLOB`, or `BLOC` for a compressed value.
pub open spec fn blob_magic(compressed: bool) -> Seq<u8> {
    if compressed {
        seq![0x42u8, 0x4Cu8, 0x4Fu8, 0x43u8]
    } else {
        seq![0x42u8, 0x4Cu8, 0x4Fu8, 0x42u8]
    }
}

/// The bytes covered by a record's checksum.
pub open spec fn blob_body(key: Seq<u8>, stored: Seq<u8>, original_len: u64) -> Seq<u8> {
    spec_u32_to_le_bytes(key.len() as u32) + spec_u64_to_le_bytes(stored.len() as u64)
        + spec_u64_to_le_bytes(original_len) + key + stored
}

/// The bytes of a record.
pub open spec fn blob_record(compressed: bool, key: Seq<u8>, stored: Seq<u8>, original_len: u64) -> Seq<u8> {
    blob_magic(compressed) + blob_body(key, stored, original_len) + spec_u32_to_le_bytes(crc32_of(blob_body(key, stored, original_len)))
}

/// The bytes of the record of `key` and its stored value; the number of bytes is
/// 28 plus the lengths of the key and of the stored value.
pub fn encode_blob_record(key: &str, stored: &[u8], original_len: u64, compressed: bool) -> (r: Vec<u8>)
    requires
        encode_utf8(key@).len() <= u32::MAX,
        stored@.len() <= u64::MAX,
    ensures
        r@ == blob_record(compressed, encode_utf8(key@), stored@, original_len),
        r@.len() == 28 + encode_utf8(key@).len() + stored@.len(),
{
    let kb = key.as_bytes();
    let mut body: Vec<u8> = Vec::new();
    let klen = u32_to_le_bytes(kb.len() as u32);
    append_bytes(&mut body, klen.as_slice());
    let slen = u64_to_le_bytes(stored.len() as u64);
    append_bytes(&mut body, slen.as_slice());
    let olen = u64_to_le_bytes(original_len);
    append_bytes(&mut body, olen.as_slice());
    append_bytes(&mut body, kb);
    append_bytes(&mut body, stored);
    let checksum = u32_to_le_bytes(crc32(body.as_slice()));
    let mut out: Vec<u8> = Vec::new();
    out.push(0x42);
    out.push(0x4C);
    out.push(0x4F);
    out.push(if compressed { 0x43 } else { 0x42 });
    append_bytes(&mut out, body.as_slice());
    append_bytes(&mut out, checksum.as_slice());
    proof {
        assert(body@ =~= blob_body(kb@, stored@, original_len));
        assert(out@ =~= blob_record(compressed, kb@, stored@, original_len));
    }
    out
}

/// The LZ4 block compression of `src`, its size prepended (`lz4::block::compress` with
/// the default mode), or `None` where it fails.
pub uninterp spec fn lz4_block_compressed(src: Seq<u8>) -> Option<Seq<u8>>;

/// The LZ4 block decompression of `src` into `size` bytes (`lz4::block::decompress`), or
/// `None` where it fails.
pub uninterp spec fn lz4_block_decompressed(src: Seq<u8>, size: i32) -> Option<Seq<u8>>;

/// `lz4::block::compress(src, None, true)`; its error is dropped.
#[verifier::external_body]
fn lz4_compress(src: &[u8]) -> (r: Option<Vec<u8>>)
    ensures
        match r {
            Some(v) => lz4_block_compressed(src@) == Some(v@),
            None => lz4_block_compressed(src@) is None,
        },
{
    lz4::block::compress(src, None, true).ok()
}

/// `lz4::block::decompress(src, Some(size))`; its error is dropped.
#[verifier::external_body]
fn lz4_decompress(src: &[u8], size: i32) -> (r: Option<Vec<u8>>)
    ensures
        match r {
            Some(v) => lz4_block_decompressed(src@, size) == Some(v@),
            None => lz4_block_decompressed(src@, size) is None,
        },
{
    lz4::block::decompress(src, Some(size)).ok()
}

/// What is stored of `value` under `mode`: with LZ4, a value of at least the threshold is
/// stored compressed where that makes it shorter.
pub open spec fn stored_form(mode: CompressionMode, value: Seq<u8>) -> (Seq<u8>, bool) {
    if mode == CompressionMode::Lz4 && value.len() >= COMPRESSION_THRESHOLD {
        match lz4_block_compressed(value) {
            Some(c) => if c.len() < value.len() { (c, true) } else { (value, false) },
            None => (value, false),
        }
    } else {
        (value, false)
    }
}

/// The bytes to store for `value` under `mode`, and whether they are compressed.
pub fn store_value(mode: CompressionMode, value: &[u8]) -> (r: (Vec<u8>, bool))
    ensures
        (r.0@, r.1) == stored_form(mode, value@),
{
    if mode == CompressionMode::Lz4 && value.len() >= COMPRESSION_THRESHOLD {
        match lz4_compress(value) {
            Some(c) => {
                if c.len() < value.len() {
                    return (c, true);
                }
            },
            None => {},
        }
    }
    (vstd::slice::slice_to_vec(value), false)
}

/// The record that stores `value` under `key` with `mode`, and the location the index
/// records for it at `offset` of `segment`: the value's length and the BLAKE3 hash of the
/// value, in hexadecimal.
pub fn blob_write(mode: CompressionMode, key: &str, value: &[u8], segment: u64, offset: u64) -> (r: (Vec<u8>, BlobLocation))
    requires
        encode_utf8(key@).len() <= u32::MAX,
    ensures
        r.0@ == blob_record(stored_form(mode, value@).1, encode_utf8(key@), stored_form(mode, value@).0, value@.len() as u64),
        r.0@.len() == 28 + encode_utf8(key@).len() + stored_form(mode, value@).0.len(),
        r.1.shard == segment,
        r.1.offset == offset,
        r.1.size == value@.len(),
        r.1.blake3@ == hex_lower(blake3_digest(value@)),
{
    let (stored, compressed) = store_value(mode, value);
    let record = encode_blob_record(key, stored.as_slice(), value.len() as u64, compressed);
    let blake3 = blake3_hash(value);
    (record, BlobLocation { shard: segment, offset, size: value.len() as u64, blake3, expires_at: None })
}

/// Where the next blob goes: the segment and the offset in it.
pub struct BlobCursor {
    pub segment: u64,
    pub offset: u64,
}

impl BlobCursor {
    /// Moves to a new segment where the current one has grown past the segment size. The
    /// move happens even where it reaches the segment limit, which then fails the write.
    pub fn roll_over(&mut self) -> (r: Result<(), Error>)
        requires
            old(self).segment < u64::MAX,
        ensures
            old(self).offset > SEGMENT_SIZE ==> final(self).segment == old(self).segment + 1 && final(self).offset == 0,
            old(self).offset <= SEGMENT_SIZE ==> *final(self) == *old(self),
            r is Err <==> old(self).offset > SEGMENT_SIZE && old(self).segment + 1 >= MAX_SEGMENTS,
            r matches Err(e) ==> e matches Error::Internal(m) && m@ == "Max segments reached"@,
    {
        if self.offset > SEGMENT_SIZE {
            self.segment = self.segment + 1;
            self.offset = 0;
            if self.segment >= MAX_SEGMENTS {
                proof { reveal_strlit("Max segments reached"); }
                return Err(Error::Internal(String::from_str("Max segments reached")));
            }
        }
        Ok(())
    }

    /// Moves past a record of `written` bytes as a compaction does: to the start of the
    /// next segment once the current one has grown past the segment size.
    pub fn advance_compacting(&mut self, written: u64)
        requires
            old(self).offset + written <= u64::MAX,
            old(self).segment < u64::MAX,
        ensures
            old(self).offset + written > SEGMENT_SIZE ==> final(self).segment == old(self).segment + 1 && final(self).offset == 0,
            old(self).offset + written <= SEGMENT_SIZE ==> final(self).segment == old(self).segment
                && final(self).offset == old(self).offset + written,
    {
        self.offset = self.offset + written;
        if self.offset > SEGMENT_SIZE {
            self.segment = self.segment + 1;
            self.offset = 0;
        }
    }

    /// Moves past a record of `written` bytes that starts at `at`.
    pub fn advance(&mut self, at: u64, written: u64)
        requires
            at + written <= u64::MAX,
        ensures
            final(self).segment == old(self).segment,
            final(self).offset == at + written,
    {
        self.offset = at + written;
    }
}

/// The position a volume writes at when it opens: the segment with the highest number,
/// and its size, among the segment files found (number and size of each); the largest
/// size among files of that number; (0, 0) where there is none.
pub open spec fn current_position(files: Seq<(u64, u64)>) -> (u64, u64)
    decreases files.len(),
{
    if files.len() == 0 {
        (0, 0)
    } else {
        let (s, o) = current_position(files.drop_last());
        let (seg, size) = files.last();
        if seg > s || (seg == s && size > o) { (seg, size) } else { (s, o) }
    }
}

/// The position a volume writes at when it opens, from the segment files found.
pub fn find_current_position(files: &[(u64, u64)]) -> (r: (u64, u64))
    ensures
        r == current_position(files@),
{
    let mut max_segment: u64 = 0;
    let mut max_offset: u64 = 0;
    let mut i: usize = 0;
    while i < files.len()
        invariant
            i <= files@.len(),
            (max_segment, max_offset) == current_position(files@.take(i as int)),
        decreases files@.len() - i,
    {
        proof {
            assert(files@.take(i as int + 1).drop_last() =~= files@.take(i as int));
            assert(files@.take(i as int + 1).last() == files@[i as int]);
        }
        let (segment, size) = files[i];
        if segment > max_segment || (segment == max_segment && size > max_offset) {
            max_segment = segment;
            max_offset = size;
        }
        i = i + 1;
    }
    proof { assert(files@.take(i as int) =~= files@); }
    (max_segment, max_offset)
}

/// The decimal digits of `n`, with zeros in front up to `width` digits.
pub open spec fn zero_padded(n: nat, width: nat) -> Seq<char> {
    let d = decimal(n);
    if d.len() >= width { d } else { Seq::new((width - d.len()) as nat, |i: int| '0') + d }
}

/// `n` in decimal, with zeros in front up to `width` digits.
pub fn zero_padded_string(n: u64, width: usize) -> (r: String)
    ensures
        r@ == zero_padded(n as nat, width as nat),
{
    let d = decimal_string(n);
    let dl = crate::text::chars_of(d.as_str()).len();
    let mut s = String::new();
    let mut k: usize = dl;
    while k < width
        invariant
            dl == decimal(n as nat).len(),
            dl <= k <= width || (k == dl && dl >= width),
            s@ == Seq::new((k - dl) as nat, |i: int| '0'),
        decreases width - k,
    {
        crate::text::push_char(&mut s, '0');
        proof { assert(s@ =~= Seq::new((k + 1 - dl) as nat, |i: int| '0')); }
        k = k + 1;
    }
    s.append(d.as_str());
    proof {
        if dl >= width {
            assert(s@ =~= decimal(n as nat));
        }
    }
    s
}

/// The path of a segment file under the data directory:
/// `<segment mod 100>/<segment / 100>/seg_<segment>.blob`, the two directories with two
/// digits at least and the number with four.
pub open spec fn segment_path(segment: u64) -> Seq<char> {
    zero_padded((segment % 100) as nat, 2) + "/"@ + zero_padded((segment / 100) as nat, 2) + "/seg_"@
        + zero_padded(segment as nat, 4) + ".blob"@
}

/// The path of a segment file under the data directory.
pub fn segment_file_path(segment: u64) -> (r: String)
    ensures
        r@ == segment_path(segment),
{
    proof {
        reveal_strlit("/");
        reveal_strlit("/seg_");
        reveal_strlit(".blob");
    }
    let mut s = zero_padded_string(segment % 100, 2);
    s.append("/");
    let hi = zero_padded_string(segment / 100, 2);
    s.append(hi.as_str());
    s.append("/seg_");
    let n = zero_padded_string(segment, 4);
    s.append(n.as_str());
    s.append(".blob");
    s
}

/// The number of the segment a file holds, from its name: `None` where its extension is
/// not `blob`; else the number after `seg_` in its stem, 0 where there is none.
pub open spec fn segment_of_name(name: Seq<char>) -> Option<u64> {
    match split_extension(name) {
        Some((stem, ext)) => if ext == "blob"@ {
            if stem.len() >= 4 && stem.subrange(0, 4) == "seg_"@ {
                match parse_u64_spec(stem.subrange(4, stem.len() as int)) {
                    Some(n) => Some(n),
                    None => Some(0),
                }
            } else {
                Some(0)
            }
        } else {
            None
        },
        None => None,
    }
}

/// A file name split at its last `.` into stem and extension (`Path::file_stem` and
/// `Path::extension`); `None` where there is no `.` but at the start.
pub open spec fn split_extension(name: Seq<char>) -> Option<(Seq<char>, Seq<char>)> {
    if exists|i: int| 0 < i < name.len() && name[i] == '.' {
        let i = choose|i: int| 0 < i < name.len() && name[i] == '.' && forall|j: int| i < j < name.len() ==> name[j] != '.';
        Some((name.subrange(0, i), name.subrange(i + 1, name.len() as int)))
    } else {
        None
    }
}

/// The number of the segment a file holds, from its name.
pub fn segment_of_file_name(name: &str) -> (r: Option<u64>)
    ensures
        r == segment_of_name(name@),
{
    proof {
        reveal_strlit("blob");
        reveal_strlit("seg_");
    }
    let cs = crate::text::chars_of(name);
    let n = cs.len();
    // the last dot
    let mut i: usize = n;
    while i > 0
        invariant
            i <= n == cs@.len(),
            cs@ == name@,
            forall|j: int| i <= j < n ==> cs@[j] != '.',
        ensures
            i <= n,
            forall|j: int| i <= j < n ==> cs@[j] != '.',
            i > 0 ==> cs@[i - 1] == '.',
        decreases i,
    {
        if cs[i - 1] == '.' {
            break;
        }
        i = i - 1;
    }
    // `i` is one past the last dot, or 0
    if i <= 1 {
        proof {
            if exists|k: int| 0 < k < name@.len() && name@[k] == '.' {
                let k = choose|k: int| 0 < k < name@.len() && name@[k] == '.';
                if i == 1 {
                    assert(cs@[0] == '.' || k < 1);
                } 
                assert(false);
            }
        }
        return None;
    }
    let dot = i - 1;
    proof {
        assert(cs@[dot as int] == '.');
        let k = choose|k: int| 0 < k < name@.len() && name@[k] == '.' && forall|j: int| k < j < name@.len() ==> name@[j] != '.';
        assert(k == dot) by {
            if k < dot { assert(name@[dot as int] == '.'); }
            if k > dot { assert(cs@[k] != '.'); }
        }
    }
    let ghost stem_s = name@.subrange(0, dot as int);
    let ghost ext_s = name@.subrange(dot + 1, n as int);
    let mut ext = true;
    if n - i != 4 || !(cs[i] == 'b' && cs[i + 1] == 'l' && cs[i + 2] == 'o' && cs[i + 3] == 'b') {
        ext = false;
    }
    proof {
        if ext {
            assert(ext_s =~= "blob"@);
        } else if ext_s == "blob"@ {
            assert(ext_s.len() == n - i);
            assert(ext_s[0] == 'b' && ext_s[1] == 'l' && ext_s[2] == 'o' && ext_s[3] == 'b');
            assert(cs@[i as int] == ext_s[0]);
            assert(cs@[i + 1] == ext_s[1]);
            assert(cs@[i + 2] == ext_s[2]);
            assert(cs@[i + 3] == ext_s[3]);
        }
    }
    if !ext {
        return None;
    }
    if dot >= 4 && cs[0] == 's' && cs[1] == 'e' && cs[2] == 'g' && cs[3] == '_' {
        let mut digits: Vec<char> = Vec::new();
        let mut k: usize = 4;
        while k < dot
            invariant
                4 <= k <= dot < n == cs@.len(),
                digits@ == cs@.subrange(4, k as int),
            decreases dot - k,
        {
            digits.push(cs[k]);
            k = k + 1;
            proof { assert(digits@ =~= cs@.subrange(4, k as int)); }
        }
        proof {
            assert(stem_s.subrange(0, 4) =~= "seg_"@);
            assert(digits@ =~= stem_s.subrange(4, stem_s.len() as int));
        }
        match parse_u64(&digits) {
            Some(v) => Some(v),
            None => Some(0),
        }
    } else {
        proof {
            if stem_s.len() >= 4 && stem_s.subrange(0, 4) == "seg_"@ {
                assert(stem_s.subrange(0, 4)[0] == cs@[0]);
                assert(stem_s.subrange(0, 4)[1] == cs@[1]);
                assert(stem_s.subrange(0, 4)[2] == cs@[2]);
                assert(stem_s.subrange(0, 4)[3] == cs@[3]);
            }
        }
        Some(0)
    }
}

/// The lowercase hexadecimal digits of a 32-bit number, eight of them (`{:08x}`).
pub open spec fn hex_u32(x: u32) -> Seq<char> {
    hex_lower(spec_u32_to_le_bytes(x).reverse())
}

/// A 32-bit number in eight lowercase hexadecimal digits.
pub fn hex_u32_string(x: u32) -> (r: String)
    ensures
        r@ == hex_u32(x),
{
    let le = u32_to_le_bytes(x);
    proof { lemma_auto_spec_u32_to_from_le_bytes(); }
    let mut be: Vec<u8> = Vec::new();
    be.push(le[3]);
    be.push(le[2]);
    be.push(le[1]);
    be.push(le[0]);
    proof { assert(be@ =~= spec_u32_to_le_bytes(x).reverse()); }
    to_hex(be.as_slice())
}

/// Why a blob record cannot be read.
pub enum BlobReadError {
    /// The bytes end before the record does.
    Truncated,
    /// The record does not start with a blob magic.
    BadMagic,
    /// The stored checksum and the one computed from the record differ.
    Checksum { stored: u32, computed: u32 },
    /// The compressed value does not decompress.
    Decompress,
}

/// Whether `b` starts with the magic of a record; and which.
pub open spec fn magic_at(b: Seq<u8>) -> Option<bool> {
    if b.len() < 4 {
        None
    } else if b.subrange(0, 4) == blob_magic(true) {
        Some(true)
    } else if b.subrange(0, 4) == blob_magic(false) {
        Some(false)
    } else {
        None
    }
}

/// The value of the record at the start of `b`.
pub open spec fn parse_blob_record(b: Seq<u8>) -> Result<Seq<u8>, BlobReadError> {
    if b.len() < 4 {
        Err(BlobReadError::Truncated)
    } else if magic_at(b) is None {
        Err(BlobReadError::BadMagic)
    } else if b.len() < 24 {
        Err(BlobReadError::Truncated)
    } else {
        let klen = spec_u32_from_le_bytes(b.subrange(4, 8)) as int;
        let vlen = spec_u64_from_le_bytes(b.subrange(8, 16)) as int;
        let orig = spec_u64_from_le_bytes(b.subrange(16, 24));
        let end = 24 + klen + vlen;
        if b.len() < end + 4 {
            Err(BlobReadError::Truncated)
        } else {
            let stored = spec_u32_from_le_bytes(b.subrange(end, end + 4));
            let computed = crc32_of(b.subrange(4, end));
            if stored != computed {
                Err(BlobReadError::Checksum { stored, computed })
            } else if magic_at(b) == Some(true) {
                match lz4_block_decompressed(b.subrange(24 + klen, end), orig as i32) {
                    Some(d) => Ok(d),
                    None => Err(BlobReadError::Decompress),
                }
            } else {
                Ok(b.subrange(24 + klen, end))
            }
        }
    }
}

/// The error that reading a blob reports for each reason.
pub open spec fn is_blob_read_error(e: Error, why: BlobReadError) -> bool {
    match why {
        BlobReadError::Truncated => e matches Error::Io(m) && m@ == "failed to fill whole buffer"@,
        BlobReadError::BadMagic => e matches Error::Corrupted(m) && m@ == "Invalid blob magic"@,
        BlobReadError::Checksum { stored, computed } => e matches Error::ChecksumMismatch { expected, actual }
            && expected@ == hex_u32(stored) && actual@ == hex_u32(computed),
        BlobReadError::Decompress => e matches Error::Corrupted(m) && m@ == "LZ4 decompression failed"@,
    }
}

fn truncated() -> (r: Error)
    ensures
        is_blob_read_error(r, BlobReadError::Truncated),
{
    proof { reveal_strlit("failed to fill whole buffer"); }
    Error::Io(String::from_str("failed to fill whole buffer"))
}

/// The value stored in the record at offset `at` of a segment's bytes, decompressed where
/// it was compressed.
pub fn read_blob_record(segment: &[u8], at: u64) -> (r: Result<Vec<u8>, Error>)
    ensures
        at > segment@.len() ==> (r matches Err(e) && is_blob_read_error(e, BlobReadError::Truncated)),
        at <= segment@.len() ==> match parse_blob_record(segment@.subrange(at as int, segment@.len() as int)) {
            Ok(v) => r matches Ok(x) && x@ == v,
            Err(why) => r matches Err(e) && is_blob_read_error(e, why),
        },
{
    let n = segment.len();
    if at > n as u64 {
        return Err(truncated());
    }
    let pos = at as usize;
    let ghost b = segment@.subrange(pos as int, n as int);
    let avail = n - pos;
    if avail < 4 {
        return Err(truncated());
    }
    let compressed = segment[pos] == 0x42 && segment[pos + 1] == 0x4C && segment[pos + 2] == 0x4F && segment[pos + 3] == 0x43;
    let plain = segment[pos] == 0x42 && segment[pos + 1] == 0x4C && segment[pos + 2] == 0x4F && segment[pos + 3] == 0x42;
    proof {
        if compressed { assert(b.subrange(0, 4) =~= blob_magic(true)); }
        if plain { assert(b.subrange(0, 4) =~= blob_magic(false)); }
        if !compressed && !plain {
            if b.subrange(0, 4) == blob_magic(true) || b.subrange(0, 4) == blob_magic(false) {
                assert(b.subrange(0, 4)[0] == segment@[pos as int]);
                assert(b.subrange(0, 4)[1] == segment@[pos + 1]);
                assert(b.subrange(0, 4)[2] == segment@[pos + 2]);
                assert(b.subrange(0, 4)[3] == segment@[pos + 3]);
            }
        }
        if compressed && b.subrange(0, 4) != blob_magic(true) { assert(false); }
    }
    if !compressed && !plain {
        proof { reveal_strlit("Invalid blob magic"); }
        return Err(Error::Corrupted(String::from_str("Invalid blob magic")));
    }
    if avail < 24 {
        return Err(truncated());
    }
    let klen = u32_from_le_bytes(vstd::slice::slice_subrange(segment, pos + 4, pos + 8)) as u64;
    let vlen = u64_from_le_bytes(vstd::slice::slice_subrange(segment, pos + 8, pos + 16));
    let orig = u64_from_le_bytes(vstd::slice::slice_subrange(segment, pos + 16, pos + 24));
    proof {
        assert(segment@.subrange(pos + 4, pos + 8) =~= b.subrange(4, 8));
        assert(segment@.subrange(pos + 8, pos + 16) =~= b.subrange(8, 16));
        assert(segment@.subrange(pos + 16, pos + 24) =~= b.subrange(16, 24));
    }
    let rest = (avail - 24) as u64;
    if rest < klen || rest - klen < vlen || rest - klen - vlen < 4 {
        return Err(truncated());
    }
    let ks = pos + 24;
    let vs = ks + klen as usize;
    let end = vs + vlen as usize;
    let stored = u32_from_le_bytes(vstd::slice::slice_subrange(segment, end, end + 4));
    let computed = crc32(vstd::slice::slice_subrange(segment, pos + 4, end));
    proof {
        assert(segment@.subrange(end as int, end + 4) =~= b.subrange(24 + klen + vlen, 24 + klen + vlen + 4));
        assert(segment@.subrange(pos + 4, end as int) =~= b.subrange(4, 24 + klen + vlen));
    }
    if stored != computed {
        let expected = hex_u32_string(stored);
        let actual = hex_u32_string(computed);
        return Err(Error::ChecksumMismatch { expected, actual });
    }
    let value = vstd::slice::slice_subrange(segment, vs, end);
    proof { assert(value@ =~= b.subrange(24 + klen, 24 + klen + vlen)); }
    if compressed {
        #[verifier::truncate]
        let size = orig as i32;
        match lz4_decompress(value, size) {
            Some(d) => Ok(d),
            None => {
                proof { reveal_strlit("LZ4 decompression failed"); }
                Err(Error::Corrupted(String::from_str("LZ4 decompression failed")))
            },
        }
    } else {
        Ok(vstd::slice::slice_to_vec(value))
    }
}

/// Reading back a record gives the stored value, or its decompression for a compressed
/// record, whatever bytes follow it.
pub proof fn law_blob_record_read_back(compressed: bool, key: Seq<u8>, stored: Seq<u8>, original_len: u64, rest: Seq<u8>)
    requires
        key.len() <= u32::MAX,
        stored.len() <= u64::MAX,
    ensures
        parse_blob_record(blob_record(compressed, key, stored, original_len) + rest) == if compressed {
            match lz4_block_decompressed(stored, original_len as i32) {
                Some(d) => Ok::<Seq<u8>, BlobReadError>(d),
                None => Err(BlobReadError::Decompress),
            }
        } else {
            Ok(stored)
        },
{
    lemma_auto_spec_u32_to_from_le_bytes();
    lemma_auto_spec_u64_to_from_le_bytes();
    let body = blob_body(key, stored, original_len);
    let b = blob_record(compressed, key, stored, original_len) + rest;
    let klen = key.len() as int;
    let end = 24 + klen + stored.len();
    assert(b.subrange(0, 4) =~= blob_magic(compressed));
    assert(blob_magic(true) != blob_magic(false)) by {
        assert(blob_magic(true)[3] != blob_magic(false)[3]);
    }
    assert(magic_at(b) == Some(compressed));
    assert(b.subrange(4, 8) =~= spec_u32_to_le_bytes(key.len() as u32));
    assert(b.subrange(8, 16) =~= spec_u64_to_le_bytes(stored.len() as u64));
    assert(b.subrange(16, 24) =~= spec_u64_to_le_bytes(original_len));
    assert(b.subrange(4, end) =~= body);
    assert(b.subrange(end, end + 4) =~= spec_u32_to_le_bytes(crc32_of(body)));
    assert(b.subrange(24 + klen, end) =~= stored);
}

/// A record found by scanning a segment: its key's bytes, its offset and the original
/// length of its value.
pub struct ScannedView {
    pub key: Seq<u8>,
    pub offset: nat,
    pub original_len: u64,
}

/// The records of a segment from position `pos` on, up to the end of the bytes or the
/// first bytes that do not start with a magic; `None` where a record is cut short.
/// Checksums are not checked.
pub open spec fn scan_from(b: Seq<u8>, pos: nat) -> Option<Seq<ScannedView>>
    decreases b.len() - pos,
{
    if pos >= b.len() || magic_at(b.subrange(pos as int, b.len() as int)) is None {
        Some(Seq::empty())
    } else if b.len() - pos < 24 {
        None
    } else {
        let p = pos as int;
        let klen = spec_u32_from_le_bytes(b.subrange(p + 4, p + 8)) as int;
        let vlen = spec_u64_from_le_bytes(b.subrange(p + 8, p + 16)) as int;
        let orig = spec_u64_from_le_bytes(b.subrange(p + 16, p + 24));
        let next = p + 28 + klen + vlen;
        if next > b.len() {
            None
        } else {
            match scan_from(b, next as nat) {
                Some(rest) => Some(seq![ScannedView { key: b.subrange(p + 24, p + 24 + klen), offset: pos, original_len: orig }] + rest),
                None => None,
            }
        }
    }
}

/// A blob found in a segment, and where it lies.
pub struct ScannedBlob {
    pub key: String,
    pub location: BlobLocation,
}

/// Whether `found` are the blobs that the records `recs` of segment `segment` name: the
/// key decoded leniently, the offset, the original length as size, and the hash of the
/// key as hash.
pub open spec fn scanned_blobs(found: Seq<ScannedBlob>, recs: Seq<ScannedView>, segment: u64) -> bool {
    &&& found.len() == recs.len()
    &&& forall|i: int| 0 <= i < found.len() ==> {
        &&& (#[trigger] found[i]).key@ == utf8_lossy(recs[i].key)
        &&& found[i].location.shard == segment
        &&& found[i].location.offset == recs[i].offset
        &&& found[i].location.size == recs[i].original_len
        &&& found[i].location.blake3@ == hex_lower(blake3_digest(encode_utf8(found[i].key@)))
    }
}

/// The blobs in the bytes of segment `segment`, in order, as a volume rebuilds its index
/// from them; a record cut short fails the scan as a short read.
pub fn scan_segment(bytes: &[u8], segment: u64) -> (r: Result<Vec<ScannedBlob>, Error>)
    ensures
        match scan_from(bytes@, 0) {
            Some(recs) => r matches Ok(found) && scanned_blobs(found@, recs, segment),
            None => r matches Err(e) && is_blob_read_error(e, BlobReadError::Truncated),
        },
{
    let n = bytes.len();
    let mut found: Vec<ScannedBlob> = Vec::new();
    let mut pos: usize = 0;
    let ghost mut done: Seq<ScannedView> = Seq::empty();
    proof {
        match scan_from(bytes@, 0) {
            Some(x) => { assert(done + x =~= x); },
            None => {},
        }
    }
    loop
        invariant
            n == bytes@.len(),
            pos <= n,
            scan_from(bytes@, 0) == (match scan_from(bytes@, pos as nat) {
                Some(x) => Some(done + x),
                None => None::<Seq<ScannedView>>,
            }),
            scanned_blobs(found@, done, segment),
        decreases n - pos,
    {
        let ghost rest = bytes@.subrange(pos as int, n as int);
        let avail = n - pos;
        let is_magic = avail >= 4 && bytes[pos] == 0x42 && bytes[pos + 1] == 0x4C && bytes[pos + 2] == 0x4F
            && (bytes[pos + 3] == 0x43 || bytes[pos + 3] == 0x42);
        proof {
            if avail >= 4 {
                let m = rest.subrange(0, 4);
                assert(m[0] == bytes@[pos as int] && m[1] == bytes@[pos + 1] && m[2] == bytes@[pos + 2] && m[3] == bytes@[pos + 3]);
                if is_magic {
                    if bytes@[pos + 3] == 0x43 { assert(m =~= blob_magic(true)); } else { assert(m =~= blob_magic(false)); }
                }
            }
        }
        if !is_magic {
            proof { assert(done + Seq::<ScannedView>::empty() =~= done); }
            return Ok(found);
        }
        if avail < 24 {
            return Err(truncated());
        }
        let klen = u32_from_le_bytes(vstd::slice::slice_subrange(bytes, pos + 4, pos + 8)) as u64;
        let vlen = u64_from_le_bytes(vstd::slice::slice_subrange(bytes, pos + 8, pos + 16));
        let orig = u64_from_le_bytes(vstd::slice::slice_subrange(bytes, pos + 16, pos + 24));
        let rem = (avail - 24) as u64;
        if rem < klen || rem - klen < vlen || rem - klen - vlen < 4 {
            return Err(truncated());
        }
        let ks = pos + 24;
        let ke = ks + klen as usize;
        let next = ke + vlen as usize + 4;
        let key = string_from_utf8_lossy(vstd::slice::slice_subrange(bytes, ks, ke));
        let blake3 = blake3_hash(key.as_str().as_bytes());
        let ghost entry = ScannedView { key: bytes@.subrange(ks as int, ke as int), offset: pos as nat, original_len: orig };
        let ghost before = found@;
        found.push(ScannedBlob { key, location: BlobLocation { shard: segment, offset: pos as u64, size: orig, blake3, expires_at: None } });
        proof {
            match scan_from(bytes@, next as nat) {
                Some(x) => { assert(done + (seq![entry] + x) =~= done.push(entry) + x); },
                None => {},
            }
            assert forall|i: int| 0 <= i < found@.len() implies {
                &&& (#[trigger] found@[i]).key@ == utf8_lossy(done.push(entry)[i].key)
                &&& found@[i].location.shard == segment
                &&& found@[i].location.offset == done.push(entry)[i].offset
                &&& found@[i].location.size == done.push(entry)[i].original_len
                &&& found@[i].location.blake3@ == hex_lower(blake3_digest(encode_utf8(found@[i].key@)))
            } by {
                if i < before.len() { assert(found@[i] == before[i]); }
            }
            done = done.push(entry);
        }
        pos = next;
    }
}

/// The milliseconds that `key` has left to live in `m` at `now`: where it carries an expiry
/// not yet reached, the time until it.
pub open spec fn ttl_left(m: Map<Seq<char>, BlobLocationView>, key: Seq<char>, now: u64) -> Option<u64> {
    if m.contains_key(key) && m[key].expires_at is Some && now < m[key].expires_at->0 {
        Some((m[key].expires_at->0 - now) as u64)
    } else {
        None
    }
}

/// `location` set to expire `ttl_ms` milliseconds after `now` (Unix milliseconds) where a
/// time to live is given, else not to expire.
pub fn with_ttl(location: BlobLocation, ttl_ms: Option<u64>, now: u64) -> (r: BlobLocation)
    requires
        ttl_ms matches Some(t) ==> now + t <= u64::MAX,
    ensures
        r.view() == (BlobLocationView {
            expires_at: match ttl_ms { Some(t) => Some((now + t) as u64), None => None },
            ..location.view()
        }),
{
    let mut l = location;
    l.expires_at = match ttl_ms {
        Some(t) => Some(now + t),
        None => None,
    };
    l
}

/// What a volume's store holds.
#[derive(Debug, Clone)]
pub struct StoreStats {
    pub total_keys: usize,
    pub total_bytes: u64,
    pub active_segments: usize,
    pub index_size: usize,
    pub bloom_false_positives: u64,
    pub keys_with_ttl: usize,
    pub compressed_blobs: u64,
}

/// The sum of the sizes, wrapping around at 2^64.
pub open spec fn total_size(es: Seq<(Seq<char>, crate::index::BlobLocationView)>) -> u64
    decreases es.len(),
{
    if es.len() == 0 {
        0
    } else {
        crate::metrics::wrap_add(total_size(es.drop_last()), es.last().1.size)
    }
}

/// The statistics of a store whose index is `index` and whose current segment is
/// `current_segment`: its keys, the sum of their sizes (wrapping around at 2^64), and the
/// segments up to the current one, and how many keys carry an expiry.
pub fn store_stats(index: &crate::index::Index, current_segment: u64) -> (r: StoreStats)
    requires
        index.wf(),
    ensures
        r.total_keys == index@.len(),
        r.index_size == index@.len(),
        r.total_bytes == total_size(index.entries()),
        r.active_segments == crate::metrics::wrap_add(current_segment, 1) as usize,
        r.bloom_false_positives == 0,
        r.keys_with_ttl == index.ttl_keys().len(),
        r.compressed_blobs == 0,
{
    let ttl = index.keys_with_ttl();
    let entries = index.iter();
    let ghost es = index.entries();
    let mut total: u64 = 0;
    let mut i: usize = 0;
    while i < entries.len()
        invariant
            es == index.entries(),
            entries@.map_values(|e: (String, BlobLocation)| (e.0@, e.1.view())) == es,
            i <= entries@.len(),
            total == total_size(es.take(i as int)),
        decreases entries@.len() - i,
    {
        proof {
            assert(es.take(i as int + 1).drop_last() =~= es.take(i as int));
            assert(es.take(i as int + 1).last() == es[i as int]);
            assert(es[i as int].1.size == entries@[i as int].1.size);
        }
        total = total.wrapping_add(entries[i].1.size);
        i = i + 1;
    }
    proof { assert(es.take(i as int) =~= es); }
    let n = index.len();
    let segments = current_segment.wrapping_add(1);
    #[verifier::truncate]
    let active = segments as usize;
    StoreStats {
        total_keys: n,
        total_bytes: total,
        active_segments: active,
        index_size: n,
        bloom_false_positives: 0,
        keys_with_ttl: ttl.len(),
        compressed_blobs: 0,
    }
}

/// The size and hash of a blob, as the volume's HTTP API reports it.
pub struct Location {
    pub size: usize,
    pub blake3: [u8; 32],
}

/// `bloomfilter::Bloom`, carried as it is: what the store needs of it is stated by the
/// functions below.
#[verifier::external_type_specification]
#[verifier::external_body]
#[verifier::reject_recursive_types(T)]
pub struct ExBloom<T: ?Sized>(bloomfilter::Bloom<T>);

/// The items that a Bloom filter reports as present: those whose bits are all set.
pub uninterp spec fn bloom_positives(filter: bloomfilter::Bloom<[u8; 32]>) -> Set<Seq<u8>>;

/// The number of bits of a Bloom filter's bitmap.
pub uninterp spec fn bloom_bits(filter: bloomfilter::Bloom<[u8; 32]>) -> nat;

/// `Bloom::len`: the number of bits of the filter's bitmap.
#[verifier::external_body]
fn bloom_len(filter: &bloomfilter::Bloom<[u8; 32]>) -> (r: u64)
    ensures
        r == bloom_bits(*filter),
{
    filter.len()
}

/// `Bloom::set`: records `item`. Bits are only ever set, so the bitmap keeps its size,
/// the item is reported present from then on, and so is every item reported before.
#[verifier::external_body]
fn bloom_set(filter: &mut bloomfilter::Bloom<[u8; 32]>, item: &[u8; 32])
    requires
        bloom_bits(*old(filter)) > 0,
    ensures
        bloom_bits(*final(filter)) == bloom_bits(*old(filter)),
        bloom_positives(*final(filter)).contains(item@),
        bloom_positives(*old(filter)).subset_of(bloom_positives(*final(filter))),
{
    filter.set(item)
}

/// `Bloom::check`: whether `item` is reported present.
#[verifier::external_body]
fn bloom_check(filter: &bloomfilter::Bloom<[u8; 32]>, item: &[u8; 32]) -> (r: bool)
    requires
        bloom_bits(*filter) > 0,
    ensures
        r == bloom_positives(*filter).contains(item@),
{
    filter.check(item)
}

/// The digest under which a key is recorded in the Bloom filter: the BLAKE3 digest of
/// its UTF-8 bytes.
pub open spec fn key_digest(key: Seq<char>) -> Seq<u8> {
    blake3_digest(encode_utf8(key))
}

/// The index after adding the blobs found, one after the other.
pub open spec fn index_with(m: Map<Seq<char>, BlobLocationView>, found: Seq<ScannedBlob>) -> Map<Seq<char>, BlobLocationView>
    decreases found.len(),
{
    if found.len() == 0 {
        m
    } else {
        index_with(m, found.drop_last()).insert(found.last().key@, found.last().location.view())
    }
}

/// Adding scanned blobs, the last blob found for a key decides where it lies: each key
/// found maps to the location of its last occurrence, and a key not found keeps its
/// location, if any.
pub proof fn law_last_scanned_record_wins(m: Map<Seq<char>, BlobLocationView>, found: Seq<ScannedBlob>)
    ensures
        forall|i: int| 0 <= i < found.len() && (forall|j: int| i < j < found.len() ==> found[j].key@ != (#[trigger] found[i]).key@)
            ==> index_with(m, found).contains_key(found[i].key@) && index_with(m, found)[found[i].key@] == found[i].location.view(),
        forall|k: Seq<char>| (forall|j: int| 0 <= j < found.len() ==> found[j].key@ != k)
            ==> (#[trigger] index_with(m, found).contains_key(k)) == m.contains_key(k)
                && (m.contains_key(k) ==> index_with(m, found)[k] == m[k]),
    decreases found.len(),
{
    if found.len() > 0 {
        let init = found.drop_last();
        law_last_scanned_record_wins(m, init);
        let last = found.last();
        assert forall|i: int| 0 <= i < found.len() && (forall|j: int| i < j < found.len() ==> found[j].key@ != (#[trigger] found[i]).key@)
            implies index_with(m, found).contains_key(found[i].key@) && index_with(m, found)[found[i].key@] == found[i].location.view() by {
            if i < found.len() - 1 {
                assert(found[found.len() - 1].key@ != found[i].key@);
                assert(init[i] == found[i]);
                assert forall|j: int| i < j < init.len() implies init[j].key@ != (#[trigger] init[i]).key@ by {
                    assert(init[j] == found[j]);
                }
            }
        }
        assert forall|k: Seq<char>| (forall|j: int| 0 <= j < found.len() ==> found[j].key@ != k)
            implies (#[trigger] index_with(m, found).contains_key(k)) == m.contains_key(k)
                && (m.contains_key(k) ==> index_with(m, found)[k] == m[k]) by {
            assert(found[found.len() - 1].key@ != k);
            assert forall|j: int| 0 <= j < init.len() implies init[j].key@ != k by {
                assert(init[j] == found[j]);
            }
        }
    }
}

/// The in-memory state of a volume's blob store: where each blob lies, a Bloom filter of
/// the keys' digests that answers most lookups of absent keys, the position the next blob
/// is written at, and how values are stored.
pub struct BlobStore {
    index: Index,
    bloom: bloomfilter::Bloom<[u8; 32]>,
    cursor: BlobCursor,
    compression: CompressionMode,
}

/// Records the digest of every key of `index` in `bloom`.
fn record_keys(bloom: &mut bloomfilter::Bloom<[u8; 32]>, index: &Index)
    requires
        index.wf(),
        bloom_bits(*old(bloom)) > 0,
    ensures
        bloom_bits(*final(bloom)) == bloom_bits(*old(bloom)),
        bloom_positives(*old(bloom)).subset_of(bloom_positives(*final(bloom))),
        forall|k: Seq<char>| #[trigger] index@.contains_key(k) ==> bloom_positives(*final(bloom)).contains(key_digest(k)),
{
    let keys = index.keys();
    let ghost ks = key_views(keys@);
    let mut i: usize = 0;
    while i < keys.len()
        invariant
            ks == key_views(keys@),
            ks == index.key_order(),
            i <= keys@.len(),
            bloom_bits(*old(bloom)) > 0,
            bloom_bits(*bloom) == bloom_bits(*old(bloom)),
            bloom_positives(*old(bloom)).subset_of(bloom_positives(*bloom)),
            forall|j: int| 0 <= j < i ==> bloom_positives(*bloom).contains(key_digest(#[trigger] ks[j])),
        decreases keys@.len() - i,
    {
        let d = blake3_bytes(keys[i].as_str().as_bytes());
        let ghost before = *bloom;
        bloom_set(bloom, &d);
        proof {
            assert(ks[i as int] == keys@[i as int]@);
            assert forall|j: int| 0 <= j < i + 1 implies bloom_positives(*bloom).contains(key_digest(#[trigger] ks[j])) by {
                if j < i {
                    assert(bloom_positives(before).contains(key_digest(ks[j])));
                }
            }
        }
        i = i + 1;
    }
    proof {
        index.lemma_key_order();
        assert forall|k: Seq<char>| #[trigger] index@.contains_key(k) implies bloom_positives(*bloom).contains(key_digest(k)) by {
            assert(ks.contains(k));
            let j = choose|j: int| 0 <= j < ks.len() && ks[j] == k;
            assert(bloom_positives(*bloom).contains(key_digest(ks[j])));
        }
    }
}

impl BlobStore {
    /// Every indexed key is recorded in the filter, whose bitmap has bits.
    pub closed spec fn wf(&self) -> bool {
        &&& self.index.wf()
        &&& bloom_bits(self.bloom) > 0
        &&& forall|k: Seq<char>| #[trigger] self.index@.contains_key(k) ==> bloom_positives(self.bloom).contains(key_digest(k))
    }

    /// Where the store's blobs lie, by key.
    pub closed spec fn index_view(&self) -> Map<Seq<char>, BlobLocationView> {
        self.index@
    }

    /// The segment and offset the next blob is written at.
    pub closed spec fn position(&self) -> (u64, u64) {
        (self.cursor.segment, self.cursor.offset)
    }

    /// The index's entries, in walking order.
    pub closed spec fn entries(&self) -> Seq<(Seq<char>, BlobLocationView)> {
        self.index.entries()
    }

    /// The keys that carry an expiry, in walking order.
    pub closed spec fn ttl_keys(&self) -> Seq<Seq<char>> {
        self.index.ttl_keys()
    }

    /// The Bloom filter of the keys' digests.
    pub closed spec fn filter_value(&self) -> bloomfilter::Bloom<[u8; 32]> {
        self.bloom
    }

    /// How values are stored.
    pub closed spec fn mode(&self) -> CompressionMode {
        self.compression
    }

    /// The store over `index`, whose keys it records in `bloom`, writing next at `segment`
    /// and `offset`; `None` where the filter's bitmap has no bits to record keys in.
    pub fn new(index: Index, bloom: bloomfilter::Bloom<[u8; 32]>, segment: u64, offset: u64, compression: CompressionMode) -> (r: Option<BlobStore>)
        requires
            index.wf(),
        ensures
            bloom_bits(bloom) == 0 ==> r is None,
            bloom_bits(bloom) > 0 ==> (r matches Some(s) && s.wf() && s.index_view() == index@
                && s.position() == (segment, offset) && s.mode() == compression),
    {
        if bloom_len(&bloom) == 0 {
            return None;
        }
        let mut bloom = bloom;
        record_keys(&mut bloom, &index);
        Some(BlobStore { index, bloom, cursor: BlobCursor { segment, offset }, compression })
    }

    /// Where the blob of `key` lies, if the store holds it. A key that the filter does not
    /// report present is not looked up in the index.
    pub fn locate(&self, key: &str) -> (r: Option<BlobLocation>)
        requires
            self.wf(),
        ensures
            match r {
                Some(l) => self.index_view().contains_key(key@) && l.view() == self.index_view()[key@],
                None => !self.index_view().contains_key(key@),
            },
    {
        let d = blake3_bytes(key.as_bytes());
        if !bloom_check(&self.bloom, &d) {
            return None;
        }
        match self.index.get(key) {
            Some(l) => Some(l.duplicate()),
            None => None,
        }
    }

    /// The location of `key` if the store holds it and it has not expired at `now` (Unix
    /// milliseconds).
    pub fn locate_valid_at(&self, key: &str, now: u64) -> (r: Option<BlobLocation>)
        requires
            self.wf(),
        ensures
            match r {
                Some(l) => valid_entry(self.index_view(), key@, now) == Some(l.view()),
                None => valid_entry(self.index_view(), key@, now) is None,
            },
    {
        let d = blake3_bytes(key.as_bytes());
        if !bloom_check(&self.bloom, &d) {
            return None;
        }
        match self.index.get_if_valid_at(key, now) {
            Some(l) => Some(l.duplicate()),
            None => None,
        }
    }

    /// Whether the store holds `key` unexpired at `now` (Unix milliseconds).
    pub fn holds_at(&self, key: &str, now: u64) -> (r: bool)
        ensures
            r == valid_entry(self.index_view(), key@, now) is Some,
    {
        self.index.get_if_valid_at(key, now).is_some()
    }

    /// Whether the store holds `key` unexpired now, on the system clock.
    pub fn holds(&self, key: &str) -> (r: bool)
        ensures
            exists|now: u64| r == #[trigger] valid_entry(self.index_view(), key@, now) is Some,
            !self.index_view().contains_key(key@) ==> !r,
            self.index_view().contains_key(key@) && self.index_view()[key@].expires_at is None ==> r,
    {
        let now = crate::utils::timestamp_now_millis();
        let r = self.holds_at(key, now);
        assert(r == valid_entry(self.index_view(), key@, now) is Some);
        r
    }

    /// The milliseconds that `key` has left to live at `now`, if the store holds it with
    /// an expiry it has not reached.
    pub fn get_ttl_at(&self, key: &str, now: u64) -> (r: Option<u64>)
        ensures
            r == ttl_left(self.index_view(), key@, now),
    {
        match self.index.get(key) {
            Some(l) => match l.expires_at {
                Some(t) => if now < t { Some(t - now) } else { None },
                None => None,
            },
            None => None,
        }
    }

    /// The milliseconds that `key` has left to live now, on the system clock.
    pub fn get_ttl(&self, key: &str) -> (r: Option<u64>)
        ensures
            exists|now: u64| r == #[trigger] ttl_left(self.index_view(), key@, now),
    {
        let now = crate::utils::timestamp_now_millis();
        let r = self.get_ttl_at(key, now);
        assert(r == ttl_left(self.index_view(), key@, now));
        r
    }

    /// Forgets the keys that have expired at `now` (Unix milliseconds); gives how many
    /// there were.
    pub fn cleanup_expired_at(&mut self, now: u64) -> (r: usize)
        requires
            old(self).wf(),
        ensures
            final(self).wf(),
            final(self).index_view() == unexpired(old(self).index_view(), now),
            r == old(self).index_view().len() - final(self).index_view().len(),
            final(self).position() == old(self).position(),
            final(self).mode() == old(self).mode(),
    {
        let ghost before = self.index@;
        let r = self.index.cleanup_expired_at(now);
        proof {
            assert forall|k: Seq<char>| #[trigger] self.index@.contains_key(k) implies bloom_positives(self.bloom).contains(key_digest(k)) by {
                assert(before.contains_key(k));
            }
        }
        r
    }

    /// Forgets the keys that have expired now, on the system clock; gives how many there
    /// were.
    pub fn cleanup_expired(&mut self) -> (r: usize)
        requires
            old(self).wf(),
        ensures
            final(self).wf(),
            exists|now: u64| final(self).index_view() == #[trigger] unexpired(old(self).index_view(), now),
            r == old(self).index_view().len() - final(self).index_view().len(),
            final(self).position() == old(self).position(),
            final(self).mode() == old(self).mode(),
    {
        let now = crate::utils::timestamp_now_millis();
        self.cleanup_expired_at(now)
    }

    /// The segment and offset the next blob is written at.
    pub fn current_position(&self) -> (r: (u64, u64))
        ensures
            r == self.position(),
    {
        (self.cursor.segment, self.cursor.offset)
    }

    /// The position the next blob is written at, after moving to a new segment where the
    /// current one has grown past the segment size; fails once the segment limit is
    /// reached (the move is kept).
    pub fn next_position(&mut self) -> (r: Result<(u64, u64), Error>)
        requires
            old(self).wf(),
            old(self).position().0 < u64::MAX,
        ensures
            final(self).wf(),
            final(self).index_view() == old(self).index_view(),
            final(self).mode() == old(self).mode(),
            old(self).position().1 > SEGMENT_SIZE ==> final(self).position() == ((old(self).position().0 + 1) as u64, 0u64),
            old(self).position().1 <= SEGMENT_SIZE ==> final(self).position() == old(self).position(),
            r is Err <==> old(self).position().1 > SEGMENT_SIZE && old(self).position().0 + 1 >= MAX_SEGMENTS,
            r matches Err(e) ==> e matches Error::Internal(m) && m@ == "Max segments reached"@,
            r matches Ok(p) ==> p == final(self).position(),
    {
        match self.cursor.roll_over() {
            Ok(()) => Ok((self.cursor.segment, self.cursor.offset)),
            Err(e) => Err(e),
        }
    }

    /// Records the blob of `key`, `written` bytes written at `location`: the key's digest
    /// goes into the filter, the location into the index, and the next blob goes after it.
    pub fn record_put(&mut self, key: String, location: BlobLocation, written: u64)
        requires
            old(self).wf(),
            location.offset + written <= u64::MAX,
        ensures
            final(self).wf(),
            final(self).index_view() == old(self).index_view().insert(key@, location.view()),
            final(self).position() == (old(self).position().0, (location.offset + written) as u64),
            final(self).mode() == old(self).mode(),
    {
        let d = blake3_bytes(key.as_str().as_bytes());
        let ghost before = self.bloom;
        bloom_set(&mut self.bloom, &d);
        let ghost k = key@;
        self.cursor.advance(location.offset, written);
        self.index.insert(key, location);
        proof {
            assert forall|j: Seq<char>| #[trigger] self.index@.contains_key(j) implies bloom_positives(self.bloom).contains(key_digest(j)) by {
                if j != k {
                    assert(bloom_positives(before).contains(key_digest(j)));
                }
            }
        }
    }

    /// Forgets `key`; gives its location, if the store held it.
    pub fn remove(&mut self, key: &str) -> (r: Option<BlobLocation>)
        requires
            old(self).wf(),
        ensures
            final(self).wf(),
            final(self).index_view() == old(self).index_view().remove(key@),
            final(self).position() == old(self).position(),
            final(self).mode() == old(self).mode(),
            match r {
                Some(l) => old(self).index_view().contains_key(key@) && l.view() == old(self).index_view()[key@],
                None => !old(self).index_view().contains_key(key@),
            },
    {
        self.index.remove(key)
    }

    /// Replays a logged operation as a volume does when it opens: a put records the key in
    /// the filter, a delete removes the key from the index.
    pub fn replay(&mut self, entry: &WalEntry)
        requires
            old(self).wf(),
        ensures
            final(self).wf(),
            final(self).position() == old(self).position(),
            final(self).mode() == old(self).mode(),
            match &entry.op {
                WalOp::Put { key, .. } => final(self).index_view() == old(self).index_view(),
                WalOp::Delete { key } => final(self).index_view() == old(self).index_view().remove(key@),
            },
    {
        match &entry.op {
            WalOp::Put { key, .. } => {
                let d = blake3_bytes(key.as_str().as_bytes());
                let ghost before = self.bloom;
                bloom_set(&mut self.bloom, &d);
                proof {
                    assert forall|j: Seq<char>| #[trigger] self.index@.contains_key(j) implies bloom_positives(self.bloom).contains(key_digest(j)) by {
                        assert(bloom_positives(before).contains(key_digest(j)));
                    }
                }
            },
            WalOp::Delete { key } => {
                self.index.remove(key.as_str());
            },
        }
    }

    /// Adds the blobs found by scanning a segment, in order, as a volume rebuilds its index.
    pub fn add_scanned(&mut self, found: Vec<ScannedBlob>)
        requires
            old(self).wf(),
        ensures
            final(self).wf(),
            final(self).index_view() == index_with(old(self).index_view(), found@),
            forall|i: int| 0 <= i < found@.len()
                && (forall|j: int| i < j < found@.len() ==> found@[j].key@ != (#[trigger] found@[i]).key@)
                ==> final(self).index_view().contains_key(found@[i].key@)
                    && final(self).index_view()[found@[i].key@] == found@[i].location.view(),
            final(self).position() == old(self).position(),
            final(self).mode() == old(self).mode(),
    {
        proof { law_last_scanned_record_wins(old(self).index_view(), found@); }
        let ghost start = self.index@;
        let ghost fs = found@;
        let mut i: usize = 0;
        for blob in it: found
            invariant
                fs == it.seq(),
                self.wf(),
                self.index@ == index_with(start, fs.take(it.index() as int)),
                self.position() == old(self).position(),
                self.mode() == old(self).mode(),
        {
            proof { assert(fs.take(it.index() + 1).drop_last() =~= fs.take(it.index() as int)); }
            self.record_found(blob);
        }
        proof { assert(fs.take(fs.len() as int) =~= fs); }
    }

    fn record_found(&mut self, blob: ScannedBlob)
        requires
            old(self).wf(),
        ensures
            final(self).wf(),
            final(self).index_view() == old(self).index_view().insert(blob.key@, blob.location.view()),
            final(self).position() == old(self).position(),
            final(self).mode() == old(self).mode(),
    {
        let d = blake3_bytes(blob.key.as_str().as_bytes());
        let ghost before = self.bloom;
        bloom_set(&mut self.bloom, &d);
        let ghost k = blob.key@;
        self.index.insert(blob.key, blob.location);
        proof {
            assert forall|j: Seq<char>| #[trigger] self.index@.contains_key(j) implies bloom_positives(self.bloom).contains(key_digest(j)) by {
                if j != k {
                    assert(bloom_positives(before).contains(key_digest(j)));
                }
            }
        }
    }

    /// Takes the index and position left by a compaction.
    pub fn replace_after_compaction(&mut self, index: Index, segment: u64, offset: u64)
        requires
            old(self).wf(),
            index.wf(),
        ensures
            final(self).wf(),
            final(self).index_view() == index@,
            final(self).position() == (segment, offset),
            final(self).mode() == old(self).mode(),
    {
        record_keys(&mut self.bloom, &index);
        self.index = index;
        self.cursor = BlobCursor { segment, offset };
    }

    /// Sets how values are stored from now on.
    pub fn set_compression(&mut self, mode: CompressionMode)
        requires
            old(self).wf(),
        ensures
            final(self).wf(),
            final(self).mode() == mode,
            final(self).index_view() == old(self).index_view(),
            final(self).position() == old(self).position(),
    {
        self.compression = mode;
    }

    /// How values are stored.
    pub fn compression_mode(&self) -> (r: CompressionMode)
        ensures
            r == self.mode(),
    {
        self.compression
    }

    /// The Bloom filter, for saving it.
    pub fn filter(&self) -> (r: &bloomfilter::Bloom<[u8; 32]>)
        ensures
            *r == self.filter_value(),
    {
        &self.bloom
    }

    /// The index, for saving it or walking over its entries.
    pub fn index(&self) -> (r: &Index)
        requires
            self.wf(),
        ensures
            r.wf(),
            r@ == self.index_view(),
            r.entries() == self.entries(),
    {
        &self.index
    }

    /// What the store holds: its keys, the sum of their sizes (wrapping), and the
    /// segments up to the current one.
    pub fn stats(&self) -> (r: StoreStats)
        requires
            self.wf(),
        ensures
            r.total_keys == self.index_view().len(),
            r.index_size == self.index_view().len(),
            r.total_bytes == total_size(self.entries()),
            r.active_segments == crate::metrics::wrap_add(self.position().0, 1) as usize,
            r.bloom_false_positives == 0,
            r.keys_with_ttl == self.ttl_keys().len(),
            r.compressed_blobs == 0,
    {
        store_stats(&self.index, self.cursor.segment)
    }
}

} // verus!
