//! The staging area of a volume in the two-phase commit of a write.
//!
//! `prepare` checks an upload and holds its data under the upload id; `commit` hands the
//! held data over to be written under its key; `abort` forgets it. Held uploads older
//! than the staging lifetime are dropped when a new upload is prepared. Time is given by
//! the caller, in milliseconds of a monotonic clock.
use vstd::prelude::*;
use vstd::string::StringExecFns;
use crate::hash::{blake3_digest, blake3_hash};
use crate::text::hex_lower;

verus! {

/// How long a prepared upload is held, in milliseconds.
pub const STAGING_TTL_MS: u64 = 120_000;

/// A prepared upload.
pub struct Staged {
    pub upload_id: String,
    pub key: String,
    pub data: Vec<u8>,
    pub created_ms: u64,
}

/// What is held for an upload: its key, its data, when it was prepared.
pub struct StagedView {
    pub key: Seq<char>,
    pub data: Seq<u8>,
    pub created_ms: u64,
}

impl Staged {
    /// What is held.
    pub open spec fn view(&self) -> StagedView {
        StagedView { key: self.key@, data: self.data@, created_ms: self.created_ms }
    }
}

/// Why an upload is refused at `prepare`, checked in this order; `None` if it is accepted.
/// The BLAKE3 hash is always compared, so an empty expected hash is refused too.
pub open spec fn prepare_refusal(
    key: Seq<char>,
    upload_id: Seq<char>,
    data: Seq<u8>,
    expected_size: u64,
    expected_blake3: Seq<char>,
) -> Option<Seq<char>> {
    if key.len() == 0 {
        Some("key cannot be empty"@)
    } else if upload_id.len() == 0 {
        Some("upload_id cannot be empty"@)
    } else if data.len() != expected_size {
        Some("size mismatch"@)
    } else if hex_lower(blake3_digest(data)) != expected_blake3 {
        Some("checksum mismatch"@)
    } else {
        None
    }
}

/// Why an upload would be refused, or `None` if it is accepted.
pub fn check_prepare(key: &str, upload_id: &str, data: &[u8], expected_size: u64, expected_blake3: &str) -> (r: Option<String>)
    ensures
        match prepare_refusal(key@, upload_id@, data@, expected_size, expected_blake3@) {
            Some(m) => r matches Some(s) && s@ == m,
            None => r is None,
        },
{
    proof {
        reveal_strlit("key cannot be empty");
        reveal_strlit("upload_id cannot be empty");
        reveal_strlit("size mismatch");
        reveal_strlit("checksum mismatch");
    }
    if key.is_empty() {
        return Some(String::from_str("key cannot be empty"));
    }
    if upload_id.is_empty() {
        return Some(String::from_str("upload_id cannot be empty"));
    }
    if data.len() as u64 != expected_size {
        return Some(String::from_str("size mismatch"));
    }
    let actual = blake3_hash(data);
    let expected = expected_blake3.to_string();
    if actual != expected {
        return Some(String::from_str("checksum mismatch"));
    }
    None
}

/// The held uploads that are still young at `now`: prepared less than the staging
/// lifetime ago.
pub open spec fn still_young(m: Map<Seq<char>, StagedView>, now: u64) -> Map<Seq<char>, StagedView> {
    m.restrict(Set::new(|u: Seq<char>| m.contains_key(u) && young(m[u].created_ms, now)))
}

/// Whether an upload prepared at `created` is younger than the staging lifetime at `now`.
pub open spec fn young(created: u64, now: u64) -> bool {
    (if now >= created { now - created } else { 0 }) < STAGING_TTL_MS
}

/// What `commit` decides.
pub enum CommitDecision {
    /// An upload is held under this id for another key; it stays held.
    KeyMismatch,
    /// No upload is held under this id.
    Unknown,
    /// The held upload is handed over, to be written under its key.
    Write { key: String, data: Vec<u8> },
}

impl CommitDecision {
    /// The message a refused commit is answered with.
    pub fn refusal(&self) -> (r: Option<String>)
        ensures
            match self {
                CommitDecision::KeyMismatch => r matches Some(s) && s@ == "key does not match the prepared upload"@,
                CommitDecision::Unknown => r matches Some(s) && s@ == "unknown upload_id"@,
                CommitDecision::Write { .. } => r is None,
            },
    {
        proof {
            reveal_strlit("key does not match the prepared upload");
            reveal_strlit("unknown upload_id");
        }
        match self {
            CommitDecision::KeyMismatch => Some(String::from_str("key does not match the prepared upload")),
            CommitDecision::Unknown => Some(String::from_str("unknown upload_id")),
            CommitDecision::Write { .. } => None,
        }
    }
}

/// The uploads a volume holds between `prepare` and `commit`, by upload id.
pub struct StagingArea {
    uploads: Vec<Staged>,
}

/// The upload id of each held upload.
pub open spec fn upload_ids(s: Seq<Staged>) -> Seq<Seq<char>> {
    s.map_values(|u: Staged| u.upload_id@)
}

impl StagingArea {
    /// The held uploads, by upload id.
    pub closed spec fn view(&self) -> Map<Seq<char>, StagedView> {
        Map::new(
            |u: Seq<char>| upload_ids(self.uploads@).contains(u),
            |u: Seq<char>| self.uploads@[upload_ids(self.uploads@).index_of(u)].view(),
        )
    }

    /// The internal invariant: each upload id is held once.
    pub closed spec fn wf(&self) -> bool {
        upload_ids(self.uploads@).no_duplicates()
    }

    /// An empty staging area.
    pub fn new() -> (r: Self)
        ensures
            r.wf(),
            r@ == Map::<Seq<char>, StagedView>::empty(),
    {
        let r = StagingArea { uploads: Vec::new() };
        proof { assert(r@ =~= Map::<Seq<char>, StagedView>::empty()); }
        r
    }

    /// The number of held uploads.
    pub fn staged_uploads(&self) -> (r: usize)
        requires
            self.wf(),
        ensures
            r == self@.len(),
    {
        proof { self.lemma_len(); }
        self.uploads.len()
    }

    proof fn lemma_len(&self)
        requires
            self.wf(),
        ensures
            self@.len() == self.uploads@.len(),
    {
        let ids = upload_ids(self.uploads@);
        assert(self@.dom() =~= ids.to_set());
        ids.unique_seq_to_set();
    }

    proof fn lemma_lookup(&self, i: int)
        requires
            self.wf(),
            0 <= i < self.uploads@.len(),
        ensures
            self@.contains_key(self.uploads@[i].upload_id@),
            self@[self.uploads@[i].upload_id@] == self.uploads@[i].view(),
    {
        let ids = upload_ids(self.uploads@);
        assert(ids[i] == self.uploads@[i].upload_id@);
        ids.index_of_first_ensures(ids[i]);
        assert(ids.contains(ids[i]));
        let j = ids.index_of(ids[i]);
        assert(ids[j] == ids[i]);
    }

    /// The position of the upload held under `upload_id`, if any.
    fn find(&self, upload_id: &String) -> (r: Option<usize>)
        requires
            self.wf(),
        ensures
            match r {
                Some(i) => i < self.uploads@.len() && self.uploads@[i as int].upload_id@ == upload_id@,
                None => !self@.contains_key(upload_id@),
            },
    {
        let mut i: usize = 0;
        while i < self.uploads.len()
            invariant
                i <= self.uploads@.len(),
                forall|j: int| 0 <= j < i ==> #[trigger] self.uploads@[j].upload_id@ != upload_id@,
            decreases self.uploads@.len() - i,
        {
            if self.uploads[i].upload_id == *upload_id {
                return Some(i);
            }
            i = i + 1;
        }
        proof {
            if self@.contains_key(upload_id@) {
                let ids = upload_ids(self.uploads@);
                let j = choose|j: int| 0 <= j < ids.len() && ids[j] == upload_id@;
                assert(self.uploads@[j].upload_id@ == ids[j]);
            }
        }
        None
    }

    /// Removes the upload at position `i`.
    fn remove_at(&mut self, i: usize)
        requires
            old(self).wf(),
            i < old(self).uploads@.len(),
        ensures
            final(self).wf(),
            final(self)@ == old(self)@.remove(old(self).uploads@[i as int].upload_id@),
            final(self).uploads@ == old(self).uploads@.remove(i as int),
    {
        let ghost before = self.uploads@;
        let ghost id = before[i as int].upload_id@;
        self.uploads.remove(i);
        proof {
            let ids0 = upload_ids(before);
            let ids1 = upload_ids(self.uploads@);
            assert(ids1 =~= ids0.remove(i as int));
            assert forall|a: int, b: int| 0 <= a < b < ids1.len() implies ids1[a] != ids1[b] by {
                let a2 = if a < i { a } else { a + 1 };
                let b2 = if b < i { b } else { b + 1 };
                assert(ids1[a] == ids0[a2]);
                assert(ids1[b] == ids0[b2]);
            }
            assert forall|u: Seq<char>| #[trigger] self@.contains_key(u) == old(self)@.remove(id).contains_key(u) by {
                if ids1.contains(u) {
                    let a = choose|a: int| 0 <= a < ids1.len() && ids1[a] == u;
                    let a2 = if a < i { a } else { a + 1 };
                    assert(ids0[a2] == u);
                    assert(a2 != i);
                    assert(ids0[a2] != ids0[i as int]);
                }
                if u != id && ids0.contains(u) {
                    let a = choose|a: int| 0 <= a < ids0.len() && ids0[a] == u;
                    assert(a != i);
                    let a2 = if a < i { a } else { a - 1 };
                    assert(ids1[a2] == u);
                }
            }
            assert forall|u: Seq<char>| self@.contains_key(u) implies self@[u] == old(self)@[u] by {
                let a = ids1.index_of(u);
                ids1.index_of_first_ensures(u);
                let a2 = if a < i { a } else { a + 1 };
                assert(self.uploads@[a] == before[a2]);
                old(self).lemma_lookup(a2);
            }
            assert(self@ =~= old(self)@.remove(id));
        }
    }

    /// Drops the uploads that are no longer young at `now`.
    fn drop_expired(&mut self, now: u64)
        requires
            old(self).wf(),
        ensures
            final(self).wf(),
            final(self)@ == still_young(old(self)@, now),
    {
        let mut i: usize = 0;
        while i < self.uploads.len()
            invariant
                self.wf(),
                i <= self.uploads@.len(),
                forall|j: int| 0 <= j < i ==> young(#[trigger] self.uploads@[j].created_ms, now),
                still_young(self@, now) == still_young(old(self)@, now),
                forall|u: Seq<char>| #[trigger] self@.contains_key(u) ==> old(self)@.contains_key(u) && self@[u] == old(self)@[u],
            decreases self.uploads@.len() - i,
        {
            let created = self.uploads[i].created_ms;
            let age = now.saturating_sub(created);
            if age < STAGING_TTL_MS {
                i = i + 1;
            } else {
                let ghost mid = self@;
                let ghost id = self.uploads@[i as int].upload_id@;
                proof { self.lemma_lookup(i as int); }
                self.remove_at(i);
                proof {
                    assert(!young(mid[id].created_ms, now));
                    assert(still_young(self@, now) =~= still_young(mid, now));
                    assert forall|j: int| 0 <= j < i implies young(#[trigger] self.uploads@[j].created_ms, now) by {}
                }
            }
        }
        proof {
            assert forall|u: Seq<char>| #[trigger] self@.contains_key(u) implies young(self@[u].created_ms, now) by {
                let ids = upload_ids(self.uploads@);
                let a = ids.index_of(u);
                ids.index_of_first_ensures(u);
                assert(young(self.uploads@[a].created_ms, now));
            }
            assert(self@ =~= still_young(self@, now));
        }
    }

    /// Checks and holds an upload. A refused upload changes nothing and is answered with
    /// the reason; an accepted one first drops the uploads that are no longer young, then
    /// is held under its upload id (in place of any upload held there) as prepared `now`.
    pub fn prepare(&mut self, now: u64, key: String, upload_id: String, data: Vec<u8>, expected_size: u64, expected_blake3: &str) -> (r: Option<String>)
        requires
            old(self).wf(),
        ensures
            final(self).wf(),
            match prepare_refusal(key@, upload_id@, data@, expected_size, expected_blake3@) {
                Some(m) => r matches Some(s) && s@ == m && final(self)@ == old(self)@,
                None => r is None && final(self)@ == still_young(old(self)@, now).insert(
                    upload_id@,
                    StagedView { key: key@, data: data@, created_ms: now },
                ),
            },
    {
        let refusal = check_prepare(key.as_str(), upload_id.as_str(), data.as_slice(), expected_size, expected_blake3);
        if refusal.is_some() {
            return refusal;
        }
        self.drop_expired(now);
        let ghost young_map = self@;
        match self.find(&upload_id) {
            Some(i) => self.remove_at(i),
            None => {},
        }
        let ghost id = upload_id@;
        proof {
            assert(!self@.contains_key(id));
            assert(!upload_ids(self.uploads@).contains(id));
        }
        let ghost before = self.uploads@;
        let ghost mid = self@;
        let staged = Staged { upload_id, key, data, created_ms: now };
        let ghost sv = staged.view();
        self.uploads.push(staged);
        proof {
            let ids0 = upload_ids(before);
            let ids1 = upload_ids(self.uploads@);
            assert(ids1 =~= ids0.push(id));
            assert forall|a: int, b: int| 0 <= a < b < ids1.len() implies ids1[a] != ids1[b] by {
                if b == ids1.len() - 1 {
                    assert(ids0[a] == ids1[a]);
                    assert(ids0.contains(ids0[a]));
                }
            }
            assert(ids1[ids1.len() - 1] == id);
            assert forall|u: Seq<char>| #[trigger] self@.contains_key(u) == mid.insert(id, sv).contains_key(u) by {
                if ids0.contains(u) {
                    let a = choose|a: int| 0 <= a < ids0.len() && ids0[a] == u;
                    assert(ids1[a] == u);
                }
                if ids1.contains(u) && u != id {
                    let a = choose|a: int| 0 <= a < ids1.len() && ids1[a] == u;
                    assert(a < ids0.len());
                    assert(ids0[a] == u);
                }
            }
            assert forall|u: Seq<char>| self@.contains_key(u) implies self@[u] == mid.insert(id, sv)[u] by {
                self.lemma_lookup(upload_ids(self.uploads@).index_of(u));
                upload_ids(self.uploads@).index_of_first_ensures(u);
                let a = upload_ids(self.uploads@).index_of(u);
                if u != id {
                    assert(a < before.len());
                    assert(self.uploads@[a] == before[a]);
                    assert(ids0[a] == u);
                    assert(mid.contains_key(u));
                    let b = ids0.index_of(u);
                    ids0.index_of_first_ensures(u);
                    assert(ids0.no_duplicates());
                    assert(a == b);
                } else {
                    assert(ids1[ids1.len() - 1] == id);
                    assert(a == ids1.len() - 1);
                }
            }
            assert(self@ =~= mid.insert(id, sv));
            assert(mid =~= young_map.remove(id));
            assert(self@ =~= still_young(old(self)@, now).insert(id, sv));
        }
        None
    }

    /// What committing `upload_id` for `key` does: the held upload is handed over and
    /// forgotten when its key matches; it stays held when it does not; nothing is held
    /// under an unknown id.
    pub fn commit(&mut self, upload_id: &String, key: &String) -> (r: CommitDecision)
        requires
            old(self).wf(),
        ensures
            final(self).wf(),
            !old(self)@.contains_key(upload_id@) ==> r is Unknown && final(self)@ == old(self)@,
            old(self)@.contains_key(upload_id@) && old(self)@[upload_id@].key != key@ ==>
                r is KeyMismatch && final(self)@ == old(self)@,
            old(self)@.contains_key(upload_id@) && old(self)@[upload_id@].key == key@ ==> (
                r matches CommitDecision::Write { key: k, data: d }
                    && k@ == key@ && d@ == old(self)@[upload_id@].data
                    && final(self)@ == old(self)@.remove(upload_id@)),
    {
        match self.find(upload_id) {
            None => CommitDecision::Unknown,
            Some(i) => {
                proof { self.lemma_lookup(i as int); }
                if self.uploads[i].key != *key {
                    return CommitDecision::KeyMismatch;
                }
                let ghost before = self.uploads@;
                let ghost v = self.uploads@[i as int].view();
                self.remove_at_into(i)
            },
        }
    }

    /// Removes the upload at position `i` and hands it over.
    fn remove_at_into(&mut self, i: usize) -> (r: CommitDecision)
        requires
            old(self).wf(),
            i < old(self).uploads@.len(),
        ensures
            final(self).wf(),
            final(self)@ == old(self)@.remove(old(self).uploads@[i as int].upload_id@),
            r matches CommitDecision::Write { key: k, data: d }
                && k@ == old(self).uploads@[i as int].key@ && d@ == old(self).uploads@[i as int].data@,
    {
        let key = self.uploads[i].key.clone();
        let data = vstd::slice::slice_to_vec(self.uploads[i].data.as_slice());
        self.remove_at(i);
        CommitDecision::Write { key, data }
    }

    /// Forgets the upload held under `upload_id`, if any.
    pub fn abort(&mut self, upload_id: &String)
        requires
            old(self).wf(),
        ensures
            final(self).wf(),
            final(self)@ == old(self)@.remove(upload_id@),
    {
        match self.find(upload_id) {
            Some(i) => self.remove_at(i),
            None => {
                proof { assert(self@ =~= old(self)@.remove(upload_id@)); }
            },
        }
    }
}

/// What committing a held upload hands over, as `StagingArea::commit` decides it.
pub open spec fn commit_outcome(m: Map<Seq<char>, StagedView>, upload_id: Seq<char>, key: Seq<char>) -> Option<Seq<u8>> {
    if m.contains_key(upload_id) && m[upload_id].key == key {
        Some(m[upload_id].data)
    } else {
        None
    }
}

/// An accepted upload, committed right after under its key, hands over exactly the data
/// that was prepared.
pub proof fn law_commit_gives_prepared_data(m: Map<Seq<char>, StagedView>, now: u64, upload_id: Seq<char>, key: Seq<char>, data: Seq<u8>)
    ensures
        commit_outcome(
            still_young(m, now).insert(upload_id, StagedView { key, data, created_ms: now }),
            upload_id,
            key,
        ) == Some(data),
{
}

/// After an abort nothing can be committed under that upload id.
pub proof fn law_aborted_upload_is_never_written(m: Map<Seq<char>, StagedView>, upload_id: Seq<char>, key: Seq<char>)
    ensures
        commit_outcome(m.remove(upload_id), upload_id, key) is None,
{
}

/// Once committed, an upload cannot be committed again: it is written at most once.
pub proof fn law_upload_is_written_once(m: Map<Seq<char>, StagedView>, upload_id: Seq<char>, key: Seq<char>, key2: Seq<char>)
    requires
        commit_outcome(m, upload_id, key) is Some,
    ensures
        commit_outcome(m.remove(upload_id), upload_id, key2) is None,
{
}


/// The size of the chunks a blob is streamed in, in bytes.
pub const CHUNK_SIZE: usize = 1_048_576;

/// `data` cut into chunks of `n` bytes, the last one shorter where `n` does not divide
/// its length; no chunk for no data.
pub open spec fn chunked(data: Seq<u8>, n: nat) -> Seq<Seq<u8>>
    decreases data.len(),
{
    if data.len() == 0 || n == 0 {
        Seq::empty()
    } else if data.len() <= n {
        seq![data]
    } else {
        seq![data.take(n as int)] + chunked(data.skip(n as int), n)
    }
}

/// The chunks a volume streams a blob in.
pub fn stream_chunks(data: &[u8]) -> (r: Vec<Vec<u8>>)
    ensures
        r@.map_values(|c: Vec<u8>| c@) == chunked(data@, CHUNK_SIZE as nat),
{
    let mut out: Vec<Vec<u8>> = Vec::new();
    let mut start: usize = 0;
    let n = data.len();
    proof { assert(data@.skip(0) =~= data@); }
    while start < n
        invariant
            start <= n == data@.len(),
            out@.map_values(|c: Vec<u8>| c@) + chunked(data@.skip(start as int), CHUNK_SIZE as nat)
                == chunked(data@, CHUNK_SIZE as nat),
        decreases n - start,
    {
        let rest = n - start;
        let end = if rest <= CHUNK_SIZE { n } else { start + CHUNK_SIZE };
        let chunk = vstd::slice::slice_to_vec(vstd::slice::slice_subrange(data, start, end));
        proof {
            let tail = data@.skip(start as int);
            if rest <= CHUNK_SIZE {
                assert(chunk@ =~= tail);
                assert(data@.skip(end as int).len() == 0);
                assert(chunked(data@.skip(end as int), CHUNK_SIZE as nat) =~= Seq::<Seq<u8>>::empty());
            } else {
                assert(chunk@ =~= tail.take(CHUNK_SIZE as int));
                assert(tail.skip(CHUNK_SIZE as int) =~= data@.skip(end as int));
            }
            assert(out@.push(chunk).map_values(|c: Vec<u8>| c@) =~= out@.map_values(|c: Vec<u8>| c@).push(chunk@));
            assert(out@.map_values(|c: Vec<u8>| c@).push(chunk@) + chunked(data@.skip(end as int), CHUNK_SIZE as nat)
                =~= out@.map_values(|c: Vec<u8>| c@) + chunked(tail, CHUNK_SIZE as nat));
        }
        out.push(chunk);
        start = end;
    }
    proof {
        assert(data@.skip(start as int).len() == 0);
        assert(out@.map_values(|c: Vec<u8>| c@) + Seq::<Seq<u8>>::empty() =~= out@.map_values(|c: Vec<u8>| c@));
    }
    out
}


/// Streaming a blob loses nothing: its chunks, joined in order, are the blob, and each
/// chunk holds between one and `n` bytes.
pub proof fn law_chunks_rebuild_the_blob(data: Seq<u8>, n: nat)
    requires
        n > 0,
    ensures
        chunked(data, n).flatten() == data,
        forall|i: int| 0 <= i < chunked(data, n).len() ==> 0 < (#[trigger] chunked(data, n)[i]).len() <= n,
    decreases data.len(),
{
    if data.len() == 0 {
        assert(chunked(data, n).flatten() =~= data);
    } else if data.len() <= n {
        let s = seq![data];
        assert(s.drop_first() =~= Seq::<Seq<u8>>::empty());
        assert(s.drop_first().flatten() =~= Seq::<u8>::empty());
        assert(s.flatten() == s.first() + s.drop_first().flatten());
        assert(data + Seq::<u8>::empty() =~= data);
    } else {
        let rest = data.skip(n as int);
        law_chunks_rebuild_the_blob(rest, n);
        let head = data.take(n as int);
        assert((seq![head] + chunked(rest, n)).drop_first() =~= chunked(rest, n));
        assert(head + rest =~= data);
        assert forall|i: int| 0 <= i < chunked(data, n).len() implies 0 < (#[trigger] chunked(data, n)[i]).len() <= n by {
            if i > 0 {
                assert(chunked(data, n)[i] == chunked(rest, n)[i - 1]);
            }
        }
    }
}

} // verus!
