//! The decisions of the coordinator's object store: which volumes are live, what a write
//! does after each round of its two-phase commit, in which order a read tries the
//! replicas, and how a volume's heartbeat updates its record.
use vstd::prelude::*;
use vstd::string::StringExecFns;
use crate::error::Error;
use crate::hash::{blake3_digest, blake3_hash};
use crate::metadata::{KeyMetadata, KeyState, VolumeMetadata};
use crate::text::{hex_lower, join, join_strings};
use crate::utils::NodeState;

verus! {

/// The current Unix time in milliseconds (0 if the clock is set before the epoch).
pub fn now_ms() -> (r: u64)
{
    crate::utils::timestamp_now_millis()
}

/// How long a volume stays live after its last heartbeat, in milliseconds.
pub const VOLUME_TIMEOUT_MS: u64 = 5_000;

/// Why an object operation failed.
#[derive(Debug)]
pub enum ObjectError {
    /// This coordinator is not the leader; the leader, if one is known.
    NotLeader(Option<String>),
    NotFound,
    NoVolumes,
    Volume(String),
    Consensus(String),
    Metadata(String),
}

/// The message an object error is displayed with.
pub open spec fn object_error_message(e: ObjectError) -> Seq<char> {
    match e {
        ObjectError::NotLeader(Some(l)) => "this coordinator is not the leader, the leader is "@ + l@,
        ObjectError::NotLeader(None) => "no leader is elected right now"@,
        ObjectError::NotFound => "not found"@,
        ObjectError::NoVolumes => "no live volume"@,
        ObjectError::Volume(m) => "volume error: "@ + m@,
        ObjectError::Consensus(m) => "consensus error: "@ + m@,
        ObjectError::Metadata(m) => "metadata error: "@ + m@,
    }
}

fn prefixed(prefix: &str, m: &String) -> (r: String)
    ensures
        r@ == prefix@ + m@,
{
    let mut s = prefix.to_string();
    s.append(m.as_str());
    s
}

impl ObjectError {
    /// The message this error is displayed with.
    pub fn message(&self) -> (r: String)
        ensures
            r@ == object_error_message(*self),
    {
        proof {
            reveal_strlit("this coordinator is not the leader, the leader is ");
            reveal_strlit("no leader is elected right now");
            reveal_strlit("not found");
            reveal_strlit("no live volume");
            reveal_strlit("volume error: ");
            reveal_strlit("consensus error: ");
            reveal_strlit("metadata error: ");
        }
        match self {
            ObjectError::NotLeader(Some(l)) => prefixed("this coordinator is not the leader, the leader is ", l),
            ObjectError::NotLeader(None) => String::from_str("no leader is elected right now"),
            ObjectError::NotFound => String::from_str("not found"),
            ObjectError::NoVolumes => String::from_str("no live volume"),
            ObjectError::Volume(m) => prefixed("volume error: ", m),
            ObjectError::Consensus(m) => prefixed("consensus error: ", m),
            ObjectError::Metadata(m) => prefixed("metadata error: ", m),
        }
    }
}

/// What a volume reports in a heartbeat.
#[derive(Debug, Clone)]
pub struct VolumeHeartbeat {
    pub volume_id: String,
    pub grpc_address: String,
    pub http_address: String,
    pub total_keys: u64,
    pub total_bytes: u64,
    pub free_bytes: u64,
}

/// A change of a key, as watchers are told of it.
#[derive(Debug, Clone)]
pub struct KeyChangeEvent {
    /// `put`, `delete` or `revoke`.
    pub event: String,
    pub key: String,
    pub tenant: Option<String>,
    /// Unix seconds.
    pub timestamp: i64,
}

/// A change of the metadata agreed through consensus.
#[derive(Debug)]
pub enum Command {
    /// Records the metadata of a key.
    PutKey(KeyMetadata),
    /// Forgets a key.
    DeleteKey(String),
}

/// Where a stored object went.
#[derive(Debug, Clone)]
pub struct StoredObject {
    pub replicas: Vec<String>,
    pub size: u64,
    pub blake3: String,
}

/// The milliseconds elapsed since `then` at `now` (0 if `then` is later).
pub open spec fn elapsed(then: u64, now: u64) -> int {
    if now >= then { now - then } else { 0 }
}

/// Whether a volume is live at `now`: alive, and heard from within the timeout.
pub open spec fn live(state: NodeState, last_heartbeat: u64, now: u64) -> bool {
    state == NodeState::Alive && elapsed(last_heartbeat, now) <= VOLUME_TIMEOUT_MS
}

/// Whether `volume` is live at `now`.
pub fn is_live(volume: &VolumeMetadata, now: u64) -> (r: bool)
    ensures
        r == live(volume.state, volume.last_heartbeat, now),
{
    volume.state.is_healthy() && now.saturating_sub(volume.last_heartbeat) <= VOLUME_TIMEOUT_MS
}

/// The live volumes among `vs` at `now`, in their order.
pub open spec fn live_only(vs: Seq<VolumeMetadata>, now: u64) -> Seq<VolumeMetadata>
    decreases vs.len(),
{
    if vs.len() == 0 {
        Seq::empty()
    } else if live(vs.last().state, vs.last().last_heartbeat, now) {
        live_only(vs.drop_last(), now).push(vs.last())
    } else {
        live_only(vs.drop_last(), now)
    }
}

/// The live volumes among `volumes`, in their order.
pub fn live_volumes(volumes: Vec<VolumeMetadata>, now: u64) -> (r: Vec<VolumeMetadata>)
    ensures
        r@ == live_only(volumes@, now),
{
    let mut out: Vec<VolumeMetadata> = Vec::new();
    for v in it: volumes
        invariant
            out@ == live_only(it.seq().take(it.index() as int), now),
    {
        proof {
            assert(it.seq().take(it.index() as int + 1).drop_last() =~= it.seq().take(it.index() as int));
            assert(it.seq().take(it.index() as int + 1).last() == v);
        }
        if is_live(&v, now) {
            out.push(v);
        }
    }
    proof { assert(volumes@.take(volumes@.len() as int) =~= volumes@); }
    out
}

/// The name under which an object's blob is stored: its blob id, or its key for records
/// made before blob ids.
pub open spec fn blob_key_of(key: Seq<char>, blob_id: Seq<char>) -> Seq<char> {
    if blob_id.len() == 0 { key } else { blob_id }
}

/// The name under which the blob of `meta` is stored.
pub fn blob_key(meta: &KeyMetadata) -> (r: &str)
    ensures
        r@ == blob_key_of(meta.key@, meta.blob_id@),
{
    if meta.blob_id.as_str().is_empty() {
        meta.key.as_str()
    } else {
        meta.blob_id.as_str()
    }
}

/// Whether `oe` is what the consensus error `e` tells an object client: a known leader is
/// named, an unknown one is not, anything else is a consensus failure with the error's
/// message.
pub open spec fn is_consensus_error(e: Error, oe: ObjectError) -> bool {
    match e {
        Error::NotLeader(l) => if l@ != "unknown"@ {
            oe matches ObjectError::NotLeader(Some(m)) && m@ == l@
        } else {
            oe matches ObjectError::NotLeader(None)
        },
        _ => oe matches ObjectError::Consensus(m) && m@ == crate::error::error_message(e),
    }
}

/// What a consensus error tells an object client.
pub fn consensus_error(error: Error) -> (r: ObjectError)
    ensures
        is_consensus_error(error, r),
{
    proof { reveal_strlit("unknown"); }
    match error {
        Error::NotLeader(leader) => {
            let unknown = String::from_str("unknown");
            if leader != unknown {
                ObjectError::NotLeader(Some(leader))
            } else {
                ObjectError::NotLeader(None)
            }
        },
        other => ObjectError::Consensus(other.message()),
    }
}

/// The lines describing the failed volumes: `<volume id>: <error>` for each target whose
/// result is an error, in order.
pub open spec fn failure_lines(ids: Seq<Seq<char>>, results: Seq<Result<(), Seq<char>>>) -> Seq<Seq<char>>
    decreases ids.len(),
{
    if ids.len() == 0 || results.len() == 0 {
        Seq::empty()
    } else {
        let n = if ids.len() < results.len() { ids.len() } else { results.len() };
        let init = failure_lines(ids.take(n - 1), results.take(n - 1));
        match results[n - 1] {
            Ok(()) => init,
            Err(e) => init.push(ids[n - 1] + ": "@ + e),
        }
    }
}

/// The view of each outcome, the error by its text.
pub open spec fn outcomes_view(results: Seq<Result<(), String>>) -> Seq<Result<(), Seq<char>>> {
    results.map_values(|r: Result<(), String>| match r {
        Ok(()) => Ok(()),
        Err(e) => Err(e@),
    })
}

/// The id of each volume.
pub open spec fn volume_ids(vs: Seq<VolumeMetadata>) -> Seq<Seq<char>> {
    vs.map_values(|v: VolumeMetadata| v.volume_id@)
}

/// Whether every outcome is a success.
pub open spec fn all_ok(results: Seq<Result<(), Seq<char>>>) -> bool {
    forall|i: int| 0 <= i < results.len() ==> (#[trigger] results[i]) is Ok
}

proof fn lemma_failure_lines_empty(ids: Seq<Seq<char>>, results: Seq<Result<(), Seq<char>>>)
    requires
        ids.len() == results.len(),
    ensures
        failure_lines(ids, results).len() == 0 <==> all_ok(results),
    decreases ids.len(),
{
    if ids.len() > 0 {
        let n = ids.len() as int;
        lemma_failure_lines_empty(ids.take(n - 1), results.take(n - 1));
        if all_ok(results) {
            assert forall|i: int| 0 <= i < n - 1 implies (#[trigger] results.take(n - 1)[i]) is Ok by {
                assert(results[i] is Ok);
            }
            assert(results[n - 1] is Ok);
        } else {
            let i = choose|i: int| 0 <= i < results.len() && !(#[trigger] results[i] is Ok);
            if i < n - 1 {
                assert(results.take(n - 1)[i] == results[i]);
            }
        }
    }
}

/// The failures of a round of calls to `targets`, `<volume id>: <error>` joined by `; `,
/// or `None` if every call succeeded.
pub fn describe_failures(targets: &[VolumeMetadata], results: &[Result<(), String>]) -> (r: Option<String>)
    ensures
        ({
            let lines = failure_lines(volume_ids(targets@), outcomes_view(results@));
            if lines.len() == 0 { r is None } else { r matches Some(s) && s@ == join(lines, "; "@) }
        }),
{
    proof { reveal_strlit(": "); }
    let ghost ids = volume_ids(targets@);
    let ghost rs = outcomes_view(results@);
    let n = if targets.len() < results.len() { targets.len() } else { results.len() };
    let mut lines: Vec<String> = Vec::new();
    let mut i: usize = 0;
    while i < n
        invariant
            n <= targets@.len(),
            n <= results@.len(),
            n == targets@.len() || n == results@.len(),
            ids == volume_ids(targets@),
            rs == outcomes_view(results@),
            i <= n,
            lines@.map_values(|p: String| p@) == failure_lines(ids.take(i as int), rs.take(i as int)),
        decreases n - i,
    {
        let ghost before = lines@;
        proof {
            let m = i as int + 1;
            assert(ids.take(m).take(m - 1) =~= ids.take(i as int));
            assert(rs.take(m).take(m - 1) =~= rs.take(i as int));
            assert(ids.take(m)[m - 1] == targets@[i as int].volume_id@);
        }
        match &results[i] {
            Ok(()) => {},
            Err(e) => {
                let mut line = targets[i].volume_id.clone();
                line.append(": ");
                line.append(e.as_str());
                lines.push(line);
                proof {
                    assert(lines@.map_values(|p: String| p@) =~= before.map_values(|p: String| p@).push(line@));
                }
            },
        }
        i = i + 1;
    }
    proof {
        if targets@.len() <= results@.len() {
            assert(ids.take(n as int) =~= ids);
            assert(failure_lines(ids, rs.take(n as int)) == failure_lines(ids, rs)) by {
                lemma_failure_lines_prefix(ids, rs);
            }
        } else {
            assert(rs.take(n as int) =~= rs);
            assert(failure_lines(ids.take(n as int), rs) == failure_lines(ids, rs)) by {
                lemma_failure_lines_prefix(ids, rs);
            }
        }
    }
    if lines.len() == 0 {
        None
    } else {
        Some(join_strings(&lines, "; "))
    }
}

proof fn lemma_failure_lines_prefix(ids: Seq<Seq<char>>, rs: Seq<Result<(), Seq<char>>>)
    ensures
        ({
            let n = if ids.len() < rs.len() { ids.len() } else { rs.len() };
            failure_lines(ids, rs) == failure_lines(ids.take(n as int), rs.take(n as int))
        }),
{
    let n = if ids.len() < rs.len() { ids.len() } else { rs.len() };
    if n > 0 {
        assert(ids.take(n as int).take(n - 1) =~= ids.take(n - 1));
        assert(rs.take(n as int).take(n - 1) =~= rs.take(n - 1));
    } else {
        assert(ids.take(0).len() == 0);
    }
}

/// Where a write stands in its two-phase commit.
#[derive(Debug, Clone, Copy, PartialEq, Eq, Structural)]
pub enum PutPhase {
    /// The data is being prepared on the targets.
    Preparing,
    /// Every target prepared; the upload is being committed.
    Committing,
    /// Every target committed; the key's metadata is being recorded through consensus.
    Recording,
    /// The write is over, done or failed.
    Finished,
}

/// What the coordinator does next in a write.
pub enum PutAction {
    /// Commit the upload on every target.
    Commit,
    /// Abort the upload on every target, then fail.
    AbortAndFail(ObjectError),
    /// Abort the upload and delete the blob on every target, then fail.
    AbortDeleteAndFail { replicas: Vec<String>, blob: String, error: ObjectError },
    /// Record the key's metadata through consensus.
    Record(KeyMetadata),
    /// Fail.
    Fail(ObjectError),
    /// The write is done; the blob of the version it replaces, on these volumes, is to be
    /// deleted, if there is one.
    Done { stored: StoredObject, stale: Option<(Vec<String>, String)> },
}

/// The volumes and the blob name of a blob to delete, as text.
pub open spec fn stale_view(o: Option<(Vec<String>, String)>) -> Option<(Seq<Seq<char>>, Seq<char>)> {
    match o {
        Some((replicas, blob)) => Some((strings(replicas@), blob@)),
        None => None,
    }
}

/// The blob that a write of blob `blob_id` leaves stale when it replaces `previous`: the
/// replaced version's blob, on its volumes, where that is another blob.
pub open spec fn stale_blob(previous: Option<&KeyMetadata>, blob_id: Seq<char>) -> Option<(Seq<Seq<char>>, Seq<char>)> {
    match previous {
        Some(p) => if blob_key_of(p.key@, p.blob_id@) != blob_id {
            Some((strings(p.replicas@), blob_key_of(p.key@, p.blob_id@)))
        } else {
            None
        },
        None => None,
    }
}

/// A write of an object: its key, its blob and its targets, and where it stands.
pub struct PutState {
    key: String,
    upload_id: String,
    blob_id: String,
    targets: Vec<String>,
    size: u64,
    checksum: String,
    phase: PutPhase,
    stale: Option<(Vec<String>, String)>,
}

/// The text of each string.
pub open spec fn strings(s: Seq<String>) -> Seq<Seq<char>> {
    s.map_values(|x: String| x@)
}

fn clone_string_vec(v: &Vec<String>) -> (r: Vec<String>)
    ensures
        strings(r@) == strings(v@),
{
    let mut out: Vec<String> = Vec::new();
    let mut i: usize = 0;
    while i < v.len()
        invariant
            i <= v@.len(),
            strings(out@) == strings(v@.take(i as int)),
        decreases v@.len() - i,
    {
        let c = v[i].clone();
        let ghost before = out@;
        out.push(c);
        proof {
            assert(strings(out@) =~= strings(before).push(c@));
            assert(strings(v@.take(i as int + 1)) =~= strings(v@.take(i as int)).push(v@[i as int]@));
        }
        i = i + 1;
    }
    proof { assert(v@.take(i as int) =~= v@); }
    out
}

impl PutState {
    /// The key written.
    pub closed spec fn key(&self) -> Seq<char> { self.key@ }
    /// The id of the blob written: `<key>#<upload id>`.
    pub closed spec fn blob_id(&self) -> Seq<char> { self.blob_id@ }
    /// The upload id.
    pub closed spec fn upload_id(&self) -> Seq<char> { self.upload_id@ }
    /// The volumes written to.
    pub closed spec fn targets(&self) -> Seq<Seq<char>> { strings(self.targets@) }
    /// The size of the data.
    pub closed spec fn size(&self) -> u64 { self.size }
    /// The BLAKE3 hash of the data.
    pub closed spec fn checksum(&self) -> Seq<char> { self.checksum@ }
    /// Where the write stands.
    pub closed spec fn phase(&self) -> PutPhase { self.phase }
    /// The blob of the replaced version left to delete once the write is recorded, if any.
    pub closed spec fn stale(&self) -> Option<(Seq<Seq<char>>, Seq<char>)> { stale_view(self.stale) }

    /// A write of `data` under `key` to the volumes `targets`, with a fresh `upload_id`.
    pub fn start(key: &str, upload_id: &str, data: &[u8], targets: Vec<String>) -> (r: Self)
        ensures
            r.key() == key@,
            r.upload_id() == upload_id@,
            r.blob_id() == key@ + "#"@ + upload_id@,
            r.targets() == strings(targets@),
            r.size() == data@.len(),
            r.checksum() == hex_lower(blake3_digest(data@)),
            r.phase() == PutPhase::Preparing,
            r.stale() is None,
    {
        proof { reveal_strlit("#"); }
        let mut blob_id = key.to_string();
        blob_id.append("#");
        blob_id.append(upload_id);
        PutState {
            key: key.to_string(),
            upload_id: upload_id.to_string(),
            blob_id,
            targets,
            size: data.len() as u64,
            checksum: blake3_hash(data),
            phase: PutPhase::Preparing,
            stale: None,
        }
    }

    /// The upload id, to be handed to the volumes.
    pub fn upload_id_str(&self) -> (r: &str)
        ensures
            r@ == self.upload_id(),
    {
        self.upload_id.as_str()
    }

    /// The blob id, to be handed to the volumes.
    pub fn blob_id_str(&self) -> (r: &str)
        ensures
            r@ == self.blob_id(),
    {
        self.blob_id.as_str()
    }

    /// After the prepare round, whose outcomes are in the targets' order: commit if every
    /// target prepared, else abort and fail with the failures.
    pub fn on_prepared(&mut self, targets: &[VolumeMetadata], results: &[Result<(), String>]) -> (r: PutAction)
        requires
            old(self).phase() == PutPhase::Preparing,
        ensures
            final(self).key() == old(self).key() && final(self).blob_id() == old(self).blob_id()
                && final(self).upload_id() == old(self).upload_id() && final(self).targets() == old(self).targets()
                && final(self).size() == old(self).size() && final(self).checksum() == old(self).checksum(),
            final(self).stale() == old(self).stale(),
            ({
                let lines = failure_lines(volume_ids(targets@), outcomes_view(results@));
                if lines.len() == 0 {
                    r is Commit && final(self).phase() == PutPhase::Committing
                } else {
                    &&& r matches PutAction::AbortAndFail(ObjectError::Volume(m))
                    &&& m@ == "prepare failed ("@ + join(lines, "; "@) + ")"@
                    &&& final(self).phase() == PutPhase::Finished
                }
            }),
    {
        proof {
            reveal_strlit("prepare failed (");
            reveal_strlit(")");
        }
        match describe_failures(targets, results) {
            None => {
                self.phase = PutPhase::Committing;
                PutAction::Commit
            },
            Some(failures) => {
                self.phase = PutPhase::Finished;
                let mut m = String::from_str("prepare failed (");
                m.append(failures.as_str());
                m.append(")");
                PutAction::AbortAndFail(ObjectError::Volume(m))
            },
        }
    }

    /// After the commit round: if a target failed, abort and delete the blob everywhere,
    /// and fail; else record the key's metadata, keeping the creation time of the version
    /// it replaces (`previous`), and remember that version's blob if it is another one.
    pub fn on_committed(&mut self, targets: &[VolumeMetadata], results: &[Result<(), String>], previous: Option<&KeyMetadata>, now: u64) -> (r: PutAction)
        requires
            old(self).phase() == PutPhase::Committing,
        ensures
            final(self).key() == old(self).key() && final(self).blob_id() == old(self).blob_id()
                && final(self).upload_id() == old(self).upload_id() && final(self).targets() == old(self).targets()
                && final(self).size() == old(self).size() && final(self).checksum() == old(self).checksum(),
            ({
                let lines = failure_lines(volume_ids(targets@), outcomes_view(results@));
                if lines.len() == 0 {
                    &&& r matches PutAction::Record(meta)
                    &&& meta.key@ == old(self).key()
                    &&& meta.blob_id@ == old(self).blob_id()
                    &&& strings(meta.replicas@) == old(self).targets()
                    &&& meta.size == old(self).size()
                    &&& meta.blake3@ == old(self).checksum()
                    &&& meta.created_at == (match previous { Some(p) => p.created_at, None => now })
                    &&& meta.updated_at == now
                    &&& meta.state == KeyState::Active
                    &&& final(self).phase() == PutPhase::Recording
                    &&& final(self).stale() == stale_blob(previous, old(self).blob_id())
                } else {
                    &&& r matches PutAction::AbortDeleteAndFail { replicas, blob, error: ObjectError::Volume(m) }
                    &&& strings(replicas@) == old(self).targets()
                    &&& blob@ == old(self).blob_id()
                    &&& m@ == "commit failed ("@ + join(lines, "; "@) + ")"@
                    &&& final(self).phase() == PutPhase::Finished
                    &&& final(self).stale() == old(self).stale()
                }
            }),
    {
        proof {
            reveal_strlit("commit failed (");
            reveal_strlit(")");
        }
        match describe_failures(targets, results) {
            Some(failures) => {
                self.phase = PutPhase::Finished;
                let mut m = String::from_str("commit failed (");
                m.append(failures.as_str());
                m.append(")");
                PutAction::AbortDeleteAndFail {
                    replicas: clone_string_vec(&self.targets),
                    blob: self.blob_id.clone(),
                    error: ObjectError::Volume(m),
                }
            },
            None => {
                self.phase = PutPhase::Recording;
                let created_at = match previous {
                    Some(p) => p.created_at,
                    None => now,
                };
                self.stale = match previous {
                    Some(p) => {
                        let old_blob = blob_key(p);
                        let mine = self.blob_id.clone();
                        let theirs = old_blob.to_string();
                        if theirs != mine {
                            Some((clone_string_vec(&p.replicas), theirs))
                        } else {
                            None
                        }
                    },
                    None => None,
                };
                PutAction::Record(KeyMetadata {
                    key: self.key.clone(),
                    blob_id: self.blob_id.clone(),
                    replicas: clone_string_vec(&self.targets),
                    size: self.size,
                    blake3: self.checksum.clone(),
                    created_at,
                    updated_at: now,
                    state: KeyState::Active,
                })
            },
        }
    }

    /// After the metadata was proposed: fail as consensus says, or the write is done, with
    /// the blob of the replaced version to delete if it is another one.
    pub fn on_recorded(&mut self, outcome: Result<(), Error>) -> (r: PutAction)
        requires
            old(self).phase() == PutPhase::Recording,
        ensures
            final(self).phase() == PutPhase::Finished,
            match outcome {
                Err(e) => r matches PutAction::Fail(oe) && is_consensus_error(e, oe),
                Ok(()) => r matches PutAction::Done { stored, stale }
                    && stale_view(stale) == old(self).stale()
                    && strings(stored.replicas@) == old(self).targets()
                    && stored.size == old(self).size()
                    && stored.blake3@ == old(self).checksum(),
            },
    {
        self.phase = PutPhase::Finished;
        match outcome {
            Err(e) => PutAction::Fail(consensus_error(e)),
            Ok(()) => {
                let stale = match &self.stale {
                    Some((replicas, blob)) => Some((clone_string_vec(replicas), blob.clone())),
                    None => None,
                };
                PutAction::Done {
                    stored: StoredObject {
                        replicas: clone_string_vec(&self.targets),
                        size: self.size,
                        blake3: self.checksum.clone(),
                    },
                    stale,
                }
            },
        }
    }
}

/// A write records its metadata only after every target prepared and every target
/// committed: in any run of the write, a `Record` comes only from a prepare round and a
/// commit round with no failure.
pub proof fn law_record_needs_every_replica(
    prepare_ids: Seq<Seq<char>>,
    prepare_results: Seq<Result<(), Seq<char>>>,
    commit_ids: Seq<Seq<char>>,
    commit_results: Seq<Result<(), Seq<char>>>,
)
    requires
        prepare_ids.len() == prepare_results.len(),
        commit_ids.len() == commit_results.len(),
        failure_lines(prepare_ids, prepare_results).len() == 0,
        failure_lines(commit_ids, commit_results).len() == 0,
    ensures
        all_ok(prepare_results),
        all_ok(commit_results),
{
    lemma_failure_lines_empty(prepare_ids, prepare_results);
    lemma_failure_lines_empty(commit_ids, commit_results);
}

/// What waiting for leadership decides at one look.
pub enum LeaderCheck {
    /// This coordinator leads: go on.
    Proceed,
    /// Give up with this error.
    Refuse(ObjectError),
    /// Look again later.
    Wait,
}

/// Whether a write may go on: it may where this coordinator leads; it is refused where
/// another node is known to lead, or, once the deadline has passed, where no leader is
/// known (or this node is named but does not lead yet); otherwise it waits.
pub fn leader_check(is_leader: bool, leader: Option<String>, node_id: &String, deadline_passed: bool) -> (r: LeaderCheck)
    ensures
        is_leader ==> r is Proceed,
        !is_leader ==> match leader {
            Some(l) => if l@ != node_id@ {
                r matches LeaderCheck::Refuse(ObjectError::NotLeader(Some(m))) && m@ == l@
            } else if deadline_passed {
                r matches LeaderCheck::Refuse(ObjectError::NotLeader(Some(m))) && m@ == l@
            } else {
                r is Wait
            },
            None => if deadline_passed {
                r matches LeaderCheck::Refuse(ObjectError::NotLeader(None))
            } else {
                r is Wait
            },
        },
{
    if is_leader {
        return LeaderCheck::Proceed;
    }
    match leader {
        Some(l) => {
            if l != *node_id || deadline_passed {
                LeaderCheck::Refuse(ObjectError::NotLeader(Some(l)))
            } else {
                LeaderCheck::Wait
            }
        },
        None => {
            if deadline_passed {
                LeaderCheck::Refuse(ObjectError::NotLeader(None))
            } else {
                LeaderCheck::Wait
            }
        },
    }
}

/// The replicas in the order a read tries them: those on live volumes first, each group
/// in its recorded order.
pub open spec fn read_order(replicas: Seq<Seq<char>>, live_ids: Seq<Seq<char>>) -> Seq<Seq<char>> {
    replicas.filter(|r: Seq<char>| live_ids.contains(r)) + replicas.filter(|r: Seq<char>| !live_ids.contains(r))
}

/// Orders the replicas for a read: those on live volumes first, each group in its
/// recorded order.
pub fn order_replicas_for_read(replicas: &Vec<String>, live_ids: &Vec<String>) -> (r: Vec<String>)
    ensures
        strings(r@) == read_order(strings(replicas@), strings(live_ids@)),
{
    let ghost rs = strings(replicas@);
    let ghost ls = strings(live_ids@);
    let ghost on = |r: Seq<char>| ls.contains(r);
    let ghost off = |r: Seq<char>| !ls.contains(r);
    let mut first: Vec<String> = Vec::new();
    let mut second: Vec<String> = Vec::new();
    let mut i: usize = 0;
    while i < replicas.len()
        invariant
            rs == strings(replicas@),
            ls == strings(live_ids@),
            on == (|r: Seq<char>| ls.contains(r)),
            off == (|r: Seq<char>| !ls.contains(r)),
            i <= replicas@.len(),
            strings(first@) == rs.take(i as int).filter(on),
            strings(second@) == rs.take(i as int).filter(off),
        decreases replicas@.len() - i,
    {
        let c = replicas[i].clone();
        let is_on = contains_string(live_ids, &c);
        proof {
            reveal(Seq::filter);
            assert(rs.take(i as int + 1).drop_last() =~= rs.take(i as int));
            assert(rs.take(i as int + 1).last() == c@);
        }
        if is_on {
            let ghost before = first@;
            first.push(c);
            proof { assert(strings(first@) =~= strings(before).push(c@)); }
        } else {
            let ghost before = second@;
            second.push(c);
            proof { assert(strings(second@) =~= strings(before).push(c@)); }
        }
        i = i + 1;
    }
    proof { assert(rs.take(i as int) =~= rs); }
    let mut j: usize = 0;
    let ghost head = strings(first@);
    while j < second.len()
        invariant
            j <= second@.len(),
            strings(first@) == head + strings(second@).take(j as int),
        decreases second@.len() - j,
    {
        let c = second[j].clone();
        let ghost before = first@;
        first.push(c);
        proof {
            assert(strings(first@) =~= strings(before).push(c@));
            assert(strings(second@).take(j as int + 1) =~= strings(second@).take(j as int).push(c@));
        }
        j = j + 1;
    }
    proof { assert(strings(second@).take(j as int) =~= strings(second@)); }
    first
}

/// Whether `s` is among `v`.
fn contains_string(v: &Vec<String>, s: &String) -> (r: bool)
    ensures
        r == strings(v@).contains(s@),
{
    let mut i: usize = 0;
    while i < v.len()
        invariant
            i <= v@.len(),
            forall|j: int| 0 <= j < i ==> #[trigger] v@[j]@ != s@,
        decreases v@.len() - i,
    {
        if v[i] == *s {
            proof { assert(strings(v@)[i as int] == s@); }
            return true;
        }
        i = i + 1;
    }
    proof {
        if strings(v@).contains(s@) {
            let j = choose|j: int| 0 <= j < strings(v@).len() && strings(v@)[j] == s@;
            assert(v@[j]@ == s@);
        }
    }
    false
}

/// What a heartbeat tells about a volume, for the log.
#[derive(Debug, Clone, Copy, PartialEq, Eq, Structural)]
pub enum HeartbeatNews {
    /// The volume was not known.
    Joined,
    /// The volume's gRPC address changed.
    Moved,
    /// The volume was not live any more.
    BackOnline,
    /// Nothing new.
    Steady,
}

/// The record of a volume after its heartbeat at `now`, and what is new: it is alive, its
/// addresses and totals are those reported, its shards stay those recorded.
pub fn record_heartbeat(heartbeat: VolumeHeartbeat, previous: Option<VolumeMetadata>, now: u64) -> (r: (VolumeMetadata, HeartbeatNews))
    ensures
        r.0.volume_id@ == heartbeat.volume_id@,
        r.0.address@ == heartbeat.http_address@,
        r.0.grpc_address@ == heartbeat.grpc_address@,
        r.0.state == NodeState::Alive,
        r.0.shards@ == (match previous { Some(p) => p.shards@, None => Seq::<u64>::empty() }),
        r.0.total_keys == heartbeat.total_keys,
        r.0.total_bytes == heartbeat.total_bytes,
        r.0.free_bytes == heartbeat.free_bytes,
        r.0.last_heartbeat == now,
        r.1 == (match previous {
            None => HeartbeatNews::Joined,
            Some(p) => if p.grpc_address@ != heartbeat.grpc_address@ {
                HeartbeatNews::Moved
            } else if !live(p.state, p.last_heartbeat, now) {
                HeartbeatNews::BackOnline
            } else {
                HeartbeatNews::Steady
            },
        }),
{
    let (news, shards) = match previous {
        None => (HeartbeatNews::Joined, Vec::new()),
        Some(p) => {
            let news = if p.grpc_address != heartbeat.grpc_address {
                HeartbeatNews::Moved
            } else if !is_live(&p, now) {
                HeartbeatNews::BackOnline
            } else {
                HeartbeatNews::Steady
            };
            (news, p.shards)
        },
    };
    (VolumeMetadata {
        volume_id: heartbeat.volume_id,
        address: heartbeat.http_address,
        grpc_address: heartbeat.grpc_address,
        state: NodeState::Alive,
        shards,
        total_keys: heartbeat.total_keys,
        total_bytes: heartbeat.total_bytes,
        free_bytes: heartbeat.free_bytes,
        last_heartbeat: now,
    }, news)
}

/// The shard numbers among `shards`: those that read as a `u64`, in order.
pub open spec fn parsed_shards(shards: Seq<Seq<char>>) -> Seq<u64>
    decreases shards.len(),
{
    if shards.len() == 0 {
        Seq::empty()
    } else {
        match crate::utils::parse_u64_spec(shards.last()) {
            Some(n) => parsed_shards(shards.drop_last()).push(n),
            None => parsed_shards(shards.drop_last()),
        }
    }
}

/// The record of a volume that joins at `now`: alive, reachable at `address` (its HTTP
/// and gRPC address both), holding the shards that read as numbers, with no totals yet.
pub fn volume_from_join(volume_id: String, address: String, shards: &Vec<String>, now: u64) -> (r: VolumeMetadata)
    ensures
        r.volume_id@ == volume_id@,
        r.address@ == address@,
        r.grpc_address@ == address@,
        r.state == NodeState::Alive,
        r.shards@ == parsed_shards(strings(shards@)),
        r.total_keys == 0 && r.total_bytes == 0 && r.free_bytes == 0,
        r.last_heartbeat == now,
{
    let mut parsed: Vec<u64> = Vec::new();
    let mut i: usize = 0;
    while i < shards.len()
        invariant
            i <= shards@.len(),
            parsed@ == parsed_shards(strings(shards@.take(i as int))),
        decreases shards@.len() - i,
    {
        proof {
            assert(strings(shards@.take(i as int + 1)).drop_last() =~= strings(shards@.take(i as int)));
            assert(strings(shards@.take(i as int + 1)).last() == shards@[i as int]@);
        }
        let cs = crate::text::chars_of(shards[i].as_str());
        match crate::utils::parse_u64(&cs) {
            Some(n) => parsed.push(n),
            None => {},
        }
        i = i + 1;
    }
    proof { assert(shards@.take(i as int) =~= shards@); }
    VolumeMetadata {
        volume_id,
        address: address.clone(),
        grpc_address: address,
        state: NodeState::Alive,
        shards: parsed,
        total_keys: 0,
        total_bytes: 0,
        free_bytes: 0,
        last_heartbeat: now,
    }
}

/// A known volume after a heartbeat over gRPC at `now`: alive, with the reported totals.
pub fn refresh_volume(volume: &mut VolumeMetadata, total_keys: u64, total_bytes: u64, free_bytes: u64, now: u64)
    ensures
        final(volume).volume_id == old(volume).volume_id,
        final(volume).address == old(volume).address,
        final(volume).grpc_address == old(volume).grpc_address,
        final(volume).shards == old(volume).shards,
        final(volume).state == NodeState::Alive,
        final(volume).total_keys == total_keys,
        final(volume).total_bytes == total_bytes,
        final(volume).free_bytes == free_bytes,
        final(volume).last_heartbeat == now,
{
    volume.total_keys = total_keys;
    volume.total_bytes = total_bytes;
    volume.free_bytes = free_bytes;
    volume.state = NodeState::Alive;
    volume.last_heartbeat = now;
}


/// How many times a read is tried while the key moves to newer blobs.
pub const READ_ATTEMPTS: usize = 3;

/// The metadata a read goes on with: that of a key that is there and active; a missing or
/// deleted key is not found.
pub fn readable(found: Option<KeyMetadata>) -> (r: Result<KeyMetadata, ObjectError>)
    ensures
        match found {
            Some(m) => if m.state == KeyState::Active { r == Ok::<KeyMetadata, ObjectError>(m) } else { r matches Err(ObjectError::NotFound) },
            None => r matches Err(ObjectError::NotFound),
        },
{
    match found {
        Some(m) => if m.state == KeyState::Active { Ok(m) } else { Err(ObjectError::NotFound) },
        None => Err(ObjectError::NotFound),
    }
}

/// Whether a failed read is tried again: only where the key, read anew, names another
/// blob than the one that failed (a newer write landed meanwhile), or can no longer be read.
pub fn read_again(failed: &KeyMetadata, current: Option<&KeyMetadata>) -> (r: bool)
    ensures
        r == match current {
            Some(c) => blob_key_of(c.key@, c.blob_id@) != blob_key_of(failed.key@, failed.blob_id@),
            None => true,
        },
{
    match current {
        Some(c) => {
            let a = blob_key(c).to_string();
            let b = blob_key(failed).to_string();
            a != b
        },
        None => true,
    }
}

/// What a replica answered to a pull of a blob.
pub enum PullAnswer {
    /// The replica's volume is not registered.
    UnknownVolume,
    /// The bytes the volume holds.
    Data(Vec<u8>),
    /// The volume does not hold the blob.
    Missing,
    /// The pull failed; why.
    Failed(String),
}

/// What a read of replicas does next.
pub enum ReadAction {
    /// Pull the blob from the volume with this id.
    Pull(String),
    /// The read is over: these bytes, whose BLAKE3 hash is the recorded one.
    Done(Vec<u8>),
    /// Every replica failed.
    Fail(ObjectError),
}

/// The line that records why a replica did not give the blob.
pub open spec fn failure_line(id: Seq<char>, answer: PullAnswer) -> Seq<char> {
    match answer {
        PullAnswer::UnknownVolume => id + ": unknown volume"@,
        PullAnswer::Data(_) => id + ": checksum mismatch"@,
        PullAnswer::Missing => id + ": blob missing"@,
        PullAnswer::Failed(e) => id + ": "@ + e@,
    }
}

/// A read of the replicas of one blob: they are tried in order until one gives bytes
/// with the recorded hash.
pub struct ReplicaRead {
    order: Vec<String>,
    next: usize,
    expected: String,
    failures: Vec<String>,
}

impl ReplicaRead {
    /// The replicas in the order they are tried.
    pub closed spec fn order(&self) -> Seq<Seq<char>> {
        strings(self.order@)
    }

    /// The number of replicas asked so far.
    pub closed spec fn asked(&self) -> nat {
        self.next as nat
    }

    /// Why each replica asked so far did not give the blob.
    pub closed spec fn failures(&self) -> Seq<Seq<char>> {
        strings(self.failures@)
    }

    /// The recorded hash, in hexadecimal.
    pub closed spec fn expected(&self) -> Seq<char> {
        self.expected@
    }

    /// The read waits for the answer of a replica.
    pub closed spec fn waiting(&self) -> bool {
        &&& self.next < self.order@.len()
        &&& self.failures@.len() == self.next
    }

    /// A read of the blob of `meta`, whose replicas on the volumes `live_ids` are tried
    /// first; and its first step: pull from the first replica, or fail where no replica
    /// is recorded.
    pub fn start(meta: &KeyMetadata, live_ids: &Vec<String>) -> (r: (ReplicaRead, ReadAction))
        ensures
            r.0.order() == read_order(strings(meta.replicas@), strings(live_ids@)),
            r.0.expected() == meta.blake3@,
            r.0.asked() == 0,
            r.0.failures() == Seq::<Seq<char>>::empty(),
            meta.replicas@.len() == 0 ==> (r.1 matches ReadAction::Fail(ObjectError::Volume(m))
                && m@ == "no replica is recorded for this key"@),
            meta.replicas@.len() > 0 ==> r.0.waiting() && (r.1 matches ReadAction::Pull(id) && id@ == r.0.order()[0]),
    {
        let order = order_replicas_for_read(&meta.replicas, live_ids);
        proof {
            lemma_read_order_len(strings(meta.replicas@), strings(live_ids@));
        }
        let read = ReplicaRead { order, next: 0, expected: meta.blake3.clone(), failures: Vec::new() };
        proof { assert(strings(read.failures@) =~= Seq::<Seq<char>>::empty()); }
        if read.order.len() == 0 {
            (read, ReadAction::Fail(ObjectError::Volume(String::from_str("no replica is recorded for this key"))))
        } else {
            let first = read.order[0].clone();
            (read, ReadAction::Pull(first))
        }
    }

    /// Takes the answer of the replica asked last: bytes with the recorded hash end the
    /// read; anything else is recorded as a failure, and the next replica is asked, or,
    /// after the last one, the read fails with every failure.
    pub fn on_answer(&mut self, answer: PullAnswer) -> (r: ReadAction)
        requires
            old(self).waiting(),
        ensures
            final(self).order() == old(self).order(),
            final(self).expected() == old(self).expected(),
            match r {
                ReadAction::Done(d) => answer matches PullAnswer::Data(a) && d@ == a@
                    && hex_lower(blake3_digest(d@)) == old(self).expected(),
                _ => !(answer matches PullAnswer::Data(a) && hex_lower(blake3_digest(a@)) == old(self).expected())
                    && final(self).asked() == old(self).asked() + 1
                    && final(self).failures() == old(self).failures().push(
                        failure_line(old(self).order()[old(self).asked() as int], answer)),
            },
            r matches ReadAction::Pull(id) ==> final(self).waiting() && id@ == final(self).order()[final(self).asked() as int],
            r matches ReadAction::Fail(e) ==> (final(self).asked() == final(self).order().len()
                && (e matches ObjectError::Volume(m) && m@ == join(final(self).failures(), "; "@))),
            (answer matches PullAnswer::Data(a) && hex_lower(blake3_digest(a@)) == old(self).expected()) ==> r is Done,
    {
        let id = self.order[self.next].clone();
        let ghost answer_v = answer;
        let n = self.next;
        let len = self.order.len();
        proof { assert(n < len); }
        let line = match answer {
            PullAnswer::Data(d) => {
                let h = blake3_hash(d.as_slice());
                if h == self.expected {
                    return ReadAction::Done(d);
                }
                prefixed_id(&id, ": checksum mismatch")
            },
            PullAnswer::UnknownVolume => prefixed_id(&id, ": unknown volume"),
            PullAnswer::Missing => prefixed_id(&id, ": blob missing"),
            PullAnswer::Failed(e) => {
                let mut s = prefixed_id(&id, ": ");
                s.append(e.as_str());
                s
            },
        };
        proof {
            reveal_strlit(": checksum mismatch");
            reveal_strlit(": unknown volume");
            reveal_strlit(": blob missing");
            reveal_strlit(": ");
            assert(line@ == failure_line(id@, answer_v));
        }
        let ghost before = self.failures@;
        self.failures.push(line);
        self.next = n + 1;
        proof {
            assert(strings(self.failures@) =~= strings(before).push(failure_line(id@, answer_v)));
        }
        if self.next < self.order.len() {
            ReadAction::Pull(self.order[self.next].clone())
        } else {
            let m = join_strings(&self.failures, "; ");
            ReadAction::Fail(ObjectError::Volume(m))
        }
    }
}

/// `id` followed by `suffix`.
fn prefixed_id(id: &String, suffix: &str) -> (r: String)
    ensures
        r@ == id@ + suffix@,
{
    let mut s = id.clone();
    s.append(suffix);
    s
}

proof fn lemma_read_order_len(rs: Seq<Seq<char>>, ls: Seq<Seq<char>>)
    ensures
        read_order(rs, ls).len() == rs.len(),
{
    lemma_filter_split_len(rs, ls);
}

proof fn lemma_filter_split_len(rs: Seq<Seq<char>>, ls: Seq<Seq<char>>)
    ensures
        rs.filter(|x: Seq<char>| ls.contains(x)).len() + rs.filter(|x: Seq<char>| !ls.contains(x)).len() == rs.len(),
    decreases rs.len(),
{
    reveal(Seq::filter);
    if rs.len() > 0 {
        lemma_filter_split_len(rs.drop_last(), ls);
    }
}


/// Why a coordinator is not ready to serve, if it is not: it needs a live volume and a
/// known leader.
pub open spec fn unready_reason(live_volumes: nat, has_leader: bool) -> Option<Seq<char>> {
    if live_volumes > 0 && has_leader {
        None
    } else if live_volumes == 0 {
        Some("No healthy volumes"@)
    } else {
        Some("No Raft leader"@)
    }
}

/// Whether a coordinator with `live_volumes` live volumes and, or not, a known leader is
/// ready; if not, why.
pub fn readiness(live_volumes: usize, has_leader: bool) -> (r: Option<String>)
    ensures
        match r {
            Some(m) => unready_reason(live_volumes as nat, has_leader) == Some(m@),
            None => unready_reason(live_volumes as nat, has_leader) is None,
        },
{
    if live_volumes > 0 && has_leader {
        None
    } else if live_volumes == 0 {
        Some(String::from_str("No healthy volumes"))
    } else {
        Some(String::from_str("No Raft leader"))
    }
}

} // verus!
