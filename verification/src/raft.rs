//! Messages exchanged between coordinators for consensus, and the log entry.
use vstd::prelude::*;

verus! {

/// A request for a vote, sent by a candidate.
#[derive(Debug)]
pub struct VoteRequest {
    pub term: u64,
    pub candidate_id: String,
    pub last_log_index: u64,
    pub last_log_term: u64,
}

/// The answer to a `VoteRequest`.
#[derive(Debug, Clone, Copy, PartialEq, Eq)]
pub struct VoteResponse {
    pub term: u64,
    pub vote_granted: bool,
}

/// A request that carries log entries (or none, as a heartbeat) from the leader.
#[derive(Debug)]
pub struct AppendRequest {
    pub term: u64,
    pub leader_id: String,
    pub prev_log_index: u64,
    pub prev_log_term: u64,
    pub entries: Vec<LogEntry>,
    pub leader_commit: u64,
}

/// The answer to an `AppendRequest`.
#[derive(Debug, Clone, Copy, PartialEq, Eq)]
pub struct AppendResponse {
    pub term: u64,
    pub success: bool,
    pub conflict_index: u64,
}

/// One entry of the replicated log.
#[derive(Debug)]
pub struct LogEntry {
    pub term: u64,
    pub index: u64,
    pub data: Vec<u8>,
}

/// The mathematical value of a log entry.
pub struct LogEntryView {
    pub term: u64,
    pub index: u64,
    pub data: Seq<u8>,
}

impl View for LogEntry {
    type V = LogEntryView;

    open spec fn view(&self) -> LogEntryView {
        LogEntryView { term: self.term, index: self.index, data: self.data@ }
    }
}

/// The views of a sequence of log entries.
pub open spec fn entries_view(s: Seq<LogEntry>) -> Seq<LogEntryView> {
    s.map_values(|e: LogEntry| e@)
}

impl LogEntry {
    /// A copy of this entry.
    pub fn duplicate(&self) -> (r: LogEntry)
        ensures
            r@ == self@,
    {
        LogEntry { term: self.term, index: self.index, data: copy_bytes(&self.data) }
    }
}

impl VoteRequest {
    /// A copy of this request.
    pub fn duplicate(&self) -> (r: VoteRequest)
        ensures
            r.term == self.term,
            r.candidate_id@ == self.candidate_id@,
            r.last_log_index == self.last_log_index,
            r.last_log_term == self.last_log_term,
    {
        VoteRequest {
            term: self.term,
            candidate_id: self.candidate_id.clone(),
            last_log_index: self.last_log_index,
            last_log_term: self.last_log_term,
        }
    }
}

/// A copy of a byte vector.
pub fn copy_bytes(v: &Vec<u8>) -> (r: Vec<u8>)
    ensures
        r@ == v@,
{
    let mut out: Vec<u8> = Vec::with_capacity(v.len());
    let mut i: usize = 0;
    while i < v.len()
        invariant
            i <= v@.len(),
            out@ == v@.subrange(0, i as int),
        decreases v@.len() - i,
    {
        out.push(v[i]);
        i = i + 1;
    }
    out
}

} // verus!
