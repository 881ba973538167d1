//! The consensus state of one coordinator, and the rules by which it moves.
//!
//! Everything here is a decision on memory: the caller performs the network
//! and disk work that a step asks for and hands back what came of it.
use vstd::prelude::*;
use crate::raft::{AppendRequest, AppendResponse, LogEntry, LogEntryView, VoteRequest, VoteResponse, entries_view};
use crate::error::Error;
use crate::raft_log::HardState;
use crate::text::chars_of;
use crate::utils::{trim, trim_chars};

verus! {

/// The address of a peer as a URL: trimmed, with `http://` in front unless it already
/// starts with `http://` or `https://`.
pub open spec fn peer_url(addr: Seq<char>) -> Seq<char> {
    let a = trim(addr);
    if crate::auth::is_prefix("http://"@, a) || crate::auth::is_prefix("https://"@, a) {
        a
    } else {
        "http://"@ + a
    }
}

/// Normalizing an address that is already a peer URL leaves it as it is.
pub proof fn law_normalize_addr_idempotent(addr: Seq<char>)
    ensures
        peer_url(peer_url(addr)) == peer_url(addr),
{
    reveal_strlit("http://");
    reveal_strlit("https://");
    let t = trim(addr);
    crate::utils::lemma_trim_idempotent(addr);
    crate::utils::lemma_trim_ends(addr);
    if crate::auth::is_prefix("http://"@, t) || crate::auth::is_prefix("https://"@, t) {
    } else {
        let p = "http://"@ + t;
        assert(p[0] == 'h');
        if t.len() > 0 {
            assert(p.last() == t.last());
        } else {
            assert(p.last() == '/');
        }
        crate::utils::lemma_trim_fixed(p);
        assert(p.subrange(0, 7) =~= "http://"@);
    }
}

/// The address of a peer as a URL.
pub fn normalize_addr(addr: &str) -> (r: String)
    ensures
        r@ == peer_url(addr@),
{
    let a = trim_chars(&chars_of(addr));
    let http = chars_of("http://");
    let https = chars_of("https://");
    let s = crate::text::string_from_chars(&a);
    if crate::auth::starts_with_chars(&a, &http) || crate::auth::starts_with_chars(&a, &https) {
        s
    } else {
        let mut u = String::from_str("http://");
        u.append(s.as_str());
        u
    }
}

/// The peers of a configuration: each trimmed, the blank ones left out, as URLs.
pub open spec fn configured_peers(peers: Seq<Seq<char>>) -> Seq<Seq<char>>
    decreases peers.len(),
{
    if peers.len() == 0 {
        Seq::empty()
    } else if trim(peers.last()).len() == 0 {
        configured_peers(peers.drop_last())
    } else {
        configured_peers(peers.drop_last()).push(peer_url(trim(peers.last())))
    }
}

/// The most entries sent in one append request.
pub const MAX_BATCH: usize = 256;

/// The role of a node in the consensus group.
#[derive(Debug, Clone, Copy, PartialEq, Eq, Structural)]
pub enum RaftRole {
    Follower,
    Candidate,
    Leader,
}

impl RaftRole {
    /// The role's name in lowercase.
    pub fn name(&self) -> (r: &'static str)
        ensures
            r@ == role_name(*self),
    {
        proof {
            reveal_strlit("follower");
            reveal_strlit("candidate");
            reveal_strlit("leader");
        }
        match self {
            RaftRole::Follower => "follower",
            RaftRole::Candidate => "candidate",
            RaftRole::Leader => "leader",
        }
    }
}

/// The name of a role, as it is displayed.
pub open spec fn role_name(r: RaftRole) -> Seq<char> {
    match r {
        RaftRole::Follower => seq!['f', 'o', 'l', 'l', 'o', 'w', 'e', 'r'],
        RaftRole::Candidate => seq!['c', 'a', 'n', 'd', 'i', 'd', 'a', 't', 'e'],
        RaftRole::Leader => seq!['l', 'e', 'a', 'd', 'e', 'r'],
    }
}

/// `rand::random::<u64>()`: any number, drawn anew at each call.
#[verifier::external_body]
fn random_u64() -> (r: u64)
{
    rand::random::<u64>()
}

/// A randomised election timeout, in milliseconds: `base_ms` plus a random amount below
/// `base_ms`, so that nodes time out at different moments.
pub fn random_timeout_ms(base_ms: u64) -> (r: u64)
    requires
        0 < base_ms <= u64::MAX / 2,
    ensures
        base_ms <= r < 2 * base_ms,
{
    base_ms + random_u64() % base_ms
}

/// The size of a majority of a group of `cluster_size` nodes.
pub open spec fn majority_of(cluster_size: int) -> int {
    cluster_size / 2 + 1
}

/// The size of a majority of a group of `cluster_size` nodes.
pub fn majority(cluster_size: usize) -> (r: usize)
    ensures
        r == majority_of(cluster_size as int),
        2 * r > cluster_size,
        2 * (r - 1) <= cluster_size,
{
    cluster_size / 2 + 1
}

/// Index and term of the last entry of a log, `(0, 0)` for an empty log.
pub open spec fn last_info(log: Seq<LogEntryView>) -> (u64, u64) {
    if log.len() == 0 {
        (0, 0)
    } else {
        (log.last().index, log.last().term)
    }
}

/// Index and term of the last entry of a log, `(0, 0)` for an empty log.
pub fn last_log_info(log: &Vec<LogEntry>) -> (r: (u64, u64))
    ensures
        r == last_info(entries_view(log@)),
{
    if log.len() == 0 {
        (0, 0)
    } else {
        let e = &log[log.len() - 1];
        (e.index, e.term)
    }
}

/// Whether a candidate whose log ends at (`last_index`, `last_term`) is at least
/// as up to date as `log`.
pub open spec fn candidate_up_to_date(last_term: u64, last_index: u64, log: Seq<LogEntryView>) -> bool {
    let (li, lt) = last_info(log);
    last_term > lt || (last_term == lt && last_index >= li)
}

/// The view of an optional string.
pub open spec fn opt_view(o: Option<String>) -> Option<Seq<char>> {
    match o {
        Some(s) => Some(s@),
        None => None,
    }
}

/// The mathematical state of a node.
pub struct RaftView {
    pub node_id: Seq<char>,
    pub peers: Seq<Seq<char>>,
    pub role: RaftRole,
    pub term: u64,
    pub voted_for: Option<Seq<char>>,
    pub leader_id: Option<Seq<char>>,
    pub commit_index: u64,
    pub last_applied: u64,
    pub log: Seq<LogEntryView>,
    /// Per peer, in the order of `peers`: the next index to send, if known.
    pub next_index: Seq<Option<u64>>,
    /// Per peer: the highest index known to be stored there, if known.
    pub match_index: Seq<Option<u64>>,
}

/// A table with no entry for any of `n` peers.
pub open spec fn cleared(n: nat) -> Seq<Option<u64>> {
    Seq::new(n, |i: int| None::<u64>)
}

/// The state after becoming a follower at `term` (kept if not higher) with the given leader.
pub open spec fn follower_of(v: RaftView, term: u64, leader: Option<Seq<char>>) -> RaftView {
    let changed = term > v.term;
    RaftView {
        role: RaftRole::Follower,
        term: if changed { term } else { v.term },
        voted_for: if changed { None } else { v.voted_for },
        leader_id: leader,
        next_index: cleared(v.peers.len()),
        match_index: cleared(v.peers.len()),
        ..v
    }
}

/// The state after a vote request, and whether the vote was granted.
pub open spec fn vote_step(v: RaftView, term: u64, candidate: Seq<char>, last_index: u64, last_term: u64) -> (RaftView, bool) {
    let v1 = if term > v.term { follower_of(v, term, None) } else { v };
    let available = match v1.voted_for {
        None => true,
        Some(c) => c == candidate,
    };
    let grant = term == v1.term && available && candidate_up_to_date(last_term, last_index, v1.log);
    (if grant { RaftView { voted_for: Some(candidate), ..v1 } } else { v1 }, grant)
}

/// Whether the `k`-th new entry agrees in term with the local entry at the same index.
pub open spec fn agrees_at(log: Seq<LogEntryView>, prev: int, entries: Seq<LogEntryView>, k: int) -> bool {
    prev + k < log.len() && log[prev + k].term == entries[k].term
}

/// The first offset at or after `k` where the new entries stop agreeing with the log.
pub open spec fn divergence_from(log: Seq<LogEntryView>, prev: int, entries: Seq<LogEntryView>, k: int) -> int
    decreases entries.len() - k,
{
    if k >= entries.len() || !agrees_at(log, prev, entries, k) {
        k
    } else {
        divergence_from(log, prev, entries, k + 1)
    }
}

/// The first offset where the new entries stop agreeing with the log.
pub open spec fn first_divergence(log: Seq<LogEntryView>, prev: int, entries: Seq<LogEntryView>) -> int {
    divergence_from(log, prev, entries, 0)
}

/// Entries renumbered from `start`.
pub open spec fn reindexed(s: Seq<LogEntryView>, start: int) -> Seq<LogEntryView> {
    Seq::new(s.len(), |i: int| LogEntryView { term: s[i].term, index: (start + i) as u64, data: s[i].data })
}

/// The log after accepting `entries` after position `prev`: entries that agree are
/// kept, from the first disagreement on the log is replaced by the new entries.
pub open spec fn merged_log(log: Seq<LogEntryView>, prev: int, entries: Seq<LogEntryView>) -> Seq<LogEntryView> {
    let k = first_divergence(log, prev, entries);
    if k == entries.len() {
        log
    } else {
        log.subrange(0, prev + k) + reindexed(entries.subrange(k, entries.len() as int), prev + k + 1)
    }
}

/// The first index of the run of entries of the same term that ends at `index`.
pub open spec fn run_start(log: Seq<LogEntryView>, index: int, term: u64) -> int
    decreases index,
{
    if index > 1 && log[index - 2].term == term {
        run_start(log, index - 1, term)
    } else {
        index
    }
}

/// The payloads among `s` that are not empty, in order.
pub open spec fn payloads(s: Seq<LogEntryView>) -> Seq<Seq<u8>>
    decreases s.len(),
{
    if s.len() == 0 {
        Seq::empty()
    } else {
        let rest = payloads(s.drop_last());
        if s.last().data.len() == 0 {
            rest
        } else {
            rest.push(s.last().data)
        }
    }
}

/// The index up to which the entries are applied: the commit index, or the log's end if shorter.
pub open spec fn apply_end(v: RaftView) -> int {
    if v.commit_index < v.log.len() {
        v.commit_index as int
    } else {
        v.log.len() as int
    }
}

/// The state after applying what is committed, and the payloads applied.
pub open spec fn apply_step(v: RaftView) -> (RaftView, Seq<Seq<u8>>) {
    let end = apply_end(v);
    if v.last_applied < end {
        (
            RaftView { last_applied: end as u64, ..v },
            payloads(v.log.subrange(v.last_applied as int, end)),
        )
    } else {
        (v, Seq::empty())
    }
}

/// The state after an append request, up to the commit update, and the response.
pub open spec fn append_step(v: RaftView, req_term: u64, leader: Seq<char>, prev: u64, prev_term: u64,
    entries: Seq<LogEntryView>, leader_commit: u64) -> (RaftView, AppendResponse)
{
    if req_term < v.term {
        (v, AppendResponse { term: v.term, success: false, conflict_index: 0 })
    } else {
        let v1 = if req_term > v.term || v.role != RaftRole::Follower {
            follower_of(v, req_term, None)
        } else {
            v
        };
        let v2 = RaftView { leader_id: Some(leader), ..v1 };
        let len = v2.log.len();
        if prev > len {
            (v2, AppendResponse { term: v2.term, success: false, conflict_index: (len + 1) as u64 })
        } else if prev > 0 && v2.log[prev - 1].term != prev_term {
            (v2, AppendResponse {
                term: v2.term,
                success: false,
                conflict_index: run_start(v2.log, prev as int, v2.log[prev - 1].term) as u64,
            })
        } else {
            let last_new = prev + entries.len();
            let target = if leader_commit < last_new { leader_commit as int } else { last_new };
            let commit = if target > v2.commit_index { target as u64 } else { v2.commit_index };
            (
                RaftView { log: merged_log(v2.log, prev as int, entries), commit_index: commit, ..v2 },
                AppendResponse { term: v2.term, success: true, conflict_index: 0 },
            )
        }
    }
}

/// What a proposal did: the index and term of its entry, and the payloads applied on the way.
pub struct Proposed {
    pub index: u64,
    pub term: u64,
    pub applied: Vec<Vec<u8>>,
}

/// The consensus state of one node.
pub struct RaftNode {
    node_id: String,
    peers: Vec<String>,
    role: RaftRole,
    term: u64,
    voted_for: Option<String>,
    leader_id: Option<String>,
    commit_index: u64,
    last_applied: u64,
    log: Vec<LogEntry>,
    next_index: Vec<Option<u64>>,
    match_index: Vec<Option<u64>>,
}

impl View for RaftNode {
    type V = RaftView;

    closed spec fn view(&self) -> RaftView {
        RaftView {
            node_id: self.node_id@,
            peers: self.peers@.map_values(|p: String| p@),
            role: self.role,
            term: self.term,
            voted_for: opt_view(self.voted_for),
            leader_id: opt_view(self.leader_id),
            commit_index: self.commit_index,
            last_applied: self.last_applied,
            log: entries_view(self.log@),
            next_index: self.next_index@,
            match_index: self.match_index@,
        }
    }
}

/// Whether every entry of `log` carries its own position (from 1) as index.
pub open spec fn well_indexed(log: Seq<LogEntryView>) -> bool {
    forall|i: int| 0 <= i < log.len() ==> #[trigger] log[i].index == i + 1
}

/// The invariant of a node's state.
pub open spec fn raft_wf(v: RaftView) -> bool {
    &&& v.next_index.len() == v.peers.len()
    &&& v.match_index.len() == v.peers.len()
    &&& v.log.len() < u64::MAX
    &&& v.peers.len() < usize::MAX
    &&& well_indexed(v.log)
    &&& v.last_applied <= v.commit_index
}

fn clone_opt_string(o: &Option<String>) -> (r: Option<String>)
    ensures
        opt_view(r) == opt_view(*o),
{
    match o {
        Some(s) => Some(s.clone()),
        None => None,
    }
}

fn none_table(n: usize) -> (r: Vec<Option<u64>>)
    ensures
        r@ == cleared(n as nat),
{
    let mut v: Vec<Option<u64>> = Vec::with_capacity(n);
    let mut i: usize = 0;
    while i < n
        invariant
            i <= n,
            v@ == cleared(i as nat),
        decreases n - i,
    {
        v.push(None);
        i = i + 1;
        assert(v@ =~= cleared(i as nat));
    }
    v
}

impl RaftNode {
    /// A node that knows no peer, at term 0 with an empty log.
    pub fn new(node_id: String) -> (r: RaftNode)
        ensures
            r.wf(),
            raft_wf(r@),
            r@.node_id == node_id@,
            r@.peers.len() == 0,
            r@.role == RaftRole::Follower,
            r@.term == 0,
            r@.voted_for is None,
            r@.leader_id is None,
            r@.commit_index == 0,
            r@.last_applied == 0,
            r@.log.len() == 0,
    {
        let r = RaftNode {
            node_id,
            peers: Vec::new(),
            role: RaftRole::Follower,
            term: 0,
            voted_for: None,
            leader_id: None,
            commit_index: 0,
            last_applied: 0,
            log: Vec::new(),
            next_index: Vec::new(),
            match_index: Vec::new(),
        };
        proof {
            assert(r@.peers =~= Seq::<Seq<char>>::empty());
            assert(r@.log =~= Seq::<LogEntryView>::empty());
        }
        r
    }

    /// A node with the given peers (each trimmed, blank ones left out, as URLs) and the
    /// state and log restored from its storage.
    pub fn with_config(node_id: String, peers: Vec<String>, hard_state: HardState, log: Vec<LogEntry>) -> (r: RaftNode)
        requires
            well_indexed(entries_view(log@)),
            log@.len() < u64::MAX,
            peers@.len() < usize::MAX,
        ensures
            r.wf(),
            r@.node_id == node_id@,
            r@.peers == configured_peers(peers@.map_values(|p: String| p@)),
            r@.role == RaftRole::Follower,
            r@.term == hard_state.term,
            r@.voted_for == opt_view(hard_state.voted_for),
            r@.leader_id is None,
            r@.commit_index == 0,
            r@.last_applied == 0,
            r@.log == entries_view(log@),
    {
        let ghost pv = peers@.map_values(|p: String| p@);
        let mut urls: Vec<String> = Vec::new();
        let mut i: usize = 0;
        while i < peers.len()
            invariant
                pv == peers@.map_values(|p: String| p@),
                i <= peers@.len(),
                urls@.len() <= i,
                urls@.map_values(|p: String| p@) == configured_peers(pv.take(i as int)),
            decreases peers@.len() - i,
        {
            proof {
                assert(pv.take(i as int + 1).drop_last() =~= pv.take(i as int));
                assert(pv.take(i as int + 1).last() == peers@[i as int]@);
            }
            let t = trim_chars(&chars_of(peers[i].as_str()));
            if t.len() > 0 {
                let ts = crate::text::string_from_chars(&t);
                let u = normalize_addr(ts.as_str());
                let ghost before = urls@;
                urls.push(u);
                proof {
                    assert(urls@.map_values(|p: String| p@) =~= before.map_values(|p: String| p@).push(u@));
                }
            }
            i = i + 1;
        }
        proof { assert(pv.take(i as int) =~= pv); }
        RaftNode::restore(node_id, urls, hard_state.term, hard_state.voted_for, log)
    }

    /// The invariant holds of this node: that of its state.
    pub open spec fn wf(&self) -> bool {
        raft_wf(self@)
    }

    proof fn lemma_view_wf(&self)
        requires
            self.wf(),
        ensures
            self.next_index@.len() == self.peers@.len(),
            self.match_index@.len() == self.peers@.len(),
            self.log@.len() < u64::MAX,
            self.peers@.len() < usize::MAX,
            forall|i: int| 0 <= i < self.log@.len() ==> #[trigger] self.log@[i].index == i + 1,
    {
        assert forall|i: int| 0 <= i < self.log@.len() implies #[trigger] self.log@[i].index == i + 1 by {
            assert(entries_view(self.log@)[i].index == i + 1);
        }
    }

    /// Becomes a follower at `term` (kept if it is not higher) under `leader_id`.
    /// Returns whether the term changed, which is what must then be persisted.
    pub fn become_follower(&mut self, term: u64, leader_id: Option<String>) -> (changed: bool)
        requires
            old(self).wf(),
        ensures
            final(self).wf(),
            changed == (term > old(self)@.term),
            final(self)@ == follower_of(old(self)@, term, opt_view(leader_id)),
    {
        let changed = term > self.term;
        if changed {
            self.term = term;
            self.voted_for = None;
        }
        self.role = RaftRole::Follower;
        self.leader_id = leader_id;
        self.next_index = none_table(self.peers.len());
        self.match_index = none_table(self.peers.len());
        proof {
            assert(self@.peers.len() == self.peers@.len());
        }
        changed
    }

    /// Handles a vote request. Returns the response and whether the term or the vote
    /// changed, which must be persisted before the response is sent.
    pub fn vote(&mut self, req: &VoteRequest) -> (r: (VoteResponse, bool))
        requires
            old(self).wf(),
        ensures
            final(self).wf(),
            ({
                let (v, granted) = vote_step(old(self)@, req.term, req.candidate_id@, req.last_log_index, req.last_log_term);
                &&& final(self)@ == v
                &&& r.0 == VoteResponse { term: v.term, vote_granted: granted }
                &&& r.1 == (req.term > old(self)@.term || (granted && old(self)@.voted_for is None)
                        && req.term == old(self)@.term)
            }),
            old(self)@.log.len() > 0 && r.0.vote_granted ==> req.last_log_term > old(self)@.log.last().term
                || (req.last_log_term == old(self)@.log.last().term && req.last_log_index >= old(self)@.log.len()),
    {
        let mut dirty = false;
        if req.term > self.term {
            self.become_follower(req.term, None);
            dirty = true;
        }
        let mut granted = false;
        if req.term == self.term {
            let (last_index, last_term) = last_log_info(&self.log);
            let up_to_date = req.last_log_term > last_term
                || (req.last_log_term == last_term && req.last_log_index >= last_index);
            let available = match &self.voted_for {
                None => true,
                Some(candidate) => *candidate == req.candidate_id,
            };
            if available && up_to_date {
                dirty = dirty || self.voted_for.is_none();
                self.voted_for = Some(req.candidate_id.clone());
                granted = true;
            }
        }
        (VoteResponse { term: self.term, vote_granted: granted }, dirty)
    }

    /// Handles a vote request on a node whose state needs no persisting.
    pub fn handle_request_vote(&mut self, req: VoteRequest) -> (r: VoteResponse)
        requires
            old(self).wf(),
        ensures
            final(self).wf(),
            ({
                let (v, granted) = vote_step(old(self)@, req.term, req.candidate_id@, req.last_log_index, req.last_log_term);
                &&& final(self)@ == v
                &&& r == VoteResponse { term: v.term, vote_granted: granted }
            }),
            old(self)@.log.len() > 0 && r.vote_granted ==> req.last_log_term > old(self)@.log.last().term
                || (req.last_log_term == old(self)@.log.last().term && req.last_log_index >= old(self)@.log.len()),
    {
        let (response, _) = self.vote(&req);
        response
    }
}


/// What a node does with an append request from a leader whose term it accepts.
pub enum AppendPlan {
    /// The log does not hold the entry before the new ones; the leader should retry
    /// from `conflict_index`.
    Reject { conflict_index: u64 },
    /// Remove the entries from `truncate_from` on (if any), then add `fresh`.
    Accept { truncate_from: Option<u64>, fresh: Vec<LogEntry>, last_new: u64, leader_commit: u64 },
}

/// The outcome of checking the term of a message from a leader.
pub enum TermCheck {
    /// The message's term is older than the node's: reject it.
    Stale,
    /// The node follows the message's term; `persist` tells whether the term changed.
    Accepted { persist: bool },
}

proof fn lemma_divergence(log: Seq<LogEntryView>, prev: int, entries: Seq<LogEntryView>, k: int)
    requires
        0 <= k <= entries.len(),
        0 <= prev,
        prev + k <= log.len(),
    ensures
        k <= divergence_from(log, prev, entries, k) <= entries.len(),
        prev + divergence_from(log, prev, entries, k) <= log.len(),
        forall|j: int| k <= j < divergence_from(log, prev, entries, k) ==> agrees_at(log, prev, entries, j),
        divergence_from(log, prev, entries, k) < entries.len() ==> !agrees_at(
            log, prev, entries, divergence_from(log, prev, entries, k)),
    decreases entries.len() - k,
{
    if k < entries.len() && agrees_at(log, prev, entries, k) {
        lemma_divergence(log, prev, entries, k + 1);
    }
}

proof fn lemma_run_start(log: Seq<LogEntryView>, index: int, term: u64)
    requires
        1 <= index <= log.len(),
    ensures
        1 <= run_start(log, index, term) <= index,
    decreases index,
{
    if index > 1 && log[index - 2].term == term {
        lemma_run_start(log, index - 1, term);
    }
}

proof fn lemma_payloads_push(s: Seq<LogEntryView>, e: LogEntryView)
    ensures
        payloads(s.push(e)) == if e.data.len() == 0 { payloads(s) } else { payloads(s).push(e.data) },
{
    assert(s.push(e).drop_last() =~= s);
}

impl RaftNode {
    /// Checks the term of a message from a leader: a stale term is rejected, a newer
    /// one (or any while not a follower) makes this node a follower.
    pub fn follow_term(&mut self, term: u64) -> (r: TermCheck)
        requires
            old(self).wf(),
        ensures
            final(self).wf(),
            term < old(self)@.term ==> r is Stale && final(self)@ == old(self)@,
            term >= old(self)@.term ==> r == (TermCheck::Accepted { persist: term > old(self)@.term }),
            term >= old(self)@.term && (term > old(self)@.term || old(self)@.role != RaftRole::Follower)
                ==> final(self)@ == follower_of(old(self)@, term, None),
            term == old(self)@.term && old(self)@.role == RaftRole::Follower ==> final(self)@ == old(self)@,
    {
        if term < self.term {
            return TermCheck::Stale;
        }
        let mut persist = false;
        if term > self.term || self.role != RaftRole::Follower {
            persist = self.become_follower(term, None);
        }
        TermCheck::Accepted { persist }
    }

    /// Records the leader of the current term.
    pub fn set_leader(&mut self, leader_id: &String) -> (unit: ())
        requires
            old(self).wf(),
        ensures
            final(self).wf(),
            final(self)@ == (RaftView { leader_id: Some(leader_id@), ..old(self)@ }),
    {
        self.leader_id = Some(leader_id.clone());
    }

    /// A refusal of an append request at the current term.
    pub fn rejection(&self, conflict_index: u64) -> (r: AppendResponse)
        ensures
            r == (AppendResponse { term: self@.term, success: false, conflict_index }),
    {
        AppendResponse { term: self.term, success: false, conflict_index }
    }

    /// Decides what to do with the entries of an append request whose term was accepted.
    pub fn plan_append(&self, req: AppendRequest) -> (r: AppendPlan)
        requires
            self.wf(),
            self@.log.len() + req.entries@.len() < u64::MAX,
        ensures
            ({
                let log = self@.log;
                let prev = req.prev_log_index as int;
                let ents = entries_view(req.entries@);
                if prev > log.len() {
                    r == AppendPlan::Reject { conflict_index: (log.len() + 1) as u64 }
                } else if prev > 0 && log[prev - 1].term != req.prev_log_term {
                    r == AppendPlan::Reject { conflict_index: run_start(log, prev, log[prev - 1].term) as u64 }
                } else {
                    let k = first_divergence(log, prev, ents);
                    &&& r is Accept
                    &&& r->truncate_from == if k < ents.len() && prev + k < log.len() {
                        Some((prev + k + 1) as u64)
                    } else {
                        None::<u64>
                    }
                    &&& entries_view(r->fresh@) == reindexed(ents.subrange(k, ents.len() as int), prev + k + 1)
                    &&& r->last_new == prev + ents.len()
                    &&& r->leader_commit == req.leader_commit
                }
            }),
    {
        proof { self.lemma_view_wf(); }
        let ghost log = self@.log;
        let ghost ents = entries_view(req.entries@);
        let log_len = self.log.len();
        let last_index = log_len as u64;
        let prev = req.prev_log_index;
        if prev > last_index {
            return AppendPlan::Reject { conflict_index: last_index + 1 };
        }
        if prev > 0 {
            let local_term = self.log[(prev - 1) as usize].term;
            if local_term != req.prev_log_term {
                let mut first = prev;
                while first > 1 && self.log[(first - 2) as usize].term == local_term
                    invariant
                        1 <= first <= prev <= self.log@.len(),
                        log_len == self.log@.len(),
                        local_term == log[prev - 1].term,
                        log == entries_view(self.log@),
                        run_start(log, first as int, local_term) == run_start(log, prev as int, local_term),
                    decreases first,
                {
                    assert(log[first - 2] == self.log@[first - 2]@);
                    assert(run_start(log, first as int, local_term) == run_start(log, first as int - 1, local_term));
                    first = first - 1;
                }
                return AppendPlan::Reject { conflict_index: first };
            }
        }
        let n = req.entries.len();
        let p = prev as usize;
        let mut k: usize = 0;
        proof { lemma_divergence(log, prev as int, ents, 0); }
        while k < n
            invariant
                k <= n == req.entries@.len(),
                p == prev,
                p + k <= self.log@.len(),
                log_len == self.log@.len(),
                log == entries_view(self.log@),
                ents == entries_view(req.entries@),
                divergence_from(log, p as int, ents, k as int) == first_divergence(log, p as int, ents),
            ensures
                k <= n,
                p + k <= self.log@.len(),
                divergence_from(log, p as int, ents, k as int) == first_divergence(log, p as int, ents),
                k == n || !agrees_at(log, p as int, ents, k as int),
            decreases n - k,
        {
            assert(p + k <= self.log@.len());
            let pos: usize = p + k;
            if pos >= self.log.len() || self.log[pos].term != req.entries[k].term {
                break;
            }
            assert(agrees_at(log, p as int, ents, k as int));
            k = k + 1;
        }
        proof {
            assert(k == n || !agrees_at(log, p as int, ents, k as int));
        }
        let truncate_from = if k < n && p + k < self.log.len() {
            Some(prev + k as u64 + 1)
        } else {
            None
        };
        let mut entries = req.entries;
        let tail = entries.split_off(k);
        let ghost tail_v = entries_view(tail@);
        proof {
            assert(tail_v =~= ents.subrange(k as int, n as int));
        }
        let start: u64 = prev + k as u64 + 1;
        let mut fresh: Vec<LogEntry> = Vec::new();
        let mut next: u64 = start;
        for e in it: tail.into_iter()
            invariant
                next == start + fresh@.len(),
                start + tail_v.len() <= u64::MAX,
                tail_v == entries_view(it.seq()),
                fresh@.len() == it.index(),
                entries_view(fresh@) == reindexed(tail_v.subrange(0, it.index() as int), start as int),
        {
            let ghost i = fresh@.len() as int;
            assert(e@ == tail_v[i]);
            fresh.push(LogEntry { term: e.term, index: next, data: e.data });
            next = next + 1;
            assert(entries_view(fresh@) =~= reindexed(tail_v.subrange(0, i), start as int).push(fresh@[i]@));
            assert(entries_view(fresh@) =~= reindexed(tail_v.subrange(0, i + 1), start as int));
        }
        proof {
            assert(tail_v.subrange(0, tail_v.len() as int) =~= tail_v);
        }
        AppendPlan::Accept { truncate_from, fresh, last_new: prev + n as u64, leader_commit: req.leader_commit }
    }
}


/// The state after raising the commit index to what the leader has committed,
/// bounded by the last new entry.
pub open spec fn commit_step(v: RaftView, leader_commit: u64, last_new: u64) -> RaftView {
    let target = if leader_commit < last_new { leader_commit } else { last_new };
    RaftView { commit_index: if target > v.commit_index { target } else { v.commit_index }, ..v }
}

proof fn lemma_entries_view_push(s: Seq<LogEntry>, e: LogEntry)
    ensures
        entries_view(s.push(e)) == entries_view(s).push(e@),
{
    assert(entries_view(s.push(e)) =~= entries_view(s).push(e@));
}

proof fn lemma_merged_well_indexed(log: Seq<LogEntryView>, prev: int, entries: Seq<LogEntryView>)
    requires
        well_indexed(log),
        0 <= prev <= log.len(),
        log.len() + entries.len() < u64::MAX,
    ensures
        well_indexed(merged_log(log, prev, entries)),
        merged_log(log, prev, entries).len() < u64::MAX,
        merged_log(log, prev, entries).len() <= log.len() + entries.len(),
{
    lemma_divergence(log, prev, entries, 0);
    let k = first_divergence(log, prev, entries);
    if k < entries.len() {
        let m = merged_log(log, prev, entries);
        let head = log.subrange(0, prev + k);
        let tail = reindexed(entries.subrange(k, entries.len() as int), prev + k + 1);
        assert forall|i: int| 0 <= i < m.len() implies #[trigger] m[i].index == i + 1 by {
            if i < prev + k {
                assert(m[i] == head[i]);
            } else {
                assert(m[i] == tail[i - (prev + k)]);
            }
        }
    }
}

impl RaftNode {
    /// Removes the entries from `index` on.
    pub fn truncate_log(&mut self, index: u64) -> (unit: ())
        requires
            old(self).wf(),
            1 <= index <= old(self)@.log.len(),
        ensures
            final(self).wf(),
            final(self)@ == (RaftView { log: old(self)@.log.subrange(0, index - 1), ..old(self)@ }),
    {
        let ghost old_log = self.log@;
        self.log.truncate((index - 1) as usize);
        proof {
            assert(entries_view(self.log@) =~= entries_view(old_log).subrange(0, index - 1));
        }
    }

    /// Adds entries that continue the log.
    pub fn extend_log(&mut self, fresh: Vec<LogEntry>) -> (unit: ())
        requires
            old(self).wf(),
            old(self)@.log.len() + fresh@.len() < u64::MAX,
            forall|i: int| 0 <= i < fresh@.len() ==> #[trigger] fresh@[i].index == old(self)@.log.len() + i + 1,
        ensures
            final(self).wf(),
            final(self)@ == (RaftView { log: old(self)@.log + entries_view(fresh@), ..old(self)@ }),
    {
        let ghost old_log = self.log@;
        let mut fresh = fresh;
        let ghost fresh_v = fresh@;
        self.log.append(&mut fresh);
        proof {
            assert(entries_view(self.log@) =~= entries_view(old_log) + entries_view(fresh_v));
            let l = entries_view(self.log@);
            assert forall|i: int| 0 <= i < l.len() implies #[trigger] l[i].index == i + 1 by {
                if i >= old_log.len() {
                    assert(l[i] == fresh_v[i - old_log.len()]@);
                } else {
                    assert(l[i] == entries_view(old_log)[i]);
                }
            }
        }
    }

    /// Raises the commit index after a successful append and answers the leader.
    pub fn finish_append(&mut self, leader_commit: u64, last_new: u64) -> (r: AppendResponse)
        requires
            old(self).wf(),
        ensures
            final(self).wf(),
            final(self)@ == commit_step(old(self)@, leader_commit, last_new),
            r == (AppendResponse { term: old(self)@.term, success: true, conflict_index: 0 }),
    {
        let target = if leader_commit < last_new { leader_commit } else { last_new };
        if target > self.commit_index {
            self.commit_index = target;
        }
        AppendResponse { term: self.term, success: true, conflict_index: 0 }
    }

    /// Hands out, in log order, the non-empty payloads of the entries that are committed
    /// but not applied yet, and records them as applied.
    pub fn apply_committed(&mut self) -> (r: Vec<Vec<u8>>)
        requires
            old(self).wf(),
        ensures
            final(self).wf(),
            ({
                let (v, p) = apply_step(old(self)@);
                &&& final(self)@ == v
                &&& r@.map_values(|b: Vec<u8>| b@) == p
            }),
    {
        proof { self.lemma_view_wf(); }
        let len = self.log.len();
        let end: usize = if self.commit_index < len as u64 { self.commit_index as usize } else { len };
        let from = self.last_applied;
        let mut out: Vec<Vec<u8>> = Vec::new();
        if from < end as u64 {
            let ghost log = self@.log;
            let mut i: usize = from as usize;
            while i < end
                invariant
                    from <= i <= end <= len == self.log@.len(),
                    log == entries_view(self.log@),
                    out@.map_values(|b: Vec<u8>| b@) == payloads(log.subrange(from as int, i as int)),
                decreases end - i,
            {
                let ghost before = out@;
                let e = &self.log[i];
                if e.data.len() > 0 {
                    out.push(crate::raft::copy_bytes(&e.data));
                }
                proof {
                    let s = log.subrange(from as int, i as int);
                    assert(log.subrange(from as int, i as int + 1) =~= s.push(log[i as int]));
                    lemma_payloads_push(s, log[i as int]);
                    assert(log[i as int] == self.log@[i as int]@);
                    assert(out@.map_values(|b: Vec<u8>| b@) =~= payloads(log.subrange(from as int, i as int + 1)));
                }
                i = i + 1;
            }
            self.last_applied = end as u64;
        }
        out
    }

    /// Handles an append request on a node whose state needs no persisting: the
    /// response, and the payloads that became applied.
    pub fn handle_append_entries(&mut self, req: AppendRequest) -> (r: (AppendResponse, Vec<Vec<u8>>))
        requires
            old(self).wf(),
            old(self)@.log.len() + req.entries@.len() < u64::MAX,
        ensures
            final(self).wf(),
            ({
                let (v, resp) = append_step(old(self)@, req.term, req.leader_id@, req.prev_log_index,
                    req.prev_log_term, entries_view(req.entries@), req.leader_commit);
                &&& r.0 == resp
                &&& resp.success ==> final(self)@ == apply_step(v).0
                    && r.1@.map_values(|b: Vec<u8>| b@) == apply_step(v).1
                &&& !resp.success ==> final(self)@ == v && r.1@.len() == 0
            }),
    {
        let ghost v0 = self@;
        match self.follow_term(req.term) {
            TermCheck::Stale => {
                return (self.rejection(0), Vec::new());
            },
            TermCheck::Accepted { .. } => {},
        }
        self.set_leader(&req.leader_id);
        let ghost v2 = self@;
        let ghost ents = entries_view(req.entries@);
        let ghost prev = req.prev_log_index as int;
        match self.plan_append(req) {
            AppendPlan::Reject { conflict_index } => {
                (self.rejection(conflict_index), Vec::new())
            },
            AppendPlan::Accept { truncate_from, fresh, last_new, leader_commit } => {
                proof {
                    lemma_divergence(v2.log, prev, ents, 0);
                    lemma_merged_well_indexed(v2.log, prev, ents);
                }
                let ghost k = first_divergence(v2.log, prev, ents);
                match truncate_from {
                    Some(index) => self.truncate_log(index),
                    None => {},
                }
                proof {
                    assert(self@.log =~= if k < ents.len() { v2.log.subrange(0, prev + k) } else { v2.log });
                    assert(entries_view(fresh@).len() == fresh@.len());
                    assert(fresh@.len() == ents.len() - k);
                    assert(fresh@.len() > 0 ==> self@.log.len() == prev + k);
                    assert forall|i: int| 0 <= i < fresh@.len() implies #[trigger] fresh@[i].index == self@.log.len() + i + 1 by {
                        assert(fresh@[i]@ == entries_view(fresh@)[i]);
                        assert(entries_view(fresh@)[i] == reindexed(ents.subrange(k, ents.len() as int), prev + k + 1)[i]);
                        assert(prev + k + 1 + i < u64::MAX);
                    }
                }
                self.extend_log(fresh);
                proof {
                    assert(self@.log =~= merged_log(v2.log, prev, ents));
                }
                let resp = self.finish_append(leader_commit, last_new);
                let applied = self.apply_committed();
                (resp, applied)
            },
        }
    }
}


/// The number of peers whose matched index reaches `index`.
pub open spec fn count_matched(m: Seq<Option<u64>>, index: u64) -> nat
    decreases m.len(),
{
    if m.len() == 0 {
        0
    } else {
        count_matched(m.drop_last(), index) + match m.last() {
            Some(x) => if x >= index { 1nat } else { 0nat },
            None => 0nat,
        }
    }
}

/// Whether a leader may commit up to `n`: every entry from `n` to the end of its log is
/// of its term or later, and `n` is stored on a majority (the leader included).
pub open spec fn commit_eligible(v: RaftView, n: int) -> bool {
    &&& 1 <= n <= v.log.len()
    &&& forall|m: int| n <= m <= v.log.len() ==> #[trigger] v.log[m - 1].term >= v.term
    &&& 1 + count_matched(v.match_index, n as u64) >= majority_of(v.peers.len() + 1int)
}

/// Whether raising the commit index of `v` to `c` is what `advance_commit` does: `c` is no
/// lower, a raised `c` is eligible, and no higher index of the log is.
pub open spec fn commit_advance(v: RaftView, c: u64) -> bool {
    &&& c >= v.commit_index
    &&& (v.role != RaftRole::Leader ==> c == v.commit_index)
    &&& (c > v.commit_index ==> commit_eligible(v, c as int))
    &&& (v.role == RaftRole::Leader ==> forall|m: int| c < m <= v.log.len() ==> !commit_eligible(v, m))
}

/// The tables of a new leader whose log has `log_len` entries.
pub open spec fn leader_of(v: RaftView) -> RaftView {
    RaftView {
        role: RaftRole::Leader,
        leader_id: Some(v.node_id),
        next_index: Seq::new(v.peers.len(), |i: int| Some((v.log.len() + 1) as u64)),
        match_index: Seq::new(v.peers.len(), |i: int| Some(0u64)),
        ..v
    }
}

/// What came of an election.
pub enum ElectionOutcome {
    /// A peer is at a later term: this node became a follower at that term, which must be persisted.
    SteppedDown,
    /// The node left the candidacy of this term meanwhile.
    Stale,
    /// Not enough votes.
    Lost { votes: usize },
    /// Elected: the node is leader and must store `noop` before anything else.
    Won { votes: usize, noop: LogEntry },
}

/// What a round of replication to one peer came to.
#[derive(Debug, Clone, Copy, PartialEq, Eq, Structural)]
pub enum Replication {
    /// Nothing more to do until the next heartbeat.
    Idle,
    /// The peer did not answer.
    Unreachable,
    /// The peer holds the whole log.
    UpToDate,
    /// More must be sent right away.
    More,
}

/// The number of granted votes for `term` among the answers, the candidate's own included.
pub open spec fn votes_for(responses: Seq<Option<VoteResponse>>, term: u64) -> nat
    decreases responses.len(),
{
    if responses.len() == 0 {
        1
    } else {
        votes_for(responses.drop_last(), term) + match responses.last() {
            Some(r) => if r.vote_granted && r.term == term { 1nat } else { 0nat },
            None => 0nat,
        }
    }
}

/// The highest term among the answers, and `term`.
pub open spec fn highest_term(responses: Seq<Option<VoteResponse>>, term: u64) -> u64
    decreases responses.len(),
{
    if responses.len() == 0 {
        term
    } else {
        let h = highest_term(responses.drop_last(), term);
        match responses.last() {
            Some(r) => if r.term > h { r.term } else { h },
            None => h,
        }
    }
}

/// The state and outcome after handling the answer of peer `p` to an append request of
/// term `req_term` that covered the log up to `sent_up_to`.
pub open spec fn response_step(v: RaftView, p: int, req_term: u64, sent_up_to: u64, resp: AppendResponse) -> (RaftView, Replication) {
    if resp.term > v.term {
        (follower_of(v, resp.term, None), Replication::Idle)
    } else if v.role != RaftRole::Leader || v.term != req_term {
        (v, Replication::Idle)
    } else if resp.success {
        let matched = match v.match_index[p] { Some(x) => if x > sent_up_to { x } else { sent_up_to }, None => sent_up_to };
        let next = match v.next_index[p] {
            Some(x) => if x > sent_up_to + 1 { x } else { (sent_up_to + 1) as u64 },
            None => if 1 > sent_up_to + 1 { 1 } else { (sent_up_to + 1) as u64 },
        };
        (
            RaftView {
                match_index: v.match_index.update(p, Some(matched)),
                next_index: v.next_index.update(p, Some(next)),
                ..v
            },
            if sent_up_to < v.log.len() { Replication::More } else { Replication::UpToDate },
        )
    } else {
        let current = match v.next_index[p] { Some(x) => x, None => 1 };
        let lowered = if current == 0 { 0 } else { (current - 1) as u64 };
        let hint = if resp.conflict_index == 0 { lowered } else { resp.conflict_index };
        let bounded = if hint < lowered { hint } else { lowered };
        let next = if bounded < 1 { 1 } else { bounded };
        (RaftView { next_index: v.next_index.update(p, Some(next)), ..v }, Replication::More)
    }
}

proof fn lemma_count_matched_bound(m: Seq<Option<u64>>, index: u64)
    ensures
        count_matched(m, index) <= m.len(),
    decreases m.len(),
{
    if m.len() > 0 {
        lemma_count_matched_bound(m.drop_last(), index);
    }
}

proof fn lemma_votes_bound(r: Seq<Option<VoteResponse>>, term: u64)
    ensures
        votes_for(r, term) <= r.len() + 1,
    decreases r.len(),
{
    if r.len() > 0 {
        lemma_votes_bound(r.drop_last(), term);
    }
}

/// Whether `e` is the refusal of a follower that names `leader`, or `unknown`.
pub open spec fn names_leader(e: Error, leader: Option<Seq<char>>) -> bool {
    match e {
        Error::NotLeader(l) => l@ == match leader {
            Some(s) => s,
            None => "unknown"@,
        },
        _ => false,
    }
}

fn unknown_or(o: &Option<String>) -> (r: String)
    ensures
        r@ == match opt_view(*o) { Some(s) => s, None => "unknown"@ },
{
    match o {
        Some(s) => s.clone(),
        None => "unknown".to_string(),
    }
}

impl RaftNode {
    /// Restores a node from its persisted term, vote and log, with the given peers.
    pub fn restore(node_id: String, peers: Vec<String>, term: u64, voted_for: Option<String>, log: Vec<LogEntry>) -> (r: RaftNode)
        requires
            well_indexed(entries_view(log@)),
            log@.len() < u64::MAX,
            peers@.len() < usize::MAX,
        ensures
            r.wf(),
            r@.node_id == node_id@,
            r@.peers == peers@.map_values(|p: String| p@),
            r@.role == RaftRole::Follower,
            r@.term == term,
            r@.voted_for == opt_view(voted_for),
            r@.leader_id is None,
            r@.commit_index == 0,
            r@.last_applied == 0,
            r@.log == entries_view(log@),
            r@.next_index == cleared(peers@.len()),
            r@.match_index == cleared(peers@.len()),
    {
        let n = peers.len();
        RaftNode {
            node_id,
            peers,
            role: RaftRole::Follower,
            term,
            voted_for,
            leader_id: None,
            commit_index: 0,
            last_applied: 0,
            log,
            next_index: none_table(n),
            match_index: none_table(n),
        }
    }

    /// The id of this node.
    pub fn node_id(&self) -> (r: &String)
        ensures
            r@ == self@.node_id,
    {
        &self.node_id
    }

    /// The other members of the group.
    pub fn get_peers(&self) -> (r: &Vec<String>)
        ensures
            r@.map_values(|p: String| p@) == self@.peers,
    {
        &self.peers
    }

    /// Whether this node is the leader.
    pub fn is_leader(&self) -> (r: bool)
        ensures
            r == (self@.role == RaftRole::Leader),
    {
        self.role == RaftRole::Leader
    }

    /// The current role.
    pub fn get_role(&self) -> (r: RaftRole)
        ensures
            r == self@.role,
    {
        self.role
    }

    /// The current term.
    pub fn get_term(&self) -> (r: u64)
        ensures
            r == self@.term,
    {
        self.term
    }

    /// The candidate voted for in the current term.
    pub fn get_voted_for(&self) -> (r: Option<String>)
        ensures
            opt_view(r) == self@.voted_for,
    {
        clone_opt_string(&self.voted_for)
    }

    /// The leader of the current term, if known.
    pub fn get_leader(&self) -> (r: Option<String>)
        ensures
            opt_view(r) == self@.leader_id,
    {
        clone_opt_string(&self.leader_id)
    }

    /// The highest index known to be committed.
    pub fn commit_index(&self) -> (r: u64)
        ensures
            r == self@.commit_index,
    {
        self.commit_index
    }

    /// The highest index applied.
    pub fn last_applied(&self) -> (r: u64)
        ensures
            r == self@.last_applied,
    {
        self.last_applied
    }

    /// The number of entries in the log.
    pub fn log_len(&self) -> (r: u64)
        requires
            self.wf(),
        ensures
            r == self@.log.len(),
    {
        self.log.len() as u64
    }

    /// The log.
    pub fn get_log(&self) -> (r: &Vec<LogEntry>)
        ensures
            entries_view(r@) == self@.log,
    {
        &self.log
    }

    /// Becomes leader of the current term: every peer is to be sent the log from its end.
    pub fn become_leader(&mut self) -> (unit: ())
        requires
            old(self).wf(),
        ensures
            final(self).wf(),
            final(self)@ == leader_of(old(self)@),
    {
        proof { self.lemma_view_wf(); }
        let n = self.peers.len();
        let next = self.log.len() as u64 + 1;
        let mut next_index: Vec<Option<u64>> = Vec::with_capacity(n);
        let mut match_index: Vec<Option<u64>> = Vec::with_capacity(n);
        let mut i: usize = 0;
        while i < n
            invariant
                i <= n,
                next_index@ == Seq::new(i as nat, |j: int| Some(next)),
                match_index@ == Seq::new(i as nat, |j: int| Some(0u64)),
            decreases n - i,
        {
            next_index.push(Some(next));
            match_index.push(Some(0));
            i = i + 1;
            assert(next_index@ =~= Seq::new(i as nat, |j: int| Some(next)));
            assert(match_index@ =~= Seq::new(i as nat, |j: int| Some(0u64)));
        }
        self.role = RaftRole::Leader;
        self.leader_id = Some(self.node_id.clone());
        self.next_index = next_index;
        self.match_index = match_index;
        proof {
            assert(self@.next_index =~= leader_of(old(self)@).next_index);
            assert(self@.match_index =~= leader_of(old(self)@).match_index);
        }
    }

    /// Steps down to follower at `new_term` under `leader_id`. Returns whether the term
    /// changed, which must then be persisted.
    pub fn step_down(&mut self, new_term: u64, leader_id: Option<String>) -> (changed: bool)
        requires
            old(self).wf(),
        ensures
            final(self).wf(),
            changed == (new_term > old(self)@.term),
            final(self)@ == follower_of(old(self)@, new_term, opt_view(leader_id)),
    {
        self.become_follower(new_term, leader_id)
    }

    /// The entry a leader adds to its log for a proposal, or why it cannot.
    pub fn proposal(&self, data: Vec<u8>) -> (r: Result<LogEntry, Error>)
        requires
            self.wf(),
        ensures
            self@.role == RaftRole::Leader ==> r is Ok && r->Ok_0@ == (LogEntryView {
                term: self@.term,
                index: (self@.log.len() + 1) as u64,
                data: data@,
            }),
            self@.role != RaftRole::Leader ==> r is Err && names_leader(r->Err_0, self@.leader_id),
    {
        proof { self.lemma_view_wf(); }
        if self.role != RaftRole::Leader {
            return Err(Error::NotLeader(unknown_or(&self.leader_id)));
        }
        Ok(LogEntry { term: self.term, index: self.log.len() as u64 + 1, data })
    }

    /// Adds one entry at the end of the log.
    pub fn push_entry(&mut self, entry: LogEntry) -> (unit: ())
        requires
            old(self).wf(),
            old(self)@.log.len() + 1 < u64::MAX,
            entry.index == old(self)@.log.len() + 1,
        ensures
            final(self).wf(),
            final(self)@ == (RaftView { log: old(self)@.log.push(entry@), ..old(self)@ }),
    {
        let ghost old_log = self.log@;
        self.log.push(entry);
        proof {
            lemma_entries_view_push(old_log, entry);
            let l = self@.log;
            assert forall|i: int| 0 <= i < l.len() implies #[trigger] l[i].index == i + 1 by {
                if i < old_log.len() {
                    assert(l[i] == entries_view(old_log)[i]);
                }
            }
        }
    }

    /// Proposes `data` as a leader whose entries need no persisting: appends it, raises the
    /// commit index as far as the peers' stored entries allow, and applies what is then
    /// committed. On a node without peers the entry is committed and applied at once.
    pub fn propose(&mut self, data: Vec<u8>) -> (r: Result<Proposed, Error>)
        requires
            old(self).wf(),
            old(self)@.log.len() + 1 < u64::MAX,
        ensures
            final(self).wf(),
            old(self)@.role != RaftRole::Leader ==> final(self)@ == old(self)@ && r is Err && names_leader(r->Err_0, old(self)@.leader_id),
            old(self)@.role == RaftRole::Leader ==> r is Ok && ({
                let v = old(self)@;
                let len = v.log.len() + 1;
                let v1 = RaftView { log: v.log.push(LogEntryView { term: v.term, index: len as u64, data: data@ }), ..v };
                let p = r->Ok_0;
                &&& p.index == len
                &&& p.term == v.term
                &&& exists|c: u64| #[trigger] commit_advance(v1, c)
                    && final(self)@ == apply_step(RaftView { commit_index: c, ..v1 }).0
                    && p.applied@.map_values(|b: Vec<u8>| b@) == apply_step(RaftView { commit_index: c, ..v1 }).1
                &&& (v.peers.len() == 0 && v.commit_index <= v.log.len()) ==>
                    final(self)@.commit_index == len && final(self)@.last_applied >= len
            }),
    {
        match self.proposal(data) {
            Ok(entry) => {
                let index = entry.index;
                let term = entry.term;
                let ghost v = self@;
                let ghost e = entry@;
                self.push_entry(entry);
                let ghost v1 = self@;
                proof {
                    assert(v1.log[v1.log.len() - 1] == e);
                }
                self.advance_commit();
                let ghost c = self@.commit_index;
                let ghost v2 = self@;
                let applied = self.apply_committed();
                proof {
                    assert(v2 == RaftView { commit_index: c, ..v1 });
                    assert(commit_advance(v1, c));
                    if v.peers.len() == 0 && v.commit_index <= v.log.len() {
                        let n = v1.log.len() as int;
                        assert(v1.match_index.len() == 0);
                        assert(count_matched(v1.match_index, n as u64) == 0);
                        assert forall|m: int| n <= m <= v1.log.len() implies #[trigger] v1.log[m - 1].term >= v1.term by {
                            assert(m == n);
                        }
                        assert(commit_eligible(v1, n));
                    }
                }
                Ok(Proposed { index, term, applied })
            },
            Err(e) => Err(e),
        }
    }

    /// What a proposal of entry `index` in `term` answers once applied: the index while the
    /// entry applied there is still of that term, an error if another leader replaced it,
    /// and `None` while it is not applied yet.
    pub fn proposal_outcome(&self, index: u64, term: u64) -> (r: Option<Result<u64, Error>>)
        requires
            self.wf(),
        ensures
            self@.last_applied < index ==> r is None,
            self@.last_applied >= index && 1 <= index <= self@.log.len() && self@.log[index - 1].term == term
                ==> r == Some(Ok::<u64, Error>(index)),
            self@.last_applied >= index && !(1 <= index <= self@.log.len() && self@.log[index - 1].term == term)
                ==> (r matches Some(Err(Error::Raft(m))) && m@ == "entry was replaced by another leader"@),
    {
        proof { self.lemma_view_wf(); reveal_strlit("entry was replaced by another leader"); }
        if self.last_applied < index {
            return None;
        }
        if 1 <= index && index <= self.log.len() as u64 && self.log[(index - 1) as usize].term == term {
            Some(Ok(index))
        } else {
            Some(Err(Error::Raft(String::from_str("entry was replaced by another leader"))))
        }
    }

    /// Raises the commit index of a leader to the highest index that is stored on a
    /// majority and from which on every entry is of its term. Returns whether it rose.
    pub fn advance_commit(&mut self) -> (advanced: bool)
        requires
            old(self).wf(),
        ensures
            final(self).wf(),
            final(self)@ == (RaftView { commit_index: final(self)@.commit_index, ..old(self)@ }),
            advanced == (final(self)@.commit_index > old(self)@.commit_index),
            final(self)@.commit_index >= old(self)@.commit_index,
            advanced ==> 2 * (1 + count_matched(old(self)@.match_index, final(self)@.commit_index)) > old(self)@.peers.len() + 1,
            old(self)@.role != RaftRole::Leader ==> final(self)@ == old(self)@,
            old(self)@.role == RaftRole::Leader && advanced ==> commit_eligible(old(self)@, final(self)@.commit_index as int)
                && forall|m: int| final(self)@.commit_index < m <= old(self)@.log.len() ==> !commit_eligible(old(self)@, m),
            old(self)@.role == RaftRole::Leader && !advanced ==>
                forall|m: int| old(self)@.commit_index < m <= old(self)@.log.len() ==> !commit_eligible(old(self)@, m),
    {
        proof { self.lemma_view_wf(); }
        if self.role != RaftRole::Leader {
            return false;
        }
        let ghost v = self@;
        let needed = majority(self.peers.len() + 1);
        let len = self.log.len();
        let mut candidate: u64 = len as u64;
        while candidate > self.commit_index
            invariant
                self@ == v,
                v == old(self)@,
                self.wf(),
                self.peers@.len() < usize::MAX,
                len == self.log@.len() == v.log.len(),
                needed == majority_of(v.peers.len() + 1int),
                candidate <= len,
                v.role == RaftRole::Leader,
                forall|m: int| candidate < m <= len ==> #[trigger] v.log[m - 1].term >= v.term,
                forall|m: int| candidate < m <= len ==> !commit_eligible(v, m),
            decreases candidate,
        {
            let entry_term = self.log[(candidate - 1) as usize].term;
            proof { assert(v.log[candidate - 1] == self.log@[candidate - 1]@); }
            if entry_term < self.term {
                proof {
                    assert forall|m: int| v.commit_index < m <= len implies !commit_eligible(v, m) by {
                        if m <= candidate {
                            assert(v.log[candidate - 1].term < v.term);
                        }
                    }
                }
                return false;
            }
            let mut replicated: usize = 1;
            let mut i: usize = 0;
            proof { lemma_count_matched_bound(v.match_index, candidate); }
            while i < self.match_index.len()
                invariant
                    self@ == v,
                    self.wf(),
                    i <= self.match_index@.len(),
                    self.match_index@.len() < usize::MAX,
                    replicated == 1 + count_matched(v.match_index.subrange(0, i as int), candidate),
                    replicated <= 1 + i,
                decreases self.match_index@.len() - i,
            {
                proof {
                    assert(v.match_index.subrange(0, i as int + 1).drop_last() =~= v.match_index.subrange(0, i as int));
                }
                match self.match_index[i] {
                    Some(m) => {
                        if m >= candidate {
                            replicated = replicated + 1;
                        }
                    },
                    None => {},
                }
                i = i + 1;
            }
            proof {
                assert(v.match_index.subrange(0, i as int) =~= v.match_index);
            }
            if replicated >= needed {
                self.commit_index = candidate;
                proof {
                    assert(commit_eligible(v, candidate as int));
                }
                return true;
            }
            candidate = candidate - 1;
        }
        false
    }

    /// Starts an election: a new term, a vote for itself. Returns the request to send to
    /// every peer; the new term and vote must be persisted first.
    pub fn start_election(&mut self) -> (r: VoteRequest)
        requires
            old(self).wf(),
            old(self)@.term < u64::MAX,
        ensures
            final(self).wf(),
            final(self)@ == (RaftView {
                term: (old(self)@.term + 1) as u64,
                role: RaftRole::Candidate,
                voted_for: Some(old(self)@.node_id),
                leader_id: None,
                ..old(self)@
            }),
            r.term == old(self)@.term + 1,
            r.candidate_id@ == old(self)@.node_id,
            (r.last_log_index, r.last_log_term) == last_info(old(self)@.log),
    {
        self.term = self.term + 1;
        self.role = RaftRole::Candidate;
        self.voted_for = Some(self.node_id.clone());
        self.leader_id = None;
        let (last_log_index, last_log_term) = last_log_info(&self.log);
        VoteRequest { term: self.term, candidate_id: self.node_id.clone(), last_log_index, last_log_term }
    }

    /// Gives up an election whose new state could not be persisted.
    pub fn abort_election(&mut self) -> (unit: ())
        requires
            old(self).wf(),
        ensures
            final(self).wf(),
            final(self)@ == (RaftView { role: RaftRole::Follower, ..old(self)@ }),
    {
        self.role = RaftRole::Follower;
    }

    /// Counts the answers to the vote request of term `request_term` (`None` for a peer
    /// that did not answer) and decides the election.
    pub fn finish_election(&mut self, request_term: u64, responses: &Vec<Option<VoteResponse>>) -> (r: ElectionOutcome)
        requires
            old(self).wf(),
            responses@.len() == old(self)@.peers.len(),
        ensures
            final(self).wf(),
            ({
                let v = old(self)@;
                let high = highest_term(responses@, request_term);
                let votes = votes_for(responses@, request_term);
                if high > v.term {
                    r is SteppedDown && final(self)@ == follower_of(v, high, None)
                } else if v.term != request_term || v.role != RaftRole::Candidate {
                    r is Stale && final(self)@ == v
                } else if votes < majority_of(v.peers.len() + 1int) {
                    r == ElectionOutcome::Lost { votes: votes as usize } && final(self)@ == v
                } else {
                    &&& r is Won
                    &&& r->Won_votes == votes
                    &&& r->noop@ == (LogEntryView { term: v.term, index: (v.log.len() + 1) as u64, data: Seq::empty() })
                    &&& final(self)@ == leader_of(v)
                }
            }),
            r matches ElectionOutcome::Won { votes, .. } ==> 2 * votes > old(self)@.peers.len() + 1,
            r matches ElectionOutcome::Lost { votes } ==> 2 * votes <= old(self)@.peers.len() + 1,
    {
        proof { self.lemma_view_wf(); lemma_votes_bound(responses@, request_term); }
        let mut votes: usize = 1;
        let mut highest: u64 = request_term;
        let mut i: usize = 0;
        while i < responses.len()
            invariant
                i <= responses@.len() == self@.peers.len(),
                self.wf(),
                votes == votes_for(responses@.subrange(0, i as int), request_term),
                highest == highest_term(responses@.subrange(0, i as int), request_term),
                votes <= i + 1,
                responses@.len() < usize::MAX,
            decreases responses@.len() - i,
        {
            proof {
                assert(responses@.subrange(0, i as int + 1).drop_last() =~= responses@.subrange(0, i as int));
                lemma_votes_bound(responses@.subrange(0, i as int), request_term);
            }
            match &responses[i] {
                Some(resp) => {
                    if resp.term > highest {
                        highest = resp.term;
                    }
                    if resp.vote_granted && resp.term == request_term {
                        votes = votes + 1;
                    }
                },
                None => {},
            }
            i = i + 1;
        }
        proof {
            assert(responses@.subrange(0, i as int) =~= responses@);
        }
        if highest > self.term {
            self.become_follower(highest, None);
            return ElectionOutcome::SteppedDown;
        }
        if self.term != request_term || self.role != RaftRole::Candidate {
            return ElectionOutcome::Stale;
        }
        if votes < majority(self.peers.len() + 1) {
            return ElectionOutcome::Lost { votes };
        }
        self.become_leader();
        let noop = LogEntry { term: self.term, index: self.log.len() as u64 + 1, data: Vec::new() };
        ElectionOutcome::Won { votes, noop }
    }

    /// The append request a leader sends to peer `peer`: from the entry after what the
    /// peer is known to hold, at most `MAX_BATCH` entries. `None` if not leader.
    pub fn append_request_for(&self, peer: usize) -> (r: Option<AppendRequest>)
        requires
            self.wf(),
            peer < self@.peers.len(),
        ensures
            self@.role != RaftRole::Leader ==> r is None,
            self@.role == RaftRole::Leader ==> r is Some && ({
                let v = self@;
                let req = r->Some_0;
                let len = v.log.len();
                let wanted = match v.next_index[peer as int] { Some(x) => x as int, None => len + 1int };
                let next = if wanted < 1 { 1int } else if wanted > len + 1 { len + 1int } else { wanted };
                let prev = next - 1;
                let end = if len < prev + MAX_BATCH { len as int } else { prev + MAX_BATCH };
                &&& req.term == v.term
                &&& req.leader_id@ == v.node_id
                &&& req.prev_log_index == prev
                &&& req.prev_log_term == if prev == 0 { 0 } else { v.log[prev - 1].term }
                &&& entries_view(req.entries@) == v.log.subrange(prev, end)
                &&& req.leader_commit == v.commit_index
            }),
    {
        proof { self.lemma_view_wf(); }
        if self.role != RaftRole::Leader {
            return None;
        }
        let len = self.log.len();
        let log_len = len as u64;
        let wanted = match self.next_index[peer] { Some(x) => x, None => log_len + 1 };
        let next = if wanted < 1 { 1 } else if wanted > log_len + 1 { log_len + 1 } else { wanted };
        let prev = next - 1;
        let prev_log_term = if prev == 0 { 0 } else { self.log[(prev - 1) as usize].term };
        let p = prev as usize;
        let end: usize = if len - p < MAX_BATCH { len } else { p + MAX_BATCH };
        let ghost log = self@.log;
        let mut entries: Vec<LogEntry> = Vec::new();
        let mut i: usize = p;
        while i < end
            invariant
                p <= i <= end <= len == self.log@.len(),
                log == entries_view(self.log@),
                entries_view(entries@) == log.subrange(p as int, i as int),
            decreases end - i,
        {
            let e = self.log[i].duplicate();
            proof {
                lemma_entries_view_push(entries@, e);
                assert(log[i as int] == self.log@[i as int]@);
            }
            entries.push(e);
            assert(entries_view(entries@) =~= log.subrange(p as int, i as int + 1));
            i = i + 1;
        }
        Some(AppendRequest {
            term: self.term,
            leader_id: self.node_id.clone(),
            prev_log_index: prev,
            prev_log_term,
            entries,
            leader_commit: self.commit_index,
        })
    }

    /// Handles the answer of peer `peer` to an append request of term `request_term`
    /// that covered the log up to `sent_up_to`. Returns what to do next and whether the
    /// term changed, which must then be persisted.
    pub fn handle_append_response(&mut self, peer: usize, request_term: u64, sent_up_to: u64, resp: &AppendResponse) -> (r: (Replication, bool))
        requires
            old(self).wf(),
            peer < old(self)@.peers.len(),
            sent_up_to < u64::MAX,
        ensures
            final(self).wf(),
            ({
                let (v, outcome) = response_step(old(self)@, peer as int, request_term, sent_up_to, *resp);
                &&& final(self)@ == v
                &&& r.0 == outcome
                &&& r.1 == (resp.term > old(self)@.term)
            }),
            resp.term <= old(self)@.term && old(self)@.role == RaftRole::Leader && old(self)@.term == request_term
                && resp.success ==> (final(self)@.match_index[peer as int] matches Some(m) && m >= sent_up_to
                    && (m == sent_up_to || old(self)@.match_index[peer as int] == Some(m))),
            forall|q: int| 0 <= q < old(self)@.peers.len() && q != peer ==>
                #[trigger] final(self)@.match_index[q] == old(self)@.match_index[q] || final(self)@.match_index[q] is None,
    {
        proof { self.lemma_view_wf(); }
        if resp.term > self.term {
            self.become_follower(resp.term, None);
            return (Replication::Idle, true);
        }
        if self.role != RaftRole::Leader || self.term != request_term {
            return (Replication::Idle, false);
        }
        if resp.success {
            let matched = match self.match_index[peer] {
                Some(x) => if x > sent_up_to { x } else { sent_up_to },
                None => sent_up_to,
            };
            let next = match self.next_index[peer] {
                Some(x) => if x > sent_up_to + 1 { x } else { sent_up_to + 1 },
                None => if 1 > sent_up_to + 1 { 1 } else { sent_up_to + 1 },
            };
            self.match_index.set(peer, Some(matched));
            self.next_index.set(peer, Some(next));
            if sent_up_to < (self.log.len() as u64) {
                (Replication::More, false)
            } else {
                (Replication::UpToDate, false)
            }
        } else {
            let current = match self.next_index[peer] {
                Some(x) => x,
                None => 1,
            };
            let lowered = if current == 0 { 0 } else { current - 1 };
            let hint = if resp.conflict_index == 0 { lowered } else { resp.conflict_index };
            let bounded = if hint < lowered { hint } else { lowered };
            let next = if bounded < 1 { 1 } else { bounded };
            self.next_index.set(peer, Some(next));
            (Replication::More, false)
        }
    }

    /// Whether a leader can serve a linearizable read now, given how many members
    /// (itself included) have acknowledged it since the read began: the commit index to
    /// read at, `None` to wait, or an error if this node is not the leader.
    pub fn read_index_ready(&self, acks: usize) -> (r: Result<Option<u64>, Error>)
        requires
            self.wf(),
        ensures
            self@.role != RaftRole::Leader ==> r is Err && names_leader(r->Err_0, self@.leader_id),
            self@.role == RaftRole::Leader ==> r == Ok::<Option<u64>, Error>(
                if self@.commit_index > 0 && self@.commit_index <= self@.log.len()
                    && self@.log[self@.commit_index - 1].term == self@.term
                    && acks >= majority_of(self@.peers.len() + 1int) {
                    Some(self@.commit_index)
                } else {
                    None
                }),
    {
        proof { self.lemma_view_wf(); }
        if self.role != RaftRole::Leader {
            return Err(Error::NotLeader(unknown_or(&self.leader_id)));
        }
        let committed_in_term = self.commit_index > 0 && self.commit_index <= self.log.len() as u64
            && self.log[(self.commit_index - 1) as usize].term == self.term;
        if committed_in_term && acks >= majority(self.peers.len() + 1) {
            Ok(Some(self.commit_index))
        } else {
            Ok(None)
        }
    }

    /// A leader that reaches fewer than a majority (itself included) steps down.
    /// Returns whether it stepped down.
    pub fn check_quorum(&mut self, reachable: usize) -> (stepped: bool)
        requires
            old(self).wf(),
        ensures
            final(self).wf(),
            stepped == (old(self)@.role == RaftRole::Leader && reachable < majority_of(old(self)@.peers.len() + 1int)),
            stepped ==> final(self)@ == follower_of(old(self)@, old(self)@.term, None),
            !stepped ==> final(self)@ == old(self)@,
    {
        if self.role == RaftRole::Leader && reachable < majority(self.peers.len() + 1) {
            let term = self.term;
            self.become_follower(term, None);
            true
        } else {
            false
        }
    }
}

} // verus!
