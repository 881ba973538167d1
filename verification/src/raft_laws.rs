//! Properties of the consensus rules that hold across steps.
use vstd::prelude::*;
use crate::raft::{AppendResponse, LogEntryView, VoteResponse};
use crate::raft_node::{
    agrees_at, append_step, apply_step, divergence_from, first_divergence, follower_of, merged_log,
    raft_wf, reindexed, response_step, vote_step, RaftRole, RaftView, apply_end,
    majority_of, commit_eligible, count_matched,
};

verus! {

proof fn lemma_divergence_full(log: Seq<LogEntryView>, prev: int, entries: Seq<LogEntryView>, k: int)
    requires
        0 <= k <= entries.len(),
        forall|j: int| k <= j < entries.len() ==> agrees_at(log, prev, entries, j),
    ensures
        divergence_from(log, prev, entries, k) == entries.len(),
    decreases entries.len() - k,
{
    if k < entries.len() {
        lemma_divergence_full(log, prev, entries, k + 1);
    }
}

proof fn lemma_divergence_bounds(log: Seq<LogEntryView>, prev: int, entries: Seq<LogEntryView>, k: int)
    requires
        0 <= k <= entries.len(),
        0 <= prev,
        prev + k <= log.len(),
    ensures
        k <= divergence_from(log, prev, entries, k) <= entries.len(),
        prev + divergence_from(log, prev, entries, k) <= log.len(),
        forall|j: int| k <= j < divergence_from(log, prev, entries, k) ==> agrees_at(log, prev, entries, j),
    decreases entries.len() - k,
{
    if k < entries.len() && agrees_at(log, prev, entries, k) {
        lemma_divergence_bounds(log, prev, entries, k + 1);
    }
}

/// After entries are merged after position `prev`, the log holds, at the positions that
/// follow `prev`, entries of the terms of the new entries (the log matching property),
/// keeps everything up to `prev`, and ends no earlier than the last new entry.
pub proof fn law_merge_matches(log: Seq<LogEntryView>, prev: int, entries: Seq<LogEntryView>)
    requires
        0 <= prev <= log.len(),
    ensures
        merged_log(log, prev, entries).len() >= prev + entries.len(),
        merged_log(log, prev, entries).subrange(0, prev) == log.subrange(0, prev),
        forall|j: int| 0 <= j < entries.len() ==> #[trigger] merged_log(log, prev, entries)[prev + j].term == entries[j].term,
{
    lemma_divergence_bounds(log, prev, entries, 0);
    let k = first_divergence(log, prev, entries);
    let m = merged_log(log, prev, entries);
    if k == entries.len() {
        assert forall|j: int| 0 <= j < entries.len() implies #[trigger] m[prev + j].term == entries[j].term by {
            assert(agrees_at(log, prev, entries, j));
        }
    } else {
        let head = log.subrange(0, prev + k);
        let tail = reindexed(entries.subrange(k, entries.len() as int), prev + k + 1);
        assert(m.subrange(0, prev) =~= log.subrange(0, prev));
        assert forall|j: int| 0 <= j < entries.len() implies #[trigger] m[prev + j].term == entries[j].term by {
            if j < k {
                assert(agrees_at(log, prev, entries, j));
                assert(m[prev + j] == head[prev + j]);
            } else {
                assert(m[prev + j] == tail[j - k]);
            }
        }
    }
}

/// Merging the same entries twice gives the log of merging them once: a repeated
/// append request changes nothing.
pub proof fn law_merge_idempotent(log: Seq<LogEntryView>, prev: int, entries: Seq<LogEntryView>)
    requires
        0 <= prev <= log.len(),
    ensures
        merged_log(merged_log(log, prev, entries), prev, entries) == merged_log(log, prev, entries),
{
    let m = merged_log(log, prev, entries);
    law_merge_matches(log, prev, entries);
    assert forall|j: int| 0 <= j < entries.len() implies agrees_at(m, prev, entries, j) by {
        assert(m[prev + j].term == entries[j].term);
    }
    lemma_divergence_full(m, prev, entries, 0);
}

/// A node grants at most one vote per term: once it has granted its vote to a
/// candidate, a request of the same term from another candidate is refused.
pub proof fn law_one_vote_per_term(
    v: RaftView,
    term: u64,
    first: Seq<char>,
    first_index: u64,
    first_term: u64,
    second: Seq<char>,
    second_index: u64,
    second_term: u64,
)
    requires
        raft_wf(v),
        vote_step(v, term, first, first_index, first_term).1,
        first != second,
    ensures
        !vote_step(vote_step(v, term, first, first_index, first_term).0, term, second, second_index, second_term).1,
{
}

/// A granted vote goes to a candidate whose log is at least as up to date as the voter's,
/// in the candidate's own term.
pub proof fn law_vote_needs_up_to_date_log(v: RaftView, term: u64, candidate: Seq<char>, last_index: u64, last_term: u64)
    requires
        vote_step(v, term, candidate, last_index, last_term).1,
    ensures
        crate::raft_node::candidate_up_to_date(last_term, last_index, v.log),
        term >= v.term,
        vote_step(v, term, candidate, last_index, last_term).0.term == term,
{
}

/// No step lowers the term or the commit index, and a step that does not see a higher
/// term keeps the term.
pub proof fn law_terms_and_commits_never_decrease(
    v: RaftView,
    term: u64,
    leader: Seq<char>,
    prev: u64,
    prev_term: u64,
    entries: Seq<LogEntryView>,
    leader_commit: u64,
    candidate: Seq<char>,
    last_index: u64,
    last_term: u64,
    peer: int,
    sent_up_to: u64,
    resp: AppendResponse,
)
    requires
        raft_wf(v),
        0 <= peer < v.peers.len(),
    ensures
        append_step(v, term, leader, prev, prev_term, entries, leader_commit).0.term >= v.term,
        append_step(v, term, leader, prev, prev_term, entries, leader_commit).0.commit_index >= v.commit_index,
        vote_step(v, term, candidate, last_index, last_term).0.term >= v.term,
        vote_step(v, term, candidate, last_index, last_term).0.commit_index == v.commit_index,
        response_step(v, peer, term, sent_up_to, resp).0.term >= v.term,
        response_step(v, peer, term, sent_up_to, resp).0.commit_index == v.commit_index,
        apply_step(v).0.term == v.term,
        apply_step(v).0.last_applied >= v.last_applied,
{
}

/// Entries are applied once: right after applying, nothing is left to apply.
pub proof fn law_applied_once(v: RaftView)
    ensures
        apply_step(apply_step(v).0).1 == Seq::<Seq<u8>>::empty(),
        apply_step(apply_step(v).0).0 == apply_step(v).0,
        apply_step(v).0.last_applied >= apply_end(v),
{
}

/// Once a node has voted in a term, an append request of that term does not erase the vote.
pub proof fn law_append_keeps_vote_of_term(
    v: RaftView,
    leader: Seq<char>,
    prev: u64,
    prev_term: u64,
    entries: Seq<LogEntryView>,
    leader_commit: u64,
)
    requires
        v.voted_for is Some,
    ensures
        append_step(v, v.term, leader, prev, prev_term, entries, leader_commit).0.voted_for == v.voted_for,
        follower_of(v, v.term, None).voted_for == v.voted_for,
{
}

/// What can happen to a node, for laws over runs of steps: a vote request, an append
/// request (with what it commits applied), or the start of its own election.
pub enum RaftEvent {
    Vote { term: u64, candidate: Seq<char>, last_index: u64, last_term: u64 },
    Append { term: u64, leader: Seq<char>, prev: u64, prev_term: u64, entries: Seq<LogEntryView>, leader_commit: u64 },
    StartElection,
}

/// The state after one event, and the vote it gave (term and candidate), if any. A node
/// that starts an election votes for itself in the new term.
pub open spec fn event_step(v: RaftView, e: RaftEvent) -> (RaftView, Option<(u64, Seq<char>)>) {
    match e {
        RaftEvent::Vote { term, candidate, last_index, last_term } => {
            let (w, granted) = vote_step(v, term, candidate, last_index, last_term);
            (w, if granted { Some((term, candidate)) } else { None })
        },
        RaftEvent::Append { term, leader, prev, prev_term, entries, leader_commit } => {
            let (w, resp) = append_step(v, term, leader, prev, prev_term, entries, leader_commit);
            (if resp.success { apply_step(w).0 } else { w }, None)
        },
        RaftEvent::StartElection => {
            if v.term < u64::MAX {
                let t = (v.term + 1) as u64;
                (RaftView { term: t, role: RaftRole::Candidate, voted_for: Some(v.node_id), leader_id: None, ..v },
                    Some((t, v.node_id)))
            } else {
                (v, None)
            }
        },
    }
}

/// The state after a run of events, and the votes given along it, in order.
pub open spec fn run_events(v: RaftView, es: Seq<RaftEvent>) -> (RaftView, Seq<(u64, Seq<char>)>)
    decreases es.len(),
{
    if es.len() == 0 {
        (v, Seq::empty())
    } else {
        let (w, votes) = run_events(v, es.drop_last());
        let (w2, vote) = event_step(w, es.last());
        (w2, match vote { Some(g) => votes.push(g), None => votes })
    }
}

/// Every vote given so far is of a term no later than the current one, and a vote of
/// the current term is the one recorded.
pub open spec fn votes_recorded(v: RaftView, votes: Seq<(u64, Seq<char>)>) -> bool {
    forall|k: int| 0 <= k < votes.len() ==> {
        &&& (#[trigger] votes[k]).0 <= v.term
        &&& votes[k].0 == v.term ==> v.voted_for == Some(votes[k].1)
    }
}

/// The vote a node holds before a run: its vote in its current term, if it has one.
pub open spec fn initial_votes(v: RaftView) -> Seq<(u64, Seq<char>)> {
    match v.voted_for {
        Some(c) => seq![(v.term, c)],
        None => Seq::empty(),
    }
}

/// The vote held before a run, followed by the votes given along it.
pub open spec fn all_votes(v: RaftView, es: Seq<RaftEvent>) -> Seq<(u64, Seq<char>)> {
    initial_votes(v) + run_events(v, es).1
}

proof fn lemma_run_events(v: RaftView, es: Seq<RaftEvent>)
    ensures
        votes_recorded(run_events(v, es).0, all_votes(v, es)),
        run_events(v, es).0.term >= v.term,
        forall|i: int, j: int| 0 <= i < j < all_votes(v, es).len()
            && (#[trigger] all_votes(v, es)[i]).0 == (#[trigger] all_votes(v, es)[j]).0
            ==> all_votes(v, es)[i].1 == all_votes(v, es)[j].1,
    decreases es.len(),
{
    if es.len() == 0 {
        assert(all_votes(v, es) =~= initial_votes(v));
    } else {
        lemma_run_events(v, es.drop_last());
        let (w, run) = run_events(v, es.drop_last());
        let votes = all_votes(v, es.drop_last());
        assert(votes == initial_votes(v) + run);
        let (w2, vote) = event_step(w, es.last());
        let all = all_votes(v, es);
        assert(w2.term >= w.term);
        assert forall|k: int| 0 <= k < votes.len() implies {
            &&& (#[trigger] votes[k]).0 <= w2.term
            &&& votes[k].0 == w2.term ==> w2.voted_for == Some(votes[k].1)
        } by {
            assert(votes[k].0 <= w.term);
        }
        match vote {
            Some(g) => {
                assert(all =~= votes.push(g));
                assert(g.0 == w2.term && w2.voted_for == Some(g.1));
                assert forall|k: int| 0 <= k < votes.len() && votes[k].0 == g.0 implies votes[k].1 == g.1 by {
                    assert(votes[k].0 <= w.term);
                    if votes[k].0 == w.term {
                        assert(w.voted_for == Some(votes[k].1));
                    }
                }
                assert forall|i: int, j: int| 0 <= i < j < all.len()
                    && (#[trigger] all[i]).0 == (#[trigger] all[j]).0 implies all[i].1 == all[j].1 by {
                    if j < votes.len() {
                        assert(all[i] == votes[i] && all[j] == votes[j]);
                    } else {
                        assert(all[i] == votes[i] && all[j] == g);
                    }
                }
            },
            None => {
                assert(all =~= votes);
            },
        }
    }
}

/// A node grants at most one vote per term over any run of vote requests, append requests
/// and elections of its own, from any state: two votes of the same term, among the vote
/// it held before the run and those it gives along it, go to the same candidate.
pub proof fn law_one_vote_per_term_over_runs(v: RaftView, es: Seq<RaftEvent>)
    ensures
        forall|i: int, j: int| 0 <= i < j < all_votes(v, es).len()
            && (#[trigger] all_votes(v, es)[i]).0 == (#[trigger] all_votes(v, es)[j]).0
            ==> all_votes(v, es)[i].1 == all_votes(v, es)[j].1,
{
    lemma_run_events(v, es);
}

/// What an append request does. It never lowers the term, and the term it answers with is
/// the node's term after the request. A request of an older term fails. A failed request
/// changes neither the log nor the commit index. A successful one keeps the log up to
/// `prev`, puts entries of the request's terms after it, and raises the commit index to the
/// leader's commit, bounded by the last new entry. Everything committed is then applied,
/// up to the end of the log.
pub proof fn law_append_outcome(
    v: RaftView,
    term: u64,
    leader: Seq<char>,
    prev: u64,
    prev_term: u64,
    entries: Seq<LogEntryView>,
    leader_commit: u64,
)
    requires
        raft_wf(v),
    ensures
        ({
            let (w, resp) = append_step(v, term, leader, prev, prev_term, entries, leader_commit);
            let after = if resp.success { apply_step(w).0 } else { w };
            let last_new = prev + entries.len();
            let bound = if leader_commit < last_new { leader_commit as int } else { last_new };
            &&& resp.term == after.term
            &&& after.term == if term > v.term { term } else { v.term }
            &&& term < v.term ==> !resp.success
            &&& !resp.success ==> after.log == v.log && after.commit_index == v.commit_index
            &&& resp.success ==> {
                &&& after.log.subrange(0, prev as int) == v.log.subrange(0, prev as int)
                &&& after.log.len() >= last_new
                &&& forall|i: int| 0 <= i < entries.len() ==> #[trigger] after.log[prev + i].term == entries[i].term
                &&& after.commit_index == if bound > v.commit_index { bound } else { v.commit_index as int }
                &&& after.last_applied >= v.last_applied
                &&& after.last_applied <= after.commit_index
                &&& (after.commit_index <= after.log.len() ==> after.last_applied == after.commit_index)
            }
        }),
{
    let (w, resp) = append_step(v, term, leader, prev, prev_term, entries, leader_commit);
    if resp.success {
        law_merge_matches(v.log, prev as int, entries);
    }
}

/// A majority is a strict one: more than half of the cluster, and no more than needed
/// (one member fewer is at most half). For a cluster of three it is two, for one it is one.
pub proof fn law_majority_is_strict(cluster_size: int)
    requires
        cluster_size >= 0,
    ensures
        2 * majority_of(cluster_size) > cluster_size,
        2 * (majority_of(cluster_size) - 1) <= cluster_size,
        cluster_size >= 1 ==> 1 <= majority_of(cluster_size) <= cluster_size,
{
}

/// Two majorities of one cluster always share a member: their sizes add up to more than
/// the cluster.
pub proof fn law_quorums_intersect(cluster_size: int, a: int, b: int)
    requires
        cluster_size >= 1,
        a >= majority_of(cluster_size),
        b >= majority_of(cluster_size),
    ensures
        a + b > cluster_size,
{
}

/// An index may be committed only once more than half of the cluster (the leader and the
/// peers known to hold it) stores it.
pub proof fn law_commit_needs_strict_majority(v: RaftView, n: int)
    requires
        commit_eligible(v, n),
    ensures
        2 * (1 + count_matched(v.match_index, n as u64)) > v.peers.len() + 1,
{
}

/// A successful answer to an append request that covered the log up to `sent_up_to`
/// records for that peer at least `sent_up_to`, and never more than `sent_up_to` or what
/// was recorded before: a leader never counts as stored what it did not send. The other
/// peers' records stay; an unsuccessful answer records nothing.
pub proof fn law_ack_records_what_was_sent(v: RaftView, p: int, req_term: u64, sent_up_to: u64, resp: AppendResponse)
    requires
        raft_wf(v),
        0 <= p < v.peers.len(),
        resp.term <= v.term,
        v.role == RaftRole::Leader,
        v.term == req_term,
    ensures
        ({
            let w = response_step(v, p, req_term, sent_up_to, resp).0;
            &&& w.match_index.len() == v.match_index.len()
            &&& forall|q: int| 0 <= q < v.peers.len() && q != p ==> #[trigger] w.match_index[q] == v.match_index[q]
            &&& !resp.success ==> w.match_index[p] == v.match_index[p]
            &&& resp.success ==> (w.match_index[p] matches Some(m) && m >= sent_up_to
                && (m == sent_up_to || (v.match_index[p] matches Some(x) && m == x))
                && (v.match_index[p] matches Some(x) ==> m >= x))
        }),
{
}

/// A vote is granted only to a candidate whose log is at least as up to date as the
/// voter's: its last term is later, or the same and its log is at least as long. A
/// candidate whose last term is the same as the voter's and whose log is shorter is refused.
pub proof fn law_vote_refuses_a_shorter_log(v: RaftView, term: u64, candidate: Seq<char>, last_index: u64, last_term: u64)
    requires
        raft_wf(v),
    ensures
        vote_step(v, term, candidate, last_index, last_term).1 && v.log.len() > 0 ==>
            last_term > v.log.last().term || (last_term == v.log.last().term && last_index >= v.log.len()),
        v.log.len() > 0 && last_term == v.log.last().term && last_index < v.log.len() ==>
            !vote_step(v, term, candidate, last_index, last_term).1,
        v.log.len() > 0 && last_term < v.log.last().term ==> !vote_step(v, term, candidate, last_index, last_term).1,
{
    if v.log.len() > 0 {
        assert(v.log[v.log.len() - 1].index == v.log.len());
    }
}

} // verus!
