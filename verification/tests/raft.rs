use minikv::raft::{AppendRequest, LogEntry, VoteRequest};
use minikv::error::Error;
use minikv::raft_node::{normalize_addr, ElectionOutcome, RaftNode, RaftRole};
use minikv::raft_log::HardState;

fn entry(term: u64, index: u64, data: &[u8]) -> LogEntry {
    LogEntry { term, index, data: data.to_vec() }
}

fn append(term: u64, prev: (u64, u64), entries: Vec<LogEntry>, commit: u64) -> AppendRequest {
    AppendRequest {
        term,
        leader_id: "leader".to_string(),
        prev_log_index: prev.0,
        prev_log_term: prev.1,
        entries,
        leader_commit: commit,
    }
}

#[test]
fn vote_requires_an_up_to_date_log() {
    let mut node = RaftNode::new("n1".to_string());
    node.handle_append_entries(append(2, (0, 0), vec![entry(2, 1, b"x")], 0));
    let stale = node.handle_request_vote(VoteRequest {
        term: 3,
        candidate_id: "n2".to_string(),
        last_log_index: 5,
        last_log_term: 1,
    });
    assert!(!stale.vote_granted);
    assert_eq!(stale.term, 3);
    let fresh = node.handle_request_vote(VoteRequest {
        term: 3,
        candidate_id: "n3".to_string(),
        last_log_index: 1,
        last_log_term: 2,
    });
    assert!(fresh.vote_granted);
    let second = node.handle_request_vote(VoteRequest {
        term: 3,
        candidate_id: "n2".to_string(),
        last_log_index: 9,
        last_log_term: 3,
    });
    assert!(!second.vote_granted);
}

#[test]
fn append_rejects_stale_terms_and_gaps() {
    let mut node = RaftNode::new("n1".to_string());
    node.step_down(5, None);
    let (stale, _) = node.handle_append_entries(append(4, (0, 0), vec![], 0));
    assert!(!stale.success);
    assert_eq!(stale.term, 5);
    let (gap, _) = node.handle_append_entries(append(5, (3, 5), vec![], 0));
    assert!(!gap.success);
    assert_eq!(gap.conflict_index, 1);
}

#[test]
fn conflicting_entries_are_replaced_and_applied_once() {
    let mut node = RaftNode::new("n1".to_string());
    let mut applied: Vec<Vec<u8>> = Vec::new();

    let (_, out) = node.handle_append_entries(append(
        1,
        (0, 0),
        vec![entry(1, 1, b"a"), entry(1, 2, b"b"), entry(1, 3, b"c")],
        1,
    ));
    applied.extend(out);
    let (mismatch, out) = node.handle_append_entries(append(2, (3, 2), vec![], 1));
    applied.extend(out);
    assert!(!mismatch.success);
    assert_eq!(mismatch.conflict_index, 1);

    let (ok, out) = node.handle_append_entries(append(
        2,
        (1, 1),
        vec![entry(2, 2, b"B"), entry(2, 3, b"C")],
        3,
    ));
    applied.extend(out);
    assert!(ok.success);
    let data: Vec<Vec<u8>> = node.get_log().iter().map(|e| e.data.clone()).collect();
    assert_eq!(data, vec![b"a".to_vec(), b"B".to_vec(), b"C".to_vec()]);
    assert_eq!(node.commit_index(), 3);
    assert_eq!(applied, vec![b"a".to_vec(), b"B".to_vec(), b"C".to_vec()]);

    let (_, out) = node.handle_append_entries(append(2, (3, 2), vec![], 3));
    applied.extend(out);
    assert_eq!(applied.len(), 3);
}

#[test]
fn peers_are_trimmed_and_given_a_scheme() {
    assert_eq!(normalize_addr(" 10.0.0.1:5001 "), "http://10.0.0.1:5001");
    assert_eq!(normalize_addr("https://coord-2:5001"), "https://coord-2:5001");
    let once = normalize_addr(" 10.0.0.1:5001 ");
    assert_eq!(normalize_addr(&once), once);
    let node = RaftNode::with_config(
        "n1".to_string(),
        vec![" coord-2:5001".to_string(), "   ".to_string(), "http://coord-3:5001".to_string()],
        HardState { term: 4, voted_for: Some("coord-2".to_string()) },
        vec![entry(1, 1, b"a"), entry(4, 2, b"b")],
    );
    assert_eq!(node.get_peers(), &vec!["http://coord-2:5001".to_string(), "http://coord-3:5001".to_string()]);
    assert_eq!(node.get_term(), 4);
    assert_eq!(node.get_voted_for(), Some("coord-2".to_string()));
    assert_eq!(node.log_len(), 2);
    assert_eq!(node.get_role(), RaftRole::Follower);
    assert_eq!(node.commit_index(), 0);
}

#[test]
fn single_node_commits_on_its_own() {
    let mut node = RaftNode::new("solo".to_string());
    let mut applied: Vec<Vec<u8>> = Vec::new();
    let request = node.start_election();
    match node.finish_election(request.term, &vec![]) {
        ElectionOutcome::Won { noop, .. } => node.push_entry(noop),
        _ => panic!("a lone node wins its election"),
    }
    node.advance_commit();
    applied.extend(node.apply_committed());
    assert!(node.is_leader());
    assert_eq!(node.get_term(), 1);
    let proposed = node.propose(b"put k".to_vec()).unwrap();
    assert_eq!(node.proposal_outcome(proposed.index, proposed.term), Some(Ok(2)));
    assert_eq!(node.commit_index(), 2);
    applied.extend(proposed.applied);
    assert_eq!(applied, vec![b"put k".to_vec()]);
    assert_eq!(node.last_applied(), 2);
}

#[test]
fn leader_reads_wait_for_committed_writes() {
    let mut node = RaftNode::new("solo".to_string());
    assert!(node.read_index_ready(1).is_err());
    let request = node.start_election();
    match node.finish_election(request.term, &vec![]) {
        ElectionOutcome::Won { noop, .. } => node.push_entry(noop),
        _ => panic!("a lone node wins its election"),
    }
    node.advance_commit();
    node.apply_committed();
    let index = node.propose(b"x".to_vec()).unwrap().index;
    node.advance_commit();
    let read_at = node.read_index_ready(1).unwrap().unwrap();
    assert!(read_at >= index);
    node.apply_committed();
    assert!(node.last_applied() >= index);
}

#[test]
fn followers_cannot_propose() {
    let mut node = RaftNode::new("n1".to_string());
    node.step_down(1, Some("n2".to_string()));
    match node.propose(b"x".to_vec()) {
        Err(Error::NotLeader(leader)) => assert_eq!(leader, "n2"),
        other => panic!("unexpected result: {:?}", other.map(|_| ())),
    }
    assert_eq!(node.log_len(), 0);
    assert_eq!(node.commit_index(), 0);
}

#[test]
fn a_replaced_or_pending_proposal_is_reported() {
    let mut node = RaftNode::new("n1".to_string());
    assert_eq!(node.proposal_outcome(1, 1), None);
    node.handle_append_entries(append(1, (0, 0), vec![entry(1, 1, b"a")], 1));
    assert_eq!(node.proposal_outcome(1, 1), Some(Ok(1)));
    match node.proposal_outcome(1, 2) {
        Some(Err(Error::Raft(m))) => assert_eq!(m, "entry was replaced by another leader"),
        other => panic!("unexpected outcome: {:?}", other.is_some()),
    }
}

#[test]
fn election_timeouts_fall_between_one_and_two_bases() {
    for _ in 0..100 {
        let t = minikv::raft_node::random_timeout_ms(150);
        assert!((150..300).contains(&t));
    }
    assert_eq!(minikv::raft_node::random_timeout_ms(1), 1);
}
