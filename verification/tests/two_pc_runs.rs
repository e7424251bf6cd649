use coord_core::dedup::FirstWins;
use coord_core::two_pc::{
    decide, ping_ack, two_pc, Ack, Begin, Client, Coordinator, Decision, Done, Participant, Vote,
};

fn cluster(policies: &[bool]) -> Vec<Participant> {
    policies.iter().map(|&votes_yes| Participant { votes_yes }).collect()
}

#[test]
fn commit_despite_duplicate_votes() {
    // Two participants, both voting yes; the transport duplicates every
    // vote. Exactly one Decision(commit) and one Done reach their targets.
    let participants = cluster(&[true, true]);
    let run = two_pc(1, &participants, &vec![0, 0, 1, 1, 0], &vec![0, 1]);
    assert_eq!(run.decision, Decision { tx: 1, commit: true });
    assert_eq!(run.dones, vec![Done { tx: 1 }]);
}

#[test]
fn one_done_despite_duplicate_acks() {
    // Each participant's Ack is delivered twice; the Done gate suppresses
    // every duplicate.
    let participants = cluster(&[true, true]);
    let run = two_pc(7, &participants, &vec![1, 0], &vec![0, 0, 1, 1]);
    assert_eq!(run.decision, Decision { tx: 7, commit: true });
    assert_eq!(run.dones, vec![Done { tx: 7 }]);
}

#[test]
fn any_no_vote_aborts() {
    let participants = cluster(&[true, false, true]);
    let run = two_pc(3, &participants, &vec![2, 1, 0, 1], &vec![2, 0]);
    assert_eq!(run.decision, Decision { tx: 3, commit: false });
    assert_eq!(run.dones, vec![Done { tx: 3 }]);
}

#[test]
fn reordered_deliveries_do_not_matter() {
    let participants = cluster(&[true, true, true]);
    let forward = two_pc(4, &participants, &vec![0, 1, 2], &vec![0, 1, 2]);
    let backward = two_pc(4, &participants, &vec![2, 1, 0], &vec![2, 1, 0]);
    assert_eq!(forward.decision, backward.decision);
    assert_eq!(forward.dones, backward.dones);
}

#[test]
fn decide_collapses_duplicates_first_wins() {
    // Participant 1's first vote is no; a later yes from the same
    // participant is a duplicate and must not flip the decision.
    let votes = vec![
        (0, Vote { tx: 4, yes: true }),
        (1, Vote { tx: 4, yes: false }),
        (1, Vote { tx: 4, yes: true }),
    ];
    assert_eq!(decide(4, &votes), Decision { tx: 4, commit: false });

    let all_yes_with_duplicates = vec![
        (0, Vote { tx: 4, yes: true }),
        (0, Vote { tx: 4, yes: true }),
        (1, Vote { tx: 4, yes: true }),
    ];
    assert_eq!(decide(4, &all_yes_with_duplicates), Decision { tx: 4, commit: true });
}

#[test]
fn decide_commits_on_no_votes_at_all() {
    // With nothing delivered there is no first vote to object.
    assert_eq!(decide(2, &vec![]), Decision { tx: 2, commit: true });
}

#[test]
fn coordinator_emits_one_decision_per_tx() {
    let votes = vec![(0, Vote { tx: 8, yes: true })];
    let mut coordinator = Coordinator::new();
    let first = coordinator.try_decide(8, &votes);
    let second = coordinator.try_decide(8, &votes);
    assert_eq!(first, Some(Decision { tx: 8, commit: true }));
    assert_eq!(second, None);
    // A different transaction is unaffected.
    assert_eq!(coordinator.try_decide(9, &votes), Some(Decision { tx: 9, commit: true }));
}

#[test]
fn coordinator_emits_one_done_per_tx() {
    let mut coordinator = Coordinator::new();
    assert_eq!(coordinator.on_ack(&Ack { tx: 5 }), Some(Done { tx: 5 }));
    assert_eq!(coordinator.on_ack(&Ack { tx: 5 }), None);
    assert_eq!(coordinator.on_ack(&Ack { tx: 5 }), None);
    assert_eq!(coordinator.on_ack(&Ack { tx: 6 }), Some(Done { tx: 6 }));
}

#[test]
fn client_completion_is_idempotent() {
    let mut client = Client::new();
    assert!(client.on_done(&Done { tx: 5 }));
    // Redelivered completions are absorbed without any observable change.
    assert!(!client.on_done(&Done { tx: 5 }));
    assert!(!client.on_done(&Done { tx: 5 }));
    assert!(client.on_done(&Done { tx: 11 }));
}

#[test]
fn participant_is_stateless() {
    let participant = Participant { votes_yes: true };
    let prepare = Coordinator::new().on_begin(&Begin { tx: 12 });
    assert_eq!(participant.on_prepare(&prepare), Vote { tx: 12, yes: true });
    assert_eq!(participant.on_prepare(&prepare), Vote { tx: 12, yes: true });
    let refusing = Participant { votes_yes: false };
    assert_eq!(refusing.on_prepare(&prepare), Vote { tx: 12, yes: false });
    let ack = participant.on_decision(&Decision { tx: 12, commit: true });
    assert_eq!(ack, Ack { tx: 12 });
}

#[test]
fn ping_ack_emits_one_done() {
    // The handshake is the second commit phase alone: three deliveries of
    // the ack still produce a single completion.
    let acks = vec![Ack { tx: 100 }, Ack { tx: 100 }, Ack { tx: 100 }];
    assert_eq!(ping_ack(100, &acks), vec![Done { tx: 100 }]);
    assert_eq!(ping_ack(100, &vec![Ack { tx: 100 }]), vec![Done { tx: 100 }]);
}

#[test]
fn first_wins_gate_admits_each_key_once() {
    let mut gate = FirstWins::new();
    assert!(!gate.contains(3));
    assert!(gate.offer(3));
    assert!(gate.contains(3));
    assert!(!gate.offer(3));
    assert!(gate.offer(4));
    assert!(!gate.offer(4));
}
