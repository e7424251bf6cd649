//! Log-free two-phase commit.
//!
//! One coordinator drives each transaction through two broadcast rounds over
//! a cluster of participants. Phase 1: on `Begin(tx)` the coordinator
//! broadcasts `Prepare(tx)`; every participant answers with a `Vote`. The
//! coordinator collapses the votes — first vote per participant wins, later
//! deliveries of the same participant's vote are duplicates — and commits iff
//! every counted vote is yes. Phase 2: the coordinator broadcasts the
//! `Decision`; participants answer with `Ack`, and the first `Ack` per
//! transaction releases the single `Done` notification to the client.
//!
//! The transport is at-least-once and unordered, so every aggregation step is
//! keyed by content (participant identity, transaction id), never by arrival
//! position, and emission uniqueness comes from [`crate::dedup::FirstWins`]
//! gates owned by the coordinator.

use vstd::prelude::*;

use crate::dedup::FirstWins;

verus! {

/// A transaction identifier, unique per logical transaction.
pub type TxId = u64;

/// Opens a transaction; created once by the client.
#[derive(Clone, Copy, Debug, PartialEq, Eq, Structural)]
pub struct Begin {
    pub tx: TxId,
}

/// Phase-1 broadcast from the coordinator to every participant.
#[derive(Clone, Copy, Debug, PartialEq, Eq, Structural)]
pub struct Prepare {
    pub tx: TxId,
}

/// One participant's answer to `Prepare`.
#[derive(Clone, Copy, Debug, PartialEq, Eq, Structural)]
pub struct Vote {
    pub tx: TxId,
    pub yes: bool,
}

/// The single logical outcome of a transaction: commit iff all votes were yes.
#[derive(Clone, Copy, Debug, PartialEq, Eq, Structural)]
pub struct Decision {
    pub tx: TxId,
    pub commit: bool,
}

/// One participant's acknowledgement of a `Decision`.
#[derive(Clone, Copy, Debug, PartialEq, Eq, Structural)]
pub struct Ack {
    pub tx: TxId,
}

/// The single completion notification delivered to the client.
#[derive(Clone, Copy, Debug, PartialEq, Eq, Structural)]
pub struct Done {
    pub tx: TxId,
}

/// The first vote delivered by participant `p`, if any. Later deliveries
/// from the same participant are duplicates and do not count.
pub open spec fn first_vote(votes: Seq<(u64, Vote)>, p: u64) -> Option<Vote>
    decreases votes.len(),
{
    if votes.len() == 0 {
        None
    } else if votes[0].0 == p {
        Some(votes[0].1)
    } else {
        first_vote(votes.drop_first(), p)
    }
}

/// Whether the delivered votes decide commit: every participant's first
/// (non-duplicate) vote is yes.
pub open spec fn committed(votes: Seq<(u64, Vote)>) -> bool {
    forall|p: u64| (#[trigger] first_vote(votes, p)) is Some ==> first_vote(votes, p)->Some_0.yes
}

/// Appending one more delivery never disturbs an earlier first vote, and
/// fills in the first vote of a participant not heard from before.
proof fn lemma_first_vote_push(votes: Seq<(u64, Vote)>, d: (u64, Vote), p: u64)
    ensures
        first_vote(votes.push(d), p) == if first_vote(votes, p) is Some {
            first_vote(votes, p)
        } else if d.0 == p {
            Some(d.1)
        } else {
            None::<Vote>
        },
    decreases votes.len(),
{
    if votes.len() == 0 {
        assert(votes.push(d)[0] == d);
        assert(votes.push(d).drop_first() =~= Seq::<(u64, Vote)>::empty());
        assert(first_vote(Seq::<(u64, Vote)>::empty(), p) == None::<Vote>);
    } else {
        assert(votes.push(d)[0] == votes[0]);
        assert(votes.push(d).drop_first() =~= votes.drop_first().push(d));
        lemma_first_vote_push(votes.drop_first(), d, p);
    }
}

/// A first vote is one of the delivered votes.
proof fn lemma_first_vote_delivered(votes: Seq<(u64, Vote)>, p: u64)
    requires
        first_vote(votes, p) is Some,
    ensures
        exists|i: int|
            0 <= i < votes.len() && (#[trigger] votes[i]) == (p, first_vote(votes, p)->Some_0),
    decreases votes.len(),
{
    if votes[0].0 == p {
        assert(votes[0] == (p, first_vote(votes, p)->Some_0));
    } else {
        lemma_first_vote_delivered(votes.drop_first(), p);
        let i = choose|i: int|
            0 <= i < votes.drop_first().len() && (#[trigger] votes.drop_first()[i]) == (
            p,
            first_vote(votes, p)->Some_0,
        );
        assert(votes[i + 1] == (p, first_vote(votes, p)->Some_0));
    }
}

/// A participant that was delivered at all has a first vote.
proof fn lemma_heard_from_has_first_vote(votes: Seq<(u64, Vote)>, i: int)
    requires
        0 <= i < votes.len(),
    ensures
        first_vote(votes, votes[i].0) is Some,
    decreases votes.len(),
{
    if votes[0].0 != votes[i].0 {
        lemma_heard_from_has_first_vote(votes.drop_first(), i - 1);
    }
}

/// Computes the one decision for `tx` from an epoch's delivered votes:
/// commit iff every participant's first vote is yes. Duplicate deliveries
/// are discarded by a first-wins gate keyed by participant identity, so they
/// can neither flip nor double-count the outcome.
pub fn decide(tx: TxId, votes: &Vec<(u64, Vote)>) -> (d: Decision)
    ensures
        d.tx == tx,
        d.commit == committed(votes@),
{
    let mut counted = FirstWins::new();
    let mut commit = true;
    let mut i: usize = 0;
    proof {
        assert(votes@.subrange(0, 0) =~= Seq::<(u64, Vote)>::empty());
    }
    while i < votes.len()
        invariant
            i <= votes.len(),
            counted.seen_set() == Set::new(|p: u64| first_vote(votes@.subrange(0, i as int), p) is Some),
            commit == committed(votes@.subrange(0, i as int)),
        decreases votes.len() - i,
    {
        let (p, v) = votes[i];
        let ghost pre = votes@.subrange(0, i as int);
        let fresh = counted.offer(p);
        if fresh && !v.yes {
            commit = false;
        }
        i += 1;
        proof {
            let post = votes@.subrange(0, i as int);
            assert(post =~= pre.push((p, v)));
            assert forall|q: u64| (#[trigger] first_vote(post, q)) is Some <==> (first_vote(
                pre,
                q,
            ) is Some || q == p) by {
                lemma_first_vote_push(pre, (p, v), q);
            }
            assert(counted.seen_set() =~= Set::new(|q: u64| first_vote(post, q) is Some));
            assert(committed(post) == (committed(pre) && (first_vote(pre, p) is Some || v.yes)))
                by {
                if committed(post) {
                    assert forall|q: u64| (#[trigger] first_vote(pre, q)) is Some implies first_vote(
                        pre,
                        q,
                    )->Some_0.yes by {
                        lemma_first_vote_push(pre, (p, v), q);
                        assert(first_vote(post, q) == first_vote(pre, q));
                    }
                    lemma_first_vote_push(pre, (p, v), p);
                    if first_vote(pre, p) is None {
                        assert(first_vote(post, p) == Some(v));
                    }
                }
                if committed(pre) && (first_vote(pre, p) is Some || v.yes) {
                    assert forall|q: u64| (#[trigger] first_vote(post, q)) is Some implies first_vote(
                        post,
                        q,
                    )->Some_0.yes by {
                        lemma_first_vote_push(pre, (p, v), q);
                    }
                    assert(committed(post));
                }
            }
        }
    }
    proof {
        assert(votes@.subrange(0, votes@.len() as int) =~= votes@);
    }
    Decision { tx, commit }
}

/// Decision uniqueness under duplication: re-delivering any vote that was
/// already delivered leaves the commit/abort outcome unchanged, so however
/// often the transport repeats a vote, the one logical decision for the
/// transaction keeps its value.
pub proof fn lemma_duplicate_vote_ignored(votes: Seq<(u64, Vote)>, i: int)
    requires
        0 <= i < votes.len(),
    ensures
        committed(votes.push(votes[i])) == committed(votes),
{
    let again = votes.push(votes[i]);
    lemma_heard_from_has_first_vote(votes, i);
    if committed(votes) {
        assert forall|q: u64| (#[trigger] first_vote(again, q)) is Some implies first_vote(
            again,
            q,
        )->Some_0.yes by {
            lemma_first_vote_push(votes, votes[i], q);
            assert(first_vote(again, q) == first_vote(votes, q));
        }
        assert(committed(again));
    }
    if committed(again) {
        assert forall|q: u64| (#[trigger] first_vote(votes, q)) is Some implies first_vote(
            votes,
            q,
        )->Some_0.yes by {
            lemma_first_vote_push(votes, votes[i], q);
            assert(first_vote(again, q) == first_vote(votes, q));
        }
        assert(committed(votes));
    }
}

/// The coordinator's long-lived state: one first-wins gate per emission
/// stage, so that each transaction gets one logical `Decision` and one
/// logical `Done` no matter how often the underlying replies are delivered.
pub struct Coordinator {
    decided: FirstWins,
    completed: FirstWins,
}

impl Coordinator {
    /// Transactions for which a `Decision` has already been emitted.
    pub closed spec fn decided_set(self) -> Set<TxId> {
        self.decided.seen_set()
    }

    /// Transactions for which `Done` has already been emitted.
    pub closed spec fn completed_set(self) -> Set<TxId> {
        self.completed.seen_set()
    }

    pub fn new() -> (c: Coordinator)
        ensures
            c.decided_set() == Set::<TxId>::empty(),
            c.completed_set() == Set::<TxId>::empty(),
    {
        Coordinator { decided: FirstWins::new(), completed: FirstWins::new() }
    }

    /// Phase 1 opening move: answer a `Begin` with the `Prepare` broadcast.
    pub fn on_begin(&self, b: &Begin) -> (p: Prepare)
        ensures
            p.tx == b.tx,
    {
        Prepare { tx: b.tx }
    }

    /// Emits the decision for `tx` computed from this epoch's delivered
    /// votes, the first time `tx` reaches this stage; every later attempt is
    /// a duplicate and emits nothing.
    pub fn try_decide(&mut self, tx: TxId, votes: &Vec<(u64, Vote)>) -> (d: Option<Decision>)
        ensures
            final(self).decided_set() == old(self).decided_set().insert(tx),
            final(self).completed_set() == old(self).completed_set(),
            d == if old(self).decided_set().contains(tx) {
                None::<Decision>
            } else {
                Some(Decision { tx, commit: committed(votes@) })
            },
    {
        if self.decided.offer(tx) {
            Some(decide(tx, votes))
        } else {
            None
        }
    }

    /// Phase 2 closing move: the first `Ack` for a transaction releases the
    /// single `Done` notification; every later `Ack` is absorbed.
    pub fn on_ack(&mut self, a: &Ack) -> (done: Option<Done>)
        ensures
            final(self).completed_set() == old(self).completed_set().insert(a.tx),
            final(self).decided_set() == old(self).decided_set(),
            done == if old(self).completed_set().contains(a.tx) {
                None::<Done>
            } else {
                Some(Done { tx: a.tx })
            },
    {
        if self.completed.offer(a.tx) {
            Some(Done { tx: a.tx })
        } else {
            None
        }
    }
}

/// A participant reacts statelessly to the coordinator's broadcasts; its
/// voting policy is the one pluggable piece.
#[derive(Clone, Copy, Debug, PartialEq, Eq, Structural)]
pub struct Participant {
    pub votes_yes: bool,
}

impl Participant {
    /// On `Prepare`, vote according to the local policy.
    pub fn on_prepare(&self, p: &Prepare) -> (v: Vote)
        ensures
            v == (Vote { tx: p.tx, yes: self.votes_yes }),
    {
        Vote { tx: p.tx, yes: self.votes_yes }
    }

    /// On `Decision`, acknowledge it.
    pub fn on_decision(&self, d: &Decision) -> (a: Ack)
        ensures
            a.tx == d.tx,
    {
        Ack { tx: d.tx }
    }
}

/// The client's view of its transactions: which ones have completed. It
/// relies on the coordinator's deduplication for a single logical `Done`,
/// but still absorbs transport-level redelivery idempotently.
pub struct Client {
    completed: FirstWins,
}

impl Client {
    /// Transactions this client has seen complete.
    pub closed spec fn completed_set(self) -> Set<TxId> {
        self.completed.seen_set()
    }

    pub fn new() -> (c: Client)
        ensures
            c.completed_set() == Set::<TxId>::empty(),
    {
        Client { completed: FirstWins::new() }
    }

    /// Records a completion; reports whether this delivery was the first.
    /// A repeated delivery is a no-op, never an error.
    pub fn on_done(&mut self, d: &Done) -> (newly: bool)
        ensures
            newly == !old(self).completed_set().contains(d.tx),
            final(self).completed_set() == old(self).completed_set().insert(d.tx),
    {
        self.completed.offer(d.tx)
    }
}

/// Completion idempotence: delivering `Done(tx)` a second time moves the
/// client's completed set to exactly where the first delivery left it, so
/// any number of redeliveries is observably the same as one.
pub proof fn lemma_completion_idempotent(completed: Set<TxId>, tx: TxId)
    ensures
        completed.insert(tx).insert(tx) == completed.insert(tx),
{
    assert(completed.insert(tx).insert(tx) =~= completed.insert(tx));
}

/// A ping/ack handshake: a strict subset of the second commit phase. The
/// broadcast ping comes back as the given acknowledgements, one per delivery
/// and in arrival order, and the first-wins gate collapses them to a single
/// `Done(id)` for the client, however often the transport repeats them.
pub fn ping_ack(id: u64, acks: &Vec<Ack>) -> (dones: Vec<Done>)
    requires
        acks@.len() >= 1,
        forall|j: int| 0 <= j < acks@.len() ==> (#[trigger] acks@[j]).tx == id,
    ensures
        dones@ =~= seq![Done { tx: id }],
{
    let mut coordinator = Coordinator::new();
    let mut dones: Vec<Done> = Vec::new();
    let mut k: usize = 0;
    while k < acks.len()
        invariant
            k <= acks@.len(),
            forall|j: int| 0 <= j < acks@.len() ==> (#[trigger] acks@[j]).tx == id,
            coordinator.completed_set() == if k == 0 {
                Set::<TxId>::empty()
            } else {
                Set::<TxId>::empty().insert(id)
            },
            dones@ == if k == 0 {
                Seq::<Done>::empty()
            } else {
                seq![Done { tx: id }]
            },
        decreases acks@.len() - k,
    {
        let ack = acks[k];
        match coordinator.on_ack(&ack) {
            Some(done) => {
                dones.push(done);
                proof {
                    assert(dones@ =~= seq![Done { tx: id }]);
                }
            },
            None => {
                proof {
                    assert(Set::<TxId>::empty().insert(id).insert(id) =~= Set::<
                        TxId,
                    >::empty().insert(id));
                }
            },
        }
        k += 1;
    }
    dones
}

/// Whether the delivery schedule hands the coordinator at least one reply
/// from participant `i`.
pub open spec fn heard_from(deliveries: Seq<usize>, i: int) -> bool {
    exists|j: int| 0 <= j < deliveries.len() && #[trigger] deliveries[j] == i
}

/// Everything observable at the end of one transaction's run: the single
/// decision, the `Done` notifications that actually left the coordinator,
/// and the client state after receiving them.
pub struct TwoPcRun {
    pub decision: Decision,
    pub dones: Vec<Done>,
    pub client: Client,
}

/// Drives transaction `tx` through both phases over an at-least-once,
/// unordered transport. `vote_deliveries` and `ack_deliveries` list, in
/// arrival order, whose phase-1 and phase-2 replies reach the coordinator: a
/// participant may appear any number of times (duplication) and in any order
/// (reordering), but each one is heard at least once in phase 1. Whatever the
/// delivery schedule, the run commits iff every participant votes yes, and
/// exactly one `Done` reaches the client.
pub fn two_pc(
    tx: TxId,
    participants: &Vec<Participant>,
    vote_deliveries: &Vec<usize>,
    ack_deliveries: &Vec<usize>,
) -> (r: TwoPcRun)
    requires
        participants@.len() >= 1,
        forall|j: int|
            0 <= j < vote_deliveries@.len() ==> #[trigger] vote_deliveries@[j]
                < participants@.len(),
        forall|i: int| 0 <= i < participants@.len() ==> #[trigger] heard_from(vote_deliveries@, i),
        ack_deliveries@.len() >= 1,
        forall|j: int|
            0 <= j < ack_deliveries@.len() ==> #[trigger] ack_deliveries@[j]
                < participants@.len(),
    ensures
        r.decision.tx == tx,
        r.decision.commit == (forall|i: int|
            0 <= i < participants@.len() ==> (#[trigger] participants@[i]).votes_yes),
        r.dones@ =~= seq![Done { tx }],
        r.client.completed_set() =~= Set::<TxId>::empty().insert(tx),
{
    let begin = Begin { tx };
    let mut coordinator = Coordinator::new();
    let prepare = coordinator.on_begin(&begin);

    // Phase 1: the Prepare broadcast reaches each participant once per
    // scheduled delivery; every delivery produces a vote keyed by the
    // participant's identity.
    let mut votes: Vec<(u64, Vote)> = Vec::new();
    let mut j: usize = 0;
    while j < vote_deliveries.len()
        invariant
            j <= vote_deliveries@.len(),
            votes@.len() == j,
            prepare.tx == tx,
            forall|l: int|
                0 <= l < vote_deliveries@.len() ==> #[trigger] vote_deliveries@[l]
                    < participants@.len(),
            forall|l: int|
                0 <= l < j ==> #[trigger] votes@[l] == (
                    vote_deliveries@[l] as u64,
                    Vote { tx, yes: participants@[vote_deliveries@[l] as int].votes_yes },
                ),
        decreases vote_deliveries@.len() - j,
    {
        let idx = vote_deliveries[j];
        let v = participants[idx].on_prepare(&prepare);
        votes.push((idx as u64, v));
        j += 1;
    }

    let maybe_decision = coordinator.try_decide(tx, &votes);
    let decision = maybe_decision.unwrap();

    proof {
        assert(committed(votes@) == (forall|i: int|
            0 <= i < participants@.len() ==> (#[trigger] participants@[i]).votes_yes)) by {
            if committed(votes@) {
                assert forall|i: int|
                    0 <= i < participants@.len() implies (
                #[trigger] participants@[i]).votes_yes by {
                    assert(heard_from(vote_deliveries@, i));
                    let j0 = choose|j0: int|
                        0 <= j0 < vote_deliveries@.len() && #[trigger] vote_deliveries@[j0] == i;
                    lemma_heard_from_has_first_vote(votes@, j0);
                    let p = votes@[j0].0;
                    lemma_first_vote_delivered(votes@, p);
                    let l = choose|l: int|
                        0 <= l < votes@.len() && (#[trigger] votes@[l]) == (
                        p,
                        first_vote(votes@, p)->Some_0,
                    );
                    assert(vote_deliveries@[l] as u64 == vote_deliveries@[j0] as u64);
                    assert(vote_deliveries@[l] == i);
                }
            }
            if forall|i: int|
                0 <= i < participants@.len() ==> (#[trigger] participants@[i]).votes_yes {
                assert forall|q: u64| (#[trigger] first_vote(votes@, q)) is Some implies first_vote(
                    votes@,
                    q,
                )->Some_0.yes by {
                    lemma_first_vote_delivered(votes@, q);
                    let l = choose|l: int|
                        0 <= l < votes@.len() && (#[trigger] votes@[l]) == (
                        q,
                        first_vote(votes@, q)->Some_0,
                    );
                    assert(participants@[vote_deliveries@[l] as int].votes_yes);
                }
            }
        }
    }

    // Phase 2: broadcast the decision; each delivered Ack reaches the
    // coordinator, and only the first one releases Done to the client.
    let mut dones: Vec<Done> = Vec::new();
    let mut client = Client::new();
    let mut k: usize = 0;
    while k < ack_deliveries.len()
        invariant
            k <= ack_deliveries@.len(),
            decision.tx == tx,
            forall|l: int|
                0 <= l < ack_deliveries@.len() ==> #[trigger] ack_deliveries@[l]
                    < participants@.len(),
            coordinator.completed_set() == if k == 0 {
                Set::<TxId>::empty()
            } else {
                Set::<TxId>::empty().insert(tx)
            },
            dones@ == if k == 0 {
                Seq::<Done>::empty()
            } else {
                seq![Done { tx }]
            },
            client.completed_set() == if k == 0 {
                Set::<TxId>::empty()
            } else {
                Set::<TxId>::empty().insert(tx)
            },
        decreases ack_deliveries@.len() - k,
    {
        let idx = ack_deliveries[k];
        let ack = participants[idx].on_decision(&decision);
        match coordinator.on_ack(&ack) {
            Some(done) => {
                client.on_done(&done);
                dones.push(done);
                proof {
                    assert(dones@ =~= seq![Done { tx }]);
                }
            },
            None => {
                proof {
                    assert(Set::<TxId>::empty().insert(tx).insert(tx) =~= Set::<
                        TxId,
                    >::empty().insert(tx));
                }
            },
        }
        k += 1;
    }

    TwoPcRun { decision, dones, client }
}

} // verus!
