//! Mutual-exclusion lock service.
//!
//! A lock table maps each lock key to an optional holder; a key that was
//! never touched is free. Requests arrive in epochs: the outcome of every
//! request in an epoch is decided against the snapshot left by the previous
//! epoch, so all requests of one epoch see one consistent view, while the
//! next snapshot is the fold of the epoch's requests, in arrival order, over
//! that same snapshot. Keys are independent: a request only ever reads or
//! moves the holder of its own key.
//!
//! Outcome rule, against the pre-epoch holder of the request's key: an
//! acquire succeeds iff the key is free; a release succeeds iff the requester
//! is the holder. A failed request never changes state.

use vstd::prelude::*;

verus! {

/// One acquire or release request: `acquire == true` asks for the lock,
/// `acquire == false` gives it back.
#[derive(Debug)]
pub struct LockRequest {
    pub name: String,
    pub acquire: bool,
    pub key: usize,
}

/// The answer to one request, reported in the same epoch.
#[derive(Debug)]
pub struct LockOutcome {
    pub name: String,
    pub success: bool,
    pub key: usize,
}

/// The outcome rule: whether a request succeeds, judged against the holder
/// `h` of its key in the pre-epoch snapshot.
pub open spec fn grants(h: Option<Seq<char>>, name: Seq<char>, acquire: bool) -> bool {
    if acquire {
        h is None
    } else {
        h == Some(name)
    }
}

/// The state transition one request makes on the holder of its key: an
/// acquire takes a free lock, a release by the holder frees it, and
/// everything else leaves the holder as it is.
pub open spec fn apply_request(
    h: Option<Seq<char>>,
    name: Seq<char>,
    acquire: bool,
) -> Option<Seq<char>> {
    if acquire {
        if h is None {
            Some(name)
        } else {
            h
        }
    } else {
        if h == Some(name) {
            None
        } else {
            h
        }
    }
}

/// The holder of key `k` after an epoch's requests are folded, in arrival
/// order, over the pre-epoch holder `h` of `k`. Requests for other keys do
/// not touch `k`.
pub open spec fn fold_key(
    h: Option<Seq<char>>,
    reqs: Seq<LockRequest>,
    k: usize,
) -> Option<Seq<char>>
    decreases reqs.len(),
{
    if reqs.len() == 0 {
        h
    } else {
        let stepped = if reqs[0].key == k {
            apply_request(h, reqs[0].name@, reqs[0].acquire)
        } else {
            h
        };
        fold_key(stepped, reqs.drop_first(), k)
    }
}

proof fn lemma_fold_key_push(h: Option<Seq<char>>, reqs: Seq<LockRequest>, r: LockRequest, k: usize)
    ensures
        fold_key(h, reqs.push(r), k) == if r.key == k {
            apply_request(fold_key(h, reqs, k), r.name@, r.acquire)
        } else {
            fold_key(h, reqs, k)
        },
    decreases reqs.len(),
{
    if reqs.len() == 0 {
        reveal_with_fuel(fold_key, 3);
        assert(reqs.push(r)[0] == r);
        assert(reqs.push(r).drop_first() =~= Seq::<LockRequest>::empty());
    } else {
        assert(reqs.push(r)[0] == reqs[0]);
        assert(reqs.push(r).drop_first() =~= reqs.drop_first().push(r));
        let stepped = if reqs[0].key == k {
            apply_request(h, reqs[0].name@, reqs[0].acquire)
        } else {
            h
        };
        lemma_fold_key_push(stepped, reqs.drop_first(), r, k);
    }
}

/// Release correctness: a release of a key succeeds iff the pre-epoch holder
/// is exactly the requester; a failed release leaves the holder untouched,
/// and a successful one frees the key.
pub proof fn lemma_release_correctness(h: Option<Seq<char>>, name: Seq<char>)
    ensures
        grants(h, name, false) == (h == Some(name)),
        !grants(h, name, false) ==> apply_request(h, name, false) == h,
        grants(h, name, false) ==> apply_request(h, name, false) is None,
{
}

/// Mutual exclusion, held side: while a key is held, every acquire request
/// for it in the epoch is refused, and unless the holder itself releases the
/// key during the epoch, the next snapshot still shows the same holder — so
/// acquire attempts keep failing, epoch after epoch, until the holder lets
/// go.
pub proof fn lemma_holder_excludes(h: Option<Seq<char>>, reqs: Seq<LockRequest>, k: usize)
    requires
        h is Some,
        forall|j: int|
            0 <= j < reqs.len() ==> !((#[trigger] reqs[j]).key == k && !reqs[j].acquire
                && reqs[j].name@ == h->Some_0),
    ensures
        forall|j: int|
            0 <= j < reqs.len() && (#[trigger] reqs[j]).key == k && reqs[j].acquire ==> !grants(
                h,
                reqs[j].name@,
                reqs[j].acquire,
            ),
        fold_key(h, reqs, k) == h,
    decreases reqs.len(),
{
    if reqs.len() > 0 {
        assert(forall|j: int|
            0 <= j < reqs.drop_first().len() ==> #[trigger] reqs.drop_first()[j] == reqs[j + 1]);
        lemma_holder_excludes(h, reqs.drop_first(), k);
    }
}

/// Mutual exclusion, free side: outcomes are judged against the pre-epoch
/// snapshot, so in an epoch that carries at most one acquire request per
/// key, at most one requester is granted a freshly free key.
pub proof fn lemma_free_single_winner(reqs: Seq<LockRequest>, k: usize, i: int, j: int)
    requires
        forall|a: int, b: int|
            0 <= a < b < reqs.len() && (#[trigger] reqs[a]).key == k && reqs[a].acquire && (
            #[trigger] reqs[b]).key == k && reqs[b].acquire ==> false,
        0 <= i < reqs.len() && reqs[i].key == k && reqs[i].acquire,
        0 <= j < reqs.len() && reqs[j].key == k && reqs[j].acquire,
        grants(None, reqs[i].name@, true),
        grants(None, reqs[j].name@, true),
    ensures
        i == j,
{
}

proof fn lemma_fold_key_split(h: Option<Seq<char>>, a: Seq<LockRequest>, b: Seq<LockRequest>, k: usize)
    ensures
        fold_key(h, a + b, k) == fold_key(fold_key(h, a, k), b, k),
    decreases a.len(),
{
    if a.len() == 0 {
        assert(a + b =~= b);
    } else {
        assert((a + b)[0] == a[0]);
        assert((a + b).drop_first() =~= a.drop_first() + b);
        let stepped = if a[0].key == k {
            apply_request(h, a[0].name@, a[0].acquire)
        } else {
            h
        };
        lemma_fold_key_split(stepped, a.drop_first(), b, k);
    }
}

proof fn lemma_no_acquire_keeps_free(reqs: Seq<LockRequest>, k: usize)
    requires
        forall|j: int| 0 <= j < reqs.len() ==> !((#[trigger] reqs[j]).key == k && reqs[j].acquire),
    ensures
        fold_key(None, reqs, k) is None,
    decreases reqs.len(),
{
    if reqs.len() > 0 {
        assert(forall|j: int|
            0 <= j < reqs.drop_first().len() ==> #[trigger] reqs.drop_first()[j] == reqs[j + 1]);
        lemma_no_acquire_keeps_free(reqs.drop_first(), k);
    }
}

/// Mutual exclusion at the state level: when an epoch starts with key `k`
/// free, the fold hands `k` to the *first* acquire request in arrival order
/// — later acquires in the same epoch cannot displace it — and `k` stays
/// with that requester through the rest of the epoch unless the requester
/// itself releases it.
pub proof fn lemma_first_acquirer_wins(reqs: Seq<LockRequest>, k: usize, i: int)
    requires
        0 <= i < reqs.len(),
        reqs[i].key == k && reqs[i].acquire,
        forall|j: int| 0 <= j < i ==> !((#[trigger] reqs[j]).key == k && reqs[j].acquire),
        forall|j: int|
            i < j < reqs.len() ==> !((#[trigger] reqs[j]).key == k && !reqs[j].acquire
                && reqs[j].name@ == reqs[i].name@),
    ensures
        fold_key(None, reqs, k) == Some(reqs[i].name@),
{
    let pre = reqs.subrange(0, i);
    let suffix = reqs.subrange(i, reqs.len() as int);
    assert(reqs =~= pre + suffix);
    lemma_fold_key_split(None, pre, suffix, k);
    lemma_no_acquire_keeps_free(pre, k);
    assert(suffix[0] == reqs[i]);
    assert(suffix.drop_first() =~= reqs.subrange(i + 1, reqs.len() as int));
    assert(fold_key(None, suffix, k) == fold_key(Some(reqs[i].name@), suffix.drop_first(), k));
    assert(forall|j: int|
        0 <= j < suffix.drop_first().len() ==> #[trigger] suffix.drop_first()[j] == reqs[j + i
            + 1]);
    lemma_holder_excludes(Some(reqs[i].name@), suffix.drop_first(), k);
}

/// Epoch determinism: the outcome rule and the snapshot fold are functions
/// of the starting holder and the request contents alone, so two runs of one
/// epoch over equal snapshots and batches that agree request by request
/// cannot diverge.
pub proof fn lemma_epoch_deterministic(
    h: Option<Seq<char>>,
    reqs1: Seq<LockRequest>,
    reqs2: Seq<LockRequest>,
    k: usize,
)
    requires
        reqs1.len() == reqs2.len(),
        forall|i: int|
            0 <= i < reqs1.len() ==> (#[trigger] reqs1[i]).name@ == (#[trigger] reqs2[i]).name@
                && reqs1[i].acquire == reqs2[i].acquire && reqs1[i].key == reqs2[i].key,
    ensures
        fold_key(h, reqs1, k) == fold_key(h, reqs2, k),
        forall|i: int|
            0 <= i < reqs1.len() ==> grants(h, (#[trigger] reqs1[i]).name@, reqs1[i].acquire)
                == grants(h, (#[trigger] reqs2[i]).name@, reqs2[i].acquire),
    decreases reqs1.len(),
{
    if reqs1.len() > 0 {
        assert(forall|i: int|
            0 <= i < reqs1.drop_first().len() ==> #[trigger] reqs1.drop_first()[i] == reqs1[i
                + 1]);
        assert(forall|i: int|
            0 <= i < reqs2.drop_first().len() ==> #[trigger] reqs2.drop_first()[i] == reqs2[i
                + 1]);
        let stepped = if reqs1[0].key == k {
            apply_request(h, reqs1[0].name@, reqs1[0].acquire)
        } else {
            h
        };
        lemma_epoch_deterministic(stepped, reqs1.drop_first(), reqs2.drop_first(), k);
    }
}

/// The view of one table entry's holder slot.
spec fn slot_view(slot: Option<String>) -> Option<Seq<char>> {
    match slot {
        Some(n) => Some(n@),
        None => None,
    }
}

/// The holder of `k` in a table: the first entry for `k` settles it (there
/// is never more than one), and a key with no entry is free.
spec fn seq_holder(s: Seq<(usize, Option<String>)>, k: usize) -> Option<Seq<char>>
    decreases s.len(),
{
    if s.len() == 0 {
        None
    } else if s[0].0 == k {
        slot_view(s[0].1)
    } else {
        seq_holder(s.drop_first(), k)
    }
}

spec fn has_key(s: Seq<(usize, Option<String>)>, k: usize) -> bool {
    exists|j: int| 0 <= j < s.len() && (#[trigger] s[j]).0 == k
}

proof fn lemma_seq_holder_at(s: Seq<(usize, Option<String>)>, k: usize, i: int)
    requires
        0 <= i < s.len(),
        s[i].0 == k,
        forall|j: int| 0 <= j < i ==> s[j].0 != k,
    ensures
        seq_holder(s, k) == slot_view(s[i].1),
    decreases i,
{
    if i > 0 {
        lemma_seq_holder_at(s.drop_first(), k, i - 1);
    }
}

proof fn lemma_seq_holder_absent(s: Seq<(usize, Option<String>)>, k: usize)
    requires
        forall|j: int| 0 <= j < s.len() ==> s[j].0 != k,
    ensures
        seq_holder(s, k) is None,
    decreases s.len(),
{
    if s.len() > 0 {
        lemma_seq_holder_absent(s.drop_first(), k);
    }
}

proof fn lemma_has_key_drop_first(s: Seq<(usize, Option<String>)>, k: usize)
    requires
        s.len() > 0,
    ensures
        has_key(s, k) == (s[0].0 == k || has_key(s.drop_first(), k)),
{
    if has_key(s, k) {
        let j = choose|j: int| 0 <= j < s.len() && (#[trigger] s[j]).0 == k;
        if j > 0 {
            assert(s.drop_first()[j - 1].0 == k);
        }
    }
    if has_key(s.drop_first(), k) {
        let j = choose|j: int| 0 <= j < s.drop_first().len() && (#[trigger] s.drop_first()[j]).0
            == k;
        assert(s[j + 1].0 == k);
    }
}

proof fn lemma_seq_holder_push(s: Seq<(usize, Option<String>)>, e: (usize, Option<String>), k: usize)
    ensures
        seq_holder(s.push(e), k) == if k != e.0 {
            seq_holder(s, k)
        } else if has_key(s, e.0) {
            seq_holder(s, e.0)
        } else {
            slot_view(e.1)
        },
    decreases s.len(),
{
    if s.len() == 0 {
        reveal_with_fuel(seq_holder, 3);
        assert(s.push(e)[0] == e);
        assert(s.push(e).drop_first() =~= Seq::<(usize, Option<String>)>::empty());
        assert(!has_key(s, e.0));
    } else {
        assert(s.push(e)[0] == s[0]);
        assert(s.push(e).drop_first() =~= s.drop_first().push(e));
        lemma_has_key_drop_first(s, e.0);
        if s[0].0 == k {
            if k == e.0 {
                assert(has_key(s, e.0));
            }
        } else {
            lemma_seq_holder_push(s.drop_first(), e, k);
        }
    }
}

proof fn lemma_seq_holder_update(
    s: Seq<(usize, Option<String>)>,
    i: int,
    e: (usize, Option<String>),
    k: usize,
)
    requires
        0 <= i < s.len(),
        s[i].0 == e.0,
        forall|j: int| 0 <= j < i ==> s[j].0 != e.0,
    ensures
        seq_holder(s.update(i, e), k) == if k == e.0 {
            slot_view(e.1)
        } else {
            seq_holder(s, k)
        },
    decreases s.len(),
{
    let s2 = s.update(i, e);
    if k == e.0 {
        assert(forall|j: int| 0 <= j < i ==> s2[j].0 != e.0);
        lemma_seq_holder_at(s2, e.0, i);
    } else {
        if i == 0 {
            assert(s2[0] == e);
            assert(s2.drop_first() =~= s.drop_first());
        } else {
            assert(s2[0] == s[0]);
            if s[0].0 != k {
                assert(s2.drop_first() =~= s.drop_first().update(i - 1, e));
                assert(forall|j: int| 0 <= j < i - 1 ==> s.drop_first()[j].0 != e.0);
                lemma_seq_holder_update(s.drop_first(), i - 1, e, k);
            }
        }
    }
}

/// The lock table. Each key has at most one entry; an entry's `None` slot
/// means the key was held once and is free again.
pub struct LockServer {
    table: Vec<(usize, Option<String>)>,
}

impl LockServer {
    /// The holder of key `k` in the current snapshot, as this service's one
    /// piece of long-lived state.
    pub closed spec fn holder(self, k: usize) -> Option<Seq<char>> {
        seq_holder(self.table@, k)
    }

    /// A fresh service: every key is free.
    pub fn new() -> (s: LockServer)
        ensures
            forall|k: usize| #[trigger] s.holder(k) is None,
    {
        LockServer { table: Vec::new() }
    }

    /// The index of `key`'s entry, if it has one.
    fn find(&self, key: usize) -> (r: Option<usize>)
        ensures
            match r {
                Some(i) => i < self.table@.len() && self.table@[i as int].0 == key && forall|j: int|
                    0 <= j < i ==> self.table@[j].0 != key,
                None => forall|j: int| 0 <= j < self.table@.len() ==> self.table@[j].0 != key,
            },
    {
        let mut i: usize = 0;
        while i < self.table.len()
            invariant
                i <= self.table@.len(),
                forall|j: int| 0 <= j < i ==> self.table@[j].0 != key,
            decreases self.table@.len() - i,
        {
            if self.table[i].0 == key {
                return Some(i);
            }
            i += 1;
        }
        None
    }

    /// The current holder of `key`, if any.
    pub fn current_holder(&self, key: usize) -> (h: Option<&String>)
        ensures
            match h {
                Some(n) => self.holder(key) == Some(n@),
                None => self.holder(key) is None,
            },
    {
        match self.find(key) {
            Some(i) => {
                proof {
                    lemma_seq_holder_at(self.table@, key, i as int);
                }
                match &self.table[i].1 {
                    Some(n) => Some(n),
                    None => None,
                }
            },
            None => {
                proof {
                    lemma_seq_holder_absent(self.table@, key);
                }
                None
            },
        }
    }

    /// The outcome rule, evaluated against the current snapshot.
    fn grants_now(&self, name: &String, acquire: bool, key: usize) -> (g: bool)
        ensures
            g == grants(self.holder(key), name@, acquire),
    {
        match self.current_holder(key) {
            None => acquire,
            Some(curr) => {
                if acquire {
                    false
                } else {
                    curr.eq(name)
                }
            },
        }
    }

    /// Folds one request into the table.
    fn apply(&mut self, name: &String, acquire: bool, key: usize)
        ensures
            final(self).holder(key) == apply_request(old(self).holder(key), name@, acquire),
            forall|k2: usize| k2 != key ==> #[trigger] final(self).holder(k2) == old(self).holder(
                k2,
            ),
    {
        let ghost s0 = self.table@;
        match self.find(key) {
            Some(i) => {
                proof {
                    lemma_seq_holder_at(s0, key, i as int);
                }
                let replace: Option<Option<String>> = match &self.table[i].1 {
                    None => if acquire {
                        Some(Some(name.clone()))
                    } else {
                        None
                    },
                    Some(curr) => {
                        if !acquire && curr.eq(name) {
                            Some(None)
                        } else {
                            None
                        }
                    },
                };
                match replace {
                    Some(slot) => {
                        let ghost e = (key, slot);
                        self.table[i] = (key, slot);
                        proof {
                            assert(self.table@ =~= s0.update(i as int, e));
                            assert forall|k2: usize| #[trigger] seq_holder(self.table@, k2) == (
                            if k2 == key {
                                slot_view(e.1)
                            } else {
                                seq_holder(s0, k2)
                            }) by {
                                lemma_seq_holder_update(s0, i as int, e, k2);
                            }
                        }
                    },
                    None => {},
                }
            },
            None => {
                proof {
                    lemma_seq_holder_absent(s0, key);
                }
                if acquire {
                    let slot = Some(name.clone());
                    let ghost e = (key, slot);
                    self.table.push((key, slot));
                    proof {
                        assert(self.table@ =~= s0.push(e));
                        if has_key(s0, key) {
                            let j = choose|j: int| 0 <= j < s0.len() && (#[trigger] s0[j]).0
                                == key;
                            assert(false);
                        }
                        assert forall|k2: usize| #[trigger] seq_holder(self.table@, k2) == (
                        if k2 == key {
                            slot_view(e.1)
                        } else {
                            seq_holder(s0, k2)
                        }) by {
                            lemma_seq_holder_push(s0, e, k2);
                        }
                    }
                }
            },
        }
    }

    /// Processes one epoch: every request gets an outcome judged against the
    /// snapshot this epoch started from, and the snapshot moves to the fold
    /// of the requests, in arrival order, over that same snapshot.
    pub fn epoch(&mut self, requests: &Vec<LockRequest>) -> (outcomes: Vec<LockOutcome>)
        ensures
            outcomes@.len() == requests@.len(),
            forall|i: int|
                0 <= i < requests@.len() ==> {
                    let r = #[trigger] requests@[i];
                    let o = outcomes@[i];
                    o.name@ == r.name@ && o.key == r.key && o.success == grants(
                        old(self).holder(r.key),
                        r.name@,
                        r.acquire,
                    )
                },
            forall|k: usize| #[trigger] final(self).holder(k) == fold_key(
                old(self).holder(k),
                requests@,
                k,
            ),
    {
        let ghost snap = self.table@;

        let mut outcomes: Vec<LockOutcome> = Vec::new();
        let mut i: usize = 0;
        while i < requests.len()
            invariant
                i <= requests@.len(),
                outcomes@.len() == i,
                self.table@ == snap,
                forall|l: int|
                    0 <= l < i ==> {
                        let r = #[trigger] requests@[l];
                        let o = outcomes@[l];
                        o.name@ == r.name@ && o.key == r.key && o.success == grants(
                            seq_holder(snap, r.key),
                            r.name@,
                            r.acquire,
                        )
                    },
            decreases requests@.len() - i,
        {
            let r = &requests[i];
            let g = self.grants_now(&r.name, r.acquire, r.key);
            outcomes.push(LockOutcome { name: r.name.clone(), success: g, key: r.key });
            i += 1;
        }

        let mut f: usize = 0;
        proof {
            assert(requests@.subrange(0, 0) =~= Seq::<LockRequest>::empty());
        }
        while f < requests.len()
            invariant
                f <= requests@.len(),
                forall|k: usize| #[trigger] self.holder(k) == fold_key(
                    seq_holder(snap, k),
                    requests@.subrange(0, f as int),
                    k,
                ),
            decreases requests@.len() - f,
        {
            let r = &requests[f];
            let ghost pre = requests@.subrange(0, f as int);
            let ghost held_before = self.holder(r.key);
            self.apply(&r.name, r.acquire, r.key);
            f += 1;
            proof {
                let post = requests@.subrange(0, f as int);
                let rq = requests@[f - 1];
                assert(post =~= pre.push(rq));
                assert forall|k: usize| #[trigger] self.holder(k) == fold_key(
                    seq_holder(snap, k),
                    post,
                    k,
                ) by {
                    lemma_fold_key_push(seq_holder(snap, k), pre, rq, k);
                    if k == rq.key {
                        assert(self.holder(k) == apply_request(held_before, rq.name@, rq.acquire));
                    }
                }
            }
        }
        proof {
            assert(requests@.subrange(0, requests@.len() as int) =~= requests@);
            assert forall|k: usize| #[trigger] old(self).holder(k) == seq_holder(snap, k) by {}
        }
        outcomes
    }
}

} // verus!
