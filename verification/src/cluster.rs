//! One protocol round against the whole set of nodes: the fan-out of a
//! primitive to every node, the tally of the votes, and the
//! rollback-on-failure semantics, together with the counting arguments
//! behind mutual exclusion — a quorum of holders leaves no quorum of free
//! nodes, and a fully lapsed or released resource is acquirable again.

use vstd::prelude::*;

use crate::lock::{count_true, spec_validity, Lock, LockError, LockManager};
use crate::node::{copy_bytes, Node};

verus! {

/// Every node's table is well formed.
pub open spec fn all_wf(nodes: Seq<Node>) -> bool {
    forall|i: int| 0 <= i < nodes.len() ==> nodes[i].wf()
}

/// How many nodes do not hold a live binding for `key` at `now` — the
/// nodes an acquisition can win.
pub open spec fn count_free(nodes: Seq<Node>, now: u64, key: Seq<u8>) -> int
    decreases nodes.len(),
{
    if nodes.len() == 0 {
        0
    } else {
        count_free(nodes.drop_last(), now, key) + if !nodes.last().live(now, key) {
            1int
        } else {
            0int
        }
    }
}

/// How many nodes hold `key` live at `now` with exactly `token` — the
/// nodes an extension can win.
pub open spec fn count_holding(nodes: Seq<Node>, now: u64, key: Seq<u8>, token: Seq<u8>) -> int
    decreases nodes.len(),
{
    if nodes.len() == 0 {
        0
    } else {
        count_holding(nodes.drop_last(), now, key, token) + if nodes.last().holds(
            now,
            key,
            token,
        ) {
            1int
        } else {
            0int
        }
    }
}

/// A node that holds the token is live, so it is not free: the two counts
/// cannot together exceed the node count.
pub proof fn lemma_holding_plus_free_within(
    nodes: Seq<Node>,
    now: u64,
    key: Seq<u8>,
    token: Seq<u8>,
)
    ensures
        count_holding(nodes, now, key, token) + count_free(nodes, now, key) <= nodes.len(),
    decreases nodes.len(),
{
    if nodes.len() > 0 {
        lemma_holding_plus_free_within(nodes.drop_last(), now, key, token);
    }
}

/// Mutual exclusion, counted: while one token is held live at a quorum of
/// nodes, the nodes left free for a competing acquisition fall short of
/// the quorum.
pub proof fn lemma_contended_below_quorum(
    nodes: Seq<Node>,
    now: u64,
    key: Seq<u8>,
    token: Seq<u8>,
    quorum: int,
)
    requires
        quorum == nodes.len() / 2 + 1,
        count_holding(nodes, now, key, token) >= quorum,
    ensures
        count_free(nodes, now, key) < quorum,
{
    lemma_holding_plus_free_within(nodes, now, key, token);
}

/// Where no node is live for `key` — after every binding lapsed or was
/// released — every node is free, and the free count reaches any quorum a
/// node set of that size can demand.
pub proof fn lemma_all_free(nodes: Seq<Node>, now: u64, key: Seq<u8>)
    requires
        forall|i: int| 0 <= i < nodes.len() ==> !nodes[i].live(now, key),
    ensures
        count_free(nodes, now, key) == nodes.len(),
        nodes.len() >= 1 ==> count_free(nodes, now, key) >= nodes.len() / 2 + 1,
    decreases nodes.len(),
{
    if nodes.len() > 0 {
        assert forall|i: int| 0 <= i < nodes.drop_last().len() implies !nodes.drop_last()[i].live(
            now,
            key,
        ) by {
            assert(nodes.drop_last()[i] == nodes[i]);
        }
        lemma_all_free(nodes.drop_last(), now, key);
    }
}

/// Where every node holds `key` live with `token`, the holder count is the
/// whole node set, which reaches any quorum it can demand.
pub proof fn lemma_all_holding(nodes: Seq<Node>, now: u64, key: Seq<u8>, token: Seq<u8>)
    requires
        forall|i: int| 0 <= i < nodes.len() ==> nodes[i].holds(now, key, token),
    ensures
        count_holding(nodes, now, key, token) == nodes.len(),
        nodes.len() >= 1 ==> count_holding(nodes, now, key, token) >= nodes.len() / 2 + 1,
    decreases nodes.len(),
{
    if nodes.len() > 0 {
        assert forall|i: int| 0 <= i < nodes.drop_last().len() implies nodes.drop_last()[i].holds(
            now,
            key,
            token,
        ) by {
            assert(nodes.drop_last()[i] == nodes[i]);
        }
        lemma_all_holding(nodes.drop_last(), now, key, token);
    }
}

/// A superseded token — held live at no node — gives an extension no vote
/// at all.
pub proof fn lemma_none_holding(nodes: Seq<Node>, now: u64, key: Seq<u8>, token: Seq<u8>)
    requires
        forall|i: int| 0 <= i < nodes.len() ==> !nodes[i].holds(now, key, token),
    ensures
        count_holding(nodes, now, key, token) == 0,
    decreases nodes.len(),
{
    if nodes.len() > 0 {
        assert forall|i: int| 0 <= i < nodes.drop_last().len() implies !nodes.drop_last()[i].holds(
            now,
            key,
            token,
        ) by {
            assert(nodes.drop_last()[i] == nodes[i]);
        }
        lemma_none_holding(nodes.drop_last(), now, key, token);
    }
}

/// Once the TTL has lapsed at every node that still carries a binding for
/// `key` — no extension refreshed it — every node is free again, so a
/// different coordinator's acquisition round sees a full quorum of free
/// nodes.
pub proof fn lemma_lapse_frees_all(nodes: Seq<Node>, now: u64, key: Seq<u8>)
    requires
        forall|i: int|
            0 <= i < nodes.len() && nodes[i].has_key(key) ==> nodes[i].stored_expiry(key) <= now,
    ensures
        count_free(nodes, now, key) == nodes.len(),
        nodes.len() >= 1 ==> count_free(nodes, now, key) >= nodes.len() / 2 + 1,
{
    assert forall|i: int| 0 <= i < nodes.len() implies !nodes[i].live(now, key) by {}
    lemma_all_free(nodes, now, key);
}

/// A token that has been superseded — wherever `key` is still bound, it is
/// bound to something else — holds no node at all, so an extension round
/// with it can never reach a quorum.
pub proof fn lemma_superseded_token(nodes: Seq<Node>, now: u64, key: Seq<u8>, token: Seq<u8>)
    requires
        forall|i: int|
            0 <= i < nodes.len() && nodes[i].has_key(key) ==> nodes[i].stored_token(key) != token,
    ensures
        count_holding(nodes, now, key, token) == 0,
{
    assert forall|i: int| 0 <= i < nodes.len() implies !nodes[i].holds(now, key, token) by {}
    lemma_none_holding(nodes, now, key, token);
}

/// After the sole holder of `key` released at every node — the state
/// change a full release fan-out guarantees — every node is free, so a
/// competing coordinator's next acquisition round sees a full quorum of
/// free nodes.
pub proof fn lemma_full_release_frees_all(
    before: Seq<Node>,
    after: Seq<Node>,
    now: u64,
    key: Seq<u8>,
    token: Seq<u8>,
)
    requires
        after.len() == before.len(),
        forall|i: int|
            0 <= i < before.len() && before[i].live(now, key) ==> before[i].stored_token(key)
                == token,
        forall|i: int|
            0 <= i < before.len() && before[i].holds(now, key, token) ==> !after[i].has_key(key),
        forall|i: int|
            0 <= i < before.len() && !before[i].holds(now, key, token) ==> after[i].entries@
                == before[i].entries@,
    ensures
        count_free(after, now, key) == after.len(),
        after.len() >= 1 ==> count_free(after, now, key) >= after.len() / 2 + 1,
{
    assert forall|i: int| 0 <= i < after.len() implies !after[i].live(now, key) by {
        if before[i].live(now, key) {
            assert(before[i].holds(now, key, token));
            assert(!after[i].has_key(key));
        } else {
            assert(!before[i].holds(now, key, token));
            assert(after[i].entries@ == before[i].entries@);
        }
    }
    lemma_all_free(after, now, key);
}

/// Votes that record, node by node, freeness for `key` tally up to the
/// free count.
pub proof fn lemma_count_free_from_votes(nodes: Seq<Node>, votes: Seq<bool>, now: u64, key: Seq<u8>)
    requires
        votes.len() == nodes.len(),
        forall|i: int| 0 <= i < nodes.len() ==> votes[i] == !nodes[i].live(now, key),
    ensures
        count_true(votes) == count_free(nodes, now, key),
    decreases nodes.len(),
{
    if nodes.len() > 0 {
        assert forall|i: int| 0 <= i < nodes.drop_last().len() implies votes.drop_last()[i] == !nodes.drop_last()[i].live(now, key) by {
            assert(nodes.drop_last()[i] == nodes[i]);
            assert(votes.drop_last()[i] == votes[i]);
        }
        lemma_count_free_from_votes(nodes.drop_last(), votes.drop_last(), now, key);
    }
}

/// Votes that record, node by node, ownership of `token` tally up to the
/// holder count.
pub proof fn lemma_count_holding_from_votes(
    nodes: Seq<Node>,
    votes: Seq<bool>,
    now: u64,
    key: Seq<u8>,
    token: Seq<u8>,
)
    requires
        votes.len() == nodes.len(),
        forall|i: int| 0 <= i < nodes.len() ==> votes[i] == nodes[i].holds(now, key, token),
    ensures
        count_true(votes) == count_holding(nodes, now, key, token),
    decreases nodes.len(),
{
    if nodes.len() > 0 {
        assert forall|i: int| 0 <= i < nodes.drop_last().len() implies votes.drop_last()[i]
            == nodes.drop_last()[i].holds(now, key, token) by {
            assert(nodes.drop_last()[i] == nodes[i]);
            assert(votes.drop_last()[i] == votes[i]);
        }
        lemma_count_holding_from_votes(nodes.drop_last(), votes.drop_last(), now, key, token);
    }
}

/// Fan the release primitive out to every node: each node that holds
/// `key` live with `token` drops its binding; every other node is left
/// exactly as it was.
pub fn release_all(nodes: &mut Vec<Node>, now: u64, key: &Vec<u8>, token: &Vec<u8>)
    requires
        all_wf(old(nodes)@),
    ensures
        all_wf(final(nodes)@),
        final(nodes)@.len() == old(nodes)@.len(),
        forall|i: int|
            0 <= i < final(nodes)@.len() ==> !final(nodes)@[i].holds(now, key@, token@),
        forall|i: int|
            0 <= i < final(nodes)@.len() && old(nodes)@[i].holds(now, key@, token@)
                ==> !final(nodes)@[i].has_key(key@),
        forall|i: int|
            0 <= i < final(nodes)@.len() && !old(nodes)@[i].holds(now, key@, token@)
                ==> final(nodes)@[i].entries@ == old(nodes)@[i].entries@,
        forall|i: int, k: Seq<u8>|
            0 <= i < final(nodes)@.len() && k != key@ ==> final(nodes)@[i].agrees_on(
                old(nodes)@[i],
                k,
            ),
{
    let ghost n0 = nodes@;
    let mut i: usize = 0;
    while i < nodes.len()
        invariant
            i <= nodes@.len(),
            nodes@.len() == n0.len(),
            all_wf(nodes@),
            forall|j: int| i <= j < n0.len() ==> nodes@[j] == n0[j],
            forall|j: int| 0 <= j < i ==> !nodes@[j].holds(now, key@, token@),
            forall|j: int|
                0 <= j < i && n0[j].holds(now, key@, token@) ==> !nodes@[j].has_key(key@),
            forall|j: int|
                0 <= j < i && !n0[j].holds(now, key@, token@) ==> nodes@[j].entries@
                    == n0[j].entries@,
            forall|j: int, k: Seq<u8>|
                0 <= j < i && k != key@ ==> nodes@[j].agrees_on(n0[j], k),
        decreases n0.len() - i,
    {
        let ghost prev = nodes@;
        let mut node = nodes.remove(i);
        let r = node.release(now, key, token);
        nodes.insert(i, node);
        proof {
            assert(nodes@ =~= prev.update(i as int, nodes@[i as int]));
            if !r {
                assert(nodes@[i as int].entries@ == n0[i as int].entries@);
                assert(!nodes@[i as int].holds(now, key@, token@));
            }
        }
        i = i + 1;
    }
}

impl LockManager {
    /// One acquisition round at instant `now`, after `elapsed_ms`
    /// milliseconds of wall-clock time were spent on it: fan the acquire
    /// primitive out to every node, tally the votes, and grant exactly
    /// when the nodes free for `resource` reach the quorum and the
    /// drift-adjusted validity is still positive. On a grant every
    /// previously free node stores `token` until `now + ttl`; on a failure
    /// every partial acquisition is rolled back, so the round never leaves
    /// `token` behind. Bindings of other keys are never touched.
    pub fn try_lock_at(
        &self,
        nodes: &mut Vec<Node>,
        now: u64,
        elapsed_ms: usize,
        resource: &Vec<u8>,
        token: &Vec<u8>,
        ttl: usize,
    ) -> (r: Result<Lock, LockError>)
        requires
            all_wf(old(nodes)@),
            now + ttl <= u64::MAX,
        ensures
            all_wf(final(nodes)@),
            final(nodes)@.len() == old(nodes)@.len(),
            (r is Ok) <==> (count_free(old(nodes)@, now, resource@) >= self.quorum
                && spec_validity(ttl as int, elapsed_ms as int) > 0),
            r matches Err(e) ==> e == LockError::Unavailable,
            r matches Ok(l) ==> l.resource@ == resource@ && l.val@ == token@
                && l.validity_time == spec_validity(ttl as int, elapsed_ms as int) && 0
                < l.validity_time < ttl,
            r is Ok ==> forall|i: int|
                0 <= i < final(nodes)@.len() && !old(nodes)@[i].live(now, resource@) ==> final(nodes)@[i].holds(now, resource@, token@) && final(nodes)@[i].stored_expiry(resource@)
                    == now + ttl,
            r is Ok ==> forall|i: int|
                0 <= i < final(nodes)@.len() && old(nodes)@[i].live(now, resource@) ==> final(nodes)@[i].entries@ == old(nodes)@[i].entries@,
            r is Err ==> forall|i: int|
                0 <= i < final(nodes)@.len() ==> !final(nodes)@[i].holds(now, resource@, token@),
            r is Err ==> forall|i: int|
                0 <= i < final(nodes)@.len() && !old(nodes)@[i].live(now, resource@) ==> !final(nodes)@[i].live(now, resource@),
            r is Err ==> forall|i: int|
                0 <= i < final(nodes)@.len() && old(nodes)@[i].live(now, resource@) && old(nodes)@[i].stored_token(resource@) != token@ ==> final(nodes)@[i].entries@ == old(nodes)@[i].entries@,
            forall|i: int, k: Seq<u8>|
                0 <= i < final(nodes)@.len() && k != resource@ ==> final(nodes)@[i].agrees_on(
                    old(nodes)@[i],
                    k,
                ),
    {
        let ghost n0 = nodes@;
        let mut votes: Vec<bool> = Vec::new();
        let mut i: usize = 0;
        while i < nodes.len()
            invariant
                i <= nodes@.len(),
                nodes@.len() == n0.len(),
                votes@.len() == i,
                all_wf(nodes@),
                now + ttl <= u64::MAX,
                forall|j: int| i <= j < n0.len() ==> nodes@[j] == n0[j],
                forall|j: int|
                    0 <= j < i ==> votes@[j] == (ttl >= 1 && !n0[j].live(now, resource@)),
                forall|j: int|
                    0 <= j < i && votes@[j] ==> nodes@[j].has_key(resource@)
                        && nodes@[j].stored_token(resource@) == token@
                        && nodes@[j].stored_expiry(resource@) == now + ttl,
                forall|j: int|
                    0 <= j < i && !votes@[j] ==> nodes@[j].entries@ == n0[j].entries@,
                forall|j: int, k: Seq<u8>|
                    0 <= j < i && k != resource@ ==> nodes@[j].agrees_on(n0[j], k),
            decreases n0.len() - i,
        {
            let ghost prev = nodes@;
            let mut node = nodes.remove(i);
            let v = node.acquire(now, resource, token, ttl);
            nodes.insert(i, node);
            proof {
                assert(nodes@ =~= prev.update(i as int, nodes@[i as int]));
            }
            votes.push(v);
            i = i + 1;
        }
        let n_ok = crate::lock::count_votes(&votes);
        let validity = crate::lock::compute_validity(ttl, elapsed_ms);
        if (n_ok as u64) >= (self.quorum as u64) && validity > 0 {
            proof {
                assert(spec_validity(ttl as int, elapsed_ms as int) > 0);
                assert(ttl >= 1);
                lemma_count_free_from_votes(n0, votes@, now, resource@);
                assert forall|i2: int|
                    0 <= i2 < nodes@.len() && !n0[i2].live(now, resource@) implies nodes@[i2].holds(
                    now,
                    resource@,
                    token@,
                ) && nodes@[i2].stored_expiry(resource@) == now + ttl by {
                    assert(votes@[i2]);
                }
                assert forall|i2: int|
                    0 <= i2 < nodes@.len() && n0[i2].live(now, resource@) implies nodes@[i2].entries@
                    == n0[i2].entries@ by {
                    assert(!votes@[i2]);
                }
            }
            Ok(
                Lock {
                    resource: copy_bytes(resource),
                    val: copy_bytes(token),
                    validity_time: validity,
                },
            )
        } else {
            let ghost n1 = nodes@;
            let ghost v1 = votes@;
            release_all(nodes, now, resource, token);
            proof {
                if spec_validity(ttl as int, elapsed_ms as int) > 0 {
                    assert(ttl >= 1);
                    lemma_count_free_from_votes(n0, v1, now, resource@);
                }
                assert forall|i2: int, k: Seq<u8>|
                    0 <= i2 < nodes@.len() && k != resource@ implies nodes@[i2].agrees_on(
                    n0[i2],
                    k,
                ) by {
                    assert(nodes@[i2].agrees_on(n1[i2], k));
                    assert(n1[i2].agrees_on(n0[i2], k));
                }
                assert forall|i2: int|
                    0 <= i2 < nodes@.len() && !n0[i2].live(now, resource@) implies !nodes@[i2].live(
                    now,
                    resource@,
                ) by {
                    if v1[i2] {
                        assert(n1[i2].holds(now, resource@, token@));
                        assert(!nodes@[i2].has_key(resource@));
                    } else {
                        assert(n1[i2].entries@ == n0[i2].entries@);
                        assert(!n1[i2].holds(now, resource@, token@));
                        assert(nodes@[i2].entries@ == n1[i2].entries@);
                    }
                }
                assert forall|i2: int|
                    0 <= i2 < nodes@.len() && n0[i2].live(now, resource@) && n0[i2].stored_token(
                        resource@,
                    ) != token@ implies nodes@[i2].entries@ == n0[i2].entries@ by {
                    assert(!v1[i2]);
                    assert(n1[i2].entries@ == n0[i2].entries@);
                    assert(!n1[i2].holds(now, resource@, token@));
                }
            }
            Err(LockError::Unavailable)
        }
    }
}

impl LockManager {
    /// Best-effort release of a granted lock at instant `now`: fan the
    /// release primitive out to every node and discard the results. Every
    /// node that still holds the lock's token drops the binding — a full
    /// release leaves no trace of the resource key at any node that the
    /// lock's token could still unlock — and every other node, and every
    /// other key, is left exactly as it was.
    pub fn unlock_at(&self, nodes: &mut Vec<Node>, now: u64, lock: &Lock)
        requires
            all_wf(old(nodes)@),
        ensures
            all_wf(final(nodes)@),
            final(nodes)@.len() == old(nodes)@.len(),
            forall|i: int|
                0 <= i < final(nodes)@.len() ==> !final(nodes)@[i].holds(
                    now,
                    lock.resource@,
                    lock.val@,
                ),
            forall|i: int|
                0 <= i < final(nodes)@.len() && old(nodes)@[i].holds(
                    now,
                    lock.resource@,
                    lock.val@,
                ) ==> !final(nodes)@[i].has_key(lock.resource@),
            forall|i: int|
                0 <= i < final(nodes)@.len() && !old(nodes)@[i].holds(
                    now,
                    lock.resource@,
                    lock.val@,
                ) ==> final(nodes)@[i].entries@ == old(nodes)@[i].entries@,
            forall|i: int, k: Seq<u8>|
                0 <= i < final(nodes)@.len() && k != lock.resource@
                    ==> final(nodes)@[i].agrees_on(old(nodes)@[i], k),
    {
        release_all(nodes, now, &lock.resource, &lock.val);
    }

    /// One extension round at instant `now`, after `elapsed_ms`
    /// milliseconds of wall-clock time were spent on it: fan the extend
    /// primitive out to every node, tally the votes, and grant exactly
    /// when the nodes still holding `token` for `resource` reach the
    /// quorum and the drift-adjusted validity is still positive. On a
    /// grant every holder's binding runs until `now + ttl`; on a failure
    /// the rollback releases the binding at every node that held `token`,
    /// so a failed extension forfeits the lock. Bindings of other keys are
    /// never touched.
    pub fn try_extend_at(
        &self,
        nodes: &mut Vec<Node>,
        now: u64,
        elapsed_ms: usize,
        resource: &Vec<u8>,
        token: &Vec<u8>,
        ttl: usize,
    ) -> (r: Result<Lock, LockError>)
        requires
            all_wf(old(nodes)@),
            now + ttl <= u64::MAX,
        ensures
            all_wf(final(nodes)@),
            final(nodes)@.len() == old(nodes)@.len(),
            (r is Ok) <==> (count_holding(old(nodes)@, now, resource@, token@) >= self.quorum
                && spec_validity(ttl as int, elapsed_ms as int) > 0),
            r matches Err(e) ==> e == LockError::Unavailable,
            r matches Ok(l) ==> l.resource@ == resource@ && l.val@ == token@
                && l.validity_time == spec_validity(ttl as int, elapsed_ms as int) && 0
                < l.validity_time < ttl,
            r is Ok ==> forall|i: int|
                0 <= i < final(nodes)@.len() && old(nodes)@[i].holds(now, resource@, token@)
                    ==> final(nodes)@[i].holds(now, resource@, token@)
                        && final(nodes)@[i].stored_expiry(resource@) == now + ttl,
            forall|i: int|
                0 <= i < final(nodes)@.len() && !old(nodes)@[i].holds(now, resource@, token@)
                    ==> final(nodes)@[i].entries@ == old(nodes)@[i].entries@,
            r is Err ==> forall|i: int|
                0 <= i < final(nodes)@.len() ==> !final(nodes)@[i].holds(now, resource@, token@),
            r is Err ==> forall|i: int|
                0 <= i < final(nodes)@.len() && old(nodes)@[i].holds(now, resource@, token@)
                    ==> !final(nodes)@[i].has_key(resource@),
            forall|i: int, k: Seq<u8>|
                0 <= i < final(nodes)@.len() && k != resource@ ==> final(nodes)@[i].agrees_on(
                    old(nodes)@[i],
                    k,
                ),
    {
        let ghost n0 = nodes@;
        let mut votes: Vec<bool> = Vec::new();
        let mut i: usize = 0;
        while i < nodes.len()
            invariant
                i <= nodes@.len(),
                nodes@.len() == n0.len(),
                votes@.len() == i,
                all_wf(nodes@),
                now + ttl <= u64::MAX,
                forall|j: int| i <= j < n0.len() ==> nodes@[j] == n0[j],
                forall|j: int|
                    0 <= j < i ==> votes@[j] == (ttl >= 1 && n0[j].holds(now, resource@, token@)),
                forall|j: int|
                    0 <= j < i && votes@[j] ==> nodes@[j].has_key(resource@)
                        && nodes@[j].stored_token(resource@) == token@
                        && nodes@[j].stored_expiry(resource@) == now + ttl,
                forall|j: int|
                    0 <= j < i && !votes@[j] ==> nodes@[j].entries@ == n0[j].entries@,
                forall|j: int, k: Seq<u8>|
                    0 <= j < i && k != resource@ ==> nodes@[j].agrees_on(n0[j], k),
            decreases n0.len() - i,
        {
            let ghost prev = nodes@;
            let mut node = nodes.remove(i);
            let v = node.extend(now, resource, token, ttl);
            nodes.insert(i, node);
            proof {
                assert(nodes@ =~= prev.update(i as int, nodes@[i as int]));
            }
            votes.push(v);
            i = i + 1;
        }
        let n_ok = crate::lock::count_votes(&votes);
        let validity = crate::lock::compute_validity(ttl, elapsed_ms);
        if (n_ok as u64) >= (self.quorum as u64) && validity > 0 {
            proof {
                assert(spec_validity(ttl as int, elapsed_ms as int) > 0);
                assert(ttl >= 1);
                lemma_count_holding_from_votes(n0, votes@, now, resource@, token@);
                assert forall|i2: int|
                    0 <= i2 < nodes@.len() && n0[i2].holds(now, resource@, token@) implies nodes@[i2].holds(
                    now,
                    resource@,
                    token@,
                ) && nodes@[i2].stored_expiry(resource@) == now + ttl by {
                    assert(votes@[i2]);
                }
                assert forall|i2: int|
                    0 <= i2 < nodes@.len() && !n0[i2].holds(now, resource@, token@) implies nodes@[i2].entries@
                    == n0[i2].entries@ by {
                    assert(!votes@[i2]);
                }
            }
            Ok(
                Lock {
                    resource: copy_bytes(resource),
                    val: copy_bytes(token),
                    validity_time: validity,
                },
            )
        } else {
            let ghost n1 = nodes@;
            let ghost v1 = votes@;
            release_all(nodes, now, resource, token);
            proof {
                if spec_validity(ttl as int, elapsed_ms as int) > 0 {
                    assert(ttl >= 1);
                    lemma_count_holding_from_votes(n0, v1, now, resource@, token@);
                }
                assert forall|i2: int, k: Seq<u8>|
                    0 <= i2 < nodes@.len() && k != resource@ implies nodes@[i2].agrees_on(
                    n0[i2],
                    k,
                ) by {
                    assert(nodes@[i2].agrees_on(n1[i2], k));
                    assert(n1[i2].agrees_on(n0[i2], k));
                }
                assert forall|i2: int|
                    0 <= i2 < nodes@.len() && n0[i2].holds(now, resource@, token@) implies !nodes@[i2].has_key(
                    resource@,
                ) by {
                    if v1[i2] {
                        assert(n1[i2].holds(now, resource@, token@));
                    } else {
                        assert(n1[i2].entries@ == n0[i2].entries@);
                        assert(n1[i2].holds(now, resource@, token@));
                    }
                }
                assert forall|i2: int|
                    0 <= i2 < nodes@.len() && !n0[i2].holds(now, resource@, token@) implies nodes@[i2].entries@
                    == n0[i2].entries@ by {
                    assert(!v1[i2]);
                    assert(n1[i2].entries@ == n0[i2].entries@);
                    assert(!n1[i2].holds(now, resource@, token@));
                }
            }
            Err(LockError::Unavailable)
        }
    }
}

} // verus!
