//! The lock coordinator: quorum computation, token generation, and the
//! vote-counting and validity arithmetic of one acquisition round.

use vstd::prelude::*;

verus! {

/// How many milliseconds of a requested time-to-live are written off as
/// clock-drift allowance: one percent of the TTL plus a fixed two
/// milliseconds of overhead.
pub open spec fn spec_drift(ttl: int) -> int {
    ttl / 100 + 2
}

/// The remaining safe lifetime of a lock granted with time-to-live `ttl`
/// when `elapsed` milliseconds were spent in the round: the TTL minus the
/// drift allowance minus the elapsed time. May be negative, in which case
/// the attempt is void.
pub open spec fn spec_validity(ttl: int, elapsed: int) -> int {
    ttl - spec_drift(ttl) - elapsed
}

/// The number of `true` entries in a vote sequence.
pub open spec fn count_true(s: Seq<bool>) -> int
    decreases s.len(),
{
    if s.len() == 0 {
        0
    } else {
        count_true(s.drop_last()) + if s.last() {
            1int
        } else {
            0int
        }
    }
}

/// Why a lock or an extension could not be granted.
#[derive(Clone, Copy, Debug, PartialEq, Eq, Structural)]
pub enum LockError {
    /// The random source for tokens was unavailable; surfaced at once,
    /// never retried.
    TokenGenerationFailed,
    /// Quorum with positive validity was not reached within the configured
    /// number of attempts.
    Unavailable,
}

/// A granted lock: an immutable snapshot of the resource key, the secret
/// token stored at the nodes, and the estimated remaining safe lifetime at
/// the moment of the grant.
#[derive(Clone, Debug)]
pub struct Lock {
    /// The resource to lock; used as the key at every node.
    pub resource: Vec<u8>,
    /// The secret value stored under the key; nodes compare it before an
    /// extension or a release takes effect.
    pub val: Vec<u8>,
    /// Estimated remaining safe lifetime in milliseconds; strictly positive
    /// for every granted lock.
    pub validity_time: usize,
}

/// Scope wrapper around a granted lock: whoever owns the guard is expected
/// to release the contained lock exactly once when the scope ends.
#[derive(Clone, Debug)]
pub struct LockGuard {
    pub lock: Lock,
}

/// The lock coordinator: the fixed list of node endpoints, the quorum
/// derived from it, and the retry configuration.
#[derive(Clone, Debug)]
pub struct LockManager {
    /// Endpoint of every storage node, fixed at construction.
    pub servers: Vec<String>,
    /// Votes needed for a grant: `floor(N / 2) + 1` for `N` nodes.
    pub quorum: u32,
    /// Attempts per acquisition or extension round.
    pub retry_count: u32,
    /// Upper bound in milliseconds for the random backoff between attempts.
    pub retry_delay: u32,
}

impl LockManager {
    /// The quorum is what the node count dictates and is at least one.
    pub open spec fn wf(&self) -> bool {
        &&& self.quorum == self.servers@.len() / 2 + 1
        &&& self.quorum >= 1
    }

    /// Create a coordinator for the given node endpoints, with the quorum
    /// fixed at `floor(N / 2) + 1` and the default retry configuration of
    /// three attempts and a 200 ms backoff bound.
    pub fn new(servers: Vec<String>) -> (r: LockManager)
        requires
            servers@.len() < u32::MAX,
        ensures
            r.servers@ == servers@,
            r.quorum == servers@.len() / 2 + 1,
            r.retry_count == 3,
            r.retry_delay == 200,
            r.wf(),
    {
        let n = servers.len();
        let quorum = (n / 2 + 1) as u32;
        LockManager { servers, quorum, retry_count: 3, retry_delay: 200 }
    }

    /// Override the retry configuration; no bound is put on either value.
    pub fn set_retry(&mut self, count: u32, delay: u32)
        ensures
            final(self).retry_count == count,
            final(self).retry_delay == delay,
            final(self).servers@ == old(self).servers@,
            final(self).quorum == old(self).quorum,
    {
        self.retry_count = count;
        self.retry_delay = delay;
    }

    /// Draw a fresh 20-byte secret token. The only failure is an
    /// unavailable random source, surfaced as `TokenGenerationFailed`.
    pub fn get_unique_lock_id(&self) -> (r: Result<Vec<u8>, LockError>)
        ensures
            r matches Ok(t) ==> t@.len() == 20,
            r matches Err(e) ==> e == LockError::TokenGenerationFailed,
    {
        match random_bytes(20) {
            Some(t) => Ok(t),
            None => Err(LockError::TokenGenerationFailed),
        }
    }

    /// A backoff duration for the next attempt: uniformly random below the
    /// configured delay bound, and zero when that bound is zero.
    pub fn backoff_jitter(&self) -> (r: u32)
        ensures
            self.retry_delay > 0 ==> r < self.retry_delay,
            self.retry_delay == 0 ==> r == 0,
    {
        if self.retry_delay > 0 {
            draw_jitter(self.retry_delay)
        } else {
            0
        }
    }
}

/// Relies on rand's `RngCore::try_fill_bytes` on the thread-local
/// generator: on success the buffer is filled with random bytes and keeps
/// its length; on failure the random source was unavailable. Nothing can be
/// promised about the bytes themselves.
#[verifier::external_body]
fn random_bytes(n: usize) -> (r: Option<Vec<u8>>)
    ensures
        r matches Some(b) ==> b@.len() == n,
{
    let mut buf = vec![0u8; n];
    match rand::RngCore::try_fill_bytes(&mut rand::thread_rng(), &mut buf) {
        Ok(()) => Some(buf),
        Err(_) => None,
    }
}

/// Relies on rand's `Rng::gen_range` on the thread-local generator: the
/// sample lies in `[0, bound)`. The range must not be empty, else the call
/// panics.
#[verifier::external_body]
fn draw_jitter(bound: u32) -> (r: u32)
    requires
        bound > 0,
    ensures
        r < bound,
{
    rand::Rng::gen_range(&mut rand::thread_rng(), 0..bound)
}

/// Count the successful votes of one round.
pub fn count_votes(votes: &Vec<bool>) -> (n: usize)
    ensures
        n == count_true(votes@),
{
    let mut n: usize = 0;
    let mut i: usize = 0;
    while i < votes.len()
        invariant
            i <= votes@.len(),
            n == count_true(votes@.subrange(0, i as int)),
            n <= i,
        decreases votes@.len() - i,
    {
        proof {
            assert(votes@.subrange(0, i + 1).drop_last() =~= votes@.subrange(0, i as int));
            assert(votes@.subrange(0, i + 1).last() == votes@[i as int]);
        }
        if votes[i] {
            n = n + 1;
        }
        i = i + 1;
    }
    proof {
        assert(votes@.subrange(0, votes@.len() as int) =~= votes@);
    }
    n
}

/// The validity time left when a round that asked for `ttl` milliseconds
/// took `elapsed_ms`: the drift-adjusted remainder where it is positive,
/// zero where the attempt is void.
pub fn compute_validity(ttl: usize, elapsed_ms: usize) -> (r: usize)
    ensures
        r == if spec_validity(ttl as int, elapsed_ms as int) > 0 {
            spec_validity(ttl as int, elapsed_ms as int)
        } else {
            0int
        },
        ttl > 0 ==> r < ttl,
{
    let drift = ttl / 100 + 2;
    if ttl > drift && ttl - drift > elapsed_ms {
        ttl - drift - elapsed_ms
    } else {
        0
    }
}

impl LockManager {
    /// Decide one round from its outcomes: the number of successful votes
    /// and the elapsed wall-clock time. The round is granted exactly when
    /// the votes reach the quorum and the drift-adjusted validity is still
    /// positive; the granted validity is then that remainder, strictly
    /// between zero and the requested TTL.
    pub fn evaluate_round(&self, votes: &Vec<bool>, ttl: usize, elapsed_ms: usize) -> (r: Option<
        usize,
    >)
        ensures
            (r is Some) <==> (count_true(votes@) >= self.quorum && spec_validity(
                ttl as int,
                elapsed_ms as int,
            ) > 0),
            r matches Some(v) ==> v == spec_validity(ttl as int, elapsed_ms as int) && 0 < v < ttl,
    {
        let n = count_votes(votes);
        let validity = compute_validity(ttl, elapsed_ms);
        if n as u64 >= self.quorum as u64 && validity > 0 {
            Some(validity)
        } else {
            None
        }
    }
}

} // verus!
