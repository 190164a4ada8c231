//! Keeping this install's push registration alive: refresh after success,
//! back off after failure, and a refresh that can be asked for at any time.

use vstd::prelude::*;

use crate::rank::is_permutation;
use crate::rank::lemma_permutation_covers;
use crate::rank::rank_ascending;
use crate::rank::ranked_before;

verus! {

/// After a successful registration, refresh it this often (6 hours).
pub const REFRESH_INTERVAL_MS: u64 = 21_600_000;

/// First retry delay after a failed registration.
pub const INITIAL_BACKOFF_MS: u64 = 5_000;

/// Ceiling on the retry delay.
pub const MAX_BACKOFF_MS: u64 = 60_000;

/// The wait before the next registration attempt and the backoff after it:
/// success waits the refresh interval and resets the backoff; failure waits
/// the current backoff and doubles it up to [`MAX_BACKOFF_MS`].
pub fn next_registration_delay(succeeded: bool, backoff_ms: u64) -> (r: (u64, u64))
    requires
        backoff_ms <= u64::MAX / 2,
    ensures
        succeeded ==> r == (REFRESH_INTERVAL_MS, INITIAL_BACKOFF_MS),
        !succeeded ==> r.0 == backoff_ms && r.1 == (if backoff_ms * 2 < MAX_BACKOFF_MS {
            backoff_ms * 2
        } else {
            MAX_BACKOFF_MS as int
        }),
{
    if succeeded {
        (REFRESH_INTERVAL_MS, INITIAL_BACKOFF_MS)
    } else {
        let doubled = backoff_ms * 2;
        (backoff_ms, if doubled < MAX_BACKOFF_MS { doubled } else { MAX_BACKOFF_MS })
    }
}

/// The registration loop's state between attempts.
pub struct Registration {
    /// How long to sleep before the next attempt unless a refresh is asked.
    pub wait_ms: u64,
    /// The wait a failure will impose.
    pub backoff_ms: u64,
    /// A refresh was asked for since the last attempt began; asks coalesce.
    pub refresh_pending: bool,
}

/// The state after a refresh is asked for.
pub open spec fn requested_spec(r: Registration) -> Registration {
    Registration { refresh_pending: true, ..r }
}

/// The state after `k` asks.
pub open spec fn requested_times(r: Registration, k: nat) -> Registration
    decreases k,
{
    if k == 0 {
        r
    } else {
        requested_spec(requested_times(r, (k - 1) as nat))
    }
}

/// The delay before the attempt that starts in state `r`.
pub open spec fn start_delay_spec(r: Registration) -> u64 {
    if r.refresh_pending {
        0
    } else {
        r.wait_ms
    }
}

/// The state once an attempt started: the ask, if any, is consumed.
pub open spec fn started_spec(r: Registration) -> Registration {
    Registration { refresh_pending: false, ..r }
}

/// The state once an attempt finished: the wait and backoff it leaves; an
/// ask made meanwhile stays.
pub open spec fn finished_spec(r: Registration, succeeded: bool) -> Registration {
    if succeeded {
        Registration { wait_ms: REFRESH_INTERVAL_MS, backoff_ms: INITIAL_BACKOFF_MS, refresh_pending: r.refresh_pending }
    } else {
        Registration {
            wait_ms: r.backoff_ms,
            backoff_ms: if r.backoff_ms * 2 < MAX_BACKOFF_MS { (r.backoff_ms * 2) as u64 } else { MAX_BACKOFF_MS },
            refresh_pending: r.refresh_pending,
        }
    }
}

/// A registration asked for runs without waiting: whether the loop was
/// waiting or in the middle of an attempt (which then finishes either way),
/// the next attempt starts at zero delay; any number of asks gives one such
/// attempt, after which the loop waits as before.
pub proof fn law_requested_registration_runs_next(r: Registration, k: nat, during: Option<bool>)
    requires
        k >= 1,
    ensures
        requested_times(r, k) == requested_spec(r),
        ({
            let r1 = requested_times(r, k);
            let r2 = match during {
                Some(ok) => finished_spec(r1, ok),
                None => r1,
            };
            &&& start_delay_spec(r2) == 0
            &&& start_delay_spec(started_spec(r2)) == r2.wait_ms
        }),
    decreases k,
{
    assert(requested_times(r, 0) == r);
    if k > 1 {
        law_requested_registration_runs_next(r, (k - 1) as nat, None);
        assert(requested_times(r, k) == requested_spec(requested_times(r, (k - 1) as nat)));
        assert(requested_spec(requested_spec(r)) =~= requested_spec(r));
    } else {
        assert(requested_times(r, 1) == requested_spec(requested_times(r, 0)));
    }
}

impl Registration {
    /// The backoff stays between the initial delay and the ceiling.
    pub open spec fn wf(&self) -> bool {
        INITIAL_BACKOFF_MS <= self.backoff_ms <= MAX_BACKOFF_MS
    }

    /// At start the first attempt runs at once.
    pub fn new() -> (r: Registration)
        ensures
            r.wf(),
            r.wait_ms == 0,
            r.backoff_ms == INITIAL_BACKOFF_MS,
            !r.refresh_pending,
    {
        Registration { wait_ms: 0, backoff_ms: INITIAL_BACKOFF_MS, refresh_pending: false }
    }

    /// Ask for a registration now, cutting the current wait short. Asking
    /// twice before the next attempt asks once.
    pub fn request_registration(&mut self)
        ensures
            final(self).refresh_pending,
            final(self).wait_ms == old(self).wait_ms,
            final(self).backoff_ms == old(self).backoff_ms,
            *final(self) == requested_spec(*old(self)),
    {
        self.refresh_pending = true;
    }

    /// Begin the next attempt: the delay before it, zero when a refresh is
    /// pending, which is then consumed.
    pub fn start_attempt(&mut self) -> (delay_ms: u64)
        ensures
            delay_ms == if old(self).refresh_pending { 0 } else { old(self).wait_ms },
            !final(self).refresh_pending,
            final(self).wait_ms == old(self).wait_ms,
            final(self).backoff_ms == old(self).backoff_ms,
            delay_ms == start_delay_spec(*old(self)),
            *final(self) == started_spec(*old(self)),
    {
        let d = if self.refresh_pending { 0 } else { self.wait_ms };
        self.refresh_pending = false;
        d
    }

    /// Record how the attempt went.
    pub fn finish_attempt(&mut self, succeeded: bool)
        requires
            old(self).wf(),
        ensures
            final(self).wf(),
            final(self).refresh_pending == old(self).refresh_pending,
            succeeded ==> final(self).wait_ms == REFRESH_INTERVAL_MS && final(self).backoff_ms == INITIAL_BACKOFF_MS,
            !succeeded ==> final(self).wait_ms == old(self).backoff_ms && final(self).backoff_ms == (if old(self).backoff_ms * 2 < MAX_BACKOFF_MS {
                old(self).backoff_ms * 2
            } else {
                MAX_BACKOFF_MS as int
            }),
            *final(self) == finished_spec(*old(self), succeeded),
    {
        let (w, b) = next_registration_delay(succeeded, self.backoff_ms);
        self.wait_ms = w;
        self.backoff_ms = b;
    }
}

// ---------------------------------------------------------------------------
// Choosing a push gateway
// ---------------------------------------------------------------------------

/// Which gateways a registration tries, in order: ascending by id (equal
/// ids in directory order), at most `max` of them. Every gateway left out
/// ranks after every one tried.
pub fn gateway_order(ids: &Vec<[u8; 32]>, max: usize) -> (r: Vec<usize>)
    ensures
        r@.len() == if ids@.len() < max { ids@.len() as int } else { max as int },
        forall|i: int| 0 <= i < r@.len() ==> #[trigger] r@[i] < ids@.len(),
        forall|i: int, j: int| 0 <= i < j < r@.len() ==> ranked_before(ids@, r@[i] as int, r@[j] as int),
        forall|i: int, b: int|
            0 <= i < r@.len() && 0 <= b < ids@.len() && !r@.contains(b as usize)
                ==> #[trigger] ranked_before(ids@, r@[i] as int, b),
{
    let full = rank_ascending(ids);
    let ghost all = full@;
    let mut r = full;
    r.truncate(max);
    proof {
        assert forall|i: int| 0 <= i < r@.len() implies r@[i] == #[trigger] all[i] by {}
        assert forall|i: int, b: int|
            0 <= i < r@.len() && 0 <= b < ids@.len() && !r@.contains(b as usize)
                implies #[trigger] ranked_before(ids@, r@[i] as int, b) by {
            lemma_permutation_covers(all, ids@.len(), b);
            let k = choose|k: int| 0 <= k < all.len() && all[k] == b;
            if k < r@.len() {
                assert(r@[k] == b as usize);
            }
            assert(r@[i] == all[i]);
        }
        assert forall|i: int| 0 <= i < r@.len() implies #[trigger] r@[i] < ids@.len() by {
            assert(r@[i] == all[i]);
        }
    }
    r
}

/// The outcome of trying gateways in order: the first that registered, or
/// the last failure, or that there was no gateway at all.
pub open spec fn gateway_outcome_spec(results: Seq<Result<(), String>>) -> Result<int, Option<String>>
    decreases results.len(),
{
    if results.len() == 0 {
        Err(None)
    } else {
        match gateway_outcome_spec(results.drop_last()) {
            Ok(k) => Ok(k),
            Err(_) => match results.last() {
                Ok(()) => Ok(results.len() - 1),
                Err(m) => Err(Some(m)),
            },
        }
    }
}

/// Gateways are tried in order and the first that registers wins: the
/// outcome is `Ok(k)` for the first `k` that registered, whatever follows;
/// when every gateway failed it is the last one's failure; with no gateway
/// there is nothing to report.
pub proof fn law_first_registering_gateway_wins(results: Seq<Result<(), String>>)
    ensures
        forall|k: int|
            0 <= k < results.len() && (#[trigger] results[k]) is Ok && (forall|j: int| 0 <= j < k ==> results[j] is Err)
                ==> gateway_outcome_spec(results) == Ok::<int, Option<String>>(k),
        results.len() > 0 && (forall|j: int| 0 <= j < results.len() ==> (#[trigger] results[j]) is Err)
            ==> gateway_outcome_spec(results) == Err::<int, Option<String>>(Some(results.last()->Err_0)),
        results.len() == 0 ==> gateway_outcome_spec(results) == Err::<int, Option<String>>(None),
    decreases results.len(),
{
    if results.len() > 0 {
        let init = results.drop_last();
        law_first_registering_gateway_wins(init);
        assert forall|k: int|
            0 <= k < results.len() && (#[trigger] results[k]) is Ok && (forall|j: int| 0 <= j < k ==> results[j] is Err)
                implies gateway_outcome_spec(results) == Ok::<int, Option<String>>(k) by {
            if k < init.len() {
                assert(init[k] == results[k]);
                assert forall|j: int| 0 <= j < k implies init[j] is Err by {
                    assert(init[j] == results[j]);
                }
            } else {
                if init.len() > 0 {
                    assert forall|j: int| 0 <= j < init.len() implies (#[trigger] init[j]) is Err by {
                        assert(init[j] == results[j]);
                    }
                }
            }
        }
        if forall|j: int| 0 <= j < results.len() ==> (#[trigger] results[j]) is Err {
            if init.len() > 0 {
                assert forall|j: int| 0 <= j < init.len() implies (#[trigger] init[j]) is Err by {
                    assert(init[j] == results[j]);
                }
            }
            assert(results[results.len() - 1] is Err);
        }
    }
}

proof fn lemma_gateway_outcome_settled(s: Seq<Result<(), String>>, m: int, k: int)
    requires
        0 <= m <= s.len(),
        gateway_outcome_spec(s.take(m)) == Ok::<int, Option<String>>(k),
    ensures
        gateway_outcome_spec(s) == Ok::<int, Option<String>>(k),
    decreases s.len() - m,
{
    if m < s.len() {
        assert(s.take(m + 1).drop_last() =~= s.take(m));
        lemma_gateway_outcome_settled(s, m + 1, k);
    } else {
        assert(s.take(m) =~= s);
    }
}

/// Fold the gateways' answers: `Ok(k)` when the `k`-th registered, else the
/// last failure, or `None` when no gateway was tried.
pub fn gateway_outcome(results: &Vec<Result<(), String>>) -> (r: Result<usize, Option<String>>)
    ensures
        match gateway_outcome_spec(results@) {
            Ok(k) => r == Ok::<usize, Option<String>>(k as usize),
            Err(e) => r == Err::<usize, Option<String>>(e),
        },
{
    let n = results.len();
    let mut last: Option<String> = None;
    let mut k: usize = 0;
    while k < n
        invariant
            n == results@.len(),
            k <= n,
            gateway_outcome_spec(results@.take(k as int)) == Err::<int, Option<String>>(last),
        decreases n - k,
    {
        assert(results@.take(k + 1).drop_last() =~= results@.take(k as int));
        match &results[k] {
            Ok(()) => {
                proof {
                    lemma_gateway_outcome_settled(results@, k + 1, k as int);
                }
                return Ok(k);
            },
            Err(m) => {
                last = Some(m.clone());
            },
        }
        k += 1;
    }
    assert(results@.take(n as int) =~= results@);
    Err(last)
}

} // verus!
