//! A bound on the number of scanning steps spent on one input.
//!
//! Steps are first counted in a `BatchState` and moved to the shared
//! `OperationLimiter` a thousand at a time, or when the batch is flushed.
use vstd::prelude::*;

verus! {

/// How many steps a batch holds before they are moved to the limiter.
pub const BATCH_SIZE: usize = 1000;

/// Steps counted locally and not yet moved to an `OperationLimiter`.
pub struct BatchState {
    local_count: usize,
}

impl BatchState {
    #[verifier::type_invariant]
    spec fn batch_inv(self) -> bool {
        self.local_count < BATCH_SIZE
    }

    /// The number of steps held by this batch.
    pub closed spec fn local(self) -> nat {
        self.local_count as nat
    }

    /// An empty batch.
    pub fn new() -> (r: Self)
        ensures
            r.local() == 0,
    {
        BatchState { local_count: 0 }
    }
}

impl Default for BatchState {
    fn default() -> (r: Self)
        ensures
            r.local() == 0,
    {
        Self::new()
    }
}

/// The limiter's count and the batch's count after one step is recorded: the
/// batch counts the step, and a full batch is added to the limiter's count
/// (wrapping at `usize::MAX`) and emptied.
pub open spec fn record_step(count: nat, local: nat) -> (nat, nat) {
    if local + 1 >= BATCH_SIZE {
        ((count as usize).wrapping_add(BATCH_SIZE) as nat, 0)
    } else {
        (count, local + 1)
    }
}

/// The limiter's count after a batch holding `local` steps is flushed into it.
pub open spec fn flush_step(count: nat, local: nat) -> nat {
    (count as usize).wrapping_add(local as usize) as nat
}

/// The limiter's count and the batch's count after `n` steps are recorded,
/// starting from a limiter at zero and an empty batch.
pub open spec fn records_from_zero(n: nat) -> (nat, nat)
    decreases n,
{
    if n == 0 {
        (0, 0)
    } else {
        let (count, local) = records_from_zero((n - 1) as nat);
        record_step(count, local)
    }
}

/// Steps reach the limiter in whole batches: after `n` steps recorded from
/// zero, the limiter holds `BATCH_SIZE * (n / BATCH_SIZE)`, the batch holds the
/// remaining `n % BATCH_SIZE`, and flushing the batch then gives exactly `n`.
pub proof fn law_steps_counted_in_batches(n: nat)
    requires
        n <= usize::MAX,
    ensures
        records_from_zero(n) == ((BATCH_SIZE as nat) * (n / (BATCH_SIZE as nat)), n % (BATCH_SIZE as nat)),
        flush_step(records_from_zero(n).0, records_from_zero(n).1) == n,
    decreases n,
{
    if n > 0 {
        let m = (n - 1) as nat;
        law_steps_counted_in_batches(m);
        let q = m / 1000;
        let r = m % 1000;
        vstd::arithmetic::div_mod::lemma_fundamental_div_mod(m as int, 1000);
        assert(m == 1000 * q + r && r < 1000);
        if r + 1 >= 1000 {
            assert(n / 1000 == q + 1 && n % 1000 == 0) by (nonlinear_arith)
                requires
                    n == m + 1,
                    m == 1000 * q + r,
                    r == 999,
            ;
        } else {
            assert(n / 1000 == q && n % 1000 == r + 1) by (nonlinear_arith)
                requires
                    n == m + 1,
                    m == 1000 * q + r,
                    r + 1 < 1000,
                    q >= 0,
                    r >= 0,
            ;
        }
    }
}

/// Counts scanning steps and tells whether a maximum has been exceeded.
pub struct OperationLimiter {
    operation_count: usize,
    max_operations: usize,
}

impl OperationLimiter {
    /// The number of steps moved to this limiter.
    pub closed spec fn count(self) -> nat {
        self.operation_count as nat
    }

    /// The largest count that is still within the limit.
    pub closed spec fn max(self) -> nat {
        self.max_operations as nat
    }

    /// A limiter with count zero that allows `max_ops` steps.
    pub fn new(max_ops: usize) -> (r: Self)
        requires
            max_ops > 0,
        ensures
            r.count() == 0,
            r.max() == max_ops,
    {
        OperationLimiter { operation_count: 0, max_operations: max_ops }
    }

    /// Counts one step in `batch`; a full batch is moved to the limiter.
    /// Returns whether the limiter's count is still within the limit.
    pub fn record_operation(&mut self, batch: &mut BatchState) -> (r: bool)
        ensures
            final(self).max() == old(self).max(),
            (final(self).count(), final(batch).local()) == record_step(
                old(self).count(),
                old(batch).local(),
            ),
            r == (final(self).count() <= final(self).max()),
    {
        proof {
            use_type_invariant(&*batch);
        }
        let next = batch.local_count + 1;
        if next >= BATCH_SIZE {
            self.operation_count = self.operation_count.wrapping_add(BATCH_SIZE);
            batch.local_count = 0;
        } else {
            batch.local_count = next;
        }
        self.operation_count <= self.max_operations
    }

    /// Moves the steps held by `batch` to the limiter.
    pub fn flush(&mut self, batch: &BatchState)
        ensures
            final(self).max() == old(self).max(),
            final(self).count() == flush_step(old(self).count(), batch.local()),
    {
        if batch.local_count > 0 {
            self.operation_count = self.operation_count.wrapping_add(batch.local_count);
        }
    }

    /// Whether the count is within the limit.
    pub fn is_within_limit(&self) -> (r: bool)
        ensures
            r == (self.count() <= self.max()),
    {
        self.operation_count <= self.max_operations
    }

    /// The number of steps moved to this limiter.
    pub fn get_count(&self) -> (r: usize)
        ensures
            r == self.count(),
    {
        self.operation_count
    }

    /// Sets the count back to zero.
    pub fn reset(&mut self)
        ensures
            final(self).count() == 0,
            final(self).max() == old(self).max(),
    {
        self.operation_count = 0;
    }
}

} // verus!
