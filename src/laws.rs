//! Laws that relate the wheel's operations to one another, stated over the
//! same spec functions that the operations' contracts use.
use crate::wheel::{filed_tick, handle_live, tick_of, Timeout};
use vstd::arithmetic::div_mod::lemma_div_is_ordered;
use vstd::prelude::*;

verus! {

/// Rounding to ticks is monotonic: a later instant never rounds to an
/// earlier tick, and equal instants round to the same tick.
pub proof fn lemma_tick_of_monotonic(start: u64, a: u64, b: u64)
    requires
        start <= a <= b,
    ensures
        tick_of(start, a) <= tick_of(start, b),
{
    lemma_div_is_ordered((a - start) as int, (b - start) as int, 1_000_000);
    lemma_div_is_ordered(
        (a - start) as int / 1_000_000 + 50,
        (b - start) as int / 1_000_000 + 50,
        100,
    );
}

/// A timeout scheduled for a tick the drain has not yet reached is filed
/// under its own tick, so it is due at every instant from its deadline on:
/// a drain at such an instant cannot report that nothing is due while the
/// timeout is still pending.
pub proof fn lemma_due_from_deadline(start: u64, cur: u64, at: u64, now: u64)
    requires
        start <= at <= now,
        tick_of(start, at) > cur,
    ensures
        filed_tick(tick_of(start, at), cur as int) <= tick_of(start, now),
{
    lemma_tick_of_monotonic(start, at, now);
}

/// A timeout is never filed before the tick of its deadline, so a drain at
/// an instant that rounds to an earlier tick never fires it.
pub proof fn lemma_not_due_before_its_tick(start: u64, cur: u64, at: u64, now: u64)
    requires
        start <= at,
        start <= now,
        tick_of(start, now) < tick_of(start, at),
    ensures
        filed_tick(tick_of(start, at), cur as int) > tick_of(start, now),
{
}

/// Of two timeouts scheduled with the drain at the same tick, or the earlier
/// one scheduled first, the one with the earlier deadline is filed no later:
/// every drain that reaches the later one's tick has the earlier one due.
pub proof fn lemma_earlier_deadline_files_no_later(
    start: u64,
    cur1: u64,
    cur2: u64,
    d1: u64,
    d2: u64,
)
    requires
        start <= d1 < d2,
        cur1 <= cur2,
    ensures
        filed_tick(tick_of(start, d1), cur1 as int) <= filed_tick(tick_of(start, d2), cur2 as int),
{
    lemma_tick_of_monotonic(start, d1, d2);
}

/// A timeout scheduled for the tick being drained, or one already passed,
/// is filed under the next tick: later than every tick drained so far, and
/// due at every instant that rounds to that next tick or beyond.
pub proof fn lemma_deferred_fires_later(start: u64, cur: u64, at: u64, now: u64)
    requires
        start <= at,
        start <= now,
        tick_of(start, at) <= cur,
        tick_of(start, now) > cur,
    ensures
        filed_tick(tick_of(start, at), cur as int) == cur + 1,
        filed_tick(tick_of(start, at), cur as int) <= tick_of(start, now),
{
}

/// Once the entry a handle names has left the wheel (fired or cancelled),
/// the handle is stale, and stays stale when its index is reused by a
/// timeout with another deadline.
pub proof fn lemma_removed_handle_is_stale<T>(
    pending: Map<usize, (u64, u64, T)>,
    h: Timeout,
    later: (u64, u64, T),
)
    requires
        later.0 != h.when_spec(),
    ensures
        !handle_live(pending.remove(h.index_spec()), h),
        !handle_live(pending.remove(h.index_spec()).insert(h.index_spec(), later), h),
{
}

/// Cancelling a live handle takes its entry out, so a second cancel of the
/// same handle finds nothing, and no later drain can hand its entry out.
pub proof fn lemma_cancel_twice<T>(pending: Map<usize, (u64, u64, T)>, h: Timeout)
    requires
        handle_live(pending, h),
    ensures
        !handle_live(pending.remove(h.index_spec()), h),
        !pending.remove(h.index_spec()).contains_key(h.index_spec()),
{
}

/// After a drain at `now` has reported nothing due (every pending tick lies
/// beyond `now`'s tick), no timeout whose deadline is at or before `now`
/// and which was filed under its own tick is still pending: it was returned
/// by an earlier call of that drain or before.
pub proof fn lemma_drained_deadline_gone<T>(
    pending: Map<usize, (u64, u64, T)>,
    start: u64,
    cur: u64,
    d: u64,
    now: u64,
    k: usize,
)
    requires
        start <= d <= now,
        tick_of(start, d) > cur,
        forall|j: usize| #[trigger]
            pending.contains_key(j) ==> pending[j].1 > tick_of(start, now),
    ensures
        !(pending.contains_key(k) && pending[k].1 == filed_tick(tick_of(start, d), cur as int)),
{
    lemma_due_from_deadline(start, cur, d, now);
}

/// Once a drain that reaches the later timeout's tick has reported nothing
/// due, the timeout with the earlier deadline (scheduled no later in drain
/// time) is no longer pending either.
pub proof fn lemma_earlier_gone_when_later_tick_drained<T>(
    pending: Map<usize, (u64, u64, T)>,
    start: u64,
    cur1: u64,
    cur2: u64,
    d1: u64,
    d2: u64,
    now: u64,
    k1: usize,
)
    requires
        start <= d1 < d2,
        cur1 <= cur2,
        start <= now,
        tick_of(start, now) >= filed_tick(tick_of(start, d2), cur2 as int),
        forall|j: usize| #[trigger]
            pending.contains_key(j) ==> pending[j].1 > tick_of(start, now),
    ensures
        !(pending.contains_key(k1) && pending[k1].1 == filed_tick(tick_of(start, d1), cur1 as int)),
{
    lemma_earlier_deadline_files_no_later(start, cur1, cur2, d1, d2);
}

} // verus!
