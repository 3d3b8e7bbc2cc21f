//! The timer wheel: bucketing by tick, insertion, a resumable drain,
//! cancellation with stale-handle detection, and the next-wake-up query.
//!
//! Timestamps are nanoseconds on a monotonic clock, as `u64`. The wheel is
//! created at a fixed instant, and every tick computation is relative to it.
use crate::lists::{
    head_ok, lemma_link, lemma_link_order, lemma_unlink, lemma_unlink_order, link_ok, linked,
    linked_ranks, list_wf, live_in, order_wf, pair_ok, unlinked, unlinked_heads,
};
use crate::arena::{
    arena_get, arena_insert, arena_set, arena_try_remove, arena_with_capacity, slab_links, Link,
};
use slab::Slab;
use vstd::arithmetic::div_mod::lemma_div_is_ordered;
use vstd::prelude::*;

verus! {

/// The arena index that stands for "no entry"; the arena keeps it occupied
/// by a sentinel record for the wheel's whole life.
pub const EMPTY: usize = 0;

/// Number of slots in the ring (a power of two).
pub const LEN: usize = 256;

const MASK: u64 = 255;

/// Width of one tick in milliseconds.
pub const TICK_MS: u64 = 100;

/// Nanoseconds in a millisecond.
pub const NANOS_PER_MS: u64 = 1_000_000;

/// Width of one tick in nanoseconds.
pub const TICK_NANOS: u64 = 100_000_000;

/// Half a tick in nanoseconds.
pub const HALF_TICK_NANOS: u64 = 50_000_000;

/// One more than the largest tick that any `u64` timestamp rounds to.
pub const TICK_LIMIT: u64 = 184_467_440_738;

/// Why a call was refused.
#[derive(Clone, Copy, Debug, PartialEq, Eq)]
pub enum TimerError {
    /// The tick arithmetic for the timestamp does not fit in a `u64`.
    Overflow,
}

/// A timeout that has been scheduled on a wheel; it can be handed back to
/// `cancel`. Its deadline doubles as a generation token for its arena index.
#[derive(Clone, Copy, Debug, PartialEq, Eq)]
pub struct Timeout {
    when: u64,
    slab_idx: usize,
}

#[derive(Clone, Copy, Debug)]
struct Slot {
    head: usize,
    next_timeout: Option<u64>,
}

/// A timer wheel whose timeouts each carry a payload of type `T`.
pub struct TimerWheel<T> {
    wheel: Vec<Slot>,
    slab: Slab<Link>,
    payloads: Vec<Option<T>>,
    start: u64,
    cur_wheel_tick: u64,
    cur_slab_idx: usize,
    ranks: Ghost<Map<usize, nat>>,
    clock: Ghost<nat>,
    frontier: Ghost<int>,
    cleared: Ghost<bool>,
}

/// The tick that timestamp `at` rounds to, for a wheel created at `start`:
/// whole milliseconds elapsed, rounded to the nearest tick.
pub open spec fn tick_of(start: u64, at: u64) -> int {
    ((at - start) as int / NANOS_PER_MS as int + TICK_MS as int / 2) / TICK_MS as int
}

/// The tick an entry is filed under: its own tick, or the tick after the one
/// being drained if its own has already been reached.
pub open spec fn filed_tick(natural: int, cur: int) -> int {
    if natural <= cur {
        cur + 1
    } else {
        natural
    }
}

/// The instant at which `tick` starts.
pub open spec fn tick_start(start: u64, tick: int) -> int {
    start + tick * TICK_NANOS
}

/// The ring slot of a tick.
pub open spec fn slot_of(tick: u64) -> int {
    tick as int % LEN as int
}

/// The instant from which a timeout with deadline `when`, filed under `tick`,
/// is due: the later of the tick's start and the deadline itself.
pub open spec fn due_at(start: u64, tick: int, when: u64) -> int {
    if tick_start(start, tick) > when {
        tick_start(start, tick)
    } else {
        when as int
    }
}

/// Ticks for `e` nanoseconds elapsed: whole milliseconds, rounded to the
/// nearest tick.
pub open spec fn ticks_for(e: int) -> int {
    (e / NANOS_PER_MS as int + TICK_MS as int / 2) / TICK_MS as int
}

proof fn lemma_ticks_for_monotonic(a: int, b: int)
    requires
        0 <= a <= b,
    ensures
        ticks_for(a) <= ticks_for(b),
{
    lemma_div_is_ordered(a, b, 1_000_000);
    lemma_div_is_ordered(a / 1_000_000 + 50, b / 1_000_000 + 50, 100);
}

proof fn lemma_ticks_for_tick_start(t: int)
    requires
        t >= 0,
    ensures
        ticks_for(t * TICK_NANOS) == t,
{
    assert((t * 100_000_000) / 1_000_000 == t * 100) by (nonlinear_arith)
        requires
            t >= 0,
    ;
    assert((t * 100 + 50) / 100 == t) by (nonlinear_arith)
        requires
            t >= 0,
    ;
}

/// Refreshing a slot's cache with a new timeout's due time never lifts the
/// cache above the due time of an entry already in that slot: a timeout
/// whose deadline is no later than that entry's cache cannot be filed a full
/// ring later than it.
proof fn lemma_refresh_keeps_bound(start: u64, cur: u64, at: u64, c0: u64, k_tick: u64, k_when: u64)
    requires
        start <= at <= c0,
        start <= k_when,
        k_tick >= cur,
        k_tick >= tick_of(start, k_when),
        c0 <= due_at(start, k_tick as int, k_when),
        slot_of(filed_tick(tick_of(start, at), cur as int) as u64) == slot_of(k_tick),
        filed_tick(tick_of(start, at), cur as int) >= 0,
        filed_tick(tick_of(start, at), cur as int) <= u64::MAX,
    ensures
        tick_start(start, filed_tick(tick_of(start, at), cur as int)) <= due_at(
            start,
            k_tick as int,
            k_when,
        ),
{
    let n = filed_tick(tick_of(start, at), cur as int);
    if n <= k_tick {
        assert(n * TICK_NANOS <= k_tick * TICK_NANOS) by (nonlinear_arith)
            requires
                0 <= n <= k_tick,
        ;
    } else {
        assert(n >= k_tick + 256) by {
            assert(n % 256 == k_tick % 256);
        }
        lemma_ticks_for_monotonic((at - start) as int, (c0 - start) as int);
        if c0 <= k_when {
            lemma_ticks_for_monotonic((c0 - start) as int, (k_when - start) as int);
        } else {
            lemma_ticks_for_tick_start(k_tick as int);
            lemma_ticks_for_monotonic((c0 - start) as int, k_tick * TICK_NANOS);
        }
        assert(false);
    }
}

/// Whether scheduling `at` on a wheel created at `start`, with the drain
/// cursor on tick `cur`, leaves the representable range: the deadline, or
/// the start of the tick it is filed under, plus half a tick, exceeds `u64`.
pub open spec fn insert_overflows(start: u64, cur: u64, at: u64) -> bool {
    let tick = filed_tick(tick_of(start, at), cur as int);
    at > u64::MAX - HALF_TICK_NANOS || tick_start(start, tick) > u64::MAX - HALF_TICK_NANOS
}

/// The cached minimum a slot holds after a timeout at `at`, filed under
/// `tick`, joins it: refreshed to the later of the tick's start and `at`
/// when `at` is no later than the old cache (or there is none).
pub open spec fn joined_cache(old_cache: Option<u64>, start: u64, tick: int, at: u64) -> Option<u64> {
    match old_cache {
        Some(c) if at > c => Some(c),
        _ => Some(
            if tick_start(start, tick) > at {
                tick_start(start, tick) as u64
            } else {
                at
            },
        ),
    }
}

/// Whether handle `h` names a timeout that is still pending: its index is
/// occupied by an entry with the same deadline.
pub open spec fn handle_live<T>(pending: Map<usize, (u64, u64, T)>, h: Timeout) -> bool {
    pending.contains_key(h.index_spec()) && pending[h.index_spec()].0 == h.when_spec()
}

/// Stores `data` at index `key`, padding the table with `None` as needed.
fn place<T>(payloads: &mut Vec<Option<T>>, key: usize, data: T)
    ensures
        final(payloads)@.len() > key,
        final(payloads)@.len() >= old(payloads)@.len(),
        final(payloads)@[key as int] == Some(data),
        forall|i: int|
            0 <= i < old(payloads)@.len() && i != key ==> final(payloads)@[i] == old(payloads)@[i],
{
    let ghost p0 = payloads@;
    while payloads.len() <= key
        invariant
            payloads@.len() >= p0.len(),
            forall|i: int| 0 <= i < p0.len() ==> payloads@[i] == p0[i],
        decreases key + 1 - payloads@.len(),
    {
        payloads.push(None);
    }
    payloads[key] = Some(data);
}

/// The earliest of the first `n` cached minimums, ignoring absent ones.
pub open spec fn min_cache(caches: Seq<Option<u64>>, n: int) -> Option<u64>
    decreases n,
{
    if n <= 0 {
        None
    } else {
        match (min_cache(caches, n - 1), caches[n - 1]) {
            (None, c) => c,
            (Some(a), None) => Some(a),
            (Some(a), Some(b)) => Some(
                if a <= b {
                    a
                } else {
                    b
                },
            ),
        }
    }
}

/// The fold over the caches is present once one of them is, and is no
/// later than any of them.
pub proof fn lemma_min_cache_le(caches: Seq<Option<u64>>, n: int, s: int)
    requires
        0 <= s < n,
        n <= caches.len(),
        caches[s] is Some,
    ensures
        min_cache(caches, n) matches Some(m) && m <= caches[s]->Some_0,
    decreases n,
{
    if s < n - 1 {
        lemma_min_cache_le(caches, n - 1, s);
    }
}

impl Timeout {
    /// The deadline this timeout was scheduled for.
    pub fn when(&self) -> (r: u64)
        ensures
            r == self.when_spec(),
    {
        self.when
    }

    /// The arena index of the scheduled entry.
    pub fn index(&self) -> (r: usize)
        ensures
            r == self.index_spec(),
    {
        self.slab_idx
    }

    /// The deadline token of the handle.
    pub closed spec fn when_spec(&self) -> u64 {
        self.when
    }

    /// The arena index of the handle.
    pub closed spec fn index_spec(&self) -> usize {
        self.slab_idx
    }
}

impl<T> TimerWheel<T> {
    spec fn links(&self) -> Map<usize, Link> {
        slab_links(self.slab)
    }

    spec fn live(&self, k: usize) -> bool {
        live_in(self.links(), k)
    }

    /// The pending timeouts, by arena index: deadline, filed tick, payload.
    pub closed spec fn pending(&self) -> Map<usize, (u64, u64, T)> {
        Map::new(
            |k: usize| self.live(k),
            |k: usize|
                (self.links()[k].when, self.links()[k].tick, self.payloads@[k as int]->Some_0),
        )
    }

    /// The creation instant.
    pub closed spec fn start_spec(&self) -> u64 {
        self.start
    }

    /// The tick the drain cursor stands on.
    pub closed spec fn cur_tick(&self) -> u64 {
        self.cur_wheel_tick
    }

    /// The arena index at the head of each slot's list (`EMPTY` for none).
    pub closed spec fn slot_heads(&self) -> Seq<usize> {
        self.heads()
    }

    /// The arena index of the entry the drain visits next (`EMPTY` when the
    /// current slot's list is exhausted).
    pub closed spec fn cursor_index(&self) -> usize {
        self.cur_slab_idx
    }

    /// The cached earliest deadline of each slot.
    pub closed spec fn caches(&self) -> Seq<Option<u64>> {
        Seq::new(self.wheel@.len(), |s: int| self.wheel@[s].next_timeout)
    }

    spec fn heads(&self) -> Seq<usize> {
        Seq::new(self.wheel@.len(), |s: int| self.wheel@[s].head)
    }

    spec fn entry_ok(&self, k: usize) -> bool {
        let l = self.links()[k];
        &&& self.start <= l.when <= u64::MAX - HALF_TICK_NANOS
        &&& l.tick >= tick_of(self.start, l.when)
        &&& k < self.payloads@.len()
        &&& self.payloads@[k as int] is Some
    }

    spec fn entries_wf(&self) -> bool {
        forall|k: usize| #[trigger] self.live(k) ==> self.entry_ok(k)
    }

    /// Whether pending entry `k` waits, in the slot being drained, for the
    /// drain to reach it after that slot's cached minimum was cleared.
    pub closed spec fn awaiting_drain(&self, k: usize) -> bool {
        self.cleared@ && slot_of(self.links()[k].tick) == slot_of(self.cur_wheel_tick)
            && self.ranks@[k] <= self.frontier@
    }

    /// Whether no slot's cached minimum is in the middle of being rebuilt by
    /// a drain.
    pub closed spec fn drain_settled(&self) -> bool {
        !self.cleared@
    }

    spec fn cover_at(&self, k: usize) -> bool {
        let l = self.links()[k];
        !self.awaiting_drain(k) ==> (self.caches()[slot_of(l.tick)] matches Some(c) && c <= due_at(
            self.start,
            l.tick as int,
            l.when,
        ))
    }

    spec fn cover_wf(&self) -> bool {
        forall|k: usize| #[trigger] self.live(k) ==> self.cover_at(k)
    }

    spec fn caches_wf(&self) -> bool {
        forall|s: int|
            0 <= s < self.wheel@.len() ==> ((#[trigger] self.wheel@[s]).next_timeout matches Some(c)
                ==> c <= u64::MAX - HALF_TICK_NANOS)
    }

    proof fn lemma_entries_kept(&self, other: &Self)
        requires
            self.entries_wf(),
            self.start == other.start,
            self.slab == other.slab,
            self.payloads == other.payloads,
        ensures
            other.entries_wf(),
    {
        assert forall|k: usize| #[trigger] other.live(k) implies other.entry_ok(k) by {
            assert(self.live(k));
        }
    }

    /// Drain progress: nothing is filed before the current tick; what is
    /// filed under it lies at or below the frontier rank, which the cursor
    /// heads among the entries of the current slot.
    spec fn sweep_wf(&self) -> bool {
        let cs = slot_of(self.cur_wheel_tick);
        let c = self.cur_slab_idx;
        &&& self.frontier@ < self.clock@
        &&& (c != EMPTY ==> slot_of(self.links()[c].tick) == cs && self.ranks@[c] <= self.frontier@)
        &&& forall|k: usize| #[trigger] self.live(k) ==> self.sweep_at(k)
    }

    spec fn sweep_at(&self, k: usize) -> bool {
        let cs = slot_of(self.cur_wheel_tick);
        let c = self.cur_slab_idx;
        let l = self.links()[k];
        &&& l.tick >= self.cur_wheel_tick
        &&& (l.tick == self.cur_wheel_tick ==> self.ranks@[k] <= self.frontier@)
        &&& (c == EMPTY && slot_of(l.tick) == cs ==> self.ranks@[k] > self.frontier@)
        &&& (c != EMPTY && slot_of(l.tick) == cs && self.ranks@[k] <= self.frontier@
            ==> self.ranks@[k] <= self.ranks@[c])
    }

    proof fn lemma_unlink_sweep(&self, after: Self, k: usize)
        requires
            self.wf(),
            self.live(k),
            after.links() == unlinked(self.links(), k),
            after.ranks == self.ranks,
            after.clock == self.clock,
            after.frontier == self.frontier,
            after.cur_wheel_tick == self.cur_wheel_tick,
            after.cur_slab_idx == if self.cur_slab_idx == k {
                self.links()[k].next
            } else {
                self.cur_slab_idx
            },
        ensures
            after.sweep_wf(),
    {
        lemma_unlink(self.links(), self.heads(), self.ranks@, k);
        assert(link_ok(self.links(), self.heads(), self.ranks@, k));
        let c = self.cur_slab_idx;
        if c != EMPTY {
            assert(self.live(c));
            assert(self.sweep_at(c));
        }
        assert forall|i: usize| #[trigger] after.live(i) implies after.sweep_at(i) by {
            assert(self.live(i));
            assert(self.sweep_at(i));
            assert(pair_ok(self.links(), self.ranks@, i, k));
        }
    }

    proof fn lemma_cover_kept(&self, other: &Self)
        requires
            self.cover_wf(),
            self.start == other.start,
            self.slab == other.slab,
            self.ranks == other.ranks,
            self.frontier == other.frontier,
            self.cleared == other.cleared,
            self.cur_wheel_tick == other.cur_wheel_tick,
            self.caches() == other.caches(),
        ensures
            other.cover_wf(),
    {
        assert forall|k: usize| #[trigger] other.live(k) implies other.cover_at(k) by {
            assert(self.live(k));
            assert(self.cover_at(k));
        }
    }

    proof fn lemma_clear_cover(&self, after: &Self)
        requires
            self.wf(),
            self.cur_slab_idx != EMPTY,
            self.heads()[slot_of(self.cur_wheel_tick)] == self.cur_slab_idx,
            after.start == self.start,
            after.slab == self.slab,
            after.ranks == self.ranks,
            after.frontier == self.frontier,
            after.cur_wheel_tick == self.cur_wheel_tick,
            after.cleared@,
            after.caches() == self.caches().update(slot_of(self.cur_wheel_tick), None),
        ensures
            after.cover_wf(),
    {
        let c = self.cur_slab_idx;
        assert(self.live(c));
        assert forall|k: usize| #[trigger] after.live(k) implies after.cover_at(k) by {
            assert(self.live(k));
            assert(self.cover_at(k));
            assert(live_in(self.links(), k));
        }
    }

    proof fn lemma_step_cover(&self, after: &Self, newc: u64)
        requires
            self.wf(),
            self.cur_slab_idx != EMPTY,
            after.start == self.start,
            after.slab == self.slab,
            after.ranks == self.ranks,
            after.cleared == self.cleared,
            after.cur_wheel_tick == self.cur_wheel_tick,
            after.frontier@ == self.ranks@[self.cur_slab_idx] - 1,
            newc <= self.links()[self.cur_slab_idx].when,
            self.caches()[slot_of(self.cur_wheel_tick)] matches Some(c0) ==> newc <= c0,
            after.caches() == self.caches().update(slot_of(self.cur_wheel_tick), Some(newc)),
        ensures
            after.cover_wf(),
    {
        let c = self.cur_slab_idx;
        assert(self.live(c));
        assert(self.sweep_at(c));
        assert forall|k: usize| #[trigger] after.live(k) implies after.cover_at(k) by {
            assert(self.live(k));
            assert(self.cover_at(k));
            assert(self.sweep_at(k));
            assert(pair_ok(self.links(), self.ranks@, k, c));
        }
    }

    #[verifier::rlimit(30)]
    proof fn lemma_link_cover(&self, after: Self, n: usize, ln: Link)
        requires
            self.wf(),
            n != EMPTY,
            !self.links().contains_key(n),
            ln.prev == EMPTY,
            ln.next == self.heads()[slot_of(ln.tick)],
            self.start <= ln.when,
            ln.tick == filed_tick(tick_of(self.start, ln.when), self.cur_wheel_tick as int),
            after.links() == linked(self.links(), n, ln, self.heads()[slot_of(ln.tick)]),
            after.ranks@ == linked_ranks(self.ranks@, n, self.clock@),
            after.start == self.start,
            after.frontier == self.frontier,
            after.cleared == self.cleared,
            after.cur_wheel_tick == self.cur_wheel_tick,
            after.caches() == self.caches().update(
                slot_of(ln.tick),
                joined_cache(self.caches()[slot_of(ln.tick)], self.start, ln.tick as int, ln.when),
            ),
        ensures
            after.cover_wf(),
    {
        lemma_link(self.links(), self.heads(), self.ranks@, n, ln, self.clock@);
        let idx = slot_of(ln.tick);
        let at = ln.when;
        assert forall|i: usize| #[trigger] after.live(i) implies after.cover_at(i) by {
            if i != n {
                assert(self.live(i));
                assert(self.cover_at(i));
                assert(self.sweep_at(i));
                assert(self.entry_ok(i));
                let li = self.links()[i];
                if slot_of(li.tick) == idx && !self.awaiting_drain(i) {
                    match self.caches()[idx] {
                        Some(c0) => {
                            if at <= c0 {
                                lemma_refresh_keeps_bound(
                                    self.start,
                                    self.cur_wheel_tick,
                                    at,
                                    c0,
                                    li.tick,
                                    li.when,
                                );
                            }
                        },
                        None => {},
                    }
                }
            }
        }
    }

    proof fn lemma_sweep_kept(&self, other: &Self)
        requires
            self.sweep_wf(),
            self.slab == other.slab,
            self.ranks == other.ranks,
            self.clock == other.clock,
            self.frontier == other.frontier,
            self.cur_wheel_tick == other.cur_wheel_tick,
            self.cur_slab_idx == other.cur_slab_idx,
        ensures
            other.sweep_wf(),
    {
        assert forall|k: usize| #[trigger] other.live(k) implies other.sweep_at(k) by {
            assert(self.live(k));
            assert(self.sweep_at(k));
        }
    }

    proof fn lemma_link_sweep(&self, after: Self, n: usize, ln: Link)
        requires
            self.wf(),
            n != EMPTY,
            !self.links().contains_key(n),
            ln.prev == EMPTY,
            ln.next == self.heads()[slot_of(ln.tick)],
            ln.tick > self.cur_wheel_tick,
            after.links() == linked(self.links(), n, ln, self.heads()[slot_of(ln.tick)]),
            after.ranks@ == linked_ranks(self.ranks@, n, self.clock@),
            after.clock@ == self.clock@ + 1,
            after.frontier == self.frontier,
            after.cur_wheel_tick == self.cur_wheel_tick,
            after.cur_slab_idx == self.cur_slab_idx,
        ensures
            after.sweep_wf(),
    {
        lemma_link(self.links(), self.heads(), self.ranks@, n, ln, self.clock@);
        let c = self.cur_slab_idx;
        if c != EMPTY {
            assert(self.live(c));
        }
        assert forall|i: usize| #[trigger] after.live(i) implies after.sweep_at(i) by {
            if i != n {
                assert(self.live(i));
                assert(self.sweep_at(i));
            }
        }
    }

    proof fn lemma_advance_sweep(&self, after: Self)
        requires
            self.wf(),
            self.cur_slab_idx == EMPTY,
            after.links() == self.links(),
            after.heads() == self.heads(),
            after.ranks == self.ranks,
            after.clock == self.clock,
            after.cur_wheel_tick == self.cur_wheel_tick + 1,
            after.cur_slab_idx == self.heads()[slot_of(after.cur_wheel_tick)],
            after.frontier@ == self.clock@ - 1,
            after.start == self.start,
            after.slab == self.slab,
            !after.cleared@,
            after.caches() == self.caches(),
        ensures
            after.sweep_wf(),
            after.cover_wf(),
            forall|k: usize| #[trigger] self.live(k) ==> self.links()[k].tick > self.cur_wheel_tick,
    {
        let cs = slot_of(after.cur_wheel_tick);
        assert(0 <= cs < LEN);
        assert(head_ok(self.links(), self.heads()[cs], cs));
        assert forall|k: usize| #[trigger] self.live(k) implies self.links()[k].tick
            > self.cur_wheel_tick by {
            assert(self.sweep_at(k));
        }
        assert forall|i: usize| #[trigger] after.live(i) implies after.sweep_at(i) by {
            assert(self.live(i));
            assert(self.sweep_at(i));
        }
        assert forall|i: usize| #[trigger] after.live(i) implies after.cover_at(i) by {
            assert(self.live(i));
            assert(self.sweep_at(i));
            assert(self.cover_at(i));
        }
    }

    proof fn lemma_step_sweep(&self, after: Self)
        requires
            self.wf(),
            self.cur_slab_idx != EMPTY,
            self.links()[self.cur_slab_idx].tick > self.cur_wheel_tick,
            after.links() == self.links(),
            after.ranks == self.ranks,
            after.clock == self.clock,
            after.cur_wheel_tick == self.cur_wheel_tick,
            after.cur_slab_idx == self.links()[self.cur_slab_idx].next,
            after.frontier@ == self.ranks@[self.cur_slab_idx] - 1,
        ensures
            after.sweep_wf(),
    {
        let c = self.cur_slab_idx;
        assert(self.live(c));
        assert(link_ok(self.links(), self.heads(), self.ranks@, c));
        assert forall|i: usize| #[trigger] after.live(i) implies after.sweep_at(i) by {
            assert(self.live(i));
            assert(self.sweep_at(i));
            assert(pair_ok(self.links(), self.ranks@, i, c));
        }
    }

    /// The wheel's internal invariant.
    pub closed spec fn wf(&self) -> bool {
        &&& self.wheel@.len() == LEN
        &&& self.links().contains_key(EMPTY)
        &&& self.cur_wheel_tick <= TICK_LIMIT
        &&& (self.cur_slab_idx != EMPTY ==> self.live(self.cur_slab_idx))
        &&& list_wf(self.links(), self.heads(), self.ranks@)
        &&& order_wf(self.links(), self.heads(), self.ranks@, self.clock@)
        &&& self.sweep_wf()
        &&& self.cover_wf()
        &&& self.entries_wf()
        &&& self.caches_wf()
    }

    /// Creates a wheel with no timeouts, created at instant `start`, with a
    /// ring of 256 slots and 100 ms ticks.
    pub fn new(start: u64) -> (r: TimerWheel<T>)
        ensures
            r.wf(),
            r.pending() == Map::<usize, (u64, u64, T)>::empty(),
            r.start_spec() == start,
            r.cur_tick() == 0,
            r.caches() == Seq::new(LEN as nat, |i: int| None::<u64>),
            r.drain_settled(),
    {
        let mut slab = arena_with_capacity(LEN);
        let sentinel = Link { when: 0, tick: 0, prev: EMPTY, next: EMPTY };
        let key = arena_insert(&mut slab, sentinel);
        let mut payloads: Vec<Option<T>> = Vec::new();
        payloads.push(None);
        let wheel = vec![Slot { head: EMPTY, next_timeout: None }; LEN];
        let r = TimerWheel {
            wheel,
            slab,
            payloads,
            start,
            cur_wheel_tick: 0,
            cur_slab_idx: EMPTY,
            ranks: Ghost(Map::empty()),
            clock: Ghost(0),
            frontier: Ghost(-1),
            cleared: Ghost(false),
        };
        assert(r.pending() =~= Map::empty());
        assert(r.caches() =~= Seq::new(LEN as nat, |i: int| None::<u64>));
        r
    }

    /// The tick that `at` rounds to.
    fn time_to_ticks(&self, at: u64) -> (r: u64)
        requires
            at >= self.start,
        ensures
            r == tick_of(self.start, at),
            r < TICK_LIMIT,
    {
        let ms = (at - self.start) / NANOS_PER_MS;
        let t = (ms + TICK_MS / 2) / TICK_MS;
        assert(t < TICK_LIMIT) by (nonlinear_arith)
            requires
                ms == (at - self.start) as int / 1_000_000,
                t == (ms + 50) / 100,
                at - self.start <= u64::MAX,
        ;
        t
    }

    /// The ring slot of a tick.
    fn ticks_to_wheel_idx(tick: u64) -> (r: usize)
        ensures
            r == slot_of(tick),
            r < LEN,
    {
        assert(tick & MASK == tick % 256) by (bit_vector)
            requires
                MASK == 255u64,
        ;
        (tick & MASK) as usize
    }
}


impl<T> TimerWheel<T> {
    /// Unlinks entry `k` from its slot's list, releases its arena index and
    /// hands back its payload; an index that holds no entry gives `None` and
    /// changes nothing. The slot's cached minimum is left as it is.
    fn remove_slab(&mut self, k: usize) -> (r: Option<T>)
        requires
            old(self).wf(),
        ensures
            final(self).wf(),
            old(self).live(k) ==> r == Some(old(self).pending()[k].2) && final(self).pending()
                == old(self).pending().remove(k),
            !old(self).live(k) ==> r is None && *final(self) == *old(self),
            final(self).start == old(self).start,
            final(self).cur_wheel_tick == old(self).cur_wheel_tick,
            final(self).caches() == old(self).caches(),
            final(self).ranks == old(self).ranks,
            final(self).clock == old(self).clock,
            final(self).frontier == old(self).frontier,
            final(self).cleared == old(self).cleared,
            old(self).cur_slab_idx != k ==> final(self).cur_slab_idx == old(self).cur_slab_idx,
    {
        if k == EMPTY {
            return None;
        }
        if arena_get(&self.slab, k).is_none() {
            return None;
        }
        assert(self.live(k));
        let ghost old_self = *self;
        proof {
            lemma_unlink(self.links(), self.heads(), self.ranks@, k);
            lemma_unlink_order(self.links(), self.heads(), self.ranks@, self.clock@, k);
            assert(link_ok(self.links(), self.heads(), self.ranks@, k));
        }
        let l = arena_try_remove(&mut self.slab, k).unwrap();
        if l.prev == EMPTY {
            let idx = Self::ticks_to_wheel_idx(l.tick);
            self.wheel[idx].head = l.next;
        } else {
            let mut p = arena_get(&self.slab, l.prev).unwrap();
            p.next = l.next;
            arena_set(&mut self.slab, l.prev, p);
        }
        if l.next != EMPTY {
            let mut n = arena_get(&self.slab, l.next).unwrap();
            n.prev = l.prev;
            arena_set(&mut self.slab, l.next, n);
        }
        if self.cur_slab_idx == k {
            self.cur_slab_idx = l.next;
        }
        let data = self.payloads[k].take().unwrap();
        proof {
            assert(self.links() =~= unlinked(old_self.links(), k));
            assert(self.heads() =~= unlinked_heads(old_self.links(), old_self.heads(), k));
            assert(self.caches() =~= old_self.caches());
            assert(self.links().contains_key(EMPTY));
            assert(self.cur_slab_idx != EMPTY ==> self.live(self.cur_slab_idx));
            assert(list_wf(self.links(), self.heads(), self.ranks@));
            assert forall|j: usize| #[trigger] self.live(j) implies self.entry_ok(j) by {
                assert(old_self.live(j));
            }
            assert(self.entries_wf());
            assert(self.caches_wf());
            assert(order_wf(self.links(), self.heads(), self.ranks@, self.clock@));
            old_self.lemma_unlink_sweep(*self, k);
            assert forall|i: usize| #[trigger] self.live(i) implies self.cover_at(i) by {
                assert(old_self.live(i));
                assert(old_self.cover_at(i));
            }
            assert(self.pending() =~= old_self.pending().remove(k));
        }
        Some(data)
    }
}

impl<T> TimerWheel<T> {
    /// Schedules `data` to fire at `at`.
    ///
    /// The entry is filed under the tick that `at` rounds to, or, when the
    /// drain has already reached that tick, under the next one, so that it
    /// still fires on a later drain. The returned handle can cancel it.
    #[verifier::rlimit(60)]
    pub fn insert(&mut self, at: u64, data: T) -> (r: Result<Timeout, TimerError>)
        requires
            old(self).wf(),
            at >= old(self).start_spec(),
        ensures
            final(self).wf(),
            final(self).start_spec() == old(self).start_spec(),
            final(self).cur_tick() == old(self).cur_tick(),
            final(self).cursor_index() == old(self).cursor_index(),
            final(self).drain_settled() == old(self).drain_settled(),
            insert_overflows(
                old(self).start_spec(),
                old(self).cur_tick(),
                at,
            ) ==> r == Err::<Timeout, TimerError>(TimerError::Overflow) && final(self).pending()
                == old(self).pending(),
            !insert_overflows(
                old(self).start_spec(),
                old(self).cur_tick(),
                at,
            ) ==> (r matches Ok(h) && h.when_spec() == at && h.index_spec() != EMPTY
                && final(self).slot_heads() == old(self).slot_heads().update(
                slot_of(
                    filed_tick(
                        tick_of(old(self).start_spec(), at),
                        old(self).cur_tick() as int,
                    ) as u64,
                ),
                h.index_spec(),
            )
                && !old(self).pending().contains_key(h.index_spec()) && final(self).pending()
                == old(self).pending().insert(
                h.index_spec(),
                (
                    at,
                    filed_tick(
                        tick_of(old(self).start_spec(), at),
                        old(self).cur_tick() as int,
                    ) as u64,
                    data,
                ),
            ) && final(self).caches() == old(self).caches().update(
                slot_of(
                    filed_tick(
                        tick_of(old(self).start_spec(), at),
                        old(self).cur_tick() as int,
                    ) as u64,
                ),
                joined_cache(
                    old(self).caches()[slot_of(
                        filed_tick(
                            tick_of(old(self).start_spec(), at),
                            old(self).cur_tick() as int,
                        ) as u64,
                    )],
                    old(self).start_spec(),
                    filed_tick(tick_of(old(self).start_spec(), at), old(self).cur_tick() as int),
                    at,
                ),
            )),
    {
        let natural = self.time_to_ticks(at);
        let tick = if natural <= self.cur_wheel_tick {
            self.cur_wheel_tick + 1
        } else {
            natural
        };
        let floor = match tick.checked_mul(TICK_NANOS) {
            Some(x) => match x.checked_add(self.start) {
                Some(y) => y,
                None => return Err(TimerError::Overflow),
            },
            None => return Err(TimerError::Overflow),
        };
        if floor > u64::MAX - HALF_TICK_NANOS || at > u64::MAX - HALF_TICK_NANOS {
            return Err(TimerError::Overflow);
        }
        let floor_at = if floor > at {
            floor
        } else {
            at
        };
        let ghost old_self = *self;
        let idx = Self::ticks_to_wheel_idx(tick);
        let prev_head = self.wheel[idx].head;
        let ln = Link { when: at, tick, prev: EMPTY, next: prev_head };
        let key = arena_insert(&mut self.slab, ln);
        proof {
            assert(old_self.heads()[idx as int] == prev_head);
            lemma_link(old_self.links(), old_self.heads(), old_self.ranks@, key, ln, self.clock@);
            lemma_link_order(old_self.links(), old_self.heads(), old_self.ranks@, self.clock@, key, ln);
            if prev_head != EMPTY {
                assert(old_self.live(prev_head));
            }
        }
        place(&mut self.payloads, key, data);
        if prev_head != EMPTY {
            let mut h = arena_get(&self.slab, prev_head).unwrap();
            h.prev = key;
            arena_set(&mut self.slab, prev_head, h);
        }
        self.wheel[idx].head = key;
        let refresh = match self.wheel[idx].next_timeout {
            Some(c) => at <= c,
            None => true,
        };
        if refresh {
            self.wheel[idx].next_timeout = Some(floor_at);
        }
        self.ranks = Ghost(linked_ranks(self.ranks@, key, self.clock@));
        self.clock = Ghost(self.clock@ + 1);
        proof {
            assert(self.links() =~= linked(old_self.links(), key, ln, prev_head));
            assert(self.heads() =~= old_self.heads().update(idx as int, key));
            old_self.lemma_link_sweep(*self, key, ln);
            assert(self.caches() =~= old_self.caches().update(
                idx as int,
                joined_cache(old_self.caches()[idx as int], self.start, tick as int, at),
            ));
            old_self.lemma_link_cover(*self, key, ln);
            assert(self.links().contains_key(EMPTY));
            assert(self.cur_slab_idx != EMPTY ==> self.live(self.cur_slab_idx));
            assert forall|j: usize| #[trigger] self.live(j) implies self.entry_ok(j) by {
                if j != key {
                    assert(old_self.live(j));
                }
            }
            assert(self.entries_wf());
            assert(self.caches_wf());
            assert forall|j: usize| #[trigger] self.pending().contains_key(j) && j != key implies self.pending()[j]
                == old_self.pending()[j] by {
                assert(old_self.live(j));
            }
            assert(self.pending() =~= old_self.pending().insert(
                key,
                (at, tick, data),
            ));
        }
        Ok(Timeout { when: at, slab_idx: key })
    }

    /// Cancels the timeout named by `timeout`, handing back its payload if it
    /// was still pending. A handle whose timeout has fired or been cancelled,
    /// or whose index now holds another entry, yields `None`.
    pub fn cancel(&mut self, timeout: &Timeout) -> (r: Option<T>)
        requires
            old(self).wf(),
        ensures
            final(self).wf(),
            final(self).start_spec() == old(self).start_spec(),
            final(self).cur_tick() == old(self).cur_tick(),
            final(self).caches() == old(self).caches(),
            final(self).drain_settled() == old(self).drain_settled(),
            handle_live(old(self).pending(), *timeout) ==> r == Some(
                old(self).pending()[timeout.index_spec()].2,
            ) && final(self).pending() == old(self).pending().remove(timeout.index_spec()),
            !handle_live(old(self).pending(), *timeout) ==> r is None && final(self).pending()
                == old(self).pending(),
    {
        if timeout.slab_idx == EMPTY {
            return None;
        }
        match arena_get(&self.slab, timeout.slab_idx) {
            Some(e) => {
                if e.when != timeout.when {
                    return None;
                }
            },
            None => return None,
        }
        self.remove_slab(timeout.slab_idx)
    }
}

impl<T> TimerWheel<T> {
    /// Advances the wheel to the instant `at` and hands back the payload of
    /// one timeout that is due by then, if there is one. Call it until it
    /// returns `Ok(None)` to fire everything due at `at`.
    pub fn poll(&mut self, at: u64) -> (r: Option<T>)
        requires
            old(self).wf(),
            at >= old(self).start_spec(),
        ensures
            final(self).wf(),
            final(self).start_spec() == old(self).start_spec(),
            final(self).cur_tick() >= old(self).cur_tick(),
            r is None ==> final(self).pending() == old(self).pending(),
            r is None && old(self).cur_tick() <= tick_of(old(self).start_spec(), at)
                ==> final(self).drain_settled(),
            r is None ==> final(self).cur_tick() == if old(self).cur_tick() > tick_of(
                old(self).start_spec(),
                at,
            ) {
                old(self).cur_tick() as int
            } else {
                tick_of(old(self).start_spec(), at) + 1
            },
            r is None ==> forall|k: usize| #[trigger]
                old(self).pending().contains_key(k) ==> old(self).pending()[k].1 > tick_of(
                    old(self).start_spec(),
                    at,
                ),
            r is Some ==> final(self).cur_tick() <= old(self).cur_tick() || final(self).cur_tick()
                <= tick_of(old(self).start_spec(), at),
            r matches Some(data) ==> exists|k: usize|
                #[trigger] old(self).pending().contains_key(k) && old(self).pending()[k].1
                    <= tick_of(old(self).start_spec(), at) && data == old(self).pending()[k].2
                    && final(self).pending() == old(self).pending().remove(k),
    {
        let ghost old_self = *self;
        let target = self.time_to_ticks(at);
        while self.cur_wheel_tick <= target
            invariant
                self.wf(),
                self.pending() == old_self.pending(),
                self.start == old_self.start,
                self.cur_wheel_tick >= old_self.cur_wheel_tick,
                self.cur_wheel_tick == old_self.cur_wheel_tick || self.cur_wheel_tick <= target + 1,
                self.cur_wheel_tick > target && self.cur_wheel_tick != old_self.cur_wheel_tick
                    ==> !self.cleared@,
                *old(self) == old_self,
                at >= self.start,
                target == tick_of(self.start, at),
                target < TICK_LIMIT,
            decreases
                target + 1 - self.cur_wheel_tick,
                if self.cur_slab_idx == EMPTY {
                    0
                } else {
                    self.ranks@[self.cur_slab_idx] + 1
                },
        {
            let ghost top = *self;
            let head = self.cur_slab_idx;
            if head == EMPTY {
                self.cur_wheel_tick = self.cur_wheel_tick + 1;
                let idx = Self::ticks_to_wheel_idx(self.cur_wheel_tick);
                self.cur_slab_idx = self.wheel[idx].head;
                self.frontier = Ghost(self.clock@ - 1);
                self.cleared = Ghost(false);
                proof {
                    assert(self.heads() =~= top.heads());
                    assert(self.caches() =~= top.caches());
                    top.lemma_advance_sweep(*self);
                    assert(self.heads()[idx as int] == self.cur_slab_idx);
                    assert(head_ok(self.links(), self.heads()[idx as int], idx as int));
                    assert(self.links().contains_key(EMPTY));
                    assert(self.cur_slab_idx != EMPTY ==> self.live(self.cur_slab_idx));
                    assert(list_wf(self.links(), self.heads(), self.ranks@));
                    top.lemma_entries_kept(self);
                    assert(self.caches_wf());
                }
                continue;
            }
            let ghost before = *self;
            let idx = Self::ticks_to_wheel_idx(self.cur_wheel_tick);
            if head == self.wheel[idx].head {
                self.wheel[idx].next_timeout = None;
                self.cleared = Ghost(true);
                proof {
                    assert(self.heads() =~= before.heads());
                    assert(self.caches() =~= before.caches().update(idx as int, None));
                    before.lemma_clear_cover(self);
                }
            } else {
                proof {
                    assert(self.caches() =~= before.caches());
                    before.lemma_cover_kept(self);
                }
            }
            let e = arena_get(&self.slab, head).unwrap();
            proof {
                assert(before.live(head));
                assert(link_ok(self.links(), before.heads(), self.ranks@, head));
                assert(self.heads() =~= before.heads());
                assert(self.links().contains_key(EMPTY));
                assert(self.cur_slab_idx != EMPTY ==> self.live(self.cur_slab_idx));
                assert(list_wf(self.links(), self.heads(), self.ranks@));
                before.lemma_entries_kept(self);
                before.lemma_sweep_kept(self);
                assert(self.caches_wf());
                assert(self.wf());
            }
            if e.tick <= target {
                let ghost mid = *self;
                assert(mid.pending().contains_key(head));
                let fired = self.remove_slab(head);
                assert(old_self.pending().contains_key(head) && old_self.pending()[head].1 <= tick_of(
                    old_self.start,
                    at,
                ));
                return fired;
            } else {
                let next = match self.wheel[idx].next_timeout {
                    Some(c) => c,
                    None => e.when,
                };
                let ghost mid = *self;
                if e.when <= next {
                    self.wheel[idx].next_timeout = Some(e.when);
                }
                self.cur_slab_idx = e.next;
                self.frontier = Ghost(self.ranks@[head] - 1);
                proof {
                    let newc = if e.when <= next {
                        e.when
                    } else {
                        next
                    };
                    assert(self.caches() =~= mid.caches().update(idx as int, Some(newc)));
                    mid.lemma_step_cover(self, newc);
                    before.lemma_step_sweep(*self);
                    assert(self.heads() =~= before.heads());
                    before.lemma_entries_kept(self);
                    assert(before.live(head));
                    assert(self.caches_wf());
                    assert(list_wf(self.links(), self.heads(), self.ranks@));
                }
            }
        }
        proof {
            assert forall|k: usize| #[trigger] old_self.pending().contains_key(k) implies old_self.pending()[k].1 > target by {
                assert(self.live(k));
                assert(self.sweep_at(k));
            }
        }
        None
    }
}

impl<T> TimerWheel<T> {
    /// The instant up to which a caller may sleep: the earliest cached slot
    /// minimum plus half a tick, or `None` when no slot holds one.
    pub fn next_timeout(&self) -> (r: Option<u64>)
        requires
            self.wf(),
        ensures
            r == match min_cache(self.caches(), LEN as int) {
                None => None,
                Some(m) => Some((m + HALF_TICK_NANOS) as u64),
            },
            forall|k: usize|
                #![trigger self.pending().contains_key(k)]
                self.pending().contains_key(k) && (self.drain_settled() || !self.awaiting_drain(k))
                    ==> (r matches Some(t) && t <= due_at(
                    self.start_spec(),
                    self.pending()[k].1 as int,
                    self.pending()[k].0,
                ) + HALF_TICK_NANOS),
    {
        let mut min: Option<u64> = None;
        let mut i: usize = 0;
        while i < LEN
            invariant
                self.wf(),
                i <= LEN,
                min == min_cache(self.caches(), i as int),
                min matches Some(c) ==> c <= u64::MAX - HALF_TICK_NANOS,
            decreases LEN - i,
        {
            let cur = self.wheel[i].next_timeout;
            min = match (min, cur) {
                (None, c) => c,
                (Some(a), None) => Some(a),
                (Some(a), Some(b)) => Some(
                    if a <= b {
                        a
                    } else {
                        b
                    },
                ),
            };
            i = i + 1;
        }
        proof {
            assert forall|k: usize|
                #![trigger self.pending().contains_key(k)]
                self.pending().contains_key(k) && (self.drain_settled() || !self.awaiting_drain(k))
                    implies (min matches Some(m) && m <= due_at(
                    self.start_spec(),
                    self.pending()[k].1 as int,
                    self.pending()[k].0,
                )) by {
                self.lemma_cache_covers_pending(k);
            }
        }
        match min {
            None => None,
            Some(m) => Some(m + HALF_TICK_NANOS),
        }
    }
}

impl<T> TimerWheel<T> {
    /// Every pending timeout lies at or after the tick of its deadline and
    /// at or after the drain's current tick, and its deadline is not before
    /// the wheel's creation.
    pub proof fn lemma_pending_ticks(&self, k: usize)
        requires
            self.wf(),
            self.pending().contains_key(k),
        ensures
            self.pending()[k].0 >= self.start_spec(),
            self.pending()[k].1 >= tick_of(self.start_spec(), self.pending()[k].0),
            self.pending()[k].1 >= self.cur_tick(),
    {
        assert(self.live(k));
        assert(self.entry_ok(k));
        assert(self.sweep_at(k));
    }

    /// A pending timeout that the drain is not in the middle of reaching is
    /// covered by its slot's cached minimum, which is no later than the
    /// instant it is due; so `next_timeout` is present and no later than
    /// that instant plus half a tick. Once a drain has settled (as after a
    /// drain that returned `None`), this holds of every pending timeout.
    pub proof fn lemma_cache_covers_pending(&self, k: usize)
        requires
            self.wf(),
            self.pending().contains_key(k),
            self.drain_settled() || !self.awaiting_drain(k),
        ensures
            self.caches()[slot_of(self.pending()[k].1)] matches Some(c) && c <= due_at(
                self.start_spec(),
                self.pending()[k].1 as int,
                self.pending()[k].0,
            ),
            min_cache(self.caches(), LEN as int) matches Some(m) && m <= due_at(
                self.start_spec(),
                self.pending()[k].1 as int,
                self.pending()[k].0,
            ),
    {
        assert(self.live(k));
        assert(self.cover_at(k));
        lemma_min_cache_le(self.caches(), LEN as int, slot_of(self.pending()[k].1));
    }
}

} // verus!
