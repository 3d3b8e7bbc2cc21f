//! The slot lists as mathematics: a map of link records from arena index,
//! the head of each slot, and a rank per entry. Here are their
//! well-formedness conditions and the lemmas that pushing an entry on the
//! front of a list, or unlinking one, preserves them.
use crate::arena::Link;
use crate::wheel::{slot_of, EMPTY, LEN};
use vstd::prelude::*;

verus! {

/// Whether `k` is a real entry of the arena (not the sentinel).
pub(crate) open spec fn live_in(links: Map<usize, Link>, k: usize) -> bool {
    k != EMPTY && links.contains_key(k)
}

/// The links of the live entry `k` are consistent: its neighbours point back
/// at it, lie in its slot and are ranked around it, and it heads its slot's
/// list exactly when it has no predecessor.
pub(crate) open spec fn link_ok(
    links: Map<usize, Link>,
    heads: Seq<usize>,
    ranks: Map<usize, nat>,
    k: usize,
) -> bool {
    let l = links[k];
    &&& ranks.contains_key(k)
    &&& (l.prev != EMPTY ==> live_in(links, l.prev) && links[l.prev].next == k && ranks[l.prev]
        > ranks[k])
    &&& (l.next != EMPTY ==> live_in(links, l.next) && links[l.next].prev == k && ranks[l.next]
        < ranks[k] && slot_of(links[l.next].tick) == slot_of(l.tick))
    &&& (l.prev == EMPTY <==> heads[slot_of(l.tick)] == k)
}

pub(crate) open spec fn head_ok(links: Map<usize, Link>, h: usize, s: int) -> bool {
    h != EMPTY ==> live_in(links, h) && slot_of(links[h].tick) == s
}

/// The slot lists are well formed doubly linked lists over the arena.
pub(crate) open spec fn list_wf(links: Map<usize, Link>, heads: Seq<usize>, ranks: Map<usize, nat>) -> bool {
    &&& heads.len() == LEN
    &&& forall|k: usize| #[trigger] live_in(links, k) ==> link_ok(links, heads, ranks, k)
    &&& forall|s: int| 0 <= s < LEN ==> head_ok(links, #[trigger] heads[s], s)
}

/// The links after the live entry `k` is taken out of its list.
pub(crate) open spec fn unlinked(links: Map<usize, Link>, k: usize) -> Map<usize, Link> {
    let l = links[k];
    let m1 = links.remove(k);
    let m2 = if l.prev != EMPTY {
        m1.insert(l.prev, Link { next: l.next, ..links[l.prev] })
    } else {
        m1
    };
    if l.next != EMPTY {
        m2.insert(l.next, Link { prev: l.prev, ..links[l.next] })
    } else {
        m2
    }
}

/// The slot heads after the live entry `k` is taken out of its list.
pub(crate) open spec fn unlinked_heads(links: Map<usize, Link>, heads: Seq<usize>, k: usize) -> Seq<usize> {
    let l = links[k];
    if l.prev == EMPTY {
        heads.update(slot_of(l.tick), l.next)
    } else {
        heads
    }
}

/// Ranks are distinct, and within one slot `next` leads from an entry to
/// the entry of the next lower rank.
pub(crate) open spec fn pair_ok(links: Map<usize, Link>, ranks: Map<usize, nat>, j: usize, k: usize) -> bool {
    &&& (j != k ==> ranks[j] != ranks[k])
    &&& (slot_of(links[j].tick) == slot_of(links[k].tick) && ranks[j] < ranks[k] ==> links[k].next
        != EMPTY && ranks[j] <= ranks[links[k].next])
}

/// Each slot's list runs in decreasing rank order from its head, which holds
/// the highest rank in the slot; every rank is below `clock`.
pub(crate) open spec fn order_wf(
    links: Map<usize, Link>,
    heads: Seq<usize>,
    ranks: Map<usize, nat>,
    clock: nat,
) -> bool {
    &&& forall|k: usize| #[trigger]
        live_in(links, k) ==> ranks[k] < clock && heads[slot_of(links[k].tick)] != EMPTY
            && ranks[k] <= ranks[heads[slot_of(links[k].tick)]]
    &&& forall|j: usize, k: usize|
        live_in(links, j) && live_in(links, k) ==> #[trigger] pair_ok(links, ranks, j, k)
}

pub(crate) proof fn lemma_link_order(
    links: Map<usize, Link>,
    heads: Seq<usize>,
    ranks: Map<usize, nat>,
    clock: nat,
    n: usize,
    ln: Link,
)
    requires
        list_wf(links, heads, ranks),
        order_wf(links, heads, ranks, clock),
        n != EMPTY,
        !links.contains_key(n),
        ln.prev == EMPTY,
        ln.next == heads[slot_of(ln.tick)],
    ensures
        order_wf(
            linked(links, n, ln, heads[slot_of(ln.tick)]),
            heads.update(slot_of(ln.tick), n),
            linked_ranks(ranks, n, clock),
            clock + 1,
        ),
{
    let s = slot_of(ln.tick);
    let h = heads[s];
    let m = linked(links, n, ln, h);
    let hs = heads.update(s, n);
    let rs = linked_ranks(ranks, n, clock);
    assert(0 <= s < LEN);
    assert(head_ok(links, h, s));
    assert forall|k: usize| #[trigger] live_in(m, k) implies rs[k] < clock + 1 && hs[slot_of(
        m[k].tick,
    )] != EMPTY && rs[k] <= rs[hs[slot_of(m[k].tick)]] by {
        if k != n {
            assert(live_in(links, k));
            let t = slot_of(links[k].tick);
            assert(0 <= t < LEN);
            assert(head_ok(links, heads[t], t));
        }
    }
    assert forall|j: usize, k: usize| live_in(m, j) && live_in(m, k) implies #[trigger] pair_ok(
        m,
        rs,
        j,
        k,
    ) by {
        if j != n && k != n {
            assert(live_in(links, j) && live_in(links, k));
            assert(pair_ok(links, ranks, j, k));
            assert(link_ok(links, heads, ranks, k));
        } else if j != n {
            assert(live_in(links, j));
        } else if k != n {
            assert(live_in(links, k));
        }
    }
}

pub(crate) proof fn lemma_unlink_order(
    links: Map<usize, Link>,
    heads: Seq<usize>,
    ranks: Map<usize, nat>,
    clock: nat,
    k: usize,
)
    requires
        list_wf(links, heads, ranks),
        order_wf(links, heads, ranks, clock),
        live_in(links, k),
    ensures
        order_wf(unlinked(links, k), unlinked_heads(links, heads, k), ranks, clock),
{
    let l = links[k];
    let m = unlinked(links, k);
    let hs = unlinked_heads(links, heads, k);
    lemma_unlink(links, heads, ranks, k);
    assert(link_ok(links, heads, ranks, k));
    assert forall|i: usize| #[trigger] live_in(m, i) implies ranks[i] < clock && hs[slot_of(
        m[i].tick,
    )] != EMPTY && ranks[i] <= ranks[hs[slot_of(m[i].tick)]] by {
        assert(live_in(links, i));
        assert(pair_ok(links, ranks, i, k));
        let t = slot_of(links[i].tick);
        assert(0 <= t < LEN);
        assert(head_ok(links, heads[t], t));
        if heads[t] != EMPTY {
            assert(link_ok(links, heads, ranks, heads[t]));
        }
    }
    assert forall|i: usize, j: usize| live_in(m, i) && live_in(m, j) implies #[trigger] pair_ok(
        m,
        ranks,
        i,
        j,
    ) by {
        assert(live_in(links, i) && live_in(links, j));
        assert(pair_ok(links, ranks, i, j));
        assert(pair_ok(links, ranks, i, k));
        assert(link_ok(links, heads, ranks, j));
        if l.prev != EMPTY {
            assert(link_ok(links, heads, ranks, l.prev));
        }
        if l.next != EMPTY {
            assert(link_ok(links, heads, ranks, l.next));
        }
    }
}

/// What `link_ok` of `j` after unlinking `k` needs of the links before.
pub(crate) open spec fn unlink_local(
    links: Map<usize, Link>,
    heads: Seq<usize>,
    ranks: Map<usize, nat>,
    k: usize,
    j: usize,
) -> bool {
    let l = links[k];
    let lj = links[j];
    &&& link_ok(links, heads, ranks, k)
    &&& link_ok(links, heads, ranks, j)
    &&& (l.prev != EMPTY ==> link_ok(links, heads, ranks, l.prev))
    &&& (l.next != EMPTY ==> link_ok(links, heads, ranks, l.next))
    &&& (lj.prev != EMPTY ==> link_ok(links, heads, ranks, lj.prev))
    &&& (lj.next != EMPTY ==> link_ok(links, heads, ranks, lj.next))
    &&& head_ok(links, heads[slot_of(lj.tick)], slot_of(lj.tick))
}

pub(crate) proof fn lemma_unlink_one(
    links: Map<usize, Link>,
    heads: Seq<usize>,
    ranks: Map<usize, nat>,
    k: usize,
    j: usize,
)
    requires
        heads.len() == LEN,
        live_in(links, k),
        live_in(links, j),
        j != k,
        unlink_local(links, heads, ranks, k, j),
    ensures
        link_ok(unlinked(links, k), unlinked_heads(links, heads, k), ranks, j),
{
}

pub(crate) proof fn lemma_unlink(links: Map<usize, Link>, heads: Seq<usize>, ranks: Map<usize, nat>, k: usize)
    requires
        list_wf(links, heads, ranks),
        live_in(links, k),
    ensures
        list_wf(unlinked(links, k), unlinked_heads(links, heads, k), ranks),
        unlinked(links, k).dom() == links.dom().remove(k),
        forall|j: usize| #[trigger]
            unlinked(links, k).contains_key(j) ==> unlinked(links, k)[j].when == links[j].when
                && unlinked(links, k)[j].tick == links[j].tick,
{
    let l = links[k];
    let m = unlinked(links, k);
    let hs = unlinked_heads(links, heads, k);
    assert(m.dom() =~= links.dom().remove(k));
    assert(link_ok(links, heads, ranks, k));
    assert forall|j: usize| #[trigger] live_in(m, j) implies link_ok(m, hs, ranks, j) by {
        assert(live_in(links, j));
        let lj = links[j];
        assert(link_ok(links, heads, ranks, j));
        if l.prev != EMPTY {
            assert(live_in(links, l.prev));
        }
        if l.next != EMPTY {
            assert(live_in(links, l.next));
        }
        if lj.prev != EMPTY {
            assert(live_in(links, lj.prev));
        }
        if lj.next != EMPTY {
            assert(live_in(links, lj.next));
        }
        assert(0 <= slot_of(lj.tick) < LEN);
        lemma_unlink_one(links, heads, ranks, k, j);
    }
    assert forall|s: int| 0 <= s < LEN implies head_ok(m, #[trigger] hs[s], s) by {
        assert(head_ok(links, heads[s], s));
        if heads[s] != EMPTY {
            assert(live_in(links, heads[s]));
            assert(link_ok(links, heads, ranks, heads[s]));
        }
        if l.next != EMPTY {
            assert(live_in(links, l.next));
            assert(link_ok(links, heads, ranks, l.next));
        }
    }
}

/// The links after entry `n`, with record `ln`, is pushed on the front of
/// the list whose head is `h`.
pub(crate) open spec fn linked(links: Map<usize, Link>, n: usize, ln: Link, h: usize) -> Map<usize, Link> {
    let m1 = links.insert(n, ln);
    if h != EMPTY {
        m1.insert(h, Link { prev: n, ..links[h] })
    } else {
        m1
    }
}

/// The ranks after entry `n` is inserted while the rank clock reads `clock`.
pub(crate) open spec fn linked_ranks(ranks: Map<usize, nat>, n: usize, clock: nat) -> Map<usize, nat> {
    ranks.insert(n, clock)
}

pub(crate) proof fn lemma_link_one(
    links: Map<usize, Link>,
    heads: Seq<usize>,
    ranks: Map<usize, nat>,
    n: usize,
    ln: Link,
    clock: nat,
    j: usize,
)
    requires
        heads.len() == LEN,
        n != EMPTY,
        !links.contains_key(n),
        ln.prev == EMPTY,
        ln.next == heads[slot_of(ln.tick)],
        head_ok(links, heads[slot_of(ln.tick)], slot_of(ln.tick)),
        heads[slot_of(ln.tick)] != EMPTY ==> link_ok(links, heads, ranks, heads[slot_of(ln.tick)]),
        heads[slot_of(ln.tick)] != EMPTY ==> ranks[heads[slot_of(ln.tick)]] < clock,
        live_in(links, j),
        link_ok(links, heads, ranks, j),
        links[j].prev != EMPTY ==> link_ok(links, heads, ranks, links[j].prev),
        links[j].next != EMPTY ==> link_ok(links, heads, ranks, links[j].next),
    ensures
        link_ok(
            linked(links, n, ln, heads[slot_of(ln.tick)]),
            heads.update(slot_of(ln.tick), n),
            linked_ranks(ranks, n, clock),
            j,
        ),
{
}

pub(crate) proof fn lemma_link(
    links: Map<usize, Link>,
    heads: Seq<usize>,
    ranks: Map<usize, nat>,
    n: usize,
    ln: Link,
    clock: nat,
)
    requires
        list_wf(links, heads, ranks),
        heads[slot_of(ln.tick)] != EMPTY ==> ranks[heads[slot_of(ln.tick)]] < clock,
        n != EMPTY,
        !links.contains_key(n),
        ln.prev == EMPTY,
        ln.next == heads[slot_of(ln.tick)],
    ensures
        list_wf(
            linked(links, n, ln, heads[slot_of(ln.tick)]),
            heads.update(slot_of(ln.tick), n),
            linked_ranks(ranks, n, clock),
        ),
        linked(links, n, ln, heads[slot_of(ln.tick)]).dom() == links.dom().insert(n),
        forall|j: usize| #[trigger]
            links.contains_key(j) ==> linked(links, n, ln, heads[slot_of(ln.tick)])[j].when
                == links[j].when && linked(links, n, ln, heads[slot_of(ln.tick)])[j].tick
                == links[j].tick,
{
    let s = slot_of(ln.tick);
    let h = heads[s];
    let m = linked(links, n, ln, h);
    let hs = heads.update(s, n);
    let rs = linked_ranks(ranks, n, clock);
    assert(0 <= s < LEN);
    assert(head_ok(links, h, s));
    if h != EMPTY {
        assert(live_in(links, h));
        assert(link_ok(links, heads, ranks, h));
    }
    assert(m.dom() =~= links.dom().insert(n));
    assert forall|j: usize| #[trigger] live_in(m, j) implies link_ok(m, hs, rs, j) by {
        if j != n {
            assert(live_in(links, j));
            let lj = links[j];
            assert(link_ok(links, heads, ranks, j));
            if lj.prev != EMPTY {
                assert(live_in(links, lj.prev));
            }
            if lj.next != EMPTY {
                assert(live_in(links, lj.next));
            }
            lemma_link_one(links, heads, ranks, n, ln, clock, j);
        }
    }
    assert forall|t: int| 0 <= t < LEN implies head_ok(m, #[trigger] hs[t], t) by {
        assert(head_ok(links, heads[t], t));
    }
}

} // verus!
