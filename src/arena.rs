//! The arena that backs the wheel's linked lists: a `slab::Slab` of link
//! records, seen through the map of the records it holds.
use slab::Slab;
use vstd::prelude::*;

verus! {

/// One timeout as the arena stores it: its deadline, the tick it is filed
/// under, and its neighbours in the list of its slot.
#[derive(Clone, Copy, Debug, PartialEq, Eq)]
pub struct Link {
    pub when: u64,
    pub tick: u64,
    pub prev: usize,
    pub next: usize,
}

#[verifier::external_type_specification]
#[verifier::external_body]
#[verifier::reject_recursive_types(T)]
pub struct ExSlab<T>(slab::Slab<T>);

/// The map with no records.
pub open spec fn no_links() -> Map<usize, Link> {
    Map::empty()
}

/// The records held by a slab, by key.
pub uninterp spec fn slab_links(s: Slab<Link>) -> Map<usize, Link>;

/// The key that the slab's next insertion will use.
pub uninterp spec fn slab_next_key(s: Slab<Link>) -> usize;

/// Relies on `Slab::with_capacity`: a new slab holds nothing, and its first
/// insertion uses key 0 (`next` starts at 0).
#[verifier::external_body]
pub(crate) fn arena_with_capacity(capacity: usize) -> (r: Slab<Link>)
    ensures
        slab_links(r) == no_links(),
        slab_next_key(r) == 0,
{
    Slab::with_capacity(capacity)
}

/// Relies on `Slab::insert`: the value is stored under the slab's next key,
/// which was vacant, and nothing else changes.
#[verifier::external_body]
pub(crate) fn arena_insert(s: &mut Slab<Link>, v: Link) -> (r: usize)
    ensures
        r == slab_next_key(*old(s)),
        !slab_links(*old(s)).contains_key(r),
        slab_links(*final(s)) == slab_links(*old(s)).insert(r, v),
{
    s.insert(v)
}

/// Relies on `Slab::get`: the record under `key`, if that key is occupied.
#[verifier::external_body]
pub(crate) fn arena_get(s: &Slab<Link>, key: usize) -> (r: Option<Link>)
    ensures
        slab_links(*s).contains_key(key) ==> r == Some(slab_links(*s)[key]),
        !slab_links(*s).contains_key(key) ==> r is None,
{
    s.get(key).copied()
}

/// Relies on `IndexMut for Slab`: overwrites the record under an occupied key
/// (it panics on a vacant one).
#[verifier::external_body]
pub(crate) fn arena_set(s: &mut Slab<Link>, key: usize, v: Link)
    requires
        slab_links(*old(s)).contains_key(key),
    ensures
        slab_links(*final(s)) == slab_links(*old(s)).insert(key, v),
        slab_next_key(*final(s)) == slab_next_key(*old(s)),
{
    s[key] = v;
}

/// Relies on `Slab::try_remove`: takes the record out of an occupied key and
/// leaves the slab as it was for a vacant one.
#[verifier::external_body]
pub(crate) fn arena_try_remove(s: &mut Slab<Link>, key: usize) -> (r: Option<Link>)
    ensures
        slab_links(*old(s)).contains_key(key) ==> r == Some(slab_links(*old(s))[key])
            && slab_links(*final(s)) == slab_links(*old(s)).remove(key),
        !slab_links(*old(s)).contains_key(key) ==> r is None && slab_links(*final(s))
            == slab_links(*old(s)),
{
    s.try_remove(key)
}

} // verus!
