//! What a change of a tree takes from the cache and the allocator: which nodes on
//! the way to a key are split or become empty, and which pages take a slot.

use vstd::prelude::*;

use crate::btree_node::{entries_size, node, node_wf, split_key, Node, NODE_CAPACITY};
use crate::page_allocator::FreePages;
use crate::page_cache::{lockable, CacheState};

verus! {

/// The way to a key: the page of each node, and the place of the key there.
pub type Way = Seq<(u64, int)>;

/// How many slots of the cache a change of a page takes.
pub open spec fn slot_for(cache: CacheState, q: u64) -> nat {
    if cache.idle(q) {
        1
    } else {
        0
    }
}

/// How many slots of the cache a change of a page takes, if there is one.
pub open spec fn link_slot(cache: CacheState, link: Option<u64>) -> nat {
    match link {
        Some(q) => slot_for(cache, q),
        None => 0,
    }
}

/// How many slots of the cache changes of different pages take.
pub open spec fn idle_count(cache: CacheState, list: Seq<u64>) -> nat
    decreases list.len(),
{
    if list.len() == 0 {
        0
    } else {
        idle_count(cache, list.drop_last()) + slot_for(cache, list.last())
    }
}

/// The nodes on the way can be read.
pub open spec fn can_walk(cache: CacheState, way: Way) -> bool {
    forall|j: int| 0 <= j < way.len() ==> cache.can_lock((#[trigger] way[j]).0)
}

/// A slot that is needed to read the nodes on the way, but not kept.
pub open spec fn read_slot(cache: CacheState, way: Way) -> nat {
    if exists|j: int| 0 <= j < way.len() && cache.idle((#[trigger] way[j]).0) {
        1
    } else {
        0
    }
}

/// The node has room for an entry of the given size.
pub open spec fn fits(n: Node, size: nat) -> bool {
    entries_size(n.entries) + size <= NODE_CAPACITY
}

/// The key that the first node on the way hands to its parent if it is split when
/// an entry of the given size is put into the last one.
pub open spec fn handed_up(pages: Map<u64, Seq<u8>>, way: Way, size: nat) -> Option<Seq<u8>>
    decreases way.len(),
{
    if way.len() == 0 {
        None
    } else {
        let n = node(pages[way[0].0]);
        if way.len() == 1 {
            if fits(n, size) {
                None
            } else {
                Some(split_key(n))
            }
        } else {
            match handed_up(pages, way.skip(1), size) {
                Some(key) => if fits(n, key.len() + 14) {
                    None
                } else {
                    Some(split_key(n))
                },
                None => None,
            }
        }
    }
}

/// How many nodes on the way are split.
pub open spec fn splits(pages: Map<u64, Seq<u8>>, way: Way, size: nat) -> nat
    decreases way.len(),
{
    if way.len() == 0 {
        0
    } else {
        splits(pages, way.skip(1), size) + if handed_up(pages, way, size) is Some {
            1nat
        } else {
            0nat
        }
    }
}

/// How many slots the pages on the way take that are changed, and the one before
/// the last of them, whose link changes if that is split.
pub open spec fn insert_taken(cache: CacheState, way: Way, size: nat) -> nat
    decreases way.len(),
{
    if way.len() == 0 {
        0
    } else if way.len() == 1 {
        let n = node(cache.pages[way[0].0]);
        slot_for(cache, way[0].0) + if n.leaf && !fits(n, size) {
            link_slot(cache, n.prev)
        } else {
            0
        }
    } else {
        insert_taken(cache, way.skip(1), size) + if handed_up(
            cache.pages,
            way.skip(1),
            size,
        ) is Some {
            slot_for(cache, way[0].0)
        } else {
            0
        }
    }
}

/// How many pages a tree gains: one for each node that is split, and one more if
/// the root is, whose page remains the root.
pub open spec fn growth(pages: Map<u64, Seq<u8>>, way: Way, size: nat) -> nat {
    splits(pages, way, size) + if handed_up(pages, way, size) is Some {
        1nat
    } else {
        0nat
    }
}

/// How many slots the next `n` pages take that are handed out. One that was given
/// back in the same transaction still has its slot.
pub open spec fn fresh_slots(cache: CacheState, free: FreePages, n: nat) -> nat
    decreases n,
{
    if n == 0 {
        0
    } else {
        fresh_slots(cache, free, (n - 1) as nat) + slot_for(
            cache,
            free.taken_many((n - 1) as nat).next(),
        )
    }
}

/// Some pages and then some more.
pub proof fn lemma_fresh_slots(cache: CacheState, free: FreePages, a: nat, b: nat)
    ensures
        fresh_slots(cache, free, a + b) == fresh_slots(cache, free, a) + fresh_slots(
            cache,
            free.taken_many(a),
            b,
        ),
        fresh_slots(cache, free, a) <= a,
    decreases a + b,
{
    if b > 0 {
        lemma_fresh_slots(cache, free, a, (b - 1) as nat);
        free.lemma_taken_many(a, (b - 1) as nat);
    } else if a > 0 {
        lemma_fresh_slots(cache, free, (a - 1) as nat, 0);
    }
}

/// One page, and two.
pub proof fn lemma_fresh_few(cache: CacheState, free: FreePages)
    ensures
        free.taken_many(1) == free.taken(),
        free.taken_many(2) == free.taken().taken(),
        fresh_slots(cache, free, 1) == slot_for(cache, free.next()),
        fresh_slots(cache, free, 2) == slot_for(cache, free.next()) + slot_for(
            cache,
            free.taken().next(),
        ),
{
    reveal_with_fuel(FreePages::taken_many, 3);
    reveal_with_fuel(fresh_slots, 3);
}

pub proof fn lemma_fresh_kept(cache: CacheState, cache2: CacheState, free: FreePages, n: nat)
    requires
        no_colder(cache, cache2),
    ensures
        fresh_slots(cache2, free, n) <= fresh_slots(cache, free, n) <= n,
    decreases n,
{
    if n > 0 {
        lemma_fresh_kept(cache, cache2, free, (n - 1) as nat);
        lemma_slot_for(cache, cache2, free.taken_many((n - 1) as nat).next());
    }
}

/// How many slots the insertion of an entry of the given size takes.
pub open spec fn insert_need(cache: CacheState, free: FreePages, way: Way, size: nat) -> nat {
    insert_taken(cache, way, size) + fresh_slots(cache, free, growth(cache.pages, way, size))
}

/// The first node on the way becomes empty when the last one loses an entry.
pub open spec fn vanishes(pages: Map<u64, Seq<u8>>, way: Way) -> bool
    decreases way.len(),
{
    if way.len() == 0 {
        false
    } else {
        let n = node(pages[way[0].0]);
        if way.len() == 1 {
            n.entries.len() == 1
        } else {
            vanishes(pages, way.skip(1)) && n.entries.len() == 0
        }
    }
}

/// How many nodes on the way, none of which is the root, become empty.
pub open spec fn vanishing(pages: Map<u64, Seq<u8>>, way: Way) -> nat
    decreases way.len(),
{
    if way.len() == 0 {
        0
    } else {
        vanishing(pages, way.skip(1)) + if vanishes(pages, way) {
            1nat
        } else {
            0nat
        }
    }
}

/// How many slots the pages on the way take that are changed, none of which is the
/// root, and those linked with the last of them if that becomes empty.
pub open spec fn delete_taken(cache: CacheState, way: Way) -> nat
    decreases way.len(),
{
    if way.len() == 0 {
        0
    } else if way.len() == 1 {
        let n = node(cache.pages[way[0].0]);
        slot_for(cache, way[0].0) + if n.entries.len() == 1 {
            link_slot(cache, n.prev) + link_slot(cache, n.next)
        } else {
            0
        }
    } else {
        delete_taken(cache, way.skip(1)) + if vanishes(cache.pages, way.skip(1)) {
            slot_for(cache, way[0].0)
        } else {
            0
        }
    }
}

/// How many slots the removal of an entry takes.
pub open spec fn delete_need(cache: CacheState, way: Way) -> nat {
    if way.len() == 0 {
        0
    } else if way.len() == 1 {
        slot_for(cache, way[0].0)
    } else {
        delete_taken(cache, way)
    }
}

/// The last node on the way has lost the entry that the way leads to, and nothing
/// else has changed.
pub open spec fn leaf_trimmed(cache: CacheState, cache2: CacheState, way: Way) -> bool {
    let leaf = way.last().0;
    let n = node(cache.pages[leaf]);
    &&& node_wf(cache2.pages[leaf])
    &&& node(cache2.pages[leaf]) == (Node { entries: n.entries.remove(way.last().1), ..n })
    &&& forall|q: u64| q != leaf ==> #[trigger] cache2.pages[q] == cache.pages[q]
    &&& cache2.dirty == cache.dirty.insert(leaf)
    &&& cache2.refs == cache.refs
    &&& cache2.available == cache.available - slot_for(cache, leaf)
}

/// A page whose node has lost an entry.
pub open spec fn trimmed_page(page: Seq<u8>, i: int, trimmed: Seq<u8>) -> bool {
    let n = node(page);
    node_wf(trimmed) && node(trimmed) == (Node { entries: n.entries.remove(i), ..n })
}

/// The cache once the last node on the way has lost the entry that it leads to.
pub open spec fn without_entry(cache: CacheState, way: Way) -> CacheState {
    let leaf = way.last().0;
    let page = choose|page: Seq<u8>| trimmed_page(cache.pages[leaf], way.last().1, page);
    CacheState {
        pages: cache.pages.insert(leaf, page),
        dirty: cache.dirty.insert(leaf),
        available: (cache.available - slot_for(cache, leaf)) as nat,
        ..cache
    }
}

/// The most slots that an insertion into a tree of the given height takes.
pub open spec fn insert_slots(height: nat) -> nat {
    if height == 0 {
        3
    } else {
        2 * height + 4
    }
}

/// The most slots that a removal from a tree of the given height takes.
pub open spec fn delete_slots(height: nat) -> nat {
    if height == 0 {
        1
    } else {
        height + 3
    }
}

proof fn lemma_insert_taken_bound(cache: CacheState, way: Way, size: nat)
    requires
        way.len() > 0,
    ensures
        insert_taken(cache, way, size) <= way.len() + 1,
        splits(cache.pages, way, size) <= way.len(),
    decreases way.len(),
{
    if way.len() > 1 {
        lemma_insert_taken_bound(cache, way.skip(1), size);
    } else {
        assert(way.skip(1).len() == 0);
        assert(splits(cache.pages, way.skip(1), size) == 0);
    }
}

/// How much an insertion can take at most. The root has no leaf before it.
pub proof fn lemma_insert_need_bound(cache: CacheState, free: FreePages, way: Way, size: nat)
    requires
        way.len() > 0,
        way.len() == 1 ==> node(cache.pages[way[0].0]).prev is None,
    ensures
        insert_need(cache, free, way, size) <= insert_slots((way.len() - 1) as nat),
        growth(cache.pages, way, size) <= way.len() + 1,
{
    lemma_insert_taken_bound(cache, way, size);
    lemma_fresh_kept(cache, cache, free, growth(cache.pages, way, size));
}

proof fn lemma_delete_taken_bound(cache: CacheState, way: Way)
    requires
        way.len() > 0,
    ensures
        delete_taken(cache, way) <= way.len() + 2,
        vanishing(cache.pages, way) <= way.len(),
    decreases way.len(),
{
    if way.len() > 1 {
        lemma_delete_taken_bound(cache, way.skip(1));
    } else {
        assert(way.skip(1).len() == 0);
        assert(vanishing(cache.pages, way.skip(1)) == 0);
    }
}

/// How much a removal can take at most.
pub proof fn lemma_delete_need_bound(cache: CacheState, way: Way)
    requires
        way.len() > 0,
    ensures
        delete_need(cache, way) <= delete_slots((way.len() - 1) as nat),
        vanishing(cache.pages, way.skip(1)) <= way.len() - 1,
{
    lemma_delete_taken_bound(cache, way);
    if way.len() > 1 {
        lemma_delete_taken_bound(cache, way.skip(1));
    }
}

/// No page of the first state that takes no slot takes one in the second.
pub open spec fn no_colder(cache: CacheState, cache2: CacheState) -> bool {
    &&& cache2.refs == cache.refs
    &&& forall|q: u64| #[trigger] cache.dirty.contains(q) ==> cache2.dirty.contains(q)
}

pub proof fn lemma_no_colder(cache: CacheState, cache2: CacheState, cache3: CacheState)
    requires
        no_colder(cache, cache2),
        no_colder(cache2, cache3),
    ensures
        no_colder(cache, cache3),
{
    assert forall|q: u64| #[trigger] cache.dirty.contains(q) implies cache3.dirty.contains(q) by {
        assert(cache2.dirty.contains(q));
    }
}

pub proof fn lemma_slot_for(cache: CacheState, cache2: CacheState, q: u64)
    requires
        no_colder(cache, cache2),
    ensures
        slot_for(cache2, q) <= slot_for(cache, q),
{
    if cache.dirty.contains(q) {
        assert(cache2.dirty.contains(q));
    }
}

pub proof fn lemma_link_slot(cache: CacheState, cache2: CacheState, link: Option<u64>)
    requires
        no_colder(cache, cache2),
    ensures
        link_slot(cache2, link) <= link_slot(cache, link),
{
    if let Some(q) = link {
        lemma_slot_for(cache, cache2, q);
    }
}

pub proof fn lemma_idle_count(cache: CacheState, cache2: CacheState, list: Seq<u64>)
    requires
        no_colder(cache, cache2),
    ensures
        idle_count(cache2, list) <= idle_count(cache, list) <= list.len(),
    decreases list.len(),
{
    if list.len() > 0 {
        lemma_slot_for(cache, cache2, list.last());
        lemma_idle_count(cache, cache2, list.drop_last());
    }
}

/// One page after another.
pub proof fn lemma_idle_count_take(cache: CacheState, list: Seq<u64>, i: int)
    requires
        0 <= i < list.len(),
    ensures
        idle_count(cache, list.take(i + 1)) == idle_count(cache, list.take(i)) + slot_for(
            cache,
            list[i],
        ),
        idle_count(cache, list.take(i + 1)) <= idle_count(cache, list),
    decreases list.len(),
{
    assert(list.take(i + 1).drop_last() =~= list.take(i));
    if i + 1 < list.len() {
        let front = list.drop_last();
        assert(front.take(i + 1) =~= list.take(i + 1));
        lemma_idle_count_take(cache, front, i);
    } else {
        assert(list.take(i + 1) =~= list);
    }
}

/// The nodes on the way are the same in both states.
pub open spec fn same_way(pages: Map<u64, Seq<u8>>, pages2: Map<u64, Seq<u8>>, way: Way) -> bool {
    forall|j: int|
        0 <= j < way.len() ==> node(pages2[(#[trigger] way[j]).0]) == node(pages[way[j].0])
}

/// What an insertion takes does not grow by changes elsewhere.
pub proof fn lemma_insert_need_frame(cache: CacheState, cache2: CacheState, way: Way, size: nat)
    requires
        no_colder(cache, cache2),
        same_way(cache.pages, cache2.pages, way),
    ensures
        handed_up(cache2.pages, way, size) == handed_up(cache.pages, way, size),
        splits(cache2.pages, way, size) == splits(cache.pages, way, size),
        insert_taken(cache2, way, size) <= insert_taken(cache, way, size),
    decreases way.len(),
{
    if way.len() > 0 {
        let rest = way.skip(1);
        assert(node(cache2.pages[way[0].0]) == node(cache.pages[way[0].0]));
        assert forall|j: int| 0 <= j < rest.len() implies node(
            cache2.pages[(#[trigger] rest[j]).0],
        ) == node(cache.pages[rest[j].0]) by {
            assert(rest[j] == way[j + 1]);
        }
        lemma_insert_need_frame(cache, cache2, rest, size);
        lemma_slot_for(cache, cache2, way[0].0);
        lemma_link_slot(cache, cache2, node(cache.pages[way[0].0]).prev);
    }
}

/// What a removal takes does not grow by changes elsewhere.
pub proof fn lemma_delete_need_frame(cache: CacheState, cache2: CacheState, way: Way)
    requires
        no_colder(cache, cache2),
        same_way(cache.pages, cache2.pages, way),
    ensures
        vanishes(cache2.pages, way) == vanishes(cache.pages, way),
        vanishing(cache2.pages, way) == vanishing(cache.pages, way),
        delete_taken(cache2, way) <= delete_taken(cache, way),
        delete_need(cache2, way) <= delete_need(cache, way),
    decreases way.len(),
{
    if way.len() > 0 {
        let rest = way.skip(1);
        assert(node(cache2.pages[way[0].0]) == node(cache.pages[way[0].0]));
        assert forall|j: int| 0 <= j < rest.len() implies node(
            cache2.pages[(#[trigger] rest[j]).0],
        ) == node(cache.pages[rest[j].0]) by {
            assert(rest[j] == way[j + 1]);
        }
        lemma_delete_need_frame(cache, cache2, rest);
        lemma_slot_for(cache, cache2, way[0].0);
        lemma_link_slot(cache, cache2, node(cache.pages[way[0].0]).prev);
        lemma_link_slot(cache, cache2, node(cache.pages[way[0].0]).next);
    }
}

pub proof fn lemma_read_slot(cache: CacheState, cache2: CacheState, way: Way)
    requires
        no_colder(cache, cache2),
    ensures
        read_slot(cache2, way) <= read_slot(cache, way),
{
    if read_slot(cache2, way) == 1 {
        let j = choose|j: int| 0 <= j < way.len() && cache2.idle((#[trigger] way[j]).0);
        lemma_slot_for(cache, cache2, way[j].0);
    }
}

pub proof fn lemma_insert_grown_frame(
    cache: CacheState,
    cache2: CacheState,
    free: FreePages,
    way: Way,
    size: nat,
)
    requires
        no_colder(cache, cache2),
        same_way(cache.pages, cache2.pages, way),
    ensures
        insert_need(cache2, free, way, size) <= insert_need(cache, free, way, size),
        growth(cache2.pages, way, size) == growth(cache.pages, way, size),
{
    lemma_insert_need_frame(cache, cache2, way, size);
    lemma_fresh_kept(cache, cache2, free, growth(cache.pages, way, size));
}

pub proof fn lemma_delete_lost_frame(cache: CacheState, cache2: CacheState, way: Way)
    requires
        way.len() > 0,
        no_colder(cache, cache2),
        same_way(cache.pages, cache2.pages, way),
    ensures
        delete_need(cache2, way) <= delete_need(cache, way),
        vanishing(cache2.pages, way.skip(1)) == vanishing(cache.pages, way.skip(1)),
{
    let rest = way.skip(1);
    assert forall|j: int| 0 <= j < rest.len() implies node(cache2.pages[(#[trigger] rest[j]).0])
        == node(cache.pages[rest[j].0]) by {
        assert(rest[j] == way[j + 1]);
    }
    lemma_delete_need_frame(cache, cache2, way);
    lemma_delete_need_frame(cache, cache2, rest);
}

/// Whoever has a slot where one is needed can walk through pages in use.
pub proof fn lemma_walk(cache: CacheState, way: Way)
    requires
        cache.unsaturated(),
        forall|j: int| 0 <= j < way.len() ==> lockable((#[trigger] way[j]).0),
        read_slot(cache, way) == 0 || cache.available > 0,
    ensures
        can_walk(cache, way),
{
    assert forall|j: int| 0 <= j < way.len() implies cache.can_lock((#[trigger] way[j]).0) by {
        assert(cache.refs[way[j].0] < u32::MAX);
    }
}

/// What a change takes does not depend on the order of write back.
pub proof fn lemma_insert_same(
    cache: CacheState,
    cache2: CacheState,
    free: FreePages,
    way: Way,
    size: nat,
)
    requires
        cache2.same_but_order(cache),
    ensures
        insert_need(cache2, free, way, size) == insert_need(cache, free, way, size),
        insert_taken(cache2, way, size) == insert_taken(cache, way, size),
        read_slot(cache2, way) == read_slot(cache, way),
{
    lemma_insert_need_frame(cache, cache2, way, size);
    lemma_insert_need_frame(cache2, cache, way, size);
    lemma_insert_grown_frame(cache, cache2, free, way, size);
    lemma_insert_grown_frame(cache2, cache, free, way, size);
    lemma_read_slot(cache, cache2, way);
    lemma_read_slot(cache2, cache, way);
}

/// Once a leaf has lost an entry, an insertion takes what was to be expected.
pub proof fn lemma_without_entry(cache: CacheState, cache2: CacheState, way: Way, size: nat)
    requires
        leaf_trimmed(cache, cache2, way),
    ensures
        ({
            let after = without_entry(cache, way);
            &&& insert_taken(cache2, way, size) == insert_taken(after, way, size)
            &&& growth(cache2.pages, way, size) == growth(after.pages, way, size)
            &&& read_slot(cache2, way) == read_slot(after, way)
            &&& cache2.available == after.available
            &&& forall|q: u64| #[trigger] cache2.idle(q) == after.idle(q)
        }),
{
    let leaf = way.last().0;
    let after = without_entry(cache, way);
    assert(trimmed_page(cache.pages[leaf], way.last().1, cache2.pages[leaf]));
    assert forall|q: u64| #[trigger] node(cache2.pages[q]) == node(after.pages[q]) by {
        if q != leaf {
            assert(cache2.pages[q] == cache.pages[q]);
        }
    }
    lemma_insert_need_frame(after, cache2, way, size);
    lemma_insert_need_frame(cache2, after, way, size);
    lemma_read_slot(after, cache2, way);
    lemma_read_slot(cache2, after, way);
}

pub proof fn lemma_removal_same(cache: CacheState, cache2: CacheState, way: Way)
    requires
        cache2.same_but_order(cache),
    ensures
        delete_need(cache2, way) == delete_need(cache, way),
        read_slot(cache2, way) == read_slot(cache, way),
{
    lemma_delete_need_frame(cache, cache2, way);
    lemma_delete_need_frame(cache2, cache, way);
    lemma_read_slot(cache, cache2, way);
    lemma_read_slot(cache2, cache, way);
}

pub proof fn lemma_idle_count_same(cache: CacheState, cache2: CacheState, list: Seq<u64>)
    requires
        cache2.same_but_order(cache),
    ensures
        idle_count(cache2, list) == idle_count(cache, list),
{
    lemma_idle_count(cache, cache2, list);
    lemma_idle_count(cache2, cache, list);
}

} // verus!
