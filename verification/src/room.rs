//! Whether the cache and the file have room for a change.

use vstd::prelude::*;

use crate::btree::{can_read, lemma_can_iterate, lemma_same_reader, tree_at, BTree};
use crate::btree_delete::can_free;
use crate::btree_insert::{can_allocate, can_write};
use crate::btree_model::{count, height, lemma_path_len, lemma_path_pages};
use crate::btree_node::MAX_RECORD_SIZE;
use crate::collection::{
    document_chunks, document_key, law_replaceable_by_heights, law_replaceable_in_leaf,
    lemma_total_height_next, total_height, Collection,
};
use crate::cost::MAX_COST;
use crate::documents::{entries_at, lemma_index_key};
use crate::field_path::lookup_field;
use crate::key_encoding::{encode_key, lemma_be64, to_be_bytes, DocId};
use crate::layout::{lemma_layout_tree, pages_used};
use crate::needs::{
    at_least, lemma_delete_room_same, lemma_index_delete_costs_same, lemma_index_insert_costs_same,
    lemma_total_slots_height, lemma_total_slots_next, record_len, total_slots,
};
use crate::page_allocator::{room, spare, FreePages, PageAllocator};
use crate::page_cache::{lockable, CacheState, PageCache, PageNum, PersistentStore};
use crate::records::{
    chunks, count_idle, follow, lemma_can_read_record, lemma_chunks, materialize_doc,
    overflow_first, overflow_len, record_pages, FLAG_OVERFLOW, OVERFLOW_DATA,
};
use crate::slots::{
    fresh_slots, growth, insert_need, insert_slots, insert_taken, lemma_fresh_kept,
    lemma_fresh_slots, lemma_idle_count_same, lemma_insert_need_frame, lemma_insert_same,
    lemma_read_slot, lemma_removal_same, read_slot, without_entry, Way,
};
use crate::superblock::SUPERBLOCK_FPID;
use crate::util::{be64_bytes, get_u64};
use crate::value::{document_text, json_text, storable, Json, Value};

verus! {

/// The free slots of the cache without the one that the superblock takes;
/// `None` if that one is missing.
pub(crate) fn room_left<S: PersistentStore>(page_cache: &PageCache<S>) -> (left: Option<usize>)
    requires
        page_cache.inv(),
    ensures
        match left {
            Some(n) => room(page_cache@) == n,
            None => room(page_cache@) < 0,
        },
{
    let slots: usize = page_cache.free_slots();
    if !page_cache.is_idle(PageNum::from_u64(SUPERBLOCK_FPID)) {
        Some(slots)
    } else if slots > 0 {
        Some(slots - 1)
    } else {
        None
    }
}

/// With a free slot a collection can be read.
pub proof fn lemma_slot_to_read_all(c: Collection, cache: CacheState, free: FreePages)
    requires
        c.inv(cache.pages, free),
        free.wf(),
        cache.unsaturated(),
        cache.available > 0,
    ensures
        c.can_read(cache),
{
    assert forall|q: u64| #[trigger] c.uses(cache.pages, q) > 0 implies cache.can_lock(q) by {
        assert(pages_used(cache.pages, c.roots(), c.external(cache.pages), q) > 0);
        assert(free.in_use(q));
        assert(cache.refs[q] < u32::MAX);
    }
}

/// How many external pages a text of the given length takes.
fn count_chunks(len: u64) -> (count: u128)
    ensures
        count == chunks(len as nat),
        count <= len,
{
    assert((len + OVERFLOW_DATA - 1) / (OVERFLOW_DATA as int) <= len) by (nonlinear_arith)
        requires
            len >= 0,
            OVERFLOW_DATA >= 1,
    ;
    (len as u128 + (OVERFLOW_DATA as u128 - 1)) / (OVERFLOW_DATA as u128)
}

/// How many external pages a document with a text of the given length takes.
fn count_document_chunks(len: usize) -> (count: u128)
    ensures
        count == document_chunks(len as nat),
        count <= len,
{
    if len >= MAX_RECORD_SIZE - 9 {
        count_chunks(len as u64)
    } else {
        0
    }
}

/// The larger of two numbers.
fn larger(a: u128, b: u128) -> (c: u128)
    ensures
        c == at_least(a as nat, b as nat),
{
    if a > b {
        a
    } else {
        b
    }
}

impl Collection {
    /// Whether the next document can be inserted after `extra` other pages were
    /// handed out. Without a free slot nothing is read, and the answer is no.
    #[verifier::rlimit(40)]
    #[verifier::spinoff_prover]
    pub fn insert_fits<S: PersistentStore>(
        &self,
        document: &Value,
        extra: usize,
        page_cache: &mut PageCache<S>,
        page_allocator: &PageAllocator,
    ) -> (fits: bool)
        requires
            old(page_cache).inv(),
            old(page_cache)@.unsaturated(),
            page_allocator.inv(old(page_cache)@.pages),
            self.inv(old(page_cache)@.pages, page_allocator@),
            storable(document@),
        ensures
            final(page_cache).inv(),
            final(page_cache)@.same_but_order(old(page_cache)@),
            fits == {
                let cache = old(page_cache)@;
                let free = page_allocator@;
                let n = extra as nat;
                let more = n + self.insert_growth(cache.pages, document@, self.next_docid);
                &&& cache.available > 0
                &&& can_allocate(*page_allocator, more)
                &&& spare(cache, more) >= fresh_slots(cache, free, n) + self.insert_room(
                    cache,
                    free.taken_many(n),
                    document@,
                    self.next_docid,
                )
            },
    {
        let ghost cache = page_cache@;
        let ghost pages = cache.pages;
        let ghost json = document@;
        let ghost free = page_allocator@;
        let ghost n = extra as nat;
        let docid = DocId(self.next_docid);
        let ghost id = docid.0;
        let len: usize = document_text(document).len();
        let chunks: u128 = count_document_chunks(len);
        let slots: usize = page_cache.free_slots();
        if slots == 0 {
            return false;
        }
        let ghost total = n + self.insert_growth(pages, json, id);
        let ghost need = fresh_slots(cache, free, n) + self.insert_room(
            cache,
            free.taken_many(n),
            json,
            id,
        );
        proof {
            page_allocator.lemma_wf(pages);
            lemma_slot_to_read_all(*self, cache, page_allocator@);
            self.lemma_readable(cache);
            assert(self.roots()[0] == self.document_tree.root());
            lemma_be64(docid.0);
            reveal(Collection::insert_room);
            reveal(Collection::insert_growth);
        }
        let value_len: usize = if len >= MAX_RECORD_SIZE - 9 {
            17
        } else {
            len + 1
        };
        let ghost size = record_len(len as nat) + 14;
        let ghost way = self.document_way(pages, id);
        let mut tally = Tally { pages: 0, fresh: 0, kept: 0, most: 0 };
        if !tally.count((0, 0, extra as u128 + chunks), slots, page_cache, page_allocator) {
            proof {
                free.lemma_taken_many(n, chunks as nat);
                lemma_fresh_slots(cache, free, n, chunks as nat);
            }
            return false;
        }
        proof {
            self.lemma_same_order(cache, page_cache@);
            self.lemma_readable(page_cache@);
            free.lemma_taken_many(n, chunks as nat);
            lemma_fresh_slots(cache, free, n, chunks as nat);
        }
        let ghost first = free.taken_many(tally.pages as nat);
        let key = to_be_bytes(docid.0);
        let ghost before = page_cache@;
        let cost: (u128, u128, u128) = self.document_tree.insert_cost(&key, value_len, page_cache);
        let ghost rest = self.index_insert_costs(
            cache,
            first.taken_many(cost.2 as nat),
            json,
            id,
            0,
        );
        proof {
            lemma_insert_same(cache, before, first, way, size);
            lemma_fresh_kept(cache, page_cache@, free, tally.pages as nat);
            lemma_fresh_kept(page_cache@, cache, free, tally.pages as nat);
            lemma_fresh_slots(cache, free, tally.pages as nat, cost.2 as nat);
            free.lemma_taken_many(tally.pages as nat, cost.2 as nat);
            assert(insert_need(cache, first, way, size) == cost.1 + fresh_slots(
                cache,
                first,
                cost.2 as nat,
            ));
            assert(need == tally.fresh + at_least(
                cost.0 as nat,
                insert_need(cache, first, way, size) + rest,
            ));
        }
        let ghost before = page_cache@;
        let ghost pages_then = tally.pages as nat;
        if !tally.count(cost, slots, page_cache, page_allocator) {
            proof {
                lemma_fresh_kept(before, cache, free, pages_then + cost.2 as nat);
                lemma_fresh_kept(cache, before, free, pages_then + cost.2 as nat);
            }
            return false;
        }
        let ghost counted = page_cache@;
        proof {
            self.lemma_same_order(cache, page_cache@);
            lemma_fresh_kept(before, cache, free, tally.pages as nat);
            lemma_fresh_kept(cache, before, free, tally.pages as nat);
            lemma_fresh_kept(counted, cache, free, tally.pages as nat);
            lemma_fresh_kept(cache, counted, free, tally.pages as nat);
            lemma_index_insert_costs_same(
                *self,
                cache,
                counted,
                free.taken_many(tally.pages as nat),
                json,
                id,
                0,
            );
        }
        if !count_index_inserts(
            self,
            docid,
            document,
            slots,
            &mut tally,
            page_cache,
            page_allocator,
        ) {
            return false;
        }
        let left: usize = if tally.pages == 0 {
            slots
        } else {
            match room_left(page_cache) {
                Some(left) => left,
                None => return false,
            }
        };
        larger(tally.most, tally.fresh + tally.kept) <= left as u128
    }
}

/// What a row of changes takes: the pages that are handed out, the slots of these and
/// of the pages that are changed, and the slots that have to be free to get so far.
struct Tally {
    pages: u128,
    fresh: u128,
    kept: u128,
    most: u128,
}

impl Tally {
    /// The numbers are those for the first pages that the allocator hands out.
    spec fn ok(&self, cache: CacheState, allocator: PageAllocator) -> bool {
        &&& can_allocate(allocator, self.pages as nat)
        &&& self.fresh == fresh_slots(cache, allocator@, self.pages as nat)
        &&& self.fresh <= cache.available <= MAX_COST
        &&& self.kept <= cache.available + MAX_COST
        &&& self.most <= 4 * MAX_COST
    }

    /// The slots that have to be free if `rest` follow.
    spec fn need(&self, rest: nat) -> nat {
        at_least(self.most as nat, self.fresh as nat + self.kept as nat + rest)
    }

    /// Counts one more change, given by the slot for reading, the slots of the pages
    /// that are changed and the pages that are handed out. That fails if there are
    /// not as many pages or slots.
    fn count<S: PersistentStore>(
        &mut self,
        cost: (u128, u128, u128),
        slots: usize,
        page_cache: &mut PageCache<S>,
        page_allocator: &PageAllocator,
    ) -> (fits: bool)
        requires
            old(page_cache).inv(),
            old(page_cache)@.unsaturated(),
            slots == old(page_cache)@.available,
            page_allocator.inv(old(page_cache)@.pages),
            old(self).ok(old(page_cache)@, *page_allocator),
            cost.0 <= 1,
            cost.1 <= MAX_COST,
            cost.2 <= MAX_COST,
        ensures
            final(page_cache).inv(),
            final(page_cache)@.same_but_order(old(page_cache)@),
            ({
                let cache = old(page_cache)@;
                let pages = old(self).pages + cost.2;
                let fresh = fresh_slots(cache, page_allocator@, pages as nat);
                if fits {
                    &&& final(self).ok(cache, *page_allocator)
                    &&& final(self).pages == pages
                    &&& final(self).fresh == fresh
                    &&& final(self).kept == old(self).kept + cost.1
                    &&& final(self).most == at_least(
                        old(self).most as nat,
                        (old(self).fresh + old(self).kept + cost.0) as nat,
                    )
                } else {
                    ||| !can_allocate(*page_allocator, pages as nat)
                    ||| fresh > slots
                    ||| old(self).kept > slots
                }
            }),
    {
        let ghost cache = page_cache@;
        if self.kept > slots as u128 || !page_allocator.has_pages(self.pages + cost.2) {
            return false;
        }
        let pages: u128 = self.pages + cost.2;
        let fresh: u128 = page_allocator.count_fresh(pages, slots, page_cache);
        if fresh > slots as u128 {
            return false;
        }
        proof {
            lemma_fresh_kept(cache, page_cache@, page_allocator@, pages as nat);
        }
        self.most = larger(self.most, self.fresh + self.kept + cost.0);
        self.pages = pages;
        self.fresh = fresh;
        self.kept = self.kept + cost.1;
        true
    }
}

/// Counts the insertion of the keys of a document into the indices. That fails if
/// there are not as many pages or slots.
#[verifier::rlimit(40)]
#[verifier::spinoff_prover]
fn count_index_inserts<S: PersistentStore>(
    collection: &Collection,
    docid: DocId,
    document: &Value,
    slots: usize,
    tally: &mut Tally,
    page_cache: &mut PageCache<S>,
    page_allocator: &PageAllocator,
) -> (fits: bool)
    requires
        old(page_cache).inv(),
        old(page_cache)@.unsaturated(),
        slots == old(page_cache)@.available,
        page_allocator.inv(old(page_cache)@.pages),
        collection.stored(old(page_cache)@.pages),
        collection.can_read(old(page_cache)@),
        old(tally).ok(old(page_cache)@, *page_allocator),
    ensures
        final(page_cache).inv(),
        final(page_cache)@.same_but_order(old(page_cache)@),
        ({
            let cache = old(page_cache)@;
            let free = page_allocator@.taken_many(old(tally).pages as nat);
            let more = old(tally).pages + collection.index_growths(
                cache.pages,
                document@,
                docid.0,
                0,
            );
            let need = old(tally).need(
                collection.index_insert_costs(cache, free, document@, docid.0, 0),
            );
            if fits {
                &&& final(tally).ok(cache, *page_allocator)
                &&& final(tally).pages == more
                &&& final(tally).need(0) == need
            } else {
                !can_allocate(*page_allocator, more as nat) || need > slots
            }
        }),
{
    let ghost cache = page_cache@;
    let ghost pages = cache.pages;
    let ghost json = document@;
    let ghost free = page_allocator@;
    let ghost id = docid.0;
    let ghost more = tally.pages + collection.index_growths(pages, json, id, 0);
    let ghost need = tally.need(
        collection.index_insert_costs(cache, free.taken_many(tally.pages as nat), json, id, 0),
    );
    let mut i: usize = 0;
    while i < collection.indices.len()
        invariant
            i <= collection.indices@.len(),
            page_cache.inv(),
            page_cache@.same_but_order(cache),
            cache == old(page_cache)@,
            cache.unsaturated(),
            cache.available == slots,
            pages == cache.pages,
            json == document@,
            free == page_allocator@,
            page_allocator.inv(pages),
            id == docid.0,
            collection.stored(pages),
            collection.can_read(page_cache@),
            tally.ok(cache, *page_allocator),
            more == old(tally).pages + collection.index_growths(pages, json, id, 0),
            need == old(tally).need(
                collection.index_insert_costs(
                    cache,
                    free.taken_many(old(tally).pages as nat),
                    json,
                    id,
                    0,
                ),
            ),
            more == tally.pages + collection.index_growths(pages, json, id, i as int),
            need == tally.need(
                collection.index_insert_costs(
                    cache,
                    free.taken_many(tally.pages as nat),
                    json,
                    id,
                    i as int,
                ),
            ),
        decreases collection.indices@.len() - i,
    {
        proof {
            collection.lemma_readable(page_cache@);
        }
        let ghost before = page_cache@;
        match document_key(&collection.indices[i].field, docid, document) {
            Some(key) => {
                proof {
                    lemma_index_key(collection.indices@[i as int].field@, json, docid.0);
                }
                let cost: (u128, u128, u128) = collection.indices[i].btree.insert_cost(
                    key.as_slice(),
                    8,
                    page_cache,
                );
                let ghost way = collection.index_way(pages, i as int, key@);
                let ghost now = free.taken_many(tally.pages as nat);
                proof {
                    lemma_insert_same(cache, before, now, way, key@.len() + 14);
                    collection.lemma_same_order(before, page_cache@);
                    lemma_fresh_slots(cache, free, tally.pages as nat, cost.2 as nat);
                    free.lemma_taken_many(tally.pages as nat, cost.2 as nat);
                    assert(insert_need(cache, now, way, key@.len() + 14) == cost.1
                        + fresh_slots(cache, now, cost.2 as nat));
                    lemma_fresh_kept(cache, page_cache@, free, tally.pages as nat);
                    lemma_fresh_kept(page_cache@, cache, free, tally.pages as nat);
                }
                let ghost before = page_cache@;
                let ghost at = tally.pages as nat;
                if !tally.count(cost, slots, page_cache, page_allocator) {
                    proof {
                        lemma_fresh_kept(before, cache, free, at + cost.2 as nat);
                        lemma_fresh_kept(cache, before, free, at + cost.2 as nat);
                    }
                    return false;
                }
                proof {
                    lemma_fresh_kept(before, cache, free, tally.pages as nat);
                    lemma_fresh_kept(cache, before, free, tally.pages as nat);
                    collection.lemma_same_order(before, page_cache@);
                }
            },
            None => {},
        }
        i = i + 1;
    }
    true
}

/// From this many entries on, an index may need more pages than there are.
const MAX_COUNT: u64 = 0x5555_5555_5555_5555;

/// The number of entries of a tree, unless it is `MAX_COUNT` or more.
fn count_entries<S: PersistentStore>(tree: &BTree, page_cache: &mut PageCache<S>) -> (count:
    Option<u64>)
    requires
        old(page_cache).inv(),
        can_read(old(page_cache)@, tree.root()),
    ensures
        final(page_cache).inv(),
        final(page_cache)@.same_but_order(old(page_cache)@),
        ({
            let len = entries_at(old(page_cache)@.pages, tree.root()).len();
            match count {
                Some(n) => n == len && len < MAX_COUNT,
                None => len >= MAX_COUNT,
            }
        }),
{
    let ghost cache = page_cache@;
    let ghost all = entries_at(cache.pages, tree.root());
    proof {
        lemma_can_iterate(page_cache@, tree.root(), false);
    }
    let mut cursor = tree.iterate(false, page_cache);
    let mut count: u64 = 0;
    proof {
        lemma_same_reader(cache, page_cache@, tree.root());
    }
    loop
        invariant
            page_cache.inv(),
            page_cache@.same_but_order(cache),
            cache == old(page_cache)@,
            all == entries_at(cache.pages, tree.root()),
            can_read(page_cache@, tree.root()),
            cursor.root() == tree.root(),
            cursor.wf(cache.pages),
            count < MAX_COUNT,
            count + cursor.remaining(cache.pages).len() == all.len(),
        decreases cursor.remaining(cache.pages).len(),
    {
        let ghost before = page_cache@;
        if cursor.next(page_cache).is_none() {
            return Some(count);
        }
        count = count + 1;
        if count == MAX_COUNT {
            return None;
        }
        proof {
            lemma_same_reader(before, page_cache@, tree.root());
        }
    }
}

impl Collection {
    /// Whether the file can grow by all that an index on this collection and
    /// its description in the catalog may take.
    pub(crate) fn index_fits<S: PersistentStore>(
        &self,
        catalog: &Collection,
        docid: DocId,
        metadata: &Value,
        page_cache: &mut PageCache<S>,
        page_allocator: &PageAllocator,
    ) -> (fits: bool)
        requires
            old(page_cache).inv(),
            self.stored(old(page_cache)@.pages),
            self.can_read(old(page_cache)@),
            catalog.stored(old(page_cache)@.pages),
            catalog.can_read(old(page_cache)@),
            catalog.indices@.len() == 0,
            storable(metadata@),
        ensures
            final(page_cache).inv(),
            final(page_cache)@.same_but_order(old(page_cache)@),
            ({
                let pages = old(page_cache)@.pages;
                fits == (can_allocate(
                    *page_allocator,
                    self.index_pages(pages) + catalog.insert_pages(
                        pages,
                        json_text(metadata@).len(),
                    ),
                ) && can_free(*page_allocator, catalog.delete_pages(pages, docid.0)))
            }),
    {
        let ghost cache = page_cache@;
        let ghost pages = cache.pages;
        let ghost roots = catalog.roots();
        proof {
            lemma_total_height_next(pages, roots, 0);
            assert(roots.skip(0) =~= roots);
            assert(roots[0] == catalog.document_tree.root());
            assert(roots.skip(1) =~= Seq::<u64>::empty());
            self.lemma_readable(cache);
        }
        let count: u64 = match count_entries(&self.document_tree, page_cache) {
            Some(count) => count,
            None => return false,
        };
        proof {
            catalog.lemma_same_order(cache, page_cache@);
        }
        let (depth, stored, added): (usize, u128, u128) = update_need(
            catalog,
            docid,
            metadata,
            page_cache,
        );
        let index_pages: u128 = 3 * (count as u128) + 1;
        page_allocator.has_pages(index_pages + depth as u128 + 2 + added)
            && page_allocator.takes_back(depth as u128 + stored)
    }
}

/// What an update of a document may take: the height of the tree, the external
/// pages of the document that is there, and those of the one that replaces it.
fn update_need<S: PersistentStore>(
    collection: &Collection,
    docid: DocId,
    document: &Value,
    page_cache: &mut PageCache<S>,
) -> (need: (usize, u128, u128))
    requires
        old(page_cache).inv(),
        collection.stored(old(page_cache)@.pages),
        collection.can_read(old(page_cache)@),
        storable(document@),
    ensures
        final(page_cache).inv(),
        final(page_cache)@.same_but_order(old(page_cache)@),
        need.0 == height(
            tree_at(old(page_cache)@.pages, collection.document_tree.root()),
        ),
        need.1 == collection.stored_chunks(old(page_cache)@.pages, docid.0),
        need.1 <= u64::MAX,
        need.2 == document_chunks(json_text(document@).len()),
        need.2 <= u64::MAX,
{
    let ghost cache = page_cache@;
    proof {
        collection.lemma_readable(cache);
    }
    let depth: usize = collection.document_tree.depth(page_cache);
    proof {
        collection.lemma_same_order(cache, page_cache@);
    }
    let stored: u128 = match collection.fetch(docid, page_cache) {
        Some(record) => if record[0] >= FLAG_OVERFLOW {
            count_chunks(get_u64(record.as_slice(), 1))
        } else {
            0
        },
        None => 0,
    };
    let text = document_text(document);
    (depth, stored, count_document_chunks(text.len()))
}

proof fn lemma_times_max(i: int)
    requires
        i <= usize::MAX,
    ensures
        i * usize::MAX == (i - 1) * usize::MAX + usize::MAX,
        i * usize::MAX <= usize::MAX * usize::MAX,
        usize::MAX * usize::MAX + 2 * usize::MAX <= u128::MAX,
{
    assert(i * usize::MAX == (i - 1) * usize::MAX + usize::MAX) by (nonlinear_arith);
    assert(i * usize::MAX <= usize::MAX * usize::MAX) by (nonlinear_arith)
        requires
            i <= usize::MAX,
    ;
    assert(usize::MAX * usize::MAX + 2 * usize::MAX <= u128::MAX) by (nonlinear_arith)
        requires
            usize::MAX <= 0xffff_ffff_ffff_ffff,
    ;
}

/// The slots that have to be free to remove the keys of a document from the indices
/// after `kept` were taken, and the pages that are given back. If `kept` gets larger
/// than `limit`, so is the first number.
fn count_index_deletes<S: PersistentStore>(
    collection: &Collection,
    docid: DocId,
    document: &Value,
    start: u128,
    limit: usize,
    page_cache: &mut PageCache<S>,
) -> (count: (u128, u128))
    requires
        old(page_cache).inv(),
        collection.stored(old(page_cache)@.pages),
        collection.can_read(old(page_cache)@),
        start <= MAX_COST + MAX_COST,
    ensures
        final(page_cache).inv(),
        final(page_cache)@.same_but_order(old(page_cache)@),
        ({
            let cache = old(page_cache)@;
            let need = start + collection.index_delete_costs(cache, document@, docid.0, 0);
            ||| limit < count.0 <= need
            ||| count.0 == need && count.1 == collection.index_losses(
                cache.pages,
                document@,
                docid.0,
                0,
            )
        }),
        count.0 <= 8 * MAX_COST,
        count.1 <= usize::MAX * usize::MAX,
{
    let ghost cache = page_cache@;
    let ghost pages = cache.pages;
    let mut kept: u128 = start;
    let mut most: u128 = start;
    let mut losses: u128 = 0;
    let mut i: usize = 0;
    while i < collection.indices.len()
        invariant
            i <= collection.indices@.len(),
            page_cache.inv(),
            page_cache@.same_but_order(cache),
            cache == old(page_cache)@,
            pages == cache.pages,
            collection.stored(pages),
            collection.can_read(page_cache@),
            kept <= limit + MAX_COST + MAX_COST,
            most <= limit + MAX_COST + MAX_COST + 1,
            most <= 8 * MAX_COST,
            losses <= i * usize::MAX,
            losses + collection.index_losses(pages, document@, docid.0, i as int)
                == collection.index_losses(pages, document@, docid.0, 0),
            start + collection.index_delete_costs(cache, document@, docid.0, 0) == at_least(
                most as nat,
                kept as nat + collection.index_delete_costs(
                    cache,
                    document@,
                    docid.0,
                    i as int,
                ),
            ),
        decreases collection.indices@.len() - i,
    {
        if kept > limit as u128 {
            return (kept, 0);
        }
        proof {
            collection.lemma_readable(page_cache@);
            lemma_times_max(i + 1);
        }
        let ghost before = page_cache@;
        if let Ok(val) = lookup_field(&collection.indices[i].field, document) {
            if let Ok(encoded) = encode_key(&val, docid) {
                let cost: (u128, u128, u128) = collection.indices[i].btree.delete_cost(
                    encoded.as_slice(),
                    page_cache,
                );
                proof {
                    lemma_removal_same(
                        cache,
                        before,
                        collection.index_way(pages, i as int, encoded@),
                    );
                    collection.lemma_same_order(before, page_cache@);
                }
                most = larger(most, kept + cost.0);
                kept = kept + cost.1;
                losses = losses + cost.2;
            }
        }
        i = i + 1;
    }
    proof {
        lemma_times_max(i as int);
    }
    (larger(most, kept), losses)
}

/// The slots that have to be free to delete a document, or more than `limit` if that
/// is more; and the pages that are given back.
#[verifier::rlimit(60)]
#[verifier::spinoff_prover]
fn count_delete<S: PersistentStore>(
    collection: &Collection,
    docid: DocId,
    limit: usize,
    page_cache: &mut PageCache<S>,
) -> (count: (u128, u128))
    requires
        old(page_cache).inv(),
        collection.stored(old(page_cache)@.pages),
        collection.can_read(old(page_cache)@),
    ensures
        final(page_cache).inv(),
        final(page_cache)@.same_but_order(old(page_cache)@),
        ({
            let cache = old(page_cache)@;
            let need = collection.delete_room(cache, docid.0);
            ||| limit < count.0 <= need
            ||| count.0 == need && count.1 == collection.delete_losses(cache.pages, docid.0)
        }),
        count.0 <= 9 * MAX_COST,
{
    let ghost cache = page_cache@;
    proof {
        reveal(Collection::delete_room);
        reveal(Collection::delete_losses);
    }
    let record = match collection.fetch(docid, page_cache) {
        Some(record) => record,
        None => return (0, 0),
    };
    let ghost before = page_cache@;
    let mut chunks: u128 = 0;
    let external: u128 = if record[0] >= FLAG_OVERFLOW {
        let first = PageNum::from_encoded(get_u64(record.as_slice(), 9));
        chunks = count_chunks(get_u64(record.as_slice(), 1));
        proof {
            lemma_chunks(overflow_len(record@));
            assert(lockable(follow(cache.pages, overflow_first(record@), 0)));
        }
        count_idle(first, page_cache, Ghost(overflow_len(record@)))
    } else {
        0
    };
    proof {
        lemma_can_read_record(before, page_cache@, record@);
        collection.lemma_same_order(cache, page_cache@);
        collection.lemma_readable(page_cache@);
        lemma_idle_count_same(cache, before, record_pages(cache.pages, record@));
        lemma_be64(docid.0);
    }
    let ghost before = page_cache@;
    let key = to_be_bytes(docid.0);
    let cost: (u128, u128, u128) = collection.document_tree.delete_cost(&key, page_cache);
    proof {
        lemma_removal_same(cache, before, collection.document_way(cache.pages, docid.0));
        lemma_can_read_record(before, page_cache@, record@);
    }
    let document = materialize_doc(record.as_slice(), page_cache);
    let ghost before = page_cache@;
    proof {
        collection.lemma_same_order(cache, page_cache@);
        lemma_index_delete_costs_same(
            *collection,
            cache,
            page_cache@,
            document@,
            docid.0,
            0,
        );
    }
    let (indices, losses): (u128, u128) = count_index_deletes(
        collection,
        docid,
        &document,
        cost.1,
        limit,
        page_cache,
    );
    (external + larger(cost.0, indices), chunks + cost.2 + losses)
}

/// How many slots insertions into all trees of a collection take at most, or more
/// than `limit` if that is more.
fn count_slots<S: PersistentStore>(
    collection: &Collection,
    limit: u128,
    page_cache: &mut PageCache<S>,
) -> (count: u128)
    requires
        old(page_cache).inv(),
        collection.stored(old(page_cache)@.pages),
        collection.can_read(old(page_cache)@),
        limit <= MAX_COST,
    ensures
        final(page_cache).inv(),
        final(page_cache)@.same_but_order(old(page_cache)@),
        count <= limit + MAX_COST,
        ({
            let need = total_slots(old(page_cache)@.pages, collection.roots());
            count == need || (limit < count <= need)
        }),
{
    let ghost cache = page_cache@;
    let ghost pages = cache.pages;
    let ghost roots = collection.roots();
    proof {
        collection.lemma_readable(cache);
        assert(roots.skip(0) =~= roots);
        assert(roots[0] == collection.document_tree.root());
        lemma_total_slots_next(pages, roots, 0);
    }
    let depth: usize = collection.document_tree.depth(page_cache);
    let mut count: u128 = most_slots(depth);
    let mut i: usize = 0;
    proof {
        collection.lemma_same_order(cache, page_cache@);
    }
    while i < collection.indices.len()
        invariant
            i <= collection.indices@.len(),
            page_cache.inv(),
            page_cache@.same_but_order(cache),
            cache == old(page_cache)@,
            pages == cache.pages,
            roots == collection.roots(),
            collection.stored(pages),
            collection.can_read(page_cache@),
            limit <= MAX_COST,
            count <= limit + MAX_COST,
            count + total_slots(pages, roots.skip(i + 1)) == total_slots(pages, roots),
        decreases collection.indices@.len() - i,
    {
        if count > limit {
            return count;
        }
        proof {
            collection.lemma_readable(page_cache@);
            assert(roots[i + 1] == collection.indices@[i as int].btree.root());
            lemma_total_slots_next(pages, roots, i + 1);
        }
        let ghost before = page_cache@;
        let depth: usize = collection.indices[i].btree.depth(page_cache);
        count = count + most_slots(depth);
        proof {
            collection.lemma_same_order(before, page_cache@);
        }
        i = i + 1;
    }
    proof {
        assert(roots.skip(i + 1) =~= Seq::<u64>::empty());
    }
    count
}

/// The most slots that an insertion into a tree of the given height takes.
fn most_slots(depth: usize) -> (count: u128)
    ensures
        count == insert_slots(depth as nat),
        count <= MAX_COST,
{
    if depth == 0 {
        3
    } else {
        2 * (depth as u128) + 4
    }
}

/// The sum of the heights of all trees of a collection.
fn count_heights<S: PersistentStore>(
    collection: &Collection,
    page_cache: &mut PageCache<S>,
) -> (count: usize)
    requires
        old(page_cache).inv(),
        collection.stored(old(page_cache)@.pages),
        collection.can_read(old(page_cache)@),
        total_height(old(page_cache)@.pages, collection.roots()) <= usize::MAX,
    ensures
        final(page_cache).inv(),
        final(page_cache)@.same_but_order(old(page_cache)@),
        count == total_height(old(page_cache)@.pages, collection.roots()),
{
    let ghost cache = page_cache@;
    let ghost pages = cache.pages;
    let ghost roots = collection.roots();
    proof {
        collection.lemma_readable(cache);
        assert(roots.skip(0) =~= roots);
        assert(roots[0] == collection.document_tree.root());
        lemma_total_height_next(pages, roots, 0);
    }
    let mut count: usize = collection.document_tree.depth(page_cache);
    let mut i: usize = 0;
    proof {
        collection.lemma_same_order(cache, page_cache@);
    }
    while i < collection.indices.len()
        invariant
            i <= collection.indices@.len(),
            page_cache.inv(),
            page_cache@.same_but_order(cache),
            cache == old(page_cache)@,
            pages == cache.pages,
            roots == collection.roots(),
            collection.stored(pages),
            collection.can_read(page_cache@),
            total_height(pages, roots) <= usize::MAX,
            count + total_height(pages, roots.skip(i + 1)) == total_height(pages, roots),
        decreases collection.indices@.len() - i,
    {
        proof {
            collection.lemma_readable(page_cache@);
            assert(roots[i + 1] == collection.indices@[i as int].btree.root());
            lemma_total_height_next(pages, roots, i + 1);
        }
        let ghost before = page_cache@;
        count = count + collection.indices[i].btree.depth(page_cache);
        proof {
            collection.lemma_same_order(before, page_cache@);
        }
        i = i + 1;
    }
    proof {
        assert(roots.skip(i + 1) =~= Seq::<u64>::empty());
    }
    count
}

/// What becomes of a leaf does not depend on the order of write back.
proof fn lemma_without_same(cache: CacheState, cache2: CacheState, way: Way, size: nat)
    requires
        cache2.same_but_order(cache),
    ensures
        ({
            let after = without_entry(cache, way);
            let after2 = without_entry(cache2, way);
            &&& after2.pages == after.pages
            &&& after2.available == after.available
            &&& insert_taken(after2, way, size) == insert_taken(after, way, size)
            &&& read_slot(after2, way) == read_slot(after, way)
            &&& room(after2) == room(after)
        }),
{
    let after = without_entry(cache, way);
    let after2 = without_entry(cache2, way);
    lemma_insert_need_frame(after, after2, way, size);
    lemma_insert_need_frame(after2, after, way, size);
    lemma_read_slot(after, after2, way);
    lemma_read_slot(after2, after, way);
}

/// Whether a document can be replaced in its leaf does not depend on the order of
/// write back.
pub proof fn lemma_in_leaf_same(
    c: Collection,
    cache: CacheState,
    cache2: CacheState,
    allocator: PageAllocator,
    id: u64,
    json: Json,
)
    requires
        c.replaceable_in_leaf(cache, allocator, id, json),
        cache2.same_but_order(cache),
    ensures
        c.replaceable_in_leaf(cache2, allocator, id, json),
{
    let way = c.document_way(cache.pages, id);
    let len = json_text(json).len();
    let size = record_len(len) + 14;
    let n = document_chunks(len);
    lemma_delete_room_same(c, cache, cache2, id);
    lemma_without_same(cache, cache2, way, size);
    lemma_fresh_kept(cache, cache2, allocator@, n);
    lemma_fresh_kept(
        cache,
        cache2,
        allocator@.taken_many(n),
        growth(without_entry(cache, way).pages, way, size),
    );
}

/// The leaf of a document is not the superblock.
proof fn lemma_document_leaf(c: Collection, cache: CacheState, free: FreePages, id: u64)
    requires
        c.inv(cache.pages, free),
    ensures
        c.document_way(cache.pages, id).last().0 != SUPERBLOCK_FPID,
{
    let root = c.document_tree.root();
    let t = tree_at(cache.pages, root);
    let way = c.document_way(cache.pages, id);
    assert(c.roots()[0] == root);
    lemma_layout_tree(cache.pages, free, c.roots(), c.external(cache.pages), 0);
    lemma_path_len(t, None, None, height(t), be64_bytes(id));
    lemma_path_pages(t, None, None, height(t), be64_bytes(id));
    assert(count(t, way[way.len() - 1].0) > 0);
}

impl Collection {
    /// Whether there is room to replace a document: because its deletion only takes an
    /// entry out of a leaf, or whatever becomes of the trees when it is deleted.
    pub(crate) fn replace_fits<S: PersistentStore>(
        &self,
        docid: DocId,
        document: &Value,
        page_cache: &mut PageCache<S>,
        page_allocator: &PageAllocator,
    ) -> (fits: bool)
        requires
            old(page_cache).inv(),
            can_write(old(page_cache)@),
            page_allocator.inv(old(page_cache)@.pages),
            self.inv(old(page_cache)@.pages, page_allocator@),
            storable(document@),
        ensures
            final(page_cache).inv(),
            final(page_cache)@.same_but_order(old(page_cache)@),
            fits == {
                let cache = old(page_cache)@;
                ||| self.replaceable_in_leaf(cache, *page_allocator, docid.0, document@)
                ||| self.surely_replaceable(cache, *page_allocator, docid.0, document@)
            },
            fits ==> self.can_replace(
                final(page_cache)@,
                *page_allocator,
                docid.0,
                document@,
            ),
    {
        let ghost cache = page_cache@;
        proof {
            page_allocator.lemma_wf(cache.pages);
        }
        if self.leaf_fits(docid, document, page_cache, page_allocator) {
            proof {
                lemma_in_leaf_same(*self, cache, page_cache@, *page_allocator, docid.0, document@);
                law_replaceable_in_leaf(
                    *self,
                    page_cache@,
                    *page_allocator,
                    docid.0,
                    document@,
                );
            }
            return true;
        }
        proof {
            lemma_delete_room_same(*self, cache, page_cache@, docid.0);
        }
        self.heights_fit(docid, document, page_cache, page_allocator)
    }

    /// Whether a document can be replaced because its deletion only takes an entry out
    /// of a leaf.
    #[verifier::rlimit(40)]
    #[verifier::spinoff_prover]
    fn leaf_fits<S: PersistentStore>(
        &self,
        docid: DocId,
        document: &Value,
        page_cache: &mut PageCache<S>,
        page_allocator: &PageAllocator,
    ) -> (fits: bool)
        requires
            old(page_cache).inv(),
            can_write(old(page_cache)@),
            page_allocator.inv(old(page_cache)@.pages),
            self.inv(old(page_cache)@.pages, page_allocator@),
            storable(document@),
        ensures
            final(page_cache).inv(),
            final(page_cache)@.same_but_order(old(page_cache)@),
            fits == self.replaceable_in_leaf(
                old(page_cache)@,
                *page_allocator,
                docid.0,
                document@,
            ),
    {
        let ghost cache = page_cache@;
        let ghost pages = cache.pages;
        let ghost json = document@;
        let ghost free = page_allocator@;
        let ghost id = docid.0;
        let slots: usize = page_cache.free_slots();
        if self.indices.len() > 0 || slots == 0 {
            return false;
        }
        proof {
            page_allocator.lemma_wf(pages);
            lemma_slot_to_read_all(*self, cache, free);
            self.lemma_readable(cache);
            assert(self.roots()[0] == self.document_tree.root());
            lemma_be64(id);
        }
        if self.fetch(docid, page_cache).is_none() {
            return false;
        }
        proof {
            self.lemma_same_order(cache, page_cache@);
            lemma_delete_room_same(*self, cache, page_cache@, id);
        }
        let (deletes, losses): (u128, u128) = count_delete(self, docid, slots, page_cache);
        if deletes > slots as u128 || losses > 0 {
            return false;
        }
        let len: usize = document_text(document).len();
        let chunks: u128 = count_document_chunks(len);
        let value_len: usize = if len >= MAX_RECORD_SIZE - 9 {
            17
        } else {
            len + 1
        };
        let ghost size = record_len(len as nat) + 14;
        let ghost way = self.document_way(pages, id);
        let ghost after = without_entry(cache, way);
        let ghost before = page_cache@;
        let mut tally = Tally { pages: 0, fresh: 0, kept: 0, most: 0 };
        proof {
            lemma_fresh_kept(before, cache, free, chunks as nat);
            lemma_fresh_kept(cache, before, free, chunks as nat);
        }
        if !tally.count((0, 0, chunks), slots, page_cache, page_allocator) {
            return false;
        }
        proof {
            self.lemma_same_order(cache, page_cache@);
            self.lemma_readable(page_cache@);
            lemma_without_same(cache, page_cache@, way, size);
        }
        let key = to_be_bytes(docid.0);
        let (idle, cost): (bool, (u128, u128, u128)) = self.document_tree.replace_cost(
            &key,
            value_len,
            page_cache,
        );
        let ghost before = page_cache@;
        let ghost total = chunks as nat + cost.2 as nat;
        proof {
            free.lemma_taken_many(chunks as nat, cost.2 as nat);
            lemma_fresh_slots(cache, free, chunks as nat, cost.2 as nat);
            lemma_fresh_kept(before, cache, free, chunks as nat);
            lemma_fresh_kept(cache, before, free, chunks as nat);
            lemma_fresh_kept(before, cache, free, total);
            lemma_fresh_kept(cache, before, free, total);
            assert(total == self.replace_growth(cache, id, json));
            assert(self.replace_room(cache, free, id, json) == tally.fresh + at_least(
                cost.0 as nat,
                cost.1 as nat + fresh_slots(cache, free.taken_many(chunks as nat), cost.2 as nat),
            ));
        }
        if !tally.count(cost, slots, page_cache, page_allocator) {
            return false;
        }
        let taken: u128 = if idle {
            1
        } else {
            0
        };
        proof {
            assert(after.idle(SUPERBLOCK_FPID) == cache.idle(SUPERBLOCK_FPID)) by {
                lemma_document_leaf(*self, cache, free, id);
            }
        }
        let left: usize = if tally.pages == 0 {
            slots
        } else {
            match room_left(page_cache) {
                Some(left) => left,
                None => return false,
            }
        };
        larger(tally.most, tally.fresh + tally.kept) + taken <= left as u128
    }

    /// Whether a document can be replaced, whatever becomes of the trees when it is
    /// deleted.
    fn heights_fit<S: PersistentStore>(
        &self,
        docid: DocId,
        document: &Value,
        page_cache: &mut PageCache<S>,
        page_allocator: &PageAllocator,
    ) -> (fits: bool)
        requires
            old(page_cache).inv(),
            can_write(old(page_cache)@),
            page_allocator.inv(old(page_cache)@.pages),
            self.inv(old(page_cache)@.pages, page_allocator@),
            storable(document@),
        ensures
            final(page_cache).inv(),
            final(page_cache)@.same_but_order(old(page_cache)@),
            fits == self.surely_replaceable(
                old(page_cache)@,
                *page_allocator,
                docid.0,
                document@,
            ),
            fits ==> self.can_replace(
                final(page_cache)@,
                *page_allocator,
                docid.0,
                document@,
            ),
    {
        let ghost cache = page_cache@;
        let ghost pages = cache.pages;
        let ghost roots = self.roots();
        let ghost len = json_text(document@).len();
        let slots: usize = match room_left(page_cache) {
            Some(slots) => slots,
            None => return false,
        };
        proof {
            page_allocator.lemma_wf(pages);
            reveal(Collection::insert_bound);
            assert(roots.skip(0) =~= roots);
            lemma_total_slots_next(pages, roots, 0);
        }
        if slots < 1 {
            return false;
        }
        proof {
            lemma_slot_to_read_all(*self, cache, page_allocator@);
            lemma_total_slots_height(pages, roots);
        }
        let limit: u128 = slots as u128;
        let added: u128 = count_document_chunks(document_text(document).len());
        let inserts: u128 = count_slots(self, limit, page_cache);
        if inserts > limit {
            return false;
        }
        proof {
            self.lemma_same_order(cache, page_cache@);
            lemma_delete_room_same(*self, cache, page_cache@, docid.0);
        }
        let (deletes, losses): (u128, u128) = count_delete(self, docid, slots, page_cache);
        if limit < added + inserts + deletes {
            return false;
        }
        proof {
            self.lemma_same_order(cache, page_cache@);
        }
        let heights: usize = count_heights(self, page_cache);
        let trees: u128 = self.indices.len() as u128 + 1;
        let fits = page_allocator.takes_back(losses) && page_allocator.has_pages(
            heights as u128 + 2 * trees + added,
        );
        proof {
            lemma_delete_room_same(*self, cache, page_cache@, docid.0);
            if fits {
                law_replaceable_by_heights(
                    *self,
                    page_cache@,
                    *page_allocator,
                    docid.0,
                    document@,
                );
            }
        }
        fits
    }
}

} // verus!
