//! How many slots of the cache a change of a collection takes.

use vstd::prelude::*;

use crate::btree::{has_tree, is_tree, tree_at};
use crate::btree_delete::can_free;
use crate::btree_insert::can_allocate;
use crate::btree_model::{
    contents, count, height, idx, leaves, lemma_leaf_contents, lemma_path_len, lemma_path_pages,
    link_ok, nums, path_to,
};
use crate::btree_node::{entries_size, keys_of, node, MAX_RECORD_SIZE, NODE_CAPACITY};
use crate::collection::{document_chunks, lemma_total_height_next, total_height, Collection};
use crate::cost::lemma_same_way;
use crate::documents::index_key;
use crate::field_path::{lookup, PathStep};
use crate::key_encoding::encode;
use crate::key_order::rank;
use crate::page_allocator::{new_file, spare, FreePages, PageAllocator};
use crate::page_cache::{lockable, CacheState};
use crate::records::record_pages;
use crate::room::lemma_slot_to_read_all;
use crate::slots::{
    can_walk, delete_need, delete_slots, fresh_slots, growth, idle_count, insert_need,
    insert_slots, lemma_delete_lost_frame, lemma_delete_need_bound, lemma_fresh_kept,
    lemma_idle_count, lemma_idle_count_same, lemma_insert_grown_frame, lemma_insert_need_bound,
    lemma_insert_same, lemma_read_slot, lemma_removal_same, lemma_walk, no_colder, read_slot,
    splits, vanishing, Way,
};
use crate::util::be64_bytes;
use crate::value::{json_text, Json};

verus! {

/// How many bytes the record of a document with a text of the given length has.
pub open spec fn record_len(len: nat) -> nat {
    if len >= MAX_RECORD_SIZE - 9 {
        17
    } else {
        len + 1
    }
}

/// The larger of two numbers.
pub open spec fn at_least(a: nat, b: nat) -> nat {
    if a > b {
        a
    } else {
        b
    }
}

/// The most slots that insertions into some trees take.
pub open spec fn total_slots(pages: Map<u64, Seq<u8>>, roots: Seq<u64>) -> nat
    decreases roots.len(),
{
    if roots.len() == 0 {
        0
    } else {
        insert_slots(height(tree_at(pages, roots[0]))) + total_slots(pages, roots.skip(1))
    }
}

/// The most slots that removals from some trees take.
pub open spec fn total_delete_slots(pages: Map<u64, Seq<u8>>, roots: Seq<u64>) -> nat
    decreases roots.len(),
{
    if roots.len() == 0 {
        0
    } else {
        delete_slots(height(tree_at(pages, roots[0]))) + total_delete_slots(pages, roots.skip(1))
    }
}

/// The key under which a document is looked for in an index, if it has one.
pub open spec fn probe_key(steps: Seq<PathStep>, json: Json, id: u64) -> Option<Seq<u8>> {
    match lookup(steps, json) {
        Ok(value) => match encode(value, id) {
            Ok(key) => Some(key),
            Err(_) => None,
        },
        Err(_) => None,
    }
}

impl Collection {
    /// The way to a document.
    pub open spec fn document_way(&self, pages: Map<u64, Seq<u8>>, id: u64) -> Way {
        path_to(tree_at(pages, self.document_tree.root()), be64_bytes(id))
    }

    /// The way to a key of an index.
    pub open spec fn index_way(&self, pages: Map<u64, Seq<u8>>, i: int, key: Seq<u8>) -> Way {
        path_to(tree_at(pages, self.indices@[i].btree.root()), key)
    }

    /// How many slots have to be free to add the keys of a document to the indices
    /// from `k` on: what is taken one after the other, and at each step the slot for
    /// reading.
    pub open spec fn index_insert_costs(
        &self,
        cache: CacheState,
        free: FreePages,
        json: Json,
        id: u64,
        k: int,
    ) -> nat
        decreases self.indices@.len() - k,
    {
        if k >= self.indices@.len() {
            0
        } else {
            match index_key(self.indices@[k].field@, json, id) {
                Some(key) => {
                    let way = self.index_way(cache.pages, k, key);
                    let more = growth(cache.pages, way, key.len() + 14);
                    at_least(
                        read_slot(cache, way),
                        insert_need(cache, free, way, key.len() + 14) + self.index_insert_costs(
                            cache,
                            free.taken_many(more),
                            json,
                            id,
                            k + 1,
                        ),
                    )
                },
                None => self.index_insert_costs(cache, free, json, id, k + 1),
            }
        }
    }

    /// How many pages the indices from `k` on gain by the keys of a document.
    pub open spec fn index_growths(
        &self,
        pages: Map<u64, Seq<u8>>,
        json: Json,
        id: u64,
        k: int,
    ) -> nat
        decreases self.indices@.len() - k,
    {
        if k >= self.indices@.len() {
            0
        } else {
            self.index_growths(pages, json, id, k + 1) + match index_key(
                self.indices@[k].field@,
                json,
                id,
            ) {
                Some(key) => growth(pages, self.index_way(pages, k, key), key.len() + 14),
                None => 0,
            }
        }
    }

    /// How many pages are handed out when a document is inserted.
    #[verifier::opaque]
    pub open spec fn insert_growth(&self, pages: Map<u64, Seq<u8>>, json: Json, id: u64) -> nat {
        let len = json_text(json).len();
        document_chunks(len) + growth(pages, self.document_way(pages, id), record_len(len) + 14)
            + self.index_growths(pages, json, id, 0)
    }

    /// How many slots of the cache have to be free to insert a document.
    #[verifier::opaque]
    pub open spec fn insert_room(
        &self,
        cache: CacheState,
        free: FreePages,
        json: Json,
        id: u64,
    ) -> nat {
        let len = json_text(json).len();
        let size = record_len(len) + 14;
        let way = self.document_way(cache.pages, id);
        let free1 = free.taken_many(document_chunks(len));
        let free2 = free1.taken_many(growth(cache.pages, way, size));
        fresh_slots(cache, free, document_chunks(len)) + at_least(
            read_slot(cache, way),
            insert_need(cache, free1, way, size) + self.index_insert_costs(
                cache,
                free2,
                json,
                id,
                0,
            ),
        )
    }

    /// There is room to insert a document: the file can grow by the pages that it
    /// takes, and the cache has the slots for it.
    pub open spec fn can_add(
        &self,
        cache: CacheState,
        allocator: PageAllocator,
        json: Json,
        id: u64,
    ) -> bool {
        let more = self.insert_growth(cache.pages, json, id);
        &&& can_allocate(allocator, more)
        &&& spare(cache, more) >= self.insert_room(cache, allocator@, json, id)
    }

    /// How many slots of the cache the insertion of a document with a text of the
    /// given length takes at most.
    #[verifier::opaque]
    pub open spec fn insert_bound(&self, pages: Map<u64, Seq<u8>>, len: nat) -> nat {
        document_chunks(len) + total_slots(pages, self.roots())
    }

    /// How many slots have to be free to remove the keys of a document from the
    /// indices from `k` on.
    pub open spec fn index_delete_costs(
        &self,
        cache: CacheState,
        json: Json,
        id: u64,
        k: int,
    ) -> nat
        decreases self.indices@.len() - k,
    {
        if k >= self.indices@.len() {
            0
        } else {
            let rest = self.index_delete_costs(cache, json, id, k + 1);
            match probe_key(self.indices@[k].field@, json, id) {
                Some(key) => {
                    let way = self.index_way(cache.pages, k, key);
                    let found = keys_of(self.index_entries(cache.pages, k)).contains(key);
                    at_least(
                        read_slot(cache, way),
                        rest + if found {
                            delete_need(cache, way)
                        } else {
                            0
                        },
                    )
                },
                None => rest,
            }
        }
    }

    /// How many pages the indices from `k` on lose with the keys of a document.
    pub open spec fn index_losses(
        &self,
        pages: Map<u64, Seq<u8>>,
        json: Json,
        id: u64,
        k: int,
    ) -> nat
        decreases self.indices@.len() - k,
    {
        if k >= self.indices@.len() {
            0
        } else {
            self.index_losses(pages, json, id, k + 1) + match probe_key(
                self.indices@[k].field@,
                json,
                id,
            ) {
                Some(key) => if keys_of(self.index_entries(pages, k)).contains(key) {
                    vanishing(pages, self.index_way(pages, k, key).skip(1))
                } else {
                    0
                },
                None => 0,
            }
        }
    }

    /// How many pages are given back when a document is deleted.
    #[verifier::opaque]
    pub open spec fn delete_losses(&self, pages: Map<u64, Seq<u8>>, id: u64) -> nat {
        if self.docs(pages).contains_key(id) {
            self.stored_chunks(pages, id) + vanishing(pages, self.document_way(pages, id).skip(1))
                + self.index_losses(pages, self.docs(pages)[id], id, 0)
        } else {
            0
        }
    }

    /// The external pages of a document.
    pub open spec fn stored_pages(&self, pages: Map<u64, Seq<u8>>, id: u64) -> Seq<u64> {
        let entries = self.entries(pages);
        record_pages(pages, entries[rank(keys_of(entries), be64_bytes(id))].value)
    }

    /// How many slots of the cache have to be free to delete a document.
    #[verifier::opaque]
    pub open spec fn delete_room(&self, cache: CacheState, id: u64) -> nat {
        let pages = cache.pages;
        if self.docs(pages).contains_key(id) {
            let way = self.document_way(pages, id);
            idle_count(cache, self.stored_pages(pages, id)) + at_least(
                read_slot(cache, way),
                delete_need(cache, way) + self.index_delete_costs(
                    cache,
                    self.docs(pages)[id],
                    id,
                    0,
                ),
            )
        } else {
            0
        }
    }

    /// There is room to delete a document: the collection can be read, and the cache
    /// has the slots for it.
    pub open spec fn can_remove(
        &self,
        cache: CacheState,
        allocator: PageAllocator,
        id: u64,
    ) -> bool {
        let less = self.delete_losses(cache.pages, id);
        &&& self.can_read(cache)
        &&& can_free(allocator, less)
        &&& spare(cache, less) >= self.delete_room(cache, id)
    }
}

/// The trees and documents of a collection are the same in other pages.
#[verifier::opaque]
pub open spec fn same_parts(
    c: Collection,
    pages: Map<u64, Seq<u8>>,
    pages2: Map<u64, Seq<u8>>,
) -> bool {
    &&& forall|i: int|
        0 <= i < c.roots().len() ==> has_tree(pages, #[trigger] c.roots()[i]) && has_tree(
            pages2,
            c.roots()[i],
        ) && tree_at(pages2, c.roots()[i]) == tree_at(pages, c.roots()[i])
    &&& c.docs(pages2) == c.docs(pages)
    &&& forall|id: u64| #[trigger]
        c.docs(pages).contains_key(id) ==> c.stored_pages(pages2, id) == c.stored_pages(pages, id)
}

/// The insertion of a document takes no more at most.
pub proof fn lemma_insert_bound_kept(
    c: Collection,
    pages: Map<u64, Seq<u8>>,
    pages2: Map<u64, Seq<u8>>,
    len: nat,
)
    requires
        same_parts(c, pages, pages2),
    ensures
        c.insert_bound(pages2, len) <= c.insert_bound(pages, len),
{
    reveal(same_parts);
    reveal(Collection::insert_bound);
    lemma_total_slots_lower(pages, pages2, c.roots());
}

/// The root of a tree has no sibling.
proof fn lemma_root_links(pages: Map<u64, Seq<u8>>, root: u64, key: Seq<u8>)
    requires
        has_tree(pages, root),
    ensures
        ({
            let t = tree_at(pages, root);
            let way = path_to(t, key);
            &&& way.len() == height(t) + 1
            &&& way.len() == 1 ==> node(pages[way[0].0]).prev is None
        }),
{
    let t = tree_at(pages, root);
    assert(is_tree(pages, root, t));
    lemma_path_len(t, None, None, height(t), key);
    if t is Leaf {
        let list = nums(leaves(t));
        assert(list =~= seq![root]);
        assert(link_ok(pages, list, idx(0)));
    }
}

/// The nodes on a way through a tree can be read where there is a slot for it.
proof fn lemma_tree_walk(cache: CacheState, root: u64, key: Seq<u8>)
    requires
        has_tree(cache.pages, root),
        cache.unsaturated(),
        read_slot(cache, path_to(tree_at(cache.pages, root), key)) <= cache.available,
    ensures
        can_walk(cache, path_to(tree_at(cache.pages, root), key)),
{
    let t = tree_at(cache.pages, root);
    let way = path_to(t, key);
    assert(is_tree(cache.pages, root, t));
    lemma_path_pages(t, None, None, height(t), key);
    assert forall|j: int| 0 <= j < way.len() implies lockable((#[trigger] way[j]).0) by {
        assert(count(t, way[j].0) > 0);
    }
    lemma_walk(cache, way);
}

/// A tree is ready for an insertion if there is a slot to read it.
pub proof fn lemma_insert_ready(cache: CacheState, root: u64, key: Seq<u8>, size: nat)
    requires
        has_tree(cache.pages, root),
        cache.unsaturated(),
        read_slot(cache, path_to(tree_at(cache.pages, root), key)) <= cache.available,
    ensures
        ({
            let way = path_to(tree_at(cache.pages, root), key);
            &&& can_walk(cache, way)
            &&& growth(cache.pages, way, size) <= height(tree_at(cache.pages, root)) + 2
        }),
{
    let way = path_to(tree_at(cache.pages, root), key);
    lemma_root_links(cache.pages, root, key);
    lemma_insert_need_bound(cache, new_file(), way, size);
    lemma_tree_walk(cache, root, key);
}

/// How many pages a tree gains at most. One that has room in its only node gains none.
pub proof fn lemma_growth_bound(cache: CacheState, root: u64, key: Seq<u8>, size: nat)
    requires
        has_tree(cache.pages, root),
    ensures
        ({
            let t = tree_at(cache.pages, root);
            let more = growth(cache.pages, path_to(t, key), size);
            &&& more <= height(t) + 2
            &&& t is Leaf && entries_size(contents(t)) + size <= NODE_CAPACITY ==> more == 0
        }),
{
    let t = tree_at(cache.pages, root);
    let way = path_to(t, key);
    lemma_root_links(cache.pages, root, key);
    lemma_insert_need_bound(cache, new_file(), way, size);
    assert(is_tree(cache.pages, root, t));
    if t is Leaf {
        lemma_leaf_contents(t);
        assert(way.skip(1) =~= Seq::<(u64, int)>::empty());
        assert(splits(cache.pages, way.skip(1), size) == 0);
    }
}

/// A tree is ready for a removal if there is a slot to read it.
pub proof fn lemma_delete_ready(cache: CacheState, root: u64, key: Seq<u8>)
    requires
        has_tree(cache.pages, root),
        cache.unsaturated(),
        read_slot(cache, path_to(tree_at(cache.pages, root), key)) <= cache.available,
    ensures
        ({
            let way = path_to(tree_at(cache.pages, root), key);
            &&& can_walk(cache, way)
            &&& vanishing(cache.pages, way.skip(1)) <= height(tree_at(cache.pages, root))
        }),
{
    let way = path_to(tree_at(cache.pages, root), key);
    lemma_root_links(cache.pages, root, key);
    lemma_delete_need_bound(cache, way);
    lemma_tree_walk(cache, root, key);
}

/// An insertion takes no more than a tree of its height allows.
proof fn lemma_insert_slots(
    cache: CacheState,
    free: FreePages,
    root: u64,
    key: Seq<u8>,
    size: nat,
)
    requires
        has_tree(cache.pages, root),
    ensures
        ({
            let way = path_to(tree_at(cache.pages, root), key);
            &&& insert_need(cache, free, way, size) <= insert_slots(
                height(tree_at(cache.pages, root)),
            )
            &&& growth(cache.pages, way, size) <= height(tree_at(cache.pages, root)) + 2
        }),
{
    lemma_root_links(cache.pages, root, key);
    lemma_insert_need_bound(cache, free, path_to(tree_at(cache.pages, root), key), size);
}

/// Whatever happens to other pages, an insertion into a tree takes no more.
pub proof fn lemma_insert_kept(
    cache: CacheState,
    cache2: CacheState,
    free: FreePages,
    root: u64,
    key: Seq<u8>,
    size: nat,
)
    requires
        no_colder(cache, cache2),
        has_tree(cache.pages, root),
        has_tree(cache2.pages, root),
        tree_at(cache2.pages, root) == tree_at(cache.pages, root),
    ensures
        ({
            let way = path_to(tree_at(cache.pages, root), key);
            &&& insert_need(cache2, free, way, size) <= insert_need(cache, free, way, size)
            &&& read_slot(cache2, way) <= read_slot(cache, way)
            &&& growth(cache2.pages, way, size) == growth(cache.pages, way, size)
        }),
{
    let way = path_to(tree_at(cache.pages, root), key);
    lemma_same_way(cache.pages, cache2.pages, root, key);
    lemma_insert_grown_frame(cache, cache2, free, way, size);
    lemma_read_slot(cache, cache2, way);
}

/// Whatever happens to other pages, a removal from a tree takes no more.
pub proof fn lemma_delete_kept(cache: CacheState, cache2: CacheState, root: u64, key: Seq<u8>)
    requires
        no_colder(cache, cache2),
        has_tree(cache.pages, root),
        has_tree(cache2.pages, root),
        tree_at(cache2.pages, root) == tree_at(cache.pages, root),
    ensures
        ({
            let way = path_to(tree_at(cache.pages, root), key);
            &&& delete_need(cache2, way) <= delete_need(cache, way)
            &&& read_slot(cache2, way) <= read_slot(cache, way)
            &&& vanishing(cache2.pages, way.skip(1)) == vanishing(cache.pages, way.skip(1))
        }),
{
    let way = path_to(tree_at(cache.pages, root), key);
    lemma_root_links(cache.pages, root, key);
    lemma_same_way(cache.pages, cache2.pages, root, key);
    lemma_delete_lost_frame(cache, cache2, way);
    lemma_read_slot(cache, cache2, way);
}

/// What one tree after another takes at most.
pub proof fn lemma_total_slots_next(pages: Map<u64, Seq<u8>>, roots: Seq<u64>, i: int)
    requires
        0 <= i < roots.len(),
    ensures
        total_slots(pages, roots.skip(i)) == insert_slots(height(tree_at(pages, roots[i])))
            + total_slots(pages, roots.skip(i + 1)),
{
    assert(roots.skip(i)[0] == roots[i]);
    assert(roots.skip(i).skip(1) =~= roots.skip(i + 1));
}

/// A tree takes at least as many slots as it is high.
pub proof fn lemma_total_slots_height(pages: Map<u64, Seq<u8>>, roots: Seq<u64>)
    ensures
        total_height(pages, roots) <= total_slots(pages, roots),
    decreases roots.len(),
{
    if roots.len() > 0 {
        lemma_total_slots_height(pages, roots.skip(1));
    }
}

/// Lower trees take no more.
pub proof fn lemma_total_slots_lower(
    pages: Map<u64, Seq<u8>>,
    pages2: Map<u64, Seq<u8>>,
    roots: Seq<u64>,
)
    requires
        forall|i: int|
            0 <= i < roots.len() ==> height(tree_at(pages2, #[trigger] roots[i])) <= height(
                tree_at(pages, roots[i]),
            ),
    ensures
        total_slots(pages2, roots) <= total_slots(pages, roots),
    decreases roots.len(),
{
    if roots.len() > 0 {
        let rest = roots.skip(1);
        assert(height(tree_at(pages2, roots[0])) <= height(tree_at(pages, roots[0])));
        assert forall|i: int| 0 <= i < rest.len() implies height(
            tree_at(pages2, #[trigger] rest[i]),
        ) <= height(tree_at(pages, rest[i])) by {
            assert(rest[i] == roots[i + 1]);
        }
        lemma_total_slots_lower(pages, pages2, rest);
    }
}

proof fn lemma_index_costs_bound(
    c: Collection,
    cache: CacheState,
    free: FreePages,
    json: Json,
    id: u64,
    k: int,
)
    requires
        0 <= k <= c.indices@.len(),
        forall|i: int| 0 <= i < c.roots().len() ==> has_tree(cache.pages, #[trigger] c.roots()[i]),
    ensures
        c.index_insert_costs(cache, free, json, id, k) <= total_slots(
            cache.pages,
            c.roots().skip(k + 1),
        ),
        c.index_growths(cache.pages, json, id, k) <= total_height(
            cache.pages,
            c.roots().skip(k + 1),
        ) + 2 * (c.indices@.len() - k),
    decreases c.indices@.len() - k,
{
    if k < c.indices@.len() {
        let roots = c.roots();
        assert(roots[k + 1] == c.indices@[k].btree.root());
        lemma_total_slots_next(cache.pages, roots, k + 1);
        lemma_total_height_next(cache.pages, roots, k + 1);
        match index_key(c.indices@[k].field@, json, id) {
            Some(key) => {
                let more = growth(
                    cache.pages,
                    c.index_way(cache.pages, k, key),
                    key.len() + 14,
                );
                lemma_insert_slots(cache, free, roots[k + 1], key, key.len() + 14);
                lemma_index_costs_bound(c, cache, free.taken_many(more), json, id, k + 1);
            },
            None => lemma_index_costs_bound(c, cache, free, json, id, k + 1),
        }
    }
}

/// The insertion of a document takes no more slots and pages than the heights of the
/// trees allow, and one for each external page.
pub proof fn law_insert_room_by_heights(
    c: Collection,
    cache: CacheState,
    free: FreePages,
    json: Json,
    id: u64,
)
    requires
        c.inv(cache.pages, free),
    ensures
        c.insert_room(cache, free, json, id) <= c.insert_bound(cache.pages, json_text(json).len()),
        c.insert_growth(cache.pages, json, id) <= c.insert_pages(
            cache.pages,
            json_text(json).len(),
        ),
{
    reveal(Collection::insert_room);
    reveal(Collection::insert_growth);
    reveal(Collection::insert_bound);
    let len = json_text(json).len();
    let size = record_len(len) + 14;
    let roots = c.roots();
    let free1 = free.taken_many(document_chunks(len));
    assert(roots.skip(0) =~= roots);
    assert(roots[0] == c.document_tree.root());
    assert(has_tree(cache.pages, roots[0]));
    lemma_total_slots_next(cache.pages, roots, 0);
    lemma_total_height_next(cache.pages, roots, 0);
    let free2 = free1.taken_many(
        growth(cache.pages, c.document_way(cache.pages, id), size),
    );
    lemma_index_costs_bound(c, cache, free2, json, id, 0);
    lemma_insert_slots(cache, free1, roots[0], be64_bytes(id), size);
    lemma_fresh_kept(cache, cache, free, document_chunks(len));
}

/// A removal takes no more than a tree of its height allows.
proof fn lemma_delete_slots(cache: CacheState, root: u64, key: Seq<u8>)
    requires
        has_tree(cache.pages, root),
    ensures
        ({
            let t = tree_at(cache.pages, root);
            let way = path_to(t, key);
            &&& delete_need(cache, way) <= delete_slots(height(t))
            &&& vanishing(cache.pages, way.skip(1)) <= height(t)
        }),
{
    lemma_root_links(cache.pages, root, key);
    lemma_delete_need_bound(cache, path_to(tree_at(cache.pages, root), key));
}

proof fn lemma_index_delete_costs_bound(
    c: Collection,
    cache: CacheState,
    json: Json,
    id: u64,
    k: int,
)
    requires
        0 <= k <= c.indices@.len(),
        forall|i: int| 0 <= i < c.roots().len() ==> has_tree(cache.pages, #[trigger] c.roots()[i]),
    ensures
        c.index_delete_costs(cache, json, id, k) <= total_delete_slots(
            cache.pages,
            c.roots().skip(k + 1),
        ),
        c.index_losses(cache.pages, json, id, k) <= total_height(
            cache.pages,
            c.roots().skip(k + 1),
        ),
    decreases c.indices@.len() - k,
{
    if k < c.indices@.len() {
        let roots = c.roots();
        assert(roots.skip(k + 1)[0] == roots[k + 1]);
        assert(roots.skip(k + 1).skip(1) =~= roots.skip(k + 2));
        assert(roots[k + 1] == c.indices@[k].btree.root());
        lemma_total_height_next(cache.pages, roots, k + 1);
        lemma_index_delete_costs_bound(c, cache, json, id, k + 1);
        if let Some(key) = probe_key(c.indices@[k].field@, json, id) {
            lemma_delete_slots(cache, roots[k + 1], key);
        }
    }
}

/// The deletion of a document takes no more slots than the heights of the trees
/// allow, and one for each of its external pages that takes one.
pub proof fn law_delete_room_by_heights(
    c: Collection,
    cache: CacheState,
    free: FreePages,
    id: u64,
)
    requires
        c.inv(cache.pages, free),
    ensures
        c.delete_room(cache, id) <= total_delete_slots(cache.pages, c.roots()) + (
        if c.docs(cache.pages).contains_key(id) {
            idle_count(cache, c.stored_pages(cache.pages, id))
        } else {
            0
        }),
        c.delete_losses(cache.pages, id) <= c.delete_pages(cache.pages, id),
{
    reveal(Collection::delete_room);
    reveal(Collection::delete_losses);
    let roots = c.roots();
    assert(roots.skip(0) =~= roots);
    assert(roots[0] == c.document_tree.root());
    assert forall|i: int| 0 <= i < roots.len() implies has_tree(
        cache.pages,
        #[trigger] roots[i],
    ) by {}
    lemma_total_height_next(cache.pages, roots, 0);
    lemma_index_delete_costs_bound(c, cache, c.docs(cache.pages)[id], id, 0);
    lemma_delete_slots(cache, roots[0], be64_bytes(id));
}

/// Whatever happens to other pages, what the indices from `k` on take does not grow.
proof fn lemma_index_insert_costs_kept(
    c: Collection,
    cache: CacheState,
    cache2: CacheState,
    free: FreePages,
    json: Json,
    id: u64,
    k: int,
)
    requires
        0 <= k <= c.indices@.len(),
        no_colder(cache, cache2),
        same_parts(c, cache.pages, cache2.pages),
    ensures
        c.index_insert_costs(cache2, free, json, id, k) <= c.index_insert_costs(
            cache,
            free,
            json,
            id,
            k,
        ),
        c.index_growths(cache2.pages, json, id, k) == c.index_growths(cache.pages, json, id, k),
    decreases c.indices@.len() - k,
{
    reveal(same_parts);
    if k < c.indices@.len() {
        let root = c.roots()[k + 1];
        assert(root == c.indices@[k].btree.root());
        match index_key(c.indices@[k].field@, json, id) {
            Some(key) => {
                lemma_insert_kept(cache, cache2, free, root, key, key.len() + 14);
                let more = growth(
                    cache.pages,
                    c.index_way(cache.pages, k, key),
                    key.len() + 14,
                );
                lemma_index_insert_costs_kept(
                    c,
                    cache,
                    cache2,
                    free.taken_many(more),
                    json,
                    id,
                    k + 1,
                );
            },
            None => lemma_index_insert_costs_kept(c, cache, cache2, free, json, id, k + 1),
        }
    }
}

/// One index after the other, while the trees of the others are as they were.
pub proof fn lemma_index_insert_step(
    c: Collection,
    cache: CacheState,
    cache2: CacheState,
    free: FreePages,
    json: Json,
    id: u64,
    k: int,
)
    requires
        0 <= k < c.indices@.len(),
        no_colder(cache, cache2),
        has_tree(cache.pages, c.roots()[k + 1]),
        has_tree(cache2.pages, c.roots()[k + 1]),
        tree_at(cache2.pages, c.roots()[k + 1]) == tree_at(cache.pages, c.roots()[k + 1]),
    ensures
        match index_key(c.indices@[k].field@, json, id) {
            Some(key) => {
                let way = c.index_way(cache2.pages, k, key);
                let more = growth(cache2.pages, way, key.len() + 14);
                let all = c.index_insert_costs(cache, free, json, id, k);
                let rest = c.index_insert_costs(
                    cache,
                    free.taken_many(more),
                    json,
                    id,
                    k + 1,
                );
                &&& read_slot(cache2, way) <= all
                &&& insert_need(cache2, free, way, key.len() + 14) + rest <= all
                &&& more + c.index_growths(cache.pages, json, id, k + 1) == c.index_growths(
                    cache.pages,
                    json,
                    id,
                    k,
                )
            },
            None => {
                &&& c.index_insert_costs(cache, free, json, id, k + 1) == c.index_insert_costs(
                    cache,
                    free,
                    json,
                    id,
                    k,
                )
                &&& c.index_growths(cache.pages, json, id, k + 1) == c.index_growths(
                    cache.pages,
                    json,
                    id,
                    k,
                )
            },
        },
{
    assert(c.roots()[k + 1] == c.indices@[k].btree.root());
    if let Some(key) = index_key(c.indices@[k].field@, json, id) {
        lemma_insert_kept(cache, cache2, free, c.roots()[k + 1], key, key.len() + 14);
    }
}

/// The same for removals.
pub proof fn lemma_index_delete_step(
    c: Collection,
    cache: CacheState,
    cache2: CacheState,
    json: Json,
    id: u64,
    k: int,
)
    requires
        0 <= k < c.indices@.len(),
        no_colder(cache, cache2),
        has_tree(cache.pages, c.roots()[k + 1]),
        has_tree(cache2.pages, c.roots()[k + 1]),
        tree_at(cache2.pages, c.roots()[k + 1]) == tree_at(cache.pages, c.roots()[k + 1]),
    ensures
        ({
            let all = c.index_delete_costs(cache, json, id, k);
            let rest = c.index_delete_costs(cache, json, id, k + 1);
            let losses = c.index_losses(cache.pages, json, id, k);
            let later = c.index_losses(cache.pages, json, id, k + 1);
            match probe_key(c.indices@[k].field@, json, id) {
                Some(key) => {
                    let way = c.index_way(cache2.pages, k, key);
                    &&& read_slot(cache2, way) <= all
                    &&& rest <= all
                    &&& if keys_of(c.index_entries(cache2.pages, k)).contains(key) {
                        &&& delete_need(cache2, way) + rest <= all
                        &&& vanishing(cache2.pages, way.skip(1)) + later == losses
                    } else {
                        later == losses
                    }
                },
                None => rest == all && later == losses,
            }
        }),
{
    assert(c.roots()[k + 1] == c.indices@[k].btree.root());
    assert(c.index_entries(cache2.pages, k) == c.index_entries(cache.pages, k));
    if let Some(key) = probe_key(c.indices@[k].field@, json, id) {
        lemma_delete_kept(cache, cache2, c.roots()[k + 1], key);
    }
}

/// Whatever happens to other pages, the insertion of a document takes no more.
pub proof fn lemma_insert_room_kept(
    c: Collection,
    cache: CacheState,
    cache2: CacheState,
    free: FreePages,
    json: Json,
    id: u64,
)
    requires
        no_colder(cache, cache2),
        same_parts(c, cache.pages, cache2.pages),
    ensures
        c.insert_room(cache2, free, json, id) <= c.insert_room(cache, free, json, id),
        c.insert_growth(cache2.pages, json, id) == c.insert_growth(cache.pages, json, id),
{
    reveal(same_parts);
    reveal(Collection::insert_room);
    reveal(Collection::insert_growth);
    let len = json_text(json).len();
    let size = record_len(len) + 14;
    let free1 = free.taken_many(document_chunks(len));
    let free2 = free1.taken_many(
        growth(cache.pages, c.document_way(cache.pages, id), size),
    );
    assert(c.roots()[0] == c.document_tree.root());
    lemma_fresh_kept(cache, cache2, free, document_chunks(len));
    lemma_insert_kept(cache, cache2, free1, c.roots()[0], be64_bytes(id), size);
    lemma_index_insert_costs_kept(c, cache, cache2, free2, json, id, 0);
}

proof fn lemma_index_delete_costs_kept(
    c: Collection,
    cache: CacheState,
    cache2: CacheState,
    json: Json,
    id: u64,
    k: int,
)
    requires
        0 <= k <= c.indices@.len(),
        no_colder(cache, cache2),
        same_parts(c, cache.pages, cache2.pages),
    ensures
        c.index_delete_costs(cache2, json, id, k) <= c.index_delete_costs(cache, json, id, k),
        c.index_losses(cache2.pages, json, id, k) == c.index_losses(cache.pages, json, id, k),
    decreases c.indices@.len() - k,
{
    reveal(same_parts);
    if k < c.indices@.len() {
        lemma_index_delete_costs_kept(c, cache, cache2, json, id, k + 1);
        let root = c.roots()[k + 1];
        assert(root == c.indices@[k].btree.root());
        if let Some(key) = probe_key(c.indices@[k].field@, json, id) {
            lemma_delete_kept(cache, cache2, root, key);
        }
    }
}

/// Whatever happens to other pages, the removal of a document takes no more.
pub proof fn lemma_delete_room_kept(c: Collection, cache: CacheState, cache2: CacheState, id: u64)
    requires
        no_colder(cache, cache2),
        same_parts(c, cache.pages, cache2.pages),
    ensures
        c.delete_room(cache2, id) <= c.delete_room(cache, id),
        c.delete_losses(cache2.pages, id) == c.delete_losses(cache.pages, id),
{
    reveal(same_parts);
    reveal(Collection::delete_room);
    reveal(Collection::delete_losses);
    if c.docs(cache.pages).contains_key(id) {
        assert(c.roots()[0] == c.document_tree.root());
        lemma_delete_kept(cache, cache2, c.roots()[0], be64_bytes(id));
        lemma_index_delete_costs_kept(c, cache, cache2, c.docs(cache.pages)[id], id, 0);
        lemma_idle_count(cache, cache2, c.stored_pages(cache.pages, id));
    }
}

/// What a removal takes does not depend on the order of write back.
pub proof fn lemma_index_delete_costs_same(
    c: Collection,
    cache: CacheState,
    cache2: CacheState,
    json: Json,
    id: u64,
    k: int,
)
    requires
        cache2.same_but_order(cache),
    ensures
        c.index_delete_costs(cache2, json, id, k) == c.index_delete_costs(cache, json, id, k),
    decreases c.indices@.len() - k,
{
    if k < c.indices@.len() {
        lemma_index_delete_costs_same(c, cache, cache2, json, id, k + 1);
        if let Some(key) = probe_key(c.indices@[k].field@, json, id) {
            lemma_removal_same(cache, cache2, c.index_way(cache.pages, k, key));
        }
    }
}

pub proof fn lemma_delete_room_same(c: Collection, cache: CacheState, cache2: CacheState, id: u64)
    requires
        cache2.same_but_order(cache),
    ensures
        c.delete_room(cache2, id) == c.delete_room(cache, id),
{
    reveal(Collection::delete_room);
    lemma_index_delete_costs_same(c, cache, cache2, c.docs(cache.pages)[id], id, 0);
    lemma_removal_same(cache, cache2, c.document_way(cache.pages, id));
    lemma_idle_count_same(cache, cache2, c.stored_pages(cache.pages, id));
}

pub proof fn lemma_insert_room_same(
    c: Collection,
    cache: CacheState,
    cache2: CacheState,
    free: FreePages,
    json: Json,
    id: u64,
)
    requires
        cache2.same_but_order(cache),
    ensures
        c.insert_room(cache2, free, json, id) == c.insert_room(cache, free, json, id),
{
    reveal(Collection::insert_room);
    let len = json_text(json).len();
    let size = record_len(len) + 14;
    let way = c.document_way(cache.pages, id);
    let free1 = free.taken_many(document_chunks(len));
    let free2 = free1.taken_many(growth(cache.pages, way, size));
    lemma_index_insert_costs_same(c, cache, cache2, free2, json, id, 0);
    lemma_insert_same(cache, cache2, free1, way, size);
    lemma_fresh_kept(cache, cache2, free, document_chunks(len));
    lemma_fresh_kept(cache2, cache, free, document_chunks(len));
}

pub proof fn lemma_index_insert_costs_same(
    c: Collection,
    cache: CacheState,
    cache2: CacheState,
    free: FreePages,
    json: Json,
    id: u64,
    k: int,
)
    requires
        cache2.same_but_order(cache),
    ensures
        c.index_insert_costs(cache2, free, json, id, k) == c.index_insert_costs(
            cache,
            free,
            json,
            id,
            k,
        ),
    decreases c.indices@.len() - k,
{
    if k < c.indices@.len() {
        match index_key(c.indices@[k].field@, json, id) {
            Some(key) => {
                let way = c.index_way(cache.pages, k, key);
                let more = growth(cache.pages, way, key.len() + 14);
                lemma_insert_same(cache, cache2, free, way, key.len() + 14);
                lemma_index_insert_costs_same(
                    c,
                    cache,
                    cache2,
                    free.taken_many(more),
                    json,
                    id,
                    k + 1,
                );
            },
            None => lemma_index_insert_costs_same(c, cache, cache2, free, json, id, k + 1),
        }
    }
}

/// A cache with slots for each level of the trees and for the external pages, and a file that
/// can grow by as much, have room to insert a document.
pub proof fn law_room_that_is_enough_to_insert(
    c: Collection,
    cache: CacheState,
    allocator: PageAllocator,
    json: Json,
    id: u64,
)
    requires
        c.inv(cache.pages, allocator@),
        ({
            let trees = c.indices@.len() + 1;
            let external = json_text(json).len() / 8184 + 1;
            let levels = total_height(cache.pages, c.roots());
            &&& cache.available > 2 * levels + 4 * trees + external
            &&& allocator@.frontier + levels + 2 * trees + external < u64::MAX
            &&& allocator.allocs() + levels + 2 * trees + external <= usize::MAX
        }),
    ensures
        c.can_add(cache, allocator, json, id),
{
    let len = json_text(json).len();
    law_insert_room_by_heights(c, cache, allocator@, json, id);
    reveal(Collection::insert_bound);
    lemma_total_slots_levels(cache.pages, c.roots());
    assert(document_chunks(len) <= len / 8184 + 1);
}

/// The slots by the levels of the trees.
pub proof fn lemma_total_slots_levels(pages: Map<u64, Seq<u8>>, roots: Seq<u64>)
    ensures
        total_slots(pages, roots) <= 2 * total_height(pages, roots) + 4 * roots.len(),
        total_delete_slots(pages, roots) <= total_height(pages, roots) + 3 * roots.len(),
    decreases roots.len(),
{
    if roots.len() > 0 {
        lemma_total_slots_levels(pages, roots.skip(1));
    }
}

/// A cache with slots for each level of the trees and for the external pages of a document has
/// room to delete it.
pub proof fn law_room_that_is_enough_to_delete(
    c: Collection,
    cache: CacheState,
    allocator: PageAllocator,
    id: u64,
)
    requires
        c.inv(cache.pages, allocator@),
        allocator@.wf(),
        cache.unsaturated(),
        ({
            let trees = c.indices@.len() + 1;
            let levels = total_height(cache.pages, c.roots());
            let external = if c.docs(cache.pages).contains_key(id) {
                c.stored_pages(cache.pages, id).len()
            } else {
                0
            };
            &&& cache.available > levels + 3 * trees + external
            &&& allocator.frees() + levels + c.stored_chunks(cache.pages, id) <= usize::MAX
        }),
    ensures
        c.can_remove(cache, allocator, id),
{
    law_delete_room_by_heights(c, cache, allocator@, id);
    lemma_total_slots_levels(cache.pages, c.roots());
    lemma_slot_to_read_all(c, cache, allocator@);
    lemma_idle_few(cache, c.stored_pages(cache.pages, id));
}

/// A page takes no more than one slot.
pub proof fn lemma_idle_few(cache: CacheState, list: Seq<u64>)
    ensures
        idle_count(cache, list) <= list.len(),
    decreases list.len(),
{
    if list.len() > 0 {
        lemma_idle_few(cache, list.drop_last());
    }
}

/// The insertion of a document takes no more slots than the levels of the trees allow, whatever
/// pages are handed out.
pub proof fn lemma_room_with_any_pages(
    c: Collection,
    cache: CacheState,
    free: FreePages,
    other: FreePages,
    json: Json,
    id: u64,
)
    requires
        c.inv(cache.pages, free),
    ensures
        c.insert_room(cache, other, json, id) <= 2 * total_height(cache.pages, c.roots()) + 4
            * c.roots().len() + document_chunks(json_text(json).len()),
{
    reveal(Collection::insert_room);
    let len = json_text(json).len();
    let size = record_len(len) + 14;
    let roots = c.roots();
    let free1 = other.taken_many(document_chunks(len));
    assert(roots.skip(0) =~= roots);
    assert(roots[0] == c.document_tree.root());
    assert(has_tree(cache.pages, roots[0]));
    lemma_total_slots_next(cache.pages, roots, 0);
    let free2 = free1.taken_many(
        growth(cache.pages, c.document_way(cache.pages, id), size),
    );
    lemma_index_costs_bound(c, cache, free2, json, id, 0);
    lemma_insert_slots(cache, free1, roots[0], be64_bytes(id), size);
    lemma_fresh_kept(cache, cache, other, document_chunks(len));
    lemma_total_slots_levels(cache.pages, roots);
}

/// Slots for each level of the trees, for the external pages of the old document and for those of
/// the new one, and a file that can grow by as much, are enough to replace a document.
pub proof fn law_room_that_is_enough_to_replace(
    c: Collection,
    cache: CacheState,
    allocator: PageAllocator,
    id: u64,
    json: Json,
)
    requires
        c.inv(cache.pages, allocator@),
        ({
            let trees = c.indices@.len() + 1;
            let levels = total_height(cache.pages, c.roots());
            let old_ones = if c.docs(cache.pages).contains_key(id) {
                c.stored_pages(cache.pages, id).len()
            } else {
                0
            };
            let external = json_text(json).len() / 8184 + 1;
            &&& cache.available > 3 * levels + 7 * trees + old_ones + external
            &&& allocator.frees() + levels + c.stored_chunks(cache.pages, id) <= usize::MAX
            &&& allocator@.frontier + levels + 2 * trees + external < u64::MAX
            &&& allocator.allocs() + levels + 2 * trees + external <= usize::MAX
        }),
    ensures
        c.surely_replaceable(cache, allocator, id, json),
{
    let len = json_text(json).len();
    law_delete_room_by_heights(c, cache, allocator@, id);
    reveal(Collection::insert_bound);
    lemma_total_slots_levels(cache.pages, c.roots());
    lemma_idle_few(cache, c.stored_pages(cache.pages, id));
    assert(document_chunks(len) <= len / 8184 + 1);
}

} // verus!
