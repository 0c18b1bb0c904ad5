//! A database is a file with a number of named collections. A catalog, which is
//! itself a collection, holds a description of each of them.

use vstd::prelude::*;

use crate::btree::{can_read, has_tree, tree_at};
use crate::btree_delete::can_free;
use crate::btree_insert::{can_allocate, same_session};
use crate::btree_model::{contents, count, size, Tree};
use crate::btree_node::keys_of;
use crate::catalog::{
    described_uses, ids_fit, is_stored, lemma_described_uses, lemma_kept_spared,
    lemma_parts_changed, lemma_parts_recorded, lemma_stored, parts_ok,
};
use crate::collection::{
    document_chunks, index_given_up, lemma_index_dropped, lemma_same_trees, lemma_tree_entries,
    total_height, Collection, Index,
};
use crate::documents::{documents, entries_at, index_ok, lemma_entry_at};
use crate::field_path::{indices_fit, parse_path, path_text, split_dots, FieldPath, PathStep};
use crate::key_encoding::{be64, law_number_bytes_keep_order, lemma_be64_inverse, DocId};
use crate::key_order::{group_lex_order, lex_lt};
use crate::layout::{lemma_layout_tree, pages_used, spared, trees_at};
use crate::metadata::{
    described_name, describes, index_metadata, indices_field, lemma_described,
    lemma_new_description, lemma_same_description, metadata_ok, new_metadata, next_id, page_field,
    path_field,
};
use crate::needs::{
    law_delete_room_by_heights, law_insert_room_by_heights, law_room_that_is_enough_to_insert,
    lemma_delete_room_kept, lemma_delete_room_same, lemma_idle_few, lemma_insert_bound_kept,
    lemma_insert_room_kept, lemma_room_with_any_pages, lemma_total_slots_levels,
};
use crate::page_allocator::{
    lemma_stored_unique, new_file, room, stored_free_pages, FreePages, PageAllocator,
};
use crate::page_cache::{
    apply_ops, commit_ops, lockable, CacheState, PageCache, PageNum, PersistentStore, StoreOp,
    TransactionGuard, INVALID_PAGE, PAGE_SIZE,
};
use crate::recovery::{
    attached, consistent, initial_log, law_commit_completes, law_commit_is_atomic,
    law_replay_attaches, law_replay_is_restartable, law_transaction_is_atomic,
    law_zeros_are_consistent, recovered, same_place,
};
use crate::room::{lemma_in_leaf_same, lemma_slot_to_read_all};
use crate::scan::{
    beyond, document_list, entries_from, item_view, law_scan_lists_all, range_key, IndexScan,
    SequentialScan,
};
use crate::slots::slot_for;
use crate::superblock::{init_superblock, SUPERBLOCK_FPID};
use crate::util::be64_bytes;
use crate::value::{
    field_of, json_ok, json_text, option_view, storable, str_equal, Json, Number, Value,
};
use crate::wal::LogState;

verus! {

/// How many pages are kept in memory.
pub const PAGE_CACHE_SIZE: usize = 128;

/// The root of the catalog.
pub const META_COLLECTION_FPID: u64 = 11;

/// A collection with its name and the identifier of its description.
pub struct CollectionEntry {
    pub name: String,
    pub docid: DocId,
    pub collection: Collection,
}

pub struct Database<S: PersistentStore> {
    /// On-disk storage of collection metadata
    pub meta_collection: Collection,
    /// Collection objects, each under another name
    pub collections: Vec<CollectionEntry>,
    pub page_cache: PageCache<S>,
    pub page_allocator: PageAllocator,
}

/// All identifiers in use come before the next one.
pub open spec fn ids_below(c: Collection, pages: Map<u64, Seq<u8>>) -> bool {
    forall|id: u64| #[trigger] c.docs(pages).contains_key(id) ==> id < c.next_docid
}

/// No page is locked.
pub open spec fn quiet(cache: CacheState) -> bool {
    forall|num: u64| #[trigger] cache.refs[num] == 0
}

/// The place of a name in a list.
pub open spec fn find_name(names: Seq<Seq<char>>, name: Seq<char>) -> Option<int> {
    if names.contains(name) {
        Some(names.index_of(name))
    } else {
        None
    }
}

/// The list has an entry for the name of a description, which is that of this
/// description or of a later one.
pub open spec fn listed(entries: Seq<CollectionEntry>, id: u64, name: Seq<char>) -> bool {
    exists|i: int|
        0 <= i < entries.len() && (#[trigger] entries[i]).name@ == name && entries[i].docid.0 >= id
}

impl<S: PersistentStore> Database<S> {
    pub open spec fn pages(&self) -> Map<u64, Seq<u8>> {
        self.page_cache@.pages
    }

    /// The names of the collections.
    pub open spec fn names(&self) -> Seq<Seq<char>> {
        self.collections@.map_values(|entry: CollectionEntry| entry.name@)
    }

    /// The place of the collection with the given name.
    pub open spec fn find(&self, name: Seq<char>) -> Option<int> {
        find_name(self.names(), name)
    }

    /// The documents of a collection.
    pub open spec fn docs(&self, i: int) -> Map<u64, Json> {
        self.collections@[i].collection.docs(self.pages())
    }

    /// The descriptions of the collections.
    pub open spec fn catalog(&self) -> Map<u64, Json> {
        self.meta_collection.docs(self.pages())
    }

    /// A collection is the one that its description describes.
    pub open spec fn entry_ok(&self, i: int) -> bool {
        let entry = self.collections@[i];
        &&& self.catalog().contains_key(entry.docid.0)
        &&& describes(self.catalog()[entry.docid.0], entry.collection)
        &&& described_name(self.catalog()[entry.docid.0]) == entry.name@
        &&& entry.collection.name@ == entry.name@
        &&& entry.collection.fields_ok()
        &&& ids_below(entry.collection, self.pages())
    }

    pub open spec fn inv(&self) -> bool {
        &&& self.page_cache.inv()
        &&& quiet(self.page_cache@)
        &&& self.page_allocator.inv(self.pages())
        &&& parts_ok(self.meta_collection, self.catalog(), self.pages(), self.page_allocator@)
        &&& self.meta_collection.document_tree.root() == META_COLLECTION_FPID
        &&& self.meta_collection.indices@.len() == 0
        &&& ids_below(self.meta_collection, self.pages())
        &&& forall|i: int| 0 <= i < self.collections@.len() ==> #[trigger] self.entry_ok(i)
        &&& forall|i: int, j: int|
            0 <= i < j < self.collections@.len() ==> (#[trigger] self.collections@[i]).docid != (
            #[trigger] self.collections@[j]).docid && self.collections@[i].name@
                != self.collections@[j].name@
        &&& forall|id: u64| #[trigger]
            self.catalog().contains_key(id) ==> listed(
                self.collections@,
                id,
                described_name(self.catalog()[id]),
            )
    }
}

/// Identifiers that come before the next one fit.
proof fn lemma_ids_fit(c: Collection, pages: Map<u64, Seq<u8>>, free: FreePages)
    requires
        c.inv(pages, free),
        ids_below(c, pages),
    ensures
        ids_fit(c, pages),
{
    let entries = c.entries(pages);
    if entries.len() > 0 {
        let last = entries.len() - 1;
        assert(c.roots()[0] == c.document_tree.root());
        lemma_layout_tree(pages, free, c.roots(), c.external(pages), 0);
        lemma_tree_entries(pages, c.document_tree.root());
        lemma_entry_at(entries, last);
        lemma_be64_inverse(entries[last].key);
        assert(c.docs(pages).contains_key(be64(entries[last].key)));
    }
}

/// The roots of a collection are pages.
proof fn lemma_roots_valid(c: Collection, pages: Map<u64, Seq<u8>>, free: FreePages)
    requires
        c.inv(pages, free),
        free.wf(),
    ensures
        c.document_tree.root() != INVALID_PAGE,
        forall|i: int|
            0 <= i < c.indices@.len() ==> (#[trigger] c.indices@[i]).btree.root() != INVALID_PAGE,
{
    let roots = c.roots();
    assert forall|i: int| 0 <= i < roots.len() implies #[trigger] roots[i] != INVALID_PAGE by {
        lemma_layout_tree(pages, free, roots, c.external(pages), i);
        assert(count(tree_at(pages, roots[i]), roots[i]) > 0);
    }
    assert(roots[0] == c.document_tree.root());
    assert forall|i: int| 0 <= i < c.indices@.len() implies (
    #[trigger] c.indices@[i]).btree.root() != INVALID_PAGE by {
        assert(roots[i + 1] == c.indices@[i].btree.root());
    }
}

impl<S: PersistentStore> Database<S> {
    /// Looks a collection up by its name.
    pub(crate) fn find_collection(&self, name: &str) -> (result: Option<usize>)
        ensures
            match result {
                Some(i) => self.find(name@) is Some && i < self.collections@.len()
                    && self.collections@[i as int].name@ == name@ && (self.inv() ==> self.find(
                    name@,
                ) == Some(i as int)),
                None => self.find(name@) is None,
            },
    {
        let mut i: usize = 0;
        while i < self.collections.len()
            invariant
                i <= self.collections@.len(),
                forall|j: int|
                    0 <= j < i ==> (#[trigger] self.collections@[j]).name@ != name@,
            decreases self.collections@.len() - i,
        {
            if str_equal(self.collections[i].name.as_str(), name) {
                proof {
                    let names = self.names();
                    assert(names[i as int] == name@);
                    let j = names.index_of(name@);
                    assert(names[j] == self.collections@[j].name@);
                    if self.inv() && j > i {
                        assert(self.collections@[i as int].name@ != self.collections@[j].name@);
                    }
                }
                return Some(i);
            }
            i = i + 1;
        }
        proof {
            let names = self.names();
            if names.contains(name@) {
                let j = names.index_of(name@);
                assert(names[j] == self.collections@[j].name@);
            }
        }
        None
    }

    /// A transaction must be active in order to change the database.
    pub fn begin_transaction(&mut self) -> (guard: TransactionGuard)
        requires
            old(self).inv(),
            !old(self).page_cache@.in_transaction,
        ensures
            final(self).inv(),
            final(self).page_cache@ == (CacheState {
                in_transaction: true,
                ..old(self).page_cache@
            }),
            final(self).meta_collection == old(self).meta_collection,
            final(self).collections == old(self).collections,
            final(self).page_allocator == old(self).page_allocator,
    {
        let guard = self.page_cache.begin_transaction();
        proof {
            lemma_same_contents(*old(self), *self);
        }
        guard
    }

    /// Ends a transaction and writes all that it has changed to disk.
    pub fn end_transaction(&mut self, guard: TransactionGuard)
        requires
            old(self).inv(),
            old(self).page_cache@.in_transaction,
        ensures
            final(self).inv(),
            final(self).page_cache@ == old(self).page_cache@.commit(),
            final(self).pages() == old(self).pages(),
            final(self).meta_collection == old(self).meta_collection,
            final(self).collections == old(self).collections,
            final(self).page_allocator == old(self).page_allocator,
            attached(old(self).page_cache@.log, old(self).page_cache@.store) ==> {
                let disk = final(self).page_cache@.store;
                &&& attached(final(self).page_cache@.log, disk)
                &&& consistent(initial_log(), disk)
                &&& can_open(disk)
                &&& opened_pages(disk) == final(self).pages()
            },
    {
        let ghost before = self.page_cache;
        proof {
            before.lemma_disk();
        }
        self.page_cache.end_transaction(guard);
        proof {
            lemma_same_contents(*old(self), *self);
            if attached(before@.log, before@.store) {
                law_commit_leaves_log_ready(&before);
                assert(self.page_cache@.dirty =~= Set::<u64>::empty()) by {
                    assert forall|n: u64| !self.page_cache@.dirty.contains(n) by {
                        if before@.dirty.contains(n) {
                            assert(before@.write_back.contains(n));
                        }
                    }
                }
                law_committed_database_is_reopened(self);
            }
        }
    }
}

/// A database with the same pages and collections is the same.
pub proof fn lemma_same_contents<S: PersistentStore>(a: Database<S>, b: Database<S>)
    requires
        a.inv(),
        b.page_cache.inv(),
        b.page_cache@.pages == a.page_cache@.pages,
        b.page_cache@.refs == a.page_cache@.refs,
        b.meta_collection == a.meta_collection,
        b.collections == a.collections,
        b.page_allocator == a.page_allocator,
    ensures
        b.inv(),
{
    assert forall|i: int| 0 <= i < b.collections@.len() implies #[trigger] b.entry_ok(i) by {
        assert(a.entry_ok(i));
    }
}

/// A collection of the database has changed, or was left as it is, and the
/// others were spared.
proof fn lemma_entries_changed<S: PersistentStore>(
    a: Database<S>,
    b: Database<S>,
    i: int,
    json: Json,
)
    requires
        a.inv(),
        0 <= i < a.collections@.len(),
        b.page_cache.inv(),
        quiet(b.page_cache@),
        b.page_allocator.inv(b.pages()),
        b.meta_collection.document_tree == a.meta_collection.document_tree,
        b.meta_collection.indices@.len() == 0,
        parts_ok(b.meta_collection, b.catalog(), b.pages(), b.page_allocator@),
        ids_below(b.meta_collection, b.pages()),
        b.catalog() == a.catalog().insert(a.collections@[i].docid.0, json),
        b.collections@.len() == a.collections@.len(),
        forall|j: int|
            0 <= j < a.collections@.len() && j != i ==> (#[trigger] b.collections@[j])
                == a.collections@[j] && a.collections@[j].collection.docs(b.pages())
                == a.collections@[j].collection.docs(a.pages()),
        b.collections@[i].name@ == a.collections@[i].name@,
        b.collections@[i].docid == a.collections@[i].docid,
        describes(json, b.collections@[i].collection),
        described_name(json) == b.collections@[i].name@,
        b.collections@[i].collection.name@ == b.collections@[i].name@,
        b.collections@[i].collection.fields_ok(),
        ids_below(b.collections@[i].collection, b.pages()),
    ensures
        b.inv(),
        b.names() == a.names(),
        forall|j: int|
            0 <= j < a.collections@.len() && j != i ==> #[trigger] b.docs(j) == a.docs(j),
{
    assert(b.names() =~= a.names()) by {
        assert forall|j: int| 0 <= j < a.names().len() implies b.names()[j] == a.names()[j] by {
            if j != i {
                assert(b.collections@[j] == a.collections@[j]);
            }
        }
    }
    assert forall|j: int| 0 <= j < b.collections@.len() implies #[trigger] b.entry_ok(j) by {
        if j != i {
            assert(a.entry_ok(j));
            assert(b.collections@[j] == a.collections@[j]);
            if j < i {
                assert(a.collections@[j].docid != a.collections@[i].docid);
            } else {
                assert(a.collections@[i].docid != a.collections@[j].docid);
            }
        }
    }
    assert forall|j: int, k: int| 0 <= j < k < b.collections@.len() implies (
    #[trigger] b.collections@[j]).docid != (#[trigger] b.collections@[k]).docid
        && b.collections@[j].name@ != b.collections@[k].name@ by {
        assert(a.collections@[j].docid != a.collections@[k].docid && a.collections@[j].name@
            != a.collections@[k].name@);
    }
    assert forall|j: int| 0 <= j < a.collections@.len() && j != i implies #[trigger] b.docs(j)
        == a.docs(j) by {
        assert(b.collections@[j] == a.collections@[j]);
    }
    assert forall|id: u64| #[trigger] b.catalog().contains_key(id) implies listed(
        b.collections@,
        id,
        described_name(b.catalog()[id]),
    ) by {
        if id == a.collections@[i].docid.0 {
            assert(b.collections@[i].docid.0 == id);
        } else {
            assert(a.catalog().contains_key(id));
            let name = described_name(a.catalog()[id]);
            let j = choose|j: int|
                0 <= j < a.collections@.len() && (#[trigger] a.collections@[j]).name@ == name
                    && a.collections@[j].docid.0 >= id;
            assert(b.collections@[j].name@ == name && b.collections@[j].docid.0 >= id);
        }
    }
}

/// What comes of the insertion of a document into the collection with a name.
pub open spec fn inserted<S: PersistentStore>(
    before: Database<S>,
    after: Database<S>,
    name: Seq<char>,
    json: Json,
    result: Result<DocId, String>,
) -> bool {
    match before.find(name) {
        Some(i) => {
            let collection = before.collections@[i].collection;
            let later = Collection {
                next_docid: (collection.next_docid + 1) as u64,
                ..collection
            };
            &&& result matches Ok(docid) && docid.0 == collection.next_docid
            &&& after.docs(i) == before.docs(i).insert(collection.next_docid, json)
            &&& after.collections@ == before.collections@.update(
                i,
                CollectionEntry { collection: later, ..before.collections@[i] },
            )
            &&& forall|j: int|
                0 <= j < before.collections@.len() && j != i ==> #[trigger] after.docs(j)
                    == before.docs(j)
        },
        None => {
            &&& result matches Err(message) && message@ == "Collection not found"@
            &&& after == before
        },
    }
}

impl<S: PersistentStore> Database<S> {
    /// There is room to insert a document into a collection.
    pub open spec fn can_insert(&self, i: int, json: Json) -> bool {
        let collection = self.collections@[i].collection;
        &&& collection.next_docid < u64::MAX
        &&& collection.can_add(
            self.page_cache@,
            self.page_allocator,
            json,
            collection.next_docid,
        )
    }

    /// Inserts a document into a collection.
    pub fn insert_document(&mut self, collection_name: &str, document: &Value) -> (result: Result<
        DocId,
        String,
    >)
        requires
            old(self).inv(),
            old(self).find(collection_name@) matches Some(i) ==> {
                &&& old(self).page_cache@.in_transaction
                &&& document@ is Object
                &&& storable(document@)
                &&& old(self).can_insert(i, document@)
            },
        ensures
            final(self).inv(),
            final(self).page_allocator.balance() == old(self).page_allocator.balance(),
            final(self).names() == old(self).names(),
            final(self).catalog() == old(self).catalog(),
            same_session(final(self).page_cache@, old(self).page_cache@),
            inserted(*old(self), *final(self), collection_name@, document@, result),
    {
        let i: usize = match self.find_collection(collection_name) {
            Some(i) => i,
            None => return Err("Collection not found".to_owned()),
        };
        let ghost before = *self;
        let ghost pages = self.pages();
        let ghost free = self.page_allocator@;
        let ghost c = self.collections@[i as int].collection;
        let ghost id = self.collections@[i as int].docid.0;
        let ghost json = self.catalog()[id];
        proof {
            assert(self.entry_ok(i as int));
            self.lemma_entry(i as int);
        }
        let mut entry = self.collections.remove(i);
        let docid = entry.collection.insert(document, &mut self.page_cache, &mut self.page_allocator);
        let ghost c2 = entry.collection;
        self.collections.insert(i, entry);
        proof {
            let pages2 = self.pages();
            let free2 = self.page_allocator@;
            lemma_same_trees(c, c2, pages2, free2);
            lemma_ids_fit(c2, pages2, free2);
            assert(describes(json, c2));
            lemma_kept_spared(
                pages,
                free,
                c.roots(),
                c.external(pages),
                pages2,
                free2,
                c2.roots(),
                c2.external(pages2),
            );
            lemma_described_uses(json, c, pages);
            lemma_parts_changed(
                before.meta_collection,
                before.catalog(),
                pages,
                free,
                pages2,
                free2,
                id,
                c.roots(),
                c.external(pages),
                c2,
                json,
            );
            assert(before.catalog().insert(id, json) =~= before.catalog());
            let after = *self;
            let at = i as int;
            assert forall|j: int| 0 <= j < before.collections@.len() && j != at implies (
            #[trigger] after.collections@[j]) == before.collections@[j]
                && before.collections@[j].collection.docs(pages2)
                == before.collections@[j].collection.docs(pages) by {
                assert(before.entry_ok(j));
                assert(describes(
                    before.catalog()[before.collections@[j].docid.0],
                    before.collections@[j].collection,
                ));
                if j < i {
                    assert(before.collections@[j].docid != before.collections@[i as int].docid);
                } else {
                    assert(before.collections@[i as int].docid != before.collections@[j].docid);
                }
            }
            lemma_entries_changed(before, after, at, json);
            assert(after.collections@ =~= before.collections@.update(
                at,
                CollectionEntry { collection: c2, ..before.collections@[at] },
            ));
        }
        Ok(docid)
    }

    /// What is known of a collection of the database.
    pub proof fn lemma_entry(&self, i: int)
        requires
            self.inv(),
            0 <= i < self.collections@.len(),
        ensures
            self.entry_ok(i),
            self.collections@[i].collection.inv(self.pages(), self.page_allocator@),
            field_of(self.catalog()[self.collections@[i].docid.0], "name"@) matches Some(
                Json::String(_),
            ),
            self.page_allocator@.wf(),
    {
        assert(self.entry_ok(i));
        let c = self.collections@[i].collection;
        let id = self.collections@[i].docid.0;
        assert(is_stored(self.catalog()[id], self.pages(), self.page_allocator@));
        lemma_stored(self.catalog()[id], c, self.pages(), self.page_allocator@);
        self.page_allocator.lemma_wf(self.pages());
    }
}

impl<S: PersistentStore> Database<S> {
    /// With a free slot the catalog and all collections can be read.
    pub proof fn lemma_readable(&self, i: int)
        requires
            self.inv(),
            self.page_cache@.available > 0,
            0 <= i < self.collections@.len(),
        ensures
            self.meta_collection.stored(self.pages()),
            self.meta_collection.can_read(self.page_cache@),
            self.collections@[i].collection.stored(self.pages()),
            self.collections@[i].collection.can_read(self.page_cache@),
    {
        self.lemma_entry(i);
        assert(self.page_cache@.unsaturated()) by {
            assert forall|num: u64| #[trigger] self.page_cache@.refs[num] < u32::MAX by {
                assert(self.page_cache@.refs[num] == 0);
            }
        }
        lemma_slot_to_read_all(self.meta_collection, self.page_cache@, self.page_allocator@);
        lemma_slot_to_read_all(
            self.collections@[i].collection,
            self.page_cache@,
            self.page_allocator@,
        );
    }
}

/// A collection was added to the database.
proof fn lemma_entry_added<S: PersistentStore>(
    a: Database<S>,
    b: Database<S>,
    entry: CollectionEntry,
    json: Json,
)
    requires
        a.inv(),
        b.page_cache.inv(),
        quiet(b.page_cache@),
        b.page_allocator.inv(b.pages()),
        b.meta_collection.document_tree == a.meta_collection.document_tree,
        b.meta_collection.indices@.len() == 0,
        parts_ok(b.meta_collection, b.catalog(), b.pages(), b.page_allocator@),
        ids_below(b.meta_collection, b.pages()),
        !a.catalog().contains_key(entry.docid.0),
        b.catalog() == a.catalog().insert(entry.docid.0, json),
        b.collections@ == a.collections@.push(entry),
        forall|j: int|
            0 <= j < a.collections@.len() ==> (#[trigger] a.collections@[j]).collection.docs(
                b.pages(),
            ) == a.collections@[j].collection.docs(a.pages()),
        a.find(entry.name@) is None,
        describes(json, entry.collection),
        described_name(json) == entry.name@,
        entry.collection.name@ == entry.name@,
        entry.collection.fields_ok(),
        ids_below(entry.collection, b.pages()),
    ensures
        b.inv(),
        b.names() == a.names().push(entry.name@),
        forall|j: int| 0 <= j < a.collections@.len() ==> #[trigger] b.docs(j) == a.docs(j),
{
    let n = a.collections@.len() as int;
    assert(b.names() =~= a.names().push(entry.name@));
    assert forall|j: int| 0 <= j < b.collections@.len() implies #[trigger] b.entry_ok(j) by {
        if j < n {
            assert(a.entry_ok(j));
            assert(b.collections@[j] == a.collections@[j]);
        }
    }
    assert forall|j: int, k: int| 0 <= j < k < b.collections@.len() implies (
    #[trigger] b.collections@[j]).docid != (#[trigger] b.collections@[k]).docid
        && b.collections@[j].name@ != b.collections@[k].name@ by {
        assert(b.collections@[j] == a.collections@[j]);
        if k < n {
            assert(b.collections@[k] == a.collections@[k]);
        } else {
            assert(a.entry_ok(j));
            assert(a.names()[j] == a.collections@[j].name@);
        }
    }
    assert forall|j: int| 0 <= j < a.collections@.len() implies #[trigger] b.docs(j) == a.docs(
        j,
    ) by {
        assert(b.collections@[j] == a.collections@[j]);
    }
    assert forall|id: u64| #[trigger] b.catalog().contains_key(id) implies listed(
        b.collections@,
        id,
        described_name(b.catalog()[id]),
    ) by {
        if id == entry.docid.0 {
            assert(b.collections@[n].docid.0 == id);
        } else {
            assert(a.catalog().contains_key(id));
            let name = described_name(a.catalog()[id]);
            let j = choose|j: int|
                0 <= j < a.collections@.len() && (#[trigger] a.collections@[j]).name@ == name
                    && a.collections@[j].docid.0 >= id;
            assert(b.collections@[j].name@ == name && b.collections@[j].docid.0 >= id);
        }
    }
}

/// What comes of adding a collection.
pub open spec fn created<S: PersistentStore>(
    before: Database<S>,
    after: Database<S>,
    name: Seq<char>,
    result: Result<DocId, String>,
) -> bool {
    match before.find(name) {
        Some(_) => {
            &&& result matches Err(message) && message@ == "Collection already exists"@
            &&& after == before
        },
        None => {
            let n = before.collections@.len() as int;
            &&& result matches Ok(docid) && docid.0 == before.meta_collection.next_docid
            &&& after.collections@.drop_last() == before.collections@
            &&& after.names() == before.names().push(name)
            &&& after.docs(n) == Map::<u64, Json>::empty()
            &&& after.collections@[n].docid.0 == before.meta_collection.next_docid
            &&& after.collections@[n].collection.name@ == name
            &&& after.collections@[n].collection.next_docid == 1
            &&& after.collections@[n].collection.document_tree.root()
                == before.page_allocator@.next()
            &&& after.collections@[n].collection.indices@.len() == 0
            &&& after.catalog() == before.catalog().insert(
                before.meta_collection.next_docid,
                new_metadata(name, before.page_allocator@.next()),
            )
            &&& forall|j: int| 0 <= j < n ==> #[trigger] after.docs(j) == before.docs(j)
        },
    }
}

impl<S: PersistentStore> Database<S> {
    /// There is room to add a collection.
    pub open spec fn can_create(&self, name: Seq<char>) -> bool {
        let meta = self.meta_collection;
        let json = new_metadata(name, self.page_allocator@.next());
        let free = self.page_allocator@;
        &&& meta.next_docid < u64::MAX
        &&& can_allocate(
            self.page_allocator,
            1 + meta.insert_growth(self.pages(), json, meta.next_docid),
        )
        &&& room(self.page_cache@) >= slot_for(self.page_cache@, free.next()) + meta.insert_room(
            self.page_cache@,
            free.taken(),
            json,
            meta.next_docid,
        )
    }

    /// Adds a collection.
    #[verifier::rlimit(40)]
    pub fn create_collection(&mut self, name: &str) -> (result: Result<DocId, String>)
        requires
            old(self).inv(),
            old(self).find(name@) is None ==> {
                &&& old(self).page_cache@.in_transaction
                &&& old(self).can_create(name@)
            },
        ensures
            final(self).inv(),
            final(self).page_allocator.balance() == old(self).page_allocator.balance(),
            same_session(final(self).page_cache@, old(self).page_cache@),
            created(*old(self), *final(self), name@, result),
    {
        if self.find_collection(name).is_some() {
            return Err("Collection already exists".to_owned());
        }
        let ghost before = *self;
        let ghost pages = self.pages();
        let ghost free = self.page_allocator@;
        let ghost none = Seq::<u64>::empty();
        let ghost id = self.meta_collection.next_docid;
        proof {
            self.page_allocator.lemma_wf(pages);
            free.lemma_alloc();
            assert(trees_at(pages, none) =~= Seq::<Tree>::empty());
        }
        let new_collection = Collection::create(
            name,
            &mut self.page_cache,
            &mut self.page_allocator,
        );
        let ghost c = new_collection;
        let metadata = new_collection.get_metadata();
        let ghost json = metadata@;
        let ghost pages1 = self.pages();
        let ghost free1 = self.page_allocator@;
        proof {
            self.page_allocator.lemma_wf(pages1);
            lemma_roots_valid(c, pages1, free1);
            lemma_described(c);
            lemma_kept_spared(
                pages,
                free,
                none,
                none,
                pages1,
                free1,
                c.roots(),
                c.external(pages1),
            );
            lemma_ids_fit(c, pages1, free1);
            lemma_parts_changed(
                before.meta_collection,
                before.catalog(),
                pages,
                free,
                pages1,
                free1,
                id,
                none,
                none,
                c,
                json,
            );
            assert(json->Object_0 =~= new_metadata(name@, free.next())->Object_0) by {
                assert(c.indices@.map_values(|index: Index| index_metadata(index)) =~= Seq::<
                    Json,
                >::empty());
            }
            assert(json == new_metadata(name@, free.next()));
            lemma_insert_room_kept(
                before.meta_collection,
                before.page_cache@,
                self.page_cache@,
                free1,
                json,
                id,
            );
        }
        let docid = self.meta_collection.insert(
            &metadata,
            &mut self.page_cache,
            &mut self.page_allocator,
        );
        self.collections.push(
            CollectionEntry { name: name.to_owned(), docid, collection: new_collection },
        );
        proof {
            let pages2 = self.pages();
            let free2 = self.page_allocator@;
            let descriptions = before.catalog().insert(id, json);
            lemma_parts_recorded(
                before.meta_collection,
                self.meta_collection,
                descriptions,
                pages1,
                free1,
                pages2,
                free2,
            );
            assert(describes(descriptions[id], c));
            assert(c.docs(pages2) == c.docs(pages1));
            let after = *self;
            assert forall|j: int| 0 <= j < before.collections@.len() implies (
            #[trigger] before.collections@[j]).collection.docs(pages2)
                == before.collections@[j].collection.docs(pages) by {
                assert(before.entry_ok(j));
                let other = before.collections@[j].docid.0;
                let o = before.collections@[j].collection;
                assert(before.catalog().contains_key(other));
                assert(describes(before.catalog()[other], o));
                assert(describes(descriptions[other], o));
            }
            lemma_entry_added(before, after, after.collections@.last(), json);
            assert(after.collections@.drop_last() =~= before.collections@);
        }
        Ok(docid)
    }

    /// The names of all collections.
    pub fn get_collection_list(&self) -> (names: Vec<String>)
        ensures
            names@.map_values(|name: String| name@) == self.names(),
    {
        let mut names: Vec<String> = Vec::new();
        let mut i: usize = 0;
        while i < self.collections.len()
            invariant
                i <= self.collections@.len(),
                names@.len() == i,
                forall|j: int|
                    0 <= j < i ==> (#[trigger] names@[j])@ == self.collections@[j].name@,
            decreases self.collections@.len() - i,
        {
            names.push(self.collections[i].name.clone());
            i = i + 1;
        }
        assert(names@.map_values(|name: String| name@) =~= self.names());
        names
    }
}

/// A collection was left as it is, but pages may have been lost.
proof fn lemma_left_alone<S: PersistentStore>(a: Database<S>, b: Database<S>, i: int)
    requires
        a.inv(),
        0 <= i < a.collections@.len(),
        b.page_cache.inv(),
        quiet(b.page_cache@),
        b.page_allocator.inv(b.pages()),
        b.meta_collection == a.meta_collection,
        b.collections@.len() == a.collections@.len(),
        forall|j: int|
            0 <= j < a.collections@.len() && j != i ==> (#[trigger] b.collections@[j])
                == a.collections@[j],
        b.collections@[i].name@ == a.collections@[i].name@,
        b.collections@[i].docid == a.collections@[i].docid,
        ({
            let c = a.collections@[i].collection;
            let c2 = b.collections@[i].collection;
            &&& c2.name@ == c.name@
            &&& c2.document_tree == c.document_tree
            &&& c2.next_docid == c.next_docid
            &&& c2.indices@ == c.indices@
            &&& c2.inv(b.pages(), b.page_allocator@)
            &&& c2.docs(b.pages()) == c.docs(a.pages())
            &&& spared(
                a.pages(),
                a.page_allocator@,
                c.roots(),
                c.external(a.pages()),
                b.pages(),
                b.page_allocator@,
                c2.roots(),
                c2.external(b.pages()),
            )
        }),
    ensures
        b.inv(),
        b.names() == a.names(),
        b.catalog() == a.catalog(),
        forall|j: int| 0 <= j < a.collections@.len() ==> #[trigger] b.docs(j) == a.docs(j),
{
    let c = a.collections@[i].collection;
    let c2 = b.collections@[i].collection;
    let id = a.collections@[i].docid.0;
    let json = a.catalog()[id];
    let pages = a.pages();
    let pages2 = b.pages();
    a.lemma_entry(i);
    lemma_described_uses(json, c, pages);
    assert(c2.roots() =~= c.roots());
    assert(describes(json, c2));
    lemma_ids_fit(c2, pages2, b.page_allocator@);
    lemma_parts_changed(
        a.meta_collection,
        a.catalog(),
        pages,
        a.page_allocator@,
        pages2,
        b.page_allocator@,
        id,
        c.roots(),
        c.external(pages),
        c2,
        json,
    );
    assert(a.catalog().insert(id, json) =~= a.catalog());
    assert forall|j: int| 0 <= j < a.collections@.len() && j != i implies (
    #[trigger] b.collections@[j]) == a.collections@[j] && a.collections@[j].collection.docs(pages2)
        == a.collections@[j].collection.docs(pages) by {
        assert(a.entry_ok(j));
        assert(describes(
            a.catalog()[a.collections@[j].docid.0],
            a.collections@[j].collection,
        ));
        if j < i {
            assert(a.collections@[j].docid != a.collections@[i].docid);
        } else {
            assert(a.collections@[i].docid != a.collections@[j].docid);
        }
    }
    lemma_entries_changed(a, b, i, json);
    assert forall|j: int| 0 <= j < a.collections@.len() implies #[trigger] b.docs(j) == a.docs(
        j,
    ) by {
        assert(j == i || b.docs(j) == a.docs(j));
    }
}

/// Only the list of the indices matters.
proof fn lemma_same_index_list(
    c: Collection,
    c2: Collection,
    pages: Map<u64, Seq<u8>>,
    free: FreePages,
)
    requires
        c.inv(pages, free),
        c2.document_tree == c.document_tree,
        c2.indices@ == c.indices@,
    ensures
        c2.inv(pages, free),
        c2.roots() == c.roots(),
        c2.docs(pages) == c.docs(pages),
        c2.external(pages) == c.external(pages),
{
    assert(c2.roots() =~= c.roots());
    assert forall|i: int| 0 <= i < c2.indices@.len() implies index_ok(
        #[trigger] c2.index_entries(pages, i),
        c2.indices@[i].field@,
        c2.docs(pages),
    ) by {
        assert(index_ok(c.index_entries(pages, i), c.indices@[i].field@, c.docs(pages)));
    }
}

/// The description of a collection to which an index was added.
pub open spec fn indexed_metadata(c: Collection, steps: Seq<PathStep>, root: u64) -> Json {
    Json::Object(
        seq![
            (
                "indices"@,
                Json::Array(
                    c.indices@.map_values(|index: Index| index_metadata(index)).push(
                        Json::Object(
                            seq![
                                ("path"@, Json::String(path_text(steps))),
                                ("root_pnum"@, Json::Number(Number::PosInt(root))),
                            ],
                        ),
                    ),
                ),
            ),
            ("name"@, Json::String(c.name@)),
            ("root_page_pnum"@, Json::Number(Number::PosInt(c.document_tree.root()))),
        ],
    )
}

/// The description after an index was added.
proof fn lemma_metadata_indexed(c: Collection, c2: Collection, steps: Seq<PathStep>)
    requires
        c2.document_tree == c.document_tree,
        c2.name@ == c.name@,
        c2.indices@.len() == c.indices@.len() + 1,
        c2.indices@.drop_last() == c.indices@,
        c2.indices@.last().field@ == steps,
    ensures
        c2.metadata() == indexed_metadata(c, steps, c2.indices@.last().btree.root()),
{
    let items = c.indices@.map_values(|index: Index| index_metadata(index));
    let items2 = c2.indices@.map_values(|index: Index| index_metadata(index));
    let last = index_metadata(c2.indices@.last());
    assert(items2 =~= items.push(last)) by {
        assert forall|i: int| 0 <= i < items.len() implies items2[i] == items[i] by {
            assert(c2.indices@.drop_last()[i] == c2.indices@[i]);
        }
    }
    let want = indexed_metadata(c, steps, c2.indices@.last().btree.root());
    assert(c2.metadata()->Object_0 =~= want->Object_0);
}

/// An index with the given root is complete, but the slots of the cache that are
/// left are too few to replace its collection's description in the catalog.
#[verifier::opaque]
pub open spec fn index_unrecorded<S: PersistentStore>(
    before: Database<S>,
    after: Database<S>,
    i: int,
    steps: Seq<PathStep>,
) -> bool {
    let entry = before.collections@[i];
    let root = before.page_allocator@.next();
    let t = tree_at(after.pages(), root);
    let json = indexed_metadata(entry.collection, steps, root);
    &&& has_tree(after.pages(), root)
    &&& index_ok(contents(t), steps, before.docs(i))
    &&& room(before.page_cache@) - room(after.page_cache@) <= size(t)
    &&& room(after.page_cache@) < before.meta_collection.delete_room(
        after.page_cache@,
        entry.docid.0,
    ) + before.meta_collection.insert_bound(after.pages(), json_text(json).len())
    &&& !before.meta_collection.replaceable_in_leaf(
        after.page_cache@,
        after.page_allocator,
        entry.docid.0,
        json,
    )
}

/// What comes of adding an index to the collection `i`.
pub open spec fn index_tried<S: PersistentStore>(
    before: Database<S>,
    after: Database<S>,
    i: int,
    steps: Seq<PathStep>,
    result: Result<(), String>,
) -> bool {
    let old_one = before.collections@[i].collection;
    let new_one = after.collections@[i].collection;
    &&& after.collections@ == before.collections@.update(
        i,
        CollectionEntry { collection: new_one, ..before.collections@[i] },
    )
    &&& new_one == (Collection { indices: new_one.indices, ..old_one })
    &&& room(before.page_cache@) >= before.index_room(i, steps) ==> result is Ok
    &&& match result {
        Ok(_) => {
            &&& new_one.indices@.len() == old_one.indices@.len() + 1
            &&& new_one.indices@.drop_last() == old_one.indices@
            &&& new_one.indices@.last().field@ == steps
            &&& after.catalog() == before.catalog().insert(
                before.collections@[i].docid.0,
                indexed_metadata(
                    old_one,
                    steps,
                    before.page_allocator@.next(),
                ),
            )
        },
        Err(message) => {
            &&& message@ == "cache full!"@
            &&& new_one.indices@ == old_one.indices@
            &&& after.catalog() == before.catalog()
            &&& index_unrecorded(before, after, i, steps) || index_given_up(
                old_one,
                before.page_cache@,
                before.page_allocator@,
                after.page_cache@,
                after.page_allocator@,
                steps,
            )
        },
    }
}

/// What comes of adding an index to the collection with a name.
pub open spec fn index_added<S: PersistentStore>(
    before: Database<S>,
    after: Database<S>,
    name: Seq<char>,
    field: Seq<char>,
    result: Result<(), String>,
) -> bool {
    match (before.find(name), parse_path(field)) {
        (None, _) => {
            &&& result matches Err(message) && message@ == "Collection not found"@
            &&& after == before
        },
        (Some(_), Err(error)) => {
            &&& result matches Err(message) && message@ == error
            &&& after == before
        },
        (Some(i), Ok(steps)) => index_tried(before, after, i, steps, result),
    }
}

/// An index was added to the collection `i`, and its new description was recorded.
proof fn lemma_index_recorded<S: PersistentStore>(
    before: Database<S>,
    after: Database<S>,
    i: int,
    c2: Collection,
    json: Json,
    pages1: Map<u64, Seq<u8>>,
    free1: FreePages,
)
    requires
        before.inv(),
        0 <= i < before.collections@.len(),
        after.page_cache.inv(),
        quiet(after.page_cache@),
        after.page_allocator.inv(after.pages()),
        after.meta_collection == before.meta_collection,
        after.collections@ == before.collections@.update(
            i,
            CollectionEntry { collection: c2, ..before.collections@[i] },
        ),
        ({
            let meta = before.meta_collection;
            let id = before.collections@[i].docid.0;
            let c = before.collections@[i].collection;
            let descriptions = before.catalog().insert(id, json);
            &&& parts_ok(meta, descriptions, pages1, free1)
            &&& meta.spares(pages1, free1, meta, after.pages(), after.page_allocator@)
            &&& meta.inv(after.pages(), after.page_allocator@)
            &&& after.catalog() == descriptions
            &&& ids_below(meta, after.pages())
            &&& describes(json, c2)
            &&& described_name(json) == before.collections@[i].name@
            &&& c2.name@ == c.name@
            &&& c2.fields_ok()
            &&& c2.next_docid == c.next_docid
            &&& c2.docs(pages1) == c.docs(before.pages())
            &&& forall|other: u64, o: Collection|
                #![trigger describes(before.catalog()[other], o)]
                before.catalog().contains_key(other) && other != id && describes(
                    before.catalog()[other],
                    o,
                ) && o.fields_ok() ==> o.docs(pages1) == o.docs(before.pages())
        }),
    ensures
        after.inv(),
        after.names() == before.names(),
        forall|j: int| 0 <= j < before.collections@.len() ==> #[trigger] after.docs(j)
            == before.docs(j),
{
    let meta = before.meta_collection;
    let id = before.collections@[i].docid.0;
    let descriptions = before.catalog().insert(id, json);
    let pages2 = after.pages();
    let free2 = after.page_allocator@;
    assert(before.entry_ok(i));
    lemma_parts_recorded(meta, meta, descriptions, pages1, free1, pages2, free2);
    assert(describes(descriptions[id], c2));
    assert(c2.docs(pages2) == c2.docs(pages1));
    assert forall|j: int| 0 <= j < before.collections@.len() && j != i implies (
    #[trigger] after.collections@[j]) == before.collections@[j]
        && before.collections@[j].collection.docs(pages2)
        == before.collections@[j].collection.docs(before.pages()) by {
        assert(before.entry_ok(j));
        let other = before.collections@[j].docid.0;
        let o = before.collections@[j].collection;
        if j < i {
            assert(before.collections@[j].docid != before.collections@[i].docid);
        } else {
            assert(before.collections@[i].docid != before.collections@[j].docid);
        }
        assert(describes(before.catalog()[other], o));
        assert(describes(descriptions[other], o));
    }
    lemma_entries_changed(before, after, i, json);
}

impl<S: PersistentStore> Database<S> {
    /// How many slots of the cache are enough to add an index to a collection.
    pub open spec fn index_room(&self, i: int, steps: Seq<PathStep>) -> nat {
        let entry = self.collections@[i];
        let json = indexed_metadata(entry.collection, steps, self.page_allocator@.next());
        entry.collection.index_room(self.pages(), steps) + self.meta_collection.delete_room(
            self.page_cache@,
            entry.docid.0,
        ) + self.meta_collection.insert_bound(self.pages(), json_text(json).len())
    }

    /// The file can grow by all that an index and its description may take.
    pub open spec fn can_index(&self, i: int, steps: Seq<PathStep>) -> bool {
        let entry = self.collections@[i];
        let json = indexed_metadata(entry.collection, steps, self.page_allocator@.next());
        &&& can_allocate(
            self.page_allocator,
            entry.collection.index_pages(self.pages()) + self.meta_collection.insert_pages(
                self.pages(),
                json_text(json).len(),
            ),
        )
        &&& can_free(
            self.page_allocator,
            self.meta_collection.delete_pages(self.pages(), entry.docid.0),
        )
    }

    /// Adds an index to the collection `i`.
    #[verifier::rlimit(100)]
    #[verifier::spinoff_prover]
    fn add_index(&mut self, i: usize, path: &FieldPath) -> (result: Result<(), String>)
        requires
            old(self).inv(),
            i < old(self).collections@.len(),
            path.wf(),
            path@.len() > 0,
            old(self).page_cache@.in_transaction,
            old(self).can_index(i as int, path@),
        ensures
            final(self).inv(),
            final(self).page_allocator.balance() == old(self).page_allocator.balance(),
            final(self).names() == old(self).names(),
            same_session(final(self).page_cache@, old(self).page_cache@),
            forall|j: int|
                0 <= j < old(self).collections@.len() ==> #[trigger] final(self).docs(j)
                    == old(self).docs(j),
            index_tried(*old(self), *final(self), i as int, path@, result),
    {
        let ghost before = *self;
        let ghost at = i as int;
        let ghost pages = self.pages();
        let ghost free = self.page_allocator@;
        let ghost c = self.collections@[at].collection;
        let ghost id = self.collections@[at].docid.0;
        proof {
            self.lemma_entry(at);
            lemma_described_uses(self.catalog()[id], c, pages);
        }
        let mut entry = self.collections.remove(i);
        match entry.collection.create_index(
            path,
            &mut self.page_cache,
            &mut self.page_allocator,
        ) {
            Err(message) => {
                self.collections.insert(i, entry);
                proof {
                    lemma_left_alone(before, *self, at);
                    assert(self.collections@ =~= before.collections@.update(
                        at,
                        CollectionEntry {
                            collection: self.collections@[at].collection,
                            ..before.collections@[at]
                        },
                    ));
                }
                return Err(message);
            },
            Ok(_) => {},
        }
        let ghost pages1 = self.pages();
        let ghost free1 = self.page_allocator@;
        let ghost c2 = entry.collection;
        let metadata = entry.collection.get_metadata();
        let ghost json = metadata@;
        let ghost meta = self.meta_collection;
        let ghost descriptions = before.catalog().insert(id, json);
        proof {
            self.page_allocator.lemma_wf(pages1);
            lemma_roots_valid(c2, pages1, free1);
            lemma_described(c2);
            lemma_metadata_indexed(c, c2, path@);
            lemma_ids_fit(c2, pages1, free1);
            lemma_kept_spared(
                pages,
                free,
                c.roots(),
                c.external(pages),
                pages1,
                free1,
                c2.roots(),
                c2.external(pages1),
            );
            lemma_parts_changed(
                meta,
                before.catalog(),
                pages,
                free,
                pages1,
                free1,
                id,
                c.roots(),
                c.external(pages),
                c2,
                json,
            );
            assert(meta.stored_chunks(pages1, id) == meta.stored_chunks(pages, id));
            lemma_delete_room_kept(meta, before.page_cache@, self.page_cache@, id);
            lemma_insert_bound_kept(meta, pages, pages1, json_text(json).len());
            law_delete_room_by_heights(meta, self.page_cache@, free1, id);
        }
        let ghost built = self.page_cache@;
        // Update metadata.
        if !self.meta_collection.replace_fits(
            entry.docid,
            &metadata,
            &mut self.page_cache,
            &self.page_allocator,
        ) {
            proof {
                lemma_delete_room_same(meta, built, self.page_cache@, id);
                if meta.replaceable_in_leaf(self.page_cache@, self.page_allocator, id, json) {
                    lemma_in_leaf_same(
                        meta,
                        self.page_cache@,
                        built,
                        self.page_allocator,
                        id,
                        json,
                    );
                }
            }
            entry.collection.indices.pop();
            self.collections.insert(i, entry);
            proof {
                assert(self.collections@[at].collection.indices@ =~= c.indices@);
                let last = c.indices@.len() as int;
                assert(has_tree(pages1, c2.roots()[last + 1]));
                assert(index_ok(
                    c2.index_entries(pages1, last),
                    c2.indices@[last].field@,
                    c2.docs(pages1),
                ));
                assert(index_unrecorded(before, *self, at, path@)) by {
                    reveal(index_unrecorded);
                }
                lemma_index_dropped(c, c2, pages, free, pages1, free1);
                let dropped = self.collections@[at].collection;
                lemma_same_index_list(c, dropped, pages1, free1);
                lemma_left_alone(before, *self, at);
                assert(self.collections@ =~= before.collections@.update(
                    at,
                    CollectionEntry {
                        collection: self.collections@[at].collection,
                        ..before.collections@[at]
                    },
                ));
            }
            return Err("cache full!".to_owned());
        }
        self.meta_collection.update(
            entry.docid,
            &metadata,
            &mut self.page_cache,
            &mut self.page_allocator,
        );
        self.collections.insert(i, entry);
        proof {
            assert(self.collections@ =~= before.collections@.update(
                at,
                CollectionEntry { collection: c2, ..before.collections@[at] },
            ));
            lemma_index_recorded(before, *self, at, c2, json, pages1, free1);
        }
        Ok(())
    }

    /// Adds an index to a collection. That fails if the cache has too few free
    /// slots; the pages that the index has by then stay in use.
    pub fn create_index(&mut self, collection_name: &str, field_name: &str) -> (result: Result<
        (),
        String,
    >)
        requires
            old(self).inv(),
            old(self).find(collection_name@) matches Some(i) ==> {
                &&& indices_fit(split_dots(field_name@))
                &&& parse_path(field_name@) matches Ok(steps) ==> {
                    &&& old(self).page_cache@.in_transaction
                    &&& old(self).can_index(i, steps)
                }
            },
        ensures
            final(self).inv(),
            final(self).page_allocator.balance() == old(self).page_allocator.balance(),
            final(self).names() == old(self).names(),
            same_session(final(self).page_cache@, old(self).page_cache@),
            forall|j: int|
                0 <= j < old(self).collections@.len() ==> #[trigger] final(self).docs(j)
                    == old(self).docs(j),
            index_added(*old(self), *final(self), collection_name@, field_name@, result),
    {
        let i: usize = match self.find_collection(collection_name) {
            Some(i) => i,
            None => return Err("Collection not found".to_owned()),
        };
        let path = match FieldPath::new(field_name) {
            Ok(path) => path,
            Err(message) => return Err(message),
        };
        self.add_index(i, &path)
    }
}

/// The two databases differ at most in the order of write back.
pub open spec fn same_database<S: PersistentStore>(a: Database<S>, b: Database<S>) -> bool {
    &&& b.page_cache@.same_but_order(a.page_cache@)
    &&& b.meta_collection == a.meta_collection
    &&& b.collections == a.collections
    &&& b.page_allocator == a.page_allocator
}

impl<S: PersistentStore> Database<S> {
    /// Starts to read all documents of a collection.
    pub fn seq_iter(&mut self, collection_name: &str) -> (result: Result<SequentialScan, String>)
        requires
            old(self).inv(),
            old(self).find(collection_name@) matches Some(i)
                ==> old(self).collections@[i].collection.can_read(old(self).page_cache@),
        ensures
            final(self).inv(),
            same_database(*old(self), *final(self)),
            match old(self).find(collection_name@) {
                Some(i) => result matches Ok(scan) && {
                    &&& scan.wf(old(self).pages())
                    &&& scan.can_read(final(self).page_cache@)
                    &&& scan.remaining(old(self).pages()) == document_list(
                        old(self).pages(),
                        old(self).collections@[i].collection.entries(old(self).pages()),
                    )
                },
                None => result matches Err(message) && message@ == "Collection not found"@,
            },
    {
        let i: usize = match self.find_collection(collection_name) {
            Some(i) => i,
            None => return Err("Collection not found".to_owned()),
        };
        proof {
            self.lemma_entry(i as int);
            assert(self.collections@[i as int].collection.stored(self.pages()));
        }
        let scan = SequentialScan::new(&self.collections[i].collection, &mut self.page_cache);
        proof {
            lemma_same_contents(*old(self), *self);
        }
        Ok(scan)
    }

    /// The next document of a scan.
    pub fn next_document(&mut self, scan: &mut SequentialScan) -> (result: Option<(DocId, Value)>)
        requires
            old(self).inv(),
            old(scan).wf(old(self).pages()),
            old(scan).can_read(old(self).page_cache@),
        ensures
            final(self).inv(),
            same_database(*old(self), *final(self)),
            final(scan).wf(old(self).pages()),
            final(scan).can_read(final(self).page_cache@),
            ({
                let rest = old(scan).remaining(old(self).pages());
                if rest.len() == 0 {
                    result is None && *final(scan) == *old(scan)
                } else {
                    item_view(result) == Some(rest[0]) && final(scan).remaining(old(self).pages())
                        == rest.skip(1)
                }
            }),
    {
        let result = scan.next(&mut self.page_cache);
        proof {
            lemma_same_contents(*old(self), *self);
        }
        result
    }

    /// Starts to read the documents of a collection whose field lies between two values.
    pub fn index_iter(
        &mut self,
        collection_name: &str,
        index_name: &str,
        low_key: Option<Value>,
        high_key: Option<Value>,
        reverse: bool,
    ) -> (result: Result<IndexScan, String>)
        requires
            old(self).inv(),
            old(self).find(collection_name@) matches Some(i) ==> {
                &&& old(self).collections@[i].collection.can_read(old(self).page_cache@)
                &&& indices_fit(split_dots(index_name@))
            },
        ensures
            final(self).inv(),
            same_database(*old(self), *final(self)),
            match old(self).find(collection_name@) {
                None => result matches Err(message) && message@ == "Collection not found"@,
                Some(i) => {
                    let pages = old(self).pages();
                    let c = old(self).collections@[i].collection;
                    match c.index_for(index_name@) {
                        None => result matches Err(message) && message@ == "Unknown index"@,
                        Some(k) => {
                            let root = c.indices@[k].btree.root();
                            match (
                                range_key(option_view(low_key), reverse),
                                range_key(option_view(high_key), !reverse),
                            ) {
                                (Err(error), _) => result matches Err(message) && message@
                                    == error,
                                (Ok(_), Err(error)) => result matches Err(message) && message@
                                    == error,
                                (Ok(start), Ok(end)) => result matches Ok(scan) && {
                                    &&& scan.wf(c, pages)
                                    &&& scan.root() == root
                                    &&& scan.is_reverse() == reverse
                                    &&& scan.end() == end
                                    &&& scan.remaining(pages) == entries_from(
                                        pages,
                                        root,
                                        start,
                                        reverse,
                                    )
                                },
                            }
                        },
                    }
                },
            },
    {
        let i: usize = match self.find_collection(collection_name) {
            Some(i) => i,
            None => return Err("Collection not found".to_owned()),
        };
        proof {
            self.lemma_entry(i as int);
            assert(self.collections@[i as int].collection.stored(self.pages()));
        }
        let index: usize = match self.collections[i].collection.find_index(index_name) {
            Some(index) => index,
            None => return Err("Unknown index".to_owned()),
        };
        let result = IndexScan::new(
            &self.collections[i].collection,
            index,
            low_key,
            high_key,
            reverse,
            &mut self.page_cache,
        );
        proof {
            lemma_same_contents(*old(self), *self);
        }
        result
    }

    /// The next document of a scan over an index of a collection.
    pub fn next_indexed(&mut self, collection_name: &str, scan: &mut IndexScan) -> (result: Option<
        (DocId, Value),
    >)
        requires
            old(self).inv(),
            old(self).find(collection_name@) matches Some(i) && {
                let collection = old(self).collections@[i].collection;
                &&& collection.can_read(old(self).page_cache@)
                &&& old(scan).wf(collection, old(self).pages())
            },
        ensures
            final(self).inv(),
            same_database(*old(self), *final(self)),
            ({
                let i = old(self).find(collection_name@)->Some_0;
                let pages = old(self).pages();
                let rest = old(scan).remaining(pages);
                &&& final(scan).wf(old(self).collections@[i].collection, pages)
                &&& final(scan).root() == old(scan).root()
                &&& final(scan).is_reverse() == old(scan).is_reverse()
                &&& final(scan).end() == old(scan).end()
                &&& if rest.len() == 0 {
                    result is None && final(scan).remaining(pages) == rest
                } else {
                    &&& final(scan).remaining(pages) == rest.skip(1)
                    &&& item_view(result) == (if beyond(
                        old(scan).end(),
                        old(scan).is_reverse(),
                        rest[0].key,
                    ) {
                        None
                    } else {
                        Some((be64(rest[0].value), old(self).docs(i)[be64(rest[0].value)]))
                    })
                }
            }),
    {
        let i: usize = self.find_collection(collection_name).unwrap();
        proof {
            self.lemma_entry(i as int);
            assert(self.collections@[i as int].collection.stored(self.pages()));
        }
        let result = scan.next(&self.collections[i].collection, &mut self.page_cache);
        proof {
            lemma_same_contents(*old(self), *self);
        }
        result
    }
}

/// The headers of the log were never written.
pub open spec fn blank(disk: Map<u64, Seq<u8>>) -> bool {
    &&& disk[1] == Seq::new(PAGE_SIZE as nat, |i: int| 0u8)
    &&& disk[2] == Seq::new(PAGE_SIZE as nat, |i: int| 0u8)
}

/// A list of two pages.
proof fn lemma_two_pages(list: Seq<u64>, a: u64, b: u64)
    requires
        list.no_duplicates(),
        a != b,
        forall|q: u64| #[trigger] list.contains(q) <==> q == a || q == b,
    ensures
        list.len() == 2,
{
    let i = list.index_of(a);
    let j = list.index_of(b);
    assert(list.contains(a) && list.contains(b));
    assert(list[i] == a && list[j] == b);
    if list.len() > 2 {
        assert(list.contains(list[0]) && list.contains(list[1]) && list.contains(list[2]));
    }
}

/// A catalog without documents.
proof fn lemma_empty_catalog(meta: Collection, pages: Map<u64, Seq<u8>>, free: FreePages)
    requires
        meta.inv(pages, free),
        meta.docs(pages) == Map::<u64, Json>::empty(),
    ensures
        parts_ok(meta, meta.docs(pages), pages, free),
        ids_below(meta, pages),
{
}

impl<S: PersistentStore> Database<S> {
    /// Creates a database without collections.
    pub fn create(file_store: S) -> (db: Self)
        ensures
            db.inv(),
            db.collections@.len() == 0,
            db.catalog() == Map::<u64, Json>::empty(),
            db.meta_collection.next_docid == 1,
            total_height(db.pages(), db.meta_collection.roots()) == 0,
            db.page_allocator@ == new_file(),
            db.page_allocator.allocs() == 0,
            db.page_allocator.frees() == 0,
            !db.page_cache@.in_transaction,
            db.page_cache@.available == PAGE_CACHE_SIZE,
            blank(file_store.contents()) ==> {
                &&& attached(db.page_cache@.log, db.page_cache@.store)
                &&& can_open(db.page_cache@.store)
                &&& opened_pages(db.page_cache@.store) == db.pages()
            },
    {
        let ghost disk = file_store.contents();
        let mut page_cache = PageCache::new(PAGE_CACHE_SIZE, file_store);
        let ghost log = page_cache@.log;
        let ghost start = page_cache@;
        let transaction = page_cache.begin_transaction();
        let mut page = page_cache.read_page(PageNum::from_u64(SUPERBLOCK_FPID));
        init_superblock(&mut page);
        page_cache.write_page(PageNum::from_u64(SUPERBLOCK_FPID), &page);
        let ghost pages1 = page_cache@.pages;
        let ghost free = FreePages { list: Seq::empty(), frontier: 12 };
        proof {
            assert(free.wf() && free.stored(pages1));
        }
        let page_allocator = PageAllocator::new(&mut page_cache);
        proof {
            lemma_stored_unique(page_allocator@, free, pages1);
        }
        let meta_collection = Collection::create_at(
            "_meta",
            &mut page_cache,
            PageNum::from_u64(META_COLLECTION_FPID),
        );
        let ghost cache = page_cache@;
        proof {
            page_allocator.lemma_inv(pages1, cache.pages);
            assert(free.in_use(META_COLLECTION_FPID));
            lemma_empty_catalog(meta_collection, cache.pages, free);
            page_cache.lemma_disk();
            assert forall|q: u64| #[trigger] cache.write_back.contains(q) <==> q == SUPERBLOCK_FPID
                || q == META_COLLECTION_FPID by {
                assert(cache.dirty.contains(q) <==> q == SUPERBLOCK_FPID || q
                    == META_COLLECTION_FPID);
            }
            lemma_two_pages(cache.write_back, SUPERBLOCK_FPID, META_COLLECTION_FPID);
            if blank(disk) {
                law_zeros_are_consistent(log, disk);
                law_commit_leaves_log_ready(&page_cache);
            }
        }
        page_cache.end_transaction(transaction);
        let db = Database { meta_collection, collections: Vec::new(), page_cache, page_allocator };
        proof {
            if blank(disk) {
                law_committed_database_is_reopened(&db);
            }
        }
        db
    }
}

/// The pages as they are seen once the log was replayed.
pub open spec fn opened_pages(disk: Map<u64, Seq<u8>>) -> Map<u64, Seq<u8>> {
    Map::new(
        |num: u64| true,
        |num: u64|
            if lockable(num) {
                recovered(initial_log(), disk)[num]
            } else {
                Seq::empty()
            },
    )
}

/// The catalog of the database in the pages.
pub open spec fn catalog_in(pages: Map<u64, Seq<u8>>) -> Map<u64, Json> {
    documents(pages, entries_at(pages, META_COLLECTION_FPID))
}

/// The pages hold a database.
pub open spec fn database_in(pages: Map<u64, Seq<u8>>) -> bool {
    &&& exists|free: FreePages| free.wf() && #[trigger] free.stored(pages)
    &&& exists|meta: Collection|
        {
            &&& meta.document_tree.root() == META_COLLECTION_FPID
            &&& meta.indices@.len() == 0
            &&& ids_fit(meta, pages)
            &&& #[trigger] parts_ok(meta, catalog_in(pages), pages, stored_free_pages(pages))
        }
}

/// A database can be opened from what is on disk.
pub open spec fn can_open(disk: Map<u64, Seq<u8>>) -> bool {
    initial_log().replayable(disk) && database_in(opened_pages(disk))
}

/// A collection that was opened from its description in the catalog.
pub open spec fn opened_entry(
    entry: CollectionEntry,
    catalog: Map<u64, Json>,
    pages: Map<u64, Seq<u8>>,
) -> bool {
    &&& catalog.contains_key(entry.docid.0)
    &&& describes(catalog[entry.docid.0], entry.collection)
    &&& entry.collection.fields_ok()
    &&& entry.collection.next_docid == next_id(pages, entry.collection.document_tree.root())
    &&& entry.name@ == described_name(catalog[entry.docid.0])
    &&& entry.collection.name@ == entry.name@
}

/// What comes of opening the database that is on disk.
pub open spec fn opened_from<S: PersistentStore>(
    db: Database<S>,
    disk: Map<u64, Seq<u8>>,
) -> bool {
    let pages = opened_pages(disk);
    &&& db.pages() == pages
    &&& db.catalog() == catalog_in(pages)
    &&& db.page_allocator@ == stored_free_pages(pages)
    &&& db.page_allocator.allocs() == 0
    &&& db.page_allocator.frees() == 0
    &&& !db.page_cache@.in_transaction
    &&& db.page_cache@.available == PAGE_CACHE_SIZE
    &&& db.page_cache@.store == recovered(initial_log(), disk)
    &&& db.page_cache@.log == initial_log().replay(disk)
    &&& consistent(initial_log(), disk) ==> attached(db.page_cache@.log, db.page_cache@.store)
    &&& forall|i: int|
        0 <= i < db.collections@.len() ==> opened_entry(
            #[trigger] db.collections@[i],
            catalog_in(pages),
            pages,
        )
}

/// The identifier after the last one comes after all of them.
proof fn lemma_next_id(c: Collection, pages: Map<u64, Seq<u8>>, free: FreePages)
    requires
        c.inv(pages, free),
        c.next_docid == next_id(pages, c.document_tree.root()),
    ensures
        ids_below(c, pages),
{
    broadcast use group_lex_order;

    let entries = c.entries(pages);
    let keys = keys_of(entries);
    assert(c.roots()[0] == c.document_tree.root());
    lemma_layout_tree(pages, free, c.roots(), c.external(pages), 0);
    lemma_tree_entries(pages, c.document_tree.root());
    assert forall|id: u64| #[trigger] c.docs(pages).contains_key(id) implies id < c.next_docid by {
        let key = be64_bytes(id);
        let i = keys.index_of(key);
        let last = entries.len() - 1;
        assert(keys[i] == key);
        assert(entries[last].key.len() == 8);
        lemma_be64_inverse(entries[last].key);
        let top = be64(entries.last().key);
        assert(keys[last] == be64_bytes(top));
        if top < id {
            law_number_bytes_keep_order(top, id);
            if i < last {
                assert(lex_lt(keys[i], keys[last]));
            }
        }
    }
}

/// The description of the catalog itself.
fn catalog_metadata() -> (value: Value)
    ensures
        value@ == new_metadata("_meta"@, META_COLLECTION_FPID),
{
    let indices = Value::Array(Vec::new());
    let name = Value::String("_meta".to_owned());
    let root = Value::Number(Number::PosInt(META_COLLECTION_FPID));
    assert(indices@->Array_0 =~= Seq::<Json>::empty());
    assert(name@ == Json::String("_meta"@));
    assert(root@ == Json::Number(Number::PosInt(META_COLLECTION_FPID)));
    let mut fields: Vec<(String, Value)> = Vec::new();
    fields.push(("indices".to_owned(), indices));
    fields.push(("name".to_owned(), name));
    fields.push(("root_page_pnum".to_owned(), root));
    let value = Value::Object(fields);
    assert(value@->Object_0 =~= new_metadata("_meta"@, META_COLLECTION_FPID)->Object_0);
    value
}

/// Puts a collection into a list under its name, in place of another one with that name.
fn put_entry(entries: &mut Vec<CollectionEntry>, entry: CollectionEntry)
    requires
        forall|i: int, j: int|
            0 <= i < j < old(entries)@.len() ==> (#[trigger] old(entries)@[i]).name@ != (
            #[trigger] old(entries)@[j]).name@,
    ensures
        forall|i: int, j: int|
            0 <= i < j < final(entries)@.len() ==> (#[trigger] final(entries)@[i]).name@ != (
            #[trigger] final(entries)@[j]).name@,
        final(entries)@.contains(entry),
        forall|e: CollectionEntry| #[trigger]
            final(entries)@.contains(e) ==> e == entry || old(entries)@.contains(e),
        forall|e: CollectionEntry| #[trigger]
            old(entries)@.contains(e) && e.name@ != entry.name@ ==> final(entries)@.contains(e),
{
    let ghost before = entries@;
    let mut i: usize = 0;
    while i < entries.len()
        invariant
            i <= entries@.len(),
            entries@ == before,
            before == old(entries)@,
            forall|a: int, b: int|
                0 <= a < b < before.len() ==> (#[trigger] before[a]).name@ != (
                #[trigger] before[b]).name@,
            forall|j: int| 0 <= j < i ==> (#[trigger] before[j]).name@ != entry.name@,
        decreases entries@.len() - i,
    {
        if str_equal(entries[i].name.as_str(), entry.name.as_str()) {
            let ghost new = entry;
            entries.remove(i);
            entries.insert(i, entry);
            proof {
                assert(entries@ =~= before.update(i as int, new));
                assert(entries@[i as int] == new);
                assert forall|a: int, b: int| 0 <= a < b < entries@.len() implies (
                #[trigger] entries@[a]).name@ != (#[trigger] entries@[b]).name@ by {
                    assert(before[a].name@ != before[b].name@);
                }
                assert forall|e: CollectionEntry| #[trigger]
                    before.contains(e) && e.name@ != new.name@ implies entries@.contains(e) by {
                    let j = before.index_of(e);
                    assert(entries@[j] == e);
                }
            }
            return ;
        }
        i = i + 1;
    }
    let ghost new = entry;
    entries.push(entry);
    proof {
        assert(entries@[before.len() as int] == new);
        assert forall|e: CollectionEntry| #[trigger]
            before.contains(e) implies entries@.contains(e) by {
            let j = before.index_of(e);
            assert(entries@[j] == e);
        }
    }
}

/// With a free slot and no locks a collection can be read.
proof fn lemma_slot_to_read_quiet(c: Collection, cache: CacheState, free: FreePages)
    requires
        c.inv(cache.pages, free),
        free.wf(),
        quiet(cache),
        cache.available > 0,
    ensures
        c.can_read(cache),
{
    assert forall|q: u64| #[trigger] c.uses(cache.pages, q) > 0 implies cache.can_lock(q) by {
        assert(pages_used(cache.pages, c.roots(), c.external(cache.pages), q) > 0);
        assert(free.in_use(q));
        assert(cache.refs[q] == 0);
    }
}

/// The catalog is described by its own description.
proof fn lemma_catalog_described(meta: Collection)
    requires
        meta.document_tree.root() == META_COLLECTION_FPID,
        meta.indices@.len() == 0,
    ensures
        ({
            let json = new_metadata("_meta"@, META_COLLECTION_FPID);
            &&& describes(json, meta)
            &&& metadata_ok(json)
            &&& json_ok(json)
        }),
{
    lemma_new_description("_meta"@, META_COLLECTION_FPID);
}

/// It does not matter who looks at the catalog.
proof fn lemma_parts_other_meta(
    a: Collection,
    b: Collection,
    pages: Map<u64, Seq<u8>>,
    free: FreePages,
)
    requires
        parts_ok(a, catalog_in(pages), pages, free),
        b.inv(pages, free),
        b.roots() == a.roots(),
        b.external(pages) == a.external(pages),
    ensures
        parts_ok(b, catalog_in(pages), pages, free),
{
    assert forall|q: u64| #[trigger] b.uses(pages, q) == a.uses(pages, q) by {}
    assert forall|id: u64, q: u64|
        catalog_in(pages).contains_key(id) && #[trigger] described_uses(
            catalog_in(pages)[id],
            pages,
            q,
        ) > 0 implies b.uses(pages, q) == 0 by {
        assert(a.uses(pages, q) == 0);
    }
}

/// A collection that is there can be opened.
proof fn lemma_openable(json: Json, cache: CacheState, free: FreePages)
    requires
        is_stored(json, cache.pages, free),
        free.wf(),
        quiet(cache),
        cache.available > 0,
    ensures
        metadata_ok(json),
        ({
            let root = page_field(json, "root_page_pnum"@)->Some_0;
            let entries = entries_at(cache.pages, root);
            &&& can_read(cache, root)
            &&& entries.len() > 0 ==> entries.last().key.len() == 8
            &&& next_id(cache.pages, root) <= u64::MAX
        }),
{
    let c = choose|c: Collection| #[trigger]
        describes(json, c) && c.inv(cache.pages, free) && ids_fit(c, cache.pages);
    lemma_slot_to_read_quiet(c, cache, free);
    assert(c.stored(cache.pages));
    c.lemma_readable(cache);
    let items = indices_field(json)->Some_0;
    assert forall|i: int| 0 <= i < items.len() implies path_field(#[trigger] items[i]) is Some
        && page_field(items[i], "root_pnum"@) is Some by {
        assert(path_field(items[i]) == Some(c.indices@[i].field@));
    }
}

impl<S: PersistentStore> Database<S> {
    /// Opens the database in a file.
    #[verifier::rlimit(40)]
    pub fn open_filestore(file_store: S) -> (result: Result<Self, String>)
        requires
            can_open(file_store.contents()),
        ensures
            result matches Ok(db) && {
                let disk = file_store.contents();
                &&& db.inv()
                &&& opened_from(db, disk)
                &&& db.page_cache@.history == file_store.history() + initial_log().replay_all_ops(
                    disk,
                )
            },
    {
        let ghost disk = file_store.contents();
        let ghost history = file_store.history();
        let ghost pages = opened_pages(disk);
        let mut page_cache = PageCache::new(PAGE_CACHE_SIZE, file_store);
        // Replay before accessing other data structures to ensure they are consistent.
        page_cache.replay();
        proof {
            if consistent(initial_log(), disk) {
                law_replay_attaches(initial_log(), disk);
            }
        }
        assert(page_cache@.pages =~= pages);
        let page_allocator = PageAllocator::new(&mut page_cache);
        let ghost free = page_allocator@;
        let ghost witness = choose|meta: Collection|
            {
                &&& meta.document_tree.root() == META_COLLECTION_FPID
                &&& meta.indices@.len() == 0
                &&& ids_fit(meta, pages)
                &&& #[trigger] parts_ok(meta, catalog_in(pages), pages, stored_free_pages(pages))
            };
        proof {
            page_allocator.lemma_wf(pages);
            lemma_catalog_described(witness);
            lemma_slot_to_read_quiet(witness, page_cache@, free);
            assert(witness.stored(pages));
            witness.lemma_readable(page_cache@);
        }
        let metadata = catalog_metadata();
        let meta_collection = Collection::open(&metadata, &mut page_cache);
        let ghost list = document_list(pages, meta_collection.entries(pages));
        proof {
            lemma_same_description(metadata@, witness, meta_collection);
            assert(meta_collection.roots() == witness.roots());
            assert(meta_collection.inv(pages, free));
            assert(meta_collection.docs(pages) == witness.docs(pages));
            assert(meta_collection.docs(pages) == catalog_in(pages));
            lemma_next_id(meta_collection, pages, free);
            lemma_slot_to_read_quiet(meta_collection, page_cache@, free);
            assert(meta_collection.stored(pages));
            law_scan_lists_all(meta_collection, pages);
            lemma_parts_other_meta(witness, meta_collection, pages, free);
        }
        let mut collections: Vec<CollectionEntry> = Vec::new();
        let mut scan = SequentialScan::new(&meta_collection, &mut page_cache);
        let ghost mut k: int = 0;
        assert(list.skip(0) =~= list);
        loop
            invariant
                page_cache.inv(),
                page_cache@.pages == pages,
                quiet(page_cache@),
                page_cache@.available == PAGE_CACHE_SIZE,
                !page_cache@.in_transaction,
                page_cache@.store == recovered(initial_log(), disk),
                page_cache@.log == initial_log().replay(disk),
                page_cache@.history == history + initial_log().replay_all_ops(disk),
                free.wf(),
                parts_ok(meta_collection, catalog_in(pages), pages, free),
                scan.wf(pages),
                scan.can_read(page_cache@),
                0 <= k <= list.len(),
                scan.remaining(pages) == list.skip(k),
                forall|i: int, j: int|
                    0 <= i < j < list.len() ==> (#[trigger] list[i]).0 < (#[trigger] list[j]).0,
                forall|i: int|
                    0 <= i < list.len() ==> catalog_in(pages).contains_key((#[trigger] list[i]).0)
                        && catalog_in(pages)[list[i].0] == list[i].1,
                forall|i: int|
                    0 <= i < collections@.len() ==> opened_entry(
                        #[trigger] collections@[i],
                        catalog_in(pages),
                        pages,
                    ),
                forall|i: int, j: int|
                    0 <= i < j < collections@.len() ==> (#[trigger] collections@[i]).name@ != (
                    #[trigger] collections@[j]).name@,
                forall|m: int|
                    0 <= m < k ==> listed(
                        collections@,
                        (#[trigger] list[m]).0,
                        described_name(list[m].1),
                    ),
            ensures
                k == list.len(),
            decreases list.len() - k,
        {
            let ghost cache = page_cache@;
            match scan.next(&mut page_cache) {
                None => {
                    break;
                },
                Some((docid, document)) => {
                    proof {
                        assert(list.skip(k)[0] == list[k]);
                        assert(list.skip(k).skip(1) =~= list.skip(k + 1));
                        assert(is_stored(document@, pages, free));
                        lemma_openable(document@, page_cache@, free);
                    }
                    let name = document.get("name").unwrap().as_str().unwrap().to_owned();
                    let ghost now = page_cache@;
                    let collection = Collection::open(&document, &mut page_cache);
                    let entry = CollectionEntry { name, docid, collection };
                    let ghost new = entry;
                    let ghost before = collections@;
                    put_entry(&mut collections, entry);
                    proof {
                        assert(opened_entry(new, catalog_in(pages), pages));
                        assert forall|i: int| 0 <= i < collections@.len() implies opened_entry(
                            #[trigger] collections@[i],
                            catalog_in(pages),
                            pages,
                        ) by {
                            assert(collections@.contains(collections@[i]));
                            if collections@[i] != new {
                                let j = before.index_of(collections@[i]);
                                assert(opened_entry(before[j], catalog_in(pages), pages));
                            }
                        }
                        let at = collections@.index_of(new);
                        assert(collections@[at] == new);
                        assert forall|m: int| 0 <= m < k + 1 implies listed(
                            collections@,
                            (#[trigger] list[m]).0,
                            described_name(list[m].1),
                        ) by {
                            if m == k || described_name(list[m].1) == new.name@ {
                                assert(m == k || list[m].0 < list[k].0);
                                assert(collections@[at].docid.0 >= list[m].0);
                            } else {
                                assert(listed(before, list[m].0, described_name(list[m].1)));
                                let j = choose|j: int|
                                    0 <= j < before.len() && (#[trigger] before[j]).name@
                                        == described_name(list[m].1) && before[j].docid.0
                                        >= list[m].0;
                                assert(before.contains(before[j]));
                                assert(collections@.contains(before[j]));
                                let j2 = collections@.index_of(before[j]);
                                assert(collections@[j2] == before[j]);
                            }
                        }
                        scan.lemma_same_order(now, page_cache@);
                        k = k + 1;
                    }
                },
            }
        }
        let db = Database { meta_collection, collections, page_cache, page_allocator };
        proof {
            assert forall|i: int| 0 <= i < db.collections@.len() implies #[trigger] db.entry_ok(
                i,
            ) by {
                let entry = db.collections@[i];
                assert(opened_entry(entry, catalog_in(pages), pages));
                assert(is_stored(catalog_in(pages)[entry.docid.0], pages, free));
                lemma_stored(catalog_in(pages)[entry.docid.0], entry.collection, pages, free);
                lemma_next_id(entry.collection, pages, free);
            }
            assert forall|i: int, j: int| 0 <= i < j < db.collections@.len() implies (
            #[trigger] db.collections@[i]).docid != (#[trigger] db.collections@[j]).docid
                && db.collections@[i].name@ != db.collections@[j].name@ by {
                assert(opened_entry(db.collections@[i], catalog_in(pages), pages));
                assert(opened_entry(db.collections@[j], catalog_in(pages), pages));
            }
            assert forall|id: u64| #[trigger] catalog_in(pages).contains_key(id) implies listed(
                db.collections@,
                id,
                described_name(catalog_in(pages)[id]),
            ) by {
                assert(meta_collection.docs(pages).contains_key(id));
                let m = choose|m: int|
                    0 <= m < list.len() && #[trigger] list[m] == (
                        id,
                        meta_collection.docs(pages)[id],
                    );
                assert(listed(db.collections@, list[m].0, described_name(list[m].1)));
            }
        }
        Ok(db)
    }
}

/// The end of a transaction leaves the log ready for another one.
pub proof fn law_commit_leaves_log_ready<S: PersistentStore>(cache: &PageCache<S>)
    requires
        cache.inv(),
        attached(cache@.log, cache@.store),
    ensures
        attached(cache@.commit().log, cache@.commit().store),
{
    cache.lemma_disk();
    let list = cache@.write_back;
    let pages = cache@.dirty_pages();
    if list.len() > 0 {
        assert forall|i: int| 0 <= i < pages.len() implies !cache@.log.owns((#[trigger] pages[i]).0)
            && pages[i].0 != INVALID_PAGE by {
            assert(list.contains(list[i]));
        }
        assert forall|i: int, j: int| 0 <= i < j < pages.len() implies (#[trigger] pages[i]).0 != (
        #[trigger] pages[j]).0 by {}
        law_commit_completes(cache@.log, cache@.store, pages);
    }
}

/// Where the log is empty, replaying it changes nothing.
proof fn lemma_nothing_to_replay(log: LogState, store: Map<u64, Seq<u8>>)
    requires
        attached(log, store),
        same_place(log, initial_log()),
    ensures
        consistent(initial_log(), store),
        initial_log().replayable(store),
        forall|n: u64| lockable(n) ==> #[trigger] recovered(initial_log(), store)[n] == store[n],
{
    let pages = seq![(META_COLLECTION_FPID, store[META_COLLECTION_FPID])];
    assert(pages.len() == 1);
    law_commit_is_atomic(log, initial_log(), store, pages, 0);
    assert(commit_ops(log, pages).take(0) =~= Seq::<StoreOp>::empty());
}

/// The pages of a database hold it.
proof fn lemma_database_in<S: PersistentStore>(db: &Database<S>)
    requires
        db.inv(),
    ensures
        database_in(db.pages()),
        catalog_in(db.pages()) == db.catalog(),
        stored_free_pages(db.pages()) == db.page_allocator@,
{
    let pages = db.pages();
    db.page_allocator.lemma_wf(pages);
    db.page_allocator.law_persistent(pages);
    lemma_ids_fit(db.meta_collection, pages, db.page_allocator@);
    assert(db.page_allocator@.wf() && db.page_allocator@.stored(pages));
    assert(parts_ok(db.meta_collection, catalog_in(pages), pages, stored_free_pages(pages)));
}

/// Where all changes of a database are on disk, its pages can be opened again.
pub proof fn law_committed_database_is_reopened<S: PersistentStore>(db: &Database<S>)
    requires
        db.inv(),
        attached(db.page_cache@.log, db.page_cache@.store),
        db.page_cache@.dirty == Set::<u64>::empty(),
    ensures
        consistent(initial_log(), db.page_cache@.store),
        can_open(db.page_cache@.store),
        opened_pages(db.page_cache@.store) == db.pages(),
        catalog_in(opened_pages(db.page_cache@.store)) == db.catalog(),
{
    let cache = db.page_cache@;
    db.page_cache.lemma_disk();
    db.page_cache.lemma_unseen();
    lemma_nothing_to_replay(cache.log, cache.store);
    assert(opened_pages(cache.store) =~= db.pages());
    lemma_database_in(db);
}

/// A database whose changes are all on disk is the same when it is opened again: it
/// has the same collections under the same names, each with its description, its
/// indices and its documents, and the same free pages.
pub proof fn law_reopened_database_is_the_same<S: PersistentStore>(
    db: &Database<S>,
    again: &Database<S>,
)
    requires
        db.inv(),
        attached(db.page_cache@.log, db.page_cache@.store),
        db.page_cache@.dirty == Set::<u64>::empty(),
        again.inv(),
        opened_from(*again, db.page_cache@.store),
    ensures
        again.pages() == db.pages(),
        again.catalog() == db.catalog(),
        again.page_allocator@ == db.page_allocator@,
        forall|name: Seq<char>| #[trigger] again.find(name) is Some <==> db.find(name) is Some,
        forall|name: Seq<char>| #[trigger]
            db.find(name) is Some ==> {
                let i = db.find(name)->Some_0;
                let j = again.find(name)->Some_0;
                &&& again.collections@[j].docid == db.collections@[i].docid
                &&& same_collection(again.collections@[j].collection, db.collections@[i].collection)
                &&& again.docs(j) == db.docs(i)
            },
{
    law_committed_database_is_reopened(db);
    lemma_database_in(db);
    assert forall|name: Seq<char>| #[trigger] again.find(name) is Some <==> db.find(
        name,
    ) is Some by {
        if db.find(name) is Some {
            lemma_found_again(db, again, name);
        } else if again.find(name) is Some {
            lemma_found_again(again, db, name);
        }
    }
    assert forall|name: Seq<char>| #[trigger] db.find(name) is Some implies ({
        let i = db.find(name)->Some_0;
        let j = again.find(name)->Some_0;
        &&& again.collections@[j].docid == db.collections@[i].docid
        &&& same_collection(again.collections@[j].collection, db.collections@[i].collection)
        &&& again.docs(j) == db.docs(i)
    }) by {
        lemma_found_again(db, again, name);
        lemma_found_again(again, db, name);
        let i = db.find(name)->Some_0;
        let j = again.find(name)->Some_0;
        lemma_found(db, name);
        lemma_found(again, name);
        let json = db.catalog()[db.collections@[i].docid.0];
        lemma_same_description(
            json,
            db.collections@[i].collection,
            again.collections@[j].collection,
        );
    }
}

/// The two are the same on disk: they have their documents and the keys of each
/// index in the same trees.
pub open spec fn same_collection(a: Collection, b: Collection) -> bool {
    &&& a.name@ == b.name@
    &&& a.roots() == b.roots()
    &&& a.indices@.len() == b.indices@.len()
    &&& forall|k: int|
        0 <= k < a.indices@.len() ==> (#[trigger] a.indices@[k]).field@ == b.indices@[k].field@
}

proof fn lemma_found<S: PersistentStore>(db: &Database<S>, name: Seq<char>)
    requires
        db.inv(),
        db.find(name) is Some,
    ensures
        ({
            let i = db.find(name)->Some_0;
            &&& 0 <= i < db.collections@.len()
            &&& db.collections@[i].name@ == name
            &&& db.entry_ok(i)
        }),
{
    let names = db.names();
    let i = names.index_of(name);
    assert(names[i] == db.collections@[i].name@);
}

/// What the one database has under a name the other has under it too, and with an
/// identifier that is no smaller.
proof fn lemma_found_again<S: PersistentStore>(
    a: &Database<S>,
    b: &Database<S>,
    name: Seq<char>,
)
    requires
        a.inv(),
        b.inv(),
        a.catalog() == b.catalog(),
        a.find(name) is Some,
    ensures
        b.find(name) is Some,
        b.collections@[b.find(name)->Some_0].docid.0 >= a.collections@[a.find(
            name,
        )->Some_0].docid.0,
{
    lemma_found(a, name);
    let id = a.collections@[a.find(name)->Some_0].docid.0;
    assert(a.catalog().contains_key(id));
    assert(b.catalog().contains_key(id));
    assert(listed(b.collections@, id, name));
    let k = choose|k: int|
        0 <= k < b.collections@.len() && (#[trigger] b.collections@[k]).name@ == name
            && b.collections@[k].docid.0 >= id;
    assert(b.names()[k] == name);
    lemma_found(b, name);
    let j = b.find(name)->Some_0;
    if j < k {
        assert(b.collections@[j].name@ != b.collections@[k].name@);
    } else if k < j {
        assert(b.collections@[k].name@ != b.collections@[j].name@);
    }
}

/// The opening of a database that is interrupted while the log is replayed can be
/// started again, and shows the same database.
pub proof fn law_opening_is_restartable(disk: Map<u64, Seq<u8>>, k: int)
    requires
        can_open(disk),
        consistent(initial_log(), disk),
        0 <= k <= initial_log().replay_all_ops(disk).len(),
    ensures
        ({
            let left = apply_ops(disk, initial_log().replay_all_ops(disk).take(k));
            &&& consistent(initial_log(), left)
            &&& can_open(left)
            &&& opened_pages(left) == opened_pages(disk)
        }),
{
    let left = apply_ops(disk, initial_log().replay_all_ops(disk).take(k));
    law_replay_is_restartable(initial_log(), disk, k);
    assert forall|n: u64| lockable(n) implies !initial_log().owns(n) by {}
    assert(opened_pages(left) =~= opened_pages(disk));
}

/// Wherever the end of a transaction is interrupted, the database that is opened
/// after that is the one from before the transaction, or the one after it. It is
/// the latter as soon as the log is written.
pub proof fn law_transaction_is_all_or_nothing<S: PersistentStore>(db: &Database<S>, k: int)
    requires
        db.inv(),
        attached(db.page_cache@.log, db.page_cache@.store),
        can_open(db.page_cache@.store),
        0 < db.page_cache@.write_back.len() < db.page_cache@.log.blocks,
        0 <= k <= commit_ops(db.page_cache@.log, db.page_cache@.dirty_pages()).len(),
    ensures
        ({
            let cache = db.page_cache@;
            let ops = commit_ops(cache.log, cache.dirty_pages());
            let disk = apply_ops(cache.store, ops.take(k));
            &&& cache.commit().history == cache.history + ops
            &&& consistent(initial_log(), disk)
            &&& can_open(disk)
            &&& opened_pages(disk) == (if k <= cache.write_back.len() {
                opened_pages(cache.store)
            } else {
                db.pages()
            })
        }),
{
    let cache = db.page_cache@;
    let ops = commit_ops(cache.log, cache.dirty_pages());
    let disk = apply_ops(cache.store, ops.take(k));
    db.page_cache.lemma_disk();
    db.page_cache.lemma_unseen();
    assert forall|n: u64| #[trigger] cache.dirty.contains(n) implies cache.refs[n] == 0 by {}
    law_transaction_is_atomic(&db.page_cache, initial_log(), k);
    lemma_nothing_to_replay(cache.log, cache.store);
    if k <= cache.write_back.len() {
        assert(opened_pages(disk) =~= opened_pages(cache.store));
    } else {
        assert(opened_pages(disk) =~= db.pages());
        lemma_database_in(db);
    }
}

/// A collection is found under its name, and under no other.
pub proof fn law_collection_is_found_by_its_name<S: PersistentStore>(
    db: &Database<S>,
    name: Seq<char>,
    i: int,
)
    requires
        db.inv(),
        0 <= i < db.collections@.len(),
    ensures
        db.collections@[i].name@ == name <==> db.find(name) == Some(i),
        db.names().len() == db.collections@.len(),
        db.names()[i] == db.collections@[i].name@,
{
    assert(db.names()[i] == db.collections@[i].name@);
    if db.collections@[i].name@ == name {
        assert(db.names().contains(name));
        let j = db.names().index_of(name);
        assert(db.names()[j] == db.collections@[j].name@);
        if i < j {
            assert(db.collections@[i].name@ != db.collections@[j].name@);
        } else if j < i {
            assert(db.collections@[j].name@ != db.collections@[i].name@);
        }
    }
    if db.find(name) == Some(i) {
        assert(db.names().contains(name));
        assert(db.names()[db.names().index_of(name)] == name);
    }
}

/// A document that was inserted is in the collection with the name, under an identifier that
/// no document had. All other documents, of this collection and of the others, are still
/// there and no more, and so are all collections. Without such a collection nothing changes.
pub proof fn law_inserted_document_is_there<S: PersistentStore>(
    before: Database<S>,
    after: Database<S>,
    name: Seq<char>,
    json: Json,
    result: Result<DocId, String>,
)
    requires
        before.inv(),
        before.find(name) matches Some(i) ==> before.collections@[i].collection.next_docid
            < u64::MAX,
        inserted(before, after, name, json, result),
    ensures
        (forall|i: int| 0 <= i < before.collections@.len() ==> (
        #[trigger] before.collections@[i]).name@ != name) ==> {
            &&& after == before
            &&& result matches Err(message) && message@ == "Collection not found"@
        },
        forall|i: int|
            0 <= i < before.collections@.len() && (#[trigger] before.collections@[i]).name@ == name
                ==> {
                &&& result matches Ok(docid) && {
                    &&& !before.docs(i).contains_key(docid.0)
                    &&& after.docs(i) == before.docs(i).insert(docid.0, json)
                    &&& forall|id: u64| #[trigger] before.docs(i).contains_key(id) ==> id < docid.0
                    &&& after.collections@[i].collection.next_docid == docid.0 + 1
                }
                &&& after.names() == before.names()
                &&& forall|j: int|
                    0 <= j < before.collections@.len() && j != i ==> {
                        &&& #[trigger] after.collections@[j] == before.collections@[j]
                        &&& after.docs(j) == before.docs(j)
                    }
            },
{
    if before.find(name) is None {
        assert forall|i: int| 0 <= i < before.collections@.len() implies (
        #[trigger] before.collections@[i]).name@ != name by {
            law_collection_is_found_by_its_name(&before, name, i);
        }
    } else {
        lemma_found(&before, name);
        let k = before.find(name)->Some_0;
        assert forall|i: int|
            0 <= i < before.collections@.len() && (
            #[trigger] before.collections@[i]).name@ == name implies i == k by {
            law_collection_is_found_by_its_name(&before, name, i);
        }
        assert(after.names() =~= before.names());
        assert forall|j: int| 0 <= j < before.collections@.len() && j != k implies after.docs(j)
            == before.docs(j) && #[trigger] after.collections@[j] == before.collections@[j] by {
            assert(after.docs(j) == before.docs(j));
        }
        let c = before.collections@[k].collection;
        assert(ids_below(c, before.pages()));
        if before.docs(k).contains_key(c.next_docid) {
            assert(c.docs(before.pages()).contains_key(c.next_docid));
        }
        assert forall|id: u64| #[trigger] before.docs(k).contains_key(id) implies id
            < c.next_docid by {
            assert(c.docs(before.pages()).contains_key(id));
        }
    }
}

/// A collection that was added has the name, no documents and no indices, and the first
/// document in it gets the identifier one. All others are as they were. Under a name that is
/// taken nothing changes.
pub proof fn law_added_collection_is_there<S: PersistentStore>(
    before: Database<S>,
    after: Database<S>,
    name: Seq<char>,
    result: Result<DocId, String>,
)
    requires
        before.inv(),
        created(before, after, name, result),
    ensures
        (exists|i: int| 0 <= i < before.collections@.len() && (
        #[trigger] before.collections@[i]).name@ == name) ==> {
            &&& after == before
            &&& result matches Err(message) && message@ == "Collection already exists"@
        },
        (forall|i: int| 0 <= i < before.collections@.len() ==> (
        #[trigger] before.collections@[i]).name@ != name) ==> {
            let n = before.collections@.len() as int;
            &&& result matches Ok(docid) && after.collections@[n].docid == docid && {
                &&& !before.catalog().contains_key(docid.0)
                &&& after.catalog().contains_key(docid.0)
                &&& forall|id: u64| #[trigger]
                    before.catalog().contains_key(id) ==> after.catalog()[id]
                        == before.catalog()[id]
            }
            &&& after.collections@.len() == n + 1
            &&& after.collections@[n].name@ == name
            &&& after.docs(n) == Map::<u64, Json>::empty()
            &&& after.collections@[n].collection.indices@.len() == 0
            &&& after.collections@[n].collection.next_docid == 1
            &&& forall|j: int|
                0 <= j < n ==> {
                    &&& #[trigger] after.collections@[j] == before.collections@[j]
                    &&& after.docs(j) == before.docs(j)
                }
        },
{
    let n = before.collections@.len() as int;
    if before.find(name) is None {
        assert forall|i: int| 0 <= i < n implies (#[trigger] before.collections@[i]).name@
            != name by {
            law_collection_is_found_by_its_name(&before, name, i);
        }
        assert(before.names().push(name).len() == n + 1);
        assert(after.names()[n] == after.collections@[n].name@);
        assert forall|j: int| 0 <= j < n implies after.docs(j) == before.docs(j)
            && #[trigger] after.collections@[j] == before.collections@[j] by {
            assert(after.collections@.drop_last()[j] == after.collections@[j]);
            assert(after.docs(j) == before.docs(j));
        }
        let id = before.meta_collection.next_docid;
        if before.catalog().contains_key(id) {
            assert(before.meta_collection.docs(before.pages()).contains_key(id));
        }
    } else {
        lemma_found(&before, name);
    }
}

/// An index that was added stands behind the others and is for the field that the text
/// stands for. Nothing else of the collections changes, and if there is no such collection, or
/// the text is no path, nothing at all.
pub proof fn law_added_index_is_there<S: PersistentStore>(
    before: Database<S>,
    after: Database<S>,
    name: Seq<char>,
    field: Seq<char>,
    result: Result<(), String>,
)
    requires
        before.inv(),
        index_added(before, after, name, field, result),
    ensures
        (forall|i: int| 0 <= i < before.collections@.len() ==> (
        #[trigger] before.collections@[i]).name@ != name) ==> {
            &&& after == before
            &&& result matches Err(message) && message@ == "Collection not found"@
        },
        forall|i: int|
            0 <= i < before.collections@.len() && (#[trigger] before.collections@[i]).name@ == name
                ==> match parse_path(field) {
                Err(error) => after == before && (result matches Err(message) && message@ == error),
                Ok(steps) => {
                    let c = before.collections@[i].collection;
                    let c2 = after.collections@[i].collection;
                    &&& after.collections@.len() == before.collections@.len()
                    &&& forall|j: int|
                        0 <= j < before.collections@.len() && j != i
                            ==> #[trigger] after.collections@[j] == before.collections@[j]
                    &&& after.collections@[i].name == before.collections@[i].name
                    &&& after.collections@[i].docid == before.collections@[i].docid
                    &&& c2.document_tree == c.document_tree
                    &&& c2.next_docid == c.next_docid
                    &&& result is Ok ==> {
                        &&& c2.indices@.len() == c.indices@.len() + 1
                        &&& c2.indices@[c.indices@.len() as int].field@ == steps
                        &&& forall|j: int|
                            0 <= j < c.indices@.len() ==> #[trigger] c2.indices@[j] == c.indices@[j]
                    }
                    &&& result is Err ==> c2.indices@ == c.indices@
                    &&& room(before.page_cache@) >= before.index_room(i, steps) ==> result is Ok
                },
            },
{
    if before.find(name) is None {
        assert forall|i: int| 0 <= i < before.collections@.len() implies (
        #[trigger] before.collections@[i]).name@ != name by {
            law_collection_is_found_by_its_name(&before, name, i);
        }
    } else {
        lemma_found(&before, name);
        let k = before.find(name)->Some_0;
        assert forall|i: int|
            0 <= i < before.collections@.len() && (
            #[trigger] before.collections@[i]).name@ == name implies i == k by {
            law_collection_is_found_by_its_name(&before, name, i);
        }
        if let Ok(steps) = parse_path(field) {
            let c = before.collections@[k].collection;
            let c2 = after.collections@[k].collection;
            if result is Ok {
                assert forall|j: int| 0 <= j < c.indices@.len() implies #[trigger] c2.indices@[j]
                    == c.indices@[j] by {
                    assert(c2.indices@.drop_last()[j] == c2.indices@[j]);
                }
            }
        }
    }
}

/// A collection that was opened goes on with the identifier after the last one in use, or
/// with one if there is none.
pub proof fn law_opened_collection_goes_on(c: Collection, pages: Map<u64, Seq<u8>>)
    requires
        c.stored(pages),
        c.next_docid == next_id(pages, c.document_tree.root()),
    ensures
        forall|id: u64| #[trigger] c.docs(pages).contains_key(id) ==> id < c.next_docid,
        c.next_docid == 1 || c.docs(pages).contains_key((c.next_docid - 1) as u64),
        c.next_docid > 0,
{
    let free = choose|free: FreePages| c.inv(pages, free);
    lemma_next_id(c, pages, free);
    let entries = c.entries(pages);
    if entries.len() > 0 {
        let last = entries.len() - 1;
        assert(entries[last].key.len() == 8);
        lemma_be64_inverse(entries[last].key);
        assert(keys_of(entries)[last] == entries[last].key);
        assert(c.docs(pages).contains_key(be64(entries[last].key)));
    }
}

/// A cache with slots for each level of the trees and for the external pages of the document, and
/// a file that can grow by as much, have room to insert a document into a collection.
pub proof fn law_room_for_a_document<S: PersistentStore>(db: &Database<S>, i: int, json: Json)
    requires
        db.inv(),
        0 <= i < db.collections@.len(),
        db.collections@[i].collection.next_docid < u64::MAX,
        ({
            let c = db.collections@[i].collection;
            let trees = c.indices@.len() + 1;
            let external = json_text(json).len() / 8184 + 1;
            let levels = total_height(db.pages(), c.roots());
            &&& db.page_cache@.available > 2 * levels + 4 * trees + external
            &&& db.page_allocator@.frontier + levels + 2 * trees + external < u64::MAX
            &&& db.page_allocator.allocs() + levels + 2 * trees + external <= usize::MAX
        }),
    ensures
        db.can_insert(i, json),
{
    db.lemma_entry(i);
    let c = db.collections@[i].collection;
    law_room_that_is_enough_to_insert(
        c,
        db.page_cache@,
        db.page_allocator,
        json,
        c.next_docid,
    );
}

/// A cache with slots for each level of the catalog, for the description and for the root of
/// the collection, and a file that can grow by as much, have room to add a collection.
pub proof fn law_room_for_a_collection<S: PersistentStore>(db: &Database<S>, name: Seq<char>)
    requires
        db.inv(),
        db.meta_collection.next_docid < u64::MAX,
        ({
            let json = new_metadata(name, db.page_allocator@.next());
            let external = json_text(json).len() / 8184 + 1;
            let levels = total_height(db.pages(), db.meta_collection.roots());
            &&& db.page_cache@.available > 2 * levels + 5 + external
            &&& db.page_allocator@.frontier + levels + 3 + external < u64::MAX
            &&& db.page_allocator.allocs() + levels + 3 + external <= usize::MAX
        }),
    ensures
        db.can_create(name),
{
    let meta = db.meta_collection;
    let cache = db.page_cache@;
    let json = new_metadata(name, db.page_allocator@.next());
    let len = json_text(json).len();
    assert(meta.inv(db.pages(), db.page_allocator@));
    law_insert_room_by_heights(meta, cache, db.page_allocator@, json, meta.next_docid);
    lemma_room_with_any_pages(
        meta,
        cache,
        db.page_allocator@,
        db.page_allocator@.taken(),
        json,
        meta.next_docid,
    );
    assert(document_chunks(len) <= len / 8184 + 1);
}

/// How many slots are enough to add an index: three for each document and two more for the index
/// itself, and those that it takes to replace the description of the collection. The file has to
/// be able to grow by no more pages than that.
pub proof fn law_room_for_an_index<S: PersistentStore>(
    db: &Database<S>,
    i: int,
    steps: Seq<PathStep>,
)
    requires
        db.inv(),
        0 <= i < db.collections@.len(),
    ensures
        ({
            let entry = db.collections@[i];
            let meta = db.meta_collection;
            let json = indexed_metadata(entry.collection, steps, db.page_allocator@.next());
            let documents = entry.collection.entries(db.pages()).len();
            let levels = total_height(db.pages(), meta.roots());
            let old_ones = meta.stored_pages(db.pages(), entry.docid.0).len();
            let external = json_text(json).len() / 8184 + 1;
            let all = 3 * documents + 3 * levels + 9 + old_ones + external;
            &&& db.index_room(i, steps) <= all
            &&& db.page_allocator@.frontier + all < u64::MAX && db.page_allocator.allocs() + all
                <= usize::MAX && db.page_allocator.frees() + levels + meta.stored_chunks(
                db.pages(),
                entry.docid.0,
            ) <= usize::MAX ==> db.can_index(i, steps)
        }),
{
    db.lemma_entry(i);
    let entry = db.collections@[i];
    let meta = db.meta_collection;
    let json = indexed_metadata(entry.collection, steps, db.page_allocator@.next());
    let len = json_text(json).len();
    assert(meta.inv(db.pages(), db.page_allocator@));
    assert(meta.docs(db.pages()).contains_key(entry.docid.0));
    law_delete_room_by_heights(meta, db.page_cache@, db.page_allocator@, entry.docid.0);
    reveal(Collection::insert_bound);
    lemma_total_slots_levels(db.pages(), meta.roots());
    lemma_idle_few(db.page_cache@, meta.stored_pages(db.pages(), entry.docid.0));
    assert(document_chunks(len) <= len / 8184 + 1);
}

/// A database that was opened goes on where it was left: each collection hands out the identifier
/// after the last one in use, or one if there is none, and stands under the name of its
/// description.
pub proof fn law_opened_database_goes_on<S: PersistentStore>(
    db: &Database<S>,
    disk: Map<u64, Seq<u8>>,
    i: int,
)
    requires
        db.inv(),
        opened_from(*db, disk),
        0 <= i < db.collections@.len(),
    ensures
        ({
            let entry = db.collections@[i];
            let next = entry.collection.next_docid;
            let field = field_of(db.catalog()[entry.docid.0], "name"@);
            &&& forall|id: u64| #[trigger] db.docs(i).contains_key(id) ==> id < next
            &&& next == 1 || next > 1 && db.docs(i).contains_key((next - 1) as u64)
            &&& db.catalog().contains_key(entry.docid.0)
            &&& field matches Some(Json::String(name)) ==> entry.name@ == name
            &&& entry.collection.name@ == entry.name@
        }),
{
    db.lemma_entry(i);
    let c = db.collections@[i].collection;
    assert(opened_entry(db.collections@[i], catalog_in(opened_pages(disk)), opened_pages(disk)));
    assert(c.stored(db.pages()));
    law_opened_collection_goes_on(c, db.pages());
    assert forall|id: u64| #[trigger] db.docs(i).contains_key(id) implies id < c.next_docid by {
        assert(c.docs(db.pages()).contains_key(id));
    }
}

} // verus!
