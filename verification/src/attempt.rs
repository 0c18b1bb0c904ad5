//! Changes to a database that are made only where the cache and the file have
//! room for them.

use vstd::prelude::*;

use crate::btree::BTree;
use crate::btree_insert::{can_write, same_session};
use crate::collection::{index_given_up, Collection, Index};
use crate::database::{
    created, index_added, index_unrecorded, indexed_metadata, inserted, lemma_same_contents,
    same_database, Database,
};
use crate::field_path::{indices_fit, parse_path, split_dots, FieldPath};
use crate::key_encoding::DocId;
use crate::metadata::{index_metadata, new_metadata};
use crate::needs::{lemma_delete_room_same, lemma_insert_room_same};
use crate::page_allocator::PageAllocator;
use crate::page_cache::{PageCache, PersistentStore};
use crate::slots::lemma_fresh_few;
use crate::value::{storable, Json, Value};

verus! {

/// The description of a new collection.
fn described(name: &str, tree: BTree) -> (metadata: Value)
    ensures
        metadata@ == new_metadata(name@, tree.root()),
        storable(metadata@),
{
    let collection = Collection {
        name: name.to_owned(),
        next_docid: 1,
        document_tree: tree,
        indices: Vec::new(),
    };
    let metadata = collection.get_metadata();
    assert(collection.indices@.map_values(|index: Index| index_metadata(index)) =~= Seq::<
        Json,
    >::empty());
    assert(metadata@->Object_0 =~= new_metadata(name@, tree.root())->Object_0);
    metadata
}

/// The description of a collection with one more index.
fn described_with(collection: &Collection, field: &FieldPath, tree: BTree) -> (metadata: Value)
    ensures
        metadata@ == indexed_metadata(*collection, field@, tree.root()),
        storable(metadata@),
{
    let mut indices: Vec<Index> = Vec::new();
    let mut i: usize = 0;
    while i < collection.indices.len()
        invariant
            i <= collection.indices@.len(),
            indices@.len() == i,
            forall|j: int|
                0 <= j < i ==> index_metadata(#[trigger] indices@[j]) == index_metadata(
                    collection.indices@[j],
                ),
        decreases collection.indices@.len() - i,
    {
        let index = &collection.indices[i];
        indices.push(
            Index {
                field: index.field.clone(),
                btree: BTree::open(index.btree.get_root_page_id()),
            },
        );
        i = i + 1;
    }
    indices.push(Index { field: field.clone(), btree: tree });
    let copy = Collection {
        name: collection.name.clone(),
        next_docid: collection.next_docid,
        document_tree: BTree::open(collection.document_tree.get_root_page_id()),
        indices,
    };
    let metadata = copy.get_metadata();
    proof {
        let items = collection.indices@.map_values(|index: Index| index_metadata(index));
        let items2 = copy.indices@.map_values(|index: Index| index_metadata(index));
        assert(items2 =~= items.push(index_metadata(copy.indices@.last())));
        assert(metadata@->Object_0 =~= indexed_metadata(
            *collection,
            field@,
            tree.root(),
        )->Object_0);
    }
    metadata
}

/// What comes of adding an index does not depend on the order of write back.
proof fn lemma_same_start<S: PersistentStore>(
    before: Database<S>,
    ready: Database<S>,
    after: Database<S>,
    name: Seq<char>,
    field: Seq<char>,
    result: Result<(), String>,
)
    requires
        same_database(before, ready),
        before.find(name) is None ==> ready == before,
        parse_path(field) is Err ==> ready == before,
        index_added(ready, after, name, field, result),
    ensures
        index_added(before, after, name, field, result),
{
    if let (Some(i), Ok(steps)) = (before.find(name), parse_path(field)) {
        lemma_delete_room_same(
            before.meta_collection,
            before.page_cache@,
            ready.page_cache@,
            before.collections@[i].docid.0,
        );
        reveal(index_given_up);
        reveal(index_unrecorded);
    }
}

impl Collection {
    /// Replaces a document and tells so, or does nothing if there is no room for it.
    pub fn try_update<S: PersistentStore>(
        &self,
        docid: DocId,
        document: &Value,
        page_cache: &mut PageCache<S>,
        page_allocator: &mut PageAllocator,
    ) -> (done: bool)
        requires
            old(page_cache).inv(),
            can_write(old(page_cache)@),
            old(page_allocator).inv(old(page_cache)@.pages),
            self.inv(old(page_cache)@.pages, old(page_allocator)@),
            document@ is Object,
            storable(document@),
        ensures
            final(page_cache).inv(),
            same_session(final(page_cache)@, old(page_cache)@),
            final(page_allocator).inv(final(page_cache)@.pages),
            final(page_allocator).balance() == old(page_allocator).balance(),
            self.inv(final(page_cache)@.pages, final(page_allocator)@),
            done == {
                let cache = old(page_cache)@;
                let allocator = *old(page_allocator);
                ||| self.replaceable_in_leaf(cache, allocator, docid.0, document@)
                ||| self.surely_replaceable(cache, allocator, docid.0, document@)
            },
            if done {
                &&& self.docs(final(page_cache)@.pages) == self.docs(
                    old(page_cache)@.pages,
                ).insert(docid.0, document@)
                &&& self.spares(
                    old(page_cache)@.pages,
                    old(page_allocator)@,
                    *self,
                    final(page_cache)@.pages,
                    final(page_allocator)@,
                )
            } else {
                &&& final(page_cache)@.same_but_order(old(page_cache)@)
                &&& *final(page_allocator) == *old(page_allocator)
            },
    {
        if !self.replace_fits(docid, document, page_cache, page_allocator) {
            return false;
        }
        self.update(docid, document, page_cache, page_allocator);
        true
    }
}

impl<S: PersistentStore> Database<S> {
    /// Inserts a document into a collection, or does nothing if there is no room
    /// for it or no slot to find that out.
    pub fn try_insert_document(&mut self, collection_name: &str, document: &Value) -> (result:
        Option<Result<DocId, String>>)
        requires
            old(self).inv(),
            old(self).page_cache@.in_transaction,
            document@ is Object,
            storable(document@),
        ensures
            final(self).inv(),
            same_session(final(self).page_cache@, old(self).page_cache@),
            (result is None) == (old(self).find(collection_name@) matches Some(i) && (
            old(self).page_cache@.available == 0 || !old(self).can_insert(i, document@))),
            match result {
                Some(outcome) => {
                    &&& final(self).names() == old(self).names()
                    &&& final(self).catalog() == old(self).catalog()
                    &&& inserted(*old(self), *final(self), collection_name@, document@, outcome)
                },
                None => same_database(*old(self), *final(self)),
            },
    {
        if let Some(i) = self.find_collection(collection_name) {
            proof {
                self.lemma_entry(i as int);
            }
            if self.collections[i].collection.next_docid == u64::MAX {
                return None;
            }
            let fits = self.collections[i].collection.insert_fits(
                document,
                0,
                &mut self.page_cache,
                &self.page_allocator,
            );
            proof {
                lemma_same_contents(*old(self), *self);
                let collection = self.collections@[i as int].collection;
                lemma_insert_room_same(
                    collection,
                    old(self).page_cache@,
                    self.page_cache@,
                    self.page_allocator@,
                    document@,
                    collection.next_docid,
                );
            }
            if !fits {
                return None;
            }
        }
        Some(self.insert_document(collection_name, document))
    }

    /// Adds a collection, or does nothing if there is no room for it or no slot to
    /// find that out.
    pub fn try_create_collection(&mut self, name: &str) -> (result: Option<Result<DocId, String>>)
        requires
            old(self).inv(),
            old(self).page_cache@.in_transaction,
        ensures
            final(self).inv(),
            same_session(final(self).page_cache@, old(self).page_cache@),
            (result is None) == (old(self).find(name@) is None && (
            old(self).page_cache@.available == 0 || !old(self).can_create(name@))),
            match result {
                Some(outcome) => created(*old(self), *final(self), name@, outcome),
                None => same_database(*old(self), *final(self)),
            },
    {
        if self.find_collection(name).is_none() {
            let metadata = described(name, BTree::open(self.page_allocator.next_page()));
            if self.meta_collection.next_docid == u64::MAX {
                return None;
            }
            let fits = self.meta_collection.insert_fits(
                &metadata,
                1,
                &mut self.page_cache,
                &self.page_allocator,
            );
            proof {
                lemma_same_contents(*old(self), *self);
                lemma_fresh_few(old(self).page_cache@, self.page_allocator@);
                lemma_insert_room_same(
                    self.meta_collection,
                    old(self).page_cache@,
                    self.page_cache@,
                    self.page_allocator@.taken(),
                    metadata@,
                    self.meta_collection.next_docid,
                );
            }
            if !fits {
                return None;
            }
        }
        Some(self.create_collection(name))
    }

    /// Adds an index to a collection, or does nothing if the path has an index
    /// that is too large, if the file cannot grow by what a new index may take, or
    /// if no page can be read.
    pub fn try_create_index(&mut self, collection_name: &str, field_name: &str) -> (result: Option<
        Result<(), String>,
    >)
        requires
            old(self).inv(),
            old(self).page_cache@.in_transaction,
        ensures
            final(self).inv(),
            final(self).names() == old(self).names(),
            same_session(final(self).page_cache@, old(self).page_cache@),
            forall|j: int|
                0 <= j < old(self).collections@.len() ==> #[trigger] final(self).docs(j)
                    == old(self).docs(j),
            (result is None) == (old(self).find(collection_name@) matches Some(i) && {
                ||| !indices_fit(split_dots(field_name@))
                ||| parse_path(field_name@) matches Ok(steps) && (
                old(self).page_cache@.available == 0 || !old(self).can_index(i, steps))
            }),
            match result {
                Some(outcome) => index_added(
                    *old(self),
                    *final(self),
                    collection_name@,
                    field_name@,
                    outcome,
                ),
                None => same_database(*old(self), *final(self)),
            },
    {
        if let Some(i) = self.find_collection(collection_name) {
            let parsed = match FieldPath::try_new(field_name) {
                Some(parsed) => parsed,
                None => return None,
            };
            if let Ok(path) = parsed {
                if self.page_cache.free_slots() == 0 {
                    return None;
                }
                proof {
                    self.lemma_readable(i as int);
                }
                let metadata = described_with(
                    &self.collections[i].collection,
                    &path,
                    BTree::open(self.page_allocator.next_page()),
                );
                let fits = self.collections[i].collection.index_fits(
                    &self.meta_collection,
                    self.collections[i].docid,
                    &metadata,
                    &mut self.page_cache,
                    &self.page_allocator,
                );
                proof {
                    lemma_same_contents(*old(self), *self);
                }
                if !fits {
                    return None;
                }
            }
        }
        let ghost ready = *self;
        let result = self.create_index(collection_name, field_name);
        proof {
            lemma_same_start(
                *old(self),
                ready,
                *self,
                collection_name@,
                field_name@,
                result,
            );
        }
        Some(result)
    }
}

} // verus!
