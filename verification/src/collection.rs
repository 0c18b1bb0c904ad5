//! A collection is a set of documents, which are assumed to be of the same
//! general schema and type. The documents themselves are stored inside a B-tree,
//! indexed by a unique 64-bit identifier (the DocId). There are ancillary B-trees
//! for any indexed fields within these documents to allow fast sorting and
//! searching.

use vstd::prelude::*;

use crate::btree::{can_read, has_tree, holds_entry, is_tree, tree_at, tree_owned, BTree};
use crate::btree_delete::can_free;
use crate::btree_insert::{busy, can_allocate, can_write, only_new_taken, same_session};
use crate::btree_model::{
    contents, count, edge_way, entry_ok, forest_count, height, key_ok, law_empty_tree_is_one_page,
    lemma_contents, lemma_forest_one, lemma_found, lemma_leaf_contents, lemma_member_count,
    lemma_thick_size, path_to, size, thick, tree_pages, Tree,
};
use crate::btree_node::{
    entries_size, entry_size, keys_of, lemma_entries_size_insert, Entry, MAX_RECORD_SIZE,
    NODE_CAPACITY,
};
use crate::btree_place::evolves;
use crate::cost::{lemma_busy_need, lemma_trimmed_way};
use crate::documents::{
    documents, documents_ok, entries_at, external_pages, index_bytes, index_key, index_ok, indexed,
    key_document, lemma_documents_frame, lemma_documents_inserted, lemma_documents_removed,
    lemma_entry_found, lemma_external_at, lemma_external_inserted, lemma_index_bytes,
    lemma_index_inserted, lemma_index_key, lemma_index_removed, lemma_index_skipped,
    lemma_keys_inserted, lemma_keys_removed,
};
use crate::field_path::{indices_fit, lookup_field, parse_path, split_dots, FieldPath, PathStep};
use crate::key_encoding::{
    be64, encode_key, from_be_bytes, lemma_be64, lemma_be64_inverse, lemma_key_document,
    to_be_bytes, DocId,
};
use crate::key_order::{
    ascending, group_lex_order, key_equal, lemma_rank, lemma_rank_unique, lex_lt, rank,
};
use crate::layout::{
    elsewhere, kept, layout, lemma_kept_same, lemma_kept_trans, lemma_layout_changed,
    lemma_layout_counts, lemma_layout_created, lemma_layout_dropped, lemma_layout_tree,
    lemma_occurs_at, lemma_occurs_concat, occurs, pages_used, spared, trees_at, untouched,
};
use crate::needs::{
    at_least, law_insert_room_by_heights, lemma_delete_kept, lemma_delete_ready,
    lemma_growth_bound, lemma_index_delete_step, lemma_index_insert_step, lemma_insert_kept,
    lemma_insert_ready, lemma_total_slots_lower, lemma_total_slots_next, probe_key, record_len,
};
use crate::page_allocator::{room, spare, FreePages, PageAllocator};
use crate::page_cache::{lockable, CacheState, PageCache, PageNum, PersistentStore};
use crate::page_counts::law_tree_pages;
use crate::records::{
    can_read_record, chunks, follow, free_chain, is_overflow, lemma_can_read_record, lemma_chunks,
    lemma_record_frame, materialize_doc, overflow_first, overflow_len, record_json, record_ok,
    record_pages, record_ready, write_chain, FLAG_OVERFLOW,
};
use crate::room::{lemma_slot_to_read_all, room_left};
use crate::slots::{
    can_walk, delete_need, fresh_slots, growth, idle_count, insert_need, insert_taken,
    leaf_trimmed, lemma_fresh_kept, lemma_idle_count, lemma_no_colder, lemma_without_entry,
    no_colder, read_slot, slot_for, vanishing, without_entry,
};
use crate::superblock::SUPERBLOCK_FPID;
use crate::util::{be64_bytes, get_u64, le64, le64_bytes, lemma_le64_frame, set_u64};
use crate::value::{document_text, json_text, storable, Json, Value};

verus! {

/// A field whose values can be searched.
pub struct Index {
    pub field: FieldPath,
    pub btree: BTree,
}

pub struct Collection {
    pub name: String,
    pub next_docid: u64,
    pub document_tree: BTree,
    pub indices: Vec<Index>,
}

/// The heights of some trees, taken together.
pub open spec fn total_height(pages: Map<u64, Seq<u8>>, roots: Seq<u64>) -> nat
    decreases roots.len(),
{
    if roots.len() == 0 {
        0
    } else {
        height(tree_at(pages, roots[0])) + total_height(pages, roots.skip(1))
    }
}

/// How many external pages a document takes.
pub open spec fn document_chunks(len: nat) -> nat {
    if 1 + len + 8 >= MAX_RECORD_SIZE {
        chunks(len)
    } else {
        0
    }
}

/// How many external pages a record has.
pub open spec fn record_chunks(record: Seq<u8>) -> nat {
    if is_overflow(record) {
        chunks(overflow_len(record))
    } else {
        0
    }
}

/// The place of the first index for a field.
pub open spec fn first_field(indices: Seq<Index>, steps: Seq<PathStep>) -> Option<int>
    decreases indices.len(),
{
    if indices.len() == 0 {
        None
    } else if indices[0].field@ == steps {
        Some(0)
    } else {
        match first_field(indices.skip(1), steps) {
            Some(i) => Some(i + 1),
            None => None,
        }
    }
}

proof fn lemma_first_field(indices: Seq<Index>, steps: Seq<PathStep>, i: int)
    requires
        0 <= i < indices.len(),
        indices[i].field@ == steps,
        forall|j: int| 0 <= j < i ==> (#[trigger] indices[j]).field@ != steps,
    ensures
        first_field(indices, steps) == Some(i),
    decreases indices.len(),
{
    if i > 0 {
        assert(indices[0].field@ != steps);
        assert forall|j: int| 0 <= j < i - 1 implies (#[trigger] indices.skip(1)[j]).field@
            != steps by {
            assert(indices.skip(1)[j] == indices[j + 1]);
        }
        lemma_first_field(indices.skip(1), steps, i - 1);
    }
}

proof fn lemma_no_such_field(indices: Seq<Index>, steps: Seq<PathStep>)
    requires
        forall|j: int| 0 <= j < indices.len() ==> (#[trigger] indices[j]).field@ != steps,
    ensures
        first_field(indices, steps) is None,
    decreases indices.len(),
{
    if indices.len() > 0 {
        assert(indices[0].field@ != steps);
        assert forall|j: int| 0 <= j < indices.skip(1).len() implies (
        #[trigger] indices.skip(1)[j]).field@ != steps by {
            assert(indices.skip(1)[j] == indices[j + 1]);
        }
        lemma_no_such_field(indices.skip(1), steps);
    }
}

impl Collection {
    /// The roots of all trees of the collection, that of the documents first.
    pub open spec fn roots(&self) -> Seq<u64> {
        Seq::new(
            self.indices@.len() + 1,
            |i: int|
                if i == 0 {
                    self.document_tree.root()
                } else {
                    self.indices@[i - 1].btree.root()
                },
        )
    }

    /// The entries of the document tree.
    pub open spec fn entries(&self, pages: Map<u64, Seq<u8>>) -> Seq<Entry> {
        entries_at(pages, self.document_tree.root())
    }

    /// The documents by their identifiers.
    pub open spec fn docs(&self, pages: Map<u64, Seq<u8>>) -> Map<u64, Json> {
        documents(pages, self.entries(pages))
    }

    pub open spec fn external(&self, pages: Map<u64, Seq<u8>>) -> Seq<u64> {
        external_pages(pages, self.entries(pages))
    }

    /// How often the collection uses a page.
    pub open spec fn uses(&self, pages: Map<u64, Seq<u8>>, q: u64) -> nat {
        pages_used(pages, self.roots(), self.external(pages), q)
    }

    /// The entries of an index.
    pub open spec fn index_entries(&self, pages: Map<u64, Seq<u8>>, i: int) -> Seq<Entry> {
        entries_at(pages, self.indices@[i].btree.root())
    }

    pub open spec fn fields_ok(&self) -> bool {
        forall|i: int|
            0 <= i < self.indices@.len() ==> (#[trigger] self.indices@[i]).field.wf()
                && self.indices@[i].field@.len() > 0
    }

    /// The first `n` indices are up to date with the documents `after`, the
    /// others with the documents `before`.
    pub open spec fn halfway(
        &self,
        pages: Map<u64, Seq<u8>>,
        free: FreePages,
        before: Map<u64, Json>,
        after: Map<u64, Json>,
        n: int,
    ) -> bool {
        &&& layout(pages, free, self.roots(), self.external(pages))
        &&& documents_ok(pages, self.entries(pages))
        &&& self.docs(pages) == after
        &&& self.fields_ok()
        &&& forall|i: int|
            0 <= i < self.indices@.len() ==> index_ok(
                #[trigger] self.index_entries(pages, i),
                self.indices@[i].field@,
                if i < n {
                    after
                } else {
                    before
                },
            )
    }

    /// The trees are trees without common pages, the documents can be read, and
    /// the indices are up to date.
    pub open spec fn inv(&self, pages: Map<u64, Seq<u8>>, free: FreePages) -> bool {
        self.halfway(pages, free, self.docs(pages), self.docs(pages), 0)
    }

    /// How many pages may be handed out when a document with a text of the given
    /// length is inserted.
    pub open spec fn insert_pages(&self, pages: Map<u64, Seq<u8>>, len: nat) -> nat {
        total_height(pages, self.roots()) + 2 * self.roots().len() + document_chunks(len)
    }

    /// How many external pages the document with the given identifier has.
    pub open spec fn stored_chunks(&self, pages: Map<u64, Seq<u8>>, id: u64) -> nat {
        let entries = self.entries(pages);
        if self.docs(pages).contains_key(id) {
            record_chunks(entries[rank(keys_of(entries), be64_bytes(id))].value)
        } else {
            0
        }
    }

    /// How many pages may be given back when a document is deleted.
    pub open spec fn delete_pages(&self, pages: Map<u64, Seq<u8>>, id: u64) -> nat {
        total_height(pages, self.roots()) + self.stored_chunks(pages, id)
    }

    /// The place of the index for a field that is given as text.
    pub open spec fn index_for(&self, name: Seq<char>) -> Option<int> {
        match parse_path(name) {
            Ok(steps) => first_field(self.indices@, steps),
            Err(_) => None,
        }
    }

    /// How many slots of the cache are enough to build an index, one of which is for
    /// reading the documents. Where all keys fit into the root, it takes one more.
    pub open spec fn index_room(&self, pages: Map<u64, Seq<u8>>, steps: Seq<PathStep>) -> nat {
        if index_bytes(pages, self.entries(pages), steps) <= NODE_CAPACITY {
            2
        } else {
            self.index_pages(pages) + 1
        }
    }

    /// How many pages may be handed out when an index is built. It has at most two
    /// for each key and its root, and no more levels than keys.
    pub open spec fn index_pages(&self, pages: Map<u64, Seq<u8>>) -> nat {
        3 * self.entries(pages).len() + 1
    }

    /// The pages hold the collection.
    pub open spec fn stored(&self, pages: Map<u64, Seq<u8>>) -> bool {
        exists|free: FreePages| self.inv(pages, free)
    }

    /// All pages of the collection can be read.
    pub open spec fn can_read(&self, cache: CacheState) -> bool {
        forall|q: u64| #[trigger] self.uses(cache.pages, q) > 0 ==> cache.can_lock(q)
    }

    /// Whatever does not belong to the collection is as it was.
    pub open spec fn spares(
        &self,
        pages: Map<u64, Seq<u8>>,
        free: FreePages,
        later: Collection,
        pages2: Map<u64, Seq<u8>>,
        free2: FreePages,
    ) -> bool {
        kept(
            pages,
            free,
            self.roots(),
            self.external(pages),
            pages2,
            free2,
            later.roots(),
            later.external(pages2),
        )
    }
}

/// The heights are the same where the trees are.
pub proof fn lemma_total_height_frame(
    pages: Map<u64, Seq<u8>>,
    pages2: Map<u64, Seq<u8>>,
    roots: Seq<u64>,
)
    requires
        forall|i: int|
            0 <= i < roots.len() ==> tree_at(pages2, #[trigger] roots[i]) == tree_at(
                pages,
                roots[i],
            ),
    ensures
        total_height(pages2, roots) == total_height(pages, roots),
    decreases roots.len(),
{
    if roots.len() > 0 {
        assert(tree_at(pages2, roots[0]) == tree_at(pages, roots[0]));
        assert forall|i: int| 0 <= i < roots.skip(1).len() implies tree_at(
            pages2,
            #[trigger] roots.skip(1)[i],
        ) == tree_at(pages, roots.skip(1)[i]) by {
            assert(roots.skip(1)[i] == roots[i + 1]);
        }
        lemma_total_height_frame(pages, pages2, roots.skip(1));
    }
}

/// The tree that comes next, and the rest.
pub proof fn lemma_total_height_next(pages: Map<u64, Seq<u8>>, roots: Seq<u64>, i: int)
    requires
        0 <= i < roots.len(),
    ensures
        total_height(pages, roots.skip(i)) == height(tree_at(pages, roots[i])) + total_height(
            pages,
            roots.skip(i + 1),
        ),
{
    assert(roots.skip(i)[0] == roots[i]);
    assert(roots.skip(i).skip(1) =~= roots.skip(i + 1));
}

/// Lower trees are lower in sum.
pub proof fn lemma_total_height_lower(
    pages: Map<u64, Seq<u8>>,
    pages2: Map<u64, Seq<u8>>,
    roots: Seq<u64>,
)
    requires
        forall|i: int|
            0 <= i < roots.len() ==> height(tree_at(pages2, #[trigger] roots[i])) <= height(
                tree_at(pages, roots[i]),
            ),
    ensures
        total_height(pages2, roots) <= total_height(pages, roots),
    decreases roots.len(),
{
    if roots.len() > 0 {
        let rest = roots.skip(1);
        assert(height(tree_at(pages2, roots[0])) <= height(tree_at(pages, roots[0])));
        assert forall|i: int| 0 <= i < rest.len() implies height(
            tree_at(pages2, #[trigger] rest[i]),
        ) <= height(tree_at(pages, rest[i])) by {
            assert(rest[i] == roots[i + 1]);
        }
        lemma_total_height_lower(pages, pages2, rest);
    }
}

/// One of the trees has changed.
proof fn lemma_total_height_changed(
    pages: Map<u64, Seq<u8>>,
    pages2: Map<u64, Seq<u8>>,
    roots: Seq<u64>,
    k: int,
)
    requires
        0 <= k < roots.len(),
        forall|i: int|
            0 <= i < roots.len() && i != k ==> tree_at(pages2, #[trigger] roots[i]) == tree_at(
                pages,
                roots[i],
            ),
    ensures
        total_height(pages2, roots) + height(tree_at(pages, roots[k])) == total_height(pages, roots)
            + height(tree_at(pages2, roots[k])),
    decreases roots.len(),
{
    let rest = roots.skip(1);
    if k == 0 {
        assert forall|i: int| 0 <= i < rest.len() implies tree_at(pages2, #[trigger] rest[i])
            == tree_at(pages, rest[i]) by {
            assert(rest[i] == roots[i + 1]);
        }
        lemma_total_height_frame(pages, pages2, rest);
    } else {
        assert forall|i: int| 0 <= i < rest.len() && i != k - 1 implies tree_at(
            pages2,
            #[trigger] rest[i],
        ) == tree_at(pages, rest[i]) by {
            assert(rest[i] == roots[i + 1]);
        }
        assert(tree_at(pages2, roots[0]) == tree_at(pages, roots[0]));
        assert(rest[k - 1] == roots[k]);
        lemma_total_height_changed(pages, pages2, rest, k - 1);
    }
}

/// The trees behind the one that changed are as high as before.
proof fn lemma_total_height_rest(
    pages: Map<u64, Seq<u8>>,
    pages2: Map<u64, Seq<u8>>,
    roots: Seq<u64>,
    k: int,
)
    requires
        0 <= k < roots.len(),
        forall|i: int|
            k < i < roots.len() ==> tree_at(pages2, #[trigger] roots[i]) == tree_at(
                pages,
                roots[i],
            ),
    ensures
        total_height(pages2, roots.skip(k + 1)) == total_height(pages, roots.skip(k + 1)),
{
    let rest = roots.skip(k + 1);
    assert forall|i: int| 0 <= i < rest.len() implies tree_at(pages2, #[trigger] rest[i])
        == tree_at(pages, rest[i]) by {
        assert(rest[i] == roots[i + k + 1]);
    }
    lemma_total_height_frame(pages, pages2, rest);
}

/// The entries of a tree are in ascending order, and each fits into a leaf.
pub proof fn lemma_tree_entries(pages: Map<u64, Seq<u8>>, root: u64)
    requires
        has_tree(pages, root),
    ensures
        ascending(keys_of(entries_at(pages, root))),
        forall|i: int|
            0 <= i < entries_at(pages, root).len() ==> entry_ok(
                #[trigger] entries_at(pages, root)[i],
            ),
{
    let t = tree_at(pages, root);
    assert(is_tree(pages, root, t));
    lemma_contents(t, None, None, height(t));
}

/// A key that does not fit into a node is in no tree.
proof fn lemma_key_absent(pages: Map<u64, Seq<u8>>, root: u64, key: Seq<u8>)
    requires
        has_tree(pages, root),
        !key_ok(key),
    ensures
        !keys_of(entries_at(pages, root)).contains(key),
{
    let entries = entries_at(pages, root);
    lemma_tree_entries(pages, root);
    if keys_of(entries).contains(key) {
        let i = keys_of(entries).index_of(key);
        assert(entry_ok(entries[i]));
    }
}

/// A document was stored outside of the trees: the record for it.
fn store_record<S: PersistentStore>(
    document: &Value,
    page_cache: &mut PageCache<S>,
    page_allocator: &mut PageAllocator,
    Ghost(roots): Ghost<Seq<u64>>,
    Ghost(extra): Ghost<Seq<u64>>,
) -> (record: Vec<u8>)
    requires
        old(page_cache).inv(),
        can_write(old(page_cache)@),
        old(page_allocator).inv(old(page_cache)@.pages),
        storable(document@),
        layout(old(page_cache)@.pages, old(page_allocator)@, roots, extra),
        can_allocate(*old(page_allocator), document_chunks(json_text(document@).len())),
        ({
            let n = document_chunks(json_text(document@).len());
            spare(old(page_cache)@, n) >= fresh_slots(old(page_cache)@, old(page_allocator)@, n)
        }),
    ensures
        final(page_cache).inv(),
        same_session(final(page_cache)@, old(page_cache)@),
        final(page_allocator).inv(final(page_cache)@.pages),
        final(page_allocator).balance() == old(page_allocator).balance(),
        record_ok(final(page_cache)@.pages, record@),
        record_json(final(page_cache)@.pages, record@) == document@,
        record@.len() + 8 < MAX_RECORD_SIZE,
        record@.len() == record_len(json_text(document@).len()),
        no_colder(old(page_cache)@, final(page_cache)@),
        ({
            let pages2 = final(page_cache)@.pages;
            let n = document_chunks(json_text(document@).len());
            let list = record_pages(pages2, record@);
            &&& layout(pages2, final(page_allocator)@, roots, extra + list)
            &&& kept(
                old(page_cache)@.pages,
                old(page_allocator)@,
                roots,
                extra,
                pages2,
                final(page_allocator)@,
                roots,
                extra + list,
            )
            &&& untouched(old(page_cache)@.pages, roots, extra, pages2)
            &&& final(page_allocator).allocs() == old(page_allocator).allocs() + n
            &&& final(page_allocator).frees() == old(page_allocator).frees()
            &&& final(page_allocator)@ == old(page_allocator)@.taken_many(n)
            &&& final(page_allocator)@.frontier <= old(page_allocator)@.frontier + n
            &&& room(final(page_cache)@) >= room(old(page_cache)@) - fresh_slots(
                old(page_cache)@,
                old(page_allocator)@,
                n,
            )
            &&& n == 0 ==> final(page_cache)@ == old(page_cache)@
        }),
{
    let text = document_text(document);
    let mut content: Vec<u8> = Vec::new();
    content.push(0);  // flag byte
    content.extend_from_slice(text.as_slice());
    assert(content@.skip(1) =~= text@);
    if text.len() >= MAX_RECORD_SIZE - 9 {
        proof {
            lemma_chunks(text@.len());
        }
        // need to create overflow records
        let first = write_chain(
            content.as_slice(),
            page_cache,
            page_allocator,
            Ghost(roots),
            Ghost(extra),
        );
        // This goes inline into the page
        let mut pointer: [u8; 17] = [0;17];
        pointer[0] = FLAG_OVERFLOW;
        let ghost p0 = pointer@;
        set_u64(&mut pointer, 1, text.len() as u64);
        let ghost p1 = pointer@;
        set_u64(&mut pointer, 9, first.as_u64());
        let mut record: Vec<u8> = Vec::new();
        record.extend_from_slice(&pointer);
        proof {
            assert(record@ =~= pointer@);
            assert(record@[0] == FLAG_OVERFLOW);
            lemma_le64_frame(p1, 9, le64_bytes(first@), 1);
            assert(le64(record@, 1) == text@.len());
            assert(le64(record@, 9) == first@);
            assert(is_overflow(record@));
        }
        record
    } else {
        proof {
            assert(!is_overflow(content@));
            assert(extra + Seq::<u64>::empty() =~= extra);
            lemma_kept_same(page_cache@.pages, page_allocator@, roots, extra);
        }
        content
    }
}

/// A record was stored, and an entry for it was inserted into the document tree.
proof fn lemma_document_added(
    c: Collection,
    pages0: Map<u64, Seq<u8>>,
    pages1: Map<u64, Seq<u8>>,
    pages2: Map<u64, Seq<u8>>,
    free0: FreePages,
    free1: FreePages,
    free2: FreePages,
    docid: u64,
    record: Seq<u8>,
)
    requires
        c.inv(pages0, free0),
        !c.docs(pages0).contains_key(docid),
        record_ok(pages1, record),
        layout(pages1, free1, c.roots(), c.external(pages0) + record_pages(pages1, record)),
        kept(
            pages0,
            free0,
            c.roots(),
            c.external(pages0),
            pages1,
            free1,
            c.roots(),
            c.external(pages0) + record_pages(pages1, record),
        ),
        untouched(pages0, c.roots(), c.external(pages0), pages1),
        has_tree(pages2, c.document_tree.root()),
        tree_owned(pages2, free2, c.document_tree.root()),
        evolves(
            pages1,
            free1,
            seq![tree_at(pages1, c.document_tree.root())],
            pages2,
            free2,
            seq![tree_at(pages2, c.document_tree.root())],
            Seq::empty(),
            Seq::empty(),
        ),
        c.entries(pages2) == c.entries(pages0).insert(
            rank(keys_of(c.entries(pages0)), be64_bytes(docid)),
            Entry { key: be64_bytes(docid), value: record },
        ),
    ensures
        c.halfway(
            pages2,
            free2,
            c.docs(pages0),
            c.docs(pages0).insert(docid, record_json(pages1, record)),
            0,
        ),
        c.spares(pages0, free0, c, pages2, free2),
        forall|i: int|
            1 <= i < c.roots().len() ==> tree_at(pages2, #[trigger] c.roots()[i]) == tree_at(
                pages0,
                c.roots()[i],
            ),
{
    let roots = c.roots();
    let ext0 = c.external(pages0);
    let list = record_pages(pages1, record);
    let extra = ext0 + list;
    let entries0 = c.entries(pages0);
    let entry = Entry { key: be64_bytes(docid), value: record };
    let entries2 = c.entries(pages2);
    let at = rank(keys_of(entries0), entry.key);
    assert(roots[0] == c.document_tree.root());
    lemma_be64(docid);
    lemma_layout_tree(pages0, free0, roots, ext0, 0);
    lemma_tree_entries(pages0, roots[0]);
    lemma_layout_changed(pages1, pages2, free1, free2, roots, extra, 0);
    lemma_keys_inserted(entries0, entry);
    lemma_documents_inserted(pages2, entries0, entry);
    // Neither the documents from before nor the new one were touched.
    assert forall|q: u64| #[trigger] occurs(ext0, q) > 0 implies pages2[q] == pages0[q] by {
        lemma_occurs_concat(ext0, list, q);
        assert(occurs(extra, q) > 0);
    }
    lemma_documents_frame(pages0, pages2, entries0);
    assert forall|q: u64| list.contains(q) implies #[trigger] pages2[q] == pages1[q] by {
        lemma_occurs_at(list, list.index_of(q));
        lemma_occurs_concat(ext0, list, q);
        assert(occurs(extra, q) > 0);
    }
    lemma_record_frame(pages1, pages2, record);
    assert forall|q: u64| #[trigger] occurs(c.external(pages2), q) == occurs(extra, q) by {
        lemma_external_inserted(pages2, entries0, at, entry, q);
        lemma_occurs_concat(ext0, list, q);
    }
    lemma_layout_counts(pages2, free2, roots, extra, c.external(pages2));
    lemma_kept_trans(
        pages0,
        free0,
        roots,
        ext0,
        pages1,
        free1,
        roots,
        extra,
        pages2,
        free2,
        roots,
        extra,
    );
    lemma_kept_trans(
        pages0,
        free0,
        roots,
        ext0,
        pages2,
        free2,
        roots,
        extra,
        pages2,
        free2,
        roots,
        c.external(pages2),
    );
    assert forall|i: int| 1 <= i < roots.len() implies tree_at(pages2, #[trigger] roots[i])
        == tree_at(pages0, roots[i]) by {
        assert(tree_at(pages1, roots[i]) == tree_at(pages0, roots[i]));
    }
    assert forall|i: int| 0 <= i < c.indices@.len() implies index_ok(
        #[trigger] c.index_entries(pages2, i),
        c.indices@[i].field@,
        c.docs(pages0),
    ) by {
        assert(roots[i + 1] == c.indices@[i].btree.root());
        assert(tree_at(pages2, roots[i + 1]) == tree_at(pages0, roots[i + 1]));
        assert(c.index_entries(pages2, i) == c.index_entries(pages0, i));
    }
}

/// An index was brought up to date.
proof fn lemma_index_step(
    c: Collection,
    pages: Map<u64, Seq<u8>>,
    pages2: Map<u64, Seq<u8>>,
    free: FreePages,
    free2: FreePages,
    before: Map<u64, Json>,
    after: Map<u64, Json>,
    i: int,
)
    requires
        c.halfway(pages, free, before, after, i),
        0 <= i < c.indices@.len(),
        has_tree(pages2, c.indices@[i].btree.root()),
        tree_owned(pages2, free2, c.indices@[i].btree.root()),
        evolves(
            pages,
            free,
            seq![tree_at(pages, c.indices@[i].btree.root())],
            pages2,
            free2,
            seq![tree_at(pages2, c.indices@[i].btree.root())],
            Seq::empty(),
            Seq::empty(),
        ),
        index_ok(c.index_entries(pages2, i), c.indices@[i].field@, after),
    ensures
        c.halfway(pages2, free2, before, after, i + 1),
        c.spares(pages, free, c, pages2, free2),
        forall|j: int|
            0 <= j < c.roots().len() && j != i + 1 ==> tree_at(pages2, #[trigger] c.roots()[j])
                == tree_at(pages, c.roots()[j]),
        c.external(pages2) == c.external(pages),
{
    let roots = c.roots();
    let ext = c.external(pages);
    assert(roots[i + 1] == c.indices@[i].btree.root());
    lemma_layout_changed(pages, pages2, free, free2, roots, ext, i + 1);
    assert(roots[0] == c.document_tree.root());
    assert(tree_at(pages2, roots[0]) == tree_at(pages, roots[0]));
    assert(c.entries(pages2) == c.entries(pages));
    lemma_documents_frame(pages, pages2, c.entries(pages));
    assert forall|j: int| 0 <= j < c.indices@.len() implies index_ok(
        #[trigger] c.index_entries(pages2, j),
        c.indices@[j].field@,
        if j < i + 1 {
            after
        } else {
            before
        },
    ) by {
        if j != i {
            assert(roots[j + 1] == c.indices@[j].btree.root());
            assert(tree_at(pages2, roots[j + 1]) == tree_at(pages, roots[j + 1]));
            assert(c.index_entries(pages2, j) == c.index_entries(pages, j));
        }
    }
}

/// An index did not have to change.
proof fn lemma_index_unchanged(
    c: Collection,
    pages: Map<u64, Seq<u8>>,
    free: FreePages,
    before: Map<u64, Json>,
    after: Map<u64, Json>,
    i: int,
)
    requires
        c.halfway(pages, free, before, after, i),
        0 <= i < c.indices@.len(),
        index_ok(c.index_entries(pages, i), c.indices@[i].field@, after),
    ensures
        c.halfway(pages, free, before, after, i + 1),
{
    assert forall|j: int| 0 <= j < c.indices@.len() implies index_ok(
        #[trigger] c.index_entries(pages, j),
        c.indices@[j].field@,
        if j < i + 1 {
            after
        } else {
            before
        },
    ) by {
        if j != i {
            assert(index_ok(
                c.index_entries(pages, j),
                c.indices@[j].field@,
                if j < i {
                    after
                } else {
                    before
                },
            ));
        }
    }
}

/// Once all indices are up to date, nothing is left to do.
proof fn lemma_all_done(
    c: Collection,
    pages: Map<u64, Seq<u8>>,
    free: FreePages,
    before: Map<u64, Json>,
    after: Map<u64, Json>,
)
    requires
        c.halfway(pages, free, before, after, c.indices@.len() as int),
    ensures
        c.inv(pages, free),
        c.docs(pages) == after,
{
    assert forall|j: int| 0 <= j < c.indices@.len() implies index_ok(
        #[trigger] c.index_entries(pages, j),
        c.indices@[j].field@,
        c.docs(pages),
    ) by {
        assert(index_ok(c.index_entries(pages, j), c.indices@[j].field@, after));
    }
}

/// Only the trees of a collection matter.
pub proof fn lemma_same_trees(
    c: Collection,
    c2: Collection,
    pages: Map<u64, Seq<u8>>,
    free: FreePages,
)
    requires
        c.document_tree == c2.document_tree,
        c.indices == c2.indices,
    ensures
        c2.roots() == c.roots(),
        c.inv(pages, free) ==> c2.inv(pages, free),
        c2.docs(pages) == c.docs(pages),
        c2.external(pages) == c.external(pages),
{
    assert(c2.roots() =~= c.roots());
    if c.inv(pages, free) {
        assert forall|i: int| 0 <= i < c2.indices@.len() implies index_ok(
            #[trigger] c2.index_entries(pages, i),
            c2.indices@[i].field@,
            c2.docs(pages),
        ) by {
            assert(index_ok(c.index_entries(pages, i), c.indices@[i].field@, c.docs(pages)));
        }
    }
}

/// The key of a document in an index, if it has one.
pub(crate) fn document_key(path: &FieldPath, docid: DocId, document: &Value) -> (key: Option<Vec<u8>>)
    ensures
        match key {
            Some(key) => index_key(path@, document@, docid.0) == Some(key@),
            None => index_key(path@, document@, docid.0) is None,
        },
{
    if let Ok(val) = lookup_field(path, document) {
        if let Ok(encoded) = encode_key(&val, docid) {
            if encoded.len() < MAX_RECORD_SIZE - 8 {
                proof {
                    lemma_key_document(val@, docid.0);
                }
                return Some(encoded);
            }
        }
    }
    None
}

/// Adds the key of a new document to an index, if the document has one.
fn add_key<S: PersistentStore>(
    index: &BTree,
    key: &Option<Vec<u8>>,
    docid: DocId,
    page_cache: &mut PageCache<S>,
    page_allocator: &mut PageAllocator,
    Ghost(steps): Ghost<Seq<PathStep>>,
    Ghost(json): Ghost<Json>,
    Ghost(docs): Ghost<Map<u64, Json>>,
)
    requires
        old(page_cache).inv(),
        can_write(old(page_cache)@),
        old(page_allocator).inv(old(page_cache)@.pages),
        has_tree(old(page_cache)@.pages, index.root()),
        tree_owned(old(page_cache)@.pages, old(page_allocator)@, index.root()),
        index_ok(entries_at(old(page_cache)@.pages, index.root()), steps, docs),
        !docs.contains_key(docid.0),
        match key {
            Some(key) => index_key(steps, json, docid.0) == Some(key@),
            None => index_key(steps, json, docid.0) is None,
        },
        key matches Some(key) ==> {
            let cache = old(page_cache)@;
            let way = path_to(tree_at(cache.pages, index.root()), key@);
            let size = key@.len() + 14;
            &&& can_walk(cache, way)
            &&& can_allocate(*old(page_allocator), growth(cache.pages, way, size))
            &&& spare(cache, growth(cache.pages, way, size)) >= insert_need(
                cache,
                old(page_allocator)@,
                way,
                size,
            )
        },
    ensures
        final(page_cache).inv(),
        same_session(final(page_cache)@, old(page_cache)@),
        final(page_allocator).inv(final(page_cache)@.pages),
        final(page_allocator).balance() == old(page_allocator).balance(),
        has_tree(final(page_cache)@.pages, index.root()),
        tree_owned(final(page_cache)@.pages, final(page_allocator)@, index.root()),
        index_ok(
            entries_at(final(page_cache)@.pages, index.root()),
            steps,
            docs.insert(docid.0, json),
        ),
        ({
            let t = tree_at(old(page_cache)@.pages, index.root());
            let t2 = tree_at(final(page_cache)@.pages, index.root());
            &&& height(t2) <= height(t) + 1
            &&& thick(t) ==> thick(t2)
            &&& contents(t2).len() <= contents(t).len() + 1
            &&& entries_size(contents(t2)) == entries_size(contents(t)) + match key {
                Some(key) => entry_size(Entry { key: key@, value: be64_bytes(docid.0) }),
                None => 0,
            }
            &&& t is Leaf && entries_size(contents(t2)) <= NODE_CAPACITY ==> t2 is Leaf
            &&& only_new_taken(
                old(page_cache)@,
                old(page_allocator)@,
                final(page_cache)@,
                final(page_allocator)@,
            )
            &&& busy(old(page_cache)@, tree_pages(t)) ==> busy(
                final(page_cache)@,
                tree_pages(t2),
            )
            &&& evolves(
                old(page_cache)@.pages,
                old(page_allocator)@,
                seq![t],
                final(page_cache)@.pages,
                final(page_allocator)@,
                seq![t2],
                Seq::empty(),
                Seq::empty(),
            )
            &&& final(page_allocator).frees() == old(page_allocator).frees()
            &&& match key {
                Some(key) => {
                    let cache = old(page_cache)@;
                    let way = path_to(t, key@);
                    let more = growth(cache.pages, way, key@.len() + 14);
                    let need = insert_need(cache, old(page_allocator)@, way, key@.len() + 14);
                    &&& final(page_allocator).allocs() == old(page_allocator).allocs() + more
                    &&& final(page_allocator)@ == old(page_allocator)@.taken_many(more)
                    &&& final(page_allocator)@.frontier <= old(page_allocator)@.frontier + more
                    &&& room(final(page_cache)@) >= room(cache) - need
                    &&& more == 0 ==> final(page_cache)@.available >= cache.available - need
                },
                None => {
                    &&& final(page_cache)@ == old(page_cache)@
                    &&& *final(page_allocator) == *old(page_allocator)
                },
            }
        }),
{
    let ghost entries = entries_at(page_cache@.pages, index.root());
    proof {
        lemma_tree_entries(page_cache@.pages, index.root());
        lemma_index_key(steps, json, docid.0);
        lemma_be64(docid.0);
        if index_key(steps, json, docid.0) is None {
            lemma_index_skipped(entries, steps, docs, docid.0, json);
        } else {
            lemma_index_inserted(entries, steps, docs, docid.0, json);
        }
    }
    if let Some(key) = key {
        let value = to_be_bytes(docid.0);
        index.insert(key.as_slice(), &value, page_cache, page_allocator);
        proof {
            lemma_rank(keys_of(entries), key@);
            lemma_entries_size_insert(
                entries,
                rank(keys_of(entries), key@),
                Entry { key: key@, value: value@ },
            );
        }
    }
}

impl Collection {
    /// Inserts a document, but not into the indices.
    fn add_document<S: PersistentStore>(
        &self,
        docid: DocId,
        document: &Value,
        page_cache: &mut PageCache<S>,
        page_allocator: &mut PageAllocator,
    )
        requires
            old(page_cache).inv(),
            can_write(old(page_cache)@),
            old(page_allocator).inv(old(page_cache)@.pages),
            self.inv(old(page_cache)@.pages, old(page_allocator)@),
            storable(document@),
            !self.docs(old(page_cache)@.pages).contains_key(docid.0),
            ({
                let cache = old(page_cache)@;
                let free = old(page_allocator)@;
                let len = json_text(document@).len();
                let n = document_chunks(len);
                let way = self.document_way(cache.pages, docid.0);
                let more = growth(cache.pages, way, record_len(len) + 14);
                &&& can_allocate(*old(page_allocator), n + more)
                &&& spare(cache, n + more) >= fresh_slots(cache, free, n) + at_least(
                    read_slot(cache, way),
                    insert_need(cache, free.taken_many(n), way, record_len(len) + 14),
                )
            }),
        ensures
            final(page_cache).inv(),
            same_session(final(page_cache)@, old(page_cache)@),
            final(page_allocator).inv(final(page_cache)@.pages),
            final(page_allocator).balance() == old(page_allocator).balance(),
            self.halfway(
                final(page_cache)@.pages,
                final(page_allocator)@,
                self.docs(old(page_cache)@.pages),
                self.docs(old(page_cache)@.pages).insert(docid.0, document@),
                0,
            ),
            self.spares(
                old(page_cache)@.pages,
                old(page_allocator)@,
                *self,
                final(page_cache)@.pages,
                final(page_allocator)@,
            ),
            ({
                let h = height(tree_at(old(page_cache)@.pages, self.document_tree.root()));
                let h2 = height(tree_at(final(page_cache)@.pages, self.document_tree.root()));
                let cache = old(page_cache)@;
                let free = old(page_allocator)@;
                let len = json_text(document@).len();
                let n = document_chunks(len);
                let way = self.document_way(cache.pages, docid.0);
                let more = growth(cache.pages, way, record_len(len) + 14);
                let need = fresh_slots(cache, free, n) + insert_need(
                    cache,
                    free.taken_many(n),
                    way,
                    record_len(len) + 14,
                );
                &&& h2 <= h + 1
                &&& forall|i: int|
                    1 <= i < self.roots().len() ==> tree_at(
                        final(page_cache)@.pages,
                        #[trigger] self.roots()[i],
                    ) == tree_at(old(page_cache)@.pages, self.roots()[i])
                &&& final(page_allocator).frees() == old(page_allocator).frees()
                &&& final(page_allocator).allocs() == old(page_allocator).allocs() + n + more
                &&& final(page_allocator)@ == free.taken_many(n).taken_many(more)
                &&& final(page_allocator)@.frontier <= free.frontier + n + more
                &&& no_colder(cache, final(page_cache)@)
                &&& room(final(page_cache)@) >= room(cache) - need
                &&& n + more == 0 ==> final(page_cache)@.available >= cache.available - need
            }),
    {
        let ghost cache0 = page_cache@;
        let ghost pages0 = page_cache@.pages;
        let ghost free0 = page_allocator@;
        let ghost roots = self.roots();
        let ghost ext = self.external(pages0);
        let record = store_record(
            document,
            page_cache,
            page_allocator,
            Ghost(roots),
            Ghost(ext),
        );
        let ghost pages1 = page_cache@.pages;
        let ghost free1 = page_allocator@;
        let key = to_be_bytes(docid.0);
        proof {
            assert(roots[0] == self.document_tree.root());
            assert(tree_at(pages1, roots[0]) == tree_at(pages0, roots[0]));
            lemma_layout_tree(pages1, free1, roots, ext + record_pages(pages1, record@), 0);
            assert(has_tree(pages0, roots[0]));
            lemma_be64(docid.0);
            lemma_insert_kept(cache0, page_cache@, free1, roots[0], key@, record@.len() + 14);
            lemma_insert_ready(page_cache@, roots[0], key@, record@.len() + 14);
        }
        let ghost cache1 = page_cache@;
        self.document_tree.insert(&key, record.as_slice(), page_cache, page_allocator);
        proof {
            lemma_no_colder(cache0, cache1, page_cache@);
            lemma_document_added(
                *self,
                pages0,
                pages1,
                page_cache@.pages,
                free0,
                free1,
                page_allocator@,
                docid.0,
                record@,
            );
        }
    }

    /// Inserts a document under a given identifier.
    #[verifier::rlimit(100)]
    #[verifier::spinoff_prover]
    fn insert_internal<S: PersistentStore>(
        &self,
        docid: DocId,
        document: &Value,
        page_cache: &mut PageCache<S>,
        page_allocator: &mut PageAllocator,
    )
        requires
            old(page_cache).inv(),
            can_write(old(page_cache)@),
            old(page_allocator).inv(old(page_cache)@.pages),
            self.inv(old(page_cache)@.pages, old(page_allocator)@),
            storable(document@),
            !self.docs(old(page_cache)@.pages).contains_key(docid.0),
            self.can_add(old(page_cache)@, *old(page_allocator), document@, docid.0),
        ensures
            final(page_cache).inv(),
            same_session(final(page_cache)@, old(page_cache)@),
            final(page_allocator).inv(final(page_cache)@.pages),
            final(page_allocator).balance() == old(page_allocator).balance(),
            self.inv(final(page_cache)@.pages, final(page_allocator)@),
            self.docs(final(page_cache)@.pages) == self.docs(old(page_cache)@.pages).insert(
                docid.0,
                document@,
            ),
            self.spares(
                old(page_cache)@.pages,
                old(page_allocator)@,
                *self,
                final(page_cache)@.pages,
                final(page_allocator)@,
            ),
            ({
                let cache = old(page_cache)@;
                let more = self.insert_growth(cache.pages, document@, docid.0);
                let need = self.insert_room(cache, old(page_allocator)@, document@, docid.0);
                &&& final(page_allocator).frees() == old(page_allocator).frees()
                &&& final(page_allocator).allocs() == old(page_allocator).allocs() + more
                &&& final(page_allocator)@.frontier <= old(page_allocator)@.frontier + more
                &&& no_colder(cache, final(page_cache)@)
                &&& room(final(page_cache)@) >= room(cache) - need
                &&& more == 0 ==> final(page_cache)@.available >= cache.available - need
                &&& total_height(final(page_cache)@.pages, self.roots()) <= total_height(
                    old(page_cache)@.pages,
                    self.roots(),
                ) + self.roots().len()
            }),
    {
        let ghost pages0 = page_cache@.pages;
        let ghost free0 = page_allocator@;
        let ghost roots = self.roots();
        let ghost docs0 = self.docs(pages0);
        let ghost docs2 = docs0.insert(docid.0, document@);
        let ghost cache0 = page_cache@;
        let ghost more = self.insert_growth(pages0, document@, docid.0);
        let ghost take = self.insert_room(cache0, free0, document@, docid.0);
        proof {
            reveal(Collection::insert_room);
            reveal(Collection::insert_growth);
            assert(roots.skip(0) =~= roots);
            lemma_total_height_next(pages0, roots, 0);
        }
        self.add_document(docid, document, page_cache, page_allocator);
        proof {
            lemma_total_height_rest(pages0, page_cache@.pages, roots, 0);
            lemma_total_height_changed(pages0, page_cache@.pages, roots, 0);
        }
        // Update indices
        let mut i: usize = 0;
        while i < self.indices.len()
            invariant
                i <= self.indices@.len(),
                page_cache.inv(),
                same_session(page_cache@, old(page_cache)@),
                can_write(old(page_cache)@),
                page_allocator.inv(page_cache@.pages),
                page_allocator.balance() == old(page_allocator).balance(),
                pages0 == old(page_cache)@.pages,
                free0 == old(page_allocator)@,
                roots == self.roots(),
                roots.len() == self.indices@.len() + 1,
                docs2 == docs0.insert(docid.0, document@),
                !docs0.contains_key(docid.0),
                self.halfway(page_cache@.pages, page_allocator@, docs0, docs2, i as int),
                self.spares(pages0, free0, *self, page_cache@.pages, page_allocator@),
                page_allocator.frees() == old(page_allocator).frees(),
                can_allocate(*old(page_allocator), more),
                spare(cache0, more) >= take,
                page_allocator.allocs() >= old(page_allocator).allocs(),
                page_allocator.allocs() + self.index_growths(pages0, document@, docid.0, i as int)
                    == old(page_allocator).allocs() + more,
                page_allocator@.frontier + self.index_growths(
                    pages0,
                    document@,
                    docid.0,
                    i as int,
                ) <= free0.frontier + more,
                cache0 == old(page_cache)@,
                no_colder(cache0, page_cache@),
                self.inv(pages0, free0),
                forall|j: int|
                    i + 1 <= j < roots.len() ==> tree_at(page_cache@.pages, #[trigger] roots[j])
                        == tree_at(pages0, roots[j]),
                ({
                    let rest = self.index_insert_costs(
                        cache0,
                        page_allocator@,
                        document@,
                        docid.0,
                        i as int,
                    );
                    &&& room(page_cache@) >= room(cache0) - take + rest
                    &&& more == 0 ==> page_cache@.available >= cache0.available - take + rest
                }),
                total_height(page_cache@.pages, roots) <= total_height(pages0, roots) + i + 1,
            decreases self.indices@.len() - i,
        {
            let ghost now = page_cache@.pages;
            let ghost cache = page_cache@;
            let ghost free = page_allocator@;
            proof {
                assert(roots[i + 1] == self.indices@[i as int].btree.root());
                lemma_layout_tree(now, free, roots, self.external(now), i + 1);
                lemma_total_height_next(now, roots, i + 1);
                assert(index_ok(
                    self.index_entries(now, i as int),
                    self.indices@[i as int].field@,
                    docs0,
                ));
            }
            let key = document_key(&self.indices[i].field, docid, document);
            proof {
                let root = roots[i + 1];
                assert(has_tree(pages0, root));
                assert(tree_at(now, root) == tree_at(pages0, root));
                lemma_index_insert_step(
                    *self,
                    cache0,
                    cache,
                    free,
                    document@,
                    docid.0,
                    i as int,
                );
                if key is Some {
                    let bytes = key->Some_0@;
                    lemma_insert_ready(cache, root, bytes, bytes.len() + 14);
                }
            }
            add_key(
                &self.indices[i].btree,
                &key,
                docid,
                page_cache,
                page_allocator,
                Ghost(self.indices@[i as int].field@),
                Ghost(document@),
                Ghost(docs0),
            );
            proof {
                let pages2 = page_cache@.pages;
                let free2 = page_allocator@;
                lemma_no_colder(cache0, cache, page_cache@);
                lemma_index_step(*self, now, pages2, free, free2, docs0, docs2, i as int);
                lemma_kept_trans(
                    pages0,
                    free0,
                    roots,
                    self.external(pages0),
                    now,
                    free,
                    roots,
                    self.external(now),
                    pages2,
                    free2,
                    roots,
                    self.external(pages2),
                );
                lemma_total_height_changed(now, pages2, roots, i + 1);
                lemma_total_height_rest(now, pages2, roots, i + 1);
            }
            i = i + 1;
        }
        proof {
            lemma_all_done(*self, page_cache@.pages, page_allocator@, docs0, docs2);
        }
    }

    /// Inserts a document under a new identifier.
    pub fn insert<S: PersistentStore>(
        &mut self,
        document: &Value,
        page_cache: &mut PageCache<S>,
        page_allocator: &mut PageAllocator,
    ) -> (docid: DocId)
        requires
            old(page_cache).inv(),
            can_write(old(page_cache)@),
            old(page_allocator).inv(old(page_cache)@.pages),
            old(self).inv(old(page_cache)@.pages, old(page_allocator)@),
            document@ is Object,
            storable(document@),
            old(self).next_docid < u64::MAX,
            !old(self).docs(old(page_cache)@.pages).contains_key(old(self).next_docid),
            old(self).can_add(
                old(page_cache)@,
                *old(page_allocator),
                document@,
                old(self).next_docid,
            ),
        ensures
            docid.0 == old(self).next_docid,
            *final(self) == (Collection {
                next_docid: (old(self).next_docid + 1) as u64,
                ..*old(self)
            }),
            final(page_cache).inv(),
            same_session(final(page_cache)@, old(page_cache)@),
            final(page_allocator).inv(final(page_cache)@.pages),
            final(page_allocator).balance() == old(page_allocator).balance(),
            final(self).inv(final(page_cache)@.pages, final(page_allocator)@),
            final(self).docs(final(page_cache)@.pages) == old(self).docs(
                old(page_cache)@.pages,
            ).insert(docid.0, document@),
            old(self).spares(
                old(page_cache)@.pages,
                old(page_allocator)@,
                *final(self),
                final(page_cache)@.pages,
                final(page_allocator)@,
            ),
            ({
                let cache = old(page_cache)@;
                let more = old(self).insert_growth(cache.pages, document@, docid.0);
                let need = old(self).insert_room(
                    cache,
                    old(page_allocator)@,
                    document@,
                    docid.0,
                );
                &&& final(page_allocator).frees() == old(page_allocator).frees()
                &&& final(page_allocator).allocs() == old(page_allocator).allocs() + more
                &&& final(page_allocator)@.frontier <= old(page_allocator)@.frontier + more
                &&& room(final(page_cache)@) >= room(cache) - need
                &&& more == 0 ==> final(page_cache)@.available >= cache.available - need
                &&& total_height(final(page_cache)@.pages, final(self).roots()) <= total_height(
                    old(page_cache)@.pages,
                    old(self).roots(),
                ) + old(self).roots().len()
            }),
    {
        let docid: u64 = self.next_docid;
        self.insert_internal(DocId(docid), document, page_cache, page_allocator);
        self.next_docid = docid + 1;
        proof {
            lemma_same_trees(*old(self), *self, page_cache@.pages, page_allocator@);
        }
        DocId(docid)
    }
}

/// What can be read of a collection.
proof fn lemma_can_read(c: Collection, cache: CacheState, free: FreePages, i: int)
    requires
        c.inv(cache.pages, free),
        c.can_read(cache),
        0 <= i < c.roots().len(),
    ensures
        can_read(cache, c.roots()[i]),
        has_tree(cache.pages, c.roots()[i]),
{
    let pages = cache.pages;
    let roots = c.roots();
    assert(has_tree(pages, roots[i]));
    assert forall|q: u64| #[trigger] count(tree_at(pages, roots[i]), q) > 0 implies cache.can_lock(
        q,
    ) by {
        assert(trees_at(pages, roots)[i] == tree_at(pages, roots[i]));
        lemma_member_count(trees_at(pages, roots), i, q);
        assert(c.uses(pages, q) > 0);
    }
}

/// The external pages of each document can be read.
proof fn lemma_can_read_entry(c: Collection, cache: CacheState, i: int)
    requires
        c.can_read(cache),
        0 <= i < c.entries(cache.pages).len(),
    ensures
        can_read_record(cache, c.entries(cache.pages)[i].value),
{
    let pages = cache.pages;
    lemma_external_at(pages, c.entries(pages), i);
    assert forall|q: u64|
        record_pages(pages, c.entries(pages)[i].value).contains(q) implies #[trigger] cache.can_lock(
        q,
    ) by {
        assert(occurs(c.external(pages), q) > 0);
        assert(c.uses(pages, q) > 0);
    }
}

impl Collection {
    /// The record of a document.
    pub(crate) fn fetch<S: PersistentStore>(&self, docid: DocId, page_cache: &mut PageCache<S>) -> (result:
        Option<Vec<u8>>)
        requires
            old(page_cache).inv(),
            self.stored(old(page_cache)@.pages),
            self.can_read(old(page_cache)@),
        ensures
            final(page_cache).inv(),
            final(page_cache)@.same_but_order(old(page_cache)@),
            ({
                let pages = old(page_cache)@.pages;
                let entries = self.entries(pages);
                let at = rank(keys_of(entries), be64_bytes(docid.0));
                match result {
                    Some(record) => self.docs(pages).contains_key(docid.0) && 0 <= at
                        < entries.len() && entries[at] == (Entry {
                        key: be64_bytes(docid.0),
                        value: record@,
                    }) && record_ok(pages, record@) && record_json(pages, record@) == self.docs(
                        pages,
                    )[docid.0] && can_read_record(final(page_cache)@, record@),
                    None => !self.docs(pages).contains_key(docid.0),
                }
            }),
    {
        let ghost cache = page_cache@;
        let ghost pages = page_cache@.pages;
        let ghost free = choose|free: FreePages| self.inv(pages, free);
        let ghost entries = self.entries(pages);
        let ghost key = be64_bytes(docid.0);
        let ghost t = tree_at(pages, self.document_tree.root());
        proof {
            assert(self.roots()[0] == self.document_tree.root());
            lemma_can_read(*self, cache, free, 0);
            lemma_tree_entries(pages, self.document_tree.root());
            lemma_rank(keys_of(entries), key);
            lemma_be64(docid.0);
            if keys_of(entries).contains(key) {
                assert(is_tree(pages, self.document_tree.root(), t));
                lemma_found(t, None, None, height(t), key);
                lemma_entry_found(entries, key);
                lemma_can_read_entry(*self, cache, rank(keys_of(entries), key));
            }
        }
        let docid_key = to_be_bytes(docid.0);
        let mut cursor = self.document_tree.find(&docid_key, false, page_cache);
        let entry = cursor.next(page_cache);
        match entry {
            None => None,
            Some((got_docid, document_bytes)) => {
                proof {
                    let at = rank(keys_of(entries), key);
                    assert(entries.skip(at)[0] == entries[at]);
                    assert(keys_of(entries)[at] == entries[at].key);
                }
                if !key_equal(got_docid.as_slice(), &docid_key) {
                    return None;
                }
                proof {
                    let at = rank(keys_of(entries), key);
                    assert(keys_of(entries).contains(keys_of(entries)[at]));
                    lemma_can_read_record(cache, page_cache@, document_bytes@);
                }
                Some(document_bytes)
            },
        }
    }

    /// The document with the given identifier.
    pub fn get<S: PersistentStore>(&self, docid: DocId, page_cache: &mut PageCache<S>) -> (result:
        Option<Value>)
        requires
            old(page_cache).inv(),
            self.stored(old(page_cache)@.pages),
            self.can_read(old(page_cache)@),
        ensures
            final(page_cache).inv(),
            final(page_cache)@.same_but_order(old(page_cache)@),
            match result {
                Some(document) => self.docs(old(page_cache)@.pages).contains_key(docid.0)
                    && document@ == self.docs(old(page_cache)@.pages)[docid.0] && storable(
                    document@,
                ),
                None => !self.docs(old(page_cache)@.pages).contains_key(docid.0),
            },
    {
        match self.fetch(docid, page_cache) {
            None => None,
            Some(record) => Some(materialize_doc(record.as_slice(), page_cache)),
        }
    }
}

/// The external pages of a document were given back, and its entry was removed
/// from the document tree.
proof fn lemma_document_removed(
    c: Collection,
    pages0: Map<u64, Seq<u8>>,
    pages1: Map<u64, Seq<u8>>,
    pages2: Map<u64, Seq<u8>>,
    free0: FreePages,
    free1: FreePages,
    free2: FreePages,
    docid: u64,
    at: int,
)
    requires
        c.inv(pages0, free0),
        0 <= at < c.entries(pages0).len(),
        c.entries(pages0)[at].key == be64_bytes(docid),
        ({
            let rest = external_pages(pages0, c.entries(pages0).remove(at));
            &&& layout(pages1, free1, c.roots(), rest)
            &&& kept(
                pages0,
                free0,
                c.roots(),
                c.external(pages0),
                pages1,
                free1,
                c.roots(),
                rest,
            )
            &&& untouched(pages0, c.roots(), rest, pages1)
        }),
        has_tree(pages2, c.document_tree.root()),
        tree_owned(pages2, free2, c.document_tree.root()),
        evolves(
            pages1,
            free1,
            seq![tree_at(pages1, c.document_tree.root())],
            pages2,
            free2,
            seq![tree_at(pages2, c.document_tree.root())],
            Seq::empty(),
            Seq::empty(),
        ),
        c.entries(pages2) == c.entries(pages0).remove(at),
    ensures
        c.halfway(pages2, free2, c.docs(pages0), c.docs(pages0).remove(docid), 0),
        c.spares(pages0, free0, c, pages2, free2),
        forall|i: int|
            1 <= i < c.roots().len() ==> tree_at(pages2, #[trigger] c.roots()[i]) == tree_at(
                pages0,
                c.roots()[i],
            ),
{
    let roots = c.roots();
    let entries0 = c.entries(pages0);
    let entries2 = c.entries(pages2);
    let rest = external_pages(pages0, entries2);
    assert(roots[0] == c.document_tree.root());
    lemma_be64(docid);
    lemma_layout_tree(pages0, free0, roots, c.external(pages0), 0);
    lemma_tree_entries(pages0, roots[0]);
    lemma_layout_changed(pages1, pages2, free1, free2, roots, rest, 0);
    lemma_documents_removed(pages0, entries0, at);
    assert forall|q: u64| #[trigger] occurs(rest, q) > 0 implies pages2[q] == pages0[q] by {}
    lemma_documents_frame(pages0, pages2, entries2);
    lemma_kept_trans(
        pages0,
        free0,
        roots,
        c.external(pages0),
        pages1,
        free1,
        roots,
        rest,
        pages2,
        free2,
        roots,
        rest,
    );
    assert forall|i: int| 1 <= i < roots.len() implies tree_at(pages2, #[trigger] roots[i])
        == tree_at(pages0, roots[i]) by {
        assert(tree_at(pages1, roots[i]) == tree_at(pages0, roots[i]));
    }
    assert forall|i: int| 0 <= i < c.indices@.len() implies index_ok(
        #[trigger] c.index_entries(pages2, i),
        c.indices@[i].field@,
        c.docs(pages0),
    ) by {
        assert(roots[i + 1] == c.indices@[i].btree.root());
        assert(tree_at(pages2, roots[i + 1]) == tree_at(pages0, roots[i + 1]));
        assert(c.index_entries(pages2, i) == c.index_entries(pages0, i));
    }
}

impl Collection {
    /// What a deletion leaves of the cache and the allocator.
    pub open spec fn deleted(
        &self,
        allocator: PageAllocator,
        cache: CacheState,
        id: u64,
        allocator2: PageAllocator,
        cache2: CacheState,
    ) -> bool {
        let less = self.delete_losses(cache.pages, id);
        let need = self.delete_room(cache, id);
        &&& same_session(cache2, cache)
        &&& allocator2.inv(cache2.pages)
        &&& self.inv(cache2.pages, allocator2@)
        &&& self.docs(cache2.pages) == self.docs(cache.pages).remove(id)
        &&& !self.docs(cache.pages).contains_key(id) ==> cache2.same_but_order(cache)
            && allocator2 == allocator
        &&& allocator2.allocs() == allocator.allocs()
        &&& allocator2@.frontier == allocator@.frontier
        &&& no_colder(cache, cache2)
        &&& room(cache2) >= room(cache) - need
        &&& less == 0 ==> cache2.available >= cache.available - need
        &&& self.indices@.len() == 0 && self.docs(cache.pages).contains_key(id) && less == 0
            ==> leaf_trimmed(cache, cache2, self.document_way(cache.pages, id)) && allocator2
            == allocator
        &&& forall|i: int|
            0 <= i < self.roots().len() ==> height(
                tree_at(cache2.pages, #[trigger] self.roots()[i]),
            ) <= height(tree_at(cache.pages, self.roots()[i]))
    }

    /// There is room to replace a document: it can be deleted and, whatever that
    /// leaves of the cache and the allocator, the other one can be inserted.
    pub open spec fn can_replace(
        &self,
        cache: CacheState,
        allocator: PageAllocator,
        id: u64,
        json: Json,
    ) -> bool {
        &&& self.can_remove(cache, allocator, id)
        &&& forall|allocator2: PageAllocator, cache2: CacheState| #[trigger]
            self.deleted(allocator, cache, id, allocator2, cache2) ==> self.can_add(
                cache2,
                allocator2,
                json,
                id,
            )
    }

    /// Removes a document, but not from the indices.
    fn remove_document<S: PersistentStore>(
        &self,
        docid: DocId,
        record: &[u8],
        page_cache: &mut PageCache<S>,
        page_allocator: &mut PageAllocator,
    )
        requires
            old(page_cache).inv(),
            can_write(old(page_cache)@),
            old(page_allocator).inv(old(page_cache)@.pages),
            self.inv(old(page_cache)@.pages, old(page_allocator)@),
            self.docs(old(page_cache)@.pages).contains_key(docid.0),
            ({
                let entries = self.entries(old(page_cache)@.pages);
                entries[rank(keys_of(entries), be64_bytes(docid.0))].value == record@
            }),
            ({
                let cache = old(page_cache)@;
                let way = self.document_way(cache.pages, docid.0);
                let less = record_chunks(record@) + vanishing(cache.pages, way.skip(1));
                &&& can_free(*old(page_allocator), less)
                &&& spare(cache, less) >= idle_count(cache, record_pages(cache.pages, record@))
                    + at_least(read_slot(cache, way), delete_need(cache, way))
            }),
        ensures
            final(page_cache).inv(),
            same_session(final(page_cache)@, old(page_cache)@),
            final(page_allocator).inv(final(page_cache)@.pages),
            final(page_allocator).balance() == old(page_allocator).balance(),
            self.halfway(
                final(page_cache)@.pages,
                final(page_allocator)@,
                self.docs(old(page_cache)@.pages),
                self.docs(old(page_cache)@.pages).remove(docid.0),
                0,
            ),
            self.spares(
                old(page_cache)@.pages,
                old(page_allocator)@,
                *self,
                final(page_cache)@.pages,
                final(page_allocator)@,
            ),
            ({
                let h = height(tree_at(old(page_cache)@.pages, self.document_tree.root()));
                let h2 = height(tree_at(final(page_cache)@.pages, self.document_tree.root()));
                let cache = old(page_cache)@;
                let way = self.document_way(cache.pages, docid.0);
                let less = record_chunks(record@) + vanishing(cache.pages, way.skip(1));
                let need = idle_count(cache, record_pages(cache.pages, record@)) + delete_need(
                    cache,
                    way,
                );
                &&& h2 <= h
                &&& forall|i: int|
                    1 <= i < self.roots().len() ==> tree_at(
                        final(page_cache)@.pages,
                        #[trigger] self.roots()[i],
                    ) == tree_at(old(page_cache)@.pages, self.roots()[i])
                &&& final(page_allocator).allocs() == old(page_allocator).allocs()
                &&& final(page_allocator)@.frontier == old(page_allocator)@.frontier
                &&& final(page_allocator).frees() == old(page_allocator).frees() + less
                &&& no_colder(cache, final(page_cache)@)
                &&& room(final(page_cache)@) >= room(cache) - need
                &&& less == 0 ==> final(page_cache)@.available >= cache.available - need
                &&& less == 0 ==> leaf_trimmed(cache, final(page_cache)@, way)
                    && *final(page_allocator) == *old(page_allocator)
            }),
    {
        let ghost cache0 = page_cache@;
        let ghost pages0 = page_cache@.pages;
        let ghost free0 = page_allocator@;
        let ghost roots = self.roots();
        let ghost ext = self.external(pages0);
        let ghost entries = self.entries(pages0);
        let ghost at = rank(keys_of(entries), be64_bytes(docid.0));
        let ghost rest = external_pages(pages0, entries.remove(at));
        proof {
            assert(roots[0] == self.document_tree.root());
            lemma_layout_tree(pages0, free0, roots, ext, 0);
            lemma_tree_entries(pages0, roots[0]);
            lemma_be64(docid.0);
            lemma_entry_found(entries, be64_bytes(docid.0));
            lemma_keys_removed(entries, at);
            assert forall|q: u64| #[trigger] occurs(ext, q) == occurs(rest, q) + occurs(
                record_pages(pages0, record@),
                q,
            ) by {
                lemma_external_inserted(pages0, entries.remove(at), at, entries[at], q);
            }
            lemma_chunks(overflow_len(record@));
        }
        // Free overflow pages if present
        if record[0] >= FLAG_OVERFLOW {
            let first = PageNum::from_encoded(get_u64(record, 9));
            proof {
                assert(lockable(follow(pages0, overflow_first(record@), 0)));
            }
            free_chain(
                first,
                page_cache,
                page_allocator,
                Ghost(overflow_len(record@)),
                Ghost(roots),
                Ghost(ext),
                Ghost(rest),
            );
        } else {
            proof {
                assert forall|q: u64| #[trigger] occurs(rest, q) == occurs(ext, q) by {
                    assert(occurs(ext, q) == occurs(rest, q) + occurs(
                        record_pages(pages0, record@),
                        q,
                    ));
                }
                lemma_layout_counts(pages0, free0, roots, ext, rest);
            }
        }
        let ghost pages1 = page_cache@.pages;
        let ghost free1 = page_allocator@;
        proof {
            assert(tree_at(pages1, roots[0]) == tree_at(pages0, roots[0]));
            lemma_layout_tree(pages1, free1, roots, rest, 0);
        }
        let docid_key = to_be_bytes(docid.0);
        let ghost cache1 = page_cache@;
        proof {
            lemma_delete_kept(cache0, cache1, roots[0], docid_key@);
            lemma_delete_ready(cache1, roots[0], docid_key@);
        }
        self.document_tree.delete(&docid_key, page_cache, page_allocator);
        proof {
            lemma_no_colder(cache0, cache1, page_cache@);
            lemma_document_removed(
                *self,
                pages0,
                pages1,
                page_cache@.pages,
                free0,
                free1,
                page_allocator@,
                docid.0,
                at,
            );
        }
    }

    /// Deletes a document. A missing document is ignored.
    #[verifier::rlimit(80)]
    #[verifier::spinoff_prover]
    pub fn delete<S: PersistentStore>(
        &self,
        docid: DocId,
        page_cache: &mut PageCache<S>,
        page_allocator: &mut PageAllocator,
    )
        requires
            old(page_cache).inv(),
            can_write(old(page_cache)@),
            old(page_allocator).inv(old(page_cache)@.pages),
            self.inv(old(page_cache)@.pages, old(page_allocator)@),
            self.can_remove(old(page_cache)@, *old(page_allocator), docid.0),
        ensures
            final(page_cache).inv(),
            same_session(final(page_cache)@, old(page_cache)@),
            final(page_allocator).inv(final(page_cache)@.pages),
            final(page_allocator).balance() == old(page_allocator).balance(),
            self.inv(final(page_cache)@.pages, final(page_allocator)@),
            self.docs(final(page_cache)@.pages) == self.docs(old(page_cache)@.pages).remove(
                docid.0,
            ),
            !self.docs(old(page_cache)@.pages).contains_key(docid.0) ==> {
                &&& final(page_cache)@.same_but_order(old(page_cache)@)
                &&& *final(page_allocator) == *old(page_allocator)
            },
            self.spares(
                old(page_cache)@.pages,
                old(page_allocator)@,
                *self,
                final(page_cache)@.pages,
                final(page_allocator)@,
            ),
            ({
                let cache = old(page_cache)@;
                let less = self.delete_losses(cache.pages, docid.0);
                let need = self.delete_room(cache, docid.0);
                &&& final(page_allocator).allocs() == old(page_allocator).allocs()
                &&& final(page_allocator)@.frontier == old(page_allocator)@.frontier
                &&& final(page_allocator).frees() == old(page_allocator).frees() + less
                &&& no_colder(cache, final(page_cache)@)
                &&& room(final(page_cache)@) >= room(cache) - need
                &&& less == 0 ==> final(page_cache)@.available >= cache.available - need
                &&& self.indices@.len() == 0 && self.docs(cache.pages).contains_key(docid.0) && less
                    == 0 ==> {
                    &&& leaf_trimmed(
                        cache,
                        final(page_cache)@,
                        self.document_way(cache.pages, docid.0),
                    )
                    &&& *final(page_allocator) == *old(page_allocator)
                }
                &&& forall|i: int|
                    0 <= i < self.roots().len() ==> height(
                        tree_at(final(page_cache)@.pages, #[trigger] self.roots()[i]),
                    ) <= height(tree_at(old(page_cache)@.pages, self.roots()[i]))
                &&& total_height(final(page_cache)@.pages, self.roots()) <= total_height(
                    old(page_cache)@.pages,
                    self.roots(),
                )
            }),
    {
        let ghost pages0 = page_cache@.pages;
        let ghost free0 = page_allocator@;
        let ghost roots = self.roots();
        let ghost docs0 = self.docs(pages0);
        let ghost docs2 = docs0.remove(docid.0);
        let ghost less = self.delete_losses(pages0, docid.0);
        let ghost cache0 = page_cache@;
        let ghost take = self.delete_room(cache0, docid.0);
        proof {
            reveal(Collection::delete_room);
            reveal(Collection::delete_losses);
            page_allocator.lemma_wf(pages0);
            lemma_kept_same(pages0, free0, roots, self.external(pages0));
            assert(roots.skip(0) =~= roots);
            lemma_total_height_next(pages0, roots, 0);
        }
        let record = match self.fetch(docid, page_cache) {
            None => {
                assert(docs2 =~= docs0);
                return ;
            },
            Some(record) => record,
        };
        let document = materialize_doc(record.as_slice(), page_cache);
        proof {
            assert(roots[0] == self.document_tree.root());
            assert(has_tree(pages0, roots[0]));
            lemma_delete_kept(cache0, page_cache@, roots[0], be64_bytes(docid.0));
            lemma_idle_count(cache0, page_cache@, record_pages(pages0, record@));
        }
        let ghost cache1 = page_cache@;
        self.remove_document(docid, record.as_slice(), page_cache, page_allocator);
        proof {
            lemma_no_colder(cache0, cache1, page_cache@);
            lemma_total_height_rest(pages0, page_cache@.pages, roots, 0);
            lemma_total_height_changed(pages0, page_cache@.pages, roots, 0);
        }
        // Remove from indices
        let mut i: usize = 0;
        while i < self.indices.len()
            invariant
                i <= self.indices@.len(),
                page_cache.inv(),
                same_session(page_cache@, old(page_cache)@),
                can_write(old(page_cache)@),
                page_allocator.inv(page_cache@.pages),
                page_allocator.balance() == old(page_allocator).balance(),
                pages0 == old(page_cache)@.pages,
                free0 == old(page_allocator)@,
                roots == self.roots(),
                roots.len() == self.indices@.len() + 1,
                docs2 == docs0.remove(docid.0),
                docs0.contains_key(docid.0),
                document@ == docs0[docid.0],
                self.halfway(page_cache@.pages, page_allocator@, docs0, docs2, i as int),
                self.spares(pages0, free0, *self, page_cache@.pages, page_allocator@),
                page_allocator.allocs() == old(page_allocator).allocs(),
                page_allocator@.frontier == free0.frontier,
                can_free(*old(page_allocator), less),
                spare(cache0, less) >= take,
                page_allocator.frees() >= old(page_allocator).frees(),
                page_allocator.frees() + self.index_losses(pages0, document@, docid.0, i as int)
                    == old(page_allocator).frees() + less,
                cache0 == old(page_cache)@,
                no_colder(cache0, page_cache@),
                self.inv(pages0, free0),
                self.indices@.len() == 0 && less == 0 ==> leaf_trimmed(
                    cache0,
                    page_cache@,
                    self.document_way(pages0, docid.0),
                ) && *page_allocator == *old(page_allocator),
                forall|j: int|
                    i + 1 <= j < roots.len() ==> tree_at(page_cache@.pages, #[trigger] roots[j])
                        == tree_at(pages0, roots[j]),
                forall|j: int|
                    0 <= j < roots.len() ==> height(
                        tree_at(page_cache@.pages, #[trigger] roots[j]),
                    ) <= height(tree_at(pages0, roots[j])),
                ({
                    let rest = self.index_delete_costs(cache0, document@, docid.0, i as int);
                    &&& room(page_cache@) >= room(cache0) - take + rest
                    &&& less == 0 ==> page_cache@.available >= cache0.available - take + rest
                }),
                total_height(page_cache@.pages, roots) <= total_height(pages0, roots),
            decreases self.indices@.len() - i,
        {
            let ghost now = page_cache@.pages;
            let ghost cache = page_cache@;
            let ghost free = page_allocator@;
            let ghost steps = self.indices@[i as int].field@;
            let ghost entries = self.index_entries(now, i as int);
            proof {
                assert(roots[i + 1] == self.indices@[i as int].btree.root());
                lemma_layout_tree(now, free, roots, self.external(now), i + 1);
                lemma_tree_entries(now, roots[i + 1]);
                lemma_total_height_next(now, roots, i + 1);
                assert(index_ok(entries, steps, docs0));
                lemma_index_removed(entries, steps, docs0, docid.0);
                assert(has_tree(pages0, roots[i + 1]));
                assert(tree_at(now, roots[i + 1]) == tree_at(pages0, roots[i + 1]));
                lemma_index_delete_step(*self, cache0, cache, document@, docid.0, i as int);
            }
            let mut changed: bool = false;
            if let Ok(val) = lookup_field(&self.indices[i].field, &document) {
                if let Ok(encoded) = encode_key(&val, docid) {
                    proof {
                        lemma_key_document(val@, docid.0);
                        if index_key(steps, document@, docid.0) is None {
                            lemma_key_absent(now, roots[i + 1], encoded@);
                        }
                        let root = roots[i + 1];
                        let found = keys_of(entries).contains(encoded@);
                        assert(has_tree(pages0, root));
                        assert(tree_at(now, root) == tree_at(pages0, root));
                        assert(probe_key(steps, document@, docid.0) == Some(encoded@));
                        lemma_delete_ready(cache, root, encoded@);
                    }
                    self.indices[i].btree.delete(encoded.as_slice(), page_cache, page_allocator);
                    changed = true;
                }
            }
            proof {
                let pages2 = page_cache@.pages;
                let free2 = page_allocator@;
                lemma_no_colder(cache0, cache, page_cache@);
                if changed {
                    lemma_index_step(*self, now, pages2, free, free2, docs0, docs2, i as int);
                    lemma_kept_trans(
                        pages0,
                        free0,
                        roots,
                        self.external(pages0),
                        now,
                        free,
                        roots,
                        self.external(now),
                        pages2,
                        free2,
                        roots,
                        self.external(pages2),
                    );
                    lemma_total_height_changed(now, pages2, roots, i + 1);
                    lemma_total_height_rest(now, pages2, roots, i + 1);
                } else {
                    lemma_index_unchanged(*self, now, free, docs0, docs2, i as int);
                }
            }
            i = i + 1;
        }
        proof {
            lemma_all_done(*self, page_cache@.pages, page_allocator@, docs0, docs2);
        }
    }

    /// Replaces a document, or inserts it if there is none with the identifier.
    pub fn update<S: PersistentStore>(
        &self,
        docid: DocId,
        document: &Value,
        page_cache: &mut PageCache<S>,
        page_allocator: &mut PageAllocator,
    )
        requires
            old(page_cache).inv(),
            can_write(old(page_cache)@),
            old(page_allocator).inv(old(page_cache)@.pages),
            self.inv(old(page_cache)@.pages, old(page_allocator)@),
            document@ is Object,
            storable(document@),
            self.can_replace(old(page_cache)@, *old(page_allocator), docid.0, document@),
        ensures
            final(page_cache).inv(),
            same_session(final(page_cache)@, old(page_cache)@),
            final(page_allocator).inv(final(page_cache)@.pages),
            final(page_allocator).balance() == old(page_allocator).balance(),
            self.inv(final(page_cache)@.pages, final(page_allocator)@),
            self.docs(final(page_cache)@.pages) == self.docs(old(page_cache)@.pages).insert(
                docid.0,
                document@,
            ),
            self.spares(
                old(page_cache)@.pages,
                old(page_allocator)@,
                *self,
                final(page_cache)@.pages,
                final(page_allocator)@,
            ),
            ({
                let len = json_text(document@).len();
                let pages = old(page_cache)@.pages;
                &&& final(page_allocator).allocs() <= old(page_allocator).allocs()
                    + self.insert_pages(pages, len)
                &&& final(page_allocator)@.frontier <= old(page_allocator)@.frontier
                    + self.insert_pages(pages, len)
                &&& final(page_allocator).frees() == old(page_allocator).frees()
                    + self.delete_losses(pages, docid.0)
                &&& no_colder(old(page_cache)@, final(page_cache)@)
                &&& room(final(page_cache)@) >= room(old(page_cache)@) - self.delete_room(
                    old(page_cache)@,
                    docid.0,
                ) - self.insert_bound(pages, len)
                &&& total_height(final(page_cache)@.pages, self.roots()) <= total_height(
                    pages,
                    self.roots(),
                ) + self.roots().len()
            }),
    {
        let ghost pages0 = page_cache@.pages;
        let ghost free0 = page_allocator@;
        self.delete(docid, page_cache, page_allocator);
        let ghost pages1 = page_cache@.pages;
        let ghost free1 = page_allocator@;
        let ghost cache1 = page_cache@;
        proof {
            assert(self.deleted(
                *old(page_allocator),
                old(page_cache)@,
                docid.0,
                *page_allocator,
                cache1,
            ));
            reveal(Collection::insert_bound);
            lemma_total_slots_lower(pages0, pages1, self.roots());
            lemma_total_height_lower(pages0, pages1, self.roots());
            law_insert_room_by_heights(*self, cache1, free1, document@, docid.0);
        }
        self.insert_internal(docid, document, page_cache, page_allocator);
        proof {
            assert(self.docs(pages0).remove(docid.0).insert(docid.0, document@) =~= self.docs(
                pages0,
            ).insert(docid.0, document@));
            lemma_kept_trans(
                pages0,
                free0,
                self.roots(),
                self.external(pages0),
                pages1,
                free1,
                self.roots(),
                self.external(pages1),
                page_cache@.pages,
                page_allocator@,
                self.roots(),
                self.external(page_cache@.pages),
            );
        }
    }
}

impl Collection {
    /// A document can be replaced, whatever becomes of the trees when it is deleted:
    /// there is room to delete it and to insert another one into trees as high as
    /// those that there are.
    pub open spec fn surely_replaceable(
        &self,
        cache: CacheState,
        allocator: PageAllocator,
        id: u64,
        json: Json,
    ) -> bool {
        let len = json_text(json).len();
        &&& room(cache) >= self.delete_room(cache, id) + self.insert_bound(cache.pages, len)
        &&& can_free(allocator, self.delete_losses(cache.pages, id))
        &&& can_allocate(allocator, self.insert_pages(cache.pages, len))
    }
}

impl Collection {
    /// How many pages are handed out when a document is inserted in place of one whose
    /// entry was removed from its leaf.
    pub open spec fn replace_growth(&self, cache: CacheState, id: u64, json: Json) -> nat {
        let len = json_text(json).len();
        let way = self.document_way(cache.pages, id);
        document_chunks(len) + growth(without_entry(cache, way).pages, way, record_len(len) + 14)
    }

    /// How many slots of the cache have to be free to insert a document in place of
    /// one whose entry was removed from its leaf.
    pub open spec fn replace_room(
        &self,
        cache: CacheState,
        free: FreePages,
        id: u64,
        json: Json,
    ) -> nat {
        let len = json_text(json).len();
        let size = record_len(len) + 14;
        let way = self.document_way(cache.pages, id);
        let after = without_entry(cache, way);
        let n = document_chunks(len);
        fresh_slots(cache, free, n) + at_least(
            read_slot(after, way),
            insert_taken(after, way, size) + fresh_slots(
                cache,
                free.taken_many(n),
                growth(after.pages, way, size),
            ),
        )
    }

    /// A document whose deletion only takes an entry out of a leaf can be replaced:
    /// there is room to remove the entry and then to insert the other document.
    pub open spec fn replaceable_in_leaf(
        &self,
        cache: CacheState,
        allocator: PageAllocator,
        id: u64,
        json: Json,
    ) -> bool {
        let after = without_entry(cache, self.document_way(cache.pages, id));
        let more = self.replace_growth(cache, id, json);
        &&& self.indices@.len() == 0
        &&& self.docs(cache.pages).contains_key(id)
        &&& self.delete_losses(cache.pages, id) == 0
        &&& cache.available > 0
        &&& cache.available >= self.delete_room(cache, id)
        &&& can_allocate(allocator, more)
        &&& spare(after, more) >= self.replace_room(cache, allocator@, id, json)
    }
}

/// If the deletion of a document only takes its entry out of a leaf, the slots and
/// pages that the insertion then takes are enough to replace it.
pub proof fn law_replaceable_in_leaf(
    c: Collection,
    cache: CacheState,
    allocator: PageAllocator,
    id: u64,
    json: Json,
)
    requires
        c.inv(cache.pages, allocator@),
        allocator@.wf(),
        cache.unsaturated(),
        c.replaceable_in_leaf(cache, allocator, id, json),
    ensures
        c.can_replace(cache, allocator, id, json),
{
    let root = c.document_tree.root();
    let key = be64_bytes(id);
    let way = c.document_way(cache.pages, id);
    let len = json_text(json).len();
    let size = record_len(len) + 14;
    let n = document_chunks(len);
    assert(c.roots()[0] == root);
    lemma_slot_to_read_all(c, cache, allocator@);
    assert forall|allocator2: PageAllocator, cache2: CacheState| #[trigger]
        c.deleted(allocator, cache, id, allocator2, cache2) implies c.can_add(
        cache2,
        allocator2,
        json,
        id,
    ) by {
        assert(has_tree(cache.pages, root));
        assert(has_tree(cache2.pages, root));
        lemma_trimmed_way(cache, cache2, root, key);
        lemma_without_entry(cache, cache2, way, size);
        let more = growth(cache2.pages, way, size);
        let free1 = allocator@.taken_many(n);
        lemma_fresh_kept(cache, cache2, allocator@, n);
        lemma_fresh_kept(cache, cache2, free1, more);
        reveal(Collection::insert_room);
        reveal(Collection::insert_growth);
        assert(c.insert_growth(cache2.pages, json, id) == c.replace_growth(cache, id, json));
        assert(c.insert_room(cache2, allocator@, json, id) <= c.replace_room(
            cache,
            allocator@,
            id,
            json,
        ));
        let after = without_entry(cache, way);
        assert(cache2.idle(SUPERBLOCK_FPID) == after.idle(SUPERBLOCK_FPID));
    }
}

/// Slots and pages by the heights of the trees are enough to replace a document.
pub proof fn law_replaceable_by_heights(
    c: Collection,
    cache: CacheState,
    allocator: PageAllocator,
    id: u64,
    json: Json,
)
    requires
        c.inv(cache.pages, allocator@),
        allocator@.wf(),
        cache.unsaturated(),
        c.surely_replaceable(cache, allocator, id, json),
    ensures
        c.can_replace(cache, allocator, id, json),
{
    let roots = c.roots();
    reveal(Collection::insert_bound);
    assert(roots.skip(0) =~= roots);
    lemma_total_slots_next(cache.pages, roots, 0);
    lemma_slot_to_read_all(c, cache, allocator@);
    assert forall|allocator2: PageAllocator, cache2: CacheState| #[trigger]
        c.deleted(allocator, cache, id, allocator2, cache2) implies c.can_add(
        cache2,
        allocator2,
        json,
        id,
    ) by {
        lemma_total_slots_lower(cache.pages, cache2.pages, roots);
        lemma_total_height_lower(cache.pages, cache2.pages, roots);
        law_insert_room_by_heights(c, cache2, allocator2@, json, id);
    }
}

/// An index is being built next to a collection: it has the keys of the first `k` documents.
spec fn partly_indexed(
    c: Collection,
    pages0: Map<u64, Seq<u8>>,
    free0: FreePages,
    pages: Map<u64, Seq<u8>>,
    free: FreePages,
    root: u64,
    steps: Seq<PathStep>,
    k: int,
) -> bool {
    let roots = c.roots();
    let ext = c.external(pages0);
    &&& c.inv(pages0, free0)
    &&& layout(pages, free, roots.push(root), ext)
    &&& kept(pages0, free0, roots, ext, pages, free, roots.push(root), ext)
    &&& untouched(pages0, roots, ext, pages)
    &&& 0 <= k <= c.entries(pages0).len()
    &&& index_ok(entries_at(pages, root), steps, documents(pages0, c.entries(pages0).take(k)))
    &&& height(tree_at(pages, root)) <= k
}

/// What the collection itself is while an index is built.
proof fn lemma_still_there(
    c: Collection,
    pages0: Map<u64, Seq<u8>>,
    free0: FreePages,
    pages: Map<u64, Seq<u8>>,
    free: FreePages,
    root: u64,
    steps: Seq<PathStep>,
    k: int,
)
    requires
        partly_indexed(c, pages0, free0, pages, free, root, steps, k),
    ensures
        has_tree(pages, c.document_tree.root()),
        tree_owned(pages, free, c.document_tree.root()),
        tree_at(pages, c.document_tree.root()) == tree_at(pages0, c.document_tree.root()),
        c.entries(pages) == c.entries(pages0),
        c.external(pages) == c.external(pages0),
        c.docs(pages) == c.docs(pages0),
        c.inv(pages, free),
        spared(
            pages0,
            free0,
            c.roots(),
            c.external(pages0),
            pages,
            free,
            c.roots(),
            c.external(pages),
        ),
        has_tree(pages, root),
        tree_owned(pages, free, root),
        forall|i: int|
            0 <= i < c.indices@.len() ==> #[trigger] c.index_entries(pages, i) == c.index_entries(
                pages0,
                i,
            ),
{
    let roots = c.roots();
    let ext = c.external(pages0);
    assert(roots[0] == c.document_tree.root());
    assert(tree_at(pages, roots[0]) == tree_at(pages0, roots[0]));
    lemma_documents_frame(pages0, pages, c.entries(pages0));
    lemma_layout_dropped(pages0, free0, roots, ext, pages, free, ext, root);
    assert forall|i: int| 0 <= i < c.indices@.len() implies index_ok(
        #[trigger] c.index_entries(pages, i),
        c.indices@[i].field@,
        c.docs(pages),
    ) && c.index_entries(pages, i) == c.index_entries(pages0, i) by {
        assert(roots[i + 1] == c.indices@[i].btree.root());
        assert(tree_at(pages, roots[i + 1]) == tree_at(pages0, roots[i + 1]));
        assert(index_ok(c.index_entries(pages0, i), c.indices@[i].field@, c.docs(pages0)));
    }
    lemma_layout_tree(pages, free, roots, ext, 0);
    lemma_layout_tree(pages, free, roots.push(root), ext, roots.len() as int);
    assert(roots.push(root)[roots.len() as int] == root);
}

/// The documents among the first entries.
proof fn lemma_documents_next(pages: Map<u64, Seq<u8>>, entries: Seq<Entry>, k: int)
    requires
        ascending(keys_of(entries)),
        0 <= k < entries.len(),
        entries[k].key.len() == 8,
    ensures
        documents(pages, entries.take(k + 1)) == documents(pages, entries.take(k)).insert(
            be64(entries[k].key),
            record_json(pages, entries[k].value),
        ),
        !documents(pages, entries.take(k)).contains_key(be64(entries[k].key)),
{
    broadcast use group_lex_order;

    let front = entries.take(k);
    let keys = keys_of(front);
    assert forall|i: int, j: int| 0 <= i < j < keys.len() implies lex_lt(
        #[trigger] keys[i],
        #[trigger] keys[j],
    ) by {
        assert(keys[i] == keys_of(entries)[i] && keys[j] == keys_of(entries)[j]);
    }
    assert forall|i: int| 0 <= i < keys.len() implies lex_lt(#[trigger] keys[i], entries[k].key) by {
        assert(keys[i] == keys_of(entries)[i] && entries[k].key == keys_of(entries)[k]);
    }
    lemma_rank_unique(keys, entries[k].key, k);
    if keys.contains(entries[k].key) {
        let i = keys.index_of(entries[k].key);
        assert(lex_lt(keys[i], entries[k].key));
    }
    lemma_be64_inverse(entries[k].key);
    lemma_documents_inserted(pages, front, entries[k]);
    assert(front.insert(k, entries[k]) =~= entries.take(k + 1));
}

/// One more document was added to an index that is being built, or has no key.
proof fn lemma_indexed_next(
    c: Collection,
    pages0: Map<u64, Seq<u8>>,
    free0: FreePages,
    pages: Map<u64, Seq<u8>>,
    free: FreePages,
    pages2: Map<u64, Seq<u8>>,
    free2: FreePages,
    root: u64,
    steps: Seq<PathStep>,
    k: int,
)
    requires
        partly_indexed(c, pages0, free0, pages, free, root, steps, k),
        k < c.entries(pages0).len(),
        has_tree(pages2, root),
        tree_owned(pages2, free2, root),
        evolves(
            pages,
            free,
            seq![tree_at(pages, root)],
            pages2,
            free2,
            seq![tree_at(pages2, root)],
            Seq::empty(),
            Seq::empty(),
        ),
        height(tree_at(pages2, root)) <= k + 1,
        index_ok(
            entries_at(pages2, root),
            steps,
            documents(pages0, c.entries(pages0).take(k + 1)),
        ),
    ensures
        partly_indexed(c, pages0, free0, pages2, free2, root, steps, k + 1),
{
    let roots = c.roots();
    let roots2 = roots.push(root);
    let ext = c.external(pages0);
    assert(roots2[roots.len() as int] == root);
    lemma_layout_changed(pages, pages2, free, free2, roots2, ext, roots.len() as int);
    lemma_kept_trans(
        pages0,
        free0,
        roots,
        ext,
        pages,
        free,
        roots2,
        ext,
        pages2,
        free2,
        roots2,
        ext,
    );
    assert forall|j: int| 0 <= j < roots.len() implies tree_at(pages2, #[trigger] roots[j])
        == tree_at(pages0, roots[j]) by {
        assert(roots2[j] == roots[j]);
        assert(tree_at(pages2, roots2[j]) == tree_at(pages, roots2[j]));
    }
}

/// An empty index has the keys of no documents.
proof fn lemma_index_empty(pages: Map<u64, Seq<u8>>, steps: Seq<PathStep>)
    ensures
        index_ok(Seq::empty(), steps, documents(pages, Seq::empty())),
{
    let none = Seq::<Entry>::empty();
    assert(keys_of(none) =~= Seq::<Seq<u8>>::empty());
    assert forall|key: Seq<u8>| #[trigger] keys_of(none).contains(key) <==> indexed(
        documents(pages, none),
        steps,
        key,
    ) by {
        assert(!documents(pages, none).contains_key(key_document(key)));
    }
}

/// A tree whose pages are all busy can be read.
proof fn lemma_busy_to_read(cache: CacheState, free: FreePages, root: u64)
    requires
        has_tree(cache.pages, root),
        tree_owned(cache.pages, free, root),
        can_write(cache),
        free.wf(),
        busy(cache, tree_pages(tree_at(cache.pages, root))),
    ensures
        can_read(cache, root),
{
    assert forall|q: u64| #[trigger] count(tree_at(cache.pages, root), q) > 0 implies cache.can_lock(
        q,
    ) by {
        assert(free.in_use(q));
        assert(cache.refs[q] < u32::MAX);
        assert(tree_pages(tree_at(cache.pages, root)).contains(q));
    }
}

/// The record of each document is in order.
proof fn lemma_entry_record(c: Collection, pages: Map<u64, Seq<u8>>, free: FreePages, i: int)
    requires
        c.inv(pages, free),
        0 <= i < c.entries(pages).len(),
    ensures
        record_ok(pages, c.entries(pages)[i].value),
{
}

/// A page that has to be read for the key of document `k`: one of those that lead to
/// the first document, the leaf with the document, or one of its external pages.
pub open spec fn page_needed(c: Collection, pages: Map<u64, Seq<u8>>, k: int, q: u64) -> bool {
    let t = tree_at(pages, c.document_tree.root());
    let entries = c.entries(pages);
    ||| k == 0 && edge_way(t, false).contains(q)
    ||| k < entries.len() && holds_entry(t, k, q)
    ||| k < entries.len() && record_pages(pages, entries[k].value).contains(q)
}

/// The building of an index was given up. Without a slot for its root nothing was
/// done. Otherwise the index has the keys of the first documents and of no others,
/// and its pages have taken all slots that are gone. Either no slot is left for a
/// page that is needed for the next document and is not in the cache, or there are
/// too few for the pages that the next key takes.
#[verifier::opaque]
pub open spec fn index_given_up(
    c: Collection,
    before: CacheState,
    free: FreePages,
    after: CacheState,
    free2: FreePages,
    steps: Seq<PathStep>,
) -> bool {
    let root = free.next();
    if room(before) < slot_for(before, root) {
        after.same_but_order(before) && free2 == free
    } else {
        let t = tree_at(after.pages, root);
        let entries = c.entries(before.pages);
        &&& has_tree(after.pages, root)
        &&& room(before) - room(after) <= size(t)
        &&& exists|k: int|
            {
                &&& 0 <= k <= entries.len()
                &&& ({
                    ||| after.available == 0 && exists|q: u64| #[trigger]
                        page_needed(c, before.pages, k, q) && after.idle(q)
                    ||| k < entries.len() && key_too_large(
                        after,
                        free2,
                        t,
                        index_key(
                            steps,
                            record_json(before.pages, entries[k].value),
                            be64(entries[k].key),
                        ),
                    )
                })
                &&& index_bytes(before.pages, entries.take(k), steps) <= NODE_CAPACITY ==> t is Leaf
                &&& index_ok(
                    contents(t),
                    steps,
                    documents(before.pages, #[trigger] entries.take(k)),
                )
            }
    }
}

/// The slots that are left are fewer than a new key of an index takes.
pub open spec fn key_too_large(
    cache: CacheState,
    free: FreePages,
    t: Tree,
    key: Option<Seq<u8>>,
) -> bool {
    key matches Some(key) && {
        let way = path_to(t, key);
        let more = growth(cache.pages, way, key.len() + 14);
        spare(cache, more) < insert_need(cache, free, way, key.len() + 14)
    }
}

impl Collection {
    /// Builds an index over all documents; `None` if the cache has too few free
    /// slots to go on.
    #[verifier::rlimit(40)]
    fn build_index<S: PersistentStore>(
        &self,
        path: &FieldPath,
        page_cache: &mut PageCache<S>,
        page_allocator: &mut PageAllocator,
    ) -> (result: Option<BTree>)
        requires
            old(page_cache).inv(),
            can_write(old(page_cache)@),
            old(page_allocator).inv(old(page_cache)@.pages),
            self.inv(old(page_cache)@.pages, old(page_allocator)@),
            can_allocate(*old(page_allocator), self.index_pages(old(page_cache)@.pages)),
        ensures
            final(page_cache).inv(),
            same_session(final(page_cache)@, old(page_cache)@),
            final(page_allocator).inv(final(page_cache)@.pages),
            final(page_allocator).balance() == old(page_allocator).balance(),
            no_colder(old(page_cache)@, final(page_cache)@),
            final(page_allocator).frees() == old(page_allocator).frees(),
            final(page_allocator).allocs() <= old(page_allocator).allocs() + self.index_pages(
                old(page_cache)@.pages,
            ),
            final(page_allocator)@.frontier <= old(page_allocator)@.frontier + self.index_pages(
                old(page_cache)@.pages,
            ),
            room(final(page_cache)@) >= room(old(page_cache)@) - self.index_room(
                old(page_cache)@.pages,
                path@,
            ),
            match result {
                Some(index) => {
                    &&& index.root() == old(page_allocator)@.next()
                    &&& partly_indexed(
                        *self,
                        old(page_cache)@.pages,
                        old(page_allocator)@,
                        final(page_cache)@.pages,
                        final(page_allocator)@,
                        index.root(),
                        path@,
                        self.entries(old(page_cache)@.pages).len() as int,
                    )
                    &&& room(old(page_cache)@) - room(final(page_cache)@) <= size(
                        tree_at(final(page_cache)@.pages, index.root()),
                    )
                    &&& final(page_allocator).allocs() == old(page_allocator).allocs() + size(
                        tree_at(final(page_cache)@.pages, index.root()),
                    )
                    &&& size(tree_at(final(page_cache)@.pages, index.root())) <= 2 * self.entries(
                        old(page_cache)@.pages,
                    ).len() + 1
                },
                None => {
                    &&& self.inv(final(page_cache)@.pages, final(page_allocator)@)
                    &&& self.docs(final(page_cache)@.pages) == self.docs(old(page_cache)@.pages)
                    &&& spared(
                        old(page_cache)@.pages,
                        old(page_allocator)@,
                        self.roots(),
                        self.external(old(page_cache)@.pages),
                        final(page_cache)@.pages,
                        final(page_allocator)@,
                        self.roots(),
                        self.external(final(page_cache)@.pages),
                    )
                    &&& room(old(page_cache)@) < self.index_room(old(page_cache)@.pages, path@)
                    &&& index_given_up(
                        *self,
                        old(page_cache)@,
                        old(page_allocator)@,
                        final(page_cache)@,
                        final(page_allocator)@,
                        path@,
                    )
                },
            },
    {
        let ghost pages0 = page_cache@.pages;
        let ghost free0 = page_allocator@;
        let ghost roots = self.roots();
        let ghost ext = self.external(pages0);
        let ghost entries = self.entries(pages0);
        let ghost n = entries.len();
        let ghost start = page_cache@;
        let ghost before = *page_allocator;
        proof {
            reveal(index_given_up);
            lemma_kept_same(pages0, free0, roots, ext);
        }
        let slots: usize = match room_left(page_cache) {
            Some(slots) => slots,
            None => return None,
        };
        if slots < 1 && page_cache.is_idle(page_allocator.next_page()) {
            return None;
        }
        let index = BTree::create(page_cache, page_allocator);
        let ghost root = index.root();
        proof {
            page_allocator.lemma_wf(page_cache@.pages);
            before.lemma_wf(pages0);
            free0.lemma_alloc();
            lemma_layout_created(pages0, page_cache@.pages, free0, roots, ext);
            let t = tree_at(page_cache@.pages, root);
            lemma_leaf_contents(t);
            assert(entries_at(page_cache@.pages, root) =~= Seq::<Entry>::empty());
            assert(entries.take(0) =~= Seq::<Entry>::empty());
            lemma_index_empty(pages0, path@);
            lemma_still_there(
                *self,
                pages0,
                free0,
                page_cache@.pages,
                page_allocator@,
                root,
                path@,
                0,
            );
            lemma_layout_tree(pages0, free0, roots, ext, 0);
            assert(roots[0] == self.document_tree.root());
            lemma_tree_entries(pages0, roots[0]);
        }
        let ghost made = page_cache@;
        proof {
            assert(tree_at(made.pages, roots[0]) == tree_at(pages0, roots[0]));
            assert(is_tree(made.pages, roots[0], tree_at(made.pages, roots[0])));
        }
        if !self.document_tree.edge_ready(page_cache) {
            proof {
                let q = choose|q: u64| #[trigger]
                    edge_way(tree_at(pages0, roots[0]), false).contains(q) && made.idle(q);
                assert(page_needed(*self, pages0, 0, q));
            }
            return None;
        }
        // Scan existing documents and add to index
        let mut cursor = self.document_tree.iterate(false, page_cache);
        let ghost mut k: nat = 0;
        assert(entries.skip(0) =~= entries);
        loop
            invariant
                page_cache.inv(),
                same_session(page_cache@, start),
                start == old(page_cache)@,
                before == *old(page_allocator),
                can_write(start),
                page_allocator.inv(page_cache@.pages),
                page_allocator.balance() == old(page_allocator).balance(),
                pages0 == start.pages,
                free0 == before@,
                roots == self.roots(),
                ext == self.external(pages0),
                entries == self.entries(pages0),
                n == entries.len(),
                root == index.root(),
                root == free0.next(),
                ascending(keys_of(entries)),
                can_allocate(before, self.index_pages(pages0)),
                partly_indexed(
                    *self,
                    pages0,
                    free0,
                    page_cache@.pages,
                    page_allocator@,
                    root,
                    path@,
                    k as int,
                ),
                cursor.root() == self.document_tree.root(),
                cursor.wf(page_cache@.pages),
                cursor.forward(),
                cursor.remaining(page_cache@.pages) == entries.skip(k as int),
                k <= n,
                page_allocator.frees() == before.frees(),
                page_allocator@.frontier <= free0.frontier + size(
                    tree_at(page_cache@.pages, root),
                ),
                room(start) >= slot_for(start, root),
                no_colder(start, page_cache@),
                ({
                    let t = tree_at(page_cache@.pages, root);
                    let taken = index_bytes(pages0, entries.take(k as int), path@);
                    &&& entries_size(contents(t)) == taken
                    &&& taken <= NODE_CAPACITY ==> t is Leaf
                    &&& thick(t)
                    &&& contents(t).len() <= k
                    &&& size(t) <= 2 * k + 1
                }),
                page_cache@.dirty.contains(SUPERBLOCK_FPID),
                busy(page_cache@, tree_pages(tree_at(page_cache@.pages, root))),
                page_allocator.allocs() == before.allocs() + size(
                    tree_at(page_cache@.pages, root),
                ),
                room(page_cache@) >= room(start) - size(tree_at(page_cache@.pages, root)),
            decreases n - k,
        {
            let ghost now = page_cache@;
            let ghost free = page_allocator@;
            proof {
                reveal(index_given_up);
                page_allocator.lemma_wf(now.pages);
                lemma_still_there(
                    *self,
                    pages0,
                    free0,
                    now.pages,
                    free,
                    root,
                    path@,
                    k as int,
                );
                lemma_index_bytes(pages0, entries, path@, k as int);
                assert(index_ok(
                    entries_at(now.pages, root),
                    path@,
                    documents(pages0, entries.take(k as int)),
                ));
            }
            proof {
                assert(is_tree(now.pages, roots[0], tree_at(now.pages, roots[0])));
                assert(roots[0] == self.document_tree.root());
            }
            if !cursor.is_ready(page_cache) {
                proof {
                    let q = choose|q: u64| #[trigger]
                        holds_entry(tree_at(now.pages, roots[0]), k as int, q) && now.idle(q);
                    assert(page_needed(*self, pages0, k as int, q));
                }
                return None;
            }
            match cursor.next(page_cache) {
                None => {
                    assert(k == n);
                    return Some(index);
                },
                Some((docid_bytes, document_bytes)) => {
                    proof {
                        assert(entries.skip(k as int)[0] == entries[k as int]);
                        assert(entries.skip(k as int).skip(1) =~= entries.skip((k + 1) as int));
                        lemma_documents_next(pages0, entries, k as int);
                        lemma_be64_inverse(entries[k as int].key);
                        assert(entries.take((k + 1) as int).drop_last() =~= entries.take(k as int));
                        lemma_documents_frame(pages0, now.pages, entries);
                        lemma_entry_record(*self, now.pages, free, k as int);
                    }
                    let ghost ready = page_cache@;
                    if !record_ready(document_bytes.as_slice(), page_cache) {
                        proof {
                            let list = record_pages(now.pages, entries[k as int].value);
                            let q = choose|q: u64| #[trigger] list.contains(q) && ready.idle(q);
                            assert(page_needed(*self, pages0, k as int, q));
                        }
                        return None;
                    }
                    proof {
                        lemma_can_read_record(ready, page_cache@, document_bytes@);
                    }
                    let docid = DocId(from_be_bytes(docid_bytes.as_slice()));
                    let document = materialize_doc(document_bytes.as_slice(), page_cache);
                    let key = document_key(path, docid, &document);
                    let ghost allocator = *page_allocator;
                    proof {
                        assert(page_cache@.pages == now.pages);
                    }
                    proof {
                        lemma_busy_to_read(page_cache@, free, root);
                        lemma_index_key(path@, document@, docid.0);
                    }
                    if let Some(bytes) = &key {
                        let cost: (u128, u128, u128) = index.insert_cost(
                            bytes.as_slice(),
                            8,
                            page_cache,
                        );
                        let slots: usize = page_cache.free_slots();
                        proof {
                            lemma_busy_need(page_cache@, root, bytes@, bytes@.len() + 14);
                            lemma_growth_bound(page_cache@, root, bytes@, bytes@.len() + 14);
                            lemma_index_bytes(pages0, entries, path@, (k + 1) as int);
                            assert(entries.take((k + 1) as int).last() == entries[k as int]);
                        }
                        let ghost cache = page_cache@;
                        let fresh: u128 = page_allocator.count_fresh(cost.2, slots, page_cache);
                        proof {
                            lemma_fresh_kept(cache, page_cache@, free, cost.2 as nat);
                            lemma_fresh_kept(page_cache@, cache, free, cost.2 as nat);
                            lemma_busy_need(page_cache@, root, bytes@, bytes@.len() + 14);
                        }
                        if fresh > slots as u128 {
                            return None;
                        }
                        proof {
                            lemma_insert_ready(page_cache@, root, bytes@, bytes@.len() + 14);
                        }
                    }
                    add_key(
                        &index,
                        &key,
                        docid,
                        page_cache,
                        page_allocator,
                        Ghost(path@),
                        Ghost(document@),
                        Ghost(documents(pages0, entries.take(k as int))),
                    );
                    proof {
                        lemma_no_colder(start, now, page_cache@);
                        lemma_indexed_next(
                            *self,
                            pages0,
                            free0,
                            now.pages,
                            free,
                            page_cache@.pages,
                            page_allocator@,
                            root,
                            path@,
                            k as int,
                        );
                        lemma_still_there(
                            *self,
                            pages0,
                            free0,
                            page_cache@.pages,
                            page_allocator@,
                            root,
                            path@,
                            (k + 1) as int,
                        );
                        cursor.lemma_frame(now.pages, page_cache@.pages);
                        law_tree_pages(
                            now.pages,
                            allocator,
                            page_cache@.pages,
                            *page_allocator,
                            root,
                        );
                        let t = tree_at(page_cache@.pages, root);
                        assert(is_tree(page_cache@.pages, root, t));
                        lemma_thick_size(t, None, None, height(t));
                        k = k + 1;
                    }
                },
            }
        }
    }
}

/// The index is complete and becomes part of the collection.
proof fn lemma_index_added(
    c: Collection,
    c2: Collection,
    pages0: Map<u64, Seq<u8>>,
    free0: FreePages,
    pages: Map<u64, Seq<u8>>,
    free: FreePages,
    index: Index,
)
    requires
        partly_indexed(
            c,
            pages0,
            free0,
            pages,
            free,
            index.btree.root(),
            index.field@,
            c.entries(pages0).len() as int,
        ),
        index.field.wf(),
        index.field@.len() > 0,
        c2.document_tree == c.document_tree,
        c2.indices@ == c.indices@.push(index),
    ensures
        c2.inv(pages, free),
        c2.docs(pages) == c.docs(pages0),
        c.spares(pages0, free0, c2, pages, free),
        c2.roots() == c.roots().push(index.btree.root()),
        total_height(pages, c2.roots()) <= total_height(pages0, c.roots()) + c.entries(
            pages0,
        ).len(),
{
    let roots = c.roots();
    let root = index.btree.root();
    let n = c.entries(pages0).len() as int;
    lemma_still_there(c, pages0, free0, pages, free, root, index.field@, n);
    assert(c2.roots() =~= roots.push(root));
    assert(c.entries(pages0).take(n) =~= c.entries(pages0));
    assert forall|i: int| 0 <= i < c2.indices@.len() implies index_ok(
        #[trigger] c2.index_entries(pages, i),
        c2.indices@[i].field@,
        c2.docs(pages),
    ) by {
        if i < c.indices@.len() {
            assert(c2.indices@[i] == c.indices@[i]);
            assert(index_ok(c.index_entries(pages, i), c.indices@[i].field@, c.docs(pages)));
        }
    }
    assert forall|i: int| 0 <= i < c2.indices@.len() implies (#[trigger] c2.indices@[i]).field.wf()
        && c2.indices@[i].field@.len() > 0 by {
        if i < c.indices@.len() {
            assert(c2.indices@[i] == c.indices@[i]);
        }
    }
    lemma_total_height_frame(pages0, pages, roots);
    lemma_total_height_pushed(pages, roots, root);
}

proof fn lemma_total_height_pushed(pages: Map<u64, Seq<u8>>, roots: Seq<u64>, root: u64)
    ensures
        total_height(pages, roots.push(root)) == total_height(pages, roots) + height(
            tree_at(pages, root),
        ),
    decreases roots.len(),
{
    let all = roots.push(root);
    if roots.len() == 0 {
        assert(all.skip(1) =~= Seq::<u64>::empty());
        assert(total_height(pages, all.skip(1)) == 0);
    } else {
        assert(all.skip(1) =~= roots.skip(1).push(root));
        lemma_total_height_pushed(pages, roots.skip(1), root);
    }
}

/// A collection without documents and indices in a tree of its own.
proof fn lemma_new_collection(c: Collection, pages: Map<u64, Seq<u8>>, root: u64)
    requires
        c.document_tree.root() == root,
        c.indices@.len() == 0,
        tree_at(pages, root) == (Tree::Leaf { page: root, entries: Seq::empty() }),
    ensures
        c.roots() == seq![root],
        c.entries(pages) == Seq::<Entry>::empty(),
        c.external(pages) == Seq::<u64>::empty(),
        c.docs(pages) == Map::<u64, Json>::empty(),
        forall|free: FreePages|
            layout(pages, free, seq![root], Seq::empty()) ==> #[trigger] c.inv(pages, free),
        total_height(pages, c.roots()) == 0,
{
    assert(c.roots() =~= seq![root]);
    lemma_leaf_contents(tree_at(pages, root));
    assert(c.entries(pages) =~= Seq::<Entry>::empty());
    assert(keys_of(c.entries(pages)) =~= Seq::<Seq<u8>>::empty());
    assert(c.docs(pages) =~= Map::<u64, Json>::empty());
    assert(c.roots().skip(1) =~= Seq::<u64>::empty());
    assert(total_height(pages, c.roots().skip(1)) == 0);
}

impl Collection {
    /// Adds an index for a field and fills it from the documents. That fails if
    /// the cache has too few free slots to go on. The pages that the unfinished
    /// index has by then stay in use.
    pub fn create_index<S: PersistentStore>(
        &mut self,
        path: &FieldPath,
        page_cache: &mut PageCache<S>,
        page_allocator: &mut PageAllocator,
    ) -> (result: Result<(), String>)
        requires
            old(page_cache).inv(),
            can_write(old(page_cache)@),
            old(page_allocator).inv(old(page_cache)@.pages),
            old(self).inv(old(page_cache)@.pages, old(page_allocator)@),
            path.wf(),
            path@.len() > 0,
            can_allocate(*old(page_allocator), old(self).index_pages(old(page_cache)@.pages)),
        ensures
            final(page_cache).inv(),
            same_session(final(page_cache)@, old(page_cache)@),
            final(page_allocator).inv(final(page_cache)@.pages),
            final(page_allocator).balance() == old(page_allocator).balance(),
            final(self).inv(final(page_cache)@.pages, final(page_allocator)@),
            final(self).docs(final(page_cache)@.pages) == old(self).docs(old(page_cache)@.pages),
            *final(self) == (Collection { indices: final(self).indices, ..*old(self) }),
            no_colder(old(page_cache)@, final(page_cache)@),
            final(page_allocator).frees() == old(page_allocator).frees(),
            final(page_allocator).allocs() <= old(page_allocator).allocs() + old(self).index_pages(
                old(page_cache)@.pages,
            ),
            final(page_allocator)@.frontier <= old(page_allocator)@.frontier + old(
                self,
            ).index_pages(old(page_cache)@.pages),
            room(final(page_cache)@) >= room(old(page_cache)@) - old(self).index_room(
                old(page_cache)@.pages,
                path@,
            ),
            room(old(page_cache)@) >= old(self).index_room(old(page_cache)@.pages, path@)
                ==> result is Ok,
            match result {
                Ok(_) => {
                    &&& final(self).indices@.len() == old(self).indices@.len() + 1
                    &&& final(self).indices@.drop_last() == old(self).indices@
                    &&& final(self).indices@.last().field@ == path@
                    &&& final(self).indices@.last().btree.root() == old(page_allocator)@.next()
                    &&& room(old(page_cache)@) - room(final(page_cache)@) <= size(
                        tree_at(final(page_cache)@.pages, old(page_allocator)@.next()),
                    )
                    &&& final(page_allocator).allocs() == old(page_allocator).allocs() + size(
                        tree_at(final(page_cache)@.pages, old(page_allocator)@.next()),
                    )
                    &&& size(tree_at(final(page_cache)@.pages, old(page_allocator)@.next())) <= 2
                        * old(self).entries(old(page_cache)@.pages).len() + 1
                    &&& old(self).spares(
                        old(page_cache)@.pages,
                        old(page_allocator)@,
                        *final(self),
                        final(page_cache)@.pages,
                        final(page_allocator)@,
                    )
                    &&& total_height(final(page_cache)@.pages, final(self).roots())
                        <= total_height(old(page_cache)@.pages, old(self).roots()) + old(
                        self,
                    ).entries(old(page_cache)@.pages).len()
                },
                Err(message) => {
                    &&& message@ == "cache full!"@
                    &&& *final(self) == *old(self)
                    &&& spared(
                        old(page_cache)@.pages,
                        old(page_allocator)@,
                        old(self).roots(),
                        old(self).external(old(page_cache)@.pages),
                        final(page_cache)@.pages,
                        final(page_allocator)@,
                        final(self).roots(),
                        final(self).external(final(page_cache)@.pages),
                    )
                    &&& index_given_up(
                        *old(self),
                        old(page_cache)@,
                        old(page_allocator)@,
                        final(page_cache)@,
                        final(page_allocator)@,
                        path@,
                    )
                },
            },
    {
        match self.build_index(path, page_cache, page_allocator) {
            None => Err("cache full!".to_owned()),
            Some(btree) => {
                let index = Index { field: path.clone(), btree };
                let ghost added = index;
                self.indices.push(index);
                proof {
                    assert(self.indices@.drop_last() =~= old(self).indices@);
                    lemma_index_added(
                        *old(self),
                        *self,
                        old(page_cache)@.pages,
                        old(page_allocator)@,
                        page_cache@.pages,
                        page_allocator@,
                        added,
                    );
                }
                Ok(())
            },
        }
    }

    /// Creates a new collection without documents and indices.
    pub fn create<S: PersistentStore>(
        name: &str,
        page_cache: &mut PageCache<S>,
        page_allocator: &mut PageAllocator,
    ) -> (collection: Self)
        requires
            old(page_cache).inv(),
            can_write(old(page_cache)@),
            old(page_allocator).inv(old(page_cache)@.pages),
            can_allocate(*old(page_allocator), 1),
            room(old(page_cache)@) >= slot_for(old(page_cache)@, old(page_allocator)@.next()),
        ensures
            final(page_cache).inv(),
            same_session(final(page_cache)@, old(page_cache)@),
            room(final(page_cache)@) >= room(old(page_cache)@) - slot_for(
                old(page_cache)@,
                old(page_allocator)@.next(),
            ),
            no_colder(old(page_cache)@, final(page_cache)@),
            final(page_allocator).inv(final(page_cache)@.pages),
            final(page_allocator).balance() == old(page_allocator).balance(),
            final(page_allocator)@ == old(page_allocator)@.taken(),
            final(page_allocator).allocs() == old(page_allocator).allocs() + 1,
            final(page_allocator).frees() == old(page_allocator).frees(),
            collection.name@ == name@,
            collection.next_docid == 1,
            collection.document_tree.root() == old(page_allocator)@.next(),
            collection.indices@.len() == 0,
            collection.inv(final(page_cache)@.pages, final(page_allocator)@),
            collection.docs(final(page_cache)@.pages) == Map::<u64, Json>::empty(),
            total_height(final(page_cache)@.pages, collection.roots()) == 0,
            kept(
                old(page_cache)@.pages,
                old(page_allocator)@,
                Seq::empty(),
                Seq::empty(),
                final(page_cache)@.pages,
                final(page_allocator)@,
                collection.roots(),
                collection.external(final(page_cache)@.pages),
            ),
    {
        let ghost pages0 = page_cache@.pages;
        let ghost free0 = page_allocator@;
        let ghost none = Seq::<u64>::empty();
        proof {
            page_allocator.lemma_wf(pages0);
            assert(trees_at(pages0, none) =~= Seq::<Tree>::empty());
            assert(layout(pages0, free0, none, none));
        }
        let document_tree = BTree::create(page_cache, page_allocator);
        let collection = Collection {
            name: name.to_owned(),
            next_docid: 1,
            document_tree,
            indices: Vec::new(),
        };
        proof {
            let root = collection.document_tree.root();
            lemma_layout_created(pages0, page_cache@.pages, free0, none, none);
            assert(none.push(root) =~= seq![root]);
            lemma_new_collection(collection, page_cache@.pages, root);
        }
        collection
    }

    /// Creates a new collection data structure with the root of the document
    /// tree at a specified page. Used during database creation to create the
    /// _meta table.
    pub fn create_at<S: PersistentStore>(
        name: &str,
        page_cache: &mut PageCache<S>,
        root_page: PageNum,
    ) -> (collection: Self)
        requires
            old(page_cache).inv(),
            old(page_cache)@.in_transaction,
            old(page_cache)@.can_lock(root_page@),
        ensures
            final(page_cache).inv(),
            same_session(final(page_cache)@, old(page_cache)@),
            final(page_cache)@.dirty == old(page_cache)@.dirty.insert(root_page@),
            final(page_cache)@.available == (if old(page_cache)@.idle(root_page@) {
                old(page_cache)@.available - 1
            } else {
                old(page_cache)@.available as int
            }),
            collection.name@ == name@,
            collection.next_docid == 1,
            collection.document_tree.root() == root_page@,
            collection.indices@.len() == 0,
            forall|free: FreePages| #[trigger]
                free.in_use(root_page@) ==> collection.inv(final(page_cache)@.pages, free),
            collection.docs(final(page_cache)@.pages) == Map::<u64, Json>::empty(),
            collection.external(final(page_cache)@.pages) == Seq::<u64>::empty(),
            forall|q: u64| #[trigger]
                collection.uses(final(page_cache)@.pages, q) > 0 ==> q == root_page@,
            total_height(final(page_cache)@.pages, collection.roots()) == 0,
            forall|q: u64|
                q != root_page@ ==> #[trigger] final(page_cache)@.pages[q] == old(
                    page_cache,
                )@.pages[q],
    {
        let document_tree = BTree::create_at(page_cache, root_page);
        let collection = Collection {
            name: name.to_owned(),
            next_docid: 1,
            document_tree,
            indices: Vec::new(),
        };
        proof {
            let root = root_page@;
            let pages = page_cache@.pages;
            lemma_new_collection(collection, pages, root);
            let t = tree_at(pages, root);
            assert(trees_at(pages, seq![root]) =~= seq![t]);
            lemma_forest_one(seq![t], t);
            assert forall|q: u64| #[trigger] pages_used(pages, seq![root], Seq::empty(), q) == (if q
                == root {
                1nat
            } else {
                0nat
            }) by {
                assert(forest_count(seq![t], q) == count(t, q));
            }
            assert forall|free: FreePages| #[trigger] free.in_use(root) implies collection.inv(
                pages,
                free,
            ) by {
                assert(layout(pages, free, seq![root], Seq::empty()));
            }
        }
        collection
    }

    /// The place of the index for a field.
    pub fn find_index(&self, name: &str) -> (result: Option<usize>)
        requires
            indices_fit(split_dots(name@)),
        ensures
            match result {
                Some(i) => self.index_for(name@) == Some(i as int) && i < self.indices@.len(),
                None => self.index_for(name@) is None,
            },
    {
        if let Ok(field) = FieldPath::new(name) {
            let mut i: usize = 0;
            while i < self.indices.len()
                invariant
                    i <= self.indices@.len(),
                    forall|j: int| 0 <= j < i ==> (#[trigger] self.indices@[j]).field@ != field@,
                    parse_path(name@) == Ok::<Seq<PathStep>, Seq<char>>(field@),
                decreases self.indices@.len() - i,
            {
                if self.indices[i].field.equals(&field) {
                    proof {
                        lemma_first_field(self.indices@, field@, i as int);
                    }
                    return Some(i);
                }
                i = i + 1;
            }
            proof {
                lemma_no_such_field(self.indices@, field@);
            }
        }
        None
    }
}

impl Collection {
    /// What can be read of the collection does not depend on the order of write back.
    pub proof fn lemma_same_order(&self, cache: CacheState, cache2: CacheState)
        requires
            self.can_read(cache),
            cache2.same_but_order(cache),
        ensures
            self.can_read(cache2),
    {
        assert forall|q: u64| #[trigger] self.uses(cache2.pages, q) > 0 implies cache2.can_lock(
            q,
        ) by {
            assert(self.uses(cache.pages, q) > 0);
        }
    }

    /// The trees and documents of the collection can be read.
    pub proof fn lemma_readable(&self, cache: CacheState)
        requires
            self.stored(cache.pages),
            self.can_read(cache),
        ensures
            can_read(cache, self.document_tree.root()),
            documents_ok(cache.pages, self.entries(cache.pages)),
            ascending(keys_of(self.entries(cache.pages))),
            forall|i: int|
                0 <= i < self.entries(cache.pages).len() ==> can_read_record(
                    cache,
                    (#[trigger] self.entries(cache.pages)[i]).value,
                ),
            forall|i: int|
                0 <= i < self.indices@.len() ==> can_read(
                    cache,
                    (#[trigger] self.indices@[i]).btree.root(),
                ) && index_ok(
                    self.index_entries(cache.pages, i),
                    self.indices@[i].field@,
                    self.docs(cache.pages),
                ) && ascending(keys_of(self.index_entries(cache.pages, i))),
    {
        let free = choose|free: FreePages| self.inv(cache.pages, free);
        assert(self.roots()[0] == self.document_tree.root());
        lemma_can_read(*self, cache, free, 0);
        lemma_tree_entries(cache.pages, self.document_tree.root());
        assert forall|i: int| 0 <= i < self.entries(cache.pages).len() implies can_read_record(
            cache,
            (#[trigger] self.entries(cache.pages)[i]).value,
        ) by {
            lemma_can_read_entry(*self, cache, i);
        }
        assert forall|i: int| 0 <= i < self.indices@.len() implies can_read(
            cache,
            (#[trigger] self.indices@[i]).btree.root(),
        ) && index_ok(
            self.index_entries(cache.pages, i),
            self.indices@[i].field@,
            self.docs(cache.pages),
        ) && ascending(keys_of(self.index_entries(cache.pages, i))) by {
            assert(self.roots()[i + 1] == self.indices@[i].btree.root());
            lemma_can_read(*self, cache, free, i + 1);
            lemma_tree_entries(cache.pages, self.indices@[i].btree.root());
        }
    }
}

/// A new index is given up again.
pub proof fn lemma_index_dropped(
    c: Collection,
    c2: Collection,
    pages: Map<u64, Seq<u8>>,
    free: FreePages,
    pages2: Map<u64, Seq<u8>>,
    free2: FreePages,
)
    requires
        c.inv(pages, free),
        c2.inv(pages2, free2),
        c2.document_tree == c.document_tree,
        c2.indices@.len() > 0,
        c2.indices@.drop_last() == c.indices@,
        c.spares(pages, free, c2, pages2, free2),
    ensures
        c.inv(pages2, free2),
        c.docs(pages2) == c2.docs(pages2),
        spared(
            pages,
            free,
            c.roots(),
            c.external(pages),
            pages2,
            free2,
            c.roots(),
            c.external(pages2),
        ),
{
    let roots = c.roots();
    let root = c2.indices@.last().btree.root();
    assert(c2.roots() =~= roots.push(root)) by {
        assert forall|i: int| 0 <= i < roots.len() implies c2.roots()[i] == roots[i] by {
            if i > 0 {
                assert(c2.indices@.drop_last()[i - 1] == c2.indices@[i - 1]);
            }
        }
    }
    lemma_layout_dropped(
        pages,
        free,
        roots,
        c.external(pages),
        pages2,
        free2,
        c2.external(pages2),
        root,
    );
    assert forall|i: int| 0 <= i < c.indices@.len() implies index_ok(
        #[trigger] c.index_entries(pages2, i),
        c.indices@[i].field@,
        c.docs(pages2),
    ) by {
        assert(c2.indices@.drop_last()[i] == c2.indices@[i]);
        assert(index_ok(
            c2.index_entries(pages2, i),
            c2.indices@[i].field@,
            c2.docs(pages2),
        ));
    }
}

/// A page that occurs in a forest occurs in one of the trees.
proof fn lemma_in_forest(ts: Seq<Tree>, q: u64)
    requires
        forest_count(ts, q) > 0,
    ensures
        exists|i: int| 0 <= i < ts.len() && #[trigger] count(ts[i], q) > 0,
    decreases ts.len(),
{
    if count(ts.last(), q) > 0 {
        assert(count(ts[ts.len() - 1], q) > 0);
    } else {
        lemma_in_forest(ts.drop_last(), q);
        let i = choose|i: int|
            0 <= i < ts.drop_last().len() && #[trigger] count(ts.drop_last()[i], q) > 0;
        assert(count(ts[i], q) > 0);
    }
}

/// Storage is reclaimed: a collection without documents takes no pages but the
/// roots of its trees.
pub proof fn law_empty_collection_takes_roots_only(
    c: Collection,
    pages: Map<u64, Seq<u8>>,
    free: FreePages,
)
    requires
        c.inv(pages, free),
        c.docs(pages) == Map::<u64, Json>::empty(),
    ensures
        forall|q: u64| #[trigger] c.uses(pages, q) > 0 <==> c.roots().contains(q),
{
    let roots = c.roots();
    let trees = trees_at(pages, roots);
    let entries = c.entries(pages);
    if entries.len() > 0 {
        lemma_be64_inverse(entries[0].key);
        assert(keys_of(entries)[0] == entries[0].key);
        assert(c.docs(pages).contains_key(be64(entries[0].key)));
    }
    assert forall|i: int| 0 <= i < roots.len() implies #[trigger] trees[i] is Leaf
        && trees[i].page() == roots[i] && forall|q: u64| #[trigger]
        count(trees[i], q) > 0 <==> q == roots[i] by {
        lemma_layout_tree(pages, free, roots, c.external(pages), i);
        assert(has_tree(pages, roots[i]));
        assert(is_tree(pages, roots[i], trees[i]));
        if i > 0 {
            let all = c.index_entries(pages, i - 1);
            assert(index_ok(all, c.indices@[i - 1].field@, c.docs(pages)));
            if all.len() > 0 {
                assert(keys_of(all)[0] == all[0].key);
                assert(keys_of(all).contains(all[0].key));
                assert(indexed(c.docs(pages), c.indices@[i - 1].field@, all[0].key));
            }
        }
        law_empty_tree_is_one_page(trees[i]);
    }
    assert forall|q: u64| #[trigger] c.uses(pages, q) > 0 <==> roots.contains(q) by {
        if c.uses(pages, q) > 0 {
            lemma_in_forest(trees, q);
            let i = choose|i: int| 0 <= i < trees.len() && #[trigger] count(trees[i], q) > 0;
            assert(roots[i] == q);
        }
        if roots.contains(q) {
            let i = roots.index_of(q);
            assert(count(trees[i], q) > 0);
            lemma_member_count(trees, i, q);
        }
    }
}

/// No page is lost: after a change, the pages in use are those of the collection
/// and those that belonged to something else before.
pub proof fn law_no_page_is_lost(
    c: Collection,
    pages: Map<u64, Seq<u8>>,
    free: FreePages,
    c2: Collection,
    pages2: Map<u64, Seq<u8>>,
    free2: FreePages,
)
    requires
        c2.inv(pages2, free2),
        c.spares(pages, free, c2, pages2, free2),
    ensures
        forall|q: u64| #[trigger]
            free2.in_use(q) <==> c2.uses(pages2, q) > 0 || (free.in_use(q) && c.uses(pages, q)
                == 0),
{
    assert forall|q: u64| #[trigger]
        free2.in_use(q) <==> c2.uses(pages2, q) > 0 || (free.in_use(q) && c.uses(pages, q)
        == 0) by {
        assert(elsewhere(pages2, free2, c2.roots(), c2.external(pages2), q) == elsewhere(
            pages,
            free,
            c.roots(),
            c.external(pages),
            q,
        ));
        assert(pages_used(pages2, c2.roots(), c2.external(pages2), q) == c2.uses(pages2, q));
    }
}

/// The index for a field that is given as text is the first one whose path the text stands
/// for. There is none if no index has that path, or if the text is no path.
pub proof fn law_index_is_found_by_its_path(c: Collection, name: Seq<char>)
    ensures
        parse_path(name) is Err ==> c.index_for(name) is None,
        parse_path(name) matches Ok(steps) ==> match c.index_for(name) {
            Some(i) => {
                &&& 0 <= i < c.indices@.len()
                &&& c.indices@[i].field@ == steps
                &&& forall|j: int| 0 <= j < i ==> (#[trigger] c.indices@[j]).field@ != steps
            },
            None => forall|j: int|
                0 <= j < c.indices@.len() ==> (#[trigger] c.indices@[j]).field@ != steps,
        },
{
    if let Ok(steps) = parse_path(name) {
        if forall|j: int| 0 <= j < c.indices@.len() ==> (#[trigger] c.indices@[j]).field@ != steps {
            lemma_no_such_field(c.indices@, steps);
        } else {
            let j = choose|j: int|
                0 <= j < c.indices@.len() && (#[trigger] c.indices@[j]).field@ == steps;
            let i = lemma_first_of(c.indices@, steps, j);
            lemma_first_field(c.indices@, steps, i);
        }
    }
}

proof fn lemma_first_of(indices: Seq<Index>, steps: Seq<PathStep>, k: int) -> (i: int)
    requires
        0 <= k < indices.len(),
        indices[k].field@ == steps,
    ensures
        0 <= i <= k,
        indices[i].field@ == steps,
        forall|j: int| 0 <= j < i ==> (#[trigger] indices[j]).field@ != steps,
    decreases k,
{
    if forall|j: int| 0 <= j < k ==> (#[trigger] indices[j]).field@ != steps {
        k
    } else {
        let j = choose|j: int| 0 <= j < k && (#[trigger] indices[j]).field@ == steps;
        lemma_first_of(indices, steps, j)
    }
}

/// A text of less than 2015 bytes stands in the tree, and a longer one in external pages alone.
pub proof fn law_long_texts_are_external(len: nat)
    ensures
        len < 2015 ==> document_chunks(len) == 0,
        len >= 2015 ==> document_chunks(len) * 8184 >= len && (document_chunks(len) - 1) * 8184
            < len,
        len < 2015 ==> record_len(len) == len + 1,
        len >= 2015 ==> record_len(len) == 17,
{
}

} // verus!
