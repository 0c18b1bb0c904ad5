//! Reading the documents of a collection one by one: all of them in the order
//! of their identifiers, or a range of an index in the order of its keys.

use vstd::prelude::*;
use vstd::utf8::encode_utf8;

use crate::btree::{can_read, lemma_can_iterate, lemma_same_reader, tree_at, BTreeCursor};
use crate::btree_model::{height, lemma_contents};
use crate::btree_node::{keys_of, Entry};
use crate::collection::Collection;
use crate::documents::{
    documents_ok, entries_at, index_key, index_ok, indexed, key_document, lemma_entry_at,
    lemma_index_key,
};
use crate::field_path::{lookup, PathStep};
use crate::key_encoding::{
    be64, encode, encode_key, from_be_bytes, law_equal_values_are_ordered_by_document,
    law_length_of_keys, law_number_bytes_keep_order, law_values_that_can_be_keys, lemma_be64,
    lemma_be64_inverse, lemma_key_document, DocId,
};
use crate::key_order::{
    ascending, group_lex_order, key_less, lemma_lex_total, lemma_rank, lex_le, lex_lt, rank,
};
use crate::layout::lemma_layout_tree;
use crate::page_allocator::FreePages;
use crate::page_cache::{CacheState, PageCache, PersistentStore};
use crate::records::{
    can_read_record, lemma_can_read_record, materialize_doc, record_json, record_ok,
};
use crate::util::be64_bytes;
use crate::value::{option_view, storable, Json, Number, Value};

verus! {

/// The documents in a row of entries, each with its identifier.
pub open spec fn document_list(pages: Map<u64, Seq<u8>>, entries: Seq<Entry>) -> Seq<(u64, Json)> {
    entries.map_values(|entry: Entry| (be64(entry.key), record_json(pages, entry.value)))
}

/// The result of a step of a scan.
pub open spec fn item_view(item: Option<(DocId, Value)>) -> Option<(u64, Json)> {
    match item {
        Some((docid, document)) => Some((docid.0, document@)),
        None => None,
    }
}

/// Reads all documents of a collection in the order of their identifiers.
pub struct SequentialScan {
    iterator: BTreeCursor,
}

impl SequentialScan {
    pub closed spec fn root(&self) -> u64 {
        self.iterator.root()
    }

    closed spec fn rest(&self, pages: Map<u64, Seq<u8>>) -> Seq<Entry> {
        self.iterator.remaining(pages)
    }

    /// The scan stands at a document, or behind all of them.
    pub closed spec fn wf(&self, pages: Map<u64, Seq<u8>>) -> bool {
        self.iterator.wf(pages) && documents_ok(pages, self.rest(pages))
    }

    /// All that is left can be read.
    pub closed spec fn can_read(&self, cache: CacheState) -> bool {
        &&& can_read(cache, self.root())
        &&& forall|i: int|
            0 <= i < self.rest(cache.pages).len() ==> can_read_record(
                cache,
                (#[trigger] self.rest(cache.pages)[i]).value,
            )
    }

    /// The documents that the scan has not handed out yet.
    pub closed spec fn remaining(&self, pages: Map<u64, Seq<u8>>) -> Seq<(u64, Json)> {
        document_list(pages, self.rest(pages))
    }

    /// What can be read does not depend on the order of write back.
    pub proof fn lemma_same_order(&self, cache: CacheState, cache2: CacheState)
        requires
            self.can_read(cache),
            cache2.same_but_order(cache),
        ensures
            self.can_read(cache2),
    {
        let rest = self.rest(cache.pages);
        assert forall|i: int| 0 <= i < rest.len() implies can_read_record(
            cache2,
            (#[trigger] rest[i]).value,
        ) by {
            lemma_can_read_record(cache, cache2, rest[i].value);
        }
        lemma_same_reader(cache, cache2, self.root());
    }

    pub fn new<S: PersistentStore>(collection: &Collection, page_cache: &mut PageCache<S>) -> (scan:
        Self)
        requires
            old(page_cache).inv(),
            collection.stored(old(page_cache)@.pages),
            collection.can_read(old(page_cache)@),
        ensures
            final(page_cache).inv(),
            final(page_cache)@.same_but_order(old(page_cache)@),
            scan.wf(old(page_cache)@.pages),
            scan.can_read(final(page_cache)@),
            scan.remaining(old(page_cache)@.pages) == document_list(
                old(page_cache)@.pages,
                collection.entries(old(page_cache)@.pages),
            ),
    {
        let ghost cache = page_cache@;
        let ghost pages = cache.pages;
        proof {
            collection.lemma_readable(cache);
        }
        proof {
            lemma_can_iterate(page_cache@, collection.document_tree.root(), false);
        }
        let iterator = collection.document_tree.iterate(false, page_cache);
        let scan = SequentialScan { iterator };
        proof {
            collection.lemma_same_order(cache, page_cache@);
            collection.lemma_readable(page_cache@);
        }
        scan
    }

    /// The next document.
    pub fn next<S: PersistentStore>(&mut self, page_cache: &mut PageCache<S>) -> (result: Option<
        (DocId, Value),
    >)
        requires
            old(page_cache).inv(),
            old(self).wf(old(page_cache)@.pages),
            old(self).can_read(old(page_cache)@),
        ensures
            final(page_cache).inv(),
            final(page_cache)@.same_but_order(old(page_cache)@),
            final(self).wf(old(page_cache)@.pages),
            final(self).can_read(final(page_cache)@),
            result matches Some(item) ==> storable(item.1@),
            ({
                let rest = old(self).remaining(old(page_cache)@.pages);
                if rest.len() == 0 {
                    result is None && *final(self) == *old(self)
                } else {
                    item_view(result) == Some(rest[0]) && final(self).remaining(
                        old(page_cache)@.pages,
                    ) == rest.skip(1)
                }
            }),
    {
        let ghost cache = page_cache@;
        let ghost pages = cache.pages;
        let ghost rest = self.rest(pages);
        match self.iterator.next(page_cache) {
            Some((docid_bytes, value_bytes)) => {
                proof {
                    assert(can_read_record(cache, rest[0].value));
                    lemma_can_read_record(cache, page_cache@, value_bytes@);
                    assert(rest[0].key.len() == 8);
                }
                let docid = DocId(from_be_bytes(docid_bytes.as_slice()));
                let doc = materialize_doc(value_bytes.as_slice(), page_cache);
                proof {
                    let left = self.rest(pages);
                    assert(left =~= rest.skip(1));
                    assert(document_list(pages, left) =~= document_list(pages, rest).skip(1));
                    assert forall|i: int| 0 <= i < left.len() implies (#[trigger] left[i]).key.len()
                        == 8 && record_ok(pages, left[i].value) && can_read_record(
                        page_cache@,
                        left[i].value,
                    ) by {
                        assert(left[i] == rest[i + 1]);
                        lemma_can_read_record(cache, page_cache@, left[i].value);
                    }
                    lemma_same_reader(cache, page_cache@, self.root());
                }
                Some((docid, doc))
            },
            None => {
                proof {
                    assert forall|i: int| 0 <= i < rest.len() implies can_read_record(
                        page_cache@,
                        (#[trigger] rest[i]).value,
                    ) by {
                        lemma_can_read_record(cache, page_cache@, rest[i].value);
                    }
                    lemma_same_reader(cache, page_cache@, self.root());
                }
                None
            },
        }
    }
}

/// The documents of a collection come in ascending order of their identifiers,
/// each of them once.
pub proof fn law_scan_lists_all(c: Collection, pages: Map<u64, Seq<u8>>)
    requires
        c.stored(pages),
    ensures
        ({
            let list = document_list(pages, c.entries(pages));
            &&& forall|i: int, j: int|
                0 <= i < j < list.len() ==> (#[trigger] list[i]).0 < (#[trigger] list[j]).0
            &&& forall|i: int|
                0 <= i < list.len() ==> c.docs(pages).contains_key((#[trigger] list[i]).0)
                    && c.docs(pages)[list[i].0] == list[i].1
            &&& forall|id: u64| #[trigger]
                c.docs(pages).contains_key(id) ==> exists|i: int|
                    0 <= i < list.len() && #[trigger] list[i] == (id, c.docs(pages)[id])
        }),
{
    broadcast use group_lex_order;

    let entries = c.entries(pages);
    let list = document_list(pages, entries);
    let docs = c.docs(pages);
    let free = choose|free: FreePages| c.inv(pages, free);
    assert(c.roots()[0] == c.document_tree.root());
    lemma_layout_tree(pages, free, c.roots(), c.external(pages), 0);
    let t = tree_at(pages, c.document_tree.root());
    lemma_contents(t, None, None, height(t));
    let keys = keys_of(entries);
    assert forall|i: int| 0 <= i < list.len() implies docs.contains_key((#[trigger] list[i]).0)
        && docs[list[i].0] == list[i].1 && be64_bytes(list[i].0) == keys[i] by {
        assert(entries[i].key.len() == 8);
        lemma_be64_inverse(entries[i].key);
        lemma_entry_at(entries, i);
    }
    assert forall|i: int, j: int| 0 <= i < j < list.len() implies (#[trigger] list[i]).0 < (
    #[trigger] list[j]).0 by {
        assert(lex_lt(keys[i], keys[j]));
        assert(be64_bytes(list[i].0) == keys[i] && be64_bytes(list[j].0) == keys[j]);
        if list[j].0 < list[i].0 {
            law_number_bytes_keep_order(list[j].0, list[i].0);
        }
    }
    assert forall|id: u64| #[trigger] docs.contains_key(id) implies exists|i: int|
        0 <= i < list.len() && #[trigger] list[i] == (id, docs[id]) by {
        let i = keys.index_of(be64_bytes(id));
        assert(keys[i] == be64_bytes(id));
        lemma_be64(id);
        assert(list[i].0 == id);
    }
}

/// The key of the end of a range: it comes before or after all keys of the same value.
pub open spec fn range_key(range: Option<Json>, upper: bool) -> Result<
    Option<Seq<u8>>,
    Seq<char>,
> {
    match range {
        Some(value) => match encode(
            value,
            if upper {
                u64::MAX
            } else {
                0
            },
        ) {
            Ok(key) => Ok(Some(key)),
            Err(message) => Err(message),
        },
        None => Ok(None),
    }
}

/// The key lies behind the end of the range.
pub open spec fn beyond(end: Option<Seq<u8>>, reverse: bool, key: Seq<u8>) -> bool {
    match end {
        Some(end) => if reverse {
            lex_lt(key, end)
        } else {
            lex_lt(end, key)
        },
        None => false,
    }
}

/// The entries of an index from the start of a range on. Without a start these
/// are all entries, in ascending order.
pub open spec fn entries_from(
    pages: Map<u64, Seq<u8>>,
    root: u64,
    start: Option<Seq<u8>>,
    reverse: bool,
) -> Seq<Entry> {
    let all = entries_at(pages, root);
    match start {
        Some(key) => if reverse {
            all.take(rank(keys_of(all), key)).reverse()
        } else {
            all.skip(rank(keys_of(all), key))
        },
        None => all,
    }
}

/// Reads the documents in a range of an index.
pub struct IndexScan {
    iterator: BTreeCursor,
    reverse: bool,
    end_range: Option<Vec<u8>>,
}

impl IndexScan {
    pub closed spec fn root(&self) -> u64 {
        self.iterator.root()
    }

    pub closed spec fn is_reverse(&self) -> bool {
        self.reverse
    }

    /// The key at the end of the range.
    pub closed spec fn end(&self) -> Option<Seq<u8>> {
        match self.end_range {
            Some(key) => Some(key@),
            None => None,
        }
    }

    /// The entries of the index that were not looked at yet.
    pub closed spec fn remaining(&self, pages: Map<u64, Seq<u8>>) -> Seq<Entry> {
        self.iterator.remaining(pages)
    }

    /// The scan stands at an entry of an index of the collection, or behind all of them.
    pub closed spec fn wf(&self, collection: Collection, pages: Map<u64, Seq<u8>>) -> bool {
        &&& self.iterator.wf(pages)
        &&& exists|i: int|
            0 <= i < collection.indices@.len() && #[trigger] collection.indices@[i].btree.root()
                == self.root()
        &&& forall|i: int|
            0 <= i < self.remaining(pages).len() ==> in_sync(
                collection.docs(pages),
                #[trigger] self.remaining(pages)[i],
            )
    }

    /// Starts to read the documents whose field lies between two values.
    pub fn new<S: PersistentStore>(
        collection: &Collection,
        field_index: usize,
        start_range: Option<Value>,
        end_range: Option<Value>,
        reverse: bool,
        page_cache: &mut PageCache<S>,
    ) -> (result: Result<Self, String>)
        requires
            old(page_cache).inv(),
            collection.stored(old(page_cache)@.pages),
            collection.can_read(old(page_cache)@),
            field_index < collection.indices@.len(),
        ensures
            final(page_cache).inv(),
            final(page_cache)@.same_but_order(old(page_cache)@),
            ({
                let pages = old(page_cache)@.pages;
                let root = collection.indices@[field_index as int].btree.root();
                match (
                    range_key(option_view(start_range), reverse),
                    range_key(option_view(end_range), !reverse),
                ) {
                    (Err(message), _) => result matches Err(text) && text@ == message,
                    (Ok(_), Err(message)) => result matches Err(text) && text@ == message,
                    (Ok(start), Ok(end)) => result matches Ok(scan) && {
                        &&& scan.wf(*collection, pages)
                        &&& scan.root() == root
                        &&& scan.is_reverse() == reverse
                        &&& scan.end() == end
                        &&& scan.remaining(pages) == entries_from(pages, root, start, reverse)
                    },
                }
            }),
    {
        let ghost cache = page_cache@;
        let ghost pages = cache.pages;
        let ghost root = collection.indices@[field_index as int].btree.root();
        let ghost all = collection.index_entries(pages, field_index as int);
        proof {
            collection.lemma_readable(cache);
            assert(collection.indices@[field_index as int].btree.root() == root);
            lemma_all_in_sync(
                all,
                collection.indices@[field_index as int].field@,
                collection.docs(pages),
            );
        }
        let index = &collection.indices[field_index].btree;
        let iterator = match start_range {
            Some(value) => {
                let low: u64 = if reverse {
                    u64::MAX
                } else {
                    0
                };
                match encode_key(&value, DocId(low)) {
                    Ok(start_key) => {
                        proof {
                            lemma_key_document(value@, low);
                            lemma_rank(keys_of(all), start_key@);
                        }
                        index.find(start_key.as_slice(), reverse, page_cache)
                    },
                    Err(message) => return Err(message),
                }
            },
            None => {
                proof {
                    lemma_can_iterate(page_cache@, index.root(), false);
                }
                index.iterate(false, page_cache)
            },
        };
        let end_key = match end_range {
            Some(value) => {
                let high: u64 = if reverse {
                    0
                } else {
                    u64::MAX
                };
                match encode_key(&value, DocId(high)) {
                    Ok(end_key) => Some(end_key),
                    Err(message) => return Err(message),
                }
            },
            None => None,
        };
        Ok(IndexScan { iterator, reverse, end_range: end_key })
    }

    /// The next document in the range.
    pub fn next<S: PersistentStore>(
        &mut self,
        collection: &Collection,
        page_cache: &mut PageCache<S>,
    ) -> (result: Option<(DocId, Value)>)
        requires
            old(page_cache).inv(),
            collection.stored(old(page_cache)@.pages),
            collection.can_read(old(page_cache)@),
            old(self).wf(*collection, old(page_cache)@.pages),
        ensures
            final(page_cache).inv(),
            final(page_cache)@.same_but_order(old(page_cache)@),
            final(self).wf(*collection, old(page_cache)@.pages),
            final(self).root() == old(self).root(),
            final(self).is_reverse() == old(self).is_reverse(),
            final(self).end() == old(self).end(),
            ({
                let pages = old(page_cache)@.pages;
                let rest = old(self).remaining(pages);
                if rest.len() == 0 {
                    result is None && final(self).remaining(pages) == rest
                } else {
                    &&& final(self).remaining(pages) == rest.skip(1)
                    &&& item_view(result) == (if beyond(
                        old(self).end(),
                        old(self).is_reverse(),
                        rest[0].key,
                    ) {
                        None
                    } else {
                        Some((be64(rest[0].value), collection.docs(pages)[be64(rest[0].value)]))
                    })
                }
            }),
    {
        let ghost cache = page_cache@;
        let ghost pages = cache.pages;
        let ghost rest = self.remaining(pages);
        proof {
            collection.lemma_readable(cache);
        }
        match self.iterator.next(page_cache) {
            Some((key, docid_bytes)) => {
                proof {
                    let left = self.remaining(pages);
                    assert(left =~= rest.skip(1));
                    assert(in_sync(collection.docs(pages), rest[0]));
                    assert forall|i: int| 0 <= i < left.len() implies in_sync(
                        collection.docs(pages),
                        #[trigger] left[i],
                    ) by {
                        assert(left[i] == rest[i + 1]);
                    }
                    collection.lemma_same_order(cache, page_cache@);
                }
                if let Some(end) = &self.end_range {
                    if (self.reverse && key_less(key.as_slice(), end.as_slice())) || (!self.reverse
                        && key_less(end.as_slice(), key.as_slice())) {
                        return None;
                    }
                }
                let docid = DocId(from_be_bytes(docid_bytes.as_slice()));
                match collection.get(docid, page_cache) {
                    Some(document) => Some((docid, document)),
                    None => None,
                }
            },
            None => None,
        }
    }
}

/// The entry of an index leads to a document.
pub open spec fn in_sync(docs: Map<u64, Json>, entry: Entry) -> bool {
    entry.value.len() == 8 && docs.contains_key(be64(entry.value))
}

/// All entries of an index lead to documents.
proof fn lemma_all_in_sync(
    entries: Seq<Entry>,
    steps: Seq<PathStep>,
    docs: Map<u64, Json>,
)
    requires
        index_ok(entries, steps, docs),
    ensures
        forall|i: int| 0 <= i < entries.len() ==> in_sync(docs, #[trigger] entries[i]),
{
    assert forall|i: int| 0 <= i < entries.len() implies in_sync(docs, #[trigger] entries[i]) by {
        assert(keys_of(entries)[i] == entries[i].key);
        assert(keys_of(entries).contains(entries[i].key));
        assert(indexed(docs, steps, entries[i].key));
        lemma_be64(key_document(entries[i].key));
    }
}

/// An index lists the documents that have a key, in ascending order of their
/// keys, and each of them once.
pub proof fn law_index_lists_documents(c: Collection, pages: Map<u64, Seq<u8>>, i: int)
    requires
        c.stored(pages),
        0 <= i < c.indices@.len(),
    ensures
        ({
            let all = c.index_entries(pages, i);
            let steps = c.indices@[i].field@;
            let docs = c.docs(pages);
            &&& ascending(keys_of(all))
            &&& forall|j: int|
                0 <= j < all.len() ==> docs.contains_key(be64((#[trigger] all[j]).value))
                    && index_key(steps, docs[be64(all[j].value)], be64(all[j].value)) == Some(
                    all[j].key,
                )
            &&& forall|id: u64| #[trigger]
                docs.contains_key(id) && index_key(steps, docs[id], id) is Some ==> exists|j: int|
                    0 <= j < all.len() && #[trigger] all[j] == (Entry {
                        key: index_key(steps, docs[id], id)->Some_0,
                        value: be64_bytes(id),
                    })
        }),
{
    let all = c.index_entries(pages, i);
    let steps = c.indices@[i].field@;
    let docs = c.docs(pages);
    let root = c.indices@[i].btree.root();
    let free = choose|free: FreePages| c.inv(pages, free);
    assert(c.roots()[i + 1] == root);
    lemma_layout_tree(pages, free, c.roots(), c.external(pages), i + 1);
    let t = tree_at(pages, root);
    lemma_contents(t, None, None, height(t));
    assert(index_ok(all, steps, docs));
    assert forall|j: int| 0 <= j < all.len() implies docs.contains_key(
        be64((#[trigger] all[j]).value),
    ) && index_key(steps, docs[be64(all[j].value)], be64(all[j].value)) == Some(all[j].key) by {
        assert(keys_of(all)[j] == all[j].key);
        assert(keys_of(all).contains(all[j].key));
        assert(indexed(docs, steps, all[j].key));
        lemma_be64(key_document(all[j].key));
    }
    assert forall|id: u64| #[trigger]
        docs.contains_key(id) && index_key(steps, docs[id], id) is Some implies exists|j: int|
        0 <= j < all.len() && #[trigger] all[j] == (Entry {
            key: index_key(steps, docs[id], id)->Some_0,
            value: be64_bytes(id),
        }) by {
        let key = index_key(steps, docs[id], id)->Some_0;
        lemma_index_key(steps, docs[id], id);
        assert(indexed(docs, steps, key));
        assert(keys_of(all).contains(key));
        let j = keys_of(all).index_of(key);
        assert(keys_of(all)[j] == key);
        assert(all[j].key == key);
    }
}

/// The key lies between the ends of a range, as far as it has ends.
pub open spec fn within(low: Option<Seq<u8>>, key: Seq<u8>, high: Option<Seq<u8>>) -> bool {
    &&& low matches Some(low) ==> lex_le(low, key)
    &&& high matches Some(high) ==> lex_le(key, high)
}

/// A scan from one value up to another hands out `n` entries of the index before
/// it ends: all those between the two values, in ascending order. Each of the two
/// values may be missing.
pub proof fn law_range_scan(
    c: Collection,
    pages: Map<u64, Seq<u8>>,
    i: int,
    start: Option<Json>,
    end: Option<Json>,
) -> (n: int)
    requires
        c.stored(pages),
        0 <= i < c.indices@.len(),
        range_key(start, false) is Ok,
        range_key(end, true) is Ok,
    ensures
        ({
            let low = range_key(start, false)->Ok_0;
            let high = range_key(end, true)->Ok_0;
            let rest = entries_from(pages, c.indices@[i].btree.root(), low, false);
            &&& 0 <= n <= rest.len()
            &&& forall|j: int|
                0 <= j < rest.len() ==> (beyond(high, false, (#[trigger] rest[j]).key) <==> n <= j)
            &&& ascending(keys_of(rest.take(n)))
            &&& forall|entry: Entry| #[trigger]
                rest.take(n).contains(entry) <==> c.index_entries(pages, i).contains(entry)
                    && within(low, entry.key, high)
        }),
{
    law_index_lists_documents(c, pages, i);
    let all = c.index_entries(pages, i);
    let low = range_key(start, false)->Ok_0;
    let at = match low {
        Some(low) => rank(keys_of(all), low),
        None => 0,
    };
    if low is Some {
        lemma_rank(keys_of(all), low->Some_0);
    }
    let rest = entries_from(pages, c.indices@[i].btree.root(), low, false);
    assert(rest =~= all.skip(at));
    lemma_range(all, low, range_key(end, true)->Ok_0, at)
}

/// The entries between two keys.
proof fn lemma_range(
    all: Seq<Entry>,
    low: Option<Seq<u8>>,
    high: Option<Seq<u8>>,
    at: int,
) -> (n: int)
    requires
        ascending(keys_of(all)),
        at == (match low {
            Some(low) => rank(keys_of(all), low),
            None => 0,
        }),
    ensures
        ({
            let rest = all.skip(at);
            &&& 0 <= n <= rest.len()
            &&& forall|j: int|
                0 <= j < rest.len() ==> (beyond(high, false, (#[trigger] rest[j]).key) <==> n <= j)
            &&& ascending(keys_of(rest.take(n)))
            &&& forall|entry: Entry| #[trigger]
                rest.take(n).contains(entry) <==> all.contains(entry) && within(
                    low,
                    entry.key,
                    high,
                )
        }),
{
    broadcast use group_lex_order;

    let keys = keys_of(all);
    if low is Some {
        lemma_rank(keys, low->Some_0);
    }
    let rest = all.skip(at);
    let n = match high {
        Some(high) => lemma_first_beyond(all, high, at),
        None => rest.len() as int,
    };
    assert forall|j: int| 0 <= j < rest.len() implies (beyond(
        high,
        false,
        (#[trigger] rest[j]).key,
    ) <==> n <= j) by {
        assert(rest[j] == all[at + j]);
    }
    let part = rest.take(n);
    assert forall|j: int, k: int| 0 <= j < k < part.len() implies lex_lt(
        #[trigger] keys_of(part)[j],
        #[trigger] keys_of(part)[k],
    ) by {
        assert(keys_of(part)[j] == keys[at + j] && keys_of(part)[k] == keys[at + k]);
    }
    assert forall|entry: Entry| #[trigger]
        part.contains(entry) <==> all.contains(entry) && within(low, entry.key, high) by {
        if part.contains(entry) {
            let j = part.index_of(entry);
            assert(all[at + j] == entry);
            assert(keys[at + j] == entry.key);
            assert(!beyond(high, false, rest[j].key));
            if high is Some {
                lemma_lex_total(entry.key, high->Some_0);
            }
        }
        if all.contains(entry) && within(low, entry.key, high) {
            let m = all.index_of(entry);
            assert(keys[m] == entry.key);
            if m < at {
                assert(lex_lt(keys[m], low->Some_0));
            }
            let j = m - at;
            assert(rest[j] == entry);
            assert(!beyond(high, false, rest[j].key));
            assert(part[j] == entry);
        }
    }
    n
}

/// A scan in reverse from one value down to another hands out `n` entries of the
/// index before it ends: all those between the two values, in descending order.
/// The value at the end may be missing.
pub proof fn law_reverse_range_scan(
    c: Collection,
    pages: Map<u64, Seq<u8>>,
    i: int,
    start: Json,
    end: Option<Json>,
) -> (n: int)
    requires
        c.stored(pages),
        0 <= i < c.indices@.len(),
        encode(start, u64::MAX) is Ok,
        range_key(end, false) is Ok,
    ensures
        ({
            let high = encode(start, u64::MAX)->Ok_0;
            let low = range_key(end, false)->Ok_0;
            let rest = entries_from(pages, c.indices@[i].btree.root(), Some(high), true);
            &&& 0 <= n <= rest.len()
            &&& forall|j: int|
                0 <= j < rest.len() ==> (beyond(low, true, (#[trigger] rest[j]).key) <==> n <= j)
            &&& ascending(keys_of(rest.take(n).reverse()))
            &&& forall|entry: Entry| #[trigger]
                rest.take(n).contains(entry) <==> c.index_entries(pages, i).contains(entry)
                    && within(low, entry.key, None) && lex_lt(entry.key, high)
        }),
{
    broadcast use group_lex_order;

    law_index_lists_documents(c, pages, i);
    let all = c.index_entries(pages, i);
    let keys = keys_of(all);
    let high = encode(start, u64::MAX)->Ok_0;
    let low = range_key(end, false)->Ok_0;
    lemma_rank(keys, high);
    let at = rank(keys, high);
    let rest = all.take(at).reverse();
    assert forall|j: int| 0 <= j < rest.len() implies #[trigger] rest[j] == all[at - 1 - j] by {}
    let first = match low {
        Some(low) => {
            lemma_rank(keys, low);
            let r = rank(keys, low);
            if r < at {
                r
            } else {
                at
            }
        },
        None => 0,
    };
    let n = at - first;
    assert forall|j: int| 0 <= j < rest.len() implies (beyond(
        low,
        true,
        (#[trigger] rest[j]).key,
    ) <==> n <= j) by {
        assert(rest[j] == all[at - 1 - j]);
        assert(keys[at - 1 - j] == rest[j].key);
    }
    let part = rest.take(n);
    let back = part.reverse();
    assert forall|j: int, k: int| 0 <= j < k < back.len() implies lex_lt(
        #[trigger] keys_of(back)[j],
        #[trigger] keys_of(back)[k],
    ) by {
        assert(back[j] == all[first + j] && back[k] == all[first + k]);
        assert(keys_of(back)[j] == keys[first + j] && keys_of(back)[k] == keys[first + k]);
    }
    assert forall|entry: Entry| #[trigger]
        part.contains(entry) <==> all.contains(entry) && within(low, entry.key, None) && lex_lt(
        entry.key,
        high,
    ) by {
        if part.contains(entry) {
            let j = part.index_of(entry);
            assert(rest[j] == entry);
            assert(all[at - 1 - j] == entry);
            assert(keys[at - 1 - j] == entry.key);
            assert(!beyond(low, true, rest[j].key));
            if low is Some {
                lemma_lex_total(entry.key, low->Some_0);
            }
        }
        if all.contains(entry) && within(low, entry.key, None) && lex_lt(entry.key, high) {
            let m = all.index_of(entry);
            assert(keys[m] == entry.key);
            assert(m < at);
            let j = at - 1 - m;
            assert(rest[j] == entry);
            assert(!beyond(low, true, rest[j].key));
            assert(part[j] == entry);
        }
    }
    n
}

/// The first entry from `at` on whose key comes after `high`.
proof fn lemma_first_beyond(all: Seq<Entry>, high: Seq<u8>, at: int) -> (n: int)
    requires
        ascending(keys_of(all)),
        0 <= at <= all.len(),
    ensures
        0 <= n <= all.len() - at,
        forall|m: int|
            at <= m < all.len() ==> (lex_lt(high, (#[trigger] all[m]).key) <==> at + n <= m),
    decreases all.len() - at,
{
    broadcast use group_lex_order;

    if at == all.len() {
        0
    } else if lex_lt(high, all[at].key) {
        assert forall|m: int| at <= m < all.len() implies lex_lt(high, (#[trigger] all[m]).key) by {
            if at < m {
                assert(lex_lt(keys_of(all)[at], keys_of(all)[m]));
            }
        }
        0
    } else {
        1 + lemma_first_beyond(all, high, at + 1)
    }
}

/// An index holds every document whose field is a boolean, a number or a string that is not
/// too long, under the key for that value.
pub proof fn law_index_holds_every_document(
    c: Collection,
    pages: Map<u64, Seq<u8>>,
    i: int,
    id: u64,
    value: Json,
)
    requires
        c.stored(pages),
        0 <= i < c.indices@.len(),
        c.docs(pages).contains_key(id),
        lookup(c.indices@[i].field@, c.docs(pages)[id]) == Ok::<Json, Seq<char>>(value),
        value is Bool || value is Number || (value is String && encode_utf8(
            value->String_0,
        ).len() <= 2005),
    ensures
        encode(value, id) is Ok,
        c.index_entries(pages, i).contains(
            Entry { key: encode(value, id)->Ok_0, value: be64_bytes(id) },
        ),
{
    law_values_that_can_be_keys(value, id);
    law_length_of_keys(value, id);
    law_index_lists_documents(c, pages, i);
    let docs = c.docs(pages);
    let steps = c.indices@[i].field@;
    let all = c.index_entries(pages, i);
    assert(docs.contains_key(id) && index_key(steps, docs[id], id) is Some);
    let j = choose|j: int|
        0 <= j < all.len() && #[trigger] all[j] == (Entry {
            key: index_key(steps, docs[id], id)->Some_0,
            value: be64_bytes(id),
        });
    assert(all.contains(all[j]));
}

/// An index holds nothing else: each entry is that of a document whose field is a boolean, a
/// number or a string that is not too long, and no document has two entries.
pub proof fn law_index_holds_no_others(
    c: Collection,
    pages: Map<u64, Seq<u8>>,
    i: int,
    j: int,
    k: int,
)
    requires
        c.stored(pages),
        0 <= i < c.indices@.len(),
        0 <= j < c.index_entries(pages, i).len(),
        0 <= k < c.index_entries(pages, i).len(),
    ensures
        ({
            let entry = c.index_entries(pages, i)[j];
            let id = be64(entry.value);
            let docs = c.docs(pages);
            &&& docs.contains_key(id)
            &&& lookup(c.indices@[i].field@, docs[id]) matches Ok(value) && {
                &&& value is Bool || value is Number || (value is String && encode_utf8(
                    value->String_0,
                ).len() <= 2005)
                &&& encode(value, id) == Ok::<Seq<u8>, Seq<char>>(entry.key)
                &&& entry.value == be64_bytes(id)
            }
        }),
        c.index_entries(pages, i)[j].value == c.index_entries(pages, i)[k].value ==> j == k,
{
    broadcast use group_lex_order;

    law_index_lists_documents(c, pages, i);
    let docs = c.docs(pages);
    let steps = c.indices@[i].field@;
    let all = c.index_entries(pages, i);
    let entry = all[j];
    let id = be64(entry.value);
    assert(index_key(steps, docs[id], id) == Some(entry.key));
    let value = lookup(steps, docs[id])->Ok_0;
    law_values_that_can_be_keys(value, id);
    law_length_of_keys(value, id);
    lemma_all_in_sync(all, steps, docs);
    assert(in_sync(docs, entry));
    lemma_be64_inverse(entry.value);
    if all[k].value == entry.value {
        assert(all[k].key == entry.key);
        if j < k {
            assert(lex_lt(keys_of(all)[j], keys_of(all)[k]));
        }
        if k < j {
            assert(lex_lt(keys_of(all)[k], keys_of(all)[j]));
        }
    }
}

/// Both ends of a range belong to it: the key for a value at an end lies within the range,
/// whatever the document. A range without an end goes on to the end of the index, and one
/// with an end that can be no key is an error.
pub proof fn law_range_has_both_ends(value: Json, id: u64)
    ensures
        value is Bool || value is Number || (value is String && encode_utf8(
            value->String_0,
        ).len() <= 2008) ==> {
            &&& encode(value, id) is Ok
            &&& range_key(Some(value), false) matches Ok(Some(low)) && lex_le(
                low,
                encode(value, id)->Ok_0,
            )
            &&& range_key(Some(value), true) matches Ok(Some(high)) && lex_le(
                encode(value, id)->Ok_0,
                high,
            )
        },
        forall|upper: bool| #[trigger]
            range_key(None, upper) == Ok::<Option<Seq<u8>>, Seq<char>>(None),
        forall|upper: bool|
            value is Null || value is Array || value is Object ==> #[trigger] range_key(
                Some(value),
                upper,
            ) == Err::<Option<Seq<u8>>, Seq<char>>("Unindexable field type"@),
        forall|upper: bool|
            value is String && encode_utf8(value->String_0).len() > 2008
                ==> #[trigger] range_key(Some(value), upper) == Err::<
                Option<Seq<u8>>,
                Seq<char>,
            >("Key is too large"@),
{
    law_values_that_can_be_keys(value, id);
    law_values_that_can_be_keys(value, 0);
    law_values_that_can_be_keys(value, u64::MAX);
    if encode(value, id) is Ok {
        if id > 0 {
            law_equal_values_are_ordered_by_document(value, 0, id);
        }
        if id < u64::MAX {
            law_equal_values_are_ordered_by_document(value, id, u64::MAX);
        }
    }
}

/// Without a start a scan begins with the first entry of the index, even in reverse.
pub proof fn law_scan_without_start(
    c: Collection,
    pages: Map<u64, Seq<u8>>,
    i: int,
    reverse: bool,
)
    requires
        0 <= i < c.indices@.len(),
    ensures
        entries_from(pages, c.indices@[i].btree.root(), None, reverse) == c.index_entries(pages, i),
{
}

} // verus!
