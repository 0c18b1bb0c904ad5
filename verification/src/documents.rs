//! What the B-trees of a collection stand for: the documents by their
//! identifiers, and for each index the keys of the documents.

use vstd::prelude::*;

use crate::btree::tree_at;
use crate::btree_model::{contents, key_ok};
use crate::btree_node::{entry_size, keys_of, Entry};
use crate::field_path::{lookup, PathStep};
use crate::key_encoding::{be64, encode, lemma_be64, lemma_be64_inverse, lemma_key_document};
use crate::key_order::{ascending, group_lex_order, lemma_rank, lemma_rank_unique, lex_lt, rank};
use crate::layout::{lemma_occurs_at, lemma_occurs_concat, occurs};
use crate::records::{lemma_record_frame, record_json, record_ok, record_pages};
use crate::util::be64_bytes;
use crate::value::Json;

verus! {

/// The entries of the tree with the given root.
pub open spec fn entries_at(pages: Map<u64, Seq<u8>>, root: u64) -> Seq<Entry> {
    contents(tree_at(pages, root))
}

/// Every entry is a document with its identifier as key.
pub open spec fn documents_ok(pages: Map<u64, Seq<u8>>, entries: Seq<Entry>) -> bool {
    forall|i: int|
        0 <= i < entries.len() ==> (#[trigger] entries[i]).key.len() == 8 && record_ok(
            pages,
            entries[i].value,
        )
}

/// The documents by their identifiers.
pub open spec fn documents(pages: Map<u64, Seq<u8>>, entries: Seq<Entry>) -> Map<u64, Json> {
    Map::new(
        |id: u64| keys_of(entries).contains(be64_bytes(id)),
        |id: u64|
            record_json(pages, entries[keys_of(entries).index_of(be64_bytes(id))].value),
    )
}

/// All external pages of the documents.
pub open spec fn external_pages(pages: Map<u64, Seq<u8>>, entries: Seq<Entry>) -> Seq<u64>
    decreases entries.len(),
{
    if entries.len() == 0 {
        Seq::empty()
    } else {
        external_pages(pages, entries.drop_last()) + record_pages(pages, entries.last().value)
    }
}

/// The key of a document in an index, if it has one: the field is there, can be
/// a key, and the key fits into a node.
pub open spec fn index_key(steps: Seq<PathStep>, json: Json, id: u64) -> Option<Seq<u8>> {
    match lookup(steps, json) {
        Ok(value) => match encode(value, id) {
            Ok(key) => if key_ok(key) {
                Some(key)
            } else {
                None
            },
            Err(_) => None,
        },
        Err(_) => None,
    }
}

/// How many bytes of a node the documents take in an index. The value of an entry
/// there is the identifier of the document, which is its key here.
pub open spec fn index_bytes(
    pages: Map<u64, Seq<u8>>,
    entries: Seq<Entry>,
    steps: Seq<PathStep>,
) -> nat
    decreases entries.len(),
{
    if entries.len() == 0 {
        0
    } else {
        let last = entries.last();
        index_bytes(pages, entries.drop_last(), steps) + match index_key(
            steps,
            record_json(pages, last.value),
            be64(last.key),
        ) {
            Some(key) => entry_size(Entry { key, value: last.key }),
            None => 0,
        }
    }
}

/// The first documents take no more than all of them.
pub proof fn lemma_index_bytes(
    pages: Map<u64, Seq<u8>>,
    entries: Seq<Entry>,
    steps: Seq<PathStep>,
    k: int,
)
    requires
        0 <= k <= entries.len(),
    ensures
        index_bytes(pages, entries.take(k), steps) <= index_bytes(pages, entries, steps),
    decreases entries.len(),
{
    if k < entries.len() {
        assert(entries.drop_last().take(k) =~= entries.take(k));
        lemma_index_bytes(pages, entries.drop_last(), steps, k);
    } else {
        assert(entries.take(k) =~= entries);
    }
}

/// The document that a key of an index belongs to: its last eight bytes.
pub open spec fn key_document(key: Seq<u8>) -> u64 {
    be64(key.skip(key.len() - 8))
}

/// The key is that of a document.
pub open spec fn indexed(docs: Map<u64, Json>, steps: Seq<PathStep>, key: Seq<u8>) -> bool {
    let id = key_document(key);
    docs.contains_key(id) && index_key(steps, docs[id], id) == Some(key)
}

/// The index holds the keys of all documents and no others.
pub open spec fn index_ok(
    entries: Seq<Entry>,
    steps: Seq<PathStep>,
    docs: Map<u64, Json>,
) -> bool {
    &&& forall|key: Seq<u8>| #[trigger]
        keys_of(entries).contains(key) <==> indexed(docs, steps, key)
    &&& forall|i: int|
        0 <= i < entries.len() ==> (#[trigger] entries[i]).value == be64_bytes(
            key_document(entries[i].key),
        )
}

/// The place of a key among keys none of which occurs twice.
pub proof fn lemma_entry_at(entries: Seq<Entry>, i: int)
    requires
        ascending(keys_of(entries)),
        0 <= i < entries.len(),
    ensures
        keys_of(entries).contains(entries[i].key),
        keys_of(entries).index_of(entries[i].key) == i,
        rank(keys_of(entries), entries[i].key) == i,
{
    broadcast use group_lex_order;

    let keys = keys_of(entries);
    assert(keys[i] == entries[i].key);
    let j = keys.index_of(keys[i]);
    assert(keys[j] == keys[i]);
    if i < j {
        assert(lex_lt(keys[i], keys[j]));
    }
    if j < i {
        assert(lex_lt(keys[j], keys[i]));
    }
    lemma_rank_unique(keys, keys[i], i);
}

/// A key that is present stands at its rank.
pub proof fn lemma_entry_found(entries: Seq<Entry>, key: Seq<u8>)
    requires
        ascending(keys_of(entries)),
        keys_of(entries).contains(key),
    ensures
        0 <= rank(keys_of(entries), key) < entries.len(),
        entries[rank(keys_of(entries), key)].key == key,
        keys_of(entries).index_of(key) == rank(keys_of(entries), key),
{
    let i = keys_of(entries).index_of(key);
    assert(keys_of(entries)[i] == key);
    lemma_entry_at(entries, i);
}

/// The keys after an insertion.
pub proof fn lemma_keys_inserted(entries: Seq<Entry>, entry: Entry)
    requires
        ascending(keys_of(entries)),
        !keys_of(entries).contains(entry.key),
    ensures
        ({
            let at = rank(keys_of(entries), entry.key);
            let entries2 = entries.insert(at, entry);
            &&& 0 <= at <= entries.len()
            &&& ascending(keys_of(entries2))
            &&& forall|key: Seq<u8>| #[trigger]
                keys_of(entries2).contains(key) <==> keys_of(entries).contains(key) || key
                    == entry.key
        }),
{
    broadcast use group_lex_order;

    let keys = keys_of(entries);
    let at = rank(keys, entry.key);
    lemma_rank(keys, entry.key);
    let entries2 = entries.insert(at, entry);
    let keys2 = keys_of(entries2);
    assert(keys2 =~= keys.insert(at, entry.key));
    assert forall|i: int, j: int| 0 <= i < j < keys2.len() implies lex_lt(
        #[trigger] keys2[i],
        #[trigger] keys2[j],
    ) by {
        let i1 = if i < at {
            i
        } else {
            i - 1
        };
        let j1 = if j < at {
            j
        } else {
            j - 1
        };
        if i == at {
            assert(keys2[j] == keys[j1]);
            assert(keys.contains(keys[j1]));
        } else if j == at {
            assert(keys2[i] == keys[i1]);
        } else {
            assert(keys2[i] == keys[i1] && keys2[j] == keys[j1]);
        }
    }
    assert forall|key: Seq<u8>| #[trigger] keys2.contains(key) <==> keys.contains(key) || key
        == entry.key by {
        if keys.contains(key) {
            let i = keys.index_of(key);
            if i < at {
                assert(keys2[i] == key);
            } else {
                assert(keys2[i + 1] == key);
            }
        }
        if key == entry.key {
            assert(keys2[at] == key);
        }
        if keys2.contains(key) {
            let i = keys2.index_of(key);
            if i < at {
                assert(keys[i] == key);
            } else if i > at {
                assert(keys[i - 1] == key);
            }
        }
    }
}

/// The keys after a removal.
pub proof fn lemma_keys_removed(entries: Seq<Entry>, at: int)
    requires
        ascending(keys_of(entries)),
        0 <= at < entries.len(),
    ensures
        ascending(keys_of(entries.remove(at))),
        entries == entries.remove(at).insert(at, entries[at]),
        rank(keys_of(entries.remove(at)), entries[at].key) == at,
        forall|key: Seq<u8>| #[trigger]
            keys_of(entries.remove(at)).contains(key) <==> keys_of(entries).contains(key) && key
                != entries[at].key,
{
    broadcast use group_lex_order;

    let rest = entries.remove(at);
    let keys = keys_of(entries);
    let keys2 = keys_of(rest);
    assert(keys2 =~= keys.remove(at));
    assert(entries =~= rest.insert(at, entries[at]));
    assert forall|i: int, j: int| 0 <= i < j < keys2.len() implies lex_lt(
        #[trigger] keys2[i],
        #[trigger] keys2[j],
    ) by {
        let i1 = if i < at {
            i
        } else {
            i + 1
        };
        let j1 = if j < at {
            j
        } else {
            j + 1
        };
        assert(keys2[i] == keys[i1] && keys2[j] == keys[j1]);
    }
    lemma_entry_at(entries, at);
    assert forall|i: int| 0 <= i < at implies lex_lt(#[trigger] keys2[i], keys[at]) by {
        assert(keys2[i] == keys[i]);
    }
    assert forall|i: int| at <= i < keys2.len() implies !lex_lt(#[trigger] keys2[i], keys[at]) by {
        assert(keys2[i] == keys[i + 1]);
        assert(lex_lt(keys[at], keys[i + 1]));
    }
    lemma_rank_unique(keys2, keys[at], at);
    assert forall|key: Seq<u8>| #[trigger] keys2.contains(key) <==> keys.contains(key) && key
        != entries[at].key by {
        if keys2.contains(key) {
            let i = keys2.index_of(key);
            if i < at {
                assert(keys[i] == key && lex_lt(keys[i], keys[at]));
            } else {
                assert(keys[i + 1] == key && lex_lt(keys[at], keys[i + 1]));
            }
        }
        if keys.contains(key) && key != entries[at].key {
            let i = keys.index_of(key);
            if i < at {
                assert(keys2[i] == key);
            } else {
                assert(keys2[i - 1] == key);
            }
        }
    }
}

/// The external pages after an insertion.
pub proof fn lemma_external_inserted(
    pages: Map<u64, Seq<u8>>,
    entries: Seq<Entry>,
    at: int,
    entry: Entry,
    q: u64,
)
    requires
        0 <= at <= entries.len(),
    ensures
        occurs(external_pages(pages, entries.insert(at, entry)), q) == occurs(
            external_pages(pages, entries),
            q,
        ) + occurs(record_pages(pages, entry.value), q),
    decreases entries.len(),
{
    let entries2 = entries.insert(at, entry);
    lemma_occurs_concat(
        external_pages(pages, entries2.drop_last()),
        record_pages(pages, entries2.last().value),
        q,
    );
    if at == entries.len() {
        assert(entries2.drop_last() =~= entries);
    } else {
        assert(entries2.drop_last() =~= entries.drop_last().insert(at, entry));
        assert(entries2.last() == entries.last());
        lemma_external_inserted(pages, entries.drop_last(), at, entry, q);
        lemma_occurs_concat(
            external_pages(pages, entries.drop_last()),
            record_pages(pages, entries.last().value),
            q,
        );
    }
}

/// The external pages of one document are among those of all.
pub proof fn lemma_external_at(pages: Map<u64, Seq<u8>>, entries: Seq<Entry>, i: int)
    requires
        0 <= i < entries.len(),
    ensures
        forall|q: u64|
            record_pages(pages, entries[i].value).contains(q) ==> #[trigger] occurs(
                external_pages(pages, entries),
                q,
            ) > 0,
{
    let rest = entries.remove(i);
    assert(entries =~= rest.insert(i, entries[i]));
    let list = record_pages(pages, entries[i].value);
    assert forall|q: u64| list.contains(q) implies #[trigger] occurs(
        external_pages(pages, entries),
        q,
    ) > 0 by {
        lemma_external_inserted(pages, rest, i, entries[i], q);
        lemma_occurs_at(list, list.index_of(q));
    }
}

proof fn lemma_external_frame(
    pages: Map<u64, Seq<u8>>,
    pages2: Map<u64, Seq<u8>>,
    entries: Seq<Entry>,
)
    requires
        forall|i: int|
            0 <= i < entries.len() ==> record_pages(pages2, (#[trigger] entries[i]).value)
                == record_pages(pages, entries[i].value),
    ensures
        external_pages(pages2, entries) == external_pages(pages, entries),
    decreases entries.len(),
{
    if entries.len() > 0 {
        assert forall|i: int| 0 <= i < entries.drop_last().len() implies record_pages(
            pages2,
            (#[trigger] entries.drop_last()[i]).value,
        ) == record_pages(pages, entries.drop_last()[i].value) by {
            assert(entries.drop_last()[i] == entries[i]);
        }
        lemma_external_frame(pages, pages2, entries.drop_last());
        assert(entries[entries.len() - 1] == entries.last());
    }
}

/// Documents are the same in pages that agree on their external pages.
pub proof fn lemma_documents_frame(
    pages: Map<u64, Seq<u8>>,
    pages2: Map<u64, Seq<u8>>,
    entries: Seq<Entry>,
)
    requires
        documents_ok(pages, entries),
        forall|q: u64| #[trigger]
            occurs(external_pages(pages, entries), q) > 0 ==> pages2[q] == pages[q],
    ensures
        documents_ok(pages2, entries),
        documents(pages2, entries) == documents(pages, entries),
        external_pages(pages2, entries) == external_pages(pages, entries),
        forall|i: int|
            0 <= i < entries.len() ==> record_json(pages2, (#[trigger] entries[i]).value)
                == record_json(pages, entries[i].value) && record_pages(pages2, entries[i].value)
                == record_pages(pages, entries[i].value),
{
    assert forall|i: int| 0 <= i < entries.len() implies record_ok(
        pages2,
        (#[trigger] entries[i]).value,
    ) && record_json(pages2, entries[i].value) == record_json(pages, entries[i].value)
        && record_pages(pages2, entries[i].value) == record_pages(pages, entries[i].value) by {
        lemma_external_at(pages, entries, i);
        assert forall|q: u64|
            record_pages(pages, entries[i].value).contains(q) implies #[trigger] pages2[q]
            == pages[q] by {
            assert(occurs(external_pages(pages, entries), q) > 0);
        }
        lemma_record_frame(pages, pages2, entries[i].value);
    }
    lemma_external_frame(pages, pages2, entries);
    assert forall|id: u64| documents(pages, entries).contains_key(id) implies #[trigger] documents(
        pages2,
        entries,
    )[id] == documents(pages, entries)[id] by {
        let i = keys_of(entries).index_of(be64_bytes(id));
        assert(0 <= i < entries.len());
        assert(record_json(pages2, entries[i].value) == record_json(pages, entries[i].value));
    }
    assert(documents(pages2, entries) =~= documents(pages, entries));
}

/// The documents after an insertion.
pub proof fn lemma_documents_inserted(pages: Map<u64, Seq<u8>>, entries: Seq<Entry>, entry: Entry)
    requires
        ascending(keys_of(entries)),
        !keys_of(entries).contains(entry.key),
        entry.key.len() == 8,
    ensures
        ({
            let entries2 = entries.insert(rank(keys_of(entries), entry.key), entry);
            &&& documents(pages, entries2) == documents(pages, entries).insert(
                be64(entry.key),
                record_json(pages, entry.value),
            )
            &&& documents_ok(pages, entries) && record_ok(pages, entry.value) ==> documents_ok(
                pages,
                entries2,
            )
        }),
{
    lemma_keys_inserted(entries, entry);
    lemma_be64_inverse(entry.key);
    let at = rank(keys_of(entries), entry.key);
    let entries2 = entries.insert(at, entry);
    let docs = documents(pages, entries);
    let docs2 = documents(pages, entries2);
    let want = docs.insert(be64(entry.key), record_json(pages, entry.value));
    assert forall|id: u64| #[trigger] docs2.contains_key(id) <==> want.contains_key(id) by {
        lemma_be64(id);
        assert(keys_of(entries2).contains(be64_bytes(id)) <==> keys_of(entries).contains(
            be64_bytes(id),
        ) || be64_bytes(id) == entry.key);
    }
    assert forall|id: u64| docs2.contains_key(id) implies #[trigger] docs2[id] == want[id] by {
        let key = be64_bytes(id);
        lemma_be64(id);
        assert(keys_of(entries2).contains(key));
        if key == entry.key {
            assert(entries2[at] == entry);
            lemma_entry_at(entries2, at);
        } else {
            let i = keys_of(entries).index_of(key);
            assert(keys_of(entries)[i] == key);
            let j = if i < at {
                i
            } else {
                i + 1
            };
            assert(entries2[j] == entries[i]);
            lemma_entry_at(entries2, j);
            if id == be64(entry.key) {
                assert(false);
            }
        }
    }
    assert(docs2 =~= want);
    if documents_ok(pages, entries) && record_ok(pages, entry.value) {
        assert forall|i: int| 0 <= i < entries2.len() implies (#[trigger] entries2[i]).key.len()
            == 8 && record_ok(pages, entries2[i].value) by {
            if i < at {
                assert(entries2[i] == entries[i]);
            } else if i > at {
                assert(entries2[i] == entries[i - 1]);
            }
        }
    }
}

/// The documents after a removal.
pub proof fn lemma_documents_removed(pages: Map<u64, Seq<u8>>, entries: Seq<Entry>, at: int)
    requires
        ascending(keys_of(entries)),
        documents_ok(pages, entries),
        0 <= at < entries.len(),
    ensures
        documents(pages, entries.remove(at)) == documents(pages, entries).remove(
            be64(entries[at].key),
        ),
        documents_ok(pages, entries.remove(at)),
        documents(pages, entries).contains_key(be64(entries[at].key)),
        documents(pages, entries)[be64(entries[at].key)] == record_json(pages, entries[at].value),
{
    let rest = entries.remove(at);
    let id = be64(entries[at].key);
    lemma_keys_removed(entries, at);
    lemma_entry_at(entries, at);
    lemma_be64_inverse(entries[at].key);
    lemma_documents_inserted(pages, rest, entries[at]);
    let docs = documents(pages, entries);
    let docs2 = documents(pages, rest);
    assert(!docs2.contains_key(id));
    assert(docs2 =~= docs.remove(id));
    assert forall|i: int| 0 <= i < rest.len() implies (#[trigger] rest[i]).key.len() == 8
        && record_ok(pages, rest[i].value) by {
        if i < at {
            assert(rest[i] == entries[i]);
        } else {
            assert(rest[i] == entries[i + 1]);
        }
    }
}

/// What is known of the key of a document.
pub proof fn lemma_index_key(steps: Seq<PathStep>, json: Json, id: u64)
    ensures
        index_key(steps, json, id) matches Some(key) ==> key_document(key) == id && key_ok(key),
{
    match lookup(steps, json) {
        Ok(value) => {
            if encode(value, id) is Ok {
                lemma_key_document(value, id);
                lemma_be64(id);
            }
        },
        Err(_) => {},
    }
}

/// A document without a key changes nothing in an index.
pub proof fn lemma_index_skipped(
    entries: Seq<Entry>,
    steps: Seq<PathStep>,
    docs: Map<u64, Json>,
    id: u64,
    json: Json,
)
    requires
        index_ok(entries, steps, docs),
        !docs.contains_key(id),
        index_key(steps, json, id) is None,
    ensures
        index_ok(entries, steps, docs.insert(id, json)),
{
    let docs2 = docs.insert(id, json);
    assert forall|key: Seq<u8>| #[trigger] keys_of(entries).contains(key) <==> indexed(
        docs2,
        steps,
        key,
    ) by {
        assert(keys_of(entries).contains(key) <==> indexed(docs, steps, key));
    }
}

/// The key of a new document is not in an index, and is there once it was inserted.
pub proof fn lemma_index_inserted(
    entries: Seq<Entry>,
    steps: Seq<PathStep>,
    docs: Map<u64, Json>,
    id: u64,
    json: Json,
)
    requires
        ascending(keys_of(entries)),
        index_ok(entries, steps, docs),
        !docs.contains_key(id),
        index_key(steps, json, id) is Some,
    ensures
        ({
            let key = index_key(steps, json, id)->Some_0;
            &&& !keys_of(entries).contains(key)
            &&& index_ok(
                entries.insert(
                    rank(keys_of(entries), key),
                    Entry { key, value: be64_bytes(id) },
                ),
                steps,
                docs.insert(id, json),
            )
        }),
{
    let key0 = index_key(steps, json, id)->Some_0;
    let entry = Entry { key: key0, value: be64_bytes(id) };
    let docs2 = docs.insert(id, json);
    lemma_index_key(steps, json, id);
    assert(!keys_of(entries).contains(key0));
    lemma_keys_inserted(entries, entry);
    let at = rank(keys_of(entries), key0);
    let entries2 = entries.insert(at, entry);
    assert forall|key: Seq<u8>| #[trigger] keys_of(entries2).contains(key) <==> indexed(
        docs2,
        steps,
        key,
    ) by {
        assert(keys_of(entries).contains(key) <==> indexed(docs, steps, key));
    }
    assert forall|i: int| 0 <= i < entries2.len() implies (#[trigger] entries2[i]).value
        == be64_bytes(key_document(entries2[i].key)) by {
        if i < at {
            assert(entries2[i] == entries[i]);
        } else if i > at {
            assert(entries2[i] == entries[i - 1]);
        }
    }
}

/// An index after a document was removed, and its key with it.
pub proof fn lemma_index_removed(
    entries: Seq<Entry>,
    steps: Seq<PathStep>,
    docs: Map<u64, Json>,
    id: u64,
)
    requires
        ascending(keys_of(entries)),
        index_ok(entries, steps, docs),
        docs.contains_key(id),
    ensures
        match index_key(steps, docs[id], id) {
            Some(key) => keys_of(entries).contains(key) && index_ok(
                entries.remove(rank(keys_of(entries), key)),
                steps,
                docs.remove(id),
            ),
            None => index_ok(entries, steps, docs.remove(id)),
        },
{
    let docs2 = docs.remove(id);
    lemma_index_key(steps, docs[id], id);
    match index_key(steps, docs[id], id) {
        Some(key0) => {
            assert(indexed(docs, steps, key0));
            assert(keys_of(entries).contains(key0));
            lemma_entry_found(entries, key0);
            let at = rank(keys_of(entries), key0);
            let entries2 = entries.remove(at);
            lemma_keys_removed(entries, at);
            assert forall|key: Seq<u8>| #[trigger] keys_of(entries2).contains(key) <==> indexed(
                docs2,
                steps,
                key,
            ) by {
                assert(keys_of(entries).contains(key) <==> indexed(docs, steps, key));
            }
            assert forall|i: int| 0 <= i < entries2.len() implies (#[trigger] entries2[i]).value
                == be64_bytes(key_document(entries2[i].key)) by {
                if i < at {
                    assert(entries2[i] == entries[i]);
                } else {
                    assert(entries2[i] == entries[i + 1]);
                }
            }
        },
        None => {
            assert forall|key: Seq<u8>| #[trigger] keys_of(entries).contains(key) <==> indexed(
                docs2,
                steps,
                key,
            ) by {
                assert(keys_of(entries).contains(key) <==> indexed(docs, steps, key));
            }
        },
    }
}

} // verus!
