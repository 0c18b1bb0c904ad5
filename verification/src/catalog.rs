//! The collections of a database on disk: one of them, the catalog, has a
//! document for each of the others that describes it. None of them has a page in
//! common with another one.

use vstd::prelude::*;

use crate::btree::{has_tree, tree_at};
use crate::btree_model::forest_count;
use crate::collection::{lemma_total_height_frame, lemma_tree_entries, total_height, Collection};
use crate::documents::{index_ok, lemma_documents_frame, lemma_entry_found};
use crate::layout::{
    elsewhere, kept, layout, lemma_trees_same, occurs, pages_used, spared, trees_at,
};
use crate::metadata::{describes, lemma_same_description, next_id};
use crate::needs::same_parts;
use crate::page_allocator::{FreePages, FIRST_FREE_PAGE};
use crate::util::be64_bytes;
use crate::value::{field_of, Json};

verus! {

/// The identifiers of a collection leave room for another one.
pub open spec fn ids_fit(c: Collection, pages: Map<u64, Seq<u8>>) -> bool {
    next_id(pages, c.document_tree.root()) <= u64::MAX
}

/// The collection that a value describes is there.
pub open spec fn is_stored(json: Json, pages: Map<u64, Seq<u8>>, free: FreePages) -> bool {
    &&& field_of(json, "name"@) matches Some(Json::String(_))
    &&& exists|c: Collection| #[trigger]
        describes(json, c) && c.inv(pages, free) && ids_fit(c, pages)
}

/// How often the collection that a value describes uses a page.
pub open spec fn described_uses(json: Json, pages: Map<u64, Seq<u8>>, q: u64) -> nat {
    (choose|c: Collection| #[trigger] describes(json, c)).uses(pages, q)
}

/// The catalog and the collections that are described by `descriptions` are all
/// there, without common pages.
pub open spec fn parts_ok(
    meta: Collection,
    descriptions: Map<u64, Json>,
    pages: Map<u64, Seq<u8>>,
    free: FreePages,
) -> bool {
    &&& meta.inv(pages, free)
    &&& forall|id: u64| #[trigger]
        descriptions.contains_key(id) ==> is_stored(descriptions[id], pages, free)
    &&& forall|id: u64, q: u64|
        descriptions.contains_key(id) && #[trigger] described_uses(descriptions[id], pages, q) > 0
            ==> meta.uses(pages, q) == 0
    &&& forall|a: u64, b: u64, q: u64|
        #![trigger described_uses(descriptions[a], pages, q), descriptions.contains_key(b)]
        descriptions.contains_key(a) && descriptions.contains_key(b) && a != b && described_uses(
            descriptions[a],
            pages,
            q,
        ) > 0 ==> described_uses(descriptions[b], pages, q) == 0
}

/// All that is described uses the same pages, whoever looks.
pub proof fn lemma_described_uses(json: Json, c: Collection, pages: Map<u64, Seq<u8>>)
    requires
        describes(json, c),
    ensures
        forall|q: u64| #[trigger] described_uses(json, pages, q) == c.uses(pages, q),
{
    let other = choose|c: Collection| #[trigger] describes(json, c);
    lemma_same_description(json, c, other);
    assert(other.docs(pages) == c.docs(pages));
}

/// A collection is the same in pages that agree on all that it uses.
pub proof fn lemma_collection_frame(
    c: Collection,
    pages: Map<u64, Seq<u8>>,
    free: FreePages,
    pages2: Map<u64, Seq<u8>>,
    free2: FreePages,
)
    requires
        c.inv(pages, free),
        forall|q: u64| #[trigger]
            c.uses(pages, q) > 0 ==> pages2[q] == pages[q] && free2.in_use(q),
    ensures
        c.inv(pages2, free2),
        c.entries(pages2) == c.entries(pages),
        c.docs(pages2) == c.docs(pages),
        c.external(pages2) == c.external(pages),
        same_parts(c, pages, pages2),
        forall|q: u64| #[trigger] c.uses(pages2, q) == c.uses(pages, q),
        total_height(pages2, c.roots()) == total_height(pages, c.roots()),
        ids_fit(c, pages) ==> ids_fit(c, pages2),
        forall|i: int|
            0 <= i < c.indices@.len() ==> #[trigger] c.index_entries(pages2, i) == c.index_entries(
                pages,
                i,
            ),
{
    let roots = c.roots();
    let ext = c.external(pages);
    assert forall|q: u64| forest_count(trees_at(pages, roots), q)
        > 0 implies #[trigger] pages2[q] == pages[q] by {
        assert(c.uses(pages, q) > 0);
    }
    lemma_trees_same(pages, pages2, free, roots, ext);
    assert(roots[0] == c.document_tree.root());
    assert(c.entries(pages2) == c.entries(pages));
    assert forall|q: u64| #[trigger] occurs(ext, q) > 0 implies pages2[q] == pages[q] by {
        assert(c.uses(pages, q) > 0);
    }
    lemma_documents_frame(pages, pages2, c.entries(pages));
    assert forall|q: u64| #[trigger] pages_used(pages2, roots, ext, q) == pages_used(
        pages,
        roots,
        ext,
        q,
    ) by {}
    assert forall|q: u64| #[trigger] pages_used(pages2, roots, ext, q) <= 1 && (pages_used(
        pages2,
        roots,
        ext,
        q,
    ) > 0 ==> free2.in_use(q) && (q >= FIRST_FREE_PAGE || (roots.len() > 0 && q == roots[0]))) by {
        assert(pages_used(pages, roots, ext, q) <= 1);
        assert(c.uses(pages, q) == pages_used(pages, roots, ext, q));
    }
    assert(layout(pages2, free2, roots, ext));
    assert forall|i: int| 0 <= i < c.indices@.len() implies index_ok(
        #[trigger] c.index_entries(pages2, i),
        c.indices@[i].field@,
        c.docs(pages2),
    ) && c.index_entries(pages2, i) == c.index_entries(pages, i) by {
        assert(roots[i + 1] == c.indices@[i].btree.root());
        assert(tree_at(pages2, roots[i + 1]) == tree_at(pages, roots[i + 1]));
        assert(index_ok(c.index_entries(pages, i), c.indices@[i].field@, c.docs(pages)));
    }
    lemma_total_height_frame(pages, pages2, roots);
    let entries = c.entries(pages);
    assert(has_tree(pages, roots[0]));
    lemma_tree_entries(pages, roots[0]);
    assert forall|id: u64| #[trigger] c.docs(pages).contains_key(id) implies c.stored_pages(
        pages2,
        id,
    ) == c.stored_pages(pages, id) by {
        lemma_entry_found(entries, be64_bytes(id));
    }
    reveal(same_parts);
}

/// What a collection uses is in use.
proof fn lemma_uses_in_use(c: Collection, pages: Map<u64, Seq<u8>>, free: FreePages, q: u64)
    requires
        c.inv(pages, free),
        c.uses(pages, q) > 0,
    ensures
        free.in_use(q),
{
    assert(pages_used(pages, c.roots(), c.external(pages), q) > 0);
}

/// A collection that has no page in common with some trees and single pages is
/// the same after these have become another collection, and still has none in
/// common with it.
pub proof fn lemma_bystander(
    o: Collection,
    pages: Map<u64, Seq<u8>>,
    free: FreePages,
    pages2: Map<u64, Seq<u8>>,
    free2: FreePages,
    roots: Seq<u64>,
    extra: Seq<u64>,
    after: Collection,
)
    requires
        o.inv(pages, free),
        spared(pages, free, roots, extra, pages2, free2, after.roots(), after.external(pages2)),
        forall|q: u64| #[trigger] o.uses(pages, q) > 0 ==> pages_used(pages, roots, extra, q) == 0,
    ensures
        o.inv(pages2, free2),
        o.entries(pages2) == o.entries(pages),
        o.docs(pages2) == o.docs(pages),
        o.external(pages2) == o.external(pages),
        same_parts(o, pages, pages2),
        forall|q: u64| #[trigger] o.uses(pages2, q) == o.uses(pages, q),
        forall|q: u64| #[trigger] o.uses(pages2, q) > 0 ==> after.uses(pages2, q) == 0,
        total_height(pages2, o.roots()) == total_height(pages, o.roots()),
        ids_fit(o, pages) ==> ids_fit(o, pages2),
{
    assert forall|q: u64| #[trigger] o.uses(pages, q) > 0 implies pages2[q] == pages[q]
        && free2.in_use(q) && after.uses(pages2, q) == 0 by {
        lemma_uses_in_use(o, pages, free, q);
        assert(elsewhere(pages, free, roots, extra, q));
        assert(elsewhere(pages2, free2, after.roots(), after.external(pages2), q));
    }
    lemma_collection_frame(o, pages, free, pages2, free2);
}

/// From what is kept to what is spared.
pub proof fn lemma_kept_spared(
    pages: Map<u64, Seq<u8>>,
    free: FreePages,
    roots: Seq<u64>,
    extra: Seq<u64>,
    pages2: Map<u64, Seq<u8>>,
    free2: FreePages,
    roots2: Seq<u64>,
    extra2: Seq<u64>,
)
    requires
        kept(pages, free, roots, extra, pages2, free2, roots2, extra2),
    ensures
        spared(pages, free, roots, extra, pages2, free2, roots2, extra2),
{
    assert forall|q: u64| #[trigger] elsewhere(pages, free, roots, extra, q) implies elsewhere(
        pages2,
        free2,
        roots2,
        extra2,
        q,
    ) && pages2[q] == pages[q] by {
        assert(elsewhere(pages2, free2, roots2, extra2, q) == elsewhere(
            pages,
            free,
            roots,
            extra,
            q,
        ));
    }
}

/// A collection is there if what describes it says so.
pub proof fn lemma_stored(json: Json, c: Collection, pages: Map<u64, Seq<u8>>, free: FreePages)
    requires
        is_stored(json, pages, free),
        describes(json, c),
        c.fields_ok(),
    ensures
        c.inv(pages, free),
        ids_fit(c, pages),
{
    let other = choose|o: Collection| #[trigger]
        describes(json, o) && o.inv(pages, free) && ids_fit(o, pages);
    lemma_same_description(json, other, c);
    assert(other.roots()[0] == c.roots()[0]);
}

/// One collection was changed, or a new one was added. Before that it had the
/// given trees and single pages.
pub proof fn lemma_parts_changed(
    meta: Collection,
    descriptions: Map<u64, Json>,
    pages: Map<u64, Seq<u8>>,
    free: FreePages,
    pages2: Map<u64, Seq<u8>>,
    free2: FreePages,
    id: u64,
    roots: Seq<u64>,
    extra: Seq<u64>,
    after: Collection,
    json: Json,
)
    requires
        parts_ok(meta, descriptions, pages, free),
        descriptions.contains_key(id) ==> forall|q: u64| #[trigger]
            described_uses(descriptions[id], pages, q) == pages_used(pages, roots, extra, q),
        !descriptions.contains_key(id) ==> forall|q: u64| #[trigger]
            pages_used(pages, roots, extra, q) == 0,
        spared(pages, free, roots, extra, pages2, free2, after.roots(), after.external(pages2)),
        after.inv(pages2, free2),
        ids_fit(after, pages2),
        describes(json, after),
        field_of(json, "name"@) matches Some(Json::String(_)),
    ensures
        parts_ok(meta, descriptions.insert(id, json), pages2, free2),
        meta.entries(pages2) == meta.entries(pages),
        meta.docs(pages2) == meta.docs(pages),
        meta.external(pages2) == meta.external(pages),
        same_parts(meta, pages, pages2),
        total_height(pages2, meta.roots()) == total_height(pages, meta.roots()),
        ids_fit(meta, pages) ==> ids_fit(meta, pages2),
        forall|other: u64, o: Collection|
            #![trigger describes(descriptions[other], o)]
            descriptions.contains_key(other) && other != id && describes(descriptions[other], o)
                && o.fields_ok() ==> o.docs(pages2) == o.docs(pages) && o.inv(pages, free)
                && o.entries(pages2) == o.entries(pages),
{
    let descriptions2 = descriptions.insert(id, json);
    // The catalog
    assert forall|q: u64| #[trigger] meta.uses(pages, q) > 0 implies pages_used(
        pages,
        roots,
        extra,
        q,
    ) == 0 by {
        if descriptions.contains_key(id) {
            assert(described_uses(descriptions[id], pages, q) == pages_used(
                pages,
                roots,
                extra,
                q,
            ));
        }
    }
    lemma_bystander(meta, pages, free, pages2, free2, roots, extra, after);
    // The other collections
    assert forall|other: u64, o: Collection|
        #![trigger describes(descriptions[other], o)]
        descriptions.contains_key(other) && other != id && describes(descriptions[other], o)
            && o.fields_ok() implies o.docs(pages2) == o.docs(pages) && o.inv(pages, free)
        && o.entries(pages2) == o.entries(pages) && o.inv(pages2, free2) && ids_fit(o, pages2) && (
    forall|q: u64| #[trigger] o.uses(pages2, q) == o.uses(pages, q)) && (forall|q: u64| #[trigger]
        o.uses(pages2, q) > 0 ==> after.uses(pages2, q) == 0) by {
        lemma_stored(descriptions[other], o, pages, free);
        lemma_described_uses(descriptions[other], o, pages);
        assert forall|q: u64| #[trigger] o.uses(pages, q) > 0 implies pages_used(
            pages,
            roots,
            extra,
            q,
        ) == 0 by {
            assert(described_uses(descriptions[other], pages, q) > 0);
            if descriptions.contains_key(id) {
                assert(described_uses(descriptions[id], pages, q) == 0);
            }
        }
        lemma_bystander(o, pages, free, pages2, free2, roots, extra, after);
    }
    assert forall|other: u64| #[trigger] descriptions2.contains_key(other) implies is_stored(
        descriptions2[other],
        pages2,
        free2,
    ) by {
        if other != id {
            assert(descriptions.contains_key(other));
            let o = choose|o: Collection| #[trigger]
                describes(descriptions[other], o) && o.inv(pages, free) && ids_fit(o, pages);
            assert(describes(descriptions[other], o));
        }
    }
    lemma_described_uses(json, after, pages2);
    assert forall|other: u64, q: u64|
        #![trigger described_uses(descriptions2[other], pages2, q)]
        descriptions2.contains_key(other) && other != id implies described_uses(
        descriptions2[other],
        pages2,
        q,
    ) == described_uses(descriptions[other], pages, q) && (described_uses(
        descriptions2[other],
        pages2,
        q,
    ) > 0 ==> after.uses(pages2, q) == 0) by {
        assert(descriptions.contains_key(other));
        let o = choose|o: Collection| #[trigger]
            describes(descriptions[other], o) && o.inv(pages, free) && ids_fit(o, pages);
        assert(describes(descriptions[other], o));
        lemma_described_uses(descriptions[other], o, pages);
        lemma_described_uses(descriptions[other], o, pages2);
        assert(o.uses(pages2, q) == o.uses(pages, q));
    }
    assert forall|other: u64, q: u64|
        descriptions2.contains_key(other) && #[trigger] described_uses(
            descriptions2[other],
            pages2,
            q,
        ) > 0 implies meta.uses(pages2, q) == 0 by {
        assert(meta.uses(pages2, q) == meta.uses(pages, q));
        if other != id {
            assert(descriptions.contains_key(other));
            assert(described_uses(descriptions[other], pages, q) > 0);
        } else {
            assert(after.uses(pages2, q) > 0);
        }
    }
    assert forall|a: u64, b: u64, q: u64|
        #![trigger described_uses(descriptions2[a], pages2, q), descriptions2.contains_key(b)]
        descriptions2.contains_key(a) && descriptions2.contains_key(b) && a != b && described_uses(
            descriptions2[a],
            pages2,
            q,
        ) > 0 implies described_uses(descriptions2[b], pages2, q) == 0 by {
        if a == id {
            assert(descriptions.contains_key(b));
            assert(after.uses(pages2, q) > 0);
            assert(described_uses(descriptions2[b], pages2, q) == described_uses(
                descriptions[b],
                pages,
                q,
            ));
        } else if b == id {
            assert(after.uses(pages2, q) == 0);
        } else {
            assert(descriptions.contains_key(a) && descriptions.contains_key(b));
            assert(described_uses(descriptions[a], pages, q) > 0);
            assert(described_uses(descriptions[b], pages, q) == 0);
            assert(described_uses(descriptions2[b], pages2, q) == described_uses(
                descriptions[b],
                pages,
                q,
            ));
        }
    }
}

/// The catalog itself was changed.
pub proof fn lemma_parts_recorded(
    meta: Collection,
    meta2: Collection,
    descriptions: Map<u64, Json>,
    pages: Map<u64, Seq<u8>>,
    free: FreePages,
    pages2: Map<u64, Seq<u8>>,
    free2: FreePages,
)
    requires
        parts_ok(meta, descriptions, pages, free),
        meta.spares(pages, free, meta2, pages2, free2),
        meta2.inv(pages2, free2),
    ensures
        parts_ok(meta2, descriptions, pages2, free2),
        forall|other: u64, o: Collection|
            #![trigger describes(descriptions[other], o)]
            descriptions.contains_key(other) && describes(descriptions[other], o)
                && o.fields_ok() ==> o.docs(pages2) == o.docs(pages) && o.inv(pages, free)
                && o.entries(pages2) == o.entries(pages),
{
    let roots = meta.roots();
    let extra = meta.external(pages);
    lemma_kept_spared(
        pages,
        free,
        roots,
        extra,
        pages2,
        free2,
        meta2.roots(),
        meta2.external(pages2),
    );
    assert forall|other: u64, o: Collection|
        #![trigger describes(descriptions[other], o)]
        descriptions.contains_key(other) && describes(descriptions[other], o)
            && o.fields_ok() implies o.docs(pages2) == o.docs(pages) && o.inv(pages, free)
        && o.entries(pages2) == o.entries(pages) && o.inv(pages2, free2) && ids_fit(o, pages2) && (
    forall|q: u64| #[trigger] o.uses(pages2, q) == o.uses(pages, q)) && (forall|q: u64| #[trigger]
        o.uses(pages2, q) > 0 ==> meta2.uses(pages2, q) == 0) by {
        lemma_stored(descriptions[other], o, pages, free);
        lemma_described_uses(descriptions[other], o, pages);
        assert forall|q: u64| #[trigger] o.uses(pages, q) > 0 implies pages_used(
            pages,
            roots,
            extra,
            q,
        ) == 0 by {
            assert(described_uses(descriptions[other], pages, q) > 0);
            assert(meta.uses(pages, q) == 0);
        }
        lemma_bystander(o, pages, free, pages2, free2, roots, extra, meta2);
    }
    assert forall|other: u64| #[trigger] descriptions.contains_key(other) implies is_stored(
        descriptions[other],
        pages2,
        free2,
    ) by {
        let o = choose|o: Collection| #[trigger]
            describes(descriptions[other], o) && o.inv(pages, free) && ids_fit(o, pages);
        assert(describes(descriptions[other], o));
    }
    assert forall|other: u64, q: u64|
        #![trigger described_uses(descriptions[other], pages2, q)]
        descriptions.contains_key(other) implies described_uses(descriptions[other], pages2, q)
        == described_uses(descriptions[other], pages, q) && (described_uses(
        descriptions[other],
        pages2,
        q,
    ) > 0 ==> meta2.uses(pages2, q) == 0) by {
        let o = choose|o: Collection| #[trigger]
            describes(descriptions[other], o) && o.inv(pages, free) && ids_fit(o, pages);
        assert(describes(descriptions[other], o));
        lemma_described_uses(descriptions[other], o, pages);
        lemma_described_uses(descriptions[other], o, pages2);
        assert(o.uses(pages2, q) == o.uses(pages, q));
    }
    assert forall|a: u64, b: u64, q: u64|
        #![trigger described_uses(descriptions[a], pages2, q), descriptions.contains_key(b)]
        descriptions.contains_key(a) && descriptions.contains_key(b) && a != b && described_uses(
            descriptions[a],
            pages2,
            q,
        ) > 0 implies described_uses(descriptions[b], pages2, q) == 0 by {
        assert(described_uses(descriptions[a], pages2, q) == described_uses(
            descriptions[a],
            pages,
            q,
        ));
        assert(described_uses(descriptions[b], pages2, q) == described_uses(
            descriptions[b],
            pages,
            q,
        ));
        assert(described_uses(descriptions[b], pages, q) == 0);
    }
}

} // verus!
