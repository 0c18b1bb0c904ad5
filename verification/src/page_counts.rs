//! How many pages are in use, and what for.

use vstd::prelude::*;

use crate::btree::{has_tree, is_tree, tree_at, tree_owned};
use crate::btree_model::{
    contents, count, forest_count, forest_size, law_empty_tree_is_one_page, lemma_forest_one, size,
    tree_pages, Tree,
};
use crate::btree_node::keys_of;
use crate::btree_place::{evolves, outside};
use crate::collection::Collection;
use crate::documents::index_ok;
use crate::key_encoding::{be64, lemma_be64_inverse};
use crate::layout::{elsewhere, layout, occurs, pages_used, trees_at};
use crate::page_allocator::{FreePages, PageAllocator};
use crate::page_cache::LOG_PAGES;
use crate::value::Json;

verus! {

/// The pages that are in use.
pub open spec fn pages_in_use(free: FreePages) -> Set<u64> {
    Set::new(|q: u64| free.in_use(q))
}

/// The pages of several trees.
pub open spec fn forest_pages(ts: Seq<Tree>) -> Set<u64> {
    Set::new(|q: u64| forest_count(ts, q) > 0)
}

proof fn lemma_range(lo: u64, hi: u64)
    requires
        lo <= hi,
    ensures
        Set::new(|q: u64| lo <= q < hi).finite(),
        Set::new(|q: u64| lo <= q < hi).len() == hi - lo,
    decreases hi - lo,
{
    let range = Set::new(|q: u64| lo <= q < hi);
    if lo == hi {
        assert(range =~= Set::empty());
    } else {
        let last = (hi - 1) as u64;
        lemma_range(lo, last);
        assert(range =~= Set::new(|q: u64| lo <= q < last).insert(last));
    }
}

/// The number of pages in use is what the list and the frontier say.
pub proof fn lemma_in_use(free: FreePages)
    requires
        free.wf(),
    ensures
        pages_in_use(free).finite(),
        pages_in_use(free).len() == free.used(),
    decreases free.list.len(),
{
    if free.list.len() == 0 {
        let first = (LOG_PAGES + 1) as u64;
        lemma_range(first, free.frontier);
        assert(pages_in_use(free) =~= Set::new(|q: u64| first <= q < free.frontier));
    } else {
        let head = free.list[0];
        let rest = FreePages { list: free.list.skip(1), ..free };
        assert(!rest.list.contains(head));
        assert forall|q: u64| #[trigger] free.in_use(q) == (rest.in_use(q) && q != head) by {
            if rest.list.contains(q) {
                assert(free.list[rest.list.index_of(q) + 1] == q);
            }
            if free.list.contains(q) && q != head {
                assert(rest.list[free.list.index_of(q) - 1] == q);
            }
            assert(free.list.contains(head));
        }
        lemma_in_use(rest);
        assert(rest.in_use(head));
        assert(pages_in_use(free) =~= pages_in_use(rest).remove(head));
    }
}

/// A tree has as many pages as nodes.
pub proof fn lemma_tree_len(t: Tree)
    requires
        forall|q: u64| #[trigger] count(t, q) <= 1,
    ensures
        tree_pages(t).finite(),
        tree_pages(t).len() == size(t),
    decreases t,
{
    match t {
        Tree::Leaf { page, .. } => {
            assert(tree_pages(t) =~= Set::empty().insert(page));
        },
        Tree::Inner { page, kids, .. } => {
            assert forall|q: u64| #[trigger] forest_count(kids, q) <= 1 by {
                assert(count(t, q) <= 1);
            }
            lemma_forest_len(kids);
            assert(count(t, page) <= 1);
            assert(tree_pages(t) =~= forest_pages(kids).insert(page));
        },
    }
}

pub proof fn lemma_forest_len(ts: Seq<Tree>)
    requires
        forall|q: u64| #[trigger] forest_count(ts, q) <= 1,
    ensures
        forest_pages(ts).finite(),
        forest_pages(ts).len() == forest_size(ts),
    decreases ts,
{
    if ts.len() == 0 {
        assert(forest_pages(ts) =~= Set::empty());
    } else {
        let front = ts.drop_last();
        let last = ts.last();
        assert forall|q: u64| #[trigger] forest_count(front, q) <= 1 by {
            assert(forest_count(ts, q) <= 1);
        }
        assert forall|q: u64| #[trigger] count(last, q) <= 1 by {
            assert(forest_count(ts, q) <= 1);
        }
        lemma_forest_len(front);
        lemma_tree_len(last);
        assert forall|q: u64| !(#[trigger] forest_pages(front).contains(q) && tree_pages(
            last,
        ).contains(q)) by {
            assert(forest_count(ts, q) <= 1);
        }
        assert(forest_pages(ts) =~= forest_pages(front) + tree_pages(last));
        vstd::set_lib::lemma_set_disjoint_lens(forest_pages(front), tree_pages(last));
    }
}

/// The pages in use are those of a part of the file and the others.
proof fn lemma_parted(free: FreePages, part: Set<u64>, others: Set<u64>)
    requires
        free.wf(),
        forall|q: u64| #[trigger] part.contains(q) ==> free.in_use(q),
        forall|q: u64| #[trigger] others.contains(q) <==> free.in_use(q) && !part.contains(q),
    ensures
        others.finite(),
        free.used() == part.len() + others.len(),
{
    lemma_in_use(free);
    let all = pages_in_use(free);
    assert(others.subset_of(all));
    assert(part.subset_of(all));
    vstd::set_lib::lemma_len_subset(others, all);
    vstd::set_lib::lemma_len_subset(part, all);
    assert(all =~= part + others);
    vstd::set_lib::lemma_set_disjoint_lens(part, others);
}

/// The tree with the given root has become another one. Nothing else was touched,
/// and the counters have kept up with the pages in use.
pub open spec fn tree_changed(
    pages: Map<u64, Seq<u8>>,
    allocator: PageAllocator,
    pages2: Map<u64, Seq<u8>>,
    allocator2: PageAllocator,
    root: u64,
) -> bool {
    &&& allocator.inv(pages)
    &&& allocator2.inv(pages2)
    &&& has_tree(pages, root)
    &&& has_tree(pages2, root)
    &&& tree_owned(pages, allocator@, root)
    &&& tree_owned(pages2, allocator2@, root)
    &&& evolves(
        pages,
        allocator@,
        seq![tree_at(pages, root)],
        pages2,
        allocator2@,
        seq![tree_at(pages2, root)],
        Seq::empty(),
        Seq::empty(),
    )
    &&& allocator2.balance() == allocator.balance()
}

/// How many pages were handed out and not given back, beyond those of the tree.
pub open spec fn beyond_tree(pages: Map<u64, Seq<u8>>, allocator: PageAllocator, root: u64) -> int {
    allocator.allocs() - allocator.frees() - size(tree_at(pages, root))
}

/// Whatever is done to a tree, the number of pages that were handed out and not
/// given back grows by as many pages as the tree does.
pub proof fn law_tree_pages(
    pages: Map<u64, Seq<u8>>,
    allocator: PageAllocator,
    pages2: Map<u64, Seq<u8>>,
    allocator2: PageAllocator,
    root: u64,
)
    requires
        tree_changed(pages, allocator, pages2, allocator2, root),
    ensures
        beyond_tree(pages2, allocator2, root) == beyond_tree(pages, allocator, root),
{
    let t = tree_at(pages, root);
    let t2 = tree_at(pages2, root);
    let free = allocator@;
    let free2 = allocator2@;
    allocator.lemma_wf(pages);
    allocator2.lemma_wf(pages2);
    assert(is_tree(pages, root, t));
    assert(is_tree(pages2, root, t2));
    lemma_forest_one(seq![t], t);
    lemma_forest_one(seq![t2], t2);
    lemma_tree_len(t);
    lemma_tree_len(t2);
    let others = Set::new(|q: u64| free.in_use(q) && count(t, q) == 0);
    let others2 = Set::new(|q: u64| free2.in_use(q) && count(t2, q) == 0);
    assert forall|q: u64| #[trigger] others2.contains(q) == others.contains(q) by {
        assert(forest_count(seq![t], q) == count(t, q));
        assert(forest_count(seq![t2], q) == count(t2, q));
        assert(outside(free2, seq![t2], q) == outside(free, seq![t], q));
    }
    assert(others2 =~= others);
    lemma_parted(free, tree_pages(t), others);
    lemma_parted(free2, tree_pages(t2), others);
}

/// Storage is reclaimed: if a tree was empty and is so again, after any number of
/// changes, all pages that it took in between were given back.
pub proof fn law_emptied_tree(states: Seq<(Map<u64, Seq<u8>>, PageAllocator)>, root: u64)
    requires
        states.len() > 0,
        forall|i: int|
            0 < i < states.len() ==> tree_changed(
                states[i - 1].0,
                states[i - 1].1,
                (#[trigger] states[i]).0,
                states[i].1,
                root,
            ),
        has_tree(states[0].0, root),
        contents(tree_at(states[0].0, root)).len() == 0,
        contents(tree_at(states.last().0, root)).len() == 0,
    ensures
        states.last().1.allocs() - states.last().1.frees() == states[0].1.allocs()
            - states[0].1.frees(),
{
    lemma_tree_history(states, root);
    let last = states[states.len() - 1];
    if states.len() > 1 {
        assert(tree_changed(
            states[states.len() - 2].0,
            states[states.len() - 2].1,
            last.0,
            last.1,
            root,
        ));
    }
    assert(is_tree(states[0].0, root, tree_at(states[0].0, root)));
    assert(is_tree(last.0, root, tree_at(last.0, root)));
    law_empty_tree_is_one_page(tree_at(states[0].0, root));
    law_empty_tree_is_one_page(tree_at(last.0, root));
}

proof fn lemma_tree_history(states: Seq<(Map<u64, Seq<u8>>, PageAllocator)>, root: u64)
    requires
        states.len() > 0,
        forall|i: int|
            0 < i < states.len() ==> tree_changed(
                states[i - 1].0,
                states[i - 1].1,
                (#[trigger] states[i]).0,
                states[i].1,
                root,
            ),
    ensures
        beyond_tree(states.last().0, states.last().1, root) == beyond_tree(
            states[0].0,
            states[0].1,
            root,
        ),
    decreases states.len(),
{
    if states.len() > 1 {
        let front = states.drop_last();
        assert forall|i: int| 0 < i < front.len() implies tree_changed(
            front[i - 1].0,
            front[i - 1].1,
            (#[trigger] front[i]).0,
            front[i].1,
            root,
        ) by {
            assert(front[i] == states[i]);
        }
        lemma_tree_history(front, root);
        let last = states[states.len() - 1];
        law_tree_pages(front.last().0, front.last().1, last.0, last.1, root);
    }
}

/// A list without repetitions has as many pages as its length.
proof fn lemma_list_len(list: Seq<u64>)
    requires
        forall|q: u64| #[trigger] occurs(list, q) <= 1,
    ensures
        Set::new(|q: u64| occurs(list, q) > 0).finite(),
        Set::new(|q: u64| occurs(list, q) > 0).len() == list.len(),
    decreases list.len(),
{
    let all = Set::new(|q: u64| occurs(list, q) > 0);
    if list.len() == 0 {
        assert(all =~= Set::empty());
    } else {
        let front = list.drop_last();
        assert forall|q: u64| #[trigger] occurs(front, q) <= 1 by {
            assert(occurs(list, q) <= 1);
        }
        lemma_list_len(front);
        assert(occurs(list, list.last()) <= 1);
        assert(all =~= Set::new(|q: u64| occurs(front, q) > 0).insert(list.last()));
    }
}

/// How many pages the trees and the single pages are.
pub open spec fn layout_size(
    pages: Map<u64, Seq<u8>>,
    roots: Seq<u64>,
    extra: Seq<u64>,
) -> nat {
    forest_size(trees_at(pages, roots)) + extra.len()
}

/// The pages in use are those of the layout and those elsewhere.
proof fn lemma_layout_len(
    pages: Map<u64, Seq<u8>>,
    free: FreePages,
    roots: Seq<u64>,
    extra: Seq<u64>,
    others: Set<u64>,
)
    requires
        free.wf(),
        layout(pages, free, roots, extra),
        forall|q: u64| #[trigger]
            others.contains(q) <==> elsewhere(pages, free, roots, extra, q),
    ensures
        free.used() == layout_size(pages, roots, extra) + others.len(),
{
    let trees = trees_at(pages, roots);
    let part = Set::new(|q: u64| pages_used(pages, roots, extra, q) > 0);
    let single = Set::new(|q: u64| occurs(extra, q) > 0);
    assert forall|q: u64| #[trigger] forest_count(trees, q) <= 1 by {
        assert(pages_used(pages, roots, extra, q) <= 1);
    }
    assert forall|q: u64| #[trigger] occurs(extra, q) <= 1 by {
        assert(pages_used(pages, roots, extra, q) <= 1);
    }
    lemma_forest_len(trees);
    lemma_list_len(extra);
    assert forall|q: u64| !(#[trigger] forest_pages(trees).contains(q) && single.contains(q)) by {
        assert(pages_used(pages, roots, extra, q) <= 1);
    }
    assert(part =~= forest_pages(trees) + single);
    vstd::set_lib::lemma_set_disjoint_lens(forest_pages(trees), single);
    assert forall|q: u64| #[trigger] part.contains(q) implies free.in_use(q) by {
        assert(pages_used(pages, roots, extra, q) > 0);
    }
    lemma_parted(free, part, others);
}

/// How many pages a collection has.
pub open spec fn collection_size(c: Collection, pages: Map<u64, Seq<u8>>) -> nat {
    layout_size(pages, c.roots(), c.external(pages))
}

/// A collection has become another one. Nothing else was touched, and the counters
/// have kept up with the pages in use.
pub open spec fn collection_changed(
    c: Collection,
    pages: Map<u64, Seq<u8>>,
    allocator: PageAllocator,
    c2: Collection,
    pages2: Map<u64, Seq<u8>>,
    allocator2: PageAllocator,
) -> bool {
    &&& allocator.inv(pages)
    &&& allocator2.inv(pages2)
    &&& c.inv(pages, allocator@)
    &&& c2.inv(pages2, allocator2@)
    &&& c.spares(pages, allocator@, c2, pages2, allocator2@)
    &&& allocator2.balance() == allocator.balance()
}

/// How many pages were handed out and not given back, beyond those of the
/// collection.
pub open spec fn beyond_collection(
    c: Collection,
    pages: Map<u64, Seq<u8>>,
    allocator: PageAllocator,
) -> int {
    allocator.allocs() - allocator.frees() - collection_size(c, pages)
}

/// Whatever is done to a collection, the number of pages that were handed out
/// and not given back grows by as many pages as the collection does.
pub proof fn law_collection_pages(
    c: Collection,
    pages: Map<u64, Seq<u8>>,
    allocator: PageAllocator,
    c2: Collection,
    pages2: Map<u64, Seq<u8>>,
    allocator2: PageAllocator,
)
    requires
        collection_changed(c, pages, allocator, c2, pages2, allocator2),
    ensures
        beyond_collection(c2, pages2, allocator2) == beyond_collection(c, pages, allocator),
{
    let free = allocator@;
    let free2 = allocator2@;
    allocator.lemma_wf(pages);
    allocator2.lemma_wf(pages2);
    let others = Set::new(|q: u64| elsewhere(pages, free, c.roots(), c.external(pages), q));
    assert forall|q: u64| #[trigger] others.contains(q) <==> elsewhere(
        pages2,
        free2,
        c2.roots(),
        c2.external(pages2),
        q,
    ) by {
        assert(elsewhere(pages2, free2, c2.roots(), c2.external(pages2), q) == elsewhere(
            pages,
            free,
            c.roots(),
            c.external(pages),
            q,
        ));
    }
    lemma_layout_len(pages, free, c.roots(), c.external(pages), others);
    lemma_layout_len(pages2, free2, c2.roots(), c2.external(pages2), others);
}

proof fn lemma_single_leaves(ts: Seq<Tree>)
    requires
        forall|i: int| 0 <= i < ts.len() ==> size(#[trigger] ts[i]) == 1,
    ensures
        forest_size(ts) == ts.len(),
    decreases ts.len(),
{
    if ts.len() > 0 {
        let front = ts.drop_last();
        assert forall|i: int| 0 <= i < front.len() implies size(#[trigger] front[i]) == 1 by {
            assert(front[i] == ts[i]);
        }
        lemma_single_leaves(front);
        assert(ts.last() == ts[ts.len() - 1]);
    }
}

/// A collection without documents has one page for each of its trees.
pub proof fn law_empty_collection_size(c: Collection, pages: Map<u64, Seq<u8>>, free: FreePages)
    requires
        c.inv(pages, free),
        c.docs(pages) == Map::<u64, Json>::empty(),
    ensures
        collection_size(c, pages) == 1 + c.indices@.len(),
{
    let roots = c.roots();
    let entries = c.entries(pages);
    if entries.len() > 0 {
        let key = entries[0].key;
        lemma_be64_inverse(key);
        assert(keys_of(entries)[0] == key);
        assert(c.docs(pages).contains_key(be64(key)));
    }
    let trees = trees_at(pages, roots);
    assert forall|i: int| 0 <= i < trees.len() implies size(#[trigger] trees[i]) == 1 by {
        assert(trees[i] == tree_at(pages, roots[i]));
        assert(has_tree(pages, roots[i]));
        if i > 0 {
            let listed = c.index_entries(pages, i - 1);
            assert(index_ok(listed, c.indices@[i - 1].field@, c.docs(pages)));
            if listed.len() > 0 {
                assert(keys_of(listed).contains(keys_of(listed)[0]));
            }
        }
        assert(is_tree(pages, roots[i], trees[i]));
        law_empty_tree_is_one_page(trees[i]);
    }
    lemma_single_leaves(trees);
}

/// Storage is reclaimed: if a collection had no documents and has none again,
/// after any number of changes, and has as many indices as before, all pages that
/// it took in between were given back.
pub proof fn law_emptied_collection(
    states: Seq<(Collection, Map<u64, Seq<u8>>, PageAllocator)>,
)
    requires
        states.len() > 0,
        states[0].0.inv(states[0].1, states[0].2@),
        forall|i: int|
            0 < i < states.len() ==> collection_changed(
                states[i - 1].0,
                states[i - 1].1,
                states[i - 1].2,
                (#[trigger] states[i]).0,
                states[i].1,
                states[i].2,
            ),
        states[0].0.docs(states[0].1) == Map::<u64, Json>::empty(),
        states.last().0.docs(states.last().1) == Map::<u64, Json>::empty(),
        states.last().0.indices@.len() == states[0].0.indices@.len(),
    ensures
        states.last().2.allocs() - states.last().2.frees() == states[0].2.allocs()
            - states[0].2.frees(),
{
    lemma_collection_history(states);
    let first = states[0];
    let last = states[states.len() - 1];
    if states.len() > 1 {
        let before = states[states.len() - 2];
        assert(collection_changed(before.0, before.1, before.2, last.0, last.1, last.2));
    }
    law_empty_collection_size(first.0, first.1, first.2@);
    law_empty_collection_size(last.0, last.1, last.2@);
}

proof fn lemma_collection_history(states: Seq<(Collection, Map<u64, Seq<u8>>, PageAllocator)>)
    requires
        states.len() > 0,
        forall|i: int|
            0 < i < states.len() ==> collection_changed(
                states[i - 1].0,
                states[i - 1].1,
                states[i - 1].2,
                (#[trigger] states[i]).0,
                states[i].1,
                states[i].2,
            ),
    ensures
        beyond_collection(states.last().0, states.last().1, states.last().2)
            == beyond_collection(states[0].0, states[0].1, states[0].2),
    decreases states.len(),
{
    if states.len() > 1 {
        let front = states.drop_last();
        assert forall|i: int| 0 < i < front.len() implies collection_changed(
            front[i - 1].0,
            front[i - 1].1,
            front[i - 1].2,
            (#[trigger] front[i]).0,
            front[i].1,
            front[i].2,
        ) by {
            assert(front[i] == states[i]);
        }
        lemma_collection_history(front);
        let before = front.last();
        let last = states[states.len() - 1];
        law_collection_pages(before.0, before.1, before.2, last.0, last.1, last.2);
    }
}

} // verus!
