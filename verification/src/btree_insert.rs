//! Insertion into the nodes of a B-tree: what is done to a single page, and why
//! the pages still hold a tree afterwards.

use vstd::prelude::*;

use crate::btree_model::{
    all_thick, contents, count, cut_left, cut_right, entry_ok, forest_contents, forest_count,
    forest_leaves, grown, idx, inner_entries, inner_key_ok, key_ok, kid_ok, leaf_entry_ok, leaves,
    left_of, lemma_contents, lemma_cut_inner, lemma_cut_leaf, lemma_descend, lemma_flat_concat,
    lemma_forest_one, lemma_forest_two, lemma_grown, lemma_grown_entries, lemma_leaf_contents,
    lemma_leaf_insert, lemma_member_count, lemma_path_len, lemma_replaced, lemma_splice,
    lemma_thick_cut, lemma_thick_spliced, link_ok, lower, nums, path_to, relinked, replaced, repr,
    right_of, slot, splice, thick, upper, wf, Tree,
};
use crate::btree_node::{
    append_entry, entry_size, get_entry_size, get_free_space, get_next_sib, get_prev_sib,
    init_btree_node, insert_entry, is_leaf, keys_of, lemma_links_valid, node, node_ok, node_wf,
    set_next_sib, set_not_leaf, set_prev_sib, set_right_child, split_at, split_insert, split_key,
    Entry, Node, MAX_ENTRY_SIZE, MAX_RECORD_SIZE,
};
use crate::btree_place::{
    edge, evolves, lemma_down, lemma_leaf_split, lemma_leaf_updated, lemma_up, outside, placed,
    post_of, pre_of,
};
use crate::key_order::{group_lex_order, lemma_rank, lemma_rank_unique, lex_lt, rank};
use crate::page_allocator::{room, spare, FreePages, PageAllocator, FIRST_FREE_PAGE};
use crate::page_cache::{
    CacheState, PageCache, PageData, PageNum, PersistentStore, INVALID_PAGE, PAGE_SIZE,
};
use crate::slots::{
    fits, fresh_slots, handed_up, insert_taken, lemma_fresh_few, lemma_slot_for, link_slot,
    no_colder, slot_for, splits,
};
use crate::superblock::SUPERBLOCK_FPID;
use crate::util::{le64_bytes, lemma_le64_roundtrip};

verus! {

/// The cache can take changes, and counts of locks are not at their limit.
pub open spec fn can_write(cache: CacheState) -> bool {
    cache.in_transaction && cache.unsaturated()
}

/// The allocator can hand out `n` more pages.
pub open spec fn can_allocate(allocator: PageAllocator, n: nat) -> bool {
    &&& allocator@.frontier + n < INVALID_PAGE
    &&& allocator.allocs() + n <= usize::MAX
}

/// What stays the same when pages are changed within a transaction.
pub open spec fn same_session(cache: CacheState, before: CacheState) -> bool {
    cache.same_disk(before) && cache.refs == before.refs
}

/// None of the pages lies in a slot that can be given to another page.
pub open spec fn busy(cache: CacheState, own: Set<u64>) -> bool {
    forall|q: u64| #[trigger] own.contains(q) ==> !cache.idle(q)
}

/// What was dirty has remained so, and the pages handed out are dirty.
pub open spec fn only_new_taken(
    cache: CacheState,
    free: FreePages,
    cache2: CacheState,
    free2: FreePages,
) -> bool {
    &&& no_colder(cache, cache2)
    &&& forall|q: u64| #[trigger] free2.in_use(q) && !free.in_use(q) ==> cache2.dirty.contains(q)
}

pub proof fn lemma_only_new_taken(
    cache: CacheState,
    free: FreePages,
    cache2: CacheState,
    free2: FreePages,
    cache3: CacheState,
    free3: FreePages,
)
    requires
        only_new_taken(cache, free, cache2, free2),
        only_new_taken(cache2, free2, cache3, free3),
    ensures
        only_new_taken(cache, free, cache3, free3),
{
    assert forall|q: u64| #[trigger] free3.in_use(q) && !free.in_use(q) implies cache3.dirty.contains(
        q,
    ) by {
        if free2.in_use(q) {
            assert(cache2.dirty.contains(q));
        }
    }
    assert forall|q: u64| #[trigger] cache.dirty.contains(q) implies cache3.dirty.contains(q) by {
        assert(cache2.dirty.contains(q));
    }
}

/// How many slots it takes to put an entry of the given size into a node.
pub open spec fn page_need(cache: CacheState, free: FreePages, num: u64, size: nat) -> nat {
    let n = node(cache.pages[num]);
    slot_for(cache, num) + if fits(n, size) {
        0
    } else {
        slot_for(cache, free.next()) + if n.leaf {
            link_slot(cache, n.prev)
        } else {
            0
        }
    }
}

/// How many slots it takes to put an entry of the given size into the root.
pub open spec fn root_need(cache: CacheState, free: FreePages, num: u64, size: nat) -> nat {
    slot_for(cache, num) + if fits(node(cache.pages[num]), size) {
        0nat
    } else {
        fresh_slots(cache, free, 2)
    }
}

pub open spec fn with_entry(n: Node, entry: Entry) -> Seq<Entry> {
    n.entries.insert(rank(keys_of(n.entries), entry.key), entry)
}

/// A node in a page of its own, ready for one more entry.
pub open spec fn insertable(
    pages: Map<u64, Seq<u8>>,
    free: FreePages,
    num: u64,
    entry: Entry,
) -> bool {
    let n = node(pages[num]);
    &&& node_wf(pages[num])
    &&& node_ok(n)
    &&& free.in_use(num)
    &&& entry.key.len() > 0
    &&& entry.key.len() + entry.value.len() < MAX_RECORD_SIZE
    &&& !n.leaf ==> entry.value.len() == 8
    &&& !keys_of(n.entries).contains(entry.key)
    &&& n.leaf ==> (n.prev matches Some(prev) ==> node_wf(pages[prev]) && free.in_use(prev) && prev
        != num)
}

/// The node has got the entry.
pub open spec fn entry_added(
    pages: Map<u64, Seq<u8>>,
    pages2: Map<u64, Seq<u8>>,
    num: u64,
    entry: Entry,
) -> bool {
    let n = node(pages[num]);
    &&& node_wf(pages2[num])
    &&& node(pages2[num]) == (Node { entries: with_entry(n, entry), ..n })
    &&& forall|q: u64| q != num ==> #[trigger] pages2[q] == pages[q]
}

/// The node has got the entry and was split: the page `left` has taken its
/// first part, and `num` holds the second.
pub open spec fn node_split(
    pages: Map<u64, Seq<u8>>,
    pages2: Map<u64, Seq<u8>>,
    num: u64,
    entry: Entry,
    left: u64,
    sep: Seq<u8>,
    s: int,
) -> bool {
    let n = node(pages[num]);
    let l = node(pages2[left]);
    let r = node(pages2[num]);
    &&& node_wf(pages2[left])
    &&& node_wf(pages2[num])
    &&& split_at(
        n,
        with_entry(n, entry),
        s,
        sep,
        Node { next: None, prev: None, ..l },
        Node { next: None, prev: None, ..r },
    )
    &&& if n.leaf {
        &&& l.next == Some(num)
        &&& l.prev == n.prev
        &&& r.next == n.next
        &&& r.prev == Some(left)
        &&& n.prev matches Some(prev) ==> node_wf(pages2[prev]) && node(pages2[prev]) == (Node {
            next: Some(left),
            ..node(pages[prev])
        })
    } else {
        l.next is None && l.prev is None && r.next is None && r.prev is None
    }
    &&& forall|q: u64|
        q != SUPERBLOCK_FPID && q != num && q != left && !(n.leaf && n.prev == Some(q))
            ==> #[trigger] pages2[q] == pages[q]
}

/// Inserts an entry into a node that is not the root. If it has no room, it is
/// split; the separator key and the new page before it are then returned.
#[verifier::rlimit(50)]
pub(crate) fn insert_in_page<S: PersistentStore>(
    num: PageNum,
    key: &[u8],
    value: &[u8],
    page_cache: &mut PageCache<S>,
    page_allocator: &mut PageAllocator,
) -> (result: (Option<(Vec<u8>, PageNum)>, Ghost<int>))
    requires
        old(page_cache).inv(),
        can_write(old(page_cache)@),
        old(page_allocator).inv(old(page_cache)@.pages),
        !fits(
            node(old(page_cache)@.pages[num@]),
            entry_size(Entry { key: key@, value: value@ }),
        ) ==> can_allocate(*old(page_allocator), 1),
        insertable(
            old(page_cache)@.pages,
            old(page_allocator)@,
            num@,
            Entry { key: key@, value: value@ },
        ),
        ({
            let size = entry_size(Entry { key: key@, value: value@ });
            let more = if fits(node(old(page_cache)@.pages[num@]), size) {
                0nat
            } else {
                1nat
            };
            spare(old(page_cache)@, more) >= page_need(
                old(page_cache)@,
                old(page_allocator)@,
                num@,
                size,
            )
        }),
    ensures
        final(page_cache).inv(),
        same_session(final(page_cache)@, old(page_cache)@),
        final(page_allocator).inv(final(page_cache)@.pages),
        final(page_allocator).balance() == old(page_allocator).balance(),
        final(page_allocator).frees() == old(page_allocator).frees(),
        room(final(page_cache)@) >= room(old(page_cache)@) - page_need(
            old(page_cache)@,
            old(page_allocator)@,
            num@,
            entry_size(Entry { key: key@, value: value@ }),
        ),
        result.0 is None ==> final(page_cache)@.available >= old(page_cache)@.available - page_need(
            old(page_cache)@,
            old(page_allocator)@,
            num@,
            entry_size(Entry { key: key@, value: value@ }),
        ),
        only_new_taken(
            old(page_cache)@,
            old(page_allocator)@,
            final(page_cache)@,
            final(page_allocator)@,
        ),
        result.0 is None <==> fits(
            node(old(page_cache)@.pages[num@]),
            entry_size(Entry { key: key@, value: value@ }),
        ),
        match result.0 {
            None => {
                &&& final(page_allocator)@ == old(page_allocator)@
                &&& final(page_allocator).allocs() == old(page_allocator).allocs()
                &&& entry_added(
                    old(page_cache)@.pages,
                    final(page_cache)@.pages,
                    num@,
                    Entry { key: key@, value: value@ },
                )
            },
            Some((sep, left)) => {
                &&& left@ == old(page_allocator)@.next()
                &&& sep@ == split_key(node(old(page_cache)@.pages[num@]))
                &&& final(page_allocator)@ == old(page_allocator)@.taken()
                &&& final(page_allocator).allocs() == old(page_allocator).allocs() + 1
                &&& node_split(
                    old(page_cache)@.pages,
                    final(page_cache)@.pages,
                    num@,
                    Entry { key: key@, value: value@ },
                    left@,
                    sep@,
                    result.1@,
                )
            },
        },
{
    let ghost pages = page_cache@.pages;
    let ghost free = page_allocator@;
    let ghost n = node(pages[num@]);
    proof {
        page_allocator.lemma_wf(pages);
    }
    let mut page = page_cache.read_page(num);
    if get_free_space(&page) >= get_entry_size(key, value) {
        insert_entry(&mut page, key, value);
        page_cache.write_page(num, &page);
        proof {
            page_allocator.lemma_inv(pages, page_cache@.pages);
        }
        return (None, Ghost(0));
    }
    // Need to split...
    let ghost alloc1 = *page_allocator;
    proof {
        free.lemma_alloc();
        lemma_links_valid(pages[num@]);
    }
    let new_page_pnum = page_allocator.allocate(page_cache);
    let ghost pages1 = page_cache@.pages;
    let ghost free1 = page_allocator@;
    proof {
        assert(free1.in_use(num@));
        assert(free1.in_use(new_page_pnum@));
        page_allocator.lemma_wf(pages1);
    }
    // We will allocate a new page to be *before* this page. Temp is a holding
    // area for what will be copied back to this page.
    let mut temp: PageData = [0;PAGE_SIZE];
    let mut new_page: PageData = [0;PAGE_SIZE];
    let (separator, Ghost(s)) = split_insert(&page, key, value, &mut new_page, &mut temp);
    if is_leaf(&page) {
        set_prev_sib(&mut temp, Some(new_page_pnum));
        set_next_sib(&mut temp, get_next_sib(&page));
        set_prev_sib(&mut new_page, get_prev_sib(&page));
        set_next_sib(&mut new_page, Some(num));

        // Need to fix forward link
        match get_prev_sib(&page) {
            Some(prev) => {
                assert(free1.in_use(prev@));
                let mut prev_sib_page = page_cache.read_page(prev);
                set_next_sib(&mut prev_sib_page, Some(new_page_pnum));
                page_cache.write_page(prev, &prev_sib_page);
            },
            None => {},
        }
    }
    page_cache.write_page(new_page_pnum, &new_page);
    page_cache.write_page(num, &temp);
    proof {
        page_allocator.lemma_inv(pages1, page_cache@.pages);
    }
    (Some((separator, new_page_pnum)), Ghost(s))
}

/// The entries of a leaf or the keys of an interior node make a node that can be worked on.
pub proof fn lemma_tree_node(
    pages: Map<u64, Seq<u8>>,
    t: Tree,
    lo: Option<Seq<u8>>,
    hi: Option<Seq<u8>>,
    d: nat,
)
    requires
        wf(t, lo, hi, d),
        repr(pages, t),
    ensures
        node_wf(pages[t.page()]),
        node_ok(node(pages[t.page()])),
        t is Inner ==> keys_of(node(pages[t.page()]).entries) == t->Inner_keys,
{
    let n = node(pages[t.page()]);
    match t {
        Tree::Leaf { entries, .. } => {
            assert forall|i: int| 0 <= i < n.entries.len() implies entry_size(
                #[trigger] n.entries[i],
            ) <= MAX_ENTRY_SIZE by {
                assert(leaf_entry_ok(entries[i], lo, hi));
            }
        },
        Tree::Inner { keys, kids, .. } => {
            assert(keys_of(n.entries) =~= keys);
            assert forall|i: int| 0 <= i < n.entries.len() implies entry_size(
                #[trigger] n.entries[i],
            ) <= MAX_ENTRY_SIZE && n.entries[i].value.len() == 8 by {
                assert(inner_key_ok(keys[i], lo, hi));
                lemma_le64_roundtrip(kids[i].page());
            }
        },
    }
}

/// A key between the bounds of the subtree `i` has the place `i` among the keys and is none of them.
pub proof fn lemma_sep_place(
    t: Tree,
    lo: Option<Seq<u8>>,
    hi: Option<Seq<u8>>,
    d: nat,
    i: int,
    sep: Seq<u8>,
)
    requires
        wf(t, lo, hi, d),
        t is Inner,
        0 <= i < t->kids.len(),
        inner_key_ok(sep, lower(t->Inner_keys, lo, i), upper(t->Inner_keys, hi, i)),
    ensures
        rank(t->Inner_keys, sep) == i,
        !t->Inner_keys.contains(sep),
{
    broadcast use group_lex_order;

    let keys = t->Inner_keys;
    assert forall|j: int| 0 <= j < keys.len() implies (j < i ==> lex_lt(#[trigger] keys[j], sep)) && (
    j >= i ==> lex_lt(sep, keys[j])) by {
        if j < i {
            assert(j == i - 1 || lex_lt(keys[j], keys[i - 1]));
        } else {
            assert(j == i || lex_lt(keys[i], keys[j]));
        }
    }
    lemma_rank_unique(keys, sep, i);
    if keys.contains(sep) {
        let j = keys.index_of(sep);
        assert(keys[j] == sep);
    }
}

/// The entries of a tree with one subtree replaced.
pub proof fn lemma_spliced_contents(t: Tree, i: int, mid: Seq<Tree>, ts: Seq<Tree>)
    requires
        t is Inner,
        0 <= i < t->kids.len(),
        forest_leaves(ts) == forest_leaves(splice(t->kids, i, mid)),
    ensures
        forest_contents(ts) == left_of(t, i) + forest_contents(mid) + right_of(t, i),
{
    lemma_splice(t->kids, i, mid);
    let a = forest_leaves(t->kids.take(i));
    let b = forest_leaves(mid);
    let c = forest_leaves(t->kids.skip(i + 1));
    lemma_flat_concat(a, b);
    lemma_flat_concat(a + b, c);
}

/// What an insertion below a node has done: the subtree has become one tree, or two
/// with a separator between them.
pub open spec fn inserted(
    t: Tree,
    lo: Option<Seq<u8>>,
    hi: Option<Seq<u8>>,
    d: nat,
    entry: Entry,
    split: Option<(Seq<u8>, u64)>,
    mid: Seq<Tree>,
) -> bool {
    &&& forest_contents(mid) == contents(t).insert(rank(keys_of(contents(t)), entry.key), entry)
    &&& thick(t) ==> all_thick(mid)
    &&& match split {
        None => {
            &&& mid.len() == 1
            &&& mid[0].page() == t.page()
            &&& wf(mid[0], lo, hi, d)
            &&& kid_ok(mid[0])
        },
        Some((sep, left)) => {
            &&& mid.len() == 2
            &&& mid[0].page() == left
            &&& mid[1].page() == t.page()
            &&& inner_key_ok(sep, lo, hi)
            &&& wf(mid[0], lo, Some(sep), d)
            &&& wf(mid[1], Some(sep), hi, d)
            &&& kid_ok(mid[0])
            &&& kid_ok(mid[1])
        },
    }
}

pub open spec fn split_view(split: Option<(Vec<u8>, PageNum)>) -> Option<(Seq<u8>, u64)> {
    match split {
        Some((sep, left)) => Some((sep@, left@)),
        None => None,
    }
}

/// A leaf can take one more entry.
pub proof fn lemma_leaf_insertable(
    pages: Map<u64, Seq<u8>>,
    free: FreePages,
    root: u64,
    t: Tree,
    lo: Option<Seq<u8>>,
    hi: Option<Seq<u8>>,
    entry: Entry,
    pre: Seq<u64>,
    post: Seq<u64>,
)
    requires
        placed(pages, free, root, seq![t], pre, post),
        wf(t, lo, hi, 0),
        leaf_entry_ok(entry, lo, hi),
        !keys_of(contents(t)).contains(entry.key),
    ensures
        t is Leaf,
        insertable(pages, free, t.page(), entry),
        node(pages[t.page()]).entries == t->Leaf_entries,
        node(pages[t.page()]).leaf,
        node(pages[t.page()]).right is None,
        pre.len() == 0 ==> node(pages[t.page()]).prev is None,
        post.len() == 0 ==> node(pages[t.page()]).next is None,
        node(pages[t.page()]).prev matches Some(prev) ==> pre.contains(prev),
{
    let ts = seq![t];
    let p = t.page();
    lemma_forest_one(ts, t);
    assert(repr(pages, ts[0]));
    lemma_tree_node(pages, t, lo, hi, 0);
    lemma_leaf_contents(t);
    assert(forest_count(ts, p) == count(t, p));
    assert(free.in_use(p));
    let list = pre + nums(forest_leaves(ts)) + post;
    let k = pre.len() as int;
    assert(nums(forest_leaves(ts)) =~= seq![p]);
    assert(link_ok(pages, list, idx(k)));
    assert(list[k] == p);
    if k > 0 {
        assert(list[k - 1] == pre.last());
        assert(link_ok(pages, list, idx(k - 1)));
        assert(pre.contains(pre[k - 1]));
        assert(outside(free, ts, pre[k - 1]));
    }
}

/// The new entry has made it into the leaf.
pub proof fn lemma_leaf_fits(
    pages: Map<u64, Seq<u8>>,
    pages2: Map<u64, Seq<u8>>,
    free: FreePages,
    root: u64,
    t: Tree,
    lo: Option<Seq<u8>>,
    hi: Option<Seq<u8>>,
    entry: Entry,
    pre: Seq<u64>,
    post: Seq<u64>,
) -> (mid: Seq<Tree>)
    requires
        placed(pages, free, root, seq![t], pre, post),
        wf(t, lo, hi, 0),
        leaf_entry_ok(entry, lo, hi),
        !keys_of(contents(t)).contains(entry.key),
        entry_added(pages, pages2, t.page(), entry),
    ensures
        placed(pages2, free, root, mid, pre, post),
        evolves(pages, free, seq![t], pages2, free, mid, pre, post),
        inserted(t, lo, hi, 0, entry, None, mid),
{
    lemma_leaf_insertable(pages, free, root, t, lo, hi, entry, pre, post);
    lemma_leaf_contents(t);
    let entries = t->Leaf_entries;
    let all = with_entry(node(pages[t.page()]), entry);
    let t2 = Tree::Leaf { page: t.page(), entries: all };
    let mid = seq![t2];
    lemma_leaf_insert(t.page(), entries, lo, hi, entry);
    lemma_leaf_updated(pages, pages2, free, root, t, all, pre, post);
    lemma_forest_one(mid, t2);
    lemma_leaf_contents(t2);
    mid
}

/// The leaf was split around the new entry.
#[verifier::rlimit(40)]
#[verifier::spinoff_prover]
pub proof fn lemma_leaf_splits(
    pages: Map<u64, Seq<u8>>,
    pages2: Map<u64, Seq<u8>>,
    free: FreePages,
    root: u64,
    t: Tree,
    lo: Option<Seq<u8>>,
    hi: Option<Seq<u8>>,
    entry: Entry,
    pre: Seq<u64>,
    post: Seq<u64>,
    sep: Seq<u8>,
    s: int,
) -> (mid: Seq<Tree>)
    requires
        placed(pages, free, root, seq![t], pre, post),
        wf(t, lo, hi, 0),
        leaf_entry_ok(entry, lo, hi),
        !keys_of(contents(t)).contains(entry.key),
        free.wf(),
        free.frontier + 1 < INVALID_PAGE,
        node_split(pages, pages2, t.page(), entry, free.next(), sep, s),
    ensures
        placed(pages2, free.taken(), root, mid, pre, post),
        evolves(pages, free, seq![t], pages2, free.taken(), mid, pre, post),
        inserted(t, lo, hi, 0, entry, Some((sep, free.next())), mid),
{
    lemma_leaf_insertable(pages, free, root, t, lo, hi, entry, pre, post);
    lemma_leaf_contents(t);
    free.lemma_alloc();
    let entries = t->Leaf_entries;
    let n = node(pages[t.page()]);
    let all = with_entry(n, entry);
    let np = free.next();
    let a = Tree::Leaf { page: np, entries: all.take(s) };
    let b = Tree::Leaf { page: t.page(), entries: all.skip(s) };
    let mid = seq![a, b];
    lemma_leaf_insert(t.page(), entries, lo, hi, entry);
    lemma_cut_leaf(all, lo, hi, s, t.page(), np, t.page());
    let l = node(pages2[np]);
    let r = node(pages2[t.page()]);
    assert((Node { next: None, prev: None, ..l }).entries == l.entries);
    assert((Node { next: None, prev: None, ..r }).entries == r.entries);
    assert((Node { next: None, prev: None, ..l }).leaf == l.leaf);
    assert((Node { next: None, prev: None, ..r }).leaf == r.leaf);
    assert((Node { next: None, prev: None, ..l }).right == l.right);
    assert((Node { next: None, prev: None, ..r }).right == r.right);
    lemma_leaf_split(
        pages,
        pages2,
        free,
        free.taken(),
        root,
        t,
        np,
        all.take(s),
        all.skip(s),
        pre,
        post,
    );
    lemma_forest_two(mid, a, b);
    lemma_flat_concat(leaves(a), leaves(b));
    lemma_leaf_contents(a);
    lemma_leaf_contents(b);
    assert(all.take(s) + all.skip(s) =~= all);
    mid
}

/// What is known after an insertion into the subtree `i` of an interior node.
pub open spec fn below_done(
    pages: Map<u64, Seq<u8>>,
    pages2: Map<u64, Seq<u8>>,
    free: FreePages,
    free2: FreePages,
    root: u64,
    t: Tree,
    lo: Option<Seq<u8>>,
    hi: Option<Seq<u8>>,
    d: nat,
    entry: Entry,
    split: Option<(Seq<u8>, u64)>,
    mid: Seq<Tree>,
    pre: Seq<u64>,
    post: Seq<u64>,
) -> bool {
    let i = slot(t, entry.key);
    let keys = t->Inner_keys;
    &&& placed(pages, free, root, seq![t], pre, post)
    &&& wf(t, lo, hi, d)
    &&& t is Inner
    &&& 0 <= i < t->kids.len()
    &&& placed(pages2, free2, root, mid, pre_of(pre, t, i), post_of(post, t, i))
    &&& evolves(
        pages,
        free,
        seq![t->kids[i]],
        pages2,
        free2,
        mid,
        pre_of(pre, t, i),
        post_of(post, t, i),
    )
    &&& inserted(
        t->kids[i],
        lower(keys, lo, i),
        upper(keys, hi, i),
        (d - 1) as nat,
        entry,
        split,
        mid,
    )
}

/// The entries of the whole after the insertion into a subtree.
pub proof fn lemma_inserted_contents(
    t: Tree,
    lo: Option<Seq<u8>>,
    hi: Option<Seq<u8>>,
    d: nat,
    entry: Entry,
    mid: Seq<Tree>,
    ts: Seq<Tree>,
)
    requires
        wf(t, lo, hi, d),
        t is Inner,
        forest_leaves(ts) == forest_leaves(splice(t->kids, slot(t, entry.key), mid)),
        forest_contents(mid) == contents(t->kids[slot(t, entry.key)]).insert(
            rank(keys_of(contents(t->kids[slot(t, entry.key)])), entry.key),
            entry,
        ),
    ensures
        forest_contents(ts) == contents(t).insert(
            rank(keys_of(contents(t)), entry.key),
            entry,
        ),
{
    let i = slot(t, entry.key);
    lemma_descend(t, lo, hi, d, entry.key);
    lemma_spliced_contents(t, i, mid, ts);
    let kid = t->kids[i];
    let keys = t->Inner_keys;
    lemma_contents(kid, lower(keys, lo, i), upper(keys, hi, i), (d - 1) as nat);
    lemma_rank(keys_of(contents(kid)), entry.key);
    assert(forest_contents(ts) =~= contents(t).insert(
        rank(keys_of(contents(t)), entry.key),
        entry,
    ));
}

/// The subtree has taken the entry without a split: the node stays as it is.
pub proof fn lemma_inner_same(
    pages: Map<u64, Seq<u8>>,
    pages2: Map<u64, Seq<u8>>,
    free: FreePages,
    free2: FreePages,
    root: u64,
    t: Tree,
    lo: Option<Seq<u8>>,
    hi: Option<Seq<u8>>,
    d: nat,
    entry: Entry,
    mid: Seq<Tree>,
    pre: Seq<u64>,
    post: Seq<u64>,
) -> (up: Seq<Tree>)
    requires
        below_done(
            pages,
            pages2,
            free,
            free2,
            root,
            t,
            lo,
            hi,
            d,
            entry,
            None,
            mid,
            pre,
            post,
        ),
    ensures
        placed(pages2, free2, root, up, pre, post),
        evolves(pages, free, seq![t], pages2, free2, up, pre, post),
        inserted(t, lo, hi, d, entry, None, up),
{
    let i = slot(t, entry.key);
    let p = t.page();
    let t2 = replaced(t, i, mid);
    let up = seq![t2];
    let fresh = set![p];
    lemma_replaced(t, lo, hi, d, i, mid);
    lemma_forest_one(up, t2);
    lemma_page_used(pages, pages2, free, free2, root, t, i, mid, pre, post);
    assert forall|q: u64| #[trigger] forest_count(up, q) == forest_count(
        splice(t->kids, i, mid),
        q,
    ) + (if fresh.contains(q) {
        1nat
    } else {
        0nat
    }) by {
        assert(forest_count(up, q) == count(t2, q));
    }
    lemma_up(
        pages,
        pages2,
        pages2,
        free,
        free2,
        free2,
        root,
        t,
        i,
        mid,
        up,
        fresh,
        pre,
        post,
    );
    assert(repr(pages, seq![t][0]));
    assert(repr(pages2, t2));
    if thick(t) {
        lemma_thick_spliced(t, i, mid);
    }
    lemma_inserted_contents(t, lo, hi, d, entry, mid, up);
    up
}

/// The page of an interior node is untouched and in use after a change below it.
pub proof fn lemma_page_used(
    pages: Map<u64, Seq<u8>>,
    pages2: Map<u64, Seq<u8>>,
    free: FreePages,
    free2: FreePages,
    root: u64,
    t: Tree,
    i: int,
    mid: Seq<Tree>,
    pre: Seq<u64>,
    post: Seq<u64>,
)
    requires
        placed(pages, free, root, seq![t], pre, post),
        t is Inner,
        0 <= i < t->kids.len(),
        evolves(
            pages,
            free,
            seq![t->kids[i]],
            pages2,
            free2,
            mid,
            pre_of(pre, t, i),
            post_of(post, t, i),
        ),
    ensures
        free2.in_use(t.page()),
        pages2[t.page()] == pages[t.page()],
        repr(pages, t),
{
    let ts = seq![t];
    let one = seq![t->kids[i]];
    let p = t.page();
    lemma_forest_one(ts, t);
    lemma_forest_one(one, t->kids[i]);
    lemma_down(pages, free, root, t, i, pre, post);
    assert(forest_count(ts, p) == count(t, p));
    assert(forest_count(one, p) == count(t->kids[i], p));
    assert(outside(free, one, p));
    assert(outside(free2, mid, p) == outside(free, one, p));
    assert(repr(pages, ts[0]));
}

/// An interior node can take the separator of a subtree that was split.
pub proof fn lemma_inner_insertable(
    pages: Map<u64, Seq<u8>>,
    pages2: Map<u64, Seq<u8>>,
    free: FreePages,
    free2: FreePages,
    root: u64,
    t: Tree,
    lo: Option<Seq<u8>>,
    hi: Option<Seq<u8>>,
    d: nat,
    entry: Entry,
    sep: Seq<u8>,
    left: u64,
    mid: Seq<Tree>,
    pre: Seq<u64>,
    post: Seq<u64>,
)
    requires
        below_done(
            pages,
            pages2,
            free,
            free2,
            root,
            t,
            lo,
            hi,
            d,
            entry,
            Some((sep, left)),
            mid,
            pre,
            post,
        ),
    ensures
        insertable(pages2, free2, t.page(), Entry { key: sep, value: le64_bytes(left) }),
        !node(pages2[t.page()]).leaf,
        node(pages2[t.page()]).next is None,
        node(pages2[t.page()]).prev is None,
        ({
            let i = slot(t, entry.key);
            let g = grown(t, i, sep, mid);
            &&& wf(g, lo, hi, d)
            &&& with_entry(
                node(pages2[t.page()]),
                Entry { key: sep, value: le64_bytes(left) },
            ) == inner_entries(g->Inner_keys, g->kids)
            &&& node(pages2[t.page()]).right == Some(g->kids.last().page())
        }),
{
    let i = slot(t, entry.key);
    lemma_page_used(pages, pages2, free, free2, root, t, i, mid, pre, post);
    lemma_tree_node(pages, t, lo, hi, d);
    lemma_sep_place(t, lo, hi, d, i, sep);
    lemma_le64_roundtrip(left);
    lemma_grown(t, lo, hi, d, i, sep, mid);
    lemma_grown_entries(t, i, sep, mid);
}

/// The node had room for the separator.
pub proof fn lemma_inner_fits(
    pages: Map<u64, Seq<u8>>,
    pages2: Map<u64, Seq<u8>>,
    pages3: Map<u64, Seq<u8>>,
    free: FreePages,
    free2: FreePages,
    root: u64,
    t: Tree,
    lo: Option<Seq<u8>>,
    hi: Option<Seq<u8>>,
    d: nat,
    entry: Entry,
    sep: Seq<u8>,
    left: u64,
    mid: Seq<Tree>,
    pre: Seq<u64>,
    post: Seq<u64>,
) -> (up: Seq<Tree>)
    requires
        below_done(
            pages,
            pages2,
            free,
            free2,
            root,
            t,
            lo,
            hi,
            d,
            entry,
            Some((sep, left)),
            mid,
            pre,
            post,
        ),
        entry_added(pages2, pages3, t.page(), Entry { key: sep, value: le64_bytes(left) }),
    ensures
        placed(pages3, free2, root, up, pre, post),
        evolves(pages, free, seq![t], pages3, free2, up, pre, post),
        inserted(t, lo, hi, d, entry, None, up),
{
    let i = slot(t, entry.key);
    let p = t.page();
    let g = grown(t, i, sep, mid);
    let up = seq![g];
    let fresh = set![p];
    lemma_inner_insertable(
        pages,
        pages2,
        free,
        free2,
        root,
        t,
        lo,
        hi,
        d,
        entry,
        sep,
        left,
        mid,
        pre,
        post,
    );
    lemma_page_used(pages, pages2, free, free2, root, t, i, mid, pre, post);
    lemma_forest_one(up, g);
    assert forall|q: u64| #[trigger] forest_count(up, q) == forest_count(
        splice(t->kids, i, mid),
        q,
    ) + (if fresh.contains(q) {
        1nat
    } else {
        0nat
    }) by {
        assert(forest_count(up, q) == count(g, q));
    }
    lemma_up(pages, pages2, pages3, free, free2, free2, root, t, i, mid, up, fresh, pre, post);
    assert(repr(pages3, g));
    if thick(t) {
        lemma_thick_spliced(t, i, mid);
    }
    lemma_inserted_contents(t, lo, hi, d, entry, mid, up);
    up
}

/// The two parts of an interior node that was split lie in their pages.
pub proof fn lemma_cut_repr(pages3: Map<u64, Seq<u8>>, g: Tree, s: int, left: u64, right: u64, n: Node)
    requires
        g is Inner,
        g->kids.len() == g->Inner_keys.len() + 1,
        0 <= s < g->Inner_keys.len(),
        !n.leaf,
        n.right == Some(g->kids.last().page()),
        node_wf(pages3[left]),
        node_wf(pages3[right]),
        split_at(
            n,
            inner_entries(g->Inner_keys, g->kids),
            s,
            g->Inner_keys[s],
            node(pages3[left]),
            node(pages3[right]),
        ),
        forall|j: int| 0 <= j < g->kids.len() ==> repr(pages3, #[trigger] g->kids[j]),
        g->kids[s].page() != INVALID_PAGE,
        inner_entries(g->Inner_keys.take(s), g->kids.take(s + 1)) == inner_entries(
            g->Inner_keys,
            g->kids,
        ).take(s),
        inner_entries(g->Inner_keys.skip(s + 1), g->kids.skip(s + 1)) == inner_entries(
            g->Inner_keys,
            g->kids,
        ).skip(s + 1),
    ensures
        repr(pages3, cut_left(g, s, left)),
        repr(pages3, cut_right(g, s, right)),
{
    let l = cut_left(g, s, left);
    let r = cut_right(g, s, right);
    lemma_le64_roundtrip(g->kids[s].page());
    assert forall|j: int| 0 <= j < l->kids.len() implies repr(pages3, #[trigger] l->kids[j]) by {
        assert(l->kids[j] == g->kids[j]);
    }
    assert forall|j: int| 0 <= j < r->kids.len() implies repr(pages3, #[trigger] r->kids[j]) by {
        assert(r->kids[j] == g->kids[j + s + 1]);
    }
    assert(l->kids[l->kids.len() - 1] == g->kids[s]);
    assert(r->kids[r->kids.len() - 1] == g->kids[g->kids.len() - 1]);
}

/// The node was split around the separator.
pub proof fn lemma_inner_splits(
    pages: Map<u64, Seq<u8>>,
    pages2: Map<u64, Seq<u8>>,
    pages3: Map<u64, Seq<u8>>,
    free: FreePages,
    free2: FreePages,
    root: u64,
    t: Tree,
    lo: Option<Seq<u8>>,
    hi: Option<Seq<u8>>,
    d: nat,
    entry: Entry,
    sep: Seq<u8>,
    left: u64,
    mid: Seq<Tree>,
    pre: Seq<u64>,
    post: Seq<u64>,
    sep2: Seq<u8>,
    s: int,
) -> (up: Seq<Tree>)
    requires
        below_done(
            pages,
            pages2,
            free,
            free2,
            root,
            t,
            lo,
            hi,
            d,
            entry,
            Some((sep, left)),
            mid,
            pre,
            post,
        ),
        free2.wf(),
        free2.frontier + 1 < INVALID_PAGE,
        node_split(
            pages2,
            pages3,
            t.page(),
            Entry { key: sep, value: le64_bytes(left) },
            free2.next(),
            sep2,
            s,
        ),
    ensures
        placed(pages3, free2.taken(), root, up, pre, post),
        evolves(pages, free, seq![t], pages3, free2.taken(), up, pre, post),
        inserted(t, lo, hi, d, entry, Some((sep2, free2.next())), up),
{
    let i = slot(t, entry.key);
    let p = t.page();
    let np = free2.next();
    let g = grown(t, i, sep, mid);
    let kids3 = splice(t->kids, i, mid);
    lemma_inner_insertable(
        pages,
        pages2,
        free,
        free2,
        root,
        t,
        lo,
        hi,
        d,
        entry,
        sep,
        left,
        mid,
        pre,
        post,
    );
    lemma_page_used(pages, pages2, free, free2, root, t, i, mid, pre, post);
    free2.lemma_alloc();
    let n = node(pages2[p]);
    let l = node(pages3[np]);
    let r = node(pages3[p]);
    assert((Node { next: None, prev: None, ..l }) == l);
    assert((Node { next: None, prev: None, ..r }) == r);
    assert(inner_entries(g->Inner_keys, g->kids)[s].key == g->Inner_keys[s]);
    lemma_cut_inner(g, lo, hi, d, s, np, p);
    let a = cut_left(g, s, np);
    let b = cut_right(g, s, p);
    let up = seq![a, b];
    let fresh = set![p, np];
    lemma_forest_two(up, a, b);
    assert forall|q: u64| #[trigger] forest_count(up, q) == forest_count(kids3, q) + (
    if fresh.contains(q) {
        1nat
    } else {
        0nat
    }) by {
        assert(forest_count(up, q) == count(a, q) + count(b, q));
        assert(forest_count(g->kids, q) == forest_count(g->kids.take(s + 1), q) + forest_count(
            g->kids.skip(s + 1),
            q,
        ));
    }
    lemma_up(
        pages,
        pages2,
        pages3,
        free,
        free2,
        free2.taken(),
        root,
        t,
        i,
        mid,
        up,
        fresh,
        pre,
        post,
    );
    let kid = g->kids[s].page();
    assert(kid != INVALID_PAGE) by {
        lemma_member_count(kids3, s, kid);
        assert(forest_count(up, kid) > 0);
        assert(forest_count(up, kid) == forest_count(kids3, kid) + (if fresh.contains(kid) {
            1nat
        } else {
            0nat
        }));
        lemma_counted_used(pages, pages2, free, free2, root, t, i, mid, pre, post, kid);
    }
    lemma_cut_repr(pages3, g, s, np, p, n);
    if thick(t) {
        lemma_thick_spliced(t, i, mid);
        lemma_thick_cut(g, s, np, p);
    }
    lemma_inserted_contents(t, lo, hi, d, entry, mid, up);
    up
}

/// Every page of the spliced subtrees is in use.
pub proof fn lemma_counted_used(
    pages: Map<u64, Seq<u8>>,
    pages2: Map<u64, Seq<u8>>,
    free: FreePages,
    free2: FreePages,
    root: u64,
    t: Tree,
    i: int,
    mid: Seq<Tree>,
    pre: Seq<u64>,
    post: Seq<u64>,
    q: u64,
)
    requires
        placed(pages, free, root, seq![t], pre, post),
        t is Inner,
        0 <= i < t->kids.len(),
        placed(pages2, free2, root, mid, pre_of(pre, t, i), post_of(post, t, i)),
        evolves(
            pages,
            free,
            seq![t->kids[i]],
            pages2,
            free2,
            mid,
            pre_of(pre, t, i),
            post_of(post, t, i),
        ),
        forest_count(splice(t->kids, i, mid), q) > 0,
    ensures
        free2.in_use(q),
{
    let ts = seq![t];
    let one = seq![t->kids[i]];
    lemma_forest_one(ts, t);
    lemma_forest_one(one, t->kids[i]);
    lemma_down(pages, free, root, t, i, pre, post);
    lemma_splice(t->kids, i, mid);
    assert(forest_count(ts, q) == count(t, q));
    assert(forest_count(one, q) == count(t->kids[i], q));
    assert(forest_count(splice(t->kids, i, mid), q) == forest_count(t->kids.take(i), q)
        + forest_count(mid, q) + forest_count(t->kids.skip(i + 1), q));
    if forest_count(mid, q) == 0 {
        assert(outside(free, one, q));
        assert(outside(free2, mid, q) == outside(free, one, q));
    }
}

pub open spec fn path_view(path: Seq<(PageNum, usize)>) -> Seq<(u64, int)> {
    path.map_values(|step: (PageNum, usize)| (step.0@, step.1 as int))
}

/// Inserts an entry below a node that is not the root, along the way that was
/// found to its key, and walks back up splitting nodes as needed. If the node
/// itself was split, the separator key and the new page before it are returned.
#[verifier::rlimit(50)]
pub(crate) fn insert_at<S: PersistentStore>(
    path: &Vec<(PageNum, usize)>,
    level: usize,
    key: &[u8],
    value: &[u8],
    page_cache: &mut PageCache<S>,
    page_allocator: &mut PageAllocator,
    root: Ghost<u64>,
    tree: Ghost<Tree>,
    lo: Ghost<Option<Seq<u8>>>,
    hi: Ghost<Option<Seq<u8>>>,
    depth: Ghost<nat>,
    pre: Ghost<Seq<u64>>,
    post: Ghost<Seq<u64>>,
) -> (result: (Option<(Vec<u8>, PageNum)>, Ghost<Seq<Tree>>))
    requires
        old(page_cache).inv(),
        can_write(old(page_cache)@),
        old(page_allocator).inv(old(page_cache)@.pages),
        can_allocate(
            *old(page_allocator),
            splits(
                old(page_cache)@.pages,
                path_to(tree@, key@),
                entry_size(Entry { key: key@, value: value@ }),
            ),
        ),
        placed(
            old(page_cache)@.pages,
            old(page_allocator)@,
            root@,
            seq![tree@],
            pre@,
            post@,
        ),
        wf(tree@, lo@, hi@, depth@),
        leaf_entry_ok(Entry { key: key@, value: value@ }, lo@, hi@),
        !keys_of(contents(tree@)).contains(key@),
        level < path@.len(),
        path_view(path@).skip(level as int) == path_to(tree@, key@),
        ({
            let way = path_to(tree@, key@);
            let size = entry_size(Entry { key: key@, value: value@ });
            let more = splits(old(page_cache)@.pages, way, size);
            spare(old(page_cache)@, more) >= insert_taken(old(page_cache)@, way, size)
                + fresh_slots(old(page_cache)@, old(page_allocator)@, more)
        }),
    ensures
        final(page_cache).inv(),
        same_session(final(page_cache)@, old(page_cache)@),
        final(page_allocator).inv(final(page_cache)@.pages),
        final(page_allocator).balance() == old(page_allocator).balance(),
        final(page_allocator).frees() == old(page_allocator).frees(),
        ({
            let way = path_to(tree@, key@);
            let size = entry_size(Entry { key: key@, value: value@ });
            let pages = old(page_cache)@.pages;
            let more = splits(pages, way, size);
            &&& final(page_allocator).allocs() == old(page_allocator).allocs() + more
            &&& final(page_allocator)@ == old(page_allocator)@.taken_many(more)
            &&& final(page_allocator)@.frontier <= old(page_allocator)@.frontier + more
            &&& room(final(page_cache)@) >= room(old(page_cache)@) - insert_taken(
                old(page_cache)@,
                way,
                size,
            ) - fresh_slots(old(page_cache)@, old(page_allocator)@, more)
            &&& more == 0 ==> final(page_cache)@.available >= old(page_cache)@.available
                - insert_taken(old(page_cache)@, way, size)
            &&& match result.0 {
                Some((sep, _)) => handed_up(pages, way, size) == Some(sep@),
                None => handed_up(pages, way, size) is None,
            }
        }),
        only_new_taken(
            old(page_cache)@,
            old(page_allocator)@,
            final(page_cache)@,
            final(page_allocator)@,
        ),
        placed(
            final(page_cache)@.pages,
            final(page_allocator)@,
            root@,
            result.1@,
            pre@,
            post@,
        ),
        evolves(
            old(page_cache)@.pages,
            old(page_allocator)@,
            seq![tree@],
            final(page_cache)@.pages,
            final(page_allocator)@,
            result.1@,
            pre@,
            post@,
        ),
        inserted(
            tree@,
            lo@,
            hi@,
            depth@,
            Entry { key: key@, value: value@ },
            split_view(result.0),
            result.1@,
        ),
    decreases path@.len() - level,
{
    let ghost t = tree@;
    let ghost entry = Entry { key: key@, value: value@ };
    let ghost pages = page_cache@.pages;
    let ghost free = page_allocator@;
    let ghost cache1 = page_cache@;
    proof {
        lemma_path_len(t, lo@, hi@, depth@, key@);
        assert(path_view(path@).skip(level as int)[0] == path_view(path@)[level as int]);
        page_allocator.lemma_wf(pages);
        lemma_forest_one(seq![t], t);
        assert(count(t, t.page()) > 0);
    }
    let num = path[level].0;
    let levels: usize = path.len();
    if level + 1 == levels {
        proof {
            assert(path_to(t, key@).skip(1) =~= Seq::<(u64, int)>::empty());
            assert(splits(pages, path_to(t, key@).skip(1), entry_size(entry)) == 0);
            lemma_leaf_insertable(pages, free, root@, t, lo@, hi@, entry, pre@, post@);
        }
        let (split, Ghost(s)) = insert_in_page(
            num,
            key,
            value,
            page_cache,
            page_allocator,
        );
        let ghost pages2 = page_cache@.pages;
        let ghost mid = match split_view(split) {
            None => lemma_leaf_fits(
                pages,
                pages2,
                free,
                root@,
                t,
                lo@,
                hi@,
                entry,
                pre@,
                post@,
            ),
            Some((sep, left)) => lemma_leaf_splits(
                pages,
                pages2,
                free,
                root@,
                t,
                lo@,
                hi@,
                entry,
                pre@,
                post@,
                sep,
                s,
            ),
        };
        return (split, Ghost(mid));
    }
    let ghost i = slot(t, key@);
    let ghost keys = t->Inner_keys;
    proof {
        lemma_descend(t, lo@, hi@, depth@, key@);
        lemma_down(pages, free, root@, t, i, pre@, post@);
        assert(kid_ok(t->kids[i]));
        assert(path_to(t, key@).skip(1) =~= path_to(t->kids[i], key@));
        assert(path_view(path@).skip(level + 1) =~= path_view(path@).skip(level as int).skip(1));
        assert(path_to(t, key@).skip(1) =~= path_to(t->kids[i], key@));
    }
    let (split, Ghost(mid)) = insert_at(
        path,
        level + 1,
        key,
        value,
        page_cache,
        page_allocator,
        root,
        Ghost(t->kids[i]),
        Ghost(lower(keys, lo@, i)),
        Ghost(upper(keys, hi@, i)),
        Ghost((depth@ - 1) as nat),
        Ghost(pre_of(pre@, t, i)),
        Ghost(post_of(post@, t, i)),
    );
    let ghost pages2 = page_cache@.pages;
    let ghost free2 = page_allocator@;
    let ghost cache2 = page_cache@;
    proof {
        lemma_page_used(pages, pages2, free, free2, root@, t, i, mid, pre@, post@);
        lemma_slot_for(cache1, cache2, num@);
    }
    match split {
        None => {
            let ghost up = lemma_inner_same(
                pages,
                pages2,
                free,
                free2,
                root@,
                t,
                lo@,
                hi@,
                depth@,
                entry,
                mid,
                pre@,
                post@,
            );
            (None, Ghost(up))
        },
        Some((sep, left)) => {
            proof {
                page_allocator.lemma_wf(pages2);
                lemma_inner_insertable(
                    pages,
                    pages2,
                    free,
                    free2,
                    root@,
                    t,
                    lo@,
                    hi@,
                    depth@,
                    entry,
                    sep@,
                    left@,
                    mid,
                    pre@,
                    post@,
                );
            }
            let left_bytes = left.to_bytes();
            let (split2, Ghost(s)) = insert_in_page(
                num,
                &sep,
                &left_bytes,
                page_cache,
                page_allocator,
            );
            let ghost pages3 = page_cache@.pages;
            proof {
                lemma_only_new_taken(
                    cache1,
                    free,
                    cache2,
                    free2,
                    page_cache@,
                    page_allocator@,
                );
            }
            let ghost up = match split_view(split2) {
                None => lemma_inner_fits(
                    pages,
                    pages2,
                    pages3,
                    free,
                    free2,
                    root@,
                    t,
                    lo@,
                    hi@,
                    depth@,
                    entry,
                    sep@,
                    left@,
                    mid,
                    pre@,
                    post@,
                ),
                Some((sep2, left2)) => lemma_inner_splits(
                    pages,
                    pages2,
                    pages3,
                    free,
                    free2,
                    root@,
                    t,
                    lo@,
                    hi@,
                    depth@,
                    entry,
                    sep@,
                    left@,
                    mid,
                    pre@,
                    post@,
                    sep2,
                    s,
                ),
            };
            (split2, Ghost(up))
        },
    }
}

/// The root has got the entry and was split: the pages `first` and `second`
/// have taken its two parts, and the root refers to them.
pub open spec fn root_split(
    pages: Map<u64, Seq<u8>>,
    pages2: Map<u64, Seq<u8>>,
    num: u64,
    entry: Entry,
    first: u64,
    second: u64,
    sep: Seq<u8>,
    s: int,
) -> bool {
    let n = node(pages[num]);
    let l = node(pages2[first]);
    let r = node(pages2[second]);
    &&& node_wf(pages2[first])
    &&& node_wf(pages2[second])
    &&& node_wf(pages2[num])
    &&& split_at(
        n,
        with_entry(n, entry),
        s,
        sep,
        Node { next: None, prev: None, ..l },
        Node { next: None, prev: None, ..r },
    )
    &&& l.prev is None
    &&& r.next is None
    &&& if n.leaf {
        l.next == Some(second) && r.prev == Some(first)
    } else {
        l.next is None && r.prev is None
    }
    &&& node(pages2[num]) == (Node {
        leaf: false,
        next: None,
        prev: None,
        right: Some(second),
        entries: seq![Entry { key: sep, value: le64_bytes(first) }],
    })
    &&& forall|q: u64|
        q != SUPERBLOCK_FPID && q != num && q != first && q != second ==> #[trigger] pages2[q]
            == pages[q]
}

/// Inserts an entry into the root. If it has no room, its entries go to two
/// new pages; this is the only place where the tree grows. The same page number
/// will continue to be the root, since it is referenced in other places.
#[verifier::rlimit(100)]
#[verifier::spinoff_prover]
pub(crate) fn insert_in_root<S: PersistentStore>(
    num: PageNum,
    key: &[u8],
    value: &[u8],
    page_cache: &mut PageCache<S>,
    page_allocator: &mut PageAllocator,
) -> (split: Ghost<Option<(Seq<u8>, int)>>)
    requires
        old(page_cache).inv(),
        can_write(old(page_cache)@),
        old(page_allocator).inv(old(page_cache)@.pages),
        !fits(
            node(old(page_cache)@.pages[num@]),
            entry_size(Entry { key: key@, value: value@ }),
        ) ==> can_allocate(*old(page_allocator), 2),
        insertable(
            old(page_cache)@.pages,
            old(page_allocator)@,
            num@,
            Entry { key: key@, value: value@ },
        ),
        key@.len() + 8 < MAX_RECORD_SIZE,
        forall|i: int|
            0 <= i < node(old(page_cache)@.pages[num@]).entries.len() ==> (#[trigger] node(
                old(page_cache)@.pages[num@],
            ).entries[i]).key.len() + 8 < MAX_RECORD_SIZE,
        ({
            let size = entry_size(Entry { key: key@, value: value@ });
            let more = if fits(node(old(page_cache)@.pages[num@]), size) {
                0nat
            } else {
                2nat
            };
            spare(old(page_cache)@, more) >= root_need(
                old(page_cache)@,
                old(page_allocator)@,
                num@,
                size,
            )
        }),
    ensures
        final(page_cache).inv(),
        same_session(final(page_cache)@, old(page_cache)@),
        final(page_allocator).inv(final(page_cache)@.pages),
        final(page_allocator).balance() == old(page_allocator).balance(),
        final(page_allocator).frees() == old(page_allocator).frees(),
        room(final(page_cache)@) >= room(old(page_cache)@) - root_need(
            old(page_cache)@,
            old(page_allocator)@,
            num@,
            entry_size(Entry { key: key@, value: value@ }),
        ),
        split@ is None ==> final(page_cache)@.available >= old(page_cache)@.available - root_need(
            old(page_cache)@,
            old(page_allocator)@,
            num@,
            entry_size(Entry { key: key@, value: value@ }),
        ),
        only_new_taken(
            old(page_cache)@,
            old(page_allocator)@,
            final(page_cache)@,
            final(page_allocator)@,
        ),
        split@ is None <==> fits(
            node(old(page_cache)@.pages[num@]),
            entry_size(Entry { key: key@, value: value@ }),
        ),
        match split@ {
            None => {
                &&& final(page_allocator)@ == old(page_allocator)@
                &&& final(page_allocator).allocs() == old(page_allocator).allocs()
                &&& entry_added(
                    old(page_cache)@.pages,
                    final(page_cache)@.pages,
                    num@,
                    Entry { key: key@, value: value@ },
                )
            },
            Some((sep, s)) => {
                &&& final(page_allocator)@ == old(page_allocator)@.taken().taken()
                &&& final(page_allocator).allocs() == old(page_allocator).allocs() + 2
                &&& root_split(
                    old(page_cache)@.pages,
                    final(page_cache)@.pages,
                    num@,
                    Entry { key: key@, value: value@ },
                    old(page_allocator)@.next(),
                    old(page_allocator)@.taken().next(),
                    sep,
                    s,
                )
            },
        },
{
    let ghost pages = page_cache@.pages;
    let ghost free = page_allocator@;
    let ghost n = node(pages[num@]);
    let ghost entry = Entry { key: key@, value: value@ };
    let ghost cache0 = page_cache@;
    proof {
        page_allocator.lemma_wf(pages);
    }
    let mut page = page_cache.read_page(num);
    if get_free_space(&page) >= get_entry_size(key, value) {
        insert_entry(&mut page, key, value);
        page_cache.write_page(num, &page);
        proof {
            page_allocator.lemma_inv(pages, page_cache@.pages);
        }
        return Ghost(None);
    }
    proof {
        free.lemma_alloc();
        free.taken().lemma_alloc();
        lemma_links_valid(pages[num@]);
        lemma_rank(keys_of(n.entries), key@);
        lemma_fresh_few(cache0, free);
        assert(slot_for(page_cache@, free.next()) == slot_for(cache0, free.next()));
        assert(slot_for(page_cache@, free.taken().next()) == slot_for(cache0, free.taken().next()));
        assert(slot_for(page_cache@, num@) == slot_for(cache0, num@));
        assert(room(page_cache@) == room(cache0));
        assert(page_cache@.refs[free.next()] < u32::MAX);
    }
    let new_page_pnum1 = page_allocator.allocate(page_cache);
    proof {
        page_allocator.lemma_wf(page_cache@.pages);
        assert(page_cache@.refs[free.taken().next()] < u32::MAX);
    }
    let new_page_pnum2 = page_allocator.allocate(page_cache);
    let ghost pages1 = page_cache@.pages;
    let ghost free2 = page_allocator@;
    proof {
        assert(free2.in_use(num@));
        assert(free2.in_use(new_page_pnum1@));
        assert(free2.in_use(new_page_pnum2@));
        page_allocator.lemma_wf(pages1);
    }
    let mut new_page1: PageData = [0;PAGE_SIZE];
    let mut new_page2: PageData = [0;PAGE_SIZE];
    let (split_key, Ghost(s)) = split_insert(&page, key, value, &mut new_page1, &mut new_page2);

    // The root node can be a leaf if the number of entries is small. If so,
    // need to fix the linked list of nodes.
    if is_leaf(&page) {
        set_next_sib(&mut new_page1, Some(new_page_pnum2));
        set_prev_sib(&mut new_page2, Some(new_page_pnum1));
    }
    // Reinitialize the root. We've created two new pages and copied half
    // of the roots entries into each of them. Now one of them will be the
    // "right_child" member, the other gets an entry with a key.

    proof {
        assert(split_key@.len() + 8 < MAX_RECORD_SIZE) by {
            let all = with_entry(n, entry);
            let k = if n.leaf {
                s - 1
            } else {
                s
            };
            let at = rank(keys_of(n.entries), key@);
            assert(split_key@ == all[k].key);
            if k < at {
                assert(all[k] == n.entries[k]);
            } else if k > at {
                assert(all[k] == n.entries[k - 1]);
            }
        }
    }
    init_btree_node(&mut page);
    set_not_leaf(&mut page);
    let first_bytes = new_page_pnum1.to_bytes();
    append_entry(&mut page, &split_key, &first_bytes);
    set_right_child(&mut page, Some(new_page_pnum2));
    page_cache.write_page(new_page_pnum1, &new_page1);
    page_cache.write_page(new_page_pnum2, &new_page2);
    page_cache.write_page(num, &page);
    proof {
        page_allocator.lemma_inv(pages1, page_cache@.pages);
        assert(node(page@).entries =~= seq![Entry { key: split_key@, value: first_bytes@ }]);
    }
    Ghost(Some((split_key@, s)))
}

/// A root with one key between two trees.
pub open spec fn root_over(root: u64, sep: Seq<u8>, a: Tree, b: Tree) -> Tree {
    Tree::Inner { page: root, keys: seq![sep], kids: seq![a, b] }
}

pub proof fn lemma_root_over(root: u64, sep: Seq<u8>, a: Tree, b: Tree, d: nat)
    requires
        wf(a, None, Some(sep), d),
        wf(b, Some(sep), None, d),
        kid_ok(a),
        kid_ok(b),
        key_ok(sep),
    ensures
        wf(root_over(root, sep, a, b), None, None, d + 1),
        leaves(root_over(root, sep, a, b)) == leaves(a) + leaves(b),
        forall|q: u64| #[trigger]
            count(root_over(root, sep, a, b), q) == (if q == root {
                1nat
            } else {
                0nat
            }) + count(a, q) + count(b, q),
        inner_entries(seq![sep], seq![a, b]) == seq![Entry { key: sep, value: le64_bytes(a.page()) }],
        thick(a) && thick(b) ==> thick(root_over(root, sep, a, b)),
{
    let t = root_over(root, sep, a, b);
    let kids = t->kids;
    let keys = t->Inner_keys;
    lemma_forest_two(kids, a, b);
    assert forall|i: int| 0 <= i < kids.len() implies kid_ok(#[trigger] kids[i]) && wf(
        kids[i],
        lower(keys, None, i),
        upper(keys, None, i),
        d,
    ) by {
        if i == 0 {
            assert(kids[i] == a);
        } else {
            assert(kids[i] == b);
        }
    }
    assert forall|q: u64| #[trigger] count(t, q) == (if q == root {
        1nat
    } else {
        0nat
    }) + count(a, q) + count(b, q) by {
        assert(forest_count(kids, q) == count(a, q) + count(b, q));
    }
    assert(inner_entries(keys, kids) =~= seq![Entry { key: sep, value: le64_bytes(a.page()) }]);
}

/// A root that is a leaf was split around the new entry.
#[verifier::rlimit(40)]
#[verifier::spinoff_prover]
pub proof fn lemma_root_leaf_splits(
    pages: Map<u64, Seq<u8>>,
    pages2: Map<u64, Seq<u8>>,
    free: FreePages,
    t: Tree,
    entry: Entry,
    sep: Seq<u8>,
    s: int,
) -> (t2: Tree)
    requires
        placed(pages, free, t.page(), seq![t], Seq::empty(), Seq::empty()),
        wf(t, None, None, 0),
        entry_ok(entry),
        !keys_of(contents(t)).contains(entry.key),
        free.wf(),
        free.frontier + 2 < INVALID_PAGE,
        root_split(
            pages,
            pages2,
            t.page(),
            entry,
            free.next(),
            free.taken().next(),
            sep,
            s,
        ),
    ensures
        placed(
            pages2,
            free.taken().taken(),
            t.page(),
            seq![t2],
            Seq::empty(),
            Seq::empty(),
        ),
        evolves(
            pages,
            free,
            seq![t],
            pages2,
            free.taken().taken(),
            seq![t2],
            Seq::empty(),
            Seq::empty(),
        ),
        t2.page() == t.page(),
        wf(t2, None, None, 1),
        contents(t2) == contents(t).insert(rank(keys_of(contents(t)), entry.key), entry),
        thick(t) ==> thick(t2),
{
    let none = Seq::<u64>::empty();
    let p = t.page();
    let free2 = free.taken().taken();
    let p1 = free.next();
    let p2 = free.taken().next();
    free.lemma_alloc();
    free.taken().lemma_alloc();
    assert(free.taken().in_use(p1));
    lemma_leaf_insertable(pages, free, p, t, None, None, entry, none, none);
    lemma_leaf_contents(t);
    let entries = t->Leaf_entries;
    let n = node(pages[p]);
    let all = with_entry(n, entry);
    lemma_leaf_insert(p, entries, None, None, entry);
    lemma_cut_leaf(all, None, None, s, p, p1, p2);
    let l = node(pages2[p1]);
    let r = node(pages2[p2]);
    let l0 = Node { next: None, prev: None, ..l };
    let r0 = Node { next: None, prev: None, ..r };
    assert(l0.entries == l.entries && l0.leaf == l.leaf && l0.right == l.right);
    assert(r0.entries == r.entries && r0.leaf == r.leaf && r0.right == r.right);
    let a = Tree::Leaf { page: p1, entries: all.take(s) };
    let b = Tree::Leaf { page: p2, entries: all.skip(s) };
    let t2 = root_over(p, sep, a, b);
    lemma_root_over(p, sep, a, b, 0);
    let ts = seq![t];
    let ts2 = seq![t2];
    lemma_forest_one(ts, t);
    lemma_forest_one(ts2, t2);
    assert(repr(pages2, a));
    assert(repr(pages2, b));
    assert forall|i: int| 0 <= i < t2->kids.len() implies repr(pages2, #[trigger] t2->kids[i]) by {
        if i == 0 {
            assert(t2->kids[i] == a);
        } else {
            assert(t2->kids[i] == b);
        }
    }
    assert(repr(pages2, t2));
    assert(forest_count(ts, p) == count(t, p));
    assert(free.in_use(p));
    assert forall|q: u64| #[trigger] forest_count(ts2, q) <= 1 && (forest_count(ts2, q) > 0 ==> (
    free2.in_use(q) && (q == p || q >= FIRST_FREE_PAGE))) by {
        assert(forest_count(ts2, q) == count(t2, q));
        assert(free.taken().in_use(q) <==> free.in_use(q) || q == p1);
        assert(free2.in_use(q) <==> free.taken().in_use(q) || q == p2);
    }
    assert forall|q: u64| #[trigger] outside(free2, ts2, q) == outside(free, ts, q) by {
        assert(forest_count(ts2, q) == count(t2, q));
        assert(forest_count(ts, q) == count(t, q));
        assert(free.taken().in_use(q) <==> free.in_use(q) || q == p1);
        assert(free2.in_use(q) <==> free.taken().in_use(q) || q == p2);
    }
    assert forall|q: u64| #[trigger] outside(free, ts, q) implies relinked(
        pages[q],
        pages2[q],
    ) && (edge(none, none, q) || pages2[q] == pages[q]) by {
        assert(forest_count(ts, q) == count(t, q));
    }
    let list = none + nums(forest_leaves(ts2)) + none;
    assert(list =~= seq![p1, p2]);
    assert forall|j: int| 0 <= j < list.len() implies link_ok(pages2, list, #[trigger] idx(j)) by {
        if j == 0 {
            assert(list[j] == p1);
        } else {
            assert(list[j] == p2);
        }
    }
    lemma_flat_concat(leaves(a), leaves(b));
    lemma_leaf_contents(a);
    lemma_leaf_contents(b);
    assert(all.take(s) + all.skip(s) =~= all);
    t2
}

/// A root that is an interior node was split around the separator of a subtree.
pub proof fn lemma_root_inner_splits(
    pages: Map<u64, Seq<u8>>,
    pages2: Map<u64, Seq<u8>>,
    pages3: Map<u64, Seq<u8>>,
    free: FreePages,
    free2: FreePages,
    t: Tree,
    d: nat,
    entry: Entry,
    sep: Seq<u8>,
    left: u64,
    mid: Seq<Tree>,
    sep2: Seq<u8>,
    s: int,
) -> (t2: Tree)
    requires
        below_done(
            pages,
            pages2,
            free,
            free2,
            t.page(),
            t,
            None,
            None,
            d,
            entry,
            Some((sep, left)),
            mid,
            Seq::empty(),
            Seq::empty(),
        ),
        free2.wf(),
        free2.frontier + 2 < INVALID_PAGE,
        root_split(
            pages2,
            pages3,
            t.page(),
            Entry { key: sep, value: le64_bytes(left) },
            free2.next(),
            free2.taken().next(),
            sep2,
            s,
        ),
    ensures
        placed(
            pages3,
            free2.taken().taken(),
            t.page(),
            seq![t2],
            Seq::empty(),
            Seq::empty(),
        ),
        evolves(
            pages,
            free,
            seq![t],
            pages3,
            free2.taken().taken(),
            seq![t2],
            Seq::empty(),
            Seq::empty(),
        ),
        t2.page() == t.page(),
        wf(t2, None, None, d + 1),
        contents(t2) == contents(t).insert(rank(keys_of(contents(t)), entry.key), entry),
        thick(t) ==> thick(t2),
{
    let none = Seq::<u64>::empty();
    let i = slot(t, entry.key);
    let p = t.page();
    let p1 = free2.next();
    let p2 = free2.taken().next();
    let free3 = free2.taken().taken();
    let g = grown(t, i, sep, mid);
    let kids3 = splice(t->kids, i, mid);
    lemma_inner_insertable(
        pages,
        pages2,
        free,
        free2,
        p,
        t,
        None,
        None,
        d,
        entry,
        sep,
        left,
        mid,
        none,
        none,
    );
    lemma_page_used(pages, pages2, free, free2, p, t, i, mid, none, none);
    free2.lemma_alloc();
    free2.taken().lemma_alloc();
    assert(free2.taken().in_use(p1));
    assert(free2.taken().in_use(p));
    let n = node(pages2[p]);
    let l = node(pages3[p1]);
    let r = node(pages3[p2]);
    assert((Node { next: None, prev: None, ..l }) == l);
    assert((Node { next: None, prev: None, ..r }) == r);
    assert(inner_entries(g->Inner_keys, g->kids)[s].key == g->Inner_keys[s]);
    lemma_cut_inner(g, None, None, d, s, p1, p2);
    let a = cut_left(g, s, p1);
    let b = cut_right(g, s, p2);
    let t2 = root_over(p, sep2, a, b);
    lemma_root_over(p, sep2, a, b, d);
    let up = seq![t2];
    let fresh = set![p, p1, p2];
    lemma_forest_one(up, t2);
    assert forall|q: u64| #[trigger] forest_count(up, q) == forest_count(kids3, q) + (
    if fresh.contains(q) {
        1nat
    } else {
        0nat
    }) by {
        assert(forest_count(up, q) == count(t2, q));
        assert(count(t2, q) == (if q == p {
            1nat
        } else {
            0nat
        }) + count(a, q) + count(b, q));
        assert(forest_count(g->kids, q) == forest_count(g->kids.take(s + 1), q) + forest_count(
            g->kids.skip(s + 1),
            q,
        ));
    }
    assert forall|q: u64| #[trigger] fresh.contains(q) implies q == p || (!free2.in_use(q) && q
        >= FIRST_FREE_PAGE) by {
        if q == p2 {
            assert(free2.taken().in_use(q) <==> free2.in_use(q) || q == p1);
        }
    }
    assert forall|q: u64| #[trigger] free3.in_use(q) <==> (free2.in_use(q) && q != p)
        || fresh.contains(q) by {
        assert(free2.taken().in_use(q) <==> free2.in_use(q) || q == p1);
    }
    lemma_up(
        pages,
        pages2,
        pages3,
        free,
        free2,
        free3,
        p,
        t,
        i,
        mid,
        up,
        fresh,
        none,
        none,
    );
    let kid = g->kids[s].page();
    assert(kid != INVALID_PAGE) by {
        lemma_member_count(kids3, s, kid);
        lemma_counted_used(pages, pages2, free, free2, p, t, i, mid, none, none, kid);
    }
    lemma_cut_repr(pages3, g, s, p1, p2, n);
    assert forall|j: int| 0 <= j < t2->kids.len() implies repr(pages3, #[trigger] t2->kids[j]) by {
        if j == 0 {
            assert(t2->kids[j] == a);
        } else {
            assert(t2->kids[j] == b);
        }
    }
    assert(repr(pages3, t2));
    if thick(t) {
        lemma_thick_spliced(t, i, mid);
        lemma_thick_cut(g, s, p1, p2);
    }
    lemma_inserted_contents(t, None, None, d, entry, mid, up);
    t2
}

} // verus!
