//! Deletion from the nodes of a B-tree: what is done to a single page, and why
//! the pages still hold a tree afterwards.

use vstd::prelude::*;

use crate::btree_insert::{
    can_write, lemma_page_used, lemma_spliced_contents, path_view, same_session,
};
use crate::btree_model::{
    contents, count, forest_contents, forest_count, forest_leaves, idx, inner_entries, kid_ok,
    left_of, lemma_contents, lemma_descend, lemma_forest_one, lemma_found, lemma_leaf_contents,
    lemma_leaf_remove, lemma_member_count, lemma_path_len, lemma_replaced, lemma_shrunk, link_ok,
    lower, nums, path_to, relinked, replaced, repr, right_of, shrunk, slot, splice, upper, wf,
    Tree,
};
use crate::btree_node::{
    delete_entry, get_entry_value, get_next_sib, get_num_entries, get_prev_sib, keys_of,
    lemma_links_valid, node, node_wf, set_leaf, set_next_sib, set_prev_sib, set_right_child, Entry,
    Node,
};
use crate::btree_place::{
    edge, evolves, lemma_down, lemma_leaf_removed, lemma_leaf_updated, lemma_list_distinct,
    lemma_up, outside, placed, post_of, pre_of,
};
use crate::key_order::{lemma_rank, rank};
use crate::page_allocator::{room, spare, FreePages, PageAllocator, FIRST_FREE_PAGE};
use crate::page_cache::{CacheState, PageCache, PageData, PageNum, PersistentStore, INVALID_PAGE};
use crate::slots::{
    delete_need, delete_taken, leaf_trimmed, lemma_link_slot, lemma_slot_for, link_slot, no_colder,
    slot_for, vanishes, vanishing,
};
use crate::superblock::SUPERBLOCK_FPID;
use crate::util::lemma_le64_roundtrip;

verus! {

/// The allocator can take `n` more pages back.
pub open spec fn can_free(allocator: PageAllocator, n: nat) -> bool {
    allocator.frees() + n <= usize::MAX
}

/// What a deletion below a node has done: the subtree has one entry less, or is gone.
pub open spec fn removed(
    t: Tree,
    lo: Option<Seq<u8>>,
    hi: Option<Seq<u8>>,
    d: nat,
    key: Seq<u8>,
    mid: Seq<Tree>,
) -> bool {
    &&& forest_contents(mid) == contents(t).remove(rank(keys_of(contents(t)), key))
    &&& mid.len() <= 1
    &&& mid.len() == 1 ==> {
        &&& mid[0].page() == t.page()
        &&& wf(mid[0], lo, hi, d)
        &&& kid_ok(mid[0])
    }
}

/// The links of a leaf lead to leaves in use.
pub open spec fn linked(pages: Map<u64, Seq<u8>>, free: FreePages, num: u64) -> bool {
    let n = node(pages[num]);
    &&& node_wf(pages[num])
    &&& free.in_use(num)
    &&& n.prev matches Some(prev) ==> node_wf(pages[prev]) && free.in_use(prev) && prev != num
        && n.next != Some(prev)
    &&& n.next matches Some(next) ==> node_wf(pages[next]) && free.in_use(next) && next != num
}

/// The leaf is no longer linked, and its siblings are linked with each other.
pub open spec fn unlinked(pages: Map<u64, Seq<u8>>, pages2: Map<u64, Seq<u8>>, num: u64) -> bool {
    let n = node(pages[num]);
    &&& n.prev matches Some(prev) ==> node_wf(pages2[prev]) && node(pages2[prev]) == (Node {
        next: n.next,
        ..node(pages[prev])
    })
    &&& n.next matches Some(next) ==> node_wf(pages2[next]) && node(pages2[next]) == (Node {
        prev: n.prev,
        ..node(pages[next])
    })
    &&& forall|q: u64|
        q != SUPERBLOCK_FPID && q != num && n.prev != Some(q) && n.next != Some(q)
            ==> #[trigger] pages2[q] == pages[q]
}

/// How many slots it takes to give a leaf back: its own and those of its siblings.
pub open spec fn leaf_need(cache: CacheState, num: u64) -> nat {
    let n = node(cache.pages[num]);
    slot_for(cache, num) + link_slot(cache, n.prev) + link_slot(cache, n.next)
}

/// Takes a leaf out of the linked list and gives its page back.
#[verifier::rlimit(40)]
fn remove_leaf<S: PersistentStore>(
    num: PageNum,
    page: &PageData,
    page_cache: &mut PageCache<S>,
    page_allocator: &mut PageAllocator,
)
    requires
        old(page_cache).inv(),
        can_write(old(page_cache)@),
        old(page_allocator).inv(old(page_cache)@.pages),
        can_free(*old(page_allocator), 1),
        linked(old(page_cache)@.pages, old(page_allocator)@, num@),
        num@ >= FIRST_FREE_PAGE,
        node(page@).next == node(old(page_cache)@.pages[num@]).next,
        node(page@).prev == node(old(page_cache)@.pages[num@]).prev,
        room(old(page_cache)@) >= leaf_need(old(page_cache)@, num@),
    ensures
        final(page_cache).inv(),
        same_session(final(page_cache)@, old(page_cache)@),
        final(page_allocator).inv(final(page_cache)@.pages),
        final(page_allocator).balance() == old(page_allocator).balance(),
        final(page_allocator)@ == old(page_allocator)@.given_back(num@),
        final(page_allocator).allocs() == old(page_allocator).allocs(),
        final(page_allocator).frees() == old(page_allocator).frees() + 1,
        no_colder(old(page_cache)@, final(page_cache)@),
        room(final(page_cache)@) >= room(old(page_cache)@) - leaf_need(old(page_cache)@, num@),
        unlinked(old(page_cache)@.pages, final(page_cache)@.pages, num@),
{
    let ghost pages = page_cache@.pages;
    let ghost free = page_allocator@;
    proof {
        page_allocator.lemma_wf(pages);
        lemma_links_valid(pages[num@]);
        free.lemma_free(num@);
    }
    match get_prev_sib(page) {
        Some(prev) => {
            let mut prev_page = page_cache.read_page(prev);
            set_next_sib(&mut prev_page, get_next_sib(page));
            page_cache.write_page(prev, &prev_page);
        },
        None => {},
    }
    match get_next_sib(page) {
        Some(next) => {
            let mut next_page = page_cache.read_page(next);
            set_prev_sib(&mut next_page, get_prev_sib(page));
            page_cache.write_page(next, &next_page);
        },
        None => {},
    }
    page_cache.write_page(num, page);
    proof {
        page_allocator.lemma_inv(pages, page_cache@.pages);
    }
    page_allocator.free(num, page_cache);
}

/// The leaf of a tree is linked with its siblings.
proof fn lemma_leaf_linked(
    pages: Map<u64, Seq<u8>>,
    free: FreePages,
    root: u64,
    t: Tree,
    pre: Seq<u64>,
    post: Seq<u64>,
)
    requires
        placed(pages, free, root, seq![t], pre, post),
        t is Leaf,
    ensures
        linked(pages, free, t.page()),
        node(pages[t.page()]).entries == t->Leaf_entries,
        node(pages[t.page()]).leaf,
        t.page() == root || t.page() >= FIRST_FREE_PAGE,
        pre.len() == 0 ==> node(pages[t.page()]).prev is None,
        post.len() == 0 ==> node(pages[t.page()]).next is None,
{
    let ts = seq![t];
    let p = t.page();
    lemma_forest_one(ts, t);
    assert(repr(pages, ts[0]));
    assert(forest_count(ts, p) == count(t, p));
    assert(free.in_use(p));
    let list = pre + nums(forest_leaves(ts)) + post;
    let k = pre.len() as int;
    assert(nums(forest_leaves(ts)) =~= seq![p]);
    lemma_list_distinct(free, ts, pre, post);
    assert(link_ok(pages, list, idx(k)));
    assert(list[k] == p);
    if k > 0 {
        assert(list[k - 1] == pre.last());
        assert(link_ok(pages, list, idx(k - 1)));
        assert(pre.contains(pre[k - 1]));
        assert(outside(free, ts, pre[k - 1]));
    }
    if post.len() > 0 {
        assert(list[k + 1] == post[0]);
        assert(link_ok(pages, list, idx(k + 1)));
        assert(post.contains(post[0]));
        assert(outside(free, ts, post[0]));
    }
}

/// The leaf has one entry less and is not empty.
proof fn lemma_leaf_shrinks(
    pages: Map<u64, Seq<u8>>,
    pages2: Map<u64, Seq<u8>>,
    free: FreePages,
    root: u64,
    t: Tree,
    lo: Option<Seq<u8>>,
    hi: Option<Seq<u8>>,
    key: Seq<u8>,
    pre: Seq<u64>,
    post: Seq<u64>,
) -> (mid: Seq<Tree>)
    requires
        placed(pages, free, root, seq![t], pre, post),
        wf(t, lo, hi, 0),
        keys_of(contents(t)).contains(key),
        node_wf(pages2[t.page()]),
        node(pages2[t.page()]) == (Node {
            entries: node(pages[t.page()]).entries.remove(
                rank(keys_of(node(pages[t.page()]).entries), key),
            ),
            ..node(pages[t.page()])
        }),
        forall|q: u64| q != t.page() ==> #[trigger] pages2[q] == pages[q],
    ensures
        placed(pages2, free, root, mid, pre, post),
        evolves(pages, free, seq![t], pages2, free, mid, pre, post),
        mid == seq![
            Tree::Leaf {
                page: t.page(),
                entries: contents(t).remove(rank(keys_of(contents(t)), key)),
            },
        ],
        wf(mid[0], lo, hi, 0),
        forest_contents(mid) == contents(t).remove(rank(keys_of(contents(t)), key)),
{
    lemma_leaf_linked(pages, free, root, t, pre, post);
    lemma_leaf_contents(t);
    lemma_found(t, lo, hi, 0, key);
    let entries = t->Leaf_entries;
    let at = rank(keys_of(entries), key);
    lemma_rank(keys_of(entries), key);
    let less = entries.remove(at);
    let t2 = Tree::Leaf { page: t.page(), entries: less };
    let mid = seq![t2];
    lemma_leaf_remove(t.page(), entries, lo, hi, at);
    lemma_leaf_updated(pages, pages2, free, root, t, less, pre, post);
    lemma_forest_one(mid, t2);
    lemma_leaf_contents(t2);
    mid
}

/// The leaf has lost its last entry and its place.
proof fn lemma_leaf_vanishes(
    pages: Map<u64, Seq<u8>>,
    pages2: Map<u64, Seq<u8>>,
    free: FreePages,
    root: u64,
    t: Tree,
    lo: Option<Seq<u8>>,
    hi: Option<Seq<u8>>,
    key: Seq<u8>,
    pre: Seq<u64>,
    post: Seq<u64>,
) -> (mid: Seq<Tree>)
    requires
        placed(pages, free, root, seq![t], pre, post),
        wf(t, lo, hi, 0),
        keys_of(contents(t)).contains(key),
        free.wf(),
        t.page() >= FIRST_FREE_PAGE,
        contents(t).len() == 1,
        unlinked(pages, pages2, t.page()),
    ensures
        mid.len() == 0,
        placed(pages2, free.given_back(t.page()), root, mid, pre, post),
        evolves(
            pages,
            free,
            seq![t],
            pages2,
            free.given_back(t.page()),
            mid,
            pre,
            post,
        ),
        removed(t, lo, hi, 0, key, mid),
{
    lemma_leaf_linked(pages, free, root, t, pre, post);
    free.lemma_free(t.page());
    lemma_found(t, lo, hi, 0, key);
    let mid = Seq::<Tree>::empty();
    lemma_leaf_removed(
        pages,
        pages2,
        free,
        free.given_back(t.page()),
        root,
        t,
        pre,
        post,
    );
    lemma_contents(t, lo, hi, 0);
    lemma_rank(keys_of(contents(t)), key);
    assert(forest_contents(mid) =~= contents(t).remove(rank(keys_of(contents(t)), key)));
    mid
}

/// What is known after a deletion from the subtree `i` of an interior node.
pub open spec fn below_removed(
    pages: Map<u64, Seq<u8>>,
    pages2: Map<u64, Seq<u8>>,
    free: FreePages,
    free2: FreePages,
    root: u64,
    t: Tree,
    lo: Option<Seq<u8>>,
    hi: Option<Seq<u8>>,
    d: nat,
    key: Seq<u8>,
    mid: Seq<Tree>,
    pre: Seq<u64>,
    post: Seq<u64>,
) -> bool {
    let i = slot(t, key);
    let keys = t->Inner_keys;
    &&& placed(pages, free, root, seq![t], pre, post)
    &&& wf(t, lo, hi, d)
    &&& t is Inner
    &&& 0 <= i < t->kids.len()
    &&& keys_of(contents(t)).contains(key)
    &&& placed(pages2, free2, root, mid, pre_of(pre, t, i), post_of(post, t, i))
    &&& evolves(
        pages,
        free,
        seq![t->kids[i]],
        pages2,
        free2,
        mid,
        pre_of(pre, t, i),
        post_of(post, t, i),
    )
    &&& removed(
        t->kids[i],
        lower(keys, lo, i),
        upper(keys, hi, i),
        (d - 1) as nat,
        key,
        mid,
    )
}

/// The entries of the whole after the deletion from a subtree.
proof fn lemma_removed_contents(
    t: Tree,
    lo: Option<Seq<u8>>,
    hi: Option<Seq<u8>>,
    d: nat,
    key: Seq<u8>,
    mid: Seq<Tree>,
    ts: Seq<Tree>,
)
    requires
        wf(t, lo, hi, d),
        t is Inner,
        keys_of(contents(t)).contains(key),
        forest_contents(ts) == left_of(t, slot(t, key)) + forest_contents(mid) + right_of(
            t,
            slot(t, key),
        ),
        forest_contents(mid) == contents(t->kids[slot(t, key)]).remove(
            rank(keys_of(contents(t->kids[slot(t, key)])), key),
        ),
    ensures
        forest_contents(ts) == contents(t).remove(rank(keys_of(contents(t)), key)),
{
    let i = slot(t, key);
    lemma_descend(t, lo, hi, d, key);
    let kid = t->kids[i];
    let keys = t->Inner_keys;
    lemma_contents(kid, lower(keys, lo, i), upper(keys, hi, i), (d - 1) as nat);
    lemma_found(kid, lower(keys, lo, i), upper(keys, hi, i), (d - 1) as nat, key);
    lemma_rank(keys_of(contents(kid)), key);
    assert(forest_contents(ts) =~= contents(t).remove(rank(keys_of(contents(t)), key)));
}

/// The subtree has kept its place: the node stays as it is.
pub proof fn lemma_delete_same(
    pages: Map<u64, Seq<u8>>,
    pages2: Map<u64, Seq<u8>>,
    free: FreePages,
    free2: FreePages,
    root: u64,
    t: Tree,
    lo: Option<Seq<u8>>,
    hi: Option<Seq<u8>>,
    d: nat,
    key: Seq<u8>,
    mid: Seq<Tree>,
    pre: Seq<u64>,
    post: Seq<u64>,
) -> (up: Seq<Tree>)
    requires
        below_removed(pages, pages2, free, free2, root, t, lo, hi, d, key, mid, pre, post),
        mid.len() == 1,
    ensures
        up.len() == 1,
        placed(pages2, free2, root, up, pre, post),
        evolves(pages, free, seq![t], pages2, free2, up, pre, post),
        removed(t, lo, hi, d, key, up),
{
    let i = slot(t, key);
    let p = t.page();
    let t2 = replaced(t, i, mid);
    let up = seq![t2];
    let fresh = set![p];
    lemma_replaced(t, lo, hi, d, i, mid);
    lemma_forest_one(up, t2);
    lemma_page_used(pages, pages2, free, free2, root, t, i, mid, pre, post);
    assert forall|q: u64| #[trigger] forest_count(up, q) == forest_count(
        splice(t->kids, i, mid),
        q,
    ) + (if fresh.contains(q) {
        1nat
    } else {
        0nat
    }) by {
        assert(forest_count(up, q) == count(t2, q));
    }
    lemma_up(
        pages,
        pages2,
        pages2,
        free,
        free2,
        free2,
        root,
        t,
        i,
        mid,
        up,
        fresh,
        pre,
        post,
    );
    assert(repr(pages2, t2));
    lemma_spliced_contents(t, i, mid, up);
    lemma_removed_contents(t, lo, hi, d, key, mid, up);
    up
}

/// The node of an interior node without its subtree `i`.
pub open spec fn without_kid(n: Node, t: Tree, i: int) -> Node {
    if i < t->Inner_keys.len() {
        Node { entries: n.entries.remove(i), ..n }
    } else {
        Node {
            right: Some(t->kids[i - 1].page()),
            entries: n.entries.remove(i - 1),
            ..n
        }
    }
}

/// The subtree is gone, and the node has others.
pub proof fn lemma_delete_shrunk(
    pages: Map<u64, Seq<u8>>,
    pages2: Map<u64, Seq<u8>>,
    pages3: Map<u64, Seq<u8>>,
    free: FreePages,
    free2: FreePages,
    root: u64,
    t: Tree,
    lo: Option<Seq<u8>>,
    hi: Option<Seq<u8>>,
    d: nat,
    key: Seq<u8>,
    mid: Seq<Tree>,
    pre: Seq<u64>,
    post: Seq<u64>,
) -> (up: Seq<Tree>)
    requires
        below_removed(pages, pages2, free, free2, root, t, lo, hi, d, key, mid, pre, post),
        mid.len() == 0,
        t->kids.len() >= 2,
        node_wf(pages3[t.page()]),
        node(pages3[t.page()]) == without_kid(node(pages2[t.page()]), t, slot(t, key)),
        forall|q: u64| q != t.page() ==> #[trigger] pages3[q] == pages2[q],
    ensures
        up.len() == 1,
        placed(pages3, free2, root, up, pre, post),
        evolves(pages, free, seq![t], pages3, free2, up, pre, post),
        removed(t, lo, hi, d, key, up),
{
    let i = slot(t, key);
    let p = t.page();
    assert(mid =~= Seq::<Tree>::empty());
    let t2 = shrunk(t, i);
    let up = seq![t2];
    let fresh = set![p];
    lemma_shrunk(t, lo, hi, d, i);
    lemma_forest_one(up, t2);
    lemma_page_used(pages, pages2, free, free2, root, t, i, mid, pre, post);
    assert forall|q: u64| #[trigger] forest_count(up, q) == forest_count(
        splice(t->kids, i, mid),
        q,
    ) + (if fresh.contains(q) {
        1nat
    } else {
        0nat
    }) by {
        assert(forest_count(up, q) == count(t2, q));
    }
    lemma_up(
        pages,
        pages2,
        pages3,
        free,
        free2,
        free2,
        root,
        t,
        i,
        mid,
        up,
        fresh,
        pre,
        post,
    );
    assert(repr(pages3, t2));
    lemma_spliced_contents(t, i, mid, up);
    lemma_removed_contents(t, lo, hi, d, key, mid, up);
    up
}

/// The subtree was the only one of the node, which is given back too.
pub proof fn lemma_delete_vanishes(
    pages: Map<u64, Seq<u8>>,
    pages2: Map<u64, Seq<u8>>,
    pages3: Map<u64, Seq<u8>>,
    free: FreePages,
    free2: FreePages,
    root: u64,
    t: Tree,
    lo: Option<Seq<u8>>,
    hi: Option<Seq<u8>>,
    d: nat,
    key: Seq<u8>,
    mid: Seq<Tree>,
    pre: Seq<u64>,
    post: Seq<u64>,
) -> (up: Seq<Tree>)
    requires
        below_removed(pages, pages2, free, free2, root, t, lo, hi, d, key, mid, pre, post),
        mid.len() == 0,
        t->kids.len() == 1,
        free2.wf(),
        t.page() >= FIRST_FREE_PAGE,
        forall|q: u64|
            q != t.page() && q != SUPERBLOCK_FPID ==> #[trigger] pages3[q] == pages2[q],
    ensures
        up.len() == 0,
        placed(pages3, free2.given_back(t.page()), root, up, pre, post),
        evolves(
            pages,
            free,
            seq![t],
            pages3,
            free2.given_back(t.page()),
            up,
            pre,
            post,
        ),
        removed(t, lo, hi, d, key, up),
{
    let i = slot(t, key);
    let p = t.page();
    assert(mid =~= Seq::<Tree>::empty());
    let up = Seq::<Tree>::empty();
    let fresh = Set::<u64>::empty();
    lemma_page_used(pages, pages2, free, free2, root, t, i, mid, pre, post);
    free2.lemma_free(p);
    assert(splice(t->kids, i, mid) =~= up);
    lemma_up(
        pages,
        pages2,
        pages3,
        free,
        free2,
        free2.given_back(p),
        root,
        t,
        i,
        mid,
        up,
        fresh,
        pre,
        post,
    );
    lemma_spliced_contents(t, i, mid, up);
    lemma_removed_contents(t, lo, hi, d, key, mid, up);
    up
}

/// Takes the subtree `index` out of a copy of an interior node. Says whether the
/// node has no subtree left.
fn remove_kid(page: &mut PageData, index: usize, tree: Ghost<Tree>) -> (empty: bool)
    requires
        node_wf(old(page)@),
        tree@ is Inner,
        tree@->kids.len() == tree@->Inner_keys.len() + 1,
        index < tree@->kids.len(),
        !node(old(page)@).leaf,
        node(old(page)@).entries == inner_entries(tree@->Inner_keys, tree@->kids),
        forall|i: int|
            0 <= i < tree@->kids.len() ==> (#[trigger] tree@->kids[i]).page() != INVALID_PAGE,
    ensures
        node_wf(final(page)@),
        empty == (tree@->kids.len() == 1),
        empty ==> node(final(page)@) == (Node { right: None, ..node(old(page)@) }),
        !empty ==> node(final(page)@) == without_kid(node(old(page)@), tree@, index as int),
{
    let num_entries: usize = get_num_entries(page);
    if index == num_entries {
        // Need to remove right child. Remove it and set the next highest
        // entry in the node to be the new right child (if possible)
        if num_entries > 0 {
            proof {
                lemma_le64_roundtrip(tree@->kids[num_entries - 1].page());
                assert(tree@->kids[num_entries - 1].page() != INVALID_PAGE);
            }
            let nu_right = PageNum::from_bytes(get_entry_value(page, num_entries - 1));
            set_right_child(page, nu_right);
            delete_entry(page, num_entries - 1);
            false
        } else {
            set_right_child(page, None);
            true
        }
    } else {
        delete_entry(page, index);
        false
    }
}

/// No subtree of an interior node has the invalid page number.
pub proof fn lemma_kids_valid(
    pages: Map<u64, Seq<u8>>,
    free: FreePages,
    root: u64,
    t: Tree,
    pre: Seq<u64>,
    post: Seq<u64>,
)
    requires
        placed(pages, free, root, seq![t], pre, post),
        free.wf(),
        t is Inner,
    ensures
        forall|i: int| 0 <= i < t->kids.len() ==> (#[trigger] t->kids[i]).page() != INVALID_PAGE,
{
    let ts = seq![t];
    lemma_forest_one(ts, t);
    assert forall|i: int| 0 <= i < t->kids.len() implies (#[trigger] t->kids[i]).page()
        != INVALID_PAGE by {
        let q = t->kids[i].page();
        lemma_member_count(t->kids, i, q);
        assert(forest_count(ts, q) == count(t, q));
    }
}

/// Removes the entry with a key from below a node that is not the root, along
/// the way that was found to it, and walks back up giving back the nodes that
/// have become empty. Says whether the node itself is gone.
#[verifier::rlimit(50)]
pub(crate) fn delete_at<S: PersistentStore>(
    path: &Vec<(PageNum, usize)>,
    level: usize,
    key: Ghost<Seq<u8>>,
    page_cache: &mut PageCache<S>,
    page_allocator: &mut PageAllocator,
    root: Ghost<u64>,
    tree: Ghost<Tree>,
    lo: Ghost<Option<Seq<u8>>>,
    hi: Ghost<Option<Seq<u8>>>,
    depth: Ghost<nat>,
    pre: Ghost<Seq<u64>>,
    post: Ghost<Seq<u64>>,
) -> (result: (bool, Ghost<Seq<Tree>>))
    requires
        old(page_cache).inv(),
        can_write(old(page_cache)@),
        old(page_allocator).inv(old(page_cache)@.pages),
        can_free(
            *old(page_allocator),
            vanishing(old(page_cache)@.pages, path_to(tree@, key@)),
        ),
        placed(
            old(page_cache)@.pages,
            old(page_allocator)@,
            root@,
            seq![tree@],
            pre@,
            post@,
        ),
        wf(tree@, lo@, hi@, depth@),
        forall|q: u64| #[trigger] count(tree@, q) > 0 ==> q >= FIRST_FREE_PAGE,
        keys_of(contents(tree@)).contains(key@),
        level < path@.len(),
        path_view(path@).skip(level as int) == path_to(tree@, key@),
        spare(old(page_cache)@, vanishing(old(page_cache)@.pages, path_to(tree@, key@)))
            >= delete_taken(old(page_cache)@, path_to(tree@, key@)),
    ensures
        final(page_cache).inv(),
        same_session(final(page_cache)@, old(page_cache)@),
        final(page_allocator).inv(final(page_cache)@.pages),
        final(page_allocator).balance() == old(page_allocator).balance(),
        final(page_allocator).allocs() == old(page_allocator).allocs(),
        final(page_allocator).frees() == old(page_allocator).frees() + vanishing(
            old(page_cache)@.pages,
            path_to(tree@, key@),
        ),
        final(page_allocator)@.frontier == old(page_allocator)@.frontier,
        no_colder(old(page_cache)@, final(page_cache)@),
        room(final(page_cache)@) >= room(old(page_cache)@) - delete_taken(
            old(page_cache)@,
            path_to(tree@, key@),
        ),
        vanishing(old(page_cache)@.pages, path_to(tree@, key@)) == 0
            ==> final(page_cache)@.available >= old(page_cache)@.available - delete_taken(
            old(page_cache)@,
            path_to(tree@, key@),
        ),
        result.0 == vanishes(old(page_cache)@.pages, path_to(tree@, key@)),
        vanishing(old(page_cache)@.pages, path_to(tree@, key@)) == 0 ==> {
            &&& leaf_trimmed(old(page_cache)@, final(page_cache)@, path_to(tree@, key@))
            &&& *final(page_allocator) == *old(page_allocator)
        },
        placed(
            final(page_cache)@.pages,
            final(page_allocator)@,
            root@,
            result.1@,
            pre@,
            post@,
        ),
        evolves(
            old(page_cache)@.pages,
            old(page_allocator)@,
            seq![tree@],
            final(page_cache)@.pages,
            final(page_allocator)@,
            result.1@,
            pre@,
            post@,
        ),
        removed(tree@, lo@, hi@, depth@, key@, result.1@),
        result.0 == (result.1@.len() == 0),
    decreases path@.len() - level,
{
    let ghost t = tree@;
    let ghost pages = page_cache@.pages;
    let ghost free = page_allocator@;
    let ghost cache1 = page_cache@;
    proof {
        lemma_path_len(t, lo@, hi@, depth@, key@);
        assert(path_view(path@).skip(level as int)[0] == path_view(path@)[level as int]);
        page_allocator.lemma_wf(pages);
        lemma_forest_one(seq![t], t);
        assert(repr(pages, seq![t][0]));
        assert(count(t, t.page()) > 0);
        assert(forest_count(seq![t], t.page()) == count(t, t.page()));
    }
    let num = path[level].0;
    let index: usize = path[level].1;
    let levels: usize = path.len();
    if level + 1 == levels {
        proof {
            assert(path_to(t, key@).skip(1) =~= Seq::<(u64, int)>::empty());
            assert(vanishing(pages, path_to(t, key@).skip(1)) == 0);
            lemma_leaf_linked(pages, free, root@, t, pre@, post@);
            lemma_leaf_contents(t);
            lemma_found(t, lo@, hi@, depth@, key@);
        }
        let mut page = page_cache.read_page(num);
        proof {
            lemma_slot_for(cache1, page_cache@, num@);
            lemma_link_slot(cache1, page_cache@, node(pages[num@]).prev);
            lemma_link_slot(cache1, page_cache@, node(pages[num@]).next);
        }
        delete_entry(&mut page, index);
        if get_num_entries(&page) != 0 {
            // Is not empty, we are done for now.
            page_cache.write_page(num, &page);
            let ghost mid;
            proof {
                page_allocator.lemma_inv(pages, page_cache@.pages);
                mid = lemma_leaf_shrinks(
                    pages,
                    page_cache@.pages,
                    free,
                    root@,
                    t,
                    lo@,
                    hi@,
                    key@,
                    pre@,
                    post@,
                );
            }
            return (false, Ghost(mid));
        }
        // This page is empty. Delete the page itself, then the caller
        // will remove its entry from its parent.

        remove_leaf(num, &page, page_cache, page_allocator);
        let ghost mid = lemma_leaf_vanishes(
            pages,
            page_cache@.pages,
            free,
            root@,
            t,
            lo@,
            hi@,
            key@,
            pre@,
            post@,
        );
        return (true, Ghost(mid));
    }
    let ghost i = slot(t, key@);
    let ghost keys = t->Inner_keys;
    proof {
        lemma_descend(t, lo@, hi@, depth@, key@);
        lemma_down(pages, free, root@, t, i, pre@, post@);
        assert(kid_ok(t->kids[i]));
        assert(path_view(path@).skip(level + 1) =~= path_view(path@).skip(level as int).skip(1));
        assert(path_to(t, key@).skip(1) =~= path_to(t->kids[i], key@));
        assert(path_to(t, key@).last() == path_to(t->kids[i], key@).last());
        assert forall|q: u64| #[trigger] count(t->kids[i], q) > 0 implies q >= FIRST_FREE_PAGE by {
            lemma_member_count(t->kids, i, q);
            assert(count(t, q) > 0);
        }
    }
    let (gone, Ghost(mid)) = delete_at(
        path,
        level + 1,
        key,
        page_cache,
        page_allocator,
        root,
        Ghost(t->kids[i]),
        Ghost(lower(keys, lo@, i)),
        Ghost(upper(keys, hi@, i)),
        Ghost((depth@ - 1) as nat),
        Ghost(pre_of(pre@, t, i)),
        Ghost(post_of(post@, t, i)),
    );
    let ghost pages2 = page_cache@.pages;
    let ghost free2 = page_allocator@;
    let ghost cache2 = page_cache@;
    proof {
        lemma_slot_for(cache1, cache2, num@);
    }
    if !gone {
        let ghost up = lemma_delete_same(
            pages,
            pages2,
            free,
            free2,
            root@,
            t,
            lo@,
            hi@,
            depth@,
            key@,
            mid,
            pre@,
            post@,
        );
        return (false, Ghost(up));
    }
    proof {
        lemma_page_used(pages, pages2, free, free2, root@, t, i, mid, pre@, post@);
        lemma_kids_valid(pages, free, root@, t, pre@, post@);
        page_allocator.lemma_wf(pages2);
    }
    let mut page = page_cache.read_page(num);
    let empty = remove_kid(&mut page, index, Ghost(t));
    page_cache.write_page(num, &page);
    proof {
        page_allocator.lemma_inv(pages2, page_cache@.pages);
    }
    if !empty {
        let ghost up = lemma_delete_shrunk(
            pages,
            pages2,
            page_cache@.pages,
            free,
            free2,
            root@,
            t,
            lo@,
            hi@,
            depth@,
            key@,
            mid,
            pre@,
            post@,
        );
        return (false, Ghost(up));
    }
    page_allocator.free(num, page_cache);
    let ghost up = lemma_delete_vanishes(
        pages,
        pages2,
        page_cache@.pages,
        free,
        free2,
        root@,
        t,
        lo@,
        hi@,
        depth@,
        key@,
        mid,
        pre@,
        post@,
    );
    (true, Ghost(up))
}

/// The root has lost its last subtree and has become an empty leaf.
proof fn lemma_root_empty(
    pages: Map<u64, Seq<u8>>,
    pages2: Map<u64, Seq<u8>>,
    pages3: Map<u64, Seq<u8>>,
    free: FreePages,
    free2: FreePages,
    t: Tree,
    d: nat,
    key: Seq<u8>,
    mid: Seq<Tree>,
) -> (t2: Tree)
    requires
        below_removed(
            pages,
            pages2,
            free,
            free2,
            t.page(),
            t,
            None,
            None,
            d,
            key,
            mid,
            Seq::empty(),
            Seq::empty(),
        ),
        mid.len() == 0,
        t->kids.len() == 1,
        node_wf(pages3[t.page()]),
        node(pages3[t.page()]) == (Node {
            leaf: true,
            next: None,
            prev: None,
            right: None,
            entries: Seq::empty(),
        }),
        forall|q: u64| q != t.page() ==> #[trigger] pages3[q] == pages2[q],
    ensures
        placed(pages3, free2, t.page(), seq![t2], Seq::empty(), Seq::empty()),
        evolves(
            pages,
            free,
            seq![t],
            pages3,
            free2,
            seq![t2],
            Seq::empty(),
            Seq::empty(),
        ),
        t2.page() == t.page(),
        wf(t2, None, None, 0),
        contents(t2) == contents(t).remove(rank(keys_of(contents(t)), key)),
{
    let none = Seq::<u64>::empty();
    let i = slot(t, key);
    let p = t.page();
    let kid = t->kids[i];
    assert(mid =~= Seq::<Tree>::empty());
    lemma_page_used(pages, pages2, free, free2, p, t, i, mid, none, none);
    lemma_down(pages, free, p, t, i, none, none);
    let t2 = Tree::Leaf { page: p, entries: Seq::empty() };
    let ts = seq![t];
    let one = seq![kid];
    let up = seq![t2];
    lemma_forest_one(ts, t);
    lemma_forest_one(one, kid);
    lemma_forest_one(up, t2);
    assert(t->kids.take(i) =~= Seq::<Tree>::empty());
    assert(t->kids.skip(i + 1) =~= Seq::<Tree>::empty());
    assert(pre_of(none, t, i) =~= none);
    assert(post_of(none, t, i) =~= none);
    assert forall|q: u64| #[trigger] outside(free2, up, q) == outside(free, ts, q) by {
        assert(forest_count(ts, q) == count(t, q));
        assert(forest_count(one, q) == count(kid, q));
        assert(forest_count(up, q) == count(t2, q));
        assert(outside(free2, mid, q) == outside(free, one, q));
    }
    assert forall|q: u64| #[trigger] outside(free, ts, q) implies relinked(pages[q], pages3[q]) && (
    edge(none, none, q) || pages3[q] == pages[q]) by {
        assert(forest_count(ts, q) == count(t, q));
        assert(forest_count(one, q) == count(kid, q));
        assert(outside(free, one, q));
    }
    assert forall|q: u64| #[trigger] forest_count(up, q) <= 1 && (forest_count(up, q) > 0 ==> (
    free2.in_use(q) && (q == p || q >= FIRST_FREE_PAGE))) by {
        assert(forest_count(up, q) == count(t2, q));
    }
    assert(repr(pages3, t2));
    let list = none + nums(forest_leaves(up)) + none;
    assert(list =~= seq![p]);
    assert forall|j: int| 0 <= j < list.len() implies link_ok(pages3, list, #[trigger] idx(j)) by {
        assert(list[j] == p);
    }
    lemma_leaf_contents(t2);
    lemma_descend(t, None, None, d, key);
    assert(left_of(t, i) =~= Seq::<Entry>::empty());
    assert(right_of(t, i) =~= Seq::<Entry>::empty());
    assert(contents(t) =~= contents(kid));
    t2
}

/// Removes the entry with a key that is in the tree, along the way that was
/// found to it.
#[verifier::rlimit(40)]
pub(crate) fn delete_found<S: PersistentStore>(
    path: &Vec<(PageNum, usize)>,
    key: Ghost<Seq<u8>>,
    page_cache: &mut PageCache<S>,
    page_allocator: &mut PageAllocator,
    tree: Ghost<Tree>,
    depth: Ghost<nat>,
) -> (result: Ghost<(Tree, nat)>)
    requires
        old(page_cache).inv(),
        can_write(old(page_cache)@),
        old(page_allocator).inv(old(page_cache)@.pages),
        can_free(
            *old(page_allocator),
            vanishing(old(page_cache)@.pages, path_to(tree@, key@).skip(1)),
        ),
        placed(
            old(page_cache)@.pages,
            old(page_allocator)@,
            tree@.page(),
            seq![tree@],
            Seq::empty(),
            Seq::empty(),
        ),
        wf(tree@, None, None, depth@),
        keys_of(contents(tree@)).contains(key@),
        path_view(path@) == path_to(tree@, key@),
        spare(old(page_cache)@, vanishing(old(page_cache)@.pages, path_to(tree@, key@).skip(1)))
            >= delete_need(old(page_cache)@, path_to(tree@, key@)),
    ensures
        final(page_cache).inv(),
        same_session(final(page_cache)@, old(page_cache)@),
        final(page_allocator).inv(final(page_cache)@.pages),
        final(page_allocator).balance() == old(page_allocator).balance(),
        final(page_allocator).allocs() == old(page_allocator).allocs(),
        final(page_allocator).frees() == old(page_allocator).frees() + vanishing(
            old(page_cache)@.pages,
            path_to(tree@, key@).skip(1),
        ),
        final(page_allocator)@.frontier == old(page_allocator)@.frontier,
        no_colder(old(page_cache)@, final(page_cache)@),
        room(final(page_cache)@) >= room(old(page_cache)@) - delete_need(
            old(page_cache)@,
            path_to(tree@, key@),
        ),
        vanishing(old(page_cache)@.pages, path_to(tree@, key@).skip(1)) == 0
            ==> final(page_cache)@.available >= old(page_cache)@.available - delete_need(
            old(page_cache)@,
            path_to(tree@, key@),
        ),
        placed(
            final(page_cache)@.pages,
            final(page_allocator)@,
            tree@.page(),
            seq![result@.0],
            Seq::empty(),
            Seq::empty(),
        ),
        evolves(
            old(page_cache)@.pages,
            old(page_allocator)@,
            seq![tree@],
            final(page_cache)@.pages,
            final(page_allocator)@,
            seq![result@.0],
            Seq::empty(),
            Seq::empty(),
        ),
        vanishing(old(page_cache)@.pages, path_to(tree@, key@).skip(1)) == 0 ==> {
            &&& leaf_trimmed(old(page_cache)@, final(page_cache)@, path_to(tree@, key@))
            &&& *final(page_allocator) == *old(page_allocator)
        },
        result@.0.page() == tree@.page(),
        wf(result@.0, None, None, result@.1),
        result@.1 <= depth@,
        contents(result@.0) == contents(tree@).remove(
            rank(keys_of(contents(tree@)), key@),
        ),
{
    let ghost t = tree@;
    let ghost d = depth@;
    let ghost root = t.page();
    let ghost none = Seq::<u64>::empty();
    let ghost pages = page_cache@.pages;
    let ghost free = page_allocator@;
    let ghost cache1 = page_cache@;
    proof {
        lemma_path_len(t, None, None, d, key@);
        page_allocator.lemma_wf(pages);
        lemma_forest_one(seq![t], t);
        assert(repr(pages, seq![t][0]));
        assert(path_view(path@)[0] == path_to(t, key@)[0]);
        assert(forest_count(seq![t], root) == count(t, root));
    }
    let num = path[0].0;
    let index: usize = path[0].1;
    if path.len() == 1 {
        // Never free root.
        proof {
            assert(path_to(t, key@).skip(1) =~= Seq::<(u64, int)>::empty());
            lemma_leaf_linked(pages, free, root, t, none, none);
            lemma_leaf_contents(t);
            lemma_found(t, None, None, d, key@);
        }
        let mut page = page_cache.read_page(num);
        delete_entry(&mut page, index);
        page_cache.write_page(num, &page);
        let ghost mid;
        proof {
            page_allocator.lemma_inv(pages, page_cache@.pages);
            mid = lemma_leaf_shrinks(
                pages,
                page_cache@.pages,
                free,
                root,
                t,
                None,
                None,
                key@,
                none,
                none,
            );
            lemma_leaf_contents(mid[0]);
        }
        return Ghost((mid[0], 0));
    }
    let ghost i = slot(t, key@);
    let ghost keys = t->Inner_keys;
    proof {
        lemma_descend(t, None, None, d, key@);
        lemma_down(pages, free, root, t, i, none, none);
        assert(kid_ok(t->kids[i]));
        assert(path_view(path@).skip(1) =~= path_to(t->kids[i], key@));
        assert(path_to(t, key@).skip(1) =~= path_to(t->kids[i], key@));
        assert(path_to(t, key@).last() == path_to(t->kids[i], key@).last());
        assert forall|q: u64| #[trigger] count(t->kids[i], q) > 0 implies q >= FIRST_FREE_PAGE by {
            assert(forest_count(seq![t], q) == count(t, q));
        }
    }
    let (gone, Ghost(mid)) = delete_at(
        path,
        1,
        key,
        page_cache,
        page_allocator,
        Ghost(root),
        Ghost(t->kids[i]),
        Ghost(lower(keys, None, i)),
        Ghost(upper(keys, None, i)),
        Ghost((d - 1) as nat),
        Ghost(pre_of(none, t, i)),
        Ghost(post_of(none, t, i)),
    );
    let ghost pages2 = page_cache@.pages;
    let ghost free2 = page_allocator@;
    proof {
        lemma_slot_for(cache1, page_cache@, num@);
    }
    if !gone {
        let ghost up;
        proof {
            up =
            lemma_delete_same(
                pages,
                pages2,
                free,
                free2,
                root,
                t,
                None,
                None,
                d,
                key@,
                mid,
                none,
                none,
            );
            assert(up =~= seq![up[0]]);
            lemma_forest_one(up, up[0]);
        }
        return Ghost((up[0], d));
    }
    proof {
        lemma_page_used(pages, pages2, free, free2, root, t, i, mid, none, none);
        lemma_kids_valid(pages, free, root, t, none, none);
        page_allocator.lemma_wf(pages2);
    }
    let mut page = page_cache.read_page(num);
    let empty = remove_kid(&mut page, index, Ghost(t));
    if empty {
        // The root is now empty, turn it back into a leaf.
        set_leaf(&mut page);
    }
    page_cache.write_page(num, &page);
    proof {
        page_allocator.lemma_inv(pages2, page_cache@.pages);
    }
    if !empty {
        let ghost up;
        proof {
            up =
            lemma_delete_shrunk(
                pages,
                pages2,
                page_cache@.pages,
                free,
                free2,
                root,
                t,
                None,
                None,
                d,
                key@,
                mid,
                none,
                none,
            );
            assert(up =~= seq![up[0]]);
            lemma_forest_one(up, up[0]);
        }
        return Ghost((up[0], d));
    }
    let ghost t2;
    proof {
        assert(node(page@).entries =~= Seq::<Entry>::empty());
        t2 =
        lemma_root_empty(
            pages,
            pages2,
            page_cache@.pages,
            free,
            free2,
            t,
            d,
            key@,
            mid,
        );
    }
    Ghost((t2, 0))
}

} // verus!
