//! Finds out what a change of a tree takes before it is made.

use vstd::prelude::*;

use crate::btree::{can_read, has_tree, is_tree, lemma_can_walk, tree_at, BTree};
use crate::btree_insert::{busy, lemma_tree_node, path_view};
use crate::btree_model::{
    contents, forest_leaves, height, idx, inner_entries, kid_ok, leaves, lemma_descend,
    lemma_forest_at, lemma_leaf_contents, lemma_nums, lemma_path_len, lemma_path_pages, link_ok,
    lower, nums, path_to, repr, tree_pages, upper, wf, Tree,
};
use crate::btree_node::{
    delete_entry, get_free_space, get_next_sib, get_num_entries, get_prev_sib, is_leaf, keys_of,
    lemma_entries_small, lemma_links_valid, lemma_node_space, node, node_ok, node_wf, split_key,
    split_node, Node, MAX_ENTRY_SIZE, MAX_RECORD_SIZE,
};
use crate::key_order::{
    ascending, group_lex_order, lemma_rank, lemma_rank_unique, lex_le, lex_lt, rank,
};
use crate::page_cache::{
    page_num_view, CacheState, PageCache, PageData, PageNum, PersistentStore, PAGE_SIZE,
};
use crate::slots::{
    can_walk, delete_need, delete_taken, fits, growth, handed_up, insert_taken, leaf_trimmed,
    link_slot, read_slot, same_way, splits, trimmed_page, vanishes, vanishing, without_entry, Way,
};
use crate::util::lemma_le64_roundtrip;

verus! {

/// No change of a tree takes more slots than this.
pub const MAX_COST: u128 = 0x1_0000_0000_0000_0000_0000;

/// The nodes on the way are nodes of a tree, and the last one is a leaf.
pub open spec fn way_ok(pages: Map<u64, Seq<u8>>, way: Way) -> bool {
    forall|j: int|
        0 <= j < way.len() ==> {
            let page = pages[(#[trigger] way[j]).0];
            &&& node_wf(page)
            &&& node_ok(node(page))
            &&& node(page).leaf == (j == way.len() - 1)
        }
}

proof fn lemma_way_ok(
    pages: Map<u64, Seq<u8>>,
    t: Tree,
    lo: Option<Seq<u8>>,
    hi: Option<Seq<u8>>,
    d: nat,
    key: Seq<u8>,
)
    requires
        wf(t, lo, hi, d),
        repr(pages, t),
    ensures
        way_ok(pages, path_to(t, key)),
    decreases d,
{
    let way = path_to(t, key);
    lemma_tree_node(pages, t, lo, hi, d);
    lemma_path_len(t, lo, hi, d, key);
    match t {
        Tree::Leaf { .. } => {},
        Tree::Inner { keys, kids, .. } => {
            lemma_rank(keys, key);
            let i = rank(keys, key);
            let kid = kids[i];
            assert(kid_ok(kid));
            lemma_way_ok(
                pages,
                kid,
                lower(keys, lo, i),
                upper(keys, hi, i),
                (d - 1) as nat,
                key,
            );
            let rest = path_to(kid, key);
            assert forall|j: int| 0 <= j < way.len() implies {
                let page = pages[(#[trigger] way[j]).0];
                &&& node_wf(page)
                &&& node_ok(node(page))
                &&& node(page).leaf == (j == way.len() - 1)
            } by {
                if j > 0 {
                    assert(way[j] == rest[j - 1]);
                }
            }
        },
    }
}

/// The way to a key of the tree ends at its entry.
proof fn lemma_way_found(
    pages: Map<u64, Seq<u8>>,
    t: Tree,
    lo: Option<Seq<u8>>,
    hi: Option<Seq<u8>>,
    d: nat,
    key: Seq<u8>,
)
    requires
        wf(t, lo, hi, d),
        repr(pages, t),
        keys_of(contents(t)).contains(key),
    ensures
        ({
            let last = path_to(t, key).last();
            let keys = keys_of(node(pages[last.0]).entries);
            &&& path_to(t, key).len() > 0
            &&& 0 <= last.1 < keys.len()
            &&& keys[last.1] == key
            &&& last.1 == rank(keys, key)
        }),
    decreases d,
{
    lemma_path_len(t, lo, hi, d, key);
    match t {
        Tree::Leaf { entries, .. } => {
            let keys = keys_of(entries);
            lemma_leaf_contents(t);
            lemma_rank(keys, key);
            lemma_rank_found(keys, key);
        },
        Tree::Inner { keys, kids, .. } => {
            lemma_rank(keys, key);
            let i = rank(keys, key);
            assert(kid_ok(kids[i]));
            assert(repr(pages, kids[i]));
            lemma_descend(t, lo, hi, d, key);
            lemma_way_found(
                pages,
                kids[i],
                lower(keys, lo, i),
                upper(keys, hi, i),
                (d - 1) as nat,
                key,
            );
            assert(path_to(t, key).last() == path_to(kids[i], key).last());
        },
    }
}

proof fn lemma_rank_found(keys: Seq<Seq<u8>>, key: Seq<u8>)
    requires
        ascending(keys),
        keys.contains(key),
    ensures
        0 <= rank(keys, key) < keys.len(),
        keys[rank(keys, key)] == key,
{
    broadcast use group_lex_order;

    lemma_rank(keys, key);
    let i = rank(keys, key);
    let k = keys.index_of(key);
    assert(keys[k] == key);
    if k < i {
        assert(lex_lt(keys[k], key));
    }
    if i < k {
        assert(lex_lt(keys[i], keys[k]));
        assert(lex_le(key, keys[i]));
    }
}

/// The leaf at the end of a way is not the one before it.
proof fn lemma_other_sibling(pages: Map<u64, Seq<u8>>, root: u64, key: Seq<u8>)
    requires
        has_tree(pages, root),
    ensures
        ({
            let leaf = path_to(tree_at(pages, root), key).last().0;
            node(pages[leaf]).prev != Some(leaf)
        }),
{
    let t = tree_at(pages, root);
    let list = nums(leaves(t));
    assert(is_tree(pages, root, t));
    lemma_way_leaf(t, None, None, height(t), key);
    lemma_nums(t);
    let leaf = path_to(t, key).last().0;
    let k = list.index_of(leaf);
    assert(link_ok(pages, list, idx(k)));
    if k > 0 {
        assert(list[k - 1] != list[k]);
    }
}

/// The way to a key is the same once the leaf has lost its entry.
pub proof fn lemma_trimmed_way(cache: CacheState, cache2: CacheState, root: u64, key: Seq<u8>)
    requires
        has_tree(cache.pages, root),
        has_tree(cache2.pages, root),
        keys_of(contents(tree_at(cache.pages, root))).contains(key),
        leaf_trimmed(cache, cache2, path_to(tree_at(cache.pages, root), key)),
    ensures
        path_to(tree_at(cache2.pages, root), key) == path_to(tree_at(cache.pages, root), key),
{
    let t = tree_at(cache.pages, root);
    let t2 = tree_at(cache2.pages, root);
    assert(is_tree(cache.pages, root, t));
    assert(is_tree(cache2.pages, root, t2));
    lemma_trimmed_path(cache, cache2, t, t2, None, None, height(t), key);
}

proof fn lemma_trimmed_path(
    cache: CacheState,
    cache2: CacheState,
    t: Tree,
    t2: Tree,
    lo: Option<Seq<u8>>,
    hi: Option<Seq<u8>>,
    d: nat,
    key: Seq<u8>,
)
    requires
        wf(t, lo, hi, d),
        repr(cache.pages, t),
        repr(cache2.pages, t2),
        t2.page() == t.page(),
        keys_of(contents(t)).contains(key),
        leaf_trimmed(cache, cache2, path_to(t, key)),
    ensures
        path_to(t2, key) == path_to(t, key),
    decreases d,
{
    broadcast use group_lex_order;

    let pages = cache.pages;
    let pages2 = cache2.pages;
    lemma_path_len(t, lo, hi, d, key);
    lemma_way_found(pages, t, lo, hi, d, key);
    lemma_way_ok(pages, t, lo, hi, d, key);
    let way = path_to(t, key);
    let last = way.len() - 1;
    assert(node(pages[way[last].0]).leaf);
    match t {
        Tree::Leaf { entries, .. } => {
            let keys = keys_of(entries);
            let i = rank(keys, key);
            lemma_rank(keys, key);
            assert(way.last() == (t.page(), i));
            let keys2 = keys_of(t2->Leaf_entries);
            assert(keys2 =~= keys.remove(i));
            assert forall|j: int| i <= j < keys2.len() implies !lex_lt(#[trigger] keys2[j], key) by {
                assert(keys2[j] == keys[j + 1]);
                assert(lex_le(key, keys[j + 1]));
            }
            assert forall|j: int| 0 <= j < i implies lex_lt(#[trigger] keys2[j], key) by {
                assert(keys2[j] == keys[j]);
            }
            assert(ascending(keys2));
            lemma_rank_unique(keys2, key, i);
        },
        Tree::Inner { keys, kids, .. } => {
            lemma_rank(keys, key);
            let i = rank(keys, key);
            assert(!node(pages[way[0].0]).leaf);
            assert(pages2[t.page()] == pages[t.page()]);
            let keys2 = t2->Inner_keys;
            let kids2 = t2->kids;
            let all = inner_entries(keys, kids);
            let all2 = inner_entries(keys2, kids2);
            assert(all2 == all);
            assert(keys.len() == all.len() && keys2.len() == all2.len());
            assert forall|j: int| 0 <= j < keys.len() implies keys2[j] == keys[j] by {
                assert(all2[j] == all[j]);
            }
            assert(keys2 =~= keys);
            assert(kid_ok(kids[i]));
            assert(repr(pages, kids[i]));
            assert(repr(pages2, kids2[i]));
            if i < keys.len() {
                assert(all2[i] == all[i]);
                lemma_le64_roundtrip(kids[i].page());
                lemma_le64_roundtrip(kids2[i].page());
            }
            lemma_descend(t, lo, hi, d, key);
            let low = lower(keys, lo, i);
            let high = upper(keys, hi, i);
            lemma_path_len(kids[i], low, high, (d - 1) as nat, key);
            assert(way.last() == path_to(kids[i], key).last());
            lemma_trimmed_path(cache, cache2, kids[i], kids2[i], low, high, (d - 1) as nat, key);
        },
    }
}

/// A node that has lost an entry is still in order.
proof fn lemma_node_trimmed(n: Node, i: int)
    requires
        node_ok(n),
        0 <= i < n.entries.len(),
    ensures
        node_ok(Node { entries: n.entries.remove(i), ..n }),
{
    let after = Node { entries: n.entries.remove(i), ..n };
    assert(keys_of(after.entries) =~= keys_of(n.entries).remove(i));
    assert forall|j: int| 0 <= j < after.entries.len() implies (#[trigger] after.entries[j])
        == n.entries[if j < i {
        j
    } else {
        j + 1
    }] by {}
}

/// The way to a key ends in a leaf of the tree.
proof fn lemma_way_leaf(
    t: Tree,
    lo: Option<Seq<u8>>,
    hi: Option<Seq<u8>>,
    d: nat,
    key: Seq<u8>,
)
    requires
        wf(t, lo, hi, d),
    ensures
        path_to(t, key).len() == d + 1,
        nums(leaves(t)).contains(path_to(t, key).last().0),
    decreases d,
{
    lemma_path_len(t, lo, hi, d, key);
    match t {
        Tree::Leaf { page, .. } => {
            assert(nums(leaves(t))[0] == page);
        },
        Tree::Inner { keys, kids, .. } => {
            lemma_rank(keys, key);
            let i = rank(keys, key);
            let kid = kids[i];
            assert(kid_ok(kid));
            lemma_way_leaf(
                kid,
                lower(keys, lo, i),
                upper(keys, hi, i),
                (d - 1) as nat,
                key,
            );
            lemma_forest_at(kids, i);
            let p = path_to(kid, key).last().0;
            let k = nums(leaves(kid)).index_of(p);
            assert(path_to(t, key).last() == path_to(kid, key).last());
            assert(nums(leaves(t))[forest_leaves(kids.take(i)).len() + k] == p);
        },
    }
}

/// The same tree has the same nodes.
pub proof fn lemma_same_way(
    pages: Map<u64, Seq<u8>>,
    pages2: Map<u64, Seq<u8>>,
    root: u64,
    key: Seq<u8>,
)
    requires
        has_tree(pages, root),
        has_tree(pages2, root),
        tree_at(pages2, root) == tree_at(pages, root),
    ensures
        same_way(pages, pages2, path_to(tree_at(pages, root), key)),
{
    let t = tree_at(pages, root);
    let way = path_to(t, key);
    let list = nums(leaves(t));
    assert(is_tree(pages, root, t));
    assert(is_tree(pages2, root, t));
    lemma_way_leaf(t, None, None, height(t), key);
    lemma_same_inner(pages, pages2, t, None, None, height(t), key);
    let last = way.len() - 1;
    let p = way[last].0;
    let k = list.index_of(p);
    assert(link_ok(pages, list, idx(k)));
    assert(link_ok(pages2, list, idx(k)));
    assert forall|j: int| 0 <= j < way.len() implies node(pages2[(#[trigger] way[j]).0]) == node(
        pages[way[j].0],
    ) by {
        if j == last {
            assert(node(pages2[p]) =~= node(pages[p]));
        }
    }
}

proof fn lemma_same_inner(
    pages: Map<u64, Seq<u8>>,
    pages2: Map<u64, Seq<u8>>,
    t: Tree,
    lo: Option<Seq<u8>>,
    hi: Option<Seq<u8>>,
    d: nat,
    key: Seq<u8>,
)
    requires
        wf(t, lo, hi, d),
        repr(pages, t),
        repr(pages2, t),
    ensures
        ({
            let way = path_to(t, key);
            &&& forall|j: int|
                0 <= j < way.len() - 1 ==> node(pages2[(#[trigger] way[j]).0]) == node(
                    pages[way[j].0],
                )
            &&& way.len() > 0
            &&& ({
                let n = node(pages[way.last().0]);
                let n2 = node(pages2[way.last().0]);
                n2.entries == n.entries && n2.leaf == n.leaf && n2.right == n.right
            })
        }),
    decreases d,
{
    let way = path_to(t, key);
    lemma_path_len(t, lo, hi, d, key);
    match t {
        Tree::Leaf { .. } => {},
        Tree::Inner { keys, kids, .. } => {
            lemma_rank(keys, key);
            let i = rank(keys, key);
            let kid = kids[i];
            assert(kid_ok(kid));
            lemma_same_inner(
                pages,
                pages2,
                kid,
                lower(keys, lo, i),
                upper(keys, hi, i),
                (d - 1) as nat,
                key,
            );
            let rest = path_to(kid, key);
            lemma_path_len(kid, lower(keys, lo, i), upper(keys, hi, i), (d - 1) as nat, key);
            assert(way.last() == rest.last());
            assert forall|j: int| 0 <= j < way.len() - 1 implies node(
                pages2[(#[trigger] way[j]).0],
            ) == node(pages[way[j].0]) by {
                if j > 0 {
                    assert(way[j] == rest[j - 1]);
                }
            }
        },
    }
}

/// If all pages of a tree are busy, an insertion takes slots only for new pages.
pub proof fn lemma_busy_need(cache: CacheState, root: u64, key: Seq<u8>, size: nat)
    requires
        has_tree(cache.pages, root),
        busy(cache, tree_pages(tree_at(cache.pages, root))),
    ensures
        insert_taken(cache, path_to(tree_at(cache.pages, root), key), size) == 0,
        read_slot(cache, path_to(tree_at(cache.pages, root), key)) == 0,
{
    let pages = cache.pages;
    let t = tree_at(pages, root);
    let way = path_to(t, key);
    let list = nums(leaves(t));
    assert(is_tree(pages, root, t));
    lemma_way_leaf(t, None, None, height(t), key);
    lemma_path_pages(t, None, None, height(t), key);
    lemma_nums(t);
    let p = way.last().0;
    let k = list.index_of(p);
    assert(link_ok(pages, list, idx(k)));
    assert forall|j: int| 0 <= j < way.len() implies !cache.idle((#[trigger] way[j]).0) by {
        assert(tree_pages(t).contains(way[j].0));
    }
    if let Some(q) = node(pages[p]).prev {
        assert(list.contains(list[k - 1]));
        assert(tree_pages(t).contains(q));
    }
    lemma_busy_taken(cache, way, size);
}

proof fn lemma_busy_taken(cache: CacheState, way: Way, size: nat)
    requires
        way.len() > 0,
        forall|j: int| 0 <= j < way.len() ==> !cache.idle((#[trigger] way[j]).0),
        node(cache.pages[way.last().0]).prev matches Some(q) ==> !cache.idle(q),
    ensures
        insert_taken(cache, way, size) == 0,
    decreases way.len(),
{
    assert(!cache.idle(way[0].0));
    if way.len() > 1 {
        let rest = way.skip(1);
        assert forall|j: int| 0 <= j < rest.len() implies !cache.idle((#[trigger] rest[j]).0) by {
            assert(rest[j] == way[j + 1]);
        }
        assert(rest.last() == way.last());
        lemma_busy_taken(cache, rest, size);
    }
}

/// How many slots a change of a page takes, if there is one.
fn count_link<S: PersistentStore>(link: Option<PageNum>, page_cache: &PageCache<S>) -> (count: u128)
    requires
        page_cache.inv(),
    ensures
        count == link_slot(page_cache@, page_num_view(link)),
{
    match link {
        Some(num) => if page_cache.is_idle(num) {
            1
        } else {
            0
        },
        None => 0,
    }
}

/// The length of the key that parts a node with no room for another entry.
fn separator_len(page: &PageData, Ghost(size): Ghost<nat>) -> (len: usize)
    requires
        node_wf(page@),
        node_ok(node(page@)),
        size <= MAX_ENTRY_SIZE + 8,
        !fits(node(page@), size),
    ensures
        len == split_key(node(page@)).len(),
        len + 6 <= MAX_ENTRY_SIZE,
{
    let ghost n = node(page@);
    proof {
        lemma_entries_small(n.entries);
        lemma_links_valid(page@);
        lemma_node_space(page@);
        let count = n.entries.len();
        if count < 2 {
            assert(MAX_ENTRY_SIZE * count <= MAX_ENTRY_SIZE) by (nonlinear_arith)
                requires
                    count <= 1,
            ;
        }
    }
    let mut left: PageData = [0;PAGE_SIZE];
    let mut right: PageData = [0;PAGE_SIZE];
    let key = split_node(page, &mut left, &mut right);
    key.len()
}

impl BTree {
    /// Whether one of the nodes on a way has no slot.
    fn count_walk<S: PersistentStore>(
        path: &Vec<(PageNum, usize)>,
        page_cache: &PageCache<S>,
    ) -> (count: u128)
        requires
            page_cache.inv(),
        ensures
            count == read_slot(page_cache@, path_view(path@)),
    {
        let ghost way = path_view(path@);
        let mut j: usize = 0;
        while j < path.len()
            invariant
                j <= path@.len(),
                way == path_view(path@),
                page_cache.inv(),
                forall|k: int| 0 <= k < j ==> !page_cache@.idle((#[trigger] way[k]).0),
            decreases path@.len() - j,
        {
            assert(way[j as int].0 == path@[j as int].0@);
            if page_cache.is_idle(path[j].0) {
                return 1;
            }
            j = j + 1;
        }
        0
    }

    /// What the insertion of an entry takes: the slot to read the way to its place,
    /// the slots of the pages that are changed, and the pages that are handed out.
    pub(crate) fn insert_cost<S: PersistentStore>(
        &self,
        key: &[u8],
        value_len: usize,
        page_cache: &mut PageCache<S>,
    ) -> (cost: (u128, u128, u128))
        requires
            old(page_cache).inv(),
            can_read(old(page_cache)@, self.root()),
            0 < key@.len(),
            key@.len() + value_len < MAX_RECORD_SIZE,
        ensures
            final(page_cache).inv(),
            final(page_cache)@.same_but_order(old(page_cache)@),
            ({
                let cache = old(page_cache)@;
                let way = path_to(tree_at(cache.pages, self.root()), key@);
                let size = (key@.len() + value_len + 6) as nat;
                &&& cost.0 == read_slot(cache, way)
                &&& cost.1 == insert_taken(cache, way, size)
                &&& cost.2 == growth(cache.pages, way, size)
            }),
            cost.1 <= MAX_COST,
            cost.2 <= MAX_COST,
    {
        let ghost cache = page_cache@;
        let ghost pages = cache.pages;
        let ghost t = tree_at(pages, self.root());
        let ghost way = path_to(t, key@);
        let ghost size = (key@.len() + value_len + 6) as nat;
        proof {
            assert(is_tree(pages, self.root(), t));
            lemma_can_walk(cache, self.root(), key@);
            lemma_way_ok(pages, t, None, None, height(t), key@);
            lemma_path_len(t, None, None, height(t), key@);
        }
        let (path, _) = self.find_with_path(key, page_cache);
        let walk: u128 = BTree::count_walk(&path, page_cache);
        let last: usize = path.len() - 1;
        proof {
            assert(way[last as int].0 == path@[last as int].0@);
            lemma_other_sibling(cache.pages, self.root(), key@);
        }
        let leaf = page_cache.read_page(path[last].0);
        let idle = page_cache.is_idle(path[last].0);
        let (taken, pages): (u128, u128) = BTree::climb(
            &path,
            &leaf,
            idle,
            key.len() + value_len + 6,
            page_cache,
            Ghost(cache),
        );
        (walk, taken, pages)
    }

    /// Whether the leaf with the entry under a key has no slot, and what the insertion
    /// of another entry under that key takes once the one that is there was removed
    /// from the leaf.
    pub(crate) fn replace_cost<S: PersistentStore>(
        &self,
        key: &[u8],
        value_len: usize,
        page_cache: &mut PageCache<S>,
    ) -> (cost: (bool, (u128, u128, u128)))
        requires
            old(page_cache).inv(),
            can_read(old(page_cache)@, self.root()),
            0 < key@.len(),
            key@.len() + value_len < MAX_RECORD_SIZE,
            keys_of(contents(tree_at(old(page_cache)@.pages, self.root()))).contains(key@),
        ensures
            final(page_cache).inv(),
            final(page_cache)@.same_but_order(old(page_cache)@),
            ({
                let cache = old(page_cache)@;
                let way = path_to(tree_at(cache.pages, self.root()), key@);
                let size = (key@.len() + value_len + 6) as nat;
                let after = without_entry(cache, way);
                &&& cost.0 == cache.idle(way.last().0)
                &&& cost.1.0 == read_slot(after, way)
                &&& cost.1.1 == insert_taken(after, way, size)
                &&& cost.1.2 == growth(after.pages, way, size)
            }),
            cost.1.1 <= MAX_COST,
            cost.1.2 <= MAX_COST,
    {
        let ghost cache = page_cache@;
        let ghost pages = cache.pages;
        let ghost t = tree_at(pages, self.root());
        let ghost way = path_to(t, key@);
        let ghost after = without_entry(cache, way);
        proof {
            assert(is_tree(pages, self.root(), t));
            lemma_can_walk(cache, self.root(), key@);
            lemma_way_ok(pages, t, None, None, height(t), key@);
            lemma_path_len(t, None, None, height(t), key@);
            lemma_way_found(pages, t, None, None, height(t), key@);
            lemma_other_sibling(pages, self.root(), key@);
        }
        let (path, _) = self.find_with_path(key, page_cache);
        let last: usize = path.len() - 1;
        proof {
            assert(way[last as int].0 == path@[last as int].0@);
            assert(way[last as int].1 == path@[last as int].1);
        }
        let mut leaf = page_cache.read_page(path[last].0);
        delete_entry(&mut leaf, path[last].1);
        proof {
            let num = way.last().0;
            assert(trimmed_page(pages[num], way.last().1, leaf@));
            let page = choose|page: Seq<u8>| trimmed_page(pages[num], way.last().1, page);
            assert(trimmed_page(pages[num], way.last().1, page));
            let n = node(pages[num]);
            assert(node_ok(node(leaf@))) by {
                lemma_node_trimmed(n, way.last().1);
            }
            assert forall|j: int| 0 <= j < way.len() implies {
                let page = after.pages[(#[trigger] way[j]).0];
                &&& node_wf(page)
                &&& node_ok(node(page))
                &&& node(page).leaf == (j == way.len() - 1)
            } by {
                assert(node(pages[way[j].0]).leaf == (j == way.len() - 1));
            }
        }
        let walk: u128 = BTree::count_upper(&path, page_cache);
        proof {
            let walked = path_view(path@);
            assert(walked == way);
            assert forall|j: int| 0 <= j < last implies cache.idle((#[trigger] way[j]).0)
                == after.idle(way[j].0) by {
                assert(node(pages[way[j].0]).leaf == (j == way.len() - 1));
                assert(node(pages[way[last as int].0]).leaf);
            }
            if walk == 1 {
                let j = choose|j: int|
                    0 <= j < last && page_cache@.idle((#[trigger] way[j]).0);
                assert(after.idle(way[j].0));
            } else {
                assert forall|j: int| 0 <= j < way.len() implies !after.idle(
                    (#[trigger] way[j]).0,
                ) by {
                    if j < last {
                        assert(!page_cache@.idle(way[j].0));
                    }
                }
            }
        }
        let (taken, pages): (u128, u128) = BTree::climb(
            &path,
            &leaf,
            false,
            key.len() + value_len + 6,
            page_cache,
            Ghost(after),
        );
        (page_cache.is_idle(path[last].0), (walk, taken, pages))
    }

    /// Whether one of the nodes on a way, but for the last, has no slot.
    fn count_upper<S: PersistentStore>(
        path: &Vec<(PageNum, usize)>,
        page_cache: &PageCache<S>,
    ) -> (count: u128)
        requires
            page_cache.inv(),
            path@.len() > 0,
        ensures
            ({
                let way = path_view(path@);
                count == (if exists|j: int|
                    0 <= j < way.len() - 1 && page_cache@.idle((#[trigger] way[j]).0) {
                    1nat
                } else {
                    0nat
                })
            }),
    {
        let ghost way = path_view(path@);
        let last: usize = path.len() - 1;
        let mut j: usize = 0;
        while j < last
            invariant
                j <= last,
                last == path@.len() - 1,
                way == path_view(path@),
                page_cache.inv(),
                forall|k: int| 0 <= k < j ==> !page_cache@.idle((#[trigger] way[k]).0),
            decreases last - j,
        {
            assert(way[j as int].0 == path@[j as int].0@);
            if page_cache.is_idle(path[j].0) {
                return 1;
            }
            j = j + 1;
        }
        0
    }

    /// Goes up a way, whose leaf is given as it will be by then, and counts the slots
    /// of the pages that change when an entry is put into the leaf, and the pages that
    /// are handed out.
    #[verifier::rlimit(40)]
    #[verifier::spinoff_prover]
    fn climb<S: PersistentStore>(
        path: &Vec<(PageNum, usize)>,
        leaf: &PageData,
        idle: bool,
        entry_len: usize,
        page_cache: &mut PageCache<S>,
        Ghost(after): Ghost<CacheState>,
    ) -> (cost: (u128, u128))
        requires
            old(page_cache).inv(),
            path@.len() > 0,
            can_walk(old(page_cache)@, path_view(path@)),
            way_ok(after.pages, path_view(path@)),
            entry_len <= MAX_ENTRY_SIZE,
            ({
                let num = path_view(path@).last().0;
                let cache = old(page_cache)@;
                &&& node_wf(leaf@)
                &&& node(leaf@) == node(after.pages[num])
                &&& idle == after.idle(num)
                &&& forall|q: u64|
                    q != num ==> #[trigger] after.pages[q] == cache.pages[q] && after.idle(q)
                        == cache.idle(q)
            }),
            node(leaf@).prev != Some(path_view(path@).last().0),
        ensures
            final(page_cache).inv(),
            final(page_cache)@.same_but_order(old(page_cache)@),
            cost.0 == insert_taken(after, path_view(path@), entry_len as nat),
            cost.1 == growth(after.pages, path_view(path@), entry_len as nat),
            cost.0 <= MAX_COST,
            cost.1 <= MAX_COST,
    {
        let ghost cache = page_cache@;
        let ghost pages = after.pages;
        let ghost way = path_view(path@);
        let ghost size = entry_len as nat;
        let levels: usize = path.len();
        let mut level: usize = levels;
        // What the node below hands up, the entry itself at first
        let mut handed: Option<usize> = Some(entry_len);
        let mut taken: u128 = 0;
        let mut split: u128 = 0;
        while level > 0
            invariant
                level <= levels,
                levels == path@.len(),
                way == path_view(path@),
                page_cache.inv(),
                page_cache@.same_but_order(cache),
                pages == after.pages,
                can_walk(cache, way),
                way_ok(pages, way),
                way.len() == path@.len(),
                size <= MAX_ENTRY_SIZE,
                ({
                    let num = way.last().0;
                    &&& node_wf(leaf@)
                    &&& node(leaf@) == node(pages[num])
                    &&& idle == after.idle(num)
                    &&& forall|q: u64|
                        q != num ==> #[trigger] pages[q] == cache.pages[q] && after.idle(q)
                            == cache.idle(q)
                    &&& node(leaf@).prev != Some(num)
                }),
                ({
                    let rest = way.skip(level as int);
                    &&& taken == insert_taken(after, rest, size)
                    &&& split == splits(pages, rest, size)
                    &&& taken <= 2 * (path@.len() - level)
                    &&& split <= path@.len() - level
                    &&& if level == path@.len() {
                        handed == Some(size as usize)
                    } else {
                        match handed {
                            Some(more) => handed_up(pages, rest, size) matches Some(sep)
                                && more == sep.len() + 14,
                            None => handed_up(pages, rest, size) is None,
                        }
                    }
                    &&& handed matches Some(more) ==> more <= MAX_ENTRY_SIZE + 8
                }),
            decreases level,
        {
            let ghost rest = way.skip(level as int);
            let last: bool = level == levels;
            level = level - 1;
            let num = path[level].0;
            proof {
                assert(way[level as int].0 == num@);
                assert(way.skip(level as int).skip(1) =~= rest);
                assert(way.skip(level as int)[0] == way[level as int]);
                assert(node(pages[way[level as int].0]).leaf == (level == way.len() - 1));
                assert(node(pages[way[way.len() - 1].0]).leaf);
                if !last {
                    assert(num@ != way.last().0);
                    assert(after.idle(num@) == cache.idle(num@)) by {
                        assert(pages[num@] == cache.pages[num@]);
                    }
                }
            }
            let page: PageData = if last {
                *leaf
            } else {
                page_cache.read_page(num)
            };
            let free: bool = if last {
                idle
            } else {
                page_cache.is_idle(num)
            };
            if let Some(more) = handed {
                if free {
                    taken = taken + 1;
                }
                if get_free_space(&page) >= more {
                    handed = None;
                } else {
                    if is_leaf(&page) {
                        proof {
                            if let Some(q) = node(pages[num@]).prev {
                                assert(after.idle(q) == cache.idle(q)) by {
                                    assert(pages[q] == cache.pages[q]);
                                }
                            }
                        }
                        taken = taken + count_link(get_prev_sib(&page), page_cache);
                    }
                    split = split + 1;
                    handed = Some(separator_len(&page, Ghost(more as nat)) + 14);
                }
            }
        }
        proof {
            assert(way.skip(0) =~= way);
        }
        let top: u128 = if handed.is_some() {
            1
        } else {
            0
        };
        (taken, split + top)
    }

    /// What the removal of the entry with a key takes: the slot to read the way to
    /// it, the slots of the pages that are changed, and the pages that are given back.
    pub(crate) fn delete_cost<S: PersistentStore>(
        &self,
        key: &[u8],
        page_cache: &mut PageCache<S>,
    ) -> (cost: (u128, u128, u128))
        requires
            old(page_cache).inv(),
            can_read(old(page_cache)@, self.root()),
            key@.len() > 0,
        ensures
            final(page_cache).inv(),
            final(page_cache)@.same_but_order(old(page_cache)@),
            ({
                let cache = old(page_cache)@;
                let t = tree_at(cache.pages, self.root());
                let way = path_to(t, key@);
                let found = keys_of(contents(t)).contains(key@);
                &&& cost.0 == read_slot(cache, way)
                &&& cost.1 == if found {
                    delete_need(cache, way)
                } else {
                    0
                }
                &&& cost.2 == if found {
                    vanishing(cache.pages, way.skip(1))
                } else {
                    0
                }
            }),
            cost.1 <= MAX_COST,
            cost.2 <= usize::MAX,
    {
        let ghost cache = page_cache@;
        let ghost pages = cache.pages;
        let ghost t = tree_at(pages, self.root());
        let ghost way = path_to(t, key@);
        proof {
            assert(is_tree(pages, self.root(), t));
            lemma_can_walk(cache, self.root(), key@);
            lemma_way_ok(pages, t, None, None, height(t), key@);
            lemma_path_len(t, None, None, height(t), key@);
        }
        let (path, found) = self.find_with_path(key, page_cache);
        let walk: u128 = BTree::count_walk(&path, page_cache);
        if !found {
            return (walk, 0, 0);
        }
        let levels: usize = path.len();
        let mut level: usize = levels;
        let mut gone: bool = false;
        let mut taken: u128 = 0;
        let mut freed: u128 = 0;
        while level > 1
            invariant
                1 <= level <= levels,
                levels == path@.len(),
                way == path_view(path@),
                page_cache.inv(),
                page_cache@.same_but_order(cache),
                pages == cache.pages,
                can_walk(cache, way),
                way_ok(pages, way),
                way.len() == path@.len(),
                ({
                    let rest = way.skip(level as int);
                    &&& taken == delete_taken(cache, rest)
                    &&& freed == vanishing(pages, rest)
                    &&& gone == vanishes(pages, rest)
                    &&& taken <= 3 * (levels - level)
                    &&& freed <= levels - level
                }),
            decreases level,
        {
            let ghost rest = way.skip(level as int);
            let last: bool = level == levels;
            level = level - 1;
            let num = path[level].0;
            proof {
                assert(way[level as int].0 == num@);
                assert(way.skip(level as int).skip(1) =~= rest);
                assert(way.skip(level as int)[0] == way[level as int]);
            }
            let page = page_cache.read_page(num);
            let count: usize = get_num_entries(&page);
            if (last || gone) && page_cache.is_idle(num) {
                taken = taken + 1;
            }
            if last {
                gone = count == 1;
                if gone {
                    taken = taken + count_link(get_prev_sib(&page), page_cache) + count_link(
                        get_next_sib(&page),
                        page_cache,
                    );
                }
            } else {
                gone = gone && count == 0;
            }
            if gone {
                freed = freed + 1;
            }
        }
        proof {
            assert(way[0].0 == path@[0].0@);
            if levels > 1 {
                assert(way.skip(1).len() > 0);
            } else {
                assert(way.skip(1) =~= Seq::<(u64, int)>::empty());
            }
        }
        if (levels == 1 || gone) && page_cache.is_idle(path[0].0) {
            taken = taken + 1;
        }
        (walk, taken, freed)
    }
}

} // verus!
