//! The BTree is an efficient key-value store that supports O(log n) lookup
//! and ordered iteration. It is the base storage mechanism for all structured
//! data. This implementation is a variant called a B+ tree, distinguished by
//! the fact that values are only stored in the leaf nodes. Keys must be unique
//! in the BTree.
//!
//! The BTree is structured so that the page of the root node never changes
//! even if it is split. The upper layers depend on this.

use vstd::prelude::*;

use crate::btree_delete::{can_free, delete_found};
use crate::btree_insert::{
    busy, can_allocate, can_write, insert_at, insert_in_root, lemma_inner_fits,
    lemma_inner_insertable, lemma_inner_same, lemma_leaf_fits, lemma_leaf_insertable,
    lemma_only_new_taken, lemma_page_used, lemma_root_inner_splits, lemma_root_leaf_splits,
    lemma_tree_node, only_new_taken, path_view, same_session,
};
use crate::btree_model::{
    contents, count, distinct, edge_way, entry_ok, flat, forest_count, forest_leaves, height, idx,
    inner_entries, inner_key_ok, kid_ok, leaf_entry_ok, leaves, lemma_contents, lemma_descend,
    lemma_edge_way, lemma_flat_concat, lemma_forest_at, lemma_forest_one, lemma_height,
    lemma_leaf_contents, lemma_leaf_repr, lemma_leaves_filled, lemma_member_count, lemma_nums,
    lemma_path_len, lemma_path_pages, lemma_repr_frame, lemma_repr_unique, link_ok, links_ok,
    lower, nums, path_to, repr, size, slot, thick, tree_pages, upper, wf, LeafPage, Tree,
};
use crate::btree_node::{
    entries_size, entry_size, find_key, get_entry_key, get_entry_value, get_next_sib,
    get_num_entries, get_prev_sib, get_right_child, init_btree_node, is_leaf, keys_of,
    lemma_entries_size_insert, node, slice_to_vec, Entry, MAX_RECORD_SIZE, NODE_CAPACITY,
};
use crate::btree_place::{evolves, lemma_down, outside, placed, post_of, pre_of};
use crate::key_order::{
    ascending, group_lex_order, key_equal, lemma_rank, lemma_rank_unique, lex_le, lex_lt, rank,
};
use crate::page_allocator::{room, spare, FreePages, PageAllocator, FIRST_FREE_PAGE};
use crate::page_cache::{
    lockable, CacheState, PageCache, PageData, PageNum, PersistentStore, INVALID_PAGE,
};
use crate::page_counts::law_tree_pages;
use crate::slots::{
    can_walk, delete_need, growth, insert_need, leaf_trimmed, lemma_delete_need_frame,
    lemma_fresh_few, lemma_fresh_kept, lemma_fresh_slots, lemma_insert_need_frame, lemma_slot_for,
    no_colder, slot_for, splits, vanishing,
};
use crate::superblock::SUPERBLOCK_FPID;
use crate::util::{le64, lemma_le64_roundtrip};

verus! {

/// The pages hold a tree with the given root.
pub open spec fn is_tree(pages: Map<u64, Seq<u8>>, root: u64, t: Tree) -> bool {
    &&& t.page() == root
    &&& wf(t, None, None, height(t))
    &&& repr(pages, t)
    &&& distinct(t)
    &&& forall|q: u64| #[trigger] count(t, q) > 0 ==> lockable(q)
    &&& links_ok(pages, nums(leaves(t)))
}

/// The tree with the given root.
pub open spec fn tree_at(pages: Map<u64, Seq<u8>>, root: u64) -> Tree {
    choose|t: Tree| is_tree(pages, root, t)
}

pub open spec fn has_tree(pages: Map<u64, Seq<u8>>, root: u64) -> bool {
    exists|t: Tree| is_tree(pages, root, t)
}

/// There is only one tree with a given root.
pub proof fn lemma_tree_at(pages: Map<u64, Seq<u8>>, root: u64, t: Tree)
    requires
        is_tree(pages, root, t),
    ensures
        has_tree(pages, root),
        tree_at(pages, root) == t,
{
    lemma_repr_unique(pages, tree_at(pages, root), t);
}

/// The pages of a tree can be locked, as far as their numbers go.
pub open spec fn tree_lockable(pages: Map<u64, Seq<u8>>, root: u64) -> bool {
    forall|q: u64| #[trigger] count(tree_at(pages, root), q) > 0 ==> lockable(q)
}

/// Where all of a tree can be read, it can be read from either end.
pub proof fn lemma_can_iterate(cache: CacheState, root: u64, reverse: bool)
    requires
        can_read(cache, root),
    ensures
        can_iterate(cache, root, reverse),
{
    let t = tree_at(cache.pages, root);
    let way = edge_way(t, reverse);
    lemma_edge_way(t, reverse);
    assert forall|j: int| 0 <= j < way.len() implies cache.can_lock(#[trigger] way[j]) by {
        assert(count(t, way[j]) > 0);
    }
}

/// All pages of a tree can be read.
pub open spec fn can_read(cache: CacheState, root: u64) -> bool {
    &&& has_tree(cache.pages, root)
    &&& forall|q: u64| #[trigger]
        count(tree_at(cache.pages, root), q) > 0 ==> cache.can_lock(q)
}

/// What can be read does not depend on the order of write back.
pub proof fn lemma_same_reader(cache: CacheState, cache2: CacheState, root: u64)
    requires
        can_read(cache, root),
        cache2.same_but_order(cache),
    ensures
        can_read(cache2, root),
{
    assert forall|q: u64| #[trigger] count(tree_at(cache2.pages, root), q) > 0 implies cache2.can_lock(
        q,
    ) by {
        assert(cache.can_lock(q));
    }
}

/// The nodes from the root to the first or the last leaf can be read.
pub open spec fn can_iterate(cache: CacheState, root: u64, reverse: bool) -> bool {
    let way = edge_way(tree_at(cache.pages, root), reverse);
    &&& has_tree(cache.pages, root)
    &&& forall|j: int| 0 <= j < way.len() ==> cache.can_lock(#[trigger] way[j])
}

/// The page is the leaf with the entry `k`.
pub open spec fn holds_entry(t: Tree, k: int, q: u64) -> bool {
    exists|j: int|
        0 <= j < leaves(t).len() && (#[trigger] leaves(t)[j]).page == q && flat(
            leaves(t).take(j),
        ).len() <= k < flat(leaves(t).take(j)).len() + leaves(t)[j].entries.len()
}

/// A place in a B-tree from which its entries can be read one by one.
pub struct BTreeCursor {
    current_node_pnum: Option<PageNum>,
    current_index: usize,
    reverse: bool,
    root: Ghost<u64>,
}

impl BTreeCursor {
    /// The root of the tree that is read.
    pub closed spec fn root(&self) -> u64 {
        self.root@
    }

    spec fn leaf(&self, t: Tree) -> int {
        nums(leaves(t)).index_of(self.current_node_pnum->Some_0@)
    }

    spec fn position(&self, t: Tree) -> int {
        flat(leaves(t).take(self.leaf(t))).len() + self.current_index
    }

    spec fn stands_in(&self, t: Tree) -> bool {
        self.current_node_pnum matches Some(num) ==> {
            &&& nums(leaves(t)).contains(num@)
            &&& self.current_index < leaves(t)[self.leaf(t)].entries.len()
        }
    }

    spec fn remaining_in(&self, t: Tree) -> Seq<Entry> {
        if self.current_node_pnum is None {
            Seq::empty()
        } else if self.reverse {
            contents(t).take(self.position(t) + 1).reverse()
        } else {
            contents(t).skip(self.position(t))
        }
    }

    /// The cursor stands at an entry of the tree, or behind all of them.
    pub closed spec fn wf(&self, pages: Map<u64, Seq<u8>>) -> bool {
        has_tree(pages, self.root@) && self.stands_in(tree_at(pages, self.root@))
    }

    /// The entries that the cursor has not handed out yet, in the order in
    /// which it will.
    pub closed spec fn remaining(&self, pages: Map<u64, Seq<u8>>) -> Seq<Entry> {
        self.remaining_in(tree_at(pages, self.root@))
    }

    /// A cursor is good for any pages with the same tree.
    pub proof fn lemma_frame(&self, pages: Map<u64, Seq<u8>>, pages2: Map<u64, Seq<u8>>)
        requires
            self.wf(pages),
            has_tree(pages2, self.root()),
            tree_at(pages2, self.root()) == tree_at(pages, self.root()),
        ensures
            self.wf(pages2),
            self.remaining(pages2) == self.remaining(pages),
    {
    }

    /// Goes on to the entry after the current one, whose page is at hand.
    fn advance(&mut self, page: &PageData, pages: Ghost<Map<u64, Seq<u8>>>, tree: Ghost<Tree>)
        requires
            is_tree(pages@, old(self).root@, tree@),
            old(self).stands_in(tree@),
            old(self).current_node_pnum is Some,
            page@ == pages@[old(self).current_node_pnum->Some_0@],
            !old(self).reverse,
        ensures
            final(self).root == old(self).root,
            final(self).reverse == old(self).reverse,
            final(self).stands_in(tree@),
            final(self).remaining_in(tree@) == contents(tree@).skip(old(self).position(tree@) + 1),
    {
        let ghost t = tree@;
        let ghost j = self.leaf(t);
        let ghost ls = leaves(t);
        let ghost list = nums(ls);
        proof {
            assert(list[j] == ls[j].page);
            lemma_leaf_repr(pages@, t, j);
            lemma_nums(t);
            lemma_leaves_filled(t, None, None, height(t));
            assert(link_ok(pages@, list, idx(j)));
            assert(ls.take(j + 1).drop_last() =~= ls.take(j));
        }
        let num_entries: usize = get_num_entries(page);
        if self.current_index + 1 >= num_entries {
            self.current_node_pnum = get_next_sib(page);
            self.current_index = 0;
            proof {
                if j + 1 < ls.len() {
                    assert(list[j + 1] == ls[j + 1].page);
                    lemma_index_of(list, j + 1);
                } else {
                    assert(ls.take(j + 1) =~= ls);
                    assert(contents(t).skip(contents(t).len() as int) =~= Seq::<Entry>::empty());
                }
            }
        } else {
            self.current_index = self.current_index + 1;
        }
    }

    /// Goes back to the entry before the current one, whose page is at hand.
    fn retreat<S: PersistentStore>(
        &mut self,
        page: &PageData,
        page_cache: &mut PageCache<S>,
        tree: Ghost<Tree>,
    )
        requires
            old(page_cache).inv(),
            is_tree(old(page_cache)@.pages, old(self).root@, tree@),
            forall|q: u64| #[trigger] count(tree@, q) > 0 ==> old(page_cache)@.can_lock(q),
            old(self).stands_in(tree@),
            old(self).current_node_pnum is Some,
            page@ == old(page_cache)@.pages[old(self).current_node_pnum->Some_0@],
            old(self).reverse,
        ensures
            final(page_cache).inv(),
            final(page_cache)@.same_but_order(old(page_cache)@),
            final(self).root == old(self).root,
            final(self).stands_in(tree@),
            final(self).remaining_in(tree@) == contents(tree@).take(
                old(self).position(tree@),
            ).reverse(),
    {
        let ghost pages = page_cache@.pages;
        let ghost t = tree@;
        let ghost j = self.leaf(t);
        let ghost ls = leaves(t);
        let ghost list = nums(ls);
        proof {
            assert(list[j] == ls[j].page);
            lemma_nums(t);
            lemma_leaves_filled(t, None, None, height(t));
            assert(link_ok(pages, list, idx(j)));
        }
        if self.current_index == 0 {
            self.current_node_pnum = get_prev_sib(page);
            match self.current_node_pnum {
                Some(cur) => {
                    proof {
                        assert(list[j - 1] == ls[j - 1].page);
                        lemma_leaf_repr(pages, t, j - 1);
                        lemma_index_of(list, j - 1);
                        assert(ls.take(j).drop_last() =~= ls.take(j - 1));
                        assert(ls.take(j).last() == ls[j - 1]);
                    }
                    let prev_page = page_cache.read_page(cur);
                    self.current_index = get_num_entries(&prev_page) - 1;
                },
                None => {
                    assert(ls.take(0) =~= Seq::<LeafPage>::empty());
                    assert(contents(t).take(0).reverse() =~= Seq::<Entry>::empty());
                },
            }
        } else {
            self.current_index = self.current_index - 1;
        }
    }

    /// The leaf that the cursor stands in, which runs forward, can be read.
    pub closed spec fn can_step(&self, cache: CacheState) -> bool {
        &&& !self.reverse
        &&& self.current_node_pnum matches Some(num) ==> cache.can_lock(num@)
    }

    pub closed spec fn forward(&self) -> bool {
        !self.reverse
    }

    /// Whether the leaf can be read that the cursor stands in.
    pub(crate) fn is_ready<S: PersistentStore>(&self, page_cache: &PageCache<S>) -> (ready: bool)
        requires
            page_cache.inv(),
            page_cache@.unsaturated(),
            self.wf(page_cache@.pages),
            self.forward(),
            tree_lockable(page_cache@.pages, self.root()),
        ensures
            ready ==> self.can_step(page_cache@),
            !ready ==> {
                let t = tree_at(page_cache@.pages, self.root());
                let k = contents(t).len() - self.remaining(page_cache@.pages).len();
                &&& 0 <= k < contents(t).len()
                &&& page_cache@.available == 0
                &&& exists|q: u64| #[trigger] holds_entry(t, k, q) && page_cache@.idle(q)
            },
    {
        let num = match self.current_node_pnum {
            Some(num) => num,
            None => return true,
        };
        proof {
            let t = tree_at(page_cache@.pages, self.root@);
            let j = self.leaf(t);
            assert(is_tree(page_cache@.pages, self.root@, t));
            lemma_nums(t);
            assert(nums(leaves(t))[j] == num@);
            assert(leaves(t)[j].page == num@);
            lemma_position(leaves(t), j, self.current_index as int);
            assert(count(t, num@) > 0);
            assert(holds_entry(t, self.position(t), num@));
            assert(self.remaining(page_cache@.pages).len() == contents(t).len() - self.position(t));
            assert(page_cache@.refs[num@] < u32::MAX);
        }
        !page_cache.is_idle(num) || page_cache.free_slots() > 0
    }

    /// Hands out the entry that the cursor stands at and goes on to the next.
    pub fn next<S: PersistentStore>(&mut self, page_cache: &mut PageCache<S>) -> (result: Option<
        (Vec<u8>, Vec<u8>),
    >)
        requires
            old(page_cache).inv(),
            can_read(old(page_cache)@, old(self).root()) || old(self).can_step(old(page_cache)@),
            old(self).wf(old(page_cache)@.pages),
        ensures
            final(page_cache).inv(),
            final(page_cache)@.same_but_order(old(page_cache)@),
            final(self).root() == old(self).root(),
            old(self).forward() ==> final(self).forward(),
            final(self).wf(old(page_cache)@.pages),
            ({
                let rest = old(self).remaining(old(page_cache)@.pages);
                match result {
                    Some((key, value)) => rest.len() > 0 && rest[0] == (Entry {
                        key: key@,
                        value: value@,
                    }) && final(self).remaining(old(page_cache)@.pages) == rest.skip(1),
                    None => rest.len() == 0 && *final(self) == *old(self),
                }
            }),
    {
        let ghost pages = page_cache@.pages;
        let ghost t = tree_at(pages, self.root@);
        let ghost j = self.leaf(t);
        let ghost pos = self.position(t);
        let ghost all = contents(t);
        let num = match self.current_node_pnum {
            Some(num) => num,
            None => {
                return None;
            },
        };
        proof {
            assert(nums(leaves(t))[j] == num@);
            lemma_leaf_repr(pages, t, j);
            lemma_position(leaves(t), j, self.current_index as int);
        }
        let page = page_cache.read_page(num);
        let key = slice_to_vec(get_entry_key(&page, self.current_index));
        let value = slice_to_vec(get_entry_value(&page, self.current_index));
        assert(all[pos] == (Entry { key: key@, value: value@ }));
        if self.reverse {
            self.retreat(&page, page_cache, Ghost(t));
            assert(all.take(pos + 1).reverse().skip(1) =~= all.take(pos).reverse());
        } else {
            self.advance(&page, Ghost(pages), Ghost(t));
            assert(all.skip(pos).skip(1) =~= all.skip(pos + 1));
        }
        Some((key, value))
    }
}

/// The entry at a place of a leaf is found among all entries.
proof fn lemma_position(ls: Seq<LeafPage>, j: int, i: int)
    requires
        0 <= j < ls.len(),
        0 <= i < ls[j].entries.len(),
    ensures
        0 <= flat(ls.take(j)).len() + i < flat(ls).len(),
        flat(ls)[flat(ls.take(j)).len() + i] == ls[j].entries[i],
{
    let first = ls.take(j + 1);
    assert(first.drop_last() =~= ls.take(j));
    assert(first.last() == ls[j]);
    assert(ls =~= first + ls.skip(j + 1));
    lemma_flat_concat(first, ls.skip(j + 1));
}

proof fn lemma_index_of(list: Seq<u64>, j: int)
    requires
        list.no_duplicates(),
        0 <= j < list.len(),
    ensures
        list.contains(list[j]),
        list.index_of(list[j]) == j,
{
    let k = list.index_of(list[j]);
    assert(list.contains(list[j]));
    assert(list[k] == list[j]);
}

pub struct BTree {
    root: PageNum,
}

/// The subtree `cur` of a tree, with the leaves before and behind it.
spec fn part_of(
    pages: Map<u64, Seq<u8>>,
    t: Tree,
    cur: Tree,
    front: Seq<LeafPage>,
    back: Seq<LeafPage>,
    lo: Option<Seq<u8>>,
    hi: Option<Seq<u8>>,
) -> bool {
    &&& wf(cur, lo, hi, height(cur))
    &&& repr(pages, cur)
    &&& leaves(t) == front + leaves(cur) + back
    &&& forall|q: u64| #[trigger] count(cur, q) > 0 ==> count(t, q) > 0
    &&& kid_ok(cur) || cur == t
}

/// A subtree of a part is a part.
proof fn lemma_part(
    pages: Map<u64, Seq<u8>>,
    t: Tree,
    cur: Tree,
    front: Seq<LeafPage>,
    back: Seq<LeafPage>,
    lo: Option<Seq<u8>>,
    hi: Option<Seq<u8>>,
    i: int,
)
    requires
        part_of(pages, t, cur, front, back, lo, hi),
        cur is Inner,
        0 <= i < cur->kids.len(),
    ensures
        part_of(
            pages,
            t,
            cur->kids[i],
            front + forest_leaves(cur->kids.take(i)),
            forest_leaves(cur->kids.skip(i + 1)) + back,
            lower(cur->Inner_keys, lo, i),
            upper(cur->Inner_keys, hi, i),
        ),
        height(cur->kids[i]) < height(cur),
{
    let kids = cur->kids;
    let keys = cur->Inner_keys;
    let kid = kids[i];
    let d = height(cur);
    assert(kid_ok(kids[i]));
    lemma_height(kid, lower(keys, lo, i), upper(keys, hi, i), (d - 1) as nat);
    assert(repr(pages, kids[i]));
    lemma_forest_at(kids, i);
    assert(leaves(t) =~= (front + forest_leaves(kids.take(i))) + leaves(kid) + (forest_leaves(
        kids.skip(i + 1),
    ) + back));
    assert forall|q: u64| #[trigger] count(kid, q) > 0 implies count(t, q) > 0 by {
        lemma_member_count(kids, i, q);
        assert(count(cur, q) > 0);
    }
}

/// The page of the subtree `i` stands in the node.
proof fn lemma_child(pages: Map<u64, Seq<u8>>, cur: Tree, i: int)
    requires
        repr(pages, cur),
        cur is Inner,
        0 <= i < cur->kids.len(),
        forall|q: u64| #[trigger] count(cur, q) > 0 ==> q != INVALID_PAGE,
    ensures
        node(pages[cur.page()]).entries.len() == cur->Inner_keys.len(),
        cur->kids.len() == cur->Inner_keys.len() + 1,
        keys_of(node(pages[cur.page()]).entries) == cur->Inner_keys,
        i < cur->Inner_keys.len() ==> {
            let value = node(pages[cur.page()]).entries[i].value;
            value.len() == 8 && le64(value, 0) == cur->kids[i].page()
        },
        i == cur->Inner_keys.len() ==> node(pages[cur.page()]).right == Some(cur->kids[i].page()),
        cur->kids[i].page() != INVALID_PAGE,
{
    let keys = cur->Inner_keys;
    let kids = cur->kids;
    lemma_le64_roundtrip(kids[i].page());
    lemma_member_count(kids, i, kids[i].page());
    assert(count(cur, kids[i].page()) > 0);
    assert(keys_of(inner_entries(keys, kids)) =~= keys);
}

impl BTree {
    /// The page of the root node.
    pub closed spec fn root(&self) -> u64 {
        self.root@
    }

    /// Creates a btree wrapper for an existing btree.
    pub fn open(root: PageNum) -> (tree: Self)
        ensures
            tree.root() == root@,
    {
        BTree { root }
    }

    pub fn get_root_page_id(&self) -> (root: PageNum)
        ensures
            root@ == self.root(),
    {
        self.root
    }

    /// A cursor that runs through all entries, from the first on or, in
    /// reverse, from the last on.
    pub fn iterate<S: PersistentStore>(
        &self,
        reverse: bool,
        page_cache: &mut PageCache<S>,
    ) -> (cursor: BTreeCursor)
        requires
            old(page_cache).inv(),
            can_iterate(old(page_cache)@, self.root(), reverse),
        ensures
            final(page_cache).inv(),
            final(page_cache)@.same_but_order(old(page_cache)@),
            cursor.root() == self.root(),
            cursor.wf(old(page_cache)@.pages),
            !reverse ==> cursor.forward(),
            cursor.remaining(old(page_cache)@.pages) == ({
                let all = contents(tree_at(old(page_cache)@.pages, self.root()));
                if reverse {
                    all.reverse()
                } else {
                    all
                }
            }),
    {
        let ghost pages = page_cache@.pages;
        let ghost root = self.root@;
        let ghost t = tree_at(pages, root);
        let ghost mut cur = t;
        let ghost mut front: Seq<LeafPage> = Seq::empty();
        let ghost mut back: Seq<LeafPage> = Seq::empty();
        let ghost mut lo: Option<Seq<u8>> = None;
        let ghost mut hi: Option<Seq<u8>> = None;
        let ghost mut way = edge_way(t, reverse);
        assert(front + leaves(t) + back =~= leaves(t));
        let mut current_node_pnum = self.root;
        loop
            invariant
                page_cache.inv(),
                page_cache@.same_but_order(old(page_cache)@),
                pages == old(page_cache)@.pages,
                root == self.root@,
                t == tree_at(pages, root),
                is_tree(pages, root, t),
                way == edge_way(cur, reverse),
                forall|j: int| 0 <= j < way.len() ==> old(page_cache)@.can_lock(#[trigger] way[j]),
                current_node_pnum@ == cur.page(),
                part_of(pages, t, cur, front, back, lo, hi),
                reverse ==> back.len() == 0,
                !reverse ==> front.len() == 0,
            decreases height(cur),
        {
            proof {
                lemma_edge_way(cur, reverse);
                assert(old(page_cache)@.can_lock(way[0]));
                assert(count(cur, cur.page()) > 0);
                assert(count(t, cur.page()) > 0);
                assert forall|q: u64| #[trigger] count(cur, q) > 0 implies q != INVALID_PAGE by {
                    assert(count(t, q) > 0);
                }
            }
            let page = page_cache.read_page(current_node_pnum);
            let num_entries: usize = get_num_entries(&page);
            if is_leaf(&page) {
                proof {
                    lemma_leaf_contents(cur);
                    lemma_nums(t);
                }
                let ghost ls = leaves(t);
                let ghost j = front.len() as int;
                proof {
                    assert(ls[j] == leaves(cur)[0]);
                    assert(nums(ls)[j] == cur.page());
                    lemma_index_of(nums(ls), j);
                    assert(ls.take(j) =~= front);
                    lemma_flat_concat(front, leaves(cur));
                    lemma_flat_concat(front + leaves(cur), back);
                    assert(flat(Seq::<LeafPage>::empty()) =~= Seq::<Entry>::empty());
                }
                if num_entries == 0 {
                    // Empty tree
                    // Return a stub cursor that will immediately return None
                    proof {
                        assert(cur == t);
                        assert(contents(t) =~= Seq::<Entry>::empty());
                        assert(contents(t).reverse() =~= Seq::<Entry>::empty());
                    }
                    return BTreeCursor {
                        current_node_pnum: None,
                        current_index: 0,
                        reverse: false,
                        root: Ghost(root),
                    };
                }
                let cursor = BTreeCursor {
                    current_node_pnum: Some(current_node_pnum),
                    current_index: if reverse {
                        num_entries - 1
                    } else {
                        0
                    },
                    reverse,
                    root: Ghost(root),
                };
                proof {
                    let all = contents(t);
                    if reverse {
                        assert(back =~= Seq::<LeafPage>::empty());
                        assert(all.take(all.len() as int) =~= all);
                    } else {
                        assert(front =~= Seq::<LeafPage>::empty());
                        assert(all.skip(0) =~= all);
                    }
                }
                return cursor;
            }
            let ghost i = if reverse {
                cur->kids.len() - 1
            } else {
                0int
            };
            proof {
                lemma_part(pages, t, cur, front, back, lo, hi, i);
                lemma_child(pages, cur, i);
                assert(cur->kids.take(0) =~= Seq::<Tree>::empty());
                assert(cur->kids.skip(cur->kids.len() as int) =~= Seq::<Tree>::empty());
            }
            if !reverse && num_entries > 0 {
                current_node_pnum = PageNum::from_bytes(get_entry_value(&page, 0)).unwrap();
            } else {
                // After a deletion, it's possible to have interior nodes
                // that only have a right child.
                current_node_pnum = get_right_child(&page).unwrap();
            }
            proof {
                let up = cur;
                front = front + forest_leaves(up->kids.take(i));
                back = forest_leaves(up->kids.skip(i + 1)) + back;
                lo = lower(up->Inner_keys, lo, i);
                hi = upper(up->Inner_keys, hi, i);
                cur = up->kids[i];
                let rest = edge_way(cur, reverse);
                assert forall|j: int| 0 <= j < rest.len() implies old(page_cache)@.can_lock(
                    #[trigger] rest[j],
                ) by {
                    assert(way[j + 1] == rest[j]);
                }
                way = rest;
            }
        }
    }

    /// Whether the nodes from the root to the first leaf can be read.
    pub(crate) fn edge_ready<S: PersistentStore>(&self, page_cache: &mut PageCache<S>) -> (ready:
        bool)
        requires
            old(page_cache).inv(),
            old(page_cache)@.unsaturated(),
            has_tree(old(page_cache)@.pages, self.root()),
            tree_lockable(old(page_cache)@.pages, self.root()),
        ensures
            final(page_cache).inv(),
            final(page_cache)@.same_but_order(old(page_cache)@),
            ready ==> can_iterate(old(page_cache)@, self.root(), false),
            !ready ==> {
                let way = edge_way(tree_at(old(page_cache)@.pages, self.root()), false);
                &&& old(page_cache)@.available == 0
                &&& exists|q: u64| #[trigger] way.contains(q) && old(page_cache)@.idle(q)
            },
    {
        let ghost cache = page_cache@;
        let ghost pages = page_cache@.pages;
        let ghost root = self.root@;
        let ghost t = tree_at(pages, root);
        let ghost all = edge_way(t, false);
        let ghost mut cur = t;
        let ghost mut lo: Option<Seq<u8>> = None;
        let ghost mut hi: Option<Seq<u8>> = None;
        let ghost mut done: int = 0;
        let mut current_node_pnum = self.root;
        proof {
            assert(is_tree(pages, root, t));
            assert(all.skip(0) =~= all);
        }
        if page_cache.free_slots() > 0 {
            proof {
                lemma_edge_way(t, false);
                assert forall|j: int| 0 <= j < all.len() implies cache.can_lock(
                    #[trigger] all[j],
                ) by {
                    assert(count(t, all[j]) > 0);
                    assert(cache.refs[all[j]] < u32::MAX);
                }
            }
            return true;
        }
        loop
            invariant
                page_cache.inv(),
                page_cache@.same_but_order(cache),
                cache == old(page_cache)@,
                cache.unsaturated(),
                cache.available == 0,
                pages == cache.pages,
                root == self.root@,
                t == tree_at(pages, root),
                has_tree(pages, root),
                tree_lockable(pages, root),
                all == edge_way(t, false),
                0 <= done < all.len(),
                all.skip(done) == edge_way(cur, false),
                forall|j: int| 0 <= j < done ==> cache.can_lock(#[trigger] all[j]),
                current_node_pnum@ == cur.page(),
                wf(cur, lo, hi, height(cur)),
                repr(pages, cur),
                forall|q: u64| #[trigger] count(cur, q) > 0 ==> count(t, q) > 0,
            decreases height(cur),
        {
            proof {
                lemma_edge_way(cur, false);
                assert(all.skip(done)[0] == all[done]);
                assert(all.contains(all[done]));
                assert(count(cur, cur.page()) > 0);
                assert(count(t, cur.page()) > 0);
                assert(cache.refs[cur.page()] < u32::MAX);
                assert forall|q: u64| #[trigger] count(cur, q) > 0 implies q != INVALID_PAGE by {
                    assert(count(t, q) > 0);
                }
            }
            if page_cache.is_idle(current_node_pnum) {
                return false;
            }
            let page = page_cache.read_page(current_node_pnum);
            if is_leaf(&page) {
                proof {
                    assert forall|j: int| 0 <= j < all.len() implies cache.can_lock(
                        #[trigger] all[j],
                    ) by {
                        if j > done {
                            assert(all.skip(done)[j - done] == all[j]);
                        }
                    }
                }
                return true;
            }
            proof {
                lemma_child(pages, cur, 0);
            }
            if get_num_entries(&page) > 0 {
                current_node_pnum = PageNum::from_bytes(get_entry_value(&page, 0)).unwrap();
            } else {
                current_node_pnum = get_right_child(&page).unwrap();
            }
            proof {
                let up = cur;
                let kids = up->kids;
                assert(kid_ok(kids[0]));
                assert(repr(pages, kids[0]));
                lemma_height(
                    kids[0],
                    lower(up->Inner_keys, lo, 0),
                    upper(up->Inner_keys, hi, 0),
                    (height(up) - 1) as nat,
                );
                assert forall|q: u64| #[trigger] count(kids[0], q) > 0 implies count(t, q) > 0 by {
                    lemma_member_count(kids, 0, q);
                    assert(count(up, q) > 0);
                }
                lo = lower(up->Inner_keys, lo, 0);
                hi = upper(up->Inner_keys, hi, 0);
                cur = kids[0];
                lemma_edge_way(cur, false);
                assert(all.skip(done).skip(1) =~= edge_way(cur, false));
                assert(all.skip(done).skip(1) =~= all.skip(done + 1));
                done = done + 1;
            }
        }
    }

    /// A cursor at the first entry from `key` on or, in reverse, at the last
    /// entry before it.
    pub fn find<S: PersistentStore>(
        &self,
        key: &[u8],
        reverse: bool,
        page_cache: &mut PageCache<S>,
    ) -> (cursor: BTreeCursor)
        requires
            old(page_cache).inv(),
            can_read(old(page_cache)@, self.root()),
            key@.len() > 0,
        ensures
            final(page_cache).inv(),
            final(page_cache)@.same_but_order(old(page_cache)@),
            cursor.root() == self.root(),
            cursor.wf(old(page_cache)@.pages),
            cursor.remaining(old(page_cache)@.pages) == ({
                let all = contents(tree_at(old(page_cache)@.pages, self.root()));
                let at = rank(keys_of(all), key@);
                if reverse {
                    all.take(at).reverse()
                } else {
                    all.skip(at)
                }
            }),
    {
        let ghost pages = page_cache@.pages;
        let ghost root = self.root@;
        let ghost t = tree_at(pages, root);
        let ghost mut cur = t;
        let ghost mut front: Seq<LeafPage> = Seq::empty();
        let ghost mut back: Seq<LeafPage> = Seq::empty();
        let ghost mut lo: Option<Seq<u8>> = None;
        let ghost mut hi: Option<Seq<u8>> = None;
        let ghost at = rank(keys_of(contents(t)), key@);
        assert(front + leaves(t) + back =~= leaves(t));
        assert(flat(front) =~= Seq::<Entry>::empty());
        let mut current_node_pnum = self.root;
        loop
            invariant
                page_cache.inv(),
                page_cache@.same_but_order(old(page_cache)@),
                pages == old(page_cache)@.pages,
                can_read(old(page_cache)@, root),
                root == self.root@,
                t == tree_at(pages, root),
                is_tree(pages, root, t),
                key@.len() > 0,
                current_node_pnum@ == cur.page(),
                part_of(pages, t, cur, front, back, lo, hi),
                at == rank(keys_of(contents(t)), key@),
                at == flat(front).len() + rank(keys_of(contents(cur)), key@),
            decreases height(cur),
        {
            proof {
                assert(count(cur, cur.page()) > 0);
                assert(count(t, cur.page()) > 0);
                assert forall|q: u64| #[trigger] count(cur, q) > 0 implies q != INVALID_PAGE by {
                    assert(count(t, q) > 0);
                }
                if cur is Inner {
                    lemma_child(pages, cur, 0);
                } else {
                    lemma_leaf_contents(cur);
                }
            }
            let page = page_cache.read_page(current_node_pnum);
            let index: usize = find_key(&page, key);
            let num_entries: usize = get_num_entries(&page);
            if is_leaf(&page) {
                let ghost ls = leaves(t);
                let ghost list = nums(ls);
                let ghost j = front.len() as int;
                proof {
                    lemma_nums(t);
                    lemma_leaves_filled(t, None, None, height(t));
                    assert(ls[j] == leaves(cur)[0]);
                    assert(list[j] == cur.page());
                    lemma_index_of(list, j);
                    assert(ls.take(j) =~= front);
                    assert(link_ok(pages, list, idx(j)));
                }
                if !reverse && index == num_entries {
                    // What comes next is the first entry of the leaf behind this one.
                    proof {
                        assert(ls.take(j + 1).drop_last() =~= ls.take(j));
                        assert(ls.take(j + 1).last() == ls[j]);
                        if j + 1 < ls.len() {
                            assert(list[j + 1] == ls[j + 1].page);
                            lemma_index_of(list, j + 1);
                        } else {
                            assert(ls.take(j + 1) =~= ls);
                            assert(contents(t).skip(at) =~= Seq::<Entry>::empty());
                        }
                    }
                    return BTreeCursor {
                        current_node_pnum: get_next_sib(&page),
                        current_index: 0,
                        reverse,
                        root: Ghost(root),
                    };
                }
                if reverse && index == 0 {
                    // What comes next is the last entry of the leaf before this one.
                    let prev = get_prev_sib(&page);
                    let current_index: usize = match prev {
                        Some(num) => {
                            proof {
                                assert(list[j - 1] == ls[j - 1].page);
                                lemma_leaf_repr(pages, t, j - 1);
                                lemma_index_of(list, j - 1);
                                assert(ls.take(j).drop_last() =~= ls.take(j - 1));
                                assert(ls.take(j).last() == ls[j - 1]);
                            }
                            let prev_page = page_cache.read_page(num);
                            get_num_entries(&prev_page) - 1
                        },
                        None => {
                            assert(j == 0);
                            assert(front =~= Seq::<LeafPage>::empty());
                            assert(contents(t).take(0).reverse() =~= Seq::<Entry>::empty());
                            0
                        },
                    };
                    return BTreeCursor {
                        current_node_pnum: prev,
                        current_index,
                        reverse,
                        root: Ghost(root),
                    };
                }
                return BTreeCursor {
                    current_node_pnum: Some(current_node_pnum),
                    current_index: if reverse {
                        index - 1
                    } else {
                        index
                    },
                    reverse,
                    root: Ghost(root),
                };
            }
            let ghost i = slot(cur, key@);
            proof {
                lemma_descend(cur, lo, hi, height(cur), key@);
                lemma_part(pages, t, cur, front, back, lo, hi, i);
                lemma_child(pages, cur, i);
                lemma_flat_concat(front, forest_leaves(cur->kids.take(i)));
            }
            if index == num_entries {
                current_node_pnum = get_right_child(&page).unwrap();
            } else {
                current_node_pnum = PageNum::from_bytes(get_entry_value(&page, index)).unwrap();
            }
            proof {
                let up = cur;
                front = front + forest_leaves(up->kids.take(i));
                back = forest_leaves(up->kids.skip(i + 1)) + back;
                lo = lower(up->Inner_keys, lo, i);
                hi = upper(up->Inner_keys, hi, i);
                cur = up->kids[i];
            }
        }
    }

    /// The height of the tree.
    pub(crate) fn depth<S: PersistentStore>(&self, page_cache: &mut PageCache<S>) -> (depth: usize)
        requires
            old(page_cache).inv(),
            can_read(old(page_cache)@, self.root()),
        ensures
            final(page_cache).inv(),
            final(page_cache)@.same_but_order(old(page_cache)@),
            depth == height(tree_at(old(page_cache)@.pages, self.root())),
    {
        let key: [u8; 1] = [0];
        proof {
            lemma_can_walk(page_cache@, self.root(), key@);
        }
        let (path, _) = self.find_with_path(&key, page_cache);
        proof {
            let t = tree_at(old(page_cache)@.pages, self.root());
            assert(is_tree(old(page_cache)@.pages, self.root(), t));
            lemma_path_len(t, None, None, height(t), key@);
            assert(path_view(path@).len() == path@.len());
        }
        path.len() - 1
    }

    /// The nodes from the root to the leaf where `key` belongs, each with the
    /// place of the key in it; and whether the key is there.
    pub(crate) fn find_with_path<S: PersistentStore>(
        &self,
        key: &[u8],
        page_cache: &mut PageCache<S>,
    ) -> (result: (Vec<(PageNum, usize)>, bool))
        requires
            old(page_cache).inv(),
            has_tree(old(page_cache)@.pages, self.root()),
            can_walk(
                old(page_cache)@,
                path_to(tree_at(old(page_cache)@.pages, self.root()), key@),
            ),
            key@.len() > 0,
        ensures
            final(page_cache).inv(),
            final(page_cache)@.same_but_order(old(page_cache)@),
            path_view(result.0@) == path_to(tree_at(old(page_cache)@.pages, self.root()), key@),
            result.1 <==> keys_of(
                contents(tree_at(old(page_cache)@.pages, self.root())),
            ).contains(key@),
    {
        let ghost pages = page_cache@.pages;
        let ghost root = self.root@;
        let ghost t = tree_at(pages, root);
        let ghost mut cur = t;
        let ghost mut front: Seq<LeafPage> = Seq::empty();
        let ghost mut back: Seq<LeafPage> = Seq::empty();
        let ghost mut lo: Option<Seq<u8>> = None;
        let ghost mut hi: Option<Seq<u8>> = None;
        let mut path: Vec<(PageNum, usize)> = Vec::new();
        proof {
            assert(front + leaves(t) + back =~= leaves(t));
            assert(path_view(path@) + path_to(t, key@) =~= path_to(t, key@));
        }
        let mut current_node_pnum = self.root;
        loop
            invariant
                page_cache.inv(),
                page_cache@.same_but_order(old(page_cache)@),
                pages == old(page_cache)@.pages,
                can_walk(old(page_cache)@, path_to(t, key@)),
                root == self.root@,
                t == tree_at(pages, root),
                is_tree(pages, root, t),
                key@.len() > 0,
                current_node_pnum@ == cur.page(),
                part_of(pages, t, cur, front, back, lo, hi),
                path_view(path@) + path_to(cur, key@) == path_to(t, key@),
                keys_of(contents(t)).contains(key@) <==> keys_of(contents(cur)).contains(key@),
            decreases height(cur),
        {
            proof {
                assert(count(cur, cur.page()) > 0);
                assert(count(t, cur.page()) > 0);
                lemma_path_len(cur, lo, hi, height(cur), key@);
                assert(path_to(t, key@)[path@.len() as int] == path_to(cur, key@)[0]);
                assert(old(page_cache)@.can_lock(path_to(t, key@)[path@.len() as int].0));
                assert forall|q: u64| #[trigger] count(cur, q) > 0 implies q != INVALID_PAGE by {
                    assert(count(t, q) > 0);
                }
                if cur is Inner {
                    lemma_child(pages, cur, 0);
                } else {
                    lemma_leaf_contents(cur);
                }
            }
            let page = page_cache.read_page(current_node_pnum);
            let index: usize = find_key(&page, key);
            let num_entries: usize = get_num_entries(&page);
            let ghost path0 = path_view(path@);
            path.push((current_node_pnum, index));
            assert(path_view(path@) =~= path0.push((cur.page(), index as int)));
            if is_leaf(&page) {
                assert(path_view(path@) =~= path0 + path_to(cur, key@));
                let found: bool = index < num_entries && key_equal(
                    get_entry_key(&page, index),
                    key,
                );
                proof {
                    lemma_in_leaf(cur->Leaf_entries, key@);
                }
                return (path, found);
            }
            let ghost i = slot(cur, key@);
            proof {
                lemma_descend(cur, lo, hi, height(cur), key@);
                lemma_part(pages, t, cur, front, back, lo, hi, i);
                lemma_child(pages, cur, i);
                assert(path_view(path@) + path_to(cur->kids[i], key@) =~= path0 + path_to(
                    cur,
                    key@,
                ));
            }
            if index == num_entries {
                current_node_pnum = get_right_child(&page).unwrap();
            } else {
                current_node_pnum = PageNum::from_bytes(get_entry_value(&page, index)).unwrap();
            }
            proof {
                let up = cur;
                front = front + forest_leaves(up->kids.take(i));
                back = forest_leaves(up->kids.skip(i + 1)) + back;
                lo = lower(up->Inner_keys, lo, i);
                hi = upper(up->Inner_keys, hi, i);
                cur = up->kids[i];
            }
        }
    }
}

/// The allocator knows that the pages of the tree are in use, and no page but
/// the root is one that it could not have handed out.
pub open spec fn tree_owned(pages: Map<u64, Seq<u8>>, free: FreePages, root: u64) -> bool {
    forall|q: u64| #[trigger]
        count(tree_at(pages, root), q) > 0 ==> free.in_use(q) && (q == root || q
            >= FIRST_FREE_PAGE)
}

/// A tree lies in its pages, with nothing beside it.
pub proof fn lemma_tree_placed(pages: Map<u64, Seq<u8>>, free: FreePages, root: u64)
    requires
        has_tree(pages, root),
        tree_owned(pages, free, root),
    ensures
        placed(
            pages,
            free,
            root,
            seq![tree_at(pages, root)],
            Seq::empty(),
            Seq::empty(),
        ),
{
    let none = Seq::<u64>::empty();
    let t = tree_at(pages, root);
    let ts = seq![t];
    assert(is_tree(pages, root, t));
    lemma_forest_one(ts, t);
    assert(none + nums(forest_leaves(ts)) + none =~= nums(leaves(t)));
    assert forall|q: u64| #[trigger] forest_count(ts, q) <= 1 && (forest_count(ts, q) > 0 ==> (
    free.in_use(q) && (q == root || q >= FIRST_FREE_PAGE))) by {
        assert(forest_count(ts, q) == count(t, q));
    }
}

/// A tree that lies in its pages is the tree with that root.
pub proof fn lemma_placed_tree(
    pages: Map<u64, Seq<u8>>,
    free: FreePages,
    root: u64,
    t: Tree,
    d: nat,
)
    requires
        placed(pages, free, root, seq![t], Seq::empty(), Seq::empty()),
        wf(t, None, None, d),
        t.page() == root,
        free.wf(),
    ensures
        is_tree(pages, root, t),
        has_tree(pages, root),
        tree_at(pages, root) == t,
        tree_owned(pages, free, root),
        height(t) == d,
{
    let none = Seq::<u64>::empty();
    let ts = seq![t];
    lemma_forest_one(ts, t);
    lemma_height(t, None, None, d);
    assert(none + nums(forest_leaves(ts)) + none =~= nums(leaves(t)));
    assert(repr(pages, ts[0]));
    assert forall|q: u64| #[trigger] count(t, q) <= 1 && (count(t, q) > 0 ==> lockable(q)
        && free.in_use(q) && (q == root || q >= FIRST_FREE_PAGE)) by {
        assert(forest_count(ts, q) == count(t, q));
    }
    lemma_tree_at(pages, root, t);
}

/// If all pages of a tree were busy, they are so after a change that has taken
/// slots only for new pages.
proof fn lemma_busy(
    cache: CacheState,
    free: FreePages,
    cache2: CacheState,
    free2: FreePages,
    root: u64,
)
    requires
        only_new_taken(cache, free, cache2, free2),
        tree_owned(cache2.pages, free2, root),
        evolves(
            cache.pages,
            free,
            seq![tree_at(cache.pages, root)],
            cache2.pages,
            free2,
            seq![tree_at(cache2.pages, root)],
            Seq::empty(),
            Seq::empty(),
        ),
        busy(cache, tree_pages(tree_at(cache.pages, root))),
    ensures
        busy(cache2, tree_pages(tree_at(cache2.pages, root))),
{
    let t = tree_at(cache.pages, root);
    let t2 = tree_at(cache2.pages, root);
    lemma_forest_one(seq![t], t);
    lemma_forest_one(seq![t2], t2);
    assert forall|q: u64| #[trigger] tree_pages(t2).contains(q) implies !cache2.idle(q) by {
        assert(count(t2, q) > 0);
        assert(forest_count(seq![t2], q) == count(t2, q));
        assert(forest_count(seq![t], q) == count(t, q));
        assert(outside(free2, seq![t2], q) == outside(free, seq![t], q));
        if free.in_use(q) {
            assert(tree_pages(t).contains(q));
            assert(!cache.idle(q));
            if cache.dirty.contains(q) {
                assert(cache2.dirty.contains(q));
            }
        } else {
            assert(free2.in_use(q));
        }
    }
}

/// What can be read can be walked through.
pub proof fn lemma_can_walk(cache: CacheState, root: u64, key: Seq<u8>)
    requires
        can_read(cache, root),
    ensures
        can_walk(cache, path_to(tree_at(cache.pages, root), key)),
{
    let t = tree_at(cache.pages, root);
    assert(is_tree(cache.pages, root, t));
    lemma_path_pages(t, None, None, height(t), key);
    let way = path_to(t, key);
    assert forall|j: int| 0 <= j < way.len() implies cache.can_lock((#[trigger] way[j]).0) by {
        assert(count(t, way[j].0) > 0);
    }
}

impl BTree {
    /// Adds an entry. The key must not be in the tree.
    #[verifier::rlimit(40)]
    pub fn insert<S: PersistentStore>(
        &self,
        key: &[u8],
        value: &[u8],
        page_cache: &mut PageCache<S>,
        page_allocator: &mut PageAllocator,
    )
        requires
            old(page_cache).inv(),
            can_write(old(page_cache)@),
            old(page_allocator).inv(old(page_cache)@.pages),
            has_tree(old(page_cache)@.pages, self.root()),
            tree_owned(old(page_cache)@.pages, old(page_allocator)@, self.root()),
            entry_ok(Entry { key: key@, value: value@ }),
            !keys_of(contents(tree_at(old(page_cache)@.pages, self.root()))).contains(key@),
            ({
                let cache = old(page_cache)@;
                let way = path_to(tree_at(cache.pages, self.root()), key@);
                let size = entry_size(Entry { key: key@, value: value@ });
                &&& can_walk(cache, way)
                &&& can_allocate(*old(page_allocator), growth(cache.pages, way, size))
                &&& spare(cache, growth(cache.pages, way, size)) >= insert_need(
                    cache,
                    old(page_allocator)@,
                    way,
                    size,
                )
            }),
        ensures
            final(page_cache).inv(),
            same_session(final(page_cache)@, old(page_cache)@),
            final(page_allocator).inv(final(page_cache)@.pages),
            final(page_allocator).balance() == old(page_allocator).balance(),
            has_tree(final(page_cache)@.pages, self.root()),
            tree_owned(final(page_cache)@.pages, final(page_allocator)@, self.root()),
            only_new_taken(
                old(page_cache)@,
                old(page_allocator)@,
                final(page_cache)@,
                final(page_allocator)@,
            ),
            busy(old(page_cache)@, tree_pages(tree_at(old(page_cache)@.pages, self.root())))
                ==> busy(
                final(page_cache)@,
                tree_pages(tree_at(final(page_cache)@.pages, self.root())),
            ),
            ({
                let t = tree_at(old(page_cache)@.pages, self.root());
                let t2 = tree_at(final(page_cache)@.pages, self.root());
                &&& contents(t2) == contents(t).insert(
                    rank(keys_of(contents(t)), key@),
                    Entry { key: key@, value: value@ },
                )
                &&& height(t) <= height(t2) <= height(t) + 1
                &&& thick(t) ==> thick(t2)
                &&& t is Leaf ==> (t2 is Leaf <==> entries_size(contents(t2)) <= NODE_CAPACITY)
                &&& evolves(
                    old(page_cache)@.pages,
                    old(page_allocator)@,
                    seq![t],
                    final(page_cache)@.pages,
                    final(page_allocator)@,
                    seq![t2],
                    Seq::empty(),
                    Seq::empty(),
                )
                &&& final(page_allocator).frees() == old(page_allocator).frees()
                &&& final(page_allocator).allocs() - size(t2) == old(page_allocator).allocs()
                    - size(t)
            }),
            ({
                let cache = old(page_cache)@;
                let way = path_to(tree_at(cache.pages, self.root()), key@);
                let size = entry_size(Entry { key: key@, value: value@ });
                let more = growth(cache.pages, way, size);
                let need = insert_need(cache, old(page_allocator)@, way, size);
                &&& final(page_allocator).allocs() == old(page_allocator).allocs() + more
                &&& final(page_allocator)@ == old(page_allocator)@.taken_many(more)
                &&& final(page_allocator)@.frontier <= old(page_allocator)@.frontier + more
                &&& room(final(page_cache)@) >= room(cache) - need
                &&& more == 0 ==> final(page_cache)@.available >= cache.available - need
            }),
    {
        let ghost pages = page_cache@.pages;
        let ghost free = page_allocator@;
        let ghost root = self.root@;
        let ghost t = tree_at(pages, root);
        let ghost d = height(t);
        let ghost none = Seq::<u64>::empty();
        let ghost entry = Entry { key: key@, value: value@ };
        let ghost cache1 = page_cache@;
        proof {
            assert(count(t, t.page()) > 0);
            assert(is_tree(pages, root, t));
            lemma_tree_placed(pages, free, root);
            lemma_path_len(t, None, None, d, key@);
            lemma_tree_node(pages, t, None, None, d);
            page_allocator.lemma_wf(pages);
        }
        let (path, found) = self.find_with_path(key, page_cache);
        let ghost way = path_to(t, key@);
        let ghost size = entry_size(entry);
        proof {
            lemma_insert_need_frame(cache1, page_cache@, way, size);
            lemma_insert_need_frame(cache1, page_cache@, way.skip(1), size);
            let more = growth(pages, way, size);
            let below = splits(pages, way.skip(1), size);
            lemma_fresh_kept(cache1, page_cache@, free, more);
            lemma_fresh_kept(cache1, page_cache@, free, below);
            lemma_fresh_slots(cache1, free, below, (more - below) as nat);
            lemma_fresh_few(cache1, free.taken_many(below));
            free.lemma_taken_many(below, (more - below) as nat);
            lemma_slot_for(cache1, page_cache@, root);
            if way.len() == 1 {
                assert(way.skip(1) =~= Seq::<(u64, int)>::empty());
                assert(splits(pages, way.skip(1), size) == 0);
            }
            page_allocator.lemma_inv(pages, page_cache@.pages);
        }

        // We're now at a leaf. Insert and walk back up the tree splitting nodes
        // as needed.
        if path.len() == 1 {
            proof {
                lemma_leaf_insertable(pages, free, root, t, None, None, entry, none, none);
                lemma_small_keys(pages, t, None, None, 0);
            }
            let Ghost(split) = insert_in_root(
                self.root,
                key,
                value,
                page_cache,
                page_allocator,
            );
            proof {
                let pages2 = page_cache@.pages;
                page_allocator.lemma_wf(pages2);
                lemma_leaf_contents(t);
                match split {
                    None => {
                        let mid = lemma_leaf_fits(
                            pages,
                            pages2,
                            free,
                            root,
                            t,
                            None,
                            None,
                            entry,
                            none,
                            none,
                        );
                        assert(mid =~= seq![mid[0]]);
                        lemma_forest_one(mid, mid[0]);
                        lemma_placed_tree(pages2, page_allocator@, root, mid[0], 0);
                    },
                    Some((sep, s)) => {
                        let t2 = lemma_root_leaf_splits(pages, pages2, free, t, entry, sep, s);
                        lemma_placed_tree(pages2, page_allocator@, root, t2, 1);
                    },
                }
            }
        } else {
            let ghost i = slot(t, key@);
            let ghost keys = t->Inner_keys;
            proof {
                lemma_descend(t, None, None, d, key@);
                lemma_down(pages, free, root, t, i, none, none);
                assert(kid_ok(t->kids[i]));
                assert(path_to(t, key@).skip(1) =~= path_to(t->kids[i], key@));
                assert(path_view(path@).skip(1) =~= path_to(t->kids[i], key@));
            }
            let (split, Ghost(mid)) = insert_at(
                &path,
                1,
                key,
                value,
                page_cache,
                page_allocator,
                Ghost(root),
                Ghost(t->kids[i]),
                Ghost(lower(keys, None, i)),
                Ghost(upper(keys, None, i)),
                Ghost((d - 1) as nat),
                Ghost(pre_of(none, t, i)),
                Ghost(post_of(none, t, i)),
            );
            let ghost cache2 = page_cache@;
            let ghost pages2 = page_cache@.pages;
            let ghost free2 = page_allocator@;
            proof {
                page_allocator.lemma_wf(pages2);
                lemma_page_used(pages, pages2, free, free2, root, t, i, mid, none, none);
                lemma_slot_for(cache1, cache2, root);
                lemma_fresh_few(cache2, free2);
                lemma_fresh_kept(cache1, cache2, free2, 2);
            }
            match split {
                None => {
                    proof {
                        let up = lemma_inner_same(
                            pages,
                            pages2,
                            free,
                            free2,
                            root,
                            t,
                            None,
                            None,
                            d,
                            entry,
                            mid,
                            none,
                            none,
                        );
                        assert(up =~= seq![up[0]]);
                        lemma_forest_one(up, up[0]);
                        lemma_placed_tree(pages2, free2, root, up[0], d);
                    }
                },
                Some((sep, left)) => {
                    proof {
                        lemma_inner_insertable(
                            pages,
                            pages2,
                            free,
                            free2,
                            root,
                            t,
                            None,
                            None,
                            d,
                            entry,
                            sep@,
                            left@,
                            mid,
                            none,
                            none,
                        );
                        lemma_page_used(pages, pages2, free, free2, root, t, i, mid, none, none);
                        lemma_small_keys(pages, t, None, None, d);
                    }
                    let left_bytes = left.to_bytes();
                    let Ghost(split2) = insert_in_root(
                        self.root,
                        &sep,
                        &left_bytes,
                        page_cache,
                        page_allocator,
                    );
                    proof {
                        lemma_only_new_taken(
                            cache1,
                            free,
                            cache2,
                            free2,
                            page_cache@,
                            page_allocator@,
                        );
                        let pages3 = page_cache@.pages;
                        page_allocator.lemma_wf(pages3);
                        match split2 {
                            None => {
                                let up = lemma_inner_fits(
                                    pages,
                                    pages2,
                                    pages3,
                                    free,
                                    free2,
                                    root,
                                    t,
                                    None,
                                    None,
                                    d,
                                    entry,
                                    sep@,
                                    left@,
                                    mid,
                                    none,
                                    none,
                                );
                                assert(up =~= seq![up[0]]);
                                lemma_forest_one(up, up[0]);
                                lemma_placed_tree(pages3, page_allocator@, root, up[0], d);
                            },
                            Some((sep2, s)) => {
                                let t2 = lemma_root_inner_splits(
                                    pages,
                                    pages2,
                                    pages3,
                                    free,
                                    free2,
                                    t,
                                    d,
                                    entry,
                                    sep@,
                                    left@,
                                    mid,
                                    sep2,
                                    s,
                                );
                                lemma_placed_tree(pages3, page_allocator@, root, t2, d + 1);
                            },
                        }
                    }
                },
            }
        }
        proof {
            let t2 = tree_at(page_cache@.pages, root);
            assert(is_tree(page_cache@.pages, root, t2));
            assert(t2 is Leaf <==> height(t2) == 0);
            lemma_contents(t, None, None, d);
            lemma_rank(keys_of(contents(t)), key@);
            lemma_entries_size_insert(contents(t), rank(keys_of(contents(t)), key@), entry);
            law_tree_pages(pages, *old(page_allocator), page_cache@.pages, *page_allocator, root);
            if busy(cache1, tree_pages(t)) {
                lemma_busy(cache1, free, page_cache@, page_allocator@, root);
            }
        }
    }
}

impl BTree {
    /// Allocates a new page and initializes an on-disk btree.
    pub fn create<S: PersistentStore>(
        page_cache: &mut PageCache<S>,
        page_allocator: &mut PageAllocator,
    ) -> (tree: Self)
        requires
            old(page_cache).inv(),
            can_write(old(page_cache)@),
            old(page_allocator).inv(old(page_cache)@.pages),
            can_allocate(*old(page_allocator), 1),
            room(old(page_cache)@) >= slot_for(old(page_cache)@, old(page_allocator)@.next()),
        ensures
            final(page_cache).inv(),
            same_session(final(page_cache)@, old(page_cache)@),
            room(final(page_cache)@) >= room(old(page_cache)@) - slot_for(
                old(page_cache)@,
                old(page_allocator)@.next(),
            ),
            tree.root() == old(page_allocator)@.next(),
            final(page_allocator).inv(final(page_cache)@.pages),
            final(page_allocator).balance() == old(page_allocator).balance(),
            final(page_allocator)@ == old(page_allocator)@.taken(),
            final(page_allocator).allocs() == old(page_allocator).allocs() + 1,
            final(page_allocator).frees() == old(page_allocator).frees(),
            has_tree(final(page_cache)@.pages, tree.root()),
            tree_owned(final(page_cache)@.pages, final(page_allocator)@, tree.root()),
            tree_at(final(page_cache)@.pages, tree.root()) == (Tree::Leaf {
                page: tree.root(),
                entries: Seq::empty(),
            }),
            final(page_cache)@.dirty == old(page_cache)@.dirty.insert(SUPERBLOCK_FPID).insert(
                tree.root(),
            ),
            forall|q: u64|
                q != SUPERBLOCK_FPID && q != tree.root() ==> #[trigger] final(page_cache)@.pages[q]
                    == old(page_cache)@.pages[q],
    {
        let ghost pages = page_cache@.pages;
        proof {
            page_allocator.lemma_wf(pages);
            page_allocator@.lemma_alloc();
        }
        let root = page_allocator.allocate(page_cache);
        let ghost pages1 = page_cache@.pages;
        let tree = Self::create_at(page_cache, root);
        proof {
            let free = page_allocator@;
            page_allocator.lemma_wf(pages1);
            assert(free.in_use(root@));
            page_allocator.lemma_inv(pages1, page_cache@.pages);
        }
        tree
    }

    /// Initializes an on-disk btree in a given page.
    pub fn create_at<S: PersistentStore>(page_cache: &mut PageCache<S>, root: PageNum) -> (tree:
        Self)
        requires
            old(page_cache).inv(),
            old(page_cache)@.in_transaction,
            old(page_cache)@.can_lock(root@),
        ensures
            final(page_cache).inv(),
            same_session(final(page_cache)@, old(page_cache)@),
            final(page_cache)@.dirty == old(page_cache)@.dirty.insert(root@),
            final(page_cache)@.available == (if old(page_cache)@.idle(root@) {
                old(page_cache)@.available - 1
            } else {
                old(page_cache)@.available as int
            }),
            tree.root() == root@,
            has_tree(final(page_cache)@.pages, root@),
            tree_at(final(page_cache)@.pages, root@) == (Tree::Leaf {
                page: root@,
                entries: Seq::empty(),
            }),
            forall|q: u64|
                q != root@ ==> #[trigger] final(page_cache)@.pages[q] == old(page_cache)@.pages[q],
    {
        let mut page = page_cache.read_page(root);
        init_btree_node(&mut page);
        page_cache.write_page(root, &page);
        proof {
            let t = Tree::Leaf { page: root@, entries: Seq::empty() };
            let pages = page_cache@.pages;
            let list = nums(leaves(t));
            assert(list =~= seq![root@]);
            assert forall|j: int| 0 <= j < list.len() implies link_ok(
                pages,
                list,
                #[trigger] idx(j),
            ) by {
                assert(list[j] == root@);
            }
            lemma_tree_at(pages, root@, t);
        }
        BTree { root }
    }

    /// Removes the entry with the key. Nothing is done if there is none.
    pub fn delete<S: PersistentStore>(
        &self,
        key: &[u8],
        page_cache: &mut PageCache<S>,
        allocator: &mut PageAllocator,
    )
        requires
            old(page_cache).inv(),
            can_write(old(page_cache)@),
            old(allocator).inv(old(page_cache)@.pages),
            has_tree(old(page_cache)@.pages, self.root()),
            tree_owned(old(page_cache)@.pages, old(allocator)@, self.root()),
            key@.len() > 0,
            ({
                let cache = old(page_cache)@;
                let t = tree_at(cache.pages, self.root());
                let way = path_to(t, key@);
                &&& can_walk(cache, way)
                &&& keys_of(contents(t)).contains(key@) ==> {
                    &&& can_free(*old(allocator), vanishing(cache.pages, way.skip(1)))
                    &&& spare(cache, vanishing(cache.pages, way.skip(1))) >= delete_need(
                        cache,
                        way,
                    )
                }
            }),
        ensures
            final(page_cache).inv(),
            same_session(final(page_cache)@, old(page_cache)@),
            final(allocator).inv(final(page_cache)@.pages),
            final(allocator).balance() == old(allocator).balance(),
            has_tree(final(page_cache)@.pages, self.root()),
            tree_owned(final(page_cache)@.pages, final(allocator)@, self.root()),
            ({
                let t = tree_at(old(page_cache)@.pages, self.root());
                let t2 = tree_at(final(page_cache)@.pages, self.root());
                let found = keys_of(contents(t)).contains(key@);
                &&& contents(t2) == (if found {
                    contents(t).remove(rank(keys_of(contents(t)), key@))
                } else {
                    contents(t)
                })
                &&& !found ==> final(page_cache)@.same_but_order(old(page_cache)@)
                    && *final(allocator) == *old(allocator)
                &&& height(t2) <= height(t)
                &&& evolves(
                    old(page_cache)@.pages,
                    old(allocator)@,
                    seq![t],
                    final(page_cache)@.pages,
                    final(allocator)@,
                    seq![t2],
                    Seq::empty(),
                    Seq::empty(),
                )
                &&& final(allocator).allocs() == old(allocator).allocs()
                &&& final(allocator).frees() + size(t2) == old(allocator).frees() + size(t)
                &&& final(allocator)@.frontier == old(allocator)@.frontier
                &&& no_colder(old(page_cache)@, final(page_cache)@)
                &&& found ==> {
                    let way = path_to(t, key@);
                    &&& final(allocator).frees() == old(allocator).frees() + vanishing(
                        old(page_cache)@.pages,
                        way.skip(1),
                    )
                    &&& room(final(page_cache)@) >= room(old(page_cache)@) - delete_need(
                        old(page_cache)@,
                        way,
                    )
                    &&& vanishing(old(page_cache)@.pages, way.skip(1)) == 0
                        ==> final(page_cache)@.available >= old(page_cache)@.available
                        - delete_need(old(page_cache)@, way)
                    &&& vanishing(old(page_cache)@.pages, way.skip(1)) == 0 ==> {
                        &&& leaf_trimmed(old(page_cache)@, final(page_cache)@, way)
                        &&& *final(allocator) == *old(allocator)
                    }
                }
            }),
    {
        let ghost pages = page_cache@.pages;
        let ghost free = allocator@;
        let ghost t = tree_at(pages, self.root@);
        proof {
            assert(is_tree(pages, self.root@, t));
            lemma_tree_placed(pages, free, self.root@);
            allocator.lemma_wf(pages);
        }
        let ghost cache1 = page_cache@;
        let (path, found) = self.find_with_path(key, page_cache);
        if !found {
            return ;
        }
        proof {
            lemma_delete_need_frame(cache1, page_cache@, path_to(t, key@));
            lemma_delete_need_frame(cache1, page_cache@, path_to(t, key@).skip(1));
        }
        let Ghost(result) = delete_found(
            &path,
            Ghost(key@),
            page_cache,
            allocator,
            Ghost(t),
            Ghost(height(t)),
        );
        proof {
            allocator.lemma_wf(page_cache@.pages);
            lemma_placed_tree(
                page_cache@.pages,
                allocator@,
                self.root@,
                result.0,
                result.1,
            );
            law_tree_pages(pages, *old(allocator), page_cache@.pages, *allocator, self.root@);
        }
    }
}

/// A tree is the same in other pages that agree on those of the tree.
pub proof fn lemma_tree_frame(
    pages: Map<u64, Seq<u8>>,
    pages2: Map<u64, Seq<u8>>,
    root: u64,
)
    requires
        has_tree(pages, root),
        forall|q: u64| #[trigger] count(tree_at(pages, root), q) > 0 ==> pages2[q] == pages[q],
    ensures
        has_tree(pages2, root),
        tree_at(pages2, root) == tree_at(pages, root),
{
    let t = tree_at(pages, root);
    assert(is_tree(pages, root, t));
    lemma_repr_frame(pages, pages2, t);
    let list = nums(leaves(t));
    lemma_nums(t);
    assert forall|j: int| 0 <= j < list.len() implies link_ok(pages2, list, #[trigger] idx(j)) by {
        assert(link_ok(pages, list, idx(j)));
        assert(list.contains(list[j]));
        assert(count(t, list[j]) > 0);
    }
    lemma_tree_at(pages2, root, t);
}

/// Two trees have no page in common.
pub open spec fn apart(a: Tree, b: Tree) -> bool {
    forall|q: u64| #[trigger] count(a, q) > 0 ==> count(b, q) == 0
}

/// A change to one tree leaves every other tree as it is, and apart from it.
pub proof fn lemma_other_tree(
    pages: Map<u64, Seq<u8>>,
    pages2: Map<u64, Seq<u8>>,
    free: FreePages,
    free2: FreePages,
    t: Tree,
    t2: Tree,
    other: u64,
)
    requires
        evolves(
            pages,
            free,
            seq![t],
            pages2,
            free2,
            seq![t2],
            Seq::empty(),
            Seq::empty(),
        ),
        has_tree(pages, other),
        tree_owned(pages, free, other),
        apart(tree_at(pages, other), t),
    ensures
        has_tree(pages2, other),
        tree_at(pages2, other) == tree_at(pages, other),
        tree_owned(pages2, free2, other),
        apart(tree_at(pages2, other), t2),
{
    let o = tree_at(pages, other);
    lemma_forest_one(seq![t], t);
    lemma_forest_one(seq![t2], t2);
    assert forall|q: u64| #[trigger] count(o, q) > 0 implies pages2[q] == pages[q]
        && free2.in_use(q) && count(t2, q) == 0 by {
        assert(forest_count(seq![t], q) == count(t, q));
        assert(forest_count(seq![t2], q) == count(t2, q));
        assert(outside(free, seq![t], q));
        assert(outside(free2, seq![t2], q) == outside(free, seq![t], q));
    }
    lemma_tree_frame(pages, pages2, other);
}

/// The keys of a node are short enough for an interior node.
proof fn lemma_small_keys(
    pages: Map<u64, Seq<u8>>,
    t: Tree,
    lo: Option<Seq<u8>>,
    hi: Option<Seq<u8>>,
    d: nat,
)
    requires
        wf(t, lo, hi, d),
        repr(pages, t),
    ensures
        forall|i: int|
            0 <= i < node(pages[t.page()]).entries.len() ==> (#[trigger] node(
                pages[t.page()],
            ).entries[i]).key.len() + 8 < MAX_RECORD_SIZE,
{
    let n = node(pages[t.page()]);
    assert forall|i: int| 0 <= i < n.entries.len() implies (#[trigger] n.entries[i]).key.len() + 8
        < MAX_RECORD_SIZE by {
        match t {
            Tree::Leaf { entries, .. } => {
                assert(leaf_entry_ok(entries[i], lo, hi));
            },
            Tree::Inner { keys, .. } => {
                assert(inner_key_ok(keys[i], lo, hi));
            },
        }
    }
}

/// A key is in a leaf if it stands at its place.
proof fn lemma_in_leaf(entries: Seq<Entry>, key: Seq<u8>)
    requires
        ascending(keys_of(entries)),
    ensures
        ({
            let at = rank(keys_of(entries), key);
            keys_of(entries).contains(key) <==> at < entries.len() && entries[at].key == key
        }),
{
    broadcast use group_lex_order;

    let keys = keys_of(entries);
    let at = rank(keys, key);
    lemma_rank(keys, key);
    if keys.contains(key) {
        let j = keys.index_of(key);
        assert(keys[j] == key);
        if at < j {
            assert(lex_lt(keys[at], keys[j]));
            assert(lex_le(key, keys[at]));
        }
        assert(at <= j);
    }
    if at < entries.len() && entries[at].key == key {
        assert(keys[at] == key);
    }
}

/// An entry with a new key stands at its sorted place, and all other entries are
/// kept in order: none is lost, and none occurs twice.
pub proof fn law_insert_adds_one_entry(all: Seq<Entry>, entry: Entry)
    requires
        ascending(keys_of(all)),
        !keys_of(all).contains(entry.key),
    ensures
        ({
            let at = rank(keys_of(all), entry.key);
            let after = all.insert(at, entry);
            &&& 0 <= at <= all.len()
            &&& after.len() == all.len() + 1
            &&& after[at] == entry
            &&& after.remove(at) == all
            &&& ascending(keys_of(after))
        }),
{
    broadcast use group_lex_order;

    let keys = keys_of(all);
    let at = rank(keys, entry.key);
    let after = all.insert(at, entry);
    lemma_rank(keys, entry.key);
    assert(after.remove(at) =~= all);
    let keys2 = keys_of(after);
    assert forall|i: int| at <= i < keys.len() implies lex_lt(entry.key, #[trigger] keys[i]) by {
        assert(lex_le(entry.key, keys[i]));
        assert(keys.contains(keys[i]));
    }
    assert forall|i: int, j: int| 0 <= i < j < keys2.len() implies lex_lt(
        #[trigger] keys2[i],
        #[trigger] keys2[j],
    ) by {
        let x = if i < at {
            i
        } else {
            i - 1
        };
        let y = if j < at {
            j
        } else {
            j - 1
        };
        if i != at {
            assert(keys2[i] == keys[x]);
        }
        if j != at {
            assert(keys2[j] == keys[y]);
        }
        if i != at && j != at {
            assert(lex_lt(keys[x], keys[y]));
        }
    }
}

/// The entry with a key is gone, and all other entries are kept in order.
pub proof fn law_delete_removes_one_entry(all: Seq<Entry>, key: Seq<u8>)
    requires
        ascending(keys_of(all)),
        keys_of(all).contains(key),
    ensures
        ({
            let at = rank(keys_of(all), key);
            let after = all.remove(at);
            &&& 0 <= at < all.len()
            &&& all[at].key == key
            &&& after.insert(at, all[at]) == all
            &&& ascending(keys_of(after))
            &&& !keys_of(after).contains(key)
            &&& rank(keys_of(after), key) == at
        }),
{
    broadcast use group_lex_order;

    let keys = keys_of(all);
    let at = rank(keys, key);
    let after = all.remove(at);
    let k = keys.index_of(key);
    lemma_rank(keys, key);
    if k < at {
        assert(lex_lt(keys[k], key));
    }
    if at < k {
        assert(lex_lt(keys[at], keys[k]));
        assert(lex_le(key, keys[at]));
    }
    assert(after.insert(at, all[at]) =~= all);
    let keys2 = keys_of(after);
    assert forall|i: int| 0 <= i < keys2.len() implies #[trigger] keys2[i] == (if i < at {
        keys[i]
    } else {
        keys[i + 1]
    }) by {}
    assert forall|i: int| at <= i < keys2.len() implies !lex_lt(#[trigger] keys2[i], key) by {
        assert(lex_lt(keys[at], keys[i + 1]));
    }
    assert forall|i: int| 0 <= i < at implies lex_lt(#[trigger] keys2[i], key) by {
        assert(lex_lt(keys[i], key));
    }
    if keys2.contains(key) {
        let i = keys2.index_of(key);
        if i >= at {
            assert(lex_lt(keys[at], keys[i + 1]));
        }
    }
    lemma_rank_unique(keys2, key, at);
}

/// A search forward hands out exactly the entries from the key on, and a search
/// backward exactly those before it.
pub proof fn law_find_parts_entries(all: Seq<Entry>, key: Seq<u8>)
    requires
        ascending(keys_of(all)),
    ensures
        ({
            let at = rank(keys_of(all), key);
            &&& 0 <= at <= all.len()
            &&& all.take(at) + all.skip(at) == all
            &&& forall|i: int| 0 <= i < at ==> lex_lt((#[trigger] all[i]).key, key)
            &&& forall|i: int| at <= i < all.len() ==> lex_le(key, (#[trigger] all[i]).key)
        }),
{
    let keys = keys_of(all);
    let at = rank(keys, key);
    lemma_rank(keys, key);
    assert(all.take(at) + all.skip(at) =~= all);
    assert forall|i: int| 0 <= i < all.len() implies #[trigger] all[i].key == keys[i] by {}
}

/// The entries of a tree are in ascending order of their keys, none of which is
/// empty or occurs twice, and whoever opens the root again finds this same tree.
pub proof fn law_tree_is_found_again(pages: Map<u64, Seq<u8>>, tree: BTree, again: BTree)
    requires
        has_tree(pages, tree.root()),
        again.root() == tree.root(),
    ensures
        has_tree(pages, again.root()),
        is_tree(pages, again.root(), tree_at(pages, tree.root())),
        ascending(keys_of(contents(tree_at(pages, again.root())))),
        tree_at(pages, again.root()).page() == tree.root(),
        forall|i: int|
            0 <= i < contents(tree_at(pages, again.root())).len() ==> (#[trigger] contents(
                tree_at(pages, again.root()),
            )[i]).key.len() > 0,
{
    let t = tree_at(pages, tree.root());
    assert(is_tree(pages, tree.root(), t));
    lemma_contents(t, None, None, height(t));
}

} // verus!
