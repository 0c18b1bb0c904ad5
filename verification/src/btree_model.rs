//! What the pages of a B-tree stand for: a tree whose leaves, from left to
//! right, hold the entries in ascending order of their keys.

use vstd::prelude::*;

use crate::btree_node::{keys_of, node, node_wf, Entry, Node, MAX_RECORD_SIZE};
use crate::key_order::{
    ascending, group_lex_order, lemma_rank, lemma_rank_unique, lex_le, lex_lt, rank,
};
use crate::util::{le64_bytes, lemma_le64_roundtrip};

verus! {

/// A B-tree as a mathematical object. Between two keys of an interior node
/// stands the subtree for the keys above the first and up to the second.
pub enum Tree {
    Leaf { page: u64, entries: Seq<Entry> },
    Inner { page: u64, keys: Seq<Seq<u8>>, kids: Seq<Tree> },
}

/// A leaf with its page.
#[verifier::ext_equal]
pub struct LeafPage {
    pub page: u64,
    pub entries: Seq<Entry>,
}

impl Tree {
    /// The page of the root of the tree.
    pub open spec fn page(self) -> u64 {
        match self {
            Tree::Leaf { page, .. } => page,
            Tree::Inner { page, .. } => page,
        }
    }
}

/// The leaves from left to right.
pub open spec fn leaves(t: Tree) -> Seq<LeafPage>
    decreases t,
{
    match t {
        Tree::Leaf { page, entries } => seq![LeafPage { page, entries }],
        Tree::Inner { kids, .. } => forest_leaves(kids),
    }
}

pub open spec fn forest_leaves(ts: Seq<Tree>) -> Seq<LeafPage>
    decreases ts,
{
    if ts.len() == 0 {
        Seq::empty()
    } else {
        forest_leaves(ts.drop_last()) + leaves(ts.last())
    }
}

/// How often a page occurs in the tree.
pub open spec fn count(t: Tree, q: u64) -> nat
    decreases t,
{
    match t {
        Tree::Leaf { page, .. } => if page == q {
            1
        } else {
            0
        },
        Tree::Inner { page, kids, .. } => (if page == q {
            1nat
        } else {
            0nat
        }) + forest_count(kids, q),
    }
}

pub open spec fn forest_count(ts: Seq<Tree>, q: u64) -> nat
    decreases ts,
{
    if ts.len() == 0 {
        0
    } else {
        forest_count(ts.drop_last(), q) + count(ts.last(), q)
    }
}

/// The pages of a tree.
pub open spec fn tree_pages(t: Tree) -> Set<u64> {
    Set::new(|q: u64| count(t, q) > 0)
}

/// How many nodes a tree has.
pub open spec fn size(t: Tree) -> nat
    decreases t,
{
    match t {
        Tree::Leaf { .. } => 1,
        Tree::Inner { kids, .. } => 1 + forest_size(kids),
    }
}

pub open spec fn forest_size(ts: Seq<Tree>) -> nat
    decreases ts,
{
    if ts.len() == 0 {
        0
    } else {
        forest_size(ts.drop_last()) + size(ts.last())
    }
}

pub proof fn lemma_forest_size(a: Seq<Tree>, b: Seq<Tree>)
    ensures
        forest_size(a + b) == forest_size(a) + forest_size(b),
    decreases b.len(),
{
    if b.len() == 0 {
        assert(a + b =~= a);
    } else {
        assert((a + b).drop_last() =~= a + b.drop_last());
        lemma_forest_size(a, b.drop_last());
    }
}

/// All entries of the leaves, in order.
pub open spec fn flat(ls: Seq<LeafPage>) -> Seq<Entry>
    decreases ls.len(),
{
    if ls.len() == 0 {
        Seq::empty()
    } else {
        flat(ls.drop_last()) + ls.last().entries
    }
}

/// All entries of the tree, in order.
pub open spec fn contents(t: Tree) -> Seq<Entry> {
    flat(leaves(t))
}

/// The pages of leaves.
pub open spec fn nums(ls: Seq<LeafPage>) -> Seq<u64> {
    ls.map_values(|l: LeafPage| l.page)
}

pub open spec fn above(lo: Option<Seq<u8>>, key: Seq<u8>) -> bool {
    lo matches Some(bound) ==> lex_lt(bound, key)
}

pub open spec fn upto(hi: Option<Seq<u8>>, key: Seq<u8>) -> bool {
    hi matches Some(bound) ==> lex_le(key, bound)
}

pub open spec fn below(hi: Option<Seq<u8>>, key: Seq<u8>) -> bool {
    hi matches Some(bound) ==> lex_lt(key, bound)
}

/// The key below the subtree `i` of an interior node.
pub open spec fn lower(keys: Seq<Seq<u8>>, lo: Option<Seq<u8>>, i: int) -> Option<Seq<u8>> {
    if i == 0 {
        lo
    } else {
        Some(keys[i - 1])
    }
}

/// The key that bounds the subtree `i` of an interior node from above.
pub open spec fn upper(keys: Seq<Seq<u8>>, hi: Option<Seq<u8>>, i: int) -> Option<Seq<u8>> {
    if i == keys.len() {
        hi
    } else {
        Some(keys[i])
    }
}

/// A key that fits into an interior node.
pub open spec fn key_ok(key: Seq<u8>) -> bool {
    0 < key.len() && key.len() + 8 < MAX_RECORD_SIZE
}

/// An entry that fits into a leaf.
pub open spec fn entry_ok(entry: Entry) -> bool {
    key_ok(entry.key) && entry.key.len() + entry.value.len() < MAX_RECORD_SIZE
}

pub open spec fn leaf_entry_ok(entry: Entry, lo: Option<Seq<u8>>, hi: Option<Seq<u8>>) -> bool {
    entry_ok(entry) && above(lo, entry.key) && upto(hi, entry.key)
}

pub open spec fn inner_key_ok(key: Seq<u8>, lo: Option<Seq<u8>>, hi: Option<Seq<u8>>) -> bool {
    key_ok(key) && above(lo, key) && below(hi, key)
}

/// A leaf below an interior node has an entry.
pub open spec fn kid_ok(t: Tree) -> bool {
    t matches Tree::Leaf { entries, .. } ==> entries.len() > 0
}

/// All leaves have depth `d`; the keys are ascending and lie above `lo` and up to `hi`.
pub open spec fn wf(t: Tree, lo: Option<Seq<u8>>, hi: Option<Seq<u8>>, d: nat) -> bool
    decreases d,
{
    match t {
        Tree::Leaf { entries, .. } => {
            &&& d == 0
            &&& ascending(keys_of(entries))
            &&& forall|i: int|
                0 <= i < entries.len() ==> leaf_entry_ok(#[trigger] entries[i], lo, hi)
        },
        Tree::Inner { keys, kids, .. } => {
            &&& d > 0
            &&& kids.len() == keys.len() + 1
            &&& ascending(keys)
            &&& forall|i: int| 0 <= i < keys.len() ==> inner_key_ok(#[trigger] keys[i], lo, hi)
            &&& forall|i: int|
                0 <= i < kids.len() ==> kid_ok(#[trigger] kids[i]) && wf(
                    kids[i],
                    lower(keys, lo, i),
                    upper(keys, hi, i),
                    (d - 1) as nat,
                )
        },
    }
}

/// The pages hold the tree. The links between the leaves are left out here.
pub open spec fn repr(pages: Map<u64, Seq<u8>>, t: Tree) -> bool
    decreases t,
{
    let n = node(pages[t.page()]);
    &&& node_wf(pages[t.page()])
    &&& match t {
        Tree::Leaf { entries, .. } => n.leaf && n.right is None && n.entries == entries,
        Tree::Inner { keys, kids, .. } => {
            &&& !n.leaf
            &&& n.next is None
            &&& n.prev is None
            &&& kids.len() == keys.len() + 1
            &&& n.right == Some(kids[kids.len() - 1].page())
            &&& n.entries == inner_entries(keys, kids)
            &&& forall|i: int| 0 <= i < kids.len() ==> repr(pages, #[trigger] kids[i])
        },
    }
}

/// The entries of an interior node: each key with the page of the subtree below it.
pub open spec fn inner_entries(keys: Seq<Seq<u8>>, kids: Seq<Tree>) -> Seq<Entry> {
    Seq::new(
        keys.len(),
        |i: int| Entry { key: keys[i], value: le64_bytes(kids[i].page()) },
    )
}

/// No page occurs twice.
pub open spec fn distinct(t: Tree) -> bool {
    forall|q: u64| #[trigger] count(t, q) <= 1
}

pub open spec fn after(list: Seq<u64>, j: int) -> Option<u64> {
    if j + 1 < list.len() {
        Some(list[j + 1])
    } else {
        None
    }
}

pub open spec fn before(list: Seq<u64>, j: int) -> Option<u64> {
    if j > 0 {
        Some(list[j - 1])
    } else {
        None
    }
}

/// The page at place `j` is a leaf that is linked to those beside it.
pub open spec fn link_ok(pages: Map<u64, Seq<u8>>, list: Seq<u64>, j: int) -> bool {
    let n = node(pages[list[j]]);
    &&& node_wf(pages[list[j]])
    &&& n.leaf
    &&& n.next == after(list, j)
    &&& n.prev == before(list, j)
}

/// The pages in the list are leaves that are linked in both directions.
pub open spec fn links_ok(pages: Map<u64, Seq<u8>>, list: Seq<u64>) -> bool {
    forall|j: int| 0 <= j < list.len() ==> link_ok(pages, list, #[trigger] idx(j))
}

/// Marks a place in a list.
pub open spec fn idx(j: int) -> int {
    j
}

/// A page is as it was, or a leaf that has got other siblings.
pub open spec fn relinked(p: Seq<u8>, q: Seq<u8>) -> bool {
    p == q || (node(p).leaf && node_wf(q) && node(q) == (Node {
        next: node(q).next,
        prev: node(q).prev,
        ..node(p)
    }))
}

pub proof fn lemma_flat_concat(a: Seq<LeafPage>, b: Seq<LeafPage>)
    ensures
        flat(a + b) == flat(a) + flat(b),
    decreases b.len(),
{
    if b.len() == 0 {
        assert(a + b =~= a);
        assert(flat(a) + flat(b) =~= flat(a));
    } else {
        assert((a + b).drop_last() =~= a + b.drop_last());
        lemma_flat_concat(a, b.drop_last());
        assert(flat(a + b) =~= flat(a) + flat(b));
    }
}

pub proof fn lemma_forest_concat(a: Seq<Tree>, b: Seq<Tree>)
    ensures
        forest_leaves(a + b) == forest_leaves(a) + forest_leaves(b),
        forall|q: u64| #[trigger]
            forest_count(a + b, q) == forest_count(a, q) + forest_count(b, q),
    decreases b.len(),
{
    if b.len() == 0 {
        assert(a + b =~= a);
        assert(forest_leaves(a) + forest_leaves(b) =~= forest_leaves(a));
    } else {
        assert((a + b).drop_last() =~= a + b.drop_last());
        assert((a + b).last() == b.last());
        lemma_forest_concat(a, b.drop_last());
        assert(forest_leaves(a + b) =~= forest_leaves(a) + forest_leaves(b));
        assert forall|q: u64| #[trigger]
            forest_count(a + b, q) == forest_count(a, q) + forest_count(b, q) by {
            assert(forest_count(a + b.drop_last(), q) == forest_count(a, q) + forest_count(
                b.drop_last(),
                q,
            ));
        }
    }
}

pub proof fn lemma_forest_one(ts: Seq<Tree>, t: Tree)
    requires
        ts == seq![t],
    ensures
        forest_leaves(ts) == leaves(t),
        forall|q: u64| #[trigger] forest_count(ts, q) == count(t, q),
{
    reveal_with_fuel(forest_leaves, 2);
    reveal_with_fuel(forest_count, 2);
    assert(ts.drop_last() =~= Seq::<Tree>::empty());
    assert(forest_leaves(ts) =~= leaves(t));
}

pub proof fn lemma_forest_two(ts: Seq<Tree>, a: Tree, b: Tree)
    requires
        ts == seq![a, b],
    ensures
        forest_leaves(ts) == leaves(a) + leaves(b),
        forall|q: u64| #[trigger] forest_count(ts, q) == count(a, q) + count(b, q),
{
    assert(ts =~= seq![a] + seq![b]);
    lemma_forest_concat(seq![a], seq![b]);
    lemma_forest_one(seq![a], a);
    lemma_forest_one(seq![b], b);
}

/// The trees with the one at `i` replaced by others.
pub open spec fn splice(ts: Seq<Tree>, i: int, mid: Seq<Tree>) -> Seq<Tree> {
    ts.take(i) + mid + ts.skip(i + 1)
}

pub proof fn lemma_splice(ts: Seq<Tree>, i: int, mid: Seq<Tree>)
    requires
        0 <= i < ts.len(),
    ensures
        forest_leaves(splice(ts, i, mid)) == forest_leaves(ts.take(i)) + forest_leaves(mid)
            + forest_leaves(ts.skip(i + 1)),
        forall|q: u64| #[trigger]
            forest_count(splice(ts, i, mid), q) == forest_count(ts.take(i), q) + forest_count(
                mid,
                q,
            ) + forest_count(ts.skip(i + 1), q),
{
    lemma_forest_concat(ts.take(i), mid);
    lemma_forest_concat(ts.take(i) + mid, ts.skip(i + 1));
}

/// The leaves and pages of a forest, parted at one of its trees.
pub proof fn lemma_forest_at(ts: Seq<Tree>, i: int)
    requires
        0 <= i < ts.len(),
    ensures
        forest_leaves(ts) == forest_leaves(ts.take(i)) + leaves(ts[i]) + forest_leaves(
            ts.skip(i + 1),
        ),
        forall|q: u64| #[trigger]
            forest_count(ts, q) == forest_count(ts.take(i), q) + count(ts[i], q) + forest_count(
                ts.skip(i + 1),
                q,
            ),
{
    assert(ts =~= splice(ts, i, seq![ts[i]]));
    lemma_splice(ts, i, seq![ts[i]]);
    lemma_forest_one(seq![ts[i]], ts[i]);
}

/// A subtree has no more pages than the forest.
pub proof fn lemma_member_count(ts: Seq<Tree>, i: int, q: u64)
    requires
        0 <= i < ts.len(),
    ensures
        count(ts[i], q) <= forest_count(ts, q),
{
    lemma_forest_at(ts, i);
}

/// Two different subtrees have no page in common if no page occurs twice.
pub proof fn lemma_members_disjoint(ts: Seq<Tree>, i: int, j: int, q: u64)
    requires
        0 <= i < ts.len(),
        0 <= j < ts.len(),
        i != j,
    ensures
        count(ts[i], q) + count(ts[j], q) <= forest_count(ts, q),
{
    lemma_forest_at(ts, i);
    if j < i {
        lemma_member_count(ts.take(i), j, q);
    } else {
        lemma_member_count(ts.skip(i + 1), j - i - 1, q);
    }
}

/// Every leaf is a page of the tree; no leaf occurs twice if no page does.
pub proof fn lemma_nums(t: Tree)
    requires
        distinct(t),
    ensures
        nums(leaves(t)).no_duplicates(),
        forall|q: u64| #[trigger] nums(leaves(t)).contains(q) ==> count(t, q) > 0,
    decreases t,
{
    match t {
        Tree::Leaf { page, entries } => {
            assert(nums(leaves(t)) =~= seq![page]);
        },
        Tree::Inner { kids, .. } => {
            assert forall|q: u64| #[trigger] forest_count(kids, q) <= 1 by {
                assert(count(t, q) <= 1);
            }
            lemma_forest_nums(kids);
        },
    }
}

pub proof fn lemma_forest_nums(ts: Seq<Tree>)
    requires
        forall|q: u64| #[trigger] forest_count(ts, q) <= 1,
    ensures
        nums(forest_leaves(ts)).no_duplicates(),
        forall|q: u64| #[trigger] nums(forest_leaves(ts)).contains(q) ==> forest_count(ts, q) > 0,
    decreases ts,
{
    if ts.len() > 0 {
        let rest = ts.drop_last();
        let last = ts.last();
        assert forall|q: u64| #[trigger] forest_count(rest, q) <= 1 by {
            assert(forest_count(ts, q) <= 1);
        }
        assert forall|q: u64| #[trigger] count(last, q) <= 1 by {
            assert(forest_count(ts, q) <= 1);
        }
        lemma_forest_nums(rest);
        lemma_nums(last);
        let a = nums(forest_leaves(rest));
        let b = nums(leaves(last));
        assert(nums(forest_leaves(ts)) =~= a + b);
        assert forall|q: u64| #[trigger] (a + b).contains(q) implies forest_count(ts, q) > 0 by {
            let i = (a + b).index_of(q);
            if i < a.len() {
                assert(a.contains(a[i]));
            } else {
                assert(b.contains(b[i - a.len()]));
            }
        }
        assert forall|i: int, j: int| 0 <= i < j < a.len() + b.len() implies (a + b)[i] != (a
            + b)[j] by {
            if i < a.len() && j >= a.len() {
                let q = a[i];
                assert(a.contains(a[i]));
                assert(b.contains(b[j - a.len()]));
                if q == b[j - a.len()] {
                    assert(forest_count(ts, q) <= 1);
                }
            }
        }
    }
}

/// A tree stays where it is if each of its pages stays, up to the links of leaves.
pub proof fn lemma_repr_frame(pages: Map<u64, Seq<u8>>, other: Map<u64, Seq<u8>>, t: Tree)
    requires
        repr(pages, t),
        forall|q: u64| #[trigger] count(t, q) > 0 ==> relinked(pages[q], other[q]),
    ensures
        repr(other, t),
    decreases t,
{
    assert(count(t, t.page()) > 0);
    match t {
        Tree::Leaf { .. } => {},
        Tree::Inner { keys, kids, .. } => {
            assert forall|i: int| 0 <= i < kids.len() implies repr(other, #[trigger] kids[i]) by {
                assert(repr(pages, kids[i]));
                assert forall|q: u64| #[trigger] count(kids[i], q) > 0 implies relinked(
                    pages[q],
                    other[q],
                ) by {
                    lemma_member_count(kids, i, q);
                    assert(count(t, q) > 0);
                }
                lemma_repr_frame(pages, other, kids[i]);
            }
        },
    }
}

/// The pages determine the tree.
pub proof fn lemma_repr_unique(pages: Map<u64, Seq<u8>>, a: Tree, b: Tree)
    requires
        repr(pages, a),
        repr(pages, b),
        a.page() == b.page(),
    ensures
        a == b,
    decreases a,
{
    match (a, b) {
        (Tree::Inner { keys: ka, kids: ta, .. }, Tree::Inner { keys: kb, kids: tb, .. }) => {
            let ea = inner_entries(ka, ta);
            let eb = inner_entries(kb, tb);
            assert(ka.len() == ea.len() && kb.len() == eb.len());
            assert forall|i: int| 0 <= i < ka.len() implies ka[i] == kb[i] by {
                assert(ea[i] == eb[i]);
            }
            assert(ka =~= kb);
            assert forall|i: int| 0 <= i < ta.len() implies ta[i] == tb[i] by {
                assert(repr(pages, ta[i]));
                assert(repr(pages, tb[i]));
                if i < ka.len() {
                    assert(ea[i] == eb[i]);
                    lemma_le64_roundtrip(ta[i].page());
                    lemma_le64_roundtrip(tb[i].page());
                }
                lemma_repr_unique(pages, ta[i], tb[i]);
            }
            assert(ta =~= tb);
        },
        _ => {},
    }
}

/// A tree also fits between bounds that are further apart.
pub proof fn lemma_widen(
    t: Tree,
    lo: Option<Seq<u8>>,
    hi: Option<Seq<u8>>,
    lo2: Option<Seq<u8>>,
    hi2: Option<Seq<u8>>,
    d: nat,
)
    requires
        wf(t, lo, hi, d),
        lo2 == lo || lo2 is None || (lo is Some && lex_lt(lo2->Some_0, lo->Some_0)),
        hi2 == hi || hi2 is None || (hi is Some && lex_lt(hi->Some_0, hi2->Some_0)),
    ensures
        wf(t, lo2, hi2, d),
    decreases d,
{
    broadcast use group_lex_order;

    match t {
        Tree::Leaf { entries, .. } => {
            assert forall|i: int| 0 <= i < entries.len() implies leaf_entry_ok(
                #[trigger] entries[i],
                lo2,
                hi2,
            ) by {
                assert(leaf_entry_ok(entries[i], lo, hi));
            }
        },
        Tree::Inner { keys, kids, .. } => {
            assert forall|i: int| 0 <= i < keys.len() implies inner_key_ok(
                #[trigger] keys[i],
                lo2,
                hi2,
            ) by {
                assert(inner_key_ok(keys[i], lo, hi));
            }
            assert forall|i: int| 0 <= i < kids.len() implies kid_ok(#[trigger] kids[i]) && wf(
                kids[i],
                lower(keys, lo2, i),
                upper(keys, hi2, i),
                (d - 1) as nat,
            ) by {
                lemma_widen(
                    kids[i],
                    lower(keys, lo, i),
                    upper(keys, hi, i),
                    lower(keys, lo2, i),
                    upper(keys, hi2, i),
                    (d - 1) as nat,
                );
            }
        },
    }
}

/// The entries of a tree are ascending and lie between its bounds.
pub proof fn lemma_contents(t: Tree, lo: Option<Seq<u8>>, hi: Option<Seq<u8>>, d: nat)
    requires
        wf(t, lo, hi, d),
    ensures
        ascending(keys_of(contents(t))),
        forall|j: int|
            0 <= j < contents(t).len() ==> leaf_entry_ok(#[trigger] contents(t)[j], lo, hi),
    decreases d, 1nat, 0nat,
{
    match t {
        Tree::Leaf { entries, .. } => {
            lemma_leaf_contents(t);
        },
        Tree::Inner { keys, kids, .. } => {
            assert(kids.subrange(0, kids.len() as int) =~= kids);
            lemma_range(t, lo, hi, d, 0, kids.len() as int);
        },
    }
}

/// A leaf holds its own entries.
pub proof fn lemma_leaf_contents(t: Tree)
    requires
        t is Leaf,
    ensures
        contents(t) == t->Leaf_entries,
{
    let ls = leaves(t);
    reveal_with_fuel(flat, 2);
    assert(ls.drop_last() =~= Seq::<LeafPage>::empty());
    assert(contents(t) =~= t->Leaf_entries);
}

/// The entries of a forest.
pub open spec fn forest_contents(ts: Seq<Tree>) -> Seq<Entry> {
    flat(forest_leaves(ts))
}

/// The entries of a row of subtrees are ascending and lie between the keys around the row.
pub proof fn lemma_range(
    t: Tree,
    lo: Option<Seq<u8>>,
    hi: Option<Seq<u8>>,
    d: nat,
    a: int,
    b: int,
)
    requires
        wf(t, lo, hi, d),
        t is Inner,
        0 <= a < b <= t->kids.len(),
    ensures
        ascending(keys_of(forest_contents(t->kids.subrange(a, b)))),
        forall|j: int|
            0 <= j < forest_contents(t->kids.subrange(a, b)).len() ==> leaf_entry_ok(
                #[trigger] forest_contents(t->kids.subrange(a, b))[j],
                lower(t->Inner_keys, lo, a),
                upper(t->Inner_keys, hi, b - 1),
            ),
    decreases d, 0nat, (b - a) as nat,
{
    broadcast use group_lex_order;

    let keys = t->Inner_keys;
    let kids = t->kids;
    let row = kids.subrange(a, b);
    let last = kids[b - 1];
    let lo_row = lower(keys, lo, a);
    let hi_row = upper(keys, hi, b - 1);
    lemma_contents(last, lower(keys, lo, b - 1), hi_row, (d - 1) as nat);
    assert(row.drop_last() =~= kids.subrange(a, b - 1));
    assert(row.last() == last);
    let y = contents(last);
    lemma_flat_concat(forest_leaves(row.drop_last()), leaves(last));
    if b - 1 == a {
        assert(row.drop_last() =~= Seq::<Tree>::empty());
        assert(forest_contents(row) =~= y);
    } else {
        lemma_range(t, lo, hi, d, a, b - 1);
        let x = forest_contents(kids.subrange(a, b - 1));
        let all = x + y;
        let part = keys[b - 2];
        assert(forest_contents(row) == all);
        assert(inner_key_ok(part, lo, hi));
        assert(a == 0 || a - 1 < b - 2 ==> a > 0 ==> lex_lt(keys[a - 1], part));
        assert(b - 1 < keys.len() ==> lex_lt(part, keys[b - 1]));
        assert forall|j: int| 0 <= j < all.len() implies leaf_entry_ok(
            #[trigger] all[j],
            lo_row,
            hi_row,
        ) by {
            if j < x.len() {
                assert(leaf_entry_ok(x[j], lo_row, Some(part)));
            } else {
                assert(leaf_entry_ok(y[j - x.len()], Some(part), hi_row));
            }
        }
        assert forall|i: int, j: int| 0 <= i < j < all.len() implies lex_lt(
            #[trigger] keys_of(all)[i],
            #[trigger] keys_of(all)[j],
        ) by {
            if j < x.len() {
                assert(lex_lt(keys_of(x)[i], keys_of(x)[j]));
            } else if i >= x.len() {
                assert(lex_lt(keys_of(y)[i - x.len()], keys_of(y)[j - x.len()]));
            } else {
                assert(leaf_entry_ok(x[i], lo_row, Some(part)));
                assert(leaf_entry_ok(y[j - x.len()], Some(part), hi_row));
            }
        }
    }
}

/// Where a key is looked for below an interior node.
pub open spec fn slot(t: Tree, key: Seq<u8>) -> int {
    rank(t->Inner_keys, key)
}

/// The entries to the left of the subtree `i`.
pub open spec fn left_of(t: Tree, i: int) -> Seq<Entry> {
    forest_contents(t->kids.take(i))
}

/// The entries to the right of the subtree `i`.
pub open spec fn right_of(t: Tree, i: int) -> Seq<Entry> {
    forest_contents(t->kids.skip(i + 1))
}

/// A key is in an interior node if it is in the subtree where it is looked
/// for, and it has the same place there among the entries of that subtree.
pub proof fn lemma_descend(
    t: Tree,
    lo: Option<Seq<u8>>,
    hi: Option<Seq<u8>>,
    d: nat,
    key: Seq<u8>,
)
    requires
        wf(t, lo, hi, d),
        t is Inner,
    ensures
        0 <= slot(t, key) < t->kids.len(),
        contents(t) == left_of(t, slot(t, key)) + contents(t->kids[slot(t, key)]) + right_of(
            t,
            slot(t, key),
        ),
        rank(keys_of(contents(t)), key) == left_of(t, slot(t, key)).len() + rank(
            keys_of(contents(t->kids[slot(t, key)])),
            key,
        ),
        keys_of(contents(t)).contains(key) <==> keys_of(
            contents(t->kids[slot(t, key)]),
        ).contains(key),
        above(lo, key) ==> above(lower(t->Inner_keys, lo, slot(t, key)), key),
        upto(hi, key) ==> upto(upper(t->Inner_keys, hi, slot(t, key)), key),
{
    broadcast use group_lex_order;

    let keys = t->Inner_keys;
    let kids = t->kids;
    let i = slot(t, key);
    lemma_rank(keys, key);
    lemma_forest_at(kids, i);
    let la = forest_leaves(kids.take(i));
    let lc = leaves(kids[i]);
    let lb = forest_leaves(kids.skip(i + 1));
    lemma_flat_concat(la, lc);
    lemma_flat_concat(la + lc, lb);
    let a = left_of(t, i);
    let c = contents(kids[i]);
    let b = right_of(t, i);
    assert(contents(t) == a + c + b);
    let lo_i = lower(keys, lo, i);
    let hi_i = upper(keys, hi, i);
    lemma_contents(kids[i], lo_i, hi_i, (d - 1) as nat);
    lemma_contents(t, lo, hi, d);
    assert forall|j: int| 0 <= j < a.len() implies lex_lt(#[trigger] keys_of(a)[j], key) by {
        assert(i > 0);
        lemma_range(t, lo, hi, d, 0, i);
        assert(kids.subrange(0, i) =~= kids.take(i));
        assert(leaf_entry_ok(a[j], lo, Some(keys[i - 1])));
        assert(lex_lt(keys[i - 1], key));
    }
    assert forall|j: int| 0 <= j < b.len() implies lex_lt(key, #[trigger] keys_of(b)[j]) by {
        assert(i + 1 < kids.len());
        lemma_range(t, lo, hi, d, i + 1, kids.len() as int);
        assert(kids.subrange(i + 1, kids.len() as int) =~= kids.skip(i + 1));
        assert(leaf_entry_ok(b[j], Some(keys[i]), hi));
        assert(lex_le(key, keys[i]));
    }
    let kc = keys_of(c);
    let kt = keys_of(contents(t));
    lemma_rank(kc, key);
    let at = a.len() + rank(kc, key);
    assert forall|j: int| 0 <= j < kt.len() implies kt[j] == (if j < a.len() {
        keys_of(a)[j]
    } else if j < a.len() + c.len() {
        kc[j - a.len()]
    } else {
        keys_of(b)[j - a.len() - c.len()]
    }) by {}
    lemma_rank_unique(kt, key, at);
    if kt.contains(key) {
        let j = kt.index_of(key);
        assert(kt[j] == key);
        assert(kc[j - a.len()] == key);
    }
    if kc.contains(key) {
        let j = kc.index_of(key);
        assert(kt[a.len() + j] == key);
    }
}

/// An interior node whose subtree `i` was split in two at the key `sep`.
pub open spec fn grown(t: Tree, i: int, sep: Seq<u8>, mid: Seq<Tree>) -> Tree {
    Tree::Inner {
        page: t.page(),
        keys: t->Inner_keys.insert(i, sep),
        kids: splice(t->kids, i, mid),
    }
}

pub proof fn lemma_grown(
    t: Tree,
    lo: Option<Seq<u8>>,
    hi: Option<Seq<u8>>,
    d: nat,
    i: int,
    sep: Seq<u8>,
    mid: Seq<Tree>,
)
    requires
        wf(t, lo, hi, d),
        t is Inner,
        0 <= i < t->kids.len(),
        mid.len() == 2,
        wf(mid[0], lower(t->Inner_keys, lo, i), Some(sep), (d - 1) as nat),
        wf(mid[1], Some(sep), upper(t->Inner_keys, hi, i), (d - 1) as nat),
        kid_ok(mid[0]),
        kid_ok(mid[1]),
        inner_key_ok(sep, lower(t->Inner_keys, lo, i), upper(t->Inner_keys, hi, i)),
    ensures
        wf(grown(t, i, sep, mid), lo, hi, d),
{
    broadcast use group_lex_order;

    let keys = t->Inner_keys;
    let kids = t->kids;
    let g = grown(t, i, sep, mid);
    let gk = g->Inner_keys;
    let gt = g->kids;
    assert(i > 0 ==> inner_key_ok(keys[i - 1], lo, hi));
    assert(i < keys.len() ==> inner_key_ok(keys[i], lo, hi));
    assert forall|a: int, b: int| 0 <= a < b < gk.len() implies lex_lt(
        #[trigger] gk[a],
        #[trigger] gk[b],
    ) by {
        if b < i {
            assert(lex_lt(keys[a], keys[b]));
        } else if b == i {
            assert(gk[a] == keys[a]);
            assert(a == i - 1 || lex_lt(keys[a], keys[i - 1]));
            assert(lex_lt(keys[i - 1], sep));
        } else if a < i {
            assert(lex_lt(keys[a], keys[b - 1]));
        } else if a == i {
            assert(gk[b] == keys[b - 1]);
            assert(b - 1 == i || lex_lt(keys[i], keys[b - 1]));
            assert(lex_lt(sep, keys[i]));
        } else {
            assert(lex_lt(keys[a - 1], keys[b - 1]));
        }
    }
    assert forall|a: int| 0 <= a < gk.len() implies inner_key_ok(#[trigger] gk[a], lo, hi) by {
        if a < i {
            assert(inner_key_ok(keys[a], lo, hi));
        } else if a > i {
            assert(inner_key_ok(keys[a - 1], lo, hi));
        }
    }
    assert forall|a: int| 0 <= a < gt.len() implies kid_ok(#[trigger] gt[a]) && wf(
        gt[a],
        lower(gk, lo, a),
        upper(gk, hi, a),
        (d - 1) as nat,
    ) by {
        if a < i {
            assert(gt[a] == kids[a]);
        } else if a == i {
            assert(gt[a] == mid[0]);
        } else if a == i + 1 {
            assert(gt[a] == mid[1]);
        } else {
            assert(gt[a] == kids[a - 1]);
        }
    }
}

/// The entries of the node that has grown are those of before and one more.
pub proof fn lemma_grown_entries(t: Tree, i: int, sep: Seq<u8>, mid: Seq<Tree>)
    requires
        t is Inner,
        t->kids.len() == t->Inner_keys.len() + 1,
        0 <= i < t->kids.len(),
        mid.len() == 2,
        mid[1].page() == t->kids[i].page(),
    ensures
        inner_entries(grown(t, i, sep, mid)->Inner_keys, grown(t, i, sep, mid)->kids)
            == inner_entries(t->Inner_keys, t->kids).insert(
            i,
            Entry { key: sep, value: le64_bytes(mid[0].page()) },
        ),
        grown(t, i, sep, mid)->kids.last().page() == t->kids.last().page(),
{
    let g = grown(t, i, sep, mid);
    assert forall|a: int| 0 <= a < g->Inner_keys.len() implies g->kids[a].page() == (if a < i {
        t->kids[a].page()
    } else if a == i {
        mid[0].page()
    } else {
        t->kids[a - 1].page()
    }) by {}
    assert(inner_entries(g->Inner_keys, g->kids) =~= inner_entries(t->Inner_keys, t->kids).insert(
        i,
        Entry { key: sep, value: le64_bytes(mid[0].page()) },
    ));
}

/// An interior node with another subtree in place of the one at `i`.
pub open spec fn replaced(t: Tree, i: int, mid: Seq<Tree>) -> Tree {
    Tree::Inner { page: t.page(), keys: t->Inner_keys, kids: splice(t->kids, i, mid) }
}

pub proof fn lemma_replaced(
    t: Tree,
    lo: Option<Seq<u8>>,
    hi: Option<Seq<u8>>,
    d: nat,
    i: int,
    mid: Seq<Tree>,
)
    requires
        wf(t, lo, hi, d),
        t is Inner,
        0 <= i < t->kids.len(),
        mid.len() == 1,
        wf(mid[0], lower(t->Inner_keys, lo, i), upper(t->Inner_keys, hi, i), (d - 1) as nat),
        kid_ok(mid[0]),
        mid[0].page() == t->kids[i].page(),
    ensures
        wf(replaced(t, i, mid), lo, hi, d),
        inner_entries(t->Inner_keys, replaced(t, i, mid)->kids) == inner_entries(
            t->Inner_keys,
            t->kids,
        ),
        replaced(t, i, mid)->kids.last().page() == t->kids.last().page(),
{
    let gt = replaced(t, i, mid)->kids;
    assert forall|a: int| 0 <= a < gt.len() implies #[trigger] gt[a] == (if a == i {
        mid[0]
    } else {
        t->kids[a]
    }) by {}
    assert(inner_entries(t->Inner_keys, gt) =~= inner_entries(t->Inner_keys, t->kids));
}

/// An interior node without its subtree `i`, of which there are others.
pub open spec fn shrunk(t: Tree, i: int) -> Tree {
    Tree::Inner {
        page: t.page(),
        keys: t->Inner_keys.remove(if i < t->Inner_keys.len() {
            i
        } else {
            i - 1
        }),
        kids: splice(t->kids, i, Seq::empty()),
    }
}

pub proof fn lemma_shrunk(t: Tree, lo: Option<Seq<u8>>, hi: Option<Seq<u8>>, d: nat, i: int)
    requires
        wf(t, lo, hi, d),
        t is Inner,
        0 <= i < t->kids.len(),
        t->kids.len() >= 2,
    ensures
        wf(shrunk(t, i), lo, hi, d),
        inner_entries(shrunk(t, i)->Inner_keys, shrunk(t, i)->kids) == inner_entries(
            t->Inner_keys,
            t->kids,
        ).remove(if i < t->Inner_keys.len() {
            i
        } else {
            i - 1
        }),
        shrunk(t, i)->kids.last().page() == (if i < t->Inner_keys.len() {
            t->kids.last().page()
        } else {
            t->kids[i - 1].page()
        }),
{
    broadcast use group_lex_order;

    let keys = t->Inner_keys;
    let kids = t->kids;
    let k = if i < keys.len() {
        i
    } else {
        i - 1
    };
    let gk = shrunk(t, i)->Inner_keys;
    let gt = shrunk(t, i)->kids;
    assert forall|a: int, b: int| 0 <= a < b < gk.len() implies lex_lt(
        #[trigger] gk[a],
        #[trigger] gk[b],
    ) by {
        let a1 = if a < k {
            a
        } else {
            a + 1
        };
        let b1 = if b < k {
            b
        } else {
            b + 1
        };
        assert(lex_lt(keys[a1], keys[b1]));
    }
    assert forall|a: int| 0 <= a < gk.len() implies inner_key_ok(#[trigger] gk[a], lo, hi) by {
        let a1 = if a < k {
            a
        } else {
            a + 1
        };
        assert(inner_key_ok(keys[a1], lo, hi));
    }
    assert forall|a: int| 0 <= a < gt.len() implies kid_ok(#[trigger] gt[a]) && wf(
        gt[a],
        lower(gk, lo, a),
        upper(gk, hi, a),
        (d - 1) as nat,
    ) by {
        let a1 = if a < i {
            a
        } else {
            a + 1
        };
        assert(gt[a] == kids[a1]);
        let lo1 = lower(keys, lo, a1);
        let hi1 = upper(keys, hi, a1);
        assert(a1 > 0 ==> inner_key_ok(keys[a1 - 1], lo, hi));
        assert(a1 > 1 ==> lex_lt(keys[a1 - 2], keys[a1 - 1]));
        assert(a1 < keys.len() ==> inner_key_ok(keys[a1], lo, hi));
        lemma_widen(kids[a1], lo1, hi1, lower(gk, lo, a), upper(gk, hi, a), (d - 1) as nat);
    }
    assert(inner_entries(gk, gt) =~= inner_entries(keys, kids).remove(k));
}

/// The left part of an interior node that is split at its key `s`.
pub open spec fn cut_left(t: Tree, s: int, page: u64) -> Tree {
    Tree::Inner { page, keys: t->Inner_keys.take(s), kids: t->kids.take(s + 1) }
}

/// The right part of an interior node that is split at its key `s`.
pub open spec fn cut_right(t: Tree, s: int, page: u64) -> Tree {
    Tree::Inner { page, keys: t->Inner_keys.skip(s + 1), kids: t->kids.skip(s + 1) }
}

pub proof fn lemma_cut_inner(
    t: Tree,
    lo: Option<Seq<u8>>,
    hi: Option<Seq<u8>>,
    d: nat,
    s: int,
    left: u64,
    right: u64,
)
    requires
        wf(t, lo, hi, d),
        t is Inner,
        0 <= s < t->Inner_keys.len(),
    ensures
        wf(cut_left(t, s, left), lo, Some(t->Inner_keys[s]), d),
        wf(cut_right(t, s, right), Some(t->Inner_keys[s]), hi, d),
        inner_key_ok(t->Inner_keys[s], lo, hi),
        leaves(t) == leaves(cut_left(t, s, left)) + leaves(cut_right(t, s, right)),
        forall|q: u64| #[trigger]
            forest_count(t->kids, q) == forest_count(t->kids.take(s + 1), q) + forest_count(
                t->kids.skip(s + 1),
                q,
            ),
        inner_entries(t->Inner_keys.take(s), t->kids.take(s + 1)) == inner_entries(
            t->Inner_keys,
            t->kids,
        ).take(s),
        inner_entries(t->Inner_keys.skip(s + 1), t->kids.skip(s + 1)) == inner_entries(
            t->Inner_keys,
            t->kids,
        ).skip(s + 1),
{
    broadcast use group_lex_order;

    let keys = t->Inner_keys;
    let kids = t->kids;
    let l = cut_left(t, s, left);
    let r = cut_right(t, s, right);
    assert(inner_key_ok(keys[s], lo, hi));
    let lk = keys.take(s);
    let rk = keys.skip(s + 1);
    assert forall|a: int, b: int| 0 <= a < b < lk.len() implies lex_lt(
        #[trigger] lk[a],
        #[trigger] lk[b],
    ) by {
        assert(lex_lt(keys[a], keys[b]));
    }
    assert forall|a: int, b: int| 0 <= a < b < rk.len() implies lex_lt(
        #[trigger] rk[a],
        #[trigger] rk[b],
    ) by {
        assert(lex_lt(keys[a + s + 1], keys[b + s + 1]));
    }
    assert forall|a: int| 0 <= a < lk.len() implies inner_key_ok(
        #[trigger] lk[a],
        lo,
        Some(keys[s]),
    ) by {
        assert(inner_key_ok(keys[a], lo, hi));
        assert(lex_lt(keys[a], keys[s]));
    }
    assert forall|a: int| 0 <= a < rk.len() implies inner_key_ok(
        #[trigger] rk[a],
        Some(keys[s]),
        hi,
    ) by {
        assert(inner_key_ok(keys[a + s + 1], lo, hi));
        assert(lex_lt(keys[s], keys[a + s + 1]));
    }
    let lt = kids.take(s + 1);
    let rt = kids.skip(s + 1);
    assert forall|a: int| 0 <= a < lt.len() implies kid_ok(#[trigger] lt[a]) && wf(
        lt[a],
        lower(lk, lo, a),
        upper(lk, Some(keys[s]), a),
        (d - 1) as nat,
    ) by {
        assert(lt[a] == kids[a]);
    }
    assert forall|a: int| 0 <= a < rt.len() implies kid_ok(#[trigger] rt[a]) && wf(
        rt[a],
        lower(rk, Some(keys[s]), a),
        upper(rk, hi, a),
        (d - 1) as nat,
    ) by {
        assert(rt[a] == kids[a + s + 1]);
    }
    assert(kids =~= lt + rt);
    lemma_forest_concat(lt, rt);
    assert(inner_entries(lk, lt) =~= inner_entries(keys, kids).take(s));
    assert(inner_entries(rk, rt) =~= inner_entries(keys, kids).skip(s + 1));
}

/// A leaf that is split after its entry `s - 1`.
pub proof fn lemma_cut_leaf(
    entries: Seq<Entry>,
    lo: Option<Seq<u8>>,
    hi: Option<Seq<u8>>,
    s: int,
    page: u64,
    left: u64,
    right: u64,
)
    requires
        wf(Tree::Leaf { page, entries }, lo, hi, 0),
        0 < s < entries.len(),
    ensures
        wf(
            Tree::Leaf { page: left, entries: entries.take(s) },
            lo,
            Some(entries[s - 1].key),
            0,
        ),
        wf(
            Tree::Leaf { page: right, entries: entries.skip(s) },
            Some(entries[s - 1].key),
            hi,
            0,
        ),
        inner_key_ok(entries[s - 1].key, lo, hi),
{
    broadcast use group_lex_order;

    let keys = keys_of(entries);
    let sep = entries[s - 1].key;
    let l = entries.take(s);
    let r = entries.skip(s);
    assert(leaf_entry_ok(entries[s - 1], lo, hi));
    assert(leaf_entry_ok(entries[s], lo, hi));
    assert(lex_lt(keys[s - 1], keys[s]));
    assert forall|a: int, b: int| 0 <= a < b < l.len() implies lex_lt(
        #[trigger] keys_of(l)[a],
        #[trigger] keys_of(l)[b],
    ) by {
        assert(lex_lt(keys[a], keys[b]));
    }
    assert forall|a: int, b: int| 0 <= a < b < r.len() implies lex_lt(
        #[trigger] keys_of(r)[a],
        #[trigger] keys_of(r)[b],
    ) by {
        assert(lex_lt(keys[a + s], keys[b + s]));
    }
    assert forall|a: int| 0 <= a < l.len() implies leaf_entry_ok(
        #[trigger] l[a],
        lo,
        Some(sep),
    ) by {
        assert(leaf_entry_ok(entries[a], lo, hi));
        assert(a == s - 1 || lex_lt(keys[a], keys[s - 1]));
    }
    assert forall|a: int| 0 <= a < r.len() implies leaf_entry_ok(
        #[trigger] r[a],
        Some(sep),
        hi,
    ) by {
        assert(leaf_entry_ok(entries[a + s], lo, hi));
        assert(lex_lt(keys[s - 1], keys[a + s]));
    }
}

/// A leaf with one more entry, at its place.
pub proof fn lemma_leaf_insert(
    page: u64,
    entries: Seq<Entry>,
    lo: Option<Seq<u8>>,
    hi: Option<Seq<u8>>,
    entry: Entry,
)
    requires
        wf(Tree::Leaf { page, entries }, lo, hi, 0),
        leaf_entry_ok(entry, lo, hi),
        !keys_of(entries).contains(entry.key),
    ensures
        0 <= rank(keys_of(entries), entry.key) <= entries.len(),
        wf(
            Tree::Leaf { page, entries: entries.insert(rank(keys_of(entries), entry.key), entry) },
            lo,
            hi,
            0,
        ),
{
    broadcast use group_lex_order;

    let keys = keys_of(entries);
    let at = rank(keys, entry.key);
    lemma_rank(keys, entry.key);
    let more = entries.insert(at, entry);
    let mk = keys_of(more);
    assert forall|j: int| 0 <= j < keys.len() implies keys[j] != entry.key by {
        if keys[j] == entry.key {
            assert(keys.contains(entry.key));
        }
    }
    assert forall|a: int, b: int| 0 <= a < b < mk.len() implies lex_lt(
        #[trigger] mk[a],
        #[trigger] mk[b],
    ) by {
        if b < at {
            assert(lex_lt(keys[a], keys[b]));
        } else if b == at {
            assert(mk[a] == keys[a]);
        } else if a < at {
            assert(lex_lt(keys[a], keys[b - 1]));
        } else if a == at {
            assert(mk[b] == keys[b - 1]);
        } else {
            assert(lex_lt(keys[a - 1], keys[b - 1]));
        }
    }
    assert forall|j: int| 0 <= j < more.len() implies leaf_entry_ok(
        #[trigger] more[j],
        lo,
        hi,
    ) by {
        if j < at {
            assert(leaf_entry_ok(entries[j], lo, hi));
        } else if j > at {
            assert(leaf_entry_ok(entries[j - 1], lo, hi));
        }
    }
}

/// A leaf with one entry less.
pub proof fn lemma_leaf_remove(
    page: u64,
    entries: Seq<Entry>,
    lo: Option<Seq<u8>>,
    hi: Option<Seq<u8>>,
    at: int,
)
    requires
        wf(Tree::Leaf { page, entries }, lo, hi, 0),
        0 <= at < entries.len(),
    ensures
        wf(Tree::Leaf { page, entries: entries.remove(at) }, lo, hi, 0),
{
    let keys = keys_of(entries);
    let less = entries.remove(at);
    let lk = keys_of(less);
    assert forall|a: int, b: int| 0 <= a < b < lk.len() implies lex_lt(
        #[trigger] lk[a],
        #[trigger] lk[b],
    ) by {
        let a1 = if a < at {
            a
        } else {
            a + 1
        };
        let b1 = if b < at {
            b
        } else {
            b + 1
        };
        assert(lex_lt(keys[a1], keys[b1]));
    }
    assert forall|j: int| 0 <= j < less.len() implies leaf_entry_ok(
        #[trigger] less[j],
        lo,
        hi,
    ) by {
        let j1 = if j < at {
            j
        } else {
            j + 1
        };
        assert(leaf_entry_ok(entries[j1], lo, hi));
    }
}

/// Below an interior node there are entries.
proof fn lemma_has_entries(t: Tree, lo: Option<Seq<u8>>, hi: Option<Seq<u8>>, d: nat)
    requires
        wf(t, lo, hi, d),
        kid_ok(t),
    ensures
        contents(t).len() > 0,
    decreases d,
{
    match t {
        Tree::Leaf { .. } => {
            lemma_leaf_contents(t);
        },
        Tree::Inner { keys, kids, .. } => {
            assert(kid_ok(kids[0]));
            lemma_has_entries(kids[0], lower(keys, lo, 0), upper(keys, hi, 0), (d - 1) as nat);
            lemma_forest_at(kids, 0);
            let front = forest_leaves(kids.take(0)) + leaves(kids[0]);
            lemma_flat_concat(forest_leaves(kids.take(0)), leaves(kids[0]));
            lemma_flat_concat(front, forest_leaves(kids.skip(1)));
        },
    }
}

/// A tree without entries takes no more than one page.
pub proof fn law_empty_tree_is_one_page(t: Tree)
    requires
        wf(t, None, None, height(t)),
        contents(t).len() == 0,
    ensures
        t is Leaf,
        size(t) == 1,
        forall|q: u64| #[trigger] count(t, q) > 0 <==> q == t.page(),
{
    if t is Inner {
        lemma_has_entries(t, None, None, height(t));
    }
}

/// How many levels of interior nodes there are.
pub open spec fn height(t: Tree) -> nat
    decreases t,
{
    match t {
        Tree::Leaf { .. } => 0,
        Tree::Inner { kids, .. } => if kids.len() > 0 {
            1 + height(kids[0])
        } else {
            0
        },
    }
}

pub proof fn lemma_height(t: Tree, lo: Option<Seq<u8>>, hi: Option<Seq<u8>>, d: nat)
    requires
        wf(t, lo, hi, d),
    ensures
        height(t) == d,
    decreases d,
{
    match t {
        Tree::Leaf { .. } => {},
        Tree::Inner { keys, kids, .. } => {
            assert(kid_ok(kids[0]));
            lemma_height(kids[0], lower(keys, lo, 0), upper(keys, hi, 0), (d - 1) as nat);
        },
    }
}

/// The pages from the root to the first leaf or, in reverse, to the last one.
pub open spec fn edge_way(t: Tree, reverse: bool) -> Seq<u64>
    decreases t,
{
    match t {
        Tree::Leaf { page, .. } => seq![page],
        Tree::Inner { page, kids, .. } => if kids.len() > 0 {
            seq![page] + edge_way(
                kids[if reverse {
                    kids.len() - 1
                } else {
                    0
                }],
                reverse,
            )
        } else {
            seq![page]
        },
    }
}

pub proof fn lemma_edge_way(t: Tree, reverse: bool)
    ensures
        edge_way(t, reverse).len() > 0,
        edge_way(t, reverse)[0] == t.page(),
        forall|j: int|
            0 <= j < edge_way(t, reverse).len() ==> count(
                t,
                #[trigger] edge_way(t, reverse)[j],
            ) > 0,
    decreases t,
{
    if let Tree::Inner { page, kids, .. } = t {
        if kids.len() > 0 {
            let i = if reverse {
                kids.len() - 1
            } else {
                0
            };
            let rest = edge_way(kids[i], reverse);
            lemma_edge_way(kids[i], reverse);
            assert forall|j: int| 0 <= j < edge_way(t, reverse).len() implies count(
                t,
                #[trigger] edge_way(t, reverse)[j],
            ) > 0 by {
                if j > 0 {
                    assert(edge_way(t, reverse)[j] == rest[j - 1]);
                    lemma_member_count(kids, i, rest[j - 1]);
                }
            }
        }
    }
}

/// Every interior node has a key, and so at least two subtrees.
pub open spec fn thick(t: Tree) -> bool
    decreases t,
{
    match t {
        Tree::Leaf { .. } => true,
        Tree::Inner { keys, kids, .. } => {
            &&& keys.len() > 0
            &&& forall|i: int| 0 <= i < kids.len() ==> thick(#[trigger] kids[i])
        },
    }
}

pub open spec fn all_thick(ts: Seq<Tree>) -> bool {
    forall|i: int| 0 <= i < ts.len() ==> thick(#[trigger] ts[i])
}

/// A subtree makes way for others.
pub proof fn lemma_thick_spliced(t: Tree, i: int, mid: Seq<Tree>)
    requires
        t is Inner,
        0 <= i < t->kids.len(),
        thick(t),
        all_thick(mid),
    ensures
        all_thick(splice(t->kids, i, mid)),
{
    let kids = t->kids;
    let ts = splice(kids, i, mid);
    assert forall|j: int| 0 <= j < ts.len() implies thick(#[trigger] ts[j]) by {
        if j < i {
            assert(ts[j] == kids[j]);
        } else if j < i + mid.len() {
            assert(ts[j] == mid[j - i]);
        } else {
            assert(ts[j] == kids[j - mid.len() + 1]);
        }
    }
}

/// A node is cut in two.
pub proof fn lemma_thick_cut(t: Tree, s: int, left: u64, right: u64)
    requires
        t is Inner,
        t->kids.len() == t->Inner_keys.len() + 1,
        all_thick(t->kids),
        0 < s < t->Inner_keys.len() - 1,
    ensures
        thick(cut_left(t, s, left)),
        thick(cut_right(t, s, right)),
{
    let kids = t->kids;
    let a = kids.take(s + 1);
    let b = kids.skip(s + 1);
    assert forall|j: int| 0 <= j < a.len() implies thick(#[trigger] a[j]) by {
        assert(a[j] == kids[j]);
    }
    assert forall|j: int| 0 <= j < b.len() implies thick(#[trigger] b[j]) by {
        assert(b[j] == kids[j + s + 1]);
    }
}

/// If every interior node has two subtrees, there are fewer than twice as many
/// nodes as entries.
pub proof fn lemma_thick_size(t: Tree, lo: Option<Seq<u8>>, hi: Option<Seq<u8>>, d: nat)
    requires
        wf(t, lo, hi, d),
        thick(t),
    ensures
        kid_ok(t) ==> size(t) < 2 * contents(t).len(),
        size(t) <= 2 * contents(t).len() + 1,
    decreases d, 1nat, 0nat,
{
    match t {
        Tree::Leaf { .. } => {
            lemma_leaf_contents(t);
        },
        Tree::Inner { kids, .. } => {
            lemma_thick_forest(t, lo, hi, d, kids.len());
            assert(kids.take(kids.len() as int) =~= kids);
        },
    }
}

proof fn lemma_thick_forest(
    t: Tree,
    lo: Option<Seq<u8>>,
    hi: Option<Seq<u8>>,
    d: nat,
    m: nat,
)
    requires
        wf(t, lo, hi, d),
        thick(t),
        t is Inner,
        m <= t->kids.len(),
    ensures
        forest_size(t->kids.take(m as int)) + m <= 2 * flat(
            forest_leaves(t->kids.take(m as int)),
        ).len(),
    decreases d, 0nat, m,
{
    let kids = t->kids;
    let keys = t->Inner_keys;
    if m > 0 {
        let i = m - 1;
        let kid = kids[i];
        let ts = kids.take(m as int);
        assert(kid_ok(kid));
        lemma_thick_size(kid, lower(keys, lo, i), upper(keys, hi, i), (d - 1) as nat);
        lemma_thick_forest(t, lo, hi, d, (m - 1) as nat);
        assert(ts.drop_last() =~= kids.take(i));
        assert(ts.last() == kid);
        lemma_flat_concat(forest_leaves(ts.drop_last()), leaves(kid));
    }
}

/// There is a leaf, and no leaf below an interior node is empty.
pub proof fn lemma_leaves_filled(t: Tree, lo: Option<Seq<u8>>, hi: Option<Seq<u8>>, d: nat)
    requires
        wf(t, lo, hi, d),
    ensures
        leaves(t).len() > 0,
        kid_ok(t) ==> forall|j: int|
            0 <= j < leaves(t).len() ==> (#[trigger] leaves(t)[j]).entries.len() > 0,
    decreases d, 1nat, 0nat,
{
    match t {
        Tree::Leaf { .. } => {},
        Tree::Inner { kids, .. } => {
            assert(kids.take(kids.len() as int) =~= kids);
            lemma_row_filled(t, lo, hi, d, kids.len() as int);
        },
    }
}

proof fn lemma_row_filled(t: Tree, lo: Option<Seq<u8>>, hi: Option<Seq<u8>>, d: nat, n: int)
    requires
        wf(t, lo, hi, d),
        t is Inner,
        0 < n <= t->kids.len(),
    ensures
        forest_leaves(t->kids.take(n)).len() > 0,
        forall|j: int|
            0 <= j < forest_leaves(t->kids.take(n)).len() ==> (#[trigger] forest_leaves(
                t->kids.take(n),
            )[j]).entries.len() > 0,
    decreases d, 0nat, n as nat,
{
    let keys = t->Inner_keys;
    let row = t->kids.take(n);
    let last = t->kids[n - 1];
    assert(row.drop_last() =~= t->kids.take(n - 1));
    assert(row.last() == last);
    lemma_leaves_filled(last, lower(keys, lo, n - 1), upper(keys, hi, n - 1), (d - 1) as nat);
    assert(kid_ok(last));
    if n > 1 {
        lemma_row_filled(t, lo, hi, d, n - 1);
    }
    let a = forest_leaves(row.drop_last());
    let b = leaves(last);
    assert forall|j: int| 0 <= j < (a + b).len() implies (#[trigger] (a + b)[j]).entries.len()
        > 0 by {
        if j < a.len() {
            assert((a + b)[j] == a[j]);
        } else {
            assert((a + b)[j] == b[j - a.len()]);
        }
    }
}

/// Every leaf of a tree lies in its page.
pub proof fn lemma_leaf_repr(pages: Map<u64, Seq<u8>>, t: Tree, j: int)
    requires
        repr(pages, t),
        0 <= j < leaves(t).len(),
    ensures
        node_wf(pages[leaves(t)[j].page]),
        node(pages[leaves(t)[j].page]).entries == leaves(t)[j].entries,
        count(t, leaves(t)[j].page) > 0,
    decreases t,
{
    match t {
        Tree::Leaf { .. } => {},
        Tree::Inner { kids, .. } => {
            lemma_forest_leaf_repr(pages, kids, j);
        },
    }
}

proof fn lemma_forest_leaf_repr(pages: Map<u64, Seq<u8>>, ts: Seq<Tree>, j: int)
    requires
        forall|i: int| 0 <= i < ts.len() ==> repr(pages, #[trigger] ts[i]),
        0 <= j < forest_leaves(ts).len(),
    ensures
        node_wf(pages[forest_leaves(ts)[j].page]),
        node(pages[forest_leaves(ts)[j].page]).entries == forest_leaves(ts)[j].entries,
        forest_count(ts, forest_leaves(ts)[j].page) > 0,
    decreases ts,
{
    if ts.len() > 0 {
        let rest = ts.drop_last();
        let a = forest_leaves(rest);
        assert forall|i: int| 0 <= i < rest.len() implies repr(pages, #[trigger] rest[i]) by {
            assert(rest[i] == ts[i]);
        }
        assert(repr(pages, ts[ts.len() - 1]));
        if j < a.len() {
            lemma_forest_leaf_repr(pages, rest, j);
        } else {
            lemma_leaf_repr(pages, ts.last(), j - a.len());
        }
    }
}

/// A search for a key that is there finds it.
pub proof fn lemma_found(
    t: Tree,
    lo: Option<Seq<u8>>,
    hi: Option<Seq<u8>>,
    d: nat,
    key: Seq<u8>,
)
    requires
        wf(t, lo, hi, d),
        keys_of(contents(t)).contains(key),
    ensures
        rank(keys_of(contents(t)), key) < contents(t).len(),
        contents(t)[rank(keys_of(contents(t)), key)].key == key,
{
    broadcast use group_lex_order;

    let kt = keys_of(contents(t));
    lemma_contents(t, lo, hi, d);
    lemma_rank(kt, key);
    let j = kt.index_of(key);
    assert(kt[j] == key);
    let at = rank(kt, key);
    assert(at <= j);
    if at < j {
        assert(lex_lt(kt[at], kt[j]));
        assert(lex_le(key, kt[at]));
    }
}

/// The nodes on the way to a key.
pub open spec fn path_to(t: Tree, key: Seq<u8>) -> Seq<(u64, int)>
    decreases t,
{
    match t {
        Tree::Leaf { page, entries } => seq![(page, rank(keys_of(entries), key))],
        Tree::Inner { page, keys, kids } => if 0 <= rank(keys, key) < kids.len() {
            seq![(page, rank(keys, key))] + path_to(kids[rank(keys, key)], key)
        } else {
            Seq::empty()
        },
    }
}

/// The way to a key leads through the tree.
pub proof fn lemma_path_pages(
    t: Tree,
    lo: Option<Seq<u8>>,
    hi: Option<Seq<u8>>,
    d: nat,
    key: Seq<u8>,
)
    requires
        wf(t, lo, hi, d),
    ensures
        forall|j: int|
            0 <= j < path_to(t, key).len() ==> count(t, (#[trigger] path_to(t, key)[j]).0) > 0,
    decreases d,
{
    match t {
        Tree::Leaf { .. } => {},
        Tree::Inner { keys, kids, .. } => {
            lemma_rank(keys, key);
            let i = rank(keys, key);
            assert(kid_ok(kids[i]));
            let rest = path_to(kids[i], key);
            lemma_path_pages(kids[i], lower(keys, lo, i), upper(keys, hi, i), (d - 1) as nat, key);
            assert forall|j: int| 0 <= j < path_to(t, key).len() implies count(
                t,
                (#[trigger] path_to(t, key)[j]).0,
            ) > 0 by {
                if j > 0 {
                    assert(path_to(t, key)[j] == rest[j - 1]);
                    lemma_member_count(kids, i, rest[j - 1].0);
                }
            }
        },
    }
}

/// The way to a key has one node for each level.
pub proof fn lemma_path_len(
    t: Tree,
    lo: Option<Seq<u8>>,
    hi: Option<Seq<u8>>,
    d: nat,
    key: Seq<u8>,
)
    requires
        wf(t, lo, hi, d),
    ensures
        path_to(t, key).len() == d + 1,
        path_to(t, key)[0].0 == t.page(),
    decreases d,
{
    match t {
        Tree::Leaf { .. } => {},
        Tree::Inner { keys, kids, .. } => {
            lemma_rank(keys, key);
            let i = rank(keys, key);
            assert(kid_ok(kids[i]));
            lemma_path_len(
                kids[i],
                lower(keys, lo, i),
                upper(keys, hi, i),
                (d - 1) as nat,
                key,
            );
        },
    }
}

/// An entry fits into a tree if its key is not empty, and the key with its value, or with a page
/// number, has less than 2024 bytes.
pub proof fn law_entries_that_fit(entry: Entry)
    ensures
        entry_ok(entry) == (entry.key.len() > 0 && entry.key.len() + entry.value.len() < 2024
            && entry.key.len() + 8 < 2024),
{
}

} // verus!
