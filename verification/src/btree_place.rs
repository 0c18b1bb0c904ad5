//! How trees lie in the pages of a file, and what it takes to change one
//! subtree and leave all other pages alone.

use vstd::prelude::*;

use crate::btree_model::{
    count, forest_count, forest_leaves, idx, lemma_forest_at, lemma_forest_nums, lemma_forest_one,
    lemma_forest_two, lemma_member_count, lemma_repr_frame, lemma_splice, link_ok, links_ok, nums,
    relinked, repr, splice, Tree,
};
use crate::btree_node::{node, node_wf, Entry, Node};
use crate::page_allocator::{FreePages, FIRST_FREE_PAGE};

verus! {

/// A page in use that is not part of the trees.
pub open spec fn outside(free: FreePages, ts: Seq<Tree>, q: u64) -> bool {
    free.in_use(q) && forest_count(ts, q) == 0
}

/// The leaves next to a row of leaves, whose links may change with it.
pub open spec fn edge(pre: Seq<u64>, post: Seq<u64>, q: u64) -> bool {
    (pre.len() > 0 && q == pre.last()) || (post.len() > 0 && q == post[0])
}

/// The trees lie in the pages, side by side, with the leaves `pre` to their
/// left and `post` to their right.
pub open spec fn placed(
    pages: Map<u64, Seq<u8>>,
    free: FreePages,
    root: u64,
    ts: Seq<Tree>,
    pre: Seq<u64>,
    post: Seq<u64>,
) -> bool {
    &&& forall|i: int| 0 <= i < ts.len() ==> repr(pages, #[trigger] ts[i])
    &&& forall|q: u64| #[trigger] forest_count(ts, q) <= 1
    &&& forall|q: u64| #[trigger]
        forest_count(ts, q) > 0 ==> free.in_use(q) && (q == root || q >= FIRST_FREE_PAGE)
    &&& forall|q: u64| #[trigger] pre.contains(q) ==> outside(free, ts, q)
    &&& forall|q: u64| #[trigger] post.contains(q) ==> outside(free, ts, q)
    &&& (pre + post).no_duplicates()
    &&& links_ok(pages, pre + nums(forest_leaves(ts)) + post)
}

/// From the trees `ts` to the trees `ts2`, nothing has happened to other
/// pages, but for the links of the leaves next to them.
pub open spec fn evolves(
    pages: Map<u64, Seq<u8>>,
    free: FreePages,
    ts: Seq<Tree>,
    pages2: Map<u64, Seq<u8>>,
    free2: FreePages,
    ts2: Seq<Tree>,
    pre: Seq<u64>,
    post: Seq<u64>,
) -> bool {
    &&& forall|q: u64| #[trigger] outside(free2, ts2, q) == outside(free, ts, q)
    &&& forall|q: u64| #[trigger]
        outside(free, ts, q) ==> relinked(pages[q], pages2[q]) && (edge(pre, post, q) || pages2[q]
            == pages[q])
}

/// Replacing the row between two lists.
proof fn lemma_links_split(
    pages: Map<u64, Seq<u8>>,
    pages2: Map<u64, Seq<u8>>,
    pre: Seq<u64>,
    p: u64,
    np: u64,
    post: Seq<u64>,
)
    requires
        links_ok(pages, pre + seq![p] + post),
        (pre + seq![p] + post).no_duplicates(),
        !(pre + seq![p] + post).contains(np),
        node_wf(pages2[np]),
        node(pages2[np]).leaf,
        node(pages2[np]).next == Some(p),
        node(pages2[np]).prev == node(pages[p]).prev,
        node_wf(pages2[p]),
        node(pages2[p]).leaf,
        node(pages2[p]).next == node(pages[p]).next,
        node(pages2[p]).prev == Some(np),
        pre.len() > 0 ==> node_wf(pages2[pre.last()]) && node(pages2[pre.last()]) == (Node {
            next: Some(np),
            ..node(pages[pre.last()])
        }),
        forall|j: int| 0 <= j < pre.len() - 1 ==> #[trigger] pages2[pre[j]] == pages[pre[j]],
        forall|j: int| 0 <= j < post.len() ==> #[trigger] pages2[post[j]] == pages[post[j]],
    ensures
        links_ok(pages2, pre + seq![np, p] + post),
{
    let old_list = pre + seq![p] + post;
    let list = pre + seq![np, p] + post;
    let k = pre.len() as int;
    assert(link_ok(pages, old_list, idx(k)));
    assert(old_list[k] == p);
    assert forall|j: int| 0 <= j < list.len() implies link_ok(pages2, list, #[trigger] idx(j)) by {
        if j < k {
            assert(link_ok(pages, old_list, idx(j)));
            assert(list[j] == pre[j] && old_list[j] == pre[j]);
            assert(j > 0 ==> list[j - 1] == pre[j - 1] && old_list[j - 1] == pre[j - 1]);
            if j == k - 1 {
                assert(list[j + 1] == np);
            } else {
                assert(list[j + 1] == pre[j + 1] && old_list[j + 1] == pre[j + 1]);
            }
        } else if j == k {
            assert(list[j] == np && list[j + 1] == p);
            assert(j > 0 ==> list[j - 1] == old_list[j - 1]);
        } else if j == k + 1 {
            assert(list[j] == p && list[j - 1] == np);
            assert(j + 1 < list.len() ==> list[j + 1] == old_list[k + 1]);
        } else {
            assert(link_ok(pages, old_list, idx(j - 1)));
            assert(list[j] == post[j - k - 2] && old_list[j - 1] == post[j - k - 2]);
            assert(list[j - 1] == old_list[j - 2]);
            assert(j + 1 < list.len() ==> list[j + 1] == old_list[j]);
        }
    }
}

/// Taking a leaf out from between two lists.
proof fn lemma_links_cut(
    pages: Map<u64, Seq<u8>>,
    pages2: Map<u64, Seq<u8>>,
    pre: Seq<u64>,
    p: u64,
    post: Seq<u64>,
)
    requires
        links_ok(pages, pre + seq![p] + post),
        pre.len() > 0 ==> node_wf(pages2[pre.last()]) && node(pages2[pre.last()]) == (Node {
            next: node(pages[p]).next,
            ..node(pages[pre.last()])
        }),
        post.len() > 0 ==> node_wf(pages2[post[0]]) && node(pages2[post[0]]) == (Node {
            prev: node(pages[p]).prev,
            ..node(pages[post[0]])
        }),
        forall|j: int| 0 <= j < pre.len() - 1 ==> #[trigger] pages2[pre[j]] == pages[pre[j]],
        forall|j: int| 1 <= j < post.len() ==> #[trigger] pages2[post[j]] == pages[post[j]],
    ensures
        links_ok(pages2, pre + post),
{
    let old_list = pre + seq![p] + post;
    let list = pre + post;
    let k = pre.len() as int;
    assert(link_ok(pages, old_list, idx(k)));
    assert(old_list[k] == p);
    assert forall|j: int| 0 <= j < list.len() implies link_ok(pages2, list, #[trigger] idx(j)) by {
        if j < k {
            assert(link_ok(pages, old_list, idx(j)));
            assert(list[j] == pre[j] && old_list[j] == pre[j]);
            assert(j > 0 ==> list[j - 1] == pre[j - 1] && old_list[j - 1] == pre[j - 1]);
            if j == k - 1 {
                assert(j + 1 < list.len() ==> list[j + 1] == old_list[k + 1]);
            } else {
                assert(list[j + 1] == pre[j + 1] && old_list[j + 1] == pre[j + 1]);
            }
        } else {
            assert(link_ok(pages, old_list, idx(j + 1)));
            assert(list[j] == post[j - k] && old_list[j + 1] == post[j - k]);
            assert(j + 1 < list.len() ==> list[j + 1] == old_list[j + 2]);
            if j == k {
                assert(j > 0 ==> list[j - 1] == old_list[k - 1]);
            } else {
                assert(list[j - 1] == old_list[j]);
            }
        }
    }
}

/// The links hold in other pages that differ in entries only.
proof fn lemma_links_frame(pages: Map<u64, Seq<u8>>, pages2: Map<u64, Seq<u8>>, list: Seq<u64>)
    requires
        links_ok(pages, list),
        forall|j: int|
            0 <= j < list.len() ==> pages2[#[trigger] list[j]] == pages[list[j]] || (node_wf(
                pages2[list[j]],
            ) && node(pages2[list[j]]) == (Node {
                entries: node(pages2[list[j]]).entries,
                ..node(pages[list[j]])
            })),
    ensures
        links_ok(pages2, list),
{
    assert forall|j: int| 0 <= j < list.len() implies link_ok(pages2, list, #[trigger] idx(j)) by {
        assert(link_ok(pages, list, idx(j)));
        assert(pages2[list[j]] == pages2[list[j]]);
    }
}

/// The list of all leaves has no duplicates.
pub proof fn lemma_list_distinct(
    free: FreePages,
    ts: Seq<Tree>,
    pre: Seq<u64>,
    post: Seq<u64>,
)
    requires
        forall|q: u64| #[trigger] forest_count(ts, q) <= 1,
        forall|q: u64| #[trigger] pre.contains(q) ==> outside(free, ts, q),
        forall|q: u64| #[trigger] post.contains(q) ==> outside(free, ts, q),
        (pre + post).no_duplicates(),
    ensures
        (pre + nums(forest_leaves(ts)) + post).no_duplicates(),
{
    lemma_forest_nums(ts);
    let mid = nums(forest_leaves(ts));
    let list = pre + mid + post;
    let k = pre.len() as int;
    let m = mid.len() as int;
    assert forall|i: int, j: int| 0 <= i < j < list.len() implies list[i] != list[j] by {
        if i < k && j >= k + m {
            assert((pre + post)[i] == list[i]);
            assert((pre + post)[j - m] == list[j]);
        } else if i < k && j < k {
            assert((pre + post)[i] == list[i]);
            assert((pre + post)[j] == list[j]);
        } else if i >= k + m {
            assert((pre + post)[i - m] == list[i]);
            assert((pre + post)[j - m] == list[j]);
        } else if i < k {
            assert(pre.contains(pre[i]));
            assert(mid.contains(mid[j - k]));
            assert(outside(free, ts, pre[i]));
        } else if j >= k + m {
            assert(post.contains(post[j - k - m]));
            assert(mid.contains(mid[i - k]));
            assert(outside(free, ts, post[j - k - m]));
        }
    }
}

/// A leaf has got other entries.
pub proof fn lemma_leaf_updated(
    pages: Map<u64, Seq<u8>>,
    pages2: Map<u64, Seq<u8>>,
    free: FreePages,
    root: u64,
    t: Tree,
    entries: Seq<Entry>,
    pre: Seq<u64>,
    post: Seq<u64>,
)
    requires
        placed(pages, free, root, seq![t], pre, post),
        t is Leaf,
        node_wf(pages2[t.page()]),
        node(pages2[t.page()]) == (Node { entries, ..node(pages[t.page()]) }),
        forall|q: u64| q != t.page() && free.in_use(q) ==> #[trigger] pages2[q] == pages[q],
    ensures
        placed(
            pages2,
            free,
            root,
            seq![Tree::Leaf { page: t.page(), entries }],
            pre,
            post,
        ),
        evolves(
            pages,
            free,
            seq![t],
            pages2,
            free,
            seq![Tree::Leaf { page: t.page(), entries }],
            pre,
            post,
        ),
{
    let t2 = Tree::Leaf { page: t.page(), entries };
    let ts = seq![t];
    let ts2 = seq![t2];
    lemma_forest_one(ts, t);
    lemma_forest_one(ts2, t2);
    assert(repr(pages, ts[0]));
    assert forall|q: u64| #[trigger] forest_count(ts2, q) == forest_count(ts, q) by {
        assert(count(t, q) == count(t2, q));
    }
    assert(nums(forest_leaves(ts2)) =~= nums(forest_leaves(ts)));
    let list = pre + nums(forest_leaves(ts)) + post;
    assert forall|j: int| 0 <= j < list.len() implies pages2[#[trigger] list[j]] == pages[list[j]]
        || (node_wf(pages2[list[j]]) && node(pages2[list[j]]) == (Node {
        entries: node(pages2[list[j]]).entries,
        ..node(pages[list[j]])
    })) by {
        if j < pre.len() {
            assert(pre.contains(pre[j]));
            assert(outside(free, ts, pre[j]));
        } else if j == pre.len() {
            assert(list[j] == t.page());
        } else {
            assert(post.contains(post[j - pre.len() - 1]));
            assert(outside(free, ts, post[j - pre.len() - 1]));
        }
    }
    lemma_links_frame(pages, pages2, list);
    assert forall|q: u64| #[trigger] pre.contains(q) implies outside(free, ts2, q) by {
        assert(outside(free, ts, q));
    }
    assert forall|q: u64| #[trigger] post.contains(q) implies outside(free, ts2, q) by {
        assert(outside(free, ts, q));
    }
    assert forall|q: u64| #[trigger] outside(free, ts, q) implies relinked(pages[q], pages2[q])
        && (edge(pre, post, q) || pages2[q] == pages[q]) by {
        assert(forest_count(ts, t.page()) > 0);
    }
}

/// A leaf was split in two: a new page before it has taken the first part.
pub proof fn lemma_leaf_split(
    pages: Map<u64, Seq<u8>>,
    pages2: Map<u64, Seq<u8>>,
    free: FreePages,
    free2: FreePages,
    root: u64,
    t: Tree,
    np: u64,
    first: Seq<Entry>,
    second: Seq<Entry>,
    pre: Seq<u64>,
    post: Seq<u64>,
)
    requires
        placed(pages, free, root, seq![t], pre, post),
        t is Leaf,
        np >= FIRST_FREE_PAGE,
        !free.in_use(np),
        forall|q: u64| #[trigger] free2.in_use(q) <==> free.in_use(q) || q == np,
        node_wf(pages2[np]),
        node(pages2[np]) == (Node {
            leaf: true,
            next: Some(t.page()),
            prev: node(pages[t.page()]).prev,
            right: None,
            entries: first,
        }),
        node_wf(pages2[t.page()]),
        node(pages2[t.page()]) == (Node {
            prev: Some(np),
            entries: second,
            ..node(pages[t.page()])
        }),
        node(pages[t.page()]).prev matches Some(prev) ==> node_wf(pages2[prev]) && node(
            pages2[prev],
        ) == (Node { next: Some(np), ..node(pages[prev]) }),
        forall|q: u64|
            free.in_use(q) && q != t.page() && Some(q) != node(pages[t.page()]).prev
                ==> #[trigger] pages2[q] == pages[q],
    ensures
        ({
            let ts2 = seq![
                Tree::Leaf { page: np, entries: first },
                Tree::Leaf { page: t.page(), entries: second },
            ];
            &&& placed(pages2, free2, root, ts2, pre, post)
            &&& evolves(pages, free, seq![t], pages2, free2, ts2, pre, post)
        }),
{
    let p = t.page();
    let a = Tree::Leaf { page: np, entries: first };
    let b = Tree::Leaf { page: p, entries: second };
    let ts = seq![t];
    let ts2 = seq![a, b];
    lemma_forest_one(ts, t);
    lemma_forest_two(ts2, a, b);
    assert(repr(pages, ts[0]));
    let mid = nums(forest_leaves(ts));
    assert(mid =~= seq![p]);
    assert(nums(forest_leaves(ts2)) =~= seq![np, p]);
    let list = pre + seq![p] + post;
    lemma_list_distinct(free, ts, pre, post);
    let k = pre.len() as int;
    assert(link_ok(pages, list, idx(k)));
    assert(list[k] == p);
    assert(count(t, p) == 1);
    assert(forest_count(ts, p) == 1);
    assert(free.in_use(p));
    let prev = node(pages[p]).prev;
    assert(k > 0 ==> prev == Some(pre.last())) by {
        if k > 0 {
            assert(list[k - 1] == pre.last());
        }
    }
    assert forall|j: int| 0 <= j < pre.len() implies #[trigger] free.in_use(pre[j]) && pre[j] != p by {
        assert(pre.contains(pre[j]));
        assert(outside(free, ts, pre[j]));
    }
    assert forall|j: int| 0 <= j < post.len() implies #[trigger] free.in_use(post[j]) && post[j]
        != p by {
        assert(post.contains(post[j]));
        assert(outside(free, ts, post[j]));
    }
    assert forall|j: int| 0 <= j < pre.len() - 1 implies #[trigger] pages2[pre[j]]
        == pages[pre[j]] by {
        assert(free.in_use(pre[j]));
        assert(list[j] == pre[j] && list[k - 1] == pre.last());
    }
    assert forall|j: int| 0 <= j < post.len() implies #[trigger] pages2[post[j]]
        == pages[post[j]] by {
        assert(free.in_use(post[j]));
        assert(list[k + 1 + j] == post[j]);
        assert(k > 0 ==> list[k - 1] == pre.last());
    }
    if list.contains(np) {
        let j = list.index_of(np);
        if j < k {
            assert(free.in_use(pre[j]));
        } else if j > k {
            assert(free.in_use(post[j - k - 1]));
        }
    }
    lemma_links_split(pages, pages2, pre, p, np, post);
    assert forall|q: u64| #[trigger] forest_count(ts2, q) <= 1 && (forest_count(ts2, q) > 0 ==> (
    free2.in_use(q) && (q == root || q >= FIRST_FREE_PAGE))) by {
        assert(count(a, q) + count(b, q) == forest_count(ts2, q));
        assert(forest_count(ts, q) <= 1);
    }
    assert forall|q: u64| #[trigger] outside(free2, ts2, q) == outside(free, ts, q) by {
        assert(forest_count(ts2, q) == count(a, q) + count(b, q));
        assert(forest_count(ts, q) == count(t, q));
        assert(free2.in_use(q) <==> free.in_use(q) || q == np);
    }
    assert forall|q: u64| #[trigger] pre.contains(q) implies outside(free2, ts2, q) by {
        assert(outside(free, ts, q));
        assert(outside(free2, ts2, q) == outside(free, ts, q));
    }
    assert forall|q: u64| #[trigger] post.contains(q) implies outside(free2, ts2, q) by {
        assert(outside(free, ts, q));
        assert(outside(free2, ts2, q) == outside(free, ts, q));
    }
    assert forall|q: u64| #[trigger] outside(free, ts, q) implies relinked(pages[q], pages2[q]) && (
    edge(pre, post, q) || pages2[q] == pages[q]) by {
        assert(q != p);
        if prev == Some(q) {
            assert(k > 0);
            assert(link_ok(pages, list, idx(k - 1)));
            assert(list[k - 1] == q);
        }
    }
    assert(repr(pages2, a));
    assert(repr(pages2, b));
}

/// A leaf was taken out of the tree and its page given back.
pub proof fn lemma_leaf_removed(
    pages: Map<u64, Seq<u8>>,
    pages2: Map<u64, Seq<u8>>,
    free: FreePages,
    free2: FreePages,
    root: u64,
    t: Tree,
    pre: Seq<u64>,
    post: Seq<u64>,
)
    requires
        placed(pages, free, root, seq![t], pre, post),
        t is Leaf,
        forall|q: u64| #[trigger] free2.in_use(q) <==> free.in_use(q) && q != t.page(),
        node(pages[t.page()]).prev matches Some(prev) ==> node_wf(pages2[prev]) && node(
            pages2[prev],
        ) == (Node { next: node(pages[t.page()]).next, ..node(pages[prev]) }),
        node(pages[t.page()]).next matches Some(next) ==> node_wf(pages2[next]) && node(
            pages2[next],
        ) == (Node { prev: node(pages[t.page()]).prev, ..node(pages[next]) }),
        forall|q: u64|
            free.in_use(q) && q != t.page() && Some(q) != node(pages[t.page()]).prev && Some(q)
                != node(pages[t.page()]).next ==> #[trigger] pages2[q] == pages[q],
    ensures
        placed(pages2, free2, root, Seq::empty(), pre, post),
        evolves(pages, free, seq![t], pages2, free2, Seq::empty(), pre, post),
{
    let p = t.page();
    let ts = seq![t];
    let ts2 = Seq::<Tree>::empty();
    lemma_forest_one(ts, t);
    assert(repr(pages, ts[0]));
    assert(nums(forest_leaves(ts)) =~= seq![p]);
    let list = pre + seq![p] + post;
    lemma_list_distinct(free, ts, pre, post);
    let k = pre.len() as int;
    assert(link_ok(pages, list, idx(k)));
    assert(list[k] == p);
    assert(count(t, p) == 1);
    assert(forest_count(ts, p) == 1);
    let prev = node(pages[p]).prev;
    let next = node(pages[p]).next;
    assert(k > 0 ==> list[k - 1] == pre.last());
    assert(post.len() > 0 ==> list[k + 1] == post[0]);
    assert forall|j: int| 0 <= j < pre.len() implies #[trigger] free.in_use(pre[j]) && pre[j] != p by {
        assert(pre.contains(pre[j]));
        assert(outside(free, ts, pre[j]));
    }
    assert forall|j: int| 0 <= j < post.len() implies #[trigger] free.in_use(post[j]) && post[j]
        != p by {
        assert(post.contains(post[j]));
        assert(outside(free, ts, post[j]));
    }
    assert forall|j: int| 0 <= j < pre.len() - 1 implies #[trigger] pages2[pre[j]]
        == pages[pre[j]] by {
        assert(free.in_use(pre[j]));
        assert(list[j] == pre[j]);
    }
    assert forall|j: int| 1 <= j < post.len() implies #[trigger] pages2[post[j]]
        == pages[post[j]] by {
        assert(free.in_use(post[j]));
        assert(list[k + 1 + j] == post[j]);
    }
    lemma_links_cut(pages, pages2, pre, p, post);
    assert(pre + nums(forest_leaves(ts2)) + post =~= pre + post);
    assert forall|q: u64| #[trigger] outside(free2, ts2, q) == outside(free, ts, q) by {
        assert(forest_count(ts, q) == count(t, q));
        assert(free2.in_use(q) <==> free.in_use(q) && q != p);
    }
    assert forall|q: u64| #[trigger] pre.contains(q) implies outside(free2, ts2, q) by {
        assert(outside(free, ts, q));
        assert(outside(free2, ts2, q) == outside(free, ts, q));
    }
    assert forall|q: u64| #[trigger] post.contains(q) implies outside(free2, ts2, q) by {
        assert(outside(free, ts, q));
        assert(outside(free2, ts2, q) == outside(free, ts, q));
    }
    assert forall|q: u64| #[trigger] outside(free, ts, q) implies relinked(pages[q], pages2[q]) && (
    edge(pre, post, q) || pages2[q] == pages[q]) by {
        assert(q != p);
        if prev == Some(q) {
            assert(k > 0);
            assert(link_ok(pages, list, idx(k - 1)));
        }
        if next == Some(q) {
            assert(post.len() > 0);
            assert(link_ok(pages, list, idx(k + 1)));
        }
    }
}

/// The leaves to the left of the subtree `i`.
pub open spec fn pre_of(pre: Seq<u64>, t: Tree, i: int) -> Seq<u64> {
    pre + nums(forest_leaves(t->kids.take(i)))
}

/// The leaves to the right of the subtree `i`.
pub open spec fn post_of(post: Seq<u64>, t: Tree, i: int) -> Seq<u64> {
    nums(forest_leaves(t->kids.skip(i + 1))) + post
}

/// Seen from a subtree, its siblings are outside.
pub proof fn lemma_down(
    pages: Map<u64, Seq<u8>>,
    free: FreePages,
    root: u64,
    t: Tree,
    i: int,
    pre: Seq<u64>,
    post: Seq<u64>,
)
    requires
        placed(pages, free, root, seq![t], pre, post),
        t is Inner,
        0 <= i < t->kids.len(),
    ensures
        placed(
            pages,
            free,
            root,
            seq![t->kids[i]],
            pre_of(pre, t, i),
            post_of(post, t, i),
        ),
        forall|q: u64| #[trigger]
            count(t, q) == (if q == t.page() {
                1nat
            } else {
                0nat
            }) + forest_count(t->kids.take(i), q) + count(t->kids[i], q) + forest_count(
                t->kids.skip(i + 1),
                q,
            ),
        forall|q: u64| #[trigger]
            pre_of(pre, t, i).contains(q) ==> pre.contains(q) || count(t, q) > 0,
{
    let kids = t->kids;
    let kid = kids[i];
    let ts = seq![t];
    let one = seq![kid];
    lemma_forest_one(ts, t);
    lemma_forest_one(one, kid);
    lemma_forest_at(kids, i);
    let left = kids.take(i);
    let right = kids.skip(i + 1);
    assert(repr(pages, ts[0]));
    assert(repr(pages, kids[i]));
    assert forall|q: u64| #[trigger] count(t, q) == (if q == t.page() {
        1nat
    } else {
        0nat
    }) + forest_count(left, q) + count(kid, q) + forest_count(right, q) by {
        assert(forest_count(kids, q) == forest_count(left, q) + count(kid, q) + forest_count(
            right,
            q,
        ));
    }
    assert forall|q: u64| #[trigger] forest_count(one, q) <= 1 && (forest_count(one, q) > 0 ==> (
    free.in_use(q) && (q == root || q >= FIRST_FREE_PAGE))) by {
        assert(forest_count(ts, q) == count(t, q));
        assert(forest_count(one, q) == count(kid, q));
    }
    assert forall|q: u64| #[trigger] forest_count(left, q) <= 1 by {
        assert(forest_count(ts, q) == count(t, q));
    }
    assert forall|q: u64| #[trigger] forest_count(right, q) <= 1 by {
        assert(forest_count(ts, q) == count(t, q));
    }
    lemma_forest_nums(left);
    lemma_forest_nums(right);
    let nl = nums(forest_leaves(left));
    let nr = nums(forest_leaves(right));
    let pre2 = pre_of(pre, t, i);
    let post2 = post_of(post, t, i);
    assert forall|q: u64| #[trigger] pre2.contains(q) implies outside(free, one, q) && (
    pre.contains(q) || count(t, q) > 0) by {
        let j = pre2.index_of(q);
        assert(forest_count(ts, q) == count(t, q));
        assert(forest_count(one, q) == count(kid, q));
        if j < pre.len() {
            assert(pre.contains(pre[j]));
            assert(outside(free, ts, q));
        } else {
            assert(nl.contains(nl[j - pre.len()]));
        }
    }
    assert forall|q: u64| #[trigger] post2.contains(q) implies outside(free, one, q) by {
        let j = post2.index_of(q);
        assert(forest_count(ts, q) == count(t, q));
        assert(forest_count(one, q) == count(kid, q));
        if j < nr.len() {
            assert(nr.contains(nr[j]));
        } else {
            assert(post.contains(post[j - nr.len()]));
            assert(outside(free, ts, q));
        }
    }
    let list = pre + nums(forest_leaves(ts)) + post;
    let mid = nums(forest_leaves(one));
    assert(nums(forest_leaves(ts)) =~= nl + mid + nr);
    assert(list =~= pre2 + mid + post2);
    lemma_list_distinct(free, ts, pre, post);
    let around = pre2 + post2;
    assert forall|a: int, b: int| 0 <= a < b < around.len() implies around[a] != around[b] by {
        let a1 = if a < pre2.len() {
            a
        } else {
            a + mid.len()
        };
        let b1 = if b < pre2.len() {
            b
        } else {
            b + mid.len()
        };
        assert(around[a] == list[a1]);
        assert(around[b] == list[b1]);
    }
}

/// One subtree of an interior node has become the trees `mid`. The node itself
/// has been written anew, split or given back: `ts3` stands in its place, with
/// the pages `fresh`. All that is said of other pages carries over.
pub proof fn lemma_up(
    pages: Map<u64, Seq<u8>>,
    pages2: Map<u64, Seq<u8>>,
    pages3: Map<u64, Seq<u8>>,
    free: FreePages,
    free2: FreePages,
    free3: FreePages,
    root: u64,
    t: Tree,
    i: int,
    mid: Seq<Tree>,
    ts3: Seq<Tree>,
    fresh: Set<u64>,
    pre: Seq<u64>,
    post: Seq<u64>,
)
    requires
        placed(pages, free, root, seq![t], pre, post),
        t is Inner,
        0 <= i < t->kids.len(),
        placed(pages2, free2, root, mid, pre_of(pre, t, i), post_of(post, t, i)),
        evolves(
            pages,
            free,
            seq![t->kids[i]],
            pages2,
            free2,
            mid,
            pre_of(pre, t, i),
            post_of(post, t, i),
        ),
        forest_leaves(ts3) == forest_leaves(splice(t->kids, i, mid)),
        forall|q: u64| #[trigger]
            forest_count(ts3, q) == forest_count(splice(t->kids, i, mid), q) + (if fresh.contains(
                q,
            ) {
                1nat
            } else {
                0nat
            }),
        forall|q: u64| #[trigger]
            fresh.contains(q) ==> q == t.page() || (!free2.in_use(q) && q >= FIRST_FREE_PAGE),
        forall|q: u64| #[trigger]
            free3.in_use(q) <==> (free2.in_use(q) && q != t.page()) || fresh.contains(q),
        forall|q: u64|
            free2.in_use(q) && q != t.page() ==> #[trigger] pages3[q] == pages2[q],
    ensures
        forall|j: int|
            0 <= j < splice(t->kids, i, mid).len() ==> repr(
                pages3,
                #[trigger] splice(t->kids, i, mid)[j],
            ),
        pages2[t.page()] == pages[t.page()],
        free2.in_use(t.page()),
        evolves(pages, free, seq![t], pages3, free3, ts3, pre, post),
        (forall|j: int| 0 <= j < ts3.len() ==> repr(pages3, #[trigger] ts3[j])) ==> placed(
            pages3,
            free3,
            root,
            ts3,
            pre,
            post,
        ),
{
    let kids = t->kids;
    let kid = kids[i];
    let ts = seq![t];
    let one = seq![kid];
    let p = t.page();
    lemma_down(pages, free, root, t, i, pre, post);
    lemma_forest_one(ts, t);
    lemma_forest_one(one, kid);
    let left = kids.take(i);
    let right = kids.skip(i + 1);
    let kids3 = splice(kids, i, mid);
    lemma_splice(kids, i, mid);
    let pre2 = pre_of(pre, t, i);
    let post2 = post_of(post, t, i);
    // a page of the node or of a sibling is outside of the subtree
    assert forall|q: u64|
        forest_count(left, q) + forest_count(right, q) > 0 || q == p implies #[trigger] outside(
        free,
        one,
        q,
    )
        && outside(free2, mid, q) by {
        assert(forest_count(ts, q) == count(t, q));
        assert(forest_count(one, q) == count(kid, q));
        assert(outside(free2, mid, q) == outside(free, one, q));
    }
    assert(repr(pages, ts[0]));
    assert(outside(free, one, p));
    assert forall|q: u64| forest_count(left, q) + forest_count(right, q) > 0 implies q != p
        && relinked(pages[q], #[trigger] pages3[q]) by {
        assert(forest_count(ts, q) == count(t, q));
        assert(outside(free, one, q));
        assert(free2.in_use(q));
    }
    assert forall|j: int| 0 <= j < kids3.len() implies repr(pages3, #[trigger] kids3[j]) by {
        if i <= j < i + mid.len() {
            let m = mid[j - i];
            assert(kids3[j] == m);
            assert(repr(pages2, m));
            assert forall|q: u64| #[trigger] count(m, q) > 0 implies relinked(pages2[q], pages3[q]) by {
                lemma_member_count(mid, j - i, q);
                assert(forest_count(mid, q) > 0);
                assert(!outside(free2, mid, q));
                assert(q != p);
                assert(free2.in_use(q));
            }
            lemma_repr_frame(pages2, pages3, m);
        } else {
            let a = if j < i {
                j
            } else {
                j - mid.len() + 1
            };
            assert(kids3[j] == kids[a]);
            assert(repr(pages, kids[a]));
            assert forall|q: u64| #[trigger] count(kids[a], q) > 0 implies relinked(
                pages[q],
                pages3[q],
            ) by {
                if a < i {
                    lemma_member_count(left, a, q);
                } else {
                    lemma_member_count(right, a - i - 1, q);
                }
                assert(pages3[q] == pages3[q]);
            }
            lemma_repr_frame(pages, pages3, kids[a]);
        }
    }
    // each page occurs once
    assert forall|q: u64| #[trigger] forest_count(ts3, q) <= 1 && (forest_count(ts3, q) > 0 ==> (
    free3.in_use(q) && (q == root || q >= FIRST_FREE_PAGE))) by {
        assert(forest_count(ts, q) == count(t, q));
        assert(forest_count(kids3, q) == forest_count(left, q) + forest_count(mid, q)
            + forest_count(right, q));
        assert(forest_count(ts, q) <= 1);
        assert(forest_count(mid, q) <= 1);
        if forest_count(left, q) + forest_count(right, q) > 0 {
            assert(outside(free2, mid, q));
        }
        if fresh.contains(q) && q == p {
            assert(outside(free2, mid, q));
        }
    }
    assert forall|q: u64| #[trigger] outside(free3, ts3, q) == outside(free, ts, q) by {
        assert(forest_count(ts, q) == count(t, q));
        assert(forest_count(ts3, q) == forest_count(kids3, q) + (if fresh.contains(q) {
            1nat
        } else {
            0nat
        }));
        assert(forest_count(kids3, q) == forest_count(left, q) + forest_count(mid, q)
            + forest_count(right, q));
        assert(outside(free2, mid, q) == outside(free, one, q));
        assert(forest_count(one, q) == count(kid, q));
        assert(free3.in_use(q) <==> (free2.in_use(q) && q != p) || fresh.contains(q));
    }
    assert forall|q: u64| #[trigger] pre.contains(q) implies outside(free3, ts3, q) by {
        assert(outside(free, ts, q));
        assert(outside(free3, ts3, q) == outside(free, ts, q));
    }
    assert forall|q: u64| #[trigger] post.contains(q) implies outside(free3, ts3, q) by {
        assert(outside(free, ts, q));
        assert(outside(free3, ts3, q) == outside(free, ts, q));
    }
    assert forall|q: u64| #[trigger] outside(free, ts, q) implies relinked(pages[q], pages3[q]) && (
    edge(pre, post, q) || pages3[q] == pages[q]) by {
        assert(forest_count(ts, q) == count(t, q));
        assert(forest_count(one, q) == count(kid, q));
        assert(outside(free, one, q));
        assert(outside(free2, mid, q) == outside(free, one, q));
        assert(q != p);
        assert(pages3[q] == pages2[q]);
        if edge(pre2, post2, q) && !edge(pre, post, q) {
            lemma_edge_inside(free, ts, t, i, pre, post, q);
        }
    }
    let list = pre + nums(forest_leaves(ts3)) + post;
    let nl = nums(forest_leaves(left));
    let nm = nums(forest_leaves(mid));
    let nr = nums(forest_leaves(right));
    assert(nums(forest_leaves(kids3)) =~= nl + nm + nr);
    assert(list =~= pre2 + nm + post2);
    lemma_forest_nums(mid);
    assert forall|j: int| 0 <= j < list.len() implies pages3[#[trigger] list[j]]
        == pages2[list[j]] by {
        let q = list[j];
        if j < pre2.len() {
            assert(pre2.contains(pre2[j]));
            assert(outside(free2, mid, q));
        } else if j < pre2.len() + nm.len() {
            assert(nm.contains(nm[j - pre2.len()]));
            assert(forest_count(mid, q) > 0);
        } else {
            assert(post2.contains(post2[j - pre2.len() - nm.len()]));
            assert(outside(free2, mid, q));
        }
        assert(free2.in_use(q));
        if q == p {
            assert(outside(free2, mid, p));
            assert(link_ok(pages2, list, idx(j)));
            assert(relinked(pages[p], pages2[p]));
            assert(!node(pages[p]).leaf);
        }
    }
    lemma_links_frame(pages2, pages3, list);
}

/// A leaf next to a subtree is next to the whole tree or part of it.
proof fn lemma_edge_inside(
    free: FreePages,
    ts: Seq<Tree>,
    t: Tree,
    i: int,
    pre: Seq<u64>,
    post: Seq<u64>,
    q: u64,
)
    requires
        ts == seq![t],
        t is Inner,
        0 <= i < t->kids.len(),
        forall|q: u64| #[trigger] forest_count(ts, q) <= 1,
        edge(pre_of(pre, t, i), post_of(post, t, i), q),
        !edge(pre, post, q),
    ensures
        forest_count(ts, q) > 0,
{
    let kids = t->kids;
    let left = kids.take(i);
    let right = kids.skip(i + 1);
    lemma_forest_one(ts, t);
    lemma_forest_at(kids, i);
    assert forall|x: u64| #[trigger] forest_count(left, x) <= 1 by {
        assert(forest_count(ts, x) == count(t, x));
        assert(forest_count(kids, x) == forest_count(left, x) + count(kids[i], x) + forest_count(
            right,
            x,
        ));
    }
    assert forall|x: u64| #[trigger] forest_count(right, x) <= 1 by {
        assert(forest_count(ts, x) == count(t, x));
        assert(forest_count(kids, x) == forest_count(left, x) + count(kids[i], x) + forest_count(
            right,
            x,
        ));
    }
    lemma_forest_nums(left);
    lemma_forest_nums(right);
    let nl = nums(forest_leaves(left));
    let nr = nums(forest_leaves(right));
    assert(forest_count(ts, q) == count(t, q));
    assert(forest_count(kids, q) == forest_count(left, q) + count(kids[i], q) + forest_count(
        right,
        q,
    ));
    if pre_of(pre, t, i).len() > 0 && q == pre_of(pre, t, i).last() {
        if nl.len() > 0 {
            assert(nl.contains(nl[nl.len() - 1]));
        } else {
            assert(pre_of(pre, t, i) =~= pre);
        }
    } else {
        if nr.len() > 0 {
            assert(nr.contains(nr[0]));
        } else {
            assert(post_of(post, t, i) =~= post);
        }
    }
}

} // verus!
