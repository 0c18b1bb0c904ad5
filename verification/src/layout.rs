//! How the parts of a collection share the pages of a file: several B-trees and
//! a number of single pages, none of which overlap.

use vstd::prelude::*;

use crate::btree::{
    apart, has_tree, is_tree, lemma_other_tree, lemma_tree_frame, tree_at, tree_owned,
};
use crate::btree_model::{
    count, forest_count, lemma_forest_at, lemma_forest_concat, lemma_forest_one,
    lemma_member_count, lemma_members_disjoint, Tree,
};
use crate::btree_place::{evolves, outside};
use crate::page_allocator::{FreePages, FIRST_FREE_PAGE};
use crate::page_cache::{lockable, INVALID_PAGE};
use crate::superblock::SUPERBLOCK_FPID;

verus! {

/// The trees with the given roots.
pub open spec fn trees_at(pages: Map<u64, Seq<u8>>, roots: Seq<u64>) -> Seq<Tree> {
    roots.map_values(|root: u64| tree_at(pages, root))
}

/// How often a page occurs in a list.
pub open spec fn occurs(list: Seq<u64>, q: u64) -> nat
    decreases list.len(),
{
    if list.len() == 0 {
        0
    } else {
        occurs(list.drop_last(), q) + (if list.last() == q {
            1nat
        } else {
            0nat
        })
    }
}

pub proof fn lemma_occurs_concat(a: Seq<u64>, b: Seq<u64>, q: u64)
    ensures
        occurs(a + b, q) == occurs(a, q) + occurs(b, q),
    decreases b.len(),
{
    if b.len() == 0 {
        assert(a + b =~= a);
    } else {
        assert((a + b).drop_last() =~= a + b.drop_last());
        lemma_occurs_concat(a, b.drop_last(), q);
    }
}

pub proof fn lemma_occurs_push(a: Seq<u64>, p: u64, q: u64)
    ensures
        occurs(a.push(p), q) == occurs(a, q) + (if p == q {
            1nat
        } else {
            0nat
        }),
{
    assert(a.push(p).drop_last() =~= a);
}

/// A page occurs in a list that contains it.
pub proof fn lemma_occurs_at(a: Seq<u64>, i: int)
    requires
        0 <= i < a.len(),
    ensures
        occurs(a, a[i]) > 0,
    decreases a.len(),
{
    if i < a.len() - 1 {
        assert(a.drop_last()[i] == a[i]);
        lemma_occurs_at(a.drop_last(), i);
    }
}

/// How often a page is used by the trees and the single pages.
pub open spec fn pages_used(
    pages: Map<u64, Seq<u8>>,
    roots: Seq<u64>,
    extra: Seq<u64>,
    q: u64,
) -> nat {
    forest_count(trees_at(pages, roots), q) + occurs(extra, q)
}

/// The trees and the single pages have no page in common, and all are in use.
pub open spec fn layout(
    pages: Map<u64, Seq<u8>>,
    free: FreePages,
    roots: Seq<u64>,
    extra: Seq<u64>,
) -> bool {
    &&& forall|i: int| 0 <= i < roots.len() ==> has_tree(pages, #[trigger] roots[i])
    &&& forall|q: u64| #[trigger] pages_used(pages, roots, extra, q) <= 1
    &&& forall|q: u64| #[trigger]
        pages_used(pages, roots, extra, q) > 0 ==> free.in_use(q) && (q >= FIRST_FREE_PAGE || (
        roots.len() > 0 && q == roots[0]))
}

/// A page in use that belongs to something else.
pub open spec fn elsewhere(
    pages: Map<u64, Seq<u8>>,
    free: FreePages,
    roots: Seq<u64>,
    extra: Seq<u64>,
    q: u64,
) -> bool {
    free.in_use(q) && pages_used(pages, roots, extra, q) == 0
}

/// Whatever belongs to something else is as it was.
pub open spec fn kept(
    pages: Map<u64, Seq<u8>>,
    free: FreePages,
    roots: Seq<u64>,
    extra: Seq<u64>,
    pages2: Map<u64, Seq<u8>>,
    free2: FreePages,
    roots2: Seq<u64>,
    extra2: Seq<u64>,
) -> bool {
    &&& forall|q: u64| #[trigger]
        elsewhere(pages2, free2, roots2, extra2, q) == elsewhere(pages, free, roots, extra, q)
    &&& forall|q: u64| #[trigger]
        elsewhere(pages, free, roots, extra, q) ==> pages2[q] == pages[q]
}

pub proof fn lemma_kept_trans(
    pages: Map<u64, Seq<u8>>,
    free: FreePages,
    roots: Seq<u64>,
    extra: Seq<u64>,
    pages2: Map<u64, Seq<u8>>,
    free2: FreePages,
    roots2: Seq<u64>,
    extra2: Seq<u64>,
    pages3: Map<u64, Seq<u8>>,
    free3: FreePages,
    roots3: Seq<u64>,
    extra3: Seq<u64>,
)
    requires
        kept(pages, free, roots, extra, pages2, free2, roots2, extra2),
        kept(pages2, free2, roots2, extra2, pages3, free3, roots3, extra3),
    ensures
        kept(pages, free, roots, extra, pages3, free3, roots3, extra3),
{
    assert forall|q: u64| #[trigger]
        elsewhere(pages3, free3, roots3, extra3, q) == elsewhere(pages, free, roots, extra, q) by {
        assert(elsewhere(pages2, free2, roots2, extra2, q) == elsewhere(
            pages,
            free,
            roots,
            extra,
            q,
        ));
    }
    assert forall|q: u64| #[trigger] elsewhere(pages, free, roots, extra, q) implies pages3[q]
        == pages[q] by {
        assert(elsewhere(pages2, free2, roots2, extra2, q));
    }
}

/// Nothing has happened.
pub proof fn lemma_kept_same(
    pages: Map<u64, Seq<u8>>,
    free: FreePages,
    roots: Seq<u64>,
    extra: Seq<u64>,
)
    ensures
        kept(pages, free, roots, extra, pages, free, roots, extra),
{
}

/// Only how often a page occurs among the single pages matters.
pub proof fn lemma_layout_counts(
    pages: Map<u64, Seq<u8>>,
    free: FreePages,
    roots: Seq<u64>,
    extra: Seq<u64>,
    extra2: Seq<u64>,
)
    requires
        layout(pages, free, roots, extra),
        forall|q: u64| #[trigger] occurs(extra2, q) == occurs(extra, q),
    ensures
        layout(pages, free, roots, extra2),
        kept(pages, free, roots, extra, pages, free, roots, extra2),
        forall|q: u64| #[trigger]
            pages_used(pages, roots, extra2, q) == pages_used(pages, roots, extra, q),
{
    assert forall|q: u64| #[trigger] pages_used(pages, roots, extra2, q) == pages_used(
        pages,
        roots,
        extra,
        q,
    ) by {
        assert(occurs(extra2, q) == occurs(extra, q));
    }
    assert forall|q: u64| #[trigger] pages_used(pages, roots, extra2, q) <= 1 && (pages_used(
        pages,
        roots,
        extra2,
        q,
    ) > 0 ==> free.in_use(q) && (q >= FIRST_FREE_PAGE || (roots.len() > 0 && q == roots[0]))) by {
        assert(pages_used(pages, roots, extra, q) <= 1);
    }
    assert forall|q: u64| #[trigger]
        elsewhere(pages, free, roots, extra2, q) == elsewhere(pages, free, roots, extra, q) by {
        assert(pages_used(pages, roots, extra2, q) == pages_used(pages, roots, extra, q));
    }
}

/// Each tree is a tree of its own.
pub proof fn lemma_layout_tree(
    pages: Map<u64, Seq<u8>>,
    free: FreePages,
    roots: Seq<u64>,
    extra: Seq<u64>,
    i: int,
)
    requires
        layout(pages, free, roots, extra),
        0 <= i < roots.len(),
    ensures
        has_tree(pages, roots[i]),
        is_tree(pages, roots[i], tree_at(pages, roots[i])),
        tree_owned(pages, free, roots[i]),
        forall|j: int|
            0 <= j < roots.len() && j != i ==> apart(
                tree_at(pages, #[trigger] roots[j]),
                tree_at(pages, roots[i]),
            ) && roots[j] != roots[i],
        forall|q: u64| #[trigger] occurs(extra, q) > 0 ==> count(tree_at(pages, roots[i]), q) == 0,
        i > 0 ==> roots[i] >= FIRST_FREE_PAGE,
{
    let trees = trees_at(pages, roots);
    let t = tree_at(pages, roots[i]);
    assert(trees[i] == t);
    assert(has_tree(pages, roots[i]));
    assert forall|j: int| 0 <= j < roots.len() && j != i implies apart(
        tree_at(pages, #[trigger] roots[j]),
        t,
    ) && roots[j] != roots[i] by {
        let o = tree_at(pages, roots[j]);
        assert(trees[j] == o);
        assert(has_tree(pages, roots[j]));
        assert forall|q: u64| #[trigger] count(o, q) > 0 implies count(t, q) == 0 by {
            lemma_members_disjoint(trees, i, j, q);
            assert(pages_used(pages, roots, extra, q) <= 1);
        }
        assert(count(o, roots[j]) > 0);
        assert(count(t, roots[i]) > 0);
    }
    assert forall|q: u64| #[trigger] count(t, q) > 0 implies free.in_use(q) && (q == roots[i] || q
        >= FIRST_FREE_PAGE) by {
        lemma_member_count(trees, i, q);
        assert(pages_used(pages, roots, extra, q) > 0);
        if i > 0 && q == roots[0] {
            assert(trees[0] == tree_at(pages, roots[0]));
            assert(has_tree(pages, roots[0]));
            assert(count(trees[0], roots[0]) > 0);
            lemma_members_disjoint(trees, i, 0, q);
            assert(pages_used(pages, roots, extra, q) <= 1);
        }
    }
    assert forall|q: u64| #[trigger] occurs(extra, q) > 0 implies count(t, q) == 0 by {
        lemma_member_count(trees, i, q);
        assert(pages_used(pages, roots, extra, q) <= 1);
    }
    if i > 0 {
        assert(count(t, roots[i]) > 0);
        lemma_member_count(trees, i, roots[i]);
        assert(pages_used(pages, roots, extra, roots[i]) > 0);
        if roots[i] == roots[0] {
            assert(apart(tree_at(pages, roots[0]), t) && roots[0] != roots[i]);
        }
    }
}

/// A single page is no root.
pub proof fn lemma_layout_single(
    pages: Map<u64, Seq<u8>>,
    free: FreePages,
    roots: Seq<u64>,
    extra: Seq<u64>,
    q: u64,
)
    requires
        layout(pages, free, roots, extra),
        free.wf(),
        occurs(extra, q) > 0,
    ensures
        free.in_use(q),
        q >= FIRST_FREE_PAGE,
        lockable(q),
        occurs(extra, q) == 1,
{
    assert(pages_used(pages, roots, extra, q) <= 1);
    assert(pages_used(pages, roots, extra, q) > 0);
    if roots.len() > 0 && q == roots[0] {
        lemma_layout_tree(pages, free, roots, extra, 0);
        assert(count(tree_at(pages, roots[0]), q) == 0);
    }
}

/// One tree has changed.
pub proof fn lemma_layout_changed(
    pages: Map<u64, Seq<u8>>,
    pages2: Map<u64, Seq<u8>>,
    free: FreePages,
    free2: FreePages,
    roots: Seq<u64>,
    extra: Seq<u64>,
    i: int,
)
    requires
        layout(pages, free, roots, extra),
        0 <= i < roots.len(),
        has_tree(pages2, roots[i]),
        tree_owned(pages2, free2, roots[i]),
        evolves(
            pages,
            free,
            seq![tree_at(pages, roots[i])],
            pages2,
            free2,
            seq![tree_at(pages2, roots[i])],
            Seq::empty(),
            Seq::empty(),
        ),
    ensures
        layout(pages2, free2, roots, extra),
        kept(pages, free, roots, extra, pages2, free2, roots, extra),
        forall|j: int|
            0 <= j < roots.len() && j != i ==> tree_at(pages2, #[trigger] roots[j]) == tree_at(
                pages,
                roots[j],
            ),
        forall|q: u64| #[trigger] occurs(extra, q) > 0 ==> pages2[q] == pages[q],
{
    let trees = trees_at(pages, roots);
    let trees2 = trees_at(pages2, roots);
    let t = tree_at(pages, roots[i]);
    let t2 = tree_at(pages2, roots[i]);
    lemma_layout_tree(pages, free, roots, extra, i);
    assert forall|j: int| 0 <= j < roots.len() && j != i implies tree_at(pages2, #[trigger] roots[j])
        == tree_at(pages, roots[j]) && has_tree(pages2, roots[j]) && tree_owned(
        pages2,
        free2,
        roots[j],
    ) by {
        lemma_layout_tree(pages, free, roots, extra, j);
        assert(apart(tree_at(pages, roots[j]), t));
        lemma_other_tree(pages, pages2, free, free2, t, t2, roots[j]);
    }
    lemma_forest_at(trees, i);
    lemma_forest_at(trees2, i);
    assert(trees.take(i) =~= trees2.take(i)) by {
        assert forall|j: int| 0 <= j < i implies trees[j] == trees2[j] by {
            assert(tree_at(pages2, roots[j]) == tree_at(pages, roots[j]));
        }
    }
    assert(trees.skip(i + 1) =~= trees2.skip(i + 1)) by {
        assert forall|j: int| i < j < trees.len() implies trees[j] == trees2[j] by {
            assert(tree_at(pages2, roots[j]) == tree_at(pages, roots[j]));
        }
    }
    lemma_forest_one(seq![t], t);
    lemma_forest_one(seq![t2], t2);
    assert forall|q: u64| #[trigger] pages_used(pages2, roots, extra, q) + count(t, q)
        == pages_used(pages, roots, extra, q) + count(t2, q) by {
        assert(forest_count(trees, q) == forest_count(trees.take(i), q) + count(trees[i], q)
            + forest_count(trees.skip(i + 1), q));
        assert(forest_count(trees2, q) == forest_count(trees2.take(i), q) + count(trees2[i], q)
            + forest_count(trees2.skip(i + 1), q));
    }
    assert forall|q: u64| outside(free2, seq![t2], q) == outside(free, seq![t], q) && (
    outside(free, seq![t], q) == (free.in_use(q) && count(t, q) == 0)) && (outside(
        free2,
        seq![t2],
        q,
    ) == (#[trigger] free2.in_use(q) && count(t2, q) == 0)) by {
        assert(forest_count(seq![t], q) == count(t, q));
        assert(forest_count(seq![t2], q) == count(t2, q));
    }
    assert forall|q: u64| #[trigger] pages_used(pages2, roots, extra, q) <= 1 && (pages_used(
        pages2,
        roots,
        extra,
        q,
    ) > 0 ==> free2.in_use(q) && (q >= FIRST_FREE_PAGE || (roots.len() > 0 && q == roots[0]))) by {
        assert(pages_used(pages, roots, extra, q) <= 1);
        assert(is_tree(pages2, roots[i], t2));
        assert(count(t2, q) <= 1);
        if count(t2, q) > 0 {
            if pages_used(pages, roots, extra, q) - count(t, q) > 0 {
                assert(free.in_use(q) && count(t, q) == 0);
                assert(outside(free, seq![t], q));
                assert(outside(free2, seq![t2], q));
            }
            assert(tree_owned(pages2, free2, roots[i]));
        } else if pages_used(pages2, roots, extra, q) > 0 {
            assert(free2.in_use(q) || !free2.in_use(q));
            if count(t, q) > 0 {
                assert(pages_used(pages, roots, extra, q) >= 2);
            }
            assert(outside(free, seq![t], q));
            assert(outside(free2, seq![t2], q) == outside(free, seq![t], q));
        }
    }
    assert forall|q: u64| #[trigger]
        elsewhere(pages2, free2, roots, extra, q) == elsewhere(pages, free, roots, extra, q) by {
        assert(pages_used(pages2, roots, extra, q) + count(t, q) == pages_used(
            pages,
            roots,
            extra,
            q,
        ) + count(t2, q));
        assert(outside(free2, seq![t2], q) == outside(free, seq![t], q));
        assert(free2.in_use(q) || !free2.in_use(q));
        assert(forest_count(seq![t], q) == count(t, q));
        assert(forest_count(seq![t2], q) == count(t2, q));
        lemma_member_count(trees, i, q);
        lemma_member_count(trees2, i, q);
    }
    assert forall|q: u64| #[trigger] elsewhere(pages, free, roots, extra, q) implies pages2[q]
        == pages[q] by {
        lemma_member_count(trees, i, q);
        assert(forest_count(seq![t], q) == count(t, q));
        assert(outside(free, seq![t], q));
    }
    assert forall|q: u64| #[trigger] occurs(extra, q) > 0 implies pages2[q] == pages[q] by {
        assert(pages_used(pages, roots, extra, q) > 0);
        assert(forest_count(seq![t], q) == count(t, q));
        assert(outside(free, seq![t], q));
    }
}

/// The trees are the same in pages that agree on all that is used.
pub proof fn lemma_trees_same(
    pages: Map<u64, Seq<u8>>,
    pages2: Map<u64, Seq<u8>>,
    free: FreePages,
    roots: Seq<u64>,
    extra: Seq<u64>,
)
    requires
        layout(pages, free, roots, extra),
        forall|q: u64|
            forest_count(trees_at(pages, roots), q) > 0 ==> #[trigger] pages2[q] == pages[q],
    ensures
        forall|j: int|
            0 <= j < roots.len() ==> has_tree(pages2, #[trigger] roots[j]) && tree_at(
                pages2,
                roots[j],
            ) == tree_at(pages, roots[j]),
        trees_at(pages2, roots) == trees_at(pages, roots),
{
    let trees = trees_at(pages, roots);
    assert forall|j: int| 0 <= j < roots.len() implies has_tree(pages2, #[trigger] roots[j])
        && tree_at(pages2, roots[j]) == tree_at(pages, roots[j]) by {
        assert(trees[j] == tree_at(pages, roots[j]));
        assert forall|q: u64| #[trigger] count(tree_at(pages, roots[j]), q) > 0 implies pages2[q]
            == pages[q] by {
            lemma_member_count(trees, j, q);
            assert(pages2[q] == pages[q]);
        }
        lemma_tree_frame(pages, pages2, roots[j]);
    }
    assert(trees_at(pages2, roots) =~= trees);
}

/// The trees and the single pages hold what they held before.
pub open spec fn untouched(
    pages: Map<u64, Seq<u8>>,
    roots: Seq<u64>,
    extra: Seq<u64>,
    pages2: Map<u64, Seq<u8>>,
) -> bool {
    &&& forall|j: int|
        0 <= j < roots.len() ==> tree_at(pages2, #[trigger] roots[j]) == tree_at(pages, roots[j])
    &&& forall|q: u64| #[trigger] occurs(extra, q) > 0 ==> pages2[q] == pages[q]
}

/// One of the single pages was filled.
pub proof fn lemma_layout_filled(
    pages: Map<u64, Seq<u8>>,
    pages2: Map<u64, Seq<u8>>,
    free: FreePages,
    roots: Seq<u64>,
    extra: Seq<u64>,
    p: u64,
)
    requires
        layout(pages, free, roots, extra),
        occurs(extra, p) > 0,
        forall|q: u64| q != p ==> #[trigger] pages2[q] == pages[q],
    ensures
        layout(pages2, free, roots, extra),
        kept(pages, free, roots, extra, pages2, free, roots, extra),
        forall|j: int|
            0 <= j < roots.len() ==> tree_at(pages2, #[trigger] roots[j]) == tree_at(
                pages,
                roots[j],
            ),
{
    assert(pages_used(pages, roots, extra, p) <= 1);
    lemma_trees_same(pages, pages2, free, roots, extra);
    assert forall|q: u64| #[trigger] pages_used(pages2, roots, extra, q) == pages_used(
        pages,
        roots,
        extra,
        q,
    ) by {}
    assert forall|q: u64| #[trigger] pages_used(pages2, roots, extra, q) <= 1 && (pages_used(
        pages2,
        roots,
        extra,
        q,
    ) > 0 ==> free.in_use(q) && (q >= FIRST_FREE_PAGE || (roots.len() > 0 && q == roots[0]))) by {
        assert(pages_used(pages, roots, extra, q) <= 1);
    }
    assert forall|q: u64| #[trigger] elsewhere(pages2, free, roots, extra, q) == elsewhere(
        pages,
        free,
        roots,
        extra,
        q,
    ) by {
        assert(pages_used(pages2, roots, extra, q) == pages_used(pages, roots, extra, q));
    }
}

/// A page was handed out, and perhaps filled.
pub proof fn lemma_layout_taken(
    pages: Map<u64, Seq<u8>>,
    pages2: Map<u64, Seq<u8>>,
    free: FreePages,
    roots: Seq<u64>,
    extra: Seq<u64>,
)
    requires
        layout(pages, free, roots, extra),
        free.wf(),
        free.frontier + 1 < INVALID_PAGE,
        forall|q: u64|
            q != SUPERBLOCK_FPID && q != free.next() ==> #[trigger] pages2[q] == pages[q],
    ensures
        layout(pages2, free.taken(), roots, extra.push(free.next())),
        kept(
            pages,
            free,
            roots,
            extra,
            pages2,
            free.taken(),
            roots,
            extra.push(free.next()),
        ),
        untouched(pages, roots, extra, pages2),
{
    let p = free.next();
    let free2 = free.taken();
    let extra2 = extra.push(p);
    free.lemma_alloc();
    assert forall|q: u64| forest_count(trees_at(pages, roots), q) > 0 implies #[trigger] pages2[q]
        == pages[q] by {
        assert(pages_used(pages, roots, extra, q) > 0);
    }
    lemma_trees_same(pages, pages2, free, roots, extra);
    assert forall|q: u64| #[trigger] pages_used(pages2, roots, extra2, q) == pages_used(
        pages,
        roots,
        extra,
        q,
    ) + (if q == p {
        1nat
    } else {
        0nat
    }) by {
        lemma_occurs_push(extra, p, q);
    }
    assert forall|q: u64| #[trigger] pages_used(pages2, roots, extra2, q) <= 1 && (pages_used(
        pages2,
        roots,
        extra2,
        q,
    ) > 0 ==> free2.in_use(q) && (q >= FIRST_FREE_PAGE || (roots.len() > 0 && q == roots[0]))) by {
        assert(pages_used(pages, roots, extra, q) <= 1);
        assert(free2.in_use(q) <==> free.in_use(q) || q == p);
    }
    assert forall|q: u64| #[trigger] elsewhere(pages2, free2, roots, extra2, q) == elsewhere(
        pages,
        free,
        roots,
        extra,
        q,
    ) by {
        assert(pages_used(pages2, roots, extra2, q) == pages_used(pages, roots, extra, q) + (if q
            == p {
            1nat
        } else {
            0nat
        }));
        assert(free2.in_use(q) <==> free.in_use(q) || q == p);
    }
    assert forall|q: u64| #[trigger] occurs(extra, q) > 0 implies pages2[q] == pages[q] by {
        assert(pages_used(pages, roots, extra, q) > 0);
    }
}

/// A single page was given back.
pub proof fn lemma_layout_given(
    pages: Map<u64, Seq<u8>>,
    pages2: Map<u64, Seq<u8>>,
    free: FreePages,
    roots: Seq<u64>,
    extra: Seq<u64>,
    extra2: Seq<u64>,
    p: u64,
)
    requires
        layout(pages, free, roots, extra),
        free.wf(),
        occurs(extra, p) > 0,
        p >= FIRST_FREE_PAGE,
        forall|q: u64| #[trigger]
            occurs(extra, q) == occurs(extra2, q) + (if q == p {
                1nat
            } else {
                0nat
            }),
        forall|q: u64| q != SUPERBLOCK_FPID && q != p ==> #[trigger] pages2[q] == pages[q],
    ensures
        layout(pages2, free.given_back(p), roots, extra2),
        kept(pages, free, roots, extra, pages2, free.given_back(p), roots, extra2),
        untouched(pages, roots, extra2, pages2),
{
    let free2 = free.given_back(p);
    assert(pages_used(pages, roots, extra, p) > 0);
    free.lemma_free(p);
    assert forall|q: u64| forest_count(trees_at(pages, roots), q) > 0 implies #[trigger] pages2[q]
        == pages[q] by {
        assert(pages_used(pages, roots, extra, q) > 0);
        assert(pages_used(pages, roots, extra, p) <= 1);
        assert(pages_used(pages, roots, extra, q) <= 1);
    }
    lemma_trees_same(pages, pages2, free, roots, extra);
    assert forall|q: u64| #[trigger] pages_used(pages, roots, extra, q) == pages_used(
        pages2,
        roots,
        extra2,
        q,
    ) + (if q == p {
        1nat
    } else {
        0nat
    }) by {
        assert(occurs(extra, q) == occurs(extra2, q) + (if q == p {
            1nat
        } else {
            0nat
        }));
    }
    assert forall|q: u64| #[trigger] pages_used(pages2, roots, extra2, q) <= 1 && (pages_used(
        pages2,
        roots,
        extra2,
        q,
    ) > 0 ==> free2.in_use(q) && (q >= FIRST_FREE_PAGE || (roots.len() > 0 && q == roots[0]))) by {
        assert(pages_used(pages, roots, extra, q) <= 1);
        assert(free2.in_use(q) <==> free.in_use(q) && q != p);
    }
    assert forall|q: u64| #[trigger] elsewhere(pages2, free2, roots, extra2, q) == elsewhere(
        pages,
        free,
        roots,
        extra,
        q,
    ) by {
        assert(pages_used(pages, roots, extra, q) == pages_used(pages2, roots, extra2, q) + (if q
            == p {
            1nat
        } else {
            0nat
        }));
        assert(pages_used(pages, roots, extra, q) <= 1);
        assert(free2.in_use(q) <==> free.in_use(q) && q != p);
    }
    assert forall|q: u64| #[trigger] occurs(extra2, q) > 0 implies pages2[q] == pages[q] by {
        assert(occurs(extra, q) == occurs(extra2, q) + (if q == p {
            1nat
        } else {
            0nat
        }));
        assert(pages_used(pages, roots, extra, q) <= 1);
        assert(pages_used(pages, roots, extra, q) > 0);
    }
}

/// A tree was created in a page of its own.
pub proof fn lemma_layout_created(
    pages: Map<u64, Seq<u8>>,
    pages2: Map<u64, Seq<u8>>,
    free: FreePages,
    roots: Seq<u64>,
    extra: Seq<u64>,
)
    requires
        layout(pages, free, roots, extra),
        free.wf(),
        free.frontier + 1 < INVALID_PAGE,
        forall|q: u64|
            q != SUPERBLOCK_FPID && q != free.next() ==> #[trigger] pages2[q] == pages[q],
        has_tree(pages2, free.next()),
        tree_at(pages2, free.next()) == (Tree::Leaf { page: free.next(), entries: Seq::empty() }),
    ensures
        layout(pages2, free.taken(), roots.push(free.next()), extra),
        kept(
            pages,
            free,
            roots,
            extra,
            pages2,
            free.taken(),
            roots.push(free.next()),
            extra,
        ),
        untouched(pages, roots, extra, pages2),
{
    let p = free.next();
    let free2 = free.taken();
    let roots2 = roots.push(p);
    free.lemma_alloc();
    assert forall|q: u64| forest_count(trees_at(pages, roots), q) > 0 implies #[trigger] pages2[q]
        == pages[q] by {
        assert(pages_used(pages, roots, extra, q) > 0);
    }
    lemma_trees_same(pages, pages2, free, roots, extra);
    let t = tree_at(pages2, p);
    let trees = trees_at(pages, roots);
    assert(trees_at(pages2, roots2) =~= trees + seq![t]);
    lemma_forest_concat(trees, seq![t]);
    lemma_forest_one(seq![t], t);
    assert forall|q: u64| #[trigger] pages_used(pages2, roots2, extra, q) == pages_used(
        pages,
        roots,
        extra,
        q,
    ) + (if q == p {
        1nat
    } else {
        0nat
    }) by {
        assert(forest_count(trees + seq![t], q) == forest_count(trees, q) + forest_count(
            seq![t],
            q,
        ));
        assert(forest_count(seq![t], q) == count(t, q));
    }
    assert forall|q: u64| #[trigger] pages_used(pages2, roots2, extra, q) <= 1 && (pages_used(
        pages2,
        roots2,
        extra,
        q,
    ) > 0 ==> free2.in_use(q) && (q >= FIRST_FREE_PAGE || (roots2.len() > 0 && q
        == roots2[0]))) by {
        assert(pages_used(pages, roots, extra, q) <= 1);
        assert(free2.in_use(q) <==> free.in_use(q) || q == p);
    }
    assert forall|i: int| 0 <= i < roots2.len() implies has_tree(pages2, #[trigger] roots2[i]) by {
        if i < roots.len() {
            assert(roots2[i] == roots[i]);
        }
    }
    assert forall|q: u64| #[trigger] elsewhere(pages2, free2, roots2, extra, q) == elsewhere(
        pages,
        free,
        roots,
        extra,
        q,
    ) by {
        assert(pages_used(pages2, roots2, extra, q) == pages_used(pages, roots, extra, q) + (if q
            == p {
            1nat
        } else {
            0nat
        }));
        assert(free2.in_use(q) <==> free.in_use(q) || q == p);
    }
    assert forall|q: u64| #[trigger] occurs(extra, q) > 0 implies pages2[q] == pages[q] by {
        assert(pages_used(pages, roots, extra, q) > 0);
    }
}

/// What belonged to something else still does, and is as it was.
pub open spec fn spared(
    pages: Map<u64, Seq<u8>>,
    free: FreePages,
    roots: Seq<u64>,
    extra: Seq<u64>,
    pages2: Map<u64, Seq<u8>>,
    free2: FreePages,
    roots2: Seq<u64>,
    extra2: Seq<u64>,
) -> bool {
    forall|q: u64| #[trigger]
        elsewhere(pages, free, roots, extra, q) ==> elsewhere(pages2, free2, roots2, extra2, q)
            && pages2[q] == pages[q]
}

/// The last of the trees is given up. Its pages are lost.
pub proof fn lemma_layout_dropped(
    pages: Map<u64, Seq<u8>>,
    free: FreePages,
    roots: Seq<u64>,
    extra: Seq<u64>,
    pages2: Map<u64, Seq<u8>>,
    free2: FreePages,
    extra2: Seq<u64>,
    root: u64,
)
    requires
        layout(pages2, free2, roots.push(root), extra2),
        kept(pages, free, roots, extra, pages2, free2, roots.push(root), extra2),
        roots.len() > 0,
    ensures
        layout(pages2, free2, roots, extra2),
        spared(pages, free, roots, extra, pages2, free2, roots, extra2),
{
    let t = tree_at(pages2, root);
    let trees = trees_at(pages2, roots);
    assert(trees_at(pages2, roots.push(root)) =~= trees + seq![t]);
    lemma_forest_concat(trees, seq![t]);
    assert forall|q: u64| #[trigger]
        pages_used(pages2, roots, extra2, q) <= pages_used(
        pages2,
        roots.push(root),
        extra2,
        q,
    ) by {
        assert(forest_count(trees + seq![t], q) == forest_count(trees, q) + forest_count(
            seq![t],
            q,
        ));
    }
    assert forall|q: u64| #[trigger]
        pages_used(pages2, roots, extra2, q) <= 1 && (pages_used(pages2, roots, extra2, q) > 0
        ==> free2.in_use(q) && (q >= FIRST_FREE_PAGE || (roots.len() > 0 && q == roots[0]))) by {
        assert(pages_used(pages2, roots.push(root), extra2, q) <= 1);
    }
    assert forall|i: int| 0 <= i < roots.len() implies has_tree(pages2, #[trigger] roots[i]) by {
        assert(roots.push(root)[i] == roots[i]);
    }
    assert forall|q: u64| #[trigger] elsewhere(pages, free, roots, extra, q) implies elsewhere(
        pages2,
        free2,
        roots,
        extra2,
        q,
    ) && pages2[q] == pages[q] by {
        assert(elsewhere(pages2, free2, roots.push(root), extra2, q));
        assert(pages_used(pages2, roots, extra2, q) <= pages_used(pages2, roots.push(root), extra2, q));
    }
}

} // verus!
