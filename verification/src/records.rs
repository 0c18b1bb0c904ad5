//! How a document is stored: behind a flag byte in the B-tree itself, or, if it
//! is too large to fit in the B-tree node, in a linked list of external pages.
//! This allows arbitrarily large records.

use vstd::prelude::*;

use crate::btree_insert::{can_allocate, can_write, same_session};
use crate::layout::{
    kept, layout, lemma_kept_trans, lemma_layout_counts, lemma_layout_filled, lemma_layout_given,
    lemma_layout_single, lemma_layout_taken, lemma_occurs_at, lemma_occurs_concat,
    lemma_occurs_push, occurs, pages_used, untouched,
};
use crate::page_allocator::{room, FreePages, PageAllocator};
use crate::page_cache::{
    encode_page_num, lockable, page_num_view, CacheState, PageCache, PageNum, PageNumOptionExt,
    PersistentStore, INVALID_PAGE, PAGE_SIZE,
};
use crate::slots::{
    fresh_slots, idle_count, lemma_fresh_slots, lemma_idle_count_take, lemma_slot_for, no_colder,
    slot_for,
};
use crate::superblock::SUPERBLOCK_FPID;
use crate::util::{copy_into, get_u64, le64, set_u64};
use crate::value::{json_parse, parse_document, storable, Json, Value};

verus! {

/// The flag of a record whose text stands in external pages.
pub const FLAG_OVERFLOW: u8 = 0x80;

/// How much of a text fits into an external page.
pub const OVERFLOW_DATA: usize = PAGE_SIZE - 8;

/// The size of a record that points to external pages.
pub const POINTER_SIZE: usize = 17;

/// How many external pages a text takes.
pub open spec fn chunks(len: nat) -> nat {
    ((len + OVERFLOW_DATA - 1) / (OVERFLOW_DATA as int)) as nat
}

/// The page that is reached from `first` over `n` links.
pub open spec fn follow(pages: Map<u64, Seq<u8>>, first: u64, n: nat) -> u64
    decreases n,
{
    if n == 0 {
        first
    } else {
        le64(pages[follow(pages, first, (n - 1) as nat)], 0) as u64
    }
}

/// The external pages of a text, in order.
pub open spec fn chain_pages(pages: Map<u64, Seq<u8>>, first: u64, len: nat) -> Seq<u64> {
    Seq::new(chunks(len), |i: int| follow(pages, first, i as nat))
}

/// The text in external pages.
pub open spec fn chain_text(pages: Map<u64, Seq<u8>>, first: u64, len: nat) -> Seq<u8> {
    Seq::new(
        len,
        |k: int|
            pages[follow(pages, first, (k / OVERFLOW_DATA as int) as nat)][8 + k
                % OVERFLOW_DATA as int],
    )
}

/// The links lead from page to page and end behind the last one.
pub open spec fn chain_ok(pages: Map<u64, Seq<u8>>, first: u64, len: nat) -> bool {
    &&& len > 0
    &&& forall|i: nat| i < chunks(len) ==> lockable(#[trigger] follow(pages, first, i))
    &&& le64(pages[follow(pages, first, (chunks(len) - 1) as nat)], 0) == INVALID_PAGE
}

/// The record points to external pages.
pub open spec fn is_overflow(record: Seq<u8>) -> bool {
    record[0] >= FLAG_OVERFLOW
}

/// The length of the text in external pages.
pub open spec fn overflow_len(record: Seq<u8>) -> nat {
    le64(record, 1) as nat
}

/// The first of the external pages.
pub open spec fn overflow_first(record: Seq<u8>) -> u64 {
    le64(record, 9) as u64
}

/// The external pages of a record.
pub open spec fn record_pages(pages: Map<u64, Seq<u8>>, record: Seq<u8>) -> Seq<u64> {
    if is_overflow(record) {
        chain_pages(pages, overflow_first(record), overflow_len(record))
    } else {
        Seq::empty()
    }
}

/// The text of a record.
pub open spec fn record_text(pages: Map<u64, Seq<u8>>, record: Seq<u8>) -> Seq<u8> {
    if is_overflow(record) {
        chain_text(pages, overflow_first(record), overflow_len(record))
    } else {
        record.skip(1)
    }
}

/// The document in a record.
pub open spec fn record_json(pages: Map<u64, Seq<u8>>, record: Seq<u8>) -> Json {
    json_parse(record_text(pages, record))->Some_0
}

/// A document can be read from the record.
pub open spec fn record_ok(pages: Map<u64, Seq<u8>>, record: Seq<u8>) -> bool {
    &&& record.len() > 0
    &&& is_overflow(record) ==> record.len() == POINTER_SIZE && overflow_len(record) <= usize::MAX
        && chain_ok(pages, overflow_first(record), overflow_len(record))
    &&& json_parse(record_text(pages, record)) is Some
}

/// Links over pages that agree lead to the same pages.
pub proof fn lemma_follow_frame(
    pages: Map<u64, Seq<u8>>,
    pages2: Map<u64, Seq<u8>>,
    first: u64,
    n: nat,
)
    requires
        forall|i: nat| i < n ==> pages2[follow(pages, first, i)] == pages[#[trigger] follow(
            pages,
            first,
            i,
        )],
    ensures
        forall|i: nat|
            i <= n ==> #[trigger] follow(pages2, first, i) == follow(pages, first, i),
    decreases n,
{
    if n > 0 {
        lemma_follow_frame(pages, pages2, first, (n - 1) as nat);
        assert(pages2[follow(pages, first, (n - 1) as nat)] == pages[follow(
            pages,
            first,
            (n - 1) as nat,
        )]);
        assert forall|i: nat| i <= n implies #[trigger] follow(pages2, first, i) == follow(
            pages,
            first,
            i,
        ) by {
            if i == n {
                assert(follow(pages2, first, (n - 1) as nat) == follow(
                    pages,
                    first,
                    (n - 1) as nat,
                ));
            }
        }
    }
}

pub proof fn lemma_chunks(len: nat)
    ensures
        len > 0 ==> chunks(len) > 0,
        forall|k: int| 0 <= k < len ==> 0 <= #[trigger] (k / OVERFLOW_DATA as int) < chunks(len),
{
    let d = OVERFLOW_DATA as int;
    assert(d == 0x1ff8);
    assert forall|k: int| 0 <= k < len implies 0 <= #[trigger] (k / d) < chunks(len) by {
        assert(k / d == k / 0x1ff8);
        assert((len + d - 1) / d == (len + 0x1ff7) / 0x1ff8);
    }
    assert((len + d - 1) / d == (len + 0x1ff7) / 0x1ff8);
}

/// A text that ends in the page after the first `m` ones takes one page more than these.
proof fn lemma_last_chunk(m: nat, len: nat)
    requires
        m * OVERFLOW_DATA < len,
    ensures
        m < chunks(len),
        len <= m * OVERFLOW_DATA + OVERFLOW_DATA ==> chunks(len) == m + 1,
        forall|k: int|
            0 <= k < m * OVERFLOW_DATA ==> 0 <= #[trigger] (k / OVERFLOW_DATA as int) < m,
        (m + 1) * OVERFLOW_DATA == m * OVERFLOW_DATA + OVERFLOW_DATA,
{
    let d = OVERFLOW_DATA as int;
    assert(d == 0x1ff8);
    assert(m * d == m * 0x1ff8 && (m + 1) * d == m * d + d) by (nonlinear_arith)
        requires
            d == 0x1ff8,
    ;
    assert((len + d - 1) / d == (len + 0x1ff7) / 0x1ff8);
    assert forall|k: int| 0 <= k < m * d implies 0 <= #[trigger] (k / d) < m by {
        assert(k / d == k / 0x1ff8);
    }
}

/// A record means the same in pages that agree on its external pages.
pub proof fn lemma_record_frame(
    pages: Map<u64, Seq<u8>>,
    pages2: Map<u64, Seq<u8>>,
    record: Seq<u8>,
)
    requires
        record_ok(pages, record),
        forall|q: u64|
            record_pages(pages, record).contains(q) ==> #[trigger] pages2[q] == pages[q],
    ensures
        record_ok(pages2, record),
        record_pages(pages2, record) == record_pages(pages, record),
        record_text(pages2, record) == record_text(pages, record),
        record_json(pages2, record) == record_json(pages, record),
{
    if is_overflow(record) {
        let first = overflow_first(record);
        let len = overflow_len(record);
        let list = record_pages(pages, record);
        assert forall|i: nat| i < chunks(len) implies pages2[follow(pages, first, i)]
            == pages[#[trigger] follow(pages, first, i)] by {
            assert(list[i as int] == follow(pages, first, i));
            assert(list.contains(list[i as int]));
        }
        lemma_follow_frame(pages, pages2, first, chunks(len));
        lemma_chunks(len);
        assert forall|i: nat| i < chunks(len) implies lockable(
            #[trigger] follow(pages2, first, i),
        ) by {
            assert(lockable(follow(pages, first, i)));
        }
        assert(follow(pages2, first, (chunks(len) - 1) as nat) == follow(
            pages,
            first,
            (chunks(len) - 1) as nat,
        ));
        assert(record_pages(pages2, record) =~= list);
        assert forall|k: int| 0 <= k < len implies chain_text(pages2, first, len)[k] == chain_text(
            pages,
            first,
            len,
        )[k] by {
            let i = (k / OVERFLOW_DATA as int) as nat;
            assert(0 <= k / OVERFLOW_DATA as int);
            assert(follow(pages2, first, i) == follow(pages, first, i));
        }
        assert(record_text(pages2, record) =~= record_text(pages, record));
    }
}

/// Pages in a row whose links are as they should be.
proof fn lemma_follow_list(pages: Map<u64, Seq<u8>>, list: Seq<u64>, n: nat)
    requires
        n < list.len(),
        forall|i: int| 0 <= i < n ==> le64(pages[#[trigger] list[i]], 0) == list[i + 1],
    ensures
        follow(pages, list[0], n) == list[n as int],
    decreases n,
{
    if n > 0 {
        lemma_follow_list(pages, list, (n - 1) as nat);
        assert(le64(pages[list[n - 1]], 0) == list[n - 1 + 1]);
    }
}

/// A text that was spread over pages is a chain.
proof fn lemma_chain_written(pages: Map<u64, Seq<u8>>, list: Seq<u64>, text: Seq<u8>)
    requires
        text.len() > 0,
        list.len() == chunks(text.len()),
        forall|i: int| 0 <= i < list.len() ==> lockable(#[trigger] list[i]),
        forall|i: int|
            0 <= i < list.len() ==> le64(pages[#[trigger] list[i]], 0) == (if i + 1 < list.len() {
                list[i + 1]
            } else {
                INVALID_PAGE
            }),
        forall|k: int|
            0 <= k < text.len() ==> #[trigger] text[k] == pages[list[k / OVERFLOW_DATA as int]][8
                + k % OVERFLOW_DATA as int],
    ensures
        chain_ok(pages, list[0], text.len()),
        chain_pages(pages, list[0], text.len()) == list,
        chain_text(pages, list[0], text.len()) == text,
{
    let len = text.len();
    lemma_chunks(len);
    assert forall|i: nat| i < list.len() implies #[trigger] follow(pages, list[0], i)
        == list[i as int] by {
        lemma_follow_list(pages, list, i);
    }
    assert forall|i: nat| i < chunks(len) implies lockable(
        #[trigger] follow(pages, list[0], i),
    ) by {
        assert(lockable(list[i as int]));
    }
    assert(follow(pages, list[0], (chunks(len) - 1) as nat) == list[chunks(len) - 1]);
    assert(chain_pages(pages, list[0], len) =~= list);
    assert forall|k: int| 0 <= k < len implies chain_text(pages, list[0], len)[k] == text[k] by {
        let i = k / OVERFLOW_DATA as int;
        assert(0 <= i < chunks(len));
        assert(follow(pages, list[0], i as nat) == list[i]);
        assert(text[k] == pages[list[k / OVERFLOW_DATA as int]][8 + k % OVERFLOW_DATA as int]);
    }
    assert(chain_text(pages, list[0], len) =~= text);
}

proof fn lemma_occurs_first(list: Seq<u64>, q: u64)
    requires
        list.len() > 0,
    ensures
        occurs(list, q) == occurs(list.skip(1), q) + (if list[0] == q {
            1nat
        } else {
            0nat
        }),
{
    let head = seq![list[0]];
    assert(list =~= head + list.skip(1));
    lemma_occurs_concat(head, list.skip(1), q);
    assert(head =~= Seq::<u64>::empty().push(list[0]));
    lemma_occurs_push(Seq::empty(), list[0], q);
}

/// All external pages of a record can be read.
pub open spec fn can_read_record(cache: CacheState, record: Seq<u8>) -> bool {
    forall|q: u64|
        record_pages(cache.pages, record).contains(q) ==> #[trigger] cache.can_lock(q)
}

/// What can be read does not depend on the order of write back.
pub proof fn lemma_can_read_record(cache: CacheState, cache2: CacheState, record: Seq<u8>)
    requires
        can_read_record(cache, record),
        cache2.same_but_order(cache),
    ensures
        can_read_record(cache2, record),
{
    assert forall|q: u64|
        record_pages(cache2.pages, record).contains(q) implies #[trigger] cache2.can_lock(q) by {
        assert(cache.can_lock(q));
    }
}

/// The place of a byte of a text.
proof fn lemma_place(i: nat, k: int)
    requires
        0 <= k < OVERFLOW_DATA,
    ensures
        (i * OVERFLOW_DATA + k) / (OVERFLOW_DATA as int) == i,
        (i * OVERFLOW_DATA + k) % (OVERFLOW_DATA as int) == k,
{
    let d = OVERFLOW_DATA as int;
    vstd::arithmetic::div_mod::lemma_fundamental_div_mod_converse(
        i * d + k,
        d,
        i as int,
        k,
    );
}

/// One more page of a text was collected.
proof fn lemma_collected(
    pages: Map<u64, Seq<u8>>,
    first: u64,
    len: nat,
    i: nat,
    before: Seq<u8>,
    n: nat,
)
    requires
        chain_ok(pages, first, len),
        i < chunks(len),
        before == chain_text(pages, first, len).take((i * OVERFLOW_DATA) as int),
        i * OVERFLOW_DATA <= len,
        pages[follow(pages, first, i)].len() == PAGE_SIZE,
        n <= OVERFLOW_DATA,
        n == len - i * OVERFLOW_DATA || (n == OVERFLOW_DATA && n < len - i * OVERFLOW_DATA),
    ensures
        before + pages[follow(pages, first, i)].subrange(8, (8 + n) as int) == chain_text(
            pages,
            first,
            len,
        ).take(i * OVERFLOW_DATA + n),
        i * OVERFLOW_DATA + n < len ==> i + 1 < chunks(len) && lockable(
            follow(pages, first, i + 1),
        ) && follow(pages, first, i + 1) == le64(pages[follow(pages, first, i)], 0) as u64,
{
    let text = chain_text(pages, first, len);
    let page = pages[follow(pages, first, i)];
    let after = before + page.subrange(8, (8 + n) as int);
    assert forall|k: int| 0 <= k < i * OVERFLOW_DATA + n implies after[k] == text[k] by {
        if k >= i * OVERFLOW_DATA {
            lemma_place(i, k - i * OVERFLOW_DATA);
        }
    }
    assert(after =~= text.take(i * OVERFLOW_DATA + n));
    if i * OVERFLOW_DATA + n < len {
        lemma_last_chunk(i, len);
        lemma_last_chunk(i + 1, len);
        assert(lockable(follow(pages, first, i + 1)));
    }
}

/// Collects a text from external pages.
fn read_chain<S: PersistentStore>(
    first: Option<PageNum>,
    len: usize,
    page_cache: &mut PageCache<S>,
) -> (content: Vec<u8>)
    requires
        old(page_cache).inv(),
        first matches Some(num) && chain_ok(old(page_cache)@.pages, num@, len as nat) && forall|
            q: u64,
        |
            chain_pages(old(page_cache)@.pages, num@, len as nat).contains(q) ==> #[trigger] old(
                page_cache,
            )@.can_lock(q),
    ensures
        final(page_cache).inv(),
        final(page_cache)@.same_but_order(old(page_cache)@),
        content@ == chain_text(old(page_cache)@.pages, first->Some_0@, len as nat),
{
    let ghost pages = page_cache@.pages;
    let ghost start = first->Some_0@;
    let ghost text = chain_text(pages, start, len as nat);
    let mut length: usize = len;
    let mut current_pnum: Option<PageNum> = first;
    let mut content: Vec<u8> = Vec::new();
    let ghost mut i: nat = 0;
    proof {
        lemma_chunks(len as nat);
    }
    while length > 0
        invariant
            page_cache.inv(),
            page_cache@.same_but_order(old(page_cache)@),
            pages == old(page_cache)@.pages,
            text == chain_text(pages, start, len as nat),
            chain_ok(pages, start, len as nat),
            forall|q: u64|
                chain_pages(pages, start, len as nat).contains(q) ==> #[trigger] old(
                    page_cache,
                )@.can_lock(q),
            length <= len,
            content@ == text.take(len - length),
            length > 0 ==> len - length == i * OVERFLOW_DATA,
            length > 0 ==> i < chunks(len as nat)
                && page_num_view(current_pnum) == Some(follow(pages, start, i)),
        decreases length,
    {
        if let Some(num) = current_pnum {
            proof {
                let list = chain_pages(pages, start, len as nat);
                assert(list[i as int] == num@);
                assert(list.contains(num@));
                assert(old(page_cache)@.can_lock(num@));
            }
            let page = page_cache.read_page(num);
            current_pnum = PageNum::from_encoded(get_u64(&page, 0));
            let to_copy: usize = if length < OVERFLOW_DATA {
                length
            } else {
                OVERFLOW_DATA
            };
            let ghost before = content@;
            content.extend_from_slice(vstd::slice::slice_subrange(&page, 8, 8 + to_copy));
            proof {
                lemma_collected(pages, start, len as nat, i, before, to_copy as nat);
                lemma_last_chunk(i, len as nat);
                i = i + 1;
            }
            length = length - to_copy;
        } else {
            return content;
        }
    }
    assert(content@ =~= text);
    content
}

/// Reads the document in a record.
pub fn materialize_doc<S: PersistentStore>(
    document_bytes: &[u8],
    page_cache: &mut PageCache<S>,
) -> (document: Value)
    requires
        old(page_cache).inv(),
        record_ok(old(page_cache)@.pages, document_bytes@),
        can_read_record(old(page_cache)@, document_bytes@),
    ensures
        final(page_cache).inv(),
        final(page_cache)@.same_but_order(old(page_cache)@),
        document@ == record_json(old(page_cache)@.pages, document_bytes@),
        storable(document@),
{
    if document_bytes[0] >= FLAG_OVERFLOW {
        // This is using overflow pages
        let length: usize = get_u64(document_bytes, 1) as usize;
        let first = PageNum::from_encoded(get_u64(document_bytes, 9));
        assert(lockable(follow(page_cache@.pages, overflow_first(document_bytes@), 0))) by {
            lemma_chunks(overflow_len(document_bytes@));
        }
        let content = read_chain(first, length, page_cache);
        match parse_document(content.as_slice()) {
            Some(document) => document,
            None => Value::Null,
        }
    } else {
        // Stored inline
        match parse_document(vstd::slice::slice_subrange(document_bytes, 1, document_bytes.len())) {
            Some(document) => document,
            None => Value::Null,
        }
    }
}

/// A text was partly spread over `list`, of which the last page is still to be filled.
spec fn partly_written(
    pages: Map<u64, Seq<u8>>,
    list: Seq<u64>,
    text: Seq<u8>,
    done: nat,
) -> bool {
    &&& list.len() > 0
    &&& list.no_duplicates()
    &&& forall|i: int| 0 <= i < list.len() ==> lockable(#[trigger] list[i])
    &&& forall|i: int|
        0 <= i < list.len() - 1 ==> le64(pages[#[trigger] list[i]], 0) == list[i + 1]
    &&& done == (list.len() - 1) * OVERFLOW_DATA
    &&& done < text.len()
    &&& forall|k: int|
        0 <= k < done ==> #[trigger] text[k] == pages[list[k / OVERFLOW_DATA as int]][8 + k
            % OVERFLOW_DATA as int]
}

/// The last page of `list` was filled with `n` bytes and linked to `next`.
proof fn lemma_written(
    pages: Map<u64, Seq<u8>>,
    pages2: Map<u64, Seq<u8>>,
    list: Seq<u64>,
    text: Seq<u8>,
    done: nat,
    n: nat,
    next: Option<u64>,
)
    requires
        partly_written(pages, list, text, done),
        forall|q: u64| q != list.last() && list.contains(q) ==> #[trigger] pages2[q] == pages[q],
        le64(pages2[list.last()], 0) == encode_page_num(next),
        n <= OVERFLOW_DATA,
        forall|k: int| 0 <= k < n ==> #[trigger] pages2[list.last()][8 + k] == text[done + k],
        match next {
            Some(p) => n == OVERFLOW_DATA && n < text.len() - done && lockable(p)
                && !list.contains(p),
            None => n == text.len() - done,
        },
    ensures
        match next {
            Some(p) => partly_written(pages2, list.push(p), text, done + n),
            None => chain_ok(pages2, list[0], text.len()) && chain_pages(
                pages2,
                list[0],
                text.len(),
            ) == list && chain_text(pages2, list[0], text.len()) == text,
        },
{
    let m = list.len() - 1;
    lemma_last_chunk(m as nat, text.len());
    assert forall|i: int| 0 <= i < m implies pages2[#[trigger] list[i]] == pages[list[i]] by {
        assert(list.contains(list[i]));
    }
    assert forall|k: int| 0 <= k < done + n implies #[trigger] text[k]
        == pages2[list[k / OVERFLOW_DATA as int]][8 + k % OVERFLOW_DATA as int] by {
        if k >= done {
            lemma_place(m as nat, k - done);
            assert(pages2[list.last()][8 + (k - done)] == text[done + (k - done)]);
        } else {
            assert(0 <= (k / OVERFLOW_DATA as int) < m);
        }
    }
    match next {
        Some(p) => {
            let list2 = list.push(p);
            assert forall|i: int| 0 <= i < list2.len() - 1 implies le64(
                pages2[#[trigger] list2[i]],
                0,
            ) == list2[i + 1] by {
                if i < m {
                    assert(le64(pages[list[i]], 0) == list[i + 1]);
                }
            }
            lemma_last_chunk(list.len(), text.len());
            assert forall|k: int| 0 <= k < done + n implies #[trigger] text[k]
                == pages2[list2[k / OVERFLOW_DATA as int]][8 + k % OVERFLOW_DATA as int] by {
                assert(0 <= (k / OVERFLOW_DATA as int) <= m);
            }
        },
        None => {
            assert(list.len() == chunks(text.len()));
            assert forall|i: int| 0 <= i < list.len() implies le64(pages2[#[trigger] list[i]], 0)
                == (if i + 1 < list.len() {
                list[i + 1]
            } else {
                INVALID_PAGE
            }) by {
                if i < m {
                    assert(le64(pages[list[i]], 0) == list[i + 1]);
                }
            }
            lemma_chain_written(pages2, list, text);
        },
    }
}

/// The last page of `list` was filled, perhaps after a page was handed out.
proof fn lemma_chain_step(
    start: Map<u64, Seq<u8>>,
    now: Map<u64, Seq<u8>>,
    middle: Map<u64, Seq<u8>>,
    after: Map<u64, Seq<u8>>,
    free0: FreePages,
    free: FreePages,
    roots: Seq<u64>,
    extra: Seq<u64>,
    list: Seq<u64>,
    more: bool,
)
    requires
        layout(now, free, roots, extra + list),
        kept(start, free0, roots, extra, now, free, roots, extra + list),
        untouched(start, roots, extra, now),
        list.len() > 0,
        free.wf(),
        if more {
            free.frontier + 1 < INVALID_PAGE && forall|q: u64|
                q != SUPERBLOCK_FPID ==> #[trigger] middle[q] == now[q]
        } else {
            middle == now
        },
        forall|q: u64| q != list.last() ==> #[trigger] after[q] == middle[q],
    ensures
        ({
            let free2 = if more {
                free.taken()
            } else {
                free
            };
            let list2 = if more {
                list.push(free.next())
            } else {
                list
            };
            &&& layout(after, free2, roots, extra + list2)
            &&& kept(start, free0, roots, extra, after, free2, roots, extra + list2)
            &&& untouched(start, roots, extra, after)
            &&& more ==> !list.contains(free.next()) && lockable(free.next())
            &&& forall|q: u64| q != list.last() && list.contains(q) ==> #[trigger] after[q] == now[q]
        }),
{
    let all = extra + list;
    let p = list.last();
    let free2 = if more {
        free.taken()
    } else {
        free
    };
    let all2 = if more {
        all.push(free.next())
    } else {
        all
    };
    if more {
        free.lemma_alloc();
        lemma_layout_taken(now, middle, free, roots, all);
        lemma_kept_trans(
            start,
            free0,
            roots,
            extra,
            now,
            free,
            roots,
            all,
            middle,
            free2,
            roots,
            all2,
        );
        assert(all2 =~= extra + list.push(free.next()));
        lemma_occurs_push(all, free.next(), p);
    }
    lemma_occurs_at(list, list.len() - 1);
    lemma_occurs_concat(extra, list, p);
    lemma_layout_filled(middle, after, free2, roots, all2, p);
    lemma_kept_trans(
        start,
        free0,
        roots,
        extra,
        middle,
        free2,
        roots,
        all2,
        after,
        free2,
        roots,
        all2,
    );
    assert forall|q: u64| list.contains(q) implies free.in_use(q) by {
        let i = list.index_of(q);
        lemma_occurs_at(list, i);
        lemma_occurs_concat(extra, list, q);
        assert(pages_used(now, roots, all, q) > 0);
    }
    assert forall|q: u64| #[trigger] occurs(extra, q) > 0 implies after[q] == start[q] by {
        lemma_occurs_concat(extra, list, q);
        assert(pages_used(now, roots, all, q) <= 1);
        assert(pages_used(now, roots, all, q) > 0);
        assert(free.in_use(q));
    }
}

/// Spreads a text over external pages. The text stands in `content`, behind one
/// byte for the flags.
#[verifier::rlimit(30)]
pub(crate) fn write_chain<S: PersistentStore>(
    content: &[u8],
    page_cache: &mut PageCache<S>,
    page_allocator: &mut PageAllocator,
    Ghost(roots): Ghost<Seq<u64>>,
    Ghost(extra): Ghost<Seq<u64>>,
) -> (first: PageNum)
    requires
        content@.len() > 1,
        old(page_cache).inv(),
        can_write(old(page_cache)@),
        old(page_allocator).inv(old(page_cache)@.pages),
        layout(old(page_cache)@.pages, old(page_allocator)@, roots, extra),
        can_allocate(*old(page_allocator), chunks((content@.len() - 1) as nat)),
        room(old(page_cache)@) >= fresh_slots(
            old(page_cache)@,
            old(page_allocator)@,
            chunks((content@.len() - 1) as nat),
        ),
    ensures
        final(page_cache).inv(),
        same_session(final(page_cache)@, old(page_cache)@),
        final(page_allocator).inv(final(page_cache)@.pages),
        final(page_allocator).balance() == old(page_allocator).balance(),
        ({
            let len = (content@.len() - 1) as nat;
            let pages2 = final(page_cache)@.pages;
            let list = chain_pages(pages2, first@, len);
            &&& chain_ok(pages2, first@, len)
            &&& chain_text(pages2, first@, len) == content@.skip(1)
            &&& layout(pages2, final(page_allocator)@, roots, extra + list)
            &&& kept(
                old(page_cache)@.pages,
                old(page_allocator)@,
                roots,
                extra,
                pages2,
                final(page_allocator)@,
                roots,
                extra + list,
            )
            &&& untouched(old(page_cache)@.pages, roots, extra, pages2)
            &&& final(page_allocator).allocs() == old(page_allocator).allocs() + chunks(len)
            &&& final(page_allocator).frees() == old(page_allocator).frees()
            &&& final(page_allocator)@ == old(page_allocator)@.taken_many(chunks(len))
            &&& final(page_allocator)@.frontier <= old(page_allocator)@.frontier + chunks(len)
            &&& no_colder(old(page_cache)@, final(page_cache)@)
            &&& room(final(page_cache)@) >= room(old(page_cache)@) - fresh_slots(
                old(page_cache)@,
                old(page_allocator)@,
                chunks(len),
            )
        }),
{
    let ghost text = content@.skip(1);
    let ghost len = text.len();
    let ghost start = page_cache@;
    let ghost free0 = page_allocator@;
    let ghost before = page_cache@;
    proof {
        lemma_chunks(len);
        page_allocator.lemma_wf(page_cache@.pages);
        free0.lemma_alloc();
        free0.lemma_taken_many(0, 1);
        lemma_fresh_slots(start, free0, 1, (chunks(len) - 1) as nat);
        assert(fresh_slots(start, free0, 1) == slot_for(start, free0.next())) by {
            reveal_with_fuel(fresh_slots, 2);
        }
    }
    let first = page_allocator.allocate(page_cache);
    let ghost mut list = seq![first@];
    proof {
        lemma_layout_taken(before.pages, page_cache@.pages, free0, roots, extra);
        assert(extra.push(first@) =~= extra + list);
    }
    let mut num = first;
    let mut offset: usize = 1;
    while offset < content.len()
        invariant
            page_cache.inv(),
            same_session(page_cache@, start),
            start == old(page_cache)@,
            can_write(start),
            free0 == old(page_allocator)@,
            page_allocator.inv(page_cache@.pages),
            page_allocator.balance() == old(page_allocator).balance(),
            text == content@.skip(1),
            len == text.len(),
            1 <= offset <= content@.len(),
            layout(page_cache@.pages, page_allocator@, roots, extra + list),
            kept(
                start.pages,
                free0,
                roots,
                extra,
                page_cache@.pages,
                page_allocator@,
                roots,
                extra + list,
            ),
            untouched(start.pages, roots, extra, page_cache@.pages),
            list.len() <= chunks(len),
            list[0] == first@,
            page_allocator.allocs() == old(page_allocator).allocs() + list.len(),
            page_allocator.frees() == old(page_allocator).frees(),
            page_allocator@.frontier <= free0.frontier + list.len(),
            can_allocate(*old(page_allocator), chunks(len)),
            room(start) >= fresh_slots(start, free0, chunks(len)),
            no_colder(start, page_cache@),
            page_allocator@ == free0.taken_many(list.len()),
            list.len() > 0,
            list.last() == free0.taken_many((list.len() - 1) as nat).next(),
            offset == content@.len() ==> list.len() == chunks(len),
            offset < content@.len() ==> partly_written(
                page_cache@.pages,
                list,
                text,
                (offset - 1) as nat,
            ) && num@ == list.last() && room(page_cache@) >= room(start) - fresh_slots(
                start,
                free0,
                (list.len() - 1) as nat,
            ),
            offset == content@.len() ==> chain_ok(page_cache@.pages, first@, len) && chain_pages(
                page_cache@.pages,
                first@,
                len,
            ) == list && chain_text(page_cache@.pages, first@, len) == text && room(page_cache@)
                >= room(start) - fresh_slots(start, free0, list.len()),
        decreases content@.len() - offset,
    {
        let ghost now = page_cache@;
        let ghost free = page_allocator@;
        let ghost all = extra + list;
        proof {
            lemma_chunks(len);
            page_allocator.lemma_wf(page_cache@.pages);
            lemma_slot_for(start, now, num@);
            lemma_slot_for(start, now, free.next());
            lemma_fresh_slots(start, free0, list.len(), (chunks(len) - list.len()) as nat);
            if list.len() < chunks(len) {
                lemma_fresh_slots(
                    start,
                    free0,
                    list.len() + 1,
                    (chunks(len) - list.len() - 1) as nat,
                );
            }
            lemma_occurs_at(list, list.len() - 1);
            lemma_occurs_concat(extra, list, num@);
        }
        let mut page = page_cache.read_page(num);
        let remaining: usize = content.len() - offset;
        let to_copy: usize = if remaining < OVERFLOW_DATA {
            remaining
        } else {
            OVERFLOW_DATA
        };
        copy_into(
            &mut page,
            8,
            vstd::slice::slice_subrange(content, offset, offset + to_copy),
        );
        let ghost filled = page@;
        let next: Option<PageNum> = if offset + to_copy < content.len() {
            proof {
                lemma_last_chunk((list.len() - 1) as nat, len);
                lemma_last_chunk(list.len(), len);
                free.lemma_alloc();
            }
            Some(page_allocator.allocate(page_cache))
        } else {
            None
        };
        let ghost middle = page_cache@;
        set_u64(&mut page, 0, next.to_encoded());
        page_cache.write_page(num, &page);
        proof {
            let done = (offset - 1) as nat;
            let after = page_cache@;
            let p = num@;
            assert(pages_used(now.pages, roots, all, p) > 0);
            assert(free.in_use(p));
            page_allocator.lemma_wf(middle.pages);
            if next is Some {
                assert(page_allocator@.in_use(p));
            }
            page_allocator.lemma_inv(middle.pages, after.pages);
            lemma_chain_step(
                start.pages,
                now.pages,
                middle.pages,
                after.pages,
                free0,
                free,
                roots,
                extra,
                list,
                next is Some,
            );
            assert forall|k: int| 0 <= k < to_copy implies #[trigger] after.pages[p][8 + k]
                == text[done + k] by {
                assert(after.pages[p][8 + k] == filled[8 + k]);
                assert(filled[8 + k] == content@[offset + k]);
            }
            lemma_written(
                now.pages,
                after.pages,
                list,
                text,
                done,
                to_copy as nat,
                page_num_view(next),
            );
        }
        offset = offset + to_copy;
        if let Some(next_num) = next {
            proof {
                assert((extra + list).push(next_num@) =~= extra + list.push(next_num@));
                list = list.push(next_num@);
            }
            num = next_num;
        }
    }
    first
}

/// Whether the document in a record can be read.
pub(crate) fn record_ready<S: PersistentStore>(
    record: &[u8],
    page_cache: &mut PageCache<S>,
) -> (ready: bool)
    requires
        old(page_cache).inv(),
        old(page_cache)@.unsaturated(),
        record_ok(old(page_cache)@.pages, record@),
    ensures
        final(page_cache).inv(),
        final(page_cache)@.same_but_order(old(page_cache)@),
        ready ==> can_read_record(old(page_cache)@, record@),
        !ready ==> {
            let list = record_pages(old(page_cache)@.pages, record@);
            &&& old(page_cache)@.available == 0
            &&& exists|q: u64| #[trigger] list.contains(q) && old(page_cache)@.idle(q)
        },
{
    let ghost start = page_cache@;
    let ghost list = record_pages(start.pages, record@);
    if record[0] < FLAG_OVERFLOW {
        return true;
    }
    let ghost len = overflow_len(record@);
    let ghost at = overflow_first(record@);
    proof {
        lemma_chunks(len);
        assert(lockable(follow(start.pages, at, 0)));
    }
    let mut current_pnum: Option<PageNum> = PageNum::from_encoded(get_u64(record, 9));
    let ghost mut i: nat = 0;
    if page_cache.free_slots() > 0 {
        proof {
            assert forall|q: u64| list.contains(q) implies #[trigger] start.can_lock(q) by {
                let j = list.index_of(q);
                assert(lockable(follow(start.pages, at, j as nat)));
                assert(start.refs[q] < u32::MAX);
            }
        }
        return true;
    }
    while current_pnum.is_some()
        invariant
            page_cache.inv(),
            page_cache@.same_but_order(start),
            start == old(page_cache)@,
            start.unsaturated(),
            start.available == 0,
            chain_ok(start.pages, at, len),
            list == chain_pages(start.pages, at, len),
            list == record_pages(start.pages, record@),
            list.len() == chunks(len),
            i <= list.len(),
            page_num_view(current_pnum) == (if i < list.len() {
                Some(list[i as int])
            } else {
                None
            }),
            forall|j: int| 0 <= j < i ==> start.can_lock(#[trigger] list[j]),
        decreases list.len() - i,
    {
        let pnum = current_pnum.unwrap();
        proof {
            assert(list[i as int] == pnum@);
            assert(list[i as int] == follow(start.pages, at, i));
            assert(lockable(follow(start.pages, at, i)));
            assert(list.contains(pnum@));
            assert(start.refs[pnum@] < u32::MAX);
        }
        if page_cache.is_idle(pnum) {
            return false;
        }
        let page = page_cache.read_page(pnum);
        current_pnum = PageNum::from_encoded(get_u64(&page, 0));
        proof {
            if i + 1 < list.len() {
                assert(list[(i + 1) as int] == follow(start.pages, at, i + 1));
                assert(lockable(follow(start.pages, at, i + 1)));
            }
            i = i + 1;
        }
    }
    proof {
        assert forall|q: u64| list.contains(q) implies #[trigger] start.can_lock(q) by {
            let j = list.index_of(q);
            assert(start.can_lock(list[j]));
        }
    }
    true
}

/// How many slots of the cache it takes to give the external pages of a text back.
pub(crate) fn count_idle<S: PersistentStore>(
    first: Option<PageNum>,
    page_cache: &mut PageCache<S>,
    Ghost(len): Ghost<nat>,
) -> (count: u128)
    requires
        old(page_cache).inv(),
        len <= u64::MAX,
        first matches Some(num) && chain_ok(old(page_cache)@.pages, num@, len) && forall|q: u64|
            chain_pages(old(page_cache)@.pages, num@, len).contains(q) ==> #[trigger] old(
                page_cache,
            )@.can_lock(q),
    ensures
        final(page_cache).inv(),
        final(page_cache)@.same_but_order(old(page_cache)@),
        count == idle_count(
            old(page_cache)@,
            chain_pages(old(page_cache)@.pages, first->Some_0@, len),
        ),
        count <= u64::MAX,
{
    let ghost start = page_cache@;
    let ghost list = chain_pages(start.pages, first->Some_0@, len);
    let ghost mut i: nat = 0;
    let mut current_pnum: Option<PageNum> = first;
    let mut count: u128 = 0;
    proof {
        lemma_chunks(len);
        assert(chunks(len) <= len) by (nonlinear_arith)
            requires
                chunks(len) == ((len + OVERFLOW_DATA - 1) / (OVERFLOW_DATA as int)),
                len > 0,
                OVERFLOW_DATA > 0,
        ;
        assert(list.take(0) =~= Seq::<u64>::empty());
    }
    while current_pnum.is_some()
        invariant
            page_cache.inv(),
            page_cache@.same_but_order(start),
            start == old(page_cache)@,
            first is Some,
            chain_ok(start.pages, first->Some_0@, len),
            list == chain_pages(start.pages, first->Some_0@, len),
            list.len() == chunks(len),
            list.len() <= u64::MAX,
            forall|q: u64| list.contains(q) ==> #[trigger] start.can_lock(q),
            i <= list.len(),
            page_num_view(current_pnum) == (if i < list.len() {
                Some(list[i as int])
            } else {
                None
            }),
            count == idle_count(start, list.take(i as int)),
            count <= i,
        decreases list.len() - i,
    {
        let pnum = current_pnum.unwrap();
        proof {
            assert(list[i as int] == pnum@);
            assert(list.contains(pnum@));
            assert(start.can_lock(pnum@));
            lemma_idle_count_take(start, list, i as int);
        }
        if page_cache.is_idle(pnum) {
            count = count + 1;
        }
        let page = page_cache.read_page(pnum);
        current_pnum = PageNum::from_encoded(get_u64(&page, 0));
        proof {
            assert(list[i as int] == follow(start.pages, first->Some_0@, i));
            if i + 1 < list.len() {
                assert(list[(i + 1) as int] == follow(start.pages, first->Some_0@, i + 1));
                assert(lockable(follow(start.pages, first->Some_0@, i + 1)));
            }
            i = i + 1;
        }
    }
    assert(list.take(i as int) =~= list);
    count
}

/// Gives the external pages of a text back.
pub(crate) fn free_chain<S: PersistentStore>(
    first: Option<PageNum>,
    page_cache: &mut PageCache<S>,
    page_allocator: &mut PageAllocator,
    Ghost(len): Ghost<nat>,
    Ghost(roots): Ghost<Seq<u64>>,
    Ghost(extra): Ghost<Seq<u64>>,
    Ghost(rest): Ghost<Seq<u64>>,
)
    requires
        old(page_cache).inv(),
        can_write(old(page_cache)@),
        old(page_allocator).inv(old(page_cache)@.pages),
        first matches Some(num) && chain_ok(old(page_cache)@.pages, num@, len) && forall|q: u64|
            #[trigger]
            occurs(extra, q) == occurs(rest, q) + occurs(
                chain_pages(old(page_cache)@.pages, num@, len),
                q,
            ),
        layout(old(page_cache)@.pages, old(page_allocator)@, roots, extra),
        old(page_allocator).frees() + chunks(len) <= usize::MAX,
        room(old(page_cache)@) >= idle_count(
            old(page_cache)@,
            chain_pages(old(page_cache)@.pages, first->Some_0@, len),
        ),
    ensures
        final(page_cache).inv(),
        same_session(final(page_cache)@, old(page_cache)@),
        final(page_allocator).inv(final(page_cache)@.pages),
        final(page_allocator).balance() == old(page_allocator).balance(),
        layout(final(page_cache)@.pages, final(page_allocator)@, roots, rest),
        kept(
            old(page_cache)@.pages,
            old(page_allocator)@,
            roots,
            extra,
            final(page_cache)@.pages,
            final(page_allocator)@,
            roots,
            rest,
        ),
        untouched(old(page_cache)@.pages, roots, rest, final(page_cache)@.pages),
        final(page_allocator).allocs() == old(page_allocator).allocs(),
        final(page_allocator).frees() == old(page_allocator).frees() + chunks(len),
        final(page_allocator)@.frontier == old(page_allocator)@.frontier,
        no_colder(old(page_cache)@, final(page_cache)@),
        room(final(page_cache)@) >= room(old(page_cache)@) - idle_count(
            old(page_cache)@,
            chain_pages(old(page_cache)@.pages, first->Some_0@, len),
        ),
{
    let ghost start = page_cache@;
    let ghost free0 = page_allocator@;
    let ghost list = chain_pages(start.pages, first->Some_0@, len);
    let ghost mut i: nat = 0;
    let mut current_pnum: Option<PageNum> = first;
    proof {
        lemma_chunks(len);
        assert(list.skip(0) =~= list);
        assert forall|q: u64| #[trigger] occurs(rest + list, q) == occurs(extra, q) by {
            lemma_occurs_concat(rest, list, q);
            assert(occurs(extra, q) == occurs(rest, q) + occurs(list, q));
        }
        lemma_layout_counts(start.pages, free0, roots, extra, rest + list);
    }
    while current_pnum.is_some()
        invariant
            page_cache.inv(),
            same_session(page_cache@, start),
            start == old(page_cache)@,
            can_write(start),
            page_allocator.inv(page_cache@.pages),
            page_allocator.balance() == old(page_allocator).balance(),
            first is Some,
            chain_ok(start.pages, first->Some_0@, len),
            list == chain_pages(start.pages, first->Some_0@, len),
            list.len() == chunks(len),
            i <= list.len(),
            page_num_view(current_pnum) == (if i < list.len() {
                Some(list[i as int])
            } else {
                None
            }),
            forall|j: int|
                i <= j < list.len() ==> page_cache@.pages[#[trigger] list[j]]
                    == start.pages[list[j]],
            layout(page_cache@.pages, page_allocator@, roots, rest + list.skip(i as int)),
            kept(
                start.pages,
                free0,
                roots,
                extra,
                page_cache@.pages,
                page_allocator@,
                roots,
                rest + list.skip(i as int),
            ),
            untouched(start.pages, roots, rest, page_cache@.pages),
            page_allocator.allocs() == old(page_allocator).allocs(),
            page_allocator.frees() == old(page_allocator).frees() + i,
            page_allocator@.frontier == old(page_allocator)@.frontier,
            old(page_allocator).frees() + chunks(len) <= usize::MAX,
            no_colder(start, page_cache@),
            room(start) >= idle_count(start, list),
            room(page_cache@) >= room(start) - idle_count(start, list.take(i as int)),
        decreases list.len() - i,
    {
        let pnum = current_pnum.unwrap();
        let ghost now = page_cache@;
        let ghost free = page_allocator@;
        let ghost all = rest + list.skip(i as int);
        let ghost all2 = rest + list.skip((i + 1) as int);
        proof {
            page_allocator.lemma_wf(now.pages);
            assert(list.skip(i as int)[0] == pnum@);
            lemma_occurs_at(list.skip(i as int), 0);
            lemma_occurs_concat(rest, list.skip(i as int), pnum@);
            lemma_layout_single(now.pages, free, roots, all, pnum@);
            lemma_idle_count_take(start, list, i as int);
            lemma_slot_for(start, now, pnum@);
        }
        let page = page_cache.read_page(pnum);
        let next_page = PageNum::from_encoded(get_u64(&page, 0));
        page_allocator.free(pnum, page_cache);
        proof {
            let p = pnum@;
            assert forall|q: u64| #[trigger] occurs(all, q) == occurs(all2, q) + (if q == p {
                1nat
            } else {
                0nat
            }) by {
                lemma_occurs_first(list.skip(i as int), q);
                assert(list.skip(i as int).skip(1) =~= list.skip((i + 1) as int));
                lemma_occurs_concat(rest, list.skip(i as int), q);
                lemma_occurs_concat(rest, list.skip((i + 1) as int), q);
            }
            lemma_layout_given(now.pages, page_cache@.pages, free, roots, all, all2, p);
            lemma_kept_trans(
                start.pages,
                free0,
                roots,
                extra,
                now.pages,
                free,
                roots,
                all,
                page_cache@.pages,
                page_allocator@,
                roots,
                all2,
            );
            assert forall|j: int| i + 1 <= j < list.len() implies page_cache@.pages[
                #[trigger] list[j]] == start.pages[list[j]] by {
                assert(list.skip((i + 1) as int)[j - i - 1] == list[j]);
                lemma_occurs_at(list.skip((i + 1) as int), j - i - 1);
                lemma_occurs_concat(rest, list.skip((i + 1) as int), list[j]);
            }
            assert forall|q: u64| #[trigger] occurs(rest, q) > 0 implies page_cache@.pages[q]
                == start.pages[q] by {
                lemma_occurs_concat(rest, list.skip((i + 1) as int), q);
                assert(occurs(all2, q) > 0);
            }
            assert(list[i as int] == follow(start.pages, first->Some_0@, i));
            if i + 1 < list.len() {
                assert(list[(i + 1) as int] == follow(start.pages, first->Some_0@, i + 1));
                assert(lockable(follow(start.pages, first->Some_0@, i + 1)));
            }
            i = i + 1;
        }
        current_pnum = next_page;
    }
    assert(rest + list.skip(i as int) =~= rest);
}

/// A text takes as many external pages as are needed for 8184 bytes each, and no more.
pub proof fn law_external_pages_hold_the_text(len: nat)
    ensures
        chunks(len) * 8184 >= len,
        len > 0 ==> (chunks(len) - 1) * 8184 < len,
        len == 0 ==> chunks(len) == 0,
{
}

/// A record without the flag holds its text behind the first byte. One with the flag holds the
/// length of the text and the first of the pages with it, each of which names the next one and
/// holds 8184 bytes, the last one what is left.
pub proof fn law_text_of_a_record(pages: Map<u64, Seq<u8>>, record: Seq<u8>, k: int)
    requires
        record.len() > 0,
    ensures
        record[0] < 0x80 ==> record_text(pages, record) == record.skip(1) && record_pages(
            pages,
            record,
        ).len() == 0,
        record[0] >= 0x80 ==> {
            let len = le64(record, 1);
            let list = record_pages(pages, record);
            &&& record_text(pages, record).len() == len
            &&& list.len() == chunks(len as nat)
            &&& len > 0 ==> list[0] == le64(record, 9)
            &&& forall|i: int|
                0 <= i < list.len() - 1 ==> #[trigger] list[i + 1] == le64(pages[list[i]], 0)
            &&& 0 <= k < len ==> record_text(pages, record)[k] == pages[list[k / 8184]][8 + k
                % 8184]
        },
{
    if record[0] >= 0x80 {
        let first = overflow_first(record);
        let len = overflow_len(record);
        let list = record_pages(pages, record);
        assert forall|i: int| 0 <= i < list.len() - 1 implies #[trigger] list[i + 1] == le64(
            pages[list[i]],
            0,
        ) by {
            assert(list[i] == follow(pages, first, i as nat));
            assert(list[i + 1] == follow(pages, first, (i + 1) as nat));
        }
        if 0 <= k < len {
            assert(0 <= k / 8184 < chunks(len));
        }
    }
}

} // verus!
