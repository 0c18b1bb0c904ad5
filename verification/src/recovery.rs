//! What the write ahead log is for: wherever a commit is interrupted, a replay
//! brings the file to the state before the transaction or to the one after it.

use vstd::prelude::*;

use crate::page_cache::{
    apply_op, apply_ops, commit_ops, lemma_apply_concat, lemma_apply_push, lockable,
    write_back_ops, PageCache, PersistentStore, StoreOp, INVALID_PAGE, LOG_PAGES, PAGE_SIZE,
};
use crate::util::{
    checksum_spec, checksum_sums, le16, le16_bytes, le32, le32_bytes, le64, le64_bytes,
    lemma_le16_frame, lemma_le16_roundtrip, lemma_le32_frame, lemma_le32_roundtrip,
    lemma_le64_frame, lemma_le64_roundtrip, overwrite, seq_after,
};
use crate::wal::{
    header_valid, next_u32, page_header_offs, seal_header, LogState, HEADER_BLOCKS, LH_HEAD_OFFS,
    LH_SEQ_OFFS, LH_TAIL_OFFS,
};

verus! {

/// The block that is `i` blocks behind the head in the circular buffer.
pub open spec fn wrap(log: LogState, i: nat) -> nat {
    log.block_after(log.head, i)
}

/// The log has a block for each of the pages, and one to spare.
pub open spec fn loggable(log: LogState, pages: Seq<(u64, Seq<u8>)>) -> bool {
    pages.len() < log.blocks && distinct_data(log, pages)
}

/// The page numbers are different, and none belongs to the log.
pub open spec fn distinct_data(log: LogState, pages: Seq<(u64, Seq<u8>)>) -> bool {
    &&& forall|i: int|
        0 <= i < pages.len() ==> !log.owns((#[trigger] pages[i]).0) && pages[i].0 != INVALID_PAGE
    &&& forall|i: int, j: int|
        0 <= i < j < pages.len() ==> (#[trigger] pages[i]).0 != (#[trigger] pages[j]).0
}

/// The store with `pages` written over it.
pub open spec fn overlay(
    store: Map<u64, Seq<u8>>,
    pages: Seq<(u64, Seq<u8>)>,
) -> Map<u64, Seq<u8>>
    decreases pages.len(),
{
    if pages.len() == 0 {
        store
    } else {
        overlay(store, pages.drop_last()).insert(pages.last().0, pages.last().1)
    }
}

proof fn lemma_overlay(store: Map<u64, Seq<u8>>, pages: Seq<(u64, Seq<u8>)>, q: u64)
    requires
        forall|i: int, j: int|
            0 <= i < j < pages.len() ==> (#[trigger] pages[i]).0 != (#[trigger] pages[j]).0,
    ensures
        (forall|i: int| 0 <= i < pages.len() ==> (#[trigger] pages[i]).0 != q) ==> overlay(
            store,
            pages,
        )[q] == store[q],
        forall|i: int|
            0 <= i < pages.len() && (#[trigger] pages[i]).0 == q ==> overlay(store, pages)[q]
                == pages[i].1,
    decreases pages.len(),
{
    if pages.len() > 0 {
        let rest = pages.drop_last();
        assert forall|i: int, j: int| 0 <= i < j < rest.len() implies (#[trigger] rest[i]).0 != (
        #[trigger] rest[j]).0 by {
            assert(pages[i].0 != pages[j].0);
        }
        lemma_overlay(store, rest, q);
        assert forall|i: int| 0 <= i < pages.len() && (#[trigger] pages[i]).0 == q implies overlay(
            store,
            pages,
        )[q] == pages[i].1 by {
            if i < rest.len() {
                assert(rest[i] == pages[i]);
                assert(pages[i].0 != pages[pages.len() - 1].0);
            }
        }
        if forall|i: int| 0 <= i < pages.len() ==> (#[trigger] pages[i]).0 != q {
            assert(pages[pages.len() - 1].0 != q);
            assert forall|i: int| 0 <= i < rest.len() implies (#[trigger] rest[i]).0 != q by {
                assert(pages[i].0 != q);
            }
        }
    }
}

/// The bytes of a header where a block's metadata stands.
proof fn lemma_target_frame(log: LogState, num: u64, block: nat)
    requires
        log.wf(),
        block < log.blocks,
    ensures
        log.log_block(num).target(block) == (if block == log.head {
            num as int
        } else {
            log.target(block)
        }),
        log.log_block(num).header.len() == PAGE_SIZE,
        le16(log.log_block(num).header, LH_HEAD_OFFS as int) == le16(
            log.header,
            LH_HEAD_OFFS as int,
        ),
        le16(log.log_block(num).header, LH_TAIL_OFFS as int) == le16(
            log.header,
            LH_TAIL_OFFS as int,
        ),
{
    lemma_le32_roundtrip(log.next_transaction_id);
    lemma_le64_roundtrip(num);
    let offs = page_header_offs(log.head);
    let h1 = overwrite(log.header, offs, le32_bytes(log.next_transaction_id));
    let b = le64_bytes(num);
    let h2 = overwrite(h1, offs + 4, b);
    assert(log.log_block(num).header == h2);
    if block == log.head {
        assert(forall|i: int| 0 <= i < 8 ==> h2[offs + 4 + i] == b[i]);
        assert(le64(h2, offs + 4) == le64(b, 0));
    } else {
        let x = page_header_offs(block) + 4;
        assert(x + 8 <= offs || offs + 12 <= x);
        lemma_le64_frame(log.header, offs, le32_bytes(log.next_transaction_id), x);
        lemma_le64_frame(h1, offs + 4, b, x);
    }
    lemma_le16_frame(log.header, offs, le32_bytes(log.next_transaction_id), 8);
    lemma_le16_frame(h1, offs + 4, b, 8);
    lemma_le16_frame(log.header, offs, le32_bytes(log.next_transaction_id), 10);
    lemma_le16_frame(h1, offs + 4, b, 10);
}

/// After logging, each block of the transaction has its page number in the
/// header and its bytes in the buffer.
#[verifier::rlimit(40)]
#[verifier::spinoff_prover]
proof fn lemma_logged(log: LogState, pages: Seq<(u64, Seq<u8>)>, store: Map<u64, Seq<u8>>)
    requires
        log.wf(),
        pages.len() < log.blocks,
    ensures
        ({
            let after = log.log_blocks(pages);
            let disk = apply_ops(store, log.log_block_ops(pages));
            &&& after.wf()
            &&& after.head == wrap(log, pages.len())
            &&& le16(after.header, LH_HEAD_OFFS as int) == le16(log.header, LH_HEAD_OFFS as int)
            &&& le16(after.header, LH_TAIL_OFFS as int) == le16(log.header, LH_TAIL_OFFS as int)
            &&& forall|i: int|
                0 <= i < pages.len() ==> after.target(wrap(log, i as nat)) == (#[trigger] pages[i]).0
            &&& forall|i: int|
                0 <= i < pages.len() ==> disk[log.block_page(wrap(log, i as nat))] == (
                #[trigger] pages[i]).1
            &&& disk[log.start] == store[log.start]
            &&& disk[(log.start + 1) as u64] == store[(log.start + 1) as u64]
        }),
    decreases pages.len(),
{
    if pages.len() > 0 {
        let rest = pages.drop_last();
        lemma_logged(log, rest, store);
        log.lemma_log_blocks_keeps(rest);
        let mid = log.log_blocks(rest);
        let after = log.log_blocks(pages);
        let n = rest.len();
        assert(mid.head == wrap(log, n));
        let op = StoreOp::Write(mid.block_page(mid.head), pages.last().1);
        lemma_apply_push(store, log.log_block_ops(rest), op);
        let disk0 = apply_ops(store, log.log_block_ops(rest));
        let disk = apply_ops(store, log.log_block_ops(pages));
        assert(disk == disk0.insert(mid.block_page(mid.head), pages.last().1));
        vstd::arithmetic::div_mod::lemma_small_mod(mid.head, log.blocks);
        if mid.head + 1 == log.blocks {
            vstd::arithmetic::div_mod::lemma_mod_self_0(log.blocks as int);
        } else {
            vstd::arithmetic::div_mod::lemma_small_mod(mid.head + 1, log.blocks);
        }
        assert(after.head == wrap(log, pages.len()));
        lemma_target_frame(mid, pages.last().0, 0);
        assert forall|i: int| 0 <= i < pages.len() implies after.target(wrap(log, i as nat)) == (
        #[trigger] pages[i]).0 by {
            lemma_target_frame(mid, pages.last().0, wrap(log, i as nat));
            if i < n {
                assert(rest[i] == pages[i]);
            }
        }
        assert forall|i: int| 0 <= i < pages.len() implies disk[log.block_page(
            wrap(log, i as nat),
        )] == (#[trigger] pages[i]).1 by {
            if i < n {
                assert(rest[i] == pages[i]);
                assert(log.block_page(wrap(log, i as nat)) != mid.block_page(mid.head));
            }
        }
    }
}

/// Replaying blocks writes their pages over the store.
proof fn lemma_replayed(
    log: LogState,
    from: LogState,
    pages: Seq<(u64, Seq<u8>)>,
    store: Map<u64, Seq<u8>>,
    i: nat,
    q: u64,
)
    requires
        log.wf(),
        from.wf(),
        from.start == log.start,
        from.blocks == log.blocks,
        i <= pages.len(),
        loggable(from, pages),
        forall|j: int|
            0 <= j < pages.len() ==> log.target(wrap(from, j as nat)) == (#[trigger] pages[j]).0,
        forall|j: int|
            0 <= j < pages.len() ==> store[log.block_page(wrap(from, j as nat))] == (
            #[trigger] pages[j]).1,
    ensures
        ({
            let ops = log.replay_ops(store, wrap(from, i), (pages.len() - i) as nat);
            let after = apply_ops(store, ops);
            &&& (forall|j: int| i <= j < pages.len() ==> (#[trigger] pages[j]).0 != q)
                ==> after[q] == store[q]
            &&& forall|j: int|
                i <= j < pages.len() && (#[trigger] pages[j]).0 == q ==> after[q] == pages[j].1
        }),
    decreases pages.len() - i,
{
    if i < pages.len() {
        let op = log.replay_op(store, wrap(from, i));
        let store1 = apply_op(store, op);
        assert(op == StoreOp::Write(pages[i as int].0, pages[i as int].1));
        assert forall|j: int| 0 <= j < pages.len() implies store1[log.block_page(
            wrap(from, j as nat),
        )] == (#[trigger] pages[j]).1 by {
            assert(!from.owns(pages[i as int].0));
        }
        lemma_replayed(log, from, pages, store1, i + 1, q);
        assert(log.next_block(wrap(from, i)) == wrap(from, i + 1));
        let rest = log.replay_ops(store1, wrap(from, i + 1), (pages.len() - i - 1) as nat);
        assert(log.replay_ops(store, wrap(from, i), (pages.len() - i) as nat) == seq![op] + rest);
        lemma_apply_concat(store, seq![op], rest);
        assert(seq![op].drop_last() =~= Seq::<StoreOp>::empty());
        assert(apply_ops(store, seq![op]) == store1) by {
            reveal_with_fuel(apply_ops, 2);
        }
        assert forall|j: int| i <= j < pages.len() && (#[trigger] pages[j]).0 == q implies apply_ops(
            store,
            seq![op] + rest,
        )[q] == pages[j].1 by {
            if j == i {
                assert forall|k: int| i + 1 <= k < pages.len() implies (#[trigger] pages[k]).0 != q by {
                    assert(pages[j].0 != pages[k].0);
                }
            }
        }
    }
}

/// A sealed header is valid, carries its number, and keeps the rest.
proof fn lemma_sealed(header: Seq<u8>, seq: u32)
    requires
        header.len() == PAGE_SIZE,
    ensures
        seal_header(header, seq).len() == PAGE_SIZE,
        header_valid(seal_header(header, seq)),
        le32(seal_header(header, seq), LH_SEQ_OFFS as int) == seq,
        forall|i: int| 8 <= i < PAGE_SIZE ==> #[trigger] seal_header(header, seq)[i] == header[i],
{
    lemma_le32_roundtrip(seq);
    let numbered = overwrite(header, 4, le32_bytes(seq));
    let sum = checksum_spec(numbered.subrange(4, PAGE_SIZE as int));
    lemma_le32_roundtrip(sum);
    let sealed = seal_header(header, seq);
    assert(sealed.subrange(4, PAGE_SIZE as int) =~= numbered.subrange(4, PAGE_SIZE as int));
    let b = le32_bytes(sum);
    assert(le32(sealed, 0) == le32(b, 0));
    let c = le32_bytes(seq);
    assert(le32(sealed, 4) == le32(c, 0));
}

/// The newest header on disk has the number `seq`: it stands in its page, and
/// the other page holds no header or the one before.
pub open spec fn newest_is(log: LogState, store: Map<u64, Seq<u8>>, seq: u32) -> bool {
    let here = store[log.header_page(seq)];
    let there = store[log.header_page(next_u32(seq))];
    &&& header_valid(here)
    &&& le32(here, LH_SEQ_OFFS as int) == seq
    &&& here.len() == PAGE_SIZE
    &&& header_valid(there) ==> next_u32(le32(there, LH_SEQ_OFFS as int) as u32) == seq
}

/// There is no header on disk.
pub open spec fn no_header(log: LogState, store: Map<u64, Seq<u8>>) -> bool {
    !header_valid(store[log.start]) && !header_valid(store[(log.start + 1) as u64])
}

proof fn lemma_newest(log: LogState, store: Map<u64, Seq<u8>>, seq: u32)
    requires
        log.wf(),
        newest_is(log, store, seq),
    ensures
        log.newest_header(store) == Some(store[log.header_page(seq)]),
{
    let a = store[log.start];
    let b = store[(log.start + 1) as u64];
    let sa = le32(a, LH_SEQ_OFFS as int) as u32;
    let sb = le32(b, LH_SEQ_OFFS as int) as u32;
    if seq % 2 == 0 {
        assert(log.header_page(seq) == log.start);
        assert(next_u32(seq) % 2 == 1);
        if header_valid(b) {
            assert(next_u32(sb) == seq);
            assert(seq_after(seq, sb));
        }
    } else {
        assert(log.header_page(seq) == log.start + 1);
        assert(next_u32(seq) % 2 == 0);
        if header_valid(a) {
            assert(next_u32(sa) == seq);
            assert(!seq_after(sa, seq));
        }
    }
}

/// What a header says of the buffer can be replayed: the blocks that are
/// pending belong to pages outside the log.
pub open spec fn header_ok(log: LogState, header: Seq<u8>) -> bool {
    let loaded = log.load(header);
    &&& loaded.head < log.blocks
    &&& loaded.tail < log.blocks
    &&& forall|i: nat| #![trigger loaded.block_after(loaded.tail, i)]
        i < loaded.pending() ==> {
            let target = loaded.target(loaded.block_after(loaded.tail, i));
            target != INVALID_PAGE && !log.owns(target as u64)
        }
}

/// The store can be recovered: it holds no header, or a newest one that can be replayed.
pub open spec fn consistent(log: LogState, store: Map<u64, Seq<u8>>) -> bool {
    ||| no_header(log, store)
    ||| exists|seq: u32| #[trigger]
        newest_is(log, store, seq) && header_ok(log, store[log.header_page(seq)])
}

/// The log in memory and the one on disk agree, and the log is empty.
pub open spec fn attached(log: LogState, store: Map<u64, Seq<u8>>) -> bool {
    &&& log.wf()
    &&& le16(log.header, LH_HEAD_OFFS as int) == log.head
    &&& le16(log.header, LH_TAIL_OFFS as int) == log.head
    &&& ({
        ||| log.next_header_seq == 0 && no_header(log, store)
        ||| exists|seq: u32| #[trigger]
            newest_is(log, store, seq) && next_u32(seq) == log.next_header_seq && le16(
                store[log.header_page(seq)],
                LH_HEAD_OFFS as int,
            ) == log.head && le16(store[log.header_page(seq)], LH_TAIL_OFFS as int) == log.head
    })
}

/// The pages that lie outside the log are those of `data`.
pub open spec fn data_is(
    log: LogState,
    store: Map<u64, Seq<u8>>,
    data: Map<u64, Seq<u8>>,
) -> bool {
    forall|q: u64| !log.owns(q) ==> #[trigger] store[q] == data[q]
}

/// The store after a replay.
pub open spec fn recovered(log: LogState, store: Map<u64, Seq<u8>>) -> Map<u64, Seq<u8>> {
    apply_ops(store, log.replay_all_ops(store))
}

/// Two logs on the same pages.
pub open spec fn same_place(a: LogState, b: LogState) -> bool {
    a.start == b.start && a.blocks == b.blocks
}

/// If the newest header says that nothing is pending, or there is none, a
/// replay does nothing.
proof fn lemma_nothing_pending(log: LogState, store: Map<u64, Seq<u8>>)
    requires
        log.wf(),
        no_header(log, store) || exists|seq: u32| #[trigger]
            newest_is(log, store, seq) && le16(store[log.header_page(seq)], LH_HEAD_OFFS as int)
                == le16(store[log.header_page(seq)], LH_TAIL_OFFS as int) && le16(
                store[log.header_page(seq)],
                LH_HEAD_OFFS as int,
            ) < log.blocks,
    ensures
        consistent(log, store),
        log.replayable(store),
        log.replay_all_ops(store) == Seq::<StoreOp>::empty(),
        recovered(log, store) == store,
{
    if !no_header(log, store) {
        let seq = choose|seq: u32| #[trigger]
            newest_is(log, store, seq) && le16(store[log.header_page(seq)], LH_HEAD_OFFS as int)
                == le16(store[log.header_page(seq)], LH_TAIL_OFFS as int) && le16(
                store[log.header_page(seq)],
                LH_HEAD_OFFS as int,
            ) < log.blocks;
        lemma_newest(log, store, seq);
        let loaded = log.load(store[log.header_page(seq)]);
        assert(loaded.pending() == 0);
        assert(header_ok(log, store[log.header_page(seq)]));
    }
}

/// The operation is a sync or writes one of the pages.
pub open spec fn touches_only(op: StoreOp, pages: Seq<(u64, Seq<u8>)>) -> bool {
    op matches StoreOp::Write(num, data) ==> exists|i: int|
        0 <= i < pages.len() && (#[trigger] pages[i]).0 == num
}

/// The two stores differ at most in the given pages.
pub open spec fn differs_in(
    a: Map<u64, Seq<u8>>,
    b: Map<u64, Seq<u8>>,
    pages: Seq<(u64, Seq<u8>)>,
) -> bool {
    forall|q: u64|
        (forall|i: int| 0 <= i < pages.len() ==> (#[trigger] pages[i]).0 != q) ==> #[trigger] a[q]
            == b[q]
}

proof fn lemma_touches_only(
    store: Map<u64, Seq<u8>>,
    ops: Seq<StoreOp>,
    pages: Seq<(u64, Seq<u8>)>,
    q: u64,
)
    requires
        forall|i: int| 0 <= i < ops.len() ==> touches_only(#[trigger] ops[i], pages),
        forall|i: int| 0 <= i < pages.len() ==> (#[trigger] pages[i]).0 != q,
    ensures
        apply_ops(store, ops)[q] == store[q],
    decreases ops.len(),
{
    if ops.len() > 0 {
        let rest = ops.drop_last();
        assert forall|i: int| 0 <= i < rest.len() implies touches_only(#[trigger] rest[i], pages) by {
            assert(rest[i] == ops[i]);
        }
        lemma_touches_only(store, rest, pages, q);
        assert(touches_only(ops[ops.len() - 1], pages));
    }
}

proof fn lemma_write_back_touches(part: Seq<(u64, Seq<u8>)>, pages: Seq<(u64, Seq<u8>)>)
    requires
        part.len() <= pages.len(),
        part == pages.take(part.len() as int),
    ensures
        write_back_ops(part).len() == part.len(),
        forall|i: int|
            0 <= i < write_back_ops(part).len() ==> touches_only(
                #[trigger] write_back_ops(part)[i],
                pages,
            ),
    decreases part.len(),
{
    if part.len() > 0 {
        let rest = part.drop_last();
        assert(rest =~= pages.take(rest.len() as int));
        lemma_write_back_touches(rest, pages);
        let ops = write_back_ops(part);
        assert forall|i: int| 0 <= i < ops.len() implies touches_only(#[trigger] ops[i], pages) by {
            if i == 0 {
                assert(pages[part.len() - 1].0 == part.last().0);
            } else {
                assert(ops[i] == write_back_ops(rest)[i - 1]);
            }
        }
    }
}

/// Once all pages were written back, the store holds them.
proof fn lemma_written_back(store: Map<u64, Seq<u8>>, pages: Seq<(u64, Seq<u8>)>, q: u64)
    requires
        forall|i: int, j: int|
            0 <= i < j < pages.len() ==> (#[trigger] pages[i]).0 != (#[trigger] pages[j]).0,
    ensures
        apply_ops(store, write_back_ops(pages))[q] == overlay(store, pages)[q],
    decreases pages.len(),
{
    lemma_overlay(store, pages, q);
    if pages.len() > 0 {
        let rest = pages.drop_last();
        let last = pages.last();
        assert forall|i: int, j: int| 0 <= i < j < rest.len() implies (#[trigger] rest[i]).0 != (
        #[trigger] rest[j]).0 by {
            assert(pages[i].0 != pages[j].0);
        }
        let op = StoreOp::Write(last.0, last.1);
        let store1 = apply_op(store, op);
        lemma_written_back(store1, rest, q);
        lemma_overlay(store1, rest, q);
        lemma_overlay(store, rest, q);
        lemma_apply_concat(store, seq![op], write_back_ops(rest));
        assert(seq![op].drop_last() =~= Seq::<StoreOp>::empty());
        assert(apply_ops(store, seq![op]) == store1) by {
            reveal_with_fuel(apply_ops, 2);
        }
        if q == last.0 {
            assert forall|i: int| 0 <= i < rest.len() implies (#[trigger] rest[i]).0 != q by {
                assert(pages[i].0 != pages[pages.len() - 1].0);
            }
        }
    }
}

/// After the blocks and the header were written, all that is needed for a
/// replay is on disk.
pub open spec fn commit_point(
    log: LogState,
    store: Map<u64, Seq<u8>>,
    pages: Seq<(u64, Seq<u8>)>,
) -> Map<u64, Seq<u8>> {
    apply_op(
        apply_ops(store, log.log_block_ops(pages)),
        log.log_blocks(pages).publish_head().header_op(),
    )
}

/// From the commit point on, as long as the log is not emptied, the header that
/// was written there is the newest.
#[verifier::rlimit(60)]
#[verifier::spinoff_prover]
proof fn lemma_commit_header(
    log: LogState,
    store: Map<u64, Seq<u8>>,
    pages: Seq<(u64, Seq<u8>)>,
    more: Seq<StoreOp>,
)
    requires
        attached(log, store),
        distinct_data(log, pages),
        pages.len() > 0,
        forall|i: int| 0 <= i < more.len() ==> touches_only(#[trigger] more[i], pages),
    ensures
        ({
            let disk = apply_ops(commit_point(log, store, pages), more);
            &&& newest_is(log, disk, log.next_header_seq)
            &&& disk[log.header_page(log.next_header_seq)] == log.log_transaction(pages).header
        }),
{
    let ready = log.log_blocks(pages).publish_head();
    let seq = log.next_header_seq;
    log.lemma_log_blocks_keeps(pages);
    let disk1 = apply_ops(store, log.log_block_ops(pages));
    let point = commit_point(log, store, pages);
    let disk = apply_ops(point, more);
    let header = seal_header(ready.header, seq);
    lemma_sealed(ready.header, seq);
    assert(ready.header.len() == PAGE_SIZE);
    assert(point == disk1.insert(log.header_page(seq), header));
    assert forall|q: u64| log.owns(q) implies #[trigger] disk[q] == point[q] by {
        assert forall|i: int| 0 <= i < pages.len() implies (#[trigger] pages[i]).0 != q by {
            assert(!log.owns(pages[i].0));
        }
        lemma_touches_only(point, more, pages, q);
    }
    let here = log.header_page(seq);
    let there = log.header_page(next_u32(seq));
    assert(log.owns(here) && log.owns(there) && here != there);
    assert(disk[here] == header);
    lemma_blocks_prefix(log, store, pages, pages.len() as int, there);
    assert(log.log_block_ops(pages).take(pages.len() as int) =~= log.log_block_ops(pages));
    assert(disk[there] == store[there]);
    assert(newest_is(log, disk, seq)) by {
        if no_header(log, store) {
        } else {
            let old_seq = choose|s: u32| #[trigger]
                newest_is(log, store, s) && next_u32(s) == log.next_header_seq && le16(
                    store[log.header_page(s)],
                    LH_HEAD_OFFS as int,
                ) == log.head && le16(store[log.header_page(s)], LH_TAIL_OFFS as int) == log.head;
            assert(next_u32(next_u32(old_seq)) % 2 == old_seq % 2);
            assert(log.header_page(old_seq) == there);
        }
    }
}

/// From the commit point on, as long as the log is not emptied, a replay brings
/// about the state after the transaction, whatever bytes its pages hold by then:
/// the old ones, the new ones, or those of a write that was torn or failed.
#[verifier::rlimit(60)]
#[verifier::spinoff_prover]
pub proof fn law_torn_pages_are_restored(
    log: LogState,
    log0: LogState,
    store: Map<u64, Seq<u8>>,
    pages: Seq<(u64, Seq<u8>)>,
    disk: Map<u64, Seq<u8>>,
)
    requires
        attached(log, store),
        loggable(log, pages),
        pages.len() > 0,
        log0.wf(),
        same_place(log, log0),
        differs_in(disk, commit_point(log, store, pages), pages),
    ensures
        consistent(log0, disk),
        log0.replayable(disk),
        data_is(log0, recovered(log0, disk), overlay(store, pages)),
        newest_is(log0, disk, log.next_header_seq),
        disk[log.header_page(log.next_header_seq)] == log.log_transaction(pages).header,
{
    let logged = log.log_blocks(pages);
    let ready = logged.publish_head();
    let seq = log.next_header_seq;
    lemma_logged(log, pages, store);
    log.lemma_log_blocks_keeps(pages);
    let disk1 = apply_ops(store, log.log_block_ops(pages));
    let point = commit_point(log, store, pages);
    let header = seal_header(ready.header, seq);
    lemma_sealed(ready.header, seq);
    assert(ready.header.len() == PAGE_SIZE);
    assert(point == disk1.insert(log.header_page(seq), header));
    // the log is as it was at the commit point
    assert forall|q: u64| log.owns(q) implies #[trigger] disk[q] == point[q] by {
        assert forall|i: int| 0 <= i < pages.len() implies (#[trigger] pages[i]).0 != q by {
            assert(!log.owns(pages[i].0));
        }
    }
    let here = log.header_page(seq);
    let there = log.header_page(next_u32(seq));
    assert(log.owns(here) && log.owns(there) && here != there);
    assert(disk[here] == header);
    assert(disk[there] == store[there]);
    assert(newest_is(log0, disk, seq)) by {
        if no_header(log, store) {
        } else {
            let old_seq = choose|s: u32| #[trigger]
                newest_is(log, store, s) && next_u32(s) == log.next_header_seq && le16(
                    store[log.header_page(s)],
                    LH_HEAD_OFFS as int,
                ) == log.head && le16(store[log.header_page(s)], LH_TAIL_OFFS as int) == log.head;
            assert(next_u32(next_u32(old_seq)) % 2 == old_seq % 2);
            assert(log.header_page(old_seq) == there);
        }
    }
    lemma_newest(log0, disk, seq);
    // what the header says
    let loaded = log0.load(header);
    lemma_le16_roundtrip(logged.head as u16);
    let b = le16_bytes(logged.head as u16);
    assert(ready.header[8] == b[0] && ready.header[9] == b[1]);
    assert(le16(header, 8) == le16(ready.header, 8)) by {
        assert(header[8] == ready.header[8] && header[9] == ready.header[9]);
    }
    assert(le16(ready.header, 8) == le16(b, 0));
    assert(le16(header, 10) == le16(logged.header, 10)) by {
        assert(header[10] == ready.header[10] && header[11] == ready.header[11]);
        assert(ready.header[10] == logged.header[10] && ready.header[11] == logged.header[11]);
    }
    assert(loaded.head == wrap(log, pages.len()));
    assert(loaded.tail == log.head);
    assert(loaded.pending() == pages.len());
    assert forall|block: nat| block < log.blocks implies #[trigger] loaded.target(block)
        == logged.target(block) by {
        let x = page_header_offs(block) + 4;
        assert forall|i: int| x <= i < x + 8 implies header[i] == logged.header[i] by {
            assert(header[i] == ready.header[i]);
        }
    }
    assert forall|j: int| 0 <= j < pages.len() implies loaded.target(wrap(log, j as nat)) == (
    #[trigger] pages[j]).0 by {}
    assert forall|j: int| 0 <= j < pages.len() implies disk[loaded.block_page(
        wrap(log, j as nat),
    )] == (#[trigger] pages[j]).1 by {
        let page = log.block_page(wrap(log, j as nat));
        assert(log.owns(page));
        assert(page != here);
    }
    assert forall|i: nat| #![trigger loaded.block_after(loaded.tail, i)]
        i < loaded.pending() implies ({
        let target = loaded.target(loaded.block_after(loaded.tail, i));
        target != INVALID_PAGE && !log0.owns(target as u64)
    }) by {
        assert(loaded.block_after(loaded.tail, i) == wrap(log, i));
        assert(loaded.target(wrap(log, i)) == pages[i as int].0);
    }
    assert(header_ok(log0, disk[log0.header_page(seq)]));
    // the replay
    assert(loaded.wf());
    let ops = loaded.replay_ops(disk, loaded.tail, loaded.pending());
    assert(wrap(log, 0) == loaded.tail);
    let disk2 = apply_ops(disk, ops);
    let end = loaded.blocks_written_op();
    lemma_apply_push(disk, ops, StoreOp::Sync);
    lemma_apply_push(disk, ops.push(StoreOp::Sync), end);
    assert(recovered(log0, disk) == apply_op(disk2, end));
    assert forall|q: u64| !log0.owns(q) implies #[trigger] recovered(log0, disk)[q] == overlay(
        store,
        pages,
    )[q] by {
        lemma_replayed(loaded, log, pages, disk, 0, q);
        lemma_overlay(store, pages, q);
        if forall|i: int| 0 <= i < pages.len() ==> (#[trigger] pages[i]).0 != q {
            log.lemma_log_frame(pages, store, q);
        }
    }
}

/// Writing blocks only leaves the newest header and the pages outside the log alone.
proof fn lemma_blocks_prefix(
    log: LogState,
    store: Map<u64, Seq<u8>>,
    pages: Seq<(u64, Seq<u8>)>,
    k: int,
    q: u64,
)
    requires
        log.wf(),
        0 <= k <= pages.len(),
        !log.owns(q) || q < log.start + HEADER_BLOCKS,
    ensures
        log.log_block_ops(pages).len() == pages.len(),
        apply_ops(store, log.log_block_ops(pages).take(k))[q] == store[q],
    decreases pages.len(),
{
    let ops = log.log_block_ops(pages);
    if pages.len() > 0 {
        let rest = pages.drop_last();
        let before = log.log_blocks(rest);
        log.lemma_log_blocks_keeps(rest);
        let op = StoreOp::Write(before.block_page(before.head), pages.last().1);
        if k == pages.len() {
            lemma_blocks_prefix(log, store, rest, rest.len() as int, q);
            assert(log.log_block_ops(rest).take(rest.len() as int) =~= log.log_block_ops(rest));
            assert(ops.take(k) =~= ops);
            lemma_apply_push(store, log.log_block_ops(rest), op);
        } else {
            lemma_blocks_prefix(log, store, rest, k, q);
            assert(ops.take(k) =~= log.log_block_ops(rest).take(k));
        }
    } else {
        assert(ops.take(k) =~= ops);
    }
}

/// The operations of a commit, parted at the commit point and before the log is emptied.
proof fn lemma_commit_parts(log: LogState, pages: Seq<(u64, Seq<u8>)>, k: int)
    requires
        log.wf(),
        pages.len() > 0,
        0 <= k <= commit_ops(log, pages).len(),
    ensures
        ({
            let ops = commit_ops(log, pages);
            let blocks = log.log_block_ops(pages);
            let header = log.log_blocks(pages).publish_head().header_op();
            let tail = seq![StoreOp::Sync, StoreOp::Sync] + write_back_ops(pages) + seq![
                StoreOp::Sync,
            ];
            &&& blocks.len() == pages.len()
            &&& ops.len() == pages.len() + 1 + tail.len() + 1
            &&& k <= pages.len() ==> ops.take(k) == blocks.take(k)
            &&& pages.len() < k < ops.len() ==> ops.take(k) == blocks.push(header) + tail.take(
                k - pages.len() - 1,
            )
            &&& ops == (blocks.push(header) + tail).push(
                log.log_transaction(pages).blocks_written_op(),
            )
            &&& forall|i: int| 0 <= i < tail.len() ==> touches_only(#[trigger] tail[i], pages)
        }),
{
    let ops = commit_ops(log, pages);
    let blocks = log.log_block_ops(pages);
    let header = log.log_blocks(pages).publish_head().header_op();
    let tail = seq![StoreOp::Sync, StoreOp::Sync] + write_back_ops(pages) + seq![StoreOp::Sync];
    lemma_blocks_prefix(log, Map::empty(), pages, 0, (log.start) as u64);
    assert(pages =~= pages.take(pages.len() as int));
    lemma_write_back_touches(pages, pages);
    assert(ops =~= (blocks.push(header) + tail).push(
        log.log_transaction(pages).blocks_written_op(),
    ));
    if k <= pages.len() {
        assert(ops.take(k) =~= blocks.take(k));
    } else if k < ops.len() {
        assert(ops.take(k) =~= blocks.push(header) + tail.take(k - pages.len() - 1));
    }
    assert forall|i: int| 0 <= i < tail.len() implies touches_only(#[trigger] tail[i], pages) by {
        if 2 <= i < 2 + pages.len() {
            assert(tail[i] == write_back_ops(pages)[i - 2]);
        }
    }
}

/// The pages outside the log once all were written back.
proof fn lemma_commit_data(
    log: LogState,
    store: Map<u64, Seq<u8>>,
    pages: Seq<(u64, Seq<u8>)>,
    q: u64,
)
    requires
        attached(log, store),
        distinct_data(log, pages),
        pages.len() > 0,
        !log.owns(q),
    ensures
        ({
            let tail = seq![StoreOp::Sync, StoreOp::Sync] + write_back_ops(pages) + seq![
                StoreOp::Sync,
            ];
            apply_ops(commit_point(log, store, pages), tail)[q] == overlay(store, pages)[q]
        }),
{
    let point = commit_point(log, store, pages);
    let syncs = seq![StoreOp::Sync, StoreOp::Sync];
    let one = seq![StoreOp::Sync];
    lemma_apply_concat(point, syncs + write_back_ops(pages), one);
    lemma_apply_concat(point, syncs, write_back_ops(pages));
    assert(apply_ops(point, syncs) == point) by {
        reveal_with_fuel(apply_ops, 3);
        assert(syncs.drop_last() =~= one);
        assert(one.drop_last() =~= Seq::<StoreOp>::empty());
    }
    let disk0 = apply_ops(point, write_back_ops(pages));
    assert(apply_ops(disk0, one) == disk0) by {
        reveal_with_fuel(apply_ops, 2);
        assert(one.drop_last() =~= Seq::<StoreOp>::empty());
    }
    lemma_written_back(point, pages, q);
    lemma_overlay(point, pages, q);
    lemma_overlay(store, pages, q);
    log.lemma_log_frame(pages, store, q);
    log.lemma_log_blocks_keeps(pages);
    assert(point[q] == store[q]);
}

/// The last header of a commit: head and tail are the head after logging.
proof fn lemma_last_header(log: LogState, pages: Seq<(u64, Seq<u8>)>)
    requires
        log.wf(),
    ensures
        ({
            let done = log.log_transaction(pages).blocks_written();
            let seq2 = next_u32(log.next_header_seq);
            &&& done.wf()
            &&& same_place(done, log)
            &&& done.next_header_seq == next_u32(seq2)
            &&& header_valid(done.header)
            &&& le32(done.header, LH_SEQ_OFFS as int) == seq2
            &&& le16(done.header, LH_HEAD_OFFS as int) == done.head
            &&& le16(done.header, LH_TAIL_OFFS as int) == done.head
            &&& log.log_transaction(pages).blocks_written_op() == StoreOp::Write(
                log.header_page(seq2),
                done.header,
            )
        }),
{
    log.lemma_log_blocks_keeps(pages);
    let blocks = log.log_blocks(pages);
    let logged = log.log_transaction(pages);
    let done = logged.blocks_written();
    let seq = log.next_header_seq;
    let seq2 = next_u32(seq);
    let first = blocks.publish_head().header;
    lemma_sealed(first, seq);
    lemma_le16_roundtrip(blocks.head as u16);
    let c = le16_bytes(blocks.head as u16);
    assert(first[8] == c[0] && first[9] == c[1]);
    assert(logged.header[8] == first[8] && logged.header[9] == first[9]);
    lemma_emptied(logged, seq);
}

/// A header with the next number becomes the newest one.
#[verifier::rlimit(40)]
#[verifier::spinoff_prover]
proof fn lemma_next_header(
    log: LogState,
    log2: LogState,
    disk: Map<u64, Seq<u8>>,
    header: Seq<u8>,
    seq: u32,
)
    requires
        log.wf(),
        same_place(log, log2),
        newest_is(log, disk, seq),
        header_valid(header),
        le32(header, LH_SEQ_OFFS as int) == next_u32(seq),
        header.len() == PAGE_SIZE,
    ensures
        newest_is(log2, disk.insert(log.header_page(next_u32(seq)), header), next_u32(seq)),
{
    let seq2 = next_u32(seq);
    assert(next_u32(seq2) % 2 == seq % 2);
    assert(log2.header_page(next_u32(seq2)) == log.header_page(seq));
    assert(log.header_page(seq2) != log.header_page(seq));
}

/// A log whose own header is the newest on disk and says that nothing is pending is attached.
proof fn lemma_attached(log: LogState, disk: Map<u64, Seq<u8>>, seq: u32)
    requires
        log.wf(),
        newest_is(log, disk, seq),
        next_u32(seq) == log.next_header_seq,
        disk[log.header_page(seq)] == log.header,
        le16(log.header, LH_HEAD_OFFS as int) == log.head,
        le16(log.header, LH_TAIL_OFFS as int) == log.head,
    ensures
        attached(log, disk),
{
}

/// A commit leaves the log empty and in agreement with the disk, and the pages
/// of the transaction in their places, even if there are too many for the log.
pub proof fn law_commit_completes(
    log: LogState,
    store: Map<u64, Seq<u8>>,
    pages: Seq<(u64, Seq<u8>)>,
)
    requires
        attached(log, store),
        distinct_data(log, pages),
        pages.len() > 0,
    ensures
        attached(
            log.log_transaction(pages).blocks_written(),
            apply_ops(store, commit_ops(log, pages)),
        ),
        data_is(log, apply_ops(store, commit_ops(log, pages)), overlay(store, pages)),
{
    let ops = commit_ops(log, pages);
    lemma_commit_parts(log, pages, 0);
    let blocks = log.log_block_ops(pages);
    let header_op = log.log_blocks(pages).publish_head().header_op();
    let tail = seq![StoreOp::Sync, StoreOp::Sync] + write_back_ops(pages) + seq![StoreOp::Sync];
    let end = log.log_transaction(pages).blocks_written_op();
    let done = log.log_transaction(pages).blocks_written();
    let point = commit_point(log, store, pages);
    lemma_commit_header(log, store, pages, tail);
    lemma_last_header(log, pages);
    lemma_apply_push(store, blocks, header_op);
    lemma_apply_concat(store, blocks.push(header_op), tail);
    lemma_apply_push(store, blocks.push(header_op) + tail, end);
    let disk = apply_ops(point, tail);
    let last = apply_ops(store, ops);
    let seq = log.next_header_seq;
    assert(last == disk.insert(log.header_page(next_u32(seq)), done.header));
    lemma_next_header(log, done, disk, done.header, seq);
    lemma_attached(done, last, next_u32(seq));
    assert forall|q: u64| !log.owns(q) implies #[trigger] last[q] == overlay(store, pages)[q] by {
        lemma_commit_data(log, store, pages, q);
    }
}

/// Wherever a commit is interrupted, a replay brings the pages outside the log
/// to the state before the transaction, if the header of the log was not written
/// yet, and to the state after it from then on. Nothing in between is ever seen.
pub proof fn law_commit_is_atomic(
    log: LogState,
    log0: LogState,
    store: Map<u64, Seq<u8>>,
    pages: Seq<(u64, Seq<u8>)>,
    k: int,
)
    requires
        attached(log, store),
        loggable(log, pages),
        pages.len() > 0,
        log0.wf(),
        same_place(log, log0),
        0 <= k <= commit_ops(log, pages).len(),
    ensures
        ({
            let disk = apply_ops(store, commit_ops(log, pages).take(k));
            &&& consistent(log0, disk)
            &&& log0.replayable(disk)
            &&& data_is(
                log0,
                recovered(log0, disk),
                if k <= pages.len() {
                    store
                } else {
                    overlay(store, pages)
                },
            )
        }),
{
    let ops = commit_ops(log, pages);
    lemma_commit_parts(log, pages, k);
    let blocks = log.log_block_ops(pages);
    let header_op = log.log_blocks(pages).publish_head().header_op();
    let tail = seq![StoreOp::Sync, StoreOp::Sync] + write_back_ops(pages) + seq![StoreOp::Sync];
    let disk = apply_ops(store, ops.take(k));
    if k <= pages.len() {
        assert forall|q: u64| !log.owns(q) || q < log.start + HEADER_BLOCKS implies #[trigger] disk[q]
            == store[q] by {
            lemma_blocks_prefix(log, store, pages, k, q);
        }
        assert(disk[log.start] == store[log.start]);
        assert(disk[(log.start + 1) as u64] == store[(log.start + 1) as u64]);
        if !no_header(log, store) {
            let seq = choose|s: u32| #[trigger]
                newest_is(log, store, s) && next_u32(s) == log.next_header_seq && le16(
                    store[log.header_page(s)],
                    LH_HEAD_OFFS as int,
                ) == log.head && le16(store[log.header_page(s)], LH_TAIL_OFFS as int) == log.head;
            assert(disk[log.header_page(seq)] == store[log.header_page(seq)]);
            assert(disk[log.header_page(next_u32(seq))] == store[log.header_page(next_u32(seq))]);
            assert(newest_is(log0, disk, seq));
        }
        lemma_nothing_pending(log0, disk);
    } else if k < ops.len() {
        let more = tail.take(k - pages.len() - 1);
        assert forall|i: int| 0 <= i < more.len() implies touches_only(#[trigger] more[i], pages) by {
            assert(more[i] == tail[i]);
        }
        lemma_apply_push(store, blocks, header_op);
        lemma_apply_concat(store, blocks.push(header_op), more);
        let point = commit_point(log, store, pages);
        assert forall|q: u64|
            (forall|i: int| 0 <= i < pages.len() ==> (#[trigger] pages[i]).0 != q) implies
            #[trigger] disk[q] == point[q] by {
            lemma_touches_only(point, more, pages, q);
        }
        law_torn_pages_are_restored(log, log0, store, pages, disk);
    } else {
        assert(ops.take(k) =~= ops);
        law_commit_completes(log, store, pages);
        let done = log.log_transaction(pages).blocks_written();
        log.lemma_log_blocks_keeps(pages);
        let seq = next_u32(log.next_header_seq);
        if !no_header(done, disk) {
            let s = choose|s: u32| #[trigger]
                newest_is(done, disk, s) && next_u32(s) == done.next_header_seq && le16(
                    disk[done.header_page(s)],
                    LH_HEAD_OFFS as int,
                ) == done.head && le16(disk[done.header_page(s)], LH_TAIL_OFFS as int)
                    == done.head;
            assert(newest_is(log0, disk, s));
        }
        lemma_nothing_pending(log0, disk);
    }
}

/// After a replay the log is empty and in agreement with the disk.
pub proof fn law_replay_attaches(log0: LogState, store: Map<u64, Seq<u8>>)
    requires
        log0.wf(),
        log0.head == 0,
        log0.header == Seq::new(PAGE_SIZE as nat, |i: int| 0u8),
        consistent(log0, store),
    ensures
        log0.replayable(store),
        attached(log0.replay(store), recovered(log0, store)),
{
    if no_header(log0, store) {
        let log = log0.replay(store);
        assert(log.header[8] == 0 && log.header[9] == 0 && log.header[10] == 0 && log.header[11]
            == 0);
    } else {
        let seq = choose|seq: u32| #[trigger]
            newest_is(log0, store, seq) && header_ok(log0, store[log0.header_page(seq)]);
        lemma_newest(log0, store, seq);
        let header = store[log0.header_page(seq)];
        let loaded = log0.load(header);
        let log = log0.replay(store);
        if loaded.head == loaded.tail {
            assert(newest_is(log, store, seq));
        } else {
            lemma_replay_done(log0, store, seq);
            lemma_attached(log, recovered(log0, store), next_u32(seq));
        }
    }
}

/// A replay that had something to do ends with a header that says that nothing is pending.
proof fn lemma_replay_done(log0: LogState, store: Map<u64, Seq<u8>>, seq: u32)
    requires
        log0.wf(),
        newest_is(log0, store, seq),
        header_ok(log0, store[log0.header_page(seq)]),
        ({
            let loaded = log0.load(store[log0.header_page(seq)]);
            loaded.head != loaded.tail
        }),
    ensures
        ({
            let log = log0.replay(store);
            let last = recovered(log0, store);
            &&& log.wf()
            &&& same_place(log, log0)
            &&& log.next_header_seq == next_u32(next_u32(seq))
            &&& newest_is(log, last, next_u32(seq))
            &&& last[log.header_page(next_u32(seq))] == log.header
            &&& le16(log.header, LH_HEAD_OFFS as int) == log.head
            &&& le16(log.header, LH_TAIL_OFFS as int) == log.head
        }),
{
    lemma_newest(log0, store, seq);
    let loaded = log0.load(store[log0.header_page(seq)]);
    let log = log0.replay(store);
    let ops = loaded.replay_ops(store, loaded.tail, loaded.pending());
    let disk = apply_ops(store, ops);
    let end = loaded.blocks_written_op();
    lemma_apply_push(store, ops, StoreOp::Sync);
    lemma_apply_push(store, ops.push(StoreOp::Sync), end);
    let last = recovered(log0, store);
    assert(last == apply_op(disk, end));
    lemma_replay_keeps_log(loaded, log0, store, 0, seq);
    assert(loaded.block_after(loaded.tail, 0) == loaded.tail);
    lemma_emptied(loaded, seq);
    assert(last == disk.insert(log0.header_page(next_u32(seq)), log.header));
    lemma_next_header(log0, log, disk, log.header, seq);
}

/// The blocks that are pending, from the one `i` behind the tail on, name the page.
spec fn is_target(loaded: LogState, i: nat, q: u64) -> bool {
    exists|j: nat| #![trigger loaded.block_after(loaded.tail, j)]
        i <= j < loaded.pending() && loaded.target(loaded.block_after(loaded.tail, j)) == q
}

/// What a page holds once the pending blocks, from the one `i` behind the tail on,
/// were copied, if it held `bytes` before.
spec fn settled(
    loaded: LogState,
    store: Map<u64, Seq<u8>>,
    i: nat,
    q: u64,
    bytes: Seq<u8>,
) -> Seq<u8>
    decreases loaded.pending() - i,
{
    if i >= loaded.pending() {
        bytes
    } else {
        let block = loaded.block_after(loaded.tail, i);
        settled(
            loaded,
            store,
            i + 1,
            q,
            if loaded.target(block) == q {
                store[loaded.block_page(block)]
            } else {
                bytes
            },
        )
    }
}

/// Where some block names the page, what it held before does not matter.
proof fn lemma_settled(
    loaded: LogState,
    store: Map<u64, Seq<u8>>,
    i: nat,
    q: u64,
    a: Seq<u8>,
    b: Seq<u8>,
)
    requires
        is_target(loaded, i, q) || a == b,
    ensures
        settled(loaded, store, i, q, a) == settled(loaded, store, i, q, b),
    decreases loaded.pending() - i,
{
    if i < loaded.pending() {
        let block = loaded.block_after(loaded.tail, i);
        let (a1, b1) = if loaded.target(block) == q {
            (store[loaded.block_page(block)], store[loaded.block_page(block)])
        } else {
            (a, b)
        };
        if a1 != b1 {
            let j = choose|j: nat| #![trigger loaded.block_after(loaded.tail, j)]
                i <= j < loaded.pending() && loaded.target(loaded.block_after(loaded.tail, j)) == q;
            assert(i + 1 <= j);
            assert(is_target(loaded, i + 1, q));
        }
        lemma_settled(loaded, store, i + 1, q, a1, b1);
    }
}

/// The pending blocks belong to pages outside the log.
spec fn targets_ok(loaded: LogState) -> bool {
    &&& loaded.wf()
    &&& loaded.tail < loaded.blocks
    &&& forall|j: nat| #![trigger loaded.block_after(loaded.tail, j)]
        j < loaded.pending() ==> {
            let target = loaded.target(loaded.block_after(loaded.tail, j));
            target != INVALID_PAGE && !loaded.owns(target as u64)
        }
}

/// Copying the pending blocks from the one `i` behind the tail on: there is a write
/// for each, and together they settle the pages.
proof fn lemma_settling(
    loaded: LogState,
    store: Map<u64, Seq<u8>>,
    disk: Map<u64, Seq<u8>>,
    i: nat,
    q: u64,
)
    requires
        targets_ok(loaded),
        i <= loaded.pending(),
        forall|n: u64|
            loaded.owns(n) && n >= loaded.start + HEADER_BLOCKS ==> #[trigger] disk[n]
                == store[n],
    ensures
        ({
            let ops = loaded.replay_ops(
                disk,
                loaded.block_after(loaded.tail, i),
                (loaded.pending() - i) as nat,
            );
            &&& ops.len() == loaded.pending() - i
            &&& forall|j: int|
                0 <= j < ops.len() ==> (#[trigger] ops[j]) is Write && ops[j]->Write_0
                    == loaded.target(loaded.block_after(loaded.tail, (i + j) as nat))
            &&& apply_ops(disk, ops)[q] == settled(loaded, store, i, q, disk[q])
        }),
    decreases loaded.pending() - i,
{
    if i < loaded.pending() {
        let block = loaded.block_after(loaded.tail, i);
        let op = loaded.replay_op(disk, block);
        let disk1 = apply_op(disk, op);
        assert(!loaded.owns(loaded.target(block) as u64));
        assert(loaded.owns(loaded.block_page(block)));
        assert(disk[loaded.block_page(block)] == store[loaded.block_page(block)]);
        lemma_settling(loaded, store, disk1, i + 1, q);
        assert(loaded.next_block(block) == loaded.block_after(loaded.tail, i + 1));
        let rest = loaded.replay_ops(
            disk1,
            loaded.block_after(loaded.tail, i + 1),
            (loaded.pending() - i - 1) as nat,
        );
        let ops = loaded.replay_ops(disk, block, (loaded.pending() - i) as nat);
        assert(ops == seq![op] + rest);
        lemma_apply_concat(disk, seq![op], rest);
        assert(seq![op].drop_last() =~= Seq::<StoreOp>::empty());
        assert(apply_ops(disk, seq![op]) == disk1) by {
            reveal_with_fuel(apply_ops, 2);
        }
        assert forall|j: int| 0 <= j < ops.len() implies (#[trigger] ops[j]) is Write
            && ops[j]->Write_0 == loaded.target(
            loaded.block_after(loaded.tail, (i + j) as nat),
        ) by {
            if j > 0 {
                assert(ops[j] == rest[j - 1]);
                assert((i + 1 + (j - 1)) as nat == (i + j) as nat);
            }
        }
    }
}

/// Some of the writes of a replay were made.
proof fn lemma_partly_settled(
    loaded: LogState,
    store: Map<u64, Seq<u8>>,
    k: int,
    q: u64,
)
    requires
        targets_ok(loaded),
        0 <= k <= loaded.pending(),
        !is_target(loaded, 0, q),
    ensures
        apply_ops(
            store,
            loaded.replay_ops(store, loaded.tail, loaded.pending()).take(k),
        )[q] == store[q],
    decreases k,
{
    let ops = loaded.replay_ops(store, loaded.tail, loaded.pending());
    lemma_settling(loaded, store, store, 0, q);
    assert(loaded.block_after(loaded.tail, 0) == loaded.tail);
    if k > 0 {
        lemma_partly_settled(loaded, store, k - 1, q);
        assert(ops.take(k) =~= ops.take(k - 1).push(ops[k - 1]));
        lemma_apply_push(store, ops.take(k - 1), ops[k - 1]);
        assert((0 + (k - 1)) as nat == (k - 1) as nat);
        assert(loaded.target(loaded.block_after(loaded.tail, (k - 1) as nat)) != q);
    }
}

/// What a replay makes of the pages outside the log.
proof fn lemma_recovered(log0: LogState, store: Map<u64, Seq<u8>>, seq: u32, q: u64)
    requires
        log0.wf(),
        newest_is(log0, store, seq),
        header_ok(log0, store[log0.header_page(seq)]),
        !log0.owns(q),
    ensures
        log0.replayable(store),
        consistent(log0, store),
        ({
            let loaded = log0.load(store[log0.header_page(seq)]);
            &&& targets_ok(loaded)
            &&& recovered(log0, store)[q] == settled(loaded, store, 0, q, store[q])
        }),
{
    lemma_newest(log0, store, seq);
    let loaded = log0.load(store[log0.header_page(seq)]);
    assert(targets_ok(loaded));
    lemma_settling(loaded, store, store, 0, q);
    assert(loaded.block_after(loaded.tail, 0) == loaded.tail);
    if loaded.head != loaded.tail {
        let ops = loaded.replay_ops(store, loaded.tail, loaded.pending());
        let end = loaded.blocks_written_op();
        lemma_apply_push(store, ops, StoreOp::Sync);
        lemma_apply_push(store, ops.push(StoreOp::Sync), end);
        assert(log0.owns(end->Write_0));
    }
}

/// A replay that is interrupted can be started again: wherever it was, the next one
/// brings the pages outside the log to where the first would have brought them.
pub proof fn law_replay_is_restartable(log0: LogState, store: Map<u64, Seq<u8>>, k: int)
    requires
        log0.wf(),
        consistent(log0, store),
        0 <= k <= log0.replay_all_ops(store).len(),
    ensures
        ({
            let disk = apply_ops(store, log0.replay_all_ops(store).take(k));
            &&& consistent(log0, disk)
            &&& log0.replayable(disk)
            &&& data_is(log0, recovered(log0, disk), recovered(log0, store))
        }),
{
    let all = log0.replay_all_ops(store);
    let disk = apply_ops(store, all.take(k));
    if no_header(log0, store) {
        assert(all.take(k) =~= Seq::<StoreOp>::empty());
    } else {
        let seq = choose|seq: u32| #[trigger]
            newest_is(log0, store, seq) && header_ok(log0, store[log0.header_page(seq)]);
        lemma_newest(log0, store, seq);
        let loaded = log0.load(store[log0.header_page(seq)]);
        assert(targets_ok(loaded));
        if loaded.head == loaded.tail {
            assert(all.take(k) =~= Seq::<StoreOp>::empty());
            lemma_nothing_pending(log0, store);
        } else {
            let ops = loaded.replay_ops(store, loaded.tail, loaded.pending());
            lemma_settling(loaded, store, store, 0, 0);
            assert(loaded.block_after(loaded.tail, 0) == loaded.tail);
            let m = loaded.pending();
            if k <= m + 1 {
                let k1 = if k <= m {
                    k
                } else {
                    m as int
                };
                assert(disk == apply_ops(store, ops.take(k1))) by {
                    if k <= m {
                        assert(all.take(k) =~= ops.take(k));
                    } else {
                        assert(all.take(k) =~= ops.push(StoreOp::Sync));
                        assert(ops.take(k1) =~= ops);
                        lemma_apply_push(store, ops, StoreOp::Sync);
                    }
                }
                assert forall|q: u64| !is_target(loaded, 0, q) implies #[trigger] disk[q]
                    == store[q] by {
                    lemma_partly_settled(loaded, store, k1, q);
                }
                assert forall|q: u64| log0.owns(q) implies #[trigger] disk[q] == store[q] by {
                    assert(!is_target(loaded, 0, q));
                }
                assert(log0.owns(log0.header_page(seq)) && log0.owns(log0.header_page(next_u32(seq))));
                assert(newest_is(log0, disk, seq));
                assert forall|q: u64| !log0.owns(q) implies #[trigger] recovered(log0, disk)[q]
                    == recovered(log0, store)[q] by {
                    lemma_recovered(log0, store, seq, q);
                    lemma_recovered(log0, disk, seq, q);
                    lemma_settling(loaded, store, disk, 0, q);
                    lemma_settling(loaded, disk, disk, 0, q);
                    lemma_settled(loaded, store, 0, q, disk[q], store[q]);
                }
                lemma_replayable(log0, disk, seq);
            } else {
                assert(all.take(k) =~= all);
                lemma_replay_done(log0, store, seq);
                assert(newest_is(log0, disk, next_u32(seq)));
                lemma_nothing_pending(log0, disk);
            }
        }
    }
}

proof fn lemma_replayable(log0: LogState, store: Map<u64, Seq<u8>>, seq: u32)
    requires
        log0.wf(),
        newest_is(log0, store, seq),
        header_ok(log0, store[log0.header_page(seq)]),
    ensures
        log0.replayable(store),
        consistent(log0, store),
{
    lemma_newest(log0, store, seq);
}

/// Where the next header goes while the store holds no newer one.
pub open spec fn next_header_page(log: LogState, store: Map<u64, Seq<u8>>, page: u64) -> bool {
    ||| no_header(log, store) && (page == log.start || page == log.start + 1)
    ||| exists|seq: u32| #[trigger]
        newest_is(log, store, seq) && header_ok(log, store[log.header_page(seq)]) && page
            == log.header_page(next_u32(seq))
}

/// There is always a valid copy of the header: if the write of a header is torn or
/// fails, and its page holds bytes that are no header, the other copy counts, and
/// a replay brings about what it would have brought about before.
pub proof fn law_torn_header_is_ignored(
    log0: LogState,
    store: Map<u64, Seq<u8>>,
    page: u64,
    torn: Seq<u8>,
)
    requires
        log0.wf(),
        next_header_page(log0, store, page),
        !header_valid(torn),
    ensures
        ({
            let disk = store.insert(page, torn);
            &&& consistent(log0, disk)
            &&& log0.replayable(disk)
            &&& data_is(log0, recovered(log0, disk), recovered(log0, store))
        }),
{
    let disk = store.insert(page, torn);
    if no_header(log0, store) && (page == log0.start || page == log0.start + 1) {
        assert(no_header(log0, disk));
        lemma_nothing_pending(log0, store);
        lemma_nothing_pending(log0, disk);
    } else {
        let seq = choose|seq: u32| #[trigger]
            newest_is(log0, store, seq) && header_ok(log0, store[log0.header_page(seq)]) && page
                == log0.header_page(next_u32(seq));
        assert(log0.header_page(seq) != page);
        assert(newest_is(log0, disk, seq));
        let loaded = log0.load(store[log0.header_page(seq)]);
        lemma_replayable(log0, disk, seq);
        assert forall|q: u64| !log0.owns(q) implies #[trigger] recovered(log0, disk)[q]
            == recovered(log0, store)[q] by {
            lemma_recovered(log0, store, seq, q);
            lemma_recovered(log0, disk, seq, q);
            lemma_settling(loaded, store, disk, 0, q);
            lemma_settling(loaded, disk, disk, 0, q);
        }
    }
}

/// If the header of a transaction never becomes valid, a replay brings the pages
/// outside the log to the state before it, however many of its blocks were written.
pub proof fn law_torn_commit_is_undone(
    log: LogState,
    log0: LogState,
    store: Map<u64, Seq<u8>>,
    pages: Seq<(u64, Seq<u8>)>,
    k: int,
    torn: Seq<u8>,
)
    requires
        attached(log, store),
        loggable(log, pages),
        pages.len() > 0,
        log0.wf(),
        same_place(log, log0),
        0 <= k <= pages.len(),
        !header_valid(torn),
    ensures
        ({
            let disk = apply_ops(store, commit_ops(log, pages).take(k)).insert(
                log.header_page(log.next_header_seq),
                torn,
            );
            &&& consistent(log0, disk)
            &&& log0.replayable(disk)
            &&& data_is(log0, recovered(log0, disk), store)
        }),
{
    let before = apply_ops(store, commit_ops(log, pages).take(k));
    let page = log.header_page(log.next_header_seq);
    lemma_commit_parts(log, pages, 0);
    lemma_commit_parts(log, pages, k);
    law_commit_is_atomic(log, log0, store, pages, k);
    lemma_blocks_prefix(log, store, pages, k, log.start);
    lemma_blocks_prefix(log, store, pages, k, (log.start + 1) as u64);
    if no_header(log, store) {
        assert(no_header(log0, before));
    } else {
        let seq = choose|s: u32| #[trigger]
            newest_is(log, store, s) && next_u32(s) == log.next_header_seq && le16(
                store[log.header_page(s)],
                LH_HEAD_OFFS as int,
            ) == log.head && le16(store[log.header_page(s)], LH_TAIL_OFFS as int) == log.head;
        assert(before[log.header_page(seq)] == store[log.header_page(seq)]);
        assert(before[log.header_page(next_u32(seq))] == store[log.header_page(next_u32(seq))]);
        assert(newest_is(log0, before, seq));
        assert(log0.load(before[log0.header_page(seq)]).pending() == 0);
        assert(header_ok(log0, before[log0.header_page(seq)]));
    }
    law_torn_header_is_ignored(log0, before, page, torn);
}

/// The header that marks all blocks as written.
proof fn lemma_emptied(log: LogState, seq: u32)
    requires
        log.wf(),
        log.next_header_seq == next_u32(seq),
        le16(log.header, LH_HEAD_OFFS as int) == log.head,
    ensures
        ({
            let done = log.blocks_written();
            &&& done.wf()
            &&& same_place(done, log)
            &&& done.next_header_seq == next_u32(next_u32(seq))
            &&& header_valid(done.header)
            &&& done.header.len() == PAGE_SIZE
            &&& le32(done.header, LH_SEQ_OFFS as int) == next_u32(seq)
            &&& le16(done.header, LH_HEAD_OFFS as int) == done.head
            &&& le16(done.header, LH_TAIL_OFFS as int) == done.head
            &&& log.blocks_written_op() == StoreOp::Write(
                log.header_page(next_u32(seq)),
                done.header,
            )
        }),
{
    let ready = log.publish_tail();
    let seq2 = next_u32(seq);
    lemma_sealed(ready.header, seq2);
    let last = seal_header(ready.header, seq2);
    let head = le16(log.header, 8) as u16;
    lemma_le16_roundtrip(head);
    let b = le16_bytes(head);
    assert(ready.header[10] == b[0] && ready.header[11] == b[1]);
    assert(ready.header[8] == log.header[8] && ready.header[9] == log.header[9]);
    assert(last[8] == ready.header[8] && last[9] == ready.header[9]);
    assert(last[10] == ready.header[10] && last[11] == ready.header[11]);
}

/// A replay does not write to the log before it marks the blocks as written.
proof fn lemma_replay_keeps_log(
    loaded: LogState,
    log0: LogState,
    store: Map<u64, Seq<u8>>,
    i: nat,
    seq: u32,
)
    requires
        loaded.wf(),
        log0.wf(),
        same_place(loaded, log0),
        i <= loaded.pending(),
        forall|j: nat| #![trigger loaded.block_after(loaded.tail, j)]
            j < loaded.pending() ==> {
                let target = loaded.target(loaded.block_after(loaded.tail, j));
                target != INVALID_PAGE && !log0.owns(target as u64)
            },
    ensures
        ({
            let ops = loaded.replay_ops(
                store,
                loaded.block_after(loaded.tail, i),
                (loaded.pending() - i) as nat,
            );
            let disk = apply_ops(store, ops);
            disk[log0.header_page(seq)] == store[log0.header_page(seq)] && disk[log0.header_page(
                next_u32(seq),
            )] == store[log0.header_page(next_u32(seq))]
        }),
    decreases loaded.pending() - i,
{
    if i < loaded.pending() {
        let block = loaded.block_after(loaded.tail, i);
        let op = loaded.replay_op(store, block);
        let store1 = apply_op(store, op);
        assert(!log0.owns(loaded.target(block) as u64));
        lemma_replay_keeps_log(loaded, log0, store1, i + 1, seq);
        assert(loaded.next_block(block) == loaded.block_after(loaded.tail, i + 1));
        let rest = loaded.replay_ops(
            store1,
            loaded.block_after(loaded.tail, i + 1),
            (loaded.pending() - i - 1) as nat,
        );
        assert(loaded.replay_ops(store, block, (loaded.pending() - i) as nat) == seq![op] + rest);
        lemma_apply_concat(store, seq![op], rest);
        assert(seq![op].drop_last() =~= Seq::<StoreOp>::empty());
        assert(apply_ops(store, seq![op]) == store1) by {
            reveal_with_fuel(apply_ops, 2);
        }
    }
}

/// The checksum of zeros is not zero, so a store that was never written holds no header.
proof fn lemma_zero_sums(bytes: Seq<u8>)
    requires
        forall|i: int| 0 <= i < bytes.len() ==> bytes[i] == 0,
        bytes.len() < 65521,
    ensures
        checksum_sums(bytes) == (1int, bytes.len() as int),
    decreases bytes.len(),
{
    if bytes.len() > 0 {
        lemma_zero_sums(bytes.drop_last());
    }
}

/// A store of zeros can be recovered, and a new log agrees with it.
pub proof fn law_zeros_are_consistent(log0: LogState, store: Map<u64, Seq<u8>>)
    requires
        log0.wf(),
        log0.head == 0,
        log0.next_header_seq == 0,
        log0.header == Seq::new(PAGE_SIZE as nat, |i: int| 0u8),
        store[log0.start] == Seq::new(PAGE_SIZE as nat, |i: int| 0u8),
        store[(log0.start + 1) as u64] == Seq::new(PAGE_SIZE as nat, |i: int| 0u8),
    ensures
        consistent(log0, store),
        attached(log0, store),
        recovered(log0, store) == store,
{
    let zeros = Seq::new(PAGE_SIZE as nat, |i: int| 0u8);
    let rest = zeros.subrange(4, PAGE_SIZE as int);
    lemma_zero_sums(rest);
    assert(checksum_spec(rest) != 0);
    assert(zeros[0] == 0 && zeros[1] == 0 && zeros[2] == 0 && zeros[3] == 0);
    assert(!header_valid(zeros));
    lemma_nothing_pending(log0, store);
    assert(log0.header[8] == 0 && log0.header[9] == 0 && log0.header[10] == 0 && log0.header[11]
        == 0);
}

/// Wherever the end of a transaction is interrupted, a replay shows all pages as
/// they were before the transaction, or all as they were within it.
pub proof fn law_transaction_is_atomic<S: PersistentStore>(
    cache: &PageCache<S>,
    log0: LogState,
    k: int,
)
    requires
        cache.inv(),
        attached(cache@.log, cache@.store),
        forall|n: u64| #[trigger] cache@.dirty.contains(n) ==> cache@.refs[n] == 0,
        0 < cache@.write_back.len() < cache@.log.blocks,
        log0.wf(),
        same_place(cache@.log, log0),
        0 <= k <= commit_ops(cache@.log, cache@.dirty_pages()).len(),
    ensures
        ({
            let ops = commit_ops(cache@.log, cache@.dirty_pages());
            let disk = apply_ops(cache@.store, ops.take(k));
            &&& cache@.commit().history == cache@.history + ops
            &&& consistent(log0, disk)
            &&& log0.replayable(disk)
            &&& forall|n: u64|
                lockable(n) ==> #[trigger] recovered(log0, disk)[n] == (if k
                    <= cache@.write_back.len() {
                    cache@.store[n]
                } else {
                    cache@.pages[n]
                })
        }),
{
    let log = cache@.log;
    let pages = cache@.dirty_pages();
    let list = cache@.write_back;
    cache.lemma_disk();
    assert forall|i: int| 0 <= i < pages.len() implies !log.owns((#[trigger] pages[i]).0)
        && pages[i].0 != INVALID_PAGE by {
        assert(list.contains(list[i]));
    }
    assert forall|i: int, j: int| 0 <= i < j < pages.len() implies (#[trigger] pages[i]).0 != (
    #[trigger] pages[j]).0 by {
        assert(list[i] != list[j]);
    }
    law_commit_is_atomic(log, log0, cache@.store, pages, k);
    let disk = apply_ops(cache@.store, commit_ops(log, pages).take(k));
    assert forall|n: u64| lockable(n) implies #[trigger] recovered(log0, disk)[n] == (if k
        <= cache@.write_back.len() {
        cache@.store[n]
    } else {
        cache@.pages[n]
    }) by {
        assert(!log0.owns(n));
        lemma_overlay(cache@.store, pages, n);
        if cache@.dirty.contains(n) {
            assert(list.contains(n));
            let i = list.index_of(n);
            assert(pages[i] == (n, cache@.pages[n]));
        } else {
            assert forall|i: int| 0 <= i < pages.len() implies (#[trigger] pages[i]).0 != n by {
                assert(list.contains(list[i]));
            }
        }
    }
}

/// The log of a cache to which nothing has happened yet.
pub open spec fn initial_log() -> LogState {
    LogState {
        next_transaction_id: 1,
        next_header_seq: 0,
        header: Seq::new(PAGE_SIZE as nat, |i: int| 0u8),
        start: 1,
        blocks: (LOG_PAGES - 2) as nat,
        head: 0,
        tail: 0,
    }
}

/// A commit waits for the disk between writes to the log and writes to the pages themselves:
/// all that the log needs is there before the first page is touched, and all pages are in their
/// place before the log is emptied.
pub proof fn law_commit_waits_for_the_disk(
    log: LogState,
    pages: Seq<(u64, Seq<u8>)>,
    i: int,
    j: int,
)
    requires
        log.wf(),
        distinct_data(log, pages),
        pages.len() > 0,
        0 <= i < j < commit_ops(log, pages).len(),
        commit_ops(log, pages)[i] is Write,
        commit_ops(log, pages)[j] is Write,
        log.owns(commit_ops(log, pages)[i]->Write_0) != log.owns(
            commit_ops(log, pages)[j]->Write_0,
        ),
    ensures
        exists|s: int| i < s < j && #[trigger] commit_ops(log, pages)[s] == StoreOp::Sync,
{
    let ops = commit_ops(log, pages);
    let n = pages.len() as int;
    let blocks = log.log_block_ops(pages);
    let header = log.log_blocks(pages).publish_head().header_op();
    let write_back = write_back_ops(pages);
    let tail = seq![StoreOp::Sync, StoreOp::Sync] + write_back + seq![StoreOp::Sync];
    lemma_commit_parts(log, pages, 0);
    assert(pages =~= pages.take(n));
    lemma_write_back_touches(pages, pages);
    log.lemma_log_blocks_keeps(pages);
    lemma_block_ops_owned(log, pages);
    assert forall|k: int| 0 <= k < n implies log.owns((#[trigger] ops[k])->Write_0) by {
        assert(ops[k] == blocks[k]);
    }
    assert(ops[n] == header);
    assert(log.owns(ops[n]->Write_0));
    assert(ops[n + 1] == tail[0] && ops[n + 2] == tail[1]);
    assert forall|k: int| n + 3 <= k < 2 * n + 3 implies !log.owns((#[trigger] ops[k])->Write_0)
        && ops[k] is Write by {
        assert(ops[k] == tail[k - n - 1]);
        assert(tail[k - n - 1] == write_back[k - n - 3]);
        lemma_write_back_writes(pages, k - n - 3);
        assert(touches_only(write_back[k - n - 3], pages));
    }
    assert(ops[2 * n + 3] == tail[n + 2]);
    assert(tail[n + 2] == StoreOp::Sync);
    if i <= n {
        assert(ops[n + 1] == StoreOp::Sync);
        if j <= n {
            assert(false);
        }
    } else {
        assert(ops[2 * n + 3] == StoreOp::Sync);
    }
}

proof fn lemma_block_ops_owned(log: LogState, pages: Seq<(u64, Seq<u8>)>)
    requires
        log.wf(),
    ensures
        log.log_block_ops(pages).len() == pages.len(),
        forall|k: int|
            0 <= k < pages.len() ==> (#[trigger] log.log_block_ops(pages)[k]) is Write && log.owns(
                log.log_block_ops(pages)[k]->Write_0,
            ),
    decreases pages.len(),
{
    if pages.len() > 0 {
        lemma_block_ops_owned(log, pages.drop_last());
        log.lemma_log_blocks_keeps(pages.drop_last());
    }
}

proof fn lemma_write_back_writes(pages: Seq<(u64, Seq<u8>)>, k: int)
    requires
        0 <= k < write_back_ops(pages).len(),
    ensures
        write_back_ops(pages)[k] is Write,
    decreases pages.len(),
{
    if k > 0 {
        let rest = write_back_ops(pages.drop_last());
        lemma_write_back_writes(pages.drop_last(), k - 1);
        assert(write_back_ops(pages)[k] == rest[k - 1]);
    }
}

/// A replay waits for the disk before it empties the log: its last write is that of a header,
/// right behind a sync, and all before that are writes of pages from the log.
pub proof fn law_replay_waits_for_the_disk(log0: LogState, store: Map<u64, Seq<u8>>, i: int)
    requires
        log0.wf(),
        consistent(log0, store),
        0 <= i < log0.replay_all_ops(store).len(),
    ensures
        ({
            let ops = log0.replay_all_ops(store);
            let n = ops.len() as int;
            &&& n >= 3
            &&& ops[n - 2] == StoreOp::Sync
            &&& ops[n - 1] is Write && log0.owns(ops[n - 1]->Write_0)
            &&& i < n - 2 ==> ops[i] is Write && !log0.owns(ops[i]->Write_0)
        }),
{
    let seq = choose|seq: u32| #[trigger]
        newest_is(log0, store, seq) && header_ok(log0, store[log0.header_page(seq)]);
    if no_header(log0, store) {
        assert(log0.replay_all_ops(store).len() == 0);
    } else {
        lemma_newest(log0, store, seq);
        let loaded = log0.load(store[log0.header_page(seq)]);
        let ops = log0.replay_all_ops(store);
        let copies = loaded.replay_ops(store, loaded.tail, loaded.pending());
        assert(loaded.block_after(loaded.tail, 0) == loaded.tail);
        lemma_copies(loaded, log0, store, 0);
        assert(loaded.pending() > 0);
        if i < ops.len() - 2 {
            assert(ops[i] == copies[i]);
        }
        assert(log0.owns(loaded.header_page(loaded.next_header_seq)));
    }
}

proof fn lemma_copies(loaded: LogState, log0: LogState, store: Map<u64, Seq<u8>>, i: nat)
    requires
        loaded.start == log0.start,
        loaded.blocks == log0.blocks,
        loaded.tail < loaded.blocks,
        loaded.head < loaded.blocks,
        i <= loaded.pending(),
        forall|j: nat| #![trigger loaded.block_after(loaded.tail, j)]
            j < loaded.pending() ==> {
                let target = loaded.target(loaded.block_after(loaded.tail, j));
                target != INVALID_PAGE && !log0.owns(target as u64)
            },
    ensures
        ({
            let ops = loaded.replay_ops(
                store,
                loaded.block_after(loaded.tail, i),
                (loaded.pending() - i) as nat,
            );
            &&& ops.len() == loaded.pending() - i
            &&& forall|k: int|
                0 <= k < ops.len() ==> (#[trigger] ops[k]) is Write && !log0.owns(ops[k]->Write_0)
        }),
    decreases loaded.pending() - i,
{
    if i < loaded.pending() {
        let block = loaded.block_after(loaded.tail, i);
        let op = loaded.replay_op(store, block);
        assert(loaded.next_block(block) == loaded.block_after(loaded.tail, i + 1));
        lemma_copies(loaded, log0, apply_op(store, op), i + 1);
        let rest = loaded.replay_ops(
            apply_op(store, op),
            loaded.next_block(block),
            (loaded.pending() - i - 1) as nat,
        );
        let ops = loaded.replay_ops(store, block, (loaded.pending() - i) as nat);
        assert(ops == seq![op] + rest);
        assert forall|k: int| 0 <= k < ops.len() implies (#[trigger] ops[k]) is Write
            && !log0.owns(ops[k]->Write_0) by {
            if k > 0 {
                assert(ops[k] == rest[k - 1]);
            }
        }
    }
}

/// What is written over a store is there afterwards, the last of several for one page, and all
/// other pages are as they were.
pub proof fn law_overlay_shows_what_was_written(
    store: Map<u64, Seq<u8>>,
    pages: Seq<(u64, Seq<u8>)>,
    num: u64,
    data: Seq<u8>,
    q: u64,
)
    ensures
        overlay(store, Seq::empty())[q] == store[q],
        overlay(store, pages.push((num, data)))[num] == data,
        q != num ==> overlay(store, pages.push((num, data)))[q] == overlay(store, pages)[q],
{
    assert(pages.push((num, data)).drop_last() =~= pages);
}

/// The end of a transaction puts all that it has changed on disk. No page looks different
/// after that, none is left to be written, and no slot of the cache is taken by a change.
pub proof fn law_commit_puts_changes_on_disk<S: PersistentStore>(cache: &PageCache<S>)
    requires
        cache.inv(),
        attached(cache@.log, cache@.store),
        forall|n: u64| #[trigger] cache@.dirty.contains(n) ==> cache@.refs[n] == 0,
    ensures
        ({
            let after = cache@.commit();
            &&& !after.in_transaction
            &&& after.dirty == Set::<u64>::empty()
            &&& after.write_back.len() == 0
            &&& after.pages == cache@.pages
            &&& after.refs == cache@.refs
            &&& after.available == cache@.available + cache@.write_back.len()
            &&& forall|n: u64| lockable(n) ==> #[trigger] after.store[n] == cache@.pages[n]
        }),
{
    let log = cache@.log;
    let pages = cache@.dirty_pages();
    let list = cache@.write_back;
    let after = cache@.commit();
    cache.lemma_disk();
    assert forall|i: int| 0 <= i < pages.len() implies !log.owns((#[trigger] pages[i]).0)
        && pages[i].0 != INVALID_PAGE by {
        assert(list.contains(list[i]));
    }
    assert forall|i: int, j: int| 0 <= i < j < pages.len() implies (#[trigger] pages[i]).0 != (
    #[trigger] pages[j]).0 by {
        assert(list[i] != list[j]);
    }
    if list.len() > 0 {
        law_commit_completes(log, cache@.store, pages);
    } else {
        assert forall|n: u64| !cache@.dirty.contains(n) by {
            if cache@.dirty.contains(n) {
                assert(list.contains(n));
            }
        }
        assert(cache@.dirty =~= Set::<u64>::empty());
    }
    assert forall|n: u64| lockable(n) implies #[trigger] after.store[n] == cache@.pages[n] by {
        assert(!log.owns(n));
        if list.len() > 0 {
            lemma_overlay(cache@.store, pages, n);
            assert(after.store[n] == overlay(cache@.store, pages)[n]);
            if cache@.dirty.contains(n) {
                assert(list.contains(n));
                let i = list.index_of(n);
                assert(pages[i] == (n, cache@.pages[n]));
            } else {
                assert forall|i: int| 0 <= i < pages.len() implies (#[trigger] pages[i]).0 != n by {
                    assert(list.contains(list[i]));
                }
            }
        }
    }
}

/// Each block of a transaction is logged with the number of the transaction and of its page,
/// in the blocks from the head on; the next transaction has another number.
pub proof fn law_logged_blocks_are_described(log: LogState, pages: Seq<(u64, Seq<u8>)>, i: int)
    requires
        log.wf(),
        pages.len() < log.blocks,
        0 <= i < pages.len(),
    ensures
        ({
            let after = log.log_transaction(pages);
            let block = if log.head + i < log.blocks {
                log.head + i
            } else {
                log.head + i - log.blocks
            };
            &&& le32(after.header, 12 + 12 * block) == log.next_transaction_id
            &&& le64(after.header, 12 + 12 * block + 4) == pages[i].0
            &&& after.next_transaction_id != log.next_transaction_id
            &&& after.head == log.block_after(log.head, pages.len())
            &&& le16(after.header, 8) == after.head
            &&& le16(after.header, 10) == le16(log.header, 10)
            &&& le32(after.header, 4) == log.next_header_seq
            &&& header_valid(after.header)
        }),
{
    let logged = log.log_blocks(pages);
    let ready = logged.publish_head();
    let after = log.log_transaction(pages);
    let seq = log.next_header_seq;
    let block = wrap(log, i as nat) as int;
    lemma_logged(log, pages, Map::empty());
    log.lemma_log_blocks_keeps(pages);
    lemma_logged_ids(log, pages, i);
    assert(12 + 12 * block + 12 <= PAGE_SIZE) by (nonlinear_arith)
        requires
            block < log.blocks,
            12 + log.blocks * 12 <= PAGE_SIZE,
    ;
    lemma_sealed(ready.header, seq);
    lemma_le16_roundtrip(logged.head as u16);
    let head = le16_bytes(logged.head as u16);
    let numbered = overwrite(ready.header, 4, le32_bytes(seq));
    lemma_le32_roundtrip(seq);
    lemma_le16_frame(ready.header, 4, le32_bytes(seq), 8);
    lemma_le16_frame(ready.header, 4, le32_bytes(seq), 10);
    lemma_le32_frame(ready.header, 4, le32_bytes(seq), 12 + 12 * block);
    lemma_le64_frame(ready.header, 4, le32_bytes(seq), 12 + 12 * block + 4);
    let sum = le32_bytes(checksum_spec(numbered.subrange(4, numbered.len() as int)));
    lemma_le32_roundtrip(checksum_spec(numbered.subrange(4, numbered.len() as int)));
    lemma_le16_frame(numbered, 0, sum, 8);
    lemma_le16_frame(numbered, 0, sum, 10);
    lemma_le32_frame(numbered, 0, sum, 12 + 12 * block);
    lemma_le64_frame(numbered, 0, sum, 12 + 12 * block + 4);
    lemma_le16_frame(logged.header, 8, head, 10);
    lemma_le32_frame(logged.header, 8, head, 12 + 12 * block);
    lemma_le64_frame(logged.header, 8, head, 12 + 12 * block + 4);
    assert(le16(ready.header, 8) == le16(head, 0));
}

proof fn lemma_logged_ids(log: LogState, pages: Seq<(u64, Seq<u8>)>, i: int)
    requires
        log.wf(),
        pages.len() < log.blocks,
        0 <= i < pages.len(),
    ensures
        le32(log.log_blocks(pages).header, page_header_offs(wrap(log, i as nat)))
            == log.next_transaction_id,
    decreases pages.len(),
{
    let rest = pages.drop_last();
    let mid = log.log_blocks(rest);
    lemma_logged(log, rest, Map::empty());
    log.lemma_log_blocks_keeps(rest);
    let at = mid.head;
    let block = wrap(log, i as nat);
    let offs = page_header_offs(at);
    let id = le32_bytes(log.next_transaction_id);
    let num = le64_bytes(pages.last().0);
    let first = overwrite(mid.header, offs, id);
    lemma_le32_roundtrip(log.next_transaction_id);
    lemma_le64_roundtrip(pages.last().0);
    assert(at == wrap(log, rest.len()));
    assert(12 + at * 12 + 12 <= PAGE_SIZE && 12 + block * 12 + 12 <= PAGE_SIZE) by (nonlinear_arith)
        requires
            at < log.blocks,
            block < log.blocks,
            12 + log.blocks * 12 <= PAGE_SIZE,
    ;
    if i == rest.len() {
        assert(le32(first, offs) == le32(id, 0));
        lemma_le32_frame(first, offs + 4, num, offs);
    } else {
        lemma_logged_ids(log, rest, i);
        assert(block != at);
        let place = page_header_offs(block);
        assert(place + 12 <= offs || offs + 12 <= place) by (nonlinear_arith)
            requires
                block < at || at < block,
                place == 12 + block * 12,
                offs == 12 + at * 12,
        ;
        lemma_le32_frame(mid.header, offs, id, place);
        lemma_le32_frame(first, offs + 4, num, place);
    }
}

} // verus!
