//! The write ahead log ensures database consistency in the event of a crash by
//! a two-phase commit.
//!
//! The on-disk data structure starts with two copies of the log header. Writes
//! alternate between these two pages so that there is always a valid copy in
//! the event of a write failure. An incrementing sequence number in the header
//! tells the newest one at startup.
//!
//! The log holds a circular buffer of page data to be written. The log header
//! holds head and tail indices and an array of metadata for each page. The
//! head refers to the next block to be used (one block beyond the last written
//! block), the tail to the oldest valid block. If they are equal the log is
//! empty, so the capacity of the buffer is one less than the number of blocks.
//!
//! The header is always written after the corresponding data blocks. Head and
//! tail never change in the same write. Headers are checksummed to detect
//! failures like torn or failed writes.
//!
//! ```text
//! struct WriteAheadLog {
//!      header_a: LogHeader,
//!      header_b: LogHeader,
//!      pages: [PageData; COUNT]
//! }
//!
//! struct LogHeader {
//!     checksum: u32,
//!     header_sequence: u32,
//!     head_page_num: u16,
//!     tail_page_num: u16,
//!     page_headers: [PageHeader; COUNT]
//! }
//!
//! struct PageHeader {
//!      transaction_id: u32,
//!      file_page_id: u64
//! }
//! ```

use vstd::prelude::*;

use crate::page_cache::{
    apply_op, apply_ops, lemma_apply_push, PageData, PageNum, PageNumOptionExt, PersistentStore,
    StoreOp, INVALID_PAGE, PAGE_SIZE,
};
use crate::util::{
    checksum, checksum_spec, get_u16, get_u32, get_u64, le16, le16_bytes, le32, le32_bytes, le64,
    le64_bytes, overwrite, seq_after, set_u16, set_u32, set_u64, wrapping_gtr,
};

verus! {

pub const PAGE_HEADER_SIZE: usize = 12;

/// One block per header.
pub const HEADER_BLOCKS: usize = 2;

pub const LH_CHECKSUM_OFFS: usize = 0;

pub const LH_SEQ_OFFS: usize = 4;

pub const LH_HEAD_OFFS: usize = 8;

pub const LH_TAIL_OFFS: usize = 10;

pub const LH_PAGE_HDRS_OFFS: usize = 12;

pub const PH_FPID_OFFS: usize = 4;

/// The state of a log between two operations.
pub struct LogState {
    pub next_transaction_id: u32,
    pub next_header_seq: u32,
    pub header: Seq<u8>,
    pub start: u64,
    pub blocks: nat,
    pub head: nat,
    pub tail: nat,
}

/// The number after `n`, wrapping around.
pub open spec fn next_u32(n: u32) -> u32 {
    if n == u32::MAX {
        0
    } else {
        (n + 1) as u32
    }
}

/// Where in the header the metadata of a block stands.
pub open spec fn page_header_offs(block: nat) -> int {
    LH_PAGE_HDRS_OFFS + block * PAGE_HEADER_SIZE
}

/// The header `header` with sequence number `seq` and a fitting checksum.
pub open spec fn seal_header(header: Seq<u8>, seq: u32) -> Seq<u8> {
    let numbered = overwrite(header, LH_SEQ_OFFS as int, le32_bytes(seq));
    overwrite(
        numbered,
        LH_CHECKSUM_OFFS as int,
        le32_bytes(checksum_spec(numbered.subrange(4, numbered.len() as int))),
    )
}

/// Whether the checksum of a header fits.
pub open spec fn header_valid(header: Seq<u8>) -> bool {
    checksum_spec(header.subrange(4, PAGE_SIZE as int)) == le32(header, LH_CHECKSUM_OFFS as int)
}

impl LogState {
    /// The page that holds block `block` of the circular buffer.
    pub open spec fn block_page(self, block: nat) -> u64 {
        (self.start + HEADER_BLOCKS + block) as u64
    }

    /// The page that the header with number `seq` goes to: even numbers to the first, odd to the second.
    pub open spec fn header_page(self, seq: u32) -> u64 {
        (self.start + seq % 2) as u64
    }

    /// The state after one more page of a transaction was logged.
    pub open spec fn log_block(self, num: u64) -> LogState {
        let offs = page_header_offs(self.head);
        LogState {
            header: overwrite(
                overwrite(self.header, offs, le32_bytes(self.next_transaction_id)),
                offs + PH_FPID_OFFS,
                le64_bytes(num),
            ),
            head: (self.head + 1) % self.blocks,
            ..self
        }
    }

    /// The state after `pages` were logged.
    pub open spec fn log_blocks(self, pages: Seq<(u64, Seq<u8>)>) -> LogState
        decreases pages.len(),
    {
        if pages.len() == 0 {
            self
        } else {
            self.log_blocks(pages.drop_last()).log_block(pages.last().0)
        }
    }

    /// The writes that put `pages` into the circular buffer.
    pub open spec fn log_block_ops(self, pages: Seq<(u64, Seq<u8>)>) -> Seq<StoreOp>
        decreases pages.len(),
    {
        if pages.len() == 0 {
            Seq::empty()
        } else {
            let before = self.log_blocks(pages.drop_last());
            self.log_block_ops(pages.drop_last()).push(
                StoreOp::Write(before.block_page(before.head), pages.last().1),
            )
        }
    }

    /// The state with the head stored in the header.
    pub open spec fn publish_head(self) -> LogState {
        LogState {
            header: overwrite(self.header, LH_HEAD_OFFS as int, le16_bytes(self.head as u16)),
            ..self
        }
    }

    /// The state with the tail in the header set to the head in the header.
    pub open spec fn publish_tail(self) -> LogState {
        LogState {
            header: overwrite(
                self.header,
                LH_TAIL_OFFS as int,
                le16_bytes(le16(self.header, LH_HEAD_OFFS as int) as u16),
            ),
            ..self
        }
    }

    /// The state after the header was written.
    pub open spec fn write_header(self) -> LogState {
        LogState {
            header: seal_header(self.header, self.next_header_seq),
            next_header_seq: next_u32(self.next_header_seq),
            ..self
        }
    }

    /// The write of the header.
    pub open spec fn header_op(self) -> StoreOp {
        StoreOp::Write(
            self.header_page(self.next_header_seq),
            seal_header(self.header, self.next_header_seq),
        )
    }

    /// The state after a transaction that writes `pages` was logged.
    pub open spec fn log_transaction(self, pages: Seq<(u64, Seq<u8>)>) -> LogState {
        LogState {
            next_transaction_id: next_u32(self.next_transaction_id),
            ..self.log_blocks(pages).publish_head().write_header()
        }
    }

    /// What logging a transaction does to the store: first the blocks, then the header.
    pub open spec fn log_transaction_ops(self, pages: Seq<(u64, Seq<u8>)>) -> Seq<StoreOp> {
        self.log_block_ops(pages).push(self.log_blocks(pages).publish_head().header_op()).push(
            StoreOp::Sync,
        )
    }

    /// The state after the logged blocks have reached their pages.
    pub open spec fn blocks_written(self) -> LogState {
        self.publish_tail().write_header()
    }

    pub open spec fn blocks_written_op(self) -> StoreOp {
        self.publish_tail().header_op()
    }

    /// The block after `block` in the circular buffer.
    pub open spec fn next_block(self, block: nat) -> nat {
        if block + 1 == self.blocks {
            0
        } else {
            block + 1
        }
    }

    /// The block that is `i` blocks behind `block` in the circular buffer.
    pub open spec fn block_after(self, block: nat, i: nat) -> nat {
        if block + i < self.blocks {
            block + i
        } else {
            (block + i - self.blocks) as nat
        }
    }

    /// How many blocks lie between the tail and the head.
    pub open spec fn pending(self) -> nat {
        if self.head >= self.tail {
            (self.head - self.tail) as nat
        } else {
            (self.blocks - self.tail + self.head) as nat
        }
    }

    /// The file page that the header names for a block.
    pub open spec fn target(self, block: nat) -> int {
        le64(self.header, page_header_offs(block) + PH_FPID_OFFS)
    }

    /// The write that copies a block to its page.
    pub open spec fn replay_op(self, pages: Map<u64, Seq<u8>>, block: nat) -> StoreOp {
        StoreOp::Write(self.target(block) as u64, pages[self.block_page(block)])
    }

    /// The writes that copy `count` blocks, from `block` on, to their pages.
    pub open spec fn replay_ops(
        self,
        pages: Map<u64, Seq<u8>>,
        block: nat,
        count: nat,
    ) -> Seq<StoreOp>
        decreases count,
    {
        if count == 0 {
            Seq::empty()
        } else {
            let op = self.replay_op(pages, block);
            seq![op] + self.replay_ops(
                apply_op(pages, op),
                self.next_block(block),
                (count - 1) as nat,
            )
        }
    }

    /// The header that counts among the two on disk, `None` if neither is valid.
    pub open spec fn newest_header(self, pages: Map<u64, Seq<u8>>) -> Option<Seq<u8>> {
        let a = pages[self.start];
        let b = pages[(self.start + 1) as u64];
        if header_valid(a) && header_valid(b) {
            if seq_after(
                le32(a, LH_SEQ_OFFS as int) as u32,
                le32(b, LH_SEQ_OFFS as int) as u32,
            ) {
                Some(a)
            } else {
                Some(b)
            }
        } else if header_valid(a) {
            Some(a)
        } else if header_valid(b) {
            Some(b)
        } else {
            None
        }
    }

    /// The state right after the header on disk was taken over.
    pub open spec fn load(self, header: Seq<u8>) -> LogState {
        LogState {
            header,
            next_header_seq: next_u32(le32(header, LH_SEQ_OFFS as int) as u32),
            head: le16(header, LH_HEAD_OFFS as int) as nat,
            tail: le16(header, LH_TAIL_OFFS as int) as nat,
            ..self
        }
    }

    /// The header on disk, if one is valid, points into the buffer, and the
    /// blocks to be replayed name pages.
    pub open spec fn replayable(self, pages: Map<u64, Seq<u8>>) -> bool {
        self.newest_header(pages) matches Some(header) ==> {
            let loaded = self.load(header);
            &&& loaded.head < self.blocks
            &&& loaded.tail < self.blocks
            &&& forall|i: nat| #![trigger loaded.block_after(loaded.tail, i)]
                i < loaded.pending() ==> loaded.target(loaded.block_after(loaded.tail, i))
                    != INVALID_PAGE
        }
    }

    /// The state after a replay.
    pub open spec fn replay(self, pages: Map<u64, Seq<u8>>) -> LogState {
        match self.newest_header(pages) {
            None => LogState { next_header_seq: 0, ..self },
            Some(header) => {
                let loaded = self.load(header);
                if loaded.head == loaded.tail {
                    loaded
                } else {
                    loaded.blocks_written()
                }
            },
        }
    }

    /// What a replay does to the store: copy the pending blocks, then mark them as written.
    pub open spec fn replay_all_ops(self, pages: Map<u64, Seq<u8>>) -> Seq<StoreOp> {
        match self.newest_header(pages) {
            None => Seq::empty(),
            Some(header) => {
                let loaded = self.load(header);
                if loaded.head == loaded.tail {
                    Seq::empty()
                } else {
                    loaded.replay_ops(pages, loaded.tail, loaded.pending()).push(
                        StoreOp::Sync,
                    ).push(loaded.blocks_written_op())
                }
            },
        }
    }
}

/// The pages of a transaction as plain values.
pub open spec fn logged_pages(pages: Seq<(PageNum, PageData)>) -> Seq<(u64, Seq<u8>)> {
    pages.map_values(|page: (PageNum, PageData)| (page.0@, page.1@))
}

pub struct WriteAheadLog {
    next_transaction_id: u32,
    next_header_seq: u32,  // Even sequences go to block 0, odd to 1
    header_data: PageData,  // Contents of next header to be written
    log_start: PageNum,
    num_log_blocks: usize,
    head: usize,
    tail: usize,
}

impl View for WriteAheadLog {
    type V = LogState;

    closed spec fn view(&self) -> LogState {
        LogState {
            next_transaction_id: self.next_transaction_id,
            next_header_seq: self.next_header_seq,
            header: self.header_data@,
            start: self.log_start@,
            blocks: self.num_log_blocks as nat,
            head: self.head as nat,
            tail: self.tail as nat,
        }
    }
}

impl LogState {
    /// Logging blocks moves the head and fills the header, and changes nothing else.
    pub proof fn lemma_log_blocks_keeps(self, pages: Seq<(u64, Seq<u8>)>)
        requires
            self.wf(),
        ensures
            self.log_blocks(pages).wf(),
            self.log_blocks(pages) == (LogState {
                header: self.log_blocks(pages).header,
                head: self.log_blocks(pages).head,
                ..self
            }),
        decreases pages.len(),
    {
        if pages.len() > 0 {
            self.lemma_log_blocks_keeps(pages.drop_last());
        }
    }

    /// Whether a page belongs to the log.
    pub open spec fn owns(self, num: u64) -> bool {
        self.start <= num < self.start + HEADER_BLOCKS + self.blocks
    }

    /// Logging a transaction writes to no page outside the log.
    pub proof fn lemma_log_frame(
        self,
        pages: Seq<(u64, Seq<u8>)>,
        store: Map<u64, Seq<u8>>,
        num: u64,
    )
        requires
            self.wf(),
            !self.owns(num),
        ensures
            apply_ops(store, self.log_block_ops(pages))[num] == store[num],
            apply_ops(store, self.log_transaction_ops(pages))[num] == store[num],
        decreases pages.len(),
    {
        let ops = self.log_block_ops(pages);
        if pages.len() > 0 {
            let before = self.log_blocks(pages.drop_last());
            self.lemma_log_frame(pages.drop_last(), store, num);
            self.lemma_log_blocks_keeps(pages.drop_last());
            lemma_apply_push(
                store,
                self.log_block_ops(pages.drop_last()),
                StoreOp::Write(before.block_page(before.head), pages.last().1),
            );
        }
        self.lemma_log_blocks_keeps(pages);
        let op = self.log_blocks(pages).publish_head().header_op();
        lemma_apply_push(store, ops, op);
        lemma_apply_push(store, ops.push(op), StoreOp::Sync);
    }

    /// The metadata of all blocks fits into a header page, and the head is one of them.
    pub open spec fn wf(self) -> bool {
        &&& self.header.len() == PAGE_SIZE
        &&& 0 < self.blocks
        &&& page_header_offs(self.blocks) <= PAGE_SIZE
        &&& self.start + HEADER_BLOCKS + self.blocks < INVALID_PAGE
        &&& self.head < self.blocks
        &&& self.tail < self.blocks
    }
}

/// Whether the checksum of a header fits.
fn is_valid(header: &PageData) -> (valid: bool)
    ensures
        valid == header_valid(header@),
{
    checksum(vstd::slice::slice_subrange(header, 4, PAGE_SIZE)) == get_u32(
        header,
        LH_CHECKSUM_OFFS,
    )
}

impl WriteAheadLog {
    /// A log on the `size` pages from `start` on.
    pub fn new(start: PageNum, size: usize) -> (log: Self)
        requires
            size > HEADER_BLOCKS,
            page_header_offs((size - HEADER_BLOCKS) as nat) <= PAGE_SIZE,
            start@ + size < INVALID_PAGE,
        ensures
            log@.wf(),
            log@ == (LogState {
                next_transaction_id: 1,
                next_header_seq: 0,
                header: Seq::new(PAGE_SIZE as nat, |i: int| 0u8),
                start: start@,
                blocks: (size - HEADER_BLOCKS) as nat,
                head: 0,
                tail: 0,
            }),
    {
        let log = Self {
            next_transaction_id: 1,
            next_header_seq: 0,
            header_data: [0u8;PAGE_SIZE],
            log_start: start,
            num_log_blocks: size - HEADER_BLOCKS,
            head: 0,
            tail: 0,
        };
        assert(log.header_data@ =~= Seq::new(PAGE_SIZE as nat, |i: int| 0u8));
        log
    }

    /// Makes a header read from disk the current one.
    fn adopt(&mut self, header: &PageData)
        ensures
            final(self)@ == old(self)@.load(header@),
    {
        self.header_data = *header;
        self.next_header_seq = get_u32(header, LH_SEQ_OFFS).wrapping_add(1);
        self.head = get_u16(header, LH_HEAD_OFFS) as usize;
        self.tail = get_u16(header, LH_TAIL_OFFS) as usize;
    }

    /// Takes over the newest valid header on disk; says whether there is one.
    fn load_header<S: PersistentStore>(&mut self, store: &mut S) -> (found: bool)
        requires
            old(self)@.wf(),
        ensures
            final(store).history() == old(store).history(),
            final(store).contents() == old(store).contents(),
            match old(self)@.newest_header(old(store).contents()) {
                Some(header) => found && final(self)@ == old(self)@.load(header)
                    && final(self)@.header.len() == PAGE_SIZE,
                None => !found && *final(self) == *old(self),
            },
    {
        let mut header_a: PageData = [0;PAGE_SIZE];
        let mut header_b: PageData = [0;PAGE_SIZE];
        store.read(self.log_start, &mut header_a);
        store.read(PageNum::from_u64(self.log_start.as_u64() + 1), &mut header_b);

        // Validate checksums, find newest
        let a_valid = is_valid(&header_a);
        let b_valid = is_valid(&header_b);
        if a_valid && b_valid {
            if wrapping_gtr(get_u32(&header_a, LH_SEQ_OFFS), get_u32(&header_b, LH_SEQ_OFFS)) {
                self.adopt(&header_a);
            } else {
                self.adopt(&header_b);
            }
        } else if a_valid {
            self.adopt(&header_a);
        } else if b_valid {
            self.adopt(&header_b);
        } else {
            return false;
        }
        true
    }

    /// Copies one block from the log to the file area.
    fn replay_block<S: PersistentStore>(&self, block: usize, store: &mut S)
        requires
            self@.wf(),
            block < self@.blocks,
            self@.target(block as nat) != INVALID_PAGE,
        ensures
            final(store).history() == old(store).history().push(
                self@.replay_op(old(store).contents(), block as nat),
            ),
            final(store).contents() == apply_op(
                old(store).contents(),
                self@.replay_op(old(store).contents(), block as nat),
            ),
    {
        let mut data: PageData = [0;PAGE_SIZE];
        let read_pnum = PageNum::from_u64(
            self.log_start.as_u64() + HEADER_BLOCKS as u64 + block as u64,
        );
        store.read(read_pnum, &mut data);
        let write_pnum = PageNum::from_u64(
            get_u64(
                &self.header_data,
                LH_PAGE_HDRS_OFFS + block * PAGE_HEADER_SIZE + PH_FPID_OFFS,
            ),
        );
        store.write(write_pnum, &data);
    }

    /// Copies all blocks between the tail and the head to the file area.
    fn replay_blocks<S: PersistentStore>(&self, store: &mut S)
        requires
            self@.wf(),
            forall|i: nat| #![trigger self@.block_after(self@.tail, i)]
                i < self@.pending() ==> self@.target(self@.block_after(self@.tail, i))
                    != INVALID_PAGE,
        ensures
            final(store).history() == old(store).history() + self@.replay_ops(
                old(store).contents(),
                self@.tail,
                self@.pending(),
            ),
            final(store).contents() == apply_ops(
                old(store).contents(),
                self@.replay_ops(old(store).contents(), self@.tail, self@.pending()),
            ),
    {
        let count: usize = if self.head >= self.tail {
            self.head - self.tail
        } else {
            self.num_log_blocks - self.tail + self.head
        };
        let mut cur: usize = self.tail;
        let mut done: usize = 0;
        let ghost log = self@;
        let ghost pages0 = store.contents();
        let ghost all = log.replay_ops(pages0, log.tail, count as nat);
        let ghost history0 = store.history();
        let ghost mut so_far: Seq<StoreOp> = Seq::empty();
        proof {
            assert(history0 + so_far =~= history0);
            assert(so_far + all =~= all);
        }
        while done < count
            invariant
                done <= count,
                cur < self.num_log_blocks,
                self@ == log,
                log.wf(),
                store.history() == history0 + so_far,
                store.contents() == apply_ops(pages0, so_far),
                so_far + log.replay_ops(store.contents(), cur as nat, (count - done) as nat) == all,
                count == log.pending(),
                cur == log.block_after(log.tail, done as nat),
                forall|i: nat| #![trigger log.block_after(log.tail, i)]
                    i < log.pending() ==> log.target(log.block_after(log.tail, i)) != INVALID_PAGE,
            decreases count - done,
        {
            let ghost pages1 = store.contents();
            assert(log.target(log.block_after(log.tail, done as nat)) != INVALID_PAGE);
            self.replay_block(cur, store);
            proof {
                let op = log.replay_op(pages1, cur as nat);
                assert(store.history() =~= history0 + so_far.push(op));
                lemma_apply_push(pages0, so_far, op);
                let rest = log.replay_ops(
                    store.contents(),
                    log.next_block(cur as nat),
                    (count - done - 1) as nat,
                );
                assert(so_far.push(op) + rest =~= so_far + (seq![op] + rest));
                so_far = so_far.push(op);
            }
            assert(log.next_block(cur as nat) == log.block_after(log.tail, (done + 1) as nat));
            if cur == self.num_log_blocks - 1 {
                cur = 0;
            } else {
                cur = cur + 1;
            }
            done = done + 1;
        }
        proof {
            assert(so_far + Seq::<StoreOp>::empty() =~= so_far);
        }
    }

    /// Finds the newest header on disk, and copies the blocks that it lists to
    /// their pages if that was not done before.
    pub fn replay<S: PersistentStore>(&mut self, store: &mut S)
        requires
            old(self)@.wf(),
            old(self)@.replayable(old(store).contents()),
        ensures
            final(self)@.wf(),
            final(self)@ == old(self)@.replay(old(store).contents()),
            final(store).history() == old(store).history() + old(self)@.replay_all_ops(
                old(store).contents(),
            ),
            final(store).contents() == apply_ops(
                old(store).contents(),
                old(self)@.replay_all_ops(old(store).contents()),
            ),
    {
        let ghost pages0 = store.contents();
        let ghost history0 = store.history();
        let ghost state0 = self@;
        if !self.load_header(store) {
            // No valid header, nothing to replay
            self.next_header_seq = 0;
            assert(store.history() =~= history0 + Seq::<StoreOp>::empty());
            return ;
        }
        let ghost loaded = self@;
        if self.head != self.tail {
            self.replay_blocks(store);
            store.sync();
            self.blocks_written(store);
            proof {
                let all = loaded.replay_ops(pages0, loaded.tail, loaded.pending());
                let ops = all.push(StoreOp::Sync).push(loaded.blocks_written_op());
                assert(store.history() =~= history0 + ops);
                lemma_apply_push(pages0, all, StoreOp::Sync);
                lemma_apply_push(pages0, all.push(StoreOp::Sync), loaded.blocks_written_op());
            }
        } else {
            assert(store.history() =~= history0 + Seq::<StoreOp>::empty());
        }
    }

    /// Puts one page of a transaction into the log.
    fn log_block<S: PersistentStore>(&mut self, page_num: PageNum, data: &PageData, store: &mut S)
        requires
            old(self)@.wf(),
        ensures
            final(self)@.wf(),
            final(self)@ == old(self)@.log_block(page_num@),
            final(store).history() == old(store).history().push(
                StoreOp::Write(old(self)@.block_page(old(self)@.head), data@),
            ),
            final(store).contents() == old(store).contents().insert(
                old(self)@.block_page(old(self)@.head),
                data@,
            ),
    {
        // Update the block data structure
        let offset: usize = LH_PAGE_HDRS_OFFS + self.head * PAGE_HEADER_SIZE;
        set_u32(&mut self.header_data, offset, self.next_transaction_id);
        set_u64(&mut self.header_data, offset + PH_FPID_OFFS, Some(page_num).to_encoded());

        // Write the block data itself to the log.
        let write_pnum = PageNum::from_u64(
            self.log_start.as_u64() + HEADER_BLOCKS as u64 + self.head as u64,
        );
        store.write(write_pnum, data);
        self.head = (self.head + 1) % self.num_log_blocks;
    }

    /// Puts all pages of a transaction into the log.
    fn log_blocks<S: PersistentStore>(&mut self, pages: &Vec<(PageNum, PageData)>, store: &mut S)
        requires
            old(self)@.wf(),
        ensures
            final(self)@.wf(),
            final(self)@ == old(self)@.log_blocks(logged_pages(pages@)),
            final(store).history() == old(store).history() + old(self)@.log_block_ops(
                logged_pages(pages@),
            ),
            final(store).contents() == apply_ops(
                old(store).contents(),
                old(self)@.log_block_ops(logged_pages(pages@)),
            ),
    {
        let ghost state0 = self@;
        let ghost pages0 = store.contents();
        let ghost history0 = store.history();
        let ghost all = logged_pages(pages@);
        let mut i: usize = 0;
        assert(all.subrange(0, 0) =~= Seq::<(u64, Seq<u8>)>::empty());
        assert(history0 + Seq::<StoreOp>::empty() =~= history0);
        while i < pages.len()
            invariant
                i <= pages@.len(),
                all == logged_pages(pages@),
                self@.wf(),
                self@ == state0.log_blocks(all.subrange(0, i as int)),
                store.history() == history0 + state0.log_block_ops(all.subrange(0, i as int)),
                store.contents() == apply_ops(
                    pages0,
                    state0.log_block_ops(all.subrange(0, i as int)),
                ),
            decreases pages@.len() - i,
        {
            let ghost before = self@;
            let ghost done = all.subrange(0, i as int);
            self.log_block(pages[i].0, &pages[i].1, store);
            proof {
                let more = all.subrange(0, i + 1);
                assert(more.drop_last() =~= done);
                assert(more.last() == (pages@[i as int].0@, pages@[i as int].1@));
                let ops = state0.log_block_ops(done);
                let op = StoreOp::Write(before.block_page(before.head), pages@[i as int].1@);
                assert(state0.log_block_ops(more) == ops.push(op));
                lemma_apply_push(pages0, ops, op);
                assert(store.history() =~= history0 + ops.push(op));
            }
            i = i + 1;
        }
        assert(all.subrange(0, i as int) =~= all);
    }

    /// Logs the pages that a transaction is about to write.
    pub fn log_transaction<S: PersistentStore>(
        &mut self,
        pages: &Vec<(PageNum, PageData)>,
        store: &mut S,
    )
        requires
            old(self)@.wf(),
        ensures
            final(self)@.wf(),
            final(self)@ == old(self)@.log_transaction(logged_pages(pages@)),
            final(store).history() == old(store).history() + old(self)@.log_transaction_ops(
                logged_pages(pages@),
            ),
            final(store).contents() == apply_ops(
                old(store).contents(),
                old(self)@.log_transaction_ops(logged_pages(pages@)),
            ),
    {
        let ghost state0 = self@;
        let ghost pages0 = store.contents();
        let ghost history0 = store.history();
        let ghost all = logged_pages(pages@);
        // Write all transaction blocks to log.
        self.log_blocks(pages, store);
        let ghost logged = self@;
        set_u16(&mut self.header_data, LH_HEAD_OFFS, self.head as u16);
        assert(self@ == logged.publish_head());
        self.write_header(store);
        store.sync();
        self.next_transaction_id = self.next_transaction_id.wrapping_add(1);
        proof {
            let ops = state0.log_block_ops(all);
            let op = logged.publish_head().header_op();
            lemma_apply_push(pages0, ops, op);
            lemma_apply_push(pages0, ops.push(op), StoreOp::Sync);
            assert(store.history() =~= history0 + ops.push(op).push(StoreOp::Sync));
            state0.lemma_log_blocks_keeps(all);
        }
    }

    /// Writes the current header to disk.
    fn write_header<S: PersistentStore>(&mut self, store: &mut S)
        requires
            old(self)@.wf(),
        ensures
            final(self)@.wf(),
            final(self)@ == old(self)@.write_header(),
            final(store).history() == old(store).history().push(old(self)@.header_op()),
            final(store).contents() == apply_op(
                old(store).contents(),
                old(self)@.header_op(),
            ),
    {
        let ghost state0 = self@;
        let header_seq: u32 = self.next_header_seq;
        self.next_header_seq = self.next_header_seq.wrapping_add(1);
        set_u32(&mut self.header_data, LH_SEQ_OFFS, header_seq);
        let sum: u32 = checksum(vstd::slice::slice_subrange(&self.header_data, 4, PAGE_SIZE));
        set_u32(&mut self.header_data, LH_CHECKSUM_OFFS, sum);
        assert(self@ == state0.write_header());
        store.write(
            PageNum::from_u64(self.log_start.as_u64() + (header_seq % 2) as u64),
            &self.header_data,
        );
    }

    /// Marks all logged blocks as written to their pages: sets the tail to the head.
    pub fn blocks_written<S: PersistentStore>(&mut self, store: &mut S)
        requires
            old(self)@.wf(),
        ensures
            final(self)@.wf(),
            final(self)@ == old(self)@.blocks_written(),
            final(store).history() == old(store).history().push(old(self)@.blocks_written_op()),
            final(store).contents() == apply_op(
                old(store).contents(),
                old(self)@.blocks_written_op(),
            ),
    {
        let ghost state0 = self@;
        let head: u16 = get_u16(&self.header_data, LH_HEAD_OFFS);
        set_u16(&mut self.header_data, LH_TAIL_OFFS, head);
        assert(self@ == state0.publish_tail());
        self.write_header(store);
    }
}

} // verus!
