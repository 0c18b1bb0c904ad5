//! This module mediates all disk access, keeping recently used pages in memory.

use std::collections::HashMap;
use vstd::prelude::*;

use crate::util::{get_u64, le64, le64_bytes, set_u64, IndexQueue};
use crate::wal::{logged_pages, LogState, WriteAheadLog};

verus! {

/// How many pages the write ahead log takes, from page 1 on.
pub const LOG_PAGES: usize = 10;

pub const PAGE_SIZE: usize = 0x2000;

pub type PageData = [u8; PAGE_SIZE];

/// This uniquely identifies a page size chunk inside the file.
#[derive(PartialEq, Eq, PartialOrd, Ord, Debug, Clone, Copy, Hash, Default, Structural)]
pub struct PageNum(pub(crate) u64);

/// This value is stored on disk to delimit linked lists or to say that a field
/// has no value.
pub const INVALID_PAGE: u64 = u64::MAX;

/// The page number that the stored number `val` stands for.
pub open spec fn decode_page_num(val: int) -> Option<u64> {
    if val == INVALID_PAGE {
        None
    } else {
        Some(val as u64)
    }
}

/// The number that is stored for an optional page number.
pub open spec fn encode_page_num(num: Option<u64>) -> u64 {
    match num {
        Some(val) => val,
        None => INVALID_PAGE,
    }
}

/// The numbers inside an optional page number.
pub open spec fn page_num_view(num: Option<PageNum>) -> Option<u64> {
    match num {
        Some(val) => Some(val@),
        None => None,
    }
}

impl View for PageNum {
    type V = u64;

    closed spec fn view(&self) -> u64 {
        self.0
    }
}

impl PageNum {
    /// Reads the page number in the first eight bytes, `None` if they hold the invalid pattern.
    pub fn from_bytes(bytes: &[u8]) -> (result: Option<Self>)
        requires
            bytes@.len() >= 8,
        ensures
            page_num_view(result) == decode_page_num(le64(bytes@, 0)),
    {
        Self::from_encoded(get_u64(bytes, 0))
    }

    pub fn to_bytes(self) -> (bytes: [u8; 8])
        ensures
            bytes@ == le64_bytes(self@),
    {
        let mut bytes: [u8; 8] = [0;8];
        set_u64(&mut bytes, 0, self.0);
        assert(bytes@ =~= le64_bytes(self@));
        bytes
    }

    /// The invalid pattern is only stored on disk; in memory an `Option` takes its place.
    pub fn from_u64(val: u64) -> (result: Self)
        requires
            val != INVALID_PAGE,
        ensures
            result@ == val,
    {
        PageNum(val)
    }

    pub fn as_u64(&self) -> (val: u64)
        ensures
            val == self@,
    {
        self.0
    }

    /// The page number that is stored as `val`.
    pub fn from_encoded(val: u64) -> (result: Option<Self>)
        ensures
            page_num_view(result) == decode_page_num(val as int),
    {
        if val == INVALID_PAGE {
            None
        } else {
            Some(PageNum(val))
        }
    }
}

/// The stored forms of an optional page number.
pub trait PageNumOptionExt {
    spec fn encoded_spec(&self) -> u64;

    fn to_bytes(&self) -> (bytes: [u8; 8])
        ensures
            bytes@ == le64_bytes(self.encoded_spec()),
    ;

    fn to_encoded(&self) -> (val: u64)
        ensures
            val == self.encoded_spec(),
    ;
}

impl PageNumOptionExt for Option<PageNum> {
    open spec fn encoded_spec(&self) -> u64 {
        encode_page_num(page_num_view(*self))
    }

    fn to_bytes(&self) -> (bytes: [u8; 8]) {
        match self {
            Some(num) => num.to_bytes(),
            None => PageNum(INVALID_PAGE).to_bytes(),
        }
    }

    fn to_encoded(&self) -> (val: u64) {
        match self {
            Some(num) => num.0,
            None => INVALID_PAGE,
        }
    }
}

/// What was done to a store, in order.
pub enum StoreOp {
    Write(u64, Seq<u8>),
    Sync,
}

/// The pages of a store after one more operation.
pub open spec fn apply_op(pages: Map<u64, Seq<u8>>, op: StoreOp) -> Map<u64, Seq<u8>> {
    match op {
        StoreOp::Write(num, data) => pages.insert(num, data),
        StoreOp::Sync => pages,
    }
}

/// The pages of a store after the operations `ops`.
pub open spec fn apply_ops(pages: Map<u64, Seq<u8>>, ops: Seq<StoreOp>) -> Map<u64, Seq<u8>>
    decreases ops.len(),
{
    if ops.len() == 0 {
        pages
    } else {
        apply_op(apply_ops(pages, ops.drop_last()), ops.last())
    }
}

pub proof fn lemma_apply_push(pages: Map<u64, Seq<u8>>, ops: Seq<StoreOp>, op: StoreOp)
    ensures
        apply_ops(pages, ops.push(op)) == apply_op(apply_ops(pages, ops), op),
{
    assert(ops.push(op).drop_last() =~= ops);
}

pub proof fn lemma_apply_concat(pages: Map<u64, Seq<u8>>, first: Seq<StoreOp>, second: Seq<StoreOp>)
    ensures
        apply_ops(pages, first + second) == apply_ops(apply_ops(pages, first), second),
    decreases second.len(),
{
    if second.len() == 0 {
        assert(first + second =~= first);
    } else {
        assert((first + second).drop_last() =~= first + second.drop_last());
        lemma_apply_concat(pages, first, second.drop_last());
    }
}

/// The interface to the underlying storage, called to read and write pages. What
/// a store holds and what was done to it is left open here: a verified store
/// says it with the two spec functions.
pub trait PersistentStore {
    /// The bytes of each page; a page that was never written holds zeros.
    closed spec fn contents(&self) -> Map<u64, Seq<u8>> {
        arbitrary()
    }

    /// All that was done to the store so far.
    closed spec fn history(&self) -> Seq<StoreOp> {
        arbitrary()
    }

    fn read(&mut self, page_num: PageNum, page: &mut PageData)
        ensures
            final(page)@ == old(self).contents()[page_num@],
            final(self).contents() == old(self).contents(),
            final(self).history() == old(self).history(),
    ;

    fn write(&mut self, page_num: PageNum, page: &PageData)
        ensures
            final(self).contents() == old(self).contents().insert(page_num@, page@),
            final(self).history() == old(self).history().push(StoreOp::Write(page_num@, page@)),
    ;

    fn sync(&mut self)
        ensures
            final(self).contents() == old(self).contents(),
            final(self).history() == old(self).history().push(StoreOp::Sync),
    ;
}

/// Metadata and underlying storage for cached data.
#[derive(Debug)]
struct CachedPage {
    page_num: Option<PageNum>,  // Which disk block this is from
    ref_count: u32,
    dirty: bool,  // This differs from what is on disk and needs to be written.
    data: Box<PageData>,
}

/// Stands for one lock of a page. It is never constructed directly by users of
/// the cache, but handed out when a page is locked.
pub struct PageGuard {
    page_num: PageNum,
    cache_slot: usize,  // Index into array of cached pages
}

impl PageGuard {
    /// The page that is locked.
    pub closed spec fn page(&self) -> u64 {
        self.page_num@
    }

    /// The slot of the cache that holds the page.
    pub closed spec fn slot(&self) -> nat {
        self.cache_slot as nat
    }
}

/// Stands for one lock of a page that may be written.
pub struct PageGuardMut {
    guard: PageGuard,
}

impl PageGuardMut {
    /// The page that is locked.
    pub closed spec fn page(&self) -> u64 {
        self.guard.page()
    }

    /// The slot of the cache that holds the page.
    pub closed spec fn slot(&self) -> nat {
        self.guard.slot()
    }
}

/// Stands for the active transaction.
pub struct TransactionGuard {}

/// Pages that may be locked: all but those of the write ahead log.
pub open spec fn lockable(num: u64) -> bool {
    (num == 0 || num > LOG_PAGES) && num != INVALID_PAGE
}

/// The pages of slots that are all in use.
pub open spec fn some_pages(list: Seq<u64>) -> Seq<Option<u64>> {
    list.map_values(|num: u64| Some(num))
}

/// What a cache shows to its users.
#[verifier::ext_equal]
pub struct CacheState {
    /// The bytes of each page as seen through the cache.
    pub pages: Map<u64, Seq<u8>>,
    /// How many locks of each page are out.
    pub refs: Map<u64, nat>,
    /// The pages that differ from what is on disk.
    pub dirty: Set<u64>,
    /// The dirty pages without a lock, the last released first.
    pub write_back: Seq<u64>,
    /// The page in each slot that can be given to another page, the last used
    /// first; `None` for a slot that was never used. The last one goes first.
    pub lru: Seq<Option<u64>>,
    /// How many slots can be given to another page.
    pub available: nat,
    pub capacity: nat,
    pub in_transaction: bool,
    /// The bytes of each page on disk.
    pub store: Map<u64, Seq<u8>>,
    /// All that was done to the store.
    pub history: Seq<StoreOp>,
    pub log: LogState,
}

impl CacheState {
    /// The slot of the page can be given to another page.
    pub open spec fn idle(self, num: u64) -> bool {
        self.refs[num] == 0 && !self.dirty.contains(num)
    }

    /// Another state with the same disk, transaction and size.
    pub open spec fn same_disk(self, other: CacheState) -> bool {
        &&& self.store == other.store
        &&& self.history == other.history
        &&& self.log == other.log
        &&& self.in_transaction == other.in_transaction
        &&& self.capacity == other.capacity
    }

    /// The page can be locked once more: it is no log page, its lock count has
    /// room, and a slot can be found for it.
    pub open spec fn can_lock(self, num: u64) -> bool {
        &&& lockable(num)
        &&& self.refs[num] < u32::MAX
        &&& self.idle(num) ==> self.available > 0
    }

    /// No lock count has reached its limit.
    pub open spec fn unsaturated(self) -> bool {
        forall|num: u64| #[trigger] self.refs[num] < u32::MAX
    }

    /// The state after one more lock of a page.
    pub open spec fn lock(self, num: u64, writable: bool) -> CacheState {
        CacheState {
            refs: self.refs.insert(num, self.refs[num] + 1),
            dirty: if writable {
                self.dirty.insert(num)
            } else {
                self.dirty
            },
            write_back: if self.write_back.contains(num) {
                self.write_back.remove(self.write_back.index_of(num))
            } else {
                self.write_back
            },
            lru: if !self.idle(num) {
                self.lru
            } else if self.lru.contains(Some(num)) {
                self.lru.remove(self.lru.index_of(Some(num)))
            } else {
                self.lru.drop_last()
            },
            available: if self.idle(num) {
                (self.available - 1) as nat
            } else {
                self.available
            },
            ..self
        }
    }

    /// The state after one lock of a page was released.
    pub open spec fn unlock(self, num: u64) -> CacheState {
        CacheState {
            refs: self.refs.insert(num, (self.refs[num] - 1) as nat),
            write_back: if self.refs[num] == 1 && self.dirty.contains(num) {
                seq![num] + self.write_back
            } else {
                self.write_back
            },
            lru: if self.refs[num] == 1 && !self.dirty.contains(num) {
                seq![Some(num)] + self.lru
            } else {
                self.lru
            },
            available: if self.refs[num] == 1 && !self.dirty.contains(num) {
                self.available + 1
            } else {
                self.available
            },
            ..self
        }
    }
}

/// The writes that bring `pages` to their place on disk, the last one first.
pub open spec fn write_back_ops(pages: Seq<(u64, Seq<u8>)>) -> Seq<StoreOp>
    decreases pages.len(),
{
    if pages.len() == 0 {
        Seq::empty()
    } else {
        seq![StoreOp::Write(pages.last().0, pages.last().1)] + write_back_ops(pages.drop_last())
    }
}

/// All that is done to the store to commit a transaction: the pages go to the
/// log, then to their place, and at last the log is emptied.
pub open spec fn commit_ops(log: LogState, pages: Seq<(u64, Seq<u8>)>) -> Seq<StoreOp> {
    (log.log_transaction_ops(pages).push(StoreOp::Sync) + write_back_ops(pages)).push(
        StoreOp::Sync,
    ).push(log.log_transaction(pages).blocks_written_op())
}

impl CacheState {
    /// The pages that the transaction has to write.
    pub open spec fn dirty_pages(self) -> Seq<(u64, Seq<u8>)> {
        self.write_back.map_values(|num: u64| (num, self.pages[num]))
    }

    /// The state after the end of the transaction.
    pub open spec fn commit(self) -> CacheState {
        if self.write_back.len() == 0 {
            CacheState { in_transaction: false, ..self }
        } else {
            let ops = commit_ops(self.log, self.dirty_pages());
            CacheState {
                dirty: Set::empty(),
                write_back: Seq::empty(),
                lru: some_pages(self.write_back) + self.lru,
                available: self.available + self.write_back.len(),
                in_transaction: false,
                store: apply_ops(self.store, ops),
                history: self.history + ops,
                log: self.log.log_transaction(self.dirty_pages()).blocks_written(),
                ..self
            }
        }
    }

    /// The same pages, locks and room, but perhaps another order of write back
    /// and of reuse.
    pub open spec fn same_but_order(self, other: CacheState) -> bool {
        &&& self.same_disk(other)
        &&& self.pages == other.pages
        &&& self.refs == other.refs
        &&& self.dirty == other.dirty
        &&& self.available == other.available
    }
}

pub struct PageCache<S: PersistentStore> {
    page_map: HashMap<u64, usize>,
    pages: Vec<CachedPage>,
    lru: IndexQueue,
    dirty_page_list: IndexQueue,
    persistent_store: S,
    transaction_active: bool,
    write_ahead_log: WriteAheadLog,
}

impl<S: PersistentStore> View for PageCache<S> {
    type V = CacheState;

    closed spec fn view(&self) -> CacheState {
        CacheState {
            pages: Map::new(|num: u64| true, |num: u64| self.bytes(num)),
            refs: Map::new(|num: u64| true, |num: u64| self.ref_count(num)),
            dirty: Set::new(|num: u64| self.is_dirty(num)),
            write_back: self.dirty_page_list@.map_values(|slot: usize| self.page_of(slot)),
            lru: self.lru@.map_values(
                |slot: usize| page_num_view(self.pages@[slot as int].page_num),
            ),
            available: self.lru@.len(),
            capacity: self.pages@.len(),
            in_transaction: self.transaction_active,
            store: self.persistent_store.contents(),
            history: self.persistent_store.history(),
            log: self.write_ahead_log@,
        }
    }
}

impl<S: PersistentStore> PageCache<S> {
    spec fn entry(&self, num: u64) -> CachedPage {
        self.pages@[self.page_map@[num] as int]
    }

    spec fn bytes(&self, num: u64) -> Seq<u8> {
        if !lockable(num) {
            Seq::empty()
        } else if self.page_map@.contains_key(num) {
            self.entry(num).data@
        } else {
            self.persistent_store.contents()[num]
        }
    }

    spec fn ref_count(&self, num: u64) -> nat {
        if self.page_map@.contains_key(num) {
            self.entry(num).ref_count as nat
        } else {
            0
        }
    }

    spec fn is_dirty(&self, num: u64) -> bool {
        self.page_map@.contains_key(num) && self.entry(num).dirty
    }

    spec fn page_of(&self, slot: usize) -> u64 {
        self.pages@[slot as int].page_num->Some_0@
    }

    /// A slot agrees with the map, the two lists and, unless it is dirty, with the disk.
    spec fn slot_ok(&self, slot: int) -> bool {
        let page = self.pages@[slot];
        &&& page.page_num matches Some(num) ==> self.page_map@.contains_key(num@)
            && self.page_map@[num@] == slot
        &&& page.page_num is None ==> page.ref_count == 0 && !page.dirty
        &&& self.lru@.contains(slot as usize) <==> page.ref_count == 0 && !page.dirty
        &&& self.dirty_page_list@.contains(slot as usize) <==> page.ref_count == 0 && page.dirty
        &&& page.dirty ==> self.transaction_active
        &&& page.page_num matches Some(num) ==> page.dirty || page.data@
            == self.persistent_store.contents()[num@]
    }

    spec fn mapped_ok(&self, num: u64) -> bool {
        &&& lockable(num)
        &&& self.page_map@[num] < self.pages@.len()
        &&& self.entry(num).page_num == Some(PageNum(num))
    }

    /// The map, the slots, the lists and the disk agree.
    pub closed spec fn inv(&self) -> bool {
        &&& self.lru.wf()
        &&& self.dirty_page_list.wf()
        &&& self.lru.capacity() == self.pages@.len()
        &&& self.dirty_page_list.capacity() == self.pages@.len()
        &&& self.write_ahead_log@.wf()
        &&& self.write_ahead_log@.start == 1
        &&& self.write_ahead_log@.blocks == LOG_PAGES - 2
        &&& forall|num: u64| #[trigger]
            self.page_map@.contains_key(num) ==> self.mapped_ok(num)
        &&& forall|slot: int| 0 <= slot < self.pages@.len() ==> #[trigger] self.slot_ok(slot)
    }

    /// The guard stands for a lock that is still out.
    pub closed spec fn holds(&self, page: u64, slot: nat) -> bool {
        &&& self.page_map@.contains_key(page)
        &&& self.page_map@[page] == slot
        &&& self.entry(page).ref_count > 0
    }

    pub fn new(size: usize, persistent_store: S) -> (cache: Self)
        ensures
            cache.inv(),
            cache@ == (CacheState {
                pages: Map::new(
                    |num: u64| true,
                    |num: u64|
                        if lockable(num) {
                            persistent_store.contents()[num]
                        } else {
                            Seq::empty()
                        },
                ),
                refs: Map::new(|num: u64| true, |num: u64| 0nat),
                dirty: Set::empty(),
                write_back: Seq::empty(),
                lru: Seq::new(size as nat, |i: int| None),
                available: size as nat,
                capacity: size as nat,
                in_transaction: false,
                store: persistent_store.contents(),
                history: persistent_store.history(),
                log: LogState {
                    next_transaction_id: 1,
                    next_header_seq: 0,
                    header: Seq::new(PAGE_SIZE as nat, |i: int| 0u8),
                    start: 1,
                    blocks: (LOG_PAGES - 2) as nat,
                    head: 0,
                    tail: 0,
                },
            }),
            cache.fresh(),
    {
        let mut lru = IndexQueue::new(size);
        let mut pages: Vec<CachedPage> = Vec::new();
        let mut i: usize = 0;
        while i < size
            invariant
                i <= size,
                lru.wf(),
                lru.capacity() == size,
                lru@.len() == i,
                pages@.len() == i,
                forall|slot: usize| #[trigger] lru@.contains(slot) <==> slot < i,
                forall|slot: int|
                    0 <= slot < i ==> (#[trigger] pages@[slot]).page_num is None && pages@[slot].ref_count
                        == 0 && !pages@[slot].dirty,
            decreases size - i,
        {
            lru.push_head(i);
            pages.push(
                CachedPage {
                    page_num: None,
                    ref_count: 0,
                    dirty: false,
                    data: Box::new([0u8;PAGE_SIZE]),
                },
            );
            i = i + 1;
        }
        let cache = PageCache {
            page_map: HashMap::new(),
            pages,
            lru,
            persistent_store,
            transaction_active: false,
            dirty_page_list: IndexQueue::new(size),
            write_ahead_log: WriteAheadLog::new(PageNum::from_u64(1), LOG_PAGES),
        };
        proof {
            assert forall|slot: int| 0 <= slot < cache.pages@.len() implies #[trigger] cache.slot_ok(
                slot,
            ) by {
                assert(cache.pages@[slot].page_num is None);
            }
            assert forall|i: int| 0 <= i < cache.lru@.len() implies #[trigger] cache@.lru[i]
                == None::<u64> by {
                assert(cache.lru@.contains(cache.lru@[i]));
            }
            assert(cache@ =~= CacheState {
                pages: Map::new(
                    |num: u64| true,
                    |num: u64|
                        if lockable(num) {
                            persistent_store.contents()[num]
                        } else {
                            Seq::empty()
                        },
                ),
                refs: Map::new(|num: u64| true, |num: u64| 0nat),
                dirty: Set::empty(),
                write_back: Seq::empty(),
                lru: Seq::new(size as nat, |i: int| None),
                ..cache@
            });
        }
        cache
    }

    /// The slots in the write back list hold different pages.
    proof fn lemma_write_back(&self, slot: usize)
        requires
            self.inv(),
            slot < self.pages@.len(),
            self.pages@[slot as int].page_num is Some,
        ensures
            self@.write_back.contains(self.page_of(slot)) <==> self.dirty_page_list@.contains(slot),
            self.dirty_page_list@.contains(slot) ==> self@.write_back.index_of(self.page_of(slot))
                == self.dirty_page_list@.index_of(slot),
            self@.write_back.no_duplicates(),
            forall|j: int|
                0 <= j < self.dirty_page_list@.len() ==> #[trigger] self.dirty_page_list@[j]
                    < self.pages@.len(),
    {
        let q = self.dirty_page_list@;
        let w = self@.write_back;
        self.dirty_page_list.lemma_no_duplicates();
        assert forall|j: int| 0 <= j < q.len() implies q[j] < self.pages@.len()
            && self.pages@[q[j] as int].page_num is Some
            && self.page_map@[#[trigger] w[j]] == q[j] by {
            assert(q.contains(q[j]));
            self.dirty_page_list.lemma_in_range(q[j]);
            assert(self.slot_ok(q[j] as int));
        }
        assert forall|j: int| 0 <= j < q.len() implies #[trigger] q[j] < self.pages@.len() by {
            assert(self.page_map@[w[j]] == q[j]);
        }
        assert(self.slot_ok(slot as int));
        if q.contains(slot) {
            let k = q.index_of(slot);
            assert(w[k] == self.page_of(slot));
            let i = w.index_of(self.page_of(slot));
            assert(w[i] == w[k]);
        }
        if w.contains(self.page_of(slot)) {
            let i = w.index_of(self.page_of(slot));
            assert(w[i] == self.page_of(slot));
            assert(q[i] == slot);
        }
    }

    /// The slots that can be given to another page are listed with their pages.
    proof fn lemma_lru(&self, num: u64)
        requires
            self.inv(),
        ensures
            self@.lru.contains(Some(num)) <==> self.page_map@.contains_key(num)
                && self.lru@.contains(self.page_map@[num]),
            self@.lru.contains(Some(num)) ==> self@.lru.index_of(Some(num))
                == self.lru@.index_of(self.page_map@[num]),
            self.lru@.no_duplicates(),
            forall|j: int|
                0 <= j < self.lru@.len() ==> #[trigger] self.lru@[j] < self.pages@.len(),
    {
        let q = self.lru@;
        let l = self@.lru;
        self.lru.lemma_no_duplicates();
        assert forall|j: int| 0 <= j < q.len() implies #[trigger] q[j] < self.pages@.len() by {
            assert(q.contains(q[j]));
            self.lru.lemma_in_range(q[j]);
        }
        assert forall|j: int|
            0 <= j < q.len() && #[trigger] l[j] == Some(num) implies self.page_map@.contains_key(
            num,
        ) && self.page_map@[num] == q[j] by {
            assert(q[j] < self.pages@.len());
            assert(self.slot_ok(q[j] as int));
        }
        if l.contains(Some(num)) {
            let i = l.index_of(Some(num));
            assert(l[i] == Some(num));
            assert(q[i] == self.page_map@[num]);
            assert(q[q.index_of(q[i])] == q[i]);
        }
        if self.page_map@.contains_key(num) && q.contains(self.page_map@[num]) {
            let k = q.index_of(self.page_map@[num]);
            assert(self.mapped_ok(num));
            assert(l[k] == Some(num));
        }
    }

    /// Locks a page that is in the cache.
    fn lock_resident(&mut self, page_num: PageNum, writable: bool, cache_slot: usize)
        requires
            old(self).inv(),
            old(self)@.can_lock(page_num@),
            writable ==> old(self)@.in_transaction,
            old(self).page_map@.contains_key(page_num@),
            old(self).page_map@[page_num@] == cache_slot,
        ensures
            final(self).inv(),
            final(self)@ == old(self)@.lock(page_num@, writable),
            final(self).holds(page_num@, cache_slot as nat),
            forall|page: u64, at: nat| #[trigger]
                old(self).holds(page, at) ==> final(self).holds(page, at),
    {
        let ghost num = page_num@;
        let ghost before = *self;
        assert(self.pages@.len() == self.pages.len());
        assert(self.mapped_ok(num));
        assert(self.slot_ok(cache_slot as int));
        proof {
            self.lemma_write_back(cache_slot);
            self.lemma_lru(num);
        }
        if self.pages[cache_slot].ref_count == 0 {
            // Pages are never in one of the lists unless they have a
            // ref count of zero.
            if self.pages[cache_slot].dirty {
                self.dirty_page_list.remove(cache_slot);
            } else {
                self.lru.remove(cache_slot);
            }
        }
        let dirty: bool = self.pages[cache_slot].dirty || writable;
        let count: u32 = self.pages[cache_slot].ref_count;
        self.pages[cache_slot].dirty = dirty;
        self.pages[cache_slot].ref_count = count + 1;
        proof {
            assert forall|n: u64| #[trigger] self.page_map@.contains_key(n) implies self.mapped_ok(
                n,
            ) by {
                assert(before.mapped_ok(n));
            }
            assert forall|slot: int| 0 <= slot < self.pages@.len() implies #[trigger] self.slot_ok(
                slot,
            ) by {
                assert(before.slot_ok(slot));
            }
            assert forall|n: u64| n != num implies self.entry(n) == before.entry(n)
                || !self.page_map@.contains_key(n) by {
                if self.page_map@.contains_key(n) {
                    assert(before.mapped_ok(n));
                }
            }
            let after = before@.lock(num, writable);
            assert(self@.pages =~= after.pages);
            assert(self@.refs =~= after.refs);
            assert(self@.dirty =~= after.dirty);
            assert(self@.write_back =~= after.write_back);
            assert(self@.lru =~= after.lru);
            assert(self@ =~= after);
        }
    }

    /// Loads a page into a slot that is free and locks it there.
    fn load_page(&mut self, page_num: PageNum, writable: bool) -> (index: usize)
        requires
            old(self).inv(),
            old(self)@.can_lock(page_num@),
            writable ==> old(self)@.in_transaction,
            !old(self).page_map@.contains_key(page_num@),
        ensures
            final(self).inv(),
            final(self)@ == old(self)@.lock(page_num@, writable),
            final(self).holds(page_num@, index as nat),
            forall|page: u64, at: nat| #[trigger]
                old(self).holds(page, at) ==> final(self).holds(page, at),
    {
        let ghost num = page_num@;
        let ghost before = *self;
        assert(self.pages@.len() == self.pages.len());
        assert(self@.idle(num));
        proof {
            self.lemma_write_back_pages();
            self.lemma_lru(num);
        }
        let index: usize = self.lru.pop_tail().unwrap();
        proof {
            assert(before.lru@.contains(before.lru@.last()));
            before.lru.lemma_in_range(index);
            assert(before.slot_ok(index as int));
        }
        match self.pages[index].page_num {
            Some(evicted) => {
                assert(before.mapped_ok(evicted@));
                self.page_map.remove(&evicted.0);
            },
            None => {},  // this page has never been loaded, nothing to remove
        }
        self.page_map.insert(page_num.0, index);

        // Read data into page
        let mut data: PageData = [0;PAGE_SIZE];
        self.persistent_store.read(page_num, &mut data);
        self.pages[index] =
        CachedPage { page_num: Some(page_num), ref_count: 1, dirty: writable, data: Box::new(data) };
        proof {
            assert forall|n: u64| #[trigger]
                self.page_map@.contains_key(n) && n != num implies self.page_map@[n] != index
                && before.page_map@.contains_key(n) && before.page_map@[n] == self.page_map@[n]
                && self.entry(n) == before.entry(n) by {
                assert(before.mapped_ok(n));
                assert(before.slot_ok(before.page_map@[n] as int));
            }
            assert forall|n: u64| #[trigger] self.page_map@.contains_key(n) implies self.mapped_ok(
                n,
            ) by {
                if n != num {
                    assert(before.mapped_ok(n));
                }
            }
            assert forall|slot: int| 0 <= slot < self.pages@.len() implies #[trigger] self.slot_ok(
                slot,
            ) by {
                assert(before.slot_ok(slot));
            }
            assert forall|n: u64| self.bytes(n) == before.bytes(n) by {
                if before.page_map@.contains_key(n) && before.page_map@[n] == index {
                    assert(before.mapped_ok(n));
                }
            }
            assert forall|n: u64| n != num implies self.ref_count(n) == before.ref_count(n)
                && self.is_dirty(n) == before.is_dirty(n) by {
                if before.page_map@.contains_key(n) && before.page_map@[n] == index {
                    assert(before.mapped_ok(n));
                }
            }
            let after = before@.lock(num, writable);
            assert(self@.pages =~= after.pages);
            assert(self@.refs =~= after.refs);
            assert(self@.dirty =~= after.dirty);
            assert(self@.write_back =~= after.write_back);
            assert(self@.lru =~= after.lru);
            assert(self@ =~= after);
        }
        index
    }

    /// Every page in the write back list is cached, in the slot listed.
    proof fn lemma_write_back_pages(&self)
        requires
            self.inv(),
        ensures
            forall|j: int|
                0 <= j < self.dirty_page_list@.len() ==> {
                    let slot = #[trigger] self.dirty_page_list@[j];
                    &&& slot < self.pages@.len()
                    &&& self.pages@[slot as int].page_num is Some
                    &&& self.pages@[slot as int].dirty
                    &&& self.pages@[slot as int].ref_count == 0
                },
            forall|n: u64| #[trigger]
                self@.write_back.contains(n) ==> self.page_map@.contains_key(n) && self.entry(
                    n,
                ).dirty,
    {
        let q = self.dirty_page_list@;
        assert forall|j: int| 0 <= j < q.len() implies {
            let slot = #[trigger] q[j];
            &&& slot < self.pages@.len()
            &&& self.pages@[slot as int].page_num is Some
            &&& self.pages@[slot as int].dirty
            &&& self.pages@[slot as int].ref_count == 0
        } by {
            assert(q.contains(q[j]));
            self.dirty_page_list.lemma_in_range(q[j]);
            assert(self.slot_ok(q[j] as int));
        }
        assert forall|n: u64| #[trigger] self@.write_back.contains(n) implies self.page_map@.contains_key(n)
            && self.entry(n).dirty by {
            let j = self@.write_back.index_of(n);
            assert(self@.write_back[j] == self.page_of(q[j]));
            assert(self.slot_ok(q[j] as int));
        }
    }

    /// Finds the slot of a page, loading it if need be, and locks it there.
    fn lock_page_internal(&mut self, page_num: PageNum, writable: bool) -> (slot: usize)
        requires
            old(self).inv(),
            old(self)@.can_lock(page_num@),
            writable ==> old(self)@.in_transaction,
        ensures
            final(self).inv(),
            final(self)@ == old(self)@.lock(page_num@, writable),
            final(self).holds(page_num@, slot as nat),
            forall|page: u64, at: nat| #[trigger]
                old(self).holds(page, at) ==> final(self).holds(page, at),
    {
        let entry: Option<usize> = match self.page_map.get(&page_num.0) {
            Some(slot) => Some(*slot),
            None => None,
        };
        match entry {
            Some(cache_slot) => {
                // This page is already cached, return it.
                self.lock_resident(page_num, writable, cache_slot);
                cache_slot
            },
            None => {
                // This data is not resident, find an unused page and recycle it
                self.load_page(page_num, writable)
            },
        }
    }

    /// Locks a page for reading.
    pub fn lock_page(&mut self, page_num: PageNum) -> (guard: PageGuard)
        requires
            old(self).inv(),
            old(self)@.can_lock(page_num@),
        ensures
            final(self).inv(),
            final(self)@ == old(self)@.lock(page_num@, false),
            guard.page() == page_num@,
            final(self).holds(guard.page(), guard.slot()),
            forall|page: u64, at: nat| #[trigger]
                old(self).holds(page, at) ==> final(self).holds(page, at),
    {
        let cache_slot: usize = self.lock_page_internal(page_num, false);
        PageGuard { page_num, cache_slot }
    }

    /// Locks a page for writing. It will be written back when the transaction
    /// is complete.
    pub fn lock_page_mut(&mut self, page_num: PageNum) -> (guard: PageGuardMut)
        requires
            old(self).inv(),
            old(self)@.can_lock(page_num@),
            old(self)@.in_transaction,
        ensures
            final(self).inv(),
            final(self)@ == old(self)@.lock(page_num@, true),
            guard.page() == page_num@,
            final(self).holds(guard.page(), guard.slot()),
            forall|page: u64, at: nat| #[trigger]
                old(self).holds(page, at) ==> final(self).holds(page, at),
    {
        let cache_slot: usize = self.lock_page_internal(page_num, true);
        PageGuardMut { guard: PageGuard { page_num, cache_slot } }
    }

    /// The bytes of a locked page.
    pub fn data(&self, guard: &PageGuard) -> (data: &PageData)
        requires
            self.inv(),
            self.holds(guard.page(), guard.slot()),
        ensures
            data@ == self@.pages[guard.page()],
    {
        assert(self.mapped_ok(guard.page()));
        &self.pages[guard.cache_slot].data
    }

    /// Replaces the bytes of a page that is locked for writing.
    pub fn set_data(&mut self, guard: &PageGuardMut, data: &PageData)
        requires
            old(self).inv(),
            old(self).holds(guard.page(), guard.slot()),
            old(self)@.dirty.contains(guard.page()),
        ensures
            final(self).inv(),
            final(self)@ == (CacheState {
                pages: old(self)@.pages.insert(guard.page(), data@),
                ..old(self)@
            }),
            forall|page: u64, at: nat| #[trigger]
                old(self).holds(page, at) ==> final(self).holds(page, at),
    {
        let ghost num = guard.page();
        let ghost before = *self;
        let slot: usize = guard.guard.cache_slot;
        assert(self.pages@.len() == self.pages.len());
        assert(self.mapped_ok(num));
        assert(self.slot_ok(slot as int));
        proof {
            self.lemma_write_back_pages();
            self.lemma_lru(num);
        }
        self.pages[slot].data = Box::new(*data);
        proof {
            assert forall|n: u64| #[trigger] self.page_map@.contains_key(n) implies self.mapped_ok(
                n,
            ) by {
                assert(before.mapped_ok(n));
            }
            assert forall|s: int| 0 <= s < self.pages@.len() implies #[trigger] self.slot_ok(s) by {
                assert(before.slot_ok(s));
            }
            assert forall|n: u64| n != num implies self.entry(n) == before.entry(n)
                || !self.page_map@.contains_key(n) by {
                if self.page_map@.contains_key(n) {
                    assert(before.mapped_ok(n));
                }
            }
            let after = CacheState { pages: before@.pages.insert(num, data@), ..before@ };
            assert(self@.pages =~= after.pages);
            assert(self@.refs =~= after.refs);
            assert(self@.dirty =~= after.dirty);
            assert(self@.write_back =~= after.write_back);
            assert(self@.lru =~= after.lru);
            assert(self@ =~= after);
        }
    }

    fn unlock_slot(&mut self, num: Ghost<u64>, cache_slot: usize)
        requires
            old(self).inv(),
            old(self).holds(num@, cache_slot as nat),
        ensures
            final(self).inv(),
            final(self)@ == old(self)@.unlock(num@),
            forall|page: u64, at: nat| #[trigger]
                old(self).holds(page, at) && (page != num@ || old(self)@.refs[page] > 1)
                    ==> final(self).holds(page, at),
    {
        let ghost before = *self;
        assert(self.pages@.len() == self.pages.len());
        assert(self.mapped_ok(num@));
        assert(self.slot_ok(cache_slot as int));
        proof {
            self.lemma_write_back_pages();
            self.lemma_lru(num@);
        }
        let count: u32 = self.pages[cache_slot].ref_count;
        self.pages[cache_slot].ref_count = count - 1;
        if count == 1 {
            if self.pages[cache_slot].dirty {
                self.dirty_page_list.push_head(cache_slot);
            } else {
                // Put back in LRU
                self.lru.push_head(cache_slot);
            }
        }
        proof {
            assert forall|n: u64| #[trigger] self.page_map@.contains_key(n) implies self.mapped_ok(
                n,
            ) by {
                assert(before.mapped_ok(n));
            }
            assert forall|s: int| 0 <= s < self.pages@.len() implies #[trigger] self.slot_ok(s) by {
                assert(before.slot_ok(s));
            }
            assert forall|n: u64| n != num@ implies self.entry(n) == before.entry(n)
                || !self.page_map@.contains_key(n) by {
                if self.page_map@.contains_key(n) {
                    assert(before.mapped_ok(n));
                }
            }
            let after = before@.unlock(num@);
            assert(self@.pages =~= after.pages);
            assert(self@.refs =~= after.refs);
            assert(self@.dirty =~= after.dirty);
            assert(self@.write_back =~= after.write_back);
            assert(self@.lru =~= after.lru);
            assert(self@ =~= after);
        }
    }

    /// Releases a lock for reading.
    pub fn unlock_page(&mut self, guard: PageGuard)
        requires
            old(self).inv(),
            old(self).holds(guard.page(), guard.slot()),
        ensures
            final(self).inv(),
            final(self)@ == old(self)@.unlock(guard.page()),
            forall|page: u64, at: nat| #[trigger]
                old(self).holds(page, at) && (page != guard.page() || old(self)@.refs[page] > 1)
                    ==> final(self).holds(page, at),
    {
        self.unlock_slot(Ghost(guard.page()), guard.cache_slot);
    }

    /// Releases a lock for writing.
    pub fn unlock_page_mut(&mut self, guard: PageGuardMut)
        requires
            old(self).inv(),
            old(self).holds(guard.page(), guard.slot()),
        ensures
            final(self).inv(),
            final(self)@ == old(self)@.unlock(guard.page()),
            forall|page: u64, at: nat| #[trigger]
                old(self).holds(page, at) && (page != guard.page() || old(self)@.refs[page] > 1)
                    ==> final(self).holds(page, at),
    {
        self.unlock_slot(Ghost(guard.page()), guard.guard.cache_slot);
    }

    /// The bytes of a page.
    pub fn read_page(&mut self, page_num: PageNum) -> (data: PageData)
        requires
            old(self).inv(),
            old(self)@.can_lock(page_num@),
        ensures
            final(self).inv(),
            data@ == old(self)@.pages[page_num@],
            final(self)@ == old(self)@.lock(page_num@, false).unlock(page_num@),
            final(self)@.same_but_order(old(self)@),
            forall|page: u64, at: nat| #[trigger]
                old(self).holds(page, at) ==> final(self).holds(page, at),
    {
        proof {
            self.lemma_locked(page_num@);
        }
        let guard = self.lock_page(page_num);
        let data = *self.data(&guard);
        self.unlock_page(guard);
        assert(self@.refs =~= old(self)@.refs);
        data
    }

    /// Replaces the bytes of a page within a transaction.
    pub fn write_page(&mut self, page_num: PageNum, data: &PageData)
        requires
            old(self).inv(),
            old(self)@.can_lock(page_num@),
            old(self)@.in_transaction,
        ensures
            final(self).inv(),
            final(self)@ == (CacheState {
                pages: old(self)@.pages.insert(page_num@, data@),
                ..old(self)@.lock(page_num@, true)
            }).unlock(page_num@),
            final(self)@.same_disk(old(self)@),
            final(self)@.pages == old(self)@.pages.insert(page_num@, data@),
            final(self)@.refs == old(self)@.refs,
            final(self)@.dirty == old(self)@.dirty.insert(page_num@),
            final(self)@.available == (if old(self)@.idle(page_num@) {
                old(self)@.available - 1
            } else {
                old(self)@.available as int
            }),
            forall|page: u64, at: nat| #[trigger]
                old(self).holds(page, at) ==> final(self).holds(page, at),
    {
        proof {
            self.lemma_locked(page_num@);
        }
        let guard = self.lock_page_mut(page_num);
        self.set_data(&guard, data);
        self.unlock_page_mut(guard);
        assert(self@.refs =~= old(self)@.refs);
    }

    /// How many slots can be given to another page.
    pub fn free_slots(&self) -> (count: usize)
        requires
            self.inv(),
        ensures
            count == self@.available,
    {
        proof {
            self.lru.lemma_len();
        }
        let slots: usize = self.pages.len();
        let mut count: usize = 0;
        let mut iterator = self.lru.iter();
        while iterator.next().is_some()
            invariant
                iterator.wf(),
                count + iterator.remaining().len() == self.lru@.len(),
                self.lru@.len() <= slots,
            decreases iterator.remaining().len(),
        {
            count = count + 1;
        }
        count
    }

    /// Whether a page is neither locked nor changed.
    pub fn is_idle(&self, page_num: PageNum) -> (idle: bool)
        requires
            self.inv(),
        ensures
            idle == self@.idle(page_num@),
    {
        match self.page_map.get(&page_num.0) {
            Some(slot) => {
                assert(self.mapped_ok(page_num@));
                let page = &self.pages[*slot];
                page.ref_count == 0 && !page.dirty
            },
            None => true,
        }
    }

    /// A page with a guard out has a lock.
    pub proof fn lemma_locked(&self, num: u64)
        ensures
            forall|at: nat| #[trigger] self.holds(num, at) ==> self@.refs[num] > 0,
    {
    }

    /// A transaction must be active in order to write pages.
    pub fn begin_transaction(&mut self) -> (guard: TransactionGuard)
        requires
            old(self).inv(),
            !old(self)@.in_transaction,
        ensures
            final(self).inv(),
            final(self)@ == (CacheState { in_transaction: true, ..old(self)@ }),
            forall|page: u64, at: nat| #[trigger]
                old(self).holds(page, at) ==> final(self).holds(page, at),
    {
        let ghost before = *self;
        self.transaction_active = true;
        proof {
            assert forall|n: u64| #[trigger] self.page_map@.contains_key(n) implies self.mapped_ok(
                n,
            ) by {
                assert(before.mapped_ok(n));
            }
            assert forall|s: int| 0 <= s < self.pages@.len() implies #[trigger] self.slot_ok(s) by {
                assert(before.slot_ok(s));
            }
            assert(self@ =~= CacheState { in_transaction: true, ..before@ });
        }
        TransactionGuard {  }
    }

    /// What is dirty is listed for write back, unless it is locked.
    proof fn lemma_dirty_listed(&self)
        requires
            self.inv(),
        ensures
            forall|n: u64|
                self@.dirty.contains(n) && self@.refs[n] == 0 ==> #[trigger]
                self@.write_back.contains(n),
            self@.write_back.no_duplicates(),
    {
        self.lemma_write_back_pages();
        assert forall|n: u64| self@.dirty.contains(n) && self@.refs[n] == 0 implies #[trigger]
            self@.write_back.contains(n) by {
            assert(self.mapped_ok(n));
            let slot = self.page_map@[n];
            assert(self.slot_ok(slot as int));
            self.lemma_write_back(slot);
        }
        if self@.write_back.len() > 0 {
            self.lemma_write_back(self.dirty_page_list@[0]);
        }
    }

    /// Pages that cannot be locked are not seen.
    pub proof fn lemma_unseen(&self)
        ensures
            self@.pages.dom() == Set::new(|num: u64| true),
            forall|num: u64| !lockable(num) ==> #[trigger] self@.pages[num] == Seq::<u8>::empty(),
    {
        assert(self@.pages.dom() =~= Set::new(|num: u64| true));
    }

    /// What is not dirty is on disk, and what is listed for write back are
    /// different pages that can be locked.
    pub proof fn lemma_disk(&self)
        requires
            self.inv(),
        ensures
            forall|n: u64|
                lockable(n) && !self@.dirty.contains(n) ==> #[trigger] self@.pages[n]
                    == self@.store[n],
            forall|n: u64| #[trigger]
                self@.write_back.contains(n) ==> lockable(n) && self@.dirty.contains(n)
                    && self@.refs[n] == 0,
            forall|n: u64|
                self@.dirty.contains(n) && self@.refs[n] == 0 ==> #[trigger]
                self@.write_back.contains(n),
            self@.write_back.no_duplicates(),
            self@.log.wf(),
            self@.log.start == 1,
            self@.log.blocks == LOG_PAGES - 2,
            forall|n: u64| #[trigger] self@.dirty.contains(n) ==> self@.in_transaction,
    {
        self.lemma_dirty_listed();
        self.lemma_write_back_pages();
        assert forall|n: u64| lockable(n) && !self@.dirty.contains(n) implies #[trigger]
            self@.pages[n] == self@.store[n] by {
            if self.page_map@.contains_key(n) {
                assert(self.mapped_ok(n));
                assert(self.slot_ok(self.page_map@[n] as int));
            }
        }
        assert forall|n: u64| #[trigger] self@.write_back.contains(n) implies lockable(n)
            && self@.dirty.contains(n) && self@.refs[n] == 0 by {
            assert(self.mapped_ok(n));
            let j = self@.write_back.index_of(n);
            let slot = self.dirty_page_list@[j];
            assert(self@.write_back[j] == self.page_of(slot));
            assert(self.slot_ok(slot as int));
        }
        assert forall|n: u64| #[trigger] self@.dirty.contains(n) implies self@.in_transaction by {
            assert(self.mapped_ok(n));
            assert(self.slot_ok(self.page_map@[n] as int));
        }
    }

    /// Copies of the dirty pages, in the order of the write back list.
    fn collect_dirty(&self) -> (result: Vec<(PageNum, PageData)>)
        requires
            self.inv(),
        ensures
            logged_pages(result@) == self@.dirty_pages(),
    {
        let mut result: Vec<(PageNum, PageData)> = Vec::new();
        let mut iter = self.dirty_page_list.iter();
        let ghost q = self.dirty_page_list@;
        let ghost all = self@.dirty_pages();
        proof {
            self.lemma_write_back_pages();
            assert(q.skip(0) =~= q);
        }
        let mut slot = iter.next();
        while slot.is_some()
            invariant
                self.inv(),
                iter.wf(),
                q == self.dirty_page_list@,
                all == self@.dirty_pages(),
                all.len() == q.len(),
                result@.len() <= q.len(),
                slot is Some ==> result@.len() < q.len() && slot->Some_0 == q[result@.len() as int]
                    && iter.remaining() == q.skip((result@.len() + 1) as int),
                slot is None ==> result@.len() == q.len(),
                forall|j: int| 0 <= j < q.len() ==> {
                    let at = #[trigger] q[j];
                    at < self.pages@.len() && self.pages@[at as int].page_num is Some
                },
                forall|j: int| #![trigger result@[j]]
                    0 <= j < result@.len() ==> (result@[j].0@, result@[j].1@) == all[j],
            decreases q.len() - result@.len(),
        {
            let index: usize = slot.unwrap();
            let ghost k = result@.len() as int;
            proof {
                assert(q[k] == index);
                assert(self.slot_ok(index as int));
                assert(self.mapped_ok(self.page_of(index)));
                assert(self@.write_back[k] == self.page_of(index));
            }
            result.push((self.pages[index].page_num.unwrap(), *self.pages[index].data));
            slot = iter.next();
            proof {
                if slot is Some {
                    assert(q.skip(k + 1).skip(1) =~= q.skip(k + 2));
                }
            }
        }
        assert(logged_pages(result@) =~= all);
        result
    }

    /// Writes the dirty pages to the log.
    fn log_dirty(&mut self)
        requires
            old(self).inv(),
        ensures
            final(self).inv(),
            final(self)@ == (CacheState {
                store: apply_ops(
                    old(self)@.store,
                    old(self)@.log.log_transaction_ops(old(self)@.dirty_pages()),
                ),
                history: old(self)@.history + old(self)@.log.log_transaction_ops(
                    old(self)@.dirty_pages(),
                ),
                log: old(self)@.log.log_transaction(old(self)@.dirty_pages()),
                ..old(self)@
            }),
    {
        let ghost before = *self;
        let pages = self.collect_dirty();
        self.write_ahead_log.log_transaction(&pages, &mut self.persistent_store);
        proof {
            let dirty = before@.dirty_pages();
            before@.log.lemma_log_blocks_keeps(dirty);
            assert forall|n: u64| lockable(n) implies #[trigger] self.persistent_store.contents()[n]
                == before.persistent_store.contents()[n] by {
                before@.log.lemma_log_frame(dirty, before@.store, n);
            }
            self.lemma_same_pages(before);
        }
    }

    /// A change on disk to pages that cannot be locked keeps the cache valid.
    proof fn lemma_same_pages(&self, before: Self)
        requires
            before.inv(),
            self.page_map == before.page_map,
            self.pages == before.pages,
            self.lru == before.lru,
            self.dirty_page_list == before.dirty_page_list,
            self.transaction_active == before.transaction_active,
            self.write_ahead_log@.wf(),
            self.write_ahead_log@.start == before.write_ahead_log@.start,
            self.write_ahead_log@.blocks == before.write_ahead_log@.blocks,
            forall|n: u64|
                lockable(n) ==> #[trigger] self.persistent_store.contents()[n]
                    == before.persistent_store.contents()[n],
        ensures
            self.inv(),
            self@ == (CacheState {
                store: self.persistent_store.contents(),
                history: self.persistent_store.history(),
                log: self.write_ahead_log@,
                ..before@
            }),
    {
        assert forall|n: u64| #[trigger] self.page_map@.contains_key(n) implies self.mapped_ok(
            n,
        ) by {
            assert(before.mapped_ok(n));
        }
        assert forall|s: int| 0 <= s < self.pages@.len() implies #[trigger] self.slot_ok(s) by {
            assert(before.slot_ok(s));
            if self.pages@[s].page_num is Some {
                assert(before.mapped_ok(self.pages@[s].page_num->Some_0@));
            }
        }
        let after = CacheState {
            store: self.persistent_store.contents(),
            history: self.persistent_store.history(),
            log: self.write_ahead_log@,
            ..before@
        };
        assert(self@.pages =~= after.pages);
        assert(self@.refs =~= after.refs);
        assert(self@.dirty =~= after.dirty);
        assert(self@.write_back =~= after.write_back);
        assert(self@.lru =~= after.lru);
        assert(self@ =~= after);
    }

    /// Writes the last page of the write back list to its place.
    fn write_back_last(&mut self)
        requires
            old(self).inv(),
            old(self)@.write_back.len() > 0,
        ensures
            final(self).inv(),
            final(self)@ == ({
                let num = old(self)@.write_back.last();
                CacheState {
                    dirty: old(self)@.dirty.remove(num),
                    write_back: old(self)@.write_back.drop_last(),
                    lru: seq![Some(num)] + old(self)@.lru,
                    available: old(self)@.available + 1,
                    store: old(self)@.store.insert(num, old(self)@.pages[num]),
                    history: old(self)@.history.push(StoreOp::Write(num, old(self)@.pages[num])),
                    ..old(self)@
                }
            }),
    {
        let ghost before = *self;
        let ghost num = self@.write_back.last();
        proof {
            self.lemma_write_back_pages();
            self.lemma_lru(num);
        }
        let index: usize = self.dirty_page_list.pop_tail().unwrap();
        proof {
            assert(before.dirty_page_list@[before.dirty_page_list@.len() - 1] == index);
            assert(before.slot_ok(index as int));
            assert(before.page_of(index) == num);
            assert(before.mapped_ok(num));
            assert(before.pages@.len() == before.pages.len());
        }
        self.persistent_store.write(
            self.pages[index].page_num.unwrap(),
            &self.pages[index].data,
        );
        self.pages[index].dirty = false;
        self.lru.push_head(index);
        proof {
            assert forall|n: u64| #[trigger] self.page_map@.contains_key(n) implies self.mapped_ok(
                n,
            ) by {
                assert(before.mapped_ok(n));
            }
            assert forall|s: int| 0 <= s < self.pages@.len() implies #[trigger] self.slot_ok(s) by {
                assert(before.slot_ok(s));
            }
            assert forall|n: u64| n != num implies self.entry(n) == before.entry(n)
                || !self.page_map@.contains_key(n) by {
                if self.page_map@.contains_key(n) {
                    assert(before.mapped_ok(n));
                }
            }
            let after = CacheState {
                dirty: before@.dirty.remove(num),
                write_back: before@.write_back.drop_last(),
                lru: seq![Some(num)] + before@.lru,
                available: before@.available + 1,
                store: before@.store.insert(num, before@.pages[num]),
                history: before@.history.push(StoreOp::Write(num, before@.pages[num])),
                ..before@
            };
            assert(self@.pages =~= after.pages);
            assert(self@.refs =~= after.refs);
            assert(self@.dirty =~= after.dirty);
            assert(self@.write_back =~= after.write_back);
            assert(self@.lru =~= after.lru);
            assert(self@ =~= after);
        }
    }

    /// Writes all pages of the write back list to their place.
    fn write_back_all(&mut self)
        requires
            old(self).inv(),
            forall|n: u64| #[trigger] old(self)@.dirty.contains(n) ==> old(self)@.refs[n] == 0,
        ensures
            final(self).inv(),
            final(self)@ == (CacheState {
                dirty: Set::empty(),
                write_back: Seq::empty(),
                lru: some_pages(old(self)@.write_back) + old(self)@.lru,
                available: old(self)@.available + old(self)@.write_back.len(),
                store: apply_ops(old(self)@.store, write_back_ops(old(self)@.dirty_pages())),
                history: old(self)@.history + write_back_ops(old(self)@.dirty_pages()),
                ..old(self)@
            }),
    {
        let ghost first = self@;
        let ghost all = write_back_ops(first.dirty_pages());
        let ghost mut done: Seq<StoreOp> = Seq::empty();
        proof {
            assert(first.history + done =~= first.history);
            assert(done + all =~= all);
            self.lemma_dirty_listed();
        }
        while !self.dirty_page_list.empty()
            invariant
                self.inv(),
                self@ == (CacheState {
                    dirty: self@.dirty,
                    write_back: self@.write_back,
                    lru: self@.lru,
                    available: (first.available + first.write_back.len()
                        - self@.write_back.len()) as nat,
                    store: apply_ops(first.store, done),
                    history: first.history + done,
                    ..first
                }),
                self@.write_back.len() <= first.write_back.len(),
                some_pages(self@.write_back) + self@.lru == some_pages(first.write_back)
                    + first.lru,
                done + write_back_ops(self@.dirty_pages()) == all,
                forall|n: u64| #[trigger] self@.dirty.contains(n) ==> self@.refs[n] == 0,
            decreases self@.write_back.len(),
        {
            let ghost now = self@;
            let ghost num = now.write_back.last();
            self.write_back_last();
            proof {
                let op = StoreOp::Write(num, now.pages[num]);
                assert(now.dirty_pages().drop_last() =~= self@.dirty_pages());
                lemma_apply_push(first.store, done, op);
                assert(done.push(op) + write_back_ops(self@.dirty_pages()) =~= done + (seq![op]
                    + write_back_ops(self@.dirty_pages())));
                assert((first.history + done).push(op) =~= first.history + done.push(op));
                assert(some_pages(self@.write_back) + (seq![Some(num)] + now.lru) =~= some_pages(
                    now.write_back,
                ) + now.lru);
                done = done.push(op);
            }
        }
        proof {
            assert(self@.dirty_pages() =~= Seq::empty());
            assert(done + Seq::<StoreOp>::empty() =~= done);
            self.lemma_dirty_listed();
            assert forall|n: u64| !self@.dirty.contains(n) by {
                if self@.dirty.contains(n) {
                    assert(self@.write_back.contains(n));
                }
            }
            assert(self@.dirty =~= Set::empty());
            assert(self@.write_back =~= Seq::empty());
            assert(some_pages(self@.write_back) + self@.lru =~= self@.lru);
        }
    }

    /// Writes all pages that the transaction has changed to the log, then to
    /// their place, and ends the transaction.
    pub fn end_transaction(&mut self, guard: TransactionGuard)
        requires
            old(self).inv(),
            old(self)@.in_transaction,
            forall|n: u64| #[trigger] old(self)@.dirty.contains(n) ==> old(self)@.refs[n] == 0,
        ensures
            final(self).inv(),
            final(self)@ == old(self)@.commit(),
    {
        let ghost before = *self;
        if !self.dirty_page_list.empty() {
            let ghost dirty = before@.dirty_pages();
            let ghost logged = before@.log.log_transaction(dirty);
            // Write to journal
            self.log_dirty();
            self.sync_store();
            assert(self@.dirty_pages() =~= dirty);

            // Write to backing store.
            self.write_back_all();
            self.sync_store();
            self.empty_log();
            proof {
                let log_ops = before@.log.log_transaction_ops(dirty);
                let ops1 = log_ops.push(StoreOp::Sync);
                let ops2 = ops1 + write_back_ops(dirty);
                let ops3 = ops2.push(StoreOp::Sync);
                let store = before@.store;
                lemma_apply_push(store, log_ops, StoreOp::Sync);
                lemma_apply_concat(store, ops1, write_back_ops(dirty));
                lemma_apply_push(store, ops2, StoreOp::Sync);
                lemma_apply_push(store, ops3, logged.blocks_written_op());
                assert(self@.history =~= before@.history + commit_ops(before@.log, dirty));
            }
        } else {
            proof {
                self.lemma_dirty_listed();
            }
        }
        let ghost written = *self;
        self.transaction_active = false;
        proof {
            written.lemma_dirty_listed();
            assert forall|n: u64| #[trigger] self.page_map@.contains_key(n) implies self.mapped_ok(
                n,
            ) by {
                assert(written.mapped_ok(n));
            }
            assert forall|s: int| 0 <= s < self.pages@.len() implies #[trigger] self.slot_ok(s) by {
                assert(written.slot_ok(s));
                if written.pages@[s].dirty {
                    assert(written@.dirty.contains(written.page_of(s as usize)));
                }
            }
            assert(self@ =~= CacheState { in_transaction: false, ..written@ });
        }
    }

    fn sync_store(&mut self)
        requires
            old(self).inv(),
        ensures
            final(self).inv(),
            final(self)@ == (CacheState {
                history: old(self)@.history.push(StoreOp::Sync),
                ..old(self)@
            }),
    {
        let ghost before = *self;
        self.persistent_store.sync();
        proof {
            self.lemma_same_pages(before);
        }
    }

    /// Marks all that is in the log as written.
    fn empty_log(&mut self)
        requires
            old(self).inv(),
        ensures
            final(self).inv(),
            final(self)@ == (CacheState {
                store: apply_op(old(self)@.store, old(self)@.log.blocks_written_op()),
                history: old(self)@.history.push(old(self)@.log.blocks_written_op()),
                log: old(self)@.log.blocks_written(),
                ..old(self)@
            }),
    {
        let ghost before = *self;
        self.write_ahead_log.blocks_written(&mut self.persistent_store);
        proof {
            self.lemma_same_pages(before);
        }
    }

    /// No page was loaded yet.
    pub closed spec fn fresh(&self) -> bool {
        self.page_map@.dom() == Set::<u64>::empty()
    }

    /// Brings the pages that an interrupted commit has left in the log to
    /// their place. This is done before any page is loaded.
    pub fn replay(&mut self)
        requires
            old(self).inv(),
            old(self).fresh(),
            old(self)@.log.replayable(old(self)@.store),
        ensures
            final(self).inv(),
            final(self).fresh(),
            final(self)@ == ({
                let ops = old(self)@.log.replay_all_ops(old(self)@.store);
                let store = apply_ops(old(self)@.store, ops);
                CacheState {
                    pages: Map::new(
                        |num: u64| true,
                        |num: u64|
                            if lockable(num) {
                                store[num]
                            } else {
                                Seq::empty()
                            },
                    ),
                    store,
                    history: old(self)@.history + ops,
                    log: old(self)@.log.replay(old(self)@.store),
                    ..old(self)@
                }
            }),
    {
        let ghost before = *self;
        self.write_ahead_log.replay(&mut self.persistent_store);
        proof {
            assert forall|n: u64| #[trigger] self.page_map@.contains_key(n) implies self.mapped_ok(
                n,
            ) by {
                assert(before.page_map@.dom().contains(n));
            }
            assert forall|s: int| 0 <= s < self.pages@.len() implies #[trigger] self.slot_ok(s) by {
                assert(before.slot_ok(s));
                if self.pages@[s].page_num is Some {
                    assert(before.page_map@.dom().contains(self.pages@[s].page_num->Some_0@));
                }
            }
            assert forall|n: u64| !self.page_map@.contains_key(n) by {
                assert(!before.page_map@.dom().contains(n));
            }
            let ops = before@.log.replay_all_ops(before@.store);
            let store = apply_ops(before@.store, ops);
            let after = CacheState {
                pages: Map::new(
                    |num: u64| true,
                    |num: u64|
                        if lockable(num) {
                            store[num]
                        } else {
                            Seq::empty()
                        },
                ),
                store,
                history: before@.history + ops,
                log: before@.log.replay(before@.store),
                ..before@
            };
            assert(self@.pages =~= after.pages);
            assert(self@.refs =~= after.refs);
            assert(self@.dirty =~= after.dirty);
            assert(self@.write_back =~= after.write_back);
            assert(self@.lru =~= after.lru);
            assert(self@ =~= after);
        }
    }
}

impl CacheState {
    /// A page that is locked has one lock more and looks as before, as do all others. A change
    /// of it has to be written by the end of the transaction. It takes a slot unless it had one.
    pub proof fn law_lock_keeps_pages(self, num: u64, writable: bool, q: u64)
        requires
            self.can_lock(num),
        ensures
            ({
                let after = self.lock(num, writable);
                &&& after.pages == self.pages
                &&& after.same_disk(self)
                &&& after.refs[num] == self.refs[num] + 1
                &&& q != num ==> after.refs[q] == self.refs[q]
                &&& after.dirty.contains(q) == (self.dirty.contains(q) || (writable && q == num))
                &&& after.available == (if self.refs[num] == 0 && !self.dirty.contains(num) {
                    self.available - 1
                } else {
                    self.available as int
                })
            }),
    {
    }

    /// A page whose lock is released has one lock less and looks as before, as do all others.
    /// Its slot can be given to another page once it has no lock and was not changed.
    pub proof fn law_unlock_keeps_pages(self, num: u64, q: u64)
        requires
            self.refs[num] > 0,
        ensures
            ({
                let after = self.unlock(num);
                &&& after.pages == self.pages
                &&& after.same_disk(self)
                &&& after.dirty == self.dirty
                &&& after.refs[num] == self.refs[num] - 1
                &&& q != num ==> after.refs[q] == self.refs[q]
                &&& after.available == (if self.refs[num] == 1 && !self.dirty.contains(num) {
                    self.available + 1
                } else {
                    self.available
                })
            }),
    {
    }

    /// Of two pages that are released one after the other, unchanged and without further locks,
    /// the slot of the first one goes to another page before that of the second one, and behind
    /// those of all that were released before. A page that has no slot gets the one that was
    /// released longest ago.
    pub proof fn law_longest_unused_slot_goes_first(self, first: u64, second: u64, other: u64)
        requires
            self.refs[first] == 1,
            self.refs[second] == 1,
            !self.dirty.contains(first),
            !self.dirty.contains(second),
            first != second,
            self.idle(other),
            other != first,
            other != second,
            !self.lru.contains(Some(other)),
        ensures
            ({
                let after = self.unlock(first).unlock(second);
                let given = after.lock(other, false);
                &&& after.lru.len() == self.lru.len() + 2
                &&& after.lru[0] == Some(second)
                &&& after.lru[1] == Some(first)
                &&& forall|i: int|
                    0 <= i < self.lru.len() ==> #[trigger] after.lru[i + 2] == self.lru[i]
                &&& given.lru == after.lru.take(after.lru.len() - 1)
            }),
    {
        let after = self.unlock(first).unlock(second);
        assert(after.lru =~= seq![Some(second), Some(first)] + self.lru);
        assert(!after.lru.contains(Some(other))) by {
            if after.lru.contains(Some(other)) {
                let i = after.lru.index_of(Some(other));
                assert(after.lru[i] == Some(other));
                if i >= 2 {
                    assert(self.lru[i - 2] == Some(other));
                }
            }
        }
        assert(after.idle(other));
    }

    /// A page that still has a slot is found there again: the others keep theirs.
    pub proof fn law_page_is_found_in_its_slot(self, num: u64, at: int, writable: bool)
        requires
            self.idle(num),
            0 <= at < self.lru.len(),
            self.lru[at] == Some(num),
            forall|i: int|
                0 <= i < self.lru.len() && i != at ==> #[trigger] self.lru[i] != Some(num),
        ensures
            self.lock(num, writable).lru == self.lru.take(at) + self.lru.skip(at + 1),
    {
        assert(self.lru.contains(Some(num)));
        let i = self.lru.index_of(Some(num));
        assert(self.lru[i] == Some(num));
        assert(self.lru.remove(at) =~= self.lru.take(at) + self.lru.skip(at + 1));
    }
}

/// All pages but the ten of the log and the one whose number stands for none can be locked, if
/// they have a slot or one is free.
pub proof fn law_pages_that_can_be_locked(cache: CacheState, num: u64)
    ensures
        lockable(num) == (num != u64::MAX && !(1 <= num <= 10)),
        cache.refs[num] < u32::MAX && num != u64::MAX && !(1 <= num <= 10) && (cache.available > 0
            || cache.dirty.contains(num) || cache.refs[num] > 0) ==> cache.can_lock(num),
        cache.idle(num) == (cache.refs[num] == 0 && !cache.dirty.contains(num)),
{
}

/// The largest number stands for no page, and every other number for its page.
pub proof fn law_page_numbers_are_read_back(num: u64)
    ensures
        decode_page_num(encode_page_num(None) as int) == None::<u64>,
        num != u64::MAX ==> decode_page_num(encode_page_num(Some(num)) as int) == Some(num),
        encode_page_num(None) == u64::MAX,
        encode_page_num(Some(num)) == num,
{
}

} // verus!
