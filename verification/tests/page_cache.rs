use std::cell::{Cell, RefCell};
use std::collections::HashMap;
use std::rc::Rc;

use rand::rngs::SmallRng;
use rand::seq::index;
use rand::{RngExt, SeedableRng};

use rustdb::page_allocator::PageAllocator;
use rustdb::page_cache::{
    PageCache, PageData, PageGuard, PageGuardMut, PageNum, PersistentStore, LOG_PAGES, PAGE_SIZE,
};
use rustdb::superblock::{init_superblock, SUPERBLOCK_FPID};
use rustdb::wal::{WriteAheadLog, HEADER_BLOCKS};

/// A store in memory that can be shared and can be made to lose writes.
#[derive(Clone)]
struct MockPersistentStore {
    saved_pages: Rc<RefCell<HashMap<u64, PageData>>>,
    write_limit: Rc<Cell<usize>>,
}

#[allow(dead_code)]
impl MockPersistentStore {
    fn default() -> Self {
        Self {
            saved_pages: Rc::new(RefCell::new(HashMap::new())),
            write_limit: Rc::new(Cell::new(usize::MAX)),
        }
    }

    fn set_write_limit(&self, limit: usize) {
        self.write_limit.set(limit);
    }

    fn hit_write_limit(&self) -> bool {
        self.write_limit.get() == 0
    }
}

impl PersistentStore for MockPersistentStore {
    fn read(&mut self, page_num: PageNum, page: &mut PageData) {
        match self.saved_pages.borrow().get(&page_num.as_u64()) {
            Some(saved) => page.copy_from_slice(saved),
            None => page.fill(0),
        }
    }

    fn write(&mut self, page_num: PageNum, page: &PageData) {
        let limit = self.write_limit.get();
        if limit != usize::MAX && limit > 0 {
            self.write_limit.set(limit - 1);
        }

        if self.write_limit.get() == 0 {
            return;
        }

        self.saved_pages.borrow_mut().insert(page_num.as_u64(), *page);
    }

    fn sync(&mut self) {}
}

fn setup_cache(capacity: usize) -> (MockPersistentStore, PageCache<MockPersistentStore>) {
    let mock_io = MockPersistentStore::default();
    let page_cache = PageCache::new(capacity, mock_io.clone());
    (mock_io, page_cache)
}

fn page_on_disk(mock_io: &MockPersistentStore, num: u64) -> PageData {
    let mut page: PageData = [0; PAGE_SIZE];
    mock_io.clone().read(PageNum::from_u64(num), &mut page);
    page
}

#[test]
fn test_read_zeroes() {
    let mut mock = MockPersistentStore::default();
    let mut temp: PageData = [0; PAGE_SIZE];
    mock.read(PageNum::from_u64(1), &mut temp);
    assert_eq!(&temp, &[0; PAGE_SIZE]);
}

#[test]
fn test_readback() {
    let mut mock = MockPersistentStore::default();
    let temp1: PageData = [0xcc; PAGE_SIZE];
    mock.write(PageNum::from_u64(1), &temp1);

    let mut temp2: PageData = [0; PAGE_SIZE];
    mock.read(PageNum::from_u64(1), &mut temp2);
    assert_eq!(&temp1, &temp2);

    // Ensure other blocks are zero
    let mut temp3: PageData = [0; PAGE_SIZE];
    mock.read(PageNum::from_u64(2), &mut temp3);
    assert_eq!(&[0; PAGE_SIZE], &temp3);
}

#[test]
fn test_pc_lock_two_pages() {
    let (mut mock_io, mut page_cache) = setup_cache(5);

    // Fill the first page
    mock_io.write(PageNum::from_u64(100), &[0xcc; PAGE_SIZE]);

    let guard = page_cache.lock_page(PageNum::from_u64(100));
    assert_eq!(*page_cache.data(&guard), [0xcc; PAGE_SIZE]);
    page_cache.unlock_page(guard);

    // Read a different page
    mock_io.write(PageNum::from_u64(101), &[0xdd; PAGE_SIZE]);
    let guard = page_cache.lock_page(PageNum::from_u64(101));
    assert_eq!(*page_cache.data(&guard), [0xdd; PAGE_SIZE]);
    page_cache.unlock_page(guard);

    // Now read the original page. It's cached, so it will not need to be re-read
    let guard = page_cache.lock_page(PageNum::from_u64(100));
    assert_eq!(*page_cache.data(&guard), [0xcc; PAGE_SIZE]);
    page_cache.unlock_page(guard);
}

#[test]
fn test_pc_lock_write_dirty_cache_miss() {
    let (mock_io, mut page_cache) = setup_cache(5);

    let transaction = page_cache.begin_transaction();
    let guard = page_cache.lock_page_mut(PageNum::from_u64(100));
    page_cache.set_data(&guard, &[0xcc; PAGE_SIZE]);
    page_cache.unlock_page_mut(guard);
    page_cache.end_transaction(transaction);

    // The end of the transaction will cause a writeback. Ensure the backing store is correct.
    assert_eq!(page_on_disk(&mock_io, 100), [0xcc; PAGE_SIZE]);
}

// Cache hit is a different code path. This is a regression test.
#[test]
fn test_pc_lock_write_dirty_cache_hit() {
    let (mock_io, mut page_cache) = setup_cache(5);

    let transaction = page_cache.begin_transaction();
    let guard = page_cache.lock_page_mut(PageNum::from_u64(100));
    page_cache.unlock_page_mut(guard);
    page_cache.end_transaction(transaction);

    // Now lock the page again.
    let transaction = page_cache.begin_transaction();
    let guard = page_cache.lock_page_mut(PageNum::from_u64(100));
    page_cache.set_data(&guard, &[0xcc; PAGE_SIZE]);
    page_cache.unlock_page_mut(guard);
    page_cache.end_transaction(transaction);

    assert_eq!(page_on_disk(&mock_io, 100), [0xcc; PAGE_SIZE]);
}

// it's possible within a transaction we will lock the same page twice for
// modification. Ensure this doesn't assert.
#[test]
fn test_pc_dirty_relock() {
    let (mock_io, mut page_cache) = setup_cache(5);
    let transaction = page_cache.begin_transaction();
    let guard1 = page_cache.lock_page_mut(PageNum::from_u64(100));
    page_cache.unlock_page_mut(guard1);
    let guard2 = page_cache.lock_page_mut(PageNum::from_u64(100));
    page_cache.set_data(&guard2, &[0xcc; PAGE_SIZE]);
    page_cache.unlock_page_mut(guard2);
    page_cache.end_transaction(transaction);

    assert_eq!(page_on_disk(&mock_io, 100), [0xcc; PAGE_SIZE]);
}

#[test]
fn test_empty_transaction() {
    let (mock_io, mut page_cache) = setup_cache(5);
    let transaction = page_cache.begin_transaction();
    page_cache.end_transaction(transaction);
    assert!(mock_io.saved_pages.borrow().is_empty());
}

// Lock the same page twice for write in the same transaction
// Regression test, this would hang previously because it would
// reinsert the page into the dirty list, creating a loop.
#[test]
fn test_page_lock_write_then_write() {
    let (_mock_io, mut page_cache) = setup_cache(10);
    let transaction = page_cache.begin_transaction();
    let guard1 = page_cache.lock_page_mut(PageNum::from_u64(100));
    let guard2 = page_cache.lock_page_mut(PageNum::from_u64(100));
    page_cache.unlock_page_mut(guard2);
    page_cache.unlock_page_mut(guard1);
    page_cache.end_transaction(transaction);
}

// Lock first read, then write, ensure it gets written back
// Regression test, would not write back previously; it would
// only set the writable flag when the reference count was zero.
#[test]
fn test_page_lock_read_then_write() {
    let (mock_io, mut page_cache) = setup_cache(5);

    let transaction = page_cache.begin_transaction();
    let guard1 = page_cache.lock_page(PageNum::from_u64(100));
    let guard = page_cache.lock_page_mut(PageNum::from_u64(100));
    page_cache.set_data(&guard, &[0xcc; PAGE_SIZE]);
    page_cache.unlock_page_mut(guard);
    page_cache.unlock_page(guard1);
    page_cache.end_transaction(transaction);

    assert_eq!(page_on_disk(&mock_io, 100), [0xcc; PAGE_SIZE]);
}

// Ensure we don't clear the writable flag when relocking for read.
#[test]
fn test_page_lock_write_then_read() {
    let (mock_io, mut page_cache) = setup_cache(5);

    let transaction = page_cache.begin_transaction();
    let guard1 = page_cache.lock_page_mut(PageNum::from_u64(100));
    page_cache.set_data(&guard1, &[0xcc; PAGE_SIZE]);
    let guard2 = page_cache.lock_page(PageNum::from_u64(100));
    page_cache.unlock_page(guard2);
    page_cache.unlock_page_mut(guard1);
    page_cache.end_transaction(transaction);

    assert_eq!(page_on_disk(&mock_io, 100), [0xcc; PAGE_SIZE]);
}

#[test]
fn test_page_cache_stress() {
    const TOTAL_PAGES: usize = 30;
    const CACHE_PAGES: usize = 10;

    let mut rng = SmallRng::seed_from_u64(0x12345);
    let (_mock_io, mut page_cache) = setup_cache(CACHE_PAGES);
    let mut oracle: Vec<PageData> = vec![[0u8; PAGE_SIZE]; TOTAL_PAGES + LOG_PAGES + 1];

    for _ in 0..10000 {
        let transaction = page_cache.begin_transaction();
        let mut guards: Vec<PageGuard> = Vec::new();
        let mut mut_guards: Vec<PageGuardMut> = Vec::new();

        // Lock up to 5 pages.
        for _ in 0..rng.random_range(1..5) {
            // Note the same file page may be locked multiple times (3.33% chance)
            let page_num = rng.random_range(LOG_PAGES + 1..TOTAL_PAGES + LOG_PAGES + 1);
            // Randomly decide if to lock for read or write
            if rng.random_bool(0.5) {
                let guard = page_cache.lock_page_mut(PageNum::from_u64(page_num as u64));
                assert_eq!(page_cache.read_page(PageNum::from_u64(page_num as u64)), oracle[page_num]);
                rng.fill(&mut oracle[page_num]);
                page_cache.set_data(&guard, &oracle[page_num]);
                mut_guards.push(guard);
            } else {
                let guard = page_cache.lock_page(PageNum::from_u64(page_num as u64));
                assert_eq!(*page_cache.data(&guard), oracle[page_num]);
                guards.push(guard);
            }
        }

        for guard in mut_guards {
            page_cache.unlock_page_mut(guard);
        }
        for guard in guards {
            page_cache.unlock_page(guard);
        }
        page_cache.end_transaction(transaction);
    }

    // Check all pages
    for page_num in LOG_PAGES + 1..LOG_PAGES + 1 + TOTAL_PAGES {
        assert_eq!(page_cache.read_page(PageNum::from_u64(page_num as u64)), oracle[page_num]);
    }
}

#[test]
fn test_free_slots_follow_dirty_pages() {
    let (_mock_io, mut page_cache) = setup_cache(5);
    assert_eq!(page_cache.free_slots(), 5);
    let transaction = page_cache.begin_transaction();
    page_cache.write_page(PageNum::from_u64(100), &[1; PAGE_SIZE]);
    page_cache.write_page(PageNum::from_u64(101), &[2; PAGE_SIZE]);
    page_cache.write_page(PageNum::from_u64(100), &[3; PAGE_SIZE]);
    assert_eq!(page_cache.free_slots(), 3);
    page_cache.end_transaction(transaction);
    assert_eq!(page_cache.free_slots(), 5);
    assert_eq!(page_cache.read_page(PageNum::from_u64(100)), [3; PAGE_SIZE]);
}

// Wherever the writes of a transaction stop, a new cache sees either all of it
// or nothing of it.
#[test]
fn test_interrupted_commit() {
    for limit in 1..10 {
        let (mock_io, mut page_cache) = setup_cache(5);
        let transaction = page_cache.begin_transaction();
        page_cache.write_page(PageNum::from_u64(100), &[1; PAGE_SIZE]);
        page_cache.write_page(PageNum::from_u64(101), &[1; PAGE_SIZE]);
        page_cache.end_transaction(transaction);

        let transaction = page_cache.begin_transaction();
        page_cache.write_page(PageNum::from_u64(100), &[2; PAGE_SIZE]);
        page_cache.write_page(PageNum::from_u64(101), &[2; PAGE_SIZE]);
        mock_io.set_write_limit(limit);
        page_cache.end_transaction(transaction);

        mock_io.set_write_limit(usize::MAX);
        let mut reopened = PageCache::new(5, mock_io.clone());
        reopened.replay();
        // Two log blocks and the header have to be written before the transaction counts.
        let expect: u8 = if limit <= 3 { 1 } else { 2 };
        assert_eq!(reopened.read_page(PageNum::from_u64(100)), [expect; PAGE_SIZE]);
        assert_eq!(reopened.read_page(PageNum::from_u64(101)), [expect; PAGE_SIZE]);
    }
}

fn setup_allocator() -> (PageCache<MockPersistentStore>, PageAllocator) {
    let (_mock_io, mut page_cache) = setup_cache(10);
    let transaction = page_cache.begin_transaction();
    let mut page: PageData = [0; PAGE_SIZE];
    init_superblock(&mut page);
    page_cache.write_page(PageNum::from_u64(SUPERBLOCK_FPID), &page);
    let allocator = PageAllocator::new(&mut page_cache);
    page_cache.end_transaction(transaction);
    (page_cache, allocator)
}

#[test]
fn test_page_allocator() {
    let (mut page_cache, mut allocator) = setup_allocator();
    let transaction = page_cache.begin_transaction();

    // Allocate two frontier blocks
    let p0 = allocator.allocate(&mut page_cache);
    let p1 = allocator.allocate(&mut page_cache);
    assert_ne!(p0, p1);
    allocator.free(p0, &mut page_cache);

    // Alloc after free should return the same block
    let p3 = allocator.allocate(&mut page_cache);
    assert_eq!(p3, p0);

    // Should come from the frontier
    let p4 = allocator.allocate(&mut page_cache);
    assert!(p4.as_u64() > p1.as_u64());
    assert_eq!(p0.as_u64(), 12);
    assert_eq!(allocator.total_allocs, 4);
    assert_eq!(allocator.total_frees, 1);
    page_cache.end_transaction(transaction);
}

#[test]
fn test_page_allocator_persistence() {
    let (mut page_cache, mut allocator) = setup_allocator();
    let transaction = page_cache.begin_transaction();

    // Allocate two frontier blocks, free one
    let p0 = allocator.allocate(&mut page_cache);
    let p1 = allocator.allocate(&mut page_cache);
    allocator.free(p1, &mut page_cache);

    // Create a new allocator to read the state back from the superblock
    let mut allocator2 = PageAllocator::new(&mut page_cache);

    // Alloc after free should return the same block
    let p3 = allocator2.allocate(&mut page_cache);
    assert_eq!(p3, p1);
    assert_ne!(p3, p0);

    // Should come from the frontier
    let p4 = allocator2.allocate(&mut page_cache);
    assert!(p4 > p1);
    assert_ne!(p4, p0);
    assert_ne!(p4, p3);
    page_cache.end_transaction(transaction);
}

#[test]
fn test_log_transaction_replay() {
    let mut mock_io = MockPersistentStore::default();

    let mut log1 = WriteAheadLog::new(PageNum::from_u64(2), 10);
    log1.log_transaction(
        &vec![
            (PageNum::from_u64(13), [1; PAGE_SIZE]),
            (PageNum::from_u64(15), [2; PAGE_SIZE]),
        ],
        &mut mock_io,
    );

    // Reopen, replay transaction
    let mut log2 = WriteAheadLog::new(PageNum::from_u64(2), 10);
    log2.replay(&mut mock_io);

    assert_eq!(page_on_disk(&mock_io, 13), [1; PAGE_SIZE]);
    assert_eq!(page_on_disk(&mock_io, 15), [2; PAGE_SIZE]);
}

#[test]
fn test_log_transaction_replay_wrap() {
    let mut mock_io = MockPersistentStore::default();

    let mut log1 = WriteAheadLog::new(PageNum::from_u64(2), 7);
    log1.log_transaction(
        &vec![
            (PageNum::from_u64(13), [1; PAGE_SIZE]),
            (PageNum::from_u64(14), [2; PAGE_SIZE]),
            (PageNum::from_u64(15), [3; PAGE_SIZE]),
        ],
        &mut mock_io,
    );

    mock_io.write(PageNum::from_u64(13), &[1; PAGE_SIZE]);
    mock_io.write(PageNum::from_u64(14), &[2; PAGE_SIZE]);
    mock_io.write(PageNum::from_u64(15), &[3; PAGE_SIZE]);
    log1.blocks_written(&mut mock_io);

    log1.log_transaction(
        &vec![
            (PageNum::from_u64(16), [4; PAGE_SIZE]),
            (PageNum::from_u64(17), [5; PAGE_SIZE]),
            (PageNum::from_u64(18), [6; PAGE_SIZE]),
        ],
        &mut mock_io,
    );

    // Reopen, replay transaction
    let mut log2 = WriteAheadLog::new(PageNum::from_u64(2), 7);
    log2.replay(&mut mock_io);

    for i in 0..5 {
        assert_eq!(page_on_disk(&mock_io, 13 + i as u64), [i + 1; PAGE_SIZE]);
    }
}

// Transaction completes, no need to replay
#[test]
fn test_log_transaction_no_replay() {
    let mut mock_io = MockPersistentStore::default();

    let mut log1 = WriteAheadLog::new(PageNum::from_u64(2), 10);
    log1.log_transaction(
        &vec![
            (PageNum::from_u64(13), [1; PAGE_SIZE]),
            (PageNum::from_u64(15), [2; PAGE_SIZE]),
        ],
        &mut mock_io,
    );

    log1.blocks_written(&mut mock_io);

    // Reopen
    let mut log2 = WriteAheadLog::new(PageNum::from_u64(2), 10);
    log2.replay(&mut mock_io);

    // Okay, we never actually wrote these blocks, so the replay will
    // do nothing and the blocks will be zero.
    assert_eq!(page_on_disk(&mock_io, 13), [0; PAGE_SIZE]);
    assert_eq!(page_on_disk(&mock_io, 15), [0; PAGE_SIZE]);
}

#[test]
fn test_transaction_stress() {
    let mut mock_io = MockPersistentStore::default();
    const LOG_START: usize = 2;
    const LOG_SIZE: usize = 10;
    const FS_SIZE: usize = 40;
    const START_OF_DATA: usize = LOG_START + HEADER_BLOCKS + LOG_SIZE;
    let mut oracle: Vec<PageData> = vec![[0; PAGE_SIZE]; FS_SIZE];
    let mut rng = SmallRng::seed_from_u64(0x12345);
    for _iteration in 0..1000 {
        // The write limit here will cause writes to fail at some random point.
        // We then will restart to ensure the disk is in a consistent state.
        mock_io.set_write_limit(rng.random_range(1..50));

        let mut log = WriteAheadLog::new(PageNum::from_u64(LOG_START as u64), LOG_SIZE);
        log.replay(&mut mock_io);
        if mock_io.hit_write_limit() {
            // Failed to write, did not replay log, it is not yet consistent with oracle, so
            // retry.
            continue;
        }

        // Validate disk against the oracle
        for (block_index, expected) in oracle.iter().enumerate().skip(START_OF_DATA) {
            assert_eq!(page_on_disk(&mock_io, block_index as u64), *expected);
        }

        // Create some transactions.
        let transaction_count = rng.random_range(1..5);
        for _ti in 0..transaction_count {
            let page_count = rng.random_range(1..5);
            let block_offsets: Vec<usize> =
                index::sample(&mut rng, FS_SIZE - START_OF_DATA, page_count).into_vec();
            let pages: Vec<(PageNum, PageData)> = block_offsets
                .into_iter()
                .map(|offset| {
                    let mut data: PageData = [0; PAGE_SIZE];
                    rng.fill(&mut data);
                    let page_num = PageNum::from_u64((START_OF_DATA + offset) as u64);
                    (page_num, data)
                })
                .collect();
            log.log_transaction(&pages, &mut mock_io);

            if mock_io.hit_write_limit() {
                // Failed to write to the log, skip updating the oracle; this data will be lost.
                continue;
            }

            for (page_num, data) in &pages {
                oracle[page_num.as_u64() as usize] = *data;
            }

            for (page_num, data) in pages {
                mock_io.write(page_num, &data);
            }

            log.blocks_written(&mut mock_io);
        }
    }
}

// A log of three pages, written up to the header or not, and the pages as they were.
fn logged(limit: usize) -> (MockPersistentStore, Vec<(PageNum, PageData)>, PageData) {
    let mut mock_io = MockPersistentStore::default();
    let old: PageData = [7; PAGE_SIZE];
    let mut pages: Vec<(PageNum, PageData)> = Vec::new();
    for i in 0..3u64 {
        mock_io.write(PageNum::from_u64(20 + i), &old);
        pages.push((PageNum::from_u64(20 + i), [i as u8 + 1; PAGE_SIZE]));
    }
    let mut log = WriteAheadLog::new(PageNum::from_u64(2), 10);
    log.replay(&mut mock_io);
    mock_io.set_write_limit(limit);
    log.log_transaction(&pages, &mut mock_io);
    mock_io.set_write_limit(usize::MAX);
    (mock_io, pages, old)
}

// A replay that is interrupted can be started again, however often.
#[test]
fn test_interrupted_replay() {
    for first in 1..6usize {
        for second in 1..6usize {
            let (mut mock_io, pages, _) = logged(usize::MAX);
            for limit in [first, second, usize::MAX] {
                mock_io.set_write_limit(limit);
                let mut log = WriteAheadLog::new(PageNum::from_u64(2), 10);
                log.replay(&mut mock_io);
            }
            for (num, data) in &pages {
                assert_eq!(page_on_disk(&mock_io, num.as_u64()), *data);
            }
        }
    }
}

// Bytes that are no header do not count, and the other copy does.
#[test]
fn test_torn_header() {
    let (mut mock_io, pages, old) = logged(usize::MAX);
    let mut torn = page_on_disk(&mock_io, 2);
    for byte in torn[PAGE_SIZE / 2..].iter_mut() {
        *byte = 0xa5;
    }
    mock_io.write(PageNum::from_u64(2), &torn);
    let mut log = WriteAheadLog::new(PageNum::from_u64(2), 10);
    log.replay(&mut mock_io);
    for (num, _) in &pages {
        assert_eq!(page_on_disk(&mock_io, num.as_u64()), old);
    }
}

// Once the header is written, it does not matter what the pages hold.
#[test]
fn test_torn_pages() {
    let (mut mock_io, pages, _) = logged(usize::MAX);
    for (i, (num, data)) in pages.iter().enumerate() {
        let mut torn = *data;
        for byte in torn[i * 1000 + 1..].iter_mut() {
            *byte = 0x5a;
        }
        mock_io.write(*num, &torn);
    }
    let mut log = WriteAheadLog::new(PageNum::from_u64(2), 10);
    log.replay(&mut mock_io);
    for (num, data) in &pages {
        assert_eq!(page_on_disk(&mock_io, num.as_u64()), *data);
    }
}

// Without the header nothing of the transaction is seen.
#[test]
fn test_blocks_without_header() {
    for limit in 1..4usize {
        let (mut mock_io, pages, old) = logged(limit);
        let mut log = WriteAheadLog::new(PageNum::from_u64(2), 10);
        log.replay(&mut mock_io);
        for (num, _) in &pages {
            assert_eq!(page_on_disk(&mock_io, num.as_u64()), old);
        }
    }
}
