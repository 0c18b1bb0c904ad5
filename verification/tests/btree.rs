use std::cell::{Cell, RefCell};
use std::collections::HashMap;
use std::rc::Rc;

use rand::rngs::SmallRng;
use rand::seq::SliceRandom;
use rand::{RngExt, SeedableRng};

use rustdb::btree::{BTree, BTreeCursor};
use rustdb::btree_node::{
    append_entry, find_key, get_entry_key, get_entry_size, get_entry_value, get_next_sib,
    get_prev_sib, get_right_child, init_btree_node, insert_entry, is_leaf, set_next_sib,
    set_not_leaf, set_prev_sib, set_right_child, split_node, MAX_RECORD_SIZE,
};
use rustdb::btree_print::to_hex_string;
use rustdb::page_allocator::PageAllocator;
use rustdb::page_cache::{PageCache, PageData, PageNum, PersistentStore, PAGE_SIZE};
use rustdb::superblock::{init_superblock, SUPERBLOCK_FPID};
use rustdb::vararray::{get_num_vararray_entries, get_vararray_free_space};

/// A store in memory that can be shared and can be made to lose writes.
#[derive(Clone)]
struct MockPersistentStore {
    saved_pages: Rc<RefCell<HashMap<u64, PageData>>>,
    write_limit: Rc<Cell<usize>>,
}

#[allow(dead_code)]
impl MockPersistentStore {
    fn default() -> Self {
        Self {
            saved_pages: Rc::new(RefCell::new(HashMap::new())),
            write_limit: Rc::new(Cell::new(usize::MAX)),
        }
    }

    fn set_write_limit(&self, limit: usize) {
        self.write_limit.set(limit);
    }

    fn hit_write_limit(&self) -> bool {
        self.write_limit.get() == 0
    }
}

impl PersistentStore for MockPersistentStore {
    fn read(&mut self, page_num: PageNum, page: &mut PageData) {
        match self.saved_pages.borrow().get(&page_num.as_u64()) {
            Some(saved) => page.copy_from_slice(saved),
            None => page.fill(0),
        }
    }

    fn write(&mut self, page_num: PageNum, page: &PageData) {
        let limit = self.write_limit.get();
        if limit != usize::MAX && limit > 0 {
            self.write_limit.set(limit - 1);
        }

        if self.write_limit.get() == 0 {
            return;
        }

        self.saved_pages.borrow_mut().insert(page_num.as_u64(), *page);
    }

    fn sync(&mut self) {}
}

type Cache = PageCache<MockPersistentStore>;

// The length of this key is important to ensure tests like
// delete_all create enough layers.
fn gen_key_for_index(index: usize) -> Vec<u8> {
    let mut key = index.to_be_bytes().to_vec();
    key.extend_from_slice(&[0u8].repeat(256));
    key
}

fn create_test_btree() -> (Cache, PageAllocator, BTree) {
    let mut page_cache = PageCache::new(50, MockPersistentStore::default());
    let transaction = page_cache.begin_transaction();

    let mut page: PageData = [0; PAGE_SIZE];
    init_superblock(&mut page);
    page_cache.write_page(PageNum::from_u64(SUPERBLOCK_FPID), &page);

    let mut allocator = PageAllocator::new(&mut page_cache);
    let tree = BTree::create(&mut page_cache, &mut allocator);
    page_cache.end_transaction(transaction);

    (page_cache, allocator, tree)
}

fn populate_test_btree(count: usize) -> (Cache, PageAllocator, BTree) {
    let (mut page_cache, mut allocator, tree) = create_test_btree();

    let mut test_sequence: Vec<usize> = (0..count).collect();
    test_sequence.shuffle(&mut SmallRng::seed_from_u64(0xc0fc47a65d406179));
    for i in test_sequence {
        let transaction = page_cache.begin_transaction();
        tree.insert(
            &gen_key_for_index(i),
            &(i as u64).to_le_bytes(),
            &mut page_cache,
            &mut allocator,
        );
        page_cache.end_transaction(transaction);
    }

    (page_cache, allocator, tree)
}

fn validate_node(page: &PageData) {
    // Ensure the keys are in order
    let mut last_key: &[u8] = &[0];
    for i in 0..get_num_vararray_entries(page) {
        let this_key = get_entry_key(page, i);
        assert!(last_key <= this_key, "keys are out of order");
        last_key = this_key;
    }
}

type LinkInfo = Vec<(PageNum, Option<PageNum>, Option<PageNum>)>;

fn walk_tree(
    page_num: PageNum,
    page_cache: &mut Cache,
    low_key: Option<&[u8]>,
    high_key: Option<&[u8]>,
    is_root: bool,
    link_info: &mut LinkInfo,
) {
    let page = page_cache.read_page(page_num);
    let num_entries = get_num_vararray_entries(&page);
    if is_root && num_entries == 0 {
        return;
    }

    assert!(num_entries > 0, "Empty page {:?} in tree", page_num);
    validate_node(&page);
    if let Some(low) = low_key {
        assert!(
            get_entry_key(&page, 0) > low,
            "Low key on page {:?} overlaps previous sibling",
            page_num
        );
    }

    if let Some(high) = high_key {
        assert!(
            get_entry_key(&page, num_entries - 1) <= high,
            "High key on page {:?} past parent key",
            page_num
        );
    }

    if is_leaf(&page) {
        link_info.push((page_num, get_prev_sib(&page), get_next_sib(&page)));
    } else {
        assert!(get_right_child(&page).is_some(), "Right child is null");

        for i in 0..num_entries {
            let child_page_num =
                PageNum::from_bytes(get_entry_value(&page, i)).expect("Invalid entry");
            let low_key = if i > 0 { Some(get_entry_key(&page, i - 1)) } else { None };
            let high_key = Some(get_entry_key(&page, i));

            walk_tree(child_page_num, page_cache, low_key, high_key, false, link_info);
        }

        walk_tree(
            get_right_child(&page).expect("Invalid right child"),
            page_cache,
            Some(get_entry_key(&page, num_entries - 1)),
            None,
            false,
            link_info,
        );
    }
}

fn validate_btree(tree: &BTree, page_cache: &mut Cache) {
    let mut link_info: LinkInfo = Vec::new();
    walk_tree(tree.get_root_page_id(), page_cache, None, None, true, &mut link_info);

    if !link_info.is_empty() {
        assert_eq!(link_info[0].1, None, "Bad prev pointer"); // Prev of first element is null
        assert_eq!(link_info[link_info.len() - 1].2, None, "Bad next pointer"); // Next of last element is null.
        for node in link_info.windows(2) {
            assert_eq!(node[0].2, Some(node[1].0), "Bad next pointer"); // first.next = second
            assert_eq!(node[1].1, Some(node[0].0), "Bad prev pointer"); // second.prev = first
        }
    }
}

// Builds a root with two leaves by hand.
fn build_tree(
    linked_next: bool,
    linked_prev: bool,
    first: Option<&[u8]>,
    second: Option<&[u8]>,
) -> (Cache, BTree) {
    let (mut page_cache, mut allocator, tree) = create_test_btree();
    let transaction = page_cache.begin_transaction();
    let root_num = tree.get_root_page_id();
    let mut root_page = page_cache.read_page(root_num);
    let child_page1_num = allocator.allocate(&mut page_cache);
    let mut child_page1 = page_cache.read_page(child_page1_num);
    let child_page2_num = allocator.allocate(&mut page_cache);
    let mut child_page2 = page_cache.read_page(child_page2_num);

    init_btree_node(&mut child_page1);
    init_btree_node(&mut child_page2);
    set_not_leaf(&mut root_page);
    if linked_next {
        set_next_sib(&mut child_page1, Some(child_page2_num));
    }
    if linked_prev {
        set_prev_sib(&mut child_page2, Some(child_page1_num));
    }

    append_entry(&mut root_page, b"banana", &child_page1_num.to_bytes());
    set_right_child(&mut root_page, Some(child_page2_num));

    if let Some(key) = first {
        append_entry(&mut child_page1, key, b"foo");
    }
    if let Some(key) = second {
        append_entry(&mut child_page2, key, b"foo");
    }
    page_cache.write_page(root_num, &root_page);
    page_cache.write_page(child_page1_num, &child_page1);
    page_cache.write_page(child_page2_num, &child_page2);
    page_cache.end_transaction(transaction);
    (page_cache, tree)
}

#[test]
fn test_validate_empty() {
    let (mut page_cache, _allocator, tree) = create_test_btree();
    validate_btree(&tree, &mut page_cache);
}

#[test]
#[should_panic = "High key on page PageNum(13) past parent key"]
fn test_validate_bad_order1() {
    // The key of the first leaf is past its parent key
    let (mut page_cache, tree) = build_tree(true, true, Some(b"bbnana"), Some(b"cabana"));
    validate_btree(&tree, &mut page_cache);
}

#[test]
#[should_panic = "Low key on page PageNum(14) overlaps previous sibling"]
fn test_validate_bad_order2() {
    // The key of the second leaf is before the last parent key
    let (mut page_cache, tree) = build_tree(true, true, Some(b"abacus"), Some(b"aardvark"));
    validate_btree(&tree, &mut page_cache);
}

#[test]
#[should_panic = "Empty page PageNum(13) in tree"]
fn test_validate_empty_node() {
    let (mut page_cache, tree) = build_tree(true, true, None, None);
    validate_btree(&tree, &mut page_cache);
}

#[test]
#[should_panic = "Bad next pointer"]
fn test_validate_bad_next() {
    let (mut page_cache, tree) = build_tree(false, true, Some(b"abacus"), Some(b"cencus"));
    validate_btree(&tree, &mut page_cache);
}

#[test]
#[should_panic = "Bad prev pointer"]
fn test_validate_bad_prev() {
    let (mut page_cache, tree) = build_tree(true, false, Some(b"abacus"), Some(b"cencus"));
    validate_btree(&tree, &mut page_cache);
}

#[test]
fn test_get_key_val() {
    let mut page: PageData = [0; PAGE_SIZE];
    init_btree_node(&mut page);

    append_entry(&mut page, b"foobar", b"abcdefghijklmnopqrstuwxyz");
    append_entry(&mut page, b"zzzz", b"3.1415926535897932384626433832");
    validate_node(&page);
    assert_eq!(get_num_vararray_entries(&page), 2);

    assert_eq!(get_entry_key(&page, 0), b"foobar");
    assert_eq!(get_entry_value(&page, 0), b"abcdefghijklmnopqrstuwxyz");

    assert_eq!(get_entry_key(&page, 1), b"zzzz");
    assert_eq!(get_entry_value(&page, 1), b"3.1415926535897932384626433832");
}

#[test]
fn test_find_key() {
    let mut page: PageData = [0; PAGE_SIZE];
    init_btree_node(&mut page);

    append_entry(&mut page, b"aaaa", &[0u8]);
    append_entry(&mut page, b"bbbb", &[0u8]);
    append_entry(&mut page, b"cccc", &[0u8]);
    append_entry(&mut page, b"dddd", &[0u8]);
    validate_node(&page);
    assert_eq!(get_num_vararray_entries(&page), 4);

    assert_eq!(find_key(&page, b"aaa"), 0); // Search key is before first key
    assert_eq!(find_key(&page, b"aaaa"), 0); // Equal to first key
    assert_eq!(find_key(&page, b"aaab"), 1); // Between first and second key
    assert_eq!(find_key(&page, b"bbbb"), 1); // Equal to second key
    assert_eq!(find_key(&page, b"bbbc"), 2); // Between second and third key
    assert_eq!(find_key(&page, b"eeee"), 4); // Larger than largest key
}

#[test]
fn test_find_key_empty() {
    let mut page: PageData = [0; PAGE_SIZE];
    init_btree_node(&mut page);

    assert_eq!(find_key(&page, b"foo"), 0);
}

// Validates get_vararray_free_space and get_entry_size return
// consistent values.
#[test]
fn test_entry_size() {
    let mut page: PageData = [0; PAGE_SIZE];
    init_btree_node(&mut page);
    let init_free_space = get_vararray_free_space(&page);
    let key1 = b"foo";
    let val1 = b"00000000000000000000000000000";
    insert_entry(&mut page, key1, val1);
    assert!(get_vararray_free_space(&page) < init_free_space);
    assert_eq!(get_vararray_free_space(&page), init_free_space - get_entry_size(key1, val1));

    let key2 = b"abcdefghijklmnopqrstuvwxyz";
    let val2 = b"..ooOOO";
    let init_free_space = get_vararray_free_space(&page);
    insert_entry(&mut page, key2, val2);
    assert!(get_vararray_free_space(&page) < init_free_space);
    assert_eq!(get_vararray_free_space(&page), init_free_space - get_entry_size(key2, val2));
}

#[test]
fn test_insert_entry() {
    let mut page: PageData = [0; PAGE_SIZE];
    init_btree_node(&mut page);

    // Note these are out of order
    insert_entry(&mut page, b"aardvark", &[0u8]);
    insert_entry(&mut page, b"zebra", &[0u8]);
    insert_entry(&mut page, b"apple", &[0u8]);
    insert_entry(&mut page, b"banana", &[0u8]);
    validate_node(&page);
    assert_eq!(get_num_vararray_entries(&page), 4);

    assert_eq!(find_key(&page, b"aardvark"), 0);
    assert_eq!(find_key(&page, b"apple"), 1);
    assert_eq!(find_key(&page, b"banana"), 2);
    assert_eq!(find_key(&page, b"zebra"), 3);
}

#[test]
fn test_split_interior_node() {
    let mut node1: PageData = [0; PAGE_SIZE];
    let mut node2: PageData = [0; PAGE_SIZE];
    let mut node3: PageData = [0; PAGE_SIZE];

    init_btree_node(&mut node1);
    node1[0] = 0; // Clear leaf flag
    const PAGE1_ENTRIES: usize = 50;
    for i in 0..PAGE1_ENTRIES {
        let key = vec![b'A' + i as u8; 128];
        insert_entry(&mut node1, &key, &(i as u64).to_le_bytes());
    }

    validate_node(&node1);

    let separator_key = split_node(&node1, &mut node2, &mut node3);
    validate_node(&node2);
    validate_node(&node3);

    let orig_sep_index = get_num_vararray_entries(&node2);
    assert_eq!(&separator_key, &get_entry_key(&node1, orig_sep_index));

    assert_eq!(
        get_right_child(&node2),
        PageNum::from_bytes(get_entry_value(&node1, orig_sep_index))
    );
    assert_eq!(get_right_child(&node3), get_right_child(&node1));

    // Ensure all entries are present and in order
    let node2_recs = get_num_vararray_entries(&node2);
    assert_eq!(
        get_num_vararray_entries(&node1) - 1,
        node2_recs + get_num_vararray_entries(&node3)
    );
    assert!(node2_recs < PAGE1_ENTRIES * 2 / 3);
    for i in 0..get_num_vararray_entries(&node1) {
        if i == node2_recs {
            continue; // ignore splitter
        }

        let orig_entry = get_entry_key(&node1, i);
        if i > node2_recs {
            assert_eq!(orig_entry, get_entry_key(&node3, i - node2_recs - 1));
        } else {
            assert_eq!(orig_entry, get_entry_key(&node2, i));
        }
    }
}

#[test]
fn test_split_leaf_node() {
    let mut node1: PageData = [0; PAGE_SIZE];
    let mut node2: PageData = [0; PAGE_SIZE];
    let mut node3: PageData = [0; PAGE_SIZE];

    init_btree_node(&mut node1);

    const PAGE1_ENTRIES: usize = 50;
    for i in 0..PAGE1_ENTRIES {
        let key = vec![b'A' + i as u8; 128];
        insert_entry(&mut node1, &key, &(i as u64).to_le_bytes());
    }

    validate_node(&node1);

    let separator_key = split_node(&node1, &mut node2, &mut node3);
    validate_node(&node2);
    validate_node(&node3);

    let orig_sep_index = get_num_vararray_entries(&node2) - 1;
    assert_eq!(&separator_key, &get_entry_key(&node1, orig_sep_index));

    // Ensure all entries are present and in order
    let node2_recs = get_num_vararray_entries(&node2);
    assert_eq!(get_num_vararray_entries(&node1), node2_recs + get_num_vararray_entries(&node3));
    assert!(node2_recs < PAGE1_ENTRIES * 2 / 3);
    for i in 0..get_num_vararray_entries(&node1) {
        let orig_entry = get_entry_key(&node1, i);
        if i >= node2_recs {
            assert_eq!(orig_entry, get_entry_key(&node3, i - node2_recs));
        } else {
            assert_eq!(orig_entry, get_entry_key(&node2, i));
        }
    }
}

// This only has two entries. Ensure it doesn't put both entries in the
// first page, leaving none in the second (regression test).
#[test]
fn test_split_large_leaf() {
    let mut node1: PageData = [0; PAGE_SIZE];
    let mut node2: PageData = [0; PAGE_SIZE];
    let mut node3: PageData = [0; PAGE_SIZE];

    init_btree_node(&mut node1);
    insert_entry(&mut node1, &[1u8; 2000], &[1u8, 8]);
    insert_entry(&mut node1, &[2u8; 2000], &[2u8, 8]);

    split_node(&node1, &mut node2, &mut node3);

    assert_eq!(get_num_vararray_entries(&node2), 1);
    assert_eq!(get_num_vararray_entries(&node3), 1);
    validate_node(&node2);
    validate_node(&node3);
}

// With few large keys the second page is left with an entry as well.
#[test]
fn test_split_large_interior() {
    for num_entries in 3..5u8 {
        let mut node1: PageData = [0; PAGE_SIZE];
        let mut node2: PageData = [0; PAGE_SIZE];
        let mut node3: PageData = [0; PAGE_SIZE];

        init_btree_node(&mut node1);
        set_not_leaf(&mut node1);
        set_right_child(&mut node1, Some(PageNum::from_u64(99)));
        for i in 0..num_entries {
            insert_entry(&mut node1, &[i + 1; 1990], &(i as u64 + 20).to_le_bytes());
        }

        let separator_key = split_node(&node1, &mut node2, &mut node3);

        let node2_recs = get_num_vararray_entries(&node2);
        let node3_recs = get_num_vararray_entries(&node3);
        assert!(node2_recs > 0);
        assert!(node3_recs > 0);
        assert_eq!(node2_recs + node3_recs + 1, num_entries as usize);
        assert_eq!(separator_key, get_entry_key(&node1, node2_recs).to_vec());
        assert_eq!(get_right_child(&node2), Some(PageNum::from_u64(node2_recs as u64 + 20)));
        assert_eq!(get_right_child(&node3), Some(PageNum::from_u64(99)));
        validate_node(&node2);
        validate_node(&node3);
    }
}

#[test]
fn test_leaf_flag() {
    let mut page: PageData = [0; PAGE_SIZE];
    init_btree_node(&mut page);
    assert!(is_leaf(&page));
    page[0] = 0;
    assert!(!is_leaf(&page));
}

fn check_entry(entry: Option<(Vec<u8>, Vec<u8>)>, i: usize) {
    let Some((key, val)) = entry else { panic!("failed to fetch entry") };
    assert_eq!(key.as_slice(), gen_key_for_index(i));
    assert_eq!(PageNum::from_bytes(&val).unwrap(), PageNum::from_u64(i as u64));
}

#[test]
fn test_valid_btree_create() {
    let (mut page_cache, _alloc, tree) = populate_test_btree(256);
    let mut cursor = tree.iterate(false, &mut page_cache);
    for i in 0..256 {
        check_entry(cursor.next(&mut page_cache), i);
    }
    assert_eq!(cursor.next(&mut page_cache), None);
}

#[test]
fn test_btree_backward_scan() {
    const NUM_TEST_ENTRIES: usize = 256;
    let (mut page_cache, _alloc, tree) = populate_test_btree(NUM_TEST_ENTRIES);

    let mut cursor = tree.iterate(true, &mut page_cache);
    for i in (0..NUM_TEST_ENTRIES).rev() {
        check_entry(cursor.next(&mut page_cache), i);
    }

    assert_eq!(cursor.next(&mut page_cache), None);
}

#[test]
fn test_btree_find() {
    let (mut page_cache, _alloc, tree) = populate_test_btree(256);

    const START_KEY_IDX: usize = 55;
    let mut cursor = tree.find(&gen_key_for_index(START_KEY_IDX), false, &mut page_cache);
    for i in START_KEY_IDX..START_KEY_IDX + 10 {
        check_entry(cursor.next(&mut page_cache), i);
    }
}

// Get the first page in the tree, which requires traversing the left child page.
#[test]
fn test_btree_find_begin() {
    let (mut page_cache, _alloc, tree) = populate_test_btree(256);

    let mut cursor = tree.find(&[0u8], false, &mut page_cache);
    check_entry(cursor.next(&mut page_cache), 0);
}

// Key is before first key and going in reverse. Nothing to fetch.
#[test]
fn test_btree_reverse_find_begin() {
    let (mut page_cache, _alloc, tree) = populate_test_btree(256);

    let mut cursor = tree.find(&[0u8], true, &mut page_cache);
    assert_eq!(cursor.next(&mut page_cache), None);
}

// Key is after last key and going forward. Nothing to fetch.
#[test]
fn test_btree_find_past_end() {
    let (mut page_cache, _alloc, tree) = populate_test_btree(256);

    let mut cursor = tree.find(&[0xff; 255], false, &mut page_cache);
    assert_eq!(cursor.next(&mut page_cache), None);
}

// Going in reverse from a key that is present starts with the one before it.
#[test]
fn test_btree_reverse_find_middle() {
    let (mut page_cache, _alloc, tree) = populate_test_btree(8);

    let mut cursor = tree.find(&gen_key_for_index(5), true, &mut page_cache);
    for i in (0..5).rev() {
        check_entry(cursor.next(&mut page_cache), i);
    }
    assert_eq!(cursor.next(&mut page_cache), None);
}

// A search between any two keys goes on in the next or the previous leaf where
// it has to, also after entries at the ends of leaves were deleted.
#[test]
fn test_btree_find_across_leaves() {
    const NUM_TEST_ENTRIES: usize = 256;
    let (mut page_cache, mut allocator, tree) = populate_test_btree(NUM_TEST_ENTRIES);

    let mut kept: Vec<usize> = (0..NUM_TEST_ENTRIES).collect();
    for step in [1, 3, 16] {
        for i in 0..NUM_TEST_ENTRIES {
            if i % step != 0 {
                let transaction = page_cache.begin_transaction();
                tree.delete(&gen_key_for_index(i), &mut page_cache, &mut allocator);
                page_cache.end_transaction(transaction);
            }
        }
        kept.retain(|i| i % step == 0);
        validate_btree(&tree, &mut page_cache);
        for i in 0..NUM_TEST_ENTRIES {
            let key = gen_key_for_index(i);
            let split = kept.partition_point(|k| *k < i);

            let mut cursor = tree.find(&key, false, &mut page_cache);
            for found in kept[split..].iter().take(20) {
                check_entry(cursor.next(&mut page_cache), *found);
            }
            if kept.len() - split <= 20 {
                assert_eq!(cursor.next(&mut page_cache), None);
            }

            let mut cursor = tree.find(&key, true, &mut page_cache);
            for found in kept[..split].iter().rev().take(20) {
                check_entry(cursor.next(&mut page_cache), *found);
            }
            if split <= 20 {
                assert_eq!(cursor.next(&mut page_cache), None);
            }
        }
    }
}

fn count_pages(page_num: PageNum, page_cache: &mut Cache) -> usize {
    let page = page_cache.read_page(page_num);
    let mut pages = 1;
    if !is_leaf(&page) {
        for i in 0..get_num_vararray_entries(&page) {
            let child = PageNum::from_bytes(get_entry_value(&page, i)).unwrap();
            pages += count_pages(child, page_cache);
        }
        pages += count_pages(get_right_child(&page).unwrap(), page_cache);
    }
    pages
}

// The pages handed out and not given back are those of the tree at all times.
#[test]
fn test_counters_follow_pages() {
    let (mut page_cache, mut allocator, tree) = create_test_btree();
    let root = tree.get_root_page_id();
    for i in 0..300 {
        let transaction = page_cache.begin_transaction();
        tree.insert(&gen_key_for_index(i * 7 % 300), b"value", &mut page_cache, &mut allocator);
        page_cache.end_transaction(transaction);
        let pages = count_pages(root, &mut page_cache);
        assert_eq!(allocator.total_allocs - allocator.total_frees, pages);
    }
    assert!(allocator.total_allocs > 10);
    for i in 0..300 {
        let transaction = page_cache.begin_transaction();
        tree.delete(&gen_key_for_index(i * 11 % 300), &mut page_cache, &mut allocator);
        page_cache.end_transaction(transaction);
        let pages = count_pages(root, &mut page_cache);
        assert_eq!(allocator.total_allocs - allocator.total_frees, pages);
    }
    assert_eq!(allocator.total_allocs - allocator.total_frees, 1);
}

#[test]
fn test_btree_delete() {
    const NUM_TEST_ENTRIES: usize = 256;
    let (mut page_cache, mut allocator, tree) = populate_test_btree(NUM_TEST_ENTRIES);

    const INDEX_TO_DELETE: usize = 37;
    let transaction = page_cache.begin_transaction();
    tree.delete(
        gen_key_for_index(INDEX_TO_DELETE).as_slice(),
        &mut page_cache,
        &mut allocator,
    );
    page_cache.end_transaction(transaction);

    let mut cursor = tree.iterate(false, &mut page_cache);
    for i in 0..NUM_TEST_ENTRIES {
        if i == INDEX_TO_DELETE {
            continue;
        }

        check_entry(cursor.next(&mut page_cache), i);
    }

    assert!(cursor.next(&mut page_cache).is_none());
    validate_btree(&tree, &mut page_cache);
}

#[test]
fn test_btree_delete_not_present() {
    const NUM_TEST_ENTRIES: usize = 256;
    let (mut page_cache, mut allocator, tree) = populate_test_btree(NUM_TEST_ENTRIES);

    // Key is bogus
    let transaction = page_cache.begin_transaction();
    tree.delete(b"yolo", &mut page_cache, &mut allocator);
    page_cache.end_transaction(transaction);

    let mut cursor = tree.iterate(false, &mut page_cache);
    for i in 0..NUM_TEST_ENTRIES {
        check_entry(cursor.next(&mut page_cache), i);
    }
}

// Deleting what is not there hands out and gives back nothing.
#[test]
fn test_btree_delete_not_present_counters() {
    let (mut page_cache, mut allocator, tree) = populate_test_btree(64);
    let counters = (allocator.total_allocs, allocator.total_frees);
    let slots = page_cache.free_slots();
    let transaction = page_cache.begin_transaction();
    tree.delete(b"yolo", &mut page_cache, &mut allocator);
    assert_eq!((allocator.total_allocs, allocator.total_frees), counters);
    assert_eq!(page_cache.free_slots(), slots);
    page_cache.end_transaction(transaction);
}

#[test]
fn test_btree_delete_all() {
    // I've empirically verified this is large enough that there is a layer of internal
    // nodes. That's important to catch edge cases.
    const TEST_ENTRIES: usize = 2048;

    let (mut page_cache, mut allocator, tree) = populate_test_btree(TEST_ENTRIES);
    let mut delete_seq: Vec<usize> = (0..TEST_ENTRIES).collect();
    delete_seq.shuffle(&mut SmallRng::seed_from_u64(0xc0fc47a65d406179));

    for i in delete_seq {
        let transaction = page_cache.begin_transaction();
        tree.delete(&gen_key_for_index(i), &mut page_cache, &mut allocator);
        page_cache.end_transaction(transaction);
    }

    validate_btree(&tree, &mut page_cache);

    let mut cursor = tree.iterate(false, &mut page_cache);
    assert_eq!(cursor.next(&mut page_cache), None);

    // Ensure we've reclaimed storage
    assert!(allocator.total_allocs - allocator.total_frees < 2);
}

#[test]
fn test_iterate_empty() {
    let (mut page_cache, _allocator, tree) = create_test_btree();
    let mut cursor = tree.iterate(false, &mut page_cache);
    assert_eq!(cursor.next(&mut page_cache), None);
}

#[test]
fn test_reverse_iterate_empty() {
    let (mut page_cache, _allocator, tree) = create_test_btree();
    let mut cursor = tree.iterate(true, &mut page_cache);
    assert_eq!(cursor.next(&mut page_cache), None);
}

#[test]
fn test_print_btree() {
    let (mut page_cache, _alloc, tree) = populate_test_btree(256);
    for line in tree.print(&mut page_cache) {
        println!("{}", line);
    }
}

#[test]
fn test_print_lines() {
    let (mut page_cache, mut allocator, tree) = create_test_btree();
    let transaction = page_cache.begin_transaction();
    tree.insert(b"az", &[0x0f, 0xa0], &mut page_cache, &mut allocator);
    tree.insert(&[1u8; 20], &[], &mut page_cache, &mut allocator);
    page_cache.end_transaction(transaction);
    assert_eq!(
        tree.print(&mut page_cache),
        vec![
            "Node page_num PageNum(12) is_leaf true prev_sib None next_sib None right_child None",
            "0. 01010101010101010101010101010101 value ",
            "1. 617a value 0fa0",
        ]
    );

    let (mut page_cache, tree) = build_tree(true, true, Some(b"abacus"), Some(b"cencus"));
    assert_eq!(
        tree.print(&mut page_cache),
        vec![
            "Node page_num PageNum(12) is_leaf false prev_sib None next_sib None right_child Some(PageNum(14))",
            "0. 62616e616e61 child page PageNum(13)",
            "Node page_num PageNum(13) is_leaf true prev_sib None next_sib Some(PageNum(14)) right_child None",
            "0. 616261637573 value 666f6f",
            "Node page_num PageNum(14) is_leaf true prev_sib Some(PageNum(13)) next_sib None right_child None",
            "0. 63656e637573 value 666f6f",
        ]
    );
    assert_eq!(to_hex_string(&[0, 0x1f, 0xff], 2), "001f");
}

// The Oracle is a parallel data structure that tracks the expected
// btree state based on random operations below.
struct Oracle {
    entries: Vec<(Vec<u8>, Vec<u8>)>,
}

impl Oracle {
    fn add(&mut self, key: &[u8], value: &[u8]) {
        let kv = (key.to_vec(), value.to_vec());
        let pos = match self.entries.binary_search(&kv) {
            Ok(pos) | Err(pos) => pos,
        };

        self.entries.insert(pos, kv);
    }

    fn validate(&self, mut cursor: BTreeCursor, page_cache: &mut Cache) {
        let mut db_entries: Vec<(Vec<u8>, Vec<u8>)> = Vec::new();
        while let Some(entry) = cursor.next(page_cache) {
            db_entries.push(entry);
        }
        db_entries.sort();

        assert_eq!(db_entries.len(), self.entries.len());
        assert_eq!(db_entries, self.entries);
    }
}

fn random_value(rng: &mut impl RngExt) -> Vec<u8> {
    let len = rng.random_range(8..MAX_RECORD_SIZE / 2);
    (0..len).map(|_| rng.random()).collect()
}

#[test]
fn test_btree_stress() {
    let mut rng = SmallRng::seed_from_u64(0x12345);
    let mut oracle = Oracle { entries: Vec::new() };
    let (mut page_cache, mut allocator, tree) = create_test_btree();

    let total_reps = 3000;
    let min_psub: f64 = 0.3;
    for rep in 0..total_reps {
        let p_add: f64 = min_psub + (1.0 - min_psub) * (1.0 - (rep as f64 / total_reps as f64));
        if rng.random::<f64>() > p_add {
            // Delete entry
            if !oracle.entries.is_empty() {
                let i = rng.random_range(0..oracle.entries.len());
                let entry = &oracle.entries[i];
                let transaction = page_cache.begin_transaction();
                tree.delete(&entry.0, &mut page_cache, &mut allocator);
                page_cache.end_transaction(transaction);
                oracle.entries.remove(i);
            }
        } else {
            // Insert entry
            let key = random_value(&mut rng);
            let value = random_value(&mut rng);

            oracle.add(&key, &value);
            let transaction = page_cache.begin_transaction();
            tree.insert(&key, &value, &mut page_cache, &mut allocator);
            page_cache.end_transaction(transaction);
        }

        if oracle.entries.len() > 0 {
            let cursor = tree.iterate(false, &mut page_cache);
            oracle.validate(cursor, &mut page_cache);
        }

        // This is a bit expensive, so do it periodically
        if rep % 100 == 0 {
            validate_btree(&tree, &mut page_cache);
        }
    }

    let cursor = tree.iterate(false, &mut page_cache);
    oracle.validate(cursor, &mut page_cache);
    validate_btree(&tree, &mut page_cache);
}

#[test]
fn test_open() {
    let (mut page_cache, mut allocator, tree) = create_test_btree();
    let root_pnum = tree.get_root_page_id();

    // Insert an entry and then drop the tree, simulating
    // closing and reopening the database.
    let transaction = page_cache.begin_transaction();
    tree.insert(b"abcd", b"efg", &mut page_cache, &mut allocator);
    page_cache.end_transaction(transaction);

    drop(tree);

    let tree = BTree::open(root_pnum);
    let mut cursor = tree.iterate(false, &mut page_cache);
    let Some((key, val)) = cursor.next(&mut page_cache) else { panic!("failed to fetch entry") };
    assert_eq!(key.as_slice(), b"abcd");
    assert_eq!(val.as_slice(), b"efg");
}

// A tree of one node takes a slot for that node only, besides the one of the
// superblock; three if the node is split.
#[test]
fn test_few_slots() {
    let mut page_cache = PageCache::new(2, MockPersistentStore::default());
    let transaction = page_cache.begin_transaction();
    let mut page: PageData = [0; PAGE_SIZE];
    init_superblock(&mut page);
    page_cache.write_page(PageNum::from_u64(SUPERBLOCK_FPID), &page);
    let mut allocator = PageAllocator::new(&mut page_cache);
    let tree = BTree::create(&mut page_cache, &mut allocator);
    assert_eq!(page_cache.free_slots(), 0);
    page_cache.end_transaction(transaction);

    let transaction = page_cache.begin_transaction();
    tree.insert(b"one", b"1", &mut page_cache, &mut allocator);
    assert_eq!(page_cache.free_slots(), 1);
    page_cache.end_transaction(transaction);
    let transaction = page_cache.begin_transaction();
    tree.delete(b"one", &mut page_cache, &mut allocator);
    assert_eq!(page_cache.free_slots(), 1);
    page_cache.end_transaction(transaction);
    assert_eq!((allocator.total_allocs, allocator.total_frees), (1, 0));

    let mut page_cache = PageCache::new(4, MockPersistentStore::default());
    let transaction = page_cache.begin_transaction();
    page_cache.write_page(PageNum::from_u64(SUPERBLOCK_FPID), &page);
    let mut allocator = PageAllocator::new(&mut page_cache);
    let tree = BTree::create(&mut page_cache, &mut allocator);
    for i in 0..5usize {
        tree.insert(&i.to_be_bytes(), &[7u8; 1900], &mut page_cache, &mut allocator);
    }
    assert_eq!(page_cache.free_slots(), 0);
    assert_eq!(allocator.total_allocs, 3);
    page_cache.end_transaction(transaction);
}

// Without a new page the superblock is left alone and needs no slot.
#[test]
fn test_one_slot() {
    let store = MockPersistentStore::default();
    let mut page_cache = PageCache::new(2, store.clone());
    let transaction = page_cache.begin_transaction();
    let mut page: PageData = [0; PAGE_SIZE];
    init_superblock(&mut page);
    page_cache.write_page(PageNum::from_u64(SUPERBLOCK_FPID), &page);
    let mut allocator = PageAllocator::new(&mut page_cache);
    let root = BTree::create(&mut page_cache, &mut allocator).get_root_page_id();
    page_cache.end_transaction(transaction);

    let mut page_cache = PageCache::new(1, store);
    let mut allocator = PageAllocator::new(&mut page_cache);
    let tree = BTree::open(root);
    for i in 0..5u8 {
        let transaction = page_cache.begin_transaction();
        tree.insert(&[i + 1], b"value", &mut page_cache, &mut allocator);
        assert_eq!(page_cache.free_slots(), 0);
        page_cache.end_transaction(transaction);
    }
    let transaction = page_cache.begin_transaction();
    tree.delete(&[3], &mut page_cache, &mut allocator);
    page_cache.end_transaction(transaction);
    let mut keys: Vec<Vec<u8>> = Vec::new();
    let mut cursor: BTreeCursor = tree.iterate(false, &mut page_cache);
    while let Some((key, _)) = cursor.next(&mut page_cache) {
        keys.push(key);
    }
    assert_eq!(keys, vec![vec![1u8], vec![2], vec![4], vec![5]]);
}
