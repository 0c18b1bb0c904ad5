use rustdb::page_cache::{PageData, PAGE_SIZE};
use rustdb::superblock::{check_superblock, get_superblock, init_superblock};
use rustdb::util::{
    checksum, get_u16, get_u32, get_u64, set_u16, set_u32, set_u64, wrapping_gtr, IndexQueue,
};

#[test]
fn test_get_value() {
    let value_array: &[u8] = &[1, 2, 3, 4, 5, 6, 7, 8, 9, 10];
    assert_eq!(get_u16(value_array, 1), 0x0302);
    assert_eq!(get_u32(value_array, 2), 0x06050403);
    assert_eq!(get_u64(value_array, 1), 0x0908070605040302);
}

#[test]
fn test_set_value() {
    let value_array: &mut [u8] = &mut [0; 16];
    set_u16(value_array, 1, 0x1234);
    assert_eq!(value_array[1], 0x34);
    assert_eq!(value_array[2], 0x12);

    set_u32(value_array, 1, 0x12345678);
    assert_eq!(value_array[1], 0x78);
    assert_eq!(value_array[2], 0x56);
    assert_eq!(value_array[3], 0x34);
    assert_eq!(value_array[4], 0x12);

    set_u64(value_array, 1, 0x12345678abcdef52);
    assert_eq!(value_array[1], 0x52);
    assert_eq!(value_array[2], 0xef);
    assert_eq!(value_array[3], 0xcd);
    assert_eq!(value_array[4], 0xab);
    assert_eq!(value_array[5], 0x78);
    assert_eq!(value_array[6], 0x56);
    assert_eq!(value_array[7], 0x34);
    assert_eq!(value_array[8], 0x12);
}

/// All indices in a queue, from its head.
fn elements(queue: &IndexQueue) -> Vec<usize> {
    let mut found = Vec::new();
    let mut iterator = queue.iter();
    while let Some(index) = iterator.next() {
        assert!(!found.contains(&index), "Cycle in next pointers");
        found.push(index);
    }
    assert_eq!(queue.empty(), found.is_empty());
    found
}

#[test]
fn test_lru_remove_empty() {
    let mut queue = IndexQueue::new(10);
    assert_eq!(elements(&queue), Vec::<usize>::new());
    assert_eq!(queue.pop_tail(), None);
}

#[test]
fn test_lru_evict_one() {
    let mut queue = IndexQueue::new(10);
    queue.push_head(1);
    assert_eq!(elements(&queue), vec![1]);
    assert_eq!(queue.pop_tail(), Some(1));
    assert_eq!(queue.pop_tail(), None);
}

#[test]
fn test_lru_evict_many() {
    let mut queue = IndexQueue::new(10);
    queue.push_head(1);
    queue.push_head(2);
    queue.push_head(3);
    queue.push_head(4);
    assert_eq!(elements(&queue), vec![4, 3, 2, 1]);
    assert_eq!(queue.pop_tail(), Some(1));
    assert_eq!(elements(&queue), vec![4, 3, 2]);
    assert_eq!(queue.pop_tail(), Some(2));
    assert_eq!(elements(&queue), vec![4, 3]);
    assert_eq!(queue.pop_tail(), Some(3));
    assert_eq!(elements(&queue), vec![4]);
    assert_eq!(queue.pop_tail(), Some(4));
    assert_eq!(elements(&queue), Vec::<usize>::new());
    assert_eq!(queue.pop_tail(), None);
    assert_eq!(elements(&queue), Vec::<usize>::new());
}

#[test]
fn test_lru_insert_remove() {
    let mut queue = IndexQueue::new(10);
    queue.push_head(1);
    queue.push_head(2);
    queue.push_head(3);
    queue.remove(2);
    assert_eq!(elements(&queue), vec![3, 1]);
    assert_eq!(queue.pop_tail(), Some(1));
    assert_eq!(queue.pop_tail(), Some(3));
    assert_eq!(elements(&queue), Vec::<usize>::new());
}

// Regression test
#[test]
fn test_lru_remove_head() {
    let mut queue = IndexQueue::new(10);
    queue.push_head(1);
    assert_eq!(elements(&queue), vec![1]);
    queue.push_head(2);
    assert_eq!(elements(&queue), vec![2, 1]);
    queue.remove(2);
    assert_eq!(elements(&queue), vec![1]);
    assert_eq!(queue.pop_tail(), Some(1));
    assert_eq!(elements(&queue), Vec::<usize>::new());
    assert_eq!(queue.pop_tail(), None);
    assert_eq!(elements(&queue), Vec::<usize>::new());
}

#[test]
fn test_iterator() {
    let mut queue = IndexQueue::new(10);
    for i in 0..10 {
        queue.push_head(i);
    }

    let mut expect_index = 10;
    let mut iterator = queue.iter();
    while let Some(element) = iterator.next() {
        expect_index -= 1;
        assert_eq!(expect_index, element);
    }
    assert_eq!(expect_index, 0);
}

#[test]
fn test_bad_magic() {
    let page: PageData = [0; PAGE_SIZE];
    assert_eq!(check_superblock(&page), Err("Bad Magic".to_string()));
}

#[test]
fn test_good_magic() {
    let mut page: PageData = [0; PAGE_SIZE];
    init_superblock(&mut page);
    assert_eq!(check_superblock(&page), Ok(()));
}

#[test]
fn test_initial_superblock() {
    let mut page: PageData = [0xaa; PAGE_SIZE];
    init_superblock(&mut page);
    let superblock = get_superblock(&page);
    assert_eq!(&superblock.magic, b"RUSTDB00");
    assert_eq!(superblock.free_list_head, u64::MAX);
    assert_eq!(superblock.file_size, 12);
    assert_eq!(page[24], 0xaa);
}

#[test]
fn test_checksum_values() {
    assert_eq!(checksum(b""), 1);
    assert_eq!(checksum(b"a"), 0x0062_0062);
    assert_eq!(checksum(b"Wikipedia"), 0x11e6_0398);
}

#[test]
fn test_wrapping_order() {
    assert!(wrapping_gtr(2, 1));
    assert!(!wrapping_gtr(1, 2));
    assert!(!wrapping_gtr(1, 1));
    assert!(wrapping_gtr(0, u32::MAX));
    assert!(!wrapping_gtr(u32::MAX, 0));
}
