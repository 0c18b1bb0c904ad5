//! Block 0, the first block in the filesystem, has key information and links
//! out to other file system structures. As such, many other places in the code
//! access it.

use vstd::prelude::*;

use crate::page_cache::{PageData, INVALID_PAGE, LOG_PAGES, PAGE_SIZE};
use crate::util::{copy_into, get_u64, le64, le64_bytes, lemma_le64_frame, set_u64};

verus! {

/// The letters `RUSTDB00`.
pub const SUPERBLOCK_MAGIC: [u8; 8] = [0x52, 0x55, 0x53, 0x54, 0x44, 0x42, 0x30, 0x30];

pub const SUPERBLOCK_FPID: u64 = 0;

pub const FREE_LIST_HEAD_OFFS: usize = 8;

pub const FILE_SIZE_OFFS: usize = 16;

#[derive(Copy, Clone)]
pub struct Superblock {
    pub magic: [u8; 8],
    pub free_list_head: u64,
    pub file_size: u64,
}

/// The superblock in the bytes of a page.
pub open spec fn superblock_magic(page: Seq<u8>) -> Seq<u8> {
    page.subrange(0, 8)
}

pub open spec fn superblock_free_list_head(page: Seq<u8>) -> int {
    le64(page, FREE_LIST_HEAD_OFFS as int)
}

pub open spec fn superblock_file_size(page: Seq<u8>) -> int {
    le64(page, FILE_SIZE_OFFS as int)
}

/// Makes the page the superblock of a file with no free page.
pub fn init_superblock(page: &mut PageData)
    ensures
        superblock_magic(final(page)@) == SUPERBLOCK_MAGIC@,
        superblock_free_list_head(final(page)@) == INVALID_PAGE,
        superblock_file_size(final(page)@) == LOG_PAGES + 2,
        final(page)@.subrange(24, PAGE_SIZE as int) == old(page)@.subrange(24, PAGE_SIZE as int),
{
    let magic = SUPERBLOCK_MAGIC;
    set_superblock(
        page,
        &Superblock { magic, free_list_head: INVALID_PAGE, file_size: LOG_PAGES as u64 + 2 },
    );
}

/// The page is a superblock if it starts with the right letters.
pub fn check_superblock(page: &PageData) -> (result: Result<(), String>)
    ensures
        match result {
            Ok(()) => superblock_magic(page@) == SUPERBLOCK_MAGIC@,
            Err(message) => superblock_magic(page@) != SUPERBLOCK_MAGIC@ && message@ == "Bad Magic"@,
        },
{
    let magic = SUPERBLOCK_MAGIC;
    let mut i: usize = 0;
    while i < 8
        invariant
            i <= 8,
            magic == SUPERBLOCK_MAGIC,
            forall|j: int| 0 <= j < i ==> page@[j] == magic@[j],
        decreases 8 - i,
    {
        if page[i] != magic[i] {
            assert(superblock_magic(page@)[i as int] == page@[i as int]);
            return Err("Bad Magic".to_string());
        }
        i = i + 1;
    }
    assert(superblock_magic(page@) =~= SUPERBLOCK_MAGIC@);
    Ok(())
}

pub fn get_superblock(page: &PageData) -> (block: Superblock)
    ensures
        block.magic@ == superblock_magic(page@),
        block.free_list_head == superblock_free_list_head(page@),
        block.file_size == superblock_file_size(page@),
{
    let mut magic: [u8; 8] = [0;8];
    copy_into(&mut magic, 0, vstd::slice::slice_subrange(page, 0, 8));
    assert(magic@ =~= superblock_magic(page@));
    Superblock {
        magic,
        free_list_head: get_u64(page, FREE_LIST_HEAD_OFFS),
        file_size: get_u64(page, FILE_SIZE_OFFS),
    }
}

/// Replaces the superblock in the bytes of a page.
pub fn set_superblock(page: &mut PageData, block: &Superblock)
    ensures
        superblock_magic(final(page)@) == block.magic@,
        superblock_free_list_head(final(page)@) == block.free_list_head,
        superblock_file_size(final(page)@) == block.file_size,
        final(page)@.subrange(24, PAGE_SIZE as int) == old(page)@.subrange(24, PAGE_SIZE as int),
{
    let ghost p0 = page@;
    copy_into(page, 0, &block.magic);
    let ghost p1 = page@;
    set_u64(page, FREE_LIST_HEAD_OFFS, block.free_list_head);
    let ghost p2 = page@;
    set_u64(page, FILE_SIZE_OFFS, block.file_size);
    proof {
        lemma_le64_frame(p2, 16, le64_bytes(block.file_size), 8);
        assert(superblock_magic(page@) =~= block.magic@);
        assert(page@.subrange(24, PAGE_SIZE as int) =~= p0.subrange(24, PAGE_SIZE as int));
    }
}

/// The superblock starts with the letters `RUSTDB00`, and holds the head of the free list and
/// the size of the file behind them.
pub proof fn law_layout_of_the_superblock(page: Seq<u8>)
    requires
        page.len() == PAGE_SIZE,
    ensures
        SUPERBLOCK_MAGIC@ == seq![
            'R' as u8,
            'U' as u8,
            'S' as u8,
            'T' as u8,
            'D' as u8,
            'B' as u8,
            '0' as u8,
            '0' as u8,
        ],
        superblock_magic(page) == page.take(8),
        superblock_free_list_head(page) == le64(page.subrange(8, 16), 0),
        superblock_file_size(page) == le64(page.subrange(16, 24), 0),
{
    assert(superblock_magic(page) =~= page.take(8));
    let letters = seq![
        'R' as u8,
        'U' as u8,
        'S' as u8,
        'T' as u8,
        'D' as u8,
        'B' as u8,
        '0' as u8,
        '0' as u8,
    ];
    assert(SUPERBLOCK_MAGIC@ =~= letters);
}

} // verus!
