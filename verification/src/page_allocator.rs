//! Hands out pages of the file. There are two places to get pages: virgin
//! pages can be carved off the end of the file (the frontier), and previously
//! freed pages are kept in an on-disk linked list.

use vstd::prelude::*;

use crate::page_cache::{
    encode_page_num, lockable, page_num_view, CacheState, PageCache, PageNum, PageNumOptionExt,
    PersistentStore, INVALID_PAGE, LOG_PAGES,
};
use crate::slots::{fresh_slots, lemma_fresh_slots};
use crate::superblock::{
    get_superblock, set_superblock, superblock_file_size, superblock_free_list_head, Superblock,
    SUPERBLOCK_FPID,
};
use crate::util::{get_u64, le64, set_u64};

verus! {

/// The first page that is neither the superblock, nor part of the log, nor the
/// root of the database.
pub const FIRST_FREE_PAGE: u64 = 12;

/// The pages of the file that are not in use.
#[verifier::ext_equal]
pub struct FreePages {
    /// The freed pages, the last freed first.
    pub list: Seq<u64>,
    /// No page from here on was ever used.
    pub frontier: u64,
}

impl FreePages {
    /// The page lies behind the log and is not free.
    pub open spec fn in_use(self, num: u64) -> bool {
        LOG_PAGES < num < self.frontier && !self.list.contains(num)
    }

    /// How many pages are in use.
    pub open spec fn used(self) -> int {
        self.frontier - LOG_PAGES - 1 - self.list.len()
    }

    /// The page that is handed out next.
    pub open spec fn next(self) -> u64 {
        if self.list.len() > 0 {
            self.list[0]
        } else {
            self.frontier
        }
    }

    pub open spec fn taken(self) -> FreePages {
        if self.list.len() > 0 {
            FreePages { list: self.list.skip(1), ..self }
        } else {
            FreePages { frontier: (self.frontier + 1) as u64, ..self }
        }
    }

    pub open spec fn given_back(self, num: u64) -> FreePages {
        FreePages { list: seq![num] + self.list, ..self }
    }

    /// The freed pages are different pages below the frontier.
    pub open spec fn wf(self) -> bool {
        &&& self.list.no_duplicates()
        &&& forall|i: int|
            0 <= i < self.list.len() ==> FIRST_FREE_PAGE <= #[trigger] self.list[i] < self.frontier
        &&& FIRST_FREE_PAGE <= self.frontier < INVALID_PAGE
    }

    /// What follows position `i` of the list.
    pub open spec fn after(self, i: int) -> Option<u64> {
        if i + 1 < self.list.len() {
            Some(self.list[i + 1])
        } else {
            None
        }
    }

    /// Each page of the linked list names the next one.
    pub open spec fn stored_list(self, pages: Map<u64, Seq<u8>>) -> bool {
        forall|i: int|
            0 <= i < self.list.len() ==> le64(#[trigger] pages[self.list[i]], 0)
                == encode_page_num(self.after(i))
    }

    /// The linked list and the superblock on disk say the same.
    pub open spec fn stored(self, pages: Map<u64, Seq<u8>>) -> bool {
        &&& superblock_free_list_head(pages[SUPERBLOCK_FPID]) == encode_page_num(self.after(-1))
        &&& superblock_file_size(pages[SUPERBLOCK_FPID]) == self.frontier
        &&& self.stored_list(pages)
    }

    /// A page that is handed out was not in use before, is in use after, and
    /// changes nothing about any other page.
    pub proof fn lemma_alloc(self)
        requires
            self.wf(),
            self.frontier + 1 < INVALID_PAGE,
        ensures
            self.taken().wf(),
            !self.in_use(self.next()),
            self.next() >= FIRST_FREE_PAGE,
            lockable(self.next()),
            forall|q: u64| #[trigger] self.taken().in_use(q) <==> self.in_use(q) || q == self.next(),
    {
        let after = self.taken();
        if self.list.len() > 0 {
            assert(self.list.contains(self.list[0]));
            assert forall|q: u64| #[trigger] after.list.contains(q) <==> self.list.contains(q) && q
                != self.list[0] by {
                if self.list.contains(q) && q != self.list[0] {
                    let i = self.list.index_of(q);
                    assert(after.list[i - 1] == q);
                }
                if after.list.contains(q) {
                    let i = after.list.index_of(q);
                    assert(self.list[i + 1] == q);
                }
            }
        } else {
            assert(!self.list.contains(self.frontier));
        }
    }

    /// A page that is given back is no longer in use, and nothing changes
    /// about any other page.
    pub proof fn lemma_free(self, num: u64)
        requires
            self.wf(),
            self.in_use(num),
            num >= FIRST_FREE_PAGE,
        ensures
            self.given_back(num).wf(),
            forall|q: u64| #[trigger] self.given_back(num).in_use(q) <==> self.in_use(q) && q != num,
    {
        let after = self.given_back(num);
        assert(after.list[0] == num);
        assert forall|q: u64| #[trigger] after.list.contains(q) <==> self.list.contains(q) || q
            == num by {
            if self.list.contains(q) {
                assert(after.list[self.list.index_of(q) + 1] == q);
            }
            if after.list.contains(q) {
                let i = after.list.index_of(q);
                if i > 0 {
                    assert(self.list[i - 1] == q);
                }
            }
        }
    }

    /// The free pages after `n` were handed out.
    pub open spec fn taken_many(self, n: nat) -> FreePages
        decreases n,
    {
        if n == 0 {
            self
        } else {
            self.taken_many((n - 1) as nat).taken()
        }
    }

    pub proof fn lemma_taken_many(self, a: nat, b: nat)
        ensures
            self.taken_many(a).taken_many(b) == self.taken_many(a + b),
            self.taken_many(1) == self.taken(),
        decreases b,
    {
        reveal_with_fuel(FreePages::taken_many, 2);
        if b > 0 {
            self.lemma_taken_many(a, (b - 1) as nat);
        }
    }

    /// What any row of steps makes of the free pages.
    pub open spec fn after_all(self, steps: Seq<PageStep>) -> FreePages
        decreases steps.len(),
    {
        if steps.len() == 0 {
            self
        } else {
            let before = self.after_all(steps.drop_last());
            match steps.last() {
                PageStep::HandOut => before.taken(),
                PageStep::GiveBack { page } => before.given_back(page),
            }
        }
    }

    /// Only pages in use are given back, and the page numbers do not run out.
    pub open spec fn allows(self, steps: Seq<PageStep>) -> bool
        decreases steps.len(),
    {
        steps.len() > 0 ==> {
            let before = self.after_all(steps.drop_last());
            &&& self.allows(steps.drop_last())
            &&& match steps.last() {
                PageStep::HandOut => before.frontier + 1 < INVALID_PAGE,
                PageStep::GiveBack { page } => before.in_use(page) && page >= FIRST_FREE_PAGE,
            }
        }
    }

    /// In a new file, whatever was handed out and given back before, the page
    /// that is handed out next is the one given back last among those still free,
    /// or the one at the frontier. It lies behind the root of the database and
    /// is not in use, and it makes one more page in use.
    pub proof fn law_never_a_page_in_use(steps: Seq<PageStep>)
        requires
            new_file().allows(steps),
            new_file().after_all(steps).frontier + 1 < INVALID_PAGE,
        ensures
            ({
                let free = new_file().after_all(steps);
                &&& free.wf()
                &&& free.next() == if free.list.len() > 0 {
                    free.list[0]
                } else {
                    free.frontier
                }
                &&& free.next() >= FIRST_FREE_PAGE
                &&& !free.in_use(free.next())
                &&& free.taken().in_use(free.next())
                &&& free.taken().used() == free.used() + 1
            }),
    {
        Self::lemma_any_steps(steps);
        new_file().after_all(steps).lemma_alloc();
    }

    proof fn lemma_any_steps(steps: Seq<PageStep>)
        requires
            new_file().allows(steps),
        ensures
            new_file().after_all(steps).wf(),
        decreases steps.len(),
    {
        if steps.len() > 0 {
            Self::lemma_any_steps(steps.drop_last());
            let before = new_file().after_all(steps.drop_last());
            match steps.last() {
                PageStep::HandOut => before.lemma_alloc(),
                PageStep::GiveBack { page } => before.lemma_free(page),
            }
        }
    }

    /// A page that was given back is the next to be handed out.
    pub proof fn law_alloc_after_free(self, num: u64)
        ensures
            self.given_back(num).next() == num,
            self.given_back(num).taken() == self,
    {
        assert(self.given_back(num).list.skip(1) =~= self.list);
    }
}

/// One page handed out or given back.
pub enum PageStep {
    HandOut,
    GiveBack { page: u64 },
}

/// The free pages of a new file.
pub open spec fn new_file() -> FreePages {
    FreePages { list: Seq::empty(), frontier: FIRST_FREE_PAGE }
}

/// The free slots of the cache without the one that the superblock takes once
/// it is changed.
pub open spec fn room(cache: CacheState) -> int {
    if cache.idle(SUPERBLOCK_FPID) {
        cache.available - 1
    } else {
        cache.available as int
    }
}

/// The free slots of the cache for a change that hands out or takes back `n` pages:
/// the superblock takes one only if there are any.
pub open spec fn spare(cache: CacheState, n: nat) -> int {
    if n > 0 {
        room(cache)
    } else {
        cache.available as int
    }
}

/// Where the next pages come from.
pub struct PageSource {
    next_frontier: PageNum,
    free_list_head: Option<PageNum>,
    free_list: Ghost<Seq<u64>>,
}

pub struct PageAllocator {
    pub source: PageSource,
    pub total_allocs: usize,
    pub total_frees: usize,
}

impl View for PageAllocator {
    type V = FreePages;

    closed spec fn view(&self) -> FreePages {
        FreePages { list: self.source.free_list@, frontier: self.source.next_frontier@ }
    }
}

impl PageAllocator {
    /// The allocator agrees with what is stored in `pages`.
    pub closed spec fn inv(&self, pages: Map<u64, Seq<u8>>) -> bool {
        &&& self@.wf()
        &&& self@.stored(pages)
        &&& page_num_view(self.source.free_list_head) == self@.after(-1)
    }

    /// An allocator is an allocator for any pages with the same list.
    pub proof fn lemma_inv(&self, pages: Map<u64, Seq<u8>>, other: Map<u64, Seq<u8>>)
        requires
            self.inv(pages),
            other[SUPERBLOCK_FPID] == pages[SUPERBLOCK_FPID],
            forall|q: u64| #[trigger] self@.list.contains(q) ==> other[q] == pages[q],
        ensures
            self.inv(other),
    {
        assert forall|i: int| 0 <= i < self@.list.len() implies le64(
            #[trigger] other[self@.list[i]],
            0,
        ) == encode_page_num(self@.after(i)) by {
            assert(self@.list.contains(self@.list[i]));
            assert(other[self@.list[i]] == pages[self@.list[i]]);
        }
    }

    pub proof fn lemma_wf(&self, pages: Map<u64, Seq<u8>>)
        requires
            self.inv(pages),
        ensures
            self@.wf(),
            self@.stored(pages),
    {
    }

    /// An allocator that is made anew from the same pages hands out the same pages.
    pub proof fn law_persistent(&self, pages: Map<u64, Seq<u8>>)
        requires
            self.inv(pages),
        ensures
            stored_free_pages(pages) == self@,
    {
        let free = stored_free_pages(pages);
        assert(free.wf() && free.stored(pages));
        lemma_stored_unique(free, self@, pages);
    }

    /// How often a page was handed out.
    pub open spec fn allocs(&self) -> nat {
        self.total_allocs as nat
    }

    /// How often a page was given back.
    pub open spec fn frees(&self) -> nat {
        self.total_frees as nat
    }

    /// How many pages were handed out and not given back, beyond those in use.
    pub open spec fn balance(&self) -> int {
        self.allocs() - self.frees() - self@.used()
    }

    /// Reads the state of the file from the superblock.
    pub fn new<S: PersistentStore>(
        page_cache: &mut PageCache<S>,
    ) -> (allocator: Self)
        requires
            old(page_cache).inv(),
            old(page_cache)@.can_lock(SUPERBLOCK_FPID),
            exists|free: FreePages| free.wf() && #[trigger] free.stored(old(page_cache)@.pages),
        ensures
            final(page_cache).inv(),
            final(page_cache)@.same_but_order(old(page_cache)@),
            allocator.inv(old(page_cache)@.pages),
            allocator@ == stored_free_pages(old(page_cache)@.pages),
            allocator.allocs() == 0,
            allocator.frees() == 0,
            forall|page: u64, at: nat| #[trigger]
                old(page_cache).holds(page, at) ==> final(page_cache).holds(page, at),
    {
        let page = page_cache.read_page(PageNum::from_u64(SUPERBLOCK_FPID));
        let superblock = get_superblock(&page);
        let ghost free = stored_free_pages(old(page_cache)@.pages);
        PageAllocator {
            source: PageSource {
                next_frontier: PageNum::from_u64(superblock.file_size),
                free_list_head: PageNum::from_encoded(superblock.free_list_head),
                free_list: Ghost(free.list),
            },
            total_allocs: 0,
            total_frees: 0,
        }
    }

    /// The page that is handed out next.
    pub fn next_page(&self) -> (num: PageNum)
        ensures
            forall|pages: Map<u64, Seq<u8>>| #[trigger] self.inv(pages) ==> num@ == self@.next(),
    {
        match self.source.free_list_head {
            Some(num) => num,
            None => self.source.next_frontier,
        }
    }

    /// Whether `n` more pages can be handed out.
    pub fn has_pages(&self, n: u128) -> (result: bool)
        ensures
            result == (self@.frontier + n < INVALID_PAGE && self.allocs() + n <= usize::MAX),
    {
        let frontier: u64 = self.source.next_frontier.as_u64();
        n < (INVALID_PAGE as u128) && frontier as u128 + n < INVALID_PAGE as u128 && n
            <= (usize::MAX - self.total_allocs) as u128
    }

    /// Whether `n` more pages can be given back.
    pub fn takes_back(&self, n: u128) -> (result: bool)
        ensures
            result == (self.frees() + n <= usize::MAX),
    {
        n <= (usize::MAX - self.total_frees) as u128
    }

    /// How many slots the next `n` pages take, or more than `limit` if they take more.
    pub(crate) fn count_fresh<S: PersistentStore>(
        &self,
        n: u128,
        limit: usize,
        page_cache: &mut PageCache<S>,
    ) -> (count: u128)
        requires
            old(page_cache).inv(),
            old(page_cache)@.unsaturated(),
            self.inv(old(page_cache)@.pages),
            limit <= old(page_cache)@.available,
            self@.frontier + n < INVALID_PAGE,
        ensures
            final(page_cache).inv(),
            final(page_cache)@.same_but_order(old(page_cache)@),
            count <= limit + 1,
            ({
                let need = fresh_slots(old(page_cache)@, self@, n as nat);
                count == need || (limit < count <= need)
            }),
    {
        let ghost cache = page_cache@;
        let ghost mut free = self@;
        let mut head = self.source.free_list_head;
        let mut frontier = self.source.next_frontier;
        let mut count: u128 = 0;
        let mut i: u128 = 0;
        while i < n
            invariant
                i <= n,
                page_cache.inv(),
                page_cache@.same_but_order(cache),
                cache == old(page_cache)@,
                cache.unsaturated(),
                limit <= cache.available,
                self.inv(cache.pages),
                self@.frontier + n < INVALID_PAGE,
                free == self@.taken_many(i as nat),
                free.wf(),
                free.stored_list(cache.pages),
                free.frontier <= self@.frontier + i,
                frontier@ == free.frontier,
                page_num_view(head) == free.after(-1),
                count == fresh_slots(cache, self@, i as nat),
                count <= limit,
            decreases n - i,
        {
            proof {
                free.lemma_alloc();
                lemma_fresh_slots(cache, self@, (i + 1) as nat, (n - i - 1) as nat);
            }
            let page_num = match head {
                Some(page_num) => page_num,
                None => frontier,
            };
            assert(page_num@ == free.next());
            if page_cache.is_idle(page_num) {
                count = count + 1;
                if count > limit as u128 {
                    return count;
                }
            }
            assert(cache.refs[page_num@] < u32::MAX);
            if head.is_some() {
                let page = page_cache.read_page(page_num);
                assert(le64(cache.pages[free.list[0]], 0) == encode_page_num(free.after(0)));
                head = PageNum::from_encoded(get_u64(&page, 0));
            } else {
                frontier = PageNum::from_u64(page_num.as_u64() + 1);
            }
            proof {
                let next = free.taken();
                if free.list.len() > 0 {
                    assert(free.after(0) == next.after(-1));
                    assert forall|j: int| 0 <= j < next.list.len() implies le64(
                        #[trigger] cache.pages[next.list[j]],
                        0,
                    ) == encode_page_num(next.after(j)) by {
                        assert(next.list[j] == free.list[j + 1]);
                        assert(le64(cache.pages[free.list[j + 1]], 0) == encode_page_num(
                            free.after(j + 1),
                        ));
                    }
                }
                free = next;
            }
            i = i + 1;
        }
        count
    }

    /// Hands out a page: the one freed last, or one from the frontier. What the
    /// page holds is left as it is.
    pub fn allocate<S: PersistentStore>(&mut self, page_cache: &mut PageCache<S>) -> (num: PageNum)
        requires
            old(page_cache).inv(),
            old(page_cache)@.in_transaction,
            old(page_cache)@.can_lock(SUPERBLOCK_FPID),
            old(self).inv(old(page_cache)@.pages),
            old(self)@.list.len() > 0 ==> old(page_cache)@.can_lock(old(self)@.list[0]),
            old(self)@.frontier + 1 < INVALID_PAGE,
            old(self).allocs() < usize::MAX,
        ensures
            final(page_cache).inv(),
            final(page_cache)@.same_disk(old(page_cache)@),
            final(page_cache)@.refs == old(page_cache)@.refs,
            final(page_cache)@.dirty == old(page_cache)@.dirty.insert(SUPERBLOCK_FPID),
            room(final(page_cache)@) == room(old(page_cache)@),
            forall|q: u64|
                q != SUPERBLOCK_FPID ==> #[trigger] final(page_cache)@.pages[q] == old(
                    page_cache,
                )@.pages[q],
            num@ == old(self)@.next(),
            final(self).inv(final(page_cache)@.pages),
            final(self)@ == old(self)@.taken(),
            final(self).allocs() == old(self).allocs() + 1,
            final(self).frees() == old(self).frees(),
            final(self).balance() == old(self).balance(),
    {
        let ghost pages = page_cache@.pages;
        let ghost free = self@;
        self.total_allocs = self.total_allocs + 1;
        proof {
            free.lemma_alloc();
        }
        match self.source.free_list_head {
            Some(page_num) => {
                let page = page_cache.read_page(page_num);
                assert(le64(pages[free.list[0]], 0) == encode_page_num(free.after(0)));
                self.source.free_list_head = PageNum::from_encoded(get_u64(&page, 0));
                self.source.free_list = Ghost(self.source.free_list@.skip(1));
                self.store_superblock(page_cache);
                proof {
                    assert(free.after(0) == self@.after(-1));
                    assert forall|i: int| 0 <= i < self@.list.len() implies le64(
                        #[trigger] page_cache@.pages[self@.list[i]],
                        0,
                    ) == encode_page_num(self@.after(i)) by {
                        assert(self@.list[i] == free.list[i + 1]);
                        assert(le64(pages[free.list[i + 1]], 0) == encode_page_num(
                            free.after(i + 1),
                        ));
                    }
                }
                page_num
            },
            None => {
                // Carve off frontier
                let page_num = self.source.next_frontier;
                self.source.next_frontier = PageNum::from_u64(page_num.as_u64() + 1);
                self.store_superblock(page_cache);
                page_num
            },
        }
    }

    /// Brings the superblock up to date.
    fn store_superblock<S: PersistentStore>(&self, page_cache: &mut PageCache<S>)
        requires
            old(page_cache).inv(),
            old(page_cache)@.in_transaction,
            old(page_cache)@.can_lock(SUPERBLOCK_FPID),
        ensures
            final(page_cache).inv(),
            final(page_cache)@.same_disk(old(page_cache)@),
            final(page_cache)@.refs == old(page_cache)@.refs,
            final(page_cache)@.dirty == old(page_cache)@.dirty.insert(SUPERBLOCK_FPID),
            room(final(page_cache)@) == room(old(page_cache)@),
            forall|q: u64|
                q != SUPERBLOCK_FPID ==> #[trigger] final(page_cache)@.pages[q] == old(
                    page_cache,
                )@.pages[q],
            superblock_free_list_head(final(page_cache)@.pages[SUPERBLOCK_FPID])
                == encode_page_num(page_num_view(self.source.free_list_head)),
            superblock_file_size(final(page_cache)@.pages[SUPERBLOCK_FPID]) == self.source.next_frontier@,
    {
        let mut page = page_cache.read_page(PageNum::from_u64(SUPERBLOCK_FPID));
        let superblock = get_superblock(&page);
        set_superblock(
            &mut page,
            &Superblock {
                magic: superblock.magic,
                free_list_head: self.source.free_list_head.to_encoded(),
                file_size: self.source.next_frontier.as_u64(),
            },
        );
        page_cache.write_page(PageNum::from_u64(SUPERBLOCK_FPID), &page);
    }

    /// Gives a page back. It becomes the head of the linked list.
    pub fn free<S: PersistentStore>(&mut self, page_num: PageNum, page_cache: &mut PageCache<S>)
        requires
            old(page_cache).inv(),
            old(page_cache)@.in_transaction,
            old(page_cache)@.refs[SUPERBLOCK_FPID] < u32::MAX,
            old(page_cache)@.refs[page_num@] < u32::MAX,
            old(page_cache)@.idle(page_num@) ==> room(old(page_cache)@) > 0,
            old(page_cache)@.idle(SUPERBLOCK_FPID) ==> room(old(page_cache)@) >= 0,
            old(self).inv(old(page_cache)@.pages),
            old(self)@.in_use(page_num@),
            page_num@ >= FIRST_FREE_PAGE,
            old(self).frees() < usize::MAX,
        ensures
            final(page_cache).inv(),
            final(page_cache)@.same_disk(old(page_cache)@),
            final(page_cache)@.refs == old(page_cache)@.refs,
            final(page_cache)@.dirty == old(page_cache)@.dirty.insert(page_num@).insert(
                SUPERBLOCK_FPID,
            ),
            room(final(page_cache)@) == room(old(page_cache)@) - (if old(page_cache)@.idle(
                page_num@,
            ) {
                1int
            } else {
                0int
            }),
            forall|q: u64|
                q != SUPERBLOCK_FPID && q != page_num@ ==> #[trigger] final(page_cache)@.pages[q]
                    == old(page_cache)@.pages[q],
            final(self).inv(final(page_cache)@.pages),
            final(self)@ == old(self)@.given_back(page_num@),
            final(self).allocs() == old(self).allocs(),
            final(self).frees() == old(self).frees() + 1,
            final(self).balance() == old(self).balance(),
    {
        let ghost pages = page_cache@.pages;
        let ghost free = self@;
        self.total_frees = self.total_frees + 1;
        proof {
            free.lemma_free(page_num@);
        }
        let mut page = page_cache.read_page(page_num);
        set_u64(&mut page, 0, self.source.free_list_head.to_encoded());
        page_cache.write_page(page_num, &page);
        self.source.free_list_head = Some(page_num);
        self.source.free_list = Ghost(free.given_back(page_num@).list);
        self.store_superblock(page_cache);
        proof {
            assert forall|i: int| 0 <= i < self@.list.len() implies le64(
                #[trigger] page_cache@.pages[self@.list[i]],
                0,
            ) == encode_page_num(self@.after(i)) by {
                if i == 0 {
                    assert(self@.list[0] == page_num@);
                    assert(self@.after(0) == free.after(-1));
                } else {
                    assert(self@.list[i] == free.list[i - 1]);
                    assert(free.list.contains(free.list[i - 1]));
                    assert(le64(pages[free.list[i - 1]], 0) == encode_page_num(free.after(i - 1)));
                    assert(self@.after(i) == free.after(i - 1));
                }
            }
        }
    }
}

/// The free pages that the superblock and the linked list in `pages` stand for.
pub open spec fn stored_free_pages(pages: Map<u64, Seq<u8>>) -> FreePages {
    choose|free: FreePages| free.wf() && #[trigger] free.stored(pages)
}

/// What is stored determines the free pages.
pub proof fn lemma_stored_unique(a: FreePages, b: FreePages, pages: Map<u64, Seq<u8>>)
    requires
        a.wf(),
        b.wf(),
        a.stored(pages),
        b.stored(pages),
    ensures
        a == b,
{
    lemma_stored_prefix(a, b, pages, a.list.len() as int);
    lemma_stored_prefix(b, a, pages, b.list.len() as int);
    assert(a.list =~= a.list.take(a.list.len() as int));
    assert(b.list =~= b.list.take(a.list.len() as int));
    assert(a.list =~= b.list);
}

proof fn lemma_stored_prefix(a: FreePages, b: FreePages, pages: Map<u64, Seq<u8>>, n: int)
    requires
        a.wf(),
        b.wf(),
        a.stored(pages),
        b.stored(pages),
        0 <= n <= a.list.len(),
    ensures
        n <= b.list.len(),
        a.list.take(n) =~= b.list.take(n),
    decreases n,
{
    if n > 0 {
        lemma_stored_prefix(a, b, pages, n - 1);
        let i = n - 2;
        if n == 1 {
            assert(a.after(-1) == Some(a.list[0]));
            assert(b.after(-1) == Some(a.list[0]));
        } else {
            assert(a.list[i] == a.list.take(n - 1)[i]);
            assert(b.list[i] == b.list.take(n - 1)[i]);
            assert(le64(pages[a.list[i]], 0) == encode_page_num(a.after(i)));
            assert(le64(pages[b.list[i]], 0) == encode_page_num(b.after(i)));
            assert(a.after(i) == Some(a.list[n - 1]));
            assert(a.list[n - 1] < a.frontier);
            assert(b.after(i) is Some);
        }
        assert(a.list.take(n) =~= a.list.take(n - 1).push(a.list[n - 1]));
        assert(b.list.take(n) =~= b.list.take(n - 1).push(b.list[n - 1]));
    }
}

impl FreePages {
    /// As long as no page is given back, a file hands out page after page from the twelfth on.
    /// Before that only the root of the database is in use.
    pub proof fn law_new_file_hands_out_pages_in_order(n: nat, q: u64)
        requires
            FIRST_FREE_PAGE + n < INVALID_PAGE,
        ensures
            new_file().in_use(q) <==> q == 11,
            new_file().taken_many(n).next() == 12 + n,
            new_file().taken_many(n).list.len() == 0,
            new_file().taken_many(n).in_use(q) <==> 11 <= q < 12 + n,
        decreases n,
    {
        if n > 0 {
            Self::law_new_file_hands_out_pages_in_order((n - 1) as nat, q);
        }
    }

    /// A page that is handed out becomes one in use, a page that is given back no longer is one,
    /// and nothing changes about any other page.
    pub proof fn law_only_that_page_changes_hands(self, num: u64, q: u64)
        requires
            self.wf(),
            self.frontier + 1 < INVALID_PAGE,
            self.in_use(num),
            num >= FIRST_FREE_PAGE,
        ensures
            !self.in_use(self.next()),
            self.taken().in_use(q) <==> self.in_use(q) || q == self.next(),
            self.given_back(num).in_use(q) <==> self.in_use(q) && q != num,
            self.taken().used() == self.used() + 1,
            self.given_back(num).used() == self.used() - 1,
    {
        self.lemma_alloc();
        self.lemma_free(num);
    }
}

} // verus!
