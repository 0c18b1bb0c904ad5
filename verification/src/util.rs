//! Little helpers on byte buffers, and a queue of array indices.

use vstd::prelude::*;

verus! {

/// The buffer `s` with the bytes from `offs` on replaced by `b`.
pub open spec fn overwrite(s: Seq<u8>, offs: int, b: Seq<u8>) -> Seq<u8> {
    Seq::new(s.len(), |i: int| if offs <= i < offs + b.len() { b[i - offs] } else { s[i] })
}

/// The little-endian 16 bit number at `offs`.
pub open spec fn le16(s: Seq<u8>, offs: int) -> int {
    s[offs] + 0x100 * s[offs + 1]
}

/// The little-endian 32 bit number at `offs`.
pub open spec fn le32(s: Seq<u8>, offs: int) -> int {
    s[offs] + 0x100 * s[offs + 1] + 0x1_0000 * s[offs + 2] + 0x100_0000 * s[offs + 3]
}

/// The little-endian 64 bit number at `offs`.
pub open spec fn le64(s: Seq<u8>, offs: int) -> int {
    le32(s, offs) + 0x1_0000_0000 * le32(s, offs + 4)
}

/// The two bytes of `v`, least significant first.
pub open spec fn le16_bytes(v: u16) -> Seq<u8> {
    seq![(v % 0x100) as u8, (v / 0x100) as u8]
}

/// The four bytes of `v`, least significant first.
#[verifier::opaque]
pub open spec fn le32_bytes(v: u32) -> Seq<u8> {
    seq![
        (v % 0x100) as u8,
        (v / 0x100 % 0x100) as u8,
        (v / 0x1_0000 % 0x100) as u8,
        (v / 0x100_0000) as u8,
    ]
}

/// The eight bytes of `v`, least significant first.
#[verifier::opaque]
pub open spec fn le64_bytes(v: u64) -> Seq<u8> {
    seq![
        (v % 0x100) as u8,
        (v / 0x100 % 0x100) as u8,
        (v / 0x1_0000 % 0x100) as u8,
        (v / 0x100_0000 % 0x100) as u8,
        (v / 0x1_0000_0000 % 0x100) as u8,
        (v / 0x100_0000_0000 % 0x100) as u8,
        (v / 0x1_0000_0000_0000 % 0x100) as u8,
        (v / 0x100_0000_0000_0000) as u8,
    ]
}

/// The eight bytes of `v`, most significant first.
pub open spec fn be64_bytes(v: u64) -> Seq<u8> {
    le64_bytes(v).reverse()
}

/// Overwriting other bytes leaves a 32 bit number alone.
pub proof fn lemma_le32_frame(s: Seq<u8>, offs: int, b: Seq<u8>, x: int)
    requires
        0 <= x,
        x + 4 <= s.len(),
        x + 4 <= offs || offs + b.len() <= x,
    ensures
        le32(overwrite(s, offs, b), x) == le32(s, x),
{
}

/// Overwriting other bytes leaves a 16 bit number alone.
pub proof fn lemma_le16_frame(s: Seq<u8>, offs: int, b: Seq<u8>, x: int)
    requires
        0 <= x,
        x + 2 <= s.len(),
        x + 2 <= offs || offs + b.len() <= x,
    ensures
        le16(overwrite(s, offs, b), x) == le16(s, x),
{
}

pub proof fn lemma_le64_frame(s: Seq<u8>, offs: int, b: Seq<u8>, x: int)
    requires
        0 <= x,
        x + 8 <= s.len(),
        x + 8 <= offs || offs + b.len() <= x,
    ensures
        le64(overwrite(s, offs, b), x) == le64(s, x),
{
}

pub proof fn lemma_le16_roundtrip(v: u16)
    ensures
        le16(le16_bytes(v), 0) == v,
{
}

pub proof fn lemma_le32_roundtrip(v: u32)
    ensures
        le32(le32_bytes(v), 0) == v,
        le32_bytes(v).len() == 4,
{
    reveal(le32_bytes);
}

pub proof fn lemma_le64_roundtrip(v: u64)
    ensures
        le64(le64_bytes(v), 0) == v,
        le64_bytes(v).len() == 8,
{
    reveal(le32_bytes);
    reveal(le64_bytes);
    let lo = (v % 0x1_0000_0000) as u32;
    let hi = (v / 0x1_0000_0000) as u32;
    assert(v / 0x100 % 0x100 == lo / 0x100 % 0x100 && v / 0x1_0000 % 0x100 == lo / 0x1_0000 % 0x100
        && v / 0x100_0000 % 0x100 == lo / 0x100_0000 && v % 0x100 == lo % 0x100) by (bit_vector)
        requires
            lo == v % 0x1_0000_0000u64,
    ;
    assert(v / 0x100_0000_0000 % 0x100 == hi / 0x100 % 0x100 && v / 0x1_0000_0000_0000 % 0x100 == hi
        / 0x1_0000 % 0x100 && v / 0x100_0000_0000_0000 == hi / 0x100_0000 && v / 0x1_0000_0000
        % 0x100 == hi % 0x100) by (bit_vector)
        requires
            hi == v / 0x1_0000_0000u64,
    ;
    let b = le64_bytes(v);
    lemma_le32_roundtrip(lo);
    lemma_le32_roundtrip(hi);
    assert(le32(b, 0) == lo);
    assert(le32(b, 4) == hi);
}

pub fn get_u16(slice: &[u8], offs: usize) -> (val: u16)
    requires
        offs + 2 <= slice@.len(),
    ensures
        val == le16(slice@, offs as int),
{
    slice[offs] as u16 + 0x100 * (slice[offs + 1] as u16)
}

pub fn get_u32(slice: &[u8], offs: usize) -> (val: u32)
    requires
        offs + 4 <= slice@.len(),
    ensures
        val == le32(slice@, offs as int),
{
    slice[offs] as u32 + 0x100 * (slice[offs + 1] as u32) + 0x1_0000 * (slice[offs + 2] as u32)
        + 0x100_0000 * (slice[offs + 3] as u32)
}

pub fn get_u64(slice: &[u8], offs: usize) -> (val: u64)
    requires
        offs + 8 <= slice@.len(),
    ensures
        val == le64(slice@, offs as int),
{
    assert(slice@.len() == slice.len());
    get_u32(slice, offs) as u64 + 0x1_0000_0000 * (get_u32(slice, offs + 4) as u64)
}

pub fn set_u16(slice: &mut [u8], offs: usize, val: u16)
    requires
        offs + 2 <= old(slice)@.len(),
    ensures
        final(slice)@ == overwrite(old(slice)@, offs as int, le16_bytes(val)),
        le16(final(slice)@, offs as int) == val,
{
    slice[offs] = (val % 0x100) as u8;
    slice[offs + 1] = (val / 0x100) as u8;
}

pub fn set_u32(slice: &mut [u8], offs: usize, val: u32)
    requires
        offs + 4 <= old(slice)@.len(),
    ensures
        final(slice)@ == overwrite(old(slice)@, offs as int, le32_bytes(val)),
        le32(final(slice)@, offs as int) == val,
        le32_bytes(val).len() == 4,
{
    slice[offs] = (val % 0x100) as u8;
    slice[offs + 1] = (val / 0x100 % 0x100) as u8;
    slice[offs + 2] = (val / 0x1_0000 % 0x100) as u8;
    slice[offs + 3] = (val / 0x100_0000) as u8;
    proof {
        lemma_le32_roundtrip(val);
        reveal(le32_bytes);
        let b = le32_bytes(val);
        assert(slice@ =~= overwrite(old(slice)@, offs as int, b));
        assert(le32(slice@, offs as int) == le32(b, 0));
    }
}

pub fn set_u64(slice: &mut [u8], offs: usize, val: u64)
    requires
        offs + 8 <= old(slice)@.len(),
    ensures
        final(slice)@ == overwrite(old(slice)@, offs as int, le64_bytes(val)),
        le64(final(slice)@, offs as int) == val,
        le64_bytes(val).len() == 8,
{
    slice[offs] = (val % 0x100) as u8;
    slice[offs + 1] = (val / 0x100 % 0x100) as u8;
    slice[offs + 2] = (val / 0x1_0000 % 0x100) as u8;
    slice[offs + 3] = (val / 0x100_0000 % 0x100) as u8;
    slice[offs + 4] = (val / 0x1_0000_0000 % 0x100) as u8;
    slice[offs + 5] = (val / 0x100_0000_0000 % 0x100) as u8;
    slice[offs + 6] = (val / 0x1_0000_0000_0000 % 0x100) as u8;
    slice[offs + 7] = (val / 0x100_0000_0000_0000) as u8;
    proof {
        lemma_le64_roundtrip(val);
        reveal(le64_bytes);
        let b = le64_bytes(val);
        assert(slice@ =~= overwrite(old(slice)@, offs as int, b));
        assert(le32(slice@, offs as int) == le32(b, 0));
        assert(le32(slice@, offs + 4) == le32(b, 4));
    }
}

/// Copies all of `src` into `dst`, from index `offs` on.
pub fn copy_into(dst: &mut [u8], offs: usize, src: &[u8])
    requires
        offs + src@.len() <= old(dst)@.len(),
    ensures
        final(dst)@ == overwrite(old(dst)@, offs as int, src@),
{
    let mut i: usize = 0;
    while i < src.len()
        invariant
            i <= src@.len(),
            dst@.len() == old(dst)@.len(),
            offs + src@.len() <= dst@.len(),
            dst@ == overwrite(old(dst)@, offs as int, src@.subrange(0, i as int)),
        decreases src@.len() - i,
    {
        assert(dst@.len() == dst.len());
        dst[offs + i] = src[i];
        i = i + 1;
    }
    assert(src@.subrange(0, i as int) =~= src@);
}

/// Moves the bytes in `start..end` so that they begin at `dest`; the two ranges may overlap.
pub fn move_within(buf: &mut [u8], start: usize, end: usize, dest: usize)
    requires
        start <= end <= old(buf)@.len(),
        dest + (end - start) <= old(buf)@.len(),
    ensures
        final(buf)@ == overwrite(
            old(buf)@,
            dest as int,
            old(buf)@.subrange(start as int, end as int),
        ),
{
    let count: usize = end - start;
    let ghost orig = buf@;
    if dest <= start {
        let mut i: usize = 0;
        while i < count
            invariant
                i <= count,
                count == end - start,
                dest <= start <= end <= orig.len(),
                buf@ == overwrite(orig, dest as int, orig.subrange(start as int, start + i)),
            decreases count - i,
        {
            buf[dest + i] = buf[start + i];
            i = i + 1;
        }
    } else {
        let mut i: usize = count;
        while i > 0
            invariant
                i <= count,
                count == end - start,
                start <= end <= orig.len(),
                start < dest,
                dest + count <= orig.len(),
                buf@ == overwrite(orig, dest + i, orig.subrange(start + i, end as int)),
            decreases i,
        {
            i = i - 1;
            buf[dest + i] = buf[start + i];
        }
    }
}

/// Sets every byte to zero.
pub fn fill_zero(buf: &mut [u8])
    ensures
        final(buf)@ == Seq::new(old(buf)@.len(), |i: int| 0u8),
{
    let mut i: usize = 0;
    while i < buf.len()
        invariant
            i <= buf@.len(),
            buf@.len() == old(buf)@.len(),
            forall|j: int| 0 <= j < i ==> buf@[j] == 0,
        decreases buf@.len() - i,
    {
        buf[i] = 0;
        i = i + 1;
    }
}

/// The two sums of the checksum: of the bytes, and of the sums so far.
pub open spec fn checksum_sums(bytes: Seq<u8>) -> (int, int)
    decreases bytes.len(),
{
    if bytes.len() == 0 {
        (1, 0)
    } else {
        let (a, b) = checksum_sums(bytes.drop_last());
        let sum = (a + bytes.last()) % CHECKSUM_MODULUS as int;
        (sum, (b + sum) % CHECKSUM_MODULUS as int)
    }
}

/// The Adler-32 checksum of `bytes`.
pub open spec fn checksum_spec(bytes: Seq<u8>) -> u32 {
    let (a, b) = checksum_sums(bytes);
    (b * 0x1_0000 + a) as u32
}

pub const CHECKSUM_MODULUS: u32 = 65521;

pub fn checksum(bytes: &[u8]) -> (sum: u32)
    ensures
        sum == checksum_spec(bytes@),
{
    let mut a: u32 = 1;
    let mut b: u32 = 0;
    let mut i: usize = 0;
    assert(bytes@.subrange(0, 0) =~= Seq::<u8>::empty());
    while i < bytes.len()
        invariant
            i <= bytes@.len(),
            a < CHECKSUM_MODULUS,
            b < CHECKSUM_MODULUS,
            checksum_sums(bytes@.subrange(0, i as int)) == (a as int, b as int),
        decreases bytes@.len() - i,
    {
        assert(bytes@.subrange(0, i + 1).drop_last() =~= bytes@.subrange(0, i as int));
        a = (a + bytes[i] as u32) % CHECKSUM_MODULUS;
        b = (b + a) % CHECKSUM_MODULUS;
        i = i + 1;
    }
    assert(bytes@.subrange(0, i as int) =~= bytes@);
    b * 0x1_0000 + a
}

/// Whether the sequence number `a` comes after `b`, where the numbers wrap around.
pub open spec fn seq_after(a: u32, b: u32) -> bool {
    0 < (a - b) % 0x1_0000_0000 < 0x8000_0000
}

pub fn wrapping_gtr(a: u32, b: u32) -> (result: bool)
    ensures
        result == seq_after(a, b),
{
    let distance: u32 = a.wrapping_sub(b);
    distance > 0 && distance < 0x8000_0000
}

/// A queue of array indices, from head to tail. It allows recently used lists
/// over the slots of an array without pointers between the slots.
pub struct IndexQueue {
    next: Vec<Option<usize>>,
    prev: Vec<Option<usize>>,
    head: Option<usize>,
    tail: Option<usize>,
    order: Ghost<Seq<usize>>,
}

impl View for IndexQueue {
    type V = Seq<usize>;

    /// The queued indices, the head first.
    closed spec fn view(&self) -> Seq<usize> {
        self.order@
    }
}

/// What follows position `j` of the queue.
spec fn after(q: Seq<usize>, j: int) -> Option<usize> {
    if j + 1 < q.len() {
        Some(q[j + 1])
    } else {
        None
    }
}

/// What precedes position `j` of the queue.
spec fn before(q: Seq<usize>, j: int) -> Option<usize> {
    if j > 0 {
        Some(q[j - 1])
    } else {
        None
    }
}

impl IndexQueue {
    /// How many different indices the queue can hold.
    pub closed spec fn capacity(&self) -> nat {
        self.next@.len()
    }

    /// The links agree with the order of the queue, and no index occurs twice.
    pub closed spec fn wf(&self) -> bool {
        let q = self.order@;
        &&& self.next@.len() == self.prev@.len()
        &&& q.no_duplicates()
        &&& forall|j: int| 0 <= j < q.len() ==> #[trigger] q[j] < self.next@.len()
        &&& self.head == after(q, -1)
        &&& self.tail == before(q, q.len() as int)
        &&& forall|j: int|
            0 <= j < q.len() ==> #[trigger] self.next@[q[j] as int] == after(q, j)
        &&& forall|j: int|
            0 <= j < q.len() ==> #[trigger] self.prev@[q[j] as int] == before(q, j)
    }

    pub fn new(num_elements: usize) -> (queue: Self)
        ensures
            queue.wf(),
            queue@ == Seq::<usize>::empty(),
            queue.capacity() == num_elements,
    {
        Self {
            next: vec![None; num_elements],
            prev: vec![None; num_elements],
            head: None,
            tail: None,
            order: Ghost(Seq::empty()),
        }
    }

    pub fn empty(&self) -> (result: bool)
        requires
            self.wf(),
        ensures
            result <==> self@.len() == 0,
    {
        self.head.is_none()
    }

    /// Takes `index` out of the queue, wherever it stands.
    pub fn remove(&mut self, index: usize)
        requires
            old(self).wf(),
            old(self)@.contains(index),
        ensures
            final(self).wf(),
            final(self)@ == old(self)@.remove(old(self)@.index_of(index)),
            forall|x: usize| #[trigger]
                final(self)@.contains(x) <==> old(self)@.contains(x) && x != index,
            final(self).capacity() == old(self).capacity(),
    {
        let ghost q = self.order@;
        let ghost k = q.index_of(index);
        assert(q[k] == index);
        match self.next[index] {
            Some(next_id) => {
                assert(next_id == q[k + 1]);
                self.prev[next_id] = self.prev[index];
            },
            None => {
                self.tail = self.prev[index];
            },
        }
        match self.prev[index] {
            Some(prev_id) => {
                assert(prev_id == q[k - 1]);
                self.next[prev_id] = self.next[index];
            },
            None => {
                self.head = self.next[index];
            },
        }
        self.order = Ghost(q.remove(k));
        proof {
            let r = q.remove(k);
            assert forall|x: usize| q.contains(x) && x != index implies r.contains(x) by {
                let i = q.index_of(x);
                assert(q[i] == x);
                assert(r[if i < k { i } else { i - 1 }] == x);
            }
            assert forall|x: usize| r.contains(x) implies q.contains(x) && x != index by {
                let j = r.index_of(x);
                assert(r[j] == q[if j < k { j } else { j + 1 }]);
            }
            assert forall|j: int| 0 <= j < r.len() implies #[trigger] self.next@[r[j] as int]
                == after(r, j) by {
                let i = if j < k { j } else { j + 1 };
                assert(r[j] == q[i]);
                if i == k - 1 {
                    assert(old(self).next@[q[k] as int] == after(q, k));
                } else {
                    assert(old(self).next@[q[i] as int] == after(q, i));
                    assert(k > 0 ==> q[k - 1] != q[i]);
                }
            }
            assert forall|j: int| 0 <= j < r.len() implies #[trigger] self.prev@[r[j] as int]
                == before(r, j) by {
                let i = if j < k { j } else { j + 1 };
                assert(r[j] == q[i]);
                if i == k + 1 {
                    assert(old(self).prev@[q[k] as int] == before(q, k));
                } else {
                    assert(old(self).prev@[q[i] as int] == before(q, i));
                    assert(k + 1 < q.len() ==> q[k + 1] != q[i]);
                }
            }
        }
    }

    /// Puts `index` before all others.
    pub fn push_head(&mut self, index: usize)
        requires
            old(self).wf(),
            index < old(self).capacity(),
            !old(self)@.contains(index),
        ensures
            final(self).wf(),
            final(self)@ == old(self)@.insert(0, index),
            forall|x: usize| #[trigger]
                final(self)@.contains(x) <==> old(self)@.contains(x) || x == index,
            final(self).capacity() == old(self).capacity(),
    {
        let ghost q = self.order@;
        match self.head {
            Some(head) => {
                assert(head == q[0]);
                self.prev[head] = Some(index);
                self.next[index] = Some(head);
                self.head = Some(index);
                self.prev[index] = None;
            },
            None => {
                self.head = Some(index);
                self.tail = Some(index);
                self.next[index] = None;
                self.prev[index] = None;
            },
        }
        self.order = Ghost(q.insert(0, index));
        proof {
            let r = q.insert(0, index);
            assert(r[0] == index);
            assert forall|x: usize| q.contains(x) implies r.contains(x) by {
                assert(r[q.index_of(x) + 1] == x);
            }
            assert forall|x: usize| r.contains(x) && x != index implies q.contains(x) by {
                assert(q[r.index_of(x) - 1] == x);
            }
            assert forall|i: int, j: int| 0 <= i < r.len() && 0 <= j < r.len() && i != j implies r[i]
                != r[j] by {
                if i > 0 {
                    assert(q.contains(q[i - 1]));
                }
                if j > 0 {
                    assert(q.contains(q[j - 1]));
                }
            }
            assert forall|j: int| 0 <= j < r.len() implies #[trigger] self.next@[r[j] as int]
                == after(r, j) by {
                if j > 0 {
                    assert(r[j] == q[j - 1]);
                    assert(r[j] != r[0]);
                    assert(old(self).next@[q[j - 1] as int] == after(q, j - 1));
                }
            }
            assert forall|j: int| 0 <= j < r.len() implies #[trigger] self.prev@[r[j] as int]
                == before(r, j) by {
                if j > 0 {
                    assert(r[j] == q[j - 1]);
                    assert(r[j] != r[0]);
                    assert(old(self).prev@[q[j - 1] as int] == before(q, j - 1));
                    if j > 1 {
                        assert(q[j - 1] != q[0]);
                    }
                }
            }
        }
    }

    /// Takes the last index out of the queue.
    pub fn pop_tail(&mut self) -> (result: Option<usize>)
        requires
            old(self).wf(),
        ensures
            final(self).wf(),
            final(self).capacity() == old(self).capacity(),
            old(self)@.len() == 0 ==> result is None && final(self)@ == old(self)@,
            old(self)@.len() > 0 ==> result == Some(old(self)@.last()) && final(self)@
                == old(self)@.drop_last() && forall|x: usize| #[trigger]
                final(self)@.contains(x) <==> old(self)@.contains(x) && x != old(self)@.last(),
    {
        match self.tail {
            Some(index) => {
                let ghost q = self.order@;
                assert(q[q.len() - 1] == index);
                assert(q.index_of(index) == q.len() - 1);
                self.remove(index);
                assert(q.remove(q.len() - 1) =~= q.drop_last());
                Some(index)
            },
            None => None,
        }
    }

    /// Every queued index lies below the capacity.
    pub proof fn lemma_in_range(&self, index: usize)
        requires
            self.wf(),
            self@.contains(index),
        ensures
            index < self.capacity(),
    {
    }

    /// No index occurs twice.
    pub proof fn lemma_no_duplicates(&self)
        requires
            self.wf(),
        ensures
            self@.no_duplicates(),
    {
    }

    /// The queue holds no more indices than there are.
    pub proof fn lemma_len(&self)
        requires
            self.wf(),
        ensures
            self@.len() <= self.capacity(),
    {
        assert forall|i: int| 0 <= i < self@.len() implies #[trigger] self@[i]
            < self.capacity() by {
            assert(self@.contains(self@[i]));
            self.lemma_in_range(self@[i]);
        }
        self.lemma_no_duplicates();
        lemma_pigeonhole(self@, self.capacity());
    }

    /// Walks the queue from its head.
    pub fn iter(&self) -> (iterator: IndexQueueIterator<'_>)
        requires
            self.wf(),
        ensures
            iterator.wf(),
            iterator.remaining() == self@,
    {
        let iterator = IndexQueueIterator { queue: self, index: self.head, at: Ghost(0) };
        assert(self.order@.skip(0) =~= self.order@);
        iterator
    }
}

/// Different numbers below `n` are at most `n`.
proof fn lemma_pigeonhole(list: Seq<usize>, n: nat)
    requires
        list.no_duplicates(),
        forall|i: int| 0 <= i < list.len() ==> #[trigger] list[i] < n,
    ensures
        list.len() <= n,
    decreases n,
{
    if n == 0 {
        if list.len() > 0 {
            assert(list[0] < n);
        }
    } else if list.contains((n - 1) as usize) {
        let at = list.index_of((n - 1) as usize);
        let rest = list.remove(at);
        assert forall|i: int| 0 <= i < rest.len() implies #[trigger] rest[i] < n - 1 by {
            if i < at {
                assert(rest[i] == list[i]);
            } else {
                assert(rest[i] == list[i + 1]);
            }
        }
        assert(rest.no_duplicates());
        lemma_pigeonhole(rest, (n - 1) as nat);
    } else {
        assert forall|i: int| 0 <= i < list.len() implies #[trigger] list[i] < n - 1 by {
            assert(list.contains(list[i]));
        }
        lemma_pigeonhole(list, (n - 1) as nat);
    }
}

/// A walk over an [`IndexQueue`], from the head to the tail.
pub struct IndexQueueIterator<'a> {
    queue: &'a IndexQueue,
    index: Option<usize>,
    at: Ghost<int>,
}

impl<'a> IndexQueueIterator<'a> {
    /// The walk stands at an index of a well-formed queue, or behind its tail.
    pub closed spec fn wf(&self) -> bool {
        &&& self.queue.wf()
        &&& 0 <= self.at@ <= self.queue@.len()
        &&& self.index == after(self.queue@, self.at@ - 1)
    }

    /// The indices that the walk has not handed out yet.
    pub closed spec fn remaining(&self) -> Seq<usize> {
        self.queue@.skip(self.at@)
    }

    pub fn next(&mut self) -> (result: Option<usize>)
        requires
            old(self).wf(),
        ensures
            final(self).wf(),
            ({
                let rest = old(self).remaining();
                if rest.len() == 0 {
                    result is None && final(self).remaining() == rest
                } else {
                    result == Some(rest[0]) && final(self).remaining() == rest.skip(1)
                }
            }),
    {
        let result = self.index;
        match self.index {
            Some(index) => {
                assert(index == self.queue@[self.at@]);
                self.index = self.queue.next[index];
                self.at = Ghost(self.at@ + 1);
                assert(self.remaining() =~= old(self).remaining().skip(1));
            },
            None => {},
        }
        result
    }
}

/// Bytes that are written over others are there afterwards, and all others are as they were.
pub proof fn law_overwriting_keeps_other_bytes(s: Seq<u8>, offs: int, b: Seq<u8>)
    requires
        0 <= offs,
        offs + b.len() <= s.len(),
    ensures
        overwrite(s, offs, b).len() == s.len(),
        overwrite(s, offs, b).subrange(offs, offs + b.len()) == b,
        overwrite(s, offs, b).take(offs) == s.take(offs),
        overwrite(s, offs, b).skip(offs + b.len()) == s.skip(offs + b.len()),
{
    assert(overwrite(s, offs, b).subrange(offs, offs + b.len()) =~= b);
    assert(overwrite(s, offs, b).take(offs) =~= s.take(offs));
    assert(overwrite(s, offs, b).skip(offs + b.len()) =~= s.skip(offs + b.len()));
}

/// Numbers are stored with the last eight bits first, then the others in the same way.
pub proof fn law_numbers_are_stored_little_endian(a: u16, b: u32, c: u64)
    ensures
        le16_bytes(a).len() == 2 && le32_bytes(b).len() == 4 && le64_bytes(c).len() == 8,
        le16_bytes(a)[0] == a % 0x100,
        le32_bytes(b)[0] == b % 0x100,
        le64_bytes(c)[0] == c % 0x100,
        le16_bytes(a)[1] == le16_bytes((a / 0x100) as u16)[0],
        forall|i: int|
            0 <= i < 3 ==> #[trigger] le32_bytes(b)[i + 1] == le32_bytes((b / 0x100) as u32)[i],
        forall|i: int|
            0 <= i < 7 ==> #[trigger] le64_bytes(c)[i + 1] == le64_bytes((c / 0x100) as u64)[i],
        le16(le16_bytes(a), 0) == a,
        le32(le32_bytes(b), 0) == b,
        le64(le64_bytes(c), 0) == c,
        forall|i: int| 0 <= i < 8 ==> #[trigger] be64_bytes(c)[i] == le64_bytes(c)[7 - i],
        be64_bytes(c).len() == 8,
{
    lemma_le16_roundtrip(a);
    lemma_le32_roundtrip(b);
    lemma_le64_roundtrip(c);
    lemma_le32_shifted(b);
    lemma_le64_shifted(c);
}

#[verifier::spinoff_prover]
proof fn lemma_le32_shifted(v: u32)
    ensures
        le32_bytes(v).len() == 4,
        le32_bytes(v)[0] == v % 0x100,
        forall|i: int|
            0 <= i < 3 ==> #[trigger] le32_bytes(v)[i + 1] == le32_bytes((v / 0x100) as u32)[i],
{
    reveal(le32_bytes);
    let x = le32_bytes(v);
    let y = le32_bytes((v / 0x100) as u32);
    assert(x[1] == y[0] && x[2] == y[1] && x[3] == y[2]);
}

#[verifier::rlimit(60)]
#[verifier::spinoff_prover]
proof fn lemma_le64_shifted(v: u64)
    ensures
        le64_bytes(v).len() == 8,
        le64_bytes(v)[0] == v % 0x100,
        forall|i: int|
            0 <= i < 7 ==> #[trigger] le64_bytes(v)[i + 1] == le64_bytes((v / 0x100) as u64)[i],
{
    reveal(le64_bytes);
    let w = (v / 0x100) as u64;
    let p = le64_bytes(v);
    let q = le64_bytes(w);
    assert(p[1] == q[0]);
    assert(p[2] == q[1]);
    assert(p[3] == q[2]);
    assert(p[4] == q[3]);
    assert(p[5] == q[4]);
    assert(p[6] == q[5]);
    assert(p[7] == q[6]);
}

/// All bytes together.
spec fn byte_sum(bytes: Seq<u8>) -> int
    decreases bytes.len(),
{
    if bytes.len() == 0 {
        0
    } else {
        byte_sum(bytes.drop_last()) + bytes.last()
    }
}

/// All bytes together, each as often as there are bytes from it on.
spec fn weighted_sum(bytes: Seq<u8>) -> int
    decreases bytes.len(),
{
    if bytes.len() == 0 {
        0
    } else {
        weighted_sum(bytes.drop_last()) + 1 + byte_sum(bytes)
    }
}

proof fn lemma_checksum_sums(bytes: Seq<u8>)
    ensures
        checksum_sums(bytes).0 == (1 + byte_sum(bytes)) % 65521,
        checksum_sums(bytes).1 == weighted_sum(bytes) % 65521,
    decreases bytes.len(),
{
    if bytes.len() > 0 {
        lemma_checksum_sums(bytes.drop_last());
    }
}

/// Sums that are less than a modulus apart have different remainders.
proof fn lemma_checksums_differ(x: Seq<u8>, y: Seq<u8>)
    requires
        byte_sum(x) != byte_sum(y) || weighted_sum(x) != weighted_sum(y),
        -65521 < byte_sum(x) - byte_sum(y) < 65521,
        -65521 < weighted_sum(x) - weighted_sum(y) < 65521,
    ensures
        checksum_spec(x) != checksum_spec(y),
{
    lemma_checksum_sums(x);
    lemma_checksum_sums(y);
    let (a, b) = checksum_sums(x);
    let (c, d) = checksum_sums(y);
    assert(0 <= a < 65521 && 0 <= b < 65521 && 0 <= c < 65521 && 0 <= d < 65521);
    assert(a != c || b != d);
    assert(b * 0x1_0000 + a != d * 0x1_0000 + c);
}

/// Where one byte was changed, wherever it stands, the checksum is another one.
pub proof fn law_checksum_shows_a_changed_byte(bytes: Seq<u8>, at: int, byte: u8)
    requires
        0 <= at < bytes.len(),
        byte != bytes[at],
    ensures
        checksum_spec(bytes.update(at, byte)) != checksum_spec(bytes),
{
    let other = bytes.update(at, byte);
    lemma_sum_changed(bytes, at, byte);
    lemma_checksum_sums(bytes);
    lemma_checksum_sums(other);
    let (a, b) = checksum_sums(bytes);
    let (c, d) = checksum_sums(other);
    assert(0 <= a < 65521 && 0 <= b < 65521 && 0 <= c < 65521 && 0 <= d < 65521);
    assert(a != c);
    assert(b * 0x1_0000 + a != d * 0x1_0000 + c);
}

proof fn lemma_sum_changed(bytes: Seq<u8>, at: int, byte: u8)
    requires
        0 <= at < bytes.len(),
    ensures
        byte_sum(bytes.update(at, byte)) == byte_sum(bytes) - bytes[at] + byte,
    decreases bytes.len(),
{
    let other = bytes.update(at, byte);
    if at == bytes.len() - 1 {
        assert(other.drop_last() =~= bytes.drop_last());
    } else {
        assert(other.drop_last() =~= bytes.drop_last().update(at, byte));
        lemma_sum_changed(bytes.drop_last(), at, byte);
    }
}

/// Where two different bytes beside each other were exchanged, the checksum is another one.
pub proof fn law_checksum_shows_exchanged_bytes(bytes: Seq<u8>, at: int)
    requires
        0 <= at < bytes.len() - 1,
        bytes[at] != bytes[at + 1],
    ensures
        checksum_spec(bytes.update(at, bytes[at + 1]).update(at + 1, bytes[at])) != checksum_spec(
            bytes,
        ),
{
    let other = bytes.update(at, bytes[at + 1]).update(at + 1, bytes[at]);
    lemma_sums_exchanged(bytes, at);
    lemma_checksums_differ(bytes, other);
}

proof fn lemma_sums_exchanged(bytes: Seq<u8>, at: int)
    requires
        0 <= at < bytes.len() - 1,
    ensures
        ({
            let other = bytes.update(at, bytes[at + 1]).update(at + 1, bytes[at]);
            &&& byte_sum(other) == byte_sum(bytes)
            &&& weighted_sum(other) == weighted_sum(bytes) + bytes[at + 1] - bytes[at]
        }),
    decreases bytes.len(),
{
    reveal_with_fuel(byte_sum, 3);
    reveal_with_fuel(weighted_sum, 3);
    let other = bytes.update(at, bytes[at + 1]).update(at + 1, bytes[at]);
    let less = bytes.drop_last();
    if at == bytes.len() - 2 {
        assert(other.drop_last() =~= less.update(at, bytes[at + 1]));
        assert(other.drop_last().drop_last() =~= less.drop_last());
    } else {
        assert(other.drop_last() =~= less.update(at, less[at + 1]).update(at + 1, less[at]));
        lemma_sums_exchanged(less, at);
    }
}

/// The checksum of no bytes is one.
pub proof fn law_checksum_starts_with_one()
    ensures
        checksum_spec(Seq::empty()) == 1,
{
}

/// A sequence number comes after another one if it is up to 2^31 - 1 steps ahead of it, even
/// where the numbers start again with zero. Then the other one does not come after it.
pub proof fn law_sequence_numbers_wrap_around(number: u32, steps: u32)
    ensures
        ({
            let later = ((number + steps) % 0x1_0000_0000) as u32;
            &&& seq_after(later, number) == (0 < steps < 0x8000_0000)
            &&& 0 < steps < 0x8000_0000 ==> !seq_after(number, later)
        }),
{
}

} // verus!
