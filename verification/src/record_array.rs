//! An array of variable sized records on a page of any fixed size.
//!
//! ```text
//! HEADER [32 bytes, fixed]
//! entry_start: u16
//! num_entries: u16
//! index array: [u16]
//!  |
//!  V
//!  unused
//!  ^
//!  |
//! entry array
//! ```
//!
//! Each entry starts with a 16-bit length, which counts itself, and goes on
//! with the contents of the record.

use vstd::prelude::*;

use crate::util::{
    copy_into, fill_zero, get_u16, le16, le16_bytes, lemma_le16_frame, move_within, overwrite,
    set_u16,
};
use crate::vararray::{lemma_total_len_insert, lemma_total_len_remove, total_len};

verus! {

pub const ENTRY_START_FIELD_OFFS: usize = 32;

pub const NUM_ENTRIES_FIELD_OFFS: usize = 34;

pub const INDEX_OFFS: usize = 36;

spec fn count(p: Seq<u8>) -> int {
    le16(p, 34)
}

spec fn entry_start(p: Seq<u8>) -> int {
    le16(p, 32)
}

spec fn entry_offs(p: Seq<u8>, i: int) -> int {
    le16(p, 36 + i * 2)
}

/// The length of entry `i`, its length field included.
spec fn entry_len(p: Seq<u8>, i: int) -> int {
    le16(p, entry_offs(p, i))
}

/// The records that the page `p` holds, in the order of the index.
pub closed spec fn records(p: Seq<u8>) -> Seq<Seq<u8>> {
    Seq::new(
        count(p) as nat,
        |i: int| p.subrange(entry_offs(p, i) + 2, entry_offs(p, i) + entry_len(p, i)),
    )
}

/// The bytes left on a page of `size` bytes that holds `records`. Each record
/// takes its own bytes, two for its length and two in the index.
pub open spec fn free_space(records: Seq<Seq<u8>>, size: nat) -> int {
    size - INDEX_OFFS - total_len(records) - 4 * records.len()
}

spec fn in_data(p: Seq<u8>, i: int) -> bool {
    &&& entry_start(p) <= entry_offs(p, i)
    &&& entry_offs(p, i) + 2 <= p.len()
    &&& 2 <= entry_len(p, i)
    &&& entry_offs(p, i) + entry_len(p, i) <= p.len()
}

spec fn disjoint(p: Seq<u8>, i: int, j: int) -> bool {
    ||| entry_offs(p, i) + entry_len(p, i) <= entry_offs(p, j)
    ||| entry_offs(p, j) + entry_len(p, j) <= entry_offs(p, i)
}

/// The page `p` holds an array of records: the index does not reach into the
/// entries, and the entries fill the end of the page without overlapping.
pub closed spec fn record_array_wf(p: Seq<u8>) -> bool {
    &&& 36 <= p.len() <= u16::MAX
    &&& 36 + count(p) * 2 <= entry_start(p) <= p.len()
    &&& forall|i: int| 0 <= i < count(p) ==> #[trigger] in_data(p, i)
    &&& forall|i: int, j: int|
        0 <= i < count(p) && 0 <= j < count(p) && i != j ==> #[trigger] disjoint(p, i, j)
    &&& entry_start(p) == p.len() - total_len(records(p)) - 2 * count(p)
}

pub fn init_array(page: &mut [u8])
    requires
        36 <= old(page)@.len() <= u16::MAX,
    ensures
        final(page)@.len() == old(page)@.len(),
        record_array_wf(final(page)@),
        records(final(page)@) == Seq::<Seq<u8>>::empty(),
        forall|i: int| 0 <= i < 32 ==> final(page)@[i] == 0,
{
    fill_zero(page);
    let len: u16 = page.len() as u16;
    set_u16(page, ENTRY_START_FIELD_OFFS, len);
    assert(records(page@) =~= Seq::<Seq<u8>>::empty());
}

pub fn get_num_entries(page: &[u8]) -> (num: usize)
    requires
        record_array_wf(page@),
    ensures
        num == records(page@).len(),
{
    get_u16(page, NUM_ENTRIES_FIELD_OFFS) as usize
}

pub fn get_free_space(page: &[u8]) -> (space: usize)
    requires
        record_array_wf(page@),
    ensures
        space == free_space(records(page@), page@.len()),
{
    let index_end: usize = INDEX_OFFS + get_num_entries(page) * 2;
    let entry_start: usize = get_u16(page, ENTRY_START_FIELD_OFFS) as usize;
    entry_start - index_end
}

/// Overwriting bytes outside of a place of the index leaves that place alone.
proof fn lemma_place_frame(p: Seq<u8>, offs: int, b: Seq<u8>, i: int)
    requires
        0 <= i,
        36 + i * 2 + 2 <= p.len(),
        36 + i * 2 + 2 <= offs || offs + b.len() <= 36 + i * 2,
    ensures
        entry_offs(overwrite(p, offs, b), i) == entry_offs(p, i),
{
    lemma_le16_frame(p, offs, b, 36 + i * 2);
}

/// The index of `p` is that of `p0` with one more place, at `index`.
spec fn index_inserted(p0: Seq<u8>, p: Seq<u8>, index: int, offs: int) -> bool {
    forall|i: int|
        0 <= i < count(p0) + 1 ==> #[trigger] entry_offs(p, i) == (if i < index {
            entry_offs(p0, i)
        } else if i == index {
            offs
        } else {
            entry_offs(p0, i - 1)
        })
}

proof fn lemma_inserted(p0: Seq<u8>, p: Seq<u8>, index: int, value: Seq<u8>)
    requires
        record_array_wf(p0),
        p.len() == p0.len(),
        0 <= index <= count(p0),
        free_space(records(p0), p0.len()) >= value.len() + 4,
        count(p) == count(p0) + 1,
        entry_start(p) == entry_start(p0) - value.len() - 2,
        index_inserted(p0, p, index, entry_start(p)),
        forall|k: int| entry_start(p0) <= k < p.len() ==> p[k] == p0[k],
        le16(p, entry_start(p)) == value.len() + 2,
        p.subrange(entry_start(p) + 2, entry_start(p0)) == value,
    ensures
        record_array_wf(p),
        records(p) == records(p0).insert(index, value),
{
    let n = count(p0);
    let v = records(p0).insert(index, value);
    assert forall|i: int| 0 <= i < n + 1 implies records(p)[i] == #[trigger] v[i] && in_data(p, i)
        && entry_len(p, i) == v[i].len() + 2 by {
        assert(entry_offs(p, i) == entry_offs(p, i));
        if i < index {
            assert(in_data(p0, i));
        } else if i > index {
            assert(in_data(p0, i - 1));
        }
        assert(records(p)[i] =~= v[i]);
    }
    assert(records(p) =~= v);
    lemma_total_len_insert(records(p0), index, value);
    assert forall|i: int| 0 <= i < count(p) implies #[trigger] in_data(p, i) by {
        assert(v[i] == v[i]);
    }
    assert forall|i: int, j: int|
        0 <= i < count(p) && 0 <= j < count(p) && i != j implies #[trigger] disjoint(p, i, j) by {
        assert(entry_offs(p, i) == entry_offs(p, i));
        assert(entry_offs(p, j) == entry_offs(p, j));
        assert(v[i] == v[i]);
        assert(v[j] == v[j]);
        let i0 = if i < index { i } else { i - 1 };
        let j0 = if j < index { j } else { j - 1 };
        if i != index && j != index {
            assert(disjoint(p0, i0, j0));
            assert(in_data(p0, i0));
            assert(in_data(p0, j0));
        } else if i == index {
            assert(in_data(p0, j0));
        } else {
            assert(in_data(p0, i0));
        }
    }
}

/// Puts `value` at position `index`, moving the records from there on one place up.
#[verifier::rlimit(40)]
#[verifier::spinoff_prover]
pub fn insert_record(page: &mut [u8], index: usize, value: &[u8])
    requires
        record_array_wf(old(page)@),
        free_space(records(old(page)@), old(page)@.len()) >= value@.len() + 4,
        index <= records(old(page)@).len(),
    ensures
        final(page)@.len() == old(page)@.len(),
        record_array_wf(final(page)@),
        records(final(page)@) == records(old(page)@).insert(index as int, value@),
        forall|i: int| 0 <= i < 32 ==> final(page)@[i] == old(page)@[i],
{
    let ghost p0 = page@;
    let ghost n = count(p0);
    let num_recs: usize = get_num_entries(page);
    if index < num_recs {
        // Move all index slots to make room
        let slot_start: usize = INDEX_OFFS + index * 2;
        let slot_end: usize = INDEX_OFFS + num_recs * 2;
        move_within(page, slot_start, slot_end, slot_start + 2);
    }
    let ghost p1 = page@;
    assert forall|i: int| 0 <= i < n + 1 && i != index implies #[trigger] entry_offs(p1, i)
        == entry_offs(p0, if i < index { i } else { i - 1 }) by {
    }

    // Fill in the slot index and update header
    let new_entry_len: usize = value.len() + 2;  // The length field counts itself
    let new_entry_offs: usize = get_u16(page, ENTRY_START_FIELD_OFFS) as usize - new_entry_len;
    set_u16(page, NUM_ENTRIES_FIELD_OFFS, num_recs as u16 + 1);
    let ghost p2 = page@;
    set_u16(page, INDEX_OFFS + index * 2, new_entry_offs as u16);
    let ghost p3 = page@;
    set_u16(page, ENTRY_START_FIELD_OFFS, new_entry_offs as u16);
    let ghost p4 = page@;

    // Fill in the entry
    set_u16(page, new_entry_offs, new_entry_len as u16);
    let ghost p5 = page@;
    copy_into(page, new_entry_offs + 2, value);
    let ghost p = page@;
    proof {
        let b = |v: u16| le16_bytes(v);
        let io = 36 + index * 2;
        let no = new_entry_offs as int;
        assert forall|i: int| 0 <= i < n + 1 implies #[trigger] entry_offs(p, i) == (if i == index {
            no
        } else {
            entry_offs(p1, i)
        }) by {
            if i != index {
                lemma_place_frame(p1, 34, b((num_recs + 1) as u16), i);
                lemma_place_frame(p2, io, b(no as u16), i);
            }
            lemma_place_frame(p3, 32, b(no as u16), i);
            lemma_place_frame(p4, no, b(new_entry_len as u16), i);
            lemma_place_frame(p5, no + 2, value@, i);
        }
        assert(count(p) == n + 1 && entry_start(p) == no) by {
            lemma_le16_frame(p2, io, b(no as u16), 34);
            lemma_le16_frame(p3, 32, b(no as u16), 34);
            lemma_le16_frame(p4, no, b(new_entry_len as u16), 34);
            lemma_le16_frame(p4, no, b(new_entry_len as u16), 32);
            lemma_le16_frame(p5, no + 2, value@, 34);
            lemma_le16_frame(p5, no + 2, value@, 32);
        }
        lemma_le16_frame(p5, no + 2, value@, no);
        assert(p.subrange(no + 2, entry_start(p0)) =~= value@);
        lemma_inserted(p0, p, index as int, value@);
    }
}

/// The index of `p` is that of `p0` without the place `index`, with the
/// entries before the deleted one moved up over it.
spec fn index_removed(p0: Seq<u8>, p: Seq<u8>, index: int) -> bool {
    forall|j: int|
        0 <= j < count(p0) - 1 ==> #[trigger] entry_offs(p, j) == ({
            let o = entry_offs(p0, if j < index { j } else { j + 1 });
            if o < entry_offs(p0, index) { o + entry_len(p0, index) } else { o }
        })
}

/// The page `p` is the page `p0` without the entry `index`.
spec fn removed(p0: Seq<u8>, p: Seq<u8>, index: int) -> bool {
    &&& p.len() == p0.len()
    &&& 0 <= index < count(p0)
    &&& count(p) == count(p0) - 1
    &&& entry_start(p) == entry_start(p0) + entry_len(p0, index)
    &&& index_removed(p0, p, index)
    &&& forall|k: int|
        entry_offs(p0, index) + entry_len(p0, index) <= k < p.len() ==> p[k] == p0[k]
    &&& forall|k: int|
        entry_start(p0) <= k < entry_offs(p0, index) ==> #[trigger] p[k + entry_len(p0, index)]
            == p0[k]
}

proof fn lemma_removed_one(p0: Seq<u8>, p: Seq<u8>, index: int, j: int)
    requires
        record_array_wf(p0),
        removed(p0, p, index),
        0 <= j < count(p),
    ensures
        records(p)[j] == records(p0).remove(index)[j],
        in_data(p, j),
        entry_len(p, j) == entry_len(p0, if j < index { j } else { j + 1 }),
{
    let v = records(p0).remove(index);
    let dl = entry_len(p0, index);
    let dof = entry_offs(p0, index);
    let j0 = if j < index { j } else { j + 1 };
    let o = entry_offs(p0, j0);
    assert(in_data(p0, index));
    assert(entry_offs(p, j) == entry_offs(p, j));
    assert(in_data(p0, j0));
    assert(disjoint(p0, j0, index));
    if o < dof {
        assert(p[o + dl] == p0[o]);
        assert(p[(o + 1) + dl] == p0[o + 1]);
    }
    assert(entry_len(p, j) == entry_len(p0, j0));
    let a = records(p)[j];
    assert(v[j] == records(p0)[j0]);
    assert(a.len() == v[j].len());
    assert forall|k: int| 0 <= k < a.len() implies a[k] == v[j][k] by {
        let k0 = o + 2 + k;
        assert(v[j][k] == p0[k0]);
        if o < dof {
            assert(k0 < dof);
            assert(p[k0 + dl] == p0[k0]);
        }
    }
    assert(a =~= v[j]);
}

proof fn lemma_removed(p0: Seq<u8>, p: Seq<u8>, index: int)
    requires
        record_array_wf(p0),
        removed(p0, p, index),
    ensures
        record_array_wf(p),
        records(p) == records(p0).remove(index),
{
    assert(in_data(p0, index));
    lemma_total_len_remove(records(p0), index);
    assert forall|j: int| 0 <= j < count(p) implies #[trigger] in_data(p, j) by {
        lemma_removed_one(p0, p, index, j);
    }
    assert(records(p) =~= records(p0).remove(index)) by {
        assert forall|j: int| 0 <= j < count(p) implies records(p)[j] == records(p0).remove(
            index,
        )[j] by {
            lemma_removed_one(p0, p, index, j);
        }
    }
    assert forall|i: int, j: int|
        0 <= i < count(p) && 0 <= j < count(p) && i != j implies #[trigger] disjoint(p, i, j) by {
        let i0 = if i < index { i } else { i + 1 };
        let j0 = if j < index { j } else { j + 1 };
        lemma_removed_one(p0, p, index, i);
        lemma_removed_one(p0, p, index, j);
        assert(entry_offs(p, i) == entry_offs(p, i));
        assert(entry_offs(p, j) == entry_offs(p, j));
        assert(in_data(p0, i0));
        assert(in_data(p0, j0));
        assert(disjoint(p0, i0, j0));
        assert(disjoint(p0, i0, index));
        assert(disjoint(p0, j0, index));
    }
}

/// Takes the record at `index` out, moving the records behind it one place down.
pub fn delete_record(page: &mut [u8], index: usize)
    requires
        record_array_wf(old(page)@),
        index < records(old(page)@).len(),
    ensures
        final(page)@.len() == old(page)@.len(),
        record_array_wf(final(page)@),
        records(final(page)@) == records(old(page)@).remove(index as int),
        forall|i: int| 0 <= i < 32 ==> final(page)@[i] == old(page)@[i],
{
    let ghost p0 = page@;
    let ghost n = count(p0);
    let total_recs: usize = get_num_entries(page);
    proof {
        assert(in_data(p0, index as int));
    }
    let deleted_entry_offs: usize = get_u16(page, INDEX_OFFS + index * 2) as usize;
    let deleted_entry_len: usize = get_u16(page, deleted_entry_offs) as usize;
    let ghost dof = deleted_entry_offs as int;
    let ghost dl = deleted_entry_len as int;

    // Remove this index entry and slide the other ones up to take the place
    let index_offs: usize = INDEX_OFFS + index * 2;
    move_within(page, index_offs + 2, INDEX_OFFS + total_recs * 2, index_offs);
    let ghost pm = page@;
    set_u16(page, NUM_ENTRIES_FIELD_OFFS, total_recs as u16 - 1);
    let ghost pa = page@;
    assert forall|j: int| 0 <= j < n - 1 implies #[trigger] entry_offs(pa, j) == entry_offs(
        p0,
        if j < index { j } else { j + 1 },
    ) by {
        lemma_place_frame(pm, 34, le16_bytes((n - 1) as u16), j);
        if j < index {
            lemma_place_frame(p0, 36 + index * 2, p0.subrange(36 + index * 2 + 2, 36 + n * 2), j);
        }
    }
    assert(forall|k: int| 36 + n * 2 <= k < p0.len() ==> pa[k] == p0[k]);
    assert(forall|k: int| 0 <= k < 34 ==> pa[k] == p0[k]);

    // Now move all the entry data down so there are no gaps
    let old_entries_start: usize = get_u16(page, ENTRY_START_FIELD_OFFS) as usize;
    move_within(
        page,
        old_entries_start,
        deleted_entry_offs,
        old_entries_start + deleted_entry_len,
    );
    let ghost p1 = page@;
    assert forall|j: int| 0 <= j < n - 1 implies #[trigger] entry_offs(p1, j) == entry_offs(
        pa,
        j,
    ) by {
        lemma_place_frame(pa, old_entries_start + dl, pa.subrange(old_entries_start as int, dof), j);
    }
    assert(forall|k: int| 0 <= k < 36 ==> p1[k] == pa[k]);

    // Walk through the remaining index, adjust the offset of anything that was
    // before the deleted entry.
    let mut i: usize = 0;
    while i < total_recs - 1
        invariant
            i <= total_recs - 1,
            total_recs == n,
            36 + n * 2 <= p1.len(),
            p1.len() == page@.len() <= u16::MAX,
            deleted_entry_offs == dof,
            deleted_entry_len == dl,
            dof + dl <= p1.len(),
            forall|j: int|
                0 <= j < n - 1 ==> #[trigger] entry_offs(page@, j) == (if j < i && entry_offs(p1, j)
                    < dof {
                    entry_offs(p1, j) + dl
                } else {
                    entry_offs(p1, j)
                }),
            forall|k: int| 0 <= k < 36 ==> page@[k] == p1[k],
            forall|k: int| 36 + 2 * (n - 1) <= k < p1.len() ==> page@[k] == p1[k],
        decreases total_recs - i,
    {
        let ghost pb = page@;
        let old_offs: usize = get_u16(page, INDEX_OFFS + i * 2) as usize;
        assert(old_offs == entry_offs(pb, i as int));
        if old_offs < deleted_entry_offs {
            let new_offs: u16 = (old_offs + deleted_entry_len) as u16;
            set_u16(page, INDEX_OFFS + i * 2, new_offs);
            assert forall|j: int| 0 <= j < n - 1 implies #[trigger] entry_offs(page@, j) == (if j
                == i {
                old_offs + dl
            } else {
                entry_offs(pb, j)
            }) by {
                if j != i {
                    lemma_place_frame(pb, 36 + i * 2, le16_bytes(new_offs), j);
                }
            }
        }
        i = i + 1;
    }
    let ghost p2 = page@;

    // Adjust the new start of entries
    set_u16(page, ENTRY_START_FIELD_OFFS, (old_entries_start + deleted_entry_len) as u16);
    let ghost p = page@;
    proof {
        let b = le16_bytes((old_entries_start + dl) as u16);
        assert forall|j: int| 0 <= j < n - 1 implies #[trigger] entry_offs(p, j) == entry_offs(
            p2,
            j,
        ) by {
            lemma_place_frame(p2, 32, b, j);
        }
        lemma_le16_frame(p2, 32, b, 34);
        assert(count(p) == n - 1);
        assert(index_removed(p0, p, index as int)) by {
            assert forall|j: int| 0 <= j < count(p0) - 1 implies #[trigger] entry_offs(p, j) == ({
                let o = entry_offs(p0, if j < index { j } else { j + 1 });
                if o < dof { o + dl } else { o }
            }) by {
                assert(entry_offs(p2, j) == entry_offs(p, j));
                assert(entry_offs(p1, j) == entry_offs(pa, j));
            }
        }
        let ds = entry_start(p0);
        assert(forall|k: int| ds <= k < p.len() ==> p[k] == p1[k]);
        assert(forall|k: int| ds <= k < dof ==> #[trigger] p1[k + dl] == pa[k]);
        assert forall|k: int| ds <= k < dof implies #[trigger] p[k + dl] == p0[k] by {
            assert(p1[k + dl] == pa[k]);
        }
        lemma_removed(p0, p, index as int);
    }
}

/// The record at `index`.
pub fn get_record(page: &[u8], index: usize) -> (record: &[u8])
    requires
        record_array_wf(page@),
        index < records(page@).len(),
    ensures
        record@ == records(page@)[index as int],
{
    proof {
        assert(in_data(page@, index as int));
    }
    let offset: usize = get_u16(page, INDEX_OFFS + index * 2) as usize;
    let length: usize = get_u16(page, offset) as usize;
    vstd::slice::slice_subrange(page, offset + 2, offset + length)
}

/// An empty page has room for all its bytes but 36, and a record takes its own bytes and four
/// more.
pub proof fn law_records_take_their_room(
    records: Seq<Seq<u8>>,
    size: nat,
    index: int,
    value: Seq<u8>,
)
    requires
        0 <= index <= records.len(),
    ensures
        free_space(Seq::empty(), size) == size - 36,
        free_space(records.insert(index, value), size) == free_space(records, size) - value.len()
            - 4,
{
    lemma_total_len_insert(records, index, value);
}

/// The number of records stands in bytes 34 and 35, the start of the entries in bytes 32 and 33,
/// and from byte 36 on the place of each entry. An entry is the length of the whole and the
/// record.
pub proof fn law_layout_of_records(p: Seq<u8>, i: int)
    requires
        record_array_wf(p),
    ensures
        records(p).len() == le16(p, 34),
        le16(p, 32) + total_len(records(p)) + 2 * records(p).len() == p.len(),
        0 <= i < records(p).len() ==> ({
            let at = le16(p, 36 + 2 * i);
            &&& records(p)[i].len() + 2 == le16(p, at)
            &&& at + le16(p, at) <= p.len()
            &&& forall|k: int|
                0 <= k < records(p)[i].len() ==> #[trigger] records(p)[i][k] == p[at + 2 + k]
        }),
{
    if 0 <= i < records(p).len() {
        assert(in_data(p, i));
    }
}

} // verus!
