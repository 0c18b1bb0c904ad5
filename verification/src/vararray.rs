//! An array of variable sized entries packed into a page. It is the underlying
//! storage format of B+ tree nodes.
//!
//! ```text
//! header [u8; 32] (used by the tree, opaque to this module)
//! data array start offset: u16
//! num_entries: u16
//! offsets table: [(offset: u16, length: u16); num_entries]
//!  |
//!  V
//!  unused
//!  ^
//!  |
//! data array
//! ```
//!
//! The data array is always packed and at the end of the page; the offsets
//! table grows towards it. The data need not be in the order of the table.

use vstd::prelude::*;

use crate::page_cache::{PageData, PAGE_SIZE};
use crate::util::{
    copy_into, fill_zero, get_u16, le16, le16_bytes, lemma_le16_frame, move_within, overwrite,
    set_u16,
};

verus! {

pub const DATA_START_FIELD_OFFS: usize = 32;

pub const NUM_ENTRIES_FIELD_OFFS: usize = 34;

pub const OFFSETS_LOC: usize = 36;

pub const OFFSETS_ENTRY_SIZE: usize = 4;

/// The bytes that the entries of `entries` hold together.
pub open spec fn total_len(entries: Seq<Seq<u8>>) -> nat
    decreases entries.len(),
{
    if entries.len() == 0 {
        0
    } else {
        total_len(entries.drop_last()) + entries.last().len()
    }
}

/// The bytes left for more entries and their places in the offsets table.
pub open spec fn free_space(entries: Seq<Seq<u8>>) -> int {
    PAGE_SIZE - OFFSETS_LOC - total_len(entries) - OFFSETS_ENTRY_SIZE * entries.len()
}

spec fn count(p: Seq<u8>) -> int {
    le16(p, 34)
}

spec fn data_start(p: Seq<u8>) -> int {
    le16(p, 32)
}

spec fn entry_offs(p: Seq<u8>, i: int) -> int {
    le16(p, 36 + i * 4)
}

spec fn entry_len(p: Seq<u8>, i: int) -> int {
    le16(p, 36 + i * 4 + 2)
}

/// The entries of the array that the page `p` holds, in the order of the offsets table.
pub closed spec fn vararray_view(p: Seq<u8>) -> Seq<Seq<u8>> {
    Seq::new(
        count(p) as nat,
        |i: int| p.subrange(entry_offs(p, i), entry_offs(p, i) + entry_len(p, i)),
    )
}

spec fn disjoint(p: Seq<u8>, i: int, j: int) -> bool {
    ||| entry_len(p, i) == 0
    ||| entry_len(p, j) == 0
    ||| entry_offs(p, i) + entry_len(p, i) <= entry_offs(p, j)
    ||| entry_offs(p, j) + entry_len(p, j) <= entry_offs(p, i)
}

spec fn in_data(p: Seq<u8>, i: int) -> bool {
    &&& entry_len(p, i) > 0 ==> data_start(p) <= entry_offs(p, i)
    &&& entry_offs(p, i) + entry_len(p, i) <= PAGE_SIZE
}

/// The page `p` holds an array: the table does not reach into the data, the
/// entries lie in the data array without overlapping, and they fill it.
pub closed spec fn vararray_wf(p: Seq<u8>) -> bool {
    &&& p.len() == PAGE_SIZE
    &&& 36 + count(p) * 4 <= data_start(p) <= PAGE_SIZE
    &&& forall|i: int| 0 <= i < count(p) ==> #[trigger] in_data(p, i)
    &&& forall|i: int, j: int|
        0 <= i < count(p) && 0 <= j < count(p) && i != j ==> #[trigger] disjoint(p, i, j)
    &&& data_start(p) == PAGE_SIZE - total_len(vararray_view(p))
}

/// Inserting an entry adds its bytes to the total.
pub proof fn lemma_total_len_insert(entries: Seq<Seq<u8>>, index: int, value: Seq<u8>)
    requires
        0 <= index <= entries.len(),
    ensures
        total_len(entries.insert(index, value)) == total_len(entries) + value.len(),
    decreases entries.len(),
{
    let r = entries.insert(index, value);
    if index == entries.len() {
        assert(r.drop_last() =~= entries);
    } else {
        lemma_total_len_insert(entries.drop_last(), index, value);
        assert(r.drop_last() =~= entries.drop_last().insert(index, value));
        assert(r.last() == entries.last());
    }
}

/// Removing an entry takes its bytes off the total.
pub proof fn lemma_total_len_remove(entries: Seq<Seq<u8>>, index: int)
    requires
        0 <= index < entries.len(),
    ensures
        total_len(entries.remove(index)) == total_len(entries) - entries[index].len(),
{
    lemma_total_len_insert(entries.remove(index), index, entries[index]);
    assert(entries.remove(index).insert(index, entries[index]) =~= entries);
}

/// The header does not belong to the array: two pages that differ only there hold the same array.
pub proof fn lemma_header_is_opaque(p: Seq<u8>, q: Seq<u8>)
    requires
        p.len() == q.len() == PAGE_SIZE,
        forall|i: int| 32 <= i < PAGE_SIZE ==> p[i] == q[i],
        vararray_wf(p),
    ensures
        vararray_wf(q),
        vararray_view(q) == vararray_view(p),
{
    assert(forall|i: int| 0 <= i < count(p) ==> entry_offs(p, i) == entry_offs(q, i));
    assert(forall|i: int| 0 <= i < count(p) ==> entry_len(p, i) == entry_len(q, i));
    assert forall|i: int| 0 <= i < count(p) implies vararray_view(q)[i] == #[trigger] vararray_view(
        p,
    )[i] by {
        assert(in_data(p, i));
        assert(vararray_view(q)[i] =~= vararray_view(p)[i]);
    }
    assert(vararray_view(q) =~= vararray_view(p));
    assert forall|i: int| 0 <= i < count(q) implies #[trigger] in_data(q, i) by {
        assert(in_data(p, i));
    }
    assert forall|i: int, j: int|
        0 <= i < count(q) && 0 <= j < count(q) && i != j implies #[trigger] disjoint(q, i, j) by {
        assert(disjoint(p, i, j));
    }
}

/// An entry is no longer than the page has room for.
pub proof fn lemma_entry_fits(p: Seq<u8>, i: int)
    requires
        vararray_wf(p),
        0 <= i < vararray_view(p).len(),
    ensures
        vararray_view(p)[i].len() <= PAGE_SIZE - OFFSETS_LOC,
        free_space(vararray_view(p)) >= 0,
{
    assert(in_data(p, i));
}

pub fn init_vararray(page: &mut PageData)
    ensures
        vararray_wf(final(page)@),
        vararray_view(final(page)@) == Seq::<Seq<u8>>::empty(),
        forall|i: int| 0 <= i < 32 ==> final(page)@[i] == 0,
{
    fill_zero(page);
    set_u16(page, DATA_START_FIELD_OFFS, PAGE_SIZE as u16);
    assert(vararray_view(page@) =~= Seq::<Seq<u8>>::empty());
}

pub fn get_num_vararray_entries(page: &PageData) -> (num: usize)
    requires
        vararray_wf(page@),
    ensures
        num == vararray_view(page@).len(),
{
    get_u16(page, NUM_ENTRIES_FIELD_OFFS) as usize
}

pub fn get_vararray_free_space(page: &PageData) -> (space: usize)
    requires
        vararray_wf(page@),
    ensures
        space == free_space(vararray_view(page@)),
{
    let offsets_end: usize = OFFSETS_LOC + get_num_vararray_entries(page) * OFFSETS_ENTRY_SIZE;
    let data_start: usize = get_u16(page, DATA_START_FIELD_OFFS) as usize;
    data_start - offsets_end
}

/// The offsets table of `p` is that of `p0` with one more place, at `index`.
spec fn table_inserted(p0: Seq<u8>, p: Seq<u8>, index: int, offs: int, len: int) -> bool {
    forall|i: int|
        0 <= i < count(p0) + 1 ==> #[trigger] entry_offs(p, i) == (if i < index {
            entry_offs(p0, i)
        } else if i == index {
            offs
        } else {
            entry_offs(p0, i - 1)
        }) && entry_len(p, i) == (if i < index {
            entry_len(p0, i)
        } else if i == index {
            len
        } else {
            entry_len(p0, i - 1)
        })
}

proof fn lemma_inserted(p0: Seq<u8>, p: Seq<u8>, index: int, value: Seq<u8>)
    requires
        vararray_wf(p0),
        p.len() == PAGE_SIZE,
        0 <= index <= count(p0),
        free_space(vararray_view(p0)) >= value.len() + 4,
        count(p) == count(p0) + 1,
        data_start(p) == data_start(p0) - value.len(),
        table_inserted(p0, p, index, data_start(p), value.len() as int),
        forall|k: int| data_start(p0) <= k < PAGE_SIZE ==> p[k] == p0[k],
        p.subrange(data_start(p), data_start(p0)) == value,
    ensures
        vararray_wf(p),
        vararray_view(p) == vararray_view(p0).insert(index, value),
{
    let n = count(p0);
    let v = vararray_view(p0).insert(index, value);
    assert forall|i: int| 0 <= i < n + 1 implies vararray_view(p)[i] == #[trigger] v[i] && in_data(
        p,
        i,
    ) by {
        assert(entry_offs(p, i) == entry_offs(p, i));
        if i < index {
            assert(in_data(p0, i));
        } else if i > index {
            assert(in_data(p0, i - 1));
        }
        assert(vararray_view(p)[i] =~= v[i]);
    }
    assert(vararray_view(p) =~= v);
    lemma_total_len_insert(vararray_view(p0), index, value);
    assert forall|i: int| 0 <= i < count(p) implies #[trigger] in_data(p, i) by {
        assert(v[i] == v[i]);
    }
    assert forall|i: int, j: int|
        0 <= i < count(p) && 0 <= j < count(p) && i != j implies #[trigger] disjoint(p, i, j) by {
        assert(entry_offs(p, i) == entry_offs(p, i));
        assert(entry_offs(p, j) == entry_offs(p, j));
        let i0 = if i < index { i } else { i - 1 };
        let j0 = if j < index { j } else { j - 1 };
        if i != index && j != index {
            assert(disjoint(p0, i0, j0));
        } else if i == index {
            assert(in_data(p0, j0));
        } else {
            assert(in_data(p0, i0));
        }
    }
}

/// Overwriting bytes outside of a place of the offsets table leaves that place alone.
proof fn lemma_place_frame(p: Seq<u8>, offs: int, b: Seq<u8>, i: int)
    requires
        p.len() == PAGE_SIZE,
        0 <= i,
        36 + i * 4 + 4 <= PAGE_SIZE,
        36 + i * 4 + 4 <= offs || offs + b.len() <= 36 + i * 4,
    ensures
        entry_offs(overwrite(p, offs, b), i) == entry_offs(p, i),
        entry_len(overwrite(p, offs, b), i) == entry_len(p, i),
{
    lemma_le16_frame(p, offs, b, 36 + i * 4);
    lemma_le16_frame(p, offs, b, 36 + i * 4 + 2);
}

/// Puts `value` at position `index`, moving the entries from there on one place up.
#[verifier::rlimit(40)]
pub fn insert_vararray_entry(page: &mut PageData, index: usize, value: &[u8])
    requires
        vararray_wf(old(page)@),
        free_space(vararray_view(old(page)@)) >= value@.len() + OFFSETS_ENTRY_SIZE,
        index <= vararray_view(old(page)@).len(),
    ensures
        vararray_wf(final(page)@),
        vararray_view(final(page)@) == vararray_view(old(page)@).insert(index as int, value@),
        forall|i: int| 0 <= i < 32 ==> final(page)@[i] == old(page)@[i],
{
    let ghost p0 = page@;
    let ghost n = count(p0);
    let num_entries: usize = get_num_vararray_entries(page);
    if index < num_entries {
        // Move all offsets to make room
        let offsets_start: usize = OFFSETS_LOC + index * OFFSETS_ENTRY_SIZE;
        let offsets_end: usize = OFFSETS_LOC + num_entries * OFFSETS_ENTRY_SIZE;
        move_within(page, offsets_start, offsets_end, offsets_start + OFFSETS_ENTRY_SIZE);
    }
    let ghost p1 = page@;
    assert forall|i: int| 0 <= i < n + 1 && i != index implies #[trigger] entry_offs(p1, i)
        == entry_offs(p0, if i < index { i } else { i - 1 }) && entry_len(p1, i) == entry_len(
        p0,
        if i < index { i } else { i - 1 },
    ) by {
    }

    // Fill in the offsets table and update header
    let new_entry_offs: usize = get_u16(page, DATA_START_FIELD_OFFS) as usize - value.len();
    set_u16(page, NUM_ENTRIES_FIELD_OFFS, num_entries as u16 + 1);
    let ghost p2 = page@;
    set_u16(page, OFFSETS_LOC + index * OFFSETS_ENTRY_SIZE, new_entry_offs as u16);
    let ghost p3 = page@;
    set_u16(page, OFFSETS_LOC + index * OFFSETS_ENTRY_SIZE + 2, value.len() as u16);
    let ghost p4 = page@;
    set_u16(page, DATA_START_FIELD_OFFS, new_entry_offs as u16);
    let ghost p5 = page@;

    // Fill in the entry
    copy_into(page, new_entry_offs, value);
    let ghost p = page@;
    proof {
        let b = |v: u16| le16_bytes(v);
        let io = 36 + index * 4;
        assert forall|i: int| 0 <= i < n + 1 && i != index implies #[trigger] entry_offs(p, i)
            == entry_offs(p1, i) && entry_len(p, i) == entry_len(p1, i) by {
            lemma_place_frame(p1, 34, b((num_entries + 1) as u16), i);
            lemma_place_frame(p2, io, b(new_entry_offs as u16), i);
            lemma_place_frame(p3, io + 2, b(value@.len() as u16), i);
            lemma_place_frame(p4, 32, b(new_entry_offs as u16), i);
            lemma_place_frame(p5, new_entry_offs as int, value@, i);
        }
        assert(entry_offs(p, index as int) == new_entry_offs && entry_len(p, index as int)
            == value@.len()) by {
            lemma_le16_frame(p3, io + 2, b(value@.len() as u16), io);
            lemma_place_frame(p4, 32, b(new_entry_offs as u16), index as int);
            lemma_place_frame(p5, new_entry_offs as int, value@, index as int);
        }
        assert(count(p) == n + 1 && data_start(p) == new_entry_offs) by {
            lemma_le16_frame(p2, io, b(new_entry_offs as u16), 34);
            lemma_le16_frame(p3, io + 2, b(value@.len() as u16), 34);
            lemma_le16_frame(p4, 32, b(new_entry_offs as u16), 34);
            lemma_le16_frame(p5, new_entry_offs as int, value@, 34);
            lemma_le16_frame(p5, new_entry_offs as int, value@, 32);
        }
        assert(p.subrange(new_entry_offs as int, data_start(p0)) =~= value@);
        lemma_inserted(p0, p, index as int, value@);
    }
}

/// The offsets table of `p` is that of `p0` without the place `index`, with
/// the data before the deleted entry moved up over it.
spec fn table_removed(p0: Seq<u8>, p: Seq<u8>, index: int) -> bool {
    forall|j: int|
        0 <= j < count(p0) - 1 ==> #[trigger] entry_offs(p, j) == ({
            let o = entry_offs(p0, if j < index { j } else { j + 1 });
            if o < entry_offs(p0, index) { o + entry_len(p0, index) } else { o }
        }) && entry_len(p, j) == entry_len(p0, if j < index { j } else { j + 1 })
}

proof fn lemma_removed(p0: Seq<u8>, p: Seq<u8>, index: int)
    requires
        vararray_wf(p0),
        p.len() == PAGE_SIZE,
        0 <= index < count(p0),
        count(p) == count(p0) - 1,
        data_start(p) == data_start(p0) + entry_len(p0, index),
        table_removed(p0, p, index),
        forall|k: int|
            entry_offs(p0, index) + entry_len(p0, index) <= k < PAGE_SIZE && data_start(p0) <= k
                ==> p[k] == p0[k],
        forall|k: int|
            entry_len(p0, index) > 0 && data_start(p0) <= k < entry_offs(p0, index) ==> #[trigger] p[k
                + entry_len(p0, index)] == p0[k],
        entry_len(p0, index) == 0 ==> forall|k: int| data_start(p0) <= k < PAGE_SIZE ==> p[k] == p0[k],
    ensures
        vararray_wf(p),
        vararray_view(p) == vararray_view(p0).remove(index),
{
    let n = count(p0);
    let v = vararray_view(p0).remove(index);
    let dl = entry_len(p0, index);
    let dof = entry_offs(p0, index);
    assert(in_data(p0, index));
    lemma_total_len_remove(vararray_view(p0), index);
    assert forall|j: int| 0 <= j < n - 1 implies vararray_view(p)[j] == #[trigger] v[j] && in_data(
        p,
        j,
    ) by {
        let j0 = if j < index { j } else { j + 1 };
        assert(entry_offs(p, j) == entry_offs(p, j));
        assert(in_data(p0, j0));
        assert(disjoint(p0, j0, index));
        let a = vararray_view(p)[j];
        assert(a.len() == v[j].len());
        assert forall|k: int| 0 <= k < a.len() implies a[k] == v[j][k] by {
            let k0 = entry_offs(p0, j0) + k;
            assert(v[j][k] == p0[k0]);
            if entry_offs(p0, j0) < dof && dl > 0 {
                assert(k0 < dof);
                assert(p[k0 + dl] == p0[k0]);
            }
        }
        assert(a =~= v[j]);
    }
    assert(vararray_view(p) =~= v);
    assert forall|i: int, j: int|
        0 <= i < count(p) && 0 <= j < count(p) && i != j implies #[trigger] disjoint(p, i, j) by {
        let i0 = if i < index { i } else { i + 1 };
        let j0 = if j < index { j } else { j + 1 };
        assert(entry_offs(p, i) == entry_offs(p, i));
        assert(entry_offs(p, j) == entry_offs(p, j));
        assert(disjoint(p0, i0, j0));
        assert(disjoint(p0, i0, index));
        assert(disjoint(p0, j0, index));
    }
    assert forall|j: int| 0 <= j < count(p) implies #[trigger] in_data(p, j) by {
        assert(v[j] == v[j]);
    }
}

/// Takes the entry at `index` out, moving the entries behind it one place down.
pub fn delete_vararray_entry(page: &mut PageData, index: usize)
    requires
        vararray_wf(old(page)@),
        index < vararray_view(old(page)@).len(),
    ensures
        vararray_wf(final(page)@),
        vararray_view(final(page)@) == vararray_view(old(page)@).remove(index as int),
        forall|i: int| 0 <= i < 32 ==> final(page)@[i] == old(page)@[i],
{
    let ghost p0 = page@;
    let ghost n = count(p0);
    let total_entries: usize = get_num_vararray_entries(page);
    proof {
        assert(in_data(p0, index as int));
    }
    let deleted_entry_offs: usize = get_u16(page, OFFSETS_LOC + index * OFFSETS_ENTRY_SIZE) as usize;
    let deleted_entry_len: usize = get_u16(
        page,
        OFFSETS_LOC + index * OFFSETS_ENTRY_SIZE + 2,
    ) as usize;
    let ghost dof = deleted_entry_offs as int;
    let ghost dl = deleted_entry_len as int;

    // Remove this index entry and slide the other ones up to take the place
    let index_offs: usize = OFFSETS_LOC + index * OFFSETS_ENTRY_SIZE;
    move_within(
        page,
        index_offs + OFFSETS_ENTRY_SIZE,
        OFFSETS_LOC + total_entries * OFFSETS_ENTRY_SIZE,
        index_offs,
    );
    let ghost pm = page@;
    set_u16(page, NUM_ENTRIES_FIELD_OFFS, total_entries as u16 - 1);
    let ghost pa = page@;
    assert forall|j: int| 0 <= j < n - 1 implies #[trigger] entry_offs(pa, j) == entry_offs(
        p0,
        if j < index { j } else { j + 1 },
    ) && entry_len(pa, j) == entry_len(p0, if j < index { j } else { j + 1 }) by {
        lemma_place_frame(pm, 34, le16_bytes((n - 1) as u16), j);
        if j < index {
            lemma_place_frame(p0, 36 + index * 4, p0.subrange(36 + index * 4 + 4, 36 + n * 4), j);
        }
    }
    assert(forall|k: int| 36 + n * 4 <= k < PAGE_SIZE ==> pa[k] == p0[k]);
    assert(forall|k: int| 0 <= k < 34 ==> pa[k] == p0[k]);

    // Now move all the entry data down so there are no gaps
    let old_data_start: usize = get_u16(page, DATA_START_FIELD_OFFS) as usize;
    if deleted_entry_len > 0 {
        move_within(
            page,
            old_data_start,
            deleted_entry_offs,
            old_data_start + deleted_entry_len,
        );
    }
    let ghost p1 = page@;
    assert forall|j: int| 0 <= j < n - 1 implies #[trigger] entry_offs(p1, j) == entry_offs(pa, j)
        && entry_len(p1, j) == entry_len(pa, j) by {
        if dl > 0 {
            lemma_place_frame(pa, old_data_start + dl, pa.subrange(old_data_start as int, dof), j);
        }
    }
    assert(forall|k: int| 0 <= k < 36 ==> p1[k] == pa[k]);

    // Walk through the remaining index, adjust offsets of anything that was
    // before the deleted entry.
    let mut i: usize = 0;
    while i < total_entries - 1
        invariant
            i <= total_entries - 1,
            total_entries == n,
            36 + n * 4 <= PAGE_SIZE,
            p1.len() == PAGE_SIZE,
            deleted_entry_offs == dof,
            deleted_entry_len == dl,
            dof + dl <= PAGE_SIZE,
            forall|j: int|
                0 <= j < n - 1 ==> #[trigger] entry_offs(page@, j) == (if j < i && entry_offs(p1, j)
                    < dof {
                    entry_offs(p1, j) + dl
                } else {
                    entry_offs(p1, j)
                }) && entry_len(page@, j) == entry_len(p1, j),
            forall|k: int| 0 <= k < 36 ==> page@[k] == p1[k],
            forall|k: int| 36 + 4 * (n - 1) <= k < PAGE_SIZE ==> page@[k] == p1[k],
        decreases total_entries - i,
    {
        let ghost pb = page@;
        let old_offs: usize = get_u16(page, OFFSETS_LOC + i * OFFSETS_ENTRY_SIZE) as usize;
        assert(old_offs == entry_offs(pb, i as int));
        if old_offs < deleted_entry_offs {
            let new_offs: u16 = (old_offs + deleted_entry_len) as u16;
            set_u16(page, OFFSETS_LOC + i * OFFSETS_ENTRY_SIZE, new_offs);
            proof {
                let b = le16_bytes(new_offs);
                assert forall|j: int| 0 <= j < n - 1 implies #[trigger] entry_offs(page@, j) == (
                if j == i {
                    old_offs + dl
                } else {
                    entry_offs(pb, j)
                }) && entry_len(page@, j) == entry_len(pb, j) by {
                    if j == i {
                        lemma_le16_frame(pb, 36 + i * 4, b, 36 + j * 4 + 2);
                    } else {
                        lemma_place_frame(pb, 36 + i * 4, b, j);
                    }
                }
            }
        }
        i = i + 1;
    }
    let ghost p2 = page@;

    // Adjust the new start of data
    set_u16(page, DATA_START_FIELD_OFFS, (old_data_start + deleted_entry_len) as u16);
    let ghost p = page@;
    proof {
        let b = le16_bytes((old_data_start + dl) as u16);
        assert forall|j: int| 0 <= j < n - 1 implies #[trigger] entry_offs(p, j) == entry_offs(
            p2,
            j,
        ) && entry_len(p, j) == entry_len(p2, j) by {
            lemma_place_frame(p2, 32, b, j);
        }
        lemma_le16_frame(p2, 32, b, 34);
        assert(count(p) == n - 1);
        assert(table_removed(p0, p, index as int)) by {
            assert forall|j: int| 0 <= j < count(p0) - 1 implies #[trigger] entry_offs(p, j) == ({
                let o = entry_offs(p0, if j < index { j } else { j + 1 });
                if o < dof { o + dl } else { o }
            }) && entry_len(p, j) == entry_len(p0, if j < index { j } else { j + 1 }) by {
                assert(entry_offs(p2, j) == entry_offs(p, j));
                assert(entry_offs(p1, j) == entry_offs(pa, j));
            }
        }
        let ds = data_start(p0);
        assert(forall|k: int| ds <= k < PAGE_SIZE ==> p[k] == p1[k]);
        assert(forall|k: int|
            dl > 0 && ds <= k < dof ==> #[trigger] p1[k + dl] == pa[k]);
        assert forall|k: int| dl > 0 && ds <= k < dof implies #[trigger] p[k + dl] == p0[k] by {
            assert(p1[k + dl] == pa[k]);
        }
        lemma_removed(p0, p, index as int);
    }
}

/// The entry at `index`.
pub fn get_vararray_entry(page: &PageData, index: usize) -> (entry: &[u8])
    requires
        vararray_wf(page@),
        index < vararray_view(page@).len(),
    ensures
        entry@ == vararray_view(page@)[index as int],
{
    proof {
        assert(in_data(page@, index as int));
    }
    let offset: usize = get_u16(page, OFFSETS_LOC + index * OFFSETS_ENTRY_SIZE) as usize;
    let length: usize = get_u16(page, OFFSETS_LOC + index * OFFSETS_ENTRY_SIZE + 2) as usize;
    vstd::slice::slice_subrange(page, offset, offset + length)
}

/// An empty page has room for 8156 bytes, and an entry takes its own bytes and four more.
pub proof fn law_entries_take_their_room(entries: Seq<Seq<u8>>, index: int, value: Seq<u8>)
    requires
        0 <= index <= entries.len(),
    ensures
        free_space(Seq::empty()) == 8156,
        free_space(entries.insert(index, value)) == free_space(entries) - value.len() - 4,
{
    lemma_total_len_insert(entries, index, value);
}

/// The number of entries stands in bytes 34 and 35, the start of the data in bytes 32 and 33, and
/// from byte 36 on the place and the length of each entry. The data reach to the end of the page.
pub proof fn law_layout_of_an_array(p: Seq<u8>, i: int)
    requires
        vararray_wf(p),
    ensures
        vararray_view(p).len() == le16(p, 34),
        le16(p, 32) + total_len(vararray_view(p)) == 8192,
        0 <= i < vararray_view(p).len() ==> {
            let at = le16(p, 36 + 4 * i);
            let entry = vararray_view(p)[i];
            &&& entry.len() == le16(p, 38 + 4 * i)
            &&& at + entry.len() <= 8192
            &&& forall|k: int| 0 <= k < entry.len() ==> #[trigger] entry[k] == p[at + k]
        },
{
    if 0 <= i < vararray_view(p).len() {
        assert(in_data(p, i));
    }
}

} // verus!
