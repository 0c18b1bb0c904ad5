//! The nodes of a B-tree, one to a page. The entries stand in a variable
//! length array, the links to other nodes in its header.
//!
//! Each entry is:
//!
//! ```text
//! key_length: u16
//! key: variable length
//! value: variable length
//! ```
//!
//! The value length is inferred based on the record length.

use vstd::prelude::*;

use crate::key_order::{
    ascending, group_lex_order, key_less, lemma_rank, lemma_rank_unique, lex_le, lex_lt, rank,
};
use crate::page_cache::{
    decode_page_num, page_num_view, PageData, PageNum, PageNumOptionExt, INVALID_PAGE, PAGE_SIZE,
};
use crate::util::{get_u16, get_u64, le16, le16_bytes, le64, lemma_le16_roundtrip, set_u16, set_u64};
use crate::vararray::{
    delete_vararray_entry, free_space, get_num_vararray_entries, get_vararray_entry,
    get_vararray_free_space, init_vararray, insert_vararray_entry, lemma_entry_fits,
    lemma_header_is_opaque, total_len, vararray_view, vararray_wf,
};

verus! {

pub const HEADER_NEXT_SIB_OFFS: usize = 8;

pub const HEADER_PREV_SIB_OFFS: usize = 16;

pub const HEADER_RIGHT_CHILD_OFFS: usize = 24;

/// A quarter of a page, less a little padding for safety.
pub const MAX_RECORD_SIZE: usize = (PAGE_SIZE - 32) / 4 - 16;

/// The bytes of a node that entries can take.
pub const NODE_CAPACITY: usize = PAGE_SIZE - 36;

pub const FLAG_LEAF: u8 = 1;

#[verifier::ext_equal]
pub struct Entry {
    pub key: Seq<u8>,
    pub value: Seq<u8>,
}

/// What a page holds that is a node.
#[verifier::ext_equal]
pub struct Node {
    pub leaf: bool,
    pub next: Option<u64>,
    pub prev: Option<u64>,
    pub right: Option<u64>,
    pub entries: Seq<Entry>,
}

pub open spec fn keys_of(entries: Seq<Entry>) -> Seq<Seq<u8>> {
    entries.map_values(|entry: Entry| entry.key)
}

/// The bytes that an entry takes of a node: those of the key and the value,
/// two for the length of the key, and four for its place in the array.
pub open spec fn entry_size(entry: Entry) -> nat {
    entry.key.len() + entry.value.len() + 6
}

pub open spec fn entries_size(entries: Seq<Entry>) -> nat
    decreases entries.len(),
{
    if entries.len() == 0 {
        0
    } else {
        entries_size(entries.drop_last()) + entry_size(entries.last())
    }
}

/// The record that stands for an entry.
pub open spec fn entry_bytes(entry: Entry) -> Seq<u8> {
    le16_bytes(entry.key.len() as u16) + entry.key + entry.value
}

spec fn parse_entry(record: Seq<u8>) -> Entry {
    let key_len = le16(record, 0);
    Entry {
        key: record.subrange(2, 2 + key_len),
        value: record.subrange(2 + key_len, record.len() as int),
    }
}

spec fn parseable(record: Seq<u8>) -> bool {
    record.len() >= 2 && 2 + le16(record, 0) <= record.len()
}

/// The page holds an array of records, each of which is an entry.
pub closed spec fn node_wf(p: Seq<u8>) -> bool {
    &&& vararray_wf(p)
    &&& forall|i: int| 0 <= i < vararray_view(p).len() ==> parseable(#[trigger] vararray_view(p)[i])
}

pub closed spec fn node(p: Seq<u8>) -> Node {
    Node {
        leaf: (p[0] & FLAG_LEAF) != 0,
        next: decode_page_num(le64(p, HEADER_NEXT_SIB_OFFS as int)),
        prev: decode_page_num(le64(p, HEADER_PREV_SIB_OFFS as int)),
        right: decode_page_num(le64(p, HEADER_RIGHT_CHILD_OFFS as int)),
        entries: vararray_view(p).map_values(|record: Seq<u8>| parse_entry(record)),
    }
}

proof fn lemma_parse(entry: Entry)
    requires
        entry.key.len() <= u16::MAX,
    ensures
        parseable(entry_bytes(entry)),
        parse_entry(entry_bytes(entry)) == entry,
        entry_bytes(entry).len() == entry_size(entry) - 4,
{
    let record = entry_bytes(entry);
    lemma_le16_roundtrip(entry.key.len() as u16);
    let len = le16_bytes(entry.key.len() as u16);
    assert(record[0] == len[0] && record[1] == len[1]);
    assert(parse_entry(record).key =~= entry.key);
    assert(parse_entry(record).value =~= entry.value);
}

proof fn lemma_records_size(records: Seq<Seq<u8>>)
    requires
        forall|i: int| 0 <= i < records.len() ==> parseable(#[trigger] records[i]),
    ensures
        total_len(records) + 4 * records.len() == entries_size(
            records.map_values(|record: Seq<u8>| parse_entry(record)),
        ),
    decreases records.len(),
{
    let entries = records.map_values(|record: Seq<u8>| parse_entry(record));
    if records.len() > 0 {
        assert(entries.drop_last() =~= records.drop_last().map_values(
            |record: Seq<u8>| parse_entry(record),
        ));
        assert(parseable(records[records.len() - 1]));
        lemma_records_size(records.drop_last());
    }
}

/// The free space of a node is what its entries leave.
pub proof fn lemma_node_space(p: Seq<u8>)
    requires
        node_wf(p),
    ensures
        free_space(vararray_view(p)) == NODE_CAPACITY - entries_size(node(p).entries),
        entries_size(node(p).entries) <= NODE_CAPACITY,
        vararray_view(p).len() == node(p).entries.len(),
{
    lemma_records_size(vararray_view(p));
    if vararray_view(p).len() > 0 {
        lemma_entry_fits(p, 0);
    }
}

pub proof fn lemma_entries_size_concat(a: Seq<Entry>, b: Seq<Entry>)
    ensures
        entries_size(a + b) == entries_size(a) + entries_size(b),
    decreases b.len(),
{
    if b.len() == 0 {
        assert(a + b =~= a);
    } else {
        assert((a + b).drop_last() =~= a + b.drop_last());
        lemma_entries_size_concat(a, b.drop_last());
    }
}

/// The entries up to a place, the one there, and those after it add up.
pub proof fn lemma_entries_size_insert(entries: Seq<Entry>, at: int, entry: Entry)
    requires
        0 <= at <= entries.len(),
    ensures
        entries_size(entries.insert(at, entry)) == entries_size(entries) + entry_size(entry),
{
    let more = entries.insert(at, entry);
    lemma_entries_size_split(entries, at);
    lemma_entries_size_split(more, at + 1);
    assert(more.take(at + 1).drop_last() =~= entries.take(at));
    assert(more.skip(at + 1) =~= entries.skip(at));
}

pub proof fn lemma_entries_size_split(entries: Seq<Entry>, at: int)
    requires
        0 <= at <= entries.len(),
    ensures
        entries_size(entries) == entries_size(entries.take(at)) + entries_size(entries.skip(at)),
{
    assert(entries =~= entries.take(at) + entries.skip(at));
    lemma_entries_size_concat(entries.take(at), entries.skip(at));
}

/// Two pages with the same array, and an array that is well formed for both.
proof fn lemma_same_array(p: Seq<u8>, q: Seq<u8>)
    requires
        p.len() == q.len() == PAGE_SIZE,
        forall|i: int| 32 <= i < PAGE_SIZE ==> p[i] == q[i],
    ensures
        node_wf(p) ==> node_wf(q) && node(q).entries == node(p).entries,
{
    if node_wf(p) {
        lemma_header_is_opaque(p, q);
    }
}

/// Creates an empty node.
pub fn init_btree_node(page: &mut PageData)
    ensures
        node_wf(final(page)@),
        node(final(page)@) == (Node {
            leaf: true,
            next: None,
            prev: None,
            right: None,
            entries: Seq::empty(),
        }),
{
    init_vararray(page);
    assert(node(page@).entries =~= Seq::<Entry>::empty());
    assert(node_wf(page@));
    set_leaf(page);
    set_next_sib(page, None);
    set_prev_sib(page, None);
    set_right_child(page, None);
}

pub fn is_leaf(page: &PageData) -> (leaf: bool)
    ensures
        leaf == node(page@).leaf,
{
    (page[0] & FLAG_LEAF) != 0
}

pub fn set_leaf(page: &mut PageData)
    ensures
        node_wf(old(page)@) ==> node_wf(final(page)@) && node(final(page)@) == (Node {
            leaf: true,
            ..node(old(page)@)
        }),
{
    let flags: u8 = page[0];
    assert((flags | 1u8) & 1u8 != 0) by (bit_vector);
    page[0] = flags | FLAG_LEAF;
    proof {
        lemma_same_array(old(page)@, page@);
        assert(old(page)@.len() == PAGE_SIZE);
        lemma_same_header(old(page)@, page@, 8);
        lemma_same_header(old(page)@, page@, 16);
        lemma_same_header(old(page)@, page@, 24);
    }
}

proof fn lemma_same_header(p: Seq<u8>, q: Seq<u8>, offs: int)
    requires
        forall|i: int| offs <= i < offs + 8 ==> p[i] == q[i],
    ensures
        le64(p, offs) == le64(q, offs),
{
}

pub fn set_not_leaf(page: &mut PageData)
    ensures
        node_wf(old(page)@) ==> node_wf(final(page)@) && node(final(page)@) == (Node {
            leaf: false,
            ..node(old(page)@)
        }),
{
    let flags: u8 = page[0];
    assert((flags & !1u8) & 1u8 == 0) by (bit_vector);
    page[0] = flags & !FLAG_LEAF;
    proof {
        lemma_same_array(old(page)@, page@);
        lemma_same_header(old(page)@, page@, 8);
        lemma_same_header(old(page)@, page@, 16);
        lemma_same_header(old(page)@, page@, 24);
    }
}

pub fn get_next_sib(page: &PageData) -> (num: Option<PageNum>)
    ensures
        page_num_view(num) == node(page@).next,
{
    PageNum::from_encoded(get_u64(page, HEADER_NEXT_SIB_OFFS))
}

pub fn set_next_sib(page: &mut PageData, page_num: Option<PageNum>)
    requires
        page_num_view(page_num) != Some(INVALID_PAGE),
    ensures
        node_wf(old(page)@) ==> node_wf(final(page)@) && node(final(page)@) == (Node {
            next: page_num_view(page_num),
            ..node(old(page)@)
        }),
{
    set_u64(page, HEADER_NEXT_SIB_OFFS, page_num.to_encoded());
    proof {
        lemma_same_array(old(page)@, page@);
        lemma_same_header(old(page)@, page@, 16);
        lemma_same_header(old(page)@, page@, 24);
    }
}

pub fn get_prev_sib(page: &PageData) -> (num: Option<PageNum>)
    ensures
        page_num_view(num) == node(page@).prev,
{
    PageNum::from_encoded(get_u64(page, HEADER_PREV_SIB_OFFS))
}

pub fn set_prev_sib(page: &mut PageData, page_num: Option<PageNum>)
    requires
        page_num_view(page_num) != Some(INVALID_PAGE),
    ensures
        node_wf(old(page)@) ==> node_wf(final(page)@) && node(final(page)@) == (Node {
            prev: page_num_view(page_num),
            ..node(old(page)@)
        }),
{
    set_u64(page, HEADER_PREV_SIB_OFFS, page_num.to_encoded());
    proof {
        lemma_same_array(old(page)@, page@);
        lemma_same_header(old(page)@, page@, 8);
        lemma_same_header(old(page)@, page@, 24);
    }
}

pub fn get_right_child(page: &PageData) -> (num: Option<PageNum>)
    ensures
        page_num_view(num) == node(page@).right,
{
    PageNum::from_encoded(get_u64(page, HEADER_RIGHT_CHILD_OFFS))
}

pub fn set_right_child(page: &mut PageData, page_num: Option<PageNum>)
    requires
        page_num_view(page_num) != Some(INVALID_PAGE),
    ensures
        node_wf(old(page)@) ==> node_wf(final(page)@) && node(final(page)@) == (Node {
            right: page_num_view(page_num),
            ..node(old(page)@)
        }),
{
    set_u64(page, HEADER_RIGHT_CHILD_OFFS, page_num.to_encoded());
    proof {
        lemma_same_array(old(page)@, page@);
        lemma_same_header(old(page)@, page@, 8);
        lemma_same_header(old(page)@, page@, 16);
    }
}

/// How many bytes of a node an entry takes.
pub fn get_entry_size(key: &[u8], value: &[u8]) -> (size: usize)
    requires
        key@.len() + value@.len() + 6 <= usize::MAX,
    ensures
        size == entry_size(Entry { key: key@, value: value@ }),
{
    // 2 bytes for the index table entry (in vararray)
    // 2 bytes for the entry length (in vararray)
    // 2 bytes for the key length
    key.len() + value.len() + 6
}

/// How many entries a node has.
pub fn get_num_entries(page: &PageData) -> (num: usize)
    requires
        node_wf(page@),
    ensures
        num == node(page@).entries.len(),
{
    get_num_vararray_entries(page)
}

/// How many bytes of a node are left for entries.
pub fn get_free_space(page: &PageData) -> (space: usize)
    requires
        node_wf(page@),
    ensures
        space == NODE_CAPACITY - entries_size(node(page@).entries),
{
    proof {
        lemma_node_space(page@);
    }
    get_vararray_free_space(page)
}

pub fn get_entry_key(page: &PageData, rec_num: usize) -> (key: &[u8])
    requires
        node_wf(page@),
        rec_num < node(page@).entries.len(),
    ensures
        key@ == node(page@).entries[rec_num as int].key,
{
    assert(parseable(vararray_view(page@)[rec_num as int]));
    let rec = get_vararray_entry(page, rec_num);
    let key_len: usize = get_u16(rec, 0) as usize;
    vstd::slice::slice_subrange(rec, 2, 2 + key_len)
}

pub fn get_entry_value(page: &PageData, rec_num: usize) -> (value: &[u8])
    requires
        node_wf(page@),
        rec_num < node(page@).entries.len(),
    ensures
        value@ == node(page@).entries[rec_num as int].value,
{
    assert(parseable(vararray_view(page@)[rec_num as int]));
    let rec = get_vararray_entry(page, rec_num);
    let key_len: usize = get_u16(rec, 0) as usize;
    vstd::slice::slice_subrange(rec, 2 + key_len, rec.len())
}

/// Returns an index into the array:
/// - If there is an exact match, the index of the matching entry.
/// - If there is not an exact match, the index of the smallest key that is
///   larger than the search key (i.e. where this would be inserted).
/// - If the search key is lower than the lowest key, 0.
/// - If it is higher than the highest key, the number of entries in the table.
pub fn find_key(page: &PageData, key: &[u8]) -> (index: usize)
    requires
        node_wf(page@),
        ascending(keys_of(node(page@).entries)),
        key@.len() > 0,
    ensures
        index == rank(keys_of(node(page@).entries), key@),
        index <= node(page@).entries.len(),
{
    let ghost keys = keys_of(node(page@).entries);
    let mut low: usize = 0;
    let mut high: usize = get_num_entries(page);
    proof {
        lemma_node_space(page@);
        lemma_entries_many(node(page@).entries);
        lemma_rank(keys, key@);
    }
    while low < high
        invariant
            node_wf(page@),
            keys == keys_of(node(page@).entries),
            0 <= low <= rank(keys, key@) <= high <= keys.len(),
            keys.len() <= NODE_CAPACITY,
            forall|i: int| 0 <= i < rank(keys, key@) ==> lex_lt(#[trigger] keys[i], key@),
            forall|i: int| rank(keys, key@) <= i < keys.len() ==> lex_le(key@, #[trigger] keys[i]),
        decreases high - low,
    {
        broadcast use group_lex_order;

        let mid: usize = (low + high) / 2;
        let mid_key = get_entry_key(page, mid);
        assert(mid_key@ == keys[mid as int]);
        if key_less(mid_key, key) {
            low = mid + 1;
        } else {
            high = mid;
        }
    }
    low
}

/// Each entry takes some bytes.
pub proof fn lemma_entries_many(entries: Seq<Entry>)
    ensures
        6 * entries.len() <= entries_size(entries),
    decreases entries.len(),
{
    if entries.len() > 0 {
        lemma_entries_many(entries.drop_last());
    }
}

/// The record for a key and a value.
fn make_entry(key: &[u8], value: &[u8]) -> (entry: Vec<u8>)
    requires
        key@.len() <= u16::MAX,
        key@.len() + value@.len() <= NODE_CAPACITY,
    ensures
        entry@ == entry_bytes(Entry { key: key@, value: value@ }),
{
    let mut header: [u8; 2] = [0;2];
    set_u16(&mut header, 0, key.len() as u16);
    assert(header@ =~= le16_bytes(key@.len() as u16));
    let mut entry: Vec<u8> = Vec::with_capacity(key.len() + value.len() + 2);
    entry.extend_from_slice(&header);
    entry.extend_from_slice(key);
    entry.extend_from_slice(value);
    assert(entry@ =~= entry_bytes(Entry { key: key@, value: value@ }));
    entry
}

/// Puts a record for an entry at a given place.
fn put_entry(page: &mut PageData, index: usize, key: &[u8], value: &[u8])
    requires
        node_wf(old(page)@),
        index <= node(old(page)@).entries.len(),
        entries_size(node(old(page)@).entries) + entry_size(Entry { key: key@, value: value@ })
            <= NODE_CAPACITY,
    ensures
        node_wf(final(page)@),
        node(final(page)@) == (Node {
            entries: node(old(page)@).entries.insert(
                index as int,
                Entry { key: key@, value: value@ },
            ),
            ..node(old(page)@)
        }),
{
    let ghost p = page@;
    let ghost new = Entry { key: key@, value: value@ };
    proof {
        lemma_node_space(p);
        lemma_parse(new);
    }
    let entry = make_entry(key, value);
    insert_vararray_entry(page, index, &entry);
    proof {
        assert forall|i: int| 0 <= i < vararray_view(page@).len() implies parseable(
            #[trigger] vararray_view(page@)[i],
        ) by {
            if i < index {
                assert(parseable(vararray_view(p)[i]));
            } else if i > index {
                assert(parseable(vararray_view(p)[i - 1]));
            }
        }
        assert(node(page@).entries =~= node(p).entries.insert(index as int, new));
        lemma_same_header(p, page@, 8);
        lemma_same_header(p, page@, 16);
        lemma_same_header(p, page@, 24);
    }
}

/// Inserts an entry into a single page, in the order of the keys.
pub fn insert_entry(page: &mut PageData, key: &[u8], value: &[u8])
    requires
        node_wf(old(page)@),
        ascending(keys_of(node(old(page)@).entries)),
        key@.len() > 0,
        key@.len() + value@.len() < MAX_RECORD_SIZE,
        entries_size(node(old(page)@).entries) + entry_size(Entry { key: key@, value: value@ })
            <= NODE_CAPACITY,
        !keys_of(node(old(page)@).entries).contains(key@),
    ensures
        node_wf(final(page)@),
        node(final(page)@) == (Node {
            entries: node(old(page)@).entries.insert(
                rank(keys_of(node(old(page)@).entries), key@),
                Entry { key: key@, value: value@ },
            ),
            ..node(old(page)@)
        }),
{
    let index: usize = find_key(page, key);
    put_entry(page, index, key, value);
}

/// Helper function to add an entry behind all others. This assumes the entry
/// is added in order. It also assumes there is adequate space in the page.
/// Returns the entry size.
pub fn append_entry(page: &mut PageData, key: &[u8], value: &[u8]) -> (size: usize)
    requires
        node_wf(old(page)@),
        entries_size(node(old(page)@).entries) + entry_size(Entry { key: key@, value: value@ })
            <= NODE_CAPACITY,
    ensures
        node_wf(final(page)@),
        node(final(page)@) == (Node {
            entries: node(old(page)@).entries.push(Entry { key: key@, value: value@ }),
            ..node(old(page)@)
        }),
        size == entry_size(Entry { key: key@, value: value@ }),
{
    let num_entries: usize = get_num_entries(page);
    put_entry(page, num_entries, key, value);
    assert(node(old(page)@).entries.insert(num_entries as int, Entry { key: key@, value: value@ })
        =~= node(old(page)@).entries.push(Entry { key: key@, value: value@ }));
    get_entry_size(key, value)
}

/// Removes an entry.
pub fn delete_entry(page: &mut PageData, index: usize)
    requires
        node_wf(old(page)@),
        index < node(old(page)@).entries.len(),
    ensures
        node_wf(final(page)@),
        node(final(page)@) == (Node {
            entries: node(old(page)@).entries.remove(index as int),
            ..node(old(page)@)
        }),
{
    let ghost p = page@;
    delete_vararray_entry(page, index);
    proof {
        assert forall|i: int| 0 <= i < vararray_view(page@).len() implies parseable(
            #[trigger] vararray_view(page@)[i],
        ) by {
            if i < index {
                assert(parseable(vararray_view(p)[i]));
            } else {
                assert(parseable(vararray_view(p)[i + 1]));
            }
        }
        assert(node(page@).entries =~= node(p).entries.remove(index as int));
        lemma_same_header(p, page@, 8);
        lemma_same_header(p, page@, 16);
        lemma_same_header(p, page@, 24);
    }
}

/// How many entries the first part of a node that is split may get, so that one
/// is left for the second part. An interior node also gives one to its parent.
pub open spec fn split_limit(n: Node) -> int {
    if n.leaf || n.entries.len() < 3 {
        n.entries.len() - 1
    } else {
        n.entries.len() - 2
    }
}

/// Where the first part of a node ends that is split: as soon as it takes half
/// a page, but so that one entry is left.
pub open spec fn split_point(n: Node) -> int {
    split_from(n.entries, 0, split_limit(n))
}

pub open spec fn split_from(entries: Seq<Entry>, at: int, limit: int) -> int
    decreases limit - at,
{
    if entries_size(entries.take(at)) >= PAGE_SIZE / 2 || at >= limit {
        at
    } else {
        split_from(entries, at + 1, limit)
    }
}

/// The key that parts the two halves of a node that is split. In a leaf it is
/// the highest key of the left half; in an interior node it leaves the node.
pub open spec fn split_key(n: Node) -> Seq<u8> {
    let at = split_point(n);
    if n.leaf {
        n.entries[at - 1].key
    } else {
        n.entries[at].key
    }
}

pub open spec fn split_left(n: Node) -> Node {
    let at = split_point(n);
    Node {
        leaf: true,
        next: None,
        prev: None,
        right: if n.leaf {
            None
        } else {
            decode_page_num(le64(n.entries[at].value, 0))
        },
        entries: n.entries.take(at),
    }
}

pub open spec fn split_right(n: Node) -> Node {
    let at = split_point(n);
    Node {
        leaf: true,
        next: None,
        prev: None,
        right: n.right,
        entries: n.entries.skip(if n.leaf {
            at
        } else {
            at + 1
        }),
    }
}

/// Copies entries to the end of another node.
fn copy_entries(orig: &PageData, start: usize, end: usize, out: &mut PageData)
    requires
        node_wf(orig@),
        start <= end <= node(orig@).entries.len(),
        node_wf(old(out)@),
        node(old(out)@).entries.len() == 0,
    ensures
        node_wf(final(out)@),
        node(final(out)@) == (Node {
            entries: node(orig@).entries.subrange(start as int, end as int),
            ..node(old(out)@)
        }),
{
    let ghost entries = node(orig@).entries;
    let ghost out0 = node(out@);
    let mut index: usize = start;
    assert(entries.subrange(start as int, start as int) =~= out0.entries);
    while index < end
        invariant
            node_wf(orig@),
            entries == node(orig@).entries,
            start <= index <= end <= entries.len(),
            node_wf(out@),
            node(out@) == (Node {
                entries: entries.subrange(start as int, index as int),
                ..out0
            }),
        decreases end - index,
    {
        proof {
            lemma_node_space(orig@);
            let done = entries.subrange(start as int, index as int);
            lemma_entries_size_split(entries, start as int);
            lemma_entries_size_split(entries.skip(start as int), index - start);
            assert(entries.skip(start as int).take(index - start) =~= done);
            let rest = entries.skip(start as int).skip(index - start);
            lemma_entries_size_split(rest, 1);
            assert(rest.take(1) =~= seq![entries[index as int]]);
            assert(rest.take(1).drop_last() =~= Seq::<Entry>::empty());
            assert(entries.subrange(start as int, index + 1) =~= done.push(entries[index as int]));
        }
        append_entry(out, get_entry_key(orig, index), get_entry_value(orig, index));
        index = index + 1;
    }
}

/// Splits a single page into two new ones. Returns the separator key.
/// The caller must set the links of the two to their siblings, and take the
/// leaf flag away if need be.
pub fn split_node(orig: &PageData, out1: &mut PageData, out2: &mut PageData) -> (separator: Vec<u8>)
    requires
        node_wf(orig@),
        node(orig@).entries.len() >= 2,
        node(orig@).right != Some(INVALID_PAGE),
        !node(orig@).leaf ==> forall|i: int|
            0 <= i < node(orig@).entries.len() ==> (
            #[trigger] node(orig@).entries[i]).value.len() == 8,
    ensures
        node_wf(final(out1)@),
        node_wf(final(out2)@),
        node(final(out1)@) == split_left(node(orig@)),
        node(final(out2)@) == split_right(node(orig@)),
        separator@ == split_key(node(orig@)),
        0 < split_point(node(orig@)) < node(orig@).entries.len(),
        node(final(out1)@).entries.len() > 0,
        node(orig@).leaf || node(orig@).entries.len() >= 3 ==> node(final(out2)@).entries.len() > 0,
{
    init_btree_node(out1);
    init_btree_node(out2);
    let ghost n = node(orig@);

    // Copy out entries from the orig into out1 until we have just over half.
    // then continue copying into out2.
    let orig_entries: usize = get_num_entries(orig);
    let mut orig_index: usize = 0;
    let mut bytes_copied: usize = 0;
    proof {
        lemma_node_space(orig@);
        assert(n.entries.take(0) =~= Seq::<Entry>::empty());
    }

    // Count the entries for out1. Ensure we leave at least one entry to copy into
    // out2, besides the separator that an interior node gives to its parent.
    let limit: usize = if is_leaf(orig) || orig_entries < 3 {
        orig_entries - 1
    } else {
        orig_entries - 2
    };
    while bytes_copied < PAGE_SIZE / 2 && orig_index < limit
        invariant
            node_wf(orig@),
            n == node(orig@),
            orig_entries == n.entries.len(),
            limit == split_limit(n),
            0 < limit < orig_entries,
            orig_index <= limit,
            entries_size(n.entries) <= NODE_CAPACITY,
            bytes_copied == entries_size(n.entries.take(orig_index as int)),
            split_point(n) == split_from(n.entries, orig_index as int, limit as int),
            orig_index == 0 ==> bytes_copied == 0,
        decreases limit - orig_index,
    {
        proof {
            let more = n.entries.take(orig_index + 1);
            assert(more.drop_last() =~= n.entries.take(orig_index as int));
            lemma_entries_size_split(n.entries, orig_index + 1);
        }
        bytes_copied = bytes_copied + get_entry_size(
            get_entry_key(orig, orig_index),
            get_entry_value(orig, orig_index),
        );
        orig_index = orig_index + 1;
    }
    copy_entries(orig, 0, orig_index, out1);
    assert(n.entries.subrange(0, orig_index as int) =~= n.entries.take(orig_index as int));
    let separator: Vec<u8>;
    let mut rest: usize = orig_index;
    if is_leaf(orig) {
        // Remember the separator key, which is the highest key in the left page,
        // but don't remove it.
        separator = slice_to_vec(get_entry_key(orig, orig_index - 1));
    } else {
        // Remove the separator key, which will go into the parent. Save its
        // node pointer into the right child of the left node.
        separator = slice_to_vec(get_entry_key(orig, orig_index));
        set_right_child(out1, PageNum::from_bytes(get_entry_value(orig, orig_index)));
        rest = orig_index + 1;
    }

    // Copy into out2
    copy_entries(orig, rest, orig_entries, out2);
    assert(n.entries.subrange(rest as int, orig_entries as int) =~= n.entries.skip(rest as int));
    set_right_child(out2, get_right_child(orig));
    separator
}

/// A copy of the bytes.
pub fn slice_to_vec(bytes: &[u8]) -> (copy: Vec<u8>)
    ensures
        copy@ == bytes@,
{
    let mut copy: Vec<u8> = Vec::with_capacity(bytes.len());
    copy.extend_from_slice(bytes);
    assert(copy@ =~= bytes@);
    copy
}

/// The largest size of an entry.
pub const MAX_ENTRY_SIZE: usize = MAX_RECORD_SIZE + 5;

/// Entries that are no larger than they may be take no more than that many times the largest size.
pub proof fn lemma_entries_small(entries: Seq<Entry>)
    requires
        forall|i: int|
            0 <= i < entries.len() ==> entry_size(#[trigger] entries[i]) <= MAX_ENTRY_SIZE,
    ensures
        entries_size(entries) <= MAX_ENTRY_SIZE * entries.len(),
    decreases entries.len(),
{
    if entries.len() > 0 {
        lemma_entries_small(entries.drop_last());
        assert(entry_size(entries[entries.len() - 1]) <= MAX_ENTRY_SIZE);
        let less = entries.len() - 1;
        assert(MAX_ENTRY_SIZE * (less + 1) == MAX_ENTRY_SIZE * less + MAX_ENTRY_SIZE)
            by (nonlinear_arith);
    }
}

/// Both parts of a node that is split have room for one more entry.
proof fn lemma_split_room(entries: Seq<Entry>, at: int, limit: int)
    requires
        entries_size(entries) <= NODE_CAPACITY,
        forall|i: int|
            0 <= i < entries.len() ==> entry_size(#[trigger] entries[i]) <= MAX_ENTRY_SIZE,
        0 <= at <= limit < entries.len(),
        entries.len() - 2 <= limit,
        at > 0 ==> entries_size(entries.take(at - 1)) < PAGE_SIZE / 2,
    ensures
        ({
            let s = split_from(entries, at, limit);
            &&& at <= s <= limit
            &&& entries_size(entries.take(s)) + MAX_ENTRY_SIZE <= NODE_CAPACITY
            &&& entries_size(entries.skip(s)) + MAX_ENTRY_SIZE <= NODE_CAPACITY
            &&& entries_size(entries.skip(s + 1)) + MAX_ENTRY_SIZE <= NODE_CAPACITY
        }),
    decreases limit - at,
{
    let size = entries_size(entries.take(at));
    if at > 0 {
        assert(entries.take(at).drop_last() =~= entries.take(at - 1));
        assert(entry_size(entries[at - 1]) <= MAX_ENTRY_SIZE);
    } else {
        assert(entries.take(0) =~= Seq::<Entry>::empty());
    }
    lemma_entries_size_split(entries, at);
    let rest = entries.skip(at);
    lemma_entries_size_split(rest, 1);
    assert(rest.skip(1) =~= entries.skip(at + 1));
    if size >= PAGE_SIZE / 2 {
    } else if at >= limit {
        assert forall|i: int| 0 <= i < rest.len() implies entry_size(#[trigger] rest[i])
            <= MAX_ENTRY_SIZE by {
            assert(rest[i] == entries[at + i]);
        }
        lemma_entries_small(rest);
        assert(MAX_ENTRY_SIZE * rest.len() <= MAX_ENTRY_SIZE * 2) by (nonlinear_arith)
            requires
                rest.len() <= 2,
        ;
    } else {
        assert(entries.take(at + 1 - 1) =~= entries.take(at));
        lemma_split_room(entries, at + 1, limit);
    }
}

/// The links of a node never hold the invalid page number.
pub proof fn lemma_links_valid(p: Seq<u8>)
    ensures
        node(p).next != Some(INVALID_PAGE),
        node(p).prev != Some(INVALID_PAGE),
        node(p).right != Some(INVALID_PAGE),
{
}

/// What can be done with a node: its keys are ascending and its entries are not too large.
pub open spec fn node_ok(n: Node) -> bool {
    &&& ascending(keys_of(n.entries))
    &&& forall|i: int|
        0 <= i < n.entries.len() ==> entry_size(#[trigger] n.entries[i]) <= MAX_ENTRY_SIZE
    &&& !n.leaf ==> forall|i: int|
        0 <= i < n.entries.len() ==> (#[trigger] n.entries[i]).value.len() == 8
}

/// The two parts of a node that has got one more entry and is then split at `s`.
pub open spec fn split_at(
    n: Node,
    all: Seq<Entry>,
    s: int,
    sep: Seq<u8>,
    left: Node,
    right: Node,
) -> bool {
    if n.leaf {
        &&& 0 < s < all.len()
        &&& sep == all[s - 1].key
        &&& left == (Node {
            leaf: true,
            next: None,
            prev: None,
            right: None,
            entries: all.take(s),
        })
        &&& right == (Node {
            leaf: true,
            next: None,
            prev: None,
            right: n.right,
            entries: all.skip(s),
        })
    } else {
        &&& 0 < s < all.len() - 1
        &&& sep == all[s].key
        &&& left == (Node {
            leaf: false,
            next: None,
            prev: None,
            right: decode_page_num(le64(all[s].value, 0)),
            entries: all.take(s),
        })
        &&& right == (Node {
            leaf: false,
            next: None,
            prev: None,
            right: n.right,
            entries: all.skip(s + 1),
        })
    }
}

/// On which side of the separator a key belongs, and where it stands there.
proof fn lemma_split_sides(keys: Seq<Seq<u8>>, key: Seq<u8>, p: int, skipped: int)
    requires
        ascending(keys),
        !keys.contains(key),
        0 <= p <= skipped <= keys.len(),
        skipped > 0,
    ensures
        ({
            let at = rank(keys, key);
            &&& 0 <= at <= keys.len()
            &&& lex_lt(key, keys[skipped - 1]) <==> at < skipped
            &&& at <= p ==> rank(keys.take(p), key) == at
            &&& at >= skipped ==> rank(keys.skip(skipped), key) == at - skipped
        }),
        ascending(keys.take(p)),
        ascending(keys.skip(skipped)),
        !keys.take(p).contains(key),
        !keys.skip(skipped).contains(key),
{
    broadcast use group_lex_order;

    let at = rank(keys, key);
    lemma_rank(keys, key);
    assert(keys[skipped - 1] != key) by {
        assert(keys.contains(keys[skipped - 1]));
    }
    if at <= p {
        lemma_rank_unique(keys.take(p), key, at);
    }
    if at >= skipped {
        lemma_rank_unique(keys.skip(skipped), key, at - skipped);
    }
    if keys.take(p).contains(key) {
        let i = keys.take(p).index_of(key);
        assert(keys[i] == key);
    }
    if keys.skip(skipped).contains(key) {
        let i = keys.skip(skipped).index_of(key);
        assert(keys[skipped + i] == key);
    }
}

/// Splits a page that has no room for another entry, and puts the entry into
/// one of the two parts. Returns the separator key.
#[verifier::rlimit(60)]
#[verifier::spinoff_prover]
pub fn split_insert(
    orig: &PageData,
    key: &[u8],
    value: &[u8],
    out1: &mut PageData,
    out2: &mut PageData,
) -> (result: (Vec<u8>, Ghost<int>))
    requires
        node_wf(orig@),
        node_ok(node(orig@)),
        key@.len() > 0,
        key@.len() + value@.len() < MAX_RECORD_SIZE,
        !node(orig@).leaf ==> value@.len() == 8,
        !keys_of(node(orig@).entries).contains(key@),
        entries_size(node(orig@).entries) + entry_size(Entry { key: key@, value: value@ })
            > NODE_CAPACITY,
    ensures
        node_wf(final(out1)@),
        node_wf(final(out2)@),
        split_at(
            node(orig@),
            node(orig@).entries.insert(
                rank(keys_of(node(orig@).entries), key@),
                Entry { key: key@, value: value@ },
            ),
            result.1@,
            result.0@,
            node(final(out1)@),
            node(final(out2)@),
        ),
        result.0@ == split_key(node(orig@)),
        node(final(out1)@).entries.len() > 0,
        node(final(out2)@).entries.len() > 0,
{
    let ghost n = node(orig@);
    let ghost entries = n.entries;
    let ghost keys = keys_of(entries);
    let ghost e = Entry { key: key@, value: value@ };
    let ghost at = rank(keys, key@);
    let ghost all = entries.insert(at, e);
    proof {
        lemma_entries_small(entries);
        lemma_links_valid(orig@);
        lemma_node_space(orig@);
        assert(entries.len() >= 3) by {
            let count = entries.len();
            if count < 3 {
                assert(MAX_ENTRY_SIZE * count <= MAX_ENTRY_SIZE * 2) by (nonlinear_arith)
                    requires
                        count <= 2,
                ;
            }
        }
        assert(split_limit(n) >= 1);
        lemma_split_room(entries, 0, split_limit(n));
        lemma_rank(keys, key@);
    }
    let separator = split_node(orig, out1, out2);
    let ghost p = split_point(n);
    if !is_leaf(orig) {
        set_not_leaf(out1);
        set_not_leaf(out2);
    }
    let ghost left = node(out1@);
    let ghost right = node(out2@);
    let ghost skipped = if n.leaf {
        p
    } else {
        p + 1
    };
    proof {
        lemma_split_sides(keys, key@, p, skipped);
        assert(keys_of(left.entries) =~= keys.take(p));
        assert(keys_of(right.entries) =~= keys.skip(skipped));
        assert(separator@ == keys[skipped - 1]);
    }
    if key_less(key, &separator) {
        assert(at <= p);
        insert_entry(out1, key, value);
        proof {
            let s = p + 1;
            assert(left.entries.insert(at, e) =~= all.take(s));
            if n.leaf {
                assert(right.entries =~= all.skip(s));
            } else {
                assert(right.entries =~= all.skip(s + 1));
            }
        }
        (separator, Ghost(p + 1))
    } else {
        insert_entry(out2, key, value);
        proof {
            assert(left.entries =~= all.take(p));
            assert(right.entries.insert(at - skipped, e) =~= all.skip(skipped));
        }
        (separator, Ghost(p))
    }
}

/// A page that is a node has the leaf flag in its first byte, the links to the next and the
/// previous node and to the right child from bytes 8, 16 and 24 on, and in each record the length
/// of the key before the key and the value.
pub proof fn law_layout_of_a_node(p: Seq<u8>, i: int)
    requires
        node_wf(p),
    ensures
        node(p).entries.len() == vararray_view(p).len(),
        node(p).leaf <==> p[0] % 2 == 1,
        le64(p, 8) == u64::MAX ==> node(p).next is None,
        le64(p, 8) != u64::MAX ==> node(p).next == Some(le64(p, 8) as u64),
        le64(p, 16) == u64::MAX ==> node(p).prev is None,
        le64(p, 16) != u64::MAX ==> node(p).prev == Some(le64(p, 16) as u64),
        le64(p, 24) == u64::MAX ==> node(p).right is None,
        le64(p, 24) != u64::MAX ==> node(p).right == Some(le64(p, 24) as u64),
        0 <= i < node(p).entries.len() ==> ({
            let record = vararray_view(p)[i];
            let entry = node(p).entries[i];
            &&& entry.key.len() == le16(record, 0)
            &&& record.skip(2) == entry.key + entry.value
        }),
{
    let flags = p[0];
    assert((flags & 1u8) != 0 <==> flags % 2 == 1) by (bit_vector);
    if 0 <= i < node(p).entries.len() {
        let record = vararray_view(p)[i];
        assert(parseable(record));
        assert(node(p).entries[i] == parse_entry(record));
        assert(record.skip(2) =~= parse_entry(record).key + parse_entry(record).value);
    }
}

proof fn lemma_split_from(entries: Seq<Entry>, at: int, limit: int)
    requires
        0 <= at <= limit < entries.len(),
        at > 0 ==> entries_size(entries.take(at - 1)) < 4096,
    ensures
        ({
            let s = split_from(entries, at, limit);
            &&& at <= s <= limit
            &&& s > 0 ==> entries_size(entries.take(s - 1)) < 4096
            &&& s < limit ==> entries_size(entries.take(s)) >= 4096
        }),
    decreases limit - at,
{
    if !(entries_size(entries.take(at)) >= PAGE_SIZE / 2 || at >= limit) {
        lemma_split_from(entries, at + 1, limit);
    }
}

/// A leaf that is split gives its entries to the two new ones in their order, and the key between
/// them is the last one of the left. Of another node the entry in the middle goes: its key is the
/// one between the two, and its page the right child of the left node. The left node is the first
/// to reach half a page, unless only one entry would be left for the right one.
pub proof fn law_node_is_split_in_the_middle(n: Node)
    requires
        n.entries.len() >= 2,
    ensures
        ({
            let left = split_left(n);
            let right = split_right(n);
            let len = left.entries.len() as int;
            &&& len > 0
            &&& n.leaf ==> n.entries == left.entries + right.entries && split_key(n)
                == left.entries[len - 1].key && left.right is None
            &&& !n.leaf ==> {
                let middle = n.entries[len];
                &&& n.entries == left.entries + seq![middle] + right.entries
                &&& split_key(n) == middle.key
                &&& le64(middle.value, 0) != u64::MAX ==> left.right == Some(
                    le64(middle.value, 0) as u64,
                )
            }
            &&& right.right == n.right
            &&& n.leaf || n.entries.len() > 2 ==> right.entries.len() > 0
            &&& entries_size(left.entries.drop_last()) < 4096
            &&& right.entries.len() > 1 ==> entries_size(left.entries) >= 4096
        }),
{
    let s = split_point(n);
    assert(n.entries.take(0) =~= Seq::<Entry>::empty());
    lemma_split_from(n.entries, 0, split_limit(n));
    assert(s > 0);
    let left = split_left(n);
    let right = split_right(n);
    assert(left.entries.drop_last() =~= n.entries.take(s - 1));
    if n.leaf {
        assert(n.entries =~= left.entries + right.entries);
    } else {
        assert(n.entries =~= left.entries + seq![n.entries[s]] + right.entries);
    }
}

} // verus!
