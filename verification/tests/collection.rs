use std::cell::{Cell, RefCell};
use std::collections::HashMap;
use std::rc::Rc;

use rand::rngs::SmallRng;
use rand::seq::SliceRandom;
use rand::SeedableRng;

use rustdb::collection::Collection;
use rustdb::field_path::FieldPath;
use rustdb::key_encoding::{encode_key, DocId};
use rustdb::page_allocator::PageAllocator;
use rustdb::page_cache::{PageCache, PageData, PageNum, PersistentStore, PAGE_SIZE};
use rustdb::scan::{IndexScan, SequentialScan};
use rustdb::superblock::{init_superblock, SUPERBLOCK_FPID};
use rustdb::value::{document_text, parse_document, value_equal, Number, Value};

/// A store in memory that can be shared and can be made to lose writes.
#[derive(Clone)]
struct MockPersistentStore {
    saved_pages: Rc<RefCell<HashMap<u64, PageData>>>,
    write_limit: Rc<Cell<usize>>,
}

#[allow(dead_code)]
impl MockPersistentStore {
    fn default() -> Self {
        Self {
            saved_pages: Rc::new(RefCell::new(HashMap::new())),
            write_limit: Rc::new(Cell::new(usize::MAX)),
        }
    }

    fn set_write_limit(&self, limit: usize) {
        self.write_limit.set(limit);
    }

    fn hit_write_limit(&self) -> bool {
        self.write_limit.get() == 0
    }
}

impl PersistentStore for MockPersistentStore {
    fn read(&mut self, page_num: PageNum, page: &mut PageData) {
        match self.saved_pages.borrow().get(&page_num.as_u64()) {
            Some(saved) => page.copy_from_slice(saved),
            None => page.fill(0),
        }
    }

    fn write(&mut self, page_num: PageNum, page: &PageData) {
        let limit = self.write_limit.get();
        if limit != usize::MAX && limit > 0 {
            self.write_limit.set(limit - 1);
        }

        if self.write_limit.get() == 0 {
            return;
        }

        self.saved_pages.borrow_mut().insert(page_num.as_u64(), *page);
    }

    fn sync(&mut self) {}
}

type Cache = PageCache<MockPersistentStore>;

fn json(text: &str) -> Value {
    parse_document(text.as_bytes()).expect("invalid JSON")
}

fn integer(n: i64) -> Value {
    if n < 0 {
        Value::Number(Number::NegInt(n))
    } else {
        Value::Number(Number::PosInt(n as u64))
    }
}

fn float(x: f64) -> Value {
    Value::Number(Number::Float(x.to_bits()))
}

fn string(text: &str) -> Value {
    Value::String(text.to_string())
}

fn field<'a>(document: &'a Value, name: &str) -> &'a Value {
    document.get(name).expect("missing field")
}

fn path(text: &str) -> FieldPath {
    FieldPath::new(text).unwrap()
}

fn create_document(index: usize) -> Value {
    json(&format!(
        r#"{{"index": {}, "value": "abcdefgjiklmnopqrstuvwxyz0123456789ABCDEFGHIJKLMNOPQRSTUVWXYZ"}}"#,
        index
    ))
}

fn create_collection() -> (Cache, PageAllocator, Collection) {
    create_collection_in(25)
}

fn create_collection_in(slots: usize) -> (Cache, PageAllocator, Collection) {
    let mut page_cache = PageCache::new(slots, MockPersistentStore::default());
    let transaction = page_cache.begin_transaction();
    let mut page: PageData = [0; PAGE_SIZE];
    init_superblock(&mut page);
    page_cache.write_page(PageNum::from_u64(SUPERBLOCK_FPID), &page);

    let mut allocator = PageAllocator::new(&mut page_cache);
    let collection = Collection::create("stuff", &mut page_cache, &mut allocator);
    page_cache.end_transaction(transaction);

    (page_cache, allocator, collection)
}

const ENTRIES: [&str; 7] = [
    r#"{"name": "James Smith", "age": 9, "avg": 0.160}"#,
    r#"{"name": "Edward Jones", "age": 32, "avg": 0.220}"#,
    r#"{"name": "Michael James", "age": 47, "avg": 0.116}"#,
    r#"{"name": "Adam Mitchell", "age": 103, "avg": 0.010}"#,
    r#"{"name": "Emily Davis", "age": 22, "avg": 0.305}"#,
    r#"{"name": "Madison Garcia", "age": 19, "avg": 0.250}"#,
    r#"{"name": "David Wilson", "age": 56, "avg": 0.180}"#,
];

fn populate_test_collection() -> (Cache, PageAllocator, Collection, Vec<(DocId, Value)>) {
    let (mut page_cache, mut allocator, mut collection) = create_collection();

    let transaction = page_cache.begin_transaction();
    collection.create_index(&path("name"), &mut page_cache, &mut allocator).unwrap();
    collection.create_index(&path("age"), &mut page_cache, &mut allocator).unwrap();
    collection.create_index(&path("avg"), &mut page_cache, &mut allocator).unwrap();

    let mut documents: Vec<(DocId, Value)> = Vec::new();
    for entry in ENTRIES {
        let doc = json(entry);
        documents.push((collection.insert(&doc, &mut page_cache, &mut allocator), doc));
    }
    page_cache.end_transaction(transaction);

    (page_cache, allocator, collection, documents)
}

fn assert_same_documents(got: &[(DocId, Value)], expected: &[(DocId, Value)]) {
    assert_eq!(got.len(), expected.len());
    for (a, b) in got.iter().zip(expected) {
        assert_eq!(a.0, b.0);
        assert!(value_equal(&a.1, &b.1), "{} is not {}", a.1.to_string(), b.1.to_string());
    }
}

fn scan_all(collection: &Collection, page_cache: &mut Cache) -> Vec<(DocId, Value)> {
    let mut scan = SequentialScan::new(collection, page_cache);
    let mut result = Vec::new();
    while let Some(item) = scan.next(page_cache) {
        result.push(item);
    }
    result
}

fn scan_index(
    collection: &Collection,
    index: usize,
    start: Option<Value>,
    end: Option<Value>,
    reverse: bool,
    page_cache: &mut Cache,
) -> Vec<(DocId, Value)> {
    let mut scan = IndexScan::new(collection, index, start, end, reverse, page_cache)
        .expect("Failed to scan index");
    let mut result = Vec::new();
    while let Some(item) = scan.next(collection, page_cache) {
        result.push(item);
    }
    result
}

// Checks the entries of an index: the keys with their document numbers, in order.
fn check_index(
    collection: &Collection,
    index: usize,
    expected: &[(Value, DocId)],
    page_cache: &mut Cache,
) {
    let mut iter = collection.indices[index].btree.iterate(false, page_cache);
    for (value, docid) in expected {
        let Some((key, val)) = iter.next(page_cache) else {
            panic!("iterator did not return value")
        };
        assert_eq!(key, encode_key(value, *docid).unwrap());
        assert_eq!(u64::from_be_bytes(val.try_into().unwrap()), docid.0);
    }
    assert_eq!(iter.next(page_cache), None);
}

// Checks which documents stand in the document tree.
fn check_documents(collection: &Collection, expected: &[DocId], page_cache: &mut Cache) {
    let mut iter = collection.document_tree.iterate(false, page_cache);
    for docid in expected {
        let Some((key, _)) = iter.next(page_cache) else {
            panic!("iterator did not return value")
        };
        assert_eq!(key, docid.0.to_be_bytes());
    }
    assert_eq!(iter.next(page_cache), None);
}

#[test]
fn test_create_reopen() {
    let (mut page_cache, mut allocator, mut collection) = create_collection();

    let transaction = page_cache.begin_transaction();
    collection.create_index(&path("index"), &mut page_cache, &mut allocator).unwrap();
    let mut docids = vec![
        collection.insert(&create_document(1), &mut page_cache, &mut allocator),
        collection.insert(&create_document(2), &mut page_cache, &mut allocator),
    ];
    page_cache.end_transaction(transaction);

    let metadata = collection.get_metadata();
    drop(collection);

    let mut collection = Collection::open(&metadata, &mut page_cache);

    let first = collection.get(docids[0], &mut page_cache).unwrap();
    assert!(value_equal(&first, &create_document(1)));
    let second = collection.get(docids[1], &mut page_cache).unwrap();
    assert!(value_equal(&second, &create_document(2)));

    // Ensure index is correct
    assert_eq!(collection.indices.len(), 1);
    assert_eq!(collection.indices[0].field.to_string(), "index");

    // Insert another record to ensure the docid is unique
    let transaction = page_cache.begin_transaction();
    let new_docid = collection.insert(&create_document(3), &mut page_cache, &mut allocator);
    assert!(!docids.contains(&new_docid));
    docids.push(new_docid);
    page_cache.end_transaction(transaction);

    // Validate everything is intact
    check_index(
        &collection,
        0,
        &[(integer(1), docids[0]), (integer(2), docids[1]), (integer(3), docids[2])],
        &mut page_cache,
    );
}

#[test]
fn test_metadata_text() {
    let (mut page_cache, mut allocator, mut collection) = create_collection();
    let transaction = page_cache.begin_transaction();
    collection.create_index(&path("a[0].b"), &mut page_cache, &mut allocator).unwrap();
    page_cache.end_transaction(transaction);
    assert_eq!(
        document_text(&collection.get_metadata()),
        br#"{"indices":[{"path":"a[0].b","root_pnum":13}],"name":"stuff","root_page_pnum":12}"#
    );

    let reopened = Collection::open(&collection.get_metadata(), &mut page_cache);
    assert_eq!(reopened.name, "stuff");
    assert_eq!(reopened.next_docid, 1);
    assert_eq!(
        document_text(&reopened.get_metadata()),
        document_text(&collection.get_metadata())
    );
}

#[test]
fn test_insert() {
    let (mut page_cache, mut allocator, mut collection) = create_collection();

    let mut docids: Vec<DocId> = Vec::new();
    for i in 0..100 {
        let transaction = page_cache.begin_transaction();
        docids.push(collection.insert(&create_document(i), &mut page_cache, &mut allocator));
        page_cache.end_transaction(transaction);
    }

    let got = scan_all(&collection, &mut page_cache);
    assert_eq!(got.len(), 100);
    for (i, (docid, value)) in got.iter().enumerate() {
        assert_eq!(docids[i], *docid);
        assert!(value_equal(&create_document(i), value));
    }
}

#[test]
fn test_get_document() {
    let (mut page_cache, mut allocator, mut collection) = create_collection();

    let transaction = page_cache.begin_transaction();
    let doc1 = json(r#"{"name": "James Smith", "age": 39}"#);
    let docid1 = collection.insert(&doc1, &mut page_cache, &mut allocator);
    let doc2 = json(r#"{"name": "Edward Jones", "age": 32}"#);
    let docid2 = collection.insert(&doc2, &mut page_cache, &mut allocator);
    page_cache.end_transaction(transaction);

    assert!(value_equal(&collection.get(docid1, &mut page_cache).unwrap(), &doc1));
    assert!(value_equal(&collection.get(docid2, &mut page_cache).unwrap(), &doc2));
}

// Nothing is returned by cursor
#[test]
fn test_get_document_not_present1() {
    let (mut page_cache, _allocator, collection) = create_collection();
    assert!(collection.get(DocId(999), &mut page_cache).is_none());
}

// Cursor returns a value but docid doesn't match (usually because it's been
// deleted).
#[test]
fn test_get_document_not_present2() {
    let (mut page_cache, mut allocator, mut collection) = create_collection();

    let transaction = page_cache.begin_transaction();
    let doc1 = json(r#"{"name": "James Smith", "age": 39}"#);
    let docid1 = collection.insert(&doc1, &mut page_cache, &mut allocator);
    let doc2 = json(r#"{"name": "Edward Jones", "age": 32}"#);
    collection.insert(&doc2, &mut page_cache, &mut allocator);
    collection.delete(docid1, &mut page_cache, &mut allocator);
    page_cache.end_transaction(transaction);

    assert!(collection.get(docid1, &mut page_cache).is_none());
}

#[test]
fn test_sequential_scan() {
    let (mut page_cache, _allocator, collection, mut documents) = populate_test_collection();

    documents.sort_by_key(|(docid, _doc)| *docid);
    let got_documents = scan_all(&collection, &mut page_cache);
    assert_same_documents(&got_documents, &documents);
}

#[test]
fn test_index_scan_bad_key() {
    let (mut page_cache, _allocator, collection, _documents) = populate_test_collection();

    // An array can't be a key...
    let result =
        IndexScan::new(&collection, 0, Some(json("[1,2,3,4]")), None, false, &mut page_cache);
    assert!(result.is_err());
    assert_eq!(result.err().unwrap(), "Unindexable field type".to_string());
}

#[test]
fn test_index_scan_bad_end_key() {
    let (mut page_cache, _allocator, collection, _documents) = populate_test_collection();

    let large = string(&"x".repeat(0x4000));
    let result = IndexScan::new(&collection, 0, None, Some(large), false, &mut page_cache);
    assert_eq!(result.err().unwrap(), "Key is too large".to_string());
}

#[test]
fn test_index_scan_int() {
    let (mut page_cache, _allocator, collection, mut documents) = populate_test_collection();

    documents.sort_by_key(|(_docid, doc)| field(doc, "age").as_u64().unwrap());
    let got_documents = scan_index(&collection, 1, None, None, false, &mut page_cache);
    assert_same_documents(&got_documents, &documents);
}

// Specify a start index
#[test]
fn test_index_scan_int_start() {
    let (mut page_cache, _allocator, collection, mut documents) = populate_test_collection();

    let min_age: u64 = 30;
    documents.retain(|(_docid, doc)| field(doc, "age").as_u64().unwrap() >= min_age);
    documents.sort_by_key(|(_docid, doc)| field(doc, "age").as_u64().unwrap());
    let got_documents =
        scan_index(&collection, 1, Some(integer(30)), None, false, &mut page_cache);
    assert_same_documents(&got_documents, &documents);
}

#[test]
fn test_index_scan_int_end() {
    let (mut page_cache, _allocator, collection, mut documents) = populate_test_collection();

    let max_age: u64 = 50;
    documents.retain(|(_docid, doc)| field(doc, "age").as_u64().unwrap() <= max_age);
    documents.sort_by_key(|(_docid, doc)| field(doc, "age").as_u64().unwrap());
    let got_documents =
        scan_index(&collection, 1, None, Some(integer(50)), false, &mut page_cache);
    assert_same_documents(&got_documents, &documents);
}

// Both ends of a range belong to it.
#[test]
fn test_index_scan_closed_range() {
    let (mut page_cache, _allocator, collection, mut documents) = populate_test_collection();

    documents.retain(|(_docid, doc)| {
        let age = field(doc, "age").as_u64().unwrap();
        22 <= age && age <= 47
    });
    documents.sort_by_key(|(_docid, doc)| field(doc, "age").as_u64().unwrap());
    assert_eq!(documents.len(), 3);
    let got_documents =
        scan_index(&collection, 1, Some(integer(22)), Some(integer(47)), false, &mut page_cache);
    assert_same_documents(&got_documents, &documents);
}

// Going down, a scan starts at the last document with the start value.
#[test]
fn test_index_scan_reverse() {
    let (mut page_cache, _allocator, collection, mut documents) = populate_test_collection();

    documents.retain(|(_docid, doc)| {
        let age = field(doc, "age").as_u64().unwrap();
        22 <= age && age <= 47
    });
    documents.sort_by_key(|(_docid, doc)| field(doc, "age").as_u64().unwrap());
    documents.reverse();
    let got_documents =
        scan_index(&collection, 1, Some(integer(47)), Some(integer(22)), true, &mut page_cache);
    assert_same_documents(&got_documents, &documents);
}

#[test]
fn test_index_scan_string() {
    let (mut page_cache, _allocator, collection, mut documents) = populate_test_collection();

    documents.sort_by_key(|(_docid, doc)| field(doc, "name").as_str().unwrap().to_string());
    let got_documents = scan_index(&collection, 0, None, None, false, &mut page_cache);
    assert_same_documents(&got_documents, &documents);
}

#[test]
fn test_index_scan_float() {
    let (mut page_cache, _allocator, collection, mut documents) = populate_test_collection();

    let avg = |doc: &Value| match field(doc, "avg") {
        Value::Number(Number::Float(bits)) => f64::from_bits(*bits),
        _ => panic!("not a float"),
    };
    documents.sort_by(|(_docid_a, doc_a), (_docid_b, doc_b)| {
        avg(doc_a).partial_cmp(&avg(doc_b)).unwrap()
    });
    let got_documents = scan_index(&collection, 2, None, None, false, &mut page_cache);
    assert_same_documents(&got_documents, &documents);
}

// If we set up an index and that field is not present in a document,
// we'll silently skip adding it to the index.
fn check_skipped(other: &str) {
    let (mut page_cache, mut allocator, mut collection) = create_collection();
    let transaction = page_cache.begin_transaction();

    collection.create_index(&path("age"), &mut page_cache, &mut allocator).unwrap();

    let doc1 = json(r#"{"name": "James Smith", "age": 39}"#);
    let docid1 = collection.insert(&doc1, &mut page_cache, &mut allocator);
    collection.insert(&json(other), &mut page_cache, &mut allocator);
    page_cache.end_transaction(transaction);

    check_index(&collection, 0, &[(integer(39), docid1)], &mut page_cache);
}

#[test]
fn test_index_missing_key() {
    check_skipped(r#"{"name": "Edward Jones"}"#);
}

#[test]
fn test_index_ignore_array_key() {
    check_skipped(r#"{"name": {"foo": 1}}"#);
    check_skipped(r#"{"age": [1,2,3]}"#);
}

#[test]
fn test_index_ignore_object_key() {
    check_skipped(r#"{"name": [1,2,3]}"#);
    check_skipped(r#"{"age": {"foo": 1}}"#);
}

// Add an index after populating the collection, ensure it reindexes
#[test]
fn test_create_index_after() {
    let (mut page_cache, mut allocator, mut collection) = create_collection();
    let transaction = page_cache.begin_transaction();

    let mut rng = SmallRng::seed_from_u64(12345u64);
    let mut shuffled_keys: Vec<u64> = (0..10).collect();
    shuffled_keys.shuffle(&mut rng);

    let mut orig_docs: Vec<(DocId, Value)> = Vec::new();
    for key in shuffled_keys {
        let doc = json(&format!(r#"{{"key": {}}}"#, key));
        orig_docs.push((collection.insert(&doc, &mut page_cache, &mut allocator), doc));
    }

    // Insert a record with an unindexable key. Ensure indexing code properly ignores it.
    collection.insert(&json(r#"{"key": [1,2,3,4,5]}"#), &mut page_cache, &mut allocator);

    // Create record where the key doesn't exist
    collection.insert(&json(r#"{"foo": 0}"#), &mut page_cache, &mut allocator);

    collection.create_index(&path("key"), &mut page_cache, &mut allocator).unwrap();
    page_cache.end_transaction(transaction);
    orig_docs.sort_by_key(|(_docid, doc)| field(doc, "key").as_u64().unwrap());

    let fetched_docs = scan_index(&collection, 0, None, None, false, &mut page_cache);
    assert_same_documents(&fetched_docs, &orig_docs);
}

#[test]
fn test_update() {
    let (mut page_cache, mut allocator, collection, mut documents) = populate_test_collection();

    let transaction = page_cache.begin_transaction();
    let new_doc = json(r#"{"name": "Dr. Edward Jones", "age": 32, "avg": 0.220}"#);
    collection.update(documents[1].0, &new_doc, &mut page_cache, &mut allocator);
    page_cache.end_transaction(transaction);
    documents[1].1 = new_doc;

    let got_documents = scan_index(&collection, 0, None, None, false, &mut page_cache);
    documents.sort_by_key(|(_docid, doc)| field(doc, "name").as_str().unwrap().to_string());
    assert_same_documents(&got_documents, &documents);
}

#[test]
fn test_delete() {
    let (mut page_cache, mut allocator, mut collection) = create_collection();
    let transaction = page_cache.begin_transaction();

    collection.create_index(&path("foo"), &mut page_cache, &mut allocator).unwrap();
    collection.create_index(&path("bar"), &mut page_cache, &mut allocator).unwrap();

    let doc1 = json(r#"{"foo": "AAA", "bar": 1.2, "baz": true}"#);
    let docid1 = collection.insert(&doc1, &mut page_cache, &mut allocator);
    let doc2 = json(r#"{"foo": "BBBB", "bar": 2.3, "baz": false}"#);
    let docid2 = collection.insert(&doc2, &mut page_cache, &mut allocator);
    let doc3 = json(r#"{"foo": "CCCCC", "bar": 3.4, "baz": true}"#);
    let docid3 = collection.insert(&doc3, &mut page_cache, &mut allocator);
    let doc4 = json(r#"{"foo": "DDDDDD", "bar": 4.5, "baz": false}"#);
    let docid4 = collection.insert(&doc4, &mut page_cache, &mut allocator);

    collection.delete(docid2, &mut page_cache, &mut allocator);
    page_cache.end_transaction(transaction);

    // Ensure this is removed from all indices
    check_index(
        &collection,
        0,
        &[(string("AAA"), docid1), (string("CCCCC"), docid3), (string("DDDDDD"), docid4)],
        &mut page_cache,
    );

    // Second index
    check_index(
        &collection,
        1,
        &[(float(1.2), docid1), (float(3.4), docid3), (float(4.5), docid4)],
        &mut page_cache,
    );

    // Scan main document btree
    check_documents(&collection, &[docid1, docid3, docid4], &mut page_cache);
}

// The field never existed
#[test]
fn test_delete_nonexistent1() {
    let (mut page_cache, mut allocator, collection) = create_collection();
    let transaction = page_cache.begin_transaction();
    collection.delete(DocId(999), &mut page_cache, &mut allocator);
    page_cache.end_transaction(transaction);
    let mut cursor = collection.document_tree.iterate(false, &mut page_cache);
    assert_eq!(cursor.next(&mut page_cache), None);
}

// Deleting what is not there changes nothing.
#[test]
fn test_delete_nonexistent_counters() {
    let (mut page_cache, mut allocator, collection, documents) = populate_test_collection();
    let counters = (allocator.total_allocs, allocator.total_frees);
    let slots = page_cache.free_slots();
    let transaction = page_cache.begin_transaction();
    collection.delete(DocId(999), &mut page_cache, &mut allocator);
    assert_eq!((allocator.total_allocs, allocator.total_frees), counters);
    assert_eq!(page_cache.free_slots(), slots);
    page_cache.end_transaction(transaction);
    assert_same_documents(&scan_all(&collection, &mut page_cache), &documents);
}

// Delete the same record twice. Delete takes a different code path in this case.
#[test]
fn test_delete_nonexistent2() {
    let (mut page_cache, mut allocator, mut collection) = create_collection();
    let transaction = page_cache.begin_transaction();
    let doc1 = json(r#"{"foo": "AAA", "bar": 1.2}"#);
    let docid1 = collection.insert(&doc1, &mut page_cache, &mut allocator);
    let doc2 = json(r#"{"foo": "BBBB", "bar": 2.3}"#);
    let docid2 = collection.insert(&doc2, &mut page_cache, &mut allocator);

    collection.delete(docid1, &mut page_cache, &mut allocator);
    collection.delete(docid1, &mut page_cache, &mut allocator);
    page_cache.end_transaction(transaction);

    // Ensure second record is still present
    check_documents(&collection, &[docid2], &mut page_cache);
}

// We have an index, but this specific document does not have the corresponding field.
#[test]
fn test_delete_missing_index_field() {
    let (mut page_cache, mut allocator, mut collection) = create_collection();
    let transaction = page_cache.begin_transaction();
    collection.create_index(&path("age"), &mut page_cache, &mut allocator).unwrap();

    let doc1 = json(r#"{"name": "James Smith"}"#);
    let docid1 = collection.insert(&doc1, &mut page_cache, &mut allocator);
    let doc2 = json(r#"{"name": "Edward Jones"}"#);
    let docid2 = collection.insert(&doc2, &mut page_cache, &mut allocator);

    collection.delete(docid1, &mut page_cache, &mut allocator);
    page_cache.end_transaction(transaction);

    // Ensure second record is still present
    check_documents(&collection, &[docid2], &mut page_cache);
}

#[test]
fn test_overflow_pages() {
    let (mut page_cache, mut allocator, mut collection) = create_collection();
    let transaction = page_cache.begin_transaction();

    // Create a large document (>128k)
    let large_value = "x".repeat(0x20000);
    let doc = json(&format!(r#"{{"foo": "{}"}}"#, large_value));
    let docid = collection.insert(&doc, &mut page_cache, &mut allocator);

    // Ensure we can read it back correctly
    let mut iter = SequentialScan::new(&collection, &mut page_cache);
    let Some((got_docid, got_doc)) = iter.next(&mut page_cache) else {
        panic!("couldn't get record")
    };

    assert_eq!(docid, got_docid);
    assert_eq!(field(&got_doc, "foo").as_str().unwrap(), large_value);

    // Delete the document
    collection.delete(docid, &mut page_cache, &mut allocator);

    let mut iter = SequentialScan::new(&collection, &mut page_cache);
    assert!(iter.next(&mut page_cache).is_none());
    page_cache.end_transaction(transaction);

    // Ensure we've reclaimed storage (the root page will remain)
    assert!(allocator.total_allocs - allocator.total_frees < 2);
}

// The sizes around the one from which on a document leaves the tree.
#[test]
fn test_overflow_boundary() {
    let (mut page_cache, mut allocator, mut collection) = create_collection();
    for length in [2000usize, 2003, 2004, 2005, 2006, 2007, 4061, 8173, 8174, 8175, 8176] {
        let transaction = page_cache.begin_transaction();
        let value = "y".repeat(length);
        let doc = json(&format!(r#"{{"foo": "{}"}}"#, value));
        let pages = allocator.total_allocs;
        let docid = collection.insert(&doc, &mut page_cache, &mut allocator);
        let expected = if length < 2005 {
            0
        } else if length < 8175 {
            1
        } else {
            2
        };
        assert_eq!(allocator.total_allocs - pages, expected, "length {}", length);
        let got = collection.get(docid, &mut page_cache).unwrap();
        assert!(value_equal(&got, &doc));
        collection.delete(docid, &mut page_cache, &mut allocator);
        page_cache.end_transaction(transaction);
    }
    assert_eq!(allocator.total_allocs - allocator.total_frees, 1);
}

// Key lengths are limited in this implementation. Ensure if we try to add a very
// large key it ignores it rather than doing something bad.
#[test]
fn test_index_large_field() {
    let (mut page_cache, mut allocator, mut collection) = create_collection();

    let transaction = page_cache.begin_transaction();
    collection.create_index(&path("image_data"), &mut page_cache, &mut allocator).unwrap();

    let doc1 = json(r#"{"image_data": "abcd"}"#);
    let docid1 = collection.insert(&doc1, &mut page_cache, &mut allocator);

    let doc2 = json(&format!(r#"{{"image_data": "{}"}}"#, "x".repeat(0x4000)));
    let _docid2 = collection.insert(&doc2, &mut page_cache, &mut allocator);

    page_cache.end_transaction(transaction);

    let mut iter = IndexScan::new(&collection, 0, None, None, false, &mut page_cache)
        .expect("failed to open cursor");
    let (got_docid, got_doc) = iter.next(&collection, &mut page_cache).unwrap();
    assert_eq!(got_docid, docid1);
    assert!(value_equal(&got_doc, &doc1));
    assert!(iter.next(&collection, &mut page_cache).is_none());
}

#[test]
fn test_find_index() {
    let (mut page_cache, mut allocator, mut collection) = create_collection();

    let transaction = page_cache.begin_transaction();
    collection.create_index(&path("foo"), &mut page_cache, &mut allocator).unwrap();
    collection.create_index(&path("bar.baz"), &mut page_cache, &mut allocator).unwrap();
    collection.create_index(&path("boo"), &mut page_cache, &mut allocator).unwrap();
    page_cache.end_transaction(transaction);

    assert_eq!(collection.find_index("foo"), Some(0));
    assert_eq!(collection.find_index("bar.baz"), Some(1));
    assert_eq!(collection.find_index("boo"), Some(2));
    assert_eq!(collection.find_index("frotz"), None);
}

// An index whose pages do not fit into the cache within one transaction is refused.
#[test]
fn test_create_index_cache_full() {
    let (mut page_cache, mut allocator, mut collection) = create_collection();
    let mut docids = Vec::new();
    for i in 0..400 {
        let transaction = page_cache.begin_transaction();
        let doc = json(&format!(r#"{{"key": "{}{}"}}"#, "k".repeat(500), i));
        docids.push(collection.insert(&doc, &mut page_cache, &mut allocator));
        page_cache.end_transaction(transaction);
    }
    let transaction = page_cache.begin_transaction();
    let result = collection.create_index(&path("key"), &mut page_cache, &mut allocator);
    assert_eq!(result, Err("cache full!".to_string()));
    assert_eq!(collection.indices.len(), 0);
    page_cache.end_transaction(transaction);
    assert_eq!(scan_all(&collection, &mut page_cache).len(), 400);
}

// The slots that an index takes do not depend on how many documents there are,
// but on how large it is.
#[test]
fn test_create_index_many_documents() {
    let (mut page_cache, mut allocator, mut collection) = create_collection();
    for i in 0..300 {
        let transaction = page_cache.begin_transaction();
        let doc = json(&format!(r#"{{"key": {}}}"#, 299 - i));
        collection.insert(&doc, &mut page_cache, &mut allocator);
        page_cache.end_transaction(transaction);
    }
    let transaction = page_cache.begin_transaction();
    let slots = page_cache.free_slots();
    collection.create_index(&path("key"), &mut page_cache, &mut allocator).unwrap();
    assert!(slots - page_cache.free_slots() < 10);
    page_cache.end_transaction(transaction);

    let found = scan_index(&collection, 0, None, None, false, &mut page_cache);
    assert_eq!(found.len(), 300);
    for (i, (docid, document)) in found.iter().enumerate() {
        assert_eq!(*docid, DocId(300 - i as u64));
        assert_eq!(field(document, "key").as_u64(), Some(i as u64));
    }
}

// A range may start between two leaves of an index, also where documents at the
// end of a leaf were deleted.
#[test]
fn test_index_scan_between_leaves() {
    let (mut page_cache, mut allocator, mut collection) = create_collection();
    let transaction = page_cache.begin_transaction();
    collection.create_index(&path("key"), &mut page_cache, &mut allocator).unwrap();
    page_cache.end_transaction(transaction);
    let key = |i: usize| format!("{:03}{}", i, "k".repeat(500));
    let mut documents = Vec::new();
    for i in 0..60 {
        let transaction = page_cache.begin_transaction();
        let doc = json(&format!(r#"{{"key": "{}"}}"#, key(i)));
        documents.push((collection.insert(&doc, &mut page_cache, &mut allocator), doc));
        page_cache.end_transaction(transaction);
    }
    for step in [1usize, 4] {
        for (i, (docid, _)) in documents.iter().enumerate() {
            if i % step != 0 {
                let transaction = page_cache.begin_transaction();
                collection.delete(*docid, &mut page_cache, &mut allocator);
                page_cache.end_transaction(transaction);
            }
        }
        for start in 0..60 {
            let found =
                scan_index(&collection, 0, Some(string(&key(start))), None, false, &mut page_cache);
            let ids: Vec<DocId> = found.iter().map(|(docid, _)| *docid).collect();
            let expected: Vec<DocId> =
                (start..60).filter(|i| i % step == 0).map(|i| documents[i].0).collect();
            assert_eq!(ids, expected);
        }
    }
}

// Where all keys fit into one page, few slots are enough for an index.
#[test]
fn test_create_index_few_slots() {
    let (mut page_cache, mut allocator, mut collection) = create_collection_in(6);
    for i in 0..100 {
        let transaction = page_cache.begin_transaction();
        collection.insert(&json(&format!(r#"{{"key": {}}}"#, i)), &mut page_cache, &mut allocator);
        page_cache.end_transaction(transaction);
    }
    let transaction = page_cache.begin_transaction();
    assert_eq!(page_cache.free_slots(), 6);
    let result = collection.create_index(&path("key"), &mut page_cache, &mut allocator);
    assert_eq!(result, Ok(()));
    page_cache.end_transaction(transaction);
    assert_eq!(scan_index(&collection, 0, None, None, false, &mut page_cache).len(), 100);

    // Here there is no slot left to read the documents
    let (mut page_cache, mut allocator, mut collection) = create_collection_in(2);
    let transaction = page_cache.begin_transaction();
    let result = collection.create_index(&path("key"), &mut page_cache, &mut allocator);
    assert_eq!(result, Err("cache full!".to_string()));
    page_cache.end_transaction(transaction);

    // And here there is not even one for the index
    let (mut page_cache, mut allocator, mut collection) = create_collection_in(2);
    let transaction = page_cache.begin_transaction();
    let page = page_cache.read_page(PageNum::from_u64(12));
    page_cache.write_page(PageNum::from_u64(12), &page);
    let counters = (allocator.total_allocs, allocator.total_frees);
    let result = collection.create_index(&path("key"), &mut page_cache, &mut allocator);
    assert_eq!(result, Err("cache full!".to_string()));
    assert_eq!((allocator.total_allocs, allocator.total_frees), counters);
    page_cache.end_transaction(transaction);
}

// An update is made where the cache has the slots for it.
#[test]
fn test_try_update() {
    let (mut page_cache, mut allocator, collection, documents) = populate_test_collection();
    let transaction = page_cache.begin_transaction();
    let new_doc = json(r#"{"name": "Dr. Edward Jones", "age": 32, "avg": 0.220}"#);
    assert!(collection.try_update(documents[1].0, &new_doc, &mut page_cache, &mut allocator));
    page_cache.end_transaction(transaction);
    let got = collection.get(documents[1].0, &mut page_cache).unwrap();
    assert!(value_equal(&got, &new_doc));
    for index in 0..3 {
        let found = scan_index(&collection, index, None, None, false, &mut page_cache);
        assert_eq!(found.len(), documents.len());
    }

    // The leaf is all that changes
    for others in [1u64, 2] {
        let (mut page_cache, mut allocator, mut collection) = create_collection_in(2);
        let transaction = page_cache.begin_transaction();
        let old_doc = json(r#"{"a": 1}"#);
        let new_doc = json(r#"{"a": 2}"#);
        let docid = collection.insert(&old_doc, &mut page_cache, &mut allocator);
        page_cache.end_transaction(transaction);

        let transaction = page_cache.begin_transaction();
        for num in 12..12 + others {
            let page = page_cache.read_page(PageNum::from_u64(num));
            page_cache.write_page(PageNum::from_u64(num), &page);
        }
        let counters = (allocator.total_allocs, allocator.total_frees);
        let done = collection.try_update(docid, &new_doc, &mut page_cache, &mut allocator);
        assert_eq!(done, others == 1);
        assert_eq!((allocator.total_allocs, allocator.total_frees), counters);
        page_cache.end_transaction(transaction);
        let got = collection.get(docid, &mut page_cache).unwrap();
        assert!(value_equal(&got, if done { &new_doc } else { &old_doc }));
    }

    // Two external pages are freed as well; one slot is for the superblock, one for the
    // leaf that loses the document, and three are for the insertion
    for slots in [6usize, 7] {
        let (mut page_cache, mut allocator, mut collection) = create_collection_in(slots);
        let transaction = page_cache.begin_transaction();
        let old_doc = json(&format!(r#"{{"a": "{}"}}"#, "x".repeat(0x3000)));
        let new_doc = json(r#"{"a": 2}"#);
        let docid = collection.insert(&old_doc, &mut page_cache, &mut allocator);
        page_cache.end_transaction(transaction);

        let transaction = page_cache.begin_transaction();
        let frees = allocator.total_frees;
        let done = collection.try_update(docid, &new_doc, &mut page_cache, &mut allocator);
        assert_eq!(done, slots == 7);
        assert_eq!(allocator.total_frees - frees, if done { 2 } else { 0 });
        page_cache.end_transaction(transaction);
        let got = collection.get(docid, &mut page_cache).unwrap();
        assert!(value_equal(&got, if done { &new_doc } else { &old_doc }));
    }
}

// The external pages of a document are dirty after it was inserted, so that it
// takes no further slot to free them.
#[test]
fn test_delete_without_free_slots() {
    let (mut page_cache, mut allocator, mut collection) = create_collection_in(19);
    let transaction = page_cache.begin_transaction();
    let doc = json(&format!(r#"{{"foo": "{}"}}"#, "x".repeat(0x20000)));
    let docid = collection.insert(&doc, &mut page_cache, &mut allocator);
    assert_eq!(page_cache.free_slots(), 0);
    assert_eq!(allocator.total_allocs - allocator.total_frees, 18);
    collection.delete(docid, &mut page_cache, &mut allocator);
    assert_eq!(page_cache.free_slots(), 0);
    assert_eq!(allocator.total_allocs - allocator.total_frees, 1);
    page_cache.end_transaction(transaction);
    assert!(collection.get(docid, &mut page_cache).is_none());
}

// An index takes a slot for each of its pages, and no more of them than it needs.
#[test]
fn test_create_index_of_many_pages() {
    let fill = |slots: usize| {
        let (mut page_cache, mut allocator, mut collection) = create_collection_in(slots);
        for i in 0..60 {
            let transaction = page_cache.begin_transaction();
            let doc = json(&format!(r#"{{"key": "{:02}{}"}}"#, i, "k".repeat(1000)));
            collection.insert(&doc, &mut page_cache, &mut allocator);
            page_cache.end_transaction(transaction);
        }
        (page_cache, allocator, collection)
    };
    let (mut page_cache, mut allocator, mut collection) = fill(40);
    let transaction = page_cache.begin_transaction();
    let pages = allocator.total_allocs;
    let result = collection.create_index(&path("key"), &mut page_cache, &mut allocator);
    assert_eq!(result, Ok(()));
    let taken = allocator.total_allocs - pages;
    assert!(taken > 8 && taken < 40, "{} pages", taken);
    assert_eq!(page_cache.free_slots(), 40 - 1 - taken);
    page_cache.end_transaction(transaction);
    assert_eq!(scan_index(&collection, 0, None, None, false, &mut page_cache).len(), 60);

    // Here it has to be given up
    let (mut page_cache, mut allocator, mut collection) = fill(12);
    let transaction = page_cache.begin_transaction();
    let pages = allocator.total_allocs;
    let result = collection.create_index(&path("key"), &mut page_cache, &mut allocator);
    assert_eq!(result, Err("cache full!".to_string()));
    let taken = allocator.total_allocs - pages;
    assert!(taken > 5 && taken < 12, "{} pages", taken);
    assert_eq!(page_cache.free_slots(), 12 - 1 - taken);
    page_cache.end_transaction(transaction);
    assert_eq!(scan_all(&collection, &mut page_cache).len(), 60);
}

// Where all pages that are read are in the cache, an index can be built though no
// slot is left.
#[test]
fn test_create_index_in_a_full_cache() {
    let (mut page_cache, mut allocator, mut collection) = create_collection_in(3);
    let transaction = page_cache.begin_transaction();
    for i in 0..20 {
        collection.insert(&json(&format!(r#"{{"key": {}}}"#, i)), &mut page_cache, &mut allocator);
    }
    let result = collection.create_index(&path("key"), &mut page_cache, &mut allocator);
    assert_eq!(result, Ok(()));
    assert_eq!(page_cache.free_slots(), 0);
    page_cache.end_transaction(transaction);
    assert_eq!(scan_index(&collection, 0, None, None, false, &mut page_cache).len(), 20);
}

// The external pages of a document that was deleted have slots already, which those
// of the next one take over.
#[test]
fn test_insert_into_freed_pages() {
    let (mut page_cache, mut allocator, mut collection) = create_collection_in(19);
    let transaction = page_cache.begin_transaction();
    for letter in ["x", "y", "z"] {
        let doc = json(&format!(r#"{{"foo": "{}"}}"#, letter.repeat(0x20000)));
        let docid = collection.insert(&doc, &mut page_cache, &mut allocator);
        assert_eq!(page_cache.free_slots(), 0);
        let got = collection.get(docid, &mut page_cache).unwrap();
        assert!(value_equal(&got, &doc));
        collection.delete(docid, &mut page_cache, &mut allocator);
    }
    page_cache.end_transaction(transaction);
    assert_eq!(allocator.total_allocs - allocator.total_frees, 1);
}
