use std::cell::{Cell, RefCell};
use std::collections::HashMap;
use std::rc::Rc;

use rustdb::database::Database;
use rustdb::key_encoding::DocId;
use rustdb::page_cache::{PageData, PageNum, PersistentStore};
use rustdb::value::{parse_document, value_equal, Value};

/// A store in memory that can be shared and can be made to lose writes.
#[derive(Clone)]
struct MockPersistentStore {
    saved_pages: Rc<RefCell<HashMap<u64, PageData>>>,
    write_limit: Rc<Cell<usize>>,
}

#[allow(dead_code)]
impl MockPersistentStore {
    fn default() -> Self {
        Self {
            saved_pages: Rc::new(RefCell::new(HashMap::new())),
            write_limit: Rc::new(Cell::new(usize::MAX)),
        }
    }

    fn set_write_limit(&self, limit: usize) {
        self.write_limit.set(limit);
    }

    fn hit_write_limit(&self) -> bool {
        self.write_limit.get() == 0
    }
}

impl PersistentStore for MockPersistentStore {
    fn read(&mut self, page_num: PageNum, page: &mut PageData) {
        match self.saved_pages.borrow().get(&page_num.as_u64()) {
            Some(saved) => page.copy_from_slice(saved),
            None => page.fill(0),
        }
    }

    fn write(&mut self, page_num: PageNum, page: &PageData) {
        let limit = self.write_limit.get();
        if limit != usize::MAX && limit > 0 {
            self.write_limit.set(limit - 1);
        }

        if self.write_limit.get() == 0 {
            return;
        }

        self.saved_pages.borrow_mut().insert(page_num.as_u64(), *page);
    }

    fn sync(&mut self) {}
}

type Db = Database<MockPersistentStore>;

fn json(text: &str) -> Value {
    parse_document(text.as_bytes()).expect("invalid JSON")
}

fn check_item(item: Option<(DocId, Value)>, docid: u64, text: &str) {
    let Some((got_docid, document)) = item else { panic!("no document") };
    assert_eq!(got_docid, DocId(docid));
    assert!(value_equal(&document, &json(text)), "{} is not {}", document.to_string(), text);
}

const PEOPLE: [&str; 3] = [
    r#"{"name": "Alice", "age": 30}"#,
    r#"{"name": "Bob", "age": 25}"#,
    r#"{"name": "Charlie", "age": 35}"#,
];

fn create_people(store: &MockPersistentStore) -> Db {
    let mut db = Database::create(store.clone());
    let transaction = db.begin_transaction();
    assert!(db.create_collection("people").is_ok());
    db.create_index("people", "name").unwrap();
    for person in PEOPLE {
        db.insert_document("people", &json(person)).unwrap();
    }
    db.end_transaction(transaction);
    db
}

#[test]
fn test_db_create_open() {
    let store = MockPersistentStore::default();
    create_people(&store);

    // Reopen the database.
    let mut db = Database::open_filestore(store).expect("failed to open database");
    assert_eq!(db.get_collection_list(), vec!["people".to_string()]);

    let mut iter = db.seq_iter("people").expect("error in query");
    check_item(db.next_document(&mut iter), 1, PEOPLE[0]);
    check_item(db.next_document(&mut iter), 2, PEOPLE[1]);
    check_item(db.next_document(&mut iter), 3, PEOPLE[2]);
    assert!(db.next_document(&mut iter).is_none());
}

// A transaction whose writes are cut short is either all there or not there at all.
#[test]
fn test_interrupted_transaction() {
    for limit in 1..40 {
        let store = MockPersistentStore::default();
        let mut db = create_people(&store);
        store.set_write_limit(limit);
        let transaction = db.begin_transaction();
        db.insert_document("people", &json(r#"{"name": "Dave", "age": 1}"#)).unwrap();
        db.insert_document("people", &json(r#"{"name": "Eve", "age": 2}"#)).unwrap();
        db.end_transaction(transaction);
        drop(db);
        store.set_write_limit(usize::MAX);

        let mut db = Database::open_filestore(store).unwrap();
        let mut count = 0;
        let mut iter = db.seq_iter("people").unwrap();
        while db.next_document(&mut iter).is_some() {
            count += 1;
        }
        let mut indexed = 0;
        let mut iter = db.index_iter("people", "name", None, None, false).unwrap();
        while db.next_indexed("people", &mut iter).is_some() {
            indexed += 1;
        }
        assert!(count == 3 || count == 5, "{} documents at limit {}", count, limit);
        assert_eq!(count, indexed);
    }
}

#[test]
fn test_reopen_and_insert() {
    let store = MockPersistentStore::default();
    create_people(&store);
    let mut db = Database::open_filestore(store.clone()).unwrap();
    let transaction = db.begin_transaction();
    let docid = db.insert_document("people", &json(r#"{"name": "Dave"}"#)).unwrap();
    assert_eq!(docid, DocId(4));
    assert_eq!(db.create_collection("orders"), Ok(DocId(2)));
    db.end_transaction(transaction);

    let db = Database::open_filestore(store).unwrap();
    let mut names = db.get_collection_list();
    names.sort();
    assert_eq!(names, vec!["orders".to_string(), "people".to_string()]);
}

// An index that is added after a reopen leaves the name of the collection alone.
#[test]
fn test_reopen_and_index() {
    let store = MockPersistentStore::default();
    create_people(&store);
    let mut db = Database::open_filestore(store.clone()).unwrap();
    let transaction = db.begin_transaction();
    assert_eq!(db.create_index("people", "age"), Ok(()));
    db.end_transaction(transaction);
    drop(db);

    let mut db = Database::open_filestore(store).unwrap();
    assert_eq!(db.get_collection_list(), vec!["people".to_string()]);
    let mut iter = db.index_iter("people", "age", None, None, false).unwrap();
    check_item(db.next_indexed("people", &mut iter), 2, PEOPLE[1]);
    check_item(db.next_indexed("people", &mut iter), 1, PEOPLE[0]);
    check_item(db.next_indexed("people", &mut iter), 3, PEOPLE[2]);
    assert!(db.next_indexed("people", &mut iter).is_none());
}

#[test]
fn test_create_collection_existing() {
    let mut db = Database::create(MockPersistentStore::default());
    let transaction = db.begin_transaction();
    assert!(db.create_collection("people").is_ok());
    assert_eq!(db.create_collection("people"), Err("Collection already exists".to_string()));
    db.end_transaction(transaction);
}

#[test]
fn test_create_index_bad_collection() {
    let mut db = Database::create(MockPersistentStore::default());
    let transaction = db.begin_transaction();
    assert_eq!(
        db.create_index("orders", "invoice_num"),
        Err("Collection not found".to_string())
    );
    db.end_transaction(transaction);
}

#[test]
fn test_create_index_bad_path() {
    let mut db = Database::create(MockPersistentStore::default());
    let transaction = db.begin_transaction();
    db.create_collection("orders").unwrap();
    assert_eq!(
        db.create_index("orders", "$total"),
        Err("Invalid path element: $total".to_string())
    );
    db.end_transaction(transaction);
}

#[test]
fn test_insert_doc_bad_collection() {
    let mut db = Database::create(MockPersistentStore::default());
    let transaction = db.begin_transaction();
    assert_eq!(
        db.insert_document("employees", &json(r#"{"name": "Alice", "age": 30}"#)),
        Err("Collection not found".to_string())
    );
    db.end_transaction(transaction);
}

#[test]
fn test_query_bad_collection() {
    let mut db = Database::create(MockPersistentStore::default());
    assert!(db.seq_iter("employees").is_err());
}

#[test]
fn test_query_bad_index() {
    let store = MockPersistentStore::default();
    let mut db = create_people(&store);
    let result = db.index_iter("people", "age", None, None, false);
    assert_eq!(result.err(), Some("Unknown index".to_string()));
    let result = db.index_iter("employees", "age", None, None, false);
    assert_eq!(result.err(), Some("Collection not found".to_string()));
    let result = db.index_iter("people", "name", Some(json("{}")), None, false);
    assert_eq!(result.err(), Some("Unindexable field type".to_string()));
}

#[test]
fn test_index_iter() {
    let records = [
        r#"{"name": "Alice", "age": 7}"#,
        r#"{"name": "Jim", "age": 12}"#,
        r#"{"name": "Joe", "age": 25}"#,
        r#"{"name": "Mike", "age": 37}"#,
        r#"{"name": "Ed", "age": 82}"#,
    ];

    let mut db = Database::create(MockPersistentStore::default());
    let transaction = db.begin_transaction();
    db.create_collection("people").expect("failed to create collection");
    db.create_index("people", "age").unwrap();
    for rec in &records {
        db.insert_document("people", &json(rec)).unwrap();
    }
    db.end_transaction(transaction);

    let mut iter = db
        .index_iter("people", "age", Some(json("10")), Some(json("40")), false)
        .expect("error in query");
    for i in 1..4 {
        check_item(db.next_indexed("people", &mut iter), i + 1, records[i as usize]);
    }

    assert!(db.next_indexed("people", &mut iter).is_none());
}

// The checked forms do the same as the others as long as there is room.
#[test]
fn test_try_with_room() {
    let mut db = Database::create(MockPersistentStore::default());
    let transaction = db.begin_transaction();
    assert_eq!(db.try_create_collection("people"), Some(Ok(DocId(1))));
    assert_eq!(
        db.try_create_collection("people"),
        Some(Err("Collection already exists".to_string()))
    );
    assert_eq!(db.try_create_index("people", "name"), Some(Ok(())));
    assert_eq!(
        db.try_create_index("people", "a..b"),
        Some(Err("Empty path element".to_string()))
    );
    assert_eq!(
        db.try_create_index("orders", "name"),
        Some(Err("Collection not found".to_string()))
    );
    assert_eq!(db.try_create_index("people", "a[123456789012345678901234567890]"), None);
    for (i, person) in PEOPLE.iter().enumerate() {
        let result = db.try_insert_document("people", &json(person));
        assert_eq!(result, Some(Ok(DocId(i as u64 + 1))));
    }
    assert_eq!(
        db.try_insert_document("orders", &json("{}")),
        Some(Err("Collection not found".to_string()))
    );
    db.end_transaction(transaction);

    let mut iter = db.index_iter("people", "name", None, None, false).unwrap();
    check_item(db.next_indexed("people", &mut iter), 1, PEOPLE[0]);
}

// What does not fit into the cache is refused, and nothing changes.
#[test]
fn test_try_without_room() {
    let mut db = Database::create(MockPersistentStore::default());
    let transaction = db.begin_transaction();
    db.create_collection("people").unwrap();
    let large = json(&format!(r#"{{"name": "{}"}}"#, "x".repeat(0x200000)));
    assert_eq!(db.try_insert_document("people", &large), None);
    assert_eq!(db.try_create_collection(&"x".repeat(0x200000)), None);
    assert_eq!(db.get_collection_list(), vec!["people".to_string()]);

    // Fill the cache with changed pages
    let medium = json(&format!(r#"{{"name": "{}"}}"#, "x".repeat(0x10000)));
    let mut count = 0;
    while let Some(result) = db.try_insert_document("people", &medium) {
        count += 1;
        assert_eq!(result, Ok(DocId(count)));
    }
    assert!(count > 5);
    db.end_transaction(transaction);

    let mut iter = db.seq_iter("people").unwrap();
    let mut found = 0;
    while db.next_document(&mut iter).is_some() {
        found += 1;
    }
    assert_eq!(found, count);

    // There is room again in the next transaction
    let transaction = db.begin_transaction();
    assert_eq!(db.try_insert_document("people", &medium), Some(Ok(DocId(count + 1))));
    db.end_transaction(transaction);
}

// A transaction with more pages than the log holds is still there after a reopen.
#[test]
fn test_large_transaction_reopened() {
    let store = MockPersistentStore::default();
    let mut db = create_people(&store);
    let large = json(&format!(r#"{{"name": "{}"}}"#, "x".repeat(0x20000)));
    let transaction = db.begin_transaction();
    assert_eq!(db.try_insert_document("people", &large), Some(Ok(DocId(4))));
    db.end_transaction(transaction);
    drop(db);

    let mut db = Database::open_filestore(store.clone()).unwrap();
    let transaction = db.begin_transaction();
    assert_eq!(db.try_insert_document("people", &json("{}")), Some(Ok(DocId(5))));
    db.end_transaction(transaction);
    drop(db);

    let mut db = Database::open_filestore(store).unwrap();
    let mut iter = db.seq_iter("people").unwrap();
    for i in 0..3 {
        check_item(db.next_document(&mut iter), i + 1, PEOPLE[i as usize]);
    }
    let (docid, document) = db.next_document(&mut iter).unwrap();
    assert_eq!(docid, DocId(4));
    assert!(value_equal(&document, &large));
    check_item(db.next_document(&mut iter), 5, "{}");
    assert!(db.next_document(&mut iter).is_none());
}

// The opening of a database that is cut short can be started again.
#[test]
fn test_interrupted_opening() {
    // The two pages of the transaction and the header are logged by the third write.
    for commit in 1..12 {
        for opening in 1..12 {
            let store = MockPersistentStore::default();
            let mut db = create_people(&store);
            store.set_write_limit(commit);
            let transaction = db.begin_transaction();
            db.insert_document("people", &json(r#"{"name": "Dave", "age": 1}"#)).unwrap();
            db.end_transaction(transaction);
            drop(db);
            store.set_write_limit(opening);
            drop(Database::open_filestore(store.clone()));
            store.set_write_limit(usize::MAX);

            let mut db = Database::open_filestore(store).unwrap();
            let mut count = 0;
            let mut iter = db.seq_iter("people").unwrap();
            while db.next_document(&mut iter).is_some() {
                count += 1;
            }
            assert_eq!(count, if commit <= 3 { 3 } else { 4 }, "limits {} {}", commit, opening);
        }
    }
}

// All collections are there again, with their identifiers, indices and documents.
#[test]
fn test_reopened_is_the_same() {
    let store = MockPersistentStore::default();
    let mut db = create_people(&store);
    let transaction = db.begin_transaction();
    db.create_collection("places").unwrap();
    db.create_collection("things").unwrap();
    db.create_index("things", "size").unwrap();
    db.insert_document("places", &json(r#"{"name": "Rome"}"#)).unwrap();
    db.end_transaction(transaction);
    let again = Database::open_filestore(store).unwrap();
    assert_eq!(again.collections.len(), db.collections.len());
    for entry in &db.collections {
        let found = again.collections.iter().find(|other| other.name == entry.name).unwrap();
        assert_eq!(found.docid, entry.docid);
        let (a, b) = (&found.collection, &entry.collection);
        assert!(value_equal(&a.get_metadata(), &b.get_metadata()));
    }
    let mut db = again;
    let mut iter = db.seq_iter("places").unwrap();
    check_item(db.next_document(&mut iter), 1, r#"{"name": "Rome"}"#);
    assert!(db.next_document(&mut iter).is_none());
    let mut iter = db.seq_iter("things").unwrap();
    assert!(db.next_document(&mut iter).is_none());
}
