use std::cell::{Cell, RefCell};
use std::collections::HashMap;
use std::rc::Rc;

use rustdb::collection::Collection;
use rustdb::field_path::FieldPath;
use rustdb::key_encoding::DocId;
use rustdb::page_allocator::PageAllocator;
use rustdb::page_cache::{PageCache, PageData, PageNum, PersistentStore, PAGE_SIZE};
use rustdb::query::{
    doc2expr, get_bool_result, try_doc2expr, DocumentSource, ExpressionFilter, ExpressionNode, Operation,
    IndexSource, ScanSource,
};
use rustdb::superblock::{init_superblock, SUPERBLOCK_FPID};
use rustdb::value::{parse_document, value_equal, Value};

/// A store in memory that can be shared and can be made to lose writes.
#[derive(Clone)]
struct MockPersistentStore {
    saved_pages: Rc<RefCell<HashMap<u64, PageData>>>,
    write_limit: Rc<Cell<usize>>,
}

#[allow(dead_code)]
impl MockPersistentStore {
    fn default() -> Self {
        Self {
            saved_pages: Rc::new(RefCell::new(HashMap::new())),
            write_limit: Rc::new(Cell::new(usize::MAX)),
        }
    }

    fn set_write_limit(&self, limit: usize) {
        self.write_limit.set(limit);
    }

    fn hit_write_limit(&self) -> bool {
        self.write_limit.get() == 0
    }
}

impl PersistentStore for MockPersistentStore {
    fn read(&mut self, page_num: PageNum, page: &mut PageData) {
        match self.saved_pages.borrow().get(&page_num.as_u64()) {
            Some(saved) => page.copy_from_slice(saved),
            None => page.fill(0),
        }
    }

    fn write(&mut self, page_num: PageNum, page: &PageData) {
        let limit = self.write_limit.get();
        if limit != usize::MAX && limit > 0 {
            self.write_limit.set(limit - 1);
        }

        if self.write_limit.get() == 0 {
            return;
        }

        self.saved_pages.borrow_mut().insert(page_num.as_u64(), *page);
    }

    fn sync(&mut self) {}
}

fn json(text: &str) -> Value {
    parse_document(text.as_bytes()).expect("invalid JSON")
}

fn constant(text: &str) -> Box<ExpressionNode> {
    Box::new(ExpressionNode::Constant(json(text)))
}

fn path(text: &str) -> Box<ExpressionNode> {
    Box::new(ExpressionNode::Path(FieldPath::new(text).expect("error creating field path")))
}

fn binary(
    operation: Operation,
    left: Box<ExpressionNode>,
    right: Box<ExpressionNode>,
) -> Box<ExpressionNode> {
    Box::new(ExpressionNode::BinaryOp((operation, left, right)))
}

fn eval(expr: &ExpressionNode) -> Result<Value, String> {
    expr.eval(&json("{}"))
}

fn eval_bool(expr: &ExpressionNode) -> bool {
    match eval(expr) {
        Ok(Value::Bool(b)) => b,
        _ => panic!("not a boolean"),
    }
}

struct MockSource {
    documents: Vec<(DocId, Value)>,
}

impl DocumentSource for MockSource {
    fn next(&mut self) -> Option<(DocId, Value)> {
        if self.documents.is_empty() {
            None
        } else {
            Some(self.documents.remove(0))
        }
    }
}

fn filter_documents() -> Vec<Value> {
    vec![
        json(r#"{"foo": 1, "bar": 99}"#),
        json(r#"{"foo": 2, "bar": 100}"#),
        json(r#"{"foo": 3, "bar": 101}"#),
        json(r#"{"foo": 4, "bar": 102}"#),
        json(r#"{"foo": 5, "bar": 103}"#),
        json(r#"{"foo": 6, "bar": 104}"#),
        json(r#"{"foo": 7, "bar": 105}"#),
        json(r#"{"foo": 8, "bar": 106}"#),
        json(r#"{"foo": 9, "bar": 107}"#),
    ]
}

fn filter_expression() -> Box<ExpressionNode> {
    binary(
        Operation::Or,
        binary(Operation::Eq, path("foo"), constant("9")),
        binary(
            Operation::And,
            binary(Operation::Gt, path("foo"), constant("2")),
            binary(Operation::Lt, path("bar"), constant("105")),
        ),
    )
}

fn check_filter<D: DocumentSource>(filter: &mut ExpressionFilter<D>) {
    let mut results: Vec<(DocId, Value)> = Vec::new();
    while let Some(item) = filter.next() {
        results.push(item);
    }
    assert_eq!(results.len(), 5);
    assert!(value_equal(&results[0].1, &json(r#"{"foo": 3, "bar": 101}"#)));
    assert!(value_equal(&results[1].1, &json(r#"{"foo": 4, "bar": 102}"#)));
    assert!(value_equal(&results[2].1, &json(r#"{"foo": 5, "bar": 103}"#)));
    assert!(value_equal(&results[3].1, &json(r#"{"foo": 6, "bar": 104}"#)));
    assert!(value_equal(&results[4].1, &json(r#"{"foo": 9, "bar": 107}"#)));
    assert_eq!(results[4].0, DocId(9));
}

#[test]
fn test_expression_filter() {
    let source = MockSource {
        documents: (1..).zip(filter_documents()).map(|(docid, doc)| (DocId(docid), doc)).collect(),
    };
    let mut filter = ExpressionFilter { source, expression: filter_expression() };
    check_filter(&mut filter);
}

// The filter on top of the documents of a collection.
#[test]
fn test_filter_collection() {
    let mut page_cache = PageCache::new(25, MockPersistentStore::default());
    let transaction = page_cache.begin_transaction();
    let mut page: PageData = [0; PAGE_SIZE];
    init_superblock(&mut page);
    page_cache.write_page(PageNum::from_u64(SUPERBLOCK_FPID), &page);
    let mut allocator = PageAllocator::new(&mut page_cache);
    let mut collection = Collection::create("stuff", &mut page_cache, &mut allocator);
    for document in filter_documents() {
        collection.insert(&document, &mut page_cache, &mut allocator);
    }
    page_cache.end_transaction(transaction);

    let source = ScanSource::new(&collection, &mut page_cache);
    let mut filter = ExpressionFilter { source, expression: filter_expression() };
    check_filter(&mut filter);
}

// The filter on top of a range of an index.
#[test]
fn test_filter_index() {
    let mut page_cache = PageCache::new(25, MockPersistentStore::default());
    let transaction = page_cache.begin_transaction();
    let mut page: PageData = [0; PAGE_SIZE];
    init_superblock(&mut page);
    page_cache.write_page(PageNum::from_u64(SUPERBLOCK_FPID), &page);
    let mut allocator = PageAllocator::new(&mut page_cache);
    let mut collection = Collection::create("stuff", &mut page_cache, &mut allocator);
    let field = FieldPath::new("bar").unwrap();
    collection.create_index(&field, &mut page_cache, &mut allocator).unwrap();
    for document in filter_documents() {
        collection.insert(&document, &mut page_cache, &mut allocator);
    }
    page_cache.end_transaction(transaction);

    let high = json("104");
    let low = json("100");
    let source =
        IndexSource::new(&collection, 0, Some(high), Some(low), true, &mut page_cache).unwrap();
    let expression = binary(Operation::Neq, path("foo"), constant("4"));
    let mut filter = ExpressionFilter { source, expression };
    let mut ids = Vec::new();
    while let Some((docid, _document)) = filter.next() {
        ids.push(docid.0);
    }
    assert_eq!(ids, vec![6, 5, 3, 2]);
    assert!(filter.next().is_none());

    let result = IndexSource::new(&collection, 0, Some(json("{}")), None, false, &mut page_cache);
    assert_eq!(result.err(), Some("Unindexable field type".to_string()));
}

// A document for which the expression has no value is passed over.
#[test]
fn test_filter_skips_errors() {
    let documents = vec![(DocId(1), json("{}")), (DocId(2), json(r#"{"foo": 1}"#))];
    let mut filter = ExpressionFilter {
        source: MockSource { documents },
        expression: binary(Operation::Eq, path("foo"), constant("1")),
    };
    assert_eq!(filter.next().unwrap().0, DocId(2));
    assert!(filter.next().is_none());
}

#[test]
fn test_invalid_bool_and() {
    let expr = binary(Operation::And, constant("12"), constant("true"));
    assert_eq!(eval(&expr).unwrap_err(), "Invalid type for boolean expr".to_string());
}

#[test]
fn test_bool_result() {
    assert_eq!(get_bool_result(&json("true")), Ok(true));
    assert_eq!(get_bool_result(&json("false")), Ok(false));
    assert_eq!(get_bool_result(&json("null")), Err("Invalid type for boolean expr".to_string()));
}

#[test]
fn test_expression_display() {
    assert_eq!(
        binary(
            Operation::And,
            binary(Operation::Gt, path("foo"), constant("2")),
            binary(Operation::Lt, path("bar"), constant("105")),
        )
        .to_string(),
        "((foo > 2) and (bar < 105))"
    );

    assert_eq!(
        binary(
            Operation::Or,
            binary(Operation::Gte, path("foo"), constant("2")),
            binary(Operation::Lte, path("bar"), constant("105")),
        )
        .to_string(),
        "((foo >= 2) or (bar <= 105))"
    );

    assert_eq!(binary(Operation::Neq, path("baz"), constant("9")).to_string(), "(baz <> 9)");
    assert_eq!(binary(Operation::Eq, path("frob"), constant("9")).to_string(), "(frob = 9)");

    assert_eq!(
        binary(Operation::In, path("frob"), constant(r#"["a", "b", "c", "d", "e"]"#)).to_string(),
        r#"(frob in ["a","b","c","d","e"])"#
    );
    assert_eq!(
        binary(Operation::NotIn, path("frob"), constant("[1,2,3,4,5]")).to_string(),
        "(frob not in [1,2,3,4,5])"
    );
}

#[test]
fn test_and_eval() {
    for left in [true, false] {
        for right in [true, false] {
            let expr = ExpressionNode::BinaryOp((
                Operation::And,
                Box::new(ExpressionNode::Constant(Value::Bool(left))),
                Box::new(ExpressionNode::Constant(Value::Bool(right))),
            ));

            assert_eq!(eval_bool(&expr), left && right, "Failed for: {:?} AND {:?}", left, right);
        }
    }
}

#[test]
fn test_or_eval() {
    for left in [true, false] {
        for right in [true, false] {
            let expr = ExpressionNode::BinaryOp((
                Operation::Or,
                Box::new(ExpressionNode::Constant(Value::Bool(left))),
                Box::new(ExpressionNode::Constant(Value::Bool(right))),
            ));

            assert_eq!(eval_bool(&expr), left || right, "Failed for: {:?} AND {:?}", left, right);
        }
    }
}

// Verifies operand types are handled cleanly. These are all converted to
// binary codings that match the key types.
#[test]
fn test_comparison() {
    let ops = vec![
        // Integer
        (Operation::Lt, "2", "3", true),
        (Operation::Lt, "3", "3", false),
        (Operation::Lt, "4", "3", false),
        (Operation::Lte, "2", "3", true),
        (Operation::Lte, "3", "3", true),
        (Operation::Lte, "4", "3", false),
        (Operation::Gt, "2", "3", false),
        (Operation::Gt, "3", "3", false),
        (Operation::Gt, "4", "3", true),
        (Operation::Gte, "2", "3", false),
        (Operation::Gte, "3", "3", true),
        (Operation::Gte, "4", "3", true),
        (Operation::Eq, "3", "3", true),
        (Operation::Eq, "2", "3", false),
        (Operation::Neq, "3", "3", false),
        (Operation::Neq, "2", "3", true),

        // Floating point
        (Operation::Lt, "2.1", "3.1", true),
        (Operation::Lt, "3.1", "3.1", false),
        (Operation::Lt, "4.1", "3.1", false),
        (Operation::Lte, "2.1", "3.1", true),
        (Operation::Lte, "3.1", "3.1", true),
        (Operation::Lte, "4.1", "3.1", false),
        (Operation::Gt, "2.1", "3.1", false),
        (Operation::Gt, "3.1", "3.1", false),
        (Operation::Gt, "4.1", "3.1", true),
        (Operation::Gte, "2.1", "3.1", false),
        (Operation::Gte, "3.1", "3.1", true),
        (Operation::Gte, "4.1", "3.1", true),
        (Operation::Eq, "3.1", "3.1", true),
        (Operation::Eq, "2.1", "3.1", false),
        (Operation::Neq, "3.1", "3.1", false),
        (Operation::Neq, "2.1", "3.1", true),

        // String
        (Operation::Lt, r#""abc""#, r#""abb""#, false),
        (Operation::Lt, r#""abc""#, r#""abc""#, false),
        (Operation::Lt, r#""abc""#, r#""abd""#, true),
        (Operation::Lte, r#""abc""#, r#""abb""#, false),
        (Operation::Lte, r#""abc""#, r#""abc""#, true),
        (Operation::Lte, r#""abc""#, r#""abd""#, true),
        (Operation::Gt, r#""abc""#, r#""abb""#, true),
        (Operation::Gt, r#""abc""#, r#""abc""#, false),
        (Operation::Gt, r#""abc""#, r#""abd""#, false),
        (Operation::Gte, r#""abc""#, r#""abb""#, true),
        (Operation::Gte, r#""abc""#, r#""abc""#, true),
        (Operation::Gte, r#""abc""#, r#""abd""#, false),
        (Operation::Eq, r#""abc""#, r#""abc""#, true),
        (Operation::Eq, r#""abc""#, r#""abd""#, false),
        (Operation::Neq, r#""abc""#, r#""abc""#, false),
        (Operation::Neq, r#""abc""#, r#""abd""#, true),

        // Mixed types
        (Operation::Gt, "100", "false", true),
        (Operation::Gt, "3.14", "100", true),
        (Operation::Gt, r#""abcd""#, "3.14", true),

        // Null (always returns true)
        (Operation::Lt, "null", "3", true),
        (Operation::Lt, "3", "null", true),
        (Operation::Lte, "null", "3", true),
        (Operation::Lte, "3", "null", true),
        (Operation::Gt, "null", "3", true),
        (Operation::Gte, "3", "null", true),
        (Operation::Eq, "null", "3", true),
        (Operation::Eq, "3", "null", true),
        (Operation::Neq, "null", "3", true),
        (Operation::Neq, "3", "null", true),
    ];

    for (operation, operand1, operand2, expected) in ops {
        let expr = binary(operation, constant(operand1), constant(operand2));
        assert_eq!(
            eval_bool(&expr),
            expected,
            "compare failed {:?} {:?} {:?}",
            operation,
            operand1,
            operand2
        );
    }
}

#[test]
fn test_comparison_bad_operand() {
    let expr = binary(Operation::Lt, constant("[1]"), constant("3"));
    assert_eq!(eval(&expr).unwrap_err(), "Unindexable field type".to_string());
    let expr = binary(Operation::Lt, constant("3"), path("foo"));
    assert_eq!(eval(&expr).unwrap_err(), "Unknown field foo".to_string());
}

#[test]
fn test_in_not_in() {
    let list = "[1, 3, 5, 7, 9]";
    assert!(eval_bool(&binary(Operation::In, constant("3"), constant(list))));
    assert!(!eval_bool(&binary(Operation::In, constant("4"), constant(list))));
    assert!(!eval_bool(&binary(Operation::NotIn, constant("3"), constant(list))));
    assert!(eval_bool(&binary(Operation::NotIn, constant("4"), constant(list))));
}

#[test]
fn test_in_not_in_bad_param() {
    let expr = binary(Operation::In, constant("3"), constant("12"));
    assert_eq!(eval(&expr).unwrap_err(), "RHS of in expression must be an array".to_string());

    let expr = binary(Operation::NotIn, constant("3"), constant(r#"{"foo": 3}"#));
    assert_eq!(eval(&expr).unwrap_err(), "RHS of in expression must be an array".to_string());
}

#[test]
fn test_doc2expr() {
    let expr = doc2expr(&json(
        r#"["and", ["gt", ["get", "foo.bar"], ["const", 10]], ["le", ["get", "baz"], ["const", "boo"]]]"#,
    ));
    assert_eq!(expr.unwrap().to_string(), "((foo.bar > 10) and (baz <= \"boo\"))");
}

fn doc2expr_error(text: &str) -> String {
    doc2expr(&json(text)).unwrap_err()
}

#[test]
fn test_doc2expr_invalid_field() {
    assert_eq!(doc2expr_error(r#"["get", "$---/>"]"#), "Invalid path element: $---/>");
}

#[test]
fn test_invalid_op_type() {
    assert_eq!(doc2expr_error("[12]"), "Invalid operation type");
}

#[test]
fn test_invalid_operation() {
    assert_eq!(doc2expr_error(r#"["frobulate", 12]"#), "Bad operation frobulate");
}

#[test]
fn test_invalid_type() {
    assert_eq!(doc2expr_error("12"), "Invalid expression 12");
}

#[test]
fn test_unreadable_expression() {
    assert!(try_doc2expr(&json("[]")).is_none());
    assert!(try_doc2expr(&json(r#"["get"]"#)).is_none());
    assert!(try_doc2expr(&json(r#"["const"]"#)).is_none());
    assert!(try_doc2expr(&json(r#"["get", "a[99999999999999999999]"]"#)).is_none());
    assert!(try_doc2expr(&json(r#"["eq", ["const", 1], []]"#)).is_none());
    // An operand behind an error does not matter
    assert!(matches!(try_doc2expr(&json(r#"["eq", 1, []]"#)), Some(Err(_))));
    assert!(matches!(try_doc2expr(&json(r#"["eq", ["const", 1], ["const", 1]]"#)), Some(Ok(_))));
    // A missing operand is null
    assert_eq!(doc2expr_error(r#"["eq"]"#), "Invalid expression null");
    assert_eq!(doc2expr_error(r#"["get", 12]"#), "Invalid field name Number(12)");
}
