//! Expressions over the fields of documents, and a filter that keeps the
//! documents for which an expression holds.

use vstd::prelude::*;
use vstd::utf8::{encode_utf8, encode_utf8_decode_utf8};

use crate::btree_node::{keys_of, Entry};
use crate::collection::Collection;
use crate::field_path::{
    indices_fit, lookup, lookup_field, parse_path, path_text, split_dots, FieldPath, PathStep,
};
use crate::key_encoding::{
    be64, encode, encode_key, encode_value, float_offset, int_offset, key_before,
    law_bools_are_ordered, law_float_keys_follow_the_doubles, law_integer_keys_follow_the_integers,
    law_keys_are_unique, law_kinds_of_keys_are_apart, law_large_integer_keys_are_those_of_doubles,
    law_values_that_can_be_keys, lemma_be64, number_float, number_int, DocId, TAG_BOOL, TAG_FLOAT,
    TAG_INT, TAG_STRING,
};
use crate::key_order::{
    ascending, group_lex_order, key_equal, key_less, lemma_lex_antisymmetric, lemma_lex_lt_at,
    lemma_lex_total, lemma_rank, lex_le, lex_lt, lex_lt_at, rank,
};
use crate::page_cache::{PageCache, PersistentStore};
use crate::scan::{
    beyond, document_list, entries_from, item_view, law_index_holds_every_document,
    law_index_holds_no_others, law_index_lists_documents, law_range_has_both_ends, law_range_scan,
    law_reverse_range_scan, range_key, within, IndexScan, SequentialScan,
};
use crate::util::{be64_bytes, le64_bytes};
use crate::value::{
    json_chars, json_debug, json_ok, law_equal_values_are_the_same, law_value_equals_itself,
    option_view, same_json, str_equal, value_equal, value_text, without_zeros, Json, Number, Value,
};

verus! {

#[derive(PartialEq, Eq, Debug, Clone, Copy, Structural)]
pub enum Operation {
    Gt,
    Gte,
    Lt,
    Lte,
    Eq,
    Neq,
    And,
    Or,
    In,
    NotIn,
}

#[derive(Debug)]
pub enum ExpressionNode {
    BinaryOp((Operation, Box<ExpressionNode>, Box<ExpressionNode>)),
    Path(FieldPath),
    Constant(Value),
}

/// An expression as a mathematical object.
pub enum Expression {
    Binary { operation: Operation, left: Box<Expression>, right: Box<Expression> },
    Path(Seq<PathStep>),
    Constant(Json),
}

/// What a node stands for.
pub open spec fn expression_of(node: ExpressionNode) -> Expression
    decreases node,
{
    match node {
        ExpressionNode::BinaryOp(parts) => Expression::Binary {
            operation: parts.0,
            left: Box::new(expression_of(*parts.1)),
            right: Box::new(expression_of(*parts.2)),
        },
        ExpressionNode::Path(path) => Expression::Path(path@),
        ExpressionNode::Constant(value) => Expression::Constant(value@),
    }
}

impl View for ExpressionNode {
    type V = Expression;

    open spec fn view(&self) -> Expression {
        expression_of(*self)
    }
}

pub open spec fn operation_text(operation: Operation) -> Seq<char> {
    match operation {
        Operation::Gt => ">"@,
        Operation::Gte => ">="@,
        Operation::Lt => "<"@,
        Operation::Lte => "<="@,
        Operation::Eq => "="@,
        Operation::Neq => "<>"@,
        Operation::And => "and"@,
        Operation::Or => "or"@,
        Operation::In => "in"@,
        Operation::NotIn => "not in"@,
    }
}

/// An expression as text.
pub open spec fn expression_text(expression: Expression) -> Seq<char>
    decreases expression,
{
    match expression {
        Expression::Binary { operation, left, right } => "("@ + expression_text(*left) + " "@
            + operation_text(operation) + " "@ + expression_text(*right) + ")"@,
        Expression::Path(steps) => path_text(steps),
        Expression::Constant(json) => json_chars(json),
    }
}

/// The constants of the expression are JSON values.
pub open spec fn constants_ok(expression: Expression) -> bool
    decreases expression,
{
    match expression {
        Expression::Binary { operation, left, right } => constants_ok(*left) && constants_ok(
            *right,
        ),
        Expression::Path(_) => true,
        Expression::Constant(json) => json_ok(json),
    }
}

impl Operation {
    /// The operation as text.
    pub fn to_string(&self) -> (text: String)
        ensures
            text@ == operation_text(*self),
    {
        match self {
            Operation::Gt => ">".to_owned(),
            Operation::Gte => ">=".to_owned(),
            Operation::Lt => "<".to_owned(),
            Operation::Lte => "<=".to_owned(),
            Operation::Eq => "=".to_owned(),
            Operation::Neq => "<>".to_owned(),
            Operation::And => "and".to_owned(),
            Operation::Or => "or".to_owned(),
            Operation::In => "in".to_owned(),
            Operation::NotIn => "not in".to_owned(),
        }
    }
}

impl ExpressionNode {
    /// The expression as text, with every operation in brackets.
    pub fn to_string(&self) -> (text: String)
        requires
            constants_ok(self@),
        ensures
            text@ == expression_text(self@),
        decreases self,
    {
        match self {
            ExpressionNode::BinaryOp(parts) => {
                let mut text = "(".to_owned();
                text.append(parts.1.to_string().as_str());
                text.append(" ");
                text.append(parts.0.to_string().as_str());
                text.append(" ");
                text.append(parts.2.to_string().as_str());
                text.append(")");
                text
            },
            ExpressionNode::Path(path) => path.to_string(),
            ExpressionNode::Constant(value) => value_text(value),
        }
    }
}

/// What a value is worth in a boolean expression.
pub open spec fn bool_result(json: Json) -> Result<bool, Seq<char>> {
    match json {
        Json::Bool(b) => Ok(b),
        _ => Err("Invalid type for boolean expr"@),
    }
}

pub fn get_bool_result(value: &Value) -> (result: Result<bool, String>)
    ensures
        match result {
            Ok(b) => bool_result(value@) == Ok::<bool, Seq<char>>(b),
            Err(message) => bool_result(value@) == Err::<bool, Seq<char>>(message@),
        },
{
    match value.as_bool() {
        Some(b) => Ok(b),
        None => Err("Invalid type for boolean expr".to_owned()),
    }
}

/// Whether two keys compare as the operation says.
pub open spec fn compare_keys(operation: Operation, left: Seq<u8>, right: Seq<u8>) -> bool {
    match operation {
        Operation::Gt => lex_lt(right, left),
        Operation::Gte => !lex_lt(left, right),
        Operation::Lt => lex_lt(left, right),
        Operation::Lte => !lex_lt(right, left),
        Operation::Eq => left == right,
        _ => left != right,
    }
}

/// What an operation makes of two values.
pub open spec fn apply(operation: Operation, left: Json, right: Json) -> Result<Json, Seq<char>> {
    match operation {
        Operation::In | Operation::NotIn => match right {
            Json::Array(items) => {
                let found = exists|i: int|
                    0 <= i < items.len() && same_json(#[trigger] items[i], left);
                Ok(Json::Bool(found == (operation == Operation::In)))
            },
            _ => Err("RHS of in expression must be an array"@),
        },
        _ => if left is Null || right is Null {
            Ok(Json::Bool(true))
        } else {
            match operation {
                Operation::And => match (bool_result(left), bool_result(right)) {
                    (Ok(false), _) => Ok(Json::Bool(false)),
                    (Ok(true), Ok(b)) => Ok(Json::Bool(b)),
                    (Ok(true), Err(message)) => Err(message),
                    (Err(message), _) => Err(message),
                },
                Operation::Or => match (bool_result(left), bool_result(right)) {
                    (Ok(true), _) => Ok(Json::Bool(true)),
                    (Ok(false), Ok(b)) => Ok(Json::Bool(b)),
                    (Ok(false), Err(message)) => Err(message),
                    (Err(message), _) => Err(message),
                },
                _ => match (encode(left, 0), encode(right, 0)) {
                    (Ok(a), Ok(b)) => Ok(Json::Bool(compare_keys(operation, a, b))),
                    (Err(message), _) => Err(message),
                    (Ok(_), Err(message)) => Err(message),
                },
            }
        },
    }
}

/// The value of an expression for a document.
pub open spec fn evaluate(expression: Expression, document: Json) -> Result<Json, Seq<char>>
    decreases expression,
{
    match expression {
        Expression::Constant(json) => Ok(json),
        Expression::Path(steps) => lookup(steps, document),
        Expression::Binary { operation, left, right } => match evaluate(*left, document) {
            Err(message) => Err(message),
            Ok(a) => match evaluate(*right, document) {
                Err(message) => Err(message),
                Ok(b) => apply(operation, a, b),
            },
        },
    }
}

/// Whether a value is among others.
fn contains_value(items: &Vec<Value>, value: &Value) -> (found: bool)
    ensures
        found == exists|i: int|
            0 <= i < items@.len() && same_json((#[trigger] items@[i])@, value@),
{
    let mut i: usize = 0;
    while i < items.len()
        invariant
            i <= items@.len(),
            forall|j: int| 0 <= j < i ==> !same_json((#[trigger] items@[j])@, value@),
        decreases items@.len() - i,
    {
        if value_equal(&items[i], value) {
            return true;
        }
        i = i + 1;
    }
    false
}

/// Applies an operation other than membership.
fn apply_operation(operation: Operation, left_val: &Value, right_val: &Value) -> (result: Result<
    Value,
    String,
>)
    requires
        operation != Operation::In,
        operation != Operation::NotIn,
    ensures
        match result {
            Ok(value) => apply(operation, left_val@, right_val@) == Ok::<Json, Seq<char>>(value@),
            Err(message) => apply(operation, left_val@, right_val@) == Err::<Json, Seq<char>>(
                message@,
            ),
        },
{
    // Comparisons must obey the same ordering as the btree encoding, so they are
    // encoded the same with a dummy docid. This means values are not coerced for
    // comparison.
    if left_val.is_null() || right_val.is_null() {
        // Always return true for comparisons where value is null.
        return Ok(Value::Bool(true));
    }
    if operation == Operation::And {
        return match get_bool_result(left_val) {
            Err(message) => Err(message),
            Ok(false) => Ok(Value::Bool(false)),
            Ok(true) => match get_bool_result(right_val) {
                Err(message) => Err(message),
                Ok(b) => Ok(Value::Bool(b)),
            },
        };
    }
    if operation == Operation::Or {
        return match get_bool_result(left_val) {
            Err(message) => Err(message),
            Ok(true) => Ok(Value::Bool(true)),
            Ok(false) => match get_bool_result(right_val) {
                Err(message) => Err(message),
                Ok(b) => Ok(Value::Bool(b)),
            },
        };
    }
    let encoded_left = match encode_key(left_val, DocId(0)) {
        Ok(key) => key,
        Err(message) => return Err(message),
    };
    let encoded_right = match encode_key(right_val, DocId(0)) {
        Ok(key) => key,
        Err(message) => return Err(message),
    };
    let left = encoded_left.as_slice();
    let right = encoded_right.as_slice();
    let holds: bool = match operation {
        Operation::Gt => key_less(right, left),
        Operation::Gte => !key_less(left, right),
        Operation::Lt => key_less(left, right),
        Operation::Lte => !key_less(right, left),
        Operation::Eq => key_equal(left, right),
        _ => !key_equal(left, right),
    };
    Ok(Value::Bool(holds))
}

impl ExpressionNode {
    /// The value of the expression for a document.
    pub fn eval(&self, document: &Value) -> (result: Result<Value, String>)
        ensures
            match result {
                Ok(value) => evaluate(self@, document@) == Ok::<Json, Seq<char>>(value@),
                Err(message) => evaluate(self@, document@) == Err::<Json, Seq<char>>(message@),
            },
        decreases self,
    {
        match self {
            ExpressionNode::Constant(val) => Ok(val.clone()),
            ExpressionNode::Path(path) => lookup_field(path, document),
            ExpressionNode::BinaryOp(parts) => {
                let left_val = match parts.1.eval(document) {
                    Ok(value) => value,
                    Err(message) => return Err(message),
                };
                let right_val = match parts.2.eval(document) {
                    Ok(value) => value,
                    Err(message) => return Err(message),
                };
                let operation: Operation = parts.0;
                if operation == Operation::In || operation == Operation::NotIn {
                    if let Value::Array(items) = &right_val {
                        let found: bool = contains_value(items, &left_val);
                        proof {
                            let elements = right_val@->Array_0;
                            assert(found == exists|i: int|
                                0 <= i < elements.len() && same_json(
                                    #[trigger] elements[i],
                                    left_val@,
                                )) by {
                                if found {
                                    let i = choose|i: int|
                                        0 <= i < items@.len() && same_json(
                                            (#[trigger] items@[i])@,
                                            left_val@,
                                        );
                                    assert(elements[i] == items@[i]@);
                                } else {
                                    assert forall|i: int| 0 <= i < elements.len() implies !same_json(
                                        #[trigger] elements[i],
                                        left_val@,
                                    ) by {
                                        assert(elements[i] == items@[i]@);
                                    }
                                }
                            }
                        }
                        Ok(Value::Bool(found == (operation == Operation::In)))
                    } else {
                        Err("RHS of in expression must be an array".to_owned())
                    }
                } else {
                    apply_operation(operation, &left_val, &right_val)
                }
            },
        }
    }
}

/// The operation with a given name in a stored expression.
pub open spec fn operation_of(name: Seq<char>) -> Option<Operation> {
    if name == "and"@ {
        Some(Operation::And)
    } else if name == "or"@ {
        Some(Operation::Or)
    } else if name == "gt"@ {
        Some(Operation::Gt)
    } else if name == "ge"@ {
        Some(Operation::Gte)
    } else if name == "lt"@ {
        Some(Operation::Lt)
    } else if name == "le"@ {
        Some(Operation::Lte)
    } else if name == "eq"@ {
        Some(Operation::Eq)
    } else if name == "ne"@ {
        Some(Operation::Neq)
    } else {
        None
    }
}

/// An item of an array; beyond its end there are only nulls.
pub open spec fn item_or_null(items: Seq<Json>, i: int) -> Json {
    if i < items.len() {
        items[i]
    } else {
        Json::Null
    }
}

/// The expression that is stored as a value: an array of an operation and its operands.
pub open spec fn stored_expression(json: Json) -> Result<Expression, Seq<char>>
    decreases json,
{
    match json {
        Json::Array(items) => match item_or_null(items, 0) {
            Json::String(name) => if name == "get"@ {
                match item_or_null(items, 1) {
                    Json::String(path) => match parse_path(path) {
                        Ok(steps) => Ok(Expression::Path(steps)),
                        Err(message) => Err(message),
                    },
                    other => Err("Invalid field name "@ + json_debug(other)),
                }
            } else if name == "const"@ {
                Ok(Expression::Constant(item_or_null(items, 1)))
            } else {
                match operation_of(name) {
                    None => Err("Bad operation "@ + name),
                    Some(operation) => match operand(items, 1) {
                        Err(message) => Err(message),
                        Ok(left) => match operand(items, 2) {
                            Err(message) => Err(message),
                            Ok(right) => Ok(
                                Expression::Binary {
                                    operation,
                                    left: Box::new(left),
                                    right: Box::new(right),
                                },
                            ),
                        },
                    },
                }
            },
            _ => Err("Invalid operation type"@),
        },
        _ => Err("Invalid expression "@ + json_chars(json)),
    }
}

/// An operand of a stored expression.
pub open spec fn operand(items: Seq<Json>, i: int) -> Result<Expression, Seq<char>>
    decreases items,
{
    if 0 <= i < items.len() {
        stored_expression(items[i])
    } else {
        Err("Invalid expression "@ + json_chars(Json::Null))
    }
}

/// Every operation has a name, `get` and `const` have an operand, and every
/// index in a path is a number that a machine word can hold. Operands behind an
/// error do not matter.
pub open spec fn expression_ok(json: Json) -> bool
    decreases json,
{
    match json {
        Json::Array(items) => items.len() > 0 && match items[0] {
            Json::String(name) => if name == "get"@ {
                items.len() > 1 && (items[1] matches Json::String(path) ==> indices_fit(
                    split_dots(path),
                ))
            } else if name == "const"@ {
                items.len() > 1
            } else if operation_of(name) is Some {
                &&& items.len() > 1 ==> expression_ok(items[1])
                &&& items.len() > 2 && operand(items, 1) is Ok ==> expression_ok(items[2])
            } else {
                true
            },
            _ => true,
        },
        _ => true,
    }
}

/// The result of reading an expression.
pub open spec fn expression_result(result: Result<ExpressionNode, String>) -> Result<
    Expression,
    Seq<char>,
> {
    match result {
        Ok(node) => Ok(node@),
        Err(message) => Err(message@),
    }
}

fn find_operation(name: &str) -> (result: Option<Operation>)
    ensures
        result == operation_of(name@),
{
    if str_equal(name, "and") {
        Some(Operation::And)
    } else if str_equal(name, "or") {
        Some(Operation::Or)
    } else if str_equal(name, "gt") {
        Some(Operation::Gt)
    } else if str_equal(name, "ge") {
        Some(Operation::Gte)
    } else if str_equal(name, "lt") {
        Some(Operation::Lt)
    } else if str_equal(name, "le") {
        Some(Operation::Lte)
    } else if str_equal(name, "eq") {
        Some(Operation::Eq)
    } else if str_equal(name, "ne") {
        Some(Operation::Neq)
    } else {
        None
    }
}

/// What is read where an operand is missing.
fn missing_operand() -> (result: Result<ExpressionNode, String>)
    ensures
        expression_result(result) == Err::<Expression, Seq<char>>(
            "Invalid expression "@ + json_chars(Json::Null),
        ),
{
    let mut message = "Invalid expression ".to_owned();
    message.append(value_text(&Value::Null).as_str());
    Err(message)
}

/// Reads an expression that is stored as a value.
pub fn doc2expr(value: &Value) -> (result: Result<ExpressionNode, String>)
    requires
        json_ok(value@),
        expression_ok(value@),
    ensures
        expression_result(result) == stored_expression(value@),
{
    try_doc2expr(value).unwrap()
}

/// Reads an expression as `doc2expr` does; `None` if an operation or an operand is
/// missing where there has to be one, or if an index in a path is too large.
pub fn try_doc2expr(value: &Value) -> (result: Option<Result<ExpressionNode, String>>)
    requires
        json_ok(value@),
    ensures
        (result is None) == !expression_ok(value@),
        result matches Some(outcome) ==> expression_result(outcome) == stored_expression(value@),
    decreases value,
{
    if let Value::Array(vec) = value {
        let ghost items = value@->Array_0;
        proof {
            assert(items.len() == vec@.len());
            assert forall|i: int| 0 <= i < items.len() implies #[trigger] items[i] == vec@[i]@
                && json_ok(items[i]) by {}
        }
        if vec.len() == 0 {
            return None;
        }
        let operation = match vec[0].as_str() {
            Some(name) => name,
            None => return Some(Err("Invalid operation type".to_owned())),
        };
        assert(items[0] == Json::String(operation@));
        // Check for unary ops
        if str_equal(operation, "get") {
            if vec.len() < 2 {
                return None;
            }
            assert(items[1] == vec@[1]@);
            return match vec[1].as_str() {
                Some(path) => match FieldPath::try_new(path) {
                    None => None,
                    Some(Ok(path)) => Some(Ok(ExpressionNode::Path(path))),
                    Some(Err(message)) => Some(Err(message)),
                },
                None => {
                    let mut message = "Invalid field name ".to_owned();
                    message.append(vec[1].to_debug_string().as_str());
                    Some(Err(message))
                },
            };
        }
        if str_equal(operation, "const") {
            if vec.len() < 2 {
                return None;
            }
            assert(items[1] == vec@[1]@);
            return Some(Ok(ExpressionNode::Constant(vec[1].clone())));
        }
        // Binary operation
        let opcode: Operation = match find_operation(operation) {
            Some(opcode) => opcode,
            None => {
                let mut message = "Bad operation ".to_owned();
                message.append(operation);
                return Some(Err(message));
            },
        };
        assert(decreases_to!(value => value->Array_0));
        assert(decreases_to!(value->Array_0 => value->Array_0@));
        let left_result = if vec.len() > 1 {
            assert(items[1] == vec@[1]@);
            assert(decreases_to!(value->Array_0@ => value->Array_0@[1]));
            try_doc2expr(&vec[1])
        } else {
            Some(missing_operand())
        };
        assert(left_result matches Some(outcome) ==> expression_result(outcome) == operand(items, 1));
        let left = match left_result {
            None => return None,
            Some(Ok(node)) => node,
            Some(Err(message)) => return Some(Err(message)),
        };
        let right_result = if vec.len() > 2 {
            assert(items[2] == vec@[2]@);
            assert(decreases_to!(value->Array_0@ => value->Array_0@[2]));
            try_doc2expr(&vec[2])
        } else {
            Some(missing_operand())
        };
        assert(right_result matches Some(outcome) ==> expression_result(outcome) == operand(items, 2));
        let right = match right_result {
            None => return None,
            Some(Ok(node)) => node,
            Some(Err(message)) => return Some(Err(message)),
        };
        Some(Ok(ExpressionNode::BinaryOp((opcode, Box::new(left), Box::new(right)))))
    } else {
        let mut message = "Invalid expression ".to_owned();
        message.append(value_text(value).as_str());
        Some(Err(message))
    }
}

/// Something that hands out documents one by one.
pub trait DocumentSource {
    /// The source can be read from.
    closed spec fn wf(&self) -> bool {
        arbitrary()
    }

    /// The documents that were not handed out yet.
    closed spec fn remaining(&self) -> Seq<(u64, Json)> {
        arbitrary()
    }

    fn next(&mut self) -> (result: Option<(DocId, Value)>)
        requires
            old(self).wf(),
        ensures
            final(self).wf(),
            ({
                let rest = old(self).remaining();
                if rest.len() == 0 {
                    result is None && final(self).remaining() == rest
                } else {
                    item_view(result) == Some(rest[0]) && final(self).remaining() == rest.skip(1)
                }
            }),
    ;
}

/// The documents of a collection, read as they are asked for.
pub struct ScanSource<'a, S: PersistentStore> {
    scan: SequentialScan,
    page_cache: &'a mut PageCache<S>,
}

impl<'a, S: PersistentStore> ScanSource<'a, S> {
    pub fn new(collection: &Collection, page_cache: &'a mut PageCache<S>) -> (source: Self)
        requires
            old(page_cache).inv(),
            collection.stored(old(page_cache)@.pages),
            collection.can_read(old(page_cache)@),
        ensures
            source.wf(),
            source.remaining() == document_list(
                old(page_cache)@.pages,
                collection.entries(old(page_cache)@.pages),
            ),
    {
        let scan = SequentialScan::new(collection, page_cache);
        ScanSource { scan, page_cache }
    }
}

impl<'a, S: PersistentStore> DocumentSource for ScanSource<'a, S> {
    closed spec fn wf(&self) -> bool {
        &&& self.page_cache.inv()
        &&& self.scan.wf(self.page_cache@.pages)
        &&& self.scan.can_read(self.page_cache@)
    }

    closed spec fn remaining(&self) -> Seq<(u64, Json)> {
        self.scan.remaining(self.page_cache@.pages)
    }

    fn next(&mut self) -> (result: Option<(DocId, Value)>) {
        self.scan.next(self.page_cache)
    }
}

/// The documents that the entries of an index lead to, up to the end of a range.
pub open spec fn range_list(
    docs: Map<u64, Json>,
    end: Option<Seq<u8>>,
    reverse: bool,
    entries: Seq<Entry>,
) -> Seq<(u64, Json)>
    decreases entries.len(),
{
    if entries.len() == 0 || beyond(end, reverse, entries[0].key) {
        Seq::empty()
    } else {
        let id = be64(entries[0].value);
        seq![(id, docs[id])] + range_list(docs, end, reverse, entries.skip(1))
    }
}

/// The documents in a range of an index, read as they are asked for.
pub struct IndexSource<'a, S: PersistentStore> {
    scan: IndexScan,
    collection: &'a Collection,
    page_cache: &'a mut PageCache<S>,
    done: bool,
}

impl<'a, S: PersistentStore> IndexSource<'a, S> {
    pub fn new(
        collection: &'a Collection,
        field_index: usize,
        start_range: Option<Value>,
        end_range: Option<Value>,
        reverse: bool,
        page_cache: &'a mut PageCache<S>,
    ) -> (result: Result<Self, String>)
        requires
            old(page_cache).inv(),
            collection.stored(old(page_cache)@.pages),
            collection.can_read(old(page_cache)@),
            field_index < collection.indices@.len(),
        ensures
            ({
                let pages = old(page_cache)@.pages;
                let root = collection.indices@[field_index as int].btree.root();
                match (
                    range_key(option_view(start_range), reverse),
                    range_key(option_view(end_range), !reverse),
                ) {
                    (Err(message), _) => result matches Err(text) && text@ == message,
                    (Ok(_), Err(message)) => result matches Err(text) && text@ == message,
                    (Ok(start), Ok(end)) => result matches Ok(source) && source.wf()
                        && source.remaining() == range_list(
                        collection.docs(pages),
                        end,
                        reverse,
                        entries_from(pages, root, start, reverse),
                    ),
                }
            }),
    {
        let ghost cache = page_cache@;
        match IndexScan::new(
            collection,
            field_index,
            start_range,
            end_range,
            reverse,
            page_cache,
        ) {
            Ok(scan) => {
                proof {
                    collection.lemma_same_order(cache, page_cache@);
                }
                Ok(IndexSource { scan, collection, page_cache, done: false })
            },
            Err(message) => Err(message),
        }
    }
}

impl<'a, S: PersistentStore> DocumentSource for IndexSource<'a, S> {
    closed spec fn wf(&self) -> bool {
        &&& self.page_cache.inv()
        &&& self.collection.stored(self.page_cache@.pages)
        &&& self.collection.can_read(self.page_cache@)
        &&& self.scan.wf(*self.collection, self.page_cache@.pages)
    }

    closed spec fn remaining(&self) -> Seq<(u64, Json)> {
        if self.done {
            Seq::empty()
        } else {
            range_list(
                self.collection.docs(self.page_cache@.pages),
                self.scan.end(),
                self.scan.is_reverse(),
                self.scan.remaining(self.page_cache@.pages),
            )
        }
    }

    fn next(&mut self) -> (result: Option<(DocId, Value)>) {
        if self.done {
            return None;
        }
        let ghost cache = self.page_cache@;
        let ghost rest = self.scan.remaining(cache.pages);
        let ghost list = self.remaining();
        let result = self.scan.next(self.collection, self.page_cache);
        proof {
            self.collection.lemma_same_order(cache, self.page_cache@);
            if list.len() > 0 {
                assert(list.skip(1) =~= self.remaining());
            }
        }
        if result.is_none() {
            self.done = true;
        }
        result
    }
}

/// The expression holds for a document.
pub open spec fn accepts(expression: Expression, document: Json) -> bool {
    evaluate(expression, document) == Ok::<Json, Seq<char>>(Json::Bool(true))
}

/// The place of the first document for which the expression holds.
pub open spec fn first_accepted(expression: Expression, list: Seq<(u64, Json)>) -> nat
    decreases list.len(),
{
    if list.len() == 0 || accepts(expression, list[0].1) {
        0
    } else {
        1 + first_accepted(expression, list.skip(1))
    }
}

/// The documents for which the expression holds.
pub open spec fn accepted(expression: Expression, list: Seq<(u64, Json)>) -> Seq<(u64, Json)> {
    list.filter(|item: (u64, Json)| accepts(expression, item.1))
}

/// Passes on the documents of a source for which an expression holds.
pub struct ExpressionFilter<D: DocumentSource> {
    pub source: D,
    pub expression: Box<ExpressionNode>,
}

impl<D: DocumentSource> ExpressionFilter<D> {
    /// The next document for which the expression holds. A document for which it
    /// has no value is passed over.
    pub fn next(&mut self) -> (result: Option<(DocId, Value)>)
        requires
            old(self).source.wf(),
        ensures
            final(self).source.wf(),
            final(self).expression == old(self).expression,
            ({
                let rest = old(self).source.remaining();
                let n = first_accepted(old(self).expression@, rest) as int;
                if n < rest.len() {
                    item_view(result) == Some(rest[n]) && final(self).source.remaining()
                        == rest.skip(n + 1)
                } else {
                    result is None && final(self).source.remaining().len() == 0
                }
            }),
    {
        let ghost rest = self.source.remaining();
        let ghost expression = self.expression@;
        let ghost n = first_accepted(expression, rest);
        let ghost mut k: nat = 0;
        assert(rest.skip(0) =~= rest);
        loop
            invariant
                self.source.wf(),
                self.expression == old(self).expression,
                expression == self.expression@,
                k <= rest.len(),
                self.source.remaining() == rest.skip(k as int),
                rest == old(self).source.remaining(),
                n == first_accepted(expression, rest),
                n == k + first_accepted(expression, rest.skip(k as int)),
            decreases rest.len() - k,
        {
            match self.source.next() {
                None => {
                    return None;
                },
                Some((docid, doc)) => {
                    assert(rest.skip(k as int)[0] == rest[k as int]);
                    assert(rest.skip(k as int).skip(1) =~= rest.skip((k + 1) as int));
                    if let Ok(result) = self.expression.eval(&doc) {
                        if let Ok(true) = get_bool_result(&result) {
                            return Some((docid, doc));
                        }
                    }
                },
            }
            proof {
                k = k + 1;
            }
        }
    }
}

/// What a filter hands out one by one are all the documents for which the
/// expression holds, in the order of the source.
pub proof fn law_filter_keeps_what_matches(expression: Expression, list: Seq<(u64, Json)>)
    ensures
        ({
            let n = first_accepted(expression, list) as int;
            &&& n <= list.len()
            &&& n == list.len() ==> accepted(expression, list) == Seq::<(u64, Json)>::empty()
            &&& n < list.len() ==> accepted(expression, list) == seq![list[n]] + accepted(
                expression,
                list.skip(n + 1),
            )
        }),
    decreases list.len(),
{
    let test = |item: (u64, Json)| accepts(expression, item.1);
    if list.len() == 0 {
        reveal(Seq::filter);
        assert(accepted(expression, list) =~= Seq::<(u64, Json)>::empty());
    } else {
        let head = seq![list[0]];
        let tail = list.skip(1);
        assert(list =~= head + tail);
        Seq::filter_distributes_over_add(head, tail, test);
        assert(head.filter(test) =~= if test(list[0]) {
            head
        } else {
            Seq::empty()
        }) by {
            reveal_with_fuel(Seq::filter, 2);
            assert(head.drop_last() =~= Seq::<(u64, Json)>::empty());
        }
        if accepts(expression, list[0].1) {
            assert(list.skip(1) == tail);
        } else {
            law_filter_keeps_what_matches(expression, tail);
            let m = first_accepted(expression, tail) as int;
            assert(first_accepted(expression, list) == m + 1);
            assert(accepted(expression, list) =~= accepted(expression, tail));
            if m < tail.len() {
                assert(tail.skip(m + 1) =~= list.skip(m + 2));
                assert(tail[m] == list[m + 1]);
            }
        }
    }
}

/// Values that compare as smaller or greater stand in the same order in an
/// index, whatever their documents, unless a string has a zero byte in it.
pub proof fn law_comparisons_agree_with_indices(a: Json, b: Json, x: u64, y: u64)
    requires
        !(a is Null),
        !(b is Null),
        apply(Operation::Lt, a, b) == Ok::<Json, Seq<char>>(Json::Bool(true)),
        b matches Json::String(text) ==> forall|i: int|
            0 <= i < encode_utf8(text).len() ==> #[trigger] encode_utf8(text)[i] != 0,
    ensures
        apply(Operation::Gt, b, a) == Ok::<Json, Seq<char>>(Json::Bool(true)),
        encode(a, x) is Ok,
        encode(b, y) is Ok,
        lex_lt(encode(a, x)->Ok_0, encode(b, y)->Ok_0),
{
    let u = encode_value(a)->Ok_0;
    let v = encode_value(b)->Ok_0;
    let left = encode(a, 0)->Ok_0;
    let right = encode(b, 0)->Ok_0;
    let key = encode(a, x)->Ok_0;
    let other = encode(b, y)->Ok_0;
    assert(lex_lt(left, right));
    reveal(lex_lt);
    let i = choose|i: int| lex_lt_at(left, right, i);
    lemma_zero_bytes();
    lemma_be64(x);
    lemma_be64(y);
    lemma_value_bytes(a);
    lemma_value_bytes(b);
    // The keys differ within the shorter of the two values, or just behind it.
    if i > u.len() {
        if i < v.len() || i == left.len() {
            assert(left[0] == right[0]);
            assert(left[u.len() as int] == right[u.len() as int]);
            assert(u[0] == v[0]);
            assert(encode_utf8(b->String_0)[u.len() - 1] == v[u.len() as int]);
        } else {
            assert(right[i] == 0);
        }
    }
    if i >= v.len() {
        assert(right[i] == 0);
    }
    assert(lex_lt_at(key, other, i)) by {
        assert forall|j: int| 0 <= j < i implies #[trigger] key[j] == other[j] by {
            assert(left[j] == right[j]);
        }
    }
    lemma_lex_lt_at(key, other, i);
}

proof fn lemma_zero_bytes()
    ensures
        be64_bytes(0).len() == 8,
        forall|i: int| 0 <= i < 8 ==> #[trigger] be64_bytes(0)[i] == 0,
{
    reveal(le64_bytes);
}

/// How long the bytes for a value are, by their tag.
proof fn lemma_value_bytes(json: Json)
    requires
        encode_value(json) is Ok,
    ensures
        ({
            let bytes = encode_value(json)->Ok_0;
            &&& bytes.len() > 0
            &&& bytes[0] == TAG_BOOL ==> bytes.len() == 2
            &&& bytes[0] == TAG_INT || bytes[0] == TAG_FLOAT ==> bytes.len() == 9
            &&& bytes[0] != TAG_BOOL && bytes[0] != TAG_INT && bytes[0] != TAG_FLOAT ==> {
                &&& json is String
                &&& bytes == seq![TAG_STRING] + encode_utf8(json->String_0)
            }
        }),
{
    match json {
        Json::Number(n) => {
            match number_int(n) {
                Some(i) => lemma_be64(int_offset(i)),
                None => lemma_be64(float_offset(number_float(n))),
            }
        },
        _ => {},
    }
}

/// The operation gives the truth value for two values.
pub open spec fn yields(operation: Operation, left: Json, right: Json, holds: bool) -> bool {
    apply(operation, left, right) == Ok::<Json, Seq<char>>(Json::Bool(holds))
}

/// Of two values with keys, each is less than, equal to or greater than the other, and
/// just one of these. The other comparisons are their opposites, and a comparison can be
/// turned round.
pub proof fn law_values_compare_in_one_way(a: Json, b: Json)
    requires
        a is Bool || a is Number || (a is String && encode_utf8(a->String_0).len() <= 2008),
        b is Bool || b is Number || (b is String && encode_utf8(b->String_0).len() <= 2008),
    ensures
        ({
            let lt = yields(Operation::Lt, a, b, true);
            let eq = yields(Operation::Eq, a, b, true);
            let gt = yields(Operation::Gt, a, b, true);
            &&& lt && !eq && !gt || !lt && eq && !gt || !lt && !eq && gt
            &&& yields(Operation::Lt, a, b, lt)
            &&& yields(Operation::Eq, a, b, eq)
            &&& yields(Operation::Gt, a, b, gt)
            &&& yields(Operation::Gte, a, b, !lt)
            &&& yields(Operation::Lte, a, b, !gt)
            &&& yields(Operation::Neq, a, b, !eq)
            &&& yields(Operation::Lt, b, a, gt)
            &&& yields(Operation::Gt, b, a, lt)
            &&& yields(Operation::Eq, b, a, eq)
        }),
        yields(Operation::Eq, a, a, true),
{
    broadcast use group_lex_order;

    law_values_that_can_be_keys(a, 0);
    law_values_that_can_be_keys(b, 0);
    lemma_lex_total(encode(a, 0)->Ok_0, encode(b, 0)->Ok_0);
}

/// What is less than a second value that is less than a third one is less than that.
pub proof fn law_comparisons_are_transitive(a: Json, b: Json, c: Json)
    requires
        !(a is Null),
        !(b is Null),
        !(c is Null),
        yields(Operation::Lt, a, b, true),
        yields(Operation::Lt, b, c, true),
    ensures
        yields(Operation::Lt, a, c, true),
{
    broadcast use group_lex_order;

    assert(lex_lt(encode(a, 0)->Ok_0, encode(b, 0)->Ok_0));
    assert(lex_lt(encode(b, 0)->Ok_0, encode(c, 0)->Ok_0));
}

/// Where the key for one value comes before that for another, it is less.
proof fn lemma_less(a: Json, b: Json)
    requires
        !(a is Null),
        !(b is Null),
        key_before(a, b, 0, 0),
    ensures
        yields(Operation::Lt, a, b, true),
        yields(Operation::Lt, b, a, false),
        yields(Operation::Eq, a, b, false),
        yields(Operation::Eq, b, a, false),
{
    broadcast use group_lex_order;

    assert(lex_lt(encode(a, 0)->Ok_0, encode(b, 0)->Ok_0));
}

/// Strings are equal if they have the same characters, and compare as their bytes do.
pub proof fn law_strings_compare_by_their_bytes(a: Seq<char>, b: Seq<char>)
    requires
        encode_utf8(a).len() <= 2008,
        encode_utf8(b).len() <= 2008,
    ensures
        yields(Operation::Eq, Json::String(a), Json::String(b), a == b),
        yields(
            Operation::Lt,
            Json::String(a),
            Json::String(b),
            lex_lt(encode_utf8(a), encode_utf8(b)),
        ),
{
    broadcast use group_lex_order;

    let s = encode_utf8(a);
    let t = encode_utf8(b);
    lemma_lex_total(s, t);
    if lex_lt(s, t) {
        lemma_string_keys(a, b);
        lemma_less(Json::String(a), Json::String(b));
    } else if lex_lt(t, s) {
        lemma_string_keys(b, a);
        lemma_less(Json::String(b), Json::String(a));
    } else {
        encode_utf8_decode_utf8(a);
        encode_utf8_decode_utf8(b);
    }
}

proof fn lemma_string_keys(a: Seq<char>, b: Seq<char>)
    requires
        encode_utf8(a).len() <= 2008,
        encode_utf8(b).len() <= 2008,
        lex_lt(encode_utf8(a), encode_utf8(b)),
    ensures
        key_before(Json::String(a), Json::String(b), 0, 0),
{
    let s = encode_utf8(a);
    let t = encode_utf8(b);
    let p = encode(Json::String(a), 0)->Ok_0;
    let q = encode(Json::String(b), 0)->Ok_0;
    reveal(lex_lt);
    let i = choose|i: int| lex_lt_at(s, t, i);
    lemma_zero_bytes();
    assert forall|j: int| 0 <= j < i + 1 implies #[trigger] p[j] == q[j] by {
        if j > 0 {
            assert(s[j - 1] == t[j - 1]);
            assert(p[j] == s[j - 1]);
            assert(q[j] == t[j - 1]);
        }
    }
    if i < s.len() {
        assert(p[i + 1] == s[i] && q[i + 1] == t[i]);
        lemma_lex_lt_at(p, q, i + 1);
    } else {
        // Behind the shorter string there are only zeros
        assert forall|j: int| i + 1 <= j < p.len() implies #[trigger] p[j] == 0 by {
            if j > i + 1 {
                assert(p[j] == be64_bytes(0)[j - i - 2]);
            }
        }
        lemma_lex_total(p, q);
        if lex_lt(q, p) {
            let k = choose|k: int| lex_lt_at(q, p, k);
            assert(k < p.len() < q.len());
            assert(q[k] < p[k]);
            if k < i + 1 {
                assert(p[k] == q[k]);
            }
        }
    }
}

/// Integers compare as integers, and false is less than true.
pub proof fn law_integers_and_booleans_compare(i: i64, j: i64, u: u64, v: u64, p: bool, q: bool)
    requires
        i < 0,
        j < 0,
        u <= i64::MAX,
        v <= i64::MAX,
    ensures
        ({
            let neg = Json::Number(Number::NegInt(i));
            let neg2 = Json::Number(Number::NegInt(j));
            let pos = Json::Number(Number::PosInt(u));
            let pos2 = Json::Number(Number::PosInt(v));
            &&& yields(Operation::Lt, neg, neg2, i < j)
            &&& yields(Operation::Eq, neg, neg2, i == j)
            &&& yields(Operation::Lt, neg, pos, true)
            &&& yields(Operation::Lt, pos, neg, false)
            &&& yields(Operation::Eq, pos, neg, false)
            &&& yields(Operation::Eq, neg, pos, false)
            &&& yields(Operation::Lt, pos, pos2, u < v)
            &&& yields(Operation::Eq, pos, pos2, u == v)
            &&& yields(Operation::Lt, Json::Bool(p), Json::Bool(q), !p && q)
            &&& yields(Operation::Eq, Json::Bool(p), Json::Bool(q), p == q)
        }),
{
    let neg = Json::Number(Number::NegInt(i));
    let neg2 = Json::Number(Number::NegInt(j));
    let pos = Json::Number(Number::PosInt(u));
    let pos2 = Json::Number(Number::PosInt(v));
    law_values_compare_in_one_way(neg, neg2);
    law_values_compare_in_one_way(pos, pos2);
    law_values_compare_in_one_way(Json::Bool(p), Json::Bool(q));
    law_integer_keys_follow_the_integers(i, j, u, v, 0, 0);
    law_integer_keys_follow_the_integers(j, i, v, u, 0, 0);
    lemma_less(neg, pos);
    if i < j {
        lemma_less(neg, neg2);
    }
    if j < i {
        lemma_less(neg2, neg);
    }
    if u < v {
        lemma_less(pos, pos2);
    }
    if v < u {
        lemma_less(pos2, pos);
    }
    law_bools_are_ordered(0, 0);
    lemma_less(Json::Bool(false), Json::Bool(true));
}

/// Doubles compare as doubles do, but that a zero with a sign is less than one without.
pub proof fn law_doubles_compare(a: u64, b: u64)
    ensures
        ({
            let x = Json::Number(Number::Float(a));
            let y = Json::Number(Number::Float(b));
            let negative = a >= 0x8000_0000_0000_0000;
            let negative2 = b >= 0x8000_0000_0000_0000;
            &&& yields(Operation::Eq, x, y, a == b)
            &&& negative && !negative2 ==> yields(Operation::Lt, x, y, true)
            &&& !negative && negative2 ==> yields(Operation::Lt, x, y, false)
            &&& !negative && !negative2 ==> yields(Operation::Lt, x, y, a < b)
            &&& negative && negative2 ==> yields(Operation::Lt, x, y, b < a)
        }),
{
    let x = Json::Number(Number::Float(a));
    let y = Json::Number(Number::Float(b));
    law_values_compare_in_one_way(x, y);
    law_float_keys_follow_the_doubles(a, b, 0, 0);
    law_float_keys_follow_the_doubles(b, a, 0, 0);
    if key_before(x, y, 0, 0) {
        lemma_less(x, y);
    }
    if key_before(y, x, 0, 0) {
        lemma_less(y, x);
    }
}

/// Values are not changed to be compared: a boolean is less than any integer, that less
/// than any double, and that less than any string. Integers from 2^63 on count as doubles.
pub proof fn law_kinds_of_values_compare(b: bool, i: Number, f: Number, text: Seq<char>)
    requires
        i matches Number::PosInt(u) ==> u <= i64::MAX,
        !(i is Float),
        f matches Number::PosInt(u) ==> u > i64::MAX,
        !(f is NegInt),
        encode_utf8(text).len() <= 2008,
    ensures
        yields(Operation::Lt, Json::Bool(b), Json::Number(i), true),
        yields(Operation::Lt, Json::Bool(b), Json::Number(f), true),
        yields(Operation::Lt, Json::Bool(b), Json::String(text), true),
        yields(Operation::Lt, Json::Number(i), Json::Number(f), true),
        yields(Operation::Lt, Json::Number(i), Json::String(text), true),
        yields(Operation::Lt, Json::Number(f), Json::String(text), true),
{
    law_kinds_of_keys_are_apart(b, i, f, text, 0, 0);
    lemma_less(Json::Bool(b), Json::Number(i));
    lemma_less(Json::Bool(b), Json::Number(f));
    lemma_less(Json::Bool(b), Json::String(text));
    lemma_less(Json::Number(i), Json::Number(f));
    lemma_less(Json::Number(i), Json::String(text));
    lemma_less(Json::Number(f), Json::String(text));
}

/// A large integer compares as the double that is nearest to it.
pub proof fn law_large_integers_compare_as_doubles(operation: Operation, n: u64, other: Json) -> (m:
    int)
    requires
        n >= 0x8000_0000_0000_0000,
        operation != Operation::In,
        operation != Operation::NotIn,
    ensures
        -1024 <= m * 2048 - n <= 1024,
        m * 2048 - n == 1024 || m * 2048 - n == -1024 ==> m % 2 == 0,
        0x10_0000_0000_0000 <= m <= 0x20_0000_0000_0000,
        ({
            let large = Json::Number(Number::PosInt(n));
            let double = Json::Number(
                Number::Float((0x43e0_0000_0000_0000 + (m - 0x10_0000_0000_0000)) as u64),
            );
            &&& apply(operation, large, other) == apply(operation, double, other)
            &&& apply(operation, other, large) == apply(operation, other, double)
        }),
{
    law_large_integer_keys_are_those_of_doubles(n, 0)
}

/// Where one of two values is null, whatever is asked of them holds, but for membership.
pub proof fn law_null_satisfies_every_comparison(operation: Operation, json: Json)
    requires
        operation != Operation::In,
        operation != Operation::NotIn,
    ensures
        yields(operation, Json::Null, json, true),
        yields(operation, json, Json::Null, true),
{
}

/// Arrays, objects and strings that are too long for a key compare with nothing but null.
pub proof fn law_other_values_do_not_compare(operation: Operation, left: Json, right: Json)
    requires
        operation != Operation::In,
        operation != Operation::NotIn,
        operation != Operation::And,
        operation != Operation::Or,
        !(left is Null),
        !(right is Null),
    ensures
        left is Array || left is Object ==> apply(operation, left, right) == Err::<Json, Seq<char>>(
            "Unindexable field type"@,
        ),
        left is String && encode_utf8(left->String_0).len() > 2008 ==> apply(operation, left, right)
            == Err::<Json, Seq<char>>("Key is too large"@),
        encode(left, 0) is Ok && (right is Array || right is Object) ==> apply(
            operation,
            left,
            right,
        ) == Err::<Json, Seq<char>>("Unindexable field type"@),
        encode(left, 0) is Ok && right is String && encode_utf8(right->String_0).len() > 2008
            ==> apply(operation, left, right) == Err::<Json, Seq<char>>("Key is too large"@),
{
    law_values_that_can_be_keys(left, 0);
    law_values_that_can_be_keys(right, 0);
}

/// `and` and `or` combine booleans. The second operand does not matter where the first one
/// decides; an operand that matters and is no boolean is an error.
pub proof fn law_and_or_combine_booleans(p: bool, q: bool, other: Json, any: Json)
    ensures
        yields(Operation::And, Json::Bool(p), Json::Bool(q), p && q),
        yields(Operation::Or, Json::Bool(p), Json::Bool(q), p || q),
        !(other is Null) && !(other is Bool) ==> {
            let wrong = Err::<Json, Seq<char>>("Invalid type for boolean expr"@);
            &&& yields(Operation::And, Json::Bool(false), other, false)
            &&& yields(Operation::Or, Json::Bool(true), other, true)
            &&& apply(Operation::And, Json::Bool(true), other) == wrong
            &&& apply(Operation::Or, Json::Bool(false), other) == wrong
            &&& !(any is Null) ==> apply(Operation::And, other, any) == wrong
            &&& !(any is Null) ==> apply(Operation::Or, other, any) == wrong
        },
{
}

/// A value is in an array if and only if an item is equal to it, and not in it otherwise.
/// In anything but an array nothing can be.
pub proof fn law_membership(left: Json, items: Seq<Json>, other: Json)
    ensures
        items.contains(left) ==> yields(Operation::In, left, Json::Array(items), true),
        without_zeros(left) && !items.contains(left) ==> yields(
            Operation::In,
            left,
            Json::Array(items),
            false,
        ),
        ({
            let found = exists|i: int| 0 <= i < items.len() && same_json(left, #[trigger] items[i]);
            &&& yields(Operation::In, left, Json::Array(items), found)
            &&& yields(Operation::NotIn, left, Json::Array(items), !found)
        }),
        !(other is Array) ==> {
            let wrong = Err::<Json, Seq<char>>("RHS of in expression must be an array"@);
            &&& apply(Operation::In, left, other) == wrong
            &&& apply(Operation::NotIn, left, other) == wrong
        },
{
    let found = exists|i: int| 0 <= i < items.len() && same_json(left, #[trigger] items[i]);
    let there = exists|i: int| 0 <= i < items.len() && same_json(#[trigger] items[i], left);
    assert(found == there) by {
        assert forall|i: int| 0 <= i < items.len() implies same_json(left, items[i]) == same_json(
            #[trigger] items[i],
            left,
        ) by {
            lemma_same_symmetric(left, items[i]);
        }
        if found {
            let i = choose|i: int| 0 <= i < items.len() && same_json(left, #[trigger] items[i]);
            assert(same_json(items[i], left));
        }
    }
    law_value_equals_itself(left);
    if items.contains(left) {
        let i = items.index_of(left);
        assert(same_json(items[i], left));
    }
    let is_in = apply(Operation::In, left, Json::Array(items));
    let not_in = apply(Operation::NotIn, left, Json::Array(items));
    if there {
        let i = choose|i: int| 0 <= i < items.len() && same_json(#[trigger] items[i], left);
        assert(same_json(Json::Array(items)->Array_0[i], left));
        assert(is_in->Ok_0->Bool_0 && !not_in->Ok_0->Bool_0);
    } else {
        assert(!is_in->Ok_0->Bool_0 && not_in->Ok_0->Bool_0);
    }
    if found && without_zeros(left) {
        let i = choose|i: int| 0 <= i < items.len() && same_json(left, #[trigger] items[i]);
        law_equal_values_are_the_same(left, items[i]);
    }
}

proof fn lemma_same_symmetric(a: Json, b: Json)
    ensures
        same_json(a, b) == same_json(b, a),
    decreases a,
{
    match (a, b) {
        (Json::Array(x), Json::Array(y)) => {
            if x.len() == y.len() {
                assert forall|i: int| 0 <= i < x.len() implies same_json(#[trigger] x[i], y[i])
                    == same_json(y[i], x[i]) by {
                    lemma_same_symmetric(x[i], y[i]);
                }
                if same_json(a, b) {
                    assert forall|i: int| 0 <= i < y.len() implies same_json(
                        #[trigger] y[i],
                        x[i],
                    ) by {
                        assert(same_json(x[i], y[i]));
                    }
                }
                if same_json(b, a) {
                    assert forall|i: int| 0 <= i < x.len() implies same_json(
                        #[trigger] x[i],
                        y[i],
                    ) by {
                        assert(same_json(y[i], x[i]));
                    }
                }
            }
        },
        (Json::Object(x), Json::Object(y)) => {
            if x.len() == y.len() {
                assert forall|i: int| 0 <= i < x.len() implies same_json(
                    (#[trigger] x[i]).1,
                    y[i].1,
                ) == same_json(y[i].1, x[i].1) by {
                    lemma_same_symmetric(x[i].1, y[i].1);
                }
                if same_json(a, b) {
                    assert forall|i: int| 0 <= i < y.len() implies (#[trigger] y[i]).0 == x[i].0
                        && same_json(y[i].1, x[i].1) by {
                        assert(x[i].0 == y[i].0 && same_json(x[i].1, y[i].1));
                    }
                }
                if same_json(b, a) {
                    assert forall|i: int| 0 <= i < x.len() implies (#[trigger] x[i]).0 == y[i].0
                        && same_json(x[i].1, y[i].1) by {
                        assert(y[i].0 == x[i].0 && same_json(y[i].1, x[i].1));
                    }
                }
            }
        },
        _ => {},
    }
}

/// A constant is worth itself, a path what it leads to in the document, and an operation
/// what it makes of its operands; if these have errors, the first of them counts.
pub proof fn law_expressions_are_evaluated(
    operation: Operation,
    left: Expression,
    right: Expression,
    steps: Seq<PathStep>,
    json: Json,
    document: Json,
)
    ensures
        evaluate(Expression::Constant(json), document) == Ok::<Json, Seq<char>>(json),
        evaluate(Expression::Path(steps), document) == lookup(steps, document),
        ({
            let whole = evaluate(
                Expression::Binary { operation, left: Box::new(left), right: Box::new(right) },
                document,
            );
            match (evaluate(left, document), evaluate(right, document)) {
                (Ok(a), Ok(b)) => whole == apply(operation, a, b),
                (Err(message), _) => whole == Err::<Json, Seq<char>>(message),
                (Ok(_), Err(message)) => whole == Err::<Json, Seq<char>>(message),
            }
        }),
{
}

/// The next document that a filter hands out is the first one for which the expression is
/// true: for those before it, it is false, or has an error, or is worth something else.
pub proof fn law_filter_finds_the_first_match(expression: Expression, list: Seq<(u64, Json)>)
    ensures
        ({
            let n = first_accepted(expression, list) as int;
            let yes = Ok::<Json, Seq<char>>(Json::Bool(true));
            &&& n <= list.len()
            &&& n < list.len() ==> evaluate(expression, list[n].1) == yes
            &&& forall|i: int| 0 <= i < n ==> evaluate(expression, (#[trigger] list[i]).1) != yes
        }),
    decreases list.len(),
{
    if list.len() > 0 {
        let tail = list.skip(1);
        let n = first_accepted(expression, list) as int;
        law_filter_finds_the_first_match(expression, tail);
        if n > 0 {
            assert forall|i: int| 0 <= i < n implies evaluate(expression, (#[trigger] list[i]).1)
                != Ok::<Json, Seq<char>>(Json::Bool(true)) by {
                if i > 0 {
                    assert(list[i] == tail[i - 1]);
                }
            }
        }
    }
}

/// What a filter hands out are the documents for which the expression is true, each as
/// often as the source has it and in the same order.
pub proof fn law_filter_keeps_documents_in_order(
    expression: Expression,
    list: Seq<(u64, Json)>,
    item: (u64, Json),
)
    ensures
        accepted(expression, Seq::empty()) == Seq::<(u64, Json)>::empty(),
        accepted(expression, list.push(item)) == (if evaluate(expression, item.1) == Ok::<
            Json,
            Seq<char>,
        >(Json::Bool(true)) {
            accepted(expression, list).push(item)
        } else {
            accepted(expression, list)
        }),
{
    reveal(Seq::filter);
    assert(list.push(item).drop_last() =~= list);
}

/// A stored operation has one of eight names and two operands, and stands for that
/// operation on what these stand for. The error of the first operand counts first. An
/// operand that is missing is read as null, and what stands behind the two is not read.
pub proof fn law_stored_operations_are_read(name: Seq<char>, items: Seq<Json>)
    requires
        items.len() > 0,
        items[0] == Json::String(name),
    ensures
        ({
            let operation = if name == "and"@ {
                Some(Operation::And)
            } else if name == "or"@ {
                Some(Operation::Or)
            } else if name == "gt"@ {
                Some(Operation::Gt)
            } else if name == "ge"@ {
                Some(Operation::Gte)
            } else if name == "lt"@ {
                Some(Operation::Lt)
            } else if name == "le"@ {
                Some(Operation::Lte)
            } else if name == "eq"@ {
                Some(Operation::Eq)
            } else if name == "ne"@ {
                Some(Operation::Neq)
            } else {
                None
            };
            let whole = stored_expression(Json::Array(items));
            let first = stored_expression(
                if items.len() > 1 {
                    items[1]
                } else {
                    Json::Null
                },
            );
            let second = stored_expression(
                if items.len() > 2 {
                    items[2]
                } else {
                    Json::Null
                },
            );
            match operation {
                Some(operation) => match (first, second) {
                    (Ok(left), Ok(right)) => whole == Ok::<Expression, Seq<char>>(
                        Expression::Binary {
                            operation,
                            left: Box::new(left),
                            right: Box::new(right),
                        },
                    ),
                    (Err(message), _) => whole == Err::<Expression, Seq<char>>(message),
                    (Ok(_), Err(message)) => whole == Err::<Expression, Seq<char>>(message),
                },
                None => name != "get"@ && name != "const"@ ==> whole == Err::<
                    Expression,
                    Seq<char>,
                >("Bad operation "@ + name),
            }
        }),
        name != "get"@ && name != "const"@ ==> {
            let first = items.len() > 1 ==> expression_ok(items[1]);
            let second = items.len() > 2 ==> expression_ok(items[2]);
            first && second ==> expression_ok(Json::Array(items))
        },
{
    lemma_stored_names();
    assert(stored_expression(Json::Null) == Err::<Expression, Seq<char>>(
        "Invalid expression "@ + json_chars(Json::Null),
    ));
}

proof fn lemma_stored_names()
    ensures
        operation_of("get"@) is None,
        operation_of("const"@) is None,
        "get"@ != "const"@,
{
    reveal_strlit("get");
    reveal_strlit("const");
    reveal_strlit("and");
    reveal_strlit("or");
    reveal_strlit("gt");
    reveal_strlit("ge");
    reveal_strlit("lt");
    reveal_strlit("le");
    reveal_strlit("eq");
    reveal_strlit("ne");
    assert("get"@.len() == 3 && "const"@.len() == 5);
    assert("get"@[0] != "and"@[0]);
}

/// `get` with the text of a path stands for what the path leads to, and `const` for the
/// value behind it, whatever that is.
pub proof fn law_stored_operands_are_read(json: Json, items: Seq<Json>)
    requires
        items.len() > 0,
    ensures
        items[0] == Json::String("const"@) && items.len() > 1 ==> {
            &&& stored_expression(Json::Array(items)) == Ok::<Expression, Seq<char>>(
                Expression::Constant(items[1]),
            )
            &&& expression_ok(Json::Array(items))
        },
        items[0] == Json::String("get"@) && items.len() > 1 ==> match items[1] {
            Json::String(path) => {
                &&& stored_expression(Json::Array(items)) == match parse_path(path) {
                    Ok(steps) => Ok::<Expression, Seq<char>>(Expression::Path(steps)),
                    Err(message) => Err(message),
                }
                &&& expression_ok(Json::Array(items)) == indices_fit(split_dots(path))
            },
            other => {
                &&& stored_expression(Json::Array(items)) == Err::<Expression, Seq<char>>(
                    "Invalid field name "@ + json_debug(other),
                )
                &&& expression_ok(Json::Array(items))
            },
        },
        !(json is Array) ==> {
            &&& stored_expression(json) == Err::<Expression, Seq<char>>(
                "Invalid expression "@ + json_chars(json),
            )
            &&& expression_ok(json)
        },
        !(items[0] is String) ==> {
            &&& stored_expression(Json::Array(items)) == Err::<Expression, Seq<char>>(
                "Invalid operation type"@,
            )
            &&& expression_ok(Json::Array(items))
        },
        !expression_ok(Json::Array(Seq::empty())),
{
    lemma_stored_names();
}

/// The text of an expression has its operands on both sides of the operation, all in
/// brackets; a path and a constant are written as they are.
pub proof fn law_expression_text(
    left: Expression,
    right: Expression,
    steps: Seq<PathStep>,
    json: Json,
)
    ensures
        expression_text(Expression::Path(steps)) == path_text(steps),
        expression_text(Expression::Constant(json)) == json_chars(json),
        forall|operation: Operation|
            #![trigger operation_text(operation)]
            expression_text(
                Expression::Binary { operation, left: Box::new(left), right: Box::new(right) },
            ) == seq!['('] + expression_text(left) + seq![' '] + operation_text(operation)
                + seq![' '] + expression_text(right) + seq![')'],
        operation_text(Operation::Gt) == ">"@,
        operation_text(Operation::Gte) == ">="@,
        operation_text(Operation::Lt) == "<"@,
        operation_text(Operation::Lte) == "<="@,
        operation_text(Operation::Eq) == "="@,
        operation_text(Operation::Neq) == "<>"@,
        operation_text(Operation::And) == "and"@,
        operation_text(Operation::Or) == "or"@,
        operation_text(Operation::In) == "in"@,
        operation_text(Operation::NotIn) == "not in"@,
{
    reveal_strlit("(");
    reveal_strlit(" ");
    reveal_strlit(")");
    assert("("@ =~= seq!['(']);
    assert(" "@ =~= seq![' ']);
    assert(")"@ =~= seq![')']);
}

/// The value is one with a key, and without a zero byte if it is a string.
pub open spec fn plain(value: Json) -> bool {
    match value {
        Json::Bool(_) | Json::Number(_) => true,
        Json::String(text) => {
            &&& encode_utf8(text).len() <= 2008
            &&& forall|i: int|
                0 <= i < encode_utf8(text).len() ==> #[trigger] encode_utf8(text)[i] != 0
        },
        _ => false,
    }
}

/// The value lies between two others, as far as these are there, and both belong to what
/// lies between them.
pub open spec fn between(low: Option<Json>, value: Json, high: Option<Json>) -> bool {
    &&& low matches Some(low) ==> yields(Operation::Gte, value, low, true)
    &&& high matches Some(high) ==> yields(Operation::Lte, value, high, true)
}

/// A key lies within a range of an index if and only if its value compares so with both
/// ends, whatever the document.
pub proof fn law_ranges_follow_comparisons(
    low: Option<Json>,
    value: Json,
    high: Option<Json>,
    id: u64,
)
    requires
        low matches Some(low) ==> plain(low),
        high matches Some(high) ==> plain(high),
        plain(value),
    ensures
        range_key(low, false) is Ok,
        range_key(high, true) is Ok,
        encode(value, id) is Ok,
        within(
            range_key(low, false)->Ok_0,
            encode(value, id)->Ok_0,
            range_key(high, true)->Ok_0,
        ) == between(low, value, high),
{
    broadcast use group_lex_order;

    law_values_that_can_be_keys(value, id);
    let key = encode(value, id)->Ok_0;
    if let Some(low) = low {
        law_range_has_both_ends(low, id);
        let first = range_key(Some(low), false)->Ok_0->Some_0;
        law_values_compare_in_one_way(value, low);
        if yields(Operation::Lt, value, low, true) {
            law_comparisons_agree_with_indices(value, low, id, 0);
        } else if yields(Operation::Lt, low, value, true) {
            law_comparisons_agree_with_indices(low, value, 0, id);
        } else {
            lemma_equal_keys(low, value, 0);
            lemma_equal_keys(low, value, id);
            law_range_has_both_ends(value, id);
        }
        assert(lex_le(first, key) == yields(Operation::Gte, value, low, true));
    }
    if let Some(high) = high {
        law_range_has_both_ends(high, id);
        let last = range_key(Some(high), true)->Ok_0->Some_0;
        law_values_compare_in_one_way(value, high);
        if yields(Operation::Lt, value, high, true) {
            law_comparisons_agree_with_indices(value, high, id, u64::MAX);
        } else if yields(Operation::Lt, high, value, true) {
            law_comparisons_agree_with_indices(high, value, u64::MAX, id);
        } else {
            lemma_equal_keys(high, value, u64::MAX);
            lemma_equal_keys(high, value, id);
            law_range_has_both_ends(value, id);
        }
        assert(lex_le(key, last) == yields(Operation::Lte, value, high, true));
    }
}

/// Values that are equal have the same keys.
proof fn lemma_equal_keys(a: Json, b: Json, id: u64)
    requires
        !(a is Null),
        !(b is Null),
        yields(Operation::Eq, a, b, true),
    ensures
        encode(a, id) == encode(b, id),
{
    let key = encode(a, 0)->Ok_0;
    lemma_be64(0);
    assert(key == encode(b, 0)->Ok_0);
    assert(encode_value(a)->Ok_0 =~= key.take(key.len() - 9));
    assert(encode_value(b)->Ok_0 =~= key.take(key.len() - 9));
}

/// The documents up to the end of a range are those of the entries before it.
proof fn lemma_range_list(
    docs: Map<u64, Json>,
    end: Option<Seq<u8>>,
    reverse: bool,
    entries: Seq<Entry>,
    n: int,
)
    requires
        0 <= n <= entries.len(),
        forall|j: int|
            0 <= j < entries.len() ==> (beyond(end, reverse, (#[trigger] entries[j]).key) <==> n
                <= j),
    ensures
        ({
            let list = range_list(docs, end, reverse, entries);
            &&& list.len() == n
            &&& forall|j: int|
                0 <= j < n ==> #[trigger] list[j] == (
                    be64(entries[j].value),
                    docs[be64(entries[j].value)],
                )
        }),
    decreases entries.len(),
{
    if n > 0 {
        let rest = entries.skip(1);
        assert(!beyond(end, reverse, entries[0].key));
        assert forall|j: int| 0 <= j < rest.len() implies (beyond(
            end,
            reverse,
            (#[trigger] rest[j]).key,
        ) <==> n - 1 <= j) by {
            assert(rest[j] == entries[j + 1]);
        }
        lemma_range_list(docs, end, reverse, rest, n - 1);
        let list = range_list(docs, end, reverse, entries);
        let tail = range_list(docs, end, reverse, rest);
        assert forall|j: int| 0 <= j < n implies #[trigger] list[j] == (
            be64(entries[j].value),
            docs[be64(entries[j].value)],
        ) by {
            if j > 0 {
                assert(list[j] == tail[j - 1]);
                assert(rest[j - 1] == entries[j]);
            }
        }
    } else if entries.len() > 0 {
        assert(beyond(end, reverse, entries[0].key));
    }
}

/// A scan of an index from one value up to another hands out a document if and only if its
/// field lies between the two, and hands it out as it is stored. Values that no string with
/// a zero byte disturbs are taken for granted: such strings have no place of their own.
pub proof fn law_scan_hands_out_what_lies_between(
    c: Collection,
    pages: Map<u64, Seq<u8>>,
    i: int,
    low: Option<Json>,
    high: Option<Json>,
    id: u64,
    value: Json,
)
    requires
        c.stored(pages),
        0 <= i < c.indices@.len(),
        low matches Some(low) ==> plain(low),
        high matches Some(high) ==> plain(high),
        c.docs(pages).contains_key(id),
        lookup(c.indices@[i].field@, c.docs(pages)[id]) == Ok::<Json, Seq<char>>(value),
        plain(value),
        value matches Json::String(text) ==> encode_utf8(text).len() <= 2005,
    ensures
        ({
            let docs = c.docs(pages);
            let start = range_key(low, false)->Ok_0;
            let end = range_key(high, true)->Ok_0;
            let entries = entries_from(pages, c.indices@[i].btree.root(), start, false);
            let list = range_list(docs, end, false, entries);
            list.contains((id, docs[id])) <==> between(low, value, high)
        }),
{
    let docs = c.docs(pages);
    law_ranges_follow_comparisons(low, value, high, id);
    let start = range_key(low, false)->Ok_0;
    let end = range_key(high, true)->Ok_0;
    let entries = entries_from(pages, c.indices@[i].btree.root(), start, false);
    let list = range_list(docs, end, false, entries);
    let all = c.index_entries(pages, i);
    let n = law_range_scan(c, pages, i, low, high);
    lemma_range_list(docs, end, false, entries, n);
    law_index_holds_every_document(c, pages, i, id, value);
    let entry = Entry { key: encode(value, id)->Ok_0, value: be64_bytes(id) };
    lemma_be64(id);
    if between(low, value, high) {
        assert(entries.take(n).contains(entry));
        let j = entries.take(n).index_of(entry);
        assert(entries[j] == entry);
        assert(list[j] == (id, docs[id]));
    }
    if list.contains((id, docs[id])) {
        let j = list.index_of((id, docs[id]));
        let other = entries[j];
        assert(entries.take(n)[j] == other);
        assert(entries.take(n).contains(other));
        assert(all.contains(other));
        let k = all.index_of(other);
        law_index_holds_no_others(c, pages, i, k, k);
        assert(other.key == entry.key);
    }
}

/// A scan in reverse from one value down to another hands out a document if and only if its
/// field lies between the two. The largest identifier of all marks the start of the range.
pub proof fn law_reverse_scan_hands_out_what_lies_between(
    c: Collection,
    pages: Map<u64, Seq<u8>>,
    i: int,
    low: Option<Json>,
    high: Json,
    id: u64,
    value: Json,
)
    requires
        c.stored(pages),
        0 <= i < c.indices@.len(),
        low matches Some(low) ==> plain(low),
        plain(high),
        c.docs(pages).contains_key(id),
        lookup(c.indices@[i].field@, c.docs(pages)[id]) == Ok::<Json, Seq<char>>(value),
        plain(value),
        value matches Json::String(text) ==> encode_utf8(text).len() <= 2005,
        id < u64::MAX,
    ensures
        ({
            let docs = c.docs(pages);
            let start = range_key(Some(high), true)->Ok_0;
            let end = range_key(low, false)->Ok_0;
            let entries = entries_from(pages, c.indices@[i].btree.root(), start, true);
            let list = range_list(docs, end, true, entries);
            list.contains((id, docs[id])) <==> between(low, value, Some(high))
        }),
{
    broadcast use group_lex_order;

    let docs = c.docs(pages);
    law_ranges_follow_comparisons(low, value, Some(high), id);
    law_values_that_can_be_keys(high, u64::MAX);
    let start = range_key(Some(high), true)->Ok_0;
    let end = range_key(low, false)->Ok_0;
    let entries = entries_from(pages, c.indices@[i].btree.root(), start, true);
    let list = range_list(docs, end, true, entries);
    let all = c.index_entries(pages, i);
    let n = law_reverse_range_scan(c, pages, i, high, low);
    lemma_range_list(docs, end, true, entries, n);
    law_index_holds_every_document(c, pages, i, id, value);
    let entry = Entry { key: encode(value, id)->Ok_0, value: be64_bytes(id) };
    lemma_be64(id);
    law_keys_are_unique(value, id, high, u64::MAX);
    if between(low, value, Some(high)) {
        assert(entries.take(n).contains(entry));
        let j = entries.take(n).index_of(entry);
        assert(entries[j] == entry);
        assert(list[j] == (id, docs[id]));
    }
    if list.contains((id, docs[id])) {
        let j = list.index_of((id, docs[id]));
        let other = entries[j];
        assert(entries.take(n)[j] == other);
        assert(entries.take(n).contains(other));
        assert(all.contains(other));
        let k = all.index_of(other);
        law_index_holds_no_others(c, pages, i, k, k);
        assert(other.key == entry.key);
    }
}

/// A scan of an index hands out only stored documents, each with its identifier, none of
/// them twice, and in the order of the fields; in reverse from a start, the other way round.
#[verifier::rlimit(60)]
#[verifier::spinoff_prover]
pub proof fn law_scan_follows_the_order_of_values(
    c: Collection,
    pages: Map<u64, Seq<u8>>,
    i: int,
    start: Option<Seq<u8>>,
    end: Option<Seq<u8>>,
    reverse: bool,
    j: int,
    k: int,
)
    requires
        c.stored(pages),
        0 <= i < c.indices@.len(),
        ({
            let entries = entries_from(pages, c.indices@[i].btree.root(), start, reverse);
            0 <= j < k < range_list(c.docs(pages), end, reverse, entries).len()
        }),
    ensures
        ({
            let docs = c.docs(pages);
            let entries = entries_from(pages, c.indices@[i].btree.root(), start, reverse);
            let list = range_list(docs, end, reverse, entries);
            let steps = c.indices@[i].field@;
            &&& docs.contains_key(list[j].0) && list[j].1 == docs[list[j].0]
            &&& docs.contains_key(list[k].0) && list[k].1 == docs[list[k].0]
            &&& list[j].0 != list[k].0
            &&& lookup(steps, list[j].1) is Ok
            &&& lookup(steps, list[k].1) is Ok
            &&& key_before(
                lookup(steps, list[j].1)->Ok_0,
                lookup(steps, list[k].1)->Ok_0,
                list[j].0,
                list[k].0,
            ) == !(reverse && start is Some)
            &&& key_before(
                lookup(steps, list[k].1)->Ok_0,
                lookup(steps, list[j].1)->Ok_0,
                list[k].0,
                list[j].0,
            ) == (reverse && start is Some)
        }),
{
    let docs = c.docs(pages);
    let all = c.index_entries(pages, i);
    let entries = entries_from(pages, c.indices@[i].btree.root(), start, reverse);
    assert(ascending(keys_of(all))) by {
        law_index_lists_documents(c, pages, i);
    }
    lemma_list_items(docs, end, reverse, entries, j);
    lemma_list_items(docs, end, reverse, entries, k);
    let at = match start {
        Some(key) => rank(keys_of(all), key),
        None => 0,
    };
    if start is Some {
        lemma_rank(keys_of(all), start->Some_0);
    }
    let back = reverse && start is Some;
    let p = if back {
        at - 1 - j
    } else {
        at + j
    };
    let q = if back {
        at - 1 - k
    } else {
        at + k
    };
    assert(entries[j] == all[p]);
    assert(entries[k] == all[q]);
    if back {
        lemma_entries_in_order(c, pages, i, q, p);
    } else {
        lemma_entries_in_order(c, pages, i, p, q);
    }
}

/// The entries of an index come in the order of the fields of their documents.
proof fn lemma_entries_in_order(c: Collection, pages: Map<u64, Seq<u8>>, i: int, p: int, q: int)
    requires
        c.stored(pages),
        0 <= i < c.indices@.len(),
        0 <= p < q < c.index_entries(pages, i).len(),
    ensures
        ({
            let docs = c.docs(pages);
            let steps = c.indices@[i].field@;
            let x = be64(c.index_entries(pages, i)[p].value);
            let y = be64(c.index_entries(pages, i)[q].value);
            let a = lookup(steps, docs[x]);
            let b = lookup(steps, docs[y]);
            &&& docs.contains_key(x) && docs.contains_key(y) && x != y
            &&& a is Ok && b is Ok
            &&& key_before(a->Ok_0, b->Ok_0, x, y)
            &&& !key_before(b->Ok_0, a->Ok_0, y, x)
        }),
{
    let all = c.index_entries(pages, i);
    law_index_lists_documents(c, pages, i);
    law_index_holds_no_others(c, pages, i, p, q);
    law_index_holds_no_others(c, pages, i, q, p);
    assert(keys_of(all)[p] == all[p].key && keys_of(all)[q] == all[q].key);
    assert(lex_lt(all[p].key, all[q].key));
    lemma_lex_antisymmetric(all[p].key, all[q].key);
}

/// What stands at a place of the list is the document of the entry at that place.
proof fn lemma_list_items(
    docs: Map<u64, Json>,
    end: Option<Seq<u8>>,
    reverse: bool,
    entries: Seq<Entry>,
    j: int,
)
    requires
        0 <= j < range_list(docs, end, reverse, entries).len(),
    ensures
        j < entries.len(),
        range_list(docs, end, reverse, entries)[j] == (
            be64(entries[j].value),
            docs[be64(entries[j].value)],
        ),
    decreases entries.len(),
{
    if j > 0 {
        let rest = entries.skip(1);
        let tail = range_list(docs, end, reverse, rest);
        lemma_list_items(docs, end, reverse, rest, j - 1);
        assert(range_list(docs, end, reverse, entries)[j] == tail[j - 1]);
    }
}

/// A node is seen as what it is made of: the operation between what its operands are seen as,
/// in the same order, or the path or the value that it holds.
pub proof fn law_expressions_are_seen_as_they_are(node: ExpressionNode)
    ensures
        match node {
            ExpressionNode::BinaryOp(parts) => node@ == (Expression::Binary {
                operation: parts.0,
                left: Box::new((*parts.1)@),
                right: Box::new((*parts.2)@),
            }),
            ExpressionNode::Path(path) => node@ == Expression::Path(path@),
            ExpressionNode::Constant(value) => node@ == Expression::Constant(value@),
        },
{
}

/// What a scan hands out is seen as the identifier and the document.
pub proof fn law_items_are_seen_as_they_are(docid: DocId, document: Value)
    ensures
        item_view(Some((docid, document))) == Some((docid.0, document@)),
        item_view(None) == None::<(u64, Json)>,
{
}

/// A boolean is worth itself where one is asked for, and anything else is an error.
pub proof fn law_only_booleans_are_truth_values(json: Json)
    ensures
        json matches Json::Bool(b) ==> bool_result(json) == Ok::<bool, Seq<char>>(b),
        !(json is Bool) ==> bool_result(json) == Err::<bool, Seq<char>>(
            "Invalid type for boolean expr"@,
        ),
{
}

/// All that a scan of an index hands out are stored documents, each with its identifier and with
/// a field that can be a key.
pub proof fn law_scan_hands_out_stored_documents(
    c: Collection,
    pages: Map<u64, Seq<u8>>,
    i: int,
    start: Option<Seq<u8>>,
    end: Option<Seq<u8>>,
    reverse: bool,
    j: int,
)
    requires
        c.stored(pages),
        0 <= i < c.indices@.len(),
        ({
            let entries = entries_from(pages, c.indices@[i].btree.root(), start, reverse);
            0 <= j < range_list(c.docs(pages), end, reverse, entries).len()
        }),
    ensures
        ({
            let docs = c.docs(pages);
            let entries = entries_from(pages, c.indices@[i].btree.root(), start, reverse);
            let item = range_list(docs, end, reverse, entries)[j];
            &&& docs.contains_key(item.0)
            &&& item.1 == docs[item.0]
            &&& lookup(c.indices@[i].field@, item.1) matches Ok(value) && (value is Bool
                || value is Number || (value is String && encode_utf8(value->String_0).len()
                <= 2005))
        }),
{
    let docs = c.docs(pages);
    let all = c.index_entries(pages, i);
    let entries = entries_from(pages, c.indices@[i].btree.root(), start, reverse);
    assert(ascending(keys_of(all))) by {
        law_index_lists_documents(c, pages, i);
    }
    lemma_list_items(docs, end, reverse, entries, j);
    let at = match start {
        Some(key) => rank(keys_of(all), key),
        None => 0,
    };
    if start is Some {
        lemma_rank(keys_of(all), start->Some_0);
    }
    let p = if reverse && start is Some {
        at - 1 - j
    } else {
        at + j
    };
    assert(entries[j] == all[p]);
    law_index_holds_no_others(c, pages, i, p, p);
}

} // verus!
