//! How a collection is described in the database: by a document with its name,
//! the root of its document tree, and the field and root of each index.

use vstd::prelude::*;
use vstd::utf8::{encode_utf8, is_ascii_chars, is_ascii_chars_encode_utf8};

use crate::btree::{can_read, lemma_can_iterate, lemma_same_reader, BTree};
use crate::collection::{Collection, Index};
use crate::documents::{entries_at, index_ok};
use crate::field_path::{
    indices_fit, law_path_text_is_read_back, parse_path, path_text, split_dots, FieldPath,
    PathStep,
};
use crate::key_encoding::{be64, from_be_bytes};
use crate::key_order::{lemma_lex_lt_at, lex_lt};
use crate::page_allocator::FreePages;
use crate::page_cache::{PageCache, PageNum, PersistentStore, INVALID_PAGE};
use crate::value::{
    field_of, find_field, json_chars, json_ok, lemma_field_ok, nested, storable, value_text, Json,
    Number, Value,
};

verus! {

/// The description of an index.
pub open spec fn index_metadata(index: Index) -> Json {
    Json::Object(
        seq![
            ("path"@, Json::String(path_text(index.field@))),
            ("root_pnum"@, Json::Number(Number::PosInt(index.btree.root()))),
        ],
    )
}

impl Collection {
    /// The description of the collection.
    pub open spec fn metadata(&self) -> Json {
        Json::Object(
            seq![
                (
                    "indices"@,
                    Json::Array(self.indices@.map_values(|index: Index| index_metadata(index))),
                ),
                ("name"@, Json::String(self.name@)),
                (
                    "root_page_pnum"@,
                    Json::Number(Number::PosInt(self.document_tree.root())),
                ),
            ],
        )
    }
}

/// The description of a collection without indices.
pub open spec fn new_metadata(name: Seq<char>, root: u64) -> Json {
    Json::Object(
        seq![
            ("indices"@, Json::Array(Seq::empty())),
            ("name"@, Json::String(name)),
            ("root_page_pnum"@, Json::Number(Number::PosInt(root))),
        ],
    )
}

/// The page that a field holds.
pub open spec fn page_field(json: Json, name: Seq<char>) -> Option<u64> {
    match field_of(json, name) {
        Some(Json::Number(Number::PosInt(page))) => if page != INVALID_PAGE {
            Some(page)
        } else {
            None
        },
        _ => None,
    }
}

/// The path of the field that an index is for.
pub open spec fn path_field(json: Json) -> Option<Seq<PathStep>> {
    match field_of(json, "path"@) {
        Some(Json::String(text)) => if indices_fit(split_dots(text)) {
            match parse_path(text) {
                Ok(steps) => Some(steps),
                Err(_) => None,
            }
        } else {
            None
        },
        _ => None,
    }
}

/// The descriptions of the indices.
pub open spec fn indices_field(json: Json) -> Option<Seq<Json>> {
    match field_of(json, "indices"@) {
        Some(Json::Array(items)) => Some(items),
        _ => None,
    }
}

/// The value describes a collection.
pub open spec fn metadata_ok(json: Json) -> bool {
    &&& page_field(json, "root_page_pnum"@) is Some
    &&& indices_field(json) matches Some(items) && forall|i: int|
        0 <= i < items.len() ==> path_field(#[trigger] items[i]) is Some && page_field(
            items[i],
            "root_pnum"@,
        ) is Some
}

/// The collection is the one described, whatever its name.
pub open spec fn describes(json: Json, c: Collection) -> bool {
    &&& page_field(json, "root_page_pnum"@) == Some(c.document_tree.root())
    &&& indices_field(json) matches Some(items) && items.len() == c.indices@.len() && forall|i: int|
        0 <= i < items.len() ==> path_field(#[trigger] items[i]) == Some(c.indices@[i].field@)
            && page_field(items[i], "root_pnum"@) == Some(c.indices@[i].btree.root())
}

/// The name in the description of a collection. What is no string is taken by
/// its JSON text, and what is missing is null.
pub open spec fn described_name(json: Json) -> Seq<char> {
    match field_of(json, "name"@) {
        Some(Json::String(name)) => name,
        Some(other) => json_chars(other),
        None => json_chars(Json::Null),
    }
}

/// The identifier after the last one in use.
pub open spec fn next_id(pages: Map<u64, Seq<u8>>, root: u64) -> int {
    let entries = entries_at(pages, root);
    if entries.len() > 0 {
        be64(entries.last().key) + 1
    } else {
        1
    }
}

/// The names of an object that come one after the other in the alphabet.
proof fn lemma_names_ascend(a: Seq<char>, b: Seq<char>)
    requires
        a.len() > 0,
        b.len() > 0,
        is_ascii_chars(a),
        is_ascii_chars(b),
        a[0] < b[0],
    ensures
        lex_lt(encode_utf8(a), encode_utf8(b)),
        a != b,
{
    is_ascii_chars_encode_utf8(a);
    is_ascii_chars_encode_utf8(b);
    assert(a[0] as u8 == encode_utf8(a)[0]);
    assert(b[0] as u8 == encode_utf8(b)[0]);
    lemma_lex_lt_at(encode_utf8(a), encode_utf8(b), 0);
}

proof fn lemma_metadata_names()
    ensures
        lex_lt(encode_utf8("indices"@), encode_utf8("name"@)),
        lex_lt(encode_utf8("indices"@), encode_utf8("root_page_pnum"@)),
        lex_lt(encode_utf8("name"@), encode_utf8("root_page_pnum"@)),
        lex_lt(encode_utf8("path"@), encode_utf8("root_pnum"@)),
        "indices"@ != "name"@,
        "indices"@ != "root_page_pnum"@,
        "name"@ != "root_page_pnum"@,
        "path"@ != "root_pnum"@,
{
    reveal_strlit("indices");
    reveal_strlit("name");
    reveal_strlit("root_page_pnum");
    reveal_strlit("path");
    reveal_strlit("root_pnum");
    lemma_names_ascend("indices"@, "name"@);
    lemma_names_ascend("indices"@, "root_page_pnum"@);
    lemma_names_ascend("name"@, "root_page_pnum"@);
    lemma_names_ascend("path"@, "root_pnum"@);
}

/// The description of an index is a value that can be stored.
proof fn lemma_index_metadata(index: Index)
    ensures
        json_ok(index_metadata(index)),
        nested(index_metadata(index), 1),
        field_of(index_metadata(index), "path"@) == Some(
            Json::String(path_text(index.field@)),
        ),
        field_of(index_metadata(index), "root_pnum"@) == Some(
            Json::Number(Number::PosInt(index.btree.root())),
        ),
{
    lemma_metadata_names();
    let fields = index_metadata(index)->Object_0;
    assert(fields[0].0 == "path"@ && fields[1].0 == "root_pnum"@);
    assert(fields.skip(1)[0] == fields[1]);
    assert(find_field(fields.skip(1), "root_pnum"@) == Some(fields[1].1));
    assert forall|i: int, j: int| 0 <= i < j < fields.len() implies lex_lt(
        encode_utf8((#[trigger] fields[i]).0),
        encode_utf8((#[trigger] fields[j]).0),
    ) by {
        assert(i == 0 && j == 1);
    }
    assert forall|i: int| 0 <= i < fields.len() implies json_ok((#[trigger] fields[i]).1)
        && nested(fields[i].1, 0) by {}
}

/// The description of a collection is a value that can be stored.
proof fn lemma_metadata(c: Collection)
    ensures
        storable(c.metadata()),
        c.metadata() is Object,
        field_of(c.metadata(), "indices"@) == Some(
            Json::Array(c.indices@.map_values(|index: Index| index_metadata(index))),
        ),
        field_of(c.metadata(), "name"@) == Some(Json::String(c.name@)),
        field_of(c.metadata(), "root_page_pnum"@) == Some(
            Json::Number(Number::PosInt(c.document_tree.root())),
        ),
{
    lemma_metadata_names();
    let fields = c.metadata()->Object_0;
    let items = c.indices@.map_values(|index: Index| index_metadata(index));
    assert(fields[0] == ("indices"@, Json::Array(items)));
    assert(fields.skip(1)[0] == fields[1]);
    assert(fields.skip(1).skip(1)[0] == fields[2]);
    assert(find_field(fields.skip(1).skip(1), "root_page_pnum"@) == Some(fields[2].1));
    assert(find_field(fields.skip(1), "root_page_pnum"@) == Some(fields[2].1));
    assert(find_field(fields.skip(1), "name"@) == Some(fields[1].1));
    assert forall|i: int| 0 <= i < items.len() implies json_ok(#[trigger] items[i]) && nested(
        items[i],
        1,
    ) by {
        lemma_index_metadata(c.indices@[i]);
    }
    assert(json_ok(Json::Array(items)));
    assert forall|i: int| 0 <= i < items.len() implies nested(#[trigger] items[i], 125) by {
        lemma_nested_more(items[i], 1, 125);
    }
    assert(nested(Json::Array(items), 126));
    assert forall|i: int, j: int| 0 <= i < j < fields.len() implies lex_lt(
        encode_utf8((#[trigger] fields[i]).0),
        encode_utf8((#[trigger] fields[j]).0),
    ) by {}
    assert forall|i: int| 0 <= i < fields.len() implies json_ok((#[trigger] fields[i]).1)
        && nested(fields[i].1, 126) by {}
}

/// What is nested no deeper than one limit is nested no deeper than a larger one.
proof fn lemma_nested_more(json: Json, limit: nat, more: nat)
    requires
        nested(json, limit),
        limit <= more,
    ensures
        nested(json, more),
    decreases json,
{
    match json {
        Json::Array(items) => {
            assert forall|i: int| 0 <= i < items.len() implies nested(
                #[trigger] items[i],
                (more - 1) as nat,
            ) by {
                lemma_nested_more(items[i], (limit - 1) as nat, (more - 1) as nat);
            }
        },
        Json::Object(fields) => {
            assert forall|i: int| 0 <= i < fields.len() implies nested(
                (#[trigger] fields[i]).1,
                (more - 1) as nat,
            ) by {
                lemma_nested_more(fields[i].1, (limit - 1) as nat, (more - 1) as nat);
            }
        },
        _ => {},
    }
}

/// A collection that is opened by its description has the same name, trees and
/// description.
pub proof fn law_metadata_is_read_back(c: Collection, opened: Collection)
    requires
        c.fields_ok(),
        c.document_tree.root() != INVALID_PAGE,
        forall|i: int|
            0 <= i < c.indices@.len() ==> (#[trigger] c.indices@[i]).btree.root() != INVALID_PAGE,
        describes(c.metadata(), opened),
        opened.name@ == described_name(c.metadata()),
    ensures
        metadata_ok(c.metadata()),
        opened.metadata() == c.metadata(),
        opened.name@ == c.name@,
        describes(c.metadata(), c),
        opened.roots() == c.roots(),
        opened.indices@.len() == c.indices@.len(),
        forall|i: int|
            0 <= i < c.indices@.len() ==> (#[trigger] opened.indices@[i]).field@
                == c.indices@[i].field@,
        forall|pages: Map<u64, Seq<u8>>|
            #![trigger opened.docs(pages)]
            opened.docs(pages) == c.docs(pages),
        forall|pages: Map<u64, Seq<u8>>, free: FreePages| #[trigger]
            c.inv(pages, free) && opened.fields_ok() ==> opened.inv(pages, free),
{
    lemma_described(c);
    lemma_same_description(c.metadata(), c, opened);
    lemma_metadata(c);
    let items = c.indices@.map_values(|index: Index| index_metadata(index));
    let items2 = opened.indices@.map_values(|index: Index| index_metadata(index));
    assert forall|i: int| 0 <= i < items.len() implies items2[i] == items[i] by {
        assert(path_field(items[i]) == Some(c.indices@[i].field@));
        assert(path_field(items[i]) == Some(opened.indices@[i].field@));
    }
    assert(items2 =~= items);
    assert(opened.metadata()->Object_0 =~= c.metadata()->Object_0);
}

/// A collection is the one that its description describes.
pub proof fn lemma_described(c: Collection)
    requires
        c.fields_ok(),
        c.document_tree.root() != INVALID_PAGE,
        forall|i: int|
            0 <= i < c.indices@.len() ==> (#[trigger] c.indices@[i]).btree.root() != INVALID_PAGE,
    ensures
        metadata_ok(c.metadata()),
        describes(c.metadata(), c),
        storable(c.metadata()),
        field_of(c.metadata(), "name"@) == Some(Json::String(c.name@)),
{
    lemma_metadata(c);
    let items = c.indices@.map_values(|index: Index| index_metadata(index));
    assert(indices_field(c.metadata()) == Some(items));
    assert forall|i: int| 0 <= i < items.len() implies path_field(#[trigger] items[i]) == Some(
        c.indices@[i].field@,
    ) && page_field(items[i], "root_pnum"@) == Some(c.indices@[i].btree.root()) by {
        let index = c.indices@[i];
        lemma_index_metadata(index);
        law_path_text_is_read_back(index.field@);
    }
}

/// Two collections with the same description have the same trees and documents.
pub proof fn lemma_same_description(json: Json, c: Collection, c2: Collection)
    requires
        describes(json, c),
        describes(json, c2),
    ensures
        c2.roots() == c.roots(),
        c2.indices@.len() == c.indices@.len(),
        forall|i: int|
            0 <= i < c.indices@.len() ==> (#[trigger] c2.indices@[i]).field@
                == c.indices@[i].field@,
        forall|pages: Map<u64, Seq<u8>>|
            #![trigger c2.docs(pages)]
            c2.docs(pages) == c.docs(pages) && c2.external(pages) == c.external(pages),
        forall|pages: Map<u64, Seq<u8>>, free: FreePages| #[trigger]
            c.inv(pages, free) && c2.fields_ok() ==> c2.inv(pages, free),
{
    let items = indices_field(json)->Some_0;
    assert forall|i: int| 0 <= i < c.indices@.len() implies (#[trigger] c2.indices@[i]).field@
        == c.indices@[i].field@ && c2.indices@[i].btree.root() == c.indices@[i].btree.root() by {
        assert(path_field(items[i]) == Some(c.indices@[i].field@));
    }
    assert(c2.roots() =~= c.roots());
    assert forall|pages: Map<u64, Seq<u8>>, free: FreePages| #[trigger]
        c.inv(pages, free) && c2.fields_ok() implies c2.inv(pages, free) by {
        assert forall|i: int| 0 <= i < c2.indices@.len() implies index_ok(
            #[trigger] c2.index_entries(pages, i),
            c2.indices@[i].field@,
            c2.docs(pages),
        ) by {
            assert(index_ok(c.index_entries(pages, i), c.indices@[i].field@, c.docs(pages)));
        }
    }
}

/// The value of an index description.
fn index_value(index: &Index) -> (value: Value)
    ensures
        value@ == index_metadata(*index),
{
    let path = Value::String(index.field.to_string());
    let root = Value::Number(Number::PosInt(index.btree.get_root_page_id().as_u64()));
    assert(path@ == Json::String(path_text(index.field@)));
    assert(root@ == Json::Number(Number::PosInt(index.btree.root())));
    let mut fields: Vec<(String, Value)> = Vec::new();
    fields.push(("path".to_owned(), path));
    fields.push(("root_pnum".to_owned(), root));
    let value = Value::Object(fields);
    assert(value@->Object_0 =~= index_metadata(*index)->Object_0);
    value
}

impl Collection {
    /// The returned JSON object describes the on-disk format of this collection.
    pub fn get_metadata(&self) -> (value: Value)
        ensures
            value@ == self.metadata(),
            storable(value@),
            value@ is Object,
    {
        let mut indices: Vec<Value> = Vec::new();
        let mut i: usize = 0;
        while i < self.indices.len()
            invariant
                i <= self.indices@.len(),
                indices@.len() == i,
                forall|j: int|
                    0 <= j < i ==> (#[trigger] indices@[j])@ == index_metadata(self.indices@[j]),
            decreases self.indices@.len() - i,
        {
            indices.push(index_value(&self.indices[i]));
            i = i + 1;
        }
        let ghost items = self.indices@.map_values(|index: Index| index_metadata(index));
        let array = Value::Array(indices);
        assert(array@->Array_0 =~= items);
        let name = Value::String(self.name.clone());
        let root = Value::Number(Number::PosInt(self.document_tree.get_root_page_id().as_u64()));
        assert(name@ == Json::String(self.name@));
        assert(root@ == Json::Number(Number::PosInt(self.document_tree.root())));
        let mut fields: Vec<(String, Value)> = Vec::new();
        fields.push(("indices".to_owned(), array));
        fields.push(("name".to_owned(), name));
        fields.push(("root_page_pnum".to_owned(), root));
        let value = Value::Object(fields);
        proof {
            assert(value@->Object_0 =~= self.metadata()->Object_0);
            lemma_metadata(*self);
        }
        value
    }

    /// Opens a collection that is described by a value from `get_metadata`.
    pub fn open<S: PersistentStore>(metadata: &Value, page_cache: &mut PageCache<S>) -> (collection:
        Self)
        requires
            old(page_cache).inv(),
            json_ok(metadata@),
            metadata_ok(metadata@),
            ({
                let root = page_field(metadata@, "root_page_pnum"@)->Some_0;
                let entries = entries_at(old(page_cache)@.pages, root);
                &&& can_read(old(page_cache)@, root)
                &&& entries.len() > 0 ==> entries.last().key.len() == 8
                &&& next_id(old(page_cache)@.pages, root) <= u64::MAX
            }),
        ensures
            final(page_cache).inv(),
            final(page_cache)@.same_but_order(old(page_cache)@),
            describes(metadata@, collection),
            collection.fields_ok(),
            collection.name@ == described_name(metadata@),
            collection.next_docid == next_id(
                old(page_cache)@.pages,
                collection.document_tree.root(),
            ),
    {
        let ghost items = indices_field(metadata@)->Some_0;
        let mut indices: Vec<Index> = Vec::new();
        let entries = metadata.get("indices").unwrap().as_array().unwrap();
        let mut i: usize = 0;
        while i < entries.len()
            invariant
                metadata_ok(metadata@),
                indices_field(metadata@) == Some(items),
                entries@.len() == items.len(),
                forall|j: int| 0 <= j < items.len() ==> (#[trigger] entries@[j])@ == items[j],
                i <= entries@.len(),
                indices@.len() == i,
                forall|j: int|
                    0 <= j < i ==> path_field(#[trigger] items[j]) == Some(indices@[j].field@)
                        && page_field(items[j], "root_pnum"@) == Some(indices@[j].btree.root()),
                forall|j: int|
                    0 <= j < i ==> (#[trigger] indices@[j]).field.wf()
                        && indices@[j].field@.len() > 0,
            decreases entries@.len() - i,
        {
            let item = &entries[i];
            assert(path_field(items[i as int]) is Some);
            let path = item.get("path").unwrap().as_str().unwrap();
            let field = FieldPath::new(path).unwrap();
            let root: u64 = item.get("root_pnum").unwrap().as_u64().unwrap();
            indices.push(Index { field, btree: BTree::open(PageNum::from_u64(root)) });
            i = i + 1;
        }
        let root: u64 = metadata.get("root_page_pnum").unwrap().as_u64().unwrap();
        let document_tree = BTree::open(PageNum::from_u64(root));
        proof {
            lemma_can_iterate(page_cache@, document_tree.root(), true);
        }
        let mut cursor = document_tree.iterate(true, page_cache);
        proof {
            let stored = entries_at(page_cache@.pages, root);
            lemma_same_reader(old(page_cache)@, page_cache@, root);
            if stored.len() > 0 {
                assert(stored.reverse()[0] == stored.last());
            }
        }
        let next_docid: u64 = match cursor.next(page_cache) {
            Some((key, _)) => from_be_bytes(key.as_slice()) + 1,
            None => 1,
        };
        let name = match metadata.get("name") {
            Some(name) => {
                proof {
                    lemma_field_ok(metadata@->Object_0, "name"@);
                }
                match name.as_str() {
                    Some(text) => text.to_owned(),
                    None => value_text(name),
                }
            },
            None => value_text(&Value::Null),
        };
        Collection { name, next_docid, document_tree, indices }
    }
}

/// The description of a collection without indices describes one.
pub proof fn lemma_new_description(name: Seq<char>, root: u64)
    requires
        root != INVALID_PAGE,
    ensures
        ({
            let json = new_metadata(name, root);
            &&& json_ok(json)
            &&& metadata_ok(json)
            &&& page_field(json, "root_page_pnum"@) == Some(root)
            &&& indices_field(json) == Some(Seq::<Json>::empty())
            &&& field_of(json, "name"@) == Some(Json::String(name))
        }),
{
    lemma_metadata_names();
    let fields = new_metadata(name, root)->Object_0;
    assert(fields[0] == ("indices"@, Json::Array(Seq::empty())));
    assert(fields.skip(1)[0] == fields[1]);
    assert(fields.skip(1).skip(1)[0] == fields[2]);
    assert(find_field(fields.skip(1).skip(1), "root_page_pnum"@) == Some(fields[2].1));
    assert(find_field(fields.skip(1), "root_page_pnum"@) == Some(fields[2].1));
    assert(find_field(fields.skip(1), "name"@) == Some(fields[1].1));
    assert forall|i: int, j: int| 0 <= i < j < fields.len() implies lex_lt(
        encode_utf8((#[trigger] fields[i]).0),
        encode_utf8((#[trigger] fields[j]).0),
    ) by {}
    assert forall|i: int| 0 <= i < fields.len() implies json_ok((#[trigger] fields[i]).1) by {}
}

/// A collection is described by an object with its name, the page of its root, and for each index
/// the text of the path and the page of the root.
pub proof fn law_fields_of_a_description(c: Collection, i: int)
    ensures
        field_of(c.metadata(), "name"@) == Some(Json::String(c.name@)),
        field_of(c.metadata(), "root_page_pnum"@) == Some(
            Json::Number(Number::PosInt(c.document_tree.root())),
        ),
        field_of(c.metadata(), "indices"@) matches Some(Json::Array(items)) && items.len()
            == c.indices@.len() && (0 <= i < items.len() ==> field_of(items[i], "path"@) == Some(
            Json::String(path_text(c.indices@[i].field@)),
        ) && field_of(items[i], "root_pnum"@) == Some(
            Json::Number(Number::PosInt(c.indices@[i].btree.root())),
        )),
{
    lemma_metadata(c);
    if 0 <= i < c.indices@.len() {
        lemma_index_metadata(c.indices@[i]);
        let items = c.indices@.map_values(|index: Index| index_metadata(index));
        assert(items[i] == index_metadata(c.indices@[i]));
    }
}

/// The name of a collection is the string in its description. Any other value there stands for
/// its JSON text, and a missing one for that of null.
pub proof fn law_name_of_a_collection(json: Json)
    ensures
        match field_of(json, "name"@) {
            Some(Json::String(name)) => described_name(json) == name,
            Some(other) => described_name(json) == json_chars(other),
            None => described_name(json) == json_chars(Json::Null),
        },
{
}

/// A description that was opened names the pages and the paths of the collection.
pub proof fn law_described_collection(json: Json, c: Collection, i: int)
    requires
        describes(json, c),
    ensures
        field_of(json, "root_page_pnum"@) == Some(
            Json::Number(Number::PosInt(c.document_tree.root())),
        ),
        field_of(json, "indices"@) matches Some(Json::Array(items)) && items.len()
            == c.indices@.len() && (0 <= i < items.len() ==> field_of(items[i], "root_pnum"@)
            == Some(Json::Number(Number::PosInt(c.indices@[i].btree.root()))) && (field_of(
            items[i],
            "path"@,
        ) matches Some(Json::String(text)) && parse_path(text) == Ok::<Seq<PathStep>, Seq<char>>(
            c.indices@[i].field@,
        ))),
{
    let items = indices_field(json)->Some_0;
    if 0 <= i < items.len() {
        assert(path_field(items[i]) == Some(c.indices@[i].field@));
    }
}

} // verus!
