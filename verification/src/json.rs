//! JSON documents: a plain tree, how it is read, and how it comes out of a text.
use crate::text::same_text;
use serde_json::Value;
use vstd::prelude::*;

verus! {

/// What a JSON document says.
pub enum JsonView {
    Null,
    Bool(bool),
    /// A number, by the text that JSON writes for it.
    Number(Seq<char>),
    Text(Seq<char>),
    Array(Seq<JsonView>),
    /// An object, as its keys and their values.
    Object(Seq<(Seq<char>, JsonView)>),
}

/// The value that stands with the first occurrence of `key`.
pub open spec fn lookup(fields: Seq<(Seq<char>, JsonView)>, key: Seq<char>) -> Option<JsonView>
    decreases fields.len(),
{
    if fields.len() == 0 {
        None
    } else if fields[0].0 == key {
        Some(fields[0].1)
    } else {
        lookup(fields.skip(1), key)
    }
}

/// No key occurs twice.
pub open spec fn keys_distinct(fields: Seq<(Seq<char>, JsonView)>) -> bool {
    forall|i: int, j: int| 0 <= i < j < fields.len() ==> (#[trigger] fields[i]).0 != (#[trigger] fields[j]).0
}

impl JsonView {
    /// The member `key` of an object; nothing where the document is no object or lacks the key.
    pub open spec fn get(self, key: Seq<char>) -> Option<JsonView> {
        match self {
            JsonView::Object(fields) => lookup(fields, key),
            _ => None,
        }
    }

    /// The text, where the document is one.
    pub open spec fn as_text(self) -> Option<Seq<char>> {
        match self {
            JsonView::Text(text) => Some(text),
            _ => None,
        }
    }

    /// The items, where the document is an array.
    pub open spec fn as_items(self) -> Option<Seq<JsonView>> {
        match self {
            JsonView::Array(items) => Some(items),
            _ => None,
        }
    }

    /// The member `key`, where it is a text.
    pub open spec fn get_text(self, key: Seq<char>) -> Option<Seq<char>> {
        match self.get(key) {
            Some(value) => value.as_text(),
            None => None,
        }
    }

    /// Every object in the document, at any depth, holds each of its keys once.
    pub open spec fn well_formed(self) -> bool
        decreases self,
    {
        match self {
            JsonView::Array(items) => forall|i: int|
                0 <= i < items.len() ==> (#[trigger] items[i]).well_formed(),
            JsonView::Object(fields) => {
                &&& keys_distinct(fields)
                &&& forall|i: int| 0 <= i < fields.len() ==> (#[trigger] fields[i]).1.well_formed()
            },
            _ => true,
        }
    }
}

/// Where each key occurs once, looking a key up finds exactly the values that stand with it.
pub proof fn lemma_lookup_by_membership(
    fields: Seq<(Seq<char>, JsonView)>,
    key: Seq<char>,
    value: JsonView,
)
    requires
        keys_distinct(fields),
    ensures
        lookup(fields, key) == Some(value) <==> fields.contains((key, value)),
    decreases fields.len(),
{
    if fields.len() > 0 {
        let rest = fields.skip(1);
        assert forall|i: int, j: int| 0 <= i < j < rest.len() implies (#[trigger] rest[i]).0 != (
        #[trigger] rest[j]).0 by {
            assert(rest[i] == fields[i + 1]);
            assert(rest[j] == fields[j + 1]);
        }
        lemma_lookup_by_membership(rest, key, value);
        if fields.contains((key, value)) {
            let k = choose|k: int| 0 <= k < fields.len() && fields[k] == (key, value);
            if k > 0 {
                assert(rest[k - 1] == fields[k]);
                assert(fields[0].0 != fields[k].0);
            }
        }
        if rest.contains((key, value)) {
            let k = choose|k: int| 0 <= k < rest.len() && rest[k] == (key, value);
            assert(fields[k + 1] == rest[k]);
            assert(fields[0].0 != fields[k + 1].0);
        }
    }
}

/// A JSON document.
#[derive(Debug, PartialEq, Eq)]
pub enum Json {
    Null,
    Bool(bool),
    /// A number, by the text that JSON writes for it.
    Number(String),
    Text(String),
    Array(Vec<Json>),
    /// An object, as its keys and their values.
    Object(Vec<(String, Json)>),
}

impl View for Json {
    type V = JsonView;

    open spec fn view(&self) -> JsonView
        decreases self,
    {
        match self {
            Json::Null => JsonView::Null,
            Json::Bool(value) => JsonView::Bool(*value),
            Json::Number(text) => JsonView::Number(text@),
            Json::Text(text) => JsonView::Text(text@),
            Json::Array(items) => JsonView::Array(
                Seq::new(
                    items@.len(),
                    |i: int|
                        if 0 <= i < items@.len() {
                            items@[i].view()
                        } else {
                            JsonView::Null
                        },
                ),
            ),
            Json::Object(fields) => JsonView::Object(
                Seq::new(
                    fields@.len(),
                    |i: int|
                        (
                            fields@[i].0@,
                            if 0 <= i < fields@.len() {
                                fields@[i].1.view()
                            } else {
                                JsonView::Null
                            },
                        ),
                ),
            ),
        }
    }
}

/// What a list of documents says.
pub open spec fn json_views(items: Seq<Json>) -> Seq<JsonView> {
    Seq::new(items.len(), |i: int| items[i]@)
}

/// What a list of keys and documents says.
pub open spec fn field_views(fields: Seq<(String, Json)>) -> Seq<(Seq<char>, JsonView)> {
    Seq::new(fields.len(), |i: int| (fields[i].0@, fields[i].1@))
}

/// A document says what its parts say, each at its own place.
pub proof fn lemma_view_parts(json: Json)
    ensures
        json is Null <==> json@ is Null,
        json matches Json::Bool(value) ==> json@ == JsonView::Bool(value),
        json matches Json::Number(text) ==> json@ == JsonView::Number(text@),
        json matches Json::Text(text) ==> json@ == JsonView::Text(text@),
        json matches Json::Array(items) ==> json@ == JsonView::Array(json_views(items@)),
        json matches Json::Object(fields) ==> json@ == JsonView::Object(field_views(fields@)),
{
    match json {
        Json::Array(items) => {
            assert(json@->Array_0 =~= json_views(items@));
        },
        Json::Object(fields) => {
            assert(json@->Object_0 =~= field_views(fields@));
        },
        _ => {},
    }
}

/// A list of documents, or of keys and documents, says what each of them says, in order.
pub proof fn lemma_list_views(items: Seq<Json>, fields: Seq<(String, Json)>)
    ensures
        json_views(items).len() == items.len(),
        forall|i: int| 0 <= i < items.len() ==> #[trigger] json_views(items)[i] == items[i]@,
        field_views(fields).len() == fields.len(),
        forall|i: int|
            #![trigger field_views(fields)[i]]
            0 <= i < fields.len() ==> field_views(fields)[i].0 == fields[i].0@ && field_views(
                fields,
            )[i].1 == fields[i].1@,
{
}

/// A document has the member `key` exactly where it is an object with that key, and the member is what
/// stands with the first occurrence of the key; no other kind of document has members.
pub proof fn lemma_get_first(json: JsonView, key: Seq<char>, value: JsonView)
    ensures
        json !is Object ==> json.get(key) is None,
        json matches JsonView::Object(fields) ==> {
            &&& json.get(key) == Some(value) <==> exists|i: int|
                #![trigger fields[i]]
                0 <= i < fields.len() && fields[i].0 == key && fields[i].1 == value && forall|j: int|
                    0 <= j < i ==> (#[trigger] fields[j]).0 != key
            &&& json.get(key) is None <==> forall|i: int|
                0 <= i < fields.len() ==> (#[trigger] fields[i]).0 != key
        },
{
    if let JsonView::Object(fields) = json {
        lemma_lookup_first(fields, key);
        if lookup(fields, key) is Some {
            let k = choose|k: int|
                #![trigger fields[k]]
                0 <= k < fields.len() && fields[k].0 == key && fields[k].1 == lookup(fields, key)->0
                    && forall|j: int| 0 <= j < k ==> (#[trigger] fields[j]).0 != key;
            assert(fields[k].0 == key);
            if exists|i: int|
                #![trigger fields[i]]
                0 <= i < fields.len() && fields[i].0 == key && fields[i].1 == value && forall|j: int|
                    0 <= j < i ==> (#[trigger] fields[j]).0 != key {
                let i = choose|i: int|
                    #![trigger fields[i]]
                    0 <= i < fields.len() && fields[i].0 == key && fields[i].1 == value && forall|
                        j: int,
                    |
                        0 <= j < i ==> (#[trigger] fields[j]).0 != key;
                assert(i == k);
            }
        }
    }
}

proof fn lemma_lookup_first(fields: Seq<(Seq<char>, JsonView)>, key: Seq<char>)
    ensures
        lookup(fields, key) is Some ==> exists|k: int|
            #![trigger fields[k]]
            0 <= k < fields.len() && fields[k].0 == key && fields[k].1 == lookup(fields, key)->0
                && forall|j: int| 0 <= j < k ==> (#[trigger] fields[j]).0 != key,
        lookup(fields, key) is None ==> forall|i: int|
            0 <= i < fields.len() ==> (#[trigger] fields[i]).0 != key,
    decreases fields.len(),
{
    if fields.len() > 0 {
        let rest = fields.skip(1);
        if fields[0].0 == key {
            assert(fields[0].1 == lookup(fields, key)->0);
        } else {
            lemma_lookup_first(rest, key);
            if lookup(fields, key) is Some {
                let k = choose|k: int|
                    #![trigger rest[k]]
                    0 <= k < rest.len() && rest[k].0 == key && rest[k].1 == lookup(rest, key)->0
                        && forall|j: int| 0 <= j < k ==> (#[trigger] rest[j]).0 != key;
                assert(fields[k + 1] == rest[k]);
                assert forall|j: int| 0 <= j < k + 1 implies (#[trigger] fields[j]).0 != key by {
                    if j > 0 {
                        assert(rest[j - 1] == fields[j]);
                    }
                }
            } else {
                assert forall|i: int| 0 <= i < fields.len() implies (#[trigger] fields[i]).0 != key by {
                    if i > 0 {
                        assert(rest[i - 1] == fields[i]);
                    }
                }
            }
        }
    }
}

/// A document is a text or a list only where it is written as one, and its member is a text exactly
/// where the member is there and is one.
pub proof fn lemma_kinds(json: JsonView, key: Seq<char>, text: Seq<char>, items: Seq<JsonView>)
    ensures
        json.as_text() == Some(text) <==> json == JsonView::Text(text),
        json.as_text() is None <==> json !is Text,
        json.as_items() == Some(items) <==> json == JsonView::Array(items),
        json.as_items() is None <==> json !is Array,
        json.get_text(key) == Some(text) <==> json.get(key) == Some(JsonView::Text(text)),
        json.get_text(key) is None <==> json.get(key) is None || json.get(key)->0 !is Text,
{
}

/// In a well-formed document no object at any depth has a key twice.
pub proof fn lemma_well_formed_parts(json: JsonView)
    ensures
        json.well_formed() <==> match json {
            JsonView::Array(items) => forall|i: int|
                0 <= i < items.len() ==> (#[trigger] items[i]).well_formed(),
            JsonView::Object(fields) => {
                &&& forall|i: int, j: int|
                    0 <= i < j < fields.len() ==> (#[trigger] fields[i]).0 != (
                    #[trigger] fields[j]).0
                &&& forall|i: int| 0 <= i < fields.len() ==> (#[trigger] fields[i]).1.well_formed()
            },
            _ => true,
        },
{
}

impl Json {
    /// The member `key` of an object.
    pub fn get(&self, key: &str) -> (value: Option<&Json>)
        ensures
            match value {
                Some(found) => self@.get(key@) == Some(found@),
                None => self@.get(key@) is None,
            },
    {
        proof {
            lemma_view_parts(*self);
        }
        match self {
            Json::Object(fields) => {
                let ghost views = field_views(fields@);
                let mut i: usize = 0;
                assert(views.skip(0) =~= views);
                while i < fields.len()
                    invariant
                        i <= fields.len(),
                        views == field_views(fields@),
                        self@.get(key@) == lookup(views, key@),
                        lookup(views, key@) == lookup(views.skip(i as int), key@),
                    decreases fields.len() - i,
                {
                    if same_text(fields[i].0.as_str(), key) {
                        return Some(&fields[i].1);
                    }
                    assert(views.skip(i as int).skip(1) =~= views.skip(i + 1));
                    i += 1;
                }
                None
            },
            _ => None,
        }
    }

    /// The text, where the document is one.
    pub fn as_str(&self) -> (text: Option<&str>)
        ensures
            match text {
                Some(found) => self@.as_text() == Some(found@),
                None => self@.as_text() is None,
            },
    {
        match self {
            Json::Text(text) => Some(text.as_str()),
            _ => None,
        }
    }

    /// The items, where the document is an array.
    pub fn as_array(&self) -> (items: Option<&Vec<Json>>)
        ensures
            match items {
                Some(found) => self@.as_items() == Some(json_views(found@)),
                None => self@.as_items() is None,
            },
    {
        proof {
            lemma_view_parts(*self);
        }
        match self {
            Json::Array(items) => Some(items),
            _ => None,
        }
    }

    /// Tells whether the document is `null`.
    pub fn is_null(&self) -> (null: bool)
        ensures
            null == (self@ == JsonView::Null),
    {
        match self {
            Json::Null => true,
            _ => false,
        }
    }

    /// The member `key`, where it is a text.
    pub fn get_str(&self, key: &str) -> (text: Option<&str>)
        ensures
            match text {
                Some(found) => self@.get_text(key@) == Some(found@),
                None => self@.get_text(key@) is None,
            },
    {
        match self.get(key) {
            Some(value) => value.as_str(),
            None => None,
        }
    }
}

/// `serde_json::Value`, the document that `serde_json` builds; opaque here.
#[verifier::external_type_specification]
#[verifier::external_body]
pub struct ExValue(serde_json::Value);

/// What a `serde_json::Value` holds.
pub uninterp spec fn value_content(value: Value) -> JsonView;

/// What `serde_json::from_str::<Value>` makes of a text: the content of the document, or the text
/// of its error.
pub uninterp spec fn parsed_json(text: Seq<char>) -> Result<JsonView, Seq<char>>;

/// What `serde_json::from_str::<Vec<Value>>` makes of a text: the contents of the documents of one
/// array, or the text of its error.
pub uninterp spec fn parsed_json_list(text: Seq<char>) -> Result<Seq<JsonView>, Seq<char>>;

/// One layer of a `serde_json::Value`.
enum Node<'a> {
    Null,
    Bool(bool),
    Number(String),
    Text(String),
    Array(&'a Vec<Value>),
    Object(Vec<(String, &'a Value)>),
}

/// The contents of a list of values.
pub open spec fn value_contents(items: Seq<Value>) -> Seq<JsonView> {
    Seq::new(items.len(), |i: int| value_content(items[i]))
}

/// The keys and the contents of a list of members.
pub open spec fn member_contents(fields: Seq<(String, &Value)>) -> Seq<(Seq<char>, JsonView)> {
    Seq::new(fields.len(), |i: int| (fields[i].0@, value_content(*fields[i].1)))
}

/// A list of values, or of members, holds what each of them holds, in order.
pub proof fn lemma_value_contents(items: Seq<Value>, fields: Seq<(String, &Value)>)
    ensures
        value_contents(items).len() == items.len(),
        forall|i: int|
            0 <= i < items.len() ==> #[trigger] value_contents(items)[i] == value_content(items[i]),
        member_contents(fields).len() == fields.len(),
        forall|i: int|
            #![trigger member_contents(fields)[i]]
            0 <= i < fields.len() ==> member_contents(fields)[i].0 == fields[i].0@ && member_contents(
                fields,
            )[i].1 == value_content(*fields[i].1),
{
}

impl<'a> Node<'a> {
    /// The content of the value that the layer was taken from.
    spec fn content(self) -> JsonView {
        match self {
            Node::Null => JsonView::Null,
            Node::Bool(value) => JsonView::Bool(value),
            Node::Number(text) => JsonView::Number(text@),
            Node::Text(text) => JsonView::Text(text@),
            Node::Array(items) => JsonView::Array(value_contents(items@)),
            Node::Object(fields) => JsonView::Object(member_contents(fields@)),
        }
    }
}

/// A layer shows what it holds: a plain value itself, a list or an object the contents of its parts.
proof fn lemma_node_content<'a>(node: Node<'a>)
    ensures
        node is Null ==> node.content() == JsonView::Null,
        node matches Node::Bool(value) ==> node.content() == JsonView::Bool(value),
        node matches Node::Number(text) ==> node.content() == JsonView::Number(text@),
        node matches Node::Text(text) ==> node.content() == JsonView::Text(text@),
        node matches Node::Array(items) ==> node.content() == JsonView::Array(
            value_contents(items@),
        ),
        node matches Node::Object(fields) ==> node.content() == JsonView::Object(
            member_contents(fields@),
        ),
{
}

/// Tells the variants of the enum `serde_json::Value` apart and hands out what each holds: the
/// layer shows the content of the value. A number is handed out as the text that its `Display`
/// writes. An object is a `serde_json::Map`, which holds no key twice.
#[verifier::external_body]
fn open_value<'a>(value: &'a Value) -> (node: Node<'a>)
    ensures
        node.content() == value_content(*value),
        node matches Node::Object(fields) ==> keys_distinct(member_contents(fields@)),
{
    match value {
        Value::Null => Node::Null,
        Value::Bool(value) => Node::Bool(*value),
        Value::Number(number) => Node::Number(number.to_string()),
        Value::String(text) => Node::Text(text.clone()),
        Value::Array(items) => Node::Array(items),
        Value::Object(fields) => Node::Object(fields.iter().map(|(k, v)| (k.clone(), v)).collect()),
    }
}

/// `serde_json::from_str::<Value>` reads a text as one JSON document. What it makes of the text
/// depends on the text alone; an error is handed on as the text that its `Display` writes.
#[verifier::external_body]
fn value_from_str(text: &str) -> (result: Result<Value, String>)
    ensures
        match result {
            Ok(value) => parsed_json(text@) == Ok::<JsonView, Seq<char>>(value_content(value)),
            Err(error) => parsed_json(text@) == Err::<JsonView, Seq<char>>(error@),
        },
{
    serde_json::from_str::<Value>(text).map_err(|error| error.to_string())
}

/// `serde_json::from_str::<Vec<Value>>` reads a text as one JSON array. What it makes of the text
/// depends on the text alone; an error is handed on as the text that its `Display` writes.
#[verifier::external_body]
fn values_from_str(text: &str) -> (result: Result<Vec<Value>, String>)
    ensures
        match result {
            Ok(values) => parsed_json_list(text@) == Ok::<Seq<JsonView>, Seq<char>>(
                Seq::new(values@.len(), |i: int| value_content(values@[i])),
            ),
            Err(error) => parsed_json_list(text@) == Err::<Seq<JsonView>, Seq<char>>(error@),
        },
{
    serde_json::from_str::<Vec<Value>>(text).map_err(|error| error.to_string())
}

/// Copies a `serde_json::Value` into a plain tree.
fn json_from_value(value: &Value) -> (json: Json)
    ensures
        json@ == value_content(*value),
        json@.well_formed(),
    decreases value_content(*value),
{
    let ghost content = value_content(*value);
    let node: Node = open_value(value);
    proof {
        lemma_node_content(node);
    }
    let json: Json = match node {
        Node::Null => Json::Null,
        Node::Bool(value) => Json::Bool(value),
        Node::Number(text) => Json::Number(text),
        Node::Text(text) => Json::Text(text),
        Node::Array(items) => {
            let mut list: Vec<Json> = Vec::new();
            let mut i: usize = 0;
            while i < items.len()
                invariant
                    i <= items.len(),
                    list.len() == i,
                    content == value_content(*value),
                    content == JsonView::Array(value_contents(items@)),
                    forall|k: int|
                        0 <= k < i ==> (#[trigger] list@[k])@ == value_content(items@[k])
                            && list@[k]@.well_formed(),
                decreases items.len() - i,
            {
                proof {
                    assert(decreases_to!(content => content->Array_0));
                    assert(decreases_to!(value_contents(items@) => value_contents(items@)[i as int]));
                }
                list.push(json_from_value(&items[i]));
                i += 1;
            }
            assert(json_views(list@) =~= value_contents(items@));
            Json::Array(list)
        },
        Node::Object(fields) => {
            let mut list: Vec<(String, Json)> = Vec::new();
            let mut i: usize = 0;
            while i < fields.len()
                invariant
                    i <= fields.len(),
                    list.len() == i,
                    content == value_content(*value),
                    content == JsonView::Object(member_contents(fields@)),
                    forall|k: int|
                        0 <= k < i ==> (#[trigger] list@[k]).0@ == fields@[k].0@ && list@[k].1@
                            == value_content(*fields@[k].1) && list@[k].1@.well_formed(),
                decreases fields.len() - i,
            {
                proof {
                    assert(decreases_to!(content => content->Object_0));
                    assert(decreases_to!(member_contents(fields@) => member_contents(fields@)[i as int]));
                    assert(decreases_to!(member_contents(fields@)[i as int] => member_contents(fields@)[i as int].1));
                }
                list.push((fields[i].0.clone(), json_from_value(fields[i].1)));
                i += 1;
            }
            assert(field_views(list@) =~= member_contents(fields@));
            Json::Object(list)
        },
    };
    proof {
        lemma_view_parts(json);
    }
    json
}

/// Reads a text as one JSON document; an error comes as its text.
pub fn parse_json(text: &str) -> (result: Result<Json, String>)
    ensures
        match result {
            Ok(json) => parsed_json(text@) == Ok::<JsonView, Seq<char>>(json@) && json@.well_formed(),
            Err(error) => parsed_json(text@) == Err::<JsonView, Seq<char>>(error@),
        },
{
    match value_from_str(text) {
        Ok(value) => Ok(json_from_value(&value)),
        Err(error) => Err(error),
    }
}

/// Reads a text as one JSON array; an error comes as its text.
pub fn parse_json_list(text: &str) -> (result: Result<Vec<Json>, String>)
    ensures
        match result {
            Ok(list) => parsed_json_list(text@) == Ok::<Seq<JsonView>, Seq<char>>(json_views(list@))
                && forall|i: int| 0 <= i < list.len() ==> (#[trigger] list@[i])@.well_formed(),
            Err(error) => parsed_json_list(text@) == Err::<Seq<JsonView>, Seq<char>>(error@),
        },
{
    match values_from_str(text) {
        Ok(values) => {
            let mut list: Vec<Json> = Vec::new();
            let mut i: usize = 0;
            while i < values.len()
                invariant
                    i <= values.len(),
                    list.len() == i,
                    forall|k: int|
                        0 <= k < i ==> (#[trigger] list@[k])@ == value_content(values@[k])
                            && list@[k]@.well_formed(),
                decreases values.len() - i,
            {
                list.push(json_from_value(&values[i]));
                i += 1;
            }
            assert(json_views(list@) =~= Seq::new(
                values@.len(),
                |i: int| value_content(values@[i]),
            ));
            Ok(list)
        },
        Err(error) => Err(error),
    }
}

} // verus!
