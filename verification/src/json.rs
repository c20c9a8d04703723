//! JSON documents.

use vstd::prelude::*;

use crate::number::{self, is_real_number, parse_signed};
use crate::text::{chars_of, same_text};

verus! {

/// What a JSON document says.
pub enum Json {
    Null,
    Bool(bool),
    /// A number: its value, if it is an integer in the range of `i64`, and its text.
    Number(Option<i64>, Seq<char>),
    Text(Seq<char>),
    Array(Seq<Json>),
    /// The members of an object, each with its name.
    Object(Seq<(Seq<char>, Json)>),
}

/// A JSON document.
#[derive(Debug)]
pub enum JsonValue {
    Null,
    Bool(bool),
    /// A number: its value, if it is an integer in the range of `i64`, and its text.
    Number(Option<i64>, String),
    Text(String),
    Array(Vec<JsonValue>),
    /// The members of an object, each with its name.
    Object(Vec<(String, JsonValue)>),
}

impl View for JsonValue {
    type V = Json;

    open spec fn view(&self) -> Json
        decreases *self,
    {
        match *self {
            JsonValue::Null => Json::Null,
            JsonValue::Bool(b) => Json::Bool(b),
            JsonValue::Number(integer, text) => Json::Number(integer, text@),
            JsonValue::Text(text) => Json::Text(text@),
            JsonValue::Array(items) => Json::Array(
                Seq::new(
                    items@.len(),
                    |i: int|
                        if 0 <= i < items@.len() {
                            items@[i].view()
                        } else {
                            Json::Null
                        },
                ),
            ),
            JsonValue::Object(members) => Json::Object(
                Seq::new(
                    members@.len(),
                    |i: int|
                        if 0 <= i < members@.len() {
                            (members@[i].0@, members@[i].1.view())
                        } else {
                            (Seq::empty(), Json::Null)
                        },
                ),
            ),
        }
    }
}

// ---------------------------------------------------------------------------
// Reading a document
// ---------------------------------------------------------------------------

/// The first of `members` with the name `key`.
pub open spec fn member_of(members: Seq<(Seq<char>, Json)>, key: Seq<char>) -> Option<Json>
    decreases members.len(),
{
    if members.len() == 0 {
        None
    } else if members[0].0 == key {
        Some(members[0].1)
    } else {
        member_of(members.drop_first(), key)
    }
}

impl Json {
    /// The member with the name `key`, if this is an object that has one.
    pub open spec fn member(self, key: Seq<char>) -> Option<Json> {
        match self {
            Json::Object(members) => member_of(members, key),
            _ => None,
        }
    }

    /// The member with the name `key`, or null.
    pub open spec fn member_or_null(self, key: Seq<char>) -> Json {
        match self.member(key) {
            Some(value) => value,
            None => Json::Null,
        }
    }

    /// The text, if this is one.
    pub open spec fn text(self) -> Option<Seq<char>> {
        match self {
            Json::Text(text) => Some(text),
            _ => None,
        }
    }

    /// The text of the member with the name `key`, if there is one and it is a text.
    pub open spec fn text_member(self, key: Seq<char>) -> Option<Seq<char>> {
        self.member_or_null(key).text()
    }

    /// The integer, as a number or as the text of one, if it is in the range of `i64`.
    pub open spec fn integer(self) -> Option<i64> {
        match self {
            Json::Number(integer, _) => integer,
            Json::Text(text) => match number::signed_number(text) {
                Some(n) => Some(n as i64),
                None => None,
            },
            _ => None,
        }
    }

    /// The text that writes a real number: that of a number, or a text that writes one.
    pub open spec fn number_text(self) -> Option<Seq<char>> {
        match self {
            Json::Number(_, text) => Some(text),
            Json::Text(text) => if number::real_number(text) {
                Some(text)
            } else {
                None
            },
            _ => None,
        }
    }
}

impl JsonValue {
    /// The member with the name `key`, if this is an object that has one.
    pub fn get(&self, key: &str) -> (r: Option<&JsonValue>)
        ensures
            match r {
                Some(value) => self@.member(key@) == Some(value@),
                None => self@.member(key@) is None,
            },
    {
        match self {
            JsonValue::Object(members) => {
                let wanted: Vec<char> = chars_of(key);
                let ghost all = Seq::new(
                    members@.len(),
                    |i: int| (members@[i].0@, members@[i].1@),
                );
                let mut i: usize = 0;
                assert(self@->Object_0 =~= all);
                assert(all.skip(0) =~= all);
                while i < members.len()
                    invariant
                        i <= members@.len(),
                        wanted@ == key@,
                        self@ == Json::Object(all),
                        all.len() == members@.len(),
                        forall|j: int|
                            0 <= j < all.len() ==> #[trigger] all[j] == (
                                members@[j].0@,
                                members@[j].1@,
                            ),
                        member_of(all, key@) == member_of(all.skip(i as int), key@),
                    decreases members@.len() - i,
                {
                    let name: Vec<char> = chars_of(members[i].0.as_str());
                    assert(all.skip(i as int)[0] == all[i as int]);
                    if same_text(name.as_slice(), wanted.as_slice()) {
                        return Some(&members[i].1);
                    }
                    assert(all.skip(i as int).drop_first() =~= all.skip(i + 1));
                    i = i + 1;
                }
                None
            },
            _ => None,
        }
    }

    /// The text, if this is one.
    pub fn as_text(&self) -> (r: Option<&String>)
        ensures
            match r {
                Some(text) => self@.text() == Some(text@),
                None => self@.text() is None,
            },
    {
        match self {
            JsonValue::Text(text) => Some(text),
            _ => None,
        }
    }

    /// The items, if this is an array.
    pub fn as_array(&self) -> (r: Option<&Vec<JsonValue>>)
        ensures
            match r {
                Some(items) => self@ == Json::Array(
                    Seq::new(items@.len(), |i: int| items@[i]@),
                ),
                None => !(self@ is Array),
            },
    {
        match self {
            JsonValue::Array(items) => {
                let ghost all = Seq::new(items@.len(), |i: int| items@[i]@);
                assert(forall|i: int| 0 <= i < items@.len() ==> (#[trigger] items@[i])@ == all[i]);
                assert(self@->Array_0 =~= all);
                Some(items)
            },
            _ => None,
        }
    }

    /// Whether this is an object.
    pub fn is_object(&self) -> (r: bool)
        ensures
            r == (self@ is Object),
    {
        match self {
            JsonValue::Object(_) => true,
            _ => false,
        }
    }
}

/// The integer that a value holds. A 32 bit integer comes as a number, and a 64 bit
/// integer as a quoted text.
pub fn as_i64(value: &JsonValue) -> (r: Option<i64>)
    ensures
        r == value@.integer(),
{
    match value {
        JsonValue::Number(integer, _) => *integer,
        JsonValue::Text(text) => {
            let chars: Vec<char> = chars_of(text.as_str());
            parse_signed(chars.as_slice())
        },
        _ => None,
    }
}

/// The text of the member with the name `key`, if there is one and it is a text.
pub fn string_field(value: &JsonValue, key: &str) -> (r: Option<String>)
    ensures
        match r {
            Some(text) => value@.text_member(key@) == Some(text@),
            None => value@.text_member(key@) is None,
        },
{
    match value.get(key) {
        Some(member) => match member.as_text() {
            Some(text) => Some(text.clone()),
            None => None,
        },
        None => None,
    }
}

/// The text that writes the real number a value holds, as a number or as a quoted text.
/// A text that writes none holds none.
pub fn number_field(value: &JsonValue) -> (r: Option<String>)
    ensures
        match r {
            Some(text) => value@.number_text() == Some(text@),
            None => value@.number_text() is None,
        },
{
    match value {
        JsonValue::Number(_, text) => Some(text.clone()),
        JsonValue::Text(text) => {
            let chars: Vec<char> = chars_of(text.as_str());
            if is_real_number(chars.as_slice()) {
                Some(text.clone())
            } else {
                None
            }
        },
        _ => None,
    }
}

/// An integer means the same as a number and as a quoted text.
pub proof fn quoted_integer_is_the_integer(n: i64, text: Seq<char>)
    ensures
        Json::Text(number::signed_decimal(n as int)).integer() == Some(n),
        Json::Number(Some(n), text).integer() == Some(n),
        Json::Text(number::signed_decimal(n as int)).number_text() == Some(
            number::signed_decimal(n as int),
        ),
{
    number::signed_decimal_reads_back(n);
    number::integer_is_a_real_number(n as int);
}

// ---------------------------------------------------------------------------
// Parsing a document
// ---------------------------------------------------------------------------

/// A tree of values as `serde_json` holds it.
#[verifier::external_type_specification]
#[verifier::external_body]
pub struct ExTree(serde_json::Value);

/// Why `serde_json` did not read a document.
#[verifier::external_type_specification]
#[verifier::external_body]
pub struct ExTreeError(serde_json::Error);

/// What a tree of `serde_json` holds.
pub uninterp spec fn tree_content(tree: serde_json::Value) -> Json;

/// What `serde_json::from_str` reads out of a text as one document, or `None` when it
/// reports an error.
pub uninterp spec fn json_document(text: Seq<char>) -> Option<Json>;

/// The outermost layer of a tree.
enum Layer {
    Null,
    Bool(bool),
    Number(Option<i64>, String),
    Text(String),
    Array(Vec<serde_json::Value>),
    Object(Vec<(String, serde_json::Value)>),
}

/// What a tree with this outermost layer holds.
spec fn layer_content(layer: Layer) -> Json {
    match layer {
        Layer::Null => Json::Null,
        Layer::Bool(b) => Json::Bool(b),
        Layer::Number(integer, text) => Json::Number(integer, text@),
        Layer::Text(text) => Json::Text(text@),
        Layer::Array(items) => Json::Array(
            Seq::new(items@.len(), |i: int| tree_content(items@[i])),
        ),
        Layer::Object(members) => Json::Object(
            Seq::new(members@.len(), |i: int| (members@[i].0@, tree_content(members@[i].1))),
        ),
    }
}

/// `serde_json::from_str` reads a text as one JSON document, or reports an error. The
/// outcome is a function of the text.
#[verifier::external_body]
fn read_tree(text: &str) -> (r: Result<serde_json::Value, serde_json::Error>)
    ensures
        match r {
            Ok(tree) => json_document(text@) == Some(tree_content(tree)),
            Err(_) => json_document(text@) is None,
        },
{
    serde_json::from_str(text)
}

/// The variants of `serde_json::Value` are the six kinds of JSON values. A number is
/// taken by `Number::as_i64` and by its text, an object by its members in the order
/// in which its map walks them.
#[verifier::external_body]
fn open_tree(tree: serde_json::Value) -> (r: Layer)
    ensures
        tree_content(tree) == layer_content(r),
{
    match tree {
        serde_json::Value::Null => Layer::Null,
        serde_json::Value::Bool(b) => Layer::Bool(b),
        serde_json::Value::Number(n) => Layer::Number(n.as_i64(), n.to_string()),
        serde_json::Value::String(text) => Layer::Text(text),
        serde_json::Value::Array(items) => Layer::Array(items),
        serde_json::Value::Object(members) => Layer::Object(members.into_iter().collect()),
    }
}

/// The document that a tree holds.
fn document_of(tree: serde_json::Value) -> (r: JsonValue)
    ensures
        r@ == tree_content(tree),
    decreases tree_content(tree),
{
    match open_tree(tree) {
        Layer::Null => JsonValue::Null,
        Layer::Bool(b) => JsonValue::Bool(b),
        Layer::Number(integer, text) => JsonValue::Number(integer, text),
        Layer::Text(text) => JsonValue::Text(text),
        Layer::Array(items) => {
            let ghost contents = tree_content(tree)->Array_0;
            let mut values: Vec<JsonValue> = Vec::new();
            for item in it: items
                invariant
                    it.seq() == items@,
                    values@.len() == it.index(),
                    forall|i: int|
                        0 <= i < values@.len() ==> (#[trigger] values@[i])@ == contents[i],
                    tree_content(tree) == Json::Array(contents),
                    contents == Seq::new(items@.len(), |i: int| tree_content(items@[i])),
            {
                proof {
                    let n = it.index() as int;
                    assert(contents[n] == tree_content(item));
                    assert(decreases_to!(tree_content(tree) => tree_content(tree)->Array_0));
                    assert(decreases_to!(contents => contents[n]));
                }
                values.push(document_of(item));
            }
            let r = JsonValue::Array(values);
            assert(r@->Array_0 =~= contents);
            r
        },
        Layer::Object(members) => {
            let ghost contents = tree_content(tree)->Object_0;
            let mut values: Vec<(String, JsonValue)> = Vec::new();
            for member in it: members
                invariant
                    it.seq() == members@,
                    values@.len() == it.index(),
                    forall|i: int|
                        0 <= i < values@.len() ==> ((#[trigger] values@[i]).0@, values@[i].1@)
                            == contents[i],
                    tree_content(tree) == Json::Object(contents),
                    contents == Seq::new(
                        members@.len(),
                        |i: int| (members@[i].0@, tree_content(members@[i].1)),
                    ),
            {
                let (name, item) = member;
                proof {
                    let n = it.index() as int;
                    assert(contents[n] == (name@, tree_content(item)));
                    assert(decreases_to!(tree_content(tree) => tree_content(tree)->Object_0));
                    assert(decreases_to!(contents => contents[n]));
                    assert(decreases_to!(contents[n] => contents[n].1));
                }
                values.push((name, document_of(item)));
            }
            let r = JsonValue::Object(values);
            assert(r@->Object_0 =~= contents);
            r
        },
    }
}

/// Parses a text as one JSON document.
pub fn parse_json(text: &str) -> (r: Result<JsonValue, serde_json::Error>)
    ensures
        match r {
            Ok(value) => json_document(text@) == Some(value@),
            Err(_) => json_document(text@) is None,
        },
{
    match read_tree(text) {
        Ok(tree) => Ok(document_of(tree)),
        Err(error) => Err(error),
    }
}

// ---------------------------------------------------------------------------
// What a document says
// ---------------------------------------------------------------------------

/// A member is found by its name, wherever it stands and whatever stands beside it; of
/// members with one name the first is found.
pub proof fn members_are_found_by_name(members: Seq<(Seq<char>, Json)>, key: Seq<char>, i: int)
    requires
        0 <= i < members.len(),
        members[i].0 == key,
        forall|j: int| 0 <= j < i ==> (#[trigger] members[j]).0 != key,
    ensures
        Json::Object(members).member(key) == Some(members[i].1),
        Json::Object(members).member_or_null(key) == members[i].1,
    decreases i,
{
    if i > 0 {
        assert(members[0].0 != key);
        let rest = members.drop_first();
        assert forall|j: int| 0 <= j < i - 1 implies (#[trigger] rest[j]).0 != key by {
            assert(rest[j] == members[j + 1]);
        }
        members_are_found_by_name(rest, key, i - 1);
    }
}

/// A name that no member has finds nothing, and a value that is no object has no members.
pub proof fn nothing_is_found_by_another_name(value: Json, key: Seq<char>)
    requires
        value matches Json::Object(members) ==> forall|j: int|
            0 <= j < members.len() ==> (#[trigger] members[j]).0 != key,
    ensures
        value.member(key) is None,
        value.member_or_null(key) is Null,
    decreases value,
{
    if let Json::Object(members) = value {
        lemma_no_member(members, key);
    }
}

proof fn lemma_no_member(members: Seq<(Seq<char>, Json)>, key: Seq<char>)
    requires
        forall|j: int| 0 <= j < members.len() ==> (#[trigger] members[j]).0 != key,
    ensures
        member_of(members, key) is None,
    decreases members.len(),
{
    if members.len() > 0 {
        assert(members[0].0 != key);
        let rest = members.drop_first();
        assert forall|j: int| 0 <= j < rest.len() implies (#[trigger] rest[j]).0 != key by {
            assert(rest[j] == members[j + 1]);
        }
        lemma_no_member(rest, key);
    }
}

/// Only a text has a text, only numbers and texts hold integers, and only they hold the
/// text of a number.
pub proof fn values_hold_what_they_are(value: Json)
    ensures
        value.text() == (match value {
            Json::Text(text) => Some(text),
            _ => None,
        }),
        match value {
            Json::Number(integer, text) => value.integer() == integer && value.number_text()
                == Some(text),
            Json::Text(text) => {
                &&& match number::signed_number(text) {
                    Some(n) => value.integer() == Some(n as i64),
                    None => value.integer() is None,
                }
                &&& number::real_number(text) ==> value.number_text() == Some(text)
                &&& !number::real_number(text) ==> value.number_text() is None
            },
            _ => value.integer() is None && value.number_text() is None,
        },
{
}

/// A document says what its values hold, item by item and member by member.
pub proof fn document_says_what_it_holds(value: JsonValue)
    ensures
        match value {
            JsonValue::Null => value@ == Json::Null,
            JsonValue::Bool(b) => value@ == Json::Bool(b),
            JsonValue::Number(integer, text) => value@ == Json::Number(integer, text@),
            JsonValue::Text(text) => value@ == Json::Text(text@),
            JsonValue::Array(items) => {
                &&& value@ is Array
                &&& value@->Array_0.len() == items@.len()
                &&& forall|i: int|
                    0 <= i < items@.len() ==> #[trigger] value@->Array_0[i] == items@[i]@
            },
            JsonValue::Object(members) => {
                &&& value@ is Object
                &&& value@->Object_0.len() == members@.len()
                &&& forall|i: int|
                    0 <= i < members@.len() ==> #[trigger] value@->Object_0[i] == (
                        members@[i].0@,
                        members@[i].1@,
                    )
            },
        },
{
    match value {
        JsonValue::Array(items) => {
            let all = Seq::new(items@.len(), |i: int| items@[i]@);
            assert(forall|i: int| 0 <= i < items@.len() ==> (#[trigger] items@[i])@ == all[i]);
            assert(value@->Array_0 =~= all);
        },
        JsonValue::Object(members) => {
            let all = Seq::new(members@.len(), |i: int| (members@[i].0@, members@[i].1@));
            assert(forall|i: int|
                0 <= i < members@.len() ==> (#[trigger] members@[i]).1@ == all[i].1);
            assert(value@->Object_0 =~= all);
        },
        _ => {},
    }
}

/// The text of a member is that of the value with its name, if that is a text.
pub proof fn text_of_a_member_is_that_of_its_value(value: Json, key: Seq<char>)
    ensures
        value.text_member(key) == (match value.member(key) {
            Some(Json::Text(text)) => Some(text),
            _ => None,
        }),
{
}

/// A tree holds what its outermost layer shows: the same items and members, in the same
/// order, each with what it holds itself.
proof fn layer_holds_what_it_shows(layer: Layer)
    ensures
        match layer {
            Layer::Null => layer_content(layer) == Json::Null,
            Layer::Bool(b) => layer_content(layer) == Json::Bool(b),
            Layer::Number(integer, text) => layer_content(layer) == Json::Number(integer, text@),
            Layer::Text(text) => layer_content(layer) == Json::Text(text@),
            Layer::Array(items) => {
                &&& layer_content(layer) is Array
                &&& layer_content(layer)->Array_0.len() == items@.len()
                &&& forall|i: int|
                    0 <= i < items@.len() ==> #[trigger] layer_content(layer)->Array_0[i]
                        == tree_content(items@[i])
            },
            Layer::Object(members) => {
                &&& layer_content(layer) is Object
                &&& layer_content(layer)->Object_0.len() == members@.len()
                &&& forall|i: int|
                    0 <= i < members@.len() ==> #[trigger] layer_content(layer)->Object_0[i] == (
                        members@[i].0@,
                        tree_content(members@[i].1),
                    )
            },
        },
{
}

} // verus!
