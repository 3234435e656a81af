//! The JSON documents that descriptors hold, as a tree of the library's own.
//!
//! `serde_json` reads the text. Everything that looks into a document afterwards
//! works on `Json`, and the contracts speak of its view, `JsonView`.

use vstd::prelude::*;
use vstd::string::*;
use crate::text::same_text;

verus! {

/// A JSON value. A number keeps no digits: no rule of this library reads one.
#[derive(Debug, PartialEq, Eq)]
pub enum Json {
    Null,
    Bool(bool),
    Number,
    Text(String),
    List(Vec<Json>),
    /// The members of an object, each a key and its value, in the order in
    /// which the object hands them out.
    Object(Vec<(String, Json)>),
}

/// A `Json` as plain values.
pub enum JsonView {
    Null,
    Bool(bool),
    Number,
    Text(Seq<char>),
    List(Seq<JsonView>),
    Object(Seq<(Seq<char>, JsonView)>),
}

impl View for Json {
    type V = JsonView;

    open spec fn view(&self) -> JsonView
        decreases self,
    {
        match self {
            Json::Null => JsonView::Null,
            Json::Bool(b) => JsonView::Bool(*b),
            Json::Number => JsonView::Number,
            Json::Text(text) => JsonView::Text(text@),
            Json::List(items) => JsonView::List(
                Seq::new(
                    items@.len(),
                    |i: int|
                        if 0 <= i < items@.len() {
                            items@[i]@
                        } else {
                            JsonView::Null
                        },
                ),
            ),
            Json::Object(entries) => JsonView::Object(
                Seq::new(
                    entries@.len(),
                    |i: int|
                        if 0 <= i < entries@.len() {
                            (entries@[i].0@, entries@[i].1@)
                        } else {
                            (Seq::empty(), JsonView::Null)
                        },
                ),
            ),
        }
    }
}

/// The items of a list as plain values, in order.
pub open spec fn list_view(items: Seq<Json>) -> Seq<JsonView> {
    Seq::new(items.len(), |i: int| items[i]@)
}

/// The members of an object as plain values, in order.
pub open spec fn object_view(entries: Seq<(String, Json)>) -> Seq<(Seq<char>, JsonView)> {
    Seq::new(entries.len(), |i: int| (entries[i].0@, entries[i].1@))
}

/// What was read, as plain values.
pub open spec fn option_view(doc: Option<Json>) -> Option<JsonView> {
    match doc {
        Some(doc) => Some(doc@),
        None => None,
    }
}

/// What was read of each line, as plain values.
pub open spec fn option_views(docs: Seq<Option<Json>>) -> Seq<Option<JsonView>> {
    Seq::new(docs.len(), |i: int| option_view(docs[i]))
}

/// The view of a list is the list of the views of its items.
pub proof fn lemma_list_view(items: Vec<Json>)
    ensures
        Json::List(items)@ == JsonView::List(list_view(items@)),
{
    assert(Json::List(items)@->List_0 =~= list_view(items@));
}

/// The view of an object is the list of its keys, each with the view of its
/// value.
pub proof fn lemma_object_view(entries: Vec<(String, Json)>)
    ensures
        Json::Object(entries)@ == JsonView::Object(object_view(entries@)),
{
    reveal_with_fuel(<Json as View>::view, 2);
    let whole = Json::Object(entries);
    let members = whole@->Object_0;
    assert(members =~= object_view(entries@));
}

/// The value of the first entry with the given key.
pub open spec fn lookup(entries: Seq<(Seq<char>, JsonView)>, key: Seq<char>) -> Option<JsonView>
    decreases entries.len(),
{
    if entries.len() == 0 {
        None
    } else if entries[0].0 == key {
        Some(entries[0].1)
    } else {
        lookup(entries.skip(1), key)
    }
}

/// What `lookup` finds is the value of one of the entries, and it finds
/// nothing only where no entry has the key.
pub proof fn lemma_lookup(entries: Seq<(Seq<char>, JsonView)>, key: Seq<char>)
    ensures
        lookup(entries, key) matches Some(found) ==> exists|i: int|
            0 <= i < entries.len() && (#[trigger] entries[i]).0 == key && entries[i].1 == found,
        lookup(entries, key) is None ==> forall|i: int|
            0 <= i < entries.len() ==> (#[trigger] entries[i]).0 != key,
    decreases entries.len(),
{
    if entries.len() > 0 && entries[0].0 != key {
        let rest = entries.skip(1);
        lemma_lookup(rest, key);
        if lookup(rest, key) is None {
            assert forall|i: int| 0 <= i < entries.len() implies (#[trigger] entries[i]).0
                != key by {
                if i > 0 {
                    assert(rest[i - 1] == entries[i]);
                }
            }
        }
    }
}

impl JsonView {
    /// The members of an object; none for any other value.
    pub open spec fn entries(self) -> Seq<(Seq<char>, JsonView)> {
        match self {
            JsonView::Object(entries) => entries,
            _ => Seq::empty(),
        }
    }

    /// The member with the given key, if this is an object that has one.
    pub open spec fn member(self, key: Seq<char>) -> Option<JsonView> {
        lookup(self.entries(), key)
    }

    /// Whether this is an object with a member of the given key.
    pub open spec fn has_key(self, key: Seq<char>) -> bool {
        self.member(key) is Some
    }

    /// No object of the tree, at any depth, has two members with the same key.
    pub open spec fn unique_keys(self) -> bool
        decreases self,
    {
        match self {
            JsonView::List(items) => forall|i: int|
                0 <= i < items.len() ==> (#[trigger] items[i]).unique_keys(),
            JsonView::Object(entries) => {
                &&& forall|i: int, j: int|
                    0 <= i < j < entries.len() ==> (#[trigger] entries[i]).0
                        != (#[trigger] entries[j]).0
                &&& forall|i: int|
                    0 <= i < entries.len() ==> (#[trigger] entries[i]).1.unique_keys()
            },
            _ => true,
        }
    }
}

/// In a tree without repeated keys, no member has repeated keys.
pub proof fn lemma_member_unique_keys(doc: JsonView, key: Seq<char>)
    requires
        doc.unique_keys(),
    ensures
        doc.member(key) matches Some(found) ==> found.unique_keys(),
{
    lemma_lookup(doc.entries(), key);
}

impl Json {
    /// The member with the given key, if this is an object that has one.
    pub fn get(&self, key: &str) -> (r: Option<&Json>)
        ensures
            match r {
                Some(found) => self@.member(key@) == Some(found@),
                None => self@.member(key@) is None,
            },
    {
        match self {
            Json::Object(entries) => {
                let ghost members = object_view(entries@);
                proof {
                    lemma_object_view(*entries);
                    assert(members.skip(0) == members);
                }
                let mut k: usize = 0;
                while k < entries.len()
                    invariant
                        k <= entries.len(),
                        members == object_view(entries@),
                        self@.member(key@) == lookup(members.skip(k as int), key@),
                    decreases entries.len() - k,
                {
                    if same_text(entries[k].0.as_str(), key) {
                        return Some(&entries[k].1);
                    }
                    assert(members.skip(k as int).skip(1) == members.skip(k + 1));
                    k += 1;
                }
                None
            },
            _ => None,
        }
    }

    /// Whether this is an object with a member of the given key.
    pub fn contains_key(&self, key: &str) -> (r: bool)
        ensures
            r == self@.has_key(key@),
    {
        self.get(key).is_some()
    }
}

/// `serde_json::Value`, the tree that `serde_json` reads a text into. Nothing
/// is seen of it here but through `value_tree`.
#[verifier::external_type_specification]
#[verifier::external_body]
pub struct ExValue(serde_json::Value);

/// The tree that a `serde_json::Value` holds.
pub uninterp spec fn value_tree(value: serde_json::Value) -> JsonView;

/// What `serde_json::from_str` makes of a text: the document it reads, or
/// `None` where it reports an error.
pub uninterp spec fn json_document(text: Seq<char>) -> Option<JsonView>;

/// Calls `serde_json::from_str` for a `Value`. It returns an error for a text
/// that is no single JSON document and never panics; the same text always gives
/// the same document.
#[verifier::external_body]
fn read_value(text: &str) -> (r: Option<serde_json::Value>)
    ensures
        match r {
            Some(value) => json_document(text@) == Some(value_tree(value)),
            None => json_document(text@) is None,
        },
{
    match serde_json::from_str::<serde_json::Value>(text) {
        Ok(value) => Some(value),
        Err(_) => None,
    }
}

/// Copies a `serde_json::Value` into a `Json`, variant by variant. An object
/// of `serde_json` is a map, which holds one value for a key, so no object of
/// the copy has a key twice.
#[verifier::external_body]
fn copy_value(value: &serde_json::Value) -> (r: Json)
    ensures
        r@ == value_tree(*value),
        r@.unique_keys(),
{
    match value {
        serde_json::Value::Null => Json::Null,
        serde_json::Value::Bool(b) => Json::Bool(*b),
        serde_json::Value::Number(_) => Json::Number,
        serde_json::Value::String(s) => Json::Text(s.clone()),
        serde_json::Value::Array(items) => Json::List(items.iter().map(copy_value).collect()),
        serde_json::Value::Object(map) => Json::Object(
            map.iter().map(|(k, v)| (k.clone(), copy_value(v))).collect(),
        ),
    }
}

/// Reads a text as one JSON document. No object of the document has a key
/// twice.
pub fn parse_json(text: &str) -> (r: Option<Json>)
    ensures
        option_view(r) == json_document(text@),
        r matches Some(doc) ==> doc@.unique_keys(),
{
    match read_value(text) {
        Some(value) => Some(copy_value(&value)),
        None => None,
    }
}

} // verus!
