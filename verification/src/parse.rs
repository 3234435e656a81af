//! Reading the capabilities of a costume out of its descriptor.
//!
//! A plain descriptor is one JSON document. Its motions are the keys of the
//! object under `motions`; its expressions are the `name` strings of the entries
//! of the list under `expressions`. A composite descriptor holds one JSON
//! document per line. The last line that is a record, that is a document with a
//! `motions` or an `expressions` member, speaks for the file, and both members
//! are read as plain lists of strings.

use vstd::prelude::*;
use vstd::string::*;
use crate::text::{texts, lines_of, split_lines, lemma_texts_push};
use crate::json::{
    Json,
    JsonView,
    json_document,
    parse_json,
    list_view,
    object_view,
    option_view,
    option_views,
    lemma_list_view,
    lemma_object_view,
    lemma_member_unique_keys,
};

verus! {

/// The two encodings of a descriptor.
#[derive(Debug, Clone, Copy, PartialEq, Eq, Structural)]
pub enum DescriptorKind {
    /// One JSON document.
    Plain,
    /// One JSON document per line.
    Composite,
}

/// Why a descriptor gives no capabilities.
#[derive(Debug, Clone, Copy, PartialEq, Eq, Structural)]
pub enum ParseError {
    /// The file could not be read.
    Unreadable,
    /// A plain descriptor is no JSON document.
    Malformed,
    /// No line of a composite descriptor is a record.
    NoValidRecord,
}

/// The keys of the members of an object, in order.
pub open spec fn keys_of(entries: Seq<(Seq<char>, JsonView)>) -> Seq<Seq<char>> {
    Seq::new(entries.len(), |i: int| entries[i].0)
}

/// The `name` of an entry, where it is an object with a string under `name`.
pub open spec fn entry_name(item: JsonView) -> Option<Seq<char>> {
    match item.member("name"@) {
        Some(JsonView::Text(name)) => Some(name),
        _ => None,
    }
}

/// The text of an item that is a string.
pub open spec fn own_text(item: JsonView) -> Option<Seq<char>> {
    match item {
        JsonView::Text(text) => Some(text),
        _ => None,
    }
}

/// The names of the entries that have one, in order; the others are passed over.
pub open spec fn entry_names(items: Seq<JsonView>) -> Seq<Seq<char>>
    decreases items.len(),
{
    if items.len() == 0 {
        Seq::empty()
    } else {
        match entry_name(items.last()) {
            Some(name) => entry_names(items.drop_last()).push(name),
            None => entry_names(items.drop_last()),
        }
    }
}

/// The items that are strings, in order; the others are passed over.
pub open spec fn text_items(items: Seq<JsonView>) -> Seq<Seq<char>>
    decreases items.len(),
{
    if items.len() == 0 {
        Seq::empty()
    } else {
        match own_text(items.last()) {
            Some(text) => text_items(items.drop_last()).push(text),
            None => text_items(items.drop_last()),
        }
    }
}

/// The strings of the list under `key`; none where `key` holds no list.
pub open spec fn listed_texts(doc: JsonView, key: Seq<char>) -> Seq<Seq<char>> {
    match doc.member(key) {
        Some(JsonView::List(items)) => text_items(items),
        _ => Seq::empty(),
    }
}

/// The motion names that a document of the given encoding declares.
pub open spec fn motions_of(doc: JsonView, kind: DescriptorKind) -> Seq<Seq<char>> {
    match kind {
        DescriptorKind::Plain => match doc.member("motions"@) {
            Some(JsonView::Object(entries)) => keys_of(entries),
            _ => Seq::empty(),
        },
        DescriptorKind::Composite => listed_texts(doc, "motions"@),
    }
}

/// The expression names that a document of the given encoding declares.
pub open spec fn expressions_of(doc: JsonView, kind: DescriptorKind) -> Seq<Seq<char>> {
    match kind {
        DescriptorKind::Plain => match doc.member("expressions"@) {
            Some(JsonView::List(items)) => entry_names(items),
            _ => Seq::empty(),
        },
        DescriptorKind::Composite => listed_texts(doc, "expressions"@),
    }
}

/// A line is a record where it is a JSON document with a `motions` or an
/// `expressions` member.
pub open spec fn is_record(line: Option<JsonView>) -> bool {
    match line {
        Some(doc) => doc.has_key("motions"@) || doc.has_key("expressions"@),
        None => false,
    }
}

/// The position of the last record among the lines.
pub open spec fn tail_record(lines: Seq<Option<JsonView>>) -> Option<int>
    decreases lines.len(),
{
    if lines.len() == 0 {
        None
    } else if is_record(lines.last()) {
        Some(lines.len() - 1)
    } else {
        tail_record(lines.drop_last())
    }
}

/// What each line of a composite descriptor reads as.
pub open spec fn line_documents(content: Seq<char>) -> Seq<Option<JsonView>> {
    Seq::new(lines_of(content).len(), |i: int| json_document(lines_of(content)[i]))
}

/// The capabilities that a parsed composite descriptor gives.
pub open spec fn composite_outcome(lines: Seq<Option<JsonView>>) -> Result<
    (Seq<Seq<char>>, Seq<Seq<char>>),
    ParseError,
> {
    match tail_record(lines) {
        Some(at) => Ok(
            (
                motions_of(lines[at]->0, DescriptorKind::Composite),
                expressions_of(lines[at]->0, DescriptorKind::Composite),
            ),
        ),
        None => Err(ParseError::NoValidRecord),
    }
}

/// The capabilities that a parsed plain descriptor gives.
pub open spec fn plain_outcome(doc: Option<JsonView>) -> Result<
    (Seq<Seq<char>>, Seq<Seq<char>>),
    ParseError,
> {
    match doc {
        Some(doc) => Ok(
            (motions_of(doc, DescriptorKind::Plain), expressions_of(doc, DescriptorKind::Plain)),
        ),
        None => Err(ParseError::Malformed),
    }
}

/// What the content of a descriptor of the given encoding gives.
pub open spec fn content_outcome(content: Seq<char>, kind: DescriptorKind) -> Result<
    (Seq<Seq<char>>, Seq<Seq<char>>),
    ParseError,
> {
    match kind {
        DescriptorKind::Plain => plain_outcome(json_document(content)),
        DescriptorKind::Composite => composite_outcome(line_documents(content)),
    }
}

/// The capabilities as texts.
pub open spec fn outcome_texts(r: Result<(Vec<String>, Vec<String>), ParseError>) -> Result<
    (Seq<Seq<char>>, Seq<Seq<char>>),
    ParseError,
> {
    match r {
        Ok(found) => Ok((texts(found.0@), texts(found.1@))),
        Err(e) => Err(e),
    }
}

/// The motions of a plain document without repeated keys are distinct names.
pub proof fn lemma_plain_motions_distinct(doc: JsonView)
    requires
        doc.unique_keys(),
    ensures
        motions_of(doc, DescriptorKind::Plain).no_duplicates(),
{
    lemma_member_unique_keys(doc, "motions"@);
}

/// The last record is a record, no later line is one, and there is none
/// exactly when no line is a record.
pub proof fn lemma_tail_record(lines: Seq<Option<JsonView>>)
    ensures
        match tail_record(lines) {
            Some(at) => 0 <= at < lines.len() && is_record(lines[at]) && forall|j: int|
                at < j < lines.len() ==> !is_record(lines[j]),
            None => forall|j: int| 0 <= j < lines.len() ==> !is_record(lines[j]),
        },
    decreases lines.len(),
{
    if lines.len() > 0 && !is_record(lines.last()) {
        let rest = lines.drop_last();
        lemma_tail_record(rest);
        assert forall|j: int| 0 <= j < rest.len() implies rest[j] == lines[j] by {}
    }
}

fn keys_list(entries: &Vec<(String, Json)>) -> (keys: Vec<String>)
    ensures
        texts(keys@) == keys_of(object_view(entries@)),
{
    let ghost all = keys_of(object_view(entries@));
    let mut keys: Vec<String> = Vec::new();
    let mut k: usize = 0;
    while k < entries.len()
        invariant
            k <= entries.len(),
            all == keys_of(object_view(entries@)),
            texts(keys@) == all.take(k as int),
        decreases entries.len() - k,
    {
        let ghost before = keys@;
        keys.push(entries[k].0.clone());
        proof {
            lemma_texts_push(before, keys@.last());
        }
        k += 1;
    }
    keys
}

fn names_list(items: &Vec<Json>) -> (names: Vec<String>)
    ensures
        texts(names@) == entry_names(list_view(items@)),
{
    let ghost all = list_view(items@);
    let mut names: Vec<String> = Vec::new();
    let mut k: usize = 0;
    while k < items.len()
        invariant
            k <= items.len(),
            all == list_view(items@),
            texts(names@) == entry_names(all.take(k as int)),
        decreases items.len() - k,
    {
        assert(all.take(k + 1).drop_last() == all.take(k as int));
        match items[k].get("name") {
            Some(Json::Text(name)) => {
                names.push(name.clone());
            },
            _ => {},
        }
        k += 1;
    }
    assert(all.take(items.len() as int) == all);
    names
}

fn texts_list(items: &Vec<Json>) -> (found: Vec<String>)
    ensures
        texts(found@) == text_items(list_view(items@)),
{
    let ghost all = list_view(items@);
    let mut found: Vec<String> = Vec::new();
    let mut k: usize = 0;
    while k < items.len()
        invariant
            k <= items.len(),
            all == list_view(items@),
            texts(found@) == text_items(all.take(k as int)),
        decreases items.len() - k,
    {
        assert(all.take(k + 1).drop_last() == all.take(k as int));
        match &items[k] {
            Json::Text(text) => {
                found.push(text.clone());
            },
            _ => {},
        }
        k += 1;
    }
    assert(all.take(items.len() as int) == all);
    found
}

fn listed(doc: &Json, key: &str) -> (found: Vec<String>)
    ensures
        texts(found@) == listed_texts(doc@, key@),
{
    match doc.get(key) {
        Some(Json::List(items)) => {
            proof {
                lemma_list_view(*items);
            }
            texts_list(items)
        },
        _ => Vec::new(),
    }
}

/// The motion names and the expression names of a document, in this order.
/// The motions of a plain document without repeated keys are distinct.
pub fn extract_model_actions(json: &Json, kind: DescriptorKind) -> (r: (Vec<String>, Vec<String>))
    ensures
        texts(r.0@) == motions_of(json@, kind),
        texts(r.1@) == expressions_of(json@, kind),
        kind == DescriptorKind::Plain && json@.unique_keys() ==> texts(r.0@).no_duplicates(),
{
    proof {
        if kind == DescriptorKind::Plain && json@.unique_keys() {
            lemma_plain_motions_distinct(json@);
        }
    }
    match kind {
        DescriptorKind::Plain => {
            let motions = match json.get("motions") {
                Some(Json::Object(entries)) => {
                    proof {
                        lemma_object_view(*entries);
                    }
                    keys_list(entries)
                },
                _ => Vec::new(),
            };
            let expressions = match json.get("expressions") {
                Some(Json::List(items)) => {
                    proof {
                        lemma_list_view(*items);
                    }
                    names_list(items)
                },
                _ => Vec::new(),
            };
            (motions, expressions)
        },
        DescriptorKind::Composite => {
            let motions = listed(json, "motions");
            let expressions = listed(json, "expressions");
            (motions, expressions)
        },
    }
}

/// Whether a line of a composite descriptor is a record.
pub fn line_is_record(line: &Option<Json>) -> (r: bool)
    ensures
        r == is_record(option_view(*line)),
{
    match line {
        Some(doc) => doc.contains_key("motions") || doc.contains_key("expressions"),
        None => false,
    }
}

/// The position of the last line that is a record.
pub fn find_tail_record(lines: &Vec<Option<Json>>) -> (r: Option<usize>)
    ensures
        match r {
            Some(at) => tail_record(option_views(lines@)) == Some(at as int),
            None => tail_record(option_views(lines@)) is None,
        },
{
    let ghost all = option_views(lines@);
    let mut k: usize = lines.len();
    assert(all.take(k as int) == all);
    while k > 0
        invariant
            k <= lines.len(),
            all == option_views(lines@),
            tail_record(all) == tail_record(all.take(k as int)),
        decreases k,
    {
        assert(all.take(k as int).drop_last() == all.take(k - 1));
        if line_is_record(&lines[k - 1]) {
            return Some(k - 1);
        }
        k -= 1;
    }
    None
}

/// The capabilities of a composite descriptor whose lines have been parsed:
/// those of its last record, read as plain lists of strings.
///
/// Fails with `NoValidRecord` exactly when no line is a record.
pub fn extract_tail_record(lines: &Vec<Option<Json>>) -> (r: Result<
    (Vec<String>, Vec<String>),
    ParseError,
>)
    ensures
        outcome_texts(r) == composite_outcome(option_views(lines@)),
{
    match find_tail_record(lines) {
        Some(at) => {
            proof {
                lemma_tail_record(option_views(lines@));
            }
            match &lines[at] {
                Some(doc) => Ok(extract_model_actions(doc, DescriptorKind::Composite)),
                None => Err(ParseError::NoValidRecord),
            }
        },
        None => Err(ParseError::NoValidRecord),
    }
}

/// The capabilities of a plain descriptor that has been parsed.
///
/// Fails with `Malformed` exactly when there is no document.
pub fn extract_document(doc: &Option<Json>) -> (r: Result<(Vec<String>, Vec<String>), ParseError>)
    ensures
        outcome_texts(r) == plain_outcome(option_view(*doc)),
        (doc matches Some(held) && held@.unique_keys()) ==> (r matches Ok(found) && texts(
            found.0@,
        ).no_duplicates()),
{
    match doc {
        Some(doc) => Ok(extract_model_actions(doc, DescriptorKind::Plain)),
        None => Err(ParseError::Malformed),
    }
}

/// The capabilities of the plain descriptor with the given content. Its
/// motions are distinct names.
///
/// Fails with `Malformed` exactly when the content is no JSON document.
pub fn parse_json_model(content: &str) -> (r: Result<(Vec<String>, Vec<String>), ParseError>)
    ensures
        outcome_texts(r) == content_outcome(content@, DescriptorKind::Plain),
        r matches Ok(found) ==> texts(found.0@).no_duplicates(),
{
    let doc = parse_json(content);
    extract_document(&doc)
}

/// The capabilities of the composite descriptor with the given content.
///
/// Fails with `NoValidRecord` exactly when no line of the content is a record.
pub fn parse_jsonl_model(content: &str) -> (r: Result<(Vec<String>, Vec<String>), ParseError>)
    ensures
        outcome_texts(r) == content_outcome(content@, DescriptorKind::Composite),
{
    let lines = split_lines(content);
    let mut docs: Vec<Option<Json>> = Vec::new();
    let mut k: usize = 0;
    while k < lines.len()
        invariant
            k <= lines.len(),
            texts(lines@) == lines_of(content@),
            docs@.len() == k,
            option_views(docs@) == line_documents(content@).take(k as int),
        decreases lines.len() - k,
    {
        docs.push(parse_json(lines[k].as_str()));
        k += 1;
    }
    assert(option_views(docs@) == line_documents(content@));
    extract_tail_record(&docs)
}

} // verus!
