//! Which of the entries found under the root are descriptors.
//!
//! A candidate is a file with one of the two descriptor extensions. A composite
//! candidate is always a descriptor. A plain candidate is none where its name
//! ends with the reserved suffix, or where it lies at or below a directory
//! that holds a composite candidate, or where its content cannot be read or is
//! no JSON document; otherwise it is one where its name ends with a model
//! suffix or its content has the required keys.

use vstd::prelude::*;
use vstd::string::*;
use crate::text::{chars_of, ends_with, has_suffix};
use crate::paths::{SegmentPath, starts_with, parent};
use crate::json::{Json, JsonView, json_document, parse_json, option_view};
use crate::parse::DescriptorKind;

verus! {

/// An entry that the traversal of the root found.
#[derive(Debug, Clone, PartialEq, Eq)]
pub struct TreeEntry {
    /// Where the entry lies.
    pub path: SegmentPath,
    /// Whether the entry is a directory.
    pub is_dir: bool,
    /// What the entry holds, where it could be read as text.
    pub content: Option<String>,
}

/// A `TreeEntry` as plain values.
pub struct TreeEntryView {
    pub path: Seq<Seq<char>>,
    pub is_dir: bool,
    pub content: Option<Seq<char>>,
}

impl View for TreeEntry {
    type V = TreeEntryView;

    open spec fn view(&self) -> TreeEntryView {
        TreeEntryView {
            path: self.path@,
            is_dir: self.is_dir,
            content: match self.content {
                Some(text) => Some(text@),
                None => None,
            },
        }
    }
}

/// The entries as plain values, in order.
pub open spec fn views(entries: Seq<TreeEntry>) -> Seq<TreeEntryView> {
    Seq::new(entries.len(), |i: int| entries[i]@)
}

/// How many top-level keys a plain descriptor must have to count as one.
#[derive(Debug, Clone, Copy, PartialEq, Eq, Structural)]
pub enum ValidationMode {
    /// `model` and `textures`.
    Loose,
    /// `model`, `textures`, `physics`, `motions` and `expressions`.
    Strict,
}

/// The position of the last dot of a name; -1 where it has none.
pub open spec fn last_dot(name: Seq<char>) -> int
    decreases name.len(),
{
    if name.len() == 0 {
        -1
    } else if name.last() == '.' {
        name.len() - 1
    } else {
        last_dot(name.drop_last())
    }
}

/// The extension of a file name: what follows its last dot, unless the name
/// has no dot or only the one it begins with.
pub open spec fn extension(name: Seq<char>) -> Option<Seq<char>> {
    if last_dot(name) <= 0 {
        None
    } else {
        Some(name.skip(last_dot(name) + 1))
    }
}

/// The extension is `json`.
pub open spec fn is_plain_extension(ext: Seq<char>) -> bool {
    &&& ext.len() == 4
    &&& ext[0] == 'j'
    &&& ext[1] == 's'
    &&& ext[2] == 'o'
    &&& ext[3] == 'n'
}

/// The extension spells `jsonl`, in upper or lower case letters.
pub open spec fn is_composite_extension(ext: Seq<char>) -> bool {
    &&& ext.len() == 5
    &&& (ext[0] == 'j' || ext[0] == 'J')
    &&& (ext[1] == 's' || ext[1] == 'S')
    &&& (ext[2] == 'o' || ext[2] == 'O')
    &&& (ext[3] == 'n' || ext[3] == 'N')
    &&& (ext[4] == 'l' || ext[4] == 'L')
}

/// The file name of a path: its last segment; the empty name for the empty path.
pub open spec fn file_name(path: Seq<Seq<char>>) -> Seq<char> {
    if path.len() == 0 {
        Seq::empty()
    } else {
        path.last()
    }
}

/// The encoding that the extension of a file name stands for.
pub open spec fn kind_of_name(name: Seq<char>) -> Option<DescriptorKind> {
    match extension(name) {
        Some(ext) => if is_composite_extension(ext) {
            Some(DescriptorKind::Composite)
        } else if is_plain_extension(ext) {
            Some(DescriptorKind::Plain)
        } else {
            None
        },
        None => None,
    }
}

/// The encoding that the extension of a path stands for.
pub open spec fn kind_of(path: Seq<Seq<char>>) -> Option<DescriptorKind> {
    kind_of_name(file_name(path))
}

/// The path has the composite extension.
pub open spec fn is_composite(path: Seq<Seq<char>>) -> bool {
    kind_of(path) == Some(DescriptorKind::Composite)
}

/// The name marks expression metadata, which is never a descriptor.
pub open spec fn is_reserved_name(name: Seq<char>) -> bool {
    ends_with(name, ".exp.json"@)
}

/// The name ends like the name of a model file.
pub open spec fn is_model_name(name: Seq<char>) -> bool {
    ends_with(name, "model.json"@) || ends_with(name, "model3.json"@)
}

/// The document has every top-level key that the mode asks for.
pub open spec fn has_required_keys(doc: JsonView, mode: ValidationMode) -> bool {
    &&& doc.has_key("model"@)
    &&& doc.has_key("textures"@)
    &&& mode == ValidationMode::Strict ==> {
        &&& doc.has_key("physics"@)
        &&& doc.has_key("motions"@)
        &&& doc.has_key("expressions"@)
    }
}

/// What was read is a document with the required keys.
pub open spec fn document_valid(doc: Option<JsonView>, mode: ValidationMode) -> bool {
    match doc {
        Some(doc) => has_required_keys(doc, mode),
        None => false,
    }
}

/// The content could be read, is a JSON document and has the required keys.
pub open spec fn content_valid(content: Option<Seq<char>>, mode: ValidationMode) -> bool {
    match content {
        Some(text) => document_valid(json_document(text), mode),
        None => false,
    }
}

/// The path lies at or below the directory of some composite entry of `all`.
pub open spec fn under_composite(all: Seq<TreeEntryView>, path: Seq<Seq<char>>) -> bool {
    exists|j: int|
        0 <= j < all.len() && is_composite(#[trigger] all[j].path) && starts_with(
            path,
            parent(all[j].path),
        )
}

/// The entry is a file with a descriptor extension.
pub open spec fn is_candidate(entry: TreeEntryView) -> bool {
    !entry.is_dir && kind_of(entry.path) is Some
}

/// The content could be read and is a JSON document, and the file has a model
/// name or the document has the required keys.
pub open spec fn content_accepted(
    name: Seq<char>,
    content: Option<Seq<char>>,
    mode: ValidationMode,
) -> bool {
    match content {
        Some(text) => match json_document(text) {
            Some(doc) => is_model_name(name) || has_required_keys(doc, mode),
            None => false,
        },
        None => false,
    }
}

/// The entry counts as a descriptor among the candidates `all`. A composite
/// entry always does. A plain entry does where its name is not reserved, it
/// does not lie under a composite entry, its content can be read and is a JSON
/// document, and it has a model name or the required keys.
pub open spec fn is_descriptor(
    all: Seq<TreeEntryView>,
    entry: TreeEntryView,
    mode: ValidationMode,
) -> bool {
    if is_composite(entry.path) {
        true
    } else {
        &&& !is_reserved_name(file_name(entry.path))
        &&& !under_composite(all, entry.path)
        &&& content_accepted(file_name(entry.path), entry.content, mode)
    }
}

/// What the classifier makes of one candidate.
#[derive(Debug, Clone, Copy, PartialEq, Eq, Structural)]
pub enum Verdict {
    /// It is a descriptor.
    Descriptor,
    /// A plain file whose name ends with the reserved suffix.
    Reserved,
    /// A plain file at or below the directory of a composite candidate.
    UnderComposite,
    /// A plain file whose content could not be read.
    Unreadable,
    /// A plain file whose content is no JSON document.
    Malformed,
    /// A plain file that is a JSON document, but has neither a model name nor
    /// every required key.
    MissingKeys,
}

/// The verdict on an entry, given whether it lies under a composite entry.
/// The tests are made in this order: the composite extension, the reserved
/// suffix, the composite directories, the content, the name and the keys.
pub open spec fn verdict_given(
    under: bool,
    entry: TreeEntryView,
    mode: ValidationMode,
) -> Verdict {
    if is_composite(entry.path) {
        Verdict::Descriptor
    } else if is_reserved_name(file_name(entry.path)) {
        Verdict::Reserved
    } else if under {
        Verdict::UnderComposite
    } else {
        match entry.content {
            None => Verdict::Unreadable,
            Some(text) => match json_document(text) {
                None => Verdict::Malformed,
                Some(doc) => if is_model_name(file_name(entry.path)) || has_required_keys(
                    doc,
                    mode,
                ) {
                    Verdict::Descriptor
                } else {
                    Verdict::MissingKeys
                },
            },
        }
    }
}

/// The verdict on an entry among the candidates `all`.
pub open spec fn verdict(
    all: Seq<TreeEntryView>,
    entry: TreeEntryView,
    mode: ValidationMode,
) -> Verdict {
    verdict_given(under_composite(all, entry.path), entry, mode)
}

/// An entry is a descriptor exactly when the verdict on it says so.
pub proof fn lemma_verdict(all: Seq<TreeEntryView>, entry: TreeEntryView, mode: ValidationMode)
    ensures
        is_descriptor(all, entry, mode) <==> verdict(all, entry, mode) == Verdict::Descriptor,
{
}

/// `is_candidate` as a predicate.
pub open spec fn candidate_test() -> spec_fn(TreeEntryView) -> bool {
    |entry: TreeEntryView| is_candidate(entry)
}

/// `is_descriptor` among `all` as a predicate.
pub open spec fn descriptor_test(all: Seq<TreeEntryView>, mode: ValidationMode) -> spec_fn(
    TreeEntryView,
) -> bool {
    |entry: TreeEntryView| is_descriptor(all, entry, mode)
}

/// The candidates among the entries, in the order of the entries.
pub open spec fn candidates(entries: Seq<TreeEntryView>) -> Seq<TreeEntryView> {
    entries.filter(candidate_test())
}

/// The descriptors among the candidates, in the order of the candidates.
pub open spec fn descriptors(all: Seq<TreeEntryView>, mode: ValidationMode) -> Seq<TreeEntryView> {
    all.filter(descriptor_test(all, mode))
}

/// `last_dot` is the position of a dot behind which no dot follows.
pub proof fn lemma_last_dot(name: Seq<char>)
    ensures
        -1 <= last_dot(name) < name.len(),
        last_dot(name) >= 0 ==> name[last_dot(name)] == '.',
        forall|j: int| last_dot(name) < j < name.len() ==> name[j] != '.',
    decreases name.len(),
{
    if name.len() > 0 && name.last() != '.' {
        let rest = name.drop_last();
        lemma_last_dot(rest);
        assert forall|j: int| last_dot(name) < j < name.len() implies name[j] != '.' by {
            if j < rest.len() {
                assert(rest[j] == name[j]);
            }
        }
    }
}

/// A position with the properties of `lemma_last_dot` is the one `last_dot` gives.
pub proof fn lemma_last_dot_unique(name: Seq<char>, at: int)
    requires
        -1 <= at < name.len(),
        at >= 0 ==> name[at] == '.',
        forall|j: int| at < j < name.len() ==> name[j] != '.',
    ensures
        last_dot(name) == at,
    decreases name.len(),
{
    if name.len() > 0 && name.last() != '.' {
        lemma_last_dot_unique(name.drop_last(), at);
    }
}

/// The encoding that the extension of a file name stands for.
pub fn kind_of_file_name(name: &str) -> (r: Option<DescriptorKind>)
    ensures
        r == kind_of_name(name@),
{
    let cs = chars_of(name);
    let n = cs.len();
    let mut dot: usize = n;
    while dot > 0 && cs[dot - 1] != '.'
        invariant
            dot <= n,
            n == cs.len(),
            forall|j: int| dot <= j < n ==> cs@[j] != '.',
        decreases dot,
    {
        dot -= 1;
    }
    proof {
        lemma_last_dot_unique(cs@, dot - 1);
    }
    if dot <= 1 {
        return None;
    }
    let len = n - dot;
    if len == 5 {
        if (cs[dot] == 'j' || cs[dot] == 'J') && (cs[dot + 1] == 's' || cs[dot + 1] == 'S') && (cs[dot
            + 2] == 'o' || cs[dot + 2] == 'O') && (cs[dot + 3] == 'n' || cs[dot + 3] == 'N') && (cs[dot
            + 4] == 'l' || cs[dot + 4] == 'L') {
            Some(DescriptorKind::Composite)
        } else {
            None
        }
    } else if len == 4 {
        if cs[dot] == 'j' && cs[dot + 1] == 's' && cs[dot + 2] == 'o' && cs[dot + 3] == 'n' {
            Some(DescriptorKind::Plain)
        } else {
            None
        }
    } else {
        None
    }
}

/// The encoding that the extension of a path stands for.
pub fn descriptor_kind(path: &SegmentPath) -> (r: Option<DescriptorKind>)
    ensures
        r == kind_of(path@),
{
    let n = path.segments.len();
    if n == 0 {
        let r = kind_of_file_name("");
        proof {
            reveal_strlit("");
        }
        r
    } else {
        kind_of_file_name(path.segments[n - 1].as_str())
    }
}

/// Whether the document has every top-level key that the mode asks for.
pub fn check_required_keys(doc: &Json, mode: ValidationMode) -> (r: bool)
    ensures
        r == has_required_keys(doc@, mode),
{
    if !(doc.contains_key("model") && doc.contains_key("textures")) {
        return false;
    }
    match mode {
        ValidationMode::Loose => true,
        ValidationMode::Strict => doc.contains_key("physics") && doc.contains_key("motions")
            && doc.contains_key("expressions"),
    }
}

/// Whether what was read is a document with the required keys.
pub fn check_document(doc: &Option<Json>, mode: ValidationMode) -> (r: bool)
    ensures
        r == document_valid(option_view(*doc), mode),
{
    match doc {
        Some(doc) => check_required_keys(doc, mode),
        None => false,
    }
}

/// Whether the content of a plain candidate is a JSON document with the
/// required keys.
pub fn validate_model_file(content: &str, mode: ValidationMode) -> (r: bool)
    ensures
        r == content_valid(Some(content@), mode),
{
    let doc = parse_json(content);
    check_document(&doc, mode)
}

/// Some path of `found` is `path`.
spec fn holds_path(found: Seq<SegmentPath>, path: Seq<Seq<char>>) -> bool {
    exists|k: int| 0 <= k < found.len() && #[trigger] found[k]@ == path
}

/// Some composite entry of `all` lies at `path`.
spec fn composite_at(all: Seq<TreeEntryView>, path: Seq<Seq<char>>) -> bool {
    exists|j: int| 0 <= j < all.len() && is_composite(#[trigger] all[j].path) && all[j].path == path
}

/// `found` holds the paths of the composite entries of `all` and no others.
spec fn lists_composites(found: Seq<SegmentPath>, all: Seq<TreeEntryView>) -> bool {
    forall|path: Seq<Seq<char>>| #[trigger] holds_path(found, path) <==> composite_at(all, path)
}

/// `path` lies at or below the directory of some path of `found`.
spec fn covered(found: Seq<SegmentPath>, path: Seq<Seq<char>>) -> bool {
    exists|k: int| 0 <= k < found.len() && starts_with(path, parent(#[trigger] found[k]@))
}

/// Where `found` holds the paths of the composite entries of `all`, a path is
/// covered by `found` exactly when it lies under a composite entry of `all`.
proof fn lemma_covered(found: Seq<SegmentPath>, all: Seq<TreeEntryView>, path: Seq<Seq<char>>)
    requires
        lists_composites(found, all),
    ensures
        covered(found, path) == under_composite(all, path),
{
    if covered(found, path) {
        let k = choose|k: int| 0 <= k < found.len() && starts_with(path, parent(#[trigger] found[k]@));
        assert(holds_path(found, found[k]@));
    }
    if under_composite(all, path) {
        let j = choose|j: int|
            0 <= j < all.len() && is_composite(#[trigger] all[j].path) && starts_with(
                path,
                parent(all[j].path),
            );
        assert(holds_path(found, all[j].path));
    }
}

fn last_segment(path: &SegmentPath) -> (name: &str)
    ensures
        name@ == file_name(path@),
{
    let n = path.segments.len();
    if n == 0 {
        proof {
            reveal_strlit("");
        }
        ""
    } else {
        path.segments[n - 1].as_str()
    }
}

fn composite_paths(files: &Vec<TreeEntry>) -> (found: Vec<SegmentPath>)
    ensures
        lists_composites(found@, views(files@)),
{
    let ghost all = views(files@);
    let mut found: Vec<SegmentPath> = Vec::new();
    let mut k: usize = 0;
    while k < files.len()
        invariant
            k <= files.len(),
            all == views(files@),
            lists_composites(found@, all.take(k as int)),
        decreases files.len() - k,
    {
        let ghost before = found@;
        let ghost next = all.take(k + 1);
        let kind = descriptor_kind(&files[k].path);
        let composite = match kind {
            Some(DescriptorKind::Composite) => true,
            _ => false,
        };
        if composite {
            found.push(files[k].path.duplicate());
        }
        proof {
            assert forall|path: Seq<Seq<char>>| #[trigger]
                holds_path(found@, path) <==> composite_at(next, path) by {
                if holds_path(found@, path) {
                    let i = choose|i: int| 0 <= i < found@.len() && #[trigger] found@[i]@ == path;
                    if i < before.len() {
                        assert(holds_path(before, path));
                    } else {
                        assert(next[k as int].path == path);
                    }
                }
                if composite_at(next, path) {
                    let j = choose|j: int|
                        0 <= j < next.len() && is_composite(#[trigger] next[j].path)
                            && next[j].path == path;
                    if j < k {
                        assert(holds_path(before, path));
                        let i = choose|i: int| 0 <= i < before.len() && #[trigger] before[i]@ == path;
                        assert(found@[i]@ == path);
                    } else {
                        assert(found@[found@.len() - 1]@ == path);
                    }
                }
            }
        }
        k += 1;
    }
    assert(all.take(files.len() as int) == all);
    found
}

fn lies_under(path: &SegmentPath, found: &Vec<SegmentPath>) -> (r: bool)
    ensures
        r == covered(found@, path@),
{
    let mut k: usize = 0;
    while k < found.len()
        invariant
            k <= found.len(),
            forall|i: int| 0 <= i < k ==> !starts_with(path@, parent(#[trigger] found@[i]@)),
        decreases found.len() - k,
    {
        let n = found[k].len();
        let count: usize = if n == 0 {
            0
        } else {
            n - 1
        };
        assert(found@[k as int]@.take(count as int) == parent(found@[k as int]@));
        if path.starts_with_first(&found[k], count) {
            return true;
        }
        k += 1;
    }
    false
}

fn judge(entry: &TreeEntry, composites: &Vec<SegmentPath>, mode: ValidationMode) -> (r: Verdict)
    ensures
        r == verdict_given(covered(composites@, entry@.path), entry@, mode),
{
    if let Some(DescriptorKind::Composite) = descriptor_kind(&entry.path) {
        return Verdict::Descriptor;
    }
    let name = last_segment(&entry.path);
    if has_suffix(name, ".exp.json") {
        return Verdict::Reserved;
    }
    if lies_under(&entry.path, composites) {
        return Verdict::UnderComposite;
    }
    match &entry.content {
        None => Verdict::Unreadable,
        Some(text) => match parse_json(text.as_str()) {
            None => Verdict::Malformed,
            Some(doc) => {
                if has_suffix(name, "model.json") || has_suffix(name, "model3.json")
                    || check_required_keys(&doc, mode) {
                    Verdict::Descriptor
                } else {
                    Verdict::MissingKeys
                }
            },
        },
    }
}

/// The verdict on each of the candidates, in their order.
pub fn classify_model_files(files: &Vec<TreeEntry>, mode: ValidationMode) -> (r: Vec<Verdict>)
    ensures
        r@.len() == files@.len(),
        forall|i: int|
            0 <= i < r@.len() ==> r@[i] == verdict(views(files@), #[trigger] views(files@)[i], mode),
{
    let composites = composite_paths(files);
    let ghost all = views(files@);
    let mut r: Vec<Verdict> = Vec::new();
    let mut k: usize = 0;
    while k < files.len()
        invariant
            k <= files.len(),
            r@.len() == k,
            all == views(files@),
            lists_composites(composites@, all),
            forall|i: int| 0 <= i < k ==> r@[i] == verdict(all, #[trigger] all[i], mode),
        decreases files.len() - k,
    {
        proof {
            lemma_covered(composites@, all, all[k as int].path);
        }
        r.push(judge(&files[k], &composites, mode));
        k += 1;
    }
    r
}

/// The candidates among the entries that a traversal found: the files with a
/// descriptor extension, in the order in which they were found.
pub fn find_model_files(entries: Vec<TreeEntry>) -> (found: Vec<TreeEntry>)
    ensures
        views(found@) == candidates(views(entries@)),
{
    let ghost given = entries@;
    let ghost all = views(entries@);
    let mut found: Vec<TreeEntry> = Vec::new();
    for entry in it: entries
        invariant
            it.seq() == given,
            all == views(given),
            views(found@) == all.take(it.index() as int).filter(candidate_test()),
    {
        proof {
            reveal(Seq::filter);
            assert(all.take(it.index() + 1).drop_last() == all.take(it.index() as int));
        }
        let keep = !entry.is_dir && descriptor_kind(&entry.path).is_some();
        if keep {
            found.push(entry);
        }
    }
    assert(all.take(all.len() as int) == all);
    found
}

/// The descriptors among the candidates, in the order of the candidates.
pub fn filter_model_files(files: Vec<TreeEntry>, mode: ValidationMode) -> (kept: Vec<TreeEntry>)
    ensures
        views(kept@) == descriptors(views(files@), mode),
{
    let composites = composite_paths(&files);
    let ghost given = files@;
    let ghost all = views(files@);
    let mut kept: Vec<TreeEntry> = Vec::new();
    for entry in it: files
        invariant
            it.seq() == given,
            all == views(given),
            lists_composites(composites@, all),
            views(kept@) == all.take(it.index() as int).filter(descriptor_test(all, mode)),
    {
        proof {
            reveal(Seq::filter);
            assert(all.take(it.index() + 1).drop_last() == all.take(it.index() as int));
            lemma_covered(composites@, all, entry@.path);
        }
        if let Verdict::Descriptor = judge(&entry, &composites, mode) {
            kept.push(entry);
        }
    }
    assert(all.take(all.len() as int) == all);
    kept
}

} // verus!
