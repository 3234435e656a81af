//! The catalog: characters, each with its costumes, folded from the descriptors
//! in the order in which they were found.
//!
//! A descriptor whose content gives capabilities and whose path gives an
//! identity contributes one costume to one character. The first costume of a
//! character creates the character and fixes its path; every costume is added
//! behind the costumes that the character has.

use vstd::prelude::*;
use vstd::string::*;
use crate::text::{
    texts,
    slashed,
    join_slash,
    join_range,
    to_slashes,
    same_text,
    lemma_join_slash_head,
};
use crate::paths::{SegmentPath, starts_with, valid_path};
use crate::identity::{
    costume_name,
    character_name,
    character_path,
    get_names_from_path,
    get_character_path,
};
use crate::parse::{
    DescriptorKind,
    ParseError,
    content_outcome,
    outcome_texts,
    parse_json_model,
    parse_jsonl_model,
};
use crate::classify::{
    TreeEntry,
    TreeEntryView,
    ValidationMode,
    Verdict,
    verdict,
    classify_model_files,
    views,
    is_composite,
    candidates,
    descriptors,
    descriptor_kind,
    find_model_files,
    filter_model_files,
};

verus! {

/// One costume: a descriptor, with what it can do.
#[derive(Debug, Clone, PartialEq, Eq)]
pub struct Costume {
    /// The directory that holds the descriptor.
    pub name: String,
    /// The descriptor's path below the root, with forward slashes.
    pub path: String,
    /// The names of its animations.
    pub motions: Vec<String>,
    /// The names of its expressions.
    pub expressions: Vec<String>,
}

/// A `Costume` as plain values.
pub struct CostumeView {
    pub name: Seq<char>,
    pub path: Seq<char>,
    pub motions: Seq<Seq<char>>,
    pub expressions: Seq<Seq<char>>,
}

impl View for Costume {
    type V = CostumeView;

    open spec fn view(&self) -> CostumeView {
        CostumeView {
            name: self.name@,
            path: self.path@,
            motions: texts(self.motions@),
            expressions: texts(self.expressions@),
        }
    }
}

/// One character: a named group of costumes.
#[derive(Debug, Clone, PartialEq, Eq)]
pub struct Character {
    pub name: String,
    /// The display path, as the first costume of the character gave it.
    pub path: String,
    /// The costumes, in the order in which they were found.
    pub costumes: Vec<Costume>,
    /// Whether the first costume of the character came from a composite descriptor.
    pub is_composite: bool,
}

/// A `Character` as plain values.
pub struct CharacterView {
    pub name: Seq<char>,
    pub path: Seq<char>,
    pub costumes: Seq<CostumeView>,
    pub is_composite: bool,
}

/// The costumes as plain values, in order.
pub open spec fn costume_views(costumes: Seq<Costume>) -> Seq<CostumeView> {
    Seq::new(costumes.len(), |i: int| costumes[i]@)
}

impl View for Character {
    type V = CharacterView;

    open spec fn view(&self) -> CharacterView {
        CharacterView {
            name: self.name@,
            path: self.path@,
            costumes: costume_views(self.costumes@),
            is_composite: self.is_composite,
        }
    }
}

/// The characters as plain values, in order.
pub open spec fn character_views(characters: Seq<Character>) -> Seq<CharacterView> {
    Seq::new(characters.len(), |i: int| characters[i]@)
}

/// The characters that a scan found, in the order in which each was first seen.
#[derive(Debug, Clone, PartialEq, Eq)]
pub struct Catalog {
    pub characters: Vec<Character>,
}

impl View for Catalog {
    type V = Seq<CharacterView>;

    open spec fn view(&self) -> Seq<CharacterView> {
        character_views(self.characters@)
    }
}

/// Why a scan gives no catalog.
#[derive(Debug, Clone, PartialEq, Eq)]
pub enum ScanError {
    /// The root is no directory.
    RootNotFound,
    /// The traversal failed; the path at which it failed.
    Traversal(String),
    /// A descriptor does not lie below the root; its path.
    OutsideRoot(SegmentPath),
}

/// A `ScanError` as plain values.
pub enum ScanErrorView {
    RootNotFound,
    Traversal(Seq<char>),
    OutsideRoot(Seq<Seq<char>>),
}

impl View for ScanError {
    type V = ScanErrorView;

    open spec fn view(&self) -> ScanErrorView {
        match self {
            ScanError::RootNotFound => ScanErrorView::RootNotFound,
            ScanError::Traversal(path) => ScanErrorView::Traversal(path@),
            ScanError::OutsideRoot(path) => ScanErrorView::OutsideRoot(path@),
        }
    }
}

/// What one descriptor adds to the catalog.
pub struct Contribution {
    /// The name of the character it belongs to.
    pub character: Seq<char>,
    /// The display path that the character gets if this is its first costume.
    pub character_path: Seq<char>,
    /// Whether the descriptor is a composite one.
    pub is_composite: bool,
    pub costume: CostumeView,
}

/// The first position of a character with the given name; the length of the
/// catalog where there is none.
pub open spec fn position(catalog: Seq<CharacterView>, name: Seq<char>) -> int
    decreases catalog.len(),
{
    if catalog.len() == 0 {
        0
    } else if position(catalog.drop_last(), name) < catalog.len() - 1 {
        position(catalog.drop_last(), name)
    } else if catalog.last().name == name {
        catalog.len() - 1
    } else {
        catalog.len() as int
    }
}

/// The catalog has a character with the given name.
pub open spec fn has_character(catalog: Seq<CharacterView>, name: Seq<char>) -> bool {
    position(catalog, name) < catalog.len()
}

/// The costumes of the character with the given name; none where the catalog
/// has no such character.
pub open spec fn costumes_of(catalog: Seq<CharacterView>, name: Seq<char>) -> Seq<CostumeView> {
    if has_character(catalog, name) {
        catalog[position(catalog, name)].costumes
    } else {
        Seq::empty()
    }
}

/// The number of costumes in the catalog, all characters together.
pub open spec fn costume_total(catalog: Seq<CharacterView>) -> nat
    decreases catalog.len(),
{
    if catalog.len() == 0 {
        0
    } else {
        costume_total(catalog.drop_last()) + catalog.last().costumes.len()
    }
}

/// No two characters have the same name, and every character has a costume.
pub open spec fn well_formed(catalog: Seq<CharacterView>) -> bool {
    &&& forall|i: int, j: int|
        0 <= i < j < catalog.len() ==> #[trigger] catalog[i].name != #[trigger] catalog[j].name
    &&& forall|i: int| 0 <= i < catalog.len() ==> (#[trigger] catalog[i]).costumes.len() > 0
}

/// The catalog with one more costume: added to the character it belongs to,
/// or to a new character at the end where the catalog has none of that name.
pub open spec fn absorb(catalog: Seq<CharacterView>, entry: Contribution) -> Seq<CharacterView> {
    let at = position(catalog, entry.character);
    if at < catalog.len() {
        catalog.update(
            at,
            CharacterView {
                name: catalog[at].name,
                path: catalog[at].path,
                costumes: catalog[at].costumes.push(entry.costume),
                is_composite: catalog[at].is_composite,
            },
        )
    } else {
        catalog.push(
            CharacterView {
                name: entry.character,
                path: entry.character_path,
                costumes: seq![entry.costume],
                is_composite: entry.is_composite,
            },
        )
    }
}

/// The encoding of a descriptor: composite by its extension, plain otherwise.
pub open spec fn encoding(path: Seq<Seq<char>>) -> DescriptorKind {
    if is_composite(path) {
        DescriptorKind::Composite
    } else {
        DescriptorKind::Plain
    }
}

/// The capabilities that a descriptor gives, or why it gives none.
pub open spec fn entry_outcome(entry: TreeEntryView) -> Result<
    (Seq<Seq<char>>, Seq<Seq<char>>),
    ParseError,
> {
    match entry.content {
        Some(content) => content_outcome(content, encoding(entry.path)),
        None => Err(ParseError::Unreadable),
    }
}

/// The path of a descriptor below the root, joined by `/`, every backslash
/// turned into `/`.
pub open spec fn relative_path(root: Seq<Seq<char>>, path: Seq<Seq<char>>) -> Seq<char> {
    slashed(join_slash(path.skip(root.len() as int)))
}

/// What a descriptor adds to the catalog: nothing where its content gives no
/// capabilities or its path gives no identity.
pub open spec fn contribution(root: Seq<Seq<char>>, entry: TreeEntryView) -> Option<Contribution> {
    match entry_outcome(entry) {
        Ok(found) => if entry.path.len() < 2 {
            None
        } else {
            Some(
                Contribution {
                    character: character_name(entry.path),
                    character_path: character_path(entry.path),
                    is_composite: is_composite(entry.path),
                    costume: CostumeView {
                        name: costume_name(entry.path),
                        path: relative_path(root, entry.path),
                        motions: found.0,
                        expressions: found.1,
                    },
                },
            )
        },
        Err(_) => None,
    }
}

/// The catalog that the descriptors give, taken in order.
pub open spec fn catalog_of(root: Seq<Seq<char>>, files: Seq<TreeEntryView>) -> Seq<CharacterView>
    decreases files.len(),
{
    if files.len() == 0 {
        Seq::empty()
    } else {
        match contribution(root, files.last()) {
            Some(entry) => absorb(catalog_of(root, files.drop_last()), entry),
            None => catalog_of(root, files.drop_last()),
        }
    }
}

/// The position of the first descriptor that does not lie below the root.
pub open spec fn first_outside(root: Seq<Seq<char>>, files: Seq<TreeEntryView>) -> Option<int>
    decreases files.len(),
{
    if files.len() == 0 {
        None
    } else {
        match first_outside(root, files.drop_last()) {
            Some(at) => Some(at),
            None => if starts_with(files.last().path, root) {
                None
            } else {
                Some(files.len() - 1)
            },
        }
    }
}

/// What building a catalog from the descriptors gives.
pub open spec fn build_outcome(root: Seq<Seq<char>>, files: Seq<TreeEntryView>) -> Result<
    Seq<CharacterView>,
    ScanErrorView,
> {
    match first_outside(root, files) {
        Some(at) => Err(ScanErrorView::OutsideRoot(files[at].path)),
        None => Ok(catalog_of(root, files)),
    }
}

/// What a traversal handed over, as plain values.
pub open spec fn listing_view(listing: Result<Vec<TreeEntry>, String>) -> Result<
    Seq<TreeEntryView>,
    Seq<char>,
> {
    match listing {
        Ok(entries) => Ok(views(entries@)),
        Err(path) => Err(path@),
    }
}

/// What a scan gives: no catalog where the root is no directory or the
/// traversal failed; otherwise the catalog built from the descriptors among
/// the candidates among the entries.
pub open spec fn scan_outcome(
    root: Seq<Seq<char>>,
    root_is_dir: bool,
    listing: Result<Seq<TreeEntryView>, Seq<char>>,
    mode: ValidationMode,
) -> Result<Seq<CharacterView>, ScanErrorView> {
    if !root_is_dir {
        Err(ScanErrorView::RootNotFound)
    } else {
        match listing {
            Err(path) => Err(ScanErrorView::Traversal(path)),
            Ok(entries) => build_outcome(root, descriptors(candidates(entries), mode)),
        }
    }
}

/// A result of a scan as plain values.
pub open spec fn result_view(r: Result<Catalog, ScanError>) -> Result<
    Seq<CharacterView>,
    ScanErrorView,
> {
    match r {
        Ok(catalog) => Ok(catalog@),
        Err(e) => Err(e@),
    }
}

/// `position` is the first position of a character with the name.
pub proof fn lemma_position(catalog: Seq<CharacterView>, name: Seq<char>)
    ensures
        0 <= position(catalog, name) <= catalog.len(),
        position(catalog, name) < catalog.len() ==> catalog[position(catalog, name)].name == name,
        forall|i: int| 0 <= i < position(catalog, name) ==> (#[trigger] catalog[i]).name != name,
    decreases catalog.len(),
{
    if catalog.len() > 0 {
        let rest = catalog.drop_last();
        lemma_position(rest, name);
        assert forall|i: int| 0 <= i < position(catalog, name) implies (#[trigger] catalog[i]).name
            != name by {
            if i < rest.len() {
                assert(rest[i] == catalog[i]);
            }
        }
    }
}

/// A position before which no character has the name, and which is the end of
/// the catalog or holds a character with the name, is the one `position` gives.
pub proof fn lemma_position_unique(catalog: Seq<CharacterView>, name: Seq<char>, at: int)
    requires
        0 <= at <= catalog.len(),
        at < catalog.len() ==> catalog[at].name == name,
        forall|i: int| 0 <= i < at ==> (#[trigger] catalog[i]).name != name,
    ensures
        position(catalog, name) == at,
{
    lemma_position(catalog, name);
}

/// Adding a costume keeps a catalog well formed.
pub proof fn lemma_absorb_well_formed(catalog: Seq<CharacterView>, entry: Contribution)
    requires
        well_formed(catalog),
    ensures
        well_formed(absorb(catalog, entry)),
{
    lemma_position(catalog, entry.character);
}

/// The catalog of any descriptors is well formed: no two characters share a
/// name, and every character has a costume.
pub proof fn lemma_catalog_well_formed(root: Seq<Seq<char>>, files: Seq<TreeEntryView>)
    ensures
        well_formed(catalog_of(root, files)),
    decreases files.len(),
{
    if files.len() > 0 {
        lemma_catalog_well_formed(root, files.drop_last());
        match contribution(root, files.last()) {
            Some(entry) => {
                lemma_absorb_well_formed(catalog_of(root, files.drop_last()), entry);
            },
            None => {},
        }
    }
}

/// Once a descriptor outside the root has been met, it stays the first one
/// however many descriptors follow.
pub proof fn lemma_first_outside_extends(root: Seq<Seq<char>>, files: Seq<TreeEntryView>, upto: int)
    requires
        0 <= upto <= files.len(),
        first_outside(root, files.take(upto)) is Some,
    ensures
        first_outside(root, files) == first_outside(root, files.take(upto)),
    decreases files.len() - upto,
{
    if upto < files.len() {
        assert(files.take(upto + 1).drop_last() == files.take(upto));
        lemma_first_outside_extends(root, files, upto + 1);
    } else {
        assert(files.take(upto) == files);
    }
}

/// The views of a sequence of costumes with one more costume.
pub proof fn lemma_costume_views_push(costumes: Seq<Costume>, last: Costume)
    ensures
        costume_views(costumes.push(last)) == costume_views(costumes).push(last@),
{
}

impl Catalog {
    /// The catalog without characters.
    pub fn new() -> (r: Catalog)
        ensures
            r@ == Seq::<CharacterView>::empty(),
    {
        let r = Catalog { characters: Vec::new() };
        r
    }

    /// The number of characters.
    pub fn len(&self) -> (n: usize)
        ensures
            n == self@.len(),
    {
        self.characters.len()
    }

    /// The first position of a character with the given name; the number of
    /// characters where there is none.
    pub fn find(&self, name: &str) -> (at: usize)
        ensures
            at == position(self@, name@),
    {
        let mut at: usize = 0;
        while at < self.characters.len()
            invariant
                at <= self.characters.len(),
                forall|i: int| 0 <= i < at ==> (#[trigger] self@[i]).name != name@,
            decreases self.characters.len() - at,
        {
            if same_text(self.characters[at].name.as_str(), name) {
                proof {
                    lemma_position_unique(self@, name@, at as int);
                }
                return at;
            }
            at += 1;
        }
        proof {
            lemma_position_unique(self@, name@, at as int);
        }
        at
    }

    /// The character with the given name.
    pub fn get(&self, name: &str) -> (r: Option<&Character>)
        ensures
            r is Some <==> has_character(self@, name@),
            r matches Some(found) ==> found@ == self@[position(self@, name@)],
    {
        let at = self.find(name);
        if at < self.characters.len() {
            Some(&self.characters[at])
        } else {
            None
        }
    }

    /// Adds a costume to the character of the given name. Where the catalog has
    /// no such character, one is added at the end, with the given path and flag;
    /// where it has one, that character keeps its own.
    pub fn add_costume(
        &mut self,
        character: String,
        character_path: String,
        is_composite: bool,
        costume: Costume,
    )
        ensures
            final(self)@ == absorb(
                old(self)@,
                Contribution {
                    character: character@,
                    character_path: character_path@,
                    is_composite,
                    costume: costume@,
                },
            ),
    {
        let at = self.find(character.as_str());
        if at < self.characters.len() {
            let ghost had = self.characters@[at as int].costumes@;
            self.characters[at].costumes.push(costume);
            proof {
                lemma_costume_views_push(had, costume);
            }
        } else {
            let mut costumes: Vec<Costume> = Vec::new();
            costumes.push(costume);
            let added = Character { name: character, path: character_path, costumes, is_composite };
            proof {
                assert(added@.costumes =~= seq![costume@]);
            }
            self.characters.push(added);
        }
    }
}

/// The capabilities that a descriptor gives.
///
/// Fails with `Unreadable` where the entry has no content, with `Malformed`
/// where a plain descriptor is no JSON document, and with `NoValidRecord` where
/// no line of a composite descriptor is a record.
pub fn extract_capabilities(entry: &TreeEntry) -> (r: Result<(Vec<String>, Vec<String>), ParseError>)
    ensures
        outcome_texts(r) == entry_outcome(entry@),
{
    match &entry.content {
        Some(content) => match descriptor_kind(&entry.path) {
            Some(DescriptorKind::Composite) => parse_jsonl_model(content.as_str()),
            _ => parse_json_model(content.as_str()),
        },
        None => Err(ParseError::Unreadable),
    }
}

/// The path of a descriptor of proper segments below the root is its segments
/// behind the root, joined by `/`, and does not begin with `/`.
pub proof fn lemma_relative_path_proper(root: Seq<Seq<char>>, path: Seq<Seq<char>>)
    requires
        valid_path(path),
        starts_with(path, root),
    ensures
        relative_path(root, path).len() > 0 ==> relative_path(root, path)[0] != '/',
        path.len() > root.len() ==> relative_path(root, path).len() > 0,
{
    let rest = path.skip(root.len() as int);
    if rest.len() > 0 {
        lemma_join_slash_head(rest);
        let joined = join_slash(rest);
        assert(joined[0] == joined.take(rest[0].len() as int)[0]);
    }
}

/// The path of a descriptor below the root, with forward slashes.
pub fn relative_path_of(root: &SegmentPath, path: &SegmentPath) -> (r: String)
    requires
        starts_with(path@, root@),
    ensures
        r@ == relative_path(root@, path@),
        valid_path(path@) && r@.len() > 0 ==> r@[0] != '/',
{
    proof {
        if valid_path(path@) {
            lemma_relative_path_proper(root@, path@);
        }
    }
    let from = root.len();
    let to = path.len();
    let joined = join_range(&path.segments, from, to);
    to_slashes(joined.as_str())
}

/// The catalog of the given descriptors, which lie below `figure_dir`.
///
/// The descriptors are taken in order. One whose content gives no capabilities
/// or whose path has fewer than two segments is passed over. Fails with
/// `OutsideRoot` exactly when some descriptor does not lie below the root; the
/// error names the first such descriptor.
pub fn build_character_data(figure_dir: &SegmentPath, model_files: &Vec<TreeEntry>) -> (r: Result<
    Catalog,
    ScanError,
>)
    ensures
        result_view(r) == build_outcome(figure_dir@, views(model_files@)),
        r matches Ok(catalog) ==> well_formed(catalog@),
{
    let ghost files = views(model_files@);
    proof {
        lemma_catalog_well_formed(figure_dir@, files);
    }
    let mut catalog = Catalog::new();
    let mut k: usize = 0;
    while k < model_files.len()
        invariant
            k <= model_files.len(),
            files == views(model_files@),
            first_outside(figure_dir@, files.take(k as int)) is None,
            catalog@ == catalog_of(figure_dir@, files.take(k as int)),
        decreases model_files.len() - k,
    {
        let entry = &model_files[k];
        proof {
            assert(files.take(k + 1).drop_last() == files.take(k as int));
        }
        if !entry.path.starts_with(figure_dir) {
            proof {
                lemma_first_outside_extends(figure_dir@, files, k + 1);
            }
            return Err(ScanError::OutsideRoot(entry.path.duplicate()));
        }
        let relative = relative_path_of(figure_dir, &entry.path);
        match extract_capabilities(entry) {
            Ok(found) => match get_names_from_path(&entry.path) {
                Ok(names) => match get_character_path(&entry.path) {
                    Ok(shown) => {
                        let composite = match descriptor_kind(&entry.path) {
                            Some(DescriptorKind::Composite) => true,
                            _ => false,
                        };
                        let costume = Costume {
                            name: names.0,
                            path: relative,
                            motions: found.0,
                            expressions: found.1,
                        };
                        catalog.add_costume(names.1, shown, composite, costume);
                    },
                    Err(_) => {},
                },
                Err(_) => {},
            },
            Err(_) => {},
        }
        k += 1;
    }
    assert(files.take(model_files.len() as int) == files);
    Ok(catalog)
}

/// The root of a scan: the directory `game/figure` below the base directory.
pub fn figure_dir(base: &SegmentPath) -> (root: SegmentPath)
    ensures
        root@ == base@.push("game"@).push("figure"@),
{
    base.child("game").child("figure")
}

/// The catalog of what a traversal of the root found.
///
/// `root_is_dir` says whether the root is a directory; `listing` holds the
/// entries that the traversal found below it, or the path at which it failed.
/// Fails with `RootNotFound` where the root is no directory, with `Traversal`
/// where the traversal failed, and with `OutsideRoot` where a descriptor does
/// not lie below the root. Everything else that goes wrong with one entry only
/// leaves that entry out.
pub fn analyze_figure(
    root: &SegmentPath,
    root_is_dir: bool,
    listing: Result<Vec<TreeEntry>, String>,
    mode: ValidationMode,
) -> (r: Result<Catalog, ScanError>)
    ensures
        result_view(r) == scan_outcome(root@, root_is_dir, listing_view(listing), mode),
        !root_is_dir ==> result_view(r) == Err::<Seq<CharacterView>, ScanErrorView>(
            ScanErrorView::RootNotFound,
        ),
        r matches Ok(catalog) ==> well_formed(catalog@),
{
    if !root_is_dir {
        return Err(ScanError::RootNotFound);
    }
    match listing {
        Err(path) => Err(ScanError::Traversal(path)),
        Ok(entries) => {
            let found = find_model_files(entries);
            let valid = filter_model_files(found, mode);
            build_character_data(root, &valid)
        },
    }
}

/// Why a candidate leaves no costume, where that is worth a warning: the file
/// is at fault, not a rule that passes it over.
#[derive(Debug, Clone, Copy, PartialEq, Eq, Structural)]
pub enum SkipReason {
    /// The file could not be read.
    Unreadable,
    /// A plain file is no JSON document.
    Malformed,
    /// No line of a composite descriptor is a record.
    NoValidRecord,
    /// The path of a descriptor has fewer than two segments.
    InsufficientDepth,
}

/// Why the entry leaves no costume, if it leaves none and is worth a warning.
/// A plain file earns one where it could not be read or parsed; a descriptor
/// where its content gives no capabilities or its path no identity. Files
/// that a rule passes over (a reserved name, a composite directory above,
/// missing keys) earn none.
pub open spec fn skip_reason(
    all: Seq<TreeEntryView>,
    entry: TreeEntryView,
    mode: ValidationMode,
) -> Option<SkipReason> {
    match verdict(all, entry, mode) {
        Verdict::Unreadable => Some(SkipReason::Unreadable),
        Verdict::Malformed => Some(SkipReason::Malformed),
        Verdict::Descriptor => match entry_outcome(entry) {
            Err(ParseError::Unreadable) => Some(SkipReason::Unreadable),
            Err(ParseError::Malformed) => Some(SkipReason::Malformed),
            Err(ParseError::NoValidRecord) => Some(SkipReason::NoValidRecord),
            Ok(_) => if entry.path.len() < 2 {
                Some(SkipReason::InsufficientDepth)
            } else {
                None
            },
        },
        _ => None,
    }
}

/// The positions among the first `upto` candidates of those that are skipped
/// with a warning, each with its reason, in order.
pub open spec fn skipped_among(
    all: Seq<TreeEntryView>,
    mode: ValidationMode,
    upto: int,
) -> Seq<(int, SkipReason)>
    decreases upto,
{
    if upto <= 0 {
        Seq::empty()
    } else {
        match skip_reason(all, all[upto - 1], mode) {
            Some(reason) => skipped_among(all, mode, upto - 1).push((upto - 1, reason)),
            None => skipped_among(all, mode, upto - 1),
        }
    }
}

/// The positions of the candidates that are skipped with a warning, each with
/// its reason, in order.
pub open spec fn skipped(all: Seq<TreeEntryView>, mode: ValidationMode) -> Seq<(int, SkipReason)> {
    skipped_among(all, mode, all.len() as int)
}

/// Positions and reasons as plain values.
pub open spec fn skips_view(found: Seq<(usize, SkipReason)>) -> Seq<(int, SkipReason)> {
    Seq::new(found.len(), |i: int| (found[i].0 as int, found[i].1))
}

/// The candidates that a scan skips with a warning: the position of each
/// among the candidates, with the reason, in the order of the candidates.
pub fn skipped_files(files: &Vec<TreeEntry>, mode: ValidationMode) -> (found: Vec<
    (usize, SkipReason),
>)
    ensures
        skips_view(found@) == skipped(views(files@), mode),
{
    let verdicts = classify_model_files(files, mode);
    let ghost all = views(files@);
    let mut found: Vec<(usize, SkipReason)> = Vec::new();
    let mut k: usize = 0;
    while k < files.len()
        invariant
            k <= files.len(),
            all == views(files@),
            verdicts@.len() == files@.len(),
            forall|i: int|
                0 <= i < verdicts@.len() ==> verdicts@[i] == verdict(all, #[trigger] all[i], mode),
            skips_view(found@) == skipped_among(all, mode, k as int),
        decreases files.len() - k,
    {
        let reason = match verdicts[k] {
            Verdict::Unreadable => Some(SkipReason::Unreadable),
            Verdict::Malformed => Some(SkipReason::Malformed),
            Verdict::Descriptor => match extract_capabilities(&files[k]) {
                Err(ParseError::Unreadable) => Some(SkipReason::Unreadable),
                Err(ParseError::Malformed) => Some(SkipReason::Malformed),
                Err(ParseError::NoValidRecord) => Some(SkipReason::NoValidRecord),
                Ok(_) => if files[k].path.len() < 2 {
                    Some(SkipReason::InsufficientDepth)
                } else {
                    None
                },
            },
            _ => None,
        };
        match reason {
            Some(reason) => {
                found.push((k, reason));
            },
            None => {},
        }
        k += 1;
    }
    found
}

} // verus!
