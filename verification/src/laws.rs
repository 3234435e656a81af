//! What holds of every scan: statements about the specification functions that
//! the contracts of the library are written in.

use vstd::prelude::*;
use vstd::seq_lib::{
    lemma_multiset_commutative,
    to_multiset_build,
    to_multiset_remove,
    to_multiset_len,
    to_multiset_contains,
};
use crate::paths::{starts_with, parent};
use crate::identity::{root_marker, costume_name, character_name, character_path};
use crate::json::json_document;
use crate::parse::DescriptorKind;
use crate::classify::{
    TreeEntryView,
    ValidationMode,
    is_composite,
    is_candidate,
    is_descriptor,
    is_reserved_name,
    is_model_name,
    has_required_keys,
    file_name,
    kind_of,
    lemma_last_dot_unique,
    under_composite,
    candidate_test,
    descriptor_test,
    candidates,
    descriptors,
};
use crate::catalog::{
    CharacterView,
    CostumeView,
    Contribution,
    position,
    has_character,
    costumes_of,
    absorb,
    contribution,
    relative_path,
    catalog_of,
    first_outside,
    build_outcome,
    scan_outcome,
    skip_reason,
    costume_total,
    lemma_catalog_well_formed,
    lemma_position,
    lemma_position_unique,
};

verus! {

/// Two sequences hold the same items, whatever their order and however often.
pub open spec fn same_items<A>(a: Seq<A>, b: Seq<A>) -> bool {
    forall|x: A| a.contains(x) <==> b.contains(x)
}

/// A costume is added to exactly one character. The character that the costume
/// belongs to is in the catalog afterwards, with the costume behind those it
/// had; no other character appears, and the costumes of every other character
/// stay as they were.
pub proof fn lemma_absorb(catalog: Seq<CharacterView>, entry: Contribution, name: Seq<char>)
    ensures
        has_character(absorb(catalog, entry), name) <==> has_character(catalog, name) || name
            == entry.character,
        costumes_of(absorb(catalog, entry), name) == if name == entry.character {
            costumes_of(catalog, name).push(entry.costume)
        } else {
            costumes_of(catalog, name)
        },
{
    let next = absorb(catalog, entry);
    let at = position(catalog, entry.character);
    let here = position(catalog, name);
    lemma_position(catalog, entry.character);
    lemma_position(catalog, name);
    if at < catalog.len() {
        lemma_position_unique(next, name, here);
    } else {
        if here < catalog.len() {
            lemma_position_unique(next, name, here);
        } else if name == entry.character {
            lemma_position_unique(next, name, catalog.len() as int);
        } else {
            lemma_position_unique(next, name, next.len() as int);
        }
    }
}

/// A character keeps its place, its path and its flag when a costume is added
/// to the catalog, whichever character the costume belongs to.
pub proof fn lemma_absorb_keeps_characters(
    catalog: Seq<CharacterView>,
    entry: Contribution,
    at: int,
)
    requires
        0 <= at < catalog.len(),
    ensures
        at < absorb(catalog, entry).len(),
        absorb(catalog, entry)[at].name == catalog[at].name,
        absorb(catalog, entry)[at].path == catalog[at].path,
        absorb(catalog, entry)[at].is_composite == catalog[at].is_composite,
{
    lemma_position(catalog, entry.character);
}

/// Some descriptor of `files` belongs to the character `name`.
pub open spec fn contributes_to(
    root: Seq<Seq<char>>,
    files: Seq<TreeEntryView>,
    name: Seq<char>,
) -> bool {
    exists|i: int|
        0 <= i < files.len() && (#[trigger] contribution(root, files[i])) is Some && contribution(
            root,
            files[i],
        )->0.character == name
}

/// Some descriptor of `files` gives the character `name` the costume `costume`.
pub open spec fn contributes_costume(
    root: Seq<Seq<char>>,
    files: Seq<TreeEntryView>,
    name: Seq<char>,
    costume: CostumeView,
) -> bool {
    exists|i: int|
        0 <= i < files.len() && (#[trigger] contribution(root, files[i])) is Some && contribution(
            root,
            files[i],
        )->0.character == name && contribution(root, files[i])->0.costume == costume
}

/// The catalog holds what the descriptors contribute and nothing else: it has
/// a character exactly when some descriptor belongs to it, and a character has
/// a costume exactly when some descriptor gives it that costume.
pub proof fn lemma_catalog_contents(
    root: Seq<Seq<char>>,
    files: Seq<TreeEntryView>,
    name: Seq<char>,
    costume: CostumeView,
)
    ensures
        has_character(catalog_of(root, files), name) <==> contributes_to(root, files, name),
        costumes_of(catalog_of(root, files), name).contains(costume) <==> contributes_costume(
            root,
            files,
            name,
            costume,
        ),
    decreases files.len(),
{
    if files.len() > 0 {
        let rest = files.drop_last();
        let before = catalog_of(root, rest);
        lemma_catalog_contents(root, rest, name, costume);
        assert forall|i: int| 0 <= i < rest.len() implies rest[i] == files[i] by {}
        match contribution(root, files.last()) {
            Some(entry) => {
                lemma_absorb(before, entry, name);
                if name == entry.character {
                    let had = costumes_of(before, name);
                    assert(had.push(entry.costume).last() == entry.costume);
                    if had.contains(costume) {
                        let i = choose|i: int| 0 <= i < had.len() && had[i] == costume;
                        assert(had.push(entry.costume)[i] == costume);
                    }
                }
            },
            None => {},
        }
    }
}

/// What a filter keeps: the items of the sequence that pass the test.
pub proof fn lemma_filter_contains<A>(s: Seq<A>, test: spec_fn(A) -> bool, x: A)
    ensures
        s.filter(test).contains(x) <==> s.contains(x) && test(x),
    decreases s.len(),
{
    reveal(Seq::filter);
    if s.len() > 0 {
        let rest = s.drop_last();
        lemma_filter_contains(rest, test, x);
    }
}

/// Whether a path lies under a composite entry depends on which entries there
/// are, not on their order.
pub proof fn lemma_under_composite_same(
    a: Seq<TreeEntryView>,
    b: Seq<TreeEntryView>,
    path: Seq<Seq<char>>,
)
    requires
        same_items(a, b),
    ensures
        under_composite(a, path) == under_composite(b, path),
{
    if under_composite(a, path) {
        let j = choose|j: int|
            0 <= j < a.len() && is_composite(#[trigger] a[j].path) && starts_with(
                path,
                parent(a[j].path),
            );
        assert(a.contains(a[j]));
    }
    if under_composite(b, path) {
        let j = choose|j: int|
            0 <= j < b.len() && is_composite(#[trigger] b[j].path) && starts_with(
                path,
                parent(b[j].path),
            );
        assert(b.contains(b[j]));
    }
}

/// The descriptors among two listings with the same entries are the same
/// entries.
pub proof fn lemma_descriptors_same(
    a: Seq<TreeEntryView>,
    b: Seq<TreeEntryView>,
    mode: ValidationMode,
)
    requires
        same_items(a, b),
    ensures
        same_items(candidates(a), candidates(b)),
        same_items(descriptors(candidates(a), mode), descriptors(candidates(b), mode)),
{
    let ca = candidates(a);
    let cb = candidates(b);
    assert forall|x: TreeEntryView| ca.contains(x) <==> cb.contains(x) by {
        lemma_filter_contains(a, candidate_test(), x);
        lemma_filter_contains(b, candidate_test(), x);
    }
    assert forall|x: TreeEntryView|
        descriptors(ca, mode).contains(x) <==> descriptors(cb, mode).contains(x) by {
        lemma_filter_contains(ca, descriptor_test(ca, mode), x);
        lemma_filter_contains(cb, descriptor_test(cb, mode), x);
        lemma_under_composite_same(ca, cb, x.path);
    }
}

/// Some descriptor of `files` does not lie below the root.
pub open spec fn some_outside(root: Seq<Seq<char>>, files: Seq<TreeEntryView>) -> bool {
    exists|i: int| 0 <= i < files.len() && !starts_with((#[trigger] files[i]).path, root)
}

/// Building fails exactly when some descriptor does not lie below the root,
/// and then it names the first such descriptor.
pub proof fn lemma_first_outside(root: Seq<Seq<char>>, files: Seq<TreeEntryView>)
    ensures
        first_outside(root, files) is Some <==> some_outside(root, files),
        first_outside(root, files) matches Some(at) ==> 0 <= at < files.len() && !starts_with(
            files[at].path,
            root,
        ) && forall|i: int| 0 <= i < at ==> starts_with((#[trigger] files[i]).path, root),
        build_outcome(root, files) is Err <==> some_outside(root, files),
    decreases files.len(),
{
    if files.len() > 0 {
        let rest = files.drop_last();
        lemma_first_outside(root, rest);
        assert forall|i: int| 0 <= i < rest.len() implies rest[i] == files[i] by {}
    }
}

/// Which characters and costumes a catalog has depends on which descriptors
/// there are, not on their order.
pub proof fn lemma_catalog_same(
    root: Seq<Seq<char>>,
    a: Seq<TreeEntryView>,
    b: Seq<TreeEntryView>,
    name: Seq<char>,
    costume: CostumeView,
)
    requires
        same_items(a, b),
    ensures
        some_outside(root, a) <==> some_outside(root, b),
        has_character(catalog_of(root, a), name) <==> has_character(catalog_of(root, b), name),
        costumes_of(catalog_of(root, a), name).contains(costume) <==> costumes_of(
            catalog_of(root, b),
            name,
        ).contains(costume),
{
    lemma_catalog_contents(root, a, name, costume);
    lemma_catalog_contents(root, b, name, costume);
    lemma_found_in_both(root, a, b, name, costume);
    lemma_found_in_both(root, b, a, name, costume);
}

proof fn lemma_found_in_both(
    root: Seq<Seq<char>>,
    a: Seq<TreeEntryView>,
    b: Seq<TreeEntryView>,
    name: Seq<char>,
    costume: CostumeView,
)
    requires
        same_items(a, b),
    ensures
        some_outside(root, a) ==> some_outside(root, b),
        contributes_to(root, a, name) ==> contributes_to(root, b, name),
        contributes_costume(root, a, name, costume) ==> contributes_costume(root, b, name, costume),
{
    if some_outside(root, a) {
        let i = choose|i: int| 0 <= i < a.len() && !starts_with((#[trigger] a[i]).path, root);
        assert(a.contains(a[i]));
    }
    if contributes_to(root, a, name) {
        let i = choose|i: int|
            0 <= i < a.len() && (#[trigger] contribution(root, a[i])) is Some && contribution(
                root,
                a[i],
            )->0.character == name;
        assert(a.contains(a[i]));
    }
    if contributes_costume(root, a, name, costume) {
        let i = choose|i: int|
            0 <= i < a.len() && (#[trigger] contribution(root, a[i])) is Some && contribution(
                root,
                a[i],
            )->0.character == name && contribution(root, a[i])->0.costume == costume;
        assert(a.contains(a[i]));
    }
}

/// Two scans of one tree agree, in whatever order each traversal found the
/// entries: both give a catalog or both fail, and where they give catalogs,
/// these have the same characters, and each character has the same costumes
/// in both, each costume with the same path, motions and expressions. (Two
/// scans of one listing agree in everything: the outcome is a function of
/// what is handed in.)
pub proof fn lemma_scan_order_independent(
    root: Seq<Seq<char>>,
    root_is_dir: bool,
    a: Seq<TreeEntryView>,
    b: Seq<TreeEntryView>,
    mode: ValidationMode,
    name: Seq<char>,
    costume: CostumeView,
)
    requires
        same_items(a, b),
    ensures
        scan_outcome(root, root_is_dir, Ok(a), mode) is Ok <==> scan_outcome(
            root,
            root_is_dir,
            Ok(b),
            mode,
        ) is Ok,
        match (scan_outcome(root, root_is_dir, Ok(a), mode), scan_outcome(root, root_is_dir, Ok(b), mode)) {
            (Ok(first), Ok(second)) => {
                &&& has_character(first, name) <==> has_character(second, name)
                &&& costumes_of(first, name).contains(costume) <==> costumes_of(
                    second,
                    name,
                ).contains(costume)
            },
            _ => true,
        },
{
    let da = descriptors(candidates(a), mode);
    let db = descriptors(candidates(b), mode);
    lemma_descriptors_same(a, b, mode);
    lemma_catalog_same(root, da, db, name, costume);
    lemma_first_outside(root, da);
    lemma_first_outside(root, db);
}

/// A plain entry that lies at or below the directory of a composite candidate
/// is no descriptor, whatever its name and content, and is not among the
/// descriptors.
pub proof fn lemma_exclusion_propagation(
    all: Seq<TreeEntryView>,
    composite: int,
    entry: TreeEntryView,
    mode: ValidationMode,
)
    requires
        0 <= composite < all.len(),
        is_composite(all[composite].path),
        !is_composite(entry.path),
        starts_with(entry.path, parent(all[composite].path)),
    ensures
        !is_descriptor(all, entry, mode),
        !descriptors(all, mode).contains(entry),
{
}

/// A composite candidate is always among the descriptors.
pub proof fn lemma_composite_kept(all: Seq<TreeEntryView>, at: int, mode: ValidationMode)
    requires
        0 <= at < all.len(),
        is_composite(all[at].path),
    ensures
        descriptors(all, mode).contains(all[at]),
{
}

/// A descriptor that lies in a costume directory directly below a root marker,
/// or in a costume directory with nothing above it, belongs to the character
/// named like its costume, and that name is the character's path too.
pub proof fn lemma_fallback_identity(path: Seq<Seq<char>>)
    requires
        path.len() >= 2,
        path.len() >= 3 ==> path[path.len() - 3] == root_marker(),
    ensures
        character_name(path) == costume_name(path),
        character_path(path) == costume_name(path),
{
}

/// An entry that contributes nothing leaves no trace: the catalog of a list
/// with the entry is the catalog of the list without it.
pub proof fn lemma_skipped_entry(
    root: Seq<Seq<char>>,
    before: Seq<TreeEntryView>,
    entry: TreeEntryView,
    after: Seq<TreeEntryView>,
)
    requires
        contribution(root, entry) is None,
    ensures
        catalog_of(root, before.push(entry) + after) == catalog_of(root, before + after),
    decreases after.len(),
{
    if after.len() == 0 {
        assert(before.push(entry).drop_last() == before);
    } else {
        let with = before.push(entry) + after;
        let without = before + after;
        assert(with.drop_last() == before.push(entry) + after.drop_last());
        assert(without.drop_last() == before + after.drop_last());
        lemma_skipped_entry(root, before, entry, after.drop_last());
    }
}

/// No path below the root holds a backslash.
pub proof fn lemma_relative_path_slashes(root: Seq<Seq<char>>, path: Seq<Seq<char>>, i: int)
    requires
        0 <= i < relative_path(root, path).len(),
    ensures
        relative_path(root, path)[i] != '\\',
{
}

/// A file whose name ends with `.exp.json` has the plain extension and is no
/// descriptor, whatever it holds; it is not among the descriptors.
pub proof fn lemma_reserved_suffix(
    all: Seq<TreeEntryView>,
    entry: TreeEntryView,
    mode: ValidationMode,
)
    requires
        is_reserved_name(file_name(entry.path)),
    ensures
        kind_of(entry.path) == Some(DescriptorKind::Plain),
        !is_descriptor(all, entry, mode),
        !descriptors(all, mode).contains(entry),
{
    reveal_strlit(".exp.json");
    let name = file_name(entry.path);
    let n = name.len() as int;
    let tail = name.subrange(n - 9, n);
    assert(tail[4] == '.' && tail[5] == 'j' && tail[6] == 's' && tail[7] == 'o' && tail[8] == 'n');
    lemma_last_dot_unique(name, n - 5);
}

/// Two tests that agree on every item of a sequence keep the same items.
pub proof fn lemma_filter_agree<A>(s: Seq<A>, first: spec_fn(A) -> bool, second: spec_fn(A) -> bool)
    requires
        forall|i: int| 0 <= i < s.len() ==> first(#[trigger] s[i]) == second(s[i]),
    ensures
        s.filter(first) == s.filter(second),
    decreases s.len(),
{
    reveal(Seq::filter);
    if s.len() > 0 {
        let rest = s.drop_last();
        lemma_filter_agree(rest, first, second);
    }
}

/// The path of the first descriptor that does not lie below the root.
pub open spec fn outside_path(root: Seq<Seq<char>>, files: Seq<TreeEntryView>) -> Option<
    Seq<Seq<char>>,
> {
    match first_outside(root, files) {
        Some(at) => Some(files[at].path),
        None => None,
    }
}

/// A descriptor below the root does not change which descriptor is the first
/// outside the root.
pub proof fn lemma_outside_path_without(
    root: Seq<Seq<char>>,
    before: Seq<TreeEntryView>,
    entry: TreeEntryView,
    after: Seq<TreeEntryView>,
)
    requires
        starts_with(entry.path, root),
    ensures
        outside_path(root, before.push(entry) + after) == outside_path(root, before + after),
    decreases after.len(),
{
    let with = before.push(entry) + after;
    let without = before + after;
    if after.len() == 0 {
        assert(with.drop_last() == before);
        lemma_first_outside(root, before);
    } else {
        assert(with.drop_last() == before.push(entry) + after.drop_last());
        assert(without.drop_last() == before + after.drop_last());
        lemma_outside_path_without(root, before, entry, after.drop_last());
        lemma_first_outside(root, with.drop_last());
        lemma_first_outside(root, without.drop_last());
    }
}

/// A descriptor below the root that contributes nothing does not change what
/// building gives.
pub proof fn lemma_build_without(
    root: Seq<Seq<char>>,
    before: Seq<TreeEntryView>,
    entry: TreeEntryView,
    after: Seq<TreeEntryView>,
)
    requires
        starts_with(entry.path, root),
        contribution(root, entry) is None,
    ensures
        build_outcome(root, before.push(entry) + after) == build_outcome(root, before + after),
{
    lemma_outside_path_without(root, before, entry, after);
    lemma_skipped_entry(root, before, entry, after);
}

/// A plain entry does not change which paths lie under a composite entry.
pub proof fn lemma_under_composite_without(
    before: Seq<TreeEntryView>,
    entry: TreeEntryView,
    after: Seq<TreeEntryView>,
    path: Seq<Seq<char>>,
)
    requires
        !is_composite(entry.path),
    ensures
        under_composite(before.push(entry) + after, path) == under_composite(before + after, path),
{
    let with = before.push(entry) + after;
    let without = before + after;
    if under_composite(with, path) {
        let j = choose|j: int|
            0 <= j < with.len() && is_composite(#[trigger] with[j].path) && starts_with(
                path,
                parent(with[j].path),
            );
        if j < before.len() {
            assert(without[j] == with[j]);
        } else {
            assert(without[j - 1] == with[j]);
        }
    }
    if under_composite(without, path) {
        let j = choose|j: int|
            0 <= j < without.len() && is_composite(#[trigger] without[j].path) && starts_with(
                path,
                parent(without[j].path),
            );
        if j < before.len() {
            assert(with[j] == without[j]);
        } else {
            assert(with[j + 1] == without[j]);
        }
    }
}

/// The descriptors among candidates with one more plain candidate: those
/// among the others, and the one more where it is a descriptor.
pub proof fn lemma_descriptors_without(
    before: Seq<TreeEntryView>,
    entry: TreeEntryView,
    after: Seq<TreeEntryView>,
    mode: ValidationMode,
)
    requires
        !is_composite(entry.path),
    ensures
        descriptors(before.push(entry) + after, mode) == if is_descriptor(
            before + after,
            entry,
            mode,
        ) {
            before.filter(descriptor_test(before + after, mode)).push(entry) + after.filter(
                descriptor_test(before + after, mode),
            )
        } else {
            descriptors(before + after, mode)
        },
        descriptors(before + after, mode) == before.filter(descriptor_test(before + after, mode))
            + after.filter(descriptor_test(before + after, mode)),
{
    let with = before.push(entry) + after;
    let without = before + after;
    let test_with = descriptor_test(with, mode);
    let test = descriptor_test(without, mode);
    assert forall|i: int| 0 <= i < with.len() implies test_with(#[trigger] with[i]) == test(
        with[i],
    ) by {
        lemma_under_composite_without(before, entry, after, with[i].path);
    }
    lemma_filter_agree(with, test_with, test);
    Seq::filter_distributes_over_add(before.push(entry), after, test);
    Seq::filter_distributes_over_add(before, after, test);
    assert(before.push(entry).drop_last() == before);
    reveal(Seq::filter);
}

/// A scan does not depend on a plain file below the root that contributes
/// nothing, be it a descriptor or not: with the file or without it, the
/// outcome is the same. (A descriptor that does not lie below the root fails
/// the scan.)
pub proof fn lemma_scan_without(
    root: Seq<Seq<char>>,
    root_is_dir: bool,
    before: Seq<TreeEntryView>,
    entry: TreeEntryView,
    after: Seq<TreeEntryView>,
    mode: ValidationMode,
)
    requires
        !is_composite(entry.path),
        starts_with(entry.path, root),
        contribution(root, entry) is None,
    ensures
        scan_outcome(root, root_is_dir, Ok(before.push(entry) + after), mode) == scan_outcome(
            root,
            root_is_dir,
            Ok(before + after),
            mode,
        ),
{
    let first = candidates(before);
    let second = candidates(after);
    Seq::filter_distributes_over_add(before.push(entry), after, candidate_test());
    Seq::filter_distributes_over_add(before, after, candidate_test());
    assert(before.push(entry).drop_last() == before);
    assert(candidates(before.push(entry)) == if is_candidate(entry) {
        first.push(entry)
    } else {
        first
    }) by {
        reveal(Seq::filter);
    }
    if is_candidate(entry) {
        lemma_descriptors_without(first, entry, second, mode);
        let test = descriptor_test(first + second, mode);
        if is_descriptor(first + second, entry, mode) {
            lemma_build_without(root, first.filter(test), entry, second.filter(test));
        }
    }
}

/// The costume that a descriptor gives the character `name`, if it gives one.
pub open spec fn costume_for(root: Seq<Seq<char>>, name: Seq<char>) -> spec_fn(
    TreeEntryView,
) -> Option<CostumeView> {
    |entry: TreeEntryView|
        match contribution(root, entry) {
            Some(found) => if found.character == name {
                Some(found.costume)
            } else {
                None
            },
            None => None,
        }
}

/// The costumes of a character are those that the descriptors give it, in the
/// order of the descriptors.
pub proof fn lemma_costumes_in_order(
    root: Seq<Seq<char>>,
    files: Seq<TreeEntryView>,
    name: Seq<char>,
)
    ensures
        costumes_of(catalog_of(root, files), name) == files.filter_map(costume_for(root, name)),
    decreases files.len(),
{
    if files.len() > 0 {
        let rest = files.drop_last();
        lemma_costumes_in_order(root, rest, name);
        match contribution(root, files.last()) {
            Some(entry) => {
                lemma_absorb(catalog_of(root, rest), entry, name);
            },
            None => {},
        }
    }
}

/// What a scan finds, said without its order: a character has a costume
/// exactly when some entry of the listing is a candidate, is a descriptor
/// among the candidates and gives the character that costume.
pub proof fn lemma_scan_contents(
    root: Seq<Seq<char>>,
    entries: Seq<TreeEntryView>,
    mode: ValidationMode,
    name: Seq<char>,
    costume: CostumeView,
)
    ensures
        costumes_of(
            catalog_of(root, descriptors(candidates(entries), mode)),
            name,
        ).contains(costume) <==> exists|i: int|
            0 <= i < entries.len() && is_candidate(#[trigger] entries[i]) && is_descriptor(
                candidates(entries),
                entries[i],
                mode,
            ) && costume_for(root, name)(entries[i]) == Some(costume),
{
    let found = candidates(entries);
    let kept = descriptors(found, mode);
    lemma_catalog_contents(root, kept, name, costume);
    if contributes_costume(root, kept, name, costume) {
        let k = choose|k: int|
            0 <= k < kept.len() && (#[trigger] contribution(root, kept[k])) is Some && contribution(
                root,
                kept[k],
            )->0.character == name && contribution(root, kept[k])->0.costume == costume;
        lemma_filter_contains(found, descriptor_test(found, mode), kept[k]);
        lemma_filter_contains(entries, candidate_test(), kept[k]);
    }
    if exists|i: int|
        0 <= i < entries.len() && is_candidate(#[trigger] entries[i]) && is_descriptor(
            found,
            entries[i],
            mode,
        ) && costume_for(root, name)(entries[i]) == Some(costume) {
        let i = choose|i: int|
            0 <= i < entries.len() && is_candidate(#[trigger] entries[i]) && is_descriptor(
                found,
                entries[i],
                mode,
            ) && costume_for(root, name)(entries[i]) == Some(costume);
        lemma_filter_contains(found, descriptor_test(found, mode), entries[i]);
    }
}

/// A plain file whose content cannot be read or is no JSON document is no
/// descriptor, whatever its name; it is not among the descriptors.
pub proof fn lemma_unparsable_skipped(
    all: Seq<TreeEntryView>,
    entry: TreeEntryView,
    mode: ValidationMode,
)
    requires
        !is_composite(entry.path),
        entry.content matches Some(text) ==> json_document(text) is None,
    ensures
        !is_descriptor(all, entry, mode),
        !descriptors(all, mode).contains(entry),
{
}

/// A plain file is among the descriptors only if its name is not reserved, it
/// lies under no composite candidate, its content can be read and is a JSON
/// document, and it has a model name or the document has the required keys.
pub proof fn lemma_plain_descriptor(
    all: Seq<TreeEntryView>,
    entry: TreeEntryView,
    mode: ValidationMode,
)
    requires
        !is_composite(entry.path),
        descriptors(all, mode).contains(entry),
    ensures
        !is_reserved_name(file_name(entry.path)),
        !under_composite(all, entry.path),
        entry.content is Some,
        json_document(entry.content->0) is Some,
        is_model_name(file_name(entry.path)) || has_required_keys(
            json_document(entry.content->0)->0,
            mode,
        ),
{
}

/// A scan does not depend on a plain file that is no descriptor: with the
/// file or without it, the outcome is the same, wherever the file lies.
pub proof fn lemma_scan_without_rejected(
    root: Seq<Seq<char>>,
    root_is_dir: bool,
    before: Seq<TreeEntryView>,
    entry: TreeEntryView,
    after: Seq<TreeEntryView>,
    mode: ValidationMode,
)
    requires
        !is_composite(entry.path),
        !is_descriptor(candidates(before + after), entry, mode),
    ensures
        scan_outcome(root, root_is_dir, Ok(before.push(entry) + after), mode) == scan_outcome(
            root,
            root_is_dir,
            Ok(before + after),
            mode,
        ),
{
    let first = candidates(before);
    let second = candidates(after);
    Seq::filter_distributes_over_add(before.push(entry), after, candidate_test());
    Seq::filter_distributes_over_add(before, after, candidate_test());
    assert(before.push(entry).drop_last() == before);
    assert(candidates(before.push(entry)) == if is_candidate(entry) {
        first.push(entry)
    } else {
        first
    }) by {
        reveal(Seq::filter);
    }
    if is_candidate(entry) {
        lemma_descriptors_without(first, entry, second, mode);
    }
}

/// A scan does not depend on a plain file whose content cannot be read or is
/// no JSON document: with the file or without it, the outcome is the same.
pub proof fn lemma_scan_without_unparsable(
    root: Seq<Seq<char>>,
    root_is_dir: bool,
    before: Seq<TreeEntryView>,
    entry: TreeEntryView,
    after: Seq<TreeEntryView>,
    mode: ValidationMode,
)
    requires
        !is_composite(entry.path),
        entry.content matches Some(text) ==> json_document(text) is None,
    ensures
        scan_outcome(root, root_is_dir, Ok(before.push(entry) + after), mode) == scan_outcome(
            root,
            root_is_dir,
            Ok(before + after),
            mode,
        ),
{
    lemma_scan_without_rejected(root, root_is_dir, before, entry, after, mode);
}

/// Taking the candidates of candidates changes nothing.
pub proof fn lemma_candidates_again(entries: Seq<TreeEntryView>)
    ensures
        candidates(candidates(entries)) == candidates(entries),
    decreases entries.len(),
{
    reveal(Seq::filter);
    if entries.len() > 0 {
        let rest = entries.drop_last();
        lemma_candidates_again(rest);
        if is_candidate(entries.last()) {
            assert(candidates(rest).push(entries.last()).drop_last() == candidates(rest));
        }
    }
}

/// A descriptor is skipped with a warning exactly when it contributes no
/// costume. A file that is no descriptor is skipped with a warning only where
/// its content could not be read or is no JSON document.
pub proof fn lemma_skip_reason(
    root: Seq<Seq<char>>,
    all: Seq<TreeEntryView>,
    entry: TreeEntryView,
    mode: ValidationMode,
)
    ensures
        is_descriptor(all, entry, mode) ==> (skip_reason(all, entry, mode) is Some
            <==> contribution(root, entry) is None),
        !is_descriptor(all, entry, mode) && skip_reason(all, entry, mode) is Some ==> (
        entry.content matches Some(text) ==> json_document(text) is None),
{
}

/// What a filter map makes of two sequences joined is what it makes of each,
/// joined.
pub proof fn lemma_filter_map_add<A, B>(s: Seq<A>, t: Seq<A>, f: spec_fn(A) -> Option<B>)
    ensures
        (s + t).filter_map(f) == s.filter_map(f) + t.filter_map(f),
    decreases t.len(),
{
    if t.len() > 0 {
        assert((s + t).drop_last() == s + t.drop_last());
        lemma_filter_map_add(s, t.drop_last(), f);
    }
}

/// What a filter map makes of a sequence does not depend on the order of the
/// sequence, but for its own order: two sequences with the same items, each
/// as often in the one as in the other, give the same items as often.
pub proof fn lemma_filter_map_permuted<A, B>(a: Seq<A>, b: Seq<A>, f: spec_fn(A) -> Option<B>)
    requires
        a.to_multiset() == b.to_multiset(),
    ensures
        a.filter_map(f).to_multiset() == b.filter_map(f).to_multiset(),
    decreases a.len(),
{
    to_multiset_len(a);
    to_multiset_len(b);
    if a.len() > 0 {
        let x = a.last();
        let rest = a.drop_last();
        assert(a == rest.push(x));
        to_multiset_build(rest, x);
        to_multiset_contains(a, x);
        to_multiset_contains(b, x);
        let i = choose|i: int| 0 <= i < b.len() && b[i] == x;
        let others = b.remove(i);
        to_multiset_remove(b, i);
        assert(rest.to_multiset() =~= others.to_multiset());
        lemma_filter_map_permuted(rest, others, f);
        let left = b.subrange(0, i);
        let right = b.subrange(i + 1, b.len() as int);
        assert(b == left + seq![x] + right);
        lemma_filter_map_add(left + seq![x], right, f);
        lemma_filter_map_add(left, seq![x], f);
        lemma_filter_map_add(left, right, f);
        Seq::lemma_filter_map_singleton(x, f);
        let one = seq![x].filter_map(f);
        lemma_multiset_commutative(left.filter_map(f) + one, right.filter_map(f));
        lemma_multiset_commutative(left.filter_map(f), one);
        lemma_multiset_commutative(left.filter_map(f), right.filter_map(f));
        lemma_multiset_commutative(rest.filter_map(f), one);
    }
}

/// The test of a filter as the function of a filter map.
pub open spec fn keep_if<A>(test: spec_fn(A) -> bool) -> spec_fn(A) -> Option<A> {
    |x: A|
        if test(x) {
            Some(x)
        } else {
            None
        }
}

/// A filter is the filter map that keeps what passes the test.
pub proof fn lemma_filter_as_filter_map<A>(s: Seq<A>, test: spec_fn(A) -> bool)
    ensures
        s.filter(test) == s.filter_map(keep_if(test)),
    decreases s.len(),
{
    reveal(Seq::filter);
    if s.len() > 0 {
        lemma_filter_as_filter_map(s.drop_last(), test);
    }
}

/// What a filter keeps of a sequence does not depend on the order of the
/// sequence, but for its own order.
pub proof fn lemma_filter_permuted<A>(a: Seq<A>, b: Seq<A>, test: spec_fn(A) -> bool)
    requires
        a.to_multiset() == b.to_multiset(),
    ensures
        a.filter(test).to_multiset() == b.filter(test).to_multiset(),
{
    lemma_filter_as_filter_map(a, test);
    lemma_filter_as_filter_map(b, test);
    lemma_filter_map_permuted(a, b, keep_if(test));
}

/// Sequences with the same items as often hold the same items.
pub proof fn lemma_permuted_same_items<A>(a: Seq<A>, b: Seq<A>)
    requires
        a.to_multiset() == b.to_multiset(),
    ensures
        same_items(a, b),
{
    assert forall|x: A| a.contains(x) <==> b.contains(x) by {
        to_multiset_contains(a, x);
        to_multiset_contains(b, x);
    }
}

/// The costumes of a character do not depend on the order of the descriptors,
/// but for their own order: descriptors in another order give each character
/// the same costumes, each as often.
pub proof fn lemma_catalog_permuted(
    root: Seq<Seq<char>>,
    a: Seq<TreeEntryView>,
    b: Seq<TreeEntryView>,
    name: Seq<char>,
)
    requires
        a.to_multiset() == b.to_multiset(),
    ensures
        build_outcome(root, a) is Ok <==> build_outcome(root, b) is Ok,
        has_character(catalog_of(root, a), name) <==> has_character(catalog_of(root, b), name),
        costumes_of(catalog_of(root, a), name).to_multiset() == costumes_of(
            catalog_of(root, b),
            name,
        ).to_multiset(),
{
    lemma_permuted_same_items(a, b);
    lemma_first_outside(root, a);
    lemma_first_outside(root, b);
    if some_outside(root, a) {
        let i = choose|i: int| 0 <= i < a.len() && !starts_with((#[trigger] a[i]).path, root);
        assert(a.contains(a[i]));
    }
    if some_outside(root, b) {
        let i = choose|i: int| 0 <= i < b.len() && !starts_with((#[trigger] b[i]).path, root);
        assert(b.contains(b[i]));
    }
    lemma_costumes_in_order(root, a, name);
    lemma_costumes_in_order(root, b, name);
    lemma_filter_map_permuted(a, b, costume_for(root, name));
    lemma_catalog_well_formed(root, a);
    lemma_catalog_well_formed(root, b);
    lemma_position(catalog_of(root, a), name);
    lemma_position(catalog_of(root, b), name);
    to_multiset_len(costumes_of(catalog_of(root, a), name));
    to_multiset_len(costumes_of(catalog_of(root, b), name));
}

/// The descriptors among a listing do not depend on the order of the listing,
/// but for their own order.
pub proof fn lemma_descriptors_permuted(
    a: Seq<TreeEntryView>,
    b: Seq<TreeEntryView>,
    mode: ValidationMode,
)
    requires
        a.to_multiset() == b.to_multiset(),
    ensures
        descriptors(candidates(a), mode).to_multiset() == descriptors(
            candidates(b),
            mode,
        ).to_multiset(),
{
    let ca = candidates(a);
    let cb = candidates(b);
    lemma_filter_permuted(a, b, candidate_test());
    lemma_permuted_same_items(ca, cb);
    assert forall|i: int| 0 <= i < cb.len() implies descriptor_test(cb, mode)(#[trigger] cb[i])
        == descriptor_test(ca, mode)(cb[i]) by {
        lemma_under_composite_same(ca, cb, cb[i].path);
    }
    lemma_filter_agree(cb, descriptor_test(cb, mode), descriptor_test(ca, mode));
    lemma_filter_permuted(ca, cb, descriptor_test(ca, mode));
}

/// Two scans of one tree whose traversals found the entries in different
/// orders give every character the same costumes, each as often; only the
/// order of the costumes, and the path and the flag that a character has from
/// its first costume, may differ.
pub proof fn lemma_scan_permuted(
    root: Seq<Seq<char>>,
    root_is_dir: bool,
    a: Seq<TreeEntryView>,
    b: Seq<TreeEntryView>,
    mode: ValidationMode,
    name: Seq<char>,
)
    requires
        a.to_multiset() == b.to_multiset(),
    ensures
        match (scan_outcome(root, root_is_dir, Ok(a), mode), scan_outcome(root, root_is_dir, Ok(b), mode)) {
            (Ok(first), Ok(second)) => {
                &&& has_character(first, name) <==> has_character(second, name)
                &&& costumes_of(first, name).to_multiset() == costumes_of(
                    second,
                    name,
                ).to_multiset()
            },
            (Err(_), Err(_)) => true,
            _ => false,
        },
{
    lemma_descriptors_permuted(a, b, mode);
    lemma_catalog_permuted(
        root,
        descriptors(candidates(a), mode),
        descriptors(candidates(b), mode),
        name,
    );
}

/// The number of costumes after one character has been replaced.
pub proof fn lemma_total_update(catalog: Seq<CharacterView>, at: int, with: CharacterView)
    requires
        0 <= at < catalog.len(),
    ensures
        costume_total(catalog.update(at, with)) == costume_total(catalog)
            - catalog[at].costumes.len() + with.costumes.len(),
    decreases catalog.len(),
{
    let next = catalog.update(at, with);
    if at == catalog.len() - 1 {
        assert(next.drop_last() == catalog.drop_last());
    } else {
        assert(next.drop_last() == catalog.drop_last().update(at, with));
        lemma_total_update(catalog.drop_last(), at, with);
    }
}

/// Adding a costume makes the catalog one costume larger.
pub proof fn lemma_absorb_total(catalog: Seq<CharacterView>, entry: Contribution)
    ensures
        costume_total(absorb(catalog, entry)) == costume_total(catalog) + 1,
{
    let at = position(catalog, entry.character);
    lemma_position(catalog, entry.character);
    if at < catalog.len() {
        lemma_total_update(catalog, at, absorb(catalog, entry)[at]);
    } else {
        assert(absorb(catalog, entry).drop_last() == catalog);
    }
}

/// The descriptor gives a costume.
pub open spec fn gives_costume(root: Seq<Seq<char>>) -> spec_fn(TreeEntryView) -> bool {
    |entry: TreeEntryView| contribution(root, entry) is Some
}

/// The catalog holds one costume for each descriptor that gives one.
pub proof fn lemma_catalog_total(root: Seq<Seq<char>>, files: Seq<TreeEntryView>)
    ensures
        costume_total(catalog_of(root, files)) == files.filter(gives_costume(root)).len(),
    decreases files.len(),
{
    reveal(Seq::filter);
    if files.len() > 0 {
        lemma_catalog_total(root, files.drop_last());
        match contribution(root, files.last()) {
            Some(entry) => {
                lemma_absorb_total(catalog_of(root, files.drop_last()), entry);
            },
            None => {},
        }
    }
}

/// A filter keeps a sequence whole where every item passes the test.
pub proof fn lemma_filter_all<A>(s: Seq<A>, test: spec_fn(A) -> bool)
    requires
        forall|i: int| 0 <= i < s.len() ==> test(#[trigger] s[i]),
    ensures
        s.filter(test) == s,
    decreases s.len(),
{
    reveal(Seq::filter);
    if s.len() > 0 {
        let rest = s.drop_last();
        lemma_filter_all(rest, test);
    }
}

/// Every entry is a candidate below the root that is a descriptor among the
/// entries and gives a costume.
pub open spec fn all_give_costumes(
    root: Seq<Seq<char>>,
    entries: Seq<TreeEntryView>,
    mode: ValidationMode,
) -> bool {
    forall|i: int|
        0 <= i < entries.len() ==> {
            &&& is_candidate(#[trigger] entries[i])
            &&& is_descriptor(entries, entries[i], mode)
            &&& starts_with(entries[i].path, root)
            &&& contribution(root, entries[i]) is Some
        }
}

/// A scan of entries that all give costumes finds one costume for each.
pub proof fn lemma_scan_total(
    root: Seq<Seq<char>>,
    entries: Seq<TreeEntryView>,
    mode: ValidationMode,
)
    requires
        all_give_costumes(root, entries, mode),
    ensures
        scan_outcome(root, true, Ok(entries), mode) is Ok,
        costume_total(scan_outcome(root, true, Ok(entries), mode)->Ok_0) == entries.len(),
{
    lemma_filter_all(entries, candidate_test());
    lemma_filter_all(entries, descriptor_test(entries, mode));
    lemma_filter_all(entries, gives_costume(root));
    lemma_catalog_total(root, entries);
    lemma_first_outside(root, entries);
}

/// A scan tolerates a plain file that cannot be read or is no JSON document:
/// among entries that all give costumes, it gives no error, and the catalog
/// holds one costume for each of the other entries.
pub proof fn lemma_partial_failure(
    root: Seq<Seq<char>>,
    before: Seq<TreeEntryView>,
    corrupt: TreeEntryView,
    after: Seq<TreeEntryView>,
    mode: ValidationMode,
)
    requires
        all_give_costumes(root, before + after, mode),
        !is_composite(corrupt.path),
        corrupt.content matches Some(text) ==> json_document(text) is None,
    ensures
        scan_outcome(root, true, Ok(before.push(corrupt) + after), mode) is Ok,
        costume_total(scan_outcome(root, true, Ok(before.push(corrupt) + after), mode)->Ok_0)
            == before.len() + after.len(),
{
    lemma_scan_without_unparsable(root, true, before, corrupt, after, mode);
    lemma_scan_total(root, before + after, mode);
}

/// The catalog of a scan holds one costume for each descriptor that gives
/// one, whatever else the listing holds: a descriptor that gives none, such
/// as a composite one without a record, is not counted.
pub proof fn lemma_scan_counts_descriptors(
    root: Seq<Seq<char>>,
    root_is_dir: bool,
    entries: Seq<TreeEntryView>,
    mode: ValidationMode,
)
    ensures
        scan_outcome(root, root_is_dir, Ok(entries), mode) matches Ok(found) ==> costume_total(
            found,
        ) == descriptors(candidates(entries), mode).filter(gives_costume(root)).len(),
{
    lemma_catalog_total(root, descriptors(candidates(entries), mode));
}

} // verus!
