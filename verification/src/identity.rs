//! Costume and character identity, derived from where a descriptor lies.
//!
//! Nothing here looks inside a file. For a descriptor with the segments
//! `p[0], .., p[n-1]` the costume is the directory that holds it, `p[n-2]`; the
//! character is the directory above that one, unless that is the root marker
//! `figure` or does not exist.

use vstd::prelude::*;
use vstd::string::*;
use crate::text::{texts, same_text, join_slash, join_range};
use crate::paths::{SegmentPath, valid_path};

verus! {

/// Why no identity can be read off a path.
#[derive(Debug, Clone, Copy, PartialEq, Eq, Structural)]
pub enum IdentityError {
    /// The path has fewer than two segments, so no directory holds the file.
    InsufficientDepth,
}

/// The name of the directory that anchors character paths.
pub open spec fn root_marker() -> Seq<char> {
    "figure"@
}

/// The costume of a descriptor: the directory that holds it.
pub open spec fn costume_name(path: Seq<Seq<char>>) -> Seq<char>
    recommends
        path.len() >= 2,
{
    path[path.len() - 2]
}

/// The character of a descriptor: the directory above the costume; the costume
/// itself where that directory is the root marker or is missing.
pub open spec fn character_name(path: Seq<Seq<char>>) -> Seq<char>
    recommends
        path.len() >= 2,
{
    if path.len() >= 3 && path[path.len() - 3] != root_marker() {
        path[path.len() - 3]
    } else {
        costume_name(path)
    }
}

/// The position just behind the last root marker among `dirs`; 0 where none of
/// them is the root marker.
pub open spec fn after_last_marker(dirs: Seq<Seq<char>>) -> int
    decreases dirs.len(),
{
    if dirs.len() == 0 {
        0
    } else if dirs.last() == root_marker() {
        dirs.len() as int
    } else {
        after_last_marker(dirs.drop_last())
    }
}

/// The directories above the costume directory.
pub open spec fn ancestors(path: Seq<Seq<char>>) -> Seq<Seq<char>>
    recommends
        path.len() >= 2,
{
    path.take(path.len() - 2)
}

/// The directories that lead from the last root marker down to the costume
/// directory, the costume directory left out.
pub open spec fn character_dirs(path: Seq<Seq<char>>) -> Seq<Seq<char>>
    recommends
        path.len() >= 2,
{
    ancestors(path).skip(after_last_marker(ancestors(path)))
}

/// The display path of a descriptor's character: its character directories
/// joined by `/`; the costume name where there are none.
pub open spec fn character_path(path: Seq<Seq<char>>) -> Seq<char>
    recommends
        path.len() >= 2,
{
    if character_dirs(path).len() == 0 {
        costume_name(path)
    } else {
        join_slash(character_dirs(path))
    }
}

/// `after_last_marker` finds the last root marker: no directory from that
/// position on is the root marker, and the directory just before it is one.
pub proof fn lemma_after_last_marker(dirs: Seq<Seq<char>>)
    ensures
        0 <= after_last_marker(dirs) <= dirs.len(),
        after_last_marker(dirs) > 0 ==> dirs[after_last_marker(dirs) - 1] == root_marker(),
        forall|j: int| after_last_marker(dirs) <= j < dirs.len() ==> dirs[j] != root_marker(),
    decreases dirs.len(),
{
    if dirs.len() > 0 && dirs.last() != root_marker() {
        let rest = dirs.drop_last();
        lemma_after_last_marker(rest);
        assert forall|j: int| after_last_marker(dirs) <= j < dirs.len() implies dirs[j]
            != root_marker() by {
            if j < rest.len() {
                assert(rest[j] == dirs[j]);
            }
        }
    }
}

/// A position with the two properties of `lemma_after_last_marker` is the one
/// that `after_last_marker` gives.
pub proof fn lemma_after_last_marker_unique(dirs: Seq<Seq<char>>, k: int)
    requires
        0 <= k <= dirs.len(),
        k > 0 ==> dirs[k - 1] == root_marker(),
        forall|j: int| k <= j < dirs.len() ==> dirs[j] != root_marker(),
    ensures
        after_last_marker(dirs) == k,
    decreases dirs.len(),
{
    if dirs.len() > 0 && dirs.last() != root_marker() {
        lemma_after_last_marker_unique(dirs.drop_last(), k);
    }
}

/// The names and the display path that a path of proper segments gives are
/// not empty.
pub proof fn lemma_identity_not_empty(path: Seq<Seq<char>>)
    requires
        valid_path(path),
        path.len() >= 2,
    ensures
        costume_name(path).len() > 0,
        character_name(path).len() > 0,
        character_path(path).len() > 0,
{
    lemma_after_last_marker(ancestors(path));
}

/// The costume and the character of the descriptor at `path`, in this order.
///
/// Fails exactly when the path has fewer than two segments. Neither name is
/// empty where the segments of the path are proper.
pub fn get_names_from_path(path: &SegmentPath) -> (r: Result<(String, String), IdentityError>)
    ensures
        r is Err <==> path@.len() < 2,
        r matches Ok(names) ==> names.0@ == costume_name(path@) && names.1@ == character_name(
            path@,
        ),
        r matches Ok(names) ==> valid_path(path@) ==> names.0@.len() > 0 && names.1@.len() > 0,
{
    proof {
        if valid_path(path@) && path@.len() >= 2 {
            lemma_identity_not_empty(path@);
        }
    }
    let n = path.segments.len();
    if n < 2 {
        return Err(IdentityError::InsufficientDepth);
    }
    let costume = path.segments[n - 2].clone();
    if n >= 3 && !same_text(path.segments[n - 3].as_str(), "figure") {
        let character = path.segments[n - 3].clone();
        Ok((costume, character))
    } else {
        let character = costume.clone();
        Ok((costume, character))
    }
}

/// The display path of the character of the descriptor at `path`.
///
/// Fails exactly when the path has fewer than two segments. The display path
/// is not empty where the segments of the path are proper.
pub fn get_character_path(path: &SegmentPath) -> (r: Result<String, IdentityError>)
    ensures
        r is Err <==> path@.len() < 2,
        r matches Ok(shown) ==> shown@ == character_path(path@),
        r matches Ok(shown) ==> valid_path(path@) ==> shown@.len() > 0,
{
    proof {
        if valid_path(path@) && path@.len() >= 2 {
            lemma_identity_not_empty(path@);
        }
    }
    let n = path.segments.len();
    if n < 2 {
        return Err(IdentityError::InsufficientDepth);
    }
    let ghost dirs = ancestors(path@);
    let mut start: usize = n - 2;
    while start > 0 && !same_text(path.segments[start - 1].as_str(), "figure")
        invariant
            n == path.segments.len(),
            n >= 2,
            start <= n - 2,
            dirs == ancestors(path@),
            forall|j: int| start <= j < dirs.len() ==> dirs[j] != root_marker(),
        decreases start,
    {
        start -= 1;
    }
    proof {
        lemma_after_last_marker_unique(dirs, start as int);
        assert(character_dirs(path@) == texts(path.segments@).subrange(start as int, n - 2));
    }
    if start == n - 2 {
        Ok(path.segments[n - 2].clone())
    } else {
        Ok(join_range(&path.segments, start, n - 2))
    }
}

} // verus!
