//! Paths as sequences of segments. A path is what a platform's path parser
//! made of it: one string per component, the file name last. The functions of
//! the library take any segments; `valid_path` says that each is a proper
//! name, and what holds only of such paths is stated under it.

use vstd::prelude::*;
use vstd::string::*;
use crate::text::{texts, same_text, chars_of};

verus! {

/// A path, held as its segments from the outermost directory to the entry itself.
#[derive(Debug, Clone, PartialEq, Eq)]
pub struct SegmentPath {
    pub segments: Vec<String>,
}

impl View for SegmentPath {
    type V = Seq<Seq<char>>;

    open spec fn view(&self) -> Seq<Seq<char>> {
        texts(self.segments@)
    }
}

/// `path` lies at or below `prefix`: its first segments are those of `prefix`.
pub open spec fn starts_with(path: Seq<Seq<char>>, prefix: Seq<Seq<char>>) -> bool {
    prefix.len() <= path.len() && path.take(prefix.len() as int) == prefix
}

/// The directory that holds the entry: all segments but the last.
pub open spec fn parent(path: Seq<Seq<char>>) -> Seq<Seq<char>> {
    if path.len() == 0 {
        path
    } else {
        path.drop_last()
    }
}

/// A proper segment: a name that is not empty and holds no separator, so that
/// it is neither the root `/` nor more than one directory.
pub open spec fn valid_segment(name: Seq<char>) -> bool {
    name.len() > 0 && forall|i: int| 0 <= i < name.len() ==> name[i] != '/' && name[i] != '\\'
}

/// Every segment of the path is a proper segment.
pub open spec fn valid_path(path: Seq<Seq<char>>) -> bool {
    forall|i: int| 0 <= i < path.len() ==> valid_segment(#[trigger] path[i])
}

fn is_valid_segment(name: &str) -> (r: bool)
    ensures
        r == valid_segment(name@),
{
    let cs = chars_of(name);
    if cs.len() == 0 {
        return false;
    }
    let mut k: usize = 0;
    while k < cs.len()
        invariant
            k <= cs.len(),
            cs@ == name@,
            forall|i: int| 0 <= i < k ==> cs@[i] != '/' && cs@[i] != '\\',
        decreases cs.len() - k,
    {
        if cs[k] == '/' || cs[k] == '\\' {
            return false;
        }
        k += 1;
    }
    true
}

impl SegmentPath {
    /// Whether every segment of the path is a proper segment.
    pub fn is_valid(&self) -> (r: bool)
        ensures
            r == valid_path(self@),
    {
        let mut k: usize = 0;
        while k < self.segments.len()
            invariant
                k <= self.segments.len(),
                forall|i: int| 0 <= i < k ==> valid_segment(#[trigger] self@[i]),
            decreases self.segments.len() - k,
        {
            if !is_valid_segment(self.segments[k].as_str()) {
                assert(!valid_segment(self@[k as int]));
                return false;
            }
            k += 1;
        }
        true
    }

    /// The path with the given segments.
    pub fn new(segments: Vec<String>) -> (r: SegmentPath)
        ensures
            r.segments == segments,
            r@ == texts(segments@),
    {
        SegmentPath { segments }
    }

    /// The number of segments.
    pub fn len(&self) -> (n: usize)
        ensures
            n == self@.len(),
    {
        self.segments.len()
    }

    /// A copy of this path.
    pub fn duplicate(&self) -> (r: SegmentPath)
        ensures
            r@ == self@,
    {
        let mut segments: Vec<String> = Vec::new();
        let mut k: usize = 0;
        while k < self.segments.len()
            invariant
                k <= self.segments.len(),
                segments@.len() == k,
                texts(segments@) == self@.take(k as int),
            decreases self.segments.len() - k,
        {
            segments.push(self.segments[k].clone());
            k += 1;
        }
        SegmentPath { segments }
    }

    /// This path with one more segment at its end.
    pub fn child(&self, name: &str) -> (r: SegmentPath)
        ensures
            r@ == self@.push(name@),
    {
        let mut r = self.duplicate();
        r.segments.push(name.to_owned());
        r
    }

    /// Whether the first `count` segments of `prefix` are the first `count`
    /// segments of this path.
    pub fn starts_with_first(&self, prefix: &SegmentPath, count: usize) -> (r: bool)
        requires
            count <= prefix@.len(),
        ensures
            r == starts_with(self@, prefix@.take(count as int)),
    {
        if count > self.segments.len() {
            return false;
        }
        let mut k: usize = 0;
        while k < count
            invariant
                k <= count <= self.segments.len(),
                count <= prefix.segments.len(),
                self@.take(k as int) == prefix@.take(k as int),
            decreases count - k,
        {
            if !same_text(self.segments[k].as_str(), prefix.segments[k].as_str()) {
                proof {
                    let head = prefix@.take(count as int);
                    assert(self@.take(head.len() as int)[k as int] == self@[k as int]);
                }
                return false;
            }
            k += 1;
        }
        true
    }

    /// Whether this path lies at or below `prefix`.
    pub fn starts_with(&self, prefix: &SegmentPath) -> (r: bool)
        ensures
            r == starts_with(self@, prefix@),
    {
        assert(prefix@.take(prefix@.len() as int) == prefix@);
        self.starts_with_first(prefix, prefix.segments.len())
    }
}

} // verus!
