//! Paths as sequences of segments.

use vstd::prelude::*;

verus! {

/// One segment of a path. The five kinds are those of
/// `std::path::Component`; names and prefixes are kept as raw bytes, so that
/// a name that is not valid Unicode is carried through unchanged.
#[derive(Clone, Debug, PartialEq, Eq)]
pub enum Segment {
    /// A volume or share prefix such as `C:`.
    Prefix(Vec<u8>),
    /// The root directory.
    Root,
    /// The segment `.`.
    Current,
    /// The segment `..`.
    Parent,
    /// The name of a file or of a directory.
    Name(Vec<u8>),
}

/// The mathematical value of a [`Segment`].
#[verifier::ext_equal]
pub enum SegmentView {
    Prefix(Seq<u8>),
    Root,
    Current,
    Parent,
    Name(Seq<u8>),
}

impl View for Segment {
    type V = SegmentView;

    open spec fn view(&self) -> SegmentView {
        match self {
            Segment::Prefix(bytes) => SegmentView::Prefix(bytes@),
            Segment::Root => SegmentView::Root,
            Segment::Current => SegmentView::Current,
            Segment::Parent => SegmentView::Parent,
            Segment::Name(bytes) => SegmentView::Name(bytes@),
        }
    }
}

/// The mathematical value of a [`FilePath`]: its segments in order.
pub type PathView = Seq<SegmentView>;

/// Whether two byte strings hold the same bytes.
fn same_bytes(a: &Vec<u8>, b: &Vec<u8>) -> (same: bool)
    ensures
        same == (a@ == b@),
{
    let same = *a == *b;
    assert(same == (a@ =~= b@));
    same
}

impl Segment {
    /// Whether `self` and `other` are the same segment: of the same kind and,
    /// for a name or a prefix, of the same bytes. It answers as `==` does, and
    /// is the comparison that verified code can reason about.
    pub fn same(&self, other: &Segment) -> (same: bool)
        ensures
            same == (self@ == other@),
    {
        match (self, other) {
            (Segment::Prefix(a), Segment::Prefix(b)) => same_bytes(a, b),
            (Segment::Root, Segment::Root) => true,
            (Segment::Current, Segment::Current) => true,
            (Segment::Parent, Segment::Parent) => true,
            (Segment::Name(a), Segment::Name(b)) => same_bytes(a, b),
            _ => false,
        }
    }

    /// A copy of `self`. It gives what `clone` gives, and is the copy that
    /// verified code can reason about.
    pub fn duplicate(&self) -> (copy: Segment)
        ensures
            copy@ == self@,
    {
        match self {
            Segment::Prefix(bytes) => Segment::Prefix(bytes.clone()),
            Segment::Root => Segment::Root,
            Segment::Current => Segment::Current,
            Segment::Parent => Segment::Parent,
            Segment::Name(bytes) => Segment::Name(bytes.clone()),
        }
    }
}

/// A path: its segments in order, outermost first.
#[derive(Clone, Debug, PartialEq, Eq)]
pub struct FilePath {
    pub segments: Vec<Segment>,
}

/// The values of a run of segments.
pub open spec fn segment_views(segments: Seq<Segment>) -> PathView {
    segments.map_values(|segment: Segment| segment@)
}

impl View for FilePath {
    type V = PathView;

    open spec fn view(&self) -> PathView {
        segment_views(self.segments@)
    }
}

/// `tail` adjoined to `base`, by the rule of `std::path::Path::join`: a tail
/// that begins with a prefix replaces the base; a tail that begins at the
/// root replaces all of the base but its prefix; any other tail is appended.
pub open spec fn joined(base: PathView, tail: PathView) -> PathView {
    if tail.len() > 0 && tail[0] is Prefix {
        tail
    } else if tail.len() > 0 && tail[0] is Root {
        if base.len() > 0 && base[0] is Prefix {
            seq![base[0]] + tail
        } else {
            tail
        }
    } else {
        base + tail
    }
}

/// What is left of `path` once the leading `base` is taken off, where `path`
/// begins with the whole of `base`.
pub open spec fn stripped(path: PathView, base: PathView) -> Option<PathView> {
    if base.is_prefix_of(path) {
        Some(path.skip(base.len() as int))
    } else {
        None
    }
}

/// The last segment of `path`, where that segment is a name.
pub open spec fn file_name_of(path: PathView) -> Option<Seq<u8>> {
    if path.len() == 0 {
        None
    } else {
        match path.last() {
            SegmentView::Name(bytes) => Some(bytes),
            _ => None,
        }
    }
}

/// The values of a run of segments with one more segment at its end.
proof fn lemma_views_push(segments: Seq<Segment>, last: Segment)
    ensures
        segment_views(segments.push(last)) == segment_views(segments).push(last@),
{
}

/// Appends copies of `from[start..]` to `out`.
fn push_segments(out: &mut Vec<Segment>, from: &Vec<Segment>, start: usize)
    requires
        start <= from.len(),
    ensures
        segment_views(final(out)@) == segment_views(old(out)@) + segment_views(from@).skip(
            start as int,
        ),
{
    let mut i: usize = start;
    while i < from.len()
        invariant
            start <= i <= from.len(),
            segment_views(out@) == segment_views(old(out)@) + segment_views(from@).subrange(
                start as int,
                i as int,
            ),
        decreases from.len() - i,
    {
        let ghost before = out@;
        out.push(from[i].duplicate());
        proof {
            lemma_views_push(before, out@.last());
            assert(segment_views(from@).subrange(start as int, i + 1) =~= segment_views(
                from@,
            ).subrange(start as int, i as int).push(from@[i as int]@));
        }
        i += 1;
    }
}

impl FilePath {
    /// A copy of `self`. It gives what `clone` gives, and is the copy that
    /// verified code can reason about.
    pub fn duplicate(&self) -> (copy: FilePath)
        ensures
            copy@ == self@,
    {
        let mut segments: Vec<Segment> = Vec::new();
        push_segments(&mut segments, &self.segments, 0);
        FilePath { segments }
    }

    /// Whether `self` begins with the whole of `base`, segment by segment.
    pub fn starts_with(&self, base: &FilePath) -> (yes: bool)
        ensures
            yes == base@.is_prefix_of(self@),
    {
        if base.segments.len() > self.segments.len() {
            return false;
        }
        let mut i: usize = 0;
        while i < base.segments.len()
            invariant
                i <= base.segments.len() <= self.segments.len(),
                forall|j: int| 0 <= j < i ==> base@[j] == self@[j],
            decreases base.segments.len() - i,
        {
            if !base.segments[i].same(&self.segments[i]) {
                assert(base@[i as int] != self@.subrange(0, base@.len() as int)[i as int]);
                return false;
            }
            i += 1;
        }
        assert(base@ =~= self@.subrange(0, base@.len() as int));
        true
    }

    /// `self` without the leading `base`, or `None` where `self` does not
    /// begin with the whole of `base`.
    pub fn strip_prefix(&self, base: &FilePath) -> (rest: Option<FilePath>)
        ensures
            match rest {
                Some(rest) => stripped(self@, base@) == Some(rest@),
                None => stripped(self@, base@) is None,
            },
    {
        if self.starts_with(base) {
            let mut segments: Vec<Segment> = Vec::new();
            push_segments(&mut segments, &self.segments, base.segments.len());
            Some(FilePath { segments })
        } else {
            None
        }
    }

    /// `tail` adjoined to `self`.
    pub fn join(&self, tail: &FilePath) -> (whole: FilePath)
        ensures
            whole@ == joined(self@, tail@),
    {
        let mut segments: Vec<Segment> = Vec::new();
        let keep: usize = if tail.segments.len() == 0 {
            self.segments.len()
        } else {
            match &tail.segments[0] {
                Segment::Prefix(_) => 0,
                Segment::Root => {
                    if self.segments.len() == 0 {
                        0
                    } else {
                        match &self.segments[0] {
                            Segment::Prefix(_) => 1,
                            _ => 0,
                        }
                    }
                },
                _ => self.segments.len(),
            }
        };
        let mut i: usize = 0;
        while i < keep
            invariant
                i <= keep <= self.segments.len(),
                segment_views(segments@) == self@.take(i as int),
            decreases keep - i,
        {
            let ghost before = segments@;
            segments.push(self.segments[i].duplicate());
            proof {
                lemma_views_push(before, segments@.last());
                assert(self@.take(i + 1) =~= self@.take(i as int).push(self@[i as int]));
            }
            i += 1;
        }
        push_segments(&mut segments, &tail.segments, 0);
        assert(self@.take(self@.len() as int) == self@);
        assert(keep == 1 ==> self@.take(1) == seq![self@[0]]);
        FilePath { segments }
    }

    /// The entry called `name` directly below `self`.
    pub fn child(&self, name: Vec<u8>) -> (below: FilePath)
        ensures
            below@ == self@.push(SegmentView::Name(name@)),
    {
        let mut segments = self.duplicate().segments;
        let ghost before = segments@;
        segments.push(Segment::Name(name));
        proof {
            lemma_views_push(before, segments@.last());
        }
        FilePath { segments }
    }

    /// The last segment of `self`, where that segment is a name.
    pub fn file_name(&self) -> (name: Option<Vec<u8>>)
        ensures
            match name {
                Some(bytes) => file_name_of(self@) == Some(bytes@),
                None => file_name_of(self@) is None,
            },
    {
        let length: usize = self.segments.len();
        if length == 0 {
            return None;
        }
        match &self.segments[length - 1] {
            Segment::Name(bytes) => Some(bytes.clone()),
            _ => None,
        }
    }
}

} // verus!
