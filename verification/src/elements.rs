//! The element model: points, lines and relations, each with an identifier
//! and a tag list; points carry a position, lines an ordered member
//! sequence of point identifiers.

use vstd::prelude::*;

use crate::tags::TagInner;

verus! {

/// A position carried opaquely: each field holds the IEEE-754 bit pattern
/// of one 64-bit position component.  The pipelines never read the numeric
/// value; they only store positions and copy them into geometries, so the
/// encoding is preserved bit for bit.
#[derive(Clone, Copy, PartialEq, Eq, Structural, Debug)]
pub struct Coord {
    pub lon_bits: u64,
    pub lat_bits: u64,
}

/// One decoded element of the input stream.
pub enum Element {
    Point { id: i64, coord: Coord, tags: Vec<TagInner> },
    Line { id: i64, members: Vec<i64>, tags: Vec<TagInner> },
    Relation { id: i64, tags: Vec<TagInner> },
}

/// The mathematical shape of an element.
pub enum ElementV {
    Point { id: i64, coord: Coord, tags: Seq<(Seq<char>, Seq<char>)> },
    Line { id: i64, members: Seq<i64>, tags: Seq<(Seq<char>, Seq<char>)> },
    Relation { id: i64, tags: Seq<(Seq<char>, Seq<char>)> },
}

impl View for Element {
    type V = ElementV;

    open spec fn view(&self) -> ElementV {
        match self {
            Element::Point { id, coord, tags } => ElementV::Point {
                id: *id,
                coord: *coord,
                tags: tags.deep_view(),
            },
            Element::Line { id, members, tags } => ElementV::Line {
                id: *id,
                members: members@,
                tags: tags.deep_view(),
            },
            Element::Relation { id, tags } => ElementV::Relation {
                id: *id,
                tags: tags.deep_view(),
            },
        }
    }
}

impl DeepView for Element {
    type V = ElementV;

    open spec fn deep_view(&self) -> ElementV {
        self.view()
    }
}

impl ElementV {
    /// The tag list, whichever the variant.
    pub open spec fn tags(self) -> Seq<(Seq<char>, Seq<char>)> {
        match self {
            ElementV::Point { tags, .. } => tags,
            ElementV::Line { tags, .. } => tags,
            ElementV::Relation { tags, .. } => tags,
        }
    }

    /// The identifier, whichever the variant.
    pub open spec fn id(self) -> i64 {
        match self {
            ElementV::Point { id, .. } => id,
            ElementV::Line { id, .. } => id,
            ElementV::Relation { id, .. } => id,
        }
    }
}

impl Element {
    /// The tag list, whichever the variant.
    pub fn tags(&self) -> (r: &Vec<TagInner>)
        ensures
            r.deep_view() == self@.tags(),
    {
        match self {
            Element::Point { tags, .. } => tags,
            Element::Line { tags, .. } => tags,
            Element::Relation { tags, .. } => tags,
        }
    }
}

/// A line is closed when it has at least one member and its first and last
/// member identifiers are equal; otherwise it is open.
pub open spec fn spec_is_closed(members: Seq<i64>) -> bool {
    members.len() >= 1 && members[0] == members.last()
}

/// Whether a member sequence closes on itself.
pub fn is_closed(members: &Vec<i64>) -> (r: bool)
    ensures
        r == spec_is_closed(members@),
{
    members.len() >= 1 && members[0] == members[members.len() - 1]
}

} // verus!
