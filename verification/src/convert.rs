//! The conversion pipeline: from an element stream to geometry records, in
//! two strictly ordered phases.  Phase one walks the stream, emits a record
//! for every point that passes the filter, and caches every point's
//! position whether or not it matched, so that lines can refer to it later.
//! Phase two, only after the whole stream has been cached, walks the stream
//! again and emits a record for every line that passes the filter, looking
//! each member up in the cache.
//!
//! A member the cache does not hold is skipped and reported as a gap: the
//! geometry degrades rather than losing the whole record.  A closed line
//! becomes a polygon ring holding exactly the positions obtained — the ring
//! is not re-closed when skipped members leave first and last apart, a
//! stated policy of this pipeline.  Relations pass the filter grammar but
//! never produce geometry, by design.

use vstd::prelude::*;

use crate::cache::PointCache;
use crate::elements::{is_closed, spec_is_closed, Coord, Element, ElementV};
use crate::props::{group_tags, properties_from_tags, Property};
use crate::tags::{filter_matches, matches_filter, TagInner};

verus! {

/// The geometry of one record: a single position, an open chain of
/// positions, or a closed ring of positions (outer ring only, no holes).
pub enum Geometry {
    Point(Coord),
    LineString(Vec<Coord>),
    Polygon(Vec<Coord>),
}

/// The mathematical shape of a geometry.
pub enum GeometryV {
    Point(Coord),
    LineString(Seq<Coord>),
    Polygon(Seq<Coord>),
}

impl View for Geometry {
    type V = GeometryV;

    open spec fn view(&self) -> GeometryV {
        match self {
            Geometry::Point(c) => GeometryV::Point(*c),
            Geometry::LineString(v) => GeometryV::LineString(v@),
            Geometry::Polygon(v) => GeometryV::Polygon(v@),
        }
    }
}

/// One output unit: an identifier, a geometry, and the element's tags
/// flattened into properties.
pub struct GeoRecord {
    pub id: i64,
    pub geometry: Geometry,
    pub properties: Vec<Property>,
}

/// The mathematical shape of a record.
pub struct GeoRecordV {
    pub id: i64,
    pub geometry: GeometryV,
    pub properties: Seq<(Seq<char>, Seq<Seq<char>>)>,
}

impl View for GeoRecord {
    type V = GeoRecordV;

    open spec fn view(&self) -> GeoRecordV {
        GeoRecordV {
            id: self.id,
            geometry: self.geometry@,
            properties: self.properties.deep_view(),
        }
    }
}

impl DeepView for GeoRecord {
    type V = GeoRecordV;

    open spec fn deep_view(&self) -> GeoRecordV {
        self.view()
    }
}

/// The positions obtained for a member sequence: each member the cache
/// holds contributes its position, in member order; absent members
/// contribute nothing.
pub open spec fn resolved_coords(m: Map<i64, Coord>, ids: Seq<i64>) -> Seq<Coord>
    decreases ids.len(),
{
    if ids.len() == 0 {
        Seq::empty()
    } else {
        let rest = resolved_coords(m, ids.drop_last());
        if m.contains_key(ids.last()) {
            rest.push(m[ids.last()])
        } else {
            rest
        }
    }
}

/// The members the cache does not hold, in member order: the gaps.
pub open spec fn missing_ids(m: Map<i64, Coord>, ids: Seq<i64>) -> Seq<i64>
    decreases ids.len(),
{
    if ids.len() == 0 {
        Seq::empty()
    } else {
        let rest = missing_ids(m, ids.drop_last());
        if m.contains_key(ids.last()) {
            rest
        } else {
            rest.push(ids.last())
        }
    }
}

/// The gaps are exactly the members the cache does not hold: nothing the
/// cache holds is ever reported missing, and nothing absent resolves.
pub proof fn lemma_missing_iff(m: Map<i64, Coord>, ids: Seq<i64>, x: i64)
    ensures
        missing_ids(m, ids).contains(x) <==> (ids.contains(x) && !m.contains_key(x)),
    decreases ids.len(),
{
    if ids.len() != 0 {
        lemma_missing_iff(m, ids.drop_last(), x);
        if missing_ids(m, ids).contains(x) {
            if !(m.contains_key(ids.last()) || x != ids.last()) {
            } else {
                let g = missing_ids(m, ids.drop_last());
                if g.contains(x) {
                    let j = choose|j: int| 0 <= j < ids.drop_last().len() && ids.drop_last()[j]
                        == x;
                    assert(ids[j] == x);
                } else {
                    assert(!m.contains_key(ids.last()));
                    assert(ids[ids.len() - 1] == x);
                }
            }
        }
        if ids.contains(x) && !m.contains_key(x) {
            let j = choose|j: int| 0 <= j < ids.len() && ids[j] == x;
            let g = missing_ids(m, ids.drop_last());
            if j < ids.len() - 1 {
                assert(ids.drop_last()[j] == x);
                assert(g.contains(x));
                if m.contains_key(ids.last()) {
                } else {
                    let p = choose|p: int| 0 <= p < g.len() && g[p] == x;
                    assert(g.push(ids.last())[p] == x);
                }
            } else {
                assert(ids.last() == x);
                assert(g.push(x)[g.len() as int] == x);
            }
        }
    }
}

/// Every member accounts for exactly one of position or gap.
pub proof fn lemma_resolution_lens(m: Map<i64, Coord>, ids: Seq<i64>)
    ensures
        resolved_coords(m, ids).len() + missing_ids(m, ids).len() == ids.len(),
    decreases ids.len(),
{
    if ids.len() != 0 {
        lemma_resolution_lens(m, ids.drop_last());
    }
}

/// The outcome of resolving one member sequence: the positions obtained,
/// and the members that had none (the gaps, for diagnostics).
pub struct Resolution {
    pub coords: Vec<Coord>,
    pub gaps: Vec<i64>,
}

/// Looks every member up in the cache, in order.  A member with a cached
/// position contributes it; a member without one is skipped and reported as
/// a gap, and resolution continues — a gap degrades the geometry but never
/// drops it.
pub fn resolve_line(cache: &PointCache, members: &Vec<i64>) -> (r: Resolution)
    ensures
        r.coords@ == resolved_coords(cache@, members@),
        r.gaps@ == missing_ids(cache@, members@),
{
    let mut coords: Vec<Coord> = Vec::new();
    let mut gaps: Vec<i64> = Vec::new();
    let n = members.len();
    let mut i: usize = 0;
    proof {
        assert(members@.take(0) =~= Seq::<i64>::empty());
    }
    while i < n
        invariant
            i <= n,
            n == members.len(),
            coords@ == resolved_coords(cache@, members@.take(i as int)),
            gaps@ == missing_ids(cache@, members@.take(i as int)),
        decreases n - i,
    {
        proof {
            assert(members@.take(i as int + 1).drop_last() =~= members@.take(i as int));
            assert(members@.take(i as int + 1).last() == members@[i as int]);
        }
        match cache.get(members[i]) {
            Some(c) => coords.push(c),
            None => gaps.push(members[i]),
        }
        i = i + 1;
    }
    proof {
        assert(members@.take(n as int) =~= members@);
    }
    Resolution { coords, gaps }
}

/// The record phase one emits for a point that passes the filter.
pub open spec fn point_record_v(
    id: i64,
    coord: Coord,
    tags: Seq<(Seq<char>, Seq<char>)>,
) -> GeoRecordV {
    GeoRecordV { id, geometry: GeometryV::Point(coord), properties: group_tags(tags) }
}

/// The record phase two emits for a line that passes the filter: a polygon
/// ring when the member sequence closes on itself, an open chain otherwise,
/// holding exactly the positions the cache yields.
pub open spec fn line_record_v(
    m: Map<i64, Coord>,
    id: i64,
    members: Seq<i64>,
    tags: Seq<(Seq<char>, Seq<char>)>,
) -> GeoRecordV {
    GeoRecordV {
        id,
        geometry: if spec_is_closed(members) {
            GeometryV::Polygon(resolved_coords(m, members))
        } else {
            GeometryV::LineString(resolved_coords(m, members))
        },
        properties: group_tags(tags),
    }
}

/// An emitted record never invents or drops a key: a point record's
/// properties carry exactly the keys of the point's tags.
pub proof fn lemma_point_record_keys(id: i64, coord: Coord, tags: Seq<(Seq<char>, Seq<char>)>)
    ensures
        forall|k: Seq<char>|
            crate::props::group_has_key(point_record_v(id, coord, tags).properties, k)
                <==> crate::props::tags_have_key(tags, k),
{
    crate::props::lemma_group_tags_keys(tags);
}

/// An emitted record never invents or drops a key: a line record's
/// properties carry exactly the keys of the line's tags.
pub proof fn lemma_line_record_keys(
    m: Map<i64, Coord>,
    id: i64,
    members: Seq<i64>,
    tags: Seq<(Seq<char>, Seq<char>)>,
)
    ensures
        forall|k: Seq<char>|
            crate::props::group_has_key(line_record_v(m, id, members, tags).properties, k)
                <==> crate::props::tags_have_key(tags, k),
{
    crate::props::lemma_group_tags_keys(tags);
}

/// The two-phase conversion pipeline.  Phase one collects point positions
/// and emits point records; sealing it is the barrier after which phase two
/// may resolve lines against the completed cache.
pub struct ConversionPipeline {
    filter: Vec<Vec<TagInner>>,
    cache: PointCache,
    collecting: bool,
}

impl ConversionPipeline {
    /// The compiled filter the pipeline applies.
    pub closed spec fn filter_view(&self) -> Seq<Seq<(Seq<char>, Seq<char>)>> {
        self.filter.deep_view()
    }

    /// The point positions cached so far.
    pub closed spec fn cache_view(&self) -> Map<i64, Coord> {
        self.cache@
    }

    /// Whether the pipeline still accepts phase-one input.
    pub closed spec fn in_phase1(&self) -> bool {
        self.collecting
    }

    /// A fresh pipeline in phase one, with an empty cache.
    pub fn new(filter: Vec<Vec<TagInner>>) -> (r: ConversionPipeline)
        ensures
            r.filter_view() == filter.deep_view(),
            r.cache_view() == Map::<i64, Coord>::empty(),
            r.in_phase1(),
    {
        ConversionPipeline { filter, cache: PointCache::new(), collecting: true }
    }

    /// Feeds one element to phase one.  A point's position enters the cache
    /// whether or not it matches, so later lines can resolve it; a point
    /// that passes the filter is emitted at once.  Lines and relations are
    /// not processed in this phase.
    pub fn phase1_step(&mut self, elem: &Element) -> (r: Option<GeoRecord>)
        requires
            old(self).in_phase1(),
        ensures
            final(self).in_phase1(),
            final(self).filter_view() == old(self).filter_view(),
            elem@ matches ElementV::Point { id, coord, tags } ==> {
                &&& final(self).cache_view() == old(self).cache_view().insert(id, coord)
                &&& (filter_matches(tags, old(self).filter_view()) ==> (r matches Some(rec)
                    && rec@ == point_record_v(id, coord, tags)))
                &&& (!filter_matches(tags, old(self).filter_view()) ==> r is None)
            },
            !(elem@ is Point) ==> r is None && final(self).cache_view() == old(self).cache_view(),
    {
        match elem {
            Element::Point { id, coord, tags } => {
                self.cache.put(*id, *coord);
                if matches_filter(&self.filter, tags) {
                    Some(
                        GeoRecord {
                            id: *id,
                            geometry: Geometry::Point(*coord),
                            properties: properties_from_tags(tags),
                        },
                    )
                } else {
                    None
                }
            },
            _ => None,
        }
    }

    /// Ends phase one.  The cache is complete from here on: the hard
    /// sequencing barrier of the pipeline — no line is resolved before
    /// every point of the stream has been cached.
    pub fn seal(&mut self)
        ensures
            !final(self).in_phase1(),
            final(self).cache_view() == old(self).cache_view(),
            final(self).filter_view() == old(self).filter_view(),
    {
        self.collecting = false;
    }

    /// Feeds one element to phase two, which only reads the cache.  A line
    /// that passes the filter is resolved and emitted, with its gaps
    /// reported alongside; everything else yields nothing.  Relations never
    /// produce geometry, by design.
    pub fn phase2_step(&self, elem: &Element) -> (r: (Option<GeoRecord>, Vec<i64>))
        requires
            !self.in_phase1(),
        ensures
            elem@ matches ElementV::Line { id, members, tags } ==> {
                &&& (filter_matches(tags, self.filter_view()) ==> (r.0 matches Some(rec) && rec@
                    == line_record_v(self.cache_view(), id, members, tags) && r.1@ == missing_ids(
                    self.cache_view(),
                    members,
                )))
                &&& (!filter_matches(tags, self.filter_view()) ==> (r.0 is None && r.1@
                    == Seq::<i64>::empty()))
            },
            !(elem@ is Line) ==> r.0 is None && r.1@ == Seq::<i64>::empty(),
    {
        match elem {
            Element::Line { id, members, tags } => {
                if matches_filter(&self.filter, tags) {
                    let resolution = resolve_line(&self.cache, members);
                    let geometry = if is_closed(members) {
                        Geometry::Polygon(resolution.coords)
                    } else {
                        Geometry::LineString(resolution.coords)
                    };
                    (
                        Some(
                            GeoRecord {
                                id: *id,
                                geometry,
                                properties: properties_from_tags(tags),
                            },
                        ),
                        resolution.gaps,
                    )
                } else {
                    (None, Vec::new())
                }
            },
            _ => (None, Vec::new()),
        }
    }
}

/// The cache contents after phase one has seen a whole stream: every
/// point's position, keyed by identifier, later points overwriting earlier
/// ones; filters play no part here.
pub open spec fn cache_after(elems: Seq<ElementV>) -> Map<i64, Coord>
    decreases elems.len(),
{
    if elems.len() == 0 {
        Map::empty()
    } else {
        let m = cache_after(elems.drop_last());
        match elems.last() {
            ElementV::Point { id, coord, .. } => m.insert(id, coord),
            _ => m,
        }
    }
}

/// The records phase one emits over a whole stream: one per matching
/// point, in stream order.
pub open spec fn phase1_records(
    elems: Seq<ElementV>,
    filter: Seq<Seq<(Seq<char>, Seq<char>)>>,
) -> Seq<GeoRecordV>
    decreases elems.len(),
{
    if elems.len() == 0 {
        Seq::empty()
    } else {
        let rest = phase1_records(elems.drop_last(), filter);
        match elems.last() {
            ElementV::Point { id, coord, tags } => if filter_matches(tags, filter) {
                rest.push(point_record_v(id, coord, tags))
            } else {
                rest
            },
            _ => rest,
        }
    }
}

/// The records phase two emits over a whole stream, against a completed
/// cache: one per matching line, in stream order.
pub open spec fn phase2_records(
    m: Map<i64, Coord>,
    elems: Seq<ElementV>,
    filter: Seq<Seq<(Seq<char>, Seq<char>)>>,
) -> Seq<GeoRecordV>
    decreases elems.len(),
{
    if elems.len() == 0 {
        Seq::empty()
    } else {
        let rest = phase2_records(m, elems.drop_last(), filter);
        match elems.last() {
            ElementV::Line { id, members, tags } => if filter_matches(tags, filter) {
                rest.push(line_record_v(m, id, members, tags))
            } else {
                rest
            },
            _ => rest,
        }
    }
}

/// Everything a conversion run emits: the phase-one point records, then the
/// phase-two line records resolved against the cache phase one completed.
pub open spec fn conversion_records(
    elems: Seq<ElementV>,
    filter: Seq<Seq<(Seq<char>, Seq<char>)>>,
) -> Seq<GeoRecordV> {
    phase1_records(elems, filter) + phase2_records(cache_after(elems), elems, filter)
}

/// Phase one caches every point of the stream: after a full pass, each
/// point's identifier has a position in the cache.
pub proof fn lemma_cache_covers_points(elems: Seq<ElementV>, j: int)
    requires
        0 <= j < elems.len(),
        elems[j] is Point,
    ensures
        cache_after(elems).contains_key(elems[j].id()),
    decreases elems.len(),
{
    if j < elems.len() - 1 {
        assert(elems.drop_last()[j] == elems[j]);
        lemma_cache_covers_points(elems.drop_last(), j);
    }
}

/// Only points feed the cache: a cached identifier always names some point
/// of the stream.
pub proof fn lemma_cache_only_points(elems: Seq<ElementV>, x: i64)
    requires
        cache_after(elems).contains_key(x),
    ensures
        exists|j: int| 0 <= j < elems.len() && elems[j] is Point && elems[j].id() == x,
    decreases elems.len(),
{
    if elems.len() != 0 {
        let pre = elems.drop_last();
        match elems.last() {
            ElementV::Point { id, .. } => {
                if id == x {
                    assert(elems[elems.len() - 1] is Point && elems[elems.len() - 1].id() == x);
                } else {
                    lemma_cache_only_points(pre, x);
                    let j = choose|j: int| 0 <= j < pre.len() && pre[j] is Point && pre[j].id()
                        == x;
                    assert(elems[j] is Point && elems[j].id() == x);
                }
            },
            _ => {
                lemma_cache_only_points(pre, x);
                let j = choose|j: int| 0 <= j < pre.len() && pre[j] is Point && pre[j].id() == x;
                assert(elems[j] is Point && elems[j].id() == x);
            },
        }
    }
}

/// The phase barrier pays off: a line member that names a point of the
/// stream always resolves against the completed cache, never a gap; a
/// member that names no point of the stream is always a gap, never a
/// position — and never worse than a gap.
pub proof fn lemma_member_resolution(elems: Seq<ElementV>, members: Seq<i64>, x: i64)
    requires
        members.contains(x),
    ensures
        (exists|j: int| 0 <= j < elems.len() && elems[j] is Point && elems[j].id() == x)
            ==> !missing_ids(cache_after(elems), members).contains(x),
        (forall|j: int| 0 <= j < elems.len() ==> !(elems[j] is Point && elems[j].id() == x))
            ==> missing_ids(cache_after(elems), members).contains(x),
{
    let m = cache_after(elems);
    lemma_missing_iff(m, members, x);
    if exists|j: int| 0 <= j < elems.len() && elems[j] is Point && elems[j].id() == x {
        let j = choose|j: int| 0 <= j < elems.len() && elems[j] is Point && elems[j].id() == x;
        lemma_cache_covers_points(elems, j);
    }
    if !m.contains_key(x) {
    } else {
        lemma_cache_only_points(elems, x);
    }
}

/// Converts a whole element stream: phase one over every element, the
/// barrier, then phase two over every element, emitting in encounter order
/// within each phase.  Records dropped members only as gaps inside the
/// steps; the stream of records is returned in full.
pub fn do_to_ndjson(elements: &Vec<Element>, filter: Vec<Vec<TagInner>>) -> (out: Vec<GeoRecord>)
    ensures
        out.deep_view() == conversion_records(elements.deep_view(), filter.deep_view()),
{
    let ghost ev = elements.deep_view();
    let ghost fv = filter.deep_view();
    let mut pipe = ConversionPipeline::new(filter);
    let mut out: Vec<GeoRecord> = Vec::new();
    let n = elements.len();
    let mut i: usize = 0;
    proof {
        assert(ev.take(0) =~= Seq::<ElementV>::empty());
        assert(out.deep_view() =~~= phase1_records(ev.take(0), fv));
    }
    while i < n
        invariant
            i <= n,
            n == elements.len(),
            ev == elements.deep_view(),
            pipe.in_phase1(),
            pipe.filter_view() == fv,
            pipe.cache_view() == cache_after(ev.take(i as int)),
            out.deep_view() == phase1_records(ev.take(i as int), fv),
        decreases n - i,
    {
        proof {
            assert(ev.take(i as int + 1).drop_last() =~= ev.take(i as int));
            assert(ev.take(i as int + 1).last() == ev[i as int]);
            assert(elements[i as int]@ == ev[i as int]);
        }
        let ghost old_out = out.deep_view();
        match pipe.phase1_step(&elements[i]) {
            Some(rec) => {
                out.push(rec);
                proof {
                    assert(out.deep_view() =~~= old_out.push(out@.last()@));
                    assert(out.deep_view() =~~= phase1_records(ev.take(i as int + 1), fv));
                }
            },
            None => {
                proof {
                    assert(out.deep_view() =~~= phase1_records(ev.take(i as int + 1), fv));
                }
            },
        }
        i = i + 1;
    }
    pipe.seal();
    proof {
        assert(ev.take(n as int) =~= ev);
    }
    let ghost cache_full = pipe.cache_view();
    let mut i: usize = 0;
    proof {
        assert(phase2_records(cache_full, ev.take(0), fv) =~~= Seq::<GeoRecordV>::empty());
        assert(out.deep_view() =~~= phase1_records(ev, fv) + phase2_records(
            cache_full,
            ev.take(0),
            fv,
        ));
    }
    while i < n
        invariant
            i <= n,
            n == elements.len(),
            ev == elements.deep_view(),
            !pipe.in_phase1(),
            pipe.filter_view() == fv,
            pipe.cache_view() == cache_full,
            cache_full == cache_after(ev),
            out.deep_view() == phase1_records(ev, fv) + phase2_records(
                cache_full,
                ev.take(i as int),
                fv,
            ),
        decreases n - i,
    {
        proof {
            assert(ev.take(i as int + 1).drop_last() =~= ev.take(i as int));
            assert(ev.take(i as int + 1).last() == ev[i as int]);
            assert(elements[i as int]@ == ev[i as int]);
        }
        let ghost old_out = out.deep_view();
        let step = pipe.phase2_step(&elements[i]);
        match step.0 {
            Some(rec) => {
                out.push(rec);
                proof {
                    assert(out.deep_view() =~~= old_out.push(out@.last()@));
                    assert(out.deep_view() =~~= phase1_records(ev, fv) + phase2_records(
                        cache_full,
                        ev.take(i as int + 1),
                        fv,
                    ));
                }
            },
            None => {
                proof {
                    assert(out.deep_view() =~~= phase1_records(ev, fv) + phase2_records(
                        cache_full,
                        ev.take(i as int + 1),
                        fv,
                    ));
                }
            },
        }
        i = i + 1;
    }
    proof {
        assert(ev.take(n as int) =~= ev);
    }
    out
}

} // verus!
