//! The counting pipeline: one pass over the element stream, classifying
//! every element that passes the filter (point, open line, closed line,
//! relation) and recording each of its tags — all of them, not only the
//! pairs a clause asked for — as a `key=value` token in a frequency
//! counter.  Elements failing the filter are ignored entirely.  The run
//! ends in the four counts and the top-N tag report.

use vstd::prelude::*;

use crate::counter::{
    count_of, counts_descending, record_one, spec_top_n, Counter, CounterError,
};
use crate::elements::{is_closed, spec_is_closed, Element, ElementV};
use crate::tags::{filter_matches, matches_filter, TagInner};

verus! {

/// The four stream counts of one run.
#[derive(Clone, Copy, PartialEq, Eq, Structural, Debug)]
pub struct Summary {
    pub point_count: u64,
    pub open_line_count: u64,
    pub closed_line_count: u64,
    pub relation_count: u64,
}

/// The `key=value` token recorded for one tag.
pub open spec fn tag_token(t: (Seq<char>, Seq<char>)) -> Seq<char> {
    t.0 + seq!['='] + t.1
}

/// The counter entries after recording every tag of one element, first to
/// last; nothing when some count would outgrow its representation.
pub open spec fn record_tags(
    s: Seq<(Seq<char>, u64)>,
    tags: Seq<(Seq<char>, Seq<char>)>,
) -> Option<Seq<(Seq<char>, u64)>>
    decreases tags.len(),
{
    if tags.len() == 0 {
        Some(s)
    } else {
        match record_tags(s, tags.drop_last()) {
            Some(s2) => if count_of(s2, tag_token(tags.last())) < u64::MAX {
                Some(record_one(s2, tag_token(tags.last())))
            } else {
                None
            },
            None => None,
        }
    }
}

proof fn lemma_record_tags_none_extends(
    s: Seq<(Seq<char>, u64)>,
    tags: Seq<(Seq<char>, Seq<char>)>,
    j: int,
)
    requires
        0 <= j <= tags.len(),
        record_tags(s, tags.take(j)) is None,
    ensures
        record_tags(s, tags) is None,
    decreases tags.len() - j,
{
    if j < tags.len() {
        assert(tags.take(j + 1).drop_last() =~= tags.take(j));
        lemma_record_tags_none_extends(s, tags, j + 1);
    } else {
        assert(tags.take(j) =~= tags);
    }
}

/// The summary counts over a whole stream, as unbounded integers: points,
/// open lines, closed lines and relations that pass the filter, in this
/// component order.
pub open spec fn spec_counts(
    elems: Seq<ElementV>,
    filter: Seq<Seq<(Seq<char>, Seq<char>)>>,
) -> (int, int, int, int)
    decreases elems.len(),
{
    if elems.len() == 0 {
        (0int, 0int, 0int, 0int)
    } else {
        let c = spec_counts(elems.drop_last(), filter);
        let e = elems.last();
        if !filter_matches(e.tags(), filter) {
            c
        } else {
            match e {
                ElementV::Point { .. } => (c.0 + 1, c.1, c.2, c.3),
                ElementV::Line { members, .. } => if spec_is_closed(members) {
                    (c.0, c.1, c.2 + 1, c.3)
                } else {
                    (c.0, c.1 + 1, c.2, c.3)
                },
                ElementV::Relation { .. } => (c.0, c.1, c.2, c.3 + 1),
            }
        }
    }
}

/// The counter entries over a whole stream: every tag of every matching
/// element, recorded in stream order; nothing once a count would overflow.
pub open spec fn spec_entries(
    elems: Seq<ElementV>,
    filter: Seq<Seq<(Seq<char>, Seq<char>)>>,
) -> Option<Seq<(Seq<char>, u64)>>
    decreases elems.len(),
{
    if elems.len() == 0 {
        Some(Seq::empty())
    } else {
        match spec_entries(elems.drop_last(), filter) {
            Some(s) => if filter_matches(elems.last().tags(), filter) {
                record_tags(s, elems.last().tags())
            } else {
                Some(s)
            },
            None => None,
        }
    }
}

proof fn lemma_spec_entries_none_extends(
    elems: Seq<ElementV>,
    filter: Seq<Seq<(Seq<char>, Seq<char>)>>,
    j: int,
)
    requires
        0 <= j <= elems.len(),
        spec_entries(elems.take(j), filter) is None,
    ensures
        spec_entries(elems, filter) is None,
    decreases elems.len() - j,
{
    if j < elems.len() {
        assert(elems.take(j + 1).drop_last() =~= elems.take(j));
        lemma_spec_entries_none_extends(elems, filter, j + 1);
    } else {
        assert(elems.take(j) =~= elems);
    }
}

/// The one count a matching element raises.
pub open spec fn spec_bump(s: Summary, e: ElementV) -> Summary {
    match e {
        ElementV::Point { .. } => Summary { point_count: (s.point_count + 1) as u64, ..s },
        ElementV::Line { members, .. } => if spec_is_closed(members) {
            Summary { closed_line_count: (s.closed_line_count + 1) as u64, ..s }
        } else {
            Summary { open_line_count: (s.open_line_count + 1) as u64, ..s }
        },
        ElementV::Relation { .. } => Summary { relation_count: (s.relation_count + 1) as u64, ..s },
    }
}

/// The `key=value` token of one tag.
fn make_token(t: &TagInner) -> (r: String)
    ensures
        r@ == tag_token(t@),
{
    let mut s = t.0.clone();
    s.append("=");
    s.append(t.1.as_str());
    proof {
        reveal_strlit("=");
        assert("="@ =~= seq!['=']);
    }
    s
}

/// One counting run in progress: the filter it applies, the counts so far,
/// and the tag-frequency counter it feeds.
pub struct CountingPipeline {
    filter: Vec<Vec<TagInner>>,
    summary: Summary,
    counter: Counter,
}

impl CountingPipeline {
    /// The compiled filter the run applies.
    pub closed spec fn filter_view(&self) -> Seq<Seq<(Seq<char>, Seq<char>)>> {
        self.filter.deep_view()
    }

    /// The counts so far.
    pub closed spec fn summary(&self) -> Summary {
        self.summary
    }

    /// The counter entries so far.
    pub closed spec fn entries(&self) -> Seq<(Seq<char>, u64)> {
        self.counter@
    }

    pub closed spec fn wf(&self) -> bool {
        self.counter.wf()
    }

    /// A fresh run: nothing counted, nothing recorded.
    pub fn new(filter: Vec<Vec<TagInner>>) -> (r: CountingPipeline)
        ensures
            r.wf(),
            r.filter_view() == filter.deep_view(),
            r.summary() == (Summary {
                point_count: 0,
                open_line_count: 0,
                closed_line_count: 0,
                relation_count: 0,
            }),
            r.entries() == Seq::<(Seq<char>, u64)>::empty(),
    {
        CountingPipeline {
            filter,
            summary: Summary {
                point_count: 0,
                open_line_count: 0,
                closed_line_count: 0,
                relation_count: 0,
            },
            counter: Counter::new(),
        }
    }

    /// Feeds one element to the run.  An element failing the filter changes
    /// nothing; a matching one raises its class's count and has every one
    /// of its tags recorded.  Fails only when a tag's count can no longer
    /// be represented — counts stay exact, so the run is abandoned there.
    pub fn step(&mut self, elem: &Element) -> (r: Result<(), CounterError>)
        requires
            old(self).wf(),
            old(self).summary().point_count < u64::MAX,
            old(self).summary().open_line_count < u64::MAX,
            old(self).summary().closed_line_count < u64::MAX,
            old(self).summary().relation_count < u64::MAX,
        ensures
            final(self).wf(),
            final(self).filter_view() == old(self).filter_view(),
            !filter_matches(elem@.tags(), old(self).filter_view()) ==> r is Ok
                && final(self).summary() == old(self).summary()
                && final(self).entries() == old(self).entries(),
            filter_matches(elem@.tags(), old(self).filter_view()) ==> {
                &&& final(self).summary() == spec_bump(old(self).summary(), elem@)
                &&& (record_tags(old(self).entries(), elem@.tags()) matches Some(s) ==> (r is Ok
                    && final(self).entries() == s))
                &&& (record_tags(old(self).entries(), elem@.tags()) is None ==> r == Err::<
                    (),
                    CounterError,
                >(CounterError::Overflow))
            },
    {
        let tags = elem.tags();
        if !matches_filter(&self.filter, tags) {
            return Ok(());
        }
        match elem {
            Element::Point { .. } => {
                self.summary.point_count = self.summary.point_count + 1;
            },
            Element::Line { members, .. } => {
                if is_closed(members) {
                    self.summary.closed_line_count = self.summary.closed_line_count + 1;
                } else {
                    self.summary.open_line_count = self.summary.open_line_count + 1;
                }
            },
            Element::Relation { .. } => {
                self.summary.relation_count = self.summary.relation_count + 1;
            },
        }
        let ghost tags_v = elem@.tags();
        proof {
            assert(tags_v.take(0) =~= Seq::<(Seq<char>, Seq<char>)>::empty());
        }
        let n = tags.len();
        let mut i: usize = 0;
        while i < n
            invariant
                i <= n,
                n == tags.len(),
                tags_v == elem@.tags(),
                tags.deep_view() == tags_v,
                self.counter.wf(),
                self.filter_view() == old(self).filter_view(),
                self.summary() == spec_bump(old(self).summary(), elem@),
                filter_matches(elem@.tags(), old(self).filter_view()),
                record_tags(old(self).entries(), tags_v.take(i as int)) == Some(self.counter@),
            decreases n - i,
        {
            proof {
                assert(tags_v.take(i as int + 1).drop_last() =~= tags_v.take(i as int));
                assert(tags_v.take(i as int + 1).last() == tags_v[i as int]);
                assert(tags_v[i as int] == tags[i as int]@);
            }
            let token = make_token(&tags[i]);
            let ghost before = self.counter@;
            match self.counter.insert(token) {
                Ok(()) => {
                    proof {
                        assert(record_tags(old(self).entries(), tags_v.take(i as int + 1))
                            == Some(self.counter@));
                    }
                },
                Err(e) => {
                    proof {
                        assert(count_of(before, tag_token(tags_v[i as int])) == u64::MAX);
                        assert(record_tags(old(self).entries(), tags_v.take(i as int + 1))
                            is None);
                        lemma_record_tags_none_extends(old(self).entries(), tags_v, i as int + 1);
                    }
                    return Err(e);
                },
            }
            i = i + 1;
        }
        proof {
            assert(tags_v.take(n as int) =~= tags_v);
        }
        Ok(())
    }

    /// The run's results: the four counts and the top-`n` tag report.
    pub fn results(&self, n: usize) -> (r: (Summary, Vec<(String, u64)>))
        requires
            self.wf(),
        ensures
            r.0 == self.summary(),
            r.1.deep_view() == spec_top_n(self.entries(), n as int),
            counts_descending(r.1.deep_view()),
    {
        (self.summary, self.counter.top_n(n))
    }
}

/// Counts a whole element stream under a filter: the four summary counts
/// and the top-`n` tag report.  Fails only when some tag's count can no
/// longer be represented exactly.
pub fn do_count(elements: &Vec<Element>, filter: Vec<Vec<TagInner>>, n: usize) -> (r: Result<
    (Summary, Vec<(String, u64)>),
    CounterError,
>)
    ensures
        spec_entries(elements.deep_view(), filter.deep_view()) matches Some(entries) ==> (
        r matches Ok(rep) && {
            let c = spec_counts(elements.deep_view(), filter.deep_view());
            &&& rep.0.point_count == c.0
            &&& rep.0.open_line_count == c.1
            &&& rep.0.closed_line_count == c.2
            &&& rep.0.relation_count == c.3
            &&& rep.1.deep_view() == spec_top_n(entries, n as int)
            &&& counts_descending(rep.1.deep_view())
        }),
        spec_entries(elements.deep_view(), filter.deep_view()) is None ==> r == Err::<
            (Summary, Vec<(String, u64)>),
            CounterError,
        >(CounterError::Overflow),
{
    let mut pipe = CountingPipeline::new(filter);
    match run_counting(&mut pipe, elements) {
        Ok(()) => Ok(pipe.results(n)),
        Err(e) => Err(e),
    }
}

/// Feeds a whole stream to a fresh counting run, element by element.
fn run_counting(pipe: &mut CountingPipeline, elements: &Vec<Element>) -> (r: Result<
    (),
    CounterError,
>)
    requires
        old(pipe).wf(),
        old(pipe).summary() == (Summary {
            point_count: 0,
            open_line_count: 0,
            closed_line_count: 0,
            relation_count: 0,
        }),
        old(pipe).entries() == Seq::<(Seq<char>, u64)>::empty(),
    ensures
        final(pipe).wf(),
        final(pipe).filter_view() == old(pipe).filter_view(),
        spec_entries(elements.deep_view(), old(pipe).filter_view()) matches Some(entries) ==> ({
            &&& r is Ok
            &&& final(pipe).entries() == entries
            &&& final(pipe).summary().point_count == spec_counts(
                elements.deep_view(),
                old(pipe).filter_view(),
            ).0
            &&& final(pipe).summary().open_line_count == spec_counts(
                elements.deep_view(),
                old(pipe).filter_view(),
            ).1
            &&& final(pipe).summary().closed_line_count == spec_counts(
                elements.deep_view(),
                old(pipe).filter_view(),
            ).2
            &&& final(pipe).summary().relation_count == spec_counts(
                elements.deep_view(),
                old(pipe).filter_view(),
            ).3
        }),
        spec_entries(elements.deep_view(), old(pipe).filter_view()) is None ==> r == Err::<
            (),
            CounterError,
        >(CounterError::Overflow),
{
    let ghost ev = elements.deep_view();
    let ghost fv = old(pipe).filter_view();
    let m = elements.len();
    let mut i: usize = 0;
    proof {
        assert(ev.take(0) =~= Seq::<ElementV>::empty());
    }
    while i < m
        invariant
            i <= m,
            m == elements.len(),
            ev == elements.deep_view(),
            fv == old(pipe).filter_view(),
            pipe.wf(),
            pipe.filter_view() == fv,
            spec_entries(ev.take(i as int), fv) == Some(pipe.entries()),
            pipe.summary().point_count == spec_counts(ev.take(i as int), fv).0,
            pipe.summary().open_line_count == spec_counts(ev.take(i as int), fv).1,
            pipe.summary().closed_line_count == spec_counts(ev.take(i as int), fv).2,
            pipe.summary().relation_count == spec_counts(ev.take(i as int), fv).3,
            pipe.summary().point_count <= i,
            pipe.summary().open_line_count <= i,
            pipe.summary().closed_line_count <= i,
            pipe.summary().relation_count <= i,
        decreases m - i,
    {
        proof {
            assert(ev.take(i as int + 1).drop_last() =~= ev.take(i as int));
            assert(ev.take(i as int + 1).last() == ev[i as int]);
            assert(elements[i as int]@ == ev[i as int]);
        }
        match pipe.step(&elements[i]) {
            Ok(()) => {},
            Err(e) => {
                proof {
                    assert(spec_entries(ev.take(i as int + 1), fv) is None);
                    lemma_spec_entries_none_extends(ev, fv, i as int + 1);
                }
                return Err(e);
            },
        }
        i = i + 1;
    }
    proof {
        assert(ev.take(m as int) =~= ev);
    }
    Ok(())
}

/// Counting is a function of the stream and the filter alone: any two runs
/// whose results satisfy the counting contract over the same input agree
/// on every count and on the whole top-`n` report — running the pipeline
/// twice changes nothing.
pub proof fn lemma_counting_deterministic(
    elems: Seq<ElementV>,
    filter: Seq<Seq<(Seq<char>, Seq<char>)>>,
    n: int,
    s1: Summary,
    t1: Seq<(Seq<char>, u64)>,
    s2: Summary,
    t2: Seq<(Seq<char>, u64)>,
)
    requires
        spec_entries(elems, filter) is Some,
        s1.point_count == spec_counts(elems, filter).0,
        s1.open_line_count == spec_counts(elems, filter).1,
        s1.closed_line_count == spec_counts(elems, filter).2,
        s1.relation_count == spec_counts(elems, filter).3,
        t1 == spec_top_n(spec_entries(elems, filter).unwrap(), n),
        s2.point_count == spec_counts(elems, filter).0,
        s2.open_line_count == spec_counts(elems, filter).1,
        s2.closed_line_count == spec_counts(elems, filter).2,
        s2.relation_count == spec_counts(elems, filter).3,
        t2 == spec_top_n(spec_entries(elems, filter).unwrap(), n),
    ensures
        s1 == s2,
        t1 == t2,
{
}

} // verus!
