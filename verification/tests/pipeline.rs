use osm_pbf::cache::PointCache;
use osm_pbf::convert::{do_to_ndjson, resolve_line, ConversionPipeline, Geometry};
use osm_pbf::count::do_count;
use osm_pbf::elements::{Coord, Element};
use osm_pbf::tags::{split_tags, TagInner};

fn tag(k: &str, v: &str) -> TagInner {
    TagInner(k.to_string(), v.to_string())
}

fn coord(n: u64) -> Coord {
    Coord { lon_bits: n, lat_bits: n + 1 }
}

fn point(id: i64, tags: Vec<TagInner>) -> Element {
    Element::Point { id, coord: coord(id as u64 * 10), tags }
}

fn line(id: i64, members: Vec<i64>, tags: Vec<TagInner>) -> Element {
    Element::Line { id, members, tags }
}

#[test]
fn resolver_skips_missing_members_and_reports_them() {
    let mut cache = PointCache::new();
    cache.put(1, coord(10));
    cache.put(3, coord(30));
    let outcome = resolve_line(&cache, &vec![1, 2, 3]);
    assert_eq!(outcome.coords, vec![coord(10), coord(30)]);
    assert_eq!(outcome.gaps, vec![2]);
}

#[test]
fn cache_lookup_is_last_write_wins() {
    let mut cache = PointCache::new();
    cache.put(7, coord(1));
    cache.put(7, coord(2));
    assert_eq!(cache.get(7), Some(coord(2)));
    assert_eq!(cache.get(8), None);
}

#[test]
fn point_cached_in_phase_one_always_resolves() {
    let elements = vec![
        point(1, vec![tag("amenity", "bar")]),
        line(10, vec![1, 1], vec![tag("highway", "residential")]),
    ];
    let records = do_to_ndjson(&elements, vec![]);
    assert_eq!(records.len(), 2);
    assert_eq!(records[0].id, 1);
    assert!(matches!(records[0].geometry, Geometry::Point(c) if c == coord(10)));
    assert_eq!(records[1].id, 10);
    match &records[1].geometry {
        Geometry::Polygon(coords) => assert_eq!(*coords, vec![coord(10), coord(10)]),
        _ => panic!("a line closing on itself becomes a polygon"),
    }
}

#[test]
fn member_never_present_is_a_gap_not_a_crash() {
    let mut pipe = ConversionPipeline::new(vec![]);
    pipe.phase1_step(&point(1, vec![]));
    pipe.seal();
    let (record, gaps) = pipe.phase2_step(&line(10, vec![1, 99], vec![]));
    let record = record.unwrap();
    assert_eq!(record.id, 10);
    match &record.geometry {
        Geometry::LineString(coords) => assert_eq!(*coords, vec![coord(10)]),
        _ => panic!("an open line becomes a line string"),
    }
    assert_eq!(gaps, vec![99]);
}

#[test]
fn point_is_cached_even_when_the_filter_rejects_it() {
    let filter = split_tags("amenity=bar").unwrap();
    let elements = vec![
        point(1, vec![tag("highway", "crossing")]),
        line(10, vec![1, 2], vec![tag("amenity", "bar")]),
    ];
    let records = do_to_ndjson(&elements, filter);
    assert_eq!(records.len(), 1);
    assert_eq!(records[0].id, 10);
    match &records[0].geometry {
        Geometry::LineString(coords) => assert_eq!(*coords, vec![coord(10)]),
        _ => panic!("an open line becomes a line string"),
    }
}

#[test]
fn polygon_is_not_reclosed_when_members_drop() {
    let elements = vec![
        point(1, vec![]),
        line(10, vec![2, 1, 2], vec![tag("area", "yes")]),
    ];
    let records = do_to_ndjson(&elements, vec![]);
    assert_eq!(records.len(), 2);
    match &records[1].geometry {
        Geometry::Polygon(coords) => assert_eq!(*coords, vec![coord(10)]),
        _ => panic!("a closed member sequence stays a polygon"),
    }
}

#[test]
fn relations_never_produce_geometry() {
    let elements = vec![
        Element::Relation { id: 5, tags: vec![tag("type", "route")] },
        point(1, vec![tag("type", "route")]),
    ];
    let records = do_to_ndjson(&elements, vec![]);
    assert_eq!(records.len(), 1);
    assert_eq!(records[0].id, 1);
}

#[test]
fn emitted_properties_carry_exactly_the_tags() {
    let elements = vec![point(1, vec![tag("name", "x"), tag("amenity", "bar")])];
    let records = do_to_ndjson(&elements, vec![]);
    assert_eq!(records.len(), 1);
    let keys: Vec<&str> = records[0].properties.iter().map(|p| p.key.as_str()).collect();
    assert_eq!(keys, vec!["name", "amenity"]);
    assert_eq!(records[0].properties[0].values, vec!["x".to_string()]);
    assert_eq!(records[0].properties[1].values, vec!["bar".to_string()]);
}

#[test]
fn counting_classifies_and_reports_top_tags() {
    let elements = vec![
        point(1, vec![tag("amenity", "bar")]),
        point(2, vec![tag("amenity", "bar"), tag("name", "x")]),
        line(10, vec![1, 2], vec![tag("highway", "residential")]),
        line(11, vec![1, 2, 1], vec![tag("building", "yes")]),
        Element::Relation { id: 20, tags: vec![tag("type", "route")] },
    ];
    let (summary, top) = do_count(&elements, vec![], 10).unwrap();
    assert_eq!(summary.point_count, 2);
    assert_eq!(summary.open_line_count, 1);
    assert_eq!(summary.closed_line_count, 1);
    assert_eq!(summary.relation_count, 1);
    assert_eq!(top[0], ("amenity=bar".to_string(), 2));
    assert_eq!(top.len(), 5);
}

#[test]
fn counting_with_a_filter_ignores_failing_elements() {
    let filter = split_tags("amenity=bar").unwrap();
    let elements = vec![
        point(1, vec![tag("amenity", "bar"), tag("name", "x")]),
        point(2, vec![tag("amenity", "cafe")]),
        line(10, vec![1, 2], vec![tag("highway", "residential")]),
    ];
    let (summary, top) = do_count(&elements, filter, 10).unwrap();
    assert_eq!(summary.point_count, 1);
    assert_eq!(summary.open_line_count, 0);
    assert_eq!(summary.closed_line_count, 0);
    assert_eq!(summary.relation_count, 0);
    // every tag of the matching element is recorded, not only the matched pair
    assert_eq!(
        top,
        vec![("amenity=bar".to_string(), 1), ("name=x".to_string(), 1)]
    );
}

#[test]
fn counting_twice_yields_identical_results() {
    let elements = vec![
        point(1, vec![tag("amenity", "bar")]),
        line(10, vec![1, 1], vec![tag("building", "yes")]),
    ];
    let filter = split_tags("amenity=bar,building=yes").unwrap();
    let first = do_count(&elements, filter.clone(), 10).unwrap();
    let second = do_count(&elements, filter, 10).unwrap();
    assert_eq!(first.0, second.0);
    assert_eq!(first.1, second.1);
}

#[test]
fn conversion_twice_yields_identical_records() {
    let elements = vec![point(1, vec![tag("a", "1")]), line(10, vec![1], vec![tag("b", "2")])];
    let first = do_to_ndjson(&elements, vec![]);
    let second = do_to_ndjson(&elements, vec![]);
    assert_eq!(first.len(), second.len());
    for (a, b) in first.iter().zip(second.iter()) {
        assert_eq!(a.id, b.id);
    }
}
