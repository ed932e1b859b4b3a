use osm_pbf::counter::Counter;
use osm_pbf::keys::Long;
use osm_pbf::props::properties_from_tags;
use osm_pbf::tags::TagInner;

fn tag(k: &str, v: &str) -> TagInner {
    TagInner(k.to_string(), v.to_string())
}

#[test]
fn recording_a_key_k_times_counts_k() {
    let mut c = Counter::new();
    for _ in 0..5 {
        c.insert("amenity=bar".to_string()).unwrap();
    }
    let top = c.top_n(1);
    assert_eq!(top, vec![("amenity=bar".to_string(), 5)]);
}

#[test]
fn top_n_of_zero_is_empty() {
    let mut c = Counter::new();
    c.insert("a=1".to_string()).unwrap();
    assert_eq!(c.top_n(0), vec![]);
}

#[test]
fn top_n_on_an_empty_counter_is_empty() {
    let c = Counter::new();
    assert_eq!(c.top_n(10), vec![]);
}

#[test]
fn top_n_covering_all_keys_sorts_descending() {
    let mut c = Counter::new();
    for _ in 0..2 {
        c.insert("a=1".to_string()).unwrap();
    }
    for _ in 0..3 {
        c.insert("b=2".to_string()).unwrap();
    }
    c.insert("c=3".to_string()).unwrap();
    let top = c.top_n(10);
    assert_eq!(
        top,
        vec![
            ("b=2".to_string(), 3),
            ("a=1".to_string(), 2),
            ("c=3".to_string(), 1)
        ]
    );
}

#[test]
fn top_n_cuts_to_n_entries() {
    let mut c = Counter::new();
    c.insert("a=1".to_string()).unwrap();
    c.insert("b=2".to_string()).unwrap();
    c.insert("b=2".to_string()).unwrap();
    assert_eq!(c.top_n(1), vec![("b=2".to_string(), 2)]);
}

#[test]
fn equal_counts_order_by_key() {
    let mut c = Counter::new();
    c.insert("b=2".to_string()).unwrap();
    c.insert("a=1".to_string()).unwrap();
    assert_eq!(
        c.top_n(2),
        vec![("a=1".to_string(), 1), ("b=2".to_string(), 1)]
    );
}

#[test]
fn top_n_does_not_change_the_counter() {
    let mut c = Counter::new();
    c.insert("a=1".to_string()).unwrap();
    let first = c.top_n(5);
    let second = c.top_n(5);
    assert_eq!(first, second);
    assert_eq!(first, vec![("a=1".to_string(), 1)]);
}

#[test]
fn long_key_round_trips_through_bytes() {
    for v in [0i64, 1, -1, 42, i64::MIN, i64::MAX, -8_589_934_592] {
        let l = Long(v);
        let bytes = l.be_bytes();
        assert_eq!(bytes.len(), 8);
        assert_eq!(Long::from_u8(bytes.as_slice()), l);
    }
}

#[test]
fn long_bytes_are_big_endian() {
    let bytes = Long(1).be_bytes();
    assert_eq!(bytes, vec![0, 0, 0, 0, 0, 0, 0, 1]);
    assert_eq!(Long::from_u8(&[0, 0, 0, 0, 0, 0, 1, 0]), Long(256));
}

#[test]
fn properties_group_repeated_keys_into_arrays() {
    let tags = vec![tag("a", "1"), tag("b", "2"), tag("a", "3")];
    let props = properties_from_tags(&tags);
    assert_eq!(props.len(), 2);
    assert_eq!(props[0].key, "a");
    assert_eq!(props[0].values, vec!["1".to_string(), "3".to_string()]);
    assert_eq!(props[1].key, "b");
    assert_eq!(props[1].values, vec!["2".to_string()]);
}

#[test]
fn properties_keep_exactly_the_tag_keys() {
    let tags = vec![tag("name", "x"), tag("amenity", "bar")];
    let props = properties_from_tags(&tags);
    let keys: Vec<&str> = props.iter().map(|p| p.key.as_str()).collect();
    assert_eq!(keys, vec!["name", "amenity"]);
    for p in &props {
        assert_eq!(p.values.len(), 1);
    }
}
