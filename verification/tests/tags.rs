use osm_pbf::tags::{matches_filter, split_tags, ParseError, TagInner};

fn tag(k: &str, v: &str) -> TagInner {
    TagInner(k.to_string(), v.to_string())
}

#[test]
fn tags_and_with_or() {
    assert_eq!(
        split_tags("amenity=bar+addr:city=Dresden,amenity=bar+addr:city=Berlin"),
        Ok(vec![
            vec![
                TagInner("amenity".to_string(), "bar".to_string()),
                TagInner("addr:city".to_string(), "Dresden".to_string())
            ],
            vec![
                TagInner("amenity".to_string(), "bar".to_string()),
                TagInner("addr:city".to_string(), "Berlin".to_string())
            ]
        ])
    );
}

#[test]
fn single_token_without_equals_is_its_own_key_and_value() {
    assert_eq!(split_tags("k"), Ok(vec![vec![tag("k", "k")]]));
}

#[test]
fn value_keeps_everything_after_first_equals() {
    assert_eq!(split_tags("a=b=c"), Ok(vec![vec![tag("a", "b=c")]]));
}

#[test]
fn empty_expression_is_missing_key() {
    assert_eq!(split_tags(""), Err(ParseError::MissingKey));
}

#[test]
fn empty_pair_token_is_missing_key() {
    assert_eq!(split_tags("a=b+"), Err(ParseError::MissingKey));
    assert_eq!(split_tags("a=b,,c=d"), Err(ParseError::MissingKey));
}

#[test]
fn key_and_value_accessors() {
    let t = tag("amenity", "bar");
    assert_eq!(t.key(), "amenity");
    assert_eq!(t.value(), "bar");
}

#[test]
fn empty_filter_matches_everything() {
    let filter: Vec<Vec<TagInner>> = vec![];
    assert!(matches_filter(&filter, &vec![]));
    assert!(matches_filter(&filter, &vec![tag("amenity", "bar")]));
}

#[test]
fn clause_is_a_conjunction_and_clauses_a_disjunction() {
    let filter = split_tags("amenity=bar+addr:city=Dresden,amenity=pub").unwrap();
    let both = vec![tag("amenity", "bar"), tag("addr:city", "Dresden")];
    let only_bar = vec![tag("amenity", "bar"), tag("addr:city", "Berlin")];
    let pub_tag = vec![tag("amenity", "pub")];
    assert!(matches_filter(&filter, &both));
    assert!(!matches_filter(&filter, &only_bar));
    assert!(matches_filter(&filter, &pub_tag));
    assert!(!matches_filter(&filter, &vec![]));
}

#[test]
fn matching_is_exact_string_equality() {
    let filter = split_tags("amenity=bar").unwrap();
    assert!(!matches_filter(&filter, &vec![tag("amenity", "Bar")]));
    assert!(!matches_filter(&filter, &vec![tag("Amenity", "bar")]));
    assert!(matches_filter(&filter, &vec![tag("amenity", "bar")]));
}
