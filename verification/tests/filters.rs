use qdrant::filter::{text_contains, Condition, Filter};
use qdrant::payload::{Field, GeoPoint, Payload, Value};

fn text(s: &str) -> String {
    s.to_string()
}

fn field(key: &str, value: Value) -> Field {
    Field { key: text(key), value }
}

fn sample() -> Payload {
    Payload {
        fields: vec![
            field("city", Value::Text(text("Berlin"))),
            field("count", Value::Integer(7)),
            field("open", Value::Bool(true)),
            field("place", Value::Geo(GeoPoint { x: 10, y: -20 })),
            field("sizes", Value::Integers(vec![1, 5, 9])),
            field("tags", Value::Texts(vec![text("red"), text("dark green")])),
            field("count", Value::Integer(99)),
        ],
    }
}

fn must(c: Condition) -> Filter {
    Filter { must: vec![c], should: vec![], must_not: vec![] }
}

#[test]
fn first_field_of_a_name_counts() {
    let p = sample();
    assert_eq!(p.get(&text("count")), Some(&Value::Integer(7)));
    assert_eq!(p.get(&text("city")), Some(&Value::Text(text("Berlin"))));
    assert_eq!(p.get(&text("nothing")), None);
    assert_eq!(Payload::new().get(&text("count")), None);
}

#[test]
fn duplicate_is_equal() {
    let p = sample();
    assert_eq!(p.duplicate(), p);
    assert_eq!(Payload::new().duplicate(), Payload::new());
}

#[test]
fn empty_filter_matches_everything() {
    assert!(Filter::all().matches(&sample()));
    assert!(Filter::all().matches(&Payload::new()));
    assert!(Filter::all().validate());
}

#[test]
fn match_compares_scalars() {
    let p = sample();
    assert!(Condition::Match { key: text("city"), value: Value::Text(text("Berlin")) }.matches(&p));
    assert!(!Condition::Match { key: text("city"), value: Value::Text(text("berlin")) }.matches(&p));
    assert!(Condition::Match { key: text("count"), value: Value::Integer(7) }.matches(&p));
    assert!(!Condition::Match { key: text("count"), value: Value::Integer(99) }.matches(&p));
    assert!(Condition::Match { key: text("open"), value: Value::Bool(true) }.matches(&p));
    assert!(!Condition::Match { key: text("open"), value: Value::Bool(false) }.matches(&p));
    assert!(!Condition::Match { key: text("open"), value: Value::Integer(1) }.matches(&p));
    assert!(!Condition::Match { key: text("absent"), value: Value::Integer(1) }.matches(&p));
}

#[test]
fn match_looks_into_arrays() {
    let p = sample();
    assert!(Condition::Match { key: text("sizes"), value: Value::Integer(5) }.matches(&p));
    assert!(!Condition::Match { key: text("sizes"), value: Value::Integer(6) }.matches(&p));
    assert!(Condition::Match { key: text("tags"), value: Value::Text(text("red")) }.matches(&p));
    assert!(!Condition::Match { key: text("tags"), value: Value::Text(text("green")) }.matches(&p));
}

#[test]
fn range_bounds_are_inclusive() {
    let p = sample();
    let range = |lower, upper| Condition::Range { key: text("count"), lower, upper };
    assert!(range(Some(7), Some(7)).matches(&p));
    assert!(range(Some(0), None).matches(&p));
    assert!(range(None, Some(7)).matches(&p));
    assert!(!range(Some(8), None).matches(&p));
    assert!(!range(None, Some(6)).matches(&p));
    assert!(Condition::Range { key: text("sizes"), lower: Some(6), upper: Some(9) }.matches(&p));
    assert!(!Condition::Range { key: text("sizes"), lower: Some(6), upper: Some(8) }.matches(&p));
    assert!(!Condition::Range { key: text("city"), lower: Some(0), upper: None }.matches(&p));
}

#[test]
fn any_of_is_set_membership() {
    let p = sample();
    let wanted = vec![Value::Integer(3), Value::Integer(7)];
    assert!(Condition::AnyOf { key: text("count"), values: wanted }.matches(&p));
    let others = vec![Value::Integer(3), Value::Text(text("7"))];
    assert!(!Condition::AnyOf { key: text("count"), values: others }.matches(&p));
    assert!(!Condition::AnyOf { key: text("count"), values: vec![] }.matches(&p));
    let tags = vec![Value::Text(text("blue")), Value::Text(text("dark green"))];
    assert!(Condition::AnyOf { key: text("tags"), values: tags }.matches(&p));
}

#[test]
fn geo_radius_is_a_closed_disc() {
    let p = sample();
    let near = |x, y, radius| Condition::GeoRadius { key: text("place"), center: GeoPoint { x, y }, radius };
    assert!(near(10, -20, 0).matches(&p));
    assert!(near(7, -24, 5).matches(&p));
    assert!(!near(7, -24, 4).matches(&p));
    assert!(near(i32::MIN, i32::MAX, u32::MAX).matches(&p));
    assert!(!Condition::GeoRadius { key: text("city"), center: GeoPoint { x: 0, y: 0 }, radius: 9 }.matches(&p));
}

#[test]
fn contains_finds_substrings() {
    let p = sample();
    let has = |key: &str, needle: &str| Condition::Contains { key: text(key), needle: text(needle) };
    assert!(has("city", "erl").matches(&p));
    assert!(has("city", "Berlin").matches(&p));
    assert!(has("city", "").matches(&p));
    assert!(!has("city", "Berlins").matches(&p));
    assert!(!has("city", "bER").matches(&p));
    assert!(has("tags", "k gr").matches(&p));
    assert!(!has("tags", "blue").matches(&p));
    assert!(!has("count", "7").matches(&p));
}

#[test]
fn substrings_of_texts_beyond_ascii() {
    assert!(text_contains(&text("naïve café"), &text("ve c")));
    assert!(text_contains(&text("naïve café"), &text("é")));
    assert!(!text_contains(&text("naïve café"), &text("cafe")));
    assert!(text_contains(&text(""), &text("")));
    assert!(!text_contains(&text(""), &text("a")));
}

#[test]
fn must_should_and_must_not_combine() {
    let p = sample();
    let berlin = || Condition::Match { key: text("city"), value: Value::Text(text("Berlin")) };
    let paris = || Condition::Match { key: text("city"), value: Value::Text(text("Paris")) };
    let open = || Condition::Match { key: text("open"), value: Value::Bool(true) };
    assert!(Filter { must: vec![berlin(), open()], should: vec![], must_not: vec![] }.matches(&p));
    assert!(!Filter { must: vec![berlin(), paris()], should: vec![], must_not: vec![] }.matches(&p));
    assert!(Filter { must: vec![], should: vec![paris(), open()], must_not: vec![] }.matches(&p));
    assert!(!Filter { must: vec![], should: vec![paris()], must_not: vec![] }.matches(&p));
    assert!(Filter { must: vec![], should: vec![], must_not: vec![paris()] }.matches(&p));
    assert!(!Filter { must: vec![], should: vec![], must_not: vec![paris(), open()] }.matches(&p));
    assert!(!Filter { must: vec![berlin()], should: vec![open()], must_not: vec![open()] }.matches(&p));
}

#[test]
fn nested_filters_are_conditions() {
    let p = sample();
    let inner = Filter {
        must: vec![],
        should: vec![
            Condition::Match { key: text("city"), value: Value::Text(text("Paris")) },
            Condition::Range { key: text("count"), lower: Some(5), upper: None },
        ],
        must_not: vec![],
    };
    assert!(must(Condition::Nested(inner)).matches(&p));
    let never = Filter {
        must: vec![Condition::Match { key: text("open"), value: Value::Bool(false) }],
        should: vec![],
        must_not: vec![],
    };
    let outer = Filter { must: vec![], should: vec![], must_not: vec![Condition::Nested(never)] };
    assert!(outer.matches(&p));
}

#[test]
fn malformed_conditions_are_recognised() {
    assert!(Condition::Match { key: text("a"), value: Value::Integer(1) }.validate());
    assert!(!Condition::Match { key: text("a"), value: Value::Integers(vec![1]) }.validate());
    assert!(!Condition::Match { key: text("a"), value: Value::Geo(GeoPoint { x: 0, y: 0 }) }.validate());
    assert!(Condition::Range { key: text("a"), lower: Some(1), upper: Some(1) }.validate());
    assert!(!Condition::Range { key: text("a"), lower: Some(2), upper: Some(1) }.validate());
    assert!(!Condition::Range { key: text("a"), lower: None, upper: None }.validate());
    assert!(Condition::AnyOf { key: text("a"), values: vec![] }.validate());
    assert!(!Condition::AnyOf { key: text("a"), values: vec![Value::Texts(vec![])] }.validate());
    let bad = must(Condition::Range { key: text("a"), lower: None, upper: None });
    assert!(!must(Condition::Nested(bad)).validate());
    let in_should = Filter {
        must: vec![],
        should: vec![Condition::Range { key: text("a"), lower: None, upper: None }],
        must_not: vec![],
    };
    assert!(!in_should.validate());
}
