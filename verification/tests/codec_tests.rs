//! Tests of the filter codec: exact serialized forms, round trips, and
//! all-or-nothing failure on malformed text.

use filter_codec::codec::{deserialize, serialize};
use filter_codec::filter::{Filter, LazyLoadOptions};

fn round_trips(f: &Filter) {
    let text = serialize(f).unwrap();
    let back = deserialize(&text).unwrap();
    assert!(back.equals(f));
}

#[test]
fn default_filter_serializes_to_empty_object() {
    assert_eq!(serialize(&Filter::default()).unwrap(), "{}");
}

#[test]
fn full_filter_serializes_exactly() {
    let f = Filter {
        lazy_load_options: LazyLoadOptions::Enabled { include_redundant_members: false },
        rooms: Some(vec!["!a:x".into()]),
        not_rooms: vec!["r1".into(), "r2".into()],
        not_types: vec!["t".into()],
    };
    assert_eq!(
        serialize(&f).unwrap(),
        "{\"lazy_load_members\":true,\"include_redundant_members\":false,\
         \"rooms\":[\"!a:x\"],\"not_rooms\":[\"r1\",\"r2\"],\"not_types\":[\"t\"]}"
    );
}

#[test]
fn empty_room_restriction_differs_from_absent() {
    let restricted = Filter { rooms: Some(vec![]), ..Default::default() };
    let unrestricted = Filter { rooms: None, ..Default::default() };
    assert_eq!(serialize(&restricted).unwrap(), "{\"rooms\":[]}");
    assert_eq!(serialize(&unrestricted).unwrap(), "{}");
    assert!(!restricted.equals(&unrestricted));
}

#[test]
fn quotes_and_backslashes_are_escaped() {
    let f = Filter {
        not_types: vec!["a\"b\\c".into()],
        ..Default::default()
    };
    assert_eq!(serialize(&f).unwrap(), "{\"not_types\":[\"a\\\"b\\\\c\"]}");
    round_trips(&f);
}

#[test]
fn control_characters_are_escaped() {
    let f = Filter { not_types: vec!["a\u{1}b".into()], ..Default::default() };
    assert_eq!(serialize(&f).unwrap(), "{\"not_types\":[\"a\\u0001b\"]}");
    round_trips(&f);
    let f = Filter { not_types: vec!["x\u{8}\t\n\u{c}\r".into()], ..Default::default() };
    assert_eq!(serialize(&f).unwrap(), "{\"not_types\":[\"x\\b\\t\\n\\f\\r\"]}");
    round_trips(&f);
}

#[test]
fn unicode_escapes_decode() {
    let f = deserialize("{\"not_types\":[\"\\u0041\\u00e9\\ud834\\udd1e\"]}").unwrap();
    assert_eq!(f.not_types, vec!["A\u{e9}\u{1d11e}".to_string()]);
    assert!(deserialize("{\"not_types\":[\"\\ud834\"]}").is_err());
    assert!(deserialize("{\"not_types\":[\"\\u00zz\"]}").is_err());
}

#[test]
fn round_trip_preserves_every_shape() {
    round_trips(&Filter::default());
    round_trips(&Filter {
        lazy_load_options: LazyLoadOptions::Enabled { include_redundant_members: true },
        ..Default::default()
    });
    round_trips(&Filter {
        lazy_load_options: LazyLoadOptions::Enabled { include_redundant_members: false },
        ..Default::default()
    });
    round_trips(&Filter { rooms: Some(vec![]), ..Default::default() });
    round_trips(&Filter { rooms: Some(vec!["!a:x".into(), "!b:y".into()]), ..Default::default() });
    round_trips(&Filter { not_rooms: vec!["r".into()], ..Default::default() });
    round_trips(&Filter {
        lazy_load_options: LazyLoadOptions::Enabled { include_redundant_members: true },
        rooms: Some(vec!["!roomid:example.org".into()]),
        not_rooms: vec!["room".into(), "room2".into(), "room3".into()],
        not_types: vec!["type".into()],
    });
}

#[test]
fn malformed_text_fails_and_yields_no_default() {
    for text in [
        "",
        "{",
        "}",
        "{}}",
        "not json",
        "{\"rooms\":}",
        "{\"rooms\":[}",
        "{\"rooms\":[\"a\"}",
        "{\"lazy_load_members\":1}",
        "{\"rooms\":[\"\u{1}\"]}",
        "{\"rooms\":[\"a\"],\"rooms\":[\"a\"]}",
    ] {
        let r = deserialize(text);
        assert!(r.is_err(), "accepted {:?}", text);
        assert!(!r.unwrap_err().message().is_empty());
    }
}

#[test]
fn whitespace_field_order_and_unknown_fields_are_accepted() {
    let d = deserialize("{ }").unwrap();
    assert!(d.equals(&Filter::default()));
    let d = deserialize(" {\n\t\"not_rooms\" : [ \"a\" ] , \"rooms\": [\"b\"] } ").unwrap();
    assert_eq!(d.not_rooms, vec!["a".to_string()]);
    assert_eq!(d.rooms, Some(vec!["b".to_string()]));
    let d = deserialize("{\"lazy_load_members\":true}").unwrap();
    assert!(matches!(
        d.lazy_load_options,
        LazyLoadOptions::Enabled { include_redundant_members: false }
    ));
    let d = deserialize("{\"unknown\":{\"x\":[1,2.5e-3,null]},\"rooms\":null}").unwrap();
    assert!(d.equals(&Filter::default()));
    let d = deserialize("{\"not_types\":[\"a\\u0041\\n\"]}").unwrap();
    assert_eq!(d.not_types, vec!["aA\n".to_string()]);
}

#[test]
fn well_formed_text_decodes_each_field() {
    let f = deserialize(
        "{\"lazy_load_members\":true,\"include_redundant_members\":false,\"not_rooms\":[\"x\"]}",
    )
    .unwrap();
    assert!(matches!(
        f.lazy_load_options,
        LazyLoadOptions::Enabled { include_redundant_members: false }
    ));
    assert_eq!(f.rooms, None);
    assert_eq!(f.not_rooms, vec!["x".to_string()]);
    assert!(f.not_types.is_empty());
}
