//! Tests of the request encoder: query assembly, absence versus
//! default-valued presence of the filter parameter.

use filter_codec::bounded::BoundedInteger;
use filter_codec::filter::{Filter, LazyLoadOptions};
use filter_codec::request::{encode_request, Direction, EncodedRequest, Request};

fn sample_filter() -> Filter {
    Filter {
        lazy_load_options: LazyLoadOptions::Enabled { include_redundant_members: true },
        rooms: Some(vec!["!roomid:example.org".into()]),
        not_rooms: vec!["room".into(), "room2".into(), "room3".into()],
        not_types: vec!["type".into()],
        ..Default::default()
    }
}

fn sample_request(filter: Option<Filter>) -> Request {
    Request {
        room_id: "!roomid:example.org".into(),
        from: "token".into(),
        to: Some("token2".into()),
        dir: Direction::Backward,
        limit: Some(BoundedInteger::min_value()),
        filter,
    }
}

#[test]
fn test_serialize_some_room_event_filter() {
    let room_id: String = "!roomid:example.org".into();
    let filter = Filter {
        lazy_load_options: LazyLoadOptions::Enabled { include_redundant_members: true },
        rooms: Some(vec![room_id.clone()]),
        not_rooms: vec!["room".into(), "room2".into(), "room3".into()],
        not_types: vec!["type".into()],
        ..Default::default()
    };
    let req = Request {
        room_id,
        from: "token".into(),
        to: Some("token2".into()),
        dir: Direction::Backward,
        limit: Some(BoundedInteger::min_value()),
        filter: Some(filter),
    };

    let request: EncodedRequest = encode_request(req).unwrap();
    println!("{:?}", request.query);
}

#[test]
fn test_serialize_none_room_event_filter() {
    let room_id: String = "!roomid:example.org".into();
    let _filter = Filter {
        lazy_load_options: LazyLoadOptions::Enabled { include_redundant_members: true },
        rooms: Some(vec![room_id.clone()]),
        not_rooms: vec!["room".into()],
        not_types: vec!["type".into()],
        ..Default::default()
    };
    let req = Request {
        room_id,
        from: "token".into(),
        to: Some("token2".into()),
        dir: Direction::Backward,
        limit: Some(BoundedInteger::min_value()),
        filter: None,
    };

    let request: EncodedRequest = encode_request(req).unwrap();
    println!("{:?}", request);
}

#[test]
fn test_serialize_default_room_event_filter() {
    let room_id: String = "!roomid:example.org".into();
    let req = Request {
        room_id,
        from: "token".into(),
        to: Some("token2".into()),
        dir: Direction::Backward,
        limit: Some(BoundedInteger::min_value()),
        filter: Some(Filter::default()),
    };

    let request: EncodedRequest = encode_request(req).unwrap();
    println!("{:?}", request);
}

#[test]
fn encoded_query_has_every_component() {
    let req = sample_request(Some(sample_filter()));
    let enc = encode_request(req).unwrap();
    assert_eq!(enc.method, "GET");
    assert_eq!(enc.path, "/_matrix/client/r0/rooms/!roomid:example.org/messages");
    let expected_filter = "{\"lazy_load_members\":true,\"include_redundant_members\":true,\
         \"rooms\":[\"!roomid:example.org\"],\
         \"not_rooms\":[\"room\",\"room2\",\"room3\"],\
         \"not_types\":[\"type\"]}";
    assert_eq!(
        enc.query,
        format!("from=token&to=token2&dir=b&limit=0&filter={}", expected_filter)
    );
    let decoded =
        filter_codec::codec::deserialize(enc.query.split("filter=").nth(1).unwrap()).unwrap();
    assert!(decoded.equals(&sample_filter()));
}

#[test]
fn absent_filter_omits_the_parameter() {
    let req = sample_request(None);
    let enc = encode_request(req).unwrap();
    assert_eq!(enc.query, "from=token&to=token2&dir=b&limit=0");
    assert!(!enc.query.contains("filter"));
}

#[test]
fn default_filter_is_not_elided() {
    let req = sample_request(Some(Filter::default()));
    let enc = encode_request(req).unwrap();
    assert_eq!(enc.query, "from=token&to=token2&dir=b&limit=0&filter={}");
    let decoded = filter_codec::codec::deserialize("{}").unwrap();
    assert!(decoded.equals(&Filter::default()));
}

#[test]
fn forward_direction_and_missing_options() {
    let req = Request {
        room_id: "!r:x".into(),
        from: "a".into(),
        to: None,
        dir: Direction::Forward,
        limit: None,
        filter: None,
    };
    let enc = encode_request(req).unwrap();
    assert_eq!(enc.query, "from=a&dir=f");
}
