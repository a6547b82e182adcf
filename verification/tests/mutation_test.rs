use ciborium::value::Value;
use cdoc::path::write::PathWriter;
use cdoc::{Error, FractionalIndex, Mutation, Op, Segment, PID};

/// Builds a finalized LWW path from the given mutation segments.
fn build_path(segments: &[&Segment]) -> Vec<u8> {
    let mut w = PathWriter::new(Vec::new(), 0);
    for seg in segments {
        match seg {
            Segment::Field(f) => w.push_field(f).unwrap(),
            Segment::FractionalIndex(i) => w.push_index(FractionalIndex::new(i)).unwrap(),
        }
    }
    w.lww().unwrap()
}

/// Serializes a CBOR value into bytes.
fn encode_cbor(value: &Value) -> Vec<u8> {
    let mut buf = Vec::new();
    ciborium::ser::into_writer(value, &mut buf).unwrap();
    buf
}

fn field(name: &str) -> Segment {
    Segment::Field(name.to_string())
}

#[test]
fn assign_int() {
    let m = Mutation::compose(vec![Mutation::assign(field("count"), Op::Assign(Value::from(42)))]);
    assert_eq!(
        m,
        Mutation::Compose(vec![Mutation::Apply(
            Segment::Field("count".to_string()),
            Op::Assign(Value::from(42)),
        )])
    );
}

#[test]
fn assign_float() {
    let m = Mutation::compose(vec![Mutation::assign(field("ratio"), Op::Assign(Value::from(2.5)))]);
    assert_eq!(
        m,
        Mutation::Compose(vec![Mutation::Apply(
            Segment::Field("ratio".to_string()),
            Op::Assign(Value::from(2.5)),
        )])
    );
}

#[test]
fn assign_string() {
    let m = Mutation::compose(vec![Mutation::assign(field("name"), Op::Assign(Value::from("Alice")))]);
    assert_eq!(
        m,
        Mutation::Compose(vec![Mutation::Apply(
            Segment::Field("name".to_string()),
            Op::Assign(Value::Text("Alice".to_string())),
        )])
    );
}

#[test]
fn assign_bool() {
    let m = Mutation::compose(vec![Mutation::assign(field("active"), Op::Assign(Value::from(true)))]);
    assert_eq!(
        m,
        Mutation::Compose(vec![Mutation::Apply(
            Segment::Field("active".to_string()),
            Op::Assign(Value::Bool(true)),
        )])
    );
}

#[test]
fn assign_null() {
    let m = Mutation::compose(vec![Mutation::assign(field("empty"), Op::Assign(Value::Null))]);
    assert_eq!(
        m,
        Mutation::Compose(vec![Mutation::Apply(
            Segment::Field("empty".to_string()),
            Op::Assign(Value::Null),
        )])
    );
}

#[test]
fn assign_cbor_map() {
    let map = Value::Map(vec![(Value::from("key"), Value::from("value"))]);
    let m = Mutation::compose(vec![Mutation::assign(field("metadata"), Op::Assign(map))]);
    assert_eq!(
        m,
        Mutation::Compose(vec![Mutation::Apply(
            Segment::Field("metadata".to_string()),
            Op::Assign(Value::Map(vec![(
                Value::Text("key".to_string()),
                Value::Text("value".to_string()),
            )])),
        )])
    );
}

#[test]
fn assign_cbor_array() {
    let array = Value::Array(vec![Value::from(1), Value::from(2), Value::from(3)]);
    let m = Mutation::compose(vec![Mutation::assign(field("items"), Op::Assign(array))]);
    assert_eq!(
        m,
        Mutation::Compose(vec![Mutation::Apply(
            Segment::Field("items".to_string()),
            Op::Assign(Value::Array(vec![
                Value::Integer(1.into()),
                Value::Integer(2.into()),
                Value::Integer(3.into()),
            ])),
        )])
    );
}

#[test]
fn delete_directive() {
    let m = Mutation::compose(vec![
        Mutation::assign(field("field_a"), Op::Delete),
        Mutation::assign(field("field_b"), Op::Delete),
    ]);
    assert_eq!(
        m,
        Mutation::Compose(vec![
            Mutation::Apply(Segment::Field("field_a".to_string()), Op::Delete),
            Mutation::Apply(Segment::Field("field_b".to_string()), Op::Delete),
        ])
    );
}

#[test]
fn nested_mutations() {
    let m = Mutation::compose(vec![Mutation::nested(
        field("users"),
        vec![Mutation::nested(
            field("alice"),
            vec![
                Mutation::assign(field("name"), Op::Assign(Value::from("Alice"))),
                Mutation::assign(field("age"), Op::Delete),
            ],
        )],
    )]);
    assert_eq!(
        m,
        Mutation::Compose(vec![Mutation::Nested(
            Segment::Field("users".to_string()),
            vec![Mutation::Nested(
                Segment::Field("alice".to_string()),
                vec![
                    Mutation::Apply(
                        Segment::Field("name".to_string()),
                        Op::Assign(Value::Text("Alice".to_string())),
                    ),
                    Mutation::Apply(Segment::Field("age".to_string()), Op::Delete),
                ],
            )],
        )])
    );
}

#[test]
fn macro_with_fractional_index_key() {
    let pid = PID::new(1u32).unwrap();
    let idx = FractionalIndex::between(None, None, pid);
    let expected_seg = Segment::FractionalIndex(idx.clone());
    let m = Mutation::compose(vec![Mutation::nested(
        field("items"),
        vec![Mutation::assign(Segment::FractionalIndex(idx), Op::Assign(Value::from("Bob")))],
    )]);
    assert_eq!(
        m,
        Mutation::Compose(vec![Mutation::Nested(
            Segment::Field("items".to_string()),
            vec![Mutation::Apply(expected_seg, Op::Assign(Value::Text("Bob".to_string())))],
        )])
    );
}

#[test]
fn for_each_field_assign() {
    let m = Mutation::compose(vec![Mutation::assign(field("name"), Op::Assign(Value::from("Alice")))]);
    let mut results = Vec::new();
    m.for_each(&mut results).unwrap();

    let seg = Segment::Field("name".to_string());
    assert_eq!(results.len(), 1);
    assert_eq!(results[0].0, build_path(&[&seg]));
    assert_eq!(results[0].1, encode_cbor(&Value::Text("Alice".to_string())));
}

#[test]
fn for_each_field_delete() {
    let m = Mutation::compose(vec![Mutation::assign(field("name"), Op::Delete)]);
    let mut results = Vec::new();
    m.for_each(&mut results).unwrap();

    let seg = Segment::Field("name".to_string());
    assert_eq!(results.len(), 1);
    assert_eq!(results[0].0, build_path(&[&seg]));
    assert!(results[0].1.is_empty());
}

#[test]
fn for_each_fractional_index_assign() {
    let pid = PID::new(1u32).unwrap();
    let idx = FractionalIndex::between(None, None, pid);
    let seg = Segment::FractionalIndex(idx);
    let m = Mutation::Apply(seg.clone(), Op::Assign(Value::from(42)));
    let mut results = Vec::new();
    m.for_each(&mut results).unwrap();

    assert_eq!(results.len(), 1);
    assert_eq!(results[0].0, build_path(&[&seg]));
    assert_eq!(results[0].1, encode_cbor(&Value::from(42)));
}

#[test]
fn for_each_fractional_index_delete() {
    let pid = PID::new(1u32).unwrap();
    let idx = FractionalIndex::between(None, None, pid);
    let seg = Segment::FractionalIndex(idx);
    let m = Mutation::Apply(seg.clone(), Op::Delete);
    let mut results = Vec::new();
    m.for_each(&mut results).unwrap();

    assert_eq!(results.len(), 1);
    assert_eq!(results[0].0, build_path(&[&seg]));
    assert!(results[0].1.is_empty());
}

#[test]
fn for_each_nested_fields() {
    let m = Mutation::compose(vec![Mutation::nested(
        field("users"),
        vec![Mutation::assign(field("name"), Op::Assign(Value::from("Alice")))],
    )]);
    let mut results = Vec::new();
    m.for_each(&mut results).unwrap();

    let users = Segment::Field("users".to_string());
    let name = Segment::Field("name".to_string());
    assert_eq!(results.len(), 1);
    assert_eq!(results[0].0, build_path(&[&users, &name]));
    assert_eq!(results[0].1, encode_cbor(&Value::Text("Alice".to_string())));
}

#[test]
fn for_each_nested_with_fractional_index() {
    let pid = PID::new(1u32).unwrap();
    let idx = FractionalIndex::between(None, None, pid);
    let idx_seg = Segment::FractionalIndex(idx);
    let items = Segment::Field("items".to_string());
    let m = Mutation::Nested(
        items.clone(),
        vec![Mutation::Apply(idx_seg.clone(), Op::Assign(Value::from(99)))],
    );
    let mut results = Vec::new();
    m.for_each(&mut results).unwrap();

    assert_eq!(results.len(), 1);
    assert_eq!(results[0].0, build_path(&[&items, &idx_seg]));
    assert_eq!(results[0].1, encode_cbor(&Value::from(99)));
}

#[test]
fn for_each_compose_multiple_entries() {
    let m = Mutation::compose(vec![
        Mutation::assign(field("name"), Op::Assign(Value::from("Alice"))),
        Mutation::assign(field("age"), Op::Delete),
        Mutation::assign(field("active"), Op::Assign(Value::from(true))),
    ]);
    let mut results = Vec::new();
    m.for_each(&mut results).unwrap();

    let name = Segment::Field("name".to_string());
    let age = Segment::Field("age".to_string());
    let active = Segment::Field("active".to_string());

    assert_eq!(results.len(), 3);
    assert_eq!(results[0].0, build_path(&[&name]));
    assert_eq!(results[0].1, encode_cbor(&Value::Text("Alice".to_string())));
    assert_eq!(results[1].0, build_path(&[&age]));
    assert!(results[1].1.is_empty());
    assert_eq!(results[2].0, build_path(&[&active]));
    assert_eq!(results[2].1, encode_cbor(&Value::Bool(true)));
}

#[test]
fn for_each_deep_nesting_mixed_ops() {
    let m = Mutation::compose(vec![Mutation::nested(
        field("users"),
        vec![Mutation::nested(
            field("alice"),
            vec![
                Mutation::assign(field("name"), Op::Assign(Value::from("Alice"))),
                Mutation::assign(field("age"), Op::Delete),
            ],
        )],
    )]);
    let mut results = Vec::new();
    m.for_each(&mut results).unwrap();

    let users = Segment::Field("users".to_string());
    let alice = Segment::Field("alice".to_string());
    let name = Segment::Field("name".to_string());
    let age = Segment::Field("age".to_string());

    assert_eq!(results.len(), 2);
    assert_eq!(results[0].0, build_path(&[&users, &alice, &name]));
    assert_eq!(results[0].1, encode_cbor(&Value::Text("Alice".to_string())));
    assert_eq!(results[1].0, build_path(&[&users, &alice, &age]));
    assert!(results[1].1.is_empty());
}

#[test]
fn for_each_exact_path_bytes() {
    let m = Mutation::nested(field("a"), vec![Mutation::assign(field("bc"), Op::Delete)]);
    let mut results = Vec::new();
    m.for_each(&mut results).unwrap();
    assert_eq!(results, vec![(vec![0, b'a', 0, b'b', b'c', 0, 30], vec![])]);
}

#[test]
fn for_each_rejects_invalid_field() {
    let m = Mutation::assign(field("bad\u{1}name"), Op::Delete);
    assert!(matches!(m.for_each(&mut Vec::new()), Err(Error::Path(cdoc::path::PathError::InvalidField))));
}

#[test]
fn for_each_rejects_invalid_index() {
    let m = Mutation::assign(Segment::FractionalIndex(vec![1]), Op::Delete);
    assert!(matches!(m.for_each(&mut Vec::new()), Err(Error::Path(cdoc::path::PathError::InvalidIndex))));
    let m = Mutation::assign(Segment::FractionalIndex(vec![]), Op::Delete);
    assert!(matches!(m.for_each(&mut Vec::new()), Err(Error::Path(cdoc::path::PathError::InvalidIndex))));
}

#[test]
fn for_each_rejects_too_long_path() {
    let long = "a".repeat(20_000);
    let m = Mutation::nested(
        field(&long),
        vec![Mutation::nested(field(&long), vec![Mutation::assign(field("x"), Op::Delete)])],
    );
    assert!(matches!(m.for_each(&mut Vec::new()), Err(Error::Path(cdoc::path::PathError::TooLong))));
}

#[test]
fn for_each_hands_out_leaves_before_an_error() {
    let m = Mutation::compose(vec![
        Mutation::assign(field("a"), Op::Delete),
        Mutation::assign(field("b"), Op::Assign(Value::from(1))),
        Mutation::assign(field("bad\u{1}"), Op::Delete),
        Mutation::assign(field("c"), Op::Delete),
    ]);
    let mut results = Vec::new();
    let r = m.for_each(&mut results);
    assert!(matches!(r, Err(Error::Path(cdoc::path::PathError::InvalidField))));
    assert_eq!(results.len(), 2);
    assert_eq!(results[0], (build_path(&[&field("a")]), vec![]));
    assert_eq!(results[1], (build_path(&[&field("b")]), encode_cbor(&Value::from(1))));
}

#[test]
fn for_each_limits_each_leaf_independently() {
    let long = "a".repeat(20_000);
    let m = Mutation::compose(vec![
        Mutation::assign(field(&long), Op::Delete),
        Mutation::assign(field(&long), Op::Delete),
    ]);
    let mut results = Vec::new();
    m.for_each(&mut results).unwrap();
    assert_eq!(results.len(), 2);
}

#[test]
fn for_each_empty_compose_yields_nothing() {
    let m = Mutation::compose(vec![]);
    let mut results = Vec::new();
    m.for_each(&mut results).unwrap();
    assert!(results.is_empty());
}

#[test]
fn segment_as_bytes() {
    assert_eq!(field("héllo").as_bytes(), "héllo".as_bytes());
    assert_eq!(Segment::FractionalIndex(vec![1, 2, 3]).as_bytes(), &[1, 2, 3][..]);
}
