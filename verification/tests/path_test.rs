use cdoc::path::read::PathReader;
use cdoc::path::write::PathWriter;
use cdoc::path::{Field, PathError, PathSegment, Terminator};
use cdoc::path::lseq::Segment;
use cdoc::{Error, FractionalIndex, PID};

#[test]
fn roundtrip_chunked_tail() {
    let mut writer = PathWriter::new(Vec::new(), 0);
    writer.push_field("content").unwrap();
    let buf = writer.lww_chunked(42).unwrap();

    let reader = PathReader::new(&buf);
    let segments = reader.read_all().unwrap();

    assert_eq!(segments.len(), 2);
    assert_eq!(segments[0], PathSegment::Field(Field::new("content").unwrap()));
    assert_eq!(segments[1], PathSegment::Tail(Terminator::Chunked(42)));
}

#[test]
fn roundtrip_counter() {
    let mut writer = PathWriter::new(Vec::new(), 0);
    writer.push_field("content").unwrap();
    let pid = PID::random();
    let buf = writer.counter(pid).unwrap();

    let reader = PathReader::new(&buf);
    let segments = reader.read_all().unwrap();

    assert_eq!(segments.len(), 2);
    assert_eq!(segments[0], PathSegment::Field(Field::new("content").unwrap()));
    assert_eq!(segments[1], PathSegment::Tail(Terminator::Counter(pid)));
}

#[test]
fn path_length_limit_on_field() {
    let mut writer = PathWriter::new(Vec::new(), 0);
    let long_field = "a".repeat(i16::MAX as usize);
    assert!(writer.push_field(&long_field).is_err());
}

#[test]
fn path_length_limit_on_accumulated_fields() {
    let mut writer = PathWriter::new(Vec::new(), 0);
    let field = "a".repeat(10_000);
    writer.push_field(&field).unwrap();
    writer.push_field(&field).unwrap();
    writer.push_field(&field).unwrap();
    // 3 fields × (1 + 10_000) = 30_003, next would push past i16::MAX
    assert!(writer.push_field(&field).is_err());
}

#[test]
fn path_length_limit_on_chunked() {
    let mut writer = PathWriter::new(Vec::new(), 0);
    let field = "a".repeat(i16::MAX as usize - 2);
    writer.push_field(&field).unwrap();
    assert!(writer.lww_chunked(u64::MAX).is_err());
}

#[test]
fn roundtrip_fields_and_indices() {
    let mut idx = Vec::new();
    Segment::new(PID::new(5).unwrap(), 9).write(&mut idx);
    Segment::new(PID::new(6).unwrap(), 1).write(&mut idx);
    let mut writer = PathWriter::new(Vec::new(), 0);
    writer.push_field("users").unwrap();
    writer.push_index(FractionalIndex::new(&idx)).unwrap();
    writer.push_field("name").unwrap();
    let buf = writer.lww().unwrap();

    let segments = PathReader::new(&buf).read_all().unwrap();
    assert_eq!(segments.len(), 4);
    assert_eq!(segments[0], PathSegment::Field(Field::new("users").unwrap()));
    match &segments[1] {
        PathSegment::Index(i) => assert_eq!(i.bytes(), idx.as_slice()),
        other => panic!("expected an index, got {:?}", other),
    }
    assert_eq!(segments[2], PathSegment::Field(Field::new("name").unwrap()));
    assert_eq!(segments[3], PathSegment::Tail(Terminator::LWW));
}

#[test]
fn path_bytes_of_field_and_lww() {
    let mut writer = PathWriter::new(Vec::new(), 0);
    writer.push_field("ab").unwrap();
    assert_eq!(writer.lww().unwrap(), vec![0, b'a', b'b', 0, 30]);
}

#[test]
fn field_rejects_control_bytes() {
    assert_eq!(Field::new("a\u{1f}b"), Err(PathError::InvalidField));
    assert!(Field::is_valid("plain text"));
    assert!(!Field::is_valid("tab\there"));
    let mut writer = PathWriter::new(Vec::new(), 0);
    assert_eq!(writer.push_field("x\u{0}"), Err(Error::Path(PathError::InvalidField)));
}

#[test]
fn counter_path_near_limit_is_refused() {
    let mut writer = PathWriter::new(Vec::new(), 0);
    let field = "a".repeat(i16::MAX as usize - 5);
    writer.push_field(&field).unwrap();
    assert_eq!(writer.counter(PID::new(1).unwrap()), Err(Error::Path(PathError::TooLong)));
}
