use single_object::error::{Error, ErrorKind};
use single_object::fingerprint::fingerprint;
use single_object::object::write_single_object;
use single_object::schema::{Field, Schema};
use single_object::source::{Lookup, PendingRead};
use single_object::value::Value;

fn field(name: &str, schema: Schema) -> Field {
    Field { name: name.to_string(), doc: None, aliases: vec![], schema, default: None }
}

fn writer() -> Schema {
    Schema::Record {
        name: "R".to_string(),
        doc: None,
        fields: vec![field("a", Schema::Int), field("b", Schema::String)],
    }
}

fn reader() -> Schema {
    Schema::Record {
        name: "R".to_string(),
        doc: None,
        fields: vec![field("b", Schema::String), field("a", Schema::Long)],
    }
}

fn written() -> Value {
    Value::Record(vec![
        ("a".to_string(), Value::Int(3)),
        ("b".to_string(), Value::String("x".to_string())),
    ])
}

fn failure(kind: ErrorKind, offset: usize) -> Error {
    Error { kind, offset, path: vec![] }
}

#[test]
fn begin_names_the_fingerprint_to_look_up() {
    let frame = write_single_object(&writer(), &written()).unwrap();
    let pending = PendingRead::begin(&frame).unwrap();
    assert_eq!(pending.fingerprint(), fingerprint(&writer()).unwrap());
    assert_eq!(pending.fingerprint().to_bytes(), frame[2..10].to_vec());
}

#[test]
fn begin_fails_on_what_is_no_frame() {
    assert_eq!(
        PendingRead::begin(&[0xc3, 0x01, 0, 0]).err(),
        Some(failure(ErrorKind::TruncatedFrame, 4))
    );
    assert_eq!(PendingRead::begin(&[]).err(), Some(failure(ErrorKind::TruncatedFrame, 0)));
    assert_eq!(PendingRead::begin(&[7u8; 12]).err(), Some(failure(ErrorKind::UnknownMarker, 0)));
}

#[test]
fn finish_resolves_against_the_schema_that_was_found() {
    let frame = write_single_object(&writer(), &written()).unwrap();
    let pending = PendingRead::begin(&frame).unwrap();
    assert_eq!(
        pending.finish(Lookup::Found(writer()), &reader()),
        Ok(Value::Record(vec![
            ("b".to_string(), Value::String("x".to_string())),
            ("a".to_string(), Value::Long(3)),
        ]))
    );
}

#[test]
fn finish_reads_directly_under_the_readers_own_schema() {
    // Resolved, the int would go into the first branch that takes it, the long.
    let schema = || Schema::Union(vec![Schema::Long, Schema::Int]);
    let value = Value::Union(1, Box::new(Value::Int(9)));
    let frame = write_single_object(&schema(), &value).unwrap();
    let pending = PendingRead::begin(&frame).unwrap();
    assert_eq!(pending.finish(Lookup::Found(schema()), &schema()), Ok(value));
    let other = Schema::Union(vec![Schema::Long, Schema::Int, Schema::Null]);
    let pending = PendingRead::begin(&frame).unwrap();
    assert_eq!(
        pending.finish(Lookup::Found(schema()), &other),
        Ok(Value::Union(0, Box::new(Value::Long(9))))
    );
}

#[test]
fn finish_uses_the_schema_it_is_given_whatever_the_fingerprint() {
    // The frame names the fingerprint of `int`; the source answers `long`.
    let frame = write_single_object(&Schema::Int, &Value::Int(-8)).unwrap();
    let pending = PendingRead::begin(&frame).unwrap();
    assert_eq!(pending.finish(Lookup::Found(Schema::Long), &Schema::Double), Ok(Value::Double((-8.0f64).to_bits())));
}

#[test]
fn finish_surfaces_what_the_source_could_not_give() {
    let frame = write_single_object(&writer(), &written()).unwrap();
    let missing = PendingRead::begin(&frame).unwrap().finish(Lookup::NotFound, &reader());
    assert_eq!(missing, Err(failure(ErrorKind::SchemaNotFound, 2)));
    assert!(!missing.unwrap_err().is_retryable());
    let down = PendingRead::begin(&frame).unwrap().finish(Lookup::Unavailable, &reader());
    assert_eq!(down, Err(failure(ErrorKind::SourceUnavailable, 2)));
    assert!(down.unwrap_err().is_retryable());
}

#[test]
fn finish_surfaces_failures_of_reading_and_resolving() {
    let mut frame = write_single_object(&writer(), &written()).unwrap();
    let narrow = Schema::Record {
        name: "R".to_string(),
        doc: None,
        fields: vec![field("a", Schema::Boolean)],
    };
    assert_eq!(
        PendingRead::begin(&frame).unwrap().finish(Lookup::Found(writer()), &narrow),
        Err(Error { kind: ErrorKind::IncompatibleType, offset: 0, path: vec!["a".to_string()] })
    );
    frame.truncate(12);
    assert_eq!(
        PendingRead::begin(&frame).unwrap().finish(Lookup::Found(writer()), &reader()),
        Err(Error { kind: ErrorKind::TruncatedFrame, offset: 11, path: vec!["b".to_string()] })
    );
}

#[test]
fn only_an_unavailable_source_is_worth_another_try() {
    for kind in [
        ErrorKind::InvalidSchema,
        ErrorKind::TruncatedFrame,
        ErrorKind::UnknownMarker,
        ErrorKind::SchemaMismatch,
        ErrorKind::IncompatibleType,
        ErrorKind::MissingRequiredField,
        ErrorKind::UnresolvableEnumSymbol,
        ErrorKind::NoMatchingUnionBranch,
        ErrorKind::SchemaNotFound,
        ErrorKind::MalformedPayload,
    ] {
        assert!(!Error::new(kind, 0).is_retryable());
    }
    assert!(Error::new(ErrorKind::SourceUnavailable, 0).is_retryable());
}

#[test]
fn within_puts_the_field_in_front_of_the_path() {
    let e = Error::new(ErrorKind::IncompatibleType, 4)
        .within(&"inner".to_string())
        .within(&"outer".to_string());
    assert_eq!(
        e,
        Error {
            kind: ErrorKind::IncompatibleType,
            offset: 4,
            path: vec!["outer".to_string(), "inner".to_string()],
        }
    );
}
