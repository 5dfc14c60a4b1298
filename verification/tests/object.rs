use apache_avro::types::Value as Theirs;
use single_object::error::{Error, ErrorKind};
use single_object::fingerprint::fingerprint;
use single_object::object::{read_local, resolve, write_single_object};
use single_object::schema::{Field, Schema};
use single_object::source::{Lookup, PendingRead};
use single_object::value::Value;

fn field(name: &str, schema: Schema) -> Field {
    Field { name: name.to_string(), doc: None, aliases: vec![], schema, default: None }
}

fn text(s: &str) -> Value {
    Value::String(s.to_string())
}

fn entry(name: &str, value: Value) -> (String, Value) {
    (name.to_string(), value)
}

fn locale() -> Schema {
    Schema::Enum {
        name: "Locale".to_string(),
        doc: None,
        symbols: vec!["en_US".to_string(), "fr_FR".to_string(), "zh_CN".to_string()],
        default: None,
    }
}

fn author() -> Schema {
    Schema::Record {
        name: "Author".to_string(),
        doc: None,
        fields: vec![field("id", Schema::String), field("nickname", Schema::String)],
    }
}

fn comment_fields() -> Vec<Field> {
    vec![
        field("id", Schema::String),
        field("message", Schema::String),
        field("locale", locale()),
        field("author", author()),
        field("blog_id", Schema::String),
        field("blog_title", Schema::String),
    ]
}

fn comment_v1() -> Schema {
    Schema::Record { name: "Comment".to_string(), doc: None, fields: comment_fields() }
}

fn comment_v2() -> Schema {
    let mut fields = comment_fields();
    fields.push(Field {
        name: "priority".to_string(),
        doc: None,
        aliases: vec![],
        schema: Schema::Int,
        default: Some(Value::Int(0)),
    });
    Schema::Record { name: "Comment".to_string(), doc: None, fields }
}

const COMMENT_V1_JSON: &str = r#"{
    "type": "record", "name": "Comment", "fields": [
        {"name": "id", "type": "string"},
        {"name": "message", "type": "string"},
        {"name": "locale", "type":
            {"type": "enum", "name": "Locale", "symbols": ["en_US", "fr_FR", "zh_CN"]}},
        {"name": "author", "type": {"type": "record", "name": "Author", "fields": [
            {"name": "id", "type": "string"},
            {"name": "nickname", "type": "string"}
        ]}},
        {"name": "blog_id", "type": "string"},
        {"name": "blog_title", "type": "string"}
    ]}"#;

fn comment_entries() -> Vec<(String, Value)> {
    vec![
        entry("id", text("de2df598-9948-4988-b00a-a41c0e287398")),
        entry("message", text("I'm sorry, Dave. I'm afraid I can't do that.")),
        entry("locale", Value::Enum(0, "en_US".to_string())),
        entry(
            "author",
            Value::Record(vec![
                entry("id", text("78fc52a3-9f94-43c6-8eb5-9591e80b87e1")),
                entry("nickname", text("HAL 9000")),
            ]),
        ),
        entry("blog_id", text("b4e05776-fca3-485e-be48-b1758cedd792")),
        entry("blog_title", text("Binaries encoding")),
    ]
}

fn comment() -> Value {
    Value::Record(comment_entries())
}

fn failure(kind: ErrorKind, offset: usize) -> Result<Value, Error> {
    Err(Error { kind, offset, path: vec![] })
}

#[test]
fn a_written_comment_is_marker_fingerprint_payload() {
    let frame = write_single_object(&comment_v1(), &comment()).unwrap();
    assert_eq!(&frame[..2], &[0xc3, 0x01]);
    assert_eq!(&frame[2..10], fingerprint(&comment_v1()).unwrap().to_bytes().as_slice());
    // the payload opens with the length of the id, 36, and the id
    assert_eq!(&frame[10..15], &[0x48, 0x64, 0x65, 0x32, 0x64]);
    assert_eq!(frame.len(), 10 + 37 + 45 + 1 + 37 + 9 + 37 + 18);
}

#[test]
fn a_written_comment_is_what_the_avro_library_writes() {
    let schema = apache_avro::Schema::parse_str(COMMENT_V1_JSON).unwrap();
    let theirs = Theirs::Record(vec![
        ("id".to_string(), Theirs::String("de2df598-9948-4988-b00a-a41c0e287398".to_string())),
        (
            "message".to_string(),
            Theirs::String("I'm sorry, Dave. I'm afraid I can't do that.".to_string()),
        ),
        ("locale".to_string(), Theirs::Enum(0, "en_US".to_string())),
        (
            "author".to_string(),
            Theirs::Record(vec![
                (
                    "id".to_string(),
                    Theirs::String("78fc52a3-9f94-43c6-8eb5-9591e80b87e1".to_string()),
                ),
                ("nickname".to_string(), Theirs::String("HAL 9000".to_string())),
            ]),
        ),
        (
            "blog_id".to_string(),
            Theirs::String("b4e05776-fca3-485e-be48-b1758cedd792".to_string()),
        ),
        ("blog_title".to_string(), Theirs::String("Binaries encoding".to_string())),
    ]);
    let mut expected = Vec::new();
    apache_avro::GenericSingleObjectWriter::new_with_capacity(&schema, 10)
        .unwrap()
        .write_value_ref(&theirs, &mut expected)
        .unwrap();
    assert_eq!(write_single_object(&comment_v1(), &comment()).unwrap(), expected);
}

#[test]
fn read_local_gives_back_the_comment() {
    let frame = write_single_object(&comment_v1(), &comment()).unwrap();
    assert_eq!(read_local(&frame, &comment_v1(), true), Ok(comment()));
    assert_eq!(read_local(&frame, &comment_v1(), false), Ok(comment()));
}

#[test]
fn a_comment_of_v1_read_under_v2_has_priority_zero() {
    let frame = write_single_object(&comment_v1(), &comment()).unwrap();
    let pending = PendingRead::begin(&frame).unwrap();
    assert_eq!(pending.fingerprint(), fingerprint(&comment_v1()).unwrap());
    let read = pending.finish(Lookup::Found(comment_v1()), &comment_v2()).unwrap();
    let mut expected = comment_entries();
    expected.push(entry("priority", Value::Int(0)));
    assert_eq!(read, Value::Record(expected.clone()));
    assert_eq!(read.get("priority"), Some(&Value::Int(0)));
    assert_eq!(read.get("locale"), Some(&Value::Enum(0, "en_US".to_string())));
    match &read {
        Value::Record(entries) => {
            assert_eq!(entries[6], entry("priority", Value::Int(0)));
            assert_eq!(&entries[..6], comment_entries().as_slice());
        },
        other => panic!("not a record: {:?}", other),
    }
    assert_eq!(resolve(&comment_v1(), &comment_v2(), &frame[10..]), Ok(Value::Record(expected)));
}

#[test]
fn read_local_of_short_input_is_truncated() {
    let frame = write_single_object(&Schema::Null, &Value::Null).unwrap();
    assert_eq!(frame.len(), 10);
    for len in 0..10 {
        for check in [false, true] {
            assert_eq!(
                read_local(&frame[..len], &Schema::Null, check),
                failure(ErrorKind::TruncatedFrame, len)
            );
            assert_eq!(
                read_local(&vec![0u8; len], &comment_v1(), check),
                failure(ErrorKind::TruncatedFrame, len)
            );
        }
    }
    assert_eq!(read_local(&frame, &Schema::Null, true), Ok(Value::Null));
}

#[test]
fn read_local_rejects_other_markers() {
    let mut frame = write_single_object(&Schema::Long, &Value::Long(1)).unwrap();
    frame[1] = 0x02;
    assert_eq!(read_local(&frame, &Schema::Long, false), failure(ErrorKind::UnknownMarker, 0));
    frame[1] = 0x01;
    frame[0] = 0xc2;
    assert_eq!(read_local(&frame, &Schema::Long, true), failure(ErrorKind::UnknownMarker, 0));
}

#[test]
fn read_local_checks_the_fingerprint_only_when_asked() {
    let frame = write_single_object(&Schema::Int, &Value::Int(5)).unwrap();
    assert_eq!(read_local(&frame, &Schema::Long, true), failure(ErrorKind::SchemaMismatch, 2));
    assert_eq!(read_local(&frame, &Schema::Long, false), Ok(Value::Long(5)));
    assert_eq!(read_local(&frame, &Schema::Int, true), Ok(Value::Int(5)));
}

#[test]
fn read_local_with_a_malformed_schema() {
    let twice = Schema::Union(vec![Schema::Int, Schema::Int]);
    let mut frame = write_single_object(&Schema::Int, &Value::Int(5)).unwrap();
    frame[10] = 0x02;
    frame.push(0x0a);
    assert_eq!(read_local(&frame, &twice, true), failure(ErrorKind::InvalidSchema, 0));
    assert_eq!(
        read_local(&frame, &twice, false),
        Ok(Value::Union(1, Box::new(Value::Int(5))))
    );
}

#[test]
fn read_local_reports_positions_in_the_frame() {
    let schema = Schema::Record {
        name: "R".to_string(),
        doc: None,
        fields: vec![field("a", Schema::Long), field("b", Schema::Boolean)],
    };
    let value = Value::Record(vec![entry("a", Value::Long(1)), entry("b", Value::Boolean(true))]);
    let mut frame = write_single_object(&schema, &value).unwrap();
    assert_eq!(frame.len(), 12);
    frame[11] = 3;
    assert_eq!(
        read_local(&frame, &schema, true),
        Err(Error { kind: ErrorKind::MalformedPayload, offset: 11, path: vec!["b".to_string()] })
    );
    frame.truncate(11);
    assert_eq!(
        read_local(&frame, &schema, true),
        Err(Error { kind: ErrorKind::TruncatedFrame, offset: 11, path: vec!["b".to_string()] })
    );
}

#[test]
fn read_local_ignores_what_follows_the_value() {
    let mut frame = write_single_object(&Schema::Boolean, &Value::Boolean(true)).unwrap();
    frame.extend_from_slice(&[9, 9, 9]);
    assert_eq!(read_local(&frame, &Schema::Boolean, true), Ok(Value::Boolean(true)));
}

#[test]
fn write_rejects_a_malformed_schema() {
    let twice = Schema::Union(vec![Schema::Int, Schema::Int]);
    assert_eq!(
        write_single_object(&twice, &Value::Union(0, Box::new(Value::Int(1)))),
        Err(Error { kind: ErrorKind::InvalidSchema, offset: 0, path: vec![] })
    );
}

#[test]
fn write_rejects_a_value_of_another_type() {
    assert_eq!(
        write_single_object(&Schema::Int, &Value::Long(1)),
        Err(Error { kind: ErrorKind::IncompatibleType, offset: 0, path: vec![] })
    );
    let mut entries = comment_entries();
    entries.swap(0, 1);
    assert_eq!(
        write_single_object(&comment_v1(), &Value::Record(entries)),
        Err(Error { kind: ErrorKind::IncompatibleType, offset: 0, path: vec![] })
    );
}

#[test]
fn the_avro_library_reads_our_frames() {
    let schema = apache_avro::Schema::parse_str(COMMENT_V1_JSON).unwrap();
    let frame = write_single_object(&comment_v1(), &comment()).unwrap();
    let reader = apache_avro::GenericSingleObjectReader::new(schema).unwrap();
    let read = reader.read_value(&mut frame.as_slice()).unwrap();
    match read {
        apache_avro::types::Value::Record(entries) => {
            assert_eq!(entries.len(), 6);
            assert_eq!(
                entries[1],
                (
                    "message".to_string(),
                    apache_avro::types::Value::String(
                        "I'm sorry, Dave. I'm afraid I can't do that.".to_string()
                    )
                )
            );
        },
        other => panic!("not a record: {:?}", other),
    }
}
