use single_object::error::{Error, ErrorKind};
use single_object::reader::decode_value;
use single_object::schema::{Field, Schema};
use single_object::value::Value;
use single_object::varint::{read_long, write_length, write_long, write_varint};
use single_object::writer::encode_value;

fn encoded(value: &Value) -> Vec<u8> {
    let mut out = Vec::new();
    encode_value(value, &mut out);
    out
}

fn long_bytes(n: i64) -> Vec<u8> {
    let mut out = Vec::new();
    write_long(n, &mut out);
    out
}

fn field(name: &str, schema: Schema) -> Field {
    Field { name: name.to_string(), doc: None, aliases: vec![], schema, default: None }
}

fn record(name: &str, fields: Vec<Field>) -> Schema {
    Schema::Record { name: name.to_string(), doc: None, fields }
}

fn suit() -> Schema {
    Schema::Enum {
        name: "Suit".to_string(),
        doc: None,
        symbols: vec!["SPADES".to_string(), "HEARTS".to_string(), "CLUBS".to_string()],
        default: None,
    }
}

fn failure(kind: ErrorKind, offset: usize) -> Error {
    Error { kind, offset, path: vec![] }
}

#[test]
fn long_encodings_are_zigzag_varints() {
    assert_eq!(long_bytes(0), vec![0x00]);
    assert_eq!(long_bytes(-1), vec![0x01]);
    assert_eq!(long_bytes(1), vec![0x02]);
    assert_eq!(long_bytes(-2), vec![0x03]);
    assert_eq!(long_bytes(2), vec![0x04]);
    assert_eq!(long_bytes(-64), vec![0x7f]);
    assert_eq!(long_bytes(64), vec![0x80, 0x01]);
    assert_eq!(long_bytes(8192), vec![0x80, 0x80, 0x01]);
    assert_eq!(long_bytes(-8193), vec![0x81, 0x80, 0x01]);
    assert_eq!(
        long_bytes(i64::MAX),
        vec![0xfe, 0xff, 0xff, 0xff, 0xff, 0xff, 0xff, 0xff, 0xff, 0x01]
    );
    assert_eq!(
        long_bytes(i64::MIN),
        vec![0xff, 0xff, 0xff, 0xff, 0xff, 0xff, 0xff, 0xff, 0xff, 0x01]
    );
}

#[test]
fn varint_and_length_append_to_what_is_there() {
    let mut out = vec![0xAA];
    write_varint(300, &mut out);
    assert_eq!(out, vec![0xAA, 0xAC, 0x02]);
    write_length(3, &mut out);
    assert_eq!(out, vec![0xAA, 0xAC, 0x02, 0x06]);
}

#[test]
fn read_long_gives_value_and_next_position() {
    assert_eq!(read_long(&[0x00], 0), Ok((0, 1)));
    assert_eq!(read_long(&[0xAA, 0x80, 0x01, 0xBB], 1), Ok((64, 3)));
    assert_eq!(read_long(&[0x7f], 0), Ok((-64, 1)));
    let max = long_bytes(i64::MAX);
    assert_eq!(read_long(&max, 0), Ok((i64::MAX, 10)));
    let min = long_bytes(i64::MIN);
    assert_eq!(read_long(&min, 0), Ok((i64::MIN, 10)));
    // More bytes than the number needs are read all the same.
    assert_eq!(read_long(&[0x82, 0x80, 0x00], 0), Ok((1, 3)));
}

#[test]
fn read_long_rejects_what_is_no_long() {
    assert_eq!(read_long(&[], 0), Err(ErrorKind::TruncatedFrame));
    assert_eq!(read_long(&[0x80], 0), Err(ErrorKind::TruncatedFrame));
    assert_eq!(read_long(&[0x00], 1), Err(ErrorKind::TruncatedFrame));
    assert_eq!(read_long(&[0x00], 7), Err(ErrorKind::TruncatedFrame));
    // eleven bytes
    assert_eq!(read_long(&[0x80; 11], 0), Err(ErrorKind::MalformedPayload));
    // ten bytes, more than 64 bits
    assert_eq!(
        read_long(&[0xff, 0xff, 0xff, 0xff, 0xff, 0xff, 0xff, 0xff, 0xff, 0x02], 0),
        Err(ErrorKind::MalformedPayload)
    );
}

#[test]
fn encodings_of_primitive_values() {
    assert_eq!(encoded(&Value::Null), Vec::<u8>::new());
    assert_eq!(encoded(&Value::Boolean(false)), vec![0]);
    assert_eq!(encoded(&Value::Boolean(true)), vec![1]);
    assert_eq!(encoded(&Value::Int(-3)), vec![0x05]);
    assert_eq!(encoded(&Value::Long(27)), vec![0x36]);
    assert_eq!(encoded(&Value::Float(1.0f32.to_bits())), vec![0x00, 0x00, 0x80, 0x3f]);
    assert_eq!(
        encoded(&Value::Double((-2.5f64).to_bits())),
        vec![0x00, 0x00, 0x00, 0x00, 0x00, 0x00, 0x04, 0xc0]
    );
    assert_eq!(encoded(&Value::Bytes(vec![0xde, 0xad])), vec![0x04, 0xde, 0xad]);
    assert_eq!(encoded(&Value::String("foo".to_string())), vec![0x06, 0x66, 0x6f, 0x6f]);
    assert_eq!(encoded(&Value::String("é".to_string())), vec![0x04, 0xc3, 0xa9]);
    assert_eq!(encoded(&Value::Fixed(vec![1, 2, 3])), vec![1, 2, 3]);
    assert_eq!(encoded(&Value::Enum(2, "CLUBS".to_string())), vec![0x04]);
}

#[test]
fn encodings_of_composite_values() {
    let rec = Value::Record(vec![
        ("a".to_string(), Value::Long(27)),
        ("b".to_string(), Value::String("foo".to_string())),
    ]);
    assert_eq!(encoded(&rec), vec![0x36, 0x06, 0x66, 0x6f, 0x6f]);
    let arr = Value::Array(vec![Value::Long(3), Value::Long(27)]);
    assert_eq!(encoded(&arr), vec![0x04, 0x06, 0x36, 0x00]);
    assert_eq!(encoded(&Value::Array(vec![])), vec![0x00]);
    let dict = Value::Dict(vec![("k".to_string(), Value::Int(1))]);
    assert_eq!(encoded(&dict), vec![0x02, 0x02, 0x6b, 0x02, 0x00]);
    assert_eq!(encoded(&Value::Dict(vec![])), vec![0x00]);
    assert_eq!(encoded(&Value::Union(0, Box::new(Value::Null))), vec![0x00]);
    let some = Value::Union(1, Box::new(Value::String("a".to_string())));
    assert_eq!(encoded(&some), vec![0x02, 0x02, 0x61]);
}

#[test]
fn decode_reads_primitive_values() {
    assert_eq!(decode_value(&Schema::Null, &[], 0), Ok((Value::Null, 0)));
    assert_eq!(decode_value(&Schema::Null, &[1, 2], 5), Ok((Value::Null, 5)));
    assert_eq!(decode_value(&Schema::Boolean, &[1], 0), Ok((Value::Boolean(true), 1)));
    assert_eq!(decode_value(&Schema::Boolean, &[9, 0], 1), Ok((Value::Boolean(false), 2)));
    assert_eq!(decode_value(&Schema::Int, &[0x05], 0), Ok((Value::Int(-3), 1)));
    assert_eq!(decode_value(&Schema::Long, &[0x80, 0x01], 0), Ok((Value::Long(64), 2)));
    assert_eq!(
        decode_value(&Schema::Float, &[0x00, 0x00, 0x80, 0x3f], 0),
        Ok((Value::Float(1.0f32.to_bits()), 4))
    );
    assert_eq!(
        decode_value(&Schema::Double, &[0, 0, 0, 0, 0, 0, 0x04, 0xc0, 0xff], 0),
        Ok((Value::Double((-2.5f64).to_bits()), 8))
    );
    assert_eq!(
        decode_value(&Schema::Bytes, &[0x04, 0xde, 0xad], 0),
        Ok((Value::Bytes(vec![0xde, 0xad]), 3))
    );
    assert_eq!(
        decode_value(&Schema::String, &[0x04, 0xc3, 0xa9], 0),
        Ok((Value::String("é".to_string()), 3))
    );
    let fixed = Schema::Fixed { name: "F".to_string(), size: 2 };
    assert_eq!(decode_value(&fixed, &[7, 8, 9], 1), Ok((Value::Fixed(vec![8, 9]), 3)));
    assert_eq!(decode_value(&suit(), &[0x02], 0), Ok((Value::Enum(1, "HEARTS".to_string()), 1)));
}

#[test]
fn decode_reads_composite_values() {
    let rec = record("R", vec![field("a", Schema::Long), field("b", Schema::String)]);
    assert_eq!(
        decode_value(&rec, &[0x36, 0x06, 0x66, 0x6f, 0x6f], 0),
        Ok((
            Value::Record(vec![
                ("a".to_string(), Value::Long(27)),
                ("b".to_string(), Value::String("foo".to_string())),
            ]),
            5
        ))
    );
    let arr = Schema::Array(Box::new(Schema::Long));
    assert_eq!(
        decode_value(&arr, &[0x04, 0x06, 0x36, 0x00], 0),
        Ok((Value::Array(vec![Value::Long(3), Value::Long(27)]), 4))
    );
    let dict = Schema::Dict(Box::new(Schema::Int));
    assert_eq!(
        decode_value(&dict, &[0x02, 0x02, 0x6b, 0x02, 0x00], 0),
        Ok((Value::Dict(vec![("k".to_string(), Value::Int(1))]), 5))
    );
    let opt = Schema::Union(vec![Schema::Null, Schema::String]);
    assert_eq!(
        decode_value(&opt, &[0x00], 0),
        Ok((Value::Union(0, Box::new(Value::Null)), 1))
    );
    assert_eq!(
        decode_value(&opt, &[0x02, 0x02, 0x61], 0),
        Ok((Value::Union(1, Box::new(Value::String("a".to_string()))), 3))
    );
}

#[test]
fn decode_reads_arrays_of_several_blocks() {
    let arr = Schema::Array(Box::new(Schema::Long));
    // a block of two, a block of one, the end
    assert_eq!(
        decode_value(&arr, &[0x04, 0x02, 0x04, 0x02, 0x06, 0x00], 0),
        Ok((Value::Array(vec![Value::Long(1), Value::Long(2), Value::Long(3)]), 6))
    );
    // a negative count is followed by the size of the block in bytes
    assert_eq!(
        decode_value(&arr, &[0x03, 0x04, 0x02, 0x04, 0x00], 0),
        Ok((Value::Array(vec![Value::Long(1), Value::Long(2)]), 5))
    );
    let dict = Schema::Dict(Box::new(Schema::Boolean));
    assert_eq!(
        decode_value(&dict, &[0x01, 0x06, 0x02, 0x61, 0x01, 0x02, 0x02, 0x62, 0x00, 0x00], 0),
        Ok((
            Value::Dict(vec![
                ("a".to_string(), Value::Boolean(true)),
                ("b".to_string(), Value::Boolean(false)),
            ]),
            10
        ))
    );
    let nulls = Schema::Array(Box::new(Schema::Null));
    assert_eq!(
        decode_value(&nulls, &[0x06, 0x00], 0),
        Ok((Value::Array(vec![Value::Null, Value::Null, Value::Null]), 2))
    );
}

#[test]
fn decode_of_input_that_ends_early_is_truncated() {
    let t = |at| Err(failure(ErrorKind::TruncatedFrame, at));
    assert_eq!(decode_value(&Schema::Boolean, &[], 0), t(0));
    assert_eq!(decode_value(&Schema::Boolean, &[1], 3), t(3));
    assert_eq!(decode_value(&Schema::Int, &[0x80], 0), t(0));
    assert_eq!(decode_value(&Schema::Long, &[], 0), t(0));
    assert_eq!(decode_value(&Schema::Float, &[0, 0, 0], 0), t(0));
    assert_eq!(decode_value(&Schema::Double, &[0; 8], 1), t(1));
    assert_eq!(decode_value(&Schema::Bytes, &[0x04, 0xde], 0), t(0));
    assert_eq!(decode_value(&Schema::String, &[0x06, 0x66, 0x6f], 0), t(0));
    let fixed = Schema::Fixed { name: "F".to_string(), size: 4 };
    assert_eq!(decode_value(&fixed, &[1, 2, 3], 0), t(0));
    assert_eq!(decode_value(&fixed, &[1, 2, 3], 9), t(9));
    let arr = Schema::Array(Box::new(Schema::Long));
    assert_eq!(decode_value(&arr, &[0x04, 0x06], 0), t(2));
    assert_eq!(decode_value(&arr, &[0x04, 0x06, 0x36], 0), t(3));
    assert_eq!(decode_value(&arr, &[], 4), t(4));
    let dict = Schema::Dict(Box::new(Schema::Int));
    assert_eq!(decode_value(&dict, &[0x02, 0x02], 0), t(1));
    assert_eq!(decode_value(&dict, &[0x02, 0x02, 0x6b], 0), t(3));
}

#[test]
fn decode_of_bytes_that_encode_nothing_is_malformed() {
    let m = |at| Err(failure(ErrorKind::MalformedPayload, at));
    assert_eq!(decode_value(&Schema::Boolean, &[2], 0), m(0));
    assert_eq!(decode_value(&Schema::Long, &[0x80; 11], 0), m(0));
    // 2^31 does not fit an int
    assert_eq!(decode_value(&Schema::Int, &[0x80, 0x80, 0x80, 0x80, 0x10], 0), m(0));
    assert_eq!(
        decode_value(&Schema::Int, &[0xfe, 0xff, 0xff, 0xff, 0x0f], 0),
        Ok((Value::Int(i32::MAX), 5))
    );
    assert_eq!(
        decode_value(&Schema::Int, &[0xff, 0xff, 0xff, 0xff, 0x0f], 0),
        Ok((Value::Int(i32::MIN), 5))
    );
    // a negative length
    assert_eq!(decode_value(&Schema::Bytes, &[0x01], 0), m(0));
    assert_eq!(decode_value(&Schema::String, &[0x03, 0x61], 0), m(0));
    // not UTF-8
    assert_eq!(decode_value(&Schema::String, &[0x02, 0xff], 0), m(0));
    assert_eq!(decode_value(&Schema::String, &[0x04, 0xc3, 0x28], 0), m(0));
    // no such symbol, no such branch
    assert_eq!(decode_value(&suit(), &[0x06], 0), m(0));
    assert_eq!(decode_value(&suit(), &[0x01], 0), m(0));
    let opt = Schema::Union(vec![Schema::Null, Schema::String]);
    assert_eq!(decode_value(&opt, &[0x04], 0), m(0));
    assert_eq!(decode_value(&opt, &[0x01], 0), m(0));
}

#[test]
fn decode_failure_names_the_fields_around_it() {
    let inner = record("Inner", vec![field("x", Schema::Int), field("flag", Schema::Boolean)]);
    let outer = record("Outer", vec![field("id", Schema::Long), field("inner", inner)]);
    // id = 1, x = 2, flag = 7 (no boolean)
    assert_eq!(
        decode_value(&outer, &[0x02, 0x04, 0x07], 0),
        Err(Error {
            kind: ErrorKind::MalformedPayload,
            offset: 2,
            path: vec!["inner".to_string(), "flag".to_string()],
        })
    );
    assert_eq!(
        decode_value(&outer, &[0x02], 0),
        Err(Error {
            kind: ErrorKind::TruncatedFrame,
            offset: 1,
            path: vec!["inner".to_string(), "x".to_string()],
        })
    );
}

#[test]
fn decode_gives_back_what_encode_wrote() {
    let schema = record(
        "Everything",
        vec![
            field("n", Schema::Null),
            field("b", Schema::Boolean),
            field("i", Schema::Int),
            field("l", Schema::Long),
            field("f", Schema::Float),
            field("d", Schema::Double),
            field("raw", Schema::Bytes),
            field("s", Schema::String),
            field("e", suit()),
            field("a", Schema::Array(Box::new(Schema::String))),
            field("m", Schema::Dict(Box::new(Schema::Long))),
            field("u", Schema::Union(vec![Schema::Null, Schema::Long])),
            field("x", Schema::Fixed { name: "Four".to_string(), size: 4 }),
        ],
    );
    let value = Value::Record(vec![
        ("n".to_string(), Value::Null),
        ("b".to_string(), Value::Boolean(true)),
        ("i".to_string(), Value::Int(i32::MIN)),
        ("l".to_string(), Value::Long(i64::MAX)),
        ("f".to_string(), Value::Float(3.25f32.to_bits())),
        ("d".to_string(), Value::Double(f64::NAN.to_bits())),
        ("raw".to_string(), Value::Bytes(vec![0, 255, 128])),
        ("s".to_string(), Value::String("grüß dich, 世界".to_string())),
        ("e".to_string(), Value::Enum(2, "CLUBS".to_string())),
        (
            "a".to_string(),
            Value::Array(vec![Value::String("x".to_string()), Value::String(String::new())]),
        ),
        (
            "m".to_string(),
            Value::Dict(vec![
                ("one".to_string(), Value::Long(1)),
                ("one".to_string(), Value::Long(-1)),
            ]),
        ),
        ("u".to_string(), Value::Union(1, Box::new(Value::Long(-7)))),
        ("x".to_string(), Value::Fixed(vec![1, 2, 3, 4])),
    ]);
    assert!(schema.accepts(&value));
    let mut bytes = vec![0xEE, 0xEE];
    encode_value(&value, &mut bytes);
    let end = bytes.len();
    bytes.push(0x99);
    assert_eq!(decode_value(&schema, &bytes, 2), Ok((value, end)));
}

#[test]
fn the_avro_library_reads_what_encode_wrote() {
    let text = r#"{"type": "record", "name": "R", "fields": [
        {"name": "a", "type": "long"},
        {"name": "b", "type": "string"},
        {"name": "c", "type": {"type": "array", "items": "int"}},
        {"name": "d", "type": ["null", "double"]},
        {"name": "e", "type": {"type": "enum", "name": "Suit", "symbols": ["SPADES", "HEARTS"]}}
    ]}"#;
    let theirs = apache_avro::Schema::parse_str(text).unwrap();
    let value = Value::Record(vec![
        ("a".to_string(), Value::Long(-123456789)),
        ("b".to_string(), Value::String("hello".to_string())),
        ("c".to_string(), Value::Array(vec![Value::Int(1), Value::Int(-1)])),
        ("d".to_string(), Value::Union(1, Box::new(Value::Double(0.5f64.to_bits())))),
        ("e".to_string(), Value::Enum(1, "HEARTS".to_string())),
    ]);
    let bytes = encoded(&value);
    let read = apache_avro::from_avro_datum(&theirs, &mut bytes.as_slice(), None).unwrap();
    let expected = apache_avro::types::Value::Record(vec![
        ("a".to_string(), apache_avro::types::Value::Long(-123456789)),
        ("b".to_string(), apache_avro::types::Value::String("hello".to_string())),
        (
            "c".to_string(),
            apache_avro::types::Value::Array(vec![
                apache_avro::types::Value::Int(1),
                apache_avro::types::Value::Int(-1),
            ]),
        ),
        (
            "d".to_string(),
            apache_avro::types::Value::Union(1, Box::new(apache_avro::types::Value::Double(0.5))),
        ),
        ("e".to_string(), apache_avro::types::Value::Enum(1, "HEARTS".to_string())),
    ]);
    assert_eq!(read, expected);
    let written = apache_avro::to_avro_datum(&theirs, expected).unwrap();
    assert_eq!(written, bytes);
}
