use single_object::canonical::write_canonical;
use single_object::frame::append_bytes;
use single_object::schema::{Field, Schema};
use single_object::source::Lookup;
use single_object::value::{copy_bytes, same_bytes, Value};

fn field(name: &str, schema: Schema) -> Field {
    Field { name: name.to_string(), doc: None, aliases: vec![], schema, default: None }
}

fn rich() -> Schema {
    Schema::Record {
        name: "ns.Rich".to_string(),
        doc: Some("every kind of node".to_string()),
        fields: vec![
            Field {
                name: "e".to_string(),
                doc: Some("an enum".to_string()),
                aliases: vec!["old_e".to_string(), "older_e".to_string()],
                schema: Schema::Enum {
                    name: "E".to_string(),
                    doc: None,
                    symbols: vec!["A".to_string(), "B".to_string()],
                    default: Some("B".to_string()),
                },
                default: Some(Value::Enum(0, "A".to_string())),
            },
            field("u", Schema::Union(vec![Schema::Null, Schema::Fixed { name: "F".to_string(), size: 3 }])),
            field("a", Schema::Array(Box::new(Schema::Dict(Box::new(Schema::Double))))),
        ],
    }
}

#[test]
fn append_bytes_keeps_what_is_there() {
    let mut out = vec![1, 2];
    append_bytes(&mut out, &[3, 4, 5]);
    assert_eq!(out, vec![1, 2, 3, 4, 5]);
    append_bytes(&mut out, &[]);
    assert_eq!(out, vec![1, 2, 3, 4, 5]);
}

#[test]
fn copy_and_compare_bytes() {
    let bytes = vec![9u8, 8, 7];
    assert_eq!(copy_bytes(&bytes), bytes);
    assert!(same_bytes(&bytes, &[9, 8, 7]));
    assert!(!same_bytes(&bytes, &[9, 8]));
    assert!(!same_bytes(&bytes, &[9, 8, 6]));
    assert!(same_bytes(&[], &[]));
}

#[test]
fn write_canonical_appends_to_the_text() {
    let mut out = String::from("schema: ");
    write_canonical(&Schema::Union(vec![Schema::Null, Schema::Long]), &mut out);
    assert_eq!(out, r#"schema: ["null","long"]"#);
}

#[test]
fn schemas_copy_deeply() {
    let schema = rich();
    let copy = schema.deep_clone();
    assert_eq!(copy, schema);
    assert_eq!(schema.clone(), schema);
    assert!(schema.same_as(&copy));
    assert!(copy.is_well_formed());
    match (&schema, &copy) {
        (Schema::Record { fields: a, .. }, Schema::Record { fields: b, .. }) => {
            assert_eq!(a[0].deep_clone(), b[0]);
            assert_eq!(a[0].clone(), b[0]);
            assert!(a[0].same_as(&b[0]));
            assert!(!a[0].same_as(&b[1]));
        },
        _ => unreachable!(),
    }
    assert_eq!(Lookup::Found(schema).clone(), Lookup::Found(copy));
}
