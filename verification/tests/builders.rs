use single_object::schema::{Field, Schema};
use single_object::value::Value;

#[test]
fn field_builders_set_one_part_each() {
    let plain = Field::new("a", Schema::Int);
    assert_eq!(
        plain,
        Field { name: "a".to_string(), doc: None, aliases: vec![], schema: Schema::Int, default: None }
    );
    let full = Field::new("a", Schema::Int)
        .with_default(Value::Int(7))
        .with_alias("old")
        .with_alias("older")
        .with_doc("the a");
    assert_eq!(
        full,
        Field {
            name: "a".to_string(),
            doc: Some("the a".to_string()),
            aliases: vec!["old".to_string(), "older".to_string()],
            schema: Schema::Int,
            default: Some(Value::Int(7)),
        }
    );
    assert!(full.is_well_formed());
}

#[test]
fn schema_builders_make_the_node_they_name() {
    assert_eq!(
        Schema::record("R", vec![Field::new("a", Schema::Long)]),
        Schema::Record {
            name: "R".to_string(),
            doc: None,
            fields: vec![Field::new("a", Schema::Long)],
        }
    );
    assert_eq!(
        Schema::enumeration("E", vec!["A".to_string(), "B".to_string()]),
        Schema::Enum {
            name: "E".to_string(),
            doc: None,
            symbols: vec!["A".to_string(), "B".to_string()],
            default: None,
        }
    );
    assert_eq!(Schema::fixed("F", 16), Schema::Fixed { name: "F".to_string(), size: 16 });
    assert_eq!(Schema::array(Schema::Int), Schema::Array(Box::new(Schema::Int)));
    assert_eq!(Schema::dict(Schema::Int), Schema::Dict(Box::new(Schema::Int)));
    assert_eq!(
        Schema::optional(Schema::String),
        Schema::Union(vec![Schema::Null, Schema::String])
    );
}

#[test]
fn get_finds_the_first_entry_of_the_name() {
    let record = Value::Record(vec![
        ("a".to_string(), Value::Int(1)),
        ("b".to_string(), Value::Int(2)),
    ]);
    assert_eq!(record.get("a"), Some(&Value::Int(1)));
    assert_eq!(record.get("b"), Some(&Value::Int(2)));
    assert_eq!(record.get("c"), None);
    assert_eq!(record.get(""), None);
    let dict = Value::Dict(vec![
        ("k".to_string(), Value::Long(1)),
        ("k".to_string(), Value::Long(2)),
    ]);
    assert_eq!(dict.get("k"), Some(&Value::Long(1)));
    assert_eq!(Value::Int(3).get("a"), None);
    assert_eq!(Value::Array(vec![Value::Int(3)]).get("a"), None);
}
