use single_object::canonical::canonical_form;
use single_object::error::{Error, ErrorKind};
use single_object::fingerprint::{fingerprint, Fingerprint};
use single_object::schema::{is_valid_full_name, is_valid_identifier, Field, Schema};
use single_object::value::Value;

fn field(name: &str, schema: Schema) -> Field {
    Field { name: name.to_string(), doc: None, aliases: vec![], schema, default: None }
}

fn record(name: &str, fields: Vec<Field>) -> Schema {
    Schema::Record { name: name.to_string(), doc: None, fields }
}

fn enumeration(name: &str, symbols: &[&str], default: Option<&str>) -> Schema {
    Schema::Enum {
        name: name.to_string(),
        doc: None,
        symbols: symbols.iter().map(|s| s.to_string()).collect(),
        default: default.map(|s| s.to_string()),
    }
}

fn fixed(name: &str, size: usize) -> Schema {
    Schema::Fixed { name: name.to_string(), size }
}

fn invalid() -> Result<Fingerprint, Error> {
    Err(Error { kind: ErrorKind::InvalidSchema, offset: 0, path: vec![] })
}

#[test]
fn identifiers_start_with_a_letter_or_underscore() {
    assert!(is_valid_identifier("a"));
    assert!(is_valid_identifier("_x9"));
    assert!(is_valid_identifier("blog_title"));
    assert!(is_valid_identifier("Z"));
    assert!(!is_valid_identifier(""));
    assert!(!is_valid_identifier("9a"));
    assert!(!is_valid_identifier("a-b"));
    assert!(!is_valid_identifier("a.b"));
    assert!(!is_valid_identifier("é"));
    assert!(!is_valid_identifier("a b"));
}

#[test]
fn full_names_are_identifiers_joined_by_dots() {
    assert!(is_valid_full_name("Comment"));
    assert!(is_valid_full_name("blog.events.Comment"));
    assert!(is_valid_full_name("_a._b"));
    assert!(!is_valid_full_name(""));
    assert!(!is_valid_full_name("."));
    assert!(!is_valid_full_name(".a"));
    assert!(!is_valid_full_name("a."));
    assert!(!is_valid_full_name("a..b"));
    assert!(!is_valid_full_name("a.9b"));
    assert!(!is_valid_full_name("a b"));
}

#[test]
fn primitive_schemas_are_well_formed() {
    for s in [
        Schema::Null,
        Schema::Boolean,
        Schema::Int,
        Schema::Long,
        Schema::Float,
        Schema::Double,
        Schema::Bytes,
        Schema::String,
    ] {
        assert!(s.is_well_formed());
    }
}

#[test]
fn records_need_valid_distinct_field_names() {
    assert!(record("R", vec![]).is_well_formed());
    assert!(record("R", vec![field("a", Schema::Int), field("b", Schema::Int)]).is_well_formed());
    assert!(!record("R", vec![field("a", Schema::Int), field("a", Schema::Long)]).is_well_formed());
    assert!(!record("R", vec![field("1a", Schema::Int)]).is_well_formed());
    assert!(!record("", vec![]).is_well_formed());
    assert!(!record("R", vec![field("a", record("bad name", vec![]))]).is_well_formed());
    let three = vec![field("a", Schema::Int), field("b", Schema::Int), field("b", Schema::Int)];
    assert!(!record("R", three).is_well_formed());
}

#[test]
fn field_defaults_must_be_of_the_field_type() {
    let mut f = field("a", Schema::Int);
    f.default = Some(Value::Int(0));
    assert!(f.is_well_formed());
    assert!(record("R", vec![f]).is_well_formed());
    let mut g = field("a", Schema::Int);
    g.default = Some(Value::Long(0));
    assert!(!g.is_well_formed());
    assert!(!record("R", vec![g]).is_well_formed());
}

#[test]
fn enums_need_valid_distinct_symbols_and_a_known_default() {
    assert!(enumeration("E", &["A", "B"], None).is_well_formed());
    assert!(enumeration("E", &[], None).is_well_formed());
    assert!(enumeration("E", &["A", "B"], Some("B")).is_well_formed());
    assert!(!enumeration("E", &["A", "B"], Some("C")).is_well_formed());
    assert!(!enumeration("E", &["A", "A"], None).is_well_formed());
    assert!(!enumeration("E", &["A", "B", "A"], None).is_well_formed());
    assert!(!enumeration("E", &["a-b"], None).is_well_formed());
    assert!(!enumeration("E.", &["A"], None).is_well_formed());
}

#[test]
fn unions_hold_no_union_and_no_type_twice() {
    assert!(Schema::Union(vec![]).is_well_formed());
    assert!(Schema::Union(vec![Schema::Null, Schema::String]).is_well_formed());
    assert!(!Schema::Union(vec![Schema::Null, Schema::Null]).is_well_formed());
    assert!(!Schema::Union(vec![Schema::Int, Schema::String, Schema::Int]).is_well_formed());
    assert!(!Schema::Union(vec![Schema::Union(vec![Schema::Null])]).is_well_formed());
    let arrays = vec![
        Schema::Array(Box::new(Schema::Int)),
        Schema::Array(Box::new(Schema::String)),
    ];
    assert!(!Schema::Union(arrays).is_well_formed());
    assert!(Schema::Union(vec![record("A", vec![]), record("B", vec![])]).is_well_formed());
    assert!(!Schema::Union(vec![record("A", vec![]), record("A", vec![])]).is_well_formed());
    assert!(Schema::Union(vec![record("A", vec![]), fixed("A", 2)]).is_well_formed());
    assert!(!Schema::Union(vec![Schema::Int, record("bad name", vec![])]).is_well_formed());
}

#[test]
fn containers_are_as_well_formed_as_what_they_hold() {
    assert!(Schema::Array(Box::new(Schema::Int)).is_well_formed());
    assert!(!Schema::Array(Box::new(fixed("9", 1))).is_well_formed());
    assert!(Schema::Dict(Box::new(fixed("F", 0))).is_well_formed());
    assert!(!Schema::Dict(Box::new(enumeration("E", &["A", "A"], None))).is_well_formed());
}

#[test]
fn same_type_as_compares_kind_and_name() {
    assert!(Schema::Int.same_type_as(&Schema::Int));
    assert!(!Schema::Int.same_type_as(&Schema::Long));
    assert!(fixed("A", 1).same_type_as(&fixed("A", 2)));
    assert!(!fixed("A", 1).same_type_as(&fixed("B", 1)));
    assert!(!record("A", vec![]).same_type_as(&fixed("A", 1)));
    assert_eq!(Schema::Null.rank(), 0);
    assert_eq!(fixed("A", 1).rank(), 13);
}

#[test]
fn same_as_compares_all_of_a_schema() {
    let a = record("R", vec![field("a", Schema::Int)]);
    let b = record("R", vec![field("a", Schema::Int)]);
    assert!(a.same_as(&b));
    let mut documented = field("a", Schema::Int);
    documented.doc = Some("the a".to_string());
    assert!(!a.same_as(&record("R", vec![documented])));
    let mut aliased = field("a", Schema::Int);
    aliased.aliases = vec!["old".to_string()];
    assert!(!a.same_as(&record("R", vec![aliased])));
    let mut defaulted = field("a", Schema::Int);
    defaulted.default = Some(Value::Int(1));
    assert!(!a.same_as(&record("R", vec![defaulted])));
    assert!(!a.same_as(&record("R", vec![field("a", Schema::Long)])));
    assert!(!a.same_as(&record("S", vec![field("a", Schema::Int)])));
    assert!(!a.same_as(&record("R", vec![])));
    assert!(!a.same_as(&Schema::Int));
    let e = enumeration("E", &["A", "B"], None);
    assert!(e.same_as(&enumeration("E", &["A", "B"], None)));
    assert!(!e.same_as(&enumeration("E", &["A", "B"], Some("A"))));
    assert!(!e.same_as(&enumeration("E", &["B", "A"], None)));
    let u = Schema::Union(vec![Schema::Null, Schema::Int]);
    assert!(u.same_as(&Schema::Union(vec![Schema::Null, Schema::Int])));
    assert!(!u.same_as(&Schema::Union(vec![Schema::Int, Schema::Null])));
}

#[test]
fn accepts_tells_values_of_the_type_from_others() {
    assert!(Schema::Null.accepts(&Value::Null));
    assert!(!Schema::Null.accepts(&Value::Int(0)));
    assert!(Schema::Long.accepts(&Value::Long(1)));
    assert!(!Schema::Long.accepts(&Value::Int(1)));
    assert!(Schema::String.accepts(&Value::String("x".to_string())));
    assert!(!Schema::String.accepts(&Value::Bytes(vec![b'x'])));
    assert!(fixed("F", 2).accepts(&Value::Fixed(vec![1, 2])));
    assert!(!fixed("F", 2).accepts(&Value::Fixed(vec![1])));
    let e = enumeration("E", &["A", "B"], None);
    assert!(e.accepts(&Value::Enum(1, "B".to_string())));
    assert!(!e.accepts(&Value::Enum(0, "B".to_string())));
    assert!(!e.accepts(&Value::Enum(2, "C".to_string())));
    let r = record("R", vec![field("a", Schema::Int), field("b", Schema::String)]);
    let good = Value::Record(vec![
        ("a".to_string(), Value::Int(1)),
        ("b".to_string(), Value::String("x".to_string())),
    ]);
    assert!(r.accepts(&good));
    let swapped = Value::Record(vec![
        ("b".to_string(), Value::String("x".to_string())),
        ("a".to_string(), Value::Int(1)),
    ]);
    assert!(!r.accepts(&swapped));
    assert!(!r.accepts(&Value::Record(vec![("a".to_string(), Value::Int(1))])));
    let arr = Schema::Array(Box::new(Schema::Int));
    assert!(arr.accepts(&Value::Array(vec![])));
    assert!(arr.accepts(&Value::Array(vec![Value::Int(1), Value::Int(2)])));
    assert!(!arr.accepts(&Value::Array(vec![Value::Int(1), Value::Long(2)])));
    let dict = Schema::Dict(Box::new(Schema::Int));
    assert!(dict.accepts(&Value::Dict(vec![("k".to_string(), Value::Int(1))])));
    assert!(!dict.accepts(&Value::Dict(vec![("k".to_string(), Value::Null)])));
    let u = Schema::Union(vec![Schema::Null, Schema::Int]);
    assert!(u.accepts(&Value::Union(1, Box::new(Value::Int(3)))));
    assert!(!u.accepts(&Value::Union(0, Box::new(Value::Int(3)))));
    assert!(!u.accepts(&Value::Union(2, Box::new(Value::Int(3)))));
    assert!(!u.accepts(&Value::Int(3)));
}

#[test]
fn values_compare_and_copy_deeply() {
    let v = Value::Record(vec![
        ("a".to_string(), Value::Array(vec![Value::Bytes(vec![1, 2]), Value::Bytes(vec![])])),
        ("b".to_string(), Value::Union(1, Box::new(Value::Dict(vec![("k".to_string(), Value::Float(7))])))),
    ]);
    let copy = v.deep_clone();
    assert_eq!(copy, v);
    assert_eq!(v.clone(), v);
    assert!(v.same_as(&copy));
    let other = Value::Record(vec![
        ("a".to_string(), Value::Array(vec![Value::Bytes(vec![1, 2]), Value::Bytes(vec![0])])),
        ("b".to_string(), Value::Union(1, Box::new(Value::Dict(vec![("k".to_string(), Value::Float(7))])))),
    ]);
    assert!(!v.same_as(&other));
    assert!(!Value::Int(1).same_as(&Value::Long(1)));
    assert!(Value::Enum(1, "B".to_string()).same_as(&Value::Enum(1, "B".to_string())));
    assert!(!Value::Enum(1, "B".to_string()).same_as(&Value::Enum(0, "B".to_string())));
}

#[test]
fn canonical_form_of_each_kind() {
    assert_eq!(canonical_form(&Schema::Null), "\"null\"");
    assert_eq!(canonical_form(&Schema::Boolean), "\"boolean\"");
    assert_eq!(canonical_form(&Schema::Int), "\"int\"");
    assert_eq!(canonical_form(&Schema::Long), "\"long\"");
    assert_eq!(canonical_form(&Schema::Float), "\"float\"");
    assert_eq!(canonical_form(&Schema::Double), "\"double\"");
    assert_eq!(canonical_form(&Schema::Bytes), "\"bytes\"");
    assert_eq!(canonical_form(&Schema::String), "\"string\"");
    assert_eq!(
        canonical_form(&Schema::Array(Box::new(Schema::Long))),
        r#"{"type":"array","items":"long"}"#
    );
    assert_eq!(
        canonical_form(&Schema::Dict(Box::new(Schema::String))),
        r#"{"type":"map","values":"string"}"#
    );
    assert_eq!(
        canonical_form(&Schema::Union(vec![Schema::Null, Schema::Int, Schema::String])),
        r#"["null","int","string"]"#
    );
    assert_eq!(canonical_form(&Schema::Union(vec![])), "[]");
    assert_eq!(canonical_form(&fixed("md5", 16)), r#"{"name":"md5","type":"fixed","size":16}"#);
    assert_eq!(canonical_form(&fixed("z", 0)), r#"{"name":"z","type":"fixed","size":0}"#);
    assert_eq!(
        canonical_form(&fixed("big", 1234567890)),
        r#"{"name":"big","type":"fixed","size":1234567890}"#
    );
    assert_eq!(
        canonical_form(&enumeration("Suit", &["SPADES", "HEARTS"], Some("SPADES"))),
        r#"{"name":"Suit","type":"enum","symbols":["SPADES","HEARTS"]}"#
    );
    assert_eq!(
        canonical_form(&enumeration("None", &[], None)),
        r#"{"name":"None","type":"enum","symbols":[]}"#
    );
    assert_eq!(
        canonical_form(&record("R", vec![field("a", Schema::Long), field("b", Schema::String)])),
        r#"{"name":"R","type":"record","fields":[{"name":"a","type":"long"},{"name":"b","type":"string"}]}"#
    );
    assert_eq!(canonical_form(&record("R", vec![])), r#"{"name":"R","type":"record","fields":[]}"#);
}

#[test]
fn canonical_form_is_that_of_the_avro_library() {
    let text = r#"
    {
        "type": "record", "namespace": "blog.events", "name": "Comment",
        "doc": "A comment on a blog post",
        "fields": [
            {"name": "id", "type": "string", "doc": "the id"},
            {"name": "tags", "type": {"type": "array", "items": "string"}, "default": []},
            {"name": "votes", "type": {"type": "map", "values": "long"}},
            {"name": "locale", "aliases": ["lang"], "type":
                {"type": "enum", "name": "Locale", "symbols": ["en_US", "fr_FR"], "default": "en_US"}},
            {"name": "reply_to", "type": ["null", "string"], "default": null},
            {"name": "digest", "type": {"type": "fixed", "name": "Digest", "size": 16}},
            {"name": "score", "type": "double"}
        ]
    }"#;
    let theirs = apache_avro::Schema::parse_str(text).unwrap();
    let mut id = field("id", Schema::String);
    id.doc = Some("the id".to_string());
    let mut tags = field("tags", Schema::Array(Box::new(Schema::String)));
    tags.default = Some(Value::Array(vec![]));
    let mut locale = field(
        "locale",
        enumeration("blog.events.Locale", &["en_US", "fr_FR"], Some("en_US")),
    );
    locale.aliases = vec!["lang".to_string()];
    let mut reply_to = field("reply_to", Schema::Union(vec![Schema::Null, Schema::String]));
    reply_to.default = Some(Value::Union(0, Box::new(Value::Null)));
    let ours = Schema::Record {
        name: "blog.events.Comment".to_string(),
        doc: Some("A comment on a blog post".to_string()),
        fields: vec![
            id,
            tags,
            field("votes", Schema::Dict(Box::new(Schema::Long))),
            locale,
            reply_to,
            field("digest", fixed("blog.events.Digest", 16)),
            field("score", Schema::Double),
        ],
    };
    assert!(ours.is_well_formed());
    assert_eq!(canonical_form(&ours), theirs.canonical_form());
    assert_eq!(
        fingerprint(&ours).unwrap().to_bytes(),
        theirs.fingerprint::<apache_avro::rabin::Rabin>().bytes
    );
}

#[test]
fn fingerprint_is_the_same_each_time() {
    let make = || record("R", vec![field("a", Schema::Long), field("b", Schema::String)]);
    let first = fingerprint(&make()).unwrap();
    for _ in 0..5 {
        assert_eq!(fingerprint(&make()).unwrap(), first);
    }
    assert_eq!(first, Fingerprint(u64::from_le_bytes(first.to_bytes().try_into().unwrap())));
}

#[test]
fn fingerprint_ignores_documentation_aliases_and_defaults() {
    let plain = record(
        "R",
        vec![field("a", Schema::Long), field("e", enumeration("E", &["A", "B"], None))],
    );
    let mut a = field("a", Schema::Long);
    a.doc = Some("first".to_string());
    a.aliases = vec!["alpha".to_string()];
    a.default = Some(Value::Long(7));
    let annotated = Schema::Record {
        name: "R".to_string(),
        doc: Some("a record".to_string()),
        fields: vec![
            a,
            field(
                "e",
                Schema::Enum {
                    name: "E".to_string(),
                    doc: Some("an enum".to_string()),
                    symbols: vec!["A".to_string(), "B".to_string()],
                    default: Some("A".to_string()),
                },
            ),
        ],
    };
    assert_eq!(canonical_form(&plain), canonical_form(&annotated));
    assert_eq!(fingerprint(&plain), fingerprint(&annotated));
}

#[test]
fn fingerprint_tells_schemas_apart() {
    let a = fingerprint(&record("R", vec![field("a", Schema::Long)])).unwrap();
    let b = fingerprint(&record("R", vec![field("a", Schema::Int)])).unwrap();
    let c = fingerprint(&record("R", vec![field("b", Schema::Long)])).unwrap();
    assert_ne!(a, b);
    assert_ne!(a, c);
    assert_ne!(fingerprint(&Schema::Int).unwrap(), fingerprint(&Schema::Long).unwrap());
}

#[test]
fn fingerprint_of_a_malformed_schema_is_invalid_schema() {
    assert_eq!(fingerprint(&record("R", vec![field("a", Schema::Int), field("a", Schema::Int)])), invalid());
    assert_eq!(fingerprint(&enumeration("E", &["A"], Some("B"))), invalid());
    assert_eq!(fingerprint(&Schema::Union(vec![Schema::Int, Schema::Int])), invalid());
    assert_eq!(fingerprint(&fixed("not a name", 4)), invalid());
}

#[test]
fn fingerprints_of_primitives_are_the_published_ones() {
    // The CRC-64-AVRO fingerprints of "null", "boolean", "int" and "long".
    assert_eq!(fingerprint(&Schema::Null).unwrap(), Fingerprint(7195948357588979594));
    assert_eq!(fingerprint(&Schema::Boolean).unwrap(), Fingerprint(0x9f42fc78a4d4f764));
    assert_eq!(fingerprint(&Schema::Int).unwrap(), Fingerprint(0x7275d51a3f395c8f));
    assert_eq!(fingerprint(&Schema::Long).unwrap(), Fingerprint(0xd054e14493f41db7));
}

#[test]
fn fingerprint_to_and_from_bytes() {
    let fp = Fingerprint(0x0102030405060708);
    assert_eq!(fp.to_bytes(), vec![8, 7, 6, 5, 4, 3, 2, 1]);
    assert_eq!(Fingerprint::from_bytes([8, 7, 6, 5, 4, 3, 2, 1]), fp);
}
