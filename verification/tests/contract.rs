use xmip_core_contract_graphql_schema::text::trimmed;
use xmip_core_contract_graphql_schema::validation::Stream;
use xmip_core_contract_graphql_schema::{GraphqlSchema, GraphqlSchemaFactory, Schema};

const SCHEMA: &str = r"
    type Query { order(id: ID!): Order orders: [Order!]! }
    type Order { id: ID! lines: [Line!]! }
    type Line { sku: String! }
    extend type Query { me: Node }
    interface Node { id: ID! }
";

fn stream(text: &str, media_type: Option<&str>) -> Stream {
    Stream::new(text.as_bytes().to_vec(), media_type.map(str::to_string))
}

#[test]
fn a_sound_document_holds_bare_and_against_its_schema() {
    let bare = GraphqlSchema::new();
    let request = "query Q { orders { id lines { sku } } me { id } __typename }";
    assert!(bare.identify(&stream(request, None)).expect("identify"));
    assert!(
        bare.identify(&stream("x", Some("application/graphql; charset=utf-8")))
            .expect("identify")
    );
    assert!(!bare.identify(&stream("SELECT 1", None)).expect("identify"));
    assert!(!bare.identify(&stream("typed", None)).expect("identify"));
    assert!(
        bare.validate(&stream(request, None))
            .expect("validate")
            .valid
    );
    assert!(
        bare.validate(&stream(SCHEMA, None))
            .expect("validate")
            .valid
    );
    let bound = GraphqlSchema::against(Schema::parse(SCHEMA).expect("schema"), "orders");
    assert!(bound.is_bound());
    assert_eq!(bound.descriptor().id.0, "graphql-schema:orders");
    assert!(
        bound
            .validate(&stream(request, None))
            .expect("validate")
            .valid
    );
    let with_fragment = "fragment F on Order { id } { orders { ...F } }";
    assert!(
        bound
            .validate(&stream(with_fragment, None))
            .expect("validate")
            .valid
    );
}

#[test]
fn a_request_that_does_not_fit_the_schema_is_named_at_the_root() {
    let bound = GraphqlSchema::against(Schema::parse(SCHEMA).expect("schema"), "orders");
    let result = bound
        .validate(&stream("query Q { orders { id } customers { id } }", None))
        .expect("validate");
    assert!(!result.valid);
    assert_eq!(result.issues[0].code, "schema");
    assert_eq!(result.issues[0].message, "Query has no field customers");
    assert_eq!(result.issues[0].path.as_deref(), Some("Q"));
    let result = bound
        .validate(&stream("mutation { placeOrder { id } }", None))
        .expect("validate");
    assert_eq!(
        result.issues[0].message,
        "the schema has no mutation root type"
    );
    assert_eq!(result.issues[0].path.as_deref(), Some("mutation 1"));
    let result = bound
        .validate(&stream(
            "fragment F on Customer { id } { orders { ...F } }",
            None,
        ))
        .expect("validate");
    assert_eq!(result.issues[0].message, "the schema has no type Customer");
    let renamed = "schema { query: Root } type Root { ping: String }";
    let bound = GraphqlSchema::against(Schema::parse(renamed).expect("schema"), "r");
    assert!(
        bound
            .validate(&stream("{ ping }", None))
            .expect("validate")
            .valid
    );
}

#[test]
fn what_is_unsound_does_not_hold_and_the_factory_binds_what_it_read() {
    let result = GraphqlSchema::new()
        .validate(&stream("query { }", None))
        .expect("validate");
    assert!(!result.valid);
    assert_eq!(result.issues[0].code, "malformed");
    assert!(result.issues[0].message.starts_with("line 1:"));
    let binary = Stream::new(vec![0xff], None);
    assert!(
        !GraphqlSchema::new()
            .validate(&binary)
            .expect("validate")
            .valid
    );
    assert!(Schema::parse("query { a }").is_err(), "no types");
    let factory = GraphqlSchemaFactory;
    let path = factory
        .schema_path(" /tmp/xmip-graphql-schema-test/orders.graphql ")
        .expect("path");
    let loaded = factory
        .load_read(&path, Ok(SCHEMA.to_string()))
        .expect("load");
    assert!(loaded.descriptor().id.0.ends_with("orders.graphql"));
    assert!(factory
        .load_read("/no/such/file.graphql", Err("No such file or directory".to_string()))
        .is_err());
    assert!(factory.schema_path("").is_none());
    assert!(!GraphqlSchema::new().descriptor().id.0.contains(':'));
}

#[test]
fn issues_name_every_field_a_root_type_lacks_in_order() {
    let bound = GraphqlSchema::against(Schema::parse(SCHEMA).expect("schema"), "orders");
    let result = bound
        .validate(&stream("{ a __schema orders b } query { c } fragment F on Nope { x }", None))
        .expect("validate");
    let messages: Vec<(&str, Option<&str>)> = result
        .issues
        .iter()
        .map(|i| (i.message.as_str(), i.path.as_deref()))
        .collect();
    assert_eq!(
        messages,
        vec![
            ("Query has no field a", Some("query 1")),
            ("Query has no field b", Some("query 1")),
            ("Query has no field c", Some("query 2")),
            ("the schema has no type Nope", Some("fragment F")),
        ]
    );
    assert!(!result.valid);
}

#[test]
fn not_text_and_unsound_text_are_malformed_exactly() {
    let result = GraphqlSchema::new()
        .validate(&Stream::new(vec![b'{', 0xc3], None))
        .expect("validate");
    assert_eq!(result.issues.len(), 1);
    assert_eq!(result.issues[0].code, "malformed");
    assert!(result.issues[0].message.starts_with("not text: "));
    assert_eq!(result.issues[0].path, None);
    let result = GraphqlSchema::new()
        .validate(&stream("query Q {", None))
        .expect("validate");
    assert_eq!(result.issues[0].message, "line 1: expected a field, a spread or }");
}

#[test]
fn a_media_type_or_an_opening_word_identifies_graphql() {
    let bare = GraphqlSchema::default();
    assert!(bare.identify(&stream("", Some(" Application/GraphQL "))).expect("identify"));
    assert!(!bare.identify(&stream("", Some("application/json"))).expect("identify"));
    assert!(bare.identify(&stream("  \n\"\"\"doc\"\"\" type A", None)).expect("identify"));
    assert!(bare.identify(&stream("\tschema {", None)).expect("identify"));
    assert!(bare.identify(&stream("fragment\u{a0}F", None)).expect("identify"));
    assert!(!bare.identify(&stream("query", None)).expect("identify"));
    assert!(!bare.identify(&stream("queryé", None)).expect("identify"));
    assert!(!bare.identify(&Stream::new(vec![0xff], None)).expect("identify"));
}

#[test]
fn a_schema_merges_extensions_and_renames_roots() {
    let schema = Schema::parse(
        "schema { query: Root mutation: Root } type Root { a } extend type Root { b }",
    );
    assert!(schema.is_err(), "an untyped field");
    let schema = Schema::parse(
        "schema { query: Root mutation: Root } type Root { a: A } extend type Root { b: B }",
    )
    .expect("schema");
    let bound = GraphqlSchema::against(schema.clone(), "r");
    let result = bound
        .validate(&stream("{ a b } mutation M { b } subscription { s }", None))
        .expect("validate");
    let messages: Vec<&str> = result.issues.iter().map(|i| i.message.as_str()).collect();
    assert_eq!(messages, vec!["the schema has no subscription root type"]);
    assert_eq!(result.issues[0].path.as_deref(), Some("subscription 3"));
    assert_eq!(
        Schema::parse("").expect_err("empty").message,
        "a document with no definition"
    );
    assert_eq!(
        Schema::parse("query { a }").expect_err("no types").message,
        "a schema that defines no type"
    );
    let factory = GraphqlSchemaFactory;
    assert_eq!(factory.technology(), "graphql-schema");
    assert_eq!(
        factory.load_read("x", Err("gone".to_string())).err().expect("error").message,
        "cannot read schema x: gone"
    );
}

#[test]
fn trimming_drops_exactly_the_white_space_std_knows() {
    for code in 0u32..0x3100 {
        let Some(c) = char::from_u32(code) else { continue };
        let text: Vec<char> = vec![c, 'x', c];
        let expected: Vec<char> = format!("{c}x{c}").trim().chars().collect();
        assert_eq!(trimmed(&text), expected, "U+{code:04X}");
    }
}
