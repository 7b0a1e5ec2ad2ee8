use xmip_core_contract_graphql_schema::document::{parse, Definition};

pub const SCHEMA: &str = r#"
    "The schema"
    schema { query: Query mutation: Mutation }
    scalar DateTime @specifiedBy(url: "https://example")
    interface Node { id: ID! }
    type Order implements Node @key(fields: "id") {
        id: ID!
        "lines"
        lines(first: Int = 10, after: String): [Line!]!
        status: Status
    }
    type Line { sku: String! qty: Int! }
    enum Status { NEW PAID }
    union Result = | Order | Line
    input OrderInput { customer: String! lines: [LineInput!]! = [] }
    input LineInput { sku: String! qty: Int! }
    type Query { order(id: ID!): Order orders: [Order!]! }
    type Mutation { placeOrder(input: OrderInput!): Order }
    directive @key(fields: String!) repeatable on OBJECT | INTERFACE
    extend type Query { me: Node }
"#;

#[test]
fn a_schema_reads_into_its_types_and_fields() {
    let definitions = parse(SCHEMA).expect("parse");
    assert_eq!(definitions.len(), 13);
    assert_eq!(
        definitions[0],
        Definition::Schema {
            roots: vec![
                ("query".into(), "Query".into()),
                ("mutation".into(), "Mutation".into())
            ]
        }
    );
    let order = definitions
        .iter()
        .find(|d| matches!(d, Definition::Type { name, .. } if name == "Order"));
    let Some(Definition::Type { fields, .. }) = order else {
        panic!("Order");
    };
    assert_eq!(fields, &["id", "lines", "status"]);
    assert!(definitions.iter().any(|d| matches!(d,
        Definition::Type { keyword, fields, .. } if keyword == "union" && fields.len() == 2)));
    assert!(definitions.iter().any(|d| matches!(d,
        Definition::Directive { name } if name == "key")));
    let last = definitions.last().expect("extend");
    assert!(matches!(last, Definition::Type { name, fields, .. }
        if name == "Query" && fields == &["me"]));
}

#[test]
fn an_executable_document_reads_into_its_operations() {
    let text = r#"
        query Orders($first: Int!) @cached { orders(first: $first) { id ...LineFields } }
        mutation { placeOrder(input: {customer: "a", lines: []}) { id } }
        { first: order(id: "1") { id } ... on Query { me { id } } }
        fragment LineFields on Order { lines { sku qty } }
        subscription S { orderPlaced { id } }
    "#;
    let definitions = parse(text).expect("parse");
    assert_eq!(definitions.len(), 5);
    assert_eq!(
        definitions[0],
        Definition::Operation {
            kind: "query".into(),
            name: Some("Orders".into()),
            fields: vec!["orders".into()]
        }
    );
    assert!(
        matches!(&definitions[1], Definition::Operation { kind, name: None, fields }
        if kind == "mutation" && fields == &["placeOrder"])
    );
    assert!(
        matches!(&definitions[2], Definition::Operation { name: None, fields, .. }
        if fields == &["order"])
    );
    assert_eq!(
        definitions[3],
        Definition::Fragment {
            name: "LineFields".into(),
            on: "Order".into()
        }
    );
    assert!(parse("{ ...F }").is_ok(), "only a spread is not empty");
}

#[test]
fn what_is_not_a_document_is_refused_with_its_line() {
    for (text, why) in [
        ("", "empty"),
        ("query { }", "empty selection"),
        ("query Q {", "unclosed"),
        ("type Order { id ID }", "no colon"),
        ("fragment F { id }", "no on"),
        ("directive key on FIELD", "no @"),
        ("banana Order { id: ID }", "keyword"),
        ("type Order { id: [ID }", "list unclosed"),
        ("query { a(b: }", "argument"),
    ] {
        assert!(parse(text).is_err(), "{why}");
    }
    let error = parse("type A { id: ID }\ntype B { id ID }").expect_err("line");
    assert!(error.starts_with("line 2:"), "{error}");
}

#[test]
fn each_error_of_the_parser_is_worded_exactly() {
    assert_eq!(parse("").expect_err("empty"), "a document with no definition");
    assert_eq!(parse("# nothing").expect_err("comment"), "a document with no definition");
    assert_eq!(parse("query { }").expect_err("empty"), "line 1: an empty selection set");
    assert_eq!(parse("query Q {").expect_err("open"), "line 1: expected a field, a spread or }");
    assert_eq!(parse("type Order { id ID }").expect_err("colon"), "line 1: expected : after a field name");
    assert_eq!(parse("fragment F { id }").expect_err("on"), "line 1: expected on");
    assert_eq!(parse("directive key on FIELD").expect_err("@"), "line 1: expected @ after directive");
    assert_eq!(
        parse("banana Order { id: ID }").expect_err("keyword"),
        "line 1: \"banana\" does not begin a definition"
    );
    assert_eq!(parse("type Order { id: [ID }").expect_err("list"), "line 1: expected ]");
    assert_eq!(parse("query { a(b: }").expect_err("args"), "line 1: ( never closed by )");
    assert_eq!(parse("query Q").expect_err("set"), "line 1: expected a selection set");
    assert_eq!(parse("schema Q").expect_err("roots"), "line 1: expected { after schema");
    assert_eq!(parse("schema { query Q }").expect_err(":"), "line 1: expected : in a schema definition");
    assert_eq!(parse("input I { a: Int = }").expect_err("value"), "line 1: expected a value");
    assert_eq!(parse("{ a: }").expect_err("alias"), "line 1: expected a field after the alias");
    assert_eq!(parse("{ a @ }").expect_err("directive"), "line 1: expected a directive name");
    assert_eq!(parse("extend").expect_err("extend"), "line 1: expected what to extend");
    assert_eq!(parse("union U = | \n }").expect_err("member"), "line 2: expected a member type");
    assert_eq!(parse("{ a\n\n").expect_err("end"), "line 1: expected a field, a spread or }");
}

#[test]
fn aliases_arguments_and_nested_sets_leave_the_root_fields() {
    let definitions =
        parse("query { a: b(x: [1, {y: $z}]) @skip(if: true) { c d { e } } f ...G ... @include(if: $v) { h } }")
            .expect("parse");
    assert_eq!(
        definitions,
        vec![Definition::Operation {
            kind: "query".into(),
            name: None,
            fields: vec!["b".into(), "f".into()],
        }]
    );
    assert!(parse("{ ... on Query { a } }").is_ok(), "a typed inline spread");
    assert!(parse("{ a { } }").is_err(), "an empty nested set");
}

#[test]
fn type_system_definitions_read_their_names_and_fields() {
    let definitions = parse(
        "schema @d { subscription: S } scalar Url enum E { A B @deprecated } union U = A | B \
         extend input I { a: [Int!]! = [1] b: String = \"x\" } type T implements & A & B",
    )
    .expect("parse");
    assert_eq!(
        definitions,
        vec![
            Definition::Schema { roots: vec![("subscription".into(), "S".into())] },
            Definition::Type { keyword: "scalar".into(), name: "Url".into(), fields: vec![] },
            Definition::Type {
                keyword: "enum".into(),
                name: "E".into(),
                fields: vec!["A".into(), "B".into()]
            },
            Definition::Type {
                keyword: "union".into(),
                name: "U".into(),
                fields: vec!["A".into(), "B".into()]
            },
            Definition::Type {
                keyword: "input".into(),
                name: "I".into(),
                fields: vec!["a".into(), "b".into()]
            },
            Definition::Type { keyword: "type".into(), name: "T".into(), fields: vec![] },
        ]
    );
}

#[test]
fn every_body_closes_and_is_not_empty() {
    assert_eq!(parse("type X { }").expect_err("type"), "line 1: an empty body");
    assert_eq!(parse("enum E {\n}").expect_err("enum"), "line 2: an empty body");
    assert_eq!(parse("input I { \"only a description\" }").expect_err("input"), "line 1: an empty body");
    assert_eq!(parse("schema { }").expect_err("schema"), "line 1: an empty body");
    assert!(parse("type X").is_ok(), "a type with no body at all");
    assert!(parse("type X { a: Int }").is_ok());
}

#[test]
fn no_definition_exactly_when_no_token_and_errors_name_a_token_line() {
    assert_eq!(parse(" ,\n\t# c\n").expect_err("none"), "a document with no definition");
    assert_ne!(parse("query").expect_err("one token"), "a document with no definition");
    let error = parse("\n\ntype A { a: Int }\n\nbanana\n\n").expect_err("keyword");
    assert_eq!(error, "line 5: \"banana\" does not begin a definition");
}

#[test]
fn two_documents_joined_read_one_after_the_other() {
    let a = "type Query { a: Int } scalar S";
    let b = "\"described\" query Q { a }";
    let mut both = parse(a).expect("a");
    both.extend(parse(b).expect("b"));
    assert_eq!(parse(&format!("{a}\n{b}")).expect("joined"), both);
    assert_eq!(parse(&format!("{a} {b}")).expect("joined"), both);
    assert_eq!(
        parse("enum E\n{ a }").expect("joined"),
        vec![Definition::Type { keyword: "enum".into(), name: "E".into(), fields: vec!["a".into()] }],
        "a selection set after a bodiless definition becomes its body"
    );
}

#[test]
fn every_selection_set_closes_and_selects_a_field_or_holds_a_spread() {
    assert_eq!(
        parse("query { ...F }").expect("only a spread"),
        vec![Definition::Operation { kind: "query".into(), name: None, fields: vec![] }]
    );
    assert_eq!(
        parse("{ a { ... on T { b } } c }").expect("nested"),
        vec![Definition::Operation {
            kind: "query".into(),
            name: None,
            fields: vec!["a".into(), "c".into()],
        }]
    );
    assert_eq!(parse("{ a {\n} }").expect_err("nested empty"), "line 2: an empty selection set");
    assert_eq!(parse("{ a").expect_err("unclosed"), "line 1: expected a field, a spread or }");
    assert_eq!(parse("query Q").expect_err("no set"), "line 1: expected a selection set");
}
