use xmip_core_contract_graphql_schema::lexer::{lex, Kind};

#[test]
fn every_token_kind_lexes_and_the_insignificant_is_dropped() {
    let text = "query Q($id: ID!, $n: Float = -1.5e3) { # comment\n  user(id: $id) { ...F } }\n\"\"\"block\n\\\"\"\" text\"\"\" \"plain \\\" str\" 42";
    let tokens = lex(text).expect("lex");
    let kinds: Vec<&Kind> = tokens.iter().map(|t| &t.kind).collect();
    assert_eq!(kinds[0], &Kind::Name("query".into()));
    assert_eq!(kinds[2], &Kind::Punct('('));
    assert_eq!(kinds[3], &Kind::Punct('$'));
    assert!(kinds.contains(&&Kind::Float("-1.5e3".into())));
    assert!(kinds.contains(&&Kind::Spread));
    assert!(kinds.contains(&&Kind::Str("block\n\\\"\"\" text".into())));
    assert!(kinds.contains(&&Kind::Str("plain \\\" str".into())));
    assert_eq!(kinds.last(), Some(&&Kind::Int("42".into())));
    let last = tokens.last().expect("last");
    assert_eq!(last.line, 4);
    assert!(
        !kinds
            .iter()
            .any(|k| matches!(k, Kind::Name(n) if n == "comment"))
    );
}

#[test]
fn what_is_not_graphql_is_refused_with_its_line() {
    assert!(lex("a . b").is_err(), "lone dot");
    assert!(lex("\"open").is_err(), "unterminated");
    assert!(lex("\"\"\"open").is_err(), "unterminated block");
    assert!(lex("\"two\nlines\"").is_err(), "newline in string");
    assert!(lex("1.").is_err(), "no fraction");
    assert!(lex("1e").is_err(), "no exponent");
    assert!(lex("-").is_err(), "no digits");
    assert!(lex("12abc").is_err(), "number into name");
    assert!(lex("a ~ b").is_err(), "tilde");
    let error = lex("ok\nok\n\"bad").expect_err("line");
    assert!(error.starts_with("line 3:"), "{error}");
}

#[test]
fn multibyte_text_lexes_in_strings_and_is_refused_elsewhere() {
    let tokens =
        lex("a(x: \"Zoë 名前\u{a0}\") # é\n\"\"\"größe\n\u{1f600}\"\"\" b").expect("lex");
    let kinds: Vec<&Kind> = tokens.iter().map(|t| &t.kind).collect();
    assert_eq!(kinds[4], &Kind::Str("Zoë 名前\u{a0}".into()));
    assert_eq!(kinds[6], &Kind::Str("größe\n\u{1f600}".into()));
    assert_eq!(tokens.last().map(|t| t.line), Some(3));
    let error = lex("a\n\u{a0}b").expect_err("U+00A0 is not white space");
    assert!(error.starts_with("line 2:"), "{error}");
    assert!(lex("größe").is_err(), "a name is ASCII");
    assert!(lex("\"öpen\u{a0}").is_err(), "unterminated");
    assert!(lex("1é").is_err(), "a number into a letter");
}

#[test]
fn each_error_of_the_lexer_is_worded_exactly() {
    assert_eq!(lex("a . b").expect_err("dot"), "line 1: a lone dot");
    assert_eq!(lex("\n\"open").expect_err("open"), "line 2: a string that never closes");
    assert_eq!(
        lex("\"\"\"open\n").expect_err("block"),
        "line 1: a block string that never closes"
    );
    assert_eq!(
        lex("\"two\nlines\"").expect_err("two"),
        "line 1: a string that runs onto the next line"
    );
    assert_eq!(lex("1.").expect_err("1."), "line 1: a decimal point with no digits");
    assert_eq!(lex("1e+").expect_err("1e+"), "line 1: an exponent with no digits");
    assert_eq!(lex("- 1").expect_err("-"), "line 1: a minus with no digits");
    assert_eq!(lex("12abc").expect_err("12abc"), "line 1: a number that runs into a name");
    assert_eq!(lex("1.5.").expect_err("1.5."), "line 1: a number that runs into a name");
    assert_eq!(lex("a ~ b").expect_err("~"), "line 1: '~' is not GraphQL");
}

#[test]
fn numbers_strings_and_names_keep_their_text() {
    let tokens = lex("-0 7 1.25 6E-2 3e4 _a9 \"\" \"a\\\\\" \"\"\"\"\"\"").expect("lex");
    let kinds: Vec<Kind> = tokens.into_iter().map(|t| t.kind).collect();
    assert_eq!(
        kinds,
        vec![
            Kind::Int("-0".into()),
            Kind::Int("7".into()),
            Kind::Float("1.25".into()),
            Kind::Float("6E-2".into()),
            Kind::Float("3e4".into()),
            Kind::Name("_a9".into()),
            Kind::Str("".into()),
            Kind::Str("a\\\\".into()),
            Kind::Str("".into()),
        ]
    );
}

#[test]
fn commas_tabs_returns_and_the_byte_order_mark_are_insignificant() {
    let tokens = lex("\u{feff}a,\tb\r\n,c").expect("lex");
    let names: Vec<(String, usize)> = tokens
        .into_iter()
        .map(|t| match t.kind {
            Kind::Name(n) => (n, t.line),
            other => panic!("{other:?}"),
        })
        .collect();
    assert_eq!(
        names,
        vec![("a".into(), 1), ("b".into(), 1), ("c".into(), 2)]
    );
    assert_eq!(lex("").expect("empty"), vec![]);
    assert_eq!(lex("# only a comment").expect("comment"), vec![]);
}

#[test]
fn a_kind_tells_its_name_and_its_punctuator() {
    assert_eq!(Kind::Name("on".into()).name(), Some("on"));
    assert_eq!(Kind::Str("on".into()).name(), None);
    assert!(Kind::Punct('{').is('{'));
    assert!(!Kind::Punct('{').is('}'));
    assert!(!Kind::Spread.is('.'));
}

#[test]
fn a_backslash_escapes_any_character_of_a_quoted_string() {
    let tokens = lex("\"a\\\nb\" x").expect("escaped line feed");
    assert_eq!(tokens[0].kind, Kind::Str("a\\\nb".into()));
    assert_eq!(tokens[0].line, 1);
    assert_eq!(tokens[1].kind, Kind::Name("x".into()));
    assert_eq!(tokens[1].line, 2);
    assert_eq!(
        lex("\"a\nb\"").expect_err("bare line feed"),
        "line 1: a string that runs onto the next line"
    );
    assert_eq!(
        lex("\"a\\\"b\"").expect("escaped quote")[0].kind,
        Kind::Str("a\\\"b".into())
    );
    assert_eq!(
        lex("\"a\\").expect_err("escape at the end"),
        "line 1: a string that never closes"
    );
}

#[test]
fn two_texts_joined_by_a_comma_lex_one_after_the_other() {
    let a = "query Q { a(x: 1.5) }\n\"s\"";
    let b = "b\n...";
    let joined = format!("{a},{b}");
    let ta = lex(a).expect("a");
    let tb = lex(b).expect("b");
    let tj = lex(&joined).expect("joined");
    let kinds: Vec<Kind> = ta.iter().chain(tb.iter()).map(|t| t.kind.clone()).collect();
    assert_eq!(tj.iter().map(|t| t.kind.clone()).collect::<Vec<_>>(), kinds);
    assert_eq!(tj.last().map(|t| t.line), Some(3));
}
