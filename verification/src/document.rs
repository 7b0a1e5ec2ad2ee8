//! A GraphQL document read into its definitions: operations and fragments
//! of an executable document, type system definitions of a schema — enough
//! to say it is sound, which types it defines with which fields, and which
//! fields each operation selects at its root.
//!
//! The grammar is stated as spec functions over the token sequence, one per
//! production, each giving the value it reads and the position after it, or
//! the error that refuses the tokens; every executable method of [`Parser`]
//! is proved to compute exactly its production.

use vstd::prelude::*;
use crate::lexer::{Kind, KindView, Token, TokenView, lex, spec_lex, tokens_view};
use crate::text::{is_line_error, line_error, line_error_text, joined, push_char, same_text};
use crate::type_system::{directives, type_system};
use crate::joined::{lemma_after_keyword, lemma_arguments, lemma_directives, lemma_field_type, lemma_holds_itself};
use crate::type_system::field_type;

verus! {

/// One top-level definition.
#[derive(Clone, Debug, PartialEq, Eq)]
#[allow(inconsistent_fields)]
pub enum Definition {
    /// `query`, `mutation` or `subscription`, named or not, and the fields
    /// it selects at its root.
    Operation { kind: String, name: Option<String>, fields: Vec<String> },
    /// `fragment Name on Type`.
    Fragment { name: String, on: String },
    /// `schema { query: Q ... }`: the root operation types it names.
    Schema { roots: Vec<(String, String)> },
    /// `type`, `interface`, `input`, `enum`, `union`, `scalar`, and their
    /// `extend` forms; the fields where the body has any.
    Type { keyword: String, name: String, fields: Vec<String> },
    /// `directive @name on ...`.
    Directive { name: String },
}

/// What a [`Definition`] holds, its texts as character sequences.
#[allow(inconsistent_fields)]
pub enum DefinitionView {
    Operation { kind: Seq<char>, name: Option<Seq<char>>, fields: Seq<Seq<char>> },
    Fragment { name: Seq<char>, on: Seq<char> },
    Schema { roots: Seq<(Seq<char>, Seq<char>)> },
    Type { keyword: Seq<char>, name: Seq<char>, fields: Seq<Seq<char>> },
    Directive { name: Seq<char> },
}

impl View for Definition {
    type V = DefinitionView;

    open spec fn view(&self) -> DefinitionView {
        match self {
            Definition::Operation { kind, name, fields } => DefinitionView::Operation {
                kind: kind@,
                name: name.deep_view(),
                fields: fields.deep_view(),
            },
            Definition::Fragment { name, on } => DefinitionView::Fragment { name: name@, on: on@ },
            Definition::Schema { roots } => DefinitionView::Schema { roots: roots.deep_view() },
            Definition::Type { keyword, name, fields } => DefinitionView::Type {
                keyword: keyword@,
                name: name@,
                fields: fields.deep_view(),
            },
            Definition::Directive { name } => DefinitionView::Directive { name: name@ },
        }
    }
}

impl DeepView for Definition {
    type V = DefinitionView;

    open spec fn deep_view(&self) -> DefinitionView {
        self@
    }
}

// ------------------------------------------------------------ the grammar

/// What a production reads and the position after it, or the error.
pub type Parsed<T> = Result<(T, int), Seq<char>>;

/// The position after a production that reads nothing worth keeping.
pub type Reached = Result<int, Seq<char>>;

pub open spec fn kind_at(ts: Seq<TokenView>, at: int) -> Option<KindView> {
    if 0 <= at < ts.len() {
        Some(ts[at].kind)
    } else {
        None
    }
}

/// The position after taking the token at `at`; the end stays the end.
pub open spec fn next_at(ts: Seq<TokenView>, at: int) -> int {
    if at < ts.len() {
        at + 1
    } else {
        at
    }
}

/// The line an error at `at` is reported on: the token's, or past the end
/// the last token's.
pub open spec fn line_of(ts: Seq<TokenView>, at: int) -> nat {
    if 0 <= at < ts.len() {
        ts[at].line
    } else if ts.len() > 0 {
        ts.last().line
    } else {
        0
    }
}

pub open spec fn error_at(ts: Seq<TokenView>, at: int, what: Seq<char>) -> Seq<char> {
    line_error(line_of(ts, at), what)
}

/// What a step that would not move on is answered; no production gets
/// there, as each consumes a token before it loops or recurses.
pub open spec fn stalled(ts: Seq<TokenView>, at: int) -> Seq<char> {
    error_at(ts, at, "no progress"@)
}

/// Whether `p` is past `at` and not past the end.
pub open spec fn advances(ts: Seq<TokenView>, at: int, p: int) -> bool {
    at < p <= ts.len()
}

pub open spec fn is_punct_at(ts: Seq<TokenView>, at: int, c: char) -> bool {
    kind_at(ts, at) == Some(KindView::Punct(c))
}

/// The position after eating `c` where it stands at `at`.
pub open spec fn eat_at(ts: Seq<TokenView>, at: int, c: char) -> int {
    if is_punct_at(ts, at, c) {
        at + 1
    } else {
        at
    }
}

pub open spec fn name_at(ts: Seq<TokenView>, at: int) -> Option<Seq<char>> {
    match kind_at(ts, at) {
        Some(KindView::Name(n)) => Some(n),
        _ => None,
    }
}

/// A name, or `expected <what>`.
pub open spec fn expect_name(ts: Seq<TokenView>, at: int, what: Seq<char>) -> Parsed<Seq<char>> {
    match name_at(ts, at) {
        Some(n) => Ok((n, at + 1)),
        None => Err(error_at(ts, next_at(ts, at), "expected "@ + what)),
    }
}

/// The rest of a bracketed run, `depth` brackets deep.
pub open spec fn balanced_from(ts: Seq<TokenView>, at: int, depth: nat, open: char, close: char) -> Reached
    decreases ts.len() - at,
{
    if depth == 0 {
        Ok(at)
    } else {
        match kind_at(ts, at) {
            None => Err(
                error_at(ts, next_at(ts, at), seq![open] + " never closed by "@ + seq![close]),
            ),
            Some(k) => {
                let d: nat = if k == KindView::Punct(open) {
                    depth + 1
                } else if k == KindView::Punct(close) {
                    (depth - 1) as nat
                } else {
                    depth
                };
                balanced_from(ts, at + 1, d, open, close)
            },
        }
    }
}

/// From `open` through its matching `close`, any nesting inside.
pub open spec fn balanced(ts: Seq<TokenView>, at: int, open: char, close: char) -> Reached {
    if is_punct_at(ts, at, open) {
        balanced_from(ts, at + 1, 1, open, close)
    } else {
        Err(error_at(ts, at, "expected "@ + seq![open]))
    }
}

/// Parenthesised arguments where they stand at `at`.
pub open spec fn arguments(ts: Seq<TokenView>, at: int) -> Reached {
    if is_punct_at(ts, at, '(') {
        balanced(ts, at, '(', ')')
    } else {
        Ok(at)
    }
}

/// Scanning back from `i` with `depth` closing braces open: whether a
/// spread stands at the top level of the selection set that closed first.
pub open spec fn spread_scan(ts: Seq<TokenView>, i: int, depth: int) -> bool
    decreases i,
{
    if i <= 0 || i > ts.len() {
        false
    } else {
        match ts[i - 1].kind {
            KindView::Punct(c) => if c == '}' {
                spread_scan(ts, i - 1, depth + 1)
            } else if c == '{' {
                if depth == 1 {
                    false
                } else {
                    spread_scan(ts, i - 1, depth - 1)
                }
            } else {
                spread_scan(ts, i - 1, depth)
            },
            KindView::Spread => if depth == 1 {
                true
            } else {
                spread_scan(ts, i - 1, depth)
            },
            _ => spread_scan(ts, i - 1, depth),
        }
    }
}

/// Whether the selection set that just closed before `end` held a spread:
/// a set of only spreads is not empty.
pub open spec fn saw_spread_before(ts: Seq<TokenView>, end: int) -> bool {
    spread_scan(ts, end, 0)
}

/// What follows `...` of a spread: `on Type`, a fragment name, or nothing.
pub open spec fn spread_tail(ts: Seq<TokenView>, at: int) -> Reached {
    if name_at(ts, at) == Some("on"@) {
        match expect_name(ts, at + 1, "a type condition"@) {
            Ok((_, a)) => Ok(a),
            Err(e) => Err(e),
        }
    } else if name_at(ts, at) is Some {
        Ok(at + 1)
    } else {
        Ok(at)
    }
}

/// A selection set: the field names selected at its top level. Aliases
/// are looked through, spreads skipped, nested sets consumed.
pub open spec fn selection_set(ts: Seq<TokenView>, at: int) -> Parsed<Seq<Seq<char>>>
    decreases ts.len() - at, 2int,
{
    if is_punct_at(ts, at, '{') {
        selection_items(ts, at + 1, seq![])
    } else {
        Err(error_at(ts, at, "expected a selection set"@))
    }
}

/// A nested selection set where one stands at `at`, which must lie past
/// `from`.
pub open spec fn nested_set(ts: Seq<TokenView>, from: int, at: int) -> Reached
    decreases ts.len() - from, 0int,
{
    if is_punct_at(ts, at, '{') {
        if advances(ts, from, at) {
            match selection_set(ts, at) {
                Ok((_, a)) => Ok(a),
                Err(e) => Err(e),
            }
        } else {
            Err(stalled(ts, from))
        }
    } else {
        Ok(at)
    }
}

/// The rest of a selection set from `at`, `fields` read so far.
pub open spec fn selection_items(ts: Seq<TokenView>, at: int, fields: Seq<Seq<char>>) -> Parsed<
    Seq<Seq<char>>,
>
    decreases ts.len() - at, 1int,
{
    let a1 = next_at(ts, at);
    match kind_at(ts, at) {
        Some(KindView::Spread) => match spread_tail(ts, a1) {
            Err(e) => Err(e),
            Ok(a2) => match directives(ts, a2) {
                Err(e) => Err(e),
                Ok(a3) => match nested_set(ts, at, a3) {
                    Err(e) => Err(e),
                    Ok(a4) => if advances(ts, at, a4) {
                        selection_items(ts, a4, fields)
                    } else {
                        Err(stalled(ts, at))
                    },
                },
            },
        },
        Some(KindView::Name(n)) => {
            let aliased = if is_punct_at(ts, a1, ':') {
                expect_name(ts, a1 + 1, "a field after the alias"@)
            } else {
                Ok((n, a1))
            };
            match aliased {
                Err(e) => Err(e),
                Ok((name, a2)) => match arguments(ts, a2) {
                    Err(e) => Err(e),
                    Ok(a3) => match directives(ts, a3) {
                        Err(e) => Err(e),
                        Ok(a4) => match nested_set(ts, at, a4) {
                            Err(e) => Err(e),
                            Ok(a5) => if advances(ts, at, a5) {
                                selection_items(ts, a5, fields.push(name))
                            } else {
                                Err(stalled(ts, at))
                            },
                        },
                    },
                },
            }
        },
        Some(KindView::Punct(c)) => if c == '}' {
            if fields.len() == 0 && !saw_spread_before(ts, a1) {
                Err(error_at(ts, a1, "an empty selection set"@))
            } else {
                Ok((fields, a1))
            }
        } else {
            Err(error_at(ts, a1, "expected a field, a spread or }"@))
        },
        _ => Err(error_at(ts, a1, "expected a field, a spread or }"@)),
    }
}

/// An operation after its keyword `kind`.
pub open spec fn operation(ts: Seq<TokenView>, at: int, kind: Seq<char>) -> Parsed<DefinitionView> {
    let name = name_at(ts, at);
    let a1 = if name is Some { at + 1 } else { at };
    match arguments(ts, a1) {
        Err(e) => Err(e),
        Ok(a2) => match directives(ts, a2) {
            Err(e) => Err(e),
            Ok(a3) => match selection_set(ts, a3) {
                Err(e) => Err(e),
                Ok((fields, a4)) => Ok((DefinitionView::Operation { kind, name, fields }, a4)),
            },
        },
    }
}

/// A fragment after its keyword.
pub open spec fn fragment(ts: Seq<TokenView>, at: int) -> Parsed<DefinitionView> {
    match expect_name(ts, at, "a fragment name"@) {
        Err(e) => Err(e),
        Ok((name, a1)) => match expect_name(ts, a1, "on"@) {
            Err(e) => Err(e),
            Ok((word, a2)) => if word != "on"@ {
                Err(error_at(ts, a2, "expected on"@))
            } else {
                match expect_name(ts, a2, "a type condition"@) {
                    Err(e) => Err(e),
                    Ok((on, a3)) => match directives(ts, a3) {
                        Err(e) => Err(e),
                        Ok(a4) => match selection_set(ts, a4) {
                            Err(e) => Err(e),
                            Ok((_, a5)) => Ok((DefinitionView::Fragment { name, on }, a5)),
                        },
                    },
                }
            },
        },
    }
}

/// A keyword that begins a definition.
pub open spec fn is_definition_keyword(k: Seq<char>) -> bool {
    k == "query"@ || k == "mutation"@ || k == "subscription"@ || k == "fragment"@ || k
        == "extend"@ || crate::type_system::is_type_system_keyword(k)
}

/// One top-level definition, a description before it skipped.
pub open spec fn definition(ts: Seq<TokenView>, at: int) -> Parsed<DefinitionView> {
    let a0 = if kind_at(ts, at) matches Some(KindView::Str(_)) { at + 1 } else { at };
    if is_punct_at(ts, a0, '{') {
        match selection_set(ts, a0) {
            Err(e) => Err(e),
            Ok((fields, a)) => Ok(
                (DefinitionView::Operation { kind: "query"@, name: None, fields }, a),
            ),
        }
    } else {
        match expect_name(ts, a0, "a definition"@) {
            Err(e) => Err(e),
            Ok((keyword, a1)) => after_keyword(ts, a1, keyword),
        }
    }
}

/// A definition after its keyword.
pub open spec fn after_keyword(ts: Seq<TokenView>, at: int, keyword: Seq<char>) -> Parsed<DefinitionView> {
    if keyword == "query"@ || keyword == "mutation"@ || keyword == "subscription"@ {
        operation(ts, at, keyword)
    } else if keyword == "fragment"@ {
        fragment(ts, at)
    } else if keyword == "extend"@ {
        match expect_name(ts, at, "what to extend"@) {
            Err(e) => Err(e),
            Ok((extended, a)) => type_system(ts, a, extended),
        }
    } else {
        type_system(ts, at, keyword)
    }
}

/// The definitions from `at` on, `defs` read so far.
pub open spec fn definitions_from(ts: Seq<TokenView>, at: int, defs: Seq<DefinitionView>) -> Result<
    Seq<DefinitionView>,
    Seq<char>,
>
    decreases ts.len() - at,
{
    if at >= ts.len() {
        if defs.len() == 0 {
            Err("a document with no definition"@)
        } else {
            Ok(defs)
        }
    } else {
        match definition(ts, at) {
            Err(e) => Err(e),
            Ok((d, a)) => if advances(ts, at, a) {
                definitions_from(ts, a, defs.push(d))
            } else {
                Err(stalled(ts, at))
            },
        }
    }
}

/// The definitions of a document of these tokens.
pub open spec fn document(ts: Seq<TokenView>) -> Result<Seq<DefinitionView>, Seq<char>> {
    definitions_from(ts, 0, seq![])
}

/// The definitions of `text`, or the error that refuses it.
pub open spec fn spec_parse(text: Seq<char>) -> Result<Seq<DefinitionView>, Seq<char>> {
    match spec_lex(text) {
        Err(e) => Err(e),
        Ok(ts) => document(ts),
    }
}

/// What a call of [`parse`] gives back, by views.
pub open spec fn parsed_view(r: Result<Vec<Definition>, String>) -> Result<Seq<DefinitionView>, Seq<char>> {
    match r {
        Ok(ds) => Ok(ds.deep_view()),
        Err(e) => Err(e@),
    }
}

/// Whether an executable result `r`, with the parser left at `at`, is the
/// production's result `s`.
pub open spec fn agrees<T: DeepView>(r: Result<T, String>, at: usize, s: Parsed<T::V>) -> bool {
    match s {
        Ok((v, a)) => r matches Ok(x) && x.deep_view() == v && at == a,
        Err(e) => r matches Err(m) && m@ == e,
    }
}

/// Whether an executable result `r`, with the parser left at `at`, is the
/// position or the error `s`.
pub open spec fn reaches(r: Result<(), String>, at: usize, s: Reached) -> bool {
    match s {
        Ok(a) => r is Ok && at == a,
        Err(e) => r matches Err(m) && m@ == e,
    }
}


// ------------------------------------------------------------------ errors

pub proof fn lemma_balanced_errors(ts: Seq<TokenView>, at: int, open: char, close: char)
    ensures
        balanced(ts, at, open, close) matches Err(e) ==> is_error_at(ts, e),
{
    if is_punct_at(ts, at, open) {
        lemma_balanced_from_errors(ts, at + 1, 1, open, close);
    }
}

proof fn lemma_balanced_from_errors(ts: Seq<TokenView>, at: int, depth: nat, open: char, close: char)
    ensures
        balanced_from(ts, at, depth, open, close) matches Err(e) ==> is_error_at(ts, e),
    decreases ts.len() - at,
{
    if depth > 0 {
        if let Some(k) = kind_at(ts, at) {
            let d: nat = if k == KindView::Punct(open) {
                depth + 1
            } else if k == KindView::Punct(close) {
                (depth - 1) as nat
            } else {
                depth
            };
            lemma_balanced_from_errors(ts, at + 1, d, open, close);
        }
    }
}

proof fn lemma_selection_set_errors(ts: Seq<TokenView>, at: int)
    ensures
        selection_set(ts, at) matches Err(e) ==> is_error_at(ts, e),
    decreases ts.len() - at, 2int,
{
    if is_punct_at(ts, at, '{') {
        lemma_selection_items_errors(ts, at + 1, seq![]);
    }
}

proof fn lemma_nested_set_errors(ts: Seq<TokenView>, from: int, at: int)
    ensures
        nested_set(ts, from, at) matches Err(e) ==> is_error_at(ts, e),
    decreases ts.len() - from, 0int,
{
    if is_punct_at(ts, at, '{') && advances(ts, from, at) {
        lemma_selection_set_errors(ts, at);
    }
}

proof fn lemma_selection_items_errors(ts: Seq<TokenView>, at: int, fields: Seq<Seq<char>>)
    ensures
        selection_items(ts, at, fields) matches Err(e) ==> is_error_at(ts, e),
    decreases ts.len() - at, 1int,
{
    let a1 = next_at(ts, at);
    match kind_at(ts, at) {
        Some(KindView::Spread) => {
            if let Ok(a2) = spread_tail(ts, a1) {
                crate::type_system::lemma_directives_errors(ts, a2);
                if let Ok(a3) = directives(ts, a2) {
                    lemma_nested_set_errors(ts, at, a3);
                    if let Ok(a4) = nested_set(ts, at, a3) {
                        if advances(ts, at, a4) {
                            lemma_selection_items_errors(ts, a4, fields);
                        }
                    }
                }
            }
        },
        Some(KindView::Name(n)) => {
            let aliased = if is_punct_at(ts, a1, ':') {
                expect_name(ts, a1 + 1, "a field after the alias"@)
            } else {
                Ok((n, a1))
            };
            if let Ok((name, a2)) = aliased {
                crate::type_system::lemma_arguments_errors(ts, a2);
                if let Ok(a3) = arguments(ts, a2) {
                    crate::type_system::lemma_directives_errors(ts, a3);
                    if let Ok(a4) = directives(ts, a3) {
                        lemma_nested_set_errors(ts, at, a4);
                        if let Ok(a5) = nested_set(ts, at, a4) {
                            if advances(ts, at, a5) {
                                lemma_selection_items_errors(ts, a5, fields.push(name));
                            }
                        }
                    }
                }
            }
        },
        _ => {},
    }
}

proof fn lemma_definition_errors(ts: Seq<TokenView>, at: int)
    ensures
        definition(ts, at) matches Err(e) ==> is_error_at(ts, e),
        definition(ts, at) matches Ok((DefinitionView::Operation { kind, .. }, _)) ==> kind
            == "query"@ || kind == "mutation"@ || kind == "subscription"@,
{
    let a0 = if kind_at(ts, at) matches Some(KindView::Str(_)) { at + 1 } else { at };
    lemma_selection_set_errors(ts, a0);
    if let Ok((keyword, a1)) = expect_name(ts, a0, "a definition"@) {
        // an operation
        let name = name_at(ts, a1);
        let b1 = if name is Some { a1 + 1 } else { a1 };
        crate::type_system::lemma_arguments_errors(ts, b1);
        if let Ok(b2) = arguments(ts, b1) {
            crate::type_system::lemma_directives_errors(ts, b2);
            if let Ok(b3) = directives(ts, b2) {
                lemma_selection_set_errors(ts, b3);
            }
        }
        // a fragment
        if let Ok((_, c1)) = expect_name(ts, a1, "a fragment name"@) {
            if let Ok((_, c2)) = expect_name(ts, c1, "on"@) {
                if let Ok((_, c3)) = expect_name(ts, c2, "a type condition"@) {
                    crate::type_system::lemma_directives_errors(ts, c3);
                    if let Ok(c4) = directives(ts, c3) {
                        lemma_selection_set_errors(ts, c4);
                    }
                }
            }
        }
        // a type system definition
        if let Ok((extended, a2)) = expect_name(ts, a1, "what to extend"@) {
            crate::type_system::lemma_type_system_errors(ts, a2, extended);
        }
        crate::type_system::lemma_type_system_errors(ts, a1, keyword);
    }
}

proof fn lemma_definitions_from(ts: Seq<TokenView>, at: int, defs: Seq<DefinitionView>)
    ensures
        definitions_from(ts, at, defs) matches Err(e) ==> is_error_at(ts, e) || (e
            == "a document with no definition"@ && defs.len() == 0 && at >= ts.len()),
        definitions_from(ts, at, defs) matches Ok(r) ==> r.len() > 0,
    decreases ts.len() - at,
{
    if at < ts.len() {
        lemma_definition_errors(ts, at);
        if let Ok((d, a)) = definition(ts, at) {
            if advances(ts, at, a) {
                lemma_definitions_from(ts, a, defs.push(d));
            }
        }
    }
}

/// Whether `e` is an error reported at a position of the tokens `ts`.
pub open spec fn is_error_at(ts: Seq<TokenView>, e: Seq<char>) -> bool {
    exists|at: int, w: Seq<char>| e == #[trigger] error_at(ts, at, w)
}

proof fn lemma_line_error_is_not_the_empty_document(n: nat, w: Seq<char>)
    ensures
        line_error(n, w) != "a document with no definition"@,
{
    reveal_strlit("line ");
    reveal_strlit("a document with no definition");
    assert(line_error(n, w)[0] == 'l');
}

/// A document is never empty: one that parses has a definition.
pub proof fn law_documents_have_definitions(text: Seq<char>)
    ensures
        spec_parse(text) matches Ok(defs) ==> defs.len() > 0,
{
    if let Ok(ts) = spec_lex(text) {
        lemma_definitions_from(ts, 0, seq![]);
    }
}

/// A document holds no definition exactly when its text holds no token.
pub proof fn law_no_definition_exactly_without_tokens(text: Seq<char>)
    ensures
        spec_parse(text) == Err::<Seq<DefinitionView>, Seq<char>>("a document with no definition"@)
            <==> spec_lex(text) == Ok::<Seq<TokenView>, Seq<char>>(seq![]),
{
    crate::lexer::law_lexical_errors_name_their_line(text);
    match spec_lex(text) {
        Err(e) => {
            if spec_parse(text) == Err::<Seq<DefinitionView>, Seq<char>>(
                "a document with no definition"@,
            ) {
                let (n, w) = choose|n: nat, w: Seq<char>| e == #[trigger] line_error(n, w);
                lemma_line_error_is_not_the_empty_document(n, w);
            }
        },
        Ok(ts) => {
            lemma_definitions_from(ts, 0, seq![]);
            if ts.len() == 0 {
                assert(ts =~= seq![]);
            }
            if ts.len() > 0 {
                assert(ts != Seq::<TokenView>::empty());
                if let Err(e) = spec_parse(text) {
                    let (at, w) = choose|at: int, w: Seq<char>| e == #[trigger] error_at(ts, at, w);
                    lemma_line_error_is_not_the_empty_document(line_of(ts, at), w);
                }
            }
        },
    }
}

/// What is not a document is refused with its line: every error names the
/// line it was found on, but for a document that holds no definition.
pub proof fn law_errors_name_their_line(text: Seq<char>)
    ensures
        spec_parse(text) matches Err(e) ==> is_line_error(e) || e == "a document with no definition"@,
{
    crate::lexer::law_lexical_errors_name_their_line(text);
    if let Ok(ts) = spec_lex(text) {
        lemma_definitions_from(ts, 0, seq![]);
        if let Err(e) = spec_parse(text) {
            if is_error_at(ts, e) {
                let (at, w) = choose|at: int, w: Seq<char>| e == #[trigger] error_at(ts, at, w);
                assert(e == line_error(line_of(ts, at), w));
            }
        }
    }
}

/// The line a parse error names is a line of the text's tokens: between
/// the first token's line and the last's.
pub proof fn law_error_lines_lie_within_the_tokens(text: Seq<char>)
    ensures
        spec_parse(text) is Err && spec_lex(text) is Ok && spec_lex(text)->Ok_0.len() > 0 ==> {
            let ts = spec_lex(text)->Ok_0;
            exists|n: nat, w: Seq<char>|
                ts[0].line <= n <= ts.last().line && spec_parse(text)->Err_0
                    == #[trigger] line_error(n, w)
        },
{
    crate::lexer::law_tokens_keep_their_lines(text);
    if let Ok(ts) = spec_lex(text) {
        if ts.len() > 0 {
            lemma_definitions_from(ts, 0, seq![]);
            if let Err(e) = spec_parse(text) {
                let (at, w) = choose|at: int, w: Seq<char>| e == #[trigger] error_at(ts, at, w);
                let n = line_of(ts, at);
                if 0 <= at < ts.len() {
                    assert(ts[0].line <= ts[at].line) by {
                        if at > 0 {
                            assert(ts[0].line <= ts[at].line);
                        }
                    }
                    assert(ts[at].line <= ts[ts.len() - 1].line);
                } else {
                    assert(ts[0].line <= ts[ts.len() - 1].line);
                }
                assert(e == line_error(n, w));
            }
        }
    }
}

// ------------------------------------------------------- selection sets

proof fn lemma_selection_items_close(ts: Seq<TokenView>, at: int, fields: Seq<Seq<char>>)
    requires
        0 <= at,
    ensures
        selection_items(ts, at, fields) matches Ok((fs, a)) ==> at < a <= ts.len()
            && is_punct_at(ts, a - 1, '}') && (fs.len() > 0 || saw_spread_before(ts, a)),
    decreases ts.len() - at,
{
    let a1 = next_at(ts, at);
    match kind_at(ts, at) {
        Some(KindView::Spread) => {
            if let Ok(a2) = spread_tail(ts, a1) {
                if let Ok(a3) = directives(ts, a2) {
                    if let Ok(a4) = nested_set(ts, at, a3) {
                        if advances(ts, at, a4) {
                            lemma_selection_items_close(ts, a4, fields);
                        }
                    }
                }
            }
        },
        Some(KindView::Name(n)) => {
            let aliased = if is_punct_at(ts, a1, ':') {
                expect_name(ts, a1 + 1, "a field after the alias"@)
            } else {
                Ok((n, a1))
            };
            if let Ok((name, a2)) = aliased {
                if let Ok(a3) = arguments(ts, a2) {
                    if let Ok(a4) = directives(ts, a3) {
                        if let Ok(a5) = nested_set(ts, at, a4) {
                            if advances(ts, at, a5) {
                                lemma_selection_items_close(ts, a5, fields.push(name));
                            }
                        }
                    }
                }
            }
        },
        _ => {},
    }
}

/// Every selection set closes and is not empty: one read from `at` opens
/// with the `{` there and ends just past its `}`, within the tokens, and
/// selects a field or holds a spread; where no `{` stands, none is read.
pub proof fn law_selection_sets_close_and_are_not_empty(ts: Seq<TokenView>, at: int)
    requires
        0 <= at,
    ensures
        selection_set(ts, at) matches Ok((fs, a)) ==> is_punct_at(ts, at, '{') && at < a
            <= ts.len() && is_punct_at(ts, a - 1, '}') && (fs.len() > 0 || saw_spread_before(
            ts,
            a,
        )),
        !is_punct_at(ts, at, '{') ==> selection_set(ts, at) == Err::<
            (Seq<Seq<char>>, int),
            Seq<char>,
        >(error_at(ts, at, "expected a selection set"@)),
{
    if is_punct_at(ts, at, '{') {
        lemma_selection_items_close(ts, at + 1, seq![]);
    }
}

// ------------------------------------------------------------- progress

proof fn lemma_spread_tail_within(ts: Seq<TokenView>, at: int)
    requires
        0 <= at <= ts.len(),
    ensures
        spread_tail(ts, at) matches Ok(a) ==> at <= a <= ts.len(),
{
}

/// Wherever the grammar asks whether a step moved on before it goes on,
/// the step did, so the "no progress" answer is never given: a directive,
/// a field definition, a selection with the set nested in it, and a
/// definition each end past where they began and within the tokens.
pub proof fn law_every_step_moves_on(ts: Seq<TokenView>, at: int, typed: bool)
    requires
        0 <= at <= ts.len(),
    ensures
        is_punct_at(ts, at, '@') ==> (expect_name(ts, at + 1, "a directive name"@) matches Ok(
            (_, a1),
        ) ==> (arguments(ts, a1) matches Ok(a2) ==> advances(ts, at, a2))),
        ({
            let a0 = if kind_at(ts, at) matches Some(KindView::Str(_)) {
                at + 1
            } else {
                at
            };
            !is_punct_at(ts, a0, '}') ==> (expect_name(ts, a0, "a field name"@) matches Ok(
                (_, a1),
            ) ==> (arguments(ts, a1) matches Ok(a2) ==> (field_type(ts, a2, typed) matches Ok(a3)
                ==> (directives(ts, a3) matches Ok(a4) ==> advances(ts, at, a4)))))
        }),
        kind_at(ts, at) == Some(KindView::Spread) ==> (spread_tail(ts, at + 1) matches Ok(a2) ==> (
        directives(ts, a2) matches Ok(a3) ==> (is_punct_at(ts, a3, '{') ==> advances(ts, at, a3))
            && (nested_set(ts, at, a3) matches Ok(a4) ==> advances(ts, at, a4)))),
        kind_at(ts, at) matches Some(KindView::Name(n)) ==> ((if is_punct_at(ts, at + 1, ':') {
            expect_name(ts, at + 2, "a field after the alias"@)
        } else {
            Ok((n, at + 1))
        }) matches Ok((_, a2)) ==> (arguments(ts, a2) matches Ok(a3) ==> (directives(ts, a3) matches Ok(
            a4,
        ) ==> (is_punct_at(ts, a4, '{') ==> advances(ts, at, a4)) && (nested_set(ts, at, a4) matches Ok(
            a5,
        ) ==> advances(ts, at, a5))))),
        at < ts.len() ==> (definition(ts, at) matches Ok((_, a)) ==> advances(ts, at, a)),
{
    lemma_holds_itself(ts);
    // a directive
    if is_punct_at(ts, at, '@') {
        if let Ok((_, a1)) = expect_name(ts, at + 1, "a directive name"@) {
            if arguments(ts, a1) is Ok {
                lemma_arguments(ts, ts, 0, a1);
            }
        }
    }
    // a field definition
    let a0 = if kind_at(ts, at) matches Some(KindView::Str(_)) { at + 1 } else { at };
    if let Ok((_, a1)) = expect_name(ts, a0, "a field name"@) {
        if let Ok(a2) = arguments(ts, a1) {
            lemma_arguments(ts, ts, 0, a1);
            if let Ok(a3) = field_type(ts, a2, typed) {
                lemma_field_type(ts, ts, 0, a2, typed);
                if directives(ts, a3) is Ok {
                    lemma_directives(ts, ts, 0, a3);
                }
            }
        }
    }
    // a selection
    if at < ts.len() {
        lemma_spread_tail_within(ts, at + 1);
        if let Ok(a2) = spread_tail(ts, at + 1) {
            if directives(ts, a2) is Ok {
                lemma_directives(ts, ts, 0, a2);
                let a3 = directives(ts, a2)->Ok_0;
                law_selection_sets_close_and_are_not_empty(ts, a3);
            }
        }
        if let Some(KindView::Name(n)) = kind_at(ts, at) {
            let aliased = if is_punct_at(ts, at + 1, ':') {
                expect_name(ts, at + 2, "a field after the alias"@)
            } else {
                Ok((n, at + 1))
            };
            if let Ok((_, a2)) = aliased {
                if let Ok(a3) = arguments(ts, a2) {
                    lemma_arguments(ts, ts, 0, a2);
                    if let Ok(a4) = directives(ts, a3) {
                        lemma_directives(ts, ts, 0, a3);
                        law_selection_sets_close_and_are_not_empty(ts, a4);
                    }
                }
            }
        }
        // a definition
        if definition(ts, at) is Ok {
            let a0 = if kind_at(ts, at) matches Some(KindView::Str(_)) { at + 1 } else { at };
            if is_punct_at(ts, a0, '{') {
                law_selection_sets_close_and_are_not_empty(ts, a0);
            } else {
                let (keyword, a1) = expect_name(ts, a0, "a definition"@)->Ok_0;
                lemma_after_keyword(ts, ts, 0, a1, keyword);
            }
        }
    }
}

// ------------------------------------------------------------- operations

/// An operation's name changes nothing else: where a name follows the
/// operation's keyword, what comes after it — variable definitions,
/// directives, the selection set — reads as it does in the anonymous
/// operation that begins just after the name, to the same fields and the
/// same end, or to the same error.
pub proof fn law_an_operation_name_changes_nothing_else(
    ts: Seq<TokenView>,
    at: int,
    kind: Seq<char>,
    n: Seq<char>,
)
    requires
        name_at(ts, at) == Some(n),
        name_at(ts, at + 1) is None,
    ensures
        operation(ts, at + 1, kind) matches Ok(
            (DefinitionView::Operation { kind: k, name: None, fields }, a),
        ) ==> operation(ts, at, kind) == Ok::<(DefinitionView, int), Seq<char>>(
            (DefinitionView::Operation { kind: k, name: Some(n), fields }, a),
        ),
        operation(ts, at, kind) is Ok <==> operation(ts, at + 1, kind) is Ok,
        operation(ts, at + 1, kind) matches Err(e) ==> operation(ts, at, kind)
            == Err::<(DefinitionView, int), Seq<char>>(e),
{
}

/// Variable definitions are read whole: an anonymous operation whose
/// keyword is followed by `(` reads as the operation that begins just past
/// the matching `)`, where neither a name nor another `(` stands; an
/// unclosed list refuses it with the same error.
pub proof fn law_variable_definitions_are_read_whole(ts: Seq<TokenView>, at: int, kind: Seq<char>)
    requires
        name_at(ts, at) is None,
        is_punct_at(ts, at, '('),
    ensures
        balanced(ts, at, '(', ')') matches Err(e) ==> operation(ts, at, kind) == Err::<
            (DefinitionView, int),
            Seq<char>,
        >(e),
        balanced(ts, at, '(', ')') matches Ok(b) ==> (name_at(ts, b) is None && !is_punct_at(
            ts,
            b,
            '(',
        ) ==> operation(ts, at, kind) == operation(ts, b, kind)),
{
}

/// A field needs no selection set, whatever arguments it has: a field
/// whose arguments and directives are not followed by `{` is selected,
/// and the set goes on just after them.
pub proof fn law_a_field_needs_no_selection_set(
    ts: Seq<TokenView>,
    at: int,
    fs: Seq<Seq<char>>,
    n: Seq<char>,
)
    requires
        0 <= at,
        kind_at(ts, at) == Some(KindView::Name(n)),
        !is_punct_at(ts, at + 1, ':'),
    ensures
        arguments(ts, at + 1) matches Ok(a3) ==> (directives(ts, a3) matches Ok(a4) ==> (
        !is_punct_at(ts, a4, '{') ==> selection_items(ts, at, fs) == selection_items(
            ts,
            a4,
            fs.push(n),
        ))),
{
    law_every_step_moves_on(ts, at, true);
}

// -------------------------------------------------------------- the parser

/// Read `text` as a document.
///
/// # Errors
/// A lexical error, or a definition that is not one GraphQL has.
pub fn parse(text: &str) -> (r: Result<Vec<Definition>, String>)
    ensures
        parsed_view(r) == spec_parse(text@),
{
    let tokens = match lex(text) {
        Ok(tokens) => tokens,
        Err(e) => return Err(e),
    };
    let count = tokens.len();
    let mut parser = Parser { tokens, at: 0 };
    assert(parser.tokens@.len() == count);
    let ghost ts = parser.toks();
    let mut definitions: Vec<Definition> = Vec::new();
    assert(definitions.deep_view() =~= seq![]);
    while !parser.done()
        invariant
            parser.toks() == ts,
            parser.wf(),
            spec_parse(text@) == document(ts),
            document(ts) == definitions_from(ts, parser.at as int, definitions.deep_view()),
        decreases parser.tokens@.len() - parser.at,
    {
        match parser.definition() {
            Ok(d) => {
                let ghost before = definitions.deep_view();
                let ghost dv = d@;
                definitions.push(d);
                assert(definitions.deep_view() =~= before.push(dv));
            },
            Err(e) => return Err(e),
        }
    }
    if definitions.len() == 0 {
        return Err(String::from_str("a document with no definition"));
    }
    Ok(definitions)
}


/// Reads definitions from a token sequence, one position at a time.
pub(crate) struct Parser {
    pub(crate) tokens: Vec<Token>,
    pub(crate) at: usize,
}

impl Parser {
    /// The tokens, by views.
    pub(crate) open spec fn toks(&self) -> Seq<TokenView> {
        tokens_view(self.tokens@)
    }

    /// The position is within the tokens or at their end.
    pub(crate) open spec fn wf(&self) -> bool {
        self.at <= self.tokens@.len() <= usize::MAX
    }

    /// Same tokens as `before`, the position moved on or kept.
    pub(crate) open spec fn keeps(&self, before: Parser) -> bool {
        &&& self.tokens@ == before.tokens@
        &&& self.wf()
        &&& before.at <= self.at
    }

    pub(crate) fn done(&self) -> (r: bool)
        ensures
            r == (self.at >= self.tokens@.len()),
    {
        self.at >= self.tokens.len()
    }

    pub(crate) fn peek(&self) -> (r: Option<&Kind>)
        ensures
            match kind_at(self.toks(), self.at as int) {
                Some(k) => r matches Some(x) && x@ == k,
                None => r is None,
            },
    {
        if self.at < self.tokens.len() {
            Some(&self.tokens[self.at].kind)
        } else {
            None
        }
    }

    /// Whether the punctuator `c` stands at the position.
    pub(crate) fn peek_is(&self, c: char) -> (r: bool)
        ensures
            r == is_punct_at(self.toks(), self.at as int, c),
    {
        match self.peek() {
            Some(k) => k.is(c),
            None => false,
        }
    }

    /// Whether the name `word` stands at the position.
    pub(crate) fn peek_name_is(&self, word: &str) -> (r: bool)
        ensures
            r == (name_at(self.toks(), self.at as int) == Some(word@)),
    {
        match self.peek() {
            Some(k) => match k.name() {
                Some(n) => same_text(n, word),
                None => false,
            },
            None => false,
        }
    }

    /// Whether a name stands at the position.
    pub(crate) fn peek_is_name(&self) -> (r: bool)
        ensures
            r == name_at(self.toks(), self.at as int) is Some,
    {
        match self.peek() {
            Some(Kind::Name(_)) => true,
            _ => false,
        }
    }

    /// Whether a string stands at the position.
    pub(crate) fn peek_is_str(&self) -> (r: bool)
        ensures
            r == kind_at(self.toks(), self.at as int) matches Some(KindView::Str(_)),
    {
        match self.peek() {
            Some(Kind::Str(_)) => true,
            _ => false,
        }
    }

    pub(crate) fn line(&self) -> (r: usize)
        ensures
            r == line_of(self.toks(), self.at as int),
    {
        let n = self.tokens.len();
        if self.at < n {
            self.tokens[self.at].line
        } else if n > 0 {
            self.tokens[n - 1].line
        } else {
            0
        }
    }

    pub(crate) fn take(&mut self) -> (r: Option<Kind>)
        requires
            old(self).wf(),
        ensures
            final(self).tokens@ == old(self).tokens@,
            final(self).at == next_at(old(self).toks(), old(self).at as int),
            final(self).wf(),
            match kind_at(old(self).toks(), old(self).at as int) {
                Some(k) => r matches Some(x) && x@ == k,
                None => r is None,
            },
    {
        if self.at < self.tokens.len() {
            let kind = self.tokens[self.at].kind.duplicate();
            self.at += 1;
            Some(kind)
        } else {
            None
        }
    }

    pub(crate) fn error(&self, what: &str) -> (r: String)
        ensures
            r@ == error_at(self.toks(), self.at as int, what@),
    {
        line_error_text(self.line(), what)
    }

    pub(crate) fn expect_name(&mut self, what: &str) -> (r: Result<String, String>)
        requires
            old(self).wf(),
        ensures
            final(self).keeps(*old(self)),
            agrees(r, final(self).at, expect_name(old(self).toks(), old(self).at as int, what@)),
            final(self).at == next_at(old(self).toks(), old(self).at as int),
    {
        match self.take() {
            Some(Kind::Name(name)) => Ok(name),
            _ => Err(self.error(joined("expected ", what).as_str())),
        }
    }

    pub(crate) fn eat(&mut self, c: char) -> (r: bool)
        requires
            old(self).wf(),
        ensures
            final(self).tokens@ == old(self).tokens@,
            final(self).wf(),
            r == is_punct_at(old(self).toks(), old(self).at as int, c),
            final(self).at == eat_at(old(self).toks(), old(self).at as int, c),
    {
        if self.peek_is(c) {
            self.at += 1;
            true
        } else {
            false
        }
    }

    /// Consume from `open` through its matching `close`, any nesting inside.
    pub(crate) fn balanced(&mut self, open: char, close: char) -> (r: Result<(), String>)
        requires
            old(self).wf(),
        ensures
            final(self).keeps(*old(self)),
            reaches(r, final(self).at, balanced(old(self).toks(), old(self).at as int, open, close)),
            !is_punct_at(old(self).toks(), old(self).at as int, open) ==> final(self).at == old(self).at,
    {
        let ghost ts = self.toks();
        let ghost start = self.at as int;
        if !self.eat(open) {
            let mut what = String::from_str("expected ");
            push_char(&mut what, open);
            assert(what@ =~= "expected "@ + seq![open]);
            return Err(self.error(what.as_str()));
        }
        let mut depth: usize = 1;
        while depth > 0
            invariant
                self.tokens@ == old(self).tokens@,
                self.toks() == ts,
                ts == old(self).toks(),
                start == old(self).at,
                is_punct_at(ts, start, open),
                self.wf(),
                start < self.at,
                depth <= self.at,
                balanced(ts, start, open, close) == balanced_from(ts, self.at as int, depth as nat, open, close),
            decreases self.tokens@.len() - self.at,
        {
            match self.take() {
                Some(Kind::Punct(c)) => {
                    if c == open {
                        depth += 1;
                    } else if c == close {
                        depth -= 1;
                    }
                },
                Some(_) => {},
                None => {
                    let mut what = String::new();
                    push_char(&mut what, open);
                    what.append(" never closed by ");
                    push_char(&mut what, close);
                    assert(what@ =~= seq![open] + " never closed by "@ + seq![close]);
                    return Err(self.error(what.as_str()));
                },
            }
        }
        Ok(())
    }

    /// Whether the selection set that just closed at `end` held a spread —
    /// a set of only spreads is not empty.
    fn saw_spread_before(&self, end: usize) -> (r: bool)
        requires
            1 <= end <= self.tokens@.len(),
            self.toks()[end - 1].kind == KindView::Punct('}'),
        ensures
            r == saw_spread_before(self.toks(), end as int),
    {
        let ghost ts = self.toks();
        let mut depth: usize = 0;
        let mut i = end;
        while i > 0
            invariant
                ts == self.toks(),
                i <= end <= self.tokens@.len(),
                ts[end - 1].kind == KindView::Punct('}'),
                i == end ==> depth == 0,
                i < end ==> 1 <= depth,
                depth <= end - i,
                spread_scan(ts, end as int, 0) == spread_scan(ts, i as int, depth as int),
            decreases i,
        {
            match &self.tokens[i - 1].kind {
                Kind::Punct(c) => {
                    if *c == '}' {
                        depth += 1;
                    } else if *c == '{' {
                        if depth == 1 {
                            return false;
                        }
                        depth -= 1;
                    }
                },
                Kind::Spread => {
                    if depth == 1 {
                        return true;
                    }
                },
                _ => {},
            }
            i -= 1;
        }
        false
    }

    /// What follows `...` of a spread: `on Type`, a fragment name, or nothing.
    fn spread_tail(&mut self) -> (r: Result<(), String>)
        requires
            old(self).wf(),
        ensures
            final(self).keeps(*old(self)),
            reaches(r, final(self).at, spread_tail(old(self).toks(), old(self).at as int)),
    {
        if self.peek_name_is("on") {
            self.at += 1;
            match self.expect_name("a type condition") {
                Ok(_) => Ok(()),
                Err(e) => Err(e),
            }
        } else {
            if self.peek_is_name() {
                self.at += 1;
            }
            Ok(())
        }
    }

    /// The field a selection of the name `first` selects: through an alias
    /// where one is given.
    fn aliased(&mut self, first: String) -> (r: Result<String, String>)
        requires
            old(self).wf(),
        ensures
            final(self).keeps(*old(self)),
            agrees(
                r,
                final(self).at,
                if is_punct_at(old(self).toks(), old(self).at as int, ':') {
                    expect_name(old(self).toks(), old(self).at + 1, "a field after the alias"@)
                } else {
                    Ok((first@, old(self).at as int))
                },
            ),
    {
        if self.eat(':') {
            self.expect_name("a field after the alias")
        } else {
            Ok(first)
        }
    }

    /// A selection set: the field names selected at its top level. Aliases
    /// are looked through, spreads skipped, nested sets consumed.
    pub(crate) fn selection_set(&mut self) -> (r: Result<Vec<String>, String>)
        requires
            old(self).wf(),
        ensures
            final(self).keeps(*old(self)),
            agrees(r, final(self).at, selection_set(old(self).toks(), old(self).at as int)),
            r is Ok ==> old(self).at < final(self).at,
            !is_punct_at(old(self).toks(), old(self).at as int, '{') ==> final(self).at == old(self).at,
        decreases old(self).tokens@.len() - old(self).at,
    {
        let ghost ts = self.toks();
        if !self.eat('{') {
            return Err(self.error("expected a selection set"));
        }
        let mut fields: Vec<String> = Vec::new();
        assert(fields.deep_view() =~= seq![]);
        loop
            invariant
                self.tokens@ == old(self).tokens@,
                self.toks() == ts,
                ts == old(self).toks(),
                self.wf(),
                old(self).at < self.at,
                is_punct_at(ts, old(self).at as int, '{'),
                selection_set(ts, old(self).at as int) == selection_items(
                    ts,
                    self.at as int,
                    fields.deep_view(),
                ),
            decreases self.tokens@.len() - self.at,
        {
            let ghost here = self.at as int;
            match self.take() {
                Some(Kind::Punct(c)) => {
                    if c == '}' {
                        if fields.len() == 0 && !self.saw_spread_before(self.at) {
                            return Err(self.error("an empty selection set"));
                        }
                        return Ok(fields);
                    } else {
                        return Err(self.error("expected a field, a spread or }"));
                    }
                },
                Some(Kind::Spread) => {
                    match self.spread_tail() {
                        Ok(()) => {},
                        Err(e) => return Err(e),
                    }
                    match self.directives() {
                        Ok(()) => {},
                        Err(e) => return Err(e),
                    }
                    let ghost a = self.at as int;
                    assert(nested_set(ts, here, a) == if is_punct_at(ts, a, '{') {
                        if advances(ts, here, a) {
                            match selection_set(ts, a) {
                                Ok((_, a2)) => Ok(a2),
                                Err(e) => Err(e),
                            }
                        } else {
                            Err(stalled(ts, here))
                        }
                    } else {
                        Ok(a)
                    });
                    if self.peek_is('{') {
                        match self.selection_set() {
                            Ok(_) => {},
                            Err(e) => return Err(e),
                        }
                    }
                },
                Some(Kind::Name(first)) => {
                    let name = match self.aliased(first) {
                        Ok(n) => n,
                        Err(e) => return Err(e),
                    };
                    let ghost before = fields.deep_view();
                    let ghost nv = name@;
                    fields.push(name);
                    assert(fields.deep_view() =~= before.push(nv));
                    match self.arguments() {
                        Ok(()) => {},
                        Err(e) => return Err(e),
                    }
                    match self.directives() {
                        Ok(()) => {},
                        Err(e) => return Err(e),
                    }
                    let ghost a = self.at as int;
                    assert(nested_set(ts, here, a) == if is_punct_at(ts, a, '{') {
                        if advances(ts, here, a) {
                            match selection_set(ts, a) {
                                Ok((_, a2)) => Ok(a2),
                                Err(e) => Err(e),
                            }
                        } else {
                            Err(stalled(ts, here))
                        }
                    } else {
                        Ok(a)
                    });
                    if self.peek_is('{') {
                        match self.selection_set() {
                            Ok(_) => {},
                            Err(e) => return Err(e),
                        }
                    }
                },
                _ => {
                    return Err(self.error("expected a field, a spread or }"));
                },
            }
            assert(advances(ts, here, self.at as int));
        }
    }

    /// One top-level definition.
    #[verifier::rlimit(40)]
    pub(crate) fn definition(&mut self) -> (r: Result<Definition, String>)
        requires
            old(self).wf(),
        ensures
            final(self).keeps(*old(self)),
            agrees(r, final(self).at, definition(old(self).toks(), old(self).at as int)),
            r is Ok ==> old(self).at < final(self).at,
            ({
                let ts = old(self).toks();
                let a0 = if kind_at(ts, old(self).at as int) matches Some(KindView::Str(_)) {
                    old(self).at + 1
                } else {
                    old(self).at as int
                };
                &&& (name_at(ts, a0) matches Some(k) && !is_definition_keyword(k)) ==> final(self).at == a0 + 1
                &&& name_at(ts, a0) is None && !is_punct_at(ts, a0, '{') ==> final(self).at
                    == next_at(ts, a0)
            }),
    {
        if self.peek_is_str() {
            self.at += 1; // a description
        }
        if self.peek_is('{') {
            return match self.selection_set() {
                Ok(fields) => Ok(
                    Definition::Operation { kind: String::from_str("query"), name: None, fields },
                ),
                Err(e) => Err(e),
            };
        }
        let keyword = match self.expect_name("a definition") {
            Ok(k) => k,
            Err(e) => return Err(e),
        };
        self.after_keyword(keyword)
    }

    /// A definition after its keyword.
    fn after_keyword(&mut self, keyword: String) -> (r: Result<Definition, String>)
        requires
            old(self).wf(),
        ensures
            final(self).keeps(*old(self)),
            agrees(r, final(self).at, after_keyword(old(self).toks(), old(self).at as int, keyword@)),
            !is_definition_keyword(keyword@) ==> final(self).at == old(self).at,
    {
        if same_text(keyword.as_str(), "query") || same_text(keyword.as_str(), "mutation")
            || same_text(keyword.as_str(), "subscription") {
            self.operation(keyword)
        } else if same_text(keyword.as_str(), "fragment") {
            let name = match self.expect_name("a fragment name") {
                Ok(n) => n,
                Err(e) => return Err(e),
            };
            let word = match self.expect_name("on") {
                Ok(n) => n,
                Err(e) => return Err(e),
            };
            if !same_text(word.as_str(), "on") {
                return Err(self.error("expected on"));
            }
            let on = match self.expect_name("a type condition") {
                Ok(n) => n,
                Err(e) => return Err(e),
            };
            match self.directives() {
                Ok(()) => {},
                Err(e) => return Err(e),
            }
            match self.selection_set() {
                Ok(_) => Ok(Definition::Fragment { name, on }),
                Err(e) => Err(e),
            }
        } else if same_text(keyword.as_str(), "extend") {
            match self.expect_name("what to extend") {
                Ok(extended) => self.type_system(extended),
                Err(e) => Err(e),
            }
        } else {
            self.type_system(keyword)
        }
    }

    fn operation(&mut self, kind: String) -> (r: Result<Definition, String>)
        requires
            old(self).wf(),
        ensures
            final(self).keeps(*old(self)),
            agrees(r, final(self).at, operation(old(self).toks(), old(self).at as int, kind@)),
    {
        let name = match self.peek() {
            Some(Kind::Name(n)) => Some(n.clone()),
            _ => None,
        };
        if name.is_some() {
            self.at += 1;
        }
        match self.arguments() {
            Ok(()) => {},
            Err(e) => return Err(e),
        }
        match self.directives() {
            Ok(()) => {},
            Err(e) => return Err(e),
        }
        match self.selection_set() {
            Ok(fields) => Ok(Definition::Operation { kind, name, fields }),
            Err(e) => Err(e),
        }
    }

    /// Parenthesised arguments, where they stand at the position.
    pub(crate) fn arguments(&mut self) -> (r: Result<(), String>)
        requires
            old(self).wf(),
        ensures
            final(self).keeps(*old(self)),
            reaches(r, final(self).at, arguments(old(self).toks(), old(self).at as int)),
    {
        if self.peek_is('(') {
            self.balanced('(', ')')
        } else {
            Ok(())
        }
    }
}

} // verus!
