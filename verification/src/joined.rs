//! Documents read one after the other: the definitions of a document do not
//! reach into what follows them, so two documents joined read as the
//! definitions of the one and then those of the other.
//!
//! Each production is shown to read the same from the same kinds of tokens
//! wherever they stand, so long as what follows them cannot continue the
//! production.

use vstd::prelude::*;
use crate::document::{
    DefinitionView, Parsed, Reached, advances, after_keyword, arguments, balanced, balanced_from,
    definition, definitions_from, eat_at, expect_name, fragment, is_definition_keyword,
    is_punct_at, kind_at, name_at, nested_set, next_at, operation, saw_spread_before,
    selection_items, selection_set, spread_scan, spread_tail,
};
use crate::document::spec_parse;
use crate::lexer::{KindView, TokenView, kinds, law_joined_texts_lex_one_after_the_other, relined, spec_lex};
use crate::lexer::newlines_before;
use crate::type_system::{
    directive_definition, directives, enum_type, field_type, fields, fields_from, implements,
    more_names, object_type, optional_fields, roots, roots_from, separated_names, type_reference,
    type_system, union_type, value,
};

verus! {

/// Whether a token of kind `k` may follow a production without continuing
/// it: no punctuator, no spread, and none of the names a production looks
/// for after itself.
pub open spec fn harmless_next(k: KindView) -> bool {
    match k {
        KindView::Punct(_) => false,
        KindView::Spread => false,
        KindView::Name(n) => n != "implements"@ && n != "repeatable"@ && n != "on"@,
        _ => true,
    }
}

/// Whether the tokens `u` hold the kinds of `ts` from position `k` on, and
/// what follows them there, if anything, is harmless.
pub open spec fn holds_at(u: Seq<TokenView>, ts: Seq<TokenView>, k: int) -> bool {
    &&& 0 <= k
    &&& k + ts.len() <= u.len()
    &&& forall|i: int| 0 <= i < ts.len() ==> #[trigger] u[i + k].kind == ts[i].kind
    &&& k + ts.len() < u.len() ==> harmless_next(u[k + ts.len()].kind)
}

/// A production's result `k` positions further on.
pub open spec fn moved<T>(r: Parsed<T>, k: int) -> Parsed<T> {
    match r {
        Ok((v, p)) => Ok((v, p + k)),
        Err(e) => Err(e),
    }
}

/// A position reached, `k` positions further on.
pub open spec fn moved_to(r: Reached, k: int) -> Reached {
    match r {
        Ok(p) => Ok(p + k),
        Err(e) => Err(e),
    }
}

/// Whether a production read from `at` reached a position between `at` and
/// the end of `ts`.
pub open spec fn within<T>(r: Parsed<T>, ts: Seq<TokenView>, at: int) -> bool {
    r matches Ok((_, p)) ==> at <= p <= ts.len()
}

pub open spec fn within_to(r: Reached, ts: Seq<TokenView>, at: int) -> bool {
    r matches Ok(p) ==> at <= p <= ts.len()
}

proof fn lemma_holds_at(u: Seq<TokenView>, ts: Seq<TokenView>, k: int, at: int)
    requires
        holds_at(u, ts, k),
        0 <= at <= ts.len(),
    ensures
        forall|c: char| #[trigger] is_punct_at(u, at + k, c) == is_punct_at(ts, at, c),
        forall|c: char| #[trigger] eat_at(u, at + k, c) == eat_at(ts, at, c) + k,
        at < ts.len() ==> kind_at(u, at + k) == kind_at(ts, at),
        at < ts.len() ==> name_at(u, at + k) == name_at(ts, at),
        at < ts.len() ==> next_at(u, at + k) == next_at(ts, at) + k,
        at == ts.len() ==> (kind_at(u, at + k) matches Some(x) ==> harmless_next(x)),
        forall|w: Seq<char>| #[trigger] expect_name(ts, at, w) is Ok ==> expect_name(u, at + k, w)
            == moved(expect_name(ts, at, w), k) && within(expect_name(ts, at, w), ts, at),
{
    if at < ts.len() {
        assert(u[at + k].kind == ts[at].kind);
    }
}

/// Any tokens hold themselves.
pub(crate) proof fn lemma_holds_itself(ts: Seq<TokenView>)
    ensures
        holds_at(ts, ts, 0),
{
    assert forall|i: int| 0 <= i < ts.len() implies #[trigger] ts[i + 0].kind == ts[i].kind by {
        assert(i + 0 == i);
    }
}

proof fn lemma_balanced_from(
    u: Seq<TokenView>,
    ts: Seq<TokenView>,
    k: int,
    at: int,
    depth: nat,
    open: char,
    close: char,
)
    requires
        holds_at(u, ts, k),
        0 <= at <= ts.len(),
        balanced_from(ts, at, depth, open, close) is Ok,
    ensures
        balanced_from(u, at + k, depth, open, close) == moved_to(
            balanced_from(ts, at, depth, open, close),
            k,
        ),
        within_to(balanced_from(ts, at, depth, open, close), ts, at),
    decreases ts.len() - at,
{
    lemma_holds_at(u, ts, k, at);
    if depth > 0 {
        if let Some(x) = kind_at(ts, at) {
            let d: nat = if x == KindView::Punct(open) {
                depth + 1
            } else if x == KindView::Punct(close) {
                (depth - 1) as nat
            } else {
                depth
            };
            lemma_balanced_from(u, ts, k, at + 1, d, open, close);
        }
    }
}

pub proof fn lemma_balanced(u: Seq<TokenView>, ts: Seq<TokenView>, k: int, at: int, open: char, close: char)
    requires
        holds_at(u, ts, k),
        0 <= at <= ts.len(),
        balanced(ts, at, open, close) is Ok,
    ensures
        balanced(u, at + k, open, close) == moved_to(balanced(ts, at, open, close), k),
        within_to(balanced(ts, at, open, close), ts, at),
{
    lemma_holds_at(u, ts, k, at);
    if is_punct_at(ts, at, open) {
        lemma_balanced_from(u, ts, k, at + 1, 1, open, close);
    }
}

pub proof fn lemma_arguments(u: Seq<TokenView>, ts: Seq<TokenView>, k: int, at: int)
    requires
        holds_at(u, ts, k),
        0 <= at <= ts.len(),
        arguments(ts, at) is Ok,
    ensures
        arguments(u, at + k) == moved_to(arguments(ts, at), k),
        within_to(arguments(ts, at), ts, at),
{
    lemma_holds_at(u, ts, k, at);
    if is_punct_at(ts, at, '(') {
        lemma_balanced(u, ts, k, at, '(', ')');
    }
}

pub proof fn lemma_directives(u: Seq<TokenView>, ts: Seq<TokenView>, k: int, at: int)
    requires
        holds_at(u, ts, k),
        0 <= at <= ts.len(),
        directives(ts, at) is Ok,
    ensures
        directives(u, at + k) == moved_to(directives(ts, at), k),
        within_to(directives(ts, at), ts, at),
    decreases ts.len() - at,
{
    lemma_holds_at(u, ts, k, at);
    if is_punct_at(ts, at, '@') {
        lemma_holds_at(u, ts, k, at + 1);
        let (_, a1) = expect_name(ts, at + 1, "a directive name"@)->Ok_0;
        lemma_arguments(u, ts, k, a1);
        let a2 = arguments(ts, a1)->Ok_0;
        lemma_directives(u, ts, k, a2);
    }
}


proof fn lemma_more_names(
    u: Seq<TokenView>,
    ts: Seq<TokenView>,
    k: int,
    at: int,
    sep: char,
    what: Seq<char>,
    names: Seq<Seq<char>>,
)
    requires
        holds_at(u, ts, k),
        0 <= at <= ts.len(),
        more_names(ts, at, sep, what, names) is Ok,
    ensures
        more_names(u, at + k, sep, what, names) == moved(more_names(ts, at, sep, what, names), k),
        within(more_names(ts, at, sep, what, names), ts, at),
    decreases ts.len() - at,
{
    lemma_holds_at(u, ts, k, at);
    if is_punct_at(ts, at, sep) {
        lemma_holds_at(u, ts, k, at + 1);
        let (n, a) = expect_name(ts, at + 1, what)->Ok_0;
        lemma_more_names(u, ts, k, a, sep, what, names.push(n));
    }
}

proof fn lemma_separated_names(u: Seq<TokenView>, ts: Seq<TokenView>, k: int, at: int, sep: char, what: Seq<char>)
    requires
        holds_at(u, ts, k),
        0 <= at <= ts.len(),
        separated_names(ts, at, sep, what) is Ok,
    ensures
        separated_names(u, at + k, sep, what) == moved(separated_names(ts, at, sep, what), k),
        within(separated_names(ts, at, sep, what), ts, at),
{
    lemma_holds_at(u, ts, k, at);
    let a0 = eat_at(ts, at, sep);
    lemma_holds_at(u, ts, k, a0);
    let (n, a) = expect_name(ts, a0, what)->Ok_0;
    lemma_more_names(u, ts, k, a, sep, what, seq![n]);
}

proof fn lemma_roots_from(
    u: Seq<TokenView>,
    ts: Seq<TokenView>,
    k: int,
    at: int,
    rs: Seq<(Seq<char>, Seq<char>)>,
)
    requires
        holds_at(u, ts, k),
        0 <= at <= ts.len(),
        roots_from(ts, at, rs) is Ok,
    ensures
        roots_from(u, at + k, rs) == moved(roots_from(ts, at, rs), k),
        within(roots_from(ts, at, rs), ts, at),
    decreases ts.len() - at,
{
    lemma_holds_at(u, ts, k, at);
    if !is_punct_at(ts, at, '}') {
        let (operation, a1) = expect_name(ts, at, "an operation kind"@)->Ok_0;
        lemma_holds_at(u, ts, k, a1);
        lemma_holds_at(u, ts, k, a1 + 1);
        let (root, a2) = expect_name(ts, a1 + 1, "a root type"@)->Ok_0;
        lemma_roots_from(u, ts, k, a2, rs.push((operation, root)));
    }
}

proof fn lemma_roots(u: Seq<TokenView>, ts: Seq<TokenView>, k: int, at: int)
    requires
        holds_at(u, ts, k),
        0 <= at <= ts.len(),
        roots(ts, at) is Ok,
    ensures
        roots(u, at + k) == moved(roots(ts, at), k),
        within(roots(ts, at), ts, at),
{
    lemma_holds_at(u, ts, k, at);
    lemma_roots_from(u, ts, k, at + 1, seq![]);
}

proof fn lemma_type_reference(u: Seq<TokenView>, ts: Seq<TokenView>, k: int, at: int)
    requires
        holds_at(u, ts, k),
        0 <= at <= ts.len(),
        type_reference(ts, at) is Ok,
    ensures
        type_reference(u, at + k) == moved_to(type_reference(ts, at), k),
        within_to(type_reference(ts, at), ts, at),
    decreases ts.len() - at,
{
    lemma_holds_at(u, ts, k, at);
    if is_punct_at(ts, at, '[') {
        lemma_type_reference(u, ts, k, at + 1);
        let a1 = type_reference(ts, at + 1)->Ok_0;
        lemma_holds_at(u, ts, k, a1);
        lemma_holds_at(u, ts, k, a1 + 1);
    } else {
        let (_, a1) = expect_name(ts, at, "a type"@)->Ok_0;
        lemma_holds_at(u, ts, k, a1);
    }
}

proof fn lemma_value(u: Seq<TokenView>, ts: Seq<TokenView>, k: int, at: int)
    requires
        holds_at(u, ts, k),
        0 <= at <= ts.len(),
        value(ts, at) is Ok,
    ensures
        value(u, at + k) == moved_to(value(ts, at), k),
        within_to(value(ts, at), ts, at),
{
    lemma_holds_at(u, ts, k, at);
    if is_punct_at(ts, at, '[') {
        lemma_balanced(u, ts, k, at, '[', ']');
    }
    if is_punct_at(ts, at, '{') {
        lemma_balanced(u, ts, k, at, '{', '}');
    }
    if at < ts.len() {
        lemma_holds_at(u, ts, k, at + 1);
    }
}

pub(crate) proof fn lemma_field_type(u: Seq<TokenView>, ts: Seq<TokenView>, k: int, at: int, typed: bool)
    requires
        holds_at(u, ts, k),
        0 <= at <= ts.len(),
        field_type(ts, at, typed) is Ok,
    ensures
        field_type(u, at + k, typed) == moved_to(field_type(ts, at, typed), k),
        within_to(field_type(ts, at, typed), ts, at),
{
    lemma_holds_at(u, ts, k, at);
    if is_punct_at(ts, at, ':') {
        lemma_type_reference(u, ts, k, at + 1);
        let a = type_reference(ts, at + 1)->Ok_0;
        lemma_holds_at(u, ts, k, a);
        if is_punct_at(ts, a, '=') {
            lemma_value(u, ts, k, a + 1);
        }
    }
}

proof fn lemma_fields_from(
    u: Seq<TokenView>,
    ts: Seq<TokenView>,
    k: int,
    at: int,
    typed: bool,
    names: Seq<Seq<char>>,
)
    requires
        holds_at(u, ts, k),
        0 <= at <= ts.len(),
        fields_from(ts, at, typed, names) is Ok,
    ensures
        fields_from(u, at + k, typed, names) == moved(fields_from(ts, at, typed, names), k),
        within(fields_from(ts, at, typed, names), ts, at),
    decreases ts.len() - at,
{
    lemma_holds_at(u, ts, k, at);
    let a0 = if kind_at(ts, at) matches Some(KindView::Str(_)) { at + 1 } else { at };
    lemma_holds_at(u, ts, k, a0);
    if !is_punct_at(ts, a0, '}') {
        let (name, a1) = expect_name(ts, a0, "a field name"@)->Ok_0;
        lemma_arguments(u, ts, k, a1);
        let a2 = arguments(ts, a1)->Ok_0;
        lemma_field_type(u, ts, k, a2, typed);
        let a3 = field_type(ts, a2, typed)->Ok_0;
        lemma_directives(u, ts, k, a3);
        let a4 = directives(ts, a3)->Ok_0;
        lemma_fields_from(u, ts, k, a4, typed, names.push(name));
    }
}

proof fn lemma_optional_fields(u: Seq<TokenView>, ts: Seq<TokenView>, k: int, at: int, typed: bool)
    requires
        holds_at(u, ts, k),
        0 <= at <= ts.len(),
        optional_fields(ts, at, typed) is Ok,
    ensures
        optional_fields(u, at + k, typed) == moved(optional_fields(ts, at, typed), k),
        within(optional_fields(ts, at, typed), ts, at),
{
    lemma_holds_at(u, ts, k, at);
    if is_punct_at(ts, at, '{') {
        lemma_fields_from(u, ts, k, at + 1, typed, seq![]);
    }
}

proof fn lemma_implements(u: Seq<TokenView>, ts: Seq<TokenView>, k: int, at: int)
    requires
        holds_at(u, ts, k),
        0 <= at <= ts.len(),
        implements(ts, at) is Ok,
    ensures
        implements(u, at + k) == moved_to(implements(ts, at), k),
        within_to(implements(ts, at), ts, at),
{
    lemma_holds_at(u, ts, k, at);
    if at == ts.len() {
        if let Some(x) = kind_at(u, at + k) {
            assert(harmless_next(x));
        }
    }
    if name_at(ts, at) == Some("implements"@) {
        lemma_separated_names(u, ts, k, at + 1, '&', "an interface"@);
    }
}

pub proof fn lemma_type_system(u: Seq<TokenView>, ts: Seq<TokenView>, k: int, at: int, keyword: Seq<char>)
    requires
        holds_at(u, ts, k),
        0 <= at <= ts.len(),
        type_system(ts, at, keyword) is Ok,
    ensures
        type_system(u, at + k, keyword) == moved(type_system(ts, at, keyword), k),
        within(type_system(ts, at, keyword), ts, at),
{
    lemma_holds_at(u, ts, k, at);
    if keyword == "schema"@ {
        lemma_directives(u, ts, k, at);
        lemma_roots(u, ts, k, directives(ts, at)->Ok_0);
    } else if keyword == "scalar"@ {
        let (_, a1) = expect_name(ts, at, "a scalar name"@)->Ok_0;
        lemma_directives(u, ts, k, a1);
    } else if keyword == "type"@ || keyword == "interface"@ || keyword == "input"@ {
        let (_, a1) = expect_name(ts, at, "a type name"@)->Ok_0;
        lemma_implements(u, ts, k, a1);
        let a2 = implements(ts, a1)->Ok_0;
        lemma_directives(u, ts, k, a2);
        lemma_optional_fields(u, ts, k, directives(ts, a2)->Ok_0, true);
    } else if keyword == "enum"@ {
        let (_, a1) = expect_name(ts, at, "an enum name"@)->Ok_0;
        lemma_directives(u, ts, k, a1);
        lemma_optional_fields(u, ts, k, directives(ts, a1)->Ok_0, false);
    } else if keyword == "union"@ {
        let (_, a1) = expect_name(ts, at, "a union name"@)->Ok_0;
        lemma_directives(u, ts, k, a1);
        let a2 = directives(ts, a1)->Ok_0;
        lemma_holds_at(u, ts, k, a2);
        if is_punct_at(ts, a2, '=') {
            lemma_separated_names(u, ts, k, a2 + 1, '|', "a member type"@);
        }
    } else if keyword == "directive"@ {
        lemma_holds_at(u, ts, k, at + 1);
        let (_, a1) = expect_name(ts, at + 1, "a directive name"@)->Ok_0;
        lemma_arguments(u, ts, k, a1);
        let a2 = arguments(ts, a1)->Ok_0;
        lemma_holds_at(u, ts, k, a2);
        let a3 = if name_at(ts, a2) == Some("repeatable"@) { a2 + 1 } else { a2 };
        if a2 == ts.len() {
            if let Some(x) = kind_at(u, a2 + k) {
                assert(harmless_next(x));
            }
        }
        lemma_holds_at(u, ts, k, a3);
        let (_, a4) = expect_name(ts, a3, "on"@)->Ok_0;
        lemma_separated_names(u, ts, k, a4, '|', "a location"@);
    }
}


proof fn lemma_spread_scan(u: Seq<TokenView>, ts: Seq<TokenView>, k: int, i: int, depth: int)
    requires
        holds_at(u, ts, k),
        0 <= i <= ts.len(),
        spread_scan(ts, i, depth),
    ensures
        spread_scan(u, i + k, depth),
    decreases i,
{
    if i > 0 {
        assert(u[i - 1 + k].kind == ts[i - 1].kind);
        assert(i - 1 + k == i + k - 1);
        match ts[i - 1].kind {
            KindView::Punct(c) => if c == '}' {
                lemma_spread_scan(u, ts, k, i - 1, depth + 1);
            } else if c == '{' {
                if depth != 1 {
                    lemma_spread_scan(u, ts, k, i - 1, depth - 1);
                }
            } else {
                lemma_spread_scan(u, ts, k, i - 1, depth);
            },
            KindView::Spread => if depth != 1 {
                lemma_spread_scan(u, ts, k, i - 1, depth);
            },
            _ => {
                lemma_spread_scan(u, ts, k, i - 1, depth);
            },
        }
    }
}

proof fn lemma_selection_set(u: Seq<TokenView>, ts: Seq<TokenView>, k: int, at: int)
    requires
        holds_at(u, ts, k),
        0 <= at <= ts.len(),
        selection_set(ts, at) is Ok,
    ensures
        selection_set(u, at + k) == moved(selection_set(ts, at), k),
        within(selection_set(ts, at), ts, at),
    decreases ts.len() - at, 2int,
{
    lemma_holds_at(u, ts, k, at);
    lemma_selection_items(u, ts, k, at + 1, seq![]);
}

proof fn lemma_nested_set(u: Seq<TokenView>, ts: Seq<TokenView>, k: int, from: int, at: int)
    requires
        holds_at(u, ts, k),
        0 <= from,
        0 <= at <= ts.len(),
        nested_set(ts, from, at) is Ok,
    ensures
        nested_set(u, from + k, at + k) == moved_to(nested_set(ts, from, at), k),
        within_to(nested_set(ts, from, at), ts, at),
    decreases ts.len() - from, 0int,
{
    lemma_holds_at(u, ts, k, at);
    if is_punct_at(ts, at, '{') && advances(ts, from, at) {
        lemma_selection_set(u, ts, k, at);
    }
}

proof fn lemma_selection_items(u: Seq<TokenView>, ts: Seq<TokenView>, k: int, at: int, fields: Seq<Seq<char>>)
    requires
        holds_at(u, ts, k),
        0 <= at <= ts.len(),
        selection_items(ts, at, fields) is Ok,
    ensures
        selection_items(u, at + k, fields) == moved(selection_items(ts, at, fields), k),
        within(selection_items(ts, at, fields), ts, at),
    decreases ts.len() - at, 1int,
{
    lemma_holds_at(u, ts, k, at);
    let a1 = at + 1;
    lemma_holds_at(u, ts, k, a1);
    match kind_at(ts, at) {
        Some(KindView::Spread) => {
            if a1 == ts.len() {
                assert(spread_tail(ts, a1) == Ok::<int, Seq<char>>(a1));
                assert(directives(ts, a1) == Ok::<int, Seq<char>>(a1));
                assert(nested_set(ts, at, a1) == Ok::<int, Seq<char>>(a1));
                assert(selection_items(ts, a1, fields) is Err);
            } else {
                lemma_holds_at(u, ts, k, a1 + 1);
                let a2 = spread_tail(ts, a1)->Ok_0;
                assert(spread_tail(u, a1 + k) == Ok::<int, Seq<char>>(a2 + k));
                lemma_directives(u, ts, k, a2);
                let a3 = directives(ts, a2)->Ok_0;
                lemma_nested_set(u, ts, k, at, a3);
                let a4 = nested_set(ts, at, a3)->Ok_0;
                lemma_selection_items(u, ts, k, a4, fields);
            }
        },
        Some(KindView::Name(n)) => {
            if a1 < ts.len() {
                lemma_holds_at(u, ts, k, a1 + 1);
            }
            let aliased = if is_punct_at(ts, a1, ':') {
                expect_name(ts, a1 + 1, "a field after the alias"@)
            } else {
                Ok((n, a1))
            };
            let (name, a2) = aliased->Ok_0;
            lemma_arguments(u, ts, k, a2);
            let a3 = arguments(ts, a2)->Ok_0;
            lemma_directives(u, ts, k, a3);
            let a4 = directives(ts, a3)->Ok_0;
            lemma_nested_set(u, ts, k, at, a4);
            let a5 = nested_set(ts, at, a4)->Ok_0;
            lemma_selection_items(u, ts, k, a5, fields.push(name));
        },
        Some(KindView::Punct(c)) => {
            if c == '}' && fields.len() == 0 {
                lemma_spread_scan(u, ts, k, a1, 0);
            }
        },
        _ => {},
    }
}

proof fn lemma_operation(u: Seq<TokenView>, ts: Seq<TokenView>, k: int, at: int, kind: Seq<char>)
    requires
        holds_at(u, ts, k),
        0 <= at <= ts.len(),
        operation(ts, at, kind) is Ok,
    ensures
        operation(u, at + k, kind) == moved(operation(ts, at, kind), k),
        within(operation(ts, at, kind), ts, at),
{
    lemma_holds_at(u, ts, k, at);
    if at == ts.len() {
        assert(arguments(ts, at) == Ok::<int, Seq<char>>(at));
        assert(directives(ts, at) == Ok::<int, Seq<char>>(at));
        assert(selection_set(ts, at) is Err);
    } else {
        let a1 = if name_at(ts, at) is Some { at + 1 } else { at };
        lemma_arguments(u, ts, k, a1);
        let a2 = arguments(ts, a1)->Ok_0;
        lemma_directives(u, ts, k, a2);
        lemma_selection_set(u, ts, k, directives(ts, a2)->Ok_0);
    }
}

proof fn lemma_fragment(u: Seq<TokenView>, ts: Seq<TokenView>, k: int, at: int)
    requires
        holds_at(u, ts, k),
        0 <= at <= ts.len(),
        fragment(ts, at) is Ok,
    ensures
        fragment(u, at + k) == moved(fragment(ts, at), k),
        within(fragment(ts, at), ts, at),
{
    lemma_holds_at(u, ts, k, at);
    let (_, a1) = expect_name(ts, at, "a fragment name"@)->Ok_0;
    lemma_holds_at(u, ts, k, a1);
    let (_, a2) = expect_name(ts, a1, "on"@)->Ok_0;
    lemma_holds_at(u, ts, k, a2);
    let (_, a3) = expect_name(ts, a2, "a type condition"@)->Ok_0;
    lemma_directives(u, ts, k, a3);
    lemma_selection_set(u, ts, k, directives(ts, a3)->Ok_0);
}

pub(crate) proof fn lemma_after_keyword(u: Seq<TokenView>, ts: Seq<TokenView>, k: int, at: int, keyword: Seq<char>)
    requires
        holds_at(u, ts, k),
        0 <= at <= ts.len(),
        after_keyword(ts, at, keyword) is Ok,
    ensures
        after_keyword(u, at + k, keyword) == moved(after_keyword(ts, at, keyword), k),
        within(after_keyword(ts, at, keyword), ts, at),
{
    lemma_holds_at(u, ts, k, at);
    if keyword == "query"@ || keyword == "mutation"@ || keyword == "subscription"@ {
        lemma_operation(u, ts, k, at, keyword);
    } else if keyword == "fragment"@ {
        lemma_fragment(u, ts, k, at);
    } else if keyword == "extend"@ {
        let (extended, a) = expect_name(ts, at, "what to extend"@)->Ok_0;
        lemma_type_system(u, ts, k, a, extended);
    } else {
        lemma_type_system(u, ts, k, at, keyword);
    }
}

proof fn lemma_definition(u: Seq<TokenView>, ts: Seq<TokenView>, k: int, at: int)
    requires
        holds_at(u, ts, k),
        0 <= at < ts.len(),
        definition(ts, at) is Ok,
    ensures
        definition(u, at + k) == moved(definition(ts, at), k),
        within(definition(ts, at), ts, at),
{
    lemma_holds_at(u, ts, k, at);
    let a0 = if kind_at(ts, at) matches Some(KindView::Str(_)) { at + 1 } else { at };
    lemma_holds_at(u, ts, k, a0);
    if is_punct_at(ts, a0, '{') {
        lemma_selection_set(u, ts, k, a0);
    } else {
        let (keyword, a1) = expect_name(ts, a0, "a definition"@)->Ok_0;
        lemma_after_keyword(u, ts, k, a1, keyword);
    }
}

proof fn lemma_definitions_from(
    u: Seq<TokenView>,
    ts: Seq<TokenView>,
    k: int,
    at: int,
    pre: Seq<DefinitionView>,
    defs: Seq<DefinitionView>,
)
    requires
        holds_at(u, ts, k),
        0 <= at <= ts.len(),
        definitions_from(ts, at, defs) is Ok,
    ensures
        definitions_from(u, at + k, pre + defs) == definitions_from(
            u,
            ts.len() + k,
            pre + definitions_from(ts, at, defs)->Ok_0,
        ),
    decreases ts.len() - at,
{
    if at < ts.len() {
        lemma_definition(u, ts, k, at);
        let (d, a) = definition(ts, at)->Ok_0;
        assert(advances(ts, at, a));
        assert((pre + defs).push(d) =~= pre + defs.push(d));
        lemma_definitions_from(u, ts, k, a, pre, defs.push(d));
    }
}


proof fn lemma_keywords_are_harmless(kw: Seq<char>)
    requires
        is_definition_keyword(kw),
    ensures
        harmless_next(KindView::Name(kw)),
{
    reveal_strlit("query");
    reveal_strlit("mutation");
    reveal_strlit("subscription");
    reveal_strlit("fragment");
    reveal_strlit("extend");
    reveal_strlit("schema");
    reveal_strlit("scalar");
    reveal_strlit("type");
    reveal_strlit("interface");
    reveal_strlit("input");
    reveal_strlit("enum");
    reveal_strlit("union");
    reveal_strlit("directive");
    reveal_strlit("implements");
    reveal_strlit("repeatable");
    reveal_strlit("on");
    assert(kw.len() == 4 || kw.len() == 5 || kw.len() == 6 || kw.len() == 8 || kw.len() == 9
        || kw.len() == 12);
    assert("implements"@.len() == 10);
    assert("repeatable"@.len() == 10);
    assert("on"@.len() == 2);
}

/// A document that parses and does not open with a selection set begins
/// with a token that no definition before it would take as its own.
proof fn lemma_first_token_harmless(ts: Seq<TokenView>)
    requires
        definitions_from(ts, 0, seq![]) is Ok,
        !is_punct_at(ts, 0, '{'),
    ensures
        ts.len() > 0,
        harmless_next(ts[0].kind),
{
    assert(ts.len() > 0);
    let a0 = if kind_at(ts, 0) matches Some(KindView::Str(_)) { 1int } else { 0int };
    if a0 == 0 {
        let (kw, a1) = expect_name(ts, 0, "a definition"@)->Ok_0;
        assert(after_keyword(ts, a1, kw) is Ok);
        assert(is_definition_keyword(kw));
        lemma_keywords_are_harmless(kw);
    }
}

/// Definitions are read one after another and none reaches into the next:
/// two documents that parse, joined by a space, a tab, a comma — where the
/// first holds no comment to run on — or a line feed, parse as the
/// definitions of the one and then those of the other, unless the second
/// opens with a selection set, which a type definition before it would take
/// as its body.
pub proof fn law_joined_documents_read_one_after_the_other(a: Seq<char>, s: char, b: Seq<char>)
    requires
        s == ' ' || s == '\t' || s == ',' || s == '\n',
        s == '\n' || forall|i: int| 0 <= i < a.len() ==> #[trigger] a[i] != '#',
        spec_parse(a) is Ok,
        spec_parse(b) is Ok,
        !(spec_lex(b) matches Ok(tb) && is_punct_at(tb, 0, '{')),
    ensures
        spec_parse(a + seq![s] + b) == Ok::<Seq<DefinitionView>, Seq<char>>(
            spec_parse(a)->Ok_0 + spec_parse(b)->Ok_0,
        ),
{
    let ta = spec_lex(a)->Ok_0;
    let tb = spec_lex(b)->Ok_0;
    law_joined_texts_lex_one_after_the_other(a, s, b);
    let m = newlines_before(a + seq![s], a.len() as int + 1);
    let u = ta + relined(tb, m);
    lemma_first_token_harmless(tb);
    assert(holds_at(u, ta, 0)) by {
        assert forall|i: int| 0 <= i < ta.len() implies #[trigger] u[i + 0].kind == ta[i].kind by {
            assert(u[i + 0] == ta[i]);
        }
        assert(u[ta.len() as int].kind == tb[0].kind);
    }
    assert(holds_at(u, tb, ta.len() as int)) by {
        assert forall|i: int| 0 <= i < tb.len() implies #[trigger] u[i + ta.len()].kind == tb[i].kind by {
            assert(u[i + ta.len()] == relined(tb, m)[i]);
        }
    }
    let da = definitions_from(ta, 0, seq![])->Ok_0;
    let db = definitions_from(tb, 0, seq![])->Ok_0;
    lemma_definitions_from(u, ta, 0, 0, seq![], seq![]);
    assert(Seq::<DefinitionView>::empty() + seq![] =~= seq![]);
    assert(Seq::<DefinitionView>::empty() + da =~= da);
    lemma_definitions_from(u, tb, ta.len() as int, 0, da, seq![]);
    assert(da + Seq::<DefinitionView>::empty() =~= da);
    crate::document::law_documents_have_definitions(b);
}

} // verus!
