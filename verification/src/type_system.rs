//! The type system half of the document grammar: schema, scalar, type,
//! interface, input, enum, union and directive definitions, their `extend`
//! forms, and the field, argument and value shapes inside them. Read by the
//! same parser as the executable half in `document.rs`.

use vstd::prelude::*;
use crate::document::{
    Definition, DefinitionView, Parsed, Parser, Reached, advances, agrees, arguments, balanced,
    eat_at, error_at, expect_name, is_error_at, is_punct_at, kind_at, name_at, reaches, stalled,
};
use crate::lexer::{Kind, KindView, TokenView};
use crate::text::{joined, same_text};

verus! {

/// `@name[(args)]`, any number of them.
pub open spec fn directives(ts: Seq<TokenView>, at: int) -> Reached
    decreases ts.len() - at,
{
    if is_punct_at(ts, at, '@') {
        match expect_name(ts, at + 1, "a directive name"@) {
            Err(e) => Err(e),
            Ok((_, a1)) => match arguments(ts, a1) {
                Err(e) => Err(e),
                Ok(a2) => if advances(ts, at, a2) {
                    directives(ts, a2)
                } else {
                    Err(stalled(ts, at))
                },
            },
        }
    } else {
        Ok(at)
    }
}

/// More names, each after a `sep`: `& I`, `| M`.
pub open spec fn more_names(
    ts: Seq<TokenView>,
    at: int,
    sep: char,
    what: Seq<char>,
    names: Seq<Seq<char>>,
) -> Parsed<Seq<Seq<char>>>
    decreases ts.len() - at,
{
    if is_punct_at(ts, at, sep) {
        match expect_name(ts, at + 1, what) {
            Err(e) => Err(e),
            Ok((n, a)) => more_names(ts, a, sep, what, names.push(n)),
        }
    } else {
        Ok((names, at))
    }
}

/// Names separated by `sep`, a leading `sep` allowed: `= | A | B`.
pub open spec fn separated_names(ts: Seq<TokenView>, at: int, sep: char, what: Seq<char>) -> Parsed<
    Seq<Seq<char>>,
> {
    match expect_name(ts, eat_at(ts, at, sep), what) {
        Err(e) => Err(e),
        Ok((n, a)) => more_names(ts, a, sep, what, seq![n]),
    }
}

/// The rest of a schema definition's roots, `roots` read so far.
pub open spec fn roots_from(ts: Seq<TokenView>, at: int, roots: Seq<(Seq<char>, Seq<char>)>) -> Parsed<
    Seq<(Seq<char>, Seq<char>)>,
>
    decreases ts.len() - at,
{
    if is_punct_at(ts, at, '}') {
        if roots.len() == 0 {
            Err(error_at(ts, at, "an empty body"@))
        } else {
            Ok((roots, at + 1))
        }
    } else {
        match expect_name(ts, at, "an operation kind"@) {
            Err(e) => Err(e),
            Ok((operation, a1)) => if !is_punct_at(ts, a1, ':') {
                Err(error_at(ts, a1, "expected : in a schema definition"@))
            } else {
                match expect_name(ts, a1 + 1, "a root type"@) {
                    Err(e) => Err(e),
                    Ok((root, a2)) => roots_from(ts, a2, roots.push((operation, root))),
                }
            },
        }
    }
}

/// The `{ query: Q mutation: M }` of a schema definition, one root at
/// least.
pub open spec fn roots(ts: Seq<TokenView>, at: int) -> Parsed<Seq<(Seq<char>, Seq<char>)>> {
    if is_punct_at(ts, at, '{') {
        roots_from(ts, at + 1, seq![])
    } else {
        Err(error_at(ts, at, "expected { after schema"@))
    }
}

/// `Name`, `[Type]`, either followed by `!`.
pub open spec fn type_reference(ts: Seq<TokenView>, at: int) -> Reached
    decreases ts.len() - at,
{
    if is_punct_at(ts, at, '[') {
        match type_reference(ts, at + 1) {
            Err(e) => Err(e),
            Ok(a1) => if is_punct_at(ts, a1, ']') {
                Ok(eat_at(ts, a1 + 1, '!'))
            } else {
                Err(error_at(ts, a1, "expected ]"@))
            },
        }
    } else {
        match expect_name(ts, at, "a type"@) {
            Err(e) => Err(e),
            Ok((_, a1)) => Ok(eat_at(ts, a1, '!')),
        }
    }
}

/// One value: a scalar token, a list, or an object.
pub open spec fn value(ts: Seq<TokenView>, at: int) -> Reached {
    match kind_at(ts, at) {
        Some(KindView::Punct(c)) => if c == '[' {
            balanced(ts, at, '[', ']')
        } else if c == '{' {
            balanced(ts, at, '{', '}')
        } else if c == '$' {
            match expect_name(ts, at + 1, "a variable"@) {
                Err(e) => Err(e),
                Ok((_, a)) => Ok(a),
            }
        } else {
            Err(error_at(ts, at, "expected a value"@))
        },
        Some(KindView::Spread) => Err(error_at(ts, at, "expected a value"@)),
        Some(_) => Ok(at + 1),
        None => Err(error_at(ts, at, "expected a value"@)),
    }
}

/// What follows a field's name and arguments: `: Type [= value]`, which a
/// `typed` body asks of every field.
pub open spec fn field_type(ts: Seq<TokenView>, at: int, typed: bool) -> Reached {
    if is_punct_at(ts, at, ':') {
        match type_reference(ts, at + 1) {
            Err(e) => Err(e),
            Ok(a) => if is_punct_at(ts, a, '=') {
                value(ts, a + 1)
            } else {
                Ok(a)
            },
        }
    } else if typed {
        Err(error_at(ts, at, "expected : after a field name"@))
    } else {
        Ok(at)
    }
}

/// The rest of a body of field or value definitions, `names` read so far.
pub open spec fn fields_from(ts: Seq<TokenView>, at: int, typed: bool, names: Seq<Seq<char>>) -> Parsed<
    Seq<Seq<char>>,
>
    decreases ts.len() - at,
{
    let a0 = if kind_at(ts, at) matches Some(KindView::Str(_)) { at + 1 } else { at };
    if is_punct_at(ts, a0, '}') {
        if names.len() == 0 {
            Err(error_at(ts, a0, "an empty body"@))
        } else {
            Ok((names, a0 + 1))
        }
    } else {
        match expect_name(ts, a0, "a field name"@) {
            Err(e) => Err(e),
            Ok((name, a1)) => match arguments(ts, a1) {
                Err(e) => Err(e),
                Ok(a2) => match field_type(ts, a2, typed) {
                    Err(e) => Err(e),
                    Ok(a3) => match directives(ts, a3) {
                        Err(e) => Err(e),
                        Ok(a4) => if advances(ts, at, a4) {
                            fields_from(ts, a4, typed, names.push(name))
                        } else {
                            Err(stalled(ts, at))
                        },
                    },
                },
            },
        }
    }
}

/// A `{ ... }` body of field or value definitions: the names defined at
/// its top level, arguments and types skipped. A `typed` body — a type,
/// interface or input — gives every field a type; an enum body does not.
/// A body is not empty.
pub open spec fn fields(ts: Seq<TokenView>, at: int, typed: bool) -> Parsed<Seq<Seq<char>>> {
    if is_punct_at(ts, at, '{') {
        fields_from(ts, at + 1, typed, seq![])
    } else {
        Err(error_at(ts, at, "expected {"@))
    }
}

/// A body where one stands at `at`, or no fields.
pub open spec fn optional_fields(ts: Seq<TokenView>, at: int, typed: bool) -> Parsed<Seq<Seq<char>>> {
    if is_punct_at(ts, at, '{') {
        fields(ts, at, typed)
    } else {
        Ok((seq![], at))
    }
}

/// `implements A & B` where it stands at `at`.
pub open spec fn implements(ts: Seq<TokenView>, at: int) -> Reached {
    if name_at(ts, at) == Some("implements"@) {
        match separated_names(ts, at + 1, '&', "an interface"@) {
            Err(e) => Err(e),
            Ok((_, a)) => Ok(a),
        }
    } else {
        Ok(at)
    }
}

/// How a text is written in an error message.
pub uninterp spec fn str_debug(s: Seq<char>) -> Seq<char>;

/// A type, interface or input definition after its keyword.
pub open spec fn object_type(ts: Seq<TokenView>, at: int, keyword: Seq<char>) -> Parsed<DefinitionView> {
    match expect_name(ts, at, "a type name"@) {
        Err(e) => Err(e),
        Ok((name, a1)) => match implements(ts, a1) {
            Err(e) => Err(e),
            Ok(a2) => match directives(ts, a2) {
                Err(e) => Err(e),
                Ok(a3) => match optional_fields(ts, a3, true) {
                    Err(e) => Err(e),
                    Ok((fields, a4)) => Ok((DefinitionView::Type { keyword, name, fields }, a4)),
                },
            },
        },
    }
}

/// An enum definition after its keyword.
pub open spec fn enum_type(ts: Seq<TokenView>, at: int, keyword: Seq<char>) -> Parsed<DefinitionView> {
    match expect_name(ts, at, "an enum name"@) {
        Err(e) => Err(e),
        Ok((name, a1)) => match directives(ts, a1) {
            Err(e) => Err(e),
            Ok(a2) => match optional_fields(ts, a2, false) {
                Err(e) => Err(e),
                Ok((fields, a3)) => Ok((DefinitionView::Type { keyword, name, fields }, a3)),
            },
        },
    }
}

/// A union definition after its keyword: its member types as its fields.
pub open spec fn union_type(ts: Seq<TokenView>, at: int, keyword: Seq<char>) -> Parsed<DefinitionView> {
    match expect_name(ts, at, "a union name"@) {
        Err(e) => Err(e),
        Ok((name, a1)) => match directives(ts, a1) {
            Err(e) => Err(e),
            Ok(a2) => {
                let members = if is_punct_at(ts, a2, '=') {
                    separated_names(ts, a2 + 1, '|', "a member type"@)
                } else {
                    Ok((seq![], a2))
                };
                match members {
                    Err(e) => Err(e),
                    Ok((fields, a3)) => Ok((DefinitionView::Type { keyword, name, fields }, a3)),
                }
            },
        },
    }
}

/// A directive definition after its keyword.
pub open spec fn directive_definition(ts: Seq<TokenView>, at: int) -> Parsed<DefinitionView> {
    if !is_punct_at(ts, at, '@') {
        Err(error_at(ts, at, "expected @ after directive"@))
    } else {
        match expect_name(ts, at + 1, "a directive name"@) {
            Err(e) => Err(e),
            Ok((name, a1)) => match arguments(ts, a1) {
                Err(e) => Err(e),
                Ok(a2) => {
                    let a3 = if name_at(ts, a2) == Some("repeatable"@) { a2 + 1 } else { a2 };
                    match expect_name(ts, a3, "on"@) {
                        Err(e) => Err(e),
                        Ok((word, a4)) => if word != "on"@ {
                            Err(error_at(ts, a4, "expected on"@))
                        } else {
                            match separated_names(ts, a4, '|', "a location"@) {
                                Err(e) => Err(e),
                                Ok((_, a5)) => Ok((DefinitionView::Directive { name }, a5)),
                            }
                        },
                    }
                },
            },
        }
    }
}

/// A keyword that begins a type system definition.
pub open spec fn is_type_system_keyword(k: Seq<char>) -> bool {
    k == "schema"@ || k == "scalar"@ || k == "type"@ || k == "interface"@ || k == "input"@ || k
        == "enum"@ || k == "union"@ || k == "directive"@
}

/// A type system definition after its keyword.
pub open spec fn type_system(ts: Seq<TokenView>, at: int, keyword: Seq<char>) -> Parsed<DefinitionView> {
    if keyword == "schema"@ {
        match directives(ts, at) {
            Err(e) => Err(e),
            Ok(a1) => match roots(ts, a1) {
                Err(e) => Err(e),
                Ok((rs, a2)) => Ok((DefinitionView::Schema { roots: rs }, a2)),
            },
        }
    } else if keyword == "scalar"@ {
        match expect_name(ts, at, "a scalar name"@) {
            Err(e) => Err(e),
            Ok((name, a1)) => match directives(ts, a1) {
                Err(e) => Err(e),
                Ok(a2) => Ok((DefinitionView::Type { keyword, name, fields: seq![] }, a2)),
            },
        }
    } else if keyword == "type"@ || keyword == "interface"@ || keyword == "input"@ {
        object_type(ts, at, keyword)
    } else if keyword == "enum"@ {
        enum_type(ts, at, keyword)
    } else if keyword == "union"@ {
        union_type(ts, at, keyword)
    } else if keyword == "directive"@ {
        directive_definition(ts, at)
    } else {
        Err(error_at(ts, at, str_debug(keyword) + " does not begin a definition"@))
    }
}


// ------------------------------------------------------------------ laws

/// Whether `k` is a token that is a value by itself: a name (`true`,
/// `null`, an enum value), an integer, a float or a string.
pub open spec fn is_scalar_token(k: KindView) -> bool {
    k is Name || k is Int || k is Float || k is Str
}

/// Every scalar token is one value, which ends right after it.
pub proof fn law_a_scalar_token_is_one_value(ts: Seq<TokenView>, at: int)
    ensures
        kind_at(ts, at) matches Some(k) && is_scalar_token(k) ==> value(ts, at) == Ok::<
            int,
            Seq<char>,
        >(at + 1),
{
}

/// A default may be any scalar token: `: Type = v` with `v` a name, an
/// integer, a float or a string ends right after `v`.
pub proof fn law_a_default_may_be_any_scalar(ts: Seq<TokenView>, at: int, typed: bool)
    requires
        is_punct_at(ts, at, ':'),
    ensures
        type_reference(ts, at + 1) matches Ok(a) ==> (is_punct_at(ts, a, '=') ==> (kind_at(
            ts,
            a + 1,
        ) matches Some(k) && is_scalar_token(k) ==> field_type(ts, at, typed) == Ok::<
            int,
            Seq<char>,
        >(a + 2))),
{
}

/// A directive definition's arguments are optional: `directive @n on L`
/// and `directive @n(...) on L` both define the directive `n`, ending
/// where its locations end.
pub proof fn law_a_directive_needs_no_arguments(ts: Seq<TokenView>, at: int, n: Seq<char>)
    requires
        is_punct_at(ts, at, '@'),
        name_at(ts, at + 1) == Some(n),
    ensures
        !is_punct_at(ts, at + 2, '(') && name_at(ts, at + 2) == Some("on"@) ==> (separated_names(
            ts,
            at + 3,
            '|',
            "a location"@,
        ) matches Ok((_, e)) ==> type_system(ts, at, "directive"@) == Ok::<
            (DefinitionView, int),
            Seq<char>,
        >((DefinitionView::Directive { name: n }, e))),
        is_punct_at(ts, at + 2, '(') ==> (balanced(ts, at + 2, '(', ')') matches Ok(b) ==> (name_at(
            ts,
            b,
        ) == Some("on"@) ==> (separated_names(ts, b + 1, '|', "a location"@) matches Ok((_, e))
            ==> type_system(ts, at, "directive"@) == Ok::<(DefinitionView, int), Seq<char>>(
            (DefinitionView::Directive { name: n }, e),
        )))),
        !is_punct_at(ts, at + 2, '(') && name_at(ts, at + 2) == Some("repeatable"@) && name_at(
            ts,
            at + 3,
        ) == Some("on"@) ==> (separated_names(ts, at + 4, '|', "a location"@) matches Ok((_, e))
            ==> type_system(ts, at, "directive"@) == Ok::<(DefinitionView, int), Seq<char>>(
            (DefinitionView::Directive { name: n }, e),
        )),
{
    reveal_strlit("on");
    reveal_strlit("repeatable");
    reveal_strlit("schema");
    reveal_strlit("scalar");
    reveal_strlit("type");
    reveal_strlit("interface");
    reveal_strlit("input");
    reveal_strlit("enum");
    reveal_strlit("union");
    reveal_strlit("directive");
    assert("directive"@.len() != "schema"@.len());
    assert("directive"@.len() != "scalar"@.len());
    assert("directive"@.len() != "type"@.len());
    assert("directive"@[0] != "interface"@[0]);
    assert("directive"@.len() != "input"@.len());
    assert("directive"@.len() != "enum"@.len());
    assert("directive"@.len() != "union"@.len());
    assert("on"@.len() != "repeatable"@.len());
}

// ------------------------------------------------------------------ errors

pub proof fn lemma_arguments_errors(ts: Seq<TokenView>, at: int)
    ensures
        arguments(ts, at) matches Err(e) ==> is_error_at(ts, e),
        balanced(ts, at, '(', ')') matches Err(e) ==> is_error_at(ts, e),
        balanced(ts, at, '[', ']') matches Err(e) ==> is_error_at(ts, e),
        balanced(ts, at, '{', '}') matches Err(e) ==> is_error_at(ts, e),
{
    crate::document::lemma_balanced_errors(ts, at, '(', ')');
    crate::document::lemma_balanced_errors(ts, at, '[', ']');
    crate::document::lemma_balanced_errors(ts, at, '{', '}');
}

pub proof fn lemma_directives_errors(ts: Seq<TokenView>, at: int)
    ensures
        directives(ts, at) matches Err(e) ==> is_error_at(ts, e),
    decreases ts.len() - at,
{
    if is_punct_at(ts, at, '@') {
        if let Ok((_, a1)) = expect_name(ts, at + 1, "a directive name"@) {
            lemma_arguments_errors(ts, a1);
            if let Ok(a2) = arguments(ts, a1) {
                if advances(ts, at, a2) {
                    lemma_directives_errors(ts, a2);
                }
            }
        }
    }
}

proof fn lemma_more_names_errors(
    ts: Seq<TokenView>,
    at: int,
    sep: char,
    what: Seq<char>,
    names: Seq<Seq<char>>,
)
    ensures
        more_names(ts, at, sep, what, names) matches Err(e) ==> is_error_at(ts, e),
    decreases ts.len() - at,
{
    if is_punct_at(ts, at, sep) {
        if let Ok((n, a)) = expect_name(ts, at + 1, what) {
            lemma_more_names_errors(ts, a, sep, what, names.push(n));
        }
    }
}

proof fn lemma_separated_names_errors(ts: Seq<TokenView>, at: int, sep: char, what: Seq<char>)
    ensures
        separated_names(ts, at, sep, what) matches Err(e) ==> is_error_at(ts, e),
{
    if let Ok((n, a)) = expect_name(ts, eat_at(ts, at, sep), what) {
        lemma_more_names_errors(ts, a, sep, what, seq![n]);
    }
}

proof fn lemma_roots_errors(ts: Seq<TokenView>, at: int, rs: Seq<(Seq<char>, Seq<char>)>)
    ensures
        roots_from(ts, at, rs) matches Err(e) ==> is_error_at(ts, e),
        roots(ts, at) matches Err(e) ==> is_error_at(ts, e),
    decreases ts.len() - at,
{
    if !is_punct_at(ts, at, '}') {
        if let Ok((operation, a1)) = expect_name(ts, at, "an operation kind"@) {
            if is_punct_at(ts, a1, ':') {
                if let Ok((root, a2)) = expect_name(ts, a1 + 1, "a root type"@) {
                    lemma_roots_errors(ts, a2, rs.push((operation, root)));
                }
            }
        }
    }
    if is_punct_at(ts, at, '{') {
        lemma_roots_errors(ts, at + 1, seq![]);
    }
}

proof fn lemma_type_reference_errors(ts: Seq<TokenView>, at: int)
    ensures
        type_reference(ts, at) matches Err(e) ==> is_error_at(ts, e),
    decreases ts.len() - at,
{
    if is_punct_at(ts, at, '[') {
        lemma_type_reference_errors(ts, at + 1);
    }
}

proof fn lemma_fields_errors(ts: Seq<TokenView>, at: int, typed: bool, names: Seq<Seq<char>>)
    ensures
        fields_from(ts, at, typed, names) matches Err(e) ==> is_error_at(ts, e),
        fields(ts, at, typed) matches Err(e) ==> is_error_at(ts, e),
        optional_fields(ts, at, typed) matches Err(e) ==> is_error_at(ts, e),
    decreases ts.len() - at,
{
    let a0 = if kind_at(ts, at) matches Some(KindView::Str(_)) { at + 1 } else { at };
    if !is_punct_at(ts, a0, '}') {
        if let Ok((name, a1)) = expect_name(ts, a0, "a field name"@) {
            lemma_arguments_errors(ts, a1);
            if let Ok(a2) = arguments(ts, a1) {
                lemma_arguments_errors(ts, a2 + 1);
                if is_punct_at(ts, a2, ':') {
                    lemma_type_reference_errors(ts, a2 + 1);
                    if let Ok(a) = type_reference(ts, a2 + 1) {
                        lemma_arguments_errors(ts, a + 1);
                    }
                }
                if let Ok(a3) = field_type(ts, a2, typed) {
                    lemma_directives_errors(ts, a3);
                    if let Ok(a4) = directives(ts, a3) {
                        if advances(ts, at, a4) {
                            lemma_fields_errors(ts, a4, typed, names.push(name));
                        }
                    }
                }
            }
        }
    }
    if is_punct_at(ts, at, '{') {
        lemma_fields_errors(ts, at + 1, typed, seq![]);
    }
}

/// What a type system definition refuses, it refuses with its line.
pub proof fn lemma_type_system_errors(ts: Seq<TokenView>, at: int, keyword: Seq<char>)
    ensures
        type_system(ts, at, keyword) matches Err(e) ==> is_error_at(ts, e),
        type_system(ts, at, keyword) matches Ok((d, _)) ==> !(d is Operation),
{
    lemma_directives_errors(ts, at);
    if let Ok(a1) = directives(ts, at) {
        lemma_roots_errors(ts, a1, seq![]);
    }
    if let Ok((_, a1)) = expect_name(ts, at, "a scalar name"@) {
        lemma_directives_errors(ts, a1);
    }
    if let Ok((_, a1)) = expect_name(ts, at, "a type name"@) {
        if name_at(ts, a1) == Some("implements"@) {
            lemma_separated_names_errors(ts, a1 + 1, '&', "an interface"@);
        }
        if let Ok(a2) = implements(ts, a1) {
            lemma_directives_errors(ts, a2);
            if let Ok(a3) = directives(ts, a2) {
                lemma_fields_errors(ts, a3, true, seq![]);
            }
        }
    }
    if let Ok((_, a1)) = expect_name(ts, at, "an enum name"@) {
        lemma_directives_errors(ts, a1);
        if let Ok(a2) = directives(ts, a1) {
            lemma_fields_errors(ts, a2, false, seq![]);
        }
    }
    if let Ok((_, a1)) = expect_name(ts, at, "a union name"@) {
        lemma_directives_errors(ts, a1);
        if let Ok(a2) = directives(ts, a1) {
            lemma_separated_names_errors(ts, a2 + 1, '|', "a member type"@);
        }
    }
    if let Ok((_, a1)) = expect_name(ts, at + 1, "a directive name"@) {
        lemma_arguments_errors(ts, a1);
        if let Ok(a2) = arguments(ts, a1) {
            let a3 = if name_at(ts, a2) == Some("repeatable"@) { a2 + 1 } else { a2 };
            if let Ok((_, a4)) = expect_name(ts, a3, "on"@) {
                lemma_separated_names_errors(ts, a4, '|', "a location"@);
            }
        }
    }
}

/// How `s` is written in an error message: its `Debug` form.
#[verifier::external_body]
fn str_debug_text(s: &str) -> (r: String)
    ensures
        r@ == str_debug(s@),
{
    format!("{s:?}")
}


impl Parser {
    /// `@name[(args)]`, any number of them.
    pub(crate) fn directives(&mut self) -> (r: Result<(), String>)
        requires
            old(self).wf(),
        ensures
            final(self).keeps(*old(self)),
            reaches(r, final(self).at, directives(old(self).toks(), old(self).at as int)),
    {
        let ghost ts = self.toks();
        loop
            invariant
                self.tokens@ == old(self).tokens@,
                self.toks() == ts,
                ts == old(self).toks(),
                self.wf(),
                old(self).at <= self.at,
                directives(ts, old(self).at as int) == directives(ts, self.at as int),
            decreases self.tokens@.len() - self.at,
        {
            if !self.eat('@') {
                return Ok(());
            }
            match self.expect_name("a directive name") {
                Ok(_) => {},
                Err(e) => return Err(e),
            }
            match self.arguments() {
                Ok(()) => {},
                Err(e) => return Err(e),
            }
        }
    }

    /// More names, each after a `sep`.
    pub(crate) fn more_names(&mut self, sep: char, what: &str, so_far: Vec<String>) -> (r: Result<
        Vec<String>,
        String,
    >)
        requires
            old(self).wf(),
        ensures
            final(self).keeps(*old(self)),
            agrees(
                r,
                final(self).at,
                more_names(old(self).toks(), old(self).at as int, sep, what@, so_far.deep_view()),
            ),
    {
        let ghost ts = self.toks();
        let ghost given = so_far.deep_view();
        let mut names = so_far;
        loop
            invariant
                self.tokens@ == old(self).tokens@,
                self.toks() == ts,
                ts == old(self).toks(),
                self.wf(),
                old(self).at <= self.at,
                given == so_far.deep_view(),
                more_names(ts, old(self).at as int, sep, what@, given)
                    == more_names(ts, self.at as int, sep, what@, names.deep_view()),
            decreases self.tokens@.len() - self.at,
        {
            if !self.eat(sep) {
                return Ok(names);
            }
            match self.expect_name(what) {
                Ok(n) => {
                    let ghost before = names.deep_view();
                    names.push(n);
                    assert(names.deep_view() =~= before.push(n@));
                },
                Err(e) => return Err(e),
            }
        }
    }

    /// Names separated by `sep`, a leading `sep` allowed.
    pub(crate) fn separated_names(&mut self, sep: char, what: &str) -> (r: Result<
        Vec<String>,
        String,
    >)
        requires
            old(self).wf(),
        ensures
            final(self).keeps(*old(self)),
            agrees(r, final(self).at, separated_names(old(self).toks(), old(self).at as int, sep, what@)),
    {
        self.eat(sep);
        match self.expect_name(what) {
            Ok(first) => {
                let ghost fv = first@;
                let names = vec![first];
                assert(names.deep_view() =~= seq![fv]);
                self.more_names(sep, what, names)
            },
            Err(e) => Err(e),
        }
    }

    /// The `{ query: Q mutation: M }` of a schema definition, one root at
    /// least.
    pub(crate) fn roots(&mut self) -> (r: Result<Vec<(String, String)>, String>)
        requires
            old(self).wf(),
        ensures
            final(self).keeps(*old(self)),
            agrees(r, final(self).at, roots(old(self).toks(), old(self).at as int)),
            r is Ok ==> old(self).at < final(self).at,
    {
        let ghost ts = self.toks();
        if !self.eat('{') {
            return Err(self.error("expected { after schema"));
        }
        let mut found: Vec<(String, String)> = Vec::new();
        assert(found.deep_view() =~= seq![]);
        loop
            invariant
                self.tokens@ == old(self).tokens@,
                self.toks() == ts,
                ts == old(self).toks(),
                self.wf(),
                old(self).at <= self.at,
                roots(ts, old(self).at as int) == roots_from(ts, self.at as int, found.deep_view()),
            decreases self.tokens@.len() - self.at,
        {
            if self.peek_is('}') {
                if found.len() == 0 {
                    return Err(self.error("an empty body"));
                }
                self.at += 1;
                return Ok(found);
            }
            let operation = match self.expect_name("an operation kind") {
                Ok(n) => n,
                Err(e) => return Err(e),
            };
            if !self.eat(':') {
                return Err(self.error("expected : in a schema definition"));
            }
            let root = match self.expect_name("a root type") {
                Ok(n) => n,
                Err(e) => return Err(e),
            };
            let ghost before = found.deep_view();
            let ghost pair = (operation@, root@);
            found.push((operation, root));
            assert(found.deep_view() =~= before.push(pair));
        }
    }

    /// `Name`, `[Type]`, either followed by `!`.
    pub(crate) fn type_reference(&mut self) -> (r: Result<(), String>)
        requires
            old(self).wf(),
        ensures
            final(self).keeps(*old(self)),
            reaches(r, final(self).at, type_reference(old(self).toks(), old(self).at as int)),
        decreases old(self).tokens@.len() - old(self).at,
    {
        if self.eat('[') {
            match self.type_reference() {
                Ok(()) => {},
                Err(e) => return Err(e),
            }
            if !self.eat(']') {
                return Err(self.error("expected ]"));
            }
        } else {
            match self.expect_name("a type") {
                Ok(_) => {},
                Err(e) => return Err(e),
            }
        }
        self.eat('!');
        Ok(())
    }

    /// Whether a scalar value — a name, a number or a string — stands at the
    /// position.
    fn peek_is_scalar(&self) -> (r: bool)
        ensures
            r == (kind_at(self.toks(), self.at as int) matches Some(k) && !(k is Punct)
                && !(k is Spread)),
    {
        match self.peek() {
            Some(Kind::Name(_)) | Some(Kind::Int(_)) | Some(Kind::Float(_)) | Some(Kind::Str(_)) => true,
            _ => false,
        }
    }

    /// One value: a scalar token, a list, or an object.
    pub(crate) fn value(&mut self) -> (r: Result<(), String>)
        requires
            old(self).wf(),
        ensures
            final(self).keeps(*old(self)),
            reaches(r, final(self).at, value(old(self).toks(), old(self).at as int)),
    {
        if self.peek_is('[') {
            self.balanced('[', ']')
        } else if self.peek_is('{') {
            self.balanced('{', '}')
        } else if self.peek_is('$') {
            self.at += 1;
            match self.expect_name("a variable") {
                Ok(_) => Ok(()),
                Err(e) => Err(e),
            }
        } else if self.peek_is_scalar() {
            self.at += 1;
            Ok(())
        } else {
            Err(self.error("expected a value"))
        }
    }

    /// A `{ ... }` body of field or value definitions: the names defined at
    /// its top level, arguments and types skipped. A `typed` body — a type,
    /// interface or input — gives every field a type; an enum body does not.
/// A body is not empty.
    pub(crate) fn fields(&mut self, typed: bool) -> (r: Result<Vec<String>, String>)
        requires
            old(self).wf(),
        ensures
            final(self).keeps(*old(self)),
            agrees(r, final(self).at, fields(old(self).toks(), old(self).at as int, typed)),
            !is_punct_at(old(self).toks(), old(self).at as int, '{') ==> final(self).at == old(self).at,
    {
        let ghost ts = self.toks();
        if !self.eat('{') {
            return Err(self.error("expected {"));
        }
        let mut names: Vec<String> = Vec::new();
        assert(names.deep_view() =~= seq![]);
        loop
            invariant
                self.tokens@ == old(self).tokens@,
                self.toks() == ts,
                ts == old(self).toks(),
                self.wf(),
                old(self).at <= self.at,
                is_punct_at(ts, old(self).at as int, '{'),
                fields(ts, old(self).at as int, typed) == fields_from(
                    ts,
                    self.at as int,
                    typed,
                    names.deep_view(),
                ),
            decreases self.tokens@.len() - self.at,
        {
            let ghost here = self.at;
            if self.peek_is_str() {
                self.at += 1;
            }
            if self.peek_is('}') {
                if names.len() == 0 {
                    return Err(self.error("an empty body"));
                }
                self.at += 1;
                return Ok(names);
            }
            let name = match self.expect_name("a field name") {
                Ok(n) => n,
                Err(e) => return Err(e),
            };
            let ghost before = names.deep_view();
            let ghost nv = name@;
            names.push(name);
            assert(names.deep_view() =~= before.push(nv));
            match self.arguments() {
                Ok(()) => {},
                Err(e) => return Err(e),
            }
            if self.eat(':') {
                match self.type_reference() {
                    Ok(()) => {},
                    Err(e) => return Err(e),
                }
                if self.eat('=') {
                    match self.value() {
                        Ok(()) => {},
                        Err(e) => return Err(e),
                    }
                }
            } else if typed {
                return Err(self.error("expected : after a field name"));
            }
            match self.directives() {
                Ok(()) => {},
                Err(e) => return Err(e),
            }
            assert(advances(ts, here as int, self.at as int));
        }
    }

    /// A body where one stands at the position, or no fields.
    fn optional_fields(&mut self, typed: bool) -> (r: Result<Vec<String>, String>)
        requires
            old(self).wf(),
        ensures
            final(self).keeps(*old(self)),
            agrees(r, final(self).at, optional_fields(old(self).toks(), old(self).at as int, typed)),
    {
        if self.peek_is('{') {
            self.fields(typed)
        } else {
            let none: Vec<String> = Vec::new();
            assert(none.deep_view() =~= seq![]);
            Ok(none)
        }
    }

    pub(crate) fn type_system(&mut self, keyword: String) -> (r: Result<Definition, String>)
        requires
            old(self).wf(),
        ensures
            final(self).keeps(*old(self)),
            agrees(r, final(self).at, type_system(old(self).toks(), old(self).at as int, keyword@)),
            r is Ok ==> old(self).at < final(self).at,
            !is_type_system_keyword(keyword@) ==> final(self).at == old(self).at,
    {
        if same_text(keyword.as_str(), "schema") {
            match self.directives() {
                Ok(()) => {},
                Err(e) => return Err(e),
            }
            match self.roots() {
                Ok(roots) => Ok(Definition::Schema { roots }),
                Err(e) => Err(e),
            }
        } else if same_text(keyword.as_str(), "scalar") {
            let name = match self.expect_name("a scalar name") {
                Ok(n) => n,
                Err(e) => return Err(e),
            };
            match self.directives() {
                Ok(()) => {},
                Err(e) => return Err(e),
            }
            let fields: Vec<String> = Vec::new();
            assert(fields.deep_view() =~= seq![]);
            Ok(Definition::Type { keyword, name, fields })
        } else if same_text(keyword.as_str(), "type") || same_text(keyword.as_str(), "interface")
            || same_text(keyword.as_str(), "input") {
            let name = match self.expect_name("a type name") {
                Ok(n) => n,
                Err(e) => return Err(e),
            };
            if self.peek_name_is("implements") {
                self.at += 1;
                match self.separated_names('&', "an interface") {
                    Ok(_) => {},
                    Err(e) => return Err(e),
                }
            }
            match self.directives() {
                Ok(()) => {},
                Err(e) => return Err(e),
            }
            match self.optional_fields(true) {
                Ok(fields) => Ok(Definition::Type { keyword, name, fields }),
                Err(e) => Err(e),
            }
        } else if same_text(keyword.as_str(), "enum") {
            let name = match self.expect_name("an enum name") {
                Ok(n) => n,
                Err(e) => return Err(e),
            };
            match self.directives() {
                Ok(()) => {},
                Err(e) => return Err(e),
            }
            match self.optional_fields(false) {
                Ok(fields) => Ok(Definition::Type { keyword, name, fields }),
                Err(e) => Err(e),
            }
        } else if same_text(keyword.as_str(), "union") {
            let name = match self.expect_name("a union name") {
                Ok(n) => n,
                Err(e) => return Err(e),
            };
            match self.directives() {
                Ok(()) => {},
                Err(e) => return Err(e),
            }
            let fields = if self.eat('=') {
                match self.separated_names('|', "a member type") {
                    Ok(members) => members,
                    Err(e) => return Err(e),
                }
            } else {
                let none: Vec<String> = Vec::new();
                assert(none.deep_view() =~= seq![]);
                none
            };
            Ok(Definition::Type { keyword, name, fields })
        } else if same_text(keyword.as_str(), "directive") {
            if !self.eat('@') {
                return Err(self.error("expected @ after directive"));
            }
            let name = match self.expect_name("a directive name") {
                Ok(n) => n,
                Err(e) => return Err(e),
            };
            match self.arguments() {
                Ok(()) => {},
                Err(e) => return Err(e),
            }
            if self.peek_name_is("repeatable") {
                self.at += 1;
            }
            let word = match self.expect_name("on") {
                Ok(n) => n,
                Err(e) => return Err(e),
            };
            if !same_text(word.as_str(), "on") {
                return Err(self.error("expected on"));
            }
            match self.separated_names('|', "a location") {
                Ok(_) => Ok(Definition::Directive { name }),
                Err(e) => Err(e),
            }
        } else {
            let shown = str_debug_text(keyword.as_str());
            Err(self.error(joined(shown.as_str(), " does not begin a definition").as_str()))
        }
    }
}

} // verus!
