//! The GraphQL lexer, specification section 2: punctuators, names, numbers,
//! strings and block strings; commas, comments and white space are
//! insignificant and dropped.
//!
//! GraphQL's white space is tab and space only, and a name is ASCII: any
//! other character outside a string or a comment, U+00A0 among them, is
//! refused with its line.

use vstd::prelude::*;
use crate::text::{chars_of, is_line_error, line_error, line_error_text, joined, string_of};

verus! {

/// One lexical token, with the line it starts on.
#[derive(Clone, Debug, PartialEq, Eq)]
pub struct Token {
    pub kind: Kind,
    pub line: usize,
}

#[derive(Clone, Debug, PartialEq, Eq)]
pub enum Kind {
    /// `!`, `$`, `&`, `(`, `)`, `:`, `=`, `@`, `[`, `]`, `{`, `|`, `}`.
    Punct(char),
    /// `...`
    Spread,
    Name(String),
    Int(String),
    Float(String),
    /// A string or block string, its raw content.
    Str(String),
}

/// What a [`Kind`] holds, its texts as character sequences.
pub enum KindView {
    Punct(char),
    Spread,
    Name(Seq<char>),
    Int(Seq<char>),
    Float(Seq<char>),
    Str(Seq<char>),
}

/// What a [`Token`] holds.
pub struct TokenView {
    pub kind: KindView,
    pub line: nat,
}

impl View for Kind {
    type V = KindView;

    open spec fn view(&self) -> KindView {
        match self {
            Kind::Punct(c) => KindView::Punct(*c),
            Kind::Spread => KindView::Spread,
            Kind::Name(s) => KindView::Name(s@),
            Kind::Int(s) => KindView::Int(s@),
            Kind::Float(s) => KindView::Float(s@),
            Kind::Str(s) => KindView::Str(s@),
        }
    }
}

impl View for Token {
    type V = TokenView;

    open spec fn view(&self) -> TokenView {
        TokenView { kind: self.kind@, line: self.line as nat }
    }
}

/// The view of every token of `ts`.
pub open spec fn tokens_view(ts: Seq<Token>) -> Seq<TokenView> {
    ts.map_values(|t: Token| t@)
}

impl Kind {
    /// The name where this is one.
    pub fn name(&self) -> (r: Option<&str>)
        ensures
            match self@ {
                KindView::Name(n) => r matches Some(s) && s@ == n,
                _ => r is None,
            },
    {
        match self {
            Kind::Name(name) => Some(name.as_str()),
            _ => None,
        }
    }

    /// Whether this is the punctuator `c`.
    pub fn is(&self, c: char) -> (r: bool)
        ensures
            r == (self@ == KindView::Punct(c)),
    {
        match self {
            Kind::Punct(p) => *p == c,
            _ => false,
        }
    }

    /// A copy of this kind, text for text.
    pub fn duplicate(&self) -> (r: Kind)
        ensures
            r@ == self@,
    {
        match self {
            Kind::Punct(c) => Kind::Punct(*c),
            Kind::Spread => Kind::Spread,
            Kind::Name(s) => Kind::Name(s.clone()),
            Kind::Int(s) => Kind::Int(s.clone()),
            Kind::Float(s) => Kind::Float(s.clone()),
            Kind::Str(s) => Kind::Str(s.clone()),
        }
    }
}

// ---------------------------------------------------------------- characters

pub open spec fn is_ascii_alpha(c: char) -> bool {
    ('a' <= c && c <= 'z') || ('A' <= c && c <= 'Z')
}

pub open spec fn is_ascii_digit(c: char) -> bool {
    '0' <= c && c <= '9'
}

/// A character a name may begin with.
pub open spec fn is_name_start(c: char) -> bool {
    c == '_' || is_ascii_alpha(c)
}

/// A character a name may hold.
pub open spec fn is_name_char(c: char) -> bool {
    is_name_start(c) || is_ascii_digit(c)
}

/// White space, line terminators, commas and the byte order mark.
pub open spec fn is_insignificant(c: char) -> bool {
    c == '\n' || c == ' ' || c == '\t' || c == '\r' || c == ',' || c == '\u{feff}'
}

pub open spec fn is_punctuator(c: char) -> bool {
    c == '!' || c == '$' || c == '&' || c == '(' || c == ')' || c == ':' || c == '=' || c == '@'
        || c == '[' || c == ']' || c == '{' || c == '|' || c == '}'
}

fn ascii_alpha(c: char) -> (r: bool)
    ensures
        r == is_ascii_alpha(c),
{
    ('a' <= c && c <= 'z') || ('A' <= c && c <= 'Z')
}

fn ascii_digit(c: char) -> (r: bool)
    ensures
        r == is_ascii_digit(c),
{
    '0' <= c && c <= '9'
}

fn name_char(c: char) -> (r: bool)
    ensures
        r == is_name_char(c),
{
    c == '_' || ascii_alpha(c) || ascii_digit(c)
}

// ----------------------------------------------------------------- positions

/// How many line feeds stand before `pos`.
pub open spec fn newlines_before(cs: Seq<char>, pos: int) -> nat
    decreases pos,
{
    if pos <= 0 {
        0
    } else {
        newlines_before(cs, pos - 1) + if pos - 1 < cs.len() && cs[pos - 1] == '\n' {
            1nat
        } else {
            0nat
        }
    }
}

/// The line, counted from 1, that position `pos` stands on.
pub open spec fn line_at(cs: Seq<char>, pos: int) -> nat {
    newlines_before(cs, pos) + 1
}

/// The end of the run of name characters from `pos`.
pub open spec fn name_end(cs: Seq<char>, pos: int) -> int
    decreases cs.len() - pos,
{
    if 0 <= pos < cs.len() && is_name_char(cs[pos]) {
        name_end(cs, pos + 1)
    } else {
        pos
    }
}

/// The end of the run of ASCII digits from `pos`.
pub open spec fn digits_end(cs: Seq<char>, pos: int) -> int
    decreases cs.len() - pos,
{
    if 0 <= pos < cs.len() && is_ascii_digit(cs[pos]) {
        digits_end(cs, pos + 1)
    } else {
        pos
    }
}

/// The end of a comment that runs from `pos`: the next line feed, or the end.
pub open spec fn comment_end(cs: Seq<char>, pos: int) -> int
    decreases cs.len() - pos,
{
    if 0 <= pos < cs.len() && cs[pos] != '\n' {
        comment_end(cs, pos + 1)
    } else {
        pos
    }
}

pub open spec fn triple_quote_at(cs: Seq<char>, p: int) -> bool {
    0 <= p && p + 3 <= cs.len() && cs[p] == '"' && cs[p + 1] == '"' && cs[p + 2] == '"'
}

pub open spec fn escaped_triple_quote_at(cs: Seq<char>, p: int) -> bool {
    0 <= p && p + 4 <= cs.len() && cs[p] == '\\' && cs[p + 1] == '"' && cs[p + 2] == '"'
        && cs[p + 3] == '"'
}

pub open spec fn spread_at(cs: Seq<char>, p: int) -> bool {
    0 <= p && p + 3 <= cs.len() && cs[p] == '.' && cs[p + 1] == '.' && cs[p + 2] == '.'
}

/// Where the content of a block string whose content begins at `p` ends:
/// the first `"""` not escaped by a backslash, if there is one.
pub open spec fn block_close(cs: Seq<char>, p: int) -> Option<int>
    decreases cs.len() - p,
{
    if p < 0 || p >= cs.len() {
        None
    } else if escaped_triple_quote_at(cs, p) {
        block_close(cs, p + 4)
    } else if triple_quote_at(cs, p) {
        Some(p)
    } else {
        block_close(cs, p + 1)
    }
}

/// How a quoted string whose content begins at `p` ends.
pub enum Close {
    /// Its closing quote stands at this position.
    At(int),
    /// The text ends first.
    Unclosed,
    /// An unescaped line feed comes first.
    Newline,
}

/// How the quoted string whose content begins at `p` ends; a backslash
/// escapes the character after it, whatever it is, so that only an
/// unescaped line feed runs the string onto the next line.
pub open spec fn quote_close(cs: Seq<char>, p: int) -> Close
    decreases cs.len() - p,
{
    if p < 0 || p >= cs.len() {
        Close::Unclosed
    } else if cs[p] == '\\' {
        if p + 1 < cs.len() {
            quote_close(cs, p + 2)
        } else {
            Close::Unclosed
        }
    } else if cs[p] == '"' {
        Close::At(p)
    } else if cs[p] == '\n' {
        Close::Newline
    } else {
        quote_close(cs, p + 1)
    }
}

// ------------------------------------------------------------------ lexemes

/// What the lexer does at one position.
pub enum Lexeme {
    /// Drop what is insignificant, up to this position.
    Skip(int),
    /// A token of this kind, which ends at this position.
    Found(KindView, int),
    /// The text is refused with this message.
    Refused(Seq<char>),
}

/// The string or block string that begins with the quote at `pos`.
pub open spec fn string_at(cs: Seq<char>, pos: int) -> Lexeme {
    let line = line_at(cs, pos);
    if triple_quote_at(cs, pos) {
        match block_close(cs, pos + 3) {
            Some(e) => Lexeme::Found(KindView::Str(cs.subrange(pos + 3, e)), e + 3),
            None => Lexeme::Refused(line_error(line, "a block string that never closes"@)),
        }
    } else {
        match quote_close(cs, pos + 1) {
            Close::At(e) => Lexeme::Found(KindView::Str(cs.subrange(pos + 1, e)), e + 1),
            Close::Unclosed => Lexeme::Refused(line_error(line, "a string that never closes"@)),
            Close::Newline => Lexeme::Refused(
                line_error(line, "a string that runs onto the next line"@),
            ),
        }
    }
}

/// The end of the exponent part of a number whose digits and fraction end
/// at `p`, or `p` where there is none; `None` where an exponent has no digits.
pub open spec fn exponent_end(cs: Seq<char>, p: int) -> Option<int> {
    if 0 <= p < cs.len() && (cs[p] == 'e' || cs[p] == 'E') {
        let q = if p + 1 < cs.len() && (cs[p + 1] == '+' || cs[p + 1] == '-') {
            p + 2
        } else {
            p + 1
        };
        if digits_end(cs, q) == q {
            None
        } else {
            Some(digits_end(cs, q))
        }
    } else {
        Some(p)
    }
}

/// The number that begins with the minus or digit at `pos`.
pub open spec fn number_at(cs: Seq<char>, pos: int) -> Lexeme {
    let line = line_at(cs, pos);
    let p1 = if cs[pos] == '-' { pos + 1 } else { pos };
    let p2 = digits_end(cs, p1);
    if p2 == p1 {
        Lexeme::Refused(line_error(line, "a minus with no digits"@))
    } else {
        let fraction = p2 < cs.len() && cs[p2] == '.';
        let p3 = if fraction { digits_end(cs, p2 + 1) } else { p2 };
        if fraction && p3 == p2 + 1 {
            Lexeme::Refused(line_error(line, "a decimal point with no digits"@))
        } else {
            match exponent_end(cs, p3) {
                None => Lexeme::Refused(line_error(line, "an exponent with no digits"@)),
                Some(p4) => if p4 < cs.len() && (is_name_start(cs[p4]) || cs[p4] == '.') {
                    Lexeme::Refused(line_error(line, "a number that runs into a name"@))
                } else if fraction || p4 != p3 {
                    Lexeme::Found(KindView::Float(cs.subrange(pos, p4)), p4)
                } else {
                    Lexeme::Found(KindView::Int(cs.subrange(pos, p4)), p4)
                },
            }
        }
    }
}

/// How a character is written in an error message.
pub uninterp spec fn char_debug(c: char) -> Seq<char>;

/// What the lexer does at position `pos`.
pub open spec fn lexeme_at(cs: Seq<char>, pos: int) -> Lexeme {
    let c = cs[pos];
    if is_insignificant(c) {
        Lexeme::Skip(pos + 1)
    } else if c == '#' {
        Lexeme::Skip(comment_end(cs, pos))
    } else if c == '.' {
        if spread_at(cs, pos) {
            Lexeme::Found(KindView::Spread, pos + 3)
        } else {
            Lexeme::Refused(line_error(line_at(cs, pos), "a lone dot"@))
        }
    } else if is_punctuator(c) {
        Lexeme::Found(KindView::Punct(c), pos + 1)
    } else if c == '"' {
        string_at(cs, pos)
    } else if is_name_start(c) {
        Lexeme::Found(KindView::Name(cs.subrange(pos, name_end(cs, pos))), name_end(cs, pos))
    } else if c == '-' || is_ascii_digit(c) {
        number_at(cs, pos)
    } else {
        Lexeme::Refused(line_error(line_at(cs, pos), char_debug(c) + " is not GraphQL"@))
    }
}

/// The tokens of `cs` from `pos` on, or the error that refuses them.
pub open spec fn lex_from(cs: Seq<char>, pos: int) -> Result<Seq<TokenView>, Seq<char>>
    decreases cs.len() - pos,
{
    if pos < 0 || pos >= cs.len() {
        Ok(seq![])
    } else {
        match lexeme_at(cs, pos) {
            Lexeme::Skip(p) => if pos < p <= cs.len() {
                lex_from(cs, p)
            } else {
                Ok(seq![])
            },
            Lexeme::Found(kind, p) => if pos < p <= cs.len() {
                match lex_from(cs, p) {
                    Ok(rest) => Ok(seq![TokenView { kind, line: line_at(cs, pos) }] + rest),
                    Err(e) => Err(e),
                }
            } else {
                Ok(seq![])
            },
            Lexeme::Refused(e) => Err(e),
        }
    }
}

/// The tokens of `text`, or the error that refuses it.
pub open spec fn spec_lex(text: Seq<char>) -> Result<Seq<TokenView>, Seq<char>> {
    lex_from(text, 0)
}

/// What a call of [`lex`] gives back, by views.
pub open spec fn lexed_view(r: Result<Vec<Token>, String>) -> Result<Seq<TokenView>, Seq<char>> {
    match r {
        Ok(ts) => Ok(tokens_view(ts@)),
        Err(e) => Err(e@),
    }
}


// ------------------------------------------------------------------- lemmas

pub proof fn lemma_newlines_bound(cs: Seq<char>, pos: int)
    requires
        0 <= pos,
    ensures
        newlines_before(cs, pos) <= pos,
    decreases pos,
{
    if pos > 0 {
        lemma_newlines_bound(cs, pos - 1);
    }
}

pub proof fn lemma_name_end(cs: Seq<char>, pos: int)
    requires
        0 <= pos <= cs.len(),
    ensures
        pos <= name_end(cs, pos) <= cs.len(),
        forall|i: int| pos <= i < name_end(cs, pos) ==> is_name_char(#[trigger] cs[i]),
    decreases cs.len() - pos,
{
    if pos < cs.len() && is_name_char(cs[pos]) {
        lemma_name_end(cs, pos + 1);
    }
}

pub proof fn lemma_digits_end(cs: Seq<char>, pos: int)
    requires
        0 <= pos <= cs.len(),
    ensures
        pos <= digits_end(cs, pos) <= cs.len(),
        forall|i: int| pos <= i < digits_end(cs, pos) ==> is_ascii_digit(#[trigger] cs[i]),
    decreases cs.len() - pos,
{
    if pos < cs.len() && is_ascii_digit(cs[pos]) {
        lemma_digits_end(cs, pos + 1);
    }
}

pub proof fn lemma_comment_end(cs: Seq<char>, pos: int)
    requires
        0 <= pos <= cs.len(),
    ensures
        pos <= comment_end(cs, pos) <= cs.len(),
    decreases cs.len() - pos,
{
    if pos < cs.len() && cs[pos] != '\n' {
        lemma_comment_end(cs, pos + 1);
    }
}

pub proof fn lemma_block_close(cs: Seq<char>, p: int)
    requires
        0 <= p <= cs.len(),
    ensures
        block_close(cs, p) matches Some(e) ==> p <= e && e + 3 <= cs.len(),
    decreases cs.len() - p,
{
    if p < cs.len() {
        if escaped_triple_quote_at(cs, p) {
            lemma_block_close(cs, p + 4);
        } else if !triple_quote_at(cs, p) {
            lemma_block_close(cs, p + 1);
        }
    }
}

pub proof fn lemma_quote_close(cs: Seq<char>, p: int)
    requires
        0 <= p <= cs.len(),
    ensures
        quote_close(cs, p) matches Close::At(e) ==> p <= e < cs.len(),
    decreases cs.len() - p,
{
    if p < cs.len() {
        if cs[p] == '\\' {
            if p + 1 < cs.len() {
                lemma_quote_close(cs, p + 2);
            }
        } else if cs[p] != '"' && cs[p] != '\n' {
            lemma_quote_close(cs, p + 1);
        }
    }
}

/// Every step of the lexer moves on.
pub proof fn lemma_lexeme_advances(cs: Seq<char>, pos: int)
    requires
        0 <= pos < cs.len(),
    ensures
        lexeme_at(cs, pos) matches Lexeme::Skip(p) ==> pos < p <= cs.len(),
        lexeme_at(cs, pos) matches Lexeme::Found(_, p) ==> pos < p <= cs.len(),
{
    lemma_comment_end(cs, pos + 1);
    lemma_name_end(cs, pos + 1);
    lemma_block_close(cs, pos + 1);
    if pos + 3 <= cs.len() {
        lemma_block_close(cs, pos + 3);
    }
    lemma_quote_close(cs, pos + 1);
    let p1 = if cs[pos] == '-' { pos + 1 } else { pos };
    lemma_digits_end(cs, p1);
    let p2 = digits_end(cs, p1);
    if p2 < cs.len() {
        lemma_digits_end(cs, p2 + 1);
        let p3 = if cs[p2] == '.' { digits_end(cs, p2 + 1) } else { p2 };
        if p3 < cs.len() {
            lemma_digits_end(cs, p3 + 1);
            if p3 + 1 < cs.len() {
                lemma_digits_end(cs, p3 + 2);
            }
        }
    }
}

/// Whether `n` is a GraphQL name: ASCII, a letter or `_` first, letters,
/// digits and `_` after.
pub open spec fn is_name_text(n: Seq<char>) -> bool {
    n.len() > 0 && is_name_start(n[0]) && forall|i: int| 0 <= i < n.len() ==> is_name_char(
        #[trigger] n[i],
    )
}

/// Whether the tokens come in the order of their lines.
pub open spec fn lines_ordered(ts: Seq<TokenView>) -> bool {
    forall|i: int, j: int| 0 <= i < j < ts.len() ==> #[trigger] ts[i].line <= #[trigger] ts[j].line
}

pub proof fn lemma_newlines_monotone(cs: Seq<char>, p: int, q: int)
    requires
        0 <= p <= q,
    ensures
        newlines_before(cs, p) <= newlines_before(cs, q),
    decreases q - p,
{
    if p < q {
        lemma_newlines_monotone(cs, p, q - 1);
    }
}

proof fn lemma_lexeme_refusals(cs: Seq<char>, pos: int)
    requires
        0 <= pos < cs.len(),
    ensures
        lexeme_at(cs, pos) matches Lexeme::Refused(e) ==> is_line_error(e),
        lexeme_at(cs, pos) matches Lexeme::Found(KindView::Name(n), _) ==> is_name_text(n),
{
    let line = line_at(cs, pos);
    match lexeme_at(cs, pos) {
        Lexeme::Refused(e) => {
            let c = cs[pos];
            if c == '.' {
                assert(e == line_error(line, "a lone dot"@));
            } else if c == '"' {
                if triple_quote_at(cs, pos) {
                    assert(e == line_error(line, "a block string that never closes"@));
                } else {
                    match quote_close(cs, pos + 1) {
                        Close::Unclosed => {
                            assert(e == line_error(line, "a string that never closes"@));
                        },
                        _ => {
                            assert(e == line_error(line, "a string that runs onto the next line"@));
                        },
                    }
                }
            } else if c == '-' || is_ascii_digit(c) {
                let p1 = if cs[pos] == '-' { pos + 1 } else { pos };
                let p2 = digits_end(cs, p1);
                if p2 == p1 {
                    assert(e == line_error(line, "a minus with no digits"@));
                } else {
                    let fraction = p2 < cs.len() && cs[p2] == '.';
                    let p3 = if fraction { digits_end(cs, p2 + 1) } else { p2 };
                    if fraction && p3 == p2 + 1 {
                        assert(e == line_error(line, "a decimal point with no digits"@));
                    } else {
                        match exponent_end(cs, p3) {
                            None => {
                                assert(e == line_error(line, "an exponent with no digits"@));
                            },
                            Some(_) => {
                                assert(e == line_error(line, "a number that runs into a name"@));
                            },
                        }
                    }
                }
            } else {
                assert(e == line_error(line, char_debug(c) + " is not GraphQL"@));
            }
        },
        Lexeme::Found(KindView::Name(n), _) => {
            lemma_name_end(cs, pos);
            let e = name_end(cs, pos);
            assert forall|i: int| 0 <= i < n.len() implies is_name_char(#[trigger] n[i]) by {
                assert(n[i] == cs[pos + i]);
            }
            lemma_name_end(cs, pos + 1);
        },
        _ => {},
    }
}

proof fn lemma_lex_from(cs: Seq<char>, pos: int)
    requires
        0 <= pos <= cs.len(),
    ensures
        lex_from(cs, pos) matches Err(e) ==> is_line_error(e),
        lex_from(cs, pos) matches Ok(ts) ==> {
            &&& lines_ordered(ts)
            &&& forall|i: int| 0 <= i < ts.len() ==> line_at(cs, pos) <= #[trigger] ts[i].line
            &&& forall|i: int|
                0 <= i < ts.len() ==> (#[trigger] ts[i].kind matches KindView::Name(n) ==> is_name_text(n))
        },
    decreases cs.len() - pos,
{
    if pos < cs.len() {
        lemma_lexeme_advances(cs, pos);
        lemma_lexeme_refusals(cs, pos);
        match lexeme_at(cs, pos) {
            Lexeme::Skip(p) => {
                lemma_lex_from(cs, p);
                lemma_newlines_monotone(cs, pos, p);
            },
            Lexeme::Found(kind, p) => {
                lemma_lex_from(cs, p);
                lemma_newlines_monotone(cs, pos, p);
                if let Ok(rest) = lex_from(cs, p) {
                    let ts = lex_from(cs, pos)->Ok_0;
                    assert(ts == seq![TokenView { kind, line: line_at(cs, pos) }] + rest);
                    assert forall|i: int, j: int| 0 <= i < j < ts.len() implies #[trigger] ts[i].line
                        <= #[trigger] ts[j].line by {
                        if i > 0 {
                            assert(ts[i] == rest[i - 1] && ts[j] == rest[j - 1]);
                        } else {
                            assert(ts[j] == rest[j - 1]);
                        }
                    }
                    assert forall|i: int| 0 <= i < ts.len() implies line_at(cs, pos)
                        <= #[trigger] ts[i].line by {
                        if i > 0 {
                            assert(ts[i] == rest[i - 1]);
                        }
                    }
                    assert forall|i: int| 0 <= i < ts.len() implies (#[trigger] ts[i].kind matches KindView::Name(n) ==> is_name_text(n)) by {
                        if i > 0 {
                            assert(ts[i] == rest[i - 1]);
                        }
                    }
                }
            },
            Lexeme::Refused(_) => {},
        }
    }
}

/// A character that may stand outside a string or a comment: ASCII, or the
/// byte order mark.
pub open spec fn may_stand_outside_strings(c: char) -> bool {
    (c as u32) < 128 || c == '\u{feff}'
}

proof fn lemma_lexeme_characters(cs: Seq<char>, pos: int)
    requires
        0 <= pos < cs.len(),
        cs[pos] != '"',
        cs[pos] != '#',
    ensures
        lexeme_at(cs, pos) matches Lexeme::Skip(p) ==> forall|i: int|
            pos <= i < p ==> may_stand_outside_strings(#[trigger] cs[i]),
        lexeme_at(cs, pos) matches Lexeme::Found(_, p) ==> forall|i: int|
            pos <= i < p ==> may_stand_outside_strings(#[trigger] cs[i]),
{
    let c = cs[pos];
    lemma_name_end(cs, pos);
    if c == '-' || is_ascii_digit(c) {
        let p1 = if cs[pos] == '-' { pos + 1 } else { pos };
        lemma_digits_end(cs, p1);
        let p2 = digits_end(cs, p1);
        if p2 < cs.len() {
            lemma_digits_end(cs, p2 + 1);
        }
        let fraction = p2 < cs.len() && cs[p2] == '.';
        let p3 = if fraction { digits_end(cs, p2 + 1) } else { p2 };
        if p3 < cs.len() {
            lemma_digits_end(cs, p3 + 1);
            if p3 + 1 < cs.len() {
                lemma_digits_end(cs, p3 + 2);
            }
        }
        if let Lexeme::Found(_, p4) = lexeme_at(cs, pos) {
            assert forall|i: int| pos <= i < p4 implies may_stand_outside_strings(#[trigger] cs[i]) by {
                if i >= p1 && i < p2 {
                    assert(is_ascii_digit(cs[i]));
                } else if fraction && i > p2 && i < p3 {
                    assert(is_ascii_digit(cs[i]));
                } else if i >= p3 {
                    let q = if p3 + 1 < cs.len() && (cs[p3 + 1] == '+' || cs[p3 + 1] == '-') {
                        p3 + 2
                    } else {
                        p3 + 1
                    };
                    if i >= q {
                        assert(is_ascii_digit(cs[i]));
                    }
                }
            }
        }
    }
    if is_name_start(c) {
        if let Lexeme::Found(_, e) = lexeme_at(cs, pos) {
            assert forall|i: int| pos <= i < e implies may_stand_outside_strings(#[trigger] cs[i]) by {
                assert(is_name_char(cs[i]));
            }
        }
    }
}

proof fn lemma_lex_from_characters(cs: Seq<char>, pos: int)
    requires
        0 <= pos <= cs.len(),
        forall|i: int| 0 <= i < cs.len() ==> #[trigger] cs[i] != '"' && cs[i] != '#',
        lex_from(cs, pos) is Ok,
    ensures
        forall|i: int| pos <= i < cs.len() ==> may_stand_outside_strings(#[trigger] cs[i]),
    decreases cs.len() - pos,
{
    if pos < cs.len() {
        lemma_lexeme_advances(cs, pos);
        lemma_lexeme_characters(cs, pos);
        match lexeme_at(cs, pos) {
            Lexeme::Skip(p) => {
                lemma_lex_from_characters(cs, p);
            },
            Lexeme::Found(_, p) => {
                lemma_lex_from_characters(cs, p);
            },
            _ => {},
        }
    }
}

/// White space is what the specification names, and a name is ASCII: a text
/// with no string and no comment lexes only where every character of it is
/// ASCII or the byte order mark.
pub proof fn law_only_strings_and_comments_hold_other_characters(text: Seq<char>)
    requires
        forall|i: int| 0 <= i < text.len() ==> #[trigger] text[i] != '"' && text[i] != '#',
    ensures
        spec_lex(text) is Ok ==> forall|i: int|
            0 <= i < text.len() ==> may_stand_outside_strings(#[trigger] text[i]),
{
    if spec_lex(text) is Ok {
        lemma_lex_from_characters(text, 0);
    }
}

/// A lexeme found `k` positions further on.
pub open spec fn shifted(l: Lexeme, k: int) -> Lexeme {
    match l {
        Lexeme::Skip(p) => Lexeme::Skip(p + k),
        Lexeme::Found(kind, p) => Lexeme::Found(kind, p + k),
        Lexeme::Refused(e) => Lexeme::Refused(e),
    }
}

/// Whether no line feed stands in `pre`.
pub open spec fn on_one_line(pre: Seq<char>) -> bool {
    forall|i: int| 0 <= i < pre.len() ==> #[trigger] pre[i] != '\n'
}

proof fn lemma_prefix_newlines(pre: Seq<char>, cs: Seq<char>, p: int)
    requires
        0 <= p <= cs.len(),
    ensures
        newlines_before(pre + cs, p + pre.len()) == newlines_before(cs, p) + newlines_before(
            pre + cs,
            pre.len() as int,
        ),
    decreases p,
{
    if p > 0 {
        lemma_prefix_newlines(pre, cs, p - 1);
        assert((pre + cs)[p - 1 + pre.len()] == cs[p - 1]);
    }
}

proof fn lemma_prefix_no_newlines(pre: Seq<char>, cs: Seq<char>, q: int)
    requires
        on_one_line(pre),
        0 <= q <= pre.len(),
    ensures
        newlines_before(pre + cs, q) == 0,
    decreases q,
{
    if q > 0 {
        lemma_prefix_no_newlines(pre, cs, q - 1);
        assert((pre + cs)[q - 1] == pre[q - 1]);
    }
}

proof fn lemma_prefix_spans(pre: Seq<char>, cs: Seq<char>, p: int)
    requires
        0 <= p <= cs.len(),
    ensures
        name_end(pre + cs, p + pre.len()) == name_end(cs, p) + pre.len(),
        digits_end(pre + cs, p + pre.len()) == digits_end(cs, p) + pre.len(),
        comment_end(pre + cs, p + pre.len()) == comment_end(cs, p) + pre.len(),
        block_close(pre + cs, p + pre.len()) == match block_close(cs, p) {
            Some(e) => Some(e + pre.len()),
            None => None::<int>,
        },
        quote_close(pre + cs, p + pre.len()) == match quote_close(cs, p) {
            Close::At(e) => Close::At(e + pre.len()),
            Close::Unclosed => Close::Unclosed,
            Close::Newline => Close::Newline,
        },
    decreases cs.len() - p,
{
    let k = pre.len() as int;
    let c2 = pre + cs;
    if p < cs.len() {
        assert(c2[p + k] == cs[p]);
        lemma_prefix_spans(pre, cs, p + 1);
        if p + 4 <= cs.len() {
            lemma_prefix_spans(pre, cs, p + 4);
            assert(c2[p + k + 1] == cs[p + 1] && c2[p + k + 2] == cs[p + 2] && c2[p + k + 3]
                == cs[p + 3]);
        }
        if p + 3 <= cs.len() {
            assert(c2[p + k + 1] == cs[p + 1] && c2[p + k + 2] == cs[p + 2]);
        }
        if p + 2 <= cs.len() {
            lemma_prefix_spans(pre, cs, p + 2);
        }
    }
}

proof fn lemma_prefix_string(pre: Seq<char>, cs: Seq<char>, pos: int)
    requires
        0 <= pos < cs.len(),
    ensures
        on_one_line(pre) || !(string_at(cs, pos) is Refused) ==> string_at(pre + cs, pos + pre.len())
            == shifted(string_at(cs, pos), pre.len() as int),
{
    if on_one_line(pre) {
        lemma_prefix_no_newlines(pre, cs, pre.len() as int);
    }
    let k = pre.len() as int;
    let c2 = pre + cs;
    lemma_prefix_newlines(pre, cs, pos);
    lemma_prefix_spans(pre, cs, pos + 1);
    assert(c2[pos + k] == cs[pos]);
    if pos + 3 <= cs.len() {
        lemma_prefix_spans(pre, cs, pos + 3);
        assert(c2[pos + k + 1] == cs[pos + 1] && c2[pos + k + 2] == cs[pos + 2]);
        lemma_block_close(cs, pos + 3);
        if let Some(e) = block_close(cs, pos + 3) {
            assert(c2.subrange(pos + 3 + k, e + k) =~= cs.subrange(pos + 3, e));
        }
    }
    lemma_quote_close(cs, pos + 1);
    if let Close::At(e) = quote_close(cs, pos + 1) {
        assert(c2.subrange(pos + 1 + k, e + k) =~= cs.subrange(pos + 1, e));
    }
}

proof fn lemma_prefix_number(pre: Seq<char>, cs: Seq<char>, pos: int)
    requires
        0 <= pos < cs.len(),
    ensures
        on_one_line(pre) || !(number_at(cs, pos) is Refused) ==> number_at(pre + cs, pos + pre.len())
            == shifted(number_at(cs, pos), pre.len() as int),
{
    if on_one_line(pre) {
        lemma_prefix_no_newlines(pre, cs, pre.len() as int);
    }
    let k = pre.len() as int;
    let c2 = pre + cs;
    lemma_prefix_newlines(pre, cs, pos);
    assert(c2[pos + k] == cs[pos]);
    let p1 = if cs[pos] == '-' { pos + 1 } else { pos };
    lemma_digits_end(cs, p1);
    lemma_prefix_spans(pre, cs, p1);
    let p2 = digits_end(cs, p1);
    if p2 < cs.len() {
        assert(c2[p2 + k] == cs[p2]);
        lemma_prefix_spans(pre, cs, p2 + 1);
        lemma_digits_end(cs, p2 + 1);
    }
    let p3 = if p2 < cs.len() && cs[p2] == '.' { digits_end(cs, p2 + 1) } else { p2 };
    if p3 < cs.len() {
        assert(c2[p3 + k] == cs[p3]);
        lemma_prefix_spans(pre, cs, p3 + 1);
        lemma_digits_end(cs, p3 + 1);
        if p3 + 1 < cs.len() {
            assert(c2[p3 + 1 + k] == cs[p3 + 1]);
            lemma_prefix_spans(pre, cs, p3 + 2);
            lemma_digits_end(cs, p3 + 2);
        }
    }
    assert(exponent_end(c2, p3 + k) == match exponent_end(cs, p3) {
        Some(e) => Some(e + k),
        None => None::<int>,
    });
    if let Some(p4) = exponent_end(cs, p3) {
        if p4 < cs.len() {
            assert(c2[p4 + k] == cs[p4]);
        }
        assert(c2.subrange(pos + k, p4 + k) =~= cs.subrange(pos, p4));
    }
}

proof fn lemma_prefix_lexeme(pre: Seq<char>, cs: Seq<char>, pos: int)
    requires
        0 <= pos < cs.len(),
    ensures
        on_one_line(pre) || !(lexeme_at(cs, pos) is Refused) ==> lexeme_at(pre + cs, pos + pre.len())
            == shifted(lexeme_at(cs, pos), pre.len() as int),
{
    if on_one_line(pre) {
        lemma_prefix_no_newlines(pre, cs, pre.len() as int);
    }
    let k = pre.len() as int;
    let c2 = pre + cs;
    assert(c2[pos + k] == cs[pos]);
    lemma_prefix_newlines(pre, cs, pos);
    lemma_prefix_spans(pre, cs, pos);
    if pos + 3 <= cs.len() {
        assert(c2[pos + k + 1] == cs[pos + 1] && c2[pos + k + 2] == cs[pos + 2]);
    }
    lemma_name_end(cs, pos);
    assert(c2.subrange(pos + k, name_end(cs, pos) + k) =~= cs.subrange(pos, name_end(cs, pos)));
    lemma_prefix_string(pre, cs, pos);
    lemma_prefix_number(pre, cs, pos);
}

proof fn lemma_prefix_lex_from(pre: Seq<char>, cs: Seq<char>, pos: int)
    requires
        on_one_line(pre),
        0 <= pos <= cs.len(),
    ensures
        lex_from(pre + cs, pos + pre.len()) == lex_from(cs, pos),
    decreases cs.len() - pos,
{
    if pos < cs.len() {
        lemma_prefix_lexeme(pre, cs, pos);
        lemma_prefix_newlines(pre, cs, pos);
        lemma_prefix_no_newlines(pre, cs, pre.len() as int);
        lemma_lexeme_advances(cs, pos);
        match lexeme_at(cs, pos) {
            Lexeme::Skip(p) => {
                lemma_prefix_lex_from(pre, cs, p);
            },
            Lexeme::Found(_, p) => {
                lemma_prefix_lex_from(pre, cs, p);
            },
            _ => {},
        }
    }
}

/// The tokens `ts`, each `m` lines further down.
pub open spec fn relined(ts: Seq<TokenView>, m: nat) -> Seq<TokenView> {
    ts.map_values(|t: TokenView| TokenView { kind: t.kind, line: t.line + m })
}

/// The kinds of the tokens `ts`, in order.
pub open spec fn kinds(ts: Seq<TokenView>) -> Seq<KindView> {
    ts.map_values(|t: TokenView| t.kind)
}

proof fn lemma_prefix_lex_from_ok(pre: Seq<char>, cs: Seq<char>, pos: int)
    requires
        0 <= pos <= cs.len(),
        lex_from(cs, pos) is Ok,
    ensures
        lex_from(pre + cs, pos + pre.len()) == Ok::<Seq<TokenView>, Seq<char>>(
            relined(lex_from(cs, pos)->Ok_0, newlines_before(pre + cs, pre.len() as int)),
        ),
    decreases cs.len() - pos,
{
    let m = newlines_before(pre + cs, pre.len() as int);
    if pos < cs.len() {
        lemma_prefix_lexeme(pre, cs, pos);
        lemma_prefix_newlines(pre, cs, pos);
        lemma_lexeme_advances(cs, pos);
        match lexeme_at(cs, pos) {
            Lexeme::Skip(p) => {
                lemma_prefix_lex_from_ok(pre, cs, p);
            },
            Lexeme::Found(kind, p) => {
                lemma_prefix_lex_from_ok(pre, cs, p);
                let rest = lex_from(cs, p)->Ok_0;
                let t = TokenView { kind, line: line_at(cs, pos) };
                let t2 = TokenView { kind, line: line_at(cs, pos) + m };
                assert(relined(seq![t] + rest, m) =~= seq![t2] + relined(rest, m));
            },
            _ => {},
        }
    } else {
        assert(relined(seq![], m) =~= seq![]);
    }
}

/// Whether `c` is `a` followed by a character that ends every token and
/// begins none: a space, a tab, a comma or a line feed.
pub open spec fn ends_with_a_break(c: Seq<char>, a: Seq<char>) -> bool {
    &&& c.len() > a.len()
    &&& c.take(a.len() as int) == a
    &&& (c[a.len() as int] == ' ' || c[a.len() as int] == '\t' || c[a.len() as int] == ','
        || c[a.len() as int] == '\n')
}

proof fn lemma_suffix_spans(c: Seq<char>, a: Seq<char>, p: int)
    requires
        ends_with_a_break(c, a),
        0 <= p <= a.len(),
    ensures
        name_end(c, p) == name_end(a, p),
        digits_end(c, p) == digits_end(a, p),
        c[a.len() as int] == '\n' ==> comment_end(c, p) == comment_end(a, p),
        newlines_before(c, p) == newlines_before(a, p),
        block_close(a, p) matches Some(e) ==> block_close(c, p) == Some(e),
        quote_close(a, p) matches Close::At(e) ==> quote_close(c, p) == Close::At(e),
    decreases a.len() - p,
{
    assert forall|i: int| 0 <= i < a.len() implies #[trigger] c[i] == a[i] by {
        assert(c.take(a.len() as int)[i] == c[i]);
    }
    if p < a.len() {
        lemma_suffix_spans(c, a, p + 1);
        if p + 4 <= a.len() {
            lemma_suffix_spans(c, a, p + 4);
        }
        if p + 2 <= a.len() {
            lemma_suffix_spans(c, a, p + 2);
        }
        lemma_block_close(a, p);
    }
    lemma_suffix_newlines(c, a, p);
}

proof fn lemma_suffix_newlines(c: Seq<char>, a: Seq<char>, p: int)
    requires
        c.len() >= a.len(),
        c.take(a.len() as int) == a,
        0 <= p <= a.len(),
    ensures
        newlines_before(c, p) == newlines_before(a, p),
    decreases p,
{
    if p > 0 {
        lemma_suffix_newlines(c, a, p - 1);
        assert(c.take(a.len() as int)[p - 1] == c[p - 1]);
    }
}

proof fn lemma_suffix_lexeme(c: Seq<char>, a: Seq<char>, pos: int)
    requires
        ends_with_a_break(c, a),
        0 <= pos < a.len(),
        a[pos] != '#' || c[a.len() as int] == '\n',
        !(lexeme_at(a, pos) is Refused),
    ensures
        lexeme_at(c, pos) == lexeme_at(a, pos),
{
    assert forall|i: int| 0 <= i < a.len() implies #[trigger] c[i] == a[i] by {
        assert(c.take(a.len() as int)[i] == c[i]);
    }
    lemma_suffix_spans(c, a, pos);
    lemma_suffix_spans(c, a, pos + 1);
    lemma_name_end(a, pos);
    assert(c.subrange(pos, name_end(a, pos)) =~= a.subrange(pos, name_end(a, pos)));
    if pos + 3 <= a.len() {
        lemma_suffix_spans(c, a, pos + 3);
        lemma_block_close(a, pos + 3);
        if let Some(e) = block_close(a, pos + 3) {
            assert(c.subrange(pos + 3, e) =~= a.subrange(pos + 3, e));
        }
    }
    lemma_quote_close(a, pos + 1);
    if let Close::At(e) = quote_close(a, pos + 1) {
        assert(c.subrange(pos + 1, e) =~= a.subrange(pos + 1, e));
    }
    let p1 = if a[pos] == '-' { pos + 1 } else { pos };
    lemma_digits_end(a, p1);
    lemma_suffix_spans(c, a, p1);
    let p2 = digits_end(a, p1);
    if p2 < a.len() {
        lemma_suffix_spans(c, a, p2 + 1);
        lemma_digits_end(a, p2 + 1);
    }
    let p3 = if p2 < a.len() && a[p2] == '.' { digits_end(a, p2 + 1) } else { p2 };
    if p3 < a.len() {
        lemma_suffix_spans(c, a, p3 + 1);
        lemma_digits_end(a, p3 + 1);
        if p3 + 1 < a.len() {
            lemma_suffix_spans(c, a, p3 + 2);
            lemma_digits_end(a, p3 + 2);
        }
    }
    if let Some(p4) = exponent_end(a, p3) {
        assert(exponent_end(c, p3) == Some(p4));
        assert(c.subrange(pos, p4) =~= a.subrange(pos, p4));
    }
}

proof fn lemma_suffix_lex_from(c: Seq<char>, a: Seq<char>, pos: int)
    requires
        ends_with_a_break(c, a),
        c[a.len() as int] == '\n' || forall|i: int| 0 <= i < a.len() ==> #[trigger] a[i] != '#',
        0 <= pos <= a.len(),
        lex_from(a, pos) is Ok,
    ensures
        lex_from(c, pos) == match lex_from(c, a.len() as int) {
            Ok(rest) => Ok(lex_from(a, pos)->Ok_0 + rest),
            Err(e) => Err::<Seq<TokenView>, Seq<char>>(e),
        },
    decreases a.len() - pos,
{
    if pos < a.len() {
        lemma_suffix_lexeme(c, a, pos);
        lemma_suffix_newlines(c, a, pos);
        lemma_lexeme_advances(a, pos);
        match lexeme_at(a, pos) {
            Lexeme::Skip(p) => {
                lemma_suffix_lex_from(c, a, p);
            },
            Lexeme::Found(kind, p) => {
                lemma_suffix_lex_from(c, a, p);
                if let Ok(rest) = lex_from(c, a.len() as int) {
                    let t = TokenView { kind, line: line_at(a, pos) };
                    assert(seq![t] + (lex_from(a, p)->Ok_0 + rest) =~= (seq![t] + lex_from(a, p)->Ok_0)
                        + rest);
                }
            },
            _ => {},
        }
    } else {
        if let Ok(rest) = lex_from(c, a.len() as int) {
            assert(Seq::<TokenView>::empty() + rest =~= rest);
        }
    }
}

/// Commas, white space and line feeds between tokens are insignificant:
/// two texts that lex, joined by a space, a tab, a comma — where the first
/// holds no comment to run on — or a line feed, lex as the tokens of the one
/// and then those of the other, the latter's lines moved down by the line
/// feeds before them.
pub proof fn law_joined_texts_lex_one_after_the_other(a: Seq<char>, s: char, b: Seq<char>)
    requires
        s == ' ' || s == '\t' || s == ',' || s == '\n',
        s == '\n' || forall|i: int| 0 <= i < a.len() ==> #[trigger] a[i] != '#',
        spec_lex(a) is Ok,
        spec_lex(b) is Ok,
    ensures
        spec_lex(a + seq![s] + b) == Ok::<Seq<TokenView>, Seq<char>>(
            spec_lex(a)->Ok_0 + relined(
                spec_lex(b)->Ok_0,
                newlines_before(a + seq![s], a.len() as int + 1),
            ),
        ),
        kinds(spec_lex(a + seq![s] + b)->Ok_0) == kinds(spec_lex(a)->Ok_0) + kinds(
            spec_lex(b)->Ok_0,
        ),
{
    let pre = a + seq![s];
    let c = pre + b;
    assert(c.take(a.len() as int) =~= a);
    assert(c[a.len() as int] == s);
    assert(ends_with_a_break(c, a));
    lemma_suffix_lex_from(c, a, 0);
    lemma_prefix_lex_from_ok(pre, b, 0);
    assert(newlines_before(c, pre.len() as int) == newlines_before(pre, pre.len() as int)) by {
        assert(c.take(pre.len() as int) =~= pre);
        lemma_suffix_newlines(c, pre, pre.len() as int);
    }
    assert(lexeme_at(c, a.len() as int) == Lexeme::Skip(a.len() as int + 1));
    let ta = spec_lex(a)->Ok_0;
    let tb = spec_lex(b)->Ok_0;
    let m = newlines_before(pre, pre.len() as int);
    assert(kinds(ta + relined(tb, m)) =~= kinds(ta) + kinds(tb));
}

proof fn lemma_insignificant_prefix(pre: Seq<char>, cs: Seq<char>, q: int)
    requires
        forall|i: int| 0 <= i < pre.len() ==> is_insignificant(#[trigger] pre[i]),
        0 <= q <= pre.len(),
    ensures
        lex_from(pre + cs, q) == lex_from(pre + cs, pre.len() as int),
    decreases pre.len() - q,
{
    if q < pre.len() {
        assert((pre + cs)[q] == pre[q]);
        lemma_insignificant_prefix(pre, cs, q + 1);
    }
}

/// Commas, white space and the byte order mark are insignificant and
/// dropped: before a text, on its first line, they change nothing of what
/// the lexer gives.
pub proof fn law_insignificant_characters_are_dropped(pre: Seq<char>, text: Seq<char>)
    requires
        forall|i: int| 0 <= i < pre.len() ==> is_insignificant(#[trigger] pre[i]) && pre[i] != '\n',
    ensures
        spec_lex(pre + text) == spec_lex(text),
{
    lemma_insignificant_prefix(pre, text, 0);
    lemma_prefix_lex_from(pre, text, 0);
}

/// Tokens come in the order of their lines, every line counted from 1.
pub proof fn law_tokens_keep_their_lines(text: Seq<char>)
    ensures
        spec_lex(text) matches Ok(ts) ==> lines_ordered(ts) && forall|i: int|
            0 <= i < ts.len() ==> 1 <= #[trigger] ts[i].line,
{
    lemma_lex_from(text, 0);
}

/// A name is ASCII: every name the lexer gives is one.
pub proof fn law_names_are_ascii(text: Seq<char>)
    ensures
        spec_lex(text) matches Ok(ts) ==> forall|i: int|
            0 <= i < ts.len() ==> (#[trigger] ts[i].kind matches KindView::Name(n) ==> is_name_text(n)),
{
    lemma_lex_from(text, 0);
}

/// What the lexer refuses, it refuses with its line.
pub proof fn law_lexical_errors_name_their_line(text: Seq<char>)
    ensures
        spec_lex(text) matches Err(e) ==> is_line_error(e),
{
    lemma_lex_from(text, 0);
}

// --------------------------------------------------------------- execution

/// How `c` is written in an error message: its `Debug` form.
#[verifier::external_body]
fn char_debug_text(c: char) -> (s: String)
    ensures
        s@ == char_debug(c),
{
    format!("{c:?}")
}

enum Step {
    Skip(usize),
    Found(Kind, usize),
    Refused(String),
}

impl View for Step {
    type V = Lexeme;

    closed spec fn view(&self) -> Lexeme {
        match self {
            Step::Skip(p) => Lexeme::Skip(*p as int),
            Step::Found(k, p) => Lexeme::Found(k@, *p as int),
            Step::Refused(e) => Lexeme::Refused(e@),
        }
    }
}

enum QuoteEnd {
    At(usize),
    Unclosed,
    Newline,
}

fn name_end_exec(cs: &Vec<char>, pos: usize) -> (e: usize)
    requires
        pos <= cs@.len(),
    ensures
        e == name_end(cs@, pos as int),
{
    let mut e = pos;
    while e < cs.len() && name_char(cs[e])
        invariant
            pos <= e <= cs@.len(),
            name_end(cs@, e as int) == name_end(cs@, pos as int),
        decreases cs@.len() - e,
    {
        e += 1;
    }
    e
}

fn digits_end_exec(cs: &Vec<char>, pos: usize) -> (e: usize)
    requires
        pos <= cs@.len(),
    ensures
        e == digits_end(cs@, pos as int),
{
    let mut e = pos;
    while e < cs.len() && ascii_digit(cs[e])
        invariant
            pos <= e <= cs@.len(),
            digits_end(cs@, e as int) == digits_end(cs@, pos as int),
        decreases cs@.len() - e,
    {
        e += 1;
    }
    e
}

fn comment_end_exec(cs: &Vec<char>, pos: usize) -> (e: usize)
    requires
        pos <= cs@.len(),
    ensures
        e == comment_end(cs@, pos as int),
{
    let mut e = pos;
    while e < cs.len() && cs[e] != '\n'
        invariant
            pos <= e <= cs@.len(),
            comment_end(cs@, e as int) == comment_end(cs@, pos as int),
        decreases cs@.len() - e,
    {
        e += 1;
    }
    e
}

fn triple_quote_exec(cs: &Vec<char>, p: usize) -> (r: bool)
    requires
        p <= cs@.len(),
    ensures
        r == triple_quote_at(cs@, p as int),
{
    cs.len() - p >= 3 && cs[p] == '"' && cs[p + 1] == '"' && cs[p + 2] == '"'
}

fn block_close_exec(cs: &Vec<char>, p: usize) -> (r: Option<usize>)
    requires
        p <= cs@.len(),
    ensures
        match r {
            Some(e) => block_close(cs@, p as int) == Some(e as int),
            None => block_close(cs@, p as int) is None,
        },
{
    let mut q = p;
    loop
        invariant
            p <= q <= cs@.len(),
            block_close(cs@, q as int) == block_close(cs@, p as int),
        decreases cs@.len() - q,
    {
        if q >= cs.len() {
            return None;
        }
        if cs.len() - q >= 4 && cs[q] == '\\' && cs[q + 1] == '"' && cs[q + 2] == '"' && cs[q
            + 3] == '"' {
            q += 4;
        } else if triple_quote_exec(cs, q) {
            return Some(q);
        } else {
            q += 1;
        }
    }
}

fn quote_close_exec(cs: &Vec<char>, p: usize) -> (r: QuoteEnd)
    requires
        p <= cs@.len(),
    ensures
        match r {
            QuoteEnd::At(e) => quote_close(cs@, p as int) == Close::At(e as int),
            QuoteEnd::Unclosed => quote_close(cs@, p as int) == Close::Unclosed,
            QuoteEnd::Newline => quote_close(cs@, p as int) == Close::Newline,
        },
{
    let mut q = p;
    loop
        invariant
            p <= q <= cs@.len(),
            quote_close(cs@, q as int) == quote_close(cs@, p as int),
        decreases cs@.len() - q,
    {
        if q >= cs.len() {
            return QuoteEnd::Unclosed;
        }
        let c = cs[q];
        if c == '\\' {
            if q + 1 < cs.len() {
                q += 2;
            } else {
                return QuoteEnd::Unclosed;
            }
        } else if c == '"' {
            return QuoteEnd::At(q);
        } else if c == '\n' {
            return QuoteEnd::Newline;
        } else {
            q += 1;
        }
    }
}

fn string_exec(cs: &Vec<char>, pos: usize, line: usize) -> (r: Step)
    requires
        cs@.len() <= usize::MAX,
        pos < cs@.len(),
        cs@[pos as int] == '"',
        line == line_at(cs@, pos as int),
    ensures
        r@ == string_at(cs@, pos as int),
{
    if triple_quote_exec(cs, pos) {
        proof {
            lemma_block_close(cs@, pos + 3);
        }
        match block_close_exec(cs, pos + 3) {
            Some(e) => Step::Found(Kind::Str(string_of(cs, pos + 3, e)), e + 3),
            None => Step::Refused(line_error_text(line, "a block string that never closes")),
        }
    } else {
        proof {
            lemma_quote_close(cs@, pos + 1);
        }
        match quote_close_exec(cs, pos + 1) {
            QuoteEnd::At(e) => Step::Found(Kind::Str(string_of(cs, pos + 1, e)), e + 1),
            QuoteEnd::Unclosed => Step::Refused(line_error_text(line, "a string that never closes")),
            QuoteEnd::Newline => Step::Refused(
                line_error_text(line, "a string that runs onto the next line"),
            ),
        }
    }
}

fn exponent_end_exec(cs: &Vec<char>, p: usize) -> (r: Option<usize>)
    requires
        p <= cs@.len(),
    ensures
        match r {
            Some(e) => exponent_end(cs@, p as int) == Some(e as int),
            None => exponent_end(cs@, p as int) is None,
        },
{
    if p < cs.len() && (cs[p] == 'e' || cs[p] == 'E') {
        let q = if p + 1 < cs.len() && (cs[p + 1] == '+' || cs[p + 1] == '-') {
            p + 2
        } else {
            p + 1
        };
        let e = digits_end_exec(cs, q);
        if e == q {
            None
        } else {
            Some(e)
        }
    } else {
        Some(p)
    }
}

fn number_exec(cs: &Vec<char>, pos: usize, line: usize) -> (r: Step)
    requires
        cs@.len() <= usize::MAX,
        pos < cs@.len(),
        cs@[pos as int] == '-' || is_ascii_digit(cs@[pos as int]),
        line == line_at(cs@, pos as int),
    ensures
        r@ == number_at(cs@, pos as int),
{
    let p1 = if cs[pos] == '-' { pos + 1 } else { pos };
    proof {
        lemma_digits_end(cs@, p1 as int);
    }
    let p2 = digits_end_exec(cs, p1);
    if p2 == p1 {
        return Step::Refused(line_error_text(line, "a minus with no digits"));
    }
    let fraction = p2 < cs.len() && cs[p2] == '.';
    let p3 = if fraction {
        proof {
            lemma_digits_end(cs@, p2 + 1);
        }
        digits_end_exec(cs, p2 + 1)
    } else {
        p2
    };
    if fraction && p3 == p2 + 1 {
        return Step::Refused(line_error_text(line, "a decimal point with no digits"));
    }
    proof {
        if p3 < cs@.len() {
            lemma_digits_end(cs@, p3 + 1);
            if p3 + 1 < cs@.len() {
                lemma_digits_end(cs@, p3 + 2);
            }
        }
    }
    match exponent_end_exec(cs, p3) {
        None => Step::Refused(line_error_text(line, "an exponent with no digits")),
        Some(p4) => {
            if p4 < cs.len() && (cs[p4] == '_' || ascii_alpha(cs[p4]) || cs[p4] == '.') {
                Step::Refused(line_error_text(line, "a number that runs into a name"))
            } else if fraction || p4 != p3 {
                Step::Found(Kind::Float(string_of(cs, pos, p4)), p4)
            } else {
                Step::Found(Kind::Int(string_of(cs, pos, p4)), p4)
            }
        },
    }
}

fn next_lexeme(cs: &Vec<char>, pos: usize, line: usize) -> (r: Step)
    requires
        cs@.len() <= usize::MAX,
        pos < cs@.len(),
        line == line_at(cs@, pos as int),
    ensures
        r@ == lexeme_at(cs@, pos as int),
{
    let c = cs[pos];
    if c == '\n' || c == ' ' || c == '\t' || c == '\r' || c == ',' || c == '\u{feff}' {
        Step::Skip(pos + 1)
    } else if c == '#' {
        Step::Skip(comment_end_exec(cs, pos))
    } else if c == '.' {
        if cs.len() - pos >= 3 && cs[pos + 1] == '.' && cs[pos + 2] == '.' {
            Step::Found(Kind::Spread, pos + 3)
        } else {
            Step::Refused(line_error_text(line, "a lone dot"))
        }
    } else if c == '!' || c == '$' || c == '&' || c == '(' || c == ')' || c == ':' || c == '='
        || c == '@' || c == '[' || c == ']' || c == '{' || c == '|' || c == '}' {
        Step::Found(Kind::Punct(c), pos + 1)
    } else if c == '"' {
        string_exec(cs, pos, line)
    } else if c == '_' || ascii_alpha(c) {
        proof {
            lemma_name_end(cs@, pos as int);
        }
        let e = name_end_exec(cs, pos);
        Step::Found(Kind::Name(string_of(cs, pos, e)), e)
    } else if c == '-' || ascii_digit(c) {
        number_exec(cs, pos, line)
    } else {
        let shown = char_debug_text(c);
        Step::Refused(line_error_text(line, joined(shown.as_str(), " is not GraphQL").as_str()))
    }
}

/// Tokenize `text`. GraphQL's white space is tab and space only, and a name
/// is ASCII: any other character, U+00A0 among them, is refused with its
/// line.
///
/// # Errors
/// An unterminated string, a character GraphQL has no token for, or a
/// number that does not end where a number ends.
pub fn lex(text: &str) -> (r: Result<Vec<Token>, String>)
    ensures
        lexed_view(r) == spec_lex(text@),
{
    let cs = chars_of(text);
    let n = cs.len();
    let mut tokens: Vec<Token> = Vec::new();
    let mut pos: usize = 0;
    let mut newlines: usize = 0;
    while pos < n
        invariant
            n == cs@.len(),
            cs@ == text@,
            pos <= n,
            newlines == newlines_before(cs@, pos as int),
            spec_lex(cs@) == match lex_from(cs@, pos as int) {
                Ok(rest) => Ok(tokens_view(tokens@) + rest),
                Err(e) => Err(e),
            },
        decreases n - pos,
    {
        proof {
            lemma_newlines_bound(cs@, pos as int);
            lemma_lexeme_advances(cs@, pos as int);
        }
        let line = newlines + 1;
        let step = next_lexeme(&cs, pos, line);
        let ghost before = tokens_view(tokens@);
        let p = match step {
            Step::Skip(p) => p,
            Step::Found(kind, p) => {
                let ghost kv = kind@;
                tokens.push(Token { kind, line });
                proof {
                    assert(tokens_view(tokens@) =~= before.push(TokenView { kind: kv, line: line as nat }));
                    match lex_from(cs@, p as int) {
                        Ok(rest) => {
                            assert(before + (seq![TokenView { kind: kv, line: line as nat }] + rest)
                                =~= tokens_view(tokens@) + rest);
                        },
                        Err(_) => {},
                    }
                }
                p
            },
            Step::Refused(e) => {
                return Err(e);
            },
        };
        while pos < p
            invariant
                pos <= p <= n,
                n == cs@.len(),
                newlines == newlines_before(cs@, pos as int),
            decreases p - pos,
        {
            proof {
                lemma_newlines_bound(cs@, pos as int);
            }
            if cs[pos] == '\n' {
                newlines += 1;
            }
            pos += 1;
        }
    }
    proof {
        assert(tokens_view(tokens@) + seq![] =~= tokens_view(tokens@));
    }
    Ok(tokens)
}

} // verus!
