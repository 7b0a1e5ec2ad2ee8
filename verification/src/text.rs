//! Text helpers shared by the lexer, the parser and the contract: decimal
//! numbers, character classes, and the few calls into `std` that build or
//! read strings.

use vstd::prelude::*;
use vstd::string::*;
use vstd::utf8::{decode_utf8, valid_utf8};

verus! {

/// The decimal digit `d` as a character.
pub open spec fn digit_char(d: nat) -> char {
    if d == 0 { '0' }
    else if d == 1 { '1' }
    else if d == 2 { '2' }
    else if d == 3 { '3' }
    else if d == 4 { '4' }
    else if d == 5 { '5' }
    else if d == 6 { '6' }
    else if d == 7 { '7' }
    else if d == 8 { '8' }
    else { '9' }
}

/// `n` written in decimal, most significant digit first.
pub open spec fn decimal(n: nat) -> Seq<char>
    decreases n,
{
    if n < 10 {
        seq![digit_char(n)]
    } else {
        decimal(n / 10).push(digit_char(n % 10))
    }
}

/// Appends `c` to `s`.
#[verifier::external_body]
pub(crate) fn push_char(s: &mut String, c: char)
    ensures
        final(s)@ == old(s)@.push(c),
{
    s.push(c);
}

fn digit(d: usize) -> (c: char)
    requires
        d < 10,
    ensures
        c == digit_char(d as nat),
{
    match d {
        0 => '0',
        1 => '1',
        2 => '2',
        3 => '3',
        4 => '4',
        5 => '5',
        6 => '6',
        7 => '7',
        8 => '8',
        _ => '9',
    }
}

/// `n` in decimal.
pub fn decimal_string(n: usize) -> (s: String)
    ensures
        s@ == decimal(n as nat),
    decreases n,
{
    if n < 10 {
        let mut s = String::new();
        push_char(&mut s, digit(n));
        s
    } else {
        let mut s = decimal_string(n / 10);
        push_char(&mut s, digit(n % 10));
        s
    }
}


/// The characters of `s`, in order.
pub fn chars_of(s: &str) -> (cs: Vec<char>)
    ensures
        cs@ == s@,
{
    let mut cs: Vec<char> = Vec::new();
    for c in it: s.chars()
        invariant
            cs@ == it.seq().take(it.index() as int),
            it.seq() == s@,
    {
        cs.push(c);
    }
    cs
}

/// The text of `cs[from..to]`.
pub fn string_of(cs: &Vec<char>, from: usize, to: usize) -> (s: String)
    requires
        from <= to <= cs@.len(),
    ensures
        s@ == cs@.subrange(from as int, to as int),
{
    let mut s = String::new();
    let mut i = from;
    while i < to
        invariant
            from <= i <= to <= cs@.len(),
            s@ == cs@.subrange(from as int, i as int),
        decreases to - i,
    {
        push_char(&mut s, cs[i]);
        i += 1;
    }
    s
}

/// Whether `a` and `b` hold the same characters.
pub fn same_text(a: &str, b: &str) -> (r: bool)
    ensures
        r == (a@ == b@),
{
    let n = a.unicode_len();
    if n != b.unicode_len() {
        return false;
    }
    let mut i: usize = 0;
    while i < n
        invariant
            n == a@.len() == b@.len(),
            i <= n,
            forall|j: int| 0 <= j < i ==> a@[j] == b@[j],
        decreases n - i,
    {
        if a.get_char(i) != b.get_char(i) {
            return false;
        }
        i += 1;
    }
    assert(a@ =~= b@);
    true
}

/// `a` followed by `b`.
pub fn joined(a: &str, b: &str) -> (s: String)
    ensures
        s@ == a@ + b@,
{
    let mut s = String::from_str(a);
    s.append(b);
    s
}


/// An error reported at `line`: `line N: ` before what is wrong.
pub open spec fn line_error(line: nat, what: Seq<char>) -> Seq<char> {
    "line "@ + decimal(line) + ": "@ + what
}

/// Whether `e` is an error reported at some line.
pub open spec fn is_line_error(e: Seq<char>) -> bool {
    exists|n: nat, w: Seq<char>| e == #[trigger] line_error(n, w)
}

/// The text of [`line_error`].
pub fn line_error_text(line: usize, what: &str) -> (s: String)
    ensures
        s@ == line_error(line as nat, what@),
{
    let mut s = String::from_str("line ");
    let d = decimal_string(line);
    s.append(d.as_str());
    s.append(": ");
    s.append(what);
    s
}


/// A copy of every text of `v`.
pub fn copy_texts(v: &Vec<String>) -> (r: Vec<String>)
    ensures
        r.deep_view() == v.deep_view(),
{
    let mut r: Vec<String> = Vec::new();
    let mut i: usize = 0;
    while i < v.len()
        invariant
            i <= v@.len(),
            r.deep_view() =~= v.deep_view().take(i as int),
        decreases v@.len() - i,
    {
        let ghost before = r.deep_view();
        r.push(v[i].clone());
        assert(r.deep_view() =~= before.push(v[i as int]@));
        assert(v.deep_view().take(i + 1) =~= v.deep_view().take(i as int).push(v[i as int]@));
        i += 1;
    }
    assert(v.deep_view().take(v@.len() as int) =~= v.deep_view());
    r
}

/// Whether `v` holds the text `t`.
pub fn contains_text(v: &Vec<String>, t: &str) -> (r: bool)
    ensures
        r == v.deep_view().contains(t@),
{
    let mut i: usize = 0;
    while i < v.len()
        invariant
            i <= v@.len(),
            forall|j: int| 0 <= j < i ==> #[trigger] v.deep_view()[j] != t@,
        decreases v@.len() - i,
    {
        if same_text(v[i].as_str(), t) {
            assert(v.deep_view()[i as int] == t@);
            return true;
        }
        i += 1;
    }
    false
}

/// Whether `s` begins with two underscores, as the names GraphQL reserves
/// for introspection do.
pub open spec fn is_reserved_name(s: Seq<char>) -> bool {
    s.len() >= 2 && s[0] == '_' && s[1] == '_'
}

pub fn reserved_name(s: &str) -> (r: bool)
    ensures
        r == is_reserved_name(s@),
{
    s.unicode_len() >= 2 && s.get_char(0) == '_' && s.get_char(1) == '_'
}


/// How `std` describes why bytes are not UTF-8.
pub uninterp spec fn utf8_error_text(bytes: Seq<u8>) -> Seq<char>;

/// The text `bytes` encode, or why they are not UTF-8:
/// `std::str::from_utf8`, which accepts exactly the well-formed UTF-8
/// encodings, its error shown as `Display` writes it.
#[verifier::external_body]
pub(crate) fn utf8_text(bytes: &[u8]) -> (r: Result<String, String>)
    ensures
        r is Ok <==> valid_utf8(bytes@),
        r matches Ok(t) ==> t@ == decode_utf8(bytes@),
        r matches Err(m) ==> m@ == utf8_error_text(bytes@),
{
    match std::str::from_utf8(bytes) {
        Ok(text) => Ok(text.to_string()),
        Err(error) => Err(format!("{error}")),
    }
}

/// Whether `c` has the Unicode White_Space property: tab, line feed,
/// vertical tab, form feed, carriage return, space, next line, no-break
/// space, ogham space mark, the spaces from en quad to hair space, line and
/// paragraph separators, narrow no-break space, medium mathematical space,
/// and ideographic space.
pub open spec fn is_white_space(c: char) -> bool {
    let u = c as u32;
    ||| 0x9 <= u <= 0xd
    ||| u == 0x20
    ||| u == 0x85
    ||| u == 0xa0
    ||| u == 0x1680
    ||| 0x2000 <= u <= 0x200a
    ||| u == 0x2028
    ||| u == 0x2029
    ||| u == 0x202f
    ||| u == 0x205f
    ||| u == 0x3000
}

/// Whether `c` is white space in Unicode, as `char::is_whitespace` has it.
pub(crate) fn white_space(c: char) -> (r: bool)
    ensures
        r == is_white_space(c),
{
    let u = c as u32;
    (0x9 <= u && u <= 0xd) || u == 0x20 || u == 0x85 || u == 0xa0 || u == 0x1680 || (0x2000 <= u
        && u <= 0x200a) || u == 0x2028 || u == 0x2029 || u == 0x202f || u == 0x205f || u == 0x3000
}

/// Whether `c` is alphabetic or numeric in Unicode.
pub uninterp spec fn is_alphanumeric_char(c: char) -> bool;

/// `char::is_alphanumeric`.
#[verifier::external_body]
pub(crate) fn alphanumeric(c: char) -> (r: bool)
    ensures
        r == is_alphanumeric_char(c),
{
    c.is_alphanumeric()
}

/// Where the run of white space from `i` ends.
pub open spec fn space_end(s: Seq<char>, i: int) -> int
    decreases s.len() - i,
{
    if 0 <= i < s.len() && is_white_space(s[i]) {
        space_end(s, i + 1)
    } else {
        i
    }
}

/// Where the run of white space that ends at `j` begins.
pub open spec fn space_start(s: Seq<char>, j: int) -> int
    decreases j,
{
    if 0 < j <= s.len() && is_white_space(s[j - 1]) {
        space_start(s, j - 1)
    } else {
        j
    }
}

/// `s` without its leading white space.
pub open spec fn trim_start(s: Seq<char>) -> Seq<char> {
    s.skip(space_end(s, 0))
}

/// `s` without its trailing white space.
pub open spec fn trim_end(s: Seq<char>) -> Seq<char> {
    s.take(space_start(s, s.len() as int))
}

/// `s` without its leading and trailing white space.
pub open spec fn trim(s: Seq<char>) -> Seq<char> {
    trim_end(trim_start(s))
}

pub proof fn lemma_space_end(s: Seq<char>, i: int)
    requires
        0 <= i <= s.len(),
    ensures
        i <= space_end(s, i) <= s.len(),
    decreases s.len() - i,
{
    if i < s.len() && is_white_space(s[i]) {
        lemma_space_end(s, i + 1);
    }
}

pub proof fn lemma_space_start(s: Seq<char>, j: int)
    requires
        0 <= j <= s.len(),
    ensures
        0 <= space_start(s, j) <= j,
    decreases j,
{
    if j > 0 && is_white_space(s[j - 1]) {
        lemma_space_start(s, j - 1);
    }
}

/// The characters `cs[from..to]`.
pub fn slice_chars(cs: &Vec<char>, from: usize, to: usize) -> (r: Vec<char>)
    requires
        from <= to <= cs@.len(),
    ensures
        r@ == cs@.subrange(from as int, to as int),
{
    let mut r: Vec<char> = Vec::new();
    let mut i = from;
    while i < to
        invariant
            from <= i <= to <= cs@.len(),
            r@ =~= cs@.subrange(from as int, i as int),
        decreases to - i,
    {
        r.push(cs[i]);
        i += 1;
    }
    r
}

/// Where the leading white space of `cs` ends.
pub fn space_end_exec(cs: &Vec<char>) -> (e: usize)
    ensures
        e == space_end(cs@, 0),
{
    let mut e: usize = 0;
    while e < cs.len() && white_space(cs[e])
        invariant
            e <= cs@.len(),
            space_end(cs@, e as int) == space_end(cs@, 0),
        decreases cs@.len() - e,
    {
        e += 1;
    }
    e
}

/// The characters of `cs` without leading and trailing white space.
pub fn trimmed(cs: &Vec<char>) -> (r: Vec<char>)
    ensures
        r@ == trim(cs@),
{
    proof {
        lemma_space_end(cs@, 0);
    }
    let a = space_end_exec(cs);
    let t = slice_chars(cs, a, cs.len());
    assert(t@ =~= trim_start(cs@));
    let mut b = t.len();
    while b > 0 && white_space(t[b - 1])
        invariant
            b <= t@.len(),
            space_start(t@, b as int) == space_start(t@, t@.len() as int),
        decreases b,
    {
        b -= 1;
    }
    slice_chars(&t, 0, b)
}

/// Where the first `;` of `s` from `i` stands, or the end.
pub open spec fn semicolon_at(s: Seq<char>, i: int) -> int
    decreases s.len() - i,
{
    if 0 <= i < s.len() && s[i] != ';' {
        semicolon_at(s, i + 1)
    } else {
        i
    }
}

/// The text before the first `;`.
pub open spec fn first_segment(s: Seq<char>) -> Seq<char> {
    s.take(semicolon_at(s, 0))
}

pub proof fn lemma_semicolon_at(s: Seq<char>, i: int)
    requires
        0 <= i <= s.len(),
    ensures
        i <= semicolon_at(s, i) <= s.len(),
    decreases s.len() - i,
{
    if i < s.len() && s[i] != ';' {
        lemma_semicolon_at(s, i + 1);
    }
}

/// The text before the first `;` of `cs`.
pub fn first_segment_exec(cs: &Vec<char>) -> (r: Vec<char>)
    ensures
        r@ == first_segment(cs@),
{
    proof {
        lemma_semicolon_at(cs@, 0);
    }
    let mut e: usize = 0;
    while e < cs.len() && cs[e] != ';'
        invariant
            e <= cs@.len(),
            semicolon_at(cs@, e as int) == semicolon_at(cs@, 0),
        decreases cs@.len() - e,
    {
        e += 1;
    }
    slice_chars(cs, 0, e)
}

/// `c` with an ASCII capital letter made small.
pub open spec fn ascii_lower(c: char) -> char {
    if 'A' <= c && c <= 'Z' {
        ((c as u32) + 32) as char
    } else {
        c
    }
}

fn ascii_lower_exec(c: char) -> (r: char)
    ensures
        r == ascii_lower(c),
{
    if 'A' <= c && c <= 'Z' {
        ((c as u8) + 32) as char
    } else {
        c
    }
}

/// `a` and `b` are the same text but for the case of ASCII letters.
pub open spec fn eq_ignore_ascii_case(a: Seq<char>, b: Seq<char>) -> bool {
    a.len() == b.len() && forall|i: int| 0 <= i < a.len() ==> #[trigger] ascii_lower(a[i])
        == ascii_lower(b[i])
}

pub fn eq_ignore_ascii_case_exec(a: &Vec<char>, b: &Vec<char>) -> (r: bool)
    ensures
        r == eq_ignore_ascii_case(a@, b@),
{
    if a.len() != b.len() {
        return false;
    }
    let mut i: usize = 0;
    while i < a.len()
        invariant
            a@.len() == b@.len(),
            i <= a@.len(),
            forall|j: int| 0 <= j < i ==> #[trigger] ascii_lower(a@[j]) == ascii_lower(b@[j]),
        decreases a@.len() - i,
    {
        if ascii_lower_exec(a[i]) != ascii_lower_exec(b[i]) {
            return false;
        }
        i += 1;
    }
    true
}

} // verus!
