//! Text helpers: decimal rendering of integers, character classes and
//! the quoting that `{:?}` gives a string.
use vstd::prelude::*;
use vstd::string::*;

verus! {

/// The character of a decimal digit.
pub open spec fn digit_char(d: nat) -> char {
    if d == 0 { '0' } else if d == 1 { '1' } else if d == 2 { '2' } else if d == 3 { '3' }
    else if d == 4 { '4' } else if d == 5 { '5' } else if d == 6 { '6' } else if d == 7 { '7' }
    else if d == 8 { '8' } else { '9' }
}

/// Decimal digits of a natural number, most significant first, no leading zeros.
pub open spec fn nat_text(n: nat) -> Seq<char>
    decreases n,
{
    if n < 10 {
        seq![digit_char(n)]
    } else {
        nat_text(n / 10).push(digit_char(n % 10))
    }
}

/// Decimal text of an integer, with a leading `-` when negative.
pub open spec fn int_text(i: int) -> Seq<char> {
    if i < 0 {
        seq!['-'] + nat_text((-i) as nat)
    } else {
        nat_text(i as nat)
    }
}

/// What Rust's `char::is_whitespace` returns for a character (Unicode `White_Space`).
pub uninterp spec fn is_whitespace_char(c: char) -> bool;

/// What Rust's `char::is_alphabetic` returns for a character (Unicode `Alphabetic`).
pub uninterp spec fn is_alphabetic_char(c: char) -> bool;

/// What Rust's `char::is_alphanumeric` returns for a character.
pub uninterp spec fn is_alphanumeric_char(c: char) -> bool;

/// The text that `{:?}` prints for a string: the string in double quotes,
/// with the characters that need it escaped.
pub uninterp spec fn str_debug_text(s: Seq<char>) -> Seq<char>;

/// An ASCII decimal digit.
pub open spec fn is_digit_char(c: char) -> bool {
    '0' <= c && c <= '9'
}

/// The value of an ASCII decimal digit.
pub open spec fn digit_value(c: char) -> nat {
    (c as int - '0' as int) as nat
}

/// `char::is_whitespace`: true for the characters with the Unicode
/// `White_Space` property. The result is named, not spelled out.
#[verifier::external_body]
pub(crate) fn char_is_whitespace(c: char) -> (r: bool)
    ensures
        r == is_whitespace_char(c),
{
    c.is_whitespace()
}

/// `char::is_alphabetic`: true for the characters with the Unicode
/// `Alphabetic` property. The result is named, not spelled out.
#[verifier::external_body]
pub(crate) fn char_is_alphabetic(c: char) -> (r: bool)
    ensures
        r == is_alphabetic_char(c),
{
    c.is_alphabetic()
}

/// `char::is_alphanumeric`: true for alphabetic or numeric characters.
/// The result is named, not spelled out.
#[verifier::external_body]
pub(crate) fn char_is_alphanumeric(c: char) -> (r: bool)
    ensures
        r == is_alphanumeric_char(c),
{
    c.is_alphanumeric()
}

/// Whether a space is whitespace and continues no identifier, as std's
/// character classes report it: what the lexers' law on texts joined by a
/// space asks of them.
pub fn space_separates_tokens() -> (r: bool)
    ensures
        r == (is_whitespace_char(' ') && !is_alphanumeric_char(' ')),
{
    char_is_whitespace(' ') && !char_is_alphanumeric(' ')
}

/// `String::push`: appends one character at the end.
#[verifier::external_body]
pub(crate) fn push_char(s: &mut String, c: char)
    ensures
        final(s)@ == old(s)@.push(c),
{
    s.push(c);
}

/// `<str as Debug>::fmt` through `format!("{:?}", ..)`: the string quoted and
/// escaped. The result is named, not spelled out; it depends on the text alone.
#[verifier::external_body]
pub(crate) fn debug_quoted(s: &str) -> (r: String)
    ensures
        r@ == str_debug_text(s@),
{
    format!("{:?}", s)
}

/// Is the character an ASCII decimal digit?
pub fn char_is_digit(c: char) -> (r: bool)
    ensures
        r == is_digit_char(c),
{
    '0' <= c && c <= '9'
}

fn digit_of(d: u64) -> (c: char)
    requires
        d < 10,
    ensures
        c == digit_char(d as nat),
{
    if d == 0 { '0' } else if d == 1 { '1' } else if d == 2 { '2' } else if d == 3 { '3' }
    else if d == 4 { '4' } else if d == 5 { '5' } else if d == 6 { '6' } else if d == 7 { '7' }
    else if d == 8 { '8' } else { '9' }
}

/// Appends the decimal digits of `n` to `s`.
pub fn push_u64_text(s: &mut String, n: u64)
    ensures
        final(s)@ == old(s)@ + nat_text(n as nat),
    decreases n,
{
    if n >= 10 {
        push_u64_text(s, n / 10);
        push_char(s, digit_of(n % 10));
        assert(nat_text(n as nat) == nat_text((n / 10) as nat).push(digit_char((n % 10) as nat)));
        assert(old(s)@ + nat_text(n as nat) =~= (old(s)@ + nat_text((n / 10) as nat)).push(digit_char((n % 10) as nat)));
    } else {
        push_char(s, digit_of(n));
        assert(old(s)@ + nat_text(n as nat) =~= old(s)@.push(digit_char(n as nat)));
    }
}

/// Appends the decimal text of `n` (with `-` when negative) to `s`.
pub fn push_i64_text(s: &mut String, n: i64)
    ensures
        final(s)@ == old(s)@ + int_text(n as int),
{
    if n < 0 {
        push_char(s, '-');
        let m: u64 = if n == i64::MIN { 9223372036854775808u64 } else { (-n) as u64 };
        push_u64_text(s, m);
        assert(old(s)@ + int_text(n as int) =~= old(s)@.push('-') + nat_text(m as nat));
    } else {
        push_u64_text(s, n as u64);
    }
}

/// Appends the decimal text of `n` to `s`.
pub fn push_usize_text(s: &mut String, n: usize)
    ensures
        final(s)@ == old(s)@ + nat_text(n as nat),
{
    push_u64_text(s, n as u64);
}

/// Appends a string slice to `s`.
pub fn push_text(s: &mut String, t: &str)
    ensures
        final(s)@ == old(s)@ + t@,
{
    s.append(t);
}

/// A new string holding the text of a literal.
pub fn text(t: &str) -> (r: String)
    ensures
        r@ == t@,
{
    String::from_str(t)
}

/// The characters of a string slice, in order.
pub fn chars_of(s: &str) -> (r: Vec<char>)
    ensures
        r@ == s@,
{
    let mut v: Vec<char> = Vec::new();
    for c in it: s.chars()
        invariant
            v@ == it.seq().take(it.index() as int),
    {
        v.push(c);
        assert(v@ =~= it.seq().take(it.index() as int + 1));
    }
    assert(v@ =~= s@);
    v
}

/// The string made of the characters `cs[from..to]`.
pub fn string_of(cs: &Vec<char>, from: usize, to: usize) -> (r: String)
    requires
        from <= to <= cs@.len(),
    ensures
        r@ == cs@.subrange(from as int, to as int),
{
    let mut s = String::new();
    let mut i = from;
    while i < to
        invariant
            from <= i <= to <= cs@.len(),
            s@ == cs@.subrange(from as int, i as int),
        decreases to - i,
    {
        push_char(&mut s, cs[i]);
        i = i + 1;
        assert(s@ =~= cs@.subrange(from as int, i as int));
    }
    s
}

/// The decimal text of an `i64`.
pub fn i64_text(n: i64) -> (r: String)
    ensures
        r@ == int_text(n as int),
{
    let mut s = String::new();
    push_i64_text(&mut s, n);
    assert(s@ =~= int_text(n as int));
    s
}

/// Do two strings hold the same text?
pub fn same_text(a: &String, b: &String) -> (r: bool)
    ensures
        r == (a@ == b@),
{
    a.eq(b)
}

/// Does a string hold the same text as a slice?
pub fn same_as_str(a: &String, b: &str) -> (r: bool)
    ensures
        r == (a@ == b@),
{
    let t = String::from_str(b);
    a.eq(&t)
}

} // verus!
