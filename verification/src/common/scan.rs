//! Scanning helpers that both lexers share: where an identifier or a run of
//! digits ends, and the value of a run of digits.
use vstd::prelude::*;
use crate::common::text::{
    is_alphanumeric_char, is_digit_char, digit_value, char_is_alphanumeric, char_is_digit,
};

verus! {

/// Can the character continue an identifier?
pub open spec fn is_ident_char(c: char) -> bool {
    is_alphanumeric_char(c) || c == '_'
}

/// The end of the run of identifier characters that starts at `j`.
pub open spec fn ident_end(cs: Seq<char>, j: int) -> int
    decreases cs.len() - j,
{
    if j < 0 || j >= cs.len() || !is_ident_char(cs[j]) {
        j
    } else {
        ident_end(cs, j + 1)
    }
}

/// The end of the run of ASCII digits that starts at `j`.
pub open spec fn digits_end(cs: Seq<char>, j: int) -> int
    decreases cs.len() - j,
{
    if j < 0 || j >= cs.len() || !is_digit_char(cs[j]) {
        j
    } else {
        digits_end(cs, j + 1)
    }
}

/// The number that the digits `cs[i..j]` stand for.
pub open spec fn digits_value(cs: Seq<char>, i: int, j: int) -> nat
    decreases j - i,
{
    if j <= i {
        0
    } else {
        digits_value(cs, i, j - 1) * 10 + digit_value(cs[j - 1])
    }
}

pub proof fn lemma_ident_end_bounds(cs: Seq<char>, j: int)
    requires
        0 <= j <= cs.len(),
    ensures
        j <= ident_end(cs, j) <= cs.len(),
    decreases cs.len() - j,
{
    if j < cs.len() && is_ident_char(cs[j]) {
        lemma_ident_end_bounds(cs, j + 1);
    }
}

pub proof fn lemma_digits_end_bounds(cs: Seq<char>, j: int)
    requires
        0 <= j <= cs.len(),
    ensures
        j <= digits_end(cs, j) <= cs.len(),
        forall|k: int| j <= k < digits_end(cs, j) ==> is_digit_char(#[trigger] cs[k]),
    decreases cs.len() - j,
{
    if j < cs.len() && is_digit_char(cs[j]) {
        lemma_digits_end_bounds(cs, j + 1);
    }
}

proof fn lemma_digits_value_grows(cs: Seq<char>, i: int, k: int, j: int)
    requires
        i <= k <= j,
    ensures
        digits_value(cs, i, k) <= digits_value(cs, i, j),
    decreases j - k,
{
    if k < j {
        lemma_digits_value_grows(cs, i, k, j - 1);
    }
}

/// Runs that start inside `a` end at the same place in a text `cs` that
/// begins with `a` and goes on with a character that continues neither an
/// identifier nor a number.
pub proof fn lemma_runs_stop_at_break(a: Seq<char>, cs: Seq<char>, j: int)
    requires
        a.len() < cs.len(),
        forall|k: int| 0 <= k < a.len() ==> #[trigger] cs[k] == a[k],
        !is_ident_char(cs[a.len() as int]),
        !is_digit_char(cs[a.len() as int]),
        0 <= j <= a.len(),
    ensures
        ident_end(cs, j) == ident_end(a, j),
        digits_end(cs, j) == digits_end(a, j),
    decreases a.len() - j,
{
    if j < a.len() {
        lemma_runs_stop_at_break(a, cs, j + 1);
    }
}

/// The value of digits inside `a` is the same in a text that begins with `a`.
pub proof fn lemma_digits_value_prefix(a: Seq<char>, cs: Seq<char>, i: int, j: int)
    requires
        a.len() <= cs.len(),
        forall|k: int| 0 <= k < a.len() ==> #[trigger] cs[k] == a[k],
        0 <= i,
        j <= a.len(),
    ensures
        digits_value(cs, i, j) == digits_value(a, i, j),
    decreases j - i,
{
    if i < j {
        lemma_digits_value_prefix(a, cs, i, j - 1);
    }
}

/// Runs inside the text `b` that `cs` ends with, from `p` on, end where
/// they end in `b`, shifted by `p`, and digits have the same value.
pub proof fn lemma_runs_shift(b: Seq<char>, cs: Seq<char>, p: int, j: int)
    requires
        0 <= p,
        p + b.len() == cs.len(),
        forall|k: int| 0 <= k < b.len() ==> #[trigger] cs[p + k] == b[k],
        0 <= j <= b.len(),
    ensures
        ident_end(cs, p + j) == p + ident_end(b, j),
        digits_end(cs, p + j) == p + digits_end(b, j),
    decreases b.len() - j,
{
    if j < b.len() {
        lemma_runs_shift(b, cs, p, j + 1);
        assert(cs[p + j] == b[j]);
        assert(p + j + 1 == p + (j + 1));
    }
}

/// The value of digits inside the text `b` that `cs` ends with, from `p`
/// on, is their value in `b`.
pub proof fn lemma_digits_value_shift(b: Seq<char>, cs: Seq<char>, p: int, i: int, j: int)
    requires
        0 <= p,
        p + b.len() == cs.len(),
        forall|k: int| 0 <= k < b.len() ==> #[trigger] cs[p + k] == b[k],
        0 <= i,
        j <= b.len(),
    ensures
        digits_value(cs, p + i, p + j) == digits_value(b, i, j),
    decreases j - i,
{
    if i < j {
        lemma_digits_value_shift(b, cs, p, i, j - 1);
        assert(cs[p + j - 1] == b[j - 1]);
        assert(p + j - 1 == p + (j - 1));
    }
}

/// Where the run of identifier characters that starts at `j` ends.
pub fn scan_ident_end(cs: &Vec<char>, j: usize) -> (r: usize)
    requires
        j <= cs@.len(),
    ensures
        r == ident_end(cs@, j as int),
        j <= r <= cs@.len(),
{
    let mut k = j;
    while k < cs.len() && (char_is_alphanumeric(cs[k]) || cs[k] == '_')
        invariant
            j <= k <= cs@.len(),
            ident_end(cs@, j as int) == ident_end(cs@, k as int),
        decreases cs@.len() - k,
    {
        k = k + 1;
    }
    k
}

/// Where the run of ASCII digits that starts at `j` ends.
pub fn scan_digits_end(cs: &Vec<char>, j: usize) -> (r: usize)
    requires
        j <= cs@.len(),
    ensures
        r == digits_end(cs@, j as int),
        j <= r <= cs@.len(),
{
    let mut k = j;
    while k < cs.len() && char_is_digit(cs[k])
        invariant
            j <= k <= cs@.len(),
            digits_end(cs@, j as int) == digits_end(cs@, k as int),
        decreases cs@.len() - k,
    {
        k = k + 1;
    }
    k
}

/// The value of the digits `cs[i..j]` as an `i64`, or `None` when it is
/// larger than `i64::MAX`.
pub fn digits_to_i64(cs: &Vec<char>, i: usize, j: usize) -> (r: Option<i64>)
    requires
        i <= j <= cs@.len(),
        forall|k: int| i <= k < j ==> is_digit_char(#[trigger] cs@[k]),
    ensures
        match r {
            Some(v) => v as int == digits_value(cs@, i as int, j as int),
            None => digits_value(cs@, i as int, j as int) > i64::MAX,
        },
{
    let mut acc: i64 = 0;
    let mut k = i;
    while k < j
        invariant
            i <= k <= j <= cs@.len(),
            forall|m: int| i <= m < j ==> is_digit_char(#[trigger] cs@[m]),
            acc as int == digits_value(cs@, i as int, k as int),
        decreases j - k,
    {
        let c = cs[k];
        assert(is_digit_char(cs@[k as int]));
        let d: i64 = (c as u32 - '0' as u32) as i64;
        assert(d == digit_value(c));
        match acc.checked_mul(10) {
            Some(m) => match m.checked_add(d) {
                Some(n) => {
                    acc = n;
                },
                None => {
                    proof {
                        lemma_digits_value_grows(cs@, i as int, k as int + 1, j as int);
                    }
                    return None;
                },
            },
            None => {
                proof {
                    lemma_digits_value_grows(cs@, i as int, k as int + 1, j as int);
                }
                return None;
            },
        }
        k = k + 1;
    }
    Some(acc)
}

} // verus!
