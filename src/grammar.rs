//! The accepted input language, stated as spec functions over the input's
//! characters. Each rule takes a position and gives what it reads there and the
//! position after it.
use vstd::prelude::*;
use crate::ir::{TableVal, Val};

verus! {

/// The kinds of character that the grammar skips over as a run.
#[derive(Clone, Copy, Debug, PartialEq, Eq)]
pub enum CharClass {
    /// Space, tab, carriage return, newline.
    Blank,
    /// Space, tab.
    Space,
    Digit,
    /// ASCII alphanumerics, `-`, `_`.
    IdentChar,
    /// Anything but a double quote.
    NotQuote,
}

pub open spec fn is_digit(c: char) -> bool {
    '0' <= c && c <= '9'
}

pub open spec fn is_ident_char(c: char) -> bool {
    is_digit(c) || ('a' <= c && c <= 'z') || ('A' <= c && c <= 'Z') || c == '-' || c == '_'
}

pub open spec fn in_class(c: char, k: CharClass) -> bool {
    match k {
        CharClass::Blank => c == ' ' || c == '\t' || c == '\r' || c == '\n',
        CharClass::Space => c == ' ' || c == '\t',
        CharClass::Digit => is_digit(c),
        CharClass::IdentChar => is_ident_char(c),
        CharClass::NotQuote => c != '"',
    }
}

/// The first position at or after `p` whose character is not of class `k`.
pub open spec fn skip(s: Seq<char>, p: int, k: CharClass) -> int
    decreases s.len() - p,
{
    if 0 <= p < s.len() && in_class(s[p], k) {
        skip(s, p + 1, k)
    } else {
        p
    }
}

pub proof fn lemma_skip(s: Seq<char>, p: int, k: CharClass)
    requires
        0 <= p <= s.len(),
    ensures
        p <= skip(s, p, k) <= s.len(),
        forall|i: int| p <= i < skip(s, p, k) ==> in_class(#[trigger] s[i], k),
        skip(s, p, k) < s.len() ==> !in_class(s[skip(s, p, k)], k),
    decreases s.len() - p,
{
    if p < s.len() && in_class(s[p], k) {
        lemma_skip(s, p + 1, k);
    }
}

/// `s[p] == c`, with `p` in bounds.
pub open spec fn at(s: Seq<char>, p: int, c: char) -> bool {
    0 <= p < s.len() && s[p] == c
}

pub open spec fn digit_value(c: char) -> int {
    (c as u32) as int - 48
}

/// The number that a run of decimal digits denotes.
pub open spec fn digits_value(d: Seq<char>) -> int
    decreases d.len(),
{
    if d.len() == 0 {
        0
    } else {
        digits_value(d.drop_last()) * 10 + digit_value(d.last())
    }
}

pub open spec fn spec_boolean(s: Seq<char>, p: int) -> Option<(bool, int)> {
    if 0 <= p && p + 4 <= s.len() && s.subrange(p, p + 4) == seq!['t', 'r', 'u', 'e'] {
        Some((true, p + 4))
    } else if 0 <= p && p + 5 <= s.len() && s.subrange(p, p + 5) == seq!['f', 'a', 'l', 's', 'e'] {
        Some((false, p + 5))
    } else {
        None
    }
}

/// Digits that are not the start of `digits '.' digits`, and whose value fits in `i64`.
pub open spec fn spec_integer(s: Seq<char>, p: int) -> Option<(int, int)> {
    let e = skip(s, p, CharClass::Digit);
    if !(0 <= p <= s.len()) || e == p {
        None
    } else if at(s, e, '.') && e + 1 < s.len() && is_digit(s[e + 1]) {
        None
    } else if digits_value(s.subrange(p, e)) <= i64::MAX {
        Some((digits_value(s.subrange(p, e)), e))
    } else {
        None
    }
}

/// End of the mantissa of a float that starts at `q` (after any sign), or -1.
pub open spec fn mantissa_end(s: Seq<char>, q: int) -> int {
    let d = skip(s, q, CharClass::Digit);
    if d > q {
        if at(s, d, '.') {
            skip(s, d + 1, CharClass::Digit)
        } else {
            d
        }
    } else if at(s, q, '.') && skip(s, q + 1, CharClass::Digit) > q + 1 {
        skip(s, q + 1, CharClass::Digit)
    } else {
        -1
    }
}

/// End of the float whose mantissa ends at `m`: after `e`/`E`, an optional sign and
/// digits when digits follow, else `m` itself.
pub open spec fn exponent_end(s: Seq<char>, m: int) -> int {
    if at(s, m, 'e') || at(s, m, 'E') {
        let r = if at(s, m + 1, '+') || at(s, m + 1, '-') { m + 2 } else { m + 1 };
        if skip(s, r, CharClass::Digit) > r {
            skip(s, r, CharClass::Digit)
        } else {
            m
        }
    } else {
        m
    }
}

/// An optional sign, then `digits ['.' digits?]` or `'.' digits`, then an optional exponent.
pub open spec fn spec_float(s: Seq<char>, p: int) -> Option<(Seq<char>, int)> {
    let q = if at(s, p, '+') || at(s, p, '-') { p + 1 } else { p };
    let m = mantissa_end(s, q);
    if !(0 <= p <= s.len()) || m < 0 {
        None
    } else {
        Some((s.subrange(p, exponent_end(s, m)), exponent_end(s, m)))
    }
}

/// `"` then anything but `"`, then `"`; no escapes.
pub open spec fn spec_string(s: Seq<char>, p: int) -> Option<(Seq<char>, int)> {
    let q = skip(s, p + 1, CharClass::NotQuote);
    if at(s, p, '"') && at(s, q, '"') {
        Some((s.subrange(p + 1, q), q + 1))
    } else {
        None
    }
}

pub open spec fn spec_identifier(s: Seq<char>, p: int) -> Option<(Seq<char>, int)> {
    let e = skip(s, p, CharClass::IdentChar);
    if 0 <= p <= s.len() && e > p {
        Some((s.subrange(p, e), e))
    } else {
        None
    }
}

/// A value: boolean, integer, float, string, array, inline table, tried in that order.
pub open spec fn spec_value(s: Seq<char>, p: int) -> Option<(Val, int)>
    decreases s.len() - p, 1int,
{
    if !(0 <= p <= s.len()) {
        None
    } else if let Some((b, e)) = spec_boolean(s, p) {
        Some((Val::Boolean(b), e))
    } else if let Some((i, e)) = spec_integer(s, p) {
        Some((Val::Integer(i), e))
    } else if let Some((f, e)) = spec_float(s, p) {
        Some((Val::Float(f), e))
    } else if let Some((t, e)) = spec_string(s, p) {
        Some((Val::Str(t), e))
    } else if let Some((a, e)) = spec_array(s, p) {
        Some((Val::Array(a), e))
    } else if let Some((t, e)) = spec_inline_table(s, p) {
        Some((Val::Table(t), e))
    } else {
        None
    }
}

/// The elements after the first of an array: each one `blank* ',' blank* value`.
/// Stops before a separator that no value follows.
pub open spec fn spec_array_rest(s: Seq<char>, c: int) -> (Seq<Val>, int)
    decreases s.len() - c, 0int,
{
    if !(0 <= c <= s.len()) {
        (Seq::empty(), c)
    } else {
        let c1 = skip(s, c, CharClass::Blank);
        let c2 = skip(s, c1 + 1, CharClass::Blank);
        proof {
            lemma_skip(s, c, CharClass::Blank);
            if c1 < s.len() {
                lemma_skip(s, c1 + 1, CharClass::Blank);
            }
        }
        if at(s, c1, ',') {
            if let Some((v, e)) = spec_value(s, c2) {
                if c2 < e <= s.len() {
                    let (rest, end) = spec_array_rest(s, e);
                    (seq![v] + rest, end)
                } else {
                    (Seq::empty(), c)
                }
            } else {
                (Seq::empty(), c)
            }
        } else {
            (Seq::empty(), c)
        }
    }
}

/// `'[' blank* (value (sep value)*)? blank* ']'`.
pub open spec fn spec_array(s: Seq<char>, p: int) -> Option<(Seq<Val>, int)>
    decreases s.len() - p, 0int,
{
    if !at(s, p, '[') {
        None
    } else {
        let q = skip(s, p + 1, CharClass::Blank);
        proof {
            lemma_skip(s, p + 1, CharClass::Blank);
        }
        let (items, e) = if let Some((v, e1)) = spec_value(s, q) {
            if q < e1 <= s.len() {
                let (rest, e2) = spec_array_rest(s, e1);
                (seq![v] + rest, e2)
            } else {
                (Seq::empty(), q)
            }
        } else {
            (Seq::empty(), q)
        };
        let f = skip(s, e, CharClass::Blank);
        if at(s, f, ']') {
            Some((items, f + 1))
        } else {
            None
        }
    }
}

/// `identifier space* '=' space* value`.
pub open spec fn spec_pair(s: Seq<char>, p: int) -> Option<((Seq<char>, Val), int)>
    decreases s.len() - p, 0int,
{
    if let Some((k, e)) = spec_identifier(s, p) {
        let q = skip(s, e, CharClass::Space);
        let r = skip(s, q + 1, CharClass::Space);
        proof {
            lemma_skip(s, p, CharClass::IdentChar);
            lemma_skip(s, e, CharClass::Space);
            if q < s.len() {
                lemma_skip(s, q + 1, CharClass::Space);
            }
        }
        if at(s, q, '=') {
            if let Some((v, f)) = spec_value(s, r) {
                Some(((k, v), f))
            } else {
                None
            }
        } else {
            None
        }
    } else {
        None
    }
}

/// The pairs after the first of an inline table, as in `spec_array_rest`.
pub open spec fn spec_inline_rest(s: Seq<char>, c: int) -> (Seq<(Seq<char>, Val)>, int)
    decreases s.len() - c, 0int,
{
    if !(0 <= c <= s.len()) {
        (Seq::empty(), c)
    } else {
        let c1 = skip(s, c, CharClass::Blank);
        let c2 = skip(s, c1 + 1, CharClass::Blank);
        proof {
            lemma_skip(s, c, CharClass::Blank);
            if c1 < s.len() {
                lemma_skip(s, c1 + 1, CharClass::Blank);
            }
        }
        if at(s, c1, ',') {
            if let Some((pr, e)) = spec_pair(s, c2) {
                if c2 < e <= s.len() {
                    let (rest, end) = spec_inline_rest(s, e);
                    (seq![pr] + rest, end)
                } else {
                    (Seq::empty(), c)
                }
            } else {
                (Seq::empty(), c)
            }
        } else {
            (Seq::empty(), c)
        }
    }
}

/// `'{' blank* (pair (sep pair)*)? blank* '}'`.
pub open spec fn spec_inline_table(s: Seq<char>, p: int) -> Option<(Seq<(Seq<char>, Val)>, int)>
    decreases s.len() - p, 0int,
{
    if !at(s, p, '{') {
        None
    } else {
        let q = skip(s, p + 1, CharClass::Blank);
        proof {
            lemma_skip(s, p + 1, CharClass::Blank);
        }
        let (items, e) = if let Some((pr, e1)) = spec_pair(s, q) {
            if q < e1 <= s.len() {
                let (rest, e2) = spec_inline_rest(s, e1);
                (seq![pr] + rest, e2)
            } else {
                (Seq::empty(), q)
            }
        } else {
            (Seq::empty(), q)
        };
        let f = skip(s, e, CharClass::Blank);
        if at(s, f, '}') {
            Some((items, f + 1))
        } else {
            None
        }
    }
}

/// One line of a table body: `blank* pair space*`.
pub open spec fn spec_body_item(s: Seq<char>, p: int) -> Option<((Seq<char>, Val), int)> {
    if let Some((pr, e)) = spec_pair(s, skip(s, p, CharClass::Blank)) {
        Some((pr, skip(s, e, CharClass::Space)))
    } else {
        None
    }
}

/// The lines after the first of a table body, each after one newline.
pub open spec fn spec_body_rest(s: Seq<char>, c: int) -> (Seq<(Seq<char>, Val)>, int)
    decreases s.len() - c,
{
    if at(s, c, '\n') {
        if let Some((pr, e)) = spec_body_item(s, c + 1) {
            if c < e <= s.len() {
                let (rest, end) = spec_body_rest(s, e);
                (seq![pr] + rest, end)
            } else {
                (Seq::empty(), c)
            }
        } else {
            (Seq::empty(), c)
        }
    } else {
        (Seq::empty(), c)
    }
}

/// The pairs of a table body, possibly none.
pub open spec fn spec_body(s: Seq<char>, p: int) -> (Seq<(Seq<char>, Val)>, int) {
    if let Some((pr, e)) = spec_body_item(s, p) {
        if p < e <= s.len() {
            let (rest, end) = spec_body_rest(s, e);
            (seq![pr] + rest, end)
        } else {
            (Seq::empty(), p)
        }
    } else {
        (Seq::empty(), p)
    }
}

/// `blank* '[' space* identifier space* ']' space* '\n'`.
pub open spec fn spec_header(s: Seq<char>, p: int) -> Option<(Seq<char>, int)> {
    let q = skip(s, p, CharClass::Blank);
    if at(s, q, '[') {
        if let Some((id, e)) = spec_identifier(s, skip(s, q + 1, CharClass::Space)) {
            let t = skip(s, e, CharClass::Space);
            let u = skip(s, t + 1, CharClass::Space);
            if at(s, t, ']') && at(s, u, '\n') {
                Some((id, u + 1))
            } else {
                None
            }
        } else {
            None
        }
    } else {
        None
    }
}

pub open spec fn spec_table(s: Seq<char>, p: int) -> Option<(TableVal, int)> {
    if let Some((id, e)) = spec_header(s, p) {
        Some(((id, spec_body(s, e).0), spec_body(s, e).1))
    } else {
        None
    }
}

/// As many tables as follow one another from `p`.
pub open spec fn spec_tables(s: Seq<char>, p: int) -> (Seq<TableVal>, int)
    decreases s.len() - p,
{
    if let Some((t, e)) = spec_table(s, p) {
        if p < e <= s.len() {
            let (rest, end) = spec_tables(s, e);
            (seq![t] + rest, end)
        } else {
            (Seq::empty(), p)
        }
    } else {
        (Seq::empty(), p)
    }
}

/// Where parsing of the whole text stops: after the leading pairs, the tables and
/// any blank characters.
pub open spec fn document_end(s: Seq<char>) -> int {
    skip(s, spec_tables(s, spec_body(s, 0).1).1, CharClass::Blank)
}

/// The document that `s` denotes, or the part of `s` that could not be read. Pairs
/// before the first header form a first table with an empty header.
pub open spec fn spec_document(s: Seq<char>) -> Result<Seq<TableVal>, Seq<char>> {
    let root = spec_body(s, 0).0;
    let tables = spec_tables(s, spec_body(s, 0).1).0;
    if document_end(s) == s.len() {
        if root.len() > 0 {
            Ok(seq![(Seq::<char>::empty(), root)] + tables)
        } else {
            Ok(tables)
        }
    } else {
        Err(s.subrange(document_end(s), s.len() as int))
    }
}

/// An identifier is a longest run of ASCII alphanumerics, `-` and `_`: it is not
/// empty, holds no `.` and no whitespace, and no such character follows it.
pub proof fn lemma_identifier_chars(s: Seq<char>, p: int)
    requires
        spec_identifier(s, p) is Some,
    ensures
        ({
            let (id, e) = spec_identifier(s, p)->Some_0;
            &&& id.len() > 0
            &&& forall|i: int| 0 <= i < id.len() ==> is_ident_char(#[trigger] id[i])
            &&& !id.contains('.')
            &&& !id.contains(' ') && !id.contains('\t') && !id.contains('\r') && !id.contains('\n')
            &&& e < s.len() ==> !is_ident_char(s[e])
        }),
{
    lemma_skip(s, p, CharClass::IdentChar);
    let (id, e) = spec_identifier(s, p)->Some_0;
    assert forall|i: int| 0 <= i < id.len() implies is_ident_char(#[trigger] id[i]) by {
        assert(id[i] == s[p + i]);
        assert(in_class(s[p + i], CharClass::IdentChar));
    }
    assert forall|c: char| !is_ident_char(c) implies !id.contains(c) by {
        if id.contains(c) {
            let j = choose|j: int| 0 <= j < id.len() && id[j] == c;
            assert(is_ident_char(id[j]));
        }
    }
}

} // verus!
