//! The parser: reads text into the document tree, as `grammar` states.
use vstd::prelude::*;
use crate::grammar::{
    at, digits_value, exponent_end, in_class, lemma_skip, mantissa_end, skip, spec_array,
    spec_array_rest, spec_body, spec_body_item, spec_body_rest, spec_boolean, spec_document,
    spec_float, spec_header, spec_identifier, spec_inline_rest, spec_inline_table, spec_integer,
    spec_pair, spec_string, spec_table, spec_tables, spec_value, CharClass,
};
use crate::ir::{
    lemma_pairs_view_push, lemma_tables_view_push, lemma_values_view_push, values_view,
    lemma_pairs_view_len, pairs_view, tables_view, TableVal, Val, ParseError, Array, Document, FloatLiteral, Identifier, InlineTable, Pair, Table,
    Value,
};
use crate::text::{chars_of, string_of};

verus! {

pub open spec fn lift<T: View>(r: Option<(T, usize)>) -> Option<(T::V, int)> {
    match r {
        Some((t, e)) => Some((t@, e as int)),
        None => None,
    }
}

fn char_in_class(c: char, k: CharClass) -> (r: bool)
    ensures
        r == in_class(c, k),
{
    match k {
        CharClass::Blank => c == ' ' || c == '\t' || c == '\r' || c == '\n',
        CharClass::Space => c == ' ' || c == '\t',
        CharClass::Digit => '0' <= c && c <= '9',
        CharClass::IdentChar => ('0' <= c && c <= '9') || ('a' <= c && c <= 'z') || ('A' <= c
            && c <= 'Z') || c == '-' || c == '_',
        CharClass::NotQuote => c != '"',
    }
}

fn skip_at(s: &Vec<char>, p: usize, k: CharClass) -> (r: usize)
    requires
        p <= s@.len(),
    ensures
        r == skip(s@, p as int, k),
        p <= r <= s@.len() <= usize::MAX,
{
    proof {
        lemma_skip(s@, p as int, k);
    }
    let mut i: usize = p;
    while i < s.len() && char_in_class(s[i], k)
        invariant
            p <= i <= s@.len(),
            skip(s@, i as int, k) == skip(s@, p as int, k),
        decreases s@.len() - i,
    {
        i = i + 1;
    }
    i
}

fn char_at(s: &Vec<char>, p: usize, c: char) -> (r: bool)
    ensures
        r == at(s@, p as int, c),
        s@.len() <= usize::MAX,
{
    p < s.len() && s[p] == c
}

fn boolean_at(s: &Vec<char>, p: usize) -> (r: Option<(bool, usize)>)
    requires
        p <= s@.len(),
    ensures
        lift(r) == spec_boolean(s@, p as int),
{
    let n = s.len();
    if n >= 4 && p <= n - 4 && s[p] == 't' && s[p + 1] == 'r' && s[p + 2] == 'u' && s[p + 3]
        == 'e' {
        assert(s@.subrange(p as int, p + 4) =~= seq!['t', 'r', 'u', 'e']);
        return Some((true, p + 4));
    }
    if n >= 4 && p <= n - 4 {
        assert(s@.subrange(p as int, p + 4)[0] == s@[p as int]);
        assert(s@.subrange(p as int, p + 4)[1] == s@[p + 1]);
        assert(s@.subrange(p as int, p + 4)[2] == s@[p + 2]);
        assert(s@.subrange(p as int, p + 4)[3] == s@[p + 3]);
    }
    if n >= 5 && p <= n - 5 && s[p] == 'f' && s[p + 1] == 'a' && s[p + 2] == 'l' && s[p + 3]
        == 's' && s[p + 4] == 'e' {
        assert(s@.subrange(p as int, p + 5) =~= seq!['f', 'a', 'l', 's', 'e']);
        return Some((false, p + 5));
    }
    if n >= 5 && p <= n - 5 {
        assert(s@.subrange(p as int, p + 5)[0] == s@[p as int]);
        assert(s@.subrange(p as int, p + 5)[1] == s@[p + 1]);
        assert(s@.subrange(p as int, p + 5)[2] == s@[p + 2]);
        assert(s@.subrange(p as int, p + 5)[3] == s@[p + 3]);
        assert(s@.subrange(p as int, p + 5)[4] == s@[p + 4]);
    }
    None
}

fn integer_at(s: &Vec<char>, p: usize) -> (r: Option<(i64, usize)>)
    requires
        p <= s@.len(),
    ensures
        match r {
            Some((v, e)) => spec_integer(s@, p as int) == Some((v as int, e as int)),
            None => spec_integer(s@, p as int) is None,
        },
{
    let e = skip_at(s, p, CharClass::Digit);
    proof {
        lemma_skip(s@, p as int, CharClass::Digit);
    }
    if e == p {
        return None;
    }
    if char_at(s, e, '.') && e + 1 < s.len() && char_in_class(s[e + 1], CharClass::Digit) {
        return None;
    }
    let mut acc: u64 = 0;
    let mut over = false;
    let mut i: usize = p;
    while i < e
        invariant
            p <= i <= e <= s@.len(),
            e == skip(s@, p as int, CharClass::Digit),
            forall|j: int| p <= j < e ==> in_class(#[trigger] s@[j], CharClass::Digit),
            !over ==> acc as int == digits_value(s@.subrange(p as int, i as int)) && acc
                <= i64::MAX,
            over ==> digits_value(s@.subrange(p as int, i as int)) > i64::MAX,
        decreases e - i,
    {
        assert(in_class(s@[i as int], CharClass::Digit));
        let d: u64 = (s[i] as u32 - 48) as u64;
        let ghost before = digits_value(s@.subrange(p as int, i as int));
        proof {
            assert(s@.subrange(p as int, i + 1).drop_last() =~= s@.subrange(p as int, i as int));
            assert(digits_value(s@.subrange(p as int, i + 1)) == before * 10 + d);
        }
        if !over {
            if acc <= (9223372036854775807u64 - d) / 10 {
                assert(acc * 10 + d <= 9223372036854775807u64) by (nonlinear_arith)
                    requires
                        d <= 9,
                        acc <= (9223372036854775807u64 - d) / 10,
                ;
                acc = acc * 10 + d;
            } else {
                assert(acc * 10 + d > 9223372036854775807u64) by (nonlinear_arith)
                    requires
                        d <= 9,
                        acc > (9223372036854775807u64 - d) / 10,
                ;
                over = true;
            }
        } else {
            assert(before * 10 + d > i64::MAX) by (nonlinear_arith)
                requires
                    before > i64::MAX,
                    d >= 0,
            ;
        }
        i = i + 1;
    }
    if over {
        None
    } else {
        Some((acc as i64, e))
    }
}

fn float_at(s: &Vec<char>, p: usize) -> (r: Option<(FloatLiteral, usize)>)
    requires
        p <= s@.len(),
    ensures
        lift(r) == spec_float(s@, p as int),
        r is Some ==> p < r->Some_0.1 <= s@.len(),
{
    let q = if char_at(s, p, '+') || char_at(s, p, '-') {
        p + 1
    } else {
        p
    };
    let d = skip_at(s, q, CharClass::Digit);
    let m = if d > q {
        if char_at(s, d, '.') {
            skip_at(s, d + 1, CharClass::Digit)
        } else {
            d
        }
    } else if char_at(s, q, '.') && skip_at(s, q + 1, CharClass::Digit) > q + 1 {
        skip_at(s, q + 1, CharClass::Digit)
    } else {
        return None;
    };
    assert(m == mantissa_end(s@, q as int));
    let end = if char_at(s, m, 'e') || char_at(s, m, 'E') {
        let r = if char_at(s, m + 1, '+') || char_at(s, m + 1, '-') {
            m + 2
        } else {
            m + 1
        };
        let x = skip_at(s, r, CharClass::Digit);
        if x > r {
            x
        } else {
            m
        }
    } else {
        m
    };
    assert(end == exponent_end(s@, m as int));
    Some((FloatLiteral(string_of(s, p, end)), end))
}

fn string_at(s: &Vec<char>, p: usize) -> (r: Option<(String, usize)>)
    requires
        p <= s@.len(),
    ensures
        lift(r) == spec_string(s@, p as int),
        r is Some ==> p < r->Some_0.1 <= s@.len(),
{
    if !char_at(s, p, '"') {
        return None;
    }
    let q = skip_at(s, p + 1, CharClass::NotQuote);
    if char_at(s, q, '"') {
        Some((string_of(s, p + 1, q), q + 1))
    } else {
        None
    }
}

fn identifier_at(s: &Vec<char>, p: usize) -> (r: Option<(Identifier, usize)>)
    requires
        p <= s@.len(),
    ensures
        lift(r) == spec_identifier(s@, p as int),
        r is Some ==> p < r->Some_0.1 <= s@.len(),
{
    let e = skip_at(s, p, CharClass::IdentChar);
    if e > p {
        Some((Identifier(string_of(s, p, e)), e))
    } else {
        None
    }
}

fn value_at(s: &Vec<char>, p: usize) -> (r: Option<(Value, usize)>)
    requires
        p <= s@.len(),
    ensures
        lift(r) == spec_value(s@, p as int),
        r is Some ==> p < r->Some_0.1 <= s@.len(),
    decreases s@.len() - p, 1int,
{
    if let Some((b, e)) = boolean_at(s, p) {
        return Some((Value::Boolean(b), e));
    }
    if let Some((i, e)) = integer_at(s, p) {
        proof {
            lemma_skip(s@, p as int, CharClass::Digit);
        }
        return Some((Value::Integer(i), e));
    }
    if let Some((f, e)) = float_at(s, p) {
        return Some((Value::Float(f), e));
    }
    if let Some((t, e)) = string_at(s, p) {
        return Some((Value::String(t), e));
    }
    if let Some((a, e)) = array_at(s, p) {
        return Some((Value::Array(a), e));
    }
    if let Some((t, e)) = inline_table_at(s, p) {
        return Some((Value::InlineTable(t), e));
    }
    None
}

fn array_at(s: &Vec<char>, p: usize) -> (r: Option<(Array, usize)>)
    requires
        p <= s@.len(),
    ensures
        lift(r) == spec_array(s@, p as int),
        r is Some ==> p < r->Some_0.1 <= s@.len(),
    decreases s@.len() - p, 0int,
{
    if !char_at(s, p, '[') {
        return None;
    }
    let q = skip_at(s, p + 1, CharClass::Blank);
    let mut items: Vec<Value> = Vec::new();
    let mut c: usize = q;
    if let Some((v, e1)) = value_at(s, q) {
        let ghost first = v@;
        let ghost whole = spec_array_rest(s@, e1 as int);
        proof {
            lemma_values_view_push(items@, v);
        }
        items.push(v);
        c = e1;
        let mut done = false;
        while !done
            invariant
                p < q < c <= s@.len(),
                values_view(items@) + spec_array_rest(s@, c as int).0 == seq![first] + whole.0,
                spec_array_rest(s@, c as int).1 == whole.1,
                done ==> spec_array_rest(s@, c as int) == (Seq::<Val>::empty(), c as int),
            decreases s@.len() - c + (if done { 0int } else { 1int }),
        {
            let c1 = skip_at(s, c, CharClass::Blank);
            if !char_at(s, c1, ',') {
                done = true;
            } else {
                let c2 = skip_at(s, c1 + 1, CharClass::Blank);
                match value_at(s, c2) {
                    None => {
                        done = true;
                    },
                    Some((v, e)) => {
                        let ghost rest = spec_array_rest(s@, e as int);
                        proof {
                            lemma_values_view_push(items@, v);
                            assert(values_view(items@).push(v@) + rest.0 =~= values_view(items@)
                                + (seq![v@] + rest.0));
                        }
                        items.push(v);
                        c = e;
                    },
                }
            }
        }
        assert(values_view(items@) =~= values_view(items@) + Seq::<Val>::empty());
    }
    let f = skip_at(s, c, CharClass::Blank);
    if char_at(s, f, ']') {
        Some((Array(items), f + 1))
    } else {
        None
    }
}

fn pair_at(s: &Vec<char>, p: usize) -> (r: Option<(Pair, usize)>)
    requires
        p <= s@.len(),
    ensures
        lift(r) == spec_pair(s@, p as int),
        r is Some ==> p < r->Some_0.1 <= s@.len(),
    decreases s@.len() - p, 0int,
{
    let (key, e) = match identifier_at(s, p) {
        Some(x) => x,
        None => {
            return None;
        },
    };
    let q = skip_at(s, e, CharClass::Space);
    if !char_at(s, q, '=') {
        return None;
    }
    let r = skip_at(s, q + 1, CharClass::Space);
    match value_at(s, r) {
        Some((value, f)) => Some((Pair { key, value }, f)),
        None => None,
    }
}

fn inline_table_at(s: &Vec<char>, p: usize) -> (r: Option<(InlineTable, usize)>)
    requires
        p <= s@.len(),
    ensures
        lift(r) == spec_inline_table(s@, p as int),
        r is Some ==> p < r->Some_0.1 <= s@.len(),
    decreases s@.len() - p, 0int,
{
    if !char_at(s, p, '{') {
        return None;
    }
    let q = skip_at(s, p + 1, CharClass::Blank);
    let mut items: Vec<Pair> = Vec::new();
    let mut c: usize = q;
    if let Some((pr, e1)) = pair_at(s, q) {
        let ghost first = pr@;
        let ghost whole = spec_inline_rest(s@, e1 as int);
        proof {
            lemma_pairs_view_push(items@, pr);
        }
        items.push(pr);
        c = e1;
        let mut done = false;
        while !done
            invariant
                p < q < c <= s@.len(),
                pairs_view(items@) + spec_inline_rest(s@, c as int).0 == seq![first] + whole.0,
                spec_inline_rest(s@, c as int).1 == whole.1,
                done ==> spec_inline_rest(s@, c as int) == (Seq::<(Seq<char>, Val)>::empty(), c as int),
            decreases s@.len() - c + (if done { 0int } else { 1int }),
        {
            let c1 = skip_at(s, c, CharClass::Blank);
            if !char_at(s, c1, ',') {
                done = true;
            } else {
                let c2 = skip_at(s, c1 + 1, CharClass::Blank);
                match pair_at(s, c2) {
                    None => {
                        done = true;
                    },
                    Some((pr, e)) => {
                        let ghost rest = spec_inline_rest(s@, e as int);
                        proof {
                            lemma_pairs_view_push(items@, pr);
                            assert(pairs_view(items@).push(pr@) + rest.0 =~= pairs_view(items@)
                                + (seq![pr@] + rest.0));
                        }
                        items.push(pr);
                        c = e;
                    },
                }
            }
        }
        assert(pairs_view(items@) =~= pairs_view(items@) + Seq::<(Seq<char>, Val)>::empty());
    }
    let f = skip_at(s, c, CharClass::Blank);
    if char_at(s, f, '}') {
        Some((InlineTable(items), f + 1))
    } else {
        None
    }
}

fn body_item_at(s: &Vec<char>, p: usize) -> (r: Option<(Pair, usize)>)
    requires
        p <= s@.len(),
    ensures
        lift(r) == spec_body_item(s@, p as int),
        r is Some ==> p < r->Some_0.1 <= s@.len(),
{
    let q = skip_at(s, p, CharClass::Blank);
    match pair_at(s, q) {
        Some((pr, e)) => Some((pr, skip_at(s, e, CharClass::Space))),
        None => None,
    }
}

fn body_at(s: &Vec<char>, p: usize) -> (r: (InlineTable, usize))
    requires
        p <= s@.len(),
    ensures
        (r.0@, r.1 as int) == spec_body(s@, p as int),
        p <= r.1 <= s@.len(),
{
    let mut items: Vec<Pair> = Vec::new();
    let mut c: usize = p;
    if let Some((pr, e1)) = body_item_at(s, p) {
        let ghost first = pr@;
        let ghost whole = spec_body_rest(s@, e1 as int);
        proof {
            lemma_pairs_view_push(items@, pr);
        }
        items.push(pr);
        c = e1;
        let mut done = false;
        while !done
            invariant
                p < c <= s@.len(),
                pairs_view(items@) + spec_body_rest(s@, c as int).0 == seq![first] + whole.0,
                spec_body_rest(s@, c as int).1 == whole.1,
                done ==> spec_body_rest(s@, c as int) == (Seq::<(Seq<char>, Val)>::empty(), c as int),
            decreases s@.len() - c + (if done { 0int } else { 1int }),
        {
            if !char_at(s, c, '\n') {
                done = true;
            } else {
                match body_item_at(s, c + 1) {
                    None => {
                        done = true;
                    },
                    Some((pr, e)) => {
                        let ghost rest = spec_body_rest(s@, e as int);
                        proof {
                            lemma_pairs_view_push(items@, pr);
                            assert(pairs_view(items@).push(pr@) + rest.0 =~= pairs_view(items@)
                                + (seq![pr@] + rest.0));
                        }
                        items.push(pr);
                        c = e;
                    },
                }
            }
        }
        assert(pairs_view(items@) =~= pairs_view(items@) + Seq::<(Seq<char>, Val)>::empty());
    }
    (InlineTable(items), c)
}

fn header_at(s: &Vec<char>, p: usize) -> (r: Option<(Identifier, usize)>)
    requires
        p <= s@.len(),
    ensures
        lift(r) == spec_header(s@, p as int),
        r is Some ==> p < r->Some_0.1 <= s@.len(),
{
    let q = skip_at(s, p, CharClass::Blank);
    if !char_at(s, q, '[') {
        return None;
    }
    let (id, e) = match identifier_at(s, skip_at(s, q + 1, CharClass::Space)) {
        Some(x) => x,
        None => {
            return None;
        },
    };
    let t = skip_at(s, e, CharClass::Space);
    if !char_at(s, t, ']') {
        return None;
    }
    let u = skip_at(s, t + 1, CharClass::Space);
    if char_at(s, u, '\n') {
        Some((id, u + 1))
    } else {
        None
    }
}

fn table_at(s: &Vec<char>, p: usize) -> (r: Option<(Table, usize)>)
    requires
        p <= s@.len(),
    ensures
        lift(r) == spec_table(s@, p as int),
        r is Some ==> p < r->Some_0.1 <= s@.len(),
{
    match header_at(s, p) {
        Some((header, e)) => {
            let (body, f) = body_at(s, e);
            Some((Table { header, body }, f))
        },
        None => None,
    }
}

/// Appends to `out` the tables that follow one another from `p`; returns where
/// they end.
fn tables_at(s: &Vec<char>, p: usize, out: &mut Vec<Table>) -> (r: usize)
    requires
        p <= s@.len(),
    ensures
        tables_view(final(out)@) == tables_view(old(out)@) + spec_tables(s@, p as int).0,
        r == spec_tables(s@, p as int).1,
        p <= r <= s@.len(),
{
    let ghost start = tables_view(out@);
    let ghost whole = spec_tables(s@, p as int);
    let mut c: usize = p;
    let mut done = false;
    assert(tables_view(out@) =~= start + Seq::<TableVal>::empty());
    while !done
        invariant
            p <= c <= s@.len(),
            tables_view(out@) + spec_tables(s@, c as int).0 == start + whole.0,
            spec_tables(s@, c as int).1 == whole.1,
            done ==> spec_tables(s@, c as int) == (Seq::<TableVal>::empty(), c as int),
        decreases s@.len() - c + (if done { 0int } else { 1int }),
    {
        match table_at(s, c) {
            None => {
                done = true;
            },
            Some((t, e)) => {
                let ghost rest = spec_tables(s@, e as int);
                proof {
                    lemma_tables_view_push(out@, t);
                    assert(tables_view(out@).push(t@) + rest.0 =~= tables_view(out@) + (seq![t@]
                        + rest.0));
                }
                out.push(t);
                c = e;
            },
        }
    }
    assert(tables_view(out@) =~= tables_view(out@) + Seq::<TableVal>::empty());
    c
}

/// What a public parser gives for input `s` when the rule read `m` at its start:
/// the unread rest and the value, or an error holding the whole input.
pub open spec fn outcome<T: View>(
    r: Result<(String, T), ParseError>,
    s: Seq<char>,
    m: Option<(T::V, int)>,
) -> bool {
    match m {
        Some((v, e)) => r is Ok && r->Ok_0.0@ == s.subrange(e, s.len() as int) && r->Ok_0.1@ == v,
        None => r is Err && r->Err_0.rest@ == s,
    }
}

fn finish<T: View>(s: &Vec<char>, r: Option<(T, usize)>) -> (out: Result<(String, T), ParseError>)
    requires
        r is Some ==> r->Some_0.1 <= s@.len(),
    ensures
        outcome(out, s@, lift(r)),
{
    match r {
        Some((t, e)) => {
            let rest = string_of(s, e, s.len());
            let out = Ok((rest, t));
            assert(lift(r) == Some((t@, e as int)));
            out
        },
        None => {
            let rest = string_of(s, 0, s.len());
            assert(rest@ =~= s@);
            Err(ParseError { rest })
        },
    }
}

/// Reads `true` or `false` at the start of `s`.
pub fn parse_boolean(s: &str) -> (r: Result<(String, bool), ParseError>)
    ensures
        outcome(r, s@, spec_boolean(s@, 0)),
{
    let cs = chars_of(s);
    let b = boolean_at(&cs, 0);
    proof {
        if b is Some {
            assert(spec_boolean(s@, 0)->Some_0.1 <= s@.len());
        }
    }
    finish(&cs, b)
}

/// Reads a run of digits at the start of `s`, unless it begins a float or does
/// not fit in `i64`.
pub fn parse_integer(s: &str) -> (r: Result<(String, i64), ParseError>)
    ensures
        match spec_integer(s@, 0) {
            Some((v, e)) => r is Ok && r->Ok_0.0@ == s@.subrange(e, s@.len() as int) && r->Ok_0.1
                == v,
            None => r is Err && r->Err_0.rest@ == s@,
        },
{
    let cs = chars_of(s);
    let i = integer_at(&cs, 0);
    proof {
        lemma_skip(s@, 0, CharClass::Digit);
    }
    match i {
        Some((v, e)) => Ok((string_of(&cs, e, cs.len()), v)),
        None => Err(ParseError { rest: string_of(&cs, 0, cs.len()) }),
    }
}

/// Reads a float literal at the start of `s`.
pub fn parse_float(s: &str) -> (r: Result<(String, FloatLiteral), ParseError>)
    ensures
        outcome(r, s@, spec_float(s@, 0)),
{
    let cs = chars_of(s);
    finish(&cs, float_at(&cs, 0))
}

/// Reads a double-quoted string at the start of `s`.
pub fn parse_string(s: &str) -> (r: Result<(String, String), ParseError>)
    ensures
        outcome(r, s@, spec_string(s@, 0)),
{
    let cs = chars_of(s);
    finish(&cs, string_at(&cs, 0))
}

/// Reads an array at the start of `s`.
pub fn parse_array(s: &str) -> (r: Result<(String, Array), ParseError>)
    ensures
        outcome(r, s@, spec_array(s@, 0)),
{
    let cs = chars_of(s);
    finish(&cs, array_at(&cs, 0))
}

/// Reads an identifier at the start of `s`.
pub fn parse_identifier(s: &str) -> (r: Result<(String, Identifier), ParseError>)
    ensures
        outcome(r, s@, spec_identifier(s@, 0)),
{
    let cs = chars_of(s);
    finish(&cs, identifier_at(&cs, 0))
}

/// Reads `key = value` at the start of `s`.
pub fn parse_pair(s: &str) -> (r: Result<(String, Pair), ParseError>)
    ensures
        outcome(r, s@, spec_pair(s@, 0)),
{
    let cs = chars_of(s);
    finish(&cs, pair_at(&cs, 0))
}

/// Reads an inline table at the start of `s`.
pub fn parse_inline_table(s: &str) -> (r: Result<(String, InlineTable), ParseError>)
    ensures
        outcome(r, s@, spec_inline_table(s@, 0)),
{
    let cs = chars_of(s);
    finish(&cs, inline_table_at(&cs, 0))
}

/// Reads a value of any kind at the start of `s`.
pub fn parse_value(s: &str) -> (r: Result<(String, Value), ParseError>)
    ensures
        outcome(r, s@, spec_value(s@, 0)),
{
    let cs = chars_of(s);
    finish(&cs, value_at(&cs, 0))
}

/// Reads a table, header and body, at the start of `s`.
pub fn parse_table(s: &str) -> (r: Result<(String, Table), ParseError>)
    ensures
        outcome(r, s@, spec_table(s@, 0)),
{
    let cs = chars_of(s);
    finish(&cs, table_at(&cs, 0))
}

/// Reads the lines of a table body at the start of `s`; there may be none.
pub fn parse_table_body(s: &str) -> (r: (String, InlineTable))
    ensures
        r.0@ == s@.subrange(spec_body(s@, 0).1, s@.len() as int),
        r.1@ == spec_body(s@, 0).0,
{
    let cs = chars_of(s);
    let (body, e) = body_at(&cs, 0);
    (string_of(&cs, e, cs.len()), body)
}

/// Reads a whole document; on success nothing of `s` is left over.
pub fn parse_document(s: &str) -> (r: Result<(String, Document), ParseError>)
    ensures
        match spec_document(s@) {
            Ok(ts) => r is Ok && r->Ok_0.0@ == Seq::<char>::empty() && r->Ok_0.1@ == ts,
            Err(rest) => r is Err && r->Err_0.rest@ == rest,
        },
{
    let cs = chars_of(s);
    let (root, p1) = body_at(&cs, 0);
    let mut tables: Vec<Table> = Vec::new();
    proof {
        lemma_pairs_view_len(root.0@);
    }
    let has_root = root.0.len() > 0;
    if has_root {
        let t = Table { header: Identifier(String::new()), body: root };
        proof {
            lemma_tables_view_push(tables@, t);
        }
        tables.push(t);
    }
    let ghost before = tables_view(tables@);
    let p2 = tables_at(&cs, p1, &mut tables);
    let p3 = skip_at(&cs, p2, CharClass::Blank);
    if p3 == cs.len() {
        proof {
            if has_root {
                assert(before =~= seq![(Seq::<char>::empty(), spec_body(s@, 0).0)]);
            } else {
                assert(before =~= Seq::<TableVal>::empty());
                assert(tables_view(tables@) =~= spec_tables(s@, p1 as int).0);
            }
        }
        Ok((String::new(), Document(tables)))
    } else {
        Err(ParseError { rest: string_of(&cs, p3, cs.len()) })
    }
}

/// Parses a whole document.
pub fn parse(s: &str) -> (r: Result<Document, ParseError>)
    ensures
        match spec_document(s@) {
            Ok(ts) => r is Ok && r->Ok_0@ == ts,
            Err(rest) => r is Err && r->Err_0.rest@ == rest,
        },
{
    match parse_document(s) {
        Ok((_, doc)) => Ok(doc),
        Err(e) => Err(e),
    }
}

} // verus!
