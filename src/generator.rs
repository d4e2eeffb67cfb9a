//! The generator: renders the document tree as indented `key: value` text, in
//! one of two layouts.
use vstd::prelude::*;
use crate::ir::{
    lemma_pairs_view_push, lemma_tables_view_push, lemma_values_view_push, pairs_view,
    tables_view, Document, FloatLiteral, Pair, Table, TableVal, Val, Value,
};
use crate::grammar::spec_document;
use crate::text::{chars_of, string_of};

verus! {

/// How arrays are laid out.
#[derive(Clone, Copy, Debug, PartialEq, Eq)]
pub enum Mode {
    /// One element per line, each after `- `; tables separated by a blank line.
    Expanded,
    /// Arrays on one line as `[a, b]`; tables separated by a newline.
    Compact,
}

pub open spec fn digit_char(d: int) -> char {
    seq!['0', '1', '2', '3', '4', '5', '6', '7', '8', '9'][d]
}

/// Decimal digits of `n`, without leading zeros.
pub open spec fn nat_text(n: nat) -> Seq<char>
    decreases n,
{
    if n < 10 {
        seq![digit_char(n as int)]
    } else {
        nat_text(n / 10) + seq![digit_char((n % 10) as int)]
    }
}

pub open spec fn int_text(i: int) -> Seq<char> {
    if i < 0 {
        seq!['-'] + nat_text((-i) as nat)
    } else {
        nat_text(i as nat)
    }
}

/// A float is written as its literal, with `.0` added where the literal has
/// neither a point nor an exponent, so that it never reads as an integer.
pub open spec fn float_text(f: Seq<char>) -> Seq<char> {
    if f.contains('.') || f.contains('e') || f.contains('E') {
        f
    } else {
        f + seq!['.', '0']
    }
}

pub open spec fn bool_text(b: bool) -> Seq<char> {
    if b {
        seq!['t', 'r', 'u', 'e']
    } else {
        seq!['f', 'a', 'l', 's', 'e']
    }
}

/// `s` with two spaces before every character that follows a newline: every line
/// but the first is indented one level.
pub open spec fn indent_between(s: Seq<char>) -> Seq<char>
    decreases s.len(),
{
    if s.len() == 0 {
        s
    } else if s.len() >= 2 && s[s.len() - 2] == '\n' {
        indent_between(s.drop_last()) + seq![' ', ' ', s.last()]
    } else {
        indent_between(s.drop_last()).push(s.last())
    }
}

/// `s` with every line indented one level.
pub open spec fn indent_all_spec(s: Seq<char>) -> Seq<char> {
    if s.len() == 0 {
        s
    } else {
        seq![' ', ' '] + indent_between(s)
    }
}

/// Whether a pair's value follows its key on the same line.
pub open spec fn on_key_line(v: Val, m: Mode) -> bool {
    match v {
        Val::Array(_) => m == Mode::Compact,
        Val::Table(_) => false,
        _ => true,
    }
}

pub open spec fn render_value(v: Val, m: Mode) -> Seq<char>
    decreases v,
{
    match v {
        Val::Integer(i) => int_text(i),
        Val::Float(f) => float_text(f),
        Val::Boolean(b) => bool_text(b),
        Val::Str(t) => t,
        Val::Array(items) => if m == Mode::Compact {
            seq!['['] + render_items(items, m) + seq![']']
        } else {
            indent_between(render_items(items, m))
        },
        Val::Table(pairs) => indent_between(render_pairs(pairs, m)),
    }
}

/// Array elements: `- e` lines joined by newlines (expanded), or `e` joined by
/// `, ` (compact).
pub open spec fn render_items(items: Seq<Val>, m: Mode) -> Seq<char>
    decreases items,
{
    if items.len() == 0 {
        Seq::empty()
    } else {
        let it = if m == Mode::Compact {
            render_value(items.last(), m)
        } else {
            seq!['-', ' '] + render_value(items.last(), m)
        };
        if items.len() == 1 {
            it
        } else if m == Mode::Compact {
            render_items(items.drop_last(), m) + seq![',', ' '] + it
        } else {
            render_items(items.drop_last(), m) + seq!['\n'] + it
        }
    }
}

/// `key:` then the value after a space, or on the next line indented one level.
pub open spec fn pair_text(k: Seq<char>, v: Seq<char>, inline: bool) -> Seq<char> {
    if inline {
        k + seq![':', ' '] + v
    } else {
        k + seq![':', '\n', ' ', ' '] + v
    }
}

/// The pairs, one per line, joined by newlines.
pub open spec fn render_pairs(pairs: Seq<(Seq<char>, Val)>, m: Mode) -> Seq<char>
    decreases pairs,
{
    if pairs.len() == 0 {
        Seq::empty()
    } else {
        let last = pair_text(
            pairs.last().0,
            render_value(pairs.last().1, m),
            on_key_line(pairs.last().1, m),
        );
        if pairs.len() == 1 {
            last
        } else {
            render_pairs(pairs.drop_last(), m) + seq!['\n'] + last
        }
    }
}

/// A table: its body alone under an empty header, else `header:` and the body
/// indented one level.
pub open spec fn render_table(t: TableVal, m: Mode) -> Seq<char> {
    if t.0.len() == 0 {
        render_pairs(t.1, m)
    } else {
        t.0 + seq![':', '\n'] + indent_all_spec(render_pairs(t.1, m))
    }
}

pub open spec fn table_separator(m: Mode) -> Seq<char> {
    if m == Mode::Compact {
        seq!['\n']
    } else {
        seq!['\n', '\n']
    }
}

/// The tables joined by the mode's separator.
pub open spec fn render_tables(ts: Seq<TableVal>, m: Mode) -> Seq<char>
    decreases ts.len(),
{
    if ts.len() == 0 {
        Seq::empty()
    } else if ts.len() == 1 {
        render_table(ts[0], m)
    } else {
        render_tables(ts.drop_last(), m) + table_separator(m) + render_table(ts.last(), m)
    }
}

fn digit(d: u64) -> (c: char)
    requires
        d < 10,
    ensures
        c == digit_char(d as int),
{
    match d {
        0 => '0',
        1 => '1',
        2 => '2',
        3 => '3',
        4 => '4',
        5 => '5',
        6 => '6',
        7 => '7',
        8 => '8',
        _ => '9',
    }
}

fn push_nat(out: &mut Vec<char>, n: u64)
    ensures
        final(out)@ == old(out)@ + nat_text(n as nat),
    decreases n,
{
    if n < 10 {
        out.push(digit(n));
    } else {
        push_nat(out, n / 10);
        out.push(digit(n % 10));
    }
    assert(final(out)@ =~= old(out)@ + nat_text(n as nat));
}

fn push_int(out: &mut Vec<char>, i: i64)
    ensures
        final(out)@ == old(out)@ + int_text(i as int),
{
    if i < 0 {
        out.push('-');
        let n = (0i128 - i as i128) as u64;
        push_nat(out, n);
        assert(final(out)@ =~= old(out)@ + int_text(i as int));
    } else {
        push_nat(out, i as u64);
    }
}

fn push_all(out: &mut Vec<char>, s: &Vec<char>)
    ensures
        final(out)@ == old(out)@ + s@,
{
    let mut i: usize = 0;
    while i < s.len()
        invariant
            i <= s@.len(),
            out@ == old(out)@ + s@.subrange(0, i as int),
        decreases s@.len() - i,
    {
        out.push(s[i]);
        i = i + 1;
        assert(out@ =~= old(out)@ + s@.subrange(0, i as int));
    }
    assert(s@.subrange(0, s@.len() as int) =~= s@);
}

fn push_float(out: &mut Vec<char>, f: &FloatLiteral)
    ensures
        final(out)@ == old(out)@ + float_text(f@),
{
    let cs = chars_of(f.0.as_str());
    let mut marked = false;
    let mut i: usize = 0;
    while i < cs.len()
        invariant
            i <= cs@.len(),
            cs@ == f@,
            marked <==> exists|j: int|
                0 <= j < i && (cs@[j] == '.' || cs@[j] == 'e' || cs@[j] == 'E'),
        decreases cs@.len() - i,
    {
        if cs[i] == '.' || cs[i] == 'e' || cs[i] == 'E' {
            marked = true;
        }
        i = i + 1;
    }
    proof {
        if f@.contains('.') {
            let j = choose|j: int| 0 <= j < f@.len() && f@[j] == '.';
            assert(0 <= j < i);
        }
        if f@.contains('e') {
            let j = choose|j: int| 0 <= j < f@.len() && f@[j] == 'e';
            assert(0 <= j < i);
        }
        if f@.contains('E') {
            let j = choose|j: int| 0 <= j < f@.len() && f@[j] == 'E';
            assert(0 <= j < i);
        }
        if marked {
            let j = choose|j: int|
                0 <= j < i && (cs@[j] == '.' || cs@[j] == 'e' || cs@[j] == 'E');
            assert(f@[j] == '.' || f@[j] == 'e' || f@[j] == 'E');
        }
    }
    push_all(out, &cs);
    if !marked {
        out.push('.');
        out.push('0');
        assert(final(out)@ =~= old(out)@ + float_text(f@));
    }
}

/// Appends `s` to `out` with every line but the first indented one level.
pub fn indent_inbetween(out: &mut Vec<char>, s: &Vec<char>)
    ensures
        final(out)@ == old(out)@ + indent_between(s@),
{
    let mut i: usize = 0;
    assert(s@.subrange(0, 0) =~= Seq::<char>::empty());
    while i < s.len()
        invariant
            i <= s@.len(),
            out@ == old(out)@ + indent_between(s@.subrange(0, i as int)),
        decreases s@.len() - i,
    {
        let ghost pre = s@.subrange(0, i as int);
        let ghost next = s@.subrange(0, i + 1);
        assert(next.drop_last() =~= pre);
        if i >= 1 && s[i - 1] == '\n' {
            out.push(' ');
            out.push(' ');
        }
        out.push(s[i]);
        i = i + 1;
        assert(out@ =~= old(out)@ + indent_between(next));
    }
    assert(s@.subrange(0, s@.len() as int) =~= s@);
}

fn value_text(v: &Value, m: Mode) -> (r: Vec<char>)
    ensures
        r@ == render_value(v@, m),
    decreases v,
{
    let mut out: Vec<char> = Vec::new();
    match v {
        Value::Integer(i) => push_int(&mut out, *i),
        Value::Float(f) => push_float(&mut out, f),
        Value::Boolean(b) => {
            if *b {
                out.push('t');
                out.push('r');
                out.push('u');
                out.push('e');
            } else {
                out.push('f');
                out.push('a');
                out.push('l');
                out.push('s');
                out.push('e');
            }
        },
        Value::String(t) => {
            let cs = chars_of(t.as_str());
            push_all(&mut out, &cs);
        },
        Value::Array(a) => {
            let items = items_text(&a.0, m);
            match m {
                Mode::Compact => {
                    out.push('[');
                    push_all(&mut out, &items);
                    out.push(']');
                },
                Mode::Expanded => indent_inbetween(&mut out, &items),
            }
        },
        Value::InlineTable(t) => {
            let body = pairs_text(&t.0, m);
            indent_inbetween(&mut out, &body);
        },
    }
    assert(out@ =~= render_value(v@, m));
    out
}

fn items_text(items: &Vec<Value>, m: Mode) -> (r: Vec<char>)
    ensures
        r@ == render_items(crate::ir::values_view(items@), m),
    decreases items,
{
    let mut out: Vec<char> = Vec::new();
    let mut i: usize = 0;
    assert(items@.subrange(0, 0) =~= Seq::<Value>::empty());
    while i < items.len()
        invariant
            i <= items@.len(),
            out@ == render_items(crate::ir::values_view(items@.subrange(0, i as int)), m),
        decreases items@.len() - i,
    {
        let ghost pre = items@.subrange(0, i as int);
        proof {
            assert(items@.subrange(0, i + 1) =~= pre.push(items@[i as int]));
            lemma_values_view_push(pre, items@[i as int]);
            assert(crate::ir::values_view(pre).push(items@[i as int]@).drop_last()
                =~= crate::ir::values_view(pre));
            lemma_values_len(pre);
        }
        if i > 0 {
            match m {
                Mode::Compact => {
                    out.push(',');
                    out.push(' ');
                },
                Mode::Expanded => out.push('\n'),
            }
        }
        match m {
            Mode::Compact => {},
            Mode::Expanded => {
                out.push('-');
                out.push(' ');
            },
        }
        let t = value_text(&items[i], m);
        push_all(&mut out, &t);
        i = i + 1;
        assert(out@ =~= render_items(crate::ir::values_view(items@.subrange(0, i as int)), m));
    }
    assert(items@.subrange(0, items@.len() as int) =~= items@);
    out
}

proof fn lemma_values_len(vs: Seq<Value>)
    ensures
        crate::ir::values_view(vs).len() == vs.len(),
    decreases vs.len(),
{
    if vs.len() > 0 {
        lemma_values_len(vs.drop_last());
    }
}

fn pairs_text(ps: &Vec<Pair>, m: Mode) -> (r: Vec<char>)
    ensures
        r@ == render_pairs(pairs_view(ps@), m),
    decreases ps,
{
    let mut out: Vec<char> = Vec::new();
    let mut i: usize = 0;
    assert(ps@.subrange(0, 0) =~= Seq::<Pair>::empty());
    while i < ps.len()
        invariant
            i <= ps@.len(),
            out@ == render_pairs(pairs_view(ps@.subrange(0, i as int)), m),
        decreases ps@.len() - i,
    {
        let ghost pre = ps@.subrange(0, i as int);
        proof {
            assert(ps@.subrange(0, i + 1) =~= pre.push(ps@[i as int]));
            lemma_pairs_view_push(pre, ps@[i as int]);
            assert(pairs_view(pre).push(ps@[i as int]@).drop_last() =~= pairs_view(pre));
            crate::ir::lemma_pairs_view_len(pre);
        }
        if i > 0 {
            out.push('\n');
        }
        let key = chars_of(ps[i].key.0.as_str());
        push_all(&mut out, &key);
        out.push(':');
        let v = &ps[i].value;
        let inline = match v {
            Value::Array(_) => match m {
                Mode::Compact => true,
                Mode::Expanded => false,
            },
            Value::InlineTable(_) => false,
            _ => true,
        };
        if inline {
            out.push(' ');
        } else {
            out.push('\n');
            out.push(' ');
            out.push(' ');
        }
        let t = value_text(v, m);
        push_all(&mut out, &t);
        i = i + 1;
        assert(out@ =~= render_pairs(pairs_view(ps@.subrange(0, i as int)), m));
    }
    assert(ps@.subrange(0, ps@.len() as int) =~= ps@);
    out
}

/// Appends `s` to `out` with every line indented one level.
pub fn indent_all(out: &mut Vec<char>, s: &Vec<char>)
    ensures
        final(out)@ == old(out)@ + indent_all_spec(s@),
{
    if s.len() > 0 {
        out.push(' ');
        out.push(' ');
        indent_inbetween(out, s);
        assert(final(out)@ =~= old(out)@ + indent_all_spec(s@));
    } else {
        assert(final(out)@ =~= old(out)@ + indent_all_spec(s@));
    }
}

fn table_text(t: &Table, m: Mode) -> (r: Vec<char>)
    ensures
        r@ == render_table(t@, m),
{
    let body = pairs_text(&t.body.0, m);
    let header = chars_of(t.header.0.as_str());
    if header.len() == 0 {
        return body;
    }
    let mut out = header;
    out.push(':');
    out.push('\n');
    indent_all(&mut out, &body);
    assert(out@ =~= render_table(t@, m));
    out
}

fn document_text(d: &Document, m: Mode) -> (r: Vec<char>)
    ensures
        r@ == render_tables(d@, m),
{
    let ts = &d.0;
    let mut out: Vec<char> = Vec::new();
    let mut i: usize = 0;
    assert(ts@.subrange(0, 0) =~= Seq::<Table>::empty());
    while i < ts.len()
        invariant
            i <= ts@.len(),
            out@ == render_tables(tables_view(ts@.subrange(0, i as int)), m),
        decreases ts@.len() - i,
    {
        let ghost pre = ts@.subrange(0, i as int);
        proof {
            assert(ts@.subrange(0, i + 1) =~= pre.push(ts@[i as int]));
            lemma_tables_view_push(pre, ts@[i as int]);
            assert(tables_view(pre).push(ts@[i as int]@).drop_last() =~= tables_view(pre));
            lemma_tables_len(pre);
        }
        if i > 0 {
            out.push('\n');
            match m {
                Mode::Compact => {},
                Mode::Expanded => out.push('\n'),
            }
        }
        let t = table_text(&ts[i], m);
        push_all(&mut out, &t);
        i = i + 1;
        assert(out@ =~= render_tables(tables_view(ts@.subrange(0, i as int)), m));
    }
    assert(ts@.subrange(0, ts@.len() as int) =~= ts@);
    out
}

proof fn lemma_tables_len(ts: Seq<Table>)
    ensures
        tables_view(ts).len() == ts.len(),
    decreases ts.len(),
{
    if ts.len() > 0 {
        lemma_tables_len(ts.drop_last());
    }
}

/// Renders a document in the given layout.
pub fn render(doc: &Document, mode: Mode) -> (r: String)
    ensures
        r@ == render_tables(doc@, mode),
{
    let cs = document_text(doc, mode);
    string_of(&cs, 0, cs.len())
}

impl Value {
    /// Renders the value alone, as it stands after `key:` in the given layout.
    pub fn render(&self, mode: Mode) -> (r: String)
        ensures
            r@ == render_value(self@, mode),
    {
        let cs = value_text(self, mode);
        string_of(&cs, 0, cs.len())
    }
}

impl Table {
    /// Renders the table alone in the given layout.
    pub fn render(&self, mode: Mode) -> (r: String)
        ensures
            r@ == render_table(self@, mode),
    {
        let cs = table_text(self, mode);
        string_of(&cs, 0, cs.len())
    }
}

impl Document {
    /// The document in the expanded layout.
    pub fn to_string(&self) -> (r: String)
        ensures
            r@ == render_tables(self@, Mode::Expanded),
    {
        render(self, Mode::Expanded)
    }
}

/// Rendering depends on the parsed document alone: two parses of one text render
/// to the same text, in either layout.
pub proof fn lemma_render_deterministic(s: Seq<char>, a: Document, b: Document, m: Mode)
    requires
        spec_document(s) == Ok::<Seq<TableVal>, Seq<char>>(a@),
        spec_document(s) == Ok::<Seq<TableVal>, Seq<char>>(b@),
    ensures
        render_tables(a@, m) == render_tables(b@, m),
{
}

} // verus!
