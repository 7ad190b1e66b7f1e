//! Datasets that are kept as text: the reading of what was kept.
use vstd::prelude::*;
use crate::data;
use crate::data::{Cells, Column, Dataset};
use crate::fixed::Fixed;
use crate::format::Textual;
use crate::table;
use crate::text;
use crate::text::{chars_of, find_char, occurs_at, parse_number, part, split, string_of, trim};

verus! {

/// What follows a beginning.
pub open spec fn after(s: Seq<char>, p: Seq<char>) -> Option<Seq<char>> {
    if p.len() <= s.len() && s.take(p.len() as int) == p {
        Some(s.skip(p.len() as int))
    } else {
        None
    }
}

/// The text up to the closing quote, and what follows it. A quote or a backslash after a backslash
/// belongs to the text, without the one before it.
pub open spec fn quoted(s: Seq<char>) -> Option<(Seq<char>, Seq<char>)>
    decreases s.len(),
{
    if s.len() == 0 {
        None
    } else if s[0] == '"' {
        Some((Seq::empty(), s.skip(1)))
    } else if s[0] == '\\' && s.len() > 1 && (s[1] == '"' || s[1] == '\\') {
        prefixed(seq![s[1]], quoted(s.skip(2)))
    } else {
        prefixed(seq![s[0]], quoted(s.skip(1)))
    }
}

/// More text in front.
pub open spec fn prefixed(t: Seq<char>, o: Option<(Seq<char>, Seq<char>)>) -> Option<
    (Seq<char>, Seq<char>),
> {
    match o {
        Some((u, r)) => Some((t + u, r)),
        None => None,
    }
}

/// Numbers between commas; what cannot be read is left out.
pub open spec fn numbers_of<S: Textual>(s: Seq<char>) -> Seq<S> {
    if s.len() == 0 {
        Seq::empty()
    } else {
        data::numbers_in::<S>(text::split_on(s, ','))
    }
}

/// Numbers up to the closing bracket, and what follows it.
pub open spec fn number_list<S: Textual>(s: Seq<char>) -> Option<(Seq<S>, Seq<char>)> {
    let p = text::position(s, ']');
    if p < s.len() {
        Some((numbers_of::<S>(s.take(p)), s.skip(p + 1)))
    } else {
        None
    }
}

/// At least one text in quotes, up to the closing bracket, and what follows it.
pub open spec fn text_items(s: Seq<char>) -> Option<(Seq<Seq<char>>, Seq<char>)>
    decreases s.len(),
{
    match after(s, "\""@) {
        None => None,
        Some(a) => match quoted(a) {
            None => None,
            Some((t, r)) => match after(r, "]"@) {
                Some(e) => Some((seq![t], e)),
                None => match after(r, ","@) {
                    Some(n) => if n.len() < s.len() {
                        match text_items(n) {
                            Some((ts, e)) => Some((seq![t] + ts, e)),
                            None => None,
                        }
                    } else {
                        None
                    },
                    None => None,
                },
            },
        },
    }
}

/// Texts in quotes up to the closing bracket, and what follows it.
pub open spec fn text_list(s: Seq<char>) -> Option<(Seq<Seq<char>>, Seq<char>)> {
    match after(s, "]"@) {
        Some(e) => Some((Seq::empty(), e)),
        None => text_items(s),
    }
}

/// What a column holds, from the colon to the closing brace, and what follows it.
pub open spec fn column_body<S: Textual>(s: Seq<char>) -> Option<(Cells<S>, Seq<char>)> {
    match after(s, ":{\"type\":\"float\",\"values\":["@) {
        Some(a) => match number_list::<S>(a) {
            Some((v, r)) => match after(r, "}"@) {
                Some(e) => Some((Cells::Float(v), e)),
                None => None,
            },
            None => None,
        },
        None => match after(s, ":{\"type\":\"text\",\"values\":["@) {
            Some(a) => match text_list(a) {
                Some((v, r)) => match after(r, "}"@) {
                    Some(e) => Some((Cells::Text(v), e)),
                    None => None,
                },
                None => None,
            },
            None => None,
        },
    }
}

/// A column with its name, and what follows it.
pub open spec fn column<S: Textual>(s: Seq<char>) -> Option<((Seq<char>, Cells<S>), Seq<char>)> {
    match after(s, "\""@) {
        None => None,
        Some(a) => match quoted(a) {
            None => None,
            Some((name, r)) => match column_body::<S>(r) {
                Some((c, e)) => Some(((name, c), e)),
                None => None,
            },
        },
    }
}

/// At least one column, up to the closing brace, and what follows it.
pub open spec fn column_items<S: Textual>(s: Seq<char>) -> Option<
    (Seq<(Seq<char>, Cells<S>)>, Seq<char>),
>
    decreases s.len(),
{
    match column::<S>(s) {
        None => None,
        Some((c, r)) => match after(r, "}"@) {
            Some(e) => Some((seq![c], e)),
            None => match after(r, ","@) {
                Some(n) => if n.len() < s.len() {
                    match column_items::<S>(n) {
                        Some((cs, e)) => Some((seq![c] + cs, e)),
                        None => None,
                    }
                } else {
                    None
                },
                None => None,
            },
        },
    }
}

/// Columns up to the closing brace, and what follows it.
pub open spec fn column_list<S: Textual>(s: Seq<char>) -> Option<
    (Seq<(Seq<char>, Cells<S>)>, Seq<char>),
> {
    match after(s, "}"@) {
        Some(e) => Some((Seq::empty(), e)),
        None => column_items::<S>(s),
    }
}

/// The number of rows before the columns, and the text of the columns.
pub open spec fn row_count(s: Seq<char>) -> Option<(nat, Seq<char>)> {
    match after(s, "{\"source\":\""@) {
        None => None,
        Some(a) => match quoted(a) {
            None => None,
            Some((source, b)) => match after(b, ",\"num_rows\":"@) {
                None => None,
                Some(c) => {
                    let p = text::position(c, ',');
                    match (
                        text::read_number(c.take(p), usize::MAX as nat),
                        after(c.skip(p), ",\"columns\":{"@),
                    ) {
                        (Some(n), Some(d)) => Some((n, d)),
                        _ => None,
                    }
                },
            },
        },
    }
}

/// The number of rows and the columns of a text that was kept; nothing where it is another text.
pub open spec fn kept<S: Textual>(s: Seq<char>) -> Option<(nat, Seq<(Seq<char>, Cells<S>)>)> {
    match row_count(s) {
        None => None,
        Some((n, d)) => match column_list::<S>(d) {
            Some((cs, r)) => if r == "}"@ {
                Some((n, cs))
            } else {
                None
            },
            None => None,
        },
    }
}

// ---- Reading

fn skip_text(s: &[char], at: usize, p: &str) -> (r: Option<usize>)
    requires
        at <= s@.len(),
    ensures
        match r {
            Some(e) => at <= e <= s@.len() && after(s@.skip(at as int), p@) == Some(
                s@.skip(e as int),
            ),
            None => after(s@.skip(at as int), p@) is None,
        },
{
    let pc = chars_of(p);
    let hit = occurs_at(s, &pc, at);
    let len: usize = s.len();
    proof {
        let t = s@.skip(at as int);
        if p@.len() <= t.len() {
            assert(t.take(p@.len() as int) =~= s@.subrange(at as int, at + p@.len()));
            assert(t.skip(p@.len() as int) =~= s@.skip(at + p@.len()));
        }
    }
    if hit {
        Some(at + pc.len())
    } else {
        None
    }
}

fn read_quoted(s: &[char], at: usize) -> (r: Option<(Vec<char>, usize)>)
    requires
        at <= s@.len(),
    ensures
        match r {
            Some((t, e)) => at <= e <= s@.len() && quoted(s@.skip(at as int)) == Some(
                (t@, s@.skip(e as int)),
            ),
            None => quoted(s@.skip(at as int)) is None,
        },
{
    let mut t: Vec<char> = Vec::new();
    let mut i: usize = at;
    let len: usize = s.len();
    proof {
        match quoted(s@.skip(at as int)) {
            Some((u, r)) => {
                assert(t@ + u =~= u);
            },
            None => {},
        }
    }
    while i < len
        invariant
            len == s@.len(),
            at <= i <= len,
            quoted(s@.skip(at as int)) == prefixed(t@, quoted(s@.skip(i as int))),
        decreases len - i,
    {
        let ghost rest = s@.skip(i as int);
        let ghost was = t@;
        if s[i] == '"' {
            assert(rest.skip(1) =~= s@.skip(i + 1));
            assert(was + Seq::<char>::empty() =~= was);
            return Some((t, i + 1));
        }
        if s[i] == '\\' && i + 1 < len && (s[i + 1] == '"' || s[i + 1] == '\\') {
            t.push(s[i + 1]);
            proof {
                assert(rest.skip(2) =~= s@.skip(i + 2));
                lemma_prefixed(was, s@[i + 1], quoted(s@.skip(i + 2)));
            }
            i = i + 2;
        } else {
            t.push(s[i]);
            proof {
                assert(rest.skip(1) =~= s@.skip(i + 1));
                lemma_prefixed(was, s@[i as int], quoted(s@.skip(i + 1)));
            }
            i = i + 1;
        }
    }
    None
}

proof fn lemma_prefixed(t: Seq<char>, c: char, o: Option<(Seq<char>, Seq<char>)>)
    ensures
        prefixed(t, prefixed(seq![c], o)) == prefixed(t.push(c), o),
{
    match o {
        Some((u, r)) => {
            assert(t + (seq![c] + u) =~= t.push(c) + u);
        },
        None => {},
    }
}

fn read_numbers<S: Textual>(s: &[char], at: usize) -> (r: Option<(Vec<S>, usize)>)
    requires
        at <= s@.len(),
    ensures
        match r {
            Some((v, e)) => at <= e <= s@.len() && number_list::<S>(s@.skip(at as int)) == Some(
                (v@, s@.skip(e as int)),
            ),
            None => number_list::<S>(s@.skip(at as int)) is None,
        },
{
    let len: usize = s.len();
    let rest = part(s, at, len);
    assert(rest@ =~= s@.skip(at as int));
    let found = find_char(&rest, ']');
    match found {
        None => {
            proof {
                text::lemma_position(rest@, ']', rest@.len() as int);
            }
            None
        },
        Some(p) => {
            proof {
                text::lemma_position(rest@, ']', p as int);
                assert(rest@.skip(p + 1) =~= s@.skip(at + p + 1));
            }
            let inner = part(&rest, 0, p);
            assert(inner@ =~= rest@.take(p as int));
            let mut out: Vec<S> = Vec::new();
            if inner.len() > 0 {
                let items = split(&inner, ',');
                let ghost iv = text::views(items@);
                assert(iv.take(0) =~= Seq::<Seq<char>>::empty());
                for i in 0..items.len()
                    invariant
                        iv == text::views(items@),
                        out@ =~= data::numbers_in::<S>(iv.take(i as int)),
                {
                    proof {
                        assert(iv.take(i + 1).drop_last() =~= iv.take(i as int));
                        assert(iv.take(i + 1).last() == items@[i as int]@);
                    }
                    let t = trim(&items[i]);
                    if let Some(x) = S::read(&t) {
                        out.push(x);
                    }
                }
                assert(iv.take(iv.len() as int) =~= iv);
            }
            Some((out, at + p + 1))
        },
    }
}

fn read_text_items(s: &[char], at: usize) -> (r: Option<(Vec<String>, usize)>)
    requires
        at <= s@.len(),
    ensures
        match r {
            Some((v, e)) => at <= e <= s@.len() && text_items(s@.skip(at as int)) == Some(
                (text::texts(v@), s@.skip(e as int)),
            ),
            None => text_items(s@.skip(at as int)) is None,
        },
{
    let len: usize = s.len();
    let mut out: Vec<String> = Vec::new();
    let mut i: usize = at;
    proof {
        match text_items(s@.skip(at as int)) {
            Some((u, r)) => {
                assert(text::texts(out@) + u =~= u);
            },
            None => {},
        }
    }
    loop
        invariant
            len == s@.len(),
            at <= i <= len,
            text_items(s@.skip(at as int)) == more_texts(
                text::texts(out@),
                text_items(s@.skip(i as int)),
            ),
        decreases len - i,
    {
        let ghost had = text::texts(out@);
        let a: usize = match skip_text(s, i, "\"") {
            Some(a) => a,
            None => {
                return None;
            },
        };
        let (t, r) = match read_quoted(s, a) {
            Some(p) => p,
            None => {
                return None;
            },
        };
        let ghost tv = t@;
        out.push(string_of(&t));
        assert(text::texts(out@) =~= had.push(tv));
        match skip_text(s, r, "]") {
            Some(e) => {
                assert(had + seq![tv] =~= had.push(tv));
                return Some((out, e));
            },
            None => {},
        }
        match skip_text(s, r, ",") {
            Some(n) => {
                if n <= i {
                    return None;
                }
                proof {
                    lemma_more_texts(had, tv, text_items(s@.skip(n as int)));
                }
                i = n;
            },
            None => {
                return None;
            },
        }
    }
}

/// More texts in front.
spec fn more_texts(t: Seq<Seq<char>>, o: Option<(Seq<Seq<char>>, Seq<char>)>) -> Option<
    (Seq<Seq<char>>, Seq<char>),
> {
    match o {
        Some((u, r)) => Some((t + u, r)),
        None => None,
    }
}

proof fn lemma_more_texts(t: Seq<Seq<char>>, c: Seq<char>, o: Option<(Seq<Seq<char>>, Seq<char>)>)
    ensures
        more_texts(t, more_texts(seq![c], o)) == more_texts(t.push(c), o),
{
    match o {
        Some((u, r)) => {
            assert(t + (seq![c] + u) =~= t.push(c) + u);
        },
        None => {},
    }
}

fn read_texts(s: &[char], at: usize) -> (r: Option<(Vec<String>, usize)>)
    requires
        at <= s@.len(),
    ensures
        match r {
            Some((v, e)) => at <= e <= s@.len() && text_list(s@.skip(at as int)) == Some(
                (text::texts(v@), s@.skip(e as int)),
            ),
            None => text_list(s@.skip(at as int)) is None,
        },
{
    match skip_text(s, at, "]") {
        Some(e) => {
            let none: Vec<String> = Vec::new();
            assert(text::texts(none@) =~= Seq::<Seq<char>>::empty());
            Some((none, e))
        },
        None => read_text_items(s, at),
    }
}

fn read_body<S: Textual>(s: &[char], at: usize) -> (r: Option<(Column<S>, usize)>)
    requires
        at <= s@.len(),
    ensures
        match r {
            Some((c, e)) => at <= e <= s@.len() && column_body::<S>(s@.skip(at as int)) == Some(
                (c@, s@.skip(e as int)),
            ),
            None => column_body::<S>(s@.skip(at as int)) is None,
        },
{
    match skip_text(s, at, ":{\"type\":\"float\",\"values\":[") {
        Some(a) => match read_numbers::<S>(s, a) {
            Some((v, r)) => match skip_text(s, r, "}") {
                Some(e) => Some((Column::Float(v), e)),
                None => None,
            },
            None => None,
        },
        None => match skip_text(s, at, ":{\"type\":\"text\",\"values\":[") {
            Some(a) => match read_texts(s, a) {
                Some((v, r)) => match skip_text(s, r, "}") {
                    Some(e) => Some((Column::Text(v), e)),
                    None => None,
                },
                None => None,
            },
            None => None,
        },
    }
}

/// Names with what their columns hold.
pub open spec fn column_views<S>(v: Seq<(String, Column<S>)>) -> Seq<(Seq<char>, Cells<S>)> {
    Seq::new(v.len(), |i: int| (v[i].0@, v[i].1@))
}

/// More columns in front.
spec fn more_columns<S>(
    t: Seq<(Seq<char>, Cells<S>)>,
    o: Option<(Seq<(Seq<char>, Cells<S>)>, Seq<char>)>,
) -> Option<(Seq<(Seq<char>, Cells<S>)>, Seq<char>)> {
    match o {
        Some((u, r)) => Some((t + u, r)),
        None => None,
    }
}

proof fn lemma_more_columns<S>(
    t: Seq<(Seq<char>, Cells<S>)>,
    c: (Seq<char>, Cells<S>),
    o: Option<(Seq<(Seq<char>, Cells<S>)>, Seq<char>)>,
)
    ensures
        more_columns(t, more_columns(seq![c], o)) == more_columns(t.push(c), o),
{
    match o {
        Some((u, r)) => {
            assert(t + (seq![c] + u) =~= t.push(c) + u);
        },
        None => {},
    }
}

fn read_column_items<S: Textual>(s: &[char], at: usize) -> (r: Option<
    (Vec<(String, Column<S>)>, usize),
>)
    requires
        at <= s@.len(),
    ensures
        match r {
            Some((v, e)) => at <= e <= s@.len() && column_items::<S>(s@.skip(at as int)) == Some(
                (column_views(v@), s@.skip(e as int)),
            ),
            None => column_items::<S>(s@.skip(at as int)) is None,
        },
{
    let len: usize = s.len();
    let mut out: Vec<(String, Column<S>)> = Vec::new();
    let mut i: usize = at;
    proof {
        match column_items::<S>(s@.skip(at as int)) {
            Some((u, r)) => {
                assert(column_views(out@) + u =~= u);
            },
            None => {},
        }
    }
    loop
        invariant
            len == s@.len(),
            at <= i <= len,
            column_items::<S>(s@.skip(at as int)) == more_columns(
                column_views(out@),
                column_items::<S>(s@.skip(i as int)),
            ),
        decreases len - i,
    {
        let ghost had = column_views(out@);
        let a: usize = match skip_text(s, i, "\"") {
            Some(a) => a,
            None => {
                return None;
            },
        };
        let (t, b) = match read_quoted(s, a) {
            Some(p) => p,
            None => {
                return None;
            },
        };
        let (c, r) = match read_body::<S>(s, b) {
            Some(p) => p,
            None => {
                return None;
            },
        };
        let ghost one = (t@, c@);
        out.push((string_of(&t), c));
        assert(column_views(out@) =~= had.push(one));
        match skip_text(s, r, "}") {
            Some(e) => {
                assert(had + seq![one] =~= had.push(one));
                return Some((out, e));
            },
            None => {},
        }
        match skip_text(s, r, ",") {
            Some(n) => {
                if n <= i {
                    return None;
                }
                proof {
                    lemma_more_columns(had, one, column_items::<S>(s@.skip(n as int)));
                }
                i = n;
            },
            None => {
                return None;
            },
        }
    }
}

fn read_columns<S: Textual>(s: &[char], at: usize) -> (r: Option<
    (Vec<(String, Column<S>)>, usize),
>)
    requires
        at <= s@.len(),
    ensures
        match r {
            Some((v, e)) => at <= e <= s@.len() && column_list::<S>(s@.skip(at as int)) == Some(
                (column_views(v@), s@.skip(e as int)),
            ),
            None => column_list::<S>(s@.skip(at as int)) is None,
        },
{
    match skip_text(s, at, "}") {
        Some(e) => {
            let none: Vec<(String, Column<S>)> = Vec::new();
            assert(column_views(none@) =~= Seq::<(Seq<char>, Cells<S>)>::empty());
            Some((none, e))
        },
        None => read_column_items(s, at),
    }
}

fn read_rows(s: &[char]) -> (r: Option<(usize, usize)>)
    ensures
        match r {
            Some((n, e)) => e <= s@.len() && row_count(s@) == Some(
                (n as nat, s@.skip(e as int)),
            ),
            None => row_count(s@) is None,
        },
{
    assert(s@.skip(0) =~= s@);
    let len: usize = s.len();
    let a: usize = match skip_text(s, 0, "{\"source\":\"") {
        Some(a) => a,
        None => {
            return None;
        },
    };
    let b: usize = match read_quoted(s, a) {
        Some((t, b)) => b,
        None => {
            return None;
        },
    };
    let c: usize = match skip_text(s, b, ",\"num_rows\":") {
        Some(c) => c,
        None => {
            return None;
        },
    };
    let rest = part(s, c, len);
    assert(rest@ =~= s@.skip(c as int));
    let found = find_char(&rest, ',');
    let p: usize = match found {
        Some(p) => p,
        None => rest.len(),
    };
    proof {
        text::lemma_position(rest@, ',', p as int);
        assert(rest@.skip(p as int) =~= s@.skip(c + p));
    }
    let number = part(&rest, 0, p);
    assert(number@ =~= rest@.take(p as int));
    match (parse_number(&number, usize::MAX as u64), skip_text(s, c + p, ",\"columns\":{")) {
        (Some(n), Some(d)) => Some((n as usize, d)),
        _ => None,
    }
}

/// Reads a text that was kept.
pub fn read_kept<S: Textual>(json: &str) -> (r: Option<(usize, Vec<(String, Column<S>)>)>)
    ensures
        match r {
            Some((n, v)) => kept::<S>(json@) == Some((n as nat, column_views(v@))),
            None => kept::<S>(json@) is None,
        },
{
    let s = chars_of(json);
    match read_rows(&s) {
        None => None,
        Some((n, d)) => match read_columns::<S>(&s, d) {
            None => None,
            Some((v, e)) => {
                let rest = part(&s, e, s.len());
                assert(rest@ =~= s@.skip(e as int));
                if text::is_text(&rest, "}") {
                    Some((n, v))
                } else {
                    None
                }
            },
        },
    }
}

// ---- What was kept comes back

proof fn lemma_after(p: Seq<char>, r: Seq<char>)
    ensures
        after(p + r, p) == Some(r),
{
    assert((p + r).take(p.len() as int) =~= p);
    assert((p + r).skip(p.len() as int) =~= r);
}

proof fn lemma_not_after(s: Seq<char>, p: Seq<char>)
    requires
        p.len() > 0,
        s.len() == 0 || s[0] != p[0],
    ensures
        after(s, p) is None,
{
    if p.len() <= s.len() {
        assert(s.take(p.len() as int)[0] == s[0]);
    }
}

/// A character, with a backslash before a quote or a backslash.
pub open spec fn escape(c: char) -> Seq<char> {
    if c == '"' || c == '\\' {
        seq!['\\', c]
    } else {
        seq![c]
    }
}

/// A text with a backslash before each quote and each backslash.
pub open spec fn escaped(v: Seq<char>) -> Seq<char>
    decreases v.len(),
{
    if v.len() == 0 {
        Seq::empty()
    } else {
        escaped(v.drop_last()) + escape(v.last())
    }
}

/// Adds a text with a backslash before each quote and each backslash.
pub fn push_escaped(out: &mut Vec<char>, v: &str)
    ensures
        final(out)@ == old(out)@ + escaped(v@),
{
    let s = chars_of(v);
    let ghost first = out@;
    assert(s@.take(0) =~= Seq::<char>::empty());
    for i in 0..s.len()
        invariant
            out@ =~= first + escaped(s@.take(i as int)),
    {
        let c = s[i];
        proof {
            assert(s@.take(i + 1).drop_last() =~= s@.take(i as int));
            assert(s@.take(i + 1).last() == c);
        }
        if c == '"' || c == '\\' {
            out.push('\\');
        }
        out.push(c);
    }
    assert(s@.take(s@.len() as int) =~= s@);
}

proof fn lemma_escaped_front(v: Seq<char>)
    requires
        v.len() > 0,
    ensures
        escaped(v) == escape(v[0]) + escaped(v.skip(1)),
    decreases v.len(),
{
    let f = v.drop_last();
    if f.len() == 0 {
        assert(v.skip(1) =~= Seq::<char>::empty());
        assert(escaped(f) =~= Seq::<char>::empty());
        assert(escaped(v) =~= escape(v[0]) + escaped(v.skip(1)));
    } else {
        lemma_escaped_front(f);
        assert(v.skip(1).drop_last() =~= f.skip(1));
        assert(escaped(v) =~= escape(v[0]) + escaped(v.skip(1)));
    }
}

/// A text in quotes is read as it is, whatever it holds.
pub proof fn lemma_quoted(v: Seq<char>, r: Seq<char>)
    ensures
        quoted(escaped(v) + seq!['"'] + r) == Some((v, r)),
    decreases v.len(),
{
    let s = escaped(v) + seq!['"'] + r;
    if v.len() == 0 {
        assert(s.skip(1) =~= r);
        assert(v =~= Seq::<char>::empty());
    } else {
        let w = v.skip(1);
        let t = escaped(w) + seq!['"'] + r;
        lemma_escaped_front(v);
        lemma_quoted(w, r);
        assert(seq![v[0]] + w =~= v);
        if v[0] == '"' || v[0] == '\\' {
            assert(s[0] == '\\' && s[1] == v[0]);
            assert(s.skip(2) =~= t);
        } else {
            assert(s.skip(1) =~= t);
            assert(s[0] == v[0]);
        }
    }
}

proof fn lemma_joined_front(v: Seq<Seq<char>>, sep: Seq<char>)
    requires
        v.len() > 1,
    ensures
        text::joined(v, sep) == v[0] + sep + text::joined(v.skip(1), sep),
    decreases v.len(),
{
    let f = v.drop_last();
    let w = v.skip(1);
    assert(w.drop_last() =~= f.skip(1));
    assert(w.last() == v.last());
    assert(f[0] == v[0]);
    if f.len() > 1 {
        lemma_joined_front(f, sep);
        assert(text::joined(w, sep) == text::joined(f.skip(1), sep) + sep + v.last());
    } else {
        assert(w[0] == v.last());
        assert(text::joined(f, sep) == v[0]);
    }
    assert(text::joined(v, sep) =~= v[0] + sep + text::joined(v.skip(1), sep));
}

/// A number is read as it is shown, and what is shown has no comma and no bracket.
pub open spec fn reads_back<S: Textual>(x: S) -> bool {
    &&& x.spec_show().len() > 0
    &&& forall|i: int|
        0 <= i < x.spec_show().len() ==> #[trigger] x.spec_show()[i] != ',' && x.spec_show()[i]
            != ']'
    &&& S::spec_read(text::trimmed(x.spec_show())) == Some(x)
}

spec fn shows<S: Textual>(v: Seq<S>) -> Seq<Seq<char>> {
    Seq::new(v.len(), |i: int| v[i].spec_show())
}

proof fn lemma_shown<S: Textual>(v: Seq<S>)
    requires
        forall|i: int| 0 <= i < v.len() ==> reads_back(#[trigger] v[i]),
    ensures
        forall|i: int|
            0 <= i < text::joined(shows(v), ","@).len() ==> #[trigger] text::joined(
                shows(v),
                ","@,
            )[i] != ']',
        v.len() > 0 ==> text::joined(shows(v), ","@).len() > 0,
        v.len() > 0 ==> text::split_on(text::joined(shows(v), ","@), ',') == shows(v),
        data::numbers_in::<S>(shows(v)) == v,
    decreases v.len(),
{
    reveal_strlit(",");
    if v.len() > 0 {
        let f = v.drop_last();
        let x = v.last();
        lemma_shown(f);
        let t = shows(v);
        assert(t.drop_last() =~= shows(f));
        assert(t.last() == x.spec_show());
        assert(f.push(x) =~= v);
        let j = text::joined(t, ","@);
        if f.len() == 0 {
            assert(j == x.spec_show());
            let e = Seq::<char>::empty();
            text::lemma_split_more(e, x.spec_show(), ',');
            assert(e + x.spec_show() =~= x.spec_show());
            assert(text::split_on(j, ',') =~= t);
        } else {
            let k = text::joined(shows(f), ","@);
            let p = k + ","@;
            assert(j == p + x.spec_show());
            assert(p.drop_last() =~= k);
            text::lemma_split_more(p, x.spec_show(), ',');
            let u = text::split_on(p, ',');
            assert(u =~= shows(f).push(Seq::empty()));
            assert(u.drop_last() =~= shows(f));
            assert(u.last() + x.spec_show() =~= x.spec_show());
            assert(text::split_on(j, ',') =~= t);
            assert forall|i: int| 0 <= i < j.len() implies #[trigger] j[i] != ']' by {
                if i < k.len() {
                    assert(j[i] == k[i]);
                } else if i > k.len() {
                    assert(j[i] == x.spec_show()[i - k.len() - 1]);
                }
            }
        }
    } else {
        assert(v =~= Seq::<S>::empty());
        assert(shows(v) =~= Seq::<Seq<char>>::empty());
    }
}

proof fn lemma_numbers<S: Textual>(v: Seq<S>, r: Seq<char>)
    requires
        forall|i: int| 0 <= i < v.len() ==> reads_back(#[trigger] v[i]),
    ensures
        number_list::<S>(text::joined(shows(v), ","@) + "]"@ + r) == Some((v, r)),
{
    reveal_strlit("]");
    lemma_shown(v);
    let j = text::joined(shows(v), ","@);
    let s = j + "]"@ + r;
    assert forall|i: int| 0 <= i < j.len() implies s[i] != ']' by {
        assert(s[i] == j[i]);
    }
    text::lemma_position(s, ']', j.len() as int);
    assert(s.take(j.len() as int) =~= j);
    assert(s.skip(j.len() as int + 1) =~= r);
    if v.len() == 0 {
        assert(shows(v) =~= Seq::<Seq<char>>::empty());
        assert(v =~= Seq::<S>::empty());
    }
}

spec fn in_quotes(v: Seq<Seq<char>>) -> Seq<Seq<char>> {
    Seq::new(v.len(), |i: int| "\""@ + escaped(v[i]) + "\""@)
}

proof fn lemma_text_items(v: Seq<Seq<char>>, r: Seq<char>)
    requires
        v.len() > 0,
    ensures
        text_items(text::joined(in_quotes(v), ","@) + "]"@ + r) == Some((v, r)),
    decreases v.len(),
{
    reveal_strlit("\"");
    reveal_strlit("]");
    reveal_strlit(",");
    let q = in_quotes(v);
    let s = text::joined(q, ","@) + "]"@ + r;
    let w = v.skip(1);
    let e = escaped(v[0]);
    if w.len() == 0 {
        let tail = "]"@ + r;
        assert(s =~= "\""@ + (e + seq!['"'] + tail));
        lemma_after("\""@, e + seq!['"'] + tail);
        lemma_quoted(v[0], tail);
        lemma_after("]"@, r);
        assert(seq![v[0]] =~= v);
    } else {
        lemma_joined_front(q, ","@);
        assert(q.skip(1) =~= in_quotes(w));
        let next = text::joined(in_quotes(w), ","@) + "]"@ + r;
        let tail = ","@ + next;
        assert(s =~= "\""@ + (e + seq!['"'] + tail));
        lemma_after("\""@, e + seq!['"'] + tail);
        lemma_quoted(v[0], tail);
        lemma_not_after(tail, "]"@);
        lemma_after(","@, next);
        lemma_text_items(w, r);
        assert(next.len() < s.len());
        assert(seq![v[0]] + w =~= v);
    }
}

proof fn lemma_texts(v: Seq<Seq<char>>, r: Seq<char>)
    ensures
        text_list(text::joined(in_quotes(v), ","@) + "]"@ + r) == Some((v, r)),
{
    reveal_strlit("\"");
    reveal_strlit("]");
    let q = in_quotes(v);
    let s = text::joined(q, ","@) + "]"@ + r;
    if v.len() == 0 {
        assert(q =~= Seq::<Seq<char>>::empty());
        assert(s =~= "]"@ + r);
        lemma_after("]"@, r);
        assert(v =~= Seq::<Seq<char>>::empty());
    } else {
        lemma_text_items(v, r);
        if v.len() > 1 {
            lemma_joined_front(q, ","@);
        }
        assert(s[0] == '"');
        lemma_not_after(s, "]"@);
    }
}

/// What a column holds can be kept: its numbers are read as they are shown.
pub open spec fn cells_keep<S: Textual>(c: Cells<S>) -> bool {
    match c {
        Cells::Float(v) => forall|i: int| 0 <= i < v.len() ==> reads_back(#[trigger] v[i]),
        Cells::Text(_) => true,
    }
}

proof fn lemma_column<S: Textual>(name: Seq<char>, c: Cells<S>, r: Seq<char>)
    requires
        cells_keep(c),
    ensures
        column::<S>(data::column_json(name, c) + r) == Some(((name, c), r)),
        data::column_json(name, c).len() > 0,
        data::column_json(name, c)[0] == '"',
{
    reveal_strlit("\"");
    reveal_strlit("\":{");
    reveal_strlit("]");
    reveal_strlit("}");
    reveal_strlit("\"type\":\"float\",\"values\":[");
    reveal_strlit("\"type\":\"text\",\"values\":[");
    reveal_strlit(":{\"type\":\"float\",\"values\":[");
    reveal_strlit(":{\"type\":\"text\",\"values\":[");
    let s = data::column_json(name, c) + r;
    let (fl, tx) = (
        ":{\"type\":\"float\",\"values\":["@,
        ":{\"type\":\"text\",\"values\":["@,
    );
    let tail = "}"@ + r;
    lemma_after("}"@, r);
    match c {
        Cells::Float(v) => {
            let j = text::joined(shows(v), ","@);
            assert(shows(v) =~= Seq::new(v.len(), |i: int| v[i].spec_show()));
            let list = j + "]"@ + tail;
            let body = fl + list;
            assert(s =~= "\""@ + (escaped(name) + seq!['"'] + body));
            lemma_after("\""@, escaped(name) + seq!['"'] + body);
            lemma_quoted(name, body);
            lemma_after(fl, list);
            lemma_numbers(v, tail);
        },
        Cells::Text(v) => {
            let j = text::joined(in_quotes(v), ","@);
            assert(in_quotes(v) =~= Seq::new(
                v.len(),
                |i: int| "\""@ + escaped(v[i]) + "\""@,
            ));
            let list = j + "]"@ + tail;
            let body = tx + list;
            assert(s =~= "\""@ + (escaped(name) + seq!['"'] + body));
            lemma_after("\""@, escaped(name) + seq!['"'] + body);
            lemma_quoted(name, body);
            assert(after(body, fl) is None) by {
                if fl.len() <= body.len() {
                    assert(body.take(fl.len() as int)[10] == body[10]);
                    assert(body[10] == tx[10]);
                }
            }
            lemma_after(tx, list);
            lemma_texts(v, tail);
        },
    }
}

spec fn columns_text<S: Textual>(v: Seq<(Seq<char>, Cells<S>)>) -> Seq<Seq<char>> {
    Seq::new(v.len(), |i: int| data::column_json(v[i].0, v[i].1))
}

proof fn lemma_column_items<S: Textual>(v: Seq<(Seq<char>, Cells<S>)>, r: Seq<char>)
    requires
        v.len() > 0,
        forall|i: int| 0 <= i < v.len() ==> cells_keep((#[trigger] v[i]).1),
    ensures
        column_items::<S>(text::joined(columns_text(v), ","@) + "}"@ + r) == Some((v, r)),
    decreases v.len(),
{
    reveal_strlit("}");
    reveal_strlit(",");
    let q = columns_text(v);
    let s = text::joined(q, ","@) + "}"@ + r;
    let w = v.skip(1);
    let (name, c) = v[0];
    if w.len() == 0 {
        let tail = "}"@ + r;
        assert(s =~= data::column_json(name, c) + tail);
        lemma_column(name, c, tail);
        lemma_after("}"@, r);
        assert(seq![v[0]] =~= v);
    } else {
        lemma_joined_front(q, ","@);
        assert(q.skip(1) =~= columns_text(w));
        let next = text::joined(columns_text(w), ","@) + "}"@ + r;
        let tail = ","@ + next;
        assert(s =~= data::column_json(name, c) + tail);
        lemma_column(name, c, tail);
        lemma_not_after(tail, "}"@);
        lemma_after(","@, next);
        lemma_column_items(w, r);
        assert(next.len() < s.len());
        assert(seq![v[0]] + w =~= v);
    }
}

proof fn lemma_columns<S: Textual>(v: Seq<(Seq<char>, Cells<S>)>, r: Seq<char>)
    requires
        forall|i: int| 0 <= i < v.len() ==> cells_keep((#[trigger] v[i]).1),
    ensures
        column_list::<S>(text::joined(columns_text(v), ","@) + "}"@ + r) == Some((v, r)),
{
    reveal_strlit("}");
    let q = columns_text(v);
    let s = text::joined(q, ","@) + "}"@ + r;
    if v.len() == 0 {
        assert(q =~= Seq::<Seq<char>>::empty());
        assert(s =~= "}"@ + r);
        lemma_after("}"@, r);
        assert(v =~= Seq::<(Seq<char>, Cells<S>)>::empty());
    } else {
        lemma_column_items(v, r);
        if v.len() > 1 {
            lemma_joined_front(q, ","@);
        }
        lemma_column(v[0].0, v[0].1, Seq::empty());
        assert(s[0] == '"');
        lemma_not_after(s, "}"@);
    }
}

proof fn lemma_rows(source: Seq<char>, n: nat, r: Seq<char>)
    requires
        n <= usize::MAX,
    ensures
        row_count(
            "{\"source\":\""@ + escaped(source) + "\",\"num_rows\":"@ + text::digits(n)
                + ",\"columns\":{"@ + r,
        ) == Some((n, r)),
{
    reveal_strlit("{\"source\":\"");
    reveal_strlit("\",\"num_rows\":");
    reveal_strlit(",\"num_rows\":");
    reveal_strlit(",\"columns\":{");
    let d = text::digits(n);
    let s = "{\"source\":\""@ + escaped(source) + "\",\"num_rows\":"@ + d + ",\"columns\":{"@ + r;
    let last = ",\"columns\":{"@ + r;
    let c = d + last;
    let b = ",\"num_rows\":"@ + c;
    let a = escaped(source) + seq!['"'] + b;
    assert(s =~= "{\"source\":\""@ + a);
    lemma_after("{\"source\":\""@, a);
    lemma_quoted(source, b);
    lemma_after(",\"num_rows\":"@, c);
    text::lemma_digits_value(n);
    assert forall|i: int| 0 <= i < d.len() implies c[i] != ',' by {
        assert(c[i] == d[i]);
        assert('0' <= d[i] <= '9');
    }
    text::lemma_position(c, ',', d.len() as int);
    assert(c.take(d.len() as int) =~= d);
    assert(c.skip(d.len() as int) =~= last);
    lemma_after(",\"columns\":{"@, r);
    assert('0' <= d[0] <= '9');
}

/// The columns of a dataset, in the order of their names.
spec fn in_order<S>(ds: Dataset<S>) -> Seq<(Seq<char>, Cells<S>)> {
    let o = table::ordered(ds.columns.names());
    Seq::new(o.len(), |i: int| (o[i], ds.cells()[o[i]]))
}

proof fn lemma_taken_in<S>(ds: Dataset<S>, n: int)
    requires
        ds.wf(),
        0 <= n <= in_order(ds).len(),
        forall|k: Seq<char>| #[trigger]
            ds.cells().dom().contains(k) ==> ds.cells()[k].len() <= ds.num_rows,
    ensures
        ({
            let o = table::ordered(ds.columns.names());
            let (rows, cells) = data::taken_in(ds.num_rows as nat, in_order(ds), n);
            &&& rows == ds.num_rows
            &&& forall|k: Seq<char>| #[trigger]
                cells.dom().contains(k) <==> exists|i: int| 0 <= i < n && #[trigger] o[i] == k
            &&& forall|k: Seq<char>| #[trigger]
                cells.dom().contains(k) ==> cells[k] == ds.cells()[k]
        }),
    decreases n,
{
    let o = table::ordered(ds.columns.names());
    if n > 0 {
        lemma_taken_in(ds, n - 1);
        table::lemma_ordered_has(ds.columns, n - 1);
        let k = o[n - 1];
        assert(ds.cells().dom().contains(k));
        let (had, cells) = data::taken_in(ds.num_rows as nat, in_order(ds), n - 1);
        let after = data::taken_in(ds.num_rows as nat, in_order(ds), n).1;
        assert(after == cells.insert(k, ds.cells()[k]));
        assert forall|q: Seq<char>| #[trigger] after.dom().contains(q) <==> exists|i: int|
            0 <= i < n && #[trigger] o[i] == q by {
            if after.dom().contains(q) {
                if q == k {
                    assert(0 <= n - 1 < n && o[n - 1] == q);
                } else {
                    let i = choose|i: int| 0 <= i < n - 1 && #[trigger] o[i] == q;
                    assert(0 <= i < n && o[i] == q);
                }
            }
            if exists|i: int| 0 <= i < n && #[trigger] o[i] == q {
                let i = choose|i: int| 0 <= i < n && #[trigger] o[i] == q;
                if i < n - 1 {
                    assert(0 <= i < n - 1 && o[i] == q);
                }
            }
        }
    }
}

/// The numbers can be kept, and no column is longer than the dataset.
pub open spec fn can_be_kept<S: Textual>(ds: Dataset<S>) -> bool {
    forall|k: Seq<char>| #[trigger]
        ds.cells().dom().contains(k) ==> cells_keep(ds.cells()[k]) && ds.cells()[k].len()
            <= ds.num_rows
}

/// What was kept comes back: the text of a dataset gives its rows and its columns, whatever its
/// texts and names hold.
pub proof fn lemma_kept_comes_back<S: Textual>(ds: Dataset<S>)
    requires
        ds.wf(),
        can_be_kept(ds),
    ensures
        kept::<S>(data::cache_text(ds)) is Some,
        data::cached::<S>(data::cache_text(ds)) == (ds.num_rows as nat, ds.cells()),
{
    reveal_strlit("}");
    reveal_strlit("}}");
    let o = table::ordered(ds.columns.names());
    let v = in_order(ds);
    table::lemma_ordered_len(ds.columns.names());
    assert forall|i: int| 0 <= i < v.len() implies cells_keep((#[trigger] v[i]).1) by {
        table::lemma_ordered_has(ds.columns, i);
        assert(ds.cells().dom().contains(o[i]));
    }
    let j = text::joined(columns_text(v), ","@);
    assert(columns_text(v) =~= data::columns_json(
        ds.columns,
        ds.columns.names().len() as int,
    ));
    let tail = j + "}"@ + "}"@;
    assert(data::cache_text(ds) =~= "{\"source\":\""@ + escaped(ds.source@) + "\",\"num_rows\":"@
        + text::digits(ds.num_rows as nat) + ",\"columns\":{"@ + tail);
    lemma_rows(ds.source@, ds.num_rows as nat, tail);
    lemma_columns(v, "}"@);
    let n = v.len() as int;
    lemma_taken_in(ds, n);
    let cells = data::taken_in(ds.num_rows as nat, v, n).1;
    assert forall|k: Seq<char>| #[trigger] cells.dom().contains(k) <==> ds.cells().dom().contains(
        k,
    ) by {
        table::lemma_ordered_contains(ds.columns.names(), k);
        table::lemma_names(ds.columns, k);
        if ds.cells().dom().contains(k) {
            let i = choose|i: int| 0 <= i < o.len() && o[i] == k;
            assert(0 <= i < n && o[i] == k);
        }
        if cells.dom().contains(k) {
            let i = choose|i: int| 0 <= i < n && #[trigger] o[i] == k;
            assert(o.contains(k));
        }
    }
    assert(cells =~= ds.cells());
}

/// Fixed-point numbers of at most thirteen digits before the point can be kept.
pub proof fn lemma_fixed_reads_back(x: Fixed)
    requires
        crate::format::magnitude(x) < 10_000_000_000_000 * 65536,
    ensures
        reads_back(x),
{
    crate::format::lemma_shown_is_read(x);
    let s = x.spec_show();
    assert(!text::space(s[0]) && !text::space(s[s.len() - 1]));
}

/// Every number that is read from a text is read again as it is shown.
pub open spec fn keeps_numbers<S: Textual>() -> bool {
    forall|s: Seq<char>| (#[trigger] S::spec_read(s)) matches Some(x) ==> reads_back(x)
}

/// Fixed-point numbers keep what is read.
pub proof fn lemma_fixed_keeps_numbers()
    ensures
        keeps_numbers::<Fixed>(),
{
    assert forall|s: Seq<char>|
        (#[trigger] <Fixed as Textual>::spec_read(s)) is Some implies reads_back(
        <Fixed as Textual>::spec_read(s).unwrap(),
    ) by {
        crate::format::lemma_read_is_small(s);
        lemma_fixed_reads_back(<Fixed as Textual>::spec_read(s).unwrap());
    }
}

/// What was fetched and kept comes back, whatever the rows hold: where every number is read as it
/// is shown, the text of a dataset of rows gives its rows and its columns.
pub proof fn lemma_fetched_comes_back<S: Textual>(
    ds: Dataset<S>,
    rows: Seq<Map<Seq<char>, Seq<char>>>,
)
    requires
        keeps_numbers::<S>(),
        ds.wf(),
        ds.cells() == data::row_columns::<S>(rows),
        data::is_longest(ds.num_rows as nat, ds.cells()),
    ensures
        kept::<S>(data::cache_text(ds)) is Some,
        data::cached::<S>(data::cache_text(ds)) == (ds.num_rows as nat, ds.cells()),
{
    assert forall|k: Seq<char>| #[trigger] ds.cells().dom().contains(k) implies cells_keep(
        ds.cells()[k],
    ) && ds.cells()[k].len() <= ds.num_rows by {
        let v = data::row_column(rows, k);
        assert(ds.cells()[k] == data::inferred::<S>(v, false));
        if data::all_numbers::<S>(v, false) {
            assert forall|i: int| 0 <= i < v.len() implies S::spec_read(
                #[trigger] data::number_text(v[i], false),
            ) is Some by {}
        }
    }
    lemma_kept_comes_back(ds);
}

} // verus!
