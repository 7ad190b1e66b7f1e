//! Reading of flat JSON objects, and finding objects in a longer text.
use vstd::prelude::*;
use crate::table::Table;
use crate::text;
use crate::text::{chars_of, find, part, string_of, strip, trim};

verus! {

/// How far the splitting of an object into fields has come.
#[verifier::ext_equal]
pub struct Split {
    /// The fields that are complete.
    pub fields: Seq<Seq<char>>,
    /// The field that has begun.
    pub current: Seq<char>,
    /// Whether a string has begun.
    pub quoted: bool,
    /// Whether the next character is taken as it is.
    pub escaped: bool,
}

/// The state after one more character: commas outside strings end a field.
pub open spec fn split_step(st: Split, c: char) -> Split {
    if st.escaped {
        Split { current: st.current.push(c), escaped: false, ..st }
    } else if c == '\\' && st.quoted {
        Split { current: st.current.push(c), escaped: true, ..st }
    } else if c == '"' {
        Split { current: st.current.push(c), quoted: !st.quoted, ..st }
    } else if c == ',' && !st.quoted {
        Split { fields: st.fields.push(st.current), current: Seq::empty(), ..st }
    } else {
        Split { current: st.current.push(c), ..st }
    }
}

/// The state after a text.
pub open spec fn split_run(s: Seq<char>) -> Split
    decreases s.len(),
{
    if s.len() == 0 {
        Split { fields: Seq::empty(), current: Seq::empty(), quoted: false, escaped: false }
    } else {
        split_step(split_run(s.drop_last()), s.last())
    }
}

/// The fields of an object without its braces; a blank last field is none.
pub open spec fn fields_of(s: Seq<char>) -> Seq<Seq<char>> {
    let st = split_run(s);
    if text::trimmed(st.current).len() > 0 {
        st.fields.push(st.current)
    } else {
        st.fields
    }
}

/// Whether a string has begun, and whether the next character is taken as it is.
#[derive(Clone, Copy, PartialEq, Eq, Structural)]
pub struct Quotes {
    pub quoted: bool,
    pub escaped: bool,
}

/// Outside strings.
pub open spec fn outside() -> Quotes {
    Quotes { quoted: false, escaped: false }
}

/// The state after one more character.
pub open spec fn quote_step(q: Quotes, c: char) -> Quotes {
    if q.escaped {
        Quotes { escaped: false, ..q }
    } else if c == '\\' && q.quoted {
        Quotes { escaped: true, ..q }
    } else if c == '"' {
        Quotes { quoted: !q.quoted, ..q }
    } else {
        q
    }
}

fn next_quotes(q: Quotes, c: char) -> (r: Quotes)
    ensures
        r == quote_step(q, c),
{
    if q.escaped {
        Quotes { quoted: q.quoted, escaped: false }
    } else if c == '\\' && q.quoted {
        Quotes { quoted: true, escaped: true }
    } else if c == '"' {
        Quotes { quoted: !q.quoted, escaped: false }
    } else {
        q
    }
}

/// The first position of a character outside strings, from `i` on, or the length.
pub open spec fn outer_position(s: Seq<char>, c: char, i: int, q: Quotes) -> int
    decreases s.len() - i,
{
    if i >= s.len() {
        s.len() as int
    } else if !q.quoted && s[i] == c {
        i
    } else {
        outer_position(s, c, i + 1, quote_step(q, s[i]))
    }
}

fn find_outer(s: &[char], c: char) -> (r: usize)
    ensures
        r == outer_position(s@, c, 0, outside()),
        r <= s@.len(),
{
    let n: usize = s.len();
    let mut q = Quotes { quoted: false, escaped: false };
    let mut i: usize = 0;
    while i < n && !(!q.quoted && s[i] == c)
        invariant
            n == s@.len(),
            i <= n,
            outer_position(s@, c, 0, outside()) == outer_position(s@, c, i as int, q),
        decreases n - i,
    {
        q = next_quotes(q, s[i]);
        i = i + 1;
    }
    i
}

/// The name and the value of a field: what stands before and after the first colon outside
/// strings, without the space and then the quotes around them.
pub open spec fn pair_of(field: Seq<char>) -> Option<(Seq<char>, Seq<char>)> {
    let f = text::trimmed(field);
    let i = outer_position(f, ':', 0, outside());
    if i < f.len() {
        Some(
            (
                text::stripped(text::trimmed(f.take(i)), Some('"')),
                text::stripped(text::trimmed(f.skip(i + 1)), Some('"')),
            ),
        )
    } else {
        None
    }
}

/// The pairs of fields; a field without a colon has none.
pub open spec fn pairs_of(fields: Seq<Seq<char>>) -> Seq<(Seq<char>, Seq<char>)>
    decreases fields.len(),
{
    if fields.len() == 0 {
        Seq::empty()
    } else {
        let rest = pairs_of(fields.drop_last());
        match pair_of(fields.last()) {
            Some(p) => rest.push(p),
            None => rest,
        }
    }
}

/// The pairs of an object; a text that is not in braces has none.
pub open spec fn object_pairs(line: Seq<char>) -> Seq<(Seq<char>, Seq<char>)> {
    let t = text::trimmed(line);
    if t.len() >= 2 && t[0] == '{' && t.last() == '}' {
        pairs_of(fields_of(t.subrange(1, t.len() - 1)))
    } else {
        Seq::empty()
    }
}

/// The texts of pairs.
pub open spec fn pair_texts(v: Seq<(String, String)>) -> Seq<(Seq<char>, Seq<char>)> {
    Seq::new(v.len(), |i: int| (v[i].0@, v[i].1@))
}

fn split_fields(s: &[char]) -> (r: Vec<Vec<char>>)
    ensures
        text::views(r@) == fields_of(s@),
{
    let mut fields: Vec<Vec<char>> = Vec::new();
    let mut current: Vec<char> = Vec::new();
    let mut quoted = false;
    let mut escaped = false;
    assert(s@.take(0) =~= Seq::<char>::empty());
    assert(text::views(fields@) =~= Seq::<Seq<char>>::empty());
    for i in 0..s.len()
        invariant
            split_run(s@.take(i as int)) =~= (Split {
                fields: text::views(fields@),
                current: current@,
                quoted,
                escaped,
            }),
    {
        let c = s[i];
        proof {
            assert(s@.take(i + 1).drop_last() =~= s@.take(i as int));
            assert(s@.take(i + 1).last() == c);
        }
        if escaped {
            current.push(c);
            escaped = false;
        } else if c == '\\' && quoted {
            current.push(c);
            escaped = true;
        } else if c == '"' {
            quoted = !quoted;
            current.push(c);
        } else if c == ',' && !quoted {
            let ghost before = text::views(fields@);
            let ghost cur = current@;
            fields.push(current);
            current = Vec::new();
            assert(text::views(fields@) =~= before.push(cur));
            assert(current@ =~= Seq::<char>::empty());
        } else {
            current.push(c);
        }
    }
    assert(s@.take(s@.len() as int) =~= s@);
    let rest = trim(&current);
    if rest.len() > 0 {
        let ghost before = text::views(fields@);
        let ghost cur = current@;
        fields.push(current);
        assert(text::views(fields@) =~= before.push(cur));
    }
    fields
}

fn read_pair(field: &[char]) -> (r: Option<(String, String)>)
    ensures
        match r {
            Some(p) => pair_of(field@) == Some((p.0@, p.1@)),
            None => pair_of(field@) is None,
        },
{
    let f = trim(field);
    let i: usize = find_outer(&f, ':');
    if i >= f.len() {
        return None;
    }
    proof {
        assert(f@.subrange(0, i as int) =~= f@.take(i as int));
        assert(f@.subrange(i + 1, f@.len() as int) =~= f@.skip(i + 1));
    }
    let key = part(&f, 0, i);
    let key = strip(&trim(&key), Some('"'));
    let value = part(&f, i + 1, f.len());
    let value = strip(&trim(&value), Some('"'));
    Some((string_of(&key), string_of(&value)))
}

/// The names and values of a flat object.
pub fn parse_object(line: &[char]) -> (r: Vec<(String, String)>)
    ensures
        pair_texts(r@) == object_pairs(line@),
{
    let mut pairs: Vec<(String, String)> = Vec::new();
    let t = trim(line);
    if !(t.len() >= 2 && t[0] == '{' && t[t.len() - 1] == '}') {
        assert(pair_texts(pairs@) =~= Seq::<(Seq<char>, Seq<char>)>::empty());
        return pairs;
    }
    let inner = part(&t, 1, t.len() - 1);
    let fields = split_fields(&inner);
    let ghost all = text::views(fields@);
    assert(all.take(0) =~= Seq::<Seq<char>>::empty());
    assert(pair_texts(pairs@) =~= Seq::<(Seq<char>, Seq<char>)>::empty());
    for i in 0..fields.len()
        invariant
            all == text::views(fields@),
            pair_texts(pairs@) =~= pairs_of(all.take(i as int)),
    {
        proof {
            assert(all.take(i + 1).drop_last() =~= all.take(i as int));
            assert(all.take(i + 1).last() == fields@[i as int]@);
        }
        let ghost before = pair_texts(pairs@);
        if let Some(p) = read_pair(&fields[i]) {
            let ghost pp = (p.0@, p.1@);
            pairs.push(p);
            assert(pair_texts(pairs@) =~= before.push(pp));
        }
    }
    assert(all.take(all.len() as int) =~= all);
    pairs
}

/// The names and values of a flat object: fields are parted by commas outside strings, a field
/// by its first colon outside strings.
pub fn parse_simple_json_object(line: &str) -> (r: Vec<(String, String)>)
    ensures
        pair_texts(r@) == object_pairs(line@),
{
    let v = chars_of(line);
    parse_object(&v)
}

// ---- Objects in a longer text

/// How far the search for objects has come.
#[verifier::ext_equal]
pub struct Nest {
    /// The objects that are complete.
    pub objects: Seq<Seq<char>>,
    /// How many braces are open; below zero where more were closed.
    pub depth: int,
    /// Where the outermost object began.
    pub start: Option<int>,
    /// Whether a string has begun.
    pub quotes: Quotes,
}

/// The state after the character at position `i`: braces in strings do not count.
pub open spec fn nest_step(s: Seq<char>, st: Nest, i: int) -> Nest {
    let quotes = quote_step(st.quotes, s[i]);
    if st.quotes.quoted {
        Nest { quotes, ..st }
    } else if s[i] == '{' {
        Nest {
            quotes,
            start: if st.depth == 0 {
                Some(i)
            } else {
                st.start
            },
            depth: st.depth + 1,
            ..st
        }
    } else if s[i] == '}' {
        if st.depth - 1 == 0 {
            Nest {
                objects: match st.start {
                    Some(b) => st.objects.push(s.subrange(b, i + 1)),
                    None => st.objects,
                },
                depth: 0,
                start: None,
                quotes,
            }
        } else {
            Nest { depth: st.depth - 1, quotes, ..st }
        }
    } else {
        Nest { quotes, ..st }
    }
}

/// The state after the first `n` characters.
pub open spec fn nest_run(s: Seq<char>, n: int) -> Nest
    decreases n,
{
    if n <= 0 {
        Nest { objects: Seq::empty(), depth: 0, start: None, quotes: outside() }
    } else {
        nest_step(s, nest_run(s, n - 1), n - 1)
    }
}

/// The outermost objects in a text.
pub open spec fn objects_in(s: Seq<char>) -> Seq<Seq<char>> {
    nest_run(s, s.len() as int).objects
}

/// The outermost objects in a text, with their braces.
pub fn split_objects(s: &[char]) -> (r: Vec<Vec<char>>)
    ensures
        text::views(r@) == objects_in(s@),
{
    let mut objects: Vec<Vec<char>> = Vec::new();
    let mut depth: i128 = 0;
    let mut start: Option<usize> = None;
    let mut quotes = Quotes { quoted: false, escaped: false };
    assert(text::views(objects@) =~= Seq::<Seq<char>>::empty());
    let n: usize = s.len();
    for i in 0..n
        invariant
            n == s@.len(),
            nest_run(s@, i as int) =~= (Nest {
                objects: text::views(objects@),
                depth: depth as int,
                start: match start {
                    Some(b) => Some(b as int),
                    None => None,
                },
                quotes,
            }),
            -(i as int) <= depth <= i,
            start matches Some(b) ==> b < i,
    {
        let q = quotes;
        quotes = next_quotes(q, s[i]);
        if q.quoted {
        } else if s[i] == '{' {
            if depth == 0 {
                start = Some(i);
            }
            depth = depth + 1;
        } else if s[i] == '}' {
            depth = depth - 1;
            if depth == 0 {
                if let Some(b) = start {
                    let ghost before = text::views(objects@);
                    let item = part(s, b, i + 1);
                    objects.push(item);
                    assert(text::views(objects@) =~= before.push(item@));
                }
                start = None;
            }
        }
    }
    objects
}

/// The outermost objects in the body of an array.
pub fn split_json_objects(body: &str) -> (r: Vec<String>)
    ensures
        text::texts(r@) == objects_in(body@),
{
    let v = chars_of(body);
    let objects = split_objects(&v);
    let mut r: Vec<String> = Vec::new();
    for i in 0..objects.len()
        invariant
            text::texts(r@) =~= text::views(objects@).take(i as int),
    {
        let ghost before = text::texts(r@);
        let s = string_of(&objects[i]);
        r.push(s);
        assert(text::texts(r@) =~= before.push(s@));
    }
    r
}

// ---- Rows

/// The pairs as a map; where a name comes twice, the last value counts.
pub open spec fn row_of(pairs: Seq<(Seq<char>, Seq<char>)>) -> Map<Seq<char>, Seq<char>>
    decreases pairs.len(),
{
    if pairs.len() == 0 {
        Map::empty()
    } else {
        row_of(pairs.drop_last()).insert(pairs.last().0, pairs.last().1)
    }
}

/// The texts of a row.
pub open spec fn row_texts(t: Table<String>) -> Map<Seq<char>, Seq<char>> {
    t@.map_values(|s: String| s@)
}

/// The texts of rows.
pub open spec fn rows_texts(v: Seq<Table<String>>) -> Seq<Map<Seq<char>, Seq<char>>> {
    Seq::new(v.len(), |i: int| row_texts(v[i]))
}

/// No row has a name twice.
pub open spec fn rows_wf(v: Seq<Table<String>>) -> bool {
    forall|i: int| 0 <= i < v.len() ==> (#[trigger] v[i]).wf()
}

fn row_from(pairs: Vec<(String, String)>) -> (r: Table<String>)
    ensures
        r.wf(),
        row_texts(r) == row_of(pair_texts(pairs@)),
{
    let mut row: Table<String> = Table::new();
    let ghost all = pair_texts(pairs@);
    assert(all.take(0) =~= Seq::<(Seq<char>, Seq<char>)>::empty());
    assert(row_texts(row) =~= Map::<Seq<char>, Seq<char>>::empty());
    for i in 0..pairs.len()
        invariant
            all == pair_texts(pairs@),
            row.wf(),
            row_texts(row) =~= row_of(all.take(i as int)),
    {
        proof {
            assert(all.take(i + 1).drop_last() =~= all.take(i as int));
        }
        let ghost before = row;
        let value = text::owned(pairs[i].1.as_str());
        row.insert(pairs[i].0.as_str(), value);
        proof {
            assert(row_texts(row) =~= row_texts(before).insert(all[i as int].0, all[i as int].1));
        }
    }
    assert(all.take(all.len() as int) =~= all);
    row
}

/// Where the brace closes that opens the object around position `i`, if it does; braces in
/// strings do not count.
pub open spec fn close_at(s: Seq<char>, i: int, depth: int, q: Quotes) -> Option<int>
    decreases s.len() - i,
{
    if i >= s.len() {
        None
    } else if q.quoted {
        close_at(s, i + 1, depth, quote_step(q, s[i]))
    } else if s[i] == '{' {
        close_at(s, i + 1, depth + 1, q)
    } else if s[i] == '}' {
        if depth - 1 == 0 {
            Some(i)
        } else {
            close_at(s, i + 1, depth - 1, q)
        }
    } else {
        close_at(s, i + 1, depth, quote_step(q, s[i]))
    }
}

/// The first position of a character at or after `from`, or the length.
pub open spec fn position_from(s: Seq<char>, c: char, from: int) -> int {
    from + text::position(s.skip(from), c)
}

/// The rows in an array from a position on: the object after each `"row"`. `None` where the
/// braces of an object do not close.
pub open spec fn rows_from(s: Seq<char>, pos: int) -> Option<Seq<Map<Seq<char>, Seq<char>>>>
    decreases s.len() - pos,
{
    if pos < 0 || pos > s.len() {
        Some(Seq::empty())
    } else {
        match text::seek(s, "\"row\""@, pos) {
            None => Some(Seq::empty()),
            Some(at) => {
                let brace = position_from(s, '{', at + 5);
                if brace >= s.len() || at < pos {
                    Some(Seq::empty())
                } else {
                    match close_at(s, brace, 0, outside()) {
                        None => None,
                        Some(end) => if end < pos || end >= s.len() {
                            None
                        } else {
                            match rows_from(s, end + 1) {
                                None => None,
                                Some(rest) => Some(
                                    seq![row_of(object_pairs(s.subrange(brace, end + 1)))]
                                        + rest,
                                ),
                            }
                        },
                    }
                }
            },
        }
    }
}

/// The rows in a response: those in the array after `"rows"`.
pub open spec fn response_rows(body: Seq<char>) -> Option<Seq<Map<Seq<char>, Seq<char>>>> {
    match text::seek(body, "\"rows\""@, 0) {
        None => Some(Seq::empty()),
        Some(at) => {
            let bracket = position_from(body, '[', at);
            if bracket >= body.len() {
                Some(Seq::empty())
            } else {
                rows_from(body.skip(bracket + 1), 0)
            }
        },
    }
}

proof fn lemma_close_bounds(s: Seq<char>, i: int, depth: int, q: Quotes)
    requires
        0 <= i,
    ensures
        close_at(s, i, depth, q) matches Some(e) ==> i <= e < s.len(),
        i < s.len() && s[i] == '{' && depth == 0 && !q.quoted ==> (close_at(
            s,
            i,
            depth,
            q,
        ) matches Some(e) ==> i < e),
    decreases s.len() - i,
{
    if i < s.len() {
        if q.quoted {
            lemma_close_bounds(s, i + 1, depth, quote_step(q, s[i]));
        } else if s[i] == '{' {
            lemma_close_bounds(s, i + 1, depth + 1, q);
        } else if s[i] == '}' {
            lemma_close_bounds(s, i + 1, depth - 1, q);
        } else {
            lemma_close_bounds(s, i + 1, depth, quote_step(q, s[i]));
        }
    }
}

fn find_close(s: &[char], brace: usize) -> (r: Option<usize>)
    requires
        brace <= s@.len(),
    ensures
        match r {
            Some(e) => close_at(s@, brace as int, 0, outside()) == Some(e as int) && e < s@.len(),
            None => close_at(s@, brace as int, 0, outside()) is None,
        },
{
    let n: usize = s.len();
    let mut depth: i128 = 0;
    let mut q = Quotes { quoted: false, escaped: false };
    let mut i: usize = brace;
    while i < n
        invariant
            n == s@.len(),
            brace <= i <= n,
            !q.quoted ==> !q.escaped,
            close_at(s@, brace as int, 0, outside()) == close_at(s@, i as int, depth as int, q),
            -(i as int) <= depth <= i,
        decreases n - i,
    {
        if !q.quoted && s[i] == '{' {
            depth = depth + 1;
        } else if !q.quoted && s[i] == '}' {
            depth = depth - 1;
            if depth == 0 {
                return Some(i);
            }
        } else {
            q = next_quotes(q, s[i]);
        }
        i = i + 1;
    }
    None
}

fn find_from(s: &[char], c: char, from: usize) -> (r: usize)
    requires
        from <= s@.len(),
    ensures
        r == position_from(s@, c, from as int),
        from <= r <= s@.len(),
        r < s@.len() ==> s@[r as int] == c,
{
    let mut i: usize = from;
    while i < s.len() && s[i] != c
        invariant
            from <= i <= s@.len(),
            forall|j: int| from <= j < i ==> s@[j] != c,
        decreases s@.len() - i,
    {
        i = i + 1;
    }
    proof {
        let t = s@.skip(from as int);
        assert forall|j: int| 0 <= j < i - from implies t[j] != c by {
            assert(s@[from + j] != c);
        }
        text::lemma_position(t, c, i - from);
    }
    i
}

/// The rows with the first ones in front.
pub open spec fn after_rows(
    done: Seq<Map<Seq<char>, Seq<char>>>,
    rest: Option<Seq<Map<Seq<char>, Seq<char>>>>,
) -> Option<Seq<Map<Seq<char>, Seq<char>>>> {
    match rest {
        Some(r) => Some(done + r),
        None => None,
    }
}

fn read_rows(s: &[char]) -> (r: Option<Vec<Table<String>>>)
    ensures
        match r {
            Some(rows) => rows_wf(rows@) && rows_from(s@, 0) == Some(rows_texts(rows@)),
            None => rows_from(s@, 0) is None,
        },
{
    let mut rows: Vec<Table<String>> = Vec::new();
    let marker = chars_of("\"row\"");
    proof {
        reveal_strlit("\"row\"");
    }
    let n: usize = s.len();
    let mut pos: usize = 0;
    assert(after_rows(rows_texts(rows@), rows_from(s@, 0)) == rows_from(s@, 0)) by {
        assert(rows_texts(rows@) =~= Seq::empty());
        if rows_from(s@, 0) is Some {
            assert(rows_texts(rows@) + rows_from(s@, 0).unwrap() =~= rows_from(s@, 0).unwrap());
        }
    }
    loop
        invariant
            n == s@.len(),
            pos <= n,
            marker@ == "\"row\""@,
            marker@.len() == 5,
            rows_wf(rows@),
            rows_from(s@, 0) == after_rows(rows_texts(rows@), rows_from(s@, pos as int)),
        decreases n - pos,
    {
        let ghost done = rows_texts(rows@);
        assert(done + Seq::<Map<Seq<char>, Seq<char>>>::empty() =~= done);
        let found = find(s, &marker, pos);
        proof {
            text::lemma_seek(s@, marker@, pos as int, found);
        }
        let at: usize = match found {
            Some(i) => i,
            None => {
                return Some(rows);
            },
        };
        let brace: usize = find_from(s, '{', at + 5);
        if brace >= n {
            return Some(rows);
        }
        proof {
            lemma_close_bounds(s@, brace as int, 0, outside());
        }
        match find_close(s, brace) {
            None => {
                return None;
            },
            Some(end) => {
                let object = part(s, brace, end + 1);
                let row = row_from(parse_object(&object));
                rows.push(row);
                proof {
                    let item = row_of(object_pairs(s@.subrange(brace as int, end + 1)));
                    assert(rows_texts(rows@) =~= done.push(item));
                    match rows_from(s@, end + 1) {
                        Some(rest) => {
                            assert(done + (seq![item] + rest) =~= done.push(item) + rest);
                        },
                        None => {},
                    }
                }
                pos = end + 1;
            },
        }
    }
}

/// The rows in a response, or `None` where the braces of a row do not close.
pub fn try_extract_rows(body: &str) -> (r: Option<Vec<Table<String>>>)
    ensures
        match r {
            Some(rows) => rows_wf(rows@) && response_rows(body@) == Some(rows_texts(rows@)),
            None => response_rows(body@) is None,
        },
{
    let s = chars_of(body);
    let marker = chars_of("\"rows\"");
    proof {
        reveal_strlit("\"rows\"");
    }
    let none: Vec<Table<String>> = Vec::new();
    assert(rows_texts(none@) =~= Seq::empty());
    let found = find(&s, &marker, 0);
    proof {
        text::lemma_seek(s@, marker@, 0, found);
    }
    match found {
        None => Some(none),
        Some(at) => {
            let bracket: usize = find_from(&s, '[', at);
            if bracket >= s.len() {
                return Some(none);
            }
            let array = part(&s, bracket + 1, s.len());
            assert(array@ =~= s@.skip(bracket + 1));
            read_rows(&array)
        },
    }
}

/// The rows in a response: the object after each `"row"` in the array after `"rows"`.
pub fn extract_rows_from_hf_json(body: &str) -> (r: Vec<Table<String>>)
    requires
        response_rows(body@) is Some,
    ensures
        rows_wf(r@),
        response_rows(body@) == Some(rows_texts(r@)),
{
    try_extract_rows(body).unwrap()
}

} // verus!
