//! Text as sequences of characters.
use vstd::prelude::*;
use vstd::string::StringExecFns;

verus! {

/// `String::push` appends the given character to the end of the string.
pub assume_specification[ String::push ](s: &mut String, c: char)
    ensures
        final(s)@ == old(s)@.push(c),
;

/// The characters of a string.
pub fn chars_of(s: &str) -> (r: Vec<char>)
    ensures
        r@ == s@,
{
    let mut r: Vec<char> = Vec::new();
    for c in it: s.chars()
        invariant
            r@ =~= it.seq().take(it.index() as int),
            it.seq() == s@,
    {
        r.push(c);
    }
    r
}

/// The string of the given characters.
pub fn string_of(v: &[char]) -> (r: String)
    ensures
        r@ == v@,
{
    let mut r = String::new();
    for i in 0..v.len()
        invariant
            r@ =~= v@.take(i as int),
    {
        r.push(v[i]);
    }
    r
}

/// A string of its own with the same characters.
pub fn owned(s: &str) -> (r: String)
    ensures
        r@ == s@,
{
    String::from_str(s)
}

/// Part of a character sequence.
pub fn part(v: &[char], i: usize, j: usize) -> (r: Vec<char>)
    requires
        i <= j <= v@.len(),
    ensures
        r@ == v@.subrange(i as int, j as int),
{
    let mut r: Vec<char> = Vec::new();
    for k in i..j
        invariant
            j <= v@.len(),
            i <= j,
            r@ =~= v@.subrange(i as int, k as int),
    {
        r.push(v[k]);
    }
    r
}

/// Whether two character sequences are equal.
pub fn same_chars(a: &[char], b: &[char]) -> (r: bool)
    ensures
        r == (a@ == b@),
{
    if a.len() != b.len() {
        return false;
    }
    for i in 0..a.len()
        invariant
            a@.len() == b@.len(),
            forall|j: int| 0 <= j < i ==> a@[j] == b@[j],
    {
        if a[i] != b[i] {
            assert(a@[i as int] != b@[i as int]);
            return false;
        }
    }
    assert(a@ =~= b@);
    true
}

/// The decimal digits of a number.
pub open spec fn digits(n: nat) -> Seq<char>
    decreases n,
{
    if n < 10 {
        seq![digit(n)]
    } else {
        digits(n / 10).push(digit(n % 10))
    }
}

/// The character of a digit.
pub open spec fn digit(d: nat) -> char {
    (48 + d) as char
}

pub fn digit_char(d: u64) -> (r: char)
    requires
        d < 10,
    ensures
        r == digit(d as nat),
{
    (48u8 + d as u8) as char
}

/// The decimal representation of a number.
pub fn decimal(n: u64) -> (r: String)
    ensures
        r@ == digits(n as nat),
    decreases n,
{
    if n < 10 {
        let mut s = String::new();
        s.push(digit_char(n));
        assert(s@ =~= seq![digit(n as nat)]);
        s
    } else {
        let mut s = decimal(n / 10);
        s.push(digit_char(n % 10));
        s
    }
}

/// Numbers in square brackets, separated by a comma and a space.
pub open spec fn listed(v: Seq<usize>) -> Seq<char> {
    "["@ + listed_items(v) + "]"@
}

pub open spec fn listed_items(v: Seq<usize>) -> Seq<char>
    decreases v.len(),
{
    if v.len() == 0 {
        Seq::empty()
    } else if v.len() == 1 {
        digits(v[0] as nat)
    } else {
        listed_items(v.drop_last()) + ", "@ + digits(v.last() as nat)
    }
}

pub fn list(v: &[usize]) -> (r: String)
    ensures
        r@ == listed(v@),
{
    let mut s = String::new();
    for i in 0..v.len()
        invariant
            s@ == listed_items(v@.take(i as int)),
    {
        proof {
            assert(v@.take(i + 1).drop_last() =~= v@.take(i as int));
            assert(v@.take(i + 1).last() == v@[i as int]);
        }
        if i > 0 {
            s.append(", ");
        }
        let ghost before = s@;
        s.append(decimal(v[i] as u64).as_str());
        proof {
            if i == 0 {
                assert(s@ =~= digits(v@[0] as nat));
            }
        }
    }
    assert(v@.take(v@.len() as int) =~= v@);
    let r = String::from_str("[").concat(s.as_str()).concat("]");
    assert(r@ =~= listed(v@));
    r
}

/// Whether a character is white space.
pub open spec fn space(c: char) -> bool {
    let u = c as u32;
    ||| 9 <= u <= 13
    ||| u == 0x20
    ||| u == 0x85
    ||| u == 0xa0
    ||| u == 0x1680
    ||| 0x2000 <= u <= 0x200a
    ||| u == 0x2028
    ||| u == 0x2029
    ||| u == 0x202f
    ||| u == 0x205f
    ||| u == 0x3000
}

pub fn is_space(c: char) -> (r: bool)
    ensures
        r == space(c),
{
    let u: u32 = c as u32;
    (9 <= u && u <= 13) || u == 0x20 || u == 0x85 || u == 0xa0 || u == 0x1680 || (0x2000 <= u && u
        <= 0x200a) || u == 0x2028 || u == 0x2029 || u == 0x202f || u == 0x205f || u == 0x3000
}

/// What is stripped: the given character, or white space where none is given.
pub open spec fn strips(quote: Option<char>, c: char) -> bool {
    match quote {
        Some(q) => c == q,
        None => space(c),
    }
}

pub open spec fn strip_front(s: Seq<char>, quote: Option<char>) -> Seq<char>
    decreases s.len(),
{
    if s.len() > 0 && strips(quote, s[0]) {
        strip_front(s.skip(1), quote)
    } else {
        s
    }
}

pub open spec fn strip_back(s: Seq<char>, quote: Option<char>) -> Seq<char>
    decreases s.len(),
{
    if s.len() > 0 && strips(quote, s.last()) {
        strip_back(s.drop_last(), quote)
    } else {
        s
    }
}

/// The text without what is stripped at its ends.
pub open spec fn stripped(s: Seq<char>, quote: Option<char>) -> Seq<char> {
    strip_back(strip_front(s, quote), quote)
}

/// The text without white space at its ends.
pub open spec fn trimmed(s: Seq<char>) -> Seq<char> {
    stripped(s, None)
}

fn strips_char(quote: Option<char>, c: char) -> (r: bool)
    ensures
        r == strips(quote, c),
{
    match quote {
        Some(q) => c == q,
        None => is_space(c),
    }
}

pub fn strip(v: &[char], quote: Option<char>) -> (r: Vec<char>)
    ensures
        r@ == stripped(v@, quote),
{
    let mut i: usize = 0;
    assert(v@.skip(0) =~= v@);
    while i < v.len() && strips_char(quote, v[i])
        invariant
            i <= v@.len(),
            strip_front(v@, quote) == strip_front(v@.skip(i as int), quote),
        decreases v@.len() - i,
    {
        assert(v@.skip(i as int).skip(1) =~= v@.skip(i + 1));
        i += 1;
    }
    let ghost f = v@.skip(i as int);
    assert(strip_front(v@, quote) == f);
    let mut j: usize = v.len();
    assert(v@.subrange(i as int, j as int) =~= f);
    while i < j && strips_char(quote, v[j - 1])
        invariant
            i <= j <= v@.len(),
            strip_back(f, quote) == strip_back(v@.subrange(i as int, j as int), quote),
        decreases j,
    {
        assert(v@.subrange(i as int, j as int).drop_last() =~= v@.subrange(i as int, j - 1));
        j -= 1;
    }
    part(v, i, j)
}

pub fn trim(v: &[char]) -> (r: Vec<char>)
    ensures
        r@ == trimmed(v@),
{
    strip(v, None)
}

/// Whether the text holds the pattern at position `i`.
pub open spec fn occurs(s: Seq<char>, p: Seq<char>, i: int) -> bool {
    0 <= i && i + p.len() <= s.len() && s.subrange(i, i + p.len()) == p
}

/// The first position from `from` on at which the text holds the pattern.
pub open spec fn is_first(s: Seq<char>, p: Seq<char>, from: int, r: Option<usize>) -> bool {
    match r {
        Some(i) => from <= i && occurs(s, p, i as int) && forall|j: int|
            from <= j < i ==> !#[trigger] occurs(s, p, j),
        None => forall|j: int| from <= j ==> !#[trigger] occurs(s, p, j),
    }
}

pub(crate) fn occurs_at(s: &[char], p: &[char], i: usize) -> (r: bool)
    requires
        i <= s@.len(),
    ensures
        r == occurs(s@, p@, i as int),
{
    if p.len() > s.len() - i {
        return false;
    }
    let len: usize = s.len();
    for k in 0..p.len()
        invariant
            len == s@.len(),
            i + p@.len() <= len,
            forall|j: int| 0 <= j < k ==> s@[i + j] == p@[j],
    {
        if s[i + k] != p[k] {
            assert(s@.subrange(i as int, i + p@.len())[k as int] != p@[k as int]);
            return false;
        }
    }
    assert(s@.subrange(i as int, i + p@.len()) =~= p@);
    true
}

/// The first position from `from` on at which the text holds the pattern.
pub fn find(s: &[char], p: &[char], from: usize) -> (r: Option<usize>)
    ensures
        is_first(s@, p@, from as int, r),
{
    if from > s.len() {
        return None;
    }
    let mut i: usize = from;
    while i <= s.len()
        invariant
            from <= i <= s@.len() + 1,
            forall|j: int| from <= j < i ==> !#[trigger] occurs(s@, p@, j),
        decreases s@.len() + 1 - i,
    {
        if occurs_at(s, p, i) {
            return Some(i);
        }
        if i == s.len() {
            return None;
        }
        i += 1;
    }
    None
}

/// Whether the text holds the pattern.
pub open spec fn holds_text(s: Seq<char>, p: Seq<char>) -> bool {
    exists|i: int| #[trigger] occurs(s, p, i)
}

pub fn contains(s: &[char], p: &str) -> (r: bool)
    ensures
        r == holds_text(s@, p@),
{
    let q = chars_of(p);
    match find(s, &q, 0) {
        Some(i) => true,
        None => false,
    }
}

pub fn starts_with(s: &[char], p: &str) -> (r: bool)
    ensures
        r == occurs(s@, p@, 0),
{
    let q = chars_of(p);
    occurs_at(s, &q, 0)
}

pub open spec fn ends(s: Seq<char>, p: Seq<char>) -> bool {
    occurs(s, p, s.len() - p.len())
}

pub fn ends_with(s: &[char], p: &str) -> (r: bool)
    ensures
        r == ends(s@, p@),
{
    let q = chars_of(p);
    if q.len() > s.len() {
        return false;
    }
    occurs_at(s, &q, s.len() - q.len())
}

/// Whether the characters are those of the string.
pub fn is_text(s: &[char], p: &str) -> (r: bool)
    ensures
        r == (s@ == p@),
{
    let q = chars_of(p);
    same_chars(s, &q)
}

/// The first position of a character.
pub open spec fn first_of(s: Seq<char>, c: char, r: Option<usize>) -> bool {
    match r {
        Some(i) => i < s.len() && s[i as int] == c && forall|j: int|
            0 <= j < i ==> #[trigger] s[j] != c,
        None => forall|j: int| 0 <= j < s.len() ==> #[trigger] s[j] != c,
    }
}

pub fn find_char(s: &[char], c: char) -> (r: Option<usize>)
    ensures
        first_of(s@, c, r),
{
    for i in 0..s.len()
        invariant
            forall|j: int| 0 <= j < i ==> #[trigger] s@[j] != c,
    {
        if s[i] == c {
            return Some(i);
        }
    }
    None
}

/// The last position of a character.
pub open spec fn last_of(s: Seq<char>, c: char, r: Option<usize>) -> bool {
    match r {
        Some(i) => i < s.len() && s[i as int] == c && forall|j: int|
            i < j < s.len() ==> #[trigger] s[j] != c,
        None => forall|j: int| 0 <= j < s.len() ==> #[trigger] s[j] != c,
    }
}

pub fn rfind_char(s: &[char], c: char) -> (r: Option<usize>)
    ensures
        last_of(s@, c, r),
{
    let mut i: usize = s.len();
    while i > 0
        invariant
            i <= s@.len(),
            forall|j: int| i <= j < s@.len() ==> #[trigger] s@[j] != c,
        decreases i,
    {
        i -= 1;
        if s[i] == c {
            return Some(i);
        }
    }
    None
}

/// The pieces between the separators.
pub open spec fn split_on(s: Seq<char>, c: char) -> Seq<Seq<char>>
    decreases s.len(),
{
    if s.len() == 0 {
        seq![Seq::empty()]
    } else {
        let t = split_on(s.drop_last(), c);
        if s.last() == c {
            t.push(Seq::empty())
        } else {
            t.drop_last().push(t.last().push(s.last()))
        }
    }
}

pub(crate) proof fn lemma_split_nonempty(s: Seq<char>, c: char)
    ensures
        split_on(s, c).len() > 0,
    decreases s.len(),
{
    if s.len() > 0 {
        lemma_split_nonempty(s.drop_last(), c);
    }
}

/// Where a text goes on without the separator, its last piece does.
pub proof fn lemma_split_more(p: Seq<char>, l: Seq<char>, c: char)
    requires
        forall|i: int| 0 <= i < l.len() ==> l[i] != c,
    ensures
        split_on(p, c).len() > 0,
        split_on(p + l, c) == split_on(p, c).drop_last().push(
            split_on(p, c).last() + l,
        ),
    decreases l.len(),
{
    lemma_split_nonempty(p, c);
    let t = split_on(p, c);
    if l.len() == 0 {
        assert(p + l =~= p);
        assert(t.last() + l =~= t.last());
        assert(t =~= t.drop_last().push(t.last()));
    } else {
        lemma_split_more(p, l.drop_last(), c);
        assert((p + l).drop_last() =~= p + l.drop_last());
        assert((t.last() + l.drop_last()).push(l.last()) =~= t.last() + l);
        let u = split_on(p + l.drop_last(), c);
        assert(u.drop_last() =~= t.drop_last());
    }
}

/// The views of a list of character vectors.
pub open spec fn views(v: Seq<Vec<char>>) -> Seq<Seq<char>> {
    Seq::new(v.len(), |i: int| v[i]@)
}

/// The views of a list of borrowed strings.
pub open spec fn str_texts(v: Seq<&str>) -> Seq<Seq<char>> {
    Seq::new(v.len(), |i: int| v[i]@)
}

/// The views of a list of strings.
pub open spec fn texts(v: Seq<String>) -> Seq<Seq<char>> {
    Seq::new(v.len(), |i: int| v[i]@)
}

pub fn split(s: &[char], c: char) -> (r: Vec<Vec<char>>)
    ensures
        views(r@) == split_on(s@, c),
        r@.len() > 0,
{
    let mut done: Vec<Vec<char>> = Vec::new();
    let mut current: Vec<char> = Vec::new();
    assert(views(done@).push(current@) =~= split_on(s@.take(0), c));
    for i in 0..s.len()
        invariant
            views(done@).push(current@) == split_on(s@.take(i as int), c),
    {
        let ghost t = split_on(s@.take(i as int), c);
        proof {
            assert(s@.take(i + 1).drop_last() =~= s@.take(i as int));
            assert(s@.take(i + 1).last() == s@[i as int]);
            assert(t.drop_last() =~= views(done@));
            assert(t.last() == current@);
        }
        if s[i] == c {
            done.push(current);
            current = Vec::new();
            assert(views(done@) =~= t);
            assert(current@ =~= Seq::<char>::empty());
        } else {
            current.push(s[i]);
        }
    }
    assert(s@.take(s@.len() as int) =~= s@);
    let ghost before = views(done@);
    done.push(current);
    assert(views(done@) =~= before.push(current@));
    done
}

/// The lines of a text, without their line ends.
pub open spec fn lines_of(s: Seq<char>) -> Seq<Seq<char>> {
    let t = split_on(s, '\n');
    let ended = Seq::new((t.len() - 1) as nat, |i: int| without_return(t[i]));
    if t.last().len() == 0 {
        ended
    } else {
        ended.push(t.last())
    }
}

/// A line without the carriage return before its line feed.
pub open spec fn without_return(s: Seq<char>) -> Seq<char> {
    if s.len() > 0 && s.last() == '\r' {
        s.drop_last()
    } else {
        s
    }
}

/// Whole lines stand in a text.
pub open spec fn whole_lines(p: Seq<char>) -> bool {
    split_on(p, '\n').last().len() == 0
}

/// A line after whole lines is one more line.
pub proof fn lemma_next_line(p: Seq<char>, l: Seq<char>)
    requires
        whole_lines(p),
        forall|i: int| 0 <= i < l.len() ==> l[i] != '\n',
        l.len() > 0 ==> l.last() != '\r',
    ensures
        whole_lines(p + l + seq!['\n']),
        lines_of(p + l + seq!['\n']) == lines_of(p).push(l),
{
    let t = split_on(p, '\n');
    lemma_split_more(p, l, '\n');
    let q = p + l + seq!['\n'];
    assert(q.drop_last() =~= p + l);
    assert(q.last() == '\n');
    let u = split_on(q, '\n');
    assert(t.last() + l =~= l);
    assert(u =~= t.drop_last().push(l).push(Seq::empty()));
    assert(lines_of(q) =~= lines_of(p).push(l));
}

pub fn lines(s: &[char]) -> (r: Vec<Vec<char>>)
    ensures
        views(r@) == lines_of(s@),
{
    let pieces = split(s, '\n');
    let ghost t = split_on(s@, '\n');
    let n: usize = pieces.len();
    let mut r: Vec<Vec<char>> = Vec::new();
    for i in 0..n - 1
        invariant
            n == pieces@.len(),
            n > 0,
            views(pieces@) == t,
            views(r@) =~= Seq::new(i as nat, |j: int| without_return(t[j])),
    {
        let p = &pieces[i];
        assert(t[i as int] == p@);
        let m: usize = p.len();
        let ghost before = views(r@);
        if m > 0 && p[m - 1] == '\r' {
            let q = part(p, 0, m - 1);
            assert(q@ =~= p@.drop_last());
            r.push(q);
        } else {
            let q = part(p, 0, m);
            assert(q@ =~= p@);
            r.push(q);
        }
        assert(views(r@) =~= before.push(without_return(t[i as int])));
    }
    let last = &pieces[n - 1];
    assert(t.last() == last@);
    if last.len() > 0 {
        let q = part(last, 0, last.len());
        assert(q@ =~= last@);
        let ghost before = views(r@);
        r.push(q);
        assert(views(r@) =~= before.push(last@));
    }
    r
}

/// The words of a text: the runs between white space.
pub open spec fn words_of(s: Seq<char>) -> Seq<Seq<char>> {
    let t = run_words(s);
    if t.1.len() > 0 {
        t.0.push(t.1)
    } else {
        t.0
    }
}

/// The words that are complete, and the one that has begun.
pub open spec fn run_words(s: Seq<char>) -> (Seq<Seq<char>>, Seq<char>)
    decreases s.len(),
{
    if s.len() == 0 {
        (Seq::empty(), Seq::empty())
    } else {
        let (done, current) = run_words(s.drop_last());
        if !space(s.last()) {
            (done, current.push(s.last()))
        } else if current.len() > 0 {
            (done.push(current), Seq::empty())
        } else {
            (done, current)
        }
    }
}

pub fn words(s: &[char]) -> (r: Vec<Vec<char>>)
    ensures
        views(r@) == words_of(s@),
{
    let mut done: Vec<Vec<char>> = Vec::new();
    let mut current: Vec<char> = Vec::new();
    assert(views(done@) =~= Seq::empty());
    assert(current@ =~= Seq::empty());
    for i in 0..s.len()
        invariant
            (views(done@), current@) == run_words(s@.take(i as int)),
    {
        proof {
            assert(s@.take(i + 1).drop_last() =~= s@.take(i as int));
            assert(s@.take(i + 1).last() == s@[i as int]);
        }
        if !is_space(s[i]) {
            current.push(s[i]);
        } else if current.len() > 0 {
            let ghost before = views(done@);
            let ghost cur = current@;
            done.push(current);
            current = Vec::new();
            assert(views(done@) =~= before.push(cur));
            assert(current@ =~= Seq::empty());
        }
    }
    assert(s@.take(s@.len() as int) =~= s@);
    if current.len() > 0 {
        let ghost before = views(done@);
        let ghost cur = current@;
        done.push(current);
        assert(views(done@) =~= before.push(cur));
    }
    done
}

/// Whether all characters are decimal digits.
pub open spec fn all_digits(s: Seq<char>) -> bool {
    forall|i: int| 0 <= i < s.len() ==> '0' <= #[trigger] s[i] <= '9'
}

/// The number that decimal digits stand for.
pub open spec fn value_of(s: Seq<char>) -> nat
    decreases s.len(),
{
    if s.len() == 0 {
        0
    } else {
        value_of(s.drop_last()) * 10 + (s.last() as nat - 48) as nat
    }
}

/// What a text reads as an unsigned number up to `max`: digits, after at most one plus sign.
pub open spec fn read_number(s: Seq<char>, max: nat) -> Option<nat> {
    let t = if s.len() > 0 && s[0] == '+' {
        s.skip(1)
    } else {
        s
    };
    if t.len() > 0 && all_digits(t) && value_of(t) <= max {
        Some(value_of(t))
    } else {
        None
    }
}

proof fn lemma_value_grows(s: Seq<char>, i: int)
    requires
        0 <= i <= s.len(),
        all_digits(s),
    ensures
        value_of(s.take(i)) <= value_of(s),
    decreases s.len(),
{
    if i < s.len() {
        lemma_value_grows(s.drop_last(), i);
        assert(s.drop_last().take(i) =~= s.take(i));
    } else {
        assert(s.take(i) =~= s);
    }
}

/// Reads an unsigned number up to `max`.
pub fn parse_number(s: &[char], max: u64) -> (r: Option<u64>)
    ensures
        match r {
            Some(n) => read_number(s@, max as nat) == Some(n as nat),
            None => read_number(s@, max as nat) is None,
        },
{
    let start: usize = if s.len() > 0 && s[0] == '+' {
        1
    } else {
        0
    };
    let ghost t = if s@.len() > 0 && s@[0] == '+' {
        s@.skip(1)
    } else {
        s@
    };
    assert(t =~= s@.skip(start as int));
    if s.len() == start {
        return None;
    }
    let mut v: u64 = 0;
    for i in start..s.len()
        invariant
            start <= s@.len(),
            t == s@.skip(start as int),
            t.len() == s@.len() - start,
            read_number(s@, max as nat) == (if t.len() > 0 && all_digits(t) && value_of(t)
                <= max as nat {
                Some(value_of(t))
            } else {
                None
            }),
            forall|j: int| 0 <= j < i - start ==> '0' <= #[trigger] t[j] <= '9',
            v == value_of(t.take(i - start)),
            v <= max,
    {
        let c = s[i];
        assert(t[i - start] == c);
        if c < '0' || c > '9' {
            assert(!all_digits(t));
            return None;
        }
        let d: u64 = (c as u32 - 48) as u64;
        proof {
            let u = t.take(i - start + 1);
            assert(u.drop_last() =~= t.take(i - start));
            assert(u.last() == c);
            if all_digits(t) {
                lemma_value_grows(t, i - start + 1);
            }
        }
        if v as u128 * 10 + d as u128 > max as u128 {
            return None;
        }
        v = v * 10 + d;
    }
    assert(t.take(t.len() as int) =~= t);
    Some(v)
}

/// The first position of a character, or the length where it does not occur.
pub open spec fn position(s: Seq<char>, c: char) -> int
    decreases s.len(),
{
    if s.len() == 0 || s[0] == c {
        0
    } else {
        1 + position(s.skip(1), c)
    }
}

/// The first position is the one that comes before all others.
pub proof fn lemma_position(s: Seq<char>, c: char, i: int)
    requires
        0 <= i <= s.len(),
        i < s.len() ==> s[i] == c,
        forall|j: int| 0 <= j < i ==> s[j] != c,
    ensures
        position(s, c) == i,
    decreases s.len(),
{
    if i > 0 {
        assert(s[0] != c);
        assert forall|j: int| 0 <= j < i - 1 implies s.skip(1)[j] != c by {
            assert(s[j + 1] != c);
        }
        lemma_position(s.skip(1), c, i - 1);
    }
}

/// The first position at or after `from` where a text occurs.
pub open spec fn seek(s: Seq<char>, p: Seq<char>, from: int) -> Option<int>
    decreases s.len() + 1 - from,
{
    if from > s.len() {
        None
    } else if occurs(s, p, from) {
        Some(from)
    } else {
        seek(s, p, from + 1)
    }
}

pub(crate) proof fn lemma_seek(s: Seq<char>, p: Seq<char>, from: int, r: Option<usize>)
    requires
        0 <= from,
        is_first(s, p, from, r),
    ensures
        seek(s, p, from) == (match r {
            Some(i) => Some(i as int),
            None => None,
        }),
    decreases s.len() + 1 - from,
{
    if from <= s.len() && !occurs(s, p, from) {
        lemma_seek(s, p, from + 1, r);
    }
}

/// The texts with a separator between them.
pub open spec fn joined(v: Seq<Seq<char>>, sep: Seq<char>) -> Seq<char>
    decreases v.len(),
{
    if v.len() == 0 {
        Seq::empty()
    } else if v.len() == 1 {
        v[0]
    } else {
        joined(v.drop_last(), sep) + sep + v.last()
    }
}

/// Appends characters.
pub fn push_chars(v: &mut Vec<char>, more: &[char])
    ensures
        final(v)@ == old(v)@ + more@,
{
    for i in 0..more.len()
        invariant
            v@ =~= old(v)@ + more@.take(i as int),
    {
        v.push(more[i]);
    }
    assert(more@.take(more@.len() as int) =~= more@);
}

/// Appends the characters of a string.
pub fn push_text(v: &mut Vec<char>, more: &str)
    ensures
        final(v)@ == old(v)@ + more@,
{
    let m = chars_of(more);
    push_chars(v, &m);
}

/// Appends a number in decimal.
pub fn push_decimal(v: &mut Vec<char>, n: u64)
    ensures
        final(v)@ == old(v)@ + digits(n as nat),
{
    push_text(v, decimal(n).as_str());
}

/// The texts with a separator between them.
pub fn join(v: &[Vec<char>], sep: &str) -> (r: Vec<char>)
    ensures
        r@ == joined(views(v@), sep@),
{
    let mut r: Vec<char> = Vec::new();
    let ghost all = views(v@);
    assert(all.take(0) =~= Seq::<Seq<char>>::empty());
    for i in 0..v.len()
        invariant
            all == views(v@),
            r@ =~= joined(all.take(i as int), sep@),
    {
        proof {
            assert(all.take(i + 1).drop_last() =~= all.take(i as int));
            assert(all.take(i + 1).last() == v@[i as int]@);
        }
        if i > 0 {
            push_text(&mut r, sep);
        }
        push_chars(&mut r, &v[i]);
    }
    assert(all.take(all.len() as int) =~= all);
    r
}

/// The text with every occurrence of a character replaced by a text.
pub open spec fn replaced(s: Seq<char>, c: char, by: Seq<char>) -> Seq<char>
    decreases s.len(),
{
    if s.len() == 0 {
        Seq::empty()
    } else {
        replaced(s.drop_last(), c, by) + (if s.last() == c {
            by
        } else {
            seq![s.last()]
        })
    }
}

/// The text with every occurrence of a character replaced by a text.
pub fn replace(s: &[char], c: char, by: &str) -> (r: Vec<char>)
    ensures
        r@ == replaced(s@, c, by@),
{
    let mut r: Vec<char> = Vec::new();
    assert(s@.take(0) =~= Seq::<char>::empty());
    for i in 0..s.len()
        invariant
            r@ =~= replaced(s@.take(i as int), c, by@),
    {
        assert(s@.take(i + 1).drop_last() =~= s@.take(i as int));
        if s[i] == c {
            push_text(&mut r, by);
        } else {
            r.push(s[i]);
        }
    }
    assert(s@.take(s@.len() as int) =~= s@);
    r
}

/// The digits of different numbers differ.
pub proof fn lemma_digits_differ(i: nat, j: nat)
    requires
        i != j,
    ensures
        digits(i) != digits(j),
    decreases i,
{
    if digits(i) == digits(j) {
        let (di, dj) = (digits(i), digits(j));
        assert(di.last() == digit(i % 10));
        assert(dj.last() == digit(j % 10));
        assert(digit(i % 10) as int == 48 + i % 10);
        assert(digit(j % 10) as int == 48 + j % 10);
        assert(i % 10 == j % 10);
        lemma_digits_nonempty(i / 10);
        lemma_digits_nonempty(j / 10);
        if i >= 10 && j >= 10 {
            assert(di.drop_last() =~= digits(i / 10));
            assert(dj.drop_last() =~= digits(j / 10));
            lemma_digits_differ(i / 10, j / 10);
        } else if i >= 10 {
            assert(di.len() == digits(i / 10).len() + 1);
        } else if j >= 10 {
            assert(dj.len() == digits(j / 10).len() + 1);
        }
    }
}

pub(crate) proof fn lemma_digits_nonempty(n: nat)
    ensures
        digits(n).len() > 0,
    decreases n,
{
    if n >= 10 {
        lemma_digits_nonempty(n / 10);
    }
}

/// The digits of a number stand for it.
pub proof fn lemma_digits_value(n: nat)
    ensures
        digits(n).len() > 0,
        all_digits(digits(n)),
        value_of(digits(n)) == n,
    decreases n,
{
    let d = digits(n);
    if n < 10 {
        assert(d.drop_last() =~= Seq::<char>::empty());
        assert(value_of(d.drop_last()) == 0);
    } else {
        lemma_digits_value(n / 10);
        assert(d.drop_last() =~= digits(n / 10));
    }
}

/// The number of bytes of a character.
pub open spec fn width(c: char) -> nat {
    if (c as int) < 0x80 {
        1
    } else if (c as int) < 0x800 {
        2
    } else if (c as int) < 0x10000 {
        3
    } else {
        4
    }
}

/// The number of bytes of a text.
pub open spec fn byte_len(s: Seq<char>) -> nat
    decreases s.len(),
{
    if s.len() == 0 {
        0
    } else {
        byte_len(s.drop_last()) + width(s.last())
    }
}

proof fn lemma_byte_len_concat(a: Seq<char>, b: Seq<char>)
    ensures
        byte_len(a + b) == byte_len(a) + byte_len(b),
    decreases b.len(),
{
    if b.len() == 0 {
        assert(a + b =~= a);
    } else {
        lemma_byte_len_concat(a, b.drop_last());
        assert((a + b).drop_last() =~= a + b.drop_last());
    }
}

proof fn lemma_width(c: char)
    ensures
        vstd::utf8::encode_scalar(c as u32).len() == width(c),
{
    vstd::utf8::char_is_scalar(c);
}

/// The number of bytes is that of the encoded text.
pub proof fn lemma_byte_len(s: Seq<char>)
    ensures
        byte_len(s) == vstd::utf8::encode_utf8(s).len(),
    decreases s.len(),
{
    if s.len() > 0 {
        let first = seq![s[0]];
        lemma_byte_len(s.drop_first());
        lemma_byte_len_concat(first, s.drop_first());
        assert(first + s.drop_first() =~= s);
        assert(first.drop_last() =~= Seq::<char>::empty());
        assert(byte_len(first.drop_last()) == 0);
        assert(byte_len(first) == width(s[0]));
        lemma_width(s[0]);
        assert(s.drop_first().len() < s.len());
    }
}

/// The number of bytes of a string.
pub fn byte_count(s: &str) -> (r: usize)
    ensures
        r == byte_len(s@),
{
    proof {
        lemma_byte_len(s@);
    }
    s.as_bytes().len()
}

/// The number of bytes of texts together.
pub open spec fn total_bytes(v: Seq<Seq<char>>) -> nat
    decreases v.len(),
{
    if v.len() == 0 {
        0
    } else {
        total_bytes(v.drop_last()) + byte_len(v.last())
    }
}

proof fn lemma_split_bytes(s: Seq<char>, c: char)
    ensures
        total_bytes(split_on(s, c)) <= byte_len(s),
    decreases s.len(),
{
    if s.len() == 0 {
        let v = split_on(s, c);
        assert(v.drop_last() =~= Seq::<Seq<char>>::empty());
        assert(v.last() =~= Seq::<char>::empty());
        assert(total_bytes(v.drop_last()) == 0);
        assert(byte_len(v.last()) == 0);
    } else {
        let t = split_on(s.drop_last(), c);
        lemma_split_bytes(s.drop_last(), c);
        lemma_split_nonempty(s.drop_last(), c);
        let v = split_on(s, c);
        if s.last() == c {
            assert(v.drop_last() =~= t);
            assert(v.last() =~= Seq::<char>::empty());
            assert(byte_len(v.last()) == 0);
        } else {
            assert(v.drop_last() =~= t.drop_last());
            assert(v.last().drop_last() =~= t.last());
        }
    }
}

proof fn lemma_total_below(a: Seq<Seq<char>>, b: Seq<Seq<char>>)
    requires
        a.len() <= b.len(),
        forall|i: int| 0 <= i < a.len() ==> byte_len(#[trigger] a[i]) <= byte_len(b[i]),
    ensures
        total_bytes(a) <= total_bytes(b),
    decreases b.len(),
{
    if a.len() < b.len() {
        lemma_total_below(a, b.drop_last());
    } else if a.len() > 0 {
        assert forall|i: int| 0 <= i < a.len() - 1 implies byte_len(#[trigger] a.drop_last()[i])
            <= byte_len(b.drop_last()[i]) by {
            assert(byte_len(a[i]) <= byte_len(b[i]));
        }
        lemma_total_below(a.drop_last(), b.drop_last());
        assert(byte_len(a[a.len() - 1]) <= byte_len(b[a.len() - 1]));
    }
}

/// The lines have no more bytes than the text.
pub proof fn lemma_line_bytes(s: Seq<char>)
    ensures
        total_bytes(lines_of(s)) <= byte_len(s),
{
    let t = split_on(s, '\n');
    lemma_split_bytes(s, '\n');
    lemma_split_nonempty(s, '\n');
    let v = lines_of(s);
    assert forall|i: int| 0 <= i < v.len() implies byte_len(#[trigger] v[i]) <= byte_len(t[i]) by {
        if i < t.len() - 1 {
            assert(v[i] == without_return(t[i]));
        }
    }
    lemma_total_below(v, t);
}

/// The first lines have no more bytes than all.
pub proof fn lemma_total_prefix(v: Seq<Seq<char>>, i: int)
    requires
        0 <= i <= v.len(),
    ensures
        total_bytes(v.take(i)) <= total_bytes(v),
        i < v.len() ==> total_bytes(v.take(i + 1)) == total_bytes(v.take(i)) + byte_len(v[i])
            && total_bytes(v.take(i + 1)) <= total_bytes(v),
    decreases v.len() - i,
{
    if i < v.len() {
        lemma_total_prefix(v, i + 1);
        assert(v.take(i + 1).drop_last() =~= v.take(i));
    } else {
        assert(v.take(i) =~= v);
    }
}

/// The number of positions up to `n` at which a text occurs.
pub open spec fn count_text(s: Seq<char>, p: Seq<char>, n: int) -> nat
    decreases n,
{
    if n <= 0 {
        0
    } else {
        count_text(s, p, n - 1) + (if occurs(s, p, n - 1) {
            1nat
        } else {
            0
        })
    }
}

/// The number of positions at which a text occurs.
pub fn count_occurrences(s: &[char], p: &str) -> (r: usize)
    ensures
        r == count_text(s@, p@, s@.len() as int),
{
    let q = chars_of(p);
    let mut n: usize = 0;
    for i in 0..s.len()
        invariant
            q@ == p@,
            n == count_text(s@, p@, i as int),
            n <= i,
    {
        if occurs_at(s, &q, i) {
            n = n + 1;
        }
    }
    n
}

} // verus!
