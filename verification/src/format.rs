//! Numbers as text.
use vstd::prelude::*;
use crate::fixed::Fixed;
use crate::number::Real;
use crate::text;
use crate::text::{find_char, parse_number, part, push_text};

verus! {

/// The characters of a text, in contracts.
pub type Chars = Seq<char>;

/// A number that can be read and written.
pub trait Textual: Real {
    /// The number that a text stands for.
    fn read(s: &[char]) -> (r: Option<Self>)
        ensures
            r == Self::spec_read(s@),
    ;

    spec fn spec_read(s: Chars) -> Option<Self>;

    /// The number in full.
    fn show(self) -> (r: Vec<char>)
        ensures
            r@ == self.spec_show(),
    ;

    spec fn spec_show(self) -> Chars;

    /// The number rounded to a number of decimal places.
    fn show_places(self, places: usize) -> (r: Vec<char>)
        requires
            places <= 9,
        ensures
            r@ == self.spec_show_places(places),
    ;

    spec fn spec_show_places(self, places: usize) -> Chars;
}

/// Ten to the power of `n`.
pub open spec fn pow10(n: nat) -> nat
    decreases n,
{
    if n == 0 {
        1
    } else {
        10 * pow10((n - 1) as nat)
    }
}

proof fn lemma_pow10()
    ensures
        pow10(9) == 1_000_000_000,
        pow10(16) == 10_000_000_000_000_000,
        forall|n: nat| 1 <= #[trigger] pow10(n),
{
    reveal_with_fuel(pow10, 17);
    assert forall|n: nat| 1 <= #[trigger] pow10(n) by {
        lemma_pow10_grows(0, n);
    }
}

proof fn lemma_pow10_grows(m: nat, n: nat)
    requires
        m <= n,
    ensures
        1 <= pow10(m) <= pow10(n),
    decreases n,
{
    if n > 0 {
        if m == n {
            lemma_pow10_grows((m - 1) as nat, (n - 1) as nat);
        } else {
            lemma_pow10_grows(m, (n - 1) as nat);
        }
    }
}

fn power_of_ten(n: usize) -> (r: u64)
    requires
        n <= 16,
    ensures
        r == pow10(n as nat),
        1 <= r <= 10_000_000_000_000_000,
{
    let mut r: u64 = 1;
    proof {
        lemma_pow10();
    }
    for i in 0..n
        invariant
            n <= 16,
            r == pow10(i as nat),
            pow10(16) == 10_000_000_000_000_000,
    {
        proof {
            lemma_pow10_grows((i + 1) as nat, 16);
        }
        r = r * 10;
    }
    proof {
        lemma_pow10_grows(n as nat, 16);
    }
    r
}

/// The lowest `k` decimal digits.
pub open spec fn padded(n: nat, k: nat) -> Seq<char>
    decreases k,
{
    if k == 0 {
        Seq::empty()
    } else {
        padded(n / 10, (k - 1) as nat).push(text::digit(n % 10))
    }
}

fn push_padded(v: &mut Vec<char>, n: u64, k: usize)
    ensures
        final(v)@ == old(v)@ + padded(n as nat, k as nat),
    decreases k,
{
    if k > 0 {
        push_padded(v, n / 10, k - 1);
        v.push(text::digit_char(n % 10));
    }
    assert(v@ =~= old(v)@ + padded(n as nat, k as nat));
}

/// A whole number of units of ten to the power of minus `places`.
pub open spec fn with_places(n: nat, places: nat) -> Seq<char> {
    let d = pow10(places);
    if places == 0 {
        text::digits(n)
    } else {
        text::digits(n / d) + "."@ + padded(n % d, places)
    }
}

/// The magnitude of a fixed-point number.
pub open spec fn magnitude(x: Fixed) -> nat {
    (if x.raw < 0 {
        -x.raw
    } else {
        x.raw as int
    }) as nat
}

/// The magnitude in units of ten to the power of minus `places`, halves rounded up.
pub open spec fn in_places(x: Fixed, places: nat) -> nat {
    (magnitude(x) * pow10(places) + 32768) / 65536
}

/// The sign of a fixed-point number.
pub open spec fn sign_text(x: Fixed) -> Seq<char> {
    if x.raw < 0 {
        "-"@
    } else {
        Seq::empty()
    }
}

/// A text parted into sign, whole part and fraction.
pub open spec fn number_parts(s: Seq<char>) -> (bool, Seq<char>, Seq<char>) {
    let signed = s.len() > 0 && (s[0] == '-' || s[0] == '+');
    let t = if signed {
        s.skip(1)
    } else {
        s
    };
    let dot = text::position(t, '.');
    (
        signed && s[0] == '-',
        t.take(dot),
        if dot < t.len() {
            t.skip(dot + 1)
        } else {
            Seq::empty()
        },
    )
}

fn only_digits(s: &[char]) -> (r: bool)
    ensures
        r == text::all_digits(s@),
{
    for i in 0..s.len()
        invariant
            forall|j: int| 0 <= j < i ==> '0' <= #[trigger] s@[j] <= '9',
    {
        if s[i] < '0' || s[i] > '9' {
            return false;
        }
    }
    true
}

proof fn lemma_value_bound(s: Seq<char>)
    requires
        text::all_digits(s),
    ensures
        text::value_of(s) < pow10(s.len()),
    decreases s.len(),
{
    if s.len() > 0 {
        let front = s.drop_last();
        assert forall|i: int| 0 <= i < front.len() implies '0' <= #[trigger] front[i] <= '9' by {
            assert(front[i] == s[i]);
        }
        lemma_value_bound(front);
        assert('0' <= s[s.len() - 1] <= '9');
    }
}

/// The value of at most sixteen digits.
fn digits_value(s: &[char]) -> (r: u64)
    requires
        text::all_digits(s@),
        s@.len() <= 16,
    ensures
        r == text::value_of(s@),
        r < pow10(s@.len()),
        r < 10_000_000_000_000_000,
{
    proof {
        lemma_value_bound(s@);
        lemma_pow10();
        lemma_pow10_grows(s@.len(), 16);
    }
    if s.len() == 0 {
        return 0;
    }
    assert('0' <= s@[0] <= '9');
    parse_number(s, u64::MAX).unwrap()
}

impl Fixed {
    fn size(self) -> (r: u64)
        ensures
            r == magnitude(self),
    {
        if self.raw < 0 {
            (-(self.raw as i128)) as u64
        } else {
            self.raw as u64
        }
    }
}

impl Textual for Fixed {
    fn read(s: &[char]) -> (r: Option<Self>) {
        let signed = s.len() > 0 && (s[0] == '-' || s[0] == '+');
        let negative = signed && s[0] == '-';
        let start: usize = if signed {
            1
        } else {
            0
        };
        let t = part(s, start, s.len());
        let ghost tt = if signed {
            s@.skip(1)
        } else {
            s@
        };
        assert(t@ =~= tt);
        let found = find_char(&t, '.');
        let dot: usize = match found {
            Some(i) => i,
            None => t.len(),
        };
        proof {
            text::lemma_position(t@, '.', dot as int);
            assert(t@.subrange(0, dot as int) =~= t@.take(dot as int));
        }
        let whole = part(&t, 0, dot);
        let frac = if dot < t.len() {
            assert(t@.subrange(dot + 1, t@.len() as int) =~= t@.skip(dot + 1));
            part(&t, dot + 1, t.len())
        } else {
            Vec::new()
        };
        assert(number_parts(s@) == (negative, whole@, frac@));
        let count: usize = whole.len();
        let after: usize = frac.len();
        if count > 13 || after > 16 || count + after == 0 || !only_digits(&whole) || !only_digits(
            &frac,
        ) {
            return None;
        }
        let w: u64 = digits_value(&whole);
        let f: u64 = digits_value(&frac);
        let d: u64 = power_of_ten(after);
        proof {
            lemma_pow10();
            lemma_pow10_grows(count as nat, 13);
            reveal_with_fuel(pow10, 14);
            assert(f as int * 65536 / d as int <= 65536) by (nonlinear_arith)
                requires
                    0 <= f < d,
            ;
            assert(0 <= f as int * 65536 / d as int) by (nonlinear_arith)
                requires
                    0 <= f < d,
            ;
        }
        let part_raw: i64 = ((f as u128 * 65536) / d as u128) as i64;
        let raw: i64 = w as i64 * 65536 + part_raw;
        Some(
            Fixed {
                raw: if negative {
                    -raw
                } else {
                    raw
                },
            },
        )
    }

    open spec fn spec_read(s: Seq<char>) -> Option<Self> {
        let (negative, whole, frac) = number_parts(s);
        if whole.len() > 13 || frac.len() > 16 || whole.len() + frac.len() == 0
            || !text::all_digits(whole) || !text::all_digits(frac) {
            None
        } else {
            let raw = text::value_of(whole) * 65536 + text::value_of(frac) * 65536 / pow10(
                frac.len(),
            );
            Some(
                Fixed {
                    raw: (if negative {
                        -raw
                    } else {
                        raw as int
                    }) as i64,
                },
            )
        }
    }

    fn show(self) -> (r: Vec<char>) {
        let mut v: Vec<char> = Vec::new();
        if self.raw < 0 {
            push_text(&mut v, "-");
        }
        assert(v@ =~= sign_text(self));
        let m: u64 = self.size();
        text::push_decimal(&mut v, m / 65536);
        if m % 65536 != 0 {
            push_text(&mut v, ".");
            push_padded(&mut v, (m % 65536) * 152587890625, 16);
        }
        assert(v@ =~= self.spec_show());
        v
    }

    open spec fn spec_show(self) -> Seq<char> {
        let m = magnitude(self);
        let whole = sign_text(self) + text::digits(m / 65536);
        if m % 65536 == 0 {
            whole
        } else {
            whole + "."@ + padded((m % 65536) * 152587890625, 16)
        }
    }

    fn show_places(self, places: usize) -> (r: Vec<char>) {
        let mut v: Vec<char> = Vec::new();
        if self.raw < 0 {
            push_text(&mut v, "-");
        }
        assert(v@ =~= sign_text(self));
        let d: u64 = power_of_ten(places);
        let m: u64 = self.size();
        proof {
            lemma_pow10();
            lemma_pow10_grows(places as nat, 9);
            assert(m * d <= 0x8000_0000_0000_0000 * 1_000_000_000) by (nonlinear_arith)
                requires
                    0 <= m <= 0x8000_0000_0000_0000,
                    0 <= d <= 1_000_000_000,
            ;
        }
        let scaled: u128 = (m as u128 * d as u128 + 32768) / 65536;
        let whole: u128 = scaled / d as u128;
        let rest: u128 = scaled % d as u128;
        proof {
            let (mm, dd) = (m as int, d as int);
            assert(scaled as int / dd <= mm) by (nonlinear_arith)
                requires
                    0 <= mm,
                    1 <= dd,
                    scaled as int == (mm * dd + 32768) / 65536,
            {
                assert((mm * dd + 32768) / 65536 <= mm * dd + 1);
                assert(scaled as int / dd <= mm + 1);
                assert(mm == 0 ==> scaled as int == 0);
                assert(mm >= 1 ==> (mm * dd + 32768) / 65536 <= mm * dd);
            }
        }
        text::push_decimal(&mut v, whole as u64);
        if places > 0 {
            push_text(&mut v, ".");
            push_padded(&mut v, rest as u64, places);
        }
        proof {
            let n = in_places(self, places as nat);
            assert(scaled as nat == n);
            assert(whole as u64 as nat == n / pow10(places as nat));
            assert(rest as u64 as nat == n % pow10(places as nat));
            if places == 0 {
                assert(n / 1 == n) by (nonlinear_arith);
            }
        }
        assert(v@ =~= self.spec_show_places(places));
        v
    }

    open spec fn spec_show_places(self, places: usize) -> Chars {
        sign_text(self) + with_places(in_places(self, places as nat), places as nat)
    }
}

/// What the decimal digits of a number are.
proof fn lemma_padded(n: nat, k: nat)
    ensures
        padded(n, k).len() == k,
        text::all_digits(padded(n, k)),
        n < pow10(k) ==> text::value_of(padded(n, k)) == n,
    decreases k,
{
    if k > 0 {
        lemma_padded(n / 10, (k - 1) as nat);
        let p = padded(n, k);
        assert(p.drop_last() =~= padded(n / 10, (k - 1) as nat));
    } else {
        assert(padded(n, k) =~= Seq::<char>::empty());
    }
}

proof fn lemma_digits_short(n: nat, k: nat)
    requires
        n < pow10(k),
        k > 0,
    ensures
        text::digits(n).len() <= k,
    decreases k,
{
    if n >= 10 {
        assert(k > 1) by {
            reveal_with_fuel(pow10, 2);
        }
        lemma_digits_short(n / 10, (k - 1) as nat);
    }
}

/// A number of at most thirteen digits before the point is read as it is shown.
pub proof fn lemma_shown_is_read(x: Fixed)
    requires
        magnitude(x) < 10_000_000_000_000 * 65536,
    ensures
        <Fixed as Textual>::spec_read(x.spec_show()) == Some(x),
        x.spec_show().len() > 0,
        forall|i: int|
            0 <= i < x.spec_show().len() ==> {
                let c = #[trigger] x.spec_show()[i];
                '0' <= c <= '9' || c == '-' || c == '.'
            },
{
    reveal_strlit("-");
    reveal_strlit(".");
    let m = magnitude(x);
    let (w, k) = (m / 65536, m % 65536);
    let f = k * 152587890625;
    let d = text::digits(w);
    let s = x.spec_show();
    let t = if x.raw < 0 {
        s.skip(1)
    } else {
        s
    };
    lemma_pow10();
    reveal_with_fuel(pow10, 14);
    assert(w < pow10(13));
    lemma_digits_short(w, 13);
    text::lemma_digits_value(w);
    let p = padded(f, 16);
    lemma_padded(f, 16);
    assert(f < pow10(16));
    assert forall|i: int| 0 <= i < d.len() implies d[i] != '.' by {
        assert('0' <= d[i] <= '9');
    }
    assert('0' <= d[0] <= '9');
    if k == 0 {
        assert(t =~= d);
        text::lemma_position(t, '.', d.len() as int);
        assert(t.take(d.len() as int) =~= d);
        assert(text::value_of(Seq::<char>::empty()) == 0);
        assert(number_parts(s) == (x.raw < 0, d, Seq::<char>::empty()));
    } else {
        assert(t =~= d + "."@ + p);
        assert forall|i: int| 0 <= i < d.len() implies t[i] != '.' by {
            assert(t[i] == d[i]);
        }
        text::lemma_position(t, '.', d.len() as int);
        assert(t.take(d.len() as int) =~= d);
        assert(t.skip(d.len() as int + 1) =~= p);
        assert(number_parts(s) == (x.raw < 0, d, p));
        assert(f * 65536 / 10_000_000_000_000_000 == k);
    }
    let off: int = if x.raw < 0 {
        1
    } else {
        0
    };
    assert forall|i: int| 0 <= i < s.len() implies ({
        let c = #[trigger] s[i];
        '0' <= c <= '9' || c == '-' || c == '.'
    }) by {
        if i >= off {
            assert(s[i] == t[i - off]);
            if i - off < d.len() {
                assert(s[i] == d[i - off]);
                assert('0' <= d[i - off] <= '9');
            } else if i - off > d.len() {
                assert(s[i] == p[i - off - d.len() - 1]);
                assert('0' <= p[i - off - d.len() - 1] <= '9');
            }
        }
    }
}

/// What is read has at most thirteen digits before the point.
pub proof fn lemma_read_is_small(s: Seq<char>)
    ensures
        <Fixed as Textual>::spec_read(s) matches Some(x) ==> magnitude(x) < 10_000_000_000_000
            * 65536,
{
    let (negative, whole, frac) = number_parts(s);
    if <Fixed as Textual>::spec_read(s) is Some {
        lemma_value_bound(whole);
        lemma_value_bound(frac);
        lemma_pow10();
        lemma_pow10_grows(whole.len(), 13);
        reveal_with_fuel(pow10, 14);
        let (f, d) = (text::value_of(frac) as int, pow10(frac.len()) as int);
        assert(0 <= f * 65536 / d < 65536) by (nonlinear_arith)
            requires
                0 <= f < d,
        ;
    }
}

} // verus!
