//! Numbers as bytes, the lowest byte first.
use vstd::prelude::*;

verus! {

/// The number of values that `n` bytes can have.
pub open spec fn range(n: nat) -> nat
    decreases n,
{
    if n == 0 {
        1
    } else {
        256 * range((n - 1) as nat)
    }
}

/// The lowest `n` bytes of a number, the lowest first.
pub open spec fn le_bytes(x: nat, n: nat) -> Seq<u8>
    decreases n,
{
    if n == 0 {
        Seq::empty()
    } else {
        seq![(x % 256) as u8] + le_bytes(x / 256, (n - 1) as nat)
    }
}

/// The number that bytes hold, the lowest first.
pub open spec fn le_value(s: Seq<u8>) -> nat
    decreases s.len(),
{
    if s.len() == 0 {
        0
    } else {
        s[0] as nat + 256 * le_value(s.skip(1))
    }
}

pub(crate) proof fn lemma_le_len(x: nat, n: nat)
    ensures
        le_bytes(x, n).len() == n,
    decreases n,
{
    if n > 0 {
        lemma_le_len(x / 256, (n - 1) as nat);
    }
}

/// Reading back the bytes of a number gives the number, if they are enough for it.
pub proof fn lemma_le_round_trip(x: nat, n: nat)
    requires
        x < range(n),
    ensures
        le_value(le_bytes(x, n)) == x,
    decreases n,
{
    if n > 0 {
        let rest = le_bytes(x / 256, (n - 1) as nat);
        lemma_le_round_trip(x / 256, (n - 1) as nat);
        assert(le_bytes(x, n).skip(1) =~= rest);
    }
}

/// Writing the number that bytes hold gives the bytes.
pub proof fn lemma_le_unique(s: Seq<u8>)
    ensures
        le_value(s) < range(s.len()),
        le_bytes(le_value(s), s.len()) == s,
    decreases s.len(),
{
    if s.len() > 0 {
        lemma_le_unique(s.skip(1));
        let v = le_value(s);
        assert(v % 256 == s[0] as nat);
        assert(v / 256 == le_value(s.skip(1)));
        assert(le_bytes(v, s.len()) =~= seq![s[0]] + s.skip(1));
        assert(seq![s[0]] + s.skip(1) =~= s);
    }
}

pub(crate) proof fn lemma_range(n: nat)
    ensures
        range(0) == 1,
        range(1) == 0x100,
        range(4) == 0x1_0000_0000,
        range(8) == 0x1_0000_0000_0000_0000,
        n <= 8 ==> range(n) <= range(8),
{
    reveal_with_fuel(range, 9);
}

/// Appends the lowest `n` bytes of a number.
pub fn push_le(buf: &mut Vec<u8>, x: u64, n: usize)
    ensures
        final(buf)@ == old(buf)@ + le_bytes(x as nat, n as nat),
{
    let mut rest: u64 = x;
    for i in 0..n
        invariant
            buf@ + le_bytes(rest as nat, (n - i) as nat) =~= old(buf)@ + le_bytes(
                x as nat,
                n as nat,
            ),
    {
        let ghost before = buf@;
        proof {
            let tail = le_bytes(rest as nat / 256, (n - i - 1) as nat);
            assert(le_bytes(rest as nat, (n - i) as nat) == seq![(rest % 256) as u8] + tail);
            assert(before.push((rest % 256) as u8) + tail =~= before + (seq![(rest % 256) as u8]
                + tail));
        }
        buf.push((rest % 256) as u8);
        rest = rest / 256;
    }
}

/// The number that `n` bytes hold from a position on.
pub fn read_le(data: &[u8], at: usize, n: usize) -> (r: u64)
    requires
        at + n <= data@.len(),
        n <= 8,
    ensures
        r == le_value(data@.subrange(at as int, at + n)),
{
    let len: usize = data.len();
    let mut r: u64 = 0;
    let mut k: usize = n;
    assert(data@.subrange(at + n, at + n) =~= Seq::<u8>::empty());
    while k > 0
        invariant
            k <= n <= 8,
            at + n <= len,
            len == data@.len(),
            r == le_value(data@.subrange(at + k, at + n)),
        decreases k,
    {
        k = k - 1;
        proof {
            let s = data@.subrange(at + k, at + n);
            assert(s.skip(1) =~= data@.subrange(at + k + 1, at + n));
            lemma_le_unique(s);
            lemma_le_unique(s.skip(1));
            lemma_range(s.len());
        }
        r = r * 256 + data[at + k] as u64;
    }
    r
}

/// Appends bytes.
pub fn push_all(buf: &mut Vec<u8>, data: &[u8])
    ensures
        final(buf)@ == old(buf)@ + data@,
{
    for i in 0..data.len()
        invariant
            buf@ =~= old(buf)@ + data@.take(i as int),
    {
        buf.push(data[i]);
    }
    assert(data@.take(data@.len() as int) =~= data@);
}

/// A copy of some of the bytes.
pub fn bytes_between(data: &[u8], start: usize, end: usize) -> (r: Vec<u8>)
    requires
        start <= end <= data@.len(),
    ensures
        r@ == data@.subrange(start as int, end as int),
{
    let mut r: Vec<u8> = Vec::new();
    for i in start..end
        invariant
            end <= data@.len(),
            r@ =~= data@.subrange(start as int, i as int),
    {
        r.push(data[i]);
    }
    r
}

/// A number with a representation in 32 bits that loses nothing.
pub trait Word: Copy {
    /// The 32 bits of a number.
    fn bits(self) -> (r: u32)
        ensures
            r == self.spec_bits(),
    ;

    spec fn spec_bits(self) -> u32;

    /// The number with these 32 bits.
    fn from_bits(b: u32) -> (r: Self)
        ensures
            r == Self::spec_from_bits(b),
    ;

    spec fn spec_from_bits(b: u32) -> Self;

    /// The bits give back the number.
    proof fn round_trip(self)
        ensures
            Self::spec_from_bits(self.spec_bits()) == self,
    ;
}

impl Word for u32 {
    fn bits(self) -> (r: u32) {
        self
    }

    open spec fn spec_bits(self) -> u32 {
        self
    }

    fn from_bits(b: u32) -> (r: Self) {
        b
    }

    open spec fn spec_from_bits(b: u32) -> Self {
        b
    }

    proof fn round_trip(self) {
    }
}

/// The bytes of numbers, four for each.
pub open spec fn word_bytes<W: Word>(s: Seq<W>) -> Seq<u8>
    decreases s.len(),
{
    if s.len() == 0 {
        Seq::empty()
    } else {
        word_bytes(s.drop_last()) + le_bytes(s.last().spec_bits() as nat, 4)
    }
}

/// The numbers that bytes hold, four for each; what is left over is not read.
pub open spec fn words_in<W: Word>(s: Seq<u8>) -> Seq<W> {
    Seq::new(
        s.len() / 4,
        |i: int| W::spec_from_bits(le_value(s.subrange(4 * i, 4 * i + 4)) as u32),
    )
}

/// Reading the bytes of numbers gives back the numbers.
pub proof fn lemma_words_round_trip<W: Word>(s: Seq<W>)
    ensures
        word_bytes(s).len() == 4 * s.len(),
        words_in::<W>(word_bytes(s)) == s,
    decreases s.len(),
{
    if s.len() == 0 {
        assert(words_in::<W>(word_bytes(s)) =~= s);
    } else {
        let front = s.drop_last();
        lemma_words_round_trip(front);
        let b = s.last().spec_bits();
        lemma_le_len(b as nat, 4);
        lemma_range(4);
        lemma_le_round_trip(b as nat, 4);
        s.last().round_trip();
        let all = word_bytes(s);
        assert forall|i: int| 0 <= i < s.len() implies words_in::<W>(all)[i] == s[i] by {
            if i < front.len() {
                assert(all.subrange(4 * i, 4 * i + 4) =~= word_bytes(front).subrange(
                    4 * i,
                    4 * i + 4,
                ));
                assert(words_in::<W>(word_bytes(front))[i] == front[i]);
            } else {
                assert(all.subrange(4 * i, 4 * i + 4) =~= le_bytes(b as nat, 4));
            }
        }
        assert(words_in::<W>(all) =~= s);
    }
}

/// Appends the bytes of numbers.
pub fn push_words<W: Word>(buf: &mut Vec<u8>, data: &[W])
    ensures
        final(buf)@ == old(buf)@ + word_bytes(data@),
{
    assert(data@.take(0) =~= Seq::<W>::empty());
    for i in 0..data.len()
        invariant
            buf@ =~= old(buf)@ + word_bytes(data@.take(i as int)),
    {
        proof {
            assert(data@.take(i + 1).drop_last() =~= data@.take(i as int));
        }
        push_le(buf, data[i].bits() as u64, 4);
    }
    assert(data@.take(data@.len() as int) =~= data@);
}

/// The numbers that bytes hold.
pub fn read_words<W: Word>(data: &[u8]) -> (r: Vec<W>)
    ensures
        r@ == words_in::<W>(data@),
{
    let mut r: Vec<W> = Vec::new();
    let len: usize = data.len();
    let n: usize = len / 4;
    for i in 0..n
        invariant
            len == data@.len(),
            n == len / 4,
            r@ =~= words_in::<W>(data@).take(i as int),
    {
        let w: u64 = read_le(data, 4 * i, 4);
        proof {
            lemma_le_unique(data@.subrange(4 * i as int, 4 * i + 4));
            lemma_range(4);
        }
        r.push(W::from_bits(w as u32));
    }
    r
}

} // verus!
