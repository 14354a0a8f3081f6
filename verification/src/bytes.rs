//! Numbers as little-endian bytes.

use vstd::arithmetic::div_mod::*;
use vstd::prelude::*;

verus! {

/// The number that little-endian bytes write.
pub open spec fn le(s: Seq<u8>) -> nat
    decreases s.len(),
{
    if s.len() == 0 {
        0
    } else {
        s[0] as nat + 256 * le(s.drop_first())
    }
}

/// The `n` little-endian bytes of `v`.
pub open spec fn le_bytes(v: nat, n: nat) -> Seq<u8>
    decreases n,
{
    if n == 0 {
        seq![]
    } else {
        seq![(v % 256) as u8] + le_bytes(v / 256, (n - 1) as nat)
    }
}

/// 256 to the power `n`.
pub open spec fn range(n: nat) -> nat
    decreases n,
{
    if n == 0 {
        1
    } else {
        256 * range((n - 1) as nat)
    }
}

/// Bytes write numbers below the range of their count.
pub proof fn lemma_le_range(s: Seq<u8>)
    ensures
        le(s) < range(s.len()),
    decreases s.len(),
{
    if s.len() > 0 {
        lemma_le_range(s.drop_first());
    }
}

/// The bytes of a number write it, if there are enough of them.
pub proof fn bytes_write_number(v: nat, n: nat)
    requires
        v < range(n),
    ensures
        le_bytes(v, n).len() == n,
        le(le_bytes(v, n)) == v,
    decreases n,
{
    if n > 0 {
        bytes_write_number(v / 256, (n - 1) as nat);
        let s = le_bytes(v, n);
        assert(s.drop_first() =~= le_bytes(v / 256, (n - 1) as nat));
    }
}

/// The number that bytes write has those bytes.
pub proof fn number_has_bytes(s: Seq<u8>)
    ensures
        le_bytes(le(s), s.len()) == s,
    decreases s.len(),
{
    if s.len() > 0 {
        number_has_bytes(s.drop_first());
        let v = le(s);
        assert(v % 256 == s[0] && v / 256 == le(s.drop_first()));
        assert(seq![s[0]] + s.drop_first() =~= s);
    } else {
        assert(le_bytes(le(s), s.len()) =~= s);
    }
}

/// A kind of number that is stored in bytes.
pub trait Element: Copy {
    /// Bytes of one number.
    spec fn size() -> nat;

    /// The number that bytes write.
    spec fn of_bytes(s: Seq<u8>) -> Self;

    /// The bytes of a number.
    spec fn to_bytes(self) -> Seq<u8>;

    /// The number whose bytes are all zero.
    spec fn nothing() -> Self;

    /// Reading and writing undo each other.
    proof fn laws(x: Self, s: Seq<u8>)
        ensures
            Self::size() > 0,
            x.to_bytes().len() == Self::size(),
            Self::of_bytes(x.to_bytes()) == x,
            s.len() == Self::size() ==> Self::of_bytes(s).to_bytes() == s,
    ;

    /// Bytes of one number.
    fn width() -> (r: usize)
        ensures
            r == Self::size(),
            r > 0,
    ;

    /// The number at `at`.
    fn read(src: &[u8], at: usize) -> (r: Self)
        requires
            at + Self::size() <= src@.len(),
        ensures
            r == Self::of_bytes(src@.subrange(at as int, at + Self::size())),
    ;

    /// Appends the bytes of the number.
    fn write(self, out: &mut Vec<u8>)
        ensures
            final(out)@ == old(out)@ + self.to_bytes(),
    ;

    /// The number whose bytes are all zero.
    fn zero() -> (r: Self)
        ensures
            r == Self::nothing(),
    ;
}

impl Element for u8 {
    open spec fn size() -> nat {
        1
    }

    open spec fn of_bytes(s: Seq<u8>) -> u8 {
        s[0]
    }

    open spec fn to_bytes(self) -> Seq<u8> {
        seq![self]
    }

    open spec fn nothing() -> u8 {
        0
    }

    proof fn laws(x: u8, s: Seq<u8>) {
        assert(s.len() == 1 ==> seq![s[0]] =~= s);
    }

    fn width() -> usize {
        1
    }

    fn read(src: &[u8], at: usize) -> u8 {
        src[at]
    }

    fn write(self, out: &mut Vec<u8>) {
        out.push(self);
        assert(out@ =~= old(out)@ + self.to_bytes());
    }

    fn zero() -> u8 {
        0
    }
}

/// A byte read as a signed number.
pub open spec fn signed(b: u8) -> i8 {
    if b < 128 {
        b as i8
    } else {
        (b - 256) as i8
    }
}

/// A signed number as a byte.
pub open spec fn unsigned(x: i8) -> u8 {
    if x >= 0 {
        x as u8
    } else {
        (x + 256) as u8
    }
}

impl Element for i8 {
    open spec fn size() -> nat {
        1
    }

    open spec fn of_bytes(s: Seq<u8>) -> i8 {
        signed(s[0])
    }

    open spec fn to_bytes(self) -> Seq<u8> {
        seq![unsigned(self)]
    }

    open spec fn nothing() -> i8 {
        0
    }

    proof fn laws(x: i8, s: Seq<u8>) {
        assert(signed(unsigned(x)) == x);
        if s.len() == 1 {
            assert(unsigned(signed(s[0])) == s[0]);
            assert(seq![s[0]] =~= s);
        }
    }

    fn width() -> usize {
        1
    }

    fn read(src: &[u8], at: usize) -> i8 {
        let b: u8 = src[at];
        if b < 128 {
            b as i8
        } else {
            (b as i16 - 256) as i8
        }
    }

    fn write(self, out: &mut Vec<u8>) {
        let b: u8 = if self >= 0 {
            self as u8
        } else {
            (self as i16 + 256) as u8
        };
        out.push(b);
        assert(out@ =~= old(out)@ + self.to_bytes());
    }

    fn zero() -> i8 {
        0
    }
}

impl Element for u16 {
    open spec fn size() -> nat {
        2
    }

    open spec fn of_bytes(s: Seq<u8>) -> u16 {
        le(s) as u16
    }

    open spec fn to_bytes(self) -> Seq<u8> {
        le_bytes(self as nat, 2)
    }

    open spec fn nothing() -> u16 {
        0
    }

    proof fn laws(x: u16, s: Seq<u8>) {
        reveal_with_fuel(range, 3);
        bytes_write_number(x as nat, 2);
        if s.len() == 2 {
            lemma_le_range(s);
            number_has_bytes(s);
        }
    }

    fn width() -> usize {
        2
    }

    fn read(src: &[u8], at: usize) -> u16 {
        proof {
            let s = src@.subrange(at as int, at + 2);
            reveal_with_fuel(le, 3);
            assert(s.drop_first().drop_first().len() == 0);
            assert(le(s) == s[0] + 256 * s[1]);
        }
        src[at] as u16 + 256 * (src[at + 1] as u16)
    }

    fn write(self, out: &mut Vec<u8>) {
        out.push((self % 256) as u8);
        out.push((self / 256) as u8);
        proof {
            reveal_with_fuel(le_bytes, 3);
            assert(out@ =~= old(out)@ + self.to_bytes());
        }
    }

    fn zero() -> u16 {
        0
    }
}

impl Element for u32 {
    open spec fn size() -> nat {
        4
    }

    open spec fn of_bytes(s: Seq<u8>) -> u32 {
        le(s) as u32
    }

    open spec fn to_bytes(self) -> Seq<u8> {
        le_bytes(self as nat, 4)
    }

    open spec fn nothing() -> u32 {
        0
    }

    proof fn laws(x: u32, s: Seq<u8>) {
        reveal_with_fuel(range, 5);
        bytes_write_number(x as nat, 4);
        if s.len() == 4 {
            lemma_le_range(s);
            number_has_bytes(s);
        }
    }

    fn width() -> usize {
        4
    }

    fn read(src: &[u8], at: usize) -> u32 {
        let mut v: u64 = 0;
        let mut i: usize = 4;
        let ghost s = src@.subrange(at as int, at + 4);
        assert(s.skip(4).len() == 0);
        while i > 0
            invariant
                i <= 4,
                at + 4 <= src.len(),
                src@.len() == src.len(),
                s == src@.subrange(at as int, at + 4),
                v == le(s.skip(i as int)),
                v < range((4 - i) as nat),
            decreases i,
        {
            i -= 1;
            proof {
                reveal_with_fuel(range, 6);
                assert(s.skip(i as int).drop_first() =~= s.skip(i + 1));
                assert(s.skip(i as int)[0] == src@[at + i]);
            }
            v = src[at + i] as u64 + 256 * v;
        }
        proof {
            assert(s.skip(0) =~= s);
            reveal_with_fuel(range, 6);
        }
        v as u32
    }

    fn write(self, out: &mut Vec<u8>) {
        let ghost before = out@;
        let mut v: u32 = self;
        let mut i: usize = 0;
        assert(out@ + le_bytes(v as nat, 4) =~= before + le_bytes(self as nat, 4));
        while i < 4
            invariant
                i <= 4,
                out@ + le_bytes(v as nat, (4 - i) as nat) == before + le_bytes(self as nat, 4),
            decreases 4 - i,
        {
            let ghost (held, rest) = (out@, le_bytes((v / 256) as nat, (3 - i) as nat));
            out.push((v % 256) as u8);
            assert(out@ + rest =~= held + (seq![(v % 256) as u8] + rest));
            v = v / 256;
            i += 1;
        }
        assert(out@ + le_bytes(v as nat, 0) =~= out@);
    }

    fn zero() -> u32 {
        0
    }
}

impl Element for u64 {
    open spec fn size() -> nat {
        8
    }

    open spec fn of_bytes(s: Seq<u8>) -> u64 {
        le(s) as u64
    }

    open spec fn to_bytes(self) -> Seq<u8> {
        le_bytes(self as nat, 8)
    }

    open spec fn nothing() -> u64 {
        0
    }

    proof fn laws(x: u64, s: Seq<u8>) {
        reveal_with_fuel(range, 9);
        bytes_write_number(x as nat, 8);
        if s.len() == 8 {
            lemma_le_range(s);
            number_has_bytes(s);
        }
    }

    fn width() -> usize {
        8
    }

    fn read(src: &[u8], at: usize) -> u64 {
        let mut v: u128 = 0;
        let mut i: usize = 8;
        let ghost s = src@.subrange(at as int, at + 8);
        assert(s.skip(8).len() == 0);
        while i > 0
            invariant
                i <= 8,
                at + 8 <= src.len(),
                src@.len() == src.len(),
                s == src@.subrange(at as int, at + 8),
                v == le(s.skip(i as int)),
                v < range((8 - i) as nat),
            decreases i,
        {
            i -= 1;
            proof {
                reveal_with_fuel(range, 10);
                assert(s.skip(i as int).drop_first() =~= s.skip(i + 1));
                assert(s.skip(i as int)[0] == src@[at + i]);
            }
            v = src[at + i] as u128 + 256 * v;
        }
        proof {
            assert(s.skip(0) =~= s);
            reveal_with_fuel(range, 10);
        }
        v as u64
    }

    fn write(self, out: &mut Vec<u8>) {
        let ghost before = out@;
        let mut v: u64 = self;
        let mut i: usize = 0;
        assert(out@ + le_bytes(v as nat, 8) =~= before + le_bytes(self as nat, 8));
        while i < 8
            invariant
                i <= 8,
                out@ + le_bytes(v as nat, (8 - i) as nat) == before + le_bytes(self as nat, 8),
            decreases 8 - i,
        {
            let ghost (held, rest) = (out@, le_bytes((v / 256) as nat, (7 - i) as nat));
            out.push((v % 256) as u8);
            assert(out@ + rest =~= held + (seq![(v % 256) as u8] + rest));
            v = v / 256;
            i += 1;
        }
        assert(out@ + le_bytes(v as nat, 0) =~= out@);
    }

    fn zero() -> u64 {
        0
    }
}

/// The numbers that `bytes` hold, one behind the other.
pub open spec fn values<T: Element>(bytes: Seq<u8>) -> Seq<T> {
    Seq::new(
        (bytes.len() / T::size()) as nat,
        |i: int| T::of_bytes(bytes.subrange(i * T::size(), i * T::size() + T::size())),
    )
}

/// The bytes of numbers, one behind the other.
pub open spec fn raw<T: Element>(vals: Seq<T>) -> Seq<u8>
    decreases vals.len(),
{
    if vals.len() == 0 {
        seq![]
    } else {
        raw(vals.drop_last()) + vals.last().to_bytes()
    }
}

/// How many bytes numbers have.
pub proof fn lemma_raw_len<T: Element>(vals: Seq<T>)
    ensures
        raw(vals).len() == vals.len() * T::size(),
    decreases vals.len(),
{
    if vals.len() > 0 {
        lemma_raw_len(vals.drop_last());
        T::laws(vals.last(), seq![]);
        assert((vals.len() - 1) * T::size() + T::size() == vals.len() * T::size())
            by (nonlinear_arith)
            requires
                vals.len() > 0,
        ;
    } else {
        assert(0 * T::size() == 0) by (nonlinear_arith);
    }
}

/// The bytes of number `i`.
proof fn lemma_raw_at<T: Element>(vals: Seq<T>, i: int)
    requires
        0 <= i < vals.len(),
    ensures
        0 <= i * T::size(),
        i * T::size() + T::size() <= raw(vals).len(),
        raw(vals).subrange(i * T::size(), i * T::size() + T::size()) == vals[i].to_bytes(),
    decreases vals.len(),
{
    let p = vals.drop_last();
    lemma_raw_len(vals);
    lemma_raw_len(p);
    T::laws(vals.last(), seq![]);
    T::laws(vals[i], seq![]);
    assert(0 <= i * T::size() && i * T::size() + T::size() <= vals.len() * T::size())
        by (nonlinear_arith)
        requires
            0 <= i < vals.len(),
    ;
    if i < vals.len() - 1 {
        lemma_raw_at(p, i);
        assert(raw(vals).subrange(i * T::size(), i * T::size() + T::size()) =~= raw(p).subrange(
            i * T::size(),
            i * T::size() + T::size(),
        ));
    } else {
        assert(raw(vals).subrange(i * T::size(), i * T::size() + T::size())
            =~= vals[i].to_bytes());
    }
}

/// Numbers are read back from their bytes.
pub proof fn values_of_raw<T: Element>(vals: Seq<T>)
    ensures
        values::<T>(raw(vals)) == vals,
{
    lemma_raw_len(vals);
    if vals.len() > 0 {
        T::laws(vals[0], seq![]);
        assert((vals.len() * T::size()) / T::size() == vals.len()) by {
            lemma_div_by_multiple(vals.len() as int, T::size() as int);
        }
    } else {
        assert(raw(vals).len() == 0);
        let x: T = arbitrary();
        T::laws(x, seq![]);
        assert(0nat / T::size() == 0) by (nonlinear_arith)
            requires
                T::size() > 0,
        ;
    }
    let back = values::<T>(raw(vals));
    assert(back.len() == vals.len());
    assert forall|i: int| 0 <= i < vals.len() implies #[trigger] back[i] == vals[i] by {
        lemma_raw_at(vals, i);
        T::laws(vals[i], seq![]);
    }
    assert(back =~= vals);
}

/// The numbers that `src` holds.
pub fn read_values<T: Element>(src: &[u8]) -> (r: Vec<T>)
    ensures
        r@ == values::<T>(src@),
{
    let w: usize = T::width();
    let n: usize = src.len() / w;
    let mut out: Vec<T> = Vec::new();
    let mut at: usize = 0;
    proof {
        let len: int = src@.len() as int;
        assert(0 * w == 0) by (nonlinear_arith);
        assert((len / w as int) * w <= len) by (nonlinear_arith)
            requires
                w > 0,
                len >= 0,
        ;
    }
    for i in 0..n
        invariant
            w == T::size(),
            w > 0,
            n == src@.len() / T::size(),
            src@.len() == src.len(),
            at == i * w,
            n * w <= src@.len(),
            out@.len() == i,
            forall|j: int|
                0 <= j < i ==> #[trigger] out@[j] == T::of_bytes(
                    src@.subrange(j * T::size(), j * T::size() + T::size()),
                ),
    {
        assert((i + 1) * w == i * w + w && (i + 1) * w <= n * w) by (nonlinear_arith)
            requires
                i + 1 <= n,
        ;
        out.push(T::read(src, at));
        at = at + w;
    }
    assert(out@ =~= values::<T>(src@));
    out
}

/// The bytes of numbers.
pub fn write_values<T: Element>(vals: &[T]) -> (r: Vec<u8>)
    ensures
        r@ == raw(vals@),
{
    let mut out: Vec<u8> = Vec::new();
    for i in 0..vals.len()
        invariant
            out@ == raw(vals@.take(i as int)),
    {
        vals[i].write(&mut out);
        assert(vals@.take(i + 1).drop_last() =~= vals@.take(i as int));
    }
    assert(vals@.take(vals@.len() as int) =~= vals@);
    out
}

/// The first byte counts least: it is what is left of the number behind the last multiple of 256, and
/// the bytes behind it count 256 times as much as they would alone.
pub proof fn low_bytes_come_first(x: u8, rest: Seq<u8>)
    ensures
        le(seq![x] + rest) % 256 == x,
        le(seq![x] + rest) / 256 == le(rest),
{
    assert((seq![x] + rest).drop_first() =~= rest);
    assert((seq![x] + rest)[0] == x);
}

/// Numbers of every width are written low byte first.
pub proof fn widths_agree(a: u8, b: u8, c: u8, d: u8)
    ensures
        <u16 as Element>::of_bytes(seq![a, b]) == a + 256 * b,
        <u32 as Element>::of_bytes(seq![a, b, c, d]) == a + 256 * b + 65536 * c + 16777216 * d,
        <u64 as Element>::of_bytes(seq![a, b, c, d, 0, 0, 0, 0]) == a + 256 * b + 65536 * c
            + 16777216 * d,
        <u8 as Element>::of_bytes(seq![a]) == a,
        a < 128 ==> <i8 as Element>::of_bytes(seq![a]) == a,
        a >= 128 ==> <i8 as Element>::of_bytes(seq![a]) == a - 256,
{
    reveal_with_fuel(le, 9);
    assert(seq![a, b].drop_first() =~= seq![b]);
    assert(seq![b].drop_first() =~= Seq::<u8>::empty());
    let s = seq![a, b, c, d];
    assert(s.drop_first() =~= seq![b, c, d]);
    assert(seq![b, c, d].drop_first() =~= seq![c, d]);
    assert(seq![c, d].drop_first() =~= seq![d]);
    assert(seq![d].drop_first() =~= Seq::<u8>::empty());
    let l = seq![a, b, c, d, 0u8, 0u8, 0u8, 0u8];
    assert(l.drop_first() =~= seq![b, c, d, 0u8, 0u8, 0u8, 0u8]);
    assert(seq![b, c, d, 0u8, 0u8, 0u8, 0u8].drop_first() =~= seq![c, d, 0u8, 0u8, 0u8, 0u8]);
    assert(seq![c, d, 0u8, 0u8, 0u8, 0u8].drop_first() =~= seq![d, 0u8, 0u8, 0u8, 0u8]);
    assert(seq![d, 0u8, 0u8, 0u8, 0u8].drop_first() =~= seq![0u8, 0u8, 0u8, 0u8]);
    assert(seq![0u8, 0u8, 0u8, 0u8].drop_first() =~= seq![0u8, 0u8, 0u8]);
    assert(seq![0u8, 0u8, 0u8].drop_first() =~= seq![0u8, 0u8]);
    assert(seq![0u8, 0u8].drop_first() =~= seq![0u8]);
    assert(seq![0u8].drop_first() =~= Seq::<u8>::empty());
}

} // verus!
