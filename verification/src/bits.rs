//! Bit-strings: ordered sequences of bits with prefix-aware comparison,
//! chunking, padding, splitting and integer conversion.

use vstd::prelude::*;
use vstd::arithmetic::power2::*;

use crate::errors::Error;

verus! {

/// A single bit. `B0 < B1`.
#[derive(Clone, Copy, Debug, PartialEq, Eq, Structural)]
pub enum Bit {
    B0,
    B1,
}

/// The numeric value of one bit.
pub open spec fn bit_val(b: Bit) -> nat {
    if b is B1 {
        1
    } else {
        0
    }
}

/// The unsigned integer denoted by a bit sequence read MSB-first.
pub open spec fn bits_to_nat(s: Seq<Bit>) -> nat
    decreases s.len(),
{
    if s.len() == 0 {
        0
    } else {
        bits_to_nat(s.drop_last()) * 2 + bit_val(s.last())
    }
}

/// `bits_to_nat` is bounded by two to the length.
pub proof fn lemma_bits_to_nat_bound(s: Seq<Bit>)
    ensures
        bits_to_nat(s) < pow2(s.len()),
    decreases s.len(),
{
    if s.len() == 0 {
        lemma2_to64();
    } else {
        lemma_bits_to_nat_bound(s.drop_last());
        lemma_pow2_unfold(s.len());
        assert(pow2(s.len()) == 2 * pow2((s.len() - 1) as nat));
    }
}

/// Bit `i` of a byte, MSB-first: bit 0 is the highest-order bit.
pub open spec fn u8_bit(n: u8, i: int) -> Bit
    recommends
        0 <= i < 8,
{
    if (n >> (7 - i) as u8) & 1u8 == 1u8 {
        Bit::B1
    } else {
        Bit::B0
    }
}

/// The eight bits of a byte, MSB-first.
pub open spec fn u8_bits(n: u8) -> Seq<Bit> {
    Seq::new(8, |i: int| u8_bit(n, i))
}

/// A finite ordered sequence of bits. As a set it denotes all width-W
/// bit-strings that begin with this sequence; the empty `Prefix` denotes
/// the full universe.
#[derive(Debug, PartialEq, Eq)]
pub struct Prefix(Vec<Bit>);

impl View for Prefix {
    type V = Seq<Bit>;

    closed spec fn view(&self) -> Seq<Bit> {
        self.0@
    }
}

impl Clone for Prefix {
    /// A copy with the same bits.
    fn clone(&self) -> (res: Self)
        ensures
            res@ == self@,
    {
        let mut v: Vec<Bit> = Vec::new();
        let n = self.0.len();
        let mut i: usize = 0;
        while i < n
            invariant
                i <= n,
                n == self.0@.len(),
                v@ == self.0@.subrange(0, i as int),
            decreases n - i,
        {
            v.push(self.0[i]);
            proof {
                assert(v@ =~= self.0@.subrange(0, i + 1));
            }
            i = i + 1;
        }
        proof {
            assert(self.0@.subrange(0, n as int) =~= self.0@);
        }
        Prefix(v)
    }
}

/// How two bit-strings compare as prefixes. Equal-length strings compare
/// lexicographically; strings of different lengths are comparable only up
/// to the shorter one, and when those bits agree each denotes a set that
/// the single order cannot rank, so the result is `Incomparable`.
#[derive(Clone, Copy, Debug, PartialEq, Eq, Structural)]
pub enum PrefixOrd {
    Less,
    Equal,
    Greater,
    Incomparable,
}

/// Prefix-aware comparison of two bit sequences: scan from the left; the
/// first differing bit decides; if one string runs out first the two are
/// incomparable; if both run out together they are equal.
pub open spec fn prefix_cmp(a: Seq<Bit>, b: Seq<Bit>) -> PrefixOrd
    decreases a.len() + b.len(),
{
    if a.len() == 0 && b.len() == 0 {
        PrefixOrd::Equal
    } else if a.len() == 0 || b.len() == 0 {
        PrefixOrd::Incomparable
    } else if a[0] == b[0] {
        prefix_cmp(a.drop_first(), b.drop_first())
    } else if a[0] is B0 {
        PrefixOrd::Less
    } else {
        PrefixOrd::Greater
    }
}

/// `a <= b` in the equal-length lexicographic order.
pub open spec fn lex_le(a: Seq<Bit>, b: Seq<Bit>) -> bool {
    prefix_cmp(a, b) is Less || prefix_cmp(a, b) is Equal
}

impl Prefix {
    /// The length-0 bit-string (the full universe as a prefix set).
    pub fn empty() -> (r: Self)
        ensures
            r@ == Seq::<Bit>::empty(),
    {
        let v: Vec<Bit> = Vec::new();
        let r = Prefix(v);
        proof {
            assert(r@ =~= Seq::<Bit>::empty());
        }
        r
    }

    /// The eight bits of a byte, MSB-first.
    pub fn from_u8(n: u8) -> (r: Self)
        ensures
            r@ == u8_bits(n),
    {
        let mut v: Vec<Bit> = Vec::new();
        let mut i: usize = 0;
        while i < 8
            invariant
                i <= 8,
                v@.len() == i,
                forall|j: int| 0 <= j < i ==> v@[j] == u8_bit(n, j),
            decreases 8 - i,
        {
            let sh: u8 = 7 - (i as u8);
            let b = if (n >> sh) & 1u8 == 1u8 {
                Bit::B1
            } else {
                Bit::B0
            };
            proof {
                assert(b == u8_bit(n, i as int));
            }
            v.push(b);
            i = i + 1;
        }
        let r = Prefix(v);
        proof {
            assert(r@ =~= u8_bits(n));
        }
        r
    }

    /// A bit-string from a slice of bytes that are each 0 or 1.
    pub fn from_bits(bits: &[u8]) -> (r: Self)
        requires
            forall|i: int| 0 <= i < bits@.len() ==> bits@[i] <= 1,
        ensures
            r@.len() == bits@.len(),
            forall|i: int|
                0 <= i < bits@.len() ==> r@[i] == (if bits@[i] == 1 {
                    Bit::B1
                } else {
                    Bit::B0
                }),
    {
        let mut v: Vec<Bit> = Vec::new();
        let n = bits.len();
        let mut i: usize = 0;
        while i < n
            invariant
                i <= n,
                n == bits@.len(),
                forall|k: int| 0 <= k < bits@.len() ==> bits@[k] <= 1,
                v@.len() == i,
                forall|j: int|
                    0 <= j < i ==> v@[j] == (if bits@[j] == 1 {
                        Bit::B1
                    } else {
                        Bit::B0
                    }),
            decreases n - i,
        {
            let b = bits[i];
            v.push(if b == 1 {
                Bit::B1
            } else {
                Bit::B0
            });
            i = i + 1;
        }
        Prefix(v)
    }

    /// The number of bits.
    pub fn len(&self) -> (r: usize)
        ensures
            r == self@.len(),
    {
        self.0.len()
    }

    /// Appends all bits of `other` after the bits of `self`.
    pub fn extend(&mut self, other: Prefix)
        ensures
            final(self)@ == old(self)@ + other@,
    {
        let mut o = other;
        let ghost oview = o.0@;
        self.0.append(&mut o.0);
        proof {
            assert(self.0@ =~= old(self)@ + oview);
        }
    }

    /// Appends one bit in place.
    pub fn push(&mut self, bit: Bit)
        ensures
            final(self)@ == old(self)@.push(bit),
    {
        self.0.push(bit);
    }

    /// A copy of `self` with `bit` appended (non-mutating `push`).
    pub fn append(&self, bit: Bit) -> (r: Self)
        ensures
            r@ == self@.push(bit),
    {
        let mut v: Vec<Bit> = Vec::new();
        let n = self.0.len();
        let mut i: usize = 0;
        while i < n
            invariant
                i <= n,
                n == self.0@.len(),
                v@ =~= self.0@.subrange(0, i as int),
            decreases n - i,
        {
            v.push(self.0[i]);
            i = i + 1;
        }
        v.push(bit);
        let r = Prefix(v);
        proof {
            assert(self.0@.subrange(0, n as int) =~= self.0@);
            assert(r@ =~= self@.push(bit));
        }
        r
    }

    /// Keeps the first `n` bits; a no-op when `n` exceeds the length.
    pub fn truncate(&mut self, n: usize)
        ensures
            final(self)@ == (if n <= old(self)@.len() {
                old(self)@.subrange(0, n as int)
            } else {
                old(self)@
            }),
    {
        self.0.truncate(n);
    }

    /// Resizes to `new_len` bits, appending `bit` when growing and
    /// dropping trailing bits when shrinking.
    pub fn right_pad(&mut self, new_len: usize, bit: Bit)
        ensures
            final(self)@ == (if new_len <= old(self)@.len() {
                old(self)@.subrange(0, new_len as int)
            } else {
                old(self)@ + Seq::new((new_len - old(self)@.len()) as nat, |i: int| bit)
            }),
    {
        self.0.resize(new_len, bit);
        proof {
            if new_len > old(self)@.len() {
                assert(self.0@ =~= old(self)@ + Seq::new((new_len - old(self)@.len()) as nat, |i: int| bit));
            }
        }
    }

    /// Removes and returns the first bit and the remainder; fails on the
    /// empty bit-string.
    pub fn split(self) -> (r: Result<(Bit, Self), Error>)
        ensures
            self@.len() == 0 <==> r is Err,
            r matches Err(e) ==> e == Error::EmptyPrefix,
            r matches Ok(p) ==> p.0 == self@[0] && p.1@ == self@.drop_first(),
    {
        let mut v = self.0;
        if v.len() == 0 {
            return Err(Error::EmptyPrefix);
        }
        let head = v.remove(0);
        proof {
            assert(v@ =~= self@.drop_first());
        }
        Ok((head, Prefix(v)))
    }

    /// The integer value of the bits read MSB-first; fails when there are
    /// more than 64 bits.
    pub fn to_u64(&self) -> (r: Result<u64, Error>)
        ensures
            self@.len() <= 64 <==> r is Ok,
            r matches Err(e) ==> e == Error::ChunkSizeInvalid,
            r matches Ok(v) ==> v == bits_to_nat(self@),
    {
        if self.0.len() > 64 {
            return Err(Error::ChunkSizeInvalid);
        }
        proof {
            assert(self.0@.subrange(0, self.0@.len() as int) =~= self@);
        }
        Ok(bits_value(&self.0, 0, self.0.len()))
    }

    /// Splits the bits into consecutive chunks of `n` bits and returns each
    /// chunk's MSB-first integer value. Fails when `n` is 0, exceeds 64, or
    /// does not divide the length evenly.
    pub fn chunks(&self, n: usize) -> (r: Result<Vec<u64>, Error>)
        ensures
            (0 < n <= 64 && (self@.len() as int) % (n as int) == 0) <==> r is Ok,
            r matches Err(e) ==> e == Error::ChunkSizeInvalid,
            r matches Ok(v) ==> v@.len() == (self@.len() as int) / (n as int) && forall|i: int|
                0 <= i < v@.len() ==> v@[i] == bits_to_nat(
                    self@.subrange(i * n, i * n + n),
                ),
    {
        if n == 0 || n > 64 {
            return Err(Error::ChunkSizeInvalid);
        }
        let len = self.0.len();
        if len % n != 0 {
            return Err(Error::ChunkSizeInvalid);
        }
        let mut out: Vec<u64> = Vec::new();
        let mut i: usize = 0;
        while i < len
            invariant
                0 < n <= 64,
                len == self@.len(),
                (len as int) % (n as int) == 0,
                (i as int) % (n as int) == 0,
                i <= len,
                out@.len() == (i as int) / (n as int),
                forall|k: int|
                    0 <= k < out@.len() ==> out@[k] == bits_to_nat(
                        self@.subrange(k * n, k * n + n),
                    ),
            decreases len - i,
        {
            proof {
                lemma_mod_step(i as int, n as int, len as int);
            }
            let v = bits_value(&self.0, i, i + n);
            out.push(v);
            i = i + n;
        }
        Ok(out)
    }
}

/// After `i` whole chunks of size `n` within `len`, one more chunk fits and
/// keeps the index a multiple of `n`.
proof fn lemma_mod_step(i: int, n: int, len: int)
    requires
        0 < n,
        0 <= i < len,
        i % n == 0,
        len % n == 0,
    ensures
        i + n <= len,
        (i + n) % n == 0,
        (i + n) / n == i / n + 1,
        i == (i / n) * n,
{
    vstd::arithmetic::div_mod::lemma_fundamental_div_mod(i, n);
    vstd::arithmetic::div_mod::lemma_fundamental_div_mod(len, n);
    let qi = i / n;
    let ql = len / n;
    assert(qi < ql) by (nonlinear_arith)
        requires
            n > 0,
            n * qi < n * ql,
    ;
    assert(i + n <= len) by (nonlinear_arith)
        requires
            qi + 1 <= ql,
            n > 0,
            i == n * qi,
            len == n * ql,
    ;
    assert(i + n == (qi + 1) * n + 0) by (nonlinear_arith)
        requires
            i == n * qi,
    ;
    assert(i == qi * n) by (nonlinear_arith)
        requires
            i == n * qi,
    ;
    vstd::arithmetic::div_mod::lemma_fundamental_div_mod_converse(i + n, n, qi + 1, 0);
}

/// The MSB-first integer value of `v[from..to]`, proved against
/// `bits_to_nat`.
fn bits_value(v: &Vec<Bit>, from: usize, to: usize) -> (r: u64)
    requires
        from <= to <= v@.len(),
        to - from <= 64,
    ensures
        r == bits_to_nat(v@.subrange(from as int, to as int)),
{
    let mut acc: u64 = 0;
    let mut i: usize = from;
    while i < to
        invariant
            from <= i <= to <= v@.len(),
            to - from <= 64,
            acc == bits_to_nat(v@.subrange(from as int, i as int)),
        decreases to - i,
    {
        proof {
            let s = v@.subrange(from as int, i as int);
            lemma_bits_to_nat_bound(s);
            if s.len() < 63 {
                lemma_pow2_strictly_increases(s.len(), 63);
            }
            lemma_pow2_is_u64_max();
            assert(v@.subrange(from as int, i + 1).drop_last() =~= s);
        }
        let b: u64 = match v[i] {
            Bit::B0 => 0,
            Bit::B1 => 1,
        };
        acc = acc * 2 + b;
        i = i + 1;
    }
    acc
}

/// `pow2(63)` fits in a `u64`, so 63-bit values can be doubled.
proof fn lemma_pow2_is_u64_max()
    ensures
        pow2(63) == 0x8000000000000000,
{
    lemma2_to64_rest();
}

/// Unfolds `pow2` one step.
proof fn lemma_pow2_unfold(n: nat)
    requires
        n >= 1,
    ensures
        pow2(n) == 2 * pow2((n - 1) as nat),
{
    vstd::arithmetic::power2::lemma_pow2_adds(1, (n - 1) as nat);
    lemma2_to64();
}


/// Prefix-aware comparison, the executable form of `prefix_cmp`.
impl Prefix {
    /// Compares two bit-strings as prefixes: the first differing bit
    /// decides; different lengths with equal leading bits are incomparable.
    pub fn compare(&self, other: &Prefix) -> (r: PrefixOrd)
        ensures
            r == prefix_cmp(self@, other@),
    {
        let a = &self.0;
        let b = &other.0;
        let alen = a.len();
        let blen = b.len();
        let m = if alen < blen {
            alen
        } else {
            blen
        };
        let mut i: usize = 0;
        proof {
            assert(a@.skip(0) =~= a@);
            assert(b@.skip(0) =~= b@);
        }
        while i < m
            invariant
                a@ == self@,
                b@ == other@,
                i <= m,
                m == (if a@.len() < b@.len() {
                    a@.len() as int
                } else {
                    b@.len() as int
                }),
                prefix_cmp(a@, b@) == prefix_cmp(a@.skip(i as int), b@.skip(i as int)),
            decreases m - i,
        {
            let x = a[i];
            let y = b[i];
            proof {
                let sa = a@.skip(i as int);
                let sb = b@.skip(i as int);
                assert(sa.len() > 0 && sb.len() > 0);
                assert(sa[0] == a@[i as int]);
                assert(sb[0] == b@[i as int]);
                if x == y {
                    assert(sa.drop_first() =~= a@.skip(i + 1));
                    assert(sb.drop_first() =~= b@.skip(i + 1));
                } else if x is B0 {
                    assert(prefix_cmp(sa, sb) is Less);
                } else {
                    assert(prefix_cmp(sa, sb) is Greater);
                }
            }
            match (x, y) {
                (Bit::B0, Bit::B1) => {
                    return PrefixOrd::Less;
                },
                (Bit::B1, Bit::B0) => {
                    return PrefixOrd::Greater;
                },
                _ => {},
            }
            i = i + 1;
        }
        proof {
            let sa = a@.skip(m as int);
            let sb = b@.skip(m as int);
            assert(sa.len() == a@.len() - m);
            assert(sb.len() == b@.len() - m);
        }
        if alen == blen {
            PrefixOrd::Equal
        } else {
            PrefixOrd::Incomparable
        }
    }
}

/// Two bit-strings of equal length always compare as less, equal or
/// greater, never as incomparable.
pub proof fn lemma_cmp_total(a: Seq<Bit>, b: Seq<Bit>)
    requires
        a.len() == b.len(),
    ensures
        !(prefix_cmp(a, b) is Incomparable),
    decreases a.len(),
{
    if a.len() != 0 && a[0] == b[0] {
        lemma_cmp_total(a.drop_first(), b.drop_first());
    }
}

/// Comparing as equal means being the same sequence.
pub proof fn lemma_cmp_equal(a: Seq<Bit>, b: Seq<Bit>)
    ensures
        prefix_cmp(a, b) is Equal <==> a == b,
    decreases a.len() + b.len(),
{
    if a.len() == 0 && b.len() == 0 {
        assert(a =~= b);
    } else if a.len() == 0 || b.len() == 0 {
        assert(a != b);
    } else if a[0] == b[0] {
        lemma_cmp_equal(a.drop_first(), b.drop_first());
        if a.drop_first() == b.drop_first() {
            assert forall|i: int| 0 <= i < a.len() implies a[i] == b[i] by {
                if i > 0 {
                    assert(a.drop_first()[i - 1] == b.drop_first()[i - 1]);
                }
            }
            assert(a =~= b);
        } else {
            assert(a =~= b ==> a.drop_first() =~= b.drop_first());
        }
    } else {
        assert(a != b);
    }
}

/// Swapping the arguments swaps `Less` and `Greater`.
pub proof fn lemma_cmp_swap(a: Seq<Bit>, b: Seq<Bit>)
    ensures
        prefix_cmp(b, a) == (match prefix_cmp(a, b) {
            PrefixOrd::Less => PrefixOrd::Greater,
            PrefixOrd::Greater => PrefixOrd::Less,
            PrefixOrd::Equal => PrefixOrd::Equal,
            PrefixOrd::Incomparable => PrefixOrd::Incomparable,
        }),
    decreases a.len() + b.len(),
{
    if a.len() != 0 && b.len() != 0 && a[0] == b[0] {
        lemma_cmp_swap(a.drop_first(), b.drop_first());
    }
}

/// A strict comparison survives extending either side: the first
/// differing bit still decides.
pub proof fn lemma_cmp_extend(a: Seq<Bit>, b: Seq<Bit>, y: Seq<Bit>)
    requires
        prefix_cmp(a, b) is Less || prefix_cmp(a, b) is Greater,
    ensures
        prefix_cmp(a + y, b) == prefix_cmp(a, b),
        prefix_cmp(a, b + y) == prefix_cmp(a, b),
    decreases a.len() + b.len(),
{
    assert(a.len() != 0 && b.len() != 0);
    assert((a + y).len() != 0);
    assert((a + y)[0] == a[0]);
    assert((b + y)[0] == b[0]);
    if a[0] == b[0] {
        lemma_cmp_extend(a.drop_first(), b.drop_first(), y);
        assert((a + y).drop_first() =~= a.drop_first() + y);
        assert((b + y).drop_first() =~= b.drop_first() + y);
    }
}

/// When the shorter string is incomparable to the longer, it is a proper
/// prefix of it.
pub proof fn lemma_cmp_incomparable_prefix(c: Seq<Bit>, s: Seq<Bit>)
    requires
        c.len() <= s.len(),
        prefix_cmp(c, s) is Incomparable,
    ensures
        c.len() < s.len(),
        c == s.subrange(0, c.len() as int),
    decreases c.len(),
{
    if c.len() == 0 {
        assert(c =~= s.subrange(0, 0));
    } else {
        assert(c[0] == s[0]);
        lemma_cmp_incomparable_prefix(c.drop_first(), s.drop_first());
        assert(c =~= s.subrange(0, c.len() as int)) by {
            assert(c.drop_first() == s.drop_first().subrange(0, c.len() - 1));
            assert forall|i: int| 0 <= i < c.len() implies c[i] == s[i] by {
                if i > 0 {
                    assert(c.drop_first()[i - 1] == s.drop_first()[i - 1]);
                }
            }
        }
    }
}

/// The head bit decomposition of `bits_to_nat`.
pub proof fn lemma_bits_to_nat_head(s: Seq<Bit>)
    requires
        s.len() > 0,
    ensures
        bits_to_nat(s) == bit_val(s[0]) * pow2((s.len() - 1) as nat) + bits_to_nat(
            s.drop_first(),
        ),
    decreases s.len(),
{
    if s.len() == 1 {
        assert(s.drop_last() =~= Seq::<Bit>::empty());
        assert(s.drop_first() =~= Seq::<Bit>::empty());
        lemma2_to64();
    } else {
        let d = s.drop_last();
        lemma_bits_to_nat_head(d);
        lemma_pow2_unfold((s.len() - 1) as nat);
        assert(d.drop_first() =~= s.drop_first().drop_last());
        assert(d[0] == s[0]);
        let p = pow2((s.len() - 2) as nat);
        let v = bit_val(s[0]);
        let rest = bits_to_nat(d.drop_first());
        assert(bits_to_nat(s) == (v * p + rest) * 2 + bit_val(s.last()));
        assert((v * p + rest) * 2 == v * (2 * p) + rest * 2) by (nonlinear_arith);
        assert(s.drop_first().last() == s.last());
        assert(bits_to_nat(s.drop_first()) == rest * 2 + bit_val(s.last()));
    }
}

/// On equal-length strings the prefix order is exactly the order of the
/// MSB-first integer values.
pub proof fn lemma_cmp_value(a: Seq<Bit>, b: Seq<Bit>)
    requires
        a.len() == b.len(),
    ensures
        prefix_cmp(a, b) is Less <==> bits_to_nat(a) < bits_to_nat(b),
        prefix_cmp(a, b) is Equal <==> bits_to_nat(a) == bits_to_nat(b),
    decreases a.len(),
{
    if a.len() == 0 {
    } else {
        lemma_bits_to_nat_head(a);
        lemma_bits_to_nat_head(b);
        let p = pow2((a.len() - 1) as nat);
        lemma_bits_to_nat_bound(a.drop_first());
        lemma_bits_to_nat_bound(b.drop_first());
        if a[0] == b[0] {
            lemma_cmp_value(a.drop_first(), b.drop_first());
        } else {
            assert(bits_to_nat(a.drop_first()) < p);
            assert(bits_to_nat(b.drop_first()) < p);
        }
    }
}

} // verus!
