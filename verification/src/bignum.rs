//! Arbitrary-precision signed integers: a sign and a little-endian magnitude.
//!
//! The decoder pushes these for decimal integer operands and for the
//! sign-extended little-endian payloads of the length-prefixed long opcodes.
//! The mathematical value of a number is its view, an unbounded `int`.

use vstd::prelude::*;

verus! {

/// Numeric value of a little-endian magnitude byte string: sum of s[i] * 256^i.
pub open spec fn mag_value(s: Seq<u8>) -> int
    decreases s.len(),
{
    if s.len() == 0 {
        0
    } else {
        s[0] + 256 * mag_value(s.drop_first())
    }
}

/// 256 raised to the n-th power.
pub open spec fn pow256(n: nat) -> int
    decreases n,
{
    if n == 0 {
        1
    } else {
        256 * pow256((n - 1) as nat)
    }
}

/// Whether every byte of s is an ASCII decimal digit.
pub open spec fn all_digits(s: Seq<u8>) -> bool {
    forall|i: int| 0 <= i < s.len() ==> 48 <= #[trigger] s[i] <= 57
}

/// Numeric value of a string of ASCII decimal digits, most significant first.
pub open spec fn digits_value(s: Seq<u8>) -> int
    decreases s.len(),
{
    if s.len() == 0 {
        0
    } else {
        10 * digits_value(s.drop_last()) + (s.last() - 48)
    }
}

/// A decimal integer literal: an optional sign followed by at least one digit.
pub open spec fn valid_decimal(s: Seq<u8>) -> bool {
    if s.len() > 0 && (s[0] == 43 || s[0] == 45) {
        s.len() > 1 && all_digits(s.drop_first())
    } else {
        s.len() > 0 && all_digits(s)
    }
}

/// Value of a decimal integer literal, sign applied.
pub open spec fn decimal_value(s: Seq<u8>) -> int
    recommends
        valid_decimal(s),
{
    if s.len() > 0 && s[0] == 45 {
        -digits_value(s.drop_first())
    } else if s.len() > 0 && s[0] == 43 {
        digits_value(s.drop_first())
    } else {
        digits_value(s)
    }
}

/// Value of a little-endian two's-complement byte string: the unsigned
/// magnitude, less 256^len when the top bit of the last byte is set.
pub open spec fn twos_value(s: Seq<u8>) -> int
    recommends
        s.len() > 0,
{
    if s.last() >= 128 {
        mag_value(s) - pow256(s.len())
    } else {
        mag_value(s)
    }
}

/// The n little-endian bytes of the non-negative integer u.
pub open spec fn le_bytes_nat(u: int, n: nat) -> Seq<u8>
    decreases n,
{
    if n == 0 {
        Seq::empty()
    } else {
        seq![(u % 256) as u8] + le_bytes_nat(u / 256, (n - 1) as nat)
    }
}

/// The n-byte little-endian two's-complement encoding of k.
pub open spec fn le_bytes_of(k: int, n: nat) -> Seq<u8>
    recommends
        -pow256(n) <= 2 * k < pow256(n),
{
    if k < 0 {
        le_bytes_nat(k + pow256(n), n)
    } else {
        le_bytes_nat(k, n)
    }
}

pub proof fn lemma_pow256_pos(n: nat)
    ensures
        pow256(n) >= 1,
    decreases n,
{
    if n > 0 {
        lemma_pow256_pos((n - 1) as nat);
    }
}

pub proof fn lemma_mag_value_bounds(s: Seq<u8>)
    ensures
        0 <= mag_value(s) < pow256(s.len()),
    decreases s.len(),
{
    if s.len() == 0 {
    } else {
        lemma_mag_value_bounds(s.drop_first());
    }
}

pub proof fn lemma_mag_value_push(s: Seq<u8>, b: u8)
    ensures
        mag_value(s.push(b)) == mag_value(s) + b * pow256(s.len()),
    decreases s.len(),
{
    if s.len() == 0 {
        assert(s.push(b) =~= seq![b]);
        assert(mag_value(seq![b].drop_first()) == 0) by {
            assert(seq![b].drop_first() =~= Seq::<u8>::empty());
        }
    } else {
        assert(s.push(b).drop_first() =~= s.drop_first().push(b));
        lemma_mag_value_push(s.drop_first(), b);
        assert(256 * (mag_value(s.drop_first()) + b * pow256((s.len() - 1) as nat)) == 256
            * mag_value(s.drop_first()) + b * (256 * pow256((s.len() - 1) as nat)))
            by (nonlinear_arith);
    }
}

/// A magnitude whose most significant byte has the top bit set is at least
/// 128 * 256^(len-1).
pub proof fn lemma_mag_value_msb_high(s: Seq<u8>)
    requires
        s.len() > 0,
        s.last() >= 128,
    ensures
        mag_value(s) >= 128 * pow256((s.len() - 1) as nat),
    decreases s.len(),
{
    if s.len() == 1 {
        assert(mag_value(s) == s[0] + 256 * mag_value(s.drop_first()));
        lemma_mag_value_bounds(s.drop_first());
    } else {
        lemma_mag_value_msb_high(s.drop_first());
        lemma_mag_value_bounds(s);
        assert(256 * mag_value(s.drop_first()) >= 256 * (128 * pow256((s.len() - 2) as nat)))
            by (nonlinear_arith)
            requires
                mag_value(s.drop_first()) >= 128 * pow256((s.len() - 2) as nat),
        ;
        assert(256 * (128 * pow256((s.len() - 2) as nat)) == 128 * pow256((s.len() - 1) as nat))
            by (nonlinear_arith)
            requires
                pow256((s.len() - 1) as nat) == 256 * pow256((s.len() - 2) as nat),
        ;
    }
}

pub proof fn lemma_le_bytes_nat_value(u: int, n: nat)
    requires
        0 <= u < pow256(n),
    ensures
        le_bytes_nat(u, n).len() == n,
        mag_value(le_bytes_nat(u, n)) == u,
    decreases n,
{
    if n == 0 {
    } else {
        lemma_pow256_pos((n - 1) as nat);
        assert(0 <= u / 256 < pow256((n - 1) as nat)) by (nonlinear_arith)
            requires
                0 <= u < 256 * pow256((n - 1) as nat),
                pow256((n - 1) as nat) >= 1,
        ;
        lemma_le_bytes_nat_value(u / 256, (n - 1) as nat);
        let s = le_bytes_nat(u, n);
        assert(s.drop_first() =~= le_bytes_nat(u / 256, (n - 1) as nat));
        assert(u == 256 * (u / 256) + u % 256) by (nonlinear_arith);
    }
}

pub proof fn lemma_le_bytes_nat_last(u: int, n: nat)
    requires
        n >= 1,
        0 <= u < pow256(n),
    ensures
        le_bytes_nat(u, n).last() == u / pow256((n - 1) as nat),
    decreases n,
{
    let s = le_bytes_nat(u, n);
    if n == 1 {
        assert(pow256(0) == 1);
        assert(pow256(1) == 256);
        assert(le_bytes_nat(u / 256, 0) =~= Seq::<u8>::empty());
        assert(s =~= seq![(u % 256) as u8]);
        assert(u % 256 == u) by (nonlinear_arith)
            requires
                0 <= u < 256,
        ;
    } else {
        lemma_pow256_pos((n - 1) as nat);
        lemma_pow256_pos((n - 2) as nat);
        assert(0 <= u / 256 < pow256((n - 1) as nat)) by (nonlinear_arith)
            requires
                0 <= u < 256 * pow256((n - 1) as nat),
                pow256((n - 1) as nat) >= 1,
        ;
        lemma_le_bytes_nat_last(u / 256, (n - 1) as nat);
        lemma_le_bytes_nat_value(u / 256, (n - 1) as nat);
        assert(s.last() == le_bytes_nat(u / 256, (n - 1) as nat).last());
        assert((u / 256) / pow256((n - 2) as nat) == u / (256 * pow256((n - 2) as nat))) by {
            vstd::arithmetic::div_mod::lemma_div_denominator(u, 256, pow256((n - 2) as nat));
        }
    }
}

/// Decoding the n-byte little-endian two's-complement encoding of an
/// in-range integer k gives back exactly k.
pub proof fn lemma_twos_complement_round_trip(k: int, n: nat)
    requires
        n >= 1,
        -pow256(n) <= 2 * k < pow256(n),
    ensures
        le_bytes_of(k, n).len() == n,
        twos_value(le_bytes_of(k, n)) == k,
{
    lemma_pow256_pos((n - 1) as nat);
    assert(pow256(n) == 256 * pow256((n - 1) as nat));
    let half = 128 * pow256((n - 1) as nat);
    assert(2 * half == pow256(n));
    if k < 0 {
        let u = k + pow256(n);
        assert(half <= u < pow256(n));
        lemma_le_bytes_nat_value(u, n);
        lemma_le_bytes_nat_last(u, n);
        let s = le_bytes_of(k, n);
        assert(s.last() == u / pow256((n - 1) as nat));
        assert(u / pow256((n - 1) as nat) >= 128) by (nonlinear_arith)
            requires
                u >= 128 * pow256((n - 1) as nat),
                pow256((n - 1) as nat) >= 1,
        ;
    } else {
        let u = k;
        assert(0 <= u < half);
        lemma_le_bytes_nat_value(u, n);
        lemma_le_bytes_nat_last(u, n);
        let s = le_bytes_of(k, n);
        assert(u / pow256((n - 1) as nat) < 128) by (nonlinear_arith)
            requires
                0 <= u < 128 * pow256((n - 1) as nat),
                pow256((n - 1) as nat) >= 1,
        ;
    }
}

/// An arbitrary-precision signed integer: a sign and a little-endian
/// magnitude with no most-significant zero byte.  Its view is its value.
#[derive(Debug, PartialEq, Eq)]
pub struct BigNum {
    negative: bool,
    mag: Vec<u8>,
}

impl View for BigNum {
    type V = int;

    closed spec fn view(&self) -> int {
        if self.negative {
            -mag_value(self.mag@)
        } else {
            mag_value(self.mag@)
        }
    }
}

impl Clone for BigNum {
    fn clone(&self) -> (r: Self)
        ensures
            r@ == self@,
    {
        let mut bytes: Vec<u8> = Vec::new();
        let mut i: usize = 0;
        while i < self.mag.len()
            invariant
                i <= self.mag.len(),
                bytes@ =~= self.mag@.subrange(0, i as int),
            decreases self.mag.len() - i,
        {
            bytes.push(self.mag[i]);
            i = i + 1;
        }
        assert(bytes@ =~= self.mag@);
        BigNum { negative: self.negative, mag: bytes }
    }
}

/// Drops most-significant zero bytes; the value is unchanged.
fn trim_zeroes(mag: &mut Vec<u8>)
    ensures
        mag_value(final(mag)@) == mag_value(old(mag)@),
        final(mag)@.len() > 0 ==> final(mag)@.last() != 0,
{
    while mag.len() > 0 && mag[mag.len() - 1] == 0
        invariant
            mag_value(mag@) == mag_value(old(mag)@),
        decreases mag.len(),
    {
        proof {
            lemma_mag_value_push(mag@.drop_last(), mag@.last());
            assert(mag@.drop_last().push(mag@.last()) =~= mag@);
        }
        mag.pop();
    }
}

impl BigNum {
    /// The number with value v.
    pub fn from_i64(v: i64) -> (r: BigNum)
        ensures
            r@ == v as int,
    {
        let negative: bool = v < 0;
        let mut u: u128 = if v >= 0 {
            v as u128
        } else {
            (-(v as i128)) as u128
        };
        let ghost total: int = u as int;
        let mut mag: Vec<u8> = Vec::new();
        proof {
            assert(pow256(0) == 1);
            assert(u as int * 1 == u as int) by (nonlinear_arith);
        }
        while u > 0
            invariant
                mag_value(mag@) + u * pow256(mag@.len()) == total,
            decreases u,
        {
            let b: u8 = (u % 256) as u8;
            proof {
                let p = pow256(mag@.len());
                lemma_pow256_pos(mag@.len());
                lemma_mag_value_push(mag@, b);
                assert(pow256(mag@.len() + 1) == 256 * p);
                assert(u as int == 256 * (u as int / 256) + u as int % 256) by (nonlinear_arith)
                    requires
                        u >= 1,
                ;
                assert((u as int / 256) * (256 * p) + (u as int % 256) * p == u as int * p)
                    by (nonlinear_arith)
                    requires
                        u as int == 256 * (u as int / 256) + u as int % 256,
                ;
            }
            mag.push(b);
            u = u / 256;
        }
        BigNum { negative, mag }
    }

    /// Parses a decimal integer literal: an optional sign and decimal digits.
    pub fn parse_decimal(s: &Vec<u8>) -> (r: Option<BigNum>)
        ensures
            r is Some <==> valid_decimal(s@),
            r is Some ==> r->0@ == decimal_value(s@),
    {
        let mut start: usize = 0;
        let mut neg: bool = false;
        if s.len() > 0 && (s[0] == 43 || s[0] == 45) {
            start = 1;
            neg = s[0] == 45;
        }
        if start >= s.len() {
            return None;
        }
        let ghost digits: Seq<u8> = s@.subrange(start as int, s@.len() as int);
        let mut mag: Vec<u8> = Vec::new();
        let mut i: usize = start;
        while i < s.len()
            invariant
                start <= i <= s@.len(),
                start < s@.len(),
                start == 1 <==> s@.len() > 0 && (s@[0] == 43 || s@[0] == 45),
                neg <==> s@.len() > 0 && s@[0] == 45,
                digits == s@.subrange(start as int, s@.len() as int),
                all_digits(s@.subrange(start as int, i as int)),
                mag_value(mag@) == digits_value(s@.subrange(start as int, i as int)),
            decreases s.len() - i,
        {
            let c = s[i];
            if c < 48 || c > 57 {
                proof {
                    let j = i as int;
                    if start == 1 {
                        assert(s@.drop_first()[j - 1] == s@[j]);
                        assert(!(48 <= s@.drop_first()[j - 1] <= 57));
                        assert(!all_digits(s@.drop_first()));
                    } else {
                        assert(!(48 <= s@[j] <= 57));
                        assert(!all_digits(s@));
                    }
                    assert(!valid_decimal(s@));
                }
                return None;
            }
            let ghost pre = s@.subrange(start as int, i as int);
            mag = mag_mul10_add(&mag, c - 48);
            i = i + 1;
            proof {
                let cur = s@.subrange(start as int, i as int);
                assert(cur.drop_last() =~= pre);
            }
        }
        assert(s@.subrange(start as int, i as int) =~= digits);
        let negative: bool = neg && mag.len() > 0;
        proof {
            if mag@.len() == 0 {
                assert(mag_value(mag@) == 0);
            }
            if start == 1 {
                assert(digits =~= s@.drop_first());
            } else {
                assert(digits =~= s@);
            }
        }
        Some(BigNum { negative, mag })
    }

    /// The sign and the little-endian magnitude bytes: the value is the
    /// magnitude, negated when the sign is set.
    pub fn sign_and_magnitude_le(&self) -> (r: (bool, Vec<u8>))
        ensures
            self@ == if r.0 {
                -mag_value(r.1@)
            } else {
                mag_value(r.1@)
            },
    {
        let bytes = crate::string::copy_range(&self.mag, 0, self.mag.len());
        proof {
            assert(bytes@ =~= self.mag@);
        }
        (self.negative, bytes)
    }

    /// Decodes a little-endian two's-complement byte string: the unsigned
    /// magnitude, made negative by 256^len when the top bit of the last
    /// byte is set.
    pub fn from_twos_complement_le(buf: &Vec<u8>) -> (r: BigNum)
        requires
            buf@.len() > 0,
        ensures
            r@ == twos_value(buf@),
    {
        let n = buf.len();
        if buf[n - 1] < 128 {
            let mut mag: Vec<u8> = Vec::new();
            let mut i: usize = 0;
            while i < n
                invariant
                    i <= n,
                    n == buf@.len(),
                    mag@ =~= buf@.subrange(0, i as int),
                decreases n - i,
            {
                mag.push(buf[i]);
                i = i + 1;
            }
            assert(mag@ =~= buf@);
            trim_zeroes(&mut mag);
            BigNum { negative: false, mag }
        } else {
            // Negate: complement every byte and add one, so that the
            // magnitude comes to 256^len - magnitude(buf).
            let mut mag: Vec<u8> = Vec::new();
            let mut carry: u8 = 1;
            let mut i: usize = 0;
            proof {
                assert(pow256(0) == 1);
                assert(buf@.subrange(0, 0) =~= Seq::<u8>::empty());
            }
            while i < n
                invariant
                    i <= n,
                    n == buf@.len(),
                    mag@.len() == i,
                    carry <= 1,
                    mag_value(mag@) == pow256(i as nat) - mag_value(buf@.subrange(0, i as int))
                        - carry * pow256(i as nat),
                decreases n - i,
            {
                let b = buf[i];
                let t: u16 = (255 - b) as u16 + carry as u16;
                let low: u8 = (t % 256) as u8;
                let newcarry: u8 = (t / 256) as u8;
                proof {
                    let p = pow256(i as nat);
                    lemma_pow256_pos(i as nat);
                    lemma_mag_value_push(mag@, low);
                    assert(pow256((i + 1) as nat) == 256 * p);
                    assert(buf@.subrange(0, i + 1).drop_last() =~= buf@.subrange(0, i as int));
                    assert(buf@.subrange(0, i + 1).last() == buf@[i as int]);
                    lemma_mag_value_push(buf@.subrange(0, i as int), b);
                    assert(buf@.subrange(0, i + 1) =~= buf@.subrange(0, i as int).push(b));
                    assert(t as int == 256 * (t as int / 256) + t as int % 256)
                        by (nonlinear_arith);
                    assert((t as int / 256) * (256 * p) + (t as int % 256) * p == t as int * p)
                        by (nonlinear_arith)
                        requires
                            t as int == 256 * (t as int / 256) + t as int % 256,
                    ;
                    assert((255 - b as int + carry as int) * p == 255 * p - b as int * p
                        + carry as int * p) by (nonlinear_arith);
                }
                mag.push(low);
                carry = newcarry;
                i = i + 1;
            }
            proof {
                assert(buf@.subrange(0, n as int) =~= buf@);
                lemma_mag_value_msb_high(buf@);
                lemma_mag_value_bounds(mag@);
                lemma_pow256_pos((n - 1) as nat);
                if carry == 1 {
                    assert(mag_value(buf@) < pow256(n as nat)) by {
                        lemma_mag_value_bounds(buf@);
                    }
                    assert(mag_value(mag@) < 0);
                }
            }
            trim_zeroes(&mut mag);
            BigNum { negative: true, mag }
        }
    }
}

/// The magnitude 10 * mag + d, little endian.
fn mag_mul10_add(mag: &Vec<u8>, d: u8) -> (r: Vec<u8>)
    requires
        d < 10,
    ensures
        mag_value(r@) == 10 * mag_value(mag@) + d,
{
    let mut out: Vec<u8> = Vec::new();
    let mut carry: u16 = d as u16;
    let mut i: usize = 0;
    proof {
        assert(pow256(0) == 1);
        assert(mag@.subrange(0, 0) =~= Seq::<u8>::empty());
        assert(carry as int * 1 == carry as int) by (nonlinear_arith);
    }
    while i < mag.len()
        invariant
            i <= mag@.len(),
            out@.len() == i,
            carry <= 10,
            mag_value(out@) + carry * pow256(i as nat) == 10 * mag_value(
                mag@.subrange(0, i as int),
            ) + d,
        decreases mag.len() - i,
    {
        let b = mag[i];
        let t: u16 = b as u16 * 10 + carry;
        let low: u8 = (t % 256) as u8;
        let newcarry: u16 = t / 256;
        proof {
            let p = pow256(i as nat);
            lemma_pow256_pos(i as nat);
            lemma_mag_value_push(out@, low);
            assert(pow256((i + 1) as nat) == 256 * p);
            lemma_mag_value_push(mag@.subrange(0, i as int), b);
            assert(mag@.subrange(0, i + 1) =~= mag@.subrange(0, i as int).push(b));
            assert(t as int == 256 * (t as int / 256) + t as int % 256) by (nonlinear_arith);
            assert((t as int / 256) * (256 * p) + (t as int % 256) * p == t as int * p)
                by (nonlinear_arith)
                requires
                    t as int == 256 * (t as int / 256) + t as int % 256,
            ;
            assert((b as int * 10 + carry as int) * p == b as int * p * 10 + carry as int * p)
                by (nonlinear_arith);
            assert(10 * (mag_value(mag@.subrange(0, i as int)) + b as int * p) == 10 * mag_value(
                mag@.subrange(0, i as int),
            ) + b as int * p * 10) by (nonlinear_arith);
        }
        out.push(low);
        carry = newcarry;
        i = i + 1;
    }
    assert(mag@.subrange(0, i as int) =~= mag@);
    if carry > 0 {
        proof {
            lemma_mag_value_push(out@, (carry as u8));
        }
        out.push(carry as u8);
    }
    out
}

} // verus!
