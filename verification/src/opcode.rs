//! Reading one opcode, with its inline operands, out of a byte stream.
//!
//! The byte source is a buffer and a cursor.  The readers here take the
//! buffer and the cursor position, advance the cursor and hand back plain
//! values: fixed-width little- and big-endian integers, a line up to a
//! newline, an exact count of bytes, and the decimal integer operands.

use vstd::prelude::*;

use crate::bignum::BigNum;
use crate::bignum::all_digits;
use crate::bignum::decimal_value;
use crate::bignum::digits_value;
use crate::bignum::valid_decimal;
use crate::machine::BooleanOrInt;
use crate::machine::Error;
use crate::string::copy_range;
use crate::string::find_byte;
use crate::string::find_byte_from;
use crate::string::lemma_find_byte_in_range;

verus! {

/// One byte at pos, and the position after it.
pub open spec fn spec_read_u8(input: Seq<u8>, pos: int) -> Option<(u8, int)> {
    if 0 <= pos < input.len() {
        Some((input[pos], pos + 1))
    } else {
        None
    }
}

/// n bytes from pos on, and the position after them.
pub open spec fn spec_read_exact(input: Seq<u8>, pos: int, n: int) -> Option<(Seq<u8>, int)> {
    if 0 <= pos && 0 <= n && pos + n <= input.len() {
        Some((input.subrange(pos, pos + n), pos + n))
    } else {
        None
    }
}

/// The bytes from pos up to the next newline, exclusive, and the position
/// after that newline; nothing when no newline follows.
pub open spec fn spec_read_line(input: Seq<u8>, pos: int) -> Option<(Seq<u8>, int)> {
    match find_byte(input, pos, 0x0a) {
        Some(j) => Some((input.subrange(pos, j), j + 1)),
        None => None,
    }
}

/// Value of a 4-byte little-endian two's-complement integer.
pub open spec fn spec_i32_le(b: Seq<u8>) -> int
    recommends
        b.len() == 4,
{
    let u = b[0] + 256 * b[1] + 65536 * b[2] + 16777216 * b[3];
    if u >= 0x80000000 {
        u - 0x100000000
    } else {
        u
    }
}

/// Value of a 2-byte little-endian unsigned integer.
pub open spec fn spec_u16_le(b: Seq<u8>) -> int
    recommends
        b.len() == 2,
{
    b[0] + 256 * b[1]
}

/// Value of an 8-byte big-endian unsigned integer.
pub open spec fn spec_u64_be(b: Seq<u8>) -> int
    recommends
        b.len() == 8,
{
    b[0] * 0x100000000000000 + b[1] * 0x1000000000000 + b[2] * 0x10000000000 + b[3] * 0x100000000
        + b[4] * 0x1000000 + b[5] * 0x10000 + b[6] * 0x100 + b[7]
}

/// The i64 a decimal literal denotes, if it is well formed and in range.
pub open spec fn spec_parse_i64(s: Seq<u8>) -> Option<int> {
    if valid_decimal(s) && -0x8000000000000000 <= decimal_value(s) < 0x8000000000000000 {
        Some(decimal_value(s))
    } else {
        None
    }
}

/// Reads one byte.
pub fn read_u8(input: &Vec<u8>, pos: &mut usize) -> (r: Result<u8, Error>)
    ensures
        match spec_read_u8(input@, *old(pos) as int) {
            Some(v) => r == Ok::<u8, Error>(v.0) && *final(pos) == v.1,
            None => r == Err::<u8, Error>(Error::Read),
        },
{
    if *pos < input.len() {
        let b = input[*pos];
        *pos = *pos + 1;
        Ok(b)
    } else {
        Err(Error::Read)
    }
}

/// Reads exactly n bytes.
pub fn read_exact(input: &Vec<u8>, pos: &mut usize, n: usize) -> (r: Result<Vec<u8>, Error>)
    ensures
        match spec_read_exact(input@, *old(pos) as int, n as int) {
            Some(v) => r matches Ok(bytes) && bytes@ == v.0 && *final(pos) == v.1,
            None => r == Err::<Vec<u8>, Error>(Error::InvalidString),
        },
{
    if n <= input.len() && *pos <= input.len() - n {
        let out = copy_range(input, *pos, *pos + n);
        *pos = *pos + n;
        Ok(out)
    } else {
        Err(Error::InvalidString)
    }
}

/// Reads bytes up to and including the next newline; the newline is
/// dropped from the result.
pub fn read_until_newline(input: &Vec<u8>, pos: &mut usize) -> (r: Result<Vec<u8>, Error>)
    requires
        *old(pos) <= input@.len(),
    ensures
        match spec_read_line(input@, *old(pos) as int) {
            Some(v) => r matches Ok(bytes) && bytes@ == v.0 && *final(pos) == v.1 && *old(pos)
                < v.1 <= input@.len(),
            None => r == Err::<Vec<u8>, Error>(Error::InvalidString),
        },
{
    proof {
        lemma_find_byte_in_range(input@, *pos as int, 0x0a);
    }
    let end = input.len();
    match find_byte_from(input, *pos, 0x0a) {
        Some(j) => {
            assert(j < end);
            let out = copy_range(input, *pos, j);
            *pos = j + 1;
            Ok(out)
        },
        None => Err(Error::InvalidString),
    }
}

/// Reads a 4-byte little-endian signed integer; the value is returned
/// widened, so that it is exact.
pub fn read_i32_le(input: &Vec<u8>, pos: &mut usize) -> (r: Result<i64, Error>)
    ensures
        match spec_read_exact(input@, *old(pos) as int, 4) {
            Some(v) => r == Ok::<i64, Error>(spec_i32_le(v.0) as i64) && *final(pos) == v.1
                && -0x80000000 <= spec_i32_le(v.0) < 0x80000000,
            None => r == Err::<i64, Error>(Error::Read),
        },
{
    if input.len() >= 4 && *pos <= input.len() - 4 {
        let p = *pos;
        let b0 = input[p] as i64;
        let b1 = input[p + 1] as i64;
        let b2 = input[p + 2] as i64;
        let b3 = input[p + 3] as i64;
        let u: i64 = b0 + 256 * b1 + 65536 * b2 + 16777216 * b3;
        *pos = p + 4;
        proof {
            let bytes = input@.subrange(p as int, p as int + 4);
            assert(bytes[0] == input@[p as int]);
            assert(bytes[1] == input@[p as int + 1]);
            assert(bytes[2] == input@[p as int + 2]);
            assert(bytes[3] == input@[p as int + 3]);
        }
        if u >= 0x80000000 {
            Ok(u - 0x100000000)
        } else {
            Ok(u)
        }
    } else {
        Err(Error::Read)
    }
}

/// Reads a 2-byte little-endian unsigned integer.
pub fn read_u16_le(input: &Vec<u8>, pos: &mut usize) -> (r: Result<u16, Error>)
    ensures
        match spec_read_exact(input@, *old(pos) as int, 2) {
            Some(v) => r == Ok::<u16, Error>(spec_u16_le(v.0) as u16) && *final(pos) == v.1
                && 0 <= spec_u16_le(v.0) < 0x10000,
            None => r == Err::<u16, Error>(Error::Read),
        },
{
    if input.len() >= 2 && *pos <= input.len() - 2 {
        let p = *pos;
        let b0 = input[p] as u16;
        let b1 = input[p + 1] as u16;
        let u: u16 = b0 + 256 * b1;
        *pos = p + 2;
        proof {
            let bytes = input@.subrange(p as int, p as int + 2);
            assert(bytes[0] == input@[p as int]);
            assert(bytes[1] == input@[p as int + 1]);
        }
        Ok(u)
    } else {
        Err(Error::Read)
    }
}

/// Reads an 8-byte big-endian integer: the bit pattern of a binary64
/// floating-point operand.
pub fn read_f64_be_bits(input: &Vec<u8>, pos: &mut usize) -> (r: Result<u64, Error>)
    ensures
        match spec_read_exact(input@, *old(pos) as int, 8) {
            Some(v) => r == Ok::<u64, Error>(spec_u64_be(v.0) as u64) && *final(pos) == v.1
                && 0 <= spec_u64_be(v.0) < 0x10000000000000000,
            None => r == Err::<u64, Error>(Error::Read),
        },
{
    if input.len() >= 8 && *pos <= input.len() - 8 {
        let p = *pos;
        let b0 = input[p] as u64;
        let b1 = input[p + 1] as u64;
        let b2 = input[p + 2] as u64;
        let b3 = input[p + 3] as u64;
        let b4 = input[p + 4] as u64;
        let b5 = input[p + 5] as u64;
        let b6 = input[p + 6] as u64;
        let b7 = input[p + 7] as u64;
        let u: u64 = b0 * 0x100000000000000 + b1 * 0x1000000000000 + b2 * 0x10000000000 + b3
            * 0x100000000 + b4 * 0x1000000 + b5 * 0x10000 + b6 * 0x100 + b7;
        *pos = p + 8;
        proof {
            let bytes = input@.subrange(p as int, p as int + 8);
            assert(bytes[0] == input@[p as int]);
            assert(bytes[1] == input@[p as int + 1]);
            assert(bytes[2] == input@[p as int + 2]);
            assert(bytes[3] == input@[p as int + 3]);
            assert(bytes[4] == input@[p as int + 4]);
            assert(bytes[5] == input@[p as int + 5]);
            assert(bytes[6] == input@[p as int + 6]);
            assert(bytes[7] == input@[p as int + 7]);
        }
        Ok(u)
    } else {
        Err(Error::Read)
    }
}

/// Value of an ASCII decimal digit, or nothing.
pub fn dec_to_digit(c: u8) -> (r: Option<u8>)
    ensures
        r is Some <==> 48 <= c <= 57,
        r matches Some(v) ==> v == c - 48,
{
    if 48 <= c && c <= 57 {
        Some(c - 48)
    } else {
        None
    }
}

proof fn lemma_digits_value_nonneg(s: Seq<u8>)
    requires
        all_digits(s),
    ensures
        digits_value(s) >= 0,
    decreases s.len(),
{
    if s.len() > 0 {
        assert(all_digits(s.drop_last())) by {
            assert(forall|i: int| 0 <= i < s.len() - 1 ==> s.drop_last()[i] == #[trigger] s[i]);
        }
        lemma_digits_value_nonneg(s.drop_last());
    }
}

/// The value of a digit string only grows as digits are appended.
proof fn lemma_digits_value_prefix(s: Seq<u8>, i: int)
    requires
        all_digits(s),
        0 <= i <= s.len(),
    ensures
        digits_value(s.subrange(0, i)) <= digits_value(s),
    decreases s.len() - i,
{
    if i < s.len() {
        lemma_digits_value_prefix(s, i + 1);
        let shorter = s.subrange(0, i);
        let longer = s.subrange(0, i + 1);
        assert(longer.drop_last() =~= shorter);
        assert(all_digits(shorter)) by {
            assert(forall|j: int| 0 <= j < i ==> shorter[j] == #[trigger] s[j]);
        }
        lemma_digits_value_nonneg(shorter);
        assert(digits_value(longer) == 10 * digits_value(shorter) + (longer.last() - 48));
    } else {
        assert(s.subrange(0, i) =~= s);
    }
}

/// Parses a decimal integer literal into an i64: an optional sign, then
/// decimal digits; rejects anything else and values out of range.
pub fn from_bytes(src: &Vec<u8>) -> (r: Result<i64, Error>)
    ensures
        match spec_parse_i64(src@) {
            Some(v) => r == Ok::<i64, Error>(v as i64),
            None => r == Err::<i64, Error>(Error::InvalidInt),
        },
{
    let mut start: usize = 0;
    let mut neg: bool = false;
    if src.len() > 0 && (src[0] == 43 || src[0] == 45) {
        start = 1;
        neg = src[0] == 45;
    }
    if start >= src.len() {
        return Err(Error::InvalidInt);
    }
    let ghost digits: Seq<u8> = src@.subrange(start as int, src@.len() as int);
    let mut acc: i128 = 0;
    let mut i: usize = start;
    while i < src.len()
        invariant
            start <= i <= src@.len(),
            start < src@.len(),
            start == 0 || start == 1,
            start == 1 <==> src@.len() > 0 && (src@[0] == 43 || src@[0] == 45),
            neg <==> src@.len() > 0 && src@[0] == 45,
            digits == src@.subrange(start as int, src@.len() as int),
            all_digits(src@.subrange(start as int, i as int)),
            acc as int == digits_value(src@.subrange(start as int, i as int)),
            0 <= acc as int <= 0x8000000000000000,
        decreases src.len() - i,
    {
        let c = src[i];
        let digit = dec_to_digit(c);
        if digit.is_none() {
            proof {
                let j = i as int;
                if start == 1 {
                    assert(src@.drop_first()[j - 1] == src@[j]);
                    assert(!(48 <= src@.drop_first()[j - 1] <= 57));
                    assert(!all_digits(src@.drop_first()));
                } else {
                    assert(!(48 <= src@[j] <= 57));
                    assert(!all_digits(src@));
                }
                assert(!valid_decimal(src@));
            }
            return Err(Error::InvalidInt);
        }
        let d = digit.unwrap() as i128;
        let next: i128 = acc * 10 + d;
        let ghost pre = src@.subrange(start as int, i as int);
        proof {
            assert(src@.subrange(start as int, i + 1).drop_last() =~= pre);
        }
        if next > 0x8000000000000000 {
            // The remaining digits can only raise the magnitude further,
            // so the literal is out of range whatever follows.
            proof {
                let full = src@.subrange(start as int, i + 1);
                assert(all_digits(full)) by {
                    assert(forall|j: int| 0 <= j < full.len() ==> full[j] == #[trigger] src@[start + j]);
                }
                if start == 1 {
                    assert(digits =~= src@.drop_first());
                } else {
                    assert(digits =~= src@);
                }
                if valid_decimal(src@) {
                    assert(all_digits(digits));
                    assert(full =~= digits.subrange(0, i + 1 - start));
                    lemma_digits_value_prefix(digits, i + 1 - start);
                    assert(digits_value(digits) >= next as int);
                    assert(decimal_value(src@) == if neg {
                        -digits_value(digits)
                    } else {
                        digits_value(digits)
                    });
                }
            }
            return Err(Error::InvalidInt);
        }
        acc = next;
        i = i + 1;
    }
    assert(src@.subrange(start as int, i as int) =~= digits);
    proof {
        if start == 1 {
            assert(digits =~= src@.drop_first());
        } else {
            assert(digits =~= src@);
        }
    }
    if neg {
        Ok((-acc) as i64)
    } else {
        if acc == 0x8000000000000000 {
            return Err(Error::InvalidInt);
        }
        Ok(acc as i64)
    }
}

/// Reads a line and parses it as a decimal i64.
pub fn read_decimal_int(input: &Vec<u8>, pos: &mut usize) -> (r: Result<i64, Error>)
    requires
        *old(pos) <= input@.len(),
    ensures
        match spec_read_line(input@, *old(pos) as int) {
            Some(v) => match spec_parse_i64(v.0) {
                Some(n) => r == Ok::<i64, Error>(n as i64) && *final(pos) == v.1 && *old(pos)
                    < v.1 <= input@.len(),
                None => r == Err::<i64, Error>(Error::InvalidInt),
            },
            None => r == Err::<i64, Error>(Error::InvalidString),
        },
{
    let s = read_until_newline(input, pos)?;
    let v = from_bytes(&s)?;
    Ok(v)
}

/// The integer a long literal denotes: one optional trailing `L` is
/// dropped, and the rest must be a decimal integer literal.
pub open spec fn spec_parse_long(s: Seq<u8>) -> Option<int> {
    let t = if s.len() > 0 && s.last() == 76 {
        s.drop_last()
    } else {
        s
    };
    if valid_decimal(t) {
        Some(decimal_value(t))
    } else {
        None
    }
}

/// Reads a line and parses it as a decimal long: digits with an optional
/// trailing `L`.
pub fn read_decimal_long(input: &Vec<u8>, pos: &mut usize) -> (r: Result<BigNum, Error>)
    requires
        *old(pos) <= input@.len(),
    ensures
        match spec_read_line(input@, *old(pos) as int) {
            Some(v) => match spec_parse_long(v.0) {
                Some(n) => r matches Ok(big) && big@ == n && *final(pos) == v.1 && *old(pos)
                    < v.1 <= input@.len(),
                None => r == Err::<BigNum, Error>(Error::InvalidLong),
            },
            None => r == Err::<BigNum, Error>(Error::InvalidString),
        },
{
    let mut s = read_until_newline(input, pos)?;
    if s.len() > 0 && s[s.len() - 1] == 76 {
        proof {
            assert(s@.drop_last() =~= s@.subrange(0, s@.len() - 1));
        }
        s.truncate(s.len() - 1);
    }
    match BigNum::parse_decimal(&s) {
        Some(big) => Ok(big),
        None => Err(Error::InvalidLong),
    }
}

/// Reads length bytes and decodes them as a little-endian
/// two's-complement integer; an empty payload is an error.
pub fn read_long(input: &Vec<u8>, pos: &mut usize, length: usize) -> (r: Result<BigNum, Error>)
    ensures
        match spec_read_exact(input@, *old(pos) as int, length as int) {
            Some(v) => if length == 0 {
                r == Err::<BigNum, Error>(Error::InvalidLong)
            } else {
                r matches Ok(big) && big@ == crate::bignum::twos_value(v.0) && *final(pos) == v.1
            },
            None => r == Err::<BigNum, Error>(Error::InvalidString),
        },
{
    let buf = read_exact(input, pos, length)?;
    if buf.len() == 0 {
        return Err(Error::InvalidLong);
    }
    Ok(BigNum::from_twos_complement_le(&buf))
}

/// The lower-case form of an ASCII letter; other bytes stand unchanged.
pub open spec fn ascii_lower(b: u8) -> u8 {
    if 65 <= b <= 90 {
        (b + 32) as u8
    } else {
        b
    }
}

/// The infinity and not-a-number floating-point literals, in any case.
pub open spec fn is_special_float(t: Seq<u8>) -> bool {
    (t.len() == 3 && ascii_lower(t[0]) == 105 && ascii_lower(t[1]) == 110 && ascii_lower(t[2])
        == 102) || (t.len() == 8 && ascii_lower(t[0]) == 105 && ascii_lower(t[1]) == 110
        && ascii_lower(t[2]) == 102 && ascii_lower(t[3]) == 105 && ascii_lower(t[4]) == 110
        && ascii_lower(t[5]) == 105 && ascii_lower(t[6]) == 116 && ascii_lower(t[7]) == 121) || (
    t.len() == 3 && ascii_lower(t[0]) == 110 && ascii_lower(t[1]) == 97 && ascii_lower(t[2])
        == 110)
}

/// The position of the first exponent marker, `e` or `E`, at or after from.
pub open spec fn find_exp_marker(s: Seq<u8>, from: int) -> Option<int>
    decreases s.len() - from,
{
    if from < 0 || from >= s.len() {
        None
    } else if s[from] == 101 || s[from] == 69 {
        Some(from)
    } else {
        find_exp_marker(s, from + 1)
    }
}

/// A mantissa: digits with at most one point, and at least one digit.
pub open spec fn is_mantissa(m: Seq<u8>) -> bool {
    match find_byte(m, 0, 46) {
        None => m.len() > 0 && all_digits(m),
        Some(d) => {
            let ip = m.subrange(0, d);
            let fp = m.subrange(d + 1, m.len() as int);
            all_digits(ip) && all_digits(fp) && (ip.len() > 0 || fp.len() > 0)
        },
    }
}

/// A floating-point literal: an optional sign, then an infinity or
/// not-a-number word, or a mantissa with an optional exponent part.
pub open spec fn is_float_literal(s: Seq<u8>) -> bool {
    let t = if s.len() > 0 && (s[0] == 43 || s[0] == 45) {
        s.drop_first()
    } else {
        s
    };
    is_special_float(t) || match find_exp_marker(t, 0) {
        None => is_mantissa(t),
        Some(e) => is_mantissa(t.subrange(0, e)) && valid_decimal(
            t.subrange(e + 1, t.len() as int),
        ),
    }
}

/// The lower-case form of an ASCII letter.
fn lower_byte(b: u8) -> (r: u8)
    ensures
        r == ascii_lower(b),
{
    if 65 <= b && b <= 90 {
        b + 32
    } else {
        b
    }
}

/// Whether every byte of t[from..to] is a decimal digit.
fn all_digits_range(t: &Vec<u8>, from: usize, to: usize) -> (r: bool)
    requires
        from <= to <= t@.len(),
    ensures
        r == all_digits(t@.subrange(from as int, to as int)),
{
    let ghost m = t@.subrange(from as int, to as int);
    let mut j: usize = from;
    while j < to
        invariant
            from <= j <= to <= t@.len(),
            m == t@.subrange(from as int, to as int),
            all_digits(m.subrange(0, j - from)),
        decreases to - j,
    {
        let c = t[j];
        proof {
            assert(m[j - from] == t@[j as int]);
        }
        if c < 48 || c > 57 {
            proof {
                assert(!(48 <= m[j - from] <= 57));
                assert(!all_digits(m));
            }
            return false;
        }
        proof {
            assert(m.subrange(0, j + 1 - from) =~= m.subrange(0, j - from).push(m[j - from]));
            assert(forall|x: int| 0 <= x < j + 1 - from ==> 48 <= #[trigger] m.subrange(
                0,
                j + 1 - from,
            )[x] <= 57);
        }
        j = j + 1;
    }
    proof {
        assert(m.subrange(0, to - from) =~= m);
    }
    true
}

/// Whether the whole of v is a decimal integer literal.
fn is_decimal(v: &Vec<u8>) -> (r: bool)
    ensures
        r == valid_decimal(v@),
{
    if v.len() > 0 && (v[0] == 43 || v[0] == 45) {
        proof {
            assert(v@.drop_first() =~= v@.subrange(1, v@.len() as int));
        }
        if v.len() > 1 {
            all_digits_range(v, 1, v.len())
        } else {
            false
        }
    } else {
        proof {
            assert(v@.subrange(0, v@.len() as int) =~= v@);
        }
        if v.len() > 0 {
            all_digits_range(v, 0, v.len())
        } else {
            false
        }
    }
}

/// The first exponent marker in t, by a linear scan.
fn find_exp_from(t: &Vec<u8>) -> (r: Option<usize>)
    ensures
        match find_exp_marker(t@, 0) {
            Some(j) => r matches Some(u) && u as int == j,
            None => r is None,
        },
{
    let mut i: usize = 0;
    while i < t.len()
        invariant
            i <= t@.len(),
            find_exp_marker(t@, 0) == find_exp_marker(t@, i as int),
        decreases t.len() - i,
    {
        if t[i] == 101 || t[i] == 69 {
            return Some(i);
        }
        i = i + 1;
    }
    None
}

proof fn lemma_find_exp_in_range(s: Seq<u8>, from: int)
    ensures
        match find_exp_marker(s, from) {
            Some(j) => from <= j < s.len(),
            None => true,
        },
    decreases s.len() - from,
{
    if 0 <= from < s.len() && !(s[from] == 101 || s[from] == 69) {
        lemma_find_exp_in_range(s, from + 1);
    }
}

/// One opcode together with its inline operands, already decoded.
#[derive(Debug)]
pub enum OpCode {
    Proto(u8),
    Stop,
    Int(BooleanOrInt),
    BinInt(i32),
    BinInt1(u8),
    BinInt2(u16),
    Long(BigNum),
    Long1(BigNum),
    Long4(BigNum),
    String(Vec<u8>),
    BinString(Vec<u8>),
    ShortBinString(Vec<u8>),
    /// The singleton none value.
    NoneValue,
    NewTrue,
    NewFalse,
    Unicode(std::string::String),
    BinUnicode(std::string::String),
    /// A validated decimal floating-point literal, kept as text.
    Float(Vec<u8>),
    /// The bits of a big-endian binary64 operand.
    BinFloat(u64),
    EmptyList,
    Append,
    Appends,
    List,
    EmptyTuple,
    Tuple,
    Tuple1,
    Tuple2,
    Tuple3,
    EmptyDict,
    Dict,
    SetItem,
    SetItems,
    Pop,
    Dup,
    Mark,
    PopMark,
    Get(u64),
    BinGet(u64),
    LongBinGet(u64),
    Put(u64),
    BinPut(u64),
    LongBinPut(u64),
    Ext1(u8),
    Ext2(u16),
    Ext4(i32),
    Global(Vec<u8>, Vec<u8>),
    Reduce,
    Build,
    Inst(Vec<u8>, Vec<u8>),
    Obj,
    NewObj,
    PersId(Vec<u8>),
    BinPersId,
}

/// Mathematical model of an [`OpCode`]: long payloads are unbounded
/// integers, byte payloads are byte sequences.
pub enum OpCodeView {
    Proto(u8),
    Stop,
    Int(BooleanOrInt),
    BinInt(i32),
    BinInt1(u8),
    BinInt2(u16),
    Long(int),
    Long1(int),
    Long4(int),
    String(Seq<u8>),
    BinString(Seq<u8>),
    ShortBinString(Seq<u8>),
    NoneValue,
    NewTrue,
    NewFalse,
    Unicode(Seq<char>),
    BinUnicode(Seq<char>),
    Float(Seq<u8>),
    BinFloat(u64),
    EmptyList,
    Append,
    Appends,
    List,
    EmptyTuple,
    Tuple,
    Tuple1,
    Tuple2,
    Tuple3,
    EmptyDict,
    Dict,
    SetItem,
    SetItems,
    Pop,
    Dup,
    Mark,
    PopMark,
    Get(u64),
    BinGet(u64),
    LongBinGet(u64),
    Put(u64),
    BinPut(u64),
    LongBinPut(u64),
    Ext1(u8),
    Ext2(u16),
    Ext4(i32),
    Global(Seq<u8>, Seq<u8>),
    Reduce,
    Build,
    Inst(Seq<u8>, Seq<u8>),
    Obj,
    NewObj,
    PersId(Seq<u8>),
    BinPersId,
}

impl View for OpCode {
    type V = OpCodeView;

    open spec fn view(&self) -> OpCodeView {
        match self {
            OpCode::Proto(v) => OpCodeView::Proto(*v),
            OpCode::Stop => OpCodeView::Stop,
            OpCode::Int(v) => OpCodeView::Int(*v),
            OpCode::BinInt(v) => OpCodeView::BinInt(*v),
            OpCode::BinInt1(v) => OpCodeView::BinInt1(*v),
            OpCode::BinInt2(v) => OpCodeView::BinInt2(*v),
            OpCode::Long(n) => OpCodeView::Long(n@),
            OpCode::Long1(n) => OpCodeView::Long1(n@),
            OpCode::Long4(n) => OpCodeView::Long4(n@),
            OpCode::String(b) => OpCodeView::String(b@),
            OpCode::BinString(b) => OpCodeView::BinString(b@),
            OpCode::ShortBinString(b) => OpCodeView::ShortBinString(b@),
            OpCode::NoneValue => OpCodeView::NoneValue,
            OpCode::NewTrue => OpCodeView::NewTrue,
            OpCode::NewFalse => OpCodeView::NewFalse,
            OpCode::Unicode(t) => OpCodeView::Unicode(t@),
            OpCode::BinUnicode(t) => OpCodeView::BinUnicode(t@),
            OpCode::Float(b) => OpCodeView::Float(b@),
            OpCode::BinFloat(bits) => OpCodeView::BinFloat(*bits),
            OpCode::EmptyList => OpCodeView::EmptyList,
            OpCode::Append => OpCodeView::Append,
            OpCode::Appends => OpCodeView::Appends,
            OpCode::List => OpCodeView::List,
            OpCode::EmptyTuple => OpCodeView::EmptyTuple,
            OpCode::Tuple => OpCodeView::Tuple,
            OpCode::Tuple1 => OpCodeView::Tuple1,
            OpCode::Tuple2 => OpCodeView::Tuple2,
            OpCode::Tuple3 => OpCodeView::Tuple3,
            OpCode::EmptyDict => OpCodeView::EmptyDict,
            OpCode::Dict => OpCodeView::Dict,
            OpCode::SetItem => OpCodeView::SetItem,
            OpCode::SetItems => OpCodeView::SetItems,
            OpCode::Pop => OpCodeView::Pop,
            OpCode::Dup => OpCodeView::Dup,
            OpCode::Mark => OpCodeView::Mark,
            OpCode::PopMark => OpCodeView::PopMark,
            OpCode::Get(n) => OpCodeView::Get(*n),
            OpCode::BinGet(n) => OpCodeView::BinGet(*n),
            OpCode::LongBinGet(n) => OpCodeView::LongBinGet(*n),
            OpCode::Put(n) => OpCodeView::Put(*n),
            OpCode::BinPut(n) => OpCodeView::BinPut(*n),
            OpCode::LongBinPut(n) => OpCodeView::LongBinPut(*n),
            OpCode::Ext1(v) => OpCodeView::Ext1(*v),
            OpCode::Ext2(v) => OpCodeView::Ext2(*v),
            OpCode::Ext4(v) => OpCodeView::Ext4(*v),
            OpCode::Global(a, b) => OpCodeView::Global(a@, b@),
            OpCode::Reduce => OpCodeView::Reduce,
            OpCode::Build => OpCodeView::Build,
            OpCode::Inst(a, b) => OpCodeView::Inst(a@, b@),
            OpCode::Obj => OpCodeView::Obj,
            OpCode::NewObj => OpCodeView::NewObj,
            OpCode::PersId(b) => OpCodeView::PersId(b@),
            OpCode::BinPersId => OpCodeView::BinPersId,
        }
    }
}

/// What reading one opcode yields: the opcode and the position after its
/// operands, or the error that stops the decode.
pub enum OpRead {
    Op(OpCodeView, int),
    Fail(Error),
}

/// Whether a byte is one of the opcodes of the wire format, supported or
/// not.
pub open spec fn is_recognized(op: u8) -> bool {
    ||| op == 0x80
    ||| op == 0x2e
    ||| op == 0x49
    ||| op == 0x4a
    ||| op == 0x4b
    ||| op == 0x4d
    ||| op == 0x4c
    ||| op == 0x8a
    ||| op == 0x8b
    ||| op == 0x53
    ||| op == 0x54
    ||| op == 0x55
    ||| op == 0x4e
    ||| op == 0x88
    ||| op == 0x89
    ||| op == 0x56
    ||| op == 0x58
    ||| op == 0x46
    ||| op == 0x47
    ||| op == 0x5d
    ||| op == 0x61
    ||| op == 0x65
    ||| op == 0x6c
    ||| op == 0x29
    ||| op == 0x74
    ||| op == 0x85
    ||| op == 0x86
    ||| op == 0x87
    ||| op == 0x7d
    ||| op == 0x64
    ||| op == 0x73
    ||| op == 0x75
    ||| op == 0x30
    ||| op == 0x32
    ||| op == 0x28
    ||| op == 0x31
    ||| op == 0x67
    ||| op == 0x68
    ||| op == 0x6a
    ||| op == 0x70
    ||| op == 0x71
    ||| op == 0x72
    ||| op == 0x82
    ||| op == 0x83
    ||| op == 0x84
    ||| op == 0x63
    ||| op == 0x52
    ||| op == 0x62
    ||| op == 0x69
    ||| op == 0x6f
    ||| op == 0x81
    ||| op == 0x50
    ||| op == 0x51
}

/// The opcode, with operands, that starts at pos, and the position after
/// it; or the error.  This is the full operand grammar of the format.
pub open spec fn spec_read_opcode(input: Seq<u8>, pos: int) -> OpRead {
    match spec_read_u8(input, pos) {
        None => OpRead::Fail(Error::Read),
        Some((op, p)) => spec_dispatch(input, p, op),
    }
}

/// The operand grammar of each opcode, after the opcode byte itself.
pub open spec fn spec_dispatch(input: Seq<u8>, p: int, op: u8) -> OpRead {
    if op == 0x80 {  // PROTO
        match spec_read_u8(input, p) {
            None => OpRead::Fail(Error::Read),
            Some((ver, p2)) => if ver < 2 {
                OpRead::Fail(Error::InvalidProto(ver))
            } else {
                OpRead::Op(OpCodeView::Proto(ver), p2)
            },
        }
    } else if op == 0x2e {  // STOP
        OpRead::Op(OpCodeView::Stop, p)
    } else if op == 0x49 {  // INT
        match spec_read_line(input, p) {
            None => OpRead::Fail(Error::InvalidString),
            Some((s, p2)) => match crate::machine::spec_int_or_bool(s) {
                None => OpRead::Fail(Error::InvalidInt),
                Some(v) => OpRead::Op(OpCodeView::Int(v), p2),
            },
        }
    } else if op == 0x4a {  // BININT
        match spec_read_exact(input, p, 4) {
            None => OpRead::Fail(Error::Read),
            Some((b, p2)) => OpRead::Op(OpCodeView::BinInt(spec_i32_le(b) as i32), p2),
        }
    } else if op == 0x4b {  // BININT1
        match spec_read_u8(input, p) {
            None => OpRead::Fail(Error::Read),
            Some((b, p2)) => OpRead::Op(OpCodeView::BinInt1(b), p2),
        }
    } else if op == 0x4d {  // BININT2
        match spec_read_exact(input, p, 2) {
            None => OpRead::Fail(Error::Read),
            Some((b, p2)) => OpRead::Op(OpCodeView::BinInt2(spec_u16_le(b) as u16), p2),
        }
    } else if op == 0x4c {  // LONG
        match spec_read_line(input, p) {
            None => OpRead::Fail(Error::InvalidString),
            Some((s, p2)) => match spec_parse_long(s) {
                None => OpRead::Fail(Error::InvalidLong),
                Some(n) => OpRead::Op(OpCodeView::Long(n), p2),
            },
        }
    } else if op == 0x8a {  // LONG1
        match spec_read_u8(input, p) {
            None => OpRead::Fail(Error::Read),
            Some((len, p2)) => match spec_read_exact(input, p2, len as int) {
                None => OpRead::Fail(Error::InvalidString),
                Some((b, p3)) => if len == 0 {
                    OpRead::Fail(Error::InvalidLong)
                } else {
                    OpRead::Op(OpCodeView::Long1(crate::bignum::twos_value(b)), p3)
                },
            },
        }
    } else if op == 0x8b {  // LONG4
        match spec_read_exact(input, p, 4) {
            None => OpRead::Fail(Error::Read),
            Some((lb, p2)) => if spec_i32_le(lb) < 0 {
                OpRead::Fail(Error::NegativeLength)
            } else {
                match spec_read_exact(input, p2, spec_i32_le(lb)) {
                    None => OpRead::Fail(Error::InvalidString),
                    Some((b, p3)) => if spec_i32_le(lb) == 0 {
                        OpRead::Fail(Error::InvalidLong)
                    } else {
                        OpRead::Op(OpCodeView::Long4(crate::bignum::twos_value(b)), p3)
                    },
                }
            },
        }
    } else if op == 0x53 {  // STRING
        match spec_read_line(input, p) {
            None => OpRead::Fail(Error::InvalidString),
            Some((s, p2)) => if s.len() < 2 {
                OpRead::Fail(Error::InvalidString)
            } else {
                match crate::string::spec_unescape(s.subrange(1, s.len() - 1), false) {
                    Ok(b) => OpRead::Op(OpCodeView::String(b), p2),
                    Err(e) => OpRead::Fail(Error::UnescapeError(e)),
                }
            },
        }
    } else if op == 0x54 {  // BINSTRING
        match spec_read_exact(input, p, 4) {
            None => OpRead::Fail(Error::Read),
            Some((lb, p2)) => if spec_i32_le(lb) < 0 {
                OpRead::Fail(Error::NegativeLength)
            } else {
                match spec_read_exact(input, p2, spec_i32_le(lb)) {
                    None => OpRead::Fail(Error::InvalidString),
                    Some((b, p3)) => OpRead::Op(OpCodeView::BinString(b), p3),
                }
            },
        }
    } else if op == 0x55 {  // SHORT_BINSTRING
        match spec_read_u8(input, p) {
            None => OpRead::Fail(Error::Read),
            Some((len, p2)) => match spec_read_exact(input, p2, len as int) {
                None => OpRead::Fail(Error::InvalidString),
                Some((b, p3)) => OpRead::Op(OpCodeView::ShortBinString(b), p3),
            },
        }
    } else if op == 0x4e {  // NONE
        OpRead::Op(OpCodeView::NoneValue, p)
    } else if op == 0x88 {  // NEWTRUE
        OpRead::Op(OpCodeView::NewTrue, p)
    } else if op == 0x89 {  // NEWFALSE
        OpRead::Op(OpCodeView::NewFalse, p)
    } else if op == 0x56 {  // UNICODE
        match spec_read_line(input, p) {
            None => OpRead::Fail(Error::InvalidString),
            Some((s, p2)) => match crate::string::spec_unescape(s, true) {
                Err(e) => OpRead::Fail(Error::UnescapeError(e)),
                Ok(b) => if vstd::utf8::valid_utf8(b) {
                    OpRead::Op(OpCodeView::Unicode(vstd::utf8::decode_utf8(b)), p2)
                } else {
                    OpRead::Fail(Error::InvalidString)
                },
            },
        }
    } else if op == 0x58 {  // BINUNICODE
        match spec_read_exact(input, p, 4) {
            None => OpRead::Fail(Error::Read),
            Some((lb, p2)) => if spec_i32_le(lb) < 0 {
                OpRead::Fail(Error::NegativeLength)
            } else {
                match spec_read_exact(input, p2, spec_i32_le(lb)) {
                    None => OpRead::Fail(Error::InvalidString),
                    Some((b, p3)) => if vstd::utf8::valid_utf8(b) {
                        OpRead::Op(OpCodeView::BinUnicode(vstd::utf8::decode_utf8(b)), p3)
                    } else {
                        OpRead::Fail(Error::InvalidString)
                    },
                }
            },
        }
    } else if op == 0x46 {  // FLOAT
        match spec_read_line(input, p) {
            None => OpRead::Fail(Error::InvalidString),
            Some((s, p2)) => if is_float_literal(s) {
                OpRead::Op(OpCodeView::Float(s), p2)
            } else {
                OpRead::Fail(Error::InvalidFloat)
            },
        }
    } else if op == 0x47 {  // BINFLOAT
        match spec_read_exact(input, p, 8) {
            None => OpRead::Fail(Error::Read),
            Some((b, p2)) => OpRead::Op(OpCodeView::BinFloat(spec_u64_be(b) as u64), p2),
        }
    } else if op == 0x5d {
        OpRead::Op(OpCodeView::EmptyList, p)
    } else if op == 0x61 {
        OpRead::Op(OpCodeView::Append, p)
    } else if op == 0x65 {
        OpRead::Op(OpCodeView::Appends, p)
    } else if op == 0x6c {
        OpRead::Op(OpCodeView::List, p)
    } else if op == 0x29 {
        OpRead::Op(OpCodeView::EmptyTuple, p)
    } else if op == 0x74 {
        OpRead::Op(OpCodeView::Tuple, p)
    } else if op == 0x85 {
        OpRead::Op(OpCodeView::Tuple1, p)
    } else if op == 0x86 {
        OpRead::Op(OpCodeView::Tuple2, p)
    } else if op == 0x87 {
        OpRead::Op(OpCodeView::Tuple3, p)
    } else if op == 0x7d {
        OpRead::Op(OpCodeView::EmptyDict, p)
    } else if op == 0x64 {
        OpRead::Op(OpCodeView::Dict, p)
    } else if op == 0x73 {
        OpRead::Op(OpCodeView::SetItem, p)
    } else if op == 0x75 {
        OpRead::Op(OpCodeView::SetItems, p)
    } else if op == 0x30 {
        OpRead::Op(OpCodeView::Pop, p)
    } else if op == 0x32 {
        OpRead::Op(OpCodeView::Dup, p)
    } else if op == 0x28 {
        OpRead::Op(OpCodeView::Mark, p)
    } else if op == 0x31 {
        OpRead::Op(OpCodeView::PopMark, p)
    } else if op == 0x67 {  // GET
        match spec_read_line(input, p) {
            None => OpRead::Fail(Error::InvalidString),
            Some((s, p2)) => match spec_parse_i64(s) {
                None => OpRead::Fail(Error::InvalidInt),
                Some(n) => if n < 0 {
                    OpRead::Fail(Error::NegativeLength)
                } else {
                    OpRead::Op(OpCodeView::Get(n as u64), p2)
                },
            },
        }
    } else if op == 0x68 {  // BINGET
        match spec_read_u8(input, p) {
            None => OpRead::Fail(Error::Read),
            Some((b, p2)) => OpRead::Op(OpCodeView::BinGet(b as u64), p2),
        }
    } else if op == 0x6a {  // LONG_BINGET
        match spec_read_exact(input, p, 4) {
            None => OpRead::Fail(Error::Read),
            Some((lb, p2)) => if spec_i32_le(lb) < 0 {
                OpRead::Fail(Error::NegativeLength)
            } else {
                OpRead::Op(OpCodeView::LongBinGet(spec_i32_le(lb) as u64), p2)
            },
        }
    } else if op == 0x70 {  // PUT
        match spec_read_line(input, p) {
            None => OpRead::Fail(Error::InvalidString),
            Some((s, p2)) => match spec_parse_i64(s) {
                None => OpRead::Fail(Error::InvalidInt),
                Some(n) => if n < 0 {
                    OpRead::Fail(Error::NegativeLength)
                } else {
                    OpRead::Op(OpCodeView::Put(n as u64), p2)
                },
            },
        }
    } else if op == 0x71 {  // BINPUT
        match spec_read_u8(input, p) {
            None => OpRead::Fail(Error::Read),
            Some((b, p2)) => OpRead::Op(OpCodeView::BinPut(b as u64), p2),
        }
    } else if op == 0x72 {  // LONG_BINPUT
        match spec_read_exact(input, p, 4) {
            None => OpRead::Fail(Error::Read),
            Some((lb, p2)) => if spec_i32_le(lb) < 0 {
                OpRead::Fail(Error::NegativeLength)
            } else {
                OpRead::Op(OpCodeView::LongBinPut(spec_i32_le(lb) as u64), p2)
            },
        }
    } else if op == 0x82 {  // EXT1
        match spec_read_u8(input, p) {
            None => OpRead::Fail(Error::Read),
            Some((b, p2)) => OpRead::Op(OpCodeView::Ext1(b), p2),
        }
    } else if op == 0x83 {  // EXT2
        match spec_read_exact(input, p, 2) {
            None => OpRead::Fail(Error::Read),
            Some((b, p2)) => OpRead::Op(OpCodeView::Ext2(spec_u16_le(b) as u16), p2),
        }
    } else if op == 0x84 {  // EXT4
        match spec_read_exact(input, p, 4) {
            None => OpRead::Fail(Error::Read),
            Some((b, p2)) => OpRead::Op(OpCodeView::Ext4(spec_i32_le(b) as i32), p2),
        }
    } else if op == 0x63 {  // GLOBAL
        match spec_read_line(input, p) {
            None => OpRead::Fail(Error::InvalidString),
            Some((a, p2)) => match spec_read_line(input, p2) {
                None => OpRead::Fail(Error::InvalidString),
                Some((b, p3)) => OpRead::Op(OpCodeView::Global(a, b), p3),
            },
        }
    } else if op == 0x52 {
        OpRead::Op(OpCodeView::Reduce, p)
    } else if op == 0x62 {
        OpRead::Op(OpCodeView::Build, p)
    } else if op == 0x69 {  // INST
        match spec_read_line(input, p) {
            None => OpRead::Fail(Error::InvalidString),
            Some((a, p2)) => match spec_read_line(input, p2) {
                None => OpRead::Fail(Error::InvalidString),
                Some((b, p3)) => OpRead::Op(OpCodeView::Inst(a, b), p3),
            },
        }
    } else if op == 0x6f {
        OpRead::Op(OpCodeView::Obj, p)
    } else if op == 0x81 {
        OpRead::Op(OpCodeView::NewObj, p)
    } else if op == 0x50 {  // PERSID
        match spec_read_line(input, p) {
            None => OpRead::Fail(Error::InvalidString),
            Some((a, p2)) => OpRead::Op(OpCodeView::PersId(a), p2),
        }
    } else if op == 0x51 {
        OpRead::Op(OpCodeView::BinPersId, p)
    } else {
        OpRead::Fail(Error::UnknownOpcode(op))
    }
}

/// Whether s is a floating-point literal.
fn is_float_text(s: &Vec<u8>) -> (r: bool)
    ensures
        r == is_float_literal(s@),
{
    let mut start: usize = 0;
    if s.len() > 0 && (s[0] == 43 || s[0] == 45) {
        start = 1;
    }
    let t = copy_range(s, start, s.len());
    proof {
        if start == 1 {
            assert(t@ =~= s@.drop_first());
        } else {
            assert(t@ =~= s@);
        }
    }
    let special: bool = if t.len() == 3 {
        (lower_byte(t[0]) == 105 && lower_byte(t[1]) == 110 && lower_byte(t[2]) == 102) || (
        lower_byte(t[0]) == 110 && lower_byte(t[1]) == 97 && lower_byte(t[2]) == 110)
    } else if t.len() == 8 {
        lower_byte(t[0]) == 105 && lower_byte(t[1]) == 110 && lower_byte(t[2]) == 102
            && lower_byte(t[3]) == 105 && lower_byte(t[4]) == 110 && lower_byte(t[5]) == 105
            && lower_byte(t[6]) == 116 && lower_byte(t[7]) == 121
    } else {
        false
    };
    if special {
        return true;
    }
    proof {
        lemma_find_exp_in_range(t@, 0);
    }
    let exp = find_exp_from(&t);
    let mhi: usize = if exp.is_some() {
        *exp.as_ref().unwrap()
    } else {
        t.len()
    };
    let mant = copy_range(&t, 0, mhi);
    proof {
        if exp is None {
            assert(mant@ =~= t@);
        }
    }
    let mok: bool = match find_byte_from(&mant, 0, 46) {
        None => mant.len() > 0 && all_digits_range(&mant, 0, mant.len()),
        Some(d) => {
            proof {
                lemma_find_byte_in_range(mant@, 0, 46);
            }
            let ip_ok = all_digits_range(&mant, 0, d);
            let fp_ok = all_digits_range(&mant, d + 1, mant.len());
            ip_ok && fp_ok && (d > 0 || d + 1 < mant.len())
        },
    };
    proof {
        assert(mant@ =~= mant@.subrange(0, mant@.len() as int));
    }
    if !mok {
        return false;
    }
    match exp {
        None => true,
        Some(e) => {
            let ex = copy_range(&t, e + 1, t.len());
            is_decimal(&ex)
        },
    }
}

/// Reads one opcode together with its operands, advancing the cursor.
#[verifier::rlimit(100)]
#[verifier::spinoff_prover]
pub fn read_opcode(input: &Vec<u8>, pos: &mut usize) -> (r: Result<OpCode, Error>)
    requires
        *old(pos) <= input@.len(),
    ensures
        match spec_read_opcode(input@, *old(pos) as int) {
            OpRead::Op(op, p) => r matches Ok(o) && o@ == op && *final(pos) == p && *old(pos)
                < p <= input@.len(),
            OpRead::Fail(e) => r == Err::<OpCode, Error>(e),
        },
{
    let op = read_u8(input, pos)?;
    if op == 0x80 {
        let ver = read_u8(input, pos)?;
        if ver < 2 {
            return Err(Error::InvalidProto(ver));
        }
        Ok(OpCode::Proto(ver))
    } else if op == 0x2e {
        Ok(OpCode::Stop)
    } else if op == 0x49 {
        let v = crate::machine::read_decimal_int_or_bool(input, pos)?;
        Ok(OpCode::Int(v))
    } else if op == 0x4a {
        let v = read_i32_le(input, pos)?;
        Ok(OpCode::BinInt(v as i32))
    } else if op == 0x4b {
        let b = read_u8(input, pos)?;
        Ok(OpCode::BinInt1(b))
    } else if op == 0x4d {
        let v = read_u16_le(input, pos)?;
        Ok(OpCode::BinInt2(v))
    } else if op == 0x4c {
        let n = read_decimal_long(input, pos)?;
        Ok(OpCode::Long(n))
    } else if op == 0x8a {
        let len = read_u8(input, pos)?;
        let n = read_long(input, pos, len as usize)?;
        Ok(OpCode::Long1(n))
    } else if op == 0x8b {
        let len = read_i32_le(input, pos)?;
        if len < 0 {
            return Err(Error::NegativeLength);
        }
        let n = read_long(input, pos, len as usize)?;
        Ok(OpCode::Long4(n))
    } else if op == 0x53 {
        let b = crate::machine::read_bracketed_string(input, pos)?;
        Ok(OpCode::String(b))
    } else if op == 0x54 {
        let len = read_i32_le(input, pos)?;
        if len < 0 {
            return Err(Error::NegativeLength);
        }
        let b = read_exact(input, pos, len as usize)?;
        Ok(OpCode::BinString(b))
    } else if op == 0x55 {
        let len = read_u8(input, pos)?;
        let b = read_exact(input, pos, len as usize)?;
        Ok(OpCode::ShortBinString(b))
    } else if op == 0x4e {
        Ok(OpCode::NoneValue)
    } else if op == 0x88 {
        Ok(OpCode::NewTrue)
    } else if op == 0x89 {
        Ok(OpCode::NewFalse)
    } else if op == 0x56 {
        let s = read_until_newline(input, pos)?;
        let decoded = match crate::string::unescape(&s, true) {
            Ok(b) => b,
            Err(e) => {
                return Err(Error::UnescapeError(e));
            },
        };
        match crate::string::bytes_to_string(decoded) {
            Some(text) => Ok(OpCode::Unicode(text)),
            None => Err(Error::InvalidString),
        }
    } else if op == 0x58 {
        let len = read_i32_le(input, pos)?;
        if len < 0 {
            return Err(Error::NegativeLength);
        }
        let b = read_exact(input, pos, len as usize)?;
        match crate::string::bytes_to_string(b) {
            Some(text) => Ok(OpCode::BinUnicode(text)),
            None => Err(Error::InvalidString),
        }
    } else if op == 0x46 {
        let s = read_until_newline(input, pos)?;
        if is_float_text(&s) {
            Ok(OpCode::Float(s))
        } else {
            Err(Error::InvalidFloat)
        }
    } else if op == 0x47 {
        let bits = read_f64_be_bits(input, pos)?;
        Ok(OpCode::BinFloat(bits))
    } else if op == 0x5d {
        Ok(OpCode::EmptyList)
    } else if op == 0x61 {
        Ok(OpCode::Append)
    } else if op == 0x65 {
        Ok(OpCode::Appends)
    } else if op == 0x6c {
        Ok(OpCode::List)
    } else if op == 0x29 {
        Ok(OpCode::EmptyTuple)
    } else if op == 0x74 {
        Ok(OpCode::Tuple)
    } else if op == 0x85 {
        Ok(OpCode::Tuple1)
    } else if op == 0x86 {
        Ok(OpCode::Tuple2)
    } else if op == 0x87 {
        Ok(OpCode::Tuple3)
    } else if op == 0x7d {
        Ok(OpCode::EmptyDict)
    } else if op == 0x64 {
        Ok(OpCode::Dict)
    } else if op == 0x73 {
        Ok(OpCode::SetItem)
    } else if op == 0x75 {
        Ok(OpCode::SetItems)
    } else if op == 0x30 {
        Ok(OpCode::Pop)
    } else if op == 0x32 {
        Ok(OpCode::Dup)
    } else if op == 0x28 {
        Ok(OpCode::Mark)
    } else if op == 0x31 {
        Ok(OpCode::PopMark)
    } else if op == 0x67 {
        let n = read_decimal_int(input, pos)?;
        if n < 0 {
            return Err(Error::NegativeLength);
        }
        Ok(OpCode::Get(n as u64))
    } else if op == 0x68 {
        let b = read_u8(input, pos)?;
        Ok(OpCode::BinGet(b as u64))
    } else if op == 0x6a {
        let n = read_i32_le(input, pos)?;
        if n < 0 {
            return Err(Error::NegativeLength);
        }
        Ok(OpCode::LongBinGet(n as u64))
    } else if op == 0x70 {
        let n = read_decimal_int(input, pos)?;
        if n < 0 {
            return Err(Error::NegativeLength);
        }
        Ok(OpCode::Put(n as u64))
    } else if op == 0x71 {
        let b = read_u8(input, pos)?;
        Ok(OpCode::BinPut(b as u64))
    } else if op == 0x72 {
        let n = read_i32_le(input, pos)?;
        if n < 0 {
            return Err(Error::NegativeLength);
        }
        Ok(OpCode::LongBinPut(n as u64))
    } else if op == 0x82 {
        let b = read_u8(input, pos)?;
        Ok(OpCode::Ext1(b))
    } else if op == 0x83 {
        let v = read_u16_le(input, pos)?;
        Ok(OpCode::Ext2(v))
    } else if op == 0x84 {
        let v = read_i32_le(input, pos)?;
        Ok(OpCode::Ext4(v as i32))
    } else if op == 0x63 {
        let a = read_until_newline(input, pos)?;
        let b = read_until_newline(input, pos)?;
        Ok(OpCode::Global(a, b))
    } else if op == 0x52 {
        Ok(OpCode::Reduce)
    } else if op == 0x62 {
        Ok(OpCode::Build)
    } else if op == 0x69 {
        let a = read_until_newline(input, pos)?;
        let b = read_until_newline(input, pos)?;
        Ok(OpCode::Inst(a, b))
    } else if op == 0x6f {
        Ok(OpCode::Obj)
    } else if op == 0x81 {
        Ok(OpCode::NewObj)
    } else if op == 0x50 {
        let a = read_until_newline(input, pos)?;
        Ok(OpCode::PersId(a))
    } else if op == 0x51 {
        Ok(OpCode::BinPersId)
    } else {
        Err(Error::UnknownOpcode(op))
    }
}

} // verus!
