//! Decoding of backslash-escaped byte strings.
//!
//! The interior of a quoted string operand, or a unicode string operand, is
//! a byte sequence with escape sequences.  [`unescape`] decodes it
//! left-to-right; in unicode mode the `\uHHHH`, `\UHHHHHHHH` and `\N{NAME}`
//! escapes are recognized as well and produce the UTF-8 encoding of the
//! named scalar.  [`spec_unescape`] is the mathematical statement of the
//! mapping, one escape chunk at a time.

use vstd::prelude::*;
use vstd::utf8::encode_scalar;
use vstd::utf8::is_scalar;

verus! {

/// Errors of the escape decoder: a malformed escape, or input that ends in
/// the middle of a multi-character escape.
#[derive(Debug, Clone, Copy, PartialEq, Eq, Structural)]
pub enum Error {
    InvalidValue,
    UnexpectedEnd,
}

/// The character a name designates in the named-character table, if any.
/// The lookup is a fixed table: it depends on the name bytes alone.
pub uninterp spec fn named_char(name: Seq<u8>) -> Option<char>;

/// Relies on unicode_names2::character: finds the character with the given
/// standard name, case-insensitively, or returns nothing; the result
/// depends on the name alone.  The name bytes are looked up as the string
/// whose characters are those bytes.  A name that starts with a hyphen is
/// kept out: on such a name the outside crate's name normalizer indexes
/// one byte before the hyphen and would stop a build that checks
/// arithmetic; no character name starts with a hyphen anyway.
#[verifier::external_body]
fn character_lookup(name: &Vec<u8>) -> (r: Option<char>)
    requires
        name@.len() == 0 || name@[0] != 45,
    ensures
        r == named_char(name@),
{
    let text: std::string::String = name.iter().map(|&b| b as char).collect();
    unicode_names2::character(&text)
}

/// The position of the first occurrence of b in s at or after from.
pub open spec fn find_byte(s: Seq<u8>, from: int, b: u8) -> Option<int>
    decreases s.len() - from,
{
    if from < 0 || from >= s.len() {
        None
    } else if s[from] == b {
        Some(from)
    } else {
        find_byte(s, from + 1, b)
    }
}

pub proof fn lemma_find_byte_in_range(s: Seq<u8>, from: int, b: u8)
    ensures
        match find_byte(s, from, b) {
            Some(j) => from <= j < s.len() && s[j] == b,
            None => true,
        },
    decreases s.len() - from,
{
    if 0 <= from < s.len() && s[from] != b {
        lemma_find_byte_in_range(s, from + 1, b);
    }
}

/// The first position of b in s at or after start, by a linear scan.
pub fn find_byte_from(s: &Vec<u8>, start: usize, b: u8) -> (r: Option<usize>)
    requires
        start <= s@.len(),
    ensures
        match find_byte(s@, start as int, b) {
            Some(j) => r matches Some(u) && u as int == j,
            None => r is None,
        },
{
    let mut i: usize = start;
    while i < s.len()
        invariant
            start <= i <= s@.len(),
            find_byte(s@, start as int, b) == find_byte(s@, i as int, b),
        decreases s.len() - i,
    {
        if s[i] == b {
            return Some(i);
        }
        i = i + 1;
    }
    None
}

/// The bytes of s from position from (inclusive) to position to (exclusive).
pub fn copy_range(s: &Vec<u8>, from: usize, to: usize) -> (r: Vec<u8>)
    requires
        from <= to <= s@.len(),
    ensures
        r@ == s@.subrange(from as int, to as int),
{
    let mut out: Vec<u8> = Vec::new();
    let mut i: usize = from;
    while i < to
        invariant
            from <= i <= to <= s@.len(),
            out@ =~= s@.subrange(from as int, i as int),
        decreases to - i,
    {
        out.push(s[i]);
        i = i + 1;
    }
    assert(out@ =~= s@.subrange(from as int, to as int));
    out
}

/// Whether b is an ASCII hexadecimal digit.
pub open spec fn is_hex_digit(b: u8) -> bool {
    (48 <= b <= 57) || (97 <= b <= 102) || (65 <= b <= 70)
}

/// Value of an ASCII hexadecimal digit.
pub open spec fn hex_val(b: u8) -> int
    recommends
        is_hex_digit(b),
{
    if 48 <= b <= 57 {
        b - 48
    } else if 97 <= b <= 102 {
        b - 87
    } else {
        b - 55
    }
}

/// Whether b is an ASCII octal digit.
pub open spec fn is_oct_digit(b: u8) -> bool {
    48 <= b <= 55
}

/// Value of the two-hex-digit escape payload.
pub open spec fn hex2_val(h1: u8, h2: u8) -> int {
    hex_val(h1) * 16 + hex_val(h2)
}

/// Whether every byte of s[from..to] is a hexadecimal digit.
pub open spec fn all_hex(s: Seq<u8>, from: int, to: int) -> bool {
    forall|i: int| from <= i < to ==> is_hex_digit(#[trigger] s[i])
}

/// Value of the hexadecimal digits s[from..to], most significant first.
pub open spec fn hex_value(s: Seq<u8>, from: int, to: int) -> int
    recommends
        0 <= from <= to <= s.len(),
    decreases to - from,
{
    if to <= from {
        0
    } else {
        hex_value(s, from, to - 1) * 16 + hex_val(s[to - 1])
    }
}

/// One step of the escape decoder on a non-empty input: the bytes the
/// first chunk produces and how many input bytes it consumes.
pub open spec fn unescape_step(s: Seq<u8>, unicode: bool) -> Result<(Seq<u8>, int), Error>
    recommends
        s.len() > 0,
{
    let c = s[0];
    if c != 0x5c {
        Ok((seq![c], 1))
    } else if s.len() < 2 {
        Err(Error::UnexpectedEnd)
    } else {
        let m = s[1];
        if m == 0x0a {
            Ok((Seq::empty(), 2))
        } else if m == 0x5c {
            Ok((seq![0x5cu8], 2))
        } else if m == 0x27 {
            Ok((seq![0x27u8], 2))
        } else if m == 0x22 {
            Ok((seq![0x22u8], 2))
        } else if m == 97 {
            Ok((seq![0x07u8], 2))
        } else if m == 98 {
            Ok((seq![0x08u8], 2))
        } else if m == 102 {
            Ok((seq![0x0cu8], 2))
        } else if m == 110 {
            Ok((seq![0x0au8], 2))
        } else if m == 114 {
            Ok((seq![0x0du8], 2))
        } else if m == 116 {
            Ok((seq![0x09u8], 2))
        } else if m == 118 {
            Ok((seq![0x0bu8], 2))
        } else if m == 120 {
            if s.len() < 4 {
                Err(Error::UnexpectedEnd)
            } else if is_hex_digit(s[2]) && is_hex_digit(s[3]) {
                Ok((seq![hex2_val(s[2], s[3]) as u8], 4))
            } else {
                Err(Error::InvalidValue)
            }
        } else if is_oct_digit(m) {
            let n: int = if s.len() >= 3 && is_oct_digit(s[2]) {
                if s.len() >= 4 && is_oct_digit(s[3]) {
                    3
                } else {
                    2
                }
            } else {
                1
            };
            let v: int = if n == 1 {
                m - 48
            } else if n == 2 {
                (m - 48) * 8 + (s[2] - 48)
            } else {
                ((m - 48) * 8 + (s[2] - 48)) * 8 + (s[3] - 48)
            };
            Ok((seq![if v > 255 { 255u8 } else { v as u8 }], 1 + n))
        } else if m == 117 && unicode {
            if s.len() < 6 {
                Err(Error::UnexpectedEnd)
            } else if all_hex(s, 2, 6) {
                let v = hex_value(s, 2, 6);
                if 0xd800 <= v <= 0xdfff {
                    Err(Error::InvalidValue)
                } else {
                    Ok((encode_scalar(v as u32), 6))
                }
            } else {
                Err(Error::InvalidValue)
            }
        } else if m == 85 && unicode {
            if s.len() < 10 {
                Err(Error::UnexpectedEnd)
            } else if all_hex(s, 2, 10) {
                let v = hex_value(s, 2, 10);
                if v <= 0x10ffff && !(0xd800 <= v <= 0xdfff) {
                    Ok((encode_scalar(v as u32), 10))
                } else {
                    Err(Error::InvalidValue)
                }
            } else {
                Err(Error::InvalidValue)
            }
        } else if m == 78 && unicode {
            if s.len() < 3 {
                Err(Error::UnexpectedEnd)
            } else if s[2] != 123 {
                Err(Error::InvalidValue)
            } else {
                match find_byte(s, 3, 125) {
                    None => Err(Error::UnexpectedEnd),
                    Some(j) => if j > 3 && s[3] == 45 {
                        // No character name starts with a hyphen.
                        Err(Error::InvalidValue)
                    } else {
                        match named_char(s.subrange(3, j)) {
                            None => Err(Error::InvalidValue),
                            Some(ch) => Ok((encode_scalar(ch as u32), j + 1)),
                        }
                    },
                }
            }
        } else {
            Ok((seq![0x5cu8, m], 2))
        }
    }
}

proof fn lemma_find_byte_skip(s: Seq<u8>, i: int, from: int, b: u8)
    requires
        0 <= i <= s.len(),
        0 <= from,
    ensures
        match find_byte(s.skip(i), from, b) {
            Some(j) => find_byte(s, i + from, b) == Some(i + j),
            None => find_byte(s, i + from, b) is None,
        },
    decreases s.len() - i - from,
{
    let t = s.skip(i);
    if from < t.len() {
        assert(t[from] == s[i + from]);
        if t[from] != b {
            lemma_find_byte_skip(s, i, from + 1, b);
        }
    }
}

/// Value of an ASCII hexadecimal digit, or nothing.
fn hex_nibble(c: u8) -> (r: Option<u8>)
    ensures
        r is Some <==> is_hex_digit(c),
        r matches Some(v) ==> v as int == hex_val(c) && v < 16,
{
    if 48 <= c && c <= 57 {
        Some(c - 48)
    } else if 97 <= c && c <= 102 {
        Some(c - 87)
    } else if 65 <= c && c <= 70 {
        Some(c - 55)
    } else {
        None
    }
}

/// Appends the UTF-8 encoding of the scalar value to out.
fn push_utf8(out: &mut Vec<u8>, scalar: u32)
    requires
        is_scalar(scalar),
    ensures
        final(out)@ == old(out)@ + encode_scalar(scalar),
{
    if scalar <= 0x7f {
        out.push((scalar & 0x7f) as u8);
        proof {
            assert(out@ =~= old(out)@ + encode_scalar(scalar));
        }
    } else if scalar <= 0x7ff {
        out.push(0xc0 | ((scalar >> 6) & 0x1f) as u8);
        out.push(0x80 | (scalar & 0x3f) as u8);
        proof {
            assert(out@ =~= old(out)@ + encode_scalar(scalar));
        }
    } else if scalar <= 0xffff {
        out.push(0xe0 | ((scalar >> 12) & 0x0f) as u8);
        out.push(0x80 | ((scalar >> 6) & 0x3f) as u8);
        out.push(0x80 | (scalar & 0x3f) as u8);
        proof {
            assert(out@ =~= old(out)@ + encode_scalar(scalar));
        }
    } else {
        out.push(0xf0 | ((scalar >> 18) & 0x7) as u8);
        out.push(0x80 | ((scalar >> 12) & 0x3f) as u8);
        out.push(0x80 | ((scalar >> 6) & 0x3f) as u8);
        out.push(0x80 | (scalar & 0x3f) as u8);
        proof {
            assert(out@ =~= old(out)@ + encode_scalar(scalar));
        }
    }
}

/// The full escape decoding of s: the decoded bytes, or the first error.
pub open spec fn spec_unescape(s: Seq<u8>, unicode: bool) -> Result<Seq<u8>, Error>
    decreases s.len(),
{
    if s.len() == 0 {
        Ok(Seq::empty())
    } else {
        match unescape_step(s, unicode) {
            Err(e) => Err(e),
            Ok((produced, used)) => if 1 <= used <= s.len() {
                match spec_unescape(s.skip(used), unicode) {
                    Ok(rest) => Ok(produced + rest),
                    Err(e) => Err(e),
                }
            } else {
                Err(Error::UnexpectedEnd)
            },
        }
    }
}

/// Reads the count hexadecimal digits of a unicode escape, at offset two
/// behind position i, as one number; nothing when a digit is bad.
fn read_hex_scalar(s: &Vec<u8>, i: usize, count: usize) -> (r: Option<u32>)
    requires
        count == 4 || count == 8,
        i + 2 + count <= s@.len(),
    ensures
        match r {
            Some(v) => all_hex(s@.skip(i as int), 2, 2 + count as int) && v as int == hex_value(
                s@.skip(i as int),
                2,
                2 + count as int,
            ) && (v as int) < pow16(count as nat),
            None => !all_hex(s@.skip(i as int), 2, 2 + count as int),
        },
{
    let ghost tail = s@.skip(i as int);
    let total = s.len();
    assert(s@.len() == total);
    let mut v: u32 = 0;
    let mut k: usize = 0;
    while k < count
        invariant
            k <= count,
            count == 4 || count == 8,
            i + 2 + count <= s@.len() <= usize::MAX,
            tail == s@.skip(i as int),
            v as int == hex_value(tail, 2, 2 + k as int),
            all_hex(tail, 2, 2 + k as int),
            (v as int) < pow16(k as nat),
        decreases count - k,
    {
        proof {
            assert(tail[2 + k] == s@[i + 2 + k]);
        }
        let nib = hex_nibble(s[i + 2 + k]);
        if nib.is_none() {
            proof {
                assert(!is_hex_digit(tail[2 + k as int]));
                assert(!all_hex(tail, 2, 2 + count as int));
            }
            return None;
        }
        proof {
            lemma_hex_value_bound(tail, 2, 2 + k as int);
            lemma_pow16_at_most_8((k + 1) as nat);
            assert(pow16((k + 1) as nat) == 16 * pow16(k as nat));
        }
        v = v * 16 + nib.unwrap() as u32;
        k = k + 1;
    }
    Some(v)
}

/// Decodes a backslash-escaped byte string, left to right.  In unicode
/// mode the `\uHHHH`, `\UHHHHHHHH` and `\N{NAME}` escapes are recognized
/// as well and produce UTF-8 bytes.
#[verifier::rlimit(100)]
#[verifier::spinoff_prover]
pub fn unescape(s: &Vec<u8>, unicode: bool) -> (r: Result<Vec<u8>, Error>)
    ensures
        match spec_unescape(s@, unicode) {
            Ok(bytes) => r matches Ok(v) && v@ == bytes,
            Err(e) => r == Err::<Vec<u8>, Error>(e),
        },
{
    let mut out: Vec<u8> = Vec::new();
    let mut i: usize = 0;
    proof {
        assert(s@.skip(0) =~= s@);
    }
    while i < s.len()
        invariant
            i <= s@.len(),
            spec_unescape(s@, unicode) == (match spec_unescape(s@.skip(i as int), unicode) {
                Ok(rest) => Ok::<Seq<u8>, Error>(out@ + rest),
                Err(e) => Err::<Seq<u8>, Error>(e),
            }),
        decreases s.len() - i,
    {
        let ghost tail = s@.skip(i as int);
        let ghost pre_out = out@;
        let rem = s.len() - i;
        let c = s[i];
        proof {
            assert(tail[0] == c);
        }
        let mut used: usize = 1;
        let ghost mut prod: Seq<u8> = seq![c];
        if c != 0x5c {
            out.push(c);
        } else {
            if rem < 2 {
                proof {
                    assert(unescape_step(tail, unicode) == Err::<(Seq<u8>, int), Error>(
                        Error::UnexpectedEnd,
                    ));
                }
                return Err(Error::UnexpectedEnd);
            }
            let m = s[i + 1];
            proof {
                assert(tail[1] == m);
            }
            used = 2;
            if m == 0x0a {
                proof {
                    prod = Seq::empty();
                }
            } else if m == 0x5c || m == 0x27 || m == 0x22 {
                out.push(m);
                proof {
                    prod = seq![m];
                }
            } else if m == 97 {
                out.push(0x07);
                proof {
                    prod = seq![0x07u8];
                }
            } else if m == 98 {
                out.push(0x08);
                proof {
                    prod = seq![0x08u8];
                }
            } else if m == 102 {
                out.push(0x0c);
                proof {
                    prod = seq![0x0cu8];
                }
            } else if m == 110 {
                out.push(0x0a);
                proof {
                    prod = seq![0x0au8];
                }
            } else if m == 114 {
                out.push(0x0d);
                proof {
                    prod = seq![0x0du8];
                }
            } else if m == 116 {
                out.push(0x09);
                proof {
                    prod = seq![0x09u8];
                }
            } else if m == 118 {
                out.push(0x0b);
                proof {
                    prod = seq![0x0bu8];
                }
            } else if m == 120 {
                if rem < 4 {
                    proof {
                        assert(unescape_step(tail, unicode) == Err::<(Seq<u8>, int), Error>(
                            Error::UnexpectedEnd,
                        ));
                    }
                    return Err(Error::UnexpectedEnd);
                }
                let h1 = s[i + 2];
                let h2 = s[i + 3];
                proof {
                    assert(tail[2] == h1);
                    assert(tail[3] == h2);
                }
                let n1 = hex_nibble(h1);
                let n2 = hex_nibble(h2);
                if n1.is_none() || n2.is_none() {
                    proof {
                        assert(unescape_step(tail, unicode) == Err::<(Seq<u8>, int), Error>(
                            Error::InvalidValue,
                        ));
                    }
                    return Err(Error::InvalidValue);
                }
                let v1 = n1.unwrap();
                let v2 = n2.unwrap();
                out.push(v1 * 16 + v2);
                used = 4;
                proof {
                    prod = seq![(hex2_val(h1, h2)) as u8];
                }
            } else if 48 <= m && m <= 55 {
                let mut v: u16 = (m - 48) as u16;
                used = 2;
                if rem >= 3 && 48 <= s[i + 2] && s[i + 2] <= 55 {
                    proof {
                        assert(tail[2] == s@[i + 2]);
                    }
                    v = v * 8 + (s[i + 2] - 48) as u16;
                    used = 3;
                    if rem >= 4 && 48 <= s[i + 3] && s[i + 3] <= 55 {
                        proof {
                            assert(tail[3] == s@[i + 3]);
                        }
                        v = v * 8 + (s[i + 3] - 48) as u16;
                        used = 4;
                    } else {
                        proof {
                            if rem >= 4 {
                                assert(tail[3] == s@[i + 3]);
                            }
                        }
                    }
                } else {
                    proof {
                        if rem >= 3 {
                            assert(tail[2] == s@[i + 2]);
                        }
                    }
                }
                let b: u8 = if v > 255 {
                    255
                } else {
                    v as u8
                };
                out.push(b);
                proof {
                    prod = seq![b];
                }
            } else if m == 117 && unicode {
                if rem < 6 {
                    proof {
                        assert(unescape_step(tail, unicode) == Err::<(Seq<u8>, int), Error>(
                            Error::UnexpectedEnd,
                        ));
                    }
                    return Err(Error::UnexpectedEnd);
                }
                let parsed = read_hex_scalar(s, i, 4);
                if parsed.is_none() {
                    proof {
                        assert(unescape_step(tail, unicode) == Err::<(Seq<u8>, int), Error>(
                            Error::InvalidValue,
                        ));
                    }
                    return Err(Error::InvalidValue);
                }
                let v = parsed.unwrap();
                proof {
                    assert(pow16(4) == 0x10000) by {
                        assert(pow16(0) == 1);
                        assert(pow16(1) == 16);
                        assert(pow16(2) == 0x100);
                        assert(pow16(3) == 0x1000);
                    }
                }
                if 0xd800 <= v && v <= 0xdfff {
                    proof {
                        assert(unescape_step(tail, unicode) == Err::<(Seq<u8>, int), Error>(
                            Error::InvalidValue,
                        ));
                    }
                    return Err(Error::InvalidValue);
                }
                push_utf8(&mut out, v);
                used = 6;
                proof {
                    prod = encode_scalar(v);
                }
            } else if m == 85 && unicode {
                if rem < 10 {
                    proof {
                        assert(unescape_step(tail, unicode) == Err::<(Seq<u8>, int), Error>(
                            Error::UnexpectedEnd,
                        ));
                    }
                    return Err(Error::UnexpectedEnd);
                }
                let parsed = read_hex_scalar(s, i, 8);
                if parsed.is_none() {
                    proof {
                        assert(unescape_step(tail, unicode) == Err::<(Seq<u8>, int), Error>(
                            Error::InvalidValue,
                        ));
                    }
                    return Err(Error::InvalidValue);
                }
                let v = parsed.unwrap();
                if v <= 0x10ffff && !(0xd800 <= v && v <= 0xdfff) {
                    push_utf8(&mut out, v);
                    used = 10;
                    proof {
                        prod = encode_scalar(v);
                    }
                } else {
                    proof {
                        assert(unescape_step(tail, unicode) == Err::<(Seq<u8>, int), Error>(
                            Error::InvalidValue,
                        ));
                    }
                    return Err(Error::InvalidValue);
                }
            } else if m == 78 && unicode {
                if rem < 3 {
                    proof {
                        assert(unescape_step(tail, unicode) == Err::<(Seq<u8>, int), Error>(
                            Error::UnexpectedEnd,
                        ));
                    }
                    return Err(Error::UnexpectedEnd);
                }
                proof {
                    assert(tail[2] == s@[i + 2]);
                }
                if s[i + 2] != 123 {
                    proof {
                        assert(unescape_step(tail, unicode) == Err::<(Seq<u8>, int), Error>(
                            Error::InvalidValue,
                        ));
                    }
                    return Err(Error::InvalidValue);
                }
                proof {
                    lemma_find_byte_skip(s@, i as int, 3, 125);
                }
                let found = find_byte_from(s, i + 3, 125);
                if found.is_none() {
                    proof {
                        assert(unescape_step(tail, unicode) == Err::<(Seq<u8>, int), Error>(
                            Error::UnexpectedEnd,
                        ));
                    }
                    return Err(Error::UnexpectedEnd);
                }
                let close = found.unwrap();
                proof {
                    lemma_find_byte_in_range(s@, i as int + 3, 125);
                }
                let name = copy_range(s, i + 3, close);
                proof {
                    let jrel = close as int - i as int;
                    assert(find_byte(tail, 3, 125) == Some(jrel));
                    assert(name@ =~= tail.subrange(3, jrel));
                }
                if name.len() > 0 && name[0] == 45 {
                    proof {
                        assert(tail[3] == s@[i + 3]);
                        assert(unescape_step(tail, unicode) == Err::<(Seq<u8>, int), Error>(
                            Error::InvalidValue,
                        ));
                    }
                    return Err(Error::InvalidValue);
                }
                let looked = character_lookup(&name);
                if looked.is_none() {
                    proof {
                        assert(unescape_step(tail, unicode) == Err::<(Seq<u8>, int), Error>(
                            Error::InvalidValue,
                        ));
                    }
                    return Err(Error::InvalidValue);
                }
                let ch = looked.unwrap();
                proof {
                    vstd::utf8::char_is_scalar(ch);
                }
                push_utf8(&mut out, ch as u32);
                used = close + 1 - i;
                proof {
                    prod = encode_scalar(ch as u32);
                }
            } else {
                out.push(0x5c);
                out.push(m);
                proof {
                    prod = seq![0x5cu8, m];
                }
            }
        }
        proof {
            assert(out@ =~= pre_out + prod);
            assert(1 <= used as int <= tail.len());
            assert(unescape_step(tail, unicode) == Ok::<(Seq<u8>, int), Error>(
                (prod, used as int),
            ));
            assert(tail.skip(used as int) =~= s@.skip(i as int + used as int));
            let next = spec_unescape(s@.skip(i as int + used as int), unicode);
            if next is Ok {
                assert(pre_out + (prod + next->Ok_0) =~= (pre_out + prod) + next->Ok_0);
            }
        }
        i = i + used;
    }
    proof {
        assert(s@.skip(i as int) =~= Seq::<u8>::empty());
        assert(out@ + Seq::<u8>::empty() =~= out@);
    }
    Ok(out)
}

pub proof fn lemma_hex_value_bound(s: Seq<u8>, from: int, to: int)
    requires
        0 <= from <= to <= s.len(),
        all_hex(s, from, to),
    ensures
        0 <= hex_value(s, from, to) < pow16((to - from) as nat),
    decreases to - from,
{
    if to > from {
        lemma_hex_value_bound(s, from, to - 1);
    }
}

proof fn lemma_pow16_mono(a: nat, b: nat)
    requires
        a <= b,
    ensures
        pow16(a) <= pow16(b),
    decreases b,
{
    if a < b {
        lemma_pow16_mono(a, (b - 1) as nat);
        lemma_pow16_bound((b - 1) as nat);
    }
}

proof fn lemma_pow16_at_most_8(k: nat)
    requires
        k <= 8,
    ensures
        pow16(k) <= 0x100000000,
{
    lemma_pow16_mono(k, 8);
    assert(pow16(0) == 1);
    assert(pow16(1) == 16);
    assert(pow16(2) == 0x100);
    assert(pow16(3) == 0x1000);
    assert(pow16(4) == 0x10000);
    assert(pow16(5) == 0x100000);
    assert(pow16(6) == 0x1000000);
    assert(pow16(7) == 0x10000000);
    assert(pow16(8) == 0x100000000);
}

/// Relies on String::from_utf8: succeeds exactly on valid UTF-8 input and
/// returns the string decoded from those bytes.
#[verifier::external_body]
pub(crate) fn bytes_to_string(bytes: Vec<u8>) -> (r: Option<std::string::String>)
    ensures
        r is Some <==> vstd::utf8::valid_utf8(bytes@),
        r matches Some(text) ==> text@ == vstd::utf8::decode_utf8(bytes@),
{
    std::string::String::from_utf8(bytes).ok()
}

/// The canonical escaping of one byte: backslash escapes for the
/// backslash, the two quotes and the named control characters; every
/// other byte stands for itself.
pub open spec fn escape_byte(b: u8) -> Seq<u8> {
    if b == 0x5c {
        seq![0x5cu8, 0x5cu8]
    } else if b == 0x27 {
        seq![0x5cu8, 0x27u8]
    } else if b == 0x22 {
        seq![0x5cu8, 0x22u8]
    } else if b == 0x07 {
        seq![0x5cu8, 97u8]
    } else if b == 0x08 {
        seq![0x5cu8, 98u8]
    } else if b == 0x0c {
        seq![0x5cu8, 102u8]
    } else if b == 0x0a {
        seq![0x5cu8, 110u8]
    } else if b == 0x0d {
        seq![0x5cu8, 114u8]
    } else if b == 0x09 {
        seq![0x5cu8, 116u8]
    } else if b == 0x0b {
        seq![0x5cu8, 118u8]
    } else {
        seq![b]
    }
}

/// The canonical escaping of a byte string, byte by byte.
pub open spec fn spec_escape(s: Seq<u8>) -> Seq<u8>
    decreases s.len(),
{
    if s.len() == 0 {
        Seq::empty()
    } else {
        escape_byte(s[0]) + spec_escape(s.drop_first())
    }
}

/// Escaping with the canonical mapping and then unescaping, in
/// non-unicode mode, gives back the original bytes, whatever they are.
pub proof fn lemma_unescape_escape(s: Seq<u8>)
    ensures
        spec_unescape(spec_escape(s), false) == Ok::<Seq<u8>, Error>(s),
    decreases s.len(),
{
    if s.len() == 0 {
        assert(s =~= Seq::<u8>::empty());
    } else {
        let b = s[0];
        let chunk = escape_byte(b);
        let rest = spec_escape(s.drop_first());
        let e = spec_escape(s);
        assert(e == chunk + rest);
        lemma_unescape_escape(s.drop_first());
        assert(e[0] == chunk[0]);
        if chunk.len() == 2 {
            assert(e[1] == chunk[1]);
        }
        assert(unescape_step(e, false) == Ok::<(Seq<u8>, int), Error>(
            (seq![b], chunk.len() as int),
        ));
        assert(e.skip(chunk.len() as int) =~= rest);
        assert(e.len() > 0);
        assert(1 <= chunk.len() as int <= e.len());
        assert(spec_unescape(e, false) == Ok::<Seq<u8>, Error>(seq![b] + s.drop_first()));
        assert(seq![b] + s.drop_first() =~= s);
    }
}

/// 16 raised to the n-th power.
pub open spec fn pow16(n: nat) -> int
    decreases n,
{
    if n == 0 {
        1
    } else {
        16 * pow16((n - 1) as nat)
    }
}

proof fn lemma_pow16_bound(k: nat)
    ensures
        pow16(k) >= 1,
    decreases k,
{
    if k > 0 {
        lemma_pow16_bound((k - 1) as nat);
    }
}

} // verus!
