//! The escape decoder on its own.

use pickle::string::unescape;
use pickle::string::Error;

fn un(data: &[u8], unicode: bool) -> Result<Vec<u8>, Error> {
    unescape(&data.to_vec(), unicode)
}

#[test]
fn test_unescape() {
    assert_eq!(un(b"foo", false).unwrap(), b"foo");
    assert_eq!(un(b"f\\noo", false).unwrap(), b"f\noo");
    assert_eq!(un(b"f\\x01oo", false).unwrap(), b"f\x01oo");
    assert_eq!(un(b"f\\375oo", false).unwrap(), b"f\xfdoo");
    assert_eq!(un(b"f\\75oo", false).unwrap(), b"f\x3doo");
    assert_eq!(un(b"f\\5oo", false).unwrap(), b"f\x05oo");
    assert_eq!(un(b"f\\oo", false).unwrap(), b"f\\oo");
    assert_eq!(un(b"f\\coo", false).unwrap(), b"f\\coo");
    assert_eq!(un(b"f\\U00002663oo", true).unwrap(), b"f\xe2\x99\xa3oo");
    assert_eq!(un(b"f\\u2663oo", true).unwrap(), b"f\xe2\x99\xa3oo");
    assert_eq!(un(b"f\\N{SNOWMAN}oo", true).unwrap(), b"f\xe2\x98\x83oo");
}

#[test]
fn test_unescape_quotes_and_controls() {
    assert_eq!(un(b"a\\\\b", false).unwrap(), b"a\\b");
    assert_eq!(un(b"a\\'b\\\"c", false).unwrap(), b"a'b\"c");
    assert_eq!(un(b"\\a\\b\\f\\n\\r\\t\\v", false).unwrap(), b"\x07\x08\x0c\x0a\x0d\x09\x0b");
    // A backslash before a newline is a line continuation.
    assert_eq!(un(b"a\\\nb", false).unwrap(), b"ab");
}

#[test]
fn test_unescape_octal_clamps() {
    // Octal escapes are greedy and values above 255 saturate.
    assert_eq!(un(b"\\777", false).unwrap(), vec![255u8]);
    assert_eq!(un(b"\\400", false).unwrap(), vec![255u8]);
    assert_eq!(un(b"\\1234", false).unwrap(), vec![0o123u8, b'4']);
}

#[test]
fn test_unescape_round_trip() {
    // The canonical escaping of arbitrary bytes decodes back to them.
    let original: Vec<u8> = vec![0x5c, b'a', 0x0a, b'\'', 0x07, 0xff, b'"', 0x09, 0x00];
    let escaped: &[u8] = b"\\\\a\\n\\'\\a\xff\\\"\\t\x00";
    assert_eq!(un(escaped, false).unwrap(), original);
}

#[test]
fn test_unescape_errors() {
    assert_eq!(un(b"f\\x1", false).unwrap_err(), Error::UnexpectedEnd);
    assert_eq!(un(b"f\\", false).unwrap_err(), Error::UnexpectedEnd);
    assert_eq!(un(b"f\\xgg", false).unwrap_err(), Error::InvalidValue);
    assert_eq!(un(b"\\u12", true).unwrap_err(), Error::UnexpectedEnd);
    assert_eq!(un(b"\\ud800", true).unwrap_err(), Error::InvalidValue);
    assert_eq!(un(b"\\U0011ffff", true).unwrap_err(), Error::InvalidValue);
    assert_eq!(un(b"\\UD800D800", true).unwrap_err(), Error::InvalidValue);
    assert_eq!(un(b"\\N{NO SUCH CHARACTER NAME}", true).unwrap_err(), Error::InvalidValue);
    // A name that starts with a hyphen is rejected without the lookup.
    assert_eq!(un(b"\\N{-A}", true).unwrap_err(), Error::InvalidValue);
    assert_eq!(un(b"\\N{A-B}", true).unwrap_err(), Error::InvalidValue);
    assert_eq!(un(b"\\N{SNOWMAN", true).unwrap_err(), Error::UnexpectedEnd);
    assert_eq!(un(b"\\Nx", true).unwrap_err(), Error::InvalidValue);
}

#[test]
fn test_unescape_unicode_off() {
    // Outside unicode mode the unicode escapes pass through untouched.
    assert_eq!(un(b"\\u2663", false).unwrap(), b"\\u2663");
    assert_eq!(un(b"\\N{SNOWMAN}", false).unwrap(), b"\\N{SNOWMAN}");
}
