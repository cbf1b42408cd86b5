//! End-to-end decodes through the machine driver.

use pickle::bignum::BigNum;
use pickle::machine::unpickle;
use pickle::machine::Error;
use pickle::machine::Unpickled;
use pickle::string;
use pickle::value::FloatRepr;
use pickle::value::Value;

fn decode(data: &[u8]) -> Result<Unpickled, Error> {
    unpickle(&data.to_vec())
}

fn decode_root(data: &[u8]) -> Value {
    decode(data).unwrap().root
}

fn decode_err(data: &[u8]) -> Error {
    decode(data).unwrap_err()
}

#[test]
fn machine_test_int() {
    assert_eq!(decode_root(b"I1\n."), Value::Long(BigNum::from_i64(1)));
    assert_eq!(decode_root(b"K\x01."), Value::Int(1));
    assert_eq!(decode_root(b"\x80\x02K\x01."), Value::Int(1));
}

#[test]
fn test_const() {
    assert_eq!(decode_root(b"I00\n."), Value::Bool(false));
    assert_eq!(decode_root(b"I01\n."), Value::Bool(true));
    assert_eq!(decode_root(b"\x80\x02\x89."), Value::Bool(false));
    assert_eq!(decode_root(b"\x80\x02\x88."), Value::Bool(true));
    assert_eq!(decode_root(b"N."), Value::NoneValue);
    assert_eq!(decode_root(b"\x80\x02N."), Value::NoneValue);
}

#[test]
fn machine_test_string() {
    assert_eq!(decode_root(b"S''\np1\n."), Value::String(b"".to_vec()));
    assert_eq!(decode_root(b"S'foo'\np1\n."), Value::String(b"foo".to_vec()));
    assert_eq!(decode_root(b"U\x03fooq\x01."), Value::String(b"foo".to_vec()));
    assert_eq!(decode_root(b"\x80\x02U\x03fooq\x01."), Value::String(b"foo".to_vec()));
    assert_eq!(decode_root(b"S'\\n'\np1\n."), Value::String(b"\n".to_vec()));
}

#[test]
fn machine_test_unicode() {
    assert_eq!(decode_root(b"Vfoo\np1\n."), Value::Unicode("foo".to_string()));
    assert_eq!(decode_root(b"X\x03\x00\x00\x00fooq\x01."), Value::Unicode("foo".to_string()));
    assert_eq!(
        decode_root(b"\x80\x02X\x03\x00\x00\x00fooq\x01."),
        Value::Unicode("foo".to_string())
    );
}

#[test]
fn test_unknown_opcode() {
    assert_eq!(decode_err(b"\xff"), Error::UnknownOpcode(255));
}

#[test]
fn test_invalid_int() {
    assert_eq!(decode_err(b"I1000000000000000000000000000000\n."), Error::InvalidInt);
    assert_eq!(decode_err(b"I\n."), Error::InvalidInt);
    assert_eq!(decode_err(b"I0.0\n."), Error::InvalidInt);
    assert_eq!(decode_err(b"I0.1\n."), Error::InvalidInt);
    assert_eq!(decode_err(b"Ia\n."), Error::InvalidInt);
    assert_eq!(decode_err(b"I\n\n."), Error::InvalidInt);
    assert_eq!(decode_err(b"g\n."), Error::InvalidInt);
    assert_eq!(decode_err(b"g0.0\n."), Error::InvalidInt);
    assert_eq!(decode_err(b"g0.1\n."), Error::InvalidInt);
    assert_eq!(decode_err(b"ga\n."), Error::InvalidInt);
    assert_eq!(decode_err(b"g\n\n."), Error::InvalidInt);
    assert_eq!(decode_err(b"p\n."), Error::InvalidInt);
    assert_eq!(decode_err(b"p0.0\n."), Error::InvalidInt);
    assert_eq!(decode_err(b"p0.1\n."), Error::InvalidInt);
    assert_eq!(decode_err(b"pa\n."), Error::InvalidInt);
    assert_eq!(decode_err(b"p\n\n."), Error::InvalidInt);
}

#[test]
fn test_invalid_long() {
    assert_eq!(decode_err(b"L\n."), Error::InvalidLong);
    assert_eq!(decode_err(b"L0.0\n."), Error::InvalidLong);
    assert_eq!(decode_err(b"L0.1\n."), Error::InvalidLong);
    assert_eq!(decode_err(b"La\n."), Error::InvalidLong);
    assert_eq!(decode_err(b"L\n\n."), Error::InvalidLong);
    assert_eq!(decode_err(b"\x8a\x00."), Error::InvalidLong);
    assert_eq!(decode_err(b"\x8b\x00\x00\x00\x00."), Error::InvalidLong);
}

#[test]
fn test_invalid_float() {
    assert_eq!(decode_err(b"F\n."), Error::InvalidFloat);
    assert_eq!(decode_err(b"Ffoo\n."), Error::InvalidFloat);
    assert_eq!(decode_err(b"F1.O\n."), Error::InvalidFloat);
}

#[test]
fn test_invalid_string() {
    assert_eq!(decode_err(b"S"), Error::InvalidString);
    assert_eq!(decode_err(b"S'\n"), Error::InvalidString);
    assert_eq!(decode_err(b"V"), Error::InvalidString);
    assert_eq!(decode_err(b"I"), Error::InvalidString);
    assert_eq!(decode_err(b"L"), Error::InvalidString);
    assert_eq!(decode_err(b"F"), Error::InvalidString);
}

#[test]
fn test_unicode_error() {
    assert_eq!(decode_err(b"V\xe2\x28\xa1\n"), Error::InvalidString);
    assert_eq!(decode_err(b"X\x03\x00\x00\x00\xe2\x28\xa1"), Error::InvalidString);
}

#[test]
fn test_list_of_longs() {
    let doc = decode(b"(lp0\nI1\naI2\naI3\naI4\na.").unwrap();
    let h = match doc.root {
        Value::List(h) => h,
        other => panic!("expected a list, got {:?}", other),
    };
    let items = &doc.lists[h];
    assert_eq!(items.len(), 4);
    assert_eq!(items[0], Value::Long(BigNum::from_i64(1)));
    assert_eq!(items[1], Value::Long(BigNum::from_i64(2)));
    assert_eq!(items[2], Value::Long(BigNum::from_i64(3)));
    assert_eq!(items[3], Value::Long(BigNum::from_i64(4)));
}

#[test]
fn test_long_decimal() {
    assert_eq!(decode_root(b"L123L\n."), Value::Long(BigNum::from_i64(123)));
    assert_eq!(decode_root(b"L-123\n."), Value::Long(BigNum::from_i64(-123)));
}

#[test]
fn test_long1_value() {
    assert_eq!(decode_root(b"\x8a\x02.\xfb."), Value::Long(BigNum::from_i64(-1234)));
    assert_eq!(decode_root(b"\x8a\x01\x0a."), Value::Long(BigNum::from_i64(10)));
    assert_eq!(decode_root(b"\x8a\x01\xf6."), Value::Long(BigNum::from_i64(-10)));
}

#[test]
fn test_long4_negative_length() {
    assert_eq!(decode_err(b"\x8b\xff\xff\xff\xff."), Error::NegativeLength);
}

#[test]
fn test_negative_length_fields() {
    assert_eq!(decode_err(b"T\xff\xff\xff\xff."), Error::NegativeLength);
    assert_eq!(decode_err(b"X\xff\xff\xff\xff."), Error::NegativeLength);
    assert_eq!(decode_err(b"j\xff\xff\xff\xff."), Error::NegativeLength);
    assert_eq!(decode_err(b"r\xff\xff\xff\xff."), Error::NegativeLength);
    assert_eq!(decode_err(b"g-123\n."), Error::NegativeLength);
    assert_eq!(decode_err(b"p-123\n."), Error::NegativeLength);
}

#[test]
fn test_memo_shares_composites() {
    // An empty list is memoized, read back, and appended to itself: both
    // references must name the same container.
    let doc = decode(b"]p0\ng0\na.").unwrap();
    let h = match doc.root {
        Value::List(h) => h,
        other => panic!("expected a list, got {:?}", other),
    };
    assert_eq!(doc.lists[h].len(), 1);
    assert_eq!(doc.lists[h][0], Value::List(h));
}

#[test]
fn test_memo_scalar_round_trip() {
    let doc = decode(b"(I7\np0\ng0\nt.").unwrap();
    let h = match doc.root {
        Value::Tuple(h) => h,
        other => panic!("expected a tuple, got {:?}", other),
    };
    assert_eq!(doc.tuples[h].len(), 2);
    assert_eq!(doc.tuples[h][0], Value::Long(BigNum::from_i64(7)));
    assert_eq!(doc.tuples[h][1], Value::Long(BigNum::from_i64(7)));
}

#[test]
fn test_tuple_order() {
    // Elements of the fixed-arity tuples keep their push order.
    let doc = decode(b"K\x01K\x02\x86.").unwrap();
    let h = match doc.root {
        Value::Tuple(h) => h,
        other => panic!("expected a tuple, got {:?}", other),
    };
    assert_eq!(doc.tuples[h], vec![Value::Int(1), Value::Int(2)]);
    let doc3 = decode(b"K\x01K\x02K\x03\x87.").unwrap();
    let h3 = match doc3.root {
        Value::Tuple(h) => h,
        other => panic!("expected a tuple, got {:?}", other),
    };
    assert_eq!(doc3.tuples[h3], vec![Value::Int(1), Value::Int(2), Value::Int(3)]);
}

#[test]
fn test_dict_pairs_in_order() {
    let doc = decode(b"(K\x01K\x02K\x03K\x04d.").unwrap();
    let h = match doc.root {
        Value::Dict(h) => h,
        other => panic!("expected a dict, got {:?}", other),
    };
    assert_eq!(
        doc.dicts[h],
        vec![(Value::Int(1), Value::Int(2)), (Value::Int(3), Value::Int(4))]
    );
}

#[test]
fn test_set_item_appends() {
    let doc = decode(b"}K\x01K\x02s.").unwrap();
    let h = match doc.root {
        Value::Dict(h) => h,
        other => panic!("expected a dict, got {:?}", other),
    };
    assert_eq!(doc.dicts[h], vec![(Value::Int(1), Value::Int(2))]);
}

#[test]
fn test_set_items_appends() {
    let doc = decode(b"}(K\x01K\x02K\x03K\x04u.").unwrap();
    let h = match doc.root {
        Value::Dict(h) => h,
        other => panic!("expected a dict, got {:?}", other),
    };
    assert_eq!(
        doc.dicts[h],
        vec![(Value::Int(1), Value::Int(2)), (Value::Int(3), Value::Int(4))]
    );
}

#[test]
fn test_binfloat_bits() {
    let root = decode_root(b"G@^\xc0\x00\x00\x00\x00\x00.");
    match root {
        Value::Float(FloatRepr::Binary(bits)) => assert_eq!(f64::from_bits(bits), 123.0),
        other => panic!("expected a float, got {:?}", other),
    }
}

#[test]
fn test_float_literal_kept() {
    let root = decode_root(b"F-123.456\n.");
    match root {
        Value::Float(FloatRepr::Literal(text)) => {
            assert_eq!(text, b"-123.456".to_vec());
            let parsed: f64 = std::str::from_utf8(&text).unwrap().parse().unwrap();
            assert_eq!(parsed, -123.456);
        },
        other => panic!("expected a float literal, got {:?}", other),
    }
}

#[test]
fn test_not_implemented_opcodes() {
    assert_eq!(decode_err(b"cmodule\nclass\n."), Error::NotImplemented);
    assert_eq!(decode_err(b"R"), Error::NotImplemented);
    assert_eq!(decode_err(b"b"), Error::NotImplemented);
    assert_eq!(decode_err(b"imodule\nclass\n."), Error::NotImplemented);
    assert_eq!(decode_err(b"o"), Error::NotImplemented);
    assert_eq!(decode_err(b"\x81"), Error::NotImplemented);
    assert_eq!(decode_err(b"Pid\n."), Error::NotImplemented);
    assert_eq!(decode_err(b"Q"), Error::NotImplemented);
    assert_eq!(decode_err(b"\x82\x0a"), Error::NotImplemented);
    assert_eq!(decode_err(b"\x83\x0a\x00"), Error::NotImplemented);
    assert_eq!(decode_err(b"\x84\x0a\x00\x00\x00"), Error::NotImplemented);
}

#[test]
fn test_stack_errors() {
    assert_eq!(decode_err(b"0"), Error::EmptyStack);
    assert_eq!(decode_err(b"2"), Error::EmptyStack);
    assert_eq!(decode_err(b"l"), Error::EmptyMarker);
    assert_eq!(decode_err(b"I1\n(0l"), Error::StackTooSmall);
    assert_eq!(decode_err(b"I1\nI2\na"), Error::InvalidValueOnStack);
    assert_eq!(decode_err(b"g5\n"), Error::InvalidGetValue);
    assert_eq!(decode_err(b"."), Error::EmptyStack);
    assert_eq!(decode_err(b"I1\nI2\n."), Error::InvalidValueOnStack);
}

#[test]
fn test_proto_errors() {
    assert_eq!(decode_err(b"\x80"), Error::Read);
    assert_eq!(decode_err(b"\x80\x00"), Error::InvalidProto(0));
    assert_eq!(decode_err(b"\x80\x01"), Error::InvalidProto(1));
    assert_eq!(decode_err(b"J\x01"), Error::Read);
}

#[test]
fn test_unescape_errors_surface() {
    assert_eq!(
        decode_err(b"S'\\x'\n."),
        Error::UnescapeError(string::Error::UnexpectedEnd)
    );
    assert_eq!(
        decode_err(b"S'\\xgg'\n."),
        Error::UnescapeError(string::Error::InvalidValue)
    );
    assert_eq!(
        decode_err(b"V\\N{-A}\n."),
        Error::UnescapeError(string::Error::InvalidValue)
    );
}

#[test]
fn test_pop_and_mark() {
    // POP discards, DUP copies, POP_MARK clears everything above the mark.
    assert_eq!(decode_root(b"K\x01K\x020."), Value::Int(1));
    assert_eq!(decode_root(b"K\x05(K\x01K\x021."), Value::Int(5));
    let doc = decode(b"K\x072\x86.").unwrap();
    let h = match doc.root {
        Value::Tuple(h) => h,
        other => panic!("expected a tuple, got {:?}", other),
    };
    assert_eq!(doc.tuples[h], vec![Value::Int(7), Value::Int(7)]);
}

#[test]
fn test_small_int_scenarios() {
    assert_eq!(decode_root(b"I3\n."), Value::Long(BigNum::from_i64(3)));
    assert_eq!(decode_root(b"K\x03."), Value::Int(3));
    assert_eq!(decode_root(b"\x80\x02K\x03."), Value::Int(3));
    assert_eq!(decode_root(b"J\x0a\x00\x00\x00."), Value::Int(10));
    assert_eq!(decode_root(b"J\xff\xff\xff\xff."), Value::Int(-1));
    assert_eq!(decode_root(b"M\x0a\x01."), Value::Int(266));
}

#[test]
fn test_big_longs_agree_across_encodings() {
    // The same number beyond the 64-bit range, once as a decimal literal
    // and once as a nine-byte little-endian two's-complement payload.
    let decimal = decode_root(b"L18446744073709551617L\n.");
    let binary = decode_root(b"\x8a\x09\x01\x00\x00\x00\x00\x00\x00\x00\x01.");
    let expected = BigNum::parse_decimal(&b"18446744073709551617".to_vec()).unwrap();
    assert_eq!(decimal, Value::Long(expected));
    assert_eq!(decimal, binary);

    let neg_decimal = decode_root(b"L-18446744073709551617L\n.");
    let neg_binary = decode_root(b"\x8a\x09\xff\xff\xff\xff\xff\xff\xff\xff\xfe.");
    let neg_expected = BigNum::parse_decimal(&b"-18446744073709551617".to_vec()).unwrap();
    assert_eq!(neg_decimal, Value::Long(neg_expected));
    assert_eq!(neg_decimal, neg_binary);
}
