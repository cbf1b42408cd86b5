//! Reading single opcodes with their operands.

use pickle::bignum::BigNum;
use pickle::machine::BooleanOrInt;
use pickle::machine::Error;
use pickle::opcode::read_opcode;
use pickle::opcode::OpCode;

fn read(data: &[u8]) -> Result<OpCode, Error> {
    let bytes = data.to_vec();
    let mut pos: usize = 0;
    read_opcode(&bytes, &mut pos)
}

#[test]
fn test_proto() {
    assert_eq!(read(b"\x80").unwrap_err(), Error::Read);
    assert_eq!(read(b"\x80\x00").unwrap_err(), Error::InvalidProto(0));
    assert_eq!(read(b"\x80\x01").unwrap_err(), Error::InvalidProto(1));
    assert!(matches!(read(b"\x80\x02").unwrap(), OpCode::Proto(2)));
    assert!(matches!(read(b"\x80\x0a").unwrap(), OpCode::Proto(10)));
}

#[test]
fn test_stop() {
    assert!(matches!(read(b".").unwrap(), OpCode::Stop));
}

#[test]
fn opcode_test_int() {
    assert_eq!(read(b"I").unwrap_err(), Error::InvalidString);
    assert_eq!(read(b"I\n").unwrap_err(), Error::InvalidInt);
    assert_eq!(read(b"Iabc\n").unwrap_err(), Error::InvalidInt);
    assert!(matches!(read(b"I123\n").unwrap(), OpCode::Int(BooleanOrInt::Int(123))));
    assert!(matches!(read(b"I-123\n").unwrap(), OpCode::Int(BooleanOrInt::Int(-123))));
}

#[test]
fn test_bin_int() {
    assert_eq!(read(b"J\x0a").unwrap_err(), Error::Read);
    assert!(matches!(read(b"J\x0a\x00\x00\x00").unwrap(), OpCode::BinInt(10)));
    assert!(matches!(read(b"J\x0a\x00\x00\x01").unwrap(), OpCode::BinInt(16777226)));
}

#[test]
fn test_bin_int1() {
    assert_eq!(read(b"K").unwrap_err(), Error::Read);
    assert!(matches!(read(b"K\x0a").unwrap(), OpCode::BinInt1(10)));
}

#[test]
fn test_bin_int2() {
    assert_eq!(read(b"M\x0a").unwrap_err(), Error::Read);
    assert!(matches!(read(b"M\x0a\x00\x00\x00").unwrap(), OpCode::BinInt2(10)));
    assert!(matches!(read(b"M\x0a\x01\x00\x00").unwrap(), OpCode::BinInt2(266)));
}

#[test]
fn test_long() {
    assert_eq!(read(b"L").unwrap_err(), Error::InvalidString);
    assert_eq!(read(b"L\n").unwrap_err(), Error::InvalidLong);
    assert_eq!(read(b"Labc\n").unwrap_err(), Error::InvalidLong);
    assert_eq!(read(b"LabcL\n").unwrap_err(), Error::InvalidLong);
    match read(b"L123L\n").unwrap() {
        OpCode::Long(n) => assert_eq!(n, BigNum::from_i64(123)),
        other => panic!("expected a long, got {:?}", other),
    }
}

#[test]
fn test_long1() {
    assert_eq!(read(b"\x8a").unwrap_err(), Error::Read);
    match read(b"\x8a\x01\x0a").unwrap() {
        OpCode::Long1(n) => assert_eq!(n, BigNum::from_i64(10)),
        other => panic!("expected a long, got {:?}", other),
    }
    match read(b"\x8a\x01\xf6").unwrap() {
        OpCode::Long1(n) => assert_eq!(n, BigNum::from_i64(-10)),
        other => panic!("expected a long, got {:?}", other),
    }
    match read(b"\x8a\x02.\xfb").unwrap() {
        OpCode::Long1(n) => assert_eq!(n, BigNum::from_i64(-1234)),
        other => panic!("expected a long, got {:?}", other),
    }
}

#[test]
fn test_long4() {
    assert_eq!(read(b"\x8b\xff\xff\xff\xff").unwrap_err(), Error::NegativeLength);
    assert_eq!(read(b"\x8b\x0a").unwrap_err(), Error::Read);
    match read(b"\x8b\x01\x00\x00\x00\x0a").unwrap() {
        OpCode::Long4(n) => assert_eq!(n, BigNum::from_i64(10)),
        other => panic!("expected a long, got {:?}", other),
    }
    match read(b"\x8b\x01\x00\x00\x00\xf6").unwrap() {
        OpCode::Long4(n) => assert_eq!(n, BigNum::from_i64(-10)),
        other => panic!("expected a long, got {:?}", other),
    }
    match read(b"\x8b\x02\x00\x00\x00.\xfb").unwrap() {
        OpCode::Long4(n) => assert_eq!(n, BigNum::from_i64(-1234)),
        other => panic!("expected a long, got {:?}", other),
    }
}

#[test]
fn opcode_test_string() {
    // A string operand is a quoted line: the quotes go, the interior is
    // unescaped in non-unicode mode.
    assert_eq!(read(b"S").unwrap_err(), Error::InvalidString);
    assert_eq!(read(b"S\n").unwrap_err(), Error::InvalidString);
    match read(b"S''\n").unwrap() {
        OpCode::String(s) => assert_eq!(s, b"".to_vec()),
        other => panic!("expected a string, got {:?}", other),
    }
    match read(b"S'abc'\n").unwrap() {
        OpCode::String(s) => assert_eq!(s, b"abc".to_vec()),
        other => panic!("expected a string, got {:?}", other),
    }
    match read(b"S'123'\n").unwrap() {
        OpCode::String(s) => assert_eq!(s, b"123".to_vec()),
        other => panic!("expected a string, got {:?}", other),
    }
    match read(b"S'\\n'\n").unwrap() {
        OpCode::String(s) => assert_eq!(s, b"\n".to_vec()),
        other => panic!("expected a string, got {:?}", other),
    }
}

#[test]
fn test_bin_string() {
    assert_eq!(read(b"T\xff\xff\xff\xff").unwrap_err(), Error::NegativeLength);
    match read(b"T\x00\x00\x00\x00").unwrap() {
        OpCode::BinString(s) => assert_eq!(s, b"".to_vec()),
        other => panic!("expected a string, got {:?}", other),
    }
    match read(b"T\x03\x00\x00\x00abc").unwrap() {
        OpCode::BinString(s) => assert_eq!(s, b"abc".to_vec()),
        other => panic!("expected a string, got {:?}", other),
    }
    match read(b"T\x03\x00\x00\x00123").unwrap() {
        OpCode::BinString(s) => assert_eq!(s, b"123".to_vec()),
        other => panic!("expected a string, got {:?}", other),
    }
    match read(b"T\x02\x00\x00\x00\\n").unwrap() {
        OpCode::BinString(s) => assert_eq!(s, b"\\n".to_vec()),
        other => panic!("expected a string, got {:?}", other),
    }
}

#[test]
fn test_short_bin_string() {
    match read(b"U\x00").unwrap() {
        OpCode::ShortBinString(s) => assert_eq!(s, b"".to_vec()),
        other => panic!("expected a string, got {:?}", other),
    }
    match read(b"U\x03abc").unwrap() {
        OpCode::ShortBinString(s) => assert_eq!(s, b"abc".to_vec()),
        other => panic!("expected a string, got {:?}", other),
    }
    match read(b"U\x03123").unwrap() {
        OpCode::ShortBinString(s) => assert_eq!(s, b"123".to_vec()),
        other => panic!("expected a string, got {:?}", other),
    }
    match read(b"U\x02\\n").unwrap() {
        OpCode::ShortBinString(s) => assert_eq!(s, b"\\n".to_vec()),
        other => panic!("expected a string, got {:?}", other),
    }
}

#[test]
fn test_none() {
    assert!(matches!(read(b"N").unwrap(), OpCode::NoneValue));
}

#[test]
fn test_new_true() {
    assert!(matches!(read(b"\x88").unwrap(), OpCode::NewTrue));
}

#[test]
fn test_new_false() {
    assert!(matches!(read(b"\x89").unwrap(), OpCode::NewFalse));
}

#[test]
fn opcode_test_unicode() {
}

#[test]
fn test_bin_unicode() {
    assert_eq!(
        read(b"X\t\x00\x00\x00abc\xd0\xb3\xb4\xd0\xb5q").unwrap_err(),
        Error::InvalidString
    );
    match read(b"X\t\x00\x00\x00abc\xd0\xb3\xd0\xb4\xd0\xb5q").unwrap() {
        OpCode::BinUnicode(s) => assert_eq!(s, "abc\u{0433}\u{0434}\u{0435}"),
        other => panic!("expected text, got {:?}", other),
    }
}

#[test]
fn test_float() {
    assert_eq!(read(b"F").unwrap_err(), Error::InvalidString);
    assert_eq!(read(b"F\n").unwrap_err(), Error::InvalidFloat);
    assert_eq!(read(b"Fabc\n").unwrap_err(), Error::InvalidFloat);
    let expected: [(&[u8], f64); 4] =
        [(b"F123\n", 123.0), (b"F-123\n", -123.0), (b"F-123.\n", -123.0), (
            b"F-123.456\n",
            -123.456,
        )];
    for (input, want) in expected {
        match read(input).unwrap() {
            OpCode::Float(text) => {
                let parsed: f64 = std::str::from_utf8(&text).unwrap().parse().unwrap();
                assert_eq!(parsed, want);
            },
            other => panic!("expected a float, got {:?}", other),
        }
    }
}

#[test]
fn test_bin_float() {
    assert_eq!(read(b"G").unwrap_err(), Error::Read);
    assert_eq!(read(b"Gabc").unwrap_err(), Error::Read);
    assert_eq!(read(b"G123").unwrap_err(), Error::Read);
    let expected: [(&[u8], f64); 3] = [
        (b"G@^\xc0\x00\x00\x00\x00\x00", 123.0),
        (b"G\xc0^\xc0\x00\x00\x00\x00\x00", -123.0),
        (b"G\xc0^\xdd/\x1a\x9f\xbew", -123.456),
    ];
    for (input, want) in expected {
        match read(input).unwrap() {
            OpCode::BinFloat(bits) => assert_eq!(f64::from_bits(bits), want),
            other => panic!("expected a float, got {:?}", other),
        }
    }
}

#[test]
fn test_empty_list() {
    assert!(matches!(read(b"]").unwrap(), OpCode::EmptyList));
}

#[test]
fn test_append() {
    assert!(matches!(read(b"a").unwrap(), OpCode::Append));
}

#[test]
fn test_appends() {
    assert!(matches!(read(b"e").unwrap(), OpCode::Appends));
}

#[test]
fn test_list() {
    assert!(matches!(read(b"l").unwrap(), OpCode::List));
}

#[test]
fn test_empty_tuple() {
    assert!(matches!(read(b")").unwrap(), OpCode::EmptyTuple));
}

#[test]
fn test_tuple() {
    assert!(matches!(read(b"t").unwrap(), OpCode::Tuple));
}

#[test]
fn test_tuple1() {
    assert!(matches!(read(b"\x85").unwrap(), OpCode::Tuple1));
}

#[test]
fn test_tuple2() {
    assert!(matches!(read(b"\x86").unwrap(), OpCode::Tuple2));
}

#[test]
fn test_tuple3() {
    assert!(matches!(read(b"\x87").unwrap(), OpCode::Tuple3));
}

#[test]
fn test_empty_dict() {
    assert!(matches!(read(b"}").unwrap(), OpCode::EmptyDict));
}

#[test]
fn test_dict() {
    assert!(matches!(read(b"d").unwrap(), OpCode::Dict));
}

#[test]
fn test_set_item() {
    assert!(matches!(read(b"s").unwrap(), OpCode::SetItem));
}

#[test]
fn test_set_items() {
    assert!(matches!(read(b"u").unwrap(), OpCode::SetItems));
}

#[test]
fn test_pop() {
    assert!(matches!(read(b"0").unwrap(), OpCode::Pop));
}

#[test]
fn test_dup() {
    assert!(matches!(read(b"2").unwrap(), OpCode::Dup));
}

#[test]
fn test_mark() {
    assert!(matches!(read(b"(").unwrap(), OpCode::Mark));
}

#[test]
fn test_pop_mark() {
    assert!(matches!(read(b"1").unwrap(), OpCode::PopMark));
}

#[test]
fn test_get() {
    assert_eq!(read(b"g").unwrap_err(), Error::InvalidString);
    assert_eq!(read(b"g\n").unwrap_err(), Error::InvalidInt);
    assert_eq!(read(b"gabc\n").unwrap_err(), Error::InvalidInt);
    assert_eq!(read(b"g-123\n").unwrap_err(), Error::NegativeLength);
    assert!(matches!(read(b"g123\n").unwrap(), OpCode::Get(123)));
}

#[test]
fn test_bin_get() {
    assert_eq!(read(b"h").unwrap_err(), Error::Read);
    assert!(matches!(read(b"h\x00").unwrap(), OpCode::BinGet(0)));
    assert!(matches!(read(b"h\x0a").unwrap(), OpCode::BinGet(10)));
    assert!(matches!(read(b"h\xfe").unwrap(), OpCode::BinGet(254)));
}

#[test]
fn test_long_bin_get() {
    assert_eq!(read(b"j\x0a").unwrap_err(), Error::Read);
    assert!(matches!(read(b"j\x0a\x00\x00\x00").unwrap(), OpCode::LongBinGet(10)));
    assert!(matches!(read(b"j\x0a\x00\x00\x01").unwrap(), OpCode::LongBinGet(16777226)));
}

#[test]
fn test_put() {
    assert_eq!(read(b"p").unwrap_err(), Error::InvalidString);
    assert_eq!(read(b"p\n").unwrap_err(), Error::InvalidInt);
    assert_eq!(read(b"pabc\n").unwrap_err(), Error::InvalidInt);
    assert_eq!(read(b"p-123\n").unwrap_err(), Error::NegativeLength);
    assert!(matches!(read(b"p123\n").unwrap(), OpCode::Put(123)));
}

#[test]
fn test_bin_put() {
    assert_eq!(read(b"q").unwrap_err(), Error::Read);
    assert!(matches!(read(b"q\x00").unwrap(), OpCode::BinPut(0)));
    assert!(matches!(read(b"q\x0a").unwrap(), OpCode::BinPut(10)));
    assert!(matches!(read(b"q\xfe").unwrap(), OpCode::BinPut(254)));
}

#[test]
fn test_long_bin_put() {
    assert_eq!(read(b"r\x0a").unwrap_err(), Error::Read);
    assert!(matches!(read(b"r\x0a\x00\x00\x00").unwrap(), OpCode::LongBinPut(10)));
    assert!(matches!(read(b"r\x0a\x00\x00\x01").unwrap(), OpCode::LongBinPut(16777226)));
}

#[test]
fn test_ext1() {
    assert_eq!(read(b"\x82").unwrap_err(), Error::Read);
    assert!(matches!(read(b"\x82\x0a").unwrap(), OpCode::Ext1(10)));
}

#[test]
fn test_ext2() {
    assert_eq!(read(b"\x83").unwrap_err(), Error::Read);
    assert_eq!(read(b"\x83\x01").unwrap_err(), Error::Read);
    assert!(matches!(read(b"\x83\x0a\x00").unwrap(), OpCode::Ext2(10)));
    assert!(matches!(read(b"\x83\x0a\x01").unwrap(), OpCode::Ext2(266)));
}

#[test]
fn test_ext4() {
    assert_eq!(read(b"\x84").unwrap_err(), Error::Read);
    assert_eq!(read(b"\x84\x01\x01\x01").unwrap_err(), Error::Read);
    assert!(matches!(read(b"\x84\x0a\x00\x00\x00").unwrap(), OpCode::Ext4(10)));
    assert!(matches!(read(b"\x84\x0a\x01\x00\x01").unwrap(), OpCode::Ext4(16777482)));
}

#[test]
fn test_global() {
    assert_eq!(read(b"c").unwrap_err(), Error::InvalidString);
    assert_eq!(read(b"c\n").unwrap_err(), Error::InvalidString);
    match read(b"c\n\n").unwrap() {
        OpCode::Global(a, b) => {
            assert_eq!(a, b"".to_vec());
            assert_eq!(b, b"".to_vec());
        },
        other => panic!("expected a global, got {:?}", other),
    }
    match read(b"cmodule\nclass\n").unwrap() {
        OpCode::Global(a, b) => {
            assert_eq!(a, b"module".to_vec());
            assert_eq!(b, b"class".to_vec());
        },
        other => panic!("expected a global, got {:?}", other),
    }
}

#[test]
fn test_reduce() {
    assert!(matches!(read(b"R").unwrap(), OpCode::Reduce));
}

#[test]
fn test_build() {
    assert!(matches!(read(b"b").unwrap(), OpCode::Build));
}

#[test]
fn test_inst() {
    assert_eq!(read(b"i").unwrap_err(), Error::InvalidString);
    assert_eq!(read(b"i\n").unwrap_err(), Error::InvalidString);
    match read(b"i\n\n").unwrap() {
        OpCode::Inst(a, b) => {
            assert_eq!(a, b"".to_vec());
            assert_eq!(b, b"".to_vec());
        },
        other => panic!("expected an inst, got {:?}", other),
    }
    match read(b"imodule\nclass\n").unwrap() {
        OpCode::Inst(a, b) => {
            assert_eq!(a, b"module".to_vec());
            assert_eq!(b, b"class".to_vec());
        },
        other => panic!("expected an inst, got {:?}", other),
    }
}

#[test]
fn test_obj() {
    assert!(matches!(read(b"o").unwrap(), OpCode::Obj));
}

#[test]
fn test_new_obj() {
    assert!(matches!(read(b"\x81").unwrap(), OpCode::NewObj));
}

#[test]
fn test_persid() {
    assert_eq!(read(b"P").unwrap_err(), Error::InvalidString);
    assert_eq!(read(b"Pabc").unwrap_err(), Error::InvalidString);
    match read(b"P\n").unwrap() {
        OpCode::PersId(a) => assert_eq!(a, b"".to_vec()),
        other => panic!("expected a persistent id, got {:?}", other),
    }
    match read(b"P\n\n").unwrap() {
        OpCode::PersId(a) => assert_eq!(a, b"".to_vec()),
        other => panic!("expected a persistent id, got {:?}", other),
    }
    match read(b"Pmodule\nclass\n").unwrap() {
        OpCode::PersId(a) => assert_eq!(a, b"module".to_vec()),
        other => panic!("expected a persistent id, got {:?}", other),
    }
}

#[test]
fn test_bin_persid() {
    assert!(matches!(read(b"Q").unwrap(), OpCode::BinPersId));
}
