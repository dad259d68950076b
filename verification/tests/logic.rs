use gsim2::logic::{FromBigIntError, LogicBitState, LogicState, ParseError, ToIntError};

#[test]
fn bit_state_from_bool() {
    assert_eq!(LogicBitState::from_bool(false), LogicBitState::Logic0);
    assert_eq!(LogicBitState::from_bool(true), LogicBitState::Logic1);
}

#[test]
fn bit_state_to_bool() {
    assert_eq!(LogicBitState::HighZ.to_bool(), None);
    assert_eq!(LogicBitState::Undefined.to_bool(), None);
    assert_eq!(LogicBitState::Logic0.to_bool(), Some(false));
    assert_eq!(LogicBitState::Logic1.to_bool(), Some(true));
}

#[test]
fn bit_state_parse_byte() {
    assert_eq!(LogicBitState::parse_byte(b'Z'), Some(LogicBitState::HighZ));
    assert_eq!(LogicBitState::parse_byte(b'z'), Some(LogicBitState::HighZ));
    assert_eq!(LogicBitState::parse_byte(b'X'), Some(LogicBitState::Undefined));
    assert_eq!(LogicBitState::parse_byte(b'x'), Some(LogicBitState::Undefined));
    assert_eq!(LogicBitState::parse_byte(b'0'), Some(LogicBitState::Logic0));
    assert_eq!(LogicBitState::parse_byte(b'1'), Some(LogicBitState::Logic1));
    assert_eq!(LogicBitState::parse_byte(b'a'), None);
}

#[test]
fn bit_state_parse_char() {
    assert_eq!(LogicBitState::parse('Z'), Some(LogicBitState::HighZ));
    assert_eq!(LogicBitState::parse('1'), Some(LogicBitState::Logic1));
    assert_eq!(LogicBitState::parse('q'), None);
    assert_eq!(LogicBitState::parse('\u{3a9}'), None);
}

#[test]
fn bit_state_to_char_round_trip() {
    for bit in [
        LogicBitState::HighZ,
        LogicBitState::Undefined,
        LogicBitState::Logic0,
        LogicBitState::Logic1,
    ] {
        assert_eq!(LogicBitState::parse(bit.to_char()), Some(bit));
    }
}

#[test]
fn from_int_to_int_round_trip() {
    let s = LogicState::from_int(0xDEAD_BEEF);
    assert_eq!(s.to_int(32), Ok(0xDEAD_BEEF));
    // Truncated read: only the low bits remain.
    assert_eq!(s.to_int(8), Ok(0xEF));
    let wrapped = LogicState::from_int(300);
    assert_eq!(wrapped.to_int(8), Ok(44));
}

#[test]
fn to_int_boundary_values() {
    assert_eq!(LogicState::logic_0().to_int(32), Ok(u32::MIN));
    assert_eq!(LogicState::logic_1().to_int(32), Ok(u32::MAX));
}

#[test]
fn to_int_errors() {
    assert_eq!(LogicState::high_z().to_int(32), Err(ToIntError::Unrepresentable));
    assert_eq!(LogicState::undefined().to_int(32), Err(ToIntError::Unrepresentable));
    assert_eq!(LogicState::from_int(1).to_int(0), Err(ToIntError::InvalidWidth));
    assert_eq!(LogicState::from_int(1).to_int(33), Err(ToIntError::InvalidWidth));
}

#[test]
fn to_bool_values() {
    assert_eq!(LogicState::high_z().to_bool(), None);
    assert_eq!(LogicState::undefined().to_bool(), None);
    assert_eq!(LogicState::from_bool(false).to_bool(), Some(false));
    assert_eq!(LogicState::from_bool(true).to_bool(), Some(true));
}

#[test]
fn parse_to_string_round_trip() {
    let s = LogicState::parse("10XZ").unwrap();
    assert_eq!(s.to_string(4), "10XZ");
    // Bits past the parsed ones float.
    assert_eq!(s.to_string(5), "Z10XZ");
    let t = LogicState::parse(&s.to_string(4)).unwrap();
    assert_eq!(t.to_string(4), s.to_string(4));
}

#[test]
fn parse_accepts_lower_case() {
    let s = LogicState::parse("zx01").unwrap();
    assert_eq!(s.to_string(4), "ZX01");
}

#[test]
fn parse_longest_width() {
    let text: String = core::iter::repeat('1').take(256).collect();
    let s = LogicState::parse(&text).unwrap();
    assert_eq!(s.to_string(256), text);
}

#[test]
fn parse_errors() {
    assert!(matches!(LogicState::parse(""), Err(ParseError::InvalidWidth)));
    let too_long: String = core::iter::repeat('0').take(257).collect();
    assert!(matches!(LogicState::parse(&too_long), Err(ParseError::InvalidWidth)));
    assert!(matches!(
        LogicState::parse("10a1"),
        Err(ParseError::IllegalCharacter(b'a'))
    ));
}

#[test]
fn from_bits_example() {
    let s = LogicState::from_bits(&[
        LogicBitState::Logic1,
        LogicBitState::Logic0,
        LogicBitState::Undefined,
        LogicBitState::HighZ,
    ])
    .unwrap();
    assert_eq!(s.to_string(5), "Z10XZ");
}

#[test]
fn from_bits_errors() {
    assert!(LogicState::from_bits(&[]).is_err());
    let bits = [LogicBitState::Logic0; 257];
    assert!(LogicState::from_bits(&bits).is_err());
}

#[test]
fn big_int_round_trip() {
    let s = LogicState::from_big_int(&[0xAAAA_5555, 0x3]).unwrap();
    assert_eq!(s.to_big_int(64), Ok(vec![0xAAAA_5555, 0x3]));
    assert_eq!(s.to_int(32), Ok(0xAAAA_5555));
    // Bits past the given words read as zero.
    assert_eq!(s.to_big_int(96), Ok(vec![0xAAAA_5555, 0x3, 0]));
}

#[test]
fn big_int_errors() {
    assert!(matches!(
        LogicState::from_big_int(&[]),
        Err(FromBigIntError::InvalidWordCount)
    ));
    assert!(matches!(
        LogicState::from_big_int(&[0; 9]),
        Err(FromBigIntError::InvalidWordCount)
    ));
    assert_eq!(LogicState::high_z().to_big_int(32), Err(ToIntError::Unrepresentable));
    assert_eq!(LogicState::from_int(1).to_big_int(0), Err(ToIntError::InvalidWidth));
    assert_eq!(LogicState::from_int(1).to_big_int(257), Err(ToIntError::InvalidWidth));
}

#[test]
fn get_bit_state_reads_bits() {
    let s = LogicState::parse("X10Z").unwrap();
    assert_eq!(s.get_bit_state(0), LogicBitState::HighZ);
    assert_eq!(s.get_bit_state(1), LogicBitState::Logic0);
    assert_eq!(s.get_bit_state(2), LogicBitState::Logic1);
    assert_eq!(s.get_bit_state(3), LogicBitState::Undefined);
    assert_eq!(s.get_bit_state(4), LogicBitState::HighZ);
}

#[test]
fn eq_compares_only_the_width() {
    let a = LogicState::parse("Z1").unwrap();
    let b = LogicState::parse("01").unwrap();
    assert!(a.eq(&b, 1));
    assert!(!a.eq(&b, 2));
    assert!(LogicState::high_z().eq(&LogicState::high_z(), 256));
}
