use trident::state::{parse_state, ParseRegisterError, Register};

#[test]
fn parses_last_digit_as_qubit_zero() {
    assert_eq!(parse_state(3, "|101>"), Ok(5));
    assert_eq!(parse_state(3, "|001>"), Ok(1));
    assert_eq!(parse_state(3, "|100>"), Ok(4));
    assert_eq!(parse_state(1, "|0>"), Ok(0));
}

#[test]
fn rejects_wrong_length() {
    assert_eq!(parse_state(3, "|10>"), Err(ParseRegisterError::WrongLength));
    assert_eq!(parse_state(3, "|1010>"), Err(ParseRegisterError::WrongLength));
    assert_eq!(parse_state(2, ""), Err(ParseRegisterError::WrongLength));
}

#[test]
fn rejects_missing_delimiters() {
    assert_eq!(parse_state(3, "(101>"), Err(ParseRegisterError::WrongFormat));
    assert_eq!(parse_state(3, "|101)"), Err(ParseRegisterError::WrongFormat));
}

#[test]
fn rejects_non_binary_digits() {
    assert_eq!(parse_state(3, "|121>"), Err(ParseRegisterError::InvalidChar(2)));
    assert_eq!(parse_state(3, "|1>1>"), Err(ParseRegisterError::InvalidChar(2)));
    assert_eq!(parse_state(3, "|0a9>"), Err(ParseRegisterError::InvalidChar(2)));
    assert_eq!(parse_state(3, "|01x>"), Err(ParseRegisterError::InvalidChar(3)));
}

#[test]
fn parses_widest_register() {
    let all_ones = format!("|{}>", "1".repeat(64));
    assert_eq!(parse_state(64, &all_ones), Ok(u64::MAX));
}

#[test]
fn register_from_text() {
    let r = Register::new("|0110>").unwrap();
    assert_eq!(r.qbit_count, 4);
    assert_eq!(r.ket_size, 16);
    assert_eq!(r.state, 6);
    let parsed: Register = "|1>".parse().unwrap();
    assert_eq!(parsed.state, 1);
    assert!(matches!(Register::new("|>"), Err(ParseRegisterError::WrongLength)));
    assert!(matches!(Register::new("|0a>"), Err(ParseRegisterError::InvalidChar(2))));
}

#[test]
fn register_text_holds_at_most_32_digits() {
    let widest = format!("|{}>", "1".repeat(32));
    let r: Register = widest.parse().unwrap();
    assert_eq!(r.qbit_count, 32);
    assert_eq!(r.state, u32::MAX as u64);
    let too_wide = format!("|{}>", "0".repeat(33));
    assert!(matches!(too_wide.parse::<Register>(), Err(ParseRegisterError::MoreThan32Bits)));
    assert!(matches!("".parse::<Register>(), Err(ParseRegisterError::WrongLength)));
    assert!(matches!("|01".parse::<Register>(), Err(ParseRegisterError::WrongFormat)));
    assert!(matches!("|>".parse::<Register>(), Err(ParseRegisterError::WrongLength)));
}
