use monumentum::error::DbError;
use monumentum::types::Integer;

#[test]
fn integer_from_decimal_text() {
    assert_eq!(Integer::try_from_str("42").unwrap().as_i64(), 42);
    assert_eq!(Integer::try_from_str("+7").unwrap().as_i64(), 7);
    assert_eq!(Integer::try_from_str("-9223372036854775808").unwrap().as_i64(), i64::MIN);
    assert_eq!(Integer::try_from_str("9223372036854775807").unwrap().as_i64(), i64::MAX);
    for bad in ["", "-", "+", "1a", " 1", "9223372036854775808", "-9223372036854775809", "--1", "1_000"] {
        assert!(matches!(Integer::try_from_str(bad), Err(DbError::TypeMismatch(_))), "{bad}");
    }
}

#[test]
fn integer_text_agrees_with_std() {
    let cases = ["0", "-0", "+0", "007", "-42", "123456789012345678", "99999999999999999999", "٣", "1e3", "-+1"];
    for s in cases {
        let ours = Integer::try_from_str(s).ok().map(|i| i.as_i64());
        assert_eq!(ours, s.parse::<i64>().ok(), "{s}");
    }
}
