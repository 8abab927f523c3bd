use tasks_rust::calculator::{answer, calculate, calculate_checked, CalcError};

#[test]
fn adds_and_subtracts() {
    assert_eq!(calculate("3 + 4"), Ok(7));
    assert_eq!(calculate("3 - 4"), Ok(-1));
    assert_eq!(calculate("-3 - -4"), Ok(1));
    assert_eq!(calculate("+2 + 2"), Ok(4));
}

#[test]
fn ignores_surrounding_whitespace() {
    let mut padded = String::from("10 - 3");
    padded.push_str(&" ".repeat(993));
    assert_eq!(calculate(&padded), Ok(7));
    assert_eq!(calculate("\n 1 + 1\t"), Ok(2));
}

#[test]
fn reports_errors() {
    assert_eq!(calculate("a + 1"), Err(CalcError::InvalidNumbers));
    assert_eq!(calculate("1 + b"), Err(CalcError::InvalidNumbers));
    assert_eq!(calculate("1 * 2"), Err(CalcError::InvalidOperator));
    assert_eq!(calculate("1 + 2 3"), Err(CalcError::InvalidLength));
    assert_eq!(calculate("x + 2 3"), Err(CalcError::InvalidNumbers));
    assert_eq!(calculate("1  + 2"), Err(CalcError::InvalidNumbers));
}

#[test]
fn aborts_where_the_server_panics() {
    assert_eq!(calculate_checked("1 +"), None);
    assert_eq!(calculate_checked(""), None);
    assert_eq!(calculate_checked("2147483647 + 1"), None);
    assert_eq!(calculate_checked("-2147483648 - 1"), None);
    assert_eq!(calculate_checked("2147483647 - 1"), Some(Ok(2147483646)));
}

#[test]
fn error_messages() {
    assert_eq!(CalcError::InvalidNumbers.message(), "Invalid numbers");
    assert_eq!(
        CalcError::InvalidLength.message(),
        "Invalid calculation length. Has to be 2 numbers with 1 operator"
    );
    assert_eq!(CalcError::InvalidOperator.message(), "Invalid operator. Valid are + and -");
}

#[test]
fn answers() {
    let a = answer("40 + 2").unwrap();
    assert_eq!(a.result, Some("42".to_string()));
    assert_eq!(a.error, "");
    let b = answer("4 / 2").unwrap();
    assert_eq!(b.result, None);
    assert_eq!(b.error, "Invalid operator. Valid are + and -");
    assert!(answer("4").is_none());
}
