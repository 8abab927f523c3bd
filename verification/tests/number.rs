use tasks_rust::number::{i32_to_string, parse_i32, parse_u32};

fn chars(s: &str) -> Vec<char> {
    s.chars().collect()
}

#[test]
fn parses_like_std_i32() {
    for s in [
        "0", "+5", "-0", "-17", "007", "2147483647", "-2147483648", "2147483648", "-2147483649",
        "", "+", "-", "+-1", "1a", " 1", "1 ", "99999999999999999999", "١",
    ] {
        assert_eq!(parse_i32(&chars(s)), s.parse::<i32>().ok(), "{:?}", s);
    }
}

#[test]
fn parses_like_std_u32() {
    for s in ["0", "+5", "-0", "-1", "4294967295", "4294967296", "", "+", "12x"] {
        assert_eq!(parse_u32(&chars(s)), s.parse::<u32>().ok(), "{:?}", s);
    }
}

#[test]
fn writes_like_to_string() {
    for n in [0, 7, 10, -1, -10, 123456, i32::MAX, i32::MIN] {
        assert_eq!(i32_to_string(n), n.to_string());
    }
}

#[test]
fn written_numbers_read_back() {
    for n in [0, 42, -42, i32::MAX, i32::MIN] {
        assert_eq!(parse_i32(&chars(&i32_to_string(n))), Some(n));
    }
}
