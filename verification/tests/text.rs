use tasks_rust::text::{chars_of, contains, find, split, string_of, trim};

fn chars(s: &str) -> Vec<char> {
    s.chars().collect()
}

#[test]
fn trims_like_std() {
    for s in ["", "  ", " a b ", "\u{3000}x\u{85}", "\t\r\nq"] {
        assert_eq!(string_of(&trim(&chars(s))), s.trim());
    }
}

#[test]
fn splits_like_std() {
    for (s, sep) in [("a b c", " "), ("a  b", " "), ("", " "), ("x\r\ny\r\n", "\r\n"), ("a: b: c", ": ")] {
        let parts: Vec<String> = split(&chars(s), &chars(sep)).iter().map(|p| string_of(p)).collect();
        let expected: Vec<String> = s.split(sep).map(|p| p.to_string()).collect();
        assert_eq!(parts, expected);
    }
}

#[test]
fn finds_like_std() {
    assert_eq!(find(&chars("hello"), &chars("ll")), Some(2));
    assert_eq!(find(&chars("hello"), &chars("")), Some(0));
    assert_eq!(find(&chars("hello"), &chars("lo!")), None);
    assert!(contains(&chars("abc"), &chars("bc")));
    assert_eq!(chars_of("añb"), vec!['a', 'ñ', 'b']);
}

#[test]
fn trimming_twice_changes_nothing() {
    for s in ["  a  ", "\n\nb c\t", "", "   "] {
        let once = trim(&chars(s));
        assert_eq!(trim(&once), once);
    }
}
