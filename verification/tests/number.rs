use ce_db::text::{
    characters, compare_text, contains_text, same_text, split, split_once, surround, trim,
    write_decimal, Order,
};
use ce_db::Number;

fn outcome(o: std::cmp::Ordering) -> Order {
    match o {
        std::cmp::Ordering::Less => Order::Less,
        std::cmp::Ordering::Equal => Order::Equal,
        std::cmp::Ordering::Greater => Order::Greater,
    }
}

fn float(f: f64) -> Number {
    Number::Float(f.to_bits())
}

#[test]
fn integers_compare_exactly() {
    let cases: Vec<i128> = vec![
        0,
        1,
        -1,
        36,
        9007199254740991,
        9007199254740992,
        9007199254740993,
        -9007199254740992,
        -9007199254740993,
        i64::MAX as i128,
        i64::MIN as i128,
        u64::MAX as i128,
        u64::MAX as i128 - 1,
        i128::MAX,
        i128::MIN,
    ];
    for a in &cases {
        for b in &cases {
            assert_eq!(Number::Int(*a).compare(Number::Int(*b)), outcome(a.cmp(b)), "{a} {b}");
        }
    }
    assert_eq!(
        Number::Int(9007199254740993).compare(Number::Int(9007199254740992)),
        Order::Greater
    );
}

#[test]
fn doubles_compare_by_value() {
    let cases = [
        0.0,
        -0.0,
        0.5,
        -0.5,
        35.999,
        1.0,
        -1.0,
        1e300,
        -1e300,
        5e-324,
        -5e-324,
        2.2250738585072014e-308,
        2.225073858507201e-308,
        f64::MAX,
        f64::MIN,
    ];
    for a in cases {
        for b in cases {
            let expected = outcome(a.partial_cmp(&b).unwrap());
            assert_eq!(float(a).compare(float(b)), expected, "{a} {b}");
        }
    }
    assert_eq!(float(-0.0).compare(float(0.0)), Order::Equal);
}

#[test]
fn an_integer_and_a_double_compare_by_value() {
    let small = [0.0, -0.0, 0.5, -0.5, 1.0, -1.0, 1.5, 36.0, 36.5, -36.5, 5e-324, -5e-324];
    for i in [-37i128, -36, -1, 0, 1, 2, 36, 37] {
        for f in small {
            let expected = outcome((i as f64).partial_cmp(&f).unwrap());
            assert_eq!(Number::Int(i).compare(float(f)), expected, "{i} {f}");
            assert_eq!(float(f).compare(Number::Int(i)), expected.reverse(), "{f} {i}");
        }
    }
    let cases: Vec<(i128, f64, Order)> = vec![
        (0, -0.0, Order::Equal),
        (9007199254740992, 9007199254740992.0, Order::Equal),
        (9007199254740993, 9007199254740992.0, Order::Greater),
        (-9007199254740993, -9007199254740992.0, Order::Less),
        (9007199254740993, 9007199254740994.0, Order::Less),
        (4503599627370496, 4503599627370495.5, Order::Greater),
        (4503599627370495, 4503599627370495.5, Order::Less),
        (u64::MAX as i128, 18446744073709551616.0, Order::Less),
        (u64::MAX as i128 + 1, 18446744073709551616.0, Order::Equal),
        (i64::MIN as i128, -9223372036854775808.0, Order::Equal),
        (i128::MAX, 170141183460469231731687303715884105728.0, Order::Less),
        (i128::MIN, -170141183460469231731687303715884105728.0, Order::Equal),
        (i128::MAX, 1e300, Order::Less),
        (i128::MIN, -1e300, Order::Greater),
        (i128::MAX, 1e-300, Order::Greater),
        (1, 5e-324, Order::Greater),
        (-1, -5e-324, Order::Less),
    ];
    for (i, f, expected) in cases {
        assert_eq!(Number::Int(i).compare(float(f)), expected, "{i} {f}");
        assert_eq!(float(f).compare(Number::Int(i)), expected.reverse(), "{f} {i}");
    }
    for k in 0..127 {
        assert_eq!(Number::Int(1 << k).compare(float((1i128 << k) as f64)), Order::Equal);
    }
}

#[test]
fn numbers_are_equal_within_their_kind() {
    assert!(Number::Int(1) == Number::Int(1));
    assert!(Number::Int(1) != Number::Float(1.0f64.to_bits()));
    assert!(Number::Float(0.0f64.to_bits()) == Number::Float((-0.0f64).to_bits()));
    assert!(Number::Float(0.5f64.to_bits()) != Number::Float(0.25f64.to_bits()));
    assert!(Number::Int(9007199254740993) != Number::Int(9007199254740992));
}

#[test]
fn strings_compare_by_code_point() {
    let words = ["", "a", "aa", "ab", "b", "B", "é", "z", "\u{ffff}", "\u{10000}"];
    for a in words {
        for b in words {
            assert_eq!(compare_text(a, b), outcome(a.cmp(b)), "{a} {b}");
            assert_eq!(same_text(a, b), a == b);
            assert_eq!(compare_text(b, a), compare_text(a, b).reverse());
        }
    }
}

#[test]
fn strings_are_taken_apart() {
    assert_eq!(characters("aé"), vec!['a', 'é']);
    assert_eq!(split_once("é:b:c", ':'), Some(("é".to_string(), "b:c".to_string())));
    assert_eq!(split_once("abc", ':'), None);
    assert_eq!(split_once(":", ':'), Some(("".to_string(), "".to_string())));
    assert_eq!(split(",a,,é", ','), vec!["", "a", "", "é"]);
    assert_eq!(split("", ','), vec![""]);
    assert_eq!(surround("<", "x", ">"), "<x>");
}

#[test]
fn white_space_is_trimmed_at_both_ends() {
    for s in ["", " ", "a", " a b ", "\t\na\r\u{b}\u{c}", "\u{2003}é\u{85}", "\u{200b}a", "\u{1c}a"] {
        assert_eq!(trim(s), s.trim(), "{s:?}");
    }
}

#[test]
fn white_space_is_what_the_standard_library_says() {
    let listed = |c: char| {
        matches!(
            c,
            '\t'..='\r'
                | ' '
                | '\u{85}'
                | '\u{a0}'
                | '\u{1680}'
                | '\u{2000}'..='\u{200a}'
                | '\u{2028}'
                | '\u{2029}'
                | '\u{202f}'
                | '\u{205f}'
                | '\u{3000}'
        )
    };
    for c in '\0'..=char::MAX {
        assert_eq!(c.is_whitespace(), listed(c), "{c:?}");
        if c.is_whitespace() {
            assert_eq!(trim(&format!("{c}x{c}")), "x");
        }
    }
}

#[test]
fn substrings_are_found() {
    for hay in ["", "a", "aab", "abab", "éaé"] {
        for needle in ["", "a", "ab", "aab", "ba", "é", "aé", "abc"] {
            assert_eq!(contains_text(hay, needle), hay.contains(needle), "{hay} {needle}");
        }
    }
}

#[test]
fn numbers_are_written_in_decimal() {
    for n in [0, 9, 10, 99, 100, 1700000000, u64::MAX] {
        assert_eq!(write_decimal(n), n.to_string());
    }
}
