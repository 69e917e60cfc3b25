use germi::text::{
    char_width, compare_chars, contains_char, from_chars, push_chars, push_decimal, to_chars, Order,
};

fn chars(s: &str) -> Vec<char> {
    s.chars().collect()
}

fn order(a: &str, b: &str) -> Order {
    compare_chars(&chars(a), &chars(b))
}

#[test]
fn to_chars_and_back() {
    for text in ["", "abc", "Héllo Wörld 🚀", "\n\t\\"] {
        let v = to_chars(text);
        assert_eq!(v, chars(text));
        assert_eq!(from_chars(&v), text);
    }
}

#[test]
fn push_chars_appends() {
    let mut buf = String::from("ab");
    push_chars(&mut buf, &chars("cdé"));
    assert_eq!(buf, "abcdé");
    push_chars(&mut buf, &[]);
    assert_eq!(buf, "abcdé");
}

#[test]
fn char_width_is_the_encoded_length() {
    for c in ['a', '\u{7f}', '\u{80}', 'é', '\u{7ff}', '\u{800}', '€', '\u{ffff}', '\u{10000}', '🚀', '\u{10ffff}', '\0'] {
        assert_eq!(char_width(c), c.len_utf8());
    }
    assert_eq!(char_width('a'), 1);
    assert_eq!(char_width('é'), 2);
    assert_eq!(char_width('€'), 3);
    assert_eq!(char_width('🚀'), 4);
}

#[test]
fn contains_char_finds_it() {
    assert!(contains_char(&chars(r"a\b"), '\\'));
    assert!(!contains_char(&chars("a/b"), '\\'));
    assert!(!contains_char(&[], 'a'));
}

#[test]
fn push_decimal_writes_base_ten() {
    for n in [0usize, 7, 9, 10, 11, 99, 100, 101, 12345, 1000000, usize::MAX] {
        let mut buf = String::from("n=");
        push_decimal(&mut buf, n);
        assert_eq!(buf, format!("n={}", n));
    }
}

#[test]
fn compare_chars_is_lexicographic() {
    assert_eq!(order("", ""), Order::Same);
    assert_eq!(order("", "a"), Order::Below);
    assert_eq!(order("a", ""), Order::Above);
    assert_eq!(order("abc", "abc"), Order::Same);
    assert_eq!(order("abc", "abd"), Order::Below);
    assert_eq!(order("abd", "abc"), Order::Above);
    assert_eq!(order("ab", "abc"), Order::Below);
    assert_eq!(order("abc", "ab"), Order::Above);
    assert_eq!(order("B", "a"), Order::Below);
    assert_eq!(order("Z", "é"), Order::Below);
    assert_eq!(order("é", "🚀"), Order::Below);
}

#[test]
fn compare_chars_orders_as_strings_do() {
    let words = ["", "A", "A${B}", "DB_HOST", "DB_NAME", "a", "ab", "b", "é", "€", "🚀", "_", "1"];
    for a in words {
        for b in words {
            let expected = match a.cmp(b) {
                std::cmp::Ordering::Less => Order::Below,
                std::cmp::Ordering::Equal => Order::Same,
                std::cmp::Ordering::Greater => Order::Above,
            };
            assert_eq!(order(a, b), expected, "{:?} against {:?}", a, b);
        }
    }
}
