use rustgit::text::{char_is_space, chars_of, compare_chars, Order};

fn compare(a: &str, b: &str) -> Order {
    compare_chars(&chars_of(a), &chars_of(b))
}

#[test]
fn white_space_is_unicode_white_space() {
    for code in 0..=0x10FFFFu32 {
        if let Some(c) = char::from_u32(code) {
            assert_eq!(char_is_space(c), c.is_whitespace(), "U+{:04X}", code);
        }
    }
}

#[test]
fn chars_of_lists_the_characters() {
    assert_eq!(chars_of(""), Vec::<char>::new());
    assert_eq!(chars_of("a/ü"), vec!['a', '/', 'ü']);
}

#[test]
fn compare_is_lexicographic() {
    assert_eq!(compare("", ""), Order::Same);
    assert_eq!(compare("", "a"), Order::Before);
    assert_eq!(compare("a", ""), Order::After);
    assert_eq!(compare("abc", "abd"), Order::Before);
    assert_eq!(compare("abd", "abc"), Order::After);
    assert_eq!(compare("ab", "abc"), Order::Before);
    assert_eq!(compare("abc", "abc"), Order::Same);
    assert_eq!(compare("/a-b", "/a/b"), Order::Before);
    assert_eq!(compare("Z", "a"), Order::Before);
}

#[test]
fn compare_agrees_with_the_order_of_strings() {
    let samples = [
        "", "a", "ab", "abc", "b", "/home/u/a", "/home/u/a-b", "/home/u/a/b", "/home/u/ab",
        "é", "e", "z", "日本", "~", "A", "a b", "a\tb",
    ];
    for a in samples {
        for b in samples {
            let expected = if a < b {
                Order::Before
            } else if a == b {
                Order::Same
            } else {
                Order::After
            };
            assert_eq!(compare(a, b), expected, "{:?} against {:?}", a, b);
        }
    }
}
