use flow::order::{rank, Rank};
use flow::text::{
    char_is_name, char_is_space, chars_of, join, lines, string_of, trim, trim_bounds,
};

#[test]
fn chars_and_strings_convert_both_ways() {
    let chars = chars_of("a\u{e9}\u{1f600}b");
    assert_eq!(chars, vec!['a', '\u{e9}', '\u{1f600}', 'b']);
    assert_eq!(string_of(&chars, 0, 4), "a\u{e9}\u{1f600}b");
    assert_eq!(string_of(&chars, 1, 3), "\u{e9}\u{1f600}");
    assert_eq!(string_of(&chars, 2, 2), "");
    assert_eq!(chars_of(""), Vec::<char>::new());
}

#[test]
fn white_space_is_what_std_takes_for_it() {
    let mut code: u32 = 0;
    while code <= 0x10ffff {
        if let Some(c) = char::from_u32(code) {
            assert_eq!(char_is_space(c), c.is_whitespace(), "character {:#x}", code);
            assert_eq!(
                char_is_name(c),
                c.is_ascii_alphanumeric() || c == '_',
                "character {:#x}",
                code
            );
        }
        code += 1;
    }
}

#[test]
fn join_puts_the_separator_between_items() {
    let items = vec!["a".to_string(), "".to_string(), "c".to_string()];
    assert_eq!(join(&items, ", "), "a, , c");
    assert_eq!(join(&items[..1].to_vec(), ", "), "a");
    assert_eq!(join(&Vec::new(), ", "), "");
    assert_eq!(join(&items, ""), "ac");
}

#[test]
fn lines_are_what_std_takes_for_them() {
    assert_eq!(lines("a\nb"), vec!["a", "b"]);
    assert_eq!(lines("a\r\nb\n"), vec!["a", "b"]);
    assert_eq!(lines(""), Vec::<String>::new());
    assert_eq!(lines("\n"), vec![""]);
    for text in ["", "a", "a\n", "\n\n", "a\r", "a\r\n", "\r\n\r\n", "a\rb\n", "x\n\ny", "\r", "a\n\r"] {
        let expected: Vec<String> = text.lines().map(|l| l.to_string()).collect();
        assert_eq!(lines(text), expected, "text {:?}", text);
    }
}

#[test]
fn trim_takes_white_space_away_at_both_ends() {
    assert_eq!(trim("  a b  "), "a b");
    assert_eq!(trim("\u{a0}\tx\u{3000}\n"), "x");
    assert_eq!(trim("   "), "");
    assert_eq!(trim(""), "");
    assert_eq!(trim("x"), "x");
    let chars = chars_of(" ab  c ");
    assert_eq!(trim_bounds(&chars, 0, 7), (1, 6));
    assert_eq!(trim_bounds(&chars, 3, 5), (5, 5));
    assert_eq!(trim_bounds(&chars, 2, 6), (2, 6));
}

#[test]
fn rank_orders_as_strings_are_ordered() {
    let words = ["", "a", "ab", "abc", "b", "B", "_", "0", "a0", "\u{e9}", "z\u{e9}"];
    for x in words {
        for y in words {
            let expected = if x < y {
                Rank::Before
            } else if x == y {
                Rank::Same
            } else {
                Rank::After
            };
            assert_eq!(rank(&chars_of(x), &chars_of(y)), expected, "{:?} and {:?}", x, y);
        }
    }
}
