use cce_map::text::{replace, to_decimal};

#[test]
fn decimal_numerals() {
    assert_eq!(to_decimal(0), "0");
    assert_eq!(to_decimal(9), "9");
    assert_eq!(to_decimal(10), "10");
    assert_eq!(to_decimal(100), "100");
    assert_eq!(to_decimal(524287), "524287");
    assert_eq!(to_decimal(4294967295), "4294967295");
}

#[test]
fn numerals_agree_with_std() {
    for n in [0u32, 1, 11, 99, 101, 1000, 65535, 65536, 1234567890] {
        assert_eq!(to_decimal(n), n.to_string());
    }
}

#[test]
fn replace_agrees_with_std() {
    let cases = [
        ("", "a", "b"),
        ("aaa", "aa", "b"),
        ("{z}{z}", "{z}", "7"),
        ("{{z}", "{z}", "7"),
        ("no placeholder", "{z}", "7"),
        ("\u{e9}{z}\u{4e16}", "{z}", "\u{754c}"),
        ("abab", "ab", "abab"),
        ("ab", "abc", "x"),
    ];
    for (s, pat, with) in cases {
        assert_eq!(replace(s, pat, with), s.replace(pat, with));
    }
}
