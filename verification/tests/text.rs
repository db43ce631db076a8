use scrambler::number::push_decimal;
use scrambler::scan::{char_is_space, to_chars};

#[test]
fn white_space_is_what_unicode_says() {
    for code in 0..=0x10ffffu32 {
        if let Some(c) = char::from_u32(code) {
            assert_eq!(char_is_space(c), c.is_whitespace(), "U+{code:04X}");
        }
    }
}

#[test]
fn chars_come_one_by_one() {
    assert_eq!(to_chars(""), Vec::<char>::new());
    assert_eq!(to_chars("a/é\n漢"), vec!['a', '/', 'é', '\n', '漢']);
}

#[test]
fn decimals_have_no_leading_zeros() {
    for (n, text) in [
        (0u32, "0"),
        (7, "7"),
        (10, "10"),
        (255, "255"),
        (1000, "1000"),
        (4294967295, "4294967295"),
    ] {
        let mut out = String::new();
        push_decimal(&mut out, n);
        assert_eq!(out, text);
    }
}

#[test]
fn decimals_are_appended() {
    let mut out = String::from("n = ");
    push_decimal(&mut out, 42);
    push_decimal(&mut out, 0);
    assert_eq!(out, "n = 420");
}

#[test]
fn decimals_are_what_std_prints() {
    for n in (0..100_000u32).chain([u32::MAX - 1, u32::MAX]) {
        let mut out = String::new();
        push_decimal(&mut out, n);
        assert_eq!(out, n.to_string());
    }
}
