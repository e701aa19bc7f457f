use sys_dashboard::text::{float_text_ok, is_whitespace, push_decimal, titlecase, trim};

#[test]
fn trim_removes_unicode_whitespace_at_both_ends() {
    assert_eq!(trim("  a b  "), "a b");
    assert_eq!(trim("\u{85}\u{2028}x\u{205f}"), "x");
    assert_eq!(trim("\u{200b}x"), "\u{200b}x");
    assert_eq!(trim(""), "");
    assert_eq!(trim(" \t "), "");
}

#[test]
fn whitespace_matches_std() {
    for u in 0u32..0x3100 {
        if let Some(c) = char::from_u32(u) {
            assert_eq!(is_whitespace(c), c.is_whitespace(), "U+{:04X}", u);
        }
    }
}

#[test]
fn titlecase_capitalises_the_first_character_only() {
    assert_eq!(titlecase("kajaani"), "Kajaani");
    assert_eq!(titlecase("jyväskylä"), "Jyväskylä");
    assert_eq!(titlecase("äänekoski"), "Äänekoski");
    assert_eq!(titlecase("helsinki CITY"), "Helsinki CITY");
    assert_eq!(titlecase("ßa"), "SSa");
    assert_eq!(titlecase(""), "");
}

#[test]
fn float_texts_follow_the_std_grammar() {
    let samples = [
        "15.5", "-2", "+.5", "5.", "1e3", "1E-3", "2.5e+10", "inf", "-Infinity", "NaN", "nan",
        "+nAn", "", ".", "-", "e5", "1e", "1e+", "1.2.3", " 1", "1 ", "abc", "0x10", "1_0",
        "infinit", "١", "3.0", "00012", "-0.0e-0",
    ];
    for s in samples {
        assert_eq!(float_text_ok(s), s.parse::<f32>().is_ok(), "{:?}", s);
    }
}

#[test]
fn decimal_rendering() {
    let mut s = String::from("at ");
    push_decimal(&mut s, 0);
    assert_eq!(s, "at 0");
    let mut t = String::new();
    push_decimal(&mut t, 18446744073709551615);
    assert_eq!(t, "18446744073709551615");
    let mut u = String::new();
    push_decimal(&mut u, 1050);
    assert_eq!(u, "1050");
}
