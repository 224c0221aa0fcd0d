use ccx_runner::text::{chars_of, is_float_text, parse_u32, trim_chars, word_bounds};

fn s(v: &[char]) -> String {
    v.iter().collect()
}

#[test]
fn trim_removes_unicode_whitespace() {
    let v = chars_of("\u{3000}\t a b \u{a0}\r\n");
    assert_eq!(s(&trim_chars(&v)), "a b");
    assert_eq!(s(&trim_chars(&chars_of("   "))), "");
}

#[test]
fn words_split_on_whitespace() {
    let v = chars_of("  increment 7\u{2003}of\t2  ");
    let w: Vec<String> = word_bounds(&v, 0, v.len()).iter().map(|&(a, b)| s(&v[a..b])).collect();
    assert_eq!(w, vec!["increment", "7", "of", "2"]);
    assert!(word_bounds(&chars_of(" \t "), 0, 3).is_empty());
}

#[test]
fn u32_parsing_matches_std() {
    for t in ["0", "42", "+7", "4294967295", "4294967296", "-1", "", "+", "1a", " 1", "007"] {
        assert_eq!(parse_u32(&chars_of(t)), t.parse::<u32>().ok(), "{:?}", t);
    }
}

#[test]
fn float_literals_match_std() {
    for t in [
        "0", "0.005", "1.", ".5", "1e5", "1E-3", "-2.5e+10", "+inf", "-Infinity", "NaN", "inf",
        ".", "e5", "1e", "1.2.3", "1e5.0", "--1", "0x10", " 1", "1 ", "", "+", "infinit", "1_0",
        "5e+", ".e1", "1.e1",
    ] {
        assert_eq!(is_float_text(&chars_of(t)), t.parse::<f64>().is_ok(), "{:?}", t);
    }
}
