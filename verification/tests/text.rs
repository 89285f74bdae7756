use ray_tracer::text::{
    is_float_text, is_whitespace, parse_usize, push_decimal, split_at_char, split_lines,
    split_words, trimmed,
};

fn chars(s: &str) -> Vec<char> {
    s.chars().collect()
}

fn strings(parts: Vec<Vec<char>>) -> Vec<String> {
    parts.into_iter().map(|p| p.into_iter().collect()).collect()
}

#[test]
fn decimal_text_reads_back() {
    for n in [0usize, 7, 10, 255, 1000, 123456789, usize::MAX] {
        let mut out = Vec::new();
        push_decimal(&mut out, n);
        assert_eq!(out.iter().collect::<String>(), n.to_string());
        assert_eq!(parse_usize(&out), Some(n));
    }
}

#[test]
fn parse_usize_follows_from_str() {
    assert_eq!(parse_usize(&chars("+12")), Some(12));
    assert_eq!(parse_usize(&chars("007")), Some(7));
    assert_eq!(parse_usize(&chars("")), None);
    assert_eq!(parse_usize(&chars("+")), None);
    assert_eq!(parse_usize(&chars("-1")), None);
    assert_eq!(parse_usize(&chars("1 ")), None);
    assert_eq!(parse_usize(&chars("18446744073709551616")), None);
}

#[test]
fn splitting_text() {
    assert_eq!(strings(split_lines(&chars("a\r\nb\n\nc"))), vec!["a", "b", "", "c"]);
    assert_eq!(strings(split_lines(&chars("a\n"))), vec!["a"]);
    assert!(split_lines(&chars("")).is_empty());
    assert_eq!(strings(split_words(&chars("  f 1\t2 \u{3000}3 "))), vec!["f", "1", "2", "3"]);
    assert_eq!(strings(split_at_char(&chars("1//3"), '/')), vec!["1", "", "3"]);
    assert_eq!(trimmed(&chars(" \t x y \n")), chars("x y"));
}

#[test]
fn whitespace_and_float_text() {
    assert!(is_whitespace(' ') && is_whitespace('\u{85}') && is_whitespace('\u{2009}'));
    assert!(!is_whitespace('x') && !is_whitespace('\u{200B}'));
    for good in ["1", "-0.5", "+.5", "5.", "1e10", "1E-3", "inf", "-Infinity", "NaN"] {
        assert!(is_float_text(&chars(good)), "{}", good);
        assert!(good.parse::<f64>().is_ok());
    }
    for bad in ["", ".", "e1", "1e", "1.2.3", "in", "nan1", "0x1"] {
        assert!(!is_float_text(&chars(bad)), "{}", bad);
        assert!(bad.parse::<f64>().is_err());
    }
}
