use mdrag::text::{
    decimal_chars, fits_in_bytes, from_chars, hex_chars, is_blank_vec, is_whitespace,
    line_spans, to_chars, trim_bounds, utf8_width,
};

fn samples() -> Vec<&'static str> {
    vec![
        "",
        "\n",
        "\n\n",
        "a",
        "a\n",
        "a\nb",
        "a\r\nb\r\n",
        "a\r",
        "a\rb\n",
        "\r\n",
        "\r\r\n",
        "  padded  \n\tline\t\n",
        "# h\n\n## x\r\ny",
        "日本語\nテキスト\r\n",
        "\u{3000}wide space\u{3000}",
        "\u{85}next line\u{2028}",
        "trailing\n\n\n",
    ]
}

#[test]
fn whitespace_matches_std_for_every_char() {
    for u in 0u32..=0x10ffff {
        if let Some(c) = char::from_u32(u) {
            assert_eq!(is_whitespace(c), c.is_whitespace(), "char {:#x}", u);
        }
    }
}

#[test]
fn lines_match_std() {
    for s in samples() {
        let v = to_chars(s);
        let spans = line_spans(&v);
        let ours: Vec<String> = spans
            .iter()
            .map(|&(a, b)| v[a..b].iter().collect::<String>())
            .collect();
        let std_lines: Vec<String> = s.lines().map(|l| l.to_string()).collect();
        assert_eq!(ours, std_lines, "input {:?}", s);
    }
}

#[test]
fn trim_matches_std() {
    for s in samples() {
        let v = to_chars(s);
        let (a, b) = trim_bounds(&v);
        let ours: String = v[a..b].iter().collect();
        assert_eq!(ours, s.trim(), "input {:?}", s);
        assert_eq!(is_blank_vec(&v), s.trim().is_empty(), "input {:?}", s);
    }
}

#[test]
fn conversions_round_trip() {
    for s in samples() {
        let v = to_chars(s);
        assert_eq!(v, s.chars().collect::<Vec<char>>());
        assert_eq!(from_chars(&v), s);
    }
}

#[test]
fn byte_lengths_match_utf8() {
    for s in samples() {
        let v = to_chars(s);
        let total: usize = v.iter().map(|&c| utf8_width(c)).sum();
        assert_eq!(total, s.len());
        assert!(fits_in_bytes(&v, s.len()));
        if !s.is_empty() {
            assert!(!fits_in_bytes(&v, s.len() - 1));
        }
    }
    assert_eq!(utf8_width('a'), 1);
    assert_eq!(utf8_width('é'), 2);
    assert_eq!(utf8_width('語'), 3);
    assert_eq!(utf8_width('😀'), 4);
}

#[test]
fn numbers_match_format() {
    for n in [0u64, 1, 9, 10, 15, 16, 255, 256, 4095, 4096, 65535, 1234567890, u64::MAX] {
        assert_eq!(decimal_chars(n).iter().collect::<String>(), format!("{}", n));
        assert_eq!(hex_chars(n).iter().collect::<String>(), format!("{:x}", n));
    }
}
