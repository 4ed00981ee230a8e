use cronx::text::{is_ascii_white_space_char, is_white_space_char, split_lines, trim_chars};

#[test]
fn white_space_matches_std_for_every_char() {
    for c in (0u32..=0x10FFFF).filter_map(char::from_u32) {
        assert_eq!(is_white_space_char(c), c.is_whitespace(), "{:?}", c);
    }
}

#[test]
fn ascii_white_space_matches_std() {
    for b in 0u8..=127 {
        assert_eq!(is_ascii_white_space_char(b as char), b.is_ascii_whitespace(), "{}", b);
    }
}

#[test]
fn lines_match_std() {
    for s in ["", "a", "a\n", "a\nb", "a\r\nb\r\n", "\n\n", "x\r", "x\r\ny\r", "\r\n", "a\n\nb\n"] {
        let v: Vec<char> = s.chars().collect();
        let got: Vec<String> = split_lines(&v).iter().map(|l| l.iter().collect()).collect();
        let want: Vec<String> = s.lines().map(|l| l.to_string()).collect();
        assert_eq!(got, want, "{:?}", s);
    }
}

#[test]
fn trim_matches_std() {
    for s in ["", "  ", " a b ", "\u{3000}x\u{85}", "\r\nq\t"] {
        let v: Vec<char> = s.chars().collect();
        let got: String = trim_chars(&v).iter().collect();
        assert_eq!(got, s.trim());
    }
}
