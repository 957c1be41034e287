use airfoil_panel::text::{chars_of, is_whitespace, line_ranges, string_of, token_ranges, trim_range};

fn lines_by_ranges(s: &str) -> Vec<String> {
    let v = chars_of(s);
    line_ranges(&v).iter().map(|&(a, b)| string_of(&v, a, b)).collect()
}

#[test]
fn whitespace_matches_std() {
    for c in ['\t', '\n', '\u{b}', '\u{c}', '\r', ' ', '\u{85}', '\u{a0}', '\u{1680}', '\u{2000}',
        '\u{200a}', '\u{2028}', '\u{2029}', '\u{202f}', '\u{205f}', '\u{3000}', 'a', '0', '\u{200b}',
        '\u{feff}', '\u{180e}', '#']
    {
        assert_eq!(is_whitespace(c), c.is_whitespace(), "{:?}", c);
    }
}

#[test]
fn chars_round_trip() {
    let s = "héllo wörld ✈";
    let v = chars_of(s);
    assert_eq!(v, s.chars().collect::<Vec<char>>());
    assert_eq!(string_of(&v, 0, v.len()), s);
}

#[test]
fn lines_match_std() {
    for s in ["", "\n", "a", "a\n", "a\nb", "a\r\nb\r\n", "a\r", "\r\n", "a\n\nb\n\n", "x\ry\n"] {
        let std_lines: Vec<String> = s.lines().map(|l| l.to_string()).collect();
        assert_eq!(lines_by_ranges(s), std_lines, "{:?}", s);
    }
}

#[test]
fn trim_matches_std() {
    for s in ["", "   ", " a ", "a", "\t\u{3000}b c\r", "x  "] {
        let v = chars_of(s);
        let (a, b) = trim_range(&v, 0, v.len());
        assert_eq!(string_of(&v, a, b), s.trim(), "{:?}", s);
    }
}

#[test]
fn tokens_match_std() {
    for s in ["", " ", "a", " a  b ", "1.0\t2.0", "a\u{a0}b\u{2003}c"] {
        let v = chars_of(s);
        let toks: Vec<String> = token_ranges(&v).iter().map(|&(a, b)| string_of(&v, a, b)).collect();
        let std_toks: Vec<String> = s.split_whitespace().map(|t| t.to_string()).collect();
        assert_eq!(toks, std_toks, "{:?}", s);
    }
}
