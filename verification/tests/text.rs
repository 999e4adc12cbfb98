use wordplay::letters::{chars_of, first_char, last_char};
use wordplay::text::{is_space_char, split_fields, split_lines, strip_cr, Span};

fn chars(s: &str) -> Vec<char> {
    s.chars().collect()
}

fn pieces(s: &str, spans: &[Span]) -> Vec<String> {
    let all = chars(s);
    spans.iter().map(|p| all[p.start..p.end].iter().collect()).collect()
}

#[test]
fn characters_of_a_string() {
    assert_eq!(chars_of("héllo"), vec!['h', 'é', 'l', 'l', 'o']);
    assert_eq!(chars_of(""), Vec::<char>::new());
}

#[test]
fn first_and_last_characters() {
    assert_eq!(first_char("stone"), Some('s'));
    assert_eq!(last_char("stone"), Some('e'));
    assert_eq!(first_char(""), None);
    assert_eq!(last_char(""), None);
    assert_eq!(last_char("é"), Some('é'));
}

#[test]
fn white_space_is_what_char_says() {
    for code in 0u32..0x3100 {
        if let Some(c) = char::from_u32(code) {
            assert_eq!(is_space_char(c), c.is_whitespace(), "U+{:04X}", code);
        }
    }
}

#[test]
fn fields_are_runs_without_white_space() {
    let s = "  cat 1.0\t-2  ";
    assert_eq!(pieces(s, &split_fields(&chars(s))), vec!["cat", "1.0", "-2"]);
    assert_eq!(split_fields(&chars("")), vec![]);
    assert_eq!(split_fields(&chars(" \t ")), vec![]);
    let t = "one";
    assert_eq!(split_fields(&chars(t)), vec![Span { start: 0, end: 3 }]);
}

#[test]
fn fields_match_split_whitespace() {
    for s in ["a b", " a  b ", "a\u{a0}b", "x", "", "a\nb\rc", "\u{3000}wide\u{2003}space"] {
        let expected: Vec<String> = s.split_whitespace().map(|w| w.to_string()).collect();
        assert_eq!(pieces(s, &split_fields(&chars(s))), expected);
    }
}

#[test]
fn lines_end_at_line_feeds() {
    for s in ["a\nb", "a\n", "\n", "", "a\n\nb", "a\n\n", "no newline", "\n\nx"] {
        let expected: Vec<String> = s.lines().map(|w| w.to_string()).collect();
        assert_eq!(pieces(s, &split_lines(&chars(s))), expected, "{:?}", s);
    }
}

#[test]
fn carriage_returns_are_dropped() {
    assert_eq!(strip_cr(&chars("a\r\nb\r")), chars("a\nb"));
    assert_eq!(strip_cr(&chars("\r\r")), chars(""));
    assert_eq!(strip_cr(&chars("abc")), chars("abc"));
}
