use dockui::text::{chars_of, line_spans, parse_i64_span, parse_u64_span, parse_u64_str, trim_span, word_spans};

fn pieces(cs: &Vec<char>, spans: &Vec<(usize, usize)>) -> Vec<String> {
    spans.iter().map(|&(a, b)| cs[a..b].iter().collect()).collect()
}

#[test]
fn words_split_on_unicode_whitespace() {
    let cs = chars_of("  usage_usec 42\u{a0}x\t\n y ");
    let spans = word_spans(&cs, 0, cs.len());
    assert_eq!(pieces(&cs, &spans), vec!["usage_usec", "42", "x", "y"]);
}

#[test]
fn lines_strip_one_carriage_return_before_newline() {
    let cs = chars_of("a\r\nb\n\nc\r");
    let spans = line_spans(&cs);
    assert_eq!(pieces(&cs, &spans), vec!["a", "b", "", "c\r"]);
    let empty = chars_of("");
    assert!(line_spans(&empty).is_empty());
    let one = chars_of("x\n");
    assert_eq!(pieces(&one, &line_spans(&one)), vec!["x"]);
}

#[test]
fn trim_removes_surrounding_whitespace() {
    let cs = chars_of(" \t 123\n");
    let (a, b) = trim_span(&cs, 0, cs.len());
    let s: String = cs[a..b].iter().collect();
    assert_eq!(s, "123");
}

#[test]
fn u64_parsing_matches_std() {
    for s in ["0", "42", "+7", "18446744073709551615", "18446744073709551616", "", "+", "-1", " 1", "1x", "007"] {
        assert_eq!(parse_u64_str(s), s.parse::<u64>().ok(), "input {:?}", s);
    }
}

#[test]
fn i64_parsing_matches_std() {
    for s in ["0", "-5", "+5", "-9223372036854775808", "9223372036854775807", "9223372036854775808", "-9223372036854775809", "-", "--1", "1-"] {
        let cs = chars_of(s);
        assert_eq!(parse_i64_span(&cs, 0, cs.len()), s.parse::<i64>().ok(), "input {:?}", s);
    }
    let cs = chars_of("x17y");
    assert_eq!(parse_u64_span(&cs, 1, 3), Some(17));
}
