use logos_core::regex::{Regex, RegexError, Repetition};
use logos_core::Specification;

fn show(s: &Specification) -> String {
    match s {
        Specification::Byte(b) => format!("{}", b),
        Specification::Sequence(q) => format!(
            "seq({})",
            q.specifications.iter().map(show).collect::<Vec<_>>().join(",")
        ),
        Specification::Any(a) => format!(
            "any({})",
            a.specifications.iter().map(show).collect::<Vec<_>>().join(",")
        ),
        Specification::Loop(l) => format!("loop({},{:?},{})", l.min, l.max, show(&l.specification)),
    }
}

fn read(regex: &Regex) -> Result<String, RegexError> {
    Specification::try_from_regex(regex).map(|s| show(&s))
}

fn repeat(min: u32, max: Option<u32>, greedy: bool, sub: Regex) -> Regex {
    Regex::Repetition(Repetition { min, max, greedy, sub: Box::new(sub) })
}

#[test]
fn regex_empty_is_empty_sequence() {
    assert_eq!(read(&Regex::Empty), Ok("seq()".to_string()));
}

#[test]
fn regex_literal_is_sequence_of_bytes() {
    assert_eq!(read(&Regex::Literal(b"ab".to_vec())), Ok("seq(97,98)".to_string()));
}

#[test]
fn regex_byte_class_lists_each_byte() {
    let class = Regex::Bytes(vec![(b'a', b'c'), (b'x', b'x')]);
    assert_eq!(read(&class), Ok("any(97,98,99,120)".to_string()));
}

#[test]
fn regex_unicode_class_is_utf8_encoded() {
    let class = Regex::Unicode(vec![(0x61, 0x62), (0xE9, 0xE9), (0x20AC, 0x20AC), (0x1F600, 0x1F600)]);
    assert_eq!(
        read(&class),
        Ok("any(97,98,seq(195,169),seq(226,130,172),seq(240,159,152,128))".to_string())
    );
}

#[test]
fn regex_unicode_class_skips_surrogates() {
    let class = Regex::Unicode(vec![(0xD7FF, 0xE000)]);
    assert_eq!(read(&class), Ok("any(seq(237,159,191),seq(238,128,128))".to_string()));
}

#[test]
fn regex_repetition_is_loop() {
    let r = repeat(2, Some(5), true, Regex::Literal(b"a".to_vec()));
    assert_eq!(read(&r), Ok("loop(2,Some(5),seq(97))".to_string()));
    let r = repeat(0, None, true, Regex::Bytes(vec![(b'0', b'1')]));
    assert_eq!(read(&r), Ok("loop(0,None,any(48,49))".to_string()));
}

#[test]
fn regex_non_greedy_is_refused() {
    let r = repeat(0, None, false, Regex::Literal(b"a".to_vec()));
    assert_eq!(read(&r), Err(RegexError::NonGreedy));
}

#[test]
fn regex_greedy_dot_is_refused() {
    let any_char = Regex::Unicode(vec![(0, 0x10FFFF)]);
    assert_eq!(read(&repeat(0, None, true, any_char)), Err(RegexError::GreedyDot));
    let any_byte = Regex::Bytes(vec![(0, 255)]);
    assert_eq!(read(&repeat(1, None, true, any_byte)), Err(RegexError::GreedyDot));
}

#[test]
fn regex_bounded_or_long_dot_is_accepted() {
    let any_byte = || Regex::Bytes(vec![(0, 255)]);
    assert!(read(&repeat(2, None, true, any_byte())).is_ok());
    assert!(read(&repeat(0, Some(3), true, any_byte())).is_ok());
    let almost_any = Regex::Bytes(vec![(0, 9), (11, 255)]);
    assert!(read(&repeat(0, None, true, almost_any)).is_ok());
}

#[test]
fn regex_look_around_is_refused() {
    assert_eq!(read(&Regex::Look), Err(RegexError::LookAround));
    assert_eq!(read(&repeat(0, None, true, Regex::Look)), Err(RegexError::LookAround));
}

#[test]
fn regex_first_error_is_reported() {
    let r = Regex::Concat(vec![
        Regex::Literal(b"a".to_vec()),
        Regex::Look,
        repeat(0, None, false, Regex::Empty),
    ]);
    assert_eq!(read(&r), Err(RegexError::LookAround));
    let r = Regex::Alternation(vec![repeat(0, None, false, Regex::Look), Regex::Look]);
    assert_eq!(read(&r), Err(RegexError::NonGreedy));
}

#[test]
fn regex_capture_and_groups() {
    let r = Regex::Concat(vec![
        Regex::Capture(Box::new(Regex::Literal(b"ab".to_vec()))),
        Regex::Alternation(vec![Regex::Literal(b"c".to_vec()), Regex::Empty]),
    ]);
    assert_eq!(read(&r), Ok("seq(seq(97,98),any(seq(99),seq()))".to_string()));
}

#[test]
fn regex_error_messages() {
    assert_eq!(
        RegexError::NonGreedy.message(),
        "#[regex]: non-greedy parsing is currently unsupported."
    );
    assert_eq!(
        RegexError::LookAround.message(),
        "#[regex]: look-around assertions are currently unsupported."
    );
    assert!(RegexError::GreedyDot.message().starts_with("#[regex]: \".+\" and \".*\" patterns"));
}

#[test]
fn utf8_parses_patterns() {
    let s = Specification::utf8("a+").unwrap();
    assert_eq!(show(&s), "loop(1,None,seq(97))");
    let s = Specification::utf8("[a-c]").unwrap();
    assert_eq!(show(&s), "any(97,98,99)");
    let s = Specification::utf8("é").unwrap();
    assert_eq!(show(&s), "seq(195,169)");
}

#[test]
fn utf8_reports_parse_errors() {
    let e = Specification::utf8("a(").err().unwrap();
    assert!(e.contains("unclosed group"));
}

#[test]
fn utf8_reports_refusals() {
    assert_eq!(
        Specification::utf8("(?s).*").err(),
        Some(RegexError::GreedyDot.message().to_string())
    );
    assert_eq!(
        Specification::utf8("a*?").err(),
        Some(RegexError::NonGreedy.message().to_string())
    );
    assert_eq!(
        Specification::utf8("^a").err(),
        Some(RegexError::LookAround.message().to_string())
    );
}

#[test]
fn ignore_case_and_binary() {
    let s = Specification::utf8_ignore_case("a").unwrap();
    assert_eq!(show(&s), "any(65,97)");
    let s = Specification::binary("[a-b]").unwrap();
    assert_eq!(show(&s), "any(97,98)");
    let s = Specification::binary_ignore_case("a").unwrap();
    assert_eq!(show(&s), "any(65,97)");
    assert_eq!(
        Specification::binary("(?s).+").err(),
        Some(RegexError::GreedyDot.message().to_string())
    );
}
