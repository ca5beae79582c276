use logos_core::parser::{parse_regex, parse_token, specification_from_regex};
use logos_core::regex::{Regex, Repetition};
use logos_core::Specification;

fn show(s: &Specification) -> String {
    match s {
        Specification::Byte(b) => format!("{}", b),
        Specification::Sequence(q) => format!(
            "seq({})",
            q.specifications.iter().map(show).collect::<Vec<_>>().join(",")
        ),
        Specification::Any(a) => format!(
            "any({})",
            a.specifications.iter().map(show).collect::<Vec<_>>().join(",")
        ),
        Specification::Loop(l) => format!("loop({},{:?},{})", l.min, l.max, show(&l.specification)),
    }
}

#[test]
fn parse_token_gives_bytes_and_priority() {
    let (s, p) = parse_token("foo").unwrap();
    assert_eq!(show(&s), "seq(102,111,111)");
    assert_eq!(p, 6);
    let (s, p) = parse_token("x").unwrap();
    assert_eq!(show(&s), "120");
    assert_eq!(p, 2);
}

#[test]
fn parse_regex_gives_specification_and_priority() {
    let (s, p) = parse_regex("[0-9]+").unwrap();
    assert_eq!(show(&s), "loop(1,None,any(48,49,50,51,52,53,54,55,56,57))");
    assert_eq!(p, 2);
    let (s, p) = parse_regex("a*?b").unwrap();
    assert_eq!(show(&s), "seq(loop(0,None,seq(97)),seq(98))");
    assert_eq!(p, 2);
}

#[test]
fn parse_regex_refuses_bad_patterns() {
    assert_eq!(parse_regex("(").err(), Some(()));
    assert_eq!(parse_regex("^a").err(), Some(()));
}

#[test]
fn lenient_reading_keeps_non_greedy_loops() {
    let r = Regex::Repetition(Repetition {
        min: 0,
        max: None,
        greedy: false,
        sub: Box::new(Regex::Bytes(vec![(0, 255)])),
    });
    let s = specification_from_regex(&r).unwrap();
    assert!(show(&s).starts_with("loop(0,None,any(0,1,2"));
    assert!(specification_from_regex(&Regex::Concat(vec![Regex::Empty, Regex::Look])).is_none());
}

#[test]
fn checked_default_priority_reports_overflow() {
    let s = Specification::new_loop(usize::MAX, None, Specification::Byte(b'a'));
    assert_eq!(s.checked_default_priority(), None);
    let s = Specification::new_loop(3, None, Specification::new_str_sequence("ab"));
    assert_eq!(s.checked_default_priority(), Some(12));
}
