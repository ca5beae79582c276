use logos_core::Specification;

#[test]
fn test_default_priority() {
    // [a-zA-Z]+
    let specification = Specification::new_loop(1, None, Specification::ascii_alphabetic());
    assert_eq!(specification.default_priority(), 2);

    // foobar
    let specification = Specification::new_str_sequence("foobar");
    assert_eq!(specification.default_priority(), 12);

    // (foo|hello)(bar)?
    let specification = Specification::new_sequence(vec![
        Specification::new_any(vec![
            Specification::new_str_sequence("foo"),
            Specification::new_str_sequence("hello"),
        ]),
        Specification::new_loop(0, Some(1), Specification::new_str_sequence("bar")),
    ]);
    assert_eq!(specification.default_priority(), 6);
}
