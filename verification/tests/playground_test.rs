use logos_core::interpreter::{Interpreter, Token};
use logos_core::{Lexer, SimpleVariantMatch, Specification};

fn lex_all<'a>(lexer: &'a Lexer<SimpleVariantMatch<'a>>, source: &'a [u8]) -> Vec<(Result<&'a str, ()>, &'a [u8], std::ops::Range<usize>)> {
    let mut interpreter = Interpreter::new(lexer, source).unwrap();
    let mut out = Vec::new();
    loop {
        let start = interpreter.current_idx;
        match interpreter.next() {
            None => break,
            Some(Ok(Token { name, value })) => out.push((Ok(name), value, start..interpreter.current_idx)),
            Some(Err(())) => out.push((Err(()), &source[start..interpreter.current_idx], start..interpreter.current_idx)),
        }
    }
    out
}

fn with_default_priority<'a>(name: &'a str, specification: Specification) -> (Specification, SimpleVariantMatch<'a>) {
    let priority = specification.default_priority();
    (specification, SimpleVariantMatch::new(name, priority))
}

#[test]
fn test_other() {
    let lexer = Lexer::new(vec![
        with_default_priority("Foo", Specification::new_str_sequence("foo")),
        with_default_priority("Bar", Specification::new_str_sequence("bar")),
        with_default_priority("Number", Specification::new_loop(1, None, Specification::ascii_digit())),
        with_default_priority(
            "AbcDefGhi",
            Specification::new_sequence(vec![
                Specification::new_any(vec![Specification::Byte(b'a'), Specification::Byte(b'b'), Specification::Byte(b'c')]),
                Specification::new_any(vec![Specification::Byte(b'd'), Specification::Byte(b'e'), Specification::Byte(b'f')]),
                Specification::new_any(vec![Specification::Byte(b'g'), Specification::Byte(b'h'), Specification::Byte(b'i')]),
            ]),
        ),
        with_default_priority("Text", Specification::new_loop(1, None, Specification::ascii_alphabetic())),
    ])
    .unwrap();

    assert_eq!(lex_all(&lexer, b"foo"), vec![(Ok("Foo"), &b"foo"[..], 0..3)]);
}

#[test]
fn test_priority() {
    let lexer = Lexer::new(vec![
        with_default_priority("Accessor", Specification::new_str_sequence(".")),
        with_default_priority("Ellipsis", Specification::new_str_sequence("...")),
        with_default_priority("skip", Specification::new_str_sequence(" ")),
    ])
    .unwrap();

    let tokens: Vec<_> = lex_all(&lexer, b". .. ...")
        .into_iter()
        .filter(|(name, _, _)| *name != Ok("skip"))
        .collect();

    assert_eq!(
        tokens,
        vec![
            (Ok("Accessor"), &b"."[..], 0..1),
            (Ok("Accessor"), &b"."[..], 2..3),
            (Ok("Accessor"), &b"."[..], 3..4),
            (Ok("Ellipsis"), &b"..."[..], 5..8),
        ]
    );
}
