use logos_core::runtime::Lexer;

#[test]
fn runtime_lexer_tracks_the_token() {
    let mut lexer = Lexer::new("foobar");
    assert_eq!(lexer.current_end(), 0);
    lexer.bump_unchecked(3);
    assert_eq!(lexer.current_end(), 3);
    lexer.trivia();
    lexer.bump_unchecked(2);
    assert_eq!(lexer.current_end(), 5);
    lexer.set_end_unchecked(6);
    assert_eq!(lexer.current_end(), 6);
}
