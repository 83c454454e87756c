use regex::ast::lexer::{Lexer, Token};

#[test]
fn test_lexer() {
    let mut lexer = Lexer::new("a|b");
    assert_eq!(lexer.next_token(), Token::Character('a'));
    assert_eq!(lexer.next_token(), Token::AlternateOperator);
    assert_eq!(lexer.next_token(), Token::Character('b'));
    assert_eq!(lexer.next_token(), Token::EndOfFile);

    lexer = Lexer::new("a*");
    assert_eq!(lexer.next_token(), Token::Character('a'));
    assert_eq!(lexer.next_token(), Token::StarOperator);
    assert_eq!(lexer.next_token(), Token::EndOfFile);

    lexer = Lexer::new("a+");
    assert_eq!(lexer.next_token(), Token::Character('a'));
    assert_eq!(lexer.next_token(), Token::PlusOperator);
    assert_eq!(lexer.next_token(), Token::EndOfFile);

    lexer = Lexer::new("a?");
    assert_eq!(lexer.next_token(), Token::Character('a'));
    assert_eq!(lexer.next_token(), Token::QuestionOperator);
    assert_eq!(lexer.next_token(), Token::EndOfFile);

    lexer = Lexer::new("(a)");
    assert_eq!(lexer.next_token(), Token::OpenParenthesis);
    assert_eq!(lexer.next_token(), Token::Character('a'));
    assert_eq!(lexer.next_token(), Token::CloseParenthesis);
    assert_eq!(lexer.next_token(), Token::EndOfFile);
}

#[test]
fn test_peek() {
    let mut lexer = Lexer::new("abcde");
    assert_eq!(lexer.peek_token(), Token::Character('a'));
    assert_eq!(lexer.peek_token(), Token::Character('a'));
    assert_eq!(lexer.next_token(), Token::Character('a'));
    assert_eq!(lexer.next_token(), Token::Character('b'));
    assert_eq!(lexer.peek_token(), Token::Character('c'));
    lexer.next_token();
    lexer.next_token();
    assert_eq!(lexer.peek_token(), Token::Character('e'));
    assert_eq!(lexer.next_token(), Token::Character('e'));
    assert_eq!(lexer.peek_token(), Token::EndOfFile);
    assert_eq!(lexer.next_token(), Token::EndOfFile);
    assert_eq!(lexer.peek_token(), Token::EndOfFile);
    assert_eq!(lexer.next_token(), Token::EndOfFile);
}

#[test]
fn token_from_char() {
    assert_eq!(Token::from('|'), Token::AlternateOperator);
    assert_eq!(Token::from('*'), Token::StarOperator);
    assert_eq!(Token::from('+'), Token::PlusOperator);
    assert_eq!(Token::from('?'), Token::QuestionOperator);
    assert_eq!(Token::from('('), Token::OpenParenthesis);
    assert_eq!(Token::from(')'), Token::CloseParenthesis);
    assert_eq!(Token::from('x'), Token::Character('x'));
}

#[test]
fn empty_input_ends_at_once() {
    let mut lexer = Lexer::new("");
    assert_eq!(lexer.peek_token(), Token::EndOfFile);
    assert_eq!(lexer.next_token(), Token::EndOfFile);
}
