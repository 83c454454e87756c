use regex::ast::parser::Parser;
use regex::ast::{Ast, Repetition};
use regex::error::ErrorKind;

#[test]
fn test_parser() {
    let mut parser = Parser::new("a|b");
    let ast = parser.parse().unwrap();

    // assertion
    assert_eq!(
        ast,
        Ast::Alternate(vec![Ast::Literal('a'), Ast::Literal('b')])
    );

    parser = Parser::new("a|b|c");
    let ast = parser.parse().unwrap();
    assert_eq!(
        ast,
        Ast::Alternate(vec![
            Ast::Literal('a'),
            Ast::Literal('b'),
            Ast::Literal('c')
        ])
    );

    parser = Parser::new("a(bc|d)");
    let ast = parser.parse().unwrap();
    assert_eq!(
        ast,
        Ast::Concat(vec![
            Ast::Literal('a'),
            Ast::Alternate(vec![
                Ast::Concat(vec![Ast::Literal('b'), Ast::Literal('c')]),
                Ast::Literal('d')
            ])
        ])
    );

    parser = Parser::new("((a|b)+)*");
    let ast = parser.parse().unwrap();
    assert_eq!(
        ast,
        Ast::Repetition(Repetition {
            ast: Box::new(Ast::Repetition(Repetition {
                ast: Box::new(Ast::Alternate(vec![
                    Ast::Literal('a'),
                    Ast::Literal('b')
                ])),
                min: 1,
                max: None
            })),
            min: 0,
            max: None
        })
    );
}

#[test]
fn question_mark_is_zero_or_one() {
    let mut parser = Parser::new("a?");
    assert_eq!(
        parser.parse().unwrap(),
        Ast::Repetition(Repetition { ast: Box::new(Ast::Literal('a')), min: 0, max: Some(1) })
    );
}

#[test]
fn parse_errors() {
    for pattern in ["a(b", "a)b", "", "|a", "a|", "(a", "+"] {
        let mut parser = Parser::new(pattern);
        match parser.parse() {
            Ok(ast) => panic!("{:?} parsed as {:?}", pattern, ast),
            Err(e) => assert!(matches!(e.kind(), ErrorKind::ParseError(_)), "{}", pattern),
        }
    }
}
