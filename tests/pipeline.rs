use lisp_front::lexer::{render_tokens, tokenize, LexError, Token};
use lisp_front::lower::{parse_ast, Exp, LowerError};
use lisp_front::parser::{parse, parse_sexp, parse_sexp_list, ParseError, SExp};

fn id(s: &str) -> Token {
    Token::Id(s.to_string())
}

fn lower_text(text: &str) -> Result<Exp, LowerError> {
    let tokens = tokenize(text).unwrap();
    let sexp = parse(&tokens).unwrap();
    parse_ast(sexp)
}

fn nil_terminated(s: &SExp) -> bool {
    match s {
        SExp::Cons(h, t) => {
            nil_terminated(h) && matches!(**t, SExp::Nil | SExp::Cons(_, _)) && nil_terminated(t)
        }
        _ => true,
    }
}

#[test]
fn tokenize_addition() {
    let tokens = tokenize("(+ 1 2)").unwrap();
    assert_eq!(
        tokens,
        vec![Token::LParen, id("+"), Token::Int(1), Token::Int(2), Token::RParen]
    );
}

#[test]
fn tokenize_empty_and_blank() {
    assert_eq!(tokenize("").unwrap(), vec![]);
    assert_eq!(tokenize("  \t\n ").unwrap(), vec![]);
}

#[test]
fn tokenize_parens_need_no_spaces() {
    let tokens = tokenize("((a)b)").unwrap();
    assert_eq!(
        tokens,
        vec![
            Token::LParen,
            Token::LParen,
            id("a"),
            Token::RParen,
            id("b"),
            Token::RParen
        ]
    );
}

#[test]
fn tokenize_is_total_without_overflow() {
    let tokens = tokenize("(first (list 12 x1 1x 007))").unwrap();
    assert_eq!(tokens.len(), 10);
    assert_eq!(tokens[4], Token::Int(12));
    assert_eq!(tokens[5], id("x1"));
    assert_eq!(tokens[6], id("1x"));
    assert_eq!(tokens[7], Token::Int(7));
}

#[test]
fn tokenize_largest_number() {
    let text = usize::MAX.to_string();
    assert_eq!(tokenize(&text).unwrap(), vec![Token::Int(usize::MAX)]);
}

#[test]
fn tokenize_overflowing_number() {
    let text = format!("(+ 1 {}0)", usize::MAX);
    assert_eq!(tokenize(&text), Err(LexError::InvalidNumber));
    assert_eq!(
        tokenize("99999999999999999999999999"),
        Err(LexError::InvalidNumber)
    );
}

#[test]
fn tokenize_unicode_whitespace_separates() {
    let tokens = tokenize("a\u{00A0}b\u{3000}c").unwrap();
    assert_eq!(tokens, vec![id("a"), id("b"), id("c")]);
    let tokens = tokenize("\u{e9}t\u{e9}").unwrap();
    assert_eq!(tokens, vec![id("\u{e9}t\u{e9}")]);
}

#[test]
fn render_tokens_spaces_each_token() {
    let tokens = tokenize("(+ 10 (first  abc))").unwrap();
    assert_eq!(render_tokens(&tokens), "( + 10 ( first abc ) )");
    assert_eq!(render_tokens(&vec![]), "");
}

#[test]
fn retokenizing_rendering_is_stable() {
    let tokens = tokenize("(first\t(list 1   2 3)) x").unwrap();
    let again = tokenize(&render_tokens(&tokens)).unwrap();
    assert_eq!(again, tokens);
}

#[test]
fn lower_addition() {
    assert_eq!(
        lower_text("(+ 1 2)"),
        Ok(Exp::Plus(Box::new(Exp::Int(1)), Box::new(Exp::Int(2))))
    );
}

#[test]
fn lower_first_of_list() {
    assert_eq!(
        lower_text("(first (list 1 2 3))"),
        Ok(Exp::First(Box::new(Exp::List(vec![
            Exp::Int(1),
            Exp::Int(2),
            Exp::Int(3)
        ]))))
    );
}

#[test]
fn parse_missing_close_paren() {
    let tokens = tokenize("(+ 1").unwrap();
    assert_eq!(parse(&tokens), Err(ParseError::UnbalancedParens));
}

#[test]
fn lower_non_identifier_head() {
    assert_eq!(lower_text("(7 8)"), Err(LowerError::InvalidApplication));
    assert_eq!(lower_text("((a) 8)"), Err(LowerError::InvalidApplication));
}

#[test]
fn lower_unknown_form() {
    assert_eq!(lower_text("(unknown 1 2)"), Err(LowerError::UnsupportedForm));
}

#[test]
fn parse_empty_input() {
    assert_eq!(parse(&vec![]), Err(ParseError::EmptyInput));
}

#[test]
fn parse_unexpected_close_paren() {
    let tokens = tokenize(")").unwrap();
    assert_eq!(parse(&tokens), Err(ParseError::UnexpectedToken));
    let tokens = tokenize("(1 )").unwrap();
    assert!(parse(&tokens).is_ok());
}

#[test]
fn parse_unmatched_close_after_expression() {
    let tokens = tokenize("(a b))").unwrap();
    assert_eq!(parse(&tokens), Err(ParseError::UnbalancedParens));
}

#[test]
fn parse_builds_cons_chain() {
    let tokens = tokenize("(a 1)").unwrap();
    let expected = SExp::Cons(
        Box::new(SExp::Id("a".to_string())),
        Box::new(SExp::Cons(Box::new(SExp::Int(1)), Box::new(SExp::Nil))),
    );
    assert_eq!(parse(&tokens), Ok(expected));
}

#[test]
fn parse_cursor_moves_past_expression() {
    let tokens = tokenize("(a (b) c) d").unwrap();
    let mut pos: usize = 0;
    let e = parse_sexp(&tokens, &mut pos).unwrap();
    assert_eq!(pos, 7);
    assert!(nil_terminated(&e));
    let mut pos: usize = 1;
    let l = parse_sexp_list(&tokens, &mut pos).unwrap();
    assert_eq!(pos, 6);
    assert!(matches!(l, SExp::Cons(_, _)));
    let mut pos: usize = 7;
    assert_eq!(parse_sexp(&tokens, &mut pos), Ok(SExp::Id("d".to_string())));
    assert_eq!(pos, 8);
}

#[test]
fn parsed_trees_are_nil_terminated() {
    for text in ["(first (list 1 2 3))", "(((a)) (b c) ())", "x", "(+ (+ 1 2) 3)"] {
        let tokens = tokenize(text).unwrap();
        let e = parse(&tokens).unwrap();
        assert!(nil_terminated(&e));
    }
}

#[test]
fn lower_empty_list() {
    assert_eq!(lower_text("()"), Err(LowerError::UnexpectedNil));
    assert_eq!(lower_text("(list ())"), Err(LowerError::UnexpectedNil));
}

#[test]
fn lower_addition_arity() {
    assert_eq!(lower_text("(+ 1)"), Err(LowerError::ArityMismatch));
    assert_eq!(lower_text("(+ 1 2 3)"), Err(LowerError::ArityMismatch));
}

#[test]
fn lower_single_element_unwraps() {
    assert_eq!(lower_text("(x)"), Ok(Exp::Id("x".to_string())));
    assert_eq!(lower_text("((5))"), Ok(Exp::Int(5)));
    assert_eq!(lower_text("(list)"), Ok(Exp::Id("list".to_string())));
    assert_eq!(
        lower_text("(+ (1) ((2)))"),
        Ok(Exp::Plus(Box::new(Exp::Int(1)), Box::new(Exp::Int(2))))
    );
}

#[test]
fn lower_first_and_list_forms() {
    assert_eq!(
        lower_text("(first x)"),
        Ok(Exp::First(Box::new(Exp::Id("x".to_string()))))
    );
    assert_eq!(lower_text("(list 4)"), Ok(Exp::List(vec![Exp::Int(4)])));
    assert_eq!(lower_text("(first 1 2)"), Err(LowerError::InvalidApplication));
    assert_eq!(
        lower_text("(list (+ 1 2) y)"),
        Ok(Exp::List(vec![
            Exp::Plus(Box::new(Exp::Int(1)), Box::new(Exp::Int(2))),
            Exp::Id("y".to_string())
        ]))
    );
}

#[test]
fn lower_forms_match_whole_names() {
    assert_eq!(lower_text("(firsts 1 2)"), Err(LowerError::UnsupportedForm));
    assert_eq!(lower_text("(lis 1 2)"), Err(LowerError::UnsupportedForm));
    assert_eq!(lower_text("(++ 1 2)"), Err(LowerError::UnsupportedForm));
}

#[test]
fn parse_sexp_on_no_tokens() {
    let tokens = tokenize("").unwrap();
    let mut pos: usize = 0;
    assert_eq!(parse_sexp(&tokens, &mut pos), Err(ParseError::EmptyInput));
    let tokens = tokenize("(a").unwrap();
    let mut pos: usize = 2;
    assert_eq!(parse_sexp(&tokens, &mut pos), Err(ParseError::UnexpectedToken));
}

#[test]
fn parse_unmatched_close_further_on() {
    let tokens = tokenize("(a) b )").unwrap();
    assert_eq!(parse(&tokens), Err(ParseError::UnbalancedParens));
    let tokens = tokenize("x (b c))").unwrap();
    assert_eq!(parse(&tokens), Err(ParseError::UnbalancedParens));
    let tokens = tokenize("(a) (b (c))").unwrap();
    assert_eq!(parse(&tokens), Ok(SExp::Cons(
        Box::new(SExp::Id("a".to_string())),
        Box::new(SExp::Nil)
    )));
}

#[test]
fn tokenize_separators_are_unicode_white_space() {
    let tokens = tokenize("a\u{0085}b\u{2028}c\u{000B}d\u{2009}e").unwrap();
    assert_eq!(tokens, vec![id("a"), id("b"), id("c"), id("d"), id("e")]);
    let tokens = tokenize("a\u{200B}b\u{180E}c").unwrap();
    assert_eq!(tokens, vec![id("a\u{200B}b\u{180E}c")]);
}
