use c1_parser::C1Token as T;
use c1_parser::{C1Lexer, C1Parser, C1Token};

fn tokens_of(text: &str) -> Vec<(C1Token, usize)> {
    let mut lexer = C1Lexer::new(text);
    let mut out = Vec::new();
    while let Some(kind) = lexer.current_token() {
        out.push((kind, lexer.current_line_number().unwrap()));
        lexer.eat();
    }
    out
}

fn kinds_of(text: &str) -> Vec<C1Token> {
    tokens_of(text).into_iter().map(|(k, _)| k).collect()
}

#[test]
fn lexer_keywords_and_identifiers() {
    assert_eq!(
        kinds_of("bool do else float for if int printf return void while true false"),
        vec![
            T::KwBoolean, T::KwDo, T::KwElse, T::KwFloat, T::KwFor, T::KwIf, T::KwInt, T::KwPrintf, T::KwReturn, T::KwVoid,
            T::KwWhile, T::ConstBoolean, T::ConstBoolean
        ]
    );
    assert_eq!(kinds_of("int2 iffy x9 Printf"), vec![T::Identifier, T::Identifier, T::Identifier, T::Identifier]);
}

#[test]
fn lexer_numbers() {
    assert_eq!(kinds_of("42"), vec![T::ConstInt]);
    assert_eq!(kinds_of("1.0 .5 2e10 3.5E-2"), vec![T::ConstFloat, T::ConstFloat, T::ConstFloat, T::ConstFloat]);
    assert_eq!(kinds_of("12."), vec![T::ConstInt, T::Error]);
    assert_eq!(kinds_of("1e"), vec![T::ConstInt, T::Identifier]);
}

#[test]
fn lexer_operators() {
    assert_eq!(
        kinds_of("+ - * / = == != < > <= >= && || , ; ( ) { }"),
        vec![
            T::Plus, T::Minus, T::Asterisk, T::Slash, T::Assign, T::Equal, T::NotEqual, T::Less, T::Greater, T::LessEqual,
            T::GreaterEqual, T::And, T::Or, T::Comma, T::Semicolon, T::LeftParenthesis, T::RightParenthesis,
            T::LeftBrace, T::RightBrace
        ]
    );
    assert_eq!(kinds_of("a<=b"), vec![T::Identifier, T::LessEqual, T::Identifier]);
    assert_eq!(kinds_of("! & | _ @"), vec![T::Error, T::Error, T::Error, T::Error, T::Error]);
}

#[test]
fn lexer_strings_and_comments() {
    assert_eq!(kinds_of("\"hello world\""), vec![T::ConstString]);
    assert_eq!(kinds_of("\"open"), vec![T::Error, T::Identifier]);
    assert_eq!(kinds_of("a // b c\nd"), vec![T::Identifier, T::Identifier]);
    assert_eq!(kinds_of("a /* b\n c */ d"), vec![T::Identifier, T::Identifier]);
    assert_eq!(kinds_of("a /* b"), vec![T::Identifier, T::Slash, T::Asterisk, T::Identifier]);
    assert_eq!(kinds_of("/**/x"), vec![T::Identifier]);
}

#[test]
fn lexer_line_numbers() {
    assert_eq!(
        tokens_of("a\nb /* one\ntwo */ c\n\n// x\nd"),
        vec![
            (C1Token::Identifier, 1),
            (C1Token::Identifier, 2),
            (C1Token::Identifier, 3),
            (C1Token::Identifier, 6)
        ]
    );
}

#[test]
fn lexer_peek_and_end() {
    let mut lexer = C1Lexer::new("x = 1");
    assert_eq!(lexer.current_token(), Some(C1Token::Identifier));
    assert_eq!(lexer.peek_token(), Some(C1Token::Assign));
    lexer.eat();
    lexer.eat();
    assert_eq!(lexer.current_token(), Some(C1Token::ConstInt));
    assert_eq!(lexer.peek_token(), None);
    assert_eq!(lexer.peek_line_number(), None);
    lexer.eat();
    assert_eq!(lexer.current_token(), None);
    assert_eq!(lexer.current_line_number(), None);
    lexer.eat();
    assert_eq!(lexer.current_token(), None);
}

#[test]
fn error_message_with_line_and_text() {
    assert_eq!(
        C1Parser::parse("int x = 0;"),
        Err(String::from("unexpected token in functiondefinition at line 1 with text: 'x'"))
    );
    assert_eq!(
        C1Parser::parse("// A valid comment\nInvalid line."),
        Err(String::from("unexpected token in program at line 2 with text: 'Invalid'"))
    );
}

#[test]
fn error_message_at_end_of_input() {
    assert_eq!(
        C1Parser::parse("  bool  "),
        Err(String::from("unexpected token in functiondefinition. Reached EOF"))
    );
    assert_eq!(
        C1Parser::parse("void f() {"),
        Err(String::from("expected '}' in functiondefinition. Reached EOF"))
    );
}

#[test]
fn error_message_line_beyond_nine() {
    assert_eq!(
        C1Parser::parse("\n\n\n\n\n\n\n\n\n\n\n\nvoid f() { x = ; }"),
        Err(String::from("unexpected token at line 13 with text: ';'"))
    );
}

#[test]
fn error_messages_of_statements() {
    assert_eq!(
        C1Parser::parse("void f() { x = 1 }"),
        Err(String::from("expected ';' in statement at line 1 with text: '}'"))
    );
    assert_eq!(
        C1Parser::parse("void f() { 5; }"),
        Err(String::from("expected '}' in functiondefinition at line 1 with text: '5'"))
    );
    assert_eq!(
        C1Parser::parse("void f() { if (x) 5; }"),
        Err(String::from("unexpected token in statement at line 1 with text: '5'"))
    );
    assert_eq!(
        C1Parser::parse("void f() { if x) {} }"),
        Err(String::from("expected '(' in ifstatement at line 1 with text: 'x'"))
    );
    assert_eq!(
        C1Parser::parse("void f() { printf(x; }"),
        Err(String::from("expected ')' in printf at line 1 with text: ';'"))
    );
}

#[test]
fn error_tokens_are_skipped_between_functions_and_statements() {
    assert_eq!(C1Parser::parse("@ void f() { @ x = 1; @ } @"), Ok(()));
    assert!(C1Parser::parse("void f() { x @ = 1; }").is_err());
}

#[test]
fn programs_compose() {
    let a = "void f() { x = 1; }";
    let b = "int g() { return f(); }";
    assert_eq!(C1Parser::parse(a), Ok(()));
    assert_eq!(C1Parser::parse(b), Ok(()));
    assert_eq!(C1Parser::parse("void f() { x = 1; }\nint g() { return f(); }"), Ok(()));
}

#[test]
fn grammar_programs_are_accepted() {
    let text = "float calc() {\n\
        x = -a + b * (c - 1.5) || d && e;\n\
        if (x >= 2) { printf(x); } \n\
        if (y != z) return; \n\
        { foo(); bar = baz = 3; }\n\
        return x <= y;\n\
    }\n\
    void main() { calc(); }";
    assert_eq!(C1Parser::parse(text), Ok(()));
}

#[test]
fn assignment_needs_an_identifier() {
    assert_eq!(
        C1Parser::parse("void f() { printf(1 = 2); }"),
        Err(String::from("expected ')' in printf at line 1 with text: '='"))
    );
    assert!(C1Parser::parse("void f() {return 1 = 2;}").is_err());
    let mut parser = C1Parser::initialize_parser("1 = 2");
    assert_eq!(parser.assignment(), Ok(()));
    assert_eq!(parser.assignment(), Err(String::from("unexpected token at line 1 with text: '='")));
    let mut parser = C1Parser::initialize_parser("x = y = 2");
    assert_eq!(parser.assignment(), Ok(()));
    assert_eq!(parser.assignment(), Err(String::from("unexpected token. Reached EOF")));
}

#[test]
fn parser_steps_do_not_move_back() {
    let mut parser = C1Parser::initialize_parser("a + b * c ; rest");
    assert_eq!(parser.assignment(), Ok(()));
    assert_eq!(parser.assignment(), Err(String::from("unexpected token at line 1 with text: ';'")));
}

#[test]
fn non_programs_are_rejected() {
    assert!(C1Parser::parse("void f() { x = 1 + ; }").is_err());
    assert!(C1Parser::parse("void f() { return 1 }").is_err());
    assert!(C1Parser::parse("void f() x = 1;").is_err());
    assert!(C1Parser::parse("f() {}").is_err());
    assert!(C1Parser::parse("void f() { if (x) }").is_err());
}

#[test]
fn parse_is_initialize_then_program() {
    let text = "int main() { printf(1 < 2); }\nvoid x() { y(); }";
    let mut parser = C1Parser::initialize_parser(text);
    assert_eq!(parser.program(), C1Parser::parse(text));
    let mut parser = C1Parser::initialize_parser("void");
    assert_eq!(parser.program(), C1Parser::parse("void"));
}

#[test]
fn leading_empty_function_changes_nothing() {
    let rest = ["", "int g() { return 1; }", "int g() { return 1 }", "x", "void h() {} }"];
    for s in rest.iter() {
        let text = format!("void f() {{}}\n{}", s);
        assert_eq!(C1Parser::parse(&text).is_ok(), C1Parser::parse(s).is_ok());
    }
}

#[test]
fn leading_error_tokens_are_skipped() {
    assert_eq!(C1Parser::parse("@ @ void f() {}"), Ok(()));
    assert!(C1Parser::parse("void f() {").is_err());
    assert!(C1Parser::parse("@ @ void f() {").is_err());
    assert_eq!(C1Parser::parse("@ @"), Ok(()));
}

#[test]
fn joined_programs_are_accepted() {
    let a = "int a() { if (x) return 1; }";
    let b = "void b() { { a(); } printf(a() == 1); }";
    assert_eq!(C1Parser::parse(a), Ok(()));
    assert_eq!(C1Parser::parse(b), Ok(()));
    assert_eq!(C1Parser::parse(&format!("{}\n{}", a, b)), Ok(()));
    assert_eq!(C1Parser::parse(&format!("{}\n{}", b, a)), Ok(()));
}

#[test]
fn check_and_eat_tokens_eats_exactly_the_given_tokens() {
    let mut parser = C1Parser::initialize_parser("( ) x");
    assert_eq!(parser.check_and_eat_tokens(&[], "none"), Ok(()));
    assert_eq!(parser.lexer().current_token(), Some(C1Token::LeftParenthesis));
    assert_eq!(
        parser.check_and_eat_tokens(&[C1Token::LeftParenthesis, C1Token::RightParenthesis], "m"),
        Ok(())
    );
    assert_eq!(parser.lexer().current_token(), Some(C1Token::Identifier));
    let mut parser = C1Parser::initialize_parser("( x");
    assert_eq!(
        parser.check_and_eat_tokens(&[C1Token::LeftParenthesis, C1Token::RightParenthesis], "m"),
        Err(String::from("m"))
    );
    let mut parser = C1Parser::initialize_parser("(");
    assert_eq!(
        parser.check_and_eat_tokens(&[C1Token::LeftParenthesis, C1Token::RightParenthesis], "m"),
        Err(String::from("m"))
    );
}

#[test]
fn check_and_eat_token_and_any_match() {
    let mut parser = C1Parser::initialize_parser("int x");
    assert_eq!(parser.check_and_eat_token(&C1Token::KwVoid, "no void"), Err(String::from("no void")));
    assert_eq!(parser.lexer().current_token(), Some(C1Token::KwInt));
    assert!(parser.current_matches(&C1Token::KwInt));
    assert!(parser.next_matches(&C1Token::Identifier));
    assert!(parser.any_match_current(&[C1Token::KwVoid, C1Token::KwInt]));
    assert!(!parser.any_match_current(&[]));
    assert_eq!(parser.any_match_and_eat(&[C1Token::KwIf], "no if"), Err(String::from("no if")));
    assert_eq!(parser.lexer().current_token(), Some(C1Token::KwInt));
    assert_eq!(parser.any_match_and_eat(&[C1Token::KwVoid, C1Token::KwInt], "t"), Ok(()));
    assert_eq!(parser.lexer().current_token(), Some(C1Token::Identifier));
    assert_eq!(parser.check_and_eat_token(&C1Token::Identifier, "id"), Ok(()));
    assert_eq!(parser.lexer().current_token(), None);
    assert!(!parser.current_matches(&C1Token::Identifier));
    assert_eq!(parser.any_match_and_eat(&[C1Token::Identifier], "end"), Err(String::from("end")));
}

#[test]
fn error_messages_name_the_token() {
    let mut parser = C1Parser::initialize_parser("a\n  b");
    assert_eq!(parser.error_message_current("r"), String::from("r at line 1 with text: 'a'"));
    assert_eq!(parser.error_message_peek("r"), String::from("r at line 2 with text: 'b'"));
    assert_eq!(parser.lexer().current_token(), Some(C1Token::Identifier));
    parser.eat_errors();
    assert_eq!(parser.check_and_eat_token(&C1Token::Identifier, "id"), Ok(()));
    assert_eq!(parser.error_message_peek("r"), String::from("r. Reached EOF"));
    assert_eq!(parser.check_and_eat_token(&C1Token::Identifier, "id"), Ok(()));
    assert_eq!(parser.error_message_current("r"), String::from("r. Reached EOF"));
}

#[test]
fn eat_errors_skips_only_error_tokens() {
    let mut parser = C1Parser::initialize_parser("@ @ x @");
    parser.eat_errors();
    assert_eq!(parser.lexer().current_token(), Some(C1Token::Identifier));
    parser.eat_errors();
    assert_eq!(parser.lexer().current_token(), Some(C1Token::Identifier));
}
