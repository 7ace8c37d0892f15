use miniplc0::error::ErrorCode;
use miniplc0::tokenizer::{tokenize, Token, TokenType, Tokenizer};

fn kinds(tokens: &Vec<Token>) -> Vec<TokenType> {
    tokens.iter().map(|token| *token.get_type()).collect()
}

fn texts(tokens: &Vec<Token>) -> Vec<String> {
    tokens.iter().map(|token| token.get_value_string()).collect()
}

#[test]
fn test_tokenizer() {
    let tokens = tokenize(String::from("files/somhow.plc0"));
    match tokens {
        Ok(tokens) => {
            for token in tokens {
                println!("{}", token.get_value_string());
            }
        }
        Err(error) => {
            assert_eq!(*error.get_err_code(), ErrorCode::ErrInvalidInput);
            assert_eq!(error.get_pos(), (0, 12));
        }
    }
}

#[test]
fn begin_end_is_two_keywords() {
    let tokens = tokenize(String::from("begin end")).unwrap();
    assert_eq!(tokens.len(), 2);
    match &tokens[0] {
        Token::Str(kind, text, start, end) => {
            assert_eq!(*kind, TokenType::Begin);
            assert_eq!(text, "begin");
            assert_eq!(*start, (0, 0));
            assert_eq!(*end, (0, 5));
        }
        Token::Integer(..) => panic!("a keyword is no literal"),
    }
    match &tokens[1] {
        Token::Str(kind, text, start, end) => {
            assert_eq!(*kind, TokenType::End);
            assert_eq!(text, "end");
            assert_eq!(*start, (0, 6));
            assert_eq!(*end, (0, 9));
        }
        Token::Integer(..) => panic!("a keyword is no literal"),
    }
}

#[test]
fn every_keyword_is_told_from_identifiers() {
    let tokens = tokenize(String::from("begin end const var print beginner Begin x1")).unwrap();
    assert_eq!(
        kinds(&tokens),
        vec![
            TokenType::Begin,
            TokenType::End,
            TokenType::Const,
            TokenType::Var,
            TokenType::Print,
            TokenType::Identifier,
            TokenType::Identifier,
            TokenType::Identifier,
        ]
    );
    assert_eq!(
        texts(&tokens),
        vec!["begin", "end", "const", "var", "print", "beginner", "Begin", "x1"]
    );
}

#[test]
fn every_sign_scans_to_its_kind_and_back() {
    let signs = [
        ("=", TokenType::EqualSign),
        ("+", TokenType::PlusSign),
        ("-", TokenType::MinusSign),
        ("*", TokenType::MultiplicationSign),
        ("/", TokenType::DivisionSign),
        ("(", TokenType::LeftBracket),
        (")", TokenType::RightBracket),
        (";", TokenType::Semicolon),
    ];
    for (text, kind) in signs {
        let tokens = tokenize(String::from(text)).unwrap();
        assert_eq!(tokens.len(), 1);
        assert_eq!(*tokens[0].get_type(), kind);
        assert_eq!(tokens[0].get_value_string(), text);
        assert_eq!(tokens[0].get_type().to_string().unwrap(), text);
        assert_eq!(tokens[0].get_end_pos(), (0, 1));
    }
}

#[test]
fn kinds_that_are_no_signs_have_no_text() {
    let others = [
        TokenType::NullToken,
        TokenType::UnsignedInteger,
        TokenType::Identifier,
        TokenType::Begin,
        TokenType::End,
        TokenType::Var,
        TokenType::Const,
        TokenType::Print,
    ];
    for kind in others {
        let error = kind.to_string().unwrap_err();
        assert_eq!(*error.get_err_code(), ErrorCode::ErrInvalidIdentifier);
        assert_eq!(error.get_pos(), (0, 0));
        let error = Token::from_sign(kind, (1, 2), (1, 3)).unwrap_err();
        assert_eq!(*error.get_err_code(), ErrorCode::ErrInvalidIdentifier);
    }
}

#[test]
fn from_sign_keeps_kind_text_and_positions() {
    let token = Token::from_sign(TokenType::Semicolon, (3, 4), (3, 5)).unwrap();
    match token {
        Token::Str(kind, text, start, end) => {
            assert_eq!(kind, TokenType::Semicolon);
            assert_eq!(text, ";");
            assert_eq!(start, (3, 4));
            assert_eq!(end, (3, 5));
        }
        Token::Integer(..) => panic!("a sign is no literal"),
    }
}

#[test]
fn literals_carry_their_value() {
    let tokens = tokenize(String::from("0 7 0042 4294967295")).unwrap();
    assert_eq!(tokens.len(), 4);
    assert_eq!(tokens[0].get_integer(), 0);
    assert_eq!(tokens[1].get_integer(), 7);
    assert_eq!(tokens[2].get_integer(), 42);
    assert_eq!(tokens[3].get_integer(), 4294967295);
    assert_eq!(texts(&tokens), vec!["0", "7", "42", "4294967295"]);
    for token in &tokens {
        assert_eq!(*token.get_type(), TokenType::UnsignedInteger);
    }
    assert_eq!(tokens[2].get_end_pos(), (0, 8));
}

#[test]
fn a_literal_that_does_not_fit_is_rejected_at_its_end() {
    let error = tokenize(String::from("x = 4294967296;")).unwrap_err();
    assert_eq!(*error.get_err_code(), ErrorCode::ErrInvalidIdentifier);
    assert_eq!(error.get_pos(), (0, 14));
    let error = tokenize(String::from("99999999999999999999999999")).unwrap_err();
    assert_eq!(*error.get_err_code(), ErrorCode::ErrInvalidIdentifier);
    assert_eq!(error.get_pos(), (0, 26));
}

#[test]
fn a_digit_ends_a_literal_not_a_word() {
    let tokens = tokenize(String::from("12ab a12")).unwrap();
    assert_eq!(
        kinds(&tokens),
        vec![TokenType::UnsignedInteger, TokenType::Identifier, TokenType::Identifier]
    );
    assert_eq!(texts(&tokens), vec!["12", "ab", "a12"]);
}

#[test]
fn tokens_need_no_blanks_between_them() {
    let tokens = tokenize(String::from("b=a+1;")).unwrap();
    assert_eq!(texts(&tokens), vec!["b", "=", "a", "+", "1", ";"]);
    assert_eq!(tokens[5].get_end_pos(), (0, 6));
}

#[test]
fn positions_count_lines_and_columns() {
    let tokens = tokenize(String::from("begin\n  var x;\r\n\nend\n")).unwrap();
    assert_eq!(texts(&tokens), vec!["begin", "var", "x", ";", "end"]);
    let ends: Vec<(usize, usize)> = tokens.iter().map(|token| token.get_end_pos()).collect();
    assert_eq!(ends, vec![(0, 5), (1, 5), (1, 7), (1, 8), (3, 3)]);
    match &tokens[4] {
        Token::Str(_, _, start, _) => assert_eq!(*start, (3, 0)),
        Token::Integer(..) => panic!("a keyword is no literal"),
    }
}

#[test]
fn a_line_break_separates_words() {
    let tokens = tokenize(String::from("begin\nend")).unwrap();
    assert_eq!(kinds(&tokens), vec![TokenType::Begin, TokenType::End]);
}

#[test]
fn empty_and_blank_texts_have_no_tokens() {
    assert_eq!(tokenize(String::new()).unwrap().len(), 0);
    assert_eq!(tokenize(String::from(" \t\r\n\n  ")).unwrap().len(), 0);
}

#[test]
fn an_invalid_character_is_rejected_where_it_stands() {
    let error = tokenize(String::from("begin\n  a = #;")).unwrap_err();
    assert_eq!(*error.get_err_code(), ErrorCode::ErrInvalidInput);
    assert_eq!(error.get_pos(), (1, 6));
    let error = tokenize(String::from("\u{1}")).unwrap_err();
    assert_eq!(*error.get_err_code(), ErrorCode::ErrInvalidInput);
    assert_eq!(error.get_pos(), (0, 0));
    let error = tokenize(String::from("a \u{e9}")).unwrap_err();
    assert_eq!(*error.get_err_code(), ErrorCode::ErrInvalidInput);
    assert_eq!(error.get_pos(), (0, 2));
}

#[test]
fn next_token_reports_the_end_of_input() {
    let mut tokenizer = Tokenizer::new("a ");
    let token = tokenizer.get_next_token().unwrap();
    assert_eq!(*token.get_type(), TokenType::Identifier);
    let error = tokenizer.get_next_token().unwrap_err();
    assert_eq!(*error.get_err_code(), ErrorCode::ErrEOF);
    assert_eq!(error.get_pos(), (0, 0));
    let error = tokenizer.get_next_token().unwrap_err();
    assert_eq!(*error.get_err_code(), ErrorCode::ErrEOF);
}

#[test]
fn scanning_does_not_go_past_an_invalid_character() {
    let mut tokenizer = Tokenizer::new("a ? b");
    assert_eq!(tokenizer.get_next_token().unwrap().get_value_string(), "a");
    for _ in 0..3 {
        let error = tokenizer.get_next_token().unwrap_err();
        assert_eq!(*error.get_err_code(), ErrorCode::ErrInvalidInput);
        assert_eq!(error.get_pos(), (0, 2));
    }
    let error = tokenizer.get_all_tokens().unwrap_err();
    assert_eq!(*error.get_err_code(), ErrorCode::ErrInvalidInput);
}

#[test]
fn all_tokens_continues_where_next_token_stopped() {
    let mut tokenizer = Tokenizer::new("var x = 10;");
    assert_eq!(*tokenizer.get_next_token().unwrap().get_type(), TokenType::Var);
    let rest = tokenizer.get_all_tokens().unwrap();
    assert_eq!(texts(&rest), vec!["x", "=", "10", ";"]);
    assert_eq!(tokenizer.get_all_tokens().unwrap().len(), 0);
}

#[test]
fn a_cloned_token_is_the_same_token() {
    let tokens = tokenize(String::from("abc 12")).unwrap();
    let word = tokens[0].clone();
    assert_eq!(word.get_value_string(), "abc");
    assert_eq!(word.get_end_pos(), (0, 3));
    let number = tokens[1].clone();
    assert_eq!(number.get_integer(), 12);
    assert_eq!(number.get_end_pos(), (0, 6));
}

#[test]
fn a_literal_is_listed_as_its_shortest_numeral() {
    let literal = Token::Integer(TokenType::UnsignedInteger, 1000, (0, 0), (0, 7));
    assert_eq!(literal.get_value_string(), "1000");
    let zero = Token::Integer(TokenType::UnsignedInteger, 0, (0, 0), (0, 3));
    assert_eq!(zero.get_value_string(), "0");
    let largest = Token::Integer(TokenType::UnsignedInteger, u32::MAX, (0, 0), (0, 10));
    assert_eq!(largest.get_value_string(), "4294967295");
}

#[test]
fn a_listed_token_scans_to_itself() {
    let source = "begin const limit = 4294967295 ; var x1 ; x1 = ( limit - 7 ) * 2 / 3 + 0 ; print ( x1 ) ; end";
    let tokens = tokenize(String::from(source)).unwrap();
    for token in &tokens {
        let again = tokenize(token.get_value_string()).unwrap();
        assert_eq!(again.len(), 1);
        assert_eq!(again[0].get_type(), token.get_type());
        assert_eq!(again[0].get_value_string(), token.get_value_string());
    }
    assert_eq!(texts(&tokens).join(" "), source);
}

#[test]
fn blanks_of_every_kind_separate_tokens() {
    let tokens = tokenize(String::from("a\tb\u{b}c\u{c}d\re\nf g")).unwrap();
    assert_eq!(texts(&tokens), vec!["a", "b", "c", "d", "e", "f", "g"]);
    let ends: Vec<(usize, usize)> = tokens.iter().map(|token| token.get_end_pos()).collect();
    assert_eq!(ends, vec![(0, 1), (0, 3), (0, 5), (0, 7), (0, 9), (1, 1), (1, 3)]);
}
