use miniplc0::analyzer::{analyze, Analyzer, Instruction, Operation};
use miniplc0::error::ErrorCode;
use miniplc0::tokenizer::{tokenize, Token, TokenType};

fn compile(source: &str) -> Vec<Instruction> {
    analyze(String::from(source)).unwrap()
}

fn rejected(source: &str) -> (ErrorCode, (usize, usize)) {
    let error = analyze(String::from(source)).unwrap_err();
    (*error.get_err_code(), error.get_pos())
}

fn listing(code: &Vec<Instruction>) -> Vec<String> {
    code.iter().map(|instruction| instruction.to_string()).collect()
}

#[test]
fn a_small_program_compiles_to_its_instructions() {
    let code = compile("begin const a=1; var b; b=a+1; print(b); end");
    assert_eq!(
        code,
        vec![
            Instruction(Operation::LIT, 1),
            Instruction(Operation::LIT, 0),
            Instruction(Operation::LOD, 0),
            Instruction(Operation::LIT, 1),
            Instruction(Operation::ADD, 0),
            Instruction(Operation::STO, 1),
            Instruction(Operation::LOD, 1),
            Instruction(Operation::WRT, 0),
        ]
    );
    assert_eq!(
        listing(&code),
        vec!["LIT 1", "LIT 0", "LOD 0", "LIT 1", "ADD", "STO 1", "LOD 1", "WRT"]
    );
}

#[test]
fn the_empty_program_compiles_to_nothing() {
    assert_eq!(compile("begin end"), vec![]);
    assert_eq!(compile("begin ;;; end"), vec![]);
}

#[test]
fn what_follows_end_is_not_read() {
    assert_eq!(compile("begin end end 1 ) x"), vec![]);
}

#[test]
fn each_declaration_takes_the_next_slot_and_emits_one_literal() {
    let code = compile(
        "begin const a = 3; const b = -4; const c = +5; var x; var y; \
         x = a; y = b; print(c); print(x); print(y); end",
    );
    assert_eq!(
        code,
        vec![
            Instruction(Operation::LIT, 3),
            Instruction(Operation::LIT, -4),
            Instruction(Operation::LIT, 5),
            Instruction(Operation::LIT, 0),
            Instruction(Operation::LIT, 0),
            Instruction(Operation::LOD, 0),
            Instruction(Operation::STO, 3),
            Instruction(Operation::LOD, 1),
            Instruction(Operation::STO, 4),
            Instruction(Operation::LOD, 2),
            Instruction(Operation::WRT, 0),
            Instruction(Operation::LOD, 3),
            Instruction(Operation::WRT, 0),
            Instruction(Operation::LOD, 4),
            Instruction(Operation::WRT, 0),
        ]
    );
}

#[test]
fn a_variable_with_a_value_emits_the_value() {
    let code = compile("begin var x = 1 + 2; var y = x; print(y); end");
    assert_eq!(
        code,
        vec![
            Instruction(Operation::LIT, 1),
            Instruction(Operation::LIT, 2),
            Instruction(Operation::ADD, 0),
            Instruction(Operation::LOD, 0),
            Instruction(Operation::LOD, 1),
            Instruction(Operation::WRT, 0),
        ]
    );
}

#[test]
fn a_variable_is_not_declared_inside_its_own_value() {
    assert_eq!(rejected("begin var x = x; end"), (ErrorCode::ErrNotDeclared, (0, 15)));
}

#[test]
fn operators_are_emitted_after_their_operands() {
    let code = compile("begin print(1 + 2 * 3 - 4 / 5); end");
    assert_eq!(
        listing(&code),
        vec!["LIT 1", "LIT 2", "LIT 3", "MUL", "ADD", "LIT 4", "LIT 5", "DIV", "SUB", "WRT"]
    );
    let code = compile("begin print(1 - 2 - 3); end");
    assert_eq!(listing(&code), vec!["LIT 1", "LIT 2", "SUB", "LIT 3", "SUB", "WRT"]);
}

#[test]
fn brackets_group() {
    let code = compile("begin print((1 + 2) * ((3))); end");
    assert_eq!(listing(&code), vec!["LIT 1", "LIT 2", "ADD", "LIT 3", "MUL", "WRT"]);
}

#[test]
fn a_leading_minus_appends_a_subtraction() {
    let code = compile("begin const a = 2; print(-a); print(+a); print(-(a + 1)); print(3 * -4); end");
    assert_eq!(
        listing(&code),
        vec![
            "LIT 2", "LOD 0", "SUB", "WRT", "LOD 0", "WRT", "LOD 0", "LIT 1", "ADD", "SUB",
            "WRT", "LIT 3", "LIT 4", "SUB", "MUL", "WRT",
        ]
    );
}

#[test]
fn literals_are_read_as_signed_32_bit_operands() {
    let code = compile(
        "begin const a = 2147483647; const b = -2147483648; const c = 2147483648; \
         const d = 4294967295; const e = -4294967295; print(4294967295); end",
    );
    assert_eq!(
        code,
        vec![
            Instruction(Operation::LIT, 2147483647),
            Instruction(Operation::LIT, -2147483648),
            Instruction(Operation::LIT, -2147483648),
            Instruction(Operation::LIT, -1),
            Instruction(Operation::LIT, 1),
            Instruction(Operation::LIT, -1),
            Instruction(Operation::WRT, 0),
        ]
    );
}

#[test]
fn redeclaring_a_name_is_rejected_at_the_second_name() {
    assert_eq!(
        rejected("begin const a=1; const a=1; end"),
        (ErrorCode::ErrDuplicateDeclaration, (0, 24))
    );
    assert_eq!(
        rejected("begin const a=1; var a; end"),
        (ErrorCode::ErrDuplicateDeclaration, (0, 22))
    );
    assert_eq!(
        rejected("begin var a;\nvar b = 1;\nvar a = 2; end"),
        (ErrorCode::ErrDuplicateDeclaration, (2, 5))
    );
}

#[test]
fn an_undeclared_name_in_an_expression_is_rejected() {
    assert_eq!(rejected("begin var b; b = a + 1; end"), (ErrorCode::ErrNotDeclared, (0, 18)));
    assert_eq!(rejected("begin print(zz); end"), (ErrorCode::ErrNotDeclared, (0, 14)));
}

#[test]
fn assigning_to_an_undeclared_name_is_rejected() {
    assert_eq!(rejected("begin a = 1; end"), (ErrorCode::ErrNotDeclared, (0, 7)));
}

#[test]
fn assigning_to_a_constant_is_rejected() {
    assert_eq!(rejected("begin const a=1; a=2; end"), (ErrorCode::ErrAssignToConstant, (0, 18)));
}

#[test]
fn reading_a_variable_before_its_first_assignment_is_rejected() {
    assert_eq!(rejected("begin var x; print(x); end"), (ErrorCode::ErrNotInitialized, (0, 20)));
    assert_eq!(rejected("begin var x; x = x + 1; end"), (ErrorCode::ErrNotInitialized, (0, 18)));
}

#[test]
fn reading_a_variable_after_its_first_assignment_succeeds() {
    let code = compile("begin var x; x=5; print(x); x = x + 1; end");
    assert_eq!(
        listing(&code),
        vec!["LIT 0", "LIT 5", "STO 0", "LOD 0", "WRT", "LOD 0", "LIT 1", "ADD", "STO 0"]
    );
}

#[test]
fn a_program_has_to_start_with_begin() {
    assert_eq!(rejected(""), (ErrorCode::ErrNoBegin, (0, 0)));
    assert_eq!(rejected("end"), (ErrorCode::ErrNoBegin, (0, 3)));
    assert_eq!(rejected("const a = 1; begin end"), (ErrorCode::ErrNoBegin, (0, 5)));
}

#[test]
fn a_program_has_to_finish_with_end() {
    assert_eq!(rejected("begin"), (ErrorCode::ErrNoEnd, (0, 5)));
    assert_eq!(rejected("begin var x; x = 1; begin"), (ErrorCode::ErrNoEnd, (0, 25)));
    assert_eq!(rejected("begin var a; const b = 1; end"), (ErrorCode::ErrNoEnd, (0, 18)));
}

#[test]
fn a_declaration_needs_a_name() {
    assert_eq!(rejected("begin const = 1; end"), (ErrorCode::ErrNeedIdentifier, (0, 13)));
    assert_eq!(rejected("begin var 1; end"), (ErrorCode::ErrNeedIdentifier, (0, 11)));
    assert_eq!(rejected("begin var"), (ErrorCode::ErrNeedIdentifier, (0, 9)));
    assert_eq!(rejected("begin const print = 1; end"), (ErrorCode::ErrNeedIdentifier, (0, 17)));
}

#[test]
fn a_constant_needs_a_value() {
    assert_eq!(rejected("begin const a; end"), (ErrorCode::ErrConstantNeedValue, (0, 14)));
    assert_eq!(rejected("begin const a"), (ErrorCode::ErrConstantNeedValue, (0, 13)));
    assert_eq!(rejected("begin const a = ; end"), (ErrorCode::ErrIncompleteExpression, (0, 17)));
    assert_eq!(rejected("begin const a = - b; end"), (ErrorCode::ErrIncompleteExpression, (0, 19)));
    assert_eq!(rejected("begin const a = 1 + 2; end"), (ErrorCode::ErrNoSemicolon, (0, 19)));
}

#[test]
fn declarations_and_statements_end_with_a_semicolon() {
    assert_eq!(rejected("begin const a = 1 end"), (ErrorCode::ErrNoSemicolon, (0, 21)));
    assert_eq!(rejected("begin var a end"), (ErrorCode::ErrNoSemicolon, (0, 15)));
    assert_eq!(rejected("begin var a = 1 end"), (ErrorCode::ErrNoSemicolon, (0, 19)));
    assert_eq!(rejected("begin var a; a = 1 end"), (ErrorCode::ErrNoSemicolon, (0, 22)));
    assert_eq!(rejected("begin print(1) end"), (ErrorCode::ErrNoSemicolon, (0, 18)));
    assert_eq!(rejected("begin var a"), (ErrorCode::ErrNoSemicolon, (0, 11)));
}

#[test]
fn an_expression_has_to_be_complete() {
    assert_eq!(rejected("begin var a; a = ; end"), (ErrorCode::ErrIncompleteExpression, (0, 18)));
    assert_eq!(rejected("begin var a; a = 1 + ; end"), (ErrorCode::ErrIncompleteExpression, (0, 22)));
    assert_eq!(rejected("begin var a; a = 2 * end"), (ErrorCode::ErrIncompleteExpression, (0, 24)));
    assert_eq!(rejected("begin var a; a = -"), (ErrorCode::ErrIncompleteExpression, (0, 18)));
    assert_eq!(rejected("begin var a; a ="), (ErrorCode::ErrIncompleteExpression, (0, 16)));
    assert_eq!(rejected("begin var a; a = - - 1; end"), (ErrorCode::ErrIncompleteExpression, (0, 20)));
}

#[test]
fn an_opening_bracket_needs_its_closing_bracket() {
    assert_eq!(rejected("begin var a; a = (1 + 2; end"), (ErrorCode::ErrInvalidInput, (0, 24)));
    assert_eq!(rejected("begin var a; a = (1"), (ErrorCode::ErrInvalidInput, (0, 19)));
}

#[test]
fn an_assignment_needs_an_equal_sign() {
    assert_eq!(rejected("begin var a; a + 1; end"), (ErrorCode::ErrInvalidAssignment, (0, 16)));
    assert_eq!(rejected("begin var a; a"), (ErrorCode::ErrInvalidAssignment, (0, 14)));
}

#[test]
fn a_print_statement_needs_its_brackets() {
    assert_eq!(rejected("begin print 1; end"), (ErrorCode::ErrInvalidPrint, (0, 13)));
    assert_eq!(rejected("begin print(1; end"), (ErrorCode::ErrInvalidPrint, (0, 14)));
    assert_eq!(rejected("begin print"), (ErrorCode::ErrInvalidPrint, (0, 11)));
}

#[test]
fn a_lexical_error_stops_the_compilation() {
    assert_eq!(rejected("begin var a; a = 1 $ 2; end"), (ErrorCode::ErrInvalidInput, (0, 19)));
    assert_eq!(rejected("begin const a = 4294967296; end"), (ErrorCode::ErrInvalidIdentifier, (0, 26)));
}

#[test]
fn the_first_error_is_the_one_reported() {
    assert_eq!(rejected("begin const a = 1; const a = ; end"), (ErrorCode::ErrDuplicateDeclaration, (0, 26)));
    assert_eq!(rejected("begin var x; x = y + ; end"), (ErrorCode::ErrNotDeclared, (0, 18)));
}

#[test]
fn an_analyzer_works_on_given_tokens() {
    let tokens = tokenize(String::from("begin var b = 7; print(b); end")).unwrap();
    let mut analyzer = Analyzer::new(tokens);
    let code = analyzer.analyze().unwrap().clone();
    assert_eq!(
        code,
        vec![
            Instruction(Operation::LIT, 7),
            Instruction(Operation::LOD, 0),
            Instruction(Operation::WRT, 0),
        ]
    );
}

#[test]
fn an_analyzer_goes_on_where_it_stopped() {
    let tokens = tokenize(String::from("begin end begin var a; end")).unwrap();
    let mut analyzer = Analyzer::new(tokens);
    assert_eq!(analyzer.analyze().unwrap().len(), 0);
    assert_eq!(analyzer.analyze().unwrap().clone(), vec![Instruction(Operation::LIT, 0)]);
    let error = analyzer.analyze().unwrap_err();
    assert_eq!(*error.get_err_code(), ErrorCode::ErrNoBegin);
    assert_eq!(error.get_pos(), (0, 26));
}

#[test]
fn a_word_token_with_the_kind_of_a_literal_is_no_literal() {
    let tokens = vec![
        Token::Str(TokenType::Begin, String::from("begin"), (0, 0), (0, 5)),
        Token::Str(TokenType::Const, String::from("const"), (0, 6), (0, 11)),
        Token::Str(TokenType::Identifier, String::from("a"), (0, 12), (0, 13)),
        Token::Str(TokenType::EqualSign, String::from("="), (0, 14), (0, 15)),
        Token::Str(TokenType::UnsignedInteger, String::from("1"), (0, 16), (0, 17)),
        Token::Str(TokenType::Semicolon, String::from(";"), (0, 17), (0, 18)),
        Token::Str(TokenType::End, String::from("end"), (0, 19), (0, 22)),
    ];
    let mut analyzer = Analyzer::new(tokens);
    let error = analyzer.analyze().unwrap_err();
    assert_eq!(*error.get_err_code(), ErrorCode::ErrIncompleteExpression);
    assert_eq!(error.get_pos(), (0, 17));
}

#[test]
fn instructions_are_listed_with_their_operand_where_they_have_one() {
    assert_eq!(Instruction(Operation::LIT, 0).to_string(), "LIT 0");
    assert_eq!(Instruction(Operation::LIT, -5).to_string(), "LIT -5");
    assert_eq!(Instruction(Operation::LIT, 2147483647).to_string(), "LIT 2147483647");
    assert_eq!(Instruction(Operation::LIT, -2147483648).to_string(), "LIT -2147483648");
    assert_eq!(Instruction(Operation::LOD, 12).to_string(), "LOD 12");
    assert_eq!(Instruction(Operation::STO, 100).to_string(), "STO 100");
    assert_eq!(Instruction(Operation::ADD, 0).to_string(), "ADD");
    assert_eq!(Instruction(Operation::SUB, 7).to_string(), "SUB");
    assert_eq!(Instruction(Operation::MUL, 0).to_string(), "MUL");
    assert_eq!(Instruction(Operation::DIV, 0).to_string(), "DIV");
    assert_eq!(Instruction(Operation::WRT, 0).to_string(), "WRT");
    assert_eq!(Instruction(Operation::ILL, 0).to_string(), "ILL");
}
