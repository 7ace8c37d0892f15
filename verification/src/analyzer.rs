//! The analyzer: from tokens to the instructions of a stack machine.

use crate::error::{CompilationError, Diagnostic, ErrorCode};
use crate::grammar::{
    assignment_statement, compile_source, constant_declarations, constant_expression, expression,
    expression_tail, factor, failure, is_symbol, main_body, operand_of, output_statement,
    position_at, program, statement_sequence, term, term_tail, variable_declarations, Progress,
};
use crate::symbols::{initialized, lemma_lookup, lookup, symbols_of, SymbolEntry, SymbolKind};
use crate::text::{position_view, push_signed_decimal, signed_decimal_digits};
use crate::tokenizer::{lemma_scan_all_length, tokenize, views_of, Token, TokenType, TokenView};
use vstd::prelude::*;

verus! {

/// The operations of the stack machine.
#[derive(Debug, Clone, Copy, PartialEq, Eq, Structural)]
#[allow(dead_code)]
pub enum Operation {
    ILL,
    LIT,
    LOD,
    STO,
    ADD,
    SUB,
    MUL,
    DIV,
    WRT,
}

/// An instruction: an operation and its operand. Only `LIT`, `LOD` and `STO`
/// use the operand; it is zero for the others.
#[derive(Debug, Clone, Copy, PartialEq, Eq, Structural)]
pub struct Instruction(pub Operation, pub i32);

/// The name of an operation in a listing.
pub open spec fn operation_name(operation: Operation) -> Seq<char> {
    match operation {
        Operation::ILL => seq!['I', 'L', 'L'],
        Operation::LIT => seq!['L', 'I', 'T'],
        Operation::LOD => seq!['L', 'O', 'D'],
        Operation::STO => seq!['S', 'T', 'O'],
        Operation::ADD => seq!['A', 'D', 'D'],
        Operation::SUB => seq!['S', 'U', 'B'],
        Operation::MUL => seq!['M', 'U', 'L'],
        Operation::DIV => seq!['D', 'I', 'V'],
        Operation::WRT => seq!['W', 'R', 'T'],
    }
}

/// Whether an operation uses its operand.
pub open spec fn takes_operand(operation: Operation) -> bool {
    operation == Operation::LIT || operation == Operation::LOD || operation == Operation::STO
}

/// The line of an instruction in a listing: the name of the operation,
/// followed by a space and the operand where the operation uses one.
pub open spec fn instruction_text(instruction: Instruction) -> Seq<char> {
    if takes_operand(instruction.0) {
        operation_name(instruction.0) + seq![' '] + signed_decimal_digits(instruction.1 as int)
    } else {
        operation_name(instruction.0)
    }
}

impl Instruction {
    /// The line of the instruction in a listing.
    pub fn to_string(&self) -> (line: String)
        ensures
            line@ == instruction_text(*self),
    {
        let mut line = String::new();
        let (first, second, third) = match self.0 {
            Operation::ILL => ('I', 'L', 'L'),
            Operation::LIT => ('L', 'I', 'T'),
            Operation::LOD => ('L', 'O', 'D'),
            Operation::STO => ('S', 'T', 'O'),
            Operation::ADD => ('A', 'D', 'D'),
            Operation::SUB => ('S', 'U', 'B'),
            Operation::MUL => ('M', 'U', 'L'),
            Operation::DIV => ('D', 'I', 'V'),
            Operation::WRT => ('W', 'R', 'T'),
        };
        line.push(first);
        line.push(second);
        line.push(third);
        assert(line@ =~= operation_name(self.0));
        match self.0 {
            Operation::LIT | Operation::LOD | Operation::STO => {
                line.push(' ');
                push_signed_decimal(&mut line, self.1);
                assert(line@ =~= instruction_text(*self));
            },
            _ => {},
        }
        line
    }
}

/// The analyzer of one program: its tokens, the place it has read up to,
/// the names declared and the instructions emitted so far.
pub struct Analyzer {
    tokens: Vec<Token>,
    offset: usize,
    instructions: Vec<Instruction>,
    symbols: Vec<SymbolEntry>,
}

impl Analyzer {
    /// The tokens of the program.
    pub closed spec fn tokens(&self) -> Seq<TokenView> {
        views_of(self.tokens@)
    }

    /// How far the analysis has come.
    pub closed spec fn progress(&self) -> Progress {
        Progress {
            at: self.offset as int,
            symbols: symbols_of(self.symbols@),
            code: self.instructions@,
        }
    }

    /// The place read up to is among the tokens, no more names are declared
    /// than tokens were read, and every slot fits an operand.
    pub closed spec fn well_formed(&self) -> bool {
        &&& self.offset <= self.tokens.len()
        &&& self.symbols.len() <= self.offset
        &&& self.tokens.len() <= i32::MAX
    }

    /// What well-formedness says of the plain values.
    pub proof fn lemma_well_formed(&self)
        requires
            self.well_formed(),
        ensures
            0 <= self.progress().at <= self.tokens().len(),
            self.progress().symbols.len() <= self.progress().at,
            self.tokens().len() <= i32::MAX,
    {
    }

    /// Whether `self` is the analyzer `before` after a step that was to
    /// yield `expected`, and `result` is what the step returned.
    spec fn follows(
        &self,
        before: &Analyzer,
        result: Result<(), CompilationError>,
        expected: Result<Progress, Diagnostic>,
    ) -> bool {
        &&& self.well_formed()
        &&& self.tokens@ == before.tokens@
        &&& match expected {
            Ok(progress) => result is Ok && self.progress() == progress,
            Err(diagnostic) => result is Err && result->Err_0@ == diagnostic,
        }
    }

    /// An analyzer at the start of the given tokens.
    pub fn new(tokens: Vec<Token>) -> (analyzer: Analyzer)
        requires
            tokens.len() <= i32::MAX,
        ensures
            analyzer.well_formed(),
            analyzer.tokens() == views_of(tokens@),
            analyzer.progress() == Progress::start(),
    {
        let analyzer = Analyzer {
            tokens,
            offset: 0,
            instructions: Vec::new(),
            symbols: Vec::new(),
        };
        assert(analyzer.progress().symbols =~= Progress::start().symbols);
        analyzer
    }

    /// Analyzes a program, from `begin` to `end`, and hands out its instructions.
    pub fn analyze(&mut self) -> (instructions: Result<&Vec<Instruction>, CompilationError>)
        requires
            old(self).well_formed(),
        ensures
            final(self).well_formed(),
            final(self).tokens() == old(self).tokens(),
            match program(old(self).tokens(), old(self).progress()) {
                Ok(done) => {
                    &&& instructions is Ok
                    &&& instructions->Ok_0@ == done.code
                    &&& final(self).progress() == done
                },
                Err(diagnostic) => instructions is Err && instructions->Err_0@ == diagnostic,
            },
    {
        match self.analyze_program() {
            Ok(()) => Ok(&self.instructions),
            Err(error) => Err(error),
        }
    }

    /// `program := 'begin' main 'end'`
    fn analyze_program(&mut self) -> (result: Result<(), CompilationError>)
        requires
            old(self).well_formed(),
        ensures
            final(self).follows(
                old(self),
                result,
                program(old(self).tokens(), old(self).progress()),
            ),
    {
        self.require_token(TokenType::Begin, ErrorCode::ErrNoBegin)?;
        self.analyze_main()?;
        self.require_token(TokenType::End, ErrorCode::ErrNoEnd)?;
        Ok(())
    }

    /// `main := constDecls varDecls stmts`
    fn analyze_main(&mut self) -> (result: Result<(), CompilationError>)
        requires
            old(self).well_formed(),
        ensures
            final(self).follows(
                old(self),
                result,
                main_body(old(self).tokens(), old(self).progress()),
            ),
    {
        self.analyze_constant_declaration()?;
        self.analyze_variable_declaration()?;
        self.analyze_statement_sequence()?;
        Ok(())
    }

    /// `constDecls := { 'const' identifier '=' constExpr ';' }`
    #[verifier::rlimit(40)]
    fn analyze_constant_declaration(&mut self) -> (result: Result<(), CompilationError>)
        requires
            old(self).well_formed(),
        ensures
            final(self).follows(
                old(self),
                result,
                constant_declarations(old(self).tokens(), old(self).progress()),
            ),
    {
        loop
            invariant
                self.well_formed(),
                self.tokens@ == old(self).tokens@,
                constant_declarations(self.tokens(), self.progress()) == constant_declarations(
                    old(self).tokens(),
                    old(self).progress(),
                ),
            decreases self.tokens.len() - self.offset,
        {
            match self.next_token() {
                Some(Token::Str(TokenType::Const, ..)) => (),
                Some(_) => {
                    self.unread_token();
                    return Ok(());
                },
                None => return Ok(()),
            };
            let name = match self.next_token() {
                Some(Token::Str(TokenType::Identifier, name, ..)) => name.clone(),
                _ => return Err(self.fail(ErrorCode::ErrNeedIdentifier)),
            };
            if self.is_declared(&name) {
                return Err(self.fail(ErrorCode::ErrDuplicateDeclaration));
            }
            self.add_constant(name);
            match self.next_token() {
                Some(Token::Str(TokenType::EqualSign, ..)) => (),
                _ => return Err(self.fail(ErrorCode::ErrConstantNeedValue)),
            }
            let val = self.analyze_constant_expression()?;
            match self.next_token() {
                Some(Token::Str(TokenType::Semicolon, ..)) => (),
                _ => return Err(self.fail(ErrorCode::ErrNoSemicolon)),
            }
            self.instructions.push(Instruction(Operation::LIT, val));
        }
    }

    /// `varDecls := { 'var' identifier [ '=' expr ] ';' }`
    #[verifier::rlimit(40)]
    fn analyze_variable_declaration(&mut self) -> (result: Result<(), CompilationError>)
        requires
            old(self).well_formed(),
        ensures
            final(self).follows(
                old(self),
                result,
                variable_declarations(old(self).tokens(), old(self).progress()),
            ),
    {
        loop
            invariant
                self.well_formed(),
                self.tokens@ == old(self).tokens@,
                variable_declarations(self.tokens(), self.progress()) == variable_declarations(
                    old(self).tokens(),
                    old(self).progress(),
                ),
            decreases self.tokens.len() - self.offset,
        {
            match self.next_token() {
                Some(Token::Str(TokenType::Var, ..)) => (),
                Some(_) => {
                    self.unread_token();
                    return Ok(());
                },
                None => return Ok(()),
            }
            let name = self.require_token(
                TokenType::Identifier,
                ErrorCode::ErrNeedIdentifier,
            )?.get_value_string();
            if self.is_declared(&name) {
                return Err(self.fail(ErrorCode::ErrDuplicateDeclaration));
            }
            let initialized = match self.next_token() {
                Some(Token::Str(TokenType::EqualSign, ..)) => true,
                Some(_) => {
                    self.unread_token();
                    false
                },
                None => false,
            };
            if !initialized {
                self.require_token(TokenType::Semicolon, ErrorCode::ErrNoSemicolon)?;
                self.add_uninitialized_variable(name);
                self.instructions.push(Instruction(Operation::LIT, 0));
                continue;
            }
            self.analyze_expression()?;
            self.require_token(TokenType::Semicolon, ErrorCode::ErrNoSemicolon)?;
            self.add_variable(name);
        }
    }

    /// `stmts := { assignStmt | printStmt | ';' }`
    #[verifier::rlimit(40)]
    fn analyze_statement_sequence(&mut self) -> (result: Result<(), CompilationError>)
        requires
            old(self).well_formed(),
        ensures
            final(self).follows(
                old(self),
                result,
                statement_sequence(old(self).tokens(), old(self).progress()),
            ),
    {
        loop
            invariant
                self.well_formed(),
                self.tokens@ == old(self).tokens@,
                statement_sequence(self.tokens(), self.progress()) == statement_sequence(
                    old(self).tokens(),
                    old(self).progress(),
                ),
            decreases self.tokens.len() - self.offset,
        {
            match self.next_token() {
                Some(Token::Str(TokenType::Identifier, ..)) => {
                    self.unread_token();
                    self.analyze_assignment_statement()?;
                },
                Some(Token::Str(TokenType::Print, ..)) => {
                    self.unread_token();
                    self.analyze_output_statement()?;
                },
                Some(Token::Str(TokenType::Semicolon, ..)) => (),
                None => return Ok(()),
                Some(_) => {
                    self.unread_token();
                    return Ok(());
                },
            };
        }
    }

    /// `constExpr := [ '+' | '-' ] unsignedInteger`
    fn analyze_constant_expression(&mut self) -> (value: Result<i32, CompilationError>)
        requires
            old(self).well_formed(),
        ensures
            final(self).well_formed(),
            final(self).tokens@ == old(self).tokens@,
            final(self).symbols@ == old(self).symbols@,
            final(self).instructions@ == old(self).instructions@,
            match constant_expression(old(self).tokens(), old(self).offset as int) {
                Ok(constant) => {
                    &&& value == Ok::<i32, CompilationError>(constant.value)
                    &&& final(self).offset == old(self).offset + constant.len
                },
                Err(diagnostic) => value is Err && value->Err_0@ == diagnostic,
            },
    {
        let negative = match self.next_token() {
            Some(Token::Str(TokenType::PlusSign, ..)) => false,
            Some(Token::Str(TokenType::MinusSign, ..)) => true,
            Some(_) => {
                self.unread_token();
                false
            },
            None => false,
        };
        let literal = match self.next_token() {
            Some(Token::Integer(TokenType::UnsignedInteger, literal, ..)) => *literal,
            _ => return Err(self.fail(ErrorCode::ErrIncompleteExpression)),
        };
        let operand = literal_operand(literal);
        if negative && operand != i32::MIN {
            Ok(-operand)
        } else {
            Ok(operand)
        }
    }

    /// `expr := term { ('+' | '-') term }`
    #[verifier::rlimit(40)]
    fn analyze_expression(&mut self) -> (result: Result<(), CompilationError>)
        requires
            old(self).well_formed(),
        ensures
            final(self).follows(
                old(self),
                result,
                old(self).progress().with(
                    expression(
                        old(self).tokens(),
                        old(self).progress().symbols,
                        old(self).offset as int,
                    ),
                ),
            ),
        decreases old(self).tokens.len() - old(self).offset, 5nat,
    {
        let ghost tokens = self.tokens();
        let ghost symbols = self.progress().symbols;
        let ghost expected = self.progress().with(expression(tokens, symbols, self.offset as int));
        self.analyze_item()?;
        proof {
            let first = term(tokens, symbols, old(self).offset as int)->Ok_0;
            let rest = expression_tail(tokens, symbols, self.offset as int);
            if rest is Ok {
                assert((old(self).progress().code + first.code) + rest->Ok_0.code =~= old(
                    self,
                ).progress().code + (first.code + rest->Ok_0.code));
            }
        }
        loop
            invariant
                self.well_formed(),
                self.tokens@ == old(self).tokens@,
                tokens == self.tokens(),
                symbols == self.progress().symbols,
                old(self).offset <= self.offset,
                self.progress().with(expression_tail(tokens, symbols, self.offset as int))
                    == expected,
                expected == old(self).progress().with(
                    expression(
                        old(self).tokens(),
                        old(self).progress().symbols,
                        old(self).offset as int,
                    ),
                ),
            decreases self.tokens.len() - self.offset,
        {
            let ghost before = self.progress();
            let instr = match self.next_token() {
                Some(Token::Str(TokenType::PlusSign, ..)) => Instruction(Operation::ADD, 0),
                Some(Token::Str(TokenType::MinusSign, ..)) => Instruction(Operation::SUB, 0),
                Some(_) => {
                    self.unread_token();
                    proof {
                        assert(self.progress().code + Seq::<Instruction>::empty()
                            =~= self.progress().code);
                    }
                    return Ok(());
                },
                None => {
                    proof {
                        assert(self.progress().code + Seq::<Instruction>::empty()
                            =~= self.progress().code);
                    }
                    return Ok(());
                },
            };
            self.analyze_item()?;
            self.instructions.push(instr);
            proof {
                let operand = term(tokens, symbols, before.at + 1)->Ok_0;
                let rest = expression_tail(tokens, symbols, self.offset as int);
                if rest is Ok {
                    assert((before.code + operand.code).push(instr) + rest->Ok_0.code
                        =~= before.code + (operand.code.push(instr) + rest->Ok_0.code));
                }
            }
        }
    }

    /// `assignStmt := identifier '=' expr ';'`
    #[verifier::rlimit(40)]
    fn analyze_assignment_statement(&mut self) -> (result: Result<(), CompilationError>)
        requires
            old(self).well_formed(),
        ensures
            final(self).follows(
                old(self),
                result,
                assignment_statement(old(self).tokens(), old(self).progress()),
            ),
    {
        let name = self.require_token(
            TokenType::Identifier,
            ErrorCode::ErrNeedIdentifier,
        )?.get_value_string();
        if !self.is_declared(&name) {
            return Err(self.fail(ErrorCode::ErrNotDeclared));
        }
        if self.is_constant(&name) {
            return Err(self.fail(ErrorCode::ErrAssignToConstant));
        }
        self.require_token(TokenType::EqualSign, ErrorCode::ErrInvalidAssignment)?;
        self.analyze_expression()?;
        self.require_token(TokenType::Semicolon, ErrorCode::ErrNoSemicolon)?;
        let index = self.get_index(&name);
        self.instructions.push(Instruction(Operation::STO, index));
        if !self.is_initialized_variable(&name) {
            self.make_initialized(name);
        } else {
            proof {
                let symbols = self.progress().symbols;
                lemma_lookup(symbols, name@);
                assert(initialized(symbols, lookup(symbols, name@)->0) =~= symbols);
            }
        }
        Ok(())
    }

    /// `printStmt := 'print' '(' expr ')' ';'`
    fn analyze_output_statement(&mut self) -> (result: Result<(), CompilationError>)
        requires
            old(self).well_formed(),
        ensures
            final(self).follows(
                old(self),
                result,
                output_statement(old(self).tokens(), old(self).progress()),
            ),
    {
        self.require_token(TokenType::Print, ErrorCode::ErrInvalidPrint)?;
        self.require_token(TokenType::LeftBracket, ErrorCode::ErrInvalidPrint)?;
        self.analyze_expression()?;
        self.require_token(TokenType::RightBracket, ErrorCode::ErrInvalidPrint)?;
        self.require_token(TokenType::Semicolon, ErrorCode::ErrNoSemicolon)?;
        self.instructions.push(Instruction(Operation::WRT, 0));
        Ok(())
    }

    /// `term := factor { ('*' | '/') factor }`
    #[verifier::rlimit(40)]
    fn analyze_item(&mut self) -> (result: Result<(), CompilationError>)
        requires
            old(self).well_formed(),
        ensures
            final(self).follows(
                old(self),
                result,
                old(self).progress().with(
                    term(old(self).tokens(), old(self).progress().symbols, old(self).offset as int),
                ),
            ),
        decreases old(self).tokens.len() - old(self).offset, 3nat,
    {
        let ghost tokens = self.tokens();
        let ghost symbols = self.progress().symbols;
        let ghost expected = self.progress().with(term(tokens, symbols, self.offset as int));
        self.analyze_factor()?;
        proof {
            let first = factor(tokens, symbols, old(self).offset as int)->Ok_0;
            let rest = term_tail(tokens, symbols, self.offset as int);
            if rest is Ok {
                assert((old(self).progress().code + first.code) + rest->Ok_0.code =~= old(
                    self,
                ).progress().code + (first.code + rest->Ok_0.code));
            }
        }
        loop
            invariant
                self.well_formed(),
                self.tokens@ == old(self).tokens@,
                tokens == self.tokens(),
                symbols == self.progress().symbols,
                old(self).offset <= self.offset,
                self.progress().with(term_tail(tokens, symbols, self.offset as int)) == expected,
                expected == old(self).progress().with(
                    term(old(self).tokens(), old(self).progress().symbols, old(self).offset as int),
                ),
            decreases self.tokens.len() - self.offset,
        {
            let ghost before = self.progress();
            let instr = match self.next_token() {
                Some(Token::Str(TokenType::MultiplicationSign, ..)) => Instruction(
                    Operation::MUL,
                    0,
                ),
                Some(Token::Str(TokenType::DivisionSign, ..)) => Instruction(Operation::DIV, 0),
                Some(_) => {
                    self.unread_token();
                    proof {
                        assert(self.progress().code + Seq::<Instruction>::empty()
                            =~= self.progress().code);
                    }
                    return Ok(());
                },
                None => {
                    proof {
                        assert(self.progress().code + Seq::<Instruction>::empty()
                            =~= self.progress().code);
                    }
                    return Ok(());
                },
            };
            self.analyze_factor()?;
            self.instructions.push(instr);
            proof {
                let operand = factor(tokens, symbols, before.at + 1)->Ok_0;
                let rest = term_tail(tokens, symbols, self.offset as int);
                if rest is Ok {
                    assert((before.code + operand.code).push(instr) + rest->Ok_0.code
                        =~= before.code + (operand.code.push(instr) + rest->Ok_0.code));
                }
            }
        }
    }

    /// `factor := [ '+' | '-' ] ( identifier | unsignedInteger | '(' expr ')' )`
    #[verifier::rlimit(40)]
    fn analyze_factor(&mut self) -> (result: Result<(), CompilationError>)
        requires
            old(self).well_formed(),
        ensures
            final(self).follows(
                old(self),
                result,
                old(self).progress().with(
                    factor(
                        old(self).tokens(),
                        old(self).progress().symbols,
                        old(self).offset as int,
                    ),
                ),
            ),
        decreases old(self).tokens.len() - old(self).offset, 1nat,
    {
        let negative = match self.next_token() {
            None => return Err(self.fail(ErrorCode::ErrIncompleteExpression)),
            Some(Token::Str(TokenType::PlusSign, ..)) => false,
            Some(Token::Str(TokenType::MinusSign, ..)) => true,
            Some(_) => {
                self.unread_token();
                false
            },
        };
        let ghost body = self.progress();
        let token = match self.next_token() {
            Some(token) => Some(token.clone()),
            None => None,
        };
        match token {
            None => return Err(self.fail(ErrorCode::ErrIncompleteExpression)),
            Some(Token::Str(TokenType::Identifier, name, ..)) => {
                if !self.is_declared(&name) {
                    return Err(self.fail(ErrorCode::ErrNotDeclared));
                }
                if !self.is_initialized_variable(&name) && !self.is_constant(&name) {
                    return Err(self.fail(ErrorCode::ErrNotInitialized));
                }
                let index = self.get_index(&name);
                self.instructions.push(Instruction(Operation::LOD, index));
                proof {
                    assert(self.progress().code =~= body.code + seq![
                        Instruction(Operation::LOD, index),
                    ]);
                }
            },
            Some(Token::Integer(TokenType::UnsignedInteger, val, ..)) => {
                self.instructions.push(Instruction(Operation::LIT, literal_operand(val)));
                proof {
                    assert(self.progress().code =~= body.code + seq![
                        Instruction(Operation::LIT, operand_of(val)),
                    ]);
                }
            },
            Some(Token::Str(TokenType::LeftBracket, ..)) => {
                self.analyze_expression()?;
                self.require_token(TokenType::RightBracket, ErrorCode::ErrInvalidInput)?;
            },
            _ => return Err(self.fail(ErrorCode::ErrIncompleteExpression)),
        }
        if negative {
            self.instructions.push(Instruction(Operation::SUB, 0));
            proof {
                let inner = factor(
                    old(self).tokens(),
                    old(self).progress().symbols,
                    old(self).offset as int,
                )->Ok_0;
                assert(self.progress().code =~= old(self).progress().code + inner.code);
            }
        }
        Ok(())
    }

    /// Reads the next token, if there is one.
    fn next_token(&mut self) -> (token: Option<&Token>)
        requires
            old(self).well_formed(),
        ensures
            final(self).well_formed(),
            final(self).tokens@ == old(self).tokens@,
            final(self).symbols@ == old(self).symbols@,
            final(self).instructions@ == old(self).instructions@,
            old(self).offset < old(self).tokens.len() ==> token == Some(
                &old(self).tokens@[old(self).offset as int],
            ) && final(self).offset == old(self).offset + 1,
            old(self).offset >= old(self).tokens.len() ==> token is None && final(self).offset
                == old(self).offset,
    {
        if self.offset == self.tokens.len() {
            return None;
        }
        self.offset += 1;
        Some(&self.tokens[self.offset - 1])
    }

    /// Puts the token that was read last back.
    fn unread_token(&mut self)
        requires
            old(self).well_formed(),
            old(self).symbols.len() < old(self).offset,
        ensures
            final(self).well_formed(),
            final(self).tokens@ == old(self).tokens@,
            final(self).symbols@ == old(self).symbols@,
            final(self).instructions@ == old(self).instructions@,
            final(self).offset == old(self).offset - 1,
    {
        self.offset -= 1;
    }

    /// The end of the token that was read last, or the origin before any was read.
    fn current_pos(&self) -> (pos: (usize, usize))
        requires
            self.well_formed(),
        ensures
            position_view(pos) == if self.offset > 0 {
                position_at(self.tokens(), self.offset - 1)
            } else {
                (0, 0)
            },
    {
        if self.offset > 0 {
            self.tokens[self.offset - 1].get_end_pos()
        } else {
            (0, 0)
        }
    }

    /// The diagnostic for the token that was read last.
    fn fail(&self, err_code: ErrorCode) -> (error: CompilationError)
        requires
            self.well_formed(),
        ensures
            self.offset > 0 ==> error@ == failure(self.tokens(), self.offset - 1, err_code),
            self.offset == self.tokens.len() ==> error@ == failure(
                self.tokens(),
                self.offset as int,
                err_code,
            ),
    {
        CompilationError::new_packed(self.current_pos(), err_code)
    }

    /// Reads the next token, which has to be a word or sign of the given kind.
    fn require_token(&mut self, ttype: TokenType, err_code: ErrorCode) -> (token: Result<
        Token,
        CompilationError,
    >)
        requires
            old(self).well_formed(),
        ensures
            final(self).well_formed(),
            final(self).tokens@ == old(self).tokens@,
            final(self).symbols@ == old(self).symbols@,
            final(self).instructions@ == old(self).instructions@,
            old(self).offset <= final(self).offset,
            if is_symbol(old(self).tokens(), old(self).offset as int, ttype) {
                &&& token is Ok
                &&& token->Ok_0@ == old(self).tokens()[old(self).offset as int]
                &&& final(self).offset == old(self).offset + 1
            } else {
                &&& token is Err
                &&& token->Err_0@ == failure(old(self).tokens(), old(self).offset as int, err_code)
            },
    {
        let token = match self.next_token() {
            Some(token) => Some(token.clone()),
            None => None,
        };
        match token {
            Some(Token::Str(kind, text, start, end)) => {
                if kind == ttype {
                    Ok(Token::Str(kind, text, start, end))
                } else {
                    Err(self.fail(err_code))
                }
            },
            _ => Err(self.fail(err_code)),
        }
    }

    /// The slot of a name, if it is declared.
    fn find(&self, s: &String) -> (slot: Option<usize>)
        ensures
            match slot {
                Some(found) => found < self.symbols.len() && lookup(self.progress().symbols, s@)
                    == Some(found as int),
                None => lookup(self.progress().symbols, s@) is None,
            },
    {
        let ghost symbols = symbols_of(self.symbols@);
        let mut i: usize = self.symbols.len();
        proof {
            assert(symbols.take(i as int) =~= symbols);
        }
        while i > 0
            invariant
                i <= self.symbols.len(),
                symbols == symbols_of(self.symbols@),
                lookup(symbols, s@) == lookup(symbols.take(i as int), s@),
            decreases i,
        {
            i -= 1;
            proof {
                assert(symbols.take(i + 1).drop_last() =~= symbols.take(i as int));
                assert(symbols.take(i + 1).last() == self.symbols@[i as int]@);
            }
            if self.symbols[i].name == *s {
                return Some(i);
            }
        }
        None
    }

    /// Registers a name in the next slot.
    fn add(&mut self, name: String, sig_type: SymbolKind)
        requires
            old(self).well_formed(),
            old(self).symbols.len() < old(self).offset,
        ensures
            final(self).well_formed(),
            final(self).tokens@ == old(self).tokens@,
            final(self).progress() == old(self).progress().declare(name@, sig_type),
    {
        self.symbols.push(SymbolEntry { name, kind: sig_type });
        proof {
            assert(self.progress().symbols =~= old(self).progress().declare(
                name@,
                sig_type,
            ).symbols);
        }
    }

    fn add_variable(&mut self, name: String)
        requires
            old(self).well_formed(),
            old(self).symbols.len() < old(self).offset,
        ensures
            final(self).well_formed(),
            final(self).tokens@ == old(self).tokens@,
            final(self).progress() == old(self).progress().declare(name@, SymbolKind::Variable),
    {
        self.add(name, SymbolKind::Variable)
    }

    fn add_constant(&mut self, name: String)
        requires
            old(self).well_formed(),
            old(self).symbols.len() < old(self).offset,
        ensures
            final(self).well_formed(),
            final(self).tokens@ == old(self).tokens@,
            final(self).progress() == old(self).progress().declare(name@, SymbolKind::Constant),
    {
        self.add(name, SymbolKind::Constant);
    }

    fn add_uninitialized_variable(&mut self, name: String)
        requires
            old(self).well_formed(),
            old(self).symbols.len() < old(self).offset,
        ensures
            final(self).well_formed(),
            final(self).tokens@ == old(self).tokens@,
            final(self).progress() == old(self).progress().declare(
                name@,
                SymbolKind::Uninitialized,
            ),
    {
        self.add(name, SymbolKind::Uninitialized);
    }

    /// Records that a declared variable has received a value.
    fn make_initialized(&mut self, var_name: String)
        requires
            old(self).well_formed(),
            lookup(old(self).progress().symbols, var_name@) is Some,
        ensures
            final(self).well_formed(),
            final(self).tokens@ == old(self).tokens@,
            final(self).offset == old(self).offset,
            final(self).instructions@ == old(self).instructions@,
            final(self).progress().symbols == initialized(
                old(self).progress().symbols,
                lookup(old(self).progress().symbols, var_name@)->0,
            ),
    {
        let slot = self.find(&var_name).unwrap();
        self.symbols.set(slot, SymbolEntry { name: var_name, kind: SymbolKind::Variable });
        proof {
            lemma_lookup(old(self).progress().symbols, var_name@);
            assert(self.progress().symbols =~= initialized(
                old(self).progress().symbols,
                slot as int,
            ));
        }
    }

    /// The slot of a declared name, as an operand.
    fn get_index(&self, s: &String) -> (index: i32)
        requires
            self.well_formed(),
            lookup(self.progress().symbols, s@) is Some,
        ensures
            index == lookup(self.progress().symbols, s@)->0,
    {
        self.find(s).unwrap() as i32
    }

    fn is_declared(&self, s: &String) -> (declared: bool)
        ensures
            declared == lookup(self.progress().symbols, s@) is Some,
    {
        self.find(s).is_some()
    }

    fn is_uninitialized_variable(&self, s: &String) -> (uninitialized: bool)
        ensures
            uninitialized == self.has_kind(s@, SymbolKind::Uninitialized),
    {
        self.is_kind(s, SymbolKind::Uninitialized)
    }

    fn is_initialized_variable(&self, s: &String) -> (initialized: bool)
        ensures
            initialized == self.has_kind(s@, SymbolKind::Variable),
    {
        self.is_kind(s, SymbolKind::Variable)
    }

    fn is_constant(&self, s: &String) -> (constant: bool)
        ensures
            constant == self.has_kind(s@, SymbolKind::Constant),
    {
        self.is_kind(s, SymbolKind::Constant)
    }

    /// Whether a name is declared with the given kind.
    spec fn has_kind(&self, name: Seq<char>, kind: SymbolKind) -> bool {
        let symbols = self.progress().symbols;
        lookup(symbols, name) is Some && symbols[lookup(symbols, name)->0].kind == kind
    }

    fn is_kind(&self, s: &String, kind: SymbolKind) -> (same: bool)
        ensures
            same == self.has_kind(s@, kind),
    {
        match self.find(s) {
            Some(slot) => self.symbols[slot].kind == kind,
            None => false,
        }
    }
}


/// The operand of a literal.
fn literal_operand(value: u32) -> (operand: i32)
    ensures
        operand == operand_of(value),
{
    if value <= 0x7fff_ffff {
        value as i32
    } else {
        ((value - 0x8000_0000) as i32) + i32::MIN
    }
}

/// Compiles a whole source text.
pub fn analyze(input: String) -> (instructions: Result<Vec<Instruction>, CompilationError>)
    requires
        input@.len() <= i32::MAX,
    ensures
        match compile_source(input@) {
            Ok(code) => instructions is Ok && instructions->Ok_0@ == code,
            Err(diagnostic) => instructions is Err && instructions->Err_0@ == diagnostic,
        },
{
    proof {
        lemma_scan_all_length(input@, 0);
    }
    let tokens = match tokenize(input) {
        Ok(tokens) => tokens,
        Err(error) => return Err(error),
    };
    let mut analyzer = Analyzer::new(tokens);
    match analyzer.analyze_program() {
        Ok(()) => Ok(analyzer.instructions),
        Err(error) => Err(error),
    }
}

} // verus!
