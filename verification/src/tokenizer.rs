//! The lexical scanner: from source text to tokens with their positions.

use crate::error::{CompilationError, Diagnostic, ErrorCode};
use crate::text::{
    all_digits, chars_of, decimal_digits, decimal_value, graphic, is_digit, is_letter, letter,
    lemma_position_bounded, lemma_run_end, parse_decimal, position_of, position_view,
    push_decimal, run_end, string_of, CharClass,
};
use vstd::prelude::*;

verus! {

/// The kinds of token of the language.
#[derive(Debug, Clone, Copy, PartialEq, Eq, Structural)]
pub enum TokenType {
    NullToken,
    UnsignedInteger,
    Identifier,
    Begin,
    End,
    Var,
    Const,
    Print,
    PlusSign,
    MinusSign,
    MultiplicationSign,
    DivisionSign,
    EqualSign,
    Semicolon,
    LeftBracket,
    RightBracket,
}

/// A token: an integer literal with its value, or a word or sign with its text.
/// Both carry the position where they start and the position just past their end.
#[derive(Debug)]
pub enum Token {
    Integer(TokenType, u32, (usize, usize), (usize, usize)),
    Str(TokenType, String, (usize, usize), (usize, usize)),
}

/// A token as plain values.
pub enum TokenView {
    Integer(TokenType, u32, (nat, nat), (nat, nat)),
    Str(TokenType, Seq<char>, (nat, nat), (nat, nat)),
}

impl TokenView {
    pub open spec fn kind(self) -> TokenType {
        match self {
            TokenView::Integer(kind, ..) => kind,
            TokenView::Str(kind, ..) => kind,
        }
    }

    /// The text of the token in a listing: the numeral of a literal, the spelling of anything else.
    pub open spec fn text(self) -> Seq<char> {
        match self {
            TokenView::Integer(_, value, ..) => decimal_digits(value as nat),
            TokenView::Str(_, text, ..) => text,
        }
    }

    pub open spec fn start(self) -> (nat, nat) {
        match self {
            TokenView::Integer(_, _, start, _) => start,
            TokenView::Str(_, _, start, _) => start,
        }
    }

    pub open spec fn end(self) -> (nat, nat) {
        match self {
            TokenView::Integer(_, _, _, end) => end,
            TokenView::Str(_, _, _, end) => end,
        }
    }
}

impl View for Token {
    type V = TokenView;

    open spec fn view(&self) -> TokenView {
        match *self {
            Token::Integer(kind, value, start, end) => TokenView::Integer(
                kind,
                value,
                position_view(start),
                position_view(end),
            ),
            Token::Str(kind, text, start, end) => TokenView::Str(
                kind,
                text@,
                position_view(start),
                position_view(end),
            ),
        }
    }
}

impl Clone for Token {
    fn clone(&self) -> (copy: Self)
        ensures
            copy@ == self@,
    {
        match self {
            Token::Integer(kind, value, start, end) => Token::Integer(*kind, *value, *start, *end),
            Token::Str(kind, text, start, end) => Token::Str(*kind, text.clone(), *start, *end),
        }
    }
}

/// A sequence of tokens as plain values.
pub open spec fn views_of(tokens: Seq<Token>) -> Seq<TokenView> {
    Seq::new(tokens.len(), |i: int| tokens[i]@)
}

/// The canonical character of a sign, for the kinds that are signs.
pub open spec fn sign_char(kind: TokenType) -> Option<char> {
    match kind {
        TokenType::EqualSign => Some('='),
        TokenType::PlusSign => Some('+'),
        TokenType::MinusSign => Some('-'),
        TokenType::MultiplicationSign => Some('*'),
        TokenType::DivisionSign => Some('/'),
        TokenType::LeftBracket => Some('('),
        TokenType::RightBracket => Some(')'),
        TokenType::Semicolon => Some(';'),
        _ => None,
    }
}

/// The sign that a character spells, if it spells one.
pub open spec fn sign_kind(c: char) -> Option<TokenType> {
    if c == '=' {
        Some(TokenType::EqualSign)
    } else if c == '-' {
        Some(TokenType::MinusSign)
    } else if c == '+' {
        Some(TokenType::PlusSign)
    } else if c == '*' {
        Some(TokenType::MultiplicationSign)
    } else if c == '/' {
        Some(TokenType::DivisionSign)
    } else if c == '(' {
        Some(TokenType::LeftBracket)
    } else if c == ')' {
        Some(TokenType::RightBracket)
    } else if c == ';' {
        Some(TokenType::Semicolon)
    } else {
        None
    }
}

/// The kind of a word: one of the five keywords, or an identifier.
pub open spec fn keyword_kind(word: Seq<char>) -> TokenType {
    if word == seq!['b', 'e', 'g', 'i', 'n'] {
        TokenType::Begin
    } else if word == seq!['e', 'n', 'd'] {
        TokenType::End
    } else if word == seq!['c', 'o', 'n', 's', 't'] {
        TokenType::Const
    } else if word == seq!['v', 'a', 'r'] {
        TokenType::Var
    } else if word == seq!['p', 'r', 'i', 'n', 't'] {
        TokenType::Print
    } else {
        TokenType::Identifier
    }
}

/// The diagnostic that stands for the end of the input.
pub open spec fn end_of_input() -> Diagnostic {
    Diagnostic { pos: (0, 0), code: ErrorCode::ErrEOF }
}

/// What one scanning step yields, and where it leaves the cursor.
pub struct Scanned {
    pub result: Result<TokenView, Diagnostic>,
    pub cursor: int,
}

/// One scanning step from `cursor`.
///
/// Blank characters are skipped. At the end of the text the step reports the
/// end of the input. A digit starts a literal that runs over all following
/// digits; its value must fit in 32 bits. A letter starts a word that runs
/// over all following letters and digits. A sign is a token by itself. Any
/// other character is invalid, and the cursor stays on it.
pub open spec fn scan_token(text: Seq<char>, cursor: int) -> Scanned {
    let start = run_end(text, cursor, CharClass::Space);
    if !(0 <= start < text.len()) {
        Scanned { result: Err(end_of_input()), cursor: start }
    } else if is_digit(text[start]) {
        let end = run_end(text, start + 1, CharClass::Digit);
        let value = decimal_value(text.subrange(start, end));
        if value <= u32::MAX {
            Scanned {
                result: Ok(
                    TokenView::Integer(
                        TokenType::UnsignedInteger,
                        value as u32,
                        position_of(text, start),
                        position_of(text, end),
                    ),
                ),
                cursor: end,
            }
        } else {
            Scanned {
                result: Err(
                    Diagnostic {
                        pos: position_of(text, end),
                        code: ErrorCode::ErrInvalidIdentifier,
                    },
                ),
                cursor: end,
            }
        }
    } else if is_letter(text[start]) {
        let end = run_end(text, start + 1, CharClass::Alphanumeric);
        let word = text.subrange(start, end);
        Scanned {
            result: Ok(
                TokenView::Str(
                    keyword_kind(word),
                    word,
                    position_of(text, start),
                    position_of(text, end),
                ),
            ),
            cursor: end,
        }
    } else {
        match sign_kind(text[start]) {
            Some(kind) => Scanned {
                result: Ok(
                    TokenView::Str(
                        kind,
                        seq![text[start]],
                        position_of(text, start),
                        position_of(text, start + 1),
                    ),
                ),
                cursor: start + 1,
            },
            None => Scanned {
                result: Err(
                    Diagnostic { pos: position_of(text, start), code: ErrorCode::ErrInvalidInput },
                ),
                cursor: start,
            },
        }
    }
}

/// A step stays inside the text, never moves back, and moves on when it yields a token.
pub proof fn lemma_scan_token_advances(text: Seq<char>, cursor: int)
    requires
        0 <= cursor <= text.len(),
    ensures
        cursor <= scan_token(text, cursor).cursor <= text.len(),
        scan_token(text, cursor).result is Ok ==> cursor < scan_token(text, cursor).cursor,
{
    lemma_run_end(text, cursor, CharClass::Space);
    let start = run_end(text, cursor, CharClass::Space);
    if start < text.len() {
        lemma_run_end(text, start + 1, CharClass::Digit);
        lemma_run_end(text, start + 1, CharClass::Alphanumeric);
    }
}

/// All the tokens from `cursor` to the end of the text, or the first lexical error.
pub open spec fn scan_all(text: Seq<char>, cursor: int) -> Result<Seq<TokenView>, Diagnostic>
    decreases text.len() - cursor,
    when 0 <= cursor <= text.len()
    via scan_all_decreases
{
    let step = scan_token(text, cursor);
    match step.result {
        Ok(token) => match scan_all(text, step.cursor) {
            Ok(rest) => Ok(seq![token] + rest),
            Err(diagnostic) => Err(diagnostic),
        },
        Err(diagnostic) => if diagnostic.code == ErrorCode::ErrEOF {
            Ok(Seq::empty())
        } else {
            Err(diagnostic)
        },
    }
}

#[via_fn]
proof fn scan_all_decreases(text: Seq<char>, cursor: int) {
    lemma_scan_token_advances(text, cursor);
}

/// Every token is made of at least one character: there are no more tokens
/// than characters from the cursor on.
pub proof fn lemma_scan_all_length(text: Seq<char>, cursor: int)
    requires
        0 <= cursor <= text.len(),
    ensures
        scan_all(text, cursor) matches Ok(tokens) ==> tokens.len() <= text.len() - cursor,
    decreases text.len() - cursor,
{
    lemma_scan_token_advances(text, cursor);
    let step = scan_token(text, cursor);
    if step.result is Ok {
        lemma_scan_all_length(text, step.cursor);
    }
}

/// Where scanning to the end leaves the cursor: at the end of the text, or
/// where the first lexical error left it.
pub open spec fn scan_all_end(text: Seq<char>, cursor: int) -> int
    decreases text.len() - cursor,
    when 0 <= cursor <= text.len()
    via scan_all_end_decreases
{
    let step = scan_token(text, cursor);
    match step.result {
        Ok(_) => scan_all_end(text, step.cursor),
        Err(_) => step.cursor,
    }
}

#[via_fn]
proof fn scan_all_end_decreases(text: Seq<char>, cursor: int) {
    lemma_scan_token_advances(text, cursor);
}

impl TokenType {
    /// The canonical text of a sign. The other kinds have none, which is
    /// reported as an invalid identifier at the origin.
    pub fn to_string(&self) -> (text: Result<String, CompilationError>)
        ensures
            match sign_char(*self) {
                Some(c) => text is Ok && text->Ok_0@ == seq![c],
                None => text is Err && text->Err_0@ == (Diagnostic {
                    pos: (0, 0),
                    code: ErrorCode::ErrInvalidIdentifier,
                }),
            },
    {
        let c = match self {
            TokenType::EqualSign => '=',
            TokenType::PlusSign => '+',
            TokenType::MinusSign => '-',
            TokenType::MultiplicationSign => '*',
            TokenType::DivisionSign => '/',
            TokenType::LeftBracket => '(',
            TokenType::RightBracket => ')',
            TokenType::Semicolon => ';',
            _ => return Err(CompilationError::new(0, 0, ErrorCode::ErrInvalidIdentifier)),
        };
        let mut text = String::new();
        text.push(c);
        Ok(text)
    }
}

impl Token {
    /// The token of a sign, between the two given positions.
    pub fn from_sign(token_type: TokenType, start: (usize, usize), end: (usize, usize)) -> (token:
        Result<Token, CompilationError>)
        ensures
            match sign_char(token_type) {
                Some(c) => token is Ok && token->Ok_0@ == TokenView::Str(
                    token_type,
                    seq![c],
                    position_view(start),
                    position_view(end),
                ),
                None => token is Err && token->Err_0@ == (Diagnostic {
                    pos: (0, 0),
                    code: ErrorCode::ErrInvalidIdentifier,
                }),
            },
    {
        let sign_string = match token_type.to_string() {
            Ok(text) => text,
            Err(e) => return Err(e),
        };
        Ok(Token::Str(token_type, sign_string, start, end))
    }

    pub fn get_type(&self) -> (kind: &TokenType)
        ensures
            *kind == self@.kind(),
    {
        match self {
            Token::Integer(ttype, ..) => ttype,
            Token::Str(ttype, ..) => ttype,
        }
    }

    /// The text of the token in a listing.
    pub fn get_value_string(&self) -> (text: String)
        ensures
            text@ == self@.text(),
    {
        match self {
            Token::Str(_, string, ..) => string.clone(),
            Token::Integer(_, value, ..) => {
                let mut text = String::new();
                push_decimal(&mut text, *value);
                text
            },
        }
    }

    /// The value of an integer literal.
    pub fn get_integer(&self) -> (value: u32)
        requires
            self is Integer,
        ensures
            value == self->Integer_1,
    {
        match self {
            Token::Integer(_, value, ..) => *value,
            Token::Str(..) => 0,
        }
    }

    pub fn get_end_pos(&self) -> (pos: (usize, usize))
        ensures
            position_view(pos) == self@.end(),
    {
        match self {
            Token::Str(_, _, _, end) => *end,
            Token::Integer(_, _, _, end) => *end,
        }
    }
}

/// Whether a word is spelled exactly as the given text.
fn spells(word: &Vec<char>, text: &str) -> (same: bool)
    ensures
        same == (word@ == text@),
{
    let letters = chars_of(text);
    if letters.len() != word.len() {
        return false;
    }
    let mut i: usize = 0;
    while i < word.len()
        invariant
            i <= word.len(),
            letters.len() == word.len(),
            letters@ == text@,
            word@.take(i as int) == letters@.take(i as int),
        decreases word.len() - i,
    {
        if word[i] != letters[i] {
            return false;
        }
        proof {
            assert(word@.take(i + 1) =~= word@.take(i as int).push(word@[i as int]));
            assert(letters@.take(i + 1) =~= letters@.take(i as int).push(letters@[i as int]));
        }
        i += 1;
    }
    proof {
        assert(word@.take(i as int) =~= word@);
        assert(letters@.take(i as int) =~= letters@);
    }
    true
}

/// Tells the five keywords from identifiers.
fn check_keyword(identifier: &Vec<char>) -> (kind: TokenType)
    ensures
        kind == keyword_kind(identifier@),
{
    proof {
        reveal_strlit("begin");
        reveal_strlit("end");
        reveal_strlit("const");
        reveal_strlit("var");
        reveal_strlit("print");
        assert("begin"@ =~= seq!['b', 'e', 'g', 'i', 'n']);
        assert("end"@ =~= seq!['e', 'n', 'd']);
        assert("const"@ =~= seq!['c', 'o', 'n', 's', 't']);
        assert("var"@ =~= seq!['v', 'a', 'r']);
        assert("print"@ =~= seq!['p', 'r', 'i', 'n', 't']);
    }
    if spells(identifier, "begin") {
        TokenType::Begin
    } else if spells(identifier, "end") {
        TokenType::End
    } else if spells(identifier, "const") {
        TokenType::Const
    } else if spells(identifier, "var") {
        TokenType::Var
    } else if spells(identifier, "print") {
        TokenType::Print
    } else {
        TokenType::Identifier
    }
}

/// The states of the scanner's automaton.
enum DFAState {
    InitialState,
    UnsignedIntegerState,
    PlusSignState,
    MinusSignState,
    DivisionSignState,
    MultiplicationSignState,
    IdentifierState,
    EqualSignState,
    SemicolonState,
    LeftbracketState,
    RightbracketState,
}

impl DFAState {
    /// The kind of token that a final state of a sign stands for.
    spec fn sign(self) -> Option<TokenType> {
        match self {
            DFAState::PlusSignState => Some(TokenType::PlusSign),
            DFAState::MinusSignState => Some(TokenType::MinusSign),
            DFAState::DivisionSignState => Some(TokenType::DivisionSign),
            DFAState::MultiplicationSignState => Some(TokenType::MultiplicationSign),
            DFAState::EqualSignState => Some(TokenType::EqualSign),
            DFAState::SemicolonState => Some(TokenType::Semicolon),
            DFAState::LeftbracketState => Some(TokenType::LeftBracket),
            DFAState::RightbracketState => Some(TokenType::RightBracket),
            _ => None,
        }
    }

    /// What the automaton has established when it is in this state, having
    /// started at `from` and read up to `cursor`: `word` is what it has
    /// gathered of the token, and `pos` is where the token starts.
    spec fn reached(
        self,
        text: Seq<char>,
        from: int,
        cursor: int,
        word: Seq<char>,
        pos: (usize, usize),
    ) -> bool {
        let start = run_end(text, from, CharClass::Space);
        match self {
            DFAState::InitialState => {
                &&& 0 <= from <= cursor <= text.len()
                &&& run_end(text, cursor, CharClass::Space) == start
                &&& word.len() == 0
            },
            DFAState::UnsignedIntegerState => {
                &&& 0 <= start < cursor <= text.len()
                &&& is_digit(text[start])
                &&& position_view(pos) == position_of(text, start)
                &&& word == text.subrange(start, cursor)
                &&& all_digits(word)
                &&& run_end(text, cursor, CharClass::Digit) == run_end(
                    text,
                    start + 1,
                    CharClass::Digit,
                )
            },
            DFAState::IdentifierState => {
                &&& 0 <= start < cursor <= text.len()
                &&& !is_digit(text[start])
                &&& is_letter(text[start])
                &&& position_view(pos) == position_of(text, start)
                &&& word == text.subrange(start, cursor)
                &&& run_end(text, cursor, CharClass::Alphanumeric) == run_end(
                    text,
                    start + 1,
                    CharClass::Alphanumeric,
                )
            },
            _ => {
                &&& 0 <= start < text.len()
                &&& cursor == start + 1
                &&& !is_digit(text[start])
                &&& !is_letter(text[start])
                &&& sign_kind(text[start]) == self.sign()
                &&& position_view(pos) == position_of(text, start)
            },
        }
    }
}

/// Whether what a scanning step returned is what the step is defined to yield.
pub open spec fn token_matches(
    got: Result<Token, CompilationError>,
    expected: Result<TokenView, Diagnostic>,
) -> bool {
    match expected {
        Ok(token) => got is Ok && got->Ok_0@ == token,
        Err(diagnostic) => got is Err && got->Err_0@ == diagnostic,
    }
}

/// A scanner over a source text held in memory. Its cursor moves forward
/// one character at a time, and can be put back by one character after each move.
pub struct Tokenizer {
    buffer: Vec<char>,
    cursor: usize,
    ptr: (usize, usize),
    last: (usize, usize),
}

impl Tokenizer {
    /// The source text.
    pub closed spec fn text(&self) -> Seq<char> {
        self.buffer@
    }

    /// The offset of the next character to read.
    pub closed spec fn cursor(&self) -> int {
        self.cursor as int
    }

    /// The line and column that the scanner holds for its cursor.
    pub closed spec fn position(&self) -> (nat, nat) {
        position_view(self.ptr)
    }

    /// The cursor is inside the text or at its end, and the scanner knows its line and column.
    pub open spec fn well_formed(&self) -> bool {
        &&& 0 <= self.cursor() <= self.text().len() <= usize::MAX
        &&& self.position() == position_of(self.text(), self.cursor())
    }

    /// Whether the scanner holds the line and column of the character before
    /// its cursor, as it does when it has just moved past that character.
    spec fn can_unread(&self) -> bool {
        &&& self.cursor > 0
        &&& position_view(self.last) == position_of(self.buffer@, self.cursor - 1)
    }

    /// A scanner at the start of `input`.
    pub fn new(input: &str) -> (tokenizer: Tokenizer)
        ensures
            tokenizer.well_formed(),
            tokenizer.text() == input@,
            tokenizer.cursor() == 0,
    {
        let buffer = chars_of(input);
        assert(buffer@.len() == buffer.len());
        Tokenizer { buffer, cursor: 0, ptr: (0, 0), last: (0, 0) }
    }

    /// The next token, the end of the input as `ErrEOF`, or a lexical error.
    pub fn get_next_token(&mut self) -> (token: Result<Token, CompilationError>)
        requires
            old(self).well_formed(),
        ensures
            final(self).well_formed(),
            final(self).text() == old(self).text(),
            final(self).cursor() == scan_token(old(self).text(), old(self).cursor()).cursor,
            token_matches(token, scan_token(old(self).text(), old(self).cursor()).result),
    {
        if self.is_EOF() {
            return Err(CompilationError::new(0, 0, ErrorCode::ErrEOF));
        }
        self.next_token()
    }

    /// All the remaining tokens, or the first lexical error.
    pub fn get_all_tokens(&mut self) -> (tokens: Result<Vec<Token>, CompilationError>)
        requires
            old(self).well_formed(),
        ensures
            final(self).well_formed(),
            final(self).text() == old(self).text(),
            final(self).cursor() == scan_all_end(old(self).text(), old(self).cursor()),
            match scan_all(old(self).text(), old(self).cursor()) {
                Ok(expected) => tokens is Ok && views_of(tokens->Ok_0@) == expected,
                Err(diagnostic) => tokens is Err && tokens->Err_0@ == diagnostic,
            },
    {
        let mut ret: Vec<Token> = Vec::new();
        let ghost text = self.text();
        let ghost from = self.cursor();
        loop
            invariant
                self.well_formed(),
                self.text() == text,
                text == old(self).text(),
                from == old(self).cursor(),
                0 <= from <= self.cursor() <= text.len(),
                scan_all_end(text, from) == scan_all_end(text, self.cursor()),
                match scan_all(text, self.cursor()) {
                    Ok(rest) => scan_all(text, from) == Ok::<Seq<TokenView>, Diagnostic>(
                        views_of(ret@) + rest,
                    ),
                    Err(diagnostic) => scan_all(text, from) == Err::<Seq<TokenView>, Diagnostic>(
                        diagnostic,
                    ),
                },
            decreases text.len() - self.cursor(),
        {
            let ghost before = self.cursor();
            proof {
                lemma_scan_token_advances(text, before);
            }
            match self.get_next_token() {
                Err(cerr) => {
                    if *cerr.get_err_code() == ErrorCode::ErrEOF {
                        proof {
                            assert(views_of(ret@) + Seq::<TokenView>::empty() =~= views_of(ret@));
                        }
                        return Ok(ret);
                    } else {
                        return Err(cerr);
                    }
                },
                Ok(token) => {
                    proof {
                        let rest = scan_all(text, self.cursor());
                        if rest is Ok {
                            assert(views_of(ret@).push(token@) + rest->Ok_0 =~= views_of(ret@) + (
                            seq![token@] + rest->Ok_0));
                        }
                        assert(views_of(ret@).push(token@) =~= views_of(ret@.push(token)));
                    }
                    ret.push(token);
                },
            }
        }
    }

    /// One run of the automaton, from the cursor to the end of the next token.
    fn next_token(&mut self) -> (token: Result<Token, CompilationError>)
        requires
            old(self).well_formed(),
        ensures
            final(self).well_formed(),
            final(self).text() == old(self).text(),
            final(self).cursor() == scan_token(old(self).text(), old(self).cursor()).cursor,
            token_matches(token, scan_token(old(self).text(), old(self).cursor()).result),
    {
        let mut current = DFAState::InitialState;
        let mut ss: Vec<char> = Vec::new();
        let mut pos: (usize, usize) = (0, 0);
        let ghost text = self.text();
        let ghost from = self.cursor();
        loop
            invariant
                self.well_formed(),
                self.text() == text,
                text == old(self).text(),
                from == old(self).cursor(),
                current.reached(text, from, self.cursor(), ss@, pos),
            decreases text.len() - self.cursor(),
        {
            match current {
                DFAState::InitialState => {
                    let ch = match self.next_char() {
                        Some(ch) => ch,
                        None => return Err(CompilationError::new(0, 0, ErrorCode::ErrEOF)),
                    };
                    let mut invalid = false;
                    if CharClass::Space.holds(ch) {
                        current = DFAState::InitialState;
                    } else if !graphic(ch) {
                        invalid = true;
                    } else if CharClass::Digit.holds(ch) {
                        current = DFAState::UnsignedIntegerState;
                    } else if letter(ch) {
                        current = DFAState::IdentifierState;
                    } else {
                        current = match ch {
                            '=' => DFAState::EqualSignState,
                            '-' => DFAState::MinusSignState,
                            '+' => DFAState::PlusSignState,
                            '*' => DFAState::MultiplicationSignState,
                            '/' => DFAState::DivisionSignState,
                            '(' => DFAState::LeftbracketState,
                            ')' => DFAState::RightbracketState,
                            ';' => DFAState::SemicolonState,
                            _ => {
                                invalid = true;
                                DFAState::InitialState
                            },
                        }
                    }
                    if !matches!(current, DFAState::InitialState) {
                        pos = self.previous_pos();
                    }
                    if invalid {
                        self.unread_last();
                        return Err(
                            CompilationError::new_packed(self.ptr, ErrorCode::ErrInvalidInput),
                        );
                    }
                    if !matches!(current, DFAState::InitialState) {
                        ss.push(ch);
                        proof {
                            assert(ss@ =~= text.subrange(self.cursor() - 1, self.cursor()));
                        }
                    }
                },
                DFAState::UnsignedIntegerState => {
                    let current_char = self.next_char();
                    let more = match current_char {
                        Some(ch) => CharClass::Digit.holds(ch),
                        None => false,
                    };
                    if !more {
                        if current_char.is_some() {
                            self.unread_last();
                        }
                        return match parse_decimal(&ss) {
                            Some(value) => Ok(
                                Token::Integer(TokenType::UnsignedInteger, value, pos, self.ptr),
                            ),
                            None => Err(
                                CompilationError::new_packed(
                                    self.ptr,
                                    ErrorCode::ErrInvalidIdentifier,
                                ),
                            ),
                        };
                    } else {
                        proof {
                            assert(ss@.push(text[self.cursor() - 1]) =~= text.subrange(
                                run_end(text, from, CharClass::Space),
                                self.cursor(),
                            ));
                        }
                        ss.push(current_char.unwrap());
                    }
                },
                DFAState::IdentifierState => {
                    let current_char = self.next_char();
                    let more = match current_char {
                        Some(ch) => CharClass::Alphanumeric.holds(ch),
                        None => false,
                    };
                    if !more {
                        if current_char.is_some() {
                            self.unread_last();
                        }
                        return Ok(Token::Str(check_keyword(&ss), string_of(&ss), pos, self.ptr));
                    } else {
                        proof {
                            assert(ss@.push(text[self.cursor() - 1]) =~= text.subrange(
                                run_end(text, from, CharClass::Space),
                                self.cursor(),
                            ));
                        }
                        ss.push(current_char.unwrap());
                    }
                },
                DFAState::PlusSignState => {
                    return Token::from_sign(TokenType::PlusSign, pos, self.ptr);
                },
                DFAState::MinusSignState => {
                    return Token::from_sign(TokenType::MinusSign, pos, self.ptr);
                },
                DFAState::MultiplicationSignState => {
                    return Token::from_sign(TokenType::MultiplicationSign, pos, self.ptr);
                },
                DFAState::DivisionSignState => {
                    return Token::from_sign(TokenType::DivisionSign, pos, self.ptr);
                },
                DFAState::EqualSignState => {
                    return Token::from_sign(TokenType::EqualSign, pos, self.ptr);
                },
                DFAState::LeftbracketState => {
                    return Token::from_sign(TokenType::LeftBracket, pos, self.ptr);
                },
                DFAState::RightbracketState => {
                    return Token::from_sign(TokenType::RightBracket, pos, self.ptr);
                },
                DFAState::SemicolonState => {
                    return Token::from_sign(TokenType::Semicolon, pos, self.ptr);
                },
            }
        }
    }

    /// Reads the character under the cursor and moves past it.
    fn next_char(&mut self) -> (ch: Option<char>)
        requires
            old(self).well_formed(),
        ensures
            final(self).well_formed(),
            final(self).text() == old(self).text(),
            match ch {
                Some(c) => {
                    &&& old(self).cursor() < old(self).text().len()
                    &&& c == old(self).text()[old(self).cursor()]
                    &&& final(self).cursor() == old(self).cursor() + 1
                    &&& final(self).can_unread()
                },
                None => {
                    &&& old(self).cursor() == old(self).text().len()
                    &&& final(self).cursor() == old(self).cursor()
                },
            },
    {
        if self.is_EOF() {
            return None;
        }
        let result = self.buffer[self.cursor];
        self.last = self.ptr;
        self.ptr = self.next_pos();
        self.cursor = self.cursor + 1;
        Some(result)
    }

    /// The position of the character that was read last.
    fn previous_pos(&self) -> (previous: (usize, usize))
        requires
            self.well_formed(),
            self.can_unread(),
        ensures
            position_view(previous) == position_of(self.text(), self.cursor() - 1),
    {
        self.last
    }

    /// The position one character past the cursor.
    fn next_pos(&self) -> (next: (usize, usize))
        requires
            self.well_formed(),
            self.cursor() < self.text().len(),
        ensures
            position_view(next) == position_of(self.text(), self.cursor() + 1),
    {
        proof {
            lemma_position_bounded(self.buffer@, self.cursor as int);
        }
        if self.buffer[self.cursor] == '\n' {
            (self.ptr.0 + 1, 0)
        } else {
            (self.ptr.0, self.ptr.1 + 1)
        }
    }

    #[allow(non_snake_case)]
    fn is_EOF(&self) -> (at_end: bool)
        requires
            self.well_formed(),
        ensures
            at_end == (self.cursor() >= self.text().len()),
    {
        self.cursor >= self.buffer.len()
    }

    /// Puts the character that was read last back.
    fn unread_last(&mut self)
        requires
            old(self).well_formed(),
            old(self).can_unread(),
        ensures
            final(self).well_formed(),
            final(self).text() == old(self).text(),
            final(self).cursor() == old(self).cursor() - 1,
    {
        self.ptr = self.previous_pos();
        self.cursor = self.cursor - 1;
    }
}

/// Scans a whole source text.
pub fn tokenize(input: String) -> (tokens: Result<Vec<Token>, CompilationError>)
    ensures
        match scan_all(input@, 0) {
            Ok(expected) => tokens is Ok && views_of(tokens->Ok_0@) == expected,
            Err(diagnostic) => tokens is Err && tokens->Err_0@ == diagnostic,
        },
{
    let mut tkz = Tokenizer::new(input.as_str());
    tkz.get_all_tokens()
}

} // verus!
