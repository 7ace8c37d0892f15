//! Laws of the scanner: what scanning the text of a token gives back, which
//! characters it accepts, and what form its tokens have.

use crate::error::{Diagnostic, ErrorCode};
use crate::text::{
    decimal_digits, is_digit, is_graphic, is_letter, is_space, lemma_decimal_round_trip,
    lemma_run_end, position_of, run_end, CharClass,
};
use crate::tokenizer::{
    keyword_kind, lemma_scan_token_advances, scan_all, scan_token, sign_char, sign_kind,
    TokenType, TokenView,
};
use vstd::prelude::*;

verus! {

/// The signs and their characters stand in one-to-one correspondence.
pub proof fn lemma_sign_kind_inverts_sign_char(kind: TokenType, c: char)
    ensures
        sign_char(kind) == Some(c) <==> sign_kind(c) == Some(kind),
{
}

/// Scanning the canonical text of a sign yields exactly one token: it has
/// the kind of that sign, and the canonical text of its kind is the text
/// that was scanned.
pub proof fn lemma_sign_round_trip(kind: TokenType)
    requires
        sign_char(kind) is Some,
    ensures
        ({
            let text = seq![sign_char(kind)->0];
            &&& scan_all(text, 0) == Ok::<Seq<TokenView>, Diagnostic>(
                seq![TokenView::Str(kind, text, (0, 0), (0, 1))],
            )
            &&& sign_char(scan_all(text, 0)->Ok_0[0].kind()) == Some(text[0])
            &&& scan_all(text, 0)->Ok_0[0].text() == text
        }),
{
    let c = sign_char(kind)->0;
    let text = seq![c];
    let token = TokenView::Str(kind, text, (0, 0), (0, 1));
    assert(run_end(text, 0, CharClass::Space) == 0);
    assert(run_end(text, 1, CharClass::Space) == 1);
    assert(position_of(text, 0) == (0nat, 0nat));
    assert(position_of(text, 1) == (0nat, 1nat));
    assert(seq![text[0]] =~= text);
    assert(scan_token(text, 0).result == Ok::<TokenView, Diagnostic>(token));
    assert(scan_token(text, 0).cursor == 1);
    assert(scan_token(text, 1).result is Err);
    assert(scan_all(text, 1) == Ok::<Seq<TokenView>, Diagnostic>(Seq::empty()));
    assert(seq![token] + Seq::<TokenView>::empty() =~= seq![token]);
}

/// A run that starts where everything up to the end of the text is in the
/// class ends at the end of the text.
proof fn lemma_run_to_the_end(text: Seq<char>, from: int, class: CharClass)
    requires
        0 <= from <= text.len(),
        forall|k: int| from <= k < text.len() ==> class.contains(#[trigger] text[k]),
    ensures
        run_end(text, from, class) == text.len(),
    decreases text.len() - from,
{
    if from < text.len() {
        lemma_run_to_the_end(text, from + 1, class);
    }
}

/// Before the first line feed, the column of an offset is the offset itself.
proof fn lemma_position_on_the_first_line(text: Seq<char>, offset: int)
    requires
        0 <= offset <= text.len(),
        forall|k: int| 0 <= k < offset ==> #[trigger] text[k] != '\n',
    ensures
        position_of(text, offset) == (0nat, offset as nat),
    decreases offset,
{
    if offset > 0 {
        lemma_position_on_the_first_line(text, offset - 1);
    }
}

/// Scanning the numeral of a number yields exactly one token: the literal
/// of that number.
pub proof fn lemma_literal_round_trip(value: u32)
    ensures
        ({
            let text = decimal_digits(value as nat);
            &&& scan_all(text, 0) == Ok::<Seq<TokenView>, Diagnostic>(
                seq![
                    TokenView::Integer(TokenType::UnsignedInteger, value, (0, 0), (0, text.len())),
                ],
            )
            &&& scan_all(text, 0)->Ok_0[0].text() == text
        }),
{
    let text = decimal_digits(value as nat);
    let token = TokenView::Integer(TokenType::UnsignedInteger, value, (0, 0), (0, text.len()));
    lemma_decimal_round_trip(value as nat);
    assert forall|k: int| 1 <= k < text.len() implies CharClass::Digit.contains(
        #[trigger] text[k],
    ) by {}
    lemma_run_to_the_end(text, 1, CharClass::Digit);
    assert forall|k: int| 0 <= k < text.len() implies #[trigger] text[k] != '\n' by {
        assert(is_digit(text[k]));
    }
    lemma_position_on_the_first_line(text, 0);
    lemma_position_on_the_first_line(text, text.len() as int);
    assert(is_digit(text[0]));
    assert(run_end(text, 0, CharClass::Space) == 0);
    assert(text.subrange(0, text.len() as int) =~= text);
    assert(scan_token(text, 0).result == Ok::<TokenView, Diagnostic>(token));
    assert(scan_token(text, 0).cursor == text.len());
    assert(run_end(text, text.len() as int, CharClass::Space) == text.len());
    assert(scan_token(text, text.len() as int).result is Err);
    assert(scan_all(text, text.len() as int) == Ok::<Seq<TokenView>, Diagnostic>(Seq::empty()));
    assert(seq![token] + Seq::<TokenView>::empty() =~= seq![token]);
}

/// Scanning a word, a letter followed by letters and digits, yields exactly
/// one token: the keyword that the word spells, or else the identifier of
/// that name.
pub proof fn lemma_word_round_trip(word: Seq<char>)
    requires
        word.len() >= 1,
        is_letter(word[0]),
        forall|k: int| 0 <= k < word.len() ==> CharClass::Alphanumeric.contains(#[trigger] word[k]),
    ensures
        scan_all(word, 0) == Ok::<Seq<TokenView>, Diagnostic>(
            seq![TokenView::Str(keyword_kind(word), word, (0, 0), (0, word.len()))],
        ),
{
    let token = TokenView::Str(keyword_kind(word), word, (0, 0), (0, word.len()));
    lemma_run_to_the_end(word, 1, CharClass::Alphanumeric);
    assert forall|k: int| 0 <= k < word.len() implies #[trigger] word[k] != '\n' by {
        assert(CharClass::Alphanumeric.contains(word[k]));
    }
    lemma_position_on_the_first_line(word, 0);
    lemma_position_on_the_first_line(word, word.len() as int);
    assert(run_end(word, 0, CharClass::Space) == 0);
    assert(word.subrange(0, word.len() as int) =~= word);
    assert(scan_token(word, 0).result == Ok::<TokenView, Diagnostic>(token));
    assert(scan_token(word, 0).cursor == word.len());
    assert(run_end(word, word.len() as int, CharClass::Space) == word.len());
    assert(scan_token(word, word.len() as int).result is Err);
    assert(scan_all(word, word.len() as int) == Ok::<Seq<TokenView>, Diagnostic>(Seq::empty()));
    assert(seq![token] + Seq::<TokenView>::empty() =~= seq![token]);
}

/// Whether a character may start a token: a digit, a letter, or a sign.
pub open spec fn starts_token(c: char) -> bool {
    is_digit(c) || is_letter(c) || sign_kind(c) is Some
}

/// Every character is blank, or starts a token, or is invalid, and is only
/// one of these. The characters that start a token are visible characters of
/// the basic Latin block, so that whatever is neither blank nor visible is
/// invalid.
pub proof fn lemma_alphabet(c: char)
    ensures
        !(is_space(c) && starts_token(c)),
        starts_token(c) ==> is_graphic(c),
        !(is_digit(c) && is_letter(c)),
        sign_kind(c) is Some ==> !is_digit(c) && !is_letter(c),
{
}

/// A scanning step that comes upon an invalid character rejects it at its
/// position and leaves the cursor on it, and it rejects nothing else so.
pub proof fn lemma_invalid_character_is_rejected(text: Seq<char>, cursor: int)
    requires
        0 <= cursor <= text.len(),
    ensures
        ({
            let start = run_end(text, cursor, CharClass::Space);
            let step = scan_token(text, cursor);
            let invalid = start < text.len() && !starts_token(text[start]);
            &&& invalid ==> step.cursor == start && step.result == Err::<TokenView, Diagnostic>(
                Diagnostic { pos: position_of(text, start), code: ErrorCode::ErrInvalidInput },
            )
            &&& !invalid ==> !(step.result is Err && step.result->Err_0.code
                == ErrorCode::ErrInvalidInput)
        }),
{
    lemma_run_end(text, cursor, CharClass::Space);
}

/// Whether a token is one that the scanner yields: a literal of the kind of
/// literals, a sign with the text of its kind, or a word, which is a keyword
/// exactly where it is spelled as one.
pub open spec fn scanned_form(token: TokenView) -> bool {
    match token {
        TokenView::Integer(kind, ..) => kind == TokenType::UnsignedInteger,
        TokenView::Str(kind, text, ..) => if sign_char(kind) is Some {
            text == seq![sign_char(kind)->0]
        } else {
            &&& text.len() >= 1
            &&& is_letter(text[0])
            &&& forall|k: int| 0 <= k < text.len() ==> CharClass::Alphanumeric.contains(#[trigger] text[k])
            &&& kind == keyword_kind(text)
        },
    }
}

/// Every token that a scanning step yields has the form of a scanned token.
pub proof fn lemma_scan_token_form(text: Seq<char>, cursor: int)
    requires
        0 <= cursor <= text.len(),
        scan_token(text, cursor).result is Ok,
    ensures
        scanned_form(scan_token(text, cursor).result->Ok_0),
{
    lemma_run_end(text, cursor, CharClass::Space);
    let start = run_end(text, cursor, CharClass::Space);
    if is_letter(text[start]) && !is_digit(text[start]) {
        lemma_run_end(text, start + 1, CharClass::Alphanumeric);
        let end = run_end(text, start + 1, CharClass::Alphanumeric);
        let word = text.subrange(start, end);
        assert forall|k: int| 0 <= k < word.len() implies CharClass::Alphanumeric.contains(
            #[trigger] word[k],
        ) by {
            assert(word[k] == text[start + k]);
        }
        assert(word[0] == text[start]);
        assert(word.len() >= 1);
        assert(sign_char(keyword_kind(word)) is None);
    }
}

/// Every token of a text that scans has the form of a scanned token.
pub proof fn lemma_scan_all_form(text: Seq<char>, cursor: int)
    requires
        0 <= cursor <= text.len(),
        scan_all(text, cursor) is Ok,
    ensures
        forall|i: int|
            0 <= i < scan_all(text, cursor)->Ok_0.len() ==> scanned_form(
                #[trigger] scan_all(text, cursor)->Ok_0[i],
            ),
    decreases text.len() - cursor,
{
    lemma_scan_token_advances(text, cursor);
    let step = scan_token(text, cursor);
    if step.result is Ok {
        lemma_scan_token_form(text, cursor);
        lemma_scan_all_form(text, step.cursor);
        let rest = scan_all(text, step.cursor)->Ok_0;
        let all = scan_all(text, cursor)->Ok_0;
        assert forall|i: int| 0 <= i < all.len() implies scanned_form(#[trigger] all[i]) by {
            if i > 0 {
                assert(all[i] == rest[i - 1]);
            }
        }
    }
}

} // verus!
