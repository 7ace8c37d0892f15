//! Characters, positions and decimal numerals: the vocabulary shared by the
//! scanner and by the listing of its results.

use vstd::prelude::*;

verus! {

/// `String::push` of the standard library appends the given character to
/// the end of the string: afterwards the string holds the characters it
/// held, in their order, and then the new one.
pub assume_specification[ String::push ](s: &mut String, ch: char)
    ensures
        final(s)@ == old(s)@.push(ch),
;

/// The classes of characters that the scanner reads in runs.
#[derive(Clone, Copy, Debug, PartialEq, Eq, Structural)]
pub enum CharClass {
    /// Blank characters between tokens.
    Space,
    /// Decimal digits.
    Digit,
    /// Letters and decimal digits, the body of a word.
    Alphanumeric,
}

/// Space, tab, line feed, vertical tab, form feed and carriage return.
pub open spec fn is_space(c: char) -> bool {
    c == ' ' || ('\t' <= c && c <= '\r')
}

/// The decimal digits.
pub open spec fn is_digit(c: char) -> bool {
    '0' <= c && c <= '9'
}

/// The letters of the basic Latin alphabet, in either case.
pub open spec fn is_letter(c: char) -> bool {
    ('a' <= c && c <= 'z') || ('A' <= c && c <= 'Z')
}

/// The visible characters of the basic Latin block, `!` to `~`.
pub open spec fn is_graphic(c: char) -> bool {
    '!' <= c && c <= '~'
}

impl CharClass {
    /// Whether the class holds the character.
    pub open spec fn contains(self, c: char) -> bool {
        match self {
            CharClass::Space => is_space(c),
            CharClass::Digit => is_digit(c),
            CharClass::Alphanumeric => is_letter(c) || is_digit(c),
        }
    }

    /// Whether the class holds the character.
    pub(crate) fn holds(self, c: char) -> (b: bool)
        ensures
            b == self.contains(c),
    {
        match self {
            CharClass::Space => c == ' ' || ('\t' <= c && c <= '\r'),
            CharClass::Digit => '0' <= c && c <= '9',
            CharClass::Alphanumeric => letter(c) || ('0' <= c && c <= '9'),
        }
    }
}

/// Whether a character is a letter.
pub(crate) fn letter(c: char) -> (b: bool)
    ensures
        b == is_letter(c),
{
    ('a' <= c && c <= 'z') || ('A' <= c && c <= 'Z')
}

/// Whether a character is visible.
pub(crate) fn graphic(c: char) -> (b: bool)
    ensures
        b == is_graphic(c),
{
    '!' <= c && c <= '~'
}

/// The first offset at or after `from` whose character is outside `class`,
/// or the length of the text when the run reaches its end.
pub open spec fn run_end(text: Seq<char>, from: int, class: CharClass) -> int
    decreases text.len() - from,
{
    if 0 <= from < text.len() && class.contains(text[from]) {
        run_end(text, from + 1, class)
    } else {
        from
    }
}

/// A run ends where the class ends: everything it covers is in the class,
/// and it stops at the end of the text or before a character outside it.
pub proof fn lemma_run_end(text: Seq<char>, from: int, class: CharClass)
    requires
        0 <= from <= text.len(),
    ensures
        from <= run_end(text, from, class) <= text.len(),
        forall|k: int| from <= k < run_end(text, from, class) ==> class.contains(#[trigger] text[k]),
        run_end(text, from, class) < text.len() ==> !class.contains(
            text[run_end(text, from, class)],
        ),
    decreases text.len() - from,
{
    if from < text.len() && class.contains(text[from]) {
        lemma_run_end(text, from + 1, class);
    }
}

/// The `(line, column)` of an offset into the text, both counted from zero:
/// a line feed ends its line, and the column counts the characters since then.
pub open spec fn position_of(text: Seq<char>, offset: int) -> (nat, nat)
    decreases offset,
{
    if offset <= 0 || offset > text.len() {
        (0, 0)
    } else {
        let before = position_of(text, offset - 1);
        if text[offset - 1] == '\n' {
            (before.0 + 1, 0)
        } else {
            (before.0, before.1 + 1)
        }
    }
}

/// Line and column together never exceed the offset they stand for.
pub proof fn lemma_position_bounded(text: Seq<char>, offset: int)
    ensures
        position_of(text, offset).0 + position_of(text, offset).1 <= if offset <= 0 {
            0
        } else {
            offset
        },
    decreases offset,
{
    if 0 < offset <= text.len() {
        lemma_position_bounded(text, offset - 1);
    }
}

/// The column of an offset is its distance from the start of its line: the
/// line starts at the start of the text or just after a line feed, and
/// holds no line feed up to the offset.
pub proof fn lemma_position_column(text: Seq<char>, offset: int)
    requires
        0 <= offset <= text.len(),
    ensures
        ({
            let start = offset - position_of(text, offset).1;
            &&& 0 <= start <= offset
            &&& start == 0 || text[start - 1] == '\n'
            &&& start == 0 ==> position_of(text, offset).0 == 0
            &&& forall|k: int| start <= k < offset ==> #[trigger] text[k] != '\n'
        }),
    decreases offset,
{
    if offset > 0 {
        lemma_position_column(text, offset - 1);
        lemma_position_line(text, offset - 1);
    }
}

/// The line of an offset is zero exactly where no line feed stands before the offset.
pub proof fn lemma_position_line(text: Seq<char>, offset: int)
    requires
        0 <= offset <= text.len(),
    ensures
        position_of(text, offset).0 == 0 <==> (forall|k: int|
            0 <= k < offset ==> #[trigger] text[k] != '\n'),
    decreases offset,
{
    if offset > 0 {
        lemma_position_line(text, offset - 1);
        if position_of(text, offset).0 != 0 && text[offset - 1] != '\n' {
            let k = choose|k: int| 0 <= k < offset - 1 && #[trigger] text[k] == '\n';
            assert(text[k] == '\n');
        }
    }
}

/// The plain-value form of a position held in machine integers.
pub open spec fn position_view(p: (usize, usize)) -> (nat, nat) {
    (p.0 as nat, p.1 as nat)
}

pub open spec fn digit_value(c: char) -> nat
    recommends
        is_digit(c),
{
    (c as int - '0' as int) as nat
}

/// The number that a string of decimal digits denotes; the empty string denotes zero.
pub open spec fn decimal_value(digits: Seq<char>) -> nat
    decreases digits.len(),
{
    if digits.len() == 0 {
        0
    } else {
        decimal_value(digits.drop_last()) * 10 + digit_value(digits.last())
    }
}

pub open spec fn all_digits(digits: Seq<char>) -> bool {
    forall|i: int| 0 <= i < digits.len() ==> is_digit(#[trigger] digits[i])
}

/// Reading more digits never makes the number smaller.
pub proof fn lemma_decimal_value_grows(digits: Seq<char>, n: int)
    requires
        0 <= n <= digits.len(),
    ensures
        decimal_value(digits.take(n)) <= decimal_value(digits),
    decreases digits.len() - n,
{
    if n == digits.len() {
        assert(digits.take(n) =~= digits);
    } else {
        lemma_decimal_value_grows(digits, n + 1);
        let longer = digits.take(n + 1);
        assert(longer.drop_last() =~= digits.take(n));
    }
}

/// The character of a single decimal digit.
pub open spec fn digit_char(d: nat) -> char
    recommends
        d < 10,
{
    ((d + '0' as nat) as u8) as char
}

/// The shortest decimal numeral of a natural number.
pub open spec fn decimal_digits(n: nat) -> Seq<char>
    decreases n,
{
    if n < 10 {
        seq![digit_char(n)]
    } else {
        decimal_digits(n / 10).push(digit_char(n % 10))
    }
}

/// The decimal numeral of an integer: a minus sign before the digits of a negative one.
pub open spec fn signed_decimal_digits(n: int) -> Seq<char> {
    if n < 0 {
        seq!['-'] + decimal_digits((-n) as nat)
    } else {
        decimal_digits(n as nat)
    }
}

/// A numeral is made of digits and denotes the number it was written for.
pub proof fn lemma_decimal_round_trip(n: nat)
    ensures
        decimal_digits(n).len() >= 1,
        all_digits(decimal_digits(n)),
        decimal_value(decimal_digits(n)) == n,
    decreases n,
{
    if n < 10 {
        let s = decimal_digits(n);
        assert(s.drop_last() =~= Seq::<char>::empty());
        assert(decimal_value(s.drop_last()) == 0);
    } else {
        lemma_decimal_round_trip(n / 10);
        let s = decimal_digits(n);
        assert(s.drop_last() =~= decimal_digits(n / 10));
    }
}

/// Reads a string of decimal digits as an unsigned 32-bit number.
pub(crate) fn parse_decimal(digits: &Vec<char>) -> (value: Option<u32>)
    requires
        all_digits(digits@),
    ensures
        match value {
            Some(v) => v == decimal_value(digits@),
            None => decimal_value(digits@) > u32::MAX,
        },
{
    let mut acc: u32 = 0;
    let mut i: usize = 0;
    while i < digits.len()
        invariant
            i <= digits.len(),
            all_digits(digits@),
            acc == decimal_value(digits@.take(i as int)),
        decreases digits.len() - i,
    {
        let d: u32 = (digits[i] as u32) - ('0' as u32);
        proof {
            let longer = digits@.take(i + 1);
            assert(longer.drop_last() =~= digits@.take(i as int));
            assert(longer.last() == digits@[i as int]);
            lemma_decimal_value_grows(digits@, i + 1);
        }
        if acc > (u32::MAX - d) / 10 {
            return None;
        }
        acc = acc * 10 + d;
        i += 1;
    }
    proof {
        assert(digits@.take(i as int) =~= digits@);
    }
    Some(acc)
}

/// Appends the decimal numeral of `n` to `out`.
pub(crate) fn push_decimal(out: &mut String, n: u32)
    ensures
        final(out)@ == old(out)@ + decimal_digits(n as nat),
    decreases n,
{
    if n >= 10 {
        push_decimal(out, n / 10);
    }
    let d: u8 = (n % 10) as u8;
    out.push((d + 48u8) as char);
    proof {
        if n >= 10 {
            assert(final(out)@ =~= old(out)@ + decimal_digits(n as nat));
        } else {
            assert(final(out)@ =~= old(out)@ + decimal_digits(n as nat));
        }
    }
}

/// Appends the decimal numeral of a signed number to `out`.
pub(crate) fn push_signed_decimal(out: &mut String, n: i32)
    ensures
        final(out)@ == old(out)@ + signed_decimal_digits(n as int),
{
    if n < 0 {
        out.push('-');
        let magnitude: u32 = if n == i32::MIN {
            2147483648u32
        } else {
            (-n) as u32
        };
        push_decimal(out, magnitude);
        proof {
            assert(final(out)@ =~= old(out)@ + signed_decimal_digits(n as int));
        }
    } else {
        push_decimal(out, n as u32);
    }
}

/// The characters of a string slice, one by one.
pub(crate) fn chars_of(s: &str) -> (v: Vec<char>)
    ensures
        v@ == s@,
{
    let mut v: Vec<char> = Vec::new();
    for c in it: s.chars()
        invariant
            v@ == it.seq().take(it.index() as int),
            it.seq() == s@,
    {
        v.push(c);
    }
    v
}

/// The string that holds the given characters.
pub(crate) fn string_of(chars: &Vec<char>) -> (s: String)
    ensures
        s@ == chars@,
{
    let mut s = String::new();
    let mut i: usize = 0;
    while i < chars.len()
        invariant
            i <= chars.len(),
            s@ == chars@.take(i as int),
        decreases chars.len() - i,
    {
        s.push(chars[i]);
        i += 1;
    }
    s
}

} // verus!
