//! The scanner: from source text to a linked list of tokens.

use vstd::prelude::*;
use vstd::string::*;
use crate::cc::{Lexeme, Token, TokenKind, token_seq, lemma_token_seq_some};
use crate::error::{ParseError, ParseErrorKind, ParseErrorView, TokenizeError};
use crate::text::chars_of;

verus! {

/// Whether `c` has the Unicode property `White_Space`, as
/// `char::is_whitespace` reports it.
pub uninterp spec fn unicode_whitespace(c: char) -> bool;

/// Whether `c` has the Unicode property `Alphabetic`, as
/// `char::is_alphabetic` reports it.
pub uninterp spec fn unicode_alphabetic(c: char) -> bool;

/// `char::is_whitespace` depends on the character alone; its answer is what
/// [`unicode_whitespace`] names.
pub assume_specification[ char::is_whitespace ](c: char) -> (r: bool)
    ensures
        r == unicode_whitespace(c),
;

/// `char::is_alphabetic` depends on the character alone; its answer is what
/// [`unicode_alphabetic`] names.
pub assume_specification[ char::is_alphabetic ](c: char) -> (r: bool)
    ensures
        r == unicode_alphabetic(c),
;

/// The token rule that applies at a character.
#[derive(Debug, PartialEq, Eq, Clone, Copy, Structural)]
pub enum CharClass {
    /// White space, skipped.
    Space,
    /// The first character of a two-character operator.
    Pair,
    /// A one-character operator or punctuation mark.
    Single,
    /// The first digit of an integer literal.
    Digit,
    /// A one-character identifier.
    Letter,
    /// No rule applies.
    Unknown,
}

/// `==`, `!=`, `<=` and `>=`.
pub open spec fn is_pair_operator(a: char, b: char) -> bool {
    b == '=' && (a == '=' || a == '!' || a == '<' || a == '>')
}

/// `+ - * / ( ) < > ; =`.
pub open spec fn is_single_operator(c: char) -> bool {
    c == '+' || c == '-' || c == '*' || c == '/' || c == '(' || c == ')' || c == '<' || c == '>'
        || c == ';' || c == '='
}

/// `0` to `9`.
pub open spec fn is_decimal_digit(c: char) -> bool {
    '0' <= c && c <= '9'
}

/// The rules in their order of priority: white space, two-character
/// operators, one-character operators, digits, letters.
pub open spec fn classify_spec(
    c: char,
    next: Option<char>,
    whitespace: bool,
    alphabetic: bool,
) -> CharClass {
    if whitespace {
        CharClass::Space
    } else if next is Some && is_pair_operator(c, next->0) {
        CharClass::Pair
    } else if is_single_operator(c) {
        CharClass::Single
    } else if is_decimal_digit(c) {
        CharClass::Digit
    } else if alphabetic {
        CharClass::Letter
    } else {
        CharClass::Unknown
    }
}

/// Chooses the token rule for the character `c`, followed by `next`, given
/// whether `c` is white space and whether it is alphabetic.
pub fn classify(c: char, next: Option<char>, whitespace: bool, alphabetic: bool) -> (class:
    CharClass)
    ensures
        class == classify_spec(c, next, whitespace, alphabetic),
{
    if whitespace {
        return CharClass::Space;
    }
    if let Some(n) = next {
        if n == '=' && (c == '=' || c == '!' || c == '<' || c == '>') {
            return CharClass::Pair;
        }
    }
    if c == '+' || c == '-' || c == '*' || c == '/' || c == '(' || c == ')' || c == '<' || c == '>'
        || c == ';' || c == '=' {
        CharClass::Single
    } else if '0' <= c && c <= '9' {
        CharClass::Digit
    } else if alphabetic {
        CharClass::Letter
    } else {
        CharClass::Unknown
    }
}

/// How many digits stand in a row in `s` from index `i` on.
pub open spec fn digit_run(s: Seq<char>, i: int) -> nat
    decreases s.len() - i,
{
    if 0 <= i < s.len() && is_decimal_digit(s[i]) {
        1 + digit_run(s, i + 1)
    } else {
        0
    }
}

/// A row of digits ends at the end of the text at the latest, and holds
/// exactly the digits it spans.
pub proof fn lemma_digit_run_bounds(s: Seq<char>, i: int)
    requires
        0 <= i <= s.len(),
    ensures
        i + digit_run(s, i) <= s.len(),
        forall|k: int| i <= k < i + digit_run(s, i) ==> is_decimal_digit(#[trigger] s[k]),
        i + digit_run(s, i) < s.len() ==> !is_decimal_digit(s[i + digit_run(s, i)]),
        i < s.len() && is_decimal_digit(s[i]) ==> digit_run(s, i) >= 1,
    decreases s.len() - i,
{
    if i < s.len() && is_decimal_digit(s[i]) {
        lemma_digit_run_bounds(s, i + 1);
    }
}

/// The number that a row of digits writes in base ten.
pub open spec fn digits_value(digits: Seq<char>) -> nat
    decreases digits.len(),
{
    if digits.len() == 0 {
        0
    } else {
        (10 * digits_value(digits.drop_last()) + (digits.last() as int - '0' as int)) as nat
    }
}

/// The token that closes every list.
pub open spec fn eof_lexeme(pos: nat) -> Lexeme {
    Lexeme { kind: TokenKind::TkEof, val: None, text: Seq::empty(), pos, len: 0 }
}

/// An operator or punctuation token.
pub open spec fn reserved_lexeme(text: Seq<char>, pos: nat) -> Lexeme {
    Lexeme { kind: TokenKind::TkReserved, val: None, text, pos, len: text.len() }
}

/// An identifier token.
pub open spec fn ident_lexeme(text: Seq<char>, pos: nat) -> Lexeme {
    Lexeme { kind: TokenKind::TkIndent, val: None, text, pos, len: text.len() }
}

/// An integer literal token.
pub open spec fn number_lexeme(text: Seq<char>, pos: nat) -> Lexeme {
    Lexeme {
        kind: TokenKind::TkNum,
        val: Some(digits_value(text) as i32),
        text,
        pos,
        len: text.len(),
    }
}

/// `front` before the tokens of `rest`; a failure in `rest` stays a failure.
pub open spec fn prepend(front: Seq<Lexeme>, rest: Result<Seq<Lexeme>, TokenizeError>) -> Result<
    Seq<Lexeme>,
    TokenizeError,
> {
    match rest {
        Ok(tokens) => Ok(front + tokens),
        Err(e) => Err(e),
    }
}

/// The tokens of `s` from index `i` on, closed by the end-of-input token, or
/// the first failure. A token that starts at index `k` has position `k + 1`;
/// the end-of-input token has the position just past the last character.
pub open spec fn scan_from(s: Seq<char>, i: int) -> Result<Seq<Lexeme>, TokenizeError>
    decreases s.len() - i,
{
    if i < 0 || i >= s.len() {
        Ok(seq![eof_lexeme((s.len() + 1) as nat)])
    } else {
        let next = if i + 1 < s.len() {
            Some(s[i + 1])
        } else {
            None
        };
        let pos = (i + 1) as nat;
        match classify_spec(s[i], next, unicode_whitespace(s[i]), unicode_alphabetic(s[i])) {
            CharClass::Space => scan_from(s, i + 1),
            CharClass::Pair => prepend(
                seq![reserved_lexeme(s.subrange(i, i + 2), pos)],
                scan_from(s, i + 2),
            ),
            CharClass::Single => prepend(
                seq![reserved_lexeme(s.subrange(i, i + 1), pos)],
                scan_from(s, i + 1),
            ),
            CharClass::Digit => {
                proof {
                    lemma_digit_run_bounds(s, i);
                }
                let digits = s.subrange(i, i + digit_run(s, i));
                if digits_value(digits) <= i32::MAX {
                    prepend(seq![number_lexeme(digits, pos)], scan_from(s, i + digit_run(s, i)))
                } else {
                    Err(TokenizeError::NumberOutOfRange { pos: pos as usize })
                }
            },
            CharClass::Letter => prepend(
                seq![ident_lexeme(s.subrange(i, i + 1), pos)],
                scan_from(s, i + 1),
            ),
            CharClass::Unknown => Err(
                TokenizeError::UnexpectedChar { pos: pos as usize, ch: s[i] },
            ),
        }
    }
}

/// The tokens of a whole source text.
pub open spec fn scan(s: Seq<char>) -> Result<Seq<Lexeme>, TokenizeError> {
    scan_from(s, 0)
}

/// Links a new token behind `cur` and hands it out. The new token has no
/// value and no successor; `cur` keeps everything but its link.
pub fn new_token(kind: TokenKind, cur: &mut Box<Token>, str: String, pos: usize, len: usize) -> (new:
    &mut Box<Token>)
    ensures
        new.kind == kind,
        new.next is None,
        new.val is None,
        new.str@ == str@,
        new.pos == pos,
        new.len == len,
        final(cur).lexeme() == old(cur).lexeme(),
        final(cur).next == Some(*final(new)),
{
    let token = Box::new(Token { kind, next: None, val: None, str, pos, len });
    cur.next = Some(token);
    cur.next.as_mut().unwrap()
}

/// Two-character operators come before their one-character prefixes: a
/// character that forms one of `==`, `!=`, `<=`, `>=` with its successor
/// starts that operator and never a token of its own, unless it is white
/// space.
pub proof fn lemma_pair_before_single(c: char, next: char, alphabetic: bool)
    requires
        is_pair_operator(c, next),
    ensures
        classify_spec(c, Some(next), false, alphabetic) == CharClass::Pair,
{
}

/// Where a two-character operator stands in the text, the scanner yields
/// it as one token of length 2 and goes on behind it.
pub proof fn lemma_pair_operator_is_one_token(s: Seq<char>, i: int)
    requires
        0 <= i,
        i + 1 < s.len(),
        is_pair_operator(s[i], s[i + 1]),
    ensures
        !unicode_whitespace(s[i]) ==> scan_from(s, i) == prepend(
            seq![reserved_lexeme(s.subrange(i, i + 2), (i + 1) as nat)],
            scan_from(s, i + 2),
        ),
{
}

/// What holds of every token that the scanner yields: its length is the
/// number of its characters; an identifier is one character; an integer
/// literal has a value; the end-of-input token has no characters.
pub open spec fn scanned(lexeme: Lexeme) -> bool {
    &&& lexeme.len == lexeme.text.len()
    &&& lexeme.kind == TokenKind::TkIndent ==> lexeme.text.len() == 1
    &&& lexeme.kind == TokenKind::TkNum ==> lexeme.val is Some && lexeme.text.len() >= 1
    &&& lexeme.kind == TokenKind::TkReserved ==> 1 <= lexeme.text.len() <= 2
    &&& lexeme.kind == TokenKind::TkEof ==> lexeme.text.len() == 0
}

/// Whether `tokens` ends in an end-of-input token and holds no other.
pub open spec fn closed_by_eof(tokens: Seq<Lexeme>) -> bool {
    &&& tokens.len() >= 1
    &&& tokens.last().kind == TokenKind::TkEof
    &&& forall|k: int| 0 <= k < tokens.len() - 1 ==> (#[trigger] tokens[k]).kind != TokenKind::TkEof
}

/// The tokens of a text end in exactly one end-of-input token, and each
/// of them is as [`scanned`] says.
pub proof fn lemma_scan_from_is_closed(s: Seq<char>, i: int)
    requires
        0 <= i,
    ensures
        scan_from(s, i) matches Ok(tokens) ==> closed_by_eof(tokens) && forall|k: int|
            0 <= k < tokens.len() ==> scanned(#[trigger] tokens[k]),
    decreases s.len() - i,
{
    if i < s.len() {
        lemma_digit_run_bounds(s, i);
        let next = if i + 1 < s.len() {
            Some(s[i + 1])
        } else {
            None
        };
        let class = classify_spec(s[i], next, unicode_whitespace(s[i]), unicode_alphabetic(s[i]));
        let after = match class {
            CharClass::Pair => i + 2,
            CharClass::Digit => i + digit_run(s, i),
            _ => i + 1,
        };
        lemma_scan_from_is_closed(s, after);
        if let Ok(tokens) = scan_from(s, i) {
            if class != CharClass::Space {
                let others = scan_from(s, after)->Ok_0;
                assert(tokens.skip(1) =~= others);
                assert forall|k: int| 0 <= k < tokens.len() implies scanned(
                    #[trigger] tokens[k],
                ) by {
                    if k > 0 {
                        assert(tokens[k] == others[k - 1]);
                    }
                }
                assert forall|k: int| 0 <= k < tokens.len() - 1 implies (#[trigger] tokens[k]).kind
                    != TokenKind::TkEof by {
                    if k > 0 {
                        assert(tokens[k] == others[k - 1]);
                    }
                }
                assert(tokens.last() == others.last());
            }
        }
    }
}

/// Putting a token at the end of what was scanned before is the same as
/// putting it in front of what is scanned after.
proof fn lemma_prepend_push(
    front: Seq<Lexeme>,
    lexeme: Lexeme,
    rest: Result<Seq<Lexeme>, TokenizeError>,
)
    ensures
        prepend(front, prepend(seq![lexeme], rest)) == prepend(front.push(lexeme), rest),
{
    if let Ok(tokens) = rest {
        assert(front + (seq![lexeme] + tokens) =~= front.push(lexeme) + tokens);
    }
}

/// Reads the row of digits that starts at `start`: its characters, its value
/// if that fits 32 bits, and the index just past it.
fn read_digits(chars: &Vec<char>, start: usize) -> (r: (String, Option<i32>, usize))
    requires
        start < chars.len(),
        is_decimal_digit(chars@[start as int]),
    ensures
        r.2 == start + digit_run(chars@, start as int),
        start < r.2 <= chars.len(),
        r.0@ == chars@.subrange(start as int, r.2 as int),
        match r.1 {
            Some(v) => v == digits_value(r.0@),
            None => digits_value(r.0@) > i32::MAX,
        },
{
    let n = chars.len();
    let mut text = String::new();
    let mut value: i64 = 0;
    let mut fits = true;
    let mut j = start;
    proof {
        lemma_digit_run_bounds(chars@, start as int);
        assert(text@ =~= chars@.subrange(start as int, j as int));
    }
    while j < n && '0' <= chars[j] && chars[j] <= '9'
        invariant
            n == chars.len(),
            start <= j <= n,
            start + digit_run(chars@, start as int) == j + digit_run(chars@, j as int),
            text@ == chars@.subrange(start as int, j as int),
            fits ==> value == digits_value(text@) && 0 <= value <= i32::MAX,
            !fits ==> digits_value(text@) > i32::MAX,
        decreases n - j,
    {
        let c = chars[j];
        let digit = (c as u32 - '0' as u32) as i64;
        proof {
            assert(text@.push(c).drop_last() =~= text@);
            assert(text@.push(c) =~= chars@.subrange(start as int, j + 1));
        }
        text.push(c);
        if fits {
            let wider = value * 10 + digit;
            if wider > i32::MAX as i64 {
                fits = false;
            } else {
                value = wider;
            }
        }
        j += 1;
    }
    let value = if fits {
        Some(value as i32)
    } else {
        None
    };
    (text, value, j)
}

/// Scans `input` into a list of tokens that ends in one end-of-input token.
/// The list holds exactly the tokens of [`scan`]; where that fails, so does
/// this, with the same error and no list.
pub fn tokenize(input: &str) -> (r: Result<Option<Box<Token>>, TokenizeError>)
    requires
        input@.len() < usize::MAX,
    ensures
        match r {
            Ok(list) => scan(input@) == Ok::<Seq<Lexeme>, TokenizeError>(token_seq(list)),
            Err(e) => scan(input@) == Err::<Seq<Lexeme>, TokenizeError>(e),
        },
{
    let chars = chars_of(input);
    let n = chars.len();
    let mut head = Box::new(Token::default());
    let ghost head0 = head.lexeme();
    let ghost mut before: Seq<Lexeme> = Seq::empty();
    let ghost mut emitted: Seq<Lexeme> = Seq::empty();
    let mut cur = &mut head;
    let mut i: usize = 0;
    proof {
        assert(prepend(emitted, scan_from(input@, 0)) == scan(input@)) by {
            if let Ok(tokens) = scan_from(input@, 0) {
                assert(emitted + tokens =~= tokens);
            }
        }
    }
    while i < n
        invariant
            chars@ == input@,
            n == chars@.len(),
            n < usize::MAX,
            i <= n,
            cur.next is None,
            token_seq(Some(after_borrow(head))) == before + token_seq(Some(*final(cur))),
            seq![head0] + emitted == before + seq![cur.lexeme()],
            scan(input@) == prepend(emitted, scan_from(input@, i as int)),
        decreases n - i,
    {
        let c = chars[i];
        let next = if i + 1 < n {
            Some(chars[i + 1])
        } else {
            None
        };
        let pos = i + 1;
        let class = classify(c, next, c.is_whitespace(), c.is_alphabetic());
        let mut text = String::new();
        let mut val: Option<i32> = None;
        let kind: TokenKind;
        let end: usize;
        match class {
            CharClass::Space => {
                i += 1;
                continue ;
            },
            CharClass::Unknown => {
                return Err(TokenizeError::UnexpectedChar { pos, ch: c });
            },
            CharClass::Pair => {
                text.push(c);
                text.push(chars[i + 1]);
                kind = TokenKind::TkReserved;
                end = i + 2;
                proof {
                    assert(text@ =~= input@.subrange(i as int, i + 2));
                }
            },
            CharClass::Single => {
                text.push(c);
                kind = TokenKind::TkReserved;
                end = i + 1;
                proof {
                    assert(text@ =~= input@.subrange(i as int, i + 1));
                }
            },
            CharClass::Letter => {
                text.push(c);
                kind = TokenKind::TkIndent;
                end = i + 1;
                proof {
                    assert(text@ =~= input@.subrange(i as int, i + 1));
                }
            },
            CharClass::Digit => {
                let (digits, value, after) = read_digits(&chars, i);
                match value {
                    Some(v) => {
                        val = Some(v);
                    },
                    None => {
                        return Err(TokenizeError::NumberOutOfRange { pos });
                    },
                }
                text = digits;
                kind = TokenKind::TkNum;
                end = after;
            },
        }
        let ghost lexeme = Lexeme {
            kind,
            val,
            text: text@,
            pos: pos as nat,
            len: (end - i) as nat,
        };
        let ghost prev = cur.lexeme();
        proof {
            assert(scan_from(input@, i as int) == prepend(
                seq![lexeme],
                scan_from(input@, end as int),
            ));
            lemma_prepend_push(emitted, lexeme, scan_from(input@, end as int));
        }
        cur = new_token(kind, cur, text, pos, end - i);
        cur.val = val;
        proof {
            assert((seq![head0] + emitted).push(lexeme) =~= seq![head0] + emitted.push(lexeme));
            assert((before + seq![prev]).push(lexeme) =~= before.push(prev) + seq![lexeme]);
            before = before.push(prev);
            emitted = emitted.push(lexeme);
        }
        i = end;
    }
    let ghost prev = cur.lexeme();
    let last = new_token(TokenKind::TkEof, cur, String::new(), n + 1, 0);
    proof {
        assert(token_seq(last.next) =~= Seq::<Lexeme>::empty());
        assert(token_seq(Some(*last)) =~= seq![last.lexeme()]);
    }
    proof {
        let whole = token_seq(Some(head));
        let eof = eof_lexeme((n + 1) as nat);
        assert(whole =~= seq![head.lexeme()] + token_seq(head.next));
        assert(whole =~= before + seq![prev] + seq![eof]);
        assert(whole =~= seq![head0] + (emitted + seq![eof]));
        assert(whole.drop_first() =~= token_seq(head.next));
        assert(whole.drop_first() =~= emitted + seq![eof]);
    }
    Ok(head.next)
}

/// Whether a token is the operator or punctuation mark `op`.
pub open spec fn is_symbol(lexeme: Lexeme, op: Seq<char>) -> bool {
    lexeme.kind == TokenKind::TkReserved && lexeme.len == op.len() && lexeme.text == op
}

/// Whether the first of `tokens` is the symbol `op`.
pub open spec fn at_symbol(tokens: Seq<Lexeme>, op: Seq<char>) -> bool {
    tokens.len() > 0 && is_symbol(tokens[0], op)
}

/// Whether the first of `tokens` is an integer literal that carries its value.
pub open spec fn at_number(tokens: Seq<Lexeme>) -> bool {
    tokens.len() > 0 && tokens[0].kind == TokenKind::TkNum && tokens[0].val is Some
}

/// The failure to report when the first of `tokens` is not what was required:
/// it names the token found instead and its position.
pub open spec fn mismatch(kind: ParseErrorKind, expected: Seq<char>, tokens: Seq<Lexeme>) -> ParseErrorView {
    if tokens.len() > 0 {
        ParseErrorView { kind, expected, found: tokens[0].text, pos: Some(tokens[0].pos) }
    } else {
        ParseErrorView { kind, expected, found: Seq::empty(), pos: None }
    }
}

/// The failure of [`expect`].
pub open spec fn symbol_error(tokens: Seq<Lexeme>, op: Seq<char>) -> ParseErrorView {
    mismatch(ParseErrorKind::ExpectedSymbol, op, tokens)
}

/// The failure of [`expect_number`]: an integer token without a value is
/// told apart from a token of another kind.
pub open spec fn number_error(tokens: Seq<Lexeme>) -> ParseErrorView {
    if tokens.len() > 0 && tokens[0].kind == TokenKind::TkNum {
        mismatch(ParseErrorKind::MissingValue, Seq::empty(), tokens)
    } else {
        mismatch(ParseErrorKind::ExpectedNumber, Seq::empty(), tokens)
    }
}

/// Whether the token under the cursor is the symbol `op`.
pub(crate) fn head_is_symbol(token: &Option<Box<Token>>, op: &String) -> (r: bool)
    ensures
        r == at_symbol(token_seq(*token), op@),
{
    match token {
        Some(t) => {
            proof {
                lemma_token_seq_some(*t);
            }
            t.kind == TokenKind::TkReserved && op.as_str().unicode_len() == t.len && *op == t.str
        },
        None => false,
    }
}

/// Moves the cursor to the next token and hands out the one it leaves,
/// cut off from the list.
pub(crate) fn advance(token: &mut Option<Box<Token>>) -> (head: Box<Token>)
    requires
        *old(token) is Some,
    ensures
        *final(token) == (*old(token))->0.next,
        token_seq(*final(token)) == token_seq(*old(token)).skip(1),
        head.lexeme() == token_seq(*old(token))[0],
        head.next is None,
{
    let mut head = token.take().unwrap();
    proof {
        lemma_token_seq_some(head);
    }
    *token = head.next.take();
    head
}

/// Builds the failure that names the token under the cursor.
fn mismatch_at(token: &Option<Box<Token>>, kind: ParseErrorKind, expected: String) -> (e:
    ParseError)
    ensures
        e@ == mismatch(kind, expected@, token_seq(*token)),
{
    match token {
        Some(t) => {
            proof {
                lemma_token_seq_some(*t);
            }
            ParseError { kind, expected, found: t.str.clone(), pos: Some(t.pos) }
        },
        None => ParseError { kind, expected, found: String::new(), pos: None },
    }
}

/// Steps over the symbol `op`. Where the token under the cursor is not that
/// symbol, the cursor stays and the failure names `op` and the token found.
pub fn expect(token: &mut Option<Box<Token>>, op: String) -> (r: Result<(), ParseError>)
    ensures
        at_symbol(token_seq(*old(token)), op@) ==> r is Ok && token_seq(*final(token))
            == token_seq(*old(token)).skip(1),
        !at_symbol(token_seq(*old(token)), op@) ==> r is Err && r->Err_0@ == symbol_error(
            token_seq(*old(token)),
            op@,
        ) && *final(token) == *old(token),
{
    if head_is_symbol(token, &op) {
        advance(token);
        Ok(())
    } else {
        Err(mismatch_at(token, ParseErrorKind::ExpectedSymbol, op))
    }
}

/// Steps over an integer literal and returns its value. Where the token
/// under the cursor is no integer literal, or carries no value, the cursor
/// stays and the failure names the token found.
pub fn expect_number(token: &mut Option<Box<Token>>) -> (r: Result<i32, ParseError>)
    ensures
        at_number(token_seq(*old(token))) ==> r == Ok::<i32, ParseError>(
            token_seq(*old(token))[0].val->0,
        ) && token_seq(*final(token)) == token_seq(*old(token)).skip(1),
        !at_number(token_seq(*old(token))) ==> r is Err && r->Err_0@ == number_error(
            token_seq(*old(token)),
        ) && *final(token) == *old(token),
{
    let value = match token {
        Some(t) => {
            proof {
                lemma_token_seq_some(*t);
            }
            if t.kind == TokenKind::TkNum {
                t.val
            } else {
                return Err(mismatch_at(token, ParseErrorKind::ExpectedNumber, String::new()));
            }
        },
        None => {
            return Err(mismatch_at(token, ParseErrorKind::ExpectedNumber, String::new()));
        },
    };
    match value {
        Some(v) => {
            advance(token);
            Ok(v)
        },
        None => Err(mismatch_at(token, ParseErrorKind::MissingValue, String::new())),
    }
}

/// The text of a diagnostic: the source line, a caret under the character at
/// `pos` (counted from 1), and the message, each on a line of its own.
pub open spec fn diagnostic(input: Seq<char>, pos: nat, message: Seq<char>) -> Seq<char> {
    let indent = if pos >= 1 {
        (pos - 1) as nat
    } else {
        0
    };
    input + seq!['\n'] + Seq::new(indent, |i: int| ' ') + seq!['^', ' ', '\n'] + message
        + seq!['\n']
}

/// Renders the diagnostic for a failure at position `pos` of `input`.
pub fn error_at(input: &str, pos: usize, message: &str) -> (text: String)
    ensures
        text@ == diagnostic(input@, pos as nat, message@),
{
    let mut text = String::new();
    text.append(input);
    text.push('\n');
    let indent = if pos >= 1 {
        pos - 1
    } else {
        0
    };
    let mut k: usize = 0;
    while k < indent
        invariant
            k <= indent,
            text@ == input@ + seq!['\n'] + Seq::new(k as nat, |i: int| ' '),
        decreases indent - k,
    {
        text.push(' ');
        k += 1;
        assert(text@ =~= input@ + seq!['\n'] + Seq::new(k as nat, |i: int| ' '));
    }
    text.push('^');
    text.push(' ');
    text.push('\n');
    text.append(message);
    text.push('\n');
    assert(text@ =~= diagnostic(input@, pos as nat, message@));
    text
}

} // verus!
