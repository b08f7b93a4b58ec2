//! Byte-level lexer of the CLUX configuration DSL.

use vstd::prelude::*;
use vstd::slice::slice_subrange;
use vstd::string::StringSliceAdditionalSpecFns;
use vstd::string::StringExecFns;
use vstd::utf8::{
    decode_utf8, encode_utf8_decode_utf8, encode_utf8_valid_utf8, is_char_boundary,
    is_char_boundary_iff_not_is_continuation_byte, is_char_boundary_start_end_of_seq,
    valid_utf8, valid_utf8_split,
};

use crate::text::{ascii_chars, bytes_equal, lemma_ascii_decode};
use crate::token::{Token, TokenV};

verus! {

broadcast use vstd::slice::group_slice_axioms;

/// Space, tab, carriage return or line feed.
pub open spec fn is_space_byte(b: u8) -> bool {
    b == 0x20 || b == 0x09 || b == 0x0D || b == 0x0A
}

/// An ASCII decimal digit.
pub open spec fn is_digit_byte(b: u8) -> bool {
    0x30 <= b <= 0x39
}

/// A byte that may start an identifier: an ASCII letter or `_`.
pub open spec fn is_ident_start_byte(b: u8) -> bool {
    (0x61 <= b <= 0x7A) || (0x41 <= b <= 0x5A) || b == 0x5F
}

/// A byte that may continue an identifier: an ASCII letter, digit or `_`.
pub open spec fn is_ident_byte(b: u8) -> bool {
    is_ident_start_byte(b) || is_digit_byte(b)
}

/// A byte of a number literal: a digit or `.`.
pub open spec fn is_number_byte(b: u8) -> bool {
    is_digit_byte(b) || b == 0x2E
}

/// Position of the first byte at or after `i` that is not whitespace and not
/// inside a `#` line comment (`in_comment`: `i` lies inside a comment).
pub open spec fn skip_trivia(s: Seq<u8>, i: int, in_comment: bool) -> int
    decreases s.len() - i,
{
    if i < 0 || i >= s.len() {
        i
    } else if in_comment {
        skip_trivia(s, i + 1, s[i] != 0x0A)
    } else if is_space_byte(s[i]) {
        skip_trivia(s, i + 1, false)
    } else if s[i] == 0x23 {
        skip_trivia(s, i + 1, true)
    } else {
        i
    }
}

/// Position of the first `"` at or after `i`, or the end of `s`.
pub open spec fn quote_pos(s: Seq<u8>, i: int) -> int
    decreases s.len() - i,
{
    if i < 0 || i >= s.len() {
        s.len() as int
    } else if s[i] == 0x22 {
        i
    } else {
        quote_pos(s, i + 1)
    }
}

/// End of the run of number bytes starting at `i`.
pub open spec fn number_end(s: Seq<u8>, i: int) -> int
    decreases s.len() - i,
{
    if 0 <= i < s.len() && is_number_byte(s[i]) {
        number_end(s, i + 1)
    } else {
        i
    }
}

/// End of the run of identifier bytes starting at `i`.
pub open spec fn ident_end(s: Seq<u8>, i: int) -> int
    decreases s.len() - i,
{
    if 0 <= i < s.len() && is_ident_byte(s[i]) {
        ident_end(s, i + 1)
    } else {
        i
    }
}

/// Decimal value of a sequence of digit bytes.
pub open spec fn decimal_value(d: Seq<u8>) -> nat
    decreases d.len(),
{
    if d.len() == 0 {
        0
    } else {
        decimal_value(d.drop_last()) * 10 + ((d.last() - 0x30) as nat)
    }
}

/// The `usize` a run of digits denotes, or 0 when it does not fit.
pub open spec fn decimal_or_zero(d: Seq<u8>) -> usize {
    if decimal_value(d) <= usize::MAX {
        decimal_value(d) as usize
    } else {
        0
    }
}

/// Bytes of the keyword `model`.
pub open spec fn kw_model_bytes() -> Seq<u8> {
    seq![0x6Du8, 0x6F, 0x64, 0x65, 0x6C]
}

/// Bytes of the keyword `training`.
pub open spec fn kw_training_bytes() -> Seq<u8> {
    seq![0x74u8, 0x72, 0x61, 0x69, 0x6E, 0x69, 0x6E, 0x67]
}

/// The token of a number literal: with a `.` it keeps its text, otherwise it
/// is the integer it denotes (0 on overflow).
pub open spec fn number_token(lexeme: Seq<u8>) -> TokenV {
    if lexeme.contains(0x2Eu8) {
        TokenV::NumberFloat(ascii_chars(lexeme))
    } else {
        TokenV::NumberInt(decimal_or_zero(lexeme))
    }
}

/// The token of an identifier-like word: a keyword or an identifier.
pub open spec fn word_token(lexeme: Seq<u8>) -> TokenV {
    if lexeme == kw_model_bytes() {
        TokenV::KwModel
    } else if lexeme == kw_training_bytes() {
        TokenV::KwTraining
    } else {
        TokenV::Ident(ascii_chars(lexeme))
    }
}

/// The next token of `s` from position `pos`, and the position after it.
///
/// Whitespace and `#` comments are skipped; any byte that starts no token is
/// skipped too. An unterminated string literal runs to the end of the input
/// and yields `Eof`.
pub open spec fn lex_at(s: Seq<u8>, pos: int) -> (TokenV, int)
    decreases s.len() - pos,
{
    let p = skip_trivia(s, pos, false);
    if pos < 0 || p >= s.len() {
        (TokenV::Eof, p)
    } else {
        let b = s[p];
        if b == 0x7B {
            (TokenV::BraceOpen, p + 1)
        } else if b == 0x7D {
            (TokenV::BraceClose, p + 1)
        } else if b == 0x3A {
            (TokenV::Colon, p + 1)
        } else if b == 0x2C {
            (TokenV::Comma, p + 1)
        } else if b == 0x22 {
            let q = quote_pos(s, p + 1);
            if q < s.len() {
                (TokenV::StringLit(decode_utf8(s.subrange(p + 1, q))), q + 1)
            } else {
                (TokenV::Eof, s.len() as int)
            }
        } else if is_digit_byte(b) {
            let q = number_end(s, p);
            (number_token(s.subrange(p, q)), q)
        } else if is_ident_start_byte(b) {
            let q = ident_end(s, p);
            (word_token(s.subrange(p, q)), q)
        } else {
            proof {
                lemma_skip_trivia_bounds(s, pos, false);
            }
            lex_at(s, p + 1)
        }
    }
}

pub proof fn lemma_skip_trivia_bounds(s: Seq<u8>, i: int, in_comment: bool)
    requires
        0 <= i,
    ensures
        i <= skip_trivia(s, i, in_comment),
        i <= s.len() ==> skip_trivia(s, i, in_comment) <= s.len(),
    decreases s.len() - i,
{
    if i < s.len() {
        if in_comment {
            lemma_skip_trivia_bounds(s, i + 1, s[i] != 0x0A);
        } else if is_space_byte(s[i]) {
            lemma_skip_trivia_bounds(s, i + 1, false);
        } else if s[i] == 0x23 {
            lemma_skip_trivia_bounds(s, i + 1, true);
        }
    }
}

proof fn lemma_quote_pos_bounds(s: Seq<u8>, i: int)
    requires
        0 <= i <= s.len(),
    ensures
        i <= quote_pos(s, i) <= s.len(),
        quote_pos(s, i) < s.len() ==> s[quote_pos(s, i)] == 0x22,
        forall|j: int| i <= j < quote_pos(s, i) ==> s[j] != 0x22,
    decreases s.len() - i,
{
    if i < s.len() && s[i] != 0x22 {
        lemma_quote_pos_bounds(s, i + 1);
    }
}

proof fn lemma_number_end_bounds(s: Seq<u8>, i: int)
    requires
        0 <= i <= s.len(),
    ensures
        i <= number_end(s, i) <= s.len(),
        forall|j: int| i <= j < number_end(s, i) ==> is_number_byte(#[trigger] s[j]),
    decreases s.len() - i,
{
    if i < s.len() && is_number_byte(s[i]) {
        lemma_number_end_bounds(s, i + 1);
    }
}

proof fn lemma_ident_end_bounds(s: Seq<u8>, i: int)
    requires
        0 <= i <= s.len(),
    ensures
        i <= ident_end(s, i) <= s.len(),
        forall|j: int| i <= j < ident_end(s, i) ==> is_ident_byte(#[trigger] s[j]),
    decreases s.len() - i,
{
    if i < s.len() && is_ident_byte(s[i]) {
        lemma_ident_end_bounds(s, i + 1);
    }
}

/// The lexer never moves backwards and never past the end; it moves
/// forwards on every token but `Eof`, and `Eof` leaves it at the end.
pub proof fn lemma_lex_at_progress(s: Seq<u8>, pos: int)
    requires
        0 <= pos <= s.len(),
    ensures
        pos <= lex_at(s, pos).1 <= s.len(),
        lex_at(s, pos).0 is Eof ==> lex_at(s, pos).1 == s.len(),
        !(lex_at(s, pos).0 is Eof) ==> pos < lex_at(s, pos).1,
    decreases s.len() - pos,
{
    lemma_skip_trivia_bounds(s, pos, false);
    let p = skip_trivia(s, pos, false);
    if p < s.len() {
        let b = s[p];
        if b == 0x22 {
            lemma_quote_pos_bounds(s, p + 1);
        } else if is_digit_byte(b) {
            lemma_number_end_bounds(s, p);
            assert(number_end(s, p) == number_end(s, p + 1));
            lemma_number_end_bounds(s, p + 1);
        } else if is_ident_start_byte(b) {
            lemma_ident_end_bounds(s, p + 1);
        } else if b == 0x7B || b == 0x7D || b == 0x3A || b == 0x2C {
        } else {
            lemma_lex_at_progress(s, p + 1);
        }
    }
}

/// The byte-level lexer: a source text and a position in it.
pub struct Lexer<'a> {
    text: &'a str,
    pos: usize,
}

impl<'a> Lexer<'a> {
    /// The UTF-8 bytes being lexed.
    pub closed spec fn source(&self) -> Seq<u8> {
        self.text.spec_bytes()
    }

    /// The current position in [`Self::source`].
    pub closed spec fn position(&self) -> int {
        self.pos as int
    }

    /// The position lies within the source, and the source is well-formed UTF-8.
    pub open spec fn wf(&self) -> bool {
        &&& 0 <= self.position() <= self.source().len()
        &&& valid_utf8(self.source())
    }

    /// A lexer at the start of `source`.
    pub fn new(source: &'a str) -> (l: Self)
        ensures
            l.source() == source.spec_bytes(),
            l.position() == 0,
            l.wf(),
    {
        proof {
            encode_utf8_valid_utf8(source@);
        }
        Lexer { text: source, pos: 0 }
    }

    fn peek(&self) -> (b: Option<u8>)
        ensures
            self.text.spec_bytes().len() <= usize::MAX,
            b == (if self.pos < self.text.spec_bytes().len() {
                Some(self.text.spec_bytes()[self.pos as int])
            } else {
                None::<u8>
            }),
    {
        let bytes = self.text.as_bytes();
        if self.pos < bytes.len() {
            Some(bytes[self.pos])
        } else {
            None
        }
    }

    fn advance(&mut self) -> (b: Option<u8>)
        requires
            old(self).pos <= old(self).text.spec_bytes().len(),
        ensures
            final(self).text.spec_bytes() == old(self).text.spec_bytes(),
            b == (if old(self).pos < old(self).text.spec_bytes().len() {
                Some(old(self).text.spec_bytes()[old(self).pos as int])
            } else {
                None::<u8>
            }),
            final(self).pos == (if b is Some {
                old(self).pos + 1
            } else {
                old(self).pos as int
            }),
    {
        let b = self.peek();
        match b {
            Some(_) => {
                self.pos = self.pos + 1;
            },
            None => {},
        }
        b
    }

    fn skip_whitespace_and_comments(&mut self)
        requires
            old(self).pos <= old(self).text.spec_bytes().len(),
        ensures
            final(self).text.spec_bytes() == old(self).text.spec_bytes(),
            final(self).pos == skip_trivia(old(self).text.spec_bytes(), old(self).pos as int, false),
    {
        let ghost s = self.text.spec_bytes();
        let ghost target = skip_trivia(s, self.pos as int, false);
        loop
            invariant
                self.text.spec_bytes() == s,
                self.pos <= s.len(),
                skip_trivia(s, self.pos as int, false) == target,
            ensures
                self.text.spec_bytes() == s,
                self.pos == target,
            decreases s.len() - self.pos,
        {
            match self.peek() {
                None => {
                    break;
                },
                Some(b) => {
                    if b == 0x20u8 || b == 0x09u8 || b == 0x0Du8 || b == 0x0Au8 {
                        self.pos = self.pos + 1;
                    } else if b == 0x23u8 {
                        self.pos = self.pos + 1;
                        let ghost mark = self.pos;
                        loop
                            invariant_except_break
                                skip_trivia(s, self.pos as int, true) == target,
                            invariant
                                self.text.spec_bytes() == s,
                                mark <= self.pos <= s.len(),
                            ensures
                                self.text.spec_bytes() == s,
                                mark <= self.pos,
                                self.pos <= s.len(),
                                skip_trivia(s, self.pos as int, false) == target,
                            decreases s.len() - self.pos,
                        {
                            match self.advance() {
                                None => {
                                    break;
                                },
                                Some(c) => {
                                    if c == 0x0Au8 {
                                        break;
                                    }
                                },
                            }
                        }
                    } else {
                        break;
                    }
                },
            }
        }
    }

    /// Moves past the next token and returns it.
    pub fn next_token(&mut self) -> (t: Token)
        requires
            old(self).wf(),
        ensures
            final(self).wf(),
            final(self).source() == old(self).source(),
            (t@, final(self).position()) == lex_at(old(self).source(), old(self).position()),
    {
        let ghost s = self.text.spec_bytes();
        let ghost pos0 = self.pos as int;
        loop
            invariant
                self.text.spec_bytes() == s,
                s == old(self).text.spec_bytes(),
                pos0 == old(self).pos,
                valid_utf8(s),
                self.pos <= s.len(),
                lex_at(s, self.pos as int) == lex_at(s, pos0),
            decreases s.len() - self.pos,
        {
            let ghost before = self.pos as int;
            self.skip_whitespace_and_comments();
            proof {
                lemma_skip_trivia_bounds(s, before, false);
            }
            match self.peek() {
                None => {
                    assert(self.pos >= s.len());
                    assert(self.pos == skip_trivia(s, before, false));
                    return Token::Eof;
                },
                Some(b) => {
                    if b == 0x7Bu8 {
                        self.pos = self.pos + 1;
                        return Token::BraceOpen;
                    } else if b == 0x7Du8 {
                        self.pos = self.pos + 1;
                        return Token::BraceClose;
                    } else if b == 0x3Au8 {
                        self.pos = self.pos + 1;
                        return Token::Colon;
                    } else if b == 0x2Cu8 {
                        self.pos = self.pos + 1;
                        return Token::Comma;
                    } else if b == 0x22u8 {
                        return self.lex_string();
                    } else if 0x30u8 <= b && b <= 0x39u8 {
                        return self.lex_number();
                    } else if (0x61u8 <= b && b <= 0x7Au8) || (0x41u8 <= b && b <= 0x5Au8) || b
                        == 0x5Fu8 {
                        return self.lex_ident_or_keyword();
                    } else {
                        self.pos = self.pos + 1;
                    }
                },
            }
        }
    }

    fn lex_string(&mut self) -> (t: Token)
        requires
            valid_utf8(old(self).text.spec_bytes()),
            old(self).pos < old(self).text.spec_bytes().len(),
            old(self).text.spec_bytes()[old(self).pos as int] == 0x22,
        ensures
            final(self).text.spec_bytes() == old(self).text.spec_bytes(),
            final(self).pos <= final(self).text.spec_bytes().len(),
            ({
                let s = old(self).text.spec_bytes();
                let p = old(self).pos as int;
                let q = quote_pos(s, p + 1);
                (t@, final(self).pos as int) == (if q < s.len() {
                    (TokenV::StringLit(decode_utf8(s.subrange(p + 1, q))), q + 1)
                } else {
                    (TokenV::Eof, s.len() as int)
                })
            }),
    {
        let ghost s = self.text.spec_bytes();
        let ghost p = self.pos as int;
        self.advance();
        let start = self.pos;
        proof {
            lemma_quote_pos_bounds(s, p + 1);
        }
        loop
            invariant
                self.text.spec_bytes() == s,
                s == old(self).text.spec_bytes(),
                p == old(self).pos,
                valid_utf8(s),
                start == p + 1,
                s[p] == 0x22,
                start <= self.pos <= s.len(),
                quote_pos(s, self.pos as int) == quote_pos(s, start as int),
            decreases s.len() - self.pos,
        {
            let b = match self.peek() {
                Some(b) => b,
                None => {
                    return Token::Eof;
                },
            };
            if b == 0x22u8 {
                proof {
                    lemma_boundary_after_ascii(s, p);
                    lemma_ascii_is_boundary(s, self.pos as int);
                }
                let text = text_between(self.text, start, self.pos);
                self.advance();
                return Token::StringLit(text);
            }
            self.pos = self.pos + 1;
        }
    }

    fn lex_number(&mut self) -> (t: Token)
        requires
            old(self).pos < old(self).text.spec_bytes().len(),
            is_digit_byte(old(self).text.spec_bytes()[old(self).pos as int]),
        ensures
            final(self).text.spec_bytes() == old(self).text.spec_bytes(),
            final(self).pos <= final(self).text.spec_bytes().len(),
            ({
                let s = old(self).text.spec_bytes();
                let p = old(self).pos as int;
                let q = number_end(s, p);
                t@ == number_token(s.subrange(p, q)) && final(self).pos == q
            }),
    {
        let ghost s = self.text.spec_bytes();
        let start = self.pos;
        let mut has_dot = false;
        proof {
            lemma_number_end_bounds(s, start as int);
        }
        loop
            invariant
                self.text.spec_bytes() == s,
                start <= self.pos <= s.len(),
                number_end(s, self.pos as int) == number_end(s, start as int),
                has_dot == s.subrange(start as int, self.pos as int).contains(0x2Eu8),
            ensures
                self.text.spec_bytes() == s,
                self.pos == number_end(s, start as int),
                has_dot == s.subrange(start as int, self.pos as int).contains(0x2Eu8),
            decreases s.len() - self.pos,
        {
            let b = match self.peek() {
                Some(b) => b,
                None => {
                    break;
                },
            };
            let ghost before = s.subrange(start as int, self.pos as int);
            if b == 0x2Eu8 {
                has_dot = true;
                self.pos = self.pos + 1;
            } else if 0x30u8 <= b && b <= 0x39u8 {
                self.pos = self.pos + 1;
            } else {
                break;
            }
            proof {
                let after = s.subrange(start as int, self.pos as int);
                assert(after == before.push(b));
                if before.contains(0x2Eu8) {
                    let k = choose|k: int| 0 <= k < before.len() && before[k] == 0x2Eu8;
                    assert(after[k] == 0x2Eu8);
                }
                if b == 0x2Eu8 {
                    assert(after[after.len() - 1] == 0x2Eu8);
                }
            }
        }
        let lexeme = slice_subrange(self.text.as_bytes(), start, self.pos);
        proof {
            assert forall|j: int| 0 <= j < lexeme@.len() implies #[trigger] lexeme@[j] < 128 by {
                assert(is_number_byte(s[start + j]));
            }
            assert(number_end(s, start as int) == number_end(s, start + 1));
            lemma_number_end_bounds(s, start + 1);
            encode_utf8_valid_utf8(self.text@);
            lemma_token_boundaries(s, start as int, self.pos as int);
        }
        if has_dot {
            proof {
                lemma_ascii_decode(lexeme@);
            }
            Token::NumberFloat(text_between(self.text, start, self.pos))
        } else {
            proof {
                assert forall|j: int| 0 <= j < lexeme@.len() implies is_digit_byte(
                    #[trigger] lexeme@[j],
                ) by {
                    assert(is_number_byte(s[start + j]));
                    if lexeme@[j] == 0x2Eu8 {
                        assert(lexeme@.contains(0x2Eu8));
                    }
                }
            }
            Token::NumberInt(parse_decimal(lexeme))
        }
    }

    fn lex_ident_or_keyword(&mut self) -> (t: Token)
        requires
            old(self).pos < old(self).text.spec_bytes().len(),
            is_ident_start_byte(old(self).text.spec_bytes()[old(self).pos as int]),
        ensures
            final(self).text.spec_bytes() == old(self).text.spec_bytes(),
            final(self).pos <= final(self).text.spec_bytes().len(),
            ({
                let s = old(self).text.spec_bytes();
                let p = old(self).pos as int;
                let q = ident_end(s, p);
                t@ == word_token(s.subrange(p, q)) && final(self).pos == q
            }),
    {
        let ghost s = self.text.spec_bytes();
        let start = self.pos;
        proof {
            lemma_ident_end_bounds(s, start as int);
        }
        loop
            invariant
                self.text.spec_bytes() == s,
                start <= self.pos <= s.len(),
                ident_end(s, self.pos as int) == ident_end(s, start as int),
            ensures
                self.text.spec_bytes() == s,
                self.pos == ident_end(s, start as int),
            decreases s.len() - self.pos,
        {
            let b = match self.peek() {
                Some(b) => b,
                None => {
                    break;
                },
            };
            if (0x61u8 <= b && b <= 0x7Au8) || (0x41u8 <= b && b <= 0x5Au8) || b == 0x5Fu8 || (0x30u8
                <= b && b <= 0x39u8) {
                self.pos = self.pos + 1;
            } else {
                break;
            }
        }
        let lexeme = slice_subrange(self.text.as_bytes(), start, self.pos);
        proof {
            assert forall|j: int| 0 <= j < lexeme@.len() implies #[trigger] lexeme@[j] < 128 by {
                assert(is_ident_byte(s[start + j]));
            }
            assert(ident_end(s, start as int) == ident_end(s, start + 1));
            lemma_ident_end_bounds(s, start + 1);
            encode_utf8_valid_utf8(self.text@);
            lemma_token_boundaries(s, start as int, self.pos as int);
        }
        if bytes_equal(lexeme, &[0x6Du8, 0x6F, 0x64, 0x65, 0x6C]) {
            Token::KwModel
        } else if bytes_equal(lexeme, &[0x74u8, 0x72, 0x61, 0x69, 0x6E, 0x69, 0x6E, 0x67]) {
            Token::KwTraining
        } else {
            proof {
                lemma_ascii_decode(lexeme@);
            }
            Token::Ident(text_between(self.text, start, self.pos))
        }
    }
}

/// An ASCII byte of well-formed UTF-8 starts a character.
proof fn lemma_ascii_is_boundary(s: Seq<u8>, i: int)
    requires
        valid_utf8(s),
        0 <= i < s.len(),
        s[i] < 128,
    ensures
        is_char_boundary(s, i),
{
    is_char_boundary_iff_not_is_continuation_byte(s, i);
}

/// In well-formed UTF-8 the byte after an ASCII byte starts a character (or
/// is the end).
proof fn lemma_boundary_after_ascii(s: Seq<u8>, i: int)
    requires
        valid_utf8(s),
        0 <= i < s.len(),
        s[i] < 128,
    ensures
        is_char_boundary(s, i + 1),
{
    if i + 1 == s.len() {
        is_char_boundary_start_end_of_seq(s);
    } else {
        lemma_ascii_is_boundary(s, i);
        valid_utf8_split(s, i);
        let tail = s.subrange(i, s.len() as int);
        assert(tail[0] == s[i]);
        reveal_with_fuel(is_char_boundary, 2);
        assert(is_char_boundary(tail, 1));
        is_char_boundary_iff_not_is_continuation_byte(tail, 1);
        assert(tail[1] == s[i + 1]);
        is_char_boundary_iff_not_is_continuation_byte(s, i + 1);
    }
}

/// A token that starts with an ASCII byte and ends after one begins and
/// ends on character boundaries.
proof fn lemma_token_boundaries(s: Seq<u8>, start: int, end: int)
    requires
        valid_utf8(s),
        0 <= start < end <= s.len(),
        forall|j: int| start <= j < end ==> #[trigger] s[j] < 128,
    ensures
        is_char_boundary(s, start),
        is_char_boundary(s, end),
{
    lemma_ascii_is_boundary(s, start);
    lemma_boundary_after_ascii(s, end - 1);
}

/// The characters of `text` between two character boundaries, as a `String`.
fn text_between(text: &str, start: usize, end: usize) -> (r: String)
    requires
        start <= end <= text.spec_bytes().len(),
        is_char_boundary(text.spec_bytes(), start as int),
        is_char_boundary(text.spec_bytes(), end as int),
    ensures
        r@ == decode_utf8(text.spec_bytes().subrange(start as int, end as int)),
{
    let ghost s = text.spec_bytes();
    proof {
        encode_utf8_valid_utf8(text@);
    }
    let (_, tail) = text.split_at(start);
    let ghost t = tail.spec_bytes();
    proof {
        encode_utf8_valid_utf8(tail@);
        let k = end - start;
        if k == 0 {
        } else if end == s.len() {
            assert(k == t.len());
            is_char_boundary_start_end_of_seq(t);
        } else {
            is_char_boundary_iff_not_is_continuation_byte(s, end as int);
            assert(t[k] == s[end as int]);
            is_char_boundary_iff_not_is_continuation_byte(t, k);
        }
    }
    let (mid, _) = tail.split_at(end - start);
    proof {
        assert(mid.spec_bytes() =~= s.subrange(start as int, end as int));
        encode_utf8_decode_utf8(mid@);
    }
    String::from_str(mid)
}

/// The `usize` denoted by a run of decimal digits, or 0 when it overflows.
pub fn parse_decimal(d: &[u8]) -> (n: usize)
    requires
        forall|j: int| 0 <= j < d@.len() ==> is_digit_byte(#[trigger] d@[j]),
    ensures
        n == decimal_or_zero(d@),
{
    let mut acc: usize = 0;
    let mut overflow = false;
    let mut i: usize = 0;
    while i < d.len()
        invariant
            i <= d@.len(),
            forall|j: int| 0 <= j < d@.len() ==> is_digit_byte(#[trigger] d@[j]),
            overflow == (decimal_value(d@.take(i as int)) > usize::MAX),
            !overflow ==> acc == decimal_value(d@.take(i as int)),
        decreases d@.len() - i,
    {
        let digit = (d[i] - 0x30u8) as usize;
        assert(d@.take(i + 1).drop_last() =~= d@.take(i as int));
        assert(d@.take(i + 1).last() == d@[i as int]);
        if !overflow {
            match acc.checked_mul(10) {
                Some(m) => match m.checked_add(digit) {
                    Some(v) => {
                        acc = v;
                    },
                    None => {
                        overflow = true;
                    },
                },
                None => {
                    overflow = true;
                },
            }
        }
        i = i + 1;
    }
    assert(d@.take(d@.len() as int) =~= d@);
    if overflow {
        0
    } else {
        acc
    }
}

} // verus!
