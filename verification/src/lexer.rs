//! The tokenizer: scans the source text one character at a time, emits the
//! token for each alphabet symbol, silently skips every other character, and
//! terminates the stream with a single end-of-input token.

use vstd::prelude::*;

use crate::token::Token;
use crate::token::char_sym;

verus! {

/// The token sequence that scanning `s` yields, end-of-input marker not
/// included: each character in the eight-symbol alphabet contributes its
/// token, every other character contributes nothing.
pub open spec fn spec_lex(s: Seq<char>) -> Seq<Token>
    decreases s.len(),
{
    if s.len() == 0 {
        Seq::empty()
    } else {
        match char_sym(s[0]) {
            Some(t) => seq![t] + spec_lex(s.drop_first()),
            None => spec_lex(s.drop_first()),
        }
    }
}

/// The character the scan cursor rests on: the character at `i`, or the NUL
/// sentinel once the cursor has passed the end of the text.
pub open spec fn char_at(s: Seq<char>, i: int) -> char {
    if 0 <= i < s.len() {
        s[i]
    } else {
        '\0'
    }
}

/// Scanning a suffix takes one step: the head character either contributes
/// its token or is skipped, and the rest of the scan continues at `i + 1`.
pub proof fn lemma_lex_step(s: Seq<char>, i: int)
    requires
        0 <= i < s.len(),
    ensures
        spec_lex(s.skip(i)) == match char_sym(s[i]) {
            Some(t) => seq![t] + spec_lex(s.skip(i + 1)),
            None => spec_lex(s.skip(i + 1)),
        },
{
    assert(s.skip(i)[0] == s[i]);
    assert(s.skip(i).drop_first() =~= s.skip(i + 1));
}

/// Text made only of characters outside the eight-symbol alphabet scans to
/// no tokens at all, so the tokenizer yields exactly one token for it:
/// end-of-input.
pub proof fn lemma_lex_outside_alphabet(s: Seq<char>)
    requires
        forall|i: int| 0 <= i < s.len() ==> char_sym(s[i]) is None,
    ensures
        spec_lex(s) == Seq::<Token>::empty(),
    decreases s.len(),
{
    if s.len() > 0 {
        assert(char_sym(s[0]) is None);
        assert forall|i: int| 0 <= i < s.drop_first().len() implies char_sym(
            s.drop_first()[i],
        ) is None by {
            assert(s.drop_first()[i] == s[i + 1]);
        }
        lemma_lex_outside_alphabet(s.drop_first());
    }
}

/// Scanning distributes over concatenation of texts.
pub proof fn lemma_lex_concat(a: Seq<char>, b: Seq<char>)
    ensures
        spec_lex(a + b) == spec_lex(a) + spec_lex(b),
    decreases a.len(),
{
    if a.len() == 0 {
        assert(a + b =~= b);
        assert(spec_lex(a) + spec_lex(b) =~= spec_lex(b));
    } else {
        assert((a + b)[0] == a[0]);
        assert((a + b).drop_first() =~= a.drop_first() + b);
        lemma_lex_concat(a.drop_first(), b);
        match char_sym(a[0]) {
            Some(t) => {
                assert(seq![t] + (spec_lex(a.drop_first()) + spec_lex(b)) =~= (seq![t]
                    + spec_lex(a.drop_first())) + spec_lex(b));
            },
            None => {},
        }
    }
}

/// The scan never emits the end-of-input token for a character.
pub proof fn lemma_lex_no_eof(s: Seq<char>)
    ensures
        forall|i: int| 0 <= i < spec_lex(s).len() ==> spec_lex(s)[i] != Token::EOF,
    decreases s.len(),
{
    if s.len() > 0 {
        lemma_lex_no_eof(s.drop_first());
    }
}

/// The tokenizer. It owns a copy of the source text and a scan cursor, and
/// keeps at hand the character the cursor rests on.
pub struct Lexer {
    text: String,
    index: usize,
    current_char: char,
}

impl Lexer {
    /// The tokenizer's internal consistency: the cursor never passes the end
    /// of the text by more than one step, and the cached character is the one
    /// the cursor rests on (the NUL sentinel once past the end).
    pub closed spec fn wf(&self) -> bool {
        &&& self.index <= self.text@.len()
        &&& self.current_char == char_at(self.text@, self.index as int)
    }

    /// The source text the tokenizer scans.
    pub closed spec fn spec_text(&self) -> Seq<char> {
        self.text@
    }

    /// The current cursor position.
    pub closed spec fn spec_index(&self) -> int {
        self.index as int
    }

    /// A tokenizer over `text`, with the cursor at the first character.
    pub fn new(text: String) -> (l: Lexer)
        ensures
            l.wf(),
            l.spec_text() == text@,
            l.spec_index() == 0,
    {
        let len = text.as_str().unicode_len();
        let current_char = if len > 0 {
            text.as_str().get_char(0)
        } else {
            '\0'
        };
        Lexer { text, index: 0, current_char }
    }

    /// Moves the cursor one character forward and refreshes the cached
    /// character; yields the end-of-input token so that a scan step that
    /// skips a character has a token-shaped non-result.
    fn advance(&mut self) -> (t: Token)
        requires
            old(self).wf(),
            old(self).spec_index() < old(self).spec_text().len(),
        ensures
            final(self).wf(),
            final(self).spec_text() == old(self).spec_text(),
            final(self).spec_index() == old(self).spec_index() + 1,
            t == Token::EOF,
    {
        let len = self.text.as_str().unicode_len();
        self.index = self.index + 1;
        if self.index < len {
            self.current_char = self.text.as_str().get_char(self.index);
        } else {
            self.current_char = '\0';
        }
        Token::EOF
    }

    /// Scans forward to the next alphabet symbol and returns its token,
    /// consuming it; returns the end-of-input token once only skippable
    /// characters remain, with the cursor at the end of the text.
    pub fn next_token(&mut self) -> (t: Token)
        requires
            old(self).wf(),
        ensures
            final(self).wf(),
            final(self).spec_text() == old(self).spec_text(),
            old(self).spec_index() <= final(self).spec_index() <= final(self).spec_text().len(),
            t != Token::EOF ==> spec_lex(old(self).spec_text().skip(old(self).spec_index()))
                == seq![t] + spec_lex(final(self).spec_text().skip(final(self).spec_index())),
            t == Token::EOF ==> final(self).spec_index() == final(self).spec_text().len()
                && spec_lex(old(self).spec_text().skip(old(self).spec_index()))
                == Seq::<Token>::empty(),
    {
        let len = self.text.as_str().unicode_len();
        while self.index < len
            invariant
                self.wf(),
                self.text@ == old(self).text@,
                len == old(self).text@.len(),
                old(self).index <= self.index <= len,
                spec_lex(old(self).text@.skip(old(self).index as int)) == spec_lex(
                    self.text@.skip(self.index as int),
                ),
            decreases len - self.index,
        {
            let c = self.current_char;
            proof {
                lemma_lex_step(self.text@, self.index as int);
            }
            let token = match c {
                '<' => {
                    self.advance();
                    Token::LAngle
                },
                '>' => {
                    self.advance();
                    Token::RAngle
                },
                '+' => {
                    self.advance();
                    Token::Plus
                },
                '-' => {
                    self.advance();
                    Token::Minus
                },
                '.' => {
                    self.advance();
                    Token::Dot
                },
                ',' => {
                    self.advance();
                    Token::Comma
                },
                '[' => {
                    self.advance();
                    Token::LBracket
                },
                ']' => {
                    self.advance();
                    Token::RBracket
                },
                _ => self.advance(),
            };
            if token != Token::EOF {
                return token;
            }
        }
        proof {
            assert(self.text@.skip(self.text@.len() as int) =~= Seq::<char>::empty());
        }
        Token::EOF
    }

    /// Tokenizes the whole remaining text: the token of every alphabet symbol
    /// in order, with every other character skipped, terminated by exactly
    /// one end-of-input token.
    pub fn lex(&mut self) -> (tokens: Vec<Token>)
        requires
            old(self).wf(),
        ensures
            final(self).wf(),
            final(self).spec_text() == old(self).spec_text(),
            tokens@ == spec_lex(old(self).spec_text().skip(old(self).spec_index())).push(
                Token::EOF,
            ),
            old(self).spec_index() == 0 ==> tokens@ == spec_lex(old(self).spec_text()).push(
                Token::EOF,
            ),
    {
        let mut tokens: Vec<Token> = Vec::new();
        let mut token = self.next_token();
        while token != Token::EOF
            invariant
                self.wf(),
                self.text@ == old(self).text@,
                self.index <= self.text@.len(),
                token != Token::EOF ==> spec_lex(old(self).text@.skip(old(self).index as int))
                    == tokens@ + seq![token] + spec_lex(self.text@.skip(self.index as int)),
                token == Token::EOF ==> spec_lex(old(self).text@.skip(old(self).index as int))
                    == tokens@,
            decreases self.text@.len() - self.index + (if token == Token::EOF {
                0int
            } else {
                1int
            }),
        {
            let ghost tokens_pre = tokens@;
            let ghost tok_pre = token;
            tokens.push(token);
            token = self.next_token();
            proof {
                if token != Token::EOF {
                    assert(tokens_pre + seq![tok_pre] + (seq![token] + spec_lex(
                        self.text@.skip(self.index as int),
                    )) =~= tokens@ + seq![token] + spec_lex(self.text@.skip(self.index as int)));
                } else {
                    assert(tokens_pre + seq![tok_pre] + Seq::<Token>::empty() =~= tokens@);
                }
            }
        }
        tokens.push(token);
        proof {
            assert(old(self).text@.skip(0) =~= old(self).text@);
        }
        tokens
    }
}

} // verus!
