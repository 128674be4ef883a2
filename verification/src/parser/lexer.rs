use vstd::prelude::*;

use crate::parser::token::Token;
use crate::parser::token::TokenKind;
use crate::util::Location;

verus! {

// ---------------------------------------------------------------------------
// Character classes
// ---------------------------------------------------------------------------

/// What the scanner treats as a constituent of a word (an identifier,
/// keyword or number being accumulated): the Unicode alphanumerics.
pub uninterp spec fn word_char(c: char) -> bool;

/// Relies on char::is_alphanumeric: true exactly on Unicode alphabetic and
/// numeric characters, a function of the character alone, named `word_char`.
#[verifier::external_body]
fn is_word_char(c: char) -> (r: bool)
    ensures
        r == word_char(c),
{
    c.is_alphanumeric()
}

/// The whitespace the scanner consumes silently: space and newline.
pub open spec fn spec_ws(c: char) -> bool {
    c == ' ' || c == '\n'
}

/// The single-character structural and operator tokens that are emitted
/// immediately on sight, and their categories.
pub open spec fn structural_kind(c: char) -> Option<TokenKind> {
    if c == '(' {
        Some(TokenKind::LParen)
    } else if c == ')' {
        Some(TokenKind::RParen)
    } else if c == '{' {
        Some(TokenKind::LCurly)
    } else if c == '}' {
        Some(TokenKind::RCurly)
    } else if c == '=' {
        Some(TokenKind::Eq)
    } else if c == ':' {
        Some(TokenKind::Colon)
    } else if c == '+' {
        Some(TokenKind::Plus)
    } else {
        None
    }
}

/// Whether a character extends a pending word. Every character the scanner
/// recognises as something else closes the word: whitespace, the structural
/// set, and `-`. This widened delimiter set keeps a word from being dropped
/// when an operator follows it with no space between.
pub open spec fn word_cont(c: char) -> bool {
    &&& !spec_ws(c)
    &&& structural_kind(c) is None
    &&& c != '-'
    &&& word_char(c)
}

fn is_word_cont(c: char) -> (r: bool)
    ensures
        r == word_cont(c),
{
    if c == ' ' || c == '\n' || c == '(' || c == ')' || c == '{' || c == '}' || c == '='
        || c == ':' || c == '+' || c == '-' {
        false
    } else {
        is_word_char(c)
    }
}

// ---------------------------------------------------------------------------
// Word classification
// ---------------------------------------------------------------------------

/// An ASCII decimal digit.
pub open spec fn is_digit(c: char) -> bool {
    '0' as u32 <= c as u32 <= '9' as u32
}

/// The value of one decimal digit.
pub open spec fn digit_val(c: char) -> int {
    c as u32 - '0' as u32
}

/// The value of a string of decimal digits, most significant first.
pub open spec fn digits_val(s: Seq<char>) -> int
    decreases s.len(),
{
    if s.len() == 0 {
        0
    } else {
        digits_val(s.drop_last()) * 10 + digit_val(s.last())
    }
}

pub open spec fn all_digits(s: Seq<char>) -> bool {
    forall|k: int| 0 <= k < s.len() ==> #[trigger] is_digit(s[k])
}

/// A word that parses as a 32-bit signed integer literal: decimal digits
/// whose value fits. A word never holds a sign, so only the upper bound
/// can fail.
pub open spec fn is_int_literal(s: Seq<char>) -> bool {
    &&& s.len() > 0
    &&& all_digits(s)
    &&& digits_val(s) <= 0x7fff_ffff
}

/// The keyword table: the reserved spellings and their categories.
pub open spec fn spec_keyword(w: Seq<char>) -> Option<TokenKind> {
    if w == "fn"@ {
        Some(TokenKind::FnKeyword)
    } else if w == "let"@ {
        Some(TokenKind::LetKeyword)
    } else if w == "Unit"@ {
        Some(TokenKind::TyUnit)
    } else {
        None
    }
}

/// How a closed word is classified, first match wins: an integer literal,
/// then a keyword, then a generic identifier.
pub open spec fn classify_word(w: Seq<char>) -> TokenKind {
    if is_int_literal(w) {
        TokenKind::TyInt
    } else if spec_keyword(w) is Some {
        spec_keyword(w)->0
    } else {
        TokenKind::Id
    }
}

// ---------------------------------------------------------------------------
// The scan, one pull at a time, as a mathematical function
// ---------------------------------------------------------------------------

/// A token as a mathematical value: where it begins, its raw text, its kind.
pub ghost struct TokenModel {
    pub loc: (int, int),
    pub text: Seq<char>,
    pub kind: TokenKind,
}

/// What one pull of the scanner does to a source `s` read from character
/// `i` at position (`col`, `row`).
pub ghost enum Pull {
    /// The input was exhausted, after silently consuming trailing whitespace.
    End { i: int, col: int, row: int },
    /// One token was produced; `i`, `col`, `row` are the state after it.
    Emit { tok: TokenModel, i: int, col: int, row: int },
    /// A character no class recognises stands at `i`; it is not consumed.
    Fail { loc: (int, int), ch: char, i: int, col: int, row: int },
}

/// One pull: consume whitespace until a token can be emitted, the input
/// ends, or an unrecognised character is met.
pub open spec fn pull_at(s: Seq<char>, i: int, col: int, row: int) -> Pull
    decreases s.len() - i, 1int,
{
    if i < 0 || i >= s.len() {
        Pull::End { i, col, row }
    } else {
        let c = s[i];
        if c == ' ' {
            pull_at(s, i + 1, col + 1, row)
        } else if c == '\n' {
            pull_at(s, i + 1, 0, row + 1)
        } else if structural_kind(c) is Some {
            Pull::Emit {
                tok: TokenModel {
                    loc: (col, row),
                    text: seq![c],
                    kind: structural_kind(c)->0,
                },
                i: i + 1,
                col: col + 1,
                row,
            }
        } else if c == '-' {
            if i + 1 < s.len() && s[i + 1] == '>' {
                Pull::Emit {
                    tok: TokenModel {
                        loc: (col, row),
                        text: seq!['-', '>'],
                        kind: TokenKind::Arrow,
                    },
                    i: i + 2,
                    col: col + 2,
                    row,
                }
            } else {
                Pull::Emit {
                    tok: TokenModel {
                        loc: (col, row),
                        text: seq!['-'],
                        kind: TokenKind::Minus,
                    },
                    i: i + 1,
                    col: col + 1,
                    row,
                }
            }
        } else if word_char(c) {
            pull_word(s, i, i, col, row)
        } else {
            Pull::Fail { loc: (col, row), ch: c, i, col, row }
        }
    }
}

/// Scanning inside a word that began at `start`: the character at `i` is
/// consumed, and the word closes when the next character would not extend it.
/// The token's location is where the word's first character stands, which
/// is `i - start` columns behind the running position.
pub open spec fn pull_word(s: Seq<char>, start: int, i: int, col: int, row: int) -> Pull
    decreases s.len() - i, 0int,
{
    if i + 1 < s.len() && word_cont(s[i + 1]) {
        pull_word(s, start, i + 1, col + 1, row)
    } else {
        let text = s.subrange(start, i + 1);
        Pull::Emit {
            tok: TokenModel { loc: (col - (i - start), row), text, kind: classify_word(text) },
            i: i + 1,
            col: col + 1,
            row,
        }
    }
}

// ---------------------------------------------------------------------------
// Keyword lookup and integer-literal recognition
// ---------------------------------------------------------------------------

fn str_eq(a: &str, b: &str) -> (r: bool)
    ensures
        r == (a@ == b@),
{
    let sa = String::from_str(a);
    let sb = String::from_str(b);
    sa == sb
}

/// Map of reserved keywords.
pub fn keyword_to_token_kind(word: &str) -> (r: Option<TokenKind>)
    ensures
        r == spec_keyword(word@),
{
    if str_eq(word, "fn") {
        Some(TokenKind::FnKeyword)
    } else if str_eq(word, "let") {
        Some(TokenKind::LetKeyword)
    } else if str_eq(word, "Unit") {
        Some(TokenKind::TyUnit)
    } else {
        None
    }
}

proof fn lemma_digits_val_nonneg(s: Seq<char>)
    requires
        all_digits(s),
    ensures
        digits_val(s) >= 0,
    decreases s.len(),
{
    if s.len() > 0 {
        assert(is_digit(s[s.len() - 1]));
        assert(s.last() == s[s.len() - 1]);
        assert(all_digits(s.drop_last()));
        lemma_digits_val_nonneg(s.drop_last());
        assert(digits_val(s) == digits_val(s.drop_last()) * 10 + digit_val(s.last()));
    }
}

proof fn lemma_digits_val_prefix_le(s: Seq<char>, i: int)
    requires
        all_digits(s),
        0 <= i <= s.len(),
    ensures
        digits_val(s.subrange(0, i)) <= digits_val(s),
    decreases s.len() - i,
{
    if i < s.len() {
        let t = s.subrange(0, i + 1);
        assert(t.drop_last() =~= s.subrange(0, i));
        assert(t.last() == s[i]);
        assert(is_digit(s[i]));
        assert(all_digits(s.subrange(0, i)));
        lemma_digits_val_nonneg(s.subrange(0, i));
        assert(digits_val(t) == digits_val(s.subrange(0, i)) * 10 + digit_val(s[i]));
        assert(digits_val(s.subrange(0, i)) <= digits_val(t));
        lemma_digits_val_prefix_le(s, i + 1);
    } else {
        assert(s.subrange(0, i) =~= s);
    }
}

/// Whether a word is a 32-bit signed integer literal.
pub fn is_int_lit(word: &str) -> (r: bool)
    ensures
        r == is_int_literal(word@),
{
    let n = word.unicode_len();
    if n == 0 {
        return false;
    }
    let mut i: usize = 0;
    let mut acc: u64 = 0;
    while i < n
        invariant
            n == word@.len(),
            0 <= i <= n,
            forall|k: int| 0 <= k < i ==> #[trigger] is_digit(word@[k]),
            acc == digits_val(word@.subrange(0, i as int)),
            acc <= 0x7fff_ffff,
        decreases n - i,
    {
        let c = word.get_char(i);
        let d = c as u32;
        if d < 48 || d > 57 {
            assert(!is_digit(word@[i as int]));
            return false;
        }
        assert(is_digit(word@[i as int]));
        acc = acc * 10 + ((d - 48) as u64);
        proof {
            assert(word@.subrange(0, i + 1).drop_last() =~= word@.subrange(0, i as int));
            assert(word@.subrange(0, i + 1).last() == word@[i as int]);
        }
        if acc > 0x7fff_ffff {
            proof {
                assert(forall|k: int| 0 <= k < i + 1 ==> #[trigger] is_digit(word@[k]));
                if all_digits(word@) {
                    assert(word@.subrange(0, i + 1) =~= word@.subrange(0, (i + 1) as int));
                    lemma_digits_val_prefix_le(word@, i + 1);
                }
            }
            return false;
        }
        i += 1;
    }
    proof {
        assert(word@.subrange(0, n as int) =~= word@);
    }
    true
}

/// Classify a closed word: integer literal, then keyword, then identifier.
pub fn classify(word: &str) -> (k: TokenKind)
    ensures
        k == classify_word(word@),
{
    if is_int_lit(word) {
        TokenKind::TyInt
    } else {
        match keyword_to_token_kind(word) {
            Some(k) => k,
            None => TokenKind::Id,
        }
    }
}

// ---------------------------------------------------------------------------
// The lexer
// ---------------------------------------------------------------------------

/// A lexical error: the offending character and the place it stands at.
#[derive(Debug, Clone, Copy, PartialEq)]
pub struct LexError {
    pub loc: Location,
    pub ch: char,
}

/// The scanner state as a mathematical value: the source, the index of the
/// next character to read, and the running position.
pub ghost struct LexerModel {
    pub src: Seq<char>,
    pub i: int,
    pub col: int,
    pub row: int,
}

/// On-demand lexer: pulls characters from the source buffer and produces
/// one token per pull.
pub struct Lexer<'a> {
    source: &'a str,
    i: usize,
    col: i32,
    row: i32,
}

impl<'a> View for Lexer<'a> {
    type V = LexerModel;

    closed spec fn view(&self) -> LexerModel {
        LexerModel {
            src: self.source@,
            i: self.i as int,
            col: self.col as int,
            row: self.row as int,
        }
    }
}

impl<'a> Lexer<'a> {
    /// The cursor sits inside the source, and the position counters never
    /// exceed the characters consumed, so they fit their machine type.
    pub open spec fn wf(self) -> bool {
        &&& self@.src.len() <= 0x7fff_ffff
        &&& 0 <= self@.i <= self@.src.len()
        &&& 0 <= self@.col <= self@.i
        &&& 0 <= self@.row <= self@.i
    }

    pub fn new(source: &'a str) -> (lx: Lexer<'a>)
        requires
            source@.len() <= 0x7fff_ffff,
        ensures
            lx.wf(),
            lx@ == (LexerModel { src: source@, i: 0, col: 0, row: 0 }),
    {
        Lexer { source, i: 0, col: 0, row: 0 }
    }

    /// Get the next token in the input stream: `Ok(Some(_))` carries one
    /// token, `Ok(None)` says the input is exhausted, and `Err(_)` reports
    /// an unrecognised character, which is left unconsumed.
    pub fn next(&mut self) -> (r: Result<Option<Token>, LexError>)
        requires
            old(self).wf(),
        ensures
            final(self).wf(),
            final(self)@.src == old(self)@.src,
            match pull_at(old(self)@.src, old(self)@.i, old(self)@.col, old(self)@.row) {
                Pull::End { i, col, row } => {
                    &&& r matches Ok(None)
                    &&& final(self)@.i == i
                    &&& final(self)@.col == col
                    &&& final(self)@.row == row
                },
                Pull::Emit { tok, i, col, row } => {
                    &&& r matches Ok(Some(t))
                    &&& t.loc.0 as int == tok.loc.0
                    &&& t.loc.1 as int == tok.loc.1
                    &&& t.value@ == tok.text
                    &&& t.kind == tok.kind
                    &&& final(self)@.i == i
                    &&& final(self)@.col == col
                    &&& final(self)@.row == row
                },
                Pull::Fail { loc, ch, i, col, row } => {
                    &&& r matches Err(e)
                    &&& e.loc.0 as int == loc.0
                    &&& e.loc.1 as int == loc.1
                    &&& e.ch == ch
                    &&& final(self)@.i == i
                    &&& final(self)@.col == col
                    &&& final(self)@.row == row
                },
            },
    {
        let ghost s0 = self@.src;
        let ghost i0 = self@.i;
        let ghost col0 = self@.col;
        let ghost row0 = self@.row;
        let n = self.source.unicode_len();
        loop
            invariant
                self.wf(),
                self@.src == s0,
                s0 == old(self)@.src,
                i0 == old(self)@.i,
                col0 == old(self)@.col,
                row0 == old(self)@.row,
                n == s0.len(),
                pull_at(s0, self@.i, self@.col, self@.row) == pull_at(s0, i0, col0, row0),
            decreases n - self.i,
        {
            let ghost pi = self@.i;
            let ghost pcol = self@.col;
            let ghost prow = self@.row;
            if self.i == n {
                proof {
                    assert(pull_at(s0, pi, pcol, prow) == (Pull::End { i: pi, col: pcol, row: prow }));
                }
                return Ok(None);
            }
            let c = self.source.get_char(self.i);
            if c == ' ' {
                self.i += 1;
                self.col += 1;
                proof {
                    assert(pull_at(s0, pi, pcol, prow) == pull_at(s0, pi + 1, pcol + 1, prow));
                }
            } else if c == '\n' {
                self.i += 1;
                self.col = 0;
                self.row += 1;
                proof {
                    assert(pull_at(s0, pi, pcol, prow) == pull_at(s0, pi + 1, 0, prow + 1));
                }
            } else if c == '(' {
                let loc = (self.col, self.row);
                self.i += 1;
                self.col += 1;
                proof {
                    reveal_strlit("(");
                    assert("("@ =~= seq!['(']);
                    assert(pull_at(s0, pi, pcol, prow) == (Pull::Emit {
                        tok: TokenModel { loc: (pcol, prow), text: seq![c], kind: TokenKind::LParen },
                        i: pi + 1,
                        col: pcol + 1,
                        row: prow,
                    }));
                }
                return Ok(Some(Token::new(loc, String::from_str("("), TokenKind::LParen)));
            } else if c == ')' {
                let loc = (self.col, self.row);
                self.i += 1;
                self.col += 1;
                proof {
                    reveal_strlit(")");
                    assert(")"@ =~= seq![')']);
                    assert(pull_at(s0, pi, pcol, prow) == (Pull::Emit {
                        tok: TokenModel { loc: (pcol, prow), text: seq![c], kind: TokenKind::RParen },
                        i: pi + 1,
                        col: pcol + 1,
                        row: prow,
                    }));
                }
                return Ok(Some(Token::new(loc, String::from_str(")"), TokenKind::RParen)));
            } else if c == '{' {
                let loc = (self.col, self.row);
                self.i += 1;
                self.col += 1;
                proof {
                    reveal_strlit("{");
                    assert("{"@ =~= seq!['{']);
                    assert(pull_at(s0, pi, pcol, prow) == (Pull::Emit {
                        tok: TokenModel { loc: (pcol, prow), text: seq![c], kind: TokenKind::LCurly },
                        i: pi + 1,
                        col: pcol + 1,
                        row: prow,
                    }));
                }
                return Ok(Some(Token::new(loc, String::from_str("{"), TokenKind::LCurly)));
            } else if c == '}' {
                let loc = (self.col, self.row);
                self.i += 1;
                self.col += 1;
                proof {
                    reveal_strlit("}");
                    assert("}"@ =~= seq!['}']);
                    assert(pull_at(s0, pi, pcol, prow) == (Pull::Emit {
                        tok: TokenModel { loc: (pcol, prow), text: seq![c], kind: TokenKind::RCurly },
                        i: pi + 1,
                        col: pcol + 1,
                        row: prow,
                    }));
                }
                return Ok(Some(Token::new(loc, String::from_str("}"), TokenKind::RCurly)));
            } else if c == '=' {
                let loc = (self.col, self.row);
                self.i += 1;
                self.col += 1;
                proof {
                    reveal_strlit("=");
                    assert("="@ =~= seq!['=']);
                    assert(pull_at(s0, pi, pcol, prow) == (Pull::Emit {
                        tok: TokenModel { loc: (pcol, prow), text: seq![c], kind: TokenKind::Eq },
                        i: pi + 1,
                        col: pcol + 1,
                        row: prow,
                    }));
                }
                return Ok(Some(Token::new(loc, String::from_str("="), TokenKind::Eq)));
            } else if c == ':' {
                let loc = (self.col, self.row);
                self.i += 1;
                self.col += 1;
                proof {
                    reveal_strlit(":");
                    assert(":"@ =~= seq![':']);
                    assert(pull_at(s0, pi, pcol, prow) == (Pull::Emit {
                        tok: TokenModel { loc: (pcol, prow), text: seq![c], kind: TokenKind::Colon },
                        i: pi + 1,
                        col: pcol + 1,
                        row: prow,
                    }));
                }
                return Ok(Some(Token::new(loc, String::from_str(":"), TokenKind::Colon)));
            } else if c == '+' {
                let loc = (self.col, self.row);
                self.i += 1;
                self.col += 1;
                proof {
                    reveal_strlit("+");
                    assert("+"@ =~= seq!['+']);
                    assert(pull_at(s0, pi, pcol, prow) == (Pull::Emit {
                        tok: TokenModel { loc: (pcol, prow), text: seq![c], kind: TokenKind::Plus },
                        i: pi + 1,
                        col: pcol + 1,
                        row: prow,
                    }));
                }
                return Ok(Some(Token::new(loc, String::from_str("+"), TokenKind::Plus)));
            } else if c == '-' {
                let loc = (self.col, self.row);
                self.i += 1;
                self.col += 1;
                if self.i < n && self.source.get_char(self.i) == '>' {
                    self.i += 1;
                    self.col += 1;
                    proof {
                        reveal_strlit("->");
                        assert("->"@ =~= seq!['-', '>']);
                        assert(pull_at(s0, pi, pcol, prow) == (Pull::Emit {
                            tok: TokenModel { loc: (pcol, prow), text: seq!['-', '>'], kind: TokenKind::Arrow },
                            i: pi + 2,
                            col: pcol + 2,
                            row: prow,
                        }));
                    }
                    return Ok(Some(Token::new(loc, String::from_str("->"), TokenKind::Arrow)));
                }
                proof {
                    reveal_strlit("-");
                    assert("-"@ =~= seq!['-']);
                    assert(pull_at(s0, pi, pcol, prow) == (Pull::Emit {
                        tok: TokenModel { loc: (pcol, prow), text: seq![c], kind: TokenKind::Minus },
                        i: pi + 1,
                        col: pcol + 1,
                        row: prow,
                    }));
                }
                return Ok(Some(Token::new(loc, String::from_str("-"), TokenKind::Minus)));
            } else if is_word_char(c) {
                let start = self.i;
                let loc = (self.col, self.row);
                proof {
                    assert(structural_kind(c) is None);
                    assert(pull_at(s0, pi, pcol, prow) == pull_word(s0, pi, pi, pcol, prow));
                }
                loop
                    invariant
                        self.wf(),
                        self@.src == s0,
                        s0 == old(self)@.src,
                        i0 == old(self)@.i,
                        col0 == old(self)@.col,
                        row0 == old(self)@.row,
                        n == s0.len(),
                        start as int <= self@.i < n,
                        loc.0 as int == self@.col - (self@.i - start as int),
                        loc.1 as int == self@.row,
                        pull_word(s0, start as int, self@.i, self@.col, self@.row)
                            == pull_at(s0, i0, col0, row0),
                    decreases n - self.i,
                {
                    let ghost wi = self@.i;
                    let ghost wcol = self@.col;
                    let ghost wrow = self@.row;
                    let mut close = true;
                    if self.i + 1 < n {
                        let p = self.source.get_char(self.i + 1);
                        if is_word_cont(p) {
                            close = false;
                        }
                    }
                    if close {
                        self.i += 1;
                        self.col += 1;
                        let text = self.source.substring_char(start, self.i);
                        let kind = classify(text);
                        proof {
                            assert(pull_word(s0, start as int, wi, wcol, wrow) == (Pull::Emit {
                                tok: TokenModel {
                                    loc: (wcol - (wi - start as int), wrow),
                                    text: s0.subrange(start as int, wi + 1),
                                    kind: classify_word(s0.subrange(start as int, wi + 1)),
                                },
                                i: wi + 1,
                                col: wcol + 1,
                                row: wrow,
                            }));
                        }
                        return Ok(Some(Token::new(loc, String::from_str(text), kind)));
                    }
                    self.i += 1;
                    self.col += 1;
                    proof {
                        assert(pull_word(s0, start as int, wi, wcol, wrow)
                            == pull_word(s0, start as int, wi + 1, wcol + 1, wrow));
                    }
                }
            } else {
                proof {
                    assert(structural_kind(c) is None);
                    assert(pull_at(s0, pi, pcol, prow) == (Pull::Fail {
                        loc: (pcol, prow),
                        ch: c,
                        i: pi,
                        col: pcol,
                        row: prow,
                    }));
                }
                return Err(LexError { loc: (self.col, self.row), ch: c });
            }
        }
    }
}

} // verus!
