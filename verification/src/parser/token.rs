use vstd::prelude::*;

use crate::util::Location;
use crate::util::Spannable;

verus! {

/// The closed set of lexical categories a scanned lexeme can fall in.
#[derive(Clone, Copy, Debug, PartialEq, Eq, Structural)]
pub enum TokenKind {
    ErrorToken,
    Eof,
    LParen,
    RParen,
    LCurly,
    RCurly,
    Eq,
    Comma,
    Colon,
    Arrow,
    Plus,
    Minus,
    Star,
    Slash,
    FnKeyword,
    LetKeyword,
    Id,
    TyInt,
    TyUnit,
    Unknown,
}

/// One scanned token: where it was matched, the raw lexeme text exactly as it
/// appears in the source, and its category.
#[derive(Debug, PartialEq)]
pub struct Token {
    pub loc: Location,
    pub value: String,
    pub kind: TokenKind,
}

impl Token {
    pub fn new(loc: Location, value: String, kind: TokenKind) -> (t: Token)
        ensures
            t.loc == loc,
            t.value == value,
            t.kind == kind,
    {
        Token { loc, value, kind }
    }
}

impl Spannable for Token {
    open spec fn spec_loc(&self) -> Location {
        self.loc
    }

    fn get_loc(&self) -> (loc: Location) {
        self.loc
    }
}

} // verus!
