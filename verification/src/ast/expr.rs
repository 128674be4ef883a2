use vstd::prelude::*;

use crate::util::Location;
use crate::util::Spannable;

verus! {

/// A literal value, with the place it occurs at. A floating-point literal
/// carries its IEEE 754 bit pattern: the syntax model only stores the
/// value and reads locations, so the bits preserve it exactly.
pub enum Lit {
    Int { loc: Location, value: i32 },
    String { loc: Location, value: String },
    Float { loc: Location, bits: u32 },
}

/// A binary arithmetic operator.
pub enum Op {
    Add,
    Sub,
    Div,
    Mult,
}

/// An expression, as a future parser will build it from the token stream.
/// A `BinOp` exclusively owns its two boxed operands; a `FunCall`
/// exclusively owns its ordered argument list.
pub enum Expr {
    Identifier { loc: Location, name: String },
    Literal(Lit),
    BinOp(Op, Box<Expr>, Box<Expr>),
    FunCall { loc: Location, name: String, args: Vec<Box<Expr>> },
}

impl Spannable for Expr {
    /// A `BinOp` reports its left operand's location, not the operator's —
    /// a deliberate simplification of the syntax model.
    open spec fn spec_loc(&self) -> Location
        decreases self,
    {
        match self {
            Expr::Identifier { loc, .. } => *loc,
            Expr::Literal(Lit::Int { loc, .. }) => *loc,
            Expr::Literal(Lit::String { loc, .. }) => *loc,
            Expr::Literal(Lit::Float { loc, .. }) => *loc,
            Expr::FunCall { loc, .. } => *loc,
            Expr::BinOp(_, expr, _) => expr.spec_loc(),
        }
    }

    fn get_loc(&self) -> (loc: Location)
        decreases self,
    {
        match self {
            Expr::Identifier { loc, .. } => *loc,
            Expr::Literal(Lit::Int { loc, .. }) => *loc,
            Expr::Literal(Lit::String { loc, .. }) => *loc,
            Expr::Literal(Lit::Float { loc, .. }) => *loc,
            Expr::FunCall { loc, .. } => *loc,
            Expr::BinOp(_, expr, _) => expr.get_loc(),
        }
    }
}

} // verus!
