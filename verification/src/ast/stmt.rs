use vstd::prelude::*;

use crate::ast::expr::Expr;
use crate::util::Location;
use crate::util::Spannable;

verus! {

/// One parameter of a function declaration.
pub struct Param {
    pub loc: Location,
    pub name: String,
}

/// A statement, as a future parser will build it from the token stream.
pub enum Statement {
    VarDecl { loc: Location, name: String, expr: Expr },
    ParamDecl(Param),
    FunDecl { loc: Location, name: String, params: Vec<Param> },
}

impl Spannable for Statement {
    open spec fn spec_loc(&self) -> Location {
        match self {
            Statement::VarDecl { loc, .. } => *loc,
            Statement::ParamDecl(Param { loc, .. }) => *loc,
            Statement::FunDecl { loc, .. } => *loc,
        }
    }

    fn get_loc(&self) -> (loc: Location) {
        match self {
            Statement::VarDecl { loc, .. } => *loc,
            Statement::ParamDecl(Param { loc, .. }) => *loc,
            Statement::FunDecl { loc, .. } => *loc,
        }
    }
}

} // verus!
