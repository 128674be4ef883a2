use amur::ast::expr::Expr;
use amur::ast::expr::Lit;
use amur::ast::expr::Op;
use amur::ast::stmt::Param;
use amur::ast::stmt::Statement;
use amur::util::Spannable;

#[test]
fn identifier_reports_its_location() {
    let e = Expr::Identifier { loc: (3, 1), name: String::from("x") };
    assert_eq!(e.get_loc(), (3, 1));
}

#[test]
fn literals_report_their_location() {
    assert_eq!(Expr::Literal(Lit::Int { loc: (1, 0), value: 7 }).get_loc(), (1, 0));
    assert_eq!(
        Expr::Literal(Lit::String { loc: (2, 5), value: String::from("s") }).get_loc(),
        (2, 5),
    );
    assert_eq!(
        Expr::Literal(Lit::Float { loc: (9, 4), bits: 0x3f80_0000 }).get_loc(),
        (9, 4),
    );
}

#[test]
fn binop_reports_its_left_operands_location() {
    let left = Expr::Identifier { loc: (2, 3), name: String::from("a") };
    let right = Expr::Literal(Lit::Int { loc: (6, 3), value: 1 });
    let e = Expr::BinOp(Op::Add, Box::new(left), Box::new(right));
    assert_eq!(e.get_loc(), (2, 3));
}

#[test]
fn nested_binop_recurses_to_leftmost_operand() {
    let a = Expr::Identifier { loc: (0, 0), name: String::from("a") };
    let b = Expr::Identifier { loc: (4, 0), name: String::from("b") };
    let c = Expr::Identifier { loc: (8, 0), name: String::from("c") };
    let inner = Expr::BinOp(Op::Mult, Box::new(a), Box::new(b));
    let outer = Expr::BinOp(Op::Sub, Box::new(inner), Box::new(c));
    assert_eq!(outer.get_loc(), (0, 0));
}

#[test]
fn funcall_reports_its_own_location() {
    let arg = Expr::Literal(Lit::Int { loc: (5, 2), value: 3 });
    let e = Expr::FunCall {
        loc: (1, 2),
        name: String::from("f"),
        args: vec![Box::new(arg)],
    };
    assert_eq!(e.get_loc(), (1, 2));
}

#[test]
fn statements_report_their_location() {
    let v = Statement::VarDecl {
        loc: (2, 7),
        name: String::from("x"),
        expr: Expr::Literal(Lit::Int { loc: (6, 7), value: 0 }),
    };
    assert_eq!(v.get_loc(), (2, 7));
    let p = Statement::ParamDecl(Param { loc: (4, 1), name: String::from("y") });
    assert_eq!(p.get_loc(), (4, 1));
    let f = Statement::FunDecl { loc: (0, 9), name: String::from("g"), params: Vec::new() };
    assert_eq!(f.get_loc(), (0, 9));
}

#[test]
fn op_variants_are_distinct() {
    let ops = [Op::Add, Op::Sub, Op::Div, Op::Mult];
    for (i, a) in ops.iter().enumerate() {
        for (j, b) in ops.iter().enumerate() {
            assert_eq!(i == j, matches!(
                (a, b),
                (Op::Add, Op::Add) | (Op::Sub, Op::Sub) | (Op::Div, Op::Div) | (Op::Mult, Op::Mult)
            ));
        }
    }
}
