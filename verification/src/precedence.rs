//! The operator table of the expression grammar, and what it means for how expressions
//! group.

use vstd::prelude::*;
use crate::lexer::TokV;
use crate::parser::{ExprV, ParseErrorV, Toks, infix_bp, sp_expr, sp_infix, sp_prefix, tok_at};

verus! {

/// Whether `t` is `+` or `-`.
pub open spec fn is_additive(t: TokV) -> bool {
    t == TokV::Plus || t == TokV::Minus
}

/// Whether `t` is `*`, `/` or `%`.
pub open spec fn is_multiplicative(t: TokV) -> bool {
    t == TokV::Star || t == TokV::Slash || t == TokV::Percent
}

/// Whether `t` compares two values by order.
pub open spec fn is_comparison(t: TokV) -> bool {
    t == TokV::Lt || t == TokV::Le || t == TokV::Gt || t == TokV::Ge
}

/// Whether operator `a` binds tighter than operator `b`: in `x b y a z` the `a` is taken
/// first (its left power reaches the right power of `b`), and in `x a y b z` the `b` is
/// not taken inside the right side of `a` (its left power stays below the right power of
/// `a`).
pub open spec fn binds_tighter(a: TokV, b: TokV) -> bool {
    infix_bp(a) is Some && infix_bp(b) is Some && (infix_bp(a)->0).0 >= (infix_bp(b)->0).1 && (
    infix_bp(b)->0).0 < (infix_bp(a)->0).1
}

/// The operator table: every infix operator is left associative (its right power is above
/// its left power), and the levels, loosest first, are `||`, `&&`, `==` `!=`, the order
/// comparisons, `|>`, `+` `-`, and `*` `/` `%`: each binds tighter than every operator of a
/// looser level.
pub proof fn law_operator_precedence(a: TokV, b: TokV)
    ensures
        infix_bp(a) is Some ==> (infix_bp(a)->0).0 < (infix_bp(a)->0).1,
        is_multiplicative(a) && is_additive(b) ==> binds_tighter(a, b),
        is_additive(a) && b == TokV::Pipe ==> binds_tighter(a, b),
        a == TokV::Pipe && is_comparison(b) ==> binds_tighter(a, b),
        is_comparison(a) && (b == TokV::EqEq || b == TokV::NotEq) ==> binds_tighter(a, b),
        (a == TokV::EqEq || a == TokV::NotEq) && b == TokV::AndAnd ==> binds_tighter(a, b),
        a == TokV::AndAnd && b == TokV::OrOr ==> binds_tighter(a, b),
        infix_bp(a) is Some <==> (is_multiplicative(a) || is_additive(a) || is_comparison(a) || a
            == TokV::Pipe || a == TokV::EqEq || a == TokV::NotEq || a == TokV::AndAnd || a
            == TokV::OrOr),
{
}

/// `x + y * z` (any additive then any multiplicative operator, between three integers, at
/// the end of the input) parses as `x + (y * z)`.
pub proof fn law_product_binds_tighter_on_right(
    x: i64,
    y: i64,
    z: i64,
    add: TokV,
    mul: TokV,
    lines: Seq<usize>,
)
    requires
        is_additive(add),
        is_multiplicative(mul),
        lines.len() == 6,
    ensures
        ({
            let t: Toks = seq![
                (TokV::Int(x), lines[0]),
                (add, lines[1]),
                (TokV::Int(y), lines[2]),
                (mul, lines[3]),
                (TokV::Int(z), lines[4]),
                (TokV::Eof, lines[5]),
            ];
            sp_expr(t, 0, 0) == (
                Ok::<ExprV, ParseErrorV>(
                    ExprV::Binary(
                        add,
                        Box::new(ExprV::Int(x)),
                        Box::new(ExprV::Binary(mul, Box::new(ExprV::Int(y)), Box::new(ExprV::Int(z)))),
                    ),
                ),
                5int,
            )
        }),
{
    let t: Toks = seq![
        (TokV::Int(x), lines[0]),
        (add, lines[1]),
        (TokV::Int(y), lines[2]),
        (mul, lines[3]),
        (TokV::Int(z), lines[4]),
        (TokV::Eof, lines[5]),
    ];
    let yz = ExprV::Binary(mul, Box::new(ExprV::Int(y)), Box::new(ExprV::Int(z)));
    let all = ExprV::Binary(add, Box::new(ExprV::Int(x)), Box::new(yz));
    assert(tok_at(t, 5) == TokV::Eof);
    assert(sp_infix(t, 5, ExprV::Int(z), 8) == (Ok::<ExprV, ParseErrorV>(ExprV::Int(z)), 5int));
    assert(sp_prefix(t, 4) == (Ok::<ExprV, ParseErrorV>(ExprV::Int(z)), 5int));
    assert(sp_expr(t, 4, 8) == (Ok::<ExprV, ParseErrorV>(ExprV::Int(z)), 5int));
    assert(sp_infix(t, 5, yz, 7) == (Ok::<ExprV, ParseErrorV>(yz), 5int));
    assert(tok_at(t, 3) == mul);
    assert(sp_infix(t, 3, ExprV::Int(y), 7) == (Ok::<ExprV, ParseErrorV>(yz), 5int));
    assert(sp_prefix(t, 2) == (Ok::<ExprV, ParseErrorV>(ExprV::Int(y)), 3int));
    assert(sp_expr(t, 2, 7) == (Ok::<ExprV, ParseErrorV>(yz), 5int));
    assert(sp_infix(t, 5, all, 0) == (Ok::<ExprV, ParseErrorV>(all), 5int));
    assert(tok_at(t, 1) == add);
    assert(sp_infix(t, 1, ExprV::Int(x), 0) == (Ok::<ExprV, ParseErrorV>(all), 5int));
    assert(sp_prefix(t, 0) == (Ok::<ExprV, ParseErrorV>(ExprV::Int(x)), 1int));
}

/// `x * y + z` (any multiplicative then any additive operator, between three integers, at
/// the end of the input) parses as `(x * y) + z`.
pub proof fn law_product_binds_tighter_on_left(
    x: i64,
    y: i64,
    z: i64,
    mul: TokV,
    add: TokV,
    lines: Seq<usize>,
)
    requires
        is_additive(add),
        is_multiplicative(mul),
        lines.len() == 6,
    ensures
        ({
            let t: Toks = seq![
                (TokV::Int(x), lines[0]),
                (mul, lines[1]),
                (TokV::Int(y), lines[2]),
                (add, lines[3]),
                (TokV::Int(z), lines[4]),
                (TokV::Eof, lines[5]),
            ];
            sp_expr(t, 0, 0) == (
                Ok::<ExprV, ParseErrorV>(
                    ExprV::Binary(
                        add,
                        Box::new(ExprV::Binary(mul, Box::new(ExprV::Int(x)), Box::new(ExprV::Int(y)))),
                        Box::new(ExprV::Int(z)),
                    ),
                ),
                5int,
            )
        }),
{
    let t: Toks = seq![
        (TokV::Int(x), lines[0]),
        (mul, lines[1]),
        (TokV::Int(y), lines[2]),
        (add, lines[3]),
        (TokV::Int(z), lines[4]),
        (TokV::Eof, lines[5]),
    ];
    let xy = ExprV::Binary(mul, Box::new(ExprV::Int(x)), Box::new(ExprV::Int(y)));
    let all = ExprV::Binary(add, Box::new(xy), Box::new(ExprV::Int(z)));
    assert(tok_at(t, 5) == TokV::Eof);
    assert(tok_at(t, 3) == add);
    assert(tok_at(t, 1) == mul);
    assert(sp_infix(t, 3, ExprV::Int(y), 8) == (Ok::<ExprV, ParseErrorV>(ExprV::Int(y)), 3int));
    assert(sp_prefix(t, 2) == (Ok::<ExprV, ParseErrorV>(ExprV::Int(y)), 3int));
    assert(sp_expr(t, 2, 8) == (Ok::<ExprV, ParseErrorV>(ExprV::Int(y)), 3int));
    assert(sp_infix(t, 5, ExprV::Int(z), 7) == (Ok::<ExprV, ParseErrorV>(ExprV::Int(z)), 5int));
    assert(sp_prefix(t, 4) == (Ok::<ExprV, ParseErrorV>(ExprV::Int(z)), 5int));
    assert(sp_expr(t, 4, 7) == (Ok::<ExprV, ParseErrorV>(ExprV::Int(z)), 5int));
    assert(sp_infix(t, 5, all, 0) == (Ok::<ExprV, ParseErrorV>(all), 5int));
    assert(sp_infix(t, 3, xy, 0) == (Ok::<ExprV, ParseErrorV>(all), 5int));
    assert(sp_infix(t, 1, ExprV::Int(x), 0) == (Ok::<ExprV, ParseErrorV>(all), 5int));
    assert(sp_prefix(t, 0) == (Ok::<ExprV, ParseErrorV>(ExprV::Int(x)), 1int));
}

} // verus!
