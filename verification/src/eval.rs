//! Evaluation of assertion terms under a concrete assignment of values to
//! symbolic names. This is the meaning the solver gives the serialized
//! formulas, restricted to the value domain the model parser accepts:
//! non-negative integers and booleans. It lets a caller check a returned
//! model against a constraint, and it is the semantics the branch-guard
//! law is stated over.

use vstd::prelude::*;

use crate::sir::{Expr, Rator, SymTy};

verus! {

/// The value of a unary application; `None` when the operand sort does not
/// fit the operator or the result leaves the modeled domain.
pub open spec fn eval_un(op: Rator, v: SymTy) -> Option<SymTy> {
    match (op, v) {
        (Rator::Not, SymTy::Bool(b)) => Some(SymTy::Bool(!b)),
        _ => None,
    }
}

/// The value of a binary application; `None` when the operand sorts do not
/// fit the operator or the result leaves the modeled domain.
pub open spec fn eval_bin(op: Rator, a: SymTy, b: SymTy) -> Option<SymTy> {
    match op {
        Rator::Eq => match (a, b) {
            (SymTy::Integer(x), SymTy::Integer(y)) => Some(SymTy::Bool(x == y)),
            (SymTy::Bool(x), SymTy::Bool(y)) => Some(SymTy::Bool(x == y)),
            _ => None,
        },
        Rator::NotEqual => match (a, b) {
            (SymTy::Integer(x), SymTy::Integer(y)) => Some(SymTy::Bool(x != y)),
            (SymTy::Bool(x), SymTy::Bool(y)) => Some(SymTy::Bool(x != y)),
            _ => None,
        },
        Rator::And => match (a, b) {
            (SymTy::Bool(x), SymTy::Bool(y)) => Some(SymTy::Bool(x && y)),
            _ => None,
        },
        Rator::Add => match (a, b) {
            (SymTy::Integer(x), SymTy::Integer(y)) => if x + y <= u128::MAX {
                Some(SymTy::Integer((x + y) as u128))
            } else {
                None
            },
            _ => None,
        },
        Rator::Sub => match (a, b) {
            (SymTy::Integer(x), SymTy::Integer(y)) => if x >= y {
                Some(SymTy::Integer((x - y) as u128))
            } else {
                None
            },
            _ => None,
        },
        Rator::Mul => match (a, b) {
            (SymTy::Integer(x), SymTy::Integer(y)) => if x * y <= u128::MAX {
                Some(SymTy::Integer((x * y) as u128))
            } else {
                None
            },
            _ => None,
        },
        Rator::Div => match (a, b) {
            (SymTy::Integer(x), SymTy::Integer(y)) => if y != 0 {
                Some(SymTy::Integer((x as nat / y as nat) as u128))
            } else {
                None
            },
            _ => None,
        },
        Rator::Mod => match (a, b) {
            (SymTy::Integer(x), SymTy::Integer(y)) => if y != 0 {
                Some(SymTy::Integer((x as nat % y as nat) as u128))
            } else {
                None
            },
            _ => None,
        },
        Rator::LessThan => match (a, b) {
            (SymTy::Integer(x), SymTy::Integer(y)) => Some(SymTy::Bool(x < y)),
            _ => None,
        },
        Rator::LessEqual => match (a, b) {
            (SymTy::Integer(x), SymTy::Integer(y)) => Some(SymTy::Bool(x <= y)),
            _ => None,
        },
        Rator::GreaterThan => match (a, b) {
            (SymTy::Integer(x), SymTy::Integer(y)) => Some(SymTy::Bool(x > y)),
            _ => None,
        },
        Rator::GreaterEqual => match (a, b) {
            (SymTy::Integer(x), SymTy::Integer(y)) => Some(SymTy::Bool(x >= y)),
            _ => None,
        },
        _ => None,
    }
}

/// The value of a term under an environment that assigns a value to each
/// symbolic name by allocation index; `None` for an unbound name or an
/// ill-sorted application.
pub open spec fn eval_expr_spec(env: Seq<SymTy>, e: Expr) -> Option<SymTy>
    decreases e,
{
    match e {
        Expr::Value(v) => Some(v),
        Expr::Ref(nm) => if nm.0 < env.len() {
            Some(env[nm.0 as int])
        } else {
            None
        },
        Expr::UnOp(op, a) => match eval_expr_spec(env, *a) {
            Some(va) => eval_un(op, va),
            None => None,
        },
        Expr::BinOp(op, a, b) => match (eval_expr_spec(env, *a), eval_expr_spec(env, *b)) {
            (Some(va), Some(vb)) => eval_bin(op, va, vb),
            _ => None,
        },
    }
}

/// Whether a term holds under an environment: it evaluates to `true`.
pub open spec fn holds(env: Seq<SymTy>, e: Expr) -> bool {
    eval_expr_spec(env, e) == Some(SymTy::Bool(true))
}

/// Evaluates a term under a concrete environment.
pub fn eval_expr(env: &Vec<SymTy>, e: &Expr) -> (r: Option<SymTy>)
    ensures
        r == eval_expr_spec(env@, *e),
    decreases e,
{
    match e {
        Expr::Value(v) => Some(*v),
        Expr::Ref(nm) => {
            if nm.0 < env.len() {
                Some(env[nm.0])
            } else {
                None
            }
        },
        Expr::UnOp(op, a) => {
            match eval_expr(env, a) {
                Some(va) => eval_un_exec(*op, va),
                None => None,
            }
        },
        Expr::BinOp(op, a, b) => {
            match (eval_expr(env, a), eval_expr(env, b)) {
                (Some(va), Some(vb)) => eval_bin_exec(*op, va, vb),
                _ => None,
            }
        },
    }
}

/// Evaluates a unary application.
fn eval_un_exec(op: Rator, v: SymTy) -> (r: Option<SymTy>)
    ensures
        r == eval_un(op, v),
{
    match (op, v) {
        (Rator::Not, SymTy::Bool(b)) => Some(SymTy::Bool(!b)),
        _ => None,
    }
}

/// Evaluates a binary application.
fn eval_bin_exec(op: Rator, a: SymTy, b: SymTy) -> (r: Option<SymTy>)
    ensures
        r == eval_bin(op, a, b),
{
    match op {
        Rator::Eq => match (a, b) {
            (SymTy::Integer(x), SymTy::Integer(y)) => Some(SymTy::Bool(x == y)),
            (SymTy::Bool(x), SymTy::Bool(y)) => Some(SymTy::Bool(x == y)),
            _ => None,
        },
        Rator::NotEqual => match (a, b) {
            (SymTy::Integer(x), SymTy::Integer(y)) => Some(SymTy::Bool(x != y)),
            (SymTy::Bool(x), SymTy::Bool(y)) => Some(SymTy::Bool(x != y)),
            _ => None,
        },
        Rator::And => match (a, b) {
            (SymTy::Bool(x), SymTy::Bool(y)) => Some(SymTy::Bool(x && y)),
            _ => None,
        },
        Rator::Add => match (a, b) {
            (SymTy::Integer(x), SymTy::Integer(y)) => {
                if x <= u128::MAX - y {
                    Some(SymTy::Integer(x + y))
                } else {
                    None
                }
            },
            _ => None,
        },
        Rator::Sub => match (a, b) {
            (SymTy::Integer(x), SymTy::Integer(y)) => {
                if x >= y {
                    Some(SymTy::Integer(x - y))
                } else {
                    None
                }
            },
            _ => None,
        },
        Rator::Mul => match (a, b) {
            (SymTy::Integer(x), SymTy::Integer(y)) => {
                if y == 0 || x <= u128::MAX / y {
                    proof {
                        if y != 0 {
                            vstd::arithmetic::div_mod::lemma_fundamental_div_mod(
                                u128::MAX as int,
                                y as int,
                            );
                            vstd::arithmetic::mul::lemma_mul_inequality(
                                x as int,
                                (u128::MAX / y) as int,
                                y as int,
                            );
                            vstd::arithmetic::mul::lemma_mul_is_commutative(
                                x as int,
                                y as int,
                            );
                        }
                    }
                    Some(SymTy::Integer(x * y))
                } else {
                    proof {
                        let q = (u128::MAX / y) as int;
                        vstd::arithmetic::div_mod::lemma_fundamental_div_mod(
                            u128::MAX as int,
                            y as int,
                        );
                        vstd::arithmetic::mul::lemma_mul_inequality(q + 1, x as int, y as int);
                        vstd::arithmetic::mul::lemma_mul_is_distributive_add_other_way(
                            y as int,
                            q,
                            1,
                        );
                        vstd::arithmetic::mul::lemma_mul_is_commutative(q, y as int);
                    }
                    None
                }
            },
            _ => None,
        },
        Rator::Div => match (a, b) {
            (SymTy::Integer(x), SymTy::Integer(y)) => {
                if y != 0 {
                    Some(SymTy::Integer(x / y))
                } else {
                    None
                }
            },
            _ => None,
        },
        Rator::Mod => match (a, b) {
            (SymTy::Integer(x), SymTy::Integer(y)) => {
                if y != 0 {
                    Some(SymTy::Integer(x % y))
                } else {
                    None
                }
            },
            _ => None,
        },
        Rator::LessThan => match (a, b) {
            (SymTy::Integer(x), SymTy::Integer(y)) => Some(SymTy::Bool(x < y)),
            _ => None,
        },
        Rator::LessEqual => match (a, b) {
            (SymTy::Integer(x), SymTy::Integer(y)) => Some(SymTy::Bool(x <= y)),
            _ => None,
        },
        Rator::GreaterThan => match (a, b) {
            (SymTy::Integer(x), SymTy::Integer(y)) => Some(SymTy::Bool(x > y)),
            _ => None,
        },
        Rator::GreaterEqual => match (a, b) {
            (SymTy::Integer(x), SymTy::Integer(y)) => Some(SymTy::Bool(x >= y)),
            _ => None,
        },
        _ => None,
    }
}

} // verus!
