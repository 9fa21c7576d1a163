//! The simplifying constructors and the differentiator. `make_sum` and
//! `make_product` are the only places the derivative rules build new nodes,
//! and they fold the known identities while doing so: constants are folded
//! together, adding zero or multiplying by one hands the other operand back
//! unchanged (the same shared node), and multiplying by zero collapses to
//! zero. Differentiation dispatches over the four supported cases — constant,
//! the target variable, sum, product — and fails on anything else.

use crate::expr::{
    apply_op, is_const_m, is_same_var_m, model, nv_m, EngineError, Expr, ExprModel, Op,
};
use std::rc::Rc;
use vstd::prelude::*;

verus! {

/// Folds two constants under an operator into one number node, when the
/// operands evaluate and the result exists.
pub open spec fn fold_m(op: Op, l: ExprModel, r: ExprModel) -> Option<ExprModel> {
    match (nv_m(l), nv_m(r)) {
        (Some(a), Some(b)) => match apply_op(op, a, b) {
            Some(v) => Some(ExprModel::Num { value: v }),
            None => None,
        },
        _ => None,
    }
}

/// What `make_sum` builds: fold two constants, elide an operand that is the
/// constant zero, and otherwise make an addition node. `None` stands for a
/// failed numeric fold.
pub open spec fn make_sum_m(l: ExprModel, r: ExprModel) -> Option<ExprModel> {
    if is_const_m(l) && is_const_m(r) {
        fold_m(Op::Plus, l, r)
    } else if nv_m(l) == Some(0int) {
        Some(r)
    } else if nv_m(r) == Some(0int) {
        Some(l)
    } else {
        Some(ExprModel::Bin { op: Op::Plus, left: Box::new(l), right: Box::new(r) })
    }
}

/// What `make_product` builds: fold two constants, elide a factor that is
/// the constant one, collapse a factor that is the constant zero, and
/// otherwise make a multiplication node.
pub open spec fn make_product_m(l: ExprModel, r: ExprModel) -> Option<ExprModel> {
    if is_const_m(l) && is_const_m(r) {
        fold_m(Op::Star, l, r)
    } else if nv_m(l) == Some(1int) {
        Some(r)
    } else if nv_m(r) == Some(1int) {
        Some(l)
    } else if nv_m(l) == Some(0int) {
        Some(ExprModel::Num { value: 0 })
    } else if nv_m(r) == Some(0int) {
        Some(ExprModel::Num { value: 0 })
    } else {
        Some(ExprModel::Bin { op: Op::Star, left: Box::new(l), right: Box::new(r) })
    }
}

/// An expression that is not constant has no numeric value: somewhere
/// inside it sits a free variable.
pub proof fn lemma_nonconst_nv_none(e: ExprModel)
    requires
        !is_const_m(e),
    ensures
        nv_m(e) is None,
    decreases e,
{
    match e {
        ExprModel::Num { .. } => {},
        ExprModel::Var { .. } => {},
        ExprModel::Bin { left, right, .. } => {
            if !is_const_m(*left) {
                lemma_nonconst_nv_none(*left);
            } else if !is_const_m(*right) {
                lemma_nonconst_nv_none(*right);
            }
        },
    }
}

/// The derivative of an expression with respect to a variable, together
/// with the identity simplification the constructors perform. A constant
/// differentiates to zero, the target variable to one, a variable other
/// than the target is constant with respect to it and differentiates to
/// zero, a sum by the sum rule, a product by the product rule, and any
/// other construct — a difference or a quotient — is unsupported.
pub open spec fn d_m(e: ExprModel, v: Seq<char>) -> Result<ExprModel, EngineError>
    decreases e,
{
    if is_const_m(e) {
        Ok(ExprModel::Num { value: 0 })
    } else {
        match e {
            ExprModel::Num { .. } => Ok(ExprModel::Num { value: 0 }),
            ExprModel::Var { name } => if name == v {
                Ok(ExprModel::Num { value: 1 })
            } else {
                Ok(ExprModel::Num { value: 0 })
            },
            ExprModel::Bin { op: Op::Plus, left, right } => match d_m(*left, v) {
                Err(er) => Err(er),
                Ok(da) => match d_m(*right, v) {
                    Err(er) => Err(er),
                    Ok(db) => match make_sum_m(da, db) {
                        Some(s) => Ok(s),
                        None => Err(EngineError::EvaluationError),
                    },
                },
            },
            ExprModel::Bin { op: Op::Star, left, right } => match d_m(*left, v) {
                Err(er) => Err(er),
                Ok(dl) => match make_product_m(*right, dl) {
                    None => Err(EngineError::EvaluationError),
                    Some(p1) => match d_m(*right, v) {
                        Err(er) => Err(er),
                        Ok(dr) => match make_product_m(dr, *left) {
                            None => Err(EngineError::EvaluationError),
                            Some(p2) => match make_sum_m(p1, p2) {
                                Some(s) => Ok(s),
                                None => Err(EngineError::EvaluationError),
                            },
                        },
                    },
                },
            },
            ExprModel::Bin { .. } => Err(EngineError::DifferentiationError),
        }
    }
}

/// Builds the sum of two expressions, folding the additive identities.
/// When it elides a zero it returns the other operand itself — the same
/// shared node, not a copy. The only failure is a numeric fold of two
/// constants that has no value.
pub fn make_sum(left: Rc<Expr>, right: Rc<Expr>) -> (res: Result<Rc<Expr>, EngineError>)
    ensures
        res matches Ok(e) ==> make_sum_m(left@, right@) == Some(e@),
        res matches Err(er) ==> make_sum_m(left@, right@) is None && er
            == EngineError::EvaluationError,
{
    if left.is_constant("") && right.is_constant("") {
        let a = match left.numeric_value() {
            Ok(a) => a,
            Err(er) => {
                return Err(er);
            },
        };
        let b = match right.numeric_value() {
            Ok(b) => b,
            Err(er) => {
                return Err(er);
            },
        };
        return match a.checked_add(b) {
            Some(v) => Ok(Rc::new(Expr::NumberLiteral { value: v })),
            None => Err(EngineError::EvaluationError),
        };
    }
    if left.is_constant("") {
        match left.numeric_value() {
            Ok(v) => {
                if v == 0 {
                    return Ok(right);
                }
            },
            Err(_) => {},
        }
    } else {
        proof {
            lemma_nonconst_nv_none(left@);
        }
    }
    if right.is_constant("") {
        match right.numeric_value() {
            Ok(v) => {
                if v == 0 {
                    return Ok(left);
                }
            },
            Err(_) => {},
        }
    } else {
        proof {
            lemma_nonconst_nv_none(right@);
        }
    }
    Ok(Rc::new(Expr::BinaryExpression { operator: Op::Plus, left, right }))
}

/// Builds the product of two expressions, folding the multiplicative
/// identities. When it elides a one it returns the other operand itself —
/// the same shared node, not a copy. The only failure is a numeric fold of
/// two constants that has no value.
pub fn make_product(left: Rc<Expr>, right: Rc<Expr>) -> (res: Result<Rc<Expr>, EngineError>)
    ensures
        res matches Ok(e) ==> make_product_m(left@, right@) == Some(e@),
        res matches Err(er) ==> make_product_m(left@, right@) is None && er
            == EngineError::EvaluationError,
{
    if left.is_constant("") && right.is_constant("") {
        let a = match left.numeric_value() {
            Ok(a) => a,
            Err(er) => {
                return Err(er);
            },
        };
        let b = match right.numeric_value() {
            Ok(b) => b,
            Err(er) => {
                return Err(er);
            },
        };
        return match a.checked_mul(b) {
            Some(v) => Ok(Rc::new(Expr::NumberLiteral { value: v })),
            None => Err(EngineError::EvaluationError),
        };
    }
    proof {
        if !is_const_m(left@) {
            lemma_nonconst_nv_none(left@);
        }
        if !is_const_m(right@) {
            lemma_nonconst_nv_none(right@);
        }
    }
    if left.is_constant("") {
        match left.numeric_value() {
            Ok(v) => {
                if v == 1 {
                    return Ok(right);
                }
            },
            Err(_) => {},
        }
    }
    if right.is_constant("") {
        match right.numeric_value() {
            Ok(v) => {
                if v == 1 {
                    return Ok(left);
                }
            },
            Err(_) => {},
        }
    }
    if left.is_constant("") {
        match left.numeric_value() {
            Ok(v) => {
                if v == 0 {
                    return Ok(Rc::new(Expr::NumberLiteral { value: 0 }));
                }
            },
            Err(_) => {},
        }
    }
    if right.is_constant("") {
        match right.numeric_value() {
            Ok(v) => {
                if v == 0 {
                    return Ok(Rc::new(Expr::NumberLiteral { value: 0 }));
                }
            },
            Err(_) => {},
        }
    }
    Ok(Rc::new(Expr::BinaryExpression { operator: Op::Star, left, right }))
}

/// Computes the symbolic derivative of an expression with respect to the
/// named variable, simplified by the constructors it uses. Fails with
/// `DifferentiationError` on a construct outside the four rules — a
/// difference or a quotient that is not wholly constant — and with
/// `EvaluationError` when folding constants inside a rule has no value.
pub fn differentiate(expr: &Rc<Expr>, var: &str) -> (res: Result<Rc<Expr>, EngineError>)
    ensures
        res matches Ok(e) ==> d_m(expr@, var@) == Ok::<ExprModel, EngineError>(e@),
        res matches Err(er) ==> d_m(expr@, var@) == Err::<ExprModel, EngineError>(er),
    decreases expr,
{
    if expr.is_constant(var) {
        return Ok(Rc::new(Expr::NumberLiteral { value: 0 }));
    }
    if expr.is_same_variable(var) {
        return Ok(Rc::new(Expr::NumberLiteral { value: 1 }));
    }
    match &**expr {
        Expr::NumberLiteral { .. } => {
            proof {
                assert(false);
            }
            Err(EngineError::DifferentiationError)
        },
        Expr::VariableLiteral { .. } => Ok(Rc::new(Expr::NumberLiteral { value: 0 })),
        Expr::BinaryExpression { operator: Op::Plus, left, right } => {
            let da = match differentiate(left, var) {
                Ok(e) => e,
                Err(er) => {
                    return Err(er);
                },
            };
            let db = match differentiate(right, var) {
                Ok(e) => e,
                Err(er) => {
                    return Err(er);
                },
            };
            make_sum(da, db)
        },
        Expr::BinaryExpression { operator: Op::Star, left, right } => {
            let dl = match differentiate(left, var) {
                Ok(e) => e,
                Err(er) => {
                    return Err(er);
                },
            };
            let p1 = match make_product(right.clone(), dl) {
                Ok(e) => e,
                Err(er) => {
                    return Err(er);
                },
            };
            let dr = match differentiate(right, var) {
                Ok(e) => e,
                Err(er) => {
                    return Err(er);
                },
            };
            let p2 = match make_product(dr, left.clone()) {
                Ok(e) => e,
                Err(er) => {
                    return Err(er);
                },
            };
            make_sum(p1, p2)
        },
        Expr::BinaryExpression { .. } => Err(EngineError::DifferentiationError),
    }
}

} // verus!
