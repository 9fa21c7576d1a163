//! The expression tree of the formula language: a tagged variant for
//! numbers, variables and binary operations, with shared (reference-counted)
//! children so a derivative can reuse a subexpression in two branches, plus
//! the capability operations the differentiation rules dispatch on.

use crate::text::{chars_of, dec_str, eq_str, i64_to_string, push_char};
use std::rc::Rc;
use vstd::prelude::*;

verus! {

/// A binary operator of the formula language.
#[derive(Clone, Copy, PartialEq, Eq, Structural, Debug)]
pub enum Op {
    Plus,
    Minus,
    Star,
    Slash,
}

/// One failure kind of the engine: a token stream that does not match the
/// grammar, a construct the differentiation rules do not cover, or a numeric
/// evaluation that has no value (a free variable, division by zero, or a
/// result outside the machine's integer range).
#[derive(Clone, Copy, PartialEq, Eq, Structural, Debug)]
pub enum EngineError {
    SyntaxError,
    DifferentiationError,
    EvaluationError,
}

/// An expression node. Children of a binary node are shared, never mutated:
/// the structure is an immutable directed acyclic graph.
pub enum Expr {
    NumberLiteral { value: i64 },
    VariableLiteral { name: String },
    BinaryExpression { operator: Op, left: Rc<Expr>, right: Rc<Expr> },
}

/// The mathematical shape of an expression: what an `Expr` stands for once
/// sharing and string representations are abstracted away.
#[verifier::ext_equal]
pub enum ExprModel {
    Num { value: int },
    Var { name: Seq<char> },
    Bin { op: Op, left: Box<ExprModel>, right: Box<ExprModel> },
}

/// The shape an expression stands for.
pub open spec fn model(e: Expr) -> ExprModel
    decreases e,
{
    match e {
        Expr::NumberLiteral { value } => ExprModel::Num { value: value as int },
        Expr::VariableLiteral { name } => ExprModel::Var { name: name@ },
        Expr::BinaryExpression { operator, left, right } => ExprModel::Bin {
            op: operator,
            left: Box::new(model(*left)),
            right: Box::new(model(*right)),
        },
    }
}

impl View for Expr {
    type V = ExprModel;

    open spec fn view(&self) -> ExprModel {
        model(*self)
    }
}

/// Whether an expression is constant: numbers are, variables are not, and a
/// binary node is constant exactly when both children are.
pub open spec fn is_const_m(e: ExprModel) -> bool
    decreases e,
{
    match e {
        ExprModel::Num { .. } => true,
        ExprModel::Var { .. } => false,
        ExprModel::Bin { left, right, .. } => is_const_m(*left) && is_const_m(*right),
    }
}

/// Whether an expression is exactly the named variable.
pub open spec fn is_same_var_m(e: ExprModel, var: Seq<char>) -> bool {
    e matches ExprModel::Var { name } && name == var
}

/// Whether an expression is an addition node.
pub open spec fn is_sum_m(e: ExprModel) -> bool {
    e matches ExprModel::Bin { op: Op::Plus, .. }
}

/// Whether an expression is a multiplication node.
pub open spec fn is_product_m(e: ExprModel) -> bool {
    e matches ExprModel::Bin { op: Op::Star, .. }
}

/// The left child of a binary node.
pub open spec fn bin_left(e: ExprModel) -> ExprModel
    recommends
        e matches ExprModel::Bin { .. },
{
    match e {
        ExprModel::Bin { left, .. } => *left,
        _ => e,
    }
}

/// The right child of a binary node.
pub open spec fn bin_right(e: ExprModel) -> ExprModel
    recommends
        e matches ExprModel::Bin { .. },
{
    match e {
        ExprModel::Bin { right, .. } => *right,
        _ => e,
    }
}

/// Whether a value fits the machine's signed 64-bit integers.
pub open spec fn in_i64(x: int) -> bool {
    i64::MIN <= x <= i64::MAX
}

/// Division truncating toward zero, as the machine's signed division does.
pub open spec fn trunc_div(x: int, d: int) -> int
    recommends
        d != 0,
{
    if x == 0 {
        0
    } else if x > 0 && d > 0 {
        x / d
    } else if x < 0 && d < 0 {
        (x * -1) / (d * -1)
    } else if x < 0 {
        ((x * -1) / d) * -1
    } else {
        (x / (d * -1)) * -1
    }
}

/// Applies an operator to two constants. `None` when the division has no
/// value or the result leaves the machine's integer range.
pub open spec fn apply_op(op: Op, a: int, b: int) -> Option<int> {
    match op {
        Op::Plus => if in_i64(a + b) {
            Some(a + b)
        } else {
            None
        },
        Op::Minus => if in_i64(a - b) {
            Some(a - b)
        } else {
            None
        },
        Op::Star => if in_i64(a * b) {
            Some(a * b)
        } else {
            None
        },
        Op::Slash => if b == 0 {
            None
        } else if in_i64(trunc_div(a, b)) {
            Some(trunc_div(a, b))
        } else {
            None
        },
    }
}

/// The numeric value of an expression: defined for a number, undefined for a
/// free variable, and the folded value of both children for a binary node.
pub open spec fn nv_m(e: ExprModel) -> Option<int>
    decreases e,
{
    match e {
        ExprModel::Num { value } => Some(value),
        ExprModel::Var { .. } => None,
        ExprModel::Bin { op, left, right } => match (nv_m(*left), nv_m(*right)) {
            (Some(a), Some(b)) => apply_op(op, a, b),
            _ => None,
        },
    }
}

/// The character an operator renders as.
pub open spec fn op_char(op: Op) -> char {
    match op {
        Op::Plus => '+',
        Op::Minus => '-',
        Op::Star => '*',
        Op::Slash => '/',
    }
}

/// The flat textual form of an expression: every token followed by one
/// space, so the output feeds back through the tokenizer.
pub open spec fn render_m(e: ExprModel) -> Seq<char>
    decreases e,
{
    match e {
        ExprModel::Num { value } => dec_str(value).push(' '),
        ExprModel::Var { name } => name.push(' '),
        ExprModel::Bin { op, left, right } => render_m(*left).push(op_char(op)).push(' ').add(
            render_m(*right),
        ),
    }
}

impl Expr {
    /// Constancy test with respect to a variable. The variable does not
    /// matter to the answer; the parameter mirrors the capability dispatch,
    /// which asks every question with respect to the target variable.
    pub fn is_constant(&self, var: &str) -> (r: bool)
        ensures
            r == is_const_m(self@),
        decreases self,
    {
        match self {
            Expr::NumberLiteral { .. } => true,
            Expr::VariableLiteral { .. } => false,
            Expr::BinaryExpression { left, right, .. } => left.is_constant(var)
                && right.is_constant(var),
        }
    }

    /// True only for a variable literal carrying exactly the given name.
    pub fn is_same_variable(&self, var: &str) -> (r: bool)
        ensures
            r == is_same_var_m(self@, var@),
    {
        match self {
            Expr::VariableLiteral { name } => eq_str(name.as_str(), var),
            _ => false,
        }
    }

    /// True only for an addition node.
    pub fn is_sum(&self, _var: &str) -> (r: bool)
        ensures
            r == is_sum_m(self@),
    {
        match self {
            Expr::BinaryExpression { operator: Op::Plus, .. } => true,
            _ => false,
        }
    }

    /// True only for a multiplication node.
    pub fn is_product(&self, _var: &str) -> (r: bool)
        ensures
            r == is_product_m(self@),
    {
        match self {
            Expr::BinaryExpression { operator: Op::Star, .. } => true,
            _ => false,
        }
    }

    /// The left operand of a sum, shared with this node.
    pub fn augend(&self) -> (r: Rc<Expr>)
        requires
            self@ matches ExprModel::Bin { .. },
        ensures
            r@ == bin_left(self@),
    {
        match self {
            Expr::BinaryExpression { left, .. } => left.clone(),
            _ => {
                proof {
                    assert(false);
                }
                Rc::new(Expr::NumberLiteral { value: 0 })
            },
        }
    }

    /// The right operand of a sum, shared with this node.
    pub fn addend(&self) -> (r: Rc<Expr>)
        requires
            self@ matches ExprModel::Bin { .. },
        ensures
            r@ == bin_right(self@),
    {
        match self {
            Expr::BinaryExpression { right, .. } => right.clone(),
            _ => {
                proof {
                    assert(false);
                }
                Rc::new(Expr::NumberLiteral { value: 0 })
            },
        }
    }

    /// The left operand of a product, shared with this node.
    pub fn multiplicand(&self) -> (r: Rc<Expr>)
        requires
            self@ matches ExprModel::Bin { .. },
        ensures
            r@ == bin_left(self@),
    {
        self.augend()
    }

    /// The right operand of a product, shared with this node.
    pub fn multiplier(&self) -> (r: Rc<Expr>)
        requires
            self@ matches ExprModel::Bin { .. },
        ensures
            r@ == bin_right(self@),
    {
        self.addend()
    }

    /// Folds the expression to one number. Fails with `EvaluationError`
    /// exactly when the expression has no numeric value: a free variable
    /// somewhere inside it, a division by zero, or an intermediate result
    /// outside the machine's integer range.
    pub fn numeric_value(&self) -> (r: Result<i64, EngineError>)
        ensures
            nv_m(self@) matches Some(v) ==> r matches Ok(x) && x as int == v,
            nv_m(self@) is None ==> r == Err::<i64, EngineError>(EngineError::EvaluationError),
        decreases self,
    {
        match self {
            Expr::NumberLiteral { value } => Ok(*value),
            Expr::VariableLiteral { .. } => Err(EngineError::EvaluationError),
            Expr::BinaryExpression { operator, left, right } => {
                let a = match left.numeric_value() {
                    Ok(a) => a,
                    Err(e) => {
                        return Err(e);
                    },
                };
                let b = match right.numeric_value() {
                    Ok(b) => b,
                    Err(e) => {
                        return Err(e);
                    },
                };
                let folded = match operator {
                    Op::Plus => a.checked_add(b),
                    Op::Minus => a.checked_sub(b),
                    Op::Star => a.checked_mul(b),
                    Op::Slash => a.checked_div(b),
                };
                match folded {
                    Some(v) => Ok(v),
                    None => Err(EngineError::EvaluationError),
                }
            },
        }
    }

    /// Renders the expression in the flat token format, one trailing space
    /// per token.
    pub fn render(&self) -> (r: String)
        ensures
            r@ == render_m(self@),
        decreases self,
    {
        match self {
            Expr::NumberLiteral { value } => {
                let mut s = i64_to_string(*value);
                push_char(&mut s, ' ');
                s
            },
            Expr::VariableLiteral { name } => {
                let mut s = name.clone();
                push_char(&mut s, ' ');
                s
            },
            Expr::BinaryExpression { operator, left, right } => {
                let mut s = left.render();
                let c = match operator {
                    Op::Plus => '+',
                    Op::Minus => '-',
                    Op::Star => '*',
                    Op::Slash => '/',
                };
                push_char(&mut s, c);
                push_char(&mut s, ' ');
                let rhs = right.render();
                let out = s.concat(rhs.as_str());
                proof {
                    assert(out@ =~= render_m(self@));
                }
                out
            },
        }
    }
}

} // verus!
