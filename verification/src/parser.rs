//! The parser: a single-pass, left-to-right consumer of the token sequence.
//! `primary` accepts one identifier or number token; `binary` folds
//! `primary (op primary)*` strictly left-to-right into nested binary nodes,
//! so every operator binds equally tightly and `a + b * c` groups as
//! `(a + b) * c`. The one rejection is a missing or unexpected token, which
//! is a `SyntaxError`.

use crate::expr::{EngineError, Expr, ExprModel};
use crate::text::chars_of;
use crate::tokens::{all_digits, lemma_toks_of_wf, token_views, toks_of, tokenize, wf_token, wf_tokens, Token, TokenModel};
use std::rc::Rc;
use vstd::prelude::*;

verus! {

/// The numeric value of a run of decimal digits.
pub open spec fn digits_val(w: Seq<char>) -> int
    decreases w.len(),
{
    if w.len() == 0 {
        0
    } else {
        digits_val(w.drop_last()) * 10 + (w.last() as int - 48)
    }
}

/// A run of digits has a non-negative value.
pub proof fn lemma_digits_val_nonneg(w: Seq<char>)
    requires
        all_digits(w),
    ensures
        digits_val(w) >= 0,
    decreases w.len(),
{
    if w.len() > 0 {
        assert(all_digits(w.drop_last()));
        lemma_digits_val_nonneg(w.drop_last());
    }
}

/// Every prefix of a run of digits has a value no larger than the whole.
pub proof fn lemma_digits_val_prefix(w: Seq<char>, k: int)
    requires
        all_digits(w),
        0 <= k <= w.len(),
    ensures
        digits_val(w.take(k)) <= digits_val(w),
    decreases w.len() - k,
{
    if k < w.len() {
        let u = w.take(k + 1);
        assert(all_digits(u));
        assert(u.drop_last() =~= w.take(k));
        lemma_digits_val_nonneg(u.drop_last());
        assert(digits_val(u) == digits_val(w.take(k)) * 10 + (u.last() as int - 48));
        assert(digits_val(w.take(k)) * 10 >= digits_val(w.take(k)));
        assert(u.last() as int - 48 >= 0);
        lemma_digits_val_prefix(w, k + 1);
    } else {
        assert(w.take(k) =~= w);
    }
}

/// One `primary` production at a position: an identifier makes a variable,
/// a number token its numeric value (a `SyntaxError` when the literal does
/// not fit the machine's integers), and anything else — an operator, or no
/// token left — is a `SyntaxError`.
pub open spec fn parse_primary_m(toks: Seq<TokenModel>, i: int) -> Result<ExprModel, EngineError> {
    if 0 <= i < toks.len() {
        match toks[i] {
            TokenModel::Ident { name } => Ok(ExprModel::Var { name }),
            TokenModel::Num { digits } => if digits_val(digits) <= i64::MAX {
                Ok(ExprModel::Num { value: digits_val(digits) })
            } else {
                Err(EngineError::SyntaxError)
            },
            TokenModel::OpTok { .. } => Err(EngineError::SyntaxError),
        }
    } else {
        Err(EngineError::SyntaxError)
    }
}

/// The left fold of `(op primary)*` onto an already-parsed left operand,
/// starting at position `i`. Stops, returning the folded expression and the
/// next position, at the first token that is not an operator.
pub open spec fn parse_ops_m(toks: Seq<TokenModel>, i: int, acc: ExprModel) -> Result<
    (ExprModel, int),
    EngineError,
>
    decreases toks.len() - i,
{
    if 0 <= i < toks.len() && (toks[i] matches TokenModel::OpTok { .. }) {
        let op = toks[i]->OpTok_op;
        match parse_primary_m(toks, i + 1) {
            Err(e) => Err(e),
            Ok(rhs) => parse_ops_m(
                toks,
                i + 2,
                ExprModel::Bin { op, left: Box::new(acc), right: Box::new(rhs) },
            ),
        }
    } else {
        Ok((acc, i))
    }
}

/// One `binary` production at a position: a `primary`, then the left fold
/// of any following `op primary` pairs.
pub open spec fn parse_binary_m(toks: Seq<TokenModel>, i: int) -> Result<
    (ExprModel, int),
    EngineError,
> {
    match parse_primary_m(toks, i) {
        Err(e) => Err(e),
        Ok(first) => parse_ops_m(toks, i + 1, first),
    }
}

/// The fold never moves backwards nor past the end of the tokens.
pub proof fn lemma_parse_ops_bounds(toks: Seq<TokenModel>, i: int, acc: ExprModel)
    requires
        0 <= i <= toks.len(),
    ensures
        parse_ops_m(toks, i, acc) matches Ok(r) ==> i <= r.1 <= toks.len(),
    decreases toks.len() - i,
{
    if 0 <= i < toks.len() && (toks[i] matches TokenModel::OpTok { .. }) {
        let op = toks[i]->OpTok_op;
        match parse_primary_m(toks, i + 1) {
            Err(_) => {},
            Ok(rhs) => {
                lemma_parse_ops_bounds(
                    toks,
                    i + 2,
                    ExprModel::Bin { op, left: Box::new(acc), right: Box::new(rhs) },
                );
            },
        }
    }
}

/// The whole-text parse: tokenize, then one `binary` production from the
/// front. Tokens after the first full expression are left for the caller.
pub open spec fn parse_formula_m(s: Seq<char>) -> Result<ExprModel, EngineError> {
    match parse_binary_m(toks_of(s), 0) {
        Ok(r) => Ok(r.0),
        Err(e) => Err(e),
    }
}

/// Reads the value of a digit fragment, or reports a `SyntaxError` when it
/// does not fit the machine's integers.
fn parse_digits(text: &str) -> (r: Result<i64, EngineError>)
    requires
        all_digits(text@),
        text@.len() > 0,
    ensures
        digits_val(text@) <= i64::MAX ==> (r matches Ok(x) && x as int == digits_val(text@)),
        digits_val(text@) > i64::MAX ==> r == Err::<i64, EngineError>(EngineError::SyntaxError),
{
    let w = chars_of(text);
    let mut acc: i64 = 0;
    let mut i: usize = 0;
    proof {
        assert(w@.take(0) =~= Seq::<char>::empty());
    }
    while i < w.len()
        invariant
            w@ == text@,
            all_digits(text@),
            i <= w@.len(),
            acc as int == digits_val(w@.take(i as int)),
            acc >= 0,
        decreases w@.len() - i,
    {
        let c = w[i];
        let d: i64 = (c as u32 as i64) - 48;
        proof {
            assert(is_digit_char_at(w@, i as int));
            assert(w@.take(i + 1).drop_last() =~= w@.take(i as int));
            assert(w@.take(i + 1).last() == w@[i as int]);
        }
        let step = match acc.checked_mul(10) {
            Some(t) => t.checked_add(d),
            None => None,
        };
        match step {
            Some(v) => {
                acc = v;
            },
            None => {
                proof {
                    lemma_digits_val_prefix(w@, i + 1);
                    assert(digits_val(w@.take(i + 1)) > i64::MAX);
                }
                return Err(EngineError::SyntaxError);
            },
        }
        i = i + 1;
    }
    proof {
        assert(w@.take(w@.len() as int) =~= w@);
    }
    Ok(acc)
}

/// A digit character sits between `'0'` and `'9'`.
spec fn is_digit_char_at(w: Seq<char>, i: int) -> bool {
    0 <= i < w.len() && '0' <= w[i] <= '9'
}

/// Whether the token at a position exists and is an operator.
fn at_operator(toks: &Vec<Token>, pos: usize) -> (r: bool)
    ensures
        r == (pos < toks@.len() && (token_views(toks@)[pos as int] matches TokenModel::OpTok {
            ..
        })),
{
    if pos < toks.len() {
        match &toks[pos] {
            Token::Operator { .. } => true,
            _ => false,
        }
    } else {
        false
    }
}

/// One `primary` production over the token vector. On success the cursor
/// moves past the consumed token; on failure it stays.
pub fn parse_primary(toks: &Vec<Token>, pos: &mut usize) -> (r: Result<Rc<Expr>, EngineError>)
    requires
        wf_tokens(token_views(toks@)),
    ensures
        r matches Ok(e) ==> parse_primary_m(token_views(toks@), *old(pos) as int)
            == Ok::<ExprModel, EngineError>(e@) && *final(pos) == *old(pos) + 1,
        r matches Err(er) ==> parse_primary_m(token_views(toks@), *old(pos) as int) == Err::<
            ExprModel,
            EngineError,
        >(er) && *final(pos) == *old(pos),
{
    if *pos >= toks.len() {
        return Err(EngineError::SyntaxError);
    }
    match &toks[*pos] {
        Token::Identifier { name } => {
            let e = Rc::new(Expr::VariableLiteral { name: name.clone() });
            *pos = *pos + 1;
            Ok(e)
        },
        Token::Number { text } => {
            proof {
                assert(wf_token(token_views(toks@)[*old(pos) as int]));
            }
            match parse_digits(text.as_str()) {
                Ok(v) => {
                    let e = Rc::new(Expr::NumberLiteral { value: v });
                    *pos = *pos + 1;
                    Ok(e)
                },
                Err(er) => Err(er),
            }
        },
        Token::Operator { .. } => Err(EngineError::SyntaxError),
    }
}

/// One `binary` production over the token vector: a `primary`, then a left
/// fold of `op primary` pairs while operators follow.
#[verifier::loop_isolation(false)]
pub fn parse_binary(toks: &Vec<Token>, pos: &mut usize) -> (r: Result<Rc<Expr>, EngineError>)
    requires
        wf_tokens(token_views(toks@)),
    ensures
        r matches Ok(e) ==> parse_binary_m(token_views(toks@), *old(pos) as int) == Ok::<
            (ExprModel, int),
            EngineError,
        >((e@, *final(pos) as int)),
        r matches Err(er) ==> parse_binary_m(token_views(toks@), *old(pos) as int) == Err::<
            (ExprModel, int),
            EngineError,
        >(er),
{
    let ghost tv = token_views(toks@);
    let ghost start = *pos as int;
    let mut p: usize = *pos;
    let mut lhs = match parse_primary(toks, &mut p) {
        Ok(e) => e,
        Err(er) => {
            *pos = p;
            return Err(er);
        },
    };
    while at_operator(toks, p)
        invariant
            tv == token_views(toks@),
            wf_tokens(tv),
            p <= toks@.len(),
            parse_ops_m(tv, p as int, lhs@) == parse_binary_m(tv, start),
        decreases toks@.len() - p,
    {
        let n: usize = toks.len();
        let ghost p0 = p as int;
        let op = match &toks[p] {
            Token::Operator { op } => *op,
            _ => {
                proof {
                    assert(false);
                }
                crate::expr::Op::Plus
            },
        };
        p = p + 1;
        let rhs = match parse_primary(toks, &mut p) {
            Ok(e) => e,
            Err(er) => {
                proof {
                    assert(parse_primary_m(tv, p0 + 1) == Err::<ExprModel, EngineError>(er));
                    assert(parse_ops_m(tv, p0, lhs@) == Err::<(ExprModel, int), EngineError>(er));
                }
                return Err(er);
            },
        };
        lhs = Rc::new(Expr::BinaryExpression { operator: op, left: lhs, right: rhs });
    }
    *pos = p;
    Ok(lhs)
}

/// Parses a formula text into one expression tree: tokenize, then one
/// `binary` production from the front.
pub fn parse(s: &str) -> (r: Result<Rc<Expr>, EngineError>)
    ensures
        r matches Ok(e) ==> parse_formula_m(s@) == Ok::<ExprModel, EngineError>(e@),
        r matches Err(er) ==> parse_formula_m(s@) == Err::<ExprModel, EngineError>(er),
{
    let toks = tokenize(s);
    proof {
        lemma_toks_of_wf(s@);
    }
    let mut pos: usize = 0;
    match parse_binary(&toks, &mut pos) {
        Ok(e) => Ok(e),
        Err(er) => Err(er),
    }
}

} // verus!
