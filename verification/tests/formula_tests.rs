//! Tests for the tokenizer, parser, simplifying constructors,
//! differentiator, renderer and the evaluation session.

use oddments::deriv::{differentiate, make_product, make_sum};
use oddments::engine::Vivi;
use oddments::expr::{EngineError, Expr, Op};
use oddments::parser::parse;
use oddments::text::{eq_str, i64_to_string, u64_to_string};
use oddments::tokens::{is_number, is_variable, tokenize, Token};
use std::rc::Rc;

fn num(v: i64) -> Rc<Expr> {
    Rc::new(Expr::NumberLiteral { value: v })
}

fn var(name: &str) -> Rc<Expr> {
    Rc::new(Expr::VariableLiteral { name: name.to_string() })
}

fn bin(op: Op, left: Rc<Expr>, right: Rc<Expr>) -> Rc<Expr> {
    Rc::new(Expr::BinaryExpression { operator: op, left, right })
}

#[test]
fn tokenize_classifies_fragments() {
    let toks = tokenize("x + 41 * zz / -");
    assert_eq!(toks.len(), 7);
    assert!(matches!(&toks[0], Token::Identifier { name } if name == "x"));
    assert!(matches!(&toks[1], Token::Operator { op: Op::Plus }));
    assert!(matches!(&toks[2], Token::Number { text } if text == "41"));
    assert!(matches!(&toks[3], Token::Operator { op: Op::Star }));
    assert!(matches!(&toks[4], Token::Identifier { name } if name == "zz"));
    assert!(matches!(&toks[5], Token::Operator { op: Op::Slash }));
    assert!(matches!(&toks[6], Token::Operator { op: Op::Minus }));
    assert_eq!(tokenize("   ").len(), 0);
    assert_eq!(tokenize("").len(), 0);
}

#[test]
fn parse_renders_back_token_for_token() {
    let e = parse("1 + a * 2").unwrap();
    assert_eq!(e.render(), "1 + a * 2 ");
    let e = parse("007 + x").unwrap();
    assert_eq!(e.render(), "7 + x ");
}

#[test]
fn parse_folds_strictly_left_to_right() {
    // a + b * c groups as (a + b) * c: differentiating by a gives c, not 1.
    let e = parse("a + b * c").unwrap();
    assert!(e.is_product("a"));
    let d = differentiate(&e, "b").unwrap();
    assert_eq!(d.render(), "c ");
}

#[test]
fn parse_rejects_the_empty_string() {
    assert!(matches!(parse(""), Err(EngineError::SyntaxError)));
    assert!(matches!(parse("   "), Err(EngineError::SyntaxError)));
}

#[test]
fn parse_rejects_trailing_operator_and_leading_operator() {
    assert!(matches!(parse("x +"), Err(EngineError::SyntaxError)));
    assert!(matches!(parse("+ x"), Err(EngineError::SyntaxError)));
    assert!(matches!(parse("x + * y"), Err(EngineError::SyntaxError)));
    assert!(matches!(
        parse("99999999999999999999"),
        Err(EngineError::SyntaxError)
    ));
}

#[test]
fn differentiate_constant_gives_zero() {
    let d = differentiate(&num(5), "x").unwrap();
    assert_eq!(d.render(), "0 ");
}

#[test]
fn differentiate_variables_give_one_or_zero() {
    let dx = differentiate(&var("x"), "x").unwrap();
    assert_eq!(dx.render(), "1 ");
    let dy = differentiate(&var("y"), "x").unwrap();
    assert_eq!(dy.render(), "0 ");
}

#[test]
fn differentiate_sum_folds_to_one() {
    let e = parse("x + 2").unwrap();
    let d = differentiate(&e, "x").unwrap();
    assert_eq!(d.render(), "1 ");
}

#[test]
fn differentiate_square_gives_x_plus_x() {
    let e = parse("x * x").unwrap();
    let d = differentiate(&e, "x").unwrap();
    assert_eq!(d.render(), "x + x ");
}

#[test]
fn make_sum_hands_back_the_shared_node() {
    let x = var("x");
    let r = make_sum(num(0), x.clone()).unwrap();
    assert!(Rc::ptr_eq(&r, &x));
    let l = make_sum(x.clone(), num(0)).unwrap();
    assert!(Rc::ptr_eq(&l, &x));
}

#[test]
fn make_product_identities() {
    let x = var("x");
    let r = make_product(num(1), x.clone()).unwrap();
    assert!(Rc::ptr_eq(&r, &x));
    let z = make_product(num(0), x.clone()).unwrap();
    assert_eq!(z.render(), "0 ");
    let folded = make_sum(num(2), num(3)).unwrap();
    assert_eq!(folded.render(), "5 ");
    let folded = make_product(num(2), num(3)).unwrap();
    assert_eq!(folded.render(), "6 ");
}

#[test]
fn differentiate_difference_is_unsupported() {
    let e = parse("x - 1").unwrap();
    assert!(matches!(
        differentiate(&e, "x"),
        Err(EngineError::DifferentiationError)
    ));
    let q = parse("x / 2").unwrap();
    assert!(matches!(
        differentiate(&q, "x"),
        Err(EngineError::DifferentiationError)
    ));
}

#[test]
fn numeric_value_folds_constants_and_rejects_variables() {
    let e = parse("8 / 2 - 1").unwrap();
    assert_eq!(e.numeric_value(), Ok(3));
    assert!(matches!(
        var("x").numeric_value(),
        Err(EngineError::EvaluationError)
    ));
    assert!(matches!(
        parse("1 / 0").unwrap().numeric_value(),
        Err(EngineError::EvaluationError)
    ));
}

#[test]
fn differentiate_reports_a_failed_constant_fold() {
    // x * (4 / 0): the product rule folds 4 / 0 against the derivative 1.
    let e = bin(Op::Star, var("x"), bin(Op::Slash, num(4), num(0)));
    assert!(matches!(
        differentiate(&e, "x"),
        Err(EngineError::EvaluationError)
    ));
}

#[test]
fn capability_operations_answer_each_question() {
    let e = parse("x + 2").unwrap();
    assert!(e.is_sum("x"));
    assert!(!e.is_product("x"));
    assert!(!e.is_constant("x"));
    assert!(!e.is_same_variable("x"));
    assert!(e.augend().is_same_variable("x"));
    assert!(e.addend().is_constant("x"));
    let p = parse("3 * 4").unwrap();
    assert!(p.is_product("x"));
    assert!(p.is_constant("x"));
    assert!(p.multiplicand().is_constant("x"));
    assert!(p.multiplier().is_constant("x"));
}

#[test]
fn engine_parses_differentiates_and_displays() {
    let mut v = Vivi::new(&"x + 2".to_string());
    let d = v.differentiate("x").unwrap();
    assert_eq!(d.render(), "1 ");

    let mut v = Vivi::new(&String::new());
    assert!(matches!(v.differentiate("x"), Err(EngineError::SyntaxError)));

    let mut v = Vivi::new(&String::new());
    v.parse_expr(&"x * x 3 + 1".to_string()).unwrap();
    assert_eq!(v.display(), "x * x 3 + 1 \n");
}

#[test]
fn engine_rejects_the_empty_query() {
    let mut v = Vivi::new(&String::new());
    assert!(matches!(v.eval(), Err(EngineError::SyntaxError)));

    let mut v = Vivi::new(&"x".to_string());
    assert!(matches!(
        v.parse_expr(&String::new()),
        Err(EngineError::SyntaxError)
    ));
    assert_eq!(v.display(), "\n");

    let mut v = Vivi::new(&"   ".to_string());
    assert!(matches!(v.eval(), Err(EngineError::SyntaxError)));
}

#[test]
fn engine_simplify_folds_each_expression() {
    let mut v = Vivi::new(&"1 + 2 8 / 4".to_string());
    let folded = v.simplify().unwrap();
    assert_eq!(folded, vec!["3 ".to_string(), "2 ".to_string()]);
    assert_eq!(v.display(), "1 + 2 8 / 4 \n");

    let mut v = Vivi::new(&"x + 2".to_string());
    assert!(matches!(v.simplify(), Err(EngineError::EvaluationError)));

    let mut v = Vivi::new(&String::new());
    assert!(matches!(v.simplify(), Err(EngineError::SyntaxError)));
}

#[test]
fn token_helpers_classify_text() {
    assert!(is_number(&"123".to_string()));
    assert!(!is_number(&"12x".to_string()));
    assert!(is_variable(&"abc".to_string()));
    // Any fragment that is neither all digits nor an operator symbol is a
    // variable name, punctuation and mixtures included.
    assert!(is_variable(&"a1".to_string()));
    assert!(is_variable(&"x!".to_string()));
    assert!(!is_variable(&"123".to_string()));
    assert!(!is_variable(&"+".to_string()));
    assert!(matches!(Op::from_string("+"), Op::Plus));
    assert!(matches!(Op::from_string("/"), Op::Slash));
}

#[test]
fn numbers_render_in_decimal() {
    assert_eq!(u64_to_string(0), "0");
    assert_eq!(u64_to_string(907), "907");
    assert_eq!(i64_to_string(-35), "-35");
    assert_eq!(i64_to_string(12), "12");
    assert!(eq_str("abc", "abc"));
    assert!(!eq_str("abc", "abd"));
}
