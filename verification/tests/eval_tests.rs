use icfpc2024::ast::{Expr, Thunk, ThunkEnum, Value};
use icfpc2024::errors::{Error, EvalError, ParseError, ValueTag};
use icfpc2024::eval_tokens;
use icfpc2024::token::decode_token_stream;

const FUEL: u64 = 1_000_000;

fn eval_wire(s: &str) -> Result<String, Error> {
    let tokens = decode_token_stream(s).unwrap();
    eval_tokens(&tokens, FUEL)
}

#[test]
fn scenario_unary_negation() {
    assert_eq!(eval_wire("U- I$").unwrap(), "-3");
}

#[test]
fn scenario_addition() {
    assert_eq!(eval_wire("B+ I# I$").unwrap(), "5");
}

#[test]
fn scenario_conditional() {
    assert_eq!(eval_wire("? B> I# I$ S9%3 S./").unwrap(), "no");
}

#[test]
fn scenario_hello_world_apply() {
    assert_eq!(
        eval_wire("B$ B$ L# L$ v# B. SB%,,/ S}Q/2,$_ IK").unwrap(),
        "Hello World!"
    );
}

#[test]
fn scenario_recursive_self_application() {
    let wire = "B$ B$ L\" B$ L# B$ v\" B$ v# v# L# B$ v\" B$ v# v# L\" L# ? B= v# I! I\" B$ L$ B+ B$ v\" v$ B$ v\" v$ B- v# I\" I%";
    assert_eq!(eval_wire(wire).unwrap(), "16");
}

#[test]
fn division_truncates_toward_zero() {
    assert_eq!(eval_wire("B/ U- I( I#").unwrap(), "-3");
    assert_eq!(eval_wire("B% U- I( I#").unwrap(), "-1");
}

#[test]
fn if_does_not_force_untaken_branch() {
    // The untaken branch applies `+` to booleans; forcing it would be a
    // type error, but the conditional never forces it.
    assert_eq!(eval_wire("? T S./ B+ T F").unwrap(), "no");
    assert_eq!(eval_wire("? F B+ T F S9%3").unwrap(), "yes");
}

#[test]
fn apply_is_call_by_name() {
    // The closure never references its argument; the argument would be a
    // type error if forced.
    assert_eq!(eval_wire("B$ L# T B+ T F").unwrap(), "true");
}

#[test]
fn thunk_memoizes_forced_value() {
    let tokens = decode_token_stream("B+ I# I$").unwrap();
    let expr = Expr::from_tokens(&tokens).unwrap();
    let mut thunk = Thunk(Box::new(ThunkEnum::Expr(expr)));
    let first = thunk.eval(FUEL).unwrap();
    assert_eq!(first.render(), "5");
    // The thunk now holds the computed value: a second force needs no
    // evaluation steps at all.
    let second = thunk.eval(0).unwrap();
    assert_eq!(second.render(), "5");
    assert_eq!(first, second);
}

#[test]
fn string_operators() {
    assert_eq!(eval_wire("B. S4% S34").unwrap(), "test");
    assert_eq!(eval_wire("BT I$ S4%34").unwrap(), "tes");
    assert_eq!(eval_wire("BD I$ S4%34").unwrap(), "t");
    assert_eq!(eval_wire("U# S4%34").unwrap(), "15818151");
    assert_eq!(eval_wire("U$ I4%34").unwrap(), "test");
}

#[test]
fn comparison_and_boolean_operators() {
    assert_eq!(eval_wire("B= I# I#").unwrap(), "true");
    assert_eq!(eval_wire("B= I# I$").unwrap(), "false");
    assert_eq!(eval_wire("B= S./ S./").unwrap(), "true");
    assert_eq!(eval_wire("B= T I!").unwrap(), "false");
    assert_eq!(eval_wire("B< I# I$").unwrap(), "true");
    assert_eq!(eval_wire("B> I# I$").unwrap(), "false");
    assert_eq!(eval_wire("B| T F").unwrap(), "true");
    assert_eq!(eval_wire("B& T F").unwrap(), "false");
    assert_eq!(eval_wire("U! T").unwrap(), "false");
}

#[test]
fn evaluation_errors() {
    assert_eq!(eval_wire("v!").unwrap_err(), Error::Eval(EvalError::UndefinedVariable));
    assert_eq!(eval_wire("B/ I$ I!").unwrap_err(), Error::Eval(EvalError::ArithmeticError));
    // Type errors name the expected tag and the offending value's tag.
    assert_eq!(
        eval_wire("B+ T F").unwrap_err(),
        Error::Eval(EvalError::TypeError(ValueTag::Integer, ValueTag::Boolean))
    );
    assert_eq!(
        eval_wire("? I# T F").unwrap_err(),
        Error::Eval(EvalError::TypeError(ValueTag::Boolean, ValueTag::Integer))
    );
    assert_eq!(
        eval_wire("B$ I# I$").unwrap_err(),
        Error::Eval(EvalError::TypeError(ValueTag::Closure, ValueTag::Integer))
    );
    assert_eq!(
        eval_wire("B. S./ I#").unwrap_err(),
        Error::Eval(EvalError::TypeError(ValueTag::String, ValueTag::Integer))
    );
    assert_eq!(
        eval_wire("U- T").unwrap_err(),
        Error::Eval(EvalError::TypeError(ValueTag::Integer, ValueTag::Boolean))
    );
    assert_eq!(eval_wire("BT U- I\" S./").unwrap_err(), Error::Eval(EvalError::RangeError));
}

#[test]
fn parse_errors() {
    let just_plus = decode_token_stream("B+").unwrap();
    assert_eq!(
        Expr::from_tokens(&just_plus).unwrap_err(),
        ParseError::MissingOperand
    );
    let empty: Vec<icfpc2024::token::Token> = Vec::new();
    assert_eq!(
        Expr::from_tokens(&empty).unwrap_err(),
        ParseError::TrailingOrEmptyExpr
    );
    let two_ints = decode_token_stream("I# I$").unwrap();
    assert_eq!(
        Expr::from_tokens(&two_ints).unwrap_err(),
        ParseError::TrailingOrEmptyExpr
    );
    let lonely_lambda = decode_token_stream("L#").unwrap();
    assert_eq!(
        Expr::from_tokens(&lonely_lambda).unwrap_err(),
        ParseError::MissingBody
    );
}

#[test]
fn substitution_shadows_inner_binder() {
    // (\x. (\x. x) ) applied twice: the inner binder shadows the outer one.
    assert_eq!(eval_wire("B$ B$ L# L# v# I! I\"").unwrap(), "1");
}

#[test]
fn out_of_fuel_is_reported() {
    // An infinite self-application can never finish within any bound.
    let tokens = decode_token_stream("B$ L# B$ v# v# L# B$ v# v#").unwrap();
    assert_eq!(
        eval_tokens(&tokens, 1000).unwrap_err(),
        Error::Eval(EvalError::OutOfFuel)
    );
}

#[test]
fn subst_replaces_free_variable() {
    let tokens = decode_token_stream("B+ v! I#").unwrap();
    let expr = Expr::from_tokens(&tokens).unwrap();
    let arg_tokens = decode_token_stream("I%").unwrap();
    let arg = Expr::from_tokens(&arg_tokens).unwrap();
    let target = Thunk(Box::new(ThunkEnum::Expr(arg)));
    let substituted = expr.subst(&num_bigint::BigInt::from(0u32), &target);
    let mut t = substituted;
    let v: Value = t.eval(FUEL).unwrap();
    assert_eq!(v.render(), "6");
}
