//! Abstract syntax, values, thunks, and the lazy evaluator.
//!
//! Expressions are built from a token stream by a stack machine and
//! evaluated under call-by-name semantics: an argument is substituted into a
//! closure body unevaluated, and is only forced where it is referenced.  A
//! [`Thunk`] is the unit of suspension; forcing one through [`Thunk::eval`]
//! overwrites it in place with the computed value, so a second force
//! returns the cached value at once.
//!
//! The mathematical model collapses a thunk to the expression it suspends
//! (a computed value counts as a literal), and [`spec_eval`] gives the
//! semantics as a function of an expression and a step bound ("fuel"): the
//! bound is spent only at closure application, so a program that diverges
//! evaluates to [`EvalError::OutOfFuel`] for every bound.

use vstd::prelude::*;

use crate::bignum::{
    big_add, big_clone, big_eq, big_from_u64, big_lt, big_mul, big_neg, big_sub, big_value,
};
use crate::errors::{EvalError, ParseError, ValueTag};
use crate::token::{BinaryOp, Token, TokenModel, UnaryOp};

verus! {

/// The model of an expression; also the model of a thunk, a computed value
/// counting as a literal.
pub enum ExprModel {
    Literal(ValueModel),
    UnaryOp(UnaryOp, Box<ExprModel>),
    BinaryOp(BinaryOp, Box<ExprModel>, Box<ExprModel>),
    If(Box<ExprModel>, Box<ExprModel>, Box<ExprModel>),
    Lambda(int, Box<ExprModel>),
    Var(int),
}

/// The model of a value.
pub enum ValueModel {
    Boolean(bool),
    Integer(int),
    String(Seq<char>),
    Closure(int, Box<ExprModel>),
}

/// A suspended expression or an already-computed value.
#[derive(Debug)]
pub enum ThunkEnum {
    Expr(Expr),
    Value(Value),
}

/// The unit of suspension and memoization.  Forcing it (see [`Thunk::eval`])
/// overwrites it in place with its value, so re-forcing the same cell costs
/// nothing.  Each expression edge owns its own cell: substitution copies
/// the argument thunk into every occurrence, so the copies are forced
/// independently — an argument referenced several times is evaluated once
/// per copy, not once in all, as a shared mutable cell would allow.
#[derive(Debug)]
pub struct Thunk(pub Box<ThunkEnum>);

/// An expression tree.  Children are thunks, as closure application moves
/// subtrees into suspensions unevaluated.
#[derive(Debug)]
pub enum Expr {
    Literal(Value),
    UnaryOp(UnaryOp, Thunk),
    BinaryOp(BinaryOp, Thunk, Thunk),
    If(Thunk, Thunk, Thunk),
    Lambda(num_bigint::BigInt, Thunk),
    Var(num_bigint::BigInt),
}

/// A computed value: a scalar, a string, or a closure awaiting its
/// argument.
#[derive(Debug)]
pub enum Value {
    Boolean(bool),
    Integer(num_bigint::BigInt),
    String(String),
    Closure(num_bigint::BigInt, Thunk),
}

/// The model of an expression tree.
pub open spec fn expr_model(e: Expr) -> ExprModel
    decreases e,
{
    match e {
        Expr::Literal(v) => ExprModel::Literal(value_model(v)),
        Expr::UnaryOp(op, t) => ExprModel::UnaryOp(op, Box::new(thunk_model(t))),
        Expr::BinaryOp(op, l, r) => ExprModel::BinaryOp(
            op,
            Box::new(thunk_model(l)),
            Box::new(thunk_model(r)),
        ),
        Expr::If(c, t, f) => ExprModel::If(
            Box::new(thunk_model(c)),
            Box::new(thunk_model(t)),
            Box::new(thunk_model(f)),
        ),
        Expr::Lambda(x, body) => ExprModel::Lambda(big_value(x), Box::new(thunk_model(body))),
        Expr::Var(x) => ExprModel::Var(big_value(x)),
    }
}

/// The model of a value.
pub open spec fn value_model(v: Value) -> ValueModel
    decreases v,
{
    match v {
        Value::Boolean(b) => ValueModel::Boolean(b),
        Value::Integer(n) => ValueModel::Integer(big_value(n)),
        Value::String(s) => ValueModel::String(s@),
        Value::Closure(x, body) => ValueModel::Closure(big_value(x), Box::new(thunk_model(body))),
    }
}

/// The model of a thunk: the expression it suspends, a computed value
/// counting as a literal.
pub open spec fn thunk_model(t: Thunk) -> ExprModel
    decreases t,
{
    match *t.0 {
        ThunkEnum::Expr(e) => expr_model(e),
        ThunkEnum::Value(v) => ExprModel::Literal(value_model(v)),
    }
}

impl View for Expr {
    type V = ExprModel;

    open spec fn view(&self) -> ExprModel {
        expr_model(*self)
    }
}

impl View for Value {
    type V = ValueModel;

    open spec fn view(&self) -> ValueModel {
        value_model(*self)
    }
}

impl View for Thunk {
    type V = ExprModel;

    open spec fn view(&self) -> ExprModel {
        thunk_model(*self)
    }
}

/// The node count of a model expression; the termination measure of the
/// evaluator within one fuel level.
pub open spec fn esize(e: ExprModel) -> nat
    decreases e,
{
    match e {
        ExprModel::Literal(v) => 1 + vsize(v),
        ExprModel::UnaryOp(_, a) => 1 + esize(*a),
        ExprModel::BinaryOp(_, l, r) => 1 + esize(*l) + esize(*r),
        ExprModel::If(c, t, f) => 1 + esize(*c) + esize(*t) + esize(*f),
        ExprModel::Lambda(_, b) => 1 + esize(*b),
        ExprModel::Var(_) => 1,
    }
}

/// The node count of a model value.
pub open spec fn vsize(v: ValueModel) -> nat
    decreases v,
{
    match v {
        ValueModel::Closure(_, b) => 1 + esize(*b),
        _ => 1,
    }
}

/// The tag of a value, as diagnostics report it.
pub open spec fn tag_of(v: ValueModel) -> ValueTag {
    match v {
        ValueModel::Boolean(_) => ValueTag::Boolean,
        ValueModel::Integer(_) => ValueTag::Integer,
        ValueModel::String(_) => ValueTag::String,
        ValueModel::Closure(_, _) => ValueTag::Closure,
    }
}

/// The tag of a value.
fn value_tag(v: &Value) -> (r: ValueTag)
    ensures
        r == tag_of(v@),
{
    match v {
        Value::Boolean(_) => ValueTag::Boolean,
        Value::Integer(_) => ValueTag::Integer,
        Value::String(_) => ValueTag::String,
        Value::Closure(_, _) => ValueTag::Closure,
    }
}

/// The result of a unary operator on a forced value.
pub open spec fn spec_apply_unary(op: UnaryOp, v: ValueModel) -> Result<ValueModel, EvalError> {
    match op {
        UnaryOp::Neg => match v {
            ValueModel::Integer(n) => Ok(ValueModel::Integer(-n)),
            _ => Err(EvalError::TypeError(ValueTag::Integer, tag_of(v))),
        },
        UnaryOp::Not => match v {
            ValueModel::Boolean(b) => Ok(ValueModel::Boolean(!b)),
            _ => Err(EvalError::TypeError(ValueTag::Boolean, tag_of(v))),
        },
        UnaryOp::ToInt => match v {
            ValueModel::String(s) => if crate::token::strings::all_in_alphabet(s) {
                Ok(
                    ValueModel::Integer(
                        crate::token::integers::base94_val(
                            crate::token::strings::encoded94(s),
                        ),
                    ),
                )
            } else {
                Err(EvalError::DecodeError)
            },
            _ => Err(EvalError::TypeError(ValueTag::String, tag_of(v))),
        },
        UnaryOp::ToString => match v {
            ValueModel::Integer(n) => if n >= 0 {
                Ok(
                    ValueModel::String(
                        crate::token::strings::decoded94(
                            crate::token::integers::enc94(n as nat),
                        ),
                    ),
                )
            } else {
                Err(EvalError::DecodeError)
            },
            _ => Err(EvalError::TypeError(ValueTag::Integer, tag_of(v))),
        },
    }
}

/// The tag of the first operand that is not an integer (the right one when
/// the left conforms).
pub open spec fn int_offender(a: ValueModel, b: ValueModel) -> ValueTag {
    if !(a is Integer) {
        tag_of(a)
    } else {
        tag_of(b)
    }
}

/// The tag of the first operand that is not a boolean.
pub open spec fn bool_offender(a: ValueModel, b: ValueModel) -> ValueTag {
    if !(a is Boolean) {
        tag_of(a)
    } else {
        tag_of(b)
    }
}

/// The result of a binary operator (closure application aside) on two
/// forced values.
pub open spec fn spec_apply_binop(op: BinaryOp, a: ValueModel, b: ValueModel) -> Result<
    ValueModel,
    EvalError,
> {
    match op {
        BinaryOp::Add => match (a, b) {
            (ValueModel::Integer(x), ValueModel::Integer(y)) => Ok(ValueModel::Integer(x + y)),
            _ => Err(EvalError::TypeError(ValueTag::Integer, int_offender(a, b))),
        },
        BinaryOp::Sub => match (a, b) {
            (ValueModel::Integer(x), ValueModel::Integer(y)) => Ok(ValueModel::Integer(x - y)),
            _ => Err(EvalError::TypeError(ValueTag::Integer, int_offender(a, b))),
        },
        BinaryOp::Mul => match (a, b) {
            (ValueModel::Integer(x), ValueModel::Integer(y)) => Ok(ValueModel::Integer(x * y)),
            _ => Err(EvalError::TypeError(ValueTag::Integer, int_offender(a, b))),
        },
        BinaryOp::Div => match (a, b) {
            (ValueModel::Integer(x), ValueModel::Integer(y)) => if y == 0 {
                Err(EvalError::ArithmeticError)
            } else {
                Ok(ValueModel::Integer(crate::bignum::trunc_div(x, y)))
            },
            _ => Err(EvalError::TypeError(ValueTag::Integer, int_offender(a, b))),
        },
        BinaryOp::Mod => match (a, b) {
            (ValueModel::Integer(x), ValueModel::Integer(y)) => if y == 0 {
                Err(EvalError::ArithmeticError)
            } else {
                Ok(ValueModel::Integer(crate::bignum::trunc_rem(x, y)))
            },
            _ => Err(EvalError::TypeError(ValueTag::Integer, int_offender(a, b))),
        },
        BinaryOp::Less => match (a, b) {
            (ValueModel::Integer(x), ValueModel::Integer(y)) => Ok(ValueModel::Boolean(x < y)),
            _ => Err(EvalError::TypeError(ValueTag::Integer, int_offender(a, b))),
        },
        BinaryOp::Greater => match (a, b) {
            (ValueModel::Integer(x), ValueModel::Integer(y)) => Ok(ValueModel::Boolean(x > y)),
            _ => Err(EvalError::TypeError(ValueTag::Integer, int_offender(a, b))),
        },
        BinaryOp::Equal => Ok(ValueModel::Boolean(a == b)),
        BinaryOp::Or => match (a, b) {
            (ValueModel::Boolean(x), ValueModel::Boolean(y)) => Ok(ValueModel::Boolean(x || y)),
            _ => Err(EvalError::TypeError(ValueTag::Boolean, bool_offender(a, b))),
        },
        BinaryOp::And => match (a, b) {
            (ValueModel::Boolean(x), ValueModel::Boolean(y)) => Ok(ValueModel::Boolean(x && y)),
            _ => Err(EvalError::TypeError(ValueTag::Boolean, bool_offender(a, b))),
        },
        BinaryOp::Concat => match (a, b) {
            (ValueModel::String(x), ValueModel::String(y)) => Ok(ValueModel::String(x + y)),
            _ => Err(EvalError::TypeError(ValueTag::String, if !(a is String) {
                tag_of(a)
            } else {
                tag_of(b)
            })),
        },
        BinaryOp::Take => match (a, b) {
            (ValueModel::Integer(n), ValueModel::String(s)) => if n < 0 || n > usize::MAX as int {
                Err(EvalError::RangeError)
            } else {
                Ok(
                    ValueModel::String(
                        s.take(if n <= s.len() as int { n } else { s.len() as int }),
                    ),
                )
            },
            _ => Err(EvalError::TypeError(if !(a is Integer) {
                ValueTag::Integer
            } else {
                ValueTag::String
            }, if !(a is Integer) {
                tag_of(a)
            } else {
                tag_of(b)
            })),
        },
        BinaryOp::Drop => match (a, b) {
            (ValueModel::Integer(n), ValueModel::String(s)) => if n < 0 || n > usize::MAX as int {
                Err(EvalError::RangeError)
            } else {
                Ok(
                    ValueModel::String(
                        s.skip(if n <= s.len() as int { n } else { s.len() as int }),
                    ),
                )
            },
            _ => Err(EvalError::TypeError(if !(a is Integer) {
                ValueTag::Integer
            } else {
                ValueTag::String
            }, if !(a is Integer) {
                tag_of(a)
            } else {
                tag_of(b)
            })),
        },
        BinaryOp::Apply => Err(EvalError::TypeError(ValueTag::Closure, tag_of(a))),
    }
}

/// The smaller of two integers.
pub open spec fn min2(a: int, b: int) -> int {
    if a <= b {
        a
    } else {
        b
    }
}

/// A lower bound on every identifier occurring in `e` outside literals
/// (zero when there is none), used to pick fresh binders.
pub open spec fn min_id(e: ExprModel) -> int
    decreases e,
{
    match e {
        ExprModel::Literal(_) => 0,
        ExprModel::UnaryOp(_, a) => min_id(*a),
        ExprModel::BinaryOp(_, l, r) => min2(min_id(*l), min_id(*r)),
        ExprModel::If(c, a, b) => min2(min_id(*c), min2(min_id(*a), min_id(*b))),
        ExprModel::Lambda(y, b) => min2(y, min_id(*b)),
        ExprModel::Var(y) => y,
    }
}

/// A fresh binder for renaming: strictly below zero, below the binder it
/// replaces, below the substituted variable, and below every identifier of
/// the body and the target — so it collides with nothing in sight.
pub open spec fn fresh_id(v: int, body: ExprModel, t: ExprModel, x: int) -> int {
    min2(min2(v, min_id(body)), min2(min_id(t), min2(x, 0))) - 1
}

/// Renames the free occurrences of variable `v` to variable `y`; binders
/// shadow as usual, and literals are untouched.
pub open spec fn rename_free(e: ExprModel, v: int, y: int) -> ExprModel
    decreases e,
{
    match e {
        ExprModel::Literal(_) => e,
        ExprModel::UnaryOp(op, a) => ExprModel::UnaryOp(op, Box::new(rename_free(*a, v, y))),
        ExprModel::BinaryOp(op, l, r) => ExprModel::BinaryOp(
            op,
            Box::new(rename_free(*l, v, y)),
            Box::new(rename_free(*r, v, y)),
        ),
        ExprModel::If(c, a, b) => ExprModel::If(
            Box::new(rename_free(*c, v, y)),
            Box::new(rename_free(*a, v, y)),
            Box::new(rename_free(*b, v, y)),
        ),
        ExprModel::Lambda(w, b) => if w == v {
            e
        } else {
            ExprModel::Lambda(w, Box::new(rename_free(*b, v, y)))
        },
        ExprModel::Var(w) => if w == v {
            ExprModel::Var(y)
        } else {
            e
        },
    }
}

/// Capture-avoiding substitution of `t` for the free occurrences of
/// variable `x`.  A subtree without a free `x` is returned unchanged
/// (literals in particular); a binder equal to `x` shadows it; and a binder
/// whose variable occurs free in `t` is alpha-renamed to a fresh negative
/// identifier first, so no free variable of `t` is ever captured
/// ([`lemma_subst_no_capture`] proves it for every target).
pub open spec fn spec_subst(e: ExprModel, x: int, t: ExprModel) -> ExprModel
    decreases esize(e),
{
    if !free_in(x, e) {
        e
    } else {
        match e {
            ExprModel::Literal(_) => e,
            ExprModel::UnaryOp(op, a) => ExprModel::UnaryOp(op, Box::new(spec_subst(*a, x, t))),
            ExprModel::BinaryOp(op, l, r) => ExprModel::BinaryOp(
                op,
                Box::new(spec_subst(*l, x, t)),
                Box::new(spec_subst(*r, x, t)),
            ),
            ExprModel::If(c, a, b) => ExprModel::If(
                Box::new(spec_subst(*c, x, t)),
                Box::new(spec_subst(*a, x, t)),
                Box::new(spec_subst(*b, x, t)),
            ),
            ExprModel::Lambda(v, body) => if v == x {
                e
            } else if free_in(v, t) {
                proof {
                    lemma_rename_size(*body, v, fresh_id(v, *body, t, x));
                }
                ExprModel::Lambda(
                    fresh_id(v, *body, t, x),
                    Box::new(spec_subst(rename_free(*body, v, fresh_id(v, *body, t, x)), x, t)),
                )
            } else {
                ExprModel::Lambda(v, Box::new(spec_subst(*body, x, t)))
            },
            ExprModel::Var(v) => if v == x {
                t
            } else {
                e
            },
        }
    }
}

/// The meaning of an expression, under a bound on the number of closure
/// applications ("fuel").  Fuel is spent only at `Apply`, so the bound does
/// not limit the depth of ordinary operators; a program that needs more
/// applications than the bound evaluates to [`EvalError::OutOfFuel`].
pub open spec fn spec_eval(e: ExprModel, fuel: nat) -> Result<ValueModel, EvalError>
    decreases fuel, esize(e), 0int,
{
    match e {
        ExprModel::Literal(v) => Ok(v),
        ExprModel::Var(_) => Err(EvalError::UndefinedVariable),
        ExprModel::Lambda(x, b) => Ok(ValueModel::Closure(x, b)),
        ExprModel::UnaryOp(op, a) => spec_eval_unary(op, *a, fuel),
        ExprModel::If(c, t, f) => match spec_eval(*c, fuel) {
            Ok(ValueModel::Boolean(true)) => spec_eval(*t, fuel),
            Ok(ValueModel::Boolean(false)) => spec_eval(*f, fuel),
            Ok(v) => Err(EvalError::TypeError(ValueTag::Boolean, tag_of(v))),
            Err(er) => Err(er),
        },
        ExprModel::BinaryOp(op, l, r) => spec_eval_binop(op, *l, *r, fuel),
    }
}

/// The meaning of a unary operator applied to a suspended operand: force
/// the operand, then apply the operator.
pub open spec fn spec_eval_unary(op: UnaryOp, a: ExprModel, fuel: nat) -> Result<
    ValueModel,
    EvalError,
>
    decreases fuel, esize(a), 1int,
{
    match spec_eval(a, fuel) {
        Ok(v) => spec_apply_unary(op, v),
        Err(er) => Err(er),
    }
}

/// An expression has at least one node.
pub proof fn lemma_esize_pos(e: ExprModel)
    ensures
        esize(e) >= 1,
{
    match e {
        ExprModel::Literal(_) => {},
        ExprModel::UnaryOp(_, _) => {},
        ExprModel::BinaryOp(_, _, _) => {},
        ExprModel::If(_, _, _) => {},
        ExprModel::Lambda(_, _) => {},
        ExprModel::Var(_) => {},
    }
}

/// The meaning of a binary operator on two suspended operands.  `Apply`
/// forces only its left operand and substitutes the right one unevaluated
/// (call-by-name), spending one unit of fuel; every other operator forces
/// both operands, left first.
pub open spec fn spec_eval_binop(op: BinaryOp, l: ExprModel, r: ExprModel, fuel: nat) -> Result<
    ValueModel,
    EvalError,
>
    decreases fuel, esize(l) + esize(r), 1int,
{
    proof {
        lemma_esize_pos(l);
        lemma_esize_pos(r);
    }
    if op == BinaryOp::Apply {
        match spec_eval(l, fuel) {
            Ok(ValueModel::Closure(x, body)) => if fuel == 0 {
                Err(EvalError::OutOfFuel)
            } else {
                spec_eval(spec_subst(*body, x, r), (fuel - 1) as nat)
            },
            Ok(v) => Err(EvalError::TypeError(ValueTag::Closure, tag_of(v))),
            Err(er) => Err(er),
        }
    } else {
        match spec_eval(l, fuel) {
            Ok(a) => match spec_eval(r, fuel) {
                Ok(b) => spec_apply_binop(op, a, b),
                Err(er) => Err(er),
            },
            Err(er) => Err(er),
        }
    }
}

impl Clone for Value {
    /// The copy has the same model.
    fn clone(&self) -> (r: Self)
        ensures
            r@ == self@,
        decreases self,
    {
        match self {
            Value::Boolean(b) => Value::Boolean(*b),
            Value::Integer(n) => Value::Integer(big_clone(n)),
            Value::String(s) => Value::String(s.clone()),
            Value::Closure(x, body) => Value::Closure(big_clone(x), body.clone()),
        }
    }
}

impl Clone for Thunk {
    /// The copy has the same model.
    fn clone(&self) -> (r: Self)
        ensures
            r@ == self@,
        decreases self,
    {
        match &*self.0 {
            ThunkEnum::Expr(e) => Thunk(Box::new(ThunkEnum::Expr(e.clone()))),
            ThunkEnum::Value(v) => Thunk(Box::new(ThunkEnum::Value(v.clone()))),
        }
    }
}

impl Clone for Expr {
    /// The copy has the same model.
    fn clone(&self) -> (r: Self)
        ensures
            r@ == self@,
        decreases self,
    {
        match self {
            Expr::Literal(v) => Expr::Literal(v.clone()),
            Expr::UnaryOp(op, t) => Expr::UnaryOp(*op, t.clone()),
            Expr::BinaryOp(op, l, r) => Expr::BinaryOp(*op, l.clone(), r.clone()),
            Expr::If(c, t, f) => Expr::If(c.clone(), t.clone(), f.clone()),
            Expr::Lambda(x, b) => Expr::Lambda(big_clone(x), b.clone()),
            Expr::Var(x) => Expr::Var(big_clone(x)),
        }
    }
}

/// True when variable `v` occurs free in the thunk's expression.
fn thunk_has_free(t: &Thunk, v: &num_bigint::BigInt) -> (r: bool)
    ensures
        r == free_in(big_value(*v), t@),
    decreases t,
{
    match &*t.0 {
        ThunkEnum::Expr(e) => expr_has_free(e, v),
        ThunkEnum::Value(_) => false,
    }
}

/// True when variable `v` occurs free in the expression.
fn expr_has_free(e: &Expr, v: &num_bigint::BigInt) -> (r: bool)
    ensures
        r == free_in(big_value(*v), e@),
    decreases e,
{
    match e {
        Expr::Literal(_) => false,
        Expr::UnaryOp(_, a) => thunk_has_free(a, v),
        Expr::BinaryOp(_, l, r2) => thunk_has_free(l, v) || thunk_has_free(r2, v),
        Expr::If(c, t, f) => thunk_has_free(c, v) || thunk_has_free(t, v) || thunk_has_free(f, v),
        Expr::Lambda(w, b) => !big_eq(w, v) && thunk_has_free(b, v),
        Expr::Var(w) => big_eq(w, v),
    }
}

/// The smaller of two values.
fn big_min(a: num_bigint::BigInt, b: num_bigint::BigInt) -> (r: num_bigint::BigInt)
    ensures
        big_value(r) == min2(big_value(a), big_value(b)),
{
    if big_lt(&b, &a) {
        b
    } else {
        a
    }
}

/// A lower bound on every identifier occurring in the thunk (see
/// [`min_id`]).
fn min_id_thunk(t: &Thunk) -> (r: num_bigint::BigInt)
    ensures
        big_value(r) == min_id(t@),
    decreases t,
{
    match &*t.0 {
        ThunkEnum::Expr(e) => min_id_expr(e),
        ThunkEnum::Value(_) => big_from_u64(0),
    }
}

/// A lower bound on every identifier occurring in the expression (see
/// [`min_id`]).
fn min_id_expr(e: &Expr) -> (r: num_bigint::BigInt)
    ensures
        big_value(r) == min_id(e@),
    decreases e,
{
    match e {
        Expr::Literal(_) => big_from_u64(0),
        Expr::UnaryOp(_, a) => min_id_thunk(a),
        Expr::BinaryOp(_, l, r2) => big_min(min_id_thunk(l), min_id_thunk(r2)),
        Expr::If(c, t, f) => big_min(min_id_thunk(c), big_min(min_id_thunk(t), min_id_thunk(f))),
        Expr::Lambda(w, b) => big_min(big_clone(w), min_id_thunk(b)),
        Expr::Var(w) => big_clone(w),
    }
}

/// Renames the free occurrences of variable `v` to `y` in a thunk.
fn rename_thunk(t: &Thunk, v: &num_bigint::BigInt, y: &num_bigint::BigInt) -> (r: Thunk)
    ensures
        r@ == rename_free(t@, big_value(*v), big_value(*y)),
    decreases t,
{
    match &*t.0 {
        ThunkEnum::Expr(e) => Thunk(Box::new(ThunkEnum::Expr(rename_expr(e, v, y)))),
        ThunkEnum::Value(val) => Thunk(Box::new(ThunkEnum::Value(val.clone()))),
    }
}

/// Renames the free occurrences of variable `v` to `y` in an expression.
fn rename_expr(e: &Expr, v: &num_bigint::BigInt, y: &num_bigint::BigInt) -> (r: Expr)
    ensures
        r@ == rename_free(e@, big_value(*v), big_value(*y)),
    decreases e,
{
    match e {
        Expr::Literal(val) => Expr::Literal(val.clone()),
        Expr::UnaryOp(op, a) => Expr::UnaryOp(*op, rename_thunk(a, v, y)),
        Expr::BinaryOp(op, l, r2) => Expr::BinaryOp(
            *op,
            rename_thunk(l, v, y),
            rename_thunk(r2, v, y),
        ),
        Expr::If(c, t, f) => Expr::If(
            rename_thunk(c, v, y),
            rename_thunk(t, v, y),
            rename_thunk(f, v, y),
        ),
        Expr::Lambda(w, b) => {
            if big_eq(w, v) {
                Expr::Lambda(big_clone(w), b.clone())
            } else {
                Expr::Lambda(big_clone(w), rename_thunk(b, v, y))
            }
        },
        Expr::Var(w) => {
            if big_eq(w, v) {
                Expr::Var(big_clone(y))
            } else {
                Expr::Var(big_clone(w))
            }
        },
    }
}

/// The fresh binder of [`fresh_id`], computed on the wire types.
fn fresh_binder(
    v: &num_bigint::BigInt,
    body: &Thunk,
    target: &Thunk,
    var: &num_bigint::BigInt,
) -> (y: num_bigint::BigInt)
    ensures
        big_value(y) == fresh_id(big_value(*v), body@, target@, big_value(*var)),
{
    let m = big_min(
        big_min(big_clone(v), min_id_thunk(body)),
        big_min(min_id_thunk(target), big_min(big_clone(var), big_from_u64(0))),
    );
    big_sub(&m, &big_from_u64(1))
}

impl Thunk {
    /// Substitutes `target` for the free occurrences of `var`.  A thunk
    /// without a free `var` — a computed value in particular — is returned
    /// unchanged; binders that would capture a free variable of `target`
    /// are alpha-renamed to fresh negative identifiers, as in
    /// [`spec_subst`].
    pub fn subst(&self, var: &num_bigint::BigInt, target: &Thunk) -> (r: Thunk)
        ensures
            r@ == spec_subst(self@, big_value(*var), target@),
        decreases esize(thunk_model(*self)), 1int,
    {
        proof {
            lemma_esize_pos(thunk_model(*self));
        }
        if !thunk_has_free(self, var) {
            return self.clone();
        }
        match &*self.0 {
            ThunkEnum::Expr(e) => e.subst(var, target),
            ThunkEnum::Value(v) => Thunk(Box::new(ThunkEnum::Value(v.clone()))),
        }
    }
}

impl Expr {
    /// Substitutes `target` for the free occurrences of `var`, as a fresh
    /// suspension.  A subtree without a free `var` is returned unchanged; a
    /// binder equal to `var` shadows it; a binder whose variable occurs
    /// free in `target` is alpha-renamed to a fresh negative identifier
    /// first, so no free variable of `target` is ever captured (see
    /// [`spec_subst`] and [`lemma_subst_no_capture`]).
    pub fn subst(&self, var: &num_bigint::BigInt, target: &Thunk) -> (r: Thunk)
        ensures
            r@ == spec_subst(self@, big_value(*var), target@),
        decreases esize(expr_model(*self)), 0int,
    {
        if !expr_has_free(self, var) {
            return Thunk(Box::new(ThunkEnum::Expr(self.clone())));
        }
        match self {
            Expr::Literal(v) => Thunk(Box::new(ThunkEnum::Expr(Expr::Literal(v.clone())))),
            Expr::UnaryOp(op, e) => Thunk(
                Box::new(ThunkEnum::Expr(Expr::UnaryOp(*op, e.subst(var, target)))),
            ),
            Expr::BinaryOp(op, l, r) => Thunk(
                Box::new(
                    ThunkEnum::Expr(Expr::BinaryOp(*op, l.subst(var, target), r.subst(var, target))),
                ),
            ),
            Expr::If(c, t, f) => Thunk(
                Box::new(
                    ThunkEnum::Expr(
                        Expr::If(c.subst(var, target), t.subst(var, target), f.subst(var, target)),
                    ),
                ),
            ),
            Expr::Lambda(y, body) => {
                if big_eq(y, var) {
                    Thunk(Box::new(ThunkEnum::Expr(Expr::Lambda(big_clone(y), body.clone()))))
                } else if thunk_has_free(target, y) {
                    let fresh = fresh_binder(y, body, target, var);
                    let renamed = rename_thunk(body, y, &fresh);
                    proof {
                        lemma_rename_size(body@, big_value(*y), big_value(fresh));
                    }
                    Thunk(
                        Box::new(
                            ThunkEnum::Expr(
                                Expr::Lambda(big_clone(&fresh), renamed.subst(var, target)),
                            ),
                        ),
                    )
                } else {
                    Thunk(
                        Box::new(
                            ThunkEnum::Expr(Expr::Lambda(big_clone(y), body.subst(var, target))),
                        ),
                    )
                }
            },
            Expr::Var(y) => {
                if big_eq(y, var) {
                    target.clone()
                } else {
                    Thunk(Box::new(ThunkEnum::Expr(Expr::Var(big_clone(y)))))
                }
            },
        }
    }
}

/// Structural equality of values, as the `=` operator of the language sees
/// it: equality of the models, cross-type comparisons being plain `false`.
fn value_eq(a: &Value, b: &Value) -> (r: bool)
    ensures
        r == (a@ == b@),
    decreases a,
{
    match (a, b) {
        (Value::Boolean(x), Value::Boolean(y)) => x == y,
        (Value::Integer(x), Value::Integer(y)) => big_eq(x, y),
        (Value::String(x), Value::String(y)) => x.eq(y),
        (Value::Closure(x, bx), Value::Closure(y, by)) => big_eq(x, y) && thunk_eq(bx, by),
        _ => false,
    }
}

/// Structural equality of thunks, up to the model: a computed value and a
/// suspended literal holding the same value are equal.
fn thunk_eq(a: &Thunk, b: &Thunk) -> (r: bool)
    ensures
        r == (a@ == b@),
    decreases a,
{
    match (&*a.0, &*b.0) {
        (ThunkEnum::Expr(e), ThunkEnum::Expr(f)) => expr_eq(e, f),
        (ThunkEnum::Value(v), ThunkEnum::Value(w)) => value_eq(v, w),
        (ThunkEnum::Value(v), ThunkEnum::Expr(f)) => match f {
            Expr::Literal(w) => value_eq(v, w),
            _ => false,
        },
        (ThunkEnum::Expr(e), ThunkEnum::Value(w)) => match e {
            Expr::Literal(v) => value_eq(v, w),
            _ => false,
        },
    }
}

/// Structural equality of expressions, up to the model.
fn expr_eq(a: &Expr, b: &Expr) -> (r: bool)
    ensures
        r == (a@ == b@),
    decreases a,
{
    match (a, b) {
        (Expr::Literal(v), Expr::Literal(w)) => value_eq(v, w),
        (Expr::UnaryOp(o1, x), Expr::UnaryOp(o2, y)) => o1 == o2 && thunk_eq(x, y),
        (Expr::BinaryOp(o1, l1, r1), Expr::BinaryOp(o2, l2, r2)) => o1 == o2 && thunk_eq(l1, l2)
            && thunk_eq(r1, r2),
        (Expr::If(c1, t1, f1), Expr::If(c2, t2, f2)) => thunk_eq(c1, c2) && thunk_eq(t1, t2)
            && thunk_eq(f1, f2),
        (Expr::Lambda(x, bx), Expr::Lambda(y, by)) => big_eq(x, y) && thunk_eq(bx, by),
        (Expr::Var(x), Expr::Var(y)) => big_eq(x, y),
        _ => false,
    }
}

impl PartialEq for Value {
    fn eq(&self, other: &Value) -> (r: bool) {
        value_eq(self, other)
    }
}

impl vstd::std_specs::cmp::PartialEqSpecImpl for Value {
    open spec fn obeys_eq_spec() -> bool {
        true
    }

    open spec fn eq_spec(&self, other: &Value) -> bool {
        self@ == other@
    }
}

/// Forces a thunk without memoizing: evaluates the suspended expression, or
/// hands back the already-computed value.
fn eval_thunk_ref(t: &Thunk, fuel: u64) -> (r: Result<Value, EvalError>)
    ensures
        match r {
            Ok(v) => spec_eval(t@, fuel as nat) == Ok::<ValueModel, EvalError>(v@),
            Err(e) => spec_eval(t@, fuel as nat) == Err::<ValueModel, EvalError>(e),
        },
    decreases fuel, esize(t@), 1int,
{
    match &*t.0 {
        ThunkEnum::Expr(e) => e.eval(fuel),
        ThunkEnum::Value(v) => Ok(v.clone()),
    }
}

impl Thunk {
    /// Forces the thunk: evaluates the suspended expression and, on
    /// success, overwrites the thunk in place with the computed value, so
    /// that forcing it again returns the value at once (memoization).  On
    /// failure the thunk is left as it was.
    pub fn eval(&mut self, fuel: u64) -> (r: Result<Value, EvalError>)
        ensures
            match r {
                Ok(v) => spec_eval(old(self)@, fuel as nat) == Ok::<ValueModel, EvalError>(v@)
                    && final(self)@ == ExprModel::Literal(v@),
                Err(e) => spec_eval(old(self)@, fuel as nat) == Err::<ValueModel, EvalError>(e)
                    && final(self)@ == old(self)@,
            },
    {
        match eval_thunk_ref(&*self, fuel) {
            Ok(v) => {
                *self = Thunk(Box::new(ThunkEnum::Value(v.clone())));
                Ok(v)
            },
            Err(e) => Err(e),
        }
    }
}

/// The two operands of an arithmetic or comparison operator, both required
/// to be integers.
fn int_args(l: Value, r: Value) -> (res: Result<(num_bigint::BigInt, num_bigint::BigInt), EvalError>)
    ensures
        match res {
            Ok((a, b)) => l@ == ValueModel::Integer(big_value(a)) && r@ == ValueModel::Integer(
                big_value(b),
            ),
            Err(e) => e == EvalError::TypeError(ValueTag::Integer, int_offender(l@, r@)) && !(l@
                is Integer && r@ is Integer),
        },
{
    match (l, r) {
        (Value::Integer(a), Value::Integer(b)) => Ok((a, b)),
        (a, b) => {
            let got = if !(matches!(a, Value::Integer(_))) {
                value_tag(&a)
            } else {
                value_tag(&b)
            };
            Err(EvalError::TypeError(ValueTag::Integer, got))
        },
    }
}

/// The two operands of a boolean operator, both required to be booleans.
fn bool_args(l: Value, r: Value) -> (res: Result<(bool, bool), EvalError>)
    ensures
        match res {
            Ok((a, b)) => l@ == ValueModel::Boolean(a) && r@ == ValueModel::Boolean(b),
            Err(e) => e == EvalError::TypeError(ValueTag::Boolean, bool_offender(l@, r@)) && !(l@
                is Boolean && r@ is Boolean),
        },
{
    match (l, r) {
        (Value::Boolean(a), Value::Boolean(b)) => Ok((a, b)),
        (a, b) => {
            let got = if !(matches!(a, Value::Boolean(_))) {
                value_tag(&a)
            } else {
                value_tag(&b)
            };
            Err(EvalError::TypeError(ValueTag::Boolean, got))
        },
    }
}

impl UnaryOp {
    /// Forces the operand and applies this unary operator to it.
    pub fn apply(&self, e: &Thunk, fuel: u64) -> (r: Result<Value, EvalError>)
        ensures
            match r {
                Ok(v) => spec_eval_unary(*self, e@, fuel as nat) == Ok::<ValueModel, EvalError>(
                    v@,
                ),
                Err(er) => spec_eval_unary(*self, e@, fuel as nat) == Err::<ValueModel, EvalError>(
                    er,
                ),
            },
        decreases fuel, esize(e@), 2int,
    {
        proof {
            lemma_esize_pos(e@);
        }
        let value = match eval_thunk_ref(e, fuel) {
            Ok(v) => v,
            Err(er) => {
                return Err(er);
            },
        };
        match self {
            UnaryOp::Neg => match value {
                Value::Integer(n) => Ok(Value::Integer(crate::bignum::big_neg(&n))),
                other => Err(EvalError::TypeError(ValueTag::Integer, value_tag(&other))),
            },
            UnaryOp::Not => match value {
                Value::Boolean(b) => Ok(Value::Boolean(!b)),
                other => Err(EvalError::TypeError(ValueTag::Boolean, value_tag(&other))),
            },
            UnaryOp::ToInt => match value {
                Value::String(s) => {
                    match crate::token::strings::encode_bytes(s.as_str()) {
                        Ok(w) => match crate::token::integers::decode(w.as_slice()) {
                            Ok(n) => Ok(Value::Integer(n)),
                            Err(_) => {
                                proof {
                                    crate::token::strings::lemma_string_codec_roundtrip_text(s@);
                                }
                                vstd::pervasive::unreached()
                            },
                        },
                        Err(_) => Err(EvalError::DecodeError),
                    }
                },
                other => Err(EvalError::TypeError(ValueTag::String, value_tag(&other))),
            },
            UnaryOp::ToString => match value {
                Value::Integer(n) => {
                    match crate::token::integers::encode_digits(n) {
                        Ok(w) => match crate::token::strings::decode(w.as_slice()) {
                            Ok(s) => Ok(Value::String(s)),
                            Err(_) => {
                                proof {
                                    crate::token::integers::lemma_enc94_wf(
                                        spec_eval(e@, fuel as nat)->Ok_0->Integer_0 as nat,
                                    );
                                }
                                vstd::pervasive::unreached()
                            },
                        },
                        Err(_) => Err(EvalError::DecodeError),
                    }
                },
                other => Err(EvalError::TypeError(ValueTag::Integer, value_tag(&other))),
            },
        }
    }
}


/// Applies a strict binary operator — every operator but `Apply` — to its
/// two forced values.
#[verifier::rlimit(100)]
#[verifier::spinoff_prover]
fn apply_strict(op: &BinaryOp, l: Value, rv: Value) -> (r: Result<Value, EvalError>)
    requires
        *op != BinaryOp::Apply,
    ensures
        match r {
            Ok(v) => spec_apply_binop(*op, l@, rv@) == Ok::<ValueModel, EvalError>(v@),
            Err(er) => spec_apply_binop(*op, l@, rv@) == Err::<ValueModel, EvalError>(er),
        },
{
    match op {
            BinaryOp::Add => match int_args(l, rv) {
                Ok((a, b)) => Ok(Value::Integer(big_add(&a, &b))),
                Err(er) => Err(er),
            },
            BinaryOp::Sub => match int_args(l, rv) {
                Ok((a, b)) => Ok(Value::Integer(big_sub(&a, &b))),
                Err(er) => Err(er),
            },
            BinaryOp::Mul => match int_args(l, rv) {
                Ok((a, b)) => Ok(Value::Integer(big_mul(&a, &b))),
                Err(er) => Err(er),
            },
            BinaryOp::Div => match int_args(l, rv) {
                Ok((a, b)) => {
                    let zero = big_from_u64(0);
                    if big_eq(&b, &zero) {
                        Err(EvalError::ArithmeticError)
                    } else {
                        Ok(Value::Integer(crate::bignum::big_div(&a, &b)))
                    }
                },
                Err(er) => Err(er),
            },
            BinaryOp::Mod => match int_args(l, rv) {
                Ok((a, b)) => {
                    let zero = big_from_u64(0);
                    if big_eq(&b, &zero) {
                        Err(EvalError::ArithmeticError)
                    } else {
                        Ok(Value::Integer(crate::bignum::big_rem(&a, &b)))
                    }
                },
                Err(er) => Err(er),
            },
            BinaryOp::Less => match int_args(l, rv) {
                Ok((a, b)) => Ok(Value::Boolean(big_lt(&a, &b))),
                Err(er) => Err(er),
            },
            BinaryOp::Greater => match int_args(l, rv) {
                Ok((a, b)) => Ok(Value::Boolean(big_lt(&b, &a))),
                Err(er) => Err(er),
            },
            BinaryOp::Equal => Ok(Value::Boolean(value_eq(&l, &rv))),
            BinaryOp::Or => match bool_args(l, rv) {
                Ok((a, b)) => Ok(Value::Boolean(a || b)),
                Err(er) => Err(er),
            },
            BinaryOp::And => match bool_args(l, rv) {
                Ok((a, b)) => Ok(Value::Boolean(a && b)),
                Err(er) => Err(er),
            },
            BinaryOp::Concat => match (l, rv) {
                (Value::String(a), Value::String(b)) => Ok(
                    Value::String(a.concat(b.as_str())),
                ),
                (a, b) => {
                    let got = if !(matches!(a, Value::String(_))) {
                        value_tag(&a)
                    } else {
                        value_tag(&b)
                    };
                    Err(EvalError::TypeError(ValueTag::String, got))
                },
            },
            BinaryOp::Take => match (l, rv) {
                (Value::Integer(n), Value::String(s)) => match crate::bignum::big_to_usize(
                    &n,
                ) {
                    Some(k) => {
                        let len = s.as_str().unicode_len();
                        let cut = if k <= len {
                            k
                        } else {
                            len
                        };
                        let taken = s.as_str().substring_char(0, cut).to_owned();
                        proof {
                            assert(taken@ =~= s@.take(
                                if big_value(n) <= s@.len() as int {
                                    big_value(n)
                                } else {
                                    s@.len() as int
                                },
                            ));
                        }
                        Ok(Value::String(taken))
                    },
                    None => Err(EvalError::RangeError),
                },
                (a, b) => {
                    let e = if !(matches!(a, Value::Integer(_))) {
                        EvalError::TypeError(ValueTag::Integer, value_tag(&a))
                    } else {
                        EvalError::TypeError(ValueTag::String, value_tag(&b))
                    };
                    Err(e)
                },
            },
            BinaryOp::Drop => match (l, rv) {
                (Value::Integer(n), Value::String(s)) => match crate::bignum::big_to_usize(
                    &n,
                ) {
                    Some(k) => {
                        let len = s.as_str().unicode_len();
                        let cut = if k <= len {
                            k
                        } else {
                            len
                        };
                        let dropped = s.as_str().substring_char(cut, len).to_owned();
                        proof {
                            assert(dropped@ =~= s@.skip(
                                if big_value(n) <= s@.len() as int {
                                    big_value(n)
                                } else {
                                    s@.len() as int
                                },
                            ));
                        }
                        Ok(Value::String(dropped))
                    },
                    None => Err(EvalError::RangeError),
                },
                (a, b) => {
                    let e = if !(matches!(a, Value::Integer(_))) {
                        EvalError::TypeError(ValueTag::Integer, value_tag(&a))
                    } else {
                        EvalError::TypeError(ValueTag::String, value_tag(&b))
                    };
                    Err(e)
                },
            },
            BinaryOp::Apply => vstd::pervasive::unreached(),
    }
}

impl BinaryOp {
    /// Forces the operands this operator needs and applies it.  `Apply`
    /// forces only its left operand into a closure and substitutes the
    /// right operand into the body unevaluated; every other operator forces
    /// both, left first.
    #[verifier::rlimit(100)]
    pub fn apply(&self, lhs: &Thunk, rhs: &Thunk, fuel: u64) -> (r: Result<Value, EvalError>)
        ensures
            match r {
                Ok(v) => spec_eval_binop(*self, lhs@, rhs@, fuel as nat) == Ok::<
                    ValueModel,
                    EvalError,
                >(v@),
                Err(er) => spec_eval_binop(*self, lhs@, rhs@, fuel as nat) == Err::<
                    ValueModel,
                    EvalError,
                >(er),
            },
        decreases fuel, esize(lhs@) + esize(rhs@), 2int,
    {
        proof {
            lemma_esize_pos(lhs@);
            lemma_esize_pos(rhs@);
        }
        let l = match eval_thunk_ref(lhs, fuel) {
            Ok(v) => v,
            Err(er) => {
                return Err(er);
            },
        };
        if let BinaryOp::Apply = self {
            match l {
                Value::Closure(x, body) => {
                    if fuel == 0 {
                        return Err(EvalError::OutOfFuel);
                    }
                    let suspended = body.subst(&x, rhs);
                    eval_thunk_ref(&suspended, fuel - 1)
                },
                other => Err(EvalError::TypeError(ValueTag::Closure, value_tag(&other))),
            }
        } else {
            let rv = match eval_thunk_ref(rhs, fuel) {
                Ok(v) => v,
                Err(er) => {
                    return Err(er);
                },
            };
            apply_strict(self, l, rv)
        }
    }
}


impl Expr {
    /// Evaluates the expression under a bound on the number of closure
    /// applications.  The result, error or value, is exactly what
    /// [`spec_eval`] assigns to the expression's model at that bound.
    pub fn eval(&self, fuel: u64) -> (r: Result<Value, EvalError>)
        ensures
            match r {
                Ok(v) => spec_eval(self@, fuel as nat) == Ok::<ValueModel, EvalError>(v@),
                Err(e) => spec_eval(self@, fuel as nat) == Err::<ValueModel, EvalError>(e),
            },
        decreases fuel, esize(self@), 0int,
    {
        match self {
            Expr::Literal(v) => Ok(v.clone()),
            Expr::BinaryOp(o, lhs, rhs) => o.apply(lhs, rhs, fuel),
            Expr::UnaryOp(o, e) => o.apply(e, fuel),
            Expr::If(flag, t, f) => {
                proof {
                    lemma_esize_pos(thunk_model(*t));
                    lemma_esize_pos(thunk_model(*f));
                }
                match eval_thunk_ref(flag, fuel) {
                    Ok(Value::Boolean(b)) => {
                        if b {
                            eval_thunk_ref(t, fuel)
                        } else {
                            eval_thunk_ref(f, fuel)
                        }
                    },
                    Ok(other) => Err(EvalError::TypeError(ValueTag::Boolean, value_tag(&other))),
                    Err(e) => Err(e),
                }
            },
            Expr::Lambda(x, body) => Ok(Value::Closure(big_clone(x), body.clone())),
            Expr::Var(_) => Err(EvalError::UndefinedVariable),
        }
    }
}

/// The printed form of a final value: a string prints as its text, a
/// boolean as `true` or `false`, an integer in decimal, and a closure as a
/// placeholder marker.
pub open spec fn render_model(v: ValueModel) -> Seq<char> {
    match v {
        ValueModel::String(s) => s,
        ValueModel::Boolean(b) => if b {
            "true"@
        } else {
            "false"@
        },
        ValueModel::Integer(n) => crate::bignum::decimal_of(n),
        ValueModel::Closure(_, _) => "<closure>"@,
    }
}

impl Value {
    /// Prints the value: a string as its text, a boolean as `true` or
    /// `false`, an integer in decimal, a closure as a placeholder marker.
    pub fn render(&self) -> (r: String)
        ensures
            r@ == render_model(self@),
    {
        match self {
            Value::String(s) => s.clone(),
            Value::Boolean(b) => {
                if *b {
                    "true".to_owned()
                } else {
                    "false".to_owned()
                }
            },
            Value::Integer(n) => crate::bignum::big_to_decimal(n),
            Value::Closure(_, _) => "<closure>".to_owned(),
        }
    }
}

/// True when variable `x` occurs free in `e`.  A literal value never has a
/// free occurrence: substitution does not enter computed values.
pub open spec fn free_in(x: int, e: ExprModel) -> bool
    decreases e,
{
    match e {
        ExprModel::Literal(_) => false,
        ExprModel::UnaryOp(_, a) => free_in(x, *a),
        ExprModel::BinaryOp(_, l, r) => free_in(x, *l) || free_in(x, *r),
        ExprModel::If(c, t, f) => free_in(x, *c) || free_in(x, *t) || free_in(x, *f),
        ExprModel::Lambda(y, b) => y != x && free_in(x, *b),
        ExprModel::Var(y) => y == x,
    }
}

/// True when identifier `z` occurs anywhere in `e` outside literals: as a
/// variable, free or bound, or as a binder.
pub open spec fn occurs_in(z: int, e: ExprModel) -> bool
    decreases e,
{
    match e {
        ExprModel::Literal(_) => false,
        ExprModel::UnaryOp(_, a) => occurs_in(z, *a),
        ExprModel::BinaryOp(_, l, r) => occurs_in(z, *l) || occurs_in(z, *r),
        ExprModel::If(c, a, b) => occurs_in(z, *c) || occurs_in(z, *a) || occurs_in(z, *b),
        ExprModel::Lambda(y, b) => y == z || occurs_in(z, *b),
        ExprModel::Var(y) => y == z,
    }
}

/// Every occurring identifier is at least `min_id`.
proof fn lemma_min_id_occurs(e: ExprModel, z: int)
    requires
        occurs_in(z, e),
    ensures
        z >= min_id(e),
    decreases e,
{
    match e {
        ExprModel::Literal(_) => {},
        ExprModel::UnaryOp(_, a) => {
            lemma_min_id_occurs(*a, z);
        },
        ExprModel::BinaryOp(_, l, r) => {
            if occurs_in(z, *l) {
                lemma_min_id_occurs(*l, z);
            } else {
                lemma_min_id_occurs(*r, z);
            }
        },
        ExprModel::If(c, a, b) => {
            if occurs_in(z, *c) {
                lemma_min_id_occurs(*c, z);
            } else if occurs_in(z, *a) {
                lemma_min_id_occurs(*a, z);
            } else {
                lemma_min_id_occurs(*b, z);
            }
        },
        ExprModel::Lambda(y, b) => {
            if y != z {
                lemma_min_id_occurs(*b, z);
            }
        },
        ExprModel::Var(_) => {},
    }
}

/// A free variable occurs.
proof fn lemma_free_occurs(e: ExprModel, z: int)
    requires
        free_in(z, e),
    ensures
        occurs_in(z, e),
    decreases e,
{
    match e {
        ExprModel::Literal(_) => {},
        ExprModel::UnaryOp(_, a) => {
            lemma_free_occurs(*a, z);
        },
        ExprModel::BinaryOp(_, l, r) => {
            if free_in(z, *l) {
                lemma_free_occurs(*l, z);
            } else {
                lemma_free_occurs(*r, z);
            }
        },
        ExprModel::If(c, a, b) => {
            if free_in(z, *c) {
                lemma_free_occurs(*c, z);
            } else if free_in(z, *a) {
                lemma_free_occurs(*a, z);
            } else {
                lemma_free_occurs(*b, z);
            }
        },
        ExprModel::Lambda(_, b) => {
            lemma_free_occurs(*b, z);
        },
        ExprModel::Var(_) => {},
    }
}

/// The fresh binder collides with nothing: it is negative, differs from the
/// old binder and the substituted variable, occurs nowhere in the body, and
/// is not free in the target.
proof fn lemma_fresh_props(v: int, body: ExprModel, t: ExprModel, x: int)
    ensures
        ({
            let y = fresh_id(v, body, t, x);
            &&& y < 0
            &&& y != v
            &&& y != x
            &&& !occurs_in(y, body)
            &&& !free_in(y, body)
            &&& !free_in(y, t)
        }),
{
    let y = fresh_id(v, body, t, x);
    if occurs_in(y, body) {
        lemma_min_id_occurs(body, y);
    }
    if free_in(y, body) {
        lemma_free_occurs(body, y);
        lemma_min_id_occurs(body, y);
    }
    if free_in(y, t) {
        lemma_free_occurs(t, y);
        lemma_min_id_occurs(t, y);
    }
}

/// Renaming a variable preserves the node count.
pub proof fn lemma_rename_size(e: ExprModel, v: int, y: int)
    ensures
        esize(rename_free(e, v, y)) == esize(e),
    decreases e,
{
    match e {
        ExprModel::Literal(_) => {},
        ExprModel::UnaryOp(_, a) => {
            lemma_rename_size(*a, v, y);
        },
        ExprModel::BinaryOp(_, l, r) => {
            lemma_rename_size(*l, v, y);
            lemma_rename_size(*r, v, y);
        },
        ExprModel::If(c, a, b) => {
            lemma_rename_size(*c, v, y);
            lemma_rename_size(*a, v, y);
            lemma_rename_size(*b, v, y);
        },
        ExprModel::Lambda(w, b) => {
            if w != v {
                lemma_rename_size(*b, v, y);
            }
        },
        ExprModel::Var(_) => {},
    }
}

/// What renaming does to free variables, for a fresh name: `y` stands for
/// the old free occurrences of `v`, everything else is untouched.
proof fn lemma_rename_free_at(e: ExprModel, v: int, y: int, z: int)
    requires
        !occurs_in(y, e),
        y != v,
    ensures
        free_in(z, rename_free(e, v, y)) <==> ((z == y && free_in(v, e)) || (free_in(z, e) && z
            != v)),
    decreases e,
{
    match e {
        ExprModel::Literal(_) => {},
        ExprModel::UnaryOp(_, a) => {
            lemma_rename_free_at(*a, v, y, z);
        },
        ExprModel::BinaryOp(_, l, r) => {
            lemma_rename_free_at(*l, v, y, z);
            lemma_rename_free_at(*r, v, y, z);
        },
        ExprModel::If(c, a, b) => {
            lemma_rename_free_at(*c, v, y, z);
            lemma_rename_free_at(*a, v, y, z);
            lemma_rename_free_at(*b, v, y, z);
        },
        ExprModel::Lambda(w, b) => {
            if w != v {
                lemma_rename_free_at(*b, v, y, z);
            }
        },
        ExprModel::Var(_) => {},
    }
}

/// Substitution avoids capture, for every target: when `x` is free, the
/// free variables of the result are exactly those of the original minus
/// `x`, together with those of the target — none of the target's free
/// variables is bound, and none of the original's is lost; when `x` is not
/// free, nothing changes at all.
pub proof fn lemma_subst_no_capture(e: ExprModel, x: int, t: ExprModel, y: int)
    ensures
        !free_in(x, e) ==> spec_subst(e, x, t) == e,
        free_in(x, e) ==> (free_in(y, spec_subst(e, x, t)) <==> ((free_in(y, e) && y != x)
            || free_in(y, t))),
    decreases esize(e),
{
    if free_in(x, e) {
        match e {
            ExprModel::Literal(_) => {},
            ExprModel::UnaryOp(_, a) => {
                lemma_subst_no_capture(*a, x, t, y);
            },
            ExprModel::BinaryOp(_, l, r) => {
                lemma_subst_no_capture(*l, x, t, y);
                lemma_subst_no_capture(*r, x, t, y);
            },
            ExprModel::If(c, a, b) => {
                lemma_subst_no_capture(*c, x, t, y);
                lemma_subst_no_capture(*a, x, t, y);
                lemma_subst_no_capture(*b, x, t, y);
            },
            ExprModel::Lambda(v, body) => {
                if v != x && free_in(v, t) {
                    let fy = fresh_id(v, *body, t, x);
                    lemma_fresh_props(v, *body, t, x);
                    lemma_rename_size(*body, v, fy);
                    let renamed = rename_free(*body, v, fy);
                    lemma_rename_free_at(*body, v, fy, x);
                    lemma_subst_no_capture(renamed, x, t, y);
                    lemma_rename_free_at(*body, v, fy, y);
                } else if v != x {
                    lemma_subst_no_capture(*body, x, t, y);
                }
            },
            ExprModel::Var(_) => {},
        }
    }
}

/// For a closed target — all the evaluator ever substitutes — substitution
/// is capture-free in the simplest form: the free variables of the result
/// are exactly those of the original minus the substituted one.
pub proof fn lemma_subst_closed_no_capture(e: ExprModel, x: int, t: ExprModel, y: int)
    requires
        forall|z: int| !free_in(z, t),
    ensures
        free_in(y, spec_subst(e, x, t)) <==> (free_in(y, e) && y != x),
{
    lemma_subst_no_capture(e, x, t, y);
}

/// Substituting for a variable that does not occur free changes nothing.
pub proof fn lemma_subst_unused(e: ExprModel, x: int, t: ExprModel)
    requires
        !free_in(x, e),
    ensures
        spec_subst(e, x, t) == e,
{
}

/// Laziness of `If`: when the condition selects the then-branch and that
/// branch evaluates to a value, the whole conditional evaluates to that
/// value — whatever the untaken branch is, malformed, erroring or
/// diverging, it is never forced.
pub proof fn lemma_if_lazy_true(c: ExprModel, t: ExprModel, f: ExprModel, fuel: nat, v: ValueModel)
    requires
        spec_eval(c, fuel) == Ok::<ValueModel, EvalError>(ValueModel::Boolean(true)),
        spec_eval(t, fuel) == Ok::<ValueModel, EvalError>(v),
    ensures
        spec_eval(ExprModel::If(Box::new(c), Box::new(t), Box::new(f)), fuel) == Ok::<
            ValueModel,
            EvalError,
        >(v),
{
}

/// Laziness of `If`, the mirror case: a false condition selects the
/// else-branch, and the untaken then-branch is never forced.
pub proof fn lemma_if_lazy_false(c: ExprModel, t: ExprModel, f: ExprModel, fuel: nat, v: ValueModel)
    requires
        spec_eval(c, fuel) == Ok::<ValueModel, EvalError>(ValueModel::Boolean(false)),
        spec_eval(f, fuel) == Ok::<ValueModel, EvalError>(v),
    ensures
        spec_eval(ExprModel::If(Box::new(c), Box::new(t), Box::new(f)), fuel) == Ok::<
            ValueModel,
            EvalError,
        >(v),
{
}

/// Application is call-by-name: applying a closure whose body never
/// references its parameter evaluates the body alone — the argument is
/// substituted unevaluated, so an argument that would error or diverge if
/// forced does no harm.
pub proof fn lemma_apply_call_by_name(
    x: int,
    body: ExprModel,
    arg: ExprModel,
    fuel: nat,
    v: ValueModel,
)
    requires
        !free_in(x, body),
        fuel >= 1,
        spec_eval(body, (fuel - 1) as nat) == Ok::<ValueModel, EvalError>(v),
    ensures
        spec_eval(
            ExprModel::BinaryOp(
                BinaryOp::Apply,
                Box::new(ExprModel::Lambda(x, Box::new(body))),
                Box::new(arg),
            ),
            fuel,
        ) == Ok::<ValueModel, EvalError>(v),
{
    lemma_subst_unused(body, x, arg);
    let lam = ExprModel::Lambda(x, Box::new(body));
    let e = ExprModel::BinaryOp(BinaryOp::Apply, Box::new(lam), Box::new(arg));
    assert(spec_eval(lam, fuel) == Ok::<ValueModel, EvalError>(
        ValueModel::Closure(x, Box::new(body)),
    ));
    assert(spec_eval(e, fuel) == spec_eval_binop(BinaryOp::Apply, lam, arg, fuel));
    assert(spec_eval_binop(BinaryOp::Apply, lam, arg, fuel) == spec_eval(
        spec_subst(body, x, arg),
        (fuel - 1) as nat,
    ));
}

/// Memoization: a thunk that holds a computed value evaluates to that
/// value at once, under any fuel bound, zero included.  Together with the
/// contract of [`Thunk::eval`] — a successful force overwrites the thunk
/// with its value — a thunk is therefore evaluated at most once, and every
/// later force returns the cached value unchanged.
pub proof fn lemma_forced_thunk_stable(v: ValueModel, fuel: nat)
    ensures
        spec_eval(ExprModel::Literal(v), fuel) == Ok::<ValueModel, EvalError>(v),
{
}

/// One step of the expression builder: how a single token transforms the
/// stack of already-built expressions (tokens are consumed in reverse).
pub open spec fn spec_build_step(t: TokenModel, stack: Seq<ExprModel>) -> Result<
    Seq<ExprModel>,
    ParseError,
> {
    match t {
        TokenModel::Boolean(b) => Ok(stack.push(ExprModel::Literal(ValueModel::Boolean(b)))),
        TokenModel::Integer(n) => Ok(stack.push(ExprModel::Literal(ValueModel::Integer(n)))),
        TokenModel::String(s) => Ok(stack.push(ExprModel::Literal(ValueModel::String(s)))),
        TokenModel::UnaryOp(op) => if stack.len() >= 1 {
            Ok(stack.drop_last().push(ExprModel::UnaryOp(op, Box::new(stack.last()))))
        } else {
            Err(ParseError::MissingOperand)
        },
        TokenModel::BinaryOp(op) => if stack.len() >= 2 {
            Ok(
                stack.drop_last().drop_last().push(
                    ExprModel::BinaryOp(
                        op,
                        Box::new(stack.last()),
                        Box::new(stack[stack.len() - 2]),
                    ),
                ),
            )
        } else {
            Err(ParseError::MissingOperand)
        },
        TokenModel::If => if stack.len() >= 3 {
            Ok(
                stack.drop_last().drop_last().drop_last().push(
                    ExprModel::If(
                        Box::new(stack.last()),
                        Box::new(stack[stack.len() - 2]),
                        Box::new(stack[stack.len() - 3]),
                    ),
                ),
            )
        } else {
            Err(ParseError::MissingOperand)
        },
        TokenModel::Lambda(x) => if stack.len() >= 1 {
            Ok(stack.drop_last().push(ExprModel::Lambda(x, Box::new(stack.last()))))
        } else {
            Err(ParseError::MissingBody)
        },
        TokenModel::Variable(x) => Ok(stack.push(ExprModel::Var(x))),
    }
}

/// The stack after consuming the whole token sequence in reverse: token `0`
/// is consumed last, on the stack the rest of the sequence built.
pub open spec fn spec_build_stack(ts: Seq<TokenModel>) -> Result<Seq<ExprModel>, ParseError>
    decreases ts.len(),
{
    if ts.len() == 0 {
        Ok(Seq::empty())
    } else {
        match spec_build_stack(ts.skip(1)) {
            Ok(stack) => spec_build_step(ts[0], stack),
            Err(e) => Err(e),
        }
    }
}

/// The expression a token sequence parses to: after all tokens, exactly one
/// expression must remain on the stack.
pub open spec fn spec_from_tokens(ts: Seq<TokenModel>) -> Result<ExprModel, ParseError> {
    match spec_build_stack(ts) {
        Ok(stack) => if stack.len() == 1 {
            Ok(stack[0])
        } else {
            Err(ParseError::TrailingOrEmptyExpr)
        },
        Err(e) => Err(e),
    }
}

/// A builder failure on any suffix of the tokens is the failure of the
/// whole sequence.
proof fn lemma_build_stack_error(ts: Seq<TokenModel>, k: int, e: ParseError)
    requires
        0 <= k <= ts.len(),
        spec_build_stack(ts.skip(k)) == Err::<Seq<ExprModel>, ParseError>(e),
    ensures
        spec_build_stack(ts) == Err::<Seq<ExprModel>, ParseError>(e),
    decreases k,
{
    if k > 0 {
        assert(ts.skip(k - 1).skip(1) =~= ts.skip(k));
        assert(ts.skip(k - 1).len() > 0);
        lemma_build_stack_error(ts, k - 1, e);
    } else {
        assert(ts.skip(0) =~= ts);
    }
}

impl Expr {
    /// Builds the expression tree of a token sequence with a stack machine,
    /// consuming tokens in reverse.  Fails exactly where the stack
    /// discipline does: a missing operand or body, or a stack that does not
    /// end with exactly one expression.
    pub fn from_tokens(tokens: &[Token]) -> (r: Result<Expr, ParseError>)
        ensures
            ({
                let ts = tokens@.map_values(|t: Token| t@);
                match r {
                    Ok(e) => spec_from_tokens(ts) == Ok::<ExprModel, ParseError>(e@),
                    Err(er) => spec_from_tokens(ts) == Err::<ExprModel, ParseError>(er),
                }
            }),
    {
        let ghost ts = tokens@.map_values(|t: Token| t@);
        let mut stack: Vec<Expr> = Vec::new();
        let mut k = tokens.len();
        proof {
            assert(ts.skip(k as int) =~= Seq::<TokenModel>::empty());
            assert(stack@.map_values(|e: Expr| e@) =~= Seq::<ExprModel>::empty());
        }
        while k > 0
        invariant
            ts == tokens@.map_values(|t: Token| t@),
            k <= tokens@.len() == ts.len(),
            spec_build_stack(ts.skip(k as int)) == Ok::<Seq<ExprModel>, ParseError>(
                stack@.map_values(|e: Expr| e@),
            ),
        decreases k,
        {
            k = k - 1;
            let ghost suffix = ts.skip(k as int);
            let ghost stack0 = stack@.map_values(|e: Expr| e@);
            proof {
                assert(suffix.len() > 0);
                assert(suffix[0] == ts[k as int]);
                assert(suffix.skip(1) =~= ts.skip(k + 1));
            }
            let token = vstd::slice::slice_index_get(tokens, k);
            match token {
                Token::Boolean(b) => {
                    stack.push(Expr::Literal(Value::Boolean(*b)));
                },
                Token::Integer(n) => {
                    stack.push(Expr::Literal(Value::Integer(big_clone(n))));
                },
                Token::String(s) => {
                    stack.push(Expr::Literal(Value::String(s.clone())));
                },
                Token::UnaryOp(op) => {
                    let top = match stack.pop() {
                        Some(x) => x,
                        None => {
                            proof {
                                lemma_build_stack_error(ts, k as int, ParseError::MissingOperand);
                            }
                            return Err(ParseError::MissingOperand);
                        },
                    };
                    stack.push(Expr::UnaryOp(*op, Thunk(Box::new(ThunkEnum::Expr(top)))));
                },
                Token::BinaryOp(op) => {
                    let x = match stack.pop() {
                        Some(x) => x,
                        None => {
                            proof {
                                lemma_build_stack_error(ts, k as int, ParseError::MissingOperand);
                            }
                            return Err(ParseError::MissingOperand);
                        },
                    };
                    let y = match stack.pop() {
                        Some(y) => y,
                        None => {
                            proof {
                                lemma_build_stack_error(ts, k as int, ParseError::MissingOperand);
                            }
                            return Err(ParseError::MissingOperand);
                        },
                    };
                    stack.push(
                        Expr::BinaryOp(
                            *op,
                            Thunk(Box::new(ThunkEnum::Expr(x))),
                            Thunk(Box::new(ThunkEnum::Expr(y))),
                        ),
                    );
                },
                Token::If => {
                    if stack.len() < 3 {
                        proof {
                            lemma_build_stack_error(ts, k as int, ParseError::MissingOperand);
                        }
                        return Err(ParseError::MissingOperand);
                    }
                    let flag = stack.pop().unwrap();
                    let case_true = stack.pop().unwrap();
                    let case_false = stack.pop().unwrap();
                    stack.push(
                        Expr::If(
                            Thunk(Box::new(ThunkEnum::Expr(flag))),
                            Thunk(Box::new(ThunkEnum::Expr(case_true))),
                            Thunk(Box::new(ThunkEnum::Expr(case_false))),
                        ),
                    );
                },
                Token::Lambda(x) => {
                    let body = match stack.pop() {
                        Some(b) => b,
                        None => {
                            proof {
                                lemma_build_stack_error(ts, k as int, ParseError::MissingBody);
                            }
                            return Err(ParseError::MissingBody);
                        },
                    };
                    stack.push(
                        Expr::Lambda(big_clone(x), Thunk(Box::new(ThunkEnum::Expr(body)))),
                    );
                },
                Token::Variable(x) => {
                    stack.push(Expr::Var(big_clone(x)));
                },
            }
            proof {
                assert(stack@.map_values(|e: Expr| e@) =~= spec_build_step(
                    ts[k as int],
                    stack0,
                )->Ok_0);
            }
        }
        proof {
            assert(ts.skip(0) =~= ts);
        }
        if stack.len() == 1 {
            let e = stack.pop().unwrap();
            proof {
                assert(stack@.map_values(|x: Expr| x@) =~= Seq::<ExprModel>::empty());
            }
            Ok(e)
        } else {
            Err(ParseError::TrailingOrEmptyExpr)
        }
    }
}

} // verus!
