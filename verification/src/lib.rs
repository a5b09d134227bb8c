//! A verified interpreter for a lazily evaluated functional language that is
//! transmitted as whitespace-separated tokens in a base-94 wire encoding,
//! together with the codecs, the parser, a string-compression planner and a
//! few verified helpers used by the surrounding tooling.

pub mod ascii;
pub mod assemble;
pub mod ast;
pub mod bignum;
pub mod errors;
pub mod token;
pub mod union_find;
pub mod visualizer;

use vstd::prelude::*;

use crate::ast::{render_model, spec_eval, spec_from_tokens, Expr};
use crate::errors::Error;
use crate::token::Token;

verus! {

/// Parses a token sequence and evaluates the resulting expression under the
/// given application bound, rendering the final value as text: a string
/// value as its text, a scalar in its printed form.
pub fn eval_tokens(tokens: &[Token], fuel: u64) -> (r: Result<String, Error>)
    ensures
        ({
            let ts = tokens@.map_values(|t: Token| t@);
            match r {
                Ok(out) => {
                    &&& spec_from_tokens(ts) is Ok
                    &&& spec_eval(spec_from_tokens(ts)->Ok_0, fuel as nat) is Ok
                    &&& out@ == render_model(
                        spec_eval(spec_from_tokens(ts)->Ok_0, fuel as nat)->Ok_0,
                    )
                },
                Err(Error::Parse(e)) => spec_from_tokens(ts) == Err::<
                    crate::ast::ExprModel,
                    crate::errors::ParseError,
                >(e),
                Err(Error::Eval(e)) => spec_from_tokens(ts) is Ok && spec_eval(
                    spec_from_tokens(ts)->Ok_0,
                    fuel as nat,
                ) == Err::<crate::ast::ValueModel, crate::errors::EvalError>(e),
                Err(Error::Decode(_)) => false,
            }
        }),
{
    let expr = match Expr::from_tokens(tokens) {
        Ok(e) => e,
        Err(e) => {
            return Err(Error::Parse(e));
        },
    };
    match expr.eval(fuel) {
        Ok(v) => Ok(v.render()),
        Err(e) => Err(Error::Eval(e)),
    }
}

} // verus!
