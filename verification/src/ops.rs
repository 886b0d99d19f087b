//! Selection of the arithmetic operation from its textual mnemonic.

use vstd::prelude::*;

use crate::matrix::MatrixError;

verus! {

/// The three operations the library performs, each carrying the sign it is
/// displayed with.
#[derive(Clone, Copy, PartialEq, Eq, Structural, Debug)]
pub enum Op {
    Add(char),
    Sub(char),
    Mul(char),
}

/// The operation a token names: exactly `add`, `sub` or `mul`.
pub open spec fn op_of(s: Seq<u8>) -> Option<Op> {
    if s.len() == 3 && s[0] == 97 && s[1] == 100 && s[2] == 100 {
        Some(Op::Add('+'))
    } else if s.len() == 3 && s[0] == 115 && s[1] == 117 && s[2] == 98 {
        Some(Op::Sub('-'))
    } else if s.len() == 3 && s[0] == 109 && s[1] == 117 && s[2] == 108 {
        Some(Op::Mul('*'))
    } else {
        None
    }
}

/// Maps an operation token to the operation it names; any other token is an
/// invalid operation.
pub fn parse_op(token: &[u8]) -> (r: Result<Op, MatrixError>)
    ensures
        match op_of(token@) {
            Some(o) => r == Ok::<Op, MatrixError>(o),
            None => r == Err::<Op, MatrixError>(MatrixError::InvalidOperationError),
        },
{
    if token.len() == 3 {
        let t0 = token[0];
        let t1 = token[1];
        let t2 = token[2];
        if t0 == 97 && t1 == 100 && t2 == 100 {
            return Ok(Op::Add('+'));
        }
        if t0 == 115 && t1 == 117 && t2 == 98 {
            return Ok(Op::Sub('-'));
        }
        if t0 == 109 && t1 == 117 && t2 == 108 {
            return Ok(Op::Mul('*'));
        }
    }
    Err(MatrixError::InvalidOperationError)
}

} // verus!
