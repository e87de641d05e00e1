//! An interpreter for a small postfix, stack-based language with quoted code blocks.
use vstd::prelude::*;

pub mod bigint;
pub mod eval;
pub mod eval_spec;
pub mod laws;
pub mod literal;
pub mod machine;
pub mod ops;
pub mod text;
pub mod tokens;
pub mod value;

use crate::eval::{MAX_DEPTH, evaluate};
use crate::eval_spec::eval_spec;
use crate::ops::lift;
use crate::value::{ProgramError, Value};

verus! {

/// The characters of `s`.
pub fn chars_of(s: &str) -> (r: Vec<char>)
    ensures
        r@ == s@,
{
    let n = s.unicode_len();
    let mut out: Vec<char> = Vec::new();
    let mut i: usize = 0;
    while i < n
        invariant
            n == s@.len(),
            i <= n,
            out@ == s@.subrange(0, i as int),
        decreases n - i,
    {
        out.push(s.get_char(i));
        i = i + 1;
        assert(out@ =~= s@.subrange(0, i as int));
    }
    assert(s@.subrange(0, n as int) =~= s@);
    out
}

/// Interprets one line, appending to `log` the errors that operators report on the way.
pub fn interpret_logged(line: &str, log: &mut Vec<ProgramError>) -> (r: Result<Value, ProgramError>)
    ensures
        lift(r) == eval_spec(line@, MAX_DEPTH as nat).0,
        final(log)@ == old(log)@ + eval_spec(line@, MAX_DEPTH as nat).1,
{
    let chars = chars_of(line);
    evaluate(&chars, MAX_DEPTH, log)
}

/// Interprets one line: its single resulting value, or the error that ended it.
pub fn interpret(line: &str) -> (r: Result<Value, ProgramError>)
    ensures
        lift(r) == eval_spec(line@, MAX_DEPTH as nat).0,
{
    let mut log: Vec<ProgramError> = Vec::new();
    interpret_logged(line, &mut log)
}

} // verus!
