//! Primitive operators applied to the operand stack.
use vstd::prelude::*;
use crate::value::{Term, Value, ProgramError, copy_value, lemma_models, models};
use crate::ops::{
    Arith, Logic, append, append_spec, arith, arith_spec, compare, compare_spec, cons, cons_spec,
    divide, divide_spec, empty, empty_spec, equal, equal_spec, head, head_spec, int_divide,
    int_divide_spec, length, length_spec, lift, logic, logic_spec, not, not_spec, parse_float,
    parse_float_spec, parse_integer, parse_integer_spec, tail, tail_spec, words, words_spec,
};
use crate::tokens::is_word;

verus! {

/// What a binary operator gives on `l` and `r` (for `l r op`); `None` for other tokens.
pub open spec fn binary_spec(op: Seq<char>, l: Term, r: Term) -> Option<Result<Term, ProgramError>> {
    if op == "+"@ {
        Some(arith_spec(Arith::Add, l, r))
    } else if op == "-"@ {
        Some(arith_spec(Arith::Sub, l, r))
    } else if op == "*"@ {
        Some(arith_spec(Arith::Mul, l, r))
    } else if op == "/"@ {
        Some(divide_spec(l, r))
    } else if op == "div"@ {
        Some(int_divide_spec(l, r))
    } else if op == "<"@ {
        Some(compare_spec(false, l, r))
    } else if op == ">"@ {
        Some(compare_spec(true, l, r))
    } else if op == "=="@ {
        Some(equal_spec(l, r))
    } else if op == "&&"@ {
        Some(logic_spec(Logic::And, l, r))
    } else if op == "||"@ {
        Some(logic_spec(Logic::Or, l, r))
    } else if op == "cons"@ {
        Some(cons_spec(l, r))
    } else if op == "append"@ {
        Some(append_spec(l, r))
    } else {
        None
    }
}

/// What a unary operator gives on `t`; `None` for other tokens.
pub open spec fn unary_spec(op: Seq<char>, t: Term) -> Option<Result<Term, ProgramError>> {
    if op == "not"@ {
        Some(not_spec(t))
    } else if op == "length"@ {
        Some(length_spec(t))
    } else if op == "words"@ {
        Some(words_spec(t))
    } else if op == "parseInteger"@ {
        Some(parse_integer_spec(t))
    } else if op == "parseFloat"@ {
        Some(parse_float_spec(t))
    } else if op == "empty"@ {
        Some(empty_spec(t))
    } else if op == "head"@ {
        Some(head_spec(t))
    } else if op == "tail"@ {
        Some(tail_spec(t))
    } else if op == "exec"@ {
        Some(Ok(t))
    } else {
        None
    }
}

pub open spec fn is_binary(op: Seq<char>) -> bool {
    binary_spec(op, Term::Boolean(true), Term::Boolean(true)) is Some
}

pub open spec fn is_unary(op: Seq<char>) -> bool {
    unary_spec(op, Term::Boolean(true)) is Some
}

/// The stack with an operator's outcome pushed, and the error it reports.
pub open spec fn push_outcome(s: Seq<Term>, r: Result<Term, ProgramError>) -> (Seq<Term>, Option<ProgramError>) {
    match r {
        Ok(v) => (s.push(v), None),
        Err(e) => (s, Some(e)),
    }
}

/// A primitive operator on the stack `s` (its top last): the new stack and the error it
/// reports, or `None` when `op` is no primitive. Operands are taken off the stack before
/// the operator runs and are not put back when it fails; a missing operand is
/// reported as `StackEmpty`.
pub open spec fn primitive_spec(op: Seq<char>, s: Seq<Term>) -> Option<(Seq<Term>, Option<ProgramError>)> {
    if is_binary(op) {
        Some(if s.len() >= 2 {
            push_outcome(s.drop_last().drop_last(), binary_spec(op, s[s.len() - 2], s.last()).unwrap())
        } else {
            (Seq::empty(), Some(ProgramError::StackEmpty))
        })
    } else if is_unary(op) {
        Some(if s.len() >= 1 {
            push_outcome(s.drop_last(), unary_spec(op, s.last()).unwrap())
        } else {
            (s, Some(ProgramError::StackEmpty))
        })
    } else if op == "swap"@ {
        Some(if s.len() >= 2 {
            (s.drop_last().drop_last().push(s.last()).push(s[s.len() - 2]), None)
        } else {
            (Seq::empty(), Some(ProgramError::StackEmpty))
        })
    } else if op == "dup"@ {
        Some(if s.len() >= 1 {
            (s.push(s.last()), None)
        } else {
            (s, Some(ProgramError::StackEmpty))
        })
    } else if op == "pop"@ {
        Some(if s.len() >= 1 {
            (s.drop_last(), None)
        } else {
            (s, Some(ProgramError::StackEmpty))
        })
    } else {
        None
    }
}

fn apply_binary(op: &Vec<char>, l: Value, r: Value) -> (res: Option<Result<Value, ProgramError>>)
    ensures
        match binary_spec(op@, l@, r@) {
            Some(x) => (res matches Some(y) && lift(y) == x),
            None => res is None,
        },
{
    if is_word(op, "+") {
        Some(arith(Arith::Add, l, r))
    } else if is_word(op, "-") {
        Some(arith(Arith::Sub, l, r))
    } else if is_word(op, "*") {
        Some(arith(Arith::Mul, l, r))
    } else if is_word(op, "/") {
        Some(divide(l, r))
    } else if is_word(op, "div") {
        Some(int_divide(l, r))
    } else if is_word(op, "<") {
        Some(compare(false, l, r))
    } else if is_word(op, ">") {
        Some(compare(true, l, r))
    } else if is_word(op, "==") {
        Some(equal(l, r))
    } else if is_word(op, "&&") {
        Some(logic(Logic::And, l, r))
    } else if is_word(op, "||") {
        Some(logic(Logic::Or, l, r))
    } else if is_word(op, "cons") {
        Some(cons(l, r))
    } else if is_word(op, "append") {
        Some(append(l, r))
    } else {
        None
    }
}

fn apply_unary(op: &Vec<char>, t: Value) -> (res: Option<Result<Value, ProgramError>>)
    ensures
        match unary_spec(op@, t@) {
            Some(x) => (res matches Some(y) && lift(y) == x),
            None => res is None,
        },
{
    if is_word(op, "not") {
        Some(not(t))
    } else if is_word(op, "length") {
        Some(length(t))
    } else if is_word(op, "words") {
        Some(words(t))
    } else if is_word(op, "parseInteger") {
        Some(parse_integer(t))
    } else if is_word(op, "parseFloat") {
        Some(parse_float(t))
    } else if is_word(op, "empty") {
        Some(empty(t))
    } else if is_word(op, "head") {
        Some(head(t))
    } else if is_word(op, "tail") {
        Some(tail(t))
    } else if is_word(op, "exec") {
        Some(Ok(t))
    } else {
        None
    }
}

fn is_binary_op(op: &Vec<char>) -> (r: bool)
    ensures
        r == is_binary(op@),
{
    is_word(op, "+") || is_word(op, "-") || is_word(op, "*") || is_word(op, "/")
        || is_word(op, "div") || is_word(op, "<") || is_word(op, ">") || is_word(op, "==")
        || is_word(op, "&&") || is_word(op, "||") || is_word(op, "cons") || is_word(op, "append")
}

fn is_unary_op(op: &Vec<char>) -> (r: bool)
    ensures
        r == is_unary(op@),
{
    is_word(op, "not") || is_word(op, "length") || is_word(op, "words")
        || is_word(op, "parseInteger") || is_word(op, "parseFloat") || is_word(op, "empty")
        || is_word(op, "head") || is_word(op, "tail") || is_word(op, "exec")
}

/// Pushes an operator's outcome, handing back the error it reports.
fn push_result(stack: &mut Vec<Value>, r: Result<Value, ProgramError>) -> (e: Option<ProgramError>)
    ensures
        (models(final(stack)@), e) == push_outcome(models(old(stack)@), lift(r)),
{
    match r {
        Ok(v) => {
            stack.push(v);
            assert(final(stack)@.drop_last() =~= old(stack)@);
            None
        },
        Err(e) => Some(e),
    }
}

/// Applies the primitive `op` to the stack. `None` when `op` is no primitive, the stack
/// then unchanged; else the error the operator reports, if any.
pub fn apply_primitive(op: &Vec<char>, stack: &mut Vec<Value>) -> (r: Option<Option<ProgramError>>)
    ensures
        match primitive_spec(op@, models(old(stack)@)) {
            Some((s, e)) => r == Some(e) && models(final(stack)@) == s,
            None => r is None && final(stack)@ == old(stack)@,
        },
{
    proof {
        lemma_models(old(stack)@);
    }
    let ghost s0 = old(stack)@;
    if is_binary_op(op) {
        let r = match stack.pop() {
            Some(r) => r,
            None => {
                return Some(Some(ProgramError::StackEmpty));
            },
        };
        let l = match stack.pop() {
            Some(l) => l,
            None => {
                proof {
                    lemma_models(stack@);
                }
                return Some(Some(ProgramError::StackEmpty));
            },
        };
        proof {
            assert(stack@ =~= s0.drop_last().drop_last());
            lemma_models(stack@);
            assert(models(stack@) =~= models(s0).drop_last().drop_last());
        }
        let out = apply_binary(op, l, r);
        match out {
            Some(x) => Some(push_result(stack, x)),
            None => Some(None),
        }
    } else if is_unary_op(op) {
        let t = match stack.pop() {
            Some(t) => t,
            None => {
                return Some(Some(ProgramError::StackEmpty));
            },
        };
        proof {
            assert(stack@ =~= s0.drop_last());
            lemma_models(stack@);
            assert(models(stack@) =~= models(s0).drop_last());
        }
        let out = apply_unary(op, t);
        match out {
            Some(x) => Some(push_result(stack, x)),
            None => Some(None),
        }
    } else if is_word(op, "swap") {
        let a = match stack.pop() {
            Some(a) => a,
            None => {
                return Some(Some(ProgramError::StackEmpty));
            },
        };
        let b = match stack.pop() {
            Some(b) => b,
            None => {
                proof {
                    lemma_models(stack@);
                }
                return Some(Some(ProgramError::StackEmpty));
            },
        };
        stack.push(a);
        stack.push(b);
        proof {
            lemma_models(stack@);
            assert(models(stack@) =~= models(s0).drop_last().drop_last().push(models(s0).last()).push(
                models(s0)[s0.len() - 2],
            ));
        }
        Some(None)
    } else if is_word(op, "dup") {
        let n = stack.len();
        if n == 0 {
            return Some(Some(ProgramError::StackEmpty));
        }
        let c = copy_value(&stack[n - 1]);
        stack.push(c);
        proof {
            lemma_models(stack@);
            assert(models(stack@) =~= models(s0).push(models(s0).last()));
        }
        Some(None)
    } else if is_word(op, "pop") {
        match stack.pop() {
            Some(_) => {
                proof {
                    lemma_models(stack@);
                    assert(models(stack@) =~= models(s0).drop_last());
                }
                Some(None)
            },
            None => Some(Some(ProgramError::StackEmpty)),
        }
    } else {
        None
    }
}

} // verus!
