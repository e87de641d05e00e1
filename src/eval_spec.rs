//! The meaning of a program: evaluation of a line, with nested evaluations bounded by a depth.
use vstd::prelude::*;
use crate::value::{Term, ProgramError, text_of};
use crate::tokens::{literal_spec, tokens_of};
use crate::machine::primitive_spec;

verus! {

/// What one token does at one level of evaluation: the tokens left after it, the new
/// stack, and the error it reports; or an error that ends the line.
pub type Outcome = Result<(Seq<Seq<char>>, Seq<Term>, Option<ProgramError>), ProgramError>;

/// A result together with the errors reported on the way to it, in order.
pub type Logged<T> = (T, Seq<ProgramError>);

/// The errors a step reports: none or one.
pub open spec fn reported(e: Option<ProgramError>) -> Seq<ProgramError> {
    match e {
        Some(x) => seq![x],
        None => Seq::empty(),
    }
}

/// The operand a combinator reads from the tokens after it (`rest`): the literal there, or
/// the bare token as a quotation (flagged `true`); `None` when no token is left. Also the
/// tokens left after it.
pub open spec fn operand_spec(rest: Seq<Seq<char>>) -> Result<(Option<(Term, bool)>, Seq<Seq<char>>), ProgramError> {
    if rest.len() == 0 {
        Ok((None, rest))
    } else {
        match literal_spec(rest[0], rest.skip(1)) {
            Some(Err(e)) => Err(e),
            Some(Ok((v, n))) => if n <= rest.len() - 1 {
                Ok((Some((v, false)), rest.skip(1).skip(n as int)))
            } else {
                Err(ProgramError::IncompleteList)
            },
            None => Ok((Some((Term::Quotation(rest[0]), true)), rest.skip(1))),
        }
    }
}

/// The stack with its top `k` values taken off (all of them when there are fewer).
pub open spec fn drop_top(s: Seq<Term>, k: nat) -> Seq<Term> {
    if s.len() >= k {
        s.subrange(0, s.len() - k)
    } else {
        Seq::empty()
    }
}

/// Program text `a b` of two texts.
pub open spec fn spaced(a: Seq<char>, b: Seq<char>) -> Seq<char> {
    a + seq![' '] + b
}

/// The texts of the stack's values, each followed by a space.
pub open spec fn stack_text(s: Seq<Term>) -> Seq<char>
    decreases s.len(),
{
    if s.len() == 0 {
        Seq::empty()
    } else {
        stack_text(s.drop_last()) + text_of(s.last()) + seq![' ']
    }
}

/// Evaluation of a line with `depth` levels of nesting allowed: its result, and the errors
/// that operators reported on the way, nested evaluations included.
pub open spec fn eval_spec(line: Seq<char>, depth: nat) -> Logged<Result<Term, ProgramError>>
    decreases depth, 1nat, 0nat,
{
    if depth == 0 {
        (Err(ProgramError::RecursionLimit), Seq::empty())
    } else {
        run_spec(tokens_of(line), Seq::empty(), None, depth)
    }
}

/// The end of a line: one value is the result, a quotation run; several are written back
/// as text and run again; none is the last reported error, or `StackEmpty`.
pub open spec fn finish_spec(s: Seq<Term>, last: Option<ProgramError>, depth: nat) -> Logged<Result<Term, ProgramError>>
    decreases depth, 0nat, 0nat,
{
    if depth == 0 {
        (Err(ProgramError::RecursionLimit), Seq::empty())
    } else if s.len() == 0 {
        (Err(match last {
            Some(e) => e,
            None => ProgramError::StackEmpty,
        }), Seq::empty())
    } else if s.len() == 1 {
        match s[0] {
            Term::Quotation(c) => eval_spec(c, (depth - 1) as nat),
            v => (Ok(v), Seq::empty()),
        }
    } else {
        eval_spec(stack_text(s), (depth - 1) as nat)
    }
}

/// The tokens `rest` run on the stack `s`; `last` is the last error reported so far.
pub open spec fn run_spec(rest: Seq<Seq<char>>, s: Seq<Term>, last: Option<ProgramError>, depth: nat) -> Logged<Result<Term, ProgramError>>
    decreases depth, 0nat, rest.len() + 1,
{
    if depth == 0 {
        (Err(ProgramError::RecursionLimit), Seq::empty())
    } else if rest.len() == 0 {
        finish_spec(s, last, depth)
    } else {
        let st = step_spec(rest[0], rest.skip(1), s, depth);
        match st.0 {
            Err(e) => (Err(e), st.1),
            Ok((r, s2, e)) => if r.len() < rest.len() {
                let next = run_spec(r, s2, if e is Some { e } else { last }, depth);
                (next.0, st.1 + next.1)
            } else {
                (Err(ProgramError::InvalidOperation), st.1)
            },
        }
    }
}

/// What the token `t` does, with `rest` the tokens after it.
pub open spec fn step_spec(t: Seq<char>, rest: Seq<Seq<char>>, s: Seq<Term>, depth: nat) -> Logged<Outcome>
    decreases depth, 0nat, 0nat,
{
    match literal_spec(t, rest) {
        Some(Err(e)) => (Err(e), Seq::empty()),
        Some(Ok((v, n))) => if n <= rest.len() {
            (Ok((rest.skip(n as int), s.push(v), None)), Seq::empty())
        } else {
            (Err(ProgramError::IncompleteList), Seq::empty())
        },
        None => match primitive_spec(t, s) {
            Some((s2, e)) => (Ok((rest, s2, e)), reported(e)),
            None => if depth == 0 {
                (Err(ProgramError::RecursionLimit), Seq::empty())
            } else {
                let c = combinator_spec(t, rest, s, (depth - 1) as nat);
                match c.0 {
                    Ok((_, _, e)) => (c.0, c.1 + reported(e)),
                    Err(_) => c,
                }
            },
        },
    }
}

/// A combinator, whose nested evaluations get `inner` levels; the log holds what those
/// nested evaluations reported.
pub open spec fn combinator_spec(t: Seq<char>, rest: Seq<Seq<char>>, s: Seq<Term>, inner: nat) -> Logged<Outcome>
    decreases inner, 3nat, 0nat,
{
    if t == "if"@ {
        (if_spec(rest, s), Seq::empty())
    } else if t == "map"@ || t == "each"@ {
        match operand_spec(rest) {
            Err(e) => (Err(e), Seq::empty()),
            Ok((None, r)) => (Ok((r, drop_top(s, 1), Some(ProgramError::InvalidOperation))), Seq::empty()),
            Ok((Some((b, _)), r)) => if s.len() == 0 {
                (Ok((r, s, Some(ProgramError::StackEmpty))), Seq::empty())
            } else {
                match s.last() {
                    Term::List(items) => {
                        let m = map_spec(items, text_of(b), inner);
                        (match m.0 {
                            Err(e) => Ok((r, s.drop_last(), Some(e))),
                            Ok(xs) => if t == "map"@ {
                                Ok((r, s.drop_last().push(Term::List(xs)), None))
                            } else if xs.len() == 0 {
                                Ok((r, s.drop_last(), Some(ProgramError::InvalidOperation)))
                            } else {
                                Ok((r, s.drop_last() + xs, None))
                            },
                        }, m.1)
                    },
                    _ => (Ok((r, s.drop_last(), Some(ProgramError::ExpectedList))), Seq::empty()),
                }
            },
        }
    } else if t == "foldl"@ {
        match operand_spec(rest) {
            Err(e) => (Err(e), Seq::empty()),
            Ok((None, r)) => (Ok((r, drop_top(s, 2), Some(ProgramError::InvalidOperation))), Seq::empty()),
            Ok((Some((b, _)), r)) => if s.len() < 2 {
                (Ok((r, Seq::empty(), Some(ProgramError::StackEmpty))), Seq::empty())
            } else {
                let rest_stack = s.drop_last().drop_last();
                match (s[s.len() - 2], s.last()) {
                    (Term::List(items), Term::Int(a)) => {
                        let f = fold_spec(Term::Int(a), items, text_of(b), inner);
                        (match f.0 {
                            Ok(x) => Ok((r, rest_stack.push(x), None)),
                            Err(e) => Ok((r, rest_stack, Some(e))),
                        }, f.1)
                    },
                    (Term::List(_), _) => (Ok((r, rest_stack, Some(ProgramError::ExpectedNumber))), Seq::empty()),
                    _ => (Ok((r, rest_stack, Some(ProgramError::ExpectedList))), Seq::empty()),
                }
            },
        }
    } else if t == "times"@ {
        match operand_spec(rest) {
            Err(e) => (Err(e), Seq::empty()),
            Ok((None, r)) => (Ok((r, drop_top(s, 1), Some(ProgramError::InvalidOperation))), Seq::empty()),
            Ok((Some((b, raw)), r)) => {
                let body: Logged<Result<Term, ProgramError>> = match b {
                    Term::Quotation(c) => if raw { (Ok(b), Seq::empty()) } else { eval_spec(c, inner) },
                    _ => (Ok(b), Seq::empty()),
                };
                (match body.0 {
                    Err(e) => Ok((r, drop_top(s, 1), Some(e))),
                    Ok(v) => if s.len() == 0 {
                        Ok((r, s, Some(ProgramError::StackEmpty)))
                    } else {
                        match s.last() {
                            Term::Int(n) => if n >= 1 {
                                Ok((r, s.drop_last() + Seq::new(n as nat, |i: int| v), None))
                            } else {
                                Ok((r, s.drop_last().push(Term::List(Seq::empty())), None))
                            },
                            _ => Ok((r, s.drop_last(), Some(ProgramError::ExpectedNumber))),
                        }
                    },
                }, body.1)
            },
        }
    } else {
        (Ok((rest, s, Some(ProgramError::InvalidOperation))), Seq::empty())
    }
}

/// `p if a b`: the two operands read, then the truth value taken off the stack picks one.
pub open spec fn if_spec(rest: Seq<Seq<char>>, s: Seq<Term>) -> Outcome {
    match operand_spec(rest) {
        Err(e) => Err(e),
        Ok((None, r)) => Ok((r, drop_top(s, 1), Some(ProgramError::InvalidOperation))),
        Ok((Some((a, _)), r1)) => match operand_spec(r1) {
            Err(e) => Err(e),
            Ok((None, r)) => Ok((r, drop_top(s, 1), Some(ProgramError::InvalidOperation))),
            Ok((Some((b, _)), r)) => if s.len() == 0 {
                Ok((r, s, Some(ProgramError::StackEmpty)))
            } else {
                match s.last() {
                    Term::Boolean(p) => Ok((r, s.drop_last().push(if p { a } else { b }), None)),
                    _ => Ok((r, s.drop_last(), Some(ProgramError::ExpectedBool))),
                }
            },
        },
    }
}

/// One item of `map`: the item's text followed by the code is run; a quotation that
/// comes out is run once more after the item's text.
pub open spec fn map_item_spec(x: Term, code: Seq<char>, inner: nat) -> Logged<Result<Term, ProgramError>>
    decreases inner, 2nat, 0nat,
{
    let first = eval_spec(spaced(text_of(x), code), inner);
    match first.0 {
        Ok(Term::Quotation(c)) => {
            let second = eval_spec(spaced(text_of(x), c), inner);
            (second.0, first.1 + second.1)
        },
        _ => first,
    }
}

/// `map` over the items, front to back; the first error ends it.
pub open spec fn map_spec(items: Seq<Term>, code: Seq<char>, inner: nat) -> Logged<Result<Seq<Term>, ProgramError>>
    decreases inner, 2nat, items.len() + 1,
{
    if items.len() == 0 {
        (Ok(Seq::empty()), Seq::empty())
    } else {
        let h = map_item_spec(items[0], code, inner);
        match h.0 {
            Err(e) => (Err(e), h.1),
            Ok(x) => {
                let t = map_spec(items.skip(1), code, inner);
                (match t.0 {
                    Err(e) => Err(e),
                    Ok(xs) => Ok(seq![x] + xs),
                }, h.1 + t.1)
            },
        }
    }
}

/// `foldl`: each step runs `acc item code`.
pub open spec fn fold_spec(acc: Term, items: Seq<Term>, code: Seq<char>, inner: nat) -> Logged<Result<Term, ProgramError>>
    decreases inner, 2nat, items.len() + 1,
{
    if items.len() == 0 {
        (Ok(acc), Seq::empty())
    } else {
        let h = eval_spec(spaced(spaced(text_of(acc), text_of(items[0])), code), inner);
        match h.0 {
            Err(e) => (Err(e), h.1),
            Ok(a) => {
                let t = fold_spec(a, items.skip(1), code, inner);
                (t.0, h.1 + t.1)
            },
        }
    }
}

} // verus!
