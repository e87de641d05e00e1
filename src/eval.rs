//! The evaluator: runs a line on an operand stack.
use vstd::prelude::*;
use crate::value::{
    Term, Value, ProgramError, copy_value, format_value, lemma_models, lemma_models_concat,
    lemma_models_push, model, models, text_of,
};
use crate::text::append_chars;
use crate::bigint::BigInt;
use crate::tokens::{Tokens, is_word, read_literal};
use crate::machine::apply_primitive;
use crate::ops::lift;
use crate::eval_spec::{
    combinator_spec, eval_spec, finish_spec, fold_spec, if_spec, map_item_spec, map_spec,
    drop_top, operand_spec, reported, run_spec, spaced, stack_text, step_spec,
};

verus! {

/// How deep evaluations may nest when a line is interpreted.
pub const MAX_DEPTH: u32 = 200;

pub open spec fn lift_items(r: Result<Vec<Value>, ProgramError>) -> Result<Seq<Term>, ProgramError> {
    match r {
        Ok(v) => Ok(models(v@)),
        Err(e) => Err(e),
    }
}

/// `a b` as program text.
fn spaced_text(a: &Vec<char>, b: &Vec<char>) -> (r: Vec<char>)
    ensures
        r@ == spaced(a@, b@),
{
    let mut out: Vec<char> = Vec::new();
    append_chars(&mut out, a);
    out.push(' ');
    append_chars(&mut out, b);
    out
}

/// Reads a combinator's operand.
fn read_operand(ts: &mut Tokens) -> (r: Result<Option<(Value, bool)>, ProgramError>)
    requires
        old(ts).wf(),
    ensures
        final(ts).wf(),
        final(ts).words == old(ts).words,
        final(ts).next >= old(ts).next,
        match operand_spec(old(ts).rest()) {
            Err(e) => r == Err::<Option<(Value, bool)>, ProgramError>(e),
            Ok((None, rest)) => r matches Ok(None) && final(ts).rest() == rest,
            Ok((Some((v, raw)), rest)) => (r matches Ok(Some((x, f))) && x@ == v && f == raw)
                && final(ts).rest() == rest,
        },
{
    match ts.take() {
        None => Ok(None),
        Some(t) => {
            match read_literal(ts, &t) {
                Some(Err(e)) => Err(e),
                Some(Ok(v)) => Ok(Some((v, false))),
                None => {
                    let q = Value::Quotation(t);
                    Ok(Some((q, true)))
                },
            }
        },
    }
}

/// Evaluates `line`, with `depth` levels of nested evaluation allowed. Errors that
/// operators report on the way are appended to `log`.
pub fn evaluate(line: &Vec<char>, depth: u32, log: &mut Vec<ProgramError>) -> (r: Result<Value, ProgramError>)
    ensures
        lift(r) == eval_spec(line@, depth as nat).0,
        final(log)@ == old(log)@ + eval_spec(line@, depth as nat).1,
    decreases depth, 1nat, 0nat,
{
    if depth == 0 {
        assert(log@ + Seq::<ProgramError>::empty() =~= log@);
        return Err(ProgramError::RecursionLimit);
    }
    let mut ts = Tokens::of_line(line);
    let mut stack: Vec<Value> = Vec::new();
    let mut last: Option<ProgramError> = None;
    assert(models(stack@) =~= Seq::<Term>::empty());
    loop
        invariant
            depth > 0,
            ts.wf(),
            eval_spec(line@, depth as nat).0 == run_spec(ts.rest(), models(stack@), last, depth as nat).0,
            old(log)@ + eval_spec(line@, depth as nat).1 == log@ + run_spec(ts.rest(), models(stack@), last, depth as nat).1,
        ensures
            eval_spec(line@, depth as nat).0 == run_spec(ts.rest(), models(stack@), last, depth as nat).0,
            old(log)@ + eval_spec(line@, depth as nat).1 == log@ + run_spec(ts.rest(), models(stack@), last, depth as nat).1,
            ts.rest().len() == 0,
        decreases ts.rest().len(),
    {
        let ghost log0 = log@;
        let ghost rest0 = ts.rest();
        let ghost s0 = models(stack@);
        let ghost last0 = last;
        let t = match ts.take() {
            None => {
                break;
            },
            Some(t) => t,
        };
        let stepped = step(&t, &mut ts, &mut stack, depth, log);
        proof {
            let st = step_spec(t@, rest0.skip(1), s0, depth as nat);
            match st.0 {
                Err(_) => {},
                Ok((r, s2, e)) => {
                    let nl = if e is Some { e } else { last0 };
                    let next = run_spec(r, s2, nl, depth as nat);
                    assert(log0 + (st.1 + next.1) =~= log@ + next.1);
                },
            }
        }
        let e = match stepped {
            Err(e) => {
                return Err(e);
            },
            Ok(e) => e,
        };
        if e.is_some() {
            last = e;
        }
    }
    finish(stack, last, depth, log)
}

/// The end of a line.
fn finish(stack: Vec<Value>, last: Option<ProgramError>, depth: u32, log: &mut Vec<ProgramError>) -> (r: Result<Value, ProgramError>)
    requires
        depth > 0,
    ensures
        lift(r) == finish_spec(models(stack@), last, depth as nat).0,
        final(log)@ == old(log)@ + finish_spec(models(stack@), last, depth as nat).1,
    decreases depth, 0nat, 5nat,
{
    proof {
        lemma_models(stack@);
    }
    let mut stack = stack;
    if stack.len() == 0 {
        assert(log@ + Seq::<ProgramError>::empty() =~= log@);
        return Err(match last {
            Some(e) => e,
            None => ProgramError::StackEmpty,
        });
    }
    if stack.len() == 1 {
        let v = stack.pop().unwrap();
        return match v {
            Value::Quotation(c) => evaluate(&c, depth - 1, log),
            v => {
                assert(log@ + Seq::<ProgramError>::empty() =~= log@);
                Ok(v)
            },
        };
    }
    let mut text: Vec<char> = Vec::new();
    let mut i: usize = 0;
    assert(models(stack@).take(0) =~= Seq::<Term>::empty());
    while i < stack.len()
        invariant
            i <= stack@.len(),
            models(stack@).len() == stack@.len(),
            forall|j: int| 0 <= j < stack@.len() ==> #[trigger] models(stack@)[j] == model(stack@[j]),
            text@ == stack_text(models(stack@).take(i as int)),
        decreases stack@.len() - i,
    {
        let f = format_value(&stack[i]);
        append_chars(&mut text, &f);
        text.push(' ');
        assert(models(stack@).take(i + 1).drop_last() =~= models(stack@).take(i as int));
        i = i + 1;
    }
    assert(models(stack@).take(i as int) =~= models(stack@));
    evaluate(&text, depth - 1, log)
}

/// What the token `t` does to the stack, taking from `ts` what it reads. `Err` ends the
/// line; `Ok` holds the error the token reports, if any.
fn step(t: &Vec<char>, ts: &mut Tokens, stack: &mut Vec<Value>, depth: u32, log: &mut Vec<ProgramError>) -> (r: Result<Option<ProgramError>, ProgramError>)
    requires
        old(ts).wf(),
        depth > 0,
    ensures
        final(ts).wf(),
        final(ts).words == old(ts).words,
        final(ts).next >= old(ts).next,
        final(log)@ == old(log)@ + step_spec(t@, old(ts).rest(), models(old(stack)@), depth as nat).1,
        match step_spec(t@, old(ts).rest(), models(old(stack)@), depth as nat).0 {
            Err(e) => r == Err::<Option<ProgramError>, ProgramError>(e),
            Ok((rest, s, e)) => r == Ok::<Option<ProgramError>, ProgramError>(e) && final(ts).rest() == rest
                && models(final(stack)@) == s,
        },
    decreases depth, 0nat, 9nat,
{
    match read_literal(ts, t) {
        Some(Err(e)) => {
            assert(log@ + Seq::<ProgramError>::empty() =~= log@);
            return Err(e);
        },
        Some(Ok(v)) => {
            let ghost st = stack@;
            stack.push(v);
            proof {
                assert(stack@.drop_last() =~= st);
                assert(log@ + Seq::<ProgramError>::empty() =~= log@);
            }
            return Ok(None);
        },
        None => {},
    }
    match apply_primitive(t, stack) {
        Some(e) => {
            report(log, e);
            return Ok(e);
        },
        None => {},
    }
    let ghost log0 = log@;
    let r = combinator(t, ts, stack, depth - 1, log);
    let ghost log1 = log@;
    match r {
        Ok(e) => {
            report(log, e);
            proof {
                let c = combinator_spec(t@, old(ts).rest(), models(old(stack)@), (depth - 1) as nat);
                assert(log0 + (c.1 + reported(e)) =~= log@);
            }
            Ok(e)
        },
        Err(e) => Err(e),
    }
}

/// Appends a reported error to the log.
fn report(log: &mut Vec<ProgramError>, e: Option<ProgramError>)
    ensures
        final(log)@ == old(log)@ + reported(e),
{
    match e {
        Some(x) => log.push(x),
        None => {},
    }
    assert(final(log)@ =~= old(log)@ + reported(e));
}

/// The results computed so far, in front of what the remaining items give.
pub open spec fn prefix_then(done: Seq<Term>, r: Result<Seq<Term>, ProgramError>) -> Result<Seq<Term>, ProgramError> {
    match r {
        Ok(xs) => Ok(done + xs),
        Err(e) => Err(e),
    }
}

/// The pop that a combinator makes, with the model of the stack after it.
fn pop_value(stack: &mut Vec<Value>) -> (r: Option<Value>)
    ensures
        old(stack)@.len() == 0 ==> r is None && final(stack)@ == old(stack)@,
        old(stack)@.len() > 0 ==> (r matches Some(v) && v@ == models(old(stack)@).last())
            && models(final(stack)@) == models(old(stack)@).drop_last(),
{
    proof {
        lemma_models(old(stack)@);
    }
    let r = stack.pop();
    proof {
        if old(stack)@.len() > 0 {
            assert(old(stack)@.drop_last() =~= final(stack)@);
        }
    }
    r
}

fn push_value(stack: &mut Vec<Value>, v: Value)
    ensures
        models(final(stack)@) == models(old(stack)@).push(v@),
{
    let ghost s = stack@;
    let ghost vm = v;
    stack.push(v);
    proof {
        lemma_models_push(s, vm);
    }
}

/// `p if a b`.
fn if_combinator(ts: &mut Tokens, stack: &mut Vec<Value>) -> (r: Result<Option<ProgramError>, ProgramError>)
    requires
        old(ts).wf(),
    ensures
        final(ts).wf(),
        final(ts).words == old(ts).words,
        final(ts).next >= old(ts).next,
        match if_spec(old(ts).rest(), models(old(stack)@)) {
            Err(e) => r == Err::<Option<ProgramError>, ProgramError>(e),
            Ok((rest, s, e)) => r == Ok::<Option<ProgramError>, ProgramError>(e) && final(ts).rest() == rest
                && models(final(stack)@) == s,
        },
{
    let a = match read_operand(ts)? {
        None => {
            discard(stack, 1);
            return Ok(Some(ProgramError::InvalidOperation));
        },
        Some((a, _)) => a,
    };
    let b = match read_operand(ts)? {
        None => {
            discard(stack, 1);
            return Ok(Some(ProgramError::InvalidOperation));
        },
        Some((b, _)) => b,
    };
    match pop_value(stack) {
        None => Ok(Some(ProgramError::StackEmpty)),
        Some(Value::Boolean(p)) => {
            push_value(stack, if p { a } else { b });
            Ok(None)
        },
        Some(_) => Ok(Some(ProgramError::ExpectedBool)),
    }
}

/// One item of `map`.
#[verifier::rlimit(50)]
fn map_item(x: &Value, code: &Vec<char>, inner: u32, log: &mut Vec<ProgramError>) -> (r: Result<Value, ProgramError>)
    ensures
        lift(r) == map_item_spec(x@, code@, inner as nat).0,
        final(log)@ == old(log)@ + map_item_spec(x@, code@, inner as nat).1,
    decreases inner, 1nat, 5nat,
{
    let xt = format_value(x);
    let prog = spaced_text(&xt, code);
    let r = evaluate(&prog, inner, log);
    match r {
        Ok(Value::Quotation(c)) => {
            let again = spaced_text(&xt, &c);
            let ghost log1 = log@;
            let r2 = evaluate(&again, inner, log);
            proof {
                let first = eval_spec(spaced(text_of(x@), code@), inner as nat);
                let second = eval_spec(spaced(text_of(x@), c@), inner as nat);
                assert(old(log)@ + (first.1 + second.1) =~= log@);
            }
            r2
        },
        r => r,
    }
}

/// One more item of `map`, from the `i`-th on.
#[verifier::rlimit(80)]
proof fn lemma_map_unfold(all: Seq<Term>, i: int, code: Seq<char>, inner: nat)
    requires
        0 <= i < all.len(),
    ensures
        ({
            let h = map_item_spec(all[i], code, inner);
            let t = map_spec(all.skip(i + 1), code, inner);
            map_spec(all.skip(i), code, inner) == match h.0 {
                Err(e) => (Err(e), h.1),
                Ok(x) => (match t.0 {
                    Err(e) => Err(e),
                    Ok(xs) => Ok(seq![x] + xs),
                }, h.1 + t.1),
            }
        }),
{
    assert(all.skip(i)[0] == all[i]);
    assert(all.skip(i).skip(1) =~= all.skip(i + 1));
}

/// `map` over the items.
#[verifier::rlimit(100)]
fn map_items(items: Vec<Value>, code: &Vec<char>, inner: u32, log: &mut Vec<ProgramError>) -> (r: Result<Vec<Value>, ProgramError>)
    ensures
        lift_items(r) == map_spec(models(items@), code@, inner as nat).0,
        final(log)@ == old(log)@ + map_spec(models(items@), code@, inner as nat).1,
    decreases inner, 2nat, 0nat,
{
    proof {
        lemma_models(items@);
    }
    let ghost all = models(items@);
    let mut out: Vec<Value> = Vec::new();
    let mut i: usize = 0;
    assert(all.skip(0) =~= all);
    assert(models(out@) + Seq::<Term>::empty() =~= Seq::<Term>::empty());
    while i < items.len()
        invariant
            i <= items@.len(),
            all == models(items@),
            all.len() == items@.len(),
            forall|j: int| 0 <= j < items@.len() ==> #[trigger] all[j] == model(items@[j]),
            map_spec(all, code@, inner as nat).0 == prefix_then(models(out@), map_spec(all.skip(i as int), code@, inner as nat).0),
            old(log)@ + map_spec(all, code@, inner as nat).1 == log@ + map_spec(all.skip(i as int), code@, inner as nat).1,
        decreases items@.len() - i,
    {
        let ghost log0 = log@;
        proof {
            lemma_map_unfold(all, i as int, code@, inner as nat);
        }
        let x = map_item(&items[i], code, inner, log);
        proof {
            let h = map_item_spec(all[i as int], code@, inner as nat);
            let t = map_spec(all.skip(i + 1), code@, inner as nat);
            assert(log0 + (h.1 + t.1) =~= log@ + t.1);
        }
        match x {
            Err(e) => {
                return Err(e);
            },
            Ok(v) => {
                let ghost before = out@;
                let ghost vm = v@;
                out.push(v);
                proof {
                    lemma_models_push(before, v);
                    match map_spec(all.skip(i + 1), code@, inner as nat).0 {
                        Ok(xs) => {
                            assert(models(before).push(vm) + xs =~= models(before) + (seq![vm] + xs));
                        },
                        Err(_) => {},
                    }
                }
            },
        }
        i = i + 1;
    }
    assert(all.skip(i as int) =~= Seq::<Term>::empty());
    assert(models(out@) + Seq::<Term>::empty() =~= models(out@));
    assert(log@ + Seq::<ProgramError>::empty() =~= log@);
    Ok(out)
}

/// `foldl` over the items.
#[verifier::rlimit(60)]
fn fold_items(start: Value, items: Vec<Value>, code: &Vec<char>, inner: u32, log: &mut Vec<ProgramError>) -> (r: Result<Value, ProgramError>)
    ensures
        lift(r) == fold_spec(start@, models(items@), code@, inner as nat).0,
        final(log)@ == old(log)@ + fold_spec(start@, models(items@), code@, inner as nat).1,
    decreases inner, 2nat, 0nat,
{
    proof {
        lemma_models(items@);
    }
    let ghost all = models(items@);
    let mut acc = start;
    let mut i: usize = 0;
    assert(all.skip(0) =~= all);
    while i < items.len()
        invariant
            i <= items@.len(),
            all == models(items@),
            all.len() == items@.len(),
            forall|j: int| 0 <= j < items@.len() ==> #[trigger] all[j] == model(items@[j]),
            fold_spec(start@, all, code@, inner as nat).0 == fold_spec(acc@, all.skip(i as int), code@, inner as nat).0,
            old(log)@ + fold_spec(start@, all, code@, inner as nat).1 == log@ + fold_spec(acc@, all.skip(i as int), code@, inner as nat).1,
        decreases items@.len() - i,
    {
        let ghost log0 = log@;
        let ghost acc0 = acc@;
        let ghost rest = all.skip(i as int);
        assert(rest[0] == all[i as int]);
        assert(rest.skip(1) =~= all.skip(i + 1));
        let at = format_value(&acc);
        let it = format_value(&items[i]);
        let prog = spaced_text(&spaced_text(&at, &it), code);
        let r = evaluate(&prog, inner, log);
        proof {
            let h = eval_spec(spaced(spaced(text_of(acc0), text_of(all[i as int])), code@), inner as nat);
            if let Ok(a) = h.0 {
                let t = fold_spec(a, all.skip(i + 1), code@, inner as nat);
                assert(log0 + (h.1 + t.1) =~= log@ + t.1);
            }
        }
        match r {
            Err(e) => {
                return Err(e);
            },
            Ok(a) => {
                acc = a;
            },
        }
        i = i + 1;
    }
    assert(all.skip(i as int) =~= Seq::<Term>::empty());
    assert(log@ + Seq::<ProgramError>::empty() =~= log@);
    Ok(acc)
}

/// Takes the top `k` values off the stack, or all of them when there are fewer.
fn discard(stack: &mut Vec<Value>, k: usize)
    requires
        1 <= k <= 2,
    ensures
        models(final(stack)@) == drop_top(models(old(stack)@), k as nat),
{
    proof {
        lemma_models(old(stack)@);
    }
    let ghost s0 = models(stack@);
    let _ = pop_value(stack);
    if k == 2 {
        let ghost s1 = models(stack@);
        let _ = pop_value(stack);
        proof {
            if s0.len() >= 2 {
                assert(s0.drop_last().drop_last() =~= s0.subrange(0, s0.len() - 2));
            } else if s0.len() == 1 {
                lemma_models(stack@);
                assert(models(stack@) =~= Seq::<Term>::empty());
            }
        }
    } else {
        proof {
            if s0.len() >= 1 {
                assert(s0.drop_last() =~= s0.subrange(0, s0.len() - 1));
            }
        }
    }
    proof {
        if s0.len() == 0 {
            assert(models(stack@) =~= Seq::<Term>::empty());
        }
    }
}

/// Pushes `n` copies of `v`.
fn push_copies(stack: &mut Vec<Value>, v: &Value, n: &BigInt)
    requires
        n.value() >= 1,
    ensures
        models(final(stack)@) == models(old(stack)@) + Seq::new(n.value() as nat, |i: int| v@),
{
    let one = BigInt::from_i128(1);
    let mut k = n.copy();
    assert(models(stack@) + Seq::new(0, |i: int| v@) =~= models(stack@));
    while k.is_positive()
        invariant
            0 <= k.value() <= n.value(),
            one.value() == 1,
            models(stack@) == models(old(stack)@) + Seq::new((n.value() - k.value()) as nat, |i: int| v@),
        decreases k.value(),
    {
        let ghost done = (n.value() - k.value()) as nat;
        let c = copy_value(v);
        push_value(stack, c);
        k = k.sub(&one);
        assert(models(old(stack)@) + Seq::new(done + 1, |i: int| v@) =~= (models(old(stack)@) + Seq::new(done, |i: int| v@)).push(v@));
    }
}

/// A combinator; its nested evaluations get `inner` levels.
fn combinator(t: &Vec<char>, ts: &mut Tokens, stack: &mut Vec<Value>, inner: u32, log: &mut Vec<ProgramError>) -> (r: Result<Option<ProgramError>, ProgramError>)
    requires
        old(ts).wf(),
    ensures
        final(ts).wf(),
        final(ts).words == old(ts).words,
        final(ts).next >= old(ts).next,
        final(log)@ == old(log)@ + combinator_spec(t@, old(ts).rest(), models(old(stack)@), inner as nat).1,
        match combinator_spec(t@, old(ts).rest(), models(old(stack)@), inner as nat).0 {
            Err(e) => r == Err::<Option<ProgramError>, ProgramError>(e),
            Ok((rest, s, e)) => r == Ok::<Option<ProgramError>, ProgramError>(e) && final(ts).rest() == rest
                && models(final(stack)@) == s,
        },
    decreases inner, 3nat, 0nat,
{
    assert(log@ + Seq::<ProgramError>::empty() =~= log@);
    if is_word(t, "if") {
        return if_combinator(ts, stack);
    }
    let is_map = is_word(t, "map");
    let is_each = is_word(t, "each");
    if is_map || is_each {
        let b = match read_operand(ts)? {
            None => {
                discard(stack, 1);
                return Ok(Some(ProgramError::InvalidOperation));
            },
            Some((b, _)) => b,
        };
        let code = format_value(&b);
        let items = match pop_value(stack) {
            None => {
                return Ok(Some(ProgramError::StackEmpty));
            },
            Some(Value::List(items)) => items,
            Some(_) => {
                return Ok(Some(ProgramError::ExpectedList));
            },
        };
        return match map_items(items, &code, inner, log) {
            Err(e) => Ok(Some(e)),
            Ok(xs) => {
                if is_map {
                    push_value(stack, Value::List(xs));
                    Ok(None)
                } else if xs.len() == 0 {
                    proof {
                        lemma_models(xs@);
                    }
                    Ok(Some(ProgramError::InvalidOperation))
                } else {
                    let ghost st = stack@;
                    let ghost xv = xs@;
                    let mut xs = xs;
                    stack.append(&mut xs);
                    proof {
                        lemma_models_concat(st, xv);
                    }
                    Ok(None)
                }
            },
        };
    }
    if is_word(t, "foldl") {
        let b = match read_operand(ts)? {
            None => {
                discard(stack, 2);
                return Ok(Some(ProgramError::InvalidOperation));
            },
            Some((b, _)) => b,
        };
        let code = format_value(&b);
        let ghost s0 = models(stack@);
        let acc = match pop_value(stack) {
            None => {
                assert(models(stack@) =~= Seq::<Term>::empty());
                return Ok(Some(ProgramError::StackEmpty));
            },
            Some(a) => a,
        };
        let list = match pop_value(stack) {
            None => {
                proof {
                    lemma_models(stack@);
                }
                assert(models(stack@) =~= Seq::<Term>::empty());
                return Ok(Some(ProgramError::StackEmpty));
            },
            Some(l) => l,
        };
        assert(s0[s0.len() - 2] == s0.drop_last().last());
        return match list {
            Value::List(items) => match acc {
                Value::Int(a) => match fold_items(Value::Int(a), items, &code, inner, log) {
                    Ok(x) => {
                        push_value(stack, x);
                        Ok(None)
                    },
                    Err(e) => Ok(Some(e)),
                },
                _ => Ok(Some(ProgramError::ExpectedNumber)),
            },
            _ => Ok(Some(ProgramError::ExpectedList)),
        };
    }
    if is_word(t, "times") {
        let (b, raw) = match read_operand(ts)? {
            None => {
                discard(stack, 1);
                return Ok(Some(ProgramError::InvalidOperation));
            },
            Some(x) => x,
        };
        let body = match b {
            Value::Quotation(c) => if raw {
                Ok(Value::Quotation(c))
            } else {
                evaluate(&c, inner, log)
            },
            other => Ok(other),
        };
        let v = match body {
            Err(e) => {
                discard(stack, 1);
                return Ok(Some(e));
            },
            Ok(v) => v,
        };
        return match pop_value(stack) {
            None => Ok(Some(ProgramError::StackEmpty)),
            Some(Value::Int(n)) => {
                if n.is_positive() {
                    push_copies(stack, &v, &n);
                } else {
                    let empty_list = Value::List(Vec::new());
                    assert(empty_list@ == Term::List(Seq::empty())) by {
                        assert(models(Seq::<Value>::empty()) =~= Seq::<Term>::empty());
                    }
                    push_value(stack, empty_list);
                }
                Ok(None)
            },
            Some(_) => Ok(Some(ProgramError::ExpectedNumber)),
        };
    }
    Ok(Some(ProgramError::InvalidOperation))
}

} // verus!
