//! The token stream of one line, and the readers of literals.
use vstd::prelude::*;
use crate::value::{Term, Value, ProgramError, lemma_models_push, models};
use crate::literal::{int_literal, decimal_literal, parse_int_literal, parse_decimal_literal};
use crate::text::{append_chars, split_spaces, split_on_spaces, texts, trim, trimmed};

verus! {

/// The tokens of a line: its text, white space trimmed from both ends, split at each
/// space; a line with nothing in it has no tokens.
pub open spec fn tokens_of(line: Seq<char>) -> Seq<Seq<char>> {
    if trim(line).len() == 0 {
        Seq::empty()
    } else {
        split_spaces(trim(line))
    }
}

/// Tokens still to be read, consumed from the front.
pub struct Tokens {
    pub words: Vec<Vec<char>>,
    pub next: usize,
}

impl Tokens {
    pub open spec fn wf(&self) -> bool {
        self.next <= self.words@.len()
    }

    /// The tokens not read yet.
    pub open spec fn rest(&self) -> Seq<Seq<char>> {
        texts(self.words@).skip(self.next as int)
    }

    /// Tokens of `line`, none read yet.
    pub fn of_line(line: &Vec<char>) -> (r: Tokens)
        ensures
            r.wf(),
            r.rest() == tokens_of(line@),
    {
        let t = trimmed(line);
        if t.len() == 0 {
            let r = Tokens { words: Vec::new(), next: 0 };
            assert(r.rest() =~= Seq::<Seq<char>>::empty());
            r
        } else {
            let w = split_on_spaces(&t);
            let r = Tokens { words: w, next: 0 };
            assert(r.rest() =~= texts(w@));
            r
        }
    }

    /// Takes the next token.
    pub fn take(&mut self) -> (r: Option<Vec<char>>)
        requires
            old(self).wf(),
        ensures
            final(self).wf(),
            final(self).words == old(self).words,
            old(self).rest().len() == 0 ==> r is None && final(self).next == old(self).next,
            old(self).rest().len() > 0 ==> (r matches Some(t) && t@ == old(self).rest()[0]),
            old(self).rest().len() > 0 ==> final(self).next == old(self).next + 1,
            final(self).rest() == if old(self).rest().len() == 0 {
                old(self).rest()
            } else {
                old(self).rest().skip(1)
            },
    {
        if self.next < self.words.len() {
            let t = self.words[self.next].clone();
            self.next = self.next + 1;
            assert(final(self).rest() =~= old(self).rest().skip(1));
            Some(t)
        } else {
            None
        }
    }
}

/// Whether a token is exactly the one character `c`.
pub fn is_symbol(t: &Vec<char>, c: char) -> (r: bool)
    ensures
        r == (t@ == seq![c]),
{
    if t.len() == 1 && t[0] == c {
        assert(t@ =~= seq![c]);
        true
    } else {
        false
    }
}

/// Whether a token spells the word `w`.
pub fn is_word(t: &Vec<char>, w: &str) -> (r: bool)
    ensures
        r == (t@ == w@),
{
    let n = w.unicode_len();
    if t.len() != n {
        return false;
    }
    let mut i: usize = 0;
    while i < n
        invariant
            n == w@.len() == t@.len(),
            i <= n,
            forall|j: int| 0 <= j < i ==> t@[j] == w@[j],
        decreases n - i,
    {
        if t[i] != w.get_char(i) {
            return false;
        }
        i = i + 1;
    }
    assert(t@ =~= w@);
    true
}

/// A token that is a literal by itself: a decimal, an integer, or a truth value.
pub open spec fn plain_literal(t: Seq<char>) -> Option<Term> {
    if decimal_literal(t) is Some {
        Some(Term::Float(decimal_literal(t)->0))
    } else if int_literal(t) is Some {
        Some(Term::Int(int_literal(t)->0))
    } else if t == "True"@ {
        Some(Term::Boolean(true))
    } else if t == "False"@ {
        Some(Term::Boolean(false))
    } else {
        None
    }
}

/// A token that opens a list, a quotation or a text.
pub open spec fn is_opener(t: Seq<char>) -> bool {
    t == seq!['['] || t == seq!['{'] || t == seq!['"']
}

/// Reads a literal that is one token.
pub fn read_plain(t: &Vec<char>) -> (r: Option<Value>)
    ensures
        r matches Some(v) ==> plain_literal(t@) == Some(v@),
        r is None ==> plain_literal(t@) is None,
{
    match parse_decimal_literal(t) {
        Some(u) => return Some(Value::Float(u)),
        None => {},
    }
    match parse_int_literal(t) {
        Some(i) => return Some(Value::Int(i)),
        None => {},
    }
    if is_word(t, "True") {
        Some(Value::Boolean(true))
    } else if is_word(t, "False") {
        Some(Value::Boolean(false))
    } else {
        None
    }
}


/// The body of a text literal after its opening quote: the tokens up to a lone `"`, each
/// preceded by a space (empty tokens included), and how many tokens that took, the
/// closing one included.
pub open spec fn string_body(rest: Seq<Seq<char>>) -> Option<(Seq<char>, nat)>
    decreases rest.len(),
{
    if rest.len() == 0 {
        None
    } else if rest[0] == seq!['"'] {
        Some((Seq::empty(), 1))
    } else {
        match string_body(rest.skip(1)) {
            Some((b, n)) => Some((seq![' '] + rest[0] + b, n + 1)),
            None => None,
        }
    }
}

/// The text of a quotation after its opening brace, untrimmed: the tokens up to the
/// matching `}`, each preceded by a space, a nested quotation written back as
/// ` { inner }`; and how many tokens that took.
pub open spec fn quotation_body(rest: Seq<Seq<char>>) -> Result<(Seq<char>, nat), ProgramError>
    decreases rest.len(),
{
    if rest.len() == 0 {
        Err(ProgramError::IncompleteQuotation)
    } else if rest[0] == seq!['}'] {
        Ok((Seq::empty(), 1))
    } else if rest[0] == seq!['{'] {
        match quotation_body(rest.skip(1)) {
            Ok((inner, n)) => if 1 + n <= rest.len() {
                match quotation_body(rest.skip(1 + n as int)) {
                    Ok((b, m)) => Ok((seq![' ', '{', ' '] + trim(inner) + seq![' ', '}'] + b, 1 + n + m)),
                    Err(e) => Err(e),
                }
            } else {
                Err(ProgramError::IncompleteQuotation)
            },
            Err(e) => Err(e),
        }
    } else {
        match quotation_body(rest.skip(1)) {
            Ok((b, n)) => Ok((seq![' '] + rest[0] + b, n + 1)),
            Err(e) => Err(e),
        }
    }
}

/// What reading the token `t` as a literal gives, with `rest` the tokens after it:
/// `None` when `t` is no literal, else the value or a structural error, and how many
/// tokens of `rest` the literal took.
pub open spec fn literal_spec(t: Seq<char>, rest: Seq<Seq<char>>) -> Option<Result<(Term, nat), ProgramError>>
    decreases rest.len(), 1nat,
{
    if t == seq!['{'] {
        Some(match quotation_body(rest) {
            Ok((b, n)) => Ok((Term::Quotation(trim(b)), n)),
            Err(e) => Err(e),
        })
    } else if t == seq!['['] {
        Some(list_spec(rest))
    } else if t == seq!['"'] {
        Some(match string_body(rest) {
            Some((b, n)) => Ok((Term::Text(trim(b)), n)),
            None => Err(ProgramError::IncompleteString),
        })
    } else {
        match plain_literal(t) {
            Some(v) => Some(Ok((v, 0))),
            None => None,
        }
    }
}

/// The list after its opening bracket: literals up to `]`, and how many tokens it took.
pub open spec fn list_spec(rest: Seq<Seq<char>>) -> Result<(Term, nat), ProgramError>
    decreases rest.len(), 0nat,
{
    if rest.len() == 0 {
        Err(ProgramError::IncompleteList)
    } else if rest[0] == seq![']'] {
        Ok((Term::List(Seq::empty()), 1))
    } else {
        match literal_spec(rest[0], rest.skip(1)) {
            None => Err(ProgramError::IncompleteList),
            Some(Err(e)) => Err(e),
            Some(Ok((v, n))) => if 1 + n <= rest.len() {
                match list_spec(rest.skip(1 + n as int)) {
                    Ok((Term::List(items), m)) => Ok((Term::List(seq![v] + items), 1 + n + m)),
                    Ok(_) => Err(ProgramError::IncompleteList),
                    Err(e) => Err(e),
                }
            } else {
                Err(ProgramError::IncompleteList)
            },
        }
    }
}

/// A text body read so far (`done`, over `k` tokens) in front of what the rest gives.
pub open spec fn string_after(done: Seq<char>, k: nat, r: Option<(Seq<char>, nat)>) -> Option<(Seq<char>, nat)> {
    match r {
        Some((b, n)) => Some((done + b, k + n)),
        None => None,
    }
}

/// A quotation body read so far (`done`, over `k` tokens) in front of what the rest gives.
pub open spec fn quotation_after(done: Seq<char>, k: nat, r: Result<(Seq<char>, nat), ProgramError>) -> Result<(Seq<char>, nat), ProgramError> {
    match r {
        Ok((b, n)) => Ok((done + b, k + n)),
        Err(e) => Err(e),
    }
}

/// Reads the body of a text literal.
pub fn read_string_body(ts: &mut Tokens) -> (r: Option<Vec<char>>)
    requires
        old(ts).wf(),
    ensures
        final(ts).wf(),
        final(ts).words == old(ts).words,
        final(ts).next >= old(ts).next,
        match string_body(old(ts).rest()) {
            Some((b, n)) => (r matches Some(x) && x@ == b) && n <= old(ts).rest().len()
                && final(ts).rest() == old(ts).rest().skip(n as int),
            None => r is None,
        },
{
    let ghost rest0 = ts.rest();
    let ghost start = ts.next;
    let mut out: Vec<char> = Vec::new();
    assert(rest0.skip(0) =~= rest0);
    assert(string_after(out@, 0, string_body(rest0)) =~= string_body(rest0)) by {
        match string_body(rest0) {
            Some((b, n)) => {
                assert(Seq::<char>::empty() + b =~= b);
            },
            None => {},
        }
    }
    loop
        invariant
            ts.wf(),
            ts.words == old(ts).words,
            start == old(ts).next <= ts.next,
            rest0 == old(ts).rest(),
            ts.rest() == rest0.skip(ts.next - start),
            string_body(rest0) == string_after(out@, (ts.next - start) as nat, string_body(ts.rest())),
        decreases ts.rest().len(),
    {
        let ghost cur = ts.rest();
        let t = match ts.take() {
            None => {
                return None;
            },
            Some(t) => t,
        };
        assert(cur.skip(1) =~= rest0.skip(ts.next - start));
        if is_symbol(&t, '"') {
            assert(out@ + Seq::<char>::empty() =~= out@);
            return Some(out);
        }
        let ghost before = out@;
        out.push(' ');
        append_chars(&mut out, &t);
        proof {
            match string_body(ts.rest()) {
                Some((b, n)) => {
                    assert(before + (seq![' '] + t@ + b) =~= out@ + b);
                },
                None => {},
            }
        }
    }
}

/// Reads the body of a quotation.
pub fn read_quotation_body(ts: &mut Tokens) -> (r: Result<Vec<char>, ProgramError>)
    requires
        old(ts).wf(),
    ensures
        final(ts).wf(),
        final(ts).words == old(ts).words,
        final(ts).next >= old(ts).next,
        match quotation_body(old(ts).rest()) {
            Ok((b, n)) => (r matches Ok(x) && x@ == b) && n <= old(ts).rest().len()
                && final(ts).rest() == old(ts).rest().skip(n as int),
            Err(e) => r == Err::<Vec<char>, ProgramError>(e),
        },
    decreases old(ts).rest().len(),
{
    let ghost rest0 = ts.rest();
    let ghost start = ts.next;
    let mut out: Vec<char> = Vec::new();
    assert(rest0.skip(0) =~= rest0);
    assert(quotation_after(out@, 0, quotation_body(rest0)) =~= quotation_body(rest0)) by {
        match quotation_body(rest0) {
            Ok((b, n)) => {
                assert(Seq::<char>::empty() + b =~= b);
            },
            Err(_) => {},
        }
    }
    loop
        invariant
            ts.wf(),
            ts.words == old(ts).words,
            start == old(ts).next <= ts.next,
            rest0 == old(ts).rest(),
            ts.rest() == rest0.skip(ts.next - start),
            quotation_body(rest0) == quotation_after(out@, (ts.next - start) as nat, quotation_body(ts.rest())),
        decreases ts.rest().len(),
    {
        let ghost cur = ts.rest();
        let t = match ts.take() {
            None => {
                return Err(ProgramError::IncompleteQuotation);
            },
            Some(t) => t,
        };
        assert(cur.skip(1) =~= rest0.skip(ts.next - start));
        if is_symbol(&t, '}') {
            assert(out@ + Seq::<char>::empty() =~= out@);
            return Ok(out);
        }
        let ghost before = out@;
        if is_symbol(&t, '{') {
            let ghost rest1 = ts.rest();
            let inner = read_quotation_body(ts)?;
            proof {
                let n = quotation_body(rest1).unwrap().1;
                assert(rest1.skip(n as int) =~= cur.skip(1 + n as int));
                assert(cur.skip(1 + n as int) =~= rest0.skip(ts.next - start));
            }
            out.push(' ');
            out.push('{');
            out.push(' ');
            let inner_text = trimmed(&inner);
            append_chars(&mut out, &inner_text);
            out.push(' ');
            out.push('}');
            proof {
                match quotation_body(ts.rest()) {
                    Ok((b, m)) => {
                        assert(before + (seq![' ', '{', ' '] + trim(inner@) + seq![' ', '}'] + b) =~= out@ + b);
                    },
                    Err(_) => {},
                }
            }
        } else {
            out.push(' ');
            append_chars(&mut out, &t);
            proof {
                match quotation_body(ts.rest()) {
                    Ok((b, n)) => {
                        assert(before + (seq![' '] + t@ + b) =~= out@ + b);
                    },
                    Err(_) => {},
                }
            }
        }
    }
}

/// Reads the token `t` as a literal, taking from `ts` what a list, quotation or text needs.
pub fn read_literal(ts: &mut Tokens, t: &Vec<char>) -> (r: Option<Result<Value, ProgramError>>)
    requires
        old(ts).wf(),
    ensures
        final(ts).wf(),
        final(ts).words == old(ts).words,
        final(ts).next >= old(ts).next,
        match literal_spec(t@, old(ts).rest()) {
            None => r is None && final(ts).next == old(ts).next,
            Some(Ok((v, n))) => (r matches Some(Ok(x)) && x@ == v) && n <= old(ts).rest().len()
                && final(ts).rest() == old(ts).rest().skip(n as int),
            Some(Err(e)) => r == Some(Err::<Value, ProgramError>(e)),
        },
    decreases old(ts).rest().len(), 1nat,
{
    if is_symbol(t, '{') {
        match read_quotation_body(ts) {
            Ok(b) => Some(Ok(Value::Quotation(trimmed(&b)))),
            Err(e) => Some(Err(e)),
        }
    } else if is_symbol(t, '[') {
        Some(read_list(ts))
    } else if is_symbol(t, '"') {
        match read_string_body(ts) {
            Some(b) => Some(Ok(Value::Text(trimmed(&b)))),
            None => Some(Err(ProgramError::IncompleteString)),
        }
    } else {
        match read_plain(t) {
            Some(v) => {
                assert(old(ts).rest().skip(0) =~= old(ts).rest());
                Some(Ok(v))
            },
            None => None,
        }
    }
}

/// Items read so far (`done`, over `k` tokens) in front of what the rest of the list gives.
pub open spec fn list_after(done: Seq<Term>, k: nat, r: Result<(Term, nat), ProgramError>) -> Result<(Term, nat), ProgramError> {
    match r {
        Ok((Term::List(xs), m)) => Ok((Term::List(done + xs), k + m)),
        Ok(_) => Err(ProgramError::IncompleteList),
        Err(e) => Err(e),
    }
}

/// Reads the rest of a list after its opening bracket.
pub fn read_list(ts: &mut Tokens) -> (r: Result<Value, ProgramError>)
    requires
        old(ts).wf(),
    ensures
        final(ts).wf(),
        final(ts).words == old(ts).words,
        final(ts).next >= old(ts).next,
        match list_spec(old(ts).rest()) {
            Ok((v, n)) => (r matches Ok(x) && x@ == v) && n <= old(ts).rest().len()
                && final(ts).rest() == old(ts).rest().skip(n as int),
            Err(e) => r == Err::<Value, ProgramError>(e),
        },
    decreases old(ts).rest().len(), 0nat,
{
    let ghost rest0 = ts.rest();
    let ghost start = ts.next;
    let mut items: Vec<Value> = Vec::new();
    assert(rest0.skip(0) =~= rest0);
    assert(models(items@) =~= Seq::<Term>::empty());
    assert(list_after(models(items@), 0, list_spec(rest0)) =~= list_spec(rest0)) by {
        match list_spec(rest0) {
            Ok((Term::List(xs), m)) => {
                assert(Seq::<Term>::empty() + xs =~= xs);
            },
            _ => {},
        }
    }
    loop
        invariant
            ts.wf(),
            ts.words == old(ts).words,
            start == old(ts).next <= ts.next,
            rest0 == old(ts).rest(),
            ts.rest() == rest0.skip(ts.next - start),
            list_spec(rest0) == list_after(models(items@), (ts.next - start) as nat, list_spec(ts.rest())),
        decreases ts.rest().len(),
    {
        let ghost cur = ts.rest();
        let t = match ts.take() {
            None => {
                return Err(ProgramError::IncompleteList);
            },
            Some(t) => t,
        };
        assert(cur.skip(1) =~= rest0.skip(ts.next - start));
        if is_symbol(&t, ']') {
            assert(models(items@) + Seq::<Term>::empty() =~= models(items@));
            return Ok(Value::List(items));
        }
        let ghost rest1 = ts.rest();
        let v = match read_literal(ts, &t) {
            None => {
                return Err(ProgramError::IncompleteList);
            },
            Some(Err(e)) => {
                return Err(e);
            },
            Some(Ok(v)) => v,
        };
        proof {
            let n = literal_spec(t@, rest1).unwrap().unwrap().1;
            assert(rest1.skip(n as int) =~= cur.skip(1 + n as int));
            assert(cur.skip(1 + n as int) =~= rest0.skip(ts.next - start));
        }
        let ghost before = items@;
        let ghost vm = v@;
        items.push(v);
        proof {
            lemma_models_push(before, v);
            match list_spec(ts.rest()) {
                Ok((Term::List(xs), m)) => {
                    assert(models(before) + (seq![vm] + xs) =~= models(items@) + xs);
                },
                _ => {},
            }
        }
    }
}

} // verus!
