//! A tiny recursive-descent compiler for arithmetic expressions.
//!
//! Supports `+ - * /`, parentheses, unary minus, decimals, and ignores commas
//! (thousands separators). An expression becomes a [`Plan`]: the steps of a
//! stack machine in the order in which they are to be carried out, and the
//! fault that ends them where the expression is not well-formed. The numbers
//! themselves are left as text, so the plan is exact whatever arithmetic runs it.
use crate::decimal::{decimal, decimal_of};
use crate::text::{
    from_chars, slice_chars, strip_end, strip_end_chars, to_chars, without, without_chars,
};
pub use crate::tools::machine::eval;
use vstd::prelude::*;

verus! {

/// A token of an expression. A number is held as its text, a `String` in the
/// program and a `Seq<char>` in specifications.
#[derive(Debug)]
pub enum Tok<S> {
    Num(S),
    Plus,
    Minus,
    Star,
    Slash,
    LParen,
    RParen,
}

/// One step of the stack machine.
#[derive(Debug)]
pub enum Step<S> {
    /// Push the number written as this text.
    Push(S),
    /// Replace the topmost value by its negation.
    Negate,
    /// Replace the two topmost values by their sum.
    Add,
    /// Replace the two topmost values by the lower minus the upper.
    Subtract,
    /// Replace the two topmost values by their product.
    Multiply,
    /// Replace the two topmost values by the lower divided by the upper; stop
    /// with an error where the upper is zero.
    Divide,
}

/// Why an expression is not well-formed.
#[derive(Debug)]
pub enum Fault<S> {
    /// A run of digits and points that is no number.
    BadNumber(S),
    /// A character that begins no token.
    UnexpectedChar(char),
    /// A token, or the end of input, where a value was expected.
    UnexpectedToken(Option<Tok<S>>),
    /// A parenthesis that is never closed.
    ExpectedParen,
    /// A complete expression followed by more tokens; the text without commas.
    TrailingInput(S),
}

/// What is to be done to evaluate an expression: the steps, in order, and then
/// the fault, if there is one.
#[derive(Debug)]
pub struct Plan {
    pub steps: Vec<Step<String>>,
    pub fault: Option<Fault<String>>,
}

pub open spec fn tok_view(t: Tok<String>) -> Tok<Seq<char>> {
    match t {
        Tok::Num(s) => Tok::Num(s@),
        Tok::Plus => Tok::Plus,
        Tok::Minus => Tok::Minus,
        Tok::Star => Tok::Star,
        Tok::Slash => Tok::Slash,
        Tok::LParen => Tok::LParen,
        Tok::RParen => Tok::RParen,
    }
}

pub open spec fn toks_view(v: Seq<Tok<String>>) -> Seq<Tok<Seq<char>>> {
    v.map_values(|t: Tok<String>| tok_view(t))
}

pub open spec fn step_view(s: Step<String>) -> Step<Seq<char>> {
    match s {
        Step::Push(t) => Step::Push(t@),
        Step::Negate => Step::Negate,
        Step::Add => Step::Add,
        Step::Subtract => Step::Subtract,
        Step::Multiply => Step::Multiply,
        Step::Divide => Step::Divide,
    }
}

pub open spec fn steps_view(v: Seq<Step<String>>) -> Seq<Step<Seq<char>>> {
    v.map_values(|s: Step<String>| step_view(s))
}

pub open spec fn fault_view(f: Fault<String>) -> Fault<Seq<char>> {
    match f {
        Fault::BadNumber(s) => Fault::BadNumber(s@),
        Fault::UnexpectedChar(c) => Fault::UnexpectedChar(c),
        Fault::UnexpectedToken(Some(t)) => Fault::UnexpectedToken(Some(tok_view(t))),
        Fault::UnexpectedToken(None) => Fault::UnexpectedToken(None),
        Fault::ExpectedParen => Fault::ExpectedParen,
        Fault::TrailingInput(s) => Fault::TrailingInput(s@),
    }
}

/// The model of a [`Plan`].
pub struct PlanModel {
    pub steps: Seq<Step<Seq<char>>>,
    pub fault: Option<Fault<Seq<char>>>,
}

impl View for Plan {
    type V = PlanModel;

    open spec fn view(&self) -> PlanModel {
        PlanModel {
            steps: steps_view(self.steps@),
            fault: match self.fault {
                Some(f) => Some(fault_view(f)),
                None => None,
            },
        }
    }
}

// ---------------------------------------------------------------------------
// Lexing
// ---------------------------------------------------------------------------

pub open spec fn is_digit(c: char) -> bool {
    '0' as u32 <= c as u32 <= '9' as u32
}

/// Whether `c` can stand in a number.
pub open spec fn is_number_char(c: char) -> bool {
    is_digit(c) || c == '.'
}

/// How many characters at the start of `s` can stand in a number.
pub open spec fn number_len(s: Seq<char>) -> nat
    decreases s.len(),
{
    if s.len() > 0 && is_number_char(s[0]) {
        1 + number_len(s.drop_first())
    } else {
        0
    }
}

/// Whether a run of digits and points is a number: it has a digit, and no more
/// than one point.
pub open spec fn is_number(t: Seq<char>) -> bool {
    &&& exists|i: int| 0 <= i < t.len() && is_digit(#[trigger] t[i])
    &&& forall|i: int, j: int|
        0 <= i < t.len() && 0 <= j < t.len() && t[i] == '.' && t[j] == '.' ==> i == j
}

/// The token that `c` is by itself.
pub open spec fn symbol(c: char) -> Option<Tok<Seq<char>>> {
    if c == '+' {
        Some(Tok::Plus)
    } else if c == '-' {
        Some(Tok::Minus)
    } else if c == '*' {
        Some(Tok::Star)
    } else if c == '/' {
        Some(Tok::Slash)
    } else if c == '(' {
        Some(Tok::LParen)
    } else if c == ')' {
        Some(Tok::RParen)
    } else {
        None
    }
}

/// Whether `c` stands between tokens without being part of one.
pub open spec fn is_skipped(c: char) -> bool {
    c == ' ' || c == '\t' || c == '\n' || c == '\r' || c == ','
}

/// `toks` put in front of what a lexer made of the rest.
pub open spec fn in_front(
    toks: Seq<Tok<Seq<char>>>,
    rest: Result<Seq<Tok<Seq<char>>>, Fault<Seq<char>>>,
) -> Result<Seq<Tok<Seq<char>>>, Fault<Seq<char>>> {
    match rest {
        Ok(more) => Ok(toks + more),
        Err(f) => Err(f),
    }
}

/// The tokens of `s`, or its first fault.
pub open spec fn lex_of(s: Seq<char>) -> Result<Seq<Tok<Seq<char>>>, Fault<Seq<char>>>
    decreases s.len(),
{
    if s.len() == 0 {
        Ok(Seq::empty())
    } else if is_skipped(s[0]) {
        lex_of(s.drop_first())
    } else if symbol(s[0]) is Some {
        in_front(seq![symbol(s[0])->0], lex_of(s.drop_first()))
    } else if is_number_char(s[0]) {
        let n = number_len(s) as int;
        let text = s.take(n);
        proof {
            lemma_number_len(s);
        }
        if is_number(text) {
            in_front(seq![Tok::Num(text)], lex_of(s.skip(n)))
        } else {
            Err(Fault::BadNumber(text))
        }
    } else {
        Err(Fault::UnexpectedChar(s[0]))
    }
}

fn digit(c: char) -> (r: bool)
    ensures
        r == is_digit(c),
{
    '0' as u32 <= c as u32 && c as u32 <= '9' as u32
}

fn number_char(c: char) -> (r: bool)
    ensures
        r == is_number_char(c),
{
    digit(c) || c == '.'
}

/// Whether the digits and points of `v` make a number.
fn number(v: &Vec<char>) -> (r: bool)
    ensures
        r == is_number(v@),
{
    let mut digits: bool = false;
    let mut point: Option<usize> = None;
    let mut i: usize = 0;
    while i < v.len()
        invariant
            i <= v.len(),
            digits == exists|k: int| 0 <= k < i && is_digit(#[trigger] v@[k]),
            match point {
                Some(p) => p < i && v@[p as int] == '.',
                None => true,
            },
            forall|k: int| 0 <= k < i && v@[k] == '.' ==> point == Some(k as usize),
        decreases v.len() - i,
    {
        if digit(v[i]) {
            assert(is_digit(v@[i as int]));
            digits = true;
        }
        if v[i] == '.' {
            if point.is_some() {
                return false;
            }
            point = Some(i);
        }
        i += 1;
    }
    digits
}

/// A number is no longer than the text it starts.
pub proof fn lemma_number_len(s: Seq<char>)
    ensures
        number_len(s) <= s.len(),
    decreases s.len(),
{
    if s.len() > 0 && is_number_char(s[0]) {
        lemma_number_len(s.drop_first());
    }
}

/// The first position at or after `from` that cannot stand in a number.
fn number_end(v: &Vec<char>, from: usize) -> (r: usize)
    requires
        from <= v.len(),
    ensures
        from <= r <= v.len(),
        r == from + number_len(v@.skip(from as int)),
{
    let mut i: usize = from;
    while i < v.len() && number_char(v[i])
        invariant
            from <= i <= v.len(),
            from + number_len(v@.skip(from as int)) == i + number_len(v@.skip(i as int)),
        decreases v.len() - i,
    {
        assert(v@.skip(i as int).drop_first() =~= v@.skip(i + 1));
        i += 1;
    }
    i
}

fn symbol_tok(c: char) -> (r: Option<Tok<String>>)
    ensures
        match r {
            Some(t) => symbol(c) == Some(tok_view(t)),
            None => symbol(c) is None,
        },
{
    match c {
        '+' => Some(Tok::Plus),
        '-' => Some(Tok::Minus),
        '*' => Some(Tok::Star),
        '/' => Some(Tok::Slash),
        '(' => Some(Tok::LParen),
        ')' => Some(Tok::RParen),
        _ => None,
    }
}

/// Splits a text into tokens.
fn lex(v: &Vec<char>) -> (r: Result<Vec<Tok<String>>, Fault<String>>)
    ensures
        match r {
            Ok(toks) => lex_of(v@) == Ok::<_, Fault<Seq<char>>>(toks_view(toks@)),
            Err(f) => lex_of(v@) == Err::<Seq<Tok<Seq<char>>>, _>(fault_view(f)),
        },
{
    let mut toks: Vec<Tok<String>> = Vec::new();
    let mut i: usize = 0;
    assert(v@.skip(0) =~= v@);
    proof {
        if let Ok(all) = lex_of(v@) {
            assert(toks_view(toks@) + all =~= all);
        }
    }
    while i < v.len()
        invariant
            i <= v.len(),
            lex_of(v@) == in_front(toks_view(toks@), lex_of(v@.skip(i as int))),
        decreases v.len() - i,
    {
        let c: char = v[i];
        let ghost rest = v@.skip(i as int);
        let ghost before = toks@;
        assert(rest.drop_first() =~= v@.skip(i + 1));
        if c == ' ' || c == '\t' || c == '\n' || c == '\r' || c == ',' {
            i += 1;
        } else if let Some(t) = symbol_tok(c) {
            toks.push(t);
            assert(toks_view(toks@) =~= toks_view(before).push(tok_view(t)));
            proof {
                if let Ok(more) = lex_of(rest.drop_first()) {
                    assert(toks_view(before) + (seq![tok_view(t)] + more) =~= toks_view(toks@)
                        + more);
                }
            }
            i += 1;
        } else if number_char(c) {
            let end: usize = number_end(v, i);
            let text: Vec<char> = slice_chars(v, i, end);
            assert(text@ =~= rest.take(number_len(rest) as int));
            if !number(&text) {
                return Err(Fault::BadNumber(from_chars(&text)));
            }
            let t: Tok<String> = Tok::Num(from_chars(&text));
            assert(rest.skip(number_len(rest) as int) =~= v@.skip(end as int));
            toks.push(t);
            assert(toks_view(toks@) =~= toks_view(before).push(tok_view(t)));
            proof {
                if let Ok(more) = lex_of(v@.skip(end as int)) {
                    assert(toks_view(before) + (seq![tok_view(t)] + more) =~= toks_view(toks@)
                        + more);
                }
            }
            i = end;
        } else {
            return Err(Fault::UnexpectedChar(c));
        }
    }
    assert(v@.skip(i as int).len() == 0);
    assert(toks_view(toks@) + Seq::<Tok<Seq<char>>>::empty() =~= toks_view(toks@));
    Ok(toks)
}

// ---------------------------------------------------------------------------
// Parsing
// ---------------------------------------------------------------------------

/// What a parser makes of the tokens from some position on: the steps, and
/// either the position behind what it read or the fault that stopped it.
pub struct Parsed {
    pub steps: Seq<Step<Seq<char>>>,
    pub end: Result<int, Fault<Seq<char>>>,
}

/// `steps` put in front of what was parsed behind them.
pub open spec fn steps_before(steps: Seq<Step<Seq<char>>>, rest: Parsed) -> Parsed {
    Parsed { steps: steps + rest.steps, end: rest.end }
}

proof fn lemma_steps_before(
    a: Seq<Step<Seq<char>>>,
    b: Seq<Step<Seq<char>>>,
    rest: Parsed,
)
    ensures
        steps_before(a, steps_before(b, rest)) == steps_before(a + b, rest),
{
    assert(a + (b + rest.steps) =~= (a + b) + rest.steps);
}

/// The step for `+` or `-` between two terms.
pub open spec fn sum_step(t: Tok<Seq<char>>) -> Option<Step<Seq<char>>> {
    match t {
        Tok::Plus => Some(Step::Add),
        Tok::Minus => Some(Step::Subtract),
        _ => None,
    }
}

/// The step for `*` or `/` between two factors.
pub open spec fn product_step(t: Tok<Seq<char>>) -> Option<Step<Seq<char>>> {
    match t {
        Tok::Star => Some(Step::Multiply),
        Tok::Slash => Some(Step::Divide),
        _ => None,
    }
}

/// `expr := term (('+' | '-') term)*`
pub open spec fn expr_at(toks: Seq<Tok<Seq<char>>>, pos: int) -> Parsed
    decreases toks.len() - pos, 2nat,
{
    let first = term_at(toks, pos);
    match first.end {
        Ok(p) => if pos < p <= toks.len() {
            steps_before(first.steps, sums_at(toks, p))
        } else {
            first
        },
        Err(_) => first,
    }
}

/// `(('+' | '-') term)*`
pub open spec fn sums_at(toks: Seq<Tok<Seq<char>>>, pos: int) -> Parsed
    decreases toks.len() - pos, 2nat,
{
    if 0 <= pos < toks.len() && sum_step(toks[pos]) is Some {
        let next = term_at(toks, pos + 1);
        match next.end {
            Ok(p) => if pos < p <= toks.len() {
                steps_before(next.steps.push(sum_step(toks[pos])->0), sums_at(toks, p))
            } else {
                next
            },
            Err(_) => next,
        }
    } else {
        Parsed { steps: Seq::empty(), end: Ok(pos) }
    }
}

/// `term := factor (('*' | '/') factor)*`
pub open spec fn term_at(toks: Seq<Tok<Seq<char>>>, pos: int) -> Parsed
    decreases toks.len() - pos, 1nat,
{
    let first = factor_at(toks, pos);
    match first.end {
        Ok(p) => if pos < p <= toks.len() {
            steps_before(first.steps, products_at(toks, p))
        } else {
            first
        },
        Err(_) => first,
    }
}

/// `(('*' | '/') factor)*`
pub open spec fn products_at(toks: Seq<Tok<Seq<char>>>, pos: int) -> Parsed
    decreases toks.len() - pos, 1nat,
{
    if 0 <= pos < toks.len() && product_step(toks[pos]) is Some {
        let next = factor_at(toks, pos + 1);
        match next.end {
            Ok(p) => if pos < p <= toks.len() {
                steps_before(next.steps.push(product_step(toks[pos])->0), products_at(toks, p))
            } else {
                next
            },
            Err(_) => next,
        }
    } else {
        Parsed { steps: Seq::empty(), end: Ok(pos) }
    }
}

/// `factor := number | '(' expr ')' | ('+' | '-') factor`
pub open spec fn factor_at(toks: Seq<Tok<Seq<char>>>, pos: int) -> Parsed
    decreases toks.len() - pos, 0nat,
{
    if !(0 <= pos < toks.len()) {
        Parsed { steps: Seq::empty(), end: Err(Fault::UnexpectedToken(None)) }
    } else {
        match toks[pos] {
            Tok::Num(text) => Parsed { steps: seq![Step::Push(text)], end: Ok(pos + 1) },
            Tok::Minus => {
                let inner = factor_at(toks, pos + 1);
                match inner.end {
                    Ok(p) => Parsed { steps: inner.steps.push(Step::Negate), end: Ok(p) },
                    Err(_) => inner,
                }
            },
            Tok::Plus => factor_at(toks, pos + 1),
            Tok::LParen => {
                let inner = expr_at(toks, pos + 1);
                match inner.end {
                    Ok(p) => if 0 <= p < toks.len() && toks[p] == Tok::<Seq<char>>::RParen {
                        Parsed { steps: inner.steps, end: Ok(p + 1) }
                    } else {
                        Parsed { steps: inner.steps, end: Err(Fault::ExpectedParen) }
                    },
                    Err(_) => inner,
                }
            },
            other => Parsed {
                steps: Seq::empty(),
                end: Err(Fault::UnexpectedToken(Some(other))),
            },
        }
    }
}

/// Whether a successful parse from `pos` ends behind `pos`, within the input.
pub open spec fn advances(toks: Seq<Tok<Seq<char>>>, pos: int, p: Parsed) -> bool {
    p.end matches Ok(q) ==> pos < q <= toks.len()
}

/// A factor that is read ends behind its start.
pub proof fn lemma_factor_advances(toks: Seq<Tok<Seq<char>>>, pos: int)
    ensures
        advances(toks, pos, factor_at(toks, pos)),
    decreases toks.len() - pos, 0nat,
{
    if 0 <= pos < toks.len() {
        match toks[pos] {
            Tok::Minus => lemma_factor_advances(toks, pos + 1),
            Tok::Plus => lemma_factor_advances(toks, pos + 1),
            Tok::LParen => lemma_expr_advances(toks, pos + 1),
            _ => {},
        }
    }
}

/// A term that is read ends behind its start.
pub proof fn lemma_term_advances(toks: Seq<Tok<Seq<char>>>, pos: int)
    ensures
        advances(toks, pos, term_at(toks, pos)),
    decreases toks.len() - pos, 1nat,
{
    lemma_factor_advances(toks, pos);
    if let Ok(p) = factor_at(toks, pos).end {
        lemma_products_advance(toks, p);
    }
}

/// Reading on from `pos` never steps back.
pub proof fn lemma_products_advance(toks: Seq<Tok<Seq<char>>>, pos: int)
    requires
        pos <= toks.len(),
    ensures
        advances(toks, pos - 1, products_at(toks, pos)),
    decreases toks.len() - pos, 1nat,
{
    if 0 <= pos < toks.len() && product_step(toks[pos]) is Some {
        lemma_factor_advances(toks, pos + 1);
        if let Ok(p) = factor_at(toks, pos + 1).end {
            lemma_products_advance(toks, p);
        }
    }
}

/// An expression that is read ends behind its start.
pub proof fn lemma_expr_advances(toks: Seq<Tok<Seq<char>>>, pos: int)
    ensures
        advances(toks, pos, expr_at(toks, pos)),
    decreases toks.len() - pos, 2nat,
{
    lemma_term_advances(toks, pos);
    if let Ok(p) = term_at(toks, pos).end {
        lemma_sums_advance(toks, p);
    }
}

/// Reading on from `pos` never steps back.
pub proof fn lemma_sums_advance(toks: Seq<Tok<Seq<char>>>, pos: int)
    requires
        pos <= toks.len(),
    ensures
        advances(toks, pos - 1, sums_at(toks, pos)),
    decreases toks.len() - pos, 2nat,
{
    if 0 <= pos < toks.len() && sum_step(toks[pos]) is Some {
        lemma_term_advances(toks, pos + 1);
        if let Ok(p) = term_at(toks, pos + 1).end {
            lemma_sums_advance(toks, p);
        }
    }
}

/// The tokens, the position reached in them, and the steps emitted so far.
struct Parser {
    tokens: Vec<Tok<String>>,
    pos: usize,
    steps: Vec<Step<String>>,
}

impl Parser {
    spec fn toks(self) -> Seq<Tok<Seq<char>>> {
        toks_view(self.tokens@)
    }

    /// Whether `after` is `self` once `p` has been read, with result `r`.
    spec fn reads(self, p: Parsed, after: Self, r: Result<(), Fault<String>>) -> bool {
        &&& after.tokens == self.tokens
        &&& after.pos <= after.tokens@.len()
        &&& steps_view(after.steps@) == steps_view(self.steps@) + p.steps
        &&& match r {
            Ok(()) => p.end == Ok::<int, Fault<Seq<char>>>(after.pos as int),
            Err(f) => p.end == Err::<int, Fault<Seq<char>>>(fault_view(f)),
        }
    }

    fn emit(&mut self, step: Step<String>)
        ensures
            final(self).tokens == old(self).tokens,
            final(self).pos == old(self).pos,
            steps_view(final(self).steps@) == steps_view(old(self).steps@).push(step_view(step)),
    {
        self.steps.push(step);
        assert(steps_view(self.steps@) =~= steps_view(old(self).steps@).push(step_view(step)));
    }

    /// Reads `term (('+' | '-') term)*`.
    fn expr(&mut self) -> (r: Result<(), Fault<String>>)
        requires
            old(self).pos <= old(self).tokens@.len(),
        ensures
            old(self).reads(expr_at(old(self).toks(), old(self).pos as int), *final(self), r),
        decreases old(self).tokens@.len() - old(self).pos, 2nat,
    {
        let ghost toks = self.toks();
        let ghost start = self.pos as int;
        proof {
            lemma_term_advances(toks, start);
        }
        match self.term() {
            Err(f) => {
                return Err(f);
            },
            Ok(()) => {},
        }
        proof {
            lemma_steps_before(
                steps_view(old(self).steps@),
                term_at(toks, start).steps,
                sums_at(toks, self.pos as int),
            );
        }
        loop
            invariant
                self.tokens == old(self).tokens,
                toks == self.toks(),
                start == old(self).pos,
                start < self.pos <= self.tokens@.len(),
                steps_before(steps_view(old(self).steps@), expr_at(toks, start)) == steps_before(
                    steps_view(self.steps@),
                    sums_at(toks, self.pos as int),
                ),
            decreases self.tokens@.len() - self.pos,
        {
            let ghost pos = self.pos as int;
            let ghost before = steps_view(self.steps@);
            proof {
                lemma_sums_advance(toks, pos);
                lemma_term_advances(toks, pos + 1);
            }
            if self.pos >= self.tokens.len() {
                return Ok(());
            }
            let step: Step<String> = match &self.tokens[self.pos] {
                Tok::Plus => Step::Add,
                Tok::Minus => Step::Subtract,
                _ => {
                    return Ok(());
                },
            };
            self.pos = self.pos + 1;
            match self.term() {
                Err(f) => {
                    return Err(f);
                },
                Ok(()) => {},
            }
            self.emit(step);
            proof {
                let next = term_at(toks, pos + 1).steps;
                assert(steps_view(self.steps@) =~= before + next.push(step_view(step)));
                lemma_steps_before(
                    before,
                    next.push(step_view(step)),
                    sums_at(toks, self.pos as int),
                );
            }
        }
    }

    /// Reads `factor (('*' | '/') factor)*`.
    fn term(&mut self) -> (r: Result<(), Fault<String>>)
        requires
            old(self).pos <= old(self).tokens@.len(),
        ensures
            old(self).reads(term_at(old(self).toks(), old(self).pos as int), *final(self), r),
        decreases old(self).tokens@.len() - old(self).pos, 1nat,
    {
        let ghost toks = self.toks();
        let ghost start = self.pos as int;
        proof {
            lemma_factor_advances(toks, start);
        }
        match self.factor() {
            Err(f) => {
                return Err(f);
            },
            Ok(()) => {},
        }
        proof {
            lemma_steps_before(
                steps_view(old(self).steps@),
                factor_at(toks, start).steps,
                products_at(toks, self.pos as int),
            );
        }
        loop
            invariant
                self.tokens == old(self).tokens,
                toks == self.toks(),
                start == old(self).pos,
                start < self.pos <= self.tokens@.len(),
                steps_before(steps_view(old(self).steps@), term_at(toks, start)) == steps_before(
                    steps_view(self.steps@),
                    products_at(toks, self.pos as int),
                ),
            decreases self.tokens@.len() - self.pos,
        {
            let ghost pos = self.pos as int;
            let ghost before = steps_view(self.steps@);
            proof {
                lemma_products_advance(toks, pos);
                lemma_factor_advances(toks, pos + 1);
            }
            if self.pos >= self.tokens.len() {
                return Ok(());
            }
            let step: Step<String> = match &self.tokens[self.pos] {
                Tok::Star => Step::Multiply,
                Tok::Slash => Step::Divide,
                _ => {
                    return Ok(());
                },
            };
            self.pos = self.pos + 1;
            match self.factor() {
                Err(f) => {
                    return Err(f);
                },
                Ok(()) => {},
            }
            self.emit(step);
            proof {
                let next = factor_at(toks, pos + 1).steps;
                assert(steps_view(self.steps@) =~= before + next.push(step_view(step)));
                lemma_steps_before(
                    before,
                    next.push(step_view(step)),
                    products_at(toks, self.pos as int),
                );
            }
        }
    }

    /// Reads `number | '(' expr ')' | ('+' | '-') factor`.
    fn factor(&mut self) -> (r: Result<(), Fault<String>>)
        requires
            old(self).pos <= old(self).tokens@.len(),
        ensures
            old(self).reads(factor_at(old(self).toks(), old(self).pos as int), *final(self), r),
        decreases old(self).tokens@.len() - old(self).pos, 0nat,
    {
        let ghost toks = self.toks();
        let ghost start = self.pos as int;
        if self.pos >= self.tokens.len() {
            return Err(Fault::UnexpectedToken(None));
        }
        let at: usize = self.pos;
        self.pos = at + 1;
        let text: String = match &self.tokens[at] {
            Tok::Num(text) => text.clone(),
            Tok::Minus => {
                proof {
                    lemma_factor_advances(toks, start + 1);
                }
                return match self.factor() {
                    Err(f) => Err(f),
                    Ok(()) => {
                        self.emit(Step::Negate);
                        Ok(())
                    },
                };
            },
            Tok::Plus => {
                return self.factor();
            },
            Tok::LParen => {
                proof {
                    lemma_expr_advances(toks, start + 1);
                }
                return match self.expr() {
                    Err(f) => Err(f),
                    Ok(()) => {
                        if self.pos < self.tokens.len() {
                            let closes: bool = match &self.tokens[self.pos] {
                                Tok::RParen => true,
                                _ => false,
                            };
                            if closes {
                                self.pos = self.pos + 1;
                                return Ok(());
                            }
                        }
                        Err(Fault::ExpectedParen)
                    },
                };
            },
            Tok::Star => {
                return Err(Fault::UnexpectedToken(Some(Tok::Star)));
            },
            Tok::Slash => {
                return Err(Fault::UnexpectedToken(Some(Tok::Slash)));
            },
            Tok::RParen => {
                return Err(Fault::UnexpectedToken(Some(Tok::RParen)));
            },
        };
        self.emit(Step::Push(text));
        assert(steps_view(self.steps@) =~= steps_view(old(self).steps@) + factor_at(
            toks,
            start,
        ).steps);
        Ok(())
    }
}

/// What evaluating the expression `s` takes. Commas are dropped first, so that
/// `1,000` reads as one number.
pub open spec fn plan_of(s: Seq<char>) -> PlanModel {
    let bare = without(s, ',');
    match lex_of(bare) {
        Err(f) => PlanModel { steps: Seq::empty(), fault: Some(f) },
        Ok(toks) => {
            let parsed = expr_at(toks, 0);
            PlanModel {
                steps: parsed.steps,
                fault: match parsed.end {
                    Err(f) => Some(f),
                    Ok(end) => if end == toks.len() {
                        None
                    } else {
                        Some(Fault::TrailingInput(bare))
                    },
                },
            }
        },
    }
}

/// Plans the evaluation of an arithmetic expression, e.g. `"2334*9834"`: push
/// 2334, push 9834, multiply.
pub fn plan(expr: &str) -> (r: Plan)
    ensures
        r@ == plan_of(expr@),
{
    let bare: Vec<char> = without_chars(&to_chars(expr), ',');
    let tokens: Vec<Tok<String>> = match lex(&bare) {
        Ok(tokens) => tokens,
        Err(f) => {
            let r = Plan { steps: Vec::new(), fault: Some(f) };
            assert(r@.steps =~= Seq::<Step<Seq<char>>>::empty());
            return r;
        },
    };
    let mut p = Parser { tokens, pos: 0, steps: Vec::new() };
    let ghost start = p;
    let r: Result<(), Fault<String>> = p.expr();
    assert(steps_view(start.steps@) + expr_at(start.toks(), 0).steps =~= expr_at(
        start.toks(),
        0,
    ).steps);
    let fault: Option<Fault<String>> = match r {
        Err(f) => Some(f),
        Ok(()) => if p.pos == p.tokens.len() {
            None
        } else {
            Some(Fault::TrailingInput(from_chars(&bare)))
        },
    };
    Plan { steps: p.steps, fault }
}

// ---------------------------------------------------------------------------
// Showing a result
// ---------------------------------------------------------------------------

/// A computed value, as it is handed over to be shown.
#[derive(Debug)]
pub enum Amount {
    /// A whole number of magnitude below 10^15.
    Whole(i64),
    /// Any other value, as its text with six decimals.
    Fixed(String),
}

/// How an amount is shown: whole numbers as integers, otherwise without the
/// zeros, and then the points, that end the text.
pub open spec fn shown(a: Amount) -> Seq<char> {
    match a {
        Amount::Whole(n) => decimal_of(n as int),
        Amount::Fixed(t) => strip_end(strip_end(t@, '0'), '.'),
    }
}

/// Formats a result for display: whole numbers as integers, otherwise trimmed.
pub fn format_number(v: &Amount) -> (r: String)
    ensures
        r@ == shown(*v),
{
    match v {
        Amount::Whole(n) => from_chars(&decimal(*n)),
        Amount::Fixed(t) => {
            let mut text: Vec<char> = to_chars(t.as_str());
            strip_end_chars(&mut text, '0');
            strip_end_chars(&mut text, '.');
            from_chars(&text)
        },
    }
}

proof fn lemma_strip_behind(a: Seq<char>, b: Seq<char>, c: char)
    requires
        strip_end(b, c).len() > 0,
    ensures
        strip_end(a + b, c) == a + strip_end(b, c),
    decreases b.len(),
{
    if b.len() > 0 && b.last() == c {
        assert((a + b).drop_last() =~= a + b.drop_last());
        lemma_strip_behind(a, b.drop_last(), c);
    }
}

proof fn lemma_strip_through(a: Seq<char>, b: Seq<char>, c: char)
    requires
        strip_end(b, c).len() == 0,
    ensures
        strip_end(a + b, c) == strip_end(a, c),
    decreases b.len(),
{
    if b.len() > 0 {
        assert((a + b).drop_last() =~= a + b.drop_last());
        lemma_strip_through(a, b.drop_last(), c);
    } else {
        assert(a + b =~= a);
    }
}

proof fn lemma_strip_last(s: Seq<char>, c: char)
    ensures
        strip_end(s, c).len() > 0 ==> strip_end(s, c).last() != c,
        forall|i: int|
            0 <= i < strip_end(s, c).len() ==> #[trigger] strip_end(s, c)[i] == s[i],
        strip_end(s, c).len() <= s.len(),
    decreases s.len(),
{
    if s.len() > 0 && s.last() == c {
        lemma_strip_last(s.drop_last(), c);
    }
}

/// Showing `whole.fraction` drops only what does not change the value: the
/// zeros that end the fraction, and the point where nothing is left behind it.
pub proof fn law_trimming_keeps_the_value(t: String, whole: Seq<char>, fraction: Seq<char>)
    requires
        t@ == whole + seq!['.'] + fraction,
        whole.len() > 0,
        whole.last() != '.',
        !fraction.contains('.'),
    ensures
        ({
            let kept = strip_end(fraction, '0');
            shown(Amount::Fixed(t)) == if kept.len() == 0 {
                whole
            } else {
                whole + seq!['.'] + kept
            }
        }),
{
    let kept = strip_end(fraction, '0');
    let head = whole + seq!['.'];
    lemma_strip_last(fraction, '0');
    if kept.len() == 0 {
        lemma_strip_through(head, fraction, '0');
        assert(head.drop_last() =~= whole);
        assert(strip_end(head, '.') == strip_end(whole, '.'));
    } else {
        lemma_strip_behind(head, fraction, '0');
        assert((head + kept).last() == kept.last());
        assert(kept.last() == fraction[kept.len() - 1]);
    }
}

// ---------------------------------------------------------------------------
// Laws of lexing
// ---------------------------------------------------------------------------

/// Whether `t` is written with digits and points alone.
pub open spec fn is_numeric(t: Seq<char>) -> bool {
    forall|i: int|
        0 <= i < t.len() ==> '0' as u32 <= (#[trigger] t[i]) as u32 <= '9' as u32 || t[i] == '.'
}

/// Whether nothing at the start of `rest` could still belong to a number.
pub open spec fn ends_number(rest: Seq<char>) -> bool {
    rest.len() > 0 ==> !('0' as u32 <= rest[0] as u32 <= '9' as u32) && rest[0] != '.'
}

proof fn lemma_number_len_whole(t: Seq<char>, rest: Seq<char>)
    requires
        is_numeric(t),
        ends_number(rest),
    ensures
        number_len(t + rest) == t.len(),
    decreases t.len(),
{
    let s = t + rest;
    if t.len() > 0 {
        assert(s[0] == t[0]);
        assert(s.drop_first() =~= t.drop_first() + rest);
        assert forall|i: int| 0 <= i < t.drop_first().len() implies '0' as u32 <= (
        #[trigger] t.drop_first()[i]) as u32 <= '9' as u32 || t.drop_first()[i] == '.' by {
            assert(t.drop_first()[i] == t[i + 1]);
        }
        lemma_number_len_whole(t.drop_first(), rest);
    } else if rest.len() > 0 {
        assert(s[0] == rest[0]);
    }
}

proof fn lemma_number_first(c: char)
    requires
        '0' as u32 <= c as u32 <= '9' as u32 || c == '.',
    ensures
        !is_skipped(c),
        symbol(c) is None,
        is_number_char(c),
{
}

/// A number is read with all of its digits and its point: it becomes one token,
/// in front of the tokens of what follows.
pub proof fn law_numbers_are_read_whole(t: Seq<char>, rest: Seq<char>, digit: int)
    requires
        is_numeric(t),
        0 <= digit < t.len(),
        t[digit] != '.',
        forall|i: int, j: int| 0 <= i < j < t.len() && t[i] == '.' ==> t[j] != '.',
        ends_number(rest),
    ensures
        lex_of(t + rest) == match lex_of(rest) {
            Ok(more) => Ok::<Seq<Tok<Seq<char>>>, Fault<Seq<char>>>(seq![Tok::Num(t)] + more),
            Err(f) => Err::<Seq<Tok<Seq<char>>>, Fault<Seq<char>>>(f),
        },
{
    let s = t + rest;
    lemma_number_len_whole(t, rest);
    assert(s[0] == t[0]);
    lemma_number_first(t[0]);
    assert(s.take(t.len() as int) =~= t);
    assert(s.skip(t.len() as int) =~= rest);
    assert(is_digit(t[digit]));
}

/// A run of digits and points with no digit, or with two points, is no number,
/// and is told as a whole.
pub proof fn law_bad_numbers_are_told(t: Seq<char>, rest: Seq<char>)
    requires
        is_numeric(t),
        t.len() > 0,
        (forall|i: int| 0 <= i < t.len() ==> t[i] == '.') || exists|i: int, j: int|
            0 <= i < j < t.len() && t[i] == '.' && t[j] == '.',
        ends_number(rest),
    ensures
        lex_of(t + rest) == Err::<Seq<Tok<Seq<char>>>, Fault<Seq<char>>>(Fault::BadNumber(t)),
{
    let s = t + rest;
    lemma_number_len_whole(t, rest);
    assert(s[0] == t[0]);
    lemma_number_first(t[0]);
    assert(s.take(t.len() as int) =~= t);
    if is_number(t) {
        let k = choose|i: int| 0 <= i < t.len() && is_digit(#[trigger] t[i]);
        assert(t[k] != '.');
    }
}

/// Each operator and each parenthesis is a token of its own; blanks and commas
/// are none; whatever else begins no number is refused.
pub proof fn law_characters_are_told_apart(c: char, rest: Seq<char>)
    ensures
        lex_of(Seq::empty()) == Ok::<Seq<Tok<Seq<char>>>, Fault<Seq<char>>>(Seq::empty()),
        c == ' ' || c == '\t' || c == '\n' || c == '\r' || c == ',' ==> lex_of(seq![c] + rest)
            == lex_of(rest),
        c == '+' ==> lex_of(seq![c] + rest) == in_front(seq![Tok::Plus], lex_of(rest)),
        c == '-' ==> lex_of(seq![c] + rest) == in_front(seq![Tok::Minus], lex_of(rest)),
        c == '*' ==> lex_of(seq![c] + rest) == in_front(seq![Tok::Star], lex_of(rest)),
        c == '/' ==> lex_of(seq![c] + rest) == in_front(seq![Tok::Slash], lex_of(rest)),
        c == '(' ==> lex_of(seq![c] + rest) == in_front(seq![Tok::LParen], lex_of(rest)),
        c == ')' ==> lex_of(seq![c] + rest) == in_front(seq![Tok::RParen], lex_of(rest)),
        !("+-*/() \t\n\r,."@.contains(c) || '0' as u32 <= c as u32 <= '9' as u32) ==> lex_of(
            seq![c] + rest,
        ) == Err::<Seq<Tok<Seq<char>>>, Fault<Seq<char>>>(Fault::UnexpectedChar(c)),
{
    let s = seq![c] + rest;
    assert(s[0] == c);
    assert(s.drop_first() =~= rest);
    reveal_strlit("+-*/() \t\n\r,.");
    let all = "+-*/() \t\n\r,."@;
    if !all.contains(c) {
        assert(all[0] == '+' && all[1] == '-' && all[2] == '*' && all[3] == '/' && all[4] == '('
            && all[5] == ')' && all[6] == ' ' && all[7] == '\t' && all[8] == '\n' && all[9] == '\r'
            && all[10] == ',' && all[11] == '.');
    }
}

/// The text of a token.
pub open spec fn tok_text(t: Tok<Seq<char>>) -> Seq<char> {
    match t {
        Tok::Num(text) => text,
        Tok::Plus => "+"@,
        Tok::Minus => "-"@,
        Tok::Star => "*"@,
        Tok::Slash => "/"@,
        Tok::LParen => "("@,
        Tok::RParen => ")"@,
    }
}

/// The texts of the tokens one after another.
pub open spec fn toks_text(toks: Seq<Tok<Seq<char>>>) -> Seq<char>
    decreases toks.len(),
{
    if toks.len() == 0 {
        Seq::empty()
    } else {
        tok_text(toks[0]) + toks_text(toks.drop_first())
    }
}

/// The characters other than blanks and commas.
pub open spec fn solid(s: Seq<char>) -> Seq<char> {
    s.filter(|c: char| c != ' ' && c != '\t' && c != '\n' && c != '\r' && c != ',')
}

proof fn lemma_solid_add(a: Seq<char>, b: Seq<char>)
    ensures
        solid(a + b) == solid(a) + solid(b),
{
    Seq::filter_distributes_over_add(
        a,
        b,
        |c: char| c != ' ' && c != '\t' && c != '\n' && c != '\r' && c != ',',
    );
}

proof fn lemma_solid_one(c: char)
    ensures
        solid(seq![c]) == if is_skipped(c) {
            Seq::empty()
        } else {
            seq![c]
        },
{
    reveal_with_fuel(Seq::filter, 2);
    assert(seq![c].drop_last() =~= Seq::empty());
    assert(Seq::<char>::empty().push(c) =~= seq![c]);
}

proof fn lemma_solid_number(s: Seq<char>)
    ensures
        solid(s.take(number_len(s) as int)) == s.take(number_len(s) as int),
    decreases s.len(),
{
    lemma_number_len(s);
    let t = s.take(number_len(s) as int);
    if s.len() > 0 && is_number_char(s[0]) {
        lemma_solid_number(s.drop_first());
        lemma_number_len(s.drop_first());
        let u = s.drop_first().take(number_len(s.drop_first()) as int);
        assert(t =~= seq![s[0]] + u);
        lemma_solid_add(seq![s[0]], u);
        lemma_solid_one(s[0]);
        lemma_number_first(s[0]);
    } else {
        reveal(Seq::filter);
        assert(t =~= Seq::empty());
    }
}

/// Lexing loses nothing but blanks and commas: the texts of the tokens one after
/// another are the rest of the text.
pub proof fn law_tokens_keep_the_text(s: Seq<char>)
    ensures
        lex_of(s) matches Ok(toks) ==> toks_text(toks) == solid(s),
    decreases s.len(),
{
    reveal(Seq::filter);
    if s.len() > 0 && lex_of(s) is Ok {
        let toks = lex_of(s)->Ok_0;
        if is_skipped(s[0]) || symbol(s[0]) is Some {
            let rest = s.drop_first();
            law_tokens_keep_the_text(rest);
            assert(s =~= seq![s[0]] + rest);
            lemma_solid_add(seq![s[0]], rest);
            lemma_solid_one(s[0]);
            if is_skipped(s[0]) {
                assert(solid(s) =~= solid(rest));
            } else {
                reveal_strlit("+");
                reveal_strlit("-");
                reveal_strlit("*");
                reveal_strlit("/");
                reveal_strlit("(");
                reveal_strlit(")");
                assert(toks.drop_first() =~= lex_of(rest)->Ok_0);
                assert(tok_text(toks[0]) =~= seq![s[0]]);
            }
        } else {
            lemma_number_len(s);
            let n = number_len(s) as int;
            let rest = s.skip(n);
            law_tokens_keep_the_text(rest);
            assert(s =~= s.take(n) + rest);
            lemma_solid_add(s.take(n), rest);
            lemma_solid_number(s);
            assert(toks.drop_first() =~= lex_of(rest)->Ok_0);
        }
    }
}

proof fn lemma_without_add(a: Seq<char>, b: Seq<char>, c: char)
    ensures
        without(a + b, c) == without(a, c) + without(b, c),
    decreases b.len(),
{
    if b.len() == 0 {
        assert(a + b =~= a);
        assert(without(a, c) + without(b, c) =~= without(a, c));
    } else {
        assert((a + b).drop_last() =~= a + b.drop_last());
        lemma_without_add(a, b.drop_last(), c);
        assert(without(a + b, c) =~= without(a, c) + without(b, c));
    }
}

/// A comma changes nothing, wherever it stands: `1,000` is the number `1000`.
pub proof fn law_commas_do_not_count(a: Seq<char>, b: Seq<char>)
    ensures
        plan_of(a + ","@ + b) == plan_of(a + b),
{
    reveal_strlit(",");
    let comma = ","@;
    reveal_with_fuel(without, 2);
    assert(comma.drop_last() =~= Seq::empty());
    assert(without(comma, ',') =~= Seq::empty());
    lemma_without_add(a + comma, b, ',');
    lemma_without_add(a, comma, ',');
    lemma_without_add(a, b, ',');
    assert(without(a + comma + b, ',') =~= without(a + b, ','));
}

/// Whole amounts are shown as integers.
pub proof fn law_whole_amounts_are_shown_as_integers(n: i64)
    ensures
        shown(Amount::Whole(n)) == decimal_of(n as int),
{
}

/// The models of tokens, steps and faults are of the same kind as these, and hold
/// the same text.
pub proof fn law_models_keep_their_kind(text: String, c: char, t: Tok<String>)
    ensures
        tok_view(Tok::Num(text)) == Tok::Num(text@),
        tok_view(Tok::Plus) == Tok::<Seq<char>>::Plus,
        tok_view(Tok::Minus) == Tok::<Seq<char>>::Minus,
        tok_view(Tok::Star) == Tok::<Seq<char>>::Star,
        tok_view(Tok::Slash) == Tok::<Seq<char>>::Slash,
        tok_view(Tok::LParen) == Tok::<Seq<char>>::LParen,
        tok_view(Tok::RParen) == Tok::<Seq<char>>::RParen,
        step_view(Step::Push(text)) == Step::Push(text@),
        step_view(Step::Negate) == Step::<Seq<char>>::Negate,
        step_view(Step::Add) == Step::<Seq<char>>::Add,
        step_view(Step::Subtract) == Step::<Seq<char>>::Subtract,
        step_view(Step::Multiply) == Step::<Seq<char>>::Multiply,
        step_view(Step::Divide) == Step::<Seq<char>>::Divide,
        fault_view(Fault::BadNumber(text)) == Fault::BadNumber(text@),
        fault_view(Fault::UnexpectedChar(c)) == Fault::<Seq<char>>::UnexpectedChar(c),
        fault_view(Fault::UnexpectedToken(None)) == Fault::<Seq<char>>::UnexpectedToken(None),
        fault_view(Fault::UnexpectedToken(Some(t))) == Fault::UnexpectedToken(Some(tok_view(t))),
        fault_view(Fault::ExpectedParen) == Fault::<Seq<char>>::ExpectedParen,
        fault_view(Fault::TrailingInput(text)) == Fault::TrailingInput(text@),
{
}

} // verus!
