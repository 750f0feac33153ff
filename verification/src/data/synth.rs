//! Synthetic training-data generators (the programmatic half of the hybrid).
//!
//! - [`gen_calculator`]: random arithmetic -> a resolved tool-call trace. Teaches
//!   the *format* and *when* to call the calculator (it never has to do math).
//! - [`gen_cloze`]: fill-in-the-blank from real note passages. Teaches grounded,
//!   extractive answering — find the fact in the provided context and copy it.
//!
//! These are mixed with a hand-authored seed set.
use crate::data::corpus::{Chunk, ChunkModel};
use crate::data::format::{example_models, Example, ExampleModel, TOOL_CALL_OPEN, TOOL_RESULT_OPEN};
use crate::decimal::{decimal, decimal_of, digits_value, law_digits_denote_the_number};
use crate::pattern::{compiles, found, Pattern, PatternError};
use crate::random::{choose_in, shuffle};
use crate::sample::injected_of;
use crate::text::{
    contains, first_from, from_chars, lemma_first_from, lemma_occurs_through, lemma_pieces_occur,
    lemma_trim_occurs, occurs_at, occurs_in, pieces, pieces_of, replace_first, replace_first_of,
    runs, same_text, strings, texts, to_chars, trim_chars, trim_of, without, words_of, Cut,
};
use crate::tools::calculator::{
    in_front, is_digit, is_number_char, is_skipped, lex_of, number_len, plan_of, shown, symbol,
    Amount, Tok,
};
use crate::tools::grammar::{
    is_expr, is_factor, is_term, law_plan_computes_the_tree, law_plan_is_postfix, run_on, spells,
    tokens_of, value_of, Arithmetic, Tree,
};
use rand::rngs::ThreadRng;
use vstd::prelude::*;

verus! {

// ---------------------------------------------------------------------------
// Calculator traces
// ---------------------------------------------------------------------------

/// An operation of the calculator.
#[derive(Clone, Copy, Debug, PartialEq, Eq)]
pub enum Op {
    Plus,
    Minus,
    Times,
    DividedBy,
}

impl Op {
    /// How the operation is written in an expression.
    pub open spec fn symbol(self) -> char {
        match self {
            Op::Plus => '+',
            Op::Minus => '-',
            Op::Times => '*',
            Op::DividedBy => '/',
        }
    }

    /// How the operation is written in a question.
    pub open spec fn word(self) -> Seq<char> {
        match self {
            Op::Plus => "plus"@,
            Op::Minus => "minus"@,
            Op::Times => "times"@,
            Op::DividedBy => "divided by"@,
        }
    }

    /// The result of the operation; for a division, where it is exact.
    pub open spec fn result(self, a: int, b: int) -> int {
        match self {
            Op::Plus => a + b,
            Op::Minus => a - b,
            Op::Times => a * b,
            Op::DividedBy => a / b,
        }
    }

    fn symbol_char(self) -> (r: char)
        ensures
            r == self.symbol(),
    {
        match self {
            Op::Plus => '+',
            Op::Minus => '-',
            Op::Times => '*',
            Op::DividedBy => '/',
        }
    }

    fn word_text(self) -> (r: &'static str)
        ensures
            r@ == self.word(),
    {
        match self {
            Op::Plus => "plus",
            Op::Minus => "minus",
            Op::Times => "times",
            Op::DividedBy => "divided by",
        }
    }
}

/// The operands from which calculator traces are made. Divisions are exact, so
/// the answer is a clean integer.
pub open spec fn is_problem(op: Op, a: int, b: int) -> bool {
    match op {
        Op::Times => 11 <= a < 1000 && 11 <= b < 1000,
        Op::DividedBy => exists|quotient: int|
            2 <= b < 50 && 2 <= quotient < 200 && a == #[trigger] (b * quotient),
        _ => 10 <= a < 100_000 && 10 <= b < 100_000,
    }
}

/// The expression for a problem.
pub open spec fn expression(op: Op, a: int, b: int) -> Seq<char> {
    decimal_of(a).push(op.symbol()) + decimal_of(b)
}

/// The question about a problem, in one of four wordings.
pub open spec fn question_of(op: Op, a: int, b: int, wording: int) -> Seq<char> {
    let spoken = decimal_of(a) + " "@ + op.word() + " "@ + decimal_of(b);
    if wording == 0 {
        "What is "@ + spoken + "?"@
    } else if wording == 1 {
        "Compute "@ + expression(op, a, b) + "."@
    } else if wording == 2 {
        "What's "@ + spoken + "?"@
    } else {
        "Calculate "@ + spoken + "."@
    }
}

/// The resolved tool call and the answer drawn from it.
pub open spec fn trace_of(op: Op, a: int, b: int) -> Seq<char> {
    let result = decimal_of(op.result(a, b));
    TOOL_CALL_OPEN@ + expression(op, a, b) + ")\n"@ + TOOL_RESULT_OPEN@ + result
        + ")\nThe answer is "@ + result + "."@
}

/// The example made of a problem.
pub open spec fn calculator_model(op: Op, a: int, b: int, wording: int) -> ExampleModel {
    ExampleModel {
        context: Seq::empty(),
        question: question_of(op, a, b, wording),
        response: trace_of(op, a, b),
        source: "calc"@,
    }
}

/// The calculator example for `a op b`, with its question in the given wording.
pub fn calculator_example(op: Op, a: u32, b: u32, wording: usize) -> (r: Example)
    requires
        a < 100_000,
        b < 100_000,
        op == Op::DividedBy ==> b > 0 && a % b == 0,
        wording < 4,
    ensures
        r@ == calculator_model(op, a as int, b as int, wording as int),
{
    let result: i64 = match op {
        Op::Plus => a as i64 + b as i64,
        Op::Minus => a as i64 - b as i64,
        Op::Times => {
            assert(a * b < 100_000 * 100_000) by (nonlinear_arith)
                requires
                    a < 100_000,
                    b < 100_000,
            ;
            assert(0 <= a * b) by (nonlinear_arith);
            a as i64 * b as i64
        },
        Op::DividedBy => (a / b) as i64,
    };
    let shown: String = from_chars(&decimal(result));
    let left: String = from_chars(&decimal(a as i64));
    let right: String = from_chars(&decimal(b as i64));
    let mut expr: String = left.clone();
    expr.push(op.symbol_char());
    expr.append(right.as_str());

    let mut question: String = String::new();
    if wording == 1 {
        question.append("Compute ");
        question.append(expr.as_str());
        question.append(".");
    } else {
        question.append(
            if wording == 0 {
                "What is "
            } else if wording == 2 {
                "What's "
            } else {
                "Calculate "
            },
        );
        question.append(left.as_str());
        question.append(" ");
        question.append(op.word_text());
        question.append(" ");
        question.append(right.as_str());
        question.append(
            if wording == 3 {
                "."
            } else {
                "?"
            },
        );
    }
    assert(question@ =~= question_of(op, a as int, b as int, wording as int));

    let mut response: String = String::new();
    response.append(TOOL_CALL_OPEN);
    response.append(expr.as_str());
    response.append(")\n");
    response.append(TOOL_RESULT_OPEN);
    response.append(shown.as_str());
    response.append(")\nThe answer is ");
    response.append(shown.as_str());
    response.append(".");
    assert(response@ =~= trace_of(op, a as int, b as int));
    Example { context: String::new(), question, response, source: "calc".to_owned() }
}

/// The numbers that are drawn for one calculator trace.
#[derive(Clone, Copy, Debug)]
pub struct Draw {
    /// Which operation it is.
    pub kind: usize,
    /// The first operand; for a division, the divisor.
    pub first: usize,
    /// The second operand; for a division, the quotient.
    pub second: usize,
    /// How the question is worded.
    pub wording: usize,
}

/// The operation that a drawn number stands for.
pub open spec fn op_of(kind: int) -> Op {
    if kind == 0 {
        Op::Plus
    } else if kind == 1 {
        Op::Minus
    } else if kind == 2 {
        Op::Times
    } else {
        Op::DividedBy
    }
}

/// The range from which the first number is drawn, its end not included.
pub open spec fn first_range(op: Op) -> (int, int) {
    match op {
        Op::Times => (11, 1000),
        Op::DividedBy => (2, 50),
        _ => (10, 100_000),
    }
}

/// The range from which the second number is drawn, its end not included.
pub open spec fn second_range(op: Op) -> (int, int) {
    match op {
        Op::Times => (11, 1000),
        Op::DividedBy => (2, 200),
        _ => (10, 100_000),
    }
}

impl Draw {
    /// The operation of the problem.
    pub open spec fn op(self) -> Op {
        op_of(self.kind as int)
    }

    /// Whether the numbers are in the ranges that they are drawn from.
    pub open spec fn in_range(self) -> bool {
        &&& self.kind < 4
        &&& first_range(self.op()).0 <= self.first < first_range(self.op()).1
        &&& second_range(self.op()).0 <= self.second < second_range(self.op()).1
        &&& self.wording < 4
    }

    /// The operands of the problem. A division is made of its divisor and its
    /// quotient, so that it is exact.
    pub open spec fn operands(self) -> (int, int) {
        if self.op() == Op::DividedBy {
            (self.first * self.second, self.first as int)
        } else {
            (self.first as int, self.second as int)
        }
    }

    /// The example made of the problem.
    pub open spec fn model(self) -> ExampleModel {
        calculator_model(self.op(), self.operands().0, self.operands().1, self.wording as int)
    }
}

/// The operation that a drawn number stands for.
pub fn drawn_op(kind: usize) -> (r: Op)
    ensures
        r == op_of(kind as int),
{
    match kind {
        0 => Op::Plus,
        1 => Op::Minus,
        2 => Op::Times,
        _ => Op::DividedBy,
    }
}

/// The ranges from which the two numbers of a problem are drawn.
pub fn drawn_ranges(op: Op) -> (r: ((usize, usize), (usize, usize)))
    ensures
        r.0.0 == first_range(op).0 && r.0.1 == first_range(op).1,
        r.1.0 == second_range(op).0 && r.1.1 == second_range(op).1,
{
    match op {
        Op::Times => ((11, 1000), (11, 1000)),
        Op::DividedBy => ((2, 50), (2, 200)),
        _ => ((10, 100_000), (10, 100_000)),
    }
}

/// The calculator example that the drawn numbers lead to.
pub fn drawn_example(d: &Draw) -> (r: Example)
    requires
        d.in_range(),
    ensures
        r@ == d.model(),
{
    match drawn_op(d.kind) {
        Op::DividedBy => {
            let ghost first = d.first as int;
            let ghost second = d.second as int;
            assert(0 <= first * second <= 50 * 200) by (nonlinear_arith)
                requires
                    2 <= first < 50,
                    2 <= second < 200,
            ;
            assert((first * second) % first == 0) by (nonlinear_arith)
                requires
                    first > 0,
            ;
            calculator_example(Op::DividedBy, (d.first * d.second) as u32, d.first as u32, d.wording)
        },
        op => calculator_example(op, d.first as u32, d.second as u32, d.wording),
    }
}

/// Whether `made` is what numbers drawn from their ranges lead to.
pub open spec fn are_drawn(made: Seq<ExampleModel>, draws: Seq<Draw>) -> bool {
    &&& made == draws.map_values(|d: Draw| d.model())
    &&& forall|i: int| 0 <= i < draws.len() ==> (#[trigger] draws[i]).in_range()
}

/// Random, correctly-resolved calculator traces: each is the one that some
/// numbers drawn from their ranges lead to.
pub fn gen_calculator(n: usize, rng: &mut ThreadRng) -> (r: Vec<Example>)
    ensures
        r@.len() == n,
        exists|draws: Seq<Draw>| are_drawn(example_models(r@), draws),
{
    let mut out: Vec<Example> = Vec::new();
    let ghost mut draws: Seq<Draw> = Seq::empty();
    assert(example_models(out@) =~= draws.map_values(|d: Draw| d.model()));
    while out.len() < n
        invariant
            out@.len() <= n,
            are_drawn(example_models(out@), draws),
        decreases n - out@.len(),
    {
        let kind: usize = choose_in(rng, 0, 4);
        let (first_in, second_in): ((usize, usize), (usize, usize)) = drawn_ranges(drawn_op(kind));
        let first: usize = choose_in(rng, first_in.0, first_in.1);
        let second: usize = choose_in(rng, second_in.0, second_in.1);
        let wording: usize = choose_in(rng, 0, 4);
        let d: Draw = Draw { kind, first, second, wording };
        let ghost before = out@;
        let e: Example = drawn_example(&d);
        out.push(e);
        proof {
            let earlier = draws;
            draws = draws.push(d);
            assert(example_models(out@) =~= example_models(before).push(e@));
            assert(draws.map_values(|d: Draw| d.model()) =~= earlier.map_values(
                |d: Draw| d.model(),
            ).push(d.model()));
        }
    }
    out
}

/// Whatever is drawn makes a problem: the operands are in the ranges for the
/// operation, and divisions are exact.
pub proof fn law_draws_are_problems(d: Draw)
    requires
        d.in_range(),
    ensures
        is_problem(d.op(), d.operands().0, d.operands().1),
{
    if d.op() == Op::DividedBy {
        assert(d.operands().0 == d.operands().1 * (d.second as int));
    }
}

// ---------------------------------------------------------------------------
// Cloze questions
// ---------------------------------------------------------------------------

/// The fewest words of a sentence that a question is made of.
pub const SENTENCE_WORDS: usize = 6;

/// Whether a sentence contains `span` and has enough words.
pub open spec fn is_fitting(sentence: Seq<char>, span: Seq<char>) -> bool {
    occurs_in(sentence, span) && words_of(sentence).len() >= SENTENCE_WORDS
}

/// The first fitting one of `parts` from position `from` on, without the white
/// space around it.
pub open spec fn first_fitting(parts: Seq<Seq<char>>, span: Seq<char>, from: int) -> Option<
    Seq<char>,
>
    decreases parts.len() - from,
{
    if from < 0 || from >= parts.len() {
        None
    } else if is_fitting(trim_of(parts[from]), span) {
        Some(trim_of(parts[from]))
    } else {
        first_fitting(parts, span, from + 1)
    }
}

/// The first sentence in `text` that contains `span` and has enough words.
pub open spec fn sentence_of(text: Seq<char>, span: Seq<char>) -> Option<Seq<char>> {
    first_fitting(pieces_of(text, Cut::Sentence), span, 0)
}

/// Finds the sentence in `text` that contains `span` and has enough words.
pub fn sentence_with(text: &str, span: &str) -> (r: Option<String>)
    ensures
        match r {
            Some(s) => sentence_of(text@, span@) == Some(s@),
            None => sentence_of(text@, span@) is None,
        },
{
    let parts: Vec<Vec<char>> = pieces(&to_chars(text), Cut::Sentence);
    let wanted: Vec<char> = to_chars(span);
    let mut i: usize = 0;
    while i < parts.len()
        invariant
            i <= parts.len(),
            wanted@ == span@,
            texts(parts@) == pieces_of(text@, Cut::Sentence),
            sentence_of(text@, span@) == first_fitting(texts(parts@), span@, i as int),
        decreases parts.len() - i,
    {
        let sentence: Vec<char> = trim_chars(&parts[i]);
        assert(texts(parts@)[i as int] == parts@[i as int]@);
        if contains(&sentence, &wanted) {
            let words: Vec<Vec<char>> = runs(&sentence, Cut::White);
            assert(texts(words@).len() == words@.len());
            if words.len() >= SENTENCE_WORDS {
                return Some(from_chars(&sentence));
            }
        }
        i += 1;
    }
    None
}

/// How many ASCII digits there are in `s`.
pub open spec fn digit_count(s: Seq<char>) -> nat
    decreases s.len(),
{
    if s.len() == 0 {
        0
    } else {
        digit_count(s.drop_last()) + if is_digit(s.last()) {
            1nat
        } else {
            0
        }
    }
}

/// Whether `s` has two ASCII digits or more.
fn two_digits(s: &Vec<char>) -> (r: bool)
    ensures
        r == (digit_count(s@) >= 2),
{
    let mut n: usize = 0;
    let mut i: usize = 0;
    while i < s.len()
        invariant
            n <= i <= s.len(),
            n == digit_count(s@.take(i as int)),
        decreases s.len() - i,
    {
        assert(s@.take(i + 1).drop_last() =~= s@.take(i as int));
        let code: u32 = s[i] as u32;
        if '0' as u32 <= code && code <= '9' as u32 {
            n += 1;
        }
        i += 1;
    }
    assert(s@.take(i as int) =~= s@);
    n >= 2
}

/// The question that blanks out `span` in `chunk`, where it is a non-trivial
/// number in a sentence that is long enough.
pub open spec fn cloze_for(chunk: ChunkModel, span: Seq<char>) -> Option<ExampleModel> {
    if digit_count(span) < 2 {
        None
    } else {
        match sentence_of(chunk.text, span) {
            None => None,
            Some(sentence) => {
                let blanked = replace_first_of(sentence, span, "____"@);
                if blanked == sentence {
                    None
                } else {
                    Some(
                        ExampleModel {
                            context: chunk.text,
                            question: "Fill in the blank using the context:\n"@ + blanked,
                            response: span,
                            source: "cloze:"@ + chunk.source,
                        },
                    )
                }
            },
        }
    }
}

/// The question for the first of `spans`, from position `from` on, that gives one.
pub open spec fn first_cloze(chunk: ChunkModel, spans: Seq<Seq<char>>, from: int) -> Option<
    ExampleModel,
>
    decreases spans.len() - from,
{
    if from < 0 || from >= spans.len() {
        None
    } else if cloze_for(chunk, spans[from]) is Some {
        cloze_for(chunk, spans[from])
    } else {
        first_cloze(chunk, spans, from + 1)
    }
}

/// Blanks out `span` in `chunk`.
fn cloze_at(chunk: &Chunk, span: &String) -> (r: Option<Example>)
    ensures
        match r {
            Some(e) => cloze_for(chunk@, span@) == Some(e@),
            None => cloze_for(chunk@, span@) is None,
        },
{
    let wanted: Vec<char> = to_chars(span.as_str());
    if !two_digits(&wanted) {
        return None;
    }
    let sentence: Vec<char> = match sentence_with(chunk.text.as_str(), span.as_str()) {
        Some(s) => to_chars(s.as_str()),
        None => {
            return None;
        },
    };
    let blanked: Vec<char> = replace_first(&sentence, &wanted, &to_chars("____"));
    if same_text(&blanked, &sentence) {
        return None;
    }
    let mut question: String = "Fill in the blank using the context:\n".to_owned();
    question.append(from_chars(&blanked).as_str());
    let mut source: String = "cloze:".to_owned();
    source.append(chunk.source.as_str());
    Some(Example { context: chunk.text.clone(), question, response: span.clone(), source })
}

/// The cloze question for `chunk`, given the numbers in its text in order.
pub fn cloze_example(chunk: &Chunk, spans: &Vec<String>) -> (r: Option<Example>)
    ensures
        match r {
            Some(e) => first_cloze(chunk@, strings(spans@), 0) == Some(e@),
            None => first_cloze(chunk@, strings(spans@), 0) is None,
        },
{
    let mut i: usize = 0;
    while i < spans.len()
        invariant
            i <= spans.len(),
            first_cloze(chunk@, strings(spans@), 0) == first_cloze(
                chunk@,
                strings(spans@),
                i as int,
            ),
        decreases spans.len() - i,
    {
        assert(strings(spans@)[i as int] == spans@[i as int]@);
        if let Some(e) = cloze_at(chunk, &spans[i]) {
            return Some(e);
        }
        i += 1;
    }
    None
}

/// A number in running text, with or without thousands separators.
pub const NUMBER: &'static str = r"\b\d[\d,]*\b";

/// The cloze questions for the chunks named by `order`, in that order; chunks
/// that give none are passed over.
pub open spec fn clozes(chunks: Seq<Chunk>, order: Seq<usize>) -> Seq<ExampleModel>
    decreases order.len(),
{
    if order.len() == 0 {
        Seq::empty()
    } else {
        let before = clozes(chunks, order.drop_last());
        let chunk = chunks[order.last() as int]@;
        match first_cloze(chunk, found(NUMBER@, chunk.text), 0) {
            Some(e) => before.push(e),
            None => before,
        }
    }
}

/// Whether `order` lists every number below `n` once.
pub open spec fn is_order(order: Seq<usize>, n: int) -> bool {
    order.to_multiset() == Seq::new(n as nat, |i: int| i as usize).to_multiset()
}

/// The first `n` items, or all of them where there are fewer.
pub open spec fn at_most<T>(s: Seq<T>, n: int) -> Seq<T> {
    if s.len() <= n {
        s
    } else {
        s.take(n)
    }
}

/// Whether `made` is the first `n` cloze questions of the chunks in some order.
pub open spec fn are_clozes(made: Seq<ExampleModel>, chunks: Seq<Chunk>, n: int) -> bool {
    exists|order: Seq<usize>| #[trigger]
        is_order(order, chunks.len() as int) && made == at_most(clozes(chunks, order), n)
}

/// The numbers below `n`, in order.
fn numbers_below(n: usize) -> (r: Vec<usize>)
    ensures
        r@ == Seq::new(n as nat, |i: int| i as usize),
{
    let mut v: Vec<usize> = Vec::new();
    let mut i: usize = 0;
    while i < n
        invariant
            i <= n,
            v@ == Seq::new(i as nat, |k: int| k as usize),
        decreases n - i,
    {
        v.push(i);
        i += 1;
    }
    v
}

proof fn lemma_order_in_range(order: Seq<usize>, n: int)
    requires
        0 <= n <= usize::MAX + 1,
        is_order(order, n),
    ensures
        forall|i: int| 0 <= i < order.len() ==> #[trigger] order[i] < n,
{
    broadcast use vstd::seq_lib::group_to_multiset_ensures;

    let straight = Seq::new(n as nat, |i: int| i as usize);
    assert forall|i: int| 0 <= i < order.len() implies #[trigger] order[i] < n by {
        assert(order.contains(order[i]));
        assert(order.to_multiset().count(order[i]) > 0);
        assert(straight.contains(order[i]));
    }
}

/// Fill-in-the-blank QA grounded in real note passages. The answer (a number)
/// is present in the provided context, so the task is to locate and copy it.
pub fn gen_cloze(chunks: &Vec<Chunk>, n: usize, rng: &mut ThreadRng) -> (r: Result<
    Vec<Example>,
    PatternError,
>)
    ensures
        match r {
            Ok(made) => compiles(NUMBER@) && are_clozes(example_models(made@), chunks@, n as int),
            Err(e) => !compiles(NUMBER@) && e.pattern@ == NUMBER@,
        },
{
    let number: Pattern = match Pattern::new(NUMBER) {
        Ok(p) => p,
        Err(e) => {
            return Err(e);
        },
    };
    let mut order: Vec<usize> = numbers_below(chunks.len());
    shuffle(&mut order, rng);
    proof {
        lemma_order_in_range(order@, chunks@.len() as int);
    }
    let mut out: Vec<Example> = Vec::new();
    let mut i: usize = 0;
    assert(example_models(out@) =~= Seq::empty());
    while i < order.len() && out.len() < n
        invariant
            i <= order.len(),
            number@ == NUMBER@,
            forall|k: int| 0 <= k < order@.len() ==> #[trigger] order@[k] < chunks@.len(),
            example_models(out@) == clozes(chunks@, order@.take(i as int)),
            out@.len() <= n,
        decreases order.len() - i,
    {
        let ghost before = out@;
        assert(order@.take(i + 1).drop_last() =~= order@.take(i as int));
        let chunk: &Chunk = &chunks[order[i]];
        let spans: Vec<String> = number.find_all(chunk.text.as_str());
        if let Some(e) = cloze_example(chunk, &spans) {
            out.push(e);
            assert(example_models(out@) =~= example_models(before).push(e@));
        }
        i += 1;
    }
    proof {
        lemma_clozes_prefix(chunks@, order@, i as int);
        assert(example_models(out@).len() == out@.len());
        assert(order@.take(order@.len() as int) =~= order@);
        let all = clozes(chunks@, order@);
        assert(all.take(all.len() as int) =~= all);
        assert(example_models(out@) =~= at_most(all, n as int));
        assert(is_order(order@, chunks@.len() as int));
    }
    Ok(out)
}

/// The questions of the first chunks are the first questions.
proof fn lemma_clozes_prefix(chunks: Seq<Chunk>, order: Seq<usize>, i: int)
    requires
        0 <= i <= order.len(),
    ensures
        ({
            let some = clozes(chunks, order.take(i));
            let all = clozes(chunks, order);
            some.len() <= all.len() && some == all.take(some.len() as int)
        }),
    decreases order.len() - i,
{
    let some = clozes(chunks, order.take(i));
    if i == order.len() {
        assert(order.take(i) =~= order);
        assert(some.take(some.len() as int) =~= some);
    } else {
        lemma_clozes_prefix(chunks, order, i + 1);
        assert(order.take(i + 1).drop_last() =~= order.take(i));
        let more = clozes(chunks, order.take(i + 1));
        let all = clozes(chunks, order);
        assert(some =~= more.take(some.len() as int));
        assert(some =~= all.take(some.len() as int));
    }
}

// ---------------------------------------------------------------------------
// The mixed dataset
// ---------------------------------------------------------------------------

/// `items`, `times` times over.
pub open spec fn repeated<T>(items: Seq<T>, times: nat) -> Seq<T>
    decreases times,
{
    if times == 0 {
        Seq::empty()
    } else {
        repeated(items, (times - 1) as nat) + items
    }
}

/// Appends copies of `more` to `out`.
fn extend_examples(out: &mut Vec<Example>, more: &Vec<Example>)
    ensures
        example_models(final(out)@) == example_models(old(out)@) + example_models(more@),
{
    let ghost start = example_models(out@);
    let mut i: usize = 0;
    assert(start + example_models(more@).take(0) =~= start);
    while i < more.len()
        invariant
            i <= more.len(),
            example_models(out@) == start + example_models(more@).take(i as int),
        decreases more.len() - i,
    {
        let ghost before = out@;
        let e: Example = more[i].clone();
        out.push(e);
        assert(example_models(out@) =~= example_models(before).push(e@));
        assert(example_models(more@)[i as int] == e@);
        assert(start + example_models(more@).take(i + 1) =~= (start + example_models(more@).take(
            i as int,
        )).push(e@));
        i += 1;
    }
    assert(example_models(more@).take(i as int) =~= example_models(more@));
}

/// Puts the parts of the dataset together: the seed examples, repeated because
/// they are high quality, then the calculator traces, then the cloze questions.
pub fn assemble(
    seed: &Vec<Example>,
    seed_repeat: usize,
    calc: &Vec<Example>,
    cloze: &Vec<Example>,
) -> (r: Vec<Example>)
    ensures
        example_models(r@) == repeated(example_models(seed@), seed_repeat as nat) + example_models(
            calc@,
        ) + example_models(cloze@),
{
    let mut out: Vec<Example> = Vec::new();
    let mut k: usize = 0;
    assert(example_models(out@) =~= Seq::empty());
    while k < seed_repeat
        invariant
            k <= seed_repeat,
            example_models(out@) == repeated(example_models(seed@), k as nat),
        decreases seed_repeat - k,
    {
        extend_examples(&mut out, seed);
        k += 1;
    }
    extend_examples(&mut out, calc);
    extend_examples(&mut out, cloze);
    out
}

/// How many of `n` examples are held out for validation: one in twenty.
pub open spec fn held_out(n: int) -> int {
    n / 20
}

/// Splits off the examples that are held out for validation; gives the training
/// examples and those.
pub fn split_dataset(examples: Vec<Example>) -> (r: (Vec<Example>, Vec<Example>))
    ensures
        r.1@ == examples@.take(held_out(examples@.len() as int)),
        r.0@ == examples@.skip(held_out(examples@.len() as int)),
{
    let mut val: Vec<Example> = examples;
    let n: usize = val.len() / 20;
    let train: Vec<Example> = val.split_off(n);
    assert(train@ =~= examples@.skip(n as int));
    (train, val)
}

/// Mixes the parts of the dataset, in random order, and splits it into training
/// and validation examples.
pub fn build_dataset(
    seed: &Vec<Example>,
    seed_repeat: usize,
    calc: &Vec<Example>,
    cloze: &Vec<Example>,
    rng: &mut ThreadRng,
) -> (r: (Vec<Example>, Vec<Example>))
    ensures
        ({
            let all = repeated(example_models(seed@), seed_repeat as nat) + example_models(calc@)
                + example_models(cloze@);
            &&& r.1@.len() == held_out(all.len() as int)
            &&& (example_models(r.1@) + example_models(r.0@)).to_multiset() == all.to_multiset()
        }),
{
    let mut examples: Vec<Example> = assemble(seed, seed_repeat, calc, cloze);
    let ghost before = examples@;
    shuffle(&mut examples, rng);
    let ghost after = examples@;
    proof {
        lemma_models_permuted(before, after);
        lemma_same_count(before, after);
    }
    let (train, val) = split_dataset(examples);
    assert(example_models(val@) + example_models(train@) =~= example_models(after));
    assert(example_models(before).len() == before.len());
    (train, val)
}

proof fn lemma_same_count<T>(a: Seq<T>, b: Seq<T>)
    requires
        a.to_multiset() == b.to_multiset(),
    ensures
        a.len() == b.len(),
{
    broadcast use vstd::seq_lib::group_to_multiset_ensures;

    assert(a.to_multiset().len() == a.len());
    assert(b.to_multiset().len() == b.len());
}

/// Examples in another order have their models in that order too.
proof fn lemma_models_permuted(a: Seq<Example>, b: Seq<Example>)
    requires
        a.to_multiset() == b.to_multiset(),
    ensures
        example_models(a).to_multiset() == example_models(b).to_multiset(),
    decreases a.len(),
{
    broadcast use vstd::seq_lib::group_to_multiset_ensures;

    lemma_same_count(a, b);
    if a.len() == 0 {
        assert(example_models(a) =~= example_models(b));
    } else {
        let e = a.last();
        assert(a.contains(e));
        assert(b.to_multiset().count(e) > 0);
        assert(b.contains(e));
        let k = b.index_of(e);
        let rest = b.remove(k);
        vstd::seq_lib::to_multiset_remove(a, a.len() - 1);
        vstd::seq_lib::to_multiset_remove(b, k);
        assert(a.remove(a.len() - 1) =~= a.drop_last());
        lemma_models_permuted(a.drop_last(), rest);
        assert(example_models(a) =~= example_models(a.drop_last()).push(e@));
        assert(example_models(b).remove(k) =~= example_models(rest));
        vstd::seq_lib::to_multiset_remove(example_models(b), k);
        assert(example_models(b)[k] == e@);
        assert(example_models(b).contains(e@));
        assert(example_models(b).to_multiset().remove(e@).insert(e@) =~= example_models(
            b,
        ).to_multiset());
    }
}

// ---------------------------------------------------------------------------
// Laws
// ---------------------------------------------------------------------------

/// Exact arithmetic on whole numbers.
pub open spec fn exact() -> Arithmetic<int> {
    Arithmetic {
        num: |t: Seq<char>| digits_value(t),
        neg: |a: int| -a,
        plus: |a: int, b: int| a + b,
        minus: |a: int, b: int| a - b,
        times: |a: int, b: int| a * b,
        div: |a: int, b: int| if b == 0 {
            None
        } else {
            Some(a / b)
        },
    }
}

proof fn lemma_number_len_over(a: Seq<char>, rest: Seq<char>)
    requires
        forall|i: int| 0 <= i < a.len() ==> is_digit(#[trigger] a[i]),
        rest.len() > 0 ==> !is_number_char(rest[0]),
    ensures
        number_len(a + rest) == a.len(),
    decreases a.len(),
{
    if a.len() == 0 {
        assert(a + rest =~= rest);
    } else {
        assert((a + rest)[0] == a[0]);
        assert((a + rest).drop_first() =~= a.drop_first() + rest);
        assert forall|i: int| 0 <= i < a.drop_first().len() implies is_digit(
            #[trigger] a.drop_first()[i],
        ) by {
            assert(a.drop_first()[i] == a[i + 1]);
        }
        lemma_number_len_over(a.drop_first(), rest);
    }
}

proof fn lemma_lex_number(a: Seq<char>, rest: Seq<char>)
    requires
        a.len() >= 1,
        forall|i: int| 0 <= i < a.len() ==> is_digit(#[trigger] a[i]),
        rest.len() > 0 ==> !is_number_char(rest[0]),
    ensures
        lex_of(a + rest) == in_front(seq![Tok::Num(a)], lex_of(rest)),
{
    let s = a + rest;
    lemma_number_len_over(a, rest);
    assert(s[0] == a[0]);
    assert(is_digit(a[0]));
    assert(s.take(a.len() as int) =~= a);
    assert(s.skip(a.len() as int) =~= rest);
    assert(symbol(s[0]) is None);
    assert(!is_skipped(s[0]));
}

proof fn lemma_no_comma(s: Seq<char>)
    requires
        forall|i: int| 0 <= i < s.len() ==> #[trigger] s[i] != ',',
    ensures
        without(s, ',') == s,
    decreases s.len(),
{
    if s.len() > 0 {
        assert forall|i: int| 0 <= i < s.drop_last().len() implies #[trigger] s.drop_last()[i]
            != ',' by {
            assert(s.drop_last()[i] == s[i]);
        }
        lemma_no_comma(s.drop_last());
        assert(s.drop_last().push(s.last()) =~= s);
    }
}

/// The calculator accepts the expression of every problem, and carrying out its
/// plan in exact arithmetic gives the result that the trace shows.
pub proof fn law_traces_are_correct(op: Op, a: nat, b: nat)
    requires
        op == Op::DividedBy ==> b > 0,
    ensures
        plan_of(expression(op, a as int, b as int)).fault is None,
        run_on(exact(), plan_of(expression(op, a as int, b as int)).steps, Seq::empty()) == Some(
            seq![op.result(a as int, b as int)],
        ),
{
    let left = decimal_of(a as int);
    let right = decimal_of(b as int);
    let s = expression(op, a as int, b as int);
    let none = Seq::<char>::empty();
    law_digits_denote_the_number(a);
    law_digits_denote_the_number(b);
    let tail = seq![op.symbol()] + right;
    assert(s =~= left + tail);
    assert forall|i: int| 0 <= i < s.len() implies #[trigger] s[i] != ',' by {
        if i < left.len() {
            assert(s[i] == left[i]);
        } else if i > left.len() {
            assert(s[i] == right[i - left.len() - 1]);
        }
    }
    lemma_no_comma(s);
    lemma_lex_number(left, tail);
    assert(tail.drop_first() =~= right);
    assert(right + none =~= right);
    lemma_lex_number(right, none);
    let tok = match op {
        Op::Plus => Tok::<Seq<char>>::Plus,
        Op::Minus => Tok::Minus,
        Op::Times => Tok::Star,
        Op::DividedBy => Tok::Slash,
    };
    assert(symbol(op.symbol()) == Some(tok));
    let t = Tree::Bin(tok, Box::new(Tree::Num(left)), Box::new(Tree::Num(right)));
    reveal_with_fuel(is_expr, 4);
    reveal_with_fuel(is_term, 4);
    reveal_with_fuel(is_factor, 4);
    assert(is_expr(t));
    reveal_with_fuel(tokens_of, 2);
    assert(seq![Tok::Num(right)] + Seq::<Tok<Seq<char>>>::empty() =~= seq![Tok::Num(right)]);
    assert(seq![Tok::Num(left)] + (seq![tok] + seq![Tok::Num(right)]) =~= tokens_of(t));
    assert(spells(s, t));
    law_plan_is_postfix(s, t);
    law_plan_computes_the_tree(exact(), s, t);
    reveal_with_fuel(value_of, 2);
    assert(value_of(exact(), t) == Some(op.result(a as int, b as int)));
}

proof fn lemma_fitting_occurs(text: Seq<char>, span: Seq<char>, from: int)
    requires
        0 <= from,
    ensures
        first_fitting(pieces_of(text, Cut::Sentence), span, from) is Some ==> occurs_in(text, span),
    decreases pieces_of(text, Cut::Sentence).len() - from,
{
    let parts = pieces_of(text, Cut::Sentence);
    if from < parts.len() {
        if is_fitting(trim_of(parts[from]), span) {
            lemma_pieces_occur(text, Cut::Sentence, from);
            lemma_trim_occurs(parts[from]);
            lemma_occurs_through(parts[from], trim_of(parts[from]), span);
            lemma_occurs_through(text, parts[from], span);
        } else {
            lemma_fitting_occurs(text, span, from + 1);
        }
    }
}

/// The answer of a cloze question is present in its context.
pub proof fn law_cloze_answer_is_in_context(chunk: ChunkModel, spans: Seq<Seq<char>>, from: int)
    ensures
        first_cloze(chunk, spans, from) matches Some(e) ==> e.context == chunk.text && occurs_in(
            e.context,
            e.response,
        ),
    decreases spans.len() - from,
{
    if 0 <= from < spans.len() {
        if cloze_for(chunk, spans[from]) is Some {
            lemma_fitting_occurs(chunk.text, spans[from], 0);
        } else {
            law_cloze_answer_is_in_context(chunk, spans, from + 1);
        }
    }
}

/// What may be drawn: of addition and subtraction, numbers of two to five digits;
/// of multiplication, numbers from 11 to 999; of division, a divisor below 50 and a
/// quotient below 200, which make the dividend.
pub proof fn law_draws_and_their_problems(d: Draw)
    ensures
        d.in_range() <==> d.wording < 4 && {
            ||| d.kind < 2 && 10 <= d.first < 100_000 && 10 <= d.second < 100_000
            ||| d.kind == 2 && 11 <= d.first < 1000 && 11 <= d.second < 1000
            ||| d.kind == 3 && 2 <= d.first < 50 && 2 <= d.second < 200
        },
        d.kind == 0 ==> d.op() == Op::Plus && d.operands() == (d.first as int, d.second as int),
        d.kind == 1 ==> d.op() == Op::Minus && d.operands() == (d.first as int, d.second as int),
        d.kind == 2 ==> d.op() == Op::Times && d.operands() == (d.first as int, d.second as int),
        d.kind == 3 ==> d.op() == Op::DividedBy && d.operands() == (
            d.first * d.second,
            d.first as int,
        ),
{
}

/// Every problem can be drawn, in each wording.
pub proof fn law_every_problem_can_be_drawn(op: Op, a: int, b: int, wording: usize)
    requires
        is_problem(op, a, b),
        wording < 4,
    ensures
        exists|d: Draw| #[trigger]
            d.in_range() && d.model() == calculator_model(op, a, b, wording as int),
{
    let kind: usize = match op {
        Op::Plus => 0,
        Op::Minus => 1,
        Op::Times => 2,
        Op::DividedBy => 3,
    };
    if op == Op::DividedBy {
        let quotient = choose|quotient: int|
            2 <= b < 50 && 2 <= quotient < 200 && a == #[trigger] (b * quotient);
        let d = Draw { kind, first: b as usize, second: quotient as usize, wording };
        assert(d.in_range() && d.model() == calculator_model(op, a, b, wording as int));
    } else {
        let d = Draw { kind, first: a as usize, second: b as usize, wording };
        assert(d.in_range() && d.model() == calculator_model(op, a, b, wording as int));
    }
}

/// How a problem is put: the expression has the operator between the operands, and
/// the question names both operands and the operation.
pub proof fn law_questions_name_the_problem(op: Op, a: int, b: int)
    ensures
        ({
            let spoken = decimal_of(a) + (match op {
                Op::Plus => " plus "@,
                Op::Minus => " minus "@,
                Op::Times => " times "@,
                Op::DividedBy => " divided by "@,
            }) + decimal_of(b);
            let written = decimal_of(a) + (match op {
                Op::Plus => "+"@,
                Op::Minus => "-"@,
                Op::Times => "*"@,
                Op::DividedBy => "/"@,
            }) + decimal_of(b);
            &&& expression(op, a, b) == written
            &&& question_of(op, a, b, 0) == "What is "@ + spoken + "?"@
            &&& question_of(op, a, b, 1) == "Compute "@ + written + "."@
            &&& question_of(op, a, b, 2) == "What's "@ + spoken + "?"@
            &&& question_of(op, a, b, 3) == "Calculate "@ + spoken + "."@
        }),
{
    reveal_strlit(" ");
    reveal_strlit("plus");
    reveal_strlit(" plus ");
    reveal_strlit("minus");
    reveal_strlit(" minus ");
    reveal_strlit("times");
    reveal_strlit(" times ");
    reveal_strlit("divided by");
    reveal_strlit(" divided by ");
    reveal_strlit("+");
    reveal_strlit("-");
    reveal_strlit("*");
    reveal_strlit("/");
    let x = decimal_of(a);
    let y = decimal_of(b);
    let word = match op {
        Op::Plus => " plus "@,
        Op::Minus => " minus "@,
        Op::Times => " times "@,
        Op::DividedBy => " divided by "@,
    };
    assert(" "@ + op.word() + " "@ =~= word);
    assert(x + " "@ + op.word() + " "@ + y =~= x + word + y);
    assert(expression(op, a, b) =~= x + (match op {
        Op::Plus => "+"@,
        Op::Minus => "-"@,
        Op::Times => "*"@,
        Op::DividedBy => "/"@,
    }) + y);
}

/// A trace is what answering produces: the call, the answer that the tool injects,
/// and the sentence that repeats it.
pub proof fn law_traces_are_what_answering_produces(op: Op, a: int, b: int, n: i64)
    requires
        n == op.result(a, b),
    ensures
        trace_of(op, a, b) == ">>tool:calculate("@ + expression(op, a, b) + ")"@ + injected_of(
            Some(Amount::Whole(n)),
        ) + "The answer is "@ + shown(Amount::Whole(n)) + "."@,
{
    reveal_strlit(")\n");
    reveal_strlit(")");
    reveal_strlit(")\nThe answer is ");
    reveal_strlit("The answer is ");
    assert(")\n"@ =~= ")"@ + seq!['\n']);
    assert(")\nThe answer is "@ =~= seq![')', '\n'] + "The answer is "@);
    let result = decimal_of(n as int);
    assert(trace_of(op, a, b) =~= ">>tool:calculate("@ + expression(op, a, b) + ")"@ + (
    seq!['\n'] + ">>tool:result("@ + result + seq![')', '\n']) + "The answer is "@ + result
        + "."@);
}

/// What a calculator example holds: no context, the question, the trace.
pub proof fn law_calculator_examples_hold_the_trace(d: Draw)
    ensures
        d.model().context.len() == 0,
        d.model().question == question_of(
            d.op(),
            d.operands().0,
            d.operands().1,
            d.wording as int,
        ),
        d.model().response == trace_of(d.op(), d.operands().0, d.operands().1),
        d.model().source == "calc"@,
{
}

/// The result of an operation is that of exact arithmetic.
pub proof fn law_results_are_exact(op: Op, a: int, b: int)
    ensures
        op == Op::Plus ==> op.result(a, b) - b == a,
        op == Op::Minus ==> op.result(a, b) + b == a,
        op == Op::Times ==> op.result(a, b) == a * b,
        is_problem(op, a, b) && op == Op::DividedBy ==> op.result(a, b) * b == a,
{
    if is_problem(op, a, b) && op == Op::DividedBy {
        let q = choose|quotient: int|
            2 <= b < 50 && 2 <= quotient < 200 && a == #[trigger] (b * quotient);
        assert((b * q) / b == q) by (nonlinear_arith)
            requires
                b > 0,
        ;
        assert(q * b == b * q) by (nonlinear_arith);
    }
}

proof fn lemma_first_fitting(parts: Seq<Seq<char>>, span: Seq<char>, from: int)
    requires
        0 <= from <= parts.len(),
    ensures
        match first_fitting(parts, span, from) {
            Some(s) => exists|k: int|
                from <= k < parts.len() && s == trim_of(#[trigger] parts[k]) && is_fitting(s, span)
                    && forall|j: int|
                    from <= j < k ==> !is_fitting(trim_of(#[trigger] parts[j]), span),
            None => forall|j: int|
                from <= j < parts.len() ==> !is_fitting(trim_of(#[trigger] parts[j]), span),
        },
    decreases parts.len() - from,
{
    if from < parts.len() {
        if is_fitting(trim_of(parts[from]), span) {
            assert(first_fitting(parts, span, from) == Some(trim_of(parts[from])));
        } else {
            lemma_first_fitting(parts, span, from + 1);
            if let Some(s) = first_fitting(parts, span, from) {
                let k = choose|k: int|
                    from + 1 <= k < parts.len() && s == trim_of(#[trigger] parts[k]) && is_fitting(
                        s,
                        span,
                    ) && forall|j: int|
                        from + 1 <= j < k ==> !is_fitting(trim_of(#[trigger] parts[j]), span);
                assert(s == trim_of(parts[k]));
                assert forall|j: int| from <= j < k implies !is_fitting(
                    trim_of(#[trigger] parts[j]),
                    span,
                ) by {}
            }
        }
    }
}

/// Whether the trimmed sentence `k` of `text` holds `span` and six words or more.
pub open spec fn can_be_blanked(text: Seq<char>, span: Seq<char>, k: int) -> bool {
    let sentences = pieces_of(text, Cut::Sentence);
    &&& 0 <= k < sentences.len()
    &&& occurs_in(trim_of(sentences[k]), span)
    &&& words_of(trim_of(sentences[k])).len() >= 6
}

/// The sentence that is found is the first that holds the span and six words or
/// more, trimmed; and one is found where there is any.
pub proof fn law_the_first_long_sentence_is_found(text: Seq<char>, span: Seq<char>)
    ensures
        match sentence_of(text, span) {
            Some(s) => exists|k: int|
                #![trigger can_be_blanked(text, span, k)]
                can_be_blanked(text, span, k) && s == trim_of(pieces_of(text, Cut::Sentence)[k])
                    && forall|j: int| j < k ==> !#[trigger] can_be_blanked(text, span, j),
            None => forall|k: int| !#[trigger] can_be_blanked(text, span, k),
        },
{
    let parts = pieces_of(text, Cut::Sentence);
    lemma_first_fitting(parts, span, 0);
    assert forall|k: int| #[trigger] can_be_blanked(text, span, k) == (0 <= k < parts.len()
        && is_fitting(trim_of(parts[k]), span)) by {}
    if let Some(s) = sentence_of(text, span) {
        let k = choose|k: int|
            0 <= k < parts.len() && s == trim_of(#[trigger] parts[k]) && is_fitting(s, span)
                && forall|j: int| 0 <= j < k ==> !is_fitting(trim_of(#[trigger] parts[j]), span);
        assert(can_be_blanked(text, span, k));
    }
}

proof fn lemma_digit_count(s: Seq<char>)
    ensures
        digit_count(s) == s.filter(|c: char| '0' as u32 <= c as u32 <= '9' as u32).len(),
    decreases s.len(),
{
    reveal(Seq::filter);
    if s.len() > 0 {
        lemma_digit_count(s.drop_last());
    }
}

/// A span gives a question exactly where it has two digits or more and stands in a
/// sentence that is long enough. The question is that sentence with the first such
/// span blanked out, and the span is the answer.
pub proof fn law_questions_blank_out_the_answer(chunk: ChunkModel, span: Seq<char>)
    ensures
        cloze_for(chunk, span) is Some <==> span.filter(
            |c: char| '0' as u32 <= c as u32 <= '9' as u32,
        ).len() >= 2 && sentence_of(chunk.text, span) is Some,
        cloze_for(chunk, span) matches Some(e) ==> {
            &&& e.response == span
            &&& e.context == chunk.text
            &&& e.source == "cloze:"@ + chunk.source
            &&& exists|before: Seq<char>, after: Seq<char>|
                #![trigger before + span + after]
                sentence_of(chunk.text, span) == Some(before + span + after) && e.question
                    == "Fill in the blank using the context:\n"@ + (before + "____"@ + after)
                    && forall|k: int|
                    0 <= k < before.len() ==> !#[trigger] occurs_at(before + span + after, span, k)
        },
{
    lemma_digit_count(span);
    if digit_count(span) >= 2 && sentence_of(chunk.text, span) is Some {
        let sentence = sentence_of(chunk.text, span)->0;
        let blank = "____"@;
        lemma_first_fitting(pieces_of(chunk.text, Cut::Sentence), span, 0);
        assert(is_fitting(sentence, span));
        lemma_first_from(sentence, span, 0);
        let i = first_from(sentence, span, 0)->0;
        let before = sentence.take(i);
        let after = sentence.skip(i + span.len());
        assert(sentence =~= before + span + after);
        let blanked = replace_first_of(sentence, span, blank);
        assert(blanked =~= before + blank + after);
        if blanked == sentence {
            reveal_strlit("____");
            assert(blanked.len() == sentence.len());
            assert(span =~= blank) by {
                assert forall|k: int| 0 <= k < 4 implies span[k] == blank[k] by {
                    assert(sentence[i + k] == span[k]);
                    assert(blanked[i + k] == blank[k]);
                }
            }
            reveal_with_fuel(digit_count, 5);
        }
        assert(cloze_for(chunk, span) is Some);
        assert(sentence == before + span + after);
    }
}

/// A chunk gives the question of the first of its numbers that gives one.
pub proof fn law_the_first_question_is_asked(chunk: ChunkModel, spans: Seq<Seq<char>>, from: int)
    requires
        0 <= from <= spans.len(),
    ensures
        match first_cloze(chunk, spans, from) {
            Some(e) => exists|k: int|
                from <= k < spans.len() && cloze_for(chunk, #[trigger] spans[k]) == Some(e)
                    && forall|j: int|
                    from <= j < k ==> cloze_for(chunk, #[trigger] spans[j]) is None,
            None => forall|j: int|
                from <= j < spans.len() ==> cloze_for(chunk, #[trigger] spans[j]) is None,
        },
    decreases spans.len() - from,
{
    if from < spans.len() {
        if cloze_for(chunk, spans[from]) is Some {
            assert(first_cloze(chunk, spans, from) == cloze_for(chunk, spans[from]));
        } else {
            law_the_first_question_is_asked(chunk, spans, from + 1);
            if let Some(e) = first_cloze(chunk, spans, from) {
                let k = choose|k: int|
                    from + 1 <= k < spans.len() && cloze_for(chunk, #[trigger] spans[k]) == Some(e)
                        && forall|j: int|
                        from + 1 <= j < k ==> cloze_for(chunk, #[trigger] spans[j]) is None;
                assert(cloze_for(chunk, spans[k]) == Some(e));
                assert forall|j: int| from <= j < k implies cloze_for(
                    chunk,
                    #[trigger] spans[j],
                ) is None by {}
            }
        }
    }
}

/// The questions are asked chunk by chunk, in the order given, at most one of each.
pub proof fn law_questions_are_asked_chunk_by_chunk(
    chunks: Seq<Chunk>,
    a: Seq<usize>,
    b: Seq<usize>,
    i: usize,
)
    ensures
        clozes(chunks, a + b) == clozes(chunks, a) + clozes(chunks, b),
        clozes(chunks, seq![i]) == match first_cloze(
            chunks[i as int]@,
            found(r"\b\d[\d,]*\b"@, chunks[i as int].text@),
            0,
        ) {
            Some(e) => seq![e],
            None => Seq::empty(),
        },
    decreases b.len(),
{
    reveal_with_fuel(clozes, 2);
    assert(seq![i].drop_last() =~= Seq::empty());
    assert(clozes(chunks, seq![i]) =~= match first_cloze(
        chunks[i as int]@,
        found(r"\b\d[\d,]*\b"@, chunks[i as int].text@),
        0,
    ) {
        Some(e) => seq![e],
        None => Seq::empty(),
    });
    if b.len() == 0 {
        assert(a + b =~= a);
        assert(clozes(chunks, a) + clozes(chunks, b) =~= clozes(chunks, a));
    } else {
        law_questions_are_asked_chunk_by_chunk(chunks, a, b.drop_last(), i);
        assert((a + b).drop_last() =~= a + b.drop_last());
        assert(clozes(chunks, a + b) =~= clozes(chunks, a) + clozes(chunks, b));
    }
}

/// An order names every chunk once.
pub proof fn law_orders_name_every_chunk_once(order: Seq<usize>, n: int)
    requires
        0 <= n <= usize::MAX,
        is_order(order, n),
    ensures
        order.len() == n,
        order.no_duplicates(),
        forall|i: int| 0 <= i < order.len() ==> #[trigger] order[i] < n,
        forall|i: usize| i < n ==> #[trigger] order.contains(i),
{
    broadcast use vstd::seq_lib::group_to_multiset_ensures;

    let straight = Seq::new(n as nat, |i: int| i as usize);
    lemma_order_in_range(order, n);
    lemma_same_count(order, straight);
    assert(straight.no_duplicates());
    straight.lemma_multiset_has_no_duplicates();
    assert(order.to_multiset().dom() == straight.to_multiset().dom());
    order.lemma_multiset_has_no_duplicates_conv();
    assert forall|i: usize| i < n implies #[trigger] order.contains(i) by {
        assert(straight[i as int] == i);
        assert(straight.contains(i));
        assert(straight.to_multiset().count(i) > 0);
    }
}

/// The first items are taken, as many as are asked for or all of them.
pub proof fn law_at_most_takes_the_first<T>(s: Seq<T>, n: int)
    requires
        0 <= n,
    ensures
        at_most(s, n).is_prefix_of(s),
        at_most(s, n).len() == if s.len() < n {
            s.len() as int
        } else {
            n
        },
{
    assert(s.take(s.len() as int) =~= s);
}

/// Repeated items come around again and again.
pub proof fn law_repeated_items_come_around<T>(items: Seq<T>, times: nat, k: nat, j: int)
    requires
        k < times,
        0 <= j < items.len(),
    ensures
        repeated(items, times).len() == times * items.len(),
        0 <= k * items.len() + j < times * items.len(),
        repeated(items, times)[k * items.len() + j] == items[j],
    decreases times,
{
    let n = items.len();
    let less = (times - 1) as nat;
    lemma_repeated_len(items, times);
    lemma_repeated_len(items, less);
    assert(times * n == less * n + n) by (nonlinear_arith)
        requires
            times == less + 1,
    ;
    assert(k * n + j < times * n) by (nonlinear_arith)
        requires
            k < times,
            0 <= j < n,
    ;
    assert(0 <= k * n) by (nonlinear_arith);
    if k < less {
        law_repeated_items_come_around(items, less, k, j);
    } else {
        assert(k * n == less * n);
    }
}

proof fn lemma_repeated_len<T>(items: Seq<T>, times: nat)
    ensures
        repeated(items, times).len() == times * items.len(),
    decreases times,
{
    if times > 0 {
        let less = (times - 1) as nat;
        lemma_repeated_len(items, less);
        let n = items.len();
        assert(times * n == less * n + n) by (nonlinear_arith)
            requires
                times == less + 1,
        ;
    } else {
        assert(0 * items.len() == 0) by (nonlinear_arith);
    }
}

/// One example in twenty is held out, rounded down.
pub proof fn law_one_in_twenty_is_held_out(n: int)
    requires
        0 <= n,
    ensures
        20 * held_out(n) <= n < 20 * (held_out(n) + 1),
{
}

/// Drawn examples are problems, each with its question and its trace.
pub proof fn law_drawn_examples_are_problems(made: Seq<ExampleModel>, draws: Seq<Draw>, i: int)
    requires
        are_drawn(made, draws),
        0 <= i < made.len(),
    ensures
        made.len() == draws.len(),
        exists|op: Op, a: int, b: int, wording: int|
            is_problem(op, a, b) && 0 <= wording < 4 && made[i] == #[trigger] calculator_model(
                op,
                a,
                b,
                wording,
            ),
{
    let d = draws[i];
    assert(d.in_range());
    law_draws_are_problems(d);
    assert(made[i] == calculator_model(
        d.op(),
        d.operands().0,
        d.operands().1,
        d.wording as int,
    ));
}

/// There are no more questions than were asked for, and fewer only where no chunk
/// gives another.
pub proof fn law_as_many_questions_as_asked_for(
    made: Seq<ExampleModel>,
    chunks: Seq<Chunk>,
    n: int,
)
    requires
        0 <= n,
        are_clozes(made, chunks, n),
    ensures
        made.len() <= n,
        exists|order: Seq<usize>| #[trigger]
            is_order(order, chunks.len() as int) && made.is_prefix_of(clozes(chunks, order)) && (
            made.len() < n ==> made == clozes(chunks, order)),
{
    let order = choose|order: Seq<usize>| #[trigger]
        is_order(order, chunks.len() as int) && made == at_most(clozes(chunks, order), n);
    law_at_most_takes_the_first(clozes(chunks, order), n);
    assert(is_order(order, chunks.len() as int));
}

} // verus!
