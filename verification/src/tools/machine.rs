//! Carrying out the plan of an expression, on whatever kind of number the caller
//! computes with.
use crate::text::without;
use crate::tools::calculator::{
    fault_view, lex_of, plan, plan_of, step_view, steps_view, Amount, Fault, Plan, Step,
};
use crate::tools::grammar::{
    has_numbers, height, is_expr, law_accepts_the_grammar, law_leading_steps_are_taken,
    law_plan_computes_the_tree, law_plan_is_postfix, law_plan_never_lacks_an_operand,
    law_steps_compute_the_tree, law_written_trees_are_read, postfix_of, run_on, spells, text_of,
    tokens_of, value_of, Arithmetic, Tree,
};
use vstd::prelude::*;

verus! {

/// An operation on two numbers.
#[derive(Debug, Clone, Copy, PartialEq, Eq)]
pub enum Operation {
    Add,
    Subtract,
    Multiply,
    Divide,
}

/// Why an expression has no value.
#[derive(Debug)]
pub enum Failure {
    /// It is not well-formed.
    Malformed(Fault<String>),
    /// It divides by zero.
    DivisionByZero,
}

/// Whether the executable operations are those of `ar`.
pub open spec fn agrees<V, N: Fn(&str) -> V, U: Fn(V) -> V, O: Fn(Operation, V, V) -> Option<V>>(
    ar: Arithmetic<V>,
    num: N,
    neg: U,
    op: O,
) -> bool {
    &&& forall|s: &str, v: V| #[trigger] call_ensures(num, (s,), v) ==> v == (ar.num)(s@)
    &&& forall|a: V, v: V| #[trigger] call_ensures(neg, (a,), v) ==> v == (ar.neg)(a)
    &&& forall|a: V, b: V, r: Option<V>| #[trigger]
        call_ensures(op, (Operation::Add, a, b), r) ==> r == Some((ar.plus)(a, b))
    &&& forall|a: V, b: V, r: Option<V>| #[trigger]
        call_ensures(op, (Operation::Subtract, a, b), r) ==> r == Some((ar.minus)(a, b))
    &&& forall|a: V, b: V, r: Option<V>| #[trigger]
        call_ensures(op, (Operation::Multiply, a, b), r) ==> r == Some((ar.times)(a, b))
    &&& forall|a: V, b: V, r: Option<V>| #[trigger]
        call_ensures(op, (Operation::Divide, a, b), r) ==> r == (ar.div)(a, b)
}

/// What evaluating `s` gives in the arithmetic `ar`. A division by zero stops
/// it before a fault that comes later.
pub open spec fn result_of<V>(ar: Arithmetic<V>, s: Seq<char>) -> Result<
    V,
    Option<Fault<Seq<char>>>,
> {
    let plan = plan_of(s);
    match run_on(ar, plan.steps, Seq::empty()) {
        None => Err(None),
        Some(stack) => match plan.fault {
            Some(f) => Err(Some(f)),
            None => Ok(stack.last()),
        },
    }
}

/// A failure as [`result_of`] tells it.
pub open spec fn failure_view(f: Failure) -> Option<Fault<Seq<char>>> {
    match f {
        Failure::Malformed(fault) => Some(fault_view(fault)),
        Failure::DivisionByZero => None,
    }
}

proof fn lemma_height_prefix(steps: Seq<Step<Seq<char>>>, i: int)
    requires
        0 <= i <= steps.len(),
        height(steps, 0) is Some,
    ensures
        height(steps.take(i), 0) is Some,
    decreases steps.len() - i,
{
    if i == steps.len() {
        assert(steps.take(i) =~= steps);
    } else {
        lemma_height_prefix(steps, i + 1);
        assert(steps.take(i + 1).drop_last() =~= steps.take(i));
    }
}

proof fn lemma_run_prefix<V>(ar: Arithmetic<V>, steps: Seq<Step<Seq<char>>>, i: int)
    requires
        0 <= i <= steps.len(),
        run_on(ar, steps.take(i), Seq::empty()) is None,
    ensures
        run_on(ar, steps, Seq::empty()) is None,
    decreases steps.len() - i,
{
    if i == steps.len() {
        assert(steps.take(i) =~= steps);
    } else {
        assert(steps.take(i + 1).drop_last() =~= steps.take(i));
        lemma_run_prefix(ar, steps, i + 1);
    }
}

/// Whether `r` is what evaluating `expr` gives, in whatever arithmetic the
/// executable operations are. An expression that is not well-formed has no value
/// in any of them, and its fault is told.
pub open spec fn evaluated<
    V,
    N: Fn(&str) -> V,
    U: Fn(V) -> V,
    O: Fn(Operation, V, V) -> Option<V>,
>(num: N, neg: U, op: O, expr: Seq<char>, r: Result<V, Failure>) -> bool {
    &&& r is Ok ==> plan_of(expr).fault is None
    &&& r matches Err(Failure::Malformed(f)) ==> plan_of(expr).fault == Some(fault_view(f))
    &&& forall|ar: Arithmetic<V>| #[trigger]
        agrees(ar, num, neg, op) ==> match r {
            Ok(v) => result_of(ar, expr) == Ok::<V, Option<Fault<Seq<char>>>>(v),
            Err(f) => result_of(ar, expr) == Err::<V, Option<Fault<Seq<char>>>>(failure_view(f)),
        }
}

fn carry_out<V: Copy, N: Fn(&str) -> V, U: Fn(V) -> V, O: Fn(Operation, V, V) -> Option<V>>(
    expr: &str,
    num: &N,
    neg: &U,
    op: &O,
) -> (r: Result<V, Failure>)
    requires
        forall|s: &str| call_requires(*num, (s,)),
        forall|a: V| call_requires(*neg, (a,)),
        forall|o: Operation, a: V, b: V| call_requires(*op, (o, a, b)),
    ensures
        evaluated(*num, *neg, *op, expr@, r),
{
    let made: Plan = plan(expr);
    let ghost steps = steps_view(made.steps@);
    proof {
        law_plan_never_lacks_an_operand(expr@);
    }
    let mut stack: Vec<V> = Vec::new();
    let mut i: usize = 0;
    while i < made.steps.len()
        invariant
            i <= made.steps.len(),
            steps == steps_view(made.steps@),
            made@ == plan_of(expr@),
            height(steps, 0) is Some,
            height(steps.take(i as int), 0) == Some(stack@.len() as int),
            forall|s: &str| call_requires(*num, (s,)),
            forall|a: V| call_requires(*neg, (a,)),
            forall|o: Operation, a: V, b: V| call_requires(*op, (o, a, b)),
            forall|ar: Arithmetic<V>| #[trigger]
                agrees(ar, *num, *neg, *op) ==> run_on(ar, steps.take(i as int), Seq::empty())
                    == Some(stack@),
        decreases made.steps.len() - i,
    {
        let ghost before = stack@;
        proof {
            assert(steps.take(i + 1).drop_last() =~= steps.take(i as int));
            assert(steps.take(i + 1).last() == step_view(made.steps@[i as int]));
            lemma_height_prefix(steps, i + 1);
        }
        let code: Option<Operation> = match &made.steps[i] {
            Step::Push(text) => {
                stack.push(num(text.as_str()));
                None
            },
            Step::Negate => {
                let n: usize = stack.len();
                let a: V = stack[n - 1];
                stack.pop();
                stack.push(neg(a));
                None
            },
            Step::Add => Some(Operation::Add),
            Step::Subtract => Some(Operation::Subtract),
            Step::Multiply => Some(Operation::Multiply),
            Step::Divide => Some(Operation::Divide),
        };
        if let Some(o) = code {
            let n: usize = stack.len();
            let b: V = stack[n - 1];
            let a: V = stack[n - 2];
            stack.pop();
            stack.pop();
            assert(stack@ =~= before.take(before.len() - 2));
            match op(o, a, b) {
                Some(v) => {
                    stack.push(v);
                },
                None => {
                    assert forall|ar: Arithmetic<V>| #[trigger]
                        agrees(ar, *num, *neg, *op) implies result_of(ar, expr@) == Err::<
                        V,
                        Option<Fault<Seq<char>>>,
                    >(None) by {
                        assert(run_on(ar, steps.take(i as int), Seq::empty()) == Some(before));
                        lemma_run_prefix(ar, steps, i + 1);
                    }
                    return Err(Failure::DivisionByZero);
                },
            }
        }
        assert forall|ar: Arithmetic<V>| #[trigger] agrees(ar, *num, *neg, *op) implies run_on(
            ar,
            steps.take(i + 1),
            Seq::empty(),
        ) == Some(stack@) by {
            assert(run_on(ar, steps.take(i as int), Seq::empty()) == Some(before));
        }
        i += 1;
    }
    assert(steps.take(i as int) =~= steps);
    match made.fault {
        Some(f) => Err(Failure::Malformed(f)),
        None => {
            let n: usize = stack.len();
            Ok(stack[n - 1])
        },
    }
}

/// Evaluates an expression: `num` reads a number, `neg` negates one, and `op`
/// combines two, giving `None` where the divisor is zero.
pub fn eval<V: Copy, N: Fn(&str) -> V, U: Fn(V) -> V, O: Fn(Operation, V, V) -> Option<V>>(
    expr: &str,
    num: N,
    neg: U,
    op: O,
) -> (r: Result<V, Failure>)
    requires
        forall|s: &str| call_requires(num, (s,)),
        forall|a: V| call_requires(neg, (a,)),
        forall|o: Operation, a: V, b: V| call_requires(op, (o, a, b)),
    ensures
        evaluated(num, neg, op, expr@, r),
{
    carry_out(expr, &num, &neg, &op)
}

/// The calculator as a tool: the operations it computes with, and how a value is
/// handed over to be shown.
pub struct Calculator<N, U, O, S> {
    pub num: N,
    pub neg: U,
    pub op: O,
    pub show: S,
}

/// Whether the operations of the calculator can be carried out on any values.
pub open spec fn is_total<
    V,
    N: Fn(&str) -> V,
    U: Fn(V) -> V,
    O: Fn(Operation, V, V) -> Option<V>,
    S: Fn(V) -> Amount,
>(c: Calculator<N, U, O, S>) -> bool {
    &&& forall|s: &str| call_requires(c.num, (s,))
    &&& forall|a: V| call_requires(c.neg, (a,))
    &&& forall|o: Operation, a: V, b: V| call_requires(c.op, (o, a, b))
    &&& forall|a: V| call_requires(c.show, (a,))
}

/// Whether the calculator may answer `expr` with `amount`: the value of the
/// expression as it is shown, or `None` where it has none. Whatever is answered
/// is something that `show` gives.
pub open spec fn answers<
    V,
    N: Fn(&str) -> V,
    U: Fn(V) -> V,
    O: Fn(Operation, V, V) -> Option<V>,
    S: Fn(V) -> Amount,
>(c: Calculator<N, U, O, S>, expr: Seq<char>, amount: Option<Amount>) -> bool {
    &&& amount is Some ==> plan_of(expr).fault is None
    &&& amount matches Some(a) ==> exists|v: V| #[trigger] call_ensures(c.show, (v,), a)
    &&& forall|ar: Arithmetic<V>| #[trigger]
        agrees(ar, c.num, c.neg, c.op) ==> match result_of(ar, expr) {
            Ok(v) => amount is Some && call_ensures(c.show, (v,), amount->0),
            Err(_) => amount is None,
        }
}

/// What the calculator answers to `expr`; `None` where it has no value.
pub fn answer<
    V: Copy,
    N: Fn(&str) -> V,
    U: Fn(V) -> V,
    O: Fn(Operation, V, V) -> Option<V>,
    S: Fn(V) -> Amount,
>(c: &Calculator<N, U, O, S>, expr: &str) -> (r: Option<Amount>)
    requires
        is_total::<V, N, U, O, S>(*c),
    ensures
        answers::<V, N, U, O, S>(*c, expr@, r),
{
    match carry_out::<V, N, U, O>(expr, &c.num, &c.neg, &c.op) {
        Ok(v) => {
            let show: &S = &c.show;
            Some(show(v))
        },
        Err(_) => None,
    }
}

/// Evaluating a text that spells a tree gives the tree's value, in whatever
/// arithmetic, and fails exactly where the tree divides by zero.
pub proof fn law_eval_computes_the_tree<V>(ar: Arithmetic<V>, s: Seq<char>, t: Tree)
    requires
        is_expr(t),
        spells(s, t),
    ensures
        result_of(ar, s) == match value_of(ar, t) {
            Some(v) => Ok::<V, Option<Fault<Seq<char>>>>(v),
            None => Err::<V, Option<Fault<Seq<char>>>>(None),
        },
{
    law_plan_is_postfix(s, t);
    law_plan_computes_the_tree(ar, s, t);
}

/// Writing an expression down and evaluating the text gives the expression's
/// value, in whatever arithmetic.
pub proof fn law_written_expressions_have_their_value<V>(ar: Arithmetic<V>, t: Tree)
    requires
        is_expr(t),
        has_numbers(t),
    ensures
        result_of(ar, text_of(t)) == match value_of(ar, t) {
            Some(v) => Ok::<V, Option<Fault<Seq<char>>>>(v),
            None => Err::<V, Option<Fault<Seq<char>>>>(None),
        },
{
    law_written_trees_are_read(t);
    law_eval_computes_the_tree(ar, text_of(t), t);
}

/// Nothing but an expression has a value, and it is the expression's.
pub proof fn law_only_expressions_have_values<V>(ar: Arithmetic<V>, s: Seq<char>)
    ensures
        result_of(ar, s) matches Ok(v) ==> exists|t: Tree|
            is_expr(t) && #[trigger] spells(s, t) && value_of(ar, t) == Some(v),
        result_of(ar, s) matches Err(Some(f)) ==> plan_of(s).fault == Some(f),
        (forall|t: Tree| is_expr(t) ==> !#[trigger] spells(s, t)) ==> result_of(ar, s) is Err,
{
    law_accepts_the_grammar(s);
    if plan_of(s).fault is None {
        let t = choose|t: Tree| is_expr(t) && spells(s, t);
        assert(is_expr(t) && spells(s, t));
        law_eval_computes_the_tree(ar, s, t);
    }
}

proof fn lemma_run_of_prefix<V>(
    ar: Arithmetic<V>,
    a: Seq<Step<Seq<char>>>,
    all: Seq<Step<Seq<char>>>,
)
    requires
        a.is_prefix_of(all),
        run_on(ar, a, Seq::empty()) is None,
    ensures
        run_on(ar, all, Seq::empty()) is None,
{
    assert(all.take(a.len() as int) =~= a);
    lemma_run_prefix(ar, all, a.len() as int);
}

/// A division by zero in a complete expression is told before anything that is
/// wrong with what follows it.
pub proof fn law_zero_division_is_told_first<V>(ar: Arithmetic<V>, s: Seq<char>, t: Tree)
    requires
        lex_of(without(s, ',')) is Ok,
        is_expr(t),
        tokens_of(t).is_prefix_of(lex_of(without(s, ','))->Ok_0),
        ({
            let toks = lex_of(without(s, ','))->Ok_0;
            let n = tokens_of(t).len() as int;
            n < toks.len() ==> !(toks[n] is Star || toks[n] is Slash)
        }),
        value_of(ar, t) is None,
    ensures
        result_of(ar, s) == Err::<V, Option<Fault<Seq<char>>>>(None),
{
    law_leading_steps_are_taken(s, t);
    law_steps_compute_the_tree(ar, t);
    lemma_run_of_prefix(ar, postfix_of(t), plan_of(s).steps);
}

/// The calculator answers a text that spells an expression with what it shows of
/// the expression's value, and has no answer where that divides by zero or where
/// the text spells none.
pub proof fn law_answers_show_the_value<
    V,
    N: Fn(&str) -> V,
    U: Fn(V) -> V,
    O: Fn(Operation, V, V) -> Option<V>,
    S: Fn(V) -> Amount,
>(
    c: Calculator<N, U, O, S>,
    ar: Arithmetic<V>,
    expr: Seq<char>,
    t: Tree,
    amount: Option<Amount>,
)
    requires
        agrees(ar, c.num, c.neg, c.op),
        answers::<V, N, U, O, S>(c, expr, amount),
    ensures
        is_expr(t) && spells(expr, t) ==> match value_of(ar, t) {
            Some(v) => amount is Some && call_ensures(c.show, (v,), amount->0),
            None => amount is None,
        },
        (forall|t: Tree| is_expr(t) ==> !#[trigger] spells(expr, t)) ==> amount is None,
{
    if is_expr(t) && spells(expr, t) {
        law_eval_computes_the_tree(ar, expr, t);
    }
    law_only_expressions_have_values(ar, expr);
}

/// Evaluation gives the value of the expression that the text spells; and where
/// it spells none, the text is told to be malformed or to divide by zero before
/// that.
pub proof fn law_evaluation_gives_the_value<
    V,
    N: Fn(&str) -> V,
    U: Fn(V) -> V,
    O: Fn(Operation, V, V) -> Option<V>,
>(
    ar: Arithmetic<V>,
    num: N,
    neg: U,
    op: O,
    expr: Seq<char>,
    t: Tree,
    r: Result<V, Failure>,
)
    requires
        agrees(ar, num, neg, op),
        evaluated(num, neg, op, expr, r),
    ensures
        is_expr(t) && spells(expr, t) ==> match value_of(ar, t) {
            Some(v) => r == Ok::<V, Failure>(v),
            None => r matches Err(f) && f is DivisionByZero,
        },
        (forall|t: Tree| is_expr(t) ==> !#[trigger] spells(expr, t)) ==> r is Err,
        r matches Err(Failure::Malformed(f)) ==> plan_of(expr).fault == Some(fault_view(f)),
{
    if is_expr(t) && spells(expr, t) {
        law_eval_computes_the_tree(ar, expr, t);
        law_plan_is_postfix(expr, t);
    }
    law_only_expressions_have_values(ar, expr);
}

} // verus!
