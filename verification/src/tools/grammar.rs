//! The grammar of calculator expressions as trees, and what it says of
//! [`plan`](crate::tools::calculator::plan): which expressions are accepted,
//! that the plan of an accepted one is its tree in postfix order, and that
//! carrying out a plan never runs out of operands.
use crate::text::without;
use crate::tools::calculator::{
    ends_number, expr_at, factor_at, in_front, is_numeric, law_characters_are_told_apart,
    law_numbers_are_read_whole, lemma_expr_advances, lemma_factor_advances, lemma_term_advances,
    lex_of, plan_of, product_step, products_at, steps_before, sum_step, sums_at, term_at, tok_text,
    Fault, Parsed, PlanModel, Step, Tok,
};
use vstd::prelude::*;

verus! {

/// An expression tree. The parentheses of the text are nodes of the tree.
pub enum Tree {
    Num(Seq<char>),
    Neg(Box<Tree>),
    Pos(Box<Tree>),
    Paren(Box<Tree>),
    Bin(Tok<Seq<char>>, Box<Tree>, Box<Tree>),
}

/// A number, a signed factor, or any expression in parentheses.
pub open spec fn is_factor(t: Tree) -> bool
    decreases t, 0nat,
{
    match t {
        Tree::Num(_) => true,
        Tree::Neg(f) => is_factor(*f),
        Tree::Pos(f) => is_factor(*f),
        Tree::Paren(e) => is_expr(*e),
        Tree::Bin(_, _, _) => false,
    }
}

/// Factors multiplied or divided, grouped from the left.
pub open spec fn is_term(t: Tree) -> bool
    decreases t, 1nat,
{
    match t {
        Tree::Bin(op, l, r) => product_step(op) is Some && is_term(*l) && is_factor(*r),
        _ => is_factor(t),
    }
}

/// Terms added or subtracted, grouped from the left.
pub open spec fn is_expr(t: Tree) -> bool
    decreases t, 2nat,
{
    match t {
        Tree::Bin(op, l, r) => if sum_step(op) is Some {
            is_expr(*l) && is_term(*r)
        } else {
            is_term(t)
        },
        _ => is_factor(t),
    }
}

/// The tokens of a tree, from left to right.
pub open spec fn tokens_of(t: Tree) -> Seq<Tok<Seq<char>>>
    decreases t,
{
    match t {
        Tree::Num(text) => seq![Tok::Num(text)],
        Tree::Neg(f) => seq![Tok::<Seq<char>>::Minus] + tokens_of(*f),
        Tree::Pos(f) => seq![Tok::<Seq<char>>::Plus] + tokens_of(*f),
        Tree::Paren(e) => seq![Tok::<Seq<char>>::LParen] + tokens_of(*e) + seq![
            Tok::<Seq<char>>::RParen,
        ],
        Tree::Bin(op, l, r) => tokens_of(*l) + seq![op] + tokens_of(*r),
    }
}

/// The step of a binary operator.
pub open spec fn bin_step(op: Tok<Seq<char>>) -> Step<Seq<char>> {
    if sum_step(op) is Some {
        sum_step(op)->0
    } else {
        product_step(op)->0
    }
}

/// The steps of a tree in postfix order.
pub open spec fn postfix_of(t: Tree) -> Seq<Step<Seq<char>>>
    decreases t,
{
    match t {
        Tree::Num(text) => seq![Step::Push(text)],
        Tree::Neg(f) => postfix_of(*f).push(Step::Negate),
        Tree::Pos(f) => postfix_of(*f),
        Tree::Paren(e) => postfix_of(*e),
        Tree::Bin(op, l, r) => postfix_of(*l) + postfix_of(*r).push(bin_step(op)),
    }
}

// ---------------------------------------------------------------------------
// Every tree is read back
// ---------------------------------------------------------------------------

/// The tokens of `t` stand in `toks` at `pos`.
spec fn stands(t: Tree, toks: Seq<Tok<Seq<char>>>, pos: int) -> bool {
    &&& 0 <= pos
    &&& pos + tokens_of(t).len() <= toks.len()
    &&& toks.subrange(pos, pos + tokens_of(t).len()) == tokens_of(t)
}

proof fn lemma_stands(t: Tree, toks: Seq<Tok<Seq<char>>>, pos: int)
    requires
        stands(t, toks, pos),
    ensures
        match t {
            Tree::Num(text) => toks[pos] == Tok::Num(text),
            Tree::Neg(f) => toks[pos] == Tok::<Seq<char>>::Minus && stands(*f, toks, pos + 1),
            Tree::Pos(f) => toks[pos] == Tok::<Seq<char>>::Plus && stands(*f, toks, pos + 1),
            Tree::Paren(e) => {
                &&& toks[pos] == Tok::<Seq<char>>::LParen
                &&& stands(*e, toks, pos + 1)
                &&& toks[pos + 1 + tokens_of(*e).len()] == Tok::<Seq<char>>::RParen
            },
            Tree::Bin(op, l, r) => {
                &&& stands(*l, toks, pos)
                &&& toks[pos + tokens_of(*l).len()] == op
                &&& stands(*r, toks, pos + tokens_of(*l).len() + 1)
            },
        },
{
    let all = tokens_of(t);
    assert(forall|k: int| 0 <= k < all.len() ==> #[trigger] toks[pos + k] == all[k]) by {
        assert forall|k: int| 0 <= k < all.len() implies #[trigger] toks[pos + k] == all[k] by {
            assert(toks.subrange(pos, pos + all.len())[k] == all[k]);
        }
    }
    assert(toks[pos + 0] == all[0] || all.len() == 0);
    match t {
        Tree::Num(text) => {},
        Tree::Neg(f) => {
            let n = tokens_of(*f).len();
            assert(toks.subrange(pos + 1, pos + 1 + n) =~= tokens_of(*f)) by {
                assert forall|k: int| 0 <= k < n implies toks[pos + 1 + k] == tokens_of(*f)[k] by {
                    assert(toks[pos + (1 + k)] == all[1 + k]);
                }
            }
        },
        Tree::Pos(f) => {
            let n = tokens_of(*f).len();
            assert(toks.subrange(pos + 1, pos + 1 + n) =~= tokens_of(*f)) by {
                assert forall|k: int| 0 <= k < n implies toks[pos + 1 + k] == tokens_of(*f)[k] by {
                    assert(toks[pos + (1 + k)] == all[1 + k]);
                }
            }
        },
        Tree::Paren(e) => {
            let n = tokens_of(*e).len();
            assert(toks.subrange(pos + 1, pos + 1 + n) =~= tokens_of(*e)) by {
                assert forall|k: int| 0 <= k < n implies toks[pos + 1 + k] == tokens_of(*e)[k] by {
                    assert(toks[pos + (1 + k)] == all[1 + k]);
                }
            }
            assert(toks[pos + (1 + n)] == all[(1 + n) as int]);
        },
        Tree::Bin(op, l, r) => {
            let m = tokens_of(*l).len();
            let n = tokens_of(*r).len();
            assert(toks.subrange(pos, pos + m) =~= tokens_of(*l)) by {
                assert forall|k: int| 0 <= k < m implies toks[pos + k] == tokens_of(*l)[k] by {
                    assert(toks[pos + k] == all[k]);
                }
            }
            assert(toks[pos + m] == all[m as int]);
            assert(toks.subrange(pos + m + 1, pos + m + 1 + n) =~= tokens_of(*r)) by {
                assert forall|k: int| 0 <= k < n implies toks[pos + m + 1 + k] == tokens_of(
                    *r,
                )[k] by {
                    assert(toks[pos + (m + 1 + k)] == all[m + 1 + k]);
                }
            }
        },
    }
}

proof fn lemma_tokens_not_empty(t: Tree)
    ensures
        tokens_of(t).len() >= 1,
    decreases t,
{
    match t {
        Tree::Bin(_, l, _) => lemma_tokens_not_empty(*l),
        _ => {},
    }
}

proof fn lemma_factor_reads(t: Tree, toks: Seq<Tok<Seq<char>>>, pos: int)
    requires
        is_factor(t),
        stands(t, toks, pos),
    ensures
        factor_at(toks, pos) == (Parsed {
            steps: postfix_of(t),
            end: Ok(pos + tokens_of(t).len()),
        }),
    decreases t, 0nat,
{
    lemma_stands(t, toks, pos);
    match t {
        Tree::Num(_) => {},
        Tree::Neg(f) => {
            lemma_factor_reads(*f, toks, pos + 1);
        },
        Tree::Pos(f) => {
            lemma_factor_reads(*f, toks, pos + 1);
        },
        Tree::Paren(e) => {
            let q = pos + 1 + tokens_of(*e).len();
            lemma_expr_reads(*e, toks, pos + 1);
            assert(sums_at(toks, q) == (Parsed { steps: Seq::empty(), end: Ok(q) }));
            assert(postfix_of(*e) + Seq::<Step<Seq<char>>>::empty() =~= postfix_of(*e));
        },
        Tree::Bin(_, _, _) => {},
    }
}

proof fn lemma_term_reads(t: Tree, toks: Seq<Tok<Seq<char>>>, pos: int)
    requires
        is_term(t),
        stands(t, toks, pos),
    ensures
        term_at(toks, pos) == steps_before(
            postfix_of(t),
            products_at(toks, pos + tokens_of(t).len()),
        ),
    decreases t, 1nat,
{
    lemma_stands(t, toks, pos);
    lemma_tokens_not_empty(t);
    match t {
        Tree::Bin(op, l, r) => {
            let m = pos + tokens_of(*l).len();
            let q = m + 1 + tokens_of(*r).len();
            lemma_term_reads(*l, toks, pos);
            lemma_factor_reads(*r, toks, m + 1);
            let rest = products_at(toks, q);
            assert(products_at(toks, m) == steps_before(
                postfix_of(*r).push(product_step(op)->0),
                rest,
            ));
            assert(sum_step(op) is None);
            assert(postfix_of(*l) + (postfix_of(*r).push(bin_step(op)) + rest.steps)
                =~= postfix_of(t) + rest.steps);
        },
        _ => {
            lemma_factor_reads(t, toks, pos);
        },
    }
}

proof fn lemma_expr_reads(t: Tree, toks: Seq<Tok<Seq<char>>>, pos: int)
    requires
        is_expr(t),
        stands(t, toks, pos),
        pos + tokens_of(t).len() < toks.len() ==> product_step(
            toks[pos + tokens_of(t).len()],
        ) is None,
    ensures
        expr_at(toks, pos) == steps_before(postfix_of(t), sums_at(toks, pos + tokens_of(t).len())),
    decreases t, 2nat,
{
    lemma_stands(t, toks, pos);
    lemma_tokens_not_empty(t);
    let q = pos + tokens_of(t).len();
    let none = Seq::<Step<Seq<char>>>::empty();
    assert(products_at(toks, q) == (Parsed { steps: none, end: Ok(q) }));
    let is_sum = match t {
        Tree::Bin(op, _, _) => sum_step(op) is Some,
        _ => false,
    };
    if is_sum {
        if let Tree::Bin(op, l, r) = t {
            let m = pos + tokens_of(*l).len();
            lemma_expr_reads(*l, toks, pos);
            lemma_term_reads(*r, toks, m + 1);
            assert(postfix_of(*r) + none =~= postfix_of(*r));
            let rest = sums_at(toks, q);
            assert(sums_at(toks, m) == steps_before(
                postfix_of(*r).push(sum_step(op)->0),
                rest,
            ));
            assert(postfix_of(*l) + (postfix_of(*r).push(bin_step(op)) + rest.steps)
                =~= postfix_of(t) + rest.steps);
        }
    } else {
        lemma_term_reads(t, toks, pos);
        assert(postfix_of(t) + none =~= postfix_of(t));
    }
}

// ---------------------------------------------------------------------------
// Everything read is a tree
// ---------------------------------------------------------------------------

/// `t` is a tree for `toks` from `a` up to `b`, with the steps `steps`.
spec fn covers(
    t: Tree,
    toks: Seq<Tok<Seq<char>>>,
    a: int,
    b: int,
    steps: Seq<Step<Seq<char>>>,
) -> bool {
    &&& 0 <= a <= b <= toks.len()
    &&& tokens_of(t) == toks.subrange(a, b)
    &&& postfix_of(t) == steps
}

proof fn factor_tree(toks: Seq<Tok<Seq<char>>>, pos: int) -> (t: Tree)
    requires
        factor_at(toks, pos).end is Ok,
    ensures
        is_factor(t),
        covers(t, toks, pos, factor_at(toks, pos).end->Ok_0, factor_at(toks, pos).steps),
    decreases toks.len() - pos, 0nat,
{
    match toks[pos] {
        Tok::Num(text) => {
            let t = Tree::Num(text);
            assert(tokens_of(t) =~= toks.subrange(pos, pos + 1));
            t
        },
        Tok::Minus => {
            let f = factor_tree(toks, pos + 1);
            let t = Tree::Neg(Box::new(f));
            assert(tokens_of(t) =~= toks.subrange(pos, factor_at(toks, pos).end->Ok_0));
            t
        },
        Tok::Plus => {
            let f = factor_tree(toks, pos + 1);
            let t = Tree::Pos(Box::new(f));
            assert(tokens_of(t) =~= toks.subrange(pos, factor_at(toks, pos).end->Ok_0));
            t
        },
        _ => {
            let e = expr_tree(toks, pos + 1);
            let t = Tree::Paren(Box::new(e));
            assert(tokens_of(t) =~= toks.subrange(pos, factor_at(toks, pos).end->Ok_0));
            t
        },
    }
}

proof fn term_tree(toks: Seq<Tok<Seq<char>>>, pos: int) -> (t: Tree)
    requires
        term_at(toks, pos).end is Ok,
    ensures
        is_term(t),
        covers(t, toks, pos, term_at(toks, pos).end->Ok_0, term_at(toks, pos).steps),
    decreases toks.len() - pos, 1nat,
{
    let f = factor_tree(toks, pos);
    let p = factor_at(toks, pos).end->Ok_0;
    lemma_tokens_not_empty(f);
    products_tree(toks, pos, p, f)
}

proof fn products_tree(toks: Seq<Tok<Seq<char>>>, a: int, pos: int, left: Tree) -> (t: Tree)
    requires
        is_term(left),
        covers(left, toks, a, pos, postfix_of(left)),
        products_at(toks, pos).end is Ok,
    ensures
        is_term(t),
        covers(
            t,
            toks,
            a,
            products_at(toks, pos).end->Ok_0,
            postfix_of(left) + products_at(toks, pos).steps,
        ),
    decreases toks.len() - pos, 1nat,
{
    if 0 <= pos < toks.len() && product_step(toks[pos]) is Some {
        let r = factor_tree(toks, pos + 1);
        let p = factor_at(toks, pos + 1).end->Ok_0;
        lemma_tokens_not_empty(r);
        let grown = Tree::Bin(toks[pos], Box::new(left), Box::new(r));
        assert(tokens_of(grown) =~= toks.subrange(a, p));
        let rest = products_at(toks, p).steps;
        let t = products_tree(toks, a, p, grown);
        assert(postfix_of(grown) + rest =~= postfix_of(left) + (postfix_of(r).push(
            product_step(toks[pos])->0,
        ) + rest));
        t
    } else {
        assert(postfix_of(left) + Seq::<Step<Seq<char>>>::empty() =~= postfix_of(left));
        left
    }
}

proof fn expr_tree(toks: Seq<Tok<Seq<char>>>, pos: int) -> (t: Tree)
    requires
        expr_at(toks, pos).end is Ok,
    ensures
        is_expr(t),
        covers(t, toks, pos, expr_at(toks, pos).end->Ok_0, expr_at(toks, pos).steps),
    decreases toks.len() - pos, 2nat,
{
    let f = term_tree(toks, pos);
    let p = term_at(toks, pos).end->Ok_0;
    lemma_tokens_not_empty(f);
    sums_tree(toks, pos, p, f)
}

proof fn sums_tree(toks: Seq<Tok<Seq<char>>>, a: int, pos: int, left: Tree) -> (t: Tree)
    requires
        is_expr(left),
        covers(left, toks, a, pos, postfix_of(left)),
        sums_at(toks, pos).end is Ok,
    ensures
        is_expr(t),
        covers(
            t,
            toks,
            a,
            sums_at(toks, pos).end->Ok_0,
            postfix_of(left) + sums_at(toks, pos).steps,
        ),
    decreases toks.len() - pos, 2nat,
{
    if 0 <= pos < toks.len() && sum_step(toks[pos]) is Some {
        let r = term_tree(toks, pos + 1);
        let p = term_at(toks, pos + 1).end->Ok_0;
        lemma_tokens_not_empty(r);
        let grown = Tree::Bin(toks[pos], Box::new(left), Box::new(r));
        assert(tokens_of(grown) =~= toks.subrange(a, p));
        let rest = sums_at(toks, p).steps;
        let t = sums_tree(toks, a, p, grown);
        assert(postfix_of(grown) + rest =~= postfix_of(left) + (postfix_of(r).push(
            sum_step(toks[pos])->0,
        ) + rest));
        t
    } else {
        assert(postfix_of(left) + Seq::<Step<Seq<char>>>::empty() =~= postfix_of(left));
        left
    }
}

/// Whether the text `s`, without its commas, spells the tree `t`.
pub open spec fn spells(s: Seq<char>, t: Tree) -> bool {
    lex_of(without(s, ',')) == Ok::<Seq<Tok<Seq<char>>>, Fault<Seq<char>>>(tokens_of(t))
}

/// An expression is accepted exactly where it spells a tree of the grammar.
pub proof fn law_accepts_the_grammar(s: Seq<char>)
    ensures
        plan_of(s).fault is None <==> exists|t: Tree| is_expr(t) && spells(s, t),
{
    if plan_of(s).fault is None {
        let toks = lex_of(without(s, ','))->Ok_0;
        let t = expr_tree(toks, 0);
        assert(toks.subrange(0, toks.len() as int) =~= toks);
        assert(is_expr(t) && spells(s, t));
    }
    if exists|t: Tree| is_expr(t) && spells(s, t) {
        let t = choose|t: Tree| is_expr(t) && spells(s, t);
        law_plan_is_postfix(s, t);
    }
}

/// The plan of a text that spells a tree is that tree in postfix order.
pub proof fn law_plan_is_postfix(s: Seq<char>, t: Tree)
    requires
        is_expr(t),
        spells(s, t),
    ensures
        plan_of(s) == (PlanModel { steps: postfix_of(t), fault: None }),
{
    let toks = tokens_of(t);
    assert(toks.subrange(0, toks.len() as int) =~= toks);
    lemma_expr_reads(t, toks, 0);
    assert(sums_at(toks, toks.len() as int) == (Parsed {
        steps: Seq::empty(),
        end: Ok(toks.len() as int),
    }));
    assert(postfix_of(t) + Seq::<Step<Seq<char>>>::empty() =~= postfix_of(t));
}

// ---------------------------------------------------------------------------
// Carrying out a plan
// ---------------------------------------------------------------------------

/// The height of the stack after `steps`, from height `h`; `None` where a step
/// lacks an operand.
pub open spec fn height(steps: Seq<Step<Seq<char>>>, h: int) -> Option<int>
    decreases steps.len(),
{
    if steps.len() == 0 {
        Some(h)
    } else {
        match height(steps.drop_last(), h) {
            None => None,
            Some(k) => match steps.last() {
                Step::Push(_) => Some(k + 1),
                Step::Negate => if k >= 1 {
                    Some(k)
                } else {
                    None
                },
                _ => if k >= 2 {
                    Some(k - 1)
                } else {
                    None
                },
            },
        }
    }
}

proof fn lemma_height_add(a: Seq<Step<Seq<char>>>, b: Seq<Step<Seq<char>>>, h: int)
    ensures
        height(a + b, h) == match height(a, h) {
            Some(k) => height(b, k),
            None => None,
        },
    decreases b.len(),
{
    if b.len() == 0 {
        assert(a + b =~= a);
    } else {
        assert((a + b).drop_last() =~= a + b.drop_last());
        lemma_height_add(a, b.drop_last(), h);
    }
}

/// Reading from height `h` never lacks an operand, and ends one value higher
/// where it succeeds.
spec fn lifts(p: Parsed, h: int) -> bool {
    &&& height(p.steps, h) is Some
    &&& p.end is Ok ==> height(p.steps, h) == Some(h + 1)
}

/// Reading on from a value at height `h + 1` never lacks an operand, and ends
/// at the same height where it succeeds.
spec fn keeps(p: Parsed, h: int) -> bool {
    &&& height(p.steps, h + 1) is Some
    &&& p.end is Ok ==> height(p.steps, h + 1) == Some(h + 1)
}

proof fn lemma_factor_height(toks: Seq<Tok<Seq<char>>>, pos: int, h: int)
    requires
        h >= 0,
    ensures
        lifts(factor_at(toks, pos), h),
    decreases toks.len() - pos, 0nat,
{
    reveal_with_fuel(height, 2);
    if 0 <= pos < toks.len() {
        match toks[pos] {
            Tok::Num(_) => {
                assert(factor_at(toks, pos).steps.drop_last() =~= Seq::empty());
            },
            Tok::Minus => {
                lemma_factor_height(toks, pos + 1, h);
                let inner = factor_at(toks, pos + 1).steps;
                assert(inner.push(Step::Negate).drop_last() =~= inner);
            },
            Tok::Plus => {
                lemma_factor_height(toks, pos + 1, h);
            },
            Tok::LParen => {
                lemma_expr_height(toks, pos + 1, h);
            },
            _ => {},
        }
    }
}

proof fn lemma_term_height(toks: Seq<Tok<Seq<char>>>, pos: int, h: int)
    requires
        h >= 0,
    ensures
        lifts(term_at(toks, pos), h),
    decreases toks.len() - pos, 1nat,
{
    lemma_factor_height(toks, pos, h);
    let first = factor_at(toks, pos);
    if let Ok(p) = first.end {
        if pos < p <= toks.len() {
            lemma_products_height(toks, p, h);
            lemma_height_add(first.steps, products_at(toks, p).steps, h);
        }
    }
}

proof fn lemma_products_height(toks: Seq<Tok<Seq<char>>>, pos: int, h: int)
    requires
        h >= 0,
    ensures
        keeps(products_at(toks, pos), h),
    decreases toks.len() - pos, 1nat,
{
    if 0 <= pos < toks.len() && product_step(toks[pos]) is Some {
        lemma_factor_height(toks, pos + 1, h + 1);
        lemma_factor_advances(toks, pos + 1);
        let next = factor_at(toks, pos + 1);
        if let Ok(p) = next.end {
            if pos < p <= toks.len() {
                let one = next.steps.push(product_step(toks[pos])->0);
                assert(one.drop_last() =~= next.steps);
                lemma_products_height(toks, p, h);
                lemma_height_add(one, products_at(toks, p).steps, h + 1);
            }
        }
    }
}

proof fn lemma_expr_height(toks: Seq<Tok<Seq<char>>>, pos: int, h: int)
    requires
        h >= 0,
    ensures
        lifts(expr_at(toks, pos), h),
    decreases toks.len() - pos, 2nat,
{
    lemma_term_height(toks, pos, h);
    let first = term_at(toks, pos);
    if let Ok(p) = first.end {
        if pos < p <= toks.len() {
            lemma_sums_height(toks, p, h);
            lemma_height_add(first.steps, sums_at(toks, p).steps, h);
        }
    }
}

proof fn lemma_sums_height(toks: Seq<Tok<Seq<char>>>, pos: int, h: int)
    requires
        h >= 0,
    ensures
        keeps(sums_at(toks, pos), h),
    decreases toks.len() - pos, 2nat,
{
    if 0 <= pos < toks.len() && sum_step(toks[pos]) is Some {
        lemma_term_height(toks, pos + 1, h + 1);
        lemma_term_advances(toks, pos + 1);
        let next = term_at(toks, pos + 1);
        if let Ok(p) = next.end {
            if pos < p <= toks.len() {
                let one = next.steps.push(sum_step(toks[pos])->0);
                assert(one.drop_last() =~= next.steps);
                lemma_sums_height(toks, p, h);
                lemma_height_add(one, sums_at(toks, p).steps, h + 1);
            }
        }
    }
}

/// No plan ever lacks an operand, whether it ends in a fault or not, and one
/// without a fault leaves exactly one value on the stack.
pub proof fn law_plan_never_lacks_an_operand(s: Seq<char>)
    ensures
        height(plan_of(s).steps, 0) is Some,
        plan_of(s).fault is None ==> height(plan_of(s).steps, 0) == Some(1int),
{
    if let Ok(toks) = lex_of(without(s, ',')) {
        lemma_expr_height(toks, 0, 0);
    }
}

/// Some arithmetic: what a number's text denotes and what the operations do.
/// `div` gives `None` where the divisor is zero.
#[verifier::reject_recursive_types(V)]
pub struct Arithmetic<V> {
    pub num: spec_fn(Seq<char>) -> V,
    pub neg: spec_fn(V) -> V,
    pub plus: spec_fn(V, V) -> V,
    pub minus: spec_fn(V, V) -> V,
    pub times: spec_fn(V, V) -> V,
    pub div: spec_fn(V, V) -> Option<V>,
}

/// What one step makes of a stack; `None` at a division by zero, or where an
/// operand is lacking.
pub open spec fn step_on<V>(ar: Arithmetic<V>, step: Step<Seq<char>>, stack: Seq<V>) -> Option<
    Seq<V>,
> {
    let n = stack.len();
    match step {
        Step::Push(text) => Some(stack.push((ar.num)(text))),
        Step::Negate => if n >= 1 {
            Some(stack.drop_last().push((ar.neg)(stack.last())))
        } else {
            None
        },
        _ => if n >= 2 {
            let below = stack.take(n - 2);
            let a = stack[n - 2];
            let b = stack[n - 1];
            match step {
                Step::Add => Some(below.push((ar.plus)(a, b))),
                Step::Subtract => Some(below.push((ar.minus)(a, b))),
                Step::Multiply => Some(below.push((ar.times)(a, b))),
                _ => match (ar.div)(a, b) {
                    Some(v) => Some(below.push(v)),
                    None => None,
                },
            }
        } else {
            None
        },
    }
}

/// What the steps make of a stack, one after another.
pub open spec fn run_on<V>(ar: Arithmetic<V>, steps: Seq<Step<Seq<char>>>, stack: Seq<V>) -> Option<
    Seq<V>,
>
    decreases steps.len(),
{
    if steps.len() == 0 {
        Some(stack)
    } else {
        match run_on(ar, steps.drop_last(), stack) {
            Some(st) => step_on(ar, steps.last(), st),
            None => None,
        }
    }
}

/// The value of a tree; `None` where it divides by zero.
pub open spec fn value_of<V>(ar: Arithmetic<V>, t: Tree) -> Option<V>
    decreases t,
{
    match t {
        Tree::Num(text) => Some((ar.num)(text)),
        Tree::Neg(f) => match value_of(ar, *f) {
            Some(v) => Some((ar.neg)(v)),
            None => None,
        },
        Tree::Pos(f) => value_of(ar, *f),
        Tree::Paren(e) => value_of(ar, *e),
        Tree::Bin(op, l, r) => match (value_of(ar, *l), value_of(ar, *r)) {
            (Some(a), Some(b)) => match op {
                Tok::Plus => Some((ar.plus)(a, b)),
                Tok::Minus => Some((ar.minus)(a, b)),
                Tok::Star => Some((ar.times)(a, b)),
                _ => (ar.div)(a, b),
            },
            _ => None,
        },
    }
}

proof fn lemma_run_add<V>(
    ar: Arithmetic<V>,
    a: Seq<Step<Seq<char>>>,
    b: Seq<Step<Seq<char>>>,
    stack: Seq<V>,
)
    ensures
        run_on(ar, a + b, stack) == match run_on(ar, a, stack) {
            Some(st) => run_on(ar, b, st),
            None => None,
        },
    decreases b.len(),
{
    if b.len() == 0 {
        assert(a + b =~= a);
    } else {
        assert((a + b).drop_last() =~= a + b.drop_last());
        lemma_run_add(ar, a, b.drop_last(), stack);
    }
}

proof fn lemma_run_tree<V>(ar: Arithmetic<V>, t: Tree, stack: Seq<V>)
    requires
        is_expr(t) || is_term(t) || is_factor(t),
    ensures
        run_on(ar, postfix_of(t), stack) == match value_of(ar, t) {
            Some(v) => Some(stack.push(v)),
            None => None,
        },
    decreases t,
{
    reveal_with_fuel(run_on, 2);
    reveal_with_fuel(is_expr, 3);
    reveal_with_fuel(is_term, 3);
    reveal_with_fuel(is_factor, 3);
    match t {
        Tree::Num(_) => {
            assert(postfix_of(t).drop_last() =~= Seq::empty());
        },
        Tree::Neg(f) => {
            lemma_run_tree(ar, *f, stack);
            assert(postfix_of(t).drop_last() =~= postfix_of(*f));
            if let Some(v) = value_of(ar, *f) {
                assert(stack.push(v).drop_last() =~= stack);
            }
        },
        Tree::Pos(f) => {
            lemma_run_tree(ar, *f, stack);
        },
        Tree::Paren(e) => {
            lemma_run_tree(ar, *e, stack);
        },
        Tree::Bin(op, l, r) => {
            lemma_run_tree(ar, *l, stack);
            let right = postfix_of(*r).push(bin_step(op));
            lemma_run_add(ar, postfix_of(*l), right, stack);
            assert(right.drop_last() =~= postfix_of(*r));
            if let Some(a) = value_of(ar, *l) {
                lemma_run_tree(ar, *r, stack.push(a));
                if let Some(b) = value_of(ar, *r) {
                    assert(stack.push(a).push(b).take(stack.len() as int) =~= stack);
                }
            }
        },
    }
}

/// Carrying out the steps of a tree on an empty stack leaves the tree's value, and
/// stops exactly where the tree divides by zero.
pub proof fn law_steps_compute_the_tree<V>(ar: Arithmetic<V>, t: Tree)
    requires
        is_expr(t),
    ensures
        run_on(ar, postfix_of(t), Seq::empty()) == match value_of(ar, t) {
            Some(v) => Some(seq![v]),
            None => None,
        },
{
    lemma_run_tree(ar, t, Seq::empty());
    if let Some(v) = value_of(ar, t) {
        assert(Seq::empty().push(v) =~= seq![v]);
    }
}

/// Whatever the arithmetic, carrying out the plan of a text that spells a tree
/// leaves the tree's value, and stops exactly where the tree divides by zero.
pub proof fn law_plan_computes_the_tree<V>(ar: Arithmetic<V>, s: Seq<char>, t: Tree)
    requires
        is_expr(t),
        spells(s, t),
    ensures
        run_on(ar, plan_of(s).steps, Seq::empty()) == match value_of(ar, t) {
            Some(v) => Some(seq![v]),
            None => None,
        },
{
    law_plan_is_postfix(s, t);
    lemma_run_tree(ar, t, Seq::empty());
    if let Some(v) = value_of(ar, t) {
        assert(Seq::empty().push(v) =~= seq![v]);
    }
}

// ---------------------------------------------------------------------------
// Texts of trees
// ---------------------------------------------------------------------------

/// The text that a tree is written as, without blanks.
pub open spec fn text_of(t: Tree) -> Seq<char>
    decreases t,
{
    match t {
        Tree::Num(text) => text,
        Tree::Neg(f) => "-"@ + text_of(*f),
        Tree::Pos(f) => "+"@ + text_of(*f),
        Tree::Paren(e) => "("@ + text_of(*e) + ")"@,
        Tree::Bin(op, l, r) => text_of(*l) + tok_text(op) + text_of(*r),
    }
}

/// Whether every number of the tree is one: digits with at most one point among
/// them.
pub open spec fn has_numbers(t: Tree) -> bool
    decreases t,
{
    match t {
        Tree::Num(text) => {
            &&& is_numeric(text)
            &&& exists|i: int| 0 <= i < text.len() && #[trigger] text[i] != '.'
            &&& forall|i: int, j: int|
                0 <= i < j < text.len() && text[i] == '.' ==> text[j] != '.'
        },
        Tree::Neg(f) => has_numbers(*f),
        Tree::Pos(f) => has_numbers(*f),
        Tree::Paren(e) => has_numbers(*e),
        Tree::Bin(_, l, r) => has_numbers(*l) && has_numbers(*r),
    }
}

/// Whether every operator of the tree stands between two operands: `+`, `-`, `*`
/// or `/`.
spec fn has_operators(t: Tree) -> bool
    decreases t,
{
    match t {
        Tree::Num(_) => true,
        Tree::Neg(f) => has_operators(*f),
        Tree::Pos(f) => has_operators(*f),
        Tree::Paren(e) => has_operators(*e),
        Tree::Bin(op, l, r) => {
            &&& op is Plus || op is Minus || op is Star || op is Slash
            &&& has_operators(*l)
            &&& has_operators(*r)
        },
    }
}

proof fn lemma_has_operators(t: Tree)
    requires
        is_expr(t) || is_term(t) || is_factor(t),
    ensures
        has_operators(t),
    decreases t,
{
    reveal_with_fuel(is_expr, 3);
    reveal_with_fuel(is_term, 3);
    reveal_with_fuel(is_factor, 3);
    match t {
        Tree::Num(_) => {},
        Tree::Neg(f) => lemma_has_operators(*f),
        Tree::Pos(f) => lemma_has_operators(*f),
        Tree::Paren(e) => lemma_has_operators(*e),
        Tree::Bin(_, l, r) => {
            lemma_has_operators(*l);
            lemma_has_operators(*r);
        },
    }
}

proof fn lemma_in_front(
    a: Seq<Tok<Seq<char>>>,
    b: Seq<Tok<Seq<char>>>,
    rest: Result<Seq<Tok<Seq<char>>>, Fault<Seq<char>>>,
)
    ensures
        in_front(a, in_front(b, rest)) == in_front(a + b, rest),
{
    if let Ok(more) = rest {
        assert(a + (b + more) =~= (a + b) + more);
    }
}

proof fn lemma_symbol_lexes(t: Tok<Seq<char>>, rest: Seq<char>)
    requires
        !(t is Num),
    ensures
        lex_of(tok_text(t) + rest) == in_front(seq![t], lex_of(rest)),
        ends_number(tok_text(t) + rest),
        tok_text(t).len() == 1,
        !tok_text(t).contains(','),
{
    reveal_strlit("+");
    reveal_strlit("-");
    reveal_strlit("*");
    reveal_strlit("/");
    reveal_strlit("(");
    reveal_strlit(")");
    let c = tok_text(t)[0];
    assert(tok_text(t) =~= seq![c]);
    law_characters_are_told_apart(c, rest);
}

proof fn lemma_text_lexes(t: Tree, rest: Seq<char>)
    requires
        has_numbers(t),
        has_operators(t),
        ends_number(rest),
    ensures
        lex_of(text_of(t) + rest) == in_front(tokens_of(t), lex_of(rest)),
    decreases t,
{
    match t {
        Tree::Num(text) => {
            let i = choose|i: int| 0 <= i < text.len() && #[trigger] text[i] != '.';
            law_numbers_are_read_whole(text, rest, i);
        },
        Tree::Neg(f) => {
            lemma_text_lexes(*f, rest);
            lemma_symbol_lexes(Tok::Minus, text_of(*f) + rest);
            assert(text_of(t) + rest =~= "-"@ + (text_of(*f) + rest));
            lemma_in_front(seq![Tok::Minus], tokens_of(*f), lex_of(rest));
        },
        Tree::Pos(f) => {
            lemma_text_lexes(*f, rest);
            lemma_symbol_lexes(Tok::Plus, text_of(*f) + rest);
            assert(text_of(t) + rest =~= "+"@ + (text_of(*f) + rest));
            lemma_in_front(seq![Tok::Plus], tokens_of(*f), lex_of(rest));
        },
        Tree::Paren(e) => {
            lemma_symbol_lexes(Tok::RParen, rest);
            lemma_text_lexes(*e, ")"@ + rest);
            lemma_symbol_lexes(Tok::LParen, text_of(*e) + (")"@ + rest));
            assert(text_of(t) + rest =~= "("@ + (text_of(*e) + (")"@ + rest)));
            lemma_in_front(tokens_of(*e), seq![Tok::RParen], lex_of(rest));
            lemma_in_front(
                seq![Tok::LParen],
                tokens_of(*e) + seq![Tok::<Seq<char>>::RParen],
                lex_of(rest),
            );
            assert(seq![Tok::<Seq<char>>::LParen] + (tokens_of(*e) + seq![
                Tok::<Seq<char>>::RParen,
            ]) =~= tokens_of(t));
        },
        Tree::Bin(op, l, r) => {
            lemma_text_lexes(*r, rest);
            lemma_symbol_lexes(op, text_of(*r) + rest);
            lemma_text_lexes(*l, tok_text(op) + (text_of(*r) + rest));
            assert(text_of(t) + rest =~= text_of(*l) + (tok_text(op) + (text_of(*r) + rest)));
            lemma_in_front(seq![op], tokens_of(*r), lex_of(rest));
            lemma_in_front(tokens_of(*l), seq![op] + tokens_of(*r), lex_of(rest));
            assert(tokens_of(*l) + (seq![op] + tokens_of(*r)) =~= tokens_of(t));
        },
    }
}

proof fn lemma_no_commas(t: Tree)
    requires
        has_numbers(t),
        has_operators(t),
    ensures
        !text_of(t).contains(','),
    decreases t,
{
    match t {
        Tree::Num(text) => {},
        Tree::Neg(f) => {
            lemma_no_commas(*f);
            lemma_symbol_lexes(Tok::Minus, Seq::empty());
            lemma_comma_apart("-"@, text_of(*f));
        },
        Tree::Pos(f) => {
            lemma_no_commas(*f);
            lemma_symbol_lexes(Tok::Plus, Seq::empty());
            lemma_comma_apart("+"@, text_of(*f));
        },
        Tree::Paren(e) => {
            lemma_no_commas(*e);
            lemma_symbol_lexes(Tok::LParen, Seq::empty());
            lemma_symbol_lexes(Tok::RParen, Seq::empty());
            lemma_comma_apart("("@, text_of(*e));
            lemma_comma_apart("("@ + text_of(*e), ")"@);
        },
        Tree::Bin(op, l, r) => {
            lemma_no_commas(*l);
            lemma_no_commas(*r);
            lemma_symbol_lexes(op, Seq::empty());
            lemma_comma_apart(text_of(*l), tok_text(op));
            lemma_comma_apart(text_of(*l) + tok_text(op), text_of(*r));
        },
    }
}

proof fn lemma_comma_apart(a: Seq<char>, b: Seq<char>)
    requires
        !a.contains(','),
        !b.contains(','),
    ensures
        !(a + b).contains(','),
{
    assert forall|i: int| 0 <= i < (a + b).len() implies (a + b)[i] != ',' by {
        if i < a.len() {
            assert(a.contains(a[i]));
        } else {
            assert(b.contains(b[i - a.len()]));
        }
    }
}

proof fn lemma_nothing_dropped(s: Seq<char>)
    requires
        !s.contains(','),
    ensures
        without(s, ',') == s,
    decreases s.len(),
{
    if s.len() > 0 {
        assert(s.contains(s.last()));
        assert forall|i: int| 0 <= i < s.drop_last().len() implies s.drop_last()[i] != ',' by {
            assert(s.contains(s[i]));
        }
        lemma_nothing_dropped(s.drop_last());
        assert(s.drop_last().push(s.last()) =~= s);
    }
}

/// Every expression tree is spelled by the text that it is written as.
pub proof fn law_written_trees_are_read(t: Tree)
    requires
        is_expr(t),
        has_numbers(t),
    ensures
        spells(text_of(t), t),
{
    lemma_has_operators(t);
    lemma_no_commas(t);
    lemma_nothing_dropped(text_of(t));
    lemma_text_lexes(t, Seq::empty());
    assert(text_of(t) + Seq::<char>::empty() =~= text_of(t));
    assert(tokens_of(t) + Seq::<Tok<Seq<char>>>::empty() =~= tokens_of(t));
}

/// Signs bind tighter than `*` and `/`, those bind tighter than `+` and `-`, and
/// all four group from the left.
pub proof fn law_operators_bind_as_usual(op: Tok<Seq<char>>, l: Tree, r: Tree)
    ensures
        op is Plus || op is Minus ==> {
            let t = Tree::Bin(op, Box::new(l), Box::new(r));
            is_expr(t) == (is_expr(l) && is_term(r)) && !is_term(t) && !is_factor(t)
        },
        op is Star || op is Slash ==> {
            let t = Tree::Bin(op, Box::new(l), Box::new(r));
            is_expr(t) == (is_term(l) && is_factor(r)) && is_term(t) == (is_term(l) && is_factor(r))
                && !is_factor(t)
        },
        !(op is Plus || op is Minus || op is Star || op is Slash) ==> !is_expr(
            Tree::Bin(op, Box::new(l), Box::new(r)),
        ),
        is_factor(Tree::Neg(Box::new(l))) == is_factor(l),
        is_factor(Tree::Pos(Box::new(l))) == is_factor(l),
        is_factor(Tree::Paren(Box::new(l))) == is_expr(l),
        is_factor(l) ==> is_term(l),
        is_term(l) ==> is_expr(l),
{
    reveal_with_fuel(is_expr, 2);
    reveal_with_fuel(is_term, 2);
    reveal_with_fuel(is_factor, 2);
}

// ---------------------------------------------------------------------------
// Faults
// ---------------------------------------------------------------------------

/// Whether a value is expected at position `q`, rather than an operator.
pub open spec fn expects_value(toks: Seq<Tok<Seq<char>>>, q: int) -> bool {
    q == 0 || !(toks[q - 1] is Num || toks[q - 1] is RParen)
}

/// How many parentheses are open at position `q`.
pub open spec fn open_parens(toks: Seq<Tok<Seq<char>>>, q: int) -> int
    decreases q,
{
    if q <= 0 {
        0
    } else {
        open_parens(toks, q - 1) + (if toks[q - 1] is LParen {
            1int
        } else if toks[q - 1] is RParen {
            -1int
        } else {
            0int
        })
    }
}

/// Whether the token at `q` can stand there.
pub open spec fn can_stand(toks: Seq<Tok<Seq<char>>>, q: int) -> bool {
    &&& 0 <= q < toks.len()
    &&& if expects_value(toks, q) {
        toks[q] is Num || toks[q] is Plus || toks[q] is Minus || toks[q] is LParen
    } else {
        ||| toks[q] is Plus || toks[q] is Minus || toks[q] is Star || toks[q] is Slash
        ||| toks[q] is RParen && open_parens(toks, q) > 0
    }
}

/// What is wrong at position `q`, the first at which no token can stand, behind
/// a value expected or a parenthesis open.
spec fn fault_at(toks: Seq<Tok<Seq<char>>>, q: int, f: Fault<Seq<char>>) -> bool {
    &&& 0 <= q <= toks.len()
    &&& !can_stand(toks, q)
    &&& if expects_value(toks, q) {
        f == Fault::UnexpectedToken(
            if q < toks.len() {
                Some(toks[q])
            } else {
                None
            },
        )
    } else {
        open_parens(toks, q) > 0 && f == Fault::<Seq<char>>::ExpectedParen
    }
}

/// Whether a token can stand at each position from `a` up to `b`.
spec fn all_stand(toks: Seq<Tok<Seq<char>>>, a: int, b: int) -> bool {
    forall|k: int| a <= k < b ==> #[trigger] can_stand(toks, k)
}

/// What reading from `pos` comes to: up to a position behind a value, with as
/// many parentheses open as before, or up to a fault.
spec fn reads_on(toks: Seq<Tok<Seq<char>>>, pos: int, p: Parsed) -> bool {
    match p.end {
        Ok(q) => {
            &&& pos <= q <= toks.len()
            &&& all_stand(toks, pos, q)
            &&& open_parens(toks, q) == open_parens(toks, pos)
            &&& !expects_value(toks, q)
        },
        Err(f) => exists|q: int|
            pos <= q && #[trigger] fault_at(toks, q, f) && all_stand(toks, pos, q),
    }
}

proof fn lemma_reads_before(toks: Seq<Tok<Seq<char>>>, a: int, b: int, p: Parsed)
    requires
        a <= b,
        all_stand(toks, a, b),
        open_parens(toks, b) == open_parens(toks, a),
        reads_on(toks, b, p),
    ensures
        reads_on(toks, a, p),
{
    if let Err(f) = p.end {
        let q = choose|q: int|
            b <= q && #[trigger] fault_at(toks, q, f) && all_stand(toks, b, q);
        assert(a <= q && fault_at(toks, q, f) && all_stand(toks, a, q));
    }
}

proof fn lemma_factor_faults(toks: Seq<Tok<Seq<char>>>, pos: int)
    requires
        0 <= pos <= toks.len(),
        expects_value(toks, pos),
        open_parens(toks, pos) >= 0,
    ensures
        reads_on(toks, pos, factor_at(toks, pos)),
        factor_at(toks, pos).end matches Ok(p) ==> pos < p,
    decreases toks.len() - pos, 0nat,
{
    let p = factor_at(toks, pos);
    lemma_factor_advances(toks, pos);
    if pos == toks.len() {
        assert(fault_at(toks, pos, p.end->Err_0));
    } else {
        match toks[pos] {
            Tok::Num(_) => {
                assert(can_stand(toks, pos));
            },
            Tok::Minus => {
                assert(can_stand(toks, pos));
                lemma_factor_faults(toks, pos + 1);
                lemma_reads_before(toks, pos, pos + 1, factor_at(toks, pos + 1));
                if let Err(f) = p.end {
                    assert(factor_at(toks, pos + 1).end == p.end);
                }
            },
            Tok::Plus => {
                assert(can_stand(toks, pos));
                lemma_factor_faults(toks, pos + 1);
                lemma_reads_before(toks, pos, pos + 1, factor_at(toks, pos + 1));
            },
            Tok::LParen => {
                assert(can_stand(toks, pos));
                lemma_expr_faults(toks, pos + 1);
                lemma_expr_advances(toks, pos + 1);
                let inner = expr_at(toks, pos + 1);
                match inner.end {
                    Ok(q) => {
                        assert forall|k: int| pos <= k < q implies #[trigger] can_stand(
                            toks,
                            k,
                        ) by {}
                        if q < toks.len() && toks[q] is RParen {
                            assert(can_stand(toks, q));
                            assert(open_parens(toks, q + 1) == open_parens(toks, pos));
                        } else {
                            assert(fault_at(toks, q, p.end->Err_0));
                        }
                    },
                    Err(f) => {
                        let q = choose|q: int|
                            pos + 1 <= q && #[trigger] fault_at(toks, q, f) && all_stand(
                                toks,
                                pos + 1,
                                q,
                            );
                        assert(pos <= q && fault_at(toks, q, f) && all_stand(toks, pos, q));
                    },
                }
            },
            _ => {
                assert(fault_at(toks, pos, p.end->Err_0));
            },
        }
    }
}

proof fn lemma_products_faults(toks: Seq<Tok<Seq<char>>>, pos: int)
    requires
        0 <= pos <= toks.len(),
        !expects_value(toks, pos),
        open_parens(toks, pos) >= 0,
    ensures
        reads_on(toks, pos, products_at(toks, pos)),
        products_at(toks, pos).end matches Ok(p) ==> p < toks.len() ==> !(toks[p] is Star
            || toks[p] is Slash),
    decreases toks.len() - pos, 1nat,
{
    if pos < toks.len() && product_step(toks[pos]) is Some {
        assert(can_stand(toks, pos));
        lemma_factor_faults(toks, pos + 1);
        let next = factor_at(toks, pos + 1);
        lemma_reads_before(toks, pos, pos + 1, next);
        if let Ok(p) = next.end {
            lemma_products_faults(toks, p);
            lemma_reads_before(toks, pos, p, products_at(toks, p));
        }
    }
}

proof fn lemma_term_faults(toks: Seq<Tok<Seq<char>>>, pos: int)
    requires
        0 <= pos <= toks.len(),
        expects_value(toks, pos),
        open_parens(toks, pos) >= 0,
    ensures
        reads_on(toks, pos, term_at(toks, pos)),
        term_at(toks, pos).end matches Ok(p) ==> pos < p && (p < toks.len() ==> !(toks[p] is Star
            || toks[p] is Slash)),
    decreases toks.len() - pos, 1nat,
{
    lemma_factor_faults(toks, pos);
    if let Ok(p) = factor_at(toks, pos).end {
        lemma_products_faults(toks, p);
        lemma_reads_before(toks, pos, p, products_at(toks, p));
    }
}

proof fn lemma_sums_faults(toks: Seq<Tok<Seq<char>>>, pos: int)
    requires
        0 <= pos <= toks.len(),
        !expects_value(toks, pos),
        open_parens(toks, pos) >= 0,
        pos < toks.len() ==> !(toks[pos] is Star || toks[pos] is Slash),
    ensures
        reads_on(toks, pos, sums_at(toks, pos)),
        sums_at(toks, pos).end matches Ok(p) ==> p < toks.len() ==> toks[p] is Num
            || toks[p] is LParen || toks[p] is RParen,
    decreases toks.len() - pos, 2nat,
{
    if pos < toks.len() && sum_step(toks[pos]) is Some {
        assert(can_stand(toks, pos));
        lemma_term_faults(toks, pos + 1);
        let next = term_at(toks, pos + 1);
        lemma_reads_before(toks, pos, pos + 1, next);
        if let Ok(p) = next.end {
            lemma_sums_faults(toks, p);
            lemma_reads_before(toks, pos, p, sums_at(toks, p));
        }
    }
}

proof fn lemma_expr_faults(toks: Seq<Tok<Seq<char>>>, pos: int)
    requires
        0 <= pos <= toks.len(),
        expects_value(toks, pos),
        open_parens(toks, pos) >= 0,
    ensures
        reads_on(toks, pos, expr_at(toks, pos)),
        expr_at(toks, pos).end matches Ok(p) ==> p < toks.len() ==> toks[p] is Num
            || toks[p] is LParen || toks[p] is RParen,
    decreases toks.len() - pos, 2nat,
{
    lemma_term_faults(toks, pos);
    if let Ok(p) = term_at(toks, pos).end {
        lemma_sums_faults(toks, p);
        lemma_reads_before(toks, pos, p, sums_at(toks, p));
    }
}

/// The fault of a text is told by the first position at which no token can stand:
/// an unexpected token, or the end, where a value is expected; a parenthesis that
/// is not closed; or more input behind a complete expression. Where there is no
/// such position before the end, and the end is behind a value with no parenthesis
/// open, there is no fault.
pub proof fn law_faults_are_told_where_they_stand(s: Seq<char>, q: int)
    requires
        lex_of(without(s, ',')) is Ok,
        ({
            let toks = lex_of(without(s, ','))->Ok_0;
            &&& 0 <= q <= toks.len()
            &&& forall|k: int| 0 <= k < q ==> #[trigger] can_stand(toks, k)
            &&& q < toks.len() ==> !can_stand(toks, q)
        }),
    ensures
        ({
            let toks = lex_of(without(s, ','))->Ok_0;
            plan_of(s).fault == if expects_value(toks, q) {
                Some(
                    Fault::UnexpectedToken(
                        if q < toks.len() {
                            Some(toks[q])
                        } else {
                            None
                        },
                    ),
                )
            } else if open_parens(toks, q) > 0 {
                Some(Fault::ExpectedParen)
            } else if q < toks.len() {
                Some(Fault::TrailingInput(without(s, ',')))
            } else {
                None
            }
        }),
{
    let toks = lex_of(without(s, ','))->Ok_0;
    lemma_expr_faults(toks, 0);
    let p = expr_at(toks, 0);
    match p.end {
        Ok(e) => {
            if e < q {
                assert(can_stand(toks, e));
            } else if q < e {
                assert(can_stand(toks, q));
            }
        },
        Err(f) => {
            let e = choose|e: int|
                0 <= e && #[trigger] fault_at(toks, e, f) && all_stand(toks, 0, e);
            if e < q {
                assert(can_stand(toks, e));
            } else if q < e {
                assert(can_stand(toks, q));
            }
        },
    }
}

/// A text that does not lex has no steps, and the fault of its lexing.
pub proof fn law_bad_text_has_no_steps(s: Seq<char>)
    ensures
        lex_of(without(s, ',')) matches Err(f) ==> plan_of(s).fault == Some(f) && plan_of(
            s,
        ).steps.len() == 0,
{
}

/// Whatever follows a complete expression, or goes wrong behind it, the
/// expression's own steps are taken first; unless `*` or `/` follows, which binds
/// its last term.
pub proof fn law_leading_steps_are_taken(s: Seq<char>, t: Tree)
    requires
        lex_of(without(s, ',')) is Ok,
        is_expr(t),
        tokens_of(t).is_prefix_of(lex_of(without(s, ','))->Ok_0),
        ({
            let toks = lex_of(without(s, ','))->Ok_0;
            let n = tokens_of(t).len() as int;
            n < toks.len() ==> !(toks[n] is Star || toks[n] is Slash)
        }),
    ensures
        postfix_of(t).is_prefix_of(plan_of(s).steps),
{
    let toks = lex_of(without(s, ','))->Ok_0;
    let n = tokens_of(t).len() as int;
    assert(toks.subrange(0, n) =~= tokens_of(t));
    lemma_expr_reads(t, toks, 0);
    assert(plan_of(s).steps == postfix_of(t) + sums_at(toks, n).steps);
    assert(plan_of(s).steps.subrange(0, postfix_of(t).len() as int) =~= postfix_of(t));
}

/// A step that needs two values takes them in the order in which they were
/// pushed.
pub proof fn law_steps_take_values_in_order<V>(ar: Arithmetic<V>, below: Seq<V>, a: V, b: V)
    ensures
        step_on(ar, Step::Negate, below.push(a)) == Some(below.push((ar.neg)(a))),
        step_on(ar, Step::Add, below.push(a).push(b)) == Some(below.push((ar.plus)(a, b))),
        step_on(ar, Step::Subtract, below.push(a).push(b)) == Some(below.push((ar.minus)(a, b))),
        step_on(ar, Step::Multiply, below.push(a).push(b)) == Some(below.push((ar.times)(a, b))),
        step_on(ar, Step::Divide, below.push(a).push(b)) == match (ar.div)(a, b) {
            Some(v) => Some(below.push(v)),
            None => None,
        },
{
    assert(below.push(a).drop_last() =~= below);
    assert(below.push(a).push(b).take(below.len() as int) =~= below);
}

} // verus!
