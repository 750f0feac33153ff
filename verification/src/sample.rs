//! Autoregressive text generation: plain continuation, and answering with tools.
//!
//! The model itself is a function that the caller hands in: from the tokens so
//! far, as many as fit its window, to the next token.
use crate::data::format::{END, TOOL_CALL_OPEN, TOOL_RESULT_OPEN};
use crate::data::tokenizer::{id_limit, law_encode_undoes_decode, CharTokenizer, TokenizerModel};
use crate::data::{as_signed, signed};
use crate::retrieval::SearchResult;
use crate::text::{
    extend_chars, find_from, find_last, first_from, from_chars, join, join_of, last_to,
    law_joining_puts_the_separator_between, lemma_first_from, lemma_last_to, occurs_at, occurs_in,
    slice_chars, texts, to_chars, trim, trim_of,
};
use crate::tools::calculator::{format_number, shown, Amount};
use crate::tools::machine::{answer, answers, is_total, Calculator, Operation};
use vstd::prelude::*;

verus! {

/// The last `block` of the tokens, or all of them where there are fewer.
pub open spec fn window_of(ids: Seq<i32>, block: int) -> Seq<i32> {
    if ids.len() <= block {
        ids
    } else {
        ids.skip(ids.len() - block)
    }
}

/// The last `block` of the tokens, or all of them where there are fewer.
fn window(ids: &Vec<i32>, block: usize) -> (r: Vec<i32>)
    ensures
        r@ == window_of(ids@, block as int),
{
    let n: usize = ids.len();
    let start: usize = if n <= block {
        0
    } else {
        n - block
    };
    let mut out: Vec<i32> = Vec::new();
    let mut i: usize = start;
    while i < n
        invariant
            start <= i <= n,
            n == ids@.len(),
            out@ == ids@.subrange(start as int, i as int),
        decreases n - i,
    {
        out.push(ids[i]);
        i += 1;
    }
    assert(out@ =~= window_of(ids@, block as int));
    out
}

// ---------------------------------------------------------------------------
// Plain continuation
// ---------------------------------------------------------------------------

/// The tokens that generation starts from: those of the prompt, or the first
/// vocabulary symbol where there are none.
pub open spec fn seed_of(tok: TokenizerModel, prompt: Seq<char>) -> Seq<i32> {
    let ids = as_signed(tok.encode(prompt));
    if ids.len() == 0 {
        seq![0i32]
    } else {
        ids
    }
}

/// Whether `next` is what `predict` may give on the window of `ids`.
pub open spec fn predicted<P: Fn(&Vec<i32>) -> u32>(
    predict: P,
    ids: Seq<i32>,
    block: int,
    next: u32,
) -> bool {
    exists|window: &Vec<i32>|
        window@ == window_of(ids, block) && #[trigger] call_ensures(predict, (window,), next)
}

/// Generates `max_new` tokens, continuing `prompt`, and decodes them. Each token
/// is what `predict` gives on the tokens so far, the last `block` of them.
pub fn generate<P: Fn(&Vec<i32>) -> u32>(
    tok: &CharTokenizer,
    prompt: &str,
    max_new: usize,
    block: usize,
    predict: P,
) -> (r: String)
    requires
        max_new == 0 || block > 0,
        forall|window: &Vec<i32>| 0 < window@.len() <= block ==> call_requires(predict, (window,)),
    ensures
        exists|made: Seq<u32>|
            {
                &&& made.len() == max_new
                &&& forall|i: int|
                    0 <= i < max_new ==> predicted(
                        predict,
                        seed_of(tok@, prompt@) + as_signed(made.take(i)),
                        block as int,
                        #[trigger] made[i],
                    )
                &&& r@ == #[trigger] tok@.decode(made)
            },
{
    let mut ids: Vec<i32> = signed(&tok.encode(prompt));
    if ids.len() == 0 {
        // Seed with the first vocab symbol when no prompt is given.
        ids.push(0);
        assert(ids@ =~= seq![0i32]);
    }
    let ghost seed = seed_of(tok@, prompt@);
    let ghost room = block as int;
    let mut made: Vec<u32> = Vec::new();
    assert(ids@ =~= seed + as_signed(made@));
    while made.len() < max_new
        invariant
            made@.len() <= max_new,
            max_new == 0 || block > 0,
            room == block,
            seed.len() > 0,
            seed == seed_of(tok@, prompt@),
            forall|window: &Vec<i32>|
                0 < window@.len() <= block ==> call_requires(predict, (window,)),
            ids@ == seed + as_signed(made@),
            forall|i: int|
                0 <= i < made@.len() ==> predicted(
                    predict,
                    seed + as_signed(made@.take(i)),
                    room,
                    #[trigger] made@[i],
                ),
        decreases max_new - made.len(),
    {
        let context: Vec<i32> = window(&ids, block);
        let next: u32 = predict(&context);
        let ghost before = made@;
        ids.push(next as i32);
        made.push(next);
        assert(ids@ =~= seed + as_signed(made@));
        assert forall|i: int| 0 <= i < made@.len() implies predicted(
            predict,
            seed + as_signed(made@.take(i)),
            room,
            #[trigger] made@[i],
        ) by {
            assert(made@.take(i) =~= before.take(i));
            if i < before.len() {
                assert(made@[i] == before[i]);
            } else {
                assert(before.take(i) =~= before);
                assert(call_ensures(predict, (&context,), next));
            }
        }
    }
    tok.decode(made.as_slice())
}

// ---------------------------------------------------------------------------
// Tool calls
// ---------------------------------------------------------------------------

/// Where the parenthesis that `depth` of them are open at `i` is closed.
pub open spec fn close_of(s: Seq<char>, i: int, depth: int) -> Option<int>
    decreases s.len() - i,
{
    if i >= s.len() {
        None
    } else if s[i] == '(' {
        close_of(s, i + 1, depth + 1)
    } else if s[i] == ')' {
        if depth == 1 {
            Some(i)
        } else {
            close_of(s, i + 1, depth - 1)
        }
    } else {
        close_of(s, i + 1, depth)
    }
}

/// The expression of the tool call that ends `s`: what stands between the last
/// opening of a call and the parenthesis that closes it, where that one is the
/// very last character.
pub open spec fn pending_of(s: Seq<char>) -> Option<Seq<char>> {
    match last_to(s, TOOL_CALL_OPEN@, s.len() as int) {
        None => None,
        Some(at) => {
            let open = at + TOOL_CALL_OPEN@.len();
            match close_of(s, open, 1) {
                Some(close) if close == s.len() - 1 => Some(s.subrange(open, close)),
                _ => None,
            }
        },
    }
}

/// If `s` ends with a complete, paren-balanced `>>tool:calculate(<expr>)`,
/// returns `<expr>`. Used to intercept a tool call the instant it's emitted.
pub fn pending_tool_call(s: &Vec<char>) -> (r: Option<String>)
    ensures
        match r {
            Some(expr) => pending_of(s@) == Some(expr@),
            None => pending_of(s@) is None,
        },
{
    let marker: Vec<char> = to_chars(TOOL_CALL_OPEN);
    proof {
        lemma_last_to(s@, marker@, s@.len() as int);
        reveal_strlit(">>tool:calculate(");
    }
    let open: usize = match find_last(s, &marker) {
        Some(at) => {
            assert(occurs_at(s@, marker@, at as int) && s.len() <= usize::MAX);
            at + marker.len()
        },
        None => {
            return None;
        },
    };
    let mut depth: usize = 1;
    let mut i: usize = open;
    while i < s.len()
        invariant
            1 <= open <= i <= s.len(),
            1 <= depth <= i - open + 1,
            close_of(s@, open as int, 1) == close_of(s@, i as int, depth as int),
            pending_of(s@) == (match close_of(s@, open as int, 1) {
                Some(close) if close == s@.len() - 1 => Some(s@.subrange(open as int, close)),
                _ => None,
            }),
        decreases s.len() - i,
    {
        if s[i] == '(' {
            depth += 1;
        } else if s[i] == ')' {
            if depth == 1 {
                // Trigger only if this ')' is the very last character emitted.
                if i == s.len() - 1 {
                    return Some(from_chars(&slice_chars(s, open, i)));
                }
                return None;
            }
            depth -= 1;
        }
        i += 1;
    }
    None
}

/// What the tool answers, as it is put into the text.
pub open spec fn injected_of(amount: Option<Amount>) -> Seq<char> {
    let answer = match amount {
        Some(a) => shown(a),
        None => "error"@,
    };
    seq!['\n'] + TOOL_RESULT_OPEN@ + answer + seq![')', '\n']
}

/// What the tool answers, as it is put into the text.
fn injected(amount: &Option<Amount>) -> (r: Vec<char>)
    ensures
        r@ == injected_of(*amount),
{
    let mut out: Vec<char> = Vec::new();
    out.push('\n');
    extend_chars(&mut out, &to_chars(TOOL_RESULT_OPEN));
    match amount {
        Some(a) => {
            extend_chars(&mut out, &to_chars(format_number(a).as_str()));
        },
        None => {
            extend_chars(&mut out, &to_chars("error"));
        },
    }
    out.push(')');
    out.push('\n');
    assert(out@ =~= injected_of(*amount));
    out
}

// ---------------------------------------------------------------------------
// Answering
// ---------------------------------------------------------------------------

/// Where answering has got to.
pub struct Progress {
    /// The tokens of the prompt and of what was produced.
    pub ids: Seq<i32>,
    /// What was produced so far.
    pub produced: Seq<char>,
    /// Whether the end marker has been reached.
    pub ended: bool,
}

/// One round of answering: the token that the model chose, and what the tool
/// answered, which counts where the token completes a call.
pub struct Move {
    pub next: u32,
    pub amount: Option<Amount>,
}

/// The text after one more token.
pub open spec fn extended(tok: TokenizerModel, p: Progress, next: u32) -> Seq<char> {
    p.produced + tok.decode(seq![next])
}

/// Whether the token `next` completes a tool call that is then answered: the text
/// ends in a call, and holds no end marker.
pub open spec fn completes_call(tok: TokenizerModel, p: Progress, next: u32) -> bool {
    let produced = extended(tok, p, next);
    first_from(produced, END@, 0) is None && pending_of(produced) is Some
}

/// One round: the token is appended; the end marker ends the answer and is cut
/// off; a completed tool call is answered in the text.
pub open spec fn advance(tok: TokenizerModel, p: Progress, m: Move) -> Progress {
    let ids = p.ids.push(m.next as i32);
    let produced = extended(tok, p, m.next);
    match first_from(produced, END@, 0) {
        Some(cut) => Progress { ids, produced: produced.take(cut), ended: true },
        None => match pending_of(produced) {
            Some(_) => Progress {
                ids: ids + as_signed(tok.encode(injected_of(m.amount))),
                produced: produced + injected_of(m.amount),
                ended: false,
            },
            None => Progress { ids, produced, ended: false },
        },
    }
}

/// Where answering `prompt` has got to after `moves`.
pub open spec fn progress_of(tok: TokenizerModel, prompt: Seq<char>, moves: Seq<Move>) -> Progress
    decreases moves.len(),
{
    if moves.len() == 0 {
        Progress { ids: as_signed(tok.encode(prompt)), produced: Seq::empty(), ended: false }
    } else {
        advance(tok, progress_of(tok, prompt, moves.drop_last()), moves.last())
    }
}

/// Whether the tool was asked where the move `m` at `p` completes a call, and
/// answered as the move says.
pub open spec fn answered<
    V,
    N: Fn(&str) -> V,
    U: Fn(V) -> V,
    O: Fn(Operation, V, V) -> Option<V>,
    S: Fn(V) -> Amount,
>(tok: TokenizerModel, calculator: Calculator<N, U, O, S>, p: Progress, m: Move) -> bool {
    completes_call(tok, p, m.next) ==> answers::<V, N, U, O, S>(
        calculator,
        pending_of(extended(tok, p, m.next))->0,
        m.amount,
    )
}

/// Whether nothing that `show` may give holds the end marker.
pub open spec fn shows_no_end<V, S: Fn(V) -> Amount>(show: S) -> bool {
    forall|v: V, a: Amount| #[trigger]
        call_ensures(show, (v,), a) ==> !occurs_in(shown(a), END@)
}

/// Whether the model and the tool may have made the move `m` at `p`: the token
/// is predicted from the window, and a completed call is handed to the tool.
pub open spec fn may_follow<
    P: Fn(&Vec<i32>) -> u32,
    V,
    N: Fn(&str) -> V,
    U: Fn(V) -> V,
    O: Fn(Operation, V, V) -> Option<V>,
    S: Fn(V) -> Amount,
>(
    tok: TokenizerModel,
    block: int,
    predict: P,
    calculator: Calculator<N, U, O, S>,
    p: Progress,
    m: Move,
) -> bool {
    &&& !p.ended
    &&& predicted(predict, p.ids, block, m.next)
    &&& answered::<V, N, U, O, S>(tok, calculator, p, m)
}

/// Whether answering `prompt` may have gone through `moves`.
pub open spec fn may_go<
    P: Fn(&Vec<i32>) -> u32,
    V,
    N: Fn(&str) -> V,
    U: Fn(V) -> V,
    O: Fn(Operation, V, V) -> Option<V>,
    S: Fn(V) -> Amount,
>(
    tok: TokenizerModel,
    prompt: Seq<char>,
    block: int,
    predict: P,
    calculator: Calculator<N, U, O, S>,
    moves: Seq<Move>,
) -> bool {
    forall|i: int|
        0 <= i < moves.len() ==> may_follow::<P, V, N, U, O, S>(
            tok,
            block,
            predict,
            calculator,
            progress_of(tok, prompt, moves.take(i)),
            #[trigger] moves[i],
        )
}

/// Answering a prompt, one token at a time.
pub struct Session {
    ids: Vec<i32>,
    produced: Vec<char>,
    ended: bool,
}

impl View for Session {
    type V = Progress;

    closed spec fn view(&self) -> Progress {
        Progress { ids: self.ids@, produced: self.produced@, ended: self.ended }
    }
}

impl Session {
    /// The start of answering `prompt`.
    pub fn new(tok: &CharTokenizer, prompt: &str) -> (r: Self)
        ensures
            r@ == progress_of(tok@, prompt@, Seq::empty()),
    {
        let r = Session { ids: signed(&tok.encode(prompt)), produced: Vec::new(), ended: false };
        assert(r@.produced =~= Seq::empty());
        r
    }

    /// The tokens that the model predicts the next one from.
    pub fn context(&self, block: usize) -> (r: Vec<i32>)
        ensures
            r@ == window_of(self@.ids, block as int),
    {
        window(&self.ids, block)
    }

    /// What was produced so far.
    pub fn produced(&self) -> (r: String)
        ensures
            r@ == self@.produced,
    {
        from_chars(&self.produced)
    }

    /// Whether the end marker has been reached.
    pub fn ended(&self) -> (r: bool)
        ensures
            r == self@.ended,
    {
        self.ended
    }

    /// Takes the token that the model chose. Stops at the end marker; resolves a
    /// tool call that the token completes.
    pub fn accept<
        V: Copy,
        N: Fn(&str) -> V,
        U: Fn(V) -> V,
        O: Fn(Operation, V, V) -> Option<V>,
        S: Fn(V) -> Amount,
    >(&mut self, tok: &CharTokenizer, next: u32, calculator: &Calculator<N, U, O, S>)
        requires
            is_total::<V, N, U, O, S>(*calculator),
        ensures
            exists|m: Move|
                {
                    &&& m.next == next
                    &&& answered::<V, N, U, O, S>(tok@, *calculator, old(self)@, m)
                    &&& final(self)@ == #[trigger] advance(tok@, old(self)@, m)
                },
            shows_no_end::<V, S>(calculator.show) ==> !occurs_in(final(self)@.produced, END@),
    {
        let ghost p = self@;
        let mut one: Vec<u32> = Vec::new();
        one.push(next);
        assert(one@ =~= seq![next]);
        let text: Vec<char> = to_chars(tok.decode(one.as_slice()).as_str());
        self.ids.push(next as i32);
        extend_chars(&mut self.produced, &text);
        self.ended = false;
        assert(self.produced@ == extended(tok@, p, next));
        let end: Vec<char> = to_chars(END);
        proof {
            lemma_first_from(self.produced@, end@, 0);
        }
        if let Some(cut) = find_from(&self.produced, &end, 0) {
            let ghost whole = self.produced@;
            self.produced.truncate(cut);
            self.ended = true;
            proof {
                let m = Move { next, amount: None };
                assert(self.produced@ =~= whole.take(cut as int));
                assert(answered::<V, N, U, O, S>(tok@, *calculator, p, m));
                assert(self@ == advance(tok@, p, m));
                law_rounds_leave_no_end_marker(tok@, p, m);
            }
            return;
        }
        // Intercept and resolve a completed tool call.
        let call: Option<String> = pending_tool_call(&self.produced);
        match call {
            Some(expr) => {
                let amount: Option<Amount> = answer::<V, N, U, O, S>(calculator, expr.as_str());
                let more: Vec<char> = injected(&amount);
                let codes: Vec<i32> = signed(&tok.encode(from_chars(&more).as_str()));
                extend_ids(&mut self.ids, &codes);
                extend_chars(&mut self.produced, &more);
                proof {
                    let m = Move { next, amount };
                    assert(answered::<V, N, U, O, S>(tok@, *calculator, p, m));
                    assert(self@ == advance(tok@, p, m));
                    if shows_no_end::<V, S>(calculator.show) {
                        law_rounds_leave_no_end_marker(tok@, p, m);
                    }
                }
            },
            None => {
                proof {
                    let m = Move { next, amount: None };
                    assert(answered::<V, N, U, O, S>(tok@, *calculator, p, m));
                    assert(self@ == advance(tok@, p, m));
                    law_rounds_leave_no_end_marker(tok@, p, m);
                }
            },
        }
    }
}

fn extend_ids(ids: &mut Vec<i32>, more: &Vec<i32>)
    ensures
        final(ids)@ == old(ids)@ + more@,
{
    let mut k: usize = 0;
    while k < more.len()
        invariant
            k <= more.len(),
            ids@ == old(ids)@ + more@.take(k as int),
        decreases more.len() - k,
    {
        ids.push(more[k]);
        k += 1;
    }
    assert(more@.take(k as int) =~= more@);
}

/// Generates an answer for an already-formatted prompt (text up to and including
/// `<|answer|>\n`), running the calculator tool-loop: when the model emits a
/// `>>tool:calculate(...)` call, evaluates it, injects `>>tool:result(...)`, and
/// continues. Stops at the `<|end|>` marker or after `max_new` model tokens.
pub fn generate_instruct<
    P: Fn(&Vec<i32>) -> u32,
    V: Copy,
    N: Fn(&str) -> V,
    U: Fn(V) -> V,
    O: Fn(Operation, V, V) -> Option<V>,
    S: Fn(V) -> Amount,
>(
    tok: &CharTokenizer,
    prompt: &str,
    max_new: usize,
    block: usize,
    predict: P,
    calculator: &Calculator<N, U, O, S>,
) -> (r: String)
    requires
        max_new == 0 || block > 0 && tok@.encode(prompt@).len() > 0,
        forall|window: &Vec<i32>| 0 < window@.len() <= block ==> call_requires(predict, (window,)),
        is_total::<V, N, U, O, S>(*calculator),
    ensures
        exists|moves: Seq<Move>|
            {
                let last = progress_of(tok@, prompt@, moves);
                &&& #[trigger] may_go::<P, V, N, U, O, S>(
                    tok@,
                    prompt@,
                    block as int,
                    predict,
                    *calculator,
                    moves,
                )
                &&& moves.len() == max_new || moves.len() < max_new && last.ended
                &&& r@ == last.produced
            },
        shows_no_end::<V, S>(calculator.show) ==> !occurs_in(r@, END@),
{
    let mut session: Session = Session::new(tok, prompt);
    let ghost room = block as int;
    let ghost mut moves: Seq<Move> = Seq::empty();
    let mut round: usize = 0;
    while round < max_new && !session.ended()
        invariant
            round <= max_new,
            max_new == 0 || block > 0,
            room == block,
            forall|window: &Vec<i32>|
                0 < window@.len() <= block ==> call_requires(predict, (window,)),
            is_total::<V, N, U, O, S>(*calculator),
            moves.len() == round,
            may_go::<P, V, N, U, O, S>(tok@, prompt@, room, predict, *calculator, moves),
            max_new == 0 || session@.ids.len() > 0,
            session@ == progress_of(tok@, prompt@, moves),
        decreases max_new - round,
    {
        let ghost p = session@;
        let context: Vec<i32> = session.context(block);
        let next: u32 = predict(&context);
        assert(predicted(predict, p.ids, room, next)) by {
            assert(call_ensures(predict, (&context,), next));
        }
        session.accept::<V, N, U, O, S>(tok, next, calculator);
        proof {
            let m = choose|m: Move|
                {
                    &&& m.next == next
                    &&& answered::<V, N, U, O, S>(tok@, *calculator, p, m)
                    &&& session@ == #[trigger] advance(tok@, p, m)
                };
            lemma_goes_on::<P, V, N, U, O, S>(
                tok@,
                prompt@,
                room,
                predict,
                *calculator,
                moves,
                m,
            );
            moves = moves.push(m);
        }
        round += 1;
    }
    proof {
        if shows_no_end::<V, S>(calculator.show) {
            law_generated_answers_hold_no_end_marker::<P, V, N, U, O, S>(
                tok@,
                prompt@,
                room,
                predict,
                *calculator,
                moves,
            );
        }
    }
    session.produced()
}

proof fn lemma_goes_on<
    P: Fn(&Vec<i32>) -> u32,
    V,
    N: Fn(&str) -> V,
    U: Fn(V) -> V,
    O: Fn(Operation, V, V) -> Option<V>,
    S: Fn(V) -> Amount,
>(
    tok: TokenizerModel,
    prompt: Seq<char>,
    block: int,
    predict: P,
    calculator: Calculator<N, U, O, S>,
    moves: Seq<Move>,
    m: Move,
)
    requires
        may_go::<P, V, N, U, O, S>(tok, prompt, block, predict, calculator, moves),
        may_follow::<P, V, N, U, O, S>(
            tok,
            block,
            predict,
            calculator,
            progress_of(tok, prompt, moves),
            m,
        ),
    ensures
        may_go::<P, V, N, U, O, S>(tok, prompt, block, predict, calculator, moves.push(m)),
        progress_of(tok, prompt, moves.push(m)) == advance(
            tok,
            progress_of(tok, prompt, moves),
            m,
        ),
{
    let all = moves.push(m);
    assert(all.drop_last() =~= moves);
    assert forall|i: int| 0 <= i < all.len() implies may_follow::<P, V, N, U, O, S>(
        tok,
        block,
        predict,
        calculator,
        progress_of(tok, prompt, all.take(i)),
        #[trigger] all[i],
    ) by {
        assert(all.take(i) =~= moves.take(i));
        if i == moves.len() {
            assert(moves.take(i) =~= moves);
        } else {
            assert(moves[i] == all[i]);
        }
    }
}

// ---------------------------------------------------------------------------
// Asking
// ---------------------------------------------------------------------------

/// The snippets of search results.
pub open spec fn snippets_of(results: Seq<SearchResult>) -> Seq<Seq<char>> {
    results.map_values(|x: SearchResult| x.snippet@)
}

/// The context that search results give: their snippets, one per line.
pub fn context_from(results: &Vec<SearchResult>) -> (r: String)
    ensures
        r@ == join_of(snippets_of(results@), seq!['\n']),
{
    let mut parts: Vec<Vec<char>> = Vec::new();
    let mut i: usize = 0;
    while i < results.len()
        invariant
            i <= results.len(),
            texts(parts@) == snippets_of(results@).take(i as int),
        decreases results.len() - i,
    {
        let ghost before = parts@;
        let part: Vec<char> = to_chars(results[i].snippet.as_str());
        parts.push(part);
        assert(texts(parts@) =~= texts(before).push(part@));
        assert(snippets_of(results@).take(i + 1) =~= snippets_of(results@).take(i as int).push(
            part@,
        ));
        i += 1;
    }
    assert(snippets_of(results@).take(i as int) =~= snippets_of(results@));
    let mut newline: Vec<char> = Vec::new();
    newline.push('\n');
    assert(newline@ =~= seq!['\n']);
    from_chars(&join(&parts, &newline))
}

/// How a question and its answer are shown.
pub fn transcript(query: &str, answer: &str) -> (r: String)
    ensures
        r@ == "Q: "@ + trim_of(query@) + "\nA: "@ + trim_of(answer@),
{
    let mut s: String = String::new();
    s.append("Q: ");
    s.append(trim(query).as_str());
    s.append("\nA: ");
    s.append(trim(answer).as_str());
    assert(s@ =~= "Q: "@ + trim_of(query@) + "\nA: "@ + trim_of(answer@));
    s
}

// ---------------------------------------------------------------------------
// Laws
// ---------------------------------------------------------------------------

/// How many parentheses are open at the end of `s`, from `depth` of them; `None`
/// where one is closed that would leave none.
pub open spec fn depth_of(s: Seq<char>, depth: int) -> Option<int>
    decreases s.len(),
{
    if s.len() == 0 {
        Some(depth)
    } else {
        match depth_of(s.drop_last(), depth) {
            None => None,
            Some(d) => if s.last() == '(' {
                Some(d + 1)
            } else if s.last() == ')' {
                if d == 1 {
                    None
                } else {
                    Some(d - 1)
                }
            } else {
                Some(d)
            },
        }
    }
}

/// Whether every parenthesis of `s` has its partner in `s`.
pub open spec fn is_balanced(s: Seq<char>) -> bool {
    depth_of(s, 1) == Some(1int)
}

proof fn lemma_close(s: Seq<char>, open: int, i: int, depth: int)
    requires
        0 <= open <= i <= s.len(),
        depth_of(s.subrange(open, i), 1) == Some(depth),
    ensures
        close_of(s, open, 1) == close_of(s, i, depth),
    decreases i - open,
{
    if i > open {
        let part = s.subrange(open, i);
        assert(part.drop_last() =~= s.subrange(open, i - 1));
        let d = depth_of(part.drop_last(), 1)->0;
        lemma_close(s, open, i - 1, d);
    }
}

/// A tool call is noticed the moment it is complete, and with its expression:
/// where the text ends in a call whose parentheses are balanced, and no other
/// call opens inside it.
pub proof fn law_complete_calls_are_noticed(before: Seq<char>, expr: Seq<char>)
    requires
        is_balanced(expr),
        !occurs_in((TOOL_CALL_OPEN@ + expr + seq![')']).skip(1), TOOL_CALL_OPEN@),
    ensures
        pending_of(before + TOOL_CALL_OPEN@ + expr + seq![')']) == Some(expr),
{
    let mark = TOOL_CALL_OPEN@;
    let call = mark + expr + seq![')'];
    let s = before + mark + expr + seq![')'];
    let at = before.len() as int;
    let open = at + mark.len();
    let close = open + expr.len();
    lemma_last_to(s, mark, s.len() as int);
    assert(s.subrange(at, at + mark.len()) =~= mark);
    assert(occurs_at(s, mark, at));
    let found = last_to(s, mark, s.len() as int)->0;
    if found > at {
        let k = found - at - 1;
        assert(call.skip(1).subrange(k, k + mark.len()) =~= s.subrange(found, found + mark.len()));
        assert(occurs_at(call.skip(1), mark, k));
    }
    assert(s.subrange(open, close) =~= expr);
    lemma_close(s, open, close, 1);
    assert(close_of(s, close, 1) == Some(close));
}

/// Only a complete call is noticed: the text then ends in the call.
pub proof fn law_noticed_calls_are_complete(s: Seq<char>)
    ensures
        pending_of(s) matches Some(expr) ==> exists|at: int|
            {
                &&& #[trigger] occurs_at(s, TOOL_CALL_OPEN@, at)
                &&& s == s.take(at) + TOOL_CALL_OPEN@ + expr + seq![')']
                &&& is_balanced(expr)
            },
{
    if let Some(expr) = pending_of(s) {
        let mark = TOOL_CALL_OPEN@;
        lemma_last_to(s, mark, s.len() as int);
        let at = last_to(s, mark, s.len() as int)->0;
        let open = at + mark.len();
        let close = s.len() - 1;
        lemma_closed(s, open, open, 1);
        assert(s.subrange(at, open) =~= mark);
        assert(s =~= s.take(at) + mark + expr + seq![')']);
        assert(occurs_at(s, mark, at));
    }
}

proof fn lemma_closed(s: Seq<char>, open: int, i: int, depth: int)
    requires
        0 <= open <= i <= s.len(),
        depth_of(s.subrange(open, i), 1) == Some(depth),
    ensures
        close_of(s, i, depth) matches Some(close) ==> {
            &&& i <= close < s.len()
            &&& s[close] == ')'
            &&& depth_of(s.subrange(open, close), 1) == Some(1int)
        },
    decreases s.len() - i,
{
    if i < s.len() {
        let next = s.subrange(open, i + 1);
        assert(next.drop_last() =~= s.subrange(open, i));
        if !(s[i] == ')' && depth == 1) {
            lemma_closed(s, open, i + 1, depth_of(next, 1)->0);
        }
    }
}

/// A tool's answer put behind a text without the end marker makes none, unless
/// the answer itself holds one.
proof fn lemma_end_not_made(text: Seq<char>, amount: Option<Amount>)
    requires
        !occurs_in(text, END@),
        amount matches Some(a) ==> !occurs_in(shown(a), END@),
    ensures
        !occurs_in(text + injected_of(amount), END@),
{
    reveal_strlit("<|end|>");
    reveal_strlit("error");
    reveal_strlit(">>tool:result(");
    let answer = match amount {
        Some(a) => shown(a),
        None => "error"@,
    };
    let more = injected_of(amount);
    let n = END@.len() as int;
    let open = 1 + TOOL_RESULT_OPEN@.len() as int;
    let close = open + answer.len();
    if occurs_in(text + more, END@) {
        let k = choose|k: int| occurs_at(text + more, END@, k);
        let found = (text + more).subrange(k, k + n);
        let j = k - text.len();
        if k + n <= text.len() {
            assert(text.subrange(k, k + n) =~= found);
            assert(occurs_at(text, END@, k));
        } else if j < 0 {
            assert(found[-j] == more[0]);
        } else {
            assert(found[0] == more[j]);
            if 1 <= j < open {
                assert(more[j] == TOOL_RESULT_OPEN@[j - 1]);
            } else if open <= j < close {
                if j + n <= close {
                    assert(answer.subrange(j - open, j - open + n) =~= found);
                    assert(occurs_at(answer, END@, j - open));
                    if amount is None {
                        assert(answer[j - open] == found[0]);
                    }
                } else {
                    assert(found[close - j] == more[close]);
                }
            }
        }
    }
}

/// Whether what the tool answered, where the move `m` at `p` completes a call,
/// holds no end marker.
pub open spec fn answer_holds_no_end(tok: TokenizerModel, p: Progress, m: Move) -> bool {
    completes_call(tok, p, m.next) ==> (m.amount matches Some(a) ==> !occurs_in(shown(a), END@))
}

/// Whatever was produced before, it holds no end marker after one more round,
/// unless what the tool answered in that round does.
pub proof fn law_rounds_leave_no_end_marker(tok: TokenizerModel, p: Progress, m: Move)
    requires
        answer_holds_no_end(tok, p, m),
    ensures
        !occurs_in(advance(tok, p, m).produced, END@),
{
    let produced = extended(tok, p, m.next);
    lemma_first_from(produced, END@, 0);
    match first_from(produced, END@, 0) {
        Some(cut) => {
            reveal_strlit("<|end|>");
            if occurs_in(produced.take(cut), END@) {
                let k = choose|k: int| occurs_at(produced.take(cut), END@, k);
                assert(produced.subrange(k, k + END@.len()) =~= produced.take(cut).subrange(
                    k,
                    k + END@.len(),
                ));
                assert(occurs_at(produced, END@, k));
            }
        },
        None => {
            assert(!occurs_in(produced, END@));
            if pending_of(produced) is Some {
                lemma_end_not_made(produced, m.amount);
            }
        },
    }
}

/// An answer never holds the end marker, unless it ends in what the tool answered
/// to a call and that does.
pub proof fn law_answers_hold_no_end_marker(
    tok: TokenizerModel,
    prompt: Seq<char>,
    moves: Seq<Move>,
)
    requires
        moves.len() > 0 ==> answer_holds_no_end(
            tok,
            progress_of(tok, prompt, moves.drop_last()),
            moves.last(),
        ),
    ensures
        !occurs_in(progress_of(tok, prompt, moves).produced, END@),
{
    if moves.len() > 0 {
        law_rounds_leave_no_end_marker(
            tok,
            progress_of(tok, prompt, moves.drop_last()),
            moves.last(),
        );
    } else {
        reveal_strlit("<|end|>");
        if occurs_in(Seq::<char>::empty(), END@) {
            let k = choose|k: int| occurs_at(Seq::<char>::empty(), END@, k);
        }
    }
}

/// However answering a prompt goes, the answer holds no end marker where nothing
/// that the calculator shows does.
pub proof fn law_generated_answers_hold_no_end_marker<
    P: Fn(&Vec<i32>) -> u32,
    V,
    N: Fn(&str) -> V,
    U: Fn(V) -> V,
    O: Fn(Operation, V, V) -> Option<V>,
    S: Fn(V) -> Amount,
>(
    tok: TokenizerModel,
    prompt: Seq<char>,
    block: int,
    predict: P,
    calculator: Calculator<N, U, O, S>,
    moves: Seq<Move>,
)
    requires
        may_go::<P, V, N, U, O, S>(tok, prompt, block, predict, calculator, moves),
        shows_no_end::<V, S>(calculator.show),
    ensures
        !occurs_in(progress_of(tok, prompt, moves).produced, END@),
{
    if moves.len() > 0 {
        let n = moves.len() - 1;
        assert(moves.take(n) =~= moves.drop_last());
        let p = progress_of(tok, prompt, moves.take(n));
        assert(may_follow::<P, V, N, U, O, S>(tok, block, predict, calculator, p, moves[n]));
    }
    law_answers_hold_no_end_marker(tok, prompt, moves);
}

proof fn lemma_encode_add(tok: TokenizerModel, a: Seq<char>, b: Seq<char>)
    ensures
        tok.encode(a + b) == tok.encode(a) + tok.encode(b),
    decreases b.len(),
{
    if b.len() == 0 {
        assert(a + b =~= a);
        assert(tok.encode(a) + tok.encode(b) =~= tok.encode(a));
    } else {
        assert((a + b).drop_last() =~= a + b.drop_last());
        lemma_encode_add(tok, a, b.drop_last());
        assert(tok.encode(a + b) =~= tok.encode(a) + tok.encode(b));
    }
}

/// What the model sees is the prompt and what was produced, the tools' answers
/// included, until the end marker is reached.
pub proof fn law_model_sees_what_was_produced(
    tok: TokenizerModel,
    prompt: Seq<char>,
    moves: Seq<Move>,
)
    requires
        tok.indexed(),
        tok.itos.len() <= id_limit(),
        tok.itos.no_duplicates(),
        forall|i: int| 0 <= i < moves.len() ==> (#[trigger] moves[i]).next < tok.itos.len(),
        forall|i: int|
            0 <= i <= moves.len() ==> !progress_of(tok, prompt, #[trigger] moves.take(i)).ended,
    ensures
        progress_of(tok, prompt, moves).ids == as_signed(
            tok.encode(prompt + progress_of(tok, prompt, moves).produced),
        ),
    decreases moves.len(),
{
    if moves.len() == 0 {
        assert(prompt + Seq::<char>::empty() =~= prompt);
    } else {
        let front = moves.drop_last();
        assert forall|i: int| 0 <= i < front.len() implies (#[trigger] front[i]).next
            < tok.itos.len() by {
            assert(front[i] == moves[i]);
        }
        assert forall|i: int| 0 <= i <= front.len() implies !progress_of(
            tok,
            prompt,
            #[trigger] front.take(i),
        ).ended by {
            assert(front.take(i) =~= moves.take(i));
        }
        law_model_sees_what_was_produced(tok, prompt, front);
        assert(moves.take(moves.len() as int) =~= moves);
        let p = progress_of(tok, prompt, front);
        let m = moves.last();
        assert(m == moves[moves.len() - 1]);
        let one = seq![m.next];
        law_encode_undoes_decode(tok, one);
        assert(one.filter(|i: u32| i < tok.itos.len()) =~= one) by {
            reveal_with_fuel(Seq::filter, 2);
            assert(one.drop_last() =~= Seq::empty());
        }
        let produced = extended(tok, p, m.next);
        lemma_encode_add(tok, prompt, p.produced);
        lemma_encode_add(tok, prompt + p.produced, tok.decode(one));
        assert(prompt + produced =~= (prompt + p.produced) + tok.decode(one));
        let ids = p.ids.push(m.next as i32);
        assert(ids =~= as_signed(tok.encode(prompt + produced)));
        let more = injected_of(m.amount);
        lemma_encode_add(tok, prompt + produced, more);
        assert(prompt + (produced + more) =~= (prompt + produced) + more);
        assert(ids + as_signed(tok.encode(more)) =~= as_signed(
            tok.encode(prompt + (produced + more)),
        ));
    }
}

/// Whenever the model is asked for a token, what it is asked from is the prompt
/// and all that was produced so far.
pub proof fn law_predictions_see_what_was_produced<
    P: Fn(&Vec<i32>) -> u32,
    V,
    N: Fn(&str) -> V,
    U: Fn(V) -> V,
    O: Fn(Operation, V, V) -> Option<V>,
    S: Fn(V) -> Amount,
>(
    tok: TokenizerModel,
    prompt: Seq<char>,
    block: int,
    predict: P,
    calculator: Calculator<N, U, O, S>,
    moves: Seq<Move>,
    i: int,
)
    requires
        may_go::<P, V, N, U, O, S>(tok, prompt, block, predict, calculator, moves),
        0 <= i < moves.len(),
        tok.indexed(),
        tok.itos.len() <= id_limit(),
        tok.itos.no_duplicates(),
        forall|k: int| 0 <= k < i ==> (#[trigger] moves[k]).next < tok.itos.len(),
    ensures
        predicted(
            predict,
            as_signed(tok.encode(prompt + progress_of(tok, prompt, moves.take(i)).produced)),
            block,
            moves[i].next,
        ),
{
    let before = moves.take(i);
    assert forall|k: int| 0 <= k < before.len() implies (#[trigger] before[k]).next
        < tok.itos.len() by {
        assert(before[k] == moves[k]);
    }
    assert forall|k: int| 0 <= k <= before.len() implies !progress_of(
        tok,
        prompt,
        #[trigger] before.take(k),
    ).ended by {
        assert(before.take(k) =~= moves.take(k));
        assert(may_follow::<P, V, N, U, O, S>(
            tok,
            block,
            predict,
            calculator,
            progress_of(tok, prompt, moves.take(k)),
            moves[k],
        ));
    }
    law_model_sees_what_was_produced(tok, prompt, before);
    assert(may_follow::<P, V, N, U, O, S>(
        tok,
        block,
        predict,
        calculator,
        progress_of(tok, prompt, before),
        moves[i],
    ));
}

/// How often `c` stands in `s`.
pub open spec fn times(s: Seq<char>, c: char) -> nat {
    s.filter(|x: char| x == c).len()
}

proof fn lemma_times(s: Seq<char>, c: char)
    requires
        s.len() > 0,
    ensures
        times(s, c) == times(s.drop_last(), c) + (if s.last() == c {
            1nat
        } else {
            0nat
        }),
{
    reveal(Seq::filter);
}

proof fn lemma_depth(s: Seq<char>)
    ensures
        match depth_of(s, 1) {
            Some(d) => d == 1 + times(s, '(') - times(s, ')') && forall|k: int|
                0 <= k <= s.len() ==> times(#[trigger] s.take(k), ')') <= times(s.take(k), '('),
            None => exists|k: int|
                0 <= k <= s.len() && times(#[trigger] s.take(k), ')') > times(s.take(k), '('),
        },
    decreases s.len(),
{
    reveal(Seq::filter);
    if s.len() == 0 {
        assert forall|k: int| 0 <= k <= s.len() implies times(#[trigger] s.take(k), ')') <= times(
            s.take(k),
            '(',
        ) by {
            assert(s.take(k) =~= s);
        }
    } else {
        let front = s.drop_last();
        lemma_depth(front);
        lemma_times(s, '(');
        lemma_times(s, ')');
        assert(s.take(s.len() as int) =~= s);
        match depth_of(front, 1) {
            Some(d) => {
                assert(times(front.take(front.len() as int), ')') <= times(
                    front.take(front.len() as int),
                    '(',
                ));
                assert(front.take(front.len() as int) =~= front);
                if depth_of(s, 1) is Some {
                    assert forall|k: int| 0 <= k <= s.len() implies times(#[trigger] s.take(k), ')')
                        <= times(s.take(k), '(') by {
                        if k < s.len() {
                            assert(front.take(k) =~= s.take(k));
                        }
                    }
                } else {
                    assert(times(s.take(s.len() as int), ')') > times(
                        s.take(s.len() as int),
                        '(',
                    ));
                }
            },
            None => {
                let k = choose|k: int|
                    0 <= k <= front.len() && times(#[trigger] front.take(k), ')') > times(
                        front.take(k),
                        '(',
                    );
                assert(s.take(k) =~= front.take(k));
                assert(times(s.take(k), ')') > times(s.take(k), '('));
            },
        }
    }
}

/// A text is balanced exactly where it opens as many parentheses as it closes,
/// and none is closed that was not opened before.
pub proof fn law_balanced_means_paired(s: Seq<char>)
    ensures
        is_balanced(s) <==> times(s, '(') == times(s, ')') && forall|k: int|
            0 <= k <= s.len() ==> times(#[trigger] s.take(k), ')') <= times(s.take(k), '('),
{
    lemma_depth(s);
}

/// The text with the tool's answer behind it.
pub open spec fn with_answer(text: Seq<char>, answer: Seq<char>) -> Seq<char> {
    text + ("\n>>tool:result("@ + answer + ")\n"@)
}

/// Whether `text` ends in a complete call that asks for `expr`: the call's
/// parentheses are balanced, and no other call opens behind its start.
pub open spec fn ends_in_call(text: Seq<char>, before: Seq<char>, expr: Seq<char>) -> bool {
    &&& text == before + ">>tool:calculate("@ + expr + ")"@
    &&& is_balanced(expr)
    &&& forall|k: int| k > before.len() ==> !#[trigger] occurs_at(text, ">>tool:calculate("@, k)
}

proof fn lemma_call(text: Seq<char>, before: Seq<char>, expr: Seq<char>)
    requires
        ends_in_call(text, before, expr),
    ensures
        pending_of(text) == Some(expr),
{
    reveal_strlit(">>tool:calculate(");
    reveal_strlit(")");
    let mark = TOOL_CALL_OPEN@;
    let call = mark + expr + seq![')'];
    assert(")"@ =~= seq![')']);
    if occurs_in(call.skip(1), mark) {
        let k = choose|k: int| occurs_at(call.skip(1), mark, k);
        let at = before.len() + 1 + k;
        assert(text.subrange(at, at + mark.len()) =~= call.skip(1).subrange(k, k + mark.len()));
        assert(occurs_at(text, mark, at));
    }
    law_complete_calls_are_noticed(before, expr);
}

/// Every completed call is answered, however many were answered before it: where
/// the text with the new token ends in a call and holds no end marker, the tool's
/// answer is put behind the whole of that text, and its tokens behind the tokens.
pub proof fn law_completed_calls_are_answered(
    tok: TokenizerModel,
    p: Progress,
    m: Move,
    before: Seq<char>,
    expr: Seq<char>,
)
    requires
        ends_in_call(p.produced + tok.decode(seq![m.next]), before, expr),
        !occurs_in(p.produced + tok.decode(seq![m.next]), "<|end|>"@),
    ensures
        ({
            let text = p.produced + tok.decode(seq![m.next]);
            let answer = match m.amount {
                Some(a) => shown(a),
                None => "error"@,
            };
            &&& advance(tok, p, m).produced == with_answer(text, answer)
            &&& advance(tok, p, m).ids == p.ids.push(m.next as i32) + as_signed(
                tok.encode("\n>>tool:result("@ + answer + ")\n"@),
            )
            &&& !advance(tok, p, m).ended
        }),
{
    let text = p.produced + tok.decode(seq![m.next]);
    let answer = match m.amount {
        Some(a) => shown(a),
        None => "error"@,
    };
    lemma_call(text, before, expr);
    lemma_first_from(text, END@, 0);
    reveal_strlit("\n>>tool:result(");
    reveal_strlit(">>tool:result(");
    reveal_strlit(")\n");
    assert("\n>>tool:result("@ =~= seq!['\n'] + ">>tool:result("@);
    assert(")\n"@ =~= seq![')', '\n']);
    assert("\n>>tool:result("@ + answer + ")\n"@ =~= injected_of(m.amount));
}

/// A completed call is handed to the calculator with the expression between its
/// parentheses.
pub proof fn law_calls_ask_for_their_expression<
    V,
    N: Fn(&str) -> V,
    U: Fn(V) -> V,
    O: Fn(Operation, V, V) -> Option<V>,
    S: Fn(V) -> Amount,
>(
    tok: TokenizerModel,
    calculator: Calculator<N, U, O, S>,
    p: Progress,
    m: Move,
    before: Seq<char>,
    expr: Seq<char>,
)
    requires
        ends_in_call(p.produced + tok.decode(seq![m.next]), before, expr),
        !occurs_in(p.produced + tok.decode(seq![m.next]), "<|end|>"@),
        answered::<V, N, U, O, S>(tok, calculator, p, m),
    ensures
        answers::<V, N, U, O, S>(calculator, expr, m.amount),
{
    let text = p.produced + tok.decode(seq![m.next]);
    lemma_call(text, before, expr);
    lemma_first_from(text, END@, 0);
}

/// The first end marker ends the answer: what stands before it is the answer.
pub proof fn law_the_end_marker_ends_the_answer(
    tok: TokenizerModel,
    p: Progress,
    m: Move,
    before: Seq<char>,
    after: Seq<char>,
)
    requires
        p.produced + tok.decode(seq![m.next]) == before + "<|end|>"@ + after,
        forall|k: int|
            k < before.len() ==> !#[trigger] occurs_at(before + "<|end|>"@ + after, "<|end|>"@, k),
    ensures
        advance(tok, p, m).produced == before,
        advance(tok, p, m).ids == p.ids.push(m.next as i32),
        advance(tok, p, m).ended,
{
    let text = before + "<|end|>"@ + after;
    let at = before.len() as int;
    lemma_first_from(text, END@, 0);
    assert(text.subrange(at, at + END@.len()) =~= END@);
    assert(occurs_at(text, END@, at));
    assert(text.take(at) =~= before);
}

/// Every other token is appended, and nothing else happens.
pub proof fn law_other_tokens_are_appended(tok: TokenizerModel, p: Progress, m: Move)
    requires
        !occurs_in(p.produced + tok.decode(seq![m.next]), "<|end|>"@),
        forall|before: Seq<char>, expr: Seq<char>|
            !#[trigger] ends_in_call(p.produced + tok.decode(seq![m.next]), before, expr),
    ensures
        advance(tok, p, m).produced == p.produced + tok.decode(seq![m.next]),
        advance(tok, p, m).ids == p.ids.push(m.next as i32),
        !advance(tok, p, m).ended,
{
    let text = p.produced + tok.decode(seq![m.next]);
    lemma_first_from(text, END@, 0);
    if let Some(expr) = pending_of(text) {
        law_noticed_calls_are_complete(text);
        let mark = TOOL_CALL_OPEN@;
        lemma_last_to(text, mark, text.len() as int);
        let at = last_to(text, mark, text.len() as int)->0;
        let open = at + mark.len();
        lemma_closed(text, open, open, 1);
        reveal_strlit(")");
        assert(")"@ =~= seq![')']);
        let before = text.take(at);
        assert(text.subrange(at, open) =~= mark);
        assert(text =~= before + mark + expr + ")"@);
        assert forall|k: int| k > before.len() implies !#[trigger] occurs_at(
            text,
            ">>tool:calculate("@,
            k,
        ) by {}
        assert(ends_in_call(text, before, expr));
    }
}

/// Answering starts from the prompt's tokens with nothing produced, and goes on
/// one round at a time.
pub proof fn law_answering_goes_round_by_round(
    tok: TokenizerModel,
    prompt: Seq<char>,
    moves: Seq<Move>,
    m: Move,
)
    ensures
        progress_of(tok, prompt, Seq::empty()).ids == as_signed(tok.encode(prompt)),
        progress_of(tok, prompt, Seq::empty()).produced == Seq::<char>::empty(),
        !progress_of(tok, prompt, Seq::empty()).ended,
        progress_of(tok, prompt, moves.push(m)) == advance(tok, progress_of(tok, prompt, moves), m),
{
    assert(moves.push(m).drop_last() =~= moves);
}

/// The window holds the last tokens, as many as it has room for, or all of them.
pub proof fn law_windows_hold_the_last_tokens(ids: Seq<i32>, block: int)
    requires
        0 <= block,
    ensures
        window_of(ids, block).len() == if ids.len() < block {
            ids.len() as int
        } else {
            block
        },
        forall|k: int|
            1 <= k <= window_of(ids, block).len() ==> #[trigger] window_of(ids, block)[window_of(
                ids,
                block,
            ).len() - k] == ids[ids.len() - k],
{
}

/// The next token is always asked for from the last tokens.
pub proof fn law_predictions_see_the_last_tokens<P: Fn(&Vec<i32>) -> u32>(
    predict: P,
    ids: Seq<i32>,
    block: int,
    next: u32,
)
    requires
        0 <= block,
        predicted(predict, ids, block, next),
    ensures
        exists|window: &Vec<i32>|
            {
                &&& #[trigger] call_ensures(predict, (window,), next)
                &&& window@.len() == if ids.len() < block {
                    ids.len() as int
                } else {
                    block
                }
                &&& window@ == ids.skip(ids.len() - window@.len())
            },
{
    let window = choose|window: &Vec<i32>|
        window@ == window_of(ids, block) && #[trigger] call_ensures(predict, (window,), next);
    law_windows_hold_the_last_tokens(ids, block);
    assert(window@ =~= ids.skip(ids.len() - window@.len()));
    assert(call_ensures(predict, (window,), next));
}

/// Plain generation starts from the prompt's tokens, or from token 0 where the
/// prompt has none.
pub proof fn law_generation_starts_from_the_prompt(tok: TokenizerModel, prompt: Seq<char>)
    ensures
        tok.encode(prompt).len() > 0 ==> seed_of(tok, prompt) == as_signed(tok.encode(prompt)),
        tok.encode(prompt).len() == 0 ==> seed_of(tok, prompt) == seq![0i32],
{
}

/// The context holds the snippet of every result, in the order of the results, one
/// under the other.
pub proof fn law_contexts_hold_every_snippet(
    a: Seq<SearchResult>,
    b: Seq<SearchResult>,
    x: SearchResult,
)
    ensures
        join_of(snippets_of(seq![x]), seq!['\n']) == x.snippet@,
        a.len() > 0 && b.len() > 0 ==> join_of(snippets_of(a + b), seq!['\n']) == join_of(
            snippets_of(a),
            seq!['\n'],
        ) + "\n"@ + join_of(snippets_of(b), seq!['\n']),
{
    reveal_strlit("\n");
    assert("\n"@ =~= seq!['\n']);
    assert(snippets_of(seq![x]) =~= seq![x.snippet@]);
    assert(snippets_of(a + b) =~= snippets_of(a) + snippets_of(b));
    law_joining_puts_the_separator_between(
        snippets_of(a),
        snippets_of(b),
        x.snippet@,
        seq!['\n'],
    );
}

} // verus!
