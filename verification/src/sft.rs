//! Supervised fine-tuning (SFT) on the synthetic examples: which characters of a
//! rendered example the model is trained on, and how examples become batches.
//!
//! Differs from baseline pretraining in two ways:
//!  - Trains on rendered [`Example`]s (context/question/answer/tool format), not
//!    raw contiguous text.
//!  - Uses a **loss mask**: no loss on the prompt (context+question), and no loss
//!    on injected `>>tool:result(...)` regions, so the model is never trained to
//!    *do* arithmetic, only to call the tool.
use crate::data::as_signed;
use crate::data::format::{
    example_models, line_of, prompt_of, Example, ExampleModel, ANSWER, TOOL_RESULT_OPEN,
};
use crate::data::tokenizer::{built_from, CharTokenizer, TokenizerModel};
use crate::random::choose_in;
use crate::text::{find_from, first_from, lemma_first_from, occurs_at, occurs_in, to_chars};
use rand::rngs::ThreadRng;
use vstd::prelude::*;

verus! {

// ---------------------------------------------------------------------------
// The loss mask
// ---------------------------------------------------------------------------

/// Where the answer starts: behind the first answer marker's line.
pub open spec fn answer_start(rendered: Seq<char>) -> Option<int> {
    match first_from(rendered, line_of(ANSWER@), 0) {
        Some(i) => Some(i + line_of(ANSWER@).len()),
        None => None,
    }
}

/// Where a tool result that opens at `open` starts, the newline before it
/// included.
pub open spec fn result_start(rendered: Seq<char>, open: int) -> int {
    if open > 0 && rendered[open - 1] == '\n' {
        open - 1
    } else {
        open
    }
}

/// Where a tool result that closes at `close` ends, the newline after it
/// included.
pub open spec fn result_end(rendered: Seq<char>, close: int) -> int {
    if close + 1 < rendered.len() && rendered[close + 1] == '\n' {
        close + 2
    } else {
        close + 1
    }
}

/// Whether position `p` belongs to the tool result that opens at `open` and goes
/// on to the first closing parenthesis.
pub open spec fn in_result(rendered: Seq<char>, open: int, p: int) -> bool {
    &&& occurs_at(rendered, TOOL_RESULT_OPEN@, open)
    &&& match first_from(rendered, seq![')'], open) {
        Some(close) => result_start(rendered, open) <= p < result_end(rendered, close),
        None => false,
    }
}

/// Whether the model is trained to predict the character at `p`: it belongs to
/// the answer, and to no tool result.
pub open spec fn is_trained(rendered: Seq<char>, p: int) -> bool {
    &&& answer_start(rendered) matches Some(start) && p >= start
    &&& !exists|open: int| in_result(rendered, open, p)
}

/// The loss mask of a rendered example.
pub open spec fn mask_of(rendered: Seq<char>) -> Seq<bool> {
    Seq::new(rendered.len(), |p: int| is_trained(rendered, p))
}

/// Whether `p` is in the answer and in none of the tool results that open before
/// `from`.
spec fn trained_so_far(rendered: Seq<char>, from: int, p: int) -> bool {
    &&& answer_start(rendered) matches Some(start) && p >= start
    &&& !exists|open: int| open < from && in_result(rendered, open, p)
}

/// A parenthesis found from `open` is the one found from every place up to it.
proof fn lemma_same_close(rendered: Seq<char>, open: int, close: int, later: int)
    requires
        0 <= open <= later <= close,
        first_from(rendered, seq![')'], open) == Some(close),
    ensures
        first_from(rendered, seq![')'], later) == Some(close),
{
    lemma_first_from(rendered, seq![')'], open);
    lemma_first_from(rendered, seq![')'], later);
    assert(occurs_at(rendered, seq![')'], close));
}

/// Clearing the result that opens next leaves what is trained up to its close.
proof fn lemma_cleared(rendered: Seq<char>, from: int, open: int, close: int, p: int)
    requires
        0 <= from,
        first_from(rendered, TOOL_RESULT_OPEN@, from) == Some(open),
        first_from(rendered, seq![')'], open) == Some(close),
    ensures
        trained_so_far(rendered, close + 1, p) == (trained_so_far(rendered, from, p) && !(
        result_start(rendered, open) <= p < result_end(rendered, close))),
{
    lemma_first_from(rendered, TOOL_RESULT_OPEN@, from);
    lemma_first_from(rendered, seq![')'], open);
    if exists|o: int| o < close + 1 && in_result(rendered, o, p) {
        let o = choose|o: int| o < close + 1 && in_result(rendered, o, p);
        if o >= from {
            if o < open {
                assert(!occurs_at(rendered, TOOL_RESULT_OPEN@, o));
            }
            lemma_same_close(rendered, open, close, o);
        }
    }
    if result_start(rendered, open) <= p < result_end(rendered, close) {
        assert(in_result(rendered, open, p));
    }
    if exists|o: int| o < from && in_result(rendered, o, p) {
        let o = choose|o: int| o < from && in_result(rendered, o, p);
        assert(o < close + 1 && in_result(rendered, o, p));
    }
}

/// Where no further result closes, all results have been dealt with.
proof fn lemma_no_more(rendered: Seq<char>, from: int, p: int)
    requires
        0 <= from,
        match first_from(rendered, TOOL_RESULT_OPEN@, from) {
            Some(open) => first_from(rendered, seq![')'], open) is None,
            None => true,
        },
    ensures
        trained_so_far(rendered, from, p) == is_trained(rendered, p),
{
    lemma_first_from(rendered, TOOL_RESULT_OPEN@, from);
    if exists|o: int| in_result(rendered, o, p) {
        let o = choose|o: int| in_result(rendered, o, p);
        if o >= from {
            let open = first_from(rendered, TOOL_RESULT_OPEN@, from)->0;
            lemma_first_from(rendered, seq![')'], open);
            lemma_first_from(rendered, seq![')'], o);
        }
        assert(o < from && in_result(rendered, o, p));
    }
}

/// Per-character loss mask over a rendered example: true where the model should
/// be trained to predict the character. Prompt = false; answer = true; injected
/// `>>tool:result(...)` regions (and their surrounding newlines) = false.
pub fn compute_mask(rendered: &str) -> (r: Vec<bool>)
    ensures
        r@ == mask_of(rendered@),
{
    let text: Vec<char> = to_chars(rendered);
    let total: usize = text.len();
    let mut marker: Vec<char> = to_chars(ANSWER);
    marker.push('\n');
    let mut close_mark: Vec<char> = Vec::new();
    close_mark.push(')');
    assert(close_mark@ =~= seq![')']);
    let open_mark: Vec<char> = to_chars(TOOL_RESULT_OPEN);
    proof {
        lemma_first_from(text@, marker@, 0);
        reveal_strlit(">>tool:result(");
    }

    // Everything after the answer marker is, by default, learned.
    let start: usize = match find_from(&text, &marker, 0) {
        Some(i) => i + marker.len(),
        None => total,
    };
    let mut mask: Vec<bool> = Vec::new();
    let mut i: usize = 0;
    while i < total
        invariant
            i <= total == text@.len(),
            match answer_start(text@) {
                Some(s) => start == s,
                None => start == total,
            },
            mask@.len() == i,
            forall|p: int| 0 <= p < i ==> #[trigger] mask@[p] == trained_so_far(text@, 0, p),
        decreases total - i,
    {
        mask.push(i >= start);
        assert forall|open: int| open < 0 implies !in_result(text@, open, i as int) by {}
        i += 1;
    }

    // Turn loss off over each injected tool-result span.
    let mut from: usize = 0;
    loop
        invariant
            total == text@.len(),
            from <= total,
            close_mark@ == seq![')'],
            open_mark@ == TOOL_RESULT_OPEN@,
            open_mark@.len() > 0,
            mask@.len() == total,
            forall|p: int|
                0 <= p < total ==> #[trigger] mask@[p] == trained_so_far(text@, from as int, p),
        ensures
            mask@ == mask_of(text@),
        decreases total - from,
    {
        let found: Option<(usize, usize)> = match find_from(&text, &open_mark, from) {
            Some(open) => match find_from(&text, &close_mark, open) {
                Some(close) => Some((open, close)),
                None => None,
            },
            None => None,
        };
        match found {
            Some((open, close)) => {
                proof {
                    lemma_first_from(text@, open_mark@, from as int);
                    lemma_first_from(text@, seq![')'], open as int);
                }
                let s: usize = if open > 0 && text[open - 1] == '\n' {
                    open - 1
                } else {
                    open
                };
                let e: usize = if close + 1 < total && text[close + 1] == '\n' {
                    close + 2
                } else {
                    close + 1
                };
                let ghost before = mask@;
                let mut p: usize = s;
                while p < e
                    invariant
                        s <= p <= e <= total,
                        mask@.len() == total == before.len(),
                        forall|q: int| s <= q < p ==> #[trigger] mask@[q] == false,
                        forall|q: int|
                            0 <= q < total && !(s <= q < p) ==> #[trigger] mask@[q] == before[q],
                    decreases e - p,
                {
                    mask.set(p, false);
                    p += 1;
                }
                assert forall|q: int| 0 <= q < total implies #[trigger] mask@[q] == trained_so_far(
                    text@,
                    close + 1,
                    q,
                ) by {
                    lemma_cleared(text@, from as int, open as int, close as int, q);
                    assert(before[q] == trained_so_far(text@, from as int, q));
                }
                from = close + 1;
            },
            None => {
                assert forall|p: int| 0 <= p < total implies #[trigger] mask@[p] == mask_of(
                    text@,
                )[p] by {
                    lemma_no_more(text@, from as int, p);
                }
                assert(mask@ =~= mask_of(text@));
                break;
            },
        }
    }
    mask
}

// ---------------------------------------------------------------------------
// Tokenizing
// ---------------------------------------------------------------------------

/// A tokenized example with a per-token "compute loss here" mask.
#[derive(Debug)]
pub struct Tokenized {
    ids: Vec<i32>,
    mask: Vec<bool>,
}

/// The model of a [`Tokenized`].
pub struct TokenizedModel {
    pub ids: Seq<i32>,
    pub mask: Seq<bool>,
}

impl View for Tokenized {
    type V = TokenizedModel;

    closed spec fn view(&self) -> TokenizedModel {
        TokenizedModel { ids: self.ids@, mask: self.mask@ }
    }
}

/// The models of a sequence of tokenized examples.
pub open spec fn tokenized_models(v: Seq<Tokenized>) -> Seq<TokenizedModel> {
    v.map_values(|x: Tokenized| x@)
}

/// The characters of `text` that are in the vocabulary, by id, each with what
/// the mask says of it.
pub open spec fn aligned(text: Seq<char>, mask: Seq<bool>, tok: TokenizerModel) -> TokenizedModel
    decreases text.len(),
{
    if text.len() == 0 {
        TokenizedModel { ids: Seq::empty(), mask: Seq::empty() }
    } else {
        let before = aligned(text.drop_last(), mask, tok);
        match tok.id(text.last()) {
            Some(id) => TokenizedModel {
                ids: before.ids.push(id as i32),
                mask: before.mask.push(mask[text.len() - 1]),
            },
            None => before,
        }
    }
}

/// An example as the model is trained on it.
pub open spec fn tokenized(e: ExampleModel, tok: TokenizerModel) -> TokenizedModel {
    aligned(e.rendered(), mask_of(e.rendered()), tok)
}

/// All the examples as the model is trained on them, those of fewer than two
/// tokens left out.
pub open spec fn tokenized_all(examples: Seq<ExampleModel>, tok: TokenizerModel) -> Seq<
    TokenizedModel,
>
    decreases examples.len(),
{
    if examples.len() == 0 {
        Seq::empty()
    } else {
        let before = tokenized_all(examples.drop_last(), tok);
        let t = tokenized(examples.last(), tok);
        if t.ids.len() >= 2 {
            before.push(t)
        } else {
            before
        }
    }
}

/// The rendered examples one after another.
pub open spec fn rendered_all(examples: Seq<ExampleModel>) -> Seq<char>
    decreases examples.len(),
{
    if examples.len() == 0 {
        Seq::empty()
    } else {
        rendered_all(examples.drop_last()) + examples.last().rendered()
    }
}

impl Tokenized {
    #[verifier::type_invariant]
    spec fn valid(self) -> bool {
        self.ids@.len() == self.mask@.len()
    }

    /// The token ids.
    pub fn ids(&self) -> (r: &Vec<i32>)
        ensures
            r@ == self@.ids,
    {
        &self.ids
    }

    /// For each token, whether it is trained on.
    pub fn mask(&self) -> (r: &Vec<bool>)
        ensures
            r@ == self@.mask,
            r@.len() == self@.ids.len(),
    {
        proof {
            use_type_invariant(self);
        }
        &self.mask
    }
}

/// A tokenizer for everything the examples hold.
pub fn build_tokenizer(examples: &Vec<Example>) -> (r: CharTokenizer)
    ensures
        built_from(r@, rendered_all(example_models(examples@))),
{
    let mut all: String = String::new();
    let mut i: usize = 0;
    while i < examples.len()
        invariant
            i <= examples.len(),
            all@ == rendered_all(example_models(examples@).take(i as int)),
        decreases examples.len() - i,
    {
        assert(example_models(examples@).take(i + 1).drop_last() =~= example_models(
            examples@,
        ).take(i as int));
        all.append(examples[i].render().as_str());
        i += 1;
    }
    assert(example_models(examples@).take(i as int) =~= example_models(examples@));
    CharTokenizer::build(all.as_str())
}

/// Renders and encodes an example, keeping the loss mask aligned with the tokens.
pub fn tokenize(ex: &Example, tok: &CharTokenizer) -> (r: Tokenized)
    ensures
        r@ == tokenized(ex@, tok@),
{
    let rendered: String = ex.render();
    let char_mask: Vec<bool> = compute_mask(rendered.as_str());
    let text: Vec<char> = to_chars(rendered.as_str());
    let mut ids: Vec<i32> = Vec::new();
    let mut mask: Vec<bool> = Vec::new();
    let mut i: usize = 0;
    while i < text.len()
        invariant
            i <= text.len(),
            char_mask@.len() == text@.len(),
            ids@.len() == mask@.len(),
            ids@ == aligned(text@.take(i as int), char_mask@, tok@).ids,
            mask@ == aligned(text@.take(i as int), char_mask@, tok@).mask,
        decreases text.len() - i,
    {
        assert(text@.take(i + 1).drop_last() =~= text@.take(i as int));
        if let Some(id) = tok.id(text[i]) {
            ids.push(id as i32);
            mask.push(char_mask[i]);
        }
        i += 1;
    }
    assert(text@.take(i as int) =~= text@);
    Tokenized { ids, mask }
}

/// Tokenizes the examples, and keeps those of at least two tokens.
pub fn tokenize_all(examples: &Vec<Example>, tok: &CharTokenizer) -> (r: Vec<Tokenized>)
    ensures
        tokenized_models(r@) == tokenized_all(example_models(examples@), tok@),
{
    let ghost models = example_models(examples@);
    let mut out: Vec<Tokenized> = Vec::new();
    let mut i: usize = 0;
    assert(tokenized_models(out@) =~= Seq::empty());
    while i < examples.len()
        invariant
            i <= examples.len(),
            models == example_models(examples@),
            tokenized_models(out@) == tokenized_all(models.take(i as int), tok@),
        decreases examples.len() - i,
    {
        assert(models.take(i + 1).drop_last() =~= models.take(i as int));
        let t: Tokenized = tokenize(&examples[i], tok);
        if t.ids.len() >= 2 {
            let ghost kept = out@;
            out.push(t);
            assert(tokenized_models(out@) =~= tokenized_models(kept).push(t@));
        }
        i += 1;
    }
    assert(models.take(i as int) =~= models);
    out
}

/// Keeps only examples that fit the context window intact: otherwise the answer
/// (at the end) would be truncated away and the example is useless.
pub fn retain_fitting(examples: Vec<Tokenized>, block: usize) -> (r: Vec<Tokenized>)
    ensures
        tokenized_models(r@) == tokenized_models(examples@).filter(
            |t: TokenizedModel| t.ids.len() <= block,
        ),
{
    let ghost all = tokenized_models(examples@);
    let ghost whole = examples@;
    let ghost fits = |t: TokenizedModel| t.ids.len() <= block;
    let mut kept: Vec<Tokenized> = Vec::new();
    assert(tokenized_models(kept@) =~= all.take(0).filter(fits)) by {
        reveal(Seq::filter);
    }
    for t in it: examples.into_iter()
        invariant
            it.seq() == whole,
            all == tokenized_models(whole),
            fits == (|t: TokenizedModel| t.ids.len() <= block),
            tokenized_models(kept@) == all.take(it.index() as int).filter(fits),
    {
        reveal(Seq::filter);
        assert(all.take(it.index() + 1).drop_last() =~= all.take(it.index() as int));
        assert(all.take(it.index() + 1).last() == t@);
        if t.ids.len() <= block {
            let ghost held = kept@;
            kept.push(t);
            assert(tokenized_models(kept@) =~= tokenized_models(held).push(t@));
        }
    }
    assert(all.take(all.len() as int) =~= all);
    kept
}

// ---------------------------------------------------------------------------
// Batches
// ---------------------------------------------------------------------------

/// How much of an example there is room for.
pub open spec fn fitted(t: TokenizedModel, block: int) -> int {
    if t.ids.len() <= block {
        t.ids.len() as int
    } else {
        block
    }
}

/// The longest of the chosen examples, as far as there is room, and at least 2.
pub open spec fn longest(chosen: Seq<TokenizedModel>, block: int) -> int
    decreases chosen.len(),
{
    if chosen.len() == 0 {
        2
    } else {
        let before = longest(chosen.drop_last(), block);
        let len = fitted(chosen.last(), block);
        if len > before {
            len
        } else {
            before
        }
    }
}

/// Inputs, next-token targets and loss mask of a batch, row by row.
#[derive(Debug)]
pub struct Batch {
    pub rows: usize,
    /// The length of a row.
    pub width: usize,
    pub inputs: Vec<i32>,
    pub targets: Vec<i32>,
    pub mask: Vec<bool>,
}

/// The model of a [`Batch`].
pub struct BatchModel {
    pub rows: int,
    pub width: int,
    pub inputs: Seq<i32>,
    pub targets: Seq<i32>,
    pub mask: Seq<bool>,
}

impl View for Batch {
    type V = BatchModel;

    open spec fn view(&self) -> BatchModel {
        BatchModel {
            rows: self.rows as int,
            width: self.width as int,
            inputs: self.inputs@,
            targets: self.targets@,
            mask: self.mask@,
        }
    }
}

/// The rows of the chosen examples: inputs and targets are next-token shifted;
/// behind the end of an example, padding that is not trained on.
pub open spec fn rows_of(chosen: Seq<TokenizedModel>, block: int, width: int) -> BatchModel
    decreases chosen.len(),
{
    if chosen.len() == 0 {
        BatchModel {
            rows: 0,
            width,
            inputs: Seq::empty(),
            targets: Seq::empty(),
            mask: Seq::empty(),
        }
    } else {
        let before = rows_of(chosen.drop_last(), block, width);
        let t = chosen.last();
        let n = fitted(t, block) - 1;
        BatchModel {
            rows: before.rows + 1,
            width,
            inputs: before.inputs + Seq::new(
                width as nat,
                |j: int|
                    if j < n {
                        t.ids[j]
                    } else {
                        0i32
                    },
            ),
            targets: before.targets + Seq::new(
                width as nat,
                |j: int|
                    if j < n {
                        t.ids[j + 1]
                    } else {
                        0i32
                    },
            ),
            mask: before.mask + Seq::new(width as nat, |j: int| j < n && t.mask[j + 1]),
        }
    }
}

/// The batch of the chosen examples, padded to the longest of them.
pub open spec fn batch_of(chosen: Seq<TokenizedModel>, block: int) -> BatchModel {
    rows_of(chosen, block, longest(chosen, block) - 1)
}

/// The examples at the given places.
pub open spec fn picked(data: Seq<TokenizedModel>, places: Seq<usize>) -> Seq<TokenizedModel> {
    places.map_values(|i: usize| data[i as int])
}

/// Makes a batch of the examples at `places`, padding to the longest of them
/// (capped at `block`). Inputs/targets are next-token shifted; pad positions are
/// masked out.
pub fn fill_batch(data: &Vec<Tokenized>, places: &Vec<usize>, block: usize) -> (r: Batch)
    requires
        forall|i: int| 0 <= i < places@.len() ==> #[trigger] places@[i] < data@.len(),
    ensures
        r@ == batch_of(picked(tokenized_models(data@), places@), block as int),
{
    let ghost chosen = picked(tokenized_models(data@), places@);
    let ghost room = block as int;
    let mut max_len: usize = 2;
    let mut i: usize = 0;
    while i < places.len()
        invariant
            i <= places.len(),
            chosen == picked(tokenized_models(data@), places@),
            room == block,
            forall|i: int| 0 <= i < places@.len() ==> #[trigger] places@[i] < data@.len(),
            max_len == longest(chosen.take(i as int), room),
            max_len >= 2,
        decreases places.len() - i,
    {
        assert(chosen.take(i + 1).drop_last() =~= chosen.take(i as int));
        let n: usize = data[places[i]].ids.len();
        let len: usize = if n <= block {
            n
        } else {
            block
        };
        if len > max_len {
            max_len = len;
        }
        i += 1;
    }
    assert(chosen.take(i as int) =~= chosen);
    let width: usize = max_len - 1;
    let mut inputs: Vec<i32> = Vec::new();
    let mut targets: Vec<i32> = Vec::new();
    let mut mask: Vec<bool> = Vec::new();
    let mut i: usize = 0;
    while i < places.len()
        invariant
            i <= places.len(),
            chosen == picked(tokenized_models(data@), places@),
            room == block,
            forall|i: int| 0 <= i < places@.len() ==> #[trigger] places@[i] < data@.len(),
            ({
                let done = rows_of(chosen.take(i as int), room, width as int);
                &&& done.rows == i
                &&& inputs@ == done.inputs
                &&& targets@ == done.targets
                &&& mask@ == done.mask
            }),
        decreases places.len() - i,
    {
        assert(chosen.take(i + 1).drop_last() =~= chosen.take(i as int));
        let t: &Tokenized = &data[places[i]];
        proof {
            use_type_invariant(t);
        }
        assert(chosen.take(i + 1).last() == t@);
        let ghost done = rows_of(chosen.take(i as int), room, width as int);
        let ghost next = rows_of(chosen.take(i + 1), room, width as int);
        let len: usize = if t.ids.len() <= block {
            t.ids.len()
        } else {
            block
        };
        let mut j: usize = 0;
        while j < width
            invariant
                j <= width,
                t.ids@.len() == t.mask@.len(),
                len == fitted(t@, room),
                len <= t.ids@.len(),
                next.inputs.len() == done.inputs.len() + width,
                next.targets.len() == done.targets.len() + width,
                next.mask.len() == done.mask.len() + width,
                forall|k: int|
                    0 <= k < width ==> #[trigger] next.inputs[done.inputs.len() + k] == (if k < len
                        - 1 {
                        t.ids@[k]
                    } else {
                        0i32
                    }),
                forall|k: int|
                    0 <= k < width ==> #[trigger] next.targets[done.targets.len() + k] == (if k
                        < len - 1 {
                        t.ids@[k + 1]
                    } else {
                        0i32
                    }),
                forall|k: int|
                    0 <= k < width ==> #[trigger] next.mask[done.mask.len() + k] == (k < len - 1
                        && t.mask@[k + 1]),
                inputs@ == next.inputs.take(done.inputs.len() + j),
                targets@ == next.targets.take(done.targets.len() + j),
                mask@ == next.mask.take(done.mask.len() + j),
            decreases width - j,
        {
            assert(next.inputs[done.inputs.len() + j] == next.inputs.take(
                done.inputs.len() + j + 1,
            )[done.inputs.len() + j]);
            if len > 0 && j < len - 1 {
                inputs.push(t.ids[j]);
                targets.push(t.ids[j + 1]);
                mask.push(t.mask[j + 1]);
            } else {
                inputs.push(0);
                targets.push(0);
                mask.push(false);
            }
            assert(inputs@ =~= next.inputs.take(done.inputs.len() + j + 1));
            assert(targets@ =~= next.targets.take(done.targets.len() + j + 1));
            assert(mask@ =~= next.mask.take(done.mask.len() + j + 1));
            j += 1;
        }
        assert(inputs@ =~= next.inputs);
        assert(targets@ =~= next.targets);
        assert(mask@ =~= next.mask);
        i += 1;
    }
    assert(chosen.take(i as int) =~= chosen);
    Batch { rows: places.len(), width, inputs, targets, mask }
}

/// Samples a batch: `batch` examples, each chosen at random.
pub fn make_batch(data: &Vec<Tokenized>, batch: usize, block: usize, rng: &mut ThreadRng) -> (r:
    Batch)
    requires
        batch == 0 || data@.len() > 0,
    ensures
        exists|places: Seq<usize>|
            {
                &&& places.len() == batch
                &&& forall|i: int| 0 <= i < places.len() ==> #[trigger] places[i] < data@.len()
                &&& r@ == #[trigger] batch_of(picked(tokenized_models(data@), places), block as int)
            },
{
    let mut places: Vec<usize> = Vec::new();
    while places.len() < batch
        invariant
            places.len() <= batch,
            batch == 0 || data@.len() > 0,
            forall|i: int| 0 <= i < places@.len() ==> #[trigger] places@[i] < data@.len(),
        decreases batch - places.len(),
    {
        places.push(choose_in(rng, 0, data.len()));
    }
    fill_batch(data, &places, block)
}

// ---------------------------------------------------------------------------
// Laws
// ---------------------------------------------------------------------------

/// The prompt is never trained on: where the answer marker's line does not stand
/// in the prompt before its end, the answer starts right behind the prompt, and
/// no character of the prompt is trained.
pub proof fn law_prompt_is_not_trained(e: ExampleModel)
    requires
        forall|i: int|
            0 <= i < prompt_of(e.context, e.question).len() - line_of(ANSWER@).len()
                ==> !#[trigger] occurs_at(
                prompt_of(e.context, e.question),
                line_of(ANSWER@),
                i,
            ),
    ensures
        answer_start(e.rendered()) == Some(prompt_of(e.context, e.question).len() as int),
        forall|p: int|
            0 <= p < prompt_of(e.context, e.question).len() ==> !#[trigger] is_trained(
                e.rendered(),
                p,
            ),
{
    let prompt = prompt_of(e.context, e.question);
    let marker = line_of(ANSWER@);
    let r = e.rendered();
    let at = prompt.len() - marker.len();
    assert(r.subrange(at, at + marker.len()) =~= marker);
    assert(occurs_at(r, marker, at));
    lemma_first_from(r, marker, 0);
    let i = first_from(r, marker, 0)->0;
    if i < at {
        assert(prompt.subrange(i, i + marker.len()) =~= r.subrange(i, i + marker.len()));
        assert(occurs_at(prompt, marker, i));
    }
}

/// Nothing is trained on up to the end of the first answer marker's line, and
/// nothing at all where there is none.
pub proof fn law_training_starts_with_the_answer(rendered: Seq<char>, p: int)
    ensures
        is_trained(rendered, p) ==> exists|i: int| #[trigger]
            occurs_at(rendered, line_of(ANSWER@), i) && i + line_of(ANSWER@).len() <= p,
{
    lemma_first_from(rendered, line_of(ANSWER@), 0);
    if is_trained(rendered, p) {
        let i = first_from(rendered, line_of(ANSWER@), 0)->0;
        assert(occurs_at(rendered, line_of(ANSWER@), i));
    }
}

/// The whole answer is trained on where no tool result is injected into it.
pub proof fn law_plain_answers_are_trained(rendered: Seq<char>, start: int, p: int)
    requires
        answer_start(rendered) == Some(start),
        !occurs_in(rendered, TOOL_RESULT_OPEN@),
        start <= p,
    ensures
        is_trained(rendered, p),
{
}

/// A tool result is never trained on, nor are the newlines around it: the model
/// is trained to call the tool, not to know what it answers.
pub proof fn law_tool_results_are_not_trained(
    before: Seq<char>,
    result: Seq<char>,
    after: Seq<char>,
    p: int,
)
    requires
        !result.contains(')'),
    ensures
        ({
            let rendered = before + TOOL_RESULT_OPEN@ + result + seq![')'] + after;
            let open = before.len() as int;
            let close = open + TOOL_RESULT_OPEN@.len() + result.len();
            result_start(rendered, open) <= p < result_end(rendered, close) ==> !is_trained(
                rendered,
                p,
            )
        }),
{
    let mark = TOOL_RESULT_OPEN@;
    let rendered = before + mark + result + seq![')'] + after;
    let open = before.len() as int;
    let close = open + mark.len() + result.len();
    assert(rendered.subrange(open, open + mark.len()) =~= mark);
    assert(rendered.subrange(close, close + 1) =~= seq![')']);
    assert(occurs_at(rendered, seq![')'], close));
    lemma_first_from(rendered, seq![')'], open);
    let c = first_from(rendered, seq![')'], open)->0;
    if c < close {
        assert(rendered.subrange(c, c + 1)[0] == rendered[c]);
        if c < open + mark.len() {
            reveal_strlit(">>tool:result(");
            assert(rendered[c] == mark[c - open]);
        } else {
            assert(rendered[c] == result[c - open - mark.len()]);
        }
    }
    if result_start(rendered, open) <= p < result_end(rendered, close) {
        assert(in_result(rendered, open, p));
    }
}

/// Every token has its mask, and the tokens are those that the text encodes to.
pub proof fn law_mask_is_aligned(text: Seq<char>, mask: Seq<bool>, tok: TokenizerModel)
    ensures
        aligned(text, mask, tok).ids == as_signed(tok.encode(text)),
        aligned(text, mask, tok).mask.len() == aligned(text, mask, tok).ids.len(),
    decreases text.len(),
{
    if text.len() > 0 {
        law_mask_is_aligned(text.drop_last(), mask, tok);
    }
    assert(aligned(text, mask, tok).ids =~= as_signed(tok.encode(text)));
}

/// Every chosen example has its place in the batch, as far as there is room.
pub proof fn law_rows_are_wide_enough(chosen: Seq<TokenizedModel>, block: int, i: int)
    requires
        0 <= i < chosen.len(),
    ensures
        fitted(chosen[i], block) <= longest(chosen, block),
    decreases chosen.len(),
{
    if i < chosen.len() - 1 {
        law_rows_are_wide_enough(chosen.drop_last(), block, i);
        assert(chosen.drop_last()[i] == chosen[i]);
    }
}

/// What stands in column `j` of row `i` of a batch: a token of the example, the
/// one that follows it, and whether that one is trained on; or padding.
pub proof fn law_targets_follow_inputs(
    chosen: Seq<TokenizedModel>,
    block: int,
    width: int,
    i: int,
    j: int,
)
    requires
        0 <= i < chosen.len(),
        0 <= j < width,
    ensures
        ({
            let b = rows_of(chosen, block, width);
            let t = chosen[i];
            let at = i * width + j;
            &&& b.rows == chosen.len()
            &&& b.inputs.len() == b.targets.len() == b.mask.len() == b.rows * width
            &&& 0 <= at < b.inputs.len()
            &&& if j + 1 < fitted(t, block) {
                b.inputs[at] == t.ids[j] && b.targets[at] == t.ids[j + 1] && b.mask[at] == t.mask[j
                    + 1]
            } else {
                b.inputs[at] == 0 && b.targets[at] == 0 && !b.mask[at]
            }
        }),
    decreases chosen.len(),
{
    let front = chosen.drop_last();
    lemma_batch_size(front, block, width);
    lemma_batch_size(chosen, block, width);
    let at = i * width + j;
    let n = front.len() as int;
    if i < n {
        assert(at < n * width) by (nonlinear_arith)
            requires
                i + 1 <= n,
                0 <= j < width,
                at == i * width + j,
        ;
        law_targets_follow_inputs(front, block, width, i, j);
        assert(front[i] == chosen[i]);
    } else {
        assert(i == n);
    }
    assert((n + 1) * width == n * width + width) by (nonlinear_arith);
}

proof fn lemma_batch_size(chosen: Seq<TokenizedModel>, block: int, width: int)
    requires
        0 <= width,
    ensures
        ({
            let b = rows_of(chosen, block, width);
            &&& b.rows == chosen.len()
            &&& b.inputs.len() == b.targets.len() == b.mask.len() == b.rows * width
        }),
    decreases chosen.len(),
{
    if chosen.len() > 0 {
        let front = chosen.drop_last();
        lemma_batch_size(front, block, width);
        let n = front.len() as int;
        assert((n + 1) * width == n * width + width) by (nonlinear_arith);
    }
}

/// Whether `p` belongs to a tool result that opens at `open` and closes at
/// `close`: it lies between the two, or is the newline next to one of them.
pub open spec fn touches_result(rendered: Seq<char>, open: int, close: int, p: int) -> bool {
    &&& occurs_at(rendered, ">>tool:result("@, open)
    &&& open <= close < rendered.len()
    &&& rendered[close] == ')'
    &&& forall|k: int| open <= k < close ==> #[trigger] rendered[k] != ')'
    &&& {
        ||| open <= p <= close
        ||| p == open - 1 && 0 <= p && rendered[p] == '\n'
        ||| p == close + 1 && p < rendered.len() && rendered[p] == '\n'
    }
}

proof fn lemma_parens(rendered: Seq<char>, k: int)
    ensures
        occurs_at(rendered, seq![')'], k) <==> 0 <= k < rendered.len() && rendered[k] == ')',
{
    if 0 <= k < rendered.len() {
        assert(rendered.subrange(k, k + 1)[0] == rendered[k]);
        if rendered[k] == ')' {
            assert(rendered.subrange(k, k + 1) =~= seq![')']);
        }
    }
}

/// A character is trained on exactly where an answer marker's line ends before
/// it, and it belongs to no tool result.
pub proof fn law_mask_covers_the_answer(rendered: Seq<char>, p: int)
    requires
        0 <= p < rendered.len(),
    ensures
        mask_of(rendered).len() == rendered.len(),
        mask_of(rendered)[p] <==> (exists|i: int| #[trigger]
            occurs_at(rendered, "<|answer|>\n"@, i) && i + 11 <= p) && !(exists|
            open: int,
            close: int,
        |
            touches_result(rendered, open, close, p)),
{
    reveal_strlit("<|answer|>\n");
    reveal_strlit("<|answer|>");
    let marker = line_of(ANSWER@);
    assert(marker =~= "<|answer|>\n"@);
    lemma_first_from(rendered, marker, 0);
    let begun = exists|i: int| #[trigger] occurs_at(rendered, "<|answer|>\n"@, i) && i + 11 <= p;
    if begun {
        let i = choose|i: int| #[trigger] occurs_at(rendered, "<|answer|>\n"@, i) && i + 11 <= p;
        assert(occurs_at(rendered, marker, i));
    }
    if answer_start(rendered) matches Some(start) && start <= p {
        let i = first_from(rendered, marker, 0)->0;
        assert(occurs_at(rendered, "<|answer|>\n"@, i));
    }
    if exists|open: int| in_result(rendered, open, p) {
        let open = choose|open: int| in_result(rendered, open, p);
        lemma_first_from(rendered, seq![')'], open);
        let close = first_from(rendered, seq![')'], open)->0;
        lemma_parens(rendered, close);
        assert forall|k: int| open <= k < close implies #[trigger] rendered[k] != ')' by {
            lemma_parens(rendered, k);
        }
        assert(touches_result(rendered, open, close, p));
    }
    if exists|open: int, close: int| touches_result(rendered, open, close, p) {
        let (open, close) = choose|open: int, close: int| touches_result(rendered, open, close, p);
        lemma_first_from(rendered, seq![')'], open);
        lemma_parens(rendered, close);
        assert(first_from(rendered, seq![')'], open) == Some(close)) by {
            let c = first_from(rendered, seq![')'], open)->0;
            lemma_parens(rendered, c);
        }
        assert(in_result(rendered, open, p));
    }
}

/// Every token is masked as the character that it stands for.
pub proof fn law_tokens_are_masked_as_their_characters(
    text: Seq<char>,
    mask: Seq<bool>,
    tok: TokenizerModel,
    p: int,
)
    requires
        0 <= p < text.len(),
        tok.id(text[p]) is Some,
    ensures
        tok.encode(text.take(p)).len() < aligned(text, mask, tok).mask.len(),
        aligned(text, mask, tok).mask[tok.encode(text.take(p)).len() as int] == mask[p],
    decreases text.len(),
{
    let front = text.drop_last();
    law_mask_is_aligned(front, mask, tok);
    law_mask_is_aligned(text, mask, tok);
    if p < text.len() - 1 {
        law_tokens_are_masked_as_their_characters(front, mask, tok, p);
        assert(front.take(p) =~= text.take(p));
    } else {
        assert(text.take(p) =~= front);
    }
}

/// An example becomes the tokens of its rendered text, each trained on where its
/// character is.
pub proof fn law_examples_become_tokens(e: ExampleModel, tok: TokenizerModel, p: int)
    requires
        0 <= p < e.rendered().len(),
        tok.id(e.rendered()[p]) is Some,
    ensures
        tokenized(e, tok).ids == as_signed(tok.encode(e.rendered())),
        tokenized(e, tok).mask.len() == tokenized(e, tok).ids.len(),
        tokenized(e, tok).mask[tok.encode(e.rendered().take(p)).len() as int] == is_trained(
            e.rendered(),
            p,
        ),
{
    law_mask_is_aligned(e.rendered(), mask_of(e.rendered()), tok);
    law_tokens_are_masked_as_their_characters(e.rendered(), mask_of(e.rendered()), tok, p);
}

/// The examples are tokenized one by one, and one of fewer than two tokens gives
/// nothing.
pub proof fn law_examples_are_tokenized_one_by_one(
    a: Seq<ExampleModel>,
    b: Seq<ExampleModel>,
    e: ExampleModel,
    tok: TokenizerModel,
)
    ensures
        tokenized_all(a + b, tok) == tokenized_all(a, tok) + tokenized_all(b, tok),
        tok.encode(e.rendered()).len() >= 2 ==> tokenized_all(seq![e], tok) == seq![
            tokenized(e, tok),
        ],
        tok.encode(e.rendered()).len() < 2 ==> tokenized_all(seq![e], tok).len() == 0,
    decreases b.len(),
{
    law_mask_is_aligned(e.rendered(), mask_of(e.rendered()), tok);
    reveal_with_fuel(tokenized_all, 2);
    assert(seq![e].drop_last() =~= Seq::empty());
    if b.len() == 0 {
        assert(a + b =~= a);
        assert(tokenized_all(a, tok) + tokenized_all(b, tok) =~= tokenized_all(a, tok));
    } else {
        law_examples_are_tokenized_one_by_one(a, b.drop_last(), e, tok);
        assert((a + b).drop_last() =~= a + b.drop_last());
        assert(tokenized_all(a + b, tok) =~= tokenized_all(a, tok) + tokenized_all(b, tok));
    }
}

/// The rendered examples stand one after another.
pub proof fn law_examples_are_rendered_one_by_one(
    a: Seq<ExampleModel>,
    b: Seq<ExampleModel>,
    e: ExampleModel,
)
    ensures
        rendered_all(a + b) == rendered_all(a) + rendered_all(b),
        rendered_all(seq![e]) == e.rendered(),
    decreases b.len(),
{
    reveal_with_fuel(rendered_all, 2);
    assert(seq![e].drop_last() =~= Seq::empty());
    assert(rendered_all(seq![e]) =~= e.rendered());
    if b.len() == 0 {
        assert(a + b =~= a);
        assert(rendered_all(a) + rendered_all(b) =~= rendered_all(a));
    } else {
        law_examples_are_rendered_one_by_one(a, b.drop_last(), e);
        assert((a + b).drop_last() =~= a + b.drop_last());
        assert(rendered_all(a + b) =~= rendered_all(a) + rendered_all(b));
    }
}

proof fn lemma_longest(chosen: Seq<TokenizedModel>, block: int)
    ensures
        longest(chosen, block) >= 2,
        longest(chosen, block) == 2 || exists|i: int|
            0 <= i < chosen.len() && longest(chosen, block) == fitted(#[trigger] chosen[i], block),
    decreases chosen.len(),
{
    if chosen.len() > 0 {
        let front = chosen.drop_last();
        lemma_longest(front, block);
        if fitted(chosen.last(), block) > longest(front, block) {
            assert(longest(chosen, block) == fitted(chosen[chosen.len() - 1], block));
        } else if longest(front, block) != 2 {
            let i = choose|i: int|
                0 <= i < front.len() && longest(front, block) == fitted(#[trigger] front[i], block);
            assert(chosen[i] == front[i]);
            assert(longest(chosen, block) == fitted(chosen[i], block));
        }
    }
}

/// A row has room for every example of the batch, whichever place it was chosen
/// at, up to the context window; and no more room than one of them needs.
pub proof fn law_batches_are_as_wide_as_the_longest(
    data: Seq<TokenizedModel>,
    places: Seq<usize>,
    block: int,
)
    ensures
        ({
            let width = batch_of(picked(data, places), block).width;
            &&& width >= 1
            &&& forall|i: int|
                0 <= i < places.len() ==> data[#[trigger] places[i] as int].ids.len() - 1 <= width
                    || block - 1 <= width
            &&& width == 1 || exists|i: int|
                0 <= i < places.len() && {
                    ||| width == data[#[trigger] places[i] as int].ids.len() - 1 && width < block
                    ||| width == block - 1 && width < data[places[i] as int].ids.len()
                }
        }),
{
    let chosen = picked(data, places);
    let width = batch_of(chosen, block).width;
    lemma_longest(chosen, block);
    assert forall|i: int| 0 <= i < places.len() implies data[#[trigger] places[i] as int].ids.len()
        - 1 <= width || block - 1 <= width by {
        law_rows_are_wide_enough(chosen, block, i);
    }
    if width != 1 {
        let i = choose|i: int|
            0 <= i < chosen.len() && longest(chosen, block) == fitted(#[trigger] chosen[i], block);
        assert(chosen[i] == data[places[i] as int]);
    }
}

/// What stands in a batch: in column `j` of row `i`, where there is a token behind
/// it in the example and in the context window, that token's predecessor, the
/// token itself and whether it is trained on; and nothing that is trained on
/// elsewhere.
pub proof fn law_batches_hold_the_examples(
    data: Seq<TokenizedModel>,
    places: Seq<usize>,
    block: int,
    i: int,
    j: int,
)
    requires
        0 <= i < places.len(),
        0 <= j,
    ensures
        ({
            let b = batch_of(picked(data, places), block);
            let t = data[places[i] as int];
            let at = i * b.width + j;
            &&& b.rows == places.len()
            &&& b.inputs.len() == b.targets.len() == b.mask.len() == places.len() * b.width
            &&& j + 1 < t.ids.len() && j + 1 < block ==> {
                &&& j < b.width
                &&& 0 <= at < b.inputs.len()
                &&& b.inputs[at] == t.ids[j]
                &&& b.targets[at] == t.ids[j + 1]
                &&& b.mask[at] == t.mask[j + 1]
            }
            &&& j < b.width && !(j + 1 < t.ids.len() && j + 1 < block) ==> {
                &&& 0 <= at < b.inputs.len()
                &&& b.inputs[at] == 0
                &&& b.targets[at] == 0
                &&& !b.mask[at]
            }
        }),
{
    let chosen = picked(data, places);
    let width = longest(chosen, block) - 1;
    law_rows_are_wide_enough(chosen, block, i);
    lemma_longest(chosen, block);
    lemma_batch_size(chosen, block, width);
    if j < width {
        law_targets_follow_inputs(chosen, block, width, i, j);
    }
}

} // verus!
