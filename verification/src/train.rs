//! Baseline training: how the corpus is divided, which windows of it make up a
//! batch, and at which steps progress is reported.
use crate::random::choose_in;
use rand::rngs::ThreadRng;
use vstd::prelude::*;

verus! {

/// How much of a corpus of `n` tokens is trained on: nine tenths, rounded down.
pub open spec fn train_len(n: int) -> int {
    n * 9 / 10
}

/// Divides the corpus into what is trained on and what is held out.
pub fn split_tokens(tokens: &Vec<i32>) -> (r: (Vec<i32>, Vec<i32>))
    ensures
        r.0@ == tokens@.take(train_len(tokens@.len() as int)),
        r.1@ == tokens@.skip(train_len(tokens@.len() as int)),
{
    let n: usize = tokens.len();
    let split: usize = n / 10 * 9 + n % 10 * 9 / 10;
    assert(split == train_len(n as int));
    (slice(tokens, 0, split), slice(tokens, split, n))
}

fn slice(v: &Vec<i32>, from: usize, to: usize) -> (r: Vec<i32>)
    requires
        from <= to <= v@.len(),
    ensures
        r@ == v@.subrange(from as int, to as int),
{
    let mut out: Vec<i32> = Vec::new();
    let mut i: usize = from;
    while i < to
        invariant
            from <= i <= to <= v@.len(),
            out@ == v@.subrange(from as int, i as int),
        decreases to - i,
    {
        out.push(v[i]);
        i += 1;
    }
    out
}

/// Whether progress is reported at `step`: at the first, and at every
/// `eval_every`-th.
pub fn is_report_step(step: usize, eval_every: usize) -> (r: bool)
    requires
        step == 1 || eval_every > 0,
    ensures
        r == (step == 1 || step as int % eval_every as int == 0),
{
    step == 1 || step % eval_every == 0
}

// ---------------------------------------------------------------------------
// Batches
// ---------------------------------------------------------------------------

/// Inputs and next-token targets of a batch, row by row.
#[derive(Debug)]
pub struct Windows {
    pub rows: usize,
    /// The length of a row.
    pub width: usize,
    pub inputs: Vec<i32>,
    pub targets: Vec<i32>,
}

/// The windows of `width` tokens that begin `shift` behind each start, one after
/// another.
pub open spec fn windows_of(data: Seq<i32>, starts: Seq<usize>, width: int, shift: int) -> Seq<i32>
    decreases starts.len(),
{
    if starts.len() == 0 {
        Seq::empty()
    } else {
        let s = starts.last() + shift;
        windows_of(data, starts.drop_last(), width, shift) + data.subrange(s, s + width)
    }
}

/// Whether a window and the token after it fit at every start.
pub open spec fn all_fit(data: Seq<i32>, starts: Seq<usize>, width: int) -> bool {
    forall|i: int| 0 <= i < starts.len() ==> #[trigger] starts[i] + width + 1 <= data.len()
}

fn append(out: &mut Vec<i32>, data: &Vec<i32>, from: usize, to: usize)
    requires
        from <= to <= data@.len(),
    ensures
        final(out)@ == old(out)@ + data@.subrange(from as int, to as int),
{
    let mut i: usize = from;
    while i < to
        invariant
            from <= i <= to <= data@.len(),
            out@ == old(out)@ + data@.subrange(from as int, i as int),
        decreases to - i,
    {
        out.push(data[i]);
        assert(out@ =~= old(out)@ + data@.subrange(from as int, i + 1));
        i += 1;
    }
}

/// The windows of `block` tokens at the given starts, and the same windows one
/// token later.
pub fn take_windows(data: &Vec<i32>, starts: &Vec<usize>, block: usize) -> (r: Windows)
    requires
        all_fit(data@, starts@, block as int),
    ensures
        r.rows == starts@.len(),
        r.width == block,
        r.inputs@ == windows_of(data@, starts@, block as int, 0),
        r.targets@ == windows_of(data@, starts@, block as int, 1),
{
    let mut inputs: Vec<i32> = Vec::new();
    let mut targets: Vec<i32> = Vec::new();
    let mut i: usize = 0;
    let ghost width = block as int;
    while i < starts.len()
        invariant
            i <= starts.len(),
            width == block,
            all_fit(data@, starts@, width),
            inputs@ == windows_of(data@, starts@.take(i as int), width, 0),
            targets@ == windows_of(data@, starts@.take(i as int), width, 1),
        decreases starts.len() - i,
    {
        assert(starts@.take(i + 1).drop_last() =~= starts@.take(i as int));
        let s: usize = starts[i];
        assert(starts@[i as int] + width + 1 <= data.len());
        append(&mut inputs, data, s, s + block);
        append(&mut targets, data, s + 1, s + block + 1);
        i += 1;
    }
    assert(starts@.take(i as int) =~= starts@);
    Windows { rows: starts.len(), width: block, inputs, targets }
}

/// Samples a random batch of contiguous `block`-length token windows: inputs and
/// next-token targets, `batch` rows of `block`.
pub fn get_batch(data: &Vec<i32>, block: usize, batch: usize, rng: &mut ThreadRng) -> (r: Windows)
    requires
        block + 1 <= data@.len(),
        batch == 0 || block + 1 < data@.len(),
    ensures
        exists|starts: Seq<usize>|
            {
                &&& starts.len() == batch
                &&& forall|i: int|
                    0 <= i < starts.len() ==> #[trigger] starts[i] < data@.len() - block - 1
                &&& r.rows == batch
                &&& r.width == block
                &&& r.inputs@ == #[trigger] windows_of(data@, starts, block as int, 0)
                &&& r.targets@ == windows_of(data@, starts, block as int, 1)
            },
{
    let max_start: usize = data.len() - block - 1;
    let mut starts: Vec<usize> = Vec::new();
    while starts.len() < batch
        invariant
            starts.len() <= batch,
            batch == 0 || 0 < max_start,
            forall|i: int| 0 <= i < starts@.len() ==> #[trigger] starts@[i] < max_start,
        decreases batch - starts.len(),
    {
        starts.push(choose_in(rng, 0, max_start));
    }
    take_windows(data, &starts, block)
}

// ---------------------------------------------------------------------------
// Laws
// ---------------------------------------------------------------------------

/// Dividing the corpus loses nothing: the two parts one after the other are the
/// corpus.
pub proof fn law_split_keeps_tokens(tokens: Seq<i32>)
    ensures
        0 <= train_len(tokens.len() as int) <= tokens.len(),
        tokens.take(train_len(tokens.len() as int)) + tokens.skip(train_len(tokens.len() as int))
            == tokens,
{
    let n = train_len(tokens.len() as int);
    assert(tokens.take(n) + tokens.skip(n) =~= tokens);
}

proof fn lemma_windows_len(data: Seq<i32>, starts: Seq<usize>, width: int, shift: int)
    requires
        0 <= width,
        0 <= shift <= 1,
        all_fit(data, starts, width),
    ensures
        windows_of(data, starts, width, shift).len() == starts.len() * width,
    decreases starts.len(),
{
    if starts.len() > 0 {
        let front = starts.drop_last();
        assert forall|i: int| 0 <= i < front.len() implies #[trigger] front[i] + width + 1
            <= data.len() by {
            assert(starts[i] + width + 1 <= data.len());
        }
        assert(starts[starts.len() - 1] + width + 1 <= data.len());
        lemma_windows_len(data, front, width, shift);
        let n = front.len() as int;
        assert((n + 1) * width == n * width + width) by (nonlinear_arith);
    }
}

/// What stands in column `j` of row `i`: the token `j` places behind the row's
/// start; and the target is the token after the input.
pub proof fn law_windows_are_contiguous(
    data: Seq<i32>,
    starts: Seq<usize>,
    width: int,
    shift: int,
    i: int,
    j: int,
)
    requires
        0 <= i < starts.len(),
        0 <= j < width,
        0 <= shift <= 1,
        all_fit(data, starts, width),
    ensures
        windows_of(data, starts, width, shift).len() == starts.len() * width,
        0 <= i * width + j < starts.len() * width,
        windows_of(data, starts, width, shift)[i * width + j] == data[starts[i] + shift + j],
    decreases starts.len(),
{
    lemma_windows_len(data, starts, width, shift);
    let front = starts.drop_last();
    let n = front.len() as int;
    assert forall|k: int| 0 <= k < front.len() implies #[trigger] front[k] + width + 1
        <= data.len() by {
        assert(starts[k] + width + 1 <= data.len());
    }
    assert(starts[starts.len() - 1] + width + 1 <= data.len());
    lemma_windows_len(data, front, width, shift);
    assert((n + 1) * width == n * width + width) by (nonlinear_arith);
    if i < n {
        law_windows_are_contiguous(data, front, width, shift, i, j);
        assert(front[i] == starts[i]);
    } else {
        assert(i * width == n * width);
        assert(0 <= n * width) by (nonlinear_arith)
            requires
                0 <= n,
                0 <= width,
        ;
    }
}

/// Nine tenths of the corpus are trained on, rounded down.
pub proof fn law_nine_tenths_are_trained_on(n: int)
    requires
        0 <= n,
    ensures
        10 * train_len(n) <= 9 * n < 10 * (train_len(n) + 1),
{
}

} // verus!
