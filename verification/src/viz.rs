//! What the generation "brain-scan" shows: labels, the next-token distribution,
//! the end of the text so far, and which activation is drawn in which column.
use crate::data::tokenizer::{CharTokenizer, TokenizerModel};
use crate::decimal::{digits, digits_of};
use crate::score::{
    law_ranked_descends, law_top_is_the_best, rank_of, ranked, top, top_of, Scored,
};
use crate::text::{extend_chars, from_chars, pieces, pieces_of, strings, texts, to_chars, Cut};
use vstd::prelude::*;

verus! {

/// The label of layer `i`, counting from 1.
pub open spec fn layer_label(i: nat) -> Seq<char> {
    seq!['L'] + digits_of(i)
}

/// The labels of the rows: the embedding, each layer, and the final norm.
pub open spec fn labels_of(n_layer: nat) -> Seq<Seq<char>> {
    seq!["embed"@] + Seq::new(n_layer, |i: int| layer_label((i + 1) as nat)) + seq!["final"@]
}

/// The labels of the rows: the embedding, each layer, and the final norm.
pub fn layer_labels(n_layer: usize) -> (r: Vec<String>)
    ensures
        strings(r@) == labels_of(n_layer as nat),
{
    let mut v: Vec<String> = Vec::new();
    v.push(from_chars(&to_chars("embed")));
    let mut i: usize = 0;
    let ghost layers = Seq::new(n_layer as nat, |i: int| layer_label((i + 1) as nat));
    assert(strings(v@) =~= seq!["embed"@] + layers.take(0));
    while i < n_layer
        invariant
            i <= n_layer,
            layers == Seq::new(n_layer as nat, |i: int| layer_label((i + 1) as nat)),
            strings(v@) == seq!["embed"@] + layers.take(i as int),
        decreases n_layer - i,
    {
        let ghost before = v@;
        let mut label: Vec<char> = Vec::new();
        label.push('L');
        extend_chars(&mut label, &digits((i + 1) as u64));
        assert(label@ =~= layer_label((i + 1) as nat));
        let text: String = from_chars(&label);
        v.push(text);
        assert(strings(v@) =~= strings(before).push(text@));
        assert(layers.take(i + 1) =~= layers.take(i as int).push(text@));
        assert(strings(v@) =~= seq!["embed"@] + layers.take(i + 1));
        i += 1;
    }
    assert(layers.take(i as int) =~= layers);
    let ghost before = v@;
    let last: String = from_chars(&to_chars("final"));
    v.push(last);
    assert(strings(v@) =~= strings(before).push(last@));
    assert(strings(v@) =~= labels_of(n_layer as nat));
    v
}

/// How a token is shown: newlines and blanks by a visible sign.
pub open spec fn displayed(ch: Seq<char>) -> Seq<char> {
    if ch == seq!['\n'] {
        seq!['\\', 'n']
    } else if ch == seq![' '] {
        seq!['·']
    } else {
        ch
    }
}

/// How a token is shown: newlines and blanks by a visible sign.
pub fn display(ch: &str) -> (r: String)
    ensures
        r@ == displayed(ch@),
{
    let v: Vec<char> = to_chars(ch);
    let mut out: Vec<char> = Vec::new();
    if v.len() == 1 && v[0] == '\n' {
        assert(v@ =~= seq!['\n']);
        out.push('\\');
        out.push('n');
        assert(out@ =~= displayed(ch@));
        return from_chars(&out);
    }
    if v.len() == 1 && v[0] == ' ' {
        assert(v@ =~= seq![' ']);
        out.push('·');
        assert(out@ =~= displayed(ch@));
        return from_chars(&out);
    }
    from_chars(&v)
}

/// The tokens by number, each with its probability.
pub open spec fn numbered(probs: Seq<u32>) -> Seq<Scored> {
    Seq::new(probs.len(), |i: int| (i as usize, probs[i]))
}

/// The `k` most probable tokens, as they are shown, with the bits of their
/// probabilities.
pub open spec fn top_tokens_of(probs: Seq<u32>, tok: TokenizerModel, k: int) -> Seq<
    (Seq<char>, u32),
> {
    top_of(numbered(probs), k).map_values(
        |x: Scored| (displayed(tok.decode(seq![x.0 as u32])), x.1),
    )
}

/// Texts with the bits of their probabilities.
pub open spec fn labelled(v: Seq<(String, u32)>) -> Seq<(Seq<char>, u32)> {
    v.map_values(|x: (String, u32)| (x.0@, x.1))
}

/// The `k` most probable tokens; `probs` holds the bits of the probabilities.
pub fn top_tokens(probs: &Vec<u32>, tok: &CharTokenizer, k: usize) -> (r: Vec<(String, u32)>)
    ensures
        labelled(r@) == top_tokens_of(probs@, tok@, k as int),
{
    let mut scored: Vec<Scored> = Vec::new();
    let mut i: usize = 0;
    while i < probs.len()
        invariant
            i <= probs.len(),
            scored@ == numbered(probs@).take(i as int),
        decreases probs.len() - i,
    {
        scored.push((i, probs[i]));
        assert(scored@ =~= numbered(probs@).take(i + 1));
        i += 1;
    }
    assert(scored@ =~= numbered(probs@));
    let best: Vec<Scored> = top(&scored, k);
    let ghost model = tok@;
    let ghost show = |x: Scored| (displayed(model.decode(seq![x.0 as u32])), x.1);
    let mut out: Vec<(String, u32)> = Vec::new();
    let mut i: usize = 0;
    assert(labelled(out@) =~= best@.take(0).map_values(show));
    while i < best.len()
        invariant
            i <= best.len(),
            model == tok@,
            show == (|x: Scored| (displayed(model.decode(seq![x.0 as u32])), x.1)),
            labelled(out@) == best@.take(i as int).map_values(show),
        decreases best.len() - i,
    {
        let ghost before = out@;
        let mut one: Vec<u32> = Vec::new();
        one.push(best[i].0 as u32);
        assert(one@ =~= seq![best@[i as int].0 as u32]);
        let text: String = display(tok.decode(one.as_slice()).as_str());
        out.push((text, best[i].1));
        assert(labelled(out@) =~= labelled(before).push((text@, best@[i as int].1)));
        assert(best@.take(i + 1).map_values(show) =~= best@.take(i as int).map_values(show).push(
            show(best@[i as int]),
        ));
        i += 1;
    }
    assert(best@.take(i as int) =~= best@);
    out
}

/// The last `max_lines` lines of a text, or all of them where there are fewer.
pub open spec fn tail_of(text: Seq<char>, max_lines: int) -> Seq<Seq<char>> {
    let lines = pieces_of(text, Cut::Newline);
    if lines.len() <= max_lines {
        lines
    } else {
        lines.skip(lines.len() - max_lines)
    }
}

/// The last `max_lines` lines of a text.
pub fn tail_lines(text: &str, max_lines: usize) -> (r: Vec<String>)
    ensures
        strings(r@) == tail_of(text@, max_lines as int),
{
    let lines: Vec<Vec<char>> = pieces(&to_chars(text), Cut::Newline);
    let ghost all = texts(lines@);
    let n: usize = lines.len();
    let start: usize = if n <= max_lines {
        0
    } else {
        n - max_lines
    };
    let mut out: Vec<String> = Vec::new();
    let mut i: usize = start;
    assert(strings(out@) =~= all.subrange(start as int, start as int));
    while i < n
        invariant
            start <= i <= n,
            n == lines@.len(),
            all == texts(lines@),
            strings(out@) == all.subrange(start as int, i as int),
        decreases n - i,
    {
        let ghost before = out@;
        let line: String = from_chars(&lines[i]);
        out.push(line);
        assert(strings(out@) =~= strings(before).push(line@));
        assert(all.subrange(start as int, i + 1) =~= all.subrange(start as int, i as int).push(
            line@,
        ));
        i += 1;
    }
    assert(strings(out@) =~= tail_of(text@, max_lines as int));
    out
}

/// Which of `channels` activations is drawn in column `px` of a heatmap that is
/// `width` columns wide.
pub fn channel_at(px: usize, width: usize, channels: usize) -> (r: usize)
    requires
        px < width,
        channels > 0,
        px * channels <= usize::MAX,
    ensures
        r == px * channels / width as int,
        r < channels,
{
    proof {
        let p = px as int;
        let c = channels as int;
        let w = width as int;
        assert(0 <= p * c / w < c) by (nonlinear_arith)
            requires
                0 <= p < w,
                0 < c,
        ;
    }
    px * channels / width
}

/// Whether a pixel lies on a canvas of `width` by `height`.
pub fn on_canvas(x: i32, y: i32, width: u32, height: u32) -> (r: bool)
    ensures
        r == (0 <= x < width && 0 <= y < height),
{
    x >= 0 && y >= 0 && (x as u32) < width && (y as u32) < height
}

/// For how many frames the last one is held, so that the video ends on the full
/// answer: a second and a half.
pub fn held_frames(fps: usize) -> (r: usize)
    requires
        fps * 3 <= usize::MAX,
    ensures
        r == fps * 3 / 2,
{
    fps * 3 / 2
}

// ---------------------------------------------------------------------------
// Laws
// ---------------------------------------------------------------------------

/// There is a label for every activation that is captured: the embedding, each
/// layer, and the final norm.
pub proof fn law_every_row_has_a_label(n_layer: nat)
    ensures
        labels_of(n_layer).len() == n_layer + 2,
        labels_of(n_layer)[0] == "embed"@,
        forall|i: int| 1 <= i <= n_layer ==> #[trigger] labels_of(n_layer)[i] == layer_label(i as nat),
        labels_of(n_layer).last() == "final"@,
{
}

/// The channels are drawn in order from left to right.
pub proof fn law_columns_keep_order(p: int, q: int, width: int, channels: int)
    requires
        0 <= p <= q < width,
        0 < channels,
    ensures
        p * channels / width <= q * channels / width,
{
    assert(p * channels <= q * channels) by (nonlinear_arith)
        requires
            0 <= p <= q,
            0 < channels,
    ;
    let a = p * channels;
    let b = q * channels;
    assert(a / width <= b / width) by (nonlinear_arith)
        requires
            0 <= a <= b,
            0 < width,
    ;
}

/// A layer is labelled by its number.
pub proof fn law_layers_are_numbered(i: nat)
    ensures
        layer_label(i) == "L"@ + digits_of(i),
{
    reveal_strlit("L");
    assert("L"@ =~= seq!['L']);
}

/// A newline and a blank are shown by a sign, and everything else as it is.
pub proof fn law_only_newlines_and_blanks_are_disguised(ch: Seq<char>)
    ensures
        displayed("\n"@) == "\\n"@,
        displayed(" "@) == "·"@,
        ch != "\n"@ && ch != " "@ ==> displayed(ch) == ch,
{
    reveal_strlit("\n");
    reveal_strlit("\\n");
    reveal_strlit(" ");
    reveal_strlit("·");
    assert("\n"@ =~= seq!['\n']);
    assert("\\n"@ =~= seq!['\\', 'n']);
    assert(" "@ =~= seq![' ']);
    assert("·"@ =~= seq!['·']);
    assert(seq![' '][0] != seq!['\n'][0]);
}

/// Each of the most probable tokens is shown with its own text and probability, in
/// the order of the ranking.
pub proof fn law_tokens_are_shown_with_their_probabilities(
    probs: Seq<u32>,
    tok: TokenizerModel,
    k: int,
    i: int,
)
    requires
        0 <= k,
        0 <= i < top_tokens_of(probs, tok, k).len(),
    ensures
        top_tokens_of(probs, tok, k).len() == if probs.len() < k {
            probs.len() as int
        } else {
            k
        },
        numbered(probs).len() == probs.len(),
        forall|j: int|
            0 <= j < probs.len() <= usize::MAX ==> (#[trigger] numbered(probs)[j]).0 == j
                && numbered(probs)[j].1 == probs[j],
        top_tokens_of(probs, tok, k)[i] == (
            displayed(tok.decode(seq![top_of(numbered(probs), k)[i].0 as u32])),
            top_of(numbered(probs), k)[i].1,
        ),
{
    law_top_is_the_best(numbered(probs), k);
}

/// The tokens are shown in descending order of their probabilities.
pub proof fn law_shown_tokens_descend(
    probs: Seq<u32>,
    tok: TokenizerModel,
    k: int,
    i: int,
    j: int,
)
    requires
        0 <= k,
        0 <= i < j < top_tokens_of(probs, tok, k).len(),
    ensures
        rank_of(top_tokens_of(probs, tok, k)[i].1) >= rank_of(top_tokens_of(probs, tok, k)[j].1),
{
    law_ranked_descends(numbered(probs));
    let all = ranked(numbered(probs));
    assert(rank_of(all[i].1) >= rank_of(all[j].1));
}

/// The tail is the last lines of the text, as many as fit.
pub proof fn law_the_tail_is_the_last_lines(text: Seq<char>, max_lines: int, i: int)
    requires
        0 <= max_lines,
        1 <= i <= tail_of(text, max_lines).len(),
    ensures
        ({
            let lines = pieces_of(text, Cut::Newline);
            let tail = tail_of(text, max_lines);
            &&& tail.len() == if lines.len() < max_lines {
                lines.len() as int
            } else {
                max_lines
            }
            &&& tail[tail.len() - i] == lines[lines.len() - i]
        }),
{
}

} // verus!
