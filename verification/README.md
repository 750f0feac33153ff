# ai_training

Sandbox for training small language models from scratch on a vault of markdown
notes. The logic that needs neither tensors nor floating-point arithmetic is proved
in [Verus](https://github.com/verus-lang/verus).

The model is a "RISC" model: a small core trained to reason, call tools and read
retrieved context rather than to recall facts from its weights. Knowledge lives
outside the model and is fetched on demand.

## Layout

| | |
|---|---|
| `src/text.rs`, `src/decimal.rs` | text as sequences of characters: trimming, splitting, joining, searching, numbers in decimal |
| `src/pattern.rs`, `src/random.rs` | the boundary to the `regex` and `rand` crates |
| `src/data/` | cleaning notes, passages, the character tokenizer, the example format, synthetic examples |
| `src/tools/` | the calculator: grammar, plans, and carrying them out on any kind of number |
| `src/retrieval.rs`, `src/score.rs` | the BM25 index and ranking by scores |
| `src/sft.rs`, `src/train.rs` | the loss mask and the batches |
| `src/sample.rs` | generation and the tool loop |
| `src/model.rs` | the causal mask and the connections of the neuron grid |
| `src/viz.rs` | what a frame of the "brain-scan" shows |
| `app/` | the program: arguments, files, tensors, floating-point arithmetic |
| `tests/` | the library at work on concrete values |

Floating-point numbers never enter the library. A score is held as its bit
pattern, which is all that ordering takes; a calculation is a plan that is run by
operations the caller hands in; the model is a function from the tokens so far to
the next one. So the transformer, its losses, the sampling of a token, the BM25
formula and the drawing of frames are in `app/`, and not proved.

The program runs on burn's CPU backend. `burn-core` stands beside `burn` in
`Cargo.toml` only to switch on its `std` feature, which reads and writes
checkpoints, without the many crates that burn's own `std` feature brings.

## What is proved

Every function states what it returns over mathematical sequences, and the laws
(`law_*`) state what holds of several of them together. Among these:

- encoding a text with its own tokenizer and decoding it again gives it back;
- grouping paragraphs into passages neither loses, repeats nor splits one, and
  keeps every word of the text in order;
- the answer of a cloze question stands in its context, and a calculator trace
  shows the result that the expression has in exact arithmetic;
- a query finds exactly the passages that share a term with it, and they come in
  descending order of the scores that the caller gives them;
- nothing of the prompt is trained on, provided that the answer marker's line
  does not stand in it before its end; nothing of a tool's answer is;
- a tool call is noticed the moment it is complete, provided that no other call
  opens inside it; an answer holds no end marker, provided that nothing the
  calculator shows does;
- the cells of the grid are connected exactly where they touch, equally often both
  ways, and with three cells per axis each is connected to all.
