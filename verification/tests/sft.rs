use ai_training::data::format::Example;
use ai_training::data::tokenizer::CharTokenizer;
use ai_training::sft::{
    build_tokenizer, compute_mask, fill_batch, make_batch, retain_fitting, tokenize, tokenize_all,
    Tokenized,
};

fn example(question: &str, response: &str) -> Example {
    Example {
        context: String::new(),
        question: question.to_string(),
        response: response.to_string(),
        source: String::new(),
    }
}

fn trained(rendered: &str) -> String {
    rendered
        .chars()
        .zip(compute_mask(rendered))
        .filter(|(_, keep)| *keep)
        .map(|(c, _)| c)
        .collect()
}

#[test]
fn the_prompt_is_masked() {
    let r = example("Q?", "Yes.").render();
    assert_eq!(trained(&r), "Yes.\n<|end|>\n");
    assert_eq!(compute_mask(&r).len(), r.chars().count());
}

#[test]
fn tool_results_are_masked_with_their_newlines() {
    let r = example("Q?", ">>tool:calculate(1+2)\n>>tool:result(3)\nIt is 3.").render();
    assert_eq!(trained(&r), ">>tool:calculate(1+2)It is 3.\n<|end|>\n");
}

#[test]
fn every_result_is_masked() {
    let r = "<|answer|>\na>>tool:result(1)b\n>>tool:result(é)\n\n>>tool:result(open";
    assert_eq!(trained(r), "ab\n>>tool:result(open");
}

#[test]
fn a_result_inside_a_result_is_one_span() {
    assert_eq!(trained("<|answer|>\nx>>tool:result(>>tool:result(1)y)z"), "xy)z");
}

#[test]
fn nothing_is_trained_without_an_answer() {
    assert_eq!(trained("no marker here"), "");
    assert_eq!(trained("<|answer|>no newline"), "");
    assert_eq!(compute_mask(""), Vec::<bool>::new());
}

#[test]
fn masks_count_characters_not_bytes() {
    assert_eq!(trained("ünïcödé <|answer|>\nß"), "ß");
}

#[test]
fn tokens_keep_their_mask() {
    let e = example("ab", "ba");
    let full = build_tokenizer(&vec![e.clone()]);
    let t = tokenize(&e, &full);
    assert_eq!(t.ids().len(), e.render().chars().count());
    assert_eq!(t.mask(), &compute_mask(&e.render()));
    let small = CharTokenizer::build("ab");
    let t = tokenize(&e, &small);
    assert_eq!(t.ids().len(), t.mask().len());
    let last: Vec<i32> = t.ids()[t.ids().len() - 2..].to_vec();
    assert_eq!(last, vec![1, 0]);
    assert_eq!(t.mask()[t.mask().len() - 2..].to_vec(), vec![true, true]);
}

#[test]
fn short_and_long_examples_are_dropped() {
    let examples = vec![example("q", "z"), example("q", "abab")];
    let tok = CharTokenizer::build("b");
    let all = tokenize_all(&examples, &tok);
    assert_eq!(all.len(), 1);
    assert_eq!(all[0].ids(), &vec![0, 0]);
    assert_eq!(all[0].mask(), &vec![true, true]);
    assert_eq!(retain_fitting(tokenize_all(&examples, &tok), 2).len(), 1);
    assert_eq!(retain_fitting(tokenize_all(&examples, &tok), 1).len(), 0);
}

fn data() -> Vec<Tokenized> {
    let tok = CharTokenizer::build("xyz");
    tokenize_all(&vec![example("x", "y"), example("xy", "zzz")], &tok)
}

#[test]
fn batches_are_shifted_and_padded() {
    let b = fill_batch(&data(), &vec![0, 1], 100);
    assert_eq!((b.rows, b.width), (2, 4));
    assert_eq!(b.inputs, vec![0, 0, 0, 0, 0, 1, 2, 2]);
    assert_eq!(b.targets, vec![1, 0, 0, 0, 1, 2, 2, 2]);
    assert_eq!(b.mask, vec![true, false, false, false, false, true, true, true]);
}

#[test]
fn batches_are_cut_at_the_block() {
    let b = fill_batch(&data(), &vec![1], 3);
    assert_eq!((b.rows, b.width), (1, 2));
    assert_eq!(b.inputs, vec![0, 1]);
    assert_eq!(b.targets, vec![1, 2]);
    assert_eq!(b.mask, vec![false, true]);
}

#[test]
fn an_empty_batch_has_the_least_width() {
    let b = fill_batch(&Vec::new(), &Vec::new(), 8);
    assert_eq!((b.rows, b.width, b.inputs.len()), (0, 1, 0));
}

#[test]
fn random_batches_are_made_of_the_examples() {
    let b = make_batch(&data(), 6, 100, &mut rand::thread_rng());
    assert_eq!(b.rows, 6);
    assert_eq!(b.inputs.len(), 6 * b.width);
    for row in b.inputs.chunks(b.width) {
        assert_eq!(row[0], 0);
    }
}
