use ai_training::data::corpus::{Chunk, Note};
use ai_training::retrieval::{snippet, tokenize, Bm25Index, Candidate};
use ai_training::score::{argmax, top};

fn chunk(source: &str, text: &str) -> Chunk {
    Chunk { source: source.to_string(), text: text.to_string() }
}

fn index() -> Bm25Index {
    Bm25Index::build(vec![
        chunk("a.md", "The quick brown fox"),
        chunk("b.md", "Fox, fox! FOX and hound."),
        chunk("c.md", "Nothing to see here"),
        chunk("d.md", "hound of the north"),
    ])
}

fn count_of_terms(c: &Candidate) -> u32 {
    let sum: u32 = c.parts.iter().map(|p| p.1).sum();
    (sum as f32).to_bits()
}

#[test]
fn terms_are_lowercase_runs_of_letters_and_digits() {
    let words: Vec<String> =
        tokenize("Hello, WORLD—x2 Straße_ß!").iter().map(|t| t.iter().collect()).collect();
    assert_eq!(words, vec!["hello", "world", "x2", "straße", "ß"]);
    assert!(tokenize(" ... ").is_empty());
}

#[test]
fn candidates_hold_a_term_of_the_query() {
    let found = index().candidates("fox HOUND fox");
    let told: Vec<(usize, u32, Vec<(usize, u32)>)> =
        found.into_iter().map(|c| (c.doc, c.len, c.parts)).collect();
    assert_eq!(
        told,
        vec![
            (0, 4, vec![(2, 1)]),
            (1, 5, vec![(2, 3), (2, 1)]),
            (3, 4, vec![(2, 1)]),
        ]
    );
}

#[test]
fn sizes_are_counted() {
    let ix = index();
    assert_eq!(ix.len(), 4);
    assert_eq!(ix.total_len(), 17);
    assert_eq!(Bm25Index::build(Vec::new()).len(), 0);
    assert_eq!(Bm25Index::build(Vec::new()).total_len(), 0);
}

#[test]
fn the_best_come_first_and_ties_in_order() {
    let found = index().search("fox hound", 10, count_of_terms);
    let sources: Vec<String> = found.iter().map(|r| r.source.clone()).collect();
    assert_eq!(sources, vec!["b.md", "a.md", "d.md"]);
    assert_eq!(f32::from_bits(found[0].score), 4.0);
    assert_eq!(found[0].snippet, "Fox, fox! FOX and hound.");
    assert_eq!(index().search("fox hound", 1, count_of_terms).len(), 1);
    assert!(index().search("unheard", 5, count_of_terms).is_empty());
    assert!(index().search("", 5, count_of_terms).is_empty());
}

#[test]
fn scored_passages_are_ranked() {
    let scored = vec![(0, 1f32.to_bits()), (3, 2f32.to_bits()), (2, 1f32.to_bits())];
    let best = index().best(&scored, 2);
    let sources: Vec<String> = best.iter().map(|r| r.source.clone()).collect();
    assert_eq!(sources, vec!["d.md", "a.md"]);
}

#[test]
fn an_index_is_built_from_notes() {
    let notes = vec![Note { source: "x.md".to_string(), raw: "[[Chess]] openings".to_string() }];
    let ix = Bm25Index::from_vault(&notes, 120).unwrap();
    assert_eq!(ix.len(), 1);
    assert_eq!(ix.candidates("chess").len(), 1);
}

#[test]
fn snippets_are_one_line_and_cut_off() {
    assert_eq!(snippet(" a\n\tb  c ", 240), "a b c");
    assert_eq!(snippet("abcdef", 3), "abc…");
    assert_eq!(snippet("abc", 3), "abc");
    assert_eq!(snippet("", 0), "");
}

#[test]
fn totals_order_floats_by_their_bits() {
    let values = [0.5f32, -1.0, f32::NAN, -0.0, 0.0, f32::INFINITY, f32::NEG_INFINITY, 0.5];
    let scored: Vec<(usize, u32)> =
        values.iter().enumerate().map(|(i, v)| (i, v.to_bits())).collect();
    let mut expected: Vec<usize> = (0..values.len()).collect();
    expected.sort_by(|&a, &b| values[b].total_cmp(&values[a]));
    let order: Vec<usize> = top(&scored, 100).into_iter().map(|x| x.0).collect();
    assert_eq!(order, expected);
    let three: Vec<usize> = top(&scored, 3).into_iter().map(|x| x.0).collect();
    assert_eq!(three, expected[..3].to_vec());
    assert!(top(&scored, 0).is_empty());
}

fn bits(v: &[f32]) -> Vec<u32> {
    v.iter().map(|x| x.to_bits()).collect()
}

#[test]
fn the_first_greatest_is_chosen() {
    assert_eq!(argmax(&bits(&[0.1, 0.7, 0.2, 0.7])), 1);
    assert_eq!(argmax(&bits(&[-3.0, -2.0, -5.0])), 1);
    assert_eq!(argmax(&bits(&[-0.0, 0.0])), 0);
    assert_eq!(argmax(&bits(&[f32::NAN, 0.5, f32::NAN])), 1);
    assert_eq!(argmax(&bits(&[f32::NEG_INFINITY, f32::MIN])), 0);
    assert_eq!(argmax(&Vec::new()), 0);
}
