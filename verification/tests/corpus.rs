use ai_training::data::corpus::{
    is_note, load_chunks, load_corpus, split_passages, Cleaner, Corpus, Note,
};
use ai_training::data::{load_tokens, signed, survey};
use ai_training::pattern::Pattern;

fn note(source: &str, raw: &str) -> Note {
    Note { source: source.to_string(), raw: raw.to_string() }
}

fn clean(raw: &str) -> String {
    Cleaner::new().unwrap().clean(raw)
}

#[test]
fn frontmatter_is_removed_at_the_start_only() {
    assert_eq!(clean("---\ntitle: x\n---\nHello"), "Hello");
    assert_eq!(clean("---\r\na: b\r\nc: d\r\n---\r\nHello"), "Hello");
    assert_eq!(clean("Hello\n---\nx\n---\nyou"), "Hello\n---\nx\n---\nyou");
}

#[test]
fn links_show_what_they_show() {
    assert_eq!(clean("see [[Chess]] and [[Chess|the game]]"), "see Chess and the game");
    assert_eq!(clean("a ![[image.png]] b"), "a  b");
    assert_eq!(clean("[text](http://example.org) here"), "text here");
}

#[test]
fn breaks_and_escapes_are_resolved() {
    assert_eq!(clean("one<br>two<BR />three"), "one\ntwo\nthree");
    assert_eq!(clean(r"snake\_case \*not bold\*"), "snake_case *not bold*");
}

#[test]
fn blank_lines_collapse_and_ends_are_trimmed() {
    assert_eq!(clean("\n\n a\n\n\n\n\nb \n"), "a\n\nb");
    assert_eq!(clean(" \t\n "), "");
}

#[test]
fn notes_are_markdown_files() {
    assert!(is_note(true, Some("md")));
    assert!(!is_note(false, Some("md")));
    assert!(!is_note(true, Some("txt")));
    assert!(!is_note(true, Some("MD")));
    assert!(!is_note(true, None));
}

#[test]
fn a_corpus_skips_what_is_blank() {
    let notes = vec![note("a.md", "One"), note("b.md", "  "), note("c.md", "[[Two]]")];
    let corpus = load_corpus(&notes).unwrap();
    assert_eq!(corpus.text, "One\n\nTwo\n\n");
    assert_eq!(corpus.files, 2);
}

#[test]
fn passages_group_paragraphs_up_to_the_target() {
    let text = "a b c\n\nd e\n\nf\n\ng h i j";
    assert_eq!(split_passages(text, 4), vec!["a b c\n\nd e", "f\n\ng h i j"]);
    assert_eq!(split_passages(text, 100), vec![text]);
    assert_eq!(split_passages(text, 0), vec!["a b c", "d e", "f", "g h i j"]);
    assert_eq!(split_passages("", 4), Vec::<String>::new());
}

#[test]
fn paragraphs_are_trimmed_and_never_split() {
    assert_eq!(split_passages(" one two three \n\n \n\n four ", 2), vec!["one two three", "four"]);
}

#[test]
fn passages_hold_the_whole_text() {
    let text = " one two\n\n\n\nthree \n\n \n\nfour five six\n\nseven";
    for target in 0..9 {
        let passages = split_passages(text, target);
        let whole = passages.join("\n\n");
        assert_eq!(whole, "one two\n\nthree\n\nfour five six\n\nseven");
        assert_eq!(
            whole.split_whitespace().collect::<Vec<_>>(),
            text.split_whitespace().collect::<Vec<_>>()
        );
        for p in &passages[..passages.len() - 1] {
            assert!(p.split_whitespace().count() >= target);
        }
    }
}

#[test]
fn chunks_keep_their_source() {
    let notes = vec![note("a.md", "a b\n\nc d"), note("sub/b.md", "e"), note("c.md", "")];
    let chunks = load_chunks(&notes, 2).unwrap();
    let told: Vec<(String, String)> = chunks.into_iter().map(|c| (c.source, c.text)).collect();
    assert_eq!(
        told,
        vec![
            ("a.md".to_string(), "a b".to_string()),
            ("a.md".to_string(), "c d".to_string()),
            ("sub/b.md".to_string(), "e".to_string()),
        ]
    );
}

#[test]
fn tokens_cover_the_whole_corpus() {
    let notes = vec![note("a.md", "ba")];
    let (ids, tok) = load_tokens(&notes).unwrap();
    assert_eq!(tok.vocab(), &vec!['\n', 'a', 'b']);
    assert_eq!(ids, vec![2, 1, 0, 0]);
    assert_eq!(signed(&vec![0, 7, u32::MAX]), vec![0, 7, -1]);
}

#[test]
fn a_survey_tells_sizes_and_a_sample() {
    let text: String = "abc ".repeat(150);
    let told = survey(&Corpus { text: text.clone(), files: 3 });
    assert_eq!(told.files, 3);
    assert_eq!(told.chars, 600);
    assert_eq!(told.vocab, 4);
    assert_eq!(told.sample, text.chars().take(400).collect::<String>());
    assert!(told.round_trip);
}

#[test]
fn patterns_that_do_not_compile_are_refused() {
    let e = Pattern::new("(unclosed").err().unwrap();
    assert_eq!(e.pattern, "(unclosed");
}

#[test]
fn patterns_replace_and_find() {
    let p = Pattern::new(r"(\w)-(\w)").unwrap();
    assert_eq!(p.replace("a-b c-d", "$2$1"), "ba c-d");
    assert_eq!(p.replace_all("a-b c-d", "$2$1"), "ba dc");
    assert_eq!(p.find_all("a-b c-d e"), vec!["a-b", "c-d"]);
}
