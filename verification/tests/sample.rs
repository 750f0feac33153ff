use ai_training::data::format::build_prompt;
use ai_training::data::tokenizer::CharTokenizer;
use ai_training::retrieval::SearchResult;
use ai_training::sample::{
    context_from, generate, generate_instruct, pending_tool_call, transcript, Session,
};
use ai_training::tools::calculator::Amount;
use ai_training::tools::machine::{Calculator, Operation};
use std::cell::RefCell;

fn call(s: &str) -> Option<String> {
    pending_tool_call(&s.chars().collect())
}

fn number(s: &str) -> i64 {
    s.parse::<i64>().unwrap()
}

fn negate(a: i64) -> i64 {
    -a
}

fn apply(op: Operation, a: i64, b: i64) -> Option<i64> {
    match op {
        Operation::Add => Some(a + b),
        Operation::Subtract => Some(a - b),
        Operation::Multiply => Some(a * b),
        Operation::Divide => a.checked_div(b),
    }
}

fn tok() -> CharTokenizer {
    CharTokenizer::build("<|>/abcdefghijklmnopqrstuvwxyzQ:0123456789*+-() \n.?,A")
}

#[test]
fn complete_calls_are_noticed() {
    assert_eq!(call("so >>tool:calculate(2334*9834)"), Some("2334*9834".to_string()));
    assert_eq!(call(">>tool:calculate((1+2)*3)"), Some("(1+2)*3".to_string()));
    assert_eq!(call(">>tool:calculate()"), Some(String::new()));
}

#[test]
fn incomplete_and_past_calls_are_not() {
    assert_eq!(call(">>tool:calculate((1+2)"), None);
    assert_eq!(call(">>tool:calculate(1+2) "), None);
    assert_eq!(call(">>tool:calculate(1)\n>>tool:result(1)"), None);
    assert_eq!(call("(1+2)"), None);
    assert_eq!(call(""), None);
    assert_eq!(call(">>tool:calculate(1 >>tool:calculate(2)"), Some("2".to_string()));
}

fn scripted(script: &str, max_new: usize) -> (String, Vec<Vec<i32>>) {
    let tok = tok();
    let ids: Vec<u32> = tok.encode(script);
    assert_eq!(ids.len(), script.chars().count());
    let at = RefCell::new(0usize);
    let seen = RefCell::new(Vec::new());
    let answer = generate_instruct(
        &tok,
        &build_prompt("", "q"),
        max_new,
        8,
        |window: &Vec<i32>| {
            seen.borrow_mut().push(window.clone());
            let i = *at.borrow();
            *at.borrow_mut() = i + 1;
            ids[i]
        },
        &Calculator { num: number, neg: negate, op: apply, show: Amount::Whole },
    );
    (answer, seen.into_inner())
}

#[test]
fn answers_stop_at_the_end_marker() {
    let (answer, seen) = scripted("yes.<|end|>never", 100);
    assert_eq!(answer, "yes.");
    assert_eq!(seen.len(), 11);
    assert!(!answer.contains("<|end|>"));
}

#[test]
fn answers_stop_after_the_budget() {
    let (answer, seen) = scripted("abcdefgh", 3);
    assert_eq!(answer, "abc");
    assert_eq!(seen.len(), 3);
    assert!(seen.iter().all(|w| w.len() == 8));
}

#[test]
fn tool_calls_are_answered_in_the_text() {
    let (answer, seen) = scripted(">>tool:calculate(2334*9834)it is.<|end|>", 100);
    assert_eq!(
        answer,
        ">>tool:calculate(2334*9834)\n>>tool:result(22952556)\nit is."
    );
    let after: Vec<u32> = seen[27].iter().map(|&x| x as u32).collect();
    assert_eq!(tok().decode(&after), "952556)\n");
}

#[test]
fn failed_calls_are_answered_with_an_error() {
    let (answer, _) = scripted(">>tool:calculate(1/0)<|end|>", 100);
    assert_eq!(answer, ">>tool:calculate(1/0)\n>>tool:result(error)\n");
    let (answer, _) = scripted(">>tool:calculate(1+)<|end|>", 100);
    assert_eq!(answer, ">>tool:calculate(1+)\n>>tool:result(error)\n");
}

#[test]
fn sessions_go_step_by_step() {
    let tok = tok();
    let calculator = Calculator { num: number, neg: negate, op: apply, show: Amount::Whole };
    let mut s = Session::new(&tok, "ab");
    assert_eq!(s.context(10), vec![tok.id('a').unwrap() as i32, tok.id('b').unwrap() as i32]);
    assert_eq!(s.context(1), vec![tok.id('b').unwrap() as i32]);
    for c in "x<|end|>".chars() {
        assert!(!s.ended());
        s.accept(&tok, tok.id(c).unwrap(), &calculator);
    }
    assert!(s.ended());
    assert_eq!(s.produced(), "x");
}

#[test]
fn continuation_starts_from_the_prompt() {
    let tok = CharTokenizer::build("abc");
    let seen = RefCell::new(Vec::new());
    let text = generate(&tok, "ab", 4, 3, |w: &Vec<i32>| {
        seen.borrow_mut().push(w.clone());
        ((w[w.len() - 1] + 1) % 3) as u32
    });
    assert_eq!(text, "cabc");
    assert_eq!(
        seen.into_inner(),
        vec![vec![0, 1], vec![0, 1, 2], vec![1, 2, 0], vec![2, 0, 1]]
    );
}

#[test]
fn continuation_without_a_prompt_is_seeded() {
    let tok = CharTokenizer::build("abc");
    let text = generate(&tok, "", 2, 8, |w: &Vec<i32>| {
        assert_eq!(w[0], 0);
        w.len() as u32
    });
    assert_eq!(text, "bc");
}

#[test]
fn context_is_one_snippet_per_line() {
    let hit = |s: &str| SearchResult {
        score: 0,
        source: String::new(),
        snippet: s.to_string(),
    };
    assert_eq!(context_from(&vec![hit("a"), hit("b")]), "a\nb");
    assert_eq!(context_from(&Vec::new()), "");
}

#[test]
fn transcripts_are_trimmed() {
    assert_eq!(transcript(" What? ", "\nThat.\n"), "Q: What?\nA: That.");
}
