use ai_training::data::corpus::Chunk;
use ai_training::data::format::Example;
use ai_training::data::synth::{
    assemble, build_dataset, calculator_example, cloze_example, drawn_example, drawn_op,
    drawn_ranges, gen_calculator, gen_cloze, sentence_with, split_dataset, Draw, Op,
};

fn chunk(text: &str) -> Chunk {
    Chunk { source: "n.md".to_string(), text: text.to_string() }
}

fn example(source: &str) -> Example {
    Example {
        context: String::new(),
        question: "q".to_string(),
        response: "r".to_string(),
        source: source.to_string(),
    }
}

#[test]
fn traces_are_resolved() {
    let e = calculator_example(Op::Times, 2334, 9834, 0);
    assert_eq!(e.question, "What is 2334 times 9834?");
    assert_eq!(
        e.response,
        ">>tool:calculate(2334*9834)\n>>tool:result(22952556)\nThe answer is 22952556."
    );
    assert_eq!(e.context, "");
    assert_eq!(e.source, "calc");
}

#[test]
fn every_wording_and_operation() {
    assert_eq!(calculator_example(Op::Plus, 10, 20, 1).question, "Compute 10+20.");
    assert_eq!(calculator_example(Op::Minus, 10, 20, 2).question, "What's 10 minus 20?");
    assert_eq!(calculator_example(Op::DividedBy, 84, 12, 3).question, "Calculate 84 divided by 12.");
    assert_eq!(
        calculator_example(Op::Minus, 10, 20, 2).response,
        ">>tool:calculate(10-20)\n>>tool:result(-10)\nThe answer is -10."
    );
    assert_eq!(
        calculator_example(Op::DividedBy, 84, 12, 3).response,
        ">>tool:calculate(84/12)\n>>tool:result(7)\nThe answer is 7."
    );
}

#[test]
fn drawn_numbers_lead_to_problems() {
    let expr = |kind, first, second| {
        let e = drawn_example(&Draw { kind, first, second, wording: 1 });
        (e.question, e.response.lines().nth(1).unwrap().to_string())
    };
    assert_eq!(expr(0, 10, 99_999), ("Compute 10+99999.".into(), ">>tool:result(100009)".into()));
    assert_eq!(expr(1, 10, 99_999), ("Compute 10-99999.".into(), ">>tool:result(-99989)".into()));
    assert_eq!(expr(2, 999, 999), ("Compute 999*999.".into(), ">>tool:result(998001)".into()));
    assert_eq!(expr(3, 49, 199), ("Compute 9751/49.".into(), ">>tool:result(199)".into()));
    let ops: Vec<Op> = (0..4).map(drawn_op).collect();
    assert_eq!(ops, vec![Op::Plus, Op::Minus, Op::Times, Op::DividedBy]);
    assert_eq!(drawn_ranges(Op::Minus), ((10, 100_000), (10, 100_000)));
    assert_eq!(drawn_ranges(Op::Times), ((11, 1000), (11, 1000)));
    assert_eq!(drawn_ranges(Op::DividedBy), ((2, 50), (2, 200)));
}

#[test]
fn random_traces_have_the_trace_shape() {
    let made = gen_calculator(200, &mut rand::thread_rng());
    assert_eq!(made.len(), 200);
    for e in &made {
        assert!(e.response.starts_with(">>tool:calculate("));
        assert!(e.response.contains(")\n>>tool:result("));
        assert_eq!(e.source, "calc");
    }
    assert!(made.iter().any(|e| e.response != made[0].response));
}

#[test]
fn sentences_need_the_span_and_six_words() {
    let text = "Too short 1995. It was founded in the year 1995 by two friends! Later it grew.";
    assert_eq!(
        sentence_with(text, "1995").unwrap(),
        "It was founded in the year 1995 by two friends"
    );
    assert!(sentence_with(text, "2001").is_none());
    assert!(sentence_with("Only five words with 42", "42").is_none());
}

#[test]
fn cloze_questions_blank_the_number() {
    let c = chunk("Intro 7. It was founded in the year 1,995 by two friends.");
    let spans = vec!["7".to_string(), "1,995".to_string()];
    let e = cloze_example(&c, &spans).unwrap();
    assert_eq!(
        e.question,
        "Fill in the blank using the context:\nIt was founded in the year ____ by two friends"
    );
    assert_eq!(e.response, "1,995");
    assert_eq!(e.context, c.text);
    assert_eq!(e.source, "cloze:n.md");
    assert!(e.context.contains(&e.response));
    assert!(cloze_example(&c, &vec!["7".to_string()]).is_none());
}

#[test]
fn clozes_come_from_the_chunks() {
    let chunks = vec![
        chunk("It was founded in the year 1995 by two friends."),
        chunk("There is no number in this chunk at all."),
        chunk("The company employed about 12,500 people in total."),
    ];
    let made = gen_cloze(&chunks, 10, &mut rand::thread_rng()).unwrap();
    let mut answers: Vec<String> = made.iter().map(|e| e.response.clone()).collect();
    answers.sort();
    assert_eq!(answers, vec!["12,500", "1995"]);
    assert_eq!(gen_cloze(&chunks, 1, &mut rand::thread_rng()).unwrap().len(), 1);
    assert_eq!(gen_cloze(&chunks, 0, &mut rand::thread_rng()).unwrap().len(), 0);
}

#[test]
fn the_parts_are_put_together_in_order() {
    let all = assemble(&vec![example("s")], 2, &vec![example("c")], &vec![example("z")]);
    let sources: Vec<String> = all.iter().map(|e| e.source.clone()).collect();
    assert_eq!(sources, vec!["s", "s", "c", "z"]);
}

#[test]
fn one_in_twenty_is_held_out() {
    let all: Vec<Example> = (0..59).map(|i| example(&format!("{i}"))).collect();
    let (train, val) = split_dataset(all);
    assert_eq!(val.len(), 2);
    assert_eq!(val[1].source, "1");
    assert_eq!(train.len(), 57);
    assert_eq!(train[0].source, "2");
}

#[test]
fn a_dataset_keeps_every_example() {
    let calc: Vec<Example> = (0..100).map(|i| example(&format!("{i:03}"))).collect();
    let (train, val) = build_dataset(&Vec::new(), 3, &calc, &Vec::new(), &mut rand::thread_rng());
    assert_eq!(val.len(), 5);
    let mut sources: Vec<String> =
        train.iter().chain(val.iter()).map(|e| e.source.clone()).collect();
    assert!(sources.windows(2).any(|w| w[0] > w[1]));
    sources.sort();
    let expected: Vec<String> = (0..100).map(|i| format!("{i:03}")).collect();
    assert_eq!(sources, expected);
}
