use ai_training::data::format::{build_prompt, records, Example};

fn example(context: &str, question: &str, response: &str) -> Example {
    Example {
        context: context.to_string(),
        question: question.to_string(),
        response: response.to_string(),
        source: "test".to_string(),
    }
}

#[test]
fn examples_render_with_markers() {
    assert_eq!(
        example(" The sky is blue. ", "What colour? ", "Blue.\n").render(),
        "<|context|>\nThe sky is blue.\n<|question|>\nWhat colour?\n<|answer|>\nBlue.\n<|end|>\n"
    );
}

#[test]
fn a_blank_context_is_left_out() {
    assert_eq!(
        example(" \n", "Q", "A").render(),
        "<|question|>\nQ\n<|answer|>\nA\n<|end|>\n"
    );
}

#[test]
fn training_and_asking_agree() {
    let e = example("C", "Q", "A");
    let prompt = build_prompt("C", "Q");
    assert_eq!(prompt, "<|context|>\nC\n<|question|>\nQ\n<|answer|>\n");
    assert_eq!(e.render(), format!("{prompt}A\n<|end|>\n"));
    assert_eq!(e.clone().render(), e.render());
}

#[test]
fn records_are_the_lines_that_hold_something() {
    assert_eq!(records("{\"a\":1}\r\n\n  {\"b\":2}  \n"), vec!["{\"a\":1}", "{\"b\":2}"]);
    assert_eq!(records(""), Vec::<String>::new());
}
