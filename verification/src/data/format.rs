//! The training-example schema and how it renders into one text sequence.
//!
//! An [`Example`] is the unit of supervised data. It renders into a flat string
//! with sentinel markers the model learns to recognize. The same markers are
//! used at inference to know where the answer starts and where tool calls live.
use crate::text::{
    from_chars, law_pieces_lie_between_cuts, pieces, pieces_of, strings, texts, to_chars, trim,
    trim_chars, trim_of, Cut,
};
use vstd::prelude::*;

verus! {

// Sentinel markers. Chosen to be extremely unlikely to occur in real notes.
pub const CTX: &'static str = "<|context|>";

pub const QUESTION: &'static str = "<|question|>";

pub const ANSWER: &'static str = "<|answer|>";

pub const END: &'static str = "<|end|>";

// Tool-call convention.
pub const TOOL_CALL_OPEN: &'static str = ">>tool:calculate(";

pub const TOOL_RESULT_OPEN: &'static str = ">>tool:result(";

/// One supervised example. `response` may already contain resolved tool calls
/// (`>>tool:calculate(...)` followed by `>>tool:result(...)`) inline.
#[derive(Debug)]
pub struct Example {
    pub context: String,
    pub question: String,
    pub response: String,
    pub source: String,
}

/// The model of an [`Example`].
pub struct ExampleModel {
    pub context: Seq<char>,
    pub question: Seq<char>,
    pub response: Seq<char>,
    pub source: Seq<char>,
}

impl View for Example {
    type V = ExampleModel;

    open spec fn view(&self) -> ExampleModel {
        ExampleModel {
            context: self.context@,
            question: self.question@,
            response: self.response@,
            source: self.source@,
        }
    }
}

/// The models of a sequence of examples.
pub open spec fn example_models(v: Seq<Example>) -> Seq<ExampleModel> {
    v.map_values(|e: Example| e@)
}

/// `text` on a line of its own.
pub open spec fn line_of(text: Seq<char>) -> Seq<char> {
    text.push('\n')
}

/// The prompt for `question`, up to and including the answer marker. A context
/// that is only white space is left out.
pub open spec fn prompt_of(context: Seq<char>, question: Seq<char>) -> Seq<char> {
    let grounding = if trim_of(context).len() == 0 {
        Seq::empty()
    } else {
        line_of(CTX@) + line_of(trim_of(context))
    };
    grounding + line_of(QUESTION@) + line_of(trim_of(question)) + line_of(ANSWER@)
}

impl ExampleModel {
    /// The flat training sequence.
    pub open spec fn rendered(self) -> Seq<char> {
        prompt_of(self.context, self.question) + line_of(trim_of(self.response)) + line_of(END@)
    }
}

/// Appends `text` and a newline.
fn push_line(s: &mut String, text: &str)
    ensures
        final(s)@ == old(s)@ + line_of(text@),
{
    s.append(text);
    s.push('\n');
    assert(s@ =~= old(s)@ + line_of(text@));
}

/// Formats the prompt for `question`, grounded in `context` unless that is
/// blank. An example renders to the same prompt followed by its response.
pub fn build_prompt(context: &str, question: &str) -> (r: String)
    ensures
        r@ == prompt_of(context@, question@),
{
    let mut s: String = String::new();
    let grounding: String = trim(context);
    if !grounding.as_str().is_empty() {
        push_line(&mut s, CTX);
        push_line(&mut s, grounding.as_str());
    }
    push_line(&mut s, QUESTION);
    push_line(&mut s, trim(question).as_str());
    push_line(&mut s, ANSWER);
    assert(s@ =~= prompt_of(context@, question@));
    s
}

impl Example {
    /// Renders to the flat training sequence. Context is omitted when empty.
    pub fn render(&self) -> (r: String)
        ensures
            r@ == self@.rendered(),
    {
        let mut s: String = build_prompt(self.context.as_str(), self.question.as_str());
        push_line(&mut s, trim(self.response.as_str()).as_str());
        push_line(&mut s, END);
        s
    }
}

impl Clone for Example {
    fn clone(&self) -> (r: Example)
        ensures
            r@ == self@,
    {
        Example {
            context: self.context.clone(),
            question: self.question.clone(),
            response: self.response.clone(),
            source: self.source.clone(),
        }
    }
}

/// The records of a JSON-lines text: its lines without surrounding white space,
/// blank ones left out.
pub open spec fn records_of(content: Seq<char>) -> Seq<Seq<char>> {
    pieces_of(content, Cut::Newline).map_values(|line: Seq<char>| trim_of(line)).filter(
        |line: Seq<char>| line.len() > 0,
    )
}

/// Splits a JSON-lines text into its records, in order.
pub fn records(content: &str) -> (r: Vec<String>)
    ensures
        strings(r@) == records_of(content@),
{
    let lines: Vec<Vec<char>> = pieces(&to_chars(content), Cut::Newline);
    let ghost trimmed = texts(lines@).map_values(|line: Seq<char>| trim_of(line));
    let ghost keep = |line: Seq<char>| line.len() > 0;
    let mut out: Vec<String> = Vec::new();
    let mut i: usize = 0;
    while i < lines.len()
        invariant
            i <= lines.len(),
            trimmed == texts(lines@).map_values(|line: Seq<char>| trim_of(line)),
            keep == (|line: Seq<char>| line.len() > 0),
            strings(out@) == trimmed.take(i as int).filter(keep),
        decreases lines.len() - i,
    {
        reveal(Seq::filter);
        assert(trimmed.take(i + 1).drop_last() =~= trimmed.take(i as int));
        let line: Vec<char> = trim_chars(&lines[i]);
        assert(trimmed.take(i + 1).last() == line@);
        if line.len() > 0 {
            let ghost kept = out@;
            let text: String = from_chars(&line);
            out.push(text);
            assert(strings(out@) =~= strings(kept).push(text@));
        }
        i += 1;
    }
    assert(trimmed.take(i as int) =~= trimmed);
    out
}

/// What an example trains the model to continue is the very prompt that a
/// question is asked with: the rendered example is that prompt, the response
/// and the end marker.
pub proof fn law_training_and_asking_agree(e: ExampleModel)
    ensures
        prompt_of(e.context, e.question).is_prefix_of(e.rendered()),
        e.rendered() == prompt_of(e.context, e.question) + line_of(trim_of(e.response)) + line_of(
            END@,
        ),
{
    let p = prompt_of(e.context, e.question);
    assert(e.rendered().take(p.len() as int) =~= p);
}

/// The prompt, line by line: the context's marker and the context, unless that is
/// blank, the question's marker and the question, and the answer's marker.
pub proof fn law_prompts_are_lines(context: Seq<char>, question: Seq<char>)
    ensures
        trim_of(context).len() > 0 ==> prompt_of(context, question) == "<|context|>\n"@ + trim_of(
            context,
        ) + "\n<|question|>\n"@ + trim_of(question) + "\n<|answer|>\n"@,
        trim_of(context).len() == 0 ==> prompt_of(context, question) == "<|question|>\n"@
            + trim_of(question) + "\n<|answer|>\n"@,
{
    reveal_strlit("<|context|>");
    reveal_strlit("<|context|>\n");
    reveal_strlit("<|question|>");
    reveal_strlit("<|question|>\n");
    reveal_strlit("\n<|question|>\n");
    reveal_strlit("<|answer|>");
    reveal_strlit("\n<|answer|>\n");
    let c = trim_of(context);
    let q = trim_of(question);
    assert(line_of(CTX@) =~= "<|context|>\n"@);
    assert(line_of(QUESTION@) =~= "<|question|>\n"@);
    assert(seq!['\n'] + "<|question|>\n"@ =~= "\n<|question|>\n"@);
    assert(seq!['\n'] + line_of(ANSWER@) =~= "\n<|answer|>\n"@);
    if c.len() > 0 {
        assert(prompt_of(context, question) =~= "<|context|>\n"@ + c + (seq!['\n']
            + "<|question|>\n"@) + q + (seq!['\n'] + line_of(ANSWER@)));
    } else {
        assert(prompt_of(context, question) =~= "<|question|>\n"@ + q + (seq!['\n'] + line_of(
            ANSWER@,
        )));
    }
}

/// A rendered example ends in its response and the end marker, each on a line.
pub proof fn law_examples_end_in_the_response(e: ExampleModel)
    ensures
        e.rendered() == prompt_of(e.context, e.question) + trim_of(e.response) + "\n<|end|>\n"@,
{
    reveal_strlit("<|end|>");
    reveal_strlit("\n<|end|>\n");
    assert(seq!['\n'] + line_of(END@) =~= "\n<|end|>\n"@);
    assert(e.rendered() =~= prompt_of(e.context, e.question) + trim_of(e.response) + (seq!['\n']
        + line_of(END@)));
}

/// The markers, and how tools are called.
pub proof fn law_markers()
    ensures
        CTX@ == "<|context|>"@,
        QUESTION@ == "<|question|>"@,
        ANSWER@ == "<|answer|>"@,
        END@ == "<|end|>"@,
        TOOL_CALL_OPEN@ == ">>tool:calculate("@,
        TOOL_RESULT_OPEN@ == ">>tool:result("@,
{
}

/// A line is a record, trimmed, unless it is blank; and a newline parts the records
/// before it from those behind.
pub proof fn law_records_are_lines(a: Seq<char>, b: Seq<char>)
    ensures
        records_of(a + "\n"@ + b) == records_of(a) + records_of(b),
        !a.contains('\n') && trim_of(a).len() > 0 ==> records_of(a) == seq![trim_of(a)],
        !a.contains('\n') && trim_of(a).len() == 0 ==> records_of(a).len() == 0,
{
    reveal_strlit("\n");
    assert("\n"@ =~= seq!['\n']);
    let trimmed = |line: Seq<char>| trim_of(line);
    let keep = |line: Seq<char>| line.len() > 0;
    law_pieces_lie_between_cuts(a, '\n', b, Cut::Newline);
    let left = pieces_of(a, Cut::Newline).map_values(trimmed);
    let right = pieces_of(b, Cut::Newline).map_values(trimmed);
    assert(pieces_of(a + seq!['\n'] + b, Cut::Newline).map_values(trimmed) =~= left + right);
    Seq::filter_distributes_over_add(left, right, keep);
    if !a.contains('\n') {
        assert forall|i: int| 0 <= i < a.len() implies !Cut::Newline.cuts(#[trigger] a[i]) by {
            assert(a.contains(a[i]));
        }
        reveal_with_fuel(Seq::filter, 2);
        assert(left =~= seq![trim_of(a)]);
        assert(left.drop_last() =~= Seq::empty());
        assert(Seq::<Seq<char>>::empty().push(trim_of(a)) =~= seq![trim_of(a)]);
    }
}

} // verus!
