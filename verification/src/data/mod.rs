//! Data pipeline: turn a messy Obsidian vault into clean training text and a
//! tokenizer. This is the front of the whole project — everything trains on
//! what comes out of here.
pub mod corpus;
pub mod format;
pub mod synth;
pub mod tokenizer;

use crate::data::corpus::{
    corpus_text, first_rejected, load_corpus, patterns_compile, Corpus, Note,
};
use crate::data::tokenizer::{
    built_from, law_built_vocab_fits, law_encoded_ids_in_range, law_round_trip,
    CharTokenizer, TokenizerModel,
};
use crate::pattern::PatternError;
use crate::text::{from_chars, same_text, slice_chars, to_chars};
use vstd::prelude::*;

verus! {

/// Token ids as the signed integers that tensors hold.
pub open spec fn as_signed(ids: Seq<u32>) -> Seq<i32> {
    ids.map_values(|x: u32| x as i32)
}

/// Token ids as the signed integers that tensors hold.
pub fn signed(ids: &Vec<u32>) -> (r: Vec<i32>)
    ensures
        r@ == as_signed(ids@),
{
    let mut out: Vec<i32> = Vec::new();
    let mut i: usize = 0;
    while i < ids.len()
        invariant
            i <= ids.len(),
            out@ == as_signed(ids@.take(i as int)),
        decreases ids.len() - i,
    {
        let ghost before = out@;
        out.push(ids[i] as i32);
        assert(as_signed(ids@.take(i + 1)) =~= before.push(ids@[i as int] as i32));
        i += 1;
    }
    assert(ids@.take(i as int) =~= ids@);
    out
}

/// Cleans the notes, builds a tokenizer, and returns the whole corpus as token
/// ids.
pub fn load_tokens(notes: &Vec<Note>) -> (r: Result<(Vec<i32>, CharTokenizer), PatternError>)
    ensures
        match r {
            Ok((ids, tok)) => {
                let text = corpus_text(notes@);
                &&& patterns_compile()
                &&& built_from(tok@, text)
                &&& ids@ == as_signed(tok@.encode(text))
                &&& forall|i: int|
                    0 <= i < ids@.len() ==> 0 <= #[trigger] ids@[i] < tok@.itos.len()
            },
            Err(e) => !patterns_compile() && e.pattern@ == first_rejected(),
        },
{
    let corpus: Corpus = match load_corpus(notes) {
        Ok(c) => c,
        Err(e) => {
            return Err(e);
        },
    };
    let tok: CharTokenizer = CharTokenizer::build(corpus.text.as_str());
    let codes: Vec<u32> = tok.encode(corpus.text.as_str());
    let ids: Vec<i32> = signed(&codes);
    proof {
        law_built_vocab_fits(tok@.itos);
        law_encoded_ids_in_range(tok@, corpus.text@);
        assert forall|i: int| 0 <= i < ids@.len() implies 0 <= #[trigger] ids@[i]
            < tok@.itos.len() by {
            assert(codes@[i] < tok@.itos.len());
        }
    }
    Ok((ids, tok))
}

/// How many characters of a corpus are shown as a sample.
pub const SAMPLE_CHARS: usize = 400;

/// What there is to report of a corpus.
#[derive(Debug)]
pub struct Survey {
    pub files: usize,
    pub chars: usize,
    pub vocab: usize,
    /// The first characters of the corpus.
    pub sample: String,
    /// Whether the sample survives encoding and decoding.
    pub round_trip: bool,
}

/// Takes stock of a corpus: its size, its vocabulary, and a sample that is sent
/// through the tokenizer and back.
pub fn survey(corpus: &Corpus) -> (r: Survey)
    ensures
        r.files == corpus.files,
        r.chars == corpus.text@.len(),
        exists|t: TokenizerModel| #[trigger]
            built_from(t, corpus.text@) && r.vocab == t.itos.len(),
        r.sample@ == if corpus.text@.len() <= SAMPLE_CHARS {
            corpus.text@
        } else {
            corpus.text@.take(SAMPLE_CHARS as int)
        },
        r.round_trip,
{
    let text: Vec<char> = to_chars(corpus.text.as_str());
    let tok: CharTokenizer = CharTokenizer::build(corpus.text.as_str());
    let end: usize = if text.len() < SAMPLE_CHARS {
        text.len()
    } else {
        SAMPLE_CHARS
    };
    let sample: String = from_chars(&slice_chars(&text, 0, end));
    let ids: Vec<u32> = tok.encode(sample.as_str());
    let back: String = tok.decode(ids.as_slice());
    let round_trip: bool = same_text(&to_chars(back.as_str()), &to_chars(sample.as_str()));
    proof {
        law_built_vocab_fits(tok@.itos);
        assert forall|i: int| 0 <= i < sample@.len() implies tok@.itos.contains(
            #[trigger] sample@[i],
        ) by {
            assert(corpus.text@[i] == sample@[i]);
            assert(corpus.text@.contains(sample@[i]));
        }
        law_round_trip(tok@, sample@);
        assert(built_from(tok@, corpus.text@));
        assert(corpus.text@.subrange(0, end as int) =~= sample@);
    }
    Survey { files: corpus.files, chars: text.len(), vocab: tok.vocab_size(), sample, round_trip }
}

/// Token ids below 2^31 keep their values as signed integers.
pub proof fn law_signed_ids_keep_their_values(ids: Seq<u32>, i: int)
    requires
        0 <= i < ids.len(),
        ids[i] < 0x8000_0000,
    ensures
        as_signed(ids).len() == ids.len(),
        as_signed(ids)[i] == ids[i],
{
}

/// A sample is 400 characters long.
pub proof fn law_samples_hold_400_characters()
    ensures
        SAMPLE_CHARS == 400,
{
}

} // verus!
