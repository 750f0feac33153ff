//! Lexical retrieval (BM25) over vault passages: the external "memory" the model
//! looks facts up in, rather than storing them in its weights.
//!
//! The index answers which passages hold which of the query's terms, and how
//! often; the passages are then ranked by a score that the caller computes from
//! those counts.
use crate::data::corpus::{
    chunk_models, chunks_of, first_rejected, load_chunks, patterns_compile, Chunk, ChunkModel, Note,
};
use crate::pattern::PatternError;
use crate::score::{
    law_ranked_descends, law_ranked_keeps_items, law_ranks_follow_the_numbers, magnitude,
    number_of, rank_of, ranked, top, top_of, Scored,
};
use crate::text::{
    from_chars, is_alphanumeric, is_white, join, join_of, law_runs_lie_between_cuts,
    law_words_lie_between_white_space, lemma_pieces_not_empty, pieces_of, runs, runs_of,
    same_text, slice_chars, texts, to_chars, words_of, Cut,
};
use vstd::hash_map::StringHashMap;
use vstd::prelude::*;

verus! {

// ---------------------------------------------------------------------------
// Terms
// ---------------------------------------------------------------------------

/// A name for the result of `str::to_lowercase`.
pub uninterp spec fn lowercase(s: Seq<char>) -> Seq<char>;

/// `str::to_lowercase`: the lowercase equivalent of the text by Unicode's
/// derived core property. The result is a function of the text alone.
#[verifier::external_body]
fn to_lowercase(s: &str) -> (r: String)
    ensures
        r@ == lowercase(s@),
{
    s.to_lowercase()
}

/// The terms of a text: the runs of letters and digits of its lowercase form.
pub open spec fn terms_of(text: Seq<char>) -> Seq<Seq<char>> {
    runs_of(lowercase(text), Cut::NonWord)
}

/// Lowercases and splits on non-alphanumeric boundaries. Simple but effective;
/// no stemming.
pub fn tokenize(s: &str) -> (r: Vec<Vec<char>>)
    ensures
        texts(r@) == terms_of(s@),
{
    runs(&to_chars(to_lowercase(s).as_str()), Cut::NonWord)
}

/// How often `term` is among `terms`.
pub open spec fn count_of(terms: Seq<Seq<char>>, term: Seq<char>) -> nat
    decreases terms.len(),
{
    if terms.len() == 0 {
        0
    } else {
        count_of(terms.drop_last(), term) + if terms.last() == term {
            1nat
        } else {
            0
        }
    }
}

proof fn lemma_count_bound(terms: Seq<Seq<char>>, term: Seq<char>)
    ensures
        count_of(terms, term) <= terms.len(),
    decreases terms.len(),
{
    if terms.len() > 0 {
        lemma_count_bound(terms.drop_last(), term);
    }
}

/// The documents that hold `term`, in order, each with how often it does.
pub open spec fn postings_of(docs: Seq<ChunkModel>, term: Seq<char>) -> Seq<(usize, usize)>
    decreases docs.len(),
{
    if docs.len() == 0 {
        Seq::empty()
    } else {
        let before = postings_of(docs.drop_last(), term);
        let count = count_of(terms_of(docs.last().text), term);
        if count > 0 {
            before.push(((docs.len() - 1) as usize, count as usize))
        } else {
            before
        }
    }
}

/// How many terms there are in all the documents.
pub open spec fn term_total(docs: Seq<ChunkModel>) -> nat
    decreases docs.len(),
{
    if docs.len() == 0 {
        0
    } else {
        term_total(docs.drop_last()) + terms_of(docs.last().text).len()
    }
}

// ---------------------------------------------------------------------------
// Postings
// ---------------------------------------------------------------------------

/// Posting lists by term.
struct Postings {
    slots: StringHashMap<usize>,
    lists: Vec<Vec<(usize, usize)>>,
}

/// A posting list after one more occurrence in `doc`.
spec fn bumped(list: Seq<(usize, usize)>, doc: usize) -> Seq<(usize, usize)> {
    if list.len() > 0 && list.last().0 == doc {
        list.drop_last().push((doc, (list.last().1 + 1) as usize))
    } else {
        list.push((doc, 1))
    }
}

impl Postings {
    spec fn wf(self) -> bool {
        &&& forall|t: Seq<char>| #[trigger]
            self.slots@.contains_key(t) ==> self.slots@[t] < self.lists@.len()
        &&& forall|t: Seq<char>, u: Seq<char>| #[trigger]
            self.slots@.contains_key(t) && #[trigger] self.slots@.contains_key(u) && self.slots@[t]
                == self.slots@[u] ==> t == u
    }

    /// The list of `term`; empty where the term is not known.
    spec fn list(self, term: Seq<char>) -> Seq<(usize, usize)> {
        if self.slots@.contains_key(term) {
            self.lists@[self.slots@[term] as int]@
        } else {
            Seq::empty()
        }
    }

    fn new() -> (r: Self)
        ensures
            r.wf(),
            forall|t: Seq<char>| #[trigger] r.list(t) == Seq::<(usize, usize)>::empty(),
    {
        Postings { slots: StringHashMap::new(), lists: Vec::new() }
    }

    /// Counts one more occurrence of `term` in `doc`.
    fn record(&mut self, term: &Vec<char>, doc: usize)
        requires
            old(self).wf(),
            old(self).list(term@).len() > 0 && old(self).list(term@).last().0 == doc ==> old(
                self,
            ).list(term@).last().1 < usize::MAX,
        ensures
            final(self).wf(),
            forall|t: Seq<char>| #[trigger]
                final(self).list(t) == if t == term@ {
                    bumped(old(self).list(t), doc)
                } else {
                    old(self).list(t)
                },
    {
        let key: String = from_chars(term);
        let found: Option<usize> = match self.slots.get(key.as_str()) {
            Some(slot) => Some(*slot),
            None => None,
        };
        match found {
            Some(slot) => {
                let ghost before = self.lists@;
                let mut list: Vec<(usize, usize)> = Vec::new();
                std::mem::swap(&mut list, &mut self.lists[slot]);
                assert(list@ == before[slot as int]@);
                let n: usize = list.len();
                if n > 0 && list[n - 1].0 == doc {
                    let count: usize = list[n - 1].1;
                    list.set(n - 1, (doc, count + 1));
                    assert(list@ =~= bumped(before[slot as int]@, doc));
                } else {
                    list.push((doc, 1));
                }
                self.lists.set(slot, list);
                assert forall|t: Seq<char>| #[trigger]
                    self.list(t) == if t == term@ {
                        bumped(old(self).list(t), doc)
                    } else {
                        old(self).list(t)
                    } by {
                    if self.slots@.contains_key(t) && t != term@ {
                        assert(self.slots@.contains_key(term@));
                        assert(self.slots@[t] != slot);
                    }
                }
            },
            None => {
                let slot: usize = self.lists.len();
                let mut list: Vec<(usize, usize)> = Vec::new();
                list.push((doc, 1));
                self.lists.push(list);
                self.slots.insert(key, slot);
                assert(list@ =~= bumped(Seq::empty(), doc));
            },
        }
    }
}

/// A posting list followed by `count` occurrences in `doc`, where there are any.
spec fn with_count(list: Seq<(usize, usize)>, doc: usize, count: nat) -> Seq<(usize, usize)> {
    if count > 0 {
        list.push((doc, count as usize))
    } else {
        list
    }
}

/// Whether every document's terms, and the documents themselves, can be counted.
pub open spec fn countable(docs: Seq<ChunkModel>) -> bool {
    &&& docs.len() <= usize::MAX
    &&& forall|d: int|
        0 <= d < docs.len() ==> terms_of(#[trigger] docs[d].text).len() <= usize::MAX
}

/// A posting list names each document that holds the term once, in order, with its
/// count.
pub proof fn law_postings_are_exact(docs: Seq<ChunkModel>, term: Seq<char>)
    requires
        countable(docs),
    ensures
        ({
            let list = postings_of(docs, term);
            &&& list.len() <= docs.len()
            &&& forall|i: int|
                0 <= i < list.len() ==> {
                    &&& #[trigger] list[i].0 < docs.len()
                    &&& list[i].1 == count_of(terms_of(docs[list[i].0 as int].text), term)
                    &&& list[i].1 > 0
                }
            &&& forall|i: int, j: int| 0 <= i < j < list.len() ==> list[i].0 < list[j].0
            &&& forall|d: int|
                0 <= d < docs.len() && count_of(terms_of(#[trigger] docs[d].text), term) > 0
                    ==> exists|i: int| 0 <= i < list.len() && #[trigger] list[i].0 == d
        }),
    decreases docs.len(),
{
    if docs.len() > 0 {
        let front = docs.drop_last();
        assert forall|d: int| 0 <= d < front.len() implies terms_of(#[trigger] front[d].text).len()
            <= usize::MAX by {
            assert(docs[d].text == front[d].text);
        }
        law_postings_are_exact(front, term);
        lemma_count_bound(terms_of(docs.last().text), term);
        assert(docs[docs.len() - 1].text == docs.last().text);
        let before = postings_of(front, term);
        let list = postings_of(docs, term);
        assert forall|d: int|
            0 <= d < docs.len() && count_of(terms_of(#[trigger] docs[d].text), term)
                > 0 implies exists|i: int| 0 <= i < list.len() && #[trigger] list[i].0 == d by {
            if d < docs.len() - 1 {
                assert(front[d].text == docs[d].text);
                let i = choose|i: int| 0 <= i < before.len() && #[trigger] before[i].0 == d;
                assert(list[i].0 == d);
            } else {
                assert(list[list.len() - 1].0 == d);
            }
        }
        assert forall|i: int| 0 <= i < list.len() implies {
            &&& #[trigger] list[i].0 < docs.len()
            &&& list[i].1 == count_of(terms_of(docs[list[i].0 as int].text), term)
            &&& list[i].1 > 0
        } by {
            if i < before.len() {
                assert(list[i] == before[i]);
                assert(front[before[i].0 as int].text == docs[before[i].0 as int].text);
            }
        }
    }
}

// ---------------------------------------------------------------------------
// The index
// ---------------------------------------------------------------------------

struct Doc {
    source: String,
    text: String,
    len: u32,
}

/// An index over passages. Its model is the passages it was built from.
pub struct Bm25Index {
    docs: Vec<Doc>,
    postings: Postings,
    total_len: u128,
}

/// What a sequence of documents holds.
spec fn doc_models(docs: Seq<Doc>) -> Seq<ChunkModel> {
    docs.map_values(|d: Doc| ChunkModel { source: d.source@, text: d.text@ })
}

impl View for Bm25Index {
    type V = Seq<ChunkModel>;

    closed spec fn view(&self) -> Seq<ChunkModel> {
        doc_models(self.docs@)
    }
}

impl Bm25Index {
    #[verifier::type_invariant]
    spec fn valid(self) -> bool {
        &&& self.postings.wf()
        &&& countable(self@)
        &&& forall|t: Seq<char>| #[trigger] self.postings.list(t) == postings_of(self@, t)
        &&& forall|d: int|
            0 <= d < self.docs@.len() ==> (#[trigger] self.docs@[d]).len == terms_of(
                self.docs@[d].text@,
            ).len() as u32
        &&& self.total_len == term_total(self@)
    }

    /// Builds an in-memory BM25 index from passages.
    pub fn build(chunks: Vec<Chunk>) -> (r: Self)
        ensures
            r@ == chunk_models(chunks@),
    {
        let ghost models = chunk_models(chunks@);
        let mut docs: Vec<Doc> = Vec::new();
        let mut postings: Postings = Postings::new();
        let mut total_len: u128 = 0;
        let mut i: usize = 0;
        assert(doc_models(docs@) =~= models.take(0));
        while i < chunks.len()
            invariant
                i <= chunks.len(),
                models == chunk_models(chunks@),
                doc_models(docs@) == models.take(i as int),
                docs@.len() == i,
                postings.wf(),
                countable(models.take(i as int)),
                forall|t: Seq<char>| #[trigger]
                    postings.list(t) == postings_of(models.take(i as int), t),
                forall|d: int|
                    0 <= d < i ==> (#[trigger] docs@[d]).len == terms_of(
                        docs@[d].text@,
                    ).len() as u32,
                total_len == term_total(models.take(i as int)),
                total_len <= i * usize::MAX,
            decreases chunks.len() - i,
        {
            let tokens: Vec<Vec<char>> = tokenize(chunks[i].text.as_str());
            let ghost terms = texts(tokens@);
            let ghost before = models.take(i as int);
            assert(models.take(i + 1).drop_last() =~= before);
            assert(models.take(i + 1).last() == models[i as int]);
            let mut k: usize = 0;
            while k < tokens.len()
                invariant
                    i < usize::MAX,
                    before.len() == i,
                    k <= tokens.len(),
                    countable(before),
                    terms == texts(tokens@),
                    postings.wf(),
                    forall|t: Seq<char>| #[trigger]
                        postings.list(t) == with_count(
                            postings_of(before, t),
                            i,
                            count_of(terms.take(k as int), t),
                        ),
                decreases tokens.len() - k,
            {
                let ghost term = tokens@[k as int]@;
                let ghost earlier = postings;
                proof {
                    assert(terms.take(k + 1).drop_last() =~= terms.take(k as int));
                    assert(terms.take(k + 1).last() == term);
                    law_postings_are_exact(before, term);
                    lemma_count_bound(terms.take(k as int), term);
                    let list = postings_of(before, term);
                    if list.len() > 0 {
                        assert(list[list.len() - 1].0 < i);
                    }
                    assert(postings.list(term) == with_count(
                        list,
                        i,
                        count_of(terms.take(k as int), term),
                    ));
                }
                postings.record(&tokens[k], i);
                assert forall|t: Seq<char>| #[trigger]
                    postings.list(t) == with_count(
                        postings_of(before, t),
                        i,
                        count_of(terms.take(k + 1), t),
                    ) by {
                    let list = postings_of(before, t);
                    assert(earlier.list(t) == with_count(
                        list,
                        i,
                        count_of(terms.take(k as int), t),
                    ));
                    if t == term {
                        assert(bumped(earlier.list(t), i) =~= with_count(
                            list,
                            i,
                            count_of(terms.take(k + 1), t),
                        ));
                    }
                }
                k += 1;
            }
            assert(terms.take(k as int) =~= terms);
            assert(terms == terms_of(models[i as int].text));
            assert(terms.len() == tokens@.len());
            proof {
                assert((i + 1) * usize::MAX == i * usize::MAX + usize::MAX) by (nonlinear_arith);
                assert((i + 1) * usize::MAX <= u128::MAX) by (nonlinear_arith)
                    requires
                        i < usize::MAX,
                ;
            }
            total_len = total_len + tokens.len() as u128;
            let ghost held = docs@;
            let doc: Doc = Doc {
                source: chunks[i].source.clone(),
                text: chunks[i].text.clone(),
                len: tokens.len() as u32,
            };
            docs.push(doc);
            assert(doc_models(docs@) =~= models.take(i + 1));
            assert forall|d: int| 0 <= d < models.take(i + 1).len() implies terms_of(
                #[trigger] models.take(i + 1)[d].text,
            ).len() <= usize::MAX by {
                if d < i {
                    assert(before[d].text == models.take(i + 1)[d].text);
                }
            }
            i += 1;
        }
        assert(models.take(i as int) =~= models);
        Bm25Index { docs, postings, total_len }
    }

    /// Builds directly from the notes of a vault.
    pub fn from_vault(notes: &Vec<Note>, chunk_words: usize) -> (r: Result<Self, PatternError>)
        ensures
            match r {
                Ok(index) => patterns_compile() && index@ == chunks_of(notes@, chunk_words as int),
                Err(e) => !patterns_compile() && e.pattern@ == first_rejected(),
            },
    {
        match load_chunks(notes, chunk_words) {
            Ok(chunks) => Ok(Self::build(chunks)),
            Err(e) => Err(e),
        }
    }

    /// How many passages there are.
    pub fn len(&self) -> (r: usize)
        ensures
            r == self@.len(),
    {
        self.docs.len()
    }

    /// How many terms there are in all the passages.
    pub fn total_len(&self) -> (r: u128)
        ensures
            r == term_total(self@),
    {
        proof {
            use_type_invariant(self);
        }
        self.total_len
    }
}

// ---------------------------------------------------------------------------
// Queries
// ---------------------------------------------------------------------------

/// Whether `a` comes before `b` in the order of their code points.
pub open spec fn comes_before(a: Seq<char>, b: Seq<char>) -> bool
    decreases a.len(),
{
    if b.len() == 0 {
        false
    } else if a.len() == 0 {
        true
    } else if a[0] == b[0] {
        comes_before(a.drop_first(), b.drop_first())
    } else {
        (a[0] as u32) < (b[0] as u32)
    }
}

/// `terms`, which is in order, with `term` put in its place unless it is there.
pub open spec fn placed(terms: Seq<Seq<char>>, term: Seq<char>) -> Seq<Seq<char>>
    decreases terms.len(),
{
    if terms.len() == 0 || comes_before(terms.last(), term) {
        terms.push(term)
    } else if terms.last() == term {
        terms
    } else {
        placed(terms.drop_last(), term).push(terms.last())
    }
}

/// The terms sorted, each once.
pub open spec fn distinct_of(terms: Seq<Seq<char>>) -> Seq<Seq<char>>
    decreases terms.len(),
{
    if terms.len() == 0 {
        Seq::empty()
    } else {
        placed(distinct_of(terms.drop_last()), terms.last())
    }
}

/// Whether `a` comes before `b`.
fn before(a: &Vec<char>, b: &Vec<char>) -> (r: bool)
    ensures
        r == comes_before(a@, b@),
{
    let mut i: usize = 0;
    assert(a@.skip(0) =~= a@);
    assert(b@.skip(0) =~= b@);
    while i < a.len() && i < b.len() && a[i] == b[i]
        invariant
            i <= a.len(),
            i <= b.len(),
            comes_before(a@, b@) == comes_before(a@.skip(i as int), b@.skip(i as int)),
        decreases a.len() - i,
    {
        assert(a@.skip(i as int).drop_first() =~= a@.skip(i + 1));
        assert(b@.skip(i as int).drop_first() =~= b@.skip(i + 1));
        i += 1;
    }
    if i == b.len() {
        false
    } else if i == a.len() {
        true
    } else {
        (a[i] as u32) < (b[i] as u32)
    }
}

/// Puts `term` in its place among `terms`, unless it is there.
fn place(terms: &mut Vec<Vec<char>>, term: &Vec<char>)
    ensures
        texts(final(terms)@) == placed(texts(old(terms)@), term@),
{
    let ghost all = texts(terms@);
    let mut at: usize = terms.len();
    assert(all.take(at as int) =~= all);
    assert(placed(all.take(at as int), term@) + all.skip(at as int) =~= placed(all, term@));
    while at > 0 && !before(&terms[at - 1], term)
        invariant
            at <= terms.len(),
            all == texts(terms@),
            terms@ == old(terms)@,
            placed(all.take(at as int), term@) + all.skip(at as int) == placed(all, term@),
        decreases at,
    {
        assert(all.take(at as int).last() == terms@[at - 1]@);
        if same_text(&terms[at - 1], term) {
            assert(all.take(at as int) + all.skip(at as int) =~= all);
            return;
        }
        assert(all.take(at as int).drop_last() =~= all.take(at - 1));
        assert(placed(all.take(at - 1), term@).push(all[at - 1]) + all.skip(at as int) =~= placed(
            all.take(at - 1),
            term@,
        ) + all.skip(at - 1));
        at -= 1;
    }
    let copy: Vec<char> = slice_chars(term, 0, term.len());
    assert(copy@ =~= term@);
    proof {
        if at > 0 {
            assert(all.take(at as int).last() == terms@[at - 1]@);
        }
    }
    terms.insert(at, copy);
    assert(texts(terms@) =~= all.take(at as int).push(term@) + all.skip(at as int));
}

/// Sorts the terms and drops repetitions.
fn distinct(tokens: &Vec<Vec<char>>) -> (r: Vec<Vec<char>>)
    ensures
        texts(r@) == distinct_of(texts(tokens@)),
{
    let mut out: Vec<Vec<char>> = Vec::new();
    let mut i: usize = 0;
    assert(texts(out@) =~= Seq::empty());
    while i < tokens.len()
        invariant
            i <= tokens.len(),
            texts(out@) == distinct_of(texts(tokens@).take(i as int)),
        decreases tokens.len() - i,
    {
        assert(texts(tokens@).take(i + 1).drop_last() =~= texts(tokens@).take(i as int));
        place(&mut out, &tokens[i]);
        i += 1;
    }
    assert(texts(tokens@).take(i as int) =~= texts(tokens@));
    out
}

/// A passage that holds some of the query's terms.
#[derive(Debug)]
pub struct Candidate {
    /// Which passage it is.
    pub doc: usize,
    /// How many terms the passage has.
    pub len: u32,
    /// For each term of the query that the passage holds, in order: how many
    /// passages hold it, and how often this one does.
    pub parts: Vec<(usize, u32)>,
}

/// The model of a [`Candidate`].
pub struct CandidateModel {
    pub doc: usize,
    pub len: u32,
    pub parts: Seq<(usize, u32)>,
}

impl View for Candidate {
    type V = CandidateModel;

    open spec fn view(&self) -> CandidateModel {
        CandidateModel { doc: self.doc, len: self.len, parts: self.parts@ }
    }
}

/// The models of a sequence of candidates.
pub open spec fn candidate_models(v: Seq<Candidate>) -> Seq<CandidateModel> {
    v.map_values(|c: Candidate| c@)
}

/// What the document `doc` has of each of `terms`: the number of documents that
/// hold the term, and how often this one does.
pub open spec fn parts_of(docs: Seq<ChunkModel>, terms: Seq<Seq<char>>, doc: int) -> Seq<
    (usize, u32),
>
    decreases terms.len(),
{
    if terms.len() == 0 {
        Seq::empty()
    } else {
        let earlier = parts_of(docs, terms.drop_last(), doc);
        let count = count_of(terms_of(docs[doc].text), terms.last());
        if count > 0 {
            earlier.push((postings_of(docs, terms.last()).len() as usize, count as u32))
        } else {
            earlier
        }
    }
}

/// The candidates among the first `n` documents, in order.
pub open spec fn candidates_upto(docs: Seq<ChunkModel>, terms: Seq<Seq<char>>, n: int) -> Seq<
    CandidateModel,
>
    decreases n,
{
    if n <= 0 {
        Seq::empty()
    } else {
        let earlier = candidates_upto(docs, terms, n - 1);
        let parts = parts_of(docs, terms, n - 1);
        if parts.len() > 0 {
            earlier.push(
                CandidateModel {
                    doc: (n - 1) as usize,
                    len: terms_of(docs[n - 1].text).len() as u32,
                    parts,
                },
            )
        } else {
            earlier
        }
    }
}

/// The documents that hold a term of the query, in order.
pub open spec fn candidates_of(docs: Seq<ChunkModel>, query: Seq<char>) -> Seq<CandidateModel> {
    candidates_upto(docs, distinct_of(terms_of(query)), docs.len() as int)
}

impl Bm25Index {
    /// Adds what each passage has of `term` to its parts.
    fn add_parts(&self, parts: &mut Vec<Vec<(usize, u32)>>, term: &Vec<char>, Ghost(
        terms,
    ): Ghost<Seq<Seq<char>>>)
        requires
            old(parts)@.len() == self@.len(),
            terms.len() > 0,
            terms.last() == term@,
            forall|d: int|
                0 <= d < self@.len() ==> (#[trigger] old(parts)@[d])@ == parts_of(
                    self@,
                    terms.drop_last(),
                    d,
                ),
        ensures
            final(parts)@.len() == self@.len(),
            forall|d: int|
                0 <= d < self@.len() ==> (#[trigger] final(parts)@[d])@ == parts_of(
                    self@,
                    terms,
                    d,
                ),
    {
        proof {
            use_type_invariant(self);
        }
        let key: String = from_chars(term);
        let slot: usize = match self.postings.slots.get(key.as_str()) {
            Some(slot) => *slot,
            None => {
                proof {
                    assert(self.postings.list(term@) == postings_of(self@, term@));
                    law_postings_are_exact(self@, term@);
                    assert forall|d: int| 0 <= d < self@.len() implies (#[trigger] parts@[d])@
                        == parts_of(self@, terms, d) by {
                        if count_of(terms_of(self@[d].text), term@) > 0 {
                            let i = choose|i: int|
                                0 <= i < postings_of(self@, term@).len() && #[trigger] postings_of(
                                    self@,
                                    term@,
                                )[i].0 == d;
                        }
                    }
                }
                return;
            },
        };
        let list: &Vec<(usize, usize)> = &self.postings.lists[slot];
        assert(list@ == self.postings.list(term@));
        assert(list@ == postings_of(self@, term@));
        proof {
            law_postings_are_exact(self@, term@);
        }
        let df: usize = list.len();
        let mut j: usize = 0;
        while j < list.len()
            invariant
                j <= list.len(),
                df == list@.len(),
                parts@.len() == self@.len(),
                terms.len() > 0,
                terms.last() == term@,
                list@ == postings_of(self@, term@),
                forall|i: int|
                    0 <= i < list@.len() ==> {
                        &&& #[trigger] list@[i].0 < self@.len()
                        &&& list@[i].1 == count_of(terms_of(self@[list@[i].0 as int].text), term@)
                        &&& list@[i].1 > 0
                    },
                forall|i: int, k: int| 0 <= i < k < list@.len() ==> list@[i].0 < list@[k].0,
                forall|d: int|
                    0 <= d < self@.len() ==> (#[trigger] parts@[d])@ == if j > 0 && d
                        <= list@[j - 1].0 {
                        parts_of(self@, terms, d)
                    } else {
                        parts_of(self@, terms.drop_last(), d)
                    },
                forall|d: int|
                    0 <= d < self@.len() && count_of(terms_of(#[trigger] self@[d].text), term@) > 0
                        ==> exists|i: int| 0 <= i < list@.len() && #[trigger] list@[i].0 == d,
            decreases list.len() - j,
        {
            let doc: usize = list[j].0;
            let tf: u32 = list[j].1 as u32;
            let ghost earlier = parts@;
            let mut held: Vec<(usize, u32)> = Vec::new();
            std::mem::swap(&mut held, &mut parts[doc]);
            held.push((df, tf));
            parts.set(doc, held);
            assert forall|d: int| 0 <= d < self@.len() implies (#[trigger] parts@[d])@ == if d
                <= list@[j as int].0 {
                parts_of(self@, terms, d)
            } else {
                parts_of(self@, terms.drop_last(), d)
            } by {
                if d == doc {
                    assert(earlier[d]@ == parts_of(self@, terms.drop_last(), d));
                } else {
                    assert(parts@[d] == earlier[d]);
                    if d < doc && (j == 0 || d > list@[j - 1].0) {
                        if count_of(terms_of(self@[d].text), term@) > 0 {
                            let i = choose|i: int|
                                0 <= i < list@.len() && #[trigger] list@[i].0 == d;
                            if i < j {
                                assert(list@[i].0 <= list@[j - 1].0);
                            } else {
                                assert(list@[i].0 >= list@[j as int].0);
                            }
                        }
                    }
                }
            }
            j += 1;
        }
        assert forall|d: int| 0 <= d < self@.len() implies (#[trigger] parts@[d])@ == parts_of(
            self@,
            terms,
            d,
        ) by {
            if j == 0 || d > list@[j - 1].0 {
                if count_of(terms_of(self@[d].text), term@) > 0 {
                    let i = choose|i: int| 0 <= i < list@.len() && #[trigger] list@[i].0 == d;
                    assert(list@[i].0 <= list@[j - 1].0);
                }
            }
        }
    }

    /// The passages that hold a term of `query`, in order, with what a score is
    /// made of.
    pub fn candidates(&self, query: &str) -> (r: Vec<Candidate>)
        ensures
            candidate_models(r@) == candidates_of(self@, query@),
    {
        proof {
            use_type_invariant(self);
        }
        let terms: Vec<Vec<char>> = distinct(&tokenize(query));
        let ghost all = texts(terms@);
        let n: usize = self.docs.len();
        let mut parts: Vec<Vec<(usize, u32)>> = Vec::new();
        let mut d: usize = 0;
        while d < n
            invariant
                d <= n,
                parts@.len() == d,
                forall|e: int| 0 <= e < d ==> (#[trigger] parts@[e])@ == Seq::<(usize, u32)>::empty(),
            decreases n - d,
        {
            parts.push(Vec::new());
            d += 1;
        }
        let mut k: usize = 0;
        while k < terms.len()
            invariant
                k <= terms.len(),
                all == texts(terms@),
                parts@.len() == self@.len(),
                forall|e: int|
                    0 <= e < self@.len() ==> (#[trigger] parts@[e])@ == parts_of(
                        self@,
                        all.take(k as int),
                        e,
                    ),
            decreases terms.len() - k,
        {
            assert(all.take(k + 1).drop_last() =~= all.take(k as int));
            self.add_parts(&mut parts, &terms[k], Ghost(all.take(k + 1)));
            k += 1;
        }
        assert(all.take(k as int) =~= all);
        let mut out: Vec<Candidate> = Vec::new();
        let mut d: usize = 0;
        assert(candidate_models(out@) =~= Seq::empty());
        while d < n
            invariant
                d <= n,
                n == self@.len(),
                n == self.docs@.len(),
                self@ == doc_models(self.docs@),
                forall|e: int|
                    0 <= e < self.docs@.len() ==> (#[trigger] self.docs@[e]).len == terms_of(
                        self.docs@[e].text@,
                    ).len() as u32,
                parts@.len() == n,
                forall|e: int|
                    d <= e < n ==> (#[trigger] parts@[e])@ == parts_of(self@, all, e),
                candidate_models(out@) == candidates_upto(self@, all, d as int),
            decreases n - d,
        {
            let mut held: Vec<(usize, u32)> = Vec::new();
            let ghost earlier = parts@;
            assert(earlier[d as int]@ == parts_of(self@, all, d as int));
            std::mem::swap(&mut held, &mut parts[d]);
            assert forall|e: int| d + 1 <= e < n implies (#[trigger] parts@[e])@ == parts_of(
                self@,
                all,
                e,
            ) by {
                assert(parts@[e] == earlier[e]);
            }
            if held.len() > 0 {
                let ghost made = out@;
                let c: Candidate = Candidate { doc: d, len: self.docs[d].len, parts: held };
                out.push(c);
                assert(candidate_models(out@) =~= candidate_models(made).push(c@));
            }
            d += 1;
        }
        out
    }
}

// ---------------------------------------------------------------------------
// Results
// ---------------------------------------------------------------------------

/// How many characters of a passage a result shows.
pub const SNIPPET_CHARS: usize = 240;

/// A passage that was found.
#[derive(Debug)]
pub struct SearchResult {
    /// The bits of its score.
    pub score: u32,
    pub source: String,
    pub snippet: String,
}

/// The model of a [`SearchResult`].
pub struct ResultModel {
    pub score: u32,
    pub source: Seq<char>,
    pub snippet: Seq<char>,
}

impl View for SearchResult {
    type V = ResultModel;

    open spec fn view(&self) -> ResultModel {
        ResultModel { score: self.score, source: self.source@, snippet: self.snippet@ }
    }
}

/// The models of a sequence of results.
pub open spec fn result_models(v: Seq<SearchResult>) -> Seq<ResultModel> {
    v.map_values(|x: SearchResult| x@)
}

/// The words of a text on one line, cut off after `max_chars` characters with an
/// ellipsis.
pub open spec fn snippet_of(text: Seq<char>, max_chars: int) -> Seq<char> {
    let flat = join_of(words_of(text), seq![' ']);
    if flat.len() > max_chars {
        flat.take(max_chars).push('…')
    } else {
        flat
    }
}

/// The first `max_chars` characters of `text`, single-lined for display.
pub fn snippet(text: &str, max_chars: usize) -> (r: String)
    ensures
        r@ == snippet_of(text@, max_chars as int),
{
    let mut space: Vec<char> = Vec::new();
    space.push(' ');
    assert(space@ =~= seq![' ']);
    let flat: Vec<char> = join(&runs(&to_chars(text), Cut::White), &space);
    if flat.len() > max_chars {
        let mut shown: Vec<char> = slice_chars(&flat, 0, max_chars);
        assert(shown@ =~= flat@.take(max_chars as int));
        shown.push('…');
        from_chars(&shown)
    } else {
        from_chars(&flat)
    }
}

/// The `k` best of the scored passages, as they are shown.
pub open spec fn results_of(docs: Seq<ChunkModel>, scored: Seq<Scored>, k: int) -> Seq<
    ResultModel,
> {
    top_of(scored, k).map_values(
        |x: Scored|
            ResultModel {
                score: x.1,
                source: docs[x.0 as int].source,
                snippet: snippet_of(docs[x.0 as int].text, SNIPPET_CHARS as int),
            },
    )
}

/// The candidates with their scores.
pub open spec fn scored_of(found: Seq<Candidate>, scores: Seq<u32>) -> Seq<Scored> {
    Seq::new(found.len(), |i: int| (found[i].doc, scores[i]))
}

impl Bm25Index {
    /// The `k` best of the scored passages, best first.
    pub fn best(&self, scored: &Vec<Scored>, k: usize) -> (r: Vec<SearchResult>)
        requires
            forall|i: int| 0 <= i < scored@.len() ==> (#[trigger] scored@[i]).0 < self@.len(),
        ensures
            result_models(r@) == results_of(self@, scored@, k as int),
    {
        let kept: Vec<Scored> = top(scored, k);
        let ghost docs = self@;
        let ghost shown = |x: Scored|
            ResultModel {
                score: x.1,
                source: docs[x.0 as int].source,
                snippet: snippet_of(docs[x.0 as int].text, SNIPPET_CHARS as int),
            };
        proof {
            lemma_top_members(scored@, k as int);
        }
        let mut out: Vec<SearchResult> = Vec::new();
        let mut i: usize = 0;
        assert(result_models(out@) =~= kept@.take(0).map_values(shown));
        while i < kept.len()
            invariant
                i <= kept.len(),
                docs == self@,
                self@ == doc_models(self.docs@),
                shown == (|x: Scored|
                    ResultModel {
                        score: x.1,
                        source: docs[x.0 as int].source,
                        snippet: snippet_of(docs[x.0 as int].text, SNIPPET_CHARS as int),
                    }),
                forall|j: int| 0 <= j < kept@.len() ==> (#[trigger] kept@[j]).0 < self@.len(),
                result_models(out@) == kept@.take(i as int).map_values(shown),
            decreases kept.len() - i,
        {
            let x: Scored = kept[i];
            let doc: &Doc = &self.docs[x.0];
            let ghost made = out@;
            let found: SearchResult = SearchResult {
                score: x.1,
                source: doc.source.clone(),
                snippet: snippet(doc.text.as_str(), SNIPPET_CHARS),
            };
            assert(found@ == shown(x));
            out.push(found);
            assert(result_models(out@) =~= result_models(made).push(found@));
            assert(kept@.take(i + 1).map_values(shown) =~= kept@.take(i as int).map_values(
                shown,
            ).push(shown(x)));
            i += 1;
        }
        assert(kept@.take(i as int) =~= kept@);
        out
    }

    /// The top `k` passages for `query`, ranked by the scores that `weigh` gives
    /// to the candidates. Equal scores stay in the order of the passages.
    pub fn search<F: Fn(&Candidate) -> u32>(&self, query: &str, k: usize, weigh: F) -> (r: Vec<
        SearchResult,
    >)
        requires
            forall|c: &Candidate| call_requires(weigh, (c,)),
        ensures
            exists|found: Seq<Candidate>, scores: Seq<u32>|
                {
                    &&& candidate_models(found) == candidates_of(self@, query@)
                    &&& scores.len() == found.len()
                    &&& forall|i: int|
                        0 <= i < found.len() ==> call_ensures(
                            weigh,
                            (&found[i],),
                            #[trigger] scores[i],
                        )
                    &&& result_models(r@) == #[trigger] results_of(
                        self@,
                        scored_of(found, scores),
                        k as int,
                    )
                },
    {
        let found: Vec<Candidate> = self.candidates(query);
        let mut scored: Vec<Scored> = Vec::new();
        let ghost mut scores: Seq<u32> = Seq::empty();
        let mut i: usize = 0;
        while i < found.len()
            invariant
                i <= found.len(),
                scored@.len() == i,
                scores.len() == i,
                forall|c: &Candidate| call_requires(weigh, (c,)),
                forall|j: int|
                    0 <= j < i ==> call_ensures(weigh, (&found@[j],), #[trigger] scores[j]),
                forall|j: int|
                    0 <= j < i ==> #[trigger] scored@[j] == (found@[j].doc, scores[j]),
            decreases found.len() - i,
        {
            let score: u32 = weigh(&found[i]);
            scored.push((found[i].doc, score));
            proof {
                scores = scores.push(score);
            }
            i += 1;
        }
        assert(scored@ =~= scored_of(found@, scores));
        proof {
            use_type_invariant(self);
            let models = candidate_models(found@);
            lemma_candidates(self@, distinct_of(terms_of(query@)), self@.len() as int);
            assert forall|j: int| 0 <= j < scored@.len() implies (#[trigger] scored@[j]).0
                < self@.len() by {
                assert(models[j].doc == found@[j].doc);
            }
        }
        self.best(&scored, k)
    }
}

proof fn lemma_candidates(docs: Seq<ChunkModel>, terms: Seq<Seq<char>>, n: int)
    requires
        n <= docs.len() <= usize::MAX,
    ensures
        forall|i: int|
            0 <= i < candidates_upto(docs, terms, n).len() ==> (#[trigger] candidates_upto(
                docs,
                terms,
                n,
            )[i]).doc < n,
    decreases n,
{
    if n > 0 {
        lemma_candidates(docs, terms, n - 1);
        let earlier = candidates_upto(docs, terms, n - 1);
        assert forall|i: int| 0 <= i < candidates_upto(docs, terms, n).len() implies (
        #[trigger] candidates_upto(docs, terms, n)[i]).doc < n by {
            if i < earlier.len() {
                assert(earlier[i].doc < n - 1);
            }
        }
    }
}

/// What is among the best was among the scored.
proof fn lemma_top_members(scored: Seq<Scored>, k: int)
    requires
        0 <= k,
    ensures
        forall|i: int|
            0 <= i < top_of(scored, k).len() ==> scored.contains(#[trigger] top_of(scored, k)[i]),
{
    law_ranked_keeps_items(scored);
    let all = ranked(scored);
    assert forall|i: int| 0 <= i < top_of(scored, k).len() implies scored.contains(
        #[trigger] top_of(scored, k)[i],
    ) by {
        let x = top_of(scored, k)[i];
        assert(all[i] == x);
        all.to_multiset_ensures();
        scored.to_multiset_ensures();
        assert(all.contains(x));
        assert(all.to_multiset().count(x) > 0);
    }
}

// ---------------------------------------------------------------------------
// Laws
// ---------------------------------------------------------------------------

/// Characters with the same code point are the same.
proof fn lemma_code_point(c: char, d: char)
    ensures
        c as u32 == d as u32 ==> c == d,
{
}

/// Texts are ordered totally.
proof fn lemma_order_is_total(a: Seq<char>, b: Seq<char>)
    ensures
        comes_before(a, b) || comes_before(b, a) || a == b,
    decreases a.len(),
{
    if a.len() == 0 {
        if b.len() == 0 {
            assert(a =~= b);
        }
    } else if b.len() > 0 {
        lemma_code_point(a[0], b[0]);
        if a[0] == b[0] {
            lemma_order_is_total(a.drop_first(), b.drop_first());
            if a.drop_first() == b.drop_first() {
                assert(a =~= seq![a[0]] + a.drop_first());
                assert(b =~= seq![b[0]] + b.drop_first());
            }
        }
    }
}

proof fn lemma_order_is_transitive(a: Seq<char>, b: Seq<char>, c: Seq<char>)
    requires
        comes_before(a, b),
        comes_before(b, c),
    ensures
        comes_before(a, c),
    decreases a.len(),
{
    if a.len() > 0 && a[0] == b[0] && b[0] == c[0] {
        lemma_order_is_transitive(a.drop_first(), b.drop_first(), c.drop_first());
    }
}

/// Whether each text comes before all that follow it.
pub open spec fn is_sorted(terms: Seq<Seq<char>>) -> bool {
    forall|i: int, j: int| 0 <= i < j < terms.len() ==> comes_before(terms[i], terms[j])
}

proof fn lemma_placed(terms: Seq<Seq<char>>, term: Seq<char>)
    requires
        is_sorted(terms),
    ensures
        is_sorted(placed(terms, term)),
        forall|t: Seq<char>| #[trigger]
            placed(terms, term).contains(t) <==> terms.contains(t) || t == term,
    decreases terms.len(),
{
    let out = placed(terms, term);
    if terms.len() == 0 || comes_before(terms.last(), term) {
        assert forall|i: int, j: int| 0 <= i < j < out.len() implies comes_before(
            out[i],
            out[j],
        ) by {
            if j == out.len() - 1 && i < j - 1 {
                lemma_order_is_transitive(terms[i], terms.last(), term);
            }
        }
        assert forall|t: Seq<char>| #[trigger] out.contains(t) <==> terms.contains(t) || t
            == term by {
            if terms.contains(t) {
                assert(out[terms.index_of(t)] == t);
            }
            assert(out[terms.len() as int] == term);
        }
    } else if terms.last() != term {
        let front = placed(terms.drop_last(), term);
        lemma_placed(terms.drop_last(), term);
        lemma_order_is_total(terms.last(), term);
        assert forall|i: int, j: int| 0 <= i < j < out.len() implies comes_before(
            out[i],
            out[j],
        ) by {
            if j == out.len() - 1 {
                assert(front.contains(front[i]));
                if front[i] != term {
                    let k = terms.drop_last().index_of(front[i]);
                    assert(comes_before(terms[k], terms[terms.len() - 1]));
                }
            }
        }
        assert forall|t: Seq<char>| #[trigger] out.contains(t) <==> terms.contains(t) || t
            == term by {
            if out.contains(t) {
                let k = out.index_of(t);
                if k < front.len() {
                    assert(front[k] == t);
                    assert(front.contains(t));
                    if t != term {
                        assert(terms[terms.drop_last().index_of(t)] == t);
                    }
                } else {
                    assert(terms[terms.len() - 1] == t);
                }
            }
            if terms.contains(t) || t == term {
                if t == terms.last() {
                    assert(out[out.len() - 1] == t);
                } else {
                    if terms.contains(t) {
                        assert(terms.drop_last()[terms.index_of(t)] == t);
                    }
                    assert(front.contains(t));
                    assert(out[front.index_of(t)] == t);
                }
            }
        }
    }
}

/// The terms of a query are looked up in order, and each of them once.
pub proof fn law_query_terms_are_distinct(terms: Seq<Seq<char>>)
    ensures
        is_sorted(distinct_of(terms)),
        forall|t: Seq<char>| #[trigger] distinct_of(terms).contains(t) <==> terms.contains(t),
    decreases terms.len(),
{
    if terms.len() > 0 {
        law_query_terms_are_distinct(terms.drop_last());
        let before = distinct_of(terms.drop_last());
        lemma_placed(before, terms.last());
        assert forall|t: Seq<char>| #[trigger] distinct_of(terms).contains(t) <==> terms.contains(
            t,
        ) by {
            if terms.contains(t) {
                let k = terms.index_of(t);
                if k < terms.len() - 1 {
                    assert(terms.drop_last()[k] == t);
                    assert(before.contains(t));
                }
            }
            if before.contains(t) {
                assert(terms[terms.drop_last().index_of(t)] == t);
            }
            assert(terms[terms.len() - 1] == terms.last());
        }
    }
}

proof fn lemma_count_is_membership(terms: Seq<Seq<char>>, term: Seq<char>)
    ensures
        count_of(terms, term) > 0 <==> terms.contains(term),
    decreases terms.len(),
{
    if terms.len() > 0 {
        lemma_count_is_membership(terms.drop_last(), term);
        if terms.contains(term) {
            let k = terms.index_of(term);
            if k < terms.len() - 1 {
                assert(terms.drop_last()[k] == term);
            }
        }
        if terms.drop_last().contains(term) {
            assert(terms[terms.drop_last().index_of(term)] == term);
        }
        assert(terms[terms.len() - 1] == terms.last());
    }
}

/// A document has parts exactly where it holds one of the terms.
proof fn lemma_parts(docs: Seq<ChunkModel>, terms: Seq<Seq<char>>, doc: int)
    ensures
        parts_of(docs, terms, doc).len() > 0 <==> exists|t: Seq<char>| #[trigger]
            terms.contains(t) && terms_of(docs[doc].text).contains(t),
    decreases terms.len(),
{
    let held = terms_of(docs[doc].text);
    if terms.len() > 0 {
        let front = terms.drop_last();
        lemma_parts(docs, front, doc);
        lemma_count_is_membership(held, terms.last());
        if held.contains(terms.last()) {
            assert(terms[terms.len() - 1] == terms.last());
            assert(terms.contains(terms.last()));
        }
        if exists|t: Seq<char>| #[trigger] front.contains(t) && held.contains(t) {
            let t = choose|t: Seq<char>| #[trigger] front.contains(t) && held.contains(t);
            assert(terms[front.index_of(t)] == t);
            assert(terms.contains(t));
        }
        if exists|t: Seq<char>| #[trigger] terms.contains(t) && held.contains(t) {
            let t = choose|t: Seq<char>| #[trigger] terms.contains(t) && held.contains(t);
            let k = terms.index_of(t);
            if k < terms.len() - 1 {
                assert(front[k] == t);
                assert(front.contains(t));
            }
        }
    }
}

proof fn lemma_candidates_are(docs: Seq<ChunkModel>, terms: Seq<Seq<char>>, n: int, doc: int)
    requires
        n <= docs.len() <= usize::MAX,
        0 <= doc,
    ensures
        (exists|i: int|
            0 <= i < candidates_upto(docs, terms, n).len() && (#[trigger] candidates_upto(
                docs,
                terms,
                n,
            )[i]).doc == doc) <==> doc < n && parts_of(docs, terms, doc).len() > 0,
    decreases n,
{
    if n > 0 {
        lemma_candidates_are(docs, terms, n - 1, doc);
        lemma_candidates(docs, terms, n - 1);
        let earlier = candidates_upto(docs, terms, n - 1);
        let all = candidates_upto(docs, terms, n);
        if doc < n && parts_of(docs, terms, doc).len() > 0 {
            if doc == n - 1 {
                assert(all[all.len() - 1].doc == doc);
            } else {
                let i = choose|i: int| 0 <= i < earlier.len() && (#[trigger] earlier[i]).doc == doc;
                assert(all[i].doc == doc);
            }
        }
        if exists|i: int| 0 <= i < all.len() && (#[trigger] all[i]).doc == doc {
            let i = choose|i: int| 0 <= i < all.len() && (#[trigger] all[i]).doc == doc;
            if i < earlier.len() {
                assert(earlier[i].doc == doc);
            }
        }
    }
}

/// A query finds exactly the passages that share a term with it.
pub proof fn law_candidates_share_a_term(docs: Seq<ChunkModel>, query: Seq<char>, doc: int)
    requires
        0 <= doc < docs.len() <= usize::MAX,
    ensures
        (exists|i: int|
            0 <= i < candidates_of(docs, query).len() && (#[trigger] candidates_of(
                docs,
                query,
            )[i]).doc == doc) <==> exists|t: Seq<char>| #[trigger]
            terms_of(query).contains(t) && terms_of(docs[doc].text).contains(t),
{
    let terms = distinct_of(terms_of(query));
    law_query_terms_are_distinct(terms_of(query));
    lemma_candidates_are(docs, terms, docs.len() as int, doc);
    lemma_parts(docs, terms, doc);
    let held = terms_of(docs[doc].text);
    if exists|t: Seq<char>| #[trigger] terms.contains(t) && held.contains(t) {
        let t = choose|t: Seq<char>| #[trigger] terms.contains(t) && held.contains(t);
        assert(terms_of(query).contains(t));
    }
    if exists|t: Seq<char>| #[trigger] terms_of(query).contains(t) && held.contains(t) {
        let t = choose|t: Seq<char>| #[trigger] terms_of(query).contains(t) && held.contains(t);
        assert(terms.contains(t));
        let upto = candidates_upto(docs, terms, docs.len() as int);
        let i = choose|i: int| 0 <= i < upto.len() && (#[trigger] upto[i]).doc == doc;
        assert(candidates_of(docs, query)[i].doc == doc);
    }
    if exists|i: int|
        0 <= i < candidates_of(docs, query).len() && (#[trigger] candidates_of(docs, query)[i]).doc
            == doc {
        let i = choose|i: int|
            0 <= i < candidates_of(docs, query).len() && (#[trigger] candidates_of(
                docs,
                query,
            )[i]).doc == doc;
        assert(candidates_upto(docs, terms, docs.len() as int)[i].doc == doc);
    }
}

/// A search gives as many results as there are candidates, but no more than were
/// asked for.
pub proof fn law_results_are_at_most_k(docs: Seq<ChunkModel>, scored: Seq<Scored>, k: int)
    requires
        0 <= k,
    ensures
        results_of(docs, scored, k).len() == if scored.len() <= k {
            scored.len() as int
        } else {
            k
        },
{
    law_ranked_keeps_items(scored);
}

/// Results come in descending order of their scores.
pub proof fn law_results_descend(docs: Seq<ChunkModel>, scored: Seq<Scored>, k: int, i: int, j: int)
    requires
        0 <= k,
        0 <= i < j < results_of(docs, scored, k).len(),
    ensures
        rank_of(results_of(docs, scored, k)[i].score) >= rank_of(
            results_of(docs, scored, k)[j].score,
        ),
{
    law_ranked_descends(scored);
    let best = ranked(scored);
    assert(rank_of(best[i].1) >= rank_of(best[j].1));
}

/// Whether a text holds no white space.
spec fn is_solid(s: Seq<char>) -> bool {
    forall|i: int| 0 <= i < s.len() ==> !is_white(#[trigger] s[i])
}

proof fn lemma_pieces_solid(s: Seq<char>)
    ensures
        forall|k: int|
            0 <= k < pieces_of(s, Cut::White).len() ==> is_solid(
                #[trigger] pieces_of(s, Cut::White)[k],
            ),
    decreases s.len(),
{
    if s.len() > 0 {
        lemma_pieces_solid(s.drop_last());
        lemma_pieces_not_empty(s.drop_last(), Cut::White);
        let before = pieces_of(s.drop_last(), Cut::White);
        let all = pieces_of(s, Cut::White);
        assert forall|k: int| 0 <= k < all.len() implies is_solid(#[trigger] all[k]) by {
            if k < before.len() - 1 || Cut::White.cuts(s.last()) && k < before.len() {
                assert(all[k] == before[k]);
            } else if k == before.len() - 1 {
                assert(is_solid(before[k]));
            }
        }
    }
}

proof fn lemma_words_solid(s: Seq<char>, k: int)
    requires
        0 <= k < words_of(s).len(),
    ensures
        is_solid(words_of(s)[k]),
{
    lemma_pieces_solid(s);
    lemma_filtered(pieces_of(s, Cut::White), |p: Seq<char>| p.len() > 0, k);
}

proof fn lemma_filtered(s: Seq<Seq<char>>, keep: spec_fn(Seq<char>) -> bool, k: int)
    requires
        0 <= k < s.filter(keep).len(),
    ensures
        exists|i: int| 0 <= i < s.len() && #[trigger] s[i] == s.filter(keep)[k],
    decreases s.len(),
{
    reveal(Seq::filter);
    if s.len() > 0 {
        let front = s.drop_last();
        if k < front.filter(keep).len() {
            lemma_filtered(front, keep, k);
            let i = choose|i: int| 0 <= i < front.len() && #[trigger] front[i] == front.filter(keep)[k];
            assert(s[i] == s.filter(keep)[k]);
        } else {
            assert(s[s.len() - 1] == s.filter(keep)[k]);
        }
    }
}

proof fn lemma_joined_solid(parts: Seq<Seq<char>>)
    requires
        forall|k: int| 0 <= k < parts.len() ==> is_solid(#[trigger] parts[k]),
    ensures
        forall|i: int|
            0 <= i < join_of(parts, seq![' ']).len() && is_white(
                #[trigger] join_of(parts, seq![' '])[i],
            ) ==> join_of(parts, seq![' '])[i] == ' ',
    decreases parts.len(),
{
    if parts.len() == 1 {
        assert(is_solid(parts[0]));
    } else if parts.len() > 1 {
        let front = parts.drop_last();
        assert forall|k: int| 0 <= k < front.len() implies is_solid(#[trigger] front[k]) by {
            assert(is_solid(parts[k]));
        }
        lemma_joined_solid(front);
        assert(is_solid(parts[parts.len() - 1]));
        let head = join_of(front, seq![' ']);
        let whole = join_of(parts, seq![' ']);
        assert forall|i: int| 0 <= i < whole.len() && is_white(
            #[trigger] whole[i],
        ) implies whole[i] == ' ' by {
            if i < head.len() {
                assert(whole[i] == head[i]);
            } else if i > head.len() {
                assert(whole[i] == parts.last()[i - head.len() - 1]);
            }
        }
    }
}

/// A snippet is one line: the only white space in it is the blank. It is no
/// longer than asked for, but for the ellipsis.
pub proof fn law_snippet_is_one_line(text: Seq<char>, max_chars: int)
    requires
        0 <= max_chars,
    ensures
        snippet_of(text, max_chars).len() <= max_chars + 1,
        forall|i: int|
            0 <= i < snippet_of(text, max_chars).len() && is_white(
                #[trigger] snippet_of(text, max_chars)[i],
            ) ==> snippet_of(text, max_chars)[i] == ' ',
{
    let words = words_of(text);
    let flat = join_of(words, seq![' ']);
    assert forall|k: int| 0 <= k < words.len() implies is_solid(#[trigger] words[k]) by {
        lemma_words_solid(text, k);
    }
    lemma_joined_solid(words);
    assert forall|i: int|
        0 <= i < snippet_of(text, max_chars).len() && is_white(
            #[trigger] snippet_of(text, max_chars)[i],
        ) implies snippet_of(text, max_chars)[i] == ' ' by {
        if i < flat.len() && i < max_chars || flat.len() <= max_chars {
            assert(snippet_of(text, max_chars)[i] == flat[i]);
        }
    }
}

/// The terms of a text are the stretches of letters and digits of its lowercase
/// form: whatever is neither parts the terms before it from those behind.
pub proof fn law_terms_are_runs_of_the_lowercase_text(
    text: Seq<char>,
    a: Seq<char>,
    c: char,
    b: Seq<char>,
)
    ensures
        lowercase(text) == a + seq![c] + b && !is_alphanumeric(c) ==> terms_of(text) == runs_of(
            a,
            Cut::NonWord,
        ) + runs_of(b, Cut::NonWord),
        lowercase(text).len() == 0 ==> terms_of(text).len() == 0,
        lowercase(text).len() > 0 && (forall|i: int|
            0 <= i < lowercase(text).len() ==> is_alphanumeric(#[trigger] lowercase(text)[i]))
            ==> terms_of(text) == seq![lowercase(text)],
{
    let low = lowercase(text);
    if !is_alphanumeric(c) {
        law_runs_lie_between_cuts(a, c, b, Cut::NonWord);
    }
    lemma_uncut_run(low);
}

proof fn lemma_uncut_run(low: Seq<char>)
    ensures
        low.len() == 0 ==> runs_of(low, Cut::NonWord).len() == 0,
        low.len() > 0 && (forall|i: int|
            0 <= i < low.len() ==> is_alphanumeric(#[trigger] low[i])) ==> runs_of(
            low,
            Cut::NonWord,
        ) == seq![low],
{
    reveal_with_fuel(Seq::filter, 2);
    if low.len() == 0 {
        assert(pieces_of(low, Cut::NonWord).drop_last() =~= Seq::empty());
    } else if forall|i: int| 0 <= i < low.len() ==> is_alphanumeric(#[trigger] low[i]) {
        lemma_one_piece(low);
        let one = seq![low];
        assert(one.drop_last() =~= Seq::empty());
        assert(Seq::<Seq<char>>::empty().push(low) =~= one);
    }
}

proof fn lemma_one_piece(low: Seq<char>)
    requires
        forall|i: int| 0 <= i < low.len() ==> is_alphanumeric(#[trigger] low[i]),
    ensures
        pieces_of(low, Cut::NonWord) == seq![low],
    decreases low.len(),
{
    if low.len() > 0 {
        let front = low.drop_last();
        assert forall|i: int| 0 <= i < front.len() implies is_alphanumeric(#[trigger] front[i]) by {
            assert(front[i] == low[i]);
        }
        lemma_one_piece(front);
        assert(is_alphanumeric(low[low.len() - 1]));
        assert(front.push(low.last()) =~= low);
        assert(pieces_of(low, Cut::NonWord) =~= seq![low]);
    } else {
        assert(low =~= Seq::empty());
    }
}

/// A term is counted as often as it stands among the terms.
pub proof fn law_terms_are_counted(terms: Seq<Seq<char>>, term: Seq<char>)
    ensures
        count_of(terms, term) == terms.filter(|t: Seq<char>| t == term).len(),
    decreases terms.len(),
{
    reveal(Seq::filter);
    if terms.len() > 0 {
        law_terms_are_counted(terms.drop_last(), term);
    }
}

/// As many documents are listed for a term as hold it.
pub proof fn law_documents_are_counted(docs: Seq<ChunkModel>, term: Seq<char>)
    ensures
        postings_of(docs, term).len() == docs.filter(
            |d: ChunkModel| terms_of(d.text).contains(term),
        ).len(),
    decreases docs.len(),
{
    reveal(Seq::filter);
    if docs.len() > 0 {
        law_documents_are_counted(docs.drop_last(), term);
        lemma_count_is_membership(terms_of(docs.last().text), term);
    }
}

/// All the terms of all the documents are counted.
pub proof fn law_all_terms_are_counted(a: Seq<ChunkModel>, b: Seq<ChunkModel>, d: ChunkModel)
    ensures
        term_total(a + b) == term_total(a) + term_total(b),
        term_total(seq![d]) == terms_of(d.text).len(),
    decreases b.len(),
{
    reveal_with_fuel(term_total, 2);
    assert(seq![d].drop_last() =~= Seq::empty());
    if b.len() == 0 {
        assert(a + b =~= a);
    } else {
        law_all_terms_are_counted(a, b.drop_last(), d);
        assert((a + b).drop_last() =~= a + b.drop_last());
    }
}

/// The order of texts: at the first place where they differ the one with the lesser
/// character comes before, or the one that has already ended.
pub proof fn law_texts_are_in_dictionary_order(a: Seq<char>, b: Seq<char>)
    ensures
        comes_before(a, b) <==> exists|k: int|
            0 <= k <= a.len() && k < b.len() && a.take(k) == #[trigger] b.take(k) && (k == a.len()
                || k < a.len() && (a[k] as u32) < (b[k] as u32)),
    decreases a.len(),
{
    if comes_before(a, b) {
        if a.len() == 0 {
            assert(a.take(0) =~= b.take(0));
        } else if a[0] == b[0] {
            let x = a.drop_first();
            let y = b.drop_first();
            law_texts_are_in_dictionary_order(x, y);
            let k = choose|k: int|
                0 <= k <= x.len() && k < y.len() && x.take(k) == #[trigger] y.take(k) && (k
                    == x.len() || k < x.len() && (x[k] as u32) < (y[k] as u32));
            assert(a.take(k + 1) =~= seq![a[0]] + x.take(k));
            assert(b.take(k + 1) =~= seq![b[0]] + y.take(k));
        } else {
            assert(a.take(0) =~= b.take(0));
        }
    }
    if exists|k: int|
        0 <= k <= a.len() && k < b.len() && a.take(k) == #[trigger] b.take(k) && (k == a.len() || k
            < a.len() && (a[k] as u32) < (b[k] as u32)) {
        let k = choose|k: int|
            0 <= k <= a.len() && k < b.len() && a.take(k) == #[trigger] b.take(k) && (k == a.len()
                || k < a.len() && (a[k] as u32) < (b[k] as u32));
        if k > 0 {
            assert(a.take(k)[0] == b.take(k)[0]);
            let x = a.drop_first();
            let y = b.drop_first();
            law_texts_are_in_dictionary_order(x, y);
            assert(x.take(k - 1) =~= a.take(k).drop_first());
            assert(y.take(k - 1) =~= b.take(k).drop_first());
        }
    }
}

/// What a document has of some terms, it has of each: for a term that it holds, how
/// many documents hold it and how often this one does; for another, nothing.
pub proof fn law_parts_tell_of_each_term(
    docs: Seq<ChunkModel>,
    a: Seq<Seq<char>>,
    b: Seq<Seq<char>>,
    term: Seq<char>,
    doc: int,
)
    ensures
        parts_of(docs, a + b, doc) == parts_of(docs, a, doc) + parts_of(docs, b, doc),
        terms_of(docs[doc].text).contains(term) ==> parts_of(docs, seq![term], doc) == seq![
            (
                docs.filter(|d: ChunkModel| terms_of(d.text).contains(term)).len() as usize,
                terms_of(docs[doc].text).filter(|t: Seq<char>| t == term).len() as u32,
            ),
        ],
        !terms_of(docs[doc].text).contains(term) ==> parts_of(docs, seq![term], doc).len() == 0,
    decreases b.len(),
{
    reveal_with_fuel(parts_of, 2);
    law_documents_are_counted(docs, term);
    law_terms_are_counted(terms_of(docs[doc].text), term);
    lemma_count_is_membership(terms_of(docs[doc].text), term);
    assert(seq![term].drop_last() =~= Seq::empty());
    if terms_of(docs[doc].text).contains(term) {
        assert(parts_of(docs, seq![term], doc) =~= seq![
            (
                postings_of(docs, term).len() as usize,
                count_of(terms_of(docs[doc].text), term) as u32,
            ),
        ]);
    }
    if b.len() == 0 {
        assert(a + b =~= a);
        assert(parts_of(docs, a, doc) + parts_of(docs, b, doc) =~= parts_of(docs, a, doc));
    } else {
        law_parts_tell_of_each_term(docs, a, b.drop_last(), term, doc);
        assert((a + b).drop_last() =~= a + b.drop_last());
        assert(parts_of(docs, a + b, doc) =~= parts_of(docs, a, doc) + parts_of(docs, b, doc));
    }
}

proof fn lemma_candidate(docs: Seq<ChunkModel>, terms: Seq<Seq<char>>, n: int, i: int)
    requires
        0 <= n <= docs.len() <= usize::MAX,
        0 <= i < candidates_upto(docs, terms, n).len(),
    ensures
        ({
            let all = candidates_upto(docs, terms, n);
            let c = all[i];
            &&& c.doc < n
            &&& c.len == terms_of(docs[c.doc as int].text).len() as u32
            &&& c.parts == parts_of(docs, terms, c.doc as int)
            &&& i > 0 ==> all[i - 1].doc < c.doc
        }),
    decreases n,
{
    if n > 0 {
        let earlier = candidates_upto(docs, terms, n - 1);
        lemma_candidates(docs, terms, n - 1);
        if i < earlier.len() {
            lemma_candidate(docs, terms, n - 1, i);
        } else if i > 0 {
            assert(earlier[i - 1].doc < n - 1);
        }
    }
}

/// The candidates come in the order of the passages, each with its length in terms
/// and with what it has of the query's terms.
pub proof fn law_candidates_come_in_order(docs: Seq<ChunkModel>, query: Seq<char>, i: int)
    requires
        docs.len() <= usize::MAX,
        0 <= i < candidates_of(docs, query).len(),
    ensures
        ({
            let c = candidates_of(docs, query)[i];
            &&& c.doc < docs.len()
            &&& i > 0 ==> candidates_of(docs, query)[i - 1].doc < c.doc
            &&& c.len == terms_of(docs[c.doc as int].text).len() as u32
            &&& c.parts == parts_of(docs, distinct_of(terms_of(query)), c.doc as int)
        }),
{
    lemma_candidate(docs, distinct_of(terms_of(query)), docs.len() as int, i);
}

/// A result shows the passage that was scored: its score, its source and the first
/// 240 characters of it on one line.
pub proof fn law_results_show_their_passages(
    docs: Seq<ChunkModel>,
    found: Seq<Candidate>,
    scores: Seq<u32>,
    k: int,
    i: int,
)
    requires
        0 <= k,
        scores.len() == found.len(),
        0 <= i < results_of(docs, scored_of(found, scores), k).len(),
    ensures
        exists|j: int|
            {
                &&& 0 <= j < found.len()
                &&& top_of(scored_of(found, scores), k)[i] == (#[trigger] found[j].doc, scores[j])
                &&& results_of(docs, scored_of(found, scores), k)[i] == (ResultModel {
                    score: scores[j],
                    source: docs[found[j].doc as int].source,
                    snippet: snippet_of(docs[found[j].doc as int].text, 240),
                })
            },
{
    let scored = scored_of(found, scores);
    lemma_top_members(scored, k);
    let x = top_of(scored, k)[i];
    assert(scored.contains(x));
    let j = scored.index_of(x);
    assert(scored[j] == (found[j].doc, scores[j]));
}

/// Of two results whose scores are numbers, the earlier has no lesser score.
pub proof fn law_results_descend_as_numbers(
    docs: Seq<ChunkModel>,
    scored: Seq<Scored>,
    k: int,
    i: int,
    j: int,
)
    requires
        0 <= k,
        0 <= i < j < results_of(docs, scored, k).len(),
        magnitude(results_of(docs, scored, k)[i].score) <= 0x7f80_0000,
        magnitude(results_of(docs, scored, k)[j].score) <= 0x7f80_0000,
    ensures
        number_of(results_of(docs, scored, k)[i].score) >= number_of(
            results_of(docs, scored, k)[j].score,
        ),
{
    law_results_descend(docs, scored, k, i, j);
    law_ranks_follow_the_numbers(
        results_of(docs, scored, k)[i].score,
        results_of(docs, scored, k)[j].score,
    );
}

/// A snippet is the words with single blanks between them, whole where there is
/// room for it, and otherwise its first characters and an ellipsis.
pub proof fn law_snippets_are_the_first_words(text: Seq<char>, max_chars: int)
    requires
        0 <= max_chars,
    ensures
        ({
            let flat = join_of(words_of(text), " "@);
            &&& flat.len() <= max_chars ==> snippet_of(text, max_chars) == flat
            &&& flat.len() > max_chars ==> snippet_of(text, max_chars) == flat.take(max_chars)
                + "…"@
        }),
{
    reveal_strlit(" ");
    reveal_strlit("…");
    assert(" "@ =~= seq![' ']);
    let flat = join_of(words_of(text), " "@);
    if flat.len() > max_chars {
        assert(flat.take(max_chars) + "…"@ =~= flat.take(max_chars).push('…'));
    }
}

proof fn lemma_words_of_joined(words: Seq<Seq<char>>)
    requires
        forall|k: int| 0 <= k < words.len() ==> is_solid(#[trigger] words[k]) && words[k].len() > 0,
    ensures
        words_of(join_of(words, seq![' '])) == words,
    decreases words.len(),
{
    let none = Seq::<char>::empty();
    law_words_lie_between_white_space(none, ' ', none);
    if words.len() == 0 {
        assert(words_of(none) =~= words);
    } else {
        let front = words.drop_last();
        let last = words.last();
        assert(is_solid(words[words.len() - 1]));
        law_words_lie_between_white_space(last, ' ', none);
        if words.len() > 1 {
            assert forall|k: int| 0 <= k < front.len() implies is_solid(#[trigger] front[k])
                && front[k].len() > 0 by {
                assert(is_solid(words[k]));
            }
            lemma_words_of_joined(front);
            law_words_lie_between_white_space(join_of(front, seq![' ']), ' ', last);
            assert(front + seq![last] =~= words);
        } else {
            assert(seq![last] =~= words);
        }
    }
}

proof fn lemma_filtered_keeps(s: Seq<Seq<char>>, keep: spec_fn(Seq<char>) -> bool, k: int)
    requires
        0 <= k < s.filter(keep).len(),
    ensures
        keep(s.filter(keep)[k]),
    decreases s.len(),
{
    reveal(Seq::filter);
    if s.len() > 0 && k < s.drop_last().filter(keep).len() {
        lemma_filtered_keeps(s.drop_last(), keep, k);
    }
}

/// A snippet that is not cut off has the words of the text.
pub proof fn law_whole_snippets_keep_the_words(text: Seq<char>, max_chars: int)
    requires
        join_of(words_of(text), " "@).len() <= max_chars,
    ensures
        words_of(snippet_of(text, max_chars)) == words_of(text),
{
    reveal_strlit(" ");
    assert(" "@ =~= seq![' ']);
    let words = words_of(text);
    assert forall|k: int| 0 <= k < words.len() implies is_solid(#[trigger] words[k])
        && words[k].len() > 0 by {
        lemma_words_solid(text, k);
        lemma_filtered_keeps(pieces_of(text, Cut::White), |p: Seq<char>| p.len() > 0, k);
    }
    lemma_words_of_joined(words);
}

} // verus!
