//! Strip the notes of a vault down to clean prose.
//!
//! We deliberately keep cleaning light: remove YAML frontmatter, flatten
//! wikilinks/embeds/markdown links to their visible text, and collapse runs of
//! blank lines. Headings, lists, and emphasis are left intact — they're part of
//! the writing style we want the model to learn.
//!
//! Two views of the vault come out of here:
//! - [`load_corpus`]: one big cleaned string, for language-model training.
//! - [`load_chunks`]: passages with provenance, for retrieval.
use crate::pattern::{compiles, found, replaced, replaced_all, Pattern, PatternError};
use crate::text::{
    first_from, from_chars, is_white, join, join_of, lemma_first_from, lemma_pieces_not_empty,
    lemma_trim_twice, occurs_at, occurs_in, pieces_of, runs, same_text, slice_chars, split,
    split_from, strings, texts, to_chars, trim, trim_chars, trim_end, trim_of, trim_start, words_of,
    Cut,
};
use vstd::prelude::*;

verus! {

/// Cleaned, concatenated training text plus a count of contributing files.
#[derive(Debug)]
pub struct Corpus {
    pub text: String,
    pub files: usize,
}

/// A retrievable passage and where it came from.
#[derive(Debug)]
pub struct Chunk {
    pub source: String,
    pub text: String,
}

/// The model of a [`Chunk`].
pub struct ChunkModel {
    pub source: Seq<char>,
    pub text: Seq<char>,
}

impl View for Chunk {
    type V = ChunkModel;

    open spec fn view(&self) -> ChunkModel {
        ChunkModel { source: self.source@, text: self.text@ }
    }
}

/// The models of a sequence of chunks.
pub open spec fn chunk_models(v: Seq<Chunk>) -> Seq<ChunkModel> {
    v.map_values(|c: Chunk| c@)
}

/// A file of the vault as it was read.
#[derive(Debug)]
pub struct Note {
    /// Where it was found, relative to the vault.
    pub source: String,
    /// Its text.
    pub raw: String,
}

// ---------------------------------------------------------------------------
// Cleaning
// ---------------------------------------------------------------------------

/// A YAML header at the very start.
pub const FRONTMATTER: &'static str = r"(?s)\A---\r?\n.*?\r?\n---\r?\n";

/// `![[image.png]]`
pub const EMBED: &'static str = r"!\[\[[^\]]*\]\]";

/// `[[a|b]]`
pub const WIKILINK_ALIAS: &'static str = r"\[\[[^\]|]+\|([^\]]+)\]\]";

/// `[[a]]`
pub const WIKILINK: &'static str = r"\[\[([^\]]+)\]\]";

/// `[text](url)`
pub const MDLINK: &'static str = r"\[([^\]]+)\]\([^)]*\)";

/// `<br>`
pub const BR_TAG: &'static str = r"(?i)<br\s*/?>";

/// `\_`
pub const MD_ESCAPE: &'static str = r"\\([\\\[\]()*_\-.#`~>])";

/// Three newlines or more.
pub const MANY_NEWLINES: &'static str = r"\n{3,}";

/// The patterns for markdown cleanup, checked once and used for every file.
pub struct Cleaner {
    frontmatter: Pattern,
    embed: Pattern,
    wikilink_alias: Pattern,
    wikilink: Pattern,
    mdlink: Pattern,
    br_tag: Pattern,
    md_escape: Pattern,
    many_newlines: Pattern,
}

/// Whether all the cleanup patterns compile.
pub open spec fn patterns_compile() -> bool {
    &&& compiles(FRONTMATTER@)
    &&& compiles(EMBED@)
    &&& compiles(WIKILINK_ALIAS@)
    &&& compiles(WIKILINK@)
    &&& compiles(MDLINK@)
    &&& compiles(BR_TAG@)
    &&& compiles(MD_ESCAPE@)
    &&& compiles(MANY_NEWLINES@)
}

/// The first of the cleanup patterns that does not compile, where there is one.
pub open spec fn first_rejected() -> Seq<char> {
    if !compiles(FRONTMATTER@) {
        FRONTMATTER@
    } else if !compiles(EMBED@) {
        EMBED@
    } else if !compiles(WIKILINK_ALIAS@) {
        WIKILINK_ALIAS@
    } else if !compiles(WIKILINK@) {
        WIKILINK@
    } else if !compiles(MDLINK@) {
        MDLINK@
    } else if !compiles(BR_TAG@) {
        BR_TAG@
    } else if !compiles(MD_ESCAPE@) {
        MD_ESCAPE@
    } else {
        MANY_NEWLINES@
    }
}

/// A note's text cleaned up: the header and embeds removed, links replaced by
/// what they show, line breaks and escapes by what they stand for, runs of
/// blank lines collapsed, and the white space around the whole dropped.
pub open spec fn cleaned(raw: Seq<char>) -> Seq<char> {
    let s = replaced(FRONTMATTER@, raw, ""@);
    let s = replaced_all(EMBED@, s, ""@);
    let s = replaced_all(WIKILINK_ALIAS@, s, "$1"@);
    let s = replaced_all(WIKILINK@, s, "$1"@);
    let s = replaced_all(MDLINK@, s, "$1"@);
    let s = replaced_all(BR_TAG@, s, "\n"@);
    let s = replaced_all(MD_ESCAPE@, s, "$1"@);
    trim_of(replaced_all(MANY_NEWLINES@, s, "\n\n"@))
}

impl Cleaner {
    #[verifier::type_invariant]
    spec fn valid(self) -> bool {
        &&& self.frontmatter@ == FRONTMATTER@
        &&& self.embed@ == EMBED@
        &&& self.wikilink_alias@ == WIKILINK_ALIAS@
        &&& self.wikilink@ == WIKILINK@
        &&& self.mdlink@ == MDLINK@
        &&& self.br_tag@ == BR_TAG@
        &&& self.md_escape@ == MD_ESCAPE@
        &&& self.many_newlines@ == MANY_NEWLINES@
    }

    pub fn new() -> (r: Result<Self, PatternError>)
        ensures
            r is Ok <==> patterns_compile(),
            r matches Err(e) ==> e.pattern@ == first_rejected(),
    {
        Ok(
            Cleaner {
                frontmatter: Pattern::new(FRONTMATTER)?,
                embed: Pattern::new(EMBED)?,
                wikilink_alias: Pattern::new(WIKILINK_ALIAS)?,
                wikilink: Pattern::new(WIKILINK)?,
                mdlink: Pattern::new(MDLINK)?,
                br_tag: Pattern::new(BR_TAG)?,
                md_escape: Pattern::new(MD_ESCAPE)?,
                many_newlines: Pattern::new(MANY_NEWLINES)?,
            },
        )
    }

    pub fn clean(&self, raw: &str) -> (r: String)
        ensures
            r@ == cleaned(raw@),
    {
        proof {
            use_type_invariant(self);
        }
        let s: String = self.frontmatter.replace(raw, "");
        let s: String = self.embed.replace_all(s.as_str(), "");
        let s: String = self.wikilink_alias.replace_all(s.as_str(), "$1");
        let s: String = self.wikilink.replace_all(s.as_str(), "$1");
        let s: String = self.mdlink.replace_all(s.as_str(), "$1");
        let s: String = self.br_tag.replace_all(s.as_str(), "\n");
        let s: String = self.md_escape.replace_all(s.as_str(), "$1");
        let s: String = self.many_newlines.replace_all(s.as_str(), "\n\n");
        trim(s.as_str())
    }
}

/// Whether a directory entry is a note: a file with the extension `md`.
pub fn is_note(is_file: bool, extension: Option<&str>) -> (r: bool)
    ensures
        r == (is_file && extension is Some && extension->0@ == "md"@),
{
    match extension {
        Some(e) => is_file && same_text(&to_chars(e), &to_chars("md")),
        None => false,
    }
}

// ---------------------------------------------------------------------------
// One corpus
// ---------------------------------------------------------------------------

/// The cleaned texts of the notes, each followed by a blank line; notes with
/// nothing left are skipped.
pub open spec fn corpus_text(notes: Seq<Note>) -> Seq<char>
    decreases notes.len(),
{
    if notes.len() == 0 {
        Seq::empty()
    } else {
        let before = corpus_text(notes.drop_last());
        let text = cleaned(notes.last().raw@);
        if text.len() == 0 {
            before
        } else {
            before + text + "\n\n"@
        }
    }
}

/// How many notes have something left after cleaning.
pub open spec fn corpus_files(notes: Seq<Note>) -> nat
    decreases notes.len(),
{
    if notes.len() == 0 {
        0
    } else {
        corpus_files(notes.drop_last()) + if cleaned(notes.last().raw@).len() == 0 {
            0nat
        } else {
            1
        }
    }
}

/// One big cleaned corpus, documents separated by a blank line.
pub fn load_corpus(notes: &Vec<Note>) -> (r: Result<Corpus, PatternError>)
    ensures
        match r {
            Ok(c) => patterns_compile() && c.text@ == corpus_text(notes@) && c.files
                == corpus_files(notes@),
            Err(e) => !patterns_compile() && e.pattern@ == first_rejected(),
        },
{
    let cleaner: Cleaner = match Cleaner::new() {
        Ok(c) => c,
        Err(e) => {
            return Err(e);
        },
    };
    let mut text: String = String::new();
    let mut files: usize = 0;
    let mut i: usize = 0;
    while i < notes.len()
        invariant
            i <= notes.len(),
            files <= i,
            text@ == corpus_text(notes@.take(i as int)),
            files == corpus_files(notes@.take(i as int)),
        decreases notes.len() - i,
    {
        assert(notes@.take(i + 1).drop_last() =~= notes@.take(i as int));
        let clean: String = cleaner.clean(notes[i].raw.as_str());
        if !clean.as_str().is_empty() {
            text.append(clean.as_str());
            text.append("\n\n");
            files += 1;
        }
        i += 1;
    }
    assert(notes@.take(i as int) =~= notes@);
    Ok(Corpus { text, files })
}

// ---------------------------------------------------------------------------
// Passages
// ---------------------------------------------------------------------------

/// The paragraphs of a text: what stands between blank lines, without
/// surrounding white space, blank ones left out.
pub open spec fn paragraphs_of(text: Seq<char>) -> Seq<Seq<char>> {
    split_from(text, "\n\n"@, 0).map_values(|p: Seq<char>| trim_of(p)).filter(
        |p: Seq<char>| p.len() > 0,
    )
}

/// How many words there are in all the paragraphs of a group.
pub open spec fn word_total(group: Seq<Seq<char>>) -> nat
    decreases group.len(),
{
    if group.len() == 0 {
        0
    } else {
        word_total(group.drop_last()) + words_of(group.last()).len()
    }
}

/// Paragraphs gathered into groups: those that reached the target, and the one
/// still being filled.
pub struct Groups {
    pub done: Seq<Seq<Seq<char>>>,
    pub open: Seq<Seq<char>>,
}

/// Takes the paragraphs in order and closes a group as soon as it has
/// `target_words` words.
pub open spec fn grouped(paragraphs: Seq<Seq<char>>, target_words: int) -> Groups
    decreases paragraphs.len(),
{
    if paragraphs.len() == 0 {
        Groups { done: Seq::empty(), open: Seq::empty() }
    } else {
        let before = grouped(paragraphs.drop_last(), target_words);
        let group = before.open.push(paragraphs.last());
        if word_total(group) >= target_words {
            Groups { done: before.done.push(group), open: Seq::empty() }
        } else {
            Groups { done: before.done, open: group }
        }
    }
}

impl Groups {
    /// All the groups, the last one included where it has anything in it.
    pub open spec fn all(self) -> Seq<Seq<Seq<char>>> {
        if self.open.len() == 0 {
            self.done
        } else {
            self.done.push(self.open)
        }
    }
}

/// The passages of a cleaned text: each group of paragraphs, joined by blank
/// lines.
pub open spec fn passages_of(text: Seq<char>, target_words: int) -> Seq<Seq<char>> {
    grouped(paragraphs_of(text), target_words).all().map_values(
        |group: Seq<Seq<char>>| join_of(group, "\n\n"@),
    )
}

/// The paragraphs of a cleaned text.
fn paragraphs(text: &Vec<char>) -> (r: Vec<Vec<char>>)
    ensures
        texts(r@) == paragraphs_of(text@),
{
    proof {
        reveal_strlit("\n\n");
    }
    let parts: Vec<Vec<char>> = split(text, &to_chars("\n\n"));
    let ghost trimmed = texts(parts@).map_values(|p: Seq<char>| trim_of(p));
    let ghost keep = |p: Seq<char>| p.len() > 0;
    let mut out: Vec<Vec<char>> = Vec::new();
    let mut i: usize = 0;
    while i < parts.len()
        invariant
            i <= parts.len(),
            trimmed == texts(parts@).map_values(|p: Seq<char>| trim_of(p)),
            keep == (|p: Seq<char>| p.len() > 0),
            texts(out@) == trimmed.take(i as int).filter(keep),
        decreases parts.len() - i,
    {
        reveal(Seq::filter);
        assert(trimmed.take(i + 1).drop_last() =~= trimmed.take(i as int));
        let p: Vec<char> = trim_chars(&parts[i]);
        assert(trimmed.take(i + 1).last() == p@);
        if p.len() > 0 {
            let ghost kept = out@;
            out.push(p);
            assert(texts(out@) =~= texts(kept).push(p@));
        }
        i += 1;
    }
    assert(trimmed.take(i as int) =~= trimmed);
    out
}

/// `n` where it fits, otherwise the largest number.
spec fn capped(n: int) -> int {
    if n <= usize::MAX {
        n
    } else {
        usize::MAX as int
    }
}

/// Splits a cleaned text into passages of roughly `target_words` each.
pub fn split_passages(text: &str, target_words: usize) -> (r: Vec<String>)
    ensures
        strings(r@) == passages_of(text@, target_words as int),
{
    let sep: Vec<char> = to_chars("\n\n");
    let paras: Vec<Vec<char>> = paragraphs(&to_chars(text));
    let ghost target = target_words as int;
    let ghost all = texts(paras@);
    let ghost glue = |group: Seq<Seq<char>>| join_of(group, "\n\n"@);
    let mut out: Vec<String> = Vec::new();
    let mut group: Vec<Vec<char>> = Vec::new();
    let mut words: usize = 0;
    let mut i: usize = 0;
    assert(strings(out@) =~= Seq::<Seq<Seq<char>>>::empty().map_values(glue));
    assert(texts(group@) =~= Seq::empty());
    while i < paras.len()
        invariant
            i <= paras.len(),
            sep@ == "\n\n"@,
            all == texts(paras@),
            target == target_words,
            glue == (|group: Seq<Seq<char>>| join_of(group, "\n\n"@)),
            strings(out@) == grouped(all.take(i as int), target).done.map_values(glue),
            texts(group@) == grouped(all.take(i as int), target).open,
            words == capped(word_total(texts(group@)) as int),
        decreases paras.len() - i,
    {
        let ghost before = grouped(all.take(i as int), target);
        let ghost earlier = texts(group@);
        let ghost written = out@;
        assert(all.take(i + 1).drop_last() =~= all.take(i as int));
        let para: Vec<char> = slice_chars(&paras[i], 0, paras[i].len());
        assert(para@ =~= paras@[i as int]@);
        assert(all.take(i + 1).last() == para@);
        let found: Vec<Vec<char>> = runs(&para, Cut::White);
        assert(texts(found@).len() == found@.len());
        words = words.saturating_add(found.len());
        group.push(para);
        assert(texts(group@) =~= earlier.push(para@));
        assert(texts(group@).drop_last() =~= earlier);
        if words >= target_words {
            let passage: String = from_chars(&join(&group, &sep));
            out.push(passage);
            assert(strings(out@) =~= strings(written).push(passage@));
            assert(before.done.push(texts(group@)).map_values(glue) =~= before.done.map_values(
                glue,
            ).push(glue(texts(group@))));
            group = Vec::new();
            assert(texts(group@) =~= Seq::empty());
            words = 0;
        }
        i += 1;
    }
    assert(all.take(i as int) =~= all);
    if group.len() > 0 {
        let ghost whole = grouped(all, target);
        let ghost written = out@;
        let passage: String = from_chars(&join(&group, &sep));
        out.push(passage);
        assert(texts(group@).len() == group@.len());
        assert(strings(out@) =~= strings(written).push(passage@));
        assert(whole.done.push(whole.open).map_values(glue) =~= whole.done.map_values(glue).push(
            glue(whole.open),
        ));
    } else {
        assert(texts(group@).len() == 0);
    }
    out
}

/// The passages of the notes, each with its source, in order.
pub open spec fn chunks_of(notes: Seq<Note>, target_words: int) -> Seq<ChunkModel>
    decreases notes.len(),
{
    if notes.len() == 0 {
        Seq::empty()
    } else {
        let note = notes.last();
        chunks_of(notes.drop_last(), target_words) + passages_of(
            cleaned(note.raw@),
            target_words,
        ).map_values(|text: Seq<char>| ChunkModel { source: note.source@, text })
    }
}

/// Splits the vault into retrievable passages of roughly `target_words` each.
/// Paragraphs are grouped together until the target is reached, so chunks stay
/// on topic and never split mid-paragraph.
pub fn load_chunks(notes: &Vec<Note>, target_words: usize) -> (r: Result<Vec<Chunk>, PatternError>)
    ensures
        match r {
            Ok(chunks) => patterns_compile() && chunk_models(chunks@) == chunks_of(
                notes@,
                target_words as int,
            ),
            Err(e) => !patterns_compile() && e.pattern@ == first_rejected(),
        },
{
    let cleaner: Cleaner = match Cleaner::new() {
        Ok(c) => c,
        Err(e) => {
            return Err(e);
        },
    };
    let ghost target = target_words as int;
    let mut chunks: Vec<Chunk> = Vec::new();
    let mut i: usize = 0;
    assert(chunk_models(chunks@) =~= Seq::empty());
    while i < notes.len()
        invariant
            i <= notes.len(),
            target == target_words,
            chunk_models(chunks@) == chunks_of(notes@.take(i as int), target),
        decreases notes.len() - i,
    {
        assert(notes@.take(i + 1).drop_last() =~= notes@.take(i as int));
        let ghost note = notes@[i as int];
        let ghost tag = |text: Seq<char>| ChunkModel { source: note.source@, text };
        let ghost before = chunk_models(chunks@);
        let clean: String = cleaner.clean(notes[i].raw.as_str());
        let passages: Vec<String> = split_passages(clean.as_str(), target_words);
        let ghost made = strings(passages@);
        let mut k: usize = 0;
        assert(before + made.take(0).map_values(tag) =~= before);
        while k < passages.len()
            invariant
                i < notes.len(),
                k <= passages.len(),
                note == notes@[i as int],
                tag == (|text: Seq<char>| ChunkModel { source: note.source@, text }),
                made == strings(passages@),
                chunk_models(chunks@) == before + made.take(k as int).map_values(tag),
            decreases passages.len() - k,
        {
            let ghost held = chunks@;
            let chunk = Chunk { source: notes[i].source.clone(), text: passages[k].clone() };
            chunks.push(chunk);
            assert(chunk@ == tag(made[k as int]));
            assert(chunk_models(chunks@) =~= chunk_models(held).push(chunk@));
            assert(before + made.take(k + 1).map_values(tag) =~= (before + made.take(
                k as int,
            ).map_values(tag)).push(tag(made[k as int])));
            k += 1;
        }
        assert(made.take(k as int) =~= made);
        i += 1;
    }
    assert(notes@.take(i as int) =~= notes@);
    Ok(chunks)
}

// ---------------------------------------------------------------------------
// Laws
// ---------------------------------------------------------------------------

/// A cleaned text has no white space around it.
pub proof fn law_cleaned_is_trimmed(raw: Seq<char>)
    ensures
        trim_of(cleaned(raw)) == cleaned(raw),
{
    let s = replaced(FRONTMATTER@, raw, ""@);
    let s = replaced_all(EMBED@, s, ""@);
    let s = replaced_all(WIKILINK_ALIAS@, s, "$1"@);
    let s = replaced_all(WIKILINK@, s, "$1"@);
    let s = replaced_all(MDLINK@, s, "$1"@);
    let s = replaced_all(BR_TAG@, s, "\n"@);
    let s = replaced_all(MD_ESCAPE@, s, "$1"@);
    lemma_trim_twice(replaced_all(MANY_NEWLINES@, s, "\n\n"@));
}

/// Grouping neither loses, repeats, reorders nor splits a paragraph: the groups
/// one after another are the paragraphs.
pub proof fn law_grouping_keeps_paragraphs(paragraphs: Seq<Seq<char>>, target_words: int)
    ensures
        grouped(paragraphs, target_words).all().flatten() == paragraphs,
    decreases paragraphs.len(),
{
    let g = grouped(paragraphs, target_words);
    lemma_grouping(paragraphs, target_words);
    g.done.lemma_flatten_push(g.open);
    if g.open.len() == 0 {
        assert(g.done.flatten() + g.open =~= g.done.flatten());
    }
}

proof fn lemma_grouping(paragraphs: Seq<Seq<char>>, target_words: int)
    ensures
        ({
            let g = grouped(paragraphs, target_words);
            g.done.flatten() + g.open == paragraphs
        }),
    decreases paragraphs.len(),
{
    let g = grouped(paragraphs, target_words);
    if paragraphs.len() == 0 {
        assert(g.done.flatten() + g.open =~= paragraphs);
    } else {
        let before = grouped(paragraphs.drop_last(), target_words);
        let group = before.open.push(paragraphs.last());
        lemma_grouping(paragraphs.drop_last(), target_words);
        before.done.lemma_flatten_push(group);
        assert(before.done.flatten() + group =~= (before.done.flatten() + before.open).push(
            paragraphs.last(),
        ));
        assert(paragraphs.drop_last().push(paragraphs.last()) =~= paragraphs);
        assert(g.done.flatten() + g.open =~= paragraphs);
    }
}

/// Every group but the last has reached the target, and would not have without
/// its last paragraph; the last one has not reached it.
pub proof fn law_groups_are_just_large_enough(paragraphs: Seq<Seq<char>>, target_words: int)
    ensures
        ({
            let g = grouped(paragraphs, target_words);
            &&& forall|i: int|
                0 <= i < g.done.len() ==> {
                    &&& #[trigger] g.done[i].len() >= 1
                    &&& word_total(g.done[i]) >= target_words
                    &&& g.done[i].len() >= 2 ==> word_total(g.done[i].drop_last()) < target_words
                }
            &&& g.open.len() >= 1 ==> word_total(g.open) < target_words
        }),
    decreases paragraphs.len(),
{
    if paragraphs.len() > 0 {
        law_groups_are_just_large_enough(paragraphs.drop_last(), target_words);
        let before = grouped(paragraphs.drop_last(), target_words);
        assert(before.open.push(paragraphs.last()).drop_last() =~= before.open);
    }
}

proof fn lemma_join_add(a: Seq<Seq<char>>, b: Seq<Seq<char>>, sep: Seq<char>)
    requires
        a.len() > 0,
        b.len() > 0,
    ensures
        join_of(a + b, sep) == join_of(a, sep) + sep + join_of(b, sep),
    decreases b.len(),
{
    assert((a + b).drop_last() =~= a + b.drop_last());
    assert((a + b).last() == b.last());
    if b.len() == 1 {
        assert(a + b.drop_last() =~= a);
    } else {
        lemma_join_add(a, b.drop_last(), sep);
        assert(join_of(a + b, sep) =~= join_of(a, sep) + sep + join_of(b, sep));
    }
}

/// Joining what was joined in groups is joining everything.
proof fn lemma_join_of_joins(groups: Seq<Seq<Seq<char>>>, sep: Seq<char>)
    requires
        forall|i: int| 0 <= i < groups.len() ==> (#[trigger] groups[i]).len() > 0,
    ensures
        join_of(groups.map_values(|g: Seq<Seq<char>>| join_of(g, sep)), sep) == join_of(
            groups.flatten(),
            sep,
        ),
        groups.len() > 0 ==> groups.flatten().len() > 0,
    decreases groups.len(),
{
    let glue = |g: Seq<Seq<char>>| join_of(g, sep);
    let joined = groups.map_values(glue);
    if groups.len() == 0 {
        assert(joined =~= Seq::empty());
        assert(groups.flatten() =~= Seq::empty());
    } else {
        let front = groups.drop_last();
        let last = groups.last();
        assert forall|i: int| 0 <= i < front.len() implies (#[trigger] front[i]).len() > 0 by {
            assert(groups[i].len() > 0);
        }
        assert(groups[groups.len() - 1].len() > 0);
        lemma_join_of_joins(front, sep);
        front.lemma_flatten_push(last);
        assert(front.push(last) =~= groups);
        assert(joined.drop_last() =~= front.map_values(glue));
        assert(joined.last() == glue(last));
        if front.len() == 0 {
            assert(front.flatten() + last =~= last) by {
                assert(front =~= Seq::empty());
                assert(front.flatten() =~= Seq::empty());
            }
        } else {
            lemma_join_add(front.flatten(), last, sep);
        }
    }
}

/// No group is empty.
proof fn lemma_groups_hold_something(paragraphs: Seq<Seq<char>>, target_words: int)
    ensures
        forall|i: int|
            0 <= i < grouped(paragraphs, target_words).all().len() ==> (#[trigger] grouped(
                paragraphs,
                target_words,
            ).all()[i]).len() > 0,
{
    law_groups_are_just_large_enough(paragraphs, target_words);
    let g = grouped(paragraphs, target_words);
    assert forall|i: int| 0 <= i < g.all().len() implies (#[trigger] g.all()[i]).len() > 0 by {
        if i < g.done.len() {
            assert(g.done[i].len() >= 1);
        }
    }
}

/// The passages hold the whole text: joined by blank lines they are the
/// paragraphs joined by blank lines.
pub proof fn law_passages_keep_the_text(text: Seq<char>, target_words: int)
    ensures
        join_of(passages_of(text, target_words), "\n\n"@) == join_of(paragraphs_of(text), "\n\n"@),
{
    let paragraphs = paragraphs_of(text);
    lemma_groups_hold_something(paragraphs, target_words);
    lemma_join_of_joins(grouped(paragraphs, target_words).all(), "\n\n"@);
    law_grouping_keeps_paragraphs(paragraphs, target_words);
}

/// A text is cut at a character between two others as they are cut.
proof fn lemma_pieces_around(a: Seq<char>, c: char, b: Seq<char>, cut: Cut)
    requires
        cut.cuts(c),
    ensures
        pieces_of(a.push(c) + b, cut) == pieces_of(a, cut) + pieces_of(b, cut),
    decreases b.len(),
{
    let whole = a.push(c) + b;
    lemma_pieces_not_empty(b, cut);
    if b.len() == 0 {
        assert(whole =~= a.push(c));
        assert(whole.drop_last() =~= a);
        assert(pieces_of(whole, cut) =~= pieces_of(a, cut) + pieces_of(b, cut));
    } else {
        let front = b.drop_last();
        assert(whole.drop_last() =~= a.push(c) + front);
        assert(whole.last() == b.last());
        lemma_pieces_around(a, c, front, cut);
        lemma_pieces_not_empty(front, cut);
        assert(pieces_of(whole, cut) =~= pieces_of(a, cut) + pieces_of(b, cut));
    }
}

proof fn lemma_no_words()
    ensures
        words_of(Seq::empty()) == Seq::<Seq<char>>::empty(),
        pieces_of(Seq::empty(), Cut::White).filter(|p: Seq<char>| p.len() > 0) == Seq::<
            Seq<char>,
        >::empty(),
{
    reveal_with_fuel(Seq::filter, 2);
    let first = pieces_of(Seq::empty(), Cut::White);
    assert(first.drop_last() =~= Seq::empty());
}

/// The words around a blank line are those before it and those behind it.
proof fn lemma_words_around(a: Seq<char>, b: Seq<char>)
    ensures
        words_of(a + "\n\n"@ + b) == words_of(a) + words_of(b),
{
    reveal_strlit("\n\n");
    let keep = |p: Seq<char>| p.len() > 0;
    let cut = Cut::White;
    let none = Seq::<char>::empty();
    assert(a + "\n\n"@ + b =~= a.push('\n') + (none.push('\n') + b));
    lemma_pieces_around(a, '\n', none.push('\n') + b, cut);
    lemma_pieces_around(none, '\n', b, cut);
    let first = pieces_of(none, cut);
    Seq::filter_distributes_over_add(pieces_of(a, cut), first + pieces_of(b, cut), keep);
    Seq::filter_distributes_over_add(first, pieces_of(b, cut), keep);
    lemma_no_words();
    assert(words_of(a + "\n\n"@ + b) =~= words_of(a) + words_of(b));
}

/// The words of a passage are those of its paragraphs, one paragraph after
/// another; so a passage has as many words as its paragraphs together.
pub proof fn law_passage_words(group: Seq<Seq<char>>)
    ensures
        words_of(join_of(group, "\n\n"@)) == group.map_values(
            |p: Seq<char>| words_of(p),
        ).flatten(),
        words_of(join_of(group, "\n\n"@)).len() == word_total(group),
    decreases group.len(),
{
    let spoken = |p: Seq<char>| words_of(p);
    let each = group.map_values(spoken);
    if group.len() == 0 {
        assert(each =~= Seq::empty());
        lemma_no_words();
        assert(each.flatten() =~= Seq::empty());
    } else {
        let front = group.drop_last();
        law_passage_words(front);
        front.map_values(spoken).lemma_flatten_push(words_of(group.last()));
        assert(front.map_values(spoken).push(words_of(group.last())) =~= each);
        if group.len() > 1 {
            lemma_words_around(join_of(front, "\n\n"@), group.last());
        } else {
            assert(front =~= Seq::empty());
            assert(words_of(join_of(front, "\n\n"@)).len() == 0);
            assert(words_of(group.last()) =~= words_of(join_of(front, "\n\n"@)) + words_of(
                group.last(),
            ));
        }
    }
}

/// Every passage but the last has reached the target.
pub proof fn law_passages_reach_the_target(text: Seq<char>, target_words: int, i: int)
    requires
        0 <= i < passages_of(text, target_words).len() - 1,
    ensures
        words_of(passages_of(text, target_words)[i]).len() >= target_words,
{
    let paragraphs = paragraphs_of(text);
    let g = grouped(paragraphs, target_words);
    law_groups_are_just_large_enough(paragraphs, target_words);
    law_passage_words(g.all()[i]);
    assert(g.all()[i] == g.done[i]);
    assert(word_total(g.done[i]) >= target_words);
}

/// The parts of a text, joined by what it was split at, are the text.
proof fn lemma_split_joins(s: Seq<char>, pat: Seq<char>, start: int)
    requires
        pat.len() > 0,
        0 <= start <= s.len(),
    ensures
        split_from(s, pat, start).len() > 0,
        join_of(split_from(s, pat, start), pat) == s.skip(start),
    decreases s.len() - start,
{
    lemma_first_from(s, pat, start);
    match first_from(s, pat, start) {
        Some(i) => {
            let next = i + pat.len();
            let first = seq![s.subrange(start, i)];
            lemma_split_joins(s, pat, next);
            lemma_join_add(first, split_from(s, pat, next), pat);
            assert(s.subrange(i, next) =~= pat);
            assert(s.skip(start) =~= s.subrange(start, i) + pat + s.skip(next));
        },
        None => {},
    }
}

proof fn lemma_words_trim_start(s: Seq<char>)
    ensures
        words_of(trim_start(s)) == words_of(s),
    decreases s.len(),
{
    if s.len() > 0 && is_white(s[0]) {
        let rest = s.drop_first();
        let none = Seq::<char>::empty();
        lemma_words_trim_start(rest);
        assert(none.push(s[0]) + rest =~= s);
        lemma_pieces_around(none, s[0], rest, Cut::White);
        lemma_no_words();
        Seq::filter_distributes_over_add(
            pieces_of(none, Cut::White),
            pieces_of(rest, Cut::White),
            |p: Seq<char>| p.len() > 0,
        );
        assert(words_of(s) =~= words_of(rest));
    }
}

proof fn lemma_words_trim_end(s: Seq<char>)
    ensures
        words_of(trim_end(s)) == words_of(s),
    decreases s.len(),
{
    if s.len() > 0 && is_white(s.last()) {
        let rest = s.drop_last();
        let none = Seq::<char>::empty();
        lemma_words_trim_end(rest);
        assert(rest.push(s.last()) + none =~= s);
        lemma_pieces_around(rest, s.last(), none, Cut::White);
        lemma_no_words();
        Seq::filter_distributes_over_add(
            pieces_of(rest, Cut::White),
            pieces_of(none, Cut::White),
            |p: Seq<char>| p.len() > 0,
        );
        assert(words_of(s) =~= words_of(rest));
    }
}

/// Trimming the parts of a text and dropping the empty ones loses no word.
proof fn lemma_words_kept(parts: Seq<Seq<char>>)
    ensures
        parts.map_values(|p: Seq<char>| trim_of(p)).filter(|p: Seq<char>| p.len() > 0).map_values(
            |p: Seq<char>| words_of(p),
        ).flatten() == parts.map_values(|p: Seq<char>| words_of(p)).flatten(),
    decreases parts.len(),
{
    let trimmed = |p: Seq<char>| trim_of(p);
    let keep = |p: Seq<char>| p.len() > 0;
    let spoken = |p: Seq<char>| words_of(p);
    reveal(Seq::filter);
    if parts.len() == 0 {
        assert(parts.map_values(trimmed).filter(keep).map_values(spoken) =~= parts.map_values(
            spoken,
        ));
    } else {
        let front = parts.drop_last();
        let p = parts.last();
        lemma_words_kept(front);
        lemma_words_trim_start(p);
        lemma_words_trim_end(trim_start(p));
        assert(parts.map_values(trimmed).drop_last() =~= front.map_values(trimmed));
        assert(parts.map_values(spoken) =~= front.map_values(spoken).push(words_of(p)));
        front.map_values(spoken).lemma_flatten_push(words_of(p));
        let kept = front.map_values(trimmed).filter(keep);
        if trim_of(p).len() > 0 {
            assert(kept.push(trim_of(p)).map_values(spoken) =~= kept.map_values(spoken).push(
                words_of(p),
            ));
            kept.map_values(spoken).lemma_flatten_push(words_of(p));
        } else {
            lemma_no_words();
            assert(trim_of(p) =~= Seq::empty());
            assert(front.map_values(spoken).flatten() + words_of(p) =~= front.map_values(
                spoken,
            ).flatten());
        }
    }
}

/// The passages hold every word of the text, in order.
pub proof fn law_passages_keep_the_words(text: Seq<char>, target_words: int)
    ensures
        words_of(join_of(passages_of(text, target_words), "\n\n"@)) == words_of(text),
{
    reveal_strlit("\n\n");
    let parts = split_from(text, "\n\n"@, 0);
    lemma_split_joins(text, "\n\n"@, 0);
    assert(text.skip(0) =~= text);
    lemma_words_kept(parts);
    law_passage_words(parts);
    law_passage_words(paragraphs_of(text));
    law_passages_keep_the_text(text, target_words);
}

// ---------------------------------------------------------------------------
// Laws of cleaning
// ---------------------------------------------------------------------------

/// The texts of `between`, each between two neighbours of `gaps`.
pub open spec fn woven(gaps: Seq<Seq<char>>, between: Seq<Seq<char>>) -> Seq<char>
    decreases between.len(),
{
    if between.len() == 0 {
        gaps[0]
    } else {
        woven(gaps.drop_last(), between.drop_last()) + between.last() + gaps.last()
    }
}

/// Whether `after` is `before` with each of the matches in it replaced by what it
/// shows, and everything between them kept.
pub open spec fn shows_each(
    before: Seq<char>,
    matches: Seq<Seq<char>>,
    shown: spec_fn(Seq<char>) -> Seq<char>,
    after: Seq<char>,
) -> bool {
    exists|gaps: Seq<Seq<char>>|
        gaps.len() == matches.len() + 1 && before == #[trigger] woven(gaps, matches) && after
            == woven(gaps, matches.map_values(shown))
}

/// What is seen of `[[page]]`: the page.
pub open spec fn page_of(link: Seq<char>) -> Seq<char> {
    link.subrange(2, link.len() - 2)
}

/// What is seen of `[[page|alias]]`: the alias.
pub open spec fn alias_of(link: Seq<char>) -> Seq<char> {
    link.subrange(first_from(link, "|"@, 0)->0 + 1, link.len() - 2)
}

/// What is seen of `[label](target)`: the label.
pub open spec fn label_of(link: Seq<char>) -> Seq<char> {
    link.subrange(1, first_from(link, "]"@, 0)->0)
}

/// Whether [`replaced_all`] replaces every match of the pattern by what it shows,
/// in every text.
pub open spec fn replaces_every_match(
    pattern: Seq<char>,
    by: Seq<char>,
    shown: spec_fn(Seq<char>) -> Seq<char>,
) -> bool {
    forall|text: Seq<char>|
        shows_each(text, found(pattern, text), shown, #[trigger] replaced_all(pattern, text, by))
}

/// Whether [`replaced`] takes out the header, which is the first match of the
/// pattern and begins the text, and leaves a text without a header as it is.
pub open spec fn removes_the_header(pattern: Seq<char>) -> bool {
    forall|text: Seq<char>|
        {
            let headers = found(pattern, text);
            &&& headers.len() == 0 ==> #[trigger] replaced(pattern, text, ""@) == text
            &&& headers.len() > 0 ==> text == headers[0] + replaced(pattern, text, ""@)
        }
}

/// Whether the patterns mean what they are there for.
pub open spec fn patterns_work() -> bool {
    &&& removes_the_header(r"(?s)\A---\r?\n.*?\r?\n---\r?\n"@)
    &&& replaces_every_match(r"!\[\[[^\]]*\]\]"@, ""@, |m: Seq<char>| Seq::empty())
    &&& replaces_every_match(
        r"\[\[[^\]|]+\|([^\]]+)\]\]"@,
        "$1"@,
        |m: Seq<char>| alias_of(m),
    )
    &&& replaces_every_match(r"\[\[([^\]]+)\]\]"@, "$1"@, |m: Seq<char>| page_of(m))
    &&& replaces_every_match(r"\[([^\]]+)\]\([^)]*\)"@, "$1"@, |m: Seq<char>| label_of(m))
    &&& replaces_every_match(r"(?i)<br\s*/?>"@, "\n"@, |m: Seq<char>| "\n"@)
    &&& replaces_every_match(
        r"\\([\\\[\]()*_\-.#`~>])"@,
        "$1"@,
        |m: Seq<char>| m.subrange(1, 2),
    )
    &&& replaces_every_match(r"\n{3,}"@, "\n\n"@, |m: Seq<char>| "\n\n"@)
}

/// Whether `stages` lead from a raw text to a clean one: the header goes; every
/// embed goes; every link with an alias shows the alias, every other wiki link the
/// page, and every markdown link its label; every line-break tag becomes a
/// newline; every escape becomes the escaped character; every run of blank lines
/// becomes one.
pub open spec fn are_stages(raw: Seq<char>, stages: Seq<Seq<char>>) -> bool {
    let headers = found(r"(?s)\A---\r?\n.*?\r?\n---\r?\n"@, raw);
    &&& stages.len() == 8
    &&& raw == (if headers.len() > 0 {
        headers[0]
    } else {
        Seq::empty()
    }) + stages[0]
    &&& shows_each(
        stages[0],
        found(r"!\[\[[^\]]*\]\]"@, stages[0]),
        |m: Seq<char>| Seq::empty(),
        stages[1],
    )
    &&& shows_each(
        stages[1],
        found(r"\[\[[^\]|]+\|([^\]]+)\]\]"@, stages[1]),
        |m: Seq<char>| alias_of(m),
        stages[2],
    )
    &&& shows_each(
        stages[2],
        found(r"\[\[([^\]]+)\]\]"@, stages[2]),
        |m: Seq<char>| page_of(m),
        stages[3],
    )
    &&& shows_each(
        stages[3],
        found(r"\[([^\]]+)\]\([^)]*\)"@, stages[3]),
        |m: Seq<char>| label_of(m),
        stages[4],
    )
    &&& shows_each(
        stages[4],
        found(r"(?i)<br\s*/?>"@, stages[4]),
        |m: Seq<char>| "\n"@,
        stages[5],
    )
    &&& shows_each(
        stages[5],
        found(r"\\([\\\[\]()*_\-.#`~>])"@, stages[5]),
        |m: Seq<char>| m.subrange(1, 2),
        stages[6],
    )
    &&& shows_each(
        stages[6],
        found(r"\n{3,}"@, stages[6]),
        |m: Seq<char>| "\n\n"@,
        stages[7],
    )
}

/// Cleaning deals with every match of every pattern, one pattern after another,
/// and trims what is left.
pub proof fn law_cleaning_deals_with_every_match(raw: Seq<char>)
    ensures
        patterns_work() ==> exists|stages: Seq<Seq<char>>| #[trigger]
            are_stages(raw, stages) && cleaned(raw) == trim_of(stages[7]),
{
    if patterns_work() {
        let a = replaced(FRONTMATTER@, raw, ""@);
        let b = replaced_all(EMBED@, a, ""@);
        let c = replaced_all(WIKILINK_ALIAS@, b, "$1"@);
        let d = replaced_all(WIKILINK@, c, "$1"@);
        let e = replaced_all(MDLINK@, d, "$1"@);
        let f = replaced_all(BR_TAG@, e, "\n"@);
        let g = replaced_all(MD_ESCAPE@, f, "$1"@);
        let h = replaced_all(MANY_NEWLINES@, g, "\n\n"@);
        let stages = seq![a, b, c, d, e, f, g, h];
        assert(Seq::<char>::empty() + a =~= a);
        assert(are_stages(raw, stages));
    }
}

/// Whether cleaning leaves `s` alone but for its wiki links.
pub open spec fn has_only_wiki_links(s: Seq<char>, shown: Seq<char>) -> bool {
    &&& replaced(r"(?s)\A---\r?\n.*?\r?\n---\r?\n"@, s, ""@) == s
    &&& replaced_all(r"!\[\[[^\]]*\]\]"@, s, ""@) == s
    &&& replaced_all(r"\[\[[^\]|]+\|([^\]]+)\]\]"@, s, "$1"@) == s
    &&& replaced_all(r"\[([^\]]+)\]\([^)]*\)"@, shown, "$1"@) == shown
    &&& replaced_all(r"(?i)<br\s*/?>"@, shown, "\n"@) == shown
    &&& replaced_all(r"\\([\\\[\]()*_\-.#`~>])"@, shown, "$1"@) == shown
    &&& replaced_all(r"\n{3,}"@, shown, "\n\n"@) == shown
}

/// Every wiki link of a text shows its page, however many there are: a text of
/// `gaps` with the links `[[page]]` between them cleans to the gaps with the pages
/// between them, trimmed.
pub proof fn law_every_wiki_link_shows_its_page(gaps: Seq<Seq<char>>, pages: Seq<Seq<char>>)
    requires
        gaps.len() == pages.len() + 1,
    ensures
        ({
            let links = pages.map_values(|page: Seq<char>| "[["@ + page + "]]"@);
            let text = woven(gaps, links);
            &&& has_only_wiki_links(text, woven(gaps, pages))
            &&& replaced_all(r"\[\[([^\]]+)\]\]"@, text, "$1"@) == woven(
                gaps,
                links.map_values(|link: Seq<char>| page_of(link)),
            )
        }) ==> cleaned(woven(gaps, pages.map_values(|page: Seq<char>| "[["@ + page + "]]"@)))
            == trim_of(woven(gaps, pages)),
{
    let links = pages.map_values(|page: Seq<char>| "[["@ + page + "]]"@);
    reveal_strlit("[[");
    reveal_strlit("]]");
    assert forall|i: int| 0 <= i < pages.len() implies #[trigger] page_of(links[i]) == pages[i] by {
        assert(links[i] == "[["@ + pages[i] + "]]"@);
        assert(page_of(links[i]) =~= pages[i]);
    }
    assert(links.map_values(|link: Seq<char>| page_of(link)) =~= pages);
}

/// A text in which nothing is to be cleaned is only trimmed.
pub proof fn law_plain_text_is_only_trimmed(text: Seq<char>)
    ensures
        has_only_wiki_links(text, text) && replaced_all(r"\[\[([^\]]+)\]\]"@, text, "$1"@) == text
            ==> cleaned(text) == trim_of(text),
{
}

/// A single character is found at the first place where it stands.
proof fn lemma_first_char(s: Seq<char>, pat: Seq<char>, at: int)
    requires
        pat.len() == 1,
        0 <= at < s.len(),
        s[at] == pat[0],
        forall|i: int| 0 <= i < at ==> #[trigger] s[i] != pat[0],
    ensures
        first_from(s, pat, 0) == Some(at),
{
    lemma_first_from(s, pat, 0);
    assert(s.subrange(at, at + 1) =~= pat);
    assert(occurs_at(s, pat, at));
    let i = first_from(s, pat, 0)->0;
    assert(s.subrange(i, i + 1)[0] == s[i]);
}

proof fn lemma_alias(x: Seq<char>, y: Seq<char>)
    requires
        !x.contains('|'),
    ensures
        alias_of("[["@ + x + "|"@ + y + "]]"@) == y,
{
    reveal_strlit("[[");
    reveal_strlit("]]");
    reveal_strlit("|");
    let link = "[["@ + x + "|"@ + y + "]]"@;
    let at = 2 + x.len() as int;
    assert forall|i: int| 0 <= i < at implies #[trigger] link[i] != '|' by {
        if i >= 2 {
            assert(link[i] == x[i - 2]);
        }
    }
    lemma_first_char(link, "|"@, at);
    assert(alias_of(link) =~= y);
}

proof fn lemma_label(x: Seq<char>, y: Seq<char>)
    requires
        !x.contains(']'),
    ensures
        label_of("["@ + x + "]("@ + y + ")"@) == x,
{
    reveal_strlit("[");
    reveal_strlit("](");
    reveal_strlit("]");
    reveal_strlit(")");
    let link = "["@ + x + "]("@ + y + ")"@;
    let at = 1 + x.len() as int;
    assert forall|i: int| 0 <= i < at implies #[trigger] link[i] != ']' by {
        if i >= 1 {
            assert(link[i] == x[i - 1]);
        }
    }
    lemma_first_char(link, "]"@, at);
    assert(label_of(link) =~= x);
}

/// What is seen of each kind of link.
pub proof fn law_links_show_their_text(x: Seq<char>, y: Seq<char>)
    ensures
        page_of("[["@ + x + "]]"@) == x,
        !x.contains('|') ==> alias_of("[["@ + x + "|"@ + y + "]]"@) == y,
        !x.contains(']') ==> label_of("["@ + x + "]("@ + y + ")"@) == x,
{
    if !x.contains('|') {
        lemma_alias(x, y);
    }
    if !x.contains(']') {
        lemma_label(x, y);
    }
    reveal_strlit("[[");
    reveal_strlit("]]");
    assert(page_of("[["@ + x + "]]"@) =~= x);
}

/// The patterns in the order in which they are tried.
pub open spec fn all_patterns() -> Seq<Seq<char>> {
    seq![
        r"(?s)\A---\r?\n.*?\r?\n---\r?\n"@,
        r"!\[\[[^\]]*\]\]"@,
        r"\[\[[^\]|]+\|([^\]]+)\]\]"@,
        r"\[\[([^\]]+)\]\]"@,
        r"\[([^\]]+)\]\([^)]*\)"@,
        r"(?i)<br\s*/?>"@,
        r"\\([\\\[\]()*_\-.#`~>])"@,
        r"\n{3,}"@,
    ]
}

/// Either all the patterns compile, or the one that is told does not, and all
/// those before it do.
pub proof fn law_the_first_bad_pattern_is_told()
    ensures
        patterns_compile() <==> forall|i: int|
            0 <= i < all_patterns().len() ==> compiles(#[trigger] all_patterns()[i]),
        !patterns_compile() ==> exists|i: int|
            0 <= i < all_patterns().len() && first_rejected() == #[trigger] all_patterns()[i]
                && !compiles(all_patterns()[i]) && forall|j: int|
                0 <= j < i ==> compiles(#[trigger] all_patterns()[j]),
{
    let all = all_patterns();
    assert(all[0] == FRONTMATTER@ && all[1] == EMBED@ && all[2] == WIKILINK_ALIAS@ && all[3]
        == WIKILINK@ && all[4] == MDLINK@ && all[5] == BR_TAG@ && all[6] == MD_ESCAPE@ && all[7]
        == MANY_NEWLINES@);
}

// ---------------------------------------------------------------------------
// Laws of gathering
// ---------------------------------------------------------------------------

/// The corpus is gathered note by note: each gives its cleaned text and a blank
/// line, and counts as a file, unless nothing is left of it.
pub proof fn law_the_corpus_is_gathered_note_by_note(a: Seq<Note>, b: Seq<Note>, note: Note)
    ensures
        corpus_text(a + b) == corpus_text(a) + corpus_text(b),
        corpus_files(a + b) == corpus_files(a) + corpus_files(b),
        cleaned(note.raw@).len() > 0 ==> corpus_text(seq![note]) == cleaned(note.raw@) + "\n\n"@
            && corpus_files(seq![note]) == 1,
        cleaned(note.raw@).len() == 0 ==> corpus_text(seq![note]).len() == 0 && corpus_files(
            seq![note],
        ) == 0,
    decreases b.len(),
{
    reveal_with_fuel(corpus_text, 2);
    reveal_with_fuel(corpus_files, 2);
    assert(seq![note].drop_last() =~= Seq::empty());
    let text = cleaned(note.raw@);
    assert(Seq::<char>::empty() + text + "\n\n"@ =~= text + "\n\n"@);
    if b.len() == 0 {
        assert(a + b =~= a);
        assert(corpus_text(a) + corpus_text(b) =~= corpus_text(a));
    } else {
        law_the_corpus_is_gathered_note_by_note(a, b.drop_last(), note);
        assert((a + b).drop_last() =~= a + b.drop_last());
        assert(corpus_text(a + b) =~= corpus_text(a) + corpus_text(b));
    }
}

/// The passages are gathered note by note: each note gives those of its cleaned
/// text, with its own source.
pub proof fn law_passages_are_gathered_note_by_note(
    a: Seq<Note>,
    b: Seq<Note>,
    note: Note,
    target_words: int,
    i: int,
)
    ensures
        chunks_of(a + b, target_words) == chunks_of(a, target_words) + chunks_of(b, target_words),
        chunks_of(seq![note], target_words).len() == passages_of(
            cleaned(note.raw@),
            target_words,
        ).len(),
        0 <= i < chunks_of(seq![note], target_words).len() ==> {
            let c = chunks_of(seq![note], target_words)[i];
            c.source == note.source@ && c.text == passages_of(cleaned(note.raw@), target_words)[i]
        },
    decreases b.len(),
{
    reveal_with_fuel(chunks_of, 2);
    assert(seq![note].drop_last() =~= Seq::empty());
    if b.len() == 0 {
        assert(a + b =~= a);
        assert(chunks_of(a, target_words) + chunks_of(b, target_words) =~= chunks_of(
            a,
            target_words,
        ));
    } else {
        law_passages_are_gathered_note_by_note(a, b.drop_last(), note, target_words, i);
        assert((a + b).drop_last() =~= a + b.drop_last());
        assert(chunks_of(a + b, target_words) =~= chunks_of(a, target_words) + chunks_of(
            b,
            target_words,
        ));
    }
}

proof fn lemma_found_shifted(a: Seq<char>, b: Seq<char>, pat: Seq<char>, k: int)
    requires
        0 <= k,
    ensures
        first_from(a + b, pat, a.len() + k) == match first_from(b, pat, k) {
            Some(i) => Some(a.len() + i),
            None => None,
        },
    decreases b.len() - k + 1,
{
    let s = a + b;
    let at = a.len() + k;
    if at + pat.len() <= s.len() {
        assert(s.subrange(at, at + pat.len()) =~= b.subrange(k, k + pat.len()));
        assert(occurs_at(s, pat, at) == occurs_at(b, pat, k));
        if !occurs_at(b, pat, k) {
            lemma_found_shifted(a, b, pat, k + 1);
        }
    }
}

proof fn lemma_split_shifted(a: Seq<char>, b: Seq<char>, pat: Seq<char>, k: int)
    requires
        pat.len() > 0,
        0 <= k <= b.len(),
    ensures
        split_from(a + b, pat, a.len() + k) == split_from(b, pat, k),
    decreases b.len() - k,
{
    let s = a + b;
    lemma_found_shifted(a, b, pat, k);
    lemma_first_from(b, pat, k);
    lemma_first_from(s, pat, a.len() + k);
    match first_from(b, pat, k) {
        Some(i) => {
            assert(s.subrange(a.len() + k, a.len() + i) =~= b.subrange(k, i));
            lemma_split_shifted(a, b, pat, i + pat.len());
        },
        None => {
            assert(s.skip(a.len() + k) =~= b.skip(k));
        },
    }
}

/// Paragraphs lie between blank lines: up to the first one, what stands there is a
/// paragraph, trimmed, or none where it is blank; and behind it the rest is cut in
/// the same way.
pub proof fn law_paragraphs_lie_between_blank_lines(first: Seq<char>, rest: Seq<char>)
    requires
        !occurs_in(first + "\n"@, "\n\n"@),
    ensures
        paragraphs_of(first + "\n\n"@ + rest) == paragraphs_of(first) + paragraphs_of(rest),
        paragraphs_of(first) == if trim_of(first).len() > 0 {
            seq![trim_of(first)]
        } else {
            Seq::empty()
        },
{
    reveal_strlit("\n\n");
    reveal_strlit("\n");
    let sep = "\n\n"@;
    let s = first + sep + rest;
    let at = first.len() as int;
    lemma_first_from(s, sep, 0);
    assert(s.subrange(at, at + 2) =~= sep);
    assert(occurs_at(s, sep, at));
    let i = first_from(s, sep, 0)->0;
    if i < at {
        assert((first + "\n"@).subrange(i, i + 2) =~= s.subrange(i, i + 2));
        assert(occurs_at(first + "\n"@, sep, i));
    }
    assert(s.subrange(0, at) =~= first);
    assert(s =~= (first + sep) + rest);
    lemma_split_shifted(first + sep, rest, sep, 0);
    assert(split_from(s, sep, 0) =~= seq![first] + split_from(rest, sep, 0));
    lemma_first_from(first, sep, 0);
    if let Some(k) = first_from(first, sep, 0) {
        assert((first + "\n"@).subrange(k, k + 2) =~= first.subrange(k, k + 2));
        assert(occurs_at(first + "\n"@, sep, k));
    }
    assert(first.skip(0) =~= first);
    assert(split_from(first, sep, 0) =~= seq![first]);
    let trimmed = |p: Seq<char>| trim_of(p);
    let keep = |p: Seq<char>| p.len() > 0;
    let one = seq![first].map_values(trimmed);
    let more = split_from(rest, sep, 0).map_values(trimmed);
    assert(split_from(s, sep, 0).map_values(trimmed) =~= one + more);
    Seq::filter_distributes_over_add(one, more, keep);
    reveal_with_fuel(Seq::filter, 2);
    assert(one.drop_last() =~= Seq::empty());
    assert(Seq::<Seq<char>>::empty().push(trim_of(first)) =~= seq![trim_of(first)]);
}

/// The words of a group are counted paragraph by paragraph.
pub proof fn law_words_are_counted_by_paragraph(a: Seq<Seq<char>>, b: Seq<Seq<char>>, p: Seq<char>)
    ensures
        word_total(a + b) == word_total(a) + word_total(b),
        word_total(seq![p]) == words_of(p).len(),
    decreases b.len(),
{
    reveal_with_fuel(word_total, 2);
    assert(seq![p].drop_last() =~= Seq::empty());
    if b.len() == 0 {
        assert(a + b =~= a);
    } else {
        law_words_are_counted_by_paragraph(a, b.drop_last(), p);
        assert((a + b).drop_last() =~= a + b.drop_last());
    }
}

/// Whether `groups` are the paragraphs in order, each group closed by the
/// paragraph with which it reaches the target, and only the last one short of it.
pub open spec fn are_groups(
    groups: Seq<Seq<Seq<char>>>,
    paragraphs: Seq<Seq<char>>,
    target_words: int,
) -> bool {
    &&& groups.flatten() == paragraphs
    &&& forall|i: int|
        0 <= i < groups.len() ==> {
            &&& (#[trigger] groups[i]).len() > 0
            &&& i < groups.len() - 1 ==> words_of(join_of(groups[i], "\n\n"@)).len() >= target_words
            &&& groups[i].len() > 1 ==> words_of(join_of(groups[i].drop_last(), "\n\n"@)).len()
                < target_words
        }
}

/// The passages are such groups of paragraphs, each joined by blank lines.
pub proof fn law_passages_are_groups_of_paragraphs(text: Seq<char>, target_words: int)
    ensures
        exists|groups: Seq<Seq<Seq<char>>>|
            {
                &&& #[trigger] are_groups(groups, paragraphs_of(text), target_words)
                &&& passages_of(text, target_words).len() == groups.len()
                &&& forall|i: int|
                    0 <= i < groups.len() ==> #[trigger] passages_of(text, target_words)[i]
                        == join_of(groups[i], "\n\n"@)
            },
{
    let paragraphs = paragraphs_of(text);
    let g = grouped(paragraphs, target_words);
    let groups = g.all();
    law_grouping_keeps_paragraphs(paragraphs, target_words);
    law_groups_are_just_large_enough(paragraphs, target_words);
    lemma_groups_hold_something(paragraphs, target_words);
    assert forall|i: int| 0 <= i < groups.len() implies {
        &&& (#[trigger] groups[i]).len() > 0
        &&& i < groups.len() - 1 ==> words_of(join_of(groups[i], "\n\n"@)).len() >= target_words
        &&& groups[i].len() > 1 ==> words_of(join_of(groups[i].drop_last(), "\n\n"@)).len()
            < target_words
    } by {
        let group = groups[i];
        law_passage_words(group);
        law_passage_words(group.drop_last());
        if i < g.done.len() {
            assert(g.done[i].len() >= 1);
        } else {
            assert(group == g.open);
            assert(word_total(group) == word_total(group.drop_last()) + words_of(
                group.last(),
            ).len());
        }
    }
    assert(are_groups(groups, paragraphs, target_words));
}

} // verus!
