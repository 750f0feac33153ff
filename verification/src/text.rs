//! Text as sequences of characters.
//!
//! Every string the library reads is viewed as a `Seq<char>`. This module says
//! what trimming, splitting, joining and searching mean on such sequences, and
//! gives the executable counterparts on `Vec<char>`.
use vstd::prelude::*;

verus! {

/// `String::push`: appends one character to the end of the string.
pub assume_specification[ String::push ](s: &mut String, c: char)
    ensures
        final(s)@ == old(s)@.push(c),
;

/// The texts held by a sequence of character vectors.
pub open spec fn texts(v: Seq<Vec<char>>) -> Seq<Seq<char>> {
    v.map_values(|x: Vec<char>| x@)
}

/// The texts held by a sequence of strings.
pub open spec fn strings(v: Seq<String>) -> Seq<Seq<char>> {
    v.map_values(|x: String| x@)
}

/// The characters of `s`, in order.
pub fn to_chars(s: &str) -> (r: Vec<char>)
    ensures
        r@ == s@,
{
    let mut v: Vec<char> = Vec::new();
    for c in it: s.chars()
        invariant
            it.seq() == s@,
            v@ == s@.take(it.index() as int),
    {
        v.push(c);
    }
    v
}

/// The string made of the characters of `v`.
pub fn from_chars(v: &Vec<char>) -> (r: String)
    ensures
        r@ == v@,
{
    let mut s: String = String::new();
    let mut i: usize = 0;
    while i < v.len()
        invariant
            i <= v.len(),
            s@ == v@.take(i as int),
        decreases v.len() - i,
    {
        s.push(v[i]);
        i += 1;
    }
    assert(v@.take(i as int) =~= v@);
    s
}

/// The characters of `v` from position `from` up to, not including, `to`.
pub fn slice_chars(v: &Vec<char>, from: usize, to: usize) -> (r: Vec<char>)
    requires
        from <= to <= v.len(),
    ensures
        r@ == v@.subrange(from as int, to as int),
{
    let mut out: Vec<char> = Vec::new();
    let mut i: usize = from;
    while i < to
        invariant
            from <= i <= to <= v.len(),
            out@ == v@.subrange(from as int, i as int),
        decreases to - i,
    {
        out.push(v[i]);
        i += 1;
    }
    out
}

/// Appends the characters of `more` to `v`.
pub fn extend_chars(v: &mut Vec<char>, more: &Vec<char>)
    ensures
        final(v)@ == old(v)@ + more@,
{
    let mut i: usize = 0;
    while i < more.len()
        invariant
            i <= more.len(),
            v@ == old(v)@ + more@.take(i as int),
        decreases more.len() - i,
    {
        v.push(more[i]);
        i += 1;
    }
    assert(more@.take(i as int) =~= more@);
}

/// Whether two character vectors hold the same text.
pub fn same_text(a: &Vec<char>, b: &Vec<char>) -> (r: bool)
    ensures
        r == (a@ == b@),
{
    if a.len() != b.len() {
        return false;
    }
    let mut i: usize = 0;
    while i < a.len()
        invariant
            i <= a.len(),
            a.len() == b.len(),
            forall|k: int| 0 <= k < i ==> a@[k] == b@[k],
        decreases a.len() - i,
    {
        if a[i] != b[i] {
            return false;
        }
        i += 1;
    }
    assert(a@ =~= b@);
    true
}

// ---------------------------------------------------------------------------
// White space and trimming
// ---------------------------------------------------------------------------

/// The Unicode `White_Space` property.
pub open spec fn is_white(c: char) -> bool {
    let n = c as u32;
    ||| 0x9 <= n <= 0xd
    ||| n == 0x20
    ||| n == 0x85
    ||| n == 0xa0
    ||| n == 0x1680
    ||| 0x2000 <= n <= 0x200a
    ||| n == 0x2028
    ||| n == 0x2029
    ||| n == 0x202f
    ||| n == 0x205f
    ||| n == 0x3000
}

/// Whether `c` is white space.
pub fn white(c: char) -> (r: bool)
    ensures
        r == is_white(c),
{
    let n: u32 = c as u32;
    (0x9 <= n && n <= 0xd) || n == 0x20 || n == 0x85 || n == 0xa0 || n == 0x1680 || (0x2000 <= n
        && n <= 0x200a) || n == 0x2028 || n == 0x2029 || n == 0x202f || n == 0x205f || n == 0x3000
}

/// `s` without its leading white space.
pub open spec fn trim_start(s: Seq<char>) -> Seq<char>
    decreases s.len(),
{
    if s.len() > 0 && is_white(s[0]) {
        trim_start(s.drop_first())
    } else {
        s
    }
}

/// `s` without its trailing white space.
pub open spec fn trim_end(s: Seq<char>) -> Seq<char>
    decreases s.len(),
{
    if s.len() > 0 && is_white(s.last()) {
        trim_end(s.drop_last())
    } else {
        s
    }
}

/// `s` without leading and trailing white space.
pub open spec fn trim_of(s: Seq<char>) -> Seq<char> {
    trim_end(trim_start(s))
}

/// What is left after [`trim_end`] ends in no white space, and starts as before.
proof fn lemma_trim_end(s: Seq<char>)
    ensures
        trim_end(s).len() <= s.len(),
        trim_end(s) == s.take(trim_end(s).len() as int),
        trim_end(s).len() > 0 ==> !is_white(trim_end(s).last()),
        trim_end(trim_end(s)) == trim_end(s),
    decreases s.len(),
{
    if s.len() > 0 && is_white(s.last()) {
        lemma_trim_end(s.drop_last());
        assert(s.drop_last().take(trim_end(s).len() as int) =~= s.take(trim_end(s).len() as int));
    } else {
        assert(s.take(s.len() as int) =~= s);
    }
}

proof fn lemma_trim_start(s: Seq<char>)
    ensures
        trim_start(s).len() > 0 ==> !is_white(trim_start(s)[0]),
    decreases s.len(),
{
    if s.len() > 0 && is_white(s[0]) {
        lemma_trim_start(s.drop_first());
    }
}

/// Trimming a trimmed text changes nothing.
pub proof fn lemma_trim_twice(s: Seq<char>)
    ensures
        trim_of(trim_of(s)) == trim_of(s),
{
    let a = trim_start(s);
    lemma_trim_start(s);
    lemma_trim_end(a);
    let t = trim_end(a);
    if t.len() > 0 {
        assert(t[0] == a[0]);
    }
    assert(trim_start(t) == t);
}

/// `v` without leading and trailing white space.
pub fn trim_chars(v: &Vec<char>) -> (r: Vec<char>)
    ensures
        r@ == trim_of(v@),
{
    let n: usize = v.len();
    let mut i: usize = 0;
    assert(v@.skip(0) =~= v@);
    while i < n && white(v[i])
        invariant
            i <= n == v.len(),
            trim_start(v@) == trim_start(v@.skip(i as int)),
        decreases n - i,
    {
        assert(v@.skip(i as int).drop_first() =~= v@.skip(i + 1));
        i += 1;
    }
    let mut j: usize = n;
    assert(v@.subrange(i as int, n as int) =~= v@.skip(i as int));
    while i < j && white(v[j - 1])
        invariant
            i <= j <= n == v.len(),
            trim_of(v@) == trim_end(v@.subrange(i as int, j as int)),
        decreases j - i,
    {
        assert(v@.subrange(i as int, j as int).drop_last() =~= v@.subrange(i as int, j - 1));
        j -= 1;
    }
    slice_chars(v, i, j)
}

/// `s` without leading and trailing white space.
pub fn trim(s: &str) -> (r: String)
    ensures
        r@ == trim_of(s@),
{
    from_chars(&trim_chars(&to_chars(s)))
}

/// `s` without every `c` that ends it.
pub open spec fn strip_end(s: Seq<char>, c: char) -> Seq<char>
    decreases s.len(),
{
    if s.len() > 0 && s.last() == c {
        strip_end(s.drop_last(), c)
    } else {
        s
    }
}

/// Drops every `c` that ends `v`.
pub fn strip_end_chars(v: &mut Vec<char>, c: char)
    ensures
        final(v)@ == strip_end(old(v)@, c),
{
    while v.len() > 0 && v[v.len() - 1] == c
        invariant
            strip_end(v@, c) == strip_end(old(v)@, c),
        decreases v.len(),
    {
        assert(v@.last() == c);
        v.pop();
    }
}

/// `s` without any `c`.
pub open spec fn without(s: Seq<char>, c: char) -> Seq<char>
    decreases s.len(),
{
    if s.len() == 0 {
        s
    } else if s.last() == c {
        without(s.drop_last(), c)
    } else {
        without(s.drop_last(), c).push(s.last())
    }
}

/// The characters of `v` other than `c`.
pub fn without_chars(v: &Vec<char>, c: char) -> (r: Vec<char>)
    ensures
        r@ == without(v@, c),
{
    let mut out: Vec<char> = Vec::new();
    let mut i: usize = 0;
    while i < v.len()
        invariant
            i <= v.len(),
            out@ == without(v@.take(i as int), c),
        decreases v.len() - i,
    {
        assert(v@.take(i + 1).drop_last() =~= v@.take(i as int));
        if v[i] != c {
            out.push(v[i]);
        }
        i += 1;
    }
    assert(v@.take(i as int) =~= v@);
    out
}

// ---------------------------------------------------------------------------
// Splitting at characters
// ---------------------------------------------------------------------------

/// A name for the result of `char::is_alphanumeric`.
pub uninterp spec fn is_alphanumeric(c: char) -> bool;

/// `char::is_alphanumeric`: whether `c` is alphabetic or numeric in Unicode.
/// The result is a function of the character alone; which characters these are
/// is left to the standard library's tables.
#[verifier::external_body]
fn alphanumeric(c: char) -> (r: bool)
    ensures
        r == is_alphanumeric(c),
{
    c.is_alphanumeric()
}

/// The characters at which a text is cut into pieces.
#[derive(Clone, Copy)]
pub enum Cut {
    /// White space.
    White,
    /// The newline.
    Newline,
    /// The end of a sentence: a full stop, `!`, `?` or a newline.
    Sentence,
    /// Whatever is neither a letter nor a digit.
    NonWord,
}

impl Cut {
    /// Whether a text is cut at `c`.
    pub open spec fn cuts(self, c: char) -> bool {
        match self {
            Cut::White => is_white(c),
            Cut::Newline => c == '\n',
            Cut::Sentence => c == '.' || c == '!' || c == '?' || c == '\n',
            Cut::NonWord => !is_alphanumeric(c),
        }
    }

    fn cuts_at(self, c: char) -> (r: bool)
        ensures
            r == self.cuts(c),
    {
        match self {
            Cut::White => white(c),
            Cut::Newline => c == '\n',
            Cut::Sentence => c == '.' || c == '!' || c == '?' || c == '\n',
            Cut::NonWord => !alphanumeric(c),
        }
    }
}

/// The pieces of `s` between the characters at which it is cut; one more than
/// there are such characters.
pub open spec fn pieces_of(s: Seq<char>, cut: Cut) -> Seq<Seq<char>>
    decreases s.len(),
{
    if s.len() == 0 {
        seq![Seq::<char>::empty()]
    } else {
        let before = pieces_of(s.drop_last(), cut);
        if cut.cuts(s.last()) {
            before.push(Seq::empty())
        } else {
            before.drop_last().push(before.last().push(s.last()))
        }
    }
}

/// The pieces of `s` that are not empty.
pub open spec fn runs_of(s: Seq<char>, cut: Cut) -> Seq<Seq<char>> {
    pieces_of(s, cut).filter(|p: Seq<char>| p.len() > 0)
}

/// The words of `s`: its runs of characters that are not white space.
pub open spec fn words_of(s: Seq<char>) -> Seq<Seq<char>> {
    runs_of(s, Cut::White)
}

/// There is always at least one piece.
pub proof fn lemma_pieces_not_empty(s: Seq<char>, cut: Cut)
    ensures
        pieces_of(s, cut).len() >= 1,
    decreases s.len(),
{
    if s.len() > 0 {
        lemma_pieces_not_empty(s.drop_last(), cut);
    }
}

/// Cuts `v` into pieces.
pub fn pieces(v: &Vec<char>, cut: Cut) -> (r: Vec<Vec<char>>)
    ensures
        texts(r@) == pieces_of(v@, cut),
{
    let mut done: Vec<Vec<char>> = Vec::new();
    let mut last: Vec<char> = Vec::new();
    let mut i: usize = 0;
    assert(texts(done@).push(last@) =~= pieces_of(v@.take(0), cut));
    while i < v.len()
        invariant
            i <= v.len(),
            texts(done@).push(last@) == pieces_of(v@.take(i as int), cut),
        decreases v.len() - i,
    {
        let ghost before = pieces_of(v@.take(i as int), cut);
        assert(v@.take(i + 1).drop_last() =~= v@.take(i as int));
        assert(before.drop_last() =~= texts(done@));
        if cut.cuts_at(v[i]) {
            let ghost finished = done@;
            done.push(last);
            assert(texts(done@) =~= texts(finished).push(last@));
            last = Vec::new();
        } else {
            last.push(v[i]);
        }
        i += 1;
    }
    assert(v@.take(i as int) =~= v@);
    let ghost finished = done@;
    done.push(last);
    assert(texts(done@) =~= texts(finished).push(last@));
    done
}

/// Cuts `v` into pieces and keeps those that are not empty.
pub fn runs(v: &Vec<char>, cut: Cut) -> (r: Vec<Vec<char>>)
    ensures
        texts(r@) == runs_of(v@, cut),
{
    let all: Vec<Vec<char>> = pieces(v, cut);
    let mut out: Vec<Vec<char>> = Vec::new();
    let mut i: usize = 0;
    let ghost keep = |p: Seq<char>| p.len() > 0;
    while i < all.len()
        invariant
            i <= all.len(),
            keep == (|p: Seq<char>| p.len() > 0),
            texts(out@) == texts(all@).take(i as int).filter(keep),
        decreases all.len() - i,
    {
        reveal(Seq::filter);
        assert(texts(all@).take(i + 1).drop_last() =~= texts(all@).take(i as int));
        let piece: Vec<char> = slice_chars(&all[i], 0, all[i].len());
        assert(piece@ =~= all@[i as int]@);
        assert(texts(all@).take(i + 1).last() == piece@);
        if piece.len() > 0 {
            let ghost kept = out@;
            out.push(piece);
            assert(texts(out@) =~= texts(kept).push(piece@));
        }
        i += 1;
    }
    assert(texts(all@).take(i as int) =~= texts(all@));
    out
}

// ---------------------------------------------------------------------------
// Joining
// ---------------------------------------------------------------------------

/// The texts of `parts` one after another, with `sep` between neighbours.
pub open spec fn join_of(parts: Seq<Seq<char>>, sep: Seq<char>) -> Seq<char>
    decreases parts.len(),
{
    if parts.len() == 0 {
        Seq::empty()
    } else if parts.len() == 1 {
        parts[0]
    } else {
        join_of(parts.drop_last(), sep) + sep + parts.last()
    }
}

/// Joins `parts` with `sep` between neighbours.
pub fn join(parts: &Vec<Vec<char>>, sep: &Vec<char>) -> (r: Vec<char>)
    ensures
        r@ == join_of(texts(parts@), sep@),
{
    let mut out: Vec<char> = Vec::new();
    let mut i: usize = 0;
    while i < parts.len()
        invariant
            i <= parts.len(),
            out@ == join_of(texts(parts@).take(i as int), sep@),
        decreases parts.len() - i,
    {
        assert(texts(parts@).take(i + 1).drop_last() =~= texts(parts@).take(i as int));
        if i > 0 {
            extend_chars(&mut out, sep);
        }
        extend_chars(&mut out, &parts[i]);
        assert(out@ =~= join_of(texts(parts@).take(i + 1), sep@));
        i += 1;
    }
    assert(texts(parts@).take(i as int) =~= texts(parts@));
    out
}

// ---------------------------------------------------------------------------
// Searching
// ---------------------------------------------------------------------------

/// Whether `pat` stands in `s` at position `i`.
pub open spec fn occurs_at(s: Seq<char>, pat: Seq<char>, i: int) -> bool {
    &&& 0 <= i
    &&& i + pat.len() <= s.len()
    &&& s.subrange(i, i + pat.len()) == pat
}

/// Whether `pat` stands somewhere in `s`.
pub open spec fn occurs_in(s: Seq<char>, pat: Seq<char>) -> bool {
    exists|i: int| occurs_at(s, pat, i)
}

/// The first position at or after `from` where `pat` stands in `s`.
pub open spec fn first_from(s: Seq<char>, pat: Seq<char>, from: int) -> Option<int>
    decreases s.len() - from + 1,
{
    if from + pat.len() > s.len() {
        None
    } else if occurs_at(s, pat, from) {
        Some(from)
    } else {
        first_from(s, pat, from + 1)
    }
}

/// The last position at or before `to` where `pat` stands in `s`.
pub open spec fn last_to(s: Seq<char>, pat: Seq<char>, to: int) -> Option<int>
    decreases to + 1,
{
    if to < 0 {
        None
    } else if occurs_at(s, pat, to) {
        Some(to)
    } else {
        last_to(s, pat, to - 1)
    }
}

/// What [`first_from`] finds: the position is one where the pattern stands, and
/// there is none before it.
pub proof fn lemma_first_from(s: Seq<char>, pat: Seq<char>, from: int)
    requires
        0 <= from,
    ensures
        match first_from(s, pat, from) {
            Some(i) => from <= i && occurs_at(s, pat, i) && forall|k: int|
                from <= k < i ==> !occurs_at(s, pat, k),
            None => forall|k: int| from <= k ==> !occurs_at(s, pat, k),
        },
    decreases s.len() - from + 1,
{
    if from + pat.len() <= s.len() && !occurs_at(s, pat, from) {
        lemma_first_from(s, pat, from + 1);
    }
}

/// What [`last_to`] finds: the position is one where the pattern stands, and
/// there is none after it.
pub proof fn lemma_last_to(s: Seq<char>, pat: Seq<char>, to: int)
    ensures
        match last_to(s, pat, to) {
            Some(i) => i <= to && occurs_at(s, pat, i) && forall|k: int|
                i < k <= to ==> !occurs_at(s, pat, k),
            None => forall|k: int| k <= to ==> !occurs_at(s, pat, k),
        },
    decreases to + 1,
{
    if 0 <= to && !occurs_at(s, pat, to) {
        lemma_last_to(s, pat, to - 1);
    }
}

/// Whether `pat` stands in `v` at position `i`.
pub fn stands_at(v: &Vec<char>, pat: &Vec<char>, i: usize) -> (r: bool)
    ensures
        r == occurs_at(v@, pat@, i as int),
{
    if i > v.len() || pat.len() > v.len() - i {
        return false;
    }
    let mut k: usize = 0;
    while k < pat.len()
        invariant
            k <= pat.len(),
            i + pat.len() <= v.len(),
            forall|j: int| 0 <= j < k ==> v@[i + j] == pat@[j],
        decreases pat.len() - k,
    {
        if v[i + k] != pat[k] {
            assert(v@.subrange(i as int, i + pat.len())[k as int] == v@[i + k]);
            return false;
        }
        k += 1;
    }
    assert(v@.subrange(i as int, i + pat.len()) =~= pat@);
    true
}

/// The first position at or after `from` where `pat` stands in `v`.
pub fn find_from(v: &Vec<char>, pat: &Vec<char>, from: usize) -> (r: Option<usize>)
    ensures
        match r {
            Some(i) => first_from(v@, pat@, from as int) == Some(i as int),
            None => first_from(v@, pat@, from as int) is None,
        },
{
    let mut i: usize = from;
    while i <= v.len() && pat.len() <= v.len() - i
        invariant
            from <= i,
            i <= v.len() + 1 || i == from,
            first_from(v@, pat@, from as int) == first_from(v@, pat@, i as int),
        decreases v.len() + 1 - i,
    {
        if stands_at(v, pat, i) {
            return Some(i);
        }
        if i == v.len() {
            assert(first_from(v@, pat@, i + 1) is None);
            return None;
        }
        i += 1;
    }
    None
}

/// The last position where `pat` stands in `v`.
pub fn find_last(v: &Vec<char>, pat: &Vec<char>) -> (r: Option<usize>)
    ensures
        match r {
            Some(i) => last_to(v@, pat@, v@.len() as int) == Some(i as int),
            None => last_to(v@, pat@, v@.len() as int) is None,
        },
{
    let mut i: usize = v.len();
    loop
        invariant
            i <= v.len(),
            last_to(v@, pat@, v@.len() as int) == last_to(v@, pat@, i as int),
        decreases i,
    {
        if stands_at(v, pat, i) {
            return Some(i);
        }
        if i == 0 {
            assert(last_to(v@, pat@, -1) is None);
            return None;
        }
        i -= 1;
    }
}

/// Whether `pat` stands somewhere in `v`.
pub fn contains(v: &Vec<char>, pat: &Vec<char>) -> (r: bool)
    ensures
        r == occurs_in(v@, pat@),
{
    proof {
        lemma_first_from(v@, pat@, 0);
    }
    find_from(v, pat, 0).is_some()
}

/// `s` with the first `pat` in it replaced by `by`; `s` itself where there is none.
pub open spec fn replace_first_of(s: Seq<char>, pat: Seq<char>, by: Seq<char>) -> Seq<char> {
    match first_from(s, pat, 0) {
        Some(i) => s.take(i) + by + s.skip(i + pat.len()),
        None => s,
    }
}

/// Replaces the first `pat` in `v` by `by`.
pub fn replace_first(v: &Vec<char>, pat: &Vec<char>, by: &Vec<char>) -> (r: Vec<char>)
    ensures
        r@ == replace_first_of(v@, pat@, by@),
{
    proof {
        lemma_first_from(v@, pat@, 0);
    }
    match find_from(v, pat, 0) {
        Some(i) => {
            let mut out: Vec<char> = slice_chars(v, 0, i);
            extend_chars(&mut out, by);
            extend_chars(&mut out, &slice_chars(v, i + pat.len(), v.len()));
            out
        },
        None => slice_chars(v, 0, v.len()),
    }
}

/// The parts of `s` from position `start` on, between the occurrences of `pat`,
/// taken from left to right without overlap.
pub open spec fn split_from(s: Seq<char>, pat: Seq<char>, start: int) -> Seq<Seq<char>>
    decreases s.len() - start,
{
    if pat.len() == 0 || start < 0 || start > s.len() {
        Seq::empty()
    } else {
        proof {
            lemma_first_from(s, pat, start);
        }
        match first_from(s, pat, start) {
            Some(i) => seq![s.subrange(start, i)] + split_from(s, pat, i + pat.len()),
            None => seq![s.skip(start)],
        }
    }
}

/// The parts of `v` between the occurrences of `pat`.
pub fn split(v: &Vec<char>, pat: &Vec<char>) -> (r: Vec<Vec<char>>)
    requires
        pat@.len() > 0,
    ensures
        texts(r@) == split_from(v@, pat@, 0),
{
    let mut out: Vec<Vec<char>> = Vec::new();
    let mut start: usize = 0;
    assert(texts(out@) + split_from(v@, pat@, 0) =~= split_from(v@, pat@, 0));
    loop
        invariant
            pat@.len() > 0,
            start <= v.len(),
            texts(out@) + split_from(v@, pat@, start as int) == split_from(v@, pat@, 0),
        decreases v.len() - start,
    {
        let ghost done = out@;
        proof {
            lemma_first_from(v@, pat@, start as int);
        }
        match find_from(v, pat, start) {
            Some(i) => {
                let part: Vec<char> = slice_chars(v, start, i);
                out.push(part);
                assert(texts(out@) =~= texts(done).push(part@));
                assert(texts(out@) + split_from(v@, pat@, i + pat.len()) =~= texts(done)
                    + split_from(v@, pat@, start as int));
                start = i + pat.len();
            },
            None => {
                let part: Vec<char> = slice_chars(v, start, v.len());
                assert(v@.subrange(start as int, v.len() as int) =~= v@.skip(start as int));
                out.push(part);
                assert(texts(out@) =~= texts(done).push(part@));
                assert(texts(out@) =~= texts(done) + split_from(v@, pat@, start as int));
                return out;
            },
        }
    }
}

/// What stands in a part of a text stands in the text.
pub proof fn lemma_occurs_through(s: Seq<char>, part: Seq<char>, pat: Seq<char>)
    requires
        occurs_in(s, part),
        occurs_in(part, pat),
    ensures
        occurs_in(s, pat),
{
    let i = choose|i: int| occurs_at(s, part, i);
    let j = choose|j: int| occurs_at(part, pat, j);
    assert(s.subrange(i + j, i + j + pat.len()) =~= pat) by {
        assert(part.subrange(j, j + pat.len()) =~= s.subrange(i, i + part.len()).subrange(
            j,
            j + pat.len(),
        ));
    }
    assert(occurs_at(s, pat, i + j));
}

proof fn lemma_trim_start_is_suffix(s: Seq<char>)
    ensures
        trim_start(s).len() <= s.len(),
        trim_start(s) == s.skip(s.len() - trim_start(s).len()),
    decreases s.len(),
{
    if s.len() > 0 && is_white(s[0]) {
        lemma_trim_start_is_suffix(s.drop_first());
        assert(s.drop_first().skip(s.len() - 1 - trim_start(s).len()) =~= s.skip(
            s.len() - trim_start(s).len(),
        ));
    } else {
        assert(s.skip(0) =~= s);
    }
}

/// A trimmed text stands in the text.
pub proof fn lemma_trim_occurs(s: Seq<char>)
    ensures
        occurs_in(s, trim_of(s)),
{
    let a = trim_start(s);
    lemma_trim_start_is_suffix(s);
    lemma_trim_end(a);
    let t = trim_of(s);
    let i = s.len() - a.len();
    assert(s.subrange(i, i + t.len()) =~= t);
    assert(occurs_at(s, t, i));
}

/// The last piece of a text ends it.
proof fn lemma_last_piece(s: Seq<char>, cut: Cut)
    ensures
        ({
            let p = pieces_of(s, cut).last();
            p.len() <= s.len() && p == s.skip(s.len() - p.len())
        }),
    decreases s.len(),
{
    let p = pieces_of(s, cut).last();
    if s.len() == 0 {
        assert(p =~= s.skip(0));
    } else {
        lemma_last_piece(s.drop_last(), cut);
        lemma_pieces_not_empty(s.drop_last(), cut);
        assert(p =~= s.skip(s.len() - p.len()));
    }
}

/// Every piece of a text stands in it.
pub proof fn lemma_pieces_occur(s: Seq<char>, cut: Cut, k: int)
    requires
        0 <= k < pieces_of(s, cut).len(),
    ensures
        occurs_in(s, pieces_of(s, cut)[k]),
    decreases s.len(),
{
    let all = pieces_of(s, cut);
    let p = all[k];
    if k == all.len() - 1 {
        lemma_last_piece(s, cut);
        let i = s.len() - p.len();
        assert(s.subrange(i, i + p.len()) =~= s.skip(i));
        assert(occurs_at(s, p, i));
    } else {
        let before = pieces_of(s.drop_last(), cut);
        lemma_pieces_occur(s.drop_last(), cut, k);
        assert(before[k] == p);
        let i = choose|i: int| occurs_at(s.drop_last(), p, i);
        assert(s.subrange(i, i + p.len()) =~= s.drop_last().subrange(i, i + p.len()));
        assert(occurs_at(s, p, i));
    }
}

// ---------------------------------------------------------------------------
// Laws
// ---------------------------------------------------------------------------

/// White space is the characters of Unicode's `White_Space` property: tab, line
/// feed, vertical tab, form feed and carriage return, the space, the next-line
/// control and the spaces and separators beyond Latin-1.
pub proof fn law_white_space(c: char)
    ensures
        is_white(c) <==> {
            ||| c == '\t' || c == '\n' || c == '\u{b}' || c == '\u{c}' || c == '\r' || c == ' '
            ||| c == '\u{85}' || c == '\u{a0}' || c == '\u{1680}'
            ||| '\u{2000}' as u32 <= c as u32 <= '\u{200a}' as u32
            ||| c == '\u{2028}' || c == '\u{2029}' || c == '\u{202f}' || c == '\u{205f}' || c
                == '\u{3000}'
        },
{
}

proof fn lemma_trim_start_drops(s: Seq<char>)
    ensures
        trim_start(s).len() <= s.len(),
        forall|k: int| 0 <= k < s.len() - trim_start(s).len() ==> is_white(#[trigger] s[k]),
    decreases s.len(),
{
    if s.len() > 0 && is_white(s[0]) {
        let rest = s.drop_first();
        lemma_trim_start_drops(rest);
        assert forall|k: int| 0 <= k < s.len() - trim_start(s).len() implies is_white(
            #[trigger] s[k],
        ) by {
            if k > 0 {
                assert(rest[k - 1] == s[k]);
            }
        }
    }
}

proof fn lemma_trim_end_drops(s: Seq<char>)
    ensures
        trim_end(s).len() <= s.len(),
        forall|k: int| trim_end(s).len() <= k < s.len() ==> is_white(#[trigger] s[k]),
    decreases s.len(),
{
    if s.len() > 0 && is_white(s.last()) {
        let rest = s.drop_last();
        lemma_trim_end_drops(rest);
        assert forall|k: int| trim_end(s).len() <= k < s.len() implies is_white(
            #[trigger] s[k],
        ) by {
            if k < rest.len() {
                assert(rest[k] == s[k]);
            }
        }
    }
}

/// Trimming cuts off white space at both ends, all of it, and nothing else.
pub proof fn law_trimming_cuts_off_white_space(s: Seq<char>)
    ensures
        exists|i: int, j: int|
            0 <= i <= j <= s.len() && trim_of(s) == #[trigger] s.subrange(i, j) && (forall|k: int|
                0 <= k < s.len() && !(i <= k < j) ==> is_white(#[trigger] s[k])) && (i < j
                ==> !is_white(s[i]) && !is_white(s[j - 1])),
{
    let a = trim_start(s);
    let t = trim_of(s);
    lemma_trim_start(s);
    lemma_trim_start_drops(s);
    lemma_trim_start_is_suffix(s);
    lemma_trim_end(a);
    lemma_trim_end_drops(a);
    let i = s.len() - a.len();
    let j = i + t.len();
    assert(s.subrange(i, j) =~= t);
    assert forall|k: int| 0 <= k < s.len() && !(i <= k < j) implies is_white(#[trigger] s[k]) by {
        if k >= j {
            assert(a[k - i] == s[k]);
        }
    }
    if i < j {
        assert(t[0] == a[0]);
        assert(a[0] == s[i]);
        assert(t.last() == s[j - 1]);
    }
}

/// Stripping cuts the given character off the end, as often as it stands there.
pub proof fn law_stripping_cuts_off_the_end(s: Seq<char>, c: char)
    ensures
        exists|n: int|
            0 <= n <= s.len() && strip_end(s, c) == #[trigger] s.take(n) && (forall|k: int|
                n <= k < s.len() ==> #[trigger] s[k] == c) && (n > 0 ==> s[n - 1] != c),
    decreases s.len(),
{
    if s.len() > 0 && s.last() == c {
        let rest = s.drop_last();
        law_stripping_cuts_off_the_end(rest, c);
        let n = choose|n: int|
            0 <= n <= rest.len() && strip_end(rest, c) == #[trigger] rest.take(n) && (forall|k: int|
                n <= k < rest.len() ==> #[trigger] rest[k] == c) && (n > 0 ==> rest[n - 1] != c);
        assert(s.take(n) =~= rest.take(n));
        assert forall|k: int| n <= k < s.len() implies #[trigger] s[k] == c by {
            if k < rest.len() {
                assert(rest[k] == s[k]);
            }
        }
    } else {
        assert(s.take(s.len() as int) =~= s);
    }
}

/// Leaving a character out keeps all the others, in order.
pub proof fn law_without_keeps_the_others(s: Seq<char>, c: char)
    ensures
        without(s, c) == s.filter(|x: char| x != c),
    decreases s.len(),
{
    reveal(Seq::filter);
    if s.len() > 0 {
        law_without_keeps_the_others(s.drop_last(), c);
    } else {
        assert(without(s, c) =~= s.filter(|x: char| x != c));
    }
}

/// The characters at which sentences, lines and words end.
pub proof fn law_cuts(c: char)
    ensures
        Cut::White.cuts(c) <==> is_white(c),
        Cut::Newline.cuts(c) <==> c == '\n',
        Cut::Sentence.cuts(c) <==> ".!?\n"@.contains(c),
        Cut::NonWord.cuts(c) <==> !is_alphanumeric(c),
{
    reveal_strlit(".!?\n");
    let all = ".!?\n"@;
    assert(all[0] == '.' && all[1] == '!' && all[2] == '?' && all[3] == '\n');
}

/// A text is one piece where nothing cuts it; and a character that cuts it parts
/// the pieces before it from those behind.
pub proof fn law_pieces_lie_between_cuts(a: Seq<char>, c: char, b: Seq<char>, cut: Cut)
    requires
        cut.cuts(c),
    ensures
        pieces_of(a + seq![c] + b, cut) == pieces_of(a, cut) + pieces_of(b, cut),
        (forall|i: int| 0 <= i < a.len() ==> !cut.cuts(#[trigger] a[i])) ==> pieces_of(a, cut)
            == seq![a],
    decreases b.len(),
{
    let s = a + seq![c] + b;
    let left = pieces_of(a, cut);
    lemma_pieces_not_empty(b, cut);
    if b.len() == 0 {
        assert(s.drop_last() =~= a);
        assert(pieces_of(s, cut) =~= left + pieces_of(b, cut));
    } else {
        let front = b.drop_last();
        law_pieces_lie_between_cuts(a, c, front, cut);
        lemma_pieces_not_empty(front, cut);
        assert(s.drop_last() =~= a + seq![c] + front);
        let right = pieces_of(front, cut);
        let before = left + right;
        if cut.cuts(b.last()) {
            assert(before.push(Seq::empty()) =~= left + right.push(Seq::empty()));
        } else {
            assert(before.drop_last() =~= left + right.drop_last());
            assert(before.last() == right.last());
            assert(before.drop_last().push(before.last().push(b.last())) =~= left
                + right.drop_last().push(right.last().push(b.last())));
        }
    }
    if forall|i: int| 0 <= i < a.len() ==> !cut.cuts(#[trigger] a[i]) {
        lemma_uncut(a, cut);
    }
}

proof fn lemma_uncut(s: Seq<char>, cut: Cut)
    requires
        forall|i: int| 0 <= i < s.len() ==> !cut.cuts(#[trigger] s[i]),
    ensures
        pieces_of(s, cut) == seq![s],
    decreases s.len(),
{
    if s.len() > 0 {
        let front = s.drop_last();
        assert forall|i: int| 0 <= i < front.len() implies !cut.cuts(#[trigger] front[i]) by {
            assert(front[i] == s[i]);
        }
        lemma_uncut(front, cut);
        assert(!cut.cuts(s[s.len() - 1]));
        assert(front.push(s.last()) =~= s);
        assert(pieces_of(s, cut) =~= seq![s]);
    } else {
        assert(s =~= Seq::empty());
    }
}

/// The runs of a text are its uncut stretches: none where there is nothing, the
/// text itself where nothing cuts it, and on either side of a cut what they are by
/// themselves.
pub proof fn law_runs_lie_between_cuts(a: Seq<char>, c: char, b: Seq<char>, cut: Cut)
    requires
        cut.cuts(c),
    ensures
        runs_of(a + seq![c] + b, cut) == runs_of(a, cut) + runs_of(b, cut),
        a.len() == 0 ==> runs_of(a, cut).len() == 0,
        a.len() > 0 && (forall|i: int| 0 <= i < a.len() ==> !cut.cuts(#[trigger] a[i]))
            ==> runs_of(a, cut) == seq![a],
{
    let keep = |p: Seq<char>| p.len() > 0;
    law_pieces_lie_between_cuts(a, c, b, cut);
    Seq::filter_distributes_over_add(pieces_of(a, cut), pieces_of(b, cut), keep);
    reveal_with_fuel(Seq::filter, 2);
    if forall|i: int| 0 <= i < a.len() ==> !cut.cuts(#[trigger] a[i]) {
        let one = seq![a];
        assert(one.drop_last() =~= Seq::empty());
        assert(Seq::<Seq<char>>::empty().push(a) =~= one);
    }
}

/// The words of a text are its stretches without white space.
pub proof fn law_words_lie_between_white_space(a: Seq<char>, c: char, b: Seq<char>)
    requires
        is_white(c),
    ensures
        words_of(a + seq![c] + b) == words_of(a) + words_of(b),
        a.len() == 0 ==> words_of(a).len() == 0,
        a.len() > 0 && (forall|i: int| 0 <= i < a.len() ==> !is_white(#[trigger] a[i]))
            ==> words_of(a) == seq![a],
{
    law_runs_lie_between_cuts(a, c, b, Cut::White);
    if forall|i: int| 0 <= i < a.len() ==> !is_white(#[trigger] a[i]) {
        assert forall|i: int| 0 <= i < a.len() implies !Cut::White.cuts(#[trigger] a[i]) by {
            assert(!is_white(a[i]));
        }
    }
}

/// Joining puts the separator between neighbours and nowhere else.
pub proof fn law_joining_puts_the_separator_between(
    a: Seq<Seq<char>>,
    b: Seq<Seq<char>>,
    part: Seq<char>,
    sep: Seq<char>,
)
    ensures
        join_of(Seq::empty(), sep) == Seq::<char>::empty(),
        join_of(seq![part], sep) == part,
        a.len() > 0 && b.len() > 0 ==> join_of(a + b, sep) == join_of(a, sep) + sep + join_of(
            b,
            sep,
        ),
    decreases b.len(),
{
    if a.len() > 0 && b.len() > 0 {
        assert((a + b).drop_last() =~= a + b.drop_last());
        if b.len() > 1 {
            law_joining_puts_the_separator_between(a, b.drop_last(), part, sep);
            assert(join_of(a + b, sep) =~= join_of(a, sep) + sep + join_of(b, sep));
        } else {
            assert(a + b.drop_last() =~= a);
        }
    }
}

/// A pattern stands at a position exactly where its characters stand there one
/// after another.
pub proof fn law_standing_is_character_by_character(s: Seq<char>, pat: Seq<char>, i: int)
    ensures
        occurs_at(s, pat, i) <==> 0 <= i && i + pat.len() <= s.len() && forall|k: int|
            0 <= k < pat.len() ==> s[i + k] == #[trigger] pat[k],
{
    if 0 <= i && i + pat.len() <= s.len() {
        let part = s.subrange(i, i + pat.len());
        if forall|k: int| 0 <= k < pat.len() ==> s[i + k] == #[trigger] pat[k] {
            assert(part =~= pat);
        }
        if part == pat {
            assert forall|k: int| 0 <= k < pat.len() implies s[i + k] == #[trigger] pat[k] by {
                assert(part[k] == s[i + k]);
            }
        }
    }
}

/// Replacing the first occurrence leaves everything around it as it was; a text
/// without one stays.
pub proof fn law_the_first_occurrence_is_replaced(
    before: Seq<char>,
    pat: Seq<char>,
    after: Seq<char>,
    by: Seq<char>,
)
    requires
        forall|k: int|
            0 <= k < before.len() ==> !#[trigger] occurs_at(before + pat + after, pat, k),
    ensures
        replace_first_of(before + pat + after, pat, by) == before + by + after,
        !occurs_in(after, pat) ==> replace_first_of(after, pat, by) == after,
{
    let s = before + pat + after;
    let at = before.len() as int;
    lemma_first_from(s, pat, 0);
    assert(s.subrange(at, at + pat.len()) =~= pat);
    assert(occurs_at(s, pat, at));
    assert(s.take(at) =~= before);
    assert(s.skip(at + pat.len()) =~= after);
    lemma_first_from(after, pat, 0);
}

/// Splitting and joining again gives the text back, and no part holds the
/// separator.
pub proof fn law_splitting_undoes_joining(s: Seq<char>, pat: Seq<char>, start: int)
    requires
        pat.len() > 0,
        0 <= start <= s.len(),
    ensures
        split_from(s, pat, start).len() >= 1,
        join_of(split_from(s, pat, start), pat) == s.skip(start),
        forall|k: int|
            0 <= k < split_from(s, pat, start).len() ==> !occurs_in(
                #[trigger] split_from(s, pat, start)[k],
                pat,
            ),
    decreases s.len() - start,
{
    lemma_first_from(s, pat, start);
    let parts = split_from(s, pat, start);
    match first_from(s, pat, start) {
        Some(i) => {
            let first = s.subrange(start, i);
            let next = i + pat.len();
            let rest = split_from(s, pat, next);
            law_splitting_undoes_joining(s, pat, next);
            law_joining_puts_the_separator_between(seq![first], rest, first, pat);
            assert(s.subrange(i, i + pat.len()) == pat);
            assert(first + pat + s.skip(next) =~= s.skip(start));
            assert forall|k: int| 0 <= k < parts.len() implies !occurs_in(
                #[trigger] parts[k],
                pat,
            ) by {
                if k == 0 {
                    if occurs_in(first, pat) {
                        let j = choose|j: int| occurs_at(first, pat, j);
                        assert(s.subrange(start + j, start + j + pat.len()) =~= first.subrange(
                            j,
                            j + pat.len(),
                        ));
                        assert(occurs_at(s, pat, start + j));
                    }
                } else {
                    assert(parts[k] == rest[k - 1]);
                }
            }
        },
        None => {
            let last = s.skip(start);
            if occurs_in(last, pat) {
                let j = choose|j: int| occurs_at(last, pat, j);
                assert(s.subrange(start + j, start + j + pat.len()) =~= last.subrange(
                    j,
                    j + pat.len(),
                ));
                assert(occurs_at(s, pat, start + j));
            }
        },
    }
}

} // verus!
