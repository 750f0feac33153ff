//! Character-level tokenizer.
//!
//! We start at the character level on purpose: zero dependencies, a tiny vocab,
//! and nothing to train. It's the simplest thing that works end-to-end. Once the
//! pipeline is proven we can swap in BPE (fewer, longer tokens) behind the same
//! `encode` / `decode` interface.
use std::collections::BTreeMap;
use vstd::prelude::*;

verus! {

broadcast use vstd::laws_cmp::group_laws_cmp;

/// The characters of the vocabulary and their ids.
pub struct CharTokenizer {
    /// id -> char (the source of truth).
    itos: Vec<char>,
    /// code point -> id (derived from `itos`).
    stoi: BTreeMap<u32, u32>,
}

/// The model of a [`CharTokenizer`].
pub struct TokenizerModel {
    pub itos: Seq<char>,
    pub stoi: Map<char, u32>,
}

/// The characters by id: each goes to the last position at which it stands.
pub open spec fn index_of(itos: Seq<char>) -> Map<char, u32>
    decreases itos.len(),
{
    if itos.len() == 0 {
        Map::empty()
    } else {
        index_of(itos.drop_last()).insert(itos.last(), (itos.len() - 1) as u32)
    }
}

/// Whether `s` is strictly ascending.
pub open spec fn is_ascending(s: Seq<char>) -> bool {
    forall|i: int, j: int| 0 <= i < j < s.len() ==> (s[i] as u32) < (s[j] as u32)
}

impl TokenizerModel {
    /// Whether the ids are those of the characters listed.
    pub open spec fn indexed(self) -> bool {
        self.stoi == index_of(self.itos)
    }

    /// The id of `c`, or `None` outside the vocabulary.
    pub open spec fn id(self, c: char) -> Option<u32> {
        if self.stoi.contains_key(c) {
            Some(self.stoi[c])
        } else {
            None
        }
    }

    /// The ids of the characters of `s` that are in the vocabulary.
    pub open spec fn encode(self, s: Seq<char>) -> Seq<u32>
        decreases s.len(),
    {
        if s.len() == 0 {
            Seq::empty()
        } else {
            let before = self.encode(s.drop_last());
            match self.id(s.last()) {
                Some(i) => before.push(i),
                None => before,
            }
        }
    }

    /// The characters of the ids that are in range.
    pub open spec fn decode(self, ids: Seq<u32>) -> Seq<char>
        decreases ids.len(),
    {
        if ids.len() == 0 {
            Seq::empty()
        } else {
            let before = self.decode(ids.drop_last());
            if ids.last() < self.itos.len() {
                before.push(self.itos[ids.last() as int])
            } else {
                before
            }
        }
    }

    /// The characters of `s` that are in the vocabulary.
    pub open spec fn known(self, s: Seq<char>) -> Seq<char>
        decreases s.len(),
    {
        if s.len() == 0 {
            Seq::empty()
        } else {
            let before = self.known(s.drop_last());
            if self.itos.contains(s.last()) {
                before.push(s.last())
            } else {
                before
            }
        }
    }
}

/// Whether `t` is the tokenizer of `text`: its vocabulary is the characters of
/// `text`, each once and in ascending order, and the ids are their positions.
pub open spec fn built_from(t: TokenizerModel, text: Seq<char>) -> bool {
    &&& is_ascending(t.itos)
    &&& forall|c: char| #[trigger] t.itos.contains(c) <==> text.contains(c)
    &&& t.indexed()
}

impl View for CharTokenizer {
    type V = TokenizerModel;

    closed spec fn view(&self) -> TokenizerModel {
        TokenizerModel {
            itos: self.itos@,
            stoi: Map::new(
                |c: char| self.stoi@.contains_key(c as u32),
                |c: char| self.stoi@[c as u32],
            ),
        }
    }
}

/// Characters with the same code point are the same.
proof fn lemma_code_point(c: char, d: char)
    ensures
        c as u32 == d as u32 ==> c == d,
{
}

/// The position of `c` in the ascending `v`, or the one where it belongs.
fn place(v: &Vec<char>, c: char) -> (r: usize)
    requires
        is_ascending(v@),
    ensures
        r <= v@.len(),
        forall|k: int| 0 <= k < r ==> (v@[k] as u32) < (c as u32),
        forall|k: int| r <= k < v@.len() ==> (c as u32) <= (v@[k] as u32),
{
    let mut lo: usize = 0;
    let mut hi: usize = v.len();
    while lo < hi
        invariant
            lo <= hi <= v@.len(),
            is_ascending(v@),
            forall|k: int| 0 <= k < lo ==> (v@[k] as u32) < (c as u32),
            forall|k: int| hi <= k < v@.len() ==> (c as u32) <= (v@[k] as u32),
        decreases hi - lo,
    {
        let mid: usize = lo + (hi - lo) / 2;
        if (v[mid] as u32) < c as u32 {
            lo = mid + 1;
        } else {
            hi = mid;
        }
    }
    lo
}

/// The distinct characters of `text`, ascending.
fn distinct(text: &str) -> (r: Vec<char>)
    ensures
        is_ascending(r@),
        forall|c: char| #[trigger] r@.contains(c) <==> text@.contains(c),
{
    let mut v: Vec<char> = Vec::new();
    for c in it: text.chars()
        invariant
            it.seq() == text@,
            is_ascending(v@),
            forall|x: char| #[trigger]
                v@.contains(x) <==> text@.take(it.index() as int).contains(x),
    {
        let ghost seen = text@.take(it.index() as int);
        let ghost next = text@.take(it.index() + 1);
        let ghost before = v@;
        assert(next =~= seen.push(c));
        let at: usize = place(&v, c);
        proof {
            if at < v@.len() {
                lemma_code_point(c, v@[at as int]);
            }
        }
        if at == v.len() || v[at] != c {
            v.insert(at, c);
            assert(v@ =~= before.insert(at as int, c));
            assert forall|x: char| #[trigger] v@.contains(x) <==> next.contains(x) by {
                if v@.contains(x) {
                    let k = v@.index_of(x);
                    if k < at {
                        assert(before[k] == x);
                    } else if k > at {
                        assert(before[k - 1] == x);
                    } else {
                        assert(next.last() == x);
                    }
                    assert(x == c || before.contains(x));
                    if before.contains(x) {
                        let m = seen.index_of(x);
                        assert(next[m] == x);
                    }
                }
                if next.contains(x) {
                    let m = next.index_of(x);
                    if m < seen.len() {
                        assert(seen[m] == x);
                        assert(before.contains(x));
                        let k = before.index_of(x);
                        if k < at {
                            assert(v@[k] == x);
                        } else {
                            assert(v@[k + 1] == x);
                        }
                    } else {
                        assert(v@[at as int] == x);
                    }
                }
            }
        } else {
            assert forall|x: char| #[trigger] v@.contains(x) <==> next.contains(x) by {
                if v@.contains(x) {
                    let m = seen.index_of(x);
                    assert(next[m] == x);
                }
                if next.contains(x) {
                    let m = next.index_of(x);
                    if m < seen.len() {
                        assert(seen[m] == x);
                        assert(before.contains(x));
                    } else {
                        assert(v@[at as int] == x);
                    }
                }
            }
        }
    }
    assert(text@.take(text@.len() as int) =~= text@);
    v
}

/// The ids of the characters listed in `itos`, by code point.
fn numbered(itos: &Vec<char>) -> (r: BTreeMap<u32, u32>)
    ensures
        forall|c: char| #[trigger]
            index_of(itos@).contains_key(c) <==> r@.contains_key(c as u32),
        forall|c: char| #[trigger]
            index_of(itos@).contains_key(c) ==> index_of(itos@)[c] == r@[c as u32],
{
    let mut stoi: BTreeMap<u32, u32> = BTreeMap::new();
    let mut i: usize = 0;
    while i < itos.len()
        invariant
            i <= itos.len(),
            forall|c: char| #[trigger]
                index_of(itos@.take(i as int)).contains_key(c) <==> stoi@.contains_key(c as u32),
            forall|c: char| #[trigger]
                index_of(itos@.take(i as int)).contains_key(c) ==> index_of(itos@.take(i as int))[c]
                    == stoi@[c as u32],
        decreases itos.len() - i,
    {
        let ghost old_ids = index_of(itos@.take(i as int));
        let ghost old_stoi = stoi@;
        let ghost next = itos[i as int];
        assert(itos@.take(i + 1).drop_last() =~= itos@.take(i as int));
        assert(index_of(itos@.take(i + 1)) == old_ids.insert(next, i as u32));
        stoi.insert(itos[i] as u32, i as u32);
        assert(stoi@ == old_stoi.insert(next as u32, i as u32));
        assert forall|c: char| #[trigger]
            index_of(itos@.take(i + 1)).contains_key(c) <==> stoi@.contains_key(c as u32) by {
            assert(old_ids.contains_key(c) <==> old_stoi.contains_key(c as u32));
            lemma_code_point(c, next);
        }
        assert forall|c: char| #[trigger]
            index_of(itos@.take(i + 1)).contains_key(c) implies index_of(itos@.take(i + 1))[c]
            == stoi@[c as u32] by {
            lemma_code_point(c, next);
            assert(c != next ==> old_ids.contains_key(c));
        }
        i += 1;
    }
    assert(itos@.take(i as int) =~= itos@);
    stoi
}

impl CharTokenizer {
    /// Builds a vocab from every distinct character in `text` (sorted for a
    /// stable, reproducible id assignment).
    pub fn build(text: &str) -> (r: Self)
        ensures
            built_from(r@, text@),
    {
        let itos: Vec<char> = distinct(text);
        let stoi: BTreeMap<u32, u32> = numbered(&itos);
        let r = CharTokenizer { itos, stoi };
        assert(r@.stoi =~= index_of(r@.itos));
        r
    }

    /// A tokenizer with the given vocabulary and no ids yet, as it is read from
    /// storage; [`rebuild`](Self::rebuild) gives it its ids.
    pub fn from_vocab(itos: Vec<char>) -> (r: Self)
        ensures
            r@ == (TokenizerModel { itos: itos@, stoi: Map::empty() }),
    {
        let r = CharTokenizer { itos, stoi: BTreeMap::new() };
        assert(r@.stoi =~= Map::empty());
        r
    }

    /// The characters of the vocabulary by id, as they are stored.
    pub fn vocab(&self) -> (r: &Vec<char>)
        ensures
            r@ == self@.itos,
    {
        &self.itos
    }

    pub fn vocab_size(&self) -> (r: usize)
        ensures
            r == self@.itos.len(),
    {
        self.itos.len()
    }

    /// Single-character lookup, for encoding while keeping per-char alignment
    /// (e.g. with a loss mask). Returns `None` for out-of-vocab characters.
    pub fn id(&self, c: char) -> (r: Option<u32>)
        ensures
            r == self@.id(c),
    {
        match self.stoi.get(&(c as u32)) {
            Some(i) => Some(*i),
            None => None,
        }
    }

    /// Encodes text to token ids. Characters outside the vocab are dropped.
    pub fn encode(&self, s: &str) -> (r: Vec<u32>)
        ensures
            r@ == self@.encode(s@),
    {
        let mut out: Vec<u32> = Vec::new();
        for c in it: s.chars()
            invariant
                it.seq() == s@,
                out@ == self@.encode(s@.take(it.index() as int)),
        {
            assert(s@.take(it.index() + 1).drop_last() =~= s@.take(it.index() as int));
            if let Some(i) = self.id(c) {
                out.push(i);
            }
        }
        assert(s@.take(s@.len() as int) =~= s@);
        out
    }

    /// Decodes token ids back to text. Out-of-range ids are dropped.
    pub fn decode(&self, ids: &[u32]) -> (r: String)
        ensures
            r@ == self@.decode(ids@),
    {
        let mut out: String = String::new();
        let mut i: usize = 0;
        while i < ids.len()
            invariant
                i <= ids.len(),
                out@ == self@.decode(ids@.take(i as int)),
            decreases ids.len() - i,
        {
            assert(ids@.take(i + 1).drop_last() =~= ids@.take(i as int));
            let id: u32 = ids[i];
            if (id as usize) < self.itos.len() {
                out.push(self.itos[id as usize]);
            }
            i += 1;
        }
        assert(ids@.take(i as int) =~= ids@);
        out
    }

    /// Rebuilds the ids from the vocabulary after it was read from storage.
    pub fn rebuild(&mut self)
        ensures
            final(self)@.itos == old(self)@.itos,
            final(self)@.indexed(),
    {
        self.stoi = numbered(&self.itos);
        assert(self@.stoi =~= index_of(self@.itos));
    }
}

// ---------------------------------------------------------------------------
// Laws
// ---------------------------------------------------------------------------

/// The number of ids that 32 bits can tell apart.
pub open spec fn id_limit() -> nat {
    0x1_0000_0000
}

proof fn lemma_index(itos: Seq<char>, c: char)
    requires
        itos.len() <= id_limit(),
    ensures
        index_of(itos).contains_key(c) <==> itos.contains(c),
        itos.contains(c) ==> index_of(itos)[c] < itos.len() && itos[index_of(itos)[c] as int] == c,
    decreases itos.len(),
{
    if itos.len() > 0 {
        let front = itos.drop_last();
        lemma_index(front, c);
        if itos.contains(c) && c != itos.last() {
            let k = itos.index_of(c);
            assert(front[k] == c);
        }
        if front.contains(c) {
            let k = front.index_of(c);
            assert(itos[k] == c);
        }
        if c == itos.last() {
            assert(itos[itos.len() - 1] == c);
        }
    }
}

proof fn lemma_ascending_code(s: Seq<char>, i: int)
    requires
        is_ascending(s),
        0 <= i < s.len(),
    ensures
        i <= s[i] as u32,
    decreases i,
{
    if i > 0 {
        lemma_ascending_code(s, i - 1);
    }
}

proof fn lemma_code_range(c: char)
    ensures
        c as u32 <= 0x10ffff,
{
}

/// A built vocabulary has no more characters than Unicode has code points, so
/// its ids, and those ids as `i32`, are exact.
pub proof fn law_built_vocab_fits(itos: Seq<char>)
    requires
        is_ascending(itos),
    ensures
        itos.len() <= 0x11_0000,
{
    if itos.len() > 0 {
        lemma_ascending_code(itos, itos.len() - 1);
        lemma_code_range(itos.last());
    }
}

/// A character is in the vocabulary exactly where it has an id, and its id is
/// that of a position where it stands.
pub proof fn law_ids_name_characters(t: TokenizerModel, c: char)
    requires
        t.indexed(),
        t.itos.len() <= id_limit(),
    ensures
        t.id(c) is Some <==> t.itos.contains(c),
        t.id(c) matches Some(i) ==> i < t.itos.len() && t.itos[i as int] == c,
{
    lemma_index(t.itos, c);
}

/// Encoding and decoding again gives the text back without the characters that
/// are outside the vocabulary.
pub proof fn law_decode_undoes_encode(t: TokenizerModel, s: Seq<char>)
    requires
        t.indexed(),
        t.itos.len() <= id_limit(),
    ensures
        t.decode(t.encode(s)) == t.known(s),
    decreases s.len(),
{
    if s.len() > 0 {
        law_decode_undoes_encode(t, s.drop_last());
        lemma_index(t.itos, s.last());
        if let Some(i) = t.id(s.last()) {
            let before = t.encode(s.drop_last());
            assert(before.push(i).drop_last() =~= before);
        }
    }
}

/// A text made of characters of the vocabulary survives the round trip whole.
pub proof fn law_round_trip(t: TokenizerModel, s: Seq<char>)
    requires
        t.indexed(),
        t.itos.len() <= id_limit(),
        forall|i: int| 0 <= i < s.len() ==> t.itos.contains(#[trigger] s[i]),
    ensures
        t.decode(t.encode(s)) == s,
    decreases s.len(),
{
    law_decode_undoes_encode(t, s);
    lemma_all_known(t, s);
}

proof fn lemma_all_known(t: TokenizerModel, s: Seq<char>)
    requires
        forall|i: int| 0 <= i < s.len() ==> t.itos.contains(#[trigger] s[i]),
    ensures
        t.known(s) == s,
    decreases s.len(),
{
    if s.len() > 0 {
        assert forall|i: int| 0 <= i < s.drop_last().len() implies t.itos.contains(
            #[trigger] s.drop_last()[i],
        ) by {
            assert(s.drop_last()[i] == s[i]);
        }
        lemma_all_known(t, s.drop_last());
        assert(t.itos.contains(s[s.len() - 1]));
        assert(s.drop_last().push(s.last()) =~= s);
    } else {
        assert(s =~= Seq::empty());
    }
}

/// A text survives the round trip through its own tokenizer.
pub proof fn law_own_text_round_trips(t: TokenizerModel, text: Seq<char>)
    requires
        built_from(t, text),
    ensures
        t.decode(t.encode(text)) == text,
{
    law_built_vocab_fits(t.itos);
    assert forall|i: int| 0 <= i < text.len() implies t.itos.contains(#[trigger] text[i]) by {
        assert(text.contains(text[i]));
    }
    law_round_trip(t, text);
}

/// Decoding and encoding again gives back the ids that are in range, in order,
/// where no character stands twice in the vocabulary.
pub proof fn law_encode_undoes_decode(t: TokenizerModel, ids: Seq<u32>)
    requires
        t.indexed(),
        t.itos.len() <= id_limit(),
        t.itos.no_duplicates(),
    ensures
        t.encode(t.decode(ids)) == ids.filter(|i: u32| i < t.itos.len()),
    decreases ids.len(),
{
    reveal(Seq::filter);
    if ids.len() > 0 {
        law_encode_undoes_decode(t, ids.drop_last());
        if ids.last() < t.itos.len() {
            let c = t.itos[ids.last() as int];
            lemma_index(t.itos, c);
            let before = t.decode(ids.drop_last());
            assert(before.push(c).drop_last() =~= before);
        }
    }
}

/// Every id that encoding gives is below the size of the vocabulary.
pub proof fn law_encoded_ids_in_range(t: TokenizerModel, s: Seq<char>)
    requires
        t.indexed(),
        t.itos.len() <= id_limit(),
    ensures
        forall|i: int| 0 <= i < t.encode(s).len() ==> #[trigger] t.encode(s)[i] < t.itos.len(),
    decreases s.len(),
{
    if s.len() > 0 {
        let before = t.encode(s.drop_last());
        law_encoded_ids_in_range(t, s.drop_last());
        lemma_index(t.itos, s.last());
        assert forall|i: int| 0 <= i < t.encode(s).len() implies #[trigger] t.encode(s)[i]
            < t.itos.len() by {
            if i < before.len() {
                assert(t.encode(s)[i] == before[i]);
            }
        }
    }
}

/// A text is encoded character by character, and the ids are decoded one by one:
/// a character gives its id, or nothing where it has none, and an id gives its
/// character, or nothing where it is out of range.
pub proof fn law_tokens_stand_one_after_another(
    t: TokenizerModel,
    a: Seq<char>,
    b: Seq<char>,
    c: char,
    x: Seq<u32>,
    y: Seq<u32>,
    id: u32,
)
    ensures
        t.encode(a + b) == t.encode(a) + t.encode(b),
        t.encode(seq![c]) == match t.id(c) {
            Some(i) => seq![i],
            None => Seq::empty(),
        },
        t.decode(x + y) == t.decode(x) + t.decode(y),
        id < t.itos.len() ==> t.decode(seq![id]) == seq![t.itos[id as int]],
        id >= t.itos.len() ==> t.decode(seq![id]).len() == 0,
    decreases b.len() + y.len(),
{
    reveal_with_fuel(TokenizerModel::encode, 2);
    reveal_with_fuel(TokenizerModel::decode, 2);
    assert(seq![c].drop_last() =~= Seq::empty());
    assert(seq![id].drop_last() =~= Seq::empty());
    assert(t.encode(seq![c]) =~= match t.id(c) {
        Some(i) => seq![i],
        None => Seq::empty(),
    });
    if id < t.itos.len() {
        assert(t.decode(seq![id]) =~= seq![t.itos[id as int]]);
    }
    if b.len() > 0 {
        law_tokens_stand_one_after_another(t, a, b.drop_last(), c, x, y, id);
        assert((a + b).drop_last() =~= a + b.drop_last());
        assert(t.encode(a + b) =~= t.encode(a) + t.encode(b));
    } else {
        assert(a + b =~= a);
        assert(t.encode(a) + t.encode(b) =~= t.encode(a));
    }
    if y.len() > 0 {
        law_tokens_stand_one_after_another(t, a, b, c, x, y.drop_last(), id);
        assert((x + y).drop_last() =~= x + y.drop_last());
        assert(t.decode(x + y) =~= t.decode(x) + t.decode(y));
    } else {
        assert(x + y =~= x);
        assert(t.decode(x) + t.decode(y) =~= t.decode(x));
    }
}

/// What a tokenizer knows of a text is the characters that it lists, in order.
pub proof fn law_known_characters_are_listed(t: TokenizerModel, s: Seq<char>)
    ensures
        t.known(s) == s.filter(|c: char| t.itos.contains(c)),
    decreases s.len(),
{
    reveal(Seq::filter);
    if s.len() > 0 {
        law_known_characters_are_listed(t, s.drop_last());
    }
}

/// A character's id is the last position at which it stands in the vocabulary.
pub proof fn law_ids_are_last_positions(t: TokenizerModel, at: int)
    requires
        t.indexed(),
        0 <= at < t.itos.len() <= id_limit(),
        forall|k: int| at < k < t.itos.len() ==> #[trigger] t.itos[k] != t.itos[at],
    ensures
        t.id(t.itos[at]) == Some(at as u32),
{
    lemma_last_position(t.itos, at);
}

proof fn lemma_last_position(itos: Seq<char>, at: int)
    requires
        0 <= at < itos.len() <= id_limit(),
        forall|k: int| at < k < itos.len() ==> #[trigger] itos[k] != itos[at],
    ensures
        index_of(itos).contains_key(itos[at]),
        index_of(itos)[itos[at]] == at as u32,
    decreases itos.len(),
{
    if at < itos.len() - 1 {
        let front = itos.drop_last();
        assert forall|k: int| at < k < front.len() implies #[trigger] front[k] != front[at] by {
            assert(front[k] == itos[k]);
        }
        lemma_last_position(front, at);
        assert(itos[itos.len() - 1] != itos[at]);
    }
}

/// A built vocabulary lists the characters of its text, each once, from the least
/// code point to the greatest, and each has its position as its id.
pub proof fn law_built_vocab_is_sorted(t: TokenizerModel, text: Seq<char>, i: int, j: int)
    requires
        built_from(t, text),
        0 <= i < t.itos.len(),
        0 <= j < text.len(),
    ensures
        i > 0 ==> (t.itos[i - 1] as u32) < (t.itos[i] as u32),
        text.contains(t.itos[i]),
        t.itos.contains(text[j]),
        t.id(t.itos[i]) == Some(i as u32),
{
    law_built_vocab_fits(t.itos);
    assert(t.itos.contains(t.itos[i]));
    assert(text.contains(text[j]));
    assert forall|k: int| i < k < t.itos.len() implies #[trigger] t.itos[k] != t.itos[i] by {
        assert((t.itos[i] as u32) < (t.itos[k] as u32));
    }
    law_ids_are_last_positions(t, i);
}

} // verus!
