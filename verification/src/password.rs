//! Candidates and candidate tables: composition of words into passwords,
//! deduplication by signature, boundary binding, pruning, and the
//! branch-and-bound search driver.

use vstd::prelude::*;

use crate::key::{dist_spec, distance, key_of, to_key};
use crate::word::{
    keyable_seq, lemma_word_cost_concat, lemma_word_cost_nonneg, word_cost, Bound, End, Error,
    Metadata, Type,
};
use vstd::string::{StrSliceExecFns, StringExecFns};
use rand::seq::SliceRandom;

verus! {

/// The search goal: how many words to combine, and the inclusive window the
/// total length must fall in.
#[derive(Clone, Copy, Debug)]
pub struct Goal {
    pub words_number: u8,
    pub min_length: u8,
    pub max_length: u8,
}

impl Default for Goal {
    /// Defaults to a password of `4` words and `20` to `24` symbols.
    fn default() -> (g: Goal)
        ensures
            g == (Goal { words_number: 4, min_length: 20, max_length: 24 }),
    {
        Goal { words_number: 4, min_length: 20, max_length: 24 }
    }
}

/// A candidate password: the ordered words it is composed of, plus its
/// derived metadata.
#[derive(Debug)]
pub struct Password {
    pub words: Vec<String>,
    pub metadata: Metadata,
}

/// The mathematical model of a candidate: its word texts and the fields of
/// its metadata, unbounded.
#[verifier::ext_equal]
pub struct Cand {
    pub words: Seq<Seq<char>>,
    pub first: Bound,
    pub last: Bound,
    pub length: int,
    pub cost: int,
}

/// The texts of a list of words.
pub open spec fn words_view(ws: Seq<String>) -> Seq<Seq<char>> {
    ws.map_values(|w: String| w@)
}

impl View for Password {
    type V = Cand;

    open spec fn view(&self) -> Cand {
        Cand {
            words: words_view(self.words@),
            first: self.metadata.t.first_key,
            last: self.metadata.t.last_key,
            length: self.metadata.t.length as int,
            cost: self.metadata.cost as int,
        }
    }
}

/// The full text of a candidate: its word texts, concatenated in order.
pub open spec fn text_of(ws: Seq<Seq<char>>) -> Seq<char>
    decreases ws.len(),
{
    if ws.len() == 0 {
        Seq::empty()
    } else {
        ws.first() + text_of(ws.drop_first())
    }
}

/// The full text of a candidate model.
pub open spec fn cand_text(c: Cand) -> Seq<char> {
    text_of(c.words)
}

/// Appending a word to the list appends its text to the view.
pub proof fn lemma_words_view_push(ws: Seq<String>, w: String)
    ensures
        words_view(ws.push(w)) == words_view(ws).push(w@),
{
    assert(words_view(ws.push(w)) =~= words_view(ws).push(w@));
}

/// The text of a single word stands alone.
pub proof fn lemma_text_singleton(w: Seq<char>)
    ensures
        text_of(seq![w]) == w,
{
    reveal_with_fuel(text_of, 2);
    assert(text_of(seq![w]) =~= w);
}

/// Whether a boundary slot agrees with the key actually at that boundary:
/// it is either unconstrained or that very key.
pub open spec fn bound_matches(b: Bound, k: char) -> bool {
    match b {
        Bound::Any => true,
        Bound::At(x) => x == k,
    }
}

/// A well-formed candidate: at least one word, every word nonempty and
/// typeable, and the metadata derived from the concatenated text.
pub open spec fn wf_cand(c: Cand) -> bool {
    &&& c.words.len() >= 1
    &&& forall|i: int|
        0 <= i < c.words.len() ==> (#[trigger] c.words[i]).len() >= 1 && keyable_seq(c.words[i])
    &&& c.length == cand_text(c).len()
    &&& c.cost == word_cost(cand_text(c))
    &&& bound_matches(c.first, key_of(cand_text(c).first()))
    &&& bound_matches(c.last, key_of(cand_text(c).last()))
}

/// The movement distance across the junction of two candidate texts.
pub open spec fn junction(a: Cand, b: Cand) -> int {
    dist_spec(key_of(cand_text(a).last()), key_of(cand_text(b).first()))
}

/// The model of candidate composition: word lists concatenated, boundary
/// slots taken from the outer operands, and the cost of both parts plus the
/// junction distance.
pub open spec fn concat_cand(a: Cand, b: Cand) -> Cand {
    Cand {
        words: a.words + b.words,
        first: a.first,
        last: b.last,
        length: a.length + b.length,
        cost: a.cost + b.cost + junction(a, b),
    }
}

/// Texts concatenate: the text of joined word lists is the joined texts.
pub proof fn lemma_text_concat(a: Seq<Seq<char>>, b: Seq<Seq<char>>)
    ensures
        text_of(a + b) == text_of(a) + text_of(b),
    decreases a.len(),
{
    if a.len() == 0 {
        assert(a + b =~= b);
        assert(text_of(a) + text_of(b) =~= text_of(b));
    } else {
        assert((a + b).drop_first() =~= a.drop_first() + b);
        lemma_text_concat(a.drop_first(), b);
        assert((a + b).first() == a.first());
        assert(a.first() + (text_of(a.drop_first()) + text_of(b)) =~= (a.first() + text_of(
            a.drop_first(),
        )) + text_of(b));
    }
}

/// For a nonempty list of nonempty words, the text is nonempty, starts with
/// the first word's first character and ends with the last word's last one.
pub proof fn lemma_text_ends(ws: Seq<Seq<char>>)
    requires
        ws.len() >= 1,
        forall|i: int| 0 <= i < ws.len() ==> (#[trigger] ws[i]).len() >= 1,
    ensures
        text_of(ws).len() >= 1,
        text_of(ws).first() == ws.first().first(),
        text_of(ws).last() == ws.last().last(),
    decreases ws.len(),
{
    if ws.len() == 1 {
        reveal_with_fuel(text_of, 2);
        assert(text_of(ws) =~= ws.first());
    } else {
        let rest = ws.drop_first();
        lemma_text_ends(rest);
        assert(text_of(ws) == ws.first() + text_of(rest));
        assert(text_of(ws).last() == text_of(rest).last());
        assert(rest.last() == ws.last());
    }
}

/// A text made of typeable words is typeable.
pub proof fn lemma_text_keyable(ws: Seq<Seq<char>>)
    requires
        forall|i: int| 0 <= i < ws.len() ==> keyable_seq(#[trigger] ws[i]),
    ensures
        keyable_seq(text_of(ws)),
    decreases ws.len(),
{
    if ws.len() > 0 {
        lemma_text_keyable(ws.drop_first());
        assert forall|i: int| 0 <= i < text_of(ws).len() implies crate::key::is_keyable(
            #[trigger] text_of(ws)[i],
        ) by {
            if i < ws.first().len() {
                assert(text_of(ws)[i] == ws.first()[i]);
                assert(keyable_seq(ws[0]));
            } else {
                assert(text_of(ws)[i] == text_of(ws.drop_first())[i - ws.first().len()]);
            }
        }
    }
}

/// The composition of two well-formed candidates is well-formed, and its
/// cost is the cost of the concatenated text.
pub proof fn lemma_concat_wf(a: Cand, b: Cand)
    requires
        wf_cand(a),
        wf_cand(b),
    ensures
        wf_cand(concat_cand(a, b)),
        cand_text(concat_cand(a, b)) == cand_text(a) + cand_text(b),
{
    let c = concat_cand(a, b);
    lemma_text_concat(a.words, b.words);
    assert(cand_text(c) == cand_text(a) + cand_text(b));
    lemma_text_ends(a.words);
    lemma_text_ends(b.words);
    lemma_word_cost_concat(cand_text(a), cand_text(b));
    assert forall|i: int| 0 <= i < c.words.len() implies (#[trigger] c.words[i]).len() >= 1
        && keyable_seq(c.words[i]) by {
        if i < a.words.len() {
            assert(c.words[i] == a.words[i]);
        } else {
            assert(c.words[i] == b.words[i - a.words.len()]);
        }
    }
    assert((cand_text(a) + cand_text(b)).first() == cand_text(a).first());
    assert((cand_text(a) + cand_text(b)).last() == cand_text(b).last());
}

impl Password {
    /// A one-word candidate: the word itself, with its derived metadata.
    /// An empty word makes no candidate.
    pub fn from_word(word: &str) -> (r: Result<Password, Error>)
        requires
            word@.len() <= 0xFFFF_FFFF,
            keyable_seq(word@),
        ensures
            word@.len() == 0 <==> r is Err,
            r is Err ==> r == Result::<Password, Error>::Err(Error::EmptyInput),
            r matches Ok(p) ==> p@ == (Cand {
                words: seq![word@],
                first: Bound::At(key_of(word@.first())),
                last: Bound::At(key_of(word@.last())),
                length: word@.len() as int,
                cost: word_cost(word@),
            }) && wf_cand(p@),
    {
        match Metadata::from_word(word) {
            Err(e) => Err(e),
            Ok(m) => {
                let mut ws: Vec<String> = Vec::new();
                ws.push(String::from_str(word));
                let p = Password { words: ws, metadata: m };
                proof {
                    lemma_word_cost_nonneg(word@);
                    crate::word::lemma_word_cost_bound(word@);
                    assert(p@.words[0] == word@);
                    assert(p@.words =~= seq![word@]);
                    lemma_text_singleton(word@);
                    assert(p@ =~= (Cand {
                        words: seq![word@],
                        first: Bound::At(key_of(word@.first())),
                        last: Bound::At(key_of(word@.last())),
                        length: word@.len() as int,
                        cost: word_cost(word@),
                    }));
                }
                Ok(p)
            },
        }
    }

    /// The concatenated text of the candidate, the words joined in order.
    pub fn text(&self) -> (r: String)
        ensures
            r@ == cand_text(self@),
    {
        let mut r = String::new();
        let mut i: usize = 0;
        proof {
            assert(self@.words.take(0) =~= Seq::<Seq<char>>::empty());
            assert(r@ =~= text_of(self@.words.take(0)));
        }
        while i < self.words.len()
            invariant
                0 <= i <= self.words@.len(),
                r@ == text_of(self@.words.take(i as int)),
            decreases self.words@.len() - i,
        {
            r.append(self.words[i].as_str());
            proof {
                let ws = self@.words;
                assert(ws[i as int] == self.words@[i as int]@);
                assert(ws.take(i + 1) =~= ws.take(i as int) + seq![ws[i as int]]);
                lemma_text_concat(ws.take(i as int), seq![ws[i as int]]);
                lemma_text_singleton(ws[i as int]);
            }
            i = i + 1;
        }
        proof {
            assert(self@.words.take(self.words@.len() as int) =~= self@.words);
        }
        r
    }

    /// Composes two candidates: words joined in order, metadata freshly
    /// derived from the concatenated text.
    pub fn concat(&self, other: &Password) -> (r: Password)
        requires
            wf_cand(self@),
            wf_cand(other@),
            self@.cost + other@.cost + 12 <= u64::MAX,
            self@.length + other@.length <= u64::MAX,
        ensures
            r@ == (Cand {
                words: self@.words + other@.words,
                first: Bound::At(key_of(cand_text(self@).first())),
                last: Bound::At(key_of(cand_text(other@).last())),
                length: self@.length + other@.length,
                cost: self@.cost + other@.cost + junction(self@, other@),
            }),
            wf_cand(r@),
            cand_text(r@) == cand_text(self@) + cand_text(other@),
    {
        proof {
            lemma_text_ends(self@.words);
            lemma_text_ends(other@.words);
            lemma_text_keyable(self@.words);
            lemma_text_keyable(other@.words);
        }
        let mut ws: Vec<String> = Vec::new();
        proof {
            assert(words_view(ws@) =~= self@.words.take(0));
        }
        let mut i: usize = 0;
        while i < self.words.len()
            invariant
                0 <= i <= self.words@.len(),
                ws@.len() == i,
                words_view(ws@) == self@.words.take(i as int),
            decreases self.words@.len() - i,
        {
            ws.push(self.words[i].clone());
            proof {
                assert(ws@[i as int]@ == self@.words[i as int]);
                assert(words_view(ws@) =~= self@.words.take(i + 1));
            }
            i = i + 1;
        }
        proof {
            assert(words_view(ws@) =~= self@.words + other@.words.take(0));
        }
        let mut j: usize = 0;
        while j < other.words.len()
            invariant
                0 <= j <= other.words@.len(),
                ws@.len() == self.words@.len() + j,
                words_view(ws@) == self@.words + other@.words.take(j as int),
            decreases other.words@.len() - j,
        {
            let w = other.words[j].clone();
            proof {
                lemma_words_view_push(ws@, w);
            }
            ws.push(w);
            proof {
                assert(w@ == other@.words[j as int]);
                assert(self@.words + other@.words.take(j + 1) =~= (self@.words
                    + other@.words.take(j as int)).push(other@.words[j as int]));
            }
            j = j + 1;
        }
        proof {
            assert(self@.words.take(self.words@.len() as int) =~= self@.words);
            assert(other@.words.take(other.words@.len() as int) =~= other@.words);
            assert(self@.words[0] == self.words@[0]@);
            assert(other@.words[0] == other.words@[0]@);
            assert(self@.words[self@.words.len() - 1] == self.words@[self.words@.len() - 1]@);
        }
        let first_w: &String = &self.words[0];
        let fk = to_key(first_w.as_str().get_char(0));
        let last_w: &String = &self.words[self.words.len() - 1];
        let lw_len = last_w.as_str().unicode_len();
        let lk = to_key(last_w.as_str().get_char(lw_len - 1));
        let ow: &String = &other.words[0];
        let ofk = to_key(ow.as_str().get_char(0));
        let olw: &String = &other.words[other.words.len() - 1];
        let olw_len = olw.as_str().unicode_len();
        let olk = to_key(olw.as_str().get_char(olw_len - 1));
        let jd = distance(lk, ofk);
        let m = Metadata {
            t: Type {
                first_key: Bound::At(fk),
                last_key: Bound::At(olk),
                length: self.metadata.t.length + other.metadata.t.length,
            },
            cost: self.metadata.cost + other.metadata.cost + jd,
        };
        let r = Password { words: ws, metadata: m };
        proof {
            assert(other@.words[other@.words.len() - 1] == other.words@[other.words@.len() - 1]@);
            assert(r@.words == self@.words + other@.words);
            lemma_text_concat(self@.words, other@.words);
            lemma_word_cost_concat(cand_text(self@), cand_text(other@));
            lemma_word_cost_nonneg(cand_text(self@));
            lemma_word_cost_nonneg(cand_text(other@));
            lemma_concat_wf(self@, other@);
            assert(cand_text(r@) == cand_text(self@) + cand_text(other@));
            assert(r@.cost == word_cost(cand_text(r@)));
            assert((cand_text(self@) + cand_text(other@)).first() == cand_text(self@).first());
            assert((cand_text(self@) + cand_text(other@)).last() == cand_text(other@).last());
        }
        r
    }
}

impl Clone for Password {
    /// A deep copy that keeps the candidate's model.
    fn clone(&self) -> (r: Self)
        ensures
            r@ == self@,
    {
        let mut ws: Vec<String> = Vec::new();
        proof {
            assert(words_view(ws@) =~= self@.words.take(0));
        }
        let mut i: usize = 0;
        while i < self.words.len()
            invariant
                0 <= i <= self.words@.len(),
                ws@.len() == i,
                words_view(ws@) == self@.words.take(i as int),
            decreases self.words@.len() - i,
        {
            ws.push(self.words[i].clone());
            proof {
                assert(ws@[i as int]@ == self@.words[i as int]);
                assert(words_view(ws@) =~= self@.words.take(i + 1));
            }
            i = i + 1;
        }
        proof {
            assert(self@.words.take(self.words@.len() as int) =~= self@.words);
        }
        Password { words: ws, metadata: self.metadata }
    }
}

impl PartialEq for Password {
    /// Two candidates are equal when their concatenated texts are equal.
    fn eq(&self, other: &Password) -> (r: bool) {
        self.text() == other.text()
    }
}

impl vstd::std_specs::cmp::PartialEqSpecImpl for Password {
    open spec fn obeys_eq_spec() -> bool {
        true
    }

    open spec fn eq_spec(&self, other: &Password) -> bool {
        cand_text(self@) == cand_text(other@)
    }
}

impl PartialOrd for Password {
    /// Candidates are cost-comparable only when their word counts agree;
    /// the comparison is otherwise undefined.
    fn partial_cmp(&self, other: &Password) -> (r: Option<core::cmp::Ordering>) {
        if self.words.len() == other.words.len() {
            if self.metadata.cost < other.metadata.cost {
                Some(core::cmp::Ordering::Less)
            } else if self.metadata.cost == other.metadata.cost {
                Some(core::cmp::Ordering::Equal)
            } else {
                Some(core::cmp::Ordering::Greater)
            }
        } else {
            None
        }
    }
}

impl vstd::std_specs::cmp::PartialOrdSpecImpl for Password {
    open spec fn obeys_partial_cmp_spec() -> bool {
        true
    }

    open spec fn partial_cmp_spec(&self, other: &Password) -> Option<core::cmp::Ordering> {
        if self@.words.len() == other@.words.len() {
            if self@.cost < other@.cost {
                Some(core::cmp::Ordering::Less)
            } else if self@.cost == other@.cost {
                Some(core::cmp::Ordering::Equal)
            } else {
                Some(core::cmp::Ordering::Greater)
            }
        } else {
            None
        }
    }
}

// ---------------------------------------------------------------------------
// Candidate tables
// ---------------------------------------------------------------------------
/// Wrapper that marks a candidate, or a whole table, as holding only the
/// cheapest member of each signature class.
#[derive(Debug)]
pub struct Best<T> {
    pub p: T,
}

/// A candidate table: for each signature, the cheapest candidate seen.
pub type Passwords = Vec<Best<Password>>;

impl View for Best<Password> {
    type V = Cand;

    open spec fn view(&self) -> Cand {
        self.p@
    }
}

/// The models of a table's entries, in table order.
pub open spec fn table_view(v: Seq<Best<Password>>) -> Seq<Cand> {
    v.map_values(|b: Best<Password>| b.p@)
}

impl View for Best<Passwords> {
    type V = Seq<Cand>;

    open spec fn view(&self) -> Seq<Cand> {
        table_view(self.p@)
    }
}

/// The signature of a candidate model: its equivalence class key.
pub open spec fn sig(c: Cand) -> (Bound, Bound, int) {
    (c.first, c.last, c.length)
}

/// Whether some entry of the table has the signature `t`.
pub open spec fn has_sig(s: Seq<Cand>, t: (Bound, Bound, int)) -> bool {
    exists|i: int| 0 <= i < s.len() && sig(#[trigger] s[i]) == t
}

/// The index of the entry with signature `t`; meaningful when the table has
/// one and its signatures are distinct.
pub open spec fn sig_index(s: Seq<Cand>, t: (Bound, Bound, int)) -> int {
    choose|i: int| 0 <= i < s.len() && sig(#[trigger] s[i]) == t
}

/// A well-formed table: every entry well-formed, and at most one entry per
/// signature.
pub open spec fn table_wf(s: Seq<Cand>) -> bool {
    &&& forall|i: int| 0 <= i < s.len() ==> wf_cand(#[trigger] s[i])
    &&& forall|i: int, j: int| 0 <= i < j < s.len() ==> sig(s[i]) != sig(s[j])
}

/// Whether an existing entry survives against a contender of the same
/// signature: it is kept when the two are comparable (equal word count) and
/// it costs no more. An incomparable contender wins.
pub open spec fn keeps(e: Cand, c: Cand) -> bool {
    e.words.len() == c.words.len() && e.cost <= c.cost
}

/// The model of `push`: a new signature is inserted, a known one keeps the
/// existing entry unless the contender beats it.
pub open spec fn push_spec(s: Seq<Cand>, c: Cand) -> Seq<Cand> {
    if has_sig(s, sig(c)) {
        let i = sig_index(s, sig(c));
        if keeps(s[i], c) {
            s
        } else {
            s.update(i, c)
        }
    } else {
        s.push(c)
    }
}

/// The model of `insert_winner`: the entry for the candidate's signature is
/// replaced unconditionally.
pub open spec fn insert_spec(s: Seq<Cand>, c: Cand) -> Seq<Cand> {
    if has_sig(s, sig(c)) {
        s.update(sig_index(s, sig(c)), c)
    } else {
        s.push(c)
    }
}

/// In a table with distinct signatures, `sig_index` names the one entry of
/// its signature.
pub proof fn lemma_sig_index(s: Seq<Cand>, t: (Bound, Bound, int))
    requires
        has_sig(s, t),
        forall|i: int, j: int| 0 <= i < j < s.len() ==> sig(s[i]) != sig(s[j]),
    ensures
        0 <= sig_index(s, t) < s.len(),
        sig(s[sig_index(s, t)]) == t,
        forall|i: int| 0 <= i < s.len() && sig(#[trigger] s[i]) == t ==> i == sig_index(s, t),
{
    let i0 = choose|i: int| 0 <= i < s.len() && sig(#[trigger] s[i]) == t;
    assert(0 <= i0 < s.len() && sig(s[i0]) == t);
    assert forall|i: int| 0 <= i < s.len() && sig(#[trigger] s[i]) == t implies i == sig_index(
        s,
        t,
    ) by {
        let k = sig_index(s, t);
        if i < k {
            assert(sig(s[i]) != sig(s[k]));
        } else if k < i {
            assert(sig(s[k]) != sig(s[i]));
        }
    }
}

/// `push` keeps the table well-formed; its entries are the old entries and
/// possibly the contender; the contender's signature is now present.
pub proof fn lemma_push_wf(s: Seq<Cand>, c: Cand)
    requires
        table_wf(s),
        wf_cand(c),
    ensures
        table_wf(push_spec(s, c)),
        s.len() <= push_spec(s, c).len() <= s.len() + 1,
        forall|k: int|
            0 <= k < push_spec(s, c).len() ==> (#[trigger] push_spec(s, c)[k] == c || s.contains(
                push_spec(s, c)[k],
            )),
        has_sig(push_spec(s, c), sig(c)),
        forall|t: (Bound, Bound, int)| #[trigger]
            has_sig(push_spec(s, c), t) ==> has_sig(s, t) || t == sig(c),
{
    let r = push_spec(s, c);
    if has_sig(s, sig(c)) {
        lemma_sig_index(s, sig(c));
        let i = sig_index(s, sig(c));
        if keeps(s[i], c) {
            assert(forall|k: int| 0 <= k < r.len() ==> s.contains(#[trigger] r[k]));
        } else {
            assert(r == s.update(i, c));
            assert(sig(r[i]) == sig(s[i]));
            assert forall|k: int| 0 <= k < r.len() implies (#[trigger] r[k] == c || s.contains(
                r[k],
            )) by {
                if k != i {
                    assert(r[k] == s[k]);
                }
            }
            assert forall|k: int, l: int| 0 <= k < l < r.len() implies sig(r[k]) != sig(
                r[l],
            ) by {
                assert(sig(r[k]) == sig(s[k]) || k == i);
                assert(sig(r[l]) == sig(s[l]) || l == i);
            }
        }
    } else {
        assert(r == s.push(c));
        assert(sig(r[s.len() as int]) == sig(c));
        assert forall|k: int| 0 <= k < r.len() implies (#[trigger] r[k] == c || s.contains(
            r[k],
        )) by {
            if k < s.len() {
                assert(r[k] == s[k]);
            }
        }
        assert forall|k: int, l: int| 0 <= k < l < r.len() implies sig(r[k]) != sig(r[l]) by {
            if l < s.len() {
            } else {
                assert(r[l] == c);
                assert(!(exists|i: int| 0 <= i < s.len() && sig(#[trigger] s[i]) == sig(c)));
                assert(sig(s[k]) != sig(c));
            }
        }
    }
}

/// `insert_winner` keeps the table well-formed; its entries are the old
/// entries and the inserted one.
pub proof fn lemma_insert_wf(s: Seq<Cand>, c: Cand)
    requires
        table_wf(s),
        wf_cand(c),
    ensures
        table_wf(insert_spec(s, c)),
        s.len() <= insert_spec(s, c).len() <= s.len() + 1,
        insert_spec(s, c).len() >= 1,
        forall|k: int|
            0 <= k < insert_spec(s, c).len() ==> (#[trigger] insert_spec(s, c)[k] == c
                || s.contains(insert_spec(s, c)[k])),
{
    let r = insert_spec(s, c);
    if has_sig(s, sig(c)) {
        lemma_sig_index(s, sig(c));
        let i = sig_index(s, sig(c));
        assert(sig(r[i]) == sig(s[i]));
        assert forall|k: int| 0 <= k < r.len() implies (#[trigger] r[k] == c || s.contains(
            r[k],
        )) by {
            if k != i {
                assert(r[k] == s[k]);
            }
        }
        assert forall|k: int, l: int| 0 <= k < l < r.len() implies sig(r[k]) != sig(r[l]) by {
            assert(sig(r[k]) == sig(s[k]) || k == i);
            assert(sig(r[l]) == sig(s[l]) || l == i);
        }
    } else {
        assert(sig(r[s.len() as int]) == sig(c));
        assert forall|k: int| 0 <= k < r.len() implies (#[trigger] r[k] == c || s.contains(
            r[k],
        )) by {
            if k < s.len() {
                assert(r[k] == s[k]);
            }
        }
        assert forall|k: int, l: int| 0 <= k < l < r.len() implies sig(r[k]) != sig(r[l]) by {
            if l >= s.len() {
                assert(r[l] == c);
                assert(!(exists|i: int| 0 <= i < s.len() && sig(#[trigger] s[i]) == sig(c)));
                assert(sig(s[k]) != sig(c));
            }
        }
    }
}

/// The model of binding one candidate: the boundary slot on the given side
/// becomes unconstrained.
pub open spec fn bind_cand(c: Cand, end: End) -> Cand {
    match end {
        End::Left => Cand { first: Bound::Any, ..c },
        End::Right => Cand { last: Bound::Any, ..c },
    }
}

/// Binding keeps a candidate well-formed.
pub proof fn lemma_bind_cand_wf(c: Cand, end: End)
    requires
        wf_cand(c),
    ensures
        wf_cand(bind_cand(c, end)),
{
}

/// The model of binding a table: every entry is bound on the given side and
/// pushed, in table order, into a fresh table.
pub open spec fn bind_spec(s: Seq<Cand>, end: End) -> Seq<Cand>
    decreases s.len(),
{
    if s.len() == 0 {
        Seq::empty()
    } else {
        push_spec(bind_spec(s.drop_last(), end), bind_cand(s.last(), end))
    }
}

impl Best<Password> {
    /// Marks the password's boundary on the given side as unconstrained.
    pub fn bind(&mut self, end: &End)
        ensures
            final(self)@ == bind_cand(old(self)@, *end),
    {
        self.p.metadata.bind(end);
    }

    /// Returns whether the password's boundary on the given side is
    /// unconstrained.
    pub fn is_binded(&self, end: &End) -> (r: bool)
        ensures
            r == match end {
                End::Left => self@.first is Any,
                End::Right => self@.last is Any,
            },
    {
        self.p.metadata.is_binded(end)
    }

    /// Composes two passwords and keeps the outer boundary marks of the
    /// operands.
    pub fn concat(&self, other: &Best<Password>) -> (r: Best<Password>)
        requires
            wf_cand(self@),
            wf_cand(other@),
            self@.cost + other@.cost + 12 <= u64::MAX,
            self@.length + other@.length <= u64::MAX,
        ensures
            r@ == concat_cand(self@, other@),
            wf_cand(r@),
    {
        let mut sum = Best { p: self.p.concat(&other.p) };
        if self.is_binded(&End::Left) {
            sum.bind(&End::Left);
        }
        if other.is_binded(&End::Right) {
            sum.bind(&End::Right);
        }
        proof {
            lemma_concat_wf(self@, other@);
            assert(sum@ =~= concat_cand(self@, other@));
        }
        sum
    }
}

impl Clone for Best<Password> {
    /// A deep copy that keeps the password's model.
    fn clone(&self) -> (r: Self)
        ensures
            r@ == self@,
    {
        Best { p: self.p.clone() }
    }
}

/// Replacing a table entry replaces its model.
pub proof fn lemma_table_view_update(v: Seq<Best<Password>>, i: int, b: Best<Password>)
    requires
        0 <= i < v.len(),
    ensures
        table_view(v.update(i, b)) == table_view(v).update(i, b.p@),
{
    assert(table_view(v.update(i, b)) =~= table_view(v).update(i, b.p@));
}

/// Appending a table entry appends its model.
pub proof fn lemma_table_view_push(v: Seq<Best<Password>>, b: Best<Password>)
    ensures
        table_view(v.push(b)) == table_view(v).push(b.p@),
{
    assert(table_view(v.push(b)) =~= table_view(v).push(b.p@));
}

impl Best<Passwords> {
    /// The index of the entry with the given signature, if the table has
    /// one; the first match is reported.
    fn find_sig(&self, t: &Type) -> (r: Option<usize>)
        ensures
            match r {
                Some(i) => i < self.p@.len() && self.p@[i as int].p.metadata.t == *t,
                None => forall|j: int| 0 <= j < self.p@.len() ==> self.p@[j].p.metadata.t != *t,
            },
    {
        let mut i: usize = 0;
        while i < self.p.len()
            invariant
                0 <= i <= self.p@.len(),
                forall|j: int| 0 <= j < i ==> self.p@[j].p.metadata.t != *t,
            decreases self.p@.len() - i,
        {
            if self.p[i].p.metadata.t == *t {
                return Some(i);
            }
            i = i + 1;
        }
        None
    }

    /// Puts the candidate into the table, replacing whatever entry its
    /// signature had.
    fn insert_winner(&mut self, w: &Password)
        requires
            table_wf(old(self)@),
            wf_cand(w@),
        ensures
            final(self)@ == insert_spec(old(self)@, w@),
            table_wf(final(self)@),
    {
        proof {
            lemma_insert_wf(old(self)@, w@);
        }
        match self.find_sig(&w.metadata.t) {
            Some(i) => {
                proof {
                    assert(sig(old(self)@[i as int]) == sig(w@));
                    lemma_sig_index(old(self)@, sig(w@));
                    lemma_table_view_update(old(self).p@, i as int, Best { p: *w });
                }
                self.p.set(i, Best { p: w.clone() });
                proof {
                    assert(final(self)@ =~= insert_spec(old(self)@, w@));
                }
            },
            None => {
                proof {
                    assert(!has_sig(old(self)@, sig(w@)));
                }
                self.p.push(Best { p: w.clone() });
                proof {
                    assert(final(self)@ =~= insert_spec(old(self)@, w@));
                }
            },
        }
    }

    /// Offers a contender to the table. A new signature is inserted; an
    /// existing entry of the same signature is kept unless the contender is
    /// comparable (same word count) and strictly cheaper, or not comparable
    /// at all, in which case the contender replaces it.
    pub fn push(&mut self, c: &Password)
        requires
            table_wf(old(self)@),
            wf_cand(c@),
        ensures
            final(self)@ == push_spec(old(self)@, c@),
            table_wf(final(self)@),
    {
        proof {
            lemma_push_wf(old(self)@, c@);
        }
        match self.find_sig(&c.metadata.t) {
            Some(i) => {
                proof {
                    assert(sig(old(self)@[i as int]) == sig(c@));
                    lemma_sig_index(old(self)@, sig(c@));
                }
                let keep = self.p[i].p.words.len() == c.words.len() && self.p[i].p.metadata.cost
                    <= c.metadata.cost;
                proof {
                    assert(old(self)@[i as int].words.len() == old(self).p@[i as int].p.words@.len());
                    assert(keep == keeps(old(self)@[i as int], c@));
                }
                if !keep {
                    proof {
                        lemma_table_view_update(old(self).p@, i as int, Best { p: *c });
                    }
                    self.p.set(i, Best { p: c.clone() });
                    proof {
                        assert(final(self)@ =~= push_spec(old(self)@, c@));
                    }
                }
            },
            None => {
                proof {
                    assert(!has_sig(old(self)@, sig(c@)));
                }
                self.p.push(Best { p: c.clone() });
                proof {
                    assert(final(self)@ =~= push_spec(old(self)@, c@));
                }
            },
        }
    }

    /// Binds every entry on the given side and gathers the results in a
    /// fresh table: boundary classes collapse and only the cheapest of each
    /// collapsed class survives.
    pub fn bind(&self, end: &End) -> (r: Self)
        requires
            table_wf(self@),
        ensures
            r@ == bind_spec(self@, *end),
            table_wf(r@),
    {
        let mut out: Best<Passwords> = Best { p: Vec::new() };
        proof {
            assert(out@ =~= Seq::<Cand>::empty());
            assert(self@.take(0) =~= Seq::<Cand>::empty());
        }
        let mut i: usize = 0;
        while i < self.p.len()
            invariant
                0 <= i <= self.p@.len(),
                table_wf(self@),
                out@ == bind_spec(self@.take(i as int), *end),
                table_wf(out@),
            decreases self.p@.len() - i,
        {
            let mut b = Best { p: self.p[i].p.clone() };
            b.bind(end);
            proof {
                assert(self@[i as int] == self.p@[i as int].p@);
                assert(b@ == bind_cand(self@[i as int], *end));
                lemma_bind_cand_wf(self@[i as int], *end);
            }
            out.push(&b.p);
            proof {
                assert(self@.take(i + 1).drop_last() =~= self@.take(i as int));
                assert(self@.take(i + 1).last() == self@[i as int]);
            }
            i = i + 1;
        }
        proof {
            assert(self@.take(self.p@.len() as int) =~= self@);
        }
        out
    }
}

impl Clone for Best<Passwords> {
    /// A deep copy that keeps the table's model.
    fn clone(&self) -> (r: Self)
        ensures
            r@ == self@,
    {
        let mut v: Passwords = Vec::new();
        proof {
            assert(table_view(v@) =~= self@.take(0));
        }
        let mut i: usize = 0;
        while i < self.p.len()
            invariant
                0 <= i <= self.p@.len(),
                table_view(v@) == self@.take(i as int),
            decreases self.p@.len() - i,
        {
            let b = self.p[i].clone();
            proof {
                lemma_table_view_push(v@, b);
                assert(self@.take(i + 1) =~= self@.take(i as int).push(self@[i as int]));
            }
            v.push(b);
            i = i + 1;
        }
        proof {
            assert(self@.take(self.p@.len() as int) =~= self@);
        }
        Best { p: v }
    }
}

/// No pair of entries overflows the machine arithmetic of composition.
pub open spec fn cross_fits(a: Seq<Cand>, b: Seq<Cand>) -> bool {
    forall|i: int, j: int|
        0 <= i < a.len() && 0 <= j < b.len() ==> (#[trigger] a[i]).cost + (#[trigger] b[j]).cost
            + 12 <= u64::MAX && a[i].length + b[j].length <= u64::MAX
}

/// The model of one cross-product row: every composition of `a` with an
/// entry of `b`, pushed in order into the accumulated table `t`.
pub open spec fn cross_row(t: Seq<Cand>, a: Cand, b: Seq<Cand>) -> Seq<Cand>
    decreases b.len(),
{
    if b.len() == 0 {
        t
    } else {
        push_spec(cross_row(t, a, b.drop_last()), concat_cand(a, b.last()))
    }
}

/// The model of the cross product accumulated row by row over `a`.
pub open spec fn cross_acc(t: Seq<Cand>, a: Seq<Cand>, b: Seq<Cand>) -> Seq<Cand>
    decreases a.len(),
{
    if a.len() == 0 {
        t
    } else {
        cross_row(cross_acc(t, a.drop_last(), b), a.last(), b)
    }
}

/// The model of the full cross product of two tables.
pub open spec fn cross_spec(a: Seq<Cand>, b: Seq<Cand>) -> Seq<Cand> {
    cross_acc(Seq::empty(), a, b)
}

/// The model of pruning by cost: exactly the entries with cost at most
/// `max` survive, in order.
pub open spec fn filter_cost_spec(s: Seq<Cand>, max: int) -> Seq<Cand>
    decreases s.len(),
{
    if s.len() == 0 {
        s
    } else if s.last().cost <= max {
        filter_cost_spec(s.drop_last(), max).push(s.last())
    } else {
        filter_cost_spec(s.drop_last(), max)
    }
}

/// Whether an entry survives pruning by length: never longer than the
/// goal's maximum, and an entry that already has the goal's word count must
/// not be shorter than the minimum either.
pub open spec fn len_ok(c: Cand, g: Goal) -> bool {
    c.length <= g.max_length as int && !(c.words.len() == g.words_number as nat && c.length
        < g.min_length as int)
}

/// The model of pruning by length: exactly the entries satisfying `len_ok`
/// survive, in order.
pub open spec fn filter_len_spec(s: Seq<Cand>, g: Goal) -> Seq<Cand>
    decreases s.len(),
{
    if s.len() == 0 {
        s
    } else if len_ok(s.last(), g) {
        filter_len_spec(s.drop_last(), g).push(s.last())
    } else {
        filter_len_spec(s.drop_last(), g)
    }
}

/// The model of the combined pruning pass: by cost, then by length.
pub open spec fn filter_spec(s: Seq<Cand>, g: Goal, max: int) -> Seq<Cand> {
    filter_len_spec(filter_cost_spec(s, max), g)
}

/// Pruning by cost keeps a subsequence: a well-formed table stays
/// well-formed, every surviving entry is an entry of the input within the
/// ceiling, and no signature appears that was absent.
pub proof fn lemma_filter_cost_table(s: Seq<Cand>, max: int)
    requires
        forall|i: int, j: int| 0 <= i < j < s.len() ==> sig(s[i]) != sig(s[j]),
    ensures
        forall|k: int|
            0 <= k < filter_cost_spec(s, max).len() ==> (#[trigger] filter_cost_spec(s, max)[k]).cost
                <= max && s.contains(filter_cost_spec(s, max)[k]),
        forall|i: int, j: int|
            0 <= i < j < filter_cost_spec(s, max).len() ==> sig(filter_cost_spec(s, max)[i]) != sig(
                filter_cost_spec(s, max)[j],
            ),
        filter_cost_spec(s, max).len() <= s.len(),
    decreases s.len(),
{
    if s.len() > 0 {
        let d = s.drop_last();
        lemma_filter_cost_table(d, max);
        let fd = filter_cost_spec(d, max);
        assert forall|k: int| 0 <= k < fd.len() implies s.contains(fd[k]) by {
            assert(d.contains(fd[k]));
            let m = choose|m: int| 0 <= m < d.len() && d[m] == fd[k];
            assert(s[m] == fd[k]);
        }
        if s.last().cost <= max {
            let f = filter_cost_spec(s, max);
            assert(f == fd.push(s.last()));
            assert(s.contains(s.last())) by {
                assert(s[s.len() - 1] == s.last());
            }
            assert forall|i: int, j: int| 0 <= i < j < f.len() implies sig(f[i]) != sig(
                f[j],
            ) by {
                if j == f.len() - 1 {
                    assert(d.contains(f[i]));
                    let m = choose|m: int| 0 <= m < d.len() && d[m] == f[i];
                    assert(sig(s[m]) != sig(s[s.len() - 1]));
                }
            }
        }
    }
}

/// Pruning by length keeps a subsequence, the same way.
pub proof fn lemma_filter_len_table(s: Seq<Cand>, g: Goal)
    requires
        forall|i: int, j: int| 0 <= i < j < s.len() ==> sig(s[i]) != sig(s[j]),
    ensures
        forall|k: int|
            0 <= k < filter_len_spec(s, g).len() ==> len_ok(
                #[trigger] filter_len_spec(s, g)[k],
                g,
            ) && s.contains(filter_len_spec(s, g)[k]),
        forall|i: int, j: int|
            0 <= i < j < filter_len_spec(s, g).len() ==> sig(filter_len_spec(s, g)[i]) != sig(
                filter_len_spec(s, g)[j],
            ),
        filter_len_spec(s, g).len() <= s.len(),
    decreases s.len(),
{
    if s.len() > 0 {
        let d = s.drop_last();
        lemma_filter_len_table(d, g);
        let fd = filter_len_spec(d, g);
        assert forall|k: int| 0 <= k < fd.len() implies s.contains(fd[k]) by {
            assert(d.contains(fd[k]));
            let m = choose|m: int| 0 <= m < d.len() && d[m] == fd[k];
            assert(s[m] == fd[k]);
        }
        if len_ok(s.last(), g) {
            let f = filter_len_spec(s, g);
            assert(f == fd.push(s.last()));
            assert(s.contains(s.last())) by {
                assert(s[s.len() - 1] == s.last());
            }
            assert forall|i: int, j: int| 0 <= i < j < f.len() implies sig(f[i]) != sig(
                f[j],
            ) by {
                if j == f.len() - 1 {
                    assert(d.contains(f[i]));
                    let m = choose|m: int| 0 <= m < d.len() && d[m] == f[i];
                    assert(sig(s[m]) != sig(s[s.len() - 1]));
                }
            }
        }
    }
}

/// A table whose entries all come from a well-formed table is well-formed
/// entry-wise.
pub proof fn lemma_entries_wf(s: Seq<Cand>, r: Seq<Cand>)
    requires
        table_wf(s),
        forall|k: int| 0 <= k < r.len() ==> s.contains(#[trigger] r[k]),
    ensures
        forall|k: int| 0 <= k < r.len() ==> wf_cand(#[trigger] r[k]),
{
    assert forall|k: int| 0 <= k < r.len() implies wf_cand(#[trigger] r[k]) by {
        let m = choose|m: int| 0 <= m < s.len() && s[m] == r[k];
        assert(wf_cand(s[m]));
    }
}

/// The entry with the globally minimal cost, and the first such entry in
/// table order.
pub open spec fn is_first_min(s: Seq<Cand>, b: Cand) -> bool {
    &&& exists|i: int|
        0 <= i < s.len() && #[trigger] s[i] == b && (forall|j: int|
            0 <= j < i ==> (#[trigger] s[j]).cost > b.cost)
    &&& forall|j: int| 0 <= j < s.len() ==> (#[trigger] s[j]).cost >= b.cost
}

impl Best<Passwords> {
    /// The full cross product: every composition of an entry of `self` with
    /// an entry of `other`, deduplicated by signature, cheapest first
    /// according to the push discipline.
    pub fn cross(&self, other: &Best<Passwords>) -> (r: Self)
        requires
            table_wf(self@),
            table_wf(other@),
            cross_fits(self@, other@),
        ensures
            r@ == cross_spec(self@, other@),
            table_wf(r@),
    {
        let mut out: Best<Passwords> = Best { p: Vec::new() };
        proof {
            assert(out@ =~= Seq::<Cand>::empty());
            assert(self@.take(0) =~= Seq::<Cand>::empty());
        }
        let mut i: usize = 0;
        while i < self.p.len()
            invariant
                0 <= i <= self.p@.len(),
                table_wf(self@),
                table_wf(other@),
                cross_fits(self@, other@),
                out@ == cross_acc(Seq::empty(), self@.take(i as int), other@),
                table_wf(out@),
            decreases self.p@.len() - i,
        {
            let ghost t0 = out@;
            proof {
                assert(other@.take(0) =~= Seq::<Cand>::empty());
            }
            let mut j: usize = 0;
            while j < other.p.len()
                invariant
                    0 <= i < self.p@.len(),
                    0 <= j <= other.p@.len(),
                    table_wf(self@),
                    table_wf(other@),
                    cross_fits(self@, other@),
                    out@ == cross_row(t0, self@[i as int], other@.take(j as int)),
                    table_wf(out@),
                decreases other.p@.len() - j,
            {
                proof {
                    assert(self@[i as int] == self.p@[i as int].p@);
                    assert(other@[j as int] == other.p@[j as int].p@);
                    assert(wf_cand(self@[i as int]));
                    assert(wf_cand(other@[j as int]));
                }
                let combined = self.p[i].concat(&other.p[j]);
                out.push(&combined.p);
                proof {
                    assert(other@.take(j + 1).drop_last() =~= other@.take(j as int));
                    assert(other@.take(j + 1).last() == other@[j as int]);
                }
                j = j + 1;
            }
            proof {
                assert(other@.take(other.p@.len() as int) =~= other@);
                assert(self@.take(i + 1).drop_last() =~= self@.take(i as int));
                assert(self@.take(i + 1).last() == self@[i as int]);
            }
            i = i + 1;
        }
        proof {
            assert(self@.take(self.p@.len() as int) =~= self@);
        }
        out
    }

    /// Drops every entry whose cost is strictly above `max`; the rest stay,
    /// in order.
    pub fn filter_by_cost(&mut self, max: u16)
        requires
            table_wf(old(self)@),
        ensures
            final(self)@ == filter_cost_spec(old(self)@, max as int),
            table_wf(final(self)@),
            forall|k: int| 0 <= k < final(self)@.len() ==> (#[trigger] final(self)@[k]).cost <= max,
    {
        let mut v: Passwords = Vec::new();
        proof {
            assert(table_view(v@) =~= filter_cost_spec(self@.take(0), max as int));
            assert(self@.take(0) =~= Seq::<Cand>::empty());
        }
        let mut i: usize = 0;
        while i < self.p.len()
            invariant
                0 <= i <= self.p@.len(),
                table_view(v@) == filter_cost_spec(self@.take(i as int), max as int),
            decreases self.p@.len() - i,
        {
            proof {
                assert(self@.take(i + 1).drop_last() =~= self@.take(i as int));
                assert(self@.take(i + 1).last() == self@[i as int]);
            }
            if self.p[i].p.metadata.cost <= max as u64 {
                let b = self.p[i].clone();
                proof {
                    lemma_table_view_push(v@, b);
                }
                v.push(b);
            }
            i = i + 1;
        }
        proof {
            assert(self@.take(self.p@.len() as int) =~= self@);
            lemma_filter_cost_table(old(self)@, max as int);
            lemma_entries_wf(old(self)@, filter_cost_spec(old(self)@, max as int));
        }
        self.p = v;
    }

    /// Drops every entry longer than the goal's maximum, and every entry
    /// that already has the goal's word count but is shorter than the
    /// goal's minimum; the rest stay, in order.
    pub fn filter_by_length(&mut self, g: &Goal)
        requires
            table_wf(old(self)@),
        ensures
            final(self)@ == filter_len_spec(old(self)@, *g),
            table_wf(final(self)@),
            forall|k: int| 0 <= k < final(self)@.len() ==> len_ok(#[trigger] final(self)@[k], *g),
    {
        let mut v: Passwords = Vec::new();
        proof {
            assert(table_view(v@) =~= filter_len_spec(self@.take(0), *g));
            assert(self@.take(0) =~= Seq::<Cand>::empty());
        }
        let mut i: usize = 0;
        while i < self.p.len()
            invariant
                0 <= i <= self.p@.len(),
                table_view(v@) == filter_len_spec(self@.take(i as int), *g),
            decreases self.p@.len() - i,
        {
            proof {
                assert(self@.take(i + 1).drop_last() =~= self@.take(i as int));
                assert(self@.take(i + 1).last() == self@[i as int]);
            }
            let e = &self.p[i];
            let is_too_long = e.p.metadata.t.length > g.max_length as u64;
            let is_too_small = e.p.metadata.t.length < g.min_length as u64;
            let drop_it = if e.p.words.len() == g.words_number as usize {
                is_too_long || is_too_small
            } else {
                is_too_long
            };
            proof {
                assert(self@[i as int].words.len() == self.p@[i as int].p.words@.len());
                assert(drop_it == !len_ok(self@[i as int], *g));
            }
            if !drop_it {
                let b = self.p[i].clone();
                proof {
                    lemma_table_view_push(v@, b);
                }
                v.push(b);
            }
            i = i + 1;
        }
        proof {
            assert(self@.take(self.p@.len() as int) =~= self@);
            lemma_filter_len_table(old(self)@, *g);
            lemma_entries_wf(old(self)@, filter_len_spec(old(self)@, *g));
        }
        self.p = v;
    }

    /// The combined pruning pass: first by cost, then by length.
    pub fn filter(&mut self, g: &Goal, max_cost: u16)
        requires
            table_wf(old(self)@),
        ensures
            final(self)@ == filter_spec(old(self)@, *g, max_cost as int),
            table_wf(final(self)@),
            forall|k: int|
                0 <= k < final(self)@.len() ==> (#[trigger] final(self)@[k]).cost <= max_cost
                    && len_ok(final(self)@[k], *g),
    {
        self.filter_by_cost(max_cost);
        proof {
            lemma_filter_cost_table(old(self)@, max_cost as int);
        }
        self.filter_by_length(g);
        proof {
            lemma_filter_len_table(filter_cost_spec(old(self)@, max_cost as int), *g);
            lemma_entries_wf(
                filter_cost_spec(old(self)@, max_cost as int),
                filter_spec(old(self)@, *g, max_cost as int),
            );
        }
    }

    /// The cheapest entry of the table, the first one in table order on a
    /// tie; an empty table has none.
    pub fn best(&self) -> (r: Result<Best<Password>, Error>)
        requires
            table_wf(self@),
        ensures
            self@.len() == 0 <==> r is Err,
            r is Err ==> r == Result::<Best<Password>, Error>::Err(Error::EmptyTable),
            r matches Ok(b) ==> is_first_min(self@, b@) && wf_cand(b@),
    {
        if self.p.len() == 0 {
            return Err(Error::EmptyTable);
        }
        let mut bi: usize = 0;
        let mut i: usize = 1;
        while i < self.p.len()
            invariant
                0 <= bi < i <= self.p@.len(),
                forall|j: int| 0 <= j < i ==> (#[trigger] self@[j]).cost >= self@[bi as int].cost,
                forall|j: int| 0 <= j < bi ==> (#[trigger] self@[j]).cost > self@[bi as int].cost,
            decreases self.p@.len() - i,
        {
            if self.p[i].p.metadata.cost < self.p[bi].p.metadata.cost {
                bi = i;
            }
            i = i + 1;
        }
        let b = self.p[bi].clone();
        proof {
            assert(self@[bi as int] == b@);
        }
        Ok(b)
    }
}

/// Relies on rand's `SliceRandom::choose_multiple`: it returns
/// `min(n, xs.len())` elements of the slice, drawn uniformly at random
/// from distinct positions.
#[verifier::external_body]
fn choose_distinct(xs: &Vec<usize>, n: usize) -> (r: Vec<usize>)
    ensures
        r@.len() == vstd::math::min(n as int, xs@.len() as int),
        forall|i: int| 0 <= i < r@.len() ==> xs@.contains(#[trigger] r@[i]),
{
    xs.choose_multiple(&mut rand::thread_rng(), n).cloned().collect()
}

impl Best<Passwords> {
    /// Picks up to `n` entries of the table at random and returns the
    /// reduced table made of them; an empty table has no sample.
    pub fn get_sample(&self, n: u16) -> (r: Result<Self, Error>)
        requires
            table_wf(self@),
        ensures
            self@.len() == 0 <==> r is Err,
            r is Err ==> r == Result::<Best<Passwords>, Error>::Err(Error::EmptyTable),
            r matches Ok(t) ==> {
                &&& table_wf(t@)
                &&& t@.len() <= n as int
                &&& t@.len() <= self@.len()
                &&& forall|k: int| 0 <= k < t@.len() ==> self@.contains(#[trigger] t@[k])
                &&& (n >= 1 ==> t@.len() >= 1)
            },
    {
        if self.p.len() == 0 {
            return Err(Error::EmptyTable);
        }
        let mut idx: Vec<usize> = Vec::new();
        let mut i: usize = 0;
        while i < self.p.len()
            invariant
                0 <= i <= self.p@.len(),
                idx@.len() == i,
                forall|k: int| 0 <= k < i ==> idx@[k] == k,
            decreases self.p@.len() - i,
        {
            idx.push(i);
            i = i + 1;
        }
        let chosen = choose_distinct(&idx, n as usize);
        proof {
            assert forall|k: int| 0 <= k < chosen@.len() implies chosen@[k]
                < self.p@.len() by {
                let m = choose|m: int| 0 <= m < idx@.len() && idx@[m] == chosen@[k];
            }
        }
        let mut sample: Best<Passwords> = Best { p: Vec::new() };
        proof {
            assert(sample@ =~= Seq::<Cand>::empty());
        }
        let mut j: usize = 0;
        while j < chosen.len()
            invariant
                0 <= j <= chosen@.len(),
                table_wf(self@),
                forall|k: int| 0 <= k < chosen@.len() ==> #[trigger] chosen@[k] < self.p@.len(),
                chosen@.len() <= self@.len(),
                table_wf(sample@),
                sample@.len() <= j,
                sample@.len() <= self@.len(),
                forall|k: int| 0 <= k < sample@.len() ==> self@.contains(#[trigger] sample@[k]),
                j >= 1 ==> sample@.len() >= 1,
            decreases chosen@.len() - j,
        {
            let k = chosen[j];
            let ghost pre = sample@;
            proof {
                assert(self@[k as int] == self.p@[k as int].p@);
                assert(wf_cand(self@[k as int]));
                lemma_insert_wf(sample@, self@[k as int]);
            }
            sample.insert_winner(&self.p[k].p);
            proof {
                assert forall|q: int| 0 <= q < sample@.len() implies self@.contains(
                    #[trigger] sample@[q],
                ) by {
                    if sample@[q] == self@[k as int] {
                        assert(self@.contains(self@[k as int]));
                    } else {
                        assert(pre.contains(sample@[q]));
                        let m = choose|m: int| 0 <= m < pre.len() && pre[m] == sample@[q];
                        assert(self@.contains(pre[m]));
                    }
                }
            }
            j = j + 1;
        }
        Ok(sample)
    }
}

/// Entries of a push are the old entries, or the contender; at most one
/// entry is added.
pub proof fn lemma_push_entries(t: Seq<Cand>, c: Cand)
    ensures
        t.len() <= push_spec(t, c).len() <= t.len() + 1,
        forall|k: int|
            0 <= k < push_spec(t, c).len() ==> #[trigger] push_spec(t, c)[k] == c || t.contains(
                push_spec(t, c)[k],
            ),
{
    let r = push_spec(t, c);
    if has_sig(t, sig(c)) {
        let i = sig_index(t, sig(c));
        assert(0 <= i < t.len() && sig(t[i]) == sig(c));
        assert forall|k: int| 0 <= k < r.len() implies #[trigger] r[k] == c || t.contains(
            r[k],
        ) by {
            if !(keeps(t[i], c)) && k == i {
            } else {
                assert(r[k] == t[k]);
            }
        }
    } else {
        assert forall|k: int| 0 <= k < r.len() implies #[trigger] r[k] == c || t.contains(
            r[k],
        ) by {
            if k < t.len() {
                assert(r[k] == t[k]);
            }
        }
    }
}

/// Entries of a bound table are bound copies of entries of the input, and
/// there are no more of them.
pub proof fn lemma_bind_entries(s: Seq<Cand>, end: End)
    ensures
        bind_spec(s, end).len() <= s.len(),
        forall|k: int|
            0 <= k < bind_spec(s, end).len() ==> exists|m: int|
                0 <= m < s.len() && #[trigger] bind_spec(s, end)[k] == bind_cand(s[m], end),
    decreases s.len(),
{
    if s.len() > 0 {
        let d = s.drop_last();
        let r = bind_spec(s, end);
        lemma_bind_entries(d, end);
        lemma_push_entries(bind_spec(d, end), bind_cand(s.last(), end));
        assert forall|k: int| 0 <= k < r.len() implies exists|m: int|
            0 <= m < s.len() && #[trigger] r[k] == bind_cand(s[m], end) by {
            if r[k] == bind_cand(s.last(), end) {
                assert(s[s.len() - 1] == s.last());
                assert(r[k] == bind_cand(s[s.len() - 1], end));
            } else {
                assert(bind_spec(d, end).contains(r[k]));
                let q = choose|q: int|
                    0 <= q < bind_spec(d, end).len() && bind_spec(d, end)[q] == r[k];
                let m = choose|m: int|
                    0 <= m < d.len() && bind_spec(d, end)[q] == bind_cand(d[m], end);
                assert(d[m] == s[m]);
                assert(r[k] == bind_cand(s[m], end));
            }
        }
    }
}

/// Entries of a cross-product row come from the accumulator or are
/// compositions with an entry of the row operand.
pub proof fn lemma_cross_row_entries(t: Seq<Cand>, a: Cand, b: Seq<Cand>)
    ensures
        forall|k: int|
            0 <= k < cross_row(t, a, b).len() ==> t.contains(#[trigger] cross_row(t, a, b)[k])
                || exists|j: int| 0 <= j < b.len() && cross_row(t, a, b)[k] == concat_cand(a, b[j]),
    decreases b.len(),
{
    if b.len() > 0 {
        let d = b.drop_last();
        let r = cross_row(t, a, b);
        lemma_cross_row_entries(t, a, d);
        lemma_push_entries(cross_row(t, a, d), concat_cand(a, b.last()));
        assert forall|k: int| 0 <= k < r.len() implies t.contains(#[trigger] r[k]) || exists|j: int|
            0 <= j < b.len() && r[k] == concat_cand(a, b[j]) by {
            if r[k] == concat_cand(a, b.last()) {
                assert(b[b.len() - 1] == b.last());
                assert(r[k] == concat_cand(a, b[b.len() - 1]));
            } else {
                assert(cross_row(t, a, d).contains(r[k]));
                let q = choose|q: int|
                    0 <= q < cross_row(t, a, d).len() && cross_row(t, a, d)[q] == r[k];
                if t.contains(r[k]) {
                } else {
                    let j = choose|j: int|
                        0 <= j < d.len() && cross_row(t, a, d)[q] == concat_cand(a, d[j]);
                    assert(d[j] == b[j]);
                    assert(r[k] == concat_cand(a, b[j]));
                }
            }
        }
    }
}

/// Entries of the accumulated cross product come from the accumulator or
/// are compositions of a pair of entries.
pub proof fn lemma_cross_acc_entries(t: Seq<Cand>, a: Seq<Cand>, b: Seq<Cand>)
    ensures
        forall|k: int|
            0 <= k < cross_acc(t, a, b).len() ==> t.contains(#[trigger] cross_acc(t, a, b)[k])
                || exists|i: int, j: int|
                0 <= i < a.len() && 0 <= j < b.len() && cross_acc(t, a, b)[k] == concat_cand(
                    a[i],
                    b[j],
                ),
    decreases a.len(),
{
    if a.len() > 0 {
        let d = a.drop_last();
        let r = cross_acc(t, a, b);
        let inner = cross_acc(t, d, b);
        lemma_cross_acc_entries(t, d, b);
        lemma_cross_row_entries(inner, a.last(), b);
        assert forall|k: int| 0 <= k < r.len() implies t.contains(#[trigger] r[k]) || exists|i: int, j: int|
            0 <= i < a.len() && 0 <= j < b.len() && r[k] == concat_cand(a[i], b[j]) by {
            if inner.contains(r[k]) {
                let q = choose|q: int| 0 <= q < inner.len() && inner[q] == r[k];
                if t.contains(r[k]) {
                } else {
                    let (i, j) = choose|i: int, j: int|
                        0 <= i < d.len() && 0 <= j < b.len() && inner[q] == concat_cand(
                            d[i],
                            b[j],
                        );
                    assert(d[i] == a[i]);
                    assert(r[k] == concat_cand(a[i], b[j]));
                }
            } else {
                let j = choose|j: int| 0 <= j < b.len() && r[k] == concat_cand(a.last(), b[j]);
                assert(a[a.len() - 1] == a.last());
                assert(r[k] == concat_cand(a[a.len() - 1], b[j]));
            }
        }
    }
}

/// Every entry of a full cross product is the composition of one entry of
/// each operand.
pub proof fn lemma_cross_entries(a: Seq<Cand>, b: Seq<Cand>)
    ensures
        forall|k: int|
            0 <= k < cross_spec(a, b).len() ==> exists|i: int, j: int|
                0 <= i < a.len() && 0 <= j < b.len() && #[trigger] cross_spec(a, b)[k]
                    == concat_cand(a[i], b[j]),
{
    lemma_cross_acc_entries(Seq::empty(), a, b);
}

/// Every entry of the table has exactly `k` words.
pub open spec fn all_wc(s: Seq<Cand>, k: nat) -> bool {
    forall|i: int| 0 <= i < s.len() ==> (#[trigger] s[i]).words.len() == k
}

/// The combined pruning pass keeps a well-formed sub-table whose entries
/// all sit within the ceiling and the length window.
pub proof fn lemma_filter_spec_table(s: Seq<Cand>, g: Goal, max: int)
    requires
        table_wf(s),
    ensures
        table_wf(filter_spec(s, g, max)),
        filter_spec(s, g, max).len() <= s.len(),
        forall|k: int|
            0 <= k < filter_spec(s, g, max).len() ==> s.contains(#[trigger] filter_spec(s, g, max)[k])
                && filter_spec(s, g, max)[k].cost <= max && len_ok(filter_spec(s, g, max)[k], g),
{
    let fc = filter_cost_spec(s, max);
    let f = filter_spec(s, g, max);
    lemma_filter_cost_table(s, max);
    lemma_entries_wf(s, fc);
    lemma_filter_len_table(fc, g);
    lemma_entries_wf(s, f);
    assert forall|k: int| 0 <= k < f.len() implies s.contains(#[trigger] f[k]) && f[k].cost <= max
        && len_ok(f[k], g) by {
        assert(fc.contains(f[k]));
        let q = choose|q: int| 0 <= q < fc.len() && fc[q] == f[k];
        assert(fc[q].cost <= max);
        assert(s.contains(fc[q]));
    }
}

/// Pruning keeps the word counts of whatever survives.
pub proof fn lemma_filter_spec_wc(s: Seq<Cand>, g: Goal, max: int, k: nat)
    requires
        table_wf(s),
        all_wc(s, k),
    ensures
        all_wc(filter_spec(s, g, max), k),
{
    lemma_filter_spec_table(s, g, max);
    let f = filter_spec(s, g, max);
    assert forall|q: int| 0 <= q < f.len() implies (#[trigger] f[q]).words.len() == k by {
        assert(s.contains(f[q]));
        let m = choose|m: int| 0 <= m < s.len() && s[m] == f[q];
        assert(s[m].words.len() == k);
    }
}

/// Binding keeps word counts.
pub proof fn lemma_bind_wc(s: Seq<Cand>, end: End, k: nat)
    requires
        all_wc(s, k),
    ensures
        all_wc(bind_spec(s, end), k),
{
    lemma_bind_entries(s, end);
    let r = bind_spec(s, end);
    assert forall|q: int| 0 <= q < r.len() implies (#[trigger] r[q]).words.len() == k by {
        let m = choose|m: int| 0 <= m < s.len() && r[q] == bind_cand(s[m], end);
        assert(s[m].words.len() == k);
    }
}

/// Crossing tables of uniform word counts gives the summed word count.
pub proof fn lemma_cross_wc(a: Seq<Cand>, b: Seq<Cand>, ka: nat, kb: nat)
    requires
        all_wc(a, ka),
        all_wc(b, kb),
    ensures
        all_wc(cross_spec(a, b), (ka + kb) as nat),
{
    lemma_cross_entries(a, b);
    let r = cross_spec(a, b);
    assert forall|q: int| 0 <= q < r.len() implies (#[trigger] r[q]).words.len() == (ka
        + kb) as nat by {
        let (i, j) = choose|i: int, j: int|
            0 <= i < a.len() && 0 <= j < b.len() && r[q] == concat_cand(a[i], b[j]);
        assert(a[i].words.len() == ka);
        assert(b[j].words.len() == kb);
    }
}

/// The model of the middle assembly rounds: `k` times over, the accumulator
/// is crossed with the centre table and pruned.
pub open spec fn rounds_spec(acc: Seq<Cand>, center: Seq<Cand>, g: Goal, max: int, k: nat) -> Seq<
    Cand,
>
    decreases k,
{
    if k == 0 {
        acc
    } else {
        filter_spec(cross_spec(rounds_spec(acc, center, g, max, (k - 1) as nat), center), g, max)
    }
}

/// The model of the whole assembly pipeline: the left-bound table, the
/// middle rounds, the right-bound cross, each step pruned.
pub open spec fn pipeline_spec(s: Seq<Cand>, g: Goal, max: int) -> Seq<Cand> {
    let left = filter_spec(bind_spec(s, End::Left), g, max);
    if g.words_number == 1 {
        left
    } else {
        let center = filter_spec(s, g, max);
        let mid = rounds_spec(left, center, g, max, (g.words_number - 2) as nat);
        let right = filter_spec(bind_spec(s, End::Right), g, max);
        filter_spec(cross_spec(mid, right), g, max)
    }
}

/// The table the winner is drawn from, a member that costs no more than any
/// other entry.
pub proof fn lemma_first_min_member(s: Seq<Cand>, b: Cand)
    requires
        is_first_min(s, b),
    ensures
        s.contains(b),
{
    let i = choose|i: int|
        0 <= i < s.len() && #[trigger] s[i] == b && (forall|j: int|
            0 <= j < i ==> (#[trigger] s[j]).cost > b.cost);
    assert(s[i] == b);
}

impl Best<Passwords> {
    /// The branch-and-bound driver: assembles exactly `g.words_number`
    /// words, one left-bound, the middle ones unbound, one right-bound,
    /// pruning by cost and length after every step, and returns the
    /// cheapest candidate that survives.
    pub fn find_best(&self, g: &Goal, max_cost: u16) -> (r: Result<Best<Password>, Error>)
        requires
            table_wf(self@),
        ensures
            g.words_number == 0 <==> r == Result::<Best<Password>, Error>::Err(
                Error::UnsupportedGoal,
            ),
            g.words_number >= 1 ==> {
                let pl = pipeline_spec(self@, *g, max_cost as int);
                &&& (r is Err <==> pl.len() == 0)
                &&& (r is Err ==> r == Result::<Best<Password>, Error>::Err(Error::EmptyTable))
                &&& (r matches Ok(b) ==> is_first_min(pl, b@) && wf_cand(b@) && b@.cost
                    <= max_cost && len_ok(b@, *g))
            },
            g.words_number >= 1 && all_wc(self@, 1) ==> (r matches Ok(b) ==> b@.words.len()
                == g.words_number as nat && g.min_length as int <= b@.length <= g.max_length as int),
    {
        if g.words_number == 0 {
            return Err(Error::UnsupportedGoal);
        }
        let ghost wc1 = all_wc(self@, 1);
        let mut left = self.bind(&End::Left);
        left.filter(g, max_cost);
        proof {
            lemma_filter_spec_table(bind_spec(self@, End::Left), *g, max_cost as int);
            if wc1 {
                lemma_bind_wc(self@, End::Left, 1);
                lemma_filter_spec_wc(bind_spec(self@, End::Left), *g, max_cost as int, 1);
            }
        }
        if g.words_number == 1 {
            let r = left.best();
            proof {
                if r is Ok {
                    let b = r->Ok_0;
                    lemma_first_min_member(left@, b@);
                    let m = choose|m: int| 0 <= m < left@.len() && left@[m] == b@;
                }
            }
            return r;
        }
        let mut center = self.clone();
        center.filter(g, max_cost);
        proof {
            if wc1 {
                lemma_filter_spec_wc(self@, *g, max_cost as int, 1);
            }
        }
        let ghost left0 = left@;
        let ghost center0 = center@;
        let mut acc = left;
        let mut i: u8 = 2;
        while i < g.words_number
            invariant
                2 <= i <= g.words_number,
                table_wf(acc@),
                table_wf(center@),
                center@ == center0,
                acc@ == rounds_spec(left0, center0, *g, max_cost as int, (i - 2) as nat),
                forall|k: int|
                    0 <= k < acc@.len() ==> (#[trigger] acc@[k]).cost <= max_cost && acc@[k].length
                        <= g.max_length as int,
                forall|k: int|
                    0 <= k < center@.len() ==> (#[trigger] center@[k]).cost <= max_cost
                        && center@[k].length <= g.max_length as int,
                wc1 == all_wc(table_view(self.p@), 1),
                wc1 ==> all_wc(acc@, (i - 1) as nat) && all_wc(center@, 1),
            decreases g.words_number as int - i,
        {
            let ghost acc0 = acc@;
            proof {
                assert(cross_fits(acc@, center@));
            }
            let crossed = acc.cross(&center);
            acc = crossed;
            acc.filter(g, max_cost);
            proof {
                if wc1 {
                    lemma_cross_wc(acc0, center0, (i - 1) as nat, 1);
                    lemma_filter_spec_wc(
                        cross_spec(acc0, center0),
                        *g,
                        max_cost as int,
                        (i as nat),
                    );
                }
            }
            i = i + 1;
        }
        let mut right = self.bind(&End::Right);
        right.filter(g, max_cost);
        proof {
            lemma_filter_spec_table(bind_spec(self@, End::Right), *g, max_cost as int);
            if wc1 {
                lemma_bind_wc(self@, End::Right, 1);
                lemma_filter_spec_wc(bind_spec(self@, End::Right), *g, max_cost as int, 1);
            }
            assert(cross_fits(acc@, right@));
        }
        let ghost accn = acc@;
        let crossed = acc.cross(&right);
        acc = crossed;
        acc.filter(g, max_cost);
        proof {
            assert(acc@ == pipeline_spec(self@, *g, max_cost as int));
            if wc1 {
                lemma_cross_wc(accn, right@, (g.words_number - 1) as nat, 1);
                lemma_filter_spec_wc(
                    cross_spec(accn, right@),
                    *g,
                    max_cost as int,
                    g.words_number as nat,
                );
            }
        }
        let r = acc.best();
        proof {
            if r is Ok {
                let b = r->Ok_0;
                lemma_first_min_member(acc@, b@);
                let m = choose|m: int| 0 <= m < acc@.len() && acc@[m] == b@;
            }
        }
        r
    }
}

} // verus!
