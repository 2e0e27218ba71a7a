//! The type/metadata model: the equivalence signature of a word (first key,
//! last key, length), its movement cost, and boundary binding.

use vstd::prelude::*;

use crate::key::{dist_spec, distance, is_keyable, key_of, to_key, Distance};

verus! {

/// A word (or password) start or end.
#[derive(Copy, Clone, Debug)]
pub enum End {
    Left,
    Right,
}

/// A boundary key slot of a signature: either a concrete key, or
/// unconstrained because that boundary will never face a neighbour.
#[derive(Copy, Clone, Debug, PartialEq, Eq, Hash, Structural)]
pub enum Bound {
    Any,
    At(char),
}

/// The equivalence signature of a candidate string: first key, last key and
/// character count. Candidates with equal signatures behave the same in all
/// future compositions.
#[derive(Copy, Clone, Debug, PartialEq, Eq, Hash, Structural)]
pub struct Type {
    pub first_key: Bound,
    pub last_key: Bound,
    pub length: u64,
}

/// Signature plus movement cost, derived entirely from a string.
#[derive(Copy, Clone, Debug, PartialEq, Eq, Structural)]
pub struct Metadata {
    pub t: Type,
    pub cost: u64,
}

/// What can go wrong inside the search core.
#[derive(Copy, Clone, Debug, PartialEq, Eq, Structural)]
pub enum Error {
    /// A signature or metadata was asked of an empty string.
    EmptyInput,
    /// The best entry, or a random sample, was asked of an empty table.
    EmptyTable,
    /// The driver cannot assemble the requested number of words.
    UnsupportedGoal,
}

/// Every character of the sequence can be typed.
pub open spec fn keyable_seq(s: Seq<char>) -> bool {
    forall|i: int| 0 <= i < s.len() ==> is_keyable(#[trigger] s[i])
}

/// The total movement cost of a string: the sum of the key distances over
/// every adjacent character pair, zero for strings shorter than two.
pub open spec fn word_cost(s: Seq<char>) -> int
    decreases s.len(),
{
    if s.len() <= 1 {
        0
    } else {
        word_cost(s.drop_last()) + dist_spec(
            key_of(s[s.len() - 2]),
            key_of(s[s.len() - 1]),
        )
    }
}

/// Movement cost is never negative.
pub proof fn lemma_word_cost_nonneg(s: Seq<char>)
    ensures
        word_cost(s) >= 0,
    decreases s.len(),
{
    if s.len() > 1 {
        lemma_word_cost_nonneg(s.drop_last());
    }
}

/// Movement cost of a typeable string is at most `12` per adjacent pair.
pub proof fn lemma_word_cost_bound(s: Seq<char>)
    requires
        keyable_seq(s),
        s.len() >= 1,
    ensures
        word_cost(s) <= 12 * (s.len() - 1),
    decreases s.len(),
{
    if s.len() > 1 {
        assert(keyable_seq(s.drop_last()));
        lemma_word_cost_bound(s.drop_last());
        crate::key::lemma_dist_bounds(key_of(s[s.len() - 2]), key_of(s[s.len() - 1]));
    }
}

/// The movement cost of a concatenation is the cost of each part plus the
/// distance across the junction: the cost fold is linear.
pub proof fn lemma_word_cost_concat(s: Seq<char>, t: Seq<char>)
    requires
        s.len() >= 1,
        t.len() >= 1,
    ensures
        word_cost(s + t) == word_cost(s) + word_cost(t) + dist_spec(
            key_of(s.last()),
            key_of(t.first()),
        ),
    decreases t.len(),
{
    let u = s + t;
    if t.len() == 1 {
        assert(u.drop_last() =~= s);
        assert(u[u.len() - 2] == s.last());
        assert(u[u.len() - 1] == t.first());
    } else {
        let t1 = t.drop_last();
        lemma_word_cost_concat(s, t1);
        assert(u.drop_last() =~= s + t1);
        assert(u[u.len() - 2] == t[t.len() - 2]);
        assert(u[u.len() - 1] == t.last());
        assert(t1.last() == t[t.len() - 2]);
        assert(t1.first() == t.first());
    }
}

impl Metadata {
    /// Marks the metadata's boundary on the given side as unconstrained.
    pub fn bind(&mut self, end: &End)
        ensures
            final(self).cost == old(self).cost,
            final(self).t.length == old(self).t.length,
            match end {
                End::Left => final(self).t == (Type { first_key: Bound::Any, ..old(self).t }),
                End::Right => final(self).t == (Type { last_key: Bound::Any, ..old(self).t }),
            },
    {
        match end {
            End::Left => self.t.first_key = Bound::Any,
            End::Right => self.t.last_key = Bound::Any,
        }
    }

    /// Returns whether the metadata's boundary on the given side is
    /// unconstrained.
    pub fn is_binded(&self, end: &End) -> (r: bool)
        ensures
            r == match end {
                End::Left => self.t.first_key is Any,
                End::Right => self.t.last_key is Any,
            },
    {
        match end {
            End::Left => self.t.first_key == Bound::Any,
            End::Right => self.t.last_key == Bound::Any,
        }
    }
}

/// Calculates a word's movement cost: the fold of the key distance over all
/// adjacent character pairs.
pub fn cost(word: &str) -> (c: Distance)
    requires
        word@.len() >= 1,
        word@.len() <= 0xFFFF_FFFF,
        keyable_seq(word@),
    ensures
        c as int == word_cost(word@),
        c as int <= 12 * (word@.len() - 1),
{
    proof {
        lemma_word_cost_bound(word@);
    }
    let n = word.unicode_len();
    let mut acc: u64 = 0;
    let mut last_k = to_key(word.get_char(0));
    let mut i: usize = 1;
    while i < n
        invariant
            1 <= i <= n,
            n == word@.len(),
            n <= 0xFFFF_FFFF,
            keyable_seq(word@),
            acc as int == word_cost(word@.take(i as int)),
            acc as int <= 12 * (i - 1),
            last_k == key_of(word@[i - 1]),
        decreases n - i,
    {
        let k = to_key(word.get_char(i));
        proof {
            assert(is_keyable(word@[i - 1]));
            assert(is_keyable(word@[i as int]));
            assert(word@.take(i + 1).drop_last() =~= word@.take(i as int));
            assert(word@.take(i + 1)[i - 1] == word@[i - 1]);
            assert(word@.take(i + 1)[i as int] == word@[i as int]);
        }
        acc = acc + distance(last_k, k);
        last_k = k;
        i = i + 1;
    }
    proof {
        assert(word@.take(n as int) =~= word@);
    }
    acc
}

impl Type {
    /// Derives a word's signature: first key, last key, character count.
    /// An empty word has no signature.
    pub fn from_word(word: &str) -> (r: Result<Type, Error>)
        ensures
            word@.len() == 0 <==> r is Err,
            r is Err ==> r == Result::<Type, Error>::Err(Error::EmptyInput),
            r is Ok ==> r->Ok_0 == (Type {
                first_key: Bound::At(key_of(word@.first())),
                last_key: Bound::At(key_of(word@.last())),
                length: word@.len() as u64,
            }),
    {
        let n = word.unicode_len();
        if n == 0 {
            Err(Error::EmptyInput)
        } else {
            Ok(
                Type {
                    first_key: Bound::At(to_key(word.get_char(0))),
                    last_key: Bound::At(to_key(word.get_char(n - 1))),
                    length: n as u64,
                },
            )
        }
    }
}

impl Metadata {
    /// Derives a word's metadata: its signature plus its movement cost.
    /// An empty word has no metadata.
    pub fn from_word(word: &str) -> (r: Result<Metadata, Error>)
        requires
            word@.len() <= 0xFFFF_FFFF,
            keyable_seq(word@),
        ensures
            word@.len() == 0 <==> r is Err,
            r is Err ==> r == Result::<Metadata, Error>::Err(Error::EmptyInput),
            r is Ok ==> r->Ok_0 == (Metadata {
                t: Type {
                    first_key: Bound::At(key_of(word@.first())),
                    last_key: Bound::At(key_of(word@.last())),
                    length: word@.len() as u64,
                },
                cost: (word_cost(word@) as u64),
            }),
    {
        match Type::from_word(word) {
            Err(e) => Err(e),
            Ok(t) => {
                proof {
                    lemma_word_cost_nonneg(word@);
                }
                Ok(Metadata { t, cost: cost(word) })
            },
        }
    }
}

} // verus!
