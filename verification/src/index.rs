//! A list of words with a hash index, to find the position of a word.
use std::collections::HashMap;
use vstd::prelude::*;

verus! {

/// The modulus of `word_hash`; it keeps `h * 31 + c` below `u64::MAX`.
pub const HASH_MOD: u64 = 0x0200_0000_0000_0000;

/// A hash of a character sequence, taken by characters from the first on.
pub open spec fn word_hash(s: Seq<char>) -> u64
    decreases s.len(),
{
    if s.len() == 0 {
        0
    } else {
        ((word_hash(s.drop_last()) as int * 31 + (s.last() as u32) as int) % (HASH_MOD as int)) as u64
    }
}

/// The hash of `s`.
pub fn hash_chars(s: &[char]) -> (h: u64)
    ensures
        h == word_hash(s@),
        h < HASH_MOD,
{
    let mut h: u64 = 0;
    for i in 0..s.len()
        invariant
            h == word_hash(s@.take(i as int)),
            h < HASH_MOD,
    {
        assert(s@.take(i + 1).drop_last() == s@.take(i as int));
        let c = s[i] as u32;
        h = (h * 31 + c as u64) % HASH_MOD;
    }
    assert(s@.take(s.len() as int) == s@);
    h
}

/// The last position of `w` in `s`, if `w` occurs in `s`.
pub open spec fn last_index(s: Seq<Seq<char>>, w: Seq<char>) -> Option<int>
    decreases s.len(),
{
    if s.len() == 0 {
        None
    } else if s.last() == w {
        Some(s.len() - 1)
    } else {
        last_index(s.drop_last(), w)
    }
}

/// `last_index` gives the last position of `w`, or `None` when `w` does
/// not occur.
pub proof fn lemma_last_index(s: Seq<Seq<char>>, w: Seq<char>)
    ensures
        match last_index(s, w) {
            Some(i) => 0 <= i < s.len() && s[i] == w && forall|j: int|
                i < j < s.len() ==> s[j] != w,
            None => forall|j: int| 0 <= j < s.len() ==> s[j] != w,
        },
    decreases s.len(),
{
    if s.len() > 0 {
        lemma_last_index(s.drop_last(), w);
        if s.last() != w {
            match last_index(s.drop_last(), w) {
                Some(i) => {
                    assert forall|j: int| i < j < s.len() implies s[j] != w by {
                        if j < s.len() - 1 {
                            assert(s.drop_last()[j] == s[j]);
                        }
                    }
                },
                None => {
                    assert forall|j: int| 0 <= j < s.len() implies s[j] != w by {
                        if j < s.len() - 1 {
                            assert(s.drop_last()[j] == s[j]);
                        }
                    }
                },
            }
        }
    }
}

/// The position `i` is the last place of `w` in `s`.
pub proof fn lemma_last_index_is(s: Seq<Seq<char>>, w: Seq<char>, i: int)
    requires
        0 <= i < s.len(),
        s[i] == w,
        forall|j: int| i < j < s.len() ==> s[j] != w,
    ensures
        last_index(s, w) == Some(i),
{
    lemma_last_index(s, w);
    match last_index(s, w) {
        Some(k) => {
            if k < i {
            } else if k > i {
            }
        },
        None => {},
    }
}

/// `w` does not occur in `s`.
pub proof fn lemma_last_index_none(s: Seq<Seq<char>>, w: Seq<char>)
    requires
        forall|j: int| 0 <= j < s.len() ==> s[j] != w,
    ensures
        last_index(s, w) is None,
{
    lemma_last_index(s, w);
}

/// A growing list of words, with an index from the hash of a word to the
/// positions that hold a word of that hash.
pub struct WordIndex {
    words: Vec<Vec<char>>,
    buckets: HashMap<u64, Vec<usize>>,
}

impl WordIndex {
    /// The words, in order.
    pub closed spec fn items(&self) -> Seq<Seq<char>> {
        self.words@.map_values(|w: Vec<char>| w@)
    }

    /// The index lists, for each word, its position under its hash, and
    /// only such positions, in increasing order.
    #[verifier::type_invariant]
    closed spec fn wf(&self) -> bool {
        &&& forall|i: int|
            0 <= i < self.words@.len() ==> {
                let k = word_hash(#[trigger] self.words@[i]@);
                &&& self.buckets@.contains_key(k)
                &&& self.buckets@[k]@.contains(i as usize)
            }
        &&& forall|k: u64|
            #[trigger] self.buckets@.contains_key(k) ==> {
                let b = self.buckets@[k]@;
                &&& forall|j: int|
                    0 <= j < b.len() ==> #[trigger] b[j] < self.words@.len() && word_hash(
                        self.words@[b[j] as int]@,
                    ) == k
                &&& forall|j1: int, j2: int| 0 <= j1 < j2 < b.len() ==> b[j1] < b[j2]
            }
    }

    /// An empty list.
    pub fn new() -> (out: Self)
        ensures
            out.items() == Seq::<Seq<char>>::empty(),
    {
        let out = WordIndex { words: Vec::new(), buckets: HashMap::new() };
        assert(out.items() =~= Seq::<Seq<char>>::empty());
        out
    }

    /// The number of words.
    pub fn len(&self) -> (n: usize)
        ensures
            n == self.items().len(),
    {
        self.words.len()
    }

    /// The word at position `i`.
    pub fn get(&self, i: usize) -> (w: &Vec<char>)
        requires
            i < self.items().len(),
        ensures
            w@ == self.items()[i as int],
    {
        &self.words[i]
    }

    /// Appends `w` at the end of the list.
    pub fn push(&mut self, w: Vec<char>)
        ensures
            final(self).items() == old(self).items().push(w@),
    {
        proof {
            use_type_invariant(&*self);
        }
        let mut taken = WordIndex::new();
        std::mem::swap(&mut taken, self);
        let WordIndex { mut words, mut buckets } = taken;
        assert(words@.map_values(|v: Vec<char>| v@) == old(self).items());
        let ghost old_words = words@;
        let ghost old_buckets = buckets@;
        let k = hash_chars(&w);
        let n = words.len();
        let bucket = match buckets.remove(&k) {
            Some(mut b) => {
                b.push(n);
                b
            },
            None => {
                let mut b: Vec<usize> = Vec::new();
                b.push(n);
                b
            },
        };
        buckets.insert(k, bucket);
        words.push(w);
        assert(words@.map_values(|v: Vec<char>| v@) =~= old(self).items().push(w@));
        assert forall|i: int| 0 <= i < words@.len() implies {
            let k2 = word_hash(#[trigger] words@[i]@);
            &&& buckets@.contains_key(k2)
            &&& buckets@[k2]@.contains(i as usize)
        } by {
            if i < n {
                assert(words@[i] == old_words[i]);
                let k2 = word_hash(old_words[i]@);
                if k2 == k {
                    let j = choose|j: int| 0 <= j < old_buckets[k]@.len() && old_buckets[k]@[j] == i as usize;
                    assert(buckets@[k]@[j] == i as usize);
                }
            } else {
                assert(buckets@[k]@.last() == n);
            }
        }
        assert forall|k2: u64| #[trigger] buckets@.contains_key(k2) implies {
            let b = buckets@[k2]@;
            &&& forall|j: int|
                0 <= j < b.len() ==> #[trigger] b[j] < words@.len() && word_hash(
                    words@[b[j] as int]@,
                ) == k2
            &&& forall|j1: int, j2: int| 0 <= j1 < j2 < b.len() ==> b[j1] < b[j2]
        } by {
            let b = buckets@[k2]@;
            if k2 != k {
                assert(old_buckets.contains_key(k2));
                assert(b == old_buckets[k2]@);
                assert forall|j: int| 0 <= j < b.len() implies #[trigger] b[j] < words@.len()
                    && word_hash(words@[b[j] as int]@) == k2 by {
                    assert(old_buckets[k2]@[j] < n);
                    assert(words@[b[j] as int] == old_words[b[j] as int]);
                }
            } else {
                assert forall|j: int| 0 <= j < b.len() implies #[trigger] b[j] < words@.len()
                    && word_hash(words@[b[j] as int]@) == k2 by {
                    if j < b.len() - 1 {
                        assert(old_buckets[k]@[j] == b[j]);
                        assert(words@[b[j] as int] == old_words[b[j] as int]);
                    }
                }
                assert forall|j1: int, j2: int| 0 <= j1 < j2 < b.len() implies b[j1] < b[j2] by {
                    if j2 < b.len() - 1 {
                        assert(old_buckets[k]@[j1] == b[j1]);
                        assert(old_buckets[k]@[j2] == b[j2]);
                    } else {
                        assert(old_buckets[k]@[j1] == b[j1]);
                        assert(old_buckets[k]@[j1] < n);
                    }
                }
            }
        }
        let out = WordIndex { words, buckets };
        *self = out;
    }

    /// The last position that holds `w`, if any does.
    pub fn find_last(&self, w: &[char]) -> (r: Option<usize>)
        ensures
            r matches Some(i) ==> last_index(self.items(), w@) == Some(i as int),
            r is None ==> last_index(self.items(), w@) is None,
    {
        proof {
            use_type_invariant(self);
        }
        let k = hash_chars(w);
        match self.buckets.get(&k) {
            None => {
                assert forall|j: int| 0 <= j < self.items().len() implies self.items()[j]
                    != w@ by {
                    let _ = self.words@[j];
                }
                proof {
                    lemma_last_index_none(self.items(), w@);
                }
                None
            },
            Some(b) => {
                let mut p = b.len();
                while p > 0
                    invariant
                        self.wf(),
                        self.buckets@.contains_key(k),
                        b@ == self.buckets@[k]@,
                        k == word_hash(w@),
                        p <= b.len(),
                        forall|j: int| p <= j < b@.len() ==> self.items()[b@[j] as int] != w@,
                    decreases p,
                {
                    let i = b[p - 1];
                    assert(i < self.words@.len());
                    assert(self.items()[i as int] == self.words@[i as int]@);
                    if crate::text::chars_eq(self.words[i].as_slice(), w) {
                        proof {
                            assert forall|j: int| i < j < self.items().len() implies self.items()[j]
                                != w@ by {
                                assert(self.items().len() == self.words@.len());
                                assert(self.words@.len() == self.words.len());
                                if self.items()[j] == w@ {
                                    assert(self.items()[j] == self.words@[j]@);
                                    assert(self.buckets@[k]@.contains(j as usize));
                                    let q = choose|q: int|
                                        0 <= q < b@.len() && b@[q] == j as usize;
                                    if q < p - 1 {
                                        assert(b@[q] < b@[p - 1]);
                                    } else if q == p - 1 {
                                    } else {
                                        assert(self.items()[b@[q] as int] != w@);
                                    }
                                }
                            }
                            lemma_last_index_is(self.items(), w@, i as int);
                        }
                        return Some(i);
                    }
                    p -= 1;
                }
                proof {
                    assert forall|j: int| 0 <= j < self.items().len() implies self.items()[j]
                        != w@ by {
                        assert(self.items().len() == self.words@.len());
                        assert(self.words@.len() == self.words.len());
                        if self.items()[j] == w@ {
                            assert(self.items()[j] == self.words@[j]@);
                            assert(self.buckets@[k]@.contains(j as usize));
                            let q = choose|q: int| 0 <= q < b@.len() && b@[q] == j as usize;
                            assert(self.items()[b@[q] as int] != w@);
                        }
                    }
                    lemma_last_index_none(self.items(), w@);
                }
                None
            },
        }
    }
}

} // verus!
