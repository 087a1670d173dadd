//! The word-level tokenizer: a vocabulary of special tokens, single
//! characters and frequent words, with the text-to-ids and ids-to-text
//! maps over it.
use crate::index::{last_index, lemma_last_index, WordIndex};
use crate::order::{
    lemma_insert_sorted, lemma_sorted_distinct, lemma_sorted_unique, sorted_by, strict_total,
};
use crate::text::{
    chars_of, copy_range, is_space, is_ws, join, lines, push_chars, split_lines, split_words, words,
};
use vstd::prelude::*;

verus! {

/// The id given to a character that is not in the vocabulary.
pub const UNK_ID: u32 = 1;

/// The padding token, at id 0.
pub open spec fn pad_token() -> Seq<char> {
    seq!['<', 'P', 'A', 'D', '>']
}

/// The unknown token, at id 1.
pub open spec fn unk_token() -> Seq<char> {
    seq!['<', 'U', 'N', 'K', '>']
}

/// The ids of a word: its own id if the vocabulary holds it, else the id of
/// each of its characters, or `UNK_ID` for a character it lacks.
pub open spec fn encode_word(itos: Seq<Seq<char>>, w: Seq<char>) -> Seq<u32> {
    match last_index(itos, w) {
        Some(i) => seq![i as u32],
        None => Seq::new(w.len(), |k: int| char_id(itos, w[k])),
    }
}

/// The id of the one-character token `c`, or `UNK_ID` when the vocabulary
/// lacks it.
pub open spec fn char_id(itos: Seq<Seq<char>>, c: char) -> u32 {
    match last_index(itos, seq![c]) {
        Some(j) => j as u32,
        None => UNK_ID,
    }
}

/// The ids of the words `ws`, one word after the other.
pub open spec fn encode_words(itos: Seq<Seq<char>>, ws: Seq<Seq<char>>) -> Seq<u32>
    decreases ws.len(),
{
    if ws.len() == 0 {
        Seq::empty()
    } else {
        encode_words(itos, ws.drop_last()) + encode_word(itos, ws.last())
    }
}

/// The ids of the text `t` under the vocabulary `itos`.
pub open spec fn encode_text(itos: Seq<Seq<char>>, t: Seq<char>) -> Seq<u32> {
    encode_words(itos, words(t))
}

/// An id below the boundary, other than the two special ones, stands for a
/// single character.
pub open spec fn is_char_id(boundary: u32, id: u32) -> bool {
    1 < id && id < boundary
}

/// The text of `ids`: the tokens in order, with one space between two of
/// them, except between two character ids, which are glued together.
pub open spec fn decode_ids(itos: Seq<Seq<char>>, boundary: u32, ids: Seq<u32>) -> Seq<char>
    decreases ids.len(),
{
    if ids.len() == 0 {
        Seq::empty()
    } else {
        let piece = itos[ids.last() as int];
        if ids.len() == 1 {
            piece
        } else if is_char_id(boundary, ids.last()) && is_char_id(boundary, ids[ids.len() - 2]) {
            decode_ids(itos, boundary, ids.drop_last()) + piece
        } else {
            decode_ids(itos, boundary, ids.drop_last()) + seq![' '] + piece
        }
    }
}

/// The first position at or after `i` that does not hold a one-character
/// token.
pub open spec fn single_run(itos: Seq<Seq<char>>, i: int) -> int
    decreases itos.len() - i,
{
    if 0 <= i < itos.len() && itos[i].len() == 1 {
        single_run(itos, i + 1)
    } else {
        i
    }
}

/// The character boundary of a vocabulary read back from its lines: the
/// end of the run of one-character tokens that begins at id 2.
pub open spec fn loaded_boundary(itos: Seq<Seq<char>>) -> int {
    single_run(itos, 2)
}

/// The text of a vocabulary: one token per line.
pub open spec fn vocab_lines(itos: Seq<Seq<char>>) -> Seq<char> {
    join(itos, seq!['\n'])
}

// ---------------------------------------------------------------------
// The vocabulary learnt from a text
// ---------------------------------------------------------------------
/// Characters in increasing order of code point.
pub open spec fn char_lt() -> spec_fn(char, char) -> bool {
    |a: char, b: char| (a as int) < (b as int)
}

/// `cs` holds each character of `t` that is not whitespace, once, in
/// increasing order.
pub open spec fn is_char_set(cs: Seq<char>, t: Seq<char>) -> bool {
    &&& sorted_by(cs, char_lt())
    &&& forall|c: char| #[trigger] cs.contains(c) <==> (t.contains(c) && !is_ws(c))
}

/// The characters of `t` that are not whitespace, once each, in increasing
/// order.
pub open spec fn char_set(t: Seq<char>) -> Seq<char> {
    choose|cs: Seq<char>| is_char_set(cs, t)
}

/// How many times `w` occurs in `ws`.
pub open spec fn count_of(ws: Seq<Seq<char>>, w: Seq<char>) -> nat
    decreases ws.len(),
{
    if ws.len() == 0 {
        0
    } else {
        count_of(ws.drop_last(), w) + if ws.last() == w {
            1nat
        } else {
            0nat
        }
    }
}

/// The words of `ws`, each once, in the order of their first occurrence.
pub open spec fn distinct_words(ws: Seq<Seq<char>>) -> Seq<Seq<char>>
    decreases ws.len(),
{
    if ws.len() == 0 {
        Seq::empty()
    } else {
        let d = distinct_words(ws.drop_last());
        if d.contains(ws.last()) {
            d
        } else {
            d.push(ws.last())
        }
    }
}

/// How many times each of `distinct_words(ws)` occurs in `ws`.
pub open spec fn word_counts(ws: Seq<Seq<char>>) -> Seq<nat> {
    distinct_words(ws).map_values(|w: Seq<char>| count_of(ws, w))
}

/// Positions ordered by decreasing count; equal counts by position.
pub open spec fn freq_lt(c: Seq<nat>) -> spec_fn(usize, usize) -> bool {
    |i: usize, j: usize| c[i as int] > c[j as int] || (c[i as int] == c[j as int] && i < j)
}

/// `p` lists the positions `0 .. c.len()`, each once, ordered by
/// `freq_lt(c)`.
pub open spec fn is_freq_order(p: Seq<usize>, c: Seq<nat>) -> bool {
    &&& sorted_by(p, freq_lt(c))
    &&& forall|x: usize| p.contains(x) <==> (x as int) < c.len()
}

/// The positions in `distinct_words(ws)`, most frequent word first; words
/// of equal frequency in the order of their first occurrence.
pub open spec fn freq_order(ws: Seq<Seq<char>>) -> Seq<usize> {
    choose|p: Seq<usize>| is_freq_order(p, word_counts(ws))
}

/// The distinct words of `ws`, most frequent first; words of equal
/// frequency in the order of their first occurrence.
pub open spec fn words_by_freq(ws: Seq<Seq<char>>) -> Seq<Seq<char>> {
    freq_order(ws).map_values(|i: usize| distinct_words(ws)[i as int])
}

/// The two special tokens, then each character of `t` as a token.
pub open spec fn base_vocab(t: Seq<char>) -> Seq<Seq<char>> {
    seq![pad_token(), unk_token()] + char_set(t).map_values(|c: char| seq![c])
}

/// The words of `ws` that `base` does not hold, in order.
pub open spec fn missing_from(base: Seq<Seq<char>>, ws: Seq<Seq<char>>) -> Seq<Seq<char>>
    decreases ws.len(),
{
    if ws.len() == 0 {
        Seq::empty()
    } else {
        let r = missing_from(base, ws.drop_last());
        if base.contains(ws.last()) {
            r
        } else {
            r.push(ws.last())
        }
    }
}

/// The vocabulary learnt from `t` with room for `vocab_size` tokens: the
/// base vocabulary, then the words of `t` that it lacks, most frequent
/// first, as long as the vocabulary has fewer than `vocab_size` tokens.
pub open spec fn trained_vocab(t: Seq<char>, vocab_size: int) -> Seq<Seq<char>> {
    let base = base_vocab(t);
    let cand = missing_from(base, words_by_freq(words(t)));
    let room = if vocab_size > base.len() {
        vocab_size - base.len()
    } else {
        0
    };
    base + cand.take(
        if cand.len() < room {
            cand.len() as int
        } else {
            room
        },
    )
}

/// Code points order characters strictly and totally.
pub proof fn lemma_char_lt_total()
    ensures
        strict_total(char_lt()),
{
    assert forall|x: char, y: char| x != y implies #[trigger] char_lt()(x, y) || char_lt()(y, x) by {
        assert((x as int) != (y as int));
    }
}

/// `freq_lt` orders positions strictly and totally.
proof fn lemma_freq_lt_total(c: Seq<nat>)
    ensures
        strict_total(freq_lt(c)),
{
}

/// There is one character set of a text, and `cs` is it.
proof fn lemma_char_set_is(cs: Seq<char>, t: Seq<char>)
    requires
        is_char_set(cs, t),
    ensures
        char_set(t) == cs,
{
    lemma_char_lt_total();
    let other = char_set(t);
    assert(is_char_set(other, t));
    assert forall|x: char| #[trigger] cs.contains(x) <==> other.contains(x) by {
        assert(cs.contains(x) <==> (t.contains(x) && !is_ws(x)));
        assert(other.contains(x) <==> (t.contains(x) && !is_ws(x)));
    }
    lemma_sorted_unique(cs, other, char_lt());
}

/// There is one frequency order of the words `ws`, and `p` is it.
pub proof fn lemma_freq_order_is(p: Seq<usize>, ws: Seq<Seq<char>>)
    requires
        is_freq_order(p, word_counts(ws)),
    ensures
        freq_order(ws) == p,
{
    let c = word_counts(ws);
    lemma_freq_lt_total(c);
    let other = freq_order(ws);
    assert(is_freq_order(other, c));
    assert forall|x: usize| p.contains(x) <==> other.contains(x) by {
        assert(p.contains(x) <==> (x as int) < c.len());
        assert(other.contains(x) <==> (x as int) < c.len());
    }
    lemma_sorted_unique(p, other, freq_lt(c));
}

/// Each word occurs once in `distinct_words(ws)`, and exactly the words of
/// `ws` occur there.
pub proof fn lemma_distinct_words(ws: Seq<Seq<char>>)
    ensures
        forall|i: int, j: int|
            0 <= i < distinct_words(ws).len() && 0 <= j < distinct_words(ws).len() && i != j
                ==> distinct_words(ws)[i] != distinct_words(ws)[j],
        forall|w: Seq<char>| #[trigger] distinct_words(ws).contains(w) <==> ws.contains(w),
    decreases ws.len(),
{
    if ws.len() > 0 {
        lemma_distinct_words(ws.drop_last());
        let d = distinct_words(ws.drop_last());
        let last = ws.last();
        assert(distinct_words(ws) == if d.contains(last) {
            d
        } else {
            d.push(last)
        });
        assert forall|w: Seq<char>| #[trigger] distinct_words(ws).contains(w) <==> ws.contains(w) by {
            assert(ws.drop_last().contains(w) <==> d.contains(w));
            if ws.contains(w) {
                let k = choose|k: int| 0 <= k < ws.len() && ws[k] == w;
                if k < ws.len() - 1 {
                    assert(ws.drop_last()[k] == w);
                    assert(ws.drop_last().contains(w));
                    assert(d.contains(w));
                    if !d.contains(last) {
                        let m = choose|m: int| 0 <= m < d.len() && d[m] == w;
                        assert(d.push(last)[m] == w);
                    }
                } else {
                    assert(w == last);
                    if !d.contains(last) {
                        assert(d.push(last)[d.len() as int] == w);
                    }
                }
                assert(distinct_words(ws).contains(w));
            }
            if distinct_words(ws).contains(w) {
                if d.contains(w) {
                    assert(ws.drop_last().contains(w));
                    let k = choose|k: int| 0 <= k < ws.drop_last().len() && ws.drop_last()[k] == w;
                    assert(ws[k] == w);
                } else {
                    let k = choose|k: int| 0 <= k < d.push(last).len() && d.push(last)[k] == w;
                    if k < d.len() {
                        assert(d[k] == w);
                    }
                    assert(w == last);
                    assert(ws[ws.len() - 1] == w);
                }
                assert(ws.contains(w));
            }
        }
        if !d.contains(last) {
            assert forall|i: int, j: int|
                0 <= i < distinct_words(ws).len() && 0 <= j < distinct_words(ws).len() && i != j
                    implies distinct_words(ws)[i] != distinct_words(ws)[j] by {
                if i == d.len() {
                    assert(d.contains(d[j]));
                } else if j == d.len() {
                    assert(d.contains(d[i]));
                }
            }
        }
    }
}

/// What `missing_from` keeps comes from `ws` and is not in `base`.
pub proof fn lemma_missing_from_contains(base: Seq<Seq<char>>, ws: Seq<Seq<char>>, w: Seq<char>)
    requires
        missing_from(base, ws).contains(w),
    ensures
        ws.contains(w),
        !base.contains(w),
    decreases ws.len(),
{
    if ws.len() > 0 {
        let r = missing_from(base, ws.drop_last());
        if r.contains(w) {
            lemma_missing_from_contains(base, ws.drop_last(), w);
            let k = choose|k: int| 0 <= k < ws.drop_last().len() && ws.drop_last()[k] == w;
            assert(ws[k] == w);
        } else {
            assert(w == ws.last());
            assert(ws[ws.len() - 1] == w);
        }
    }
}

/// What `missing_from` keeps of a prefix of `ws` is a prefix of what it
/// keeps of `ws`.
proof fn lemma_missing_from_prefix(base: Seq<Seq<char>>, ws: Seq<Seq<char>>, q: int)
    requires
        0 <= q <= ws.len(),
    ensures
        missing_from(base, ws.take(q)).len() <= missing_from(base, ws).len(),
        missing_from(base, ws).take(missing_from(base, ws.take(q)).len() as int) == missing_from(
            base,
            ws.take(q),
        ),
    decreases ws.len() - q,
{
    if q == ws.len() {
        assert(ws.take(q) == ws);
    } else {
        let ws1 = ws.drop_last();
        assert(ws1.take(q) == ws.take(q));
        lemma_missing_from_prefix(base, ws1, q);
        let a = missing_from(base, ws.take(q));
        let r = missing_from(base, ws1);
        if !base.contains(ws.last()) {
            assert(r.push(ws.last()).take(a.len() as int) == r.take(a.len() as int));
        }
    }
}

/// The sorted, distinct, non-whitespace characters of `t`.
fn sorted_chars(t: &[char]) -> (cs: Vec<char>)
    ensures
        is_char_set(cs@, t@),
        cs@.len() <= t@.len(),
{
    let mut cs: Vec<char> = Vec::new();
    for i in 0..t.len()
        invariant
            sorted_by(cs@, char_lt()),
            forall|c: char| #[trigger] cs@.contains(c) <==> (t@.take(i as int).contains(c) && !is_ws(c)),
            cs@.len() <= i,
    {
        let c = t[i];
        let ghost old_cs = cs@;
        assert forall|x: char| t@.take(i + 1).contains(x) <==> (t@.take(i as int).contains(x) || x
            == c) by {
            if t@.take(i + 1).contains(x) {
                let k = choose|k: int| 0 <= k < i + 1 && #[trigger] t@.take(i + 1)[k] == x;
                if k < i {
                    assert(t@.take(i as int)[k] == x);
                }
            }
            if t@.take(i as int).contains(x) {
                let k = choose|k: int| 0 <= k < i && #[trigger] t@.take(i as int)[k] == x;
                assert(t@.take(i + 1)[k] == x);
            }
            if x == c {
                assert(t@.take(i + 1)[i as int] == x);
            }
        }
        let is_sp = is_space(c);
        if !is_sp {
            let mut q: usize = 0;
            let mut hi: usize = cs.len();
            while q < hi
                invariant
                    cs@ == old_cs,
                    sorted_by(cs@, char_lt()),
                    q <= hi <= cs@.len(),
                    forall|r: int| 0 <= r < q ==> (cs@[r] as int) < (c as int),
                    forall|r: int| hi <= r < cs@.len() ==> (c as int) <= (cs@[r] as int),
                decreases hi - q,
            {
                let mid = q + (hi - q) / 2;
                if cs[mid] < c {
                    assert forall|r: int| 0 <= r <= mid implies (cs@[r] as int) < (c as int) by {
                        if r < mid {
                            assert(char_lt()(cs@[r], cs@[mid as int]));
                        }
                    }
                    q = mid + 1;
                } else {
                    assert forall|r: int| mid <= r < cs@.len() implies (c as int) <= (
                    cs@[r] as int) by {
                        if r > mid {
                            assert(char_lt()(cs@[mid as int], cs@[r]));
                        }
                    }
                    hi = mid;
                }
            }
            if q < cs.len() && cs[q] == c {
                assert(cs@.contains(c));
            } else {
                proof {
                    lemma_char_lt_total();
                    assert forall|r: int| q <= r < old_cs.len() implies char_lt()(
                        c,
                        #[trigger] old_cs[r],
                    ) by {
                        if r > q {
                            assert(char_lt()(old_cs[q as int], old_cs[r]));
                        }
                    }
                    assert forall|r: int| 0 <= r < q implies char_lt()(#[trigger] old_cs[r], c) by {}
                    lemma_insert_sorted(old_cs, c, char_lt(), q as int);
                }
                cs.insert(q, c);
            }
        }
        assert forall|x: char| #[trigger] cs@.contains(x) <==> (t@.take(i + 1).contains(x) && !is_ws(x)) by {
            assert(cs@.contains(x) <==> (old_cs.contains(x) || (x == c && !is_ws(c))));
            assert(old_cs.contains(x) <==> (t@.take(i as int).contains(x) && !is_ws(x)));
        }
    }
    assert(t@.take(t.len() as int) == t@);
    cs
}

/// The distinct words of `ws` in the order of their first occurrence, and
/// how many times each occurs.
fn count_words(ws: &Vec<Vec<char>>) -> (out: (WordIndex, Vec<usize>))
    ensures
        out.0.items() == distinct_words(ws@.map_values(|w: Vec<char>| w@)),
        out.1@.len() == out.0.items().len(),
        forall|j: int|
            0 <= j < out.1@.len() ==> #[trigger] out.1@[j] as nat == word_counts(
                ws@.map_values(|w: Vec<char>| w@),
            )[j],
        out.0.items().len() <= ws@.len(),
{
    let ghost wsv = ws@.map_values(|w: Vec<char>| w@);
    let mut d = WordIndex::new();
    let mut cnt: Vec<usize> = Vec::new();
    for k in 0..ws.len()
        invariant
            wsv == ws@.map_values(|w: Vec<char>| w@),
            d.items() == distinct_words(wsv.take(k as int)),
            cnt@.len() == d.items().len(),
            d.items().len() <= k,
            forall|j: int|
                0 <= j < cnt@.len() ==> #[trigger] cnt@[j] as nat == count_of(
                    wsv.take(k as int),
                    d.items()[j],
                ),
            forall|j: int| 0 <= j < cnt@.len() ==> #[trigger] cnt@[j] <= k,
    {
        let ghost pre = wsv.take(k as int);
        let ghost post = wsv.take(k + 1);
        assert(post.drop_last() == pre);
        assert(post.last() == ws@[k as int]@);
        let w = &ws[k];
        let ghost old_items = d.items();
        let ghost old_cnt = cnt@;
        proof {
            lemma_last_index(d.items(), w@);
        }
        match d.find_last(w.as_slice()) {
            Some(j) => {
                assert(old_items.contains(w@));
                let c = cnt[j];
                cnt.set(j, c + 1);
                assert forall|i: int| 0 <= i < cnt@.len() implies #[trigger] cnt@[i] as nat
                    == count_of(post, d.items()[i]) by {
                    if i != j {
                        assert(old_items[i] != w@) by {
                            lemma_distinct_words(pre);
                        }
                    }
                }
            },
            None => {
                assert(!old_items.contains(w@));
                d.push(copy_range(w.as_slice(), 0, w.len()));
                assert(w@.subrange(0, w@.len() as int) == w@);
                cnt.push(1);
                assert forall|i: int| 0 <= i < cnt@.len() implies #[trigger] cnt@[i] as nat
                    == count_of(post, d.items()[i]) by {
                    if i < old_cnt.len() {
                        assert(old_items[i] != w@) by {
                            assert(old_items.contains(old_items[i]));
                        }
                        assert(d.items()[i] == old_items[i]);
                    } else {
                        assert(d.items()[i] == w@);
                        assert(!pre.contains(w@)) by {
                            lemma_distinct_words(pre);
                        }
                        lemma_count_absent(pre, w@);
                    }
                }
            },
        }
    }
    assert(wsv.take(ws.len() as int) == wsv);
    (d, cnt)
}

proof fn lemma_count_absent(ws: Seq<Seq<char>>, w: Seq<char>)
    requires
        !ws.contains(w),
    ensures
        count_of(ws, w) == 0,
    decreases ws.len(),
{
    if ws.len() > 0 {
        assert(ws[ws.len() - 1] != w);
        assert forall|k: int| 0 <= k < ws.drop_last().len() implies ws.drop_last()[k] != w by {
            assert(ws[k] != w);
        }
        lemma_count_absent(ws.drop_last(), w);
    }
}

/// The positions `0 .. cnt.len()`, ordered by decreasing count, equal
/// counts by position.
fn order_by_count(cnt: &Vec<usize>, Ghost(c): Ghost<Seq<nat>>) -> (p: Vec<usize>)
    requires
        c.len() == cnt@.len(),
        forall|j: int| 0 <= j < c.len() ==> #[trigger] c[j] == cnt@[j] as nat,
    ensures
        is_freq_order(p@, c),
        p@.len() == c.len(),
{
    let mut p: Vec<usize> = Vec::new();
    for k in 0..cnt.len()
        invariant
            c.len() == cnt@.len(),
            forall|j: int| 0 <= j < c.len() ==> #[trigger] c[j] == cnt@[j] as nat,
            p@.len() == k,
            sorted_by(p@, freq_lt(c)),
            forall|x: usize| p@.contains(x) <==> x < k,
    {
        let ghost old_p = p@;
        let mut q: usize = 0;
        assert forall|r: int| 0 <= r < p@.len() implies #[trigger] p@[r] < k by {
            assert(p@.contains(p@[r]));
        }
        let mut hi: usize = p.len();
        while q < hi
            invariant
                p@ == old_p,
                q <= hi <= p@.len(),
                c.len() == cnt@.len(),
                forall|j: int| 0 <= j < c.len() ==> #[trigger] c[j] == cnt@[j] as nat,
                sorted_by(p@, freq_lt(c)),
                k < cnt@.len(),
                forall|r: int| 0 <= r < p@.len() ==> #[trigger] p@[r] < k,
                forall|r: int| 0 <= r < q ==> cnt@[#[trigger] p@[r] as int] >= cnt@[k as int],
                forall|r: int| hi <= r < p@.len() ==> cnt@[#[trigger] p@[r] as int] < cnt@[k as int],
            decreases hi - q,
        {
            let mid = q + (hi - q) / 2;
            if cnt[p[mid]] >= cnt[k] {
                assert forall|r: int| 0 <= r <= mid implies cnt@[#[trigger] p@[r] as int]
                    >= cnt@[k as int] by {
                    if r < mid {
                        assert(freq_lt(c)(p@[r], p@[mid as int]));
                    }
                }
                q = mid + 1;
            } else {
                assert forall|r: int| mid <= r < p@.len() implies cnt@[#[trigger] p@[r] as int]
                    < cnt@[k as int] by {
                    if r > mid {
                        assert(freq_lt(c)(p@[mid as int], p@[r]));
                    }
                }
                hi = mid;
            }
        }
        proof {
            lemma_freq_lt_total(c);
            assert forall|r: int| 0 <= r < q implies freq_lt(c)(#[trigger] old_p[r], k) by {}
            assert forall|r: int| q <= r < old_p.len() implies freq_lt(c)(k, #[trigger] old_p[r]) by {}
            lemma_insert_sorted(old_p, k, freq_lt(c), q as int);
            assert forall|x: usize| p@.insert(q as int, k).contains(x) <==> x < k + 1 by {
                assert(p@.insert(q as int, k).contains(x) <==> (old_p.contains(x) || x == k));
            }
        }
        p.insert(q, k);
    }
    p
}

/// A tokenizer: the vocabulary `itos` (token by id), and the boundary
/// below which ids, but the two special ones, stand for single characters.
pub struct Tokenizer {
    vocab: WordIndex,
    unk_id: u32,
    char_boundary: u32,
}

impl Tokenizer {
    /// The tokens, by id.
    pub closed spec fn itos(&self) -> Seq<Seq<char>> {
        self.vocab.items()
    }

    /// The character boundary.
    pub closed spec fn boundary(&self) -> u32 {
        self.char_boundary
    }

    #[verifier::type_invariant]
    closed spec fn inv(&self) -> bool {
        &&& self.unk_id == UNK_ID
    }

    /// The tokenizer learnt from `text`: the padding and unknown tokens,
    /// each character of the text, then its words that these lack, most
    /// frequent first, while there are fewer than `vocab_size` tokens.
    pub fn new(text: &str, vocab_size: usize) -> (out: Self)
        ensures
            out.itos() == trained_vocab(text@, vocab_size as int),
            out.boundary() == base_vocab(text@).len() as u32,
    {
        let t = chars_of(text);
        let ws = split_words(&t);
        let ghost wsv = words(t@);
        assert(ws@.map_values(|w: Vec<char>| w@) == wsv);
        let cs = sorted_chars(&t);
        proof {
            lemma_char_set_is(cs@, t@);
        }
        let (d, cnt) = count_words(&ws);
        let ghost counts = word_counts(wsv);
        let p = order_by_count(&cnt, Ghost(counts));
        proof {
            lemma_freq_order_is(p@, wsv);
            lemma_freq_lt_total(counts);
            lemma_sorted_distinct(p@, freq_lt(counts));
            lemma_distinct_words(wsv);
        }
        let ghost base = base_vocab(t@);
        let ghost order = words_by_freq(wsv);
        let mut vocab = WordIndex::new();
        let mut pad: Vec<char> = Vec::new();
        pad.push('<');
        pad.push('P');
        pad.push('A');
        pad.push('D');
        pad.push('>');
        vocab.push(pad);
        let mut unk: Vec<char> = Vec::new();
        unk.push('<');
        unk.push('U');
        unk.push('N');
        unk.push('K');
        unk.push('>');
        vocab.push(unk);
        assert(pad@ == pad_token());
        assert(unk@ == unk_token());
        assert(vocab.items() == base.take(2));
        for i in 0..cs.len()
            invariant
                base == base_vocab(t@),
                base.len() == cs@.len() + 2,
                cs@ == char_set(t@),
                vocab.items() == base.take(i + 2),
        {
            let mut one: Vec<char> = Vec::new();
            one.push(cs[i]);
            vocab.push(one);
            assert(base.take(i + 3) == base.take(i + 2).push(base[i + 2]));
        }
        assert(base.take(cs.len() + 2) == base);
        let boundary = vocab.len();
        let mut q: usize = 0;
        while q < p.len() && vocab.len() < vocab_size
            invariant
                base == base_vocab(t@),
                order == words_by_freq(wsv),
                p@ == freq_order(wsv),
                d.items() == distinct_words(wsv),
                p@.len() == d.items().len(),
                forall|x: usize| p@.contains(x) <==> (x as int) < d.items().len(),
                forall|i: int, j: int|
                    0 <= i < p@.len() && 0 <= j < p@.len() && i != j ==> p@[i] != p@[j],
                forall|i: int, j: int|
                    0 <= i < d.items().len() && 0 <= j < d.items().len() && i != j
                        ==> d.items()[i] != d.items()[j],
                q <= p@.len(),
                vocab.items() == base + missing_from(base, order.take(q as int)),
                vocab.items().len() <= if vocab_size > base.len() {
                    vocab_size as int
                } else {
                    base.len() as int
                },
            decreases p@.len() - q,
        {
            let pi = p[q];
            assert(p@.contains(pi));
            let w = d.get(pi);
            assert(order[q as int] == w@);
            assert(order.take(q + 1).drop_last() == order.take(q as int));
            let ghost found = missing_from(base, order.take(q as int));
            proof {
                lemma_last_index(vocab.items(), w@);
                if found.contains(w@) {
                    lemma_missing_from_contains(base, order.take(q as int), w@);
                    let k = choose|k: int| 0 <= k < q && order.take(q as int)[k] == w@;
                    assert(order[k] == order[q as int]);
                    assert(order[k] == d.items()[p@[k] as int]);
                    assert(p@.contains(p@[k]));
                    assert(p@[k] != p@[q as int]);
                    assert(false);
                }
                assert(vocab.items().contains(w@) <==> base.contains(w@)) by {
                    if vocab.items().contains(w@) {
                        let k = choose|k: int| 0 <= k < vocab.items().len() && vocab.items()[k] == w@;
                        if k >= base.len() {
                            assert(found[k - base.len()] == w@);
                        }
                    }
                    if base.contains(w@) {
                        let k = choose|k: int| 0 <= k < base.len() && base[k] == w@;
                        assert(vocab.items()[k] == w@);
                    }
                }
            }
            if vocab.find_last(w.as_slice()).is_none() {
                vocab.push(copy_range(w.as_slice(), 0, w.len()));
                assert(w@.subrange(0, w@.len() as int) == w@);
                assert(base + found.push(w@) == (base + found).push(w@));
            }
            q += 1;
        }
        proof {
            lemma_missing_from_prefix(base, order, q as int);
            if q == p.len() {
                assert(order.take(q as int) == order);
            }
        }
        assert(vocab.items() == trained_vocab(t@, vocab_size as int));
        Tokenizer { vocab, unk_id: UNK_ID, char_boundary: boundary as u32 }
    }

    /// The number of tokens.
    pub fn vocab_size(&self) -> (n: usize)
        ensures
            n == self.itos().len(),
    {
        self.vocab.len()
    }

    /// The ids of the token of `text`, as `encode_text` gives them.
    pub fn encode(&self, text: &str) -> (ids: Vec<u32>)
        ensures
            ids@ == encode_text(self.itos(), text@),
            self.itos().len() > UNK_ID ==> forall|k: int|
                0 <= k < ids@.len() ==> #[trigger] ids@[k] < self.itos().len(),
    {
        proof {
            use_type_invariant(self);
        }
        let t = chars_of(text);
        let ws = split_words(&t);
        let ghost wsv = words(t@);
        let ghost itos = self.itos();
        let mut ids: Vec<u32> = Vec::new();
        for k in 0..ws.len()
            invariant
                ws@.len() == wsv.len(),
                forall|i: int| 0 <= i < ws@.len() ==> #[trigger] ws@[i]@ == wsv[i],
                itos == self.itos(),
                self.unk_id == UNK_ID,
                ids@ == encode_words(itos, wsv.take(k as int)),
                itos.len() > UNK_ID ==> forall|q: int|
                    0 <= q < ids@.len() ==> #[trigger] ids@[q] < itos.len(),
        {
            assert(wsv.take(k + 1).drop_last() == wsv.take(k as int));
            let w = &ws[k];
            let ghost before = ids@;
            match self.vocab.find_last(w.as_slice()) {
                Some(i) => {
                    proof {
                        lemma_last_index(itos, w@);
                    }
                    assert((i as u32) as usize <= i) by (bit_vector);
                    ids.push(i as u32);
                    assert(ids@ == before + encode_word(itos, w@));
                },
                None => {
                    let mut j: usize = 0;
                    while j < w.len()
                        invariant
                            0 <= j <= w.len(),
                            itos == self.itos(),
                                        last_index(itos, w@) is None,
                            self.unk_id == UNK_ID,
                            ids@ == before + encode_word(itos, w@).take(j as int),
                            itos.len() > UNK_ID ==> forall|q: int|
                                0 <= q < ids@.len() ==> #[trigger] ids@[q] < itos.len(),
                        decreases w.len() - j,
                    {
                        let mut one: Vec<char> = Vec::new();
                        one.push(w[j]);
                        assert(one@ == seq![w@[j as int]]);
                        let id = match self.vocab.find_last(one.as_slice()) {
                            Some(i) => {
                                proof {
                                    lemma_last_index(itos, one@);
                                }
                                assert((i as u32) as usize <= i) by (bit_vector);
                                i as u32
                            },
                            None => self.unk_id,
                        };
                        ids.push(id);
                        assert(encode_word(itos, w@).len() == w@.len());
                        assert(id == char_id(itos, w@[j as int]));
                        assert(encode_word(itos, w@)[j as int] == id);
                        assert(encode_word(itos, w@).take(j + 1) == encode_word(itos, w@).take(
                            j as int,
                        ).push(id));
                        j += 1;
                    }
                    assert(encode_word(itos, w@).take(w.len() as int) == encode_word(itos, w@));
                },
            }
        }
        assert(wsv.take(ws.len() as int) == wsv);
        ids
    }

    /// The text of `ids`, as `decode_ids` gives it.
    pub fn decode(&self, ids: &[u32]) -> (out: String)
        requires
            forall|k: int| 0 <= k < ids@.len() ==> #[trigger] ids@[k] < self.itos().len(),
        ensures
            out@ == decode_ids(self.itos(), self.boundary(), ids@),
    {
        proof {
            use_type_invariant(self);
        }
        let ghost itos = self.itos();
        let b = self.char_boundary;
        let mut out = String::new();
        for k in 0..ids.len()
            invariant
                itos == self.itos(),
                b == self.boundary(),
                forall|q: int| 0 <= q < ids@.len() ==> #[trigger] ids@[q] < itos.len(),
                out@ == decode_ids(itos, b, ids@.take(k as int)),
        {
            let id = ids[k];
            let ghost prefix = ids@.take(k + 1);
            assert(prefix.drop_last() == ids@.take(k as int));
            assert(prefix.last() == id);
            let piece = self.vocab.get(id as usize);
            if k == 0 {
            } else {
                let prev = ids[k - 1];
                assert(prefix[prefix.len() - 2] == prev);
                if !(1 < id && id < b && 1 < prev && prev < b) {
                    crate::text::push_chars(&mut out, &[' ']);
                }
            }
            push_chars(&mut out, piece.as_slice());
        }
        assert(ids@.take(ids.len() as int) == ids@);
        out
    }

    /// The vocabulary as text: one token per line.
    pub fn vocab_text(&self) -> (out: String)
        ensures
            out@ == vocab_lines(self.itos()),
    {
        let ghost itos = self.itos();
        let mut out = String::new();
        let n = self.vocab.len();
        for i in 0..n
            invariant
                n == itos.len(),
                itos == self.itos(),
                out@ == join(itos.take(i as int), seq!['\n']),
        {
            assert(itos.take(i + 1).drop_last() == itos.take(i as int));
            if i > 0 {
                push_chars(&mut out, &['\n']);
            } else {
                assert(out@ == Seq::<char>::empty());
            }
            push_chars(&mut out, self.vocab.get(i).as_slice());
            assert(itos.take(i + 1).last() == itos[i as int]);
        }
        assert(itos.take(n as int) == itos);
        out
    }

    /// The tokenizer whose vocabulary is given by the lines of `text`, one
    /// token per line.
    pub fn from_vocab_text(text: &str) -> (out: Self)
        requires
            lines(text@).len() <= u32::MAX,
        ensures
            out.itos() == lines(text@),
            out.boundary() == loaded_boundary(lines(text@)),
    {
        let t = chars_of(text);
        let ls = split_lines(&t);
        let ghost lv = lines(t@);
        let mut vocab = WordIndex::new();
        for i in 0..ls.len()
            invariant
                ls@.len() == lv.len(),
                forall|k: int| 0 <= k < ls@.len() ==> #[trigger] ls@[k]@ == lv[k],
                vocab.items() == lv.take(i as int),
        {
            vocab.push(copy_range(ls[i].as_slice(), 0, ls[i].len()));
            assert(ls@[i as int]@.subrange(0, ls@[i as int]@.len() as int) == ls@[i as int]@);
            assert(lv.take(i + 1) == lv.take(i as int).push(lv[i as int]));
        }
        assert(lv.take(ls.len() as int) == lv);
        let mut b: usize = 2;
        while b < ls.len() && ls[b].len() == 1
            invariant
                2 <= b,
                b == 2 || b <= ls@.len(),
                ls@.len() == lv.len(),
                lv.len() <= u32::MAX,
                forall|k: int| 0 <= k < ls@.len() ==> #[trigger] ls@[k]@ == lv[k],
                single_run(lv, 2) == single_run(lv, b as int),
            decreases ls.len() - b,
        {
            b += 1;
        }
        assert(single_run(lv, b as int) == b);
        Tokenizer { vocab, unk_id: UNK_ID, char_boundary: b as u32 }
    }
}

} // verus!
