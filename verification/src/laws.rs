//! Laws of the tokenizer: what holds across its operations.
use crate::index::{last_index, lemma_last_index, lemma_last_index_is};
use crate::order::{lemma_sorted_distinct, lemma_sorted_set_exists, strict_total};
use crate::text::{
    is_word, is_ws, join, lemma_words_are_words, lemma_words_of_append, lemma_words_of_join,
    lemma_words_of_spaces, line_run, lines,
    strip_cr, word_run, words,
};
use crate::tokenizer::{
    base_vocab, char_id, char_lt, char_set, count_of, decode_ids, distinct_words, encode_text, encode_word,
    encode_words, freq_lt, freq_order, is_char_id, is_char_set, is_freq_order,
    lemma_char_lt_total, lemma_distinct_words, lemma_missing_from_contains, loaded_boundary, missing_from, pad_token,
    single_run, trained_vocab, unk_token, vocab_lines, word_counts, words_by_freq, UNK_ID,
};
use vstd::prelude::*;

verus! {

/// Every text has its character set.
pub proof fn lemma_char_set(t: Seq<char>)
    ensures
        is_char_set(char_set(t), t),
        char_set(t).len() <= t.len(),
{
    lemma_char_lt_total();
    let cs = lemma_sorted_set_exists(t, |c: char| !is_ws(c), char_lt());
    assert(is_char_set(cs, t));
    let other = char_set(t);
    assert(is_char_set(other, t));
    assert forall|x: char| #[trigger] cs.contains(x) <==> other.contains(x) by {
        assert(cs.contains(x) <==> (t.contains(x) && !is_ws(x)));
        assert(other.contains(x) <==> (t.contains(x) && !is_ws(x)));
    }
    crate::order::lemma_sorted_unique(cs, other, char_lt());
}

/// Every word list has its frequency order.
pub proof fn lemma_freq_order(ws: Seq<Seq<char>>)
    requires
        ws.len() <= usize::MAX,
    ensures
        is_freq_order(freq_order(ws), word_counts(ws)),
        freq_order(ws).len() == distinct_words(ws).len(),
{
    let c = word_counts(ws);
    lemma_distinct_len(ws);
    let n = c.len();
    let idx = Seq::new(n, |i: int| i as usize);
    assert(strict_total(freq_lt(c)));
    let p = lemma_sorted_set_exists(idx, |x: usize| true, freq_lt(c));
    assert forall|x: usize| #[trigger] p.contains(x) <==> (x as int) < n by {
        if (x as int) < n {
            assert(idx[x as int] == x);
        }
    }
    assert(is_freq_order(p, c));
    crate::tokenizer::lemma_freq_order_is(p, ws);
    lemma_sorted_distinct(p, freq_lt(c));
    lemma_perm_len(p, n);
}

/// A list of distinct positions that holds exactly `0 .. n` has length `n`.
proof fn lemma_perm_len(p: Seq<usize>, n: nat)
    requires
        forall|i: int, j: int| 0 <= i < p.len() && 0 <= j < p.len() && i != j ==> p[i] != p[j],
        forall|x: usize| #[trigger] p.contains(x) <==> (x as int) < n,
        n <= usize::MAX + 1,
    ensures
        p.len() == n,
    decreases n,
{
    if n == 0 {
        if p.len() > 0 {
            assert(p.contains(p[0]));
        }
    } else {
        let m = (n - 1) as usize;
        assert(p.contains(m));
        let k = choose|k: int| 0 <= k < p.len() && p[k] == m;
        let p1 = p.remove(k);
        assert forall|i: int, j: int|
            0 <= i < p1.len() && 0 <= j < p1.len() && i != j implies p1[i] != p1[j] by {
            let i2 = if i < k {
                i
            } else {
                i + 1
            };
            let j2 = if j < k {
                j
            } else {
                j + 1
            };
            assert(p1[i] == p[i2]);
            assert(p1[j] == p[j2]);
        }
        assert forall|x: usize| #[trigger] p1.contains(x) <==> (x as int) < n - 1 by {
            if p1.contains(x) {
                let i = choose|i: int| 0 <= i < p1.len() && p1[i] == x;
                let i2 = if i < k {
                    i
                } else {
                    i + 1
                };
                assert(p[i2] == x);
                assert(p.contains(x));
                assert(i2 != k);
            }
            if (x as int) < n - 1 {
                assert(p.contains(x));
                let i = choose|i: int| 0 <= i < p.len() && p[i] == x;
                if i < k {
                    assert(p1[i] == x);
                } else {
                    assert(i != k);
                    assert(p1[i - 1] == x);
                }
            }
        }
        lemma_perm_len(p1, (n - 1) as nat);
    }
}

// ---------------------------------------------------------------------
// Sizes and characters of words
// ---------------------------------------------------------------------
proof fn lemma_word_run_facts(s: Seq<char>)
    ensures
        ({
            let st = word_run((Seq::empty(), Seq::empty()), s);
            &&& st.0.len() + (if st.1.len() > 0 {
                1int
            } else {
                0int
            }) <= s.len()
            &&& forall|m: int| 0 <= m < st.1.len() ==> s.contains(#[trigger] st.1[m])
            &&& forall|k: int, m: int|
                0 <= k < st.0.len() && 0 <= m < st.0[k].len() ==> s.contains(
                    #[trigger] st.0[k][m],
                )
        }),
    decreases s.len(),
{
    if s.len() > 0 {
        let s1 = s.drop_last();
        lemma_word_run_facts(s1);
        assert forall|c: char| s1.contains(c) implies s.contains(c) by {
            let k = choose|k: int| 0 <= k < s1.len() && s1[k] == c;
            assert(s[k] == c);
        }
        assert(s[s.len() - 1] == s.last());
        let prev = word_run((Seq::empty(), Seq::empty()), s1);
        let st = word_run((Seq::empty(), Seq::empty()), s);
        if !is_ws(s.last()) {
            assert forall|m: int| 0 <= m < st.1.len() implies s.contains(#[trigger] st.1[m]) by {
                if m < prev.1.len() {
                    assert(st.1[m] == prev.1[m]);
                    assert(s1.contains(prev.1[m]));
                }
            }
            assert forall|k: int, m: int|
                0 <= k < st.0.len() && 0 <= m < st.0[k].len() implies s.contains(
                #[trigger] st.0[k][m],
            ) by {
                assert(s1.contains(prev.0[k][m]));
            }
        } else {
            assert forall|k: int, m: int|
                0 <= k < st.0.len() && 0 <= m < st.0[k].len() implies s.contains(
                #[trigger] st.0[k][m],
            ) by {
                if k < prev.0.len() {
                    assert(s1.contains(prev.0[k][m]));
                } else {
                    assert(st.0[k] == prev.1);
                    assert(s1.contains(prev.1[m]));
                }
            }
        }
    }
}

/// A text has no more words than characters, and the characters of its
/// words are characters of the text.
pub proof fn lemma_words_facts(s: Seq<char>)
    ensures
        words(s).len() <= s.len(),
        forall|k: int, m: int|
            0 <= k < words(s).len() && 0 <= m < words(s)[k].len() ==> s.contains(
                #[trigger] words(s)[k][m],
            ),
{
    lemma_word_run_facts(s);
}

/// Removing repetitions does not lengthen a list.
pub proof fn lemma_distinct_len(ws: Seq<Seq<char>>)
    ensures
        distinct_words(ws).len() <= ws.len(),
    decreases ws.len(),
{
    if ws.len() > 0 {
        lemma_distinct_len(ws.drop_last());
    }
}

// ---------------------------------------------------------------------
// Lines of joined tokens
// ---------------------------------------------------------------------
proof fn lemma_line_run_append(a: Seq<char>, b: Seq<char>)
    requires
        forall|k: int| 0 <= k < b.len() ==> b[k] != '\n',
    ensures
        line_run(a + b) == (line_run(a).0, line_run(a).1 + b),
    decreases b.len(),
{
    if b.len() == 0 {
        assert(a + b =~= a);
        assert(line_run(a).1 + b =~= line_run(a).1);
    } else {
        assert((a + b).drop_last() =~= a + b.drop_last());
        lemma_line_run_append(a, b.drop_last());
        assert((a + b).last() == b.last());
        assert(b[b.len() - 1] != '\n');
        assert(line_run(a).1 + b.drop_last() + seq![b.last()] =~= line_run(a).1 + b);
    }
}

proof fn lemma_line_run_of_join(ws: Seq<Seq<char>>)
    requires
        ws.len() > 0,
        forall|k: int| 0 <= k < ws.len() ==> is_word(#[trigger] ws[k]),
    ensures
        line_run(join(ws, seq!['\n'])) == (ws.drop_last(), ws.last()),
    decreases ws.len(),
{
    assert forall|k: int, m: int| 0 <= k < ws.len() && 0 <= m < ws[k].len() implies #[trigger] ws[k][m]
        != '\n' by {
        assert(is_word(ws[k]));
        assert(!is_ws(ws[k][m]));
    }
    if ws.len() == 1 {
        lemma_line_run_append(Seq::empty(), ws[0]);
        assert(Seq::<char>::empty() + ws[0] =~= ws[0]);
        assert(line_run(Seq::<char>::empty()) == (Seq::<Seq<char>>::empty(), Seq::<char>::empty()));
        assert(Seq::<char>::empty() + ws[0] =~= ws[0]);
        assert(ws.drop_last() =~= Seq::<Seq<char>>::empty());
    } else {
        let prev = ws.drop_last();
        assert forall|k: int| 0 <= k < prev.len() implies is_word(#[trigger] prev[k]) by {
            assert(prev[k] == ws[k]);
        }
        lemma_line_run_of_join(prev);
        let j = join(prev, seq!['\n']);
        let w = ws.last();
        assert(join(ws, seq!['\n']) == j + seq!['\n'] + w);
        let jn = j + seq!['\n'];
        assert(jn.drop_last() =~= j);
        assert(jn.last() == '\n');
        let last_prev = prev.last();
        assert(is_word(prev[prev.len() - 1]));
        assert(!is_ws(last_prev[last_prev.len() - 1]));
        assert(strip_cr(last_prev) == last_prev);
        assert(line_run(jn) == (prev.drop_last().push(last_prev), Seq::<char>::empty()));
        assert(prev.drop_last().push(last_prev) =~= prev);
        lemma_line_run_append(jn, w);
        assert(Seq::<char>::empty() + w =~= w);
    }
}

/// Splitting tokens joined by newlines into lines gives back the tokens,
/// when each token is a word.
pub proof fn lemma_lines_of_join(ws: Seq<Seq<char>>)
    requires
        forall|k: int| 0 <= k < ws.len() ==> is_word(#[trigger] ws[k]),
    ensures
        lines(join(ws, seq!['\n'])) == ws,
{
    if ws.len() > 0 {
        lemma_line_run_of_join(ws);
        assert(is_word(ws[ws.len() - 1]));
        assert(ws.drop_last().push(ws.last()) =~= ws);
    } else {
        assert(line_run(Seq::<char>::empty()) == (Seq::<Seq<char>>::empty(), Seq::<char>::empty()));
    }
}

// ---------------------------------------------------------------------
// The shape of a learnt vocabulary
// ---------------------------------------------------------------------
/// What `missing_from` keeps of a list without repetitions has none.
proof fn lemma_missing_from_distinct(base: Seq<Seq<char>>, ws: Seq<Seq<char>>)
    requires
        forall|i: int, j: int| 0 <= i < ws.len() && 0 <= j < ws.len() && i != j ==> ws[i] != ws[j],
    ensures
        forall|i: int, j: int|
            0 <= i < missing_from(base, ws).len() && 0 <= j < missing_from(base, ws).len() && i
                != j ==> missing_from(base, ws)[i] != missing_from(base, ws)[j],
    decreases ws.len(),
{
    if ws.len() > 0 {
        let w1 = ws.drop_last();
        assert forall|i: int, j: int|
            0 <= i < w1.len() && 0 <= j < w1.len() && i != j implies w1[i] != w1[j] by {
            assert(ws[i] != ws[j]);
        }
        lemma_missing_from_distinct(base, w1);
        let r = missing_from(base, w1);
        if !base.contains(ws.last()) {
            assert(!r.contains(ws.last())) by {
                if r.contains(ws.last()) {
                    lemma_missing_from_contains(base, w1, ws.last());
                    let k = choose|k: int| 0 <= k < w1.len() && w1[k] == ws.last();
                    assert(ws[k] == ws[ws.len() - 1]);
                }
            }
            assert forall|i: int, j: int|
                0 <= i < r.push(ws.last()).len() && 0 <= j < r.push(ws.last()).len() && i != j
                    implies r.push(ws.last())[i] != r.push(ws.last())[j] by {
                if i == r.len() {
                    assert(r.contains(r[j]));
                } else if j == r.len() {
                    assert(r.contains(r[i]));
                }
            }
        }
    }
}

/// The vocabulary learnt from `t`: the two special tokens, then one
/// one-character token per character of `t`, then words of `t` of another
/// length that the base lacks; each token a word, no token twice, and no
/// more tokens than `vocab_size` or the base holds.
pub proof fn lemma_trained_vocab_shape(t: Seq<char>, vocab_size: int)
    requires
        0 <= vocab_size,
        t.len() <= usize::MAX,
    ensures
        ({
            let v = trained_vocab(t, vocab_size);
            let base = base_vocab(t);
            let nb = base.len();
            &&& nb == char_set(t).len() + 2
            &&& nb <= v.len()
            &&& v.len() <= if vocab_size > nb {
                vocab_size
            } else {
                nb as int
            }
            &&& v.take(nb as int) == base
            &&& v[0] == pad_token()
            &&& v[1] == unk_token()
            &&& forall|i: int| 0 <= i < v.len() ==> is_word(#[trigger] v[i])
            &&& forall|i: int| 2 <= i < nb ==> #[trigger] v[i] == seq![char_set(t)[i - 2]]
            &&& forall|i: int|
                nb <= i < v.len() ==> (#[trigger] v[i]).len() != 1 && words(t).contains(v[i])
                    && !base.contains(v[i])
            &&& forall|i: int, j: int| 0 <= i < v.len() && 0 <= j < v.len() && i != j ==> v[i] != v[j]
        }),
{
    let v = trained_vocab(t, vocab_size);
    let base = base_vocab(t);
    let cs = char_set(t);
    let ws = words(t);
    let nb = base.len();
    lemma_char_set(t);
    lemma_words_facts(t);
    lemma_words_are_words(t);
    lemma_freq_order(ws);
    lemma_distinct_words(ws);
    let d = distinct_words(ws);
    let p = freq_order(ws);
    let order = words_by_freq(ws);
    let c = word_counts(ws);
    assert(strict_total(freq_lt(c)));
    lemma_sorted_distinct(p, freq_lt(c));
    assert forall|k: int| 0 <= k < order.len() implies #[trigger] order[k] == d[p[k] as int] && (
    p[k] as int) < d.len() by {
        assert(p.contains(p[k]));
    }
    assert forall|i: int, j: int|
        0 <= i < order.len() && 0 <= j < order.len() && i != j implies order[i] != order[j] by {
        assert(order[i] == d[p[i] as int]);
        assert(order[j] == d[p[j] as int]);
    }
    let cand = missing_from(base, order);
    lemma_missing_from_distinct(base, order);
    let room = if vocab_size > nb {
        vocab_size - nb
    } else {
        0
    };
    let m = if cand.len() < room {
        cand.len() as int
    } else {
        room
    };
    let taken = cand.take(m);
    assert(v == base + taken);
    assert(v.take(nb as int) =~= base);
    assert(is_word(pad_token())) by {
        let pt = pad_token();
        assert forall|k: int| 0 <= k < pt.len() implies !is_ws(#[trigger] pt[k]) by {
            assert(pt[0] == '<' && pt[1] == 'P' && pt[2] == 'A' && pt[3] == 'D' && pt[4] == '>');
        }
    }
    assert(is_word(unk_token())) by {
        let ut = unk_token();
        assert forall|k: int| 0 <= k < ut.len() implies !is_ws(#[trigger] ut[k]) by {
            assert(ut[0] == '<' && ut[1] == 'U' && ut[2] == 'N' && ut[3] == 'K' && ut[4] == '>');
        }
    }
    assert forall|i: int| 2 <= i < nb implies #[trigger] v[i] == seq![cs[i - 2]] by {
        assert(v[i] == base[i]);
    }
    // tokens taken from the words
    assert forall|i: int| nb <= i < v.len() implies (#[trigger] v[i]).len() != 1 && ws.contains(
        v[i],
    ) && !base.contains(v[i]) by {
        let w = v[i];
        assert(w == cand[i - nb]);
        assert(cand.contains(w));
        lemma_missing_from_contains(base, order, w);
        let k = choose|k: int| 0 <= k < order.len() && order[k] == w;
        assert(d.contains(w)) by {
            assert(d[p[k] as int] == w);
        }
        if w.len() == 1 {
            let k2 = choose|k2: int| 0 <= k2 < ws.len() && ws[k2] == w;
            assert(t.contains(ws[k2][0]));
            assert(is_word(ws[k2]));
            assert(!is_ws(w[0]));
            assert(cs.contains(w[0]));
            let j = choose|j: int| 0 <= j < cs.len() && cs[j] == w[0];
            assert(base[j + 2] == seq![cs[j]]);
            assert(w =~= seq![w[0]]);
            assert(base.contains(w));
        }
    }
    // every token is a word
    assert forall|i: int| 0 <= i < v.len() implies is_word(#[trigger] v[i]) by {
        if i == 0 {
        } else if i == 1 {
        } else if i < nb {
            let ch = cs[i - 2];
            assert(cs.contains(ch));
            assert(v[i] == seq![ch]);
            assert(!is_ws(ch));
            assert forall|k: int| 0 <= k < v[i].len() implies !is_ws(#[trigger] v[i][k]) by {
                assert(v[i][k] == ch);
            }
        } else {
            let k2 = choose|k2: int| 0 <= k2 < ws.len() && ws[k2] == v[i];
            assert(is_word(ws[k2]));
        }
    }
    // no token twice
    lemma_char_lt_total();
    lemma_sorted_distinct(cs, char_lt());
    assert forall|i: int, j: int| 0 <= i < v.len() && 0 <= j < v.len() && i != j implies v[i]
        != v[j] by {
        if i < nb && j < nb {
            if i >= 2 && j >= 2 {
                assert(cs[i - 2] != cs[j - 2]);
                assert(v[i][0] == cs[i - 2]);
                assert(v[j][0] == cs[j - 2]);
            } else if i == 0 && j == 1 || i == 1 && j == 0 {
                assert(v[0][1] != v[1][1]);
            } else if i < 2 {
                assert(v[i].len() == 5);
            } else {
                assert(v[j].len() == 5);
            }
        } else if i >= nb && j >= nb {
            assert(v[i] == cand[i - nb]);
            assert(v[j] == cand[j - nb]);
        } else if i >= nb {
            assert(base[j] == v[j]);
            assert(base.contains(v[j]));
        } else {
            assert(base[i] == v[i]);
            assert(base.contains(v[i]));
        }
    }
}

proof fn lemma_single_run(v: Seq<Seq<char>>, i: int, nb: int)
    requires
        2 <= i <= nb <= v.len(),
        forall|j: int| 2 <= j < nb ==> (#[trigger] v[j]).len() == 1,
        nb < v.len() ==> v[nb].len() != 1,
    ensures
        single_run(v, i) == nb,
    decreases nb - i,
{
    if i < nb {
        lemma_single_run(v, i + 1, nb);
    }
}

/// Law: writing a learnt vocabulary one token per line and reading it back
/// gives the same tokens and the same character boundary.
pub proof fn law_vocab_text_roundtrip(t: Seq<char>, vocab_size: int)
    requires
        0 <= vocab_size,
        t.len() <= usize::MAX,
    ensures
        lines(vocab_lines(trained_vocab(t, vocab_size))) == trained_vocab(t, vocab_size),
        loaded_boundary(trained_vocab(t, vocab_size)) == base_vocab(t).len(),
{
    let v = trained_vocab(t, vocab_size);
    lemma_trained_vocab_shape(t, vocab_size);
    lemma_lines_of_join(v);
    let nb = base_vocab(t).len() as int;
    assert forall|j: int| 2 <= j < nb implies (#[trigger] v[j]).len() == 1 by {
        assert(v[j] == seq![char_set(t)[j - 2]]);
    }
    lemma_single_run(v, 2, nb);
}

/// Law: a learnt vocabulary holds no token twice, begins with the padding
/// and the unknown token, and has at most `max(vocab_size, 2 + number of
/// characters)` tokens.
pub proof fn law_trained_vocab_tokens(t: Seq<char>, vocab_size: int)
    requires
        0 <= vocab_size,
        t.len() <= usize::MAX,
    ensures
        ({
            let v = trained_vocab(t, vocab_size);
            &&& forall|i: int, j: int|
                0 <= i < v.len() && 0 <= j < v.len() && i != j ==> v[i] != v[j]
            &&& v[0] == pad_token()
            &&& v[1] == unk_token()
            &&& v.len() <= if vocab_size > base_vocab(t).len() {
                vocab_size
            } else {
                base_vocab(t).len() as int
            }
        }),
{
    lemma_trained_vocab_shape(t, vocab_size);
}

/// Law: in the ids of the text that a vocabulary was learnt from, the
/// unknown id stands only for the word `<UNK>` itself; a text without that
/// word gets no unknown id at all, and each of its words at least one id.
pub proof fn law_training_text_known(t: Seq<char>, vocab_size: int)
    requires
        0 <= vocab_size,
        t.len() <= usize::MAX,
        trained_vocab(t, vocab_size).len() <= u32::MAX + 1,
    ensures
        (forall|k: int| 0 <= k < words(t).len() ==> #[trigger] words(t)[k] != unk_token())
            ==> !encode_text(trained_vocab(t, vocab_size), t).contains(UNK_ID),
        encode_text(trained_vocab(t, vocab_size), t).len() >= words(t).len(),
        forall|k: int, m: int|
            0 <= k < words(t).len() && words(t)[k] != unk_token() && 0 <= m < encode_word(
                trained_vocab(t, vocab_size),
                words(t)[k],
            ).len() ==> #[trigger] encode_word(trained_vocab(t, vocab_size), words(t)[k])[m]
                != UNK_ID,
{
    let v = trained_vocab(t, vocab_size);
    let cs = char_set(t);
    lemma_trained_vocab_shape(t, vocab_size);
    lemma_char_set(t);
    lemma_words_facts(t);
    lemma_words_are_words(t);
    assert forall|k: int, m: int|
        0 <= k < words(t).len() && words(t)[k] != unk_token() && 0 <= m < encode_word(
            v,
            words(t)[k],
        ).len() implies #[trigger] encode_word(v, words(t)[k])[m] != UNK_ID by {
        let w = words(t)[k];
        lemma_last_index(v, w);
        match last_index(v, w) {
            Some(i) => {
                assert(v[i] == w);
                assert(i != 1);
            },
            None => {
                let c = w[m];
                assert(is_word(w));
                assert(!is_ws(c));
                assert(t.contains(c));
                assert(cs.contains(c));
                let j = choose|j: int| 0 <= j < cs.len() && cs[j] == c;
                assert(v[j + 2] == seq![c]);
                lemma_last_index(v, seq![c]);
                match last_index(v, seq![c]) {
                    Some(i2) => {
                        assert(v[i2] == seq![c]);
                        if i2 == 1 {
                            assert(v[1].len() == 5);
                        }
                    },
                    None => {
                        assert(v[j + 2] != seq![c]);
                    },
                }
            },
        }
    }
    law_every_word_has_ids(v, t);
    if forall|k: int| 0 <= k < words(t).len() ==> #[trigger] words(t)[k] != unk_token() {
        let ws = words(t);
        assert forall|k: int| 0 <= k < ws.len() implies !(#[trigger] encode_word(v, ws[k])).contains(
            UNK_ID,
        ) by {
            assert(ws[k] != unk_token());
            if encode_word(v, ws[k]).contains(UNK_ID) {
                let m = choose|m: int|
                    0 <= m < encode_word(v, ws[k]).len() && encode_word(v, ws[k])[m] == UNK_ID;
                assert(encode_word(v, words(t)[k])[m] != UNK_ID);
            }
        }
        lemma_encode_words_avoid(v, ws, UNK_ID);
    }
}

/// Decoding ids that are none of them character ids puts one space between
/// their tokens.
proof fn lemma_decode_word_ids(itos: Seq<Seq<char>>, b: u32, ids: Seq<u32>)
    requires
        forall|k: int| 0 <= k < ids.len() ==> b <= #[trigger] ids[k] < itos.len(),
    ensures
        decode_ids(itos, b, ids) == join(ids.map_values(|i: u32| itos[i as int]), seq![' ']),
    decreases ids.len(),
{
    let ws = ids.map_values(|i: u32| itos[i as int]);
    if ids.len() == 1 {
        assert(ws.len() == 1);
    } else if ids.len() > 1 {
        let i1 = ids.drop_last();
        lemma_decode_word_ids(itos, b, i1);
        assert(ws.drop_last() =~= i1.map_values(|i: u32| itos[i as int]));
        assert(!is_char_id(b, ids.last()));
        assert(ids[ids.len() - 1] == ids.last());
    }
}

/// The ids of words that each have a token are the positions of those
/// tokens.
proof fn lemma_encode_found(itos: Seq<Seq<char>>, ws: Seq<Seq<char>>)
    requires
        itos.len() <= u32::MAX + 1,
        forall|k: int| 0 <= k < ws.len() ==> last_index(itos, #[trigger] ws[k]) is Some,
    ensures
        encode_words(itos, ws).len() == ws.len(),
        forall|k: int|
            0 <= k < ws.len() ==> #[trigger] encode_words(itos, ws)[k] as int == last_index(
                itos,
                ws[k],
            )->0,
        forall|k: int| 0 <= k < ws.len() ==> itos[#[trigger] encode_words(itos, ws)[k] as int] == ws[k],
        forall|k: int| 0 <= k < ws.len() ==> #[trigger] encode_words(itos, ws)[k] < itos.len(),
    decreases ws.len(),
{
    if ws.len() > 0 {
        let w1 = ws.drop_last();
        assert forall|k: int| 0 <= k < w1.len() implies last_index(itos, #[trigger] w1[k]) is Some by {
            assert(w1[k] == ws[k]);
        }
        lemma_encode_found(itos, w1);
        let w = ws.last();
        assert(last_index(itos, ws[ws.len() - 1]) is Some);
        lemma_last_index(itos, w);
        let e = encode_words(itos, ws);
        let e1 = encode_words(itos, w1);
        assert(e == e1 + encode_word(itos, w));
        assert forall|k: int| 0 <= k < ws.len() implies #[trigger] e[k] as int == last_index(
            itos,
            ws[k],
        )->0 by {
            if k < w1.len() {
                assert(e[k] == e1[k]);
                assert(w1[k] == ws[k]);
            }
        }
        assert forall|k: int| 0 <= k < ws.len() implies itos[#[trigger] e[k] as int] == ws[k] by {
            lemma_last_index(itos, ws[k]);
            assert(e[k] as int == last_index(itos, ws[k])->0);
        }
        assert forall|k: int| 0 <= k < ws.len() implies #[trigger] e[k] < itos.len() by {
            lemma_last_index(itos, ws[k]);
            assert(e[k] as int == last_index(itos, ws[k])->0);
        }
    }
}

/// Law: when no token occurs twice, ids that all lie beyond the character
/// boundary and name tokens that are words come back from the encoding of
/// their decoding.
pub proof fn law_encode_decode(itos: Seq<Seq<char>>, boundary: u32, ids: Seq<u32>)
    requires
        itos.len() <= u32::MAX + 1,
        forall|i: int, j: int| 0 <= i < itos.len() && 0 <= j < itos.len() && i != j ==> itos[i] != itos[j],
        forall|k: int| 0 <= k < ids.len() ==> boundary <= #[trigger] ids[k] < itos.len(),
        forall|k: int| 0 <= k < ids.len() ==> is_word(#[trigger] itos[ids[k] as int]),
    ensures
        encode_text(itos, decode_ids(itos, boundary, ids)) == ids,
{
    let ws = ids.map_values(|i: u32| itos[i as int]);
    lemma_decode_word_ids(itos, boundary, ids);
    assert forall|k: int| 0 <= k < ws.len() implies is_word(#[trigger] ws[k]) by {
        assert(ws[k] == itos[ids[k] as int]);
    }
    lemma_words_of_join(ws);
    assert forall|k: int| 0 <= k < ws.len() implies last_index(itos, #[trigger] ws[k]) == Some(
        ids[k] as int,
    ) by {
        assert(ws[k] == itos[ids[k] as int]);
        lemma_last_index_is(itos, ws[k], ids[k] as int);
    }
    lemma_encode_found(itos, ws);
    assert(encode_words(itos, ws) =~= ids);
}

// ---------------------------------------------------------------------
// Decoding what was encoded
// ---------------------------------------------------------------------
/// `w` has a token of its own that is not a character id.
pub open spec fn is_token_word(itos: Seq<Seq<char>>, boundary: u32, w: Seq<char>) -> bool {
    match last_index(itos, w) {
        Some(i) => !is_char_id(boundary, i as u32),
        None => false,
    }
}

/// `w` is encoded by character ids only: it is itself a token below the
/// boundary, or it has no token and each of its characters has one below
/// the boundary.
pub open spec fn is_spelled_word(itos: Seq<Seq<char>>, boundary: u32, w: Seq<char>) -> bool {
    &&& w.len() > 0
    &&& match last_index(itos, w) {
        Some(i) => is_char_id(boundary, i as u32),
        None => forall|m: int| 0 <= m < w.len() ==> is_char_id(boundary, #[trigger] char_id(itos, w[m])),
    }
}

/// Each word is a token word or a spelled word, and no two spelled words
/// follow each other.
pub open spec fn decodes_back(itos: Seq<Seq<char>>, boundary: u32, ws: Seq<Seq<char>>) -> bool {
    &&& forall|k: int|
        0 <= k < ws.len() ==> is_token_word(itos, boundary, #[trigger] ws[k]) || is_spelled_word(
            itos,
            boundary,
            ws[k],
        )
    &&& forall|k: int|
        0 <= k < ws.len() - 1 ==> !(is_spelled_word(itos, boundary, #[trigger] ws[k])
            && is_spelled_word(itos, boundary, ws[k + 1]))
}

/// Decoding two non-empty runs of ids one after the other: the two texts,
/// glued when both ids at the seam are character ids, else one space apart.
pub proof fn lemma_decode_concat(itos: Seq<Seq<char>>, b: u32, x: Seq<u32>, y: Seq<u32>)
    requires
        x.len() > 0,
        y.len() > 0,
    ensures
        decode_ids(itos, b, x + y) == decode_ids(itos, b, x) + (if is_char_id(b, x.last())
            && is_char_id(b, y[0]) {
            Seq::<char>::empty()
        } else {
            seq![' ']
        }) + decode_ids(itos, b, y),
    decreases y.len(),
{
    let sep = if is_char_id(b, x.last()) && is_char_id(b, y[0]) {
        Seq::<char>::empty()
    } else {
        seq![' ']
    };
    let xy = x + y;
    assert(xy.last() == y.last());
    if y.len() == 1 {
        assert(xy.drop_last() =~= x);
        assert(xy[xy.len() - 2] == x.last());
        assert(decode_ids(itos, b, y) == itos[y[0] as int]);
        if is_char_id(b, x.last()) && is_char_id(b, y[0]) {
            assert(decode_ids(itos, b, x) + sep + decode_ids(itos, b, y) =~= decode_ids(itos, b, x)
                + itos[y[0] as int]);
        }
    } else {
        let y1 = y.drop_last();
        lemma_decode_concat(itos, b, x, y1);
        assert(xy.drop_last() =~= x + y1);
        assert(xy[xy.len() - 2] == y[y.len() - 2]);
        assert(y1[0] == y[0]);
        let piece = itos[y.last() as int];
        let dx = decode_ids(itos, b, x);
        let dy1 = decode_ids(itos, b, y1);
        if is_char_id(b, y.last()) && is_char_id(b, y[y.len() - 2]) {
            assert(dx + sep + dy1 + piece =~= dx + sep + (dy1 + piece));
        } else {
            assert(dx + sep + dy1 + seq![' '] + piece =~= dx + sep + (dy1 + seq![' '] + piece));
        }
    }
}

/// The ids of a token word or a spelled word decode back to the word; they
/// are character ids exactly when the word is spelled.
proof fn lemma_decode_word(itos: Seq<Seq<char>>, b: u32, w: Seq<char>)
    requires
        itos.len() <= u32::MAX + 1,
        is_token_word(itos, b, w) || is_spelled_word(itos, b, w),
    ensures
        encode_word(itos, w).len() > 0,
        forall|k: int| 0 <= k < encode_word(itos, w).len() ==> #[trigger] encode_word(itos, w)[k] < itos.len(),
        decode_ids(itos, b, encode_word(itos, w)) == w,
        is_char_id(b, encode_word(itos, w)[0]) == is_spelled_word(itos, b, w),
        is_char_id(b, encode_word(itos, w).last()) == is_spelled_word(itos, b, w),
{
    let e = encode_word(itos, w);
    lemma_last_index(itos, w);
    match last_index(itos, w) {
        Some(i) => {
            assert(e == seq![i as u32]);
            assert((i as u32) as int == i);
        },
        None => {
            assert(is_spelled_word(itos, b, w));
            assert forall|m: int| 0 <= m < w.len() implies #[trigger] e[m] < itos.len() && itos[e[m] as int]
                == seq![w[m]] by {
                assert(is_char_id(b, char_id(itos, w[m])));
                lemma_last_index(itos, seq![w[m]]);
                let j = last_index(itos, seq![w[m]])->0;
                assert((j as u32) as int == j);
            }
            lemma_decode_chars(itos, b, w, e, w.len() as int);
            assert(e.take(w.len() as int) == e);
            assert(w.take(w.len() as int) == w);
            assert(is_char_id(b, char_id(itos, w[0])));
            assert(is_char_id(b, char_id(itos, w[w.len() - 1])));
        },
    }
}

proof fn lemma_decode_chars(itos: Seq<Seq<char>>, b: u32, w: Seq<char>, e: Seq<u32>, m: int)
    requires
        e.len() == w.len(),
        1 <= m <= w.len(),
        forall|k: int| 0 <= k < w.len() ==> is_char_id(b, #[trigger] e[k]),
        forall|k: int| 0 <= k < w.len() ==> itos[#[trigger] e[k] as int] == seq![w[k]],
    ensures
        decode_ids(itos, b, e.take(m)) == w.take(m),
    decreases m,
{
    let em = e.take(m);
    assert(em.last() == e[m - 1]);
    assert(is_char_id(b, e[m - 1]));
    if m == 1 {
        assert(itos[e[0] as int] == seq![w[0]]);
        assert(w.take(1) =~= seq![w[0]]);
    } else {
        lemma_decode_chars(itos, b, w, e, m - 1);
        assert(em.drop_last() =~= e.take(m - 1));
        assert(em[em.len() - 2] == e[m - 2]);
        assert(is_char_id(b, e[m - 2]));
        assert(itos[e[m - 1] as int] == seq![w[m - 1]]);
        assert(w.take(m - 1) + seq![w[m - 1]] =~= w.take(m));
    }
}

proof fn lemma_decode_encode_words(itos: Seq<Seq<char>>, b: u32, ws: Seq<Seq<char>>)
    requires
        itos.len() <= u32::MAX + 1,
        decodes_back(itos, b, ws),
    ensures
        forall|k: int|
            0 <= k < encode_words(itos, ws).len() ==> #[trigger] encode_words(itos, ws)[k]
                < itos.len(),
        decode_ids(itos, b, encode_words(itos, ws)) == join(ws, seq![' ']),
        ws.len() > 0 ==> encode_words(itos, ws).len() > 0 && is_char_id(
            b,
            encode_words(itos, ws).last(),
        ) == is_spelled_word(itos, b, ws.last()),
    decreases ws.len(),
{
    if ws.len() > 0 {
        let w1 = ws.drop_last();
        let w = ws.last();
        assert forall|k: int| 0 <= k < w1.len() implies is_token_word(itos, b, #[trigger] w1[k])
            || is_spelled_word(itos, b, w1[k]) by {
            assert(w1[k] == ws[k]);
        }
        assert forall|k: int| 0 <= k < w1.len() - 1 implies !(is_spelled_word(
            itos,
            b,
            #[trigger] w1[k],
        ) && is_spelled_word(itos, b, w1[k + 1])) by {
            assert(w1[k] == ws[k]);
            assert(w1[k + 1] == ws[k + 1]);
        }
        lemma_decode_encode_words(itos, b, w1);
        assert(is_token_word(itos, b, ws[ws.len() - 1]) || is_spelled_word(itos, b, ws[ws.len() - 1]));
        lemma_decode_word(itos, b, w);
        let e1 = encode_words(itos, w1);
        let ew = encode_word(itos, w);
        let e = encode_words(itos, ws);
        assert(e == e1 + ew);
        assert(e.last() == ew.last());
        assert forall|k: int| 0 <= k < e.len() implies #[trigger] e[k] < itos.len() by {
            if k < e1.len() {
                assert(e[k] == e1[k]);
            } else {
                assert(e[k] == ew[k - e1.len()]);
            }
        }
        if w1.len() == 0 {
            assert(e1 =~= Seq::<u32>::empty());
            assert(e =~= ew);
        } else {
            lemma_decode_concat(itos, b, e1, ew);
            assert(w1.last() == ws[ws.len() - 2]);
            assert(!(is_spelled_word(itos, b, ws[ws.len() - 2]) && is_spelled_word(
                itos,
                b,
                ws[ws.len() - 1],
            )));
        }
    }
}

/// Law: when each word of `t` is a token word or a spelled word, and no
/// two spelled words follow each other, every id of `t` names a token and
/// decoding the ids of `t` gives the words of `t`, one space apart.
pub proof fn law_decode_encode(itos: Seq<Seq<char>>, boundary: u32, t: Seq<char>)
    requires
        itos.len() <= u32::MAX + 1,
        decodes_back(itos, boundary, words(t)),
    ensures
        forall|k: int|
            0 <= k < encode_text(itos, t).len() ==> #[trigger] encode_text(itos, t)[k]
                < itos.len(),
        decode_ids(itos, boundary, encode_text(itos, t)) == join(words(t), seq![' ']),
{
    lemma_decode_encode_words(itos, boundary, words(t));
}

// ---------------------------------------------------------------------
// Encoding is word by word
// ---------------------------------------------------------------------
proof fn lemma_encode_words_append(itos: Seq<Seq<char>>, a: Seq<Seq<char>>, b: Seq<Seq<char>>)
    ensures
        encode_words(itos, a + b) == encode_words(itos, a) + encode_words(itos, b),
    decreases b.len(),
{
    if b.len() == 0 {
        assert(a + b =~= a);
        assert(encode_words(itos, a) + Seq::<u32>::empty() =~= encode_words(itos, a));
    } else {
        lemma_encode_words_append(itos, a, b.drop_last());
        assert((a + b).drop_last() =~= a + b.drop_last());
        assert((a + b).last() == b.last());
        let ea = encode_words(itos, a);
        let eb1 = encode_words(itos, b.drop_last());
        let ew = encode_word(itos, b.last());
        assert(ea + eb1 + ew =~= ea + (eb1 + ew));
    }
}

/// Law: the ids of two texts joined by a whitespace character are the ids
/// of the first, then those of the second; a text of whitespace only has
/// no ids.
pub proof fn law_encode_append(itos: Seq<Seq<char>>, a: Seq<char>, c: char, b: Seq<char>)
    requires
        is_ws(c),
    ensures
        encode_text(itos, a + seq![c] + b) == encode_text(itos, a) + encode_text(itos, b),
        (forall|k: int| 0 <= k < a.len() ==> is_ws(#[trigger] a[k])) ==> encode_text(itos, a)
            == Seq::<u32>::empty(),
{
    lemma_words_of_append(a, c, b);
    lemma_encode_words_append(itos, words(a), words(b));
    if forall|k: int| 0 <= k < a.len() ==> is_ws(#[trigger] a[k]) {
        lemma_words_of_spaces(a);
    }
}

/// The ids of a list of non-empty words hold at least one id per word.
proof fn lemma_encode_words_len(itos: Seq<Seq<char>>, ws: Seq<Seq<char>>)
    requires
        forall|k: int| 0 <= k < ws.len() ==> (#[trigger] ws[k]).len() > 0,
    ensures
        encode_words(itos, ws).len() >= ws.len(),
    decreases ws.len(),
{
    if ws.len() > 0 {
        let w1 = ws.drop_last();
        assert forall|k: int| 0 <= k < w1.len() implies (#[trigger] w1[k]).len() > 0 by {
            assert(w1[k] == ws[k]);
        }
        lemma_encode_words_len(itos, w1);
        assert(ws[ws.len() - 1].len() > 0);
        assert(encode_word(itos, ws.last()).len() > 0);
    }
}

/// An id that the ids of no single word hold is not among the ids of the
/// list.
proof fn lemma_encode_words_avoid(itos: Seq<Seq<char>>, ws: Seq<Seq<char>>, x: u32)
    requires
        forall|k: int| 0 <= k < ws.len() ==> !(#[trigger] encode_word(itos, ws[k])).contains(x),
    ensures
        !encode_words(itos, ws).contains(x),
    decreases ws.len(),
{
    if ws.len() > 0 {
        let w1 = ws.drop_last();
        assert forall|k: int| 0 <= k < w1.len() implies !(#[trigger] encode_word(itos, w1[k])).contains(x) by {
            assert(w1[k] == ws[k]);
        }
        lemma_encode_words_avoid(itos, w1, x);
        let e1 = encode_words(itos, w1);
        let ew = encode_word(itos, ws.last());
        assert(ws[ws.len() - 1] == ws.last());
        assert(!ew.contains(x));
        let e = encode_words(itos, ws);
        if e.contains(x) {
            let m = choose|m: int| 0 <= m < e.len() && e[m] == x;
            if m < e1.len() {
                assert(e1[m] == x);
            } else {
                assert(ew[m - e1.len()] == x);
            }
        }
    }
}

/// Law: every word of a text gives at least one id.
pub proof fn law_every_word_has_ids(itos: Seq<Seq<char>>, t: Seq<char>)
    ensures
        encode_text(itos, t).len() >= words(t).len(),
{
    lemma_words_are_words(t);
    lemma_encode_words_len(itos, words(t));
}

// ---------------------------------------------------------------------
// The round trip through a learnt tokenizer
// ---------------------------------------------------------------------
/// `w` is one of the words that the vocabulary learnt from `corpus` holds
/// past its characters.
pub open spec fn has_word_token(corpus: Seq<char>, vocab_size: int, w: Seq<char>) -> bool {
    exists|i: int|
        base_vocab(corpus).len() <= i < trained_vocab(corpus, vocab_size).len()
            && #[trigger] trained_vocab(corpus, vocab_size)[i] == w
}

/// Every character of `w` occurs in `corpus`.
pub open spec fn spelled_in(corpus: Seq<char>, w: Seq<char>) -> bool {
    forall|m: int| 0 <= m < w.len() ==> corpus.contains(#[trigger] w[m])
}

/// Under a learnt vocabulary, a word with a word token of its own is a
/// token word, a word spelled from characters of the corpus is a token
/// word or a spelled word, and a spelled word has no word token.
proof fn lemma_trained_word_class(corpus: Seq<char>, vocab_size: int, w: Seq<char>)
    requires
        0 <= vocab_size,
        corpus.len() <= usize::MAX,
        trained_vocab(corpus, vocab_size).len() <= u32::MAX + 1,
        base_vocab(corpus).len() <= u32::MAX,
        is_word(w),
    ensures
        ({
            let v = trained_vocab(corpus, vocab_size);
            let b = base_vocab(corpus).len() as u32;
            &&& has_word_token(corpus, vocab_size, w) ==> is_token_word(v, b, w)
            &&& spelled_in(corpus, w) ==> is_token_word(v, b, w) || is_spelled_word(v, b, w)
            &&& is_spelled_word(v, b, w) ==> !has_word_token(corpus, vocab_size, w)
        }),
{
    let v = trained_vocab(corpus, vocab_size);
    let nb = base_vocab(corpus).len() as int;
    let b = nb as u32;
    let cs = char_set(corpus);
    lemma_trained_vocab_shape(corpus, vocab_size);
    lemma_char_set(corpus);
    lemma_last_index(v, w);
    if has_word_token(corpus, vocab_size, w) {
        let i = choose|i: int| nb <= i < v.len() && #[trigger] v[i] == w;
        lemma_last_index_is(v, w, i);
        assert(!is_char_id(b, i as u32));
    }
    if is_spelled_word(v, b, w) && has_word_token(corpus, vocab_size, w) {
        let i = choose|i: int| nb <= i < v.len() && #[trigger] v[i] == w;
        lemma_last_index_is(v, w, i);
    }
    if spelled_in(corpus, w) && last_index(v, w) is None {
        assert forall|m: int| 0 <= m < w.len() implies is_char_id(b, #[trigger] char_id(v, w[m])) by {
            let c = w[m];
            assert(corpus.contains(c));
            assert(!is_ws(c));
            assert(cs.contains(c));
            let j = choose|j: int| 0 <= j < cs.len() && cs[j] == c;
            assert(v[j + 2] == seq![c]);
            lemma_last_index_is(v, seq![c], j + 2);
        }
    }
}

/// Law: with the vocabulary learnt from `corpus`, when each word of `t`
/// has a word token of its own or is spelled from characters of `corpus`,
/// and of two words in a row at least one has a word token, decoding the
/// ids of `t` gives the words of `t`, one space apart.
pub proof fn law_round_trip(corpus: Seq<char>, vocab_size: int, t: Seq<char>)
    requires
        0 <= vocab_size,
        corpus.len() <= usize::MAX,
        trained_vocab(corpus, vocab_size).len() <= u32::MAX + 1,
        base_vocab(corpus).len() <= u32::MAX,
        forall|k: int|
            0 <= k < words(t).len() ==> has_word_token(corpus, vocab_size, #[trigger] words(t)[k])
                || spelled_in(corpus, words(t)[k]),
        forall|k: int|
            0 <= k < words(t).len() - 1 ==> has_word_token(corpus, vocab_size, #[trigger] words(t)[k])
                || has_word_token(corpus, vocab_size, words(t)[k + 1]),
    ensures
        decode_ids(
            trained_vocab(corpus, vocab_size),
            base_vocab(corpus).len() as u32,
            encode_text(trained_vocab(corpus, vocab_size), t),
        ) == join(words(t), seq![' ']),
{
    let v = trained_vocab(corpus, vocab_size);
    let b = base_vocab(corpus).len() as u32;
    let ws = words(t);
    lemma_words_are_words(t);
    assert forall|k: int| 0 <= k < ws.len() implies is_token_word(v, b, #[trigger] ws[k])
        || is_spelled_word(v, b, ws[k]) by {
        lemma_trained_word_class(corpus, vocab_size, ws[k]);
    }
    assert forall|k: int| 0 <= k < ws.len() - 1 implies !(is_spelled_word(v, b, #[trigger] ws[k])
        && is_spelled_word(v, b, ws[k + 1])) by {
        lemma_trained_word_class(corpus, vocab_size, ws[k]);
        lemma_trained_word_class(corpus, vocab_size, ws[k + 1]);
    }
    assert(decodes_back(v, b, ws));
    law_decode_encode(v, b, t);
}

// ---------------------------------------------------------------------
// What the ids of one word are
// ---------------------------------------------------------------------
/// Law: the ids of a word. A word that is a token gets one id: a position
/// of that token, the last one. A word that is no token gets one id per
/// character, each decided by that character alone: the last position of
/// the character's one-character token when the vocabulary has one, else
/// the unknown id.
pub proof fn law_word_ids(itos: Seq<Seq<char>>, w: Seq<char>)
    requires
        itos.len() <= u32::MAX + 1,
    ensures
        (exists|i: int| 0 <= i < itos.len() && #[trigger] itos[i] == w) ==> {
            let e = encode_word(itos, w);
            &&& e.len() == 1
            &&& e[0] < itos.len()
            &&& itos[e[0] as int] == w
            &&& forall|j: int| e[0] < j < itos.len() ==> #[trigger] itos[j] != w
        },
        (forall|i: int| 0 <= i < itos.len() ==> #[trigger] itos[i] != w) ==> {
            let e = encode_word(itos, w);
            &&& e.len() == w.len()
            &&& forall|k: int|
                0 <= k < w.len() && (exists|i: int| 0 <= i < itos.len() && #[trigger] itos[i] == seq![w[k]])
                    ==> {
                    &&& #[trigger] e[k] < itos.len()
                    &&& itos[e[k] as int] == seq![w[k]]
                    &&& forall|j: int| e[k] < j < itos.len() ==> #[trigger] itos[j] != seq![w[k]]
                }
            &&& forall|k: int|
                0 <= k < w.len() && (forall|i: int| 0 <= i < itos.len() ==> #[trigger] itos[i] != seq![w[k]])
                    ==> #[trigger] e[k] == UNK_ID
        },
{
    lemma_last_index(itos, w);
    let e = encode_word(itos, w);
    if forall|i: int| 0 <= i < itos.len() ==> #[trigger] itos[i] != w {
        assert(last_index(itos, w) is None);
        assert forall|k: int|
            0 <= k < w.len() && (exists|i: int| 0 <= i < itos.len() && #[trigger] itos[i] == seq![w[k]])
                implies {
                &&& #[trigger] e[k] < itos.len()
                &&& itos[e[k] as int] == seq![w[k]]
                &&& forall|j: int| e[k] < j < itos.len() ==> #[trigger] itos[j] != seq![w[k]]
            } by {
            lemma_last_index(itos, seq![w[k]]);
            let i = choose|i: int| 0 <= i < itos.len() && #[trigger] itos[i] == seq![w[k]];
            assert(last_index(itos, seq![w[k]]) is Some);
        }
        assert forall|k: int|
            0 <= k < w.len() && (forall|i: int| 0 <= i < itos.len() ==> #[trigger] itos[i] != seq![w[k]])
                implies #[trigger] e[k] == UNK_ID by {
            lemma_last_index(itos, seq![w[k]]);
            if last_index(itos, seq![w[k]]) is Some {
                let i = last_index(itos, seq![w[k]])->0;
                assert(itos[i] == seq![w[k]]);
            }
        }
    } else {
        let i0 = choose|i: int| 0 <= i < itos.len() && #[trigger] itos[i] == w;
        assert(itos[i0] == w);
    }
}

// ---------------------------------------------------------------------
// A learnt vocabulary is filled with the most frequent words
// ---------------------------------------------------------------------
/// `count_of` counts the occurrences of a word.
proof fn lemma_count_of_multiset(ws: Seq<Seq<char>>, w: Seq<char>)
    ensures
        count_of(ws, w) == ws.to_multiset().count(w),
    decreases ws.len(),
{
    broadcast use vstd::multiset::group_multiset_axioms;

    if ws.len() == 0 {
        assert(ws.to_multiset() =~= vstd::multiset::Multiset::<Seq<char>>::empty()) by {
            ws.to_multiset_ensures();
        }
    } else {
        let w1 = ws.drop_last();
        lemma_count_of_multiset(w1, w);
        w1.to_multiset_ensures();
        assert(w1.push(ws.last()) =~= ws);
    }
}

/// What `missing_from` keeps holds every word of `ws` that `base` lacks.
proof fn lemma_missing_from_keeps(base: Seq<Seq<char>>, ws: Seq<Seq<char>>, w: Seq<char>)
    requires
        ws.contains(w),
        !base.contains(w),
    ensures
        missing_from(base, ws).contains(w),
    decreases ws.len(),
{
    let w1 = ws.drop_last();
    let r = missing_from(base, w1);
    if ws.last() == w {
        assert(missing_from(base, ws) == r.push(w));
        assert(r.push(w)[r.len() as int] == w);
    } else {
        let k = choose|k: int| 0 <= k < ws.len() && ws[k] == w;
        assert(w1[k] == w);
        lemma_missing_from_keeps(base, w1, w);
        let j = choose|j: int| 0 <= j < r.len() && r[j] == w;
        if !base.contains(ws.last()) {
            assert(r.push(ws.last())[j] == w);
        }
    }
}

/// What `missing_from` keeps of a list in non-increasing order of `f` is
/// in non-increasing order of `f`.
proof fn lemma_missing_from_descending(
    base: Seq<Seq<char>>,
    ws: Seq<Seq<char>>,
    f: spec_fn(Seq<char>) -> nat,
)
    requires
        forall|x: int, y: int| 0 <= x < y < ws.len() ==> f(#[trigger] ws[x]) >= f(#[trigger] ws[y]),
    ensures
        forall|x: int, y: int|
            0 <= x < y < missing_from(base, ws).len() ==> f(#[trigger] missing_from(base, ws)[x])
                >= f(#[trigger] missing_from(base, ws)[y]),
    decreases ws.len(),
{
    if ws.len() > 0 {
        let w1 = ws.drop_last();
        assert forall|x: int, y: int| 0 <= x < y < w1.len() implies f(#[trigger] w1[x]) >= f(
            #[trigger] w1[y],
        ) by {
            assert(w1[x] == ws[x] && w1[y] == ws[y]);
        }
        lemma_missing_from_descending(base, w1, f);
        let r = missing_from(base, w1);
        let z = ws.last();
        if !base.contains(z) {
            let r2 = r.push(z);
            assert forall|x: int, y: int| 0 <= x < y < r2.len() implies f(#[trigger] r2[x]) >= f(
                #[trigger] r2[y],
            ) by {
                if y == r.len() {
                    assert(r.contains(r[x]));
                    lemma_missing_from_contains(base, w1, r[x]);
                    let k = choose|k: int| 0 <= k < w1.len() && w1[k] == r[x];
                    assert(ws[k] == r[x]);
                    assert(ws[ws.len() - 1] == z);
                } else {
                    assert(r2[x] == r[x] && r2[y] == r[y]);
                }
            }
        }
    }
}

/// Law: a learnt vocabulary is filled with words of the text. Its tokens
/// past the characters are words of the text; when a word of the text is
/// left out, the vocabulary has at least `vocab_size` tokens; and no word
/// left out occurs more often in the text than a word that was kept.
pub proof fn law_vocab_filled(t: Seq<char>, vocab_size: int)
    requires
        0 <= vocab_size,
        t.len() <= usize::MAX,
    ensures
        ({
            let v = trained_vocab(t, vocab_size);
            let nb = base_vocab(t).len() as int;
            let ws = words(t);
            &&& forall|i: int| nb <= i < v.len() ==> ws.contains(#[trigger] v[i])
            &&& forall|w: Seq<char>| #[trigger] ws.contains(w) && !v.contains(w) ==> v.len() >= vocab_size
            &&& forall|i: int, w: Seq<char>|
                nb <= i < v.len() && #[trigger] ws.contains(w) && !v.contains(w)
                    ==> ws.to_multiset().count(#[trigger] v[i]) >= ws.to_multiset().count(w)
        }),
{
    let v = trained_vocab(t, vocab_size);
    let base = base_vocab(t);
    let nb = base.len() as int;
    let ws = words(t);
    lemma_trained_vocab_shape(t, vocab_size);
    lemma_words_facts(t);
    lemma_freq_order(ws);
    lemma_distinct_words(ws);
    let d = distinct_words(ws);
    let p = freq_order(ws);
    let order = words_by_freq(ws);
    let c = word_counts(ws);
    let f = |x: Seq<char>| count_of(ws, x);
    assert(strict_total(freq_lt(c)));
    lemma_sorted_distinct(p, freq_lt(c));
    assert(order.len() == p.len());
    assert forall|k: int| 0 <= k < order.len() implies #[trigger] order[k] == d[p[k] as int] && (
    p[k] as int) < d.len() by {
        assert(p.contains(p[k]));
    }
    assert forall|x: int, y: int| 0 <= x < y < order.len() implies f(#[trigger] order[x]) >= f(
        #[trigger] order[y],
    ) by {
        assert(p.contains(p[x]) && p.contains(p[y]));
        assert(is_freq_order(p, c));
        assert((p[x] as int) < d.len() && (p[y] as int) < d.len());
        assert(order[x] == d[p[x] as int]);
        assert(order[y] == d[p[y] as int]);
        assert(c.len() == d.len());
        assert(freq_lt(c)(p[x], p[y]));
        assert(c[p[x] as int] == count_of(ws, d[p[x] as int]));
        assert(c[p[y] as int] == count_of(ws, d[p[y] as int]));
    }
    let cand = missing_from(base, order);
    lemma_missing_from_descending(base, order, f);
    let room = if vocab_size > nb {
        vocab_size - nb
    } else {
        0
    };
    let m = if cand.len() < room {
        cand.len() as int
    } else {
        room
    };
    assert(v == base + cand.take(m));
    assert forall|w: Seq<char>| #[trigger] ws.contains(w) && !v.contains(w) implies v.len()
        >= vocab_size && forall|i: int|
        nb <= i < v.len() ==> ws.to_multiset().count(#[trigger] v[i]) >= ws.to_multiset().count(
            w,
        ) by {
        assert(d.contains(w));
        let a = choose|a: int| 0 <= a < d.len() && d[a] == w;
        lemma_distinct_len(ws);
        assert((a as usize) as int == a);
        assert(p.contains(a as usize));
        let x = choose|x: int| 0 <= x < p.len() && p[x] == a as usize;
        assert(order[x] == d[p[x] as int]);
        assert(order[x] == w);
        assert(!base.contains(w)) by {
            if base.contains(w) {
                let b = choose|b: int| 0 <= b < base.len() && base[b] == w;
                assert(v[b] == w);
            }
        }
        lemma_missing_from_keeps(base, order, w);
        let y = choose|y: int| 0 <= y < cand.len() && cand[y] == w;
        if y < m {
            assert(v[nb + y] == w);
        }
        assert(m < cand.len());
        assert forall|i: int| nb <= i < v.len() implies ws.to_multiset().count(#[trigger] v[i])
            >= ws.to_multiset().count(w) by {
            assert(v[i] == cand[i - nb]);
            assert(f(cand[i - nb]) >= f(cand[y]));
            lemma_count_of_multiset(ws, v[i]);
            lemma_count_of_multiset(ws, w);
        }
    }
}

} // verus!
