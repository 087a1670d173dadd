//! Character-level text handling: whitespace, splitting into words and
//! lines, trimming and prefixes, all over sequences of `char`.
use vstd::prelude::*;

verus! {

/// Unicode `White_Space`, the set of characters that `char::is_whitespace`
/// reports and on which `str::split_whitespace` and `str::trim` act.
pub open spec fn is_ws(c: char) -> bool {
    let u = c as u32;
    ||| 0x09 <= u <= 0x0d
    ||| u == 0x20
    ||| u == 0x85
    ||| u == 0xa0
    ||| u == 0x1680
    ||| 0x2000 <= u <= 0x200a
    ||| u == 0x2028
    ||| u == 0x2029
    ||| u == 0x202f
    ||| u == 0x205f
    ||| u == 0x3000
}

/// Whether `c` is a whitespace character.
pub fn is_space(c: char) -> (b: bool)
    ensures
        b == is_ws(c),
{
    let u = c as u32;
    (0x09 <= u && u <= 0x0d) || u == 0x20 || u == 0x85 || u == 0xa0 || u == 0x1680 || (0x2000
        <= u && u <= 0x200a) || u == 0x2028 || u == 0x2029 || u == 0x202f || u == 0x205f || u
        == 0x3000
}

/// The characters of a string slice, in order.
pub fn chars_of(s: &str) -> (out: Vec<char>)
    ensures
        out@ == s@,
{
    let mut out: Vec<char> = Vec::new();
    for c in it: s.chars()
        invariant
            it.seq() == s@,
            out@ == s@.take(it.index() as int),
    {
        out.push(c);
    }
    out
}

/// `String::push`: appends the character `c` at the end of `s`.
#[verifier::external_body]
fn push_char(s: &mut String, c: char)
    ensures
        final(s)@ == old(s)@.push(c),
{
    s.push(c);
}

/// Appends the characters `cs` at the end of `s`.
pub fn push_chars(s: &mut String, cs: &[char])
    ensures
        final(s)@ == old(s)@ + cs@,
{
    let ghost start = s@;
    for i in 0..cs.len()
        invariant
            s@ == start + cs@.take(i as int),
    {
        push_char(s, cs[i]);
        assert(cs@.take(i + 1) == cs@.take(i as int).push(cs@[i as int]));
    }
    assert(cs@.take(cs.len() as int) == cs@);
}

/// The string made of the characters `cs`.
pub fn string_from_chars(cs: &[char]) -> (out: String)
    ensures
        out@ == cs@,
{
    let mut out = String::new();
    push_chars(&mut out, cs);
    out
}

/// A copy of `s[from..to]`.
pub fn copy_range(s: &[char], from: usize, to: usize) -> (out: Vec<char>)
    requires
        from <= to <= s.len(),
    ensures
        out@ == s@.subrange(from as int, to as int),
{
    let mut out: Vec<char> = Vec::new();
    let mut i = from;
    while i < to
        invariant
            from <= i <= to <= s.len(),
            out@ == s@.subrange(from as int, i as int),
        decreases to - i,
    {
        out.push(s[i]);
        i += 1;
        assert(out@ == s@.subrange(from as int, i as int));
    }
    out
}

/// Whether the two character sequences are equal.
pub fn chars_eq(a: &[char], b: &[char]) -> (eq: bool)
    ensures
        eq == (a@ == b@),
{
    if a.len() != b.len() {
        return false;
    }
    let mut i: usize = 0;
    while i < a.len()
        invariant
            a.len() == b.len(),
            0 <= i <= a.len(),
            forall|k: int| 0 <= k < i ==> a@[k] == b@[k],
        decreases a.len() - i,
    {
        if a[i] != b[i] {
            return false;
        }
        i += 1;
    }
    assert(a@ =~= b@);
    true
}

// ---------------------------------------------------------------------
// Words
// ---------------------------------------------------------------------
/// One step of splitting on whitespace: the words closed so far and the
/// word being read, after reading `c`.
pub open spec fn word_step(st: (Seq<Seq<char>>, Seq<char>), c: char) -> (
    Seq<Seq<char>>,
    Seq<char>,
) {
    if is_ws(c) {
        if st.1.len() > 0 {
            (st.0.push(st.1), Seq::empty())
        } else {
            (st.0, Seq::empty())
        }
    } else {
        (st.0, st.1.push(c))
    }
}

/// The state reached after reading `s` from the state `st`.
pub open spec fn word_run(st: (Seq<Seq<char>>, Seq<char>), s: Seq<char>) -> (
    Seq<Seq<char>>,
    Seq<char>,
)
    decreases s.len(),
{
    if s.len() == 0 {
        st
    } else {
        word_step(word_run(st, s.drop_last()), s.last())
    }
}

/// The words of `s`: its maximal runs of non-whitespace characters, in
/// order, as `str::split_whitespace` yields them.
pub open spec fn words(s: Seq<char>) -> Seq<Seq<char>> {
    let st = word_run((Seq::empty(), Seq::empty()), s);
    if st.1.len() > 0 {
        st.0.push(st.1)
    } else {
        st.0
    }
}

/// No character of `w` is whitespace.
pub open spec fn no_ws(w: Seq<char>) -> bool {
    forall|k: int| 0 <= k < w.len() ==> !is_ws(#[trigger] w[k])
}

/// A word as `words` produces it: non-empty, without whitespace.
pub open spec fn is_word(w: Seq<char>) -> bool {
    w.len() > 0 && no_ws(w)
}

/// The sequences of `ws`, with `sep` between each two of them.
pub open spec fn join(ws: Seq<Seq<char>>, sep: Seq<char>) -> Seq<char>
    decreases ws.len(),
{
    if ws.len() == 0 {
        Seq::empty()
    } else if ws.len() == 1 {
        ws[0]
    } else {
        join(ws.drop_last(), sep) + sep + ws.last()
    }
}

/// The words of the characters `text`, as `str::split_whitespace` gives
/// them.
pub fn split_words(text: &[char]) -> (out: Vec<Vec<char>>)
    ensures
        out@.len() == words(text@).len(),
        forall|i: int| 0 <= i < out@.len() ==> #[trigger] out@[i]@ == words(text@)[i],
{
    let mut done: Vec<Vec<char>> = Vec::new();
    let mut cur: Vec<char> = Vec::new();
    let ghost init: (Seq<Seq<char>>, Seq<char>) = (Seq::empty(), Seq::empty());
    for i in 0..text.len()
        invariant
            done@.len() == word_run(init, text@.take(i as int)).0.len(),
            forall|k: int|
                0 <= k < done@.len() ==> #[trigger] done@[k]@ == word_run(
                    init,
                    text@.take(i as int),
                ).0[k],
            cur@ == word_run(init, text@.take(i as int)).1,
    {
        assert(text@.take(i + 1).drop_last() == text@.take(i as int));
        let c = text[i];
        if is_space(c) {
            if cur.len() > 0 {
                let w = cur;
                cur = Vec::new();
                done.push(w);
            } else {
                cur = Vec::new();
            }
        } else {
            cur.push(c);
        }
    }
    assert(text@.take(text.len() as int) == text@);
    if cur.len() > 0 {
        done.push(cur);
    }
    done
}

/// Every word in a run of the splitter is a word: non-empty, without
/// whitespace; the word being read has no whitespace.
proof fn lemma_word_run_words(s: Seq<char>)
    ensures
        forall|k: int|
            0 <= k < word_run((Seq::empty(), Seq::empty()), s).0.len() ==> is_word(
                #[trigger] word_run((Seq::empty(), Seq::empty()), s).0[k],
            ),
        no_ws(word_run((Seq::empty(), Seq::empty()), s).1),
    decreases s.len(),
{
    if s.len() > 0 {
        lemma_word_run_words(s.drop_last());
        let prev = word_run((Seq::empty(), Seq::empty()), s.drop_last());
        let c = s.last();
        if !is_ws(c) {
            assert forall|k: int| 0 <= k < prev.1.push(c).len() implies !is_ws(
                #[trigger] prev.1.push(c)[k],
            ) by {
                if k < prev.1.len() {
                    assert(prev.1.push(c)[k] == prev.1[k]);
                }
            }
        }
    }
}

/// Each word that `words` yields is non-empty and holds no whitespace.
pub proof fn lemma_words_are_words(s: Seq<char>)
    ensures
        forall|k: int| 0 <= k < words(s).len() ==> is_word(#[trigger] words(s)[k]),
{
    lemma_word_run_words(s);
}

/// Reading characters that are not whitespace only extends the current word.
proof fn lemma_word_run_no_ws(st: (Seq<Seq<char>>, Seq<char>), w: Seq<char>)
    requires
        no_ws(w),
    ensures
        word_run(st, w) == (st.0, st.1 + w),
    decreases w.len(),
{
    if w.len() == 0 {
        assert(st.1 + w =~= st.1);
    } else {
        assert(no_ws(w.drop_last())) by {
            assert forall|k: int| 0 <= k < w.drop_last().len() implies !is_ws(
                #[trigger] w.drop_last()[k],
            ) by {
                assert(w.drop_last()[k] == w[k]);
            }
        }
        lemma_word_run_no_ws(st, w.drop_last());
        assert(!is_ws(w[w.len() - 1]));
        assert(st.1 + w.drop_last() + seq![w.last()] =~= st.1 + w);
        assert((st.1 + w.drop_last()).push(w.last()) =~= st.1 + w);
    }
}

/// Running the splitter over `a + b` is running it over `a`, then over `b`.
pub proof fn lemma_word_run_append(st: (Seq<Seq<char>>, Seq<char>), a: Seq<char>, b: Seq<char>)
    ensures
        word_run(st, a + b) == word_run(word_run(st, a), b),
    decreases b.len(),
{
    if b.len() == 0 {
        assert(a + b =~= a);
    } else {
        lemma_word_run_append(st, a, b.drop_last());
        assert((a + b).drop_last() =~= a + b.drop_last());
        assert((a + b).last() == b.last());
    }
}

/// Splitting the words joined by single spaces gives back the words.
pub proof fn lemma_words_of_join(ws: Seq<Seq<char>>)
    requires
        forall|k: int| 0 <= k < ws.len() ==> is_word(#[trigger] ws[k]),
    ensures
        words(join(ws, seq![' '])) == ws,
{
    if ws.len() > 0 {
        lemma_run_of_join(ws);
        assert(ws.drop_last().push(ws.last()) =~= ws);
    }
}

proof fn lemma_run_of_join(ws: Seq<Seq<char>>)
    requires
        ws.len() > 0,
        forall|k: int| 0 <= k < ws.len() ==> is_word(#[trigger] ws[k]),
    ensures
        word_run((Seq::empty(), Seq::empty()), join(ws, seq![' '])) == (
            ws.drop_last(),
            ws.last(),
        ),
    decreases ws.len(),
{
    let init: (Seq<Seq<char>>, Seq<char>) = (Seq::empty(), Seq::empty());
    if ws.len() == 1 {
        assert(is_word(ws[0]));
        lemma_word_run_no_ws(init, ws[0]);
        assert(Seq::<char>::empty() + ws[0] =~= ws[0]);
        assert(ws.drop_last() =~= Seq::<Seq<char>>::empty());
    } else {
        let prev = ws.drop_last();
        assert forall|k: int| 0 <= k < prev.len() implies is_word(#[trigger] prev[k]) by {
            assert(prev[k] == ws[k]);
        }
        lemma_run_of_join(prev);
        let j = join(prev, seq![' ']);
        let w = ws.last();
        assert(is_word(ws[ws.len() - 1]));
        assert(join(ws, seq![' ']) == j + seq![' '] + w);
        lemma_word_run_append(init, j + seq![' '], w);
        lemma_word_run_append(init, j, seq![' ']);
        assert(seq![' '].drop_last() =~= Seq::<char>::empty());
        assert(is_ws(' '));
        let before = word_run(init, j);
        let sp: Seq<char> = seq![' '];
        assert(sp.len() == 1);
        assert(sp.last() == ' ');
        assert(sp.drop_last() =~= Seq::<char>::empty());
        assert(word_run(before, sp.drop_last()) == before);
        assert(word_run(before, sp) == word_step(before, ' '));
        assert(is_word(prev[prev.len() - 1]));
        let after_space = word_run(init, j + seq![' ']);
        assert(after_space == (prev.drop_last().push(prev.last()), Seq::<char>::empty()));
        assert(prev.drop_last().push(prev.last()) =~= prev);
        lemma_word_run_no_ws(after_space, w);
        assert(Seq::<char>::empty() + w =~= w);
    }
}

/// The views of a list of strings.
pub open spec fn string_views(v: Seq<String>) -> Seq<Seq<char>> {
    v.map_values(|s: String| s@)
}

/// The words of `text`: its maximal runs of non-whitespace characters, in
/// order.
pub fn tokenize(text: &str) -> (out: Vec<String>)
    ensures
        string_views(out@) == words(text@),
{
    let t = chars_of(text);
    let ws = split_words(&t);
    let mut out: Vec<String> = Vec::new();
    for i in 0..ws.len()
        invariant
            ws@.len() == words(t@).len(),
            forall|k: int| 0 <= k < ws@.len() ==> #[trigger] ws@[k]@ == words(t@)[k],
            string_views(out@) == words(t@).take(i as int),
    {
        let ghost before = out@;
        out.push(string_from_chars(ws[i].as_slice()));
        assert(string_views(out@) =~= string_views(before).push(ws@[i as int]@));
        assert(words(t@).take(i + 1) == words(t@).take(i as int).push(words(t@)[i as int]));
    }
    assert(words(t@).take(ws.len() as int) == words(t@));
    out
}

/// Reading `b` after closed words `ws` and no open word adds to `ws` what
/// reading `b` alone closes.
proof fn lemma_word_run_after(ws: Seq<Seq<char>>, b: Seq<char>)
    ensures
        word_run((ws, Seq::empty()), b) == (
            ws + word_run((Seq::empty(), Seq::empty()), b).0,
            word_run((Seq::empty(), Seq::empty()), b).1,
        ),
    decreases b.len(),
{
    if b.len() == 0 {
        assert(ws + Seq::<Seq<char>>::empty() =~= ws);
    } else {
        lemma_word_run_after(ws, b.drop_last());
        let r = word_run((Seq::<Seq<char>>::empty(), Seq::<char>::empty()), b.drop_last());
        assert((ws + r.0).push(r.1) =~= ws + r.0.push(r.1));
    }
}

/// The words of two texts joined by a whitespace character are the words
/// of the first, then those of the second.
pub proof fn lemma_words_of_append(a: Seq<char>, c: char, b: Seq<char>)
    requires
        is_ws(c),
    ensures
        words(a + seq![c] + b) == words(a) + words(b),
{
    let init: (Seq<Seq<char>>, Seq<char>) = (Seq::empty(), Seq::empty());
    lemma_word_run_append(init, a + seq![c], b);
    lemma_word_run_append(init, a, seq![c]);
    let ra = word_run(init, a);
    let sp: Seq<char> = seq![c];
    assert(sp.drop_last() =~= Seq::<char>::empty());
    assert(sp.len() == 1);
    assert(sp.last() == c);
    assert(word_run(ra, sp.drop_last()) == ra);
    assert(word_run(ra, sp) == word_step(ra, c));
    assert(word_run(init, a + sp).0 == words(a));
    assert(word_run(init, a + sp).1 == Seq::<char>::empty());
    lemma_word_run_after(words(a), b);
    let rb = word_run(init, b);
    if rb.1.len() > 0 {
        assert((words(a) + rb.0).push(rb.1) =~= words(a) + rb.0.push(rb.1));
    }
}

/// A text of whitespace only has no words.
pub proof fn lemma_words_of_spaces(s: Seq<char>)
    requires
        forall|k: int| 0 <= k < s.len() ==> is_ws(#[trigger] s[k]),
    ensures
        words(s) == Seq::<Seq<char>>::empty(),
{
    lemma_word_run_spaces(s);
}

proof fn lemma_word_run_spaces(s: Seq<char>)
    requires
        forall|k: int| 0 <= k < s.len() ==> is_ws(#[trigger] s[k]),
    ensures
        word_run((Seq::empty(), Seq::empty()), s) == (
            Seq::<Seq<char>>::empty(),
            Seq::<char>::empty(),
        ),
    decreases s.len(),
{
    if s.len() > 0 {
        assert forall|k: int| 0 <= k < s.drop_last().len() implies is_ws(
            #[trigger] s.drop_last()[k],
        ) by {
            assert(s.drop_last()[k] == s[k]);
        }
        lemma_word_run_spaces(s.drop_last());
        assert(is_ws(s[s.len() - 1]));
    }
}

// ---------------------------------------------------------------------
// Trimming and prefixes
// ---------------------------------------------------------------------
/// `s` without its leading whitespace.
pub open spec fn trim_start(s: Seq<char>) -> Seq<char>
    decreases s.len(),
{
    if s.len() > 0 && is_ws(s[0]) {
        trim_start(s.drop_first())
    } else {
        s
    }
}

/// `s` without its trailing whitespace.
pub open spec fn trim_end(s: Seq<char>) -> Seq<char>
    decreases s.len(),
{
    if s.len() > 0 && is_ws(s.last()) {
        trim_end(s.drop_last())
    } else {
        s
    }
}

/// `s` without leading and trailing whitespace, as `str::trim` gives it.
pub open spec fn trim(s: Seq<char>) -> Seq<char> {
    trim_end(trim_start(s))
}

/// Dropping leading whitespace drops the first `i` characters of `s`, all
/// of them whitespace, and leaves a text that does not begin with one.
proof fn lemma_trim_start(s: Seq<char>) -> (i: int)
    ensures
        0 <= i <= s.len(),
        trim_start(s) == s.skip(i),
        forall|k: int| 0 <= k < i ==> is_ws(#[trigger] s[k]),
        trim_start(s).len() > 0 ==> !is_ws(trim_start(s)[0]),
    decreases s.len(),
{
    if s.len() > 0 && is_ws(s[0]) {
        let i1 = lemma_trim_start(s.drop_first());
        assert(s.drop_first().skip(i1) =~= s.skip(i1 + 1));
        assert forall|k: int| 0 <= k < i1 + 1 implies is_ws(#[trigger] s[k]) by {
            if k > 0 {
                assert(s[k] == s.drop_first()[k - 1]);
            }
        }
        i1 + 1
    } else {
        assert(s.skip(0) =~= s);
        0
    }
}

/// Dropping trailing whitespace keeps the first `j` characters of `s`, all
/// those after them whitespace, and leaves a text that does not end with
/// one.
proof fn lemma_trim_end(s: Seq<char>) -> (j: int)
    ensures
        0 <= j <= s.len(),
        trim_end(s) == s.take(j),
        forall|k: int| j <= k < s.len() ==> is_ws(#[trigger] s[k]),
        trim_end(s).len() > 0 ==> !is_ws(trim_end(s).last()),
    decreases s.len(),
{
    if s.len() > 0 && is_ws(s.last()) {
        let j1 = lemma_trim_end(s.drop_last());
        assert(s.drop_last().take(j1) =~= s.take(j1));
        assert forall|k: int| j1 <= k < s.len() implies is_ws(#[trigger] s[k]) by {
            if k < s.len() - 1 {
                assert(s[k] == s.drop_last()[k]);
            }
        }
        j1
    } else {
        assert(s.take(s.len() as int) =~= s);
        s.len() as int
    }
}

/// Law: trimming removes whitespace only, from both ends, and all of it
/// there: the result is a piece of `s` with only whitespace before and
/// after it in `s`, and it neither begins nor ends with whitespace.
pub proof fn law_trim(s: Seq<char>)
    ensures
        trim(s).len() > 0 ==> !is_ws(trim(s)[0]) && !is_ws(trim(s).last()),
        exists|i: int|
            0 <= i && i + trim(s).len() <= s.len() && #[trigger] s.subrange(i, i + trim(s).len())
                == trim(s) && (forall|k: int| 0 <= k < i ==> is_ws(#[trigger] s[k])) && (forall|
                k: int,
            |
                i + trim(s).len() <= k < s.len() ==> is_ws(#[trigger] s[k])),
{
    let i = lemma_trim_start(s);
    let u = trim_start(s);
    let j = lemma_trim_end(u);
    let r = trim(s);
    assert(r == u.take(j));
    assert(r =~= s.subrange(i, i + j));
    if r.len() > 0 {
        assert(r[0] == u[0]);
    }
    assert forall|k: int| i + r.len() <= k < s.len() implies is_ws(#[trigger] s[k]) by {
        assert(s[k] == u[k - i]);
    }
    assert(s.subrange(i, i + r.len()) == r);
}

/// Whether `s` begins with `p`.
pub open spec fn starts_with(s: Seq<char>, p: Seq<char>) -> bool {
    p.len() <= s.len() && s.take(p.len() as int) == p
}

/// `s[from..to]` without leading and trailing whitespace.
pub fn trim_range(s: &[char], from: usize, to: usize) -> (out: Vec<char>)
    requires
        from <= to <= s.len(),
    ensures
        out@ == trim(s@.subrange(from as int, to as int)),
{
    let ghost t = s@.subrange(from as int, to as int);
    let mut i = from;
    while i < to && is_space(s[i])
        invariant
            from <= i <= to <= s.len(),
            trim_start(t) == trim_start(s@.subrange(i as int, to as int)),
        decreases to - i,
    {
        assert(s@.subrange(i as int, to as int).drop_first() =~= s@.subrange(
            i + 1,
            to as int,
        ));
        i += 1;
    }
    assert(trim_start(t) == s@.subrange(i as int, to as int));
    let mut j = to;
    while j > i && is_space(s[j - 1])
        invariant
            from <= i <= j <= to <= s.len(),
            trim(t) == trim_end(s@.subrange(i as int, j as int)),
        decreases j,
    {
        assert(s@.subrange(i as int, j as int).drop_last() =~= s@.subrange(
            i as int,
            j - 1,
        ));
        j -= 1;
    }
    copy_range(s, i, j)
}

/// Whether `s` begins with `p`.
pub fn has_prefix(s: &[char], p: &[char]) -> (b: bool)
    ensures
        b == starts_with(s@, p@),
{
    if p.len() > s.len() {
        return false;
    }
    let mut i: usize = 0;
    while i < p.len()
        invariant
            p.len() <= s.len(),
            0 <= i <= p.len(),
            forall|k: int| 0 <= k < i ==> s@[k] == p@[k],
        decreases p.len() - i,
    {
        if s[i] != p[i] {
            assert(s@.take(p.len() as int)[i as int] != p@[i as int]);
            return false;
        }
        i += 1;
    }
    assert(s@.take(p.len() as int) =~= p@);
    true
}

/// The text after `prefix`, trimmed, when `text` begins with `prefix`;
/// else the whole text, trimmed.
pub fn strip_prefix(text: &str, prefix: &str) -> (out: String)
    ensures
        out@ == (if starts_with(text@, prefix@) {
            trim(text@.skip(prefix@.len() as int))
        } else {
            trim(text@)
        }),
{
    let t = chars_of(text);
    let p = chars_of(prefix);
    let kept = if has_prefix(&t, &p) {
        assert(t@.subrange(p@.len() as int, t@.len() as int) == t@.skip(p@.len() as int));
        trim_range(&t, p.len(), t.len())
    } else {
        assert(t@.subrange(0, t@.len() as int) == t@);
        trim_range(&t, 0, t.len())
    };
    string_from_chars(&kept)
}

// ---------------------------------------------------------------------
// Lines
// ---------------------------------------------------------------------
/// A line as `str::lines` yields it once its `'\n'` is read: without a
/// final `'\r'`.
pub open spec fn strip_cr(l: Seq<char>) -> Seq<char> {
    if l.len() > 0 && l.last() == '\r' {
        l.drop_last()
    } else {
        l
    }
}

/// The lines closed so far and the line being read, after reading `s`.
pub open spec fn line_run(s: Seq<char>) -> (Seq<Seq<char>>, Seq<char>)
    decreases s.len(),
{
    if s.len() == 0 {
        (Seq::empty(), Seq::empty())
    } else {
        let st = line_run(s.drop_last());
        if s.last() == '\n' {
            (st.0.push(strip_cr(st.1)), Seq::empty())
        } else {
            (st.0, st.1.push(s.last()))
        }
    }
}

/// The lines of `s`, as `str::lines` yields them: split at each `'\n'`,
/// a `'\r'` before the `'\n'` removed, and no empty line after a final
/// `'\n'`.
pub open spec fn lines(s: Seq<char>) -> Seq<Seq<char>> {
    let st = line_run(s);
    if st.1.len() > 0 {
        st.0.push(st.1)
    } else {
        st.0
    }
}

/// The lines of `text`, as `str::lines` yields them.
pub fn split_lines(text: &[char]) -> (out: Vec<Vec<char>>)
    ensures
        out@.len() == lines(text@).len(),
        forall|i: int| 0 <= i < out@.len() ==> #[trigger] out@[i]@ == lines(text@)[i],
{
    let mut done: Vec<Vec<char>> = Vec::new();
    let mut cur: Vec<char> = Vec::new();
    for i in 0..text.len()
        invariant
            done@.len() == line_run(text@.take(i as int)).0.len(),
            forall|k: int|
                0 <= k < done@.len() ==> #[trigger] done@[k]@ == line_run(
                    text@.take(i as int),
                ).0[k],
            cur@ == line_run(text@.take(i as int)).1,
    {
        assert(text@.take(i + 1).drop_last() == text@.take(i as int));
        let c = text[i];
        if c == '\n' {
            let mut line = cur;
            if line.len() > 0 && line[line.len() - 1] == '\r' {
                line.pop();
            }
            cur = Vec::new();
            done.push(line);
        } else {
            cur.push(c);
        }
    }
    assert(text@.take(text.len() as int) == text@);
    if cur.len() > 0 {
        done.push(cur);
    }
    done
}

} // verus!
