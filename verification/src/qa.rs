//! Question and answer text: reading `Pregunta:` / `Respuesta:` pairs out
//! of a file, and the prompt that asks a question.
use crate::text::{
    chars_of, has_prefix, join, lines, string_views, push_chars, split_lines, starts_with, trim, trim_range,
};
use vstd::prelude::*;

verus! {

/// The marker of a question line.
pub open spec fn question_tag() -> Seq<char> {
    seq!['P', 'r', 'e', 'g', 'u', 'n', 't', 'a', ':']
}

/// The marker of an answer line.
pub open spec fn answer_tag() -> Seq<char> {
    seq!['R', 'e', 's', 'p', 'u', 'e', 's', 't', 'a', ':']
}

/// One pair on one line: `Pregunta: <q> Respuesta: <a>`.
pub open spec fn pair_line(q: Seq<char>, a: Seq<char>) -> Seq<char> {
    question_tag() + seq![' '] + q + seq![' '] + answer_tag() + seq![' '] + a
}

/// The state of the reader: the pairs so far, the current question, the
/// current answer, and whether answer lines are being read.
pub struct QaState {
    pub pairs: Seq<Seq<char>>,
    pub question: Option<Seq<char>>,
    pub answer: Option<Seq<char>>,
    pub in_answer: bool,
}

/// The reader after one more line.
pub open spec fn qa_step(st: QaState, line: Seq<char>) -> QaState {
    let s = trim(line);
    if starts_with(s, question_tag()) {
        QaState {
            pairs: match (st.question, st.answer) {
                (Some(q), Some(a)) => st.pairs.push(pair_line(q, a)),
                _ => st.pairs,
            },
            question: Some(trim(s.skip(question_tag().len() as int))),
            answer: Some(Seq::empty()),
            in_answer: false,
        }
    } else if starts_with(s, answer_tag()) {
        QaState { answer: Some(trim(s.skip(answer_tag().len() as int))), in_answer: true, ..st }
    } else if st.in_answer && s.len() > 0 {
        match st.answer {
            Some(a) => QaState {
                answer: Some(
                    if a.len() > 0 {
                        a + seq![' '] + s
                    } else {
                        s
                    },
                ),
                ..st
            },
            None => st,
        }
    } else {
        st
    }
}

/// The reader after the lines `ls`.
pub open spec fn qa_run(ls: Seq<Seq<char>>) -> QaState
    decreases ls.len(),
{
    if ls.len() == 0 {
        QaState { pairs: Seq::empty(), question: None, answer: None, in_answer: false }
    } else {
        qa_step(qa_run(ls.drop_last()), ls.last())
    }
}

/// The pairs of a reader at the end of the text: those it holds, then the
/// pair it is reading, if any.
pub open spec fn closed_pairs(st: QaState) -> Seq<Seq<char>> {
    match (st.question, st.answer) {
        (Some(q), Some(a)) => st.pairs.push(pair_line(q, a)),
        _ => st.pairs,
    }
}

/// The pairs of a text: each question line with the answer that follows
/// it, the lines of an answer joined by single spaces.
pub open spec fn qa_pairs(text: Seq<char>) -> Seq<Seq<char>> {
    closed_pairs(qa_run(lines(text)))
}

/// How many of the lines `ls` are question lines.
pub open spec fn question_lines(ls: Seq<Seq<char>>) -> nat
    decreases ls.len(),
{
    if ls.len() == 0 {
        0
    } else {
        question_lines(ls.drop_last()) + if starts_with(trim(ls.last()), question_tag()) {
            1nat
        } else {
            0nat
        }
    }
}

fn question_tag_chars() -> (v: Vec<char>)
    ensures
        v@ == question_tag(),
{
    let v = vec!['P', 'r', 'e', 'g', 'u', 'n', 't', 'a', ':'];
    assert(v@ == question_tag());
    v
}

fn answer_tag_chars() -> (v: Vec<char>)
    ensures
        v@ == answer_tag(),
{
    let v = vec!['R', 'e', 's', 'p', 'u', 'e', 's', 't', 'a', ':'];
    assert(v@ == answer_tag());
    v
}

/// `Pregunta: <q> Respuesta: <a>`.
fn format_pair(q: &[char], a: &[char]) -> (out: String)
    ensures
        out@ == pair_line(q@, a@),
{
    let mut out = String::new();
    push_chars(&mut out, question_tag_chars().as_slice());
    push_chars(&mut out, &[' ']);
    push_chars(&mut out, q);
    push_chars(&mut out, &[' ']);
    push_chars(&mut out, answer_tag_chars().as_slice());
    push_chars(&mut out, &[' ']);
    push_chars(&mut out, a);
    out
}

/// Every `Pregunta:` / `Respuesta:` pair of `qtext`, one per line, as
/// `qa_pairs` gives them.
pub fn extract_pairs(qtext: &str) -> (pairs: Vec<String>)
    ensures
        pairs@.len() == qa_pairs(qtext@).len(),
        forall|i: int| 0 <= i < pairs@.len() ==> #[trigger] pairs@[i]@ == qa_pairs(qtext@)[i],
{
    let t = chars_of(qtext);
    let ls = split_lines(&t);
    let ghost lv = lines(t@);
    let qtag = question_tag_chars();
    let atag = answer_tag_chars();
    let mut pairs: Vec<String> = Vec::new();
    let mut cur_q: Option<Vec<char>> = None;
    let mut cur_a: Option<Vec<char>> = None;
    let mut in_a = false;
    for i in 0..ls.len()
        invariant
            ls@.len() == lv.len(),
            forall|k: int| 0 <= k < ls@.len() ==> #[trigger] ls@[k]@ == lv[k],
            qtag@ == question_tag(),
            atag@ == answer_tag(),
            pairs@.len() == qa_run(lv.take(i as int)).pairs.len(),
            forall|k: int|
                0 <= k < pairs@.len() ==> #[trigger] pairs@[k]@ == qa_run(
                    lv.take(i as int),
                ).pairs[k],
            match cur_q {
                Some(q) => qa_run(lv.take(i as int)).question == Some(q@),
                None => qa_run(lv.take(i as int)).question is None,
            },
            match cur_a {
                Some(a) => qa_run(lv.take(i as int)).answer == Some(a@),
                None => qa_run(lv.take(i as int)).answer is None,
            },
            in_a == qa_run(lv.take(i as int)).in_answer,
    {
        assert(lv.take(i + 1).drop_last() == lv.take(i as int));
        assert(lv.take(i + 1).last() == ls@[i as int]@);
        let line = &ls[i];
        let s = trim_range(line.as_slice(), 0, line.len());
        assert(line@.subrange(0, line@.len() as int) == line@);
        if has_prefix(&s, &qtag) {
            let q_old = cur_q.take();
            let a_old = cur_a.take();
            match (q_old, a_old) {
                (Some(q), Some(a)) => {
                    pairs.push(format_pair(q.as_slice(), a.as_slice()));
                },
                _ => {},
            }
            assert(s@.subrange(qtag@.len() as int, s@.len() as int) == s@.skip(
                qtag@.len() as int,
            ));
            cur_q = Some(trim_range(s.as_slice(), qtag.len(), s.len()));
            cur_a = Some(Vec::new());
            in_a = false;
        } else if has_prefix(&s, &atag) {
            assert(s@.subrange(atag@.len() as int, s@.len() as int) == s@.skip(
                atag@.len() as int,
            ));
            cur_a = Some(trim_range(s.as_slice(), atag.len(), s.len()));
            in_a = true;
        } else if in_a && s.len() > 0 {
            match cur_a {
                Some(mut a) => {
                    if a.len() > 0 {
                        a.push(' ');
                    }
                    let mut j: usize = 0;
                    let ghost a0 = a@;
                    while j < s.len()
                        invariant
                            j <= s@.len(),
                            a@ == a0 + s@.take(j as int),
                        decreases s.len() - j,
                    {
                        a.push(s[j]);
                        assert(s@.take(j + 1) == s@.take(j as int).push(s@[j as int]));
                        j += 1;
                    }
                    assert(s@.take(s@.len() as int) == s@);
                    cur_a = Some(a);
                },
                None => {
                    cur_a = None;
                },
            }
        }
    }
    assert(lv.take(ls.len() as int) == lv);
    match (cur_q, cur_a) {
        (Some(q), Some(a)) => {
            pairs.push(format_pair(q.as_slice(), a.as_slice()));
        },
        _ => {},
    }
    pairs
}

proof fn lemma_qa_run_count(ls: Seq<Seq<char>>)
    ensures
        qa_run(ls).pairs.len() + (if qa_run(ls).question is Some {
            1nat
        } else {
            0nat
        }) == question_lines(ls),
        qa_run(ls).question is Some ==> qa_run(ls).answer is Some,
    decreases ls.len(),
{
    if ls.len() > 0 {
        lemma_qa_run_count(ls.drop_last());
    }
}

/// Law: each question line of the text gives exactly one pair.
pub proof fn law_one_pair_per_question(text: Seq<char>)
    ensures
        qa_pairs(text).len() == question_lines(lines(text)),
{
    lemma_qa_run_count(lines(text));
}

// ---------------------------------------------------------------------
// The pairs, block by block
// ---------------------------------------------------------------------
/// A line that begins, once trimmed, with `Pregunta:`.
pub open spec fn is_question_line(l: Seq<char>) -> bool {
    starts_with(trim(l), question_tag())
}

/// A line that begins, once trimmed, with `Respuesta:`.
pub open spec fn is_answer_line(l: Seq<char>) -> bool {
    starts_with(trim(l), answer_tag())
}

/// The question of a question line: what follows the tag, trimmed.
pub open spec fn question_of(l: Seq<char>) -> Seq<char> {
    trim(trim(l).skip(question_tag().len() as int))
}

/// The text of an answer line: what follows the tag, trimmed.
pub open spec fn answer_rest(l: Seq<char>) -> Seq<char> {
    trim(trim(l).skip(answer_tag().len() as int))
}

/// The position of the last answer line of `body`, if any.
pub open spec fn last_answer(body: Seq<Seq<char>>) -> Option<int>
    decreases body.len(),
{
    if body.len() == 0 {
        None
    } else if is_answer_line(body.last()) {
        Some(body.len() - 1)
    } else {
        last_answer(body.drop_last())
    }
}

/// The answer of the lines `body` that follow a question line: the text
/// of its last answer line, then each later line that is not blank, all
/// trimmed and one space apart; empty when `body` has no answer line.
pub open spec fn answer_of(body: Seq<Seq<char>>) -> Seq<char> {
    match last_answer(body) {
        None => Seq::empty(),
        Some(j) => join(
            nonempty_texts(
                seq![answer_rest(body[j])] + body.skip(j + 1).map_values(|l: Seq<char>| trim(l)),
            ),
            seq![' '],
        ),
    }
}

/// The last answer line lies in `body`.
proof fn lemma_last_answer(body: Seq<Seq<char>>)
    ensures
        last_answer(body) matches Some(j) ==> 0 <= j < body.len(),
    decreases body.len(),
{
    if body.len() > 0 {
        lemma_last_answer(body.drop_last());
    }
}

/// The texts that `nonempty_texts` keeps are not empty, and their join by
/// a separator is empty only when none is kept.
proof fn lemma_nonempty_texts(ts: Seq<Seq<char>>)
    ensures
        forall|k: int| 0 <= k < nonempty_texts(ts).len() ==> (#[trigger] nonempty_texts(ts)[k]).len() > 0,
        (join(nonempty_texts(ts), seq![' ']).len() > 0) == (nonempty_texts(ts).len() > 0),
    decreases ts.len(),
{
    if ts.len() > 0 {
        lemma_nonempty_texts(ts.drop_last());
    }
    let n = nonempty_texts(ts);
    if n.len() == 1 {
        assert(n[0].len() > 0);
    } else if n.len() > 1 {
        assert(n[n.len() - 1].len() > 0);
    }
}

/// A reader that has read lines without a question line holds no pair
/// and no question.
proof fn lemma_qa_run_no_question(ls: Seq<Seq<char>>)
    requires
        forall|k: int| 0 <= k < ls.len() ==> !is_question_line(#[trigger] ls[k]),
    ensures
        qa_run(ls).pairs == Seq::<Seq<char>>::empty(),
        qa_run(ls).question is None,
    decreases ls.len(),
{
    if ls.len() > 0 {
        assert forall|k: int| 0 <= k < ls.drop_last().len() implies !is_question_line(
            #[trigger] ls.drop_last()[k],
        ) by {
            assert(ls.drop_last()[k] == ls[k]);
        }
        lemma_qa_run_no_question(ls.drop_last());
        assert(!is_question_line(ls[ls.len() - 1]));
    }
}

/// The reader after a question line `q` and the lines `body` that hold no
/// question line: the pairs before `q` closed, the question of `q`, and
/// the answer of `body`.
proof fn lemma_qa_run_block(pre: Seq<Seq<char>>, q: Seq<char>, body: Seq<Seq<char>>)
    requires
        is_question_line(q),
        forall|k: int| 0 <= k < body.len() ==> !is_question_line(#[trigger] body[k]),
    ensures
        qa_run(pre.push(q) + body).pairs == closed_pairs(qa_run(pre)),
        qa_run(pre.push(q) + body).question == Some(question_of(q)),
        qa_run(pre.push(q) + body).answer == Some(answer_of(body)),
        qa_run(pre.push(q) + body).in_answer == (last_answer(body) is Some),
    decreases body.len(),
{
    let ls = pre.push(q) + body;
    if body.len() == 0 {
        assert(ls =~= pre.push(q));
        assert(pre.push(q).drop_last() =~= pre);
    } else {
        let b1 = body.drop_last();
        let l = body.last();
        assert forall|k: int| 0 <= k < b1.len() implies !is_question_line(#[trigger] b1[k]) by {
            assert(b1[k] == body[k]);
        }
        lemma_qa_run_block(pre, q, b1);
        assert(ls.drop_last() =~= pre.push(q) + b1);
        assert(ls.last() == l);
        assert(!is_question_line(body[body.len() - 1]));
        let st = qa_run(pre.push(q) + b1);
        let s = trim(l);
        if is_answer_line(l) {
            let r = answer_rest(l);
            assert(body.skip(body.len() as int).map_values(|x: Seq<char>| trim(x)) =~= Seq::<
                Seq<char>,
            >::empty());
            let j = body.len() - 1;
            assert(body[j] == l);
            assert(last_answer(body) == Some(j));
            let xs = seq![answer_rest(body[j])] + body.skip(j + 1).map_values(|x: Seq<char>| trim(x));
            assert(xs =~= seq![r]);
            assert(seq![r].drop_last() =~= Seq::<Seq<char>>::empty());
            assert(nonempty_texts(Seq::<Seq<char>>::empty()) == Seq::<Seq<char>>::empty());
            if r.len() == 0 {
                assert(nonempty_texts(seq![r]) == Seq::<Seq<char>>::empty());
                assert(r =~= Seq::<char>::empty());
            } else {
                assert(nonempty_texts(seq![r]) =~= seq![r]);
            }
            assert(answer_of(body) == r);
        } else {
            assert(last_answer(body) == last_answer(b1));
            lemma_last_answer(b1);
            match last_answer(b1) {
                None => {},
                Some(j) => {
                    let xs1 = seq![answer_rest(b1[j])] + b1.skip(j + 1).map_values(
                        |x: Seq<char>| trim(x),
                    );
                    let xs = seq![answer_rest(body[j])] + body.skip(j + 1).map_values(
                        |x: Seq<char>| trim(x),
                    );
                    assert(b1[j] == body[j]);
                    assert(xs =~= xs1.push(s));
                    assert(xs.drop_last() =~= xs1);
                    lemma_nonempty_texts(xs1);
                    let n1 = nonempty_texts(xs1);
                    assert(st.answer == Some(join(n1, seq![' '])));
                    if s.len() > 0 {
                        assert(nonempty_texts(xs) == n1.push(s));
                        assert(n1.push(s).drop_last() =~= n1);
                        if n1.len() == 0 {
                            assert(n1.push(s) =~= seq![s]);
                        }
                        assert(answer_of(body) == join(n1.push(s), seq![' ']));
                    } else {
                        assert(nonempty_texts(xs) == n1);
                    }
                },
            }
        }
    }
}

/// Law: the pairs of the lines up to a question line `q` and the lines
/// `body` after it, which hold no question line, are the pairs of the
/// lines before `q`, then the question of `q` with the answer of `body`;
/// lines without a question line give no pair.
pub proof fn law_pairs_by_block(pre: Seq<Seq<char>>, q: Seq<char>, body: Seq<Seq<char>>)
    requires
        is_question_line(q),
        forall|k: int| 0 <= k < body.len() ==> !is_question_line(#[trigger] body[k]),
    ensures
        closed_pairs(qa_run(pre.push(q) + body)) == closed_pairs(qa_run(pre)).push(
            pair_line(question_of(q), answer_of(body)),
        ),
        (forall|k: int| 0 <= k < pre.len() ==> !is_question_line(#[trigger] pre[k])) ==> closed_pairs(
            qa_run(pre),
        ) == Seq::<Seq<char>>::empty(),
{
    lemma_qa_run_block(pre, q, body);
    if forall|k: int| 0 <= k < pre.len() ==> !is_question_line(#[trigger] pre[k]) {
        lemma_qa_run_no_question(pre);
    }
}

/// The prompt that asks `question`: `Pregunta: <question> Respuesta:`.
pub fn question_prompt(question: &str) -> (out: String)
    ensures
        out@ == question_tag() + seq![' '] + question@ + seq![' '] + answer_tag(),
{
    let mut out = String::new();
    push_chars(&mut out, question_tag_chars().as_slice());
    push_chars(&mut out, &[' ']);
    push_chars(&mut out, chars_of(question).as_slice());
    push_chars(&mut out, &[' ']);
    push_chars(&mut out, answer_tag_chars().as_slice());
    out
}

// ---------------------------------------------------------------------
// The augmented training text
// ---------------------------------------------------------------------
/// The texts of `ts` that are not empty, in order.
pub open spec fn nonempty_texts(ts: Seq<Seq<char>>) -> Seq<Seq<char>>
    decreases ts.len(),
{
    if ts.len() == 0 {
        Seq::empty()
    } else if ts.last().len() > 0 {
        nonempty_texts(ts.drop_last()).push(ts.last())
    } else {
        nonempty_texts(ts.drop_last())
    }
}

/// The parts of an augmented training text: the non-empty source texts,
/// then, when there are pairs, `repeats` copies of the pairs one per line.
pub open spec fn augmented_parts(texts: Seq<Seq<char>>, pairs: Seq<Seq<char>>, repeats: nat) -> Seq<
    Seq<char>,
> {
    nonempty_texts(texts) + if pairs.len() > 0 {
        Seq::new(repeats, |i: int| join(pairs, seq!['\n']))
    } else {
        Seq::empty()
    }
}

/// The strings of `parts`, with `sep` between each two of them.
pub fn join_strings(parts: &Vec<String>, sep: &str) -> (out: String)
    ensures
        out@ == join(string_views(parts@), sep@),
{
    let ghost pv = string_views(parts@);
    let sep_chars = chars_of(sep);
    let mut out = String::new();
    for i in 0..parts.len()
        invariant
            pv == string_views(parts@),
            sep_chars@ == sep@,
            out@ == join(pv.take(i as int), sep@),
    {
        assert(pv.take(i + 1).drop_last() == pv.take(i as int));
        assert(pv.take(i + 1).last() == parts@[i as int]@);
        if i > 0 {
            push_chars(&mut out, sep_chars.as_slice());
        } else {
            assert(out@ == Seq::<char>::empty());
        }
        push_chars(&mut out, chars_of(parts[i].as_str()).as_slice());
    }
    assert(pv.take(parts.len() as int) == pv);
    out
}

/// The parts of an augmented training text, as `augmented_parts` gives
/// them.
pub fn training_parts(texts: &Vec<String>, pairs: &Vec<String>, repeats: usize) -> (out: Vec<
    String,
>)
    ensures
        string_views(out@) == augmented_parts(
            string_views(texts@),
            string_views(pairs@),
            repeats as nat,
        ),
{
    let ghost tv = string_views(texts@);
    let mut out: Vec<String> = Vec::new();
    for i in 0..texts.len()
        invariant
            tv == string_views(texts@),
            string_views(out@) == nonempty_texts(tv.take(i as int)),
    {
        assert(tv.take(i + 1).drop_last() == tv.take(i as int));
        assert(tv.take(i + 1).last() == texts@[i as int]@);
        if texts[i].as_str().unicode_len() > 0 {
            out.push(texts[i].clone());
            assert(string_views(out@) == nonempty_texts(tv.take(i as int)).push(texts@[i as int]@));
        }
    }
    assert(tv.take(texts.len() as int) == tv);
    let ghost head = string_views(out@);
    if pairs.len() > 0 {
        let nl = "\n";
        proof {
            reveal_strlit("\n");
        }
        assert(nl@ =~= seq!['\n']);
        let joined = join_strings(pairs, nl);
        let ghost copy = Seq::new(repeats as nat, |i: int| join(string_views(pairs@), seq!['\n']));
        for r in 0..repeats
            invariant
                joined@ == join(string_views(pairs@), seq!['\n']),
                copy == Seq::new(repeats as nat, |i: int| join(string_views(pairs@), seq!['\n'])),
                string_views(out@) == head + copy.take(r as int),
        {
            let ghost before = out@;
            out.push(joined.clone());
            assert(string_views(out@) =~= string_views(before).push(joined@));
            assert(copy.take(r + 1) == copy.take(r as int).push(copy[r as int]));
            assert(string_views(out@) == head + copy.take(r + 1));
        }
        assert(copy.take(repeats as int) == copy);
    } else {
        assert(head + Seq::<Seq<char>>::empty() == head);
    }
    out
}

} // verus!
