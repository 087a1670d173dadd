//! The integer side of training: sizes, the schedule, and the batches of
//! token windows drawn from the data.
use rand::rngs::ThreadRng;
use rand::Rng;
use vstd::prelude::*;

verus! {

/// The width of a token embedding.
pub const EMBED_SIZE: usize = 256;

/// The width of the recurrent state.
pub const HIDDEN_SIZE: usize = 512;

/// The length of a window of tokens in a batch.
pub const SEQ_LEN: usize = 300;

/// The number of windows in a batch.
pub const BATCH_SIZE: usize = 64;

/// The number of passes over the data.
pub const EPOCHS: usize = 60;

/// How many tokens a plain generation adds.
pub const GEN_LEN: usize = 40;

/// How many tokens an answer adds.
pub const QA_LEN: usize = 30;

/// The room for tokens in a learnt vocabulary.
pub const VOCAB_SIZE: usize = 8192;

/// The window length for `data_len` tokens: `SEQ_LEN`, or half the data
/// when that is less.
pub open spec fn plan_seq_len(data_len: int) -> int {
    if SEQ_LEN < data_len / 2 {
        SEQ_LEN as int
    } else {
        data_len / 2
    }
}

/// The steps of one epoch: one per batch of the data, and at least 40.
pub open spec fn plan_steps(data_len: int) -> int {
    let n = data_len / (plan_seq_len(data_len) * BATCH_SIZE);
    if n > 40 {
        n
    } else {
        40
    }
}

/// The sizes of training on a given amount of data.
pub struct TrainPlan {
    pub seq_len: usize,
    pub batch_size: usize,
    pub steps_per_epoch: usize,
}

/// The training sizes for `data_len` tokens: `BATCH_SIZE` windows of
/// `SEQ_LEN` tokens per step (windows of half the data when it is shorter
/// than two windows); `None` when the windows would be shorter than 4
/// tokens, for a text too short to learn from.
pub fn train_plan(data_len: usize) -> (plan: Option<TrainPlan>)
    ensures
        plan is None <==> plan_seq_len(data_len as int) < 4,
        plan matches Some(p) ==> {
            &&& p.seq_len == plan_seq_len(data_len as int)
            &&& p.batch_size == BATCH_SIZE
            &&& p.steps_per_epoch == plan_steps(data_len as int)
            &&& p.seq_len + 1 <= data_len
        },
{
    let seq_len = if SEQ_LEN < data_len / 2 {
        SEQ_LEN
    } else {
        data_len / 2
    };
    if seq_len < 4 {
        return None;
    }
    let per_step = seq_len * BATCH_SIZE;
    let n = data_len / per_step;
    let steps = if n > 40 {
        n
    } else {
        40
    };
    Some(TrainPlan { seq_len, batch_size: BATCH_SIZE, steps_per_epoch: steps })
}

/// Whether the weights are saved after `epoch`: every fifth epoch, from
/// the first.
pub fn saves_checkpoint(epoch: usize) -> (b: bool)
    ensures
        b == (epoch % 5 == 0),
{
    epoch % 5 == 0
}

/// Whether progress is shown after `step`: every hundredth step but the
/// first.
pub fn shows_progress(step: usize) -> (b: bool)
    ensures
        b == (step > 0 && step % 100 == 0),
{
    step > 0 && step % 100 == 0
}

// ---------------------------------------------------------------------
// Batches
// ---------------------------------------------------------------------
/// The windows of `seq_len` tokens of `data` that begin at `starts`, one
/// after the other.
pub open spec fn batch_inputs(data: Seq<u32>, seq_len: int, starts: Seq<usize>) -> Seq<u32>
    decreases starts.len(),
{
    if starts.len() == 0 {
        Seq::empty()
    } else {
        let s = starts.last() as int;
        batch_inputs(data, seq_len, starts.drop_last()) + data.subrange(s, s + seq_len)
    }
}

/// The same windows shifted by one token: the token that follows each
/// input token.
pub open spec fn batch_targets(data: Seq<u32>, seq_len: int, starts: Seq<usize>) -> Seq<u32>
    decreases starts.len(),
{
    if starts.len() == 0 {
        Seq::empty()
    } else {
        let s = starts.last() as int;
        batch_targets(data, seq_len, starts.drop_last()) + data.subrange(s + 1, s + seq_len + 1)
    }
}

/// The bound of the random starts: `data_len - seq_len - 1` when that is
/// positive, else 0 (no draw).
pub open spec fn spec_draw_bound(data_len: int, seq_len: int) -> int {
    if data_len - (seq_len + 1) > 0 {
        data_len - (seq_len + 1)
    } else {
        0
    }
}

/// A start that the batch drawing can give: below the draw bound when it
/// is positive, else 0.
pub open spec fn drawable_start(data_len: int, seq_len: int, s: int) -> bool {
    if spec_draw_bound(data_len, seq_len) > 0 {
        0 <= s < spec_draw_bound(data_len, seq_len)
    } else {
        s == 0
    }
}

/// The bound handed to the generator for the start of a window of
/// `seq_len` tokens in `data_len` tokens; 0 when only the start 0 fits.
pub fn draw_bound(data_len: usize, seq_len: usize) -> (b: usize)
    ensures
        b == spec_draw_bound(data_len as int, seq_len as int),
{
    if data_len > seq_len && data_len - seq_len > 1 {
        data_len - seq_len - 1
    } else {
        0
    }
}

/// The inputs and targets of the windows of `seq_len` tokens of `data`
/// that begin at `starts`.
pub fn batch_from_starts(data: &[u32], seq_len: usize, starts: &[usize]) -> (out: (
    Vec<u32>,
    Vec<u32>,
))
    requires
        forall|k: int| 0 <= k < starts@.len() ==> #[trigger] starts@[k] + seq_len + 1 <= data@.len(),
    ensures
        out.0@ == batch_inputs(data@, seq_len as int, starts@),
        out.1@ == batch_targets(data@, seq_len as int, starts@),
{
    let mut xs: Vec<u32> = Vec::new();
    let mut ys: Vec<u32> = Vec::new();
    for b in 0..starts.len()
        invariant
            forall|k: int|
                0 <= k < starts@.len() ==> #[trigger] starts@[k] + seq_len + 1 <= data@.len(),
            xs@ == batch_inputs(data@, seq_len as int, starts@.take(b as int)),
            ys@ == batch_targets(data@, seq_len as int, starts@.take(b as int)),
    {
        let start = starts[b];
        assert(starts@.take(b + 1).drop_last() == starts@.take(b as int));
        assert(starts@.take(b + 1).last() == start);
        let ghost xs0 = xs@;
        let ghost ys0 = ys@;
        for j in 0..seq_len
            invariant
                start + seq_len + 1 <= data@.len(),
                data@.len() == data.len(),
                xs@ == xs0 + data@.subrange(start as int, start + j),
                ys@ == ys0 + data@.subrange(start + 1, start + 1 + j),
        {
            xs.push(data[start + j]);
            ys.push(data[start + 1 + j]);
            assert(data@.subrange(start as int, start + j + 1) == data@.subrange(
                start as int,
                start + j,
            ).push(data@[start + j]));
            assert(data@.subrange(start + 1, start + 1 + j + 1) == data@.subrange(
                start + 1,
                start + 1 + j,
            ).push(data@[start + 1 + j]));
        }
    }
    assert(starts@.take(starts.len() as int) == starts@);
    (xs, ys)
}

/// The thread-local random generator of `rand`.
#[verifier::external_type_specification]
#[verifier::external_body]
pub struct ExThreadRng(rand::rngs::ThreadRng);

/// `Rng::gen_range(0..hi)` on the thread's generator: a number below `hi`.
/// Which one is left to chance.
#[verifier::external_body]
fn random_below(rng: &mut ThreadRng, hi: usize) -> (r: usize)
    requires
        hi > 0,
    ensures
        r < hi,
{
    rng.gen_range(0..hi)
}

/// A batch of `batch_size` windows of `seq_len` tokens of `data`, each
/// beginning at a start drawn at random below `draw_bound(data.len(),
/// seq_len)`, and the windows shifted by one token as targets. When that
/// bound is 0 (room for one window only), every window begins at 0 and the
/// generator is not used.
pub fn get_batch(data: &[u32], seq_len: usize, batch_size: usize, rng: &mut ThreadRng) -> (out: (
    Vec<u32>,
    Vec<u32>,
))
    requires
        batch_size > 0 ==> seq_len + 1 <= data@.len(),
    ensures
        exists|starts: Seq<usize>|
            {
                &&& starts.len() == batch_size
                &&& forall|k: int|
                    0 <= k < batch_size ==> drawable_start(
                        data@.len() as int,
                        seq_len as int,
                        #[trigger] starts[k] as int,
                    )
                &&& out.0@ == batch_inputs(data@, seq_len as int, starts)
                &&& out.1@ == batch_targets(data@, seq_len as int, starts)
            },
        (batch_size == 0 || spec_draw_bound(data@.len() as int, seq_len as int) == 0)
            ==> *final(rng) == *old(rng),
{
    let bound = draw_bound(data.len(), seq_len);
    let mut starts: Vec<usize> = Vec::new();
    for b in 0..batch_size
        invariant
            bound == spec_draw_bound(data@.len() as int, seq_len as int),
            starts@.len() == b,
            forall|k: int|
                0 <= k < b ==> drawable_start(
                    data@.len() as int,
                    seq_len as int,
                    #[trigger] starts@[k] as int,
                ),
            (bound == 0 || b == 0) ==> *rng == *old(rng),
    {
        let start = if bound > 0 {
            random_below(rng, bound)
        } else {
            0
        };
        starts.push(start);
    }
    assert forall|k: int| 0 <= k < starts@.len() implies #[trigger] starts@[k] + seq_len + 1
        <= data@.len() by {
        assert(drawable_start(data@.len() as int, seq_len as int, starts@[k] as int));
    }
    batch_from_starts(data, seq_len, starts.as_slice())
}

} // verus!
