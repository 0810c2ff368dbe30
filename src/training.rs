//! The decisions of the training loop that need no floating point: class
//! lookup, which examples a step uses, the evaluation schedule, the
//! predicted class of a score vector, early stopping on the epoch loss, and
//! class names for the exported artifact. Scores and losses are handed over
//! as single-precision bit patterns.
use crate::balance::{lists_code, TrainingExample};
use crate::features::{bucket_counts, count_buckets, represents, tokens_of, BucketCounts};
use vstd::prelude::*;
use vstd::string::StrSliceExecFns;
use vstd::string::StringExecFns;

verus! {

/// The class index of a language code: the position of its first
/// occurrence in `codes`, or `None` for a code that is not a class.
pub fn class_index(codes: &Vec<String>, code: &String) -> (r: Option<usize>)
    ensures
        match r {
            Some(i) => i < codes@.len() && codes@[i as int]@ == code@ && forall|j: int|
                0 <= j < i ==> codes@[j]@ != code@,
            None => forall|j: int| 0 <= j < codes@.len() ==> codes@[j]@ != code@,
        },
{
    let mut i: usize = 0;
    while i < codes.len()
        invariant
            i <= codes@.len(),
            forall|j: int| 0 <= j < i ==> codes@[j]@ != code@,
        decreases codes.len() - i,
    {
        if codes[i] == *code {
            return Some(i);
        }
        i = i + 1;
    }
    None
}

/// Whether an example takes part in training and evaluation: its code is a
/// class and its text yields at least one feature.
pub open spec fn is_scoreable(codes: Seq<String>, e: TrainingExample) -> bool {
    lists_code(codes, e.lan_code@) && tokens_of(e.sentence@).len() > 0
}

/// Positions of the scoreable examples of `batch`, in order.
pub open spec fn scoreable_positions(codes: Seq<String>, batch: Seq<TrainingExample>) -> Seq<int>
    decreases batch.len(),
{
    if batch.len() == 0 {
        seq![]
    } else {
        let rest = scoreable_positions(codes, batch.drop_last());
        if is_scoreable(codes, batch.last()) {
            rest.push(batch.len() - 1)
        } else {
            rest
        }
    }
}

/// An example that takes part in a step: its position in the batch, its
/// class index and its raw bucket counts.
pub struct Scoreable {
    pub position: usize,
    pub class: usize,
    pub counts: BucketCounts,
}

/// The examples of `batch` that a training or evaluation step uses, in
/// order: those whose code is a class and whose text yields features.
/// Others (an unknown code, a text without features) are skipped.
pub fn scoreable_examples(
    codes: &Vec<String>,
    batch: &Vec<TrainingExample>,
    dimension: u32,
) -> (r: Vec<Scoreable>)
    requires
        dimension > 0,
    ensures
        r@.len() == scoreable_positions(codes@, batch@).len(),
        forall|k: int|
            0 <= k < r@.len() ==> {
                let s = #[trigger] r@[k];
                let e = batch@[s.position as int];
                &&& s.position == scoreable_positions(codes@, batch@)[k]
                &&& s.position < batch@.len()
                &&& s.class < codes@.len()
                &&& codes@[s.class as int]@ == e.lan_code@
                &&& forall|j: int| 0 <= j < s.class ==> codes@[j]@ != e.lan_code@
                &&& represents(s.counts.entries@, bucket_counts(e.sentence@, dimension))
                &&& forall|q: int| 0 <= q < s.counts.entries@.len() ==> s.counts.entries@[q].0 < dimension
                &&& s.counts.total == tokens_of(e.sentence@).len()
            },
{
    let mut r: Vec<Scoreable> = Vec::new();
    let mut i: usize = 0;
    assert(batch@.take(0) =~= Seq::<TrainingExample>::empty());
    while i < batch.len()
        invariant
            i <= batch@.len(),
            dimension > 0,
            r@.len() == scoreable_positions(codes@, batch@.take(i as int)).len(),
            forall|k: int|
                0 <= k < r@.len() ==> {
                    let s = #[trigger] r@[k];
                    let e = batch@[s.position as int];
                    &&& s.position == scoreable_positions(codes@, batch@.take(i as int))[k]
                    &&& s.position < i
                    &&& s.class < codes@.len()
                    &&& codes@[s.class as int]@ == e.lan_code@
                    &&& forall|j: int| 0 <= j < s.class ==> codes@[j]@ != e.lan_code@
                    &&& represents(s.counts.entries@, bucket_counts(e.sentence@, dimension))
                    &&& forall|q: int| 0 <= q < s.counts.entries@.len() ==> s.counts.entries@[q].0 < dimension
                    &&& s.counts.total == tokens_of(e.sentence@).len()
                },
        decreases batch.len() - i,
    {
        let ghost before = scoreable_positions(codes@, batch@.take(i as int));
        assert(batch@.take(i + 1).drop_last() =~= batch@.take(i as int));
        assert(batch@.take(i + 1).last() == batch@[i as int]);
        let e = &batch[i];
        match class_index(codes, &e.lan_code) {
            Some(class) => {
                let counts = count_buckets(e.sentence.as_str(), dimension);
                if counts.total > 0 {
                    assert(lists_code(codes@, e.lan_code@)) by {
                        assert(codes@[class as int]@ == e.lan_code@);
                    }
                    r.push(Scoreable { position: i, class, counts });
                } else {
                    assert(!is_scoreable(codes@, batch@[i as int]));
                }
            },
            None => {
                assert(!lists_code(codes@, e.lan_code@));
            },
        }
        i = i + 1;
    }
    assert(batch@.take(batch.len() as int) =~= batch@);
    r
}

/// Whether the held-out split is scored after epoch `epoch` (counted from
/// zero) of `epochs`: every tenth epoch, and the last one.
pub fn should_evaluate(epoch: usize, epochs: usize) -> (r: bool)
    ensures
        r == (epoch % 10 == 0 || epoch + 1 == epochs),
{
    epoch % 10 == 0 || (epochs > 0 && epoch == epochs - 1)
}

/// The bit pattern of positive infinity in IEEE-754 single precision.
pub const POSITIVE_INFINITY_BITS: u32 = 0x7f80_0000;

/// Whether single-precision bits encode a NaN.
pub open spec fn is_nan_bits(bits: u32) -> bool {
    (bits & 0x7f80_0000u32) == 0x7f80_0000u32 && (bits & 0x007f_ffffu32) != 0
}

/// A key that orders non-NaN single-precision values (given by their bits)
/// as `<` on floats does:
/// negative values have all bits flipped, non-negative ones the sign bit set,
/// and negative zero counts as positive zero.
pub open spec fn float_key(bits: u32) -> u32 {
    if bits == 0x8000_0000u32 {
        0x8000_0000u32
    } else if bits & 0x8000_0000u32 != 0 {
        !bits
    } else {
        bits | 0x8000_0000u32
    }
}

/// Whether the loss with bits `loss` is strictly below the loss with bits `best`.
pub open spec fn improves(loss: u32, best: u32) -> bool {
    !is_nan_bits(loss) && !is_nan_bits(best) && float_key(loss) < float_key(best)
}

fn order_key(bits: u32) -> (r: u32)
    ensures
        r == float_key(bits),
{
    if bits == 0x8000_0000u32 {
        0x8000_0000u32
    } else if bits & 0x8000_0000u32 != 0 {
        !bits
    } else {
        bits | 0x8000_0000u32
    }
}

fn nan_bits(bits: u32) -> (r: bool)
    ensures
        r == is_nan_bits(bits),
{
    (bits & 0x7f80_0000u32) == 0x7f80_0000u32 && (bits & 0x007f_ffffu32) != 0
}

/// The predicted class of a score vector given as single-precision bits:
/// the first index of a highest score (0 for no scores).
pub fn first_max_index(score_bits: &Vec<u32>) -> (r: usize)
    requires
        forall|i: int| 0 <= i < score_bits@.len() ==> !is_nan_bits(#[trigger] score_bits@[i]),
    ensures
        score_bits@.len() == 0 ==> r == 0,
        score_bits@.len() > 0 ==> r < score_bits@.len() && (forall|j: int|
            0 <= j < score_bits@.len() ==> float_key(#[trigger] score_bits@[j]) <= float_key(
                score_bits@[r as int],
            )) && (forall|j: int|
            0 <= j < r ==> float_key(#[trigger] score_bits@[j]) < float_key(score_bits@[r as int])),
{
    if score_bits.len() == 0 {
        return 0;
    }
    let mut best: usize = 0;
    let mut best_key = order_key(score_bits[0]);
    let mut i: usize = 1;
    while i < score_bits.len()
        invariant
            1 <= i <= score_bits@.len(),
            best < i,
            best_key == float_key(score_bits@[best as int]),
            forall|j: int| 0 <= j < i ==> float_key(#[trigger] score_bits@[j]) <= best_key,
            forall|j: int| 0 <= j < best ==> float_key(#[trigger] score_bits@[j]) < best_key,
        decreases score_bits.len() - i,
    {
        let k = order_key(score_bits[i]);
        if k > best_key {
            best = i;
            best_key = k;
        }
        i = i + 1;
    }
    best
}

/// Early stopping on the epoch loss. Losses are handed over as their
/// single-precision bit patterns.
pub struct EarlyStopping {
    /// Bits of the lowest epoch loss seen so far (positive infinity at first).
    pub best_bits: u32,
    /// Epochs in a row that failed to improve on the best loss, capped at `patience`.
    pub idle: usize,
    /// How many such epochs end training.
    pub patience: usize,
}

impl EarlyStopping {
    pub open spec fn wf(&self) -> bool {
        !is_nan_bits(self.best_bits) && self.idle <= self.patience
    }

    pub fn new(patience: usize) -> (r: EarlyStopping)
        ensures
            r.wf(),
            r.best_bits == POSITIVE_INFINITY_BITS,
            r.idle == 0,
            r.patience == patience,
    {
        assert(!is_nan_bits(POSITIVE_INFINITY_BITS)) by (bit_vector);
        EarlyStopping { best_bits: POSITIVE_INFINITY_BITS, idle: 0, patience }
    }

    /// Records the loss of one epoch; returns whether training stops.
    /// A strictly lower loss becomes the best and clears the idle count;
    /// any other loss adds one idle epoch.
    pub fn observe(&mut self, loss_bits: u32) -> (stop: bool)
        requires
            old(self).wf(),
        ensures
            final(self).wf(),
            final(self).patience == old(self).patience,
            improves(loss_bits, old(self).best_bits) ==> final(self).best_bits == loss_bits
                && final(self).idle == 0,
            !improves(loss_bits, old(self).best_bits) ==> final(self).best_bits == old(
                self,
            ).best_bits && final(self).idle == if old(self).idle < old(self).patience {
                old(self).idle + 1
            } else {
                old(self).patience as int
            },
            stop == (!improves(loss_bits, old(self).best_bits) && final(self).idle
                >= final(self).patience),
            float_key(final(self).best_bits) <= float_key(old(self).best_bits),
    {
        if !nan_bits(loss_bits) && order_key(loss_bits) < order_key(self.best_bits) {
            self.best_bits = loss_bits;
            self.idle = 0;
            false
        } else {
            if self.idle < self.patience {
                self.idle = self.idle + 1;
            }
            self.idle >= self.patience
        }
    }
}

/// The best loss never rises: after any epoch loss is recorded, the best
/// loss is at most what it was before.
pub proof fn lemma_best_loss_non_increasing(before: EarlyStopping, after: EarlyStopping, loss_bits: u32)
    requires
        before.wf(),
        improves(loss_bits, before.best_bits) ==> after.best_bits == loss_bits,
        !improves(loss_bits, before.best_bits) ==> after.best_bits == before.best_bits,
    ensures
        float_key(after.best_bits) <= float_key(before.best_bits),
        !is_nan_bits(after.best_bits),
{
}

/// What `char::to_uppercase` makes of a character.
pub uninterp spec fn upper_of(c: char) -> Seq<char>;

/// Relies on `char::to_uppercase`: the upper-case mapping of one character,
/// which depends on the character alone.
#[verifier::external_body]
fn uppercase_char(c: char) -> (r: String)
    ensures
        r@ == upper_of(c),
{
    c.to_uppercase().collect::<String>()
}

/// The identifier of a class in the exported artifact: its code with the
/// first character in upper case.
pub open spec fn enum_name_of(code: Seq<char>) -> Seq<char> {
    if code.len() == 0 {
        code
    } else {
        upper_of(code[0]) + code.drop_first()
    }
}

/// Joins an upper-cased first character to the rest of `code`.
pub fn capitalized_with(upper_first: String, code: &str) -> (r: String)
    ensures
        r@ == if code@.len() == 0 {
            Seq::<char>::empty()
        } else {
            upper_first@ + code@.drop_first()
        },
{
    let n = code.unicode_len();
    if n == 0 {
        return String::new();
    }
    let mut name = upper_first;
    let rest = code.substring_char(1, n);
    name.append(rest);
    assert(code@.subrange(1, n as int) =~= code@.drop_first());
    name
}

pub fn lang_code_to_cpp_enum(code: &str) -> (r: String)
    ensures
        r@ == enum_name_of(code@),
{
    if code.unicode_len() == 0 {
        return String::new();
    }
    capitalized_with(uppercase_char(code.get_char(0)), code)
}

} // verus!
