//! Picking an index in proportion to weights.
//!
//! The weights are floating-point numbers, and the caller does the arithmetic on them:
//! it adds them up, scales the sum by the fraction that was drawn, and subtracts the
//! weights from that one after the other. What each of its comparisons means for the
//! pick is decided here.
use vstd::prelude::*;

verus! {

/// How far a weighted pick has come.
pub enum WeightedPick {
    /// The pick is made: an index, or -1 where there is nothing to pick.
    Done { index: i64 },
    /// `fraction` / 2^53 of the sum of the `len` weights remained at first, and the
    /// weights before `next` have been subtracted from it without making it negative.
    /// The weight at `next` is to be subtracted now.
    Walk { fraction: u64, len: usize, next: usize },
}

/// The index that the remainders after each subtraction pick: the first at which the
/// remainder is negative, or else the last.
pub open spec fn is_weighted_index(negative: Seq<bool>, index: int) -> bool {
    &&& 0 <= index < negative.len()
    &&& negative[index] || index == negative.len() - 1
    &&& forall|i: int| 0 <= i < index ==> !#[trigger] negative[i]
}

impl WeightedPick {
    /// The weight to subtract next is one of the weights, and indices fit the result.
    pub open spec fn wf(self) -> bool {
        match self {
            WeightedPick::Done { .. } => true,
            WeightedPick::Walk { len, next, .. } => next < len <= i64::MAX,
        }
    }

    /// The pick among `len` weights at its beginning: nothing is picked where there are no
    /// weights or their sum is zero or negative, and else the walk over them begins.
    pub open spec fn begun(fraction: u64, len: usize, sum_nonpositive: bool) -> WeightedPick {
        if len == 0 || sum_nonpositive {
            WeightedPick::Done { index: -1i64 }
        } else {
            WeightedPick::Walk { fraction, len, next: 0 }
        }
    }

    /// The pick after the subtraction of the next weight, which left the remainder
    /// negative or not.
    pub open spec fn step(self, negative: bool) -> WeightedPick {
        match self {
            WeightedPick::Done { .. } => self,
            WeightedPick::Walk { fraction, len, next } => if negative || next + 1 == len {
                WeightedPick::Done { index: next as i64 }
            } else {
                WeightedPick::Walk { fraction, len, next: (next + 1) as usize }
            },
        }
    }

    /// The pick after several subtractions.
    pub open spec fn walked(self, negative: Seq<bool>) -> WeightedPick
        decreases negative.len(),
    {
        if negative.len() == 0 {
            self
        } else {
            self.walked(negative.drop_last()).step(negative.last())
        }
    }

    /// Takes note of whether the remainder is negative, now that the next weight has
    /// been subtracted from it: then that weight's index is picked. After the last
    /// weight its index is picked in any case, since only rounding can have left a
    /// remainder. A pick that is made stays as it is.
    pub fn subtracted(self, negative: bool) -> (r: WeightedPick)
        requires
            self.wf(),
        ensures
            r == self.step(negative),
            r.wf(),
            self is Done ==> r == self,
            self is Walk && negative ==> r is Done && r->index == self->next,
            self is Walk && !negative && self->next + 1 == self->len ==> r is Done && r->index
                == self->len - 1,
            self is Walk && !negative && self->next + 1 < self->len ==> {
                &&& r is Walk && r->next == self->next + 1
                &&& r->len == self->len && r->fraction == self->fraction
            },
    {
        match self {
            WeightedPick::Done { index } => WeightedPick::Done { index },
            WeightedPick::Walk { fraction, len, next } => {
                if negative || next + 1 == len {
                    WeightedPick::Done { index: next as i64 }
                } else {
                    WeightedPick::Walk { fraction, len, next: next + 1 }
                }
            },
        }
    }
}

/// A walk over all weights picks the first index at which the remainder is negative, or
/// else the last.
pub proof fn lemma_walk_picks_index(fraction: u64, len: usize, negative: Seq<bool>, index: int)
    requires
        0 < len <= i64::MAX,
        negative.len() == len,
        is_weighted_index(negative, index),
    ensures
        (WeightedPick::Walk { fraction, len, next: 0 }).walked(negative) == (WeightedPick::Done {
            index: index as i64,
        }),
{
    lemma_walk_so_far(fraction, len, negative);
}

/// A walk goes on just as long as no remainder was negative and weights are left.
pub proof fn lemma_walk_so_far(fraction: u64, len: usize, negative: Seq<bool>)
    requires
        0 < len <= i64::MAX,
        negative.len() <= len,
    ensures
        match (WeightedPick::Walk { fraction, len, next: 0 }).walked(negative) {
            WeightedPick::Done { index } => {
                &&& 0 <= index < negative.len()
                &&& negative[index as int] || index == len - 1
                &&& forall|i: int| 0 <= i < index ==> !#[trigger] negative[i]
            },
            WeightedPick::Walk { fraction: f, len: l, next } => {
                &&& f == fraction && l == len && next == negative.len() < len
                &&& forall|i: int| 0 <= i < negative.len() ==> !#[trigger] negative[i]
            },
        },
    decreases negative.len(),
{
    if negative.len() > 0 {
        let shorter = negative.drop_last();
        lemma_walk_so_far(fraction, len, shorter);
        assert(forall|i: int| 0 <= i < shorter.len() ==> shorter[i] == negative[i]);
    }
}

/// A pick that is made stays as it is.
pub proof fn lemma_done_stays(index: i64, negative: Seq<bool>)
    ensures
        (WeightedPick::Done { index }).walked(negative) == (WeightedPick::Done { index }),
    decreases negative.len(),
{
    if negative.len() > 0 {
        lemma_done_stays(index, negative.drop_last());
    }
}

/// A zero weight put in front is never picked and only shifts the index by one. It does
/// not change the sum, nor what remains when it is subtracted: that is not negative, and
/// from there on the remainders are those without it. Where there are no other weights,
/// the sum is zero. Returns the index without the zero weight.
pub proof fn lemma_zero_weight_in_front(
    fraction: u64,
    len: usize,
    sum_nonpositive: bool,
    negative: Seq<bool>,
) -> (index: i64)
    requires
        len < usize::MAX,
        len < i64::MAX,
        negative.len() == len,
        len == 0 ==> sum_nonpositive,
    ensures
        WeightedPick::begun(fraction, len, sum_nonpositive).walked(negative) == (
        WeightedPick::Done { index }),
        WeightedPick::begun(fraction, (len + 1) as usize, sum_nonpositive).walked(
            seq![false] + negative,
        ) == (WeightedPick::Done {
            index: if index == -1 {
                -1i64
            } else {
                (index + 1) as i64
            },
        }),
{
    let longer = seq![false] + negative;
    if sum_nonpositive {
        lemma_done_stays(-1i64, negative);
        lemma_done_stays(-1i64, longer);
        -1i64
    } else {
        lemma_walk_so_far(fraction, len, negative);
        match (WeightedPick::Walk { fraction, len, next: 0 }).walked(negative) {
            WeightedPick::Done { index } => {
                assert forall|i: int| 0 <= i < index + 1 implies !#[trigger] longer[i] by {
                    if i > 0 {
                        assert(!negative[i - 1]);
                    }
                }
                assert(longer[index + 1] == negative[index as int]);
                lemma_walk_picks_index(fraction, (len + 1) as usize, longer, index + 1);
                index
            },
            WeightedPick::Walk { .. } => 0,
        }
    }
}

} // verus!
