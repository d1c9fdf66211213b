//! The entries of the reservoir and their order.

use crate::binary64::Binary64;
use csv::StringRecord;
use rand::Rng;
use std::cmp::Ordering;
use vstd::prelude::*;

verus! {

/// A row that the reservoir considers.
#[derive(Debug, PartialEq, Eq)]
pub struct Line {
    /// The row itself.
    pub record: StringRecord,
    /// The weight that the row was given.
    pub weight: Binary64,
    /// The random number drawn for the row.
    pub draw: Binary64,
    /// The ranking key: the reservoir keeps the lines with the largest keys.
    pub key: Binary64,
    /// The number of rows considered before this one; it breaks ties.
    pub sequence: usize,
}

/// `rand::thread_rng` and `rand::Rng::gen`: a fair coin from the thread's
/// generator. Nothing is known of the outcome.
#[verifier::external_body]
pub(crate) fn flip_coin() -> (out: bool) {
    rand::thread_rng().gen::<bool>()
}

impl Line {
    /// Whether the keys of two lines cannot be told apart by comparing them.
    pub open spec fn ambiguous_with(self, other: Line) -> bool {
        self.key.is_nan() || other.key.is_nan()
    }

    /// Whether this line is to be evicted before the other: it has the
    /// smaller key, or the same key and the smaller sequence number.
    pub open spec fn precedes(self, other: Line) -> bool {
        self.key.rank() < other.key.rank() || (self.key.rank() == other.key.rank()
            && self.sequence < other.sequence)
    }

    /// The order of two lines, given the coin that settles an ambiguous
    /// pair. The order of the keys is turned round, so that the greatest line
    /// is the one with the smallest key: the one to evict first. Equal keys
    /// are told apart by the sequence numbers, turned round as well. Where
    /// the keys cannot be compared, the sequence numbers decide, in the
    /// direction that the coin picks.
    pub open spec fn order_given(self, other: Line, coin: bool) -> Ordering {
        match other.key.partial_order(self.key) {
            Some(Ordering::Equal) => sequence_order(other.sequence, self.sequence),
            Some(order) => order,
            None => if coin {
                sequence_order(other.sequence, self.sequence)
            } else {
                sequence_order(self.sequence, other.sequence)
            },
        }
    }

    /// Orders two lines with a coin that the caller supplies.
    pub fn order(&self, other: &Line, coin: bool) -> (out: Ordering)
        ensures
            out == self.order_given(*other, coin),
    {
        self.settle(other, other.key.partial_cmp(&self.key), coin)
    }

    /// Orders two lines, the one with the smaller key being the greater,
    /// and of two with equal keys the one with the smaller sequence number. A
    /// pair whose keys cannot be compared is ordered by sequence number in a
    /// direction picked at random, anew at every call.
    pub fn cmp(&self, other: &Line) -> (out: Ordering)
        ensures
            out == self.order_given(*other, true) || out == self.order_given(*other, false),
            !self.ambiguous_with(*other) ==> out == self.order_given(*other, false),
    {
        let found = other.key.partial_cmp(&self.key);
        let coin = match found {
            Some(_) => false,
            None => flip_coin(),
        };
        self.settle(other, found, coin)
    }

    /// The order of two lines, from what the comparison of their keys found
    /// and from the coin.
    fn settle(&self, other: &Line, found: Option<Ordering>, coin: bool) -> (out: Ordering)
        requires
            found == other.key.partial_order(self.key),
        ensures
            out == self.order_given(*other, coin),
    {
        match found {
            Some(Ordering::Equal) => compare_sequences(other.sequence, self.sequence),
            Some(order) => order,
            None => if coin {
                compare_sequences(other.sequence, self.sequence)
            } else {
                compare_sequences(self.sequence, other.sequence)
            },
        }
    }

    /// The same order as `cmp`, which is total: the result is never empty.
    pub fn partial_cmp(&self, other: &Line) -> (out: Option<Ordering>)
        ensures
            out == Some(self.order_given(*other, true)) || out == Some(
                self.order_given(*other, false),
            ),
            !self.ambiguous_with(*other) ==> out == Some(self.order_given(*other, false)),
    {
        Some(self.cmp(other))
    }

    /// Whether this line is to be evicted before the other: whether it is
    /// the greater of the two in the order of `cmp`. For a pair whose keys
    /// cannot be compared the answer depends on the coin, unless the two
    /// share a sequence number.
    pub fn goes_before(&self, other: &Line) -> (out: bool)
        ensures
            !self.ambiguous_with(*other) ==> out == self.precedes(*other),
            self.ambiguous_with(*other) && self.sequence == other.sequence ==> !out,
    {
        match self.cmp(other) {
            Ordering::Greater => true,
            _ => false,
        }
    }
}

/// The order of two sequence numbers.
pub open spec fn sequence_order(a: usize, b: usize) -> Ordering {
    if a < b {
        Ordering::Less
    } else if a == b {
        Ordering::Equal
    } else {
        Ordering::Greater
    }
}

fn compare_sequences(a: usize, b: usize) -> (out: Ordering)
    ensures
        out == sequence_order(a, b),
{
    if a < b {
        Ordering::Less
    } else if a == b {
        Ordering::Equal
    } else {
        Ordering::Greater
    }
}

} // verus!
