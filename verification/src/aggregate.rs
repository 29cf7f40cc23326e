//! The running aggregate: a sum and a sample count, updated once per valid
//! sample and read as one consistent pair when a query arrives.

use vstd::prelude::*;
use vstd::seq_lib::*;

use crate::reply::QueryableData;
use crate::sample::is_i32_text;
use crate::sample::parse_sample;
use crate::sample::text_value;

verus! {

/// The shared state of the aggregator: the sum of all accepted samples and
/// how many there were. Both fields live in one value so that a reader
/// always sees a pair produced by the same update.
#[derive(Clone, Copy, Debug, PartialEq, Eq, Structural)]
pub struct Aggregate {
    pub sum: i64,
    pub count: u128,
}

/// The operator that folds one sample into the running sum.
pub open spec fn add_op() -> spec_fn(i32, int) -> int {
    |x: i32, acc: int| acc + x as int
}

/// The arithmetic sum of a sequence of samples.
pub open spec fn sum_of(samples: Seq<i32>) -> int {
    samples.fold_right(add_op(), 0)
}

/// One update of the aggregate's mathematical state by a sample of value `v`.
pub open spec fn step(sum: int, count: nat, v: int) -> (int, nat) {
    (sum + v, count + 1)
}

/// The state reached from `(sum, count)` after accepting `samples` in order.
pub open spec fn run(sum: int, count: nat, samples: Seq<i32>) -> (int, nat)
    decreases samples.len(),
{
    if samples.len() == 0 {
        (sum, count)
    } else {
        let prev = run(sum, count, samples.drop_last());
        step(prev.0, prev.1, samples.last() as int)
    }
}

/// The aggregate has room for one more sample, whatever its value: the count
/// is not saturated and no 32-bit sample can overflow the 64-bit sum.
pub open spec fn can_accept(a: Aggregate) -> bool {
    &&& a.count < u128::MAX
    &&& a.sum + i32::MAX <= i64::MAX
    &&& i64::MIN <= a.sum + i32::MIN
}

impl Aggregate {
    /// A fresh aggregate: no samples yet.
    pub fn new() -> (r: Self)
        ensures
            r.sum == 0,
            r.count == 0,
    {
        Aggregate { sum: 0, count: 0 }
    }

    /// Accepts one valid sample: adds it to the sum and counts it.
    pub fn add_sample(&mut self, v: i32)
        requires
            old(self).count < u128::MAX,
            i64::MIN <= old(self).sum + v,
            old(self).sum + v <= i64::MAX,
        ensures
            final(self).sum == old(self).sum + v,
            final(self).count == old(self).count + 1,
            (final(self).sum as int, final(self).count as nat) == step(
                old(self).sum as int,
                old(self).count as nat,
                v as int,
            ),
    {
        self.sum = self.sum + v as i64;
        self.count = self.count + 1;
    }

    /// Handles one received payload: a well-formed payload is folded into the
    /// aggregate, a malformed one is rejected and leaves it untouched.
    pub fn apply_payload(&mut self, payload: &[u8]) -> (accepted: bool)
        requires
            can_accept(*old(self)),
        ensures
            accepted <==> is_i32_text(payload@),
            accepted ==> (final(self).sum as int, final(self).count as nat) == step(
                old(self).sum as int,
                old(self).count as nat,
                text_value(payload@),
            ),
            !accepted ==> *final(self) == *old(self),
    {
        match parse_sample(payload) {
            Some(v) => {
                self.add_sample(v);
                true
            },
            None => false,
        }
    }

    /// Reads the sum and the count as one consistent pair: both components
    /// come from the same state of the aggregate.
    pub fn snapshot(&self) -> (r: (i64, u128))
        ensures
            r.0 == self.sum,
            r.1 == self.count,
    {
        (self.sum, self.count)
    }

    /// Builds the response to a query from this aggregate's state. The
    /// caller supplies the bit pattern of `sum / count` as a double; before
    /// any sample has arrived the response carries the default average
    /// `+0.0` (bit pattern zero) instead.
    pub fn make_reply(&self, average_bits: u64) -> (r: QueryableData)
        ensures
            r.nb_values == self.count,
            self.count == 0 ==> r.average_bits == 0,
            self.count > 0 ==> r.average_bits == average_bits,
    {
        if self.count == 0 {
            QueryableData::new(0, 0)
        } else {
            QueryableData::new(average_bits, self.count)
        }
    }
}

proof fn lemma_add_op_commutes()
    ensures
        commutative_foldr(add_op()),
{
    assert forall|x: i32, y: i32, v: int| #[trigger] add_op()(x, add_op()(y, v)) == add_op()(
        y,
        add_op()(x, v),
    ) by {
    }
}

/// The state after a sequence of samples, spelled out: the initial sum plus
/// the arithmetic sum of the samples, and the initial count plus how many
/// samples there were.
pub proof fn lemma_run_totals(sum: int, count: nat, samples: Seq<i32>)
    ensures
        run(sum, count, samples).0 == sum + sum_of(samples),
        run(sum, count, samples).1 == count + samples.len(),
    decreases samples.len(),
{
    if samples.len() > 0 {
        lemma_run_totals(sum, count, samples.drop_last());
        lemma_add_op_commutes();
        samples.drop_last().lemma_fold_right_commute_one(samples.last(), add_op(), 0);
    }
}

/// Law: starting from a fresh aggregate, after any sequence of N valid
/// samples the count is N and the sum is the arithmetic sum of the samples.
pub proof fn lemma_aggregate_totals(samples: Seq<i32>)
    ensures
        run(0, 0, samples) == (sum_of(samples), samples.len() as nat),
{
    lemma_run_totals(0, 0, samples);
}

/// Law: the final aggregate state does not depend on the order in which the
/// samples were delivered, only on which samples there were.
pub proof fn lemma_aggregate_order_independent(sum: int, count: nat, s1: Seq<i32>, s2: Seq<i32>)
    requires
        s1.to_multiset() == s2.to_multiset(),
    ensures
        run(sum, count, s1) == run(sum, count, s2),
{
    broadcast use vstd::seq_lib::group_to_multiset_ensures;

    lemma_run_totals(sum, count, s1);
    lemma_run_totals(sum, count, s2);
    lemma_add_op_commutes();
    lemma_fold_right_permutation(s1, s2, add_op(), 0);
    assert(s1.len() == s1.to_multiset().len());
    assert(s2.len() == s2.to_multiset().len());
}

} // verus!
