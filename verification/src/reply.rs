//! The query response and the client's rule for choosing among several of
//! them: keep the response with the strictly greatest sample count, so that
//! ties are resolved in favour of the response that arrived first.

use vstd::prelude::*;

verus! {

/// One response to an average query: the average carried as the bit pattern
/// of an IEEE 754 double (the library never does arithmetic on it), and the
/// number of samples it was computed from.
///
/// A bit pattern of `0` stands for the default average `+0.0`, returned
/// before any sample has arrived.
#[derive(Clone, Copy, Debug, PartialEq, Eq, Structural)]
pub struct QueryableData {
    pub average_bits: u64,
    pub nb_values: u128,
}

impl QueryableData {
    pub fn new(average_bits: u64, nb_values: u128) -> (r: Self)
        ensures
            r.average_bits == average_bits,
            r.nb_values == nb_values,
    {
        QueryableData { average_bits, nb_values }
    }
}

/// The response a client starts from before any reply has arrived: zero
/// samples and the default average.
pub open spec fn no_reply() -> QueryableData {
    QueryableData { average_bits: 0, nb_values: 0 }
}

/// The response left after folding the choice rule over `replies` in arrival
/// order, starting from `no_reply()`: a reply displaces the current choice
/// exactly when its sample count is strictly greater.
pub open spec fn selected(replies: Seq<QueryableData>) -> QueryableData
    decreases replies.len(),
{
    if replies.len() == 0 {
        no_reply()
    } else {
        let prev = selected(replies.drop_last());
        if replies.last().nb_values > prev.nb_values {
            replies.last()
        } else {
            prev
        }
    }
}

/// One step of the client's choice: `reply` replaces the current best exactly
/// when its sample count is strictly greater.
pub fn select_step(best: &mut QueryableData, reply: QueryableData)
    ensures
        reply.nb_values > old(best).nb_values ==> *final(best) == reply,
        reply.nb_values <= old(best).nb_values ==> *final(best) == *old(best),
{
    if reply.nb_values > best.nb_values {
        *best = reply;
    }
}

/// Chooses among all `replies`, in arrival order, the one the client reports.
pub fn select_best(replies: &Vec<QueryableData>) -> (r: QueryableData)
    ensures
        r == selected(replies@),
{
    let mut best = QueryableData { average_bits: 0, nb_values: 0 };
    let mut i: usize = 0;
    while i < replies.len()
        invariant
            i <= replies.len(),
            best == selected(replies@.subrange(0, i as int)),
        decreases replies.len() - i,
    {
        select_step(&mut best, replies[i]);
        proof {
            assert(replies@.subrange(0, i + 1 as int).drop_last() =~= replies@.subrange(
                0,
                i as int,
            ));
            assert(replies@.subrange(0, i + 1 as int).last() == replies@[i as int]);
        }
        i = i + 1;
    }
    proof {
        assert(replies@.subrange(0, replies@.len() as int) =~= replies@);
    }
    best
}

/// Law: the chosen response carries the greatest sample count of all replies,
/// and a tie is resolved by arrival order: the chosen response is a reply
/// that every earlier reply undercuts strictly. If no reply carries a sample
/// at all, the client is left with the starting response.
pub proof fn lemma_selection_picks_first_maximum(replies: Seq<QueryableData>)
    ensures
        forall|i: int|
            0 <= i < replies.len() ==> (#[trigger] replies[i]).nb_values <= selected(
                replies,
            ).nb_values,
        (exists|i: int| 0 <= i < replies.len() && (#[trigger] replies[i]).nb_values > 0)
            ==> exists|j: int|
            0 <= j < replies.len() && replies[j] == selected(replies) && (forall|k: int|
                0 <= k < j ==> (#[trigger] replies[k]).nb_values < replies[j].nb_values),
        (forall|i: int| 0 <= i < replies.len() ==> (#[trigger] replies[i]).nb_values == 0)
            ==> selected(replies) == no_reply(),
    decreases replies.len(),
{
    if replies.len() > 0 {
        let dl = replies.drop_last();
        lemma_selection_picks_first_maximum(dl);
        let prev = selected(dl);
        let last = replies.last();
        assert(forall|i: int| 0 <= i < dl.len() ==> #[trigger] dl[i] == replies[i]);
        assert(last == replies[replies.len() - 1]);
        assert forall|i: int| 0 <= i < replies.len() implies (#[trigger] replies[i]).nb_values
            <= selected(replies).nb_values by {
            if i < replies.len() - 1 {
                assert(dl[i] == replies[i]);
                assert(dl[i].nb_values <= prev.nb_values);
            }
        }
        if last.nb_values > prev.nb_values {
            let j = replies.len() - 1;
            assert(replies[j] == selected(replies));
            assert forall|k: int| 0 <= k < j implies (#[trigger] replies[k]).nb_values
                < replies[j].nb_values by {
                assert(dl[k] == replies[k]);
                assert(dl[k].nb_values <= prev.nb_values);
            }
        } else {
            assert(selected(replies) == prev);
            if exists|i: int| 0 <= i < replies.len() && (#[trigger] replies[i]).nb_values > 0 {
                if prev.nb_values == 0 {
                    let w = choose|i: int|
                        0 <= i < replies.len() && (#[trigger] replies[i]).nb_values > 0;
                    if w < replies.len() - 1 {
                        assert(dl[w].nb_values <= prev.nb_values);
                    }
                    assert(false);
                } else {
                    if forall|i: int| 0 <= i < dl.len() ==> (#[trigger] dl[i]).nb_values == 0 {
                        assert(prev == no_reply());
                        assert(false);
                    }
                    assert(exists|i: int| 0 <= i < dl.len() && (#[trigger] dl[i]).nb_values > 0);
                    let j = choose|j: int|
                        0 <= j < dl.len() && dl[j] == selected(dl) && (forall|k: int|
                            0 <= k < j ==> (#[trigger] dl[k]).nb_values < dl[j].nb_values);
                    assert(dl[j] == replies[j]);
                    assert(replies[j] == selected(replies));
                    assert forall|k: int| 0 <= k < j implies (#[trigger] replies[k]).nb_values
                        < replies[j].nb_values by {
                        assert(dl[k] == replies[k]);
                        assert(dl[k].nb_values < dl[j].nb_values);
                    }
                }
            }
        }
    }
}

} // verus!
