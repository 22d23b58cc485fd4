//! FedAvg admissibility: when a set of local updates can be averaged and the
//! sample total that weights them. The weighted mean itself is floating
//! point and is taken by the caller.
use vstd::prelude::*;

verus! {

/// Sum of the sample counts.
pub open spec fn total_samples(counts: Seq<u64>) -> int
    decreases counts.len(),
{
    if counts.len() == 0 {
        0
    } else {
        total_samples(counts.drop_last()) + counts.last()
    }
}

/// All updates have the length of the first one.
pub open spec fn same_length(lens: Seq<usize>) -> bool {
    forall|i: int| 0 <= i < lens.len() ==> #[trigger] lens[i] == lens[0]
}

/// FedAvg is defined when there is at least one update, the updates carry
/// at least one sample between them, and all weight vectors have one
/// length; the weights are then `count / total`.
pub open spec fn fedavg_weight_total(lens: Seq<usize>, counts: Seq<u64>) -> Option<int> {
    if lens.len() == 0 || total_samples(counts) == 0 || !same_length(lens) {
        None
    } else {
        Some(total_samples(counts))
    }
}

proof fn lemma_total_monotone(counts: Seq<u64>, i: int)
    requires
        0 <= i <= counts.len(),
    ensures
        total_samples(counts.take(i)) <= total_samples(counts),
        total_samples(counts.take(i)) >= 0,
    decreases counts.len() - i,
{
    if i < counts.len() {
        lemma_total_monotone(counts, i + 1);
        assert(counts.take(i + 1).drop_last() =~= counts.take(i));
    } else {
        assert(counts.take(i) =~= counts);
    }
    lemma_total_nonnegative(counts.take(i));
}

proof fn lemma_total_nonnegative(counts: Seq<u64>)
    ensures
        total_samples(counts) >= 0,
    decreases counts.len(),
{
    if counts.len() > 0 {
        lemma_total_nonnegative(counts.drop_last());
    }
}

/// The FedAvg total is the sum of every update's sample count: one update
/// with `c > 0` samples has total `c`, and adding an update of the common
/// length with `c` samples to updates over which FedAvg is defined raises
/// the total by exactly `c`, so each weight `count / total` is that update's
/// share of all samples.
pub proof fn lemma_fedavg_total_sums_counts(lens: Seq<usize>, counts: Seq<u64>, len: usize, c: u64)
    requires
        lens.len() == counts.len(),
    ensures
        fedavg_weight_total(seq![len], seq![c]) == (if c > 0 {
            Some(c as int)
        } else {
            None
        }),
        fedavg_weight_total(lens, counts) matches Some(t) ==> {
            &&& t == counts.fold_left(0int, |acc: int, x: u64| acc + x)
            &&& t > 0
            &&& len == lens[0] ==> fedavg_weight_total(lens.push(len), counts.push(c)) == Some(t + c)
        },
{
    let one = seq![c];
    assert(one.drop_last() =~= Seq::<u64>::empty());
    assert(total_samples(Seq::<u64>::empty()) == 0);
    assert(total_samples(one) == c);
    lemma_total_nonnegative(counts);
    assert(same_length(seq![len]));
    lemma_total_is_fold(counts);
    if fedavg_weight_total(lens, counts) is Some && len == lens[0] {
        assert(counts.push(c).drop_last() =~= counts);
        let l2 = lens.push(len);
        assert forall|i: int| 0 <= i < l2.len() implies #[trigger] l2[i] == l2[0] by {
            if i < lens.len() {
                assert(l2[i] == lens[i]);
            }
        }
    }
}

/// `total_samples` is the left fold of `+` over the counts.
proof fn lemma_total_is_fold(counts: Seq<u64>)
    ensures
        total_samples(counts) == counts.fold_left(0int, |acc: int, x: u64| acc + x),
    decreases counts.len(),
{
    if counts.len() > 0 {
        lemma_total_is_fold(counts.drop_last());
    }
}

/// Sample total of a FedAvg over updates whose weight vectors have lengths
/// `lens` and sample counts `counts`, or `None` when FedAvg is undefined
/// (no update, no sample, or mismatched lengths).
pub fn fedavg_total(lens: &[usize], counts: &[u64]) -> (r: Option<u64>)
    requires
        lens@.len() == counts@.len(),
        total_samples(counts@) <= u64::MAX,
    ensures
        r matches Some(t) ==> fedavg_weight_total(lens@, counts@) == Some(t as int),
        r is None ==> fedavg_weight_total(lens@, counts@) is None,
{
    let mut total: u64 = 0;
    let mut i: usize = 0;
    while i < counts.len()
        invariant
            i <= counts@.len(),
            total_samples(counts@) <= u64::MAX,
            total == total_samples(counts@.take(i as int)),
        decreases counts@.len() - i,
    {
        proof {
            lemma_total_monotone(counts@, i + 1);
            assert(counts@.take(i + 1).drop_last() =~= counts@.take(i as int));
        }
        total = total + counts[i];
        i = i + 1;
    }
    assert(counts@.take(i as int) =~= counts@);
    if lens.len() == 0 || total == 0 {
        return None;
    }
    let first: usize = lens[0];
    let mut j: usize = 0;
    while j < lens.len()
        invariant
            j <= lens@.len(),
            lens@.len() > 0,
            first == lens@[0],
            forall|t: int| 0 <= t < j ==> #[trigger] lens@[t] == lens@[0],
        decreases lens@.len() - j,
    {
        if lens[j] != first {
            return None;
        }
        j = j + 1;
    }
    Some(total)
}

/// Enough participants answered the round.
pub fn quorum_reached(answered: usize, min_participants: usize) -> (r: bool)
    ensures
        r == (answered >= min_participants),
{
    answered >= min_participants
}

/// A federated round succeeds when at least `min_participants` answered and
/// FedAvg is defined over their updates (weight-vector lengths `lens`,
/// sample counts `counts`); otherwise the global model is left unchanged.
pub fn round_outcome(answered: usize, min_participants: usize, lens: &[usize], counts: &[u64]) -> (r:
    bool)
    requires
        lens@.len() == counts@.len(),
        answered >= min_participants ==> total_samples(counts@) <= u64::MAX,
    ensures
        r == (answered >= min_participants && fedavg_weight_total(lens@, counts@) is Some),
{
    if !quorum_reached(answered, min_participants) {
        return false;
    }
    fedavg_total(lens, counts).is_some()
}

} // verus!
