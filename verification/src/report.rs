//! Comparing the height that the heuristic gives with the height that
//! measurements favour.

use vstd::prelude::*;
use crate::tree::analyze::{compute_tree_height_heuristic, DEFAULT_NUMBER_ELEM_PER_NODE};

verus! {

/// One measurement: what a query cost on a tree of `height` levels.
#[derive(Clone, Copy, Debug, PartialEq, Eq, Structural)]
pub struct Bench {
    pub height: usize,
    pub cost: u64,
}

/// A height for a number of elements.
#[derive(Clone, Copy, Debug, PartialEq, Eq, Structural)]
pub struct BenchRecord {
    pub height: usize,
    pub num_bots: usize,
}

/// The two series of the comparison: for each number of elements that
/// was measured the height that cost least, and for each number of
/// elements the height that the heuristic gives.
pub struct Comparison {
    pub optimal: Vec<BenchRecord>,
    pub heuristic: Vec<BenchRecord>,
}

/// `k` is the place of the first measurement with the least cost.
pub open spec fn is_first_least(benches: Seq<Bench>, k: int) -> bool {
    &&& 0 <= k < benches.len()
    &&& forall|j: int| 0 <= j < benches.len() ==> benches[k].cost <= (#[trigger] benches[j]).cost
    &&& forall|j: int| 0 <= j < k ==> (#[trigger] benches[j]).cost > benches[k].cost
}

/// The place of the first measurement with the least cost among the first
/// `upto` measurements.
pub open spec fn least_at(benches: Seq<Bench>, upto: int) -> int
    decreases upto,
{
    if upto <= 1 {
        0
    } else {
        let k = least_at(benches, upto - 1);
        if benches[upto - 1].cost < benches[k].cost {
            upto - 1
        } else {
            k
        }
    }
}

/// [`least_at`] is the place of the first measurement with the least
/// cost.
pub proof fn lemma_least_at(benches: Seq<Bench>, upto: int)
    requires
        1 <= upto <= benches.len(),
    ensures
        is_first_least(benches.subrange(0, upto), least_at(benches, upto)),
    decreases upto,
{
    if upto > 1 {
        lemma_least_at(benches, upto - 1);
        let part = benches.subrange(0, upto - 1);
        let more = benches.subrange(0, upto);
        let k0 = least_at(benches, upto - 1);
        let k = least_at(benches, upto);
        assert forall|j: int| 0 <= j < more.len() implies more[k].cost <= (#[trigger] more[j]).cost by {
            if j < upto - 1 {
                assert(part[j] == more[j]);
                assert(part[k0].cost <= part[j].cost);
            }
        }
        assert forall|j: int| 0 <= j < k implies (#[trigger] more[j]).cost > more[k].cost by {
            assert(part[j] == more[j]);
            if k != k0 {
                assert(part[k0].cost <= part[j].cost);
            }
        }
    }
}

/// The record of the cheapest height for `num_bots` elements, if anything
/// was measured.
pub open spec fn lowest_of(num_bots: usize, benches: Seq<Bench>) -> Option<BenchRecord> {
    if benches.len() == 0 {
        None
    } else {
        Some(BenchRecord { height: benches[least_at(benches, benches.len() as int)].height, num_bots })
    }
}

/// The height of the first measurement with the least cost, for
/// `num_bots` elements; `None` if nothing was measured.
pub fn handle_lowest(num_bots: usize, benches: &[Bench]) -> (r: Option<BenchRecord>)
    ensures
        r == lowest_of(num_bots, benches@),
        benches@.len() > 0 ==> is_first_least(benches@, least_at(benches@, benches@.len() as int)),
{
    if benches.len() == 0 {
        return None;
    }
    let mut best: usize = 0;
    let mut i: usize = 1;
    while i < benches.len()
        invariant
            1 <= i <= benches@.len(),
            best == least_at(benches@, i as int),
            best < i,
        decreases benches@.len() - i,
    {
        if benches[i].cost < benches[best].cost {
            best = i;
        }
        i += 1;
    }
    proof {
        lemma_least_at(benches@, benches@.len() as int);
        assert(benches@.subrange(0, benches@.len() as int) =~= benches@);
    }
    Some(BenchRecord { height: benches[best].height, num_bots })
}

/// The records of the cheapest heights for the first `upto` sizes, in
/// order: one for each size of which something was measured.
pub open spec fn optimal_of(sizes: Seq<usize>, benches: Seq<Vec<Bench>>, upto: int) -> Seq<
    BenchRecord,
>
    decreases upto,
{
    if upto <= 0 {
        Seq::empty()
    } else {
        let before = optimal_of(sizes, benches, upto - 1);
        match lowest_of(sizes[upto - 1], benches[upto - 1]@) {
            None => before,
            Some(record) => before.push(record),
        }
    }
}

/// The comparison for the numbers of elements in `sizes`, of which
/// `benches` holds the measurements, size by size.
pub fn handle(sizes: &[usize], benches: &[Vec<Bench>]) -> (r: Comparison)
    requires
        sizes@.len() == benches@.len(),
    ensures
        r.heuristic@.len() == sizes@.len(),
        forall|i: int|
            0 <= i < sizes@.len() ==> (#[trigger] r.heuristic@[i]).num_bots == sizes@[i]
                && r.heuristic@[i].height == crate::tree::analyze::height_heuristic(
                sizes@[i] as nat,
                DEFAULT_NUMBER_ELEM_PER_NODE as nat,
                crate::tree::analyze::MAX_HEIGHT as nat,
            ),
        r.optimal@ == optimal_of(sizes@, benches@, sizes@.len() as int),
{
    let mut optimal: Vec<BenchRecord> = Vec::new();
    let mut heuristic: Vec<BenchRecord> = Vec::new();
    let mut i: usize = 0;
    while i < sizes.len()
        invariant
            i <= sizes@.len(),
            sizes@.len() == benches@.len(),
            heuristic@.len() == i,
            forall|t: int|
                0 <= t < i ==> (#[trigger] heuristic@[t]).num_bots == sizes@[t]
                    && heuristic@[t].height == crate::tree::analyze::height_heuristic(
                    sizes@[t] as nat,
                    DEFAULT_NUMBER_ELEM_PER_NODE as nat,
                    crate::tree::analyze::MAX_HEIGHT as nat,
                ),
            optimal@ == optimal_of(sizes@, benches@, i as int),
        decreases sizes@.len() - i,
    {
        let num_bots = sizes[i];
        match handle_lowest(num_bots, benches[i].as_slice()) {
            Some(record) => {
                optimal.push(record);
            },
            None => {},
        }
        let height = compute_tree_height_heuristic(num_bots, DEFAULT_NUMBER_ELEM_PER_NODE);
        heuristic.push(BenchRecord { height, num_bots });
        i += 1;
    }
    Comparison { optimal, heuristic }
}

} // verus!
