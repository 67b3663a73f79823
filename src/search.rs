//! The best-result accumulator and the multi-trial search.

use vstd::prelude::*;
use crate::graph::Graph;
use crate::trial::{run, sweep, independent, maximal, in_range, is_permutation};

verus! {

/// Which trial results are preferred.
#[derive(Debug, Clone, Copy, PartialEq, Eq, Structural)]
pub enum Policy {
    /// Keep the largest set found.
    Maximize,
    /// Keep the smallest set found.
    Minimize,
}

/// Whether a candidate of size `candidate` replaces a kept result of size
/// `current`: strictly larger when maximizing, strictly smaller when minimizing.
pub open spec fn improves(policy: Policy, candidate: nat, current: nat) -> bool {
    match policy {
        Policy::Maximize => candidate > current,
        Policy::Minimize => candidate < current,
    }
}

/// The size the accumulator starts from: `0` when maximizing, the number of
/// vertices when minimizing.
pub open spec fn sentinel(policy: Policy, vertex_count: nat) -> nat {
    match policy {
        Policy::Maximize => 0,
        Policy::Minimize => vertex_count,
    }
}

/// The accumulator after offering each result in turn, starting from
/// `start`: the first result always replaces the start; each later one
/// replaces the kept result only when it strictly improves on it.
pub open spec fn reduce(
    policy: Policy,
    start: (nat, Seq<usize>),
    results: Seq<Seq<usize>>,
) -> (nat, Seq<usize>)
    decreases results.len(),
{
    if results.len() == 0 {
        start
    } else {
        let prev = reduce(policy, start, results.drop_last());
        let c = results.last();
        if results.len() == 1 || improves(policy, c.len(), prev.0) {
            (c.len(), c)
        } else {
            prev
        }
    }
}

/// The best result so far: its size and its member vertices, and whether it
/// holds a trial result yet (before the first one it holds the sentinel).
pub struct Best {
    pub size: usize,
    pub members: Vec<usize>,
    pub filled: bool,
}

impl Best {
    /// The view: size and members.
    pub open spec fn view_pair(&self) -> (nat, Seq<usize>) {
        (self.size as nat, self.members@)
    }

    /// The accumulator before any trial: the sentinel size, no members.
    pub fn initial(policy: Policy, vertex_count: usize) -> (b: Best)
        ensures
            b.size == sentinel(policy, vertex_count as nat),
            b.members@ == Seq::<usize>::empty(),
            !b.filled,
    {
        let size = match policy {
            Policy::Maximize => 0,
            Policy::Minimize => vertex_count,
        };
        Best { size, members: Vec::new(), filled: false }
    }

    /// Offers one trial result. The first one always replaces the sentinel;
    /// after that a result replaces the kept one exactly when it is strictly
    /// better under `policy`, so an equal size keeps the earlier one.
    /// Returns whether it replaced it.
    pub fn offer(&mut self, policy: Policy, candidate: Vec<usize>) -> (replaced: bool)
        ensures
            replaced == (!old(self).filled || improves(policy, candidate@.len(), old(self).size as nat)),
            final(self).filled,
            replaced ==> final(self).size == candidate@.len() && final(self).members@ == candidate@,
            !replaced ==> final(self).size == old(self).size && final(self).members@ == old(self).members@,
    {
        let better = match policy {
            Policy::Maximize => candidate.len() > self.size,
            Policy::Minimize => candidate.len() < self.size,
        };
        let replace = !self.filled || better;
        if replace {
            self.size = candidate.len();
            self.members = candidate;
            self.filled = true;
        }
        replace
    }
}

/// The view of a list of results.
pub open spec fn results_view(results: Seq<Vec<usize>>) -> Seq<Seq<usize>> {
    results.map_values(|r: Vec<usize>| r@)
}

/// Offers each result in turn, in order, to a fresh accumulator.
pub fn select_best(policy: Policy, vertex_count: usize, results: Vec<Vec<usize>>) -> (b: Best)
    ensures
        b.view_pair() == reduce(
            policy,
            (sentinel(policy, vertex_count as nat), Seq::empty()),
            results_view(results@),
        ),
        b.filled == (results@.len() > 0),
{
    let ghost rv = results_view(results@);
    let ghost start = (sentinel(policy, vertex_count as nat), Seq::<usize>::empty());
    let mut results = results;
    let mut best = Best::initial(policy, vertex_count);
    let mut i: usize = 0;
    while i < results.len()
        invariant
            i <= results@.len(),
            rv.len() == results@.len(),
            forall|k: int| i <= k < results@.len() ==> results@[k]@ == #[trigger] rv[k],
            best.view_pair() == reduce(policy, start, rv.subrange(0, i as int)),
            best.filled == (i > 0),
        decreases results@.len() - i,
    {
        let mut c: Vec<usize> = Vec::new();
        std::mem::swap(&mut results[i], &mut c);
        assert(c@ == rv[i as int]);
        assert(rv.subrange(0, i + 1).drop_last() =~= rv.subrange(0, i as int));
        best.offer(policy, c);
        i = i + 1;
    }
    assert(rv.subrange(0, rv.len() as int) =~= rv);
    best
}

/// `s` is what one trial can give: the sweep of an order listing every vertex once.
pub open spec fn is_trial(g: Graph, s: Seq<usize>) -> bool {
    exists|order: Seq<usize>| is_permutation(order, g.order()) && s == sweep(g.adj_view(), order)
}

/// Runs `trials` trials on `g`, one after the other, offering each result to
/// an accumulator started from the sentinel. The outcome is the reduction of
/// some `trials` trial results. With no trial it is the sentinel; otherwise
/// it is a trial result, independent and maximal, with its size.
pub fn search(g: &Graph, policy: Policy, trials: usize) -> (b: Best)
    requires
        g.wf(),
    ensures
        exists|results: Seq<Seq<usize>>|
            results.len() == trials && (forall|k: int| 0 <= k < results.len() ==> is_trial(*g, #[trigger] results[k]))
                && b.view_pair() == reduce(policy, (sentinel(policy, g.order()), Seq::empty()), results),
        b.filled == (trials > 0),
        trials == 0 ==> b.size == sentinel(policy, g.order()) && b.members@ == Seq::<usize>::empty(),
        trials > 0 ==> b.size == b.members@.len() && is_trial(*g, b.members@) && independent(
            g.adj_view(),
            b.members@,
        ) && maximal(g.adj_view(), b.members@) && in_range(b.members@, g.order()),
{
    let ghost start = (sentinel(policy, g.order()), Seq::<usize>::empty());
    let ghost mut results: Seq<Seq<usize>> = Seq::empty();
    let mut best = Best::initial(policy, g.len());
    let mut i: usize = 0;
    while i < trials
        invariant
            g.wf(),
            i <= trials,
            results.len() == i,
            forall|k: int| 0 <= k < results.len() ==> is_trial(*g, #[trigger] results[k]),
            best.view_pair() == reduce(policy, start, results),
            start == (sentinel(policy, g.order()), Seq::<usize>::empty()),
            best.filled == (i > 0),
            i == 0 ==> best.size == start.0 && best.members@ == start.1,
            i > 0 ==> best.size == best.members@.len() && is_trial(*g, best.members@) && independent(
                g.adj_view(),
                best.members@,
            ) && maximal(g.adj_view(), best.members@) && in_range(best.members@, g.order()),
        decreases trials - i,
    {
        let a = run(g);
        let ghost av = a@;
        proof {
            assert(results.push(av).drop_last() =~= results);
            results = results.push(av);
        }
        best.offer(policy, a);
        i = i + 1;
    }
    best
}

/// When maximizing, over one or more results the kept size is the largest
/// result size, and the kept members are the first result of that size.
pub proof fn lemma_maximize_keeps_first_largest(start: (nat, Seq<usize>), results: Seq<Seq<usize>>)
    requires
        results.len() > 0,
    ensures
        ({
            let b = reduce(Policy::Maximize, start, results);
            &&& forall|k: int| 0 <= k < results.len() ==> #[trigger] results[k].len() <= b.0
            &&& exists|k: int|
                0 <= k < results.len() && results[k].len() == b.0 && b.1 == results[k] && forall|j: int|
                    0 <= j < k ==> #[trigger] results[j].len() < b.0
        }),
    decreases results.len(),
{
    let pre = results.drop_last();
    let c = results.last();
    let last = results.len() - 1;
    assert(results[last] == c);
    let b = reduce(Policy::Maximize, start, results);
    if pre.len() > 0 {
        lemma_maximize_keeps_first_largest(start, pre);
        let p = reduce(Policy::Maximize, start, pre);
        let k = choose|k: int|
            0 <= k < pre.len() && pre[k].len() == p.0 && p.1 == pre[k] && forall|j: int|
                0 <= j < k ==> #[trigger] pre[j].len() < p.0;
        assert forall|j: int| 0 <= j < results.len() implies #[trigger] results[j].len() <= b.0 by {
            if j < pre.len() {
                assert(results[j] == pre[j]);
            }
        }
        if c.len() > p.0 {
            assert forall|j: int| 0 <= j < last implies #[trigger] results[j].len() < b.0 by {
                assert(results[j] == pre[j]);
            }
        } else {
            assert(results[k] == pre[k]);
            assert forall|j: int| 0 <= j < k implies #[trigger] results[j].len() < b.0 by {
                assert(results[j] == pre[j]);
            }
        }
    }
}

/// When minimizing, over one or more results the kept size is the smallest
/// result size, and the kept members are the first result of that size.
pub proof fn lemma_minimize_keeps_first_smallest(start: (nat, Seq<usize>), results: Seq<Seq<usize>>)
    requires
        results.len() > 0,
    ensures
        ({
            let b = reduce(Policy::Minimize, start, results);
            &&& forall|k: int| 0 <= k < results.len() ==> b.0 <= #[trigger] results[k].len()
            &&& exists|k: int|
                0 <= k < results.len() && results[k].len() == b.0 && b.1 == results[k] && forall|j: int|
                    0 <= j < k ==> #[trigger] results[j].len() > b.0
        }),
    decreases results.len(),
{
    let pre = results.drop_last();
    let c = results.last();
    let last = results.len() - 1;
    assert(results[last] == c);
    let b = reduce(Policy::Minimize, start, results);
    if pre.len() > 0 {
        lemma_minimize_keeps_first_smallest(start, pre);
        let p = reduce(Policy::Minimize, start, pre);
        let k = choose|k: int|
            0 <= k < pre.len() && pre[k].len() == p.0 && p.1 == pre[k] && forall|j: int|
                0 <= j < k ==> #[trigger] pre[j].len() > p.0;
        assert forall|j: int| 0 <= j < results.len() implies b.0 <= #[trigger] results[j].len() by {
            if j < pre.len() {
                assert(results[j] == pre[j]);
            }
        }
        if c.len() < p.0 {
            assert forall|j: int| 0 <= j < last implies #[trigger] results[j].len() > b.0 by {
                assert(results[j] == pre[j]);
            }
        } else {
            assert(results[k] == pre[k]);
            assert forall|j: int| 0 <= j < k implies #[trigger] results[j].len() > b.0 by {
                assert(results[j] == pre[j]);
            }
        }
    }
}

/// Over one or more trial results offered in turn to the sentinel, the kept
/// size is the largest of their sizes when maximizing and the smallest when
/// minimizing, and the kept members are a result of that size.
pub proof fn lemma_extremal_selection(g: Graph, policy: Policy, results: Seq<Seq<usize>>)
    requires
        g.wf(),
        results.len() > 0,
        forall|k: int| 0 <= k < results.len() ==> is_trial(g, #[trigger] results[k]),
    ensures
        ({
            let b = reduce(policy, (sentinel(policy, g.order()), Seq::empty()), results);
            &&& exists|k: int| 0 <= k < results.len() && results[k].len() == b.0 && b.1 == results[k]
            &&& policy == Policy::Maximize ==> forall|k: int|
                0 <= k < results.len() ==> #[trigger] results[k].len() <= b.0
            &&& policy == Policy::Minimize ==> forall|k: int|
                0 <= k < results.len() ==> b.0 <= #[trigger] results[k].len()
        }),
{
    let start = (sentinel(policy, g.order()), Seq::<usize>::empty());
    match policy {
        Policy::Maximize => {
            lemma_maximize_keeps_first_largest(start, results);
        },
        Policy::Minimize => {
            lemma_minimize_keeps_first_smallest(start, results);
        },
    }
}

} // verus!
