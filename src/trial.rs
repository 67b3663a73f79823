//! One trial: a random order of the vertices, swept greedily into a maximal
//! independent set.

use vstd::prelude::*;
use rand::seq::SliceRandom;
use crate::graph::{Graph, adj_bounded, adj_symmetric};

verus! {

/// Whether `v` is selected in `sel` or is a neighbour of a selected vertex.
pub open spec fn covers(adj: Seq<Seq<usize>>, sel: Seq<usize>, v: usize) -> bool {
    exists|j: int| 0 <= j < sel.len() && (sel[j] == v || adj[sel[j] as int].contains(v))
}

/// The greedy sweep of `order`: each vertex not yet covered by the
/// selection so far is selected, in a single left-to-right pass.
pub open spec fn sweep(adj: Seq<Seq<usize>>, order: Seq<usize>) -> Seq<usize>
    decreases order.len(),
{
    if order.len() == 0 {
        Seq::empty()
    } else {
        let prev = sweep(adj, order.drop_last());
        if covers(adj, prev, order.last()) {
            prev
        } else {
            prev.push(order.last())
        }
    }
}

/// No vertex occurs twice and no two members are adjacent.
pub open spec fn independent(adj: Seq<Seq<usize>>, s: Seq<usize>) -> bool {
    forall|i: int, j: int|
        #![trigger s[i], s[j]]
        0 <= i < s.len() && 0 <= j < s.len() && i != j ==> s[i] != s[j] && !adj[s[i] as int].contains(
            s[j],
        )
}

/// `v` is a member of `s` or has a neighbour in `s`.
pub open spec fn dominated(adj: Seq<Seq<usize>>, s: Seq<usize>, v: usize) -> bool {
    s.contains(v) || exists|u: usize| s.contains(u) && #[trigger] adj[v as int].contains(u)
}

/// Every vertex is a member of `s` or has a neighbour in `s`.
pub open spec fn maximal(adj: Seq<Seq<usize>>, s: Seq<usize>) -> bool {
    forall|v: usize| v < adj.len() ==> #[trigger] dominated(adj, s, v)
}

/// Every entry of `s` is a vertex.
pub open spec fn in_range(s: Seq<usize>, n: nat) -> bool {
    forall|i: int| 0 <= i < s.len() ==> s[i] < n
}

/// The vertices `0 .. n` in increasing order.
pub open spec fn all_vertices(n: nat) -> Seq<usize> {
    Seq::new(n, |i: int| i as usize)
}

/// `order` lists every vertex `0 .. n` exactly once.
pub open spec fn is_permutation(order: Seq<usize>, n: nat) -> bool {
    order.to_multiset() == all_vertices(n).to_multiset()
}

/// The sweep selects vertices of the order, each once, never two adjacent ones.
pub proof fn lemma_sweep_independent(adj: Seq<Seq<usize>>, order: Seq<usize>)
    requires
        adj_bounded(adj),
        adj_symmetric(adj),
        in_range(order, adj.len()),
    ensures
        independent(adj, sweep(adj, order)),
        in_range(sweep(adj, order), adj.len()),
        sweep(adj, order).len() <= order.len(),
    decreases order.len(),
{
    if order.len() > 0 {
        let pre = order.drop_last();
        lemma_sweep_independent(adj, pre);
        let prev = sweep(adj, pre);
        let v = order.last();
        assert(v == order[order.len() - 1]);
        assert(v < adj.len());
        if !covers(adj, prev, v) {
            let s = prev.push(v);
            assert forall|i: int, j: int|
                0 <= i < s.len() && 0 <= j < s.len() && i != j implies s[i] != s[j]
                    && !adj[s[i] as int].contains(s[j]) by {
                if i == prev.len() {
                    assert(s[j] == prev[j]);
                    assert(!(prev[j] == v || adj[prev[j] as int].contains(v)));
                    if adj[v as int].contains(prev[j]) {
                        assert(adj[prev[j] as int].contains(v));
                    }
                } else if j == prev.len() {
                    assert(s[i] == prev[i]);
                    assert(!(prev[i] == v || adj[prev[i] as int].contains(v)));
                } else {
                    assert(s[i] == prev[i] && s[j] == prev[j]);
                    assert(prev[i] != prev[j] && !adj[prev[i] as int].contains(prev[j]));
                }
            }
        }
    }
}

/// Once covered, a vertex stays covered as the sweep goes on.
pub proof fn lemma_sweep_covers(adj: Seq<Seq<usize>>, order: Seq<usize>, k: int)
    requires
        0 <= k < order.len(),
    ensures
        covers(adj, sweep(adj, order), order[k]),
    decreases order.len(),
{
    let pre = order.drop_last();
    let prev = sweep(adj, pre);
    let v = order.last();
    if k < order.len() - 1 {
        lemma_sweep_covers(adj, pre, k);
        assert(pre[k] == order[k]);
        if !covers(adj, prev, v) {
            let w = order[k];
            let j = choose|j: int| 0 <= j < prev.len() && (prev[j] == w || adj[prev[j] as int].contains(w));
            assert(prev.push(v)[j] == prev[j]);
        }
    } else if !covers(adj, prev, v) {
        assert(prev.push(v)[prev.len() as int] == v);
    }
}

/// The sweep of an order that lists every vertex is maximal: each vertex is
/// selected or has a selected neighbour.
pub proof fn lemma_sweep_maximal(adj: Seq<Seq<usize>>, order: Seq<usize>)
    requires
        adj_bounded(adj),
        adj_symmetric(adj),
        in_range(order, adj.len()),
        forall|v: usize| v < adj.len() ==> order.contains(v),
    ensures
        maximal(adj, sweep(adj, order)),
{
    let s = sweep(adj, order);
    lemma_sweep_independent(adj, order);
    assert forall|v: usize| v < adj.len() implies #[trigger] dominated(adj, s, v) by {
        assert(order.contains(v));
        let k = choose|k: int| 0 <= k < order.len() && order[k] == v;
        lemma_sweep_covers(adj, order, k);
        let j = choose|j: int| 0 <= j < s.len() && (s[j] == v || adj[s[j] as int].contains(v));
        if s[j] != v {
            assert(s[j] < adj.len());
            assert(adj[s[j] as int].contains(v));
            assert(adj[v as int].contains(s[j]));
            assert(s.contains(s[j]));
        } else {
            assert(s.contains(v));
        }
    }
}

/// The greedy sweep of `order` over the graph, computed in one pass with a
/// table of covered vertices.
pub fn sweep_order(g: &Graph, order: &Vec<usize>) -> (r: Vec<usize>)
    requires
        g.wf(),
        in_range(order@, g.order()),
    ensures
        r@ == sweep(g.adj_view(), order@),
{
    let ghost adj = g.adj_view();
    let n = g.len();
    let mut covered: Vec<bool> = Vec::new();
    while covered.len() < n
        invariant
            covered@.len() <= n,
            forall|v: int| 0 <= v < covered@.len() ==> !covered@[v],
        decreases n - covered@.len(),
    {
        covered.push(false);
    }
    let mut sel: Vec<usize> = Vec::new();
    let mut i: usize = 0;
    while i < order.len()
        invariant
            g.wf(),
            adj == g.adj_view(),
            n == adj.len(),
            in_range(order@, n as nat),
            i <= order@.len(),
            covered@.len() == n,
            sel@ == sweep(adj, order@.subrange(0, i as int)),
            forall|v: int| 0 <= v < n ==> covered@[v] == covers(adj, sel@, v as usize),
        decreases order@.len() - i,
    {
        let v = order[i];
        assert(order@.subrange(0, i + 1).drop_last() =~= order@.subrange(0, i as int));
        if !covered[v] {
            let ghost sel0 = sel@;
            sel.push(v);
            covered.set(v, true);
            let nb = g.neighbors(v);
            let mut k: usize = 0;
            while k < nb.len()
                invariant
                    g.wf(),
                    adj == g.adj_view(),
                    n == adj.len(),
                    v < n,
                    nb@ == adj[v as int],
                    k <= nb@.len(),
                    covered@.len() == n,
                    forall|w: int|
                        0 <= w < n ==> covered@[w] == (covers(adj, sel0, w as usize) || w == v
                            || nb@.subrange(0, k as int).contains(w as usize)),
                decreases nb@.len() - k,
            {
                let w = nb[k];
                covered.set(w, true);
                proof {
                    let pk = nb@.subrange(0, k as int);
                    let pw = pk.push(w);
                    assert(nb@.subrange(0, k + 1) =~= pw);
                    assert forall|x: usize| #[trigger] pw.contains(x) == (pk.contains(x) || x == w) by {
                        if pk.contains(x) {
                            let c = choose|c: int| 0 <= c < pk.len() && pk[c] == x;
                            assert(pw[c] == x);
                        }
                        if x == w {
                            assert(pw[pk.len() as int] == w);
                        }
                        if pw.contains(x) && x != w {
                            let c = choose|c: int| 0 <= c < pw.len() && #[trigger] pw[c] == x;
                            assert(pk[c] == x);
                        }
                    }
                }
                k = k + 1;
            }
            proof {
                assert(nb@.subrange(0, nb@.len() as int) =~= nb@);
                assert forall|x: int| 0 <= x < n implies covered@[x] == covers(adj, sel@, x as usize) by {
                    if covers(adj, sel0, x as usize) {
                        let j = choose|j: int| 0 <= j < sel0.len() && (sel0[j] == x as usize
                            || adj[sel0[j] as int].contains(x as usize));
                        assert(sel@[j] == sel0[j]);
                    }
                    if x == v || adj[v as int].contains(x as usize) {
                        assert(sel@[sel0.len() as int] == v);
                    }
                    if covers(adj, sel@, x as usize) {
                        let j = choose|j: int| 0 <= j < sel@.len() && (sel@[j] == x as usize
                            || adj[sel@[j] as int].contains(x as usize));
                        if j < sel0.len() {
                            assert(sel0[j] == sel@[j]);
                        }
                    }
                }
            }
        }
        i = i + 1;
    }
    assert(order@.subrange(0, order@.len() as int) =~= order@);
    sel
}

#[verifier::external_type_specification]
#[verifier::external_body]
pub struct ExThreadRng(rand::rngs::ThreadRng);

/// Relies on `rand::thread_rng`: a handle to this thread's generator,
/// so that no random state is shared between threads.
pub assume_specification[ rand::thread_rng ]() -> rand::rngs::ThreadRng;

/// Relies on rand's `SliceRandom::shuffle`: it only swaps items, so the
/// result holds the same items, each as often, in some order.
#[verifier::external_body]
fn shuffle(items: &mut Vec<usize>, rng: &mut rand::rngs::ThreadRng)
    ensures
        final(items)@.to_multiset() == old(items)@.to_multiset(),
{
    items.shuffle(rng)
}

/// The vertices `0 .. n`, in a random order drawn from `rng`.
pub fn random_order(n: usize, rng: &mut rand::rngs::ThreadRng) -> (r: Vec<usize>)
    ensures
        is_permutation(r@, n as nat),
        in_range(r@, n as nat),
        forall|v: usize| v < n ==> r@.contains(v),
{
    let mut order: Vec<usize> = Vec::new();
    let mut i: usize = 0;
    while i < n
        invariant
            i <= n,
            order@ == all_vertices(i as nat),
        decreases n - i,
    {
        order.push(i);
        assert(order@ =~= all_vertices(i as nat + 1));
        i = i + 1;
    }
    let ghost base = order@;
    shuffle(&mut order, rng);
    proof {
        broadcast use vstd::seq_lib::group_to_multiset_ensures;
        assert forall|k: int| 0 <= k < order@.len() implies order@[k] < n by {
            assert(order@.contains(order@[k]));
            assert(order@.to_multiset().count(order@[k]) > 0);
            assert(base.contains(order@[k]));
        }
        assert forall|v: usize| v < n implies order@.contains(v) by {
            assert(base[v as int] == v);
            assert(base.contains(v));
            assert(base.to_multiset().count(v) > 0);
        }
    }
    order
}

/// One trial: a fresh random order of all vertices, swept greedily. The
/// result is the sweep of some order that lists every vertex once; it is
/// independent and maximal.
pub fn run(g: &Graph) -> (r: Vec<usize>)
    requires
        g.wf(),
    ensures
        exists|order: Seq<usize>| is_permutation(order, g.order()) && r@ == sweep(g.adj_view(), order),
        independent(g.adj_view(), r@),
        maximal(g.adj_view(), r@),
        in_range(r@, g.order()),
        r@.len() <= g.order(),
{
    let mut rng = rand::thread_rng();
    let order = random_order(g.len(), &mut rng);
    proof {
        lemma_sweep_independent(g.adj_view(), order@);
        lemma_sweep_maximal(g.adj_view(), order@);
        broadcast use vstd::seq_lib::group_to_multiset_ensures;
        assert(order@.len() == order@.to_multiset().len());
        assert(all_vertices(g.order()).to_multiset().len() == g.order());
    }
    sweep_order(g, &order)
}

} // verus!
