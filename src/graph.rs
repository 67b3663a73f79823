//! The adjacency model: vertices named by strings, interned to indices.

use vstd::prelude::*;

verus! {

/// Whether no name occurs twice.
pub open spec fn names_unique(names: Seq<Seq<char>>) -> bool {
    forall|i: int, j: int|
        0 <= i < names.len() && 0 <= j < names.len() && i != j ==> names[i] != names[j]
}

/// Every neighbour index refers to a vertex.
pub open spec fn adj_bounded(adj: Seq<Seq<usize>>) -> bool {
    forall|v: int, k: int|
        0 <= v < adj.len() && 0 <= k < adj[v].len() ==> adj[v][k] < adj.len()
}

/// If `b` is a neighbour of `a`, then `a` is a neighbour of `b`.
pub open spec fn adj_symmetric(adj: Seq<Seq<usize>>) -> bool {
    forall|a: int, b: usize|
        0 <= a < adj.len() && #[trigger] adj[a].contains(b) ==> adj[b as int].contains(a as usize)
}

/// `b` occurs among the neighbours of `a` as often as `a` among those of `b`.
pub open spec fn adj_balanced(adj: Seq<Seq<usize>>) -> bool {
    forall|a: usize, b: usize|
        #![trigger adj[a as int].to_multiset().count(b)]
        a < adj.len() && b < adj.len() ==> adj[a as int].to_multiset().count(b) == adj[b as int].to_multiset().count(a)
}

/// The names after `s` has been interned: appended when it is new.
pub open spec fn interned(names: Seq<Seq<char>>, s: Seq<char>) -> Seq<Seq<char>> {
    if names.contains(s) {
        names
    } else {
        names.push(s)
    }
}

/// The adjacency lists grown with empty lists up to `n` vertices.
pub open spec fn grown(adj: Seq<Seq<usize>>, n: nat) -> Seq<Seq<usize>> {
    Seq::new(n, |i: int| if i < adj.len() { adj[i] } else { Seq::<usize>::empty() })
}

/// The adjacency lists after the edge `(a, b)` between the vertices at
/// indices `a` and `b`: `b` is appended to the list of `a`, then `a` to that of `b`.
pub open spec fn linked(adj: Seq<Seq<usize>>, a: usize, b: usize) -> Seq<Seq<usize>> {
    let first = adj.update(a as int, adj[a as int].push(b));
    first.update(b as int, first[b as int].push(a))
}

/// The graph (names, adjacency lists) after inserting the edge `(a, b)`.
pub open spec fn with_edge(
    g: (Seq<Seq<char>>, Seq<Seq<usize>>),
    a: Seq<char>,
    b: Seq<char>,
) -> (Seq<Seq<char>>, Seq<Seq<usize>>) {
    let names = interned(interned(g.0, a), b);
    let adj = grown(g.1, names.len());
    (names, linked(adj, names.index_of(a) as usize, names.index_of(b) as usize))
}

/// The graph built from an edge list, one edge after the other.
pub open spec fn built(edges: Seq<(Seq<char>, Seq<char>)>) -> (Seq<Seq<char>>, Seq<Seq<usize>>)
    decreases edges.len(),
{
    if edges.len() == 0 {
        (Seq::empty(), Seq::empty())
    } else {
        let e = edges.last();
        with_edge(built(edges.drop_last()), e.0, e.1)
    }
}

/// How often `y` occurs among the neighbours of `x` once `a` and `b` are linked.
pub proof fn lemma_linked_count(adj: Seq<Seq<usize>>, a: usize, b: usize, x: int, y: usize)
    requires
        a < adj.len(),
        b < adj.len(),
        0 <= x < adj.len(),
    ensures
        linked(adj, a, b)[x].to_multiset().count(y) == adj[x].to_multiset().count(y) + (if x
            == a as int && y == b { 1int } else { 0int }) + (if x == b as int && y == a { 1int } else { 0int }),
{
    broadcast use vstd::seq_lib::group_to_multiset_ensures;
    let first = adj.update(a as int, adj[a as int].push(b));
    let l = linked(adj, a, b);
    if x == a as int && x == b as int {
        assert(l[x] == adj[x].push(b).push(a));
    } else if x == a as int {
        assert(l[x] == adj[x].push(b));
    } else if x == b as int {
        assert(l[x] == adj[x].push(a));
    } else {
        assert(l[x] == adj[x]);
    }
}

/// Linking two vertices keeps the lists in range and the relation symmetric.
pub proof fn lemma_linked_wf(adj: Seq<Seq<usize>>, a: usize, b: usize)
    requires
        adj_bounded(adj),
        adj_symmetric(adj),
        adj_balanced(adj),
        a < adj.len(),
        b < adj.len(),
    ensures
        adj_bounded(linked(adj, a, b)),
        adj_balanced(linked(adj, a, b)),
        adj_symmetric(linked(adj, a, b)),
        linked(adj, a, b)[a as int].contains(b),
        linked(adj, a, b)[b as int].contains(a),
        forall|x: int, y: usize|
            0 <= x < adj.len() && #[trigger] adj[x].contains(y) ==> linked(adj, a, b)[x].contains(y),
{
    let first = adj.update(a as int, adj[a as int].push(b));
    let l = linked(adj, a, b);
    assert(first[a as int].contains(b)) by {
        assert(first[a as int][adj[a as int].len() as int] == b);
    }
    assert(l[b as int][first[b as int].len() as int] == a);
    assert(l[a as int].contains(b)) by {
        if a == b {
            assert(l[a as int][adj[a as int].len() as int] == b);
        } else {
            assert(l[a as int] == first[a as int]);
        }
    }
    assert forall|x: int, y: usize|
        0 <= x < adj.len() && #[trigger] adj[x].contains(y) implies l[x].contains(y) by {
        let k = choose|k: int| 0 <= k < adj[x].len() && adj[x][k] == y;
        if x == a as int {
            assert(first[x][k] == y);
        } else {
            assert(first[x] == adj[x]);
        }
        assert(first[x][k] == y);
        assert(l[x][k] == y);
    }
    assert forall|x: int, y: usize|
        0 <= x < l.len() && #[trigger] l[x].contains(y) implies l[y as int].contains(x as usize) by {
        let k = choose|k: int| 0 <= k < l[x].len() && l[x][k] == y;
        if x == b as int && k == first[x].len() {
            assert(y == a);
        } else {
            assert(first[x][k] == y);
            if x == a as int && k == adj[x].len() {
                assert(y == b);
            } else {
                assert(adj[x][k] == y);
                assert(adj[x].contains(y));
                assert(adj[y as int].contains(x as usize));
            }
        }
    }
    assert forall|x: usize, y: usize|
        #![trigger l[x as int].to_multiset().count(y)]
        x < l.len() && y < l.len() implies l[x as int].to_multiset().count(y) == l[y as int].to_multiset().count(x) by {
        lemma_linked_count(adj, a, b, x as int, y);
        lemma_linked_count(adj, a, b, y as int, x);
        assert(adj[x as int].to_multiset().count(y) == adj[y as int].to_multiset().count(x));
    }
    assert forall|v: int, k: int| 0 <= v < l.len() && 0 <= k < l[v].len() implies l[v][k] < l.len() by {
        if v == b as int && k == first[v].len() {
        } else if v == a as int && k == adj[v].len() {
        } else {
            assert(first[v][k] == adj[v][k]);
        }
    }
}

/// In a list of unique names, the index of the name at `k` is `k`.
pub proof fn lemma_index_of_unique(names: Seq<Seq<char>>, k: int)
    requires
        names_unique(names),
        0 <= k < names.len(),
    ensures
        names.index_of(names[k]) == k,
{
    assert(names[k] == names[k]);
}

/// The view of an edge list as pairs of names.
pub open spec fn edges_view(edges: Seq<(String, String)>) -> Seq<(Seq<char>, Seq<char>)> {
    edges.map_values(|e: (String, String)| (e.0@, e.1@))
}

/// Every edge of the list joins its two endpoints both ways.
pub open spec fn holds_edges(
    names: Seq<Seq<char>>,
    adj: Seq<Seq<usize>>,
    edges: Seq<(Seq<char>, Seq<char>)>,
) -> bool {
    forall|j: int|
        0 <= j < edges.len() ==> {
            let a = names.index_of(#[trigger] edges[j].0);
            let b = names.index_of(edges[j].1);
            &&& names.contains(edges[j].0)
            &&& names.contains(edges[j].1)
            &&& adj[a].contains(b as usize)
            &&& adj[b].contains(a as usize)
        }
}

/// An undirected graph: vertex `i` is named `names[i]`, and `adj[i]` lists the
/// indices of its neighbours, once per edge, in the order the edges came.
pub struct Graph {
    names: Vec<String>,
    adj: Vec<Vec<usize>>,
}

impl Graph {
    /// The vertex names, by index.
    pub closed spec fn names_view(&self) -> Seq<Seq<char>> {
        self.names@.map_values(|s: String| s@)
    }

    /// The neighbour lists, by index.
    pub closed spec fn adj_view(&self) -> Seq<Seq<usize>> {
        self.adj@.map_values(|v: Vec<usize>| v@)
    }

    /// The number of vertices.
    pub open spec fn order(&self) -> nat {
        self.adj_view().len()
    }

    /// Well-formed: one list per name, names unique, indices in range, and
    /// the neighbour relation symmetric, each pair as often both ways.
    pub open spec fn wf(&self) -> bool {
        &&& self.names_view().len() == self.adj_view().len()
        &&& names_unique(self.names_view())
        &&& adj_bounded(self.adj_view())
        &&& adj_symmetric(self.adj_view())
        &&& adj_balanced(self.adj_view())
    }

    /// The graph with no vertices.
    pub fn new() -> (g: Graph)
        ensures
            g.wf(),
            g.names_view() == Seq::<Seq<char>>::empty(),
            g.adj_view() == Seq::<Seq<usize>>::empty(),
    {
        let g = Graph { names: Vec::new(), adj: Vec::new() };
        assert(g.names_view() =~= Seq::<Seq<char>>::empty());
        assert(g.adj_view() =~= Seq::<Seq<usize>>::empty());
        g
    }

    /// The number of vertices.
    pub fn len(&self) -> (r: usize)
        requires
            self.wf(),
        ensures
            r == self.order(),
    {
        self.adj.len()
    }

    /// The index of the vertex named `name`, if there is one.
    pub fn vertex_index(&self, name: &String) -> (r: Option<usize>)
        requires
            self.wf(),
        ensures
            match r {
                Some(i) => i < self.order() && self.names_view()[i as int] == name@,
                None => !self.names_view().contains(name@),
            },
    {
        let n = self.names.len();
        let mut i: usize = 0;
        while i < n
            invariant
                self.wf(),
                n == self.names@.len(),
                i <= n,
                forall|j: int| 0 <= j < i ==> self.names_view()[j] != name@,
            decreases n - i,
        {
            if self.names[i] == *name {
                return Some(i);
            }
            i = i + 1;
        }
        None
    }

    /// The name of vertex `v`.
    pub fn name(&self, v: usize) -> (r: &String)
        requires
            self.wf(),
            v < self.order(),
        ensures
            r@ == self.names_view()[v as int],
    {
        &self.names[v]
    }

    /// The names of the given vertices, in the same order.
    pub fn names_of(&self, vertices: &Vec<usize>) -> (r: Vec<String>)
        requires
            self.wf(),
            forall|i: int| 0 <= i < vertices@.len() ==> vertices@[i] < self.order(),
        ensures
            r@.len() == vertices@.len(),
            forall|i: int|
                0 <= i < vertices@.len() ==> #[trigger] r@[i]@ == self.names_view()[vertices@[i] as int],
    {
        let mut r: Vec<String> = Vec::new();
        let mut i: usize = 0;
        while i < vertices.len()
            invariant
                self.wf(),
                i <= vertices@.len(),
                forall|k: int| 0 <= k < vertices@.len() ==> vertices@[k] < self.order(),
                r@.len() == i,
                forall|k: int| 0 <= k < i ==> #[trigger] r@[k]@ == self.names_view()[vertices@[k] as int],
            decreases vertices@.len() - i,
        {
            let name = self.name(vertices[i]).clone();
            r.push(name);
            i = i + 1;
        }
        r
    }

    /// The neighbours of vertex `v`.
    pub fn neighbors(&self, v: usize) -> (r: &Vec<usize>)
        requires
            self.wf(),
            v < self.order(),
        ensures
            r@ == self.adj_view()[v as int],
    {
        &self.adj[v]
    }

    /// Inserts the edge `(a, b)`: each endpoint is added if new, then `b` is
    /// appended to the neighbours of `a` and `a` to those of `b`.
    /// Returns the indices of `a` and `b`.
    pub fn add_edge(&mut self, a: &String, b: &String) -> (r: (usize, usize))
        requires
            old(self).wf(),
        ensures
            final(self).wf(),
            (final(self).names_view(), final(self).adj_view()) == with_edge(
                (old(self).names_view(), old(self).adj_view()),
                a@,
                b@,
            ),
            r.0 < final(self).order(),
            r.1 < final(self).order(),
            final(self).names_view()[r.0 as int] == a@,
            final(self).names_view()[r.1 as int] == b@,
            final(self).adj_view()[r.0 as int].contains(r.1),
            final(self).adj_view()[r.1 as int].contains(r.0),
            forall|x: int| 0 <= x < old(self).order() ==> final(self).names_view()[x] == old(self).names_view()[x],
            forall|x: int, y: usize|
                0 <= x < old(self).order() && #[trigger] old(self).adj_view()[x].contains(y)
                    ==> final(self).adj_view()[x].contains(y),
    {
        let ghost g0 = (self.names_view(), self.adj_view());
        let ia = self.add_vertex(a);
        let ib = self.add_vertex(b);
        let ghost names = self.names_view();
        let ghost adj = self.adj_view();
        assert(adj =~= grown(g0.1, names.len()));
        assert(names[ia as int] == a@);
        assert(names.index_of(a@) == ia as int);
        assert(names.index_of(b@) == ib as int);
        self.adj[ia].push(ib);
        self.adj[ib].push(ia);
        assert(self.adj_view() =~= linked(adj, ia, ib));
        proof {
            lemma_linked_wf(adj, ia, ib);
        }
        (ia, ib)
    }

    /// The graph of an edge list: every edge inserted in order, both ways.
    /// Each inserted `(a, b)` leaves `b` among the neighbours of `a` and `a`
    /// among those of `b`; every pair occurs as often in one direction as in
    /// the other (part of `wf`).
    pub fn from_edges(edges: &Vec<(String, String)>) -> (g: Graph)
        ensures
            g.wf(),
            (g.names_view(), g.adj_view()) == built(edges_view(edges@)),
            holds_edges(g.names_view(), g.adj_view(), edges_view(edges@)),
    {
        let ghost ev = edges_view(edges@);
        let mut g = Graph::new();
        let mut i: usize = 0;
        while i < edges.len()
            invariant
                g.wf(),
                i <= edges@.len(),
                ev == edges_view(edges@),
                (g.names_view(), g.adj_view()) == built(ev.subrange(0, i as int)),
                holds_edges(g.names_view(), g.adj_view(), ev.subrange(0, i as int)),
            decreases edges@.len() - i,
        {
            let ghost names0 = g.names_view();
            let ghost adj0 = g.adj_view();
            let (a, b) = &edges[i];
            let r = g.add_edge(a, b);
            proof {
                let pre = ev.subrange(0, i as int);
                let post = ev.subrange(0, i + 1);
                assert(post.drop_last() =~= pre);
                assert(post.last() == (a@, b@));
                let names = g.names_view();
                let adj = g.adj_view();
                assert forall|j: int| 0 <= j < post.len() implies {
                    let x = names.index_of(#[trigger] post[j].0);
                    let y = names.index_of(post[j].1);
                    &&& names.contains(post[j].0)
                    &&& names.contains(post[j].1)
                    &&& adj[x].contains(y as usize)
                    &&& adj[y].contains(x as usize)
                } by {
                    if j == i {
                        lemma_index_of_unique(names, r.0 as int);
                        lemma_index_of_unique(names, r.1 as int);
                    } else {
                        assert(pre[j] == post[j]);
                        let p = names0.index_of(pre[j].0);
                        let q = names0.index_of(pre[j].1);
                        assert(adj0[p].contains(q as usize));
                        assert(names[p] == names0[p]);
                        assert(names[q] == names0[q]);
                        lemma_index_of_unique(names, p);
                        lemma_index_of_unique(names, q);
                        assert(adj[p].contains(q as usize));
                        assert(adj[q].contains(p as usize));
                    }
                }
            }
            i = i + 1;
        }
        assert(ev.subrange(0, edges@.len() as int) =~= ev);
        g
    }

    /// The index of the vertex named `name`, added without neighbours if new.
    pub fn add_vertex(&mut self, name: &String) -> (r: usize)
        requires
            old(self).wf(),
        ensures
            final(self).wf(),
            final(self).names_view() == interned(old(self).names_view(), name@),
            final(self).adj_view() == grown(old(self).adj_view(), final(self).names_view().len()),
            r < final(self).order(),
            final(self).names_view()[r as int] == name@,
    {
        match self.vertex_index(name) {
            Some(i) => {
                assert(self.adj_view() =~= grown(self.adj_view(), self.names_view().len()));
                i
            },
            None => {
                let ghost old_names = self.names_view();
                let ghost old_adj = self.adj_view();
                self.names.push(name.clone());
                self.adj.push(Vec::new());
                assert(self.names_view() =~= old_names.push(name@));
                assert(self.adj_view() =~= grown(old_adj, self.names_view().len()));
                assert forall|a: int, b: usize|
                    0 <= a < self.adj_view().len() && #[trigger] self.adj_view()[a].contains(
                        b,
                    ) implies self.adj_view()[b as int].contains(a as usize) by {
                    assert(a < old_adj.len());
                    assert(old_adj[a].contains(b));
                }
                let ghost m = old_adj.len();
                assert forall|a: usize, b: usize|
                    #![trigger self.adj_view()[a as int].to_multiset().count(b)]
                    a < self.adj_view().len() && b < self.adj_view().len() implies self.adj_view()[
                        a as int].to_multiset().count(b) == self.adj_view()[b as int].to_multiset().count(a) by {
                    broadcast use vstd::seq_lib::group_to_multiset_ensures;
                    if a < m && b < m {
                        assert(old_adj[a as int].to_multiset().count(b) == old_adj[b as int].to_multiset().count(a));
                    } else if a == m && b == m {
                    } else if a == m {
                        assert(!old_adj[b as int].contains(a)) by {
                            if old_adj[b as int].contains(a) {
                                let k = choose|k: int| 0 <= k < old_adj[b as int].len() && old_adj[b as int][k] == a;
                                assert(old_adj[b as int][k] < m);
                            }
                        }
                        assert(self.adj_view()[a as int] =~= Seq::<usize>::empty());
                    } else {
                        assert(!old_adj[a as int].contains(b)) by {
                            if old_adj[a as int].contains(b) {
                                let k = choose|k: int| 0 <= k < old_adj[a as int].len() && old_adj[a as int][k] == b;
                                assert(old_adj[a as int][k] < m);
                            }
                        }
                        assert(self.adj_view()[b as int] =~= Seq::<usize>::empty());
                    }
                }
                self.names.len() - 1
            },
        }
    }
}

} // verus!
