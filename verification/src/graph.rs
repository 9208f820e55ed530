use vstd::prelude::*;

use crate::error::GraphError;

verus! {

/// Strongly-typed, copy-cheap node identifier.
#[derive(Debug, Clone, Copy, PartialEq, Eq, Hash, Structural)]
pub struct NodeId(pub usize);

/// Undirected, unweighted graph stored as a dense adjacency list.
pub struct Graph {
    num_nodes: usize,
    adjacency: Vec<Vec<usize>>,
}

/// Every neighbour index is a node, no list holds its own node or a
/// repeated entry, and `v` lists `u` exactly when `u` lists `v`.
pub open spec fn adjacency_wf(adj: Seq<Seq<usize>>) -> bool {
    &&& forall|u: int, i: int|
        #![trigger adj[u][i]]
        0 <= u < adj.len() && 0 <= i < adj[u].len() ==> adj[u][i] < adj.len() && adj[u][i] != u
    &&& forall|u: int| #![trigger adj[u]] 0 <= u < adj.len() ==> adj[u].no_duplicates()
    &&& forall|u: usize, v: usize|
        #![trigger adj[u as int].contains(v)]
        u < adj.len() && v < adj.len() ==> (adj[u as int].contains(v) <==> adj[v as int].contains(u))
}

/// The adjacency lists after inserting the undirected edge `u — v`: a
/// self-loop or an edge already present leaves them unchanged, otherwise
/// `v` is appended to the list of `u` and `u` to the list of `v`.
pub open spec fn with_edge(adj: Seq<Seq<usize>>, u: usize, v: usize) -> Seq<Seq<usize>> {
    if u == v || adj[u as int].contains(v) {
        adj
    } else {
        adj.update(u as int, adj[u as int].push(v)).update(v as int, adj[v as int].push(u))
    }
}

/// Outcome of inserting one edge into a graph of `n` nodes: the endpoints
/// are checked in order, then the edge is added.
pub open spec fn edge_step(adj: Seq<Seq<usize>>, e: (usize, usize)) -> Result<Seq<Seq<usize>>, GraphError> {
    if e.0 >= adj.len() {
        Err(GraphError::NodeOutOfRange(e.0, adj.len() as usize))
    } else if e.1 >= adj.len() {
        Err(GraphError::NodeOutOfRange(e.1, adj.len() as usize))
    } else {
        Ok(with_edge(adj, e.0, e.1))
    }
}

/// Inserting the edges in order, stopping at the first one that fails.
pub open spec fn apply_edges(adj: Seq<Seq<usize>>, edges: Seq<(usize, usize)>) -> Result<Seq<Seq<usize>>, GraphError>
    decreases edges.len(),
{
    if edges.len() == 0 {
        Ok(adj)
    } else {
        match apply_edges(adj, edges.drop_last()) {
            Ok(a) => edge_step(a, edges.last()),
            Err(e) => Err(e),
        }
    }
}

/// `n` empty adjacency lists.
pub open spec fn empty_adjacency(n: nat) -> Seq<Seq<usize>> {
    Seq::new(n, |i: int| Seq::<usize>::empty())
}

/// Entry `(i, j)` of the unnormalised Laplacian `L = D − A`.
pub open spec fn laplacian_entry(adj: Seq<Seq<usize>>, i: int, j: int) -> int {
    if i == j {
        adj[i].len() as int
    } else if adj[i].contains(j as usize) {
        -1
    } else {
        0
    }
}

/// `u — v` is an edge of the graph with adjacency lists `adj`.
pub open spec fn has_edge(adj: Seq<Seq<usize>>, u: int, v: int) -> bool {
    0 <= u < adj.len() && adj[u].contains(v as usize)
}

/// `t` can be reached from `s` along a walk of at most `k` edges.
pub open spec fn reachable_within(adj: Seq<Seq<usize>>, s: int, t: int, k: nat) -> bool
    decreases k,
{
    if k == 0 {
        s == t
    } else {
        reachable_within(adj, s, t, (k - 1) as nat) || exists|w: int|
            #[trigger] has_edge(adj, w, t) && reachable_within(adj, s, w, (k - 1) as nat)
    }
}

/// The shortest walk from `s` to `t` has exactly `d` edges.
pub open spec fn is_hop_distance(adj: Seq<Seq<usize>>, s: int, t: int, d: nat) -> bool {
    &&& reachable_within(adj, s, t, d)
    &&& d > 0 ==> !reachable_within(adj, s, t, (d - 1) as nat)
}

/// `s` and `t` lie in the same connected component.
pub open spec fn connected(adj: Seq<Seq<usize>>, s: int, t: int) -> bool {
    exists|k: nat| #[trigger] reachable_within(adj, s, t, k)
}

/// Number of filled entries of a distance table.
pub open spec fn count_some(s: Seq<Option<usize>>) -> nat
    decreases s.len(),
{
    if s.len() == 0 {
        0
    } else {
        count_some(s.drop_last()) + if s.last() is Some { 1nat } else { 0nat }
    }
}

impl View for Graph {
    type V = Seq<Seq<usize>>;

    closed spec fn view(&self) -> Seq<Seq<usize>> {
        self.adjacency@.map_values(|row: Vec<usize>| row@)
    }
}

impl Graph {
    /// Internal consistency of a graph value.
    pub closed spec fn wf(&self) -> bool {
        &&& self.num_nodes == self.adjacency@.len()
        &&& self.num_nodes >= 1
        &&& adjacency_wf(self@)
    }

    /// Create an edgeless graph with `num_nodes` nodes.
    pub fn new(num_nodes: usize) -> (r: Result<Graph, GraphError>)
        ensures
            num_nodes == 0 ==> r == Err::<Graph, GraphError>(GraphError::EmptyGraph),
            num_nodes > 0 ==> (r matches Ok(g) && g.wf() && g@.len() == num_nodes
                && forall|u: int| 0 <= u < num_nodes ==> #[trigger] g@[u].len() == 0),
    {
        if num_nodes == 0 {
            return Err(GraphError::EmptyGraph);
        }
        let mut adjacency: Vec<Vec<usize>> = Vec::new();
        for i in 0..num_nodes
            invariant
                adjacency@.len() == i,
                forall|u: int| 0 <= u < i ==> #[trigger] adjacency@[u]@.len() == 0,
        {
            adjacency.push(Vec::new());
        }
        let g = Graph { num_nodes, adjacency };
        assert(g@.len() == num_nodes);
        Ok(g)
    }

    /// Add an undirected edge `u — v`.  Self-loops are silently dropped;
    /// duplicate edges are ignored.
    pub fn add_edge(&mut self, u: usize, v: usize) -> (r: Result<(), GraphError>)
        requires
            old(self).wf(),
        ensures
            final(self).wf(),
            r matches Ok(_) ==> edge_step(old(self)@, (u, v)) == Ok::<Seq<Seq<usize>>, GraphError>(final(self)@),
            r matches Err(e) ==> edge_step(old(self)@, (u, v)) == Err::<Seq<Seq<usize>>, GraphError>(e)
                && final(self)@ == old(self)@,
    {
        self.validate_node(u)?;
        self.validate_node(v)?;
        if u == v {
            return Ok(());
        }
        if !vec_contains(&self.adjacency[u], v) {
            proof {
                let a = self@;
                assert(a[u as int].contains(v) <==> a[v as int].contains(u));
            }
            let ghost a0 = self@;
            self.adjacency[u].push(v);
            self.adjacency[v].push(u);
            proof {
                let a1 = self@;
                let w = with_edge(a0, u, v);
                assert(a1 =~= w);
                assert forall|x: int| #![trigger w[x]] 0 <= x < w.len() implies w[x].no_duplicates() by {
                    if x == u as int || x == v as int {
                        assert(a0[x].no_duplicates());
                    }
                }
                assert forall|x: int, i: int| #![trigger w[x][i]]
                    0 <= x < w.len() && 0 <= i < w[x].len() implies w[x][i] < w.len() && w[x][i] != x by {
                    if x == u as int && i == a0[x].len() {
                    } else if x == v as int && i == a0[x].len() {
                    } else {
                        assert(w[x][i] == a0[x][i]);
                    }
                }
                assert forall|xu: usize, yu: usize| #![trigger w[xu as int].contains(yu)]
                    xu < w.len() && yu < w.len() implies (w[xu as int].contains(yu) <==> w[yu as int].contains(xu)) by {
                    let x = xu as int;
                    let y = yu as int;
                    assert(a0[x].contains(yu) <==> a0[y].contains(xu));
                    if w[x].contains(y as usize) {
                        let k = choose|k: int| 0 <= k < w[x].len() && w[x][k] == y as usize;
                        if k < a0[x].len() {
                            assert(a0[x][k] == w[x][k]);
                            assert(a0[x].contains(y as usize));
                            assert(a0[y].contains(x as usize));
                            let m = choose|m: int| 0 <= m < a0[y].len() && a0[y][m] == x as usize;
                            assert(w[y][m] == x as usize);
                        } else {
                            assert(w[y][a0[y].len() as int] == x as usize);
                        }
                    }
                    if w[y].contains(x as usize) {
                        let k = choose|k: int| 0 <= k < w[y].len() && w[y][k] == x as usize;
                        if k < a0[y].len() {
                            assert(a0[y][k] == w[y][k]);
                            assert(a0[y].contains(x as usize));
                            assert(a0[x].contains(y as usize));
                            let m = choose|m: int| 0 <= m < a0[x].len() && a0[x][m] == y as usize;
                            assert(w[x][m] == y as usize);
                        } else {
                            assert(w[x][a0[x].len() as int] == y as usize);
                        }
                    }
                }
            }
        }
        Ok(())
    }

    /// Build a graph from a slice of `(u, v)` edge pairs.
    pub fn from_edges(num_nodes: usize, edges: &[(usize, usize)]) -> (r: Result<Graph, GraphError>)
        ensures
            num_nodes == 0 ==> r == Err::<Graph, GraphError>(GraphError::EmptyGraph),
            num_nodes > 0 ==> match apply_edges(empty_adjacency(num_nodes as nat), edges@) {
                Ok(a) => r matches Ok(g) && g.wf() && g@ == a,
                Err(e) => r == Err::<Graph, GraphError>(e),
            },
    {
        let mut g = Graph::new(num_nodes)?;
        assert forall|u: int| 0 <= u < num_nodes implies #[trigger] g@[u] == Seq::<usize>::empty() by {
            assert(g@[u].len() == 0);
            assert(g@[u] =~= Seq::<usize>::empty());
        }
        assert(g@ =~= empty_adjacency(num_nodes as nat));
        let mut i: usize = 0;
        while i < edges.len()
            invariant
                0 <= i <= edges@.len(),
                num_nodes > 0,
                g.wf(),
                apply_edges(empty_adjacency(num_nodes as nat), edges@.take(i as int)) == Ok::<Seq<Seq<usize>>, GraphError>(g@),
            decreases edges@.len() - i,
        {
            let (u, v) = edges[i];
            assert(edges@.take(i + 1).drop_last() =~= edges@.take(i as int));
            assert(edges@.take(i + 1).last() == (u, v));
            match g.add_edge(u, v) {
                Ok(()) => {},
                Err(e) => {
                    proof { lemma_apply_edges_err_sticky(empty_adjacency(num_nodes as nat), edges@, (i + 1) as nat); }
                    return Err(e);
                },
            }
            i = i + 1;
        }
        assert(edges@.take(i as int) =~= edges@);
        Ok(g)
    }

    /// Number of nodes.
    pub fn num_nodes(&self) -> (n: usize)
        requires
            self.wf(),
        ensures
            n == self@.len(),
            n >= 1,
    {
        self.num_nodes
    }

    /// Degree of node `idx`.
    pub fn degree(&self, idx: usize) -> (r: Result<usize, GraphError>)
        requires
            self.wf(),
        ensures
            idx < self@.len() ==> r == Ok::<usize, GraphError>(self@[idx as int].len() as usize),
            idx >= self@.len() ==> r == Err::<usize, GraphError>(GraphError::NodeOutOfRange(idx, self@.len() as usize)),
    {
        self.validate_node(idx)?;
        Ok(self.adjacency[idx].len())
    }

    /// Neighbours of node `idx`, in the order their edges were added.
    pub fn neighbours(&self, idx: usize) -> (r: Result<&[usize], GraphError>)
        requires
            self.wf(),
        ensures
            idx < self@.len() ==> (r matches Ok(s) && s@ == self@[idx as int]
                && s@.no_duplicates() && !s@.contains(idx)
                && forall|k: int| #![trigger s@[k]] 0 <= k < s@.len() ==>
                    s@[k] < self@.len() && self@[s@[k] as int].contains(idx)),
            idx >= self@.len() ==> r == Err::<&[usize], GraphError>(GraphError::NodeOutOfRange(idx, self@.len() as usize)),
    {
        self.validate_node(idx)?;
        proof {
            let a = self@;
            assert forall|k: int| #![trigger a[idx as int][k]] 0 <= k < a[idx as int].len() implies
                a[idx as int][k] < a.len() && a[a[idx as int][k] as int].contains(idx) by {
                let j = a[idx as int][k];
                assert(a[idx as int].contains(j));
                assert(a[idx as int].contains(j) <==> a[j as int].contains(idx));
            }
            if a[idx as int].contains(idx) {
                let k = choose|k: int| 0 <= k < a[idx as int].len() && a[idx as int][k] == idx;
                assert(a[idx as int][k] != idx as int);
            }
        }
        Ok(self.adjacency[idx].as_slice())
    }

    /// BFS shortest-path hop distance between `start` and `end`.
    pub fn topological_distance(&self, start: usize, end: usize) -> (r: Result<usize, GraphError>)
        requires
            self.wf(),
        ensures
            start >= self@.len() ==> r == Err::<usize, GraphError>(GraphError::NodeOutOfRange(start, self@.len() as usize)),
            start < self@.len() && end >= self@.len() ==> r == Err::<usize, GraphError>(GraphError::NodeOutOfRange(end, self@.len() as usize)),
            start < self@.len() && end < self@.len() && connected(self@, start as int, end as int) ==>
                (r matches Ok(d) && is_hop_distance(self@, start as int, end as int, d as nat)
                    && is_hop_distance(self@, end as int, start as int, d as nat)),
            start < self@.len() && end < self@.len() && !connected(self@, start as int, end as int) ==>
                r == Err::<usize, GraphError>(GraphError::NoPath(start, end)),
    {
        self.validate_node(start)?;
        self.validate_node(end)?;
        proof {
            let a = self@;
            assert forall|d: nat| #[trigger] is_hop_distance(a, start as int, end as int, d)
                implies is_hop_distance(a, end as int, start as int, d) by {
                lemma_hop_distance_symmetric(a, start as int, end as int, d);
            }
        }
        if start == end {
            assert(reachable_within(self@, start as int, end as int, 0));
            return Ok(0);
        }
        let dist = self.bfs_distances(start)?;
        match dist[end] {
            Some(d) => {
                assert(reachable_within(self@, start as int, end as int, d as nat));
                Ok(d)
            },
            None => Err(GraphError::NoPath(start, end)),
        }
    }

    /// Full BFS distance vector from `start`.  Unreachable nodes map to `None`.
    pub fn bfs_distances(&self, start: usize) -> (r: Result<Vec<Option<usize>>, GraphError>)
        requires
            self.wf(),
        ensures
            start >= self@.len() ==> r == Err::<Vec<Option<usize>>, GraphError>(GraphError::NodeOutOfRange(start, self@.len() as usize)),
            start < self@.len() ==> (r matches Ok(d) && d@.len() == self@.len()
                && forall|x: int| 0 <= x < self@.len() ==> match #[trigger] d@[x] {
                    Some(k) => is_hop_distance(self@, start as int, x, k as nat),
                    None => !connected(self@, start as int, x),
                }),
    {
        self.validate_node(start)?;
        let n = self.num_nodes;
        let ghost a = self@;
        let ghost s = start as int;
        let mut dist: Vec<Option<usize>> = Vec::new();
        for i in 0..n
            invariant
                dist@.len() == i,
                forall|x: int| 0 <= x < i ==> #[trigger] dist@[x] is None,
                count_some(dist@) == 0,
        {
            let ghost d0 = dist@;
            dist.push(None);
            assert(dist@.drop_last() =~= d0);
        }
        proof { lemma_count_some_update(dist@, s, 0); }
        dist.set(start, Some(0));
        let mut visited: usize = 1;
        let mut frontier: Vec<usize> = Vec::new();
        frontier.push(start);
        let mut level: usize = 0;
        proof {
            assert(reachable_within(a, s, s, 0));
            assert forall|x: int| 0 <= x < n && #[trigger] dist@[x] is None implies !reachable_within(a, s, x, 0) by {}
            assert forall|x: int| 0 <= x < n implies (#[trigger] dist@[x] == Some(0usize) <==> frontier@.contains(x as usize)) by {
                if x == s {
                    assert(frontier@[0] == start);
                }
            }
        }
        while frontier.len() > 0
            invariant
                self.wf(),
                a == self@,
                n == a.len(),
                0 <= s < n,
                dist@.len() == n,
                visited == count_some(dist@),
                visited <= n,
                frontier@.len() > 0 ==> level + 1 <= visited,
                forall|i: int| 0 <= i < frontier@.len() ==> #[trigger] frontier@[i] < n,
                forall|x: int| 0 <= x < n ==> match #[trigger] dist@[x] {
                    Some(j) => j <= level && is_hop_distance(a, s, x, j as nat),
                    None => !reachable_within(a, s, x, level as nat),
                },
                forall|x: int| 0 <= x < n ==> (#[trigger] dist@[x] == Some(level) <==> frontier@.contains(x as usize)),
            decreases n + 1 - visited + frontier@.len(),
        {
            let ghost d0 = dist@;
            let ghost v0 = visited;
            let mut next: Vec<usize> = Vec::new();
            let mut fi: usize = 0;
            while fi < frontier.len()
                invariant
                    self.wf(),
                    a == self@,
                    n == a.len(),
                    0 <= s < n,
                    frontier@.len() > 0,
                    level + 1 <= v0,
                    v0 <= visited,
                    visited == count_some(dist@),
                    visited == v0 + next@.len(),
                    0 <= fi <= frontier@.len(),
                    dist@.len() == n,
                    forall|i: int| 0 <= i < frontier@.len() ==> #[trigger] frontier@[i] < n,
                    forall|i: int| 0 <= i < next@.len() ==> #[trigger] next@[i] < n,
                    forall|x: int| 0 <= x < n ==> match #[trigger] d0[x] {
                        Some(j) => j <= level && is_hop_distance(a, s, x, j as nat),
                        None => !reachable_within(a, s, x, level as nat),
                    },
                    forall|x: int| 0 <= x < n ==> (#[trigger] d0[x] == Some(level) <==> frontier@.contains(x as usize)),
                    forall|x: int| 0 <= x < n ==> match #[trigger] dist@[x] {
                        Some(j) => (d0[x] == Some(j)) || (j == level + 1 && d0[x] is None
                            && is_hop_distance(a, s, x, j as nat)),
                        None => d0[x] is None && forall|i: int| 0 <= i < fi ==> !#[trigger] has_edge(a, frontier@[i] as int, x),
                    },
                    forall|x: int| 0 <= x < n ==> (#[trigger] dist@[x] == Some((level + 1) as usize) <==> next@.contains(x as usize)),
                decreases frontier@.len() - fi,
            {
                let f = frontier[fi];
                proof {
                    assert(frontier@.contains(f));
                    assert(d0[f as int] == Some(level));
                }
                let row = &self.adjacency[f];
                let mut k: usize = 0;
                while k < row.len()
                    invariant
                        self.wf(),
                        a == self@,
                        n == a.len(),
                        0 <= s < n,
                        level + 1 <= v0,
                        v0 <= visited,
                        visited == count_some(dist@),
                        visited == v0 + next@.len(),
                        0 <= fi < frontier@.len(),
                        f == frontier@[fi as int],
                        f < n,
                        row@ == a[f as int],
                        d0[f as int] == Some(level),
                        is_hop_distance(a, s, f as int, level as nat),
                        0 <= k <= row@.len(),
                        dist@.len() == n,
                        forall|i: int| 0 <= i < next@.len() ==> #[trigger] next@[i] < n,
                        forall|x: int| 0 <= x < n ==> match #[trigger] d0[x] {
                            Some(j) => j <= level && is_hop_distance(a, s, x, j as nat),
                            None => !reachable_within(a, s, x, level as nat),
                        },
                        forall|x: int| 0 <= x < n ==> match #[trigger] dist@[x] {
                            Some(j) => (d0[x] == Some(j)) || (j == level + 1 && d0[x] is None
                                && is_hop_distance(a, s, x, j as nat)),
                            None => d0[x] is None && (forall|i: int| 0 <= i < fi ==> !#[trigger] has_edge(a, frontier@[i] as int, x))
                                && !row@.take(k as int).contains(x as usize),
                        },
                        forall|x: int| 0 <= x < n ==> (#[trigger] dist@[x] == Some((level + 1) as usize) <==> next@.contains(x as usize)),
                    decreases row@.len() - k,
                {
                    let w = row[k];
                    proof {
                        assert(a[f as int][k as int] == w);
                        assert(w < n);
                    }
                    let ghost dk = dist@;
                    let ghost nk = next@;
                    if dist[w].is_none() {
                        proof {
                            lemma_count_some_update(dist@, w as int, (level + 1) as usize);
                            lemma_count_some_le(dist@.update(w as int, Some((level + 1) as usize)));
                            assert(row@.contains(w));
                            assert(has_edge(a, f as int, w as int));
                            assert(reachable_within(a, s, w as int, (level + 1) as nat));
                        }
                        dist.set(w, Some(level + 1));
                        next.push(w);
                        visited = visited + 1;
                        proof {
                            assert forall|x: int| 0 <= x < n implies (#[trigger] dist@[x] == Some((level + 1) as usize) <==> next@.contains(x as usize)) by {
                                if x == w as int {
                                    assert(next@[next@.len() - 1] == w);
                                } else {
                                    assert(dist@[x] == dk[x]);
                                    if next@.contains(x as usize) {
                                        let m = choose|m: int| 0 <= m < next@.len() && next@[m] == x as usize;
                                        assert(nk[m] == x as usize);
                                    }
                                    if nk.contains(x as usize) {
                                        let m = choose|m: int| 0 <= m < nk.len() && nk[m] == x as usize;
                                        assert(next@[m] == x as usize);
                                    }
                                }
                            }
                        }
                    }
                    proof {
                        assert forall|x: int| 0 <= x < n implies match #[trigger] dist@[x] {
                            Some(j) => (d0[x] == Some(j)) || (j == level + 1 && d0[x] is None
                                && is_hop_distance(a, s, x, j as nat)),
                            None => d0[x] is None && (forall|i: int| 0 <= i < fi ==> !#[trigger] has_edge(a, frontier@[i] as int, x))
                                && !row@.take(k + 1).contains(x as usize),
                        } by {
                            assert(row@.take(k + 1) =~= row@.take(k as int).push(w));
                            if x != w as int {
                                assert(dist@[x] == dk[x]);
                            }
                        }
                    }
                    k = k + 1;
                }
                proof {
                    assert(row@.take(k as int) =~= row@);
                    assert forall|x: int| 0 <= x < n implies match #[trigger] dist@[x] {
                        Some(j) => (d0[x] == Some(j)) || (j == level + 1 && d0[x] is None
                            && is_hop_distance(a, s, x, j as nat)),
                        None => d0[x] is None && forall|i: int| 0 <= i < fi + 1 ==> !#[trigger] has_edge(a, frontier@[i] as int, x),
                    } by {
                        if dist@[x] is None {
                            assert forall|i: int| 0 <= i < fi + 1 implies !#[trigger] has_edge(a, frontier@[i] as int, x) by {
                                if i == fi as int {
                                    assert(!row@.contains(x as usize));
                                }
                            }
                        }
                    }
                }
                fi = fi + 1;
            }
            proof {
                assert forall|x: int| 0 <= x < n implies match #[trigger] dist@[x] {
                    Some(j) => j <= level + 1 && is_hop_distance(a, s, x, j as nat),
                    None => !reachable_within(a, s, x, (level + 1) as nat),
                } by {
                    match dist@[x] {
                        Some(j) => {
                            if d0[x] == Some(j) {
                            }
                        },
                        None => {
                            assert(d0[x] is None);
                            assert(!reachable_within(a, s, x, level as nat));
                            if reachable_within(a, s, x, (level + 1) as nat) {
                                let w = choose|w: int| #[trigger] has_edge(a, w, x) && reachable_within(a, s, w, level as nat);
                                assert(0 <= w < n);
                                match d0[w] {
                                    Some(j) => {
                                        if j == level {
                                            assert(frontier@.contains(w as usize));
                                            let i = choose|i: int| 0 <= i < frontier@.len() && frontier@[i] == w as usize;
                                            assert(!has_edge(a, frontier@[i] as int, x));
                                        } else {
                                            assert(reachable_within(a, s, w, j as nat));
                                            assert(reachable_within(a, s, x, (j + 1) as nat));
                                            lemma_reachable_monotonic(a, s, x, (j + 1) as nat, level as nat);
                                        }
                                    },
                                    None => {},
                                }
                            }
                        },
                    }
                }
                assert forall|x: int| 0 <= x < n implies (#[trigger] dist@[x] == Some((level + 1) as usize) <==> next@.contains(x as usize)) by {}
                lemma_count_some_le(dist@);
            }
            frontier = next;
            level = level + 1;
        }
        proof {
            assert forall|x: int| 0 <= x < n implies match #[trigger] dist@[x] {
                Some(k) => is_hop_distance(a, s, x, k as nat),
                None => !connected(a, s, x),
            } by {
                if dist@[x] is None {
                    if connected(a, s, x) {
                        let k = choose|k: nat| #[trigger] reachable_within(a, s, x, k);
                        lemma_min_distance(a, s, x, k);
                        let m = choose|m: nat| m <= k && #[trigger] is_hop_distance(a, s, x, m);
                        if m <= level {
                            lemma_reachable_monotonic(a, s, x, m, level as nat);
                        } else {
                            lemma_distance_chain(a, s, x, m, level as nat);
                            let y = choose|y: int| 0 <= y < a.len() && #[trigger] is_hop_distance(a, s, y, level as nat);
                            match dist@[y] {
                                Some(j) => {
                                    lemma_distance_unique(a, s, y, j as nat, level as nat);
                                    assert(frontier@.contains(y as usize));
                                },
                                None => {},
                            }
                        }
                    }
                }
            }
        }
        Ok(dist)
    }

    /// Unnormalised Laplacian **L = D − A** as a dense row-major matrix.
    pub fn laplacian(&self) -> (l: Vec<Vec<i64>>)
        requires
            self.wf(),
            self@.len() <= i64::MAX,
        ensures
            l@.len() == self@.len(),
            forall|i: int| #![trigger l@[i]] 0 <= i < l@.len() ==> l@[i]@.len() == self@.len(),
            forall|i: int, j: int| #![trigger l@[i]@[j]]
                0 <= i < l@.len() && 0 <= j < l@.len() ==> l@[i]@[j] == laplacian_entry(self@, i, j),
            forall|i: int, j: int| #![trigger l@[i]@[j], l@[j]@[i]]
                0 <= i < l@.len() && 0 <= j < l@.len() ==> l@[i]@[j] == l@[j]@[i],
            forall|i: int| #![trigger l@[i]] 0 <= i < l@.len() ==> row_sum(l@[i]@) == 0,
    {
        let n = self.num_nodes;
        let ghost a = self@;
        let mut l: Vec<Vec<i64>> = Vec::new();
        for i in 0..n
            invariant
                n == a.len(),
                a == self@,
                self.wf(),
                n <= i64::MAX,
                l@.len() == i,
                forall|r: int| #![trigger l@[r]] 0 <= r < i ==> l@[r]@.len() == n,
                forall|r: int, c: int| #![trigger l@[r]@[c]]
                    0 <= r < i && 0 <= c < n ==> l@[r]@[c] == laplacian_entry(a, r, c),
        {
            let row_adj = &self.adjacency[i];
            proof { lemma_degree_bound(a, i as int); }
            let mut row: Vec<i64> = Vec::new();
            for c in 0..n
                invariant
                    row@.len() == c,
                    forall|k: int| 0 <= k < c ==> #[trigger] row@[k] == 0,
            {
                row.push(0);
            }
            row.set(i, row_adj.len() as i64);
            for k in 0..row_adj.len()
                invariant
                    n == a.len(),
                    0 <= i < n,
                    row_adj@ == a[i as int],
                    adjacency_wf(a),
                    row@.len() == n,
                    row@[i as int] == a[i as int].len(),
                    forall|c: int| #![trigger row@[c]] 0 <= c < n && c != i ==>
                        row@[c] == (if a[i as int].take(k as int).contains(c as usize) { -1int } else { 0int }),
            {
                let j = row_adj[k];
                assert(j < n && j != i);
                let ghost old_row = row@;
                row.set(j, -1);
                proof {
                    assert forall|c: int| #![trigger row@[c]] 0 <= c < n && c != i implies
                        row@[c] == (if a[i as int].take(k + 1).contains(c as usize) { -1int } else { 0int }) by {
                        let t0 = a[i as int].take(k as int);
                        let t1 = a[i as int].take(k + 1);
                        assert(t1 =~= t0.push(j));
                        if c != j as int {
                            assert(old_row[c] == (if t0.contains(c as usize) { -1int } else { 0int }));
                        } else {
                            assert(t1[k as int] == j);
                        }
                        if t0.contains(c as usize) {
                            let m = choose|m: int| 0 <= m < t0.len() && t0[m] == c as usize;
                            assert(t1[m] == c as usize);
                        }
                        if t1.contains(c as usize) && c != j as int {
                            let m = choose|m: int| 0 <= m < t1.len() && t1[m] == c as usize;
                            assert(t0[m] == c as usize);
                        }
                    }
                }
            }
            proof {
                assert(a[i as int].take(row_adj@.len() as int) =~= a[i as int]);
            }
            l.push(row);
        }
        proof {
            assert forall|i: int, j: int| #![trigger l@[i]@[j], l@[j]@[i]]
                0 <= i < l@.len() && 0 <= j < l@.len() implies l@[i]@[j] == l@[j]@[i] by {
                lemma_laplacian_symmetric(a, i, j);
            }
            assert forall|i: int| #![trigger l@[i]] 0 <= i < l@.len() implies row_sum(l@[i]@) == 0 by {
                lemma_row_sum_matches(a, i, l@[i]@, n as nat);
                lemma_laplacian_rows_sum_to_zero(a, i);
                assert(l@[i]@.take(n as int) =~= l@[i]@);
            }
        }
        l
    }

    #[inline]
    fn validate_node(&self, idx: usize) -> (r: Result<(), GraphError>)
        requires
            self.wf(),
        ensures
            idx < self@.len() ==> r is Ok,
            idx >= self@.len() ==> r == Err::<(), GraphError>(GraphError::NodeOutOfRange(idx, self@.len() as usize)),
    {
        if idx >= self.num_nodes {
            Err(GraphError::NodeOutOfRange(idx, self.num_nodes))
        } else {
            Ok(())
        }
    }
}

/// Linear membership test on a list of node indices.
fn vec_contains(v: &Vec<usize>, x: usize) -> (r: bool)
    ensures
        r == v@.contains(x),
{
    for i in 0..v.len()
        invariant
            forall|k: int| 0 <= k < i ==> v@[k] != x,
    {
        if v[i] == x {
            return true;
        }
    }
    false
}

/// Filling an empty entry raises the count by one.
proof fn lemma_count_some_update(s: Seq<Option<usize>>, i: int, v: usize)
    requires
        0 <= i < s.len(),
        s[i] is None,
    ensures
        count_some(s.update(i, Some(v))) == count_some(s) + 1,
    decreases s.len(),
{
    let t = s.update(i, Some(v));
    if i == s.len() - 1 {
        assert(t.drop_last() =~= s.drop_last());
    } else {
        assert(t.drop_last() =~= s.drop_last().update(i, Some(v)));
        lemma_count_some_update(s.drop_last(), i, v);
    }
}

/// A distance table has at most as many filled entries as it has entries.
proof fn lemma_count_some_le(s: Seq<Option<usize>>)
    ensures
        count_some(s) <= s.len(),
    decreases s.len(),
{
    if s.len() > 0 {
        lemma_count_some_le(s.drop_last());
    }
}

/// Reachability within `j` edges implies reachability within any `k >= j`.
pub proof fn lemma_reachable_monotonic(adj: Seq<Seq<usize>>, s: int, t: int, j: nat, k: nat)
    requires
        j <= k,
        reachable_within(adj, s, t, j),
    ensures
        reachable_within(adj, s, t, k),
    decreases k - j,
{
    if j < k {
        lemma_reachable_monotonic(adj, s, t, j, (k - 1) as nat);
    }
}

/// Whatever can be reached has a shortest hop distance.
proof fn lemma_min_distance(adj: Seq<Seq<usize>>, s: int, t: int, k: nat)
    requires
        reachable_within(adj, s, t, k),
    ensures
        exists|m: nat| m <= k && #[trigger] is_hop_distance(adj, s, t, m),
    decreases k,
{
    if k == 0 {
        assert(is_hop_distance(adj, s, t, 0));
    } else if reachable_within(adj, s, t, (k - 1) as nat) {
        lemma_min_distance(adj, s, t, (k - 1) as nat);
        let m = choose|m: nat| m <= k - 1 && #[trigger] is_hop_distance(adj, s, t, m);
        assert(is_hop_distance(adj, s, t, m));
    } else {
        assert(is_hop_distance(adj, s, t, k));
    }
}

/// A node at hop distance `d` has one at every smaller distance `l` on the
/// way back to the source.
proof fn lemma_distance_chain(adj: Seq<Seq<usize>>, s: int, t: int, d: nat, l: nat)
    requires
        l <= d,
        0 <= t < adj.len(),
        is_hop_distance(adj, s, t, d),
    ensures
        exists|y: int| 0 <= y < adj.len() && #[trigger] is_hop_distance(adj, s, y, l),
    decreases d - l,
{
    if l == d {
        assert(is_hop_distance(adj, s, t, d));
    } else {
        let w = choose|w: int| #[trigger] has_edge(adj, w, t) && reachable_within(adj, s, w, (d - 1) as nat);
        if d >= 2 && reachable_within(adj, s, w, (d - 2) as nat) {
            assert(reachable_within(adj, s, t, (d - 1) as nat));
        }
        assert(is_hop_distance(adj, s, w, (d - 1) as nat));
        lemma_distance_chain(adj, s, w, (d - 1) as nat, l);
    }
}

/// The hop distance is unique.
proof fn lemma_distance_unique(adj: Seq<Seq<usize>>, s: int, t: int, j: nat, k: nat)
    requires
        is_hop_distance(adj, s, t, j),
        is_hop_distance(adj, s, t, k),
    ensures
        j == k,
{
    if j < k {
        lemma_reachable_monotonic(adj, s, t, j, (k - 1) as nat);
    } else if k < j {
        lemma_reachable_monotonic(adj, s, t, k, (j - 1) as nat);
    }
}

/// Once inserting a prefix of the edges fails, every longer prefix fails
/// with the same error.
proof fn lemma_apply_edges_err_sticky(adj: Seq<Seq<usize>>, edges: Seq<(usize, usize)>, k: nat)
    requires
        k <= edges.len(),
        apply_edges(adj, edges.take(k as int)) is Err,
    ensures
        apply_edges(adj, edges) == apply_edges(adj, edges.take(k as int)),
    decreases edges.len() - k,
{
    if k < edges.len() {
        let t = edges.take(k as int + 1);
        assert(t.drop_last() =~= edges.take(k as int));
        lemma_apply_edges_err_sticky(adj, edges, k + 1);
    } else {
        assert(edges.take(k as int) =~= edges);
    }
}

/// A list without repeats whose entries are nodes other than `i` holds
/// fewer than `n` entries.
proof fn lemma_degree_bound(adj: Seq<Seq<usize>>, i: int)
    requires
        adjacency_wf(adj),
        adj.len() <= usize::MAX,
        0 <= i < adj.len(),
    ensures
        adj[i].len() < adj.len(),
{
    let row = adj[i];
    assert(row.no_duplicates());
    let s = row.to_set();
    row.unique_seq_to_set();
    let full = Set::new(|x: usize| x < adj.len() && x != i as usize);
    assert forall|x: usize| s.contains(x) implies full.contains(x) by {
        assert(row.contains(x));
        let k = choose|k: int| 0 <= k < row.len() && row[k] == x;
        assert(row[k] < adj.len() && row[k] != i);
    }
    let r = Set::new(|x: usize| x < adj.len());
    lemma_usize_range_len(adj.len());
    assert(full =~= r.remove(i as usize));
    vstd::set_lib::lemma_len_subset(s, full);
}

/// `{0, …, n-1}` as a set of `usize` has `n` elements.
proof fn lemma_usize_range_len(n: nat)
    requires
        n <= usize::MAX + 1,
    ensures
        Set::new(|x: usize| x < n).finite(),
        Set::new(|x: usize| x < n).len() == n,
    decreases n,
{
    if n == 0 {
        assert(Set::new(|x: usize| x < n) =~= Set::<usize>::empty());
    } else {
        lemma_usize_range_len((n - 1) as nat);
        assert(Set::new(|x: usize| x < n) =~= Set::new(|x: usize| x < (n - 1) as nat).insert((n - 1) as usize));
    }
}


/// Some edge of `edges` joins `u` and `v`, in either orientation.
pub open spec fn listed_edge(edges: Seq<(usize, usize)>, u: usize, v: usize) -> bool {
    exists|i: int| 0 <= i < edges.len() && (#[trigger] edges[i] == (u, v) || edges[i] == (v, u))
}

/// Every endpoint of every edge in `edges` is a node of an `n`-node graph.
pub open spec fn edges_in_range(edges: Seq<(usize, usize)>, n: nat) -> bool {
    forall|i: int| 0 <= i < edges.len() ==> (#[trigger] edges[i]).0 < n && edges[i].1 < n
}

/// Law: building a graph from an edge list succeeds exactly when every
/// endpoint is a node, and the graph then joins `u` and `v` exactly when
/// they differ and the list holds an edge between them in either
/// orientation (self-loops dropped, duplicates ignored).
pub proof fn lemma_from_edges_builds_undirected_graph(n: nat, edges: Seq<(usize, usize)>)
    requires
        n <= usize::MAX,
    ensures
        apply_edges(empty_adjacency(n), edges) is Ok <==> edges_in_range(edges, n),
        apply_edges(empty_adjacency(n), edges) matches Ok(a) ==> {
            &&& a.len() == n
            &&& forall|u: usize, v: usize| #![trigger a[u as int].contains(v)]
                u < n && v < n ==> (a[u as int].contains(v) <==> (u != v && listed_edge(edges, u, v)))
        },
    decreases edges.len(),
{
    assert forall|u: usize, v: usize| u < n implies !(#[trigger] empty_adjacency(n)[u as int].contains(v)) by {}
    lemma_apply_edges_relation(empty_adjacency(n), edges);
}

/// `u` lists `v` exactly when `v` lists `u`.
pub open spec fn contains_symmetric(adj: Seq<Seq<usize>>) -> bool {
    forall|u: usize, v: usize| #![trigger adj[u as int].contains(v)]
        u < adj.len() && v < adj.len() ==> (adj[u as int].contains(v) <==> adj[v as int].contains(u))
}

/// Inserting a list of edges into adjacency lists with symmetric membership.
proof fn lemma_apply_edges_relation(adj: Seq<Seq<usize>>, edges: Seq<(usize, usize)>)
    requires
        adj.len() <= usize::MAX,
        contains_symmetric(adj),
    ensures
        apply_edges(adj, edges) is Ok <==> edges_in_range(edges, adj.len()),
        apply_edges(adj, edges) matches Ok(a) ==> {
            &&& a.len() == adj.len()
            &&& forall|u: usize, v: usize| #![trigger a[u as int].contains(v)]
                u < adj.len() && v < adj.len() ==> (a[u as int].contains(v) <==>
                    (adj[u as int].contains(v) || (u != v && listed_edge(edges, u, v))))
        },
    decreases edges.len(),
{
    if edges.len() == 0 {
        assert forall|u: usize, v: usize| !listed_edge(edges, u, v) by {}
    } else {
        let init = edges.drop_last();
        let e = edges.last();
        lemma_apply_edges_relation(adj, init);
        if edges_in_range(edges, adj.len()) {
            assert forall|i: int| 0 <= i < init.len() implies (#[trigger] init[i]).0 < adj.len() && init[i].1 < adj.len() by {
                assert(init[i] == edges[i]);
            }
        }
        match apply_edges(adj, init) {
            Ok(a0) => {
                assert(contains_symmetric(a0)) by {
                    assert forall|u: usize, v: usize| #![trigger a0[u as int].contains(v)]
                        u < a0.len() && v < a0.len() implies (a0[u as int].contains(v) <==> a0[v as int].contains(u)) by {
                        assert(a0[v as int].contains(u) <==> (adj[v as int].contains(u) || (v != u && listed_edge(init, v, u))));
                        assert(adj[u as int].contains(v) <==> adj[v as int].contains(u));
                        if listed_edge(init, u, v) {
                            let i = choose|i: int| 0 <= i < init.len() && (#[trigger] init[i] == (u, v) || init[i] == (v, u));
                            assert(listed_edge(init, v, u));
                        }
                        if listed_edge(init, v, u) {
                            let i = choose|i: int| 0 <= i < init.len() && (#[trigger] init[i] == (v, u) || init[i] == (u, v));
                            assert(listed_edge(init, u, v));
                        }
                    }
                }
                if e.0 < adj.len() && e.1 < adj.len() {
                    assert(edges_in_range(edges, adj.len())) by {
                        assert forall|i: int| 0 <= i < edges.len() implies (#[trigger] edges[i]).0 < adj.len() && edges[i].1 < adj.len() by {
                            if i < init.len() {
                                assert(init[i] == edges[i]);
                            }
                        }
                    }
                    let a = with_edge(a0, e.0, e.1);
                    assert forall|u: usize, v: usize| #![trigger a[u as int].contains(v)]
                        u < adj.len() && v < adj.len() implies (a[u as int].contains(v) <==>
                            (adj[u as int].contains(v) || (u != v && listed_edge(edges, u, v)))) by {
                        assert(a0[u as int].contains(v) <==> (adj[u as int].contains(v) || (u != v && listed_edge(init, u, v))));
                        if listed_edge(init, u, v) {
                            let i = choose|i: int| 0 <= i < init.len() && (#[trigger] init[i] == (u, v) || init[i] == (v, u));
                            assert(edges[i] == init[i]);
                        }
                        if listed_edge(edges, u, v) && !listed_edge(init, u, v) {
                            let i = choose|i: int| 0 <= i < edges.len() && (#[trigger] edges[i] == (u, v) || edges[i] == (v, u));
                            if i < init.len() {
                                assert(init[i] == edges[i]);
                            }
                        }
                        if listed_edge(init, u, v) {
                            let i = choose|i: int| 0 <= i < init.len() && (#[trigger] init[i] == (u, v) || init[i] == (v, u));
                            assert(edges[i] == init[i]);
                        }
                        if e == (u, v) || e == (v, u) {
                            assert(edges[edges.len() - 1] == e);
                        }
                        lemma_with_edge_contains(a0, e.0, e.1, u, v);
                    }
                } else {
                    assert(edges[edges.len() - 1] == e);
                }
            },
            Err(_) => {
                if edges_in_range(edges, adj.len()) {
                }
            },
        }
    }
}

/// Membership in the lists after one edge insertion.
proof fn lemma_with_edge_contains(adj: Seq<Seq<usize>>, a: usize, b: usize, u: usize, v: usize)
    requires
        contains_symmetric(adj),
        a < adj.len(),
        b < adj.len(),
        u < adj.len(),
        v < adj.len(),
    ensures
        with_edge(adj, a, b).len() == adj.len(),
        with_edge(adj, a, b)[u as int].contains(v) <==>
            (adj[u as int].contains(v) || (a != b && ((u, v) == (a, b) || (u, v) == (b, a)))),
{
    let w = with_edge(adj, a, b);
    if a == b || adj[a as int].contains(b) {
        if a != b && (u, v) == (b, a) {
            assert(adj[a as int].contains(b) <==> adj[b as int].contains(a));
        }
    } else {
        if u == a && v == b {
            assert(w[u as int][adj[u as int].len() as int] == v);
        } else if u == b && v == a {
            assert(w[u as int][adj[u as int].len() as int] == v);
        }
        if w[u as int].contains(v) {
            let k = choose|k: int| 0 <= k < w[u as int].len() && w[u as int][k] == v;
            if k < adj[u as int].len() {
                assert(adj[u as int][k] == v);
            }
        }
        if adj[u as int].contains(v) {
            let k = choose|k: int| 0 <= k < adj[u as int].len() && adj[u as int][k] == v;
            assert(w[u as int][k] == v);
        }
    }
}

/// A walk can be extended at its start along an edge.
proof fn lemma_reachable_prepend(adj: Seq<Seq<usize>>, p: int, s: int, t: int, k: nat)
    requires
        has_edge(adj, p, s),
        reachable_within(adj, s, t, k),
    ensures
        reachable_within(adj, p, t, k + 1),
    decreases k,
{
    if k == 0 {
        assert(reachable_within(adj, p, p, 0));
        assert(has_edge(adj, p, t));
    } else if reachable_within(adj, s, t, (k - 1) as nat) {
        lemma_reachable_prepend(adj, p, s, t, (k - 1) as nat);
        lemma_reachable_monotonic(adj, p, t, k, k + 1);
    } else {
        let w = choose|w: int| #[trigger] has_edge(adj, w, t) && reachable_within(adj, s, w, (k - 1) as nat);
        lemma_reachable_prepend(adj, p, s, w, (k - 1) as nat);
        assert(has_edge(adj, w, t));
    }
}

/// Walks in an undirected graph can be reversed.
proof fn lemma_reachable_symmetric(adj: Seq<Seq<usize>>, s: int, t: int, k: nat)
    requires
        adjacency_wf(adj),
        adj.len() <= usize::MAX,
        0 <= s < adj.len(),
        0 <= t < adj.len(),
        reachable_within(adj, s, t, k),
    ensures
        reachable_within(adj, t, s, k),
    decreases k,
{
    if k > 0 {
        if reachable_within(adj, s, t, (k - 1) as nat) {
            lemma_reachable_symmetric(adj, s, t, (k - 1) as nat);
            lemma_reachable_monotonic(adj, t, s, (k - 1) as nat, k);
        } else {
            let w = choose|w: int| #[trigger] has_edge(adj, w, t) && reachable_within(adj, s, w, (k - 1) as nat);
            lemma_reachable_symmetric(adj, s, w, (k - 1) as nat);
            let tu = t as usize;
            let wu = w as usize;
            assert(adj[w].contains(tu));
            assert(adj[w][adj[w].index_of(tu)] == tu);
            assert(tu < adj.len());
            assert(adj[wu as int].contains(tu) <==> adj[tu as int].contains(wu));
            assert(has_edge(adj, t, w));
            lemma_reachable_prepend(adj, t, w, s, (k - 1) as nat);
        }
    }
}

/// Law: in an undirected graph the hop distance from `s` to `t` equals
/// the hop distance from `t` to `s`, and connectivity is symmetric.
pub proof fn lemma_hop_distance_symmetric(adj: Seq<Seq<usize>>, s: int, t: int, d: nat)
    requires
        adjacency_wf(adj),
        adj.len() <= usize::MAX,
        0 <= s < adj.len(),
        0 <= t < adj.len(),
    ensures
        is_hop_distance(adj, s, t, d) <==> is_hop_distance(adj, t, s, d),
        connected(adj, s, t) <==> connected(adj, t, s),
{
    if reachable_within(adj, s, t, d) {
        lemma_reachable_symmetric(adj, s, t, d);
    }
    if reachable_within(adj, t, s, d) {
        lemma_reachable_symmetric(adj, t, s, d);
    }
    if d > 0 {
        if reachable_within(adj, s, t, (d - 1) as nat) {
            lemma_reachable_symmetric(adj, s, t, (d - 1) as nat);
        }
        if reachable_within(adj, t, s, (d - 1) as nat) {
            lemma_reachable_symmetric(adj, t, s, (d - 1) as nat);
        }
    }
    if connected(adj, s, t) {
        let k = choose|k: nat| #[trigger] reachable_within(adj, s, t, k);
        lemma_reachable_symmetric(adj, s, t, k);
    }
    if connected(adj, t, s) {
        let k = choose|k: nat| #[trigger] reachable_within(adj, t, s, k);
        lemma_reachable_symmetric(adj, t, s, k);
    }
}

/// Law: the Laplacian is symmetric, its diagonal holds the degrees and
/// every off-diagonal entry is `-1` on an edge and `0` elsewhere.
pub proof fn lemma_laplacian_symmetric(adj: Seq<Seq<usize>>, i: int, j: int)
    requires
        adjacency_wf(adj),
        adj.len() <= usize::MAX,
        0 <= i < adj.len(),
        0 <= j < adj.len(),
    ensures
        laplacian_entry(adj, i, j) == laplacian_entry(adj, j, i),
{
    let iu = i as usize;
    let ju = j as usize;
    assert(adj[iu as int].contains(ju) <==> adj[ju as int].contains(iu));
}

/// Sum of the first `m` entries of row `i` of the Laplacian.
pub open spec fn laplacian_row_sum(adj: Seq<Seq<usize>>, i: int, m: nat) -> int
    decreases m,
{
    if m == 0 {
        0
    } else {
        laplacian_row_sum(adj, i, (m - 1) as nat) + laplacian_entry(adj, i, m - 1)
    }
}

/// Sum of the entries of a matrix row.
pub open spec fn row_sum(r: Seq<i64>) -> int
    decreases r.len(),
{
    if r.len() == 0 {
        0
    } else {
        row_sum(r.drop_last()) + r.last()
    }
}

proof fn lemma_row_sum_matches(adj: Seq<Seq<usize>>, i: int, r: Seq<i64>, m: nat)
    requires
        m <= r.len(),
        forall|j: int| 0 <= j < r.len() ==> #[trigger] r[j] == laplacian_entry(adj, i, j),
    ensures
        row_sum(r.take(m as int)) == laplacian_row_sum(adj, i, m),
    decreases m,
{
    if m > 0 {
        lemma_row_sum_matches(adj, i, r, (m - 1) as nat);
        assert(r.take(m as int).drop_last() =~= r.take(m - 1));
        assert(r.take(m as int).last() == r[m - 1]);
    }
}

/// Law: a graph value satisfies the adjacency invariant: every neighbour is
/// a node other than its own, no list repeats an entry, and `u` lists `v`
/// exactly when `v` lists `u`.  The laws stated over `adjacency_wf` apply
/// to every graph through this one.
pub proof fn lemma_graph_wf(g: &Graph)
    requires
        g.wf(),
    ensures
        adjacency_wf(g@),
        1 <= g@.len() <= usize::MAX,
{
}

/// Law: every row of the Laplacian sums to zero.
pub proof fn lemma_laplacian_rows_sum_to_zero(adj: Seq<Seq<usize>>, i: int)
    requires
        adjacency_wf(adj),
        adj.len() <= usize::MAX,
        0 <= i < adj.len(),
    ensures
        laplacian_row_sum(adj, i, adj.len()) == 0,
{
    lemma_row_sum_prefix(adj, i, adj.len());
    let row = adj[i];
    let full = Set::new(|j: usize| j < adj.len() && row.contains(j));
    assert forall|j: usize| row.to_set().contains(j) implies full.contains(j) by {
        assert(row.contains(j));
        let k = choose|k: int| 0 <= k < row.len() && row[k] == j;
        assert(row[k] < adj.len());
    }
    assert(full =~= row.to_set());
    row.unique_seq_to_set();
}

proof fn lemma_row_sum_prefix(adj: Seq<Seq<usize>>, i: int, m: nat)
    requires
        adjacency_wf(adj),
        adj.len() <= usize::MAX,
        0 <= i < adj.len(),
        m <= adj.len(),
    ensures
        Set::new(|j: usize| j < m && adj[i].contains(j)).finite(),
        laplacian_row_sum(adj, i, m) == (if m > i { adj[i].len() as int } else { 0int })
            - Set::new(|j: usize| j < m && adj[i].contains(j)).len(),
    decreases m,
{
    let s = Set::new(|j: usize| j < m && adj[i].contains(j));
    if m == 0 {
        assert(s =~= Set::<usize>::empty());
    } else {
        lemma_row_sum_prefix(adj, i, (m - 1) as nat);
        let sp = Set::new(|j: usize| j < (m - 1) as nat && adj[i].contains(j));
        let j = (m - 1) as usize;
        if adj[i].contains(j) {
            assert(s =~= sp.insert(j));
            let k = choose|k: int| 0 <= k < adj[i].len() && adj[i][k] == j;
            assert(adj[i][k] != i);
        } else {
            assert(s =~= sp);
        }
    }
}

} // verus!
