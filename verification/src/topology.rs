use vstd::prelude::*;

use crate::graph::{
    adjacency_wf, apply_edges, edges_in_range, empty_adjacency, lemma_from_edges_builds_undirected_graph,
    lemma_graph_wf, listed_edge, Graph,
};

verus! {

/// A list of names after `x` is interned: unchanged if present, else
/// extended by `x`.
pub open spec fn with_name(ns: Seq<Seq<char>>, x: Seq<char>) -> Seq<Seq<char>> {
    if ns.contains(x) {
        ns
    } else {
        ns.push(x)
    }
}

/// String → dense index intern table; index `i` names the `i`-th distinct
/// string interned.
pub struct EntityIndex {
    names: Vec<String>,
}

impl View for EntityIndex {
    type V = Seq<Seq<char>>;

    closed spec fn view(&self) -> Seq<Seq<char>> {
        self.names@.map_values(|s: String| s@)
    }
}

impl EntityIndex {
    /// No name is held twice.
    pub open spec fn wf(&self) -> bool {
        self@.no_duplicates()
    }

    /// An empty table.
    pub fn new() -> (r: EntityIndex)
        ensures
            r.wf(),
            r@ == Seq::<Seq<char>>::empty(),
    {
        let r = EntityIndex { names: Vec::new() };
        assert(r@ =~= Seq::<Seq<char>>::empty());
        r
    }

    /// Number of interned names.
    pub fn len(&self) -> (n: usize)
        ensures
            n == self@.len(),
    {
        self.names.len()
    }

    /// The name with index `i`.
    pub fn name_at(&self, i: usize) -> (r: &String)
        requires
            i < self@.len(),
        ensures
            r@ == self@[i as int],
    {
        &self.names[i]
    }

    /// The index of `name`, if it has been interned.
    pub fn lookup(&self, name: &str) -> (r: Option<usize>)
        requires
            self.wf(),
        ensures
            r matches Some(i) ==> i < self@.len() && self@[i as int] == name@,
            r is None <==> !self@.contains(name@),
    {
        let key = String::from_str(name);
        for i in 0..self.names.len()
            invariant
                key@ == name@,
                forall|j: int| 0 <= j < i ==> #[trigger] self@[j] != name@,
        {
            if self.names[i] == key {
                return Some(i);
            }
        }
        proof {
            if self@.contains(name@) {
                let j = choose|j: int| 0 <= j < self@.len() && self@[j] == name@;
            }
        }
        None
    }

    /// The index of `name`, interning it first if it is new.
    pub fn intern(&mut self, name: &str) -> (r: usize)
        requires
            old(self).wf(),
        ensures
            final(self).wf(),
            final(self)@ == with_name(old(self)@, name@),
            r < final(self)@.len(),
            final(self)@[r as int] == name@,
    {
        match self.lookup(name) {
            Some(i) => i,
            None => {
                let idx = self.names.len();
                let ghost before = self@;
                self.names.push(String::from_str(name));
                assert(self@ =~= before.push(name@));
                idx
            },
        }
    }
}

/// The endpoint names of each edge.
pub open spec fn edge_names(edges: Seq<(String, String)>) -> Seq<(Seq<char>, Seq<char>)> {
    edges.map_values(|e: (String, String)| (e.0@, e.1@))
}

/// Names in order of first appearance, the source of each edge before its
/// destination.
pub open spec fn names_of_edges(edges: Seq<(Seq<char>, Seq<char>)>) -> Seq<Seq<char>>
    decreases edges.len(),
{
    if edges.len() == 0 {
        Seq::empty()
    } else {
        with_name(with_name(names_of_edges(edges.drop_last()), edges.last().0), edges.last().1)
    }
}

/// Intern the endpoints of `edges` in order and turn each edge into
/// a pair of indices.
pub fn intern_edges(edges: &Vec<(String, String)>) -> (r: (EntityIndex, Vec<(usize, usize)>))
    ensures
        r.0.wf(),
        r.0@ == names_of_edges(edge_names(edges@)),
        r.1@.len() == edges@.len(),
        forall|i: int| #![trigger r.1@[i]] 0 <= i < edges@.len() ==> {
            &&& r.1@[i].0 < r.0@.len() && r.0@[r.1@[i].0 as int] == edges@[i].0@
            &&& r.1@[i].1 < r.0@.len() && r.0@[r.1@[i].1 as int] == edges@[i].1@
        },
{
    let mut index = EntityIndex::new();
    let mut raw: Vec<(usize, usize)> = Vec::new();
    let ghost ev = edge_names(edges@);
    for i in 0..edges.len()
        invariant
            ev == edge_names(edges@),
            index.wf(),
            index@ == names_of_edges(ev.take(i as int)),
            raw@.len() == i,
            forall|k: int| #![trigger raw@[k]] 0 <= k < i ==> {
                &&& raw@[k].0 < index@.len() && index@[raw@[k].0 as int] == edges@[k].0@
                &&& raw@[k].1 < index@.len() && index@[raw@[k].1 as int] == edges@[k].1@
            },
    {
        let ghost before = index@;
        let u = index.intern(edges[i].0.as_str());
        let v = index.intern(edges[i].1.as_str());
        proof {
            assert(ev.take(i + 1).drop_last() =~= ev.take(i as int));
            assert(ev.take(i + 1).last() == ev[i as int]);
            assert forall|k: int| 0 <= k < i implies #[trigger] index@[raw@[k].0 as int] == edges@[k].0@
                && index@[raw@[k].1 as int] == edges@[k].1@ by {
                lemma_with_name_extends(before, edges@[i as int].0@, edges@[i as int].1@, raw@[k].0 as int);
                lemma_with_name_extends(before, edges@[i as int].0@, edges@[i as int].1@, raw@[k].1 as int);
            }
        }
        raw.push((u, v));
    }
    assert(ev.take(edges@.len() as int) =~= ev);
    (index, raw)
}

/// Interning keeps every existing index.
proof fn lemma_with_name_extends(ns: Seq<Seq<char>>, x: Seq<char>, y: Seq<char>, k: int)
    requires
        0 <= k < ns.len(),
    ensures
        with_name(with_name(ns, x), y).len() >= ns.len(),
        with_name(with_name(ns, x), y)[k] == ns[k],
{
}

/// The entity graph of a set of observed flows: the interned entity names
/// and the undirected graph over their indices.
pub struct SpectralTopology {
    pub entities: EntityIndex,
    pub graph: Graph,
}

impl SpectralTopology {
    /// Intern every endpoint and build the graph with one node per entity
    /// (at least two nodes), joining the endpoints of every edge.
    pub fn build(edges: &Vec<(String, String)>) -> (r: SpectralTopology)
        ensures
            r.entities.wf(),
            r.entities@ == names_of_edges(edge_names(edges@)),
            r.graph.wf(),
            r.graph@.len() == (if r.entities@.len() < 2 { 2 } else { r.entities@.len() }),
            forall|u: usize, v: usize| #![trigger r.graph@[u as int].contains(v)]
                u < r.entities@.len() && v < r.entities@.len() ==>
                    (r.graph@[u as int].contains(v) <==> (u != v && exists|i: int| 0 <= i < edges@.len()
                        && ((#[trigger] edges@[i].0@ == r.entities@[u as int] && edges@[i].1@ == r.entities@[v as int])
                        || (edges@[i].0@ == r.entities@[v as int] && edges@[i].1@ == r.entities@[u as int])))),
            forall|u: usize, v: usize| #![trigger r.graph@[u as int].contains(v)]
                u < r.graph@.len() && r.graph@[u as int].contains(v) ==> u < r.entities@.len() && v < r.entities@.len(),
    {
        let (entities, raw) = intern_edges(edges);
        let n = if entities.len() < 2 { 2 } else { entities.len() };
        proof {
            assert(edges_in_range(raw@, n as nat));
            lemma_from_edges_builds_undirected_graph(n as nat, raw@);
        }
        let graph = match Graph::from_edges(n, raw.as_slice()) {
            Ok(g) => g,
            Err(_) => {
                proof { assert(false); }
                Graph::from_edges(2, &[]).unwrap()
            }
        };
        proof {
            let a = graph@;
            let ns = entities@;
            assert forall|u: usize, v: usize| #![trigger a[u as int].contains(v)]
                u < ns.len() && v < ns.len() implies
                    (a[u as int].contains(v) <==> (u != v && exists|i: int| 0 <= i < edges@.len()
                        && ((#[trigger] edges@[i].0@ == ns[u as int] && edges@[i].1@ == ns[v as int])
                        || (edges@[i].0@ == ns[v as int] && edges@[i].1@ == ns[u as int])))) by {
                assert(a[u as int].contains(v) <==> (u != v && listed_edge(raw@, u, v)));
                if listed_edge(raw@, u, v) {
                    let i = choose|i: int| 0 <= i < raw@.len() && (#[trigger] raw@[i] == (u, v) || raw@[i] == (v, u));
                    assert(edges@[i].0@ == ns[raw@[i].0 as int]);
                }
                if exists|i: int| 0 <= i < edges@.len()
                        && ((#[trigger] edges@[i].0@ == ns[u as int] && edges@[i].1@ == ns[v as int])
                        || (edges@[i].0@ == ns[v as int] && edges@[i].1@ == ns[u as int])) {
                    let i = choose|i: int| 0 <= i < edges@.len()
                        && ((#[trigger] edges@[i].0@ == ns[u as int] && edges@[i].1@ == ns[v as int])
                        || (edges@[i].0@ == ns[v as int] && edges@[i].1@ == ns[u as int]));
                    let p = raw@[i];
                    assert(ns[p.0 as int] == edges@[i].0@);
                    assert(ns[p.1 as int] == edges@[i].1@);
                    assert(ns.no_duplicates());
                    if edges@[i].0@ == ns[u as int] && edges@[i].1@ == ns[v as int] {
                        assert(p.0 == u && p.1 == v);
                    } else {
                        assert(p.0 == v && p.1 == u);
                    }
                    assert(raw@[i] == (u, v) || raw@[i] == (v, u));
                }
            }
        }
        proof {
            let a = graph@;
            lemma_graph_wf(&graph);
            assert forall|u: usize, v: usize| #![trigger a[u as int].contains(v)]
                u < a.len() && a[u as int].contains(v) implies u < entities@.len() && v < entities@.len() by {
                let k = choose|k: int| 0 <= k < a[u as int].len() && a[u as int][k] == v;
                assert(a[u as int][k] < a.len());
                assert(listed_edge(raw@, u, v));
                let i = choose|i: int| 0 <= i < raw@.len() && (#[trigger] raw@[i] == (u, v) || raw@[i] == (v, u));
                assert(raw@[i].0 < entities@.len() && raw@[i].1 < entities@.len());
            }
        }
        SpectralTopology { entities, graph }
    }

    /// Resolve `(source, destination, label)` name triples to node indices,
    /// dropping the triples with an unknown name.
    pub fn resolve_pairs(&self, pairs: &Vec<(String, String, String)>) -> (r: Vec<(usize, usize, String)>)
        requires
            self.entities.wf(),
        ensures
            resolved_view(r@) == resolve_spec(self.entities@, pairs@),
    {
        let mut out: Vec<(usize, usize, String)> = Vec::new();
        let ghost ns = self.entities@;
        for i in 0..pairs.len()
            invariant
                ns == self.entities@,
                ns.no_duplicates(),
                resolved_view(out@) == resolve_spec(ns, pairs@.take(i as int)),
        {
            assert(pairs@.take(i + 1).drop_last() =~= pairs@.take(i as int));
            assert(pairs@.take(i + 1).last() == pairs@[i as int]);
            let ghost before = out@;
            let (src, dst, label) = (&pairs[i].0, &pairs[i].1, &pairs[i].2);
            match (self.entities.lookup(src.as_str()), self.entities.lookup(dst.as_str())) {
                (Some(u), Some(v)) => {
                    proof {
                        lemma_position_of(ns, u as int, src@);
                        lemma_position_of(ns, v as int, dst@);
                    }
                    out.push((u, v, label.clone()));
                    assert(resolved_view(out@) =~= resolved_view(before).push((u, v, label@)));
                },
                _ => {},
            }
        }
        assert(pairs@.take(pairs@.len() as int) =~= pairs@);
        out
    }
}

/// The position of `x` in a list of names.
pub open spec fn position_of(ns: Seq<Seq<char>>, x: Seq<char>) -> int {
    choose|i: int| 0 <= i < ns.len() && ns[i] == x
}

/// In a list without repeats, the position of an entry is its index.
proof fn lemma_position_of(ns: Seq<Seq<char>>, i: int, x: Seq<char>)
    requires
        ns.no_duplicates(),
        0 <= i < ns.len(),
        ns[i] == x,
    ensures
        position_of(ns, x) == i,
{
}

/// Indices and label text of resolved triples.
pub open spec fn resolved_view(r: Seq<(usize, usize, String)>) -> Seq<(usize, usize, Seq<char>)> {
    r.map_values(|t: (usize, usize, String)| (t.0, t.1, t.2@))
}

/// The triples whose two names are interned, as node indices and label.
pub open spec fn resolve_spec(ns: Seq<Seq<char>>, pairs: Seq<(String, String, String)>) -> Seq<(usize, usize, Seq<char>)>
    decreases pairs.len(),
{
    if pairs.len() == 0 {
        Seq::empty()
    } else {
        let rest = resolve_spec(ns, pairs.drop_last());
        let p = pairs.last();
        if ns.contains(p.0@) && ns.contains(p.1@) {
            rest.push((position_of(ns, p.0@) as usize, position_of(ns, p.1@) as usize, p.2@))
        } else {
            rest
        }
    }
}

/// String → `u64` intern table handing out ids `1, 2, 3, …` in order of
/// first appearance.
pub struct NodeInterner {
    names: EntityIndex,
}

impl View for NodeInterner {
    type V = Seq<Seq<char>>;

    /// Entry `i` is the string with id `i + 1`.
    closed spec fn view(&self) -> Seq<Seq<char>> {
        self.names@
    }
}

impl NodeInterner {
    /// No string holds two ids.
    pub open spec fn wf(&self) -> bool {
        self@.no_duplicates()
    }

    /// An empty table; the first id handed out is `1`.
    pub fn new() -> (r: NodeInterner)
        ensures
            r.wf(),
            r@ == Seq::<Seq<char>>::empty(),
    {
        NodeInterner { names: EntityIndex::new() }
    }

    /// The id of `val`, assigning the next id if it is new.
    pub fn get_or_intern(&mut self, val: &str) -> (id: u64)
        requires
            old(self).wf(),
        ensures
            final(self).wf(),
            final(self)@ == with_name(old(self)@, val@),
            1 <= id <= final(self)@.len(),
            final(self)@[id - 1] == val@,
    {
        let i = self.names.intern(val);
        let n = self.names.len();
        assert(i < n);
        (i + 1) as u64
    }
}

/// Law: in an intern table without repeats two entries hold the same
/// string exactly when they are the same entry, so equal strings get equal
/// ids and different strings different ids; interning a string already
/// present changes nothing.
pub proof fn lemma_intern_injective(ns: Seq<Seq<char>>, i: int, j: int, x: Seq<char>)
    requires
        ns.no_duplicates(),
        0 <= i < ns.len(),
        0 <= j < ns.len(),
    ensures
        ns[i] == ns[j] <==> i == j,
        ns.contains(x) ==> with_name(ns, x) == ns,
{
}

/// The table after interning each of `xs` in turn, starting from `ns`.
pub open spec fn intern_run(ns: Seq<Seq<char>>, xs: Seq<Seq<char>>) -> Seq<Seq<char>>
    decreases xs.len(),
{
    if xs.len() == 0 {
        ns
    } else {
        with_name(intern_run(ns, xs.drop_last()), xs.last())
    }
}

/// Law: over any run of interning calls the table only grows at its end,
/// so an id once handed out keeps naming the same string; the table never
/// holds a string twice and holds every string interned.  Together with
/// [`lemma_intern_injective`] this gives that equal strings receive equal
/// ids and distinct strings distinct ids across calls.
pub proof fn lemma_intern_run(ns: Seq<Seq<char>>, xs: Seq<Seq<char>>)
    requires
        ns.no_duplicates(),
    ensures
        intern_run(ns, xs).no_duplicates(),
        intern_run(ns, xs).len() >= ns.len(),
        forall|i: int| 0 <= i < ns.len() ==> #[trigger] intern_run(ns, xs)[i] == ns[i],
        forall|k: int| 0 <= k < xs.len() ==> intern_run(ns, xs).contains(#[trigger] xs[k]),
    decreases xs.len(),
{
    if xs.len() > 0 {
        let init = xs.drop_last();
        lemma_intern_run(ns, init);
        let p = intern_run(ns, init);
        let x = xs.last();
        let r = intern_run(ns, xs);
        assert forall|k: int| 0 <= k < xs.len() implies r.contains(#[trigger] xs[k]) by {
            if k < init.len() {
                assert(init[k] == xs[k]);
                assert(p.contains(init[k]));
                let m = choose|m: int| 0 <= m < p.len() && p[m] == init[k];
                assert(r[m] == p[m]);
            } else if !p.contains(x) {
                assert(r[r.len() - 1] == x);
            }
        }
    }
}

} // verus!
