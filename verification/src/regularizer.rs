use vstd::prelude::*;

use std::collections::HashMap;

verus! {

broadcast use vstd::std_specs::hash::group_hash_axioms;

/// Infrastructure metadata used for similarity scoring.
#[derive(Debug, Clone)]
pub struct NodeMeta {
    /// Subnet base address, e.g. `0xC0A80100` = 192.168.1.0.
    pub subnet_prefix: u32,
    pub prefix_len: u8,
    pub gateway: Option<u32>,
    /// BGP / AS-path hop list.
    pub as_path: Vec<u32>,
    pub infra_parent: Option<u32>,
}

/// Why two nodes are considered structurally similar, in priority order.
/// The score is `0.9` for a common gateway, `0.8` for a common parent,
/// `prefix_len / 32` for a shared subnet prefix, `0.6 · shared / total` for
/// AS-path overlap and `0` when unscored.
#[derive(Debug, Clone, Copy, PartialEq, Eq, Structural)]
pub enum SimilarityBasis {
    /// A node lacks metadata or nothing is shared.
    Unscored,
    CommonGateway { gateway_id: u32 },
    InfrastructureParent { parent_node: u32 },
    /// The subnets agree on their common `prefix_len` leading bits.
    SharedSubnet { prefix_len: u8 },
    /// `shared` distinct AS numbers occur on both paths out of `total`
    /// distinct on either.
    AsPathOverlap { shared: u64, total: u64 },
}

/// The two subnet addresses agree on their `m` leading bits.
pub open spec fn subnet_prefixes_match(a: u32, b: u32, m: u8) -> bool {
    ((a as u64) >> ((32 - m) as u64)) == ((b as u64) >> ((32 - m) as u64))
}

/// The shorter of two prefix lengths.
pub open spec fn min_prefix(a: u8, b: u8) -> u8 {
    if a <= b { a } else { b }
}

/// Gateways or parents both present and equal.
pub open spec fn same_present(a: Option<u32>, b: Option<u32>) -> bool {
    a is Some && b is Some && a == b
}

/// The similarity basis of two nodes' metadata.
pub open spec fn similarity_of(mu: Option<NodeMeta>, mv: Option<NodeMeta>) -> SimilarityBasis {
    match (mu, mv) {
        (Some(a), Some(b)) => {
            if same_present(a.gateway, b.gateway) {
                SimilarityBasis::CommonGateway { gateway_id: a.gateway->0 }
            } else if same_present(a.infra_parent, b.infra_parent) {
                SimilarityBasis::InfrastructureParent { parent_node: a.infra_parent->0 }
            } else if subnet_prefixes_match(a.subnet_prefix, b.subnet_prefix, min_prefix(a.prefix_len, b.prefix_len)) {
                SimilarityBasis::SharedSubnet { prefix_len: min_prefix(a.prefix_len, b.prefix_len) }
            } else if (a.as_path@.to_set() + b.as_path@.to_set()).len() > 0 {
                SimilarityBasis::AsPathOverlap {
                    shared: a.as_path@.to_set().intersect(b.as_path@.to_set()).len() as u64,
                    total: (a.as_path@.to_set() + b.as_path@.to_set()).len() as u64,
                }
            } else {
                SimilarityBasis::Unscored
            }
        },
        _ => SimilarityBasis::Unscored,
    }
}

/// The subnet comparison is only reached with prefix lengths of at most 32;
/// a longer prefix has no meaning for an IPv4 subnet.
pub open spec fn similarity_defined(mu: Option<NodeMeta>, mv: Option<NodeMeta>) -> bool {
    match (mu, mv) {
        (Some(a), Some(b)) => same_present(a.gateway, b.gateway) || same_present(a.infra_parent, b.infra_parent)
            || (a.prefix_len <= 32 && b.prefix_len <= 32),
        _ => true,
    }
}

/// Metadata registered for a node, if any.
pub open spec fn meta_of(m: Map<u32, NodeMeta>, id: u32) -> Option<NodeMeta> {
    if m.contains_key(id) {
        Some(m[id])
    } else {
        None
    }
}

/// A candidate virtual edge between two physically unconnected nodes.
#[derive(Debug, Clone, Copy, PartialEq, Eq, Structural)]
pub struct VirtualEdgeCandidate {
    pub src: u32,
    pub dst: u32,
    pub basis: SimilarityBasis,
}

/// Some physical edge joins `u` and `v` in either orientation.
pub open spec fn is_physical(edges: Seq<(u32, u32)>, u: u32, v: u32) -> bool {
    exists|i: int| 0 <= i < edges.len() && (#[trigger] edges[i] == (u, v) || edges[i] == (v, u))
}

/// A pair `u < v < n` without a physical edge.
pub open spec fn is_candidate_pair(n: u32, edges: Seq<(u32, u32)>, p: (u32, u32)) -> bool {
    p.0 < p.1 && p.1 < n && !is_physical(edges, p.0, p.1)
}

/// Lexicographic order on pairs.
pub open spec fn pair_before(a: (u32, u32), b: (u32, u32)) -> bool {
    a.0 < b.0 || (a.0 == b.0 && a.1 < b.1)
}

/// The node pairs of a candidate list.
pub open spec fn candidate_pairs(cs: Seq<VirtualEdgeCandidate>) -> Seq<(u32, u32)> {
    cs.map_values(|c: VirtualEdgeCandidate| (c.src, c.dst))
}

/// Node id → infrastructure metadata.
pub struct NodeRegistry {
    meta: HashMap<u32, NodeMeta>,
}

impl View for NodeRegistry {
    type V = Map<u32, NodeMeta>;

    closed spec fn view(&self) -> Map<u32, NodeMeta> {
        self.meta@
    }
}

impl NodeRegistry {
    /// An empty registry.
    pub fn new() -> (r: NodeRegistry)
        ensures
            r@ == Map::<u32, NodeMeta>::empty(),
    {
        NodeRegistry { meta: HashMap::new() }
    }

    /// Register (or replace) the metadata of node `id`.
    pub fn register_node(&mut self, id: u32, meta: NodeMeta)
        ensures
            final(self)@ == old(self)@.insert(id, meta),
    {
        self.meta.insert(id, meta);
    }

    /// The metadata of node `id`.
    pub fn get(&self, id: u32) -> (r: Option<&NodeMeta>)
        ensures
            r matches Some(m) ==> meta_of(self@, id) == Some(*m),
            r is None ==> meta_of(self@, id) is None,
    {
        self.meta.get(&id)
    }

    /// Structural similarity basis of nodes `u` and `v`: common gateway
    /// before common parent before shared subnet prefix before AS-path
    /// overlap.
    pub fn similarity(&self, u: u32, v: u32) -> (r: SimilarityBasis)
        requires
            similarity_defined(meta_of(self@, u), meta_of(self@, v)),
        ensures
            r == similarity_of(meta_of(self@, u), meta_of(self@, v)),
    {
        let mu = self.get(u);
        let mv = self.get(v);
        match (mu, mv) {
            (Some(a), Some(b)) => similarity_between(a, b),
            _ => SimilarityBasis::Unscored,
        }
    }

    /// Whether `similarity(u, v)` is defined.
    pub fn similarity_is_defined(&self, u: u32, v: u32) -> (r: bool)
        ensures
            r == similarity_defined(meta_of(self@, u), meta_of(self@, v)),
    {
        match (self.get(u), self.get(v)) {
            (Some(a), Some(b)) => {
                let gw = match (a.gateway, b.gateway) {
                    (Some(x), Some(y)) => x == y,
                    _ => false,
                };
                let par = match (a.infra_parent, b.infra_parent) {
                    (Some(x), Some(y)) => x == y,
                    _ => false,
                };
                gw || par || (a.prefix_len <= 32 && b.prefix_len <= 32)
            },
            _ => true,
        }
    }

    /// For every pair `u < v < n` (in lexicographic order) not joined by a
    /// physical edge, its similarity basis.  `Err(p)` names the first such
    /// pair whose similarity is undefined.
    pub fn candidate_virtual_edges(&self, n: u32, physical: &Vec<(u32, u32)>) -> (r: Result<Vec<VirtualEdgeCandidate>, (u32, u32)>)
        ensures
            r matches Ok(cs) ==> {
                &&& forall|i: int| #![trigger cs@[i]] 0 <= i < cs@.len() ==> is_candidate_pair(n, physical@, (cs@[i].src, cs@[i].dst))
                    && cs@[i].basis == similarity_of(meta_of(self@, cs@[i].src), meta_of(self@, cs@[i].dst))
                &&& forall|i: int, j: int| #![trigger cs@[i], cs@[j]] 0 <= i < j < cs@.len() ==>
                    pair_before((cs@[i].src, cs@[i].dst), (cs@[j].src, cs@[j].dst))
                &&& forall|p: (u32, u32)| is_candidate_pair(n, physical@, p) ==> #[trigger] candidate_pairs(cs@).contains(p)
                    && similarity_defined(meta_of(self@, p.0), meta_of(self@, p.1))
            },
            r matches Err(p) ==> {
                &&& is_candidate_pair(n, physical@, p)
                &&& !similarity_defined(meta_of(self@, p.0), meta_of(self@, p.1))
                &&& forall|q: (u32, u32)| is_candidate_pair(n, physical@, q) && #[trigger] pair_before(q, p)
                    ==> similarity_defined(meta_of(self@, q.0), meta_of(self@, q.1))
            },
    {
        let mut cs: Vec<VirtualEdgeCandidate> = Vec::new();
        let mut u: u32 = 0;
        while u < n
            invariant
                u <= n,
                forall|i: int| #![trigger cs@[i]] 0 <= i < cs@.len() ==> is_candidate_pair(n, physical@, (cs@[i].src, cs@[i].dst))
                    && cs@[i].basis == similarity_of(meta_of(self@, cs@[i].src), meta_of(self@, cs@[i].dst))
                    && cs@[i].src < u,
                forall|i: int, j: int| #![trigger cs@[i], cs@[j]] 0 <= i < j < cs@.len() ==>
                    pair_before((cs@[i].src, cs@[i].dst), (cs@[j].src, cs@[j].dst)),
                forall|p: (u32, u32)| is_candidate_pair(n, physical@, p) && p.0 < u ==> #[trigger] candidate_pairs(cs@).contains(p)
                    && similarity_defined(meta_of(self@, p.0), meta_of(self@, p.1)),
            decreases n - u,
        {
            let mut v: u32 = u + 1;
            while v < n
                invariant
                    u < n,
                    u + 1 <= v <= n,
                    forall|i: int| #![trigger cs@[i]] 0 <= i < cs@.len() ==> is_candidate_pair(n, physical@, (cs@[i].src, cs@[i].dst))
                        && cs@[i].basis == similarity_of(meta_of(self@, cs@[i].src), meta_of(self@, cs@[i].dst))
                        && pair_before((cs@[i].src, cs@[i].dst), (u, v)),
                    forall|i: int, j: int| #![trigger cs@[i], cs@[j]] 0 <= i < j < cs@.len() ==>
                        pair_before((cs@[i].src, cs@[i].dst), (cs@[j].src, cs@[j].dst)),
                    forall|p: (u32, u32)| is_candidate_pair(n, physical@, p) && pair_before(p, (u, v)) ==> #[trigger] candidate_pairs(cs@).contains(p)
                        && similarity_defined(meta_of(self@, p.0), meta_of(self@, p.1)),
                decreases n - v,
            {
                let ghost before = cs@;
                if !has_physical_edge(physical, u, v) {
                    if !self.similarity_is_defined(u, v) {
                        proof {
                            assert forall|q: (u32, u32)| is_candidate_pair(n, physical@, q) && #[trigger] pair_before(q, (u, v))
                                implies similarity_defined(meta_of(self@, q.0), meta_of(self@, q.1)) by {
                                assert(candidate_pairs(cs@).contains(q));
                            }
                        }
                        return Err((u, v));
                    }
                    let basis = self.similarity(u, v);
                    cs.push(VirtualEdgeCandidate { src: u, dst: v, basis });
                    proof {
                        assert forall|p: (u32, u32)| is_candidate_pair(n, physical@, p) && pair_before(p, (u, (v + 1) as u32))
                            implies #[trigger] candidate_pairs(cs@).contains(p) && similarity_defined(meta_of(self@, p.0), meta_of(self@, p.1)) by {
                            if p == (u, v) {
                                assert(candidate_pairs(cs@)[cs@.len() - 1] == p);
                            } else {
                                assert(candidate_pairs(before).contains(p));
                                let k = choose|k: int| 0 <= k < candidate_pairs(before).len() && candidate_pairs(before)[k] == p;
                                assert(candidate_pairs(cs@)[k] == p);
                            }
                        }
                    }
                } else {
                    proof {
                        assert forall|p: (u32, u32)| is_candidate_pair(n, physical@, p) && pair_before(p, (u, (v + 1) as u32))
                            implies #[trigger] candidate_pairs(cs@).contains(p) && similarity_defined(meta_of(self@, p.0), meta_of(self@, p.1)) by {
                            if p == (u, v) {
                                assert(is_physical(physical@, u, v));
                            }
                        }
                    }
                }
                v = v + 1;
            }
            proof {
                assert forall|p: (u32, u32)| is_candidate_pair(n, physical@, p) && p.0 < u + 1
                    implies #[trigger] candidate_pairs(cs@).contains(p) && similarity_defined(meta_of(self@, p.0), meta_of(self@, p.1)) by {
                    assert(pair_before(p, (u, v)));
                }
            }
            u = u + 1;
        }
        Ok(cs)
    }
}

/// Whether a physical edge joins `u` and `v`.
fn has_physical_edge(edges: &Vec<(u32, u32)>, u: u32, v: u32) -> (r: bool)
    ensures
        r == is_physical(edges@, u, v),
{
    for i in 0..edges.len()
        invariant
            forall|k: int| 0 <= k < i ==> !(#[trigger] edges@[k] == (u, v) || edges@[k] == (v, u)),
    {
        let (a, b) = edges[i];
        if (a == u && b == v) || (a == v && b == u) {
            assert(edges@[i as int] == (u, v) || edges@[i as int] == (v, u));
            return true;
        }
    }
    false
}

/// Similarity basis of two registered nodes.
fn similarity_between(a: &NodeMeta, b: &NodeMeta) -> (r: SimilarityBasis)
    requires
        similarity_defined(Some(*a), Some(*b)),
    ensures
        r == similarity_of(Some(*a), Some(*b)),
{
    if let (Some(gu), Some(gv)) = (a.gateway, b.gateway) {
        if gu == gv {
            return SimilarityBasis::CommonGateway { gateway_id: gu };
        }
    }
    if let (Some(pu), Some(pv)) = (a.infra_parent, b.infra_parent) {
        if pu == pv {
            return SimilarityBasis::InfrastructureParent { parent_node: pu };
        }
    }
    let m: u8 = if a.prefix_len <= b.prefix_len { a.prefix_len } else { b.prefix_len };
    let shift: u64 = (32 - m) as u64;
    if ((a.subnet_prefix as u64) >> shift) == ((b.subnet_prefix as u64) >> shift) {
        return SimilarityBasis::SharedSubnet { prefix_len: m };
    }
    let (shared, total) = as_path_overlap(&a.as_path, &b.as_path);
    if total > 0 {
        SimilarityBasis::AsPathOverlap { shared, total }
    } else {
        SimilarityBasis::Unscored
    }
}

/// The distinct entries of `v`.
fn distinct(v: &Vec<u32>) -> (r: Vec<u32>)
    ensures
        r@.no_duplicates(),
        r@.to_set() == v@.to_set(),
{
    let mut r: Vec<u32> = Vec::new();
    for i in 0..v.len()
        invariant
            r@.no_duplicates(),
            r@.to_set() == v@.take(i as int).to_set(),
    {
        let x = v[i];
        let ghost before = r@;
        assert(v@.take(i + 1) =~= v@.take(i as int).push(x));
        proof {
            v@.take(i as int).lemma_push_to_set_commute(x);
            before.lemma_push_to_set_commute(x);
        }
        if !u32_vec_contains(&r, x) {
            r.push(x);
            assert(r@.to_set() =~= before.to_set().insert(x));
            assert(v@.take(i + 1).to_set() =~= v@.take(i as int).to_set().insert(x));
        } else {
            assert(v@.take(i + 1).to_set() =~= v@.take(i as int).to_set().insert(x));
            assert(before.to_set().contains(x));
            assert(before.to_set().insert(x) =~= before.to_set());
        }
    }
    assert(v@.take(v@.len() as int) =~= v@);
    r
}

/// Linear membership test.
fn u32_vec_contains(v: &Vec<u32>, x: u32) -> (r: bool)
    ensures
        r == v@.contains(x),
{
    for i in 0..v.len()
        invariant
            forall|k: int| 0 <= k < i ==> v@[k] != x,
    {
        if v[i] == x {
            return true;
        }
    }
    false
}

/// `(|A ∩ B|, |A ∪ B|)` for the sets of AS numbers on two paths.
fn as_path_overlap(a: &Vec<u32>, b: &Vec<u32>) -> (r: (u64, u64))
    ensures
        r.0 == a@.to_set().intersect(b@.to_set()).len(),
        r.1 == (a@.to_set() + b@.to_set()).len(),
{
    let da = distinct(a);
    let db = distinct(b);
    let ghost sa = a@.to_set();
    let ghost sb = b@.to_set();
    let mut shared: usize = 0;
    let ghost mut common: Seq<u32> = Seq::empty();
    for i in 0..da.len()
        invariant
            da@.no_duplicates(),
            db@.to_set() == sb,
            common.no_duplicates(),
            common.to_set() == da@.take(i as int).to_set().intersect(sb),
            shared == common.len(),
            common.len() <= i,
    {
        let x = da[i];
        assert(da@.take(i + 1) =~= da@.take(i as int).push(x));
        proof { da@.take(i as int).lemma_push_to_set_commute(x); }
        assert(da@.take(i + 1).to_set() =~= da@.take(i as int).to_set().insert(x));
        if u32_vec_contains(&db, x) {
            proof {
                assert(!da@.take(i as int).contains(x)) by {
                    if da@.take(i as int).contains(x) {
                        let k = choose|k: int| 0 <= k < i && da@.take(i as int)[k] == x;
                        assert(da@[k] == da@[i as int]);
                    }
                }
                assert(!common.to_set().contains(x));
                assert(!common.contains(x));
                let c0 = common;
                c0.lemma_push_to_set_commute(x);
                common = common.push(x);
                assert forall|p: int, q: int| 0 <= p < q < common.len() implies common[p] != common[q] by {
                    if q == common.len() - 1 {
                        assert(c0.contains(c0[p]));
                    }
                }
                assert(common.to_set() =~= c0.to_set().insert(x));
                assert(db@.to_set().contains(x));
                assert(common.to_set() =~= da@.take(i + 1).to_set().intersect(sb));
            }
            shared = shared + 1;
        } else {
            proof {
                assert(!sb.contains(x));
                assert(common.to_set() =~= da@.take(i + 1).to_set().intersect(sb));
            }
        }
    }
    proof {
        assert(da@.take(da@.len() as int) =~= da@);
        common.unique_seq_to_set();
        da@.unique_seq_to_set();
        db@.unique_seq_to_set();
        vstd::set_lib::lemma_set_intersect_union_lens(sa, sb);
        lemma_u32_set_bound(sa + sb);
        assert(sa.intersect(sb).len() <= sb.len()) by {
            vstd::set_lib::lemma_len_subset(sa.intersect(sb), sb);
        }
    }
    let total: u64 = da.len() as u64 + (db.len() - shared) as u64;
    (shared as u64, total)
}

/// A finite set of `u32` values has at most `2^32` elements.
proof fn lemma_u32_set_bound(s: Set<u32>)
    requires
        s.finite(),
    ensures
        s.len() <= 0x1_0000_0000,
{
    lemma_u32_range_len(0x1_0000_0000);
    vstd::set_lib::lemma_len_subset(s, Set::new(|x: u32| x < 0x1_0000_0000nat));
}

/// `{0, …, n-1}` as a set of `u32` has `n` elements.
proof fn lemma_u32_range_len(n: nat)
    requires
        n <= 0x1_0000_0000,
    ensures
        Set::new(|x: u32| x < n).finite(),
        Set::new(|x: u32| x < n).len() == n,
    decreases n,
{
    if n == 0 {
        assert(Set::new(|x: u32| x < n) =~= Set::<u32>::empty());
    } else {
        lemma_u32_range_len((n - 1) as nat);
        assert(Set::new(|x: u32| x < n) =~= Set::new(|x: u32| x < (n - 1) as nat).insert((n - 1) as u32));
    }
}

/// A virtual edge injected at tick `injected_at` is still alive at tick
/// `current_tick`: fewer than ten ticks have passed (none if the clock
/// reads earlier).
pub fn virtual_edge_alive(current_tick: u64, injected_at: u64) -> (r: bool)
    ensures
        r == (current_tick <= injected_at || current_tick - injected_at < 10),
{
    current_tick <= injected_at || current_tick - injected_at < 10
}

/// Positions, in order, of the virtual edges injected at the ticks
/// `injected` that are still alive at `current_tick`.
pub open spec fn alive_positions(injected: Seq<u64>, current_tick: u64) -> Seq<usize>
    decreases injected.len(),
{
    if injected.len() == 0 {
        Seq::empty()
    } else {
        let rest = alive_positions(injected.drop_last(), current_tick);
        let t = injected.last();
        if current_tick <= t || current_tick - t < 10 {
            rest.push((injected.len() - 1) as usize)
        } else {
            rest
        }
    }
}

/// Decay of the virtual edges: the positions of those injected at the
/// ticks `injected` that survive at `current_tick`, in their order.
pub fn surviving_virtual_edges(injected: &Vec<u64>, current_tick: u64) -> (r: Vec<usize>)
    ensures
        r@ == alive_positions(injected@, current_tick),
{
    let mut out: Vec<usize> = Vec::new();
    for i in 0..injected.len()
        invariant
            out@ == alive_positions(injected@.take(i as int), current_tick),
    {
        assert(injected@.take(i + 1).drop_last() =~= injected@.take(i as int));
        assert(injected@.take(i + 1).last() == injected@[i as int]);
        if virtual_edge_alive(current_tick, injected[i]) {
            out.push(i);
        }
    }
    assert(injected@.take(injected@.len() as int) =~= injected@);
    out
}

/// Length of the sliding window of recorded values.
pub const HISTORY_WINDOW: usize = 128;

/// Append `x` to a sliding window, dropping the oldest entry once the
/// window would exceed [`HISTORY_WINDOW`] entries.
pub fn push_bounded<T>(history: &mut Vec<T>, x: T)
    ensures
        old(history)@.len() + 1 > HISTORY_WINDOW ==> final(history)@ == old(history)@.push(x).drop_first(),
        old(history)@.len() + 1 <= HISTORY_WINDOW ==> final(history)@ == old(history)@.push(x),
{
    history.push(x);
    if history.len() > HISTORY_WINDOW {
        history.remove(0);
        assert(history@ =~= old(history)@.push(x).drop_first());
    }
}

/// Law: a window that holds at most [`HISTORY_WINDOW`] entries still does
/// after a push, and its newest entry is the one pushed.
pub proof fn lemma_history_window_bounded<T>(before: Seq<T>, x: T, after: Seq<T>)
    requires
        before.len() <= HISTORY_WINDOW,
        before.len() + 1 > HISTORY_WINDOW ==> after == before.push(x).drop_first(),
        before.len() + 1 <= HISTORY_WINDOW ==> after == before.push(x),
    ensures
        after.len() <= HISTORY_WINDOW,
        after.len() > 0 && after.last() == x,
{
}

/// The window after pushing each of `xs` in turn onto `h` with
/// [`push_bounded`].
pub open spec fn window_after<T>(h: Seq<T>, xs: Seq<T>) -> Seq<T>
    decreases xs.len(),
{
    if xs.len() == 0 {
        h
    } else {
        let w = window_after(h, xs.drop_last());
        if w.len() + 1 > HISTORY_WINDOW {
            w.push(xs.last()).drop_first()
        } else {
            w.push(xs.last())
        }
    }
}

/// Law: over any run of pushes onto a window of at most
/// [`HISTORY_WINDOW`] entries, the window holds exactly the last
/// [`HISTORY_WINDOW`] values of everything seen, oldest first; from an
/// empty window after `k` pushes it holds the last `min(k, 128)` values.
pub proof fn lemma_history_window_run<T>(h: Seq<T>, xs: Seq<T>)
    requires
        h.len() <= HISTORY_WINDOW,
    ensures
        window_after(h, xs) == (h + xs).subrange(
            if h.len() + xs.len() > HISTORY_WINDOW { h.len() + xs.len() - HISTORY_WINDOW } else { 0int },
            (h.len() + xs.len()) as int,
        ),
    decreases xs.len(),
{
    if xs.len() > 0 {
        let init = xs.drop_last();
        lemma_history_window_run(h, init);
        let m: int = (h.len() + init.len()) as int;
        let a: int = if m > HISTORY_WINDOW { m - HISTORY_WINDOW } else { 0 };
        let w = window_after(h, init);
        let all = h + xs;
        assert((h + init) =~= all.take(m));
        assert(all[m] == xs.last());
        if w.len() + 1 > HISTORY_WINDOW {
            assert(w.push(xs.last()).drop_first() =~= all.subrange(a + 1, m + 1));
        } else {
            assert(w.push(xs.last()) =~= all.subrange(0, m + 1));
        }
    }
}

/// The regulariser's physical edges from interned edge indices: each
/// endpoint truncated to `u32`, self-loops dropped.
pub open spec fn regularizer_edges_of(raw: Seq<(usize, usize)>) -> Seq<(u32, u32)>
    decreases raw.len(),
{
    if raw.len() == 0 {
        Seq::empty()
    } else {
        let rest = regularizer_edges_of(raw.drop_last());
        let e = raw.last();
        if (e.0 as u32) != (e.1 as u32) {
            rest.push((e.0 as u32, e.1 as u32))
        } else {
            rest
        }
    }
}

/// An interned edge whose endpoints stay distinct as `u32` node ids.
pub open spec fn not_self_loop() -> spec_fn((usize, usize)) -> bool {
    |e: (usize, usize)| (e.0 as u32) != (e.1 as u32)
}

/// An interned edge as a pair of `u32` node ids.
pub open spec fn as_node_pair() -> spec_fn((usize, usize)) -> (u32, u32) {
    |e: (usize, usize)| (e.0 as u32, e.1 as u32)
}

/// Law: every observed edge whose endpoints differ becomes one unit
/// physical edge, in input order and with repeats kept, and self-loops
/// are dropped; so there are exactly as many physical edges as
/// non-self-loop input edges.
pub proof fn lemma_physical_edges_meaning(raw: Seq<(usize, usize)>)
    ensures
        regularizer_edges_of(raw) == raw.filter(not_self_loop()).map_values(as_node_pair()),
        regularizer_edges_of(raw).len() == raw.filter(not_self_loop()).len(),
    decreases raw.len(),
{
    reveal(Seq::filter);
    if raw.len() > 0 {
        lemma_physical_edges_meaning(raw.drop_last());
        let f = raw.filter(not_self_loop());
        let g = raw.drop_last().filter(not_self_loop());
        if not_self_loop()(raw.last()) {
            assert(f == g.push(raw.last()));
            assert(f.map_values(as_node_pair()) =~= g.map_values(as_node_pair()).push(as_node_pair()(raw.last())));
        } else {
            assert(f == g);
        }
    } else {
        assert(raw.filter(not_self_loop()).map_values(as_node_pair()) =~= Seq::<(u32, u32)>::empty());
    }
}

/// Physical edge list handed to the regulariser for interned edges.
pub fn regularizer_physical_edges(raw: &Vec<(usize, usize)>) -> (r: Vec<(u32, u32)>)
    ensures
        r@ == regularizer_edges_of(raw@),
        r@ == raw@.filter(not_self_loop()).map_values(as_node_pair()),
        r@.len() == raw@.filter(not_self_loop()).len(),
{
    proof {
        lemma_physical_edges_meaning(raw@);
    }
    let mut out: Vec<(u32, u32)> = Vec::new();
    for i in 0..raw.len()
        invariant
            out@ == regularizer_edges_of(raw@.take(i as int)),
    {
        let (a, b) = raw[i];
        assert(raw@.take(i + 1).drop_last() =~= raw@.take(i as int));
        let u = #[verifier::truncate] (a as u32);
        let v = #[verifier::truncate] (b as u32);
        if u != v {
            out.push((u, v));
        }
    }
    assert(raw@.take(raw@.len() as int) =~= raw@);
    out
}

/// The edges touching `u` and, for each, the node across it.
pub open spec fn incident_of(edges: Seq<(u32, u32)>, u: usize) -> Seq<(usize, usize)>
    decreases edges.len(),
{
    if edges.len() == 0 {
        Seq::empty()
    } else {
        let rest = incident_of(edges.drop_last(), u);
        let (s, d) = (edges.last().0 as usize, edges.last().1 as usize);
        if s == u || d == u {
            rest.push(((edges.len() - 1) as usize, if s == u { d } else { s }))
        } else {
            rest
        }
    }
}

/// For every edge touching node `u`, in order: its position in `edges`
/// and the neighbour across it.
pub fn incident_neighbours(edges: &Vec<(u32, u32)>, u: usize) -> (r: Vec<(usize, usize)>)
    ensures
        r@ == incident_of(edges@, u),
{
    let mut out: Vec<(usize, usize)> = Vec::new();
    for i in 0..edges.len()
        invariant
            out@ == incident_of(edges@.take(i as int), u),
    {
        let (src, dst) = edges[i];
        assert(edges@.take(i + 1).drop_last() =~= edges@.take(i as int));
        assert(edges@.take(i + 1).len() - 1 == i);
        let s = src as usize;
        let d = dst as usize;
        if s == u || d == u {
            let nbr = if s == u { d } else { s };
            out.push((i, nbr));
        }
    }
    assert(edges@.take(edges@.len() as int) =~= edges@);
    out
}

/// Law: similarity does not depend on the order of the two nodes.
pub proof fn lemma_similarity_symmetric(mu: Option<NodeMeta>, mv: Option<NodeMeta>)
    ensures
        similarity_of(mu, mv) == similarity_of(mv, mu),
        similarity_defined(mu, mv) == similarity_defined(mv, mu),
{
    if let (Some(a), Some(b)) = (mu, mv) {
        assert(a.as_path@.to_set() + b.as_path@.to_set() =~= b.as_path@.to_set() + a.as_path@.to_set());
        assert(a.as_path@.to_set().intersect(b.as_path@.to_set()) =~= b.as_path@.to_set().intersect(a.as_path@.to_set()));
    }
}

/// Law: the similarity score lies in `[0, 1]`: a shared prefix is at most
/// 32 bits long and the AS-path overlap never exceeds the union.
pub proof fn lemma_similarity_in_unit_range(mu: Option<NodeMeta>, mv: Option<NodeMeta>)
    requires
        similarity_defined(mu, mv),
    ensures
        similarity_of(mu, mv) matches SimilarityBasis::SharedSubnet { prefix_len } ==> prefix_len <= 32,
        similarity_of(mu, mv) matches SimilarityBasis::AsPathOverlap { shared, total } ==> 0 < total && shared <= total,
{
    if let (Some(a), Some(b)) = (mu, mv) {
        let sa = a.as_path@.to_set();
        let sb = b.as_path@.to_set();
        vstd::seq_lib::seq_to_set_is_finite(a.as_path@);
        vstd::seq_lib::seq_to_set_is_finite(b.as_path@);
        vstd::set_lib::lemma_len_subset(sa.intersect(sb), sa + sb);
        lemma_u32_set_bound(sa + sb);
    }
}

} // verus!
