use vstd::prelude::*;

use crate::topology::{with_name, EntityIndex};

verus! {

broadcast use vstd::string::group_string_axioms;

/// Abstract state of a breadth-first blast-radius search over flows that
/// are looked up one source at a time.
pub struct BlastView {
    /// Every entity reached so far, the seed first.
    pub visited: Seq<Seq<char>>,
    /// The entities of the current level.
    pub frontier: Seq<Seq<char>>,
    /// The entities first reached from the current level.
    pub discovered: Seq<Seq<char>>,
    /// How many entities of the current level have been looked up.
    pub pos: nat,
    /// The current level, the seed's being `0`.
    pub depth: nat,
    pub max_depth: nat,
}

/// Fold the looked-up destinations into the visited list; new ones are
/// also discovered for the next level.
pub open spec fn absorb_names(visited: Seq<Seq<char>>, discovered: Seq<Seq<char>>, dsts: Seq<Seq<char>>) -> (Seq<Seq<char>>, Seq<Seq<char>>)
    decreases dsts.len(),
{
    if dsts.len() == 0 {
        (visited, discovered)
    } else {
        let (v, d) = absorb_names(visited, discovered, dsts.drop_last());
        let x = dsts.last();
        if v.contains(x) {
            (v, d)
        } else {
            (v.push(x), d.push(x))
        }
    }
}

/// Once every entity of a non-empty level has been looked up below the
/// depth limit, the search moves on to the entities that level discovered.
pub open spec fn advance_level(s: BlastView) -> BlastView {
    if s.depth < s.max_depth && s.pos == s.frontier.len() && s.frontier.len() > 0 {
        BlastView { frontier: s.discovered, discovered: Seq::empty(), pos: 0, depth: s.depth + 1, ..s }
    } else {
        s
    }
}

/// The entity to look up next, if the search is not finished.
pub open spec fn query_of(s: BlastView) -> Option<Seq<char>> {
    if s.depth < s.max_depth && s.pos < s.frontier.len() {
        Some(s.frontier[s.pos as int])
    } else {
        None
    }
}

/// The state after the destinations `dsts` of the pending entity are
/// looked up: they are folded into the visited list and the lookup
/// position moves on.
pub open spec fn absorb_step(s: BlastView, dsts: Seq<Seq<char>>) -> BlastView {
    BlastView {
        visited: absorb_names(s.visited, s.discovered, dsts).0,
        discovered: absorb_names(s.visited, s.discovered, dsts).1,
        pos: s.pos + 1,
        ..s
    }
}

/// The view of a list of strings.
pub open spec fn strings_view(v: Seq<String>) -> Seq<Seq<char>> {
    v.map_values(|s: String| s@)
}

/// Breadth-first search of the entities reachable from a seed within
/// `max_depth` levels, driven by destination lookups made by the caller.
pub struct BlastRadiusSearch {
    visited: EntityIndex,
    frontier: Vec<String>,
    discovered: Vec<String>,
    pos: usize,
    depth: usize,
    max_depth: usize,
}

impl View for BlastRadiusSearch {
    type V = BlastView;

    closed spec fn view(&self) -> BlastView {
        BlastView {
            visited: self.visited@,
            frontier: strings_view(self.frontier@),
            discovered: strings_view(self.discovered@),
            pos: self.pos as nat,
            depth: self.depth as nat,
            max_depth: self.max_depth as nat,
        }
    }
}

impl BlastRadiusSearch {
    /// No entity is visited twice and the lookup position stays in the level.
    pub closed spec fn wf(&self) -> bool {
        &&& self.visited.wf()
        &&& self.pos <= self.frontier@.len()
        &&& self.depth <= self.max_depth
    }

    /// Start a search from `seed` that looks `max_depth` levels deep.
    pub fn new(seed: &str, max_depth: usize) -> (r: BlastRadiusSearch)
        ensures
            r.wf(),
            r@ == (BlastView { visited: seq![seed@], frontier: seq![seed@], discovered: Seq::empty(), pos: 0, depth: 0, max_depth: max_depth as nat }),
    {
        let mut visited = EntityIndex::new();
        visited.intern(seed);
        let mut frontier: Vec<String> = Vec::new();
        frontier.push(String::from_str(seed));
        let r = BlastRadiusSearch { visited, frontier, discovered: Vec::new(), pos: 0, depth: 0, max_depth };
        assert(r@.visited =~= seq![seed@]);
        assert(r@.frontier =~= seq![seed@]);
        assert(r@.discovered =~= Seq::<Seq<char>>::empty());
        r
    }

    /// Move to the next level if the current one is done, then name the
    /// entity whose outgoing flows are to be looked up, or `None` when the
    /// search is finished.
    pub fn pending_query(&mut self) -> (r: Option<String>)
        requires
            old(self).wf(),
        ensures
            final(self).wf(),
            final(self)@ == advance_level(old(self)@),
            r matches Some(q) ==> query_of(final(self)@) == Some(q@),
            r is None ==> query_of(final(self)@) is None,
    {
        if self.depth < self.max_depth && self.pos == self.frontier.len() && self.frontier.len() > 0 {
            let mut fresh: Vec<String> = Vec::new();
            std::mem::swap(&mut fresh, &mut self.discovered);
            self.frontier = fresh;
            self.pos = 0;
            self.depth = self.depth + 1;
            assert(self@.discovered =~= Seq::<Seq<char>>::empty());
        }
        if self.depth < self.max_depth && self.pos < self.frontier.len() {
            Some(self.frontier[self.pos].clone())
        } else {
            None
        }
    }

    /// Record the destinations of the flows out of the pending entity.
    pub fn absorb(&mut self, dsts: &Vec<String>)
        requires
            old(self).wf(),
            query_of(old(self)@) is Some,
        ensures
            final(self).wf(),
            final(self)@ == absorb_step(old(self)@, strings_view(dsts@)),
    {
        let ghost v0 = self@.visited;
        let ghost d0 = self@.discovered;
        let ghost dv = strings_view(dsts@);
        for i in 0..dsts.len()
            invariant
                self.wf(),
                dv == strings_view(dsts@),
                self.pos < self.frontier@.len(),
                self.depth < self.max_depth,
                (self@.visited, self@.discovered) == absorb_names(v0, d0, dv.take(i as int)),
                self@.pos == old(self)@.pos,
                self@.frontier == old(self)@.frontier,
                self@.depth == old(self)@.depth,
                self@.max_depth == old(self)@.max_depth,
        {
            assert(dv.take(i + 1).drop_last() =~= dv.take(i as int));
            assert(dv.take(i + 1).last() == dsts@[i as int]@);
            let ghost before = self@.discovered;
            let name = dsts[i].as_str();
            match self.visited.lookup(name) {
                Some(_) => {},
                None => {
                    self.visited.intern(name);
                    self.discovered.push(dsts[i].clone());
                    assert(self@.discovered =~= before.push(dsts@[i as int]@));
                },
            }
        }
        assert(dv.take(dsts@.len() as int) =~= dv);
        let flen = self.frontier.len();
        assert(self.pos < flen);
        self.pos = self.pos + 1;
    }

    /// Every entity reached, the seed first.
    pub fn visited(&self) -> (r: Vec<String>)
        ensures
            strings_view(r@) == self@.visited,
    {
        let mut out: Vec<String> = Vec::new();
        let n = self.visited.len();
        for i in 0..n
            invariant
                strings_view(out@) == self@.visited.take(i as int),
                n == self@.visited.len(),
        {
            let ghost before = out@;
            let name = self.visited.name_at(i).clone();
            assert(name@ == self@.visited[i as int]);
            out.push(name);
            assert(strings_view(out@) =~= strings_view(before).push(name@));
            assert(self@.visited.take(i + 1) =~= self@.visited.take(i as int).push(self@.visited[i as int]));
        }
        assert(self@.visited.take(self@.visited.len() as int) =~= self@.visited);
        out
    }
}

/// Law: absorbing lookups only appends to the visited list, so the seed
/// stays first, nothing is visited twice and everything looked up is
/// visited afterwards.
pub proof fn lemma_absorb_extends_visited(visited: Seq<Seq<char>>, discovered: Seq<Seq<char>>, dsts: Seq<Seq<char>>)
    requires
        visited.no_duplicates(),
    ensures
        absorb_names(visited, discovered, dsts).0.no_duplicates(),
        absorb_names(visited, discovered, dsts).0.len() >= visited.len(),
        forall|i: int| 0 <= i < visited.len() ==> #[trigger] absorb_names(visited, discovered, dsts).0[i] == visited[i],
        forall|i: int| 0 <= i < dsts.len() ==> absorb_names(visited, discovered, dsts).0.contains(#[trigger] dsts[i]),
    decreases dsts.len(),
{
    if dsts.len() > 0 {
        let init = dsts.drop_last();
        lemma_absorb_extends_visited(visited, discovered, init);
        let (v, d) = absorb_names(visited, discovered, init);
        let x = dsts.last();
        let r = absorb_names(visited, discovered, dsts).0;
        assert forall|i: int| 0 <= i < dsts.len() implies r.contains(#[trigger] dsts[i]) by {
            if i < init.len() {
                assert(init[i] == dsts[i]);
                assert(v.contains(init[i]));
                let k = choose|k: int| 0 <= k < v.len() && v[k] == init[i];
                assert(r[k] == v[k]);
            } else if !v.contains(x) {
                assert(r[r.len() - 1] == x);
            }
        }
    }
}

/// `x` is among the destinations looked up for `w`.
pub open spec fn leads_to(next: spec_fn(Seq<char>) -> Seq<Seq<char>>, w: Seq<char>, x: Seq<char>) -> bool {
    next(w).contains(x)
}

/// `x` is reachable from `seed` by at most `d` lookups.
pub open spec fn reached_within(next: spec_fn(Seq<char>) -> Seq<Seq<char>>, seed: Seq<char>, x: Seq<char>, d: nat) -> bool
    decreases d,
{
    if d == 0 {
        x == seed
    } else {
        reached_within(next, seed, x, (d - 1) as nat) || exists|w: Seq<char>|
            #[trigger] leads_to(next, w, x) && reached_within(next, seed, w, (d - 1) as nat)
    }
}

/// `x` is reachable from `seed` by `d` lookups and no fewer.
pub open spec fn at_distance(next: spec_fn(Seq<char>) -> Seq<Seq<char>>, seed: Seq<char>, x: Seq<char>, d: nat) -> bool {
    reached_within(next, seed, x, d) && (d > 0 ==> !reached_within(next, seed, x, (d - 1) as nat))
}

/// `x` was returned by one of the first `pos` lookups of a level.
pub open spec fn looked_up(next: spec_fn(Seq<char>) -> Seq<Seq<char>>, frontier: Seq<Seq<char>>, pos: nat, x: Seq<char>) -> bool {
    exists|i: int| 0 <= i < pos && #[trigger] leads_to(next, frontier[i], x)
}

/// The state of a new search from `seed`.
pub open spec fn initial_view(seed: Seq<char>, max_depth: nat) -> BlastView {
    BlastView { visited: seq![seed], frontier: seq![seed], discovered: Seq::empty(), pos: 0, depth: 0, max_depth }
}

/// One round of the caller's loop: take the pending query, if any, and
/// absorb the destinations that `next` gives for it.
pub open spec fn search_step(s: BlastView, next: spec_fn(Seq<char>) -> Seq<Seq<char>>) -> BlastView {
    match query_of(advance_level(s)) {
        Some(q) => absorb_step(advance_level(s), next(q)),
        None => advance_level(s),
    }
}

/// `k` rounds of the caller's loop.
pub open spec fn search_run(s: BlastView, next: spec_fn(Seq<char>) -> Seq<Seq<char>>, k: nat) -> BlastView
    decreases k,
{
    if k == 0 {
        s
    } else {
        search_step(search_run(s, next, (k - 1) as nat), next)
    }
}

/// No query is pending: the search is over.
pub open spec fn finished(s: BlastView) -> bool {
    query_of(advance_level(s)) is None
}

spec fn bfs_inv(s: BlastView, seed: Seq<char>, next: spec_fn(Seq<char>) -> Seq<Seq<char>>) -> bool {
    &&& s.depth <= s.max_depth
    &&& s.pos <= s.frontier.len()
    &&& s.depth == s.max_depth ==> s.pos == 0
    &&& s.visited.no_duplicates()
    &&& s.visited.len() > 0 && s.visited[0] == seed
    &&& forall|x: Seq<char>| #[trigger] s.visited.contains(x) <==>
        (reached_within(next, seed, x, s.depth) || looked_up(next, s.frontier, s.pos, x))
    &&& forall|x: Seq<char>| #[trigger] s.frontier.contains(x) <==> at_distance(next, seed, x, s.depth)
    &&& forall|x: Seq<char>| #[trigger] s.discovered.contains(x) <==>
        (!reached_within(next, seed, x, s.depth) && looked_up(next, s.frontier, s.pos, x))
}

proof fn lemma_absorb_names_members(visited: Seq<Seq<char>>, discovered: Seq<Seq<char>>, dsts: Seq<Seq<char>>)
    ensures
        forall|x: Seq<char>| #[trigger] absorb_names(visited, discovered, dsts).0.contains(x) <==>
            (visited.contains(x) || dsts.contains(x)),
        forall|x: Seq<char>| #[trigger] absorb_names(visited, discovered, dsts).1.contains(x) <==>
            (discovered.contains(x) || (dsts.contains(x) && !visited.contains(x))),
    decreases dsts.len(),
{
    if dsts.len() > 0 {
        let init = dsts.drop_last();
        lemma_absorb_names_members(visited, discovered, init);
        let (v, d) = absorb_names(visited, discovered, init);
        let y = dsts.last();
        let (v2, d2) = absorb_names(visited, discovered, dsts);
        assert forall|x: Seq<char>| dsts.contains(x) <==> (init.contains(x) || x == y) by {
            if dsts.contains(x) {
                let k = choose|k: int| 0 <= k < dsts.len() && dsts[k] == x;
                if k < init.len() {
                    assert(init[k] == x);
                }
            }
            if init.contains(x) {
                let k = choose|k: int| 0 <= k < init.len() && init[k] == x;
                assert(dsts[k] == x);
            }
            if x == y {
                assert(dsts[dsts.len() - 1] == x);
            }
        }
        assert forall|x: Seq<char>| #[trigger] v2.contains(x) <==> (visited.contains(x) || dsts.contains(x)) by {
            if !v.contains(y) {
                assert(v2 == v.push(y));
                if v2.contains(x) {
                    let k = choose|k: int| 0 <= k < v2.len() && v2[k] == x;
                    if k < v.len() {
                        assert(v[k] == x);
                    }
                }
                if v.contains(x) {
                    let k = choose|k: int| 0 <= k < v.len() && v[k] == x;
                    assert(v2[k] == x);
                }
                if x == y {
                    assert(v2[v.len() as int] == y);
                }
            }
        }
        assert forall|x: Seq<char>| #[trigger] d2.contains(x) <==>
            (discovered.contains(x) || (dsts.contains(x) && !visited.contains(x))) by {
            if !v.contains(y) {
                assert(d2 == d.push(y));
                if d2.contains(x) {
                    let k = choose|k: int| 0 <= k < d2.len() && d2[k] == x;
                    if k < d.len() {
                        assert(d[k] == x);
                    }
                }
                if d.contains(x) {
                    let k = choose|k: int| 0 <= k < d.len() && d[k] == x;
                    assert(d2[k] == x);
                }
                if x == y {
                    assert(d2[d.len() as int] == y);
                }
            }
        }
    }
}

/// One more lookup round reaches exactly what the last level leads to.
proof fn lemma_reach_step(next: spec_fn(Seq<char>) -> Seq<Seq<char>>, seed: Seq<char>, x: Seq<char>, d: nat)
    ensures
        reached_within(next, seed, x, d + 1) <==> (reached_within(next, seed, x, d) || exists|w: Seq<char>|
            #[trigger] leads_to(next, w, x) && at_distance(next, seed, w, d)),
{
    if reached_within(next, seed, x, d + 1) && !reached_within(next, seed, x, d) {
        let w = choose|w: Seq<char>| #[trigger] leads_to(next, w, x) && reached_within(next, seed, w, d);
        if !at_distance(next, seed, w, d) {
            assert(d > 0 && reached_within(next, seed, w, (d - 1) as nat));
            assert(reached_within(next, seed, x, d));
        }
    }
}

/// Once a level is empty, looking further reaches nothing new.
proof fn lemma_empty_level_stops(next: spec_fn(Seq<char>) -> Seq<Seq<char>>, seed: Seq<char>, d: nat, e: nat)
    requires
        d <= e,
        forall|x: Seq<char>| !#[trigger] at_distance(next, seed, x, d),
    ensures
        forall|x: Seq<char>| #[trigger] reached_within(next, seed, x, e) <==> reached_within(next, seed, x, d),
        forall|x: Seq<char>| !#[trigger] at_distance(next, seed, x, e),
    decreases e - d,
{
    if e > d {
        let p = (e - 1) as nat;
        lemma_empty_level_stops(next, seed, d, p);
        assert forall|x: Seq<char>| #[trigger] reached_within(next, seed, x, e) <==> reached_within(next, seed, x, d) by {
            lemma_reach_step(next, seed, x, p);
            if exists|w: Seq<char>| #[trigger] leads_to(next, w, x) && at_distance(next, seed, w, p) {
                let w = choose|w: Seq<char>| #[trigger] leads_to(next, w, x) && at_distance(next, seed, w, p);
                assert(!at_distance(next, seed, w, p));
            }
            assert(reached_within(next, seed, x, p) <==> reached_within(next, seed, x, d));
        }
        assert forall|x: Seq<char>| !#[trigger] at_distance(next, seed, x, e) by {
            assert(reached_within(next, seed, x, e) <==> reached_within(next, seed, x, d));
            assert(reached_within(next, seed, x, p) <==> reached_within(next, seed, x, d));
        }
    }
}

proof fn lemma_inv_initial(seed: Seq<char>, max_depth: nat, next: spec_fn(Seq<char>) -> Seq<Seq<char>>)
    ensures
        bfs_inv(initial_view(seed, max_depth), seed, next),
{
    let s = initial_view(seed, max_depth);
    assert forall|x: Seq<char>| #[trigger] s.visited.contains(x) <==>
        (reached_within(next, seed, x, s.depth) || looked_up(next, s.frontier, s.pos, x)) by {
        if x == seed {
            assert(s.visited[0] == x);
        }
    }
    assert forall|x: Seq<char>| #[trigger] s.frontier.contains(x) <==> at_distance(next, seed, x, s.depth) by {
        if x == seed {
            assert(s.frontier[0] == x);
        }
    }
}

proof fn lemma_inv_advance(s: BlastView, seed: Seq<char>, next: spec_fn(Seq<char>) -> Seq<Seq<char>>)
    requires
        bfs_inv(s, seed, next),
    ensures
        bfs_inv(advance_level(s), seed, next),
{
    if s.depth < s.max_depth && s.pos == s.frontier.len() && s.frontier.len() > 0 {
        let a = advance_level(s);
        let d = s.depth;
        assert forall|x: Seq<char>| looked_up(next, s.frontier, s.pos, x) <==>
            (exists|w: Seq<char>| #[trigger] leads_to(next, w, x) && at_distance(next, seed, w, d)) by {
            if looked_up(next, s.frontier, s.pos, x) {
                let i = choose|i: int| 0 <= i < s.pos && #[trigger] leads_to(next, s.frontier[i], x);
                assert(s.frontier.contains(s.frontier[i]));
            }
            if exists|w: Seq<char>| #[trigger] leads_to(next, w, x) && at_distance(next, seed, w, d) {
                let w = choose|w: Seq<char>| #[trigger] leads_to(next, w, x) && at_distance(next, seed, w, d);
                assert(s.frontier.contains(w));
                let i = choose|i: int| 0 <= i < s.frontier.len() && s.frontier[i] == w;
                assert(leads_to(next, s.frontier[i], x));
            }
        }
        assert forall|x: Seq<char>| #[trigger] a.visited.contains(x) <==>
            (reached_within(next, seed, x, a.depth) || looked_up(next, a.frontier, a.pos, x)) by {
            lemma_reach_step(next, seed, x, d);
            assert(s.visited.contains(x) <==>
                (reached_within(next, seed, x, d) || looked_up(next, s.frontier, s.pos, x)));
        }
        assert forall|x: Seq<char>| #[trigger] a.frontier.contains(x) <==> at_distance(next, seed, x, a.depth) by {
            lemma_reach_step(next, seed, x, d);
            assert(s.discovered.contains(x) <==>
                (!reached_within(next, seed, x, d) && looked_up(next, s.frontier, s.pos, x)));
        }
    }
}

proof fn lemma_inv_absorb(a: BlastView, seed: Seq<char>, next: spec_fn(Seq<char>) -> Seq<Seq<char>>, q: Seq<char>)
    requires
        bfs_inv(a, seed, next),
        query_of(a) == Some(q),
    ensures
        bfs_inv(absorb_step(a, next(q)), seed, next),
{
    let dsts = next(q);
    let b = absorb_step(a, dsts);
    let d = a.depth;
    lemma_absorb_names_members(a.visited, a.discovered, dsts);
    lemma_absorb_extends_visited(a.visited, a.discovered, dsts);
    assert(b.visited[0] == a.visited[0]);
    assert(a.frontier[a.pos as int] == q);
    assert forall|x: Seq<char>| looked_up(next, a.frontier, b.pos, x) <==>
        (looked_up(next, a.frontier, a.pos, x) || dsts.contains(x)) by {
        if looked_up(next, a.frontier, b.pos, x) {
            let i = choose|i: int| 0 <= i < b.pos && #[trigger] leads_to(next, a.frontier[i], x);
            if i == a.pos {
                assert(dsts.contains(x));
            }
        }
        if dsts.contains(x) {
            assert(leads_to(next, a.frontier[a.pos as int], x));
        }
        if looked_up(next, a.frontier, a.pos, x) {
            let i = choose|i: int| 0 <= i < a.pos && #[trigger] leads_to(next, a.frontier[i], x);
            assert(leads_to(next, a.frontier[i], x));
        }
    }
    assert forall|x: Seq<char>| #[trigger] b.visited.contains(x) <==>
        (reached_within(next, seed, x, b.depth) || looked_up(next, b.frontier, b.pos, x)) by {
        assert(a.visited.contains(x) <==>
            (reached_within(next, seed, x, d) || looked_up(next, a.frontier, a.pos, x)));
    }
    assert forall|x: Seq<char>| #[trigger] b.discovered.contains(x) <==>
        (!reached_within(next, seed, x, b.depth) && looked_up(next, b.frontier, b.pos, x)) by {
        assert(a.visited.contains(x) <==>
            (reached_within(next, seed, x, d) || looked_up(next, a.frontier, a.pos, x)));
        assert(a.discovered.contains(x) <==>
            (!reached_within(next, seed, x, d) && looked_up(next, a.frontier, a.pos, x)));
    }
    assert forall|x: Seq<char>| #[trigger] b.frontier.contains(x) <==> at_distance(next, seed, x, b.depth) by {
        assert(a.frontier.contains(x) <==> at_distance(next, seed, x, d));
    }
}

proof fn lemma_inv_run(seed: Seq<char>, max_depth: nat, next: spec_fn(Seq<char>) -> Seq<Seq<char>>, k: nat)
    ensures
        bfs_inv(search_run(initial_view(seed, max_depth), next, k), seed, next),
    decreases k,
{
    if k == 0 {
        lemma_inv_initial(seed, max_depth, next);
    } else {
        let s = search_run(initial_view(seed, max_depth), next, (k - 1) as nat);
        lemma_inv_run(seed, max_depth, next, (k - 1) as nat);
        lemma_inv_advance(s, seed, next);
        let a = advance_level(s);
        if let Some(q) = query_of(a) {
            lemma_inv_absorb(a, seed, next, q);
        }
    }
}

/// Law: driven by a lookup `next` that gives each entity's destinations,
/// the search keeps its seed first and never visits an entity twice, and
/// once no query is pending it has visited exactly the entities reachable
/// from the seed within `max_depth` lookups.
pub proof fn lemma_blast_radius(seed: Seq<char>, max_depth: nat, next: spec_fn(Seq<char>) -> Seq<Seq<char>>, k: nat)
    ensures
        search_run(initial_view(seed, max_depth), next, k).visited.no_duplicates(),
        search_run(initial_view(seed, max_depth), next, k).visited.len() > 0,
        search_run(initial_view(seed, max_depth), next, k).visited[0] == seed,
        finished(search_run(initial_view(seed, max_depth), next, k)) ==> forall|x: Seq<char>|
            #[trigger] search_run(initial_view(seed, max_depth), next, k).visited.contains(x)
                <==> reached_within(next, seed, x, max_depth),
{
    let s = search_run(initial_view(seed, max_depth), next, k);
    lemma_inv_run(seed, max_depth, next, k);
    lemma_inv_advance(s, seed, next);
    let a = advance_level(s);
    if finished(s) {
        assert(a.visited == s.visited);
        assert(a.max_depth == max_depth) by {
            lemma_max_depth_kept(seed, max_depth, next, k);
        }
        if a.depth == a.max_depth {
            assert forall|x: Seq<char>| #[trigger] s.visited.contains(x) <==> reached_within(next, seed, x, max_depth) by {
                assert(a.visited.contains(x) <==>
                    (reached_within(next, seed, x, a.depth) || looked_up(next, a.frontier, a.pos, x)));
            }
        } else {
            assert(a.frontier.len() == 0);
            assert forall|x: Seq<char>| !#[trigger] at_distance(next, seed, x, a.depth) by {
                assert(a.frontier.contains(x) <==> at_distance(next, seed, x, a.depth));
            }
            lemma_empty_level_stops(next, seed, a.depth, max_depth);
            assert forall|x: Seq<char>| #[trigger] s.visited.contains(x) <==> reached_within(next, seed, x, max_depth) by {
                assert(a.visited.contains(x) <==>
                    (reached_within(next, seed, x, a.depth) || looked_up(next, a.frontier, a.pos, x)));
                assert(reached_within(next, seed, x, max_depth) <==> reached_within(next, seed, x, a.depth));
            }
        }
    }
}

proof fn lemma_max_depth_kept(seed: Seq<char>, max_depth: nat, next: spec_fn(Seq<char>) -> Seq<Seq<char>>, k: nat)
    ensures
        search_run(initial_view(seed, max_depth), next, k).max_depth == max_depth,
    decreases k,
{
    if k > 0 {
        lemma_max_depth_kept(seed, max_depth, next, (k - 1) as nat);
    }
}

} // verus!
