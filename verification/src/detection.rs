use vstd::prelude::*;

use crate::topology::{intern_run, EntityIndex};

verus! {

broadcast use vstd::string::group_string_axioms;

/// Confusion-matrix counts of detections against ground truth.
#[derive(Debug, Clone, Copy, PartialEq, Eq, Structural)]
pub struct DetectionCounts {
    pub tp: u32,
    pub fp: u32,
    pub tn: u32,
    pub fn_: u32,
}

impl DetectionCounts {
    /// All counts zero.
    pub fn new() -> (r: DetectionCounts)
        ensures
            r == (DetectionCounts { tp: 0, fp: 0, tn: 0, fn_: 0 }),
    {
        DetectionCounts { tp: 0, fp: 0, tn: 0, fn_: 0 }
    }

    /// Count one flow: a detected attack is a true positive, a detected
    /// benign flow a false positive, an undetected benign flow a true
    /// negative and an undetected attack a false negative.  Returns `false`
    /// and changes nothing when that count is already at `u32::MAX`.
    pub fn record(&mut self, is_anomaly: bool, is_attack: bool) -> (ok: bool)
        ensures
            ok == (match (is_anomaly, is_attack) {
                (true, true) => old(self).tp < u32::MAX,
                (true, false) => old(self).fp < u32::MAX,
                (false, false) => old(self).tn < u32::MAX,
                (false, true) => old(self).fn_ < u32::MAX,
            }),
            !ok ==> *final(self) == *old(self),
            ok ==> *final(self) == match (is_anomaly, is_attack) {
                (true, true) => DetectionCounts { tp: (old(self).tp + 1) as u32, ..*old(self) },
                (true, false) => DetectionCounts { fp: (old(self).fp + 1) as u32, ..*old(self) },
                (false, false) => DetectionCounts { tn: (old(self).tn + 1) as u32, ..*old(self) },
                (false, true) => DetectionCounts { fn_: (old(self).fn_ + 1) as u32, ..*old(self) },
            },
    {
        match (is_anomaly, is_attack) {
            (true, true) => {
                if self.tp == u32::MAX {
                    return false;
                }
                self.tp = self.tp + 1;
            },
            (true, false) => {
                if self.fp == u32::MAX {
                    return false;
                }
                self.fp = self.fp + 1;
            },
            (false, false) => {
                if self.tn == u32::MAX {
                    return false;
                }
                self.tn = self.tn + 1;
            },
            (false, true) => {
                if self.fn_ == u32::MAX {
                    return false;
                }
                self.fn_ = self.fn_ + 1;
            },
        }
        true
    }
}

/// A dataset label names an attack unless it is exactly `Benign`.
pub fn is_attack_label(label: &str) -> (r: bool)
    ensures
        r == (label@ != "Benign"@),
{
    let l = String::from_str(label);
    let benign = String::from_str("Benign");
    !(l == benign)
}

/// Number of `(is_anomaly, label)` points whose detection is `anomaly`
/// and whose label names an attack exactly when `attack` holds.
pub open spec fn count_cell(points: Seq<(bool, String)>, anomaly: bool, attack: bool) -> nat
    decreases points.len(),
{
    if points.len() == 0 {
        0
    } else {
        count_cell(points.drop_last(), anomaly, attack) + if points.last().0 == anomaly
            && (points.last().1@ != "Benign"@) == attack { 1nat } else { 0nat }
    }
}

proof fn lemma_count_cell_prefix(points: Seq<(bool, String)>, anomaly: bool, attack: bool, i: int)
    requires
        0 <= i <= points.len(),
    ensures
        count_cell(points.take(i), anomaly, attack) <= count_cell(points, anomaly, attack),
    decreases points.len(),
{
    if i < points.len() {
        assert(points.drop_last().take(i) =~= points.take(i));
        lemma_count_cell_prefix(points.drop_last(), anomaly, attack, i);
    } else {
        assert(points.take(i) =~= points);
    }
}

proof fn lemma_filter_len_step<A>(s: Seq<A>, pred: spec_fn(A) -> bool)
    requires
        s.len() > 0,
    ensures
        s.filter(pred).len() == s.drop_last().filter(pred).len() + (if pred(s.last()) { 1int } else { 0int }),
{
    reveal(Seq::filter);
}

/// Law: the four confusion-matrix cells count, among `(is_anomaly, label)`
/// points, the detected attacks (true positives), the detected points
/// labelled exactly `Benign` (false positives), the undetected `Benign`
/// points (true negatives) and the undetected attacks (false negatives).
pub proof fn lemma_tally_meaning(points: Seq<(bool, String)>)
    ensures
        count_cell(points, true, true) == points.filter(|p: (bool, String)| p.0 && p.1@ != "Benign"@).len(),
        count_cell(points, true, false) == points.filter(|p: (bool, String)| p.0 && p.1@ == "Benign"@).len(),
        count_cell(points, false, false) == points.filter(|p: (bool, String)| !p.0 && p.1@ == "Benign"@).len(),
        count_cell(points, false, true) == points.filter(|p: (bool, String)| !p.0 && p.1@ != "Benign"@).len(),
    decreases points.len(),
{
    if points.len() > 0 {
        lemma_tally_meaning(points.drop_last());
        lemma_filter_len_step(points, |p: (bool, String)| p.0 && p.1@ != "Benign"@);
        lemma_filter_len_step(points, |p: (bool, String)| p.0 && p.1@ == "Benign"@);
        lemma_filter_len_step(points, |p: (bool, String)| !p.0 && p.1@ == "Benign"@);
        lemma_filter_len_step(points, |p: (bool, String)| !p.0 && p.1@ != "Benign"@);
    }
}

/// Confusion-matrix counts over all `(is_anomaly, label)` points: each
/// count is the number of points in its cell.  `None` when a count would
/// exceed `u32::MAX`.
pub fn tally(points: &Vec<(bool, String)>) -> (r: Option<DetectionCounts>)
    ensures
        r is Some <==> (count_cell(points@, true, true) <= u32::MAX && count_cell(points@, true, false) <= u32::MAX
            && count_cell(points@, false, false) <= u32::MAX && count_cell(points@, false, true) <= u32::MAX),
        r matches Some(c) ==> c.tp == count_cell(points@, true, true) && c.fp == count_cell(points@, true, false)
            && c.tn == count_cell(points@, false, false) && c.fn_ == count_cell(points@, false, true),
        r matches Some(c) ==> {
            &&& c.tp == points@.filter(|p: (bool, String)| p.0 && p.1@ != "Benign"@).len()
            &&& c.fp == points@.filter(|p: (bool, String)| p.0 && p.1@ == "Benign"@).len()
            &&& c.tn == points@.filter(|p: (bool, String)| !p.0 && p.1@ == "Benign"@).len()
            &&& c.fn_ == points@.filter(|p: (bool, String)| !p.0 && p.1@ != "Benign"@).len()
        },
{
    proof {
        lemma_tally_meaning(points@);
    }
    let mut counts = DetectionCounts::new();
    for i in 0..points.len()
        invariant
            counts.tp == count_cell(points@.take(i as int), true, true),
            counts.fp == count_cell(points@.take(i as int), true, false),
            counts.tn == count_cell(points@.take(i as int), false, false),
            counts.fn_ == count_cell(points@.take(i as int), false, true),
    {
        let ghost pre = points@.take(i as int);
        let ghost cur = points@.take(i + 1);
        assert(cur.drop_last() =~= pre);
        assert(cur.last() == points@[i as int]);
        let is_anomaly = points[i].0;
        let is_attack = is_attack_label(points[i].1.as_str());
        if !counts.record(is_anomaly, is_attack) {
            proof {
                lemma_count_cell_prefix(points@, is_anomaly, is_attack, i + 1);
            }
            return None;
        }
    }
    assert(points@.take(points@.len() as int) =~= points@);
    Some(counts)
}

/// The labels of `(is_anomaly, label)` points, in order.
pub open spec fn labels_of(points: Seq<(bool, String)>) -> Seq<Seq<char>> {
    points.map_values(|p: (bool, String)| p.1@)
}

/// Number of points labelled `x`.
pub open spec fn count_label(points: Seq<(bool, String)>, x: Seq<char>) -> nat
    decreases points.len(),
{
    if points.len() == 0 {
        0
    } else {
        count_label(points.drop_last(), x) + if points.last().1@ == x { 1nat } else { 0nat }
    }
}

/// Number of points labelled `x` that were detected.
pub open spec fn count_detected(points: Seq<(bool, String)>, x: Seq<char>) -> nat
    decreases points.len(),
{
    if points.len() == 0 {
        0
    } else {
        count_detected(points.drop_last(), x) + if points.last().0 && points.last().1@ == x { 1nat } else { 0nat }
    }
}

proof fn lemma_count_label_prefix(points: Seq<(bool, String)>, x: Seq<char>, i: int)
    requires
        0 <= i <= points.len(),
    ensures
        count_label(points.take(i), x) <= count_label(points, x),
    decreases points.len(),
{
    if i < points.len() {
        assert(points.drop_last().take(i) =~= points.take(i));
        lemma_count_label_prefix(points.drop_last(), x, i);
    } else {
        assert(points.take(i) =~= points);
    }
}

proof fn lemma_count_detected_le(points: Seq<(bool, String)>, x: Seq<char>)
    ensures
        count_detected(points, x) <= count_label(points, x),
    decreases points.len(),
{
    if points.len() > 0 {
        lemma_count_detected_le(points.drop_last(), x);
    }
}

/// The points labelled `x`.
pub open spec fn labelled(x: Seq<char>) -> spec_fn((bool, String)) -> bool {
    |p: (bool, String)| p.1@ == x
}

/// The points labelled `x` whose detected flag is set.
pub open spec fn detected_with_label(x: Seq<char>) -> spec_fn((bool, String)) -> bool {
    |p: (bool, String)| p.0 && p.1@ == x
}

/// The points labelled `x` whose detected flag is clear.
pub open spec fn missed_with_label(x: Seq<char>) -> spec_fn((bool, String)) -> bool {
    |p: (bool, String)| !p.0 && p.1@ == x
}

/// Law: for every label `x`, the total counts the points labelled `x`,
/// the detected count the points labelled `x` whose detected flag is set
/// (whatever the label, `Benign` included), and the difference the points
/// labelled `x` that were not detected.
pub proof fn lemma_breakdown_meaning(points: Seq<(bool, String)>, x: Seq<char>)
    ensures
        count_label(points, x) == points.filter(labelled(x)).len(),
        count_detected(points, x) == points.filter(detected_with_label(x)).len(),
        count_label(points, x) - count_detected(points, x) == points.filter(missed_with_label(x)).len(),
    decreases points.len(),
{
    if points.len() > 0 {
        lemma_breakdown_meaning(points.drop_last(), x);
        lemma_filter_len_step(points, labelled(x));
        lemma_filter_len_step(points, detected_with_label(x));
        lemma_filter_len_step(points, missed_with_label(x));
    }
}

/// Per-label detection breakdown: one `(label, total, detected)` entry per
/// distinct label, in order of first appearance, with the number of points
/// carrying that label and how many of them were detected.  `None` when a
/// label occurs more than `u32::MAX` times.
pub fn class_breakdown(points: &Vec<(bool, String)>) -> (r: Option<Vec<(String, u32, u32)>>)
    ensures
        r is None <==> exists|x: Seq<char>| #[trigger] count_label(points@, x) > u32::MAX,
        r matches Some(v) ==> {
            &&& v@.len() == intern_run(Seq::empty(), labels_of(points@)).len()
            &&& forall|k: int| #![trigger v@[k]] 0 <= k < v@.len() ==> {
                &&& v@[k].0@ == intern_run(Seq::empty(), labels_of(points@))[k]
                &&& v@[k].1 == count_label(points@, v@[k].0@)
                &&& v@[k].2 == count_detected(points@, v@[k].0@)
                &&& v@[k].1 == points@.filter(labelled(v@[k].0@)).len()
                &&& v@[k].2 == points@.filter(detected_with_label(v@[k].0@)).len()
                &&& v@[k].1 - v@[k].2 == points@.filter(missed_with_label(v@[k].0@)).len()
            }
        },
{
    let mut index = EntityIndex::new();
    let mut counts: Vec<(u32, u32)> = Vec::new();
    assert(labels_of(points@.take(0)) =~= Seq::<Seq<char>>::empty());
    let mut i: usize = 0;
    while i < points.len()
        invariant
            0 <= i <= points@.len(),
            index.wf(),
            index@ == intern_run(Seq::empty(), labels_of(points@.take(i as int))),
            counts@.len() == index@.len(),
            forall|k: int| #![trigger counts@[k]] 0 <= k < counts@.len() ==> {
                &&& counts@[k].0 == count_label(points@.take(i as int), index@[k])
                &&& counts@[k].1 == count_detected(points@.take(i as int), index@[k])
                &&& counts@[k].1 <= counts@[k].0
            },
            forall|x: Seq<char>| #![trigger count_label(points@.take(i as int), x)]
                !index@.contains(x) ==> count_label(points@.take(i as int), x) == 0,
        decreases points@.len() - i,
    {
        let ghost pre = points@.take(i as int);
        let ghost cur = points@.take(i + 1);
        let ghost old_index = index@;
        let ghost old_counts = counts@;
        proof {
            assert(cur.drop_last() =~= pre);
            assert(cur.last() == points@[i as int]);
            assert(labels_of(cur).drop_last() =~= labels_of(pre));
            assert(labels_of(cur).last() == points@[i as int].1@);
        }
        let detected = points[i].0;
        let label = points[i].1.as_str();
        let j = index.intern(label);
        if j == counts.len() {
            counts.push((0, 0));
        } else {
            proof {
                if !old_index.contains(label@) {
                    assert(index@ == old_index.push(label@));
                    assert(old_index.contains(index@[j as int]));
                }
            }
        }
        proof {
            assert(label@ == points@[i as int].1@);
            if !old_index.contains(label@) {
                assert(count_label(points@.take(i as int), label@) == 0);
                assert(index@ == old_index.push(label@));
            } else {
                assert(index@ == old_index);
            }
        }
        let (total, hit) = counts[j];
        proof {
            if !old_index.contains(label@) {
                lemma_count_detected_le(pre, label@);
                assert(j as int == old_index.len());
            } else {
                assert(old_index[j as int] == label@);
            }
        }
        if total == u32::MAX {
            proof {
                lemma_count_label_prefix(points@, label@, i + 1);
                assert(count_label(points@, label@) > u32::MAX);
            }
            return None;
        }
        let new_hit = if detected { hit + 1 } else { hit };
        counts.set(j, (total + 1, new_hit));
        proof {
            assert forall|x: Seq<char>| #![trigger count_label(cur, x)] #![trigger count_detected(cur, x)]
                count_label(cur, x) == count_label(pre, x) + (if label@ == x { 1nat } else { 0nat })
                && count_detected(cur, x) == count_detected(pre, x) + (if detected && label@ == x { 1nat } else { 0nat }) by {
                assert(cur.drop_last() =~= pre);
                assert(cur.last() == points@[i as int]);
            }
            lemma_count_detected_le(pre, label@);
            assert(total == count_label(pre, label@));
            assert(hit == count_detected(pre, label@));
            assert forall|k: int| #![trigger counts@[k]] 0 <= k < counts@.len() implies {
                &&& counts@[k].0 == count_label(cur, index@[k])
                &&& counts@[k].1 == count_detected(cur, index@[k])
                &&& counts@[k].1 <= counts@[k].0
            } by {
                if k != j as int {
                    assert(index@[k] != label@);
                    assert(old_counts[k] == counts@[k]);
                    assert(old_index[k] == index@[k]);
                }
            }
            assert forall|x: Seq<char>| #![trigger count_label(cur, x)]
                !index@.contains(x) implies count_label(cur, x) == 0 by {
                assert(index@[j as int] == label@);
                if old_index.contains(x) {
                    let k = choose|k: int| 0 <= k < old_index.len() && old_index[k] == x;
                    assert(index@[k] == x);
                }
            }
        }
        i = i + 1;
    }
    assert(points@.take(points@.len() as int) =~= points@);
    let ghost names = index@;
    let mut out: Vec<(String, u32, u32)> = Vec::new();
    let n = index.len();
    for k in 0..n
        invariant
            n == index@.len(),
            names == index@,
            counts@.len() == n,
            out@.len() == k,
            forall|m: int| #![trigger out@[m]] 0 <= m < k ==> out@[m].0@ == names[m]
                && out@[m].1 == counts@[m].0 && out@[m].2 == counts@[m].1,
    {
        let name = index.name_at(k).clone();
        let (total, hit) = counts[k];
        out.push((name, total, hit));
    }
    proof {
        assert forall|m: int| #![trigger out@[m]] 0 <= m < out@.len() implies {
            &&& out@[m].1 == points@.filter(labelled(out@[m].0@)).len()
            &&& out@[m].2 == points@.filter(detected_with_label(out@[m].0@)).len()
            &&& out@[m].1 - out@[m].2 == points@.filter(missed_with_label(out@[m].0@)).len()
        } by {
            lemma_breakdown_meaning(points@, out@[m].0@);
            assert(out@[m].0@ == names[m]);
            assert(counts@[m].0 == count_label(points@.take(points@.len() as int), names[m]));
            assert(counts@[m].1 == count_detected(points@.take(points@.len() as int), names[m]));
            lemma_count_detected_le(points@, names[m]);
        }
        assert forall|x: Seq<char>| !(#[trigger] count_label(points@, x) > u32::MAX) by {
            if names.contains(x) {
                let m = choose|m: int| 0 <= m < names.len() && names[m] == x;
                assert(counts@[m].0 == count_label(points@.take(points@.len() as int), x));
            } else {
                assert(count_label(points@.take(points@.len() as int), x) == 0);
            }
        }
    }
    Some(out)
}

/// The entries of `ids` below `n`, in order.
pub open spec fn ids_below(ids: Seq<usize>, n: usize) -> Seq<usize>
    decreases ids.len(),
{
    if ids.len() == 0 {
        Seq::empty()
    } else {
        let rest = ids_below(ids.drop_last(), n);
        if ids.last() < n {
            rest.push(ids.last())
        } else {
            rest
        }
    }
}

/// The first `k` neighbour ids that index a stored point, in the order the
/// index returned them.
pub fn select_neighbour_ids(ids: &Vec<usize>, n_points: usize, k: usize) -> (r: Vec<usize>)
    ensures
        r@ == (if ids_below(ids@, n_points).len() <= k {
            ids_below(ids@, n_points)
        } else {
            ids_below(ids@, n_points).take(k as int)
        }),
{
    let mut all: Vec<usize> = Vec::new();
    for i in 0..ids.len()
        invariant
            all@ == ids_below(ids@.take(i as int), n_points),
    {
        assert(ids@.take(i + 1).drop_last() =~= ids@.take(i as int));
        if ids[i] < n_points {
            all.push(ids[i]);
        }
    }
    assert(ids@.take(ids@.len() as int) =~= ids@);
    if all.len() <= k {
        return all;
    }
    let mut out: Vec<usize> = Vec::new();
    for j in 0..k
        invariant
            k < all@.len(),
            out@ == all@.take(j as int),
    {
        out.push(all[j]);
        assert(all@.take(j + 1) =~= all@.take(j as int).push(all@[j as int]));
    }
    out
}

} // verus!
