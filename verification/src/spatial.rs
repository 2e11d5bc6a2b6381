//! The spatial index: a coarse map from tagged object keys to axis-aligned
//! bounding boxes.
//!
//! A query takes a bounding box and returns, in registration order, every
//! key whose registered box overlaps it. The result is a coarse candidate
//! set: callers re-test exact geometry. The contract makes the filter exact,
//! so a caller can prove both that every reported candidate really has an
//! overlapping box (no stale keys) and that nothing overlapping is missed.

use vstd::prelude::*;
use crate::geometry::{boxes_overlap, boxes_overlap_ex, Aabb};

verus! {

/// What kind of object a registered key refers to; queries dispatch on this
/// tag to pick the exact geometry test.
#[derive(Clone, Copy, PartialEq, Eq, Structural, Debug)]
pub enum ProjectKind {
    Road(usize),
    Inter(usize),
    Lot(u64),
    Building(usize),
    Ground,
}

pub struct SpatialIndex {
    pub entries: Vec<(ProjectKind, Aabb)>,
}

impl View for SpatialIndex {
    type V = Seq<(ProjectKind, Aabb)>;

    open spec fn view(&self) -> Seq<(ProjectKind, Aabb)> {
        self.entries@
    }
}

/// `k` is registered in the entry sequence.
pub open spec fn contains_key(s: Seq<(ProjectKind, Aabb)>, k: ProjectKind) -> bool {
    exists|i: int| 0 <= i < s.len() && #[trigger] s[i].0 == k
}

/// No key is registered twice.
pub open spec fn unique_keys(s: Seq<(ProjectKind, Aabb)>) -> bool {
    forall|i: int, j: int| 0 <= i < j < s.len() ==> #[trigger] s[i].0 != #[trigger] s[j].0
}

/// The keys whose registered box overlaps `qb`, in registration order.
pub open spec fn query_spec(s: Seq<(ProjectKind, Aabb)>, qb: Aabb) -> Seq<ProjectKind>
    decreases s.len(),
{
    if s.len() == 0 {
        Seq::empty()
    } else if boxes_overlap(s.last().1, qb) {
        query_spec(s.drop_last(), qb).push(s.last().0)
    } else {
        query_spec(s.drop_last(), qb)
    }
}

/// What a query returns: exactly the registered keys with an overlapping
/// box, each once.
pub proof fn lemma_query_spec(s: Seq<(ProjectKind, Aabb)>, qb: Aabb)
    requires
        unique_keys(s),
    ensures
        forall|k: ProjectKind| #[trigger] query_spec(s, qb).contains(k) <==> exists|i: int|
            0 <= i < s.len() && #[trigger] s[i].0 == k && boxes_overlap(s[i].1, qb),
        query_spec(s, qb).no_duplicates(),
    decreases s.len(),
{
    if s.len() > 0 {
        let t = s.drop_last();
        lemma_query_spec(t, qb);
        let q = query_spec(s, qb);
        let qt = query_spec(t, qb);
        assert forall|k: ProjectKind| #[trigger] q.contains(k) implies exists|i: int|
            0 <= i < s.len() && #[trigger] s[i].0 == k && boxes_overlap(s[i].1, qb) by {
            if boxes_overlap(s.last().1, qb) && k == s.last().0 {
                assert(s[s.len() - 1].0 == k && boxes_overlap(s[s.len() - 1].1, qb));
            } else {
                assert(qt.contains(k)) by {
                    let j = choose|j: int| 0 <= j < q.len() && q[j] == k;
                    assert(qt[j] == k || (boxes_overlap(s.last().1, qb) && j == qt.len()));
                }
                let i = choose|i: int|
                    0 <= i < t.len() && #[trigger] t[i].0 == k && boxes_overlap(t[i].1, qb);
                assert(s[i].0 == k && boxes_overlap(s[i].1, qb));
            }
        }
        assert forall|k: ProjectKind|
            (exists|i: int|
                0 <= i < s.len() && #[trigger] s[i].0 == k && boxes_overlap(
                    s[i].1,
                    qb,
                )) implies #[trigger] q.contains(k) by {
            let i = choose|i: int|
                0 <= i < s.len() && #[trigger] s[i].0 == k && boxes_overlap(s[i].1, qb);
            if i == s.len() - 1 {
                assert(q.last() == k);
            } else {
                assert(t[i].0 == k && boxes_overlap(t[i].1, qb));
                assert(qt.contains(k));
                let j = choose|j: int| 0 <= j < qt.len() && qt[j] == k;
                assert(q[j] == k);
            }
        }
        // no duplicates: the pushed key is fresh since keys are unique
        if boxes_overlap(s.last().1, qb) {
            assert(!qt.contains(s.last().0)) by {
                if qt.contains(s.last().0) {
                    let i = choose|i: int|
                        0 <= i < t.len() && #[trigger] t[i].0 == s.last().0 && boxes_overlap(
                            t[i].1,
                            qb,
                        );
                    assert(s[i].0 == s[s.len() - 1].0);
                    assert(false);
                }
            }
        }
    }
}

/// A registered key stays registered across an index change that keeps
/// every entry carrying it.
pub proof fn lemma_contains_key_carries(
    s1: Seq<(ProjectKind, Aabb)>,
    s2: Seq<(ProjectKind, Aabb)>,
    key: ProjectKind,
)
    requires
        contains_key(s1, key),
        forall|e: (ProjectKind, Aabb)| s1.contains(e) && e.0 == key ==> #[trigger] s2.contains(e),
    ensures
        contains_key(s2, key),
{
    let e = choose|e: int| 0 <= e < s1.len() && #[trigger] s1[e].0 == key;
    assert(s1.contains(s1[e]));
    assert(s2.contains(s1[e]));
    let j = choose|j: int| 0 <= j < s2.len() && #[trigger] s2[j] == s1[e];
    assert(s2[j].0 == key);
}

impl SpatialIndex {
    /// Distinct keys; callers must remove a key before re-inserting it.
    pub open spec fn wf(self) -> bool {
        unique_keys(self@)
    }

    pub fn new() -> (r: SpatialIndex)
        ensures
            r@ =~= Seq::<(ProjectKind, Aabb)>::empty(),
            r.wf(),
    {
        SpatialIndex { entries: Vec::new() }
    }

    pub fn contains(&self, k: ProjectKind) -> (r: bool)
        ensures
            r == contains_key(self@, k),
    {
        let n = self.entries.len();
        let mut i: usize = 0;
        while i < n
            invariant
                0 <= i <= n,
                n == self@.len(),
                forall|j: int| 0 <= j < i ==> #[trigger] self@[j].0 != k,
            decreases n - i,
        {
            let (key, _) = self.entries[i];
            if key == k {
                return true;
            }
            i = i + 1;
        }
        false
    }

    /// Register the bounding box for `k`. A box degenerate to a point is
    /// accepted like any other.
    pub fn insert(&mut self, k: ProjectKind, bb: Aabb)
        requires
            old(self).wf(),
            !contains_key(old(self)@, k),
        ensures
            final(self)@ == old(self)@.push((k, bb)),
            final(self).wf(),
    {
        self.entries.push((k, bb));
        proof {
            assert forall|i: int, j: int| 0 <= i < j < self@.len() implies #[trigger] self@[i].0
                != #[trigger] self@[j].0 by {
                if j == self@.len() - 1 {
                    assert(!contains_key(old(self)@, k));
                    assert(old(self)@[i].0 != k);
                }
            }
        }
    }

    /// Unregister `k`; a no-op when `k` is absent.
    pub fn remove(&mut self, k: ProjectKind)
        requires
            old(self).wf(),
        ensures
            final(self).wf(),
            !contains_key(final(self)@, k),
            forall|e: (ProjectKind, Aabb)| #[trigger] final(self)@.contains(e) <==> old(
                self,
            )@.contains(e) && e.0 != k,
            !contains_key(old(self)@, k) ==> final(self)@ == old(self)@,
    {
        let ghost s0 = old(self)@;
        let n = self.entries.len();
        let mut i: usize = 0;
        while i < n
            invariant
                0 <= i <= n,
                n == self@.len(),
                self@ == s0,
                self.wf(),
                forall|j: int| 0 <= j < i ==> #[trigger] self@[j].0 != k,
            decreases n - i,
        {
            let (key, _) = self.entries[i];
            if key == k {
                proof {
                    assert(s0[i as int].0 == k);
                    assert(contains_key(s0, k));
                }
                self.entries.remove(i);
                proof {
                    let t = self@;
                    assert(t =~= s0.subrange(0, i as int) + s0.subrange(i + 1, s0.len() as int));
                    assert forall|e: (ProjectKind, Aabb)| #[trigger] t.contains(e) implies s0
                        .contains(e) && e.0 != k by {
                        let j = choose|j: int| 0 <= j < t.len() && t[j] == e;
                        if j < i {
                            assert(s0[j] == e);
                            assert(s0[j].0 != k);
                        } else {
                            assert(s0[j + 1] == e);
                            assert(s0[j + 1].0 != s0[i as int].0);
                        }
                    }
                    assert forall|e: (ProjectKind, Aabb)| s0.contains(e) && e.0 != k implies
                        #[trigger] t.contains(e) by {
                        let j = choose|j: int| 0 <= j < s0.len() && s0[j] == e;
                        if j < i {
                            assert(t[j] == e);
                        } else {
                            assert(j != i);
                            assert(t[j - 1] == e);
                        }
                    }
                    assert forall|a: int, b: int| 0 <= a < b < t.len() implies #[trigger] t[a].0
                        != #[trigger] t[b].0 by {
                        let a2: int = if a < i { a } else { a + 1 };
                        let b2: int = if b < i { b } else { b + 1 };
                        assert(t[a] == s0[a2] && t[b] == s0[b2]);
                        assert(s0[a2].0 != s0[b2].0);
                    }
                    assert(!contains_key(t, k)) by {
                        if contains_key(t, k) {
                            let j = choose|j: int| 0 <= j < t.len() && #[trigger] t[j].0 == k;
                            let j2: int = if j < i { j } else { j + 1 };
                            assert(s0[j2].0 == k && j2 != i);
                            assert(s0[i as int].0 == k);
                            assert(false);
                        }
                    }
                }
                return ;
            }
            i = i + 1;
        }
        proof {
            assert(!contains_key(self@, k));
            assert forall|e: (ProjectKind, Aabb)| #[trigger] self@.contains(e) implies self@
                .contains(e) && e.0 != k by {
                let j = choose|j: int| 0 <= j < self@.len() && self@[j] == e;
                assert(e.0 == self@[j].0);
            }
        }
    }

    /// All registered keys whose box overlaps `qb`, in registration order.
    pub fn query(&self, qb: &Aabb) -> (r: Vec<ProjectKind>)
        ensures
            r@ == query_spec(self@, *qb),
    {
        let n = self.entries.len();
        let mut out: Vec<ProjectKind> = Vec::new();
        let mut i: usize = 0;
        proof {
            assert(self@.take(0) =~= Seq::<(ProjectKind, Aabb)>::empty());
        }
        while i < n
            invariant
                0 <= i <= n,
                n == self@.len(),
                out@ == query_spec(self@.take(i as int), *qb),
            decreases n - i,
        {
            let (key, bb) = self.entries[i];
            proof {
                assert(self@.take(i + 1).drop_last() =~= self@.take(i as int));
                assert(self@.take(i + 1).last() == self@[i as int]);
            }
            if boxes_overlap_ex(&bb, qb) {
                out.push(key);
            }
            i = i + 1;
        }
        proof {
            assert(self@.take(n as int) =~= self@);
        }
        out
    }

    /// Rectangle query used for bulk scans such as render culling; the same
    /// coarse filter as `query`.
    pub fn query_rect(&self, rect: &Aabb) -> (r: Vec<ProjectKind>)
        ensures
            r@ == query_spec(self@, *rect),
    {
        self.query(rect)
    }
}

} // verus!
