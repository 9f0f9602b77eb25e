//! Clusters of the background of a binary image, found with a union-find forest, and the
//! holes they make.

use vstd::prelude::*;
use crate::point::PointI32;
use crate::bound::{BoundingRect, lemma_bounds_insert, lemma_bounds_union, lemma_bounds_unique};
use crate::clusters::{Cluster, Clusters};
use crate::scan::clusters_of;
use crate::image::{BinaryImage, flat, flat_index, lemma_flat_in_range, lemma_flat_injective, lemma_flat_next, lemma_inside_finite};
use crate::connect::{adjacent, lemma_linked_adjacent, lemma_linked_refl, lemma_linked_same_label,
    lemma_linked_symmetric, lemma_linked_transitive};
use crate::scan::{scanned, pt, scan_before};
use crate::opening::{class, merge_at, place_at, opener, final_opener};

verus! {

/// Label of a background cluster. Stored in the label map as `label + 1`, so that
/// `0` marks an ink pixel.
pub type Label = u32;

/// The sum of `s`.
pub open spec fn seq_sum(s: Seq<usize>) -> int
    decreases s.len(),
{
    if s.len() == 0 {
        0
    } else {
        seq_sum(s.drop_last()) + s.last()
    }
}

/// Pushing a value adds it to the sum.
pub proof fn lemma_seq_sum_push(s: Seq<usize>, v: usize)
    ensures
        seq_sum(s.push(v)) == seq_sum(s) + v,
{
    assert(s.push(v).drop_last() =~= s);
}

/// Updating an entry changes the sum by the difference.
pub proof fn lemma_seq_sum_update(s: Seq<usize>, i: int, v: usize)
    requires
        0 <= i < s.len(),
    ensures
        seq_sum(s.update(i, v)) == seq_sum(s) - s[i] + v,
    decreases s.len(),
{
    if i < s.len() - 1 {
        lemma_seq_sum_update(s.drop_last(), i, v);
        assert(s.update(i, v).drop_last() =~= s.drop_last().update(i, v));
    } else {
        assert(s.update(i, v).drop_last() =~= s.drop_last());
    }
}

/// Two entries of a sequence of naturals add up to no more than its sum.
pub proof fn lemma_seq_sum_two(s: Seq<usize>, i: int, j: int)
    requires
        0 <= i < s.len(),
        0 <= j < s.len(),
        i != j,
    ensures
        s[i] + s[j] <= seq_sum(s),
    decreases s.len(),
{
    lemma_seq_sum_nonneg(s.drop_last());
    if i == s.len() - 1 {
        lemma_seq_sum_one(s.drop_last(), j);
    } else if j == s.len() - 1 {
        lemma_seq_sum_one(s.drop_last(), i);
    } else {
        lemma_seq_sum_two(s.drop_last(), i, j);
    }
}

/// No entry exceeds the sum.
pub proof fn lemma_seq_sum_one(s: Seq<usize>, i: int)
    requires
        0 <= i < s.len(),
    ensures
        s[i] <= seq_sum(s),
    decreases s.len(),
{
    lemma_seq_sum_nonneg(s.drop_last());
    if i < s.len() - 1 {
        lemma_seq_sum_one(s.drop_last(), i);
    }
}

/// A sum of sizes is not negative.
pub proof fn lemma_seq_sum_nonneg(s: Seq<usize>)
    ensures
        seq_sum(s) >= 0,
    decreases s.len(),
{
    if s.len() > 0 {
        lemma_seq_sum_nonneg(s.drop_last());
    }
}

/// The background clusters found so far by `cluster_background`.
///
/// A cluster is a pixel count and a bounding rect, named by a `Label`. When the scan
/// discovers that two labels name the same region it merges one into the other, and the
/// merges form a union-find forest that `Scan::find` walks to reach the cluster a label
/// now belongs to. Labels are never reused, so a label read from the label map stays valid
/// however many merges have happened since it was written there.
///
/// Clusters are returned by `Scan::clusters` in the order they were created, which is the
/// order of the top left pixel of each.
pub struct Scan {
    /// The label each label was merged into, or the label itself if it is a root.
    pub parent: Vec<Label>,
    /// Pixels in each cluster; `0` once it has been merged into another.
    pub size: Vec<usize>,
    /// Bounding rect of each cluster.
    pub rect: Vec<BoundingRect>,
    /// The root each label has been merged into.
    pub root: Ghost<Seq<int>>,
    /// A rank that grows from child to parent, for the termination of `find`.
    pub rank: Ghost<Seq<nat>>,
    /// An upper bound of the ranks.
    pub bound: Ghost<nat>,
    /// The pixel at which each label was opened, as the scan that opens labels records it.
    pub start: Ghost<Seq<PointI32>>,
}

impl Scan {
    /// The number of labels.
    pub open spec fn len(self) -> int {
        self.parent@.len() as int
    }

    /// The forest is well formed: each label's parent is a label, each label has a root
    /// that its parent shares, and ranks grow from child to parent.
    pub open spec fn wf(self) -> bool {
        let n = self.parent@.len();
        &&& self.size@.len() == n
        &&& self.rect@.len() == n
        &&& self.root@.len() == n
        &&& self.rank@.len() == n
        &&& n <= u32::MAX
        &&& forall|l: int| 0 <= l < n ==> (#[trigger] self.parent@[l]) < n
        &&& forall|l: int|
            0 <= l < n ==> 0 <= #[trigger] self.root@[l] < n && self.parent@[self.root@[l]] == self.root@[l]
        &&& forall|l: int| 0 <= l < n && #[trigger] self.parent@[l] == l ==> self.root@[l] == l
        &&& forall|l: int| 0 <= l < n ==> self.root@[#[trigger] self.parent@[l] as int] == self.root@[l]
        &&& forall|l: int|
            0 <= l < n && #[trigger] self.parent@[l] != l ==> self.rank@[self.parent@[l] as int] > self.rank@[l]
        &&& forall|l: int| 0 <= l < n ==> #[trigger] self.rank@[l] <= self.bound@
    }

    /// `l` is a root of the forest.
    pub open spec fn is_root(self, l: int) -> bool {
        0 <= l < self.len() && self.parent@[l] == l
    }

    /// A scan with no label yet.
    pub fn new() -> (s: Scan)
        ensures
            s.wf(),
            s.len() == 0,
            s.start@ == Seq::<PointI32>::empty(),
    {
        Scan {
            parent: Vec::new(),
            size: Vec::new(),
            rect: Vec::new(),
            root: Ghost(Seq::empty()),
            rank: Ghost(Seq::empty()),
            bound: Ghost(0),
            start: Ghost(Seq::empty()),
        }
    }

    /// The root of `label`; halves the path to it on the way.
    pub fn find(&mut self, label: Label) -> (r: Label)
        requires
            old(self).wf(),
            label < old(self).len(),
        ensures
            final(self).wf(),
            r == old(self).root@[label as int],
            final(self).len() == old(self).len(),
            final(self).root@ == old(self).root@,
            final(self).size@ == old(self).size@,
            final(self).rect@ == old(self).rect@,
            final(self).start@ == old(self).start@,
            forall|l: int| 0 <= l < old(self).len() ==> (#[trigger] final(self).parent@[l] == l) == (old(self).parent@[l] == l),
    {
        let ghost label0 = label;
        let ghost s0 = *self;
        let mut label = label;
        while self.parent[label as usize] != label
            invariant
                self.wf(),
                label < self.len(),
                self.len() == s0.len(),
                self.root@ == s0.root@,
                self.rank@ == s0.rank@,
                self.bound@ == s0.bound@,
                self.size@ == s0.size@,
                self.rect@ == s0.rect@,
                self.start@ == s0.start@,
                self.root@[label as int] == s0.root@[label0 as int],
                forall|l: int| 0 <= l < s0.len() ==> (#[trigger] self.parent@[l] == l) == (s0.parent@[l] == l),
            decreases self.bound@ - self.rank@[label as int],
        {
            let p = self.parent[label as usize];
            let grandparent = self.parent[p as usize];
            proof {
                assert(self.root@[p as int] == self.root@[label as int]);
                assert(self.root@[grandparent as int] == self.root@[p as int]);
                assert(self.rank@[p as int] > self.rank@[label as int]);
                if grandparent != p {
                    assert(self.rank@[grandparent as int] > self.rank@[p as int]);
                }
                assert(self.rank@[label as int] <= self.bound@);
                assert(self.rank@[grandparent as int] <= self.bound@);
            }
            self.parent.set(label as usize, grandparent);
            label = grandparent;
        }
        label
    }

    /// Merges the cluster of root `from` into that of root `to`.
    pub fn combine(&mut self, from: Label, to: Label)
        requires
            old(self).wf(),
            old(self).is_root(from as int),
            old(self).is_root(to as int),
            from != to,
            old(self).size@[to as int] + old(self).size@[from as int] <= usize::MAX,
        ensures
            final(self).wf(),
            final(self).len() == old(self).len(),
            final(self).parent@ == old(self).parent@.update(from as int, to),
            final(self).size@ == old(self).size@.update(to as int, (old(self).size@[to as int] + old(self).size@[from as int]) as usize).update(from as int, 0),
            final(self).rect@ == old(self).rect@.update(to as int, old(self).rect@[to as int].merged(old(self).rect@[from as int])),
            final(self).start@ == old(self).start@,
            forall|l: int| 0 <= l < old(self).len() ==> #[trigger] final(self).root@[l] == if old(self).root@[l] == from {
                to as int
            } else {
                old(self).root@[l]
            },
    {
        let ghost s0 = *self;
        self.parent.set(from as usize, to);
        let s = self.size[to as usize] + self.size[from as usize];
        self.size.set(to as usize, s);
        self.size.set(from as usize, 0);
        let from_rect = self.rect[from as usize];
        let mut r = self.rect[to as usize];
        r.merge(from_rect);
        self.rect.set(to as usize, r);
        proof {
            let n = s0.len();
            let new_rank = if s0.rank@[to as int] > s0.rank@[from as int] { s0.rank@[to as int] } else { (s0.rank@[from as int] + 1) as nat };
            self.rank@ = s0.rank@.update(to as int, new_rank);
            self.bound@ = s0.bound@ + 1;
            self.root@ = Seq::new(n as nat, |l: int| if s0.root@[l] == from { to as int } else { s0.root@[l] });
            assert forall|l: int| 0 <= l < n implies 0 <= #[trigger] self.root@[l] < n && self.parent@[self.root@[l]] == self.root@[l] by {
                assert(s0.parent@[s0.root@[l]] == s0.root@[l]);
            }
            assert forall|l: int| 0 <= l < n implies self.root@[#[trigger] self.parent@[l] as int] == self.root@[l] by {
                assert(s0.root@[s0.parent@[l] as int] == s0.root@[l]);
                if l == from {
                    assert(s0.root@[from as int] == from);
                    assert(s0.root@[to as int] == to);
                }
            }
            assert forall|l: int| 0 <= l < n && #[trigger] self.parent@[l] != l implies self.rank@[self.parent@[l] as int] > self.rank@[l] by {
                if l != from {
                    assert(s0.parent@[l] != l);
                    assert(s0.rank@[s0.parent@[l] as int] > s0.rank@[l]);
                    if l == to {
                        assert(s0.parent@[to as int] == to);
                    }
                }
            }
            assert forall|l: int| 0 <= l < n implies #[trigger] self.rank@[l] <= self.bound@ by {
                assert(s0.rank@[l] <= s0.bound@);
                assert(s0.rank@[from as int] <= s0.bound@);
            }
            assert forall|l: int| 0 <= l < n && #[trigger] self.parent@[l] == l implies self.root@[l] == l by {
                assert(s0.parent@[l] == l);
            }
        }
    }

    /// A new cluster, with no pixels yet, named by the next label.
    pub fn new_cluster(&mut self) -> (label: Label)
        requires
            old(self).wf(),
            old(self).len() < u32::MAX,
        ensures
            final(self).wf(),
            label == old(self).len(),
            final(self).parent@ == old(self).parent@.push(label),
            final(self).size@ == old(self).size@.push(0),
            final(self).rect@ == old(self).rect@.push(BoundingRect::zero()),
            final(self).root@ == old(self).root@.push(label as int),
            final(self).start@ == old(self).start@,
    {
        let label = self.parent.len() as Label;
        self.parent.push(label);
        self.size.push(0);
        self.rect.push(BoundingRect::default());
        proof {
            self.root@ = self.root@.push(label as int);
            self.rank@ = self.rank@.push(0);
        }
        label
    }

    /// Adds the pixel at `(x, y)` to the cluster of `label`.
    pub fn add(&mut self, label: Label, x: usize, y: usize)
        requires
            old(self).wf(),
            label < old(self).len(),
            old(self).size@[label as int] < usize::MAX,
            x < i32::MAX,
            y < i32::MAX,
        ensures
            final(self).wf(),
            final(self).parent@ == old(self).parent@,
            final(self).root@ == old(self).root@,
            final(self).size@ == old(self).size@.update(label as int, (old(self).size@[label as int] + 1) as usize),
            final(self).rect@ == old(self).rect@.update(label as int, old(self).rect@[label as int].with_point(x as i32, y as i32)),
            final(self).start@ == old(self).start@,
    {
        let s = self.size[label as usize] + 1;
        self.size.set(label as usize, s);
        let mut r = self.rect[label as usize];
        r.add_x_y(x as i32, y as i32);
        self.rect.set(label as usize, r);
    }

    /// `l` is the first label, in the order labels were opened, that has root `r`.
    pub open spec fn is_first_label(self, r: int, l: int) -> bool {
        &&& 0 <= l < self.len()
        &&& self.root@[l] == r
        &&& forall|m: int| 0 <= m < l ==> #[trigger] self.root@[m] != r
    }

    /// The first label opened in the cluster of root `r`.
    pub open spec fn first_label(self, r: int) -> int {
        choose|l: int| self.is_first_label(r, l)
    }

    /// `out` lists every root once with its rect, in the order of the first label of each.
    pub open spec fn lists_clusters(self, out: Seq<(Label, BoundingRect)>) -> bool {
        &&& forall|i: int|
            0 <= i < out.len() ==> self.is_root(#[trigger] out[i].0 as int) && out[i].1 == self.rect@[out[i].0 as int]
        &&& forall|l: int| #[trigger] self.is_root(l) ==> exists|i: int| 0 <= i < out.len() && out[i].0 == l
        &&& forall|i: int, j: int|
            0 <= i < j < out.len() ==> self.first_label(#[trigger] out[i].0 as int) < self.first_label(
                #[trigger] out[j].0 as int,
            )
        &&& out.len() <= self.len()
    }

    /// The root of `label`, without changing the forest.
    fn root_of(&self, label: Label) -> (r: Label)
        requires
            self.wf(),
            label < self.len(),
        ensures
            r == self.root@[label as int],
    {
        let mut l = label;
        while self.parent[l as usize] != l
            invariant
                self.wf(),
                l < self.len(),
                self.root@[l as int] == self.root@[label as int],
            decreases self.bound@ - self.rank@[l as int],
        {
            proof {
                assert(self.rank@[self.parent@[l as int] as int] > self.rank@[l as int]);
                assert(self.rank@[self.parent@[l as int] as int] <= self.bound@);
            }
            l = self.parent[l as usize];
        }
        l
    }

    /// Label and bounding rect of every cluster that survived the scan, in the order they
    /// were created, which is the order of the top left pixel of each: a cluster comes where
    /// the first of its labels was opened.
    #[verifier::rlimit(50)]
    pub fn clusters(&self) -> (r: Vec<(Label, BoundingRect)>)
        requires
            self.wf(),
        ensures
            self.lists_clusters(r@),
    {
        let n = self.parent.len();
        let mut seen: Vec<bool> = Vec::new();
        let mut k: usize = 0;
        while k < n
            invariant
                k <= n,
                seen@.len() == k,
                forall|j: int| 0 <= j < k ==> !seen@[j],
            decreases n - k,
        {
            seen.push(false);
            k = k + 1;
        }
        let mut r: Vec<(Label, BoundingRect)> = Vec::new();
        let ghost mut firsts: Seq<int> = Seq::empty();
        let mut label: usize = 0;
        while label < n
            invariant
                self.wf(),
                n == self.len(),
                label <= n,
                self.collected(seen@, r@, firsts, label as int),
            decreases n - label,
        {
            let root = self.root_of(label as Label);
            let ghost r0 = r@;
            let ghost f0 = firsts;
            let ghost seen0 = seen@;
            proof {
                assert(0 <= root < n && self.parent@[root as int] == root);
            }
            if !seen[root as usize] {
                r.push((root, self.rect[root as usize]));
                proof {
                    firsts = firsts.push(label as int);
                }
                seen.set(root as usize, true);
            }
            proof {
                self.lemma_collect_step(seen0, r0, f0, seen@, r@, firsts, label as int, root as int);
            }
            label = label + 1;
        }
        proof {
            assert forall|i: int| 0 <= i < r@.len() implies self.first_label(r@[i].0 as int) == firsts[i] by {
                self.lemma_first_label_unique(r@[i].0 as int, firsts[i]);
            }
            assert forall|l: int| #[trigger] self.is_root(l) implies exists|i: int| 0 <= i < r@.len() && r@[i].0 == l by {
                assert(self.root@[l] == l);
                let i = choose|i: int| 0 <= i < r@.len() && r@[i].0 == #[trigger] self.root@[l];
            }
            assert forall|i: int, j: int| 0 <= i < j < r@.len() implies self.first_label(#[trigger] r@[i].0 as int)
                < self.first_label(#[trigger] r@[j].0 as int) by {
                assert(self.first_label(r@[i].0 as int) == firsts[i]);
                assert(self.first_label(r@[j].0 as int) == firsts[j]);
            }
        }
        r
    }

    /// The state of `clusters` after the labels below `label`: `seen` marks the roots of
    /// those labels, and `out` lists each of them once, at its first label, kept in `firsts`.
    spec fn collected(self, seen: Seq<bool>, out: Seq<(Label, BoundingRect)>, firsts: Seq<int>, label: int) -> bool {
        &&& seen.len() == self.len()
        &&& forall|q: int| 0 <= q < self.len() ==> (seen[q] <==> exists|m: int| 0 <= m < label && #[trigger] self.root@[m] == q)
        &&& firsts.len() == out.len()
        &&& forall|i: int|
            0 <= i < out.len() ==> self.is_root(#[trigger] out[i].0 as int) && out[i].1 == self.rect@[out[i].0 as int]
                && self.is_first_label(out[i].0 as int, firsts[i]) && firsts[i] < label
        &&& forall|i: int, j: int| 0 <= i < j < out.len() ==> firsts[i] < firsts[j]
        &&& forall|m: int| 0 <= m < label ==> exists|i: int| 0 <= i < out.len() && out[i].0 == #[trigger] self.root@[m]
        &&& out.len() <= label
    }

    /// One step of `clusters`: the root of `label` is listed where it was not seen yet.
    proof fn lemma_collect_step(
        self,
        seen0: Seq<bool>,
        r0: Seq<(Label, BoundingRect)>,
        f0: Seq<int>,
        seen1: Seq<bool>,
        r1: Seq<(Label, BoundingRect)>,
        f1: Seq<int>,
        label: int,
        root: int,
    )
        requires
            self.wf(),
            0 <= label < self.len(),
            self.collected(seen0, r0, f0, label),
            root == self.root@[label],
            self.is_root(root),
            seen0[root] ==> seen1 == seen0 && r1 == r0 && f1 == f0,
            !seen0[root] ==> seen1 == seen0.update(root, true) && r1 == r0.push((root as Label, self.rect@[root]))
                && f1 == f0.push(label),
        ensures
            self.collected(seen1, r1, f1, label + 1),
{
        let n = self.len();
        if !seen0[root] {
            assert forall|m: int| 0 <= m < label implies #[trigger] self.root@[m] != root by {
                if self.root@[m] == root {
                    assert(seen0[root]);
                }
            }
            assert(self.is_first_label(root, label));
        }
        assert forall|i: int| 0 <= i < r0.len() implies r1[i] == r0[i] && f1[i] == f0[i] by {}
        assert forall|i: int| 0 <= i < r1.len() implies self.is_root(#[trigger] r1[i].0 as int) && r1[i].1
            == self.rect@[r1[i].0 as int] && self.is_first_label(r1[i].0 as int, f1[i]) && f1[i] < label + 1 by {
            if i < r0.len() {
                assert(self.is_root(r0[i].0 as int));
            }
        }
        assert forall|i: int, j: int| 0 <= i < j < r1.len() implies f1[i] < f1[j] by {
            if j >= r0.len() {
                assert(self.is_root(r0[i].0 as int));
                assert(f0[i] < label);
            }
        }
        assert forall|q: int| 0 <= q < n implies (seen1[q] <==> exists|m: int| 0 <= m < label + 1 && #[trigger] self.root@[m] == q) by {
            if q == root {
                assert(self.root@[label] == q);
            }
        }
        assert forall|m: int| 0 <= m < label + 1 implies exists|i: int| 0 <= i < r1.len() && r1[i].0 == #[trigger] self.root@[m] by {
            if m == label {
                if r1.len() > r0.len() {
                    assert(r1[r1.len() - 1].0 == self.root@[m]);
                } else {
                    assert(seen0[root]);
                    let m2 = choose|m2: int| 0 <= m2 < label && #[trigger] self.root@[m2] == root;
                    let i = choose|i: int| 0 <= i < r0.len() && r0[i].0 == #[trigger] self.root@[m2];
                    assert(r1[i].0 == self.root@[m]);
                }
            } else {
                let i = choose|i: int| 0 <= i < r0.len() && r0[i].0 == #[trigger] self.root@[m];
                assert(r1[i].0 == self.root@[m]);
            }
        }
    }

    /// A root's first label is the one `first_label` picks.
    pub proof fn lemma_first_label_unique(self, r: int, l: int)
        requires
            self.is_first_label(r, l),
        ensures
            self.first_label(r) == l,
    {
        let k = self.first_label(r);
        assert(self.is_first_label(r, k));
        if k < l {
            assert(self.root@[k] != r);
        } else if l < k {
            assert(self.root@[l] != r);
        }
    }

    /// Every root has a first label.
    pub proof fn lemma_first_label_exists(self, r: int)
        requires
            self.wf(),
            self.is_root(r),
        ensures
            self.is_first_label(r, self.first_label(r)),
    {
        assert(self.root@[r] == r);
        self.lemma_first_label_below(r, r + 1);
        let l = choose|l: int| self.is_first_label(r, l);
        self.lemma_first_label_unique(r, l);
    }

    /// A root that some label below `b` has, has a first label.
    proof fn lemma_first_label_below(self, r: int, b: int)
        requires
            0 <= b <= self.len(),
            exists|m: int| 0 <= m < b && #[trigger] self.root@[m] == r,
        ensures
            exists|l: int| self.is_first_label(r, l),
        decreases b,
    {
        if exists|m: int| 0 <= m < b - 1 && #[trigger] self.root@[m] == r {
            self.lemma_first_label_below(r, b - 1);
        } else {
            assert(self.root@[b - 1] == r);
            assert(self.is_first_label(r, b - 1));
        }
    }
}

impl BinaryImage {
    /// The scan of the background opens a new cluster at `(x, y)`: the pixel is unset,
    /// and its upper and left neighbours are set or outside the image.
    pub open spec fn starts_background(self, x: int, y: int) -> bool {
        &&& self.in_bounds(x, y)
        &&& !self.pixel(x, y)
        &&& !(self.in_bounds(x, y - 1) && !self.pixel(x, y - 1))
        &&& !(self.in_bounds(x - 1, y) && !self.pixel(x - 1, y))
    }

    pub open spec fn background_starts_in_row(self, y: int, n: int) -> nat
        decreases n,
    {
        if n <= 0 {
            0
        } else {
            self.background_starts_in_row(y, n - 1) + if self.starts_background(n - 1, y) {
                1nat
            } else {
                0nat
            }
        }
    }

    pub open spec fn background_starts_in_rows(self, n: int) -> nat
        decreases n,
    {
        if n <= 0 {
            0
        } else {
            self.background_starts_in_rows(n - 1) + self.background_starts_in_row(n - 1, self.width as int)
        }
    }

    /// The number of clusters the scan of the background opens.
    pub open spec fn background_starts(self) -> nat {
        self.background_starts_in_rows(self.height as int)
    }

    pub open spec fn background_starts_before(self, x: int, y: int) -> nat {
        self.background_starts_in_rows(y) + self.background_starts_in_row(y, x)
    }
}

proof fn lemma_bg_row_le(image: BinaryImage, y: int, a: int, b: int)
    requires
        a <= b,
    ensures
        image.background_starts_in_row(y, a) <= image.background_starts_in_row(y, b),
    decreases b - a,
{
    if a < b {
        lemma_bg_row_le(image, y, a, b - 1);
    }
}

proof fn lemma_bg_rows_le(image: BinaryImage, a: int, b: int)
    requires
        a <= b,
    ensures
        image.background_starts_in_rows(a) <= image.background_starts_in_rows(b),
    decreases b - a,
{
    if a < b {
        lemma_bg_rows_le(image, a, b - 1);
    }
}

proof fn lemma_bg_starts_le_total(image: BinaryImage, x: int, y: int)
    requires
        0 <= x <= image.width,
        0 <= y < image.height,
    ensures
        image.background_starts_before(x, y) <= image.background_starts(),
{
    lemma_bg_row_le(image, y, x, image.width as int);
    lemma_bg_rows_le(image, y + 1, image.height as int);
}

/// The background label that `map` holds for `p`.
pub open spec fn bg_label(image: BinaryImage, map: Seq<Label>, p: PointI32) -> int {
    map[flat(image.width as int, p.x as int, p.y as int)] - 1
}

/// The unset pixels seen so far whose label has root `r`.
pub open spec fn bg_part(image: BinaryImage, scan: Scan, map: Seq<Label>, r: int, x: int, y: int) -> Set<PointI32> {
    Set::new(|p: PointI32|
        image.has_color(p, false) && scanned(p.x as int, p.y as int, x, y) && scan.root@[bg_label(image, map, p)] == r)
}

/// The state of the scan of the background before `(x, y)`; every root but `fresh` has
/// a pixel.
pub open spec fn bg_ok(image: BinaryImage, scan: Scan, map: Seq<Label>, x: int, y: int, fresh: int) -> bool {
    &&& scan.wf()
    &&& map.len() == image.width * image.height
    &&& forall|p: PointI32|
        image.in_bounds(p.x as int, p.y as int) && !(image.has_color(p, false) && scanned(p.x as int, p.y as int, x, y))
            ==> #[trigger] bg_label(image, map, p) == -1
    &&& forall|p: PointI32|
        image.has_color(p, false) && scanned(p.x as int, p.y as int, x, y) ==> 0 <= #[trigger] bg_label(image, map, p)
            < scan.len()
    &&& forall|p: PointI32, q: PointI32|
        image.has_color(p, false) && image.has_color(q, false) && #[trigger] adjacent(p, q, false) && scanned(
            p.x as int,
            p.y as int,
            x,
            y,
        ) && scanned(q.x as int, q.y as int, x, y) ==> scan.root@[bg_label(image, map, p)] == scan.root@[bg_label(
            image,
            map,
            q,
        )]
    &&& forall|p: PointI32, q: PointI32|
        image.has_color(p, false) && image.has_color(q, false) && scanned(p.x as int, p.y as int, x, y) && scanned(
            q.x as int,
            q.y as int,
            x,
            y,
        ) && scan.root@[#[trigger] bg_label(image, map, p)] == scan.root@[#[trigger] bg_label(image, map, q)]
            ==> image.linked(p, q, false, false)
    &&& forall|r: int| #[trigger] scan.is_root(r) ==> scan.rect@[r].bounds(bg_part(image, scan, map, r, x, y))
    &&& forall|r: int|
        #[trigger] scan.is_root(r) && r != fresh ==> exists|p: PointI32|
            #[trigger] bg_part(image, scan, map, r, x, y).contains(p)
    &&& seq_sum(scan.size@) <= flat(image.width as int, x, y)
    &&& forall|r: int| #[trigger] scan.is_root(r) ==> scan.size@[r] == bg_part(image, scan, map, r, x, y).len()
    &&& forall|l: int| 0 <= l < scan.len() && !scan.is_root(l) ==> #[trigger] scan.size@[l] == 0
}

/// `find` changes nothing the state speaks of.
proof fn lemma_bg_find_ok(image: BinaryImage, s0: Scan, s1: Scan, map: Seq<Label>, x: int, y: int, fresh: int)
    requires
        bg_ok(image, s0, map, x, y, fresh),
        s1.wf(),
        s1.len() == s0.len(),
        s1.root@ == s0.root@,
        s1.size@ == s0.size@,
        s1.rect@ == s0.rect@,
        forall|l: int| 0 <= l < s0.len() ==> (#[trigger] s1.parent@[l] == l) == (s0.parent@[l] == l),
    ensures
        bg_ok(image, s1, map, x, y, fresh),
{
    assert forall|r: int| #[trigger] s1.is_root(r) == s0.is_root(r) by {}
    assert forall|r: int| bg_part(image, s1, map, r, x, y) == bg_part(image, s0, map, r, x, y) by {
        assert(bg_part(image, s1, map, r, x, y) =~= bg_part(image, s0, map, r, x, y));
    }
}

/// Moving the scan past a set pixel keeps the state.
proof fn lemma_bg_skip(image: BinaryImage, scan: Scan, map: Seq<Label>, x: int, y: int)
    requires
        image.wf(),
        image.width <= i32::MAX,
        image.height <= i32::MAX,
        0 <= x < image.width,
        0 <= y < image.height,
        bg_ok(image, scan, map, x, y, -1),
        image.pixel(x, y),
    ensures
        bg_ok(image, scan, map, x + 1, y, -1),
{
    lemma_flat_next(image.width as int, x, y);
    assert forall|r: int| bg_part(image, scan, map, r, x + 1, y) == bg_part(image, scan, map, r, x, y) by {
        assert(bg_part(image, scan, map, r, x + 1, y) =~= bg_part(image, scan, map, r, x, y));
    }
    assert forall|p: PointI32|
        image.in_bounds(p.x as int, p.y as int) && !(image.has_color(p, false) && scanned(p.x as int, p.y as int, x + 1, y))
            implies #[trigger] bg_label(image, map, p) == -1 by {
        if image.has_color(p, false) {
            assert(!(p.x == x && p.y == y));
        }
    }
    assert forall|p: PointI32|
        image.has_color(p, false) && scanned(p.x as int, p.y as int, x + 1, y) implies 0 <= #[trigger] bg_label(
        image,
        map,
        p,
    ) < scan.len() by {
        assert(scanned(p.x as int, p.y as int, x, y));
    }
    assert forall|p: PointI32, q: PointI32|
        image.has_color(p, false) && image.has_color(q, false) && #[trigger] adjacent(p, q, false) && scanned(
            p.x as int,
            p.y as int,
            x + 1,
            y,
        ) && scanned(q.x as int, q.y as int, x + 1, y) implies scan.root@[bg_label(image, map, p)]
        == scan.root@[bg_label(image, map, q)] by {
        assert(scanned(p.x as int, p.y as int, x, y));
        assert(scanned(q.x as int, q.y as int, x, y));
    }
    assert forall|p: PointI32, q: PointI32|
        image.has_color(p, false) && image.has_color(q, false) && scanned(p.x as int, p.y as int, x + 1, y) && scanned(
            q.x as int,
            q.y as int,
            x + 1,
            y,
        ) && scan.root@[#[trigger] bg_label(image, map, p)] == scan.root@[#[trigger] bg_label(image, map, q)]
        implies image.linked(p, q, false, false) by {
        assert(scanned(p.x as int, p.y as int, x, y));
        assert(scanned(q.x as int, q.y as int, x, y));
    }
}

/// The state at the end of a row is the state at the start of the next.
proof fn lemma_bg_next_row(image: BinaryImage, scan: Scan, map: Seq<Label>, y: int)
    requires
        image.wf(),
        0 <= y,
        bg_ok(image, scan, map, image.width as int, y, -1),
    ensures
        bg_ok(image, scan, map, 0, y + 1, -1),
{
    let w = image.width as int;
    lemma_flat_next(w, 0, y);
    assert(flat(w, w, y) == flat(w, 0, y + 1));
    assert forall|r: int| bg_part(image, scan, map, r, 0, y + 1) == bg_part(image, scan, map, r, w, y) by {
        assert(bg_part(image, scan, map, r, 0, y + 1) =~= bg_part(image, scan, map, r, w, y));
    }
    assert forall|p: PointI32|
        image.in_bounds(p.x as int, p.y as int) && !(image.has_color(p, false) && scanned(p.x as int, p.y as int, 0, y + 1))
            implies #[trigger] bg_label(image, map, p) == -1 by {
    }
    assert forall|p: PointI32|
        image.has_color(p, false) && scanned(p.x as int, p.y as int, 0, y + 1) implies 0 <= #[trigger] bg_label(
        image,
        map,
        p,
    ) < scan.len() by {
        assert(scanned(p.x as int, p.y as int, w, y));
    }
    assert forall|p: PointI32, q: PointI32|
        image.has_color(p, false) && image.has_color(q, false) && #[trigger] adjacent(p, q, false) && scanned(
            p.x as int,
            p.y as int,
            0,
            y + 1,
        ) && scanned(q.x as int, q.y as int, 0, y + 1) implies scan.root@[bg_label(image, map, p)]
        == scan.root@[bg_label(image, map, q)] by {
        assert(scanned(p.x as int, p.y as int, w, y));
        assert(scanned(q.x as int, q.y as int, w, y));
    }
    assert forall|p: PointI32, q: PointI32|
        image.has_color(p, false) && image.has_color(q, false) && scanned(p.x as int, p.y as int, 0, y + 1) && scanned(
            q.x as int,
            q.y as int,
            0,
            y + 1,
        ) && scan.root@[#[trigger] bg_label(image, map, p)] == scan.root@[#[trigger] bg_label(image, map, q)]
        implies image.linked(p, q, false, false) by {
        assert(scanned(p.x as int, p.y as int, w, y));
        assert(scanned(q.x as int, q.y as int, w, y));
    }
}

/// Merging the clusters of two roots whose pixels `a` and `b` are linked keeps the state.
#[verifier::rlimit(30)]
proof fn lemma_bg_combine(
    image: BinaryImage,
    s0: Scan,
    s1: Scan,
    map: Seq<Label>,
    x: int,
    y: int,
    from: int,
    to: int,
    a: PointI32,
    b: PointI32,
)
    requires
        image.width <= i32::MAX,
        image.height <= i32::MAX,
        bg_ok(image, s0, map, x, y, -1),
        s0.is_root(from),
        s0.is_root(to),
        from != to,
        s1.wf(),
        s1.len() == s0.len(),
        s1.parent@ == s0.parent@.update(from, to as u32),
        s1.size@ == s0.size@.update(to, (s0.size@[to] + s0.size@[from]) as usize).update(from, 0),
        s0.size@[to] + s0.size@[from] <= usize::MAX,
        s1.rect@ == s0.rect@.update(to, s0.rect@[to].merged(s0.rect@[from])),
        forall|l: int| 0 <= l < s0.len() ==> #[trigger] s1.root@[l] == if s0.root@[l] == from { to } else { s0.root@[l] },
        bg_part(image, s0, map, from, x, y).contains(a),
        bg_part(image, s0, map, to, x, y).contains(b),
        image.linked(a, b, false, false),
    ensures
        bg_ok(image, s1, map, x, y, -1),
{
    let n = s0.len();
    // Sizes.
    let mid = s0.size@.update(to, (s0.size@[to] + s0.size@[from]) as usize);
    lemma_seq_sum_update(s0.size@, to, (s0.size@[to] + s0.size@[from]) as usize);
    lemma_seq_sum_update(mid, from, 0);
    // Labels.
    assert forall|p: PointI32|
        image.has_color(p, false) && scanned(p.x as int, p.y as int, x, y) implies s1.root@[bg_label(image, map, p)]
        == if s0.root@[bg_label(image, map, p)] == from { to } else { s0.root@[bg_label(image, map, p)] } by {
        assert(0 <= bg_label(image, map, p) < n);
    }
    assert forall|p: PointI32, q: PointI32|
        image.has_color(p, false) && image.has_color(q, false) && #[trigger] adjacent(p, q, false) && scanned(
            p.x as int,
            p.y as int,
            x,
            y,
        ) && scanned(q.x as int, q.y as int, x, y) implies s1.root@[bg_label(image, map, p)] == s1.root@[bg_label(
        image,
        map,
        q,
    )] by {
        assert(0 <= bg_label(image, map, p) < n);
        assert(0 <= bg_label(image, map, q) < n);
    }
    lemma_linked_symmetric(image, a, b, false, false);
    assert forall|p: PointI32, q: PointI32|
        image.has_color(p, false) && image.has_color(q, false) && scanned(p.x as int, p.y as int, x, y) && scanned(
            q.x as int,
            q.y as int,
            x,
            y,
        ) && s1.root@[#[trigger] bg_label(image, map, p)] == s1.root@[#[trigger] bg_label(image, map, q)]
        implies image.linked(p, q, false, false) by {
        let lp = bg_label(image, map, p);
        let lq = bg_label(image, map, q);
        assert(0 <= lp < n && 0 <= lq < n);
        let rp = s0.root@[lp];
        let rq = s0.root@[lq];
        if rp != rq {
            // One is in `from` and the other in `to`.
            assert(s0.root@[bg_label(image, map, a)] == from);
            assert(s0.root@[bg_label(image, map, b)] == to);
            if rp == from {
                assert(rq == to);
                assert(image.linked(p, a, false, false));
                assert(image.linked(b, q, false, false));
                lemma_linked_transitive(image, p, a, b, false, false);
                lemma_linked_transitive(image, p, b, q, false, false);
            } else {
                assert(rp == to && rq == from);
                assert(image.linked(p, b, false, false));
                assert(image.linked(a, q, false, false));
                lemma_linked_transitive(image, p, b, a, false, false);
                lemma_linked_transitive(image, p, a, q, false, false);
            }
        }
    }
    // Rects and roots.
    assert forall|r: int| #[trigger] s1.is_root(r) implies s1.rect@[r].bounds(bg_part(image, s1, map, r, x, y)) by {
        assert(s0.is_root(r));
        if r == to {
            assert(bg_part(image, s1, map, r, x, y) =~= bg_part(image, s0, map, to, x, y).union(
                bg_part(image, s0, map, from, x, y),
            ));
            lemma_bounds_union(s0.rect@[to], bg_part(image, s0, map, to, x, y), s0.rect@[from], bg_part(image, s0, map, from, x, y));
        } else {
            assert(bg_part(image, s1, map, r, x, y) =~= bg_part(image, s0, map, r, x, y));
        }
    }
    assert forall|r: int| #[trigger] s1.is_root(r) implies s1.size@[r] == bg_part(image, s1, map, r, x, y).len() by {
        assert(s0.is_root(r));
        if r == to {
            let pt_to = bg_part(image, s0, map, to, x, y);
            let pt_from = bg_part(image, s0, map, from, x, y);
            assert(bg_part(image, s1, map, r, x, y) =~= pt_to.union(pt_from));
            lemma_inside_finite(image, pt_to);
            lemma_inside_finite(image, pt_from);
            assert(pt_to.disjoint(pt_from));
            vstd::set_lib::lemma_set_disjoint_lens(pt_to, pt_from);
        } else {
            assert(bg_part(image, s1, map, r, x, y) =~= bg_part(image, s0, map, r, x, y));
        }
    }
    assert forall|l: int| 0 <= l < s1.len() && !s1.is_root(l) implies #[trigger] s1.size@[l] == 0 by {
        if l != from {
            assert(!s0.is_root(l));
        }
    }
    assert forall|r: int| #[trigger] s1.is_root(r) && r != -1 implies exists|p: PointI32|
        #[trigger] bg_part(image, s1, map, r, x, y).contains(p) by {
        assert(s0.is_root(r));
        if r == to {
            assert(bg_part(image, s1, map, r, x, y).contains(b));
        } else {
            let p = choose|p: PointI32| #[trigger] bg_part(image, s0, map, r, x, y).contains(p);
            assert(bg_part(image, s1, map, r, x, y).contains(p));
        }
    }
}

/// A new cluster keeps the state, as the fresh root with no pixel yet.
proof fn lemma_bg_new(image: BinaryImage, s0: Scan, s1: Scan, map: Seq<Label>, x: int, y: int)
    requires
        bg_ok(image, s0, map, x, y, -1),
        s1.wf(),
        s1.parent@ == s0.parent@.push(s0.len() as u32),
        s1.size@ == s0.size@.push(0),
        s1.rect@ == s0.rect@.push(BoundingRect::zero()),
        s1.root@ == s0.root@.push(s0.len()),
    ensures
        bg_ok(image, s1, map, x, y, s0.len()),
        forall|p: PointI32|
            image.has_color(p, false) && scanned(p.x as int, p.y as int, x, y) ==> #[trigger] s1.root@[bg_label(
                image,
                map,
                p,
            )] != s0.len(),
{
    let n = s0.len();
    lemma_seq_sum_push(s0.size@, 0);
    assert forall|p: PointI32|
        image.has_color(p, false) && scanned(p.x as int, p.y as int, x, y) implies #[trigger] s1.root@[bg_label(
        image,
        map,
        p,
    )] == s0.root@[bg_label(image, map, p)] && s0.root@[bg_label(image, map, p)] < n by {
        assert(0 <= bg_label(image, map, p) < n);
    }
    assert forall|r: int| #[trigger] s1.is_root(r) implies s1.rect@[r].bounds(bg_part(image, s1, map, r, x, y)) by {
        if r == n {
            assert(bg_part(image, s1, map, r, x, y) =~= Set::<PointI32>::empty());
        } else {
            assert(s0.is_root(r));
            assert(bg_part(image, s1, map, r, x, y) =~= bg_part(image, s0, map, r, x, y));
        }
    }
    assert forall|r: int| #[trigger] s1.is_root(r) && r != n implies exists|p: PointI32|
        #[trigger] bg_part(image, s1, map, r, x, y).contains(p) by {
        assert(s0.is_root(r));
        let p = choose|p: PointI32| #[trigger] bg_part(image, s0, map, r, x, y).contains(p);
        assert(bg_part(image, s1, map, r, x, y).contains(p));
    }
    assert forall|p: PointI32, q: PointI32|
        image.has_color(p, false) && image.has_color(q, false) && #[trigger] adjacent(p, q, false) && scanned(
            p.x as int,
            p.y as int,
            x,
            y,
        ) && scanned(q.x as int, q.y as int, x, y) implies s1.root@[bg_label(image, map, p)] == s1.root@[bg_label(
        image,
        map,
        q,
    )] by {
        assert(0 <= bg_label(image, map, p) < n);
        assert(0 <= bg_label(image, map, q) < n);
    }
    assert forall|p: PointI32, q: PointI32|
        image.has_color(p, false) && image.has_color(q, false) && scanned(p.x as int, p.y as int, x, y) && scanned(
            q.x as int,
            q.y as int,
            x,
            y,
        ) && s1.root@[#[trigger] bg_label(image, map, p)] == s1.root@[#[trigger] bg_label(image, map, q)]
        implies image.linked(p, q, false, false) by {
        assert(0 <= bg_label(image, map, p) < n);
        assert(0 <= bg_label(image, map, q) < n);
    }
    assert forall|r: int| #[trigger] s1.is_root(r) implies s1.size@[r] == bg_part(image, s1, map, r, x, y).len() by {
        if r == n {
            assert(bg_part(image, s1, map, r, x, y) =~= Set::<PointI32>::empty());
        } else {
            assert(s0.is_root(r));
            assert(bg_part(image, s1, map, r, x, y) =~= bg_part(image, s0, map, r, x, y));
        }
    }
    assert forall|l: int| 0 <= l < s1.len() && !s1.is_root(l) implies #[trigger] s1.size@[l] == 0 by {
        assert(!s0.is_root(l));
    }
}

/// Adding the unset pixel `(x, y)` to the cluster of root `cluster`, which holds the
/// neighbour `nb` unless it is the fresh root, keeps the state past `(x, y)`.
#[verifier::rlimit(30)]
proof fn lemma_bg_attach(
    image: BinaryImage,
    s0: Scan,
    s1: Scan,
    map: Seq<Label>,
    map1: Seq<Label>,
    x: int,
    y: int,
    cluster: int,
    fresh: int,
    nb: PointI32,
)
    requires
        image.wf(),
        image.width <= i32::MAX,
        image.height <= i32::MAX,
        0 <= x < image.width,
        0 <= y < image.height,
        bg_ok(image, s0, map, x, y, fresh),
        fresh == -1 || fresh == cluster,
        fresh == cluster ==> forall|p: PointI32|
            image.has_color(p, false) && scanned(p.x as int, p.y as int, x, y) ==> #[trigger] s0.root@[bg_label(
                image,
                map,
                p,
            )] != cluster,
        !image.pixel(x, y),
        s0.is_root(cluster),
        cluster < u32::MAX,
        forall|n: PointI32|
            image.has_color(n, false) && #[trigger] adjacent(n, pt(x, y), false) && scanned(n.x as int, n.y as int, x, y)
                ==> s0.root@[bg_label(image, map, n)] == cluster,
        fresh == -1 ==> image.has_color(nb, false) && adjacent(nb, pt(x, y), false) && scanned(
            nb.x as int,
            nb.y as int,
            x,
            y,
        ) && s0.root@[bg_label(image, map, nb)] == cluster,
        s1.wf(),
        s1.parent@ == s0.parent@,
        s1.root@ == s0.root@,
        s0.size@[cluster] < usize::MAX,
        s1.size@ == s0.size@.update(cluster, (s0.size@[cluster] + 1) as usize),
        s1.rect@ == s0.rect@.update(cluster, s0.rect@[cluster].with_point(x as i32, y as i32)),
        map1 == map.update(flat(image.width as int, x, y), (cluster + 1) as u32),
    ensures
        bg_ok(image, s1, map1, x + 1, y, -1),
{
    let w = image.width as int;
    let h = image.height as int;
    let c = pt(x, y);
    let n = s0.len();
    lemma_flat_next(w, x, y);
    lemma_flat_in_range(w, h, x, y);
    lemma_seq_sum_update(s0.size@, cluster, (s0.size@[cluster] + 1) as usize);
    assert(image.has_color(c, false));
    assert(bg_label(image, map1, c) == cluster);
    // Labels of other pixels stay.
    assert forall|p: PointI32| image.in_bounds(p.x as int, p.y as int) && p != c implies #[trigger] bg_label(
        image,
        map1,
        p,
    ) == bg_label(image, map, p) by {
        lemma_flat_in_range(w, h, p.x as int, p.y as int);
        if flat(w, p.x as int, p.y as int) == flat(w, x, y) {
            lemma_flat_injective(w, p.x as int, p.y as int, x, y);
        }
    }
    assert forall|p: PointI32|
        image.in_bounds(p.x as int, p.y as int) && !(image.has_color(p, false) && scanned(p.x as int, p.y as int, x + 1, y))
            implies #[trigger] bg_label(image, map1, p) == -1 by {
        assert(p != c);
        assert(bg_label(image, map1, p) == bg_label(image, map, p));
    }
    assert forall|p: PointI32|
        image.has_color(p, false) && scanned(p.x as int, p.y as int, x + 1, y) implies 0 <= #[trigger] bg_label(
        image,
        map1,
        p,
    ) < s1.len() by {
        if p != c {
            assert(bg_label(image, map1, p) == bg_label(image, map, p));
            assert(scanned(p.x as int, p.y as int, x, y));
        }
    }
    // Neighbours.
    assert forall|p: PointI32, q: PointI32|
        image.has_color(p, false) && image.has_color(q, false) && #[trigger] adjacent(p, q, false) && scanned(
            p.x as int,
            p.y as int,
            x + 1,
            y,
        ) && scanned(q.x as int, q.y as int, x + 1, y) implies s1.root@[bg_label(image, map1, p)] == s1.root@[bg_label(
        image,
        map1,
        q,
    )] by {
        assert(s0.root@[cluster] == cluster);
        if p != c {
            assert(bg_label(image, map1, p) == bg_label(image, map, p));
        }
        if q != c {
            assert(bg_label(image, map1, q) == bg_label(image, map, q));
        }
        if p == c && q != c {
            assert(adjacent(q, c, false));
        }
    }
    // Links.
    lemma_linked_refl(image, c, false, false);
    assert forall|p: PointI32|
        image.has_color(p, false) && scanned(p.x as int, p.y as int, x, y) && s0.root@[bg_label(image, map, p)] == cluster
            implies image.linked(p, c, false, false) by {
        assert(fresh == -1);
        lemma_linked_adjacent(image, nb, c, false, false);
        assert(image.linked(p, nb, false, false));
        lemma_linked_transitive(image, p, nb, c, false, false);
    }
    assert forall|p: PointI32, q: PointI32|
        image.has_color(p, false) && image.has_color(q, false) && scanned(p.x as int, p.y as int, x + 1, y) && scanned(
            q.x as int,
            q.y as int,
            x + 1,
            y,
        ) && s1.root@[#[trigger] bg_label(image, map1, p)] == s1.root@[#[trigger] bg_label(image, map1, q)]
        implies image.linked(p, q, false, false) by {
        assert(s0.root@[cluster] == cluster);
        if p != c {
            assert(bg_label(image, map1, p) == bg_label(image, map, p));
            assert(scanned(p.x as int, p.y as int, x, y));
        }
        if q != c {
            assert(bg_label(image, map1, q) == bg_label(image, map, q));
            assert(scanned(q.x as int, q.y as int, x, y));
        }
        if p == c && q != c {
            assert(image.linked(q, c, false, false));
            lemma_linked_symmetric(image, q, c, false, false);
        }
    }
    // Rects, sizes and roots.
    assert forall|r: int| #[trigger] s1.is_root(r) implies s1.rect@[r].bounds(bg_part(image, s1, map1, r, x + 1, y))
        && s1.size@[r] == bg_part(image, s1, map1, r, x + 1, y).len() by {
        assert(s0.is_root(r));
        assert forall|p: PointI32| bg_part(image, s1, map1, r, x + 1, y).contains(p) == (bg_part(image, s0, map, r, x, y).contains(p)
            || (r == cluster && p == c)) by {
            if p != c && image.in_bounds(p.x as int, p.y as int) {
                assert(bg_label(image, map1, p) == bg_label(image, map, p));
            }
            assert(s0.root@[cluster] == cluster);
        }
        if r == cluster {
            let before = bg_part(image, s0, map, r, x, y);
            assert(bg_part(image, s1, map1, r, x + 1, y) =~= before.insert(c));
            lemma_bounds_insert(s0.rect@[cluster], before, c);
            lemma_inside_finite(image, before);
            assert(!before.contains(c));
        } else {
            assert(bg_part(image, s1, map1, r, x + 1, y) =~= bg_part(image, s0, map, r, x, y));
        }
    }
    assert forall|l: int| 0 <= l < s1.len() && !s1.is_root(l) implies #[trigger] s1.size@[l] == 0 by {
        assert(!s0.is_root(l));
    }
    assert forall|r: int| #[trigger] s1.is_root(r) && r != -1 implies exists|p: PointI32|
        #[trigger] bg_part(image, s1, map1, r, x + 1, y).contains(p) by {
        assert(s0.is_root(r));
        assert(s0.root@[cluster] == cluster);
        if r == cluster {
            assert(bg_part(image, s1, map1, r, x + 1, y).contains(c));
        } else {
            let p = choose|p: PointI32| #[trigger] bg_part(image, s0, map, r, x, y).contains(p);
            assert(bg_label(image, map1, p) == bg_label(image, map, p));
            assert(bg_part(image, s1, map1, r, x + 1, y).contains(p));
        }
    }
}

/// The unset pixels whose label has root `r`.
pub open spec fn bg_cluster(image: BinaryImage, scan: Scan, map: Seq<Label>, r: int) -> Set<PointI32> {
    bg_part(image, scan, map, r, 0, image.height as int)
}

impl Scan {
    /// The labels opened in scan order at the pixels `start` records; the root of the label
    /// of each unset pixel opened at the pixel that names its cluster once a scan that
    /// merges the smaller of two meeting clusters into the larger has seen the image; each
    /// label opened at an unset pixel that holds it, and each unset pixel holds a label
    /// opened at it or before it.
    pub open spec fn opened_in_order(self, image: BinaryImage, map: Seq<Label>) -> bool {
        &&& self.start@.len() == self.len()
        &&& forall|l1: int, l2: int|
            0 <= l1 < l2 < self.len() ==> scan_before(#[trigger] self.start@[l1], #[trigger] self.start@[l2])
        &&& forall|p: PointI32|
            #[trigger] image.has_color(p, false) ==> self.start@[self.root@[bg_label(image, map, p)]] == final_opener(image, false, false)(p)
        &&& forall|l: int|
            0 <= l < self.len() ==> image.has_color(#[trigger] self.start@[l], false) && bg_label(image, map, self.start@[l]) == l
        &&& forall|p: PointI32|
            #[trigger] image.has_color(p, false) ==> (self.start@[bg_label(image, map, p)] == p || scan_before(
                self.start@[bg_label(image, map, p)],
                p,
            ))
    }
}

/// `scan` and `map` hold the clusters of the unset pixels of `image` (edges only): set
/// pixels carry no label, unset ones a label whose root names their cluster, two unset
/// pixels share a root exactly when they are linked, and each root has pixels, their
/// bounding rect and their count; a label merged into another counts no pixel.
pub open spec fn background_of(image: BinaryImage, scan: Scan, map: Seq<Label>) -> bool {
    &&& scan.wf()
    &&& map.len() == image.width * image.height
    &&& forall|p: PointI32| image.has_color(p, true) ==> #[trigger] bg_label(image, map, p) == -1
    &&& forall|p: PointI32| image.has_color(p, false) ==> 0 <= #[trigger] bg_label(image, map, p) < scan.len()
    &&& forall|p: PointI32, q: PointI32|
        image.has_color(p, false) && image.has_color(q, false) ==> (image.linked(p, q, false, false)
            <==> scan.root@[#[trigger] bg_label(image, map, p)] == scan.root@[#[trigger] bg_label(image, map, q)])
    &&& forall|r: int| #[trigger] scan.is_root(r) ==> scan.rect@[r].bounds(bg_cluster(image, scan, map, r))
    &&& forall|r: int| #[trigger] scan.is_root(r) ==> exists|p: PointI32| #[trigger] bg_cluster(image, scan, map, r).contains(p)
    &&& forall|r: int| #[trigger] scan.is_root(r) ==> scan.size@[r] == bg_cluster(image, scan, map, r).len()
    &&& forall|l: int| 0 <= l < scan.len() && !scan.is_root(l) ==> #[trigger] scan.size@[l] == 0
}

/// The labels opened in scan order, at the pixels `scan.start` records: every label but
/// `fresh` before `(x, y)`, and `fresh` at it; each unset pixel seen before `(x, y)` lies in
/// a cluster whose root opened at the name `f` gives the pixel.
pub open spec fn bg_named(
    image: BinaryImage,
    scan: Scan,
    map: Seq<Label>,
    x: int,
    y: int,
    fresh: int,
    f: spec_fn(PointI32) -> PointI32,
) -> bool {
    &&& scan.start@.len() == scan.len()
    &&& forall|l1: int, l2: int|
        0 <= l1 < l2 < scan.len() ==> scan_before(#[trigger] scan.start@[l1], #[trigger] scan.start@[l2])
    &&& forall|l: int|
        0 <= l < scan.len() && l != fresh ==> scanned(
            (#[trigger] scan.start@[l]).x as int,
            scan.start@[l].y as int,
            x,
            y,
        )
    &&& 0 <= fresh < scan.len() ==> scan.start@[fresh] == pt(x, y)
    &&& forall|p: PointI32|
        #[trigger] image.has_color(p, false) && scanned(p.x as int, p.y as int, x, y) ==> scan.start@[scan.root@[bg_label(
            image,
            map,
            p,
        )]] == f(p)
}

/// Under names kept by the roots, a root counts as many pixels as its name has, and two
/// unset pixels seen share a name exactly when they share a root.
proof fn lemma_bg_named_classes(
    image: BinaryImage,
    scan: Scan,
    map: Seq<Label>,
    x: int,
    y: int,
    f: spec_fn(PointI32) -> PointI32,
)
    requires
        bg_ok(image, scan, map, x, y, -1),
        bg_named(image, scan, map, x, y, -1, f),
    ensures
        forall|r: int| #[trigger] scan.is_root(r) ==> scan.size@[r] == class(image, false, f, x, y, scan.start@[r]).len(),
        forall|a: PointI32, b: PointI32|
            image.has_color(a, false) && scanned(a.x as int, a.y as int, x, y) && image.has_color(b, false) && scanned(
                b.x as int,
                b.y as int,
                x,
                y,
            ) ==> (#[trigger] f(a) == #[trigger] f(b) <==> scan.root@[bg_label(image, map, a)] == scan.root@[bg_label(
                image,
                map,
                b,
            )]),
{
    assert forall|r1: int, r2: int| 0 <= r1 < scan.len() && 0 <= r2 < scan.len() && r1 != r2 implies
        #[trigger] scan.start@[r1] != #[trigger] scan.start@[r2] by {
        if r1 < r2 {
            assert(scan_before(scan.start@[r1], scan.start@[r2]));
        } else {
            assert(scan_before(scan.start@[r2], scan.start@[r1]));
        }
    }
    assert forall|r: int| #[trigger] scan.is_root(r) implies scan.size@[r] == class(image, false, f, x, y, scan.start@[r]).len() by {
        assert forall|p: PointI32| bg_part(image, scan, map, r, x, y).contains(p) <==> class(image, false, f, x, y, scan.start@[r]).contains(p) by {
            if image.has_color(p, false) && scanned(p.x as int, p.y as int, x, y) {
                assert(0 <= bg_label(image, map, p) < scan.len());
            }
        }
        assert(bg_part(image, scan, map, r, x, y) =~= class(image, false, f, x, y, scan.start@[r]));
    }
    assert forall|a: PointI32, b: PointI32|
        image.has_color(a, false) && scanned(a.x as int, a.y as int, x, y) && image.has_color(b, false) && scanned(
            b.x as int,
            b.y as int,
            x,
            y,
        ) implies (#[trigger] f(a) == #[trigger] f(b) <==> scan.root@[bg_label(image, map, a)] == scan.root@[bg_label(
        image,
        map,
        b,
    )]) by {
        assert(0 <= bg_label(image, map, a) < scan.len());
        assert(0 <= bg_label(image, map, b) < scan.len());
    }
}

/// Merging the smaller of the clusters of the upper and left neighbours of an unset pixel
/// into the larger, the left one into the upper one on a tie, renames as `merge_at` does.
proof fn lemma_bg_merge_named(
    image: BinaryImage,
    s0: Scan,
    s1: Scan,
    map: Seq<Label>,
    x: int,
    y: int,
    f: spec_fn(PointI32) -> PointI32,
    keep_up: bool,
)
    requires
        image.width <= i32::MAX,
        image.height <= i32::MAX,
        0 <= x < image.width,
        0 <= y < image.height,
        bg_ok(image, s0, map, x, y, -1),
        bg_named(image, s0, map, x, y, -1, f),
        image.has_color(pt(x, y), false),
        image.has_color(pt(x, y - 1), false),
        image.has_color(pt(x - 1, y), false),
        s0.root@[bg_label(image, map, pt(x, y - 1))] != s0.root@[bg_label(image, map, pt(x - 1, y))],
        keep_up == (s0.size@[s0.root@[bg_label(image, map, pt(x - 1, y))]] <= s0.size@[s0.root@[bg_label(
            image,
            map,
            pt(x, y - 1),
        )]]),
        s1.len() == s0.len(),
        s1.start@ == s0.start@,
        forall|l: int| 0 <= l < s0.len() ==> #[trigger] s1.root@[l] == {
            let ru = s0.root@[bg_label(image, map, pt(x, y - 1))];
            let rl = s0.root@[bg_label(image, map, pt(x - 1, y))];
            if s0.root@[l] == (if keep_up { rl } else { ru }) {
                if keep_up { ru } else { rl }
            } else {
                s0.root@[l]
            }
        },
    ensures
        bg_named(image, s1, map, x, y, -1, merge_at(image, false, false, f, x, y)),
{
    let up = pt(x, y - 1);
    let left = pt(x - 1, y);
    let ru = s0.root@[bg_label(image, map, up)];
    let rl = s0.root@[bg_label(image, map, left)];
    assert(scanned(up.x as int, up.y as int, x, y));
    assert(scanned(left.x as int, left.y as int, x, y));
    assert(0 <= bg_label(image, map, up) < s0.len());
    assert(0 <= bg_label(image, map, left) < s0.len());
    lemma_bg_named_classes(image, s0, map, x, y, f);
    assert(f(up) != f(left));
    assert(s0.is_root(ru) && s0.is_root(rl));
    assert(s0.size@[ru] == class(image, false, f, x, y, f(up)).len());
    assert(s0.size@[rl] == class(image, false, f, x, y, f(left)).len());
    let from = if keep_up { rl } else { ru };
    let to = if keep_up { ru } else { rl };
    let lose = if keep_up { f(left) } else { f(up) };
    let win = if keep_up { f(up) } else { f(left) };
    let g = merge_at(image, false, false, f, x, y);
    assert(g == (|p: PointI32| if f(p) == lose { win } else { f(p) }));
    assert(s0.start@[from] == lose && s0.start@[to] == win);
    assert forall|p: PointI32| #[trigger] image.has_color(p, false) && scanned(p.x as int, p.y as int, x, y) implies s1.start@[s1.root@[bg_label(
        image,
        map,
        p,
    )]] == g(p) by {
        let l = bg_label(image, map, p);
        assert(0 <= l < s0.len());
        assert(0 <= s0.root@[l] < s0.len());
        if s0.root@[l] == from {
            assert(f(p) == lose);
        } else {
            assert(s0.start@[s0.root@[l]] == f(p));
            assert(f(p) != lose);
        }
    }
}

/// Giving the unset pixel `(x, y)` the label of root `cluster`, which opened at the name
/// `place_at` gives the pixel, names as `place_at` says past `(x, y)`.
proof fn lemma_bg_place_named(
    image: BinaryImage,
    s0: Scan,
    s1: Scan,
    map: Seq<Label>,
    map1: Seq<Label>,
    x: int,
    y: int,
    cluster: int,
    fresh: int,
    g: spec_fn(PointI32) -> PointI32,
)
    requires
        image.wf(),
        image.width <= i32::MAX,
        image.height <= i32::MAX,
        0 <= x < image.width,
        0 <= y < image.height,
        !image.pixel(x, y),
        bg_named(image, s0, map, x, y, fresh, g),
        fresh == -1 || fresh == cluster,
        s0.wf(),
        0 <= cluster < s0.len(),
        cluster < u32::MAX,
        s0.root@[cluster] == cluster,
        place_at(image, false, false, g, x, y)(pt(x, y)) == s0.start@[cluster],
        s1.len() == s0.len(),
        s1.root@ == s0.root@,
        s1.start@ == s0.start@,
        map.len() == image.width * image.height,
        map1 == map.update(flat(image.width as int, x, y), (cluster + 1) as u32),
    ensures
        bg_named(image, s1, map1, x + 1, y, -1, place_at(image, false, false, g, x, y)),
{
    let w = image.width as int;
    let h = image.height as int;
    let c = pt(x, y);
    let gp = place_at(image, false, false, g, x, y);
    lemma_flat_in_range(w, h, x, y);
    assert(image.has_color(c, false));
    assert(bg_label(image, map1, c) == cluster);
    assert forall|p: PointI32| #[trigger] image.has_color(p, false) && scanned(p.x as int, p.y as int, x + 1, y) implies s1.start@[s1.root@[bg_label(
        image,
        map1,
        p,
    )]] == gp(p) by {
        if p != c {
            lemma_flat_in_range(w, h, p.x as int, p.y as int);
            if flat(w, p.x as int, p.y as int) == flat(w, x, y) {
                lemma_flat_injective(w, p.x as int, p.y as int, x, y);
            }
            assert(bg_label(image, map1, p) == bg_label(image, map, p));
            assert(scanned(p.x as int, p.y as int, x, y));
        }
    }
    assert forall|l: int| 0 <= l < s1.len() implies scanned(
        (#[trigger] s1.start@[l]).x as int,
        s1.start@[l].y as int,
        x + 1,
        y,
    ) by {
        if l == fresh {
            assert(s0.start@[l] == c);
        }
    }
}

/// Opening a label for the unset pixel `(x, y)`, with no unset upper or left neighbour,
/// records the pixel as where the label opened.
proof fn lemma_bg_open_named(image: BinaryImage, s0: Scan, s1: Scan, map: Seq<Label>, x: int, y: int)
    requires
        image.width <= i32::MAX,
        image.height <= i32::MAX,
        0 <= x < image.width,
        0 <= y < image.height,
        s0.wf(),
        bg_named(image, s0, map, x, y, -1, opener(image, false, false, x, y)),
        !image.has_color(pt(x, y - 1), false),
        !image.has_color(pt(x - 1, y), false),
        s1.len() == s0.len() + 1,
        s1.root@ == s0.root@.push(s0.len()),
        s1.start@ == s0.start@.push(pt(x, y)),
        forall|p: PointI32|
            image.has_color(p, false) && scanned(p.x as int, p.y as int, x, y) ==> 0 <= #[trigger] bg_label(image, map, p)
                < s0.len(),
    ensures
        bg_named(
            image,
            s1,
            map,
            x,
            y,
            s0.len(),
            merge_at(image, false, false, opener(image, false, false, x, y), x, y),
        ),
{
    let f = opener(image, false, false, x, y);
    let n = s0.len();
    assert(merge_at(image, false, false, f, x, y) == f);
    assert forall|l1: int, l2: int| 0 <= l1 < l2 < s1.len() implies scan_before(
        #[trigger] s1.start@[l1],
        #[trigger] s1.start@[l2],
    ) by {
        if l2 == n {
            assert(s1.start@[l1] == s0.start@[l1]);
            assert(scanned(s0.start@[l1].x as int, s0.start@[l1].y as int, x, y));
        } else {
            assert(s1.start@[l1] == s0.start@[l1] && s1.start@[l2] == s0.start@[l2]);
        }
    }
    assert forall|l: int| 0 <= l < s1.len() && l != n implies scanned(
        (#[trigger] s1.start@[l]).x as int,
        s1.start@[l].y as int,
        x,
        y,
    ) by {
        assert(s1.start@[l] == s0.start@[l]);
    }
    assert forall|p: PointI32| #[trigger] image.has_color(p, false) && scanned(p.x as int, p.y as int, x, y) implies s1.start@[s1.root@[bg_label(
        image,
        map,
        p,
    )]] == f(p) by {
        let l = bg_label(image, map, p);
        assert(0 <= l < n);
        assert(s1.root@[l] == s0.root@[l]);
        assert(0 <= s0.root@[l] < n);
        assert(s1.start@[s0.root@[l]] == s0.start@[s0.root@[l]]);
    }
}

/// Passing a set pixel keeps the names.
proof fn lemma_bg_skip_named(image: BinaryImage, scan: Scan, map: Seq<Label>, x: int, y: int)
    requires
        image.width <= i32::MAX,
        image.height <= i32::MAX,
        0 <= x < image.width,
        0 <= y < image.height,
        image.pixel(x, y),
        bg_named(image, scan, map, x, y, -1, opener(image, false, false, x, y)),
    ensures
        bg_named(image, scan, map, x + 1, y, -1, opener(image, false, false, x + 1, y)),
{
    let f = opener(image, false, false, x, y);
    assert(!image.has_color(pt(x, y), false));
    assert(merge_at(image, false, false, f, x, y) == f);
    assert(place_at(image, false, false, f, x, y) == f);
    assert(opener(image, false, false, x + 1, y) == f);
    assert forall|p: PointI32| #[trigger] image.has_color(p, false) && scanned(p.x as int, p.y as int, x + 1, y) implies scan.start@[scan.root@[bg_label(
        image,
        map,
        p,
    )]] == f(p) by {
        assert(p != pt(x, y));
        assert(scanned(p.x as int, p.y as int, x, y));
    }
}

/// The names at the end of a row are those at the start of the next.
proof fn lemma_bg_next_row_named(image: BinaryImage, scan: Scan, map: Seq<Label>, y: int)
    requires
        0 <= y,
        bg_named(image, scan, map, image.width as int, y, -1, opener(image, false, false, image.width as int, y)),
    ensures
        bg_named(image, scan, map, 0, y + 1, -1, opener(image, false, false, 0, y + 1)),
{
    let f = opener(image, false, false, image.width as int, y);
    assert(opener(image, false, false, 0, y + 1) == f);
    assert forall|p: PointI32| #[trigger] image.has_color(p, false) && scanned(p.x as int, p.y as int, 0, y + 1) implies scan.start@[scan.root@[bg_label(
        image,
        map,
        p,
    )]] == f(p) by {
        assert(scanned(p.x as int, p.y as int, image.width as int, y));
    }
    assert forall|l: int| 0 <= l < scan.len() implies scanned(
        (#[trigger] scan.start@[l]).x as int,
        scan.start@[l].y as int,
        0,
        y + 1,
    ) by {
        assert(scanned(scan.start@[l].x as int, scan.start@[l].y as int, image.width as int, y));
    }
}

proof fn lemma_bg_done(image: BinaryImage, scan: Scan, map: Seq<Label>)
    requires
        image.wf(),
        bg_ok(image, scan, map, 0, image.height as int, -1),
    ensures
        background_of(image, scan, map),
{
    let h = image.height as int;
    let label = |p: PointI32| scan.root@[bg_label(image, map, p)];
    assert forall|p: PointI32, q: PointI32|
        image.has_color(p, false) && image.has_color(q, false) && #[trigger] adjacent(p, q, false) implies label(p)
        == label(q) by {
        assert(scanned(p.x as int, p.y as int, 0, h));
        assert(scanned(q.x as int, q.y as int, 0, h));
    }
    assert forall|p: PointI32, q: PointI32|
        image.has_color(p, false) && image.has_color(q, false) implies (image.linked(p, q, false, false)
        <==> scan.root@[#[trigger] bg_label(image, map, p)] == scan.root@[#[trigger] bg_label(image, map, q)]) by {
        assert(scanned(p.x as int, p.y as int, 0, h));
        assert(scanned(q.x as int, q.y as int, 0, h));
        if image.linked(p, q, false, false) {
            lemma_linked_same_label(image, label, p, q, false, false);
        }
    }
    assert forall|p: PointI32| image.has_color(p, false) implies 0 <= #[trigger] bg_label(image, map, p) < scan.len() by {
        assert(scanned(p.x as int, p.y as int, 0, h));
    }
    assert forall|p: PointI32| image.has_color(p, true) implies #[trigger] bg_label(image, map, p) == -1 by {
    }
    assert forall|r: int| #[trigger] scan.is_root(r) implies exists|p: PointI32| #[trigger] bg_cluster(image, scan, map, r).contains(p) by {
        let p = choose|p: PointI32| #[trigger] bg_part(image, scan, map, r, 0, h).contains(p);
        assert(bg_cluster(image, scan, map, r).contains(p));
    }
    assert forall|r: int| #[trigger] scan.is_root(r) implies scan.rect@[r].bounds(bg_cluster(image, scan, map, r)) by {
        assert(scan.rect@[r].bounds(bg_part(image, scan, map, r, 0, h)));
    }
}

/// The pixels the labels were opened at, before `(x, y)`: each label opened at an unset
/// pixel seen before `(x, y)` that still holds it, and each unset pixel seen holds a label
/// opened at it or before it.
pub open spec fn bg_started(image: BinaryImage, start: Seq<PointI32>, map: Seq<Label>, x: int, y: int) -> bool {
    &&& forall|l: int|
        0 <= l < start.len() ==> {
            &&& image.has_color(#[trigger] start[l], false)
            &&& scanned(start[l].x as int, start[l].y as int, x, y)
            &&& bg_label(image, map, start[l]) == l
        }
    &&& forall|p: PointI32|
        image.has_color(p, false) && scanned(p.x as int, p.y as int, x, y) ==> {
            &&& 0 <= #[trigger] bg_label(image, map, p) < start.len()
            &&& (start[bg_label(image, map, p)] == p || scan_before(start[bg_label(image, map, p)], p))
        }
}

/// Labelling the unset pixel `(x, y)` with `cluster`, new or not, keeps `bg_started`.
proof fn lemma_bg_started_step(
    image: BinaryImage,
    start0: Seq<PointI32>,
    start1: Seq<PointI32>,
    map0: Seq<Label>,
    map1: Seq<Label>,
    x: int,
    y: int,
    cluster: int,
    fresh: bool,
)
    requires
        image.wf(),
        image.width <= i32::MAX,
        image.height <= i32::MAX,
        0 <= x < image.width,
        0 <= y < image.height,
        image.has_color(pt(x, y), false),
        bg_started(image, start0, map0, x, y),
        map0.len() == image.width * image.height,
        0 <= cluster < u32::MAX,
        map1 == map0.update(flat(image.width as int, x, y), (cluster + 1) as Label),
        fresh ==> start1 == start0.push(pt(x, y)) && cluster == start0.len(),
        !fresh ==> start1 == start0 && cluster < start0.len(),
    ensures
        bg_started(image, start1, map1, x + 1, y),
{
    let w = image.width as int;
    let c = pt(x, y);
    lemma_flat_in_range(w, image.height as int, x, y);
    assert(bg_label(image, map1, c) == cluster);
    assert forall|p: PointI32| image.has_color(p, false) && p != c implies #[trigger] bg_label(image, map1, p)
        == bg_label(image, map0, p) by {
        lemma_flat_in_range(w, image.height as int, p.x as int, p.y as int);
        if flat(w, p.x as int, p.y as int) == flat(w, x, y) {
            lemma_flat_injective(w, p.x as int, p.y as int, x, y);
        }
    }
    assert forall|l: int| 0 <= l < start1.len() implies {
        &&& image.has_color(#[trigger] start1[l], false)
        &&& scanned(start1[l].x as int, start1[l].y as int, x + 1, y)
        &&& bg_label(image, map1, start1[l]) == l
    } by {
        if l < start0.len() {
            assert(start1[l] == start0[l]);
            assert(image.has_color(start0[l], false));
            assert(start0[l] != c);
        }
    }
    assert forall|p: PointI32| image.has_color(p, false) && scanned(p.x as int, p.y as int, x + 1, y) implies {
        &&& 0 <= #[trigger] bg_label(image, map1, p) < start1.len()
        &&& (start1[bg_label(image, map1, p)] == p || scan_before(start1[bg_label(image, map1, p)], p))
    } by {
        if p == c {
            if !fresh {
                assert(image.has_color(start0[cluster], false));
            }
        } else {
            assert(scanned(p.x as int, p.y as int, x, y));
            assert(bg_label(image, map0, p) < start0.len());
            assert(start1[bg_label(image, map0, p)] == start0[bg_label(image, map0, p)]);
        }
    }
}

/// Passing a set pixel, or the end of a row, keeps `bg_started`.
proof fn lemma_bg_started_move(image: BinaryImage, start: Seq<PointI32>, map: Seq<Label>, x: int, y: int, x1: int, y1: int)
    requires
        bg_started(image, start, map, x, y),
        forall|p: PointI32| #[trigger] image.has_color(p, false) ==> (scanned(p.x as int, p.y as int, x1, y1)
            ==> scanned(p.x as int, p.y as int, x, y)),
        forall|p: PointI32| #[trigger] image.has_color(p, false) ==> (scanned(p.x as int, p.y as int, x, y)
            ==> scanned(p.x as int, p.y as int, x1, y1)),
    ensures
        bg_started(image, start, map, x1, y1),
{
    assert forall|l: int| 0 <= l < start.len() implies scanned(
        (#[trigger] start[l]).x as int,
        start[l].y as int,
        x1,
        y1,
    ) by {
        assert(image.has_color(start[l], false));
    }
}

/// The roots of the upper and of the left neighbour of `(x, y)`, where they are unset.
fn background_neighbours(image: &BinaryImage, x: usize, y: usize, map: &Vec<Label>, scan: &mut Scan) -> (r: (
    Option<Label>,
    Option<Label>,
))
    requires
        image.wf(),
        image.width <= i32::MAX,
        image.height <= i32::MAX,
        x < image.width,
        y < image.height,
        bg_ok(*image, *old(scan), map@, x as int, y as int, -1),
    ensures
        bg_ok(*image, *final(scan), map@, x as int, y as int, -1),
        final(scan).len() == old(scan).len(),
        final(scan).root@ == old(scan).root@,
        final(scan).start@ == old(scan).start@,
        r.0 is Some <==> image.has_color(pt(x as int, y - 1), false),
        r.1 is Some <==> image.has_color(pt(x - 1, y as int), false),
        r.0 matches Some(u) ==> u == final(scan).root@[bg_label(*image, map@, pt(x as int, y - 1))],
        r.1 matches Some(l) ==> l == final(scan).root@[bg_label(*image, map@, pt(x - 1, y as int))],
{
    let width = image.width;
    let height = image.height;
    let ghost up_pt = pt(x as int, y - 1);
    let ghost left_pt = pt(x - 1, y as int);
    let ghost s0 = *scan;
    let up = if y > 0 && !image.get_pixel(x, y - 1) {
        let i = flat_index(width, height, map.len(), x, y - 1);
        assert(image.has_color(up_pt, false) && scanned(x as int, y - 1, x as int, y as int));
        assert(0 <= bg_label(*image, map@, up_pt) < scan.len());
        let r = scan.find(map[i] - 1);
        proof {
            lemma_bg_find_ok(*image, s0, *scan, map@, x as int, y as int, -1);
        }
        Some(r)
    } else {
        None
    };
    let ghost s1 = *scan;
    let left = if x > 0 && !image.get_pixel(x - 1, y) {
        let i = flat_index(width, height, map.len(), x - 1, y);
        assert(image.has_color(left_pt, false) && scanned(x - 1, y as int, x as int, y as int));
        assert(0 <= bg_label(*image, map@, left_pt) < scan.len());
        let r = scan.find(map[i] - 1);
        proof {
            lemma_bg_find_ok(*image, s1, *scan, map@, x as int, y as int, -1);
        }
        Some(r)
    } else {
        None
    };
    (up, left)
}

/// Labels the pixel at `(x, y)` of the background scan.
#[verifier::rlimit(30)]
fn label_background_pixel(image: &BinaryImage, x: usize, y: usize, map: &mut Vec<Label>, scan: &mut Scan)
    requires
        image.wf(),
        image.width <= i32::MAX,
        image.height <= i32::MAX,
        image.background_starts() <= u32::MAX,
        x < image.width,
        y < image.height,
        bg_ok(*image, *old(scan), old(map)@, x as int, y as int, -1),
        old(scan).len() <= image.background_starts_before(x as int, y as int),
        bg_named(*image, *old(scan), old(map)@, x as int, y as int, -1, opener(*image, false, false, x as int, y as int)),
        bg_started(*image, old(scan).start@, old(map)@, x as int, y as int),
    ensures
        bg_ok(*image, *final(scan), final(map)@, x + 1, y as int, -1),
        final(scan).len() <= image.background_starts_before(x + 1, y as int),
        bg_named(*image, *final(scan), final(map)@, x + 1, y as int, -1, opener(*image, false, false, x + 1, y as int)),
        bg_started(*image, final(scan).start@, final(map)@, x + 1, y as int),
{
    let width = image.width;
    let height = image.height;
    let mlen = map.len();
    let ghost c = pt(x as int, y as int);
    let ghost up_pt = pt(x as int, y - 1);
    let ghost left_pt = pt(x - 1, y as int);
    if image.get_pixel(x, y) {
        proof {
            lemma_bg_skip(*image, *scan, map@, x as int, y as int);
            lemma_bg_skip_named(*image, *scan, map@, x as int, y as int);
            lemma_bg_started_move(*image, scan.start@, map@, x as int, y as int, x + 1, y as int);
        }
        return;
    }
    proof {
        lemma_flat_in_range(width as int, height as int, x as int, y as int);
        lemma_flat_next(width as int, x as int, y as int);
    }
    let ghost start0 = scan.start@;
    let (up, left) = background_neighbours(image, x, y, map, scan);
    let ghost s2 = *scan;
    proof {
        assert(image.has_color(c, false));
        if up is Some {
            assert(s2.is_root(up.unwrap() as int));
            assert(bg_part(*image, s2, map@, up.unwrap() as int, x as int, y as int).contains(up_pt));
        }
        if left is Some {
            assert(s2.is_root(left.unwrap() as int));
            assert(bg_part(*image, s2, map@, left.unwrap() as int, x as int, y as int).contains(left_pt));
        }
        lemma_seq_sum_nonneg(s2.size@);
    }
    let (cluster, fresh) = join_background(image, x, y, map, scan, up, left);
    let ghost s3 = *scan;
    let ghost map0 = map@;
    proof {
        assert(s3.is_root(cluster as int));
        assert(s3.root@[cluster as int] == cluster);
        lemma_seq_sum_one(s3.size@, cluster as int);
        assert(map@.len() == mlen);
        assert forall|n: PointI32|
            image.has_color(n, false) && #[trigger] adjacent(n, pt(x as int, y as int), false) && scanned(
                n.x as int,
                n.y as int,
                x as int,
                y as int,
            ) implies s3.root@[bg_label(*image, map0, n)] == cluster by {
            assert(n == up_pt || n == left_pt);
        }
    }
    let i = flat_index(width, height, map.len(), x, y);
    map.set(i, cluster + 1);
    scan.add(cluster, x, y);
    proof {
        let nb = if up is Some { up_pt } else { left_pt };
        let fr: int = if fresh { cluster as int } else { -1 };
        lemma_bg_attach(*image, s3, *scan, map0, map@, x as int, y as int, cluster as int, fr, nb);
        let g = merge_at(*image, false, false, opener(*image, false, false, x as int, y as int), x as int, y as int);
        if up is Some {
            assert(scanned(up_pt.x as int, up_pt.y as int, x as int, y as int));
        } else if left is Some {
            assert(scanned(left_pt.x as int, left_pt.y as int, x as int, y as int));
        }
        lemma_bg_place_named(*image, s3, *scan, map0, map@, x as int, y as int, cluster as int, fr, g);
    }
    proof {
        assert(bg_started(*image, scan.start@, map@, x + 1, y as int)) by {
            assert(map@ == map0.update(flat(width as int, x as int, y as int), (cluster + 1) as Label));
            lemma_bg_started_step(*image, start0, scan.start@, map0, map@, x as int, y as int, cluster as int, fresh);
        }
    }
}

/// The cluster the unset pixel `(x, y)` joins: the one of its unset neighbours, after
/// merging theirs where they differ, or a new one; tells whether it is new.
#[verifier::rlimit(30)]
fn join_background(
    image: &BinaryImage,
    x: usize,
    y: usize,
    map: &Vec<Label>,
    scan: &mut Scan,
    up: Option<Label>,
    left: Option<Label>,
) -> (r: (Label, bool))
    requires
        image.wf(),
        image.width <= i32::MAX,
        image.height <= i32::MAX,
        image.background_starts() <= u32::MAX,
        x < image.width,
        y < image.height,
        !image.pixel(x as int, y as int),
        bg_ok(*image, *old(scan), map@, x as int, y as int, -1),
        old(scan).len() <= image.background_starts_before(x as int, y as int),
        up is Some <==> image.has_color(pt(x as int, y - 1), false),
        left is Some <==> image.has_color(pt(x - 1, y as int), false),
        up matches Some(u) ==> u == old(scan).root@[bg_label(*image, map@, pt(x as int, y - 1))],
        left matches Some(l) ==> l == old(scan).root@[bg_label(*image, map@, pt(x - 1, y as int))],
        bg_named(*image, *old(scan), map@, x as int, y as int, -1, opener(*image, false, false, x as int, y as int)),
    ensures
        bg_ok(*image, *final(scan), map@, x as int, y as int, if r.1 { r.0 as int } else { -1 }),
        bg_named(
            *image,
            *final(scan),
            map@,
            x as int,
            y as int,
            if r.1 { r.0 as int } else { -1 },
            merge_at(*image, false, false, opener(*image, false, false, x as int, y as int), x as int, y as int),
        ),
        final(scan).len() <= image.background_starts_before(x + 1, y as int),
        final(scan).is_root(r.0 as int),
        r.0 < u32::MAX,
        final(scan).start@ == if r.1 { old(scan).start@.push(pt(x as int, y as int)) } else { old(scan).start@ },
        final(scan).len() == old(scan).len() + if r.1 { 1int } else { 0int },
        up is Some ==> final(scan).root@[bg_label(*image, map@, pt(x as int, y - 1))] == r.0,
        left is Some ==> final(scan).root@[bg_label(*image, map@, pt(x - 1, y as int))] == r.0,
        r.1 <==> up is None && left is None,
        r.1 ==> forall|p: PointI32|
            image.has_color(p, false) && scanned(p.x as int, p.y as int, x as int, y as int) ==> #[trigger] final(scan).root@[bg_label(
                *image,
                map@,
                p,
            )] != r.0,
{
    let ghost c = pt(x as int, y as int);
    let ghost up_pt = pt(x as int, y - 1);
    let ghost left_pt = pt(x - 1, y as int);
    let ghost s2 = *scan;
    let mlen = map.len();
    proof {
        assert(image.has_color(c, false));
        lemma_flat_in_range(image.width as int, image.height as int, x as int, y as int);
        lemma_seq_sum_nonneg(s2.size@);
        lemma_bg_starts_le_total(*image, x + 1, y as int);
        if up is Some {
            assert(scanned(x as int, y - 1, x as int, y as int));
            assert(0 <= bg_label(*image, map@, up_pt) < s2.len());
            assert(bg_part(*image, s2, map@, up.unwrap() as int, x as int, y as int).contains(up_pt));
        }
        if left is Some {
            assert(scanned(x - 1, y as int, x as int, y as int));
            assert(0 <= bg_label(*image, map@, left_pt) < s2.len());
            assert(bg_part(*image, s2, map@, left.unwrap() as int, x as int, y as int).contains(left_pt));
        }
    }
    match (up, left) {
        (Some(up), Some(left)) if up != left => {
            proof {
                lemma_seq_sum_two(s2.size@, up as int, left as int);
                lemma_linked_adjacent(*image, left_pt, c, false, false);
                lemma_linked_adjacent(*image, c, up_pt, false, false);
                lemma_linked_transitive(*image, left_pt, c, up_pt, false, false);
                lemma_linked_symmetric(*image, left_pt, up_pt, false, false);
            }
            // Fold the smaller cluster into the larger, so that `find` stays shallow.
            if scan.size[left as usize] <= scan.size[up as usize] {
                scan.combine(left, up);
                proof {
                    lemma_bg_combine(*image, s2, *scan, map@, x as int, y as int, left as int, up as int, left_pt, up_pt);
                    lemma_bg_merge_named(*image, s2, *scan, map@, x as int, y as int,
                        opener(*image, false, false, x as int, y as int), true);
                }
                (up, false)
            } else {
                scan.combine(up, left);
                proof {
                    lemma_bg_combine(*image, s2, *scan, map@, x as int, y as int, up as int, left as int, up_pt, left_pt);
                    lemma_bg_merge_named(*image, s2, *scan, map@, x as int, y as int,
                        opener(*image, false, false, x as int, y as int), false);
                }
                (left, false)
            }
        },
        (Some(up), _) => {
            proof {
                let f = opener(*image, false, false, x as int, y as int);
                if left is Some {
                    lemma_bg_named_classes(*image, s2, map@, x as int, y as int, f);
                    assert(f(up_pt) == f(left_pt));
                }
                assert(merge_at(*image, false, false, f, x as int, y as int) == f);
            }
            (up, false)
        },
        (None, Some(left)) => {
            proof {
                let f = opener(*image, false, false, x as int, y as int);
                assert(merge_at(*image, false, false, f, x as int, y as int) == f);
            }
            (left, false)
        },
        (None, None) => {
            proof {
                assert(image.starts_background(x as int, y as int));
            }
            let l = scan.new_cluster();
            proof {
                scan.start@ = scan.start@.push(c);
                lemma_bg_new(*image, s2, *scan, map@, x as int, y as int);
                lemma_bg_open_named(*image, s2, *scan, map@, x as int, y as int);
            }
            (l, true)
        },
    }
}

/// Clusters the background of `image` (the pixels that are not ink), 4-connected. Returns
/// the clusters and a map holding one label per pixel, stored as `label + 1` so that `0`
/// can stand for an ink pixel.
#[verifier::rlimit(30)]
pub fn cluster_background(image: &BinaryImage) -> (r: (Scan, Vec<Label>))
    requires
        image.wf(),
        image.width <= i32::MAX,
        image.height <= i32::MAX,
        image.background_starts() <= u32::MAX,
    ensures
        background_of(*image, r.0, r.1@),
        r.0.opened_in_order(*image, r.1@),
{
    let (width, height) = (image.width, image.height);
    let n = image.pixels.len();
    let mut map: Vec<Label> = Vec::new();
    let mut k: usize = 0;
    while k < n
        invariant
            k <= n,
            n == width * height,
            map@.len() == k,
            forall|j: int| 0 <= j < k ==> map@[j] == 0,
        decreases n - k,
    {
        map.push(0);
        k = k + 1;
    }
    let mut scan = Scan::new();
    proof {
        assert forall|p: PointI32| image.in_bounds(p.x as int, p.y as int) implies #[trigger] bg_label(*image, map@, p)
            == -1 by {
            lemma_flat_in_range(width as int, height as int, p.x as int, p.y as int);
        }
        assert(seq_sum(scan.size@) == 0);
        assert(flat(width as int, 0, 0) == 0);
        assert forall|p: PointI32| #[trigger] image.has_color(p, false) implies !scanned(p.x as int, p.y as int, 0, 0) by {}
        assert(bg_started(*image, scan.start@, map@, 0, 0));
    }
    let mut y: usize = 0;
    while y < height
        invariant
            image.wf(),
            image.width <= i32::MAX,
            image.height <= i32::MAX,
            image.background_starts() <= u32::MAX,
            width == image.width,
            height == image.height,
            y <= height,
            bg_ok(*image, scan, map@, 0, y as int, -1),
            scan.len() <= image.background_starts_before(0, y as int),
            bg_named(*image, scan, map@, 0, y as int, -1, opener(*image, false, false, 0, y as int)),
            bg_started(*image, scan.start@, map@, 0, y as int),
        decreases height - y,
    {
        let mut x: usize = 0;
        while x < width
            invariant
                image.wf(),
                image.width <= i32::MAX,
                image.height <= i32::MAX,
                image.background_starts() <= u32::MAX,
                width == image.width,
                height == image.height,
                y < height,
                x <= width,
                bg_ok(*image, scan, map@, x as int, y as int, -1),
                scan.len() <= image.background_starts_before(x as int, y as int),
                bg_named(*image, scan, map@, x as int, y as int, -1, opener(*image, false, false, x as int, y as int)),
                bg_started(*image, scan.start@, map@, x as int, y as int),
            decreases width - x,
        {
            label_background_pixel(image, x, y, &mut map, &mut scan);
            x = x + 1;
        }
        proof {
            lemma_bg_next_row(*image, scan, map@, y as int);
            lemma_bg_next_row_named(*image, scan, map@, y as int);
            lemma_bg_started_move(*image, scan.start@, map@, width as int, y as int, 0, y + 1);
        }
        y = y + 1;
    }
    proof {
        lemma_bg_done(*image, scan, map@);
        assert forall|p: PointI32| #[trigger] image.has_color(p, false) implies scan.start@[scan.root@[bg_label(
            *image,
            map@,
            p,
        )]] == final_opener(*image, false, false)(p) by {
            assert(scanned(p.x as int, p.y as int, 0, height as int));
        }
        assert forall|p: PointI32| #[trigger] image.has_color(p, false) implies scanned(p.x as int, p.y as int, 0, height as int) by {}
    }
    (scan, map)
}

impl BinaryImage {
    /// `p` lies on the border of the image.
    pub open spec fn on_border(self, p: PointI32) -> bool {
        p.x == 0 || p.y == 0 || p.x == self.width - 1 || p.y == self.height - 1
    }

    /// The unset pixels linked to `p` by edge-sharing steps.
    pub open spec fn background_component(self, p: PointI32) -> Set<PointI32> {
        Set::new(|q: PointI32| self.linked(p, q, false, false))
    }

    /// `p` lies in a hole: it is unset, and no unset pixel linked to it lies on the border.
    pub open spec fn in_hole(self, p: PointI32) -> bool {
        &&& self.has_color(p, false)
        &&& forall|q: PointI32| #[trigger] self.linked(p, q, false, false) ==> !self.on_border(q)
    }

    /// `hole` at `offset` draws the hole holding `p`: it is the size of the bounding rect
    /// of the hole, whose top left corner is `offset`, and a pixel is set where the hole has
    /// a pixel.
    pub open spec fn draws_hole(self, hole: BinaryImage, offset: PointI32, p: PointI32) -> bool {
        &&& self.in_hole(p)
        &&& hole.wf()
        &&& (BoundingRect {
            left: offset.x,
            top: offset.y,
            right: (offset.x + hole.width) as i32,
            bottom: (offset.y + hole.height) as i32,
        }).bounds(self.background_component(p))
        &&& forall|a: int, b: int| #[trigger] hole.pixel(a, b)
            <==> hole.in_bounds(a, b) && self.linked(p, pt(a + offset.x, b + offset.y), false, false)
    }

    /// `filled` is the image with its holes filled.
    pub open spec fn fills_holes(self, filled: BinaryImage) -> bool {
        &&& filled.wf()
        &&& filled.width == self.width
        &&& filled.height == self.height
        &&& forall|a: int, b: int| #[trigger] filled.pixel(a, b) == (self.pixel(a, b) || (self.in_bounds(a, b)
            && self.in_hole(pt(a, b))))
    }
}

/// The cluster of a root is the component of each of its pixels, and the cluster makes a
/// hole exactly when its rect keeps off the border.
proof fn lemma_hole_cluster(image: BinaryImage, scan: Scan, map: Seq<Label>, r: int, p: PointI32)
    requires
        image.wf(),
        image.width <= i32::MAX,
        image.height <= i32::MAX,
        background_of(image, scan, map),
        scan.is_root(r),
        bg_cluster(image, scan, map, r).contains(p),
    ensures
        image.background_component(p) == bg_cluster(image, scan, map, r),
        0 <= scan.rect@[r].left < scan.rect@[r].right <= image.width,
        0 <= scan.rect@[r].top < scan.rect@[r].bottom <= image.height,
        image.in_hole(p) <==> !(scan.rect@[r].left == 0 || scan.rect@[r].top == 0 || scan.rect@[r].right == image.width
            || scan.rect@[r].bottom == image.height),
{
    let cl = bg_cluster(image, scan, map, r);
    let rect = scan.rect@[r];
    assert(image.has_color(p, false));
    assert(scan.root@[bg_label(image, map, p)] == r);
    assert forall|q: PointI32| image.background_component(p).contains(q) <==> cl.contains(q) by {
        if image.linked(p, q, false, false) {
            crate::connect::lemma_linked_ends(image, p, q, false, false);
            assert(scanned(q.x as int, q.y as int, 0, image.height as int));
        }
        if cl.contains(q) {
            assert(image.has_color(q, false));
        }
    }
    assert(image.background_component(p) =~= cl);
    assert(rect.bounds(cl));
    assert(cl.contains(p));
    let a = choose|q: PointI32| #[trigger] cl.contains(q) && q.x == rect.left;
    let b = choose|q: PointI32| #[trigger] cl.contains(q) && q.x == rect.right - 1;
    let c = choose|q: PointI32| #[trigger] cl.contains(q) && q.y == rect.top;
    let d = choose|q: PointI32| #[trigger] cl.contains(q) && q.y == rect.bottom - 1;
    assert(image.has_color(a, false) && image.has_color(b, false) && image.has_color(c, false) && image.has_color(d, false));
    assert(rect.contains_point(p));
    if !(rect.left == 0 || rect.top == 0 || rect.right == image.width || rect.bottom == image.height) {
        assert forall|q: PointI32| #[trigger] image.linked(p, q, false, false) implies !image.on_border(q) by {
            assert(cl.contains(q));
            assert(rect.contains_point(q));
        }
    } else {
        let q = if rect.left == 0 { a } else if rect.top == 0 { c } else if rect.right == image.width { b } else { d };
        assert(cl.contains(q));
        assert(image.background_component(p).contains(q));
        assert(image.linked(p, q, false, false));
        assert(image.on_border(q));
    }
}

/// The root `r` makes a hole: its rect keeps off the border.
pub open spec fn is_hole_root(image: BinaryImage, scan: Scan, r: int) -> bool {
    &&& scan.is_root(r)
    &&& !(scan.rect@[r].left == 0 || scan.rect@[r].top == 0 || scan.rect@[r].right == image.width
        || scan.rect@[r].bottom == image.height)
}

/// The pixel of `image` at `(a, b)` of an image placed at `offset`.
pub open spec fn placed(offset: PointI32, a: int, b: int) -> PointI32 {
    pt(a + offset.x, b + offset.y)
}

/// The images set up for the holes, with `boundary_of` naming the image of each hole
/// root and `hole_root` the root of each image; the images of the holes hold the pixels
/// of their hole seen before `(x, y)`, and the first image is `image` with those pixels
/// set.
pub open spec fn holes_ok(
    image: BinaryImage,
    scan: Scan,
    map: Seq<Label>,
    bs: Seq<(BinaryImage, PointI32)>,
    boundary_of: Seq<Label>,
    hole_root: Seq<int>,
    x: int,
    y: int,
) -> bool {
    &&& background_of(image, scan, map)
    &&& bs.len() == hole_root.len()
    &&& bs.len() >= 1
    &&& boundary_of.len() == scan.len()
    &&& bs[0].1 == (PointI32 { x: 0, y: 0 })
    &&& bs[0].0.wf()
    &&& bs[0].0.width == image.width
    &&& bs[0].0.height == image.height
    &&& forall|a: int, b: int| #[trigger] bs[0].0.pixel(a, b) == (image.pixel(a, b) || (image.in_bounds(a, b)
        && image.has_color(pt(a, b), false) && scanned(a, b, x, y) && boundary_of[scan.root@[bg_label(
        image,
        map,
        pt(a, b),
    )]] != 0))
    &&& forall|i: int|
        1 <= i < bs.len() ==> {
            &&& is_hole_root(image, scan, #[trigger] hole_root[i])
            &&& boundary_of[hole_root[i]] == i
            &&& bs[i].1 == PointI32 { x: scan.rect@[hole_root[i]].left, y: scan.rect@[hole_root[i]].top }
            &&& bs[i].0.wf()
            &&& bs[i].0.width == scan.rect@[hole_root[i]].width_int()
            &&& bs[i].0.height == scan.rect@[hole_root[i]].height_int()
            &&& forall|a: int, b: int| #[trigger] bs[i].0.pixel(a, b) <==> bs[i].0.in_bounds(a, b) && {
                let q = placed(bs[i].1, a, b);
                &&& image.has_color(q, false)
                &&& scanned(q.x as int, q.y as int, x, y)
                &&& scan.root@[bg_label(image, map, q)] == hole_root[i]
            }
        }
    &&& forall|l: int|
        0 <= l < scan.len() && #[trigger] boundary_of[l] != 0 ==> scan.is_root(l) && boundary_of[l] < bs.len()
            && hole_root[boundary_of[l] as int] == l
    &&& forall|l: int| #[trigger] is_hole_root(image, scan, l) ==> boundary_of[l] != 0
}

/// The state of `setup_holes` after the first `k` roots.
pub open spec fn setup_ok(
    image: BinaryImage,
    scan: Scan,
    map: Seq<Label>,
    roots: Seq<(Label, BoundingRect)>,
    bs: Seq<(BinaryImage, PointI32)>,
    boundary_of: Seq<Label>,
    hole_root: Seq<int>,
    k: int,
) -> bool {
    &&& image.wf()
    &&& image.width <= i32::MAX
    &&& image.height <= i32::MAX
    &&& background_of(image, scan, map)
    &&& scan.lists_clusters(roots)
    &&& 0 <= k <= roots.len()
    &&& bs.len() == hole_root.len()
    &&& 1 <= bs.len() <= k + 1
    &&& boundary_of.len() == scan.len()
    &&& bs[0].1 == (PointI32 { x: 0, y: 0 })
    &&& bs[0].0.wf()
    &&& bs[0].0.width == image.width
    &&& bs[0].0.height == image.height
    &&& forall|a: int, b: int| #[trigger] bs[0].0.pixel(a, b) == image.pixel(a, b)
    &&& forall|i: int|
        1 <= i < bs.len() ==> {
            &&& is_hole_root(image, scan, #[trigger] hole_root[i])
            &&& boundary_of[hole_root[i]] == i
            &&& bs[i].1 == (PointI32 { x: scan.rect@[hole_root[i]].left, y: scan.rect@[hole_root[i]].top })
            &&& bs[i].0.wf()
            &&& bs[i].0.width == scan.rect@[hole_root[i]].width_int()
            &&& bs[i].0.height == scan.rect@[hole_root[i]].height_int()
            &&& forall|a: int, b: int| !#[trigger] bs[i].0.pixel(a, b)
        }
    &&& forall|l: int|
        0 <= l < scan.len() && #[trigger] boundary_of[l] != 0 ==> scan.is_root(l) && boundary_of[l] < bs.len()
            && hole_root[boundary_of[l] as int] == l
    &&& forall|j: int|
        0 <= j < k && is_hole_root(image, scan, #[trigger] roots[j].0 as int) ==> boundary_of[roots[j].0 as int] != 0
    &&& forall|j: int| k <= j < roots.len() ==> boundary_of[#[trigger] roots[j].0 as int] == 0
    &&& forall|i: int, j: int|
        1 <= i < j < bs.len() ==> scan.first_label(#[trigger] hole_root[i]) < scan.first_label(#[trigger] hole_root[j])
    &&& forall|i: int, j: int|
        1 <= i < bs.len() && k <= j < roots.len() ==> scan.first_label(#[trigger] hole_root[i]) < scan.first_label(
            #[trigger] roots[j].0 as int,
        )
}

/// Appends an empty image for the hole of `roots[k]`.
#[verifier::rlimit(30)]
fn push_hole(
    image: &BinaryImage,
    scan: &Scan,
    map: &Vec<Label>,
    roots: &Vec<(Label, BoundingRect)>,
    boundaries: &mut Vec<(BinaryImage, PointI32)>,
    boundary_of: &mut Vec<Label>,
    Ghost(hole_root): Ghost<Seq<int>>,
    k: usize,
) -> (hr: Ghost<Seq<int>>)
    requires
        setup_ok(*image, *scan, map@, roots@, old(boundaries)@, old(boundary_of)@, hole_root, k as int),
        k < roots@.len(),
        is_hole_root(*image, *scan, roots@[k as int].0 as int),
    ensures
        setup_ok(*image, *scan, map@, roots@, final(boundaries)@, final(boundary_of)@, hr@, k + 1),
{
    let (hole, rect) = roots[k];
    let ghost r = hole as int;
    let plen = image.pixels.len();
    proof {
        assert(scan.is_root(r));
        let p = choose|p: PointI32| #[trigger] bg_cluster(*image, *scan, map@, r).contains(p);
        lemma_hole_cluster(*image, *scan, map@, r, p);
    }
    let ghost b0 = boundaries@;
    let ghost bo0 = boundary_of@;
    let idx = boundaries.len() as Label;
    boundary_of.set(hole as usize, idx);
    let w = rect.width() as usize;
    let h = rect.height() as usize;
    proof {
        assert(w * h <= image.width * image.height) by (nonlinear_arith)
            requires
                w <= image.width,
                h <= image.height,
        ;
    }
    let hole_image = BinaryImage::new_w_h(w, h);
    boundaries.push((hole_image, PointI32 { x: rect.left, y: rect.top }));
    let ghost hole_root = hole_root.push(r);
    proof {
        assert forall|i: int| 1 <= i < boundaries@.len() implies {
            &&& is_hole_root(*image, *scan, #[trigger] hole_root[i])
            &&& boundary_of@[hole_root[i]] == i
            &&& boundaries@[i].1 == (PointI32 { x: scan.rect@[hole_root[i]].left, y: scan.rect@[hole_root[i]].top })
            &&& boundaries@[i].0.wf()
            &&& boundaries@[i].0.width == scan.rect@[hole_root[i]].width_int()
            &&& boundaries@[i].0.height == scan.rect@[hole_root[i]].height_int()
            &&& forall|a: int, b: int| !#[trigger] boundaries@[i].0.pixel(a, b)
        } by {
            if i < b0.len() {
                assert(boundaries@[i] == b0[i]);
                assert(bo0[hole_root[i]] == i);
                assert(scan.first_label(hole_root[i]) < scan.first_label(roots@[k as int].0 as int));
                assert(hole_root[i] != r);
            }
        }
        assert forall|l: int|
            0 <= l < scan.len() && #[trigger] boundary_of@[l] != 0 implies scan.is_root(l) && boundary_of@[l]
                < boundaries@.len() && hole_root[boundary_of@[l] as int] == l by {
            if l != r {
                assert(bo0[l] == boundary_of@[l]);
            }
        }
        assert forall|j: int| 0 <= j < k + 1 && is_hole_root(*image, *scan, #[trigger] roots@[j].0 as int) implies boundary_of@[roots@[j].0 as int] != 0 by {
            if j < k {
                assert(scan.first_label(roots@[j].0 as int) < scan.first_label(roots@[k as int].0 as int));
            }
        }
        assert forall|j: int| k + 1 <= j < roots@.len() implies boundary_of@[#[trigger] roots@[j].0 as int] == 0 by {
            assert(scan.first_label(roots@[k as int].0 as int) < scan.first_label(roots@[j].0 as int));
        }
        assert(boundaries@[0] == b0[0]);
        let n0 = b0.len() as int;
        assert(hole_root[n0] == r);
        assert forall|i: int, j: int| 1 <= i < j < boundaries@.len() implies scan.first_label(#[trigger] hole_root[i])
            < scan.first_label(#[trigger] hole_root[j]) by {
            if j == n0 {
                assert(scan.first_label(hole_root[i]) < scan.first_label(roots@[k as int].0 as int));
            }
        }
        assert forall|i: int, j: int| 1 <= i < boundaries@.len() && k + 1 <= j < roots@.len() implies scan.first_label(
            #[trigger] hole_root[i],
        ) < scan.first_label(#[trigger] roots@[j].0 as int) by {
            assert(scan.first_label(roots@[k as int].0 as int) < scan.first_label(roots@[j].0 as int));
            if i < n0 {
                assert(scan.first_label(hole_root[i]) < scan.first_label(roots@[k as int].0 as int));
            }
        }
    }
    Ghost(hole_root)
}

/// Sets up the images of the holes: `image` itself first, then an empty image the size of
/// the rect of each cluster that keeps off the border, in the order the clusters were
/// created.
#[verifier::rlimit(30)]
fn setup_holes(image: &BinaryImage, scan: &Scan, map: &Vec<Label>) -> (r: (
    Vec<(BinaryImage, PointI32)>,
    Vec<Label>,
    Ghost<Seq<int>>,
))
    requires
        image.wf(),
        image.width <= i32::MAX,
        image.height <= i32::MAX,
        background_of(*image, *scan, map@),
    ensures
        holes_ok(*image, *scan, map@, r.0@, r.1@, r.2@, 0, 0),
        forall|i: int, j: int|
            1 <= i < j < r.0@.len() ==> scan.first_label(#[trigger] r.2@[i]) < scan.first_label(#[trigger] r.2@[j]),
{
    let mut boundaries: Vec<(BinaryImage, PointI32)> = Vec::new();
    let first = image.clone();
    boundaries.push((first, PointI32 { x: 0, y: 0 }));
    let n = scan.parent.len();
    let mut boundary_of: Vec<Label> = Vec::new();
    let mut k: usize = 0;
    while k < n
        invariant
            k <= n,
            n == scan.len(),
            boundary_of@.len() == k,
            forall|j: int| 0 <= j < k ==> boundary_of@[j] == 0,
        decreases n - k,
    {
        boundary_of.push(0);
        k = k + 1;
    }
    let ghost mut hole_root: Seq<int> = seq![0int];
    let roots = scan.clusters();
    let mut k: usize = 0;
    while k < roots.len()
        invariant
            setup_ok(*image, *scan, map@, roots@, boundaries@, boundary_of@, hole_root, k as int),
        decreases roots@.len() - k,
    {
        let (hole, rect) = roots[k];
        proof {
            let r = hole as int;
            assert(scan.is_root(r));
            let p = choose|p: PointI32| #[trigger] bg_cluster(*image, *scan, map@, r).contains(p);
            lemma_hole_cluster(*image, *scan, map@, r, p);
        }
        if rect.left as usize == 0 || rect.top as usize == 0 || rect.right as usize == image.width
            || rect.bottom as usize == image.height {
            k = k + 1;
            continue;
        }
        let Ghost(hr) = push_hole(image, scan, map, &roots, &mut boundaries, &mut boundary_of, Ghost(hole_root), k);
        proof {
            hole_root = hr;
        }
        k = k + 1;
    }
    proof {
        assert forall|l: int| #[trigger] is_hole_root(*image, *scan, l) implies boundary_of@[l] != 0 by {
            let i = choose|i: int| 0 <= i < roots@.len() && roots@[i].0 == l;
            assert(is_hole_root(*image, *scan, roots@[i].0 as int));
        }
        assert forall|i: int| 1 <= i < boundaries@.len() implies {
            &&& is_hole_root(*image, *scan, #[trigger] hole_root[i])
            &&& boundary_of@[hole_root[i]] == i
            &&& boundaries@[i].1 == (PointI32 { x: scan.rect@[hole_root[i]].left, y: scan.rect@[hole_root[i]].top })
            &&& boundaries@[i].0.wf()
            &&& boundaries@[i].0.width == scan.rect@[hole_root[i]].width_int()
            &&& boundaries@[i].0.height == scan.rect@[hole_root[i]].height_int()
            &&& forall|a: int, b: int| #[trigger] boundaries@[i].0.pixel(a, b) <==> boundaries@[i].0.in_bounds(a, b) && {
                let q = placed(boundaries@[i].1, a, b);
                &&& image.has_color(q, false)
                &&& scanned(q.x as int, q.y as int, 0, 0)
                &&& scan.root@[bg_label(*image, map@, q)] == hole_root[i]
            }
        } by {
            assert(is_hole_root(*image, *scan, hole_root[i]));
            assert forall|a: int, b: int| !#[trigger] boundaries@[i].0.pixel(a, b) by {}
        }
    }
    (boundaries, boundary_of, Ghost(hole_root))
}

proof fn lemma_background_find_ok(image: BinaryImage, s0: Scan, s1: Scan, map: Seq<Label>)
    requires
        background_of(image, s0, map),
        s1.wf(),
        s1.len() == s0.len(),
        s1.root@ == s0.root@,
        s1.size@ == s0.size@,
        s1.rect@ == s0.rect@,
        forall|l: int| 0 <= l < s0.len() ==> (#[trigger] s1.parent@[l] == l) == (s0.parent@[l] == l),
    ensures
        background_of(image, s1, map),
        forall|r: int| #[trigger] s1.is_root(r) == s0.is_root(r),
        forall|r: int| #[trigger] is_hole_root(image, s1, r) == is_hole_root(image, s0, r),
{
    assert forall|r: int| #[trigger] s1.is_root(r) == s0.is_root(r) by {}
    assert forall|r: int| bg_cluster(image, s1, map, r) == bg_cluster(image, s0, map, r) by {
        assert(bg_cluster(image, s1, map, r) =~= bg_cluster(image, s0, map, r));
    }
    assert forall|r: int| #[trigger] is_hole_root(image, s1, r) == is_hole_root(image, s0, r) by {}
}

/// Draws the pixel at `(x, y)` into the images of the holes, where it lies in one.
#[verifier::rlimit(30)]
fn fill_pixel(
    image: &BinaryImage,
    x: usize,
    y: usize,
    scan: &mut Scan,
    map: &Vec<Label>,
    boundaries: &mut Vec<(BinaryImage, PointI32)>,
    boundary_of: &Vec<Label>,
    Ghost(hole_root): Ghost<Seq<int>>,
)
    requires
        image.wf(),
        image.width <= i32::MAX,
        image.height <= i32::MAX,
        x < image.width,
        y < image.height,
        holes_ok(*image, *old(scan), map@, old(boundaries)@, boundary_of@, hole_root, x as int, y as int),
    ensures
        holes_ok(*image, *final(scan), map@, final(boundaries)@, boundary_of@, hole_root, x + 1, y as int),
        forall|r: int| #[trigger] is_hole_root(*image, *final(scan), r) == is_hole_root(*image, *old(scan), r),
        final(scan).len() == old(scan).len(),
        final(scan).root@ == old(scan).root@,
        final(scan).start@ == old(scan).start@,
{
    let ghost c = pt(x as int, y as int);
    let ghost s0 = *scan;
    let ghost b0 = boundaries@;
    let i = flat_index(image.width, image.height, map.len(), x, y);
    let label = map[i];
    proof {
        assert(bg_label(*image, map@, c) == label - 1);
        if image.has_color(c, false) {
            assert(label >= 1);
        }
    }
    if label == 0 {
        proof {
            assert(!image.has_color(c, false));
            assert forall|a: int, b: int| #[trigger] boundaries@[0].0.pixel(a, b) == (image.pixel(a, b) || (image.in_bounds(a, b)
                && image.has_color(pt(a, b), false) && scanned(a, b, x + 1, y as int) && boundary_of@[scan.root@[bg_label(
                *image,
                map@,
                pt(a, b),
            )]] != 0)) by {
                if image.in_bounds(a, b) && a == x && b == y {
                    assert(pt(a, b) == c);
                }
            }
            assert forall|k: int| #![trigger hole_root[k]] 1 <= k < boundaries@.len() implies forall|a: int, b: int| #[trigger] boundaries@[k].0.pixel(a, b)
                <==> boundaries@[k].0.in_bounds(a, b) && {
                let q = placed(boundaries@[k].1, a, b);
                &&& image.has_color(q, false)
                &&& scanned(q.x as int, q.y as int, x + 1, y as int)
                &&& scan.root@[bg_label(*image, map@, q)] == hole_root[k]
            } by {
                assert(is_hole_root(*image, *scan, hole_root[k]));
                assert forall|a: int, b: int| #[trigger] boundaries@[k].0.pixel(a, b)
                    <==> boundaries@[k].0.in_bounds(a, b) && {
                    let q = placed(boundaries@[k].1, a, b);
                    &&& image.has_color(q, false)
                    &&& scanned(q.x as int, q.y as int, x + 1, y as int)
                    &&& scan.root@[bg_label(*image, map@, q)] == hole_root[k]
                } by {
                    let q = placed(boundaries@[k].1, a, b);
                    if q == c {
                    } else {
                    }
                }
            }
        }
        return;
    }
    assert(0 <= label - 1 < scan.len()) by {
        if !image.has_color(c, false) {
            assert(image.has_color(c, true));
        }
    }
    let r = scan.find(label - 1);
    proof {
        lemma_background_find_ok(*image, s0, *scan, map@);
    }
    let boundary = boundary_of[r as usize];
    let ghost s1 = *scan;
    proof {
        assert(s1.root@[bg_label(*image, map@, c)] == r);
        assert(image.has_color(c, false));
    }
    if boundary == 0 {
        proof {
            assert forall|a: int, b: int| #[trigger] boundaries@[0].0.pixel(a, b) == (image.pixel(a, b) || (image.in_bounds(a, b)
                && image.has_color(pt(a, b), false) && scanned(a, b, x + 1, y as int) && boundary_of@[scan.root@[bg_label(
                *image,
                map@,
                pt(a, b),
            )]] != 0)) by {
                if image.in_bounds(a, b) && a == x && b == y {
                    assert(pt(a, b) == c);
                }
            }
            assert forall|k: int| #![trigger hole_root[k]] 1 <= k < boundaries@.len() implies forall|a: int, b: int| #[trigger] boundaries@[k].0.pixel(a, b)
                <==> boundaries@[k].0.in_bounds(a, b) && {
                let q = placed(boundaries@[k].1, a, b);
                &&& image.has_color(q, false)
                &&& scanned(q.x as int, q.y as int, x + 1, y as int)
                &&& scan.root@[bg_label(*image, map@, q)] == hole_root[k]
            } by {
                assert(is_hole_root(*image, s0, hole_root[k]));
                assert(boundary_of@[hole_root[k]] == k);
                assert forall|a: int, b: int| #[trigger] boundaries@[k].0.pixel(a, b)
                    <==> boundaries@[k].0.in_bounds(a, b) && {
                    let q = placed(boundaries@[k].1, a, b);
                    &&& image.has_color(q, false)
                    &&& scanned(q.x as int, q.y as int, x + 1, y as int)
                    &&& scan.root@[bg_label(*image, map@, q)] == hole_root[k]
                } by {
                    let q = placed(boundaries@[k].1, a, b);
                    if q == c {
                    } else {
                    }
                }
            }
        }
        return;
    }
    proof {
        assert(boundary < boundaries@.len());
        assert(hole_root[boundary as int] == r);
        assert(is_hole_root(*image, s0, r as int));
        let p = c;
        assert(bg_cluster(*image, s1, map@, r as int).contains(c));
        lemma_hole_cluster(*image, s1, map@, r as int, c);
        assert(s1.rect@[r as int].contains_point(c));
    }
    boundaries[0].0.set_pixel(x, y, true);
    let offset = boundaries[boundary as usize].1;
    let ghost b1 = boundaries@;
    let u = x - offset.x as usize;
    let v = y - offset.y as usize;
    boundaries[boundary as usize].0.set_pixel(u, v, true);
    proof {
        let bi = boundary as int;
        assert(boundaries@[0] == (b1[0].0, b1[0].1)) by {
            assert(boundaries@[0] == b1[0]);
        }
        assert forall|a: int, b: int| #[trigger] boundaries@[0].0.pixel(a, b) == (image.pixel(a, b) || (image.in_bounds(a, b)
            && image.has_color(pt(a, b), false) && scanned(a, b, x + 1, y as int) && boundary_of@[scan.root@[bg_label(
            *image,
            map@,
            pt(a, b),
        )]] != 0)) by {
            assert(boundaries@[0] == b1[0]);
            if image.in_bounds(a, b) && a == x && b == y {
                assert(pt(a, b) == c);
            }
        }
        assert forall|k: int| #![trigger hole_root[k]] 1 <= k < boundaries@.len() implies forall|a: int, b: int| #[trigger] boundaries@[k].0.pixel(a, b)
            <==> boundaries@[k].0.in_bounds(a, b) && {
            let q = placed(boundaries@[k].1, a, b);
            &&& image.has_color(q, false)
            &&& scanned(q.x as int, q.y as int, x + 1, y as int)
            &&& scan.root@[bg_label(*image, map@, q)] == hole_root[k]
        } by {
            assert(is_hole_root(*image, s0, hole_root[k]));
            assert(boundary_of@[hole_root[k]] == k);
            if k != bi {
                assert(boundaries@[k] == b0[k]);
                assert(hole_root[k] != r);
            }
            assert forall|a: int, b: int| #[trigger] boundaries@[k].0.pixel(a, b)
                <==> boundaries@[k].0.in_bounds(a, b) && {
                let q = placed(boundaries@[k].1, a, b);
                &&& image.has_color(q, false)
                &&& scanned(q.x as int, q.y as int, x + 1, y as int)
                &&& scan.root@[bg_label(*image, map@, q)] == hole_root[k]
            } by {
                let q = placed(boundaries@[k].1, a, b);
                if k == bi && boundaries@[k].0.in_bounds(a, b) {
                    assert(boundaries@[k].1 == offset);
                    if a == u && b == v {
                        assert(q == c);
                    }
                    if q == c {
                        assert(a == u && b == v);
                    }
                }
            }
        }
        assert forall|k: int|
            1 <= k < boundaries@.len() implies {
                &&& is_hole_root(*image, *scan, #[trigger] hole_root[k])
                &&& boundary_of@[hole_root[k]] == k
                &&& boundaries@[k].1 == (PointI32 { x: scan.rect@[hole_root[k]].left, y: scan.rect@[hole_root[k]].top })
                &&& boundaries@[k].0.wf()
                &&& boundaries@[k].0.width == scan.rect@[hole_root[k]].width_int()
                &&& boundaries@[k].0.height == scan.rect@[hole_root[k]].height_int()
            } by {
            assert(is_hole_root(*image, s0, hole_root[k]));
            if k != bi {
                assert(boundaries@[k] == b0[k]);
            }
        }
    }
}

/// Without holes, the state stands at every scan position.
proof fn lemma_no_holes(
    image: BinaryImage,
    scan: Scan,
    map: Seq<Label>,
    bs: Seq<(BinaryImage, PointI32)>,
    boundary_of: Seq<Label>,
    hole_root: Seq<int>,
    x: int,
    y: int,
)
    requires
        holes_ok(image, scan, map, bs, boundary_of, hole_root, 0, 0),
        bs.len() == 1,
    ensures
        holes_ok(image, scan, map, bs, boundary_of, hole_root, x, y),
{
    assert forall|l: int| 0 <= l < scan.len() implies #[trigger] boundary_of[l] == 0 by {
        if boundary_of[l] != 0 {
            assert(boundary_of[l] < bs.len());
        }
    }
    assert forall|a: int, b: int| #[trigger] bs[0].0.pixel(a, b) == (image.pixel(a, b) || (image.in_bounds(a, b)
        && image.has_color(pt(a, b), false) && scanned(a, b, x, y) && boundary_of[scan.root@[bg_label(
        image,
        map,
        pt(a, b),
    )]] != 0)) by {
        assert(bs[0].0.pixel(a, b) == image.pixel(a, b));
        if image.in_bounds(a, b) && image.has_color(pt(a, b), false) {
            let l = bg_label(image, map, pt(a, b));
            assert(0 <= l < scan.len());
            assert(0 <= scan.root@[l] < scan.len());
        }
    }
}

proof fn lemma_hole_pixel(
    image: BinaryImage,
    scan: Scan,
    map: Seq<Label>,
    bs: Seq<(BinaryImage, PointI32)>,
    boundary_of: Seq<Label>,
    hole_root: Seq<int>,
    p: PointI32,
)
    requires
        image.wf(),
        image.width <= i32::MAX,
        image.height <= i32::MAX,
        holes_ok(image, scan, map, bs, boundary_of, hole_root, 0, image.height as int),
        image.has_color(p, false),
    ensures
        0 <= bg_label(image, map, p) < scan.len(),
        image.in_hole(p) <==> boundary_of[scan.root@[bg_label(image, map, p)]] != 0,
        boundary_of[scan.root@[bg_label(image, map, p)]] != 0 ==> hole_root[boundary_of[scan.root@[bg_label(
            image,
            map,
            p,
        )]] as int] == scan.root@[bg_label(image, map, p)],
{
    let h = image.height as int;
    let r = scan.root@[bg_label(image, map, p)];
    assert(scanned(p.x as int, p.y as int, 0, h));
    assert(scan.is_root(r));
    assert(bg_cluster(image, scan, map, r).contains(p));
    lemma_hole_cluster(image, scan, map, r, p);
    assert(is_hole_root(image, scan, r) == image.in_hole(p));
    assert(0 <= r < scan.len());
    if boundary_of[r] != 0 {
        assert(hole_root[boundary_of[r] as int] == r);
        assert(is_hole_root(image, scan, hole_root[boundary_of[r] as int]));
    }
    if is_hole_root(image, scan, r) {
        assert(boundary_of[r] != 0);
    }
}

#[verifier::rlimit(30)]
proof fn lemma_hole_image(
    image: BinaryImage,
    scan: Scan,
    map: Seq<Label>,
    bs: Seq<(BinaryImage, PointI32)>,
    boundary_of: Seq<Label>,
    hole_root: Seq<int>,
    i: int,
    p: PointI32,
)
    requires
        image.wf(),
        image.width <= i32::MAX,
        image.height <= i32::MAX,
        holes_ok(image, scan, map, bs, boundary_of, hole_root, 0, image.height as int),
        1 <= i < bs.len(),
        bg_cluster(image, scan, map, hole_root[i]).contains(p),
    ensures
        image.draws_hole(bs[i].0, bs[i].1, p),
{
    let h = image.height as int;
    let r = hole_root[i];
    assert(is_hole_root(image, scan, r));
    lemma_hole_cluster(image, scan, map, r, p);
    let off = bs[i].1;
    assert(BoundingRect {
        left: off.x,
        top: off.y,
        right: (off.x + bs[i].0.width) as i32,
        bottom: (off.y + bs[i].0.height) as i32,
    } == scan.rect@[r]);
    assert(image.has_color(p, false));
    assert(scan.root@[bg_label(image, map, p)] == r);
    assert forall|a: int, b: int| #[trigger] bs[i].0.pixel(a, b)
        <==> bs[i].0.in_bounds(a, b) && image.linked(p, pt(a + off.x, b + off.y), false, false) by {
        let q = placed(off, a, b);
        if bs[i].0.in_bounds(a, b) {
            if image.linked(p, q, false, false) {
                crate::connect::lemma_linked_ends(image, p, q, false, false);
            }
            if image.has_color(q, false) {
                assert(scanned(q.x as int, q.y as int, 0, h));
            }
        }
    }
}

proof fn lemma_hole_image_root(
    image: BinaryImage,
    scan: Scan,
    map: Seq<Label>,
    bs: Seq<(BinaryImage, PointI32)>,
    boundary_of: Seq<Label>,
    hole_root: Seq<int>,
    i: int,
    p: PointI32,
)
    requires
        image.wf(),
        image.width <= i32::MAX,
        image.height <= i32::MAX,
        holes_ok(image, scan, map, bs, boundary_of, hole_root, 0, image.height as int),
        1 <= i < bs.len(),
        image.draws_hole(bs[i].0, bs[i].1, p),
    ensures
        scan.root@[bg_label(image, map, p)] == hole_root[i],
        boundary_of[hole_root[i]] == i,
{
    let h = image.height as int;
    let r = hole_root[i];
    assert(is_hole_root(image, scan, r));
    let p0 = choose|p: PointI32| #[trigger] bg_cluster(image, scan, map, r).contains(p);
    lemma_hole_cluster(image, scan, map, r, p0);
    let off = bs[i].1;
    let a = p0.x - off.x;
    let b = p0.y - off.y;
    assert(scan.rect@[r].contains_point(p0));
    assert(placed(off, a, b) == p0);
    assert(scanned(p0.x as int, p0.y as int, 0, h));
    assert(bs[i].0.pixel(a, b));
    assert(image.linked(p, p0, false, false));
    assert(image.has_color(p, false));
    assert(image.has_color(p0, false));
    assert(scanned(p.x as int, p.y as int, 0, h));
}

/// The hole images that the scan produced, drawn in full.
#[verifier::rlimit(50)]
proof fn lemma_holes_done(
    image: BinaryImage,
    scan: Scan,
    map: Seq<Label>,
    bs: Seq<(BinaryImage, PointI32)>,
    boundary_of: Seq<Label>,
    hole_root: Seq<int>,
)
    requires
        image.wf(),
        image.width <= i32::MAX,
        image.height <= i32::MAX,
        holes_ok(image, scan, map, bs, boundary_of, hole_root, 0, image.height as int),
    ensures
        boundaries_of(image, bs),
{
    let h = image.height as int;
    assert forall|a: int, b: int| #[trigger] bs[0].0.pixel(a, b) == (image.pixel(a, b) || (image.in_bounds(a, b)
        && image.in_hole(pt(a, b)))) by {
        if image.in_bounds(a, b) && image.has_color(pt(a, b), false) {
            lemma_hole_pixel(image, scan, map, bs, boundary_of, hole_root, pt(a, b));
        }
    }
    assert(image.fills_holes(bs[0].0));
    assert forall|i: int| 1 <= i < bs.len() implies #[trigger] draws_some_hole(image, bs[i]) by {
        let r = hole_root[i];
        assert(is_hole_root(image, scan, r));
        let p = choose|p: PointI32| #[trigger] bg_cluster(image, scan, map, r).contains(p);
        lemma_hole_image(image, scan, map, bs, boundary_of, hole_root, i, p);
        assert(image.draws_hole(bs[i].0, bs[i].1, p));
    }
    assert forall|i: int, j: int, p: PointI32, q: PointI32|
        1 <= i < bs.len() && 1 <= j < bs.len() && i != j && #[trigger] image.draws_hole(bs[i].0, bs[i].1, p)
            && #[trigger] image.draws_hole(bs[j].0, bs[j].1, q) implies !image.linked(p, q, false, false) by {
        lemma_hole_image_root(image, scan, map, bs, boundary_of, hole_root, i, p);
        lemma_hole_image_root(image, scan, map, bs, boundary_of, hole_root, j, q);
        assert(image.has_color(p, false) && image.has_color(q, false));
    }
    assert forall|p: PointI32| #[trigger] image.in_hole(p) implies exists|i: int|
        1 <= i < bs.len() && image.draws_hole(bs[i].0, bs[i].1, p) by {
        lemma_hole_pixel(image, scan, map, bs, boundary_of, hole_root, p);
        let r = scan.root@[bg_label(image, map, p)];
        let i = boundary_of[r] as int;
        assert(scanned(p.x as int, p.y as int, 0, h));
        assert(bg_cluster(image, scan, map, hole_root[i]).contains(p));
        lemma_hole_image(image, scan, map, bs, boundary_of, hole_root, i, p);
    }
    assert(bs.len() >= 1);
    assert(bs[0].1 == (PointI32 { x: 0, y: 0 }));

}

/// The image and offset `b` draw some hole of `image`.
pub open spec fn draws_some_hole(image: BinaryImage, b: (BinaryImage, PointI32)) -> bool {
    exists|p: PointI32| image.draws_hole(b.0, b.1, p)
}

/// `bs` holds the images whose boundaries make up the paths of `image`: the image with its
/// holes filled, placed at the origin, then one image for each hole, no two for the same.
pub open spec fn boundaries_of(image: BinaryImage, bs: Seq<(BinaryImage, PointI32)>) -> bool {
    &&& bs.len() >= 1
    &&& bs[0].1 == (PointI32 { x: 0, y: 0 })
    &&& image.fills_holes(bs[0].0)
    &&& forall|i: int| 1 <= i < bs.len() ==> #[trigger] draws_some_hole(image, bs[i])
    &&& forall|i: int, j: int, p: PointI32, q: PointI32|
        1 <= i < bs.len() && 1 <= j < bs.len() && i != j && #[trigger] image.draws_hole(bs[i].0, bs[i].1, p)
            && #[trigger] image.draws_hole(bs[j].0, bs[j].1, q) ==> !image.linked(p, q, false, false)
    &&& forall|p: PointI32| #[trigger] image.in_hole(p) ==> exists|i: int|
        1 <= i < bs.len() && image.draws_hole(bs[i].0, bs[i].1, p)
}

/// The images whose boundaries make up the paths of `image`: the image itself with its
/// holes filled in, followed by each hole, cropped to its bounding rect.
///
/// A hole is a background cluster that does not touch the border of the image.
#[verifier::rlimit(30)]
pub fn image_boundaries(image: &BinaryImage) -> (boundaries: Vec<(BinaryImage, PointI32)>)
    requires
        image.wf(),
        image.width <= i32::MAX,
        image.height <= i32::MAX,
        image.background_starts() <= u32::MAX,
    ensures
        boundaries_of(*image, boundaries@),
        holes_in_scan_order(*image, boundaries@),
{
    let (mut scan, map) = cluster_background(image);
    // Where a hole lands in `boundaries`, by label; 0 for a cluster that is not a hole.
    // The holes are drawn in one pass over the label map below, rather than a pass over
    // each hole's rect: holes nest, so an outer hole's rect can span most of the image and
    // walking rects would cover the same pixels again and again.
    let (mut boundaries, boundary_of, Ghost(hole_root)) = setup_holes(image, &scan, &map);
    let ghost s0 = scan;
    if boundaries.len() > 1 {
        let mut y: usize = 0;
        while y < image.height
            invariant
                image.wf(),
                image.width <= i32::MAX,
                image.height <= i32::MAX,
                y <= image.height,
                holes_ok(*image, scan, map@, boundaries@, boundary_of@, hole_root, 0, y as int),
                scan.opened_in_order(*image, map@),
                scan.root@ == s0.root@,
                scan.len() == s0.len(),
            decreases image.height - y,
        {
            let mut x: usize = 0;
            while x < image.width
                invariant
                    image.wf(),
                    image.width <= i32::MAX,
                    image.height <= i32::MAX,
                    y < image.height,
                    x <= image.width,
                    holes_ok(*image, scan, map@, boundaries@, boundary_of@, hole_root, x as int, y as int),
                    scan.opened_in_order(*image, map@),
                    scan.root@ == s0.root@,
                    scan.len() == s0.len(),
                decreases image.width - x,
            {
                fill_pixel(image, x, y, &mut scan, &map, &mut boundaries, &boundary_of, Ghost(hole_root));
                x = x + 1;
            }
            proof {
                lemma_holes_next_row(*image, scan, map@, boundaries@, boundary_of@, hole_root, y as int);
            }
            y = y + 1;
        }
    } else {
        proof {
            lemma_no_holes(*image, scan, map@, boundaries@, boundary_of@, hole_root, 0, image.height as int);
        }
    }
    proof {
        lemma_holes_done(*image, scan, map@, boundaries@, boundary_of@, hole_root);
        lemma_holes_in_order(*image, s0, scan, map@, boundaries@, boundary_of@, hole_root);
    }
    boundaries
}

/// The hole drawn by `a` has a pixel that comes before every pixel of the hole drawn by `b`.
pub open spec fn hole_before(image: BinaryImage, a: (BinaryImage, PointI32), b: (BinaryImage, PointI32)) -> bool {
    exists|p: PointI32|
        #[trigger] image.draws_hole(a.0, a.1, p) && forall|q: PointI32| #[trigger] image.draws_hole(b.0, b.1, q) ==> scan_before(p, q)
}

/// The holes come in the order of their top left pixels: each hole has a pixel that comes
/// before every pixel of each hole after it.
pub open spec fn holes_in_scan_order(image: BinaryImage, bs: Seq<(BinaryImage, PointI32)>) -> bool {
    forall|i: int, j: int| 1 <= i < j < bs.len() ==> #[trigger] hole_before(image, bs[i], bs[j])
}

/// The holes set up in the order of the first labels of their roots come in the order of
/// their top left pixels.
proof fn lemma_holes_in_order(
    image: BinaryImage,
    s0: Scan,
    scan: Scan,
    map: Seq<Label>,
    bs: Seq<(BinaryImage, PointI32)>,
    boundary_of: Seq<Label>,
    hole_root: Seq<int>,
)
    requires
        image.wf(),
        image.width <= i32::MAX,
        image.height <= i32::MAX,
        holes_ok(image, scan, map, bs, boundary_of, hole_root, 0, image.height as int),
        scan.opened_in_order(image, map),
        s0.wf(),
        s0.root@ == scan.root@,
        s0.len() == scan.len(),
        forall|i: int, j: int|
            1 <= i < j < bs.len() ==> s0.first_label(#[trigger] hole_root[i]) < s0.first_label(#[trigger] hole_root[j]),
    ensures
        holes_in_scan_order(image, bs),
{
    let h = image.height as int;
    assert forall|i: int, j: int| 1 <= i < j < bs.len() implies #[trigger] hole_before(image, bs[i], bs[j]) by {
        let ri = hole_root[i];
        let rj = hole_root[j];
        assert(is_hole_root(image, scan, ri) && is_hole_root(image, scan, rj));
        assert(scan.root@[ri] == ri && scan.root@[rj] == rj);
        assert(s0.is_root(ri) && s0.is_root(rj));
        s0.lemma_first_label_exists(ri);
        s0.lemma_first_label_exists(rj);
        let ei = s0.first_label(ri);
        let ej = s0.first_label(rj);
        assert(ei < ej);
        let p = scan.start@[ei];
        assert(image.has_color(p, false) && bg_label(image, map, p) == ei);
        assert(scanned(p.x as int, p.y as int, 0, h));
        assert(bg_cluster(image, scan, map, ri).contains(p));
        lemma_hole_image(image, scan, map, bs, boundary_of, hole_root, i, p);
        assert(scan_before(scan.start@[ei], scan.start@[ej]));
        assert forall|q: PointI32| #[trigger] image.draws_hole(bs[j].0, bs[j].1, q) implies scan_before(p, q) by {
            lemma_hole_image_root(image, scan, map, bs, boundary_of, hole_root, j, q);
            let m = bg_label(image, map, q);
            assert(image.has_color(q, false));
            assert(0 <= m < scan.len());
            assert(scan.root@[m] == rj);
            if m < ej {
                assert(s0.root@[m] != rj);
            }
            if ej < m {
                assert(scan_before(scan.start@[ej], scan.start@[m]));
            }
            assert(scan.start@[m] == q || scan_before(scan.start@[m], q));
        }
        assert(image.draws_hole(bs[i].0, bs[i].1, p));
    }
}

proof fn lemma_holes_next_row(
    image: BinaryImage,
    scan: Scan,
    map: Seq<Label>,
    bs: Seq<(BinaryImage, PointI32)>,
    boundary_of: Seq<Label>,
    hole_root: Seq<int>,
    y: int,
)
    requires
        image.wf(),
        holes_ok(image, scan, map, bs, boundary_of, hole_root, image.width as int, y),
    ensures
        holes_ok(image, scan, map, bs, boundary_of, hole_root, 0, y + 1),
{
    let w = image.width as int;
    assert forall|a: int, b: int| #[trigger] bs[0].0.pixel(a, b) == (image.pixel(a, b) || (image.in_bounds(a, b)
        && image.has_color(pt(a, b), false) && scanned(a, b, 0, y + 1) && boundary_of[scan.root@[bg_label(
        image,
        map,
        pt(a, b),
    )]] != 0)) by {
        assert(bs[0].0.pixel(a, b) == (image.pixel(a, b) || (image.in_bounds(a, b) && image.has_color(pt(a, b), false)
            && scanned(a, b, w, y) && boundary_of[scan.root@[bg_label(image, map, pt(a, b))]] != 0)));
    }
    assert forall|k: int| #![trigger hole_root[k]] 1 <= k < bs.len() implies forall|a: int, b: int| #[trigger] bs[k].0.pixel(a, b)
        <==> bs[k].0.in_bounds(a, b) && {
        let q = placed(bs[k].1, a, b);
        &&& image.has_color(q, false)
        &&& scanned(q.x as int, q.y as int, 0, y + 1)
        &&& scan.root@[bg_label(image, map, q)] == hole_root[k]
    } by {
        assert(is_hole_root(image, scan, hole_root[k]));
        assert forall|a: int, b: int| #[trigger] bs[k].0.pixel(a, b) <==> bs[k].0.in_bounds(a, b) && {
            let q = placed(bs[k].1, a, b);
            &&& image.has_color(q, false)
            &&& scanned(q.x as int, q.y as int, 0, y + 1)
            &&& scan.root@[bg_label(image, map, q)] == hole_root[k]
        } by {
            let q = placed(bs[k].1, a, b);
            if image.has_color(q, false) {
                assert(scanned(q.x as int, q.y as int, 0, y + 1) == scanned(q.x as int, q.y as int, w, y));
            }
        }
    }
}

impl BinaryImage {
    /// `self` is `image` with every pixel flipped.
    pub open spec fn is_negative_of(self, image: BinaryImage) -> bool {
        &&& self.width == image.width
        &&& self.height == image.height
        &&& forall|a: int, b: int| image.in_bounds(a, b) ==> #[trigger] self.pixel(a, b) == !image.pixel(a, b)
    }
}

/// Paths of set pixels of the negative are paths of unset pixels of the image.
pub proof fn lemma_negative_linked(image: BinaryImage, neg: BinaryImage, p: PointI32, q: PointI32)
    requires
        neg.is_negative_of(image),
    ensures
        neg.linked(p, q, true, false) <==> image.linked(p, q, false, false),
{
    assert forall|r: PointI32| #[trigger] neg.has_color(r, true) == image.has_color(r, false) by {
        if image.in_bounds(r.x as int, r.y as int) {
            assert(neg.pixel(r.x as int, r.y as int) == !image.pixel(r.x as int, r.y as int));
        }
    }
    if neg.linked(p, q, true, false) {
        let path = choose|path: Seq<PointI32>|
            #[trigger] neg.is_path(path, true, false) && path[0] == p && path.last() == q;
        assert forall|i: int| 0 <= i < path.len() implies image.has_color(#[trigger] path[i], false) by {
            assert(neg.has_color(path[i], true));
        }
        assert(image.is_path(path, false, false));
    }
    if image.linked(p, q, false, false) {
        let path = choose|path: Seq<PointI32>|
            #[trigger] image.is_path(path, false, false) && path[0] == p && path.last() == q;
        assert forall|i: int| 0 <= i < path.len() implies neg.has_color(#[trigger] path[i], true) by {
            assert(image.has_color(path[i], false));
        }
        assert(neg.is_path(path, true, false));
    }
}

#[verifier::rlimit(30)]
proof fn lemma_negative_cluster(
    image: BinaryImage,
    neg: BinaryImage,
    scan: Scan,
    map: Seq<Label>,
    cs: Seq<Cluster>,
    i: int,
    k: int,
)
    requires
        neg.is_negative_of(image),
        background_of(image, scan, map),
        clusters_of(cs, neg, true, false),
        0 <= i < cs.len(),
        0 <= k < cs[i].points@.len(),
    ensures
        scan.is_root(scan.root@[bg_label(image, map, cs[i].points@[k])]),
        cs[i].point_set() == bg_cluster(image, scan, map, scan.root@[bg_label(image, map, cs[i].points@[k])]),
        cs[i].rect == scan.rect@[scan.root@[bg_label(image, map, cs[i].points@[k])]],
        cs[i].points@.len() == scan.size@[scan.root@[bg_label(image, map, cs[i].points@[k])]],
{
    let p = cs[i].points@[k];
    assert(neg.has_color(p, true));
    assert(neg.pixel(p.x as int, p.y as int) == !image.pixel(p.x as int, p.y as int));
    assert(image.has_color(p, false));
    let r = scan.root@[bg_label(image, map, p)];
    assert(0 <= bg_label(image, map, p) < scan.len());
    assert(scan.is_root(r));
    let cl = bg_cluster(image, scan, map, r);
    assert forall|q: PointI32| cs[i].point_set().contains(q) <==> cl.contains(q) by {
        lemma_negative_linked(image, neg, p, q);
        if cs[i].point_set().contains(q) {
            let l = choose|l: int| 0 <= l < cs[i].points@.len() && cs[i].points@[l] == q;
            assert(neg.linked(cs[i].points@[k], cs[i].points@[l], true, false));
            crate::connect::lemma_linked_ends(neg, p, q, true, false);
            assert(image.has_color(q, false)) by {
                assert(neg.pixel(q.x as int, q.y as int) == !image.pixel(q.x as int, q.y as int));
            }
        }
        if cl.contains(q) {
            assert(image.has_color(q, false));
            assert(image.linked(p, q, false, false));
            crate::connect::lemma_linked_ends(neg, p, q, true, false);
            let j = choose|j: int| 0 <= j < cs.len() && #[trigger] cs[j].points@.contains(q);
            let l = choose|l: int| 0 <= l < cs[j].points@.len() && cs[j].points@[l] == q;
            assert(neg.linked(cs[i].points@[k], cs[j].points@[l], true, false));
        }
    }
    assert(cs[i].point_set() =~= cl);
    assert(cs[i].wf());
    assert(cl.contains(p)) by {
        assert(cs[i].point_set().contains(p));
    }
    lemma_bounds_unique(cs[i].rect, scan.rect@[r], cl, p);
    cs[i].points@.unique_seq_to_set();
}

/// `c` holds exactly the pixels of the background cluster with root `r`, with its rect
/// and its size.
pub open spec fn is_background_cluster(c: Cluster, image: BinaryImage, scan: Scan, map: Seq<Label>, r: int) -> bool {
    &&& c.point_set() == bg_cluster(image, scan, map, r)
    &&& c.rect == scan.rect@[r]
    &&& c.points@.len() == scan.size@[r]
}

/// `c` is one of the background clusters.
pub open spec fn has_background_root(c: Cluster, image: BinaryImage, scan: Scan, map: Seq<Label>) -> bool {
    exists|r: int| scan.is_root(r) && #[trigger] is_background_cluster(c, image, scan, map, r)
}

/// The clusters of the background of an image are the clusters, edges only, of its
/// negative, with the same rects and sizes: each cluster of one is a cluster of the other.
pub proof fn lemma_background_is_negative_clusters(
    image: BinaryImage,
    neg: BinaryImage,
    scan: Scan,
    map: Seq<Label>,
    cs: Seq<Cluster>,
)
    requires
        neg.is_negative_of(image),
        background_of(image, scan, map),
        clusters_of(cs, neg, true, false),
    ensures
        forall|r: int|
            #[trigger] scan.is_root(r) ==> exists|i: int|
                0 <= i < cs.len() && #[trigger] is_background_cluster(cs[i], image, scan, map, r),
        forall|i: int|
            0 <= i < cs.len() ==> #[trigger] has_background_root(cs[i], image, scan, map),
{
    assert forall|r: int| #[trigger] scan.is_root(r) implies exists|i: int|
        0 <= i < cs.len() && #[trigger] is_background_cluster(cs[i], image, scan, map, r) by {
        let p = choose|p: PointI32| #[trigger] bg_cluster(image, scan, map, r).contains(p);
        assert(image.has_color(p, false));
        assert(neg.has_color(p, true)) by {
            assert(neg.pixel(p.x as int, p.y as int) == !image.pixel(p.x as int, p.y as int));
        }
        let i = choose|i: int| 0 <= i < cs.len() && #[trigger] cs[i].points@.contains(p);
        let k = choose|k: int| 0 <= k < cs[i].points@.len() && cs[i].points@[k] == p;
        lemma_negative_cluster(image, neg, scan, map, cs, i, k);
        assert(is_background_cluster(cs[i], image, scan, map, r));
    }
    assert forall|i: int| 0 <= i < cs.len() implies #[trigger] has_background_root(cs[i], image, scan, map) by {
        assert(cs[i].points@.len() > 0);
        lemma_negative_cluster(image, neg, scan, map, cs, i, 0);
        let r = scan.root@[bg_label(image, map, cs[i].points@[0])];
        assert(scan.is_root(r) && is_background_cluster(cs[i], image, scan, map, r));
    }
}

/// `p` is the top left pixel of `s`: the first of its pixels in scan order.
pub open spec fn first_in(s: Set<PointI32>, p: PointI32) -> bool {
    &&& s.contains(p)
    &&& forall|q: PointI32| #[trigger] s.contains(q) ==> q == p || scan_before(p, q)
}

/// `s` has a top left pixel.
pub open spec fn has_first(s: Set<PointI32>) -> bool {
    exists|p: PointI32| #[trigger] first_in(s, p)
}

/// The first label of a background cluster was opened at its top left pixel.
pub proof fn lemma_first_label_opens_cluster(image: BinaryImage, scan: Scan, map: Seq<Label>, r: int)
    requires
        background_of(image, scan, map),
        scan.opened_in_order(image, map),
        scan.is_root(r),
    ensures
        first_in(bg_cluster(image, scan, map, r), scan.start@[scan.first_label(r)]),
{
    let h = image.height as int;
    scan.lemma_first_label_exists(r);
    let e = scan.first_label(r);
    let p = scan.start@[e];
    assert(image.has_color(p, false) && bg_label(image, map, p) == e);
    assert(scanned(p.x as int, p.y as int, 0, h));
    assert(bg_cluster(image, scan, map, r).contains(p));
    assert forall|q: PointI32| #[trigger] bg_cluster(image, scan, map, r).contains(q) implies q == p || scan_before(p, q) by {
        let m = bg_label(image, map, q);
        assert(image.has_color(q, false));
        assert(0 <= m < scan.len());
        if m < e {
            assert(scan.root@[m] != r);
        }
        if e < m {
            assert(scan_before(scan.start@[e], scan.start@[m]));
        }
        assert(scan.start@[m] == q || scan_before(scan.start@[m], q));
    }
}

/// `Scan::clusters` lists the background clusters in the order of their top left pixels:
/// each listed cluster has a top left pixel, and that of a cluster listed earlier comes
/// first in scan order.
pub proof fn lemma_clusters_in_top_left_order(
    image: BinaryImage,
    scan: Scan,
    map: Seq<Label>,
    out: Seq<(Label, BoundingRect)>,
)
    requires
        background_of(image, scan, map),
        scan.opened_in_order(image, map),
        scan.lists_clusters(out),
    ensures
        forall|i: int| 0 <= i < out.len() ==> has_first(bg_cluster(image, scan, map, #[trigger] out[i].0 as int)),
        forall|i: int, j: int, p: PointI32, q: PointI32|
            0 <= i < j < out.len() && #[trigger] first_in(bg_cluster(image, scan, map, out[i].0 as int), p)
                && #[trigger] first_in(bg_cluster(image, scan, map, out[j].0 as int), q) ==> scan_before(p, q),
{
    assert forall|i: int| 0 <= i < out.len() implies has_first(bg_cluster(image, scan, map, #[trigger] out[i].0 as int)) by {
        let r = out[i].0 as int;
        lemma_first_label_opens_cluster(image, scan, map, r);
        assert(first_in(bg_cluster(image, scan, map, r), scan.start@[scan.first_label(r)]));
    }
    assert forall|i: int, j: int, p: PointI32, q: PointI32|
        0 <= i < j < out.len() && #[trigger] first_in(bg_cluster(image, scan, map, out[i].0 as int), p)
            && #[trigger] first_in(bg_cluster(image, scan, map, out[j].0 as int), q) implies scan_before(p, q) by {
        let ri = out[i].0 as int;
        let rj = out[j].0 as int;
        lemma_first_label_opens_cluster(image, scan, map, ri);
        lemma_first_label_opens_cluster(image, scan, map, rj);
        let pi = scan.start@[scan.first_label(ri)];
        let pj = scan.start@[scan.first_label(rj)];
        assert(bg_cluster(image, scan, map, ri).contains(pi));
        assert(bg_cluster(image, scan, map, rj).contains(pj));
        assert(p == pi);
        assert(q == pj);
        scan.lemma_first_label_exists(ri);
        scan.lemma_first_label_exists(rj);
        assert(scan.first_label(ri) < scan.first_label(rj));
        assert(scan_before(scan.start@[scan.first_label(ri)], scan.start@[scan.first_label(rj)]));
    }
}

/// Two clusters of one image that share a pixel are the same one.
proof fn lemma_clusters_share_pixel(img: BinaryImage, cs: Seq<Cluster>, k1: int, k2: int, p: PointI32)
    requires
        clusters_of(cs, img, true, false),
        0 <= k1 < cs.len(),
        0 <= k2 < cs.len(),
        cs[k1].point_set().contains(p),
        cs[k2].point_set().contains(p),
    ensures
        k1 == k2,
{
    let a = choose|a: int| 0 <= a < cs[k1].points@.len() && cs[k1].points@[a] == p;
    let b = choose|b: int| 0 <= b < cs[k2].points@.len() && cs[k2].points@[b] == p;
    assert(img.has_color(cs[k1].points@[a], true));
    lemma_linked_refl(img, p, true, false);
    assert(img.linked(cs[k1].points@[a], cs[k2].points@[b], true, false));
}

/// Some cluster of `cs` holds the background cluster of root `r`.
pub open spec fn matches_some_cluster(image: BinaryImage, scan: Scan, map: Seq<Label>, cs: Seq<Cluster>, r: int) -> bool {
    exists|k: int| 0 <= k < cs.len() && #[trigger] is_background_cluster(cs[k], image, scan, map, r)
}

/// `c` holds the background cluster of some root that `out` lists.
pub open spec fn matches_some_root(
    image: BinaryImage,
    scan: Scan,
    map: Seq<Label>,
    out: Seq<(Label, BoundingRect)>,
    c: Cluster,
) -> bool {
    exists|i: int| 0 <= i < out.len() && #[trigger] is_background_cluster(c, image, scan, map, out[i].0 as int)
}

/// Each listed root matches a cluster of the negative, and each cluster of the negative
/// matches a listed root.
#[verifier::spinoff_prover]
proof fn lemma_listed_match(
    image: BinaryImage,
    neg: BinaryImage,
    scan: Scan,
    map: Seq<Label>,
    out: Seq<(Label, BoundingRect)>,
    cs: Seq<Cluster>,
)
    requires
        neg.is_negative_of(image),
        background_of(image, scan, map),
        scan.lists_clusters(out),
        clusters_of(cs, neg, true, false),
    ensures
        forall|i: int| 0 <= i < out.len() ==> #[trigger] matches_some_cluster(image, scan, map, cs, out[i].0 as int),
        forall|k: int| 0 <= k < cs.len() ==> #[trigger] matches_some_root(image, scan, map, out, cs[k]),
{
    lemma_background_is_negative_clusters(image, neg, scan, map, cs);
    assert forall|i: int| 0 <= i < out.len() implies #[trigger] matches_some_cluster(image, scan, map, cs, out[i].0 as int) by {
        assert(scan.is_root(out[i].0 as int));
    }
    assert forall|k: int| 0 <= k < cs.len() implies #[trigger] matches_some_root(image, scan, map, out, cs[k]) by {
        assert(has_background_root(cs[k], image, scan, map));
        let r = choose|r: int| scan.is_root(r) && #[trigger] is_background_cluster(cs[k], image, scan, map, r);
        let i = choose|i: int| 0 <= i < out.len() && out[i].0 == r;
        assert(is_background_cluster(cs[k], image, scan, map, out[i].0 as int));
    }
}

/// No more roots are listed than the negative has clusters.
#[verifier::spinoff_prover]
proof fn lemma_listed_at_most(
    image: BinaryImage,
    scan: Scan,
    map: Seq<Label>,
    out: Seq<(Label, BoundingRect)>,
    cs: Seq<Cluster>,
)
    requires
        scan.lists_clusters(out),
        forall|k: int| 0 <= k < cs.len() ==> (#[trigger] cs[k]).points@.len() > 0,
        forall|i: int| 0 <= i < out.len() ==> #[trigger] matches_some_cluster(image, scan, map, cs, out[i].0 as int),
    ensures
        out.len() <= cs.len(),
{
    let f = |i: int| choose|k: int| 0 <= k < cs.len() && #[trigger] is_background_cluster(cs[k], image, scan, map, out[i].0 as int);
    let xs = vstd::set_lib::set_int_range(0, out.len() as int);
    let ys = vstd::set_lib::set_int_range(0, cs.len() as int);
    assert forall|i: int| xs.contains(i) implies 0 <= #[trigger] f(i) < cs.len() && is_background_cluster(
        cs[f(i)],
        image,
        scan,
        map,
        out[i].0 as int,
    ) by {
        assert(matches_some_cluster(image, scan, map, cs, out[i].0 as int));
    }
    assert(vstd::relations::injective_on(f, xs)) by {
        assert forall|i1: int, i2: int| xs.contains(i1) && xs.contains(i2) && #[trigger] f(i1) == #[trigger] f(i2)
            implies i1 == i2 by {
            let k = f(i1);
            let r1 = out[i1].0 as int;
            let r2 = out[i2].0 as int;
            let p = cs[k].points@[0];
            assert(cs[k].point_set().contains(p));
            assert(bg_cluster(image, scan, map, r1).contains(p));
            assert(bg_cluster(image, scan, map, r2).contains(p));
            if i1 < i2 {
                assert(scan.first_label(out[i1].0 as int) < scan.first_label(out[i2].0 as int));
            } else if i2 < i1 {
                assert(scan.first_label(out[i2].0 as int) < scan.first_label(out[i1].0 as int));
            }
        }
    }
    vstd::set_lib::lemma_int_range(0, out.len() as int);
    vstd::set_lib::lemma_int_range(0, cs.len() as int);
    vstd::set_lib::lemma_map_size(xs, xs.map(f), f);
    assert(xs.map(f).subset_of(ys));
    vstd::set_lib::lemma_len_subset(xs.map(f), ys);
}

/// The negative has no more clusters than roots are listed.
#[verifier::spinoff_prover]
proof fn lemma_listed_at_least(
    image: BinaryImage,
    neg: BinaryImage,
    scan: Scan,
    map: Seq<Label>,
    out: Seq<(Label, BoundingRect)>,
    cs: Seq<Cluster>,
)
    requires
        clusters_of(cs, neg, true, false),
        forall|k: int| 0 <= k < cs.len() ==> #[trigger] matches_some_root(image, scan, map, out, cs[k]),
    ensures
        cs.len() <= out.len(),
{
    let g = |k: int| choose|i: int| 0 <= i < out.len() && #[trigger] is_background_cluster(cs[k], image, scan, map, out[i].0 as int);
    let xs = vstd::set_lib::set_int_range(0, out.len() as int);
    let ys = vstd::set_lib::set_int_range(0, cs.len() as int);
    assert forall|k: int| ys.contains(k) implies 0 <= #[trigger] g(k) < out.len() && is_background_cluster(
        cs[k],
        image,
        scan,
        map,
        out[g(k)].0 as int,
    ) by {
        assert(matches_some_root(image, scan, map, out, cs[k]));
    }
    assert(vstd::relations::injective_on(g, ys)) by {
        assert forall|k1: int, k2: int| ys.contains(k1) && ys.contains(k2) && #[trigger] g(k1) == #[trigger] g(k2)
            implies k1 == k2 by {
            let r = out[g(k1)].0 as int;
            assert(cs[k1].point_set() == bg_cluster(image, scan, map, r));
            assert(cs[k2].point_set() == bg_cluster(image, scan, map, r));
            assert(cs[k1].points@.len() > 0);
            let p = cs[k1].points@[0];
            assert(cs[k1].point_set().contains(p));
            lemma_clusters_share_pixel(neg, cs, k1, k2, p);
        }
    }
    vstd::set_lib::lemma_int_range(0, out.len() as int);
    vstd::set_lib::lemma_int_range(0, cs.len() as int);
    vstd::set_lib::lemma_map_size(ys, ys.map(g), g);
    assert(ys.map(g).subset_of(xs));
    vstd::set_lib::lemma_len_subset(ys.map(g), xs);
}

/// The clusters that `Scan::clusters` lists are the clusters, edges only, of the negative
/// image, with the same pixels, rects and sizes, each matched by exactly one: the same
/// clusters as clustering the negative gives, listed in the order of their top left pixels.
pub proof fn lemma_listed_clusters_are_negative_clusters(
    image: BinaryImage,
    neg: BinaryImage,
    scan: Scan,
    map: Seq<Label>,
    out: Seq<(Label, BoundingRect)>,
    cs: Seq<Cluster>,
)
    requires
        neg.is_negative_of(image),
        background_of(image, scan, map),
        scan.lists_clusters(out),
        clusters_of(cs, neg, true, false),
    ensures
        out.len() == cs.len(),
        forall|i: int| 0 <= i < out.len() ==> #[trigger] matches_some_cluster(image, scan, map, cs, out[i].0 as int),
        forall|k: int| 0 <= k < cs.len() ==> #[trigger] matches_some_root(image, scan, map, out, cs[k]),
{
    lemma_listed_match(image, neg, scan, map, out, cs);
    lemma_listed_at_most(image, scan, map, out, cs);
    lemma_listed_at_least(image, neg, scan, map, out, cs);
}

} // verus!
