//! Clusters of binary image pixels.

use vstd::prelude::*;
use crate::point::PointI32;
use crate::bound::{BoundingRect, lemma_bounds_insert, lemma_bounds_union, lemma_bounds_translate};
use crate::image::BinaryImage;

verus! {

/// A cluster of binary image pixels.
pub struct Cluster {
    /// Points are in absolute coordinate, i.e. (0, 0) is the coordinate of the left-top corner of the raw frame.
    pub points: Vec<PointI32>,
    pub rect: BoundingRect,
}

/// A collection of clusters.
pub struct Clusters {
    pub clusters: Vec<Cluster>,
    pub rect: BoundingRect,
}

impl Default for Cluster {
    fn default() -> (c: Self)
        ensures
            c.points@ == Seq::<PointI32>::empty(),
            c.rect == BoundingRect::zero(),
    {
        Cluster { points: Vec::new(), rect: BoundingRect::default() }
    }
}

impl Default for Clusters {
    fn default() -> (c: Self)
        ensures
            c.clusters@ == Seq::<Cluster>::empty(),
            c.rect == BoundingRect::zero(),
    {
        Clusters { clusters: Vec::new(), rect: BoundingRect::default() }
    }
}

impl Cluster {
    /// The points of the cluster, as a set.
    pub open spec fn point_set(self) -> Set<PointI32> {
        self.points@.to_set()
    }

    /// The rect of the cluster is the bounding rect of its points.
    pub open spec fn wf(self) -> bool {
        self.rect.bounds(self.point_set())
    }

    /// Whether `to_binary_image` can draw the cluster: its rect holds all its points and
    /// has a size that fits in memory.
    pub open spec fn drawable(self) -> bool {
        &&& forall|i: int| 0 <= i < self.points@.len() ==> self.rect.contains_point(#[trigger] self.points@[i])
        &&& 0 <= self.rect.width_int()
        &&& 0 <= self.rect.height_int()
        &&& self.rect.width_int() <= i32::MAX
        &&& self.rect.height_int() <= i32::MAX
        &&& self.rect.width_int() * self.rect.height_int() <= usize::MAX
    }

    /// The points of the cluster, in order.
    pub fn iter(&self) -> (it: std::slice::Iter<'_, PointI32>)
        ensures
            vstd::std_specs::slice::into_iter_elts(it) == self.points@,
    {
        let s = self.points.as_slice();
        let it = s.iter();
        proof {
            assert(s@.as_ref().unref() =~= self.points@);
        }
        it
    }

    /// Appends `pos` and grows the rect to cover it.
    pub fn add(&mut self, pos: PointI32)
        requires
            pos.x < i32::MAX,
            pos.y < i32::MAX,
        ensures
            final(self).points@ == old(self).points@.push(pos),
            final(self).rect == old(self).rect.with_point(pos.x, pos.y),
            old(self).wf() ==> final(self).wf(),
    {
        proof {
            if self.wf() {
                lemma_bounds_insert(self.rect, self.point_set(), pos);
                self.points@.lemma_push_to_set_commute(pos);
            }
        }
        self.points.push(pos);
        self.rect.add_x_y(pos.x, pos.y);
    }

    /// The point of the cluster drawn at `(x, y)` of its image.
    pub open spec fn point_at(self, x: int, y: int) -> PointI32 {
        PointI32 { x: (x + self.rect.left) as i32, y: (y + self.rect.top) as i32 }
    }

    /// `image` draws the cluster: it is the size of the rect, its top left pixel stands for
    /// the top left corner of the rect, and a pixel is set where the cluster has a point.
    pub open spec fn draws(self, image: BinaryImage) -> bool {
        &&& image.wf()
        &&& image.width == self.rect.width_int()
        &&& image.height == self.rect.height_int()
        &&& forall|x: int, y: int| #[trigger] image.pixel(x, y)
            <==> image.in_bounds(x, y) && self.point_set().contains(self.point_at(x, y))
    }

    /// The cluster drawn in an image the size of its rect.
    #[verifier::rlimit(30)]
    pub fn to_binary_image(&self) -> (image: BinaryImage)
        requires
            self.drawable(),
        ensures
            self.draws(image),
    {
        let w = self.rect.width();
        let h = self.rect.height();
        let mut image = BinaryImage::new_w_h(w as usize, h as usize);
        let mut i: usize = 0;
        while i < self.points.len()
            invariant
                self.drawable(),
                i <= self.points@.len(),
                image.wf(),
                image.width == self.rect.width_int(),
                image.height == self.rect.height_int(),
                forall|x: int, y: int| #[trigger] image.pixel(x, y)
                    <==> image.in_bounds(x, y) && self.points@.take(i as int).contains(self.point_at(x, y)),
            decreases self.points@.len() - i,
        {
            let p = self.points[i];
            assert(self.rect.contains_point(self.points@[i as int]));
            let ghost prev = image;
            image.set_pixel((p.x - self.rect.left) as usize, (p.y - self.rect.top) as usize, true);
            proof {
                let t0 = self.points@.take(i as int);
                let t1 = self.points@.take(i + 1);
                assert(t1 =~= t0.push(p));
                assert forall|x: int, y: int| #[trigger] image.pixel(x, y)
                    <==> image.in_bounds(x, y) && t1.contains(self.point_at(x, y)) by {
                    if image.in_bounds(x, y) {
                        if t1.contains(self.point_at(x, y)) {
                            let j = choose|j: int| 0 <= j < t1.len() && t1[j] == self.point_at(x, y);
                            if j < i {
                                assert(t0[j] == t1[j]);
                            }
                        }
                        if t0.contains(self.point_at(x, y)) {
                            let j = choose|j: int| 0 <= j < t0.len() && t0[j] == self.point_at(x, y);
                            assert(t1[j] == t0[j]);
                        }
                        if x == p.x - self.rect.left && y == p.y - self.rect.top {
                            assert(t1[i as int] == p);
                        }
                    }
                }
            }
            i = i + 1;
        }
        assert(self.points@.take(self.points@.len() as int) =~= self.points@);
        image
    }

    /// Moves every point, and the rect, by `o`.
    #[verifier::rlimit(30)]
    pub fn offset(&mut self, o: PointI32)
        requires
            forall|i: int| 0 <= i < old(self).points@.len() ==> (#[trigger] old(self).points@[i]).can_shift_by(o),
            old(self).rect.can_translate(o),
        ensures
            final(self).points@ == old(self).points@.map_values(|p: PointI32| p.shifted_by(o)),
            final(self).rect == old(self).rect.translated(o),
            old(self).wf() ==> final(self).wf(),
            old(self).drawable() ==> final(self).drawable(),
    {
        let ghost start = self.points@;
        let mut i: usize = 0;
        while i < self.points.len()
            invariant
                i <= self.points@.len(),
                self.points@.len() == start.len(),
                forall|j: int| 0 <= j < start.len() ==> (#[trigger] start[j]).can_shift_by(o),
                forall|j: int| 0 <= j < i ==> self.points@[j] == (#[trigger] start[j]).shifted_by(o),
                forall|j: int| i <= j < start.len() ==> self.points@[j] == start[j],
                self.rect == old(self).rect,
            decreases self.points@.len() - i,
        {
            let p = self.points[i];
            assert(start[i as int].can_shift_by(o));
            self.points.set(i, PointI32 { x: p.x + o.x, y: p.y + o.y });
            i = i + 1;
        }
        self.rect.translate(o);
        proof {
            let f = |p: PointI32| p.shifted_by(o);
            assert(self.points@ =~= start.map_values(f));
            let r0 = old(self).rect;
            if old(self).wf() {
                lemma_bounds_translate(r0, start.to_set(), o);
                start.lemma_to_set_map_commutes(f);
            }
            if old(self).drawable() {
                assert forall|j: int| 0 <= j < self.points@.len() implies self.rect.contains_point(
                    #[trigger] self.points@[j]) by {
                    assert(r0.contains_point(start[j]));
                }
            }
        }
    }

    pub fn size(&self) -> (n: usize)
        ensures
            n == self.points@.len(),
    {
        self.points.len()
    }
}

/// Moving a cluster by `o` and then by `-o` gives back its points and its rect; the
/// second move is always possible once the first was.
pub proof fn lemma_offset_undo(c: Cluster, o: PointI32)
    requires
        forall|i: int| 0 <= i < c.points@.len() ==> (#[trigger] c.points@[i]).can_shift_by(o),
        c.rect.can_translate(o),
        o.x > i32::MIN,
        o.y > i32::MIN,
    ensures
        forall|i: int|
            0 <= i < c.points@.len() ==> (#[trigger] c.points@[i]).shifted_by(o).can_shift_by(o.negated()),
        c.rect.translated(o).can_translate(o.negated()),
        c.points@.map_values(|p: PointI32| p.shifted_by(o)).map_values(|p: PointI32| p.shifted_by(o.negated()))
            == c.points@,
        c.rect.translated(o).translated(o.negated()) == c.rect,
{
    let moved = c.points@.map_values(|p: PointI32| p.shifted_by(o));
    let back = moved.map_values(|p: PointI32| p.shifted_by(o.negated()));
    assert(back =~= c.points@) by {
        assert forall|i: int| 0 <= i < c.points@.len() implies back[i] == c.points@[i] by {
            assert(c.points@[i].can_shift_by(o));
        }
    }
}

impl Clusters {
    /// The clusters, in order.
    pub fn iter(&self) -> (it: std::slice::Iter<'_, Cluster>)
        ensures
            vstd::std_specs::slice::into_iter_elts(it) == self.clusters@,
    {
        let s = self.clusters.as_slice();
        let it = s.iter();
        proof {
            assert(s@.as_ref().unref() =~= self.clusters@);
        }
        it
    }

    pub fn len(&self) -> (n: usize)
        ensures
            n == self.clusters@.len(),
    {
        self.clusters.len()
    }

    pub fn is_empty(&self) -> (b: bool)
        ensures
            b == (self.clusters@.len() == 0),
    {
        self.clusters.len() == 0
    }

    pub fn get_cluster(&self, index: usize) -> (c: &Cluster)
        requires
            index < self.clusters@.len(),
        ensures
            *c == self.clusters@[index as int],
    {
        &self.clusters[index]
    }

    /// Appends `cluster` and grows the rect to cover its rect.
    pub fn add_cluster(&mut self, cluster: Cluster)
        ensures
            final(self).clusters@ == old(self).clusters@.push(cluster),
            final(self).rect == old(self).rect.merged(cluster.rect),
    {
        self.rect.merge(cluster.rect);
        self.clusters.push(cluster);
    }
}

impl IntoIterator for Clusters {
    type IntoIter = std::vec::IntoIter<Cluster>;
    type Item = Cluster;

    fn into_iter(self) -> (it: Self::IntoIter)
        ensures
            vstd::std_specs::vec::into_iter_elts(it) == self.clusters@,
    {
        self.clusters.into_iter()
    }
}

} // verus!
