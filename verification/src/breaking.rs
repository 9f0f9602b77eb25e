//! Breaking a cluster at a thin waist: `Cluster::break_cluster`.

use vstd::prelude::*;
use crate::point::PointI32;
use crate::bound::BoundingRect;
use crate::image::BinaryImage;
use crate::connect::{adjacent, path_step};
use crate::scan::{scanned, pt, clusters_of, scan_ordered, scan_named, scan_listed, lemma_starts_le_ink,
    lemma_few_starts_within_limit};
use crate::clusters::{Cluster, Clusters};
use crate::connect::lemma_linked_refl;

verus! {

/// The smallest piece a cluster may be broken into.
pub const BREAK_AT_LEAST: usize = 5;

impl BinaryImage {
    /// The 2 x 3 window at `(x, y)` shows a waist: both middle pixels set, the top and the
    /// bottom row each half set, on opposite sides:
    /// ```text
    /// *-      -*
    /// **  or  **
    /// -*      *-
    /// ```
    pub open spec fn break_pattern(self, x: int, y: int) -> bool {
        &&& 0 <= x && x + 2 <= self.width
        &&& 0 <= y && y + 3 <= self.height
        &&& self.pixel(x, y) != self.pixel(x + 1, y)
        &&& self.pixel(x, y + 1)
        &&& self.pixel(x + 1, y + 1)
        &&& self.pixel(x, y + 2) != self.pixel(x + 1, y + 2)
        &&& self.pixel(x, y) == self.pixel(x + 1, y + 2)
    }

    /// The waist at `(x, y)` continues to the right, so its right middle pixel can go.
    pub open spec fn breaks_right(self, x: int, y: int) -> bool {
        self.break_pattern(x, y) && x + 2 < self.width && self.pixel(x + 2, y + 1)
    }

    /// The waist at `(x, y)` continues to the left, so its left middle pixel can go.
    pub open spec fn breaks_left(self, x: int, y: int) -> bool {
        self.break_pattern(x, y) && x > 0 && self.pixel(x - 1, y + 1)
    }

    pub open spec fn breaks_at(self, x: int, y: int) -> bool {
        self.breaks_right(x, y) || self.breaks_left(x, y)
    }

    /// `(x, y)` is the first window, in row-major order, where the image breaks.
    pub open spec fn first_break(self, x: int, y: int) -> bool {
        &&& self.breaks_at(x, y)
        &&& forall|a: int, b: int| scanned(a, b, x, y) ==> !#[trigger] self.breaks_at(a, b)
    }

    /// The pixel unset to break the image at window `(x, y)`.
    pub open spec fn break_point(self, x: int, y: int) -> PointI32 {
        if self.breaks_right(x, y) {
            pt(x + 1, y + 1)
        } else {
            pt(x, y + 1)
        }
    }

    /// `self` is `base` with the pixel `p` unset.
    pub open spec fn unset_at(self, base: BinaryImage, p: PointI32) -> bool {
        &&& self.wf()
        &&& self.width == base.width
        &&& self.height == base.height
        &&& forall|a: int, b: int| #[trigger] self.pixel(a, b) == (!(a == p.x && b == p.y) && base.pixel(a, b))
    }

    /// The set pixels linked to `p` by edge-sharing steps.
    pub open spec fn component(self, p: PointI32) -> Set<PointI32> {
        Set::new(|q: PointI32| self.linked(p, q, true, false))
    }

    /// Every cluster of set pixels (edges only) holds at least `n` pixels.
    pub open spec fn pieces_at_least(self, n: nat) -> bool {
        forall|p: PointI32| #[trigger] self.has_color(p, true) ==> self.component(p).len() >= n
    }

    /// The image breaks: it has a first waist, and unsetting its pixel leaves only clusters
    /// of at least `BREAK_AT_LEAST` pixels.
    pub open spec fn breaks(self) -> bool {
        exists|x: int, y: int|
            #[trigger] self.first_break(x, y) && forall|img2: BinaryImage|
                #[trigger] img2.unset_at(self, self.break_point(x, y)) ==> img2.pieces_at_least(
                    BREAK_AT_LEAST as nat,
                )
    }

    /// `r` is the pixel to unset at the first waist of the image, or `None` where the image
    /// has no waist.
    pub open spec fn finds_break(self, r: Option<(usize, usize)>) -> bool {
        &&& r is None <==> forall|x: int, y: int| !#[trigger] self.breaks_at(x, y)
        &&& r matches Some((px, py)) ==> px < self.width && py < self.height && exists|x: int, y: int|
            #[trigger] self.first_break(x, y) && self.break_point(x, y) == pt(px as int, py as int)
    }

    /// The 2 x 3 window at `(x, y)` draws one of the two waists
    /// ```text
    /// *-      -*
    /// **  or  **
    /// -*      *-
    /// ```
    /// and its middle row goes on, set, to the right or to the left of the window.
    pub open spec fn thin_at(self, x: int, y: int) -> bool {
        &&& self.pixel(x, y + 1)
        &&& self.pixel(x + 1, y + 1)
        &&& ((self.pixel(x, y) && !self.pixel(x + 1, y) && !self.pixel(x, y + 2) && self.pixel(x + 1, y + 2)) || (
        !self.pixel(x, y) && self.pixel(x + 1, y) && self.pixel(x, y + 2) && !self.pixel(x + 1, y + 2)))
        &&& (self.pixel(x + 2, y + 1) || self.pixel(x - 1, y + 1))
    }

    /// Both images have the same size and the same pixels.
    pub open spec fn same_pixels(self, other: BinaryImage) -> bool {
        &&& self.width == other.width
        &&& self.height == other.height
        &&& forall|a: int, b: int| #[trigger] self.pixel(a, b) == other.pixel(a, b)
    }
}

/// Paths, and so links and components, depend on the pixels alone.
pub proof fn lemma_same_pixels_linked(i1: BinaryImage, i2: BinaryImage, p: PointI32, q: PointI32)
    requires
        i1.same_pixels(i2),
        i1.linked(p, q, true, false),
    ensures
        i2.linked(p, q, true, false),
{
    let path = choose|path: Seq<PointI32>|
        #[trigger] i1.is_path(path, true, false) && path[0] == p && path.last() == q;
    assert forall|i: int| 0 <= i < path.len() implies i2.has_color(#[trigger] path[i], true) by {
        assert(i1.has_color(path[i], true));
        assert(i1.pixel(path[i].x as int, path[i].y as int) == i2.pixel(path[i].x as int, path[i].y as int));
    }
    assert(i2.is_path(path, true, false));
}

/// Whether every cluster of an image is large enough depends on its pixels alone.
pub proof fn lemma_same_pixels_pieces(i1: BinaryImage, i2: BinaryImage, n: nat)
    requires
        i1.same_pixels(i2),
        i1.pieces_at_least(n),
    ensures
        i2.pieces_at_least(n),
{
    assert forall|p: PointI32| #[trigger] i2.has_color(p, true) implies i2.component(p).len() >= n by {
        assert(i1.pixel(p.x as int, p.y as int) == i2.pixel(p.x as int, p.y as int));
        assert(i1.has_color(p, true));
        assert forall|q: PointI32| i1.linked(p, q, true, false) == i2.linked(p, q, true, false) by {
            if i1.linked(p, q, true, false) {
                lemma_same_pixels_linked(i1, i2, p, q);
            }
            if i2.linked(p, q, true, false) {
                assert(i2.same_pixels(i1));
                lemma_same_pixels_linked(i2, i1, p, q);
            }
        }
        assert(i1.component(p) =~= i2.component(p));
    }
}

/// The first waist, and the pixel it unsets, depend on the pixels alone.
pub proof fn lemma_same_pixels_first_break(i1: BinaryImage, i2: BinaryImage, x: int, y: int)
    requires
        i1.same_pixels(i2),
        i1.first_break(x, y),
    ensures
        i2.first_break(x, y),
        i2.break_point(x, y) == i1.break_point(x, y),
{
    assert forall|a: int, b: int|
        #![trigger i1.breaks_at(a, b)]
        #![trigger i2.breaks_at(a, b)]
        i1.breaks_at(a, b) == i2.breaks_at(a, b) by {
        assert(i1.pixel(a, b) == i2.pixel(a, b));
        assert(i1.pixel(a + 1, b) == i2.pixel(a + 1, b));
        assert(i1.pixel(a, b + 1) == i2.pixel(a, b + 1));
        assert(i1.pixel(a + 1, b + 1) == i2.pixel(a + 1, b + 1));
        assert(i1.pixel(a, b + 2) == i2.pixel(a, b + 2));
        assert(i1.pixel(a + 1, b + 2) == i2.pixel(a + 1, b + 2));
        assert(i1.pixel(a + 2, b + 1) == i2.pixel(a + 2, b + 1));
        assert(i1.pixel(a - 1, b + 1) == i2.pixel(a - 1, b + 1));
    }
    assert(i2.first_break(x, y));
    assert(i1.breaks_right(x, y) == i2.breaks_right(x, y)) by {
        assert(i1.pixel(x + 2, y + 1) == i2.pixel(x + 2, y + 1));
    }
}

/// Whether an image breaks depends on its pixels alone.
pub proof fn lemma_same_pixels_breaks(i1: BinaryImage, i2: BinaryImage)
    requires
        i1.same_pixels(i2),
        i1.breaks(),
    ensures
        i2.breaks(),
{
    let (x, y) = choose|x: int, y: int|
        #[trigger] i1.first_break(x, y) && forall|img2: BinaryImage|
            #[trigger] img2.unset_at(i1, i1.break_point(x, y)) ==> img2.pieces_at_least(BREAK_AT_LEAST as nat);
    lemma_same_pixels_first_break(i1, i2, x, y);
    let bp = i2.break_point(x, y);
    assert forall|img2: BinaryImage| #[trigger] img2.unset_at(i2, bp) implies img2.pieces_at_least(
        BREAK_AT_LEAST as nat,
    ) by {
        assert forall|a: int, b: int| #[trigger] img2.pixel(a, b) == (!(a == bp.x && b == bp.y) && i1.pixel(a, b)) by {
            assert(img2.pixel(a, b) == (!(a == bp.x && b == bp.y) && i2.pixel(a, b)));
            assert(i1.pixel(a, b) == i2.pixel(a, b));
        }
        assert(img2.unset_at(i1, bp));
    }
}

/// The first waist of the image, as the pixel to unset, or `None` where there is none.
pub fn find_break(image: &BinaryImage) -> (r: Option<(usize, usize)>)
    requires
        image.wf(),
        image.width <= i32::MAX,
        image.height <= i32::MAX,
    ensures
        image.finds_break(r),
{
    let w: usize = 2;
    let h: usize = 3;
    if image.width >= w && image.height >= h {
        let mut y: usize = 0;
        while y < image.height - h + 1
            invariant
                image.wf(),
                image.width <= i32::MAX,
                image.height <= i32::MAX,
                image.width >= 2,
                image.height >= 3,
                w == 2,
                h == 3,
                y <= image.height - 2,
                forall|a: int, b: int| scanned(a, b, 0, y as int) ==> !#[trigger] image.breaks_at(a, b),
            decreases image.height - y,
        {
            let mut x: usize = 0;
            while x < image.width - w + 1
                invariant
                    image.wf(),
                    image.width <= i32::MAX,
                    image.height <= i32::MAX,
                    image.width >= 2,
                    image.height >= 3,
                    w == 2,
                    h == 3,
                    y + 3 <= image.height,
                    x <= image.width - 1,
                    forall|a: int, b: int| scanned(a, b, x as int, y as int) ==> !#[trigger] image.breaks_at(a, b),
                decreases image.width - x,
            {
                if image.get_pixel(x, y) != image.get_pixel(x + 1, y) && image.get_pixel(x, y + 1)
                    && image.get_pixel(x + 1, y + 1) && image.get_pixel(x, y + 2) != image.get_pixel(x + 1, y + 2)
                    && image.get_pixel(x, y) == image.get_pixel(x + 1, y + 2) {
                    if x < image.width - 2 && image.get_pixel(x + 2, y + 1) {
                        assert(image.first_break(x as int, y as int));
                        return Some((x + 1, y + 1));
                    } else if x > 0 && image.get_pixel(x - 1, y + 1) {
                        assert(image.first_break(x as int, y as int));
                        return Some((x, y + 1));
                    }
                }
                assert(!image.breaks_at(x as int, y as int));
                x = x + 1;
            }
            assert forall|a: int, b: int| scanned(a, b, 0, y + 1) implies !#[trigger] image.breaks_at(a, b) by {
                if a < 0 || (b == y && a >= x) {
                    assert(!image.break_pattern(a, b));
                } else if b < y {
                    assert(scanned(a, b, x as int, y as int));
                } else {
                    assert(a < x);
                    assert(scanned(a, b, x as int, y as int));
                }
            }
            y = y + 1;
        }
        assert forall|a: int, b: int| !#[trigger] image.breaks_at(a, b) by {
            if !scanned(a, b, 0, y as int) {
                assert(!image.break_pattern(a, b));
            }
        }
    } else {
        assert forall|a: int, b: int| !#[trigger] image.breaks_at(a, b) by {
            assert(!image.break_pattern(a, b));
        }
    }
    None
}

/// A window breaks the image exactly where it draws a waist whose middle row goes on, and
/// the pixel to unset is the right middle one where the row goes on to the right, the left
/// middle one otherwise.
pub proof fn lemma_breaks_at_thin(image: BinaryImage, x: int, y: int)
    ensures
        image.breaks_at(x, y) == image.thin_at(x, y),
        image.breaks_at(x, y) ==> image.break_point(x, y) == if image.pixel(x + 2, y + 1) {
            pt(x + 1, y + 1)
        } else {
            pt(x, y + 1)
        },
{
}

/// The first waist of `image` in row-major order is at `(x, y)`: no window in an earlier
/// row, or earlier in the same row, draws a waist.
pub open spec fn first_thin(image: BinaryImage, x: int, y: int) -> bool {
    &&& image.thin_at(x, y)
    &&& forall|a: int, b: int| (b < y || (b == y && a < x)) ==> !#[trigger] image.thin_at(a, b)
}

/// What `find_break` answers, in pixels: `None` exactly when no window draws a waist;
/// otherwise the pixel to unset in the first waist, in row-major order: the right middle
/// pixel where the middle row goes on to the right, the left middle one otherwise.
pub proof fn lemma_find_break_pixels(image: BinaryImage, r: Option<(usize, usize)>)
    requires
        image.width <= i32::MAX,
        image.height <= i32::MAX,
        image.finds_break(r),
    ensures
        r is None <==> forall|x: int, y: int| !#[trigger] image.thin_at(x, y),
        r matches Some((px, py)) ==> exists|x: int, y: int|
            #[trigger] first_thin(image, x, y) && px == (if image.pixel(x + 2, y + 1) { x + 1 } else { x }) && py == y + 1,
{
    assert forall|x: int, y: int| image.breaks_at(x, y) == #[trigger] image.thin_at(x, y) by {
        lemma_breaks_at_thin(image, x, y);
    }
    if let Some((px, py)) = r {
        let (x, y) = choose|x: int, y: int|
            #[trigger] image.first_break(x, y) && image.break_point(x, y) == pt(px as int, py as int);
        lemma_breaks_at_thin(image, x, y);
        assert forall|a: int, b: int| (b < y || (b == y && a < x)) implies !#[trigger] image.thin_at(a, b) by {
            assert(scanned(a, b, x, y));
            lemma_breaks_at_thin(image, a, b);
        }
        assert(first_thin(image, x, y));
        assert(image.pixel(x, y + 1) && image.pixel(x + 1, y + 1));
        assert(px == (if image.pixel(x + 2, y + 1) { x + 1 } else { x }) && py == y + 1);
    } else {
        assert forall|x: int, y: int| !#[trigger] image.thin_at(x, y) by {
            lemma_breaks_at_thin(image, x, y);
        }
    }
}

/// The rect `r` after merging the rects of `cs` into it, in order.
pub open spec fn fold_rects(r: BoundingRect, cs: Seq<Cluster>) -> BoundingRect
    decreases cs.len(),
{
    if cs.len() == 0 {
        r
    } else {
        fold_rects(r, cs.drop_last()).merged(cs.last().rect)
    }
}

/// Merging the rects of two sequences in turn merges those of their concatenation.
pub proof fn lemma_fold_rects_append(r: BoundingRect, a: Seq<Cluster>, b: Seq<Cluster>)
    ensures
        fold_rects(r, a + b) == fold_rects(fold_rects(r, a), b),
    decreases b.len(),
{
    if b.len() == 0 {
        assert(a + b =~= a);
    } else {
        lemma_fold_rects_append(r, a, b.drop_last());
        assert((a + b).drop_last() =~= a + b.drop_last());
        assert((a + b).last() == b.last());
    }
}

/// `d` is `c` moved by `o`: each point, in order, and the rect.
pub open spec fn moved_by(c: Cluster, o: PointI32, d: Cluster) -> bool {
    &&& d.points@ == c.points@.map_values(|p: PointI32| p.shifted_by(o))
    &&& d.rect == c.rect.translated(o)
}

impl BinaryImage {
    /// `cut` is the image with the pixel of its first waist, at `(x, y)`, unset, and
    /// `pieces` are its clusters (edges only) as `to_clusters` gives them: in the order of
    /// their first points, each first point the name of its cluster in the scan, each
    /// cluster's points in the order the scan lists them.
    pub open spec fn cut_at(self, x: int, y: int, cut: BinaryImage, pieces: Seq<Cluster>) -> bool {
        &&& self.first_break(x, y)
        &&& cut.unset_at(self, self.break_point(x, y))
        &&& clusters_of(pieces, cut, true, false)
        &&& scan_ordered(pieces, cut, false)
        &&& scan_named(pieces, cut, false)
        &&& scan_listed(pieces, cut, false)
    }

    /// `pieces` are the clusters of the image with the pixel of its first waist unset.
    pub open spec fn cut_into(self, pieces: Seq<Cluster>) -> bool {
        exists|x: int, y: int, cut: BinaryImage| #[trigger] self.cut_at(x, y, cut, pieces)
    }
}

/// The points of `c` moved by `o`, as a set.
pub open spec fn moved_set(c: Cluster, o: PointI32) -> Set<PointI32> {
    c.points@.map_values(|p: PointI32| p.shifted_by(o)).to_set()
}

impl Cluster {
    /// `added` is what breaking `self` appends: one cluster or more, each holding only
    /// points of `self`, no two sharing a point; `self` alone where its image does not
    /// break, and otherwise clusters with their bounding rects, of at least
    /// `BREAK_AT_LEAST` points each.
    pub open spec fn break_result(self, added: Seq<Cluster>) -> bool {
        &&& added.len() > 0
        &&& forall|i: int| 0 <= i < added.len() ==> (#[trigger] added[i]).point_set().subset_of(self.point_set())
        &&& forall|i: int, j: int|
            0 <= i < j < added.len() ==> (#[trigger] added[i]).point_set().disjoint((#[trigger] added[j]).point_set())
        &&& added == seq![self] || forall|i: int| 0 <= i < added.len() ==> (#[trigger] added[i]).is_piece()
        &&& forall|img: BinaryImage|
            #[trigger] self.draws(img) ==> {
                &&& !img.breaks() ==> added == seq![self]
                &&& img.breaks() ==> forall|i: int| 0 <= i < added.len() ==> (#[trigger] added[i]).is_piece()
            }
    }

    /// The corner of the rect, where the top left pixel of the cluster's image stands.
    pub open spec fn origin(self) -> PointI32 {
        PointI32 { x: self.rect.left, y: self.rect.top }
    }

    /// Breaking `self`, drawn as `img`, cuts the image into `pieces`, which moved back to
    /// the place of `self` are `parts`; in an output of `n` clusters, what part `k` gives
    /// stands between `cuts[k]` and `cuts[k + 1]`.
    pub open spec fn split_as(
        self,
        img: BinaryImage,
        pieces: Seq<Cluster>,
        parts: Seq<Cluster>,
        cuts: Seq<int>,
        n: int,
    ) -> bool {
        &&& img.cut_into(pieces)
        &&& parts.len() == pieces.len()
        &&& forall|k: int| 0 <= k < parts.len() ==> #[trigger] moved_by(pieces[k], self.origin(), parts[k])
        &&& cuts.len() == parts.len() + 1
        &&& cuts[0] == 0
        &&& cuts[parts.len() as int] == n
        &&& forall|i: int, j: int| 0 <= i <= j < cuts.len() ==> #[trigger] cuts[i] <= #[trigger] cuts[j]
    }

    /// `added` is what breaking `self` gives: `self` alone where its image does not break;
    /// otherwise, in order, what breaking each piece of the cut image gives, each piece
    /// moved back to the place of `self`.
    pub open spec fn broken_into(self, added: Seq<Cluster>) -> bool
        decreases self.points@.len(),
    {
        forall|img: BinaryImage| #[trigger] self.draws(img) ==> if img.breaks() {
            exists|pieces: Seq<Cluster>, parts: Seq<Cluster>, cuts: Seq<int>| {
                &&& #[trigger] self.split_as(img, pieces, parts, cuts, added.len() as int)
                &&& forall|k: int| 0 <= k < parts.len() ==> (#[trigger] parts[k]).points@.len() < self.points@.len()
                &&& forall|k: int|
                    0 <= k < parts.len() ==> (#[trigger] parts[k]).broken_into(added.subrange(cuts[k], cuts[k + 1]))
            }
        } else {
            added == seq![self]
        }
    }

    /// A piece of a broken cluster: its rect bounds its points, of which it holds at least
    /// `BREAK_AT_LEAST`, none twice.
    pub open spec fn is_piece(self) -> bool {
        &&& self.wf()
        &&& self.points@.len() >= BREAK_AT_LEAST
        &&& self.points@.no_duplicates()
    }
}

/// The image of a cluster has at most as many set pixels as the cluster has points.
proof fn lemma_ink_le_points(cluster: Cluster, img: BinaryImage)
    requires
        cluster.draws(img),
        cluster.drawable(),
    ensures
        img.ink_set().finite(),
        img.ink_set().len() <= cluster.points@.len(),
{
    let left = cluster.rect.left;
    let top = cluster.rect.top;
    let f = |p: PointI32| PointI32 { x: (p.x - left) as i32, y: (p.y - top) as i32 };
    let ps = cluster.point_set();
    let m = ps.map(f);
    vstd::seq_lib::seq_to_set_is_finite(cluster.points@);
    cluster.points@.lemma_cardinality_of_set();
    vstd::set_lib::lemma_map_size_bound(ps, m, f);
    assert forall|q: PointI32| img.ink_set().contains(q) implies m.contains(q) by {
        assert(img.pixel(q.x as int, q.y as int));
        let p = cluster.point_at(q.x as int, q.y as int);
        assert(ps.contains(p));
        assert(f(p) == q);
    }
    vstd::set_lib::lemma_len_subset(img.ink_set(), m);
}

/// A cluster of the broken image, moved back to where the image stands, is drawable and
/// holds only points of the cluster, and fewer of them.
#[verifier::rlimit(30)]
proof fn lemma_piece(cluster: Cluster, image: BinaryImage, cs: Seq<Cluster>, k: int)
    requires
        cluster.drawable(),
        image.wf(),
        image.width == cluster.rect.width_int(),
        image.height == cluster.rect.height_int(),
        forall|a: int, b: int| #[trigger] image.pixel(a, b) ==> cluster.point_set().contains(cluster.point_at(a, b)),
        image.ink_set().finite(),
        image.ink_set().len() < cluster.points@.len(),
        clusters_of(cs, image, true, false),
        0 <= k < cs.len(),
    ensures
        cs[k].drawable(),
        cs[k].wf(),
        forall|i: int| 0 <= i < cs[k].points@.len() ==> (#[trigger] cs[k].points@[i]).can_shift_by(
            PointI32 { x: cluster.rect.left, y: cluster.rect.top },
        ),
        cs[k].rect.can_translate(PointI32 { x: cluster.rect.left, y: cluster.rect.top }),
        moved_set(cs[k], PointI32 { x: cluster.rect.left, y: cluster.rect.top }).subset_of(cluster.point_set()),
        cs[k].points@.len() < cluster.points@.len(),
{
    let o = PointI32 { x: cluster.rect.left, y: cluster.rect.top };
    let c = cs[k];
    let w = image.width as int;
    let h = image.height as int;
    assert(c.points@.len() > 0 && c.points@.no_duplicates() && c.wf());
    assert forall|i: int| 0 <= i < c.points@.len() implies image.has_color(#[trigger] c.points@[i], true) by {
        assert(image.has_color(cs[k].points@[i], true));
    }
    let p0 = c.points@[0];
    assert(c.point_set().contains(p0));
    let a = choose|q: PointI32| #[trigger] c.point_set().contains(q) && q.x == c.rect.left;
    let b = choose|q: PointI32| #[trigger] c.point_set().contains(q) && q.x == c.rect.right - 1;
    let d = choose|q: PointI32| #[trigger] c.point_set().contains(q) && q.y == c.rect.top;
    let e = choose|q: PointI32| #[trigger] c.point_set().contains(q) && q.y == c.rect.bottom - 1;
    let ia = choose|i: int| 0 <= i < c.points@.len() && c.points@[i] == a;
    let ib = choose|i: int| 0 <= i < c.points@.len() && c.points@[i] == b;
    let id = choose|i: int| 0 <= i < c.points@.len() && c.points@[i] == d;
    let ie = choose|i: int| 0 <= i < c.points@.len() && c.points@[i] == e;
    assert(image.has_color(c.points@[ia], true));
    assert(image.has_color(c.points@[ib], true));
    assert(image.has_color(c.points@[id], true));
    assert(image.has_color(c.points@[ie], true));
    assert(0 <= c.rect.left && c.rect.right <= w && 0 <= c.rect.top && c.rect.bottom <= h);
    assert(c.rect.width_int() * c.rect.height_int() <= w * h) by (nonlinear_arith)
        requires
            0 <= c.rect.width_int() <= w,
            0 <= c.rect.height_int() <= h,
    ;
    assert(w * h <= usize::MAX) by {
        assert(image.pixels@.len() == w * h);
    }
    assert forall|i: int| 0 <= i < c.points@.len() implies c.rect.contains_point(#[trigger] c.points@[i]) by {
        assert(c.point_set().contains(c.points@[i]));
    }
    assert(c.drawable());
    assert forall|i: int| 0 <= i < c.points@.len() implies (#[trigger] c.points@[i]).can_shift_by(o) by {
        assert(image.has_color(c.points@[i], true));
    }
    let f = |p: PointI32| p.shifted_by(o);
    assert forall|q: PointI32| moved_set(c, o).contains(q) implies cluster.point_set().contains(q) by {
        let i = choose|i: int| 0 <= i < c.points@.map_values(f).len() && c.points@.map_values(f)[i] == q;
        let p = c.points@[i];
        assert(image.has_color(p, true));
        assert(image.pixel(p.x as int, p.y as int));
        assert(cluster.point_at(p.x as int, p.y as int) == q);
    }
    // Fewer points.
    assert(c.point_set().subset_of(image.ink_set())) by {
        assert forall|q: PointI32| c.point_set().contains(q) implies image.ink_set().contains(q) by {
            let i = choose|i: int| 0 <= i < c.points@.len() && c.points@[i] == q;
            assert(image.has_color(c.points@[i], true));
        }
    }
    vstd::set_lib::lemma_len_subset(c.point_set(), image.ink_set());
    c.points@.unique_seq_to_set();
}

/// Clusters of one image, moved by the same offset, share no point.
proof fn lemma_pieces_disjoint(image: BinaryImage, cs: Seq<Cluster>, k1: int, k2: int, o: PointI32)
    requires
        clusters_of(cs, image, true, false),
        0 <= k1 < cs.len(),
        0 <= k2 < cs.len(),
        k1 != k2,
        forall|i: int| 0 <= i < cs[k1].points@.len() ==> (#[trigger] cs[k1].points@[i]).can_shift_by(o),
        forall|i: int| 0 <= i < cs[k2].points@.len() ==> (#[trigger] cs[k2].points@[i]).can_shift_by(o),
    ensures
        moved_set(cs[k1], o).disjoint(moved_set(cs[k2], o)),
{
    let f = |p: PointI32| p.shifted_by(o);
    assert forall|q: PointI32| moved_set(cs[k1], o).contains(q) implies !moved_set(cs[k2], o).contains(q) by {
        let i = choose|i: int| 0 <= i < cs[k1].points@.map_values(f).len() && cs[k1].points@.map_values(f)[i] == q;
        if moved_set(cs[k2], o).contains(q) {
            let j = choose|j: int| 0 <= j < cs[k2].points@.map_values(f).len() && cs[k2].points@.map_values(f)[j] == q;
            let p1 = cs[k1].points@[i];
            let p2 = cs[k2].points@[j];
            assert(p1.can_shift_by(o) && p2.can_shift_by(o));
            assert(p1 == p2);
            assert(image.has_color(p1, true));
            lemma_linked_refl(image, p1, true, false);
            assert(image.linked(cs[k1].points@[i], cs[k2].points@[j], true, false));
        }
    }
}

/// In a clustering of an image, the cluster holding `p` is the component of `p`.
proof fn lemma_component_is_cluster(image: BinaryImage, cs: Seq<Cluster>, i: int, k: int)
    requires
        clusters_of(cs, image, true, false),
        0 <= i < cs.len(),
        0 <= k < cs[i].points@.len(),
    ensures
        image.component(cs[i].points@[k]) == cs[i].point_set(),
        cs[i].point_set().len() == cs[i].points@.len(),
{
    let p = cs[i].points@[k];
    assert forall|q: PointI32| image.component(p).contains(q) <==> cs[i].point_set().contains(q) by {
        if image.linked(p, q, true, false) {
            crate::connect::lemma_linked_ends(image, p, q, true, false);
            let j = choose|j: int| 0 <= j < cs.len() && #[trigger] cs[j].points@.contains(q);
            let l = choose|l: int| 0 <= l < cs[j].points@.len() && cs[j].points@[l] == q;
            assert(image.linked(cs[i].points@[k], cs[j].points@[l], true, false));
        }
        if cs[i].point_set().contains(q) {
            let l = choose|l: int| 0 <= l < cs[i].points@.len() && cs[i].points@[l] == q;
            assert(image.linked(cs[i].points@[k], cs[i].points@[l], true, false));
        }
    }
    assert(image.component(p) =~= cs[i].point_set());
    cs[i].points@.unique_seq_to_set();
}

proof fn lemma_shift_no_duplicates(s: Seq<PointI32>, o: PointI32)
    requires
        s.no_duplicates(),
        forall|i: int| 0 <= i < s.len() ==> (#[trigger] s[i]).can_shift_by(o),
    ensures
        s.map_values(|p: PointI32| p.shifted_by(o)).no_duplicates(),
{
    let t = s.map_values(|p: PointI32| p.shifted_by(o));
    assert forall|i: int, j: int| 0 <= i < t.len() && 0 <= j < t.len() && i != j implies t[i] != t[j] by {
        assert(s[i].can_shift_by(o) && s[j].can_shift_by(o));
        assert(s[i] != s[j]);
    }
}

/// The image breaks at its first waist exactly when the image without the waist pixel
/// has only clusters of at least `BREAK_AT_LEAST` pixels.
proof fn lemma_breaks_iff(img0: BinaryImage, image: BinaryImage, x0: int, y0: int)
    requires
        img0.first_break(x0, y0),
        image.unset_at(img0, img0.break_point(x0, y0)),
    ensures
        img0.breaks() <==> image.pieces_at_least(BREAK_AT_LEAST as nat),
{
    let bp = img0.break_point(x0, y0);
    if image.pieces_at_least(BREAK_AT_LEAST as nat) {
        assert forall|img2: BinaryImage| #[trigger] img2.unset_at(img0, img0.break_point(x0, y0)) implies img2.pieces_at_least(
            BREAK_AT_LEAST as nat,
        ) by {
            assert(image.same_pixels(img2));
            lemma_same_pixels_pieces(image, img2, BREAK_AT_LEAST as nat);
        }
        assert(img0.first_break(x0, y0));
    }
    if img0.breaks() {
        let (x1, y1) = choose|x: int, y: int|
            #[trigger] img0.first_break(x, y) && forall|img2: BinaryImage|
                #[trigger] img2.unset_at(img0, img0.break_point(x, y)) ==> img2.pieces_at_least(BREAK_AT_LEAST as nat);
        if scanned(x1, y1, x0, y0) {
            assert(!img0.breaks_at(x1, y1));
        } else if scanned(x0, y0, x1, y1) {
            assert(!img0.breaks_at(x0, y0));
        }
        assert(x1 == x0 && y1 == y0);
        assert(image.unset_at(img0, img0.break_point(x1, y1)));
    }
}

/// The pieces `pieces` of `cluster`, moved by `o`, are fit to be broken again: each is
/// drawable, a piece, movable by `o`, smaller than `cluster` and inside it once moved,
/// and no two share a point once moved.
pub open spec fn pieces_fit(cluster: Cluster, pieces: Seq<Cluster>, o: PointI32) -> bool {
    &&& forall|k: int|
        0 <= k < pieces.len() ==> {
            &&& (#[trigger] pieces[k]).drawable()
            &&& pieces[k].is_piece()
            &&& forall|i: int| 0 <= i < pieces[k].points@.len() ==> (#[trigger] pieces[k].points@[i]).can_shift_by(o)
            &&& pieces[k].rect.can_translate(o)
            &&& moved_set(pieces[k], o).subset_of(cluster.point_set())
            &&& pieces[k].points@.len() < cluster.points@.len()
        }
    &&& forall|k1: int, k2: int|
        0 <= k1 < pieces.len() && 0 <= k2 < pieces.len() && k1 != k2 ==> moved_set(#[trigger] pieces[k1], o).disjoint(
            moved_set(#[trigger] pieces[k2], o),
        )
}

#[verifier::rlimit(30)]
proof fn lemma_pieces_fit(cluster: Cluster, image: BinaryImage, pieces: Seq<Cluster>)
    requires
        cluster.drawable(),
        image.wf(),
        image.width == cluster.rect.width_int(),
        image.height == cluster.rect.height_int(),
        forall|a: int, b: int| #[trigger] image.pixel(a, b) ==> cluster.point_set().contains(cluster.point_at(a, b)),
        image.ink_set().finite(),
        image.ink_set().len() < cluster.points@.len(),
        clusters_of(pieces, image, true, false),
        forall|j: int| 0 <= j < pieces.len() ==> (#[trigger] pieces[j]).points@.len() >= BREAK_AT_LEAST,
    ensures
        pieces_fit(cluster, pieces, PointI32 { x: cluster.rect.left, y: cluster.rect.top }),
{
    let o = PointI32 { x: cluster.rect.left, y: cluster.rect.top };
    assert forall|k: int| 0 <= k < pieces.len() implies {
        &&& (#[trigger] pieces[k]).drawable()
        &&& pieces[k].is_piece()
        &&& forall|i: int| 0 <= i < pieces[k].points@.len() ==> (#[trigger] pieces[k].points@[i]).can_shift_by(o)
        &&& pieces[k].rect.can_translate(o)
        &&& moved_set(pieces[k], o).subset_of(cluster.point_set())
        &&& pieces[k].points@.len() < cluster.points@.len()
    } by {
        lemma_piece(cluster, image, pieces, k);
    }
    assert forall|k1: int, k2: int| 0 <= k1 < pieces.len() && 0 <= k2 < pieces.len() && k1 != k2
        implies moved_set(#[trigger] pieces[k1], o).disjoint(moved_set(#[trigger] pieces[k2], o)) by {
        lemma_piece(cluster, image, pieces, k1);
        lemma_piece(cluster, image, pieces, k2);
        lemma_pieces_disjoint(image, pieces, k1, k2, o);
    }
}

/// Appending what breaking `cc` gave to what breaking the parts before it gave keeps each
/// part's output where `cuts` says it is.
#[verifier::rlimit(30)]
proof fn lemma_segments_push(
    base: int,
    before: Seq<Cluster>,
    after: Seq<Cluster>,
    parts: Seq<Cluster>,
    cuts: Seq<int>,
    cc: Cluster,
)
    requires
        0 <= base <= before.len() <= after.len(),
        after.subrange(0, before.len() as int) == before,
        cuts.len() == parts.len() + 1,
        cuts[0] == 0,
        cuts[parts.len() as int] == before.len() - base,
        forall|i: int, j: int| 0 <= i <= j < cuts.len() ==> #[trigger] cuts[i] <= #[trigger] cuts[j],
        forall|k: int|
            0 <= k < parts.len() ==> (#[trigger] parts[k]).broken_into(
                before.subrange(base + cuts[k], base + cuts[k + 1]),
            ),
        cc.broken_into(after.skip(before.len() as int)),
    ensures
        ({
            let parts2 = parts.push(cc);
            let cuts2 = cuts.push(after.len() - base);
            &&& cuts2[0] == 0
            &&& forall|i: int, j: int| 0 <= i <= j < cuts2.len() ==> #[trigger] cuts2[i] <= #[trigger] cuts2[j]
            &&& forall|k: int|
                0 <= k < parts2.len() ==> (#[trigger] parts2[k]).broken_into(
                    after.subrange(base + cuts2[k], base + cuts2[k + 1]),
                )
        }),
{
    let parts2 = parts.push(cc);
    let cuts2 = cuts.push(after.len() - base);
    let n = parts.len() as int;
    assert forall|i: int, j: int| 0 <= i <= j < cuts2.len() implies #[trigger] cuts2[i] <= #[trigger] cuts2[j] by {
        if j == n + 1 {
            if i <= n {
                assert(cuts2[i] == cuts[i]);
                assert(cuts[i] <= cuts[n]);
            }
        } else {
            assert(cuts2[i] == cuts[i] && cuts2[j] == cuts[j]);
        }
    }
    assert forall|k: int| 0 <= k < parts2.len() implies (#[trigger] parts2[k]).broken_into(
        after.subrange(base + cuts2[k], base + cuts2[k + 1]),
    ) by {
        if k == n {
            assert(after.subrange(base + cuts2[k], base + cuts2[k + 1]) =~= after.skip(before.len() as int));
        } else {
            assert(parts2[k] == parts[k]);
            assert(cuts2[k] == cuts[k] && cuts2[k + 1] == cuts[k + 1]);
            assert(cuts[k] <= cuts[k + 1] && cuts[k + 1] <= cuts[n]);
            assert(cuts[0] <= cuts[k]);
            let lo = base + cuts[k];
            let hi = base + cuts[k + 1];
            assert(after.subrange(lo, hi) =~= before.subrange(lo, hi)) by {
                assert forall|i: int| lo <= i < hi implies #[trigger] after[i] == before[i] by {
                    assert(after.subrange(0, before.len() as int)[i] == after[i]);
                }
            }
        }
    }
}

/// A cluster whose image breaks, cut into `pieces`, whose moved parts each gave their
/// stretch of `added`, gave `added`.
proof fn lemma_broken_into_split(
    cluster: Cluster,
    pieces: Seq<Cluster>,
    parts: Seq<Cluster>,
    cuts: Seq<int>,
    added: Seq<Cluster>,
)
    requires
        forall|img: BinaryImage| #[trigger] cluster.draws(img) ==> img.breaks() && img.cut_into(pieces),
        parts.len() == pieces.len(),
        forall|k: int| 0 <= k < parts.len() ==> #[trigger] moved_by(pieces[k], cluster.origin(), parts[k]),
        cuts.len() == parts.len() + 1,
        cuts[0] == 0,
        cuts[parts.len() as int] == added.len(),
        forall|i: int, j: int| 0 <= i <= j < cuts.len() ==> #[trigger] cuts[i] <= #[trigger] cuts[j],
        forall|k: int| 0 <= k < parts.len() ==> (#[trigger] parts[k]).points@.len() < cluster.points@.len(),
        forall|k: int|
            0 <= k < parts.len() ==> (#[trigger] parts[k]).broken_into(added.subrange(cuts[k], cuts[k + 1])),
    ensures
        cluster.broken_into(added),
{
    assert forall|img: BinaryImage| #[trigger] cluster.draws(img) implies img.breaks() && exists|
        pieces: Seq<Cluster>,
        parts: Seq<Cluster>,
        cuts: Seq<int>,
    | {
        &&& #[trigger] cluster.split_as(img, pieces, parts, cuts, added.len() as int)
        &&& forall|k: int| 0 <= k < parts.len() ==> (#[trigger] parts[k]).points@.len() < cluster.points@.len()
        &&& forall|k: int|
            0 <= k < parts.len() ==> (#[trigger] parts[k]).broken_into(added.subrange(cuts[k], cuts[k + 1]))
    } by {
        assert(cluster.split_as(img, pieces, parts, cuts, added.len() as int));
    }
}

/// What cutting one drawing of a cluster gives, cutting any other drawing gives too.
proof fn lemma_cut_into_drawings(
    cluster: Cluster,
    img0: BinaryImage,
    cut: BinaryImage,
    pieces: Seq<Cluster>,
    x: int,
    y: int,
)
    requires
        cluster.draws(img0),
        img0.cut_at(x, y, cut, pieces),
    ensures
        forall|img: BinaryImage| #[trigger] cluster.draws(img) ==> img.cut_into(pieces),
{
    assert forall|img: BinaryImage| #[trigger] cluster.draws(img) implies img.cut_into(pieces) by {
        assert(img0.same_pixels(img));
        lemma_same_pixels_first_break(img0, img, x, y);
        let bp = img.break_point(x, y);
        assert forall|a: int, b: int| #[trigger] cut.pixel(a, b) == (!(a == bp.x && b == bp.y) && img.pixel(a, b)) by {
            assert(cut.pixel(a, b) == (!(a == bp.x && b == bp.y) && img0.pixel(a, b)));
            assert(img0.pixel(a, b) == img.pixel(a, b));
        }
        assert(img.cut_at(x, y, cut, pieces));
    }
}

impl BinaryImage {
    /// The image that breaking clusters, this one with the pixel of its first waist unset
    /// where it has a waist, keeps the slot counter of `to_clusters` below 65535.
    pub open spec fn cut_within_limit(self) -> bool {
        &&& (forall|x: int, y: int| !#[trigger] self.breaks_at(x, y)) ==> self.scan_within_limit(false)
        &&& forall|x: int, y: int, cut: BinaryImage|
            #[trigger] self.first_break(x, y) && #[trigger] cut.unset_at(self, self.break_point(x, y))
                ==> cut.scan_within_limit(false)
    }
}

impl Cluster {
    /// Breaking `self` never clusters an image whose scan drives the slot counter of
    /// `to_clusters` to 65535: neither the image of `self`, nor, in turn, that of any piece
    /// it breaks into.
    pub open spec fn breaks_within_limit(self) -> bool
        decreases self.points@.len(),
    {
        forall|img: BinaryImage| #[trigger] self.draws(img) ==> {
            &&& img.cut_within_limit()
            &&& forall|pieces: Seq<Cluster>, k: int, part: Cluster|
                img.breaks() && #[trigger] img.cut_into(pieces) && 0 <= k < pieces.len() && #[trigger] moved_by(
                    pieces[k],
                    self.origin(),
                    part,
                ) && part.drawable() && part.points@.len() < self.points@.len() ==> part.breaks_within_limit()
        }
    }
}

/// A cluster of fewer than 65535 points breaks within the limit: no image it leads to can
/// have more set pixels than it has points.
pub proof fn lemma_small_breaks_within_limit(cluster: Cluster)
    requires
        cluster.drawable(),
        cluster.points@.len() < 65535,
    ensures
        cluster.breaks_within_limit(),
    decreases cluster.points@.len(),
{
    assert forall|img: BinaryImage| #[trigger] cluster.draws(img) implies {
        &&& img.cut_within_limit()
        &&& forall|pieces: Seq<Cluster>, k: int, part: Cluster|
            img.breaks() && #[trigger] img.cut_into(pieces) && 0 <= k < pieces.len() && #[trigger] moved_by(
                pieces[k],
                cluster.origin(),
                part,
            ) && part.drawable() && part.points@.len() < cluster.points@.len() ==> part.breaks_within_limit()
    } by {
        lemma_ink_le_points(cluster, img);
        lemma_starts_le_ink(img, false);
        assert(img.cluster_starts(false) <= img.ink_set().len());
        assert(img.ink_set().len() <= cluster.points@.len());
        assert(img.cluster_starts(false) < 65535);
        lemma_few_starts_within_limit(img, false);
        assert forall|x: int, y: int, cut: BinaryImage|
            #[trigger] img.first_break(x, y) && #[trigger] cut.unset_at(img, img.break_point(x, y))
            implies cut.scan_within_limit(false) by {
            lemma_starts_le_ink(cut, false);
            assert(cut.ink_set().subset_of(img.ink_set()));
            vstd::set_lib::lemma_len_subset(cut.ink_set(), img.ink_set());
            lemma_few_starts_within_limit(cut, false);
        }
        assert forall|pieces: Seq<Cluster>, k: int, part: Cluster|
            img.breaks() && #[trigger] img.cut_into(pieces) && 0 <= k < pieces.len() && #[trigger] moved_by(
                pieces[k],
                cluster.origin(),
                part,
            ) && part.drawable() && part.points@.len() < cluster.points@.len() implies part.breaks_within_limit() by {
            lemma_small_breaks_within_limit(part);
        }
    }
}

/// All drawings of a cluster break, or none does.
proof fn lemma_drawings_break_alike(cluster: Cluster, img0: BinaryImage)
    requires
        cluster.draws(img0),
    ensures
        forall|img: BinaryImage| #[trigger] cluster.draws(img) ==> img.breaks() == img0.breaks(),
{
    assert forall|img: BinaryImage| #[trigger] cluster.draws(img) implies img.breaks() == img0.breaks() by {
        assert(img.same_pixels(img0));
        assert(img0.same_pixels(img));
        if img.breaks() {
            lemma_same_pixels_breaks(img, img0);
        }
        if img0.breaks() {
            lemma_same_pixels_breaks(img0, img);
        }
    }
}

/// The pieces a cluster within the limit breaks into, moved back, are within the limit.
proof fn lemma_parts_within_limit(cluster: Cluster, img: BinaryImage, pieces: Seq<Cluster>)
    requires
        cluster.breaks_within_limit(),
        cluster.draws(img),
        img.breaks(),
        img.cut_into(pieces),
        forall|k: int| 0 <= k < pieces.len() ==> (#[trigger] pieces[k]).points@.len() < cluster.points@.len(),
    ensures
        forall|k: int, part: Cluster|
            0 <= k < pieces.len() && #[trigger] moved_by(pieces[k], cluster.origin(), part) && part.drawable()
                ==> part.breaks_within_limit(),
{
    assert forall|k: int, part: Cluster|
        0 <= k < pieces.len() && #[trigger] moved_by(pieces[k], cluster.origin(), part) && part.drawable()
        implies part.breaks_within_limit() by {
        assert(pieces[k].points@.len() < cluster.points@.len());
        assert(part.points@.len() == pieces[k].points@.len());
    }
}

impl Cluster {
    /// Unsets the pixel of the first waist of the image of `cluster` and clusters what is
    /// left; tells whether the cluster breaks, with its pieces where it does.
    #[verifier::rlimit(30)]
    fn split_at_waist(cluster: &Cluster) -> (r: (Clusters, bool))
        requires
            cluster.drawable(),
            cluster.breaks_within_limit(),
        ensures
            forall|img: BinaryImage| #[trigger] cluster.draws(img) ==> (r.1 <==> img.breaks()),
            r.1 ==> r.0.clusters@.len() > 0,
            r.1 ==> pieces_fit(*cluster, r.0.clusters@, PointI32 { x: cluster.rect.left, y: cluster.rect.top }),
            r.1 ==> forall|img: BinaryImage| #[trigger] cluster.draws(img) ==> img.cut_into(r.0.clusters@),
            r.1 ==> forall|k: int, part: Cluster|
                0 <= k < r.0.clusters@.len() && #[trigger] moved_by(r.0.clusters@[k], cluster.origin(), part)
                    && part.drawable() ==> part.breaks_within_limit(),
    {
        let mut image = cluster.to_binary_image();
        let ghost img0 = image;
        let found = find_break(&image);
        let mut broke = false;
        let ghost mut x0: int = 0;
        let ghost mut y0: int = 0;
        match found {
            Some((px, py)) => {
                proof {
                    let (x, y) = choose|x: int, y: int|
                        #[trigger] img0.first_break(x, y) && img0.break_point(x, y) == pt(px as int, py as int);
                    x0 = x;
                    y0 = y;
                }
                image.set_pixel(px, py, false);
                broke = true;
            }
            None => {},
        }
        proof {
            lemma_ink_le_points(*cluster, img0);
            if broke {
                let bp = img0.break_point(x0, y0);
                assert(image.unset_at(img0, bp));
                assert(img0.has_color(bp, true));
                assert(image.ink_set() =~= img0.ink_set().remove(bp));
            } else {
                assert(image.ink_set() =~= img0.ink_set());
            }
            assert(img0.cut_within_limit());
            if found is None {
                assert(image == img0);
            } else {
                assert(image.unset_at(img0, img0.break_point(x0, y0)));
            }
        }
        let clusters = image.to_clusters(false);
        let ghost pieces = clusters.clusters@;
        if broke {
            proof {
                // The other middle pixel of the waist is still set.
                let other = if img0.breaks_right(x0, y0) { pt(x0, y0 + 1) } else { pt(x0 + 1, y0 + 1) };
                assert(image.has_color(other, true));
            }
            let mut min = clusters.clusters[0].size();
            let mut i: usize = 1;
            while i < clusters.clusters.len()
                invariant
                    pieces == clusters.clusters@,
                    1 <= i <= pieces.len(),
                    exists|j: int| 0 <= j < i && min == (#[trigger] pieces[j]).points@.len(),
                    forall|j: int| 0 <= j < i ==> min <= (#[trigger] pieces[j]).points@.len(),
                decreases pieces.len() - i,
            {
                let size = clusters.clusters[i].size();
                if size < min {
                    min = size;
                }
                i = i + 1;
            }
            if min < BREAK_AT_LEAST {
                broke = false;
            }
        }
        proof {
            // `broke` is whether the image breaks.
            if found is Some {
                lemma_breaks_iff(img0, image, x0, y0);
                if broke {
                    assert forall|p: PointI32| #[trigger] image.has_color(p, true) implies image.component(p).len()
                        >= BREAK_AT_LEAST by {
                        let j = choose|j: int| 0 <= j < pieces.len() && #[trigger] pieces[j].points@.contains(p);
                        let l = choose|l: int| 0 <= l < pieces[j].points@.len() && pieces[j].points@[l] == p;
                        lemma_component_is_cluster(image, pieces, j, l);
                    }
                } else if pieces.len() > 0 {
                    let j = choose|j: int| 0 <= j < pieces.len() && pieces[j].points@.len() < BREAK_AT_LEAST;
                    lemma_component_is_cluster(image, pieces, j, 0);
                    assert(image.has_color(pieces[j].points@[0], true));
                }
            } else {
                assert forall|x: int, y: int| !#[trigger] img0.first_break(x, y) by {
                    assert(!img0.breaks_at(x, y));
                }
            }
            assert(broke == img0.breaks());
            lemma_drawings_break_alike(*cluster, img0);
        }
        proof {
            if broke {
                assert(image.ink_set().len() < cluster.points@.len());
                lemma_pieces_fit(*cluster, image, pieces);
                lemma_cut_into_drawings(*cluster, img0, image, pieces, x0, y0);
                lemma_parts_within_limit(*cluster, img0, pieces);
            }
        }
        (clusters, broke)
    }

    /// Breaks `cluster` at its first waist into clusters of at least `BREAK_AT_LEAST`
    /// points and breaks each of those in turn, appending the pieces to `output`; appends
    /// `cluster` itself where it does not break.
    #[verifier::rlimit(30)]
    pub fn break_cluster_recursive(cluster: Cluster, output: &mut Clusters)
        requires
            cluster.drawable(),
            cluster.breaks_within_limit(),
        ensures
            final(output).clusters@.len() > old(output).clusters@.len(),
            final(output).clusters@.subrange(0, old(output).clusters@.len() as int) == old(output).clusters@,
            cluster.break_result(final(output).clusters@.skip(old(output).clusters@.len() as int)),
            cluster.broken_into(final(output).clusters@.skip(old(output).clusters@.len() as int)),
            final(output).rect == fold_rects(
                old(output).rect,
                final(output).clusters@.skip(old(output).clusters@.len() as int),
            ),
        decreases cluster.points@.len(),
    {
        let (clusters, broke) = Self::split_at_waist(&cluster);
        let ghost pieces = clusters.clusters@;
        if broke {
            let ghost out0 = output.clusters@;
            let ghost rect0 = output.rect;
            let o = PointI32 { x: cluster.rect.left, y: cluster.rect.top };
            let ghost mut owner: Seq<int> = Seq::empty();
            let ghost mut parts: Seq<Cluster> = Seq::empty();
            let ghost mut cuts: Seq<int> = seq![0];
            proof {
                assert(output.clusters@.skip(out0.len() as int) =~= Seq::<Cluster>::empty());
                assert(output.clusters@.subrange(0, out0.len() as int) =~= out0);
            }
            for cc in it: clusters.clusters.into_iter()
                invariant
                    it.seq() == pieces,
                    o == (PointI32 { x: cluster.rect.left, y: cluster.rect.top }),
                    pieces.len() > 0,
                    pieces_fit(cluster, pieces, o),
                    forall|k: int, part: Cluster|
                        0 <= k < pieces.len() && #[trigger] moved_by(pieces[k], cluster.origin(), part)
                            && part.drawable() ==> part.breaks_within_limit(),
                    output.clusters@.len() >= out0.len() + it.index(),
                    output.clusters@.subrange(0, out0.len() as int) == out0,
                    output.rect == fold_rects(rect0, output.clusters@.skip(out0.len() as int)),
                    owner.len() == output.clusters@.len() - out0.len(),
                    forall|i: int| 0 <= i < owner.len() ==> {
                        &&& 0 <= #[trigger] owner[i] < it.index()
                        &&& output.clusters@[out0.len() + i].point_set().subset_of(moved_set(pieces[owner[i]], o))
                        &&& output.clusters@[out0.len() + i].is_piece()
                    },
                    forall|i: int, j: int| out0.len() <= i < j < output.clusters@.len() ==>
                        (#[trigger] output.clusters@[i]).point_set().disjoint((#[trigger] output.clusters@[j]).point_set()),
                    parts.len() == it.index(),
                    cuts.len() == it.index() + 1,
                    cuts[0] == 0,
                    cuts[it.index() as int] == output.clusters@.len() - out0.len(),
                    forall|i: int, j: int| 0 <= i <= j < cuts.len() ==> #[trigger] cuts[i] <= #[trigger] cuts[j],
                    forall|k: int| 0 <= k < parts.len() ==> #[trigger] moved_by(pieces[k], o, parts[k]),
                    forall|k: int|
                        0 <= k < parts.len() ==> (#[trigger] parts[k]).broken_into(
                            output.clusters@.subrange(out0.len() + cuts[k], out0.len() + cuts[k + 1]),
                        ),
            {
                let ghost k = it.index() as int;
                let mut cc = cc;
                assert(cc == pieces[k]);
                cc.offset(o);
                let ghost before = output.clusters@;
                let ghost rect_before = output.rect;
                proof {
                    assert(cc.point_set() == moved_set(pieces[k], o));
                    lemma_shift_no_duplicates(pieces[k].points@, o);
                    assert(cc.is_piece());
                    assert(moved_by(pieces[k], cluster.origin(), cc));
                }
                Self::break_cluster_recursive(cc, output);
                proof {
                    lemma_segments_push(out0.len() as int, before, output.clusters@, parts, cuts, cc);
                    parts = parts.push(cc);
                    cuts = cuts.push(output.clusters@.len() - out0.len());
                }
                proof {
                    let call = output.clusters@.skip(before.len() as int);
                    let added_old = before.skip(out0.len() as int);
                    assert(output.clusters@.skip(out0.len() as int) =~= added_old + call);
                    lemma_fold_rects_append(rect0, added_old, call);
                    assert(output.clusters@.subrange(0, out0.len() as int) =~= out0) by {
                        assert(output.clusters@.subrange(0, before.len() as int) == before);
                        assert forall|i: int| 0 <= i < out0.len() implies output.clusters@[i] == out0[i] by {
                            assert(output.clusters@[i] == output.clusters@.subrange(0, before.len() as int)[i]);
                            assert(before[i] == before.subrange(0, out0.len() as int)[i]);
                        }
                    }
                    let owner_old = owner;
                    owner = owner + Seq::new(call.len(), |i: int| k);
                    assert forall|i: int| 0 <= i < call.len() implies (#[trigger] call[i]).is_piece() by {
                        if call == seq![cc] {
                            assert(call[i] == cc);
                        }
                    }
                    assert forall|i: int| 0 <= i < owner.len() implies {
                        &&& 0 <= #[trigger] owner[i] < it.index() + 1
                        &&& output.clusters@[out0.len() + i].point_set().subset_of(moved_set(pieces[owner[i]], o))
                        &&& output.clusters@[out0.len() + i].is_piece()
                    } by {
                        if i < owner_old.len() {
                            assert(owner[i] == owner_old[i]);
                            assert(output.clusters@[out0.len() + i] == before[out0.len() + i]) by {
                                assert(output.clusters@.subrange(0, before.len() as int)[out0.len() + i]
                                    == before[out0.len() + i]);
                            }
                        } else {
                            let c = i - owner_old.len();
                            assert(owner[i] == k);
                            assert(output.clusters@[out0.len() + i] == call[c]);
                        }
                    }
                    assert forall|i: int, j: int| out0.len() <= i < j < output.clusters@.len() implies
                        (#[trigger] output.clusters@[i]).point_set().disjoint((#[trigger] output.clusters@[j]).point_set()) by {
                        let bl = before.len() as int;
                        if j < bl {
                            assert(output.clusters@[i] == before[i]) by {
                                assert(output.clusters@.subrange(0, bl)[i] == before[i]);
                            }
                            assert(output.clusters@[j] == before[j]) by {
                                assert(output.clusters@.subrange(0, bl)[j] == before[j]);
                            }
                        } else if i >= bl {
                            assert(output.clusters@[i] == call[i - bl]);
                            assert(output.clusters@[j] == call[j - bl]);
                        } else {
                            let ii = i - out0.len();
                            let jj = j - out0.len();
                            assert(owner[ii] < k);
                            assert(owner[jj] == k);
                            let ki = owner[ii];
                            assert(moved_set(pieces[ki], o).disjoint(moved_set(pieces[k], o)));
                            assert(output.clusters@[j] == call[j - bl]);
                            assert(call[j - bl].point_set().subset_of(cc.point_set()));
                        }
                    }
                }
            }
            proof {
                let added = output.clusters@.skip(out0.len() as int);
                assert forall|i: int| 0 <= i < added.len() implies (#[trigger] added[i]).point_set().subset_of(cluster.point_set()) by {
                    assert(added[i] == output.clusters@[out0.len() + i]);
                    assert(moved_set(pieces[owner[i]], o).subset_of(cluster.point_set()));
                }
                assert forall|i: int, j: int| 0 <= i < j < added.len() implies
                    (#[trigger] added[i]).point_set().disjoint((#[trigger] added[j]).point_set()) by {
                    assert(added[i] == output.clusters@[out0.len() + i]);
                    assert(added[j] == output.clusters@[out0.len() + j]);
                }
                assert forall|i: int| 0 <= i < added.len() implies (#[trigger] added[i]).is_piece() by {
                    assert(added[i] == output.clusters@[out0.len() + i]);
                    assert(0 <= owner[i]);
                }
                assert forall|k: int| 0 <= k < parts.len() implies (#[trigger] parts[k]).broken_into(
                    added.subrange(cuts[k], cuts[k + 1]),
                ) by {
                    assert(cuts[0] <= cuts[k] && cuts[k] <= cuts[k + 1]);
                    assert(added.subrange(cuts[k], cuts[k + 1]) =~= output.clusters@.subrange(
                        out0.len() + cuts[k],
                        out0.len() + cuts[k + 1],
                    ));
                }
                assert forall|k: int| 0 <= k < parts.len() implies (#[trigger] parts[k]).points@.len()
                    < cluster.points@.len() by {
                    assert(moved_by(pieces[k], o, parts[k]));
                }
                lemma_broken_into_split(cluster, pieces, parts, cuts, added);
            }
        } else {
            let ghost out0 = output.clusters@;
            output.add_cluster(cluster);
            proof {
                assert(output.clusters@.skip(out0.len() as int) =~= seq![cluster]);
                assert(output.clusters@.subrange(0, out0.len() as int) =~= out0);
                assert(seq![cluster].drop_last() =~= Seq::<Cluster>::empty());
                assert(fold_rects(old(output).rect, Seq::<Cluster>::empty()) == old(output).rect);
                assert(fold_rects(old(output).rect, seq![cluster]) == old(output).rect.merged(cluster.rect));
            }
        }
    }

    /// Breaks `cluster` into pieces; see `break_cluster_recursive`.
    pub fn break_cluster(cluster: Cluster) -> (clusters: Clusters)
        requires
            cluster.drawable(),
            cluster.breaks_within_limit(),
        ensures
            cluster.break_result(clusters.clusters@),
            cluster.broken_into(clusters.clusters@),
            clusters.rect == fold_rects(BoundingRect::zero(), clusters.clusters@),
    {
        let mut clusters = Clusters::default();
        Self::break_cluster_recursive(cluster, &mut clusters);
        proof {
            assert(clusters.clusters@.skip(0) =~= clusters.clusters@);
        }
        clusters
    }
}

/// A cluster whose drawing shows no waist comes back whole from breaking.
pub proof fn lemma_no_waist_comes_back_whole(cluster: Cluster, img: BinaryImage, added: Seq<Cluster>)
    requires
        cluster.draws(img),
        cluster.broken_into(added),
        forall|x: int, y: int| !#[trigger] img.thin_at(x, y),
    ensures
        added == seq![cluster],
{
    if img.breaks() {
        let (x, y) = choose|x: int, y: int|
            #[trigger] img.first_break(x, y) && forall|img2: BinaryImage|
                #[trigger] img2.unset_at(img, img.break_point(x, y)) ==> img2.pieces_at_least(BREAK_AT_LEAST as nat);
        lemma_breaks_at_thin(img, x, y);
        assert(img.thin_at(x, y));
    }
}

/// Where the drawing breaks, breaking cut it at its first waist in row-major order.
proof fn lemma_break_cut_split(cluster: Cluster, img: BinaryImage, added: Seq<Cluster>)
    requires
        cluster.drawable(),
        cluster.draws(img),
        cluster.broken_into(added),
        img.breaks(),
    ensures
        exists|x: int, y: int, cut: BinaryImage, pieces: Seq<Cluster>, parts: Seq<Cluster>, cuts: Seq<int>|
            {
                &&& #[trigger] first_thin(img, x, y)
                &&& cut.width == img.width
                &&& cut.height == img.height
                &&& forall|a: int, b: int| #[trigger] cut.pixel(a, b) == (img.pixel(a, b) && !(b == y + 1 && a == (if img.pixel(
                    x + 2,
                    y + 1,
                ) {
                    x + 1
                } else {
                    x
                })))
                &&& #[trigger] clusters_of(pieces, cut, true, false)
                &&& #[trigger] cluster.split_as(img, pieces, parts, cuts, added.len() as int)
                &&& forall|k: int|
                    0 <= k < parts.len() ==> (#[trigger] parts[k]).broken_into(added.subrange(cuts[k], cuts[k + 1]))
            },
{
    let (pieces, parts, cuts) = choose|pieces: Seq<Cluster>, parts: Seq<Cluster>, cuts: Seq<int>| {
        &&& #[trigger] cluster.split_as(img, pieces, parts, cuts, added.len() as int)
        &&& forall|k: int| 0 <= k < parts.len() ==> (#[trigger] parts[k]).points@.len() < cluster.points@.len()
        &&& forall|k: int|
            0 <= k < parts.len() ==> (#[trigger] parts[k]).broken_into(added.subrange(cuts[k], cuts[k + 1]))
    };
    assert(img.cut_into(pieces));
    let (x, y, cut) = choose|x: int, y: int, cut: BinaryImage| #[trigger] img.cut_at(x, y, cut, pieces);
    lemma_breaks_at_thin(img, x, y);
    assert forall|a: int, b: int| (b < y || (b == y && a < x)) implies !#[trigger] img.thin_at(a, b) by {
        assert(scanned(a, b, x, y));
        lemma_breaks_at_thin(img, a, b);
    }
    assert(first_thin(img, x, y));
    assert(img.width <= i32::MAX && img.height <= i32::MAX);
    assert(0 <= x && x + 1 < img.width && 0 <= y && y + 1 < img.height) by {
        assert(img.pixel(x, y + 1) && img.pixel(x + 1, y + 1));
    }
    assert forall|a: int, b: int| #[trigger] cut.pixel(a, b) == (img.pixel(a, b) && !(b == y + 1 && a == (if img.pixel(
        x + 2,
        y + 1,
    ) {
        x + 1
    } else {
        x
    }))) by {
        assert(img.pixel(x, y + 1) && img.pixel(x + 1, y + 1));
        assert(cut.pixel(a, b) == (!(a == img.break_point(x, y).x && b == img.break_point(x, y).y) && img.pixel(a, b)));
    }
}

/// Where breaking changes a cluster, it cut the drawing at its first waist in row-major
/// order: the drawing with the pixel of that waist unset (the right middle one where the
/// middle row goes on to the right, the left middle one otherwise) has the clusters
/// `pieces`, edges only, which moved back to the place of the cluster are broken in turn
/// into consecutive runs of what breaking gave.
pub proof fn lemma_break_cuts_first_waist(cluster: Cluster, img: BinaryImage, added: Seq<Cluster>)
    requires
        cluster.drawable(),
        cluster.draws(img),
        cluster.broken_into(added),
        added != seq![cluster],
    ensures
        exists|x: int, y: int, cut: BinaryImage, pieces: Seq<Cluster>, parts: Seq<Cluster>, cuts: Seq<int>|
            {
                &&& #[trigger] first_thin(img, x, y)
                &&& cut.width == img.width
                &&& cut.height == img.height
                &&& forall|a: int, b: int| #[trigger] cut.pixel(a, b) == (img.pixel(a, b) && !(b == y + 1 && a == (if img.pixel(
                    x + 2,
                    y + 1,
                ) {
                    x + 1
                } else {
                    x
                })))
                &&& #[trigger] clusters_of(pieces, cut, true, false)
                &&& #[trigger] cluster.split_as(img, pieces, parts, cuts, added.len() as int)
                &&& forall|k: int|
                    0 <= k < parts.len() ==> (#[trigger] parts[k]).broken_into(added.subrange(cuts[k], cuts[k + 1]))
            },
{
    assert(img.breaks());
    lemma_break_cut_split(cluster, img, added);
}

/// Where cutting the first waist of the drawing (in row-major order) leaves only clusters of
/// five pixels or more, breaking cuts the cluster there: as `lemma_break_cuts_first_waist`
/// states.
pub proof fn lemma_big_pieces_break(
    cluster: Cluster,
    img: BinaryImage,
    added: Seq<Cluster>,
    x: int,
    y: int,
    cut: BinaryImage,
)
    requires
        cluster.drawable(),
        cluster.draws(img),
        cluster.broken_into(added),
        first_thin(img, x, y),
        cut.wf(),
        cut.width == img.width,
        cut.height == img.height,
        forall|a: int, b: int| #[trigger] cut.pixel(a, b) == (img.pixel(a, b) && !(b == y + 1 && a == (if img.pixel(
            x + 2,
            y + 1,
        ) {
            x + 1
        } else {
            x
        }))),
        forall|q: PointI32| #[trigger] cut.has_color(q, true) ==> cut.component(q).len() >= 5,
    ensures
        exists|x: int, y: int, cut: BinaryImage, pieces: Seq<Cluster>, parts: Seq<Cluster>, cuts: Seq<int>|
            {
                &&& #[trigger] first_thin(img, x, y)
                &&& cut.width == img.width
                &&& cut.height == img.height
                &&& forall|a: int, b: int| #[trigger] cut.pixel(a, b) == (img.pixel(a, b) && !(b == y + 1 && a == (if img.pixel(
                    x + 2,
                    y + 1,
                ) {
                    x + 1
                } else {
                    x
                })))
                &&& #[trigger] clusters_of(pieces, cut, true, false)
                &&& #[trigger] cluster.split_as(img, pieces, parts, cuts, added.len() as int)
                &&& forall|k: int|
                    0 <= k < parts.len() ==> (#[trigger] parts[k]).broken_into(added.subrange(cuts[k], cuts[k + 1]))
            },
{
    lemma_breaks_at_thin(img, x, y);
    assert forall|a: int, b: int| scanned(a, b, x, y) implies !#[trigger] img.breaks_at(a, b) by {
        lemma_breaks_at_thin(img, a, b);
    }
    assert(img.first_break(x, y));
    assert(img.width <= i32::MAX && img.height <= i32::MAX);
    assert(0 <= x && x + 1 < img.width && 0 <= y && y + 1 < img.height) by {
        assert(img.pixel(x, y + 1) && img.pixel(x + 1, y + 1));
    }
    let bp = img.break_point(x, y);
    assert(cut.pieces_at_least(BREAK_AT_LEAST as nat));
    assert forall|img2: BinaryImage| #[trigger] img2.unset_at(img, bp) implies img2.pieces_at_least(
        BREAK_AT_LEAST as nat,
    ) by {
        assert forall|a: int, b: int| #[trigger] cut.pixel(a, b) == img2.pixel(a, b) by {}
        assert(cut.same_pixels(img2));
        lemma_same_pixels_pieces(cut, img2, BREAK_AT_LEAST as nat);
    }
    assert(img.breaks());
    lemma_break_cut_split(cluster, img, added);
}

/// Where cutting the first waist of the drawing (in row-major order) would leave a cluster
/// of fewer than five pixels, the cluster comes back whole from breaking.
pub proof fn lemma_small_piece_comes_back_whole(
    cluster: Cluster,
    img: BinaryImage,
    added: Seq<Cluster>,
    x: int,
    y: int,
    cut: BinaryImage,
    p: PointI32,
)
    requires
        cluster.drawable(),
        cluster.draws(img),
        cluster.broken_into(added),
        first_thin(img, x, y),
        cut.wf(),
        cut.width == img.width,
        cut.height == img.height,
        forall|a: int, b: int| #[trigger] cut.pixel(a, b) == (img.pixel(a, b) && !(b == y + 1 && a == (if img.pixel(
            x + 2,
            y + 1,
        ) {
            x + 1
        } else {
            x
        }))),
        cut.has_color(p, true),
        cut.component(p).len() < 5,
    ensures
        added == seq![cluster],
{
    if img.breaks() {
        let (x1, y1) = choose|x: int, y: int|
            #[trigger] img.first_break(x, y) && forall|img2: BinaryImage|
                #[trigger] img2.unset_at(img, img.break_point(x, y)) ==> img2.pieces_at_least(BREAK_AT_LEAST as nat);
        lemma_breaks_at_thin(img, x1, y1);
        lemma_breaks_at_thin(img, x, y);
        if y1 < y || (y1 == y && x1 < x) {
            assert(!img.thin_at(x1, y1));
        } else if y < y1 || (y == y1 && x < x1) {
            assert(scanned(x, y, x1, y1));
            assert(!img.breaks_at(x, y));
        }
        assert(x1 == x && y1 == y);
        assert(img.width <= i32::MAX && img.height <= i32::MAX);
        assert(0 <= x && x + 1 < img.width && 0 <= y && y + 1 < img.height) by {
            assert(img.pixel(x, y + 1) && img.pixel(x + 1, y + 1));
        }
        let bp = img.break_point(x, y);
        assert forall|a: int, b: int| #[trigger] cut.pixel(a, b) == (!(a == bp.x && b == bp.y) && img.pixel(a, b)) by {}
        assert(cut.unset_at(img, bp));
        assert(cut.pieces_at_least(BREAK_AT_LEAST as nat));
        assert(cut.component(p).len() >= 5);
    }
}

/// What breaking gives, where it changes the cluster, are clusters of at least five points.
pub proof fn lemma_broken_pieces_at_least_five(cluster: Cluster, added: Seq<Cluster>)
    requires
        cluster.break_result(added),
        added != seq![cluster],
    ensures
        forall|i: int| 0 <= i < added.len() ==> (#[trigger] added[i]).points@.len() >= 5,
{
    assert forall|i: int| 0 <= i < added.len() implies (#[trigger] added[i]).points@.len() >= 5 by {
        assert(added[i].is_piece());
    }
}

} // verus!
