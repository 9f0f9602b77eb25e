//! Labelling of connected pixels in one row-major pass: `BinaryImage::to_clusters`.

use vstd::prelude::*;
use crate::point::PointI32;
use crate::opening::{class, merge_at, place_at, opener, final_opener, merge_members, place_members, members,
    final_members};
use crate::bound::{BoundingRect, lemma_bounds_insert, lemma_bounds_union, lemma_bounds_translate};
use crate::image::{BinaryImage, MonoImage, MonoImageItem, row_text, rows_text};
use crate::connect::{adjacent, path_step, lemma_linked_adjacent, lemma_linked_corners, lemma_linked_refl, lemma_linked_same_label,
    lemma_linked_symmetric, lemma_linked_transitive};
use crate::clusters::{Cluster, Clusters};

verus! {

/// Pixel `(px, py)` comes before the scan position `(x, y)` in row-major order.
pub open spec fn scanned(px: int, py: int, x: int, y: int) -> bool {
    py < y || (py == y && px < x)
}

impl BinaryImage {
    /// The scan opens a new cluster at `(x, y)`: the pixel is set and its upper and left
    /// neighbours (and, with `diagonal`, its upper left neighbour) are not.
    pub open spec fn starts_cluster(self, x: int, y: int, diagonal: bool) -> bool {
        &&& self.pixel(x, y)
        &&& !self.pixel(x, y - 1)
        &&& !self.pixel(x - 1, y)
        &&& !(diagonal && self.pixel(x - 1, y - 1))
    }

    /// The number of pixels of row `y` left of column `n` that open a cluster.
    pub open spec fn starts_in_row(self, y: int, n: int, diagonal: bool) -> nat
        decreases n,
    {
        if n <= 0 {
            0
        } else {
            self.starts_in_row(y, n - 1, diagonal) + if self.starts_cluster(n - 1, y, diagonal) {
                1nat
            } else {
                0nat
            }
        }
    }

    /// The number of pixels of the rows above row `n` that open a cluster.
    pub open spec fn starts_in_rows(self, n: int, diagonal: bool) -> nat
        decreases n,
    {
        if n <= 0 {
            0
        } else {
            self.starts_in_rows(n - 1, diagonal) + self.starts_in_row(n - 1, self.width as int, diagonal)
        }
    }

    /// The number of pixels that open a cluster in the scan of `to_clusters`.
    pub open spec fn cluster_starts(self, diagonal: bool) -> nat {
        self.starts_in_rows(self.height as int, diagonal)
    }

    /// The set pixels that come before `(x, y)`.
    pub open spec fn scanned_ink(self, x: int, y: int) -> Set<PointI32> {
        Set::new(|p: PointI32| self.has_color(p, true) && scanned(p.x as int, p.y as int, x, y))
    }
}

/// The clusters come in the order of their first points, and the first point of each is a
/// pixel where the scan of `image` opens a cluster.
pub open spec fn scan_ordered(cs: Seq<Cluster>, image: BinaryImage, diagonal: bool) -> bool {
    &&& forall|i: int|
        0 <= i < cs.len() ==> image.starts_cluster(
            (#[trigger] cs[i]).points@[0].x as int,
            cs[i].points@[0].y as int,
            diagonal,
        )
    &&& forall|i: int, j: int|
        0 <= i < j < cs.len() ==> scan_before((#[trigger] cs[i]).points@[0], (#[trigger] cs[j]).points@[0])
}

/// The first point of each cluster is its name once a scan of the set pixels of `image`
/// (with `diagonal`, corners joining too) that merges the smaller of two meeting clusters
/// into the larger has seen the image.
pub open spec fn scan_named(cs: Seq<Cluster>, image: BinaryImage, diagonal: bool) -> bool {
    forall|i: int, k: int|
        0 <= i < cs.len() && 0 <= k < cs[i].points@.len() ==> cs[i].points@[0] == final_opener(image, true, diagonal)(
            #[trigger] cs[i].points@[k],
        )
}

/// Each cluster holds, in order, the points that a scan of the set pixels of `image` (with
/// `diagonal`, corners joining too) lists for its first point.
pub open spec fn scan_listed(cs: Seq<Cluster>, image: BinaryImage, diagonal: bool) -> bool {
    forall|i: int| 0 <= i < cs.len() ==> (#[trigger] cs[i]).points@ == final_members(image, true, diagonal)(cs[i].points@[0])
}

impl Clusters {
    /// The clusters come in the order of their first points, and the first point of each
    /// is a pixel where the scan of `image` opens a cluster.
    pub open spec fn in_scan_order(self, image: BinaryImage, diagonal: bool) -> bool {
        scan_ordered(self.clusters@, image, diagonal)
    }

    /// The first point of each cluster is its name once a scan of the set pixels of
    /// `image` (with `diagonal`, corners joining too) that merges the smaller of two
    /// meeting clusters into the larger has seen the whole image.
    pub open spec fn named_as_scanned(self, image: BinaryImage, diagonal: bool) -> bool {
        scan_named(self.clusters@, image, diagonal)
    }

    /// Each cluster holds, in order, the points that a scan of the set pixels of `image`
    /// (with `diagonal`, corners joining too) that merges the smaller of two meeting
    /// clusters into the larger lists for its first point: its pixels in the order the
    /// scan reached them, the points of a cluster merged into it after its own.
    pub open spec fn listed_as_scanned(self, image: BinaryImage, diagonal: bool) -> bool {
        scan_listed(self.clusters@, image, diagonal)
    }

    /// `self` holds exactly the clusters of the pixels of value `color` in `image`: each a
    /// non-empty set of such pixels without repeats, with its bounding rect; every such
    /// pixel in one of them; two pixels in the same cluster exactly when a path of pixels
    /// of value `color` joins them. `self.rect` bounds all the pixels of value `color`.
    pub open spec fn are_clusters_of(self, image: BinaryImage, color: bool, diagonal: bool) -> bool {
        clusters_of(self.clusters@, image, color, diagonal)
    }
}

/// `cs` holds exactly the clusters of the pixels of value `color` in `image`; see
/// `Clusters::are_clusters_of`.
pub open spec fn clusters_of(cs: Seq<Cluster>, image: BinaryImage, color: bool, diagonal: bool) -> bool {
        &&& forall|i: int|
            0 <= i < cs.len() ==> {
                &&& (#[trigger] cs[i]).points@.len() > 0
                &&& cs[i].points@.no_duplicates()
                &&& cs[i].wf()
            }
        &&& forall|i: int, k: int|
            0 <= i < cs.len() && 0 <= k < cs[i].points@.len() ==> image.has_color(
                #[trigger] cs[i].points@[k],
                color,
            )
        &&& forall|p: PointI32|
            #[trigger] image.has_color(p, color) ==> exists|i: int|
                0 <= i < cs.len() && #[trigger] cs[i].points@.contains(p)
        &&& forall|i: int, j: int, k: int, l: int|
            0 <= i < cs.len() && 0 <= j < cs.len() && 0 <= k < cs[i].points@.len() && 0 <= l
                < cs[j].points@.len() ==> (image.linked(
                #[trigger] cs[i].points@[k],
                #[trigger] cs[j].points@[l],
                color,
                diagonal,
            ) <==> i == j)
}

/// The label that `map` holds for `p`.
pub open spec fn label_of(map: MonoImage, p: PointI32) -> int {
    map.at(p.x as int, p.y as int) as int
}

/// The pair `p`, `q` has been fully seen by a scan at `(x, y)`: both come before it, and
/// for a pair on a rising diagonal, so does the pixel right of the lower one.
pub open spec fn pair_closed(p: PointI32, q: PointI32, x: int, y: int) -> bool {
    &&& scanned(p.x as int, p.y as int, x, y)
    &&& scanned(q.x as int, q.y as int, x, y)
    &&& !(p.x == q.x + 1 && p.y == q.y - 1 && !scanned(q.x + 1, q.y as int, x, y))
    &&& !(q.x == p.x + 1 && q.y == p.y - 1 && !scanned(p.x + 1, p.y as int, x, y))
}

/// The labelling state of the scan of `to_clusters`, before pixel `(x, y)`.
pub open spec fn shape_ok(image: BinaryImage, clusters: Seq<Cluster>, map: MonoImage, index: int) -> bool {
    &&& map.wf()
    &&& map.width == image.width
    &&& map.height == image.height
    &&& index <= clusters.len() <= index + 1
    &&& clusters.len() <= 65535
    &&& index < clusters.len() ==> clusters[index].points@.len() == 0
}

/// Every set pixel seen so far is in the cluster its label names, and every point of a
/// cluster is a set pixel seen so far that carries the label of that cluster.
pub open spec fn members_ok(image: BinaryImage, clusters: Seq<Cluster>, map: MonoImage, x: int, y: int) -> bool {
    &&& forall|p: PointI32|
        #[trigger] image.has_color(p, true) && scanned(p.x as int, p.y as int, x, y) ==> {
            &&& 0 <= label_of(map, p) < clusters.len()
            &&& clusters[label_of(map, p)].points@.contains(p)
        }
    &&& forall|c: int, k: int|
        0 <= c < clusters.len() && 0 <= k < clusters[c].points@.len() ==> {
            let q = #[trigger] clusters[c].points@[k];
            &&& image.has_color(q, true)
            &&& scanned(q.x as int, q.y as int, x, y)
            &&& label_of(map, q) == c
        }
}

/// Each cluster holds no point twice, has its bounding rect when not empty, and holds
/// only linked points.
pub open spec fn clusters_ok(image: BinaryImage, diagonal: bool, clusters: Seq<Cluster>) -> bool {
    &&& forall|c: int| 0 <= c < clusters.len() ==> (#[trigger] clusters[c]).points@.no_duplicates()
    &&& forall|c: int|
        0 <= c < clusters.len() && (#[trigger] clusters[c]).points@.len() > 0 ==> clusters[c].wf()
    &&& forall|c: int, k1: int, k2: int|
        0 <= c < clusters.len() && 0 <= k1 < clusters[c].points@.len() && 0 <= k2
            < clusters[c].points@.len() ==> image.linked(
            #[trigger] clusters[c].points@[k1],
            #[trigger] clusters[c].points@[k2],
            true,
            diagonal,
        )
}

/// Neighbouring set pixels of every pair seen so far carry the same label.
pub open spec fn closed_ok(image: BinaryImage, diagonal: bool, map: MonoImage, x: int, y: int) -> bool {
    forall|p: PointI32, q: PointI32|
        image.has_color(p, true) && image.has_color(q, true) && #[trigger] adjacent(p, q, diagonal)
            && pair_closed(p, q, x, y) ==> label_of(map, p) == label_of(map, q)
}

/// The whole labelling state before pixel `(x, y)`.
pub open spec fn scan_ok(
    image: BinaryImage,
    diagonal: bool,
    clusters: Seq<Cluster>,
    map: MonoImage,
    index: int,
    rect: BoundingRect,
    x: int,
    y: int,
) -> bool {
    &&& shape_ok(image, clusters, map, index)
    &&& members_ok(image, clusters, map, x, y)
    &&& clusters_ok(image, diagonal, clusters)
    &&& closed_ok(image, diagonal, map, x, y)
    &&& rect.bounds(image.scanned_ink(x, y))
    &&& rect.is_empty_spec() ==> rect == BoundingRect::zero()
    &&& index <= image.starts_in_rows(y, diagonal) + image.starts_in_row(y, x, diagonal)
}

/// `p` comes before `q` in row-major order.
pub open spec fn scan_before(p: PointI32, q: PointI32) -> bool {
    scanned(p.x as int, p.y as int, q.x as int, q.y as int)
}

/// Each cluster that is not empty starts with the pixel where the scan opened it, and the
/// clusters that are not empty come in the order of those pixels.
pub open spec fn order_ok(image: BinaryImage, diagonal: bool, clusters: Seq<Cluster>) -> bool {
    &&& forall|c: int|
        0 <= c < clusters.len() && (#[trigger] clusters[c]).points@.len() > 0 ==> image.starts_cluster(
            clusters[c].points@[0].x as int,
            clusters[c].points@[0].y as int,
            diagonal,
        )
    &&& forall|c1: int, c2: int|
        0 <= c1 < c2 < clusters.len() && (#[trigger] clusters[c1]).points@.len() > 0
            && (#[trigger] clusters[c2]).points@.len() > 0 ==> scan_before(
            clusters[c1].points@[0],
            clusters[c2].points@[0],
        )
}

/// Merging cluster `from` into a cluster `to` that is not empty keeps the order.
proof fn lemma_combine_order(
    image: BinaryImage,
    diagonal: bool,
    clusters: Seq<Cluster>,
    clusters2: Seq<Cluster>,
    from: int,
    to: int,
)
    requires
        order_ok(image, diagonal, clusters),
        0 <= from < clusters.len(),
        0 <= to < clusters.len(),
        clusters[to].points@.len() > 0,
        clusters2.len() == clusters.len(),
        forall|c: int| 0 <= c < clusters.len() && c != from && c != to ==> #[trigger] clusters2[c] == clusters[c],
        clusters2[from].points@ == Seq::<PointI32>::empty(),
        clusters2[to].points@ == clusters[to].points@ + clusters[from].points@,
    ensures
        order_ok(image, diagonal, clusters2),
{
    assert(clusters2[to].points@[0] == clusters[to].points@[0]);
    assert forall|c: int| 0 <= c < clusters2.len() && (#[trigger] clusters2[c]).points@.len() > 0 implies
        clusters2[c].points@[0] == clusters[c].points@[0] && clusters[c].points@.len() > 0 by {
        if c != from && c != to {
            assert(clusters2[c] == clusters[c]);
        }
    }
}

/// Adding a point at the end of a cluster that is not empty keeps the order.
proof fn lemma_push_order(
    image: BinaryImage,
    diagonal: bool,
    clusters: Seq<Cluster>,
    clusters2: Seq<Cluster>,
    t: int,
    p: PointI32,
)
    requires
        order_ok(image, diagonal, clusters),
        0 <= t < clusters.len(),
        clusters[t].points@.len() > 0,
        clusters2.len() == clusters.len(),
        forall|c: int| 0 <= c < clusters.len() && c != t ==> #[trigger] clusters2[c] == clusters[c],
        clusters2[t].points@ == clusters[t].points@.push(p),
    ensures
        order_ok(image, diagonal, clusters2),
{
    assert forall|c: int| 0 <= c < clusters2.len() && (#[trigger] clusters2[c]).points@.len() > 0 implies
        clusters2[c].points@[0] == clusters[c].points@[0] && clusters[c].points@.len() > 0 by {
        if c != t {
            assert(clusters2[c] == clusters[c]);
        }
    }
}

/// Opening a cluster at `p`, past every point so far, in a slot past every cluster that
/// is not empty, keeps the order.
proof fn lemma_open_order(
    image: BinaryImage,
    diagonal: bool,
    clusters: Seq<Cluster>,
    clusters2: Seq<Cluster>,
    index: int,
    p: PointI32,
)
    requires
        order_ok(image, diagonal, clusters),
        0 <= index <= clusters.len(),
        clusters2.len() == if index < clusters.len() { clusters.len() } else { clusters.len() + 1 },
        forall|c: int| index <= c < clusters.len() ==> (#[trigger] clusters[c]).points@.len() == 0,
        forall|c: int| 0 <= c < clusters2.len() && c != index ==> #[trigger] clusters2[c] == clusters[c],
        clusters2[index].points@ == seq![p],
        image.starts_cluster(p.x as int, p.y as int, diagonal),
        forall|c: int|
            0 <= c < clusters.len() && (#[trigger] clusters[c]).points@.len() > 0 ==> scan_before(
                clusters[c].points@[0],
                p,
            ),
    ensures
        order_ok(image, diagonal, clusters2),
{
    assert forall|c: int| 0 <= c < clusters2.len() && c != index && (#[trigger] clusters2[c]).points@.len() > 0
        implies c < index && clusters2[c].points@[0] == clusters[c].points@[0] && clusters[c].points@.len() > 0 by {
        assert(clusters2[c] == clusters[c]);
    }
    assert forall|c1: int, c2: int|
        0 <= c1 < c2 < clusters2.len() && (#[trigger] clusters2[c1]).points@.len() > 0
            && (#[trigger] clusters2[c2]).points@.len() > 0 implies scan_before(
        clusters2[c1].points@[0],
        clusters2[c2].points@[0],
    ) by {
        if c2 == index {
            assert(clusters2[c2].points@[0] == p);
        } else {
            assert(c1 != index);
            assert(clusters2[c1] == clusters[c1]);
            assert(clusters2[c2] == clusters[c2]);
        }
    }
}

/// Each set pixel seen before `(x, y)` lies in a cluster whose first point is the name `f`
/// gives the pixel.
pub open spec fn named_by(
    image: BinaryImage,
    clusters: Seq<Cluster>,
    map: MonoImage,
    x: int,
    y: int,
    f: spec_fn(PointI32) -> PointI32,
) -> bool {
    forall|p: PointI32|
        #[trigger] image.has_color(p, true) && scanned(p.x as int, p.y as int, x, y) ==> clusters[label_of(
            map,
            p,
        )].points@[0] == f(p)
}

/// The slot counter of the scan of `to_clusters`: the next free slot, the number of slots,
/// the slot of the cluster of each name, and the highest the counter has been.
pub type Slots = (int, int, spec_fn(PointI32) -> int, int);

/// A merge at `(x, y)` as `merge_at` makes it frees the newest slot where the left cluster,
/// merged into the upper one, held it and no empty slot waits past it.
pub open spec fn slots_merge(
    image: BinaryImage,
    diagonal: bool,
    f: spec_fn(PointI32) -> PointI32,
    s: Slots,
    x: int,
    y: int,
) -> Slots {
    let up = pt(x, y - 1);
    let left = pt(x - 1, y);
    if (image.has_color(pt(x, y), true) || diagonal) && image.has_color(up, true) && image.has_color(left, true)
        && f(up) != f(left) && class(image, true, f, x, y, f(left)).len() <= class(image, true, f, x, y, f(up)).len()
        && s.0 > 0 && (s.2)(f(left)) == s.0 - 1 && s.0 == s.1 {
        (s.0 - 1, s.1, s.2, s.3)
    } else {
        s
    }
}

/// Opening a cluster at `(x, y)` takes the next free slot, past the last one if none waits.
pub open spec fn slots_place(image: BinaryImage, diagonal: bool, s: Slots, x: int, y: int) -> Slots {
    if image.starts_cluster(x, y, diagonal) {
        let c = pt(x, y);
        let next = s.0 + 1;
        (
            next,
            if s.0 < s.1 { s.1 } else { s.1 + 1 },
            |n: PointI32| if n == c { s.0 } else { (s.2)(n) },
            if next > s.3 { next } else { s.3 },
        )
    } else {
        s
    }
}

/// The slot counter before `(x, y)`.
pub open spec fn slots(image: BinaryImage, diagonal: bool, x: int, y: int) -> Slots
    decreases y, x,
{
    if y <= 0 && x <= 0 {
        (0, 0, |n: PointI32| 0int, 0)
    } else if x <= 0 {
        slots(image, diagonal, image.width as int, y - 1)
    } else {
        slots_place(
            image,
            diagonal,
            slots_merge(image, diagonal, opener(image, true, diagonal, x - 1, y), slots(image, diagonal, x - 1, y), x - 1, y),
            x - 1,
            y,
        )
    }
}

impl BinaryImage {
    /// The slot counter of the scan of `to_clusters` never reaches 65535.
    pub open spec fn scan_within_limit(self, diagonal: bool) -> bool {
        slots(self, diagonal, 0, self.height as int).3 < 65535
    }
}

/// The clusters sit in the slots the counter gives their names, as many as it counts,
/// with the next free slot the one it names.
pub open spec fn slotted(clusters: Seq<Cluster>, index: int, s: Slots) -> bool {
    &&& index == s.0
    &&& clusters.len() == s.1
    &&& 0 <= s.0 <= s.3
    &&& forall|c: int|
        0 <= c < clusters.len() && (#[trigger] clusters[c]).points@.len() > 0 ==> (s.2)(clusters[c].points@[0]) == c
}

/// The counter never goes below zero nor above its highest, and its highest is at most
/// the number of clusters the scan has opened.
pub proof fn lemma_slots_bounds(image: BinaryImage, diagonal: bool, x: int, y: int)
    requires
        0 <= x <= image.width,
        0 <= y <= image.height,
        y == image.height ==> x == 0,
    ensures
        0 <= slots(image, diagonal, x, y).0 <= slots(image, diagonal, x, y).3,
        slots(image, diagonal, x, y).3 <= image.starts_in_rows(y, diagonal) + image.starts_in_row(y, x, diagonal),
    decreases y, x,
{
    if y <= 0 && x <= 0 {
    } else if x <= 0 {
        lemma_slots_bounds(image, diagonal, image.width as int, y - 1);
    } else {
        lemma_slots_bounds(image, diagonal, x - 1, y);
    }
}

/// The highest the counter has been grows along the scan up to its end.
pub proof fn lemma_slots_peak_le_final(image: BinaryImage, diagonal: bool, x: int, y: int)
    requires
        0 <= x <= image.width,
        0 <= y < image.height,
    ensures
        slots(image, diagonal, x, y).3 <= slots(image, diagonal, 0, image.height as int).3,
    decreases image.height - y, image.width - x,
{
    if x < image.width {
        lemma_slots_peak_le_final(image, diagonal, x + 1, y);
        assert(slots(image, diagonal, x, y).3 <= slots(image, diagonal, x + 1, y).3);
    } else if y + 1 < image.height {
        assert(slots(image, diagonal, 0, y + 1) == slots(image, diagonal, x, y));
        lemma_slots_peak_le_final(image, diagonal, 0, y + 1);
    } else {
        assert(slots(image, diagonal, 0, y + 1) == slots(image, diagonal, x, y));
    }
}

/// Fewer than 65535 cluster openings keep the counter within the limit.
pub proof fn lemma_few_starts_within_limit(image: BinaryImage, diagonal: bool)
    requires
        image.cluster_starts(diagonal) < 65535,
    ensures
        image.scan_within_limit(diagonal),
{
    lemma_slots_bounds(image, diagonal, 0, image.height as int);
}

/// Merging two clusters, and freeing the newest slot where the code does, counts as
/// `slots_merge` says.
proof fn lemma_merge_slotted(
    image: BinaryImage,
    diagonal: bool,
    clusters: Seq<Cluster>,
    map: MonoImage,
    index: int,
    rect: BoundingRect,
    x: int,
    y: int,
    f: spec_fn(PointI32) -> PointI32,
    s: Slots,
    keep_up: bool,
    clusters2: Seq<Cluster>,
    map2: MonoImage,
    index2: int,
)
    requires
        image.width <= i32::MAX,
        image.height <= i32::MAX,
        0 <= x < image.width,
        0 <= y < image.height,
        scan_ok(image, diagonal, clusters, map, index, rect, x, y),
        named_by(image, clusters, map, x, y, f),
        slotted(clusters, index, s),
        image.has_color(pt(x, y), true) || diagonal,
        image.has_color(pt(x, y - 1), true),
        image.has_color(pt(x - 1, y), true),
        label_of(map, pt(x, y - 1)) != label_of(map, pt(x - 1, y)),
        keep_up == (clusters[label_of(map, pt(x - 1, y))].points@.len() <= clusters[label_of(
            map,
            pt(x, y - 1),
        )].points@.len()),
        combined(
            clusters,
            map,
            if keep_up { label_of(map, pt(x - 1, y)) } else { label_of(map, pt(x, y - 1)) },
            if keep_up { label_of(map, pt(x, y - 1)) } else { label_of(map, pt(x - 1, y)) },
            clusters2,
            map2,
        ),
        index2 == if keep_up && index > 0 && label_of(map, pt(x - 1, y)) == index - 1 && index == clusters.len() {
            index - 1
        } else {
            index
        },
    ensures
        slotted(clusters2, index2, slots_merge(image, diagonal, f, s, x, y)),
{
    let up = pt(x, y - 1);
    let left = pt(x - 1, y);
    let lu = label_of(map, up);
    let ll = label_of(map, left);
    let from = if keep_up { ll } else { lu };
    let to = if keep_up { lu } else { ll };
    assert(scanned(up.x as int, up.y as int, x, y));
    assert(scanned(left.x as int, left.y as int, x, y));
    lemma_named_classes(image, diagonal, clusters, map, index, rect, x, y, f);
    assert(clusters[lu].points@.contains(up));
    assert(clusters[ll].points@.contains(left));
    assert(f(up) != f(left));
    assert(clusters[lu].points@.len() == class(image, true, f, x, y, f(up)).len());
    assert(clusters[ll].points@.len() == class(image, true, f, x, y, f(left)).len());
    assert((s.2)(f(left)) == ll);
    let s2 = slots_merge(image, diagonal, f, s, x, y);
    assert(s2.2 == s.2 && s2.1 == s.1 && s2.3 == s.3 && s2.0 == index2);
    assert forall|c: int| 0 <= c < clusters2.len() && (#[trigger] clusters2[c]).points@.len() > 0 implies (s2.2)(
        clusters2[c].points@[0],
    ) == c by {
        if c == to {
            assert(clusters2[to].points@[0] == clusters[to].points@[0]);
        } else if c != from {
            assert(clusters2[c] == clusters[c]);
        }
    }
}

/// Adding a pixel that has a set neighbour to a cluster leaves the counter as it is.
proof fn lemma_attach_slotted(
    image: BinaryImage,
    diagonal: bool,
    clusters: Seq<Cluster>,
    index: int,
    x: int,
    y: int,
    s: Slots,
    t: int,
    clusters2: Seq<Cluster>,
)
    requires
        slotted(clusters, index, s),
        !image.starts_cluster(x, y, diagonal),
        0 <= t < clusters.len(),
        clusters[t].points@.len() > 0,
        clusters2.len() == clusters.len(),
        forall|c: int| 0 <= c < clusters.len() && c != t ==> #[trigger] clusters2[c] == clusters[c],
        clusters2[t].points@ == clusters[t].points@.push(pt(x, y)),
    ensures
        slotted(clusters2, index, slots_place(image, diagonal, s, x, y)),
{
    assert forall|c: int| 0 <= c < clusters2.len() && (#[trigger] clusters2[c]).points@.len() > 0 implies (s.2)(
        clusters2[c].points@[0],
    ) == c by {
        if c == t {
            assert(clusters2[t].points@[0] == clusters[t].points@[0]);
        } else {
            assert(clusters2[c] == clusters[c]);
        }
    }
}

/// Opening a cluster in the next free slot counts as `slots_place` says.
proof fn lemma_open_slotted(
    image: BinaryImage,
    diagonal: bool,
    clusters: Seq<Cluster>,
    map: MonoImage,
    index: int,
    rect: BoundingRect,
    x: int,
    y: int,
    s: Slots,
    clusters2: Seq<Cluster>,
)
    requires
        image.width <= i32::MAX,
        image.height <= i32::MAX,
        0 <= x < image.width,
        0 <= y < image.height,
        scan_ok(image, diagonal, clusters, map, index, rect, x, y),
        slotted(clusters, index, s),
        image.starts_cluster(x, y, diagonal),
        clusters2.len() == if index < clusters.len() { clusters.len() } else { clusters.len() + 1 },
        forall|c: int| 0 <= c < clusters.len() && c != index ==> #[trigger] clusters2[c] == clusters[c],
        clusters2[index].points@ == seq![pt(x, y)],
    ensures
        slotted(clusters2, index + 1, slots_place(image, diagonal, s, x, y)),
{
    let q = pt(x, y);
    lemma_first_points_differ(image, diagonal, clusters, map, index, rect, x, y);
    let s2 = slots_place(image, diagonal, s, x, y);
    assert forall|c: int| 0 <= c < clusters2.len() && (#[trigger] clusters2[c]).points@.len() > 0 implies (s2.2)(
        clusters2[c].points@[0],
    ) == c by {
        if c != index {
            assert(clusters2[c] == clusters[c]);
            let r = clusters[c].points@[0];
            assert(scanned(r.x as int, r.y as int, x, y));
            assert(r != q);
        }
    }
}

/// Each cluster that is not empty holds, in order, the points `m` lists for its first point.
pub open spec fn listed_by(clusters: Seq<Cluster>, m: spec_fn(PointI32) -> Seq<PointI32>) -> bool {
    forall|c: int|
        0 <= c < clusters.len() && (#[trigger] clusters[c]).points@.len() > 0 ==> clusters[c].points@ == m(
            clusters[c].points@[0],
        )
}

/// Two clusters that are not empty have different first points.
proof fn lemma_first_points_differ(
    image: BinaryImage,
    diagonal: bool,
    clusters: Seq<Cluster>,
    map: MonoImage,
    index: int,
    rect: BoundingRect,
    x: int,
    y: int,
)
    requires
        scan_ok(image, diagonal, clusters, map, index, rect, x, y),
    ensures
        forall|c1: int, c2: int|
            0 <= c1 < clusters.len() && 0 <= c2 < clusters.len() && c1 != c2 && (#[trigger] clusters[c1]).points@.len()
                > 0 && (#[trigger] clusters[c2]).points@.len() > 0 ==> clusters[c1].points@[0] != clusters[c2].points@[0],
        forall|c: int|
            0 <= c < clusters.len() && (#[trigger] clusters[c]).points@.len() > 0 ==> scanned(
                clusters[c].points@[0].x as int,
                clusters[c].points@[0].y as int,
                x,
                y,
            ),
{
    assert forall|c1: int, c2: int|
        0 <= c1 < clusters.len() && 0 <= c2 < clusters.len() && c1 != c2 && (#[trigger] clusters[c1]).points@.len() > 0
            && (#[trigger] clusters[c2]).points@.len() > 0 implies clusters[c1].points@[0] != clusters[c2].points@[0] by {
        assert(label_of(map, clusters[c1].points@[0]) == c1);
        assert(label_of(map, clusters[c2].points@[0]) == c2);
    }
    assert forall|c: int| 0 <= c < clusters.len() && (#[trigger] clusters[c]).points@.len() > 0 implies scanned(
        clusters[c].points@[0].x as int,
        clusters[c].points@[0].y as int,
        x,
        y,
    ) by {
        let q = clusters[c].points@[0];
        assert(scanned(q.x as int, q.y as int, x, y));
    }
}

/// Merging two clusters as `merge_at` does lists their points as `merge_members` does.
proof fn lemma_merge_listed(
    image: BinaryImage,
    diagonal: bool,
    clusters: Seq<Cluster>,
    map: MonoImage,
    index: int,
    rect: BoundingRect,
    x: int,
    y: int,
    f: spec_fn(PointI32) -> PointI32,
    m: spec_fn(PointI32) -> Seq<PointI32>,
    keep_up: bool,
    clusters2: Seq<Cluster>,
    map2: MonoImage,
)
    requires
        image.width <= i32::MAX,
        image.height <= i32::MAX,
        0 <= x < image.width,
        0 <= y < image.height,
        scan_ok(image, diagonal, clusters, map, index, rect, x, y),
        named_by(image, clusters, map, x, y, f),
        listed_by(clusters, m),
        image.has_color(pt(x, y), true) || diagonal,
        image.has_color(pt(x, y - 1), true),
        image.has_color(pt(x - 1, y), true),
        label_of(map, pt(x, y - 1)) != label_of(map, pt(x - 1, y)),
        keep_up == (clusters[label_of(map, pt(x - 1, y))].points@.len() <= clusters[label_of(
            map,
            pt(x, y - 1),
        )].points@.len()),
        combined(
            clusters,
            map,
            if keep_up { label_of(map, pt(x - 1, y)) } else { label_of(map, pt(x, y - 1)) },
            if keep_up { label_of(map, pt(x, y - 1)) } else { label_of(map, pt(x - 1, y)) },
            clusters2,
            map2,
        ),
    ensures
        listed_by(clusters2, merge_members(image, true, diagonal, f, m, x, y)),
{
    let up = pt(x, y - 1);
    let left = pt(x - 1, y);
    let lu = label_of(map, up);
    let ll = label_of(map, left);
    let from = if keep_up { ll } else { lu };
    let to = if keep_up { lu } else { ll };
    assert(scanned(up.x as int, up.y as int, x, y));
    assert(scanned(left.x as int, left.y as int, x, y));
    lemma_named_classes(image, diagonal, clusters, map, index, rect, x, y, f);
    lemma_first_points_differ(image, diagonal, clusters, map, index, rect, x, y);
    assert(clusters[lu].points@.contains(up));
    assert(clusters[ll].points@.contains(left));
    assert(f(up) != f(left));
    assert(clusters[lu].points@.len() == class(image, true, f, x, y, f(up)).len());
    assert(clusters[ll].points@.len() == class(image, true, f, x, y, f(left)).len());
    let win = if keep_up { f(up) } else { f(left) };
    let lose = if keep_up { f(left) } else { f(up) };
    let m2 = merge_members(image, true, diagonal, f, m, x, y);
    assert(m2 == (|r: PointI32| if r == win { m(win) + m(lose) } else { m(r) }));
    assert(clusters[to].points@[0] == win);
    assert(clusters[from].points@[0] == lose);
    assert forall|c: int| 0 <= c < clusters2.len() && (#[trigger] clusters2[c]).points@.len() > 0 implies clusters2[c].points@
        == m2(clusters2[c].points@[0]) by {
        if c == to {
            assert(clusters2[to].points@[0] == clusters[to].points@[0]);
        } else if c != from {
            assert(clusters2[c] == clusters[c]);
            assert(clusters[c].points@[0] != win);
        }
    }
}

/// Adding pixel `(x, y)` to cluster `t`, named as `place_at` says, lists it last there.
proof fn lemma_attach_listed(
    image: BinaryImage,
    diagonal: bool,
    clusters: Seq<Cluster>,
    map: MonoImage,
    index: int,
    rect: BoundingRect,
    x: int,
    y: int,
    g: spec_fn(PointI32) -> PointI32,
    m: spec_fn(PointI32) -> Seq<PointI32>,
    t: int,
    clusters2: Seq<Cluster>,
)
    requires
        image.width <= i32::MAX,
        image.height <= i32::MAX,
        0 <= x < image.width,
        0 <= y < image.height,
        scan_ok(image, diagonal, clusters, map, index, rect, x, y),
        listed_by(clusters, m),
        image.pixel(x, y),
        0 <= t < clusters.len(),
        clusters[t].points@.len() > 0,
        place_at(image, true, diagonal, g, x, y)(pt(x, y)) == clusters[t].points@[0],
        clusters2.len() == clusters.len(),
        forall|c: int| 0 <= c < clusters.len() && c != t ==> #[trigger] clusters2[c] == clusters[c],
        clusters2[t].points@ == clusters[t].points@.push(pt(x, y)),
    ensures
        listed_by(clusters2, place_members(image, true, diagonal, g, m, x, y)),
{
    let q = pt(x, y);
    lemma_first_points_differ(image, diagonal, clusters, map, index, rect, x, y);
    let r = clusters[t].points@[0];
    assert(image.has_color(q, true));
    assert(scanned(r.x as int, r.y as int, x, y));
    assert(r != q);
    let m2 = place_members(image, true, diagonal, g, m, x, y);
    assert(m2 == (|n: PointI32| if n == r { m(r).push(q) } else { m(n) }));
    assert forall|c: int| 0 <= c < clusters2.len() && (#[trigger] clusters2[c]).points@.len() > 0 implies clusters2[c].points@
        == m2(clusters2[c].points@[0]) by {
        if c == t {
            assert(clusters2[t].points@[0] == r);
        } else {
            assert(clusters2[c] == clusters[c]);
            if clusters[c].points@.len() > 0 {
                assert(clusters[c].points@[0] != r);
            }
        }
    }
}

/// Opening a cluster for pixel `(x, y)` lists it alone there.
proof fn lemma_open_listed(
    image: BinaryImage,
    diagonal: bool,
    clusters: Seq<Cluster>,
    map: MonoImage,
    index: int,
    rect: BoundingRect,
    x: int,
    y: int,
    g: spec_fn(PointI32) -> PointI32,
    m: spec_fn(PointI32) -> Seq<PointI32>,
    clusters2: Seq<Cluster>,
)
    requires
        image.width <= i32::MAX,
        image.height <= i32::MAX,
        0 <= x < image.width,
        0 <= y < image.height,
        0 <= index,
        scan_ok(image, diagonal, clusters, map, index, rect, x, y),
        listed_by(clusters, m),
        image.starts_cluster(x, y, diagonal),
        clusters2.len() == if index < clusters.len() { clusters.len() } else { clusters.len() + 1 },
        forall|c: int| 0 <= c < clusters.len() && c != index ==> #[trigger] clusters2[c] == clusters[c],
        clusters2[index].points@ == seq![pt(x, y)],
    ensures
        listed_by(clusters2, place_members(image, true, diagonal, g, m, x, y)),
{
    let q = pt(x, y);
    lemma_first_points_differ(image, diagonal, clusters, map, index, rect, x, y);
    assert(image.has_color(q, true));
    assert(!image.has_color(pt(x, y - 1), true));
    assert(!image.has_color(pt(x - 1, y), true));
    assert(place_at(image, true, diagonal, g, x, y)(q) == q);
    let m2 = place_members(image, true, diagonal, g, m, x, y);
    assert(m2 == (|n: PointI32| if n == q { seq![q] } else { m(n) }));
    assert forall|c: int| 0 <= c < clusters2.len() && (#[trigger] clusters2[c]).points@.len() > 0 implies clusters2[c].points@
        == m2(clusters2[c].points@[0]) by {
        if c != index {
            assert(clusters2[c] == clusters[c]);
            let r = clusters[c].points@[0];
            assert(scanned(r.x as int, r.y as int, x, y));
        }
    }
}

/// Under names kept by the clusters, a cluster has as many points as its name has pixels,
/// and two pixels seen share a name exactly when they share a label.
proof fn lemma_named_classes(
    image: BinaryImage,
    diagonal: bool,
    clusters: Seq<Cluster>,
    map: MonoImage,
    index: int,
    rect: BoundingRect,
    x: int,
    y: int,
    f: spec_fn(PointI32) -> PointI32,
)
    requires
        image.width <= i32::MAX,
        image.height <= i32::MAX,
        scan_ok(image, diagonal, clusters, map, index, rect, x, y),
        named_by(image, clusters, map, x, y, f),
    ensures
        forall|c: int|
            0 <= c < clusters.len() && (#[trigger] clusters[c]).points@.len() > 0 ==> clusters[c].points@.len()
                == class(image, true, f, x, y, clusters[c].points@[0]).len(),
        forall|a: PointI32, b: PointI32|
            image.has_color(a, true) && scanned(a.x as int, a.y as int, x, y) && image.has_color(b, true) && scanned(
                b.x as int,
                b.y as int,
                x,
                y,
            ) ==> (#[trigger] f(a) == #[trigger] f(b) <==> label_of(map, a) == label_of(map, b)),
{
    assert forall|a: PointI32, b: PointI32|
        image.has_color(a, true) && scanned(a.x as int, a.y as int, x, y) && image.has_color(b, true) && scanned(
            b.x as int,
            b.y as int,
            x,
            y,
        ) implies (#[trigger] f(a) == #[trigger] f(b) <==> label_of(map, a) == label_of(map, b)) by {
        let la = label_of(map, a);
        let lb = label_of(map, b);
        assert(clusters[la].points@.contains(a));
        assert(clusters[lb].points@.contains(b));
        let ra = clusters[la].points@[0];
        let rb = clusters[lb].points@[0];
        assert(label_of(map, ra) == la);
        assert(label_of(map, rb) == lb);
    }
    assert forall|c: int|
        0 <= c < clusters.len() && (#[trigger] clusters[c]).points@.len() > 0 implies clusters[c].points@.len()
            == class(image, true, f, x, y, clusters[c].points@[0]).len() by {
        let r = clusters[c].points@[0];
        let cl = class(image, true, f, x, y, r);
        assert(label_of(map, r) == c);
        assert forall|p: PointI32| clusters[c].point_set().contains(p) <==> cl.contains(p) by {
            if clusters[c].point_set().contains(p) {
                let k = choose|k: int| 0 <= k < clusters[c].points@.len() && clusters[c].points@[k] == p;
                assert(clusters[c].points@[k] == p);
            }
            if cl.contains(p) {
                let l = label_of(map, p);
                assert(clusters[l].points@.contains(p));
                assert(label_of(map, clusters[l].points@[0]) == l);
            }
        }
        assert(clusters[c].point_set() =~= cl);
        clusters[c].points@.unique_seq_to_set();
    }
}

/// Merging the smaller of the clusters of the upper and left neighbours of a set pixel
/// into the larger, the left one into the upper one on a tie, renames as `merge_at` does.
proof fn lemma_merge_named(
    image: BinaryImage,
    diagonal: bool,
    clusters: Seq<Cluster>,
    map: MonoImage,
    index: int,
    rect: BoundingRect,
    x: int,
    y: int,
    f: spec_fn(PointI32) -> PointI32,
    keep_up: bool,
    clusters2: Seq<Cluster>,
    map2: MonoImage,
)
    requires
        image.width <= i32::MAX,
        image.height <= i32::MAX,
        0 <= x < image.width,
        0 <= y < image.height,
        scan_ok(image, diagonal, clusters, map, index, rect, x, y),
        named_by(image, clusters, map, x, y, f),
        image.has_color(pt(x, y), true) || diagonal,
        image.has_color(pt(x, y - 1), true),
        image.has_color(pt(x - 1, y), true),
        label_of(map, pt(x, y - 1)) != label_of(map, pt(x - 1, y)),
        keep_up == (clusters[label_of(map, pt(x - 1, y))].points@.len() <= clusters[label_of(
            map,
            pt(x, y - 1),
        )].points@.len()),
        combined(
            clusters,
            map,
            if keep_up { label_of(map, pt(x - 1, y)) } else { label_of(map, pt(x, y - 1)) },
            if keep_up { label_of(map, pt(x, y - 1)) } else { label_of(map, pt(x - 1, y)) },
            clusters2,
            map2,
        ),
    ensures
        named_by(image, clusters2, map2, x, y, merge_at(image, true, diagonal, f, x, y)),
{
    let up = pt(x, y - 1);
    let left = pt(x - 1, y);
    let from = if keep_up { label_of(map, left) } else { label_of(map, up) };
    let to = if keep_up { label_of(map, up) } else { label_of(map, left) };
    let win_pt = if keep_up { up } else { left };
    assert(scanned(up.x as int, up.y as int, x, y));
    assert(scanned(left.x as int, left.y as int, x, y));
    lemma_named_classes(image, diagonal, clusters, map, index, rect, x, y, f);
    assert(clusters[label_of(map, up)].points@.contains(up));
    assert(clusters[label_of(map, left)].points@.contains(left));
    assert(f(up) != f(left));
    assert(clusters[label_of(map, up)].points@.len() == class(image, true, f, x, y, f(up)).len());
    assert(clusters[label_of(map, left)].points@.len() == class(image, true, f, x, y, f(left)).len());
    let g = merge_at(image, true, diagonal, f, x, y);
    let lose = if keep_up { f(left) } else { f(up) };
    let win = if keep_up { f(up) } else { f(left) };
    assert(g == (|p: PointI32| if f(p) == lose { win } else { f(p) }));
    assert forall|p: PointI32| #[trigger] image.has_color(p, true) && scanned(p.x as int, p.y as int, x, y) implies clusters2[label_of(
        map2,
        p,
    )].points@[0] == g(p) by {
        let l = label_of(map, p);
        assert(clusters[l].points@.contains(p));
        assert(label_of(map, win_pt) == to);
        if l == from {
            assert(clusters[from].point_set().contains(p));
            assert(label_of(map2, p) == to);
            assert(clusters2[to].points@[0] == clusters[to].points@[0]);
            assert(f(p) == lose);
        } else {
            if clusters[from].point_set().contains(p) {
                let k = choose|k: int| 0 <= k < clusters[from].points@.len() && clusters[from].points@[k] == p;
                assert(label_of(map, clusters[from].points@[k]) == from);
            }
            assert(label_of(map2, p) == l);
            assert(f(p) != lose);
            if l == to {
                assert(clusters2[to].points@[0] == clusters[to].points@[0]);
            } else {
                assert(clusters2[l] == clusters[l]);
            }
        }
    }
}

/// Adding set pixel `(x, y)` to cluster `t`, whose first point is the name `place_at`
/// gives the pixel, keeps the clusters named as `place_at` says.
proof fn lemma_attach_named(
    image: BinaryImage,
    diagonal: bool,
    clusters: Seq<Cluster>,
    map: MonoImage,
    index: int,
    rect: BoundingRect,
    x: int,
    y: int,
    g: spec_fn(PointI32) -> PointI32,
    t: int,
    clusters2: Seq<Cluster>,
    map2: MonoImage,
)
    requires
        image.width <= i32::MAX,
        image.height <= i32::MAX,
        0 <= x < image.width,
        0 <= y < image.height,
        scan_ok(image, diagonal, clusters, map, index, rect, x, y),
        named_by(image, clusters, map, x, y, g),
        image.pixel(x, y),
        0 <= t < clusters.len(),
        clusters[t].points@.len() > 0,
        place_at(image, true, diagonal, g, x, y)(pt(x, y)) == clusters[t].points@[0],
        clusters2.len() == clusters.len(),
        forall|c: int| 0 <= c < clusters.len() && c != t ==> #[trigger] clusters2[c] == clusters[c],
        clusters2[t].points@ == clusters[t].points@.push(pt(x, y)),
        relabelled_at(map, map2, x, y, t),
    ensures
        named_by(image, clusters2, map2, x + 1, y, place_at(image, true, diagonal, g, x, y)),
{
    let q = pt(x, y);
    let h = place_at(image, true, diagonal, g, x, y);
    assert(image.has_color(q, true));
    assert forall|p: PointI32| #[trigger] image.has_color(p, true) && scanned(p.x as int, p.y as int, x + 1, y) implies clusters2[label_of(
        map2,
        p,
    )].points@[0] == h(p) by {
        if p == q {
            assert(label_of(map2, p) == t);
            assert(clusters2[t].points@[0] == clusters[t].points@[0]);
        } else {
            assert(scanned(p.x as int, p.y as int, x, y));
            let l = label_of(map, p);
            assert(label_of(map2, p) == l);
            assert(h(p) == g(p));
            if l == t {
                assert(clusters2[t].points@[0] == clusters[t].points@[0]);
            } else {
                assert(clusters2[l] == clusters[l]);
            }
        }
    }
}

/// Opening a cluster for set pixel `(x, y)`, with no set upper or left neighbour, in an
/// empty slot, names it after the pixel, as `place_at` says.
proof fn lemma_open_named(
    image: BinaryImage,
    diagonal: bool,
    clusters: Seq<Cluster>,
    map: MonoImage,
    index: int,
    rect: BoundingRect,
    x: int,
    y: int,
    g: spec_fn(PointI32) -> PointI32,
    clusters2: Seq<Cluster>,
    map2: MonoImage,
)
    requires
        image.width <= i32::MAX,
        image.height <= i32::MAX,
        0 <= x < image.width,
        0 <= y < image.height,
        0 <= index,
        scan_ok(image, diagonal, clusters, map, index, rect, x, y),
        named_by(image, clusters, map, x, y, g),
        image.starts_cluster(x, y, diagonal),
        clusters2.len() == if index < clusters.len() { clusters.len() } else { clusters.len() + 1 },
        forall|c: int| 0 <= c < clusters.len() && c != index ==> #[trigger] clusters2[c] == clusters[c],
        clusters2[index].points@ == seq![pt(x, y)],
        relabelled_at(map, map2, x, y, index),
    ensures
        named_by(image, clusters2, map2, x + 1, y, place_at(image, true, diagonal, g, x, y)),
{
    let q = pt(x, y);
    let h = place_at(image, true, diagonal, g, x, y);
    assert(image.has_color(q, true));
    assert(!image.has_color(pt(x, y - 1), true));
    assert(!image.has_color(pt(x - 1, y), true));
    assert(h(q) == q);
    assert forall|p: PointI32| #[trigger] image.has_color(p, true) && scanned(p.x as int, p.y as int, x + 1, y) implies clusters2[label_of(
        map2,
        p,
    )].points@[0] == h(p) by {
        if p == q {
            assert(label_of(map2, p) == index);
        } else {
            assert(scanned(p.x as int, p.y as int, x, y));
            let l = label_of(map, p);
            assert(clusters[l].points@.contains(p));
            assert(l != index);
            assert(label_of(map2, p) == l);
            assert(clusters2[l] == clusters[l]);
        }
    }
}

/// Passing an unset pixel keeps the names.
proof fn lemma_skip_named(
    image: BinaryImage,
    diagonal: bool,
    clusters: Seq<Cluster>,
    map: MonoImage,
    x: int,
    y: int,
    g: spec_fn(PointI32) -> PointI32,
)
    requires
        image.width <= i32::MAX,
        image.height <= i32::MAX,
        0 <= x < image.width,
        0 <= y < image.height,
        named_by(image, clusters, map, x, y, g),
        !image.pixel(x, y),
    ensures
        named_by(image, clusters, map, x + 1, y, place_at(image, true, diagonal, g, x, y)),
{
    assert(!image.has_color(pt(x, y), true));
    assert forall|p: PointI32| #[trigger] image.has_color(p, true) && scanned(p.x as int, p.y as int, x + 1, y) implies clusters[label_of(
        map,
        p,
    )].points@[0] == place_at(image, true, diagonal, g, x, y)(p) by {
        assert(p != pt(x, y));
        assert(scanned(p.x as int, p.y as int, x, y));
    }
}

/// The names at the end of a row are those at the start of the next.
proof fn lemma_next_row_named(image: BinaryImage, diagonal: bool, clusters: Seq<Cluster>, map: MonoImage, y: int)
    requires
        0 <= y,
        named_by(image, clusters, map, image.width as int, y, opener(image, true, diagonal, image.width as int, y)),
    ensures
        named_by(image, clusters, map, 0, y + 1, opener(image, true, diagonal, 0, y + 1)),
{
    assert(opener(image, true, diagonal, 0, y + 1) == opener(image, true, diagonal, image.width as int, y));
    assert forall|p: PointI32| #[trigger] image.has_color(p, true) && scanned(p.x as int, p.y as int, 0, y + 1) implies clusters[label_of(
        map,
        p,
    )].points@[0] == opener(image, true, diagonal, 0, y + 1)(p) by {
        assert(scanned(p.x as int, p.y as int, image.width as int, y));
    }
}

/// The set pixels of row `y` left of column `n`.
pub open spec fn row_ink(image: BinaryImage, y: int, n: int) -> Set<PointI32> {
    Set::new(|p: PointI32| image.has_color(p, true) && p.y == y && p.x < n)
}

/// The set pixels of the rows above row `n`.
pub open spec fn rows_ink(image: BinaryImage, n: int) -> Set<PointI32> {
    Set::new(|p: PointI32| image.has_color(p, true) && p.y < n)
}

proof fn lemma_starts_in_row_le_ink(image: BinaryImage, y: int, n: int, diagonal: bool)
    requires
        image.width <= i32::MAX,
        image.height <= i32::MAX,
        0 <= y < image.height,
        0 <= n <= image.width,
    ensures
        row_ink(image, y, n).finite(),
        image.starts_in_row(y, n, diagonal) <= row_ink(image, y, n).len(),
    decreases n,
{
    if n == 0 {
        assert(row_ink(image, y, n) =~= Set::<PointI32>::empty());
    } else {
        lemma_starts_in_row_le_ink(image, y, n - 1, diagonal);
        let prev = row_ink(image, y, n - 1);
        let c = pt(n - 1, y);
        if image.pixel(n - 1, y) {
            assert(row_ink(image, y, n) =~= prev.insert(c));
            assert(!prev.contains(c));
        } else {
            assert(row_ink(image, y, n) =~= prev);
        }
    }
}

proof fn lemma_starts_in_rows_le_ink(image: BinaryImage, n: int, diagonal: bool)
    requires
        image.width <= i32::MAX,
        image.height <= i32::MAX,
        0 <= n <= image.height,
    ensures
        rows_ink(image, n).finite(),
        image.starts_in_rows(n, diagonal) <= rows_ink(image, n).len(),
    decreases n,
{
    if n == 0 {
        assert(rows_ink(image, n) =~= Set::<PointI32>::empty());
    } else {
        lemma_starts_in_rows_le_ink(image, n - 1, diagonal);
        lemma_starts_in_row_le_ink(image, n - 1, image.width as int, diagonal);
        let a = rows_ink(image, n - 1);
        let b = row_ink(image, n - 1, image.width as int);
        assert(rows_ink(image, n) =~= a + b);
        assert(a.disjoint(b));
        vstd::set_lib::lemma_set_disjoint_lens(a, b);
    }
}

/// Each pixel that opens a cluster is set, so there are no more openings than set pixels.
pub proof fn lemma_starts_le_ink(image: BinaryImage, diagonal: bool)
    requires
        image.width <= i32::MAX,
        image.height <= i32::MAX,
    ensures
        image.ink_set().finite(),
        image.cluster_starts(diagonal) <= image.ink_set().len(),
{
    lemma_starts_in_rows_le_ink(image, image.height as int, diagonal);
    assert(rows_ink(image, image.height as int) =~= image.ink_set());
}

/// The state at the end of a row is the state at the start of the next.
proof fn lemma_next_row(
    image: BinaryImage,
    diagonal: bool,
    clusters: Seq<Cluster>,
    map: MonoImage,
    index: int,
    rect: BoundingRect,
    y: int,
)
    requires
        image.wf(),
        0 <= y,
        scan_ok(image, diagonal, clusters, map, index, rect, image.width as int, y),
    ensures
        scan_ok(image, diagonal, clusters, map, index, rect, 0, y + 1),
{
    let w = image.width as int;
    assert(image.scanned_ink(w, y) =~= image.scanned_ink(0, y + 1));
    assert forall|p: PointI32|
        #[trigger] image.has_color(p, true) && scanned(p.x as int, p.y as int, 0, y + 1) implies {
        &&& 0 <= label_of(map, p) < clusters.len()
        &&& clusters[label_of(map, p)].points@.contains(p)
    } by {
        assert(scanned(p.x as int, p.y as int, w, y));
    }
    assert forall|p: PointI32, q: PointI32|
        image.has_color(p, true) && image.has_color(q, true) && #[trigger] adjacent(p, q, diagonal)
            && pair_closed(p, q, 0, y + 1) implies label_of(map, p) == label_of(map, q) by {
        assert(pair_closed(p, q, w, y));
    }
    assert(members_ok(image, clusters, map, 0, y + 1));
    assert(closed_ok(image, diagonal, map, 0, y + 1));
    assert(rect.bounds(image.scanned_ink(0, y + 1)));
    assert(index <= image.starts_in_rows(y + 1, diagonal) + image.starts_in_row(y + 1, 0, diagonal));
}

/// What `combine_cluster(clusters, map, from, to)` makes of `clusters` and `map`.
pub open spec fn combined(
    clusters: Seq<Cluster>,
    map: MonoImage,
    from: int,
    to: int,
    clusters2: Seq<Cluster>,
    map2: MonoImage,
) -> bool {
    &&& clusters2.len() == clusters.len()
    &&& forall|c: int| 0 <= c < clusters.len() && c != from && c != to ==> #[trigger] clusters2[c] == clusters[c]
    &&& clusters2[from].points@ == Seq::<PointI32>::empty()
    &&& clusters2[from].rect == clusters[from].rect
    &&& clusters2[to].points@ == clusters[to].points@ + clusters[from].points@
    &&& clusters2[to].rect == clusters[to].rect.merged(clusters[from].rect)
    &&& map2.wf()
    &&& map2.width == map.width
    &&& map2.height == map.height
    &&& forall|a: int, b: int|
        0 <= a < map.width && 0 <= b < map.height ==> #[trigger] map2.at(a, b) == if clusters[from].point_set().contains(
            PointI32 { x: a as i32, y: b as i32 },
        ) {
            to as MonoImageItem
        } else {
            map.at(a, b)
        }
}

/// Moves every point of cluster `from` into cluster `to`, relabelling them in `clustermap`.
#[verifier::rlimit(30)]
pub fn combine_cluster(
    clusters: &mut Vec<Cluster>,
    clustermap: &mut MonoImage,
    from: MonoImageItem,
    to: MonoImageItem,
)
    requires
        from < old(clusters)@.len(),
        to < old(clusters)@.len(),
        from != to,
        old(clustermap).wf(),
        old(clustermap).width <= i32::MAX,
        old(clustermap).height <= i32::MAX,
        forall|k: int|
            0 <= k < old(clusters)@[from as int].points@.len() ==> {
                let p = #[trigger] old(clusters)@[from as int].points@[k];
                0 <= p.x < old(clustermap).width && 0 <= p.y < old(clustermap).height
            },
    ensures
        combined(old(clusters)@, *old(clustermap), from as int, to as int, final(clusters)@, *final(clustermap)),
{
    let ghost map0 = *clustermap;
    let ghost src = clusters@[from as int].points@;
    let n = clusters[from as usize].points.len();
    let mut k: usize = 0;
    while k < n
        invariant
            n == src.len(),
            k <= n,
            clusters@ == old(clusters)@,
            src == clusters@[from as int].points@,
            from < clusters@.len(),
            map0.wf(),
            map0.width <= i32::MAX,
            map0.height <= i32::MAX,
            clustermap.wf(),
            clustermap.width == map0.width,
            clustermap.height == map0.height,
            forall|j: int|
                0 <= j < src.len() ==> {
                    let p = #[trigger] src[j];
                    0 <= p.x < map0.width && 0 <= p.y < map0.height
                },
            forall|a: int, b: int|
                0 <= a < map0.width && 0 <= b < map0.height ==> #[trigger] clustermap.at(a, b) == if src.take(
                    k as int,
                ).contains(PointI32 { x: a as i32, y: b as i32 }) {
                    to
                } else {
                    map0.at(a, b)
                },
        decreases n - k,
    {
        let o = clusters[from as usize].points[k];
        assert(0 <= o.x < map0.width && 0 <= o.y < map0.height) by {
            assert(src[k as int] == o);
        }
        clustermap.set_pixel(o.x as usize, o.y as usize, to);
        proof {
            let t0 = src.take(k as int);
            let t1 = src.take(k + 1);
            assert(t1 =~= t0.push(o));
            assert forall|a: int, b: int|
                0 <= a < map0.width && 0 <= b < map0.height implies #[trigger] clustermap.at(a, b) == if t1.contains(
                    PointI32 { x: a as i32, y: b as i32 },
                ) {
                    to
                } else {
                    map0.at(a, b)
                } by {
                let pt = PointI32 { x: a as i32, y: b as i32 };
                if t1.contains(pt) {
                    let j = choose|j: int| 0 <= j < t1.len() && t1[j] == pt;
                    if j < k {
                        assert(t0[j] == pt);
                    }
                }
                if t0.contains(pt) {
                    let j = choose|j: int| 0 <= j < t0.len() && t0[j] == pt;
                    assert(t1[j] == pt);
                }
                if a == o.x && b == o.y {
                    assert(t1[k as int] == pt);
                }
            }
        }
        k = k + 1;
    }
    assert(src.take(n as int) =~= src);
    let mut drain: Vec<PointI32> = Vec::new();
    std::mem::swap(&mut clusters[from as usize].points, &mut drain);
    clusters[to as usize].points.append(&mut drain);
    let rect = clusters[from as usize].rect;
    clusters[to as usize].rect.merge(rect);
}

/// Combining two clusters whose points are linked keeps the labelling state, and relabels
/// the points of `from` to `to`.
#[verifier::rlimit(30)]
proof fn lemma_combine_ok(
    image: BinaryImage,
    diagonal: bool,
    clusters: Seq<Cluster>,
    map: MonoImage,
    index: int,
    rect: BoundingRect,
    x: int,
    y: int,
    from: int,
    to: int,
    clusters2: Seq<Cluster>,
    map2: MonoImage,
    a: PointI32,
    b: PointI32,
)
    requires
        image.wf(),
        image.width <= i32::MAX,
        image.height <= i32::MAX,
        scan_ok(image, diagonal, clusters, map, index, rect, x, y),
        0 <= from < clusters.len(),
        0 <= to < clusters.len(),
        from != to,
        combined(clusters, map, from, to, clusters2, map2),
        clusters[from].points@.contains(a),
        clusters[to].points@.contains(b),
        image.linked(a, b, true, diagonal),
    ensures
        scan_ok(image, diagonal, clusters2, map2, index, rect, x, y),
        forall|p: PointI32|
            #[trigger] image.has_color(p, true) && scanned(p.x as int, p.y as int, x, y) ==> label_of(map2, p)
                == if label_of(map, p) == from {
                to
            } else {
                label_of(map, p)
            },
{
    let src = clusters[from].points@;
    let dst = clusters[to].points@;
    // A point in the image is in `from` exactly when it carries its label.
    assert forall|p: PointI32| #[trigger] image.has_color(p, true) && scanned(p.x as int, p.y as int, x, y)
        implies label_of(map2, p) == if label_of(map, p) == from { to } else { label_of(map, p) } by {
        let pt = PointI32 { x: p.x as int as i32, y: p.y as int as i32 };
        assert(pt == p);
        assert(map2.at(p.x as int, p.y as int) == if clusters[from].point_set().contains(pt) {
            to as MonoImageItem
        } else {
            map.at(p.x as int, p.y as int)
        });
        if src.contains(p) {
            let k = choose|k: int| 0 <= k < src.len() && src[k] == p;
            assert(clusters[from].points@[k] == p);
        }
    }
    // Points of clusters keep or take the label of their cluster.
    assert forall|c: int, k: int|
        0 <= c < clusters2.len() && 0 <= k < clusters2[c].points@.len() implies {
            let q = #[trigger] clusters2[c].points@[k];
            &&& image.has_color(q, true)
            &&& scanned(q.x as int, q.y as int, x, y)
            &&& label_of(map2, q) == c
        } by {
        let q = clusters2[c].points@[k];
        if c == to {
            if k < dst.len() {
                assert(q == clusters[to].points@[k]);
            } else {
                assert(q == clusters[from].points@[k - dst.len()]);
            }
        } else {
            assert(c != from);
            assert(clusters2[c] == clusters[c]);
            assert(q == clusters[c].points@[k]);
        }
        assert(image.has_color(q, true) && scanned(q.x as int, q.y as int, x, y));
    }
    assert forall|p: PointI32|
        #[trigger] image.has_color(p, true) && scanned(p.x as int, p.y as int, x, y) implies {
            &&& 0 <= label_of(map2, p) < clusters2.len()
            &&& clusters2[label_of(map2, p)].points@.contains(p)
        } by {
        let l = label_of(map, p);
        assert(clusters[l].points@.contains(p));
        let k = choose|k: int| 0 <= k < clusters[l].points@.len() && clusters[l].points@[k] == p;
        if l == from {
            assert(clusters2[to].points@[dst.len() + k] == p);
        } else if l == to {
            assert(clusters2[to].points@[k] == p);
        } else {
            assert(clusters2[l] == clusters[l]);
        }
    }
    assert(members_ok(image, clusters2, map2, x, y));
    // The merged cluster.
    assert forall|k1: int, k2: int| 0 <= k1 < src.len() && 0 <= k2 < dst.len() implies src[k1] != dst[k2] by {
        assert(clusters[from].points@[k1] == src[k1]);
        assert(clusters[to].points@[k2] == dst[k2]);
    }
    vstd::seq_lib::lemma_no_dup_in_concat(dst, src);
    assert(clusters[to].points@.len() > 0);
    assert(clusters[from].points@.len() > 0);
    assert(clusters[to].wf());
    assert(clusters[from].wf());
    lemma_bounds_union(clusters[to].rect, dst.to_set(), clusters[from].rect, src.to_set());
    vstd::seq_lib::seq_to_set_distributes_over_add(dst, src);
    assert(clusters2[to].point_set() =~= dst.to_set().union(src.to_set()));
    assert(clusters2[to].wf());
    let ka = choose|k: int| 0 <= k < src.len() && src[k] == a;
    let kb = choose|k: int| 0 <= k < dst.len() && dst[k] == b;
    assert(clusters[from].points@[ka] == a);
    assert(clusters[to].points@[kb] == b);
    assert forall|k1: int, k2: int|
        0 <= k1 < clusters2[to].points@.len() && 0 <= k2 < clusters2[to].points@.len() implies image.linked(
        #[trigger] clusters2[to].points@[k1],
        #[trigger] clusters2[to].points@[k2],
        true,
        diagonal,
    ) by {
        let p1 = clusters2[to].points@[k1];
        let p2 = clusters2[to].points@[k2];
        let n = dst.len();
        // Every point of the merged cluster is linked to `b`.
        assert forall|kk: int| 0 <= kk < clusters2[to].points@.len() implies image.linked(
            #[trigger] clusters2[to].points@[kk],
            b,
            true,
            diagonal,
        ) by {
            let pk = clusters2[to].points@[kk];
            if kk < n {
                assert(clusters[to].points@[kk] == pk);
                assert(image.linked(clusters[to].points@[kk], clusters[to].points@[kb], true, diagonal));
            } else {
                assert(clusters[from].points@[kk - n] == pk);
                assert(image.linked(clusters[from].points@[kk - n], clusters[from].points@[ka], true, diagonal));
                lemma_linked_transitive(image, pk, a, b, true, diagonal);
            }
        }
        assert(image.linked(p1, b, true, diagonal));
        assert(image.linked(p2, b, true, diagonal));
        lemma_linked_symmetric(image, p2, b, true, diagonal);
        lemma_linked_transitive(image, p1, b, p2, true, diagonal);
    }
    assert forall|c: int| 0 <= c < clusters2.len() implies (#[trigger] clusters2[c]).points@.no_duplicates() by {
        if c != from && c != to {
            assert(clusters2[c] == clusters[c]);
        }
    }
    assert forall|c: int| 0 <= c < clusters2.len() && (#[trigger] clusters2[c]).points@.len() > 0 implies clusters2[c].wf() by {
        if c != from && c != to {
            assert(clusters2[c] == clusters[c]);
        }
    }
    assert forall|c: int, k1: int, k2: int|
        0 <= c < clusters2.len() && 0 <= k1 < clusters2[c].points@.len() && 0 <= k2
            < clusters2[c].points@.len() implies image.linked(
        #[trigger] clusters2[c].points@[k1],
        #[trigger] clusters2[c].points@[k2],
        true,
        diagonal,
    ) by {
        if c != from && c != to {
            assert(clusters2[c] == clusters[c]);
            assert(clusters2[c].points@[k1] == clusters[c].points@[k1]);
            assert(clusters2[c].points@[k2] == clusters[c].points@[k2]);
        }
    }
    assert(clusters_ok(image, diagonal, clusters2));
    // Labels of neighbours change together.
    assert forall|p: PointI32, q: PointI32|
        image.has_color(p, true) && image.has_color(q, true) && #[trigger] adjacent(p, q, diagonal)
            && pair_closed(p, q, x, y) implies label_of(map2, p) == label_of(map2, q) by {
        assert(image.has_color(p, true) && scanned(p.x as int, p.y as int, x, y));
        assert(image.has_color(q, true) && scanned(q.x as int, q.y as int, x, y));
    }
    assert(closed_ok(image, diagonal, map2, x, y));
    if index < clusters.len() {
        assert(clusters[index].points@.len() == 0);
        assert(index != from && index != to);
        assert(clusters2[index] == clusters[index]);
    }
}

/// The pixel at column `x`, row `y`.
pub open spec fn pt(x: int, y: int) -> PointI32 {
    PointI32 { x: x as i32, y: y as i32 }
}

/// Moving the scan past `(x, y)` closes only the pairs holding `(x, y)`, and the pair of
/// its left and upper neighbours.
proof fn lemma_newly_closed(p: PointI32, q: PointI32, x: int, y: int)
    requires
        0 <= x <= i32::MAX,
        0 <= y <= i32::MAX,
        pair_closed(p, q, x + 1, y),
        !pair_closed(p, q, x, y),
    ensures
        p == pt(x, y) || q == pt(x, y) || (p == pt(x - 1, y) && q == pt(x, y - 1)) || (q == pt(x - 1, y) && p
            == pt(x, y - 1)),
{
}

/// Labelling state after `(x, y)` when it is not set.
proof fn lemma_skip_ok(
    image: BinaryImage,
    diagonal: bool,
    clusters: Seq<Cluster>,
    map: MonoImage,
    index: int,
    rect: BoundingRect,
    x: int,
    y: int,
)
    requires
        image.wf(),
        image.width <= i32::MAX,
        image.height <= i32::MAX,
        0 <= x < image.width,
        0 <= y < image.height,
        scan_ok(image, diagonal, clusters, map, index, rect, x, y),
        !image.pixel(x, y),
        diagonal && image.pixel(x - 1, y) && image.pixel(x, y - 1) ==> label_of(map, pt(x - 1, y))
            == label_of(map, pt(x, y - 1)),
    ensures
        scan_ok(image, diagonal, clusters, map, index, rect, x + 1, y),
{
    assert(image.scanned_ink(x, y) =~= image.scanned_ink(x + 1, y));
    assert forall|p: PointI32, q: PointI32|
        image.has_color(p, true) && image.has_color(q, true) && #[trigger] adjacent(p, q, diagonal)
            && pair_closed(p, q, x + 1, y) implies label_of(map, p) == label_of(map, q) by {
        if !pair_closed(p, q, x, y) {
            lemma_newly_closed(p, q, x, y);
        }
    }
    assert forall|p: PointI32|
        #[trigger] image.has_color(p, true) && scanned(p.x as int, p.y as int, x + 1, y) implies {
        &&& 0 <= label_of(map, p) < clusters.len()
        &&& clusters[label_of(map, p)].points@.contains(p)
    } by {
        assert(scanned(p.x as int, p.y as int, x, y));
    }
    assert(index <= image.starts_in_rows(y, diagonal) + image.starts_in_row(y, x + 1, diagonal));
}

/// `map2` is `map` with label `t` at `(x, y)`.
pub open spec fn relabelled_at(map: MonoImage, map2: MonoImage, x: int, y: int, t: int) -> bool {
    &&& map2.wf()
    &&& map2.width == map.width
    &&& map2.height == map.height
    &&& forall|a: int, b: int|
        0 <= a < map.width && 0 <= b < map.height ==> #[trigger] map2.at(a, b) == if a == x && b == y {
            t as MonoImageItem
        } else {
            map.at(a, b)
        }
}

proof fn lemma_attach_members(
    image: BinaryImage,
    clusters: Seq<Cluster>,
    map: MonoImage,
    x: int,
    y: int,
    t: int,
    clusters2: Seq<Cluster>,
    map2: MonoImage,
)
    requires
        image.wf(),
        image.width <= i32::MAX,
        image.height <= i32::MAX,
        0 <= x < image.width,
        0 <= y < image.height,
        map.wf(),
        map.width == image.width,
        map.height == image.height,
        members_ok(image, clusters, map, x, y),
        image.pixel(x, y),
        0 <= t < clusters.len(),
        t <= 65535,
        clusters2.len() == clusters.len(),
        forall|c: int| 0 <= c < clusters.len() && c != t ==> #[trigger] clusters2[c] == clusters[c],
        clusters2[t].points@ == clusters[t].points@.push(pt(x, y)),
        relabelled_at(map, map2, x, y, t),
    ensures
        members_ok(image, clusters2, map2, x + 1, y),
        !clusters[t].points@.contains(pt(x, y)),
{
    let c = pt(x, y);
    let old_pts = clusters[t].points@;
    assert(image.has_color(c, true));
    assert(label_of(map2, c) == t);
    assert forall|p: PointI32|
        #[trigger] image.has_color(p, true) && scanned(p.x as int, p.y as int, x + 1, y) implies {
        &&& 0 <= label_of(map2, p) < clusters2.len()
        &&& clusters2[label_of(map2, p)].points@.contains(p)
    } by {
        if p == c {
            assert(clusters2[t].points@[old_pts.len() as int] == c);
        } else {
            assert(scanned(p.x as int, p.y as int, x, y));
            assert(label_of(map2, p) == label_of(map, p));
            let l = label_of(map, p);
            assert(clusters[l].points@.contains(p));
            if l == t {
                let k = choose|k: int| 0 <= k < old_pts.len() && old_pts[k] == p;
                assert(clusters2[t].points@[k] == p);
            } else {
                assert(clusters2[l] == clusters[l]);
            }
        }
    }
    assert forall|cc: int, k: int|
        0 <= cc < clusters2.len() && 0 <= k < clusters2[cc].points@.len() implies {
            let q = #[trigger] clusters2[cc].points@[k];
            &&& image.has_color(q, true)
            &&& scanned(q.x as int, q.y as int, x + 1, y)
            &&& label_of(map2, q) == cc
        } by {
        if cc == t {
            if k < old_pts.len() {
                assert(clusters2[t].points@[k] == clusters[t].points@[k]);
            }
        } else {
            assert(clusters2[cc] == clusters[cc]);
            assert(clusters2[cc].points@[k] == clusters[cc].points@[k]);
        }
    }
    if old_pts.contains(c) {
        let k = choose|k: int| 0 <= k < old_pts.len() && old_pts[k] == c;
        assert(clusters[t].points@[k] == c);
    }
}

proof fn lemma_attach_clusters(
    image: BinaryImage,
    diagonal: bool,
    clusters: Seq<Cluster>,
    t: int,
    c: PointI32,
    nb: PointI32,
    clusters2: Seq<Cluster>,
)
    requires
        clusters_ok(image, diagonal, clusters),
        image.has_color(c, true),
        c.x < i32::MAX,
        c.y < i32::MAX,
        0 <= t < clusters.len(),
        !clusters[t].points@.contains(c),
        clusters[t].points@.contains(nb),
        image.has_color(nb, true),
        adjacent(nb, c, diagonal),
        clusters2.len() == clusters.len(),
        forall|cc: int| 0 <= cc < clusters.len() && cc != t ==> #[trigger] clusters2[cc] == clusters[cc],
        clusters2[t].points@ == clusters[t].points@.push(c),
        clusters2[t].rect == clusters[t].rect.with_point(c.x, c.y),
    ensures
        clusters_ok(image, diagonal, clusters2),
{
    let old_pts = clusters[t].points@;
    assert(clusters2[t].points@.no_duplicates());
    let kn = choose|k: int| 0 <= k < old_pts.len() && old_pts[k] == nb;
    assert(clusters[t].points@[kn] == nb);
    assert(clusters[t].wf());
    lemma_bounds_insert(clusters[t].rect, old_pts.to_set(), c);
    old_pts.lemma_push_to_set_commute(c);
    assert(clusters2[t].wf());
    lemma_linked_adjacent(image, nb, c, true, diagonal);
    lemma_linked_refl(image, c, true, diagonal);
    assert forall|k: int| 0 <= k < clusters2[t].points@.len() implies image.linked(
        #[trigger] clusters2[t].points@[k],
        c,
        true,
        diagonal,
    ) by {
        if k < old_pts.len() {
            assert(clusters2[t].points@[k] == clusters[t].points@[k]);
            assert(image.linked(clusters[t].points@[k], clusters[t].points@[kn], true, diagonal));
            lemma_linked_transitive(image, old_pts[k], nb, c, true, diagonal);
        }
    }
    assert forall|cc: int, k1: int, k2: int|
        0 <= cc < clusters2.len() && 0 <= k1 < clusters2[cc].points@.len() && 0 <= k2
            < clusters2[cc].points@.len() implies image.linked(
        #[trigger] clusters2[cc].points@[k1],
        #[trigger] clusters2[cc].points@[k2],
        true,
        diagonal,
    ) by {
        if cc == t {
            let p1 = clusters2[t].points@[k1];
            let p2 = clusters2[t].points@[k2];
            if k1 < old_pts.len() && k2 < old_pts.len() {
                assert(p1 == clusters[t].points@[k1]);
                assert(p2 == clusters[t].points@[k2]);
            } else {
                assert(image.linked(p1, c, true, diagonal));
                assert(image.linked(p2, c, true, diagonal));
                lemma_linked_symmetric(image, p2, c, true, diagonal);
                lemma_linked_transitive(image, p1, c, p2, true, diagonal);
            }
        } else {
            assert(clusters2[cc] == clusters[cc]);
            assert(clusters2[cc].points@[k1] == clusters[cc].points@[k1]);
            assert(clusters2[cc].points@[k2] == clusters[cc].points@[k2]);
        }
    }
    assert forall|cc: int| 0 <= cc < clusters2.len() implies (#[trigger] clusters2[cc]).points@.no_duplicates() by {
        if cc != t {
            assert(clusters2[cc] == clusters[cc]);
        }
    }
    assert forall|cc: int| 0 <= cc < clusters2.len() && (#[trigger] clusters2[cc]).points@.len() > 0 implies clusters2[cc].wf() by {
        if cc != t {
            assert(clusters2[cc] == clusters[cc]);
        }
    }
}

proof fn lemma_attach_closed(
    image: BinaryImage,
    diagonal: bool,
    map: MonoImage,
    x: int,
    y: int,
    t: int,
    map2: MonoImage,
)
    requires
        image.wf(),
        image.width <= i32::MAX,
        image.height <= i32::MAX,
        0 <= x < image.width,
        0 <= y < image.height,
        map.wf(),
        map.width == image.width,
        map.height == image.height,
        closed_ok(image, diagonal, map, x, y),
        image.pixel(x, y),
        0 <= t <= 65535,
        forall|n: PointI32|
            image.has_color(n, true) && #[trigger] adjacent(n, pt(x, y), diagonal) && pair_closed(n, pt(x, y), x + 1, y)
                ==> label_of(map, n) == t,
        diagonal && image.pixel(x - 1, y) && image.pixel(x, y - 1) ==> label_of(map, pt(x - 1, y))
            == label_of(map, pt(x, y - 1)),
        relabelled_at(map, map2, x, y, t),
    ensures
        closed_ok(image, diagonal, map2, x + 1, y),
{
    let c = pt(x, y);
    assert(label_of(map2, c) == t);
    assert forall|p: PointI32, q: PointI32|
        image.has_color(p, true) && image.has_color(q, true) && #[trigger] adjacent(p, q, diagonal)
            && pair_closed(p, q, x + 1, y) implies label_of(map2, p) == label_of(map2, q) by {
        if p != c {
            assert(label_of(map2, p) == label_of(map, p));
        }
        if q != c {
            assert(label_of(map2, q) == label_of(map, q));
        }
        if !pair_closed(p, q, x, y) {
            lemma_newly_closed(p, q, x, y);
            if p == c && q != c {
                assert(adjacent(q, c, diagonal));
                assert(pair_closed(q, c, x + 1, y));
            }
        }
    }
}

/// The neighbours of `(x, y)` that the step past it closes: its upper and left neighbours
/// and, with `diagonal`, its upper left one.
proof fn lemma_closed_neighbours(n: PointI32, x: int, y: int, diagonal: bool)
    requires
        0 <= x < i32::MAX,
        0 <= y < i32::MAX,
        adjacent(n, pt(x, y), diagonal),
        pair_closed(n, pt(x, y), x + 1, y),
    ensures
        n == pt(x, y - 1) || n == pt(x - 1, y) || (diagonal && n == pt(x - 1, y - 1)),
{
}

/// Labelling state after `(x, y)` is added to the existing cluster `t`, which holds its
/// neighbour `nb` and the label of every neighbour the step closes.
#[verifier::rlimit(40)]
proof fn lemma_attach_ok(
    image: BinaryImage,
    diagonal: bool,
    clusters: Seq<Cluster>,
    map: MonoImage,
    index: int,
    rect: BoundingRect,
    x: int,
    y: int,
    t: int,
    nb: PointI32,
    clusters2: Seq<Cluster>,
    map2: MonoImage,
)
    requires
        image.wf(),
        image.width <= i32::MAX,
        image.height <= i32::MAX,
        0 <= x < image.width,
        0 <= y < image.height,
        scan_ok(image, diagonal, clusters, map, index, rect, x, y),
        image.pixel(x, y),
        0 <= t < clusters.len(),
        clusters[t].points@.contains(nb),
        adjacent(nb, pt(x, y), diagonal),
        forall|n: PointI32|
            image.has_color(n, true) && #[trigger] adjacent(n, pt(x, y), diagonal) && pair_closed(n, pt(x, y), x + 1, y)
                ==> label_of(map, n) == t,
        diagonal && image.pixel(x - 1, y) && image.pixel(x, y - 1) ==> label_of(map, pt(x - 1, y))
            == label_of(map, pt(x, y - 1)),
        clusters2.len() == clusters.len(),
        forall|c: int| 0 <= c < clusters.len() && c != t ==> #[trigger] clusters2[c] == clusters[c],
        clusters2[t].points@ == clusters[t].points@.push(pt(x, y)),
        clusters2[t].rect == clusters[t].rect.with_point(x as i32, y as i32),
        relabelled_at(map, map2, x, y, t),
    ensures
        scan_ok(image, diagonal, clusters2, map2, index, rect.with_point(x as i32, y as i32), x + 1, y),
{
    let c = pt(x, y);
    assert(image.has_color(c, true));
    lemma_bounds_insert(rect, image.scanned_ink(x, y), c);
    assert(image.scanned_ink(x, y).insert(c) =~= image.scanned_ink(x + 1, y));
    lemma_attach_members(image, clusters, map, x, y, t, clusters2, map2);
    let kn = choose|k: int| 0 <= k < clusters[t].points@.len() && clusters[t].points@[k] == nb;
    assert(clusters[t].points@[kn] == nb);
    lemma_attach_clusters(image, diagonal, clusters, t, c, nb, clusters2);
    lemma_attach_closed(image, diagonal, map, x, y, t, map2);
    if index < clusters.len() {
        assert(index != t);
        assert(clusters2[index] == clusters[index]);
    }
    assert(image.starts_in_row(y, x + 1, diagonal) >= image.starts_in_row(y, x, diagonal));
}

proof fn lemma_open_members(
    image: BinaryImage,
    clusters: Seq<Cluster>,
    map: MonoImage,
    index: int,
    x: int,
    y: int,
    clusters2: Seq<Cluster>,
    map2: MonoImage,
)
    requires
        image.wf(),
        image.width <= i32::MAX,
        image.height <= i32::MAX,
        0 <= x < image.width,
        0 <= y < image.height,
        map.wf(),
        map.width == image.width,
        map.height == image.height,
        members_ok(image, clusters, map, x, y),
        image.pixel(x, y),
        0 <= index <= 65535,
        index <= clusters.len(),
        index < clusters.len() ==> clusters[index].points@.len() == 0,
        clusters2.len() == if index < clusters.len() { clusters.len() } else { clusters.len() + 1 },
        forall|c: int| 0 <= c < clusters.len() && c != index ==> #[trigger] clusters2[c] == clusters[c],
        clusters2[index].points@ == seq![pt(x, y)],
        relabelled_at(map, map2, x, y, index),
    ensures
        members_ok(image, clusters2, map2, x + 1, y),
{
    let c = pt(x, y);
    assert(image.has_color(c, true));
    assert(label_of(map2, c) == index);
    assert forall|p: PointI32|
        #[trigger] image.has_color(p, true) && scanned(p.x as int, p.y as int, x + 1, y) implies {
        &&& 0 <= label_of(map2, p) < clusters2.len()
        &&& clusters2[label_of(map2, p)].points@.contains(p)
    } by {
        if p == c {
            assert(clusters2[index].points@[0] == c);
        } else {
            assert(scanned(p.x as int, p.y as int, x, y));
            assert(label_of(map2, p) == label_of(map, p));
            let l = label_of(map, p);
            assert(clusters[l].points@.contains(p));
            assert(l != index);
            assert(clusters2[l] == clusters[l]);
        }
    }
    assert forall|cc: int, k: int|
        0 <= cc < clusters2.len() && 0 <= k < clusters2[cc].points@.len() implies {
            let q = #[trigger] clusters2[cc].points@[k];
            &&& image.has_color(q, true)
            &&& scanned(q.x as int, q.y as int, x + 1, y)
            &&& label_of(map2, q) == cc
        } by {
        if cc != index {
            assert(clusters2[cc] == clusters[cc]);
            assert(clusters2[cc].points@[k] == clusters[cc].points@[k]);
        }
    }
}

proof fn lemma_open_clusters(
    image: BinaryImage,
    diagonal: bool,
    clusters: Seq<Cluster>,
    index: int,
    c: PointI32,
    clusters2: Seq<Cluster>,
)
    requires
        clusters_ok(image, diagonal, clusters),
        image.has_color(c, true),
        c.x < i32::MAX,
        c.y < i32::MAX,
        0 <= index <= clusters.len(),
        clusters2.len() == if index < clusters.len() { clusters.len() } else { clusters.len() + 1 },
        forall|cc: int| 0 <= cc < clusters.len() && cc != index ==> #[trigger] clusters2[cc] == clusters[cc],
        clusters2[index].points@ == seq![c],
        clusters2[index].rect == BoundingRect::zero().with_point(c.x, c.y),
    ensures
        clusters_ok(image, diagonal, clusters2),
{
    lemma_bounds_insert(BoundingRect::zero(), Set::<PointI32>::empty(), c);
    let e = Seq::<PointI32>::empty();
    e.lemma_push_to_set_commute(c);
    assert(e.push(c) =~= seq![c]);
    assert(e.to_set() =~= Set::<PointI32>::empty());
    assert(clusters2[index].wf());
    lemma_linked_refl(image, c, true, diagonal);
    assert forall|cc: int| 0 <= cc < clusters2.len() implies (#[trigger] clusters2[cc]).points@.no_duplicates() by {
        if cc != index {
            assert(clusters2[cc] == clusters[cc]);
        }
    }
    assert forall|cc: int| 0 <= cc < clusters2.len() && (#[trigger] clusters2[cc]).points@.len() > 0 implies clusters2[cc].wf() by {
        if cc != index {
            assert(clusters2[cc] == clusters[cc]);
        }
    }
    assert forall|cc: int, k1: int, k2: int|
        0 <= cc < clusters2.len() && 0 <= k1 < clusters2[cc].points@.len() && 0 <= k2
            < clusters2[cc].points@.len() implies image.linked(
        #[trigger] clusters2[cc].points@[k1],
        #[trigger] clusters2[cc].points@[k2],
        true,
        diagonal,
    ) by {
        if cc != index {
            assert(clusters2[cc] == clusters[cc]);
            assert(clusters2[cc].points@[k1] == clusters[cc].points@[k1]);
            assert(clusters2[cc].points@[k2] == clusters[cc].points@[k2]);
        } else {
            assert(clusters2[cc].points@[k1] == c);
            assert(clusters2[cc].points@[k2] == c);
        }
    }
}

proof fn lemma_open_closed(
    image: BinaryImage,
    diagonal: bool,
    map: MonoImage,
    x: int,
    y: int,
    t: int,
    map2: MonoImage,
)
    requires
        image.wf(),
        image.width <= i32::MAX,
        image.height <= i32::MAX,
        0 <= x < image.width,
        0 <= y < image.height,
        map.wf(),
        map.width == image.width,
        map.height == image.height,
        closed_ok(image, diagonal, map, x, y),
        image.starts_cluster(x, y, diagonal),
        relabelled_at(map, map2, x, y, t),
    ensures
        closed_ok(image, diagonal, map2, x + 1, y),
{
    let c = pt(x, y);
    assert forall|p: PointI32, q: PointI32|
        image.has_color(p, true) && image.has_color(q, true) && #[trigger] adjacent(p, q, diagonal)
            && pair_closed(p, q, x + 1, y) implies label_of(map2, p) == label_of(map2, q) by {
        if !pair_closed(p, q, x, y) {
            lemma_newly_closed(p, q, x, y);
            assert(false);
        }
        assert(p != c && q != c);
        assert(label_of(map2, p) == label_of(map, p));
        assert(label_of(map2, q) == label_of(map, q));
    }
}

/// Labelling state after `(x, y)` opens a new cluster in slot `index`.
#[verifier::rlimit(30)]
proof fn lemma_open_ok(
    image: BinaryImage,
    diagonal: bool,
    clusters: Seq<Cluster>,
    map: MonoImage,
    index: int,
    rect: BoundingRect,
    x: int,
    y: int,
    clusters2: Seq<Cluster>,
    map2: MonoImage,
)
    requires
        image.wf(),
        image.width <= i32::MAX,
        image.height <= i32::MAX,
        0 <= x < image.width,
        0 <= y < image.height,
        0 <= index,
        scan_ok(image, diagonal, clusters, map, index, rect, x, y),
        image.starts_cluster(x, y, diagonal),
        index + 1 < 65535,
        clusters2.len() == if index < clusters.len() { clusters.len() } else { clusters.len() + 1 },
        forall|c: int| 0 <= c < clusters.len() && c != index ==> #[trigger] clusters2[c] == clusters[c],
        clusters2[index].points@ == seq![pt(x, y)],
        clusters2[index].rect == BoundingRect::zero().with_point(x as i32, y as i32),
        relabelled_at(map, map2, x, y, index),
    ensures
        scan_ok(image, diagonal, clusters2, map2, index + 1, rect.with_point(x as i32, y as i32), x + 1, y),
{
    let c = pt(x, y);
    assert(image.has_color(c, true));
    lemma_bounds_insert(rect, image.scanned_ink(x, y), c);
    assert(image.scanned_ink(x, y).insert(c) =~= image.scanned_ink(x + 1, y));
    lemma_open_members(image, clusters, map, index, x, y, clusters2, map2);
    lemma_open_clusters(image, diagonal, clusters, index, c, clusters2);
    lemma_open_closed(image, diagonal, map, x, y, index, map2);
}

/// At the end of the scan, the non-empty clusters, in order, are the clusters of the image.
#[verifier::rlimit(30)]
proof fn lemma_scan_done(
    image: BinaryImage,
    diagonal: bool,
    clusters: Seq<Cluster>,
    map: MonoImage,
    index: int,
    rect: BoundingRect,
    out: Seq<Cluster>,
    src: Seq<int>,
)
    requires
        image.wf(),
        image.width <= i32::MAX,
        image.height <= i32::MAX,
        scan_ok(image, diagonal, clusters, map, index, rect, 0, image.height as int),
        out.len() == src.len(),
        forall|i: int| 0 <= i < src.len() ==> 0 <= #[trigger] src[i] < clusters.len() && out[i] == clusters[src[i]],
        forall|i: int| 0 <= i < src.len() ==> (#[trigger] out[i]).points@.len() > 0,
        forall|i: int, j: int| 0 <= i < j < src.len() ==> src[i] < src[j],
        forall|k: int|
            0 <= k < clusters.len() && (#[trigger] clusters[k]).points@.len() > 0 ==> exists|i: int|
                0 <= i < src.len() && src[i] == k,
    ensures
        rect.bounds(image.ink_set()),
        clusters_of(out, image, true, diagonal),
{
    let h = image.height as int;
    assert(image.scanned_ink(0, h) =~= image.ink_set());
    assert forall|i: int| 0 <= i < out.len() implies {
        &&& (#[trigger] out[i]).points@.len() > 0
        &&& out[i].points@.no_duplicates()
        &&& out[i].wf()
    } by {
        assert(clusters[src[i]] == out[i]);
    }
    assert forall|i: int, k: int|
        0 <= i < out.len() && 0 <= k < out[i].points@.len() implies image.has_color(#[trigger] out[i].points@[k], true) by {
        assert(clusters[src[i]] == out[i]);
        assert(out[i].points@[k] == clusters[src[i]].points@[k]);
    }
    assert forall|p: PointI32| #[trigger] image.has_color(p, true) implies exists|i: int|
        0 <= i < out.len() && #[trigger] out[i].points@.contains(p) by {
        assert(scanned(p.x as int, p.y as int, 0, h));
        let l = label_of(map, p);
        assert(clusters[l].points@.contains(p));
        assert(clusters[l].points@.len() > 0);
        let i = choose|i: int| 0 <= i < src.len() && src[i] == l;
        assert(out[i] == clusters[l]);
    }
    // Every pair of neighbours is closed at the end, so linked pixels share a label.
    let label = |p: PointI32| label_of(map, p);
    assert forall|p: PointI32, q: PointI32|
        image.has_color(p, true) && image.has_color(q, true) && #[trigger] adjacent(p, q, diagonal)
            implies label(p) == label(q) by {
        assert(pair_closed(p, q, 0, h));
    }
    assert forall|i: int, j: int, k: int, l: int|
        0 <= i < out.len() && 0 <= j < out.len() && 0 <= k < out[i].points@.len() && 0 <= l
            < out[j].points@.len() implies (image.linked(
        #[trigger] out[i].points@[k],
        #[trigger] out[j].points@[l],
        true,
        diagonal,
    ) <==> i == j) by {
        let a = out[i].points@[k];
        let b = out[j].points@[l];
        assert(clusters[src[i]] == out[i]);
        assert(clusters[src[j]] == out[j]);
        assert(a == clusters[src[i]].points@[k]);
        assert(b == clusters[src[j]].points@[l]);
        if i == j {
            assert(image.linked(clusters[src[i]].points@[k], clusters[src[i]].points@[l], true, diagonal));
        }
        if image.linked(a, b, true, diagonal) {
            lemma_linked_same_label(image, label, a, b, true, diagonal);
            assert(label_of(map, a) == src[i]);
            assert(label_of(map, b) == src[j]);
            if i < j {
                assert(src[i] < src[j]);
            } else if j < i {
                assert(src[j] < src[i]);
            }
        }
    }
}

/// Merges the clusters of the upper and left neighbours of `(x, y)` where the pixel (or,
/// with `diagonal`, the corner they share) joins them; returns their labels after.
#[verifier::rlimit(30)]
fn join_neighbours(
    image: &BinaryImage,
    diagonal: bool,
    x: usize,
    y: usize,
    v: bool,
    v_up: bool,
    v_left: bool,
    cluster_up: MonoImageItem,
    cluster_left: MonoImageItem,
    clusters: &mut Vec<Cluster>,
    clustermap: &mut MonoImage,
    clusterindex: &mut MonoImageItem,
    rect: &BoundingRect,
) -> (r: (MonoImageItem, MonoImageItem))
    requires
        image.wf(),
        image.width <= i32::MAX,
        image.height <= i32::MAX,
        y < image.height,
        x < image.width,
        scan_ok(*image, diagonal, old(clusters)@, *old(clustermap), *old(clusterindex) as int, *rect, x as int, y as int),
        v == image.pixel(x as int, y as int),
        v_up == image.pixel(x as int, y - 1),
        v_left == image.pixel(x - 1, y as int),
        v_up ==> label_of(*old(clustermap), pt(x as int, y - 1)) == cluster_up,
        v_left ==> label_of(*old(clustermap), pt(x - 1, y as int)) == cluster_left,
        order_ok(*image, diagonal, old(clusters)@),
        named_by(*image, old(clusters)@, *old(clustermap), x as int, y as int, opener(*image, true, diagonal, x as int, y as int)),
        listed_by(old(clusters)@, members(*image, true, diagonal, x as int, y as int)),
        slotted(old(clusters)@, *old(clusterindex) as int, slots(*image, diagonal, x as int, y as int)),
    ensures
        scan_ok(*image, diagonal, final(clusters)@, *final(clustermap), *final(clusterindex) as int, *rect, x as int, y as int),
        slotted(
            final(clusters)@,
            *final(clusterindex) as int,
            slots_merge(
                *image,
                diagonal,
                opener(*image, true, diagonal, x as int, y as int),
                slots(*image, diagonal, x as int, y as int),
                x as int,
                y as int,
            ),
        ),
        listed_by(
            final(clusters)@,
            merge_members(
                *image,
                true,
                diagonal,
                opener(*image, true, diagonal, x as int, y as int),
                members(*image, true, diagonal, x as int, y as int),
                x as int,
                y as int,
            ),
        ),
        order_ok(*image, diagonal, final(clusters)@),
        named_by(
            *image,
            final(clusters)@,
            *final(clustermap),
            x as int,
            y as int,
            merge_at(*image, true, diagonal, opener(*image, true, diagonal, x as int, y as int), x as int, y as int),
        ),
        v_up ==> label_of(*final(clustermap), pt(x as int, y - 1)) == r.0,
        v_left ==> label_of(*final(clustermap), pt(x - 1, y as int)) == r.1,
        (v || diagonal) && v_up && v_left ==> r.0 == r.1,
        !(v_up && v_left) ==> final(clusters)@ == old(clusters)@ && *final(clustermap) == *old(clustermap),
{
    let ghost up = pt(x as int, y - 1);
    let ghost left = pt(x - 1, y as int);
    let ghost pos = pt(x as int, y as int);
    let mut cluster_up = cluster_up;
    let mut cluster_left = cluster_left;
    proof {
        if v_up {
            assert(image.has_color(up, true));
        }
        if v_left {
            assert(image.has_color(left, true));
        }
    }
        if (v || diagonal) && v_up && v_left && cluster_left != cluster_up {
            let ghost clusters0 = clusters@;
            let ghost map0 = *clustermap;
            proof {
                assert(scanned(up.x as int, up.y as int, x as int, y as int));
                assert(scanned(left.x as int, left.y as int, x as int, y as int));
                assert forall|k: int| 0 <= k < clusters0[cluster_left as int].points@.len() implies {
                    let p = #[trigger] clusters0[cluster_left as int].points@[k];
                    0 <= p.x < map0.width && 0 <= p.y < map0.height
                } by {
                    assert(image.has_color(clusters0[cluster_left as int].points@[k], true));
                }
                assert forall|k: int| 0 <= k < clusters0[cluster_up as int].points@.len() implies {
                    let p = #[trigger] clusters0[cluster_up as int].points@[k];
                    0 <= p.x < map0.width && 0 <= p.y < map0.height
                } by {
                    assert(image.has_color(clusters0[cluster_up as int].points@[k], true));
                }
                if v {
                    lemma_linked_adjacent(*image, left, pos, true, diagonal);
                    lemma_linked_adjacent(*image, pos, up, true, diagonal);
                    lemma_linked_transitive(*image, left, pos, up, true, diagonal);
                } else {
                    lemma_linked_adjacent(*image, left, up, true, diagonal);
                }
                lemma_linked_symmetric(*image, left, up, true, diagonal);
            }
            if clusters[cluster_left as usize].size() <= clusters[cluster_up as usize].size() {
                combine_cluster(clusters, clustermap, cluster_left, cluster_up);
                proof {
                    lemma_combine_ok(*image, diagonal, clusters0, map0, *clusterindex as int, *rect,
                        x as int, y as int, cluster_left as int, cluster_up as int, clusters@, *clustermap,
                        left, up);
                    assert(clusters0[cluster_up as int].points@.contains(up));
                    lemma_combine_order(*image, diagonal, clusters0, clusters@, cluster_left as int, cluster_up as int);
                    lemma_merge_named(*image, diagonal, clusters0, map0, *clusterindex as int, *rect, x as int,
                        y as int, opener(*image, true, diagonal, x as int, y as int), true, clusters@, *clustermap);
                    lemma_merge_listed(*image, diagonal, clusters0, map0, *clusterindex as int, *rect, x as int,
                        y as int, opener(*image, true, diagonal, x as int, y as int),
                        members(*image, true, diagonal, x as int, y as int), true, clusters@, *clustermap);
                }
                let ghost index0 = *clusterindex as int;
                if *clusterindex > 0 && cluster_left == *clusterindex - 1 && *clusterindex as usize == clusters.len() {
                    // reduce cluster counts
                    *clusterindex -= 1;
                    proof {
                        assert(clusters@[*clusterindex as int].points@.len() == 0);
                    }
                }
                proof {
                    lemma_merge_slotted(*image, diagonal, clusters0, map0, index0, *rect, x as int, y as int,
                        opener(*image, true, diagonal, x as int, y as int), slots(*image, diagonal, x as int, y as int),
                        true, clusters@, *clustermap, *clusterindex as int);
                }
                cluster_left = cluster_up;
            } else {
                combine_cluster(clusters, clustermap, cluster_up, cluster_left);
                proof {
                    lemma_combine_ok(*image, diagonal, clusters0, map0, *clusterindex as int, *rect,
                        x as int, y as int, cluster_up as int, cluster_left as int, clusters@, *clustermap,
                        up, left);
                    assert(clusters0[cluster_left as int].points@.contains(left));
                    lemma_combine_order(*image, diagonal, clusters0, clusters@, cluster_up as int, cluster_left as int);
                    lemma_merge_named(*image, diagonal, clusters0, map0, *clusterindex as int, *rect, x as int,
                        y as int, opener(*image, true, diagonal, x as int, y as int), false, clusters@, *clustermap);
                    lemma_merge_listed(*image, diagonal, clusters0, map0, *clusterindex as int, *rect, x as int,
                        y as int, opener(*image, true, diagonal, x as int, y as int),
                        members(*image, true, diagonal, x as int, y as int), false, clusters@, *clustermap);
                    lemma_merge_slotted(*image, diagonal, clusters0, map0, *clusterindex as int, *rect, x as int,
                        y as int, opener(*image, true, diagonal, x as int, y as int),
                        slots(*image, diagonal, x as int, y as int), false, clusters@, *clustermap,
                        *clusterindex as int);
                }
                cluster_up = cluster_left;
            }
        } else {
            proof {
                if (v || diagonal) && v_up && v_left {
                    let f = opener(*image, true, diagonal, x as int, y as int);
                    lemma_named_classes(*image, diagonal, clusters@, *clustermap, *clusterindex as int, *rect, x as int,
                        y as int, f);
                    assert(scanned(up.x as int, up.y as int, x as int, y as int));
                    assert(scanned(left.x as int, left.y as int, x as int, y as int));
                    assert(f(up) == f(left));
                }
            }
        }
    (cluster_up, cluster_left)
}

/// Labels pixel `(x, y)`: merges the clusters of its upper and left neighbours where the
/// pixel joins them, then adds the pixel to a neighbour's cluster or opens a new one.
#[verifier::rlimit(30)]
fn label_pixel(
    image: &BinaryImage,
    diagonal: bool,
    x: usize,
    y: usize,
    clusters: &mut Vec<Cluster>,
    clustermap: &mut MonoImage,
    clusterindex: &mut MonoImageItem,
    rect: &mut BoundingRect,
)
    requires
        image.wf(),
        image.width <= i32::MAX,
        image.height <= i32::MAX,
        image.scan_within_limit(diagonal),
        y < image.height,
        x < image.width,
        scan_ok(*image, diagonal, old(clusters)@, *old(clustermap), *old(clusterindex) as int, *old(rect), x as int, y as int),
        order_ok(*image, diagonal, old(clusters)@),
        named_by(*image, old(clusters)@, *old(clustermap), x as int, y as int, opener(*image, true, diagonal, x as int, y as int)),
        listed_by(old(clusters)@, members(*image, true, diagonal, x as int, y as int)),
        slotted(old(clusters)@, *old(clusterindex) as int, slots(*image, diagonal, x as int, y as int)),
    ensures
        scan_ok(*image, diagonal, final(clusters)@, *final(clustermap), *final(clusterindex) as int, *final(rect), x + 1, y as int),
        order_ok(*image, diagonal, final(clusters)@),
        named_by(*image, final(clusters)@, *final(clustermap), x + 1, y as int, opener(*image, true, diagonal, x + 1, y as int)),
        listed_by(final(clusters)@, members(*image, true, diagonal, x + 1, y as int)),
        slotted(final(clusters)@, *final(clusterindex) as int, slots(*image, diagonal, x + 1, y as int)),
{
        let v = image.get_pixel_safe(x as i32, y as i32);
        let v_up = image.get_pixel_safe(x as i32, y as i32 - 1);
        let v_left = image.get_pixel_safe(x as i32 - 1, y as i32);
        let v_up_left = image.get_pixel_safe(x as i32 - 1, y as i32 - 1);
        let mut cluster_up: MonoImageItem = if y > 0 { clustermap.get_pixel(x, y - 1) } else { 0 };
        let mut cluster_left: MonoImageItem = if x > 0 { clustermap.get_pixel(x - 1, y) } else { 0 };
        let cluster_up_left = if x > 0 && y > 0 { clustermap.get_pixel(x - 1, y - 1) } else { 0 };
        let ghost up = pt(x as int, y - 1);
        let ghost left = pt(x - 1, y as int);
        let ghost up_left = pt(x - 1, y - 1);
        proof {
            if v_up {
                assert(image.has_color(up, true));
                assert(label_of(*clustermap, up) == cluster_up);
            }
            if v_left {
                assert(image.has_color(left, true));
                assert(label_of(*clustermap, left) == cluster_left);
            }
            if v_up_left {
                assert(image.has_color(up_left, true));
                assert(label_of(*clustermap, up_left) == cluster_up_left);
            }
        }
        let (cu, cl) = join_neighbours(image, diagonal, x, y, v, v_up, v_left, cluster_up, cluster_left,
            clusters, clustermap, clusterindex, rect);
        cluster_up = cu;
        cluster_left = cl;
        proof {
            if (v || diagonal) && v_up && v_left {
                assert(label_of(*clustermap, left) == cluster_left);
                assert(label_of(*clustermap, up) == cluster_up);
                assert(cluster_left == cluster_up);
            }
            if v_up {
                assert(label_of(*clustermap, up) == cluster_up);
            }
            if v_left {
                assert(label_of(*clustermap, left) == cluster_left);
            }
            if !v_up && v_up_left {
                assert(label_of(*clustermap, up_left) == cluster_up_left);
            }
        }
        place_pixel(image, diagonal, x, y, v, v_up, v_left, v_up_left, cluster_up, cluster_left, cluster_up_left,
            clusters, clustermap, clusterindex, rect);
}

/// Opens a new cluster, in the next free slot, for the set pixel `(x, y)` that has no
/// set neighbour seen so far.
#[verifier::rlimit(60)]
fn open_cluster(
    image: &BinaryImage,
    diagonal: bool,
    x: usize,
    y: usize,
    Ghost(g): Ghost<spec_fn(PointI32) -> PointI32>,
    Ghost(m): Ghost<spec_fn(PointI32) -> Seq<PointI32>>,
    Ghost(sl): Ghost<Slots>,
    clusters: &mut Vec<Cluster>,
    clustermap: &mut MonoImage,
    clusterindex: &mut MonoImageItem,
    rect: &mut BoundingRect,
)
    requires
        image.wf(),
        image.width <= i32::MAX,
        image.height <= i32::MAX,
        image.scan_within_limit(diagonal),
        y < image.height,
        x < image.width,
        scan_ok(*image, diagonal, old(clusters)@, *old(clustermap), *old(clusterindex) as int, *old(rect), x as int, y as int),
        order_ok(*image, diagonal, old(clusters)@),
        image.starts_cluster(x as int, y as int, diagonal),
        named_by(*image, old(clusters)@, *old(clustermap), x as int, y as int, g),
        listed_by(old(clusters)@, m),
        slotted(old(clusters)@, *old(clusterindex) as int, sl),
        *old(clusterindex) + 1 < 65535,
    ensures
        scan_ok(*image, diagonal, final(clusters)@, *final(clustermap), *final(clusterindex) as int, *final(rect), x + 1, y as int),
        slotted(final(clusters)@, *final(clusterindex) as int, slots_place(*image, diagonal, sl, x as int, y as int)),
        order_ok(*image, diagonal, final(clusters)@),
        named_by(*image, final(clusters)@, *final(clustermap), x + 1, y as int, place_at(*image, true, diagonal, g, x as int, y as int)),
        listed_by(final(clusters)@, place_members(*image, true, diagonal, g, m, x as int, y as int)),
{
    let ghost clusters1 = clusters@;
    let ghost map1 = *clustermap;
    let ghost rect1 = *rect;
    let ghost index1 = *clusterindex as int;
    let pos = PointI32 { x: x as i32, y: y as i32 };
    rect.add_x_y(x as i32, y as i32);
    let mut newcluster = Cluster::default();
    newcluster.add(pos);
    if (*clusterindex as usize) < clusters.len() {
        clusters.set(*clusterindex as usize, newcluster);
    } else {
        clusters.push(newcluster);
    }
    clustermap.set_pixel(x, y, *clusterindex);
    proof {
        lemma_open_ok(*image, diagonal, clusters1, map1, index1, rect1, x as int, y as int, clusters@, *clustermap);
        assert forall|c: int| 0 <= c < clusters1.len() && (#[trigger] clusters1[c]).points@.len() > 0 implies
            scan_before(clusters1[c].points@[0], pos) by {
            let q = clusters1[c].points@[0];
            assert(scanned(q.x as int, q.y as int, x as int, y as int));
        }
        lemma_open_order(*image, diagonal, clusters1, clusters@, index1, pos);
        lemma_open_named(*image, diagonal, clusters1, map1, index1, rect1, x as int, y as int, g, clusters@,
            *clustermap);
        lemma_open_listed(*image, diagonal, clusters1, map1, index1, rect1, x as int, y as int, g, m, clusters@);
        lemma_open_slotted(*image, diagonal, clusters1, map1, index1, rect1, x as int, y as int, sl, clusters@);
    }
    *clusterindex += 1;
}

/// Adds the set pixel `(x, y)` to cluster `t`, which holds its neighbour `nb` and, by
/// label, every neighbour whose pair with it is closed.
#[verifier::rlimit(30)]
fn attach_pixel(
    image: &BinaryImage,
    diagonal: bool,
    x: usize,
    y: usize,
    t: MonoImageItem,
    Ghost(nb): Ghost<PointI32>,
    Ghost(g): Ghost<spec_fn(PointI32) -> PointI32>,
    Ghost(m): Ghost<spec_fn(PointI32) -> Seq<PointI32>>,
    Ghost(sl): Ghost<Slots>,
    clusters: &mut Vec<Cluster>,
    clustermap: &mut MonoImage,
    index: MonoImageItem,
    rect: &mut BoundingRect,
)
    requires
        image.wf(),
        image.width <= i32::MAX,
        image.height <= i32::MAX,
        y < image.height,
        x < image.width,
        scan_ok(*image, diagonal, old(clusters)@, *old(clustermap), index as int, *old(rect), x as int, y as int),
        order_ok(*image, diagonal, old(clusters)@),
        image.pixel(x as int, y as int),
        t < old(clusters)@.len(),
        old(clusters)@[t as int].points@.contains(nb),
        adjacent(nb, pt(x as int, y as int), diagonal),
        forall|n: PointI32|
            image.has_color(n, true) && #[trigger] adjacent(n, pt(x as int, y as int), diagonal)
                && pair_closed(n, pt(x as int, y as int), x + 1, y as int) ==> label_of(*old(clustermap), n) == t,
        diagonal && image.pixel(x - 1, y as int) && image.pixel(x as int, y - 1) ==> label_of(
            *old(clustermap),
            pt(x - 1, y as int),
        ) == label_of(*old(clustermap), pt(x as int, y - 1)),
        named_by(*image, old(clusters)@, *old(clustermap), x as int, y as int, g),
        place_at(*image, true, diagonal, g, x as int, y as int)(pt(x as int, y as int)) == old(
            clusters,
        )@[t as int].points@[0],
        listed_by(old(clusters)@, m),
        slotted(old(clusters)@, index as int, sl),
    ensures
        scan_ok(*image, diagonal, final(clusters)@, *final(clustermap), index as int, *final(rect), x + 1, y as int),
        slotted(final(clusters)@, index as int, slots_place(*image, diagonal, sl, x as int, y as int)),
        order_ok(*image, diagonal, final(clusters)@),
        named_by(*image, final(clusters)@, *final(clustermap), x + 1, y as int, place_at(*image, true, diagonal, g, x as int, y as int)),
        listed_by(final(clusters)@, place_members(*image, true, diagonal, g, m, x as int, y as int)),
{
    let ghost clusters1 = clusters@;
    let ghost map1 = *clustermap;
    let ghost rect1 = *rect;
    let pos = PointI32 { x: x as i32, y: y as i32 };
    rect.add_x_y(x as i32, y as i32);
    clustermap.set_pixel(x, y, t);
    clusters[t as usize].add(pos);
    proof {
        lemma_attach_ok(*image, diagonal, clusters1, map1, index as int, rect1, x as int, y as int, t as int, nb,
            clusters@, *clustermap);
        lemma_push_order(*image, diagonal, clusters1, clusters@, t as int, pos);
        lemma_attach_named(*image, diagonal, clusters1, map1, index as int, rect1, x as int, y as int, g, t as int,
            clusters@, *clustermap);
        lemma_attach_listed(*image, diagonal, clusters1, map1, index as int, rect1, x as int, y as int, g, m, t as int,
            clusters@);
        lemma_attach_slotted(*image, diagonal, clusters1, index as int, x as int, y as int, sl, t as int, clusters@);
    }
}

/// Adds pixel `(x, y)`, once its neighbours' clusters are joined, to the cluster of a
/// neighbour, or opens a new cluster for it.
#[verifier::rlimit(30)]
fn place_pixel(
    image: &BinaryImage,
    diagonal: bool,
    x: usize,
    y: usize,
    v: bool,
    v_up: bool,
    v_left: bool,
    v_up_left: bool,
    cluster_up: MonoImageItem,
    cluster_left: MonoImageItem,
    cluster_up_left: MonoImageItem,
    clusters: &mut Vec<Cluster>,
    clustermap: &mut MonoImage,
    clusterindex: &mut MonoImageItem,
    rect: &mut BoundingRect,
)
    requires
        image.wf(),
        image.width <= i32::MAX,
        image.height <= i32::MAX,
        image.scan_within_limit(diagonal),
        y < image.height,
        x < image.width,
        scan_ok(*image, diagonal, old(clusters)@, *old(clustermap), *old(clusterindex) as int, *old(rect), x as int, y as int),
        order_ok(*image, diagonal, old(clusters)@),
        v == image.pixel(x as int, y as int),
        v_up == image.pixel(x as int, y - 1),
        v_left == image.pixel(x - 1, y as int),
        v_up_left == image.pixel(x - 1, y - 1),
        v_up ==> label_of(*old(clustermap), pt(x as int, y - 1)) == cluster_up,
        v_left ==> label_of(*old(clustermap), pt(x - 1, y as int)) == cluster_left,
        !v_up && v_up_left ==> label_of(*old(clustermap), pt(x - 1, y - 1)) == cluster_up_left,
        (v || diagonal) && v_up && v_left ==> cluster_up == cluster_left,
        named_by(
            *image,
            old(clusters)@,
            *old(clustermap),
            x as int,
            y as int,
            merge_at(*image, true, diagonal, opener(*image, true, diagonal, x as int, y as int), x as int, y as int),
        ),
        listed_by(
            old(clusters)@,
            merge_members(
                *image,
                true,
                diagonal,
                opener(*image, true, diagonal, x as int, y as int),
                members(*image, true, diagonal, x as int, y as int),
                x as int,
                y as int,
            ),
        ),
        slotted(
            old(clusters)@,
            *old(clusterindex) as int,
            slots_merge(
                *image,
                diagonal,
                opener(*image, true, diagonal, x as int, y as int),
                slots(*image, diagonal, x as int, y as int),
                x as int,
                y as int,
            ),
        ),
    ensures
        scan_ok(*image, diagonal, final(clusters)@, *final(clustermap), *final(clusterindex) as int, *final(rect), x + 1, y as int),
        order_ok(*image, diagonal, final(clusters)@),
        named_by(*image, final(clusters)@, *final(clustermap), x + 1, y as int, opener(*image, true, diagonal, x + 1, y as int)),
        listed_by(final(clusters)@, members(*image, true, diagonal, x + 1, y as int)),
        slotted(final(clusters)@, *final(clusterindex) as int, slots(*image, diagonal, x + 1, y as int)),
{
        let ghost sm = slots_merge(
            *image,
            diagonal,
            opener(*image, true, diagonal, x as int, y as int),
            slots(*image, diagonal, x as int, y as int),
            x as int,
            y as int,
        );
        proof {
            lemma_slots_bounds(*image, diagonal, x + 1, y as int);
            lemma_slots_peak_le_final(*image, diagonal, x + 1, y as int);
        }
        let ghost g = merge_at(*image, true, diagonal, opener(*image, true, diagonal, x as int, y as int), x as int, y as int);
        let ghost m = merge_members(
            *image,
            true,
            diagonal,
            opener(*image, true, diagonal, x as int, y as int),
            members(*image, true, diagonal, x as int, y as int),
            x as int,
            y as int,
        );
        let ghost up = pt(x as int, y - 1);
        let ghost left = pt(x - 1, y as int);
        let ghost up_left = pt(x - 1, y - 1);
        proof {
            if v_up {
                assert(image.has_color(up, true));
            }
            if v_left {
                assert(image.has_color(left, true));
            }
            if v_up_left {
                assert(image.has_color(up_left, true));
            }
        }
        let ghost clusters1 = clusters@;
        let ghost map1 = *clustermap;
        let ghost rect1 = *rect;
        let ghost index1 = *clusterindex as int;
        if v {
            proof {
                if v_up && v_left {
                    assert(label_of(map1, left) == label_of(map1, up));
                }
            }
            if v_up {
                proof {
                    assert forall|n: PointI32|
                        image.has_color(n, true) && #[trigger] adjacent(n, pt(x as int, y as int), diagonal)
                            && pair_closed(n, pt(x as int, y as int), x + 1, y as int)
                        implies label_of(map1, n) == cluster_up by {
                        lemma_closed_neighbours(n, x as int, y as int, diagonal);
                        if n == up_left && n != left {
                            assert(adjacent(up_left, up, diagonal));
                            assert(pair_closed(up_left, up, x as int, y as int));
                        }
                    }
                    assert(clusters1[cluster_up as int].points@.contains(up));
                    assert(scanned(up.x as int, up.y as int, x as int, y as int));
                }
                attach_pixel(image, diagonal, x, y, cluster_up, Ghost(up), Ghost(g), Ghost(m), Ghost(sm), clusters, clustermap, *clusterindex,
                    rect);
            } else if v_left {
                proof {
                    assert forall|n: PointI32|
                        image.has_color(n, true) && #[trigger] adjacent(n, pt(x as int, y as int), diagonal)
                            && pair_closed(n, pt(x as int, y as int), x + 1, y as int)
                        implies label_of(map1, n) == cluster_left by {
                        lemma_closed_neighbours(n, x as int, y as int, diagonal);
                        if n == up_left {
                            assert(adjacent(up_left, left, diagonal));
                            assert(pair_closed(up_left, left, x as int, y as int));
                        }
                    }
                    assert(clusters1[cluster_left as int].points@.contains(left));
                    assert(scanned(left.x as int, left.y as int, x as int, y as int));
                }
                attach_pixel(image, diagonal, x, y, cluster_left, Ghost(left), Ghost(g), Ghost(m), Ghost(sm), clusters, clustermap,
                    *clusterindex, rect);
            } else if v_up_left && diagonal {
                proof {
                    assert forall|n: PointI32|
                        image.has_color(n, true) && #[trigger] adjacent(n, pt(x as int, y as int), diagonal)
                            && pair_closed(n, pt(x as int, y as int), x + 1, y as int)
                        implies label_of(map1, n) == cluster_up_left by {
                        lemma_closed_neighbours(n, x as int, y as int, diagonal);
                    }
                    assert(clusters1[cluster_up_left as int].points@.contains(up_left));
                }
                attach_pixel(image, diagonal, x, y, cluster_up_left, Ghost(up_left), Ghost(g), Ghost(m), Ghost(sm), clusters, clustermap,
                    *clusterindex, rect);
            } else {
                open_cluster(image, diagonal, x, y, Ghost(g), Ghost(m), Ghost(sm), clusters, clustermap, clusterindex, rect);
            }
        } else {
            proof {
                lemma_skip_ok(*image, diagonal, clusters1, map1, index1, rect1, x as int, y as int);
                lemma_skip_named(*image, diagonal, clusters1, map1, x as int, y as int, g);
            }
        }
}

/// Labels the pixels of row `y`, left to right.
fn label_row(
    image: &BinaryImage,
    diagonal: bool,
    y: usize,
    clusters: &mut Vec<Cluster>,
    clustermap: &mut MonoImage,
    clusterindex: &mut MonoImageItem,
    rect: &mut BoundingRect,
)
    requires
        image.wf(),
        image.width <= i32::MAX,
        image.height <= i32::MAX,
        image.scan_within_limit(diagonal),
        y < image.height,
        scan_ok(*image, diagonal, old(clusters)@, *old(clustermap), *old(clusterindex) as int, *old(rect), 0, y as int),
        order_ok(*image, diagonal, old(clusters)@),
        named_by(*image, old(clusters)@, *old(clustermap), 0, y as int, opener(*image, true, diagonal, 0, y as int)),
        listed_by(old(clusters)@, members(*image, true, diagonal, 0, y as int)),
        slotted(old(clusters)@, *old(clusterindex) as int, slots(*image, diagonal, 0, y as int)),
    ensures
        scan_ok(*image, diagonal, final(clusters)@, *final(clustermap), *final(clusterindex) as int, *final(rect), 0, y + 1),
        order_ok(*image, diagonal, final(clusters)@),
        named_by(*image, final(clusters)@, *final(clustermap), 0, y + 1, opener(*image, true, diagonal, 0, y + 1)),
        listed_by(final(clusters)@, members(*image, true, diagonal, 0, y + 1)),
        slotted(final(clusters)@, *final(clusterindex) as int, slots(*image, diagonal, 0, y + 1)),
{
    let mut x: usize = 0;
    while x < image.width
        invariant
            image.wf(),
            image.width <= i32::MAX,
            image.height <= i32::MAX,
            image.scan_within_limit(diagonal),
            y < image.height,
            x <= image.width,
            scan_ok(*image, diagonal, clusters@, *clustermap, *clusterindex as int, *rect, x as int, y as int),
            order_ok(*image, diagonal, clusters@),
            named_by(*image, clusters@, *clustermap, x as int, y as int, opener(*image, true, diagonal, x as int, y as int)),
            listed_by(clusters@, members(*image, true, diagonal, x as int, y as int)),
            slotted(clusters@, *clusterindex as int, slots(*image, diagonal, x as int, y as int)),
        decreases image.width - x,
    {
        label_pixel(image, diagonal, x, y, clusters, clustermap, clusterindex, rect);
        x = x + 1;
    }
    proof {
        lemma_next_row(*image, diagonal, clusters@, *clustermap, *clusterindex as int, *rect, y as int);
        lemma_next_row_named(*image, diagonal, clusters@, *clustermap, y as int);
        assert(members(*image, true, diagonal, 0, y + 1) == members(*image, true, diagonal, image.width as int, y as int));
        assert(slots(*image, diagonal, 0, y + 1) == slots(*image, diagonal, image.width as int, y as int));
    }
}

impl BinaryImage {
    /// Clusters the set pixels of the image: two set pixels are in one cluster when a path
    /// of set pixels joins them, each step to a pixel sharing an edge or, with `diagonal`,
    /// a corner.
    #[verifier::rlimit(30)]
    pub fn to_clusters(&self, diagonal: bool) -> (result: Clusters)
        requires
            self.wf(),
            self.width <= i32::MAX,
            self.height <= i32::MAX,
            self.scan_within_limit(diagonal),
        ensures
            result.are_clusters_of(*self, true, diagonal),
            result.rect.bounds(self.ink_set()),
            self.ink_set().is_empty() ==> result.rect == BoundingRect::zero(),
            result.in_scan_order(*self, diagonal),
            result.named_as_scanned(*self, diagonal),
            result.listed_as_scanned(*self, diagonal),
    {
        let n = self.pixels.len();
        assert(n == self.width * self.height);
        let mut clusters = Vec::<Cluster>::new();
        let mut rect = BoundingRect::default();
        let mut clustermap = MonoImage::new_w_h(self.width, self.height);
        let mut clusterindex: MonoImageItem = 0;
        proof {
            assert(self.scanned_ink(0, 0) =~= Set::<PointI32>::empty());
        }
        let mut y: usize = 0;
        while y < self.height
            invariant
                self.wf(),
                self.width <= i32::MAX,
                self.height <= i32::MAX,
                self.scan_within_limit(diagonal),
                y <= self.height,
                scan_ok(*self, diagonal, clusters@, clustermap, clusterindex as int, rect, 0, y as int),
                order_ok(*self, diagonal, clusters@),
                named_by(*self, clusters@, clustermap, 0, y as int, opener(*self, true, diagonal, 0, y as int)),
                listed_by(clusters@, members(*self, true, diagonal, 0, y as int)),
                slotted(clusters@, clusterindex as int, slots(*self, diagonal, 0, y as int)),
            decreases self.height - y,
        {
            label_row(self, diagonal, y, &mut clusters, &mut clustermap, &mut clusterindex, &mut rect);
            y = y + 1;
        }
        let ghost all = clusters@;
        let ghost last_map = clustermap;
        let ghost last_index = clusterindex as int;
        let mut kept: Vec<Cluster> = Vec::new();
        let ghost mut src: Seq<int> = Seq::empty();
        for c in it: clusters.into_iter()
            invariant
                it.seq() == all,
                kept@.len() == src.len(),
                forall|i: int| 0 <= i < src.len() ==> 0 <= #[trigger] src[i] < it.index() && kept@[i] == all[src[i]],
                forall|i: int| 0 <= i < src.len() ==> (#[trigger] kept@[i]).points@.len() > 0,
                forall|i: int, j: int| 0 <= i < j < src.len() ==> src[i] < src[j],
                forall|k: int|
                    0 <= k < it.index() && (#[trigger] all[k]).points@.len() > 0 ==> exists|i: int|
                        0 <= i < src.len() && src[i] == k,
        {
            let ghost k = it.index() as int;
            let ghost src0 = src;
            proof {
                assert(c == all[k]);
            }
            if c.size() != 0 {
                proof {
                    src = src.push(k);
                    assert(src[src.len() - 1] == k);
                }
                kept.push(c);
            }
            proof {
                assert forall|kk: int| 0 <= kk <= k && (#[trigger] all[kk]).points@.len() > 0 implies exists|i: int|
                    0 <= i < src.len() && src[i] == kk by {
                    if kk < k {
                        let i = choose|i: int| 0 <= i < src0.len() && src0[i] == kk;
                        assert(src[i] == kk);
                    } else {
                        assert(src[src.len() - 1] == k);
                    }
                }
            }
        }
        proof {
            lemma_scan_done(*self, diagonal, all, last_map, last_index, rect, kept@, src);
            assert forall|i: int, j: int| 0 <= i < j < kept@.len() implies scan_before(
                (#[trigger] kept@[i]).points@[0],
                (#[trigger] kept@[j]).points@[0],
            ) by {
                assert(src[i] < src[j]);
                assert(all[src[i]].points@.len() > 0 && all[src[j]].points@.len() > 0);
            }
            let f = final_opener(*self, true, diagonal);
            assert forall|i: int| 0 <= i < kept@.len() implies (#[trigger] kept@[i]).points@ == final_members(
                *self,
                true,
                diagonal,
            )(kept@[i].points@[0]) by {
                assert(all[src[i]] == kept@[i]);
            }
            assert forall|i: int, k: int| 0 <= i < kept@.len() && 0 <= k < kept@[i].points@.len()
                implies kept@[i].points@[0] == f(#[trigger] kept@[i].points@[k]) by {
                let q = kept@[i].points@[k];
                assert(all[src[i]] == kept@[i]);
                assert(q == all[src[i]].points@[k]);
                assert(self.has_color(q, true));
                assert(label_of(last_map, q) == src[i]);
            }
            assert forall|i: int| 0 <= i < kept@.len() implies self.starts_cluster(
                (#[trigger] kept@[i]).points@[0].x as int,
                kept@[i].points@[0].y as int,
                diagonal,
            ) by {
                assert(all[src[i]].points@.len() > 0);
            }
        }
        Clusters { clusters: kept, rect }
    }
}

/// All the points of `c` lie in one of the clusters `cs`.
pub open spec fn lies_in_one(c: Cluster, cs: Seq<Cluster>) -> bool {
    exists|j: int| 0 <= j < cs.len() && c.point_set().subset_of(#[trigger] cs[j].point_set())
}

/// Clusters where corners join are unions of clusters where only edges join: each cluster
/// of the second kind lies inside one of the first, and there are no more of the first.
pub proof fn lemma_corner_clusters_join_edge_clusters(image: BinaryImage, edges: Clusters, corners: Clusters)
    requires
        edges.are_clusters_of(image, true, false),
        corners.are_clusters_of(image, true, true),
    ensures
        forall|i: int| 0 <= i < edges.clusters@.len() ==> #[trigger] lies_in_one(edges.clusters@[i], corners.clusters@),
        corners.clusters@.len() <= edges.clusters@.len(),
{
    let es = edges.clusters@;
    let cs = corners.clusters@;
    assert forall|i: int| 0 <= i < es.len() implies #[trigger] lies_in_one(es[i], cs) by {
        let p = es[i].points@[0];
        assert(image.has_color(p, true));
        let j = choose|j: int| 0 <= j < cs.len() && #[trigger] cs[j].points@.contains(p);
        let l = choose|l: int| 0 <= l < cs[j].points@.len() && cs[j].points@[l] == p;
        assert forall|q: PointI32| es[i].point_set().contains(q) implies cs[j].point_set().contains(q) by {
            let k = choose|k: int| 0 <= k < es[i].points@.len() && es[i].points@[k] == q;
            assert(image.linked(es[i].points@[0], es[i].points@[k], true, false));
            lemma_linked_corners(image, p, q, true);
            assert(image.has_color(q, true));
            let j2 = choose|j2: int| 0 <= j2 < cs.len() && #[trigger] cs[j2].points@.contains(q);
            let l2 = choose|l2: int| 0 <= l2 < cs[j2].points@.len() && cs[j2].points@[l2] == q;
            assert(image.linked(cs[j].points@[l], cs[j2].points@[l2], true, true));
        }
        assert(es[i].point_set().subset_of(cs[j].point_set()));
    }
    let owner = |j: int| choose|i: int| 0 <= i < es.len() && #[trigger] es[i].points@.contains(cs[j].points@[0]);
    let xs = vstd::set_lib::set_int_range(0, cs.len() as int);
    let ys = vstd::set_lib::set_int_range(0, es.len() as int);
    assert forall|j: int| xs.contains(j) implies 0 <= #[trigger] owner(j) < es.len() && es[owner(j)].points@.contains(
        cs[j].points@[0],
    ) by {
        assert(image.has_color(cs[j].points@[0], true));
    }
    assert(vstd::relations::injective_on(owner, xs)) by {
        assert forall|j1: int, j2: int| xs.contains(j1) && xs.contains(j2) && #[trigger] owner(j1) == #[trigger] owner(j2)
            implies j1 == j2 by {
            let i = owner(j1);
            let p1 = cs[j1].points@[0];
            let p2 = cs[j2].points@[0];
            let k1 = choose|k: int| 0 <= k < es[i].points@.len() && es[i].points@[k] == p1;
            let k2 = choose|k: int| 0 <= k < es[i].points@.len() && es[i].points@[k] == p2;
            assert(image.linked(es[i].points@[k1], es[i].points@[k2], true, false));
            lemma_linked_corners(image, p1, p2, true);
            assert(image.linked(cs[j1].points@[0], cs[j2].points@[0], true, true));
        }
    }
    vstd::set_lib::lemma_int_range(0, cs.len() as int);
    vstd::set_lib::lemma_int_range(0, es.len() as int);
    vstd::set_lib::lemma_map_size(xs, xs.map(owner), owner);
    assert(xs.map(owner).subset_of(ys));
    vstd::set_lib::lemma_len_subset(xs.map(owner), ys);
    assert(xs.len() == cs.len() && ys.len() == es.len());
}

/// The set pixels of a drawing of a cluster whose rect starts inside the first quadrant
/// are the cluster's points moved by `o`, the rect's top left corner negated.
#[verifier::spinoff_prover]
proof fn lemma_drawn_points(c: Cluster, b: BinaryImage, o: PointI32)
    requires
        c.drawable(),
        c.draws(b),
        c.rect.left >= 0,
        c.rect.top >= 0,
        o == (PointI32 { x: (-c.rect.left) as i32, y: (-c.rect.top) as i32 }),
    ensures
        b.ink_set() == c.point_set().map(|p: PointI32| p.shifted_by(o)),
        forall|p: PointI32| #[trigger] c.point_set().contains(p) ==> c.rect.contains_point(p),
{
    let s = c.point_set();
    let t = |p: PointI32| p.shifted_by(o);
    let ink = b.ink_set();
    assert forall|p: PointI32| #[trigger] s.contains(p) implies c.rect.contains_point(p) by {
        let k = choose|k: int| 0 <= k < c.points@.len() && c.points@[k] == p;
        assert(c.rect.contains_point(c.points@[k]));
    }
    assert forall|q: PointI32| ink.contains(q) <==> s.map(t).contains(q) by {
        if ink.contains(q) {
            let p = c.point_at(q.x as int, q.y as int);
            assert(b.pixel(q.x as int, q.y as int));
            assert(s.contains(p));
            assert(t(p) == q);
        }
        if s.map(t).contains(q) {
            let p = choose|p: PointI32| s.contains(p) && t(p) == q;
            assert(c.rect.contains_point(p));
            assert(c.point_at(q.x as int, q.y as int) == p);
            assert(b.pixel(q.x as int, q.y as int));
        }
    }
    assert(ink =~= s.map(t));
}

/// A path of set pixels that starts in a cluster stays in it.
#[verifier::spinoff_prover]
proof fn lemma_path_in_cluster(image: BinaryImage, cs: Seq<Cluster>, i: int, path: Seq<PointI32>)
    requires
        clusters_of(cs, image, true, false),
        0 <= i < cs.len(),
        image.is_path(path, true, false),
        path[0] == cs[i].points@[0],
    ensures
        forall|m: int| 0 <= m < path.len() ==> cs[i].point_set().contains(#[trigger] path[m]),
{
    assert forall|m: int| 0 <= m < path.len() implies cs[i].point_set().contains(#[trigger] path[m]) by {
        let pre = path.take(m + 1);
        assert forall|n: int| 0 <= n < pre.len() - 1 implies #[trigger] path_step(pre, n, false) by {
            assert(path_step(path, n, false));
        }
        assert forall|n: int| 0 <= n < pre.len() implies image.has_color(#[trigger] pre[n], true) by {
            assert(image.has_color(path[n], true));
        }
        assert(image.is_path(pre, true, false));
        assert(pre.last() == path[m]);
        assert(image.linked(cs[i].points@[0], path[m], true, false));
        assert(image.has_color(path[m], true));
        let j = choose|j: int| 0 <= j < cs.len() && #[trigger] cs[j].points@.contains(path[m]);
        let l = choose|l: int| 0 <= l < cs[j].points@.len() && cs[j].points@[l] == path[m];
        assert(image.linked(cs[i].points@[0], cs[j].points@[l], true, false));
        assert(0 < cs[i].points@.len());
    }
}

/// Moving a path that lies in a drawn cluster gives a path of the drawing.
#[verifier::spinoff_prover]
proof fn lemma_moved_path(c: Cluster, b: BinaryImage, o: PointI32, path: Seq<PointI32>)
    requires
        b.ink_set() == c.point_set().map(|p: PointI32| p.shifted_by(o)),
        forall|p: PointI32| #[trigger] c.point_set().contains(p) ==> c.rect.contains_point(p),
        c.rect.left >= 0,
        c.rect.top >= 0,
        o == (PointI32 { x: (-c.rect.left) as i32, y: (-c.rect.top) as i32 }),
        path.len() > 0,
        forall|m: int| 0 <= m < path.len() ==> c.point_set().contains(#[trigger] path[m]),
        forall|m: int| 0 <= m < path.len() - 1 ==> #[trigger] path_step(path, m, false),
    ensures
        b.is_path(path.map_values(|p: PointI32| p.shifted_by(o)), true, false),
{
    let t = |p: PointI32| p.shifted_by(o);
    let s = c.point_set();
    let moved = path.map_values(t);
    assert forall|m: int| 0 <= m < moved.len() implies b.has_color(#[trigger] moved[m], true) by {
        assert(s.contains(path[m]));
        assert(s.map(t).contains(t(path[m])));
        assert(b.ink_set().contains(moved[m]));
    }
    assert forall|m: int| 0 <= m < moved.len() - 1 implies #[trigger] path_step(moved, m, false) by {
        assert(path_step(path, m, false));
        assert(s.contains(path[m]) && s.contains(path[m + 1]));
        assert(c.rect.contains_point(path[m]) && c.rect.contains_point(path[m + 1]));
    }
}

/// In the drawing of a cluster, every moved point is linked to the moved first point.
#[verifier::spinoff_prover]
proof fn lemma_drawn_linked(image: BinaryImage, cs: Seq<Cluster>, i: int, b: BinaryImage, o: PointI32)
    requires
        clusters_of(cs, image, true, false),
        0 <= i < cs.len(),
        b.ink_set() == cs[i].point_set().map(|p: PointI32| p.shifted_by(o)),
        forall|p: PointI32| #[trigger] cs[i].point_set().contains(p) ==> cs[i].rect.contains_point(p),
        cs[i].rect.left >= 0,
        cs[i].rect.top >= 0,
        o == (PointI32 { x: (-cs[i].rect.left) as i32, y: (-cs[i].rect.top) as i32 }),
    ensures
        forall|q: PointI32| #[trigger] b.ink_set().contains(q) ==> b.linked(
            cs[i].points@[0].shifted_by(o),
            q,
            true,
            false,
        ),
{
    let c = cs[i];
    let s = c.point_set();
    let t = |p: PointI32| p.shifted_by(o);
    let p0 = c.points@[0];
    assert forall|q: PointI32| #[trigger] b.ink_set().contains(q) implies b.linked(t(p0), q, true, false) by {
        let p = choose|p: PointI32| s.contains(p) && t(p) == q;
        let k = choose|k: int| 0 <= k < c.points@.len() && c.points@[k] == p;
        assert(image.linked(c.points@[0], c.points@[k], true, false));
        let path = choose|path: Seq<PointI32>|
            #[trigger] image.is_path(path, true, false) && path[0] == p0 && path.last() == p;
        lemma_path_in_cluster(image, cs, i, path);
        lemma_moved_path(c, b, o, path);
        let moved = path.map_values(t);
        assert(moved[0] == t(p0));
        assert(moved.last() == t(p));
    }
}

/// Where every set pixel is linked to one set pixel `q0`, the image has one cluster, made
/// of all its set pixels.
#[verifier::spinoff_prover]
proof fn lemma_single_cluster(b: BinaryImage, cs2: Seq<Cluster>, q0: PointI32)
    requires
        clusters_of(cs2, b, true, false),
        b.ink_set().contains(q0),
        forall|q: PointI32| #[trigger] b.ink_set().contains(q) ==> b.linked(q0, q, true, false),
    ensures
        cs2.len() == 1,
        cs2[0].point_set() == b.ink_set(),
{
    let ink = b.ink_set();
    assert(b.has_color(q0, true));
    if cs2.len() >= 2 {
        let a = cs2[0].points@[0];
        let z = cs2[1].points@[0];
        assert(b.has_color(a, true) && b.has_color(z, true));
        assert(ink.contains(a) && ink.contains(z));
        lemma_linked_symmetric(b, q0, a, true, false);
        lemma_linked_transitive(b, a, q0, z, true, false);
        assert(b.linked(cs2[0].points@[0], cs2[1].points@[0], true, false));
    }
    assert(cs2.len() == 1);
    assert forall|q: PointI32| cs2[0].point_set().contains(q) <==> ink.contains(q) by {
        if cs2[0].point_set().contains(q) {
            let k = choose|k: int| 0 <= k < cs2[0].points@.len() && cs2[0].points@[k] == q;
            assert(b.has_color(cs2[0].points@[k], true));
        }
        if ink.contains(q) {
            assert(b.has_color(q, true));
        }
    }
    assert(cs2[0].point_set() =~= ink);
}

/// A cluster that holds exactly the set pixels of a drawing of `c` has as many points as
/// `c`, and the whole drawing as its rect.
#[verifier::spinoff_prover]
proof fn lemma_drawn_size_and_rect(c: Cluster, b: BinaryImage, o: PointI32, d: Cluster)
    requires
        c.wf(),
        c.points@.len() > 0,
        c.points@.no_duplicates(),
        c.draws(b),
        b.ink_set() == c.point_set().map(|p: PointI32| p.shifted_by(o)),
        forall|p: PointI32| #[trigger] c.point_set().contains(p) ==> c.rect.contains_point(p),
        c.rect.left >= 0,
        c.rect.top >= 0,
        o == (PointI32 { x: (-c.rect.left) as i32, y: (-c.rect.top) as i32 }),
        d.wf(),
        d.points@.no_duplicates(),
        d.point_set() == b.ink_set(),
    ensures
        d.points@.len() == c.points@.len(),
        d.rect == (BoundingRect { left: 0, top: 0, right: b.width as i32, bottom: b.height as i32 }),
{
    let s = c.point_set();
    let t = |p: PointI32| p.shifted_by(o);
    let ink = b.ink_set();
    assert(vstd::relations::injective_on(t, s)) by {
        assert forall|p1: PointI32, p2: PointI32| s.contains(p1) && s.contains(p2) && #[trigger] t(p1) == #[trigger] t(p2)
            implies p1 == p2 by {
            assert(c.rect.contains_point(p1) && c.rect.contains_point(p2));
        }
    }
    vstd::seq_lib::seq_to_set_is_finite(c.points@);
    vstd::set_lib::lemma_map_size(s, ink, t);
    c.points@.unique_seq_to_set();
    d.points@.unique_seq_to_set();
    lemma_bounds_translate(c.rect, s, o);
    assert(c.rect.translated(o) == (BoundingRect { left: 0, top: 0, right: b.width as i32, bottom: b.height as i32 }));
    let p0 = c.points@[0];
    assert(s.contains(p0));
    assert(ink.contains(t(p0)));
    crate::bound::lemma_bounds_unique(d.rect, c.rect.translated(o), ink, t(p0));
}

/// A cluster of the set pixels (edges only), drawn on its own, clusters again into one
/// cluster with as many points, whose rect is the whole drawing.
#[verifier::spinoff_prover]
pub proof fn lemma_cluster_reclusters(
    image: BinaryImage,
    cs: Seq<Cluster>,
    i: int,
    b: BinaryImage,
    cs2: Seq<Cluster>,
)
    requires
        clusters_of(cs, image, true, false),
        0 <= i < cs.len(),
        cs[i].drawable(),
        cs[i].draws(b),
        clusters_of(cs2, b, true, false),
    ensures
        cs2.len() == 1,
        cs2[0].points@.len() == cs[i].points@.len(),
        cs2[0].rect == (BoundingRect { left: 0, top: 0, right: b.width as i32, bottom: b.height as i32 }),
{
    let c = cs[i];
    let s = c.point_set();
    let p0 = c.points@[0];
    assert(s.contains(p0));
    assert(c.wf() && c.points@.no_duplicates());
    // The rect starts inside the image, so moving back to the origin cannot overflow.
    let lq = choose|q: PointI32| #[trigger] s.contains(q) && q.x == c.rect.left;
    let tq = choose|q: PointI32| #[trigger] s.contains(q) && q.y == c.rect.top;
    let kl = choose|k: int| 0 <= k < c.points@.len() && c.points@[k] == lq;
    let kt = choose|k: int| 0 <= k < c.points@.len() && c.points@[k] == tq;
    assert(image.has_color(c.points@[kl], true));
    assert(image.has_color(c.points@[kt], true));
    let o = PointI32 { x: (-c.rect.left) as i32, y: (-c.rect.top) as i32 };
    let t = |p: PointI32| p.shifted_by(o);
    let ink = b.ink_set();
    lemma_drawn_points(c, b, o);
    lemma_drawn_linked(image, cs, i, b, o);
    assert(ink.contains(t(p0)));
    lemma_single_cluster(b, cs2, t(p0));
    assert(cs2[0].wf() && cs2[0].points@.no_duplicates());
    lemma_drawn_size_and_rect(c, b, o, cs2[0]);
}

/// Two images with the same size and the same pixels have the same text.
pub proof fn lemma_same_pixels_same_text(a: BinaryImage, b: BinaryImage, n: int)
    requires
        a.width == b.width,
        forall|x: int, y: int| #[trigger] a.pixel(x, y) == b.pixel(x, y),
    ensures
        rows_text(a, n) == rows_text(b, n),
    decreases n,
{
    if n > 0 {
        lemma_same_pixels_same_text(a, b, n - 1);
        assert(row_text(a, n - 1) =~= row_text(b, n - 1)) by {
            assert(Seq::new(a.width as nat, |x: int| if a.pixel(x, n - 1) { '*' } else { '-' }) =~= Seq::new(
                b.width as nat,
                |x: int| if b.pixel(x, n - 1) { '*' } else { '-' },
            ));
        }
    }
}

/// When the set pixels of an image form one cluster (edges only), its drawing is the image
/// cut to the cluster's rect; where that rect is the whole image, the drawing has the
/// image's text.
#[verifier::spinoff_prover]
pub proof fn lemma_single_cluster_draws_image(image: BinaryImage, cs: Seq<Cluster>, b: BinaryImage)
    requires
        clusters_of(cs, image, true, false),
        cs.len() == 1,
        cs[0].draws(b),
    ensures
        forall|x: int, y: int| #[trigger] b.pixel(x, y) <==> b.in_bounds(x, y) && image.pixel(
            x + cs[0].rect.left,
            y + cs[0].rect.top,
        ),
        cs[0].rect.left == 0 && cs[0].rect.top == 0 && cs[0].rect.right == image.width && cs[0].rect.bottom
            == image.height ==> b.text() == image.text(),
{
    let c = cs[0];
    let s = c.point_set();
    assert(c.wf());
    let p0 = c.points@[0];
    assert(s.contains(p0));
    let lq = choose|q: PointI32| #[trigger] s.contains(q) && q.x == c.rect.left;
    let tq = choose|q: PointI32| #[trigger] s.contains(q) && q.y == c.rect.top;
    let kl = choose|k: int| 0 <= k < c.points@.len() && c.points@[k] == lq;
    let kt = choose|k: int| 0 <= k < c.points@.len() && c.points@[k] == tq;
    assert(image.has_color(c.points@[kl], true));
    assert(image.has_color(c.points@[kt], true));
    assert forall|x: int, y: int| #[trigger] b.pixel(x, y) <==> b.in_bounds(x, y) && image.pixel(
        x + c.rect.left,
        y + c.rect.top,
    ) by {
        if b.in_bounds(x, y) {
            let p = c.point_at(x, y);
            assert(p.x == x + c.rect.left && p.y == y + c.rect.top);
            if s.contains(p) {
                let k = choose|k: int| 0 <= k < c.points@.len() && c.points@[k] == p;
                assert(image.has_color(c.points@[k], true));
            }
            if image.pixel(x + c.rect.left, y + c.rect.top) {
                assert(image.has_color(p, true));
                let j = choose|j: int| 0 <= j < cs.len() && #[trigger] cs[j].points@.contains(p);
                assert(j == 0);
            }
        }
    }
    if c.rect.left == 0 && c.rect.top == 0 && c.rect.right == image.width && c.rect.bottom == image.height {
        assert(b.width == image.width && b.height == image.height);
        assert forall|x: int, y: int| #[trigger] b.pixel(x, y) == image.pixel(x, y) by {
            assert(b.pixel(x, y) <==> b.in_bounds(x, y) && image.pixel(x + c.rect.left, y + c.rect.top));
        }
        lemma_same_pixels_same_text(b, image, b.height as int);
    }
}

} // verus!
