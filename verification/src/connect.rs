//! Connectivity of pixels of one color: neighbours, paths, and the linked relation.

use vstd::prelude::*;
use crate::point::PointI32;
use crate::image::BinaryImage;

verus! {

/// Whether `a` and `b` are neighbours: they share an edge, or, with `diagonal`, an edge
/// or a corner.
pub open spec fn adjacent(a: PointI32, b: PointI32, diagonal: bool) -> bool {
    let dx = a.x - b.x;
    let dy = a.y - b.y;
    if diagonal {
        -1 <= dx <= 1 && -1 <= dy <= 1 && !(dx == 0 && dy == 0)
    } else {
        (dx == 0 && (dy == 1 || dy == -1)) || (dy == 0 && (dx == 1 || dx == -1))
    }
}

/// Entry `i` of `path` is a neighbour of entry `i + 1`.
pub open spec fn path_step(path: Seq<PointI32>, i: int, diagonal: bool) -> bool {
    adjacent(path[i], path[i + 1], diagonal)
}

impl BinaryImage {
    /// A non-empty sequence of pixels of value `color`, each a neighbour of the next.
    pub open spec fn is_path(self, path: Seq<PointI32>, color: bool, diagonal: bool) -> bool {
        &&& path.len() > 0
        &&& forall|i: int| 0 <= i < path.len() ==> self.has_color(#[trigger] path[i], color)
        &&& forall|i: int|
            0 <= i < path.len() - 1 ==> #[trigger] path_step(path, i, diagonal)
    }

    /// `a` and `b` are joined by a path of pixels of value `color`.
    pub open spec fn linked(self, a: PointI32, b: PointI32, color: bool, diagonal: bool) -> bool {
        exists|path: Seq<PointI32>|
            #[trigger] self.is_path(path, color, diagonal) && path[0] == a && path.last() == b
    }
}

/// Both ends of a path have the color of the path.
pub proof fn lemma_linked_ends(image: BinaryImage, a: PointI32, b: PointI32, color: bool, diagonal: bool)
    requires
        image.linked(a, b, color, diagonal),
    ensures
        image.has_color(a, color),
        image.has_color(b, color),
{
    let path = choose|path: Seq<PointI32>|
        #[trigger] image.is_path(path, color, diagonal) && path[0] == a && path.last() == b;
    assert(image.has_color(path[0], color));
    assert(image.has_color(path[path.len() - 1], color));
}

/// A pixel of a color is linked to itself.
pub proof fn lemma_linked_refl(image: BinaryImage, a: PointI32, color: bool, diagonal: bool)
    requires
        image.has_color(a, color),
    ensures
        image.linked(a, a, color, diagonal),
{
    let path = seq![a];
    assert(image.is_path(path, color, diagonal));
}

/// Neighbours of one color are linked.
pub proof fn lemma_linked_adjacent(image: BinaryImage, a: PointI32, b: PointI32, color: bool, diagonal: bool)
    requires
        image.has_color(a, color),
        image.has_color(b, color),
        adjacent(a, b, diagonal),
    ensures
        image.linked(a, b, color, diagonal),
{
    let path = seq![a, b];
    assert(path[0] == a);
    assert(path[1] == b);
    assert(image.is_path(path, color, diagonal));
}

/// Links go both ways.
pub proof fn lemma_linked_symmetric(image: BinaryImage, a: PointI32, b: PointI32, color: bool, diagonal: bool)
    requires
        image.linked(a, b, color, diagonal),
    ensures
        image.linked(b, a, color, diagonal),
{
    let path = choose|path: Seq<PointI32>|
        #[trigger] image.is_path(path, color, diagonal) && path[0] == a && path.last() == b;
    let n = path.len();
    let rev = Seq::new(n, |i: int| path[n - 1 - i]);
    assert forall|i: int| 0 <= i < rev.len() implies image.has_color(#[trigger] rev[i], color) by {
        assert(image.has_color(path[n - 1 - i], color));
    }
    assert forall|i: int| 0 <= i < rev.len() - 1 implies #[trigger] path_step(rev, i, diagonal) by {
        let j = n - 2 - i;
        assert(path_step(path, j, diagonal));
    }
    assert(image.is_path(rev, color, diagonal));
}

/// Links chain.
pub proof fn lemma_linked_transitive(
    image: BinaryImage,
    a: PointI32,
    b: PointI32,
    c: PointI32,
    color: bool,
    diagonal: bool,
)
    requires
        image.linked(a, b, color, diagonal),
        image.linked(b, c, color, diagonal),
    ensures
        image.linked(a, c, color, diagonal),
{
    let p1 = choose|path: Seq<PointI32>|
        #[trigger] image.is_path(path, color, diagonal) && path[0] == a && path.last() == b;
    let p2 = choose|path: Seq<PointI32>|
        #[trigger] image.is_path(path, color, diagonal) && path[0] == b && path.last() == c;
    let p = p1 + p2.drop_first();
    let n1 = p1.len();
    assert forall|i: int| 0 <= i < p.len() implies image.has_color(#[trigger] p[i], color) by {
        if i < n1 {
            assert(image.has_color(p1[i], color));
        } else {
            assert(image.has_color(p2[i - n1 + 1], color));
        }
    }
    assert forall|i: int| 0 <= i < p.len() - 1 implies #[trigger] path_step(p, i, diagonal) by {
        if i < n1 - 1 {
            assert(path_step(p1, i, diagonal));
        } else if i == n1 - 1 {
            assert(path_step(p2, 0, diagonal));
        } else {
            assert(path_step(p2, i - n1 + 1, diagonal));
        }
    }
    assert(image.is_path(p, color, diagonal));
    if p2.len() == 1 {
        assert(p.last() == p1.last());
    } else {
        assert(p.last() == p2.last());
    }
}

/// A labelling that agrees on every pair of neighbouring pixels of value `color` agrees
/// on every pair of linked pixels.
pub proof fn lemma_linked_same_label(
    image: BinaryImage,
    label: spec_fn(PointI32) -> int,
    a: PointI32,
    b: PointI32,
    color: bool,
    diagonal: bool,
)
    requires
        image.linked(a, b, color, diagonal),
        forall|p: PointI32, q: PointI32|
            image.has_color(p, color) && image.has_color(q, color) && #[trigger] adjacent(p, q, diagonal)
                ==> label(p) == label(q),
    ensures
        label(a) == label(b),
{
    let path = choose|path: Seq<PointI32>|
        #[trigger] image.is_path(path, color, diagonal) && path[0] == a && path.last() == b;
    lemma_path_same_label(image, label, path, path.len() - 1, color, diagonal);
}

proof fn lemma_path_same_label(
    image: BinaryImage,
    label: spec_fn(PointI32) -> int,
    path: Seq<PointI32>,
    i: int,
    color: bool,
    diagonal: bool,
)
    requires
        image.is_path(path, color, diagonal),
        0 <= i < path.len(),
        forall|p: PointI32, q: PointI32|
            image.has_color(p, color) && image.has_color(q, color) && #[trigger] adjacent(p, q, diagonal)
                ==> label(p) == label(q),
    ensures
        label(path[i]) == label(path[0]),
    decreases i,
{
    if i > 0 {
        lemma_path_same_label(image, label, path, i - 1, color, diagonal);
        assert(path_step(path, i - 1, diagonal));
        assert(image.has_color(path[i - 1], color));
        assert(image.has_color(path[i], color));
    }
}

/// Pixels linked through shared edges are linked when corners join too.
pub proof fn lemma_linked_corners(image: BinaryImage, a: PointI32, b: PointI32, color: bool)
    requires
        image.linked(a, b, color, false),
    ensures
        image.linked(a, b, color, true),
{
    let path = choose|path: Seq<PointI32>|
        #[trigger] image.is_path(path, color, false) && path[0] == a && path.last() == b;
    assert forall|i: int| 0 <= i < path.len() - 1 implies #[trigger] path_step(path, i, true) by {
        assert(path_step(path, i, false));
    }
    assert(image.is_path(path, color, true));
}

} // verus!
