//! The pixel that names each cluster while an image is scanned row by row: the pixel that
//! opened it, where two clusters that meet are merged into the larger one, the left one
//! into the upper one on a tie. Both scans of the library, of set pixels and of unset
//! ones, keep their clusters this way, and so list them in the same order. With
//! `diagonal`, pixels that share a corner are neighbours too.

use vstd::prelude::*;
use crate::point::PointI32;
use crate::image::BinaryImage;
use crate::scan::{scanned, pt};

verus! {

/// The pixels of value `color` before `(x, y)` that `f` names `r`.
pub open spec fn class(
    image: BinaryImage,
    color: bool,
    f: spec_fn(PointI32) -> PointI32,
    x: int,
    y: int,
    r: PointI32,
) -> Set<PointI32> {
    Set::new(|p: PointI32| image.has_color(p, color) && scanned(p.x as int, p.y as int, x, y) && f(p) == r)
}

/// Reaching pixel `(x, y)` of value `color` (or, with `diagonal`, any pixel: its upper and
/// left neighbours share a corner), with upper and left neighbours of that value in
/// clusters of different names, merges the smaller of the two clusters into the larger
/// one, the left one into the upper one on a tie; otherwise names stay.
pub open spec fn merge_at(
    image: BinaryImage,
    color: bool,
    diagonal: bool,
    f: spec_fn(PointI32) -> PointI32,
    x: int,
    y: int,
) -> spec_fn(PointI32) -> PointI32 {
    let up = pt(x, y - 1);
    let left = pt(x - 1, y);
    if (image.has_color(pt(x, y), color) || diagonal) && image.has_color(up, color) && image.has_color(left, color)
        && f(up) != f(left) {
        let keep_up = class(image, color, f, x, y, f(left)).len() <= class(image, color, f, x, y, f(up)).len();
        let win = if keep_up { f(up) } else { f(left) };
        let lose = if keep_up { f(left) } else { f(up) };
        |p: PointI32| if f(p) == lose { win } else { f(p) }
    } else {
        f
    }
}

/// Pixel `(x, y)` of value `color` then joins the cluster of its upper neighbour of that
/// value, or else of its left one, or else, with `diagonal`, of its upper left one, or
/// else opens a cluster named by itself.
pub open spec fn place_at(
    image: BinaryImage,
    color: bool,
    diagonal: bool,
    g: spec_fn(PointI32) -> PointI32,
    x: int,
    y: int,
) -> spec_fn(PointI32) -> PointI32 {
    let c = pt(x, y);
    if image.has_color(c, color) {
        let r = if image.has_color(pt(x, y - 1), color) {
            g(pt(x, y - 1))
        } else if image.has_color(pt(x - 1, y), color) {
            g(pt(x - 1, y))
        } else if diagonal && image.has_color(pt(x - 1, y - 1), color) {
            g(pt(x - 1, y - 1))
        } else {
            c
        };
        |p: PointI32| if p == c { r } else { g(p) }
    } else {
        g
    }
}

/// The name of the cluster of each pixel of value `color` seen before `(x, y)`.
pub open spec fn opener(image: BinaryImage, color: bool, diagonal: bool, x: int, y: int) -> spec_fn(PointI32) -> PointI32
    decreases y, x,
{
    if y <= 0 && x <= 0 {
        |p: PointI32| p
    } else if x <= 0 {
        opener(image, color, diagonal, image.width as int, y - 1)
    } else {
        place_at(
            image,
            color,
            diagonal,
            merge_at(image, color, diagonal, opener(image, color, diagonal, x - 1, y), x - 1, y),
            x - 1,
            y,
        )
    }
}

/// The name of the cluster of each pixel of value `color` once the whole image is seen.
pub open spec fn final_opener(image: BinaryImage, color: bool, diagonal: bool) -> spec_fn(PointI32) -> PointI32 {
    opener(image, color, diagonal, 0, image.height as int)
}

/// The points of each cluster, in order, as `merge_at` merges two of them: the points of
/// the cluster merged into follow those of the one it is merged into.
pub open spec fn merge_members(
    image: BinaryImage,
    color: bool,
    diagonal: bool,
    f: spec_fn(PointI32) -> PointI32,
    m: spec_fn(PointI32) -> Seq<PointI32>,
    x: int,
    y: int,
) -> spec_fn(PointI32) -> Seq<PointI32> {
    let up = pt(x, y - 1);
    let left = pt(x - 1, y);
    if (image.has_color(pt(x, y), color) || diagonal) && image.has_color(up, color) && image.has_color(left, color)
        && f(up) != f(left) {
        let keep_up = class(image, color, f, x, y, f(left)).len() <= class(image, color, f, x, y, f(up)).len();
        let win = if keep_up { f(up) } else { f(left) };
        let lose = if keep_up { f(left) } else { f(up) };
        |r: PointI32| if r == win { m(win) + m(lose) } else { m(r) }
    } else {
        m
    }
}

/// The points of each cluster, in order, as `place_at` places pixel `(x, y)`: a pixel that
/// joins a cluster comes last in it; one that opens a cluster is alone in it.
pub open spec fn place_members(
    image: BinaryImage,
    color: bool,
    diagonal: bool,
    g: spec_fn(PointI32) -> PointI32,
    m: spec_fn(PointI32) -> Seq<PointI32>,
    x: int,
    y: int,
) -> spec_fn(PointI32) -> Seq<PointI32> {
    let c = pt(x, y);
    if image.has_color(c, color) {
        let r = place_at(image, color, diagonal, g, x, y)(c);
        let joined = if r == c { seq![c] } else { m(r).push(c) };
        |n: PointI32| if n == r { joined } else { m(n) }
    } else {
        m
    }
}

/// The points of the cluster of each name before `(x, y)`, in the order they were added.
pub open spec fn members(image: BinaryImage, color: bool, diagonal: bool, x: int, y: int) -> spec_fn(PointI32) -> Seq<
    PointI32,
>
    decreases y, x,
{
    if y <= 0 && x <= 0 {
        |r: PointI32| Seq::<PointI32>::empty()
    } else if x <= 0 {
        members(image, color, diagonal, image.width as int, y - 1)
    } else {
        let f = opener(image, color, diagonal, x - 1, y);
        place_members(
            image,
            color,
            diagonal,
            merge_at(image, color, diagonal, f, x - 1, y),
            merge_members(image, color, diagonal, f, members(image, color, diagonal, x - 1, y), x - 1, y),
            x - 1,
            y,
        )
    }
}

/// The points of the cluster of each name, in order, once the whole image is seen.
pub open spec fn final_members(image: BinaryImage, color: bool, diagonal: bool) -> spec_fn(PointI32) -> Seq<PointI32> {
    members(image, color, diagonal, 0, image.height as int)
}

/// Names depend on which pixels have the value scanned for, and on the width, alone.
pub proof fn lemma_opener_same_pixels(
    i1: BinaryImage,
    c1: bool,
    i2: BinaryImage,
    c2: bool,
    diagonal: bool,
    x: int,
    y: int,
)
    requires
        i1.width == i2.width,
        forall|p: PointI32| #[trigger] i1.has_color(p, c1) == i2.has_color(p, c2),
    ensures
        opener(i1, c1, diagonal, x, y) == opener(i2, c2, diagonal, x, y),
    decreases y, x,
{
    if y <= 0 && x <= 0 {
    } else if x <= 0 {
        lemma_opener_same_pixels(i1, c1, i2, c2, diagonal, i1.width as int, y - 1);
    } else {
        lemma_opener_same_pixels(i1, c1, i2, c2, diagonal, x - 1, y);
        let f = opener(i1, c1, diagonal, x - 1, y);
        assert forall|r: PointI32| #[trigger] class(i1, c1, f, x - 1, y, r) == class(i2, c2, f, x - 1, y, r) by {
            assert(class(i1, c1, f, x - 1, y, r) =~= class(i2, c2, f, x - 1, y, r));
        }
        assert(i1.has_color(pt(x - 1, y), c1) == i2.has_color(pt(x - 1, y), c2));
        assert(i1.has_color(pt(x - 1, y - 1), c1) == i2.has_color(pt(x - 1, y - 1), c2));
        assert(i1.has_color(pt(x - 2, y), c1) == i2.has_color(pt(x - 2, y), c2));
        assert(i1.has_color(pt(x - 2, y - 1), c1) == i2.has_color(pt(x - 2, y - 1), c2));
        let g = merge_at(i1, c1, diagonal, f, x - 1, y);
        assert(g == merge_at(i2, c2, diagonal, f, x - 1, y));
        assert(place_at(i1, c1, diagonal, g, x - 1, y) == place_at(i2, c2, diagonal, g, x - 1, y));
    }
}

} // verus!
