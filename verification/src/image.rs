//! Row-major images: one bit per pixel (`BinaryImage`) and one label per pixel (`MonoImage`).

use vstd::prelude::*;
use crate::point::PointI32;

verus! {

/// The position of pixel `(x, y)` in a row-major buffer of rows `w` wide.
pub open spec fn flat(w: int, x: int, y: int) -> int {
    y * w + x
}

/// The position of a pixel inside the image lies inside the pixel vector.
pub proof fn lemma_flat_in_range(w: int, h: int, x: int, y: int)
    requires
        0 <= x < w,
        0 <= y < h,
    ensures
        0 <= flat(w, x, y) < w * h,
{
    assert(0 <= y * w + x < w * h) by (nonlinear_arith)
        requires
            0 <= x < w,
            0 <= y < h,
    ;
}

/// Distinct pixels inside a row width have distinct positions.
pub proof fn lemma_flat_injective(w: int, x1: int, y1: int, x2: int, y2: int)
    requires
        0 <= x1 < w,
        0 <= x2 < w,
        0 <= y1,
        0 <= y2,
        flat(w, x1, y1) == flat(w, x2, y2),
    ensures
        x1 == x2,
        y1 == y2,
{
    if y1 < y2 {
        assert(y1 * w + w <= y2 * w) by (nonlinear_arith)
            requires
                y1 < y2,
                0 < w,
        ;
    } else if y2 < y1 {
        assert(y2 * w + w <= y1 * w) by (nonlinear_arith)
            requires
                y2 < y1,
                0 < w,
        ;
    }
}

/// The next position in row-major order: `(x + 1, y)`, or the start of the next row.
pub proof fn lemma_flat_next(w: int, x: int, y: int)
    ensures
        flat(w, x, y) + 1 == flat(w, x + 1, y),
        flat(w, w, y) == flat(w, 0, y + 1),
        flat(w, x, y) - w == flat(w, x, y - 1),
{
    assert((y + 1) * w == y * w + w) by (nonlinear_arith);
    assert((y - 1) * w == y * w - w) by (nonlinear_arith);
}

/// The points of row `y` left of column `n` are finitely many.
proof fn lemma_row_finite(y: int, n: int)
    requires
        0 <= n <= i32::MAX,
        i32::MIN <= y <= i32::MAX,
    ensures
        Set::new(|p: PointI32| p.y == y && 0 <= p.x < n).finite(),
    decreases n,
{
    let s = Set::new(|p: PointI32| p.y == y && 0 <= p.x < n);
    if n == 0 {
        assert(s =~= Set::<PointI32>::empty());
    } else {
        lemma_row_finite(y, n - 1);
        let prev = Set::new(|p: PointI32| p.y == y && 0 <= p.x < n - 1);
        let c = PointI32 { x: (n - 1) as i32, y: y as i32 };
        assert(s =~= prev.insert(c));
    }
}

/// The points of the first `n` rows of width `w` are finitely many.
proof fn lemma_rows_finite(w: int, n: int)
    requires
        0 <= w <= i32::MAX,
        0 <= n <= i32::MAX,
    ensures
        Set::new(|p: PointI32| 0 <= p.x < w && 0 <= p.y < n).finite(),
    decreases n,
{
    let s = Set::new(|p: PointI32| 0 <= p.x < w && 0 <= p.y < n);
    if n == 0 {
        assert(s =~= Set::<PointI32>::empty());
    } else {
        lemma_rows_finite(w, n - 1);
        lemma_row_finite(n - 1, w);
        let prev = Set::new(|p: PointI32| 0 <= p.x < w && 0 <= p.y < n - 1);
        let row = Set::new(|p: PointI32| p.y == n - 1 && 0 <= p.x < w);
        assert(s =~= prev.union(row));
    }
}

/// Any set of points inside an image is finite.
pub proof fn lemma_inside_finite(image: BinaryImage, s: Set<PointI32>)
    requires
        image.width <= i32::MAX,
        image.height <= i32::MAX,
        forall|p: PointI32| #[trigger] s.contains(p) ==> image.in_bounds(p.x as int, p.y as int),
    ensures
        s.finite(),
{
    lemma_rows_finite(image.width as int, image.height as int);
    let area = Set::new(|p: PointI32| 0 <= p.x < image.width && 0 <= p.y < image.height);
    assert(s.subset_of(area));
    vstd::set_lib::lemma_len_subset(s, area);
}

/// The buffer position of pixel `(x, y)` in an image of `width` x `height` pixels held in
/// a buffer of `len` entries.
pub(crate) fn flat_index(width: usize, height: usize, len: usize, x: usize, y: usize) -> (i: usize)
    requires
        len == width * height,
        x < width,
        y < height,
    ensures
        i == flat(width as int, x as int, y as int),
        i < len,
{
    proof {
        lemma_flat_in_range(width as int, height as int, x as int, y as int);
        assert(y * width <= y * width + x);
    }
    y * width + x
}

/// A binary image, stored row by row.
#[derive(Debug)]
pub struct BinaryImage {
    pub pixels: Vec<bool>,
    pub width: usize,
    pub height: usize,
}

impl Clone for BinaryImage {
    fn clone(&self) -> (r: Self)
        ensures
            r.pixels@ == self.pixels@,
            r.width == self.width,
            r.height == self.height,
    {
        let mut pixels: Vec<bool> = Vec::new();
        let mut i: usize = 0;
        while i < self.pixels.len()
            invariant
                i <= self.pixels@.len(),
                pixels@ == self.pixels@.take(i as int),
            decreases self.pixels@.len() - i,
        {
            pixels.push(self.pixels[i]);
            i = i + 1;
            proof {
                assert(pixels@ =~= self.pixels@.take(i as int));
            }
        }
        proof {
            assert(pixels@ =~= self.pixels@);
        }
        BinaryImage { pixels, width: self.width, height: self.height }
    }
}

impl BinaryImage {
    pub open spec fn wf(self) -> bool {
        self.pixels@.len() == self.width * self.height
    }

    pub open spec fn in_bounds(self, x: int, y: int) -> bool {
        0 <= x < self.width && 0 <= y < self.height
    }

    /// The pixel at `(x, y)`; false outside the image.
    pub open spec fn pixel(self, x: int, y: int) -> bool {
        self.in_bounds(x, y) && self.pixels@[flat(self.width as int, x, y)]
    }

    /// Whether `p` lies in the image and has the value `color`.
    pub open spec fn has_color(self, p: PointI32, color: bool) -> bool {
        self.in_bounds(p.x as int, p.y as int) && self.pixel(p.x as int, p.y as int) == color
    }

    /// The set pixels of the image.
    pub open spec fn ink_set(self) -> Set<PointI32> {
        Set::new(|p: PointI32| self.pixel(p.x as int, p.y as int))
    }

    /// An image of `width` x `height` pixels, all unset.
    pub fn new_w_h(width: usize, height: usize) -> (image: BinaryImage)
        requires
            width * height <= usize::MAX,
        ensures
            image.wf(),
            image.width == width,
            image.height == height,
            forall|x: int, y: int| !#[trigger] image.pixel(x, y),
    {
        let n = width * height;
        let mut pixels: Vec<bool> = Vec::new();
        let mut i: usize = 0;
        while i < n
            invariant
                i <= n,
                pixels@.len() == i,
                forall|j: int| 0 <= j < i ==> !pixels@[j],
            decreases n - i,
        {
            pixels.push(false);
            i = i + 1;
        }
        let image = BinaryImage { pixels, width, height };
        proof {
            assert forall|x: int, y: int| !#[trigger] image.pixel(x, y) by {
                if image.in_bounds(x, y) {
                    lemma_flat_in_range(width as int, height as int, x, y);
                }
            }
        }
        image
    }

    pub fn get_pixel(&self, x: usize, y: usize) -> (b: bool)
        requires
            self.wf(),
            x < self.width,
            y < self.height,
        ensures
            b == self.pixel(x as int, y as int),
    {
        let i = flat_index(self.width, self.height, self.pixels.len(), x, y);
        self.pixels[i]
    }

    /// The pixel at `(x, y)`, or false where `(x, y)` lies outside the image.
    pub fn get_pixel_safe(&self, x: i32, y: i32) -> (b: bool)
        requires
            self.wf(),
        ensures
            b == self.pixel(x as int, y as int),
    {
        if x >= 0 && y >= 0 && (x as usize) < self.width && (y as usize) < self.height {
            self.get_pixel(x as usize, y as usize)
        } else {
            false
        }
    }

    pub fn set_pixel(&mut self, x: usize, y: usize, v: bool)
        requires
            old(self).wf(),
            x < old(self).width,
            y < old(self).height,
        ensures
            final(self).wf(),
            final(self).width == old(self).width,
            final(self).height == old(self).height,
            forall|a: int, b: int| #[trigger] final(self).pixel(a, b)
                == if a == x && b == y { v } else { old(self).pixel(a, b) },
    {
        let i = flat_index(self.width, self.height, self.pixels.len(), x, y);
        let ghost prev = *self;
        self.pixels.set(i, v);
        proof {
            assert forall|a: int, b: int| #[trigger] self.pixel(a, b)
                == if a == x && b == y { v } else { prev.pixel(a, b) } by {
                if self.in_bounds(a, b) {
                    lemma_flat_in_range(self.width as int, self.height as int, a, b);
                    if flat(self.width as int, a, b) == flat(self.width as int, x as int, y as int) {
                        lemma_flat_injective(self.width as int, a, b, x as int, y as int);
                    }
                }
            }
        }
    }
}

/// The end of the line that starts at or before `i`: the position of the next `'\n'` from
/// `i` on, or the length of `s` where there is none.
pub open spec fn line_end(s: Seq<char>, i: int) -> int
    decreases s.len() - i,
{
    if i < 0 || i >= s.len() {
        s.len() as int
    } else if s[i] == '\n' {
        i
    } else {
        line_end(s, i + 1)
    }
}

/// The end of a line is a line feed or the end of the text, with no line feed before it.
pub proof fn lemma_line_end(s: Seq<char>, i: int)
    requires
        0 <= i <= s.len(),
    ensures
        i <= line_end(s, i) <= s.len(),
        line_end(s, i) < s.len() ==> s[line_end(s, i)] == '\n',
        forall|j: int| i <= j < line_end(s, i) ==> s[j] != '\n',
    decreases s.len() - i,
{
    if i < s.len() && s[i] != '\n' {
        lemma_line_end(s, i + 1);
    }
}

/// The lines of `s`: the pieces between line feeds, without a last empty piece after a
/// final line feed.
pub open spec fn lines(s: Seq<char>) -> Seq<Seq<char>>
    decreases s.len(),
{
    if s.len() == 0 {
        Seq::empty()
    } else {
        let e = line_end(s, 0);
        proof {
            lemma_line_end(s, 0);
        }
        if e < s.len() {
            seq![s.take(e)] + lines(s.skip(e + 1))
        } else {
            seq![s]
        }
    }
}

/// Line ends of a suffix are those of the text, shifted.
pub proof fn lemma_line_end_skip(s: Seq<char>, i: int, j: int)
    requires
        0 <= i <= s.len(),
        0 <= j,
    ensures
        line_end(s.skip(i), j) == line_end(s, i + j) - i,
    decreases s.len() - (i + j),
{
    if i + j < s.len() && s[i + j] != '\n' {
        lemma_line_end_skip(s, i, j + 1);
    }
}

/// The lines of the rest of `s` from `i` on: the line that starts at `i`, then the others.
pub proof fn lemma_lines_step(s: Seq<char>, i: int)
    requires
        0 <= i < s.len(),
    ensures
        i <= line_end(s, i) <= s.len(),
        line_end(s, i) < s.len() ==> lines(s.skip(i)) == seq![s.subrange(i, line_end(s, i))]
            + lines(s.skip(line_end(s, i) + 1)),
        line_end(s, i) == s.len() ==> lines(s.skip(i)) == seq![s.subrange(i, line_end(s, i))],
{
    let t = s.skip(i);
    let e = line_end(s, i);
    lemma_line_end(s, i);
    lemma_line_end_skip(s, i, 0);
    assert(line_end(t, 0) == e - i);
    assert(t.take(e - i) =~= s.subrange(i, e));
    if e < s.len() {
        assert(t.skip(e - i + 1) =~= s.skip(e + 1));
    } else {
        assert(t =~= s.subrange(i, e));
    }
}

/// The text of row `y`: `'*'` for a set pixel and `'-'` for an unset one, then a line feed.
pub open spec fn row_text(image: BinaryImage, y: int) -> Seq<char> {
    Seq::new(image.width as nat, |x: int| if image.pixel(x, y) { '*' } else { '-' }).push('\n')
}

/// The text of the first `n` rows.
pub open spec fn rows_text(image: BinaryImage, n: int) -> Seq<char>
    decreases n,
{
    if n <= 0 {
        Seq::empty()
    } else {
        rows_text(image, n - 1) + row_text(image, n - 1)
    }
}

impl BinaryImage {
    /// The text form of the image, one line per row.
    pub open spec fn text(self) -> Seq<char> {
        rows_text(self, self.height as int)
    }

    /// The image drawn as text: `'*'` for a set pixel, `'-'` for an unset one, each row
    /// ended by a line feed.
    #[verifier::rlimit(30)]
    pub fn to_string(&self) -> (s: String)
        requires
            self.wf(),
        ensures
            s@ == self.text(),
    {
        let mut s = String::new();
        let mut y: usize = 0;
        while y < self.height
            invariant
                self.wf(),
                y <= self.height,
                s@ == rows_text(*self, y as int),
            decreases self.height - y,
        {
            let ghost before = s@;
            let mut x: usize = 0;
            while x < self.width
                invariant
                    self.wf(),
                    y < self.height,
                    x <= self.width,
                    s@ == before + Seq::new(x as nat, |i: int| if self.pixel(i, y as int) { '*' } else { '-' }),
                decreases self.width - x,
            {
                let ghost s0 = s@;
                if self.get_pixel(x, y) {
                    proof {
                        reveal_strlit("*");
                    }
                    s.append("*");
                } else {
                    proof {
                        reveal_strlit("-");
                    }
                    s.append("-");
                }
                x = x + 1;
                proof {
                    assert(s@ =~= before + Seq::new(x as nat, |i: int| if self.pixel(i, y as int) { '*' } else { '-' }));
                }
            }
            proof {
                reveal_strlit("\n");
            }
            s.append("\n");
            y = y + 1;
            proof {
                assert(s@ =~= rows_text(*self, y as int));
            }
        }
        s
    }
}

/// A text has no more lines than characters.
pub proof fn lemma_lines_len(s: Seq<char>)
    ensures
        lines(s).len() <= s.len(),
    decreases s.len(),
{
    if s.len() > 0 {
        lemma_line_end(s, 0);
        let e = line_end(s, 0);
        if e < s.len() {
            lemma_lines_len(s.skip(e + 1));
        }
    }
}

/// The width of the image drawn by `s`: the length of its first line.
pub open spec fn lines_width(s: Seq<char>) -> int {
    if lines(s).len() > 0 {
        lines(s)[0].len() as int
    } else {
        0
    }
}

fn find_line_end(cs: &Vec<char>, i: usize) -> (e: usize)
    requires
        i <= cs@.len(),
    ensures
        e == line_end(cs@, i as int),
{
    let mut j = i;
    while j < cs.len() && cs[j] != '\n'
        invariant
            i <= j <= cs@.len(),
            line_end(cs@, j as int) == line_end(cs@, i as int),
        decreases cs@.len() - j,
    {
        j = j + 1;
    }
    j
}

impl BinaryImage {
    /// The image drawn by `string`, one row per line, `'*'` for a set pixel and anything
    /// else for an unset one. The first line gives the width; longer lines are cut to it.
    #[verifier::rlimit(30)]
    pub fn from_string(string: &str) -> (image: BinaryImage)
        requires
            lines_width(string@) * lines(string@).len() <= usize::MAX,
        ensures
            image.wf(),
            image.height == lines(string@).len(),
            image.width == lines_width(string@),
            forall|x: int, y: int| image.in_bounds(x, y) ==> (#[trigger] image.pixel(x, y)
                <==> x < lines(string@)[y].len() && lines(string@)[y][x] == '*'),
    {
        let mut cs: Vec<char> = Vec::new();
        for c in iter: string.chars()
            invariant
                cs@.len() == iter.index(),
                forall|j: int| 0 <= j < cs@.len() ==> cs@[j] == iter.seq()[j],
        {
            cs.push(c);
        }
        assert(cs@ =~= string@);
        let ghost all = lines(cs@);
        let n = cs.len();
        let mut i: usize = 0;
        let mut width: usize = 0;
        let mut height: usize = 0;
        let ghost mut done: Seq<Seq<char>> = Seq::empty();
        assert(cs@.skip(0) =~= cs@);
        proof {
            lemma_lines_len(cs@);
        }
        while i < n
            invariant
                n == cs@.len(),
                all.len() <= n,
                all == lines(cs@),
                i <= n,
                all == done + lines(cs@.skip(i as int)),
                height == done.len(),
                height > 0 ==> width == done[0].len(),
                height == 0 ==> width == 0,
            decreases n - i,
        {
            let e = find_line_end(&cs, i);
            proof {
                lemma_lines_step(cs@, i as int);
            }
            if height == 0 {
                width = e - i;
            }
            height = height + 1;
            proof {
                done = done.push(cs@.subrange(i as int, e as int));
            }
            if e < n {
                i = e + 1;
            } else {
                i = n;
                assert(cs@.skip(n as int) =~= Seq::<char>::empty());
            }
        }
        assert(cs@.skip(n as int) =~= Seq::<char>::empty());
        assert(done =~= all);
        let mut image = BinaryImage::new_w_h(width, height);
        let mut i: usize = 0;
        let mut y: usize = 0;
        let ghost mut done: Seq<Seq<char>> = Seq::empty();
        while i < n
            invariant
                n == cs@.len(),
                all == lines(cs@),
                i <= n,
                all == done + lines(cs@.skip(i as int)),
                y == done.len(),
                image.wf(),
                image.width == width,
                image.height == height,
                height == all.len(),
                height > 0 ==> width == all[0].len(),
                forall|a: int, b: int| image.in_bounds(a, b) ==> (#[trigger] image.pixel(a, b)
                    <==> b < y && a < all[b].len() && all[b][a] == '*'),
            decreases n - i,
        {
            let e = find_line_end(&cs, i);
            proof {
                lemma_lines_step(cs@, i as int);
                assert(lines(cs@.skip(i as int)).len() > 0);
            }
            let ghost line = cs@.subrange(i as int, e as int);
            assert(all[y as int] == line);
            let mut x: usize = 0;
            while x < e - i
                invariant
                    i <= e <= n,
                    n == cs@.len(),
                    line == cs@.subrange(i as int, e as int),
                    all[y as int] == line,
                    y < height,
                    x <= e - i,
                    image.wf(),
                    image.width == width,
                    image.height == height,
                    forall|a: int, b: int| image.in_bounds(a, b) ==> (#[trigger] image.pixel(a, b)
                        <==> (b < y && a < all[b].len() && all[b][a] == '*')
                            || (b == y && a < x && line[a] == '*')),
                decreases e - i - x,
            {
                if x < width {
                    image.set_pixel(x, y, cs[i + x] == '*');
                }
                x = x + 1;
            }
            y = y + 1;
            proof {
                done = done.push(line);
            }
            if e < n {
                i = e + 1;
            } else {
                i = n;
                assert(cs@.skip(n as int) =~= Seq::<char>::empty());
            }
        }
        image
    }
}

/// The label type of a `MonoImage`.
pub type MonoImageItem = u16;

/// An image holding one `u16` label per pixel, stored row by row.
pub struct MonoImage {
    pub pixels: Vec<MonoImageItem>,
    pub width: usize,
    pub height: usize,
}

impl MonoImage {
    pub open spec fn wf(self) -> bool {
        self.pixels@.len() == self.width * self.height
    }

    /// The label at `(x, y)`, for `(x, y)` inside the image.
    pub open spec fn at(self, x: int, y: int) -> MonoImageItem {
        self.pixels@[flat(self.width as int, x, y)]
    }

    pub fn new_w_h(width: usize, height: usize) -> (image: MonoImage)
        requires
            width * height <= usize::MAX,
        ensures
            image.wf(),
            image.width == width,
            image.height == height,
            forall|x: int, y: int|
                0 <= x < width && 0 <= y < height ==> #[trigger] image.at(x, y) == 0,
    {
        let n = width * height;
        let mut pixels: Vec<MonoImageItem> = Vec::new();
        let mut i: usize = 0;
        while i < n
            invariant
                i <= n,
                pixels@.len() == i,
                forall|j: int| 0 <= j < i ==> pixels@[j] == 0,
            decreases n - i,
        {
            pixels.push(0);
            i = i + 1;
        }
        let image = MonoImage { pixels, width, height };
        proof {
            assert forall|x: int, y: int|
                0 <= x < width && 0 <= y < height implies #[trigger] image.at(x, y) == 0 by {
                lemma_flat_in_range(width as int, height as int, x, y);
            }
        }
        image
    }

    pub fn get_pixel(&self, x: usize, y: usize) -> (v: MonoImageItem)
        requires
            self.wf(),
            x < self.width,
            y < self.height,
        ensures
            v == self.at(x as int, y as int),
    {
        let i = flat_index(self.width, self.height, self.pixels.len(), x, y);
        self.pixels[i]
    }

    pub fn set_pixel(&mut self, x: usize, y: usize, v: MonoImageItem)
        requires
            old(self).wf(),
            x < old(self).width,
            y < old(self).height,
        ensures
            final(self).wf(),
            final(self).width == old(self).width,
            final(self).height == old(self).height,
            forall|a: int, b: int|
                0 <= a < old(self).width && 0 <= b < old(self).height ==> #[trigger] final(self).at(a, b)
                    == if a == x && b == y { v } else { old(self).at(a, b) },
    {
        let i = flat_index(self.width, self.height, self.pixels.len(), x, y);
        let ghost prev = *self;
        self.pixels.set(i, v);
        proof {
            assert forall|a: int, b: int|
                0 <= a < prev.width && 0 <= b < prev.height implies #[trigger] self.at(a, b)
                    == if a == x && b == y { v } else { prev.at(a, b) } by {
                lemma_flat_in_range(self.width as int, self.height as int, a, b);
                if flat(self.width as int, a, b) == flat(self.width as int, x as int, y as int) {
                    lemma_flat_injective(self.width as int, a, b, x as int, y as int);
                }
            }
        }
    }
}

} // verus!
