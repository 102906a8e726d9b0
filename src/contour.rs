//! Outlines of black shapes: thinning a binarized image to the outlines of
//! its shapes, and walking those outlines one contour at a time.
use vstd::arithmetic::div_mod::{lemma_fundamental_div_mod, lemma_mod_pos_bound};
use vstd::prelude::*;

use crate::raster::{lemma_pixel_index_in_buffer, lemma_pixel_index_injective, pixel_index, GrayImage, RasterView};

verus! {

/// The four directions in which the rows and columns of an image are scanned.
pub enum Scan {
    FromLeft,
    FromRight,
    FromTop,
    FromBottom,
}

/// The pixel that a scan along `scan` visits just before `(x, y)`.
pub open spec fn behind(scan: Scan, x: int, y: int) -> (int, int) {
    match scan {
        Scan::FromLeft => (x - 1, y),
        Scan::FromRight => (x + 1, y),
        Scan::FromTop => (x, y - 1),
        Scan::FromBottom => (x, y + 1),
    }
}

/// `(x, y)` is black and opens a run of black pixels along `scan`.
pub open spec fn opens_run(img: RasterView, scan: Scan, x: int, y: int) -> bool {
    img.is_black(x, y) && !img.is_black(behind(scan, x, y).0, behind(scan, x, y).1)
}

/// A black pixel beside the border or beside a pixel that is not black, to
/// its left, its right, above or below.
pub open spec fn on_outline(img: RasterView, x: int, y: int) -> bool {
    &&& img.is_black(x, y)
    &&& !img.is_black(x - 1, y) || !img.is_black(x + 1, y) || !img.is_black(x, y - 1) || !img.is_black(
        x,
        y + 1,
    )
}

/// The pixel at step `k` of line `line` when a `width` by `height` image is
/// scanned along `scan`: rows for a horizontal scan, columns for a vertical one.
pub open spec fn scan_point(scan: Scan, width: int, height: int, line: int, k: int) -> (int, int) {
    match scan {
        Scan::FromLeft => (k, line),
        Scan::FromRight => (width - 1 - k, line),
        Scan::FromTop => (line, k),
        Scan::FromBottom => (line, height - 1 - k),
    }
}

/// The scan along `scan` has visited `(x, y)` before step `k` of line `line`.
pub open spec fn visited_before(scan: Scan, width: int, height: int, line: int, k: int, x: int, y: int) -> bool {
    let (l, s) = match scan {
        Scan::FromLeft => (y, x),
        Scan::FromRight => (y, width - 1 - x),
        Scan::FromTop => (x, y),
        Scan::FromBottom => (x, height - 1 - y),
    };
    l < line || (l == line && s < k)
}

/// One mark for each pixel: whether it opens a run of black pixels along `scan`.
fn run_starts(img: &GrayImage, scan: Scan) -> (r: Vec<bool>)
    requires
        img@.wf(),
    ensures
        r.len() == img@.pixels.len(),
        forall|x: int, y: int|
            img@.in_bounds(x, y) ==> r[pixel_index(img@.width as int, x, y)] == opens_run(img@, scan, x, y),
{
    let ghost view = img@;
    let w = img.width();
    let h = img.height();
    let n = img.as_raw().len();
    let mut marks: Vec<bool> = Vec::new();
    let mut i: usize = 0;
    while i < n
        invariant
            i <= n,
            marks.len() == i,
            forall|j: int| 0 <= j < i ==> !marks[j],
        decreases n - i,
    {
        marks.push(false);
        i = i + 1;
    }
    let vertical = match scan {
        Scan::FromTop | Scan::FromBottom => true,
        _ => false,
    };
    let lines: u32 = if vertical { w } else { h };
    let len: u32 = if vertical { h } else { w };
    assert forall|x: int, y: int| view.in_bounds(x, y) implies !marks[pixel_index(w as int, x, y)] by {
        lemma_pixel_index_in_buffer(w as int, h as int, x, y);
    }
    let mut line: u32 = 0;
    while line < lines
        invariant
            view == img@,
            view.wf(),
            w == view.width,
            h == view.height,
            marks.len() == n,
            n == view.pixels.len(),
            lines == (if vertical { w } else { h }),
            len == (if vertical { h } else { w }),
            vertical == (scan is FromTop || scan is FromBottom),
            line <= lines,
            forall|x: int, y: int|
                view.in_bounds(x, y) ==> marks[pixel_index(w as int, x, y)] == (visited_before(
                    scan,
                    w as int,
                    h as int,
                    line as int,
                    0,
                    x,
                    y,
                ) && opens_run(view, scan, x, y)),
        decreases lines - line,
    {
        let mut is_inner = false;
        let mut k: u32 = 0;
        while k < len
            invariant
                view == img@,
                view.wf(),
                w == view.width,
                h == view.height,
                marks.len() == n,
                n == view.pixels.len(),
                lines == (if vertical { w } else { h }),
                len == (if vertical { h } else { w }),
                vertical == (scan is FromTop || scan is FromBottom),
                line < lines,
                k <= len,
                is_inner == (k > 0 && view.is_black(
                    scan_point(scan, w as int, h as int, line as int, k - 1).0,
                    scan_point(scan, w as int, h as int, line as int, k - 1).1,
                )),
                forall|x: int, y: int|
                    view.in_bounds(x, y) ==> marks[pixel_index(w as int, x, y)] == (visited_before(
                        scan,
                        w as int,
                        h as int,
                        line as int,
                        k as int,
                        x,
                        y,
                    ) && opens_run(view, scan, x, y)),
            decreases len - k,
        {
            let (x, y) = match scan {
                Scan::FromLeft => (k, line),
                Scan::FromRight => (w - 1 - k, line),
                Scan::FromTop => (line, k),
                Scan::FromBottom => (line, h - 1 - k),
            };
            assert((x as int, y as int) == scan_point(scan, w as int, h as int, line as int, k as int));
            assert(behind(scan, x as int, y as int) == scan_point(scan, w as int, h as int, line as int, k - 1));
            let ghost before = marks@;
            if img.get_pixel(x, y) == 0 {
                if !is_inner {
                    is_inner = true;
                    let at = img.index_of(x, y);
                    marks.set(at, true);
                }
            } else {
                is_inner = false;
            }
            assert forall|x2: int, y2: int| view.in_bounds(x2, y2) implies marks[pixel_index(w as int, x2, y2)]
                == (visited_before(scan, w as int, h as int, line as int, k + 1, x2, y2) && opens_run(
                view,
                scan,
                x2,
                y2,
            )) by {
                if x2 != x || y2 != y {
                    if pixel_index(w as int, x2, y2) == pixel_index(w as int, x as int, y as int) {
                        lemma_pixel_index_injective(w as int, x2, y2, x as int, y as int);
                    }
                    lemma_pixel_index_in_buffer(w as int, h as int, x2, y2);
                    assert(marks[pixel_index(w as int, x2, y2)] == before[pixel_index(w as int, x2, y2)]);
                }
            }
            k = k + 1;
        }
        line = line + 1;
    }
    assert forall|x: int, y: int| view.in_bounds(x, y) implies marks[pixel_index(w as int, x, y)] == opens_run(
        view,
        scan,
        x,
        y,
    ) by {
        assert(visited_before(scan, w as int, h as int, lines as int, 0, x, y));
    }
    marks
}

/// Thins the black shapes of `img` to their outlines: a black pixel stays
/// black when it opens a run of black pixels in a scan from the left, the
/// right, the top or the bottom; every other pixel turns white.
pub fn keep_contours(img: &mut GrayImage)
    requires
        old(img)@.wf(),
    ensures
        final(img)@.wf(),
        final(img)@.width == old(img)@.width,
        final(img)@.height == old(img)@.height,
        forall|x: int, y: int|
            old(img)@.in_bounds(x, y) ==> final(img)@.pixel(x, y) == (if on_outline(old(img)@, x, y) {
                0u8
            } else {
                255u8
            }),
{
    let ghost view = img@;
    let from_left = run_starts(img, Scan::FromLeft);
    let from_right = run_starts(img, Scan::FromRight);
    let from_top = run_starts(img, Scan::FromTop);
    let from_bottom = run_starts(img, Scan::FromBottom);
    let n = img.as_raw().len();
    let mut pixels: Vec<u8> = Vec::new();
    let mut i: usize = 0;
    while i < n
        invariant
            i <= n,
            n == from_left.len(),
            n == from_right.len(),
            n == from_top.len(),
            n == from_bottom.len(),
            pixels.len() == i,
            forall|j: int|
                0 <= j < i ==> pixels[j] == (if from_left[j] || from_right[j] || from_top[j] || from_bottom[j] {
                    0u8
                } else {
                    255u8
                }),
        decreases n - i,
    {
        let v: u8 = if from_left[i] || from_right[i] || from_top[i] || from_bottom[i] {
            0
        } else {
            255
        };
        pixels.push(v);
        i = i + 1;
    }
    let ghost thinned = pixels@;
    if let Some(out) = GrayImage::from_raw(img.width(), img.height(), pixels) {
        *img = out;
    }
    assert forall|x: int, y: int| view.in_bounds(x, y) implies img@.pixel(x, y) == (if on_outline(view, x, y) {
        0u8
    } else {
        255u8
    }) by {
        lemma_pixel_index_in_buffer(view.width as int, view.height as int, x, y);
        let j = pixel_index(view.width as int, x, y);
        assert(img@.pixels[j] == thinned[j]);
    }
}

/// Number of black (0) values in a buffer.
pub open spec fn black_count(pixels: Seq<u8>) -> nat
    decreases pixels.len(),
{
    if pixels.len() == 0 {
        0
    } else {
        black_count(pixels.drop_last()) + (if pixels.last() == 0 {
            1nat
        } else {
            0nat
        })
    }
}

/// Turning one black value white leaves one black value fewer.
pub proof fn lemma_whiten_one(pixels: Seq<u8>, i: int)
    requires
        0 <= i < pixels.len(),
        pixels[i] == 0,
    ensures
        black_count(pixels.update(i, 255)) + 1 == black_count(pixels),
    decreases pixels.len(),
{
    if i == pixels.len() - 1 {
        assert(pixels.update(i, 255).drop_last() =~= pixels.drop_last());
    } else {
        lemma_whiten_one(pixels.drop_last(), i);
        assert(pixels.update(i, 255).drop_last() =~= pixels.drop_last().update(i, 255));
    }
}

/// Where the contour walk goes from `(x, y)`: the first black pixel among
/// the neighbours to the right, left, below, above, above left, above right,
/// below right and below left; `(x, y)` itself when none is black or when
/// `(x, y)` is not black.
pub open spec fn black_neighbour(img: RasterView, x: int, y: int) -> (int, int) {
    if !img.is_black(x, y) {
        (x, y)
    } else if img.is_black(x + 1, y) {
        (x + 1, y)
    } else if img.is_black(x - 1, y) {
        (x - 1, y)
    } else if img.is_black(x, y + 1) {
        (x, y + 1)
    } else if img.is_black(x, y - 1) {
        (x, y - 1)
    } else if img.is_black(x - 1, y - 1) {
        (x - 1, y - 1)
    } else if img.is_black(x + 1, y - 1) {
        (x + 1, y - 1)
    } else if img.is_black(x + 1, y + 1) {
        (x + 1, y + 1)
    } else if img.is_black(x - 1, y + 1) {
        (x - 1, y + 1)
    } else {
        (x, y)
    }
}

/// The pixels that the contour walk visits from `(x, y)`: each visited pixel
/// turns white, and the walk moves to `black_neighbour` until that is the
/// pixel itself.
pub open spec fn trace_path(img: RasterView, x: int, y: int) -> Seq<(int, int)>
    decreases black_count(img.pixels),
{
    let next = black_neighbour(img, x, y);
    if !img.wf() || !img.is_black(x, y) || next == (x, y) {
        seq![(x, y)]
    } else {
        proof {
            lemma_pixel_index_in_buffer(img.width as int, img.height as int, x, y);
            lemma_whiten_one(img.pixels, pixel_index(img.width as int, x, y));
        }
        seq![(x, y)] + trace_path(img.set(x, y, 255), next.0, next.1)
    }
}

/// A contour walk visits at most one pixel more than the image has black pixels.
pub proof fn lemma_trace_path_len(img: RasterView, x: int, y: int)
    ensures
        trace_path(img, x, y).len() <= black_count(img.pixels) + 1,
    decreases black_count(img.pixels),
{
    let next = black_neighbour(img, x, y);
    if img.wf() && img.is_black(x, y) && next != (x, y) {
        lemma_pixel_index_in_buffer(img.width as int, img.height as int, x, y);
        lemma_whiten_one(img.pixels, pixel_index(img.width as int, x, y));
        lemma_trace_path_len(img.set(x, y, 255), next.0, next.1);
    }
}

/// `img` with every pixel of `path` turned white.
pub open spec fn whitened(img: RasterView, path: Seq<(int, int)>) -> RasterView
    decreases path.len(),
{
    if path.len() == 0 {
        img
    } else {
        whitened(img.set(path[0].0, path[0].1, 255), path.drop_first())
    }
}

/// Pixel positions as integer pairs.
pub open spec fn as_ints(path: Seq<(u32, u32)>) -> Seq<(int, int)> {
    path.map_values(|p: (u32, u32)| (p.0 as int, p.1 as int))
}

/// `(x, y)` is the first black pixel of `img` in row-major order.
pub open spec fn is_first_black(img: RasterView, x: int, y: int) -> bool {
    &&& img.is_black(x, y)
    &&& forall|i: int| 0 <= i < pixel_index(img.width as int, x, y) ==> img.pixels[i] != 0
}

/// `img` has no black pixel.
pub open spec fn all_white(img: RasterView) -> bool {
    forall|i: int| 0 <= i < img.pixels.len() ==> img.pixels[i] != 0
}

proof fn lemma_whitened_push(img: RasterView, path: Seq<(int, int)>, q: (int, int))
    ensures
        whitened(img, path.push(q)) == whitened(img, path).set(q.0, q.1, 255),
    decreases path.len(),
{
    let longer = path.push(q);
    assert(longer[0] == (if path.len() == 0 {
        q
    } else {
        path[0]
    }));
    if path.len() == 0 {
        assert(longer.drop_first() =~= path);
        assert(whitened(img, path) == img);
        assert(whitened(img.set(q.0, q.1, 255), longer.drop_first()) == img.set(q.0, q.1, 255));
    } else {
        assert(longer.drop_first() =~= path.drop_first().push(q));
        lemma_whitened_push(img.set(path[0].0, path[0].1, 255), path.drop_first(), q);
    }
}

proof fn lemma_whitened_shape(img: RasterView, path: Seq<(int, int)>)
    ensures
        whitened(img, path).width == img.width,
        whitened(img, path).height == img.height,
        whitened(img, path).pixels.len() == img.pixels.len(),
        forall|i: int|
            0 <= i < img.pixels.len() && img.pixels[i] != 0 ==> #[trigger] whitened(img, path).pixels[i] != 0,
    decreases path.len(),
{
    if path.len() > 0 {
        let next = img.set(path[0].0, path[0].1, 255);
        lemma_whitened_shape(next, path.drop_first());
        assert forall|i: int| 0 <= i < img.pixels.len() && img.pixels[i] != 0 implies next.pixels[i] != 0 by {
            let at = pixel_index(img.width as int, path[0].0, path[0].1);
            if img.in_bounds(path[0].0, path[0].1) && at < img.pixels.len() && i == at {
                assert(next.pixels[i] == 255);
            }
        }
    }
}

/// Yields the contours of the black shapes of an image one by one, turning
/// each traced contour white.
pub struct ContourFinder {
    img: GrayImage,
    black_finder_iter_num: usize,
}

impl ContourFinder {
    /// The image as it now stands.
    pub closed spec fn image(&self) -> RasterView {
        self.img@
    }

    /// Where the search for the next black pixel resumes, in row-major order.
    pub closed spec fn cursor(&self) -> int {
        self.black_finder_iter_num as int
    }

    /// The image is well formed and no pixel before the cursor is black.
    pub open spec fn wf(&self) -> bool {
        &&& self.image().wf()
        &&& 0 <= self.cursor() <= self.image().pixels.len()
        &&& forall|i: int| 0 <= i < self.cursor() ==> self.image().pixels[i] != 0
    }

    pub fn new(img: GrayImage) -> (r: ContourFinder)
        requires
            img@.wf(),
        ensures
            r.wf(),
            r.image() == img@,
    {
        ContourFinder { img, black_finder_iter_num: 0 }
    }

    /// The first black pixel at or after the cursor, which then moves past it.
    fn find_black_pixel(&mut self) -> (r: Option<(u32, u32)>)
        requires
            old(self).wf(),
        ensures
            final(self).image() == old(self).image(),
            r is None ==> final(self).wf() && all_white(old(self).image()),
            r is None ==> final(self).cursor() == old(self).image().pixels.len(),
            r matches Some(p) ==> is_first_black(old(self).image(), p.0 as int, p.1 as int)
                && final(self).cursor() == pixel_index(old(self).image().width as int, p.0 as int, p.1 as int)
                + 1,
    {
        let ghost view = self.img@;
        let w = self.img.width();
        let n = self.img.as_raw().len();
        while self.black_finder_iter_num < n
            invariant
                self.img@ == view,
                view == old(self).image(),
                view.wf(),
                w == view.width,
                n == view.pixels.len(),
                self.black_finder_iter_num <= n,
                forall|i: int| 0 <= i < self.black_finder_iter_num ==> view.pixels[i] != 0,
            decreases n - self.black_finder_iter_num,
        {
            let i = self.black_finder_iter_num;
            self.black_finder_iter_num = i + 1;
            if self.img.as_raw()[i] == 0 {
                let ghost q = i as int / w as int;
                let ghost m = i as int % w as int;
                proof {
                    if w == 0 {
                        assert(view.width * view.height == 0) by (nonlinear_arith)
                            requires
                                view.width == 0,
                        ;
                    }
                    lemma_fundamental_div_mod(i as int, w as int);
                    lemma_mod_pos_bound(i as int, w as int);
                    assert(q * w <= i) by (nonlinear_arith)
                        requires
                            i as int == w * q + m,
                            0 <= m,
                    ;
                    assert(q < view.height) by (nonlinear_arith)
                        requires
                            i as int == w * q + m,
                            0 <= m < w,
                            i < view.width * view.height,
                            w == view.width,
                    ;
                    assert(0 <= q) by (nonlinear_arith)
                        requires
                            i as int == w * q + m,
                            0 <= i,
                            0 <= m < w,
                    ;
                    assert(pixel_index(w as int, m, q) == i) by (nonlinear_arith)
                        requires
                            i as int == w * q + m,
                    ;
                }
                let wide: usize = w as usize;
                let xs: usize = i % wide;
                let ys: usize = i / wide;
                assert(xs as int == m);
                assert(ys as int == q);
                let h = self.img.height();
                assert(ys < h);
                let x = xs as u32;
                let y = ys as u32;
                assert(view.pixels[pixel_index(w as int, m, q)] == 0);
                return Some((x, y));
            }
        }
        None
    }

    /// The pixel that the contour walk moves to from `pos`.
    fn find_black_pixel_next_to(&self, pos: (u32, u32)) -> (r: (u32, u32))
        requires
            self.image().wf(),
            self.image().in_bounds(pos.0 as int, pos.1 as int),
        ensures
            (r.0 as int, r.1 as int) == black_neighbour(self.image(), pos.0 as int, pos.1 as int),
    {
        let (i, j) = pos;
        let w = self.img.width();
        let h = self.img.height();
        let mut next_to = (i, j);
        if self.img.get_pixel(i, j) == 0 {
            if i < w - 1 && self.img.get_pixel(i + 1, j) == 0 {
                next_to = (i + 1, j);
            } else if i > 0 && self.img.get_pixel(i - 1, j) == 0 {
                next_to = (i - 1, j);
            } else if j < h - 1 && self.img.get_pixel(i, j + 1) == 0 {
                next_to = (i, j + 1);
            } else if j > 0 && self.img.get_pixel(i, j - 1) == 0 {
                next_to = (i, j - 1);
            } else if j > 0 && i > 0 && self.img.get_pixel(i - 1, j - 1) == 0 {
                next_to = (i - 1, j - 1);
            } else if j > 0 && i < w - 1 && self.img.get_pixel(i + 1, j - 1) == 0 {
                next_to = (i + 1, j - 1);
            } else if i < w - 1 && j < h - 1 && self.img.get_pixel(i + 1, j + 1) == 0 {
                next_to = (i + 1, j + 1);
            } else if i > 0 && j < h - 1 && self.img.get_pixel(i - 1, j + 1) == 0 {
                next_to = (i - 1, j + 1);
            }
        }
        next_to
    }

    /// Walks the contour from the black pixel `start`, turning each visited
    /// pixel white, and returns the visited pixels in order.
    fn trace_contour(&mut self, start: (u32, u32)) -> (r: Vec<(u32, u32)>)
        requires
            old(self).image().wf(),
            old(self).image().in_bounds(start.0 as int, start.1 as int),
        ensures
            final(self).cursor() == old(self).cursor(),
            as_ints(r@) == trace_path(old(self).image(), start.0 as int, start.1 as int),
            final(self).image() == whitened(old(self).image(), as_ints(r@)),
            r.len() <= black_count(old(self).image().pixels) + 1,
    {
        proof {
            lemma_trace_path_len(self.image(), start.0 as int, start.1 as int);
        }
        let ghost view = self.image();
        let mut current = start;
        let mut contour: Vec<(u32, u32)> = Vec::new();
        contour.push(current);
        assert(as_ints(contour@).drop_last() =~= Seq::<(int, int)>::empty());
        loop
            invariant_except_break
                self.image().in_bounds(current.0 as int, current.1 as int),
                self.image() == whitened(view, as_ints(contour@).drop_last()),
                trace_path(view, start.0 as int, start.1 as int) == as_ints(contour@).drop_last() + trace_path(
                    self.image(),
                    current.0 as int,
                    current.1 as int,
                ),
            invariant
                self.cursor() == old(self).cursor(),
                self.image().wf(),
                self.image().width == view.width,
                self.image().height == view.height,
                contour.len() >= 1,
                contour[contour.len() - 1] == current,
            ensures
                self.cursor() == old(self).cursor(),
                as_ints(contour@) == trace_path(view, start.0 as int, start.1 as int),
                self.image() == whitened(view, as_ints(contour@)),
            decreases black_count(self.image().pixels),
        {
            let ghost here = self.image();
            let ghost c = (current.0 as int, current.1 as int);
            let ghost done = as_ints(contour@).drop_last();
            let next = self.find_black_pixel_next_to(current);
            self.img.put_pixel(current.0, current.1, 255);
            proof {
                lemma_pixel_index_in_buffer(here.width as int, here.height as int, c.0, c.1);
                if here.is_black(c.0, c.1) {
                    lemma_whiten_one(here.pixels, pixel_index(here.width as int, c.0, c.1));
                }
                assert(as_ints(contour@) =~= done.push(c));
                lemma_whitened_push(view, done, c);
            }
            if next.0 == current.0 && next.1 == current.1 {
                proof {
                    assert(trace_path(here, c.0, c.1) == seq![c]);
                    assert(done + seq![c] =~= done.push(c));
                }
                break;
            }
            let ghost n = (next.0 as int, next.1 as int);
            proof {
                lemma_pixel_index_in_buffer(here.width as int, here.height as int, n.0, n.1);
                if pixel_index(here.width as int, n.0, n.1) == pixel_index(here.width as int, c.0, c.1) {
                    lemma_pixel_index_injective(here.width as int, n.0, n.1, c.0, c.1);
                }
                assert(trace_path(here, c.0, c.1) == seq![c] + trace_path(here.set(c.0, c.1, 255), n.0, n.1));
            }
            contour.push(next);
            current = next;
            proof {
                assert(as_ints(contour@).drop_last() =~= done.push(c));
                assert(done.push(c) + trace_path(self.image(), n.0, n.1) =~= done + (seq![c] + trace_path(
                    self.image(),
                    n.0,
                    n.1,
                )));
            }
        }
        contour
    }

    /// The next contour: traced from the first black pixel in row-major
    /// order, whose pixels all turn white; `None` once no pixel is black.
    pub fn next(&mut self) -> (r: Option<Vec<(u32, u32)>>)
        requires
            old(self).wf(),
        ensures
            final(self).wf(),
            r is None <==> all_white(old(self).image()),
            r is None ==> final(self).image() == old(self).image(),
            r matches Some(c) ==> c.len() > 0 && is_first_black(old(self).image(), c[0].0 as int, c[0].1 as int)
                && as_ints(c@) == trace_path(old(self).image(), c[0].0 as int, c[0].1 as int)
                && final(self).image() == whitened(old(self).image(), as_ints(c@)),
    {
        let ghost view = self.image();
        match self.find_black_pixel() {
            None => None,
            Some(start) => {
                let c = self.trace_contour(start);
                proof {
                    let path = as_ints(c@);
                    let s = (start.0 as int, start.1 as int);
                    let at = pixel_index(view.width as int, s.0, s.1);
                    lemma_pixel_index_in_buffer(view.width as int, view.height as int, s.0, s.1);
                    assert(path[0] == s);
                    assert(path.len() > 0);
                    let first = view.set(s.0, s.1, 255);
                    assert(whitened(view, path) == whitened(first, path.drop_first()));
                    lemma_whitened_shape(first, path.drop_first());
                    lemma_whitened_shape(view, path);
                    assert(first.pixels[at] != 0);
                    assert forall|i: int| 0 <= i < self.cursor() implies self.image().pixels[i] != 0 by {
                        if i < at {
                            assert(view.pixels[i] != 0);
                        }
                    }
                    assert(c@.len() == path.len());
                    assert(c[0].0 as int == s.0 && c[0].1 as int == s.1);
                }
                Some(c)
            },
        }
    }
}

/// Turns a value into a `ContourFinder` over it.
pub trait ToContourFinder: Sized {
    /// The value can be traced.
    spec fn traceable(&self) -> bool;

    /// The image that the value stands for.
    spec fn raster(&self) -> RasterView;

    fn to_contour_finder(self) -> (r: ContourFinder)
        requires
            self.traceable(),
        ensures
            r.wf(),
            r.image() == self.raster(),
    ;
}

impl ToContourFinder for GrayImage {
    open spec fn traceable(&self) -> bool {
        self@.wf()
    }

    open spec fn raster(&self) -> RasterView {
        self@
    }

    fn to_contour_finder(self) -> (r: ContourFinder) {
        ContourFinder::new(self)
    }
}

} // verus!
