use vstd::arithmetic::div_mod::{
    lemma_div_pos_is_pos, lemma_fundamental_div_mod, lemma_mod_bound, lemma_multiply_divide_lt,
};
use vstd::prelude::*;

verus! {

/// A raster buffer of `width * height` pixels, stored row by row.
///
/// The pixel type is left open: a renderer stores unclamped colors, the
/// bitmap encoder reads colors quantised to 8-bit levels.
#[derive(Debug)]
pub struct Canvas<P> {
    pub width: i32,
    pub height: i32,
    pub pixels: Vec<P>,
}

impl<P> Canvas<P> {
    /// The dimensions are non-negative, their product fits an `i32`, and
    /// there is exactly one pixel per position.
    pub open spec fn wf(&self) -> bool {
        &&& 0 <= self.width
        &&& 0 <= self.height
        &&& self.width * self.height <= i32::MAX
        &&& self.pixels@.len() == self.width * self.height
    }

    /// Position in `pixels` of the pixel at column `x`, row `y`.
    pub open spec fn index_of(&self, x: int, y: int) -> int {
        y * self.width + x
    }

    /// The pixel at column `x`, row `y`.
    pub open spec fn at(&self, x: int, y: int) -> P {
        self.pixels@[self.index_of(x, y)]
    }

    /// `(x, y)` addresses a pixel of the canvas.
    pub open spec fn in_bounds(&self, x: int, y: int) -> bool {
        0 <= x < self.width && 0 <= y < self.height
    }
}

proof fn lemma_index_in_range(width: int, height: int, x: int, y: int)
    requires
        0 <= x < width,
        0 <= y < height,
    ensures
        0 <= y * width + x < width * height,
{
    assert(0 <= y * width) by (nonlinear_arith)
        requires
            0 <= y,
            0 <= width,
    ;
    assert(y * width + x < width * height) by (nonlinear_arith)
        requires
            0 <= x < width,
            0 <= y < height,
    ;
}

impl<P: Copy> Canvas<P> {
    /// A `width` by `height` canvas with every pixel set to `background`.
    pub fn new(width: i32, height: i32, background: P) -> (r: Canvas<P>)
        requires
            0 <= width,
            0 <= height,
            width * height <= i32::MAX,
        ensures
            r.wf(),
            r.width == width,
            r.height == height,
            forall|i: int| 0 <= i < r.pixels@.len() ==> r.pixels@[i] == background,
    {
        let n: usize = (width * height) as usize;
        let mut pixels: Vec<P> = Vec::new();
        let mut i: usize = 0;
        while i < n
            invariant
                i <= n,
                pixels@.len() == i,
                forall|j: int| 0 <= j < i ==> pixels@[j] == background,
            decreases n - i,
        {
            pixels.push(background);
            i = i + 1;
        }
        Canvas { width, height, pixels }
    }

    /// A `width` by `height` canvas whose pixel at `(x, y)` is `f(x, y)`,
    /// computed row by row.
    pub fn from_fn<F: Fn(i32, i32) -> P>(width: i32, height: i32, f: F) -> (r: Canvas<P>)
        requires
            0 <= width,
            0 <= height,
            width * height <= i32::MAX,
            forall|x: i32, y: i32| 0 <= x < width && 0 <= y < height ==> #[trigger] f.requires((x, y)),
        ensures
            r.wf(),
            r.width == width,
            r.height == height,
            forall|x: i32, y: i32|
                #![trigger r.at(x as int, y as int)]
                r.in_bounds(x as int, y as int) ==> f.ensures((x, y), r.at(x as int, y as int)),
    {
        let mut pixels: Vec<P> = Vec::new();
        let mut y: i32 = 0;
        while y < height
            invariant
                0 <= y <= height,
                0 <= width,
                width * height <= i32::MAX,
                forall|x: i32, y: i32| 0 <= x < width && 0 <= y < height ==> #[trigger] f.requires((x, y)),
                pixels@.len() == y * width,
                forall|xx: i32, yy: i32|
                    0 <= xx < width && 0 <= yy < y ==> f.ensures(
                        (xx, yy),
                        #[trigger] pixels@[yy * width + xx],
                    ),
            decreases height - y,
        {
            let mut x: i32 = 0;
            proof {
                assert(y * width + width <= width * height) by (nonlinear_arith)
                    requires
                        y < height,
                        0 <= width,
                ;
                assert((y + 1) * width == y * width + width) by (nonlinear_arith);
            }
            while x < width
                invariant
                    0 <= y < height,
                    0 <= x <= width,
                    y * width + width <= width * height,
                    width * height <= i32::MAX,
                    forall|x: i32, y: i32| 0 <= x < width && 0 <= y < height ==> #[trigger] f.requires((x, y)),
                    pixels@.len() == y * width + x,
                    forall|xx: i32, yy: i32|
                        0 <= xx < width && 0 <= yy < y ==> f.ensures(
                            (xx, yy),
                            #[trigger] pixels@[yy * width + xx],
                        ),
                    forall|xx: i32| 0 <= xx < x ==> f.ensures((xx, y), #[trigger] pixels@[y * width + xx]),
                decreases width - x,
            {
                let c = f(x, y);
                let ghost before = pixels@;
                pixels.push(c);
                proof {
                    assert forall|xx: i32, yy: i32| 0 <= xx < width && 0 <= yy < y implies f.ensures(
                        (xx, yy),
                        #[trigger] pixels@[yy * width + xx],
                    ) by {
                        assert(0 <= yy * width + xx < y * width) by (nonlinear_arith)
                            requires
                                0 <= xx < width,
                                0 <= yy < y,
                        ;
                        assert(pixels@[yy * width + xx] == before[yy * width + xx]);
                    }
                    assert forall|xx: i32| 0 <= xx < x + 1 implies f.ensures(
                        (xx, y),
                        #[trigger] pixels@[y * width + xx],
                    ) by {
                        if xx < x {
                            assert(pixels@[y * width + xx] == before[y * width + xx]);
                        }
                    }
                }
                x = x + 1;
            }
            proof {
                assert forall|xx: i32, yy: i32| 0 <= xx < width && 0 <= yy < y + 1 implies f.ensures(
                    (xx, yy),
                    #[trigger] pixels@[yy * width + xx],
                ) by {
                    if yy == y {
                        assert(pixels@[y * width + xx] == pixels@[yy * width + xx]);
                    }
                }
            }
            y = y + 1;
        }
        proof {
            assert(height * width == width * height) by (nonlinear_arith);
        }
        Canvas { width, height, pixels }
    }

    /// Sets the pixel at column `x`, row `y`; every other pixel is kept.
    pub fn write_pixel(&mut self, x: i32, y: i32, c: P)
        requires
            old(self).wf(),
            old(self).in_bounds(x as int, y as int),
        ensures
            final(self).wf(),
            final(self).width == old(self).width,
            final(self).height == old(self).height,
            final(self).pixels@ == old(self).pixels@.update(
                old(self).index_of(x as int, y as int),
                c,
            ),
    {
        proof {
            lemma_index_in_range(self.width as int, self.height as int, x as int, y as int);
        }
        let idx: usize = (y * self.width + x) as usize;
        self.pixels.set(idx, c);
    }

    /// The pixel at column `x`, row `y`.
    pub fn pixel_at(&self, x: i32, y: i32) -> (r: P)
        requires
            self.wf(),
            self.in_bounds(x as int, y as int),
        ensures
            r == self.at(x as int, y as int),
    {
        proof {
            lemma_index_in_range(self.width as int, self.height as int, x as int, y as int);
        }
        let idx: usize = (y * self.width + x) as usize;
        self.pixels[idx]
    }
}

/// Rendering is repeatable: two canvases that `from_fn` could have built
/// from the same per-pixel function, whose result is fixed by the pixel's
/// coordinates, hold the same pixels.
pub proof fn lemma_from_fn_repeatable<P, F: Fn(i32, i32) -> P>(f: F, a: Canvas<P>, b: Canvas<P>)
    requires
        forall|x: i32, y: i32, u: P, v: P|
            f.ensures((x, y), u) && f.ensures((x, y), v) ==> u == v,
        a.wf(),
        b.wf(),
        a.width == b.width,
        a.height == b.height,
        forall|x: i32, y: i32|
            #![trigger a.at(x as int, y as int)]
            a.in_bounds(x as int, y as int) ==> f.ensures((x, y), a.at(x as int, y as int)),
        forall|x: i32, y: i32|
            #![trigger b.at(x as int, y as int)]
            b.in_bounds(x as int, y as int) ==> f.ensures((x, y), b.at(x as int, y as int)),
    ensures
        a.pixels@ == b.pixels@,
{
    let w = a.width as int;
    assert forall|p: int| 0 <= p < a.pixels@.len() implies a.pixels@[p] == b.pixels@[p] by {
        lemma_div_pos_is_pos(p, w);
        lemma_multiply_divide_lt(p, w, a.height as int);
        lemma_mod_bound(p, w);
        lemma_fundamental_div_mod(p, w);
        let x = (p % w) as i32;
        let y = (p / w) as i32;
        assert(p == (p / w) * w + p % w) by (nonlinear_arith)
            requires
                p == w * (p / w) + p % w,
        ;
        assert(a.at(x as int, y as int) == a.pixels@[p]);
        assert(b.at(x as int, y as int) == b.pixels@[p]);
    }
    assert(a.pixels@ =~= b.pixels@);
}

} // verus!
