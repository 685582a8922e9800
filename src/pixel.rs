//! RGBA pixel buffers: blank creation, enlargement by copy, tile copy and
//! minimum-alpha scans over sub-rectangles.

use vstd::prelude::*;

verus! {

/// One RGBA pixel, one byte per channel, not premultiplied.
#[derive(Clone, Copy, Debug, PartialEq, Eq, Structural)]
pub struct Rgba {
    pub r: u8,
    pub g: u8,
    pub b: u8,
    pub a: u8,
}

/// The pixel that fills every new buffer: transparent black.
pub open spec fn blank() -> Rgba {
    Rgba { r: 0, g: 0, b: 0, a: 0 }
}

/// Mathematical model of a pixel buffer: its size and its pixels, row by row.
pub struct Image {
    pub width: nat,
    pub height: nat,
    pub pixels: Seq<Rgba>,
}

impl Image {
    pub open spec fn inside(self, x: int, y: int) -> bool {
        0 <= x < self.width && 0 <= y < self.height
    }

    /// The pixel in column `x` of row `y`.
    pub open spec fn at(self, x: int, y: int) -> Rgba {
        cell(self.pixels, self.width, x, y)
    }

    /// Whether `(x, y)` lies in the rectangle with corner `(rx, ry)` and size `w` by `h`.
    pub open spec fn in_rect(x: int, y: int, rx: int, ry: int, w: int, h: int) -> bool {
        rx <= x < rx + w && ry <= y < ry + h
    }

    /// Whether `v` is the least alpha over the rectangle `(x, y, w, h)`, or 0
    /// where that rectangle is empty.
    pub open spec fn is_min_alpha(self, x: int, y: int, w: int, h: int, v: u8) -> bool {
        if w == 0 || h == 0 {
            v == 0
        } else {
            &&& exists|i: int, j: int|
                x <= i < x + w && y <= j < y + h && #[trigger] self.at(i, j).a == v
            &&& forall|i: int, j: int|
                x <= i < x + w && y <= j < y + h ==> v <= #[trigger] self.at(i, j).a
        }
    }
}

/// The cell in column `x` of row `y` of a grid `w` pixels wide, stored row by row.
pub open spec fn cell(pixels: Seq<Rgba>, w: nat, x: int, y: int) -> Rgba {
    pixels[y * w + x]
}

/// Row-major index of `(x, y)` lies inside a `w` by `h` grid.
pub proof fn lemma_index_in_grid(x: int, y: int, w: int, h: int)
    requires
        0 <= x < w,
        0 <= y < h,
    ensures
        0 <= y * w + x < w * h,
        y * w + x + 1 <= w * h,
{
    assert(0 <= y * w) by (nonlinear_arith)
        requires 0 <= y, 0 <= w;
    assert(y * w + w <= w * h) by (nonlinear_arith)
        requires y + 1 <= h, 0 <= w;
}

/// Distinct cells of one grid have distinct row-major indices.
pub proof fn lemma_index_unique(x1: int, y1: int, x2: int, y2: int, w: int)
    requires
        0 <= x1 < w,
        0 <= x2 < w,
        0 <= y1,
        0 <= y2,
        y1 * w + x1 == y2 * w + x2,
    ensures
        x1 == x2,
        y1 == y2,
{
    if y1 < y2 {
        assert(y1 * w + w <= y2 * w) by (nonlinear_arith)
            requires y1 + 1 <= y2, 0 <= w;
    } else if y2 < y1 {
        assert(y2 * w + w <= y1 * w) by (nonlinear_arith)
            requires y2 + 1 <= y1, 0 <= w;
    }
    assert(y1 == y2);
    assert(y1 * w == y2 * w);
}

/// The product of two `u32` values fits in `u64`.
pub proof fn lemma_u32_product(a: u32, b: u32)
    ensures
        (a as int) * (b as int) <= u64::MAX,
{
    assert((a as int) * (b as int) <= (u32::MAX as int) * (u32::MAX as int)) by (nonlinear_arith)
        requires a <= u32::MAX, b <= u32::MAX, 0 <= a, 0 <= b;
}

/// A width by height grid of RGBA pixels, stored row by row.
#[derive(Debug)]
pub struct PixelBuffer {
    width: u32,
    height: u32,
    pixels: Vec<Rgba>,
}

impl View for PixelBuffer {
    type V = Image;

    closed spec fn view(&self) -> Image {
        Image { width: self.width as nat, height: self.height as nat, pixels: self.pixels@ }
    }
}

impl PixelBuffer {
    /// Holds one pixel per cell, and sizes that fit in `u32`.
    pub open spec fn wf(&self) -> bool {
        &&& self@.pixels.len() == self@.width * self@.height
        &&& self@.width <= u32::MAX
        &&& self@.height <= u32::MAX
    }

    proof fn lemma_fields(&self)
        ensures
            self@.width == self.width as nat,
            self@.height == self.height as nat,
            self@.pixels == self.pixels@,
    {
    }

    /// A buffer of the given size whose every pixel is transparent black.
    pub fn new(width: u32, height: u32) -> (r: PixelBuffer)
        requires
            width * height <= usize::MAX,
        ensures
            r.wf(),
            r@.width == width,
            r@.height == height,
            forall|i: int| 0 <= i < r@.pixels.len() ==> r@.pixels[i] == blank(),
    {
        let n: usize = width as usize * height as usize;
        let mut pixels: Vec<Rgba> = Vec::new();
        let mut i: usize = 0;
        while i < n
            invariant
                i <= n,
                pixels@.len() == i,
                forall|k: int| 0 <= k < i ==> pixels@[k] == blank(),
            decreases n - i,
        {
            pixels.push(Rgba { r: 0, g: 0, b: 0, a: 0 });
            i = i + 1;
        }
        PixelBuffer { width, height, pixels }
    }

    /// A buffer over the given pixels, row by row; `None` unless there is
    /// exactly one pixel per cell.
    pub fn from_pixels(width: u32, height: u32, pixels: Vec<Rgba>) -> (r: Option<PixelBuffer>)
        ensures
            r.is_some() <==> pixels@.len() == width * height,
            r matches Some(b) ==> b.wf() && b@ == (Image {
                width: width as nat,
                height: height as nat,
                pixels: pixels@,
            }),
    {
        proof {
            lemma_u32_product(width, height);
        }
        if (pixels.len() as u64) == (width as u64) * (height as u64) {
            Some(PixelBuffer { width, height, pixels })
        } else {
            None
        }
    }

    pub fn width(&self) -> (r: u32)
        ensures
            r == self@.width,
    {
        self.width
    }

    pub fn height(&self) -> (r: u32)
        ensures
            r == self@.height,
    {
        self.height
    }

    /// The pixels, row by row.
    pub fn pixels(&self) -> (r: &Vec<Rgba>)
        ensures
            r@ == self@.pixels,
    {
        &self.pixels
    }

    /// Gives the pixels up, row by row.
    pub fn into_pixels(self) -> (r: Vec<Rgba>)
        ensures
            r@ == self@.pixels,
    {
        self.pixels
    }

    /// The pixel in column `x` of row `y`.
    pub fn get_pixel(&self, x: u32, y: u32) -> (r: Rgba)
        requires
            self.wf(),
            x < self@.width,
            y < self@.height,
        ensures
            r == self@.at(x as int, y as int),
    {
        proof {
            self.lemma_fields();
            lemma_index_in_grid(x as int, y as int, self.width as int, self.height as int);
        }
        let _n: usize = self.pixels.len();
        self.pixels[y as usize * self.width as usize + x as usize]
    }
}

impl PixelBuffer {
    /// A copy of this buffer enlarged to `new_width` by `new_height`: each pixel
    /// keeps its coordinates and the new area is transparent black.
    pub fn enlarged(&self, new_width: u32, new_height: u32) -> (r: PixelBuffer)
        requires
            self.wf(),
            self@.width <= new_width,
            self@.height <= new_height,
            new_width * new_height <= usize::MAX,
        ensures
            r.wf(),
            r@.width == new_width,
            r@.height == new_height,
            forall|x: int, y: int|
                r@.inside(x, y) ==> #[trigger] r@.at(x, y) == if self@.inside(x, y) {
                    self@.at(x, y)
                } else {
                    blank()
                },
    {
        let ghost src = self@;
        let mut out: Vec<Rgba> = Vec::new();
        let mut y: u32 = 0;
        while y < new_height
            invariant
                self.wf(),
                src == self@,
                src.width <= new_width,
                src.height <= new_height,
                y <= new_height,
                new_width * new_height <= usize::MAX,
                out@.len() == y * new_width,
                forall|i: int, j: int|
                    0 <= i < new_width && 0 <= j < y ==> #[trigger] cell(out@, new_width as nat, i, j)
                        == if src.inside(i, j) {
                        src.at(i, j)
                    } else {
                        blank()
                    },
            decreases new_height - y,
        {
            let mut x: u32 = 0;
            while x < new_width
                invariant
                    self.wf(),
                    src == self@,
                    src.width <= new_width,
                    src.height <= new_height,
                    y < new_height,
                    x <= new_width,
                    new_width * new_height <= usize::MAX,
                    out@.len() == y * new_width + x,
                    forall|i: int, j: int|
                        0 <= i < new_width && 0 <= j < y ==> #[trigger] cell(out@, new_width as nat, i, j)
                            == if src.inside(i, j) {
                            src.at(i, j)
                        } else {
                            blank()
                        },
                    forall|i: int|
                        0 <= i < x ==> #[trigger] cell(out@, new_width as nat, i, y as int)
                            == if src.inside(i, y as int) {
                            src.at(i, y as int)
                        } else {
                            blank()
                        },
                decreases new_width - x,
            {
                let p = if x < self.width && y < self.height {
                    self.get_pixel(x, y)
                } else {
                    Rgba { r: 0, g: 0, b: 0, a: 0 }
                };
                let ghost before = out@;
                proof {
                    lemma_index_in_grid(x as int, y as int, new_width as int, new_height as int);
                }
                out.push(p);
                proof {
                    assert forall|i: int, j: int|
                        0 <= i < new_width && 0 <= j < y implies #[trigger] cell(out@, new_width as nat, i, j)
                            == cell(before, new_width as nat, i, j) by {
                        lemma_index_in_grid(i, j, new_width as int, y as int);
                        assert(new_width * y == y * new_width) by (nonlinear_arith);
                    }
                    assert forall|i: int| 0 <= i < x + 1 implies #[trigger] cell(out@, new_width as nat, i, y as int)
                            == if src.inside(i, y as int) {
                            src.at(i, y as int)
                        } else {
                            blank()
                        } by {
                        if i < x {
                            assert(cell(out@, new_width as nat, i, y as int) == cell(before, new_width as nat, i, y as int));
                        }
                    }
                }
                x = x + 1;
            }
            proof {
                assert((y + 1) * new_width == y * new_width + new_width) by (nonlinear_arith);
            }
            y = y + 1;
        }
        proof {
            assert(new_height * new_width == new_width * new_height) by (nonlinear_arith);
        }
        PixelBuffer { width: new_width, height: new_height, pixels: out }
    }

    /// Copies the top-left `w` by `h` pixels of `tile` so that the tile's
    /// corner lands at `(dx, dy)`; every other pixel stays as it was.
    pub fn copy_region(&mut self, tile: &PixelBuffer, dx: u32, dy: u32, w: u32, h: u32)
        requires
            old(self).wf(),
            tile.wf(),
            w <= tile@.width,
            h <= tile@.height,
            dx + w <= old(self)@.width,
            dy + h <= old(self)@.height,
        ensures
            final(self).wf(),
            final(self)@.width == old(self)@.width,
            final(self)@.height == old(self)@.height,
            forall|x: int, y: int|
                old(self)@.inside(x, y) ==> #[trigger] final(self)@.at(x, y) == if Image::in_rect(
                    x,
                    y,
                    dx as int,
                    dy as int,
                    w as int,
                    h as int,
                ) {
                    tile@.at(x - dx, y - dy)
                } else {
                    old(self)@.at(x, y)
                },
    {
        let ghost start = self@;
        let width = self.width;
        let mut j: u32 = 0;
        while j < h
            invariant
                self.wf(),
                tile.wf(),
                start.width == self@.width,
                start.height == self@.height,
                width == self@.width,
                w <= tile@.width,
                h <= tile@.height,
                dx + w <= start.width,
                dy + h <= start.height,
                j <= h,
                forall|x: int, y: int|
                    start.inside(x, y) ==> #[trigger] self@.at(x, y) == if Image::in_rect(
                        x,
                        y,
                        dx as int,
                        dy as int,
                        w as int,
                        j as int,
                    ) {
                        tile@.at(x - dx, y - dy)
                    } else {
                        start.at(x, y)
                    },
            decreases h - j,
        {
            let mut i: u32 = 0;
            while i < w
                invariant
                    self.wf(),
                    tile.wf(),
                    start.width == self@.width,
                    start.height == self@.height,
                    width == self@.width,
                    w <= tile@.width,
                    h <= tile@.height,
                    dx + w <= start.width,
                    dy + h <= start.height,
                    j < h,
                    i <= w,
                    forall|x: int, y: int|
                        start.inside(x, y) ==> #[trigger] self@.at(x, y) == if Image::in_rect(
                            x,
                            y,
                            dx as int,
                            dy as int,
                            w as int,
                            j as int,
                        ) || (y == dy + j && dx <= x < dx + i) {
                            tile@.at(x - dx, y - dy)
                        } else {
                            start.at(x, y)
                        },
                decreases w - i,
            {
                let p = tile.get_pixel(i, j);
                let tx: u32 = dx + i;
                let ty: u32 = dy + j;
                let ghost before = self@;
                proof {
                    self.lemma_fields();
                    lemma_index_in_grid(tx as int, ty as int, self.width as int, self.height as int);
                }
                let _n: usize = self.pixels.len();
                let idx: usize = ty as usize * width as usize + tx as usize;
                self.pixels[idx] = p;
                proof {
                    self.lemma_fields();
                    assert forall|x: int, y: int| start.inside(x, y) implies #[trigger] self@.at(x, y)
                        == if Image::in_rect(x, y, dx as int, dy as int, w as int, j as int) || (y == dy + j
                            && dx <= x < dx + i + 1) {
                        tile@.at(x - dx, y - dy)
                    } else {
                        start.at(x, y)
                    } by {
                        lemma_index_in_grid(x, y, self@.width as int, self@.height as int);
                        if x != tx || y != ty {
                            if y * (width as int) + x == idx as int {
                                lemma_index_unique(x, y, tx as int, ty as int, width as int);
                            }
                            assert(self@.at(x, y) == before.at(x, y));
                        }
                    }
                }
                i = i + 1;
            }
            j = j + 1;
        }
    }

    /// The least alpha over the rectangle `(x, y, w, h)`; 0 where it is empty.
    pub fn min_alpha_in(&self, x: u32, y: u32, w: u32, h: u32) -> (r: u8)
        requires
            self.wf(),
            x + w <= self@.width,
            y + h <= self@.height,
        ensures
            self@.is_min_alpha(x as int, y as int, w as int, h as int, r),
    {
        if w == 0 || h == 0 {
            return 0;
        }
        let mut m: u8 = self.get_pixel(x, y).a;
        let ghost mut wx: int = x as int;
        let ghost mut wy: int = y as int;
        let mut j: u32 = 0;
        while j < h
            invariant
                self.wf(),
                x + w <= self@.width,
                y + h <= self@.height,
                0 < w,
                j <= h,
                x <= wx < x + w,
                y <= wy < y + h,
                self@.at(wx, wy).a == m,
                forall|i: int, k: int|
                    x <= i < x + w && y <= k < y + j ==> m <= #[trigger] self@.at(i, k).a,
            decreases h - j,
        {
            let mut i: u32 = 0;
            while i < w
                invariant
                    self.wf(),
                    x + w <= self@.width,
                    y + h <= self@.height,
                    j < h,
                    i <= w,
                    x <= wx < x + w,
                    y <= wy < y + h,
                    self@.at(wx, wy).a == m,
                    forall|a: int, k: int|
                        x <= a < x + w && y <= k < y + j ==> m <= #[trigger] self@.at(a, k).a,
                    forall|a: int| x <= a < x + i ==> m <= #[trigger] self@.at(a, y + j).a,
                decreases w - i,
            {
                let v = self.get_pixel(x + i, y + j).a;
                if v < m {
                    m = v;
                    proof {
                        wx = x + i;
                        wy = y + j;
                    }
                }
                i = i + 1;
            }
            j = j + 1;
        }
        m
    }
}

} // verus!
