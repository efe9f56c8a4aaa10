use vstd::prelude::*;
use crate::pixel::Pixel;

verus! {

/// A raster image held row by row: the pixel at `(x, y)` is stored at
/// `y * width + x`.
pub struct Image {
    pub width: u32,
    pub height: u32,
    pub pixels: Vec<Pixel>,
}

/// Where the pixel addressed by `(x, y)` is stored; with `swap` the two
/// coordinates are exchanged first.
pub open spec fn index_of(width: u32, x: int, y: int, swap: bool) -> int {
    if swap {
        x * width + y
    } else {
        y * width + x
    }
}

/// Whether `(x, y)` addresses a pixel of a `width` by `height` grid, the
/// coordinates being exchanged first when `swap` holds.
pub open spec fn in_grid(width: u32, height: u32, x: int, y: int, swap: bool) -> bool {
    if swap {
        0 <= y < width && 0 <= x < height
    } else {
        0 <= x < width && 0 <= y < height
    }
}

pub proof fn lemma_index_bounds(width: u32, height: u32, x: int, y: int, swap: bool)
    requires
        in_grid(width, height, x, y, swap),
    ensures
        0 <= index_of(width, x, y, swap) < width * height,
        0 <= (if swap { x } else { y }) * width <= index_of(width, x, y, swap),
{
    let (cx, cy) = if swap { (y, x) } else { (x, y) };
    assert(0 <= cy * width <= cy * width + cx < width * height) by (nonlinear_arith)
        requires
            0 <= cx < width,
            0 <= cy < height,
    ;
}

pub proof fn lemma_index_injective(
    width: u32,
    height: u32,
    x1: int,
    y1: int,
    x2: int,
    y2: int,
    swap: bool,
)
    requires
        in_grid(width, height, x1, y1, swap),
        in_grid(width, height, x2, y2, swap),
        index_of(width, x1, y1, swap) == index_of(width, x2, y2, swap),
    ensures
        x1 == x2 && y1 == y2,
{
    let (a1, b1, a2, b2) = if swap { (y1, x1, y2, x2) } else { (x1, y1, x2, y2) };
    assert(a1 == a2 && b1 == b2) by (nonlinear_arith)
        requires
            0 <= a1 < width,
            0 <= a2 < width,
            0 <= b1,
            0 <= b2,
            b1 * width + a1 == b2 * width + a2,
    {
        if b1 < b2 {
            assert(b1 * width + width <= b2 * width);
        } else if b2 < b1 {
            assert(b2 * width + width <= b1 * width);
        }
    }
}

/// Every stored pixel is addressed by some position of the grid.
pub proof fn lemma_index_onto(width: u32, height: u32, i: int, swap: bool)
    requires
        0 <= i < width * height,
    ensures
        exists|x: int, y: int| in_grid(width, height, x, y, swap) && index_of(width, x, y, swap) == i,
{
    let w = width as int;
    if w == 0 {
        assert(width * height == 0);
    }
    vstd::arithmetic::div_mod::lemma_fundamental_div_mod(i, w);
    vstd::arithmetic::div_mod::lemma_mod_bound(i, w);
    let q = i / w;
    let r = i % w;
    assert(0 <= q < height) by (nonlinear_arith)
        requires
            i == w * q + r,
            0 <= r < w,
            0 <= i < w * height,
            w > 0,
    ;
    if swap {
        assert(in_grid(width, height, q, r, swap) && index_of(width, q, r, swap) == i);
    } else {
        assert(in_grid(width, height, r, q, swap) && index_of(width, r, q, swap) == i);
    }
}

impl Image {
    /// The pixel vector holds exactly one value per grid position.
    pub open spec fn wf(&self) -> bool {
        self.pixels@.len() == self.width as int * self.height as int
    }

    /// The pixel at `(x, y)`, the coordinates being exchanged when `swap` holds.
    pub open spec fn at(&self, x: int, y: int, swap: bool) -> Pixel {
        self.pixels@[index_of(self.width, x, y, swap)]
    }

    /// How many pixels a scanned row holds: the width, or the height when
    /// the axes are swapped.
    pub open spec fn row_len(&self, swap: bool) -> int {
        if swap {
            self.height as int
        } else {
            self.width as int
        }
    }

    /// How many rows a scan visits.
    pub open spec fn row_count(&self, swap: bool) -> int {
        if swap {
            self.width as int
        } else {
            self.height as int
        }
    }

    /// Row `y` as a scan sees it: a column of the image when `swap` holds.
    pub open spec fn row(&self, y: int, swap: bool) -> Seq<Pixel> {
        Seq::new(self.row_len(swap) as nat, |x: int| self.at(x, y, swap))
    }

    /// Builds an image from its rows laid end to end; `None` where the
    /// number of pixels is not `width * height`.
    pub fn new(width: u32, height: u32, pixels: Vec<Pixel>) -> (r: Option<Image>)
        ensures
            r is Some <==> pixels@.len() == width as int * height as int,
            r matches Some(img) ==> img.wf() && img.width == width && img.height == height
                && img.pixels@ == pixels@,
    {
        proof {
            assert(width as int * height as int <= u32::MAX as int * u32::MAX as int)
                by (nonlinear_arith);
        }
        let n: u64 = (width as u64) * (height as u64);
        if pixels.len() as u64 == n {
            Some(Image { width, height, pixels })
        } else {
            None
        }
    }

    /// Width and height.
    pub fn dimensions(&self) -> (r: (u32, u32))
        ensures
            r == (self.width, self.height),
    {
        (self.width, self.height)
    }
}

/// Reads the pixel at `(x, y)`, or at `(y, x)` when `swap` holds.
pub fn get_pixel(x: u32, y: u32, img: &Image, swap: bool) -> (p: Pixel)
    requires
        img.wf(),
        in_grid(img.width, img.height, x as int, y as int, swap),
    ensures
        p == img.at(x as int, y as int, swap),
{
    proof {
        lemma_index_bounds(img.width, img.height, x as int, y as int, swap);
    }
    let n: usize = img.pixels.len();
    assert(index_of(img.width, x as int, y as int, swap) < n);
    let i: usize = if swap {
        x as usize * img.width as usize + y as usize
    } else {
        y as usize * img.width as usize + x as usize
    };
    img.pixels[i]
}

/// Writes `rgba` at `(x, y)`, or at `(y, x)` when `swap` holds.
pub fn put_pixel(x: u32, y: u32, rgba: Pixel, img: &mut Image, swap: bool)
    requires
        old(img).wf(),
        in_grid(old(img).width, old(img).height, x as int, y as int, swap),
    ensures
        final(img).wf(),
        final(img).width == old(img).width,
        final(img).height == old(img).height,
        final(img).pixels@ == old(img).pixels@.update(
            index_of(old(img).width, x as int, y as int, swap),
            rgba,
        ),
{
    proof {
        lemma_index_bounds(img.width, img.height, x as int, y as int, swap);
    }
    let n: usize = img.pixels.len();
    assert(index_of(img.width, x as int, y as int, swap) < n);
    let i: usize = if swap {
        x as usize * img.width as usize + y as usize
    } else {
        y as usize * img.width as usize + x as usize
    };
    img.pixels.set(i, rgba);
}

} // verus!
