use vstd::prelude::*;
use crate::pixel::Pixel;
use crate::grid::{Image, get_pixel};
use crate::interval::{SortableInterval, colors_at, sort_block, sort_interval, positions_in_grid};

verus! {

/// The positions `(x, y0)`, `(x, y0 + 1)`, ..., `n` of them.
pub open spec fn column_positions(x: int, y0: int, n: nat) -> Seq<(u32, u32)> {
    Seq::new(n, |j: int| (x as u32, (y0 + j) as u32))
}

/// The positions of the `bw` by `bh` block whose corner is `(x0, y0)`, column
/// after column, each column top to bottom.
pub open spec fn block_positions(x0: int, y0: int, bw: nat, bh: nat) -> Seq<(u32, u32)>
    decreases bw,
{
    if bw == 0 {
        seq![]
    } else {
        block_positions(x0, y0, (bw - 1) as nat, bh) + column_positions(x0 + bw - 1, y0, bh)
    }
}

/// `pixels` after the first `n` blocks of block column `bx` are sorted, top to bottom.
pub open spec fn sort_block_column(
    pixels: Seq<Pixel>,
    width: u32,
    bw: nat,
    bh: nat,
    bx: nat,
    n: nat,
    reverse: bool,
) -> Seq<Pixel>
    decreases n,
{
    if n == 0 {
        pixels
    } else {
        let m = (n - 1) as nat;
        sort_block(
            sort_block_column(pixels, width, bw, bh, bx, m, reverse),
            width,
            block_positions((bx * bw) as int, (m * bh) as int, bw, bh),
            reverse,
        )
    }
}

/// `pixels` after the blocks of the first `n` block columns are sorted, each
/// column holding `numy` blocks.
pub open spec fn sort_blocks(
    pixels: Seq<Pixel>,
    width: u32,
    bw: nat,
    bh: nat,
    numy: nat,
    n: nat,
    reverse: bool,
) -> Seq<Pixel>
    decreases n,
{
    if n == 0 {
        pixels
    } else {
        let m = (n - 1) as nat;
        sort_block_column(sort_blocks(pixels, width, bw, bh, numy, m, reverse), width, bw, bh, m, numy, reverse)
    }
}

proof fn lemma_block_fits(b: int, size: int, num: int, dim: int)
    requires
        0 <= b < num,
        0 <= size,
        size == dim / num,
        0 <= dim,
    ensures
        0 <= b * size,
        b * size + size <= dim,
{
    assert(num * size <= dim) by (nonlinear_arith)
        requires
            size == dim / num,
            0 < num,
            0 <= dim,
    ;
    assert(0 <= b * size && b * size + size <= num * size) by (nonlinear_arith)
        requires
            0 <= b < num,
            0 <= size,
    ;
}

/// Collects the block whose corner is `(x0, y0)` into an interval.
fn collect_block(img: &Image, x0: u32, y0: u32, bw: u32, bh: u32) -> (r: SortableInterval)
    requires
        img.wf(),
        x0 + bw <= img.width,
        y0 + bh <= img.height,
    ensures
        r.wf(),
        r.positions@ == block_positions(x0 as int, y0 as int, bw as nat, bh as nat),
        r.colors() == colors_at(img.pixels@, img.width, r.positions@),
        positions_in_grid(r.positions@, *img, false),
{
    let mut interval = SortableInterval::new();
    let mut kx: u32 = 0;
    while kx < bw
        invariant
            img.wf(),
            x0 + bw <= img.width,
            y0 + bh <= img.height,
            kx <= bw,
            interval.wf(),
            interval.positions@ == block_positions(x0 as int, y0 as int, kx as nat, bh as nat),
            interval.colors() == colors_at(img.pixels@, img.width, interval.positions@),
            positions_in_grid(interval.positions@, *img, false),
        decreases bw - kx,
    {
        let ghost done = interval.positions@;
        let mut ky: u32 = 0;
        while ky < bh
            invariant
                img.wf(),
                x0 + bw <= img.width,
                y0 + bh <= img.height,
                kx < bw,
                ky <= bh,
                interval.wf(),
                interval.positions@ == done + column_positions(x0 + kx, y0 as int, ky as nat),
                interval.colors() == colors_at(img.pixels@, img.width, interval.positions@),
                positions_in_grid(interval.positions@, *img, false),
            decreases bh - ky,
        {
            let pos = (x0 + kx, y0 + ky);
            let p = get_pixel(pos.0, pos.1, img, false);
            let ghost prev = interval.positions@;
            interval.add(p, pos);
            proof {
                assert(done + column_positions(x0 + kx, y0 as int, (ky + 1) as nat) =~= (done
                    + column_positions(x0 + kx, y0 as int, ky as nat)).push(pos));
                assert(colors_at(img.pixels@, img.width, prev.push(pos)) =~= colors_at(
                    img.pixels@,
                    img.width,
                    prev,
                ).push(p));
            }
            ky = ky + 1;
        }
        proof {
            assert(block_positions(x0 as int, y0 as int, (kx + 1) as nat, bh as nat) =~= done
                + column_positions(x0 + kx, y0 as int, bh as nat));
        }
        kx = kx + 1;
    }
    interval
}

/// `after` is `before` with its `numx` by `numy` blocks sorted in turn.
pub open spec fn kernel_result(before: Image, after: Image, reverse: bool, numx: u32, numy: u32) -> bool {
    &&& after.wf()
    &&& after.width == before.width
    &&& after.height == before.height
    &&& after.pixels@ == sort_blocks(
        before.pixels@,
        before.width,
        (before.width / numx) as nat,
        (before.height / numy) as nat,
        numy as nat,
        numx as nat,
        reverse,
    )
}

/// The kernel strategy: the image is cut into `numx` by `numy` blocks of
/// `width / numx` by `height / numy` pixels, and each block is sorted as one
/// interval. Blocks go column by column; the remainder at the right and
/// bottom edges is left as it is.
pub fn run_kernel(img: &mut Image, reverse: bool, numx: u32, numy: u32)
    requires
        old(img).wf(),
        numx > 0,
        numy > 0,
    ensures
        kernel_result(*old(img), *final(img), reverse, numx, numy),
{
    let bw: u32 = img.width / numx;
    let bh: u32 = img.height / numy;
    let ghost start = img.pixels@;
    let mut x: u32 = 0;
    while x < numx
        invariant
            img.wf(),
            img.width == old(img).width,
            img.height == old(img).height,
            bw == img.width / numx,
            bh == img.height / numy,
            start == old(img).pixels@,
            numx > 0,
            numy > 0,
            x <= numx,
            img.pixels@ == sort_blocks(start, img.width, bw as nat, bh as nat, numy as nat, x as nat, reverse),
        decreases numx - x,
    {
        let ghost column_start = img.pixels@;
        let mut y: u32 = 0;
        while y < numy
            invariant
                img.wf(),
                img.width == old(img).width,
                img.height == old(img).height,
                bw == img.width / numx,
                bh == img.height / numy,
                numx > 0,
                numy > 0,
                x < numx,
                y <= numy,
                column_start == sort_blocks(start, img.width, bw as nat, bh as nat, numy as nat, x as nat, reverse),
                img.pixels@ == sort_block_column(column_start, img.width, bw as nat, bh as nat, x as nat, y as nat, reverse),
            decreases numy - y,
        {
            proof {
                lemma_block_fits(x as int, bw as int, numx as int, img.width as int);
                lemma_block_fits(y as int, bh as int, numy as int, img.height as int);
            }
            let mut interval = collect_block(img, x * bw, y * bh, bw, bh);
            sort_interval(&mut interval, img, reverse, false);
            y = y + 1;
        }
        x = x + 1;
    }
}

} // verus!
