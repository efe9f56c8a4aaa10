use vstd::prelude::*;
use crate::pixel::Pixel;
use crate::grid::{Image, in_grid, index_of, get_pixel, lemma_index_bounds};
use crate::interval::{SortableInterval, colors_at, sort_block, sort_interval, positions_in_grid};

verus! {

/// The diagonal neighbour of `pos`.
pub fn find_next(dims: (u32, u32), pos: (u32, u32)) -> (r: (u32, u32))
    requires
        pos.0 < u32::MAX,
        pos.1 < u32::MAX,
    ensures
        r.0 == pos.0 + 1,
        r.1 == pos.1 + 1,
{
    (pos.0 + 1, pos.1 + 1)
}

/// Where path `i` starts: paths fill vertical strips `spacing` pixels apart,
/// one path per row of each strip.
pub open spec fn path_start(i: int, height: int, spacing: int) -> (int, int) {
    ((i / height) * spacing, i % height)
}

/// The path traced through a flow field from `(x, y)` for at most `n`
/// pixels. The field is a table of steps stored like the image's pixels:
/// the step taken from `(x, y)` is `steps[y * width + x]`. The path ends
/// after `n` pixels, or as soon as its next position lies outside the image
/// (beyond `u32` included).
pub open spec fn traced(
    steps: Seq<(u32, u32)>,
    width: u32,
    height: u32,
    x: int,
    y: int,
    n: nat,
) -> Seq<(u32, u32)>
    decreases n,
{
    if n == 0 || !in_grid(width, height, x, y, false) {
        seq![]
    } else {
        let s = steps[index_of(width, x, y, false)];
        seq![(x as u32, y as u32)] + traced(steps, width, height, x + s.0, y + s.1, (n - 1) as nat)
    }
}

/// Path `i` of the vector-field strategy.
pub open spec fn vector_path(
    steps: Seq<(u32, u32)>,
    width: u32,
    height: u32,
    i: int,
    size: u32,
    spacing: u32,
) -> Seq<(u32, u32)> {
    let start = path_start(i, height as int, spacing as int);
    traced(steps, width, height, start.0, start.1, size as nat)
}

/// Path bounds: a traced path holds at most `n` positions, each inside the
/// image.
pub proof fn lemma_traced_bounds(steps: Seq<(u32, u32)>, width: u32, height: u32, x: int, y: int, n: nat)
    ensures
        traced(steps, width, height, x, y, n).len() <= n,
        forall|k: int|
            0 <= k < traced(steps, width, height, x, y, n).len() ==> in_grid(
                width,
                height,
                (#[trigger] traced(steps, width, height, x, y, n)[k]).0 as int,
                traced(steps, width, height, x, y, n)[k].1 as int,
                false,
            ),
    decreases n,
{
    if n > 0 && in_grid(width, height, x, y, false) {
        let s = steps[index_of(width, x, y, false)];
        let rest = traced(steps, width, height, x + s.0, y + s.1, (n - 1) as nat);
        lemma_traced_bounds(steps, width, height, x + s.0, y + s.1, (n - 1) as nat);
        let all = traced(steps, width, height, x, y, n);
        assert forall|k: int| 0 <= k < all.len() implies in_grid(
            width,
            height,
            (#[trigger] all[k]).0 as int,
            all[k].1 as int,
            false,
        ) by {
            if k > 0 {
                assert(all[k] == rest[k - 1]);
            }
        }
    }
}

/// `pixels` after each path in turn is sorted as one interval.
pub open spec fn sort_paths(
    pixels: Seq<Pixel>,
    width: u32,
    paths: Seq<Seq<(u32, u32)>>,
    reverse: bool,
) -> Seq<Pixel>
    decreases paths.len(),
{
    if paths.len() == 0 {
        pixels
    } else {
        sort_block(sort_paths(pixels, width, paths.drop_last(), reverse), width, paths.last(), reverse)
    }
}

/// Follows the flow field `steps` from `start` for at most `size` pixels,
/// stopping as soon as the path leaves the image, and collects the pixels
/// visited.
pub fn trace_path(img: &Image, steps: &Vec<(u32, u32)>, start: (u32, u32), size: u32) -> (r: SortableInterval)
    requires
        img.wf(),
        steps@.len() == img.pixels@.len(),
    ensures
        r.wf(),
        r.positions@ == traced(steps@, img.width, img.height, start.0 as int, start.1 as int, size as nat),
        r.colors() == colors_at(img.pixels@, img.width, r.positions@),
        positions_in_grid(r.positions@, *img, false),
{
    let ghost full = traced(steps@, img.width, img.height, start.0 as int, start.1 as int, size as nat);
    let mut interval = SortableInterval::new();
    let mut x: u32 = start.0;
    let mut y: u32 = start.1;
    let mut k: u32 = 0;
    let n: usize = steps.len();
    while k < size && x < img.width && y < img.height
        invariant_except_break
            interval.positions@ + traced(steps@, img.width, img.height, x as int, y as int, (size - k) as nat)
                == full,
        invariant
            img.wf(),
            n == steps@.len(),
            steps@.len() == img.pixels@.len(),
            interval.wf(),
            k <= size,
            full == traced(steps@, img.width, img.height, start.0 as int, start.1 as int, size as nat),
            interval.colors() == colors_at(img.pixels@, img.width, interval.positions@),
            positions_in_grid(interval.positions@, *img, false),
        ensures
            interval.positions@ == full,
            interval.wf(),
            interval.colors() == colors_at(img.pixels@, img.width, interval.positions@),
            positions_in_grid(interval.positions@, *img, false),
        decreases size - k,
    {
        let p = get_pixel(x, y, img, false);
        let ghost prev = interval.positions@;
        proof {
            lemma_index_bounds(img.width, img.height, x as int, y as int, false);
        }
        let i: usize = y as usize * img.width as usize + x as usize;
        let (dx, dy) = steps[i];
        let ghost rest = traced(
            steps@,
            img.width,
            img.height,
            x + dx,
            y + dy,
            (size - k - 1) as nat,
        );
        assert(traced(steps@, img.width, img.height, x as int, y as int, (size - k) as nat) == seq![
            (x, y),
        ] + rest);
        interval.add(p, (x, y));
        proof {
            assert(colors_at(img.pixels@, img.width, prev.push((x, y))) =~= colors_at(
                img.pixels@,
                img.width,
                prev,
            ).push(p));
            assert(prev.push((x, y)) + rest =~= prev + (seq![(x, y)] + rest));
        }
        k = k + 1;
        match (x.checked_add(dx), y.checked_add(dy)) {
            (Some(nx), Some(ny)) => {
                x = nx;
                y = ny;
            },
            _ => {
                proof {
                    assert(rest =~= seq![]);
                    assert(prev.push((x, y)) + rest =~= prev.push((x, y)));
                }
                break ;
            },
        }
    }
    interval
}

/// `after` is `before` with the `amount` paths of `vector_path` sorted in
/// turn.
pub open spec fn vector_result(
    before: Image,
    after: Image,
    reverse: bool,
    size: u32,
    amount: u32,
    spacing: u32,
    steps: Seq<(u32, u32)>,
) -> bool {
    &&& after.wf()
    &&& after.width == before.width
    &&& after.height == before.height
    &&& after.pixels@ == sort_paths(
        before.pixels@,
        before.width,
        Seq::new(
            amount as nat,
            |i: int| vector_path(steps, before.width, before.height, i, size, spacing),
        ),
        reverse,
    )
}

/// Traces path `i` of the vector-field strategy.
fn trace_nth(img: &Image, steps: &Vec<(u32, u32)>, i: u32, size: u32, spacing: u32) -> (r: SortableInterval)
    requires
        img.wf(),
        steps@.len() == img.pixels@.len(),
    ensures
        r.wf(),
        r.positions@ == vector_path(steps@, img.width, img.height, i as int, size, spacing),
        r.colors() == colors_at(img.pixels@, img.width, r.positions@),
        positions_in_grid(r.positions@, *img, false),
{
    let height = img.height;
    if height == 0 {
        return SortableInterval::new();
    }
    let column: u32 = i / height;
    let y: u32 = i % height;
    proof {
        assert(column as int * spacing as int <= u32::MAX as int * u32::MAX as int) by (nonlinear_arith);
    }
    let x: u64 = column as u64 * spacing as u64;
    if x <= u32::MAX as u64 {
        trace_path(img, steps, (x as u32, y), size)
    } else {
        SortableInterval::new()
    }
}

/// The vector-field strategy: `amount` paths of at most `size` pixels are
/// traced through the flow field `steps` (one step per pixel, stored like
/// the pixels), path `i` starting at `((i / height) * spacing, i % height)`,
/// and each path is sorted as one interval. Paths may cross, so a later one
/// may move pixels an earlier one placed.
pub fn run_vectorfield(
    img: &mut Image,
    reverse: bool,
    size: u32,
    amount: u32,
    spacing: u32,
    steps: &Vec<(u32, u32)>,
)
    requires
        old(img).wf(),
        steps@.len() == old(img).pixels@.len(),
    ensures
        vector_result(*old(img), *final(img), reverse, size, amount, spacing, steps@),
{
    let ghost all = Seq::new(
        amount as nat,
        |j: int| vector_path(steps@, old(img).width, old(img).height, j, size, spacing),
    );
    let mut i: u32 = 0;
    while i < amount
        invariant
            img.wf(),
            img.width == old(img).width,
            img.height == old(img).height,
            steps@.len() == img.pixels@.len(),
            i <= amount,
            all == Seq::new(
                amount as nat,
                |j: int| vector_path(steps@, old(img).width, old(img).height, j, size, spacing),
            ),
            img.pixels@ == sort_paths(old(img).pixels@, img.width, all.take(i as int), reverse),
        decreases amount - i,
    {
        let mut interval = trace_nth(img, steps, i, size, spacing);
        sort_interval(&mut interval, img, reverse, false);
        proof {
            assert(all.take(i + 1).drop_last() =~= all.take(i as int));
            assert(all.take(i + 1).last() == all[i as int]);
        }
        i = i + 1;
    }
    proof {
        assert(all.take(amount as int) =~= all);
    }
}

} // verus!
