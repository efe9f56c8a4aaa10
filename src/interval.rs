use vstd::prelude::*;
use crate::pixel::{Pixel, brightness, brightness_of};
use crate::grid::{Image, index_of, in_grid, put_pixel, lemma_index_bounds, lemma_index_injective};

verus! {

/// A pixel with its brightness computed once.
#[derive(Clone, Copy, PartialEq, Eq, Structural, Debug)]
pub struct SortablePixel {
    pub rgba: Pixel,
    pub brightness: u32,
}

impl SortablePixel {
    pub open spec fn wf(&self) -> bool {
        self.brightness == brightness_of(self.rgba)
    }

    pub fn from_rgba(rgba: Pixel) -> (r: SortablePixel)
        ensures
            r.rgba == rgba,
            r.wf(),
    {
        SortablePixel { rgba, brightness: brightness(&rgba) }
    }
}

/// A group of pixels to be resorted together, with the position each one
/// was read from.
pub struct SortableInterval {
    pub pixels: Vec<SortablePixel>,
    pub positions: Vec<(u32, u32)>,
}

/// Inserts `p` into `s` after every element at least as bright as `p`,
/// scanning from the back.
pub open spec fn insert_desc(s: Seq<Pixel>, p: Pixel) -> Seq<Pixel>
    decreases s.len(),
{
    if s.len() == 0 {
        seq![p]
    } else if brightness_of(s.last()) >= brightness_of(p) {
        s.push(p)
    } else {
        insert_desc(s.drop_last(), p).push(s.last())
    }
}

/// The stable sort of `s` by descending brightness: pixels of equal
/// brightness keep their relative order.
pub open spec fn sort_desc(s: Seq<Pixel>) -> Seq<Pixel>
    decreases s.len(),
{
    if s.len() == 0 {
        s
    } else {
        insert_desc(sort_desc(s.drop_last()), s.last())
    }
}

/// The order in which sorted pixels are laid on an interval's positions:
/// as sorted, or mirrored.
pub open spec fn arrange(sorted: Seq<Pixel>, reverse: bool) -> Seq<Pixel> {
    if reverse {
        sorted.reverse()
    } else {
        sorted
    }
}

/// `s` after writing `values[k]` at `positions[k]`, for `k` in increasing order.
pub open spec fn write_all(
    s: Seq<Pixel>,
    width: u32,
    positions: Seq<(u32, u32)>,
    values: Seq<Pixel>,
    swap: bool,
) -> Seq<Pixel>
    decreases positions.len(),
{
    if positions.len() == 0 {
        s
    } else {
        let k = positions.len() - 1;
        write_all(s, width, positions.drop_last(), values, swap).update(
            index_of(width, positions[k].0 as int, positions[k].1 as int, swap),
            values[k],
        )
    }
}

pub open spec fn is_sorted_desc(s: Seq<Pixel>) -> bool {
    forall|i: int, j: int| 0 <= i < j < s.len() ==> brightness_of(s[i]) >= brightness_of(s[j])
}

impl SortableInterval {
    pub open spec fn wf(&self) -> bool {
        &&& self.pixels@.len() == self.positions@.len()
        &&& forall|i: int| 0 <= i < self.pixels@.len() ==> (#[trigger] self.pixels@[i]).wf()
    }

    /// The pixel values, in interval order.
    pub open spec fn colors(&self) -> Seq<Pixel> {
        self.pixels@.map_values(|p: SortablePixel| p.rgba)
    }

    pub fn new() -> (r: SortableInterval)
        ensures
            r.wf(),
            r.pixels@.len() == 0,
            r.positions@.len() == 0,
    {
        SortableInterval { pixels: Vec::new(), positions: Vec::new() }
    }

    /// Appends a pixel together with the position it was read from.
    pub fn add(&mut self, rgba: Pixel, pos: (u32, u32))
        requires
            old(self).wf(),
        ensures
            final(self).wf(),
            final(self).colors() == old(self).colors().push(rgba),
            final(self).positions@ == old(self).positions@.push(pos),
    {
        self.pixels.push(SortablePixel::from_rgba(rgba));
        self.positions.push(pos);
        proof {
            assert(self.colors() =~= old(self).colors().push(rgba));
        }
    }
}

proof fn lemma_insert_desc_at(s: Seq<Pixel>, p: Pixel, j: int)
    requires
        0 <= j <= s.len(),
        j == 0 || brightness_of(s[j - 1]) >= brightness_of(p),
        forall|k: int| j <= k < s.len() ==> brightness_of(#[trigger] s[k]) < brightness_of(p),
    ensures
        insert_desc(s, p) == s.insert(j, p),
    decreases s.len(),
{
    if s.len() == 0 {
        assert(s.insert(j, p) =~= seq![p]);
    } else if j == s.len() {
        assert(s.insert(j, p) =~= s.push(p));
    } else {
        assert(brightness_of(s.last()) < brightness_of(p));
        lemma_insert_desc_at(s.drop_last(), p, j);
        assert(s.drop_last().insert(j, p).push(s.last()) =~= s.insert(j, p));
    }
}

/// Sorts the pixels by descending brightness, keeping the relative order of
/// pixels of equal brightness.
fn sort_pixels(v: &mut Vec<SortablePixel>)
    requires
        forall|i: int| 0 <= i < old(v)@.len() ==> (#[trigger] old(v)@[i]).wf(),
    ensures
        final(v)@.len() == old(v)@.len(),
        forall|i: int| 0 <= i < final(v)@.len() ==> (#[trigger] final(v)@[i]).wf(),
        final(v)@.map_values(|p: SortablePixel| p.rgba) == sort_desc(
            old(v)@.map_values(|p: SortablePixel| p.rgba),
        ),
{
    let ghost input = v@.map_values(|p: SortablePixel| p.rgba);
    let mut sorted: Vec<SortablePixel> = Vec::new();
    let n = v.len();
    let mut i: usize = 0;
    while i < n
        invariant
            n == v@.len(),
            i <= n,
            sorted@.len() == i,
            input == v@.map_values(|p: SortablePixel| p.rgba),
            forall|k: int| 0 <= k < v@.len() ==> (#[trigger] v@[k]).wf(),
            forall|k: int| 0 <= k < sorted@.len() ==> (#[trigger] sorted@[k]).wf(),
            sorted@.map_values(|p: SortablePixel| p.rgba) == sort_desc(input.take(i as int)),
        decreases n - i,
    {
        let p = v[i];
        let mut j: usize = sorted.len();
        while j > 0 && sorted[j - 1].brightness < p.brightness
            invariant
                j <= sorted@.len(),
                p.wf(),
                forall|k: int| 0 <= k < sorted@.len() ==> (#[trigger] sorted@[k]).wf(),
                forall|k: int|
                    j <= k < sorted@.len() ==> (#[trigger] sorted@[k]).brightness < p.brightness,
            decreases j,
        {
            j = j - 1;
        }
        let ghost before = sorted@.map_values(|q: SortablePixel| q.rgba);
        proof {
            assert(j == 0 || brightness_of(before[j - 1]) >= brightness_of(p.rgba)) by {
                if j > 0 {
                    assert(sorted@[j - 1].wf());
                }
            }
            assert forall|k: int| j <= k < before.len() implies brightness_of(
                #[trigger] before[k],
            ) < brightness_of(p.rgba) by {
                assert(sorted@[k].wf());
            }
            lemma_insert_desc_at(before, p.rgba, j as int);
            assert(input.take(i + 1).drop_last() =~= input.take(i as int));
        }
        sorted.insert(j, p);
        proof {
            assert(sorted@.map_values(|q: SortablePixel| q.rgba) =~= before.insert(j as int, p.rgba));
        }
        i = i + 1;
    }
    proof {
        assert(input.take(n as int) =~= input);
    }
    *v = sorted;
}

/// The pixels found at `positions`, in order.
pub open spec fn colors_at(pixels: Seq<Pixel>, width: u32, positions: Seq<(u32, u32)>) -> Seq<Pixel> {
    positions.map_values(|p: (u32, u32)| pixels[index_of(width, p.0 as int, p.1 as int, false)])
}

/// `pixels` after the pixels at `positions` are sorted and laid back.
pub open spec fn sort_block(
    pixels: Seq<Pixel>,
    width: u32,
    positions: Seq<(u32, u32)>,
    reverse: bool,
) -> Seq<Pixel> {
    write_all(pixels, width, positions, arrange(sort_desc(colors_at(pixels, width, positions)), reverse), false)
}

pub proof fn lemma_insert_desc(s: Seq<Pixel>, p: Pixel)
    ensures
        insert_desc(s, p).len() == s.len() + 1,
        forall|i: int|
            0 <= i < insert_desc(s, p).len() ==> #[trigger] insert_desc(s, p)[i] == p || exists|j: int|
                0 <= j < s.len() && insert_desc(s, p)[i] == s[j],
        is_sorted_desc(s) ==> is_sorted_desc(insert_desc(s, p)),
    decreases s.len(),
{
    let r = insert_desc(s, p);
    if s.len() == 0 {
    } else if brightness_of(s.last()) >= brightness_of(p) {
        assert forall|i: int| 0 <= i < r.len() implies #[trigger] r[i] == p || exists|j: int|
            0 <= j < s.len() && r[i] == s[j] by {
            if i < s.len() {
                assert(r[i] == s[i]);
            }
        }
    } else {
        let t = s.drop_last();
        lemma_insert_desc(t, p);
        let q = insert_desc(t, p);
        assert forall|i: int| 0 <= i < r.len() implies #[trigger] r[i] == p || exists|j: int|
            0 <= j < s.len() && r[i] == s[j] by {
            if i < q.len() {
                assert(r[i] == q[i]);
                if q[i] != p {
                    let j = choose|j: int| 0 <= j < t.len() && q[i] == t[j];
                    assert(s[j] == t[j]);
                }
            } else {
                assert(r[i] == s[s.len() - 1]);
            }
        }
        if is_sorted_desc(s) {
            assert(is_sorted_desc(t));
            assert forall|i: int, j: int| 0 <= i < j < r.len() implies brightness_of(r[i]) >= brightness_of(
                r[j],
            ) by {
                if j == q.len() {
                    assert(r[i] == q[i]);
                    if q[i] != p {
                        let k = choose|k: int| 0 <= k < t.len() && q[i] == t[k];
                        assert(s[k] == t[k]);
                    }
                } else {
                    assert(r[i] == q[i] && r[j] == q[j]);
                }
            }
        }
    }
}

pub proof fn lemma_sort_desc(s: Seq<Pixel>)
    ensures
        sort_desc(s).len() == s.len(),
        is_sorted_desc(sort_desc(s)),
        forall|i: int|
            0 <= i < s.len() ==> exists|j: int| 0 <= j < s.len() && #[trigger] sort_desc(s)[i] == s[j],
    decreases s.len(),
{
    if s.len() > 0 {
        let t = s.drop_last();
        lemma_sort_desc(t);
        lemma_insert_desc(sort_desc(t), s.last());
        let r = sort_desc(s);
        assert forall|i: int| 0 <= i < s.len() implies exists|j: int| 0 <= j < s.len() && #[trigger] r[i] == s[j] by {
            if r[i] == s.last() {
                assert(r[i] == s[s.len() - 1]);
            } else {
                let k = choose|k: int| 0 <= k < t.len() && r[i] == sort_desc(t)[k];
                let m = choose|m: int| 0 <= m < t.len() && sort_desc(t)[k] == t[m];
                assert(s[m] == t[m]);
            }
        }
    }
}

proof fn lemma_insert_desc_multiset(s: Seq<Pixel>, p: Pixel)
    ensures
        insert_desc(s, p).to_multiset() == s.to_multiset().insert(p),
    decreases s.len(),
{
    broadcast use vstd::seq_lib::to_multiset_build, vstd::multiset::group_multiset_axioms;

    if s.len() == 0 {
        assert(insert_desc(s, p) == s.push(p));
    } else if brightness_of(s.last()) >= brightness_of(p) {
    } else {
        let t = s.drop_last();
        lemma_insert_desc_multiset(t, p);
        assert(t.push(s.last()) =~= s);
        assert(insert_desc(s, p).to_multiset() =~= s.to_multiset().insert(p));
    }
}

/// Sorting only reorders: the sorted sequence holds the same pixels, each
/// as many times.
pub proof fn lemma_sort_desc_permutation(s: Seq<Pixel>)
    ensures
        sort_desc(s).to_multiset() == s.to_multiset(),
    decreases s.len(),
{
    broadcast use vstd::seq_lib::to_multiset_build;

    if s.len() > 0 {
        let t = s.drop_last();
        lemma_sort_desc_permutation(t);
        lemma_insert_desc_multiset(sort_desc(t), s.last());
        assert(t.push(s.last()) =~= s);
    }
}

pub proof fn lemma_sort_desc_len(s: Seq<Pixel>)
    ensures
        sort_desc(s).len() == s.len(),
{
    lemma_sort_desc(s);
}

/// Pixels of equal brightness in `s` are equal pixels.
pub open spec fn ties_are_equal(s: Seq<Pixel>) -> bool {
    forall|i: int, j: int|
        0 <= i < s.len() && 0 <= j < s.len() && brightness_of(#[trigger] s[i]) == brightness_of(#[trigger] s[j])
            ==> s[i] == s[j]
}

pub open spec fn is_sorted_asc(s: Seq<Pixel>) -> bool {
    forall|i: int, j: int| 0 <= i < j < s.len() ==> brightness_of(s[i]) <= brightness_of(s[j])
}

proof fn lemma_insert_desc_front(u: Seq<Pixel>, p: Pixel)
    requires
        is_sorted_desc(u),
        forall|k: int| 0 <= k < u.len() ==> brightness_of(#[trigger] u[k]) <= brightness_of(p),
        forall|k: int| 0 <= k < u.len() && brightness_of(#[trigger] u[k]) == brightness_of(p) ==> u[k] == p,
    ensures
        insert_desc(u, p) == seq![p] + u,
    decreases u.len(),
{
    if u.len() == 0 {
        assert(seq![p] + u =~= seq![p]);
    } else if brightness_of(u.last()) >= brightness_of(p) {
        assert forall|k: int| 0 <= k < u.len() implies u[k] == p by {
            if k < u.len() - 1 {
                assert(brightness_of(u[k]) >= brightness_of(u[u.len() - 1]));
            }
        }
        assert(u.push(p) =~= seq![p] + u);
    } else {
        lemma_insert_desc_front(u.drop_last(), p);
        assert((seq![p] + u.drop_last()).push(u.last()) =~= seq![p] + u);
    }
}

/// Sorting an ascending sequence whose equally bright pixels are equal
/// reverses it.
pub proof fn lemma_sort_desc_ascending(s: Seq<Pixel>)
    requires
        is_sorted_asc(s),
        ties_are_equal(s),
    ensures
        sort_desc(s) == s.reverse(),
    decreases s.len(),
{
    if s.len() == 0 {
        assert(s.reverse() =~= s);
    } else {
        let t = s.drop_last();
        let p = s.last();
        assert(is_sorted_asc(t));
        assert forall|i: int, j: int|
            0 <= i < t.len() && 0 <= j < t.len() && brightness_of(#[trigger] t[i]) == brightness_of(#[trigger] t[j])
                implies t[i] == t[j] by {
            assert(t[i] == s[i] && t[j] == s[j]);
        }
        lemma_sort_desc_ascending(t);
        let u = t.reverse();
        assert forall|k: int| 0 <= k < u.len() implies brightness_of(#[trigger] u[k]) <= brightness_of(p) by {
            assert(u[k] == s[t.len() - 1 - k]);
        }
        assert forall|k: int| 0 <= k < u.len() && brightness_of(#[trigger] u[k]) == brightness_of(p) implies u[k]
            == p by {
            assert(u[k] == s[t.len() - 1 - k]);
            assert(p == s[s.len() - 1]);
        }
        assert(is_sorted_desc(u)) by {
            assert forall|i: int, j: int| 0 <= i < j < u.len() implies brightness_of(u[i]) >= brightness_of(u[j]) by {
                assert(u[i] == s[t.len() - 1 - i] && u[j] == s[t.len() - 1 - j]);
            }
        }
        lemma_insert_desc_front(u, p);
        assert(seq![p] + u =~= s.reverse());
    }
}

/// Sorting a sequence that is already in descending order changes nothing.
pub proof fn lemma_sort_desc_sorted(s: Seq<Pixel>)
    requires
        is_sorted_desc(s),
    ensures
        sort_desc(s) == s,
    decreases s.len(),
{
    if s.len() > 0 {
        let t = s.drop_last();
        assert(is_sorted_desc(t));
        lemma_sort_desc_sorted(t);
        if t.len() > 0 {
            assert(brightness_of(t.last()) >= brightness_of(s.last()));
        }
        assert(t.push(s.last()) =~= s);
    }
}

/// Where no two positions address the same pixel, writing `values` leaves
/// `values[k]` at `positions[k]` and every other pixel as it was.
pub proof fn lemma_write_all_distinct(
    pixels: Seq<Pixel>,
    width: u32,
    height: u32,
    positions: Seq<(u32, u32)>,
    values: Seq<Pixel>,
    swap: bool,
)
    requires
        pixels.len() == width * height,
        positions.len() <= values.len(),
        positions.no_duplicates(),
        forall|k: int|
            0 <= k < positions.len() ==> in_grid(
                width,
                height,
                (#[trigger] positions[k]).0 as int,
                positions[k].1 as int,
                swap,
            ),
    ensures
        write_all(pixels, width, positions, values, swap).len() == pixels.len(),
        forall|k: int|
            0 <= k < positions.len() ==> #[trigger] write_all(pixels, width, positions, values, swap)[index_of(
                width,
                positions[k].0 as int,
                positions[k].1 as int,
                swap,
            )] == values[k],
        forall|x: int, y: int|
            in_grid(width, height, x, y, swap) && !positions.contains((x as u32, y as u32)) ==> #[trigger] write_all(
                pixels,
                width,
                positions,
                values,
                swap,
            )[index_of(width, x, y, swap)] == pixels[index_of(width, x, y, swap)],
    decreases positions.len(),
{
    if positions.len() > 0 {
        let n = positions.len() - 1;
        let prev = positions.drop_last();
        assert forall|k: int| 0 <= k < prev.len() implies in_grid(
            width,
            height,
            (#[trigger] prev[k]).0 as int,
            prev[k].1 as int,
            swap,
        ) by {
            assert(prev[k] == positions[k]);
        }
        lemma_write_all_distinct(pixels, width, height, prev, values, swap);
        let last = positions[n];
        assert(in_grid(width, height, last.0 as int, last.1 as int, swap));
        lemma_index_bounds(width, height, last.0 as int, last.1 as int, swap);
        let r = write_all(pixels, width, positions, values, swap);
        let r0 = write_all(pixels, width, prev, values, swap);
        assert forall|k: int| 0 <= k < positions.len() implies #[trigger] r[index_of(
            width,
            positions[k].0 as int,
            positions[k].1 as int,
            swap,
        )] == values[k] by {
            assert(in_grid(width, height, positions[k].0 as int, positions[k].1 as int, swap));
            lemma_index_bounds(width, height, positions[k].0 as int, positions[k].1 as int, swap);
            if k < n {
                assert(prev[k] == positions[k]);
                if index_of(width, positions[k].0 as int, positions[k].1 as int, swap) == index_of(
                    width,
                    last.0 as int,
                    last.1 as int,
                    swap,
                ) {
                    lemma_index_injective(
                        width,
                        height,
                        positions[k].0 as int,
                        positions[k].1 as int,
                        last.0 as int,
                        last.1 as int,
                        swap,
                    );
                    assert(positions[k] == last);
                }
            }
        }
        assert forall|x: int, y: int|
            in_grid(width, height, x, y, swap) && !positions.contains((x as u32, y as u32)) implies #[trigger] r[index_of(
                width,
                x,
                y,
                swap,
            )] == pixels[index_of(width, x, y, swap)] by {
            lemma_index_bounds(width, height, x, y, swap);
            if !prev.contains((x as u32, y as u32)) {
                assert(r0[index_of(width, x, y, swap)] == pixels[index_of(width, x, y, swap)]);
            } else {
                let j = choose|j: int| 0 <= j < prev.len() && prev[j] == (x as u32, y as u32);
                assert(positions[j] == prev[j]);
            }
            if index_of(width, x, y, swap) == index_of(width, last.0 as int, last.1 as int, swap) {
                lemma_index_injective(width, height, x, y, last.0 as int, last.1 as int, swap);
                assert(positions[n] == (x as u32, y as u32));
            }
        }
    }
}

/// The placement law: where the positions are distinct, position `k`
/// receives the pixel of sorted rank `k`, or of rank `len - 1 - k` when
/// `reverse` holds.
pub proof fn lemma_placement(
    pixels: Seq<Pixel>,
    width: u32,
    height: u32,
    positions: Seq<(u32, u32)>,
    colors: Seq<Pixel>,
    reverse: bool,
    swap: bool,
)
    requires
        pixels.len() == width * height,
        colors.len() == positions.len(),
        positions.no_duplicates(),
        forall|k: int|
            0 <= k < positions.len() ==> in_grid(
                width,
                height,
                (#[trigger] positions[k]).0 as int,
                positions[k].1 as int,
                swap,
            ),
    ensures
        forall|k: int|
            0 <= k < positions.len() ==> #[trigger] write_all(
                pixels,
                width,
                positions,
                arrange(sort_desc(colors), reverse),
                swap,
            )[index_of(width, positions[k].0 as int, positions[k].1 as int, swap)] == if reverse {
                sort_desc(colors)[positions.len() - 1 - k]
            } else {
                sort_desc(colors)[k]
            },
{
    lemma_sort_desc_len(colors);
    lemma_write_all_distinct(pixels, width, height, positions, arrange(sort_desc(colors), reverse), swap);
}

/// Sorting one interval whose positions are distinct permutes the pixels at
/// those positions and changes no other pixel.
pub proof fn lemma_sort_block_permutes(
    pixels: Seq<Pixel>,
    width: u32,
    height: u32,
    positions: Seq<(u32, u32)>,
    reverse: bool,
)
    requires
        pixels.len() == width * height,
        positions.no_duplicates(),
        forall|k: int|
            0 <= k < positions.len() ==> in_grid(
                width,
                height,
                (#[trigger] positions[k]).0 as int,
                positions[k].1 as int,
                false,
            ),
    ensures
        sort_block(pixels, width, positions, reverse).len() == pixels.len(),
        colors_at(sort_block(pixels, width, positions, reverse), width, positions).to_multiset()
            == colors_at(pixels, width, positions).to_multiset(),
        forall|x: int, y: int|
            in_grid(width, height, x, y, false) && !positions.contains((x as u32, y as u32))
                ==> #[trigger] sort_block(pixels, width, positions, reverse)[index_of(width, x, y, false)]
                == pixels[index_of(width, x, y, false)],
{
    let colors = colors_at(pixels, width, positions);
    let placed = arrange(sort_desc(colors), reverse);
    lemma_sort_desc_len(colors);
    lemma_write_all_distinct(pixels, width, height, positions, placed, false);
    let out = sort_block(pixels, width, positions, reverse);
    assert(colors_at(out, width, positions) =~= placed);
    lemma_sort_desc_permutation(colors);
    if reverse {
        sort_desc(colors).lemma_reverse_to_multiset();
    }
}

/// Every position of the interval addresses a pixel of the image.
pub open spec fn positions_in_grid(positions: Seq<(u32, u32)>, img: Image, swap: bool) -> bool {
    forall|k: int|
        0 <= k < positions.len() ==> in_grid(
            img.width,
            img.height,
            (#[trigger] positions[k]).0 as int,
            positions[k].1 as int,
            swap,
        )
}

/// Sorts the interval's pixels by descending brightness (stable) and writes
/// them back to its positions: rank `k` goes to `positions[k]`, or to
/// `positions[len - 1 - k]` when `reverse` holds. With `vertical` the
/// positions address the image transposed.
pub fn sort_interval(
    interval: &mut SortableInterval,
    img: &mut Image,
    reverse: bool,
    vertical: bool,
)
    requires
        old(interval).wf(),
        old(img).wf(),
        positions_in_grid(old(interval).positions@, *old(img), vertical),
    ensures
        final(interval).wf(),
        final(interval).positions@ == old(interval).positions@,
        final(interval).colors() == sort_desc(old(interval).colors()),
        final(img).wf(),
        final(img).width == old(img).width,
        final(img).height == old(img).height,
        final(img).pixels@ == write_all(
            old(img).pixels@,
            old(img).width,
            old(interval).positions@,
            arrange(sort_desc(old(interval).colors()), reverse),
            vertical,
        ),
{
    sort_pixels(&mut interval.pixels);
    let ghost positions = interval.positions@;
    let ghost values = arrange(interval.colors(), reverse);
    let ghost start = img.pixels@;
    let length = interval.positions.len();
    let mut k: usize = 0;
    while k < length
        invariant
            interval.wf(),
            interval.positions@ == positions,
            length == positions.len(),
            k <= length,
            values == arrange(interval.colors(), reverse),
            positions_in_grid(positions, *img, vertical),
            img.wf(),
            img.width == old(img).width,
            img.height == old(img).height,
            img.pixels@ == write_all(start, img.width, positions.take(k as int), values, vertical),
        decreases length - k,
    {
        let rank: usize = if reverse {
            length - 1 - k
        } else {
            k
        };
        let pos = interval.positions[k];
        put_pixel(pos.0, pos.1, interval.pixels[rank].rgba, img, vertical);
        proof {
            assert(positions.take(k + 1).drop_last() =~= positions.take(k as int));
        }
        k = k + 1;
    }
    proof {
        assert(positions.take(length as int) =~= positions);
    }
}

} // verus!
