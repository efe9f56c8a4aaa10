use vstd::prelude::*;
use crate::pixel::{Pixel, brightness, brightness_of};
use crate::grid::{Image, index_of, in_grid, get_pixel, lemma_index_injective, lemma_index_bounds, lemma_index_onto};
use crate::interval::{
    SortableInterval, sort_desc, arrange, write_all, sort_interval, ties_are_equal, lemma_sort_desc,
    lemma_sort_desc_len, lemma_sort_desc_sorted, lemma_sort_desc_ascending,
};

verus! {

/// A brightness that opens a run: above the threshold, or below it when the
/// threshold is reversed.
pub open spec fn opens(b: u32, threshold: u32, reverse_threshold: bool) -> bool {
    (b > threshold && !reverse_threshold) || (b < threshold && reverse_threshold)
}

/// A brightness that closes a run: below the threshold, or above it when the
/// threshold is reversed.
pub open spec fn closes(b: u32, threshold: u32, reverse_threshold: bool) -> bool {
    (b < threshold && !reverse_threshold) || (b > threshold && reverse_threshold)
}

/// The runs `[start, stop)` emitted by a scan of `row` from `x` on, a run
/// being open at `start` when it is `Some`. A run still open at the end of
/// the row is dropped.
pub open spec fn runs_from(
    row: Seq<Pixel>,
    threshold: u32,
    reverse_threshold: bool,
    x: int,
    start: Option<int>,
) -> Seq<(int, int)>
    decreases row.len() - x,
{
    if x < 0 || x >= row.len() {
        seq![]
    } else {
        let b = brightness_of(row[x]);
        if opens(b, threshold, reverse_threshold) {
            let s = if start is Some {
                start
            } else {
                Some(x)
            };
            runs_from(row, threshold, reverse_threshold, x + 1, s)
        } else if closes(b, threshold, reverse_threshold) && start is Some {
            seq![(start->0, x)] + runs_from(row, threshold, reverse_threshold, x + 1, None)
        } else {
            runs_from(row, threshold, reverse_threshold, x + 1, start)
        }
    }
}

/// The runs a scan of the whole row emits, left to right.
pub open spec fn runs(row: Seq<Pixel>, threshold: u32, reverse_threshold: bool) -> Seq<(int, int)> {
    runs_from(row, threshold, reverse_threshold, 0, None)
}

/// `row` with the pixels of `run` sorted and laid back in place.
pub open spec fn place_run(row: Seq<Pixel>, run: (int, int), reverse: bool) -> Seq<Pixel> {
    row.subrange(0, run.0) + arrange(sort_desc(row.subrange(run.0, run.1)), reverse)
        + row.subrange(run.1, row.len() as int)
}

/// `row` after placing each run of `rs` in turn.
pub open spec fn place_runs(row: Seq<Pixel>, rs: Seq<(int, int)>, reverse: bool) -> Seq<Pixel>
    decreases rs.len(),
{
    if rs.len() == 0 {
        row
    } else {
        place_run(place_runs(row, rs.drop_last(), reverse), rs.last(), reverse)
    }
}

/// A row after one classic pass.
pub open spec fn classic_row(
    row: Seq<Pixel>,
    threshold: u32,
    reverse_threshold: bool,
    reverse: bool,
) -> Seq<Pixel> {
    place_runs(row, runs(row, threshold, reverse_threshold), reverse)
}

/// Where a scan at `x` with the run marker `start` may still open a run.
spec fn scan_floor(start: Option<int>, x: int) -> int {
    match start {
        Some(s) => s,
        None => x,
    }
}

/// A run `[r.0, r.1)` as a scan emits it: it lies in the row, its first
/// pixel opens a run, the pixel at its end closes it, and none in between
/// does.
pub open spec fn well_placed(row: Seq<Pixel>, r: (int, int), threshold: u32, reverse_threshold: bool) -> bool {
    &&& 0 <= r.0 < r.1 < row.len()
    &&& opens(brightness_of(row[r.0]), threshold, reverse_threshold)
    &&& closes(brightness_of(row[r.1]), threshold, reverse_threshold)
    &&& forall|k: int| r.0 < k < r.1 ==> !closes(brightness_of(#[trigger] row[k]), threshold, reverse_threshold)
}

/// Each run a scan emits from `x` on is well placed and starts no earlier
/// than the open run or `x`; the runs come in order, each ending before the
/// next starts.
proof fn lemma_runs_from_shape(
    row: Seq<Pixel>,
    threshold: u32,
    reverse_threshold: bool,
    x: int,
    start: Option<int>,
)
    requires
        0 <= x,
        start matches Some(s) ==> 0 <= s < x && s < row.len() && opens(
            brightness_of(row[s]),
            threshold,
            reverse_threshold,
        ) && forall|k: int| s < k < x ==> !closes(brightness_of(#[trigger] row[k]), threshold, reverse_threshold),
    ensures
        ({
            let all = runs_from(row, threshold, reverse_threshold, x, start);
            &&& forall|i: int|
                0 <= i < all.len() ==> well_placed(row, #[trigger] all[i], threshold, reverse_threshold)
                    && scan_floor(start, x) <= all[i].0
            &&& forall|i: int, j: int| 0 <= i < j < all.len() ==> (#[trigger] all[i]).1 < (#[trigger] all[j]).0
        }),
    decreases row.len() - x,
{
    let all = runs_from(row, threshold, reverse_threshold, x, start);
    if x < row.len() {
        let b = brightness_of(row[x]);
        if opens(b, threshold, reverse_threshold) {
            let s = if start is Some {
                start
            } else {
                Some(x)
            };
            lemma_runs_from_shape(row, threshold, reverse_threshold, x + 1, s);
            let next = runs_from(row, threshold, reverse_threshold, x + 1, s);
            assert(all == next);
        } else if closes(b, threshold, reverse_threshold) && start is Some {
            lemma_runs_from_shape(row, threshold, reverse_threshold, x + 1, None);
            let rest = runs_from(row, threshold, reverse_threshold, x + 1, None);
            assert(all == seq![(start->0, x)] + rest);
            assert forall|i: int| 0 <= i < all.len() implies well_placed(
                row,
                #[trigger] all[i],
                threshold,
                reverse_threshold,
            ) && scan_floor(start, x) <= all[i].0 by {
                if i > 0 {
                    assert(all[i] == rest[i - 1]);
                }
            }
            assert forall|i: int, j: int| 0 <= i < j < all.len() implies (#[trigger] all[i]).1 < (
            #[trigger] all[j]).0 by {
                assert(all[j] == rest[j - 1]);
                if i > 0 {
                    assert(all[i] == rest[i - 1]);
                }
            }
        } else {
            lemma_runs_from_shape(row, threshold, reverse_threshold, x + 1, start);
            let next = runs_from(row, threshold, reverse_threshold, x + 1, start);
            assert(all == next);
        }
    }
}

/// A stretch `[c, d)` that starts with a pixel that opens a run, holds no
/// pixel that closes one, and is followed by one that does, ends a run the
/// scan emits, one that starts no later than `c`.
proof fn lemma_runs_from_complete(
    row: Seq<Pixel>,
    threshold: u32,
    reverse_threshold: bool,
    x: int,
    start: Option<int>,
    c: int,
    d: int,
)
    requires
        0 <= x <= d < row.len(),
        closes(brightness_of(row[d]), threshold, reverse_threshold),
        forall|k: int| x <= k < d ==> !closes(brightness_of(#[trigger] row[k]), threshold, reverse_threshold),
        c < x ==> start is Some && start->0 <= c,
        c >= x ==> c < d && opens(brightness_of(row[c]), threshold, reverse_threshold),
        start matches Some(s) ==> s < x,
    ensures
        exists|i: int|
            0 <= i < runs_from(row, threshold, reverse_threshold, x, start).len() && (#[trigger] runs_from(
                row,
                threshold,
                reverse_threshold,
                x,
                start,
            )[i]).0 <= c && runs_from(row, threshold, reverse_threshold, x, start)[i].1 == d,
    decreases d - x,
{
    let all = runs_from(row, threshold, reverse_threshold, x, start);
    let b = brightness_of(row[x]);
    if x == d {
        assert(all[0] == (start->0, x));
    } else {
        assert(!closes(b, threshold, reverse_threshold));
        if opens(b, threshold, reverse_threshold) {
            let s = if start is Some {
                start
            } else {
                Some(x)
            };
            lemma_runs_from_complete(row, threshold, reverse_threshold, x + 1, s, c, d);
            assert(all == runs_from(row, threshold, reverse_threshold, x + 1, s));
        } else {
            lemma_runs_from_complete(row, threshold, reverse_threshold, x + 1, start, c, d);
            assert(all == runs_from(row, threshold, reverse_threshold, x + 1, start));
        }
    }
}

proof fn lemma_place_run_frame(row: Seq<Pixel>, run: (int, int), reverse: bool)
    requires
        0 <= run.0 <= run.1 <= row.len(),
    ensures
        place_run(row, run, reverse).len() == row.len(),
        forall|k: int|
            0 <= k < row.len() && !(run.0 <= k < run.1) ==> #[trigger] place_run(row, run, reverse)[k] == row[k],
{
    lemma_sort_desc_len(row.subrange(run.0, run.1));
}

proof fn lemma_place_runs_frame(row: Seq<Pixel>, rs: Seq<(int, int)>, reverse: bool)
    requires
        forall|i: int| 0 <= i < rs.len() ==> 0 <= (#[trigger] rs[i]).0 <= rs[i].1 <= row.len(),
    ensures
        place_runs(row, rs, reverse).len() == row.len(),
        forall|k: int|
            0 <= k < row.len() && (forall|i: int| 0 <= i < rs.len() ==> !(rs[i].0 <= k < #[trigger] rs[i].1))
                ==> #[trigger] place_runs(row, rs, reverse)[k] == row[k],
    decreases rs.len(),
{
    if rs.len() > 0 {
        let prev = rs.drop_last();
        assert forall|i: int| 0 <= i < prev.len() implies 0 <= (#[trigger] prev[i]).0 <= prev[i].1 <= row.len() by {
            assert(prev[i] == rs[i]);
        }
        lemma_place_runs_frame(row, prev, reverse);
        assert(0 <= rs.last().0 <= rs.last().1 <= row.len());
        lemma_place_run_frame(place_runs(row, prev, reverse), rs.last(), reverse);
        assert forall|k: int|
            0 <= k < row.len() && (forall|i: int| 0 <= i < rs.len() ==> !(rs[i].0 <= k < #[trigger] rs[i].1))
                implies #[trigger] place_runs(row, rs, reverse)[k] == row[k] by {
            assert forall|i: int| 0 <= i < prev.len() implies !(prev[i].0 <= k < #[trigger] prev[i].1) by {
                assert(prev[i] == rs[i]);
                assert(!(rs[i].0 <= k < rs[i].1));
            }
            assert(!(rs[rs.len() - 1].0 <= k < rs[rs.len() - 1].1));
        }
    }
}

/// Run containment: every run that a classic pass emits on `row` starts at a
/// pixel that opens a run and stops before one that closes it, and a pixel
/// that the pass changes lies inside one of those runs.
pub proof fn lemma_run_containment(row: Seq<Pixel>, threshold: u32, reverse_threshold: bool, reverse: bool)
    ensures
        ({
            let rs = runs(row, threshold, reverse_threshold);
            let out = classic_row(row, threshold, reverse_threshold, reverse);
            &&& out.len() == row.len()
            &&& forall|i: int|
                0 <= i < rs.len() ==> {
                    &&& 0 <= (#[trigger] rs[i]).0 < rs[i].1 < row.len()
                    &&& opens(brightness_of(row[rs[i].0]), threshold, reverse_threshold)
                    &&& closes(brightness_of(row[rs[i].1]), threshold, reverse_threshold)
                }
            &&& forall|k: int|
                0 <= k < row.len() && out[k] != row[k] ==> exists|i: int|
                    0 <= i < rs.len() && (#[trigger] rs[i]).0 <= k < rs[i].1
        }),
{
    let rs = runs(row, threshold, reverse_threshold);
    lemma_runs_from_shape(row, threshold, reverse_threshold, 0, None);
    assert forall|i: int| 0 <= i < rs.len() implies 0 <= (#[trigger] rs[i]).0 <= rs[i].1 <= row.len() by {
        assert(well_placed(row, rs[i], threshold, reverse_threshold));
    }
    lemma_place_runs_frame(row, rs, reverse);
    assert forall|i: int| 0 <= i < rs.len() implies {
        &&& 0 <= (#[trigger] rs[i]).0 < rs[i].1 < row.len()
        &&& opens(brightness_of(row[rs[i].0]), threshold, reverse_threshold)
        &&& closes(brightness_of(row[rs[i].1]), threshold, reverse_threshold)
    } by {
        assert(well_placed(row, rs[i], threshold, reverse_threshold));
    }
}

/// A scan from `x0` can be cut at any later `x`: what it emits is what it
/// emits before `x`, then what a scan from `x` emits in the state it has
/// reached there.
proof fn lemma_runs_from_split(
    row: Seq<Pixel>,
    threshold: u32,
    reverse_threshold: bool,
    x0: int,
    start0: Option<int>,
    x: int,
)
    requires
        0 <= x0 <= x <= row.len(),
        start0 matches Some(s) ==> s < x0,
    ensures
        exists|pre: Seq<(int, int)>, st: Option<int>|
            (st matches Some(s) ==> s < x) && runs_from(row, threshold, reverse_threshold, x0, start0)
                == pre + runs_from(row, threshold, reverse_threshold, x, st),
    decreases x - x0,
{
    let all = runs_from(row, threshold, reverse_threshold, x0, start0);
    if x0 == x {
        let pre: Seq<(int, int)> = seq![];
        assert(all == pre + all);
    } else {
        let b = brightness_of(row[x0]);
        let st1 = if opens(b, threshold, reverse_threshold) {
            if start0 is Some {
                start0
            } else {
                Some(x0)
            }
        } else if closes(b, threshold, reverse_threshold) && start0 is Some {
            None
        } else {
            start0
        };
        let head: Seq<(int, int)> = if !opens(b, threshold, reverse_threshold) && closes(
            b,
            threshold,
            reverse_threshold,
        ) && start0 is Some {
            seq![(start0->0, x0)]
        } else {
            seq![]
        };
        assert(all == head + runs_from(row, threshold, reverse_threshold, x0 + 1, st1));
        lemma_runs_from_split(row, threshold, reverse_threshold, x0 + 1, st1, x);
        let (pre, st) = choose|pre: Seq<(int, int)>, st: Option<int>|
            (st matches Some(s) ==> s < x) && runs_from(row, threshold, reverse_threshold, x0 + 1, st1)
                == pre + runs_from(row, threshold, reverse_threshold, x, st);
        assert(all == (head + pre) + runs_from(row, threshold, reverse_threshold, x, st));
    }
}

/// Where the runs lie in the row in order, placing them all leaves each
/// run's stretch holding its own pixels, sorted.
proof fn lemma_place_runs_content(row: Seq<Pixel>, rs: Seq<(int, int)>, reverse: bool)
    requires
        forall|i: int| 0 <= i < rs.len() ==> 0 <= (#[trigger] rs[i]).0 <= rs[i].1 <= row.len(),
        forall|i: int, j: int| 0 <= i < j < rs.len() ==> (#[trigger] rs[i]).1 < (#[trigger] rs[j]).0,
    ensures
        forall|i: int|
            0 <= i < rs.len() ==> #[trigger] place_runs(row, rs, reverse).subrange(rs[i].0, rs[i].1)
                == arrange(sort_desc(row.subrange(rs[i].0, rs[i].1)), reverse),
    decreases rs.len(),
{
    if rs.len() > 0 {
        let prev = rs.drop_last();
        let last = rs.last();
        let n = rs.len() - 1;
        assert forall|i: int| 0 <= i < prev.len() implies 0 <= (#[trigger] prev[i]).0 <= prev[i].1 <= row.len() by {
            assert(prev[i] == rs[i]);
        }
        assert forall|i: int, j: int| 0 <= i < j < prev.len() implies (#[trigger] prev[i]).1 < (
        #[trigger] prev[j]).0 by {
            assert(prev[i] == rs[i] && prev[j] == rs[j]);
        }
        lemma_place_runs_content(row, prev, reverse);
        lemma_place_runs_frame(row, prev, reverse);
        let before = place_runs(row, prev, reverse);
        assert(0 <= last.0 <= last.1 <= row.len());
        lemma_place_run_frame(before, last, reverse);
        let out = place_runs(row, rs, reverse);
        assert(out == place_run(before, last, reverse));
        assert forall|k: int| last.0 <= k < last.1 implies #[trigger] before[k] == row[k] by {
            assert forall|i: int| 0 <= i < prev.len() implies !(prev[i].0 <= k < #[trigger] prev[i].1) by {
                assert(prev[i] == rs[i]);
                assert(rs[i].1 < rs[n].0);
            }
        }
        assert(before.subrange(last.0, last.1) =~= row.subrange(last.0, last.1));
        lemma_sort_desc_len(row.subrange(last.0, last.1));
        assert forall|i: int| 0 <= i < rs.len() implies #[trigger] out.subrange(rs[i].0, rs[i].1) == arrange(
            sort_desc(row.subrange(rs[i].0, rs[i].1)),
            reverse,
        ) by {
            if i == n {
                assert(out.subrange(last.0, last.1) =~= arrange(sort_desc(before.subrange(last.0, last.1)), reverse));
            } else {
                assert(prev[i] == rs[i]);
                assert(rs[i].1 < rs[n].0);
                assert(out.subrange(rs[i].0, rs[i].1) =~= before.subrange(rs[i].0, rs[i].1));
            }
        }
    }
}

/// Placing runs whose stretches are already laid out as placing lays them
/// changes nothing.
proof fn lemma_place_settled_runs(row: Seq<Pixel>, rs: Seq<(int, int)>, reverse: bool)
    requires
        forall|i: int| 0 <= i < rs.len() ==> 0 <= (#[trigger] rs[i]).0 <= rs[i].1 <= row.len(),
        forall|i: int|
            0 <= i < rs.len() ==> arrange(sort_desc(row.subrange((#[trigger] rs[i]).0, rs[i].1)), reverse)
                == row.subrange(rs[i].0, rs[i].1),
    ensures
        place_runs(row, rs, reverse) == row,
    decreases rs.len(),
{
    if rs.len() > 0 {
        let prev = rs.drop_last();
        let last = rs[rs.len() - 1];
        assert forall|i: int| 0 <= i < prev.len() implies 0 <= (#[trigger] prev[i]).0 <= prev[i].1 <= row.len() by {
            assert(prev[i] == rs[i]);
        }
        assert forall|i: int| 0 <= i < prev.len() implies arrange(
            sort_desc(row.subrange((#[trigger] prev[i]).0, prev[i].1)),
            reverse,
        ) == row.subrange(prev[i].0, prev[i].1) by {
            assert(prev[i] == rs[i]);
        }
        lemma_place_settled_runs(row, prev, reverse);
        assert(arrange(sort_desc(row.subrange(last.0, last.1)), reverse) == row.subrange(last.0, last.1));
        assert(place_run(row, last, reverse) =~= row);
    }
}

/// The facts about a classic pass that the lemmas below share: its runs are
/// well placed and in order, and it changes only their stretches, each of
/// which it lays out sorted.
proof fn lemma_pass_facts(row: Seq<Pixel>, t: u32, rt: bool, reverse: bool)
    ensures
        ({
            let rs = runs(row, t, rt);
            let out = classic_row(row, t, rt, reverse);
            &&& out.len() == row.len()
            &&& forall|i: int| 0 <= i < rs.len() ==> well_placed(row, #[trigger] rs[i], t, rt)
            &&& forall|i: int, j: int| 0 <= i < j < rs.len() ==> (#[trigger] rs[i]).1 < (#[trigger] rs[j]).0
            &&& forall|k: int|
                0 <= k < row.len() && (forall|i: int| 0 <= i < rs.len() ==> !(rs[i].0 <= k < #[trigger] rs[i].1))
                    ==> #[trigger] out[k] == row[k]
            &&& forall|i: int|
                0 <= i < rs.len() ==> #[trigger] out.subrange(rs[i].0, rs[i].1) == arrange(
                    sort_desc(row.subrange(rs[i].0, rs[i].1)),
                    reverse,
                )
        }),
{
    let rs = runs(row, t, rt);
    lemma_runs_from_shape(row, t, rt, 0, None);
    assert forall|i: int| 0 <= i < rs.len() implies 0 <= (#[trigger] rs[i]).0 <= rs[i].1 <= row.len() by {
        assert(well_placed(row, rs[i], t, rt));
    }
    lemma_place_runs_frame(row, rs, reverse);
    lemma_place_runs_content(row, rs, reverse);
}

/// Inside a run, the output holds pixels of that run of the input, so none
/// of them closes a run.
proof fn lemma_placed_from_run(row: Seq<Pixel>, t: u32, rt: bool, reverse: bool, j: int, k: int)
    requires
        0 <= j < runs(row, t, rt).len(),
        runs(row, t, rt)[j].0 <= k < runs(row, t, rt)[j].1,
    ensures
        exists|m: int|
            runs(row, t, rt)[j].0 <= m < runs(row, t, rt)[j].1 && classic_row(row, t, rt, reverse)[k] == row[m],
        !closes(brightness_of(classic_row(row, t, rt, reverse)[k]), t, rt),
{
    let rs = runs(row, t, rt);
    let out = classic_row(row, t, rt, reverse);
    lemma_pass_facts(row, t, rt, reverse);
    let (a, b) = rs[j];
    assert(well_placed(row, rs[j], t, rt));
    let seg = row.subrange(a, b);
    lemma_sort_desc(seg);
    assert(out.subrange(a, b) == arrange(sort_desc(seg), reverse));
    assert(out.subrange(a, b)[k - a] == out[k]);
    let r = if reverse {
        b - 1 - k
    } else {
        k - a
    };
    assert(arrange(sort_desc(seg), reverse)[k - a] == sort_desc(seg)[r]);
    let m = choose|m: int| 0 <= m < seg.len() && sort_desc(seg)[r] == seg[m];
    assert(seg[m] == row[a + m]);
}

/// Each run of a second pass lies in a run of the first and ends where it
/// ends.
proof fn lemma_rerun_inside(row: Seq<Pixel>, t: u32, rt: bool, reverse: bool, i: int)
    requires
        0 <= i < runs(classic_row(row, t, rt, reverse), t, rt).len(),
    ensures
        exists|j: int|
            0 <= j < runs(row, t, rt).len() && (#[trigger] runs(row, t, rt)[j]).0 <= runs(
                classic_row(row, t, rt, reverse),
                t,
                rt,
            )[i].0 && runs(row, t, rt)[j].1 == runs(classic_row(row, t, rt, reverse), t, rt)[i].1,
{
    let rs = runs(row, t, rt);
    let out = classic_row(row, t, rt, reverse);
    let rs2 = runs(out, t, rt);
    lemma_pass_facts(row, t, rt, reverse);
    lemma_runs_from_shape(out, t, rt, 0, None);
    let (c, d) = rs2[i];
    assert(well_placed(out, rs2[i], t, rt));
    if exists|j: int| 0 <= j < rs.len() && (#[trigger] rs[j]).0 <= c < rs[j].1 {
        let j = choose|j: int| 0 <= j < rs.len() && (#[trigger] rs[j]).0 <= c < rs[j].1;
        let b = rs[j].1;
        assert(well_placed(row, rs[j], t, rt));
        assert forall|j2: int| 0 <= j2 < rs.len() implies !(rs[j2].0 <= b < #[trigger] rs[j2].1) by {
            if j2 < j {
                assert(rs[j2].1 < rs[j].0);
            } else if j2 > j {
                assert(rs[j].1 < rs[j2].0);
            }
        }
        assert(out[b] == row[b]);
        if d < b {
            lemma_placed_from_run(row, t, rt, reverse, j, d);
        }
        if d > b {
            assert(c < b < d);
            assert(!closes(brightness_of(out[b]), t, rt));
        }
    } else {
        assert(out[c] == row[c]);
        assert forall|k: int| c <= k < d implies !closes(brightness_of(#[trigger] row[k]), t, rt) by {
            if exists|j: int| 0 <= j < rs.len() && (#[trigger] rs[j]).0 <= k < rs[j].1 {
                let j = choose|j: int| 0 <= j < rs.len() && (#[trigger] rs[j]).0 <= k < rs[j].1;
                assert(well_placed(row, rs[j], t, rt));
            } else {
                assert(out[k] == row[k]);
                if k > c {
                    assert(!closes(brightness_of(out[k]), t, rt));
                }
            }
        }
        if exists|j: int| 0 <= j < rs.len() && (#[trigger] rs[j]).0 <= d < rs[j].1 {
            let j = choose|j: int| 0 <= j < rs.len() && (#[trigger] rs[j]).0 <= d < rs[j].1;
            lemma_placed_from_run(row, t, rt, reverse, j, d);
        }
        assert(out[d] == row[d]);
        lemma_runs_from_split(row, t, rt, 0, None, c);
        let (pre, st) = choose|pre: Seq<(int, int)>, st: Option<int>|
            (st matches Some(s) ==> s < c) && runs_from(row, t, rt, 0, None) == pre + runs_from(row, t, rt, c, st);
        lemma_runs_from_complete(row, t, rt, c, st, c, d);
        let tail = runs_from(row, t, rt, c, st);
        let i2 = choose|i2: int| 0 <= i2 < tail.len() && (#[trigger] tail[i2]).0 <= c && tail[i2].1 == d;
        assert(rs[pre.len() + i2] == tail[i2]);
        assert(rs[pre.len() + i2].0 <= c < rs[pre.len() + i2].1);
    }
}

/// Within each run that a scan of `row` emits, equally bright pixels are
/// equal pixels.
pub open spec fn ties_within_runs(row: Seq<Pixel>, threshold: u32, reverse_threshold: bool) -> bool {
    forall|i: int|
        0 <= i < runs(row, threshold, reverse_threshold).len() ==> ties_are_equal(
            row.subrange(
                (#[trigger] runs(row, threshold, reverse_threshold)[i]).0,
                runs(row, threshold, reverse_threshold)[i].1,
            ),
        )
}

/// Idempotence: a second classic pass with the same parameters leaves the
/// output of the first unchanged. With `reverse` this needs equally bright
/// pixels of a run to be equal pixels, in the runs of the first pass or in
/// those of the second, since mirroring the sorted run swaps two different
/// ones of equal brightness.
pub proof fn lemma_classic_idempotent(row: Seq<Pixel>, threshold: u32, reverse_threshold: bool, reverse: bool)
    requires
        reverse ==> ties_within_runs(row, threshold, reverse_threshold) || ties_within_runs(
            classic_row(row, threshold, reverse_threshold, reverse),
            threshold,
            reverse_threshold,
        ),
    ensures
        classic_row(classic_row(row, threshold, reverse_threshold, reverse), threshold, reverse_threshold, reverse)
            == classic_row(row, threshold, reverse_threshold, reverse),
{
    let t = threshold;
    let rt = reverse_threshold;
    let rs = runs(row, t, rt);
    let out = classic_row(row, t, rt, reverse);
    let rs2 = runs(out, t, rt);
    lemma_pass_facts(row, t, rt, reverse);
    lemma_runs_from_shape(out, t, rt, 0, None);
    assert forall|i: int| 0 <= i < rs2.len() implies arrange(
        sort_desc(out.subrange((#[trigger] rs2[i]).0, rs2[i].1)),
        reverse,
    ) == out.subrange(rs2[i].0, rs2[i].1) by {
        let (c, d) = rs2[i];
        assert(well_placed(out, rs2[i], t, rt));
        lemma_rerun_inside(row, t, rt, reverse, i);
        let j = choose|j: int| 0 <= j < rs.len() && (#[trigger] rs[j]).0 <= c && rs[j].1 == d;
        let (a, b) = rs[j];
        let seg = row.subrange(a, b);
        lemma_sort_desc(seg);
        assert(out.subrange(a, b) == arrange(sort_desc(seg), reverse));
        let sub = out.subrange(c, d);
        if reverse {
            assert forall|p: int, q: int| 0 <= p < q < sub.len() implies brightness_of(sub[p]) <= brightness_of(
                sub[q],
            ) by {
                assert(sub[p] == out.subrange(a, b)[c - a + p]);
                assert(sub[q] == out.subrange(a, b)[c - a + q]);
            }
            if ties_within_runs(out, t, rt) {
                assert(rs2[i] == runs(out, t, rt)[i]);
            } else {
                assert(ties_are_equal(seg)) by {
                    assert(rs[j] == runs(row, t, rt)[j]);
                }
            }
            assert forall|p: int, q: int|
                0 <= p < sub.len() && 0 <= q < sub.len() && brightness_of(#[trigger] sub[p]) == brightness_of(
                    #[trigger] sub[q],
                ) implies sub[p] == sub[q] by {
                if !ties_within_runs(out, t, rt) {
                assert(sub[p] == out.subrange(a, b)[c - a + p]);
                assert(sub[q] == out.subrange(a, b)[c - a + q]);
                assert(sort_desc(seg).reverse()[c - a + p] == sort_desc(seg)[b - 1 - (c + p)]);
                assert(sort_desc(seg).reverse()[c - a + q] == sort_desc(seg)[b - 1 - (c + q)]);
                let mp = choose|m: int| 0 <= m < seg.len() && sort_desc(seg)[b - 1 - (c + p)] == seg[m];
                let mq = choose|m: int| 0 <= m < seg.len() && sort_desc(seg)[b - 1 - (c + q)] == seg[m];
                assert(seg[mp] == seg[mq]);
                }
            }
            lemma_sort_desc_ascending(sub);
        } else {
            assert forall|p: int, q: int| 0 <= p < q < sub.len() implies brightness_of(sub[p]) >= brightness_of(
                sub[q],
            ) by {
                assert(sub[p] == sort_desc(seg)[c - a + p]);
                assert(sub[q] == sort_desc(seg)[c - a + q]);
            }
            lemma_sort_desc_sorted(sub);
        }
    }
    assert forall|i: int| 0 <= i < rs2.len() implies 0 <= (#[trigger] rs2[i]).0 <= rs2[i].1 <= out.len() by {
        assert(well_placed(out, rs2[i], t, rt));
    }
    lemma_place_settled_runs(out, rs2, reverse);
}

/// Idempotence on a whole image: running the classic strategy on its own
/// output, with the same parameters, leaves every pixel as it is (with
/// `reverse`, where equally bright pixels of each run, of the first pass or
/// of the second, are equal pixels).
pub proof fn lemma_run_classic_idempotent(
    first: Image,
    once: Image,
    twice: Image,
    vertical: bool,
    reverse: bool,
    reverse_threshold: bool,
    threshold: u32,
)
    requires
        first.wf(),
        classic_result(first, once, vertical, reverse, reverse_threshold, threshold),
        classic_result(once, twice, vertical, reverse, reverse_threshold, threshold),
        reverse ==> forall|y: int|
            0 <= y < first.row_count(vertical) ==> ties_within_runs(
                #[trigger] first.row(y, vertical),
                threshold,
                reverse_threshold,
            ) || ties_within_runs(once.row(y, vertical), threshold, reverse_threshold),
    ensures
        twice.pixels@ == once.pixels@,
{
    assert forall|y: int| 0 <= y < first.row_count(vertical) implies #[trigger] twice.row(y, vertical) == once.row(
        y,
        vertical,
    ) by {
        lemma_classic_idempotent(first.row(y, vertical), threshold, reverse_threshold, reverse);
    }
    assert forall|i: int| 0 <= i < once.pixels@.len() implies twice.pixels@[i] == once.pixels@[i] by {
        lemma_index_onto(once.width, once.height, i, vertical);
        let (x, y) = choose|x: int, y: int|
            in_grid(once.width, once.height, x, y, vertical) && index_of(once.width, x, y, vertical) == i;
        assert(twice.row(y, vertical) == once.row(y, vertical));
        assert(twice.row(y, vertical)[x] == once.row(y, vertical)[x]);
    }
    assert(twice.pixels@ =~= once.pixels@);
}

/// Writing `values` on the consecutive positions `(s, y)`, `(s + 1, y)`, ...
/// changes those pixels of the image and no other.
proof fn lemma_write_row(
    pixels: Seq<Pixel>,
    width: u32,
    height: u32,
    positions: Seq<(u32, u32)>,
    values: Seq<Pixel>,
    swap: bool,
    s: int,
    y: int,
)
    requires
        pixels.len() == width * height,
        positions.len() <= values.len(),
        forall|k: int|
            0 <= k < positions.len() ==> (#[trigger] positions[k]).0 == s + k && positions[k].1 == y
                && in_grid(width, height, s + k, y, swap),
    ensures
        ({
            let r = write_all(pixels, width, positions, values, swap);
            &&& r.len() == pixels.len()
            &&& forall|x2: int, y2: int|
                in_grid(width, height, x2, y2, swap) ==> #[trigger] r[index_of(width, x2, y2, swap)]
                    == if y2 == y && s <= x2 < s + positions.len() {
                    values[x2 - s]
                } else {
                    pixels[index_of(width, x2, y2, swap)]
                }
        }),
    decreases positions.len(),
{
    if positions.len() > 0 {
        let n = positions.len() - 1;
        let prev = positions.drop_last();
        assert forall|k: int| 0 <= k < prev.len() implies (#[trigger] prev[k]).0 == s + k && prev[k].1 == y
            && in_grid(width, height, s + k, y, swap) by {
            assert(prev[k] == positions[k]);
        }
        lemma_write_row(pixels, width, height, prev, values, swap, s, y);
        assert(positions[n].0 == s + n && positions[n].1 == y);
        assert(in_grid(width, height, s + n, y, swap));
        lemma_index_bounds(width, height, s + n, y, swap);
        assert forall|x2: int, y2: int| in_grid(width, height, x2, y2, swap) implies
            #[trigger] write_all(pixels, width, positions, values, swap)[index_of(width, x2, y2, swap)]
            == if y2 == y && s <= x2 < s + positions.len() {
                values[x2 - s]
            } else {
                pixels[index_of(width, x2, y2, swap)]
            } by {
            lemma_index_bounds(width, height, x2, y2, swap);
            if index_of(width, x2, y2, swap) == index_of(width, s + n, y, swap) {
                lemma_index_injective(width, height, x2, y2, s + n, y, swap);
            }
        }
    }
}

/// The spec form of the scan's open-run marker.
spec fn marker(start: Option<u32>) -> Option<int> {
    match start {
        Some(s) => Some(s as int),
        None => None,
    }
}

/// The first position of a row that the scan may still read: the open run's
/// start, or the current position.
spec fn untouched_from(start: Option<u32>, x: u32) -> int {
    match start {
        Some(s) => s as int,
        None => x as int,
    }
}

/// Runs the classic scan over row `y` (a column when `vertical` holds),
/// sorting each run as soon as it closes.
fn sort_row(
    img: &mut Image,
    y: u32,
    vertical: bool,
    reverse: bool,
    reverse_threshold: bool,
    threshold: u32,
)
    requires
        old(img).wf(),
        y < old(img).row_count(vertical),
    ensures
        final(img).wf(),
        final(img).width == old(img).width,
        final(img).height == old(img).height,
        final(img).row(y as int, vertical) == classic_row(
            old(img).row(y as int, vertical),
            threshold,
            reverse_threshold,
            reverse,
        ),
        forall|y2: int|
            0 <= y2 < old(img).row_count(vertical) && y2 != y ==> #[trigger] final(img).row(
                y2,
                vertical,
            ) == old(img).row(y2, vertical),
{
    let ghost r0 = img.row(y as int, vertical);
    let ghost all_runs = runs(r0, threshold, reverse_threshold);
    let ghost mut emitted: Seq<(int, int)> = seq![];
    let len: u32 = if vertical {
        img.height
    } else {
        img.width
    };
    let mut start: Option<u32> = None;
    let mut x: u32 = 0;
    while x < len
        invariant
            img.wf(),
            img.width == old(img).width,
            img.height == old(img).height,
            len == img.row_len(vertical),
            y < img.row_count(vertical),
            r0 == old(img).row(y as int, vertical),
            all_runs == runs(r0, threshold, reverse_threshold),
            x <= len,
            forall|y2: int|
                0 <= y2 < old(img).row_count(vertical) && y2 != y ==> #[trigger] img.row(
                    y2,
                    vertical,
                ) == old(img).row(y2, vertical),
            img.row(y as int, vertical) == place_runs(r0, emitted, reverse),
            all_runs == emitted + runs_from(r0, threshold, reverse_threshold, x as int, marker(start)),
            start matches Some(s) ==> s < x,
            forall|k: int|
                untouched_from(start, x) <= k < len
                    ==> (#[trigger] img.row(y as int, vertical)[k]) == r0[k],
        decreases len - x,
    {
        let ghost now = img.row(y as int, vertical);
        let b = brightness(&get_pixel(x, y, img, vertical));
        assert(b == brightness_of(r0[x as int])) by {
            assert(now[x as int] == r0[x as int]);
        }
        if (b > threshold && !reverse_threshold) || (b < threshold && reverse_threshold) {
            if start.is_none() {
                start = Some(x);
            }
        } else if (b < threshold && !reverse_threshold) || (b > threshold && reverse_threshold) {
            if let Some(s) = start {
                let mut interval = SortableInterval::new();
                let mut i: u32 = s;
                while i < x
                    invariant
                        img.wf(),
                        len == img.row_len(vertical),
                        y < img.row_count(vertical),
                        s <= i <= x,
                        x < len,
                        now == img.row(y as int, vertical),
                        interval.wf(),
                        interval.colors() == now.subrange(s as int, i as int),
                        interval.positions@.len() == i - s,
                        forall|k: int|
                            0 <= k < interval.positions@.len() ==> (#[trigger] interval.positions@[k]).0
                                == s + k && interval.positions@[k].1 == y && in_grid(
                                img.width,
                                img.height,
                                s + k,
                                y as int,
                                vertical,
                            ),
                    decreases x - i,
                {
                    let p = get_pixel(i, y, img, vertical);
                    interval.add(p, (i, y));
                    proof {
                        assert(now.subrange(s as int, i + 1) =~= now.subrange(s as int, i as int).push(p));
                    }
                    i = i + 1;
                }
                let ghost snapshot = *img;
                let ghost before = img.pixels@;
                let ghost positions = interval.positions@;
                let ghost values = arrange(sort_desc(interval.colors()), reverse);
                sort_interval(&mut interval, img, reverse, vertical);
                proof {
                    lemma_write_row(
                        before,
                        img.width,
                        img.height,
                        positions,
                        values,
                        vertical,
                        s as int,
                        y as int,
                    );
                    let placed = place_run(now, (s as int, x as int), reverse);
                    assert forall|k: int| 0 <= k < len implies (#[trigger] img.row(y as int, vertical)[k])
                        == placed[k] by {
                        assert(in_grid(img.width, img.height, k, y as int, vertical));
                    }
                    assert(img.row(y as int, vertical) =~= placed);
                    assert forall|y2: int|
                        0 <= y2 < old(img).row_count(vertical) && y2 != y implies #[trigger] img.row(
                            y2,
                            vertical,
                        ) == old(img).row(y2, vertical) by {
                        assert forall|k: int| 0 <= k < len implies (#[trigger] img.row(y2, vertical)[k])
                            == old(img).row(y2, vertical)[k] by {
                            assert(in_grid(img.width, img.height, k, y2, vertical));
                            assert(snapshot.row(y2, vertical) == old(img).row(y2, vertical));
                            assert(snapshot.row(y2, vertical)[k] == before[index_of(img.width, k, y2, vertical)]);
                        }
                        assert(img.row(y2, vertical) =~= old(img).row(y2, vertical));
                    }
                    assert(emitted.push((s as int, x as int)).drop_last() =~= emitted);
                    assert(emitted + runs_from(r0, threshold, reverse_threshold, x as int, marker(start))
                        =~= emitted.push((s as int, x as int)) + runs_from(
                        r0,
                        threshold,
                        reverse_threshold,
                        x + 1,
                        None,
                    ));
                    emitted = emitted.push((s as int, x as int));
                }
                start = None;
            }
        }
        x = x + 1;
    }
}

/// `after` is `before` with every row passed through `classic_row`.
pub open spec fn classic_result(
    before: Image,
    after: Image,
    vertical: bool,
    reverse: bool,
    reverse_threshold: bool,
    threshold: u32,
) -> bool {
    &&& after.wf()
    &&& after.width == before.width
    &&& after.height == before.height
    &&& forall|y: int|
        0 <= y < before.row_count(vertical) ==> #[trigger] after.row(y, vertical) == classic_row(
            before.row(y, vertical),
            threshold,
            reverse_threshold,
            reverse,
        )
}

/// The classic strategy: every row (every column when `vertical` holds) is
/// scanned left to right, and each run opened by a pixel past the threshold
/// and closed by one short of it is sorted in place.
pub fn run_classic(
    img: &mut Image,
    vertical: bool,
    reverse: bool,
    reverse_threshold: bool,
    threshold: u32,
)
    requires
        old(img).wf(),
    ensures
        classic_result(*old(img), *final(img), vertical, reverse, reverse_threshold, threshold),
{
    let rows: u32 = if vertical {
        img.width
    } else {
        img.height
    };
    let mut y: u32 = 0;
    while y < rows
        invariant
            img.wf(),
            img.width == old(img).width,
            img.height == old(img).height,
            rows == old(img).row_count(vertical),
            y <= rows,
            forall|y2: int|
                0 <= y2 < y ==> #[trigger] img.row(y2, vertical) == classic_row(
                    old(img).row(y2, vertical),
                    threshold,
                    reverse_threshold,
                    reverse,
                ),
            forall|y2: int| y <= y2 < rows ==> #[trigger] img.row(y2, vertical) == old(img).row(y2, vertical),
        decreases rows - y,
    {
        let ghost snapshot = *img;
        sort_row(img, y, vertical, reverse, reverse_threshold, threshold);
        proof {
            assert forall|y2: int| 0 <= y2 < y + 1 implies #[trigger] img.row(y2, vertical) == classic_row(
                old(img).row(y2, vertical),
                threshold,
                reverse_threshold,
                reverse,
            ) by {
                if y2 < y {
                    assert(snapshot.row(y2, vertical) == classic_row(
                        old(img).row(y2, vertical),
                        threshold,
                        reverse_threshold,
                        reverse,
                    ));
                } else {
                    assert(snapshot.row(y2, vertical) == old(img).row(y2, vertical));
                }
            }
            assert forall|y2: int| y + 1 <= y2 < rows implies #[trigger] img.row(y2, vertical) == old(img).row(
                y2,
                vertical,
            ) by {
                assert(snapshot.row(y2, vertical) == old(img).row(y2, vertical));
            }
        }
        y = y + 1;
    }
}

} // verus!
