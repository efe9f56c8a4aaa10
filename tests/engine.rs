use pixelsorter::classic::run_classic;
use pixelsorter::grid::{get_pixel, put_pixel, Image};
use pixelsorter::interval::{sort_interval, SortableInterval, SortablePixel};
use pixelsorter::kernel::run_kernel;
use pixelsorter::pixel::{brightness, Pixel};
use pixelsorter::vector::{find_next, run_vectorfield, trace_path};

fn grey(v: u8) -> Pixel {
    Pixel::new(v, v, v, v)
}

fn row_image(values: &[u8]) -> Image {
    let pixels: Vec<Pixel> = values.iter().map(|v| grey(*v)).collect();
    Image::new(values.len() as u32, 1, pixels).unwrap()
}

fn brightnesses(img: &Image) -> Vec<u32> {
    img.pixels.iter().map(|p| brightness(p)).collect()
}

#[test]
fn brightness_averages_all_four_channels() {
    assert_eq!(brightness(&Pixel::new(10, 20, 30, 40)), 25);
    assert_eq!(brightness(&Pixel::new(255, 255, 255, 255)), 255);
    assert_eq!(brightness(&Pixel::new(1, 1, 1, 0)), 0);
    assert_eq!(brightness(&Pixel::new(255, 255, 255, 0)), 191);
}

#[test]
fn image_new_checks_pixel_count() {
    assert!(Image::new(2, 2, vec![grey(0); 3]).is_none());
    let img = Image::new(2, 3, vec![grey(0); 6]).unwrap();
    assert_eq!(img.dimensions(), (2, 3));
}

#[test]
fn accessor_swaps_axes() {
    let pixels: Vec<Pixel> = (0..6).map(|v| grey(v as u8)).collect();
    let mut img = Image::new(3, 2, pixels).unwrap();
    assert_eq!(get_pixel(2, 1, &img, false), grey(5));
    assert_eq!(get_pixel(1, 2, &img, true), grey(5));
    put_pixel(0, 1, grey(99), &mut img, true);
    assert_eq!(get_pixel(1, 0, &img, false), grey(99));
}

#[test]
fn classic_single_row_scenario() {
    let mut img = row_image(&[10, 150, 180, 160, 20]);
    run_classic(&mut img, false, false, false, 100);
    assert_eq!(brightnesses(&img), vec![10, 180, 160, 150, 20]);
}

#[test]
fn classic_second_pass_changes_nothing() {
    let mut img = row_image(&[10, 150, 180, 160, 20, 200, 100, 120, 250, 5, 130]);
    run_classic(&mut img, false, false, false, 100);
    let once = img.pixels.clone();
    run_classic(&mut img, false, false, false, 100);
    assert_eq!(img.pixels, once);
}

#[test]
fn classic_run_open_at_row_end_is_dropped() {
    let mut img = row_image(&[10, 150, 180]);
    run_classic(&mut img, false, false, false, 100);
    assert_eq!(brightnesses(&img), vec![10, 150, 180]);
}

#[test]
fn classic_threshold_pixels_are_inert() {
    let mut img = row_image(&[150, 100, 180, 20]);
    run_classic(&mut img, false, false, false, 100);
    assert_eq!(brightnesses(&img), vec![180, 150, 100, 20]);
}

#[test]
fn classic_reverse_placement_and_threshold() {
    let mut img = row_image(&[10, 150, 180, 160, 20]);
    run_classic(&mut img, false, true, false, 100);
    assert_eq!(brightnesses(&img), vec![10, 150, 160, 180, 20]);
    let mut img = row_image(&[200, 50, 30, 40, 220]);
    run_classic(&mut img, false, false, true, 100);
    assert_eq!(brightnesses(&img), vec![200, 50, 40, 30, 220]);
}

#[test]
fn classic_vertical_sorts_columns() {
    let values = [10u8, 10, 150, 150, 180, 180, 20, 20];
    let pixels: Vec<Pixel> = values.iter().map(|v| grey(*v)).collect();
    let mut img = Image::new(2, 4, pixels).unwrap();
    run_classic(&mut img, true, false, false, 100);
    assert_eq!(brightnesses(&img), vec![10, 10, 180, 180, 150, 150, 20, 20]);
}

#[test]
fn classic_sort_is_stable() {
    let a = Pixel::new(200, 0, 200, 200);
    let b = Pixel::new(0, 200, 200, 200);
    let pixels = vec![grey(0), grey(120), a, b, grey(0)];
    let mut img = Image::new(5, 1, pixels).unwrap();
    run_classic(&mut img, false, false, false, 100);
    assert_eq!(img.pixels, vec![grey(0), a, b, grey(120), grey(0)]);
}

fn interval_of(values: &[u8]) -> SortableInterval {
    let mut interval = SortableInterval::new();
    for (i, v) in values.iter().enumerate() {
        interval.add(grey(*v), (i as u32, 0));
    }
    interval
}

#[test]
fn placement_law_for_short_intervals() {
    let all: Vec<u8> = vec![40, 200, 10, 90];
    for len in 0..=4usize {
        for reverse in [false, true] {
            let values = &all[..len];
            let mut img = row_image(&all);
            let mut interval = interval_of(values);
            sort_interval(&mut interval, &mut img, reverse, false);
            let mut sorted: Vec<u8> = values.to_vec();
            sorted.sort_by(|a, b| b.cmp(a));
            for k in 0..len {
                let rank = if reverse { len - 1 - k } else { k };
                assert_eq!(img.pixels[k], grey(sorted[rank]));
            }
            for k in len..4 {
                assert_eq!(img.pixels[k], grey(all[k]));
            }
            let held: Vec<u32> = interval.pixels.iter().map(|p| p.brightness).collect();
            let expect: Vec<u32> = sorted.iter().map(|v| *v as u32).collect();
            assert_eq!(held, expect);
        }
    }
}

#[test]
fn sortable_pixel_caches_brightness() {
    let p = SortablePixel::from_rgba(Pixel::new(4, 8, 12, 16));
    assert_eq!(p.brightness, 10);
}

#[test]
fn kernel_two_blocks_cover_four_by_two() {
    let values = [1u8, 2, 3, 4, 5, 6, 7, 8];
    let pixels: Vec<Pixel> = values.iter().map(|v| grey(*v)).collect();
    let mut img = Image::new(4, 2, pixels).unwrap();
    run_kernel(&mut img, false, 2, 1);
    // each block is read column by column: 1, 5, 2, 6 and 3, 7, 4, 8
    assert_eq!(brightnesses(&img), vec![6, 2, 8, 4, 5, 1, 7, 3]);
    let mut seen = brightnesses(&img);
    seen.sort();
    assert_eq!(seen, vec![1, 2, 3, 4, 5, 6, 7, 8]);
}

#[test]
fn kernel_leaves_remainder_untouched() {
    let values = [1u8, 2, 3, 4, 5, 6, 7, 8, 9];
    let pixels: Vec<Pixel> = values.iter().map(|v| grey(*v)).collect();
    let mut img = Image::new(3, 3, pixels).unwrap();
    run_kernel(&mut img, true, 2, 2);
    assert_eq!(brightnesses(&img), vec![1, 2, 3, 4, 5, 6, 7, 8, 9]);
    run_kernel(&mut img, false, 1, 1);
    assert_eq!(brightnesses(&img), vec![9, 6, 3, 8, 5, 2, 7, 4, 1]);
}

fn uniform(width: u32, height: u32, step: (u32, u32)) -> Vec<(u32, u32)> {
    vec![step; (width * height) as usize]
}

#[test]
fn path_stays_in_bounds_and_within_size() {
    let img = Image::new(4, 3, vec![grey(0); 12]).unwrap();
    let right = uniform(4, 3, (1, 0));
    let path = trace_path(&img, &right, (1, 2), 10);
    assert_eq!(path.positions, vec![(1, 2), (2, 2), (3, 2)]);
    let path = trace_path(&img, &right, (0, 0), 2);
    assert_eq!(path.positions, vec![(0, 0), (1, 0)]);
    let far = uniform(4, 3, (u32::MAX, 1));
    let path = trace_path(&img, &far, (3, 0), 5);
    assert_eq!(path.positions, vec![(3, 0)]);
    let path = trace_path(&img, &right, (4, 0), 5);
    assert!(path.positions.is_empty());
}

#[test]
fn path_follows_each_pixels_step() {
    let img = Image::new(3, 3, vec![grey(0); 9]).unwrap();
    // (0,0) -> (1,0) -> (1,2) -> (2,2), then off the right edge
    let mut steps = uniform(3, 3, (0, 0));
    steps[0] = (1, 0);
    steps[1] = (0, 2);
    steps[7] = (1, 0);
    steps[8] = (1, 0);
    let path = trace_path(&img, &steps, (0, 0), 10);
    assert_eq!(path.positions, vec![(0, 0), (1, 0), (1, 2), (2, 2)]);
}

#[test]
fn vector_path_capped_at_size() {
    let mut img = row_image(&[10, 1, 2, 30, 3, 4, 20]);
    run_vectorfield(&mut img, false, 2, 1, 1, &uniform(7, 1, (3, 0)));
    assert_eq!(brightnesses(&img), vec![30, 1, 2, 10, 3, 4, 20]);
}

#[test]
fn vector_path_ends_at_image_edge() {
    let mut img = row_image(&[10, 1, 2, 30, 3, 4, 20]);
    run_vectorfield(&mut img, false, 10, 1, 1, &uniform(7, 1, (3, 0)));
    assert_eq!(brightnesses(&img), vec![30, 1, 2, 20, 3, 4, 10]);
}

#[test]
fn vector_sorts_each_path() {
    let values = [10u8, 30, 20, 5, 40, 1];
    let pixels: Vec<Pixel> = values.iter().map(|v| grey(*v)).collect();
    let mut img = Image::new(3, 2, pixels).unwrap();
    let right = uniform(3, 2, (1, 0));
    run_vectorfield(&mut img, false, 3, 2, 1, &right);
    assert_eq!(brightnesses(&img), vec![30, 20, 10, 40, 5, 1]);
    run_vectorfield(&mut img, true, 2, 1, 1, &right);
    assert_eq!(brightnesses(&img), vec![20, 30, 10, 40, 5, 1]);
}

#[test]
fn vector_paths_start_in_strips() {
    let values = [10u8, 30, 20, 5, 40, 1];
    let pixels: Vec<Pixel> = values.iter().map(|v| grey(*v)).collect();
    let mut img = Image::new(3, 2, pixels).unwrap();
    // paths 2 and 3 start at x = 1 * spacing = 2, rows 0 and 1
    run_vectorfield(&mut img, true, 5, 4, 2, &uniform(3, 2, (1, 0)));
    assert_eq!(brightnesses(&img), vec![10, 20, 30, 1, 5, 40]);
}

#[test]
fn find_next_steps_diagonally() {
    assert_eq!(find_next((10, 10), (3, 4)), (4, 5));
}

#[test]
fn classic_reverse_second_pass_changes_nothing() {
    let mut img = row_image(&[10, 150, 180, 100, 160, 20, 200, 120, 5]);
    run_classic(&mut img, false, true, false, 100);
    let once = img.pixels.clone();
    run_classic(&mut img, false, true, false, 100);
    assert_eq!(img.pixels, once);
}
