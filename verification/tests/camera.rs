use raytracer::camera::{pixel_index, scanline_first, scanline_next, shotgun_sample, SamplePosition};

#[test]
fn pixel_index_is_row_major() {
    assert_eq!(pixel_index(400, 3, 2), 803);
    assert_eq!(pixel_index(400, 0, 0), 0);
    assert_eq!(pixel_index(7, 6, 4), 34);
}

#[test]
fn scanline_starts_at_bottom_right_pixel() {
    assert_eq!(scanline_first(3, 2, 2), Some(SamplePosition { i: 2, j: 1, n: 0 }));
}

#[test]
fn scanline_of_empty_image_is_empty() {
    assert_eq!(scanline_first(0, 2, 2), None);
    assert_eq!(scanline_first(3, 0, 2), None);
    assert_eq!(scanline_first(3, 2, 0), None);
}

#[test]
fn scanline_visits_every_sample_once_in_loop_order() {
    let (w, h, s) = (3usize, 2usize, 2usize);
    let mut visited = Vec::new();
    let mut cursor = scanline_first(w, h, s);
    while let Some(p) = cursor {
        visited.push((p.i, p.j, p.n));
        cursor = scanline_next(w, h, s, p);
    }
    let mut expected = Vec::new();
    for n in 0..s {
        for j in (0..h).rev() {
            for i in (0..w).rev() {
                expected.push((i, j, n));
            }
        }
    }
    assert_eq!(visited, expected);
    assert_eq!(visited.len(), 12);
}

#[test]
fn scanline_next_moves_left_then_up_then_to_next_pass() {
    assert_eq!(
        scanline_next(3, 2, 2, SamplePosition { i: 2, j: 1, n: 0 }),
        Some(SamplePosition { i: 1, j: 1, n: 0 })
    );
    assert_eq!(
        scanline_next(3, 2, 2, SamplePosition { i: 0, j: 1, n: 0 }),
        Some(SamplePosition { i: 2, j: 0, n: 0 })
    );
    assert_eq!(
        scanline_next(3, 2, 2, SamplePosition { i: 0, j: 0, n: 0 }),
        Some(SamplePosition { i: 2, j: 1, n: 1 })
    );
    assert_eq!(scanline_next(3, 2, 2, SamplePosition { i: 0, j: 0, n: 1 }), None);
}

#[test]
fn shotgun_counts_samples_per_pixel() {
    let mut counts = vec![0usize; 6];
    assert_eq!(shotgun_sample(&mut counts, 3, 1, 1), 1);
    assert_eq!(shotgun_sample(&mut counts, 3, 1, 1), 2);
    assert_eq!(shotgun_sample(&mut counts, 3, 2, 0), 1);
    assert_eq!(counts, vec![0, 0, 1, 0, 2, 0]);
}
