use liquid_resize::{find_seam, is_valid_seam, CarveError, OriginalAlgo, PixelGrid, SeamHistory};

fn grey(v: u8) -> [u8; 3] {
    [v, v, v]
}

/// Builds a grid row by row from per-column pixel values.
fn grid_of(rows: &[Vec<[u8; 3]>]) -> PixelGrid {
    let width = rows[0].len() as u32;
    let height = rows.len() as u32;
    let pixels: Vec<[u8; 3]> = rows.iter().flat_map(|r| r.iter().copied()).collect();
    PixelGrid::new(pixels, width, height).unwrap()
}

/// Five columns black, white, mid grey, white, black, repeated on four rows:
/// the middle column is the only one with zero energy.
fn strip_grid() -> PixelGrid {
    let row = vec![grey(0), grey(255), grey(128), grey(255), grey(0)];
    grid_of(&[row.clone(), row.clone(), row.clone(), row])
}

#[test]
fn new_accepts_matching_dimensions() {
    let g = PixelGrid::new(vec![grey(1); 6], 3, 2).unwrap();
    assert_eq!(g.width(), 3);
    assert_eq!(g.height(), 2);
    assert_eq!(g.pixels().len(), 6);
}

#[test]
fn new_rejects_wrong_pixel_count() {
    assert_eq!(PixelGrid::new(vec![grey(1); 5], 3, 2).err(), Some(CarveError::InvalidDimensions));
    assert_eq!(PixelGrid::new(vec![grey(1); 7], 3, 2).err(), Some(CarveError::InvalidDimensions));
}

#[test]
fn new_rejects_zero_dimensions() {
    assert_eq!(PixelGrid::new(Vec::new(), 0, 2).err(), Some(CarveError::InvalidDimensions));
    assert_eq!(PixelGrid::new(Vec::new(), 2, 0).err(), Some(CarveError::InvalidDimensions));
    assert_eq!(PixelGrid::new(Vec::new(), 0, 0).err(), Some(CarveError::InvalidDimensions));
}

#[test]
fn algo_new_rejects_wrong_pixel_count() {
    assert!(matches!(OriginalAlgo::new(vec![grey(1); 4], 3, 2), Err(CarveError::InvalidDimensions)));
    assert!(OriginalAlgo::new(vec![grey(1); 6], 3, 2).is_ok());
}

#[test]
fn uniform_grid_has_zero_energy() {
    for (w, h) in [(1usize, 1usize), (1, 4), (4, 1), (5, 3)] {
        let g = PixelGrid::new(vec![[12, 200, 7]; w * h], w as u32, h as u32).unwrap();
        let e = g.calculate_energy_matrix();
        assert_eq!(e.len(), w * h);
        assert!(e.iter().all(|&v| v == 0));
    }
}

#[test]
fn energy_sums_squared_channel_differences() {
    // 2 x 2: every neighbour is missing on one side, so each gradient is taken
    // between the pixel itself and its single neighbour on that axis.
    let g = grid_of(&[vec![[0, 0, 0], [1, 2, 3]], vec![[4, 0, 0], [0, 0, 9]]]);
    let e = g.calculate_energy_matrix();
    // (0,0): x against (1,2,3) = 1+4+9 = 14; y against (4,0,0) = 16.
    // (0,1): x against (0,0,0) = 14; y against (0,0,9) = 1+4+36 = 41.
    // (1,0): x against (0,0,9) = 16+0+81 = 97; y against (0,0,0) = 16.
    // (1,1): x against (4,0,0) = 97; y against (1,2,3) = 41.
    assert_eq!(e, vec![30, 55, 113, 138]);
}

#[test]
fn energy_uses_both_neighbours_inside_the_grid() {
    let g = grid_of(&[
        vec![grey(0), grey(0), grey(0)],
        vec![grey(10), grey(50), grey(20)],
        vec![grey(0), grey(30), grey(0)],
    ]);
    let e = g.calculate_energy_matrix();
    // centre: x = 3 * (10 - 20)^2 = 300, y = 3 * (0 - 30)^2 = 2700.
    assert_eq!(e[4], 3000);
}

#[test]
fn checkerboard_energy() {
    let g = grid_of(&[
        vec![grey(255), grey(0), grey(255)],
        vec![grey(0), grey(255), grey(0)],
        vec![grey(255), grey(0), grey(255)],
    ]);
    let e = g.calculate_energy_matrix();
    // the centre's neighbours on both axes are equal, the edge middles differ
    assert_eq!(e[4], 0);
    assert_eq!(e[1], 6 * 255 * 255 / 2);
}

#[test]
fn three_by_three_bright_column() {
    let row = vec![grey(0), grey(10), grey(0)];
    let g = grid_of(&[row.clone(), row.clone(), row]);
    let e = g.calculate_energy_matrix();
    // With the edge pixel standing in for its missing neighbour, the bright
    // middle column sees equal dark neighbours on both sides and the dark edge
    // columns see the bright one.
    assert_eq!(e, vec![300, 0, 300, 300, 0, 300, 300, 0, 300]);
    let seam = find_seam(&e, 3, 3);
    assert_eq!(seam, vec![1, 4, 7]);
}

#[test]
fn seam_follows_zero_energy_strip() {
    let g = strip_grid();
    let e = g.calculate_energy_matrix();
    for r in 0..4 {
        assert_eq!(e[r * 5 + 2], 0);
        assert!(e[r * 5 + 1] > 0 && e[r * 5 + 3] > 0);
    }
    assert_eq!(find_seam(&e, 5, 4), vec![2, 7, 12, 17]);
}

#[test]
fn seam_ties_break_to_the_left() {
    let e = vec![0u32; 12];
    assert_eq!(find_seam(&e, 4, 3), vec![0, 4, 8]);
    // two equally cheap columns: the leftmost wins
    let e = vec![5, 1, 5, 1, 5, 1, 5, 1, 5, 1, 5, 1];
    assert_eq!(find_seam(&e, 4, 3), vec![1, 5, 9]);
}

#[test]
fn seam_takes_the_cheapest_connected_path() {
    // energies          cost table
    //   9 1 9             9  1  9
    //   1 9 9             2 10 10
    //   9 9 1            11 11 11
    // The last row ties everywhere, so column 0 is taken; its cheapest
    // predecessor is column 0, and that one's is column 1.
    let e = vec![9, 1, 9, 1, 9, 9, 9, 9, 1];
    let seam = find_seam(&e, 3, 3);
    assert_eq!(seam, vec![1, 3, 6]);
    let cost: u32 = seam.iter().map(|&o| e[o as usize]).sum();
    assert_eq!(cost, 11);
}

#[test]
fn seam_of_single_column_grid() {
    assert_eq!(find_seam(&vec![4, 2, 7], 1, 3), vec![0, 1, 2]);
}

#[test]
fn seam_of_single_row_grid() {
    assert_eq!(find_seam(&vec![4, 2, 7, 2], 4, 1), vec![1]);
}

#[test]
fn seams_are_connected() {
    // a grid of varied colours; every seam found while carving it is connected
    let mut pixels = Vec::new();
    for i in 0..(9u32 * 6) {
        pixels.push([(i * 37 % 256) as u8, (i * 91 % 256) as u8, (i * 13 % 256) as u8]);
    }
    let mut algo = OriginalAlgo::new(pixels, 9, 6).unwrap();
    while algo.width() > 1 {
        let w = algo.width();
        let seam = algo.remove_vertical_seam();
        assert_eq!(seam.len(), 6);
        assert!(is_valid_seam(&seam, w, 6));
        for r in 1..6 {
            let a = seam[r - 1] as i64 - (w as i64) * (r as i64 - 1);
            let b = seam[r] as i64 - (w as i64) * r as i64;
            assert!((a - b).abs() <= 1);
        }
        assert_eq!(algo.width(), w - 1);
        assert_eq!(algo.grid().pixels().len(), ((w - 1) * 6) as usize);
    }
}

#[test]
fn remove_seam_drops_one_pixel_per_row() {
    let g = grid_of(&[
        vec![grey(1), grey(2), grey(3)],
        vec![grey(4), grey(5), grey(6)],
    ]);
    let out = g.remove_seam(&vec![1, 3]);
    assert_eq!(out.width(), 2);
    assert_eq!(out.height(), 2);
    assert_eq!(out.pixels(), &vec![grey(1), grey(3), grey(5), grey(6)]);
    let out = g.remove_seam(&vec![2, 5]);
    assert_eq!(out.pixels(), &vec![grey(1), grey(2), grey(4), grey(5)]);
}

#[test]
fn remove_vertical_seam_cuts_the_strip() {
    let g = strip_grid();
    let mut algo = OriginalAlgo::from_grid(&g);
    let seam = algo.remove_vertical_seam();
    assert_eq!(seam, vec![2, 7, 12, 17]);
    assert_eq!(algo.width(), 4);
    assert_eq!(algo.height(), 4);
    let row = vec![grey(0), grey(255), grey(255), grey(0)];
    let expected: Vec<[u8; 3]> = (0..4).flat_map(|_| row.iter().copied()).collect();
    assert_eq!(algo.grid().pixels(), &expected);
}

#[test]
fn carve_next_stops_at_the_floor() {
    let mut algo = OriginalAlgo::new(vec![grey(3); 12], 4, 3).unwrap();
    assert!(algo.carve_next(2).is_some());
    assert!(algo.carve_next(2).is_some());
    assert_eq!(algo.width(), 2);
    assert!(algo.carve_next(2).is_none());
    assert_eq!(algo.width(), 2);
    assert!(algo.carve_next(0).is_some());
    assert!(algo.carve_next(0).is_none());
    assert_eq!(algo.width(), 1);
}

#[test]
fn carve_next_below_default_floor_does_nothing() {
    let mut algo = OriginalAlgo::new(vec![grey(3); 10], 10, 1).unwrap();
    assert!(algo.carve_next(liquid_resize::MIN_WIDTH).is_none());
    assert_eq!(algo.width(), 10);
}

#[test]
fn is_valid_seam_checks_rows_and_steps() {
    assert!(is_valid_seam(&vec![0, 3, 7], 3, 3));
    assert!(!is_valid_seam(&vec![0, 3], 3, 3));
    assert!(!is_valid_seam(&vec![0, 5, 7], 3, 3));
    assert!(!is_valid_seam(&vec![0, 2, 7], 3, 3));
    assert!(!is_valid_seam(&vec![0, 3, 9], 3, 3));
}

#[test]
fn history_records_only_fitting_seams() {
    let g = PixelGrid::new(vec![grey(0); 9], 3, 3).unwrap();
    let mut h = SeamHistory::new(&g);
    assert_eq!(h.progress(), 0);
    assert!(!h.record(vec![0, 4, 9]));
    assert!(h.record(vec![1, 4, 7]));
    assert_eq!(h.progress(), 1);
    // the second seam must fit a grid two columns wide
    assert!(!h.record(vec![2, 4, 6]));
    assert!(h.record(vec![1, 3, 5]));
    // one column must always remain
    assert!(!h.record(vec![0, 1, 2]));
    assert_eq!(h.progress(), 2);
}

fn varied_pixels(w: u32, h: u32) -> Vec<[u8; 3]> {
    (0..w * h).map(|i| [(i * 53 % 256) as u8, (i * 17 % 256) as u8, (i * 101 % 256) as u8]).collect()
}

#[test]
fn replay_matches_the_working_grid() {
    let original = PixelGrid::new(varied_pixels(12, 5), 12, 5).unwrap();
    let mut algo = OriginalAlgo::from_grid(&original);
    let mut history = SeamHistory::new(&original);
    let mut snapshots = vec![algo.grid().pixels().clone()];
    while let Some(seam) = algo.carve_next(3) {
        assert!(history.record(seam));
        snapshots.push(algo.grid().pixels().clone());
    }
    assert_eq!(history.progress(), 9);
    for (n, pixels) in snapshots.iter().enumerate() {
        let g = history.preview_at_seam_count(&original, n);
        assert_eq!(g.width(), 12 - n as u32);
        assert_eq!(g.pixels(), pixels);
        let c = history.commit_at_seam_count(&original, n);
        assert_eq!(c.pixels(), pixels);
    }
}

#[test]
fn preview_clamps_to_progress() {
    let original = PixelGrid::new(varied_pixels(8, 4), 8, 4).unwrap();
    let mut algo = OriginalAlgo::from_grid(&original);
    let mut history = SeamHistory::new(&original);
    for _ in 0..3 {
        let seam = algo.carve_next(1).unwrap();
        assert!(history.record(seam));
    }
    // a request for five seams while only three exist uses those three
    let snap = history.snapshot(5);
    assert_eq!(snap.progress(), 3);
    let g = snap.preview_at_seam_count(&original, 5);
    assert_eq!(g.width(), 5);
    assert_eq!(g.pixels(), algo.grid().pixels());
    let first = history.snapshot(1);
    assert_eq!(first.progress(), 1);
    assert_eq!(first.preview_at_seam_count(&original, 5).width(), 7);
}

#[test]
fn preview_at_zero_is_the_original() {
    let original = PixelGrid::new(varied_pixels(4, 3), 4, 3).unwrap();
    let history = SeamHistory::new(&original);
    let g = history.preview_at_seam_count(&original, 0);
    assert_eq!(g.pixels(), original.pixels());
    assert_eq!(history.preview_at_seam_count(&original, 2).width(), 4);
}
