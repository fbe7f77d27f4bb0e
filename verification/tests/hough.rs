use webarkit_kpm::clustering::KpmError;
use webarkit_kpm::hough::{BinGrid, HoughVotes, Match, MIN_VOTES_THRESHOLD};

#[test]
fn match_default_and_equality() {
    let m = Match::default();
    assert_eq!(m, Match { ins: 0, ref_: 0 });
    assert_ne!(Match { ins: 1, ref_: 2 }, Match { ins: 2, ref_: 1 });
}

#[test]
fn bin_grid_rejects_empty_axes() {
    assert!(matches!(BinGrid::new(0, 5, 12, 10), Err(KpmError::InvalidInput(_))));
    assert!(matches!(BinGrid::new(5, -1, 12, 10), Err(KpmError::InvalidInput(_))));
    assert!(matches!(BinGrid::new(5, 5, 0, 10), Err(KpmError::InvalidInput(_))));
    assert!(matches!(BinGrid::new(5, 5, 12, 0), Err(KpmError::InvalidInput(_))));
    assert!(BinGrid::new(5, 5, 12, 10).is_ok());
}

#[test]
fn bin_index_roundtrip_all_bins() {
    let g = BinGrid::new(3, 4, 5, 2).unwrap();
    let mut seen = vec![false; 3 * 4 * 5 * 2];
    for bs in 0..2 {
        for ba in 0..5 {
            for by in 0..4 {
                for bx in 0..3 {
                    let idx = g.bin_index(bx, by, ba, bs);
                    assert_eq!(idx, bx + by * 3 + ba * 12 + bs * 60);
                    assert_eq!(g.bins_from_index(idx), (bx, by, ba, bs));
                    assert!(!seen[idx as usize]);
                    seen[idx as usize] = true;
                }
            }
        }
    }
    assert!(seen.iter().all(|&s| s));
}

#[test]
fn set_xy_bins_updates_strides() {
    let mut g = BinGrid::new(5, 5, 12, 10).unwrap();
    g.set_xy_bins(7, 9);
    assert_eq!((g.num_x_bins(), g.num_y_bins()), (7, 9));
    assert_eq!(g.bin_index(1, 1, 1, 1), 1 + 7 + 63 + 63 * 12);
    assert_eq!(g.bins_from_index(1 + 7 + 63 + 63 * 12), (1, 1, 1, 1));
}

#[test]
fn vote_casts_sixteen_votes() {
    let g = BinGrid::new(4, 4, 4, 4).unwrap();
    let mut v = HoughVotes::new(g);
    assert_eq!(v.get_maximum_votes(), None);
    assert!(v.vote_bins(1, 1, 1, 1));
    // every bin of the 2x2x2x2 block holds one vote; the largest index wins ties
    let top = v.grid().bin_index(2, 2, 2, 2);
    assert_eq!(v.get_maximum_votes(), Some((top, 1)));
    assert!(matches!(v.winning_bin(), Err(KpmError::InvalidInput(_))));
    assert!(v.vote_bins(1, 1, 1, 1));
    assert!(v.vote_bins(0, 0, 0, 0));
    // bin (1,1,1,1) now has three votes
    let corner = v.grid().bin_index(1, 1, 1, 1);
    assert_eq!(v.get_maximum_votes(), Some((corner, 3)));
    assert_eq!(v.winning_bin().unwrap(), corner);
    assert!(MIN_VOTES_THRESHOLD == 3);
}

#[test]
fn vote_wraps_angle_and_rejects_borders() {
    let g = BinGrid::new(3, 3, 4, 3).unwrap();
    let mut v = HoughVotes::new(g);
    // neighbourhood leaves the grid in x, y or scale
    assert!(!v.vote_bins(2, 0, 0, 0));
    assert!(!v.vote_bins(0, -1, 0, 0));
    assert!(!v.vote_bins(0, 0, 0, 2));
    assert_eq!(v.get_maximum_votes(), None);
    // angle bin -1 wraps to 3, and its upper neighbour to 0
    assert!(v.vote_bins(0, 0, -1, 0));
    assert!(v.vote_bins(0, 0, 3, 0));
    assert!(v.vote_bins(0, 0, 0, 0));
    let a0 = v.grid().bin_index(1, 1, 0, 1);
    let a3 = v.grid().bin_index(1, 1, 3, 1);
    // angle 0 got votes from all three, angle 3 from the first two only
    assert_eq!(v.get_maximum_votes(), Some((a0, 3)));
    assert!(a3 > a0);
    v.reset();
    assert_eq!(v.get_maximum_votes(), None);
}

#[test]
fn single_angle_bin_counts_twice() {
    let g = BinGrid::new(2, 2, 1, 2).unwrap();
    let mut v = HoughVotes::new(g);
    assert!(v.vote_bins(0, 0, 0, 0));
    let last = v.grid().bin_index(1, 1, 0, 1);
    assert_eq!(v.get_maximum_votes(), Some((last, 2)));
}

#[test]
fn test_bin_params_invalid_x_bins() {
    assert!(BinGrid::new(0, 10, 8, 5).is_err());
}

#[test]
fn test_bin_index_and_inverse() {
    let grid = BinGrid::new(5, 5, 4, 3).expect("valid");
    let idx = grid.bin_index(2, 1, 1, 1);
    let (bx, by, ba, bs) = grid.bins_from_index(idx);
    assert_eq!((bx, by, ba, bs), (2, 1, 1, 1));
}

#[test]
fn test_bin_params_set_xy_bins_updates_strides_atomically() {
    let mut g = BinGrid::new(5, 5, 12, 10).unwrap();
    g.set_xy_bins(13, 17);
    assert_eq!(g.num_x_bins(), 13);
    assert_eq!(g.num_y_bins(), 17);
    // the angle stride is x * y, the scale stride x * y * angle
    assert_eq!(g.bin_index(0, 0, 1, 0), 13 * 17);
    assert_eq!(g.bin_index(0, 0, 0, 1), 13 * 17 * 12);
}

#[test]
fn test_hough_voting_creation() {
    let grid = BinGrid::new(10, 10, 8, 5).expect("valid");
    let voting = HoughVotes::new(grid);
    assert!(voting.get_maximum_votes().is_none());
}

#[test]
fn bin_grid_with_more_bins_than_i32_is_accepted() {
    // x·y·angle fits in an i32; the scale axis takes the total past it.
    let g = BinGrid::new(1000, 1000, 1000, 3).unwrap();
    assert_eq!(g.num_scale_bins(), 3);
    assert_eq!(g.num_x_bins(), 1000);
}

#[test]
fn votes_on_a_grid_with_more_bins_than_i32() {
    // 1000 x 1000 x 1000 x 3 bins: the low scale bins are numbered within i32
    let g = BinGrid::new(1000, 1000, 1000, 3).unwrap();
    let mut v = HoughVotes::new(g);
    assert!(v.vote_bins(0, 0, 0, 0));
    assert_eq!(v.get_maximum_votes().map(|(_, c)| c), Some(1));
    assert_eq!(v.grid().bins_from_index(1_000_000_000 + 1), (1, 0, 0, 1));
}
