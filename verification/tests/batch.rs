use nano_gpt::batch::{gather_windows, sample_batch, BatchRng};
use rand::rngs::StdRng;
use rand::{Rng, SeedableRng};

#[test]
fn batch_shapes_match_request() {
    let tokens: Vec<u32> = (0..64).collect();
    let mut rng = BatchRng::new(StdRng::seed_from_u64(0));
    let (x, y) = sample_batch(&tokens, 4, 8, &mut rng);
    assert_eq!(x.dims(), [4, 8]);
    assert_eq!(y.dims(), [4, 8]);
}

#[test]
fn targets_are_inputs_shifted_by_one() {
    // Deterministic corpus + seeded rng so we can verify the shift.
    let tokens: Vec<u32> = (0..32).collect();
    let mut rng = BatchRng::new(StdRng::seed_from_u64(42));
    let (x, y) = sample_batch(&tokens, 2, 4, &mut rng);

    let x_data: Vec<i64> = x.values().iter().map(|&v| v as i64).collect();
    let y_data: Vec<i64> = y.values().iter().map(|&v| v as i64).collect();
    for (xi, yi) in x_data.iter().zip(y_data.iter()) {
        assert_eq!(*yi, *xi + 1);
    }
}

#[test]
fn windows_are_contiguous_runs_of_the_corpus() {
    let tokens: Vec<u32> = vec![10, 11, 12, 13, 14, 15, 16, 17];
    let (x, y) = gather_windows(&tokens, &[0, 3, 4], 3);
    assert_eq!(x.dims(), [3, 3]);
    assert_eq!(y.dims(), [3, 3]);
    assert_eq!(x.values(), &[10, 11, 12, 13, 14, 15, 14, 15, 16][..]);
    assert_eq!(y.values(), &[11, 12, 13, 14, 15, 16, 15, 16, 17][..]);
}

#[test]
fn large_ids_wrap_like_an_i32_cast() {
    let tokens: Vec<u32> = vec![u32::MAX, 5];
    let (x, y) = gather_windows(&tokens, &[0], 1);
    assert_eq!(x.values(), &[-1][..]);
    assert_eq!(y.values(), &[5][..]);
}

#[test]
fn sampled_rows_stay_inside_the_corpus() {
    let tokens: Vec<u32> = (0..10).collect();
    let mut rng = BatchRng::new(StdRng::seed_from_u64(7));
    for _ in 0..20 {
        let (x, y) = sample_batch(&tokens, 3, 9, &mut rng);
        // Only one window of 9 tokens with a shifted target fits in 10 tokens.
        assert_eq!(x.values(), &[0, 1, 2, 3, 4, 5, 6, 7, 8, 0, 1, 2, 3, 4, 5, 6, 7, 8, 0, 1, 2, 3, 4, 5, 6, 7, 8][..]);
        assert_eq!(y.values()[0], 1);
        assert_eq!(y.values()[8], 9);
    }
}

#[test]
fn empty_batch_has_no_rows() {
    let tokens: Vec<u32> = (0..10).collect();
    let mut rng = BatchRng::new(StdRng::seed_from_u64(1));
    let (x, y) = sample_batch(&tokens, 0, 4, &mut rng);
    assert_eq!(x.dims(), [0, 4]);
    assert!(x.values().is_empty());
    assert!(y.values().is_empty());
}

#[test]
fn start_positions_are_drawn_from_the_whole_range() {
    let tokens: Vec<u32> = (0..1000).collect();
    let mut rng = BatchRng::new(StdRng::seed_from_u64(3));
    let (x, _) = sample_batch(&tokens, 16, 4, &mut rng);
    let firsts: Vec<i32> = (0..16).map(|r| x.values()[r * 4]).collect();
    // Every row is a run of consecutive ids inside the corpus.
    for r in 0..16 {
        for j in 0..4 {
            assert_eq!(x.values()[r * 4 + j], firsts[r] + j as i32);
        }
        assert!(firsts[r] >= 0 && firsts[r] <= 995);
    }
    // Sixteen draws over 996 positions do not all land on the same start.
    assert!(firsts.iter().any(|&f| f != firsts[0]));
    assert!(firsts.iter().any(|&f| f != 995));
}

#[test]
fn each_row_starts_at_the_next_draw_over_the_full_range() {
    let tokens: Vec<u32> = (0..100).collect();
    let mut rng = BatchRng::new(StdRng::seed_from_u64(11));
    let (x, y) = sample_batch(&tokens, 5, 4, &mut rng);
    let mut reference = StdRng::seed_from_u64(11);
    for r in 0..5 {
        let start: usize = reference.random_range(0..=95);
        assert_eq!(x.values()[r * 4], start as i32);
        assert_eq!(y.values()[r * 4], start as i32 + 1);
    }
}
