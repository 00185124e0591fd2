use nano_gpt::model::{context_start, heads_split_evenly};

#[test]
fn width_must_be_a_multiple_of_the_head_count() {
    assert!(heads_split_evenly(64, 2));
    assert!(heads_split_evenly(16, 16));
    assert!(!heads_split_evenly(10, 4));
    assert!(!heads_split_evenly(1, 0));
    assert!(heads_split_evenly(0, 0));
    assert!(heads_split_evenly(0, 3));
}

#[test]
fn generation_window_drops_the_oldest_tokens() {
    assert_eq!(context_start(5, 64), 0);
    assert_eq!(context_start(64, 64), 0);
    assert_eq!(context_start(65, 64), 1);
    assert_eq!(context_start(200, 64), 136);
    assert_eq!(context_start(0, 0), 0);
}
