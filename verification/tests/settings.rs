use nano_gpt::settings::{env_u64, env_usize, parse_decimal, should_log};

#[test]
fn numeric_settings_parse_or_fall_back() {
    assert_eq!(env_usize(Some("42"), 7), 42);
    assert_eq!(env_usize(Some("+5"), 7), 5);
    assert_eq!(env_usize(Some("forty"), 7), 7);
    assert_eq!(env_usize(Some(" 42"), 7), 7);
    assert_eq!(env_usize(Some(""), 7), 7);
    assert_eq!(env_usize(Some("-1"), 7), 7);
    assert_eq!(env_usize(None, 7), 7);
}

#[test]
fn seed_settings_parse_or_fall_back() {
    assert_eq!(env_u64(Some("18446744073709551615"), 0), u64::MAX);
    assert_eq!(env_u64(Some("18446744073709551616"), 3), 3);
    assert_eq!(env_u64(Some("12"), 0), 12);
    assert_eq!(env_u64(None, 9), 9);
}

#[test]
fn decimal_parsing_matches_std() {
    let cases = [
        "", "+", "-", "0", "007", "+12", "++1", "-3", "12a", "a12", " 1", "1 ",
        "١٢", "255", "256", "65535", "4294967295", "4294967296",
        "18446744073709551615", "18446744073709551616", "99999999999999999999999",
    ];
    for s in cases {
        assert_eq!(parse_decimal(s, u8::MAX as u64), s.parse::<u8>().ok().map(u64::from), "{s:?}");
        assert_eq!(parse_decimal(s, u32::MAX as u64), s.parse::<u32>().ok().map(u64::from), "{s:?}");
        assert_eq!(parse_decimal(s, u64::MAX), s.parse::<u64>().ok(), "{s:?}");
    }
}

#[test]
fn progress_is_reported_on_first_every_nth_and_last_step() {
    let logged: Vec<usize> = (1..=250).filter(|&s| should_log(s, 100, 250)).collect();
    assert_eq!(logged, vec![1, 100, 200, 250]);
    let every: Vec<usize> = (1..=3).filter(|&s| should_log(s, 1, 3)).collect();
    assert_eq!(every, vec![1, 2, 3]);
}
