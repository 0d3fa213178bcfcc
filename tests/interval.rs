use chokurei::interval::{estimate_interval, parse_url, purify_text, MAX_INTERVAL, MIN_INTERVAL};

const PROMPTNESS: f32 = 0.5;

#[test]
fn main_it_estimates_interval() {
    assert_eq!(estimate_interval(MIN_INTERVAL, 30, 0), (MIN_INTERVAL as f32 / PROMPTNESS) as u32);

    // Keypoints.
    let some_prev = MIN_INTERVAL + 2048;
    assert_eq!(estimate_interval(some_prev, 10000, ((1. - PROMPTNESS) * 10000.) as u32), some_prev);
    assert_eq!(estimate_interval(MIN_INTERVAL, 30, 30), MIN_INTERVAL);
    assert_eq!(estimate_interval(MIN_INTERVAL, 1, 1), MIN_INTERVAL);
    assert_eq!(estimate_interval(MAX_INTERVAL, 30, 0), MAX_INTERVAL);
    assert_eq!(estimate_interval(MAX_INTERVAL, 1, 0), MAX_INTERVAL);
    assert_eq!(estimate_interval(MIN_INTERVAL + 42, 0, 0), 2 * MIN_INTERVAL + 42);
    assert_eq!(estimate_interval(0, 30, 30), MIN_INTERVAL);
    assert_eq!(estimate_interval(0, 30, 0), MIN_INTERVAL);
    assert_eq!(estimate_interval(0, 1, 0), MIN_INTERVAL);
    assert_eq!(estimate_interval(0, 0, 0), MIN_INTERVAL);
}

#[test]
fn interval_partial_trust() {
    // 15 items, 5 new: staleness 2/3, estimate 2 * 10000 * 2/3, trust 1/2.
    assert_eq!(estimate_interval(10000, 15, 5), 11666);
    // A failed poll near the cap stops at the cap.
    assert_eq!(estimate_interval(MAX_INTERVAL - 100, 0, 0), MAX_INTERVAL);
}

#[test]
fn purify_text_trims() {
    assert_eq!(purify_text("  hello world \n".to_string()), Some("hello world".to_string()));
    assert_eq!(purify_text("clean".to_string()), Some("clean".to_string()));
    assert_eq!(purify_text("   \t".to_string()), None);
    assert_eq!(purify_text(String::new()), None);
}

#[test]
fn parse_url_ignores_surrounding_whitespace() {
    let url = parse_url("  http://example.com/feed \n").unwrap();
    assert_eq!(url.as_str(), "http://example.com/feed");
    assert!(parse_url("  no url here ").is_none());
}
