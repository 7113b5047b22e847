use media_rating::image_search::{extract_vqd, image_category_key, image_title_key};
use media_rating::order_stat::ceil_log2;
use media_rating::scheduler::{pick_opponent, pick_random_pair, weighted_pick};

#[test]
fn weighted_pick_splits_draws_by_category_size() {
    // Sizes 1 and 3: draw value 0 selects the first category, values 1 to 3
    // the second — three times as many, matching the size ratio.
    let sizes = vec![1usize, 3usize];
    assert_eq!(weighted_pick(&sizes, 0), 0);
    assert_eq!(weighted_pick(&sizes, 1), 1);
    assert_eq!(weighted_pick(&sizes, 2), 1);
    assert_eq!(weighted_pick(&sizes, 3), 1);
}

#[test]
fn weighted_pick_skips_empty_categories() {
    let sizes = vec![0usize, 2usize, 0usize, 1usize];
    assert_eq!(weighted_pick(&sizes, 0), 1);
    assert_eq!(weighted_pick(&sizes, 1), 1);
    assert_eq!(weighted_pick(&sizes, 2), 3);
}

#[test]
fn random_pairs_are_distinct_and_in_range() {
    for _ in 0..200 {
        let (a, b) = pick_random_pair(3);
        assert!(a < 3 && b < 3);
        assert_ne!(a, b);
    }
}

#[test]
fn opponents_come_from_the_proximity_window() {
    // Twenty entries give a window radius of 20 / 10 + 1 = 3.
    for _ in 0..200 {
        let b = pick_opponent(10, 20);
        assert!(b < 20);
        assert_ne!(b, 10);
        assert!(7 <= b && b <= 13);
    }
    // At the edges the window is cut off, never out of range.
    for _ in 0..50 {
        let b = pick_opponent(0, 2);
        assert_eq!(b, 1);
    }
}

#[test]
fn ceil_log2_matches_known_values() {
    assert_eq!(ceil_log2(0), 0);
    assert_eq!(ceil_log2(1), 0);
    assert_eq!(ceil_log2(2), 1);
    assert_eq!(ceil_log2(3), 2);
    assert_eq!(ceil_log2(4), 2);
    assert_eq!(ceil_log2(5), 3);
    assert_eq!(ceil_log2(1024), 10);
    assert_eq!(ceil_log2(1025), 11);
}

#[test]
fn vqd_token_is_scraped_from_double_quotes() {
    let html = "window.x = 1; vqd=\"4-123456789\"; more";
    assert_eq!(extract_vqd(html), Some(String::from("4-123456789")));
}

#[test]
fn vqd_token_falls_back_to_single_quotes() {
    let html = "nothing here vqd='tok42' end";
    assert_eq!(extract_vqd(html), Some(String::from("tok42")));
}

#[test]
fn first_marker_wins_over_the_second() {
    let html = "zz vqd=\"tok1\" then vqd='tok2'";
    assert_eq!(extract_vqd(html), Some(String::from("tok1")));
}

#[test]
fn missing_marker_yields_nothing() {
    assert_eq!(extract_vqd("plain page without a token"), None);
}

#[test]
fn empty_token_is_allowed() {
    let html = "vqd=\"\"";
    assert_eq!(extract_vqd(html), Some(String::from("")));
}

#[test]
fn image_title_key_cuts_annotations_and_whitespace() {
    assert_eq!(image_title_key("Dune (1984) "), String::from("Dune"));
    assert_eq!(image_title_key("  Emma  "), String::from("Emma"));
    assert_eq!(image_title_key("   "), String::from(""));
    assert_eq!(image_title_key("(x)"), String::from(""));
    assert_eq!(image_category_key("films*"), String::from("films"));
    assert_eq!(image_category_key(""), String::from(""));
}
