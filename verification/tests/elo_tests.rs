use media_rating::codec::CellValue;
use media_rating::elo::elo_update;
use media_rating::model::Model;

fn grid_for(name: &str, rows: &[(&str, i64)]) -> Vec<Vec<CellValue>> {
    let mut ca = vec![CellValue::Text(String::from(name))];
    let mut cb = vec![CellValue::Empty];
    for (t, r) in rows {
        ca.push(CellValue::Text(String::from(*t)));
        cb.push(CellValue::Number(*r));
    }
    vec![ca, cb]
}

fn ratings(m: &Model, cat: &String) -> Vec<(String, i64)> {
    m.get_category_entries(cat).iter().map(|e| (e.title.clone(), e.rating)).collect()
}

#[test]
fn even_match_moves_sixteen_points_each_way() {
    // Two players at 400 with k = 32: expected score one half each, so the
    // winner ends at 416 and the loser at 384.
    assert_eq!(elo_update(32, false, 400, 400), (416, 384));
}

#[test]
fn clamped_update_stays_on_the_display_scale() {
    // The favourite at 745 loses to the 700 player with k = 64: the winner
    // climbs to 736, the loser falls symmetrically to 709, both already on
    // the display scale.
    assert_eq!(elo_update(64, true, 700, 745), (736, 709));
}

#[test]
fn clamping_caps_both_ends() {
    let (w, l) = elo_update(64, true, 749, 50);
    assert_eq!(w, 749);
    assert_eq!(l, 50);
}

#[test]
fn exact_gain_is_rounded_to_the_nearest_point() {
    // k = 20 against an equal opponent gives exactly ten points.
    assert_eq!(elo_update(20, false, 400, 400), (410, 390));
}

#[test]
fn underdog_gains_more_than_favourite() {
    let (w_up, _) = elo_update(32, false, 300, 500); // underdog wins
    let (w_down, _) = elo_update(32, false, 500, 300); // favourite wins
    assert!(w_up - 300 > w_down - 500);
}

#[test]
fn elo_insert_appends_at_baseline_and_pins_the_entry() {
    let mut m = Model::new_elo(32, false);
    let cat = String::from("films");
    m.create_category(cat.clone()).unwrap();
    m.add_entry(String::from("first"), &cat).unwrap();
    assert!(!m.is_ranking()); // no opponents yet
    assert_eq!(ratings(&m, &cat), vec![(String::from("first"), 400)]);
    m.add_entry(String::from("second"), &cat).unwrap();
    assert!(m.is_ranking());
    let (left, _, right, _) = m.get_current_match().unwrap();
    assert_eq!(left, String::from("second")); // the pinned entry leads
    assert_eq!(right, String::from("first"));
    // The new entry wins its first match: 416 against 384, re-sorted.
    m.report_match_winner(true).unwrap();
    let rs = ratings(&m, &cat);
    assert_eq!(rs[0], (String::from("second"), 416));
    assert_eq!(rs[1], (String::from("first"), 384));
    m.end_ranking();
}

#[test]
fn full_elo_pass_leaves_a_rating_descending_order() {
    let mut m = Model::new_elo(32, false);
    let grid = grid_for("films", &[("a", 100), ("b", 500), ("c", 300)]);
    assert!(m.load_from_cells(&grid));
    let cat = String::from("films");
    assert_eq!(m.rank_category(cat.clone(), true), Ok(()));
    // A category of three schedules 3 * ceil(log2 3) = 6 matches.
    let mut calls = 0;
    while m.is_ranking() {
        let (_, lp, _, rp) = m.get_current_match().unwrap();
        assert!(lp != rp);
        m.report_match_winner(lp < rp).unwrap(); // the higher-ranked side wins
        calls += 1;
        let rs = ratings(&m, &cat);
        for w in rs.windows(2) {
            assert!(w[0].1 >= w[1].1); // sorted after every judgment
        }
    }
    assert_eq!(calls, 6);
}

#[test]
fn elo_rerank_pins_an_existing_entry() {
    let mut m = Model::new_elo(64, true);
    let grid = grid_for("films", &[("a", 745), ("b", 700)]);
    assert!(m.load_from_cells(&grid));
    let cat = String::from("films");
    assert_eq!(m.rerank_entry(String::from("b"), 1, &cat), Ok(()));
    let (left, _, right, _) = m.get_current_match().unwrap();
    assert_eq!(left, String::from("b"));
    assert_eq!(right, String::from("a"));
    // The 700 player beats the 745 favourite with k = 64: 736 over 709.
    m.report_match_winner(true).unwrap();
    assert_eq!(
        ratings(&m, &cat),
        vec![(String::from("b"), 736), (String::from("a"), 709)]
    );
    m.end_ranking();
}

#[test]
fn elo_rerank_of_a_single_entry_fails() {
    let mut m = Model::new_elo(32, false);
    let cat = String::from("films");
    m.create_category(cat.clone()).unwrap();
    m.add_entry(String::from("only"), &cat).unwrap();
    assert_eq!(
        m.rerank_entry(String::from("only"), 0, &cat),
        Err(media_rating::errors::RankError::InvalidState)
    );
}

#[test]
fn scheduled_pairs_are_always_distinct() {
    let mut m = Model::new_elo(32, false);
    let grid = grid_for("films", &[("a", 420), ("b", 410), ("c", 400), ("d", 390)]);
    assert!(m.load_from_cells(&grid));
    let cat = String::from("films");
    m.rank_category(cat.clone(), true).unwrap();
    for _ in 0..8 {
        if !m.is_ranking() {
            break;
        }
        let (_, lp, _, rp) = m.get_current_match().unwrap();
        assert!(lp != rp && lp < 4 && rp < 4);
        m.report_match_winner(true).unwrap();
    }
    m.end_ranking();
}

#[test]
fn tied_ratings_order_by_ascending_title() {
    // Four entries, radius 4/10 + 1 = 1, so re-ranking the top entry always
    // pairs it with its neighbour; the two tied 300s play nobody.  After the
    // re-sort the untouched tie must come out title-ascending: "a" before
    // "b", even though "b" was stored first.
    let mut m = Model::new_elo(32, false);
    let grid = grid_for("films", &[("x", 500), ("y", 450), ("b", 300), ("a", 300)]);
    assert!(m.load_from_cells(&grid));
    let cat = String::from("films");
    assert_eq!(m.rerank_entry(String::from("x"), 0, &cat), Ok(()));
    let (left, _, right, _) = m.get_current_match().unwrap();
    assert_eq!((left, right), (String::from("x"), String::from("y")));
    m.report_match_winner(true).unwrap();
    let ts: Vec<String> = m.get_category_entries(&cat).iter().map(|e| e.title.clone()).collect();
    assert_eq!(ts[2], String::from("a"));
    assert_eq!(ts[3], String::from("b"));
    m.end_ranking();
}

#[test]
fn loaded_entries_get_distinct_identities() {
    // Two categories, three entries: re-ranking the pinned entry relies on
    // a stable identity, so no two loaded entries may share one.
    let mut m = Model::new_elo(32, false);
    let mut grid = grid_for("films", &[("a", 400), ("b", 300)]);
    grid.extend(grid_for("books", &[("c", 200)]));
    assert!(m.load_from_cells(&grid));
    let mut ids = Vec::new();
    for cat in m.get_categories() {
        for e in m.get_category_entries(&cat) {
            ids.push(e.id);
        }
    }
    ids.sort();
    for w in ids.windows(2) {
        assert_ne!(w[0], w[1]);
    }
}
