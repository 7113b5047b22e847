use media_rating::codec::CellValue;
use media_rating::model::Model;

fn build_order_stat_model() -> (Model, String, String) {
    let mut m = Model::new();
    let books = String::from("books");
    let games = String::from("games");
    m.create_category(books.clone()).unwrap();
    m.create_category(games.clone()).unwrap();
    for t in ["dune", "emma"] {
        m.add_entry(String::from(t), &books).unwrap();
        while m.is_ranking() {
            m.report_match_winner(false).unwrap();
        }
    }
    m.add_entry(String::from("myst"), &games).unwrap();
    (m, books, games)
}

#[test]
fn save_then_load_reproduces_titles_and_ratings() {
    let (m, books, games) = build_order_stat_model();
    let grid = m.save_to_cells();
    let mut loaded = Model::new();
    assert!(loaded.load_from_cells(&grid));
    assert_eq!(loaded.get_categories(), m.get_categories());
    for cat in [&books, &games] {
        let before: Vec<(String, i64)> =
            m.get_category_entries(cat).iter().map(|e| (e.title.clone(), e.rating)).collect();
        let after: Vec<(String, i64)> =
            loaded.get_category_entries(cat).iter().map(|e| (e.title.clone(), e.rating)).collect();
        assert_eq!(before, after);
    }
}

#[test]
fn saved_grid_has_two_columns_per_category() {
    let (m, _, _) = build_order_stat_model();
    let grid = m.save_to_cells();
    assert_eq!(grid.len(), 4);
    assert_eq!(grid[0][0], CellValue::Text(String::from("books")));
    assert_eq!(grid[1][0], CellValue::Empty);
    assert_eq!(grid[2][0], CellValue::Text(String::from("games")));
    assert_eq!(grid[0][1], CellValue::Text(String::from("dune")));
    assert_eq!(grid[1][1], CellValue::Number(400));
}

#[test]
fn load_refuses_an_odd_number_of_columns() {
    let mut m = Model::new();
    let grid = vec![vec![CellValue::Text(String::from("books"))]];
    assert!(!m.load_from_cells(&grid));
    assert_eq!(m.get_categories().len(), 0);
}

#[test]
fn load_refuses_a_missing_header() {
    let mut m = Model::new();
    let grid = vec![
        vec![CellValue::Empty, CellValue::Text(String::from("dune"))],
        vec![CellValue::Empty, CellValue::Number(400)],
    ];
    assert!(!m.load_from_cells(&grid));
}

#[test]
fn load_refuses_a_duplicate_category_name() {
    let mut m = Model::new();
    let grid = vec![
        vec![CellValue::Text(String::from("books"))],
        vec![CellValue::Empty],
        vec![CellValue::Text(String::from("books"))],
        vec![CellValue::Empty],
    ];
    assert!(!m.load_from_cells(&grid));
}

#[test]
fn load_refuses_a_duplicate_title() {
    let mut m = Model::new();
    let grid = vec![
        vec![
            CellValue::Text(String::from("books")),
            CellValue::Text(String::from("dune")),
            CellValue::Text(String::from("dune")),
        ],
        vec![CellValue::Empty, CellValue::Number(1), CellValue::Number(2)],
    ];
    assert!(!m.load_from_cells(&grid));
}

#[test]
fn load_refuses_an_off_scale_rating() {
    let mut m = Model::new();
    let grid = vec![
        vec![
            CellValue::Text(String::from("books")),
            CellValue::Text(String::from("dune")),
        ],
        vec![CellValue::Empty, CellValue::Number(2_000_000_000)],
    ];
    assert!(!m.load_from_cells(&grid));
}

#[test]
fn load_refuses_text_where_a_score_belongs() {
    let mut m = Model::new();
    let grid = vec![
        vec![
            CellValue::Text(String::from("books")),
            CellValue::Text(String::from("dune")),
        ],
        vec![CellValue::Empty, CellValue::Text(String::from("four stars"))],
    ];
    assert!(!m.load_from_cells(&grid));
}

#[test]
fn failed_load_leaves_the_store_untouched() {
    let (mut m, books, _) = build_order_stat_model();
    let bad = vec![vec![CellValue::Empty]];
    assert!(!m.load_from_cells(&bad));
    assert_eq!(m.get_categories().len(), 2);
    assert_eq!(m.get_num_entries(&books), 2);
}

#[test]
fn clamped_elo_store_round_trips() {
    let mut m = Model::new_elo(64, true);
    let grid = vec![
        vec![
            CellValue::Text(String::from("films")),
            CellValue::Text(String::from("a")),
            CellValue::Text(String::from("b")),
        ],
        vec![CellValue::Empty, CellValue::Number(745), CellValue::Number(700)],
    ];
    assert!(m.load_from_cells(&grid));
    let saved = m.save_to_cells();
    assert_eq!(saved, grid);
    let mut again = Model::new_elo(64, true);
    assert!(again.load_from_cells(&saved));
    assert_eq!(again.get_categories(), vec![String::from("films")]);
}
