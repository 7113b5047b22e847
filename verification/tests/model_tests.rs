use media_rating::errors::RankError;
use media_rating::model::Model;

fn titles(m: &Model, cat: &String) -> Vec<String> {
    m.get_category_entries(cat).iter().map(|e| e.title.clone()).collect()
}

#[test]
fn create_and_list_categories() {
    let mut m = Model::new();
    assert_eq!(m.create_category(String::from("books")), Ok(()));
    assert_eq!(m.create_category(String::from("games")), Ok(()));
    assert_eq!(m.get_categories(), vec![String::from("books"), String::from("games")]);
    assert_eq!(m.get_num_entries(&String::from("books")), 0);
}

#[test]
fn duplicate_category_is_refused() {
    let mut m = Model::new();
    assert_eq!(m.create_category(String::from("books")), Ok(()));
    assert_eq!(
        m.create_category(String::from("books")),
        Err(RankError::DuplicateCategory)
    );
    assert_eq!(m.get_categories().len(), 1);
}

#[test]
fn delete_category_removes_it() {
    let mut m = Model::new();
    m.create_category(String::from("books")).unwrap();
    m.create_category(String::from("games")).unwrap();
    m.delete_category(&String::from("books"));
    assert_eq!(m.get_categories(), vec![String::from("games")]);
    // Deleting an absent category changes nothing.
    m.delete_category(&String::from("books"));
    assert_eq!(m.get_categories(), vec![String::from("games")]);
}

#[test]
fn first_entry_is_placed_directly() {
    let mut m = Model::new();
    let cat = String::from("books");
    m.create_category(cat.clone()).unwrap();
    assert_eq!(m.add_entry(String::from("dune"), &cat), Ok(()));
    assert!(!m.is_ranking());
    assert_eq!(titles(&m, &cat), vec![String::from("dune")]);
}

#[test]
fn duplicate_entry_reports_existing_position() {
    let mut m = Model::new();
    let cat = String::from("books");
    m.create_category(cat.clone()).unwrap();
    m.add_entry(String::from("dune"), &cat).unwrap();
    assert_eq!(
        m.add_entry(String::from("dune"), &cat),
        Err(RankError::DuplicateEntry(0))
    );
    assert_eq!(m.get_num_entries(&cat), 1);
    assert!(!m.is_ranking());
}

#[test]
fn binary_insertion_one_comparison_for_two() {
    let mut m = Model::new();
    let cat = String::from("books");
    m.create_category(cat.clone()).unwrap();
    m.add_entry(String::from("worse"), &cat).unwrap();
    m.add_entry(String::from("better"), &cat).unwrap();
    assert!(m.is_ranking());
    let (left, left_pos, right, right_pos) = m.get_current_match().unwrap();
    assert_eq!(left, String::from("better"));
    assert_eq!(left_pos, 1); // the candidate holds no rank yet
    assert_eq!(right, String::from("worse"));
    assert_eq!(right_pos, 0);
    // The candidate wins its only comparison and lands on top.
    assert_eq!(m.report_match_winner(true), Ok(()));
    assert!(!m.is_ranking());
    assert_eq!(titles(&m, &cat), vec![String::from("better"), String::from("worse")]);
}

#[test]
fn binary_insertion_takes_at_most_log_comparisons() {
    // Insert a worst entry into a sorted three-entry category: at most
    // ceil(log2(4)) = 2 oracle calls, and every opponent it lost to ends up
    // before it.
    let mut m = Model::new();
    let cat = String::from("books");
    m.create_category(cat.clone()).unwrap();
    m.add_entry(String::from("a"), &cat).unwrap();
    for t in ["b", "c"] {
        m.add_entry(String::from(t), &cat).unwrap();
        while m.is_ranking() {
            m.report_match_winner(false).unwrap(); // keep insertion order
        }
    }
    assert_eq!(
        titles(&m, &cat),
        vec![String::from("a"), String::from("b"), String::from("c")]
    );
    m.add_entry(String::from("d"), &cat).unwrap();
    let mut calls = 0;
    while m.is_ranking() {
        m.report_match_winner(false).unwrap(); // "d" loses every match
        calls += 1;
        assert!(calls <= 2);
    }
    assert_eq!(calls, 2);
    assert_eq!(
        titles(&m, &cat),
        vec![
            String::from("a"),
            String::from("b"),
            String::from("c"),
            String::from("d")
        ]
    );
}

#[test]
fn binary_insertion_winner_goes_on_top() {
    let mut m = Model::new();
    let cat = String::from("books");
    m.create_category(cat.clone()).unwrap();
    for t in ["a", "b", "c"] {
        m.add_entry(String::from(t), &cat).unwrap();
        while m.is_ranking() {
            m.report_match_winner(false).unwrap();
        }
    }
    m.add_entry(String::from("best"), &cat).unwrap();
    let mut calls = 0;
    while m.is_ranking() {
        m.report_match_winner(true).unwrap(); // "best" wins every match
        calls += 1;
        assert!(calls <= 2);
    }
    assert_eq!(titles(&m, &cat)[0], String::from("best"));
    assert_eq!(m.get_num_entries(&cat), 4);
}

#[test]
fn report_without_session_is_no_active_match() {
    let mut m = Model::new();
    assert_eq!(m.report_match_winner(true), Err(RankError::NoActiveMatch));
}

#[test]
fn repair_pass_swaps_out_of_order_pairs() {
    let mut m = Model::new();
    let cat = String::from("books");
    m.create_category(cat.clone()).unwrap();
    for t in ["a", "b", "c"] {
        m.add_entry(String::from(t), &cat).unwrap();
        while m.is_ranking() {
            m.report_match_winner(false).unwrap();
        }
    }
    assert_eq!(m.rank_category(cat.clone(), true), Ok(()));
    // Positions 0 and 1: the right entry is judged better, so they swap.
    let (left, _, right, _) = m.get_current_match().unwrap();
    assert_eq!((left, right), (String::from("a"), String::from("b")));
    m.report_match_winner(false).unwrap();
    // Positions 1 and 2: now comparing "a" and "c"; the left wins, no swap.
    let (left, _, right, _) = m.get_current_match().unwrap();
    assert_eq!((left, right), (String::from("a"), String::from("c")));
    m.report_match_winner(true).unwrap();
    assert!(!m.is_ranking());
    assert_eq!(
        titles(&m, &cat),
        vec![String::from("b"), String::from("a"), String::from("c")]
    );
}

#[test]
fn descending_repair_pass_walks_down() {
    let mut m = Model::new();
    let cat = String::from("books");
    m.create_category(cat.clone()).unwrap();
    for t in ["a", "b", "c"] {
        m.add_entry(String::from(t), &cat).unwrap();
        while m.is_ranking() {
            m.report_match_winner(false).unwrap();
        }
    }
    assert_eq!(m.rank_category(cat.clone(), false), Ok(()));
    // Starts at the last adjacent pair: positions 1 and 2.
    let (left, left_pos, _, _) = m.get_current_match().unwrap();
    assert_eq!((left, left_pos), (String::from("b"), 1));
    m.report_match_winner(true).unwrap();
    // Then positions 0 and 1, and the pass ends at the boundary.
    let (_, left_pos, _, _) = m.get_current_match().unwrap();
    assert_eq!(left_pos, 0);
    m.report_match_winner(true).unwrap();
    assert!(!m.is_ranking());
}

#[test]
fn rank_category_needs_two_entries() {
    let mut m = Model::new();
    let cat = String::from("books");
    m.create_category(cat.clone()).unwrap();
    m.add_entry(String::from("only"), &cat).unwrap();
    assert_eq!(
        m.rank_category(cat.clone(), true),
        Err(RankError::InvalidState)
    );
    assert!(!m.is_ranking());
}

#[test]
fn cancelled_rerank_restores_the_entry_exactly() {
    let mut m = Model::new();
    let cat = String::from("books");
    m.create_category(cat.clone()).unwrap();
    for t in ["a", "b", "c"] {
        m.add_entry(String::from(t), &cat).unwrap();
        while m.is_ranking() {
            m.report_match_winner(false).unwrap();
        }
    }
    assert_eq!(m.rerank_entry(String::from("b"), 1, &cat), Ok(()));
    assert!(m.is_ranking());
    assert_eq!(m.get_num_entries(&cat), 2); // "b" is extracted
    m.end_ranking();
    assert_eq!(
        titles(&m, &cat),
        vec![String::from("a"), String::from("b"), String::from("c")]
    );
    // Ending again must not reinsert a second copy.
    m.end_ranking();
    assert_eq!(m.get_num_entries(&cat), 3);
}

#[test]
fn completed_rerank_keeps_one_copy() {
    let mut m = Model::new();
    let cat = String::from("books");
    m.create_category(cat.clone()).unwrap();
    for t in ["a", "b", "c"] {
        m.add_entry(String::from(t), &cat).unwrap();
        while m.is_ranking() {
            m.report_match_winner(false).unwrap();
        }
    }
    m.rerank_entry(String::from("c"), 2, &cat).unwrap();
    while m.is_ranking() {
        m.report_match_winner(true).unwrap(); // "c" now beats everyone
    }
    assert_eq!(
        titles(&m, &cat),
        vec![String::from("c"), String::from("a"), String::from("b")]
    );
    // The restore note was discarded on completion.
    m.end_ranking();
    assert_eq!(m.get_num_entries(&cat), 3);
}

#[test]
fn cancelled_plain_insert_drops_the_candidate() {
    let mut m = Model::new();
    let cat = String::from("books");
    m.create_category(cat.clone()).unwrap();
    m.add_entry(String::from("a"), &cat).unwrap();
    m.add_entry(String::from("b"), &cat).unwrap();
    assert!(m.is_ranking());
    m.end_ranking();
    // The candidate was never committed: cancelling is equivalent to zero
    // completed matches.
    assert_eq!(titles(&m, &cat), vec![String::from("a")]);
}

#[test]
fn rename_entry_changes_title_and_refuses_clashes() {
    let mut m = Model::new();
    let cat = String::from("books");
    m.create_category(cat.clone()).unwrap();
    for t in ["a", "b"] {
        m.add_entry(String::from(t), &cat).unwrap();
        while m.is_ranking() {
            m.report_match_winner(false).unwrap();
        }
    }
    assert_eq!(
        m.rename_entry(&cat, 1, String::from("a")),
        Err(RankError::DuplicateEntry(0))
    );
    assert_eq!(m.rename_entry(&cat, 1, String::from("z")), Ok(()));
    assert_eq!(titles(&m, &cat), vec![String::from("a"), String::from("z")]);
    // Renaming an entry to its own name is allowed.
    assert_eq!(m.rename_entry(&cat, 1, String::from("z")), Ok(()));
}

#[test]
fn delete_entry_removes_one_position() {
    let mut m = Model::new();
    let cat = String::from("books");
    m.create_category(cat.clone()).unwrap();
    for t in ["a", "b", "c"] {
        m.add_entry(String::from(t), &cat).unwrap();
        while m.is_ranking() {
            m.report_match_winner(false).unwrap();
        }
    }
    m.delete_entry(&cat, 1);
    assert_eq!(titles(&m, &cat), vec![String::from("a"), String::from("c")]);
}

#[test]
fn get_entry_returns_the_title_at_a_position() {
    let mut m = Model::new();
    let cat = String::from("books");
    m.create_category(cat.clone()).unwrap();
    m.add_entry(String::from("dune"), &cat).unwrap();
    assert_eq!(m.get_entry(&cat, 0), String::from("dune"));
}

#[test]
fn rerank_random_entry_needs_a_rankable_category() {
    let mut m = Model::new();
    assert_eq!(m.rerank_random_entry(), Err(RankError::InvalidState));
    let cat = String::from("books");
    m.create_category(cat.clone()).unwrap();
    assert_eq!(m.rerank_random_entry(), Err(RankError::InvalidState));
    m.add_entry(String::from("only"), &cat).unwrap();
    assert_eq!(m.rerank_random_entry(), Err(RankError::InvalidState));
    assert!(!m.is_ranking());
}

#[test]
fn rerank_random_entry_starts_a_session() {
    let mut m = Model::new();
    let cat = String::from("books");
    m.create_category(cat.clone()).unwrap();
    for t in ["a", "b", "c"] {
        m.add_entry(String::from(t), &cat).unwrap();
        while m.is_ranking() {
            m.report_match_winner(false).unwrap();
        }
    }
    assert_eq!(m.rerank_random_entry(), Ok(()));
    assert!(m.is_ranking());
    assert!(m.get_current_match().is_some());
    m.end_ranking();
}

#[test]
fn binary_insertion_lands_between_its_outcomes() {
    // Insert "d" into a sorted three-entry category, losing to "b" and
    // beating "c": it must land after "b" and before "c".
    let mut m = Model::new();
    let cat = String::from("books");
    m.create_category(cat.clone()).unwrap();
    for t in ["a", "b", "c"] {
        m.add_entry(String::from(t), &cat).unwrap();
        while m.is_ranking() {
            m.report_match_winner(false).unwrap();
        }
    }
    m.add_entry(String::from("d"), &cat).unwrap();
    let (_, _, right, right_pos) = m.get_current_match().unwrap();
    assert_eq!((right, right_pos), (String::from("b"), 1));
    m.report_match_winner(false).unwrap(); // d loses to b
    let (_, _, right, right_pos) = m.get_current_match().unwrap();
    assert_eq!((right, right_pos), (String::from("c"), 2));
    m.report_match_winner(true).unwrap(); // d beats c
    assert!(!m.is_ranking());
    assert_eq!(titles(&m, &cat)[2], String::from("d"));
    assert_eq!(titles(&m, &cat)[3], String::from("c"));
}

#[test]
fn binary_insertion_into_seven_takes_three_calls() {
    let mut m = Model::new();
    let cat = String::from("books");
    m.create_category(cat.clone()).unwrap();
    for i in 0..7 {
        m.add_entry(format!("t{i}"), &cat).unwrap();
        while m.is_ranking() {
            m.report_match_winner(false).unwrap();
        }
    }
    m.add_entry(String::from("last"), &cat).unwrap();
    let mut calls = 0;
    while m.is_ranking() {
        m.report_match_winner(false).unwrap();
        calls += 1;
        assert!(calls <= 3); // ceil(log2(8)) comparisons at most
    }
    assert_eq!(calls, 3);
}

#[test]
fn starting_during_a_session_is_invalid_state() {
    let mut m = Model::new();
    let cat = String::from("books");
    m.create_category(cat.clone()).unwrap();
    m.add_entry(String::from("a"), &cat).unwrap();
    m.add_entry(String::from("b"), &cat).unwrap();
    assert!(m.is_ranking()); // the binary insertion of "b" is under way
    assert_eq!(
        m.add_entry(String::from("c"), &cat),
        Err(RankError::InvalidState)
    );
    assert_eq!(
        m.rank_category(cat.clone(), true),
        Err(RankError::InvalidState)
    );
    assert_eq!(m.rerank_random_entry(), Err(RankError::InvalidState));
    assert!(m.is_ranking()); // the session is untouched
    m.report_match_winner(true).unwrap();
    assert!(!m.is_ranking());
    assert_eq!(m.get_num_entries(&cat), 2);
}
