use word_grid::dictionary::Dictionary;
use word_grid::grid::{WordGrid, WordPathError};
use word_grid::output::{format_results, format_word_grid};
use word_grid::scoring::ScoringTable;
use word_grid::solver::{FoundWord, GridSolver};
use word_grid::word_score::score_word;

fn grid_of(size: usize, cells: &[&str]) -> WordGrid {
    WordGrid::new(size, cells.iter().map(|c| c.to_string()).collect()).expect("valid grid")
}

#[test]
fn checks_exact_words_and_prefixes() {
    let dictionary = Dictionary::from_words(&["cat", "cats", "dog"]);

    assert!(dictionary.is_word_valid("cat"));
    assert!(dictionary.is_word_valid("CATS"));
    assert!(!dictionary.is_word_valid("ca"));
    assert!(dictionary.can_be_word("ca"));
    assert!(dictionary.can_be_word(""));
    assert!(!dictionary.can_be_word("cow"));
}

#[test]
fn constructs_from_text_and_rejects_invalid_utf8() {
    let dictionary = Dictionary::from_text("cat\nDOG\ncafé\n\n");
    assert!(dictionary.is_word_valid("cat"));
    assert!(dictionary.is_word_valid("dog"));
    assert!(dictionary.can_be_word("caf"));
    assert!(Dictionary::from_bytes(&[0xff]).is_err());
}

#[test]
fn invalid_utf8_is_reported_as_invalid_data() {
    let err = Dictionary::from_bytes(&[0xff]).unwrap_err();
    assert_eq!(err.kind(), std::io::ErrorKind::InvalidData);
    assert!(Dictionary::from_bytes(b"cat\n").unwrap().is_word_valid("cat"));
}

#[test]
fn scores_each_length_boundary() {
    assert_eq!(score_word("at"), 0);
    assert_eq!(score_word("cat"), 1);
    assert_eq!(score_word("cart"), 1);
    assert_eq!(score_word("crate"), 2);
    assert_eq!(score_word("crates"), 3);
    assert_eq!(score_word("closest"), 5);
    assert_eq!(score_word("longword"), 11);
    assert_eq!(score_word("longwords"), 11);
}

#[test]
fn fixed_table_counts_letters_not_bytes() {
    assert_eq!(score_word("café"), 1);
    assert_eq!(score_word("éé"), 0);
    assert_eq!(score_word("naïves"), 3);
    assert_eq!(score_word("café"), ScoringTable::standard().score_word("café"));
}

#[test]
fn finds_unique_words_sorted_longest_first() {
    let dictionary = Dictionary::from_words(&["cat", "cats", "cast", "sat", "at", "taco"]);
    let grid = WordGrid::new(2, ["c", "a", "t", "s"].into_iter().map(String::from).collect())
        .expect("valid grid");
    let solver = GridSolver::new(dictionary, 3);

    assert_eq!(
        solver.find_words(&grid),
        vec![
            FoundWord { word: "cast".into(), path: vec![0, 1, 3, 2] },
            FoundWord { word: "cats".into(), path: vec![0, 1, 2, 3] },
            FoundWord { word: "cat".into(), path: vec![0, 1, 2] },
            FoundWord { word: "sat".into(), path: vec![3, 1, 2] },
        ]
    );
}

#[test]
fn does_not_reuse_cells_in_one_path() {
    let dictionary = Dictionary::from_words(&["aaa"]);
    let grid = WordGrid::new(2, vec!["a".into(), "b".into(), "c".into(), "d".into()])
        .expect("valid grid");
    let solver = GridSolver::new(dictionary, 3);

    assert!(solver.find_words(&grid).is_empty());
}

#[test]
fn validates_square_grid_cell_count() {
    let err = WordGrid::new(2, vec!["a".into(), "b".into(), "c".into()])
        .expect_err("grid should reject too few cells");

    assert!(err.contains("requires 4 cells"));
}

#[test]
fn rejects_empty_cells() {
    let err = WordGrid::new(1, vec![" ".into()]).expect_err("empty cell should fail");

    assert_eq!(err, "grid cells cannot be empty");
}

#[test]
fn finds_neighbors_for_corner_and_center() {
    let grid = WordGrid::new(
        3,
        ["a", "b", "c", "d", "e", "f", "g", "h", "i"].into_iter().map(String::from).collect(),
    )
    .expect("valid grid");

    assert_eq!(grid.neighbors(0), vec![1, 3, 4]);
    assert_eq!(grid.neighbors(4), vec![0, 1, 2, 3, 5, 6, 7, 8]);
}

#[test]
fn grid_rejects_zero_size_and_normalizes_cells() {
    assert_eq!(WordGrid::new(0, vec![]).unwrap_err(), "grid size must be greater than 0");
    assert_eq!(
        WordGrid::new(2, vec!["a".into()]).unwrap_err(),
        "grid has 1 cells, but size 2 requires 4 cells"
    );
    let grid = grid_of(2, &[" Qu ", "A", "t", "S\t"]);
    assert_eq!(grid.cells(), &["qu".to_string(), "a".into(), "t".into(), "s".into()]);
    assert_eq!(grid.size(), 2);
    assert_eq!(grid.cell(0), "qu");
}

#[test]
fn neighbors_of_edge_cells_and_single_cell_board() {
    let grid = grid_of(3, &["a", "b", "c", "d", "e", "f", "g", "h", "i"]);
    assert_eq!(grid.neighbors(8), vec![4, 5, 7]);
    assert_eq!(grid.neighbors(1), vec![0, 2, 3, 4, 5]);
    let single = grid_of(1, &["x"]);
    assert!(single.neighbors(0).is_empty());
}

#[test]
fn word_for_path_reads_cells_and_names_each_error() {
    let grid = grid_of(2, &["c", "a", "t", "s"]);
    assert_eq!(grid.word_for_path(&[0, 1, 2, 3]).unwrap(), "cats");
    assert_eq!(grid.word_for_path(&[]), Err(WordPathError::EmptyPath));
    assert_eq!(grid.word_for_path(&[0, 4]), Err(WordPathError::OutOfBounds { index: 4 }));
    assert_eq!(grid.word_for_path(&[0, 1, 0]), Err(WordPathError::ReusedCell { index: 0 }));
    let wide = grid_of(3, &["a", "b", "c", "d", "e", "f", "g", "h", "i"]);
    assert_eq!(wide.word_for_path(&[0, 2]), Err(WordPathError::NotAdjacent { from: 0, to: 2 }));
    assert!(!WordPathError::EmptyPath.message().is_empty());
}

#[test]
fn find_path_for_word_normalizes_and_traces() {
    let grid = grid_of(2, &["c", "a", "t", "s"]);
    let path = grid.find_path_for_word("  CATS ").expect("traceable");
    assert_eq!(path, vec![0, 1, 2, 3]);
    assert_eq!(grid.word_for_path(&path).unwrap(), "cats");
    let repeated = grid_of(2, &["a", "t", "a", "a"]);
    assert_eq!(repeated.find_path_for_word("at"), Some(vec![0, 1]));
    assert_eq!(repeated.find_path_for_word("ta"), Some(vec![1, 0]));
    assert_eq!(grid.find_path_for_word("dog"), None);
    assert_eq!(grid.find_path_for_word("cac"), None);
}

#[test]
fn dictionary_ignores_blank_lines_and_trims_words() {
    let dictionary = Dictionary::from_words(&["  Tea  ", "", "   "]);
    assert!(dictionary.is_word_valid("tea"));
    assert!(dictionary.can_be_word("te"));
    assert!(!dictionary.is_word_valid(""));
    let from_bytes = Dictionary::from_bytes("one\r\ntwo".as_bytes()).expect("valid text");
    assert!(from_bytes.is_word_valid("one"));
    assert!(from_bytes.is_word_valid("two"));
}

#[test]
fn solver_respects_minimum_length_and_first_path() {
    let dictionary = Dictionary::from_words(&["at", "tat", "cat"]);
    let grid = grid_of(2, &["c", "a", "t", "a"]);
    let short = GridSolver::new(dictionary.clone(), 2);
    let words: Vec<String> = short.find_words(&grid).into_iter().map(|f| f.word).collect();
    assert_eq!(words, vec!["cat".to_string(), "at".into()]);
    let long = GridSolver::new(dictionary, 3);
    let found = long.find_words(&grid);
    assert_eq!(found, vec![FoundWord { word: "cat".into(), path: vec![0, 1, 2] }]);
}

#[test]
fn formats_grid_rows_and_rule() {
    let grid = grid_of(2, &["c", "a", "t", "s"]);
    assert_eq!(format_word_grid(&grid), "--WORD GRID--\nc a\nt s\n-------------");
}

#[test]
fn formats_results_with_tabs_points_and_totals() {
    let results = vec![
        FoundWord { word: "longwords".into(), path: vec![] },
        FoundWord { word: "cat".into(), path: vec![] },
    ];
    assert_eq!(
        format_results(&results, &ScoringTable::standard()),
        "Words found:\nlongwords\t11\ncat\t\t1\n------------------------------------\nTotal number of words: 2, Total score: 12"
    );
    assert_eq!(
        format_results(&[], &ScoringTable::standard()),
        "Words found:\n------------------------------------\nTotal number of words: 0, Total score: 0"
    );
}

#[test]
fn every_prefix_of_a_word_can_start_a_word() {
    let dictionary = Dictionary::from_words(&["grid", "word"]);
    for word in ["grid", "word"] {
        for end in 0..=word.len() {
            assert!(dictionary.can_be_word(&word[..end]), "{}", &word[..end]);
        }
    }
    assert!(!dictionary.can_be_word("gr1"));
}
