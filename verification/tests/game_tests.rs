use std::time::Duration;

use rand::rngs::SmallRng;
use rand::SeedableRng;

use word_grid::cube::{Cube, CubeSet, CubeSetError};
use word_grid::dictionary::Dictionary;
use word_grid::game_match::{Match, MatchError, MatchPhase, Player, PlayerId, SubmissionError};
use word_grid::grid::WordPathError;
use word_grid::roll::{shuffle, BoardRoll};
use word_grid::rules::{GameRules, GameRulesError, PlayMode};
use word_grid::scoring::{ScoreBand, ScoringTable, ScoringTableError};

fn fixed_rules(play_mode: PlayMode) -> GameRules {
    let cubes = ["c", "a", "t", "s"].map(|letter| Cube::new(&[letter]).unwrap()).to_vec();
    GameRules::new(2, 3, play_mode, CubeSet::new("test", cubes).unwrap(), ScoringTable::standard())
        .unwrap()
}

fn two_player_match() -> Match {
    Match::new(
        fixed_rules(PlayMode::Endless),
        vec![Player::new(PlayerId::new(1), "Ada"), Player::new(PlayerId::new(2), "Grace")],
    )
    .unwrap()
}

#[test]
fn validates_custom_cube_data() {
    assert_eq!(Cube::new(&[]), Err(CubeSetError::CubeHasNoFaces));
    assert_eq!(Cube::new(&["a", " "]), Err(CubeSetError::EmptyFace { index: 1 }));
    assert_eq!(CubeSet::new(" ", vec![Cube::new(&["a"]).unwrap()]), Err(CubeSetError::EmptyName));
}

#[test]
fn built_in_sets_have_expected_sizes() {
    assert_eq!(CubeSet::standard_new().cubes().len(), 16);
    assert_eq!(CubeSet::standard_old().cubes().len(), 16);
    assert_eq!(CubeSet::big().cubes().len(), 25);
    assert!(CubeSet::standard_new()
        .cubes()
        .iter()
        .flat_map(|cube| cube.faces().iter())
        .any(|face| face == "Qu"));
}

#[test]
fn rejects_cube_count_and_invalid_time() {
    let one_cube = CubeSet::new("tiny", vec![Cube::new(&["a"]).unwrap()]).unwrap();
    assert_eq!(
        GameRules::new(2, 3, PlayMode::Endless, one_cube.clone(), ScoringTable::standard()),
        Err(GameRulesError::CubeCountMismatch { actual: 1, expected: 4 })
    );
    assert_eq!(
        GameRules::new(
            1,
            3,
            PlayMode::TimedRounds { duration: Duration::ZERO },
            one_cube,
            ScoringTable::standard(),
        ),
        Err(GameRulesError::ZeroRoundDuration)
    );
}

#[test]
fn standard_table_scores_every_boundary() {
    let scoring = ScoringTable::standard();
    assert_eq!(scoring.score_word("at"), 0);
    assert_eq!(scoring.score_word("cat"), 1);
    assert_eq!(scoring.score_word("cart"), 1);
    assert_eq!(scoring.score_word("crate"), 2);
    assert_eq!(scoring.score_word("crates"), 3);
    assert_eq!(scoring.score_word("closest"), 5);
    assert_eq!(scoring.score_word("longword"), 11);
}

#[test]
fn rejects_unordered_bands() {
    assert_eq!(
        ScoringTable::new(vec![
            ScoreBand { minimum_length: 3, points: 1 },
            ScoreBand { minimum_length: 3, points: 2 },
        ]),
        Err(ScoringTableError::NotStrictlyIncreasing { index: 1 })
    );
}

#[test]
fn seeded_roll_is_deterministic_and_keeps_cube_identity() {
    let rules = GameRules::normal(CubeSet::standard_new()).unwrap();
    let mut first_rng = SmallRng::seed_from_u64(12);
    let mut second_rng = SmallRng::seed_from_u64(12);
    let first = BoardRoll::roll(&rules, &mut first_rng);
    let second = BoardRoll::roll(&rules, &mut second_rng);

    assert_eq!(first, second);
    assert_eq!(first.grid().cells().len(), 16);
    let mut indices: Vec<_> = first.cubes().iter().map(|cube| cube.cube_index()).collect();
    indices.sort_unstable();
    assert_eq!(indices, (0..16).collect::<Vec<_>>());
}

#[test]
fn phase_guards_submission_and_timer_expiry_finishes_round() {
    let player = PlayerId::new(0);
    let mut game = Match::single_player(
        fixed_rules(PlayMode::TimedRounds { duration: Duration::from_secs(3) }),
        "Player",
    )
    .unwrap();
    let dictionary = Dictionary::from_words(&["cat"]);
    assert!(matches!(
        game.submit_text(player, "cat", &dictionary),
        Err(SubmissionError::RoundInactive { phase: MatchPhase::Ready })
    ));

    let mut rng = SmallRng::seed_from_u64(1);
    game.start_round(&mut rng).unwrap();
    game.begin_round().unwrap();
    assert_eq!(game.advance_time(Duration::from_secs(2)).unwrap(), None);
    assert_eq!(game.current_round().unwrap().remaining(), Some(Duration::from_secs(1)));
    assert!(game.advance_time(Duration::from_secs(1)).unwrap().is_some());
    assert_eq!(game.phase(), MatchPhase::Review);
}

#[test]
fn rejects_same_player_duplicate_and_reconciles_cross_player_words() {
    let mut game = two_player_match();
    let dictionary = Dictionary::from_words(&["cat", "cats", "sat"]);
    let mut rng = SmallRng::seed_from_u64(2);
    game.start_round(&mut rng).unwrap();
    game.begin_round().unwrap();

    let ada = PlayerId::new(1);
    let grace = PlayerId::new(2);
    game.submit_text(ada, "cat", &dictionary).unwrap();
    assert_eq!(game.submit_text(ada, "cat", &dictionary), Err(SubmissionError::Duplicate));
    game.submit_text(grace, "cat", &dictionary).unwrap();
    game.submit_text(ada, "cats", &dictionary).unwrap();

    let result = game.finish_round().unwrap();
    assert_eq!(result.player(ada).unwrap().score(), 1);
    assert_eq!(result.player(ada).unwrap().canceled()[0].word(), "cat");
    assert_eq!(result.player(grace).unwrap().score(), 0);
    assert_eq!(result.player(grace).unwrap().canceled()[0].word(), "cat");
}

#[test]
fn carries_player_totals_across_rounds() {
    let player = PlayerId::new(0);
    let mut game = Match::single_player(fixed_rules(PlayMode::Endless), "Player").unwrap();
    let dictionary = Dictionary::from_words(&["cat"]);
    let mut rng = SmallRng::seed_from_u64(4);

    for _ in 0..2 {
        game.start_round(&mut rng).unwrap();
        game.begin_round().unwrap();
        game.submit_text(player, "cat", &dictionary).unwrap();
        game.finish_round().unwrap();
    }
    assert_eq!(game.total_score(player).unwrap(), 2);
    game.finish_match().unwrap();
    assert_eq!(game.phase(), MatchPhase::Complete);
}

#[test]
fn multi_letter_cube_counts_each_letter() {
    let cubes = ["qu", "i", "z", "x"].map(|letter| Cube::new(&[letter]).unwrap()).to_vec();
    let rules = GameRules::new(
        2,
        4,
        PlayMode::Endless,
        CubeSet::new("qu", cubes).unwrap(),
        ScoringTable::standard(),
    )
    .unwrap();
    let mut game = Match::single_player(rules, "Player").unwrap();
    let mut rng = SmallRng::seed_from_u64(3);
    game.start_round(&mut rng).unwrap();
    game.begin_round().unwrap();
    let player = PlayerId::new(0);
    let grid = game.current_round().unwrap().board().grid().clone();
    let qu_index = grid.cells().iter().position(|cell| cell == "qu").unwrap();
    let mut path = vec![qu_index];
    path.extend((0..grid.cells().len()).filter(|index| *index != qu_index).take(2));
    let word = grid.word_for_path(&path).unwrap();
    let dictionary = Dictionary::from_words(&[word.as_str()]);
    let submission = game.submit_path(player, path, &dictionary).unwrap();
    assert!(submission.word().chars().count() >= 4);
}

#[test]
fn match_refuses_bad_player_lists() {
    let rules = fixed_rules(PlayMode::Endless);
    assert_eq!(Match::new(rules.clone(), vec![]).unwrap_err(), MatchError::NoPlayers);
    assert_eq!(
        Match::new(rules.clone(), vec![Player::new(PlayerId::new(4), "  ")]).unwrap_err(),
        MatchError::EmptyPlayerName { player_id: PlayerId::new(4) }
    );
    assert_eq!(
        Match::new(
            rules.clone(),
            vec![Player::new(PlayerId::new(4), "A"), Player::new(PlayerId::new(4), "B")]
        )
        .unwrap_err(),
        MatchError::DuplicatePlayerId { player_id: PlayerId::new(4) }
    );
    assert_eq!(
        Match::single_player(rules, " ").unwrap_err(),
        MatchError::EmptyPlayerName { player_id: PlayerId::new(0) }
    );
    assert_eq!(
        MatchError::DuplicatePlayerId { player_id: PlayerId::new(4) }.message(),
        "player id 4 is duplicated"
    );
}

#[test]
fn invalid_transitions_name_the_phase_and_leave_the_match_alone() {
    let mut game = two_player_match();
    let err = game.begin_round().unwrap_err();
    assert_eq!(
        err,
        MatchError::InvalidTransition { phase: MatchPhase::Ready, operation: "begin accepting submissions" }
    );
    assert_eq!(err.message(), "cannot begin accepting submissions while match is Ready");
    assert!(game.finish_round().is_err());
    assert!(game.finish_match().is_err());
    assert!(game.advance_time(Duration::from_secs(1)).is_err());
    assert_eq!(game.phase(), MatchPhase::Ready);
    let mut rng = SmallRng::seed_from_u64(9);
    game.start_round(&mut rng).unwrap();
    assert_eq!(game.phase(), MatchPhase::Rolling);
    assert!(game.start_round(&mut rng).is_err());
    assert_eq!(game.current_round().unwrap().submissions(PlayerId::new(1)).len(), 0);
}

#[test]
fn submissions_are_checked_in_order() {
    let mut game = Match::single_player(fixed_rules(PlayMode::Endless), "Player").unwrap();
    let dictionary = Dictionary::from_words(&["cat", "at"]);
    let mut rng = SmallRng::seed_from_u64(5);
    game.start_round(&mut rng).unwrap();
    game.begin_round().unwrap();
    let player = PlayerId::new(0);
    assert_eq!(
        game.submit_text(PlayerId::new(7), "cat", &dictionary),
        Err(SubmissionError::UnknownPlayer { player_id: PlayerId::new(7) })
    );
    assert_eq!(game.submit_text(player, "dog", &dictionary), Err(SubmissionError::NotOnBoard));
    assert_eq!(
        game.submit_path(player, vec![], &dictionary),
        Err(SubmissionError::InvalidPath(WordPathError::EmptyPath))
    );
    assert_eq!(
        game.submit_text(player, "at", &dictionary),
        Err(SubmissionError::TooShort { actual: 2, minimum: 3 })
    );
    assert_eq!(game.submit_text(player, "sat", &dictionary), Err(SubmissionError::NotInDictionary));
    let accepted = game.submit_text(player, "CAT", &dictionary).unwrap();
    assert_eq!(accepted.word(), "cat");
    assert_eq!(accepted.base_score(), 1);
    assert_eq!(accepted.player_id(), player);
    assert_eq!(game.current_score(player).unwrap(), 1);
    assert_eq!(game.current_score(PlayerId::new(7)), Err(MatchError::UnknownPlayer { player_id: PlayerId::new(7) }));
    assert_eq!(SubmissionError::TooShort { actual: 2, minimum: 3 }.message(), "2 letters; minimum is 3");
}

#[test]
fn endless_rounds_ignore_time_and_keep_scoring_words_found_once() {
    let mut game = two_player_match();
    let dictionary = Dictionary::from_words(&["cat", "sat"]);
    let mut rng = SmallRng::seed_from_u64(6);
    game.start_round(&mut rng).unwrap();
    game.begin_round().unwrap();
    assert_eq!(game.advance_time(Duration::from_secs(1000)).unwrap(), None);
    assert_eq!(game.phase(), MatchPhase::Playing);
    assert_eq!(game.current_round().unwrap().remaining(), None);
    game.submit_text(PlayerId::new(1), "cat", &dictionary).unwrap();
    game.submit_text(PlayerId::new(2), "sat", &dictionary).unwrap();
    let result = game.finish_round().unwrap();
    assert_eq!(result.players().len(), 2);
    assert_eq!(result.player(PlayerId::new(1)).unwrap().scored()[0].word(), "cat");
    assert_eq!(result.player(PlayerId::new(2)).unwrap().score(), 1);
    assert!(result.player(PlayerId::new(3)).is_none());
    assert_eq!(game.completed_rounds().len(), 1);
    assert_eq!(game.total_score(PlayerId::new(2)).unwrap(), 1);
    assert!(game.current_round().is_none());
}

#[test]
fn shuffle_follows_the_draws() {
    assert_eq!(shuffle(4, &[0, 0, 0]), vec![1, 2, 3, 0]);
    assert_eq!(shuffle(3, &[2, 1]), vec![0, 1, 2]);
    assert_eq!(shuffle(1, &[]), vec![0]);
}

#[test]
fn rules_report_each_error() {
    let sixteen = CubeSet::standard_new();
    assert_eq!(
        GameRules::new(0, 3, PlayMode::Endless, sixteen.clone(), ScoringTable::standard()),
        Err(GameRulesError::ZeroGridSize)
    );
    assert_eq!(
        GameRules::new(4, 2, PlayMode::Endless, sixteen.clone(), ScoringTable::standard()),
        Err(GameRulesError::MinimumWordLengthTooSmall { actual: 2 })
    );
    assert_eq!(
        GameRules::new(usize::MAX, 3, PlayMode::Endless, sixteen.clone(), ScoringTable::standard()),
        Err(GameRulesError::GridSizeOverflow)
    );
    let normal = GameRules::normal(sixteen).unwrap();
    assert_eq!(normal.grid_size(), 4);
    assert_eq!(normal.minimum_word_length(), 3);
    assert_eq!(normal.play_mode(), PlayMode::TimedRounds { duration: Duration::from_secs(180) });
    let big = GameRules::big();
    assert_eq!(big.grid_size(), 5);
    assert_eq!(big.minimum_word_length(), 4);
    assert_eq!(big.cube_set().name(), "Big");
    assert_eq!(big.cube_set(), &CubeSet::big());
    assert_eq!(big.cube_set().cubes().len(), 25);
    assert_eq!(GameRulesError::ZeroGridSize.message(), "grid size must be greater than zero");
}

#[test]
fn scoring_table_reports_each_error_and_uses_the_last_band_reached() {
    assert_eq!(ScoringTable::new(vec![]), Err(ScoringTableError::NoBands));
    assert_eq!(
        ScoringTable::new(vec![ScoreBand { minimum_length: 0, points: 1 }]),
        Err(ScoringTableError::ZeroMinimumLength { index: 0 })
    );
    let table = ScoringTable::new(vec![
        ScoreBand { minimum_length: 2, points: 4 },
        ScoreBand { minimum_length: 4, points: 9 },
    ])
    .unwrap();
    assert_eq!(table.score_length(1), 0);
    assert_eq!(table.score_length(3), 4);
    assert_eq!(table.score_length(40), 9);
    assert_eq!(table.score_word("éé"), 4);
    assert_eq!(table.bands().len(), 2);
    assert_eq!(ScoringTableError::NoBands.message(), "scoring table must contain at least one band");
}

#[test]
fn cubes_trim_faces_and_sets_refuse_no_cubes() {
    let cube = Cube::new(&[" A ", "b"]).unwrap();
    assert_eq!(cube.faces(), &["A".to_string(), "b".to_string()]);
    assert_eq!(CubeSet::new("x", vec![]), Err(CubeSetError::NoCubes));
    let set = CubeSet::new(" mine ", vec![cube]).unwrap();
    assert_eq!(set.name(), "mine");
    assert_eq!(CubeSetError::EmptyFace { index: 1 }.message(), "cube face 1 cannot be empty");
}

#[test]
fn players_trim_names() {
    let player = Player::new(PlayerId::new(3), "  Ada  ");
    assert_eq!(player.name(), "Ada");
    assert_eq!(player.id().get(), 3);
}

#[test]
fn standard_new_set_has_six_faces_on_each_of_sixteen_dice() {
    let set = CubeSet::standard_new();
    assert_eq!(set.cubes().len(), 16);
    assert!(set.cubes().iter().all(|die| die.faces().len() == 6));
    assert!(set.cubes().iter().flat_map(|die| die.faces().iter()).any(|label| label == "Qu"));
}

#[test]
fn standard_table_agrees_with_the_fixed_solver_table() {
    let table = ScoringTable::standard();
    for length in 0..14 {
        let word = "a".repeat(length);
        assert_eq!(table.score_word(&word), word_grid::word_score::score_word(&word), "{length}");
    }
}

#[test]
fn canceled_words_are_exactly_those_another_player_found() {
    let mut game = Match::new(
        fixed_rules(PlayMode::Endless),
        vec![
            Player::new(PlayerId::new(1), "A"),
            Player::new(PlayerId::new(2), "B"),
            Player::new(PlayerId::new(3), "C"),
        ],
    )
    .unwrap();
    let dictionary = Dictionary::from_words(&["cat", "sat", "act", "cats"]);
    let mut rng = SmallRng::seed_from_u64(13);
    game.start_round(&mut rng).unwrap();
    game.begin_round().unwrap();
    for (id, word) in [(1, "cat"), (1, "sat"), (2, "sat"), (3, "act"), (3, "sat"), (2, "cats")] {
        game.submit_text(PlayerId::new(id), word, &dictionary).unwrap();
    }
    let result = game.finish_round().unwrap();
    let words = |list: &[word_grid::game_match::Submission]| -> Vec<String> {
        list.iter().map(|s| s.word().to_string()).collect()
    };
    let a = result.player(PlayerId::new(1)).unwrap();
    assert_eq!(words(a.scored()), vec!["cat".to_string()]);
    assert_eq!(words(a.canceled()), vec!["sat".to_string()]);
    let b = result.player(PlayerId::new(2)).unwrap();
    assert_eq!(words(b.scored()), vec!["cats".to_string()]);
    assert_eq!(words(b.canceled()), vec!["sat".to_string()]);
    let c = result.player(PlayerId::new(3)).unwrap();
    assert_eq!(words(c.scored()), vec!["act".to_string()]);
    assert_eq!(c.score(), 1);
    assert_eq!(game.total_score(PlayerId::new(2)).unwrap(), 1);
}

#[test]
fn phases_follow_the_allowed_moves_and_results_are_kept() {
    let mut game = two_player_match();
    let dictionary = Dictionary::from_words(&["cat"]);
    let mut rng = SmallRng::seed_from_u64(21);
    assert_eq!(game.phase(), MatchPhase::Ready);
    game.start_round(&mut rng).unwrap();
    assert_eq!(game.phase(), MatchPhase::Rolling);
    assert!(game.finish_round().is_err());
    game.begin_round().unwrap();
    assert_eq!(game.phase(), MatchPhase::Playing);
    game.submit_text(PlayerId::new(2), "cat", &dictionary).unwrap();
    let first = game.finish_round().unwrap();
    let order: Vec<u32> = first.players().iter().map(|p| p.player_id().get()).collect();
    assert_eq!(order, vec![1, 2]);
    assert_eq!(game.phase(), MatchPhase::Review);
    game.start_round(&mut rng).unwrap();
    assert_eq!(game.completed_rounds()[0], first);
    game.begin_round().unwrap();
    game.finish_round().unwrap();
    game.finish_match().unwrap();
    assert_eq!(game.phase(), MatchPhase::Complete);
    assert!(game.start_round(&mut rng).is_err());
    assert!(game.begin_round().is_err());
    assert!(game.finish_round().is_err());
    assert!(game.finish_match().is_err());
    assert!(game.advance_time(Duration::from_secs(1)).is_err());
    assert_eq!(game.phase(), MatchPhase::Complete);
    assert_eq!(game.completed_rounds().len(), 2);
    assert_eq!(game.total_score(PlayerId::new(2)).unwrap(), 1);
}

#[test]
fn score_bounds_can_be_checked_before_the_calls() {
    let mut game = two_player_match();
    let dictionary = Dictionary::from_words(&["cat"]);
    assert!(game.round_scores_fit());
    assert!(game.current_score_fits(PlayerId::new(1)));
    assert!(game.total_score_fits(PlayerId::new(1)));
    let mut rng = SmallRng::seed_from_u64(31);
    game.start_round(&mut rng).unwrap();
    game.begin_round().unwrap();
    game.submit_text(PlayerId::new(1), "cat", &dictionary).unwrap();
    assert!(game.round_scores_fit());
    assert!(game.current_score_fits(PlayerId::new(1)));
    let huge = ScoringTable::new(vec![ScoreBand { minimum_length: 1, points: usize::MAX }]).unwrap();
    let cubes = ["c", "a", "t", "s"].map(|letter| Cube::new(&[letter]).unwrap()).to_vec();
    let rules = GameRules::new(2, 3, PlayMode::Endless, CubeSet::new("test", cubes).unwrap(), huge).unwrap();
    let mut big = Match::single_player(rules, "P").unwrap();
    big.start_round(&mut rng).unwrap();
    big.begin_round().unwrap();
    let words = Dictionary::from_words(&["cat", "act"]);
    big.submit_text(PlayerId::new(0), "cat", &words).unwrap();
    assert!(big.round_scores_fit());
    assert!(big.current_score_fits(PlayerId::new(0)));
    big.submit_text(PlayerId::new(0), "act", &words).unwrap();
    assert!(!big.round_scores_fit());
    assert!(!big.current_score_fits(PlayerId::new(0)));
}
