use word_grid::client::{delete_last_input, displayed_labels, projected_round_screen, InputDraft, RoundScreen, Screen};
use word_grid::game_match::MatchPhase;

#[test]
fn initial_flow_loads_before_entering_a_match() {
    assert_eq!(Screen::default(), Screen::Loading);
    assert_eq!(RoundScreen::default(), RoundScreen::Rolling);
}

#[test]
fn round_screen_is_only_a_projection_of_the_domain_phase() {
    assert_eq!(projected_round_screen(MatchPhase::Rolling), RoundScreen::Rolling);
    assert_eq!(projected_round_screen(MatchPhase::Playing), RoundScreen::Playing);
    assert_eq!(projected_round_screen(MatchPhase::Review), RoundScreen::Review);
    assert_eq!(projected_round_screen(MatchPhase::Complete), RoundScreen::Review);
}

#[test]
fn ready_phase_shows_the_rolling_screen() {
    assert_eq!(projected_round_screen(MatchPhase::Ready), RoundScreen::Rolling);
}

#[test]
fn hud_backspace_removes_typed_text_before_a_selected_path() {
    let mut input = InputDraft { path: vec![1, 2], typed: "cat".into(), ..Default::default() };

    delete_last_input(&mut input);
    assert_eq!(input.typed, "ca");
    assert_eq!(input.path, vec![1, 2]);

    input.typed.clear();
    delete_last_input(&mut input);
    assert_eq!(input.path, vec![1]);
}

#[test]
fn main_backspace_removes_typed_text_before_a_selected_path() {
    let mut input = InputDraft { path: vec![1, 2], typed: "cat".into(), ..Default::default() };

    delete_last_input(&mut input);
    assert_eq!(input.typed, "ca");
    assert_eq!(input.path, vec![1, 2]);

    input.typed.clear();
    delete_last_input(&mut input);
    assert_eq!(input.path, vec![1]);
}

#[test]
fn backspace_on_an_empty_draft_changes_nothing() {
    let mut input = InputDraft { feedback: "hi".into(), ..Default::default() };
    delete_last_input(&mut input);
    assert!(input.path.is_empty());
    assert!(input.typed.is_empty());
    assert_eq!(input.feedback, "hi");
    let mut accented = InputDraft { typed: "né".into(), ..Default::default() };
    delete_last_input(&mut accented);
    assert_eq!(accented.typed, "n");
}

#[test]
fn non_physical_cube_sets_still_display_the_selected_label_on_top() {
    let faces = ["a", "b", "c", "d", "e", "f", "g"].map(String::from).to_vec();
    assert_eq!(displayed_labels(&faces, 6)[0], "g");

    let one_face = vec![String::from("qu")];
    assert_eq!(displayed_labels(&one_face, 0), vec!["qu", "qu", "qu", "qu", "qu", "qu"]);
}

#[test]
fn displayed_labels_keep_six_faces_and_cycle_short_cubes() {
    let six = ["a", "b", "c", "d", "e", "f"].map(String::from).to_vec();
    assert_eq!(displayed_labels(&six, 3), vec!["a", "b", "c", "d", "e", "f"]);
    let seven = ["a", "b", "c", "d", "e", "f", "g"].map(String::from).to_vec();
    assert_eq!(displayed_labels(&seven, 2), vec!["c", "a", "b", "d", "e", "f"]);
    let two = ["x", "y"].map(String::from).to_vec();
    assert_eq!(displayed_labels(&two, 1), vec!["y", "x", "y", "x", "y", "x"]);
}

use rand::rngs::SmallRng;
use rand::SeedableRng;
use word_grid::client::{
    format_clock, clear_draft, consume_notice, draft_display, draft_word, entry_label, hud_entries, review_summary, review_title,
    round_total, select_cell, submit_draft, type_text,
};
use word_grid::cube::{Cube, CubeSet};
use word_grid::dictionary::Dictionary;
use word_grid::game_match::{Match, Player, PlayerId};
use word_grid::rules::{GameRules, PlayMode};
use word_grid::scoring::ScoringTable;
use word_grid::session::{MatchNotice, PlayerIntent};

fn cats_match(players: Vec<Player>) -> Match {
    let cubes = ["c", "a", "t", "s"].map(|face| Cube::new(&[face]).unwrap()).to_vec();
    let rules =
        GameRules::new(2, 3, PlayMode::Endless, CubeSet::new("test", cubes).unwrap(), ScoringTable::standard()).unwrap();
    let mut game = Match::new(rules, players).unwrap();
    let mut rng = SmallRng::seed_from_u64(11);
    game.start_round(&mut rng).unwrap();
    game
}

fn index_of(game: &Match, letter: &str) -> usize {
    game.current_round().unwrap().board().grid().cells().iter().position(|c| c == letter).unwrap()
}

#[test]
fn picking_cells_builds_a_path_and_explains_refusals() {
    let mut game = cats_match(vec![Player::new(PlayerId::new(0), "Me")]);
    let mut input = InputDraft::default();
    let c = index_of(&game, "c");
    select_cell(&mut input, &game, c);
    assert_eq!(input.feedback, "Wait for the dice to settle.");
    assert!(input.path.is_empty());

    game.begin_round().unwrap();
    input.typed = "zz".into();
    select_cell(&mut input, &game, c);
    assert_eq!(input.path, vec![c]);
    assert_eq!(input.typed, "");
    assert_eq!(input.feedback, "Selected C");
    select_cell(&mut input, &game, c);
    assert_eq!(input.feedback, "A die cannot be reused.");
    select_cell(&mut input, &game, 9);
    assert_eq!(input.feedback, "Choose an adjacent die.");
    let a = index_of(&game, "a");
    select_cell(&mut input, &game, a);
    assert_eq!(input.feedback, "Selected CA");
    assert_eq!(draft_word(&game, &input), "ca");
    assert_eq!(draft_display(&game, &input), "CA");
}

#[test]
fn typing_replaces_the_path_and_submitting_clears_the_draft() {
    let game = cats_match(vec![Player::new(PlayerId::new(0), "Me")]);
    let mut input = InputDraft { path: vec![0, 1], feedback: "keep".into(), ..Default::default() };
    type_text(&mut input, "ca");
    type_text(&mut input, "t");
    assert!(input.path.is_empty());
    assert_eq!(draft_word(&game, &input), "cat");
    match submit_draft(&mut input) {
        PlayerIntent::SubmitText(word) => assert_eq!(word, "cat"),
        other => panic!("unexpected {other:?}"),
    }
    assert!(input.typed.is_empty());
    input.path = vec![2, 3];
    match submit_draft(&mut input) {
        PlayerIntent::SubmitPath(path) => assert_eq!(path, vec![2, 3]),
        other => panic!("unexpected {other:?}"),
    }
    assert!(input.path.is_empty());
    input.path = vec![1];
    input.typed = "x".into();
    clear_draft(&mut input);
    assert!(input.path.is_empty() && input.typed.is_empty());
    assert_eq!(input.feedback, "keep");
    input.path = vec![0, 3, 0];
    assert_eq!(draft_word(&game, &input), "");
}

#[test]
fn notices_update_the_feedback() {
    let mut input = InputDraft { path: vec![1], typed: "ab".into(), ..Default::default() };
    consume_notice(&mut input, &MatchNotice::RoundBegan);
    assert_eq!(input.feedback, "Go! Click adjacent dice or type a word.");
    assert_eq!(input.typed, "ab");
    consume_notice(&mut input, &MatchNotice::SubmissionRejected("nope".into()));
    assert_eq!(input.feedback, "nope");
    consume_notice(&mut input, &MatchNotice::RoundStarted);
    assert_eq!(input.feedback, "Rolling the dice…");
    assert!(input.path.is_empty() && input.typed.is_empty());
    consume_notice(&mut input, &MatchNotice::MatchFinished);
    assert_eq!(input.feedback, "Match complete.");

    let mut game = cats_match(vec![Player::new(PlayerId::new(0), "Me")]);
    game.begin_round().unwrap();
    let dictionary = Dictionary::from_words(&["cats"]);
    let accepted = game.submit_text(PlayerId::new(0), "cats", &dictionary).unwrap();
    consume_notice(&mut input, &MatchNotice::SubmissionAccepted(accepted));
    assert_eq!(input.feedback, "Accepted CATS (+1)");
    input.typed = "q".into();
    let result = game.finish_round().unwrap();
    consume_notice(&mut input, &MatchNotice::RoundFinished(result));
    assert_eq!(input.feedback, "Time! Review your round.");
    assert!(input.typed.is_empty());
    input.typed = "q".into();
    consume_notice(&mut input, &MatchNotice::MatchExited);
    assert!(input.typed.is_empty());
}

#[test]
fn word_list_sorts_longest_first_and_marks_cancellations() {
    let mut game = cats_match(vec![Player::new(PlayerId::new(0), "Me"), Player::new(PlayerId::new(1), "You")]);
    game.begin_round().unwrap();
    let dictionary = Dictionary::from_words(&["cat", "cats", "sat", "act"]);
    for word in ["sat", "cat", "cats", "act"] {
        game.submit_text(PlayerId::new(0), word, &dictionary).unwrap();
    }
    game.submit_text(PlayerId::new(1), "cat", &dictionary).unwrap();
    assert_eq!(round_total(&game), 4);
    let live: Vec<(String, bool)> =
        hud_entries(&game).iter().map(|(s, canceled)| (s.word().to_string(), *canceled)).collect();
    assert_eq!(
        live,
        vec![("cats".into(), false), ("act".into(), false), ("cat".into(), false), ("sat".into(), false)]
    );

    game.finish_round().unwrap();
    assert_eq!(round_total(&game), 3);
    let reviewed = hud_entries(&game);
    let labels: Vec<String> = reviewed.iter().map(entry_label).collect();
    assert_eq!(labels, vec!["CATS", "ACT", "CAT (DUPLICATE)", "SAT"]);
    assert_eq!(review_title(&game), "ROUND 1 COMPLETE");
    assert_eq!(review_summary(&game), "Words found: 3\nRound score: 3\nMatch total: 3");
    game.finish_match().unwrap();
    assert_eq!(review_title(&game), "MATCH COMPLETE");
    assert_eq!(review_summary(&game), "1 rounds played\nFINAL SCORE: 3");
}

#[test]
fn empty_match_shows_nothing_yet() {
    let cubes = ["c", "a", "t", "s"].map(|face| Cube::new(&[face]).unwrap()).to_vec();
    let rules =
        GameRules::new(2, 3, PlayMode::Endless, CubeSet::new("test", cubes).unwrap(), ScoringTable::standard()).unwrap();
    let game = Match::single_player(rules, "Me").unwrap();
    assert!(hud_entries(&game).is_empty());
    assert_eq!(round_total(&game), 0);
    assert_eq!(review_title(&game), "ROUND 0 COMPLETE");
    assert_eq!(review_summary(&game), "Words found: 0\nRound score: 0\nMatch total: 0");
}

#[test]
fn round_clock_pads_minutes_and_seconds() {
    assert_eq!(format_clock(Some(180)), "03:00");
    assert_eq!(format_clock(Some(9)), "00:09");
    assert_eq!(format_clock(Some(6000)), "100:00");
    assert_eq!(format_clock(None), "∞");
}

#[test]
fn hud_clock_shows_zero_outside_a_round() {
    let cubes = ["c", "a", "t", "s"].map(|face| Cube::new(&[face]).unwrap()).to_vec();
    let rules =
        GameRules::new(2, 3, PlayMode::Endless, CubeSet::new("test", cubes).unwrap(), ScoringTable::standard()).unwrap();
    let mut game = Match::single_player(rules, "Me").unwrap();
    assert_eq!(word_grid::client::hud_clock(&game, Some(9)), "00:00");
    let mut rng = SmallRng::seed_from_u64(2);
    game.start_round(&mut rng).unwrap();
    assert_eq!(word_grid::client::hud_clock(&game, None), "∞");
    assert_eq!(word_grid::client::hud_clock(&game, Some(125)), "02:05");
}
