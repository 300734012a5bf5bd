use std::time::Duration;

use rand::rngs::SmallRng;
use rand::SeedableRng;

use word_grid::cube::{Cube, CubeSet};
use word_grid::dictionary::Dictionary;
use word_grid::game_match::{Match, MatchPhase, PlayerId};
use word_grid::rules::{GameRules, PlayMode};
use word_grid::scoring::ScoringTable;
use word_grid::session::{advance_clock, apply_to_match, local_player, start_normal, MatchNotice, PlayerIntent};

fn cats_rules(play_mode: PlayMode) -> GameRules {
    let cubes = ["c", "a", "t", "s"].map(|face| Cube::new(&[face]).unwrap()).to_vec();
    GameRules::new(2, 3, play_mode, CubeSet::new("test", cubes).unwrap(), ScoringTable::standard()).unwrap()
}

/// One frame of the client: the intents in order, then the clock.
fn frame(game: &mut Match, intents: Vec<PlayerIntent>, dictionary: &Dictionary, rng: &mut SmallRng, delta: Duration) -> Vec<MatchNotice> {
    let mut notices = Vec::new();
    for intent in intents {
        if let Some(notice) = apply_to_match(game, &intent, Some(dictionary), rng) {
            notices.push(notice);
        }
    }
    if let Some(notice) = advance_clock(game, delta) {
        notices.push(notice);
    }
    notices
}

#[test]
fn player_intent_mutates_match_and_emits_notice() {
    let rules = cats_rules(PlayMode::Endless);
    let mut game = Match::single_player(rules.clone(), "Player").unwrap();
    let mut rng = SmallRng::seed_from_u64(8);
    game.start_round(&mut rng).unwrap();
    game.begin_round().unwrap();
    let path = vec![0, 1, 2];
    let word = game.current_round().unwrap().board().grid().word_for_path(&path).unwrap();
    let dictionary = Dictionary::from_words(&[word.as_str()]);
    let mut game_rng = SmallRng::seed_from_u64(9);

    let notice = apply_to_match(&mut game, &PlayerIntent::SubmitPath(path), Some(&dictionary), &mut game_rng);

    assert_eq!(game.current_round().unwrap().submissions(local_player()).len(), 1);
    assert!(matches!(notice, Some(MatchNotice::SubmissionAccepted(_))));
}

#[test]
fn bridge_supports_early_finish_and_timer_expiry_in_one_match() {
    let rules = cats_rules(PlayMode::TimedRounds { duration: Duration::from_secs(1) });
    let letters = ["c", "a", "t", "s"];
    let mut words = Vec::new();
    for first in 0..4 {
        for second in 0..4 {
            for third in 0..4 {
                if first != second && first != third && second != third {
                    words.push(format!("{}{}{}", letters[first], letters[second], letters[third]));
                }
            }
        }
    }
    let word_refs: Vec<&str> = words.iter().map(String::as_str).collect();
    let dictionary = Dictionary::from_words(&word_refs);
    let mut rng = SmallRng::seed_from_u64(22);

    let mut game = start_normal(&rules, &mut rng);
    for round_index in 0..2 {
        frame(&mut game, vec![PlayerIntent::RollComplete], &dictionary, &mut rng, Duration::ZERO);
        frame(&mut game, vec![PlayerIntent::SubmitPath(vec![0, 1, 2])], &dictionary, &mut rng, Duration::ZERO);
        if round_index == 0 {
            assert_eq!(
                game.current_round().and_then(|round| round.remaining()),
                Some(Duration::from_secs(1))
            );
            frame(&mut game, vec![PlayerIntent::EndRound], &dictionary, &mut rng, Duration::ZERO);
        } else {
            let notices = frame(&mut game, vec![], &dictionary, &mut rng, Duration::from_secs(1));
            assert!(matches!(notices.as_slice(), [MatchNotice::RoundFinished(_)]));
        }

        assert_eq!(game.phase(), MatchPhase::Review);

        if round_index == 0 {
            frame(&mut game, vec![PlayerIntent::StartNextRound], &dictionary, &mut rng, Duration::ZERO);
        }
    }
    frame(&mut game, vec![PlayerIntent::FinishMatch], &dictionary, &mut rng, Duration::ZERO);

    assert_eq!(game.phase(), MatchPhase::Complete);
    assert_eq!(game.completed_rounds().len(), 2);
    assert_eq!(game.total_score(local_player()).unwrap(), 2);
}

#[test]
fn start_normal_rolls_a_board_for_the_local_player() {
    let rules = cats_rules(PlayMode::Endless);
    let mut rng = SmallRng::seed_from_u64(1);
    let game = start_normal(&rules, &mut rng);
    assert_eq!(game.phase(), MatchPhase::Rolling);
    assert_eq!(game.players().len(), 1);
    assert_eq!(game.players()[0].name(), "Player");
    assert_eq!(game.players()[0].id(), PlayerId::new(0));
    assert_eq!(game.current_round().unwrap().board().grid().cells().len(), 4);
}

#[test]
fn intents_report_refusals_and_leaving() {
    let rules = cats_rules(PlayMode::Endless);
    let mut rng = SmallRng::seed_from_u64(3);
    let mut game = start_normal(&rules, &mut rng);
    let dictionary = Dictionary::from_words(&["cat"]);

    assert!(apply_to_match(&mut game, &PlayerIntent::StartNormal, Some(&dictionary), &mut rng).is_none());
    match apply_to_match(&mut game, &PlayerIntent::FinishMatch, Some(&dictionary), &mut rng) {
        Some(MatchNotice::SubmissionRejected(message)) => {
            assert_eq!(message, "cannot finish the match while match is Rolling")
        }
        other => panic!("unexpected {other:?}"),
    }
    match apply_to_match(&mut game, &PlayerIntent::SubmitText("cat".into()), None, &mut rng) {
        Some(MatchNotice::SubmissionRejected(message)) => assert_eq!(message, "Dictionary is still loading."),
        other => panic!("unexpected {other:?}"),
    }
    match apply_to_match(&mut game, &PlayerIntent::SubmitText("cat".into()), Some(&dictionary), &mut rng) {
        Some(MatchNotice::SubmissionRejected(message)) => {
            assert_eq!(message, "words cannot be submitted while match is Rolling")
        }
        other => panic!("unexpected {other:?}"),
    }
    assert!(matches!(
        apply_to_match(&mut game, &PlayerIntent::RollComplete, Some(&dictionary), &mut rng),
        Some(MatchNotice::RoundBegan)
    ));
    assert!(matches!(
        apply_to_match(&mut game, &PlayerIntent::SubmitText("CAT".into()), Some(&dictionary), &mut rng),
        Some(MatchNotice::SubmissionAccepted(_))
    ));
    assert!(advance_clock(&mut game, Duration::from_secs(100)).is_none());
    assert!(matches!(
        apply_to_match(&mut game, &PlayerIntent::LeaveMatch, Some(&dictionary), &mut rng),
        Some(MatchNotice::MatchExited)
    ));
    assert_eq!(game.phase(), MatchPhase::Playing);
}
