use std::time::Duration;

use rand::rngs::SmallRng;

use vstd::prelude::*;

use crate::cube::cube_faces;
use crate::dictionary::Dictionary;
use crate::durations::duration_nanos;
use crate::game_match::{
    fresh_round, ids_of, match_error_message, outcome_view, round_finished, scores_fit, submission_error_message,
    submit_outcome, submitted, text_submitted, time_ticked, Match, MatchError, MatchPhase, PlayerId, RoundResult,
    Submission, SubmissionError, SubmissionView,
};
use crate::rules::GameRules;

verus! {

/// What the player asks the game to do.
#[derive(Debug)]
pub enum PlayerIntent {
    /// Start a normal single-player match.
    StartNormal,
    /// The dice have finished rolling.
    RollComplete,
    /// Submit the word that these cells spell.
    SubmitPath(Vec<usize>),
    /// Submit this word.
    SubmitText(String),
    /// End the round now.
    EndRound,
    /// Roll the board for the next round.
    StartNextRound,
    /// End the match.
    FinishMatch,
    /// Leave the match.
    LeaveMatch,
}

/// What the game tells the client after an intent or a tick of the clock.
#[derive(Debug)]
pub enum MatchNotice {
    /// A board was rolled.
    RoundStarted,
    /// Submissions are taken.
    RoundBegan,
    /// A word was accepted.
    SubmissionAccepted(Submission),
    /// An intent was refused, with the reason.
    SubmissionRejected(String),
    /// A round was finished and reviewed.
    RoundFinished(RoundResult),
    /// The match ended.
    MatchFinished,
    /// The player left the match.
    MatchExited,
}

/// The identifier of the player at this machine.
pub fn local_player() -> (r: PlayerId)
    ensures
        r == PlayerId::new_spec(0),
{
    PlayerId::new(0)
}

/// The two rule sets agree on every setting.
pub open spec fn same_rules(a: GameRules, b: GameRules) -> bool {
    &&& a.side() == b.side()
    &&& a.min_letters() == b.min_letters()
    &&& a.mode() == b.mode()
    &&& a.cubes().name_view() == b.cubes().name_view()
    &&& cube_faces(a.cubes().cube_seq()) == cube_faces(b.cubes().cube_seq())
    &&& a.table().band_seq() == b.table().band_seq()
}

/// `after` is `before` with a new board rolled: the round is fresh and being rolled, and
/// the rules, the players and the finished rounds stay.
pub open spec fn round_started(before: Match, after: Match) -> bool {
    &&& after.phase_view() == MatchPhase::Rolling
    &&& after.round_view() is Some
    &&& fresh_round(before.rules_view(), ids_of(before.player_seq()), after.round_view().unwrap())
    &&& after.rules_view() == before.rules_view()
    &&& after.player_seq() == before.player_seq()
    &&& after.results_view() == before.results_view()
}

/// `after` is `before` moved to `phase`, with nothing else changed.
pub open spec fn moved_to(before: Match, after: Match, phase: MatchPhase) -> bool {
    &&& after.phase_view() == phase
    &&& after.rules_view() == before.rules_view()
    &&& after.player_seq() == before.player_seq()
    &&& after.round_view() == before.round_view()
    &&& after.results_view() == before.results_view()
}

/// The notice refuses with the message of `e`.
pub open spec fn refused_with(n: Option<MatchNotice>, e: MatchError) -> bool {
    n matches Some(MatchNotice::SubmissionRejected(m)) && m@ == match_error_message(e)
}

/// The notice reports the outcome of a submission: the accepted submission, or the message
/// of the error.
pub open spec fn reports_submission(n: Option<MatchNotice>, o: Result<SubmissionView, SubmissionError>) -> bool {
    match o {
        Ok(s) => n matches Some(MatchNotice::SubmissionAccepted(x)) && x@ == s,
        Err(e) => n matches Some(MatchNotice::SubmissionRejected(m)) && m@ == submission_error_message(e),
    }
}

/// The message shown while the dictionary is not there yet.
pub open spec fn loading_message() -> Seq<char> {
    "Dictionary is still loading."@
}

/// A new single-player match under `rules` for the player "Player", with its first board
/// rolled.
pub fn start_normal(rules: &GameRules, rng: &mut SmallRng) -> (m: Match)
    ensures
        m.phase_view() == MatchPhase::Rolling,
        m.player_seq().len() == 1,
        m.player_seq()[0].id_view() == PlayerId::new_spec(0),
        m.player_seq()[0].name_view() == "Player"@,
        same_rules(m.rules_view(), *rules),
        m.results_view().len() == 0,
        m.round_view() is Some,
        fresh_round(m.rules_view(), ids_of(m.player_seq()), m.round_view().unwrap()),
{
    proof {
        reveal_strlit("Player");
    }
    let created = Match::single_player(rules.clone(), "Player");
    let mut m = match created {
        Ok(m) => m,
        Err(_) => vstd::pervasive::unreached(),
    };
    proof {
        PlayerId::lemma_new_spec_value(0);
        PlayerId::lemma_value_identifies(m.player_seq()[0].id_view(), PlayerId::new_spec(0));
    }
    let ghost before = m;
    match m.start_round(rng) {
        Ok(_) => {},
        Err(_) => vstd::pervasive::unreached(),
    }
    proof {
        assert(round_started(before, m));
    }
    m
}

/// Applies an intent to the match in play and gives the notice to show, if any. Starting a
/// match while one is in play does nothing; leaving it is reported (the caller drops it).
/// The other intents call the match operation of the same name for the local player and
/// report its result or the message of its error; a submission while the dictionary is not
/// there yet is refused.
pub fn apply_to_match(game: &mut Match, intent: &PlayerIntent, dictionary: Option<&Dictionary>, rng: &mut SmallRng) -> (r: Option<MatchNotice>)
    requires
        (*intent matches PlayerIntent::EndRound) && old(game).phase_view() == MatchPhase::Playing ==> scores_fit(
            old(game).round_view().unwrap(),
        ),
    ensures
        match *intent {
            PlayerIntent::StartNormal => r is None && *final(game) == *old(game),
            PlayerIntent::LeaveMatch => (r matches Some(MatchNotice::MatchExited)) && *final(game) == *old(game),
            PlayerIntent::RollComplete => if old(game).phase_view() == MatchPhase::Rolling {
                (r matches Some(MatchNotice::RoundBegan)) && moved_to(*old(game), *final(game), MatchPhase::Playing)
            } else {
                refused_with(
                    r,
                    MatchError::InvalidTransition {
                        phase: old(game).phase_view(),
                        operation: "begin accepting submissions",
                    },
                ) && *final(game) == *old(game)
            },
            PlayerIntent::SubmitPath(path) => match dictionary {
                None => (r matches Some(MatchNotice::SubmissionRejected(m)) && m@ == loading_message()) && *final(game)
                    == *old(game),
                Some(d) => {
                    let o = submit_outcome(*old(game), PlayerId::new_spec(0), path@, d.words());
                    submitted(*old(game), *final(game), PlayerId::new_spec(0), path@, d.words(), o)
                        && reports_submission(r, o)
                },
            },
            PlayerIntent::SubmitText(word) => match dictionary {
                None => (r matches Some(MatchNotice::SubmissionRejected(m)) && m@ == loading_message()) && *final(game)
                    == *old(game),
                Some(d) => exists|o: Result<SubmissionView, SubmissionError>|
                    #[trigger] text_submitted(*old(game), *final(game), PlayerId::new_spec(0), word@, d.words(), o)
                        && reports_submission(r, o),
            },
            PlayerIntent::EndRound => if old(game).phase_view() == MatchPhase::Playing {
                r matches Some(MatchNotice::RoundFinished(res)) && round_finished(*old(game), *final(game), res)
            } else {
                refused_with(
                    r,
                    MatchError::InvalidTransition { phase: old(game).phase_view(), operation: "finish the round" },
                ) && *final(game) == *old(game)
            },
            PlayerIntent::StartNextRound => if old(game).phase_view() == MatchPhase::Ready || old(game).phase_view()
                == MatchPhase::Review {
                (r matches Some(MatchNotice::RoundStarted)) && round_started(*old(game), *final(game))
            } else {
                refused_with(
                    r,
                    MatchError::InvalidTransition { phase: old(game).phase_view(), operation: "start a round" },
                ) && *final(game) == *old(game)
            },
            PlayerIntent::FinishMatch => if old(game).phase_view() == MatchPhase::Review {
                (r matches Some(MatchNotice::MatchFinished)) && moved_to(*old(game), *final(game), MatchPhase::Complete)
            } else {
                refused_with(
                    r,
                    MatchError::InvalidTransition { phase: old(game).phase_view(), operation: "finish the match" },
                ) && *final(game) == *old(game)
            },
        },
{
    match intent {
        PlayerIntent::StartNormal => None,
        PlayerIntent::LeaveMatch => Some(MatchNotice::MatchExited),
        PlayerIntent::RollComplete => match game.begin_round() {
            Ok(()) => Some(MatchNotice::RoundBegan),
            Err(e) => Some(MatchNotice::SubmissionRejected(e.message())),
        },
        PlayerIntent::SubmitPath(path) => match dictionary {
            None => Some(MatchNotice::SubmissionRejected(String::from_str("Dictionary is still loading."))),
            Some(d) => {
                let result = game.submit_path(local_player(), copy_path(path), d);
                match result {
                    Ok(s) => Some(MatchNotice::SubmissionAccepted(s)),
                    Err(e) => Some(MatchNotice::SubmissionRejected(e.message())),
                }
            },
        },
        PlayerIntent::SubmitText(word) => match dictionary {
            None => Some(MatchNotice::SubmissionRejected(String::from_str("Dictionary is still loading."))),
            Some(d) => {
                let result = game.submit_text(local_player(), word.as_str(), d);
                let ghost o = outcome_view(result);
                let notice = match result {
                    Ok(s) => Some(MatchNotice::SubmissionAccepted(s)),
                    Err(e) => Some(MatchNotice::SubmissionRejected(e.message())),
                };
                assert(reports_submission(notice, o));
                notice
            },
        },
        PlayerIntent::EndRound => match game.finish_round() {
            Ok(res) => Some(MatchNotice::RoundFinished(res)),
            Err(e) => Some(MatchNotice::SubmissionRejected(e.message())),
        },
        PlayerIntent::StartNextRound => match game.start_round(rng) {
            Ok(_) => Some(MatchNotice::RoundStarted),
            Err(e) => Some(MatchNotice::SubmissionRejected(e.message())),
        },
        PlayerIntent::FinishMatch => match game.finish_match() {
            Ok(()) => Some(MatchNotice::MatchFinished),
            Err(e) => Some(MatchNotice::SubmissionRejected(e.message())),
        },
    }
}

/// A copy of a path.
fn copy_path(path: &Vec<usize>) -> (r: Vec<usize>)
    ensures
        r@ == path@,
{
    let mut r: Vec<usize> = Vec::new();
    let mut i: usize = 0;
    while i < path.len()
        invariant
            i <= path.len(),
            r@ == path@.take(i as int),
        decreases path.len() - i,
    {
        r.push(path[i]);
        assert(path@.take(i + 1) =~= path@.take(i as int).push(path@[i as int]));
        i += 1;
    }
    assert(path@.take(path.len() as int) =~= path@);
    r
}

/// Lets `elapsed` pass on the match's clock while a round is played and reports a round that
/// the clock ends; outside play the clock stands still.
pub fn advance_clock(game: &mut Match, elapsed: Duration) -> (r: Option<MatchNotice>)
    requires
        old(game).phase_view() == MatchPhase::Playing ==> scores_fit(old(game).round_view().unwrap()),
    ensures
        old(game).phase_view() != MatchPhase::Playing ==> r is None && *final(game) == *old(game),
        old(game).phase_view() == MatchPhase::Playing ==> match old(game).round_view().unwrap().time_left() {
            None => r is None && *final(game) == *old(game),
            Some(t) => if duration_nanos(elapsed) < duration_nanos(t) {
                r is None && time_ticked(*old(game), *final(game), (duration_nanos(t) - duration_nanos(elapsed)) as nat)
            } else {
                r matches Some(MatchNotice::RoundFinished(res)) && round_finished(*old(game), *final(game), res)
            },
        },
{
    if game.phase() != MatchPhase::Playing {
        return None;
    }
    match game.advance_time(elapsed) {
        Ok(Some(res)) => Some(MatchNotice::RoundFinished(res)),
        Ok(None) => None,
        Err(e) => Some(MatchNotice::SubmissionRejected(e.message())),
    }
}

} // verus!
