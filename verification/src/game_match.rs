use std::time::Duration;

use rand::rngs::SmallRng;

use vstd::prelude::*;

use crate::dictionary::Dictionary;
use crate::durations::{duration_minus, duration_nanos, nanos_of};
use crate::grid::{least_path, lemma_least_path_unique, path_error, path_error_message, spell, valid_path, WordPathError};
use crate::roll::{choices_fit, draws_fit, fisher_yates, roll_matches, BoardRoll, RolledCube};
use crate::rules::{GameRules, PlayMode};
use crate::scoring::score_for;
use crate::text::{ascii_lower, chars_of, decimal, normalize, push_decimal, push_str, string_of, trim, trim_str};

verus! {

/// A stable identifier of a player within a match.
#[derive(Debug, Clone, Copy, PartialEq, Eq, Hash, PartialOrd, Ord, Structural)]
pub struct PlayerId(u32);

impl PlayerId {
    /// The number this identifier wraps.
    pub closed spec fn value(self) -> u32 {
        self.0
    }

    /// The identifier with number `value`.
    pub closed spec fn new_spec(value: u32) -> PlayerId {
        PlayerId(value)
    }

    /// Identifiers are equal exactly when their numbers are.
    pub proof fn lemma_value_identifies(a: PlayerId, b: PlayerId)
        ensures
            (a == b) <==> (a.value() == b.value()),
    {
    }

    /// The identifier made from a number wraps that number.
    pub proof fn lemma_new_spec_value(value: u32)
        ensures
            PlayerId::new_spec(value).value() == value,
    {
    }

    /// The identifier with number `value`.
    pub fn new(value: u32) -> (r: PlayerId)
        ensures
            r.value() == value,
            r == PlayerId::new_spec(value),
    {
        PlayerId(value)
    }

    /// The number this identifier wraps.
    pub fn get(self) -> (r: u32)
        ensures
            r == self.value(),
    {
        self.0
    }
}

/// A player: an identifier and a trimmed name.
#[derive(Debug, Clone, PartialEq, Eq)]
pub struct Player {
    id: PlayerId,
    name: String,
}

impl Player {
    /// The identifier.
    pub closed spec fn id_view(&self) -> PlayerId {
        self.id
    }

    /// The name.
    pub closed spec fn name_view(&self) -> Seq<char> {
        self.name@
    }

    /// A player with the given identifier and the trimmed name.
    pub fn new(id: PlayerId, name: &str) -> (r: Player)
        ensures
            r.id_view() == id,
            r.name_view() == trim(name@),
    {
        let trimmed = trim_str(name);
        Player { id, name: string_of(trimmed.as_slice()) }
    }

    /// The identifier.
    pub fn id(&self) -> (r: PlayerId)
        ensures
            r == self.id_view(),
    {
        self.id
    }

    /// The name.
    pub fn name(&self) -> (r: &str)
        ensures
            r@ == self.name_view(),
    {
        self.name.as_str()
    }
}

/// Where a match stands.
#[derive(Debug, Clone, Copy, PartialEq, Eq, Structural)]
pub enum MatchPhase {
    /// No round has been played yet.
    Ready,
    /// A board has been rolled; submissions are not taken yet.
    Rolling,
    /// Submissions are taken.
    Playing,
    /// A round has ended and can be reviewed.
    Review,
    /// The match is over.
    Complete,
}

/// The name of a phase, as `{:?}` prints it.
pub open spec fn phase_name(p: MatchPhase) -> Seq<char> {
    match p {
        MatchPhase::Ready => "Ready"@,
        MatchPhase::Rolling => "Rolling"@,
        MatchPhase::Playing => "Playing"@,
        MatchPhase::Review => "Review"@,
        MatchPhase::Complete => "Complete"@,
    }
}

fn push_phase_name(s: &mut String, p: MatchPhase)
    ensures
        final(s)@ == old(s)@ + phase_name(p),
{
    match p {
        MatchPhase::Ready => push_str(s, "Ready"),
        MatchPhase::Rolling => push_str(s, "Rolling"),
        MatchPhase::Playing => push_str(s, "Playing"),
        MatchPhase::Review => push_str(s, "Review"),
        MatchPhase::Complete => push_str(s, "Complete"),
    }
}

/// An accepted word: who found it, the word, its path and its points before review.
#[derive(Debug, PartialEq, Eq)]
pub struct Submission {
    player_id: PlayerId,
    word: String,
    path: Vec<usize>,
    base_score: usize,
}

impl View for Submission {
    type V = (PlayerId, Seq<char>, Seq<usize>, nat);

    closed spec fn view(&self) -> (PlayerId, Seq<char>, Seq<usize>, nat) {
        (self.player_id, self.word@, self.path@, self.base_score as nat)
    }
}

fn copy_indices(v: &[usize]) -> (r: Vec<usize>)
    ensures
        r@ == v@,
{
    let mut r: Vec<usize> = Vec::new();
    let mut i: usize = 0;
    while i < v.len()
        invariant
            i <= v.len(),
            r@ == v@.take(i as int),
        decreases v.len() - i,
    {
        r.push(v[i]);
        assert(v@.take(i + 1) == v@.take(i as int).push(v@[i as int]));
        i += 1;
    }
    assert(v@.take(v.len() as int) == v@);
    r
}

impl Submission {
    /// Who found the word.
    pub fn player_id(&self) -> (r: PlayerId)
        ensures
            r == self@.0,
    {
        self.player_id
    }

    /// The word.
    pub fn word(&self) -> (r: &str)
        ensures
            r@ == self@.1,
    {
        self.word.as_str()
    }

    /// The cells that spell it.
    pub fn path(&self) -> (r: &[usize])
        ensures
            r@ == self@.2,
    {
        self.path.as_slice()
    }

    /// Its points, before duplicates are reviewed.
    pub fn base_score(&self) -> (r: usize)
        ensures
            r == self@.3,
    {
        self.base_score
    }

    /// A copy.
    pub fn duplicate(&self) -> (r: Submission)
        ensures
            r@ == self@,
    {
        Submission {
            player_id: self.player_id,
            word: self.word.clone(),
            path: copy_indices(self.path.as_slice()),
            base_score: self.base_score,
        }
    }
}

impl Clone for Submission {
    fn clone(&self) -> (r: Self)
        ensures
            r@ == self@,
    {
        self.duplicate()
    }
}

/// The views of a list of submissions.
pub open spec fn views(s: Seq<Submission>) -> Seq<(PlayerId, Seq<char>, Seq<usize>, nat)> {
    s.map_values(|x: Submission| x@)
}

/// Views of a list grow by the view of what is pushed.
pub proof fn lemma_views_push(s: Seq<Submission>, x: Submission)
    ensures
        views(s.push(x)) == views(s).push(x@),
{
    assert(views(s.push(x)) =~= views(s).push(x@));
}

/// The sum of the points of a list of submissions.
pub open spec fn sum_points(s: Seq<(PlayerId, Seq<char>, Seq<usize>, nat)>) -> nat
    decreases s.len(),
{
    if s.len() == 0 {
        0
    } else {
        sum_points(s.drop_last()) + s.last().3
    }
}

/// The word occurs in a list of submissions.
pub open spec fn has_word(s: Seq<(PlayerId, Seq<char>, Seq<usize>, nat)>, w: Seq<char>) -> bool {
    exists|i: int| 0 <= i < s.len() && (#[trigger] s[i]).1 == w
}

/// One entry of a player's round result: who, the scored and the canceled submissions, and
/// the points.
pub type ResultView = (PlayerId, Seq<(PlayerId, Seq<char>, Seq<usize>, nat)>, Seq<(PlayerId, Seq<char>, Seq<usize>, nat)>, nat);

/// The first position of `pid` in `ids`, or -1.
pub open spec fn first_index(ids: Seq<PlayerId>, pid: PlayerId) -> int
    decreases ids.len(),
{
    if ids.len() == 0 {
        -1
    } else if ids[0] == pid {
        0
    } else {
        let r = first_index(ids.drop_first(), pid);
        if r < 0 {
            -1
        } else {
            r + 1
        }
    }
}

/// `first_index` finds the first occurrence, or reports that there is none.
pub proof fn lemma_first_index(ids: Seq<PlayerId>, pid: PlayerId)
    ensures
        -1 <= first_index(ids, pid) < ids.len(),
        first_index(ids, pid) >= 0 ==> ids[first_index(ids, pid)] == pid && forall|j: int|
            0 <= j < first_index(ids, pid) ==> ids[j] != pid,
        first_index(ids, pid) < 0 ==> forall|j: int| 0 <= j < ids.len() ==> ids[j] != pid,
    decreases ids.len(),
{
    if ids.len() > 0 && ids[0] != pid {
        lemma_first_index(ids.drop_first(), pid);
        let r = first_index(ids.drop_first(), pid);
        assert forall|j: int| 1 <= j < ids.len() implies ids[j] == ids.drop_first()[j - 1] by {}
        if r < 0 {
            assert forall|j: int| 0 <= j < ids.len() implies ids[j] != pid by {
                if j > 0 {
                    assert(ids[j] == ids.drop_first()[j - 1]);
                }
            }
        }
    }
}

/// What `lists` holds for the player `pid`: the list at its first position, or nothing.
pub open spec fn list_for<T>(ids: Seq<PlayerId>, lists: Seq<Seq<T>>, pid: PlayerId) -> Seq<T> {
    let i = first_index(ids, pid);
    if i >= 0 {
        lists[i]
    } else {
        Seq::empty()
    }
}

/// The views of each player's list of submissions.
spec fn lists_of(entries: Seq<(PlayerId, Vec<Submission>)>) -> Seq<Seq<(PlayerId, Seq<char>, Seq<usize>, nat)>> {
    entries.map_values(|e: (PlayerId, Vec<Submission>)| views(e.1@))
}

/// The cells of a round in play.
#[derive(Debug, Clone, PartialEq, Eq)]
pub struct Round {
    board: BoardRoll,
    entries: Vec<(PlayerId, Vec<Submission>)>,
    remaining: Option<Duration>,
}

impl Round {
    /// The rolled board.
    pub closed spec fn board_view(&self) -> BoardRoll {
        self.board
    }

    /// The players, in order.
    pub closed spec fn ids(&self) -> Seq<PlayerId> {
        self.entries@.map_values(|e: (PlayerId, Vec<Submission>)| e.0)
    }

    /// Each player's accepted submissions, in the order of `ids`.
    pub closed spec fn lists(&self) -> Seq<Seq<(PlayerId, Seq<char>, Seq<usize>, nat)>> {
        lists_of(self.entries@)
    }

    /// The time left, for a timed round.
    pub closed spec fn time_left(&self) -> Option<Duration> {
        self.remaining
    }

    /// The rolled board.
    pub fn board(&self) -> (r: &BoardRoll)
        ensures
            *r == self.board_view(),
    {
        &self.board
    }

    /// The submissions that `player_id` has had accepted, oldest first; none for an unknown player.
    pub fn submissions(&self, player_id: PlayerId) -> (r: &[Submission])
        ensures
            views(r@) == list_for(self.ids(), self.lists(), player_id),
    {
        proof {
            lemma_first_index(self.ids(), player_id);
        }
        let mut i: usize = 0;
        while i < self.entries.len()
            invariant
                i <= self.entries.len(),
                forall|j: int| 0 <= j < i ==> self.ids()[j] != player_id,
            decreases self.entries.len() - i,
        {
            if self.entries[i].0 == player_id {
                proof {
                    assert(self.ids()[i as int] == player_id);
                    lemma_first_index(self.ids(), player_id);
                }
                return self.entries[i].1.as_slice();
            }
            i += 1;
        }
        proof {
            if first_index(self.ids(), player_id) >= 0 {
                assert(self.ids()[first_index(self.ids(), player_id)] == player_id);
            }
        }
        assert(views(Seq::<Submission>::empty()) =~= Seq::<(PlayerId, Seq<char>, Seq<usize>, nat)>::empty());
        &[]
    }

    /// The time left, for a timed round.
    pub fn remaining(&self) -> (r: Option<Duration>)
        ensures
            r == self.time_left(),
    {
        self.remaining
    }
}

/// One player's part of a finished round.
#[derive(Debug, PartialEq, Eq)]
pub struct PlayerRoundResult {
    player_id: PlayerId,
    scored: Vec<Submission>,
    canceled: Vec<Submission>,
    score: usize,
}

impl View for PlayerRoundResult {
    type V = ResultView;

    closed spec fn view(&self) -> ResultView {
        (self.player_id, views(self.scored@), views(self.canceled@), self.score as nat)
    }
}

fn copy_submissions(v: &[Submission]) -> (r: Vec<Submission>)
    ensures
        views(r@) == views(v@),
{
    let mut r: Vec<Submission> = Vec::new();
    let mut i: usize = 0;
    while i < v.len()
        invariant
            i <= v.len(),
            views(r@) == views(v@.take(i as int)),
        decreases v.len() - i,
    {
        let ghost before = r@;
        let d = v[i].duplicate();
        r.push(d);
        proof {
            assert(v@.take(i + 1) == v@.take(i as int).push(v@[i as int]));
            lemma_views_push(before, d);
            lemma_views_push(v@.take(i as int), v@[i as int]);
        }
        i += 1;
    }
    assert(v@.take(v.len() as int) == v@);
    r
}

impl PlayerRoundResult {
    /// The player.
    pub fn player_id(&self) -> (r: PlayerId)
        ensures
            r == self@.0,
    {
        self.player_id
    }

    /// The submissions that counted.
    pub fn scored(&self) -> (r: &[Submission])
        ensures
            views(r@) == self@.1,
    {
        self.scored.as_slice()
    }

    /// The submissions canceled because another player found the same word.
    pub fn canceled(&self) -> (r: &[Submission])
        ensures
            views(r@) == self@.2,
    {
        self.canceled.as_slice()
    }

    /// A player's points are the sum of the points of the scored submissions.
    #[verifier::type_invariant]
    spec fn score_is_sum(&self) -> bool {
        self.score as nat == sum_points(views(self.scored@))
    }

    /// The points of the scored submissions: their sum.
    pub fn score(&self) -> (r: usize)
        ensures
            r == self@.3,
            r == sum_points(self@.1),
    {
        proof {
            use_type_invariant(self);
        }
        self.score
    }

    fn duplicate(&self) -> (r: PlayerRoundResult)
        ensures
            r@ == self@,
    {
        proof {
            use_type_invariant(self);
        }
        PlayerRoundResult {
            player_id: self.player_id,
            scored: copy_submissions(self.scored.as_slice()),
            canceled: copy_submissions(self.canceled.as_slice()),
            score: self.score,
        }
    }
}

impl Clone for PlayerRoundResult {
    fn clone(&self) -> (r: Self)
        ensures
            r@ == self@,
    {
        self.duplicate()
    }
}

/// The results of a finished round: the board and each player's part.
#[derive(Debug, Clone, PartialEq, Eq)]
pub struct RoundResult {
    board: BoardRoll,
    players: Vec<PlayerRoundResult>,
}

/// The views of a list of player results.
pub open spec fn result_views(s: Seq<PlayerRoundResult>) -> Seq<ResultView> {
    s.map_values(|x: PlayerRoundResult| x@)
}

impl RoundResult {
    /// The board of the round.
    pub closed spec fn board_view(&self) -> BoardRoll {
        self.board
    }

    /// Each player's part, in the match's player order.
    pub closed spec fn parts(&self) -> Seq<ResultView> {
        result_views(self.players@)
    }

    /// The board of the round.
    pub fn board(&self) -> (r: &BoardRoll)
        ensures
            *r == self.board_view(),
    {
        &self.board
    }

    /// Each player's part.
    pub fn players(&self) -> (r: &[PlayerRoundResult])
        ensures
            result_views(r@) == self.parts(),
    {
        self.players.as_slice()
    }

    /// The part of `player_id`, if the player took part.
    pub fn player(&self, player_id: PlayerId) -> (r: Option<&PlayerRoundResult>)
        ensures
            match r {
                Some(p) => p@ == part_for(self.parts(), player_id).unwrap() && part_for(self.parts(), player_id) is Some,
                None => part_for(self.parts(), player_id) is None,
            },
    {
        let ghost ids = self.parts().map_values(|x: ResultView| x.0);
        proof {
            lemma_first_index(ids, player_id);
        }
        let mut i: usize = 0;
        while i < self.players.len()
            invariant
                ids == self.parts().map_values(|x: ResultView| x.0),
                i <= self.players.len(),
                forall|j: int| 0 <= j < i ==> ids[j] != player_id,
            decreases self.players.len() - i,
        {
            if self.players[i].player_id == player_id {
                proof {
                    assert(ids[i as int] == player_id);
                    lemma_first_index(ids, player_id);
                }
                return Some(&self.players[i]);
            }
            i += 1;
        }
        proof {
            if first_index(ids, player_id) >= 0 {
                assert(ids[first_index(ids, player_id)] == player_id);
            }
        }
        None
    }

    fn duplicate(&self) -> (r: RoundResult)
        ensures
            r.parts() == self.parts(),
            same_board(r.board_view(), self.board_view()),
    {
        let mut players: Vec<PlayerRoundResult> = Vec::new();
        let mut i: usize = 0;
        while i < self.players.len()
            invariant
                i <= self.players.len(),
                result_views(players@) == result_views(self.players@.take(i as int)),
            decreases self.players.len() - i,
        {
            let ghost before = players@;
            let d = self.players[i].duplicate();
            players.push(d);
            proof {
                assert(self.players@.take(i + 1) == self.players@.take(i as int).push(self.players@[i as int]));
                assert(result_views(before.push(d)) =~= result_views(before).push(d@));
                assert(result_views(self.players@.take(i as int).push(self.players@[i as int])) =~= result_views(
                    self.players@.take(i as int),
                ).push(self.players@[i as int]@));
            }
            i += 1;
        }
        assert(self.players@.take(self.players.len() as int) == self.players@);
        RoundResult { board: self.board.clone(), players }
    }
}

/// The part of `pid` among a round's parts: the first one with that player, if any.
pub open spec fn part_for(parts: Seq<ResultView>, pid: PlayerId) -> Option<ResultView> {
    let i = first_index(parts.map_values(|x: ResultView| x.0), pid);
    if i >= 0 {
        Some(parts[i])
    } else {
        None
    }
}

/// Why a match operation was refused.
#[derive(Debug, Clone, Copy, PartialEq, Eq)]
pub enum MatchError {
    /// A match needs a player.
    NoPlayers,
    /// The player's name is empty.
    EmptyPlayerName { player_id: PlayerId },
    /// Two players share an identifier.
    DuplicatePlayerId { player_id: PlayerId },
    /// No player of the match has this identifier.
    UnknownPlayer { player_id: PlayerId },
    /// The operation is not allowed in this phase.
    InvalidTransition { phase: MatchPhase, operation: &'static str },
}

/// The message that describes an error.
pub open spec fn match_error_message(e: MatchError) -> Seq<char> {
    match e {
        MatchError::NoPlayers => "a match must have at least one player"@,
        MatchError::EmptyPlayerName { player_id } => "player "@ + decimal(player_id.value() as nat)
            + " has an empty name"@,
        MatchError::DuplicatePlayerId { player_id } => "player id "@ + decimal(
            player_id.value() as nat,
        ) + " is duplicated"@,
        MatchError::UnknownPlayer { player_id } => "player "@ + decimal(player_id.value() as nat)
            + " is not in this match"@,
        MatchError::InvalidTransition { phase, operation } => "cannot "@ + operation@
            + " while match is "@ + phase_name(phase),
    }
}

impl MatchError {
    /// The message that describes this error.
    pub fn message(&self) -> (r: String)
        ensures
            r@ == match_error_message(*self),
    {
        match self {
            MatchError::NoPlayers => String::from_str("a match must have at least one player"),
            MatchError::EmptyPlayerName { player_id } => {
                let mut s = String::from_str("player ");
                push_decimal(&mut s, player_id.get() as usize);
                push_str(&mut s, " has an empty name");
                s
            },
            MatchError::DuplicatePlayerId { player_id } => {
                let mut s = String::from_str("player id ");
                push_decimal(&mut s, player_id.get() as usize);
                push_str(&mut s, " is duplicated");
                s
            },
            MatchError::UnknownPlayer { player_id } => {
                let mut s = String::from_str("player ");
                push_decimal(&mut s, player_id.get() as usize);
                push_str(&mut s, " is not in this match");
                s
            },
            MatchError::InvalidTransition { phase, operation } => {
                let mut s = String::from_str("cannot ");
                push_str(&mut s, operation);
                push_str(&mut s, " while match is ");
                push_phase_name(&mut s, *phase);
                s
            },
        }
    }
}

/// The identifiers of a list of players.
pub open spec fn ids_of(players: Seq<Player>) -> Seq<PlayerId> {
    players.map_values(|p: Player| p.id_view())
}

/// What is wrong with player `i`, looking at it and the players before it.
pub open spec fn player_step_error(players: Seq<Player>, i: int) -> Option<MatchError> {
    if players[i].name_view().len() == 0 {
        Some(MatchError::EmptyPlayerName { player_id: players[i].id_view() })
    } else if ids_of(players).take(i).contains(players[i].id_view()) {
        Some(MatchError::DuplicatePlayerId { player_id: players[i].id_view() })
    } else {
        None
    }
}

/// The first error among the first `k` players.
pub open spec fn first_player_error(players: Seq<Player>, k: nat) -> Option<MatchError>
    decreases k,
{
    if k == 0 {
        None
    } else {
        match first_player_error(players, (k - 1) as nat) {
            Some(e) => Some(e),
            None => player_step_error(players, k - 1),
        }
    }
}

/// The error that checking the players in order meets first, if any.
pub open spec fn players_error(players: Seq<Player>) -> Option<MatchError> {
    if players.len() == 0 {
        Some(MatchError::NoPlayers)
    } else {
        first_player_error(players, players.len())
    }
}

/// There is a player, no name is empty and no identifier repeats.
pub open spec fn players_ok(players: Seq<Player>) -> bool {
    &&& players.len() > 0
    &&& forall|i: int| 0 <= i < players.len() ==> (#[trigger] players[i]).name_view().len() > 0
    &&& ids_of(players).no_duplicates()
}

proof fn lemma_first_player_error_none(players: Seq<Player>, k: nat)
    requires
        k <= players.len(),
    ensures
        first_player_error(players, k) is None <==> forall|i: int|
            0 <= i < k ==> (#[trigger] player_step_error(players, i)) is None,
    decreases k,
{
    if k > 0 {
        lemma_first_player_error_none(players, (k - 1) as nat);
    }
}

proof fn lemma_first_player_error_stable(players: Seq<Player>, k: nat, j: nat)
    requires
        k <= j,
        first_player_error(players, k) is Some,
    ensures
        first_player_error(players, j) == first_player_error(players, k),
    decreases j - k,
{
    if j > k {
        lemma_first_player_error_stable(players, k, (j - 1) as nat);
    }
}

/// Checking the players finds no error exactly when they can play a match together.
pub proof fn lemma_players_error_iff_ok(players: Seq<Player>)
    ensures
        players_error(players) is None <==> players_ok(players),
{
    let ids = ids_of(players);
    if players.len() > 0 {
        lemma_first_player_error_none(players, players.len());
        if players_error(players) is None {
            assert forall|i: int| 0 <= i < players.len() implies (#[trigger] players[i]).name_view().len() > 0 by {
                assert(player_step_error(players, i) is None);
            }
            assert forall|i: int, j: int| 0 <= i < ids.len() && 0 <= j < ids.len() && i != j
                implies ids[i] != ids[j] by {
                let (a, b) = if i < j { (i, j) } else { (j, i) };
                assert(player_step_error(players, b) is None);
                if ids[a] == ids[b] {
                    assert(ids.take(b)[a] == ids[a]);
                    assert(ids.take(b).contains(ids[b]));
                }
            }
        }
        if players_ok(players) {
            assert forall|i: int| 0 <= i < players.len() implies (#[trigger] player_step_error(players, i)) is None by {
                if ids.take(i).contains(ids[i]) {
                    let w = choose|w: int| 0 <= w < ids.take(i).len() && ids.take(i)[w] == ids[i];
                    assert(ids[w] == ids[i]);
                }
            }
        }
    }
}

/// An accepted submission of player `pid` is a real word on the board: its path is valid,
/// it spells the word, the word is long enough and its points are those of the table.
pub open spec fn submission_fits(rules: GameRules, board: BoardRoll, pid: PlayerId, s: (PlayerId, Seq<char>, Seq<usize>, nat)) -> bool {
    &&& s.0 == pid
    &&& valid_path(board.board_grid().side(), s.2)
    &&& spell(board.board_grid().cell_seq(), s.2) == s.1
    &&& s.1.len() >= rules.min_letters()
    &&& s.3 == score_for(rules.table().band_seq(), s.1.len())
}

/// A round in play fits the match: one list per player in the match's order, every
/// submission fits, no player has a word twice, and the round is timed exactly when the
/// rules say so, with time left above zero and at most the round's length.
pub open spec fn round_fits(rules: GameRules, ids: Seq<PlayerId>, r: Round) -> bool {
    &&& r.ids() == ids
    &&& r.lists().len() == ids.len()
    &&& forall|i: int, k: int|
        0 <= i < r.lists().len() && 0 <= k < r.lists()[i].len() ==> submission_fits(
            rules,
            r.board_view(),
            ids[i],
            #[trigger] r.lists()[i][k],
        )
    &&& forall|i: int, k1: int, k2: int|
        0 <= i < r.lists().len() && 0 <= k1 < k2 < r.lists()[i].len() ==> (#[trigger] r.lists()[i][k1]).1
            != (#[trigger] r.lists()[i][k2]).1
    &&& match rules.mode() {
        PlayMode::TimedRounds { duration } => r.time_left() matches Some(t) && 0 < duration_nanos(t)
            <= duration_nanos(duration),
        PlayMode::Endless => r.time_left() is None,
    }
}

/// The whole score of `pid` over finished rounds: the points of its part in each.
pub open spec fn total_for(results: Seq<RoundResult>, pid: PlayerId) -> nat
    decreases results.len(),
{
    if results.len() == 0 {
        0
    } else {
        total_for(results.drop_last(), pid) + match part_for(results.last().parts(), pid) {
            Some(p) => p.3,
            None => 0,
        }
    }
}

/// Where a match stands, with the round in play while rolling or playing.
#[derive(Debug)]
enum Stage {
    Ready,
    Rolling(Round),
    Playing(Round),
    Review,
    Complete,
}

/// The phase of a stage.
spec fn stage_phase(st: Stage) -> MatchPhase {
    match st {
        Stage::Ready => MatchPhase::Ready,
        Stage::Rolling(_) => MatchPhase::Rolling,
        Stage::Playing(_) => MatchPhase::Playing,
        Stage::Review => MatchPhase::Review,
        Stage::Complete => MatchPhase::Complete,
    }
}

/// The round of a stage, if it has one.
spec fn stage_round(st: Stage) -> Option<Round> {
    match st {
        Stage::Rolling(r) => Some(r),
        Stage::Playing(r) => Some(r),
        _ => None,
    }
}

/// A match: its rules and players, its phase with the round in play, and the finished rounds.
#[derive(Debug)]
pub struct Match {
    rules: GameRules,
    players: Vec<Player>,
    stage: Stage,
    completed_rounds: Vec<RoundResult>,
}

impl Match {
    /// The rules.
    pub closed spec fn rules_view(&self) -> GameRules {
        self.rules
    }

    /// The players, in order.
    pub closed spec fn player_seq(&self) -> Seq<Player> {
        self.players@
    }

    /// The phase.
    pub closed spec fn phase_view(&self) -> MatchPhase {
        stage_phase(self.stage)
    }

    /// The round in play, if any.
    pub closed spec fn round_view(&self) -> Option<Round> {
        stage_round(self.stage)
    }

    /// The finished rounds, oldest first.
    pub closed spec fn results_view(&self) -> Seq<RoundResult> {
        self.completed_rounds@
    }

    /// The state of a match is consistent.
    #[verifier::type_invariant]
    pub closed spec fn match_ok(&self) -> bool {
        &&& players_ok(self.players@)
        &&& (stage_round(self.stage) matches Some(r) ==> round_fits(self.rules, ids_of(self.players@), r))
        &&& forall|k: int|
            0 <= k < self.completed_rounds@.len() ==> parts_distinct(#[trigger] self.completed_rounds@[k].parts())
    }

    /// Starts a match of the given players under the rules, refusing no players, an empty name
    /// or a repeated identifier (the first such player is named).
    pub fn new(rules: GameRules, players: Vec<Player>) -> (r: Result<Match, MatchError>)
        ensures
            match r {
                Ok(m) => players_error(players@) is None && m.rules_view() == rules && m.player_seq()
                    == players@ && m.phase_view() == MatchPhase::Ready && m.round_view() is None
                    && m.results_view().len() == 0,
                Err(e) => players_error(players@) == Some(e),
            },
    {
        proof {
            lemma_players_error_iff_ok(players@);
        }
        if players.len() == 0 {
            return Err(MatchError::NoPlayers);
        }
        let mut i: usize = 0;
        while i < players.len()
            invariant
                i <= players.len(),
                first_player_error(players@, i as nat) is None,
            decreases players.len() - i,
        {
            let id = players[i].id;
            if players[i].name.as_str().is_empty() {
                proof {
                    assert(players@[i as int].name_view().len() == 0);
                    lemma_first_player_error_stable(players@, (i + 1) as nat, players.len() as nat);
                }
                return Err(MatchError::EmptyPlayerName { player_id: id });
            }
            let mut j: usize = 0;
            while j < i
                invariant
                    i < players.len(),
                    j <= i,
                    id == players@[i as int].id_view(),
                    players@[i as int].name_view().len() > 0,
                    first_player_error(players@, i as nat) is None,
                    forall|k: int| 0 <= k < j ==> ids_of(players@)[k] != id,
                decreases i - j,
            {
                if players[j].id == id {
                    proof {
                        assert(ids_of(players@).take(i as int)[j as int] == id);
                        lemma_first_player_error_stable(players@, (i + 1) as nat, players.len() as nat);
                    }
                    return Err(MatchError::DuplicatePlayerId { player_id: id });
                }
                j += 1;
            }
            proof {
                assert(players@[i as int].name_view().len() > 0);
                if ids_of(players@).take(i as int).contains(id) {
                    let w = choose|w: int| 0 <= w < i && ids_of(players@).take(i as int)[w] == id;
                    assert(ids_of(players@)[w] == id);
                }
            }
            i += 1;
        }
        Ok(
            Match {
                rules,
                players,
                stage: Stage::Ready,
                completed_rounds: Vec::new(),
            },
        )
    }

    /// A match of one player, with identifier 0 and the trimmed name.
    pub fn single_player(rules: GameRules, name: &str) -> (r: Result<Match, MatchError>)
        ensures
            match r {
                Ok(m) => trim(name@).len() > 0 && m.rules_view() == rules && m.player_seq().len() == 1
                    && m.player_seq()[0].id_view().value() == 0 && m.player_seq()[0].name_view()
                    == trim(name@) && m.phase_view() == MatchPhase::Ready && m.round_view() is None
                    && m.results_view().len() == 0,
                Err(e) => trim(name@).len() == 0 && e == (MatchError::EmptyPlayerName {
                    player_id: PlayerId::new_spec(0),
                }),
            },
    {
        let player = Player::new(PlayerId::new(0), name);
        let mut players: Vec<Player> = Vec::new();
        players.push(player);
        proof {
            assert(ids_of(players@).take(0) =~= Seq::<PlayerId>::empty());
            reveal_with_fuel(first_player_error, 2);
        }
        Self::new(rules, players)
    }

    /// The rules.
    pub fn rules(&self) -> (r: &GameRules)
        ensures
            *r == self.rules_view(),
    {
        &self.rules
    }

    /// The players, in order.
    pub fn players(&self) -> (r: &[Player])
        ensures
            r@ == self.player_seq(),
            players_ok(r@),
    {
        proof {
            use_type_invariant(self);
        }
        self.players.as_slice()
    }

    /// The phase.
    pub fn phase(&self) -> (r: MatchPhase)
        ensures
            r == self.phase_view(),
    {
        match &self.stage {
            Stage::Ready => MatchPhase::Ready,
            Stage::Rolling(_) => MatchPhase::Rolling,
            Stage::Playing(_) => MatchPhase::Playing,
            Stage::Review => MatchPhase::Review,
            Stage::Complete => MatchPhase::Complete,
        }
    }

    /// The round in play, if any; there is one exactly while rolling or playing, and every
    /// accepted submission in it is a real word on its board.
    pub fn current_round(&self) -> (r: Option<&Round>)
        ensures
            r matches Some(x) ==> self.round_view() == Some(*x) && round_fits(self.rules_view(), ids_of(self.player_seq()), *x),
            r is None ==> self.round_view() is None,
            r is Some <==> (self.phase_view() == MatchPhase::Rolling || self.phase_view() == MatchPhase::Playing),
    {
        proof {
            use_type_invariant(self);
        }
        match &self.stage {
            Stage::Rolling(round) => Some(round),
            Stage::Playing(round) => Some(round),
            _ => None,
        }
    }

    /// The finished rounds, oldest first.
    pub fn completed_rounds(&self) -> (r: &[RoundResult])
        ensures
            r@ == self.results_view(),
            forall|k: int| 0 <= k < r@.len() ==> parts_distinct(#[trigger] r@[k].parts()),
    {
        proof {
            use_type_invariant(self);
        }
        self.completed_rounds.as_slice()
    }

    fn invalid_transition(&self, operation: &'static str) -> (e: MatchError)
        ensures
            e == (MatchError::InvalidTransition { phase: self.phase_view(), operation }),
    {
        MatchError::InvalidTransition { phase: self.phase(), operation }
    }

    /// Lets submissions in, once the board has been rolled; refused outside the rolling phase.
    pub fn begin_round(&mut self) -> (r: Result<(), MatchError>)
        ensures
            old(self).phase_view() == MatchPhase::Rolling ==> r is Ok && final(self).phase_view()
                == MatchPhase::Playing && final(self).rules_view() == old(self).rules_view()
                && final(self).player_seq() == old(self).player_seq() && final(self).round_view()
                == old(self).round_view() && final(self).results_view() == old(self).results_view(),
            old(self).phase_view() != MatchPhase::Rolling ==> r == Err::<(), MatchError>(
                MatchError::InvalidTransition {
                    phase: old(self).phase_view(),
                    operation: "begin accepting submissions",
                },
            ) && *final(self) == *old(self),
            legal_step(*old(self), *final(self)),
    {
        proof {
            use_type_invariant(&*self);
        }
        if self.phase() != MatchPhase::Rolling {
            return Err(self.invalid_transition("begin accepting submissions"));
        }
        let mut stage = Stage::Ready;
        std::mem::swap(&mut stage, &mut self.stage);
        match stage {
            Stage::Rolling(round) => {
                self.stage = Stage::Playing(round);
            },
            _ => {
                proof {
                    assert(false);
                }
            },
        }
        Ok(())
    }

    /// Ends the match after a round's review; refused in any other phase.
    pub fn finish_match(&mut self) -> (r: Result<(), MatchError>)
        ensures
            old(self).phase_view() == MatchPhase::Review ==> r is Ok && final(self).phase_view()
                == MatchPhase::Complete && final(self).rules_view() == old(self).rules_view()
                && final(self).player_seq() == old(self).player_seq() && final(self).round_view()
                == old(self).round_view() && final(self).results_view() == old(self).results_view(),
            old(self).phase_view() != MatchPhase::Review ==> r == Err::<(), MatchError>(
                MatchError::InvalidTransition {
                    phase: old(self).phase_view(),
                    operation: "finish the match",
                },
            ) && *final(self) == *old(self),
            legal_step(*old(self), *final(self)),
    {
        proof {
            use_type_invariant(&*self);
        }
        if self.phase() != MatchPhase::Review {
            return Err(self.invalid_transition("finish the match"));
        }
        self.stage = Stage::Complete;
        Ok(())
    }
}

/// A round just rolled for the match: one empty list per player, the round's full time, and
/// a board rolled from the rules' cubes.
pub open spec fn fresh_round(rules: GameRules, ids: Seq<PlayerId>, r: Round) -> bool {
    &&& r.ids() == ids
    &&& r.lists().len() == ids.len()
    &&& forall|i: int| 0 <= i < r.lists().len() ==> (#[trigger] r.lists()[i]).len() == 0
    &&& match rules.mode() {
        PlayMode::TimedRounds { duration } => r.time_left() == Some(duration),
        PlayMode::Endless => r.time_left() is None,
    }
    &&& r.board_view().board_grid().side() == rules.side()
    &&& r.board_view().board_grid().cell_seq() == r.board_view().rolled().map_values(
        |c: RolledCube| normalize(c.label_view()),
    )
    &&& exists|order: Seq<usize>, picks: Seq<usize>|
        choices_fit(rules.cubes().cube_seq(), order, picks) && #[trigger] roll_matches(
            r.board_view().rolled(),
            rules.cubes().cube_seq(),
            order,
            picks,
        )
    &&& exists|draws: Seq<usize>, picks: Seq<usize>|
        draws.len() + 1 == rules.cubes().cube_seq().len() && draws_fit(rules.cubes().cube_seq().len(), draws)
            && choices_fit(rules.cubes().cube_seq(), fisher_yates(rules.cubes().cube_seq().len(), draws), picks)
            && #[trigger] roll_matches(
            r.board_view().rolled(),
            rules.cubes().cube_seq(),
            fisher_yates(rules.cubes().cube_seq().len(), draws),
            picks,
        )
}

impl Match {
    /// Rolls a new board and starts a round, from the ready or review phase; refused in any
    /// other phase. The new round has an empty list for each player and, when rounds are
    /// timed, the whole round time left.
    pub fn start_round(&mut self, rng: &mut SmallRng) -> (r: Result<&BoardRoll, MatchError>)
        ensures
            (old(self).phase_view() == MatchPhase::Ready || old(self).phase_view() == MatchPhase::Review)
                ==> (r matches Ok(b) && final(self).phase_view() == MatchPhase::Rolling
                && final(self).round_view() is Some && final(self).round_view().unwrap().board_view() == *b
                && fresh_round(old(self).rules_view(), ids_of(old(self).player_seq()), final(self).round_view().unwrap())
                && final(self).rules_view() == old(self).rules_view()
                && final(self).player_seq() == old(self).player_seq()
                && final(self).results_view() == old(self).results_view()),
            !(old(self).phase_view() == MatchPhase::Ready || old(self).phase_view() == MatchPhase::Review)
                ==> r is Err && r.unwrap_err() == (MatchError::InvalidTransition {
                    phase: old(self).phase_view(),
                    operation: "start a round",
                }) && *final(self) == *old(self),
            legal_step(*old(self), *final(self)),
    {
        proof {
            use_type_invariant(&*self);
        }
        let phase = self.phase();
        if !(phase == MatchPhase::Ready || phase == MatchPhase::Review) {
            return Err(self.invalid_transition("start a round"));
        }
        let board = BoardRoll::roll(&self.rules, rng);
        let mut entries: Vec<(PlayerId, Vec<Submission>)> = Vec::new();
        let mut i: usize = 0;
        while i < self.players.len()
            invariant
                i <= self.players.len(),
                entries.len() == i,
                forall|k: int| 0 <= k < i ==> (#[trigger] entries@[k]).0 == self.players@[k].id_view()
                    && entries@[k].1@.len() == 0,
            decreases self.players.len() - i,
        {
            entries.push((self.players[i].id, Vec::new()));
            i += 1;
        }
        let remaining = match self.rules.play_mode() {
            PlayMode::TimedRounds { duration } => Some(duration),
            PlayMode::Endless => None,
        };
        let round = Round { board, entries, remaining };
        proof {
            assert(round.ids() =~= ids_of(self.players@));
            assert forall|k: int| 0 <= k < round.lists().len() implies (#[trigger] round.lists()[k]).len() == 0 by {
                assert(round.lists()[k] == views(round.entries@[k].1@));
            }
            use_type_invariant(&self.rules);
            self.rules.lemma_rules();
            assert(round_fits(self.rules, ids_of(self.players@), round));
        }
        self.stage = Stage::Rolling(round);
        match &self.stage {
            Stage::Rolling(round) => Ok(&round.board),
            _ => vstd::pervasive::unreached(),
        }
    }
}

/// Why a submission was refused.
#[derive(Debug, Clone, Copy, PartialEq, Eq, Structural)]
pub enum SubmissionError {
    /// Words are only taken while a round is played.
    RoundInactive { phase: MatchPhase },
    /// No player of the match has this identifier.
    UnknownPlayer { player_id: PlayerId },
    /// The cells do not form a path on the board.
    InvalidPath(WordPathError),
    /// The word has fewer letters than the rules ask for.
    TooShort { actual: usize, minimum: usize },
    /// No path on the board spells the word.
    NotOnBoard,
    /// The word is not in the dictionary.
    NotInDictionary,
    /// The player already found this word in this round.
    Duplicate,
}

/// The message that describes an error.
pub open spec fn submission_error_message(e: SubmissionError) -> Seq<char> {
    match e {
        SubmissionError::RoundInactive { phase } => "words cannot be submitted while match is "@
            + phase_name(phase),
        SubmissionError::UnknownPlayer { player_id } => "player "@ + decimal(
            player_id.value() as nat,
        ) + " is not in this match"@,
        SubmissionError::InvalidPath(error) => path_error_message(error),
        SubmissionError::TooShort { actual, minimum } => decimal(actual as nat) + " letters; minimum is "@
            + decimal(minimum as nat),
        SubmissionError::NotOnBoard => "that word cannot be traced on this board"@,
        SubmissionError::NotInDictionary => "that word is not in the dictionary"@,
        SubmissionError::Duplicate => "you already found that word"@,
    }
}

impl SubmissionError {
    /// The message that describes this error.
    pub fn message(&self) -> (r: String)
        ensures
            r@ == submission_error_message(*self),
    {
        match self {
            SubmissionError::RoundInactive { phase } => {
                let mut s = String::from_str("words cannot be submitted while match is ");
                push_phase_name(&mut s, *phase);
                s
            },
            SubmissionError::UnknownPlayer { player_id } => {
                let mut s = String::from_str("player ");
                push_decimal(&mut s, player_id.get() as usize);
                push_str(&mut s, " is not in this match");
                s
            },
            SubmissionError::InvalidPath(error) => error.message(),
            SubmissionError::TooShort { actual, minimum } => {
                let mut s = String::new();
                push_decimal(&mut s, *actual);
                push_str(&mut s, " letters; minimum is ");
                push_decimal(&mut s, *minimum);
                s
            },
            SubmissionError::NotOnBoard => String::from_str("that word cannot be traced on this board"),
            SubmissionError::NotInDictionary => String::from_str("that word is not in the dictionary"),
            SubmissionError::Duplicate => String::from_str("you already found that word"),
        }
    }
}

/// What submitting `path` for `pid` gives in match `m`, with a dictionary of `words`: the
/// accepted submission, or the first check that fails.
pub open spec fn submit_outcome(m: Match, pid: PlayerId, path: Seq<usize>, words: Set<Seq<char>>) -> Result<(PlayerId, Seq<char>, Seq<usize>, nat), SubmissionError> {
    if m.phase_view() != MatchPhase::Playing {
        Err(SubmissionError::RoundInactive { phase: m.phase_view() })
    } else if !ids_of(m.player_seq()).contains(pid) {
        Err(SubmissionError::UnknownPlayer { player_id: pid })
    } else {
        let round = m.round_view().unwrap();
        let g = round.board_view().board_grid();
        match path_error(g.side(), path) {
            Some(e) => Err(SubmissionError::InvalidPath(e)),
            None => {
                let w = spell(g.cell_seq(), path);
                if w.len() < m.rules_view().min_letters() {
                    Err(
                        SubmissionError::TooShort {
                            actual: w.len() as usize,
                            minimum: m.rules_view().min_letters() as usize,
                        },
                    )
                } else if !words.contains(ascii_lower(w)) {
                    Err(SubmissionError::NotInDictionary)
                } else if has_word(list_for(round.ids(), round.lists(), pid), w) {
                    Err(SubmissionError::Duplicate)
                } else {
                    Ok((pid, w, path, score_for(m.rules_view().table().band_seq(), w.len())))
                }
            },
        }
    }
}

/// `after` is `before` with the outcome `r` of a submission of `path` by `pid` applied: on
/// success the submission is added to the end of the player's list and nothing else changes;
/// on failure nothing changes.
pub open spec fn submitted(before: Match, after: Match, pid: PlayerId, path: Seq<usize>, words: Set<Seq<char>>, r: Result<(PlayerId, Seq<char>, Seq<usize>, nat), SubmissionError>) -> bool {
    &&& r == submit_outcome(before, pid, path, words)
    &&& match r {
        Ok(s) => {
            &&& after.rules_view() == before.rules_view()
            &&& after.player_seq() == before.player_seq()
            &&& after.results_view() == before.results_view()
            &&& after.phase_view() == before.phase_view()
            &&& after.round_view() is Some
            &&& before.round_view() is Some
            &&& {
                let na = after.round_view().unwrap();
                let ob = before.round_view().unwrap();
                let i = first_index(ob.ids(), pid);
                &&& na.board_view() == ob.board_view()
                &&& na.ids() == ob.ids()
                &&& na.time_left() == ob.time_left()
                &&& na.lists() == ob.lists().update(i, ob.lists()[i].push(s))
            }
        },
        Err(_) => after == before,
    }
}

/// The view of a submission result.
pub open spec fn outcome_view(r: Result<Submission, SubmissionError>) -> Result<(PlayerId, Seq<char>, Seq<usize>, nat), SubmissionError> {
    match r {
        Ok(s) => Ok(s@),
        Err(e) => Err(e),
    }
}

impl Match {
    fn player_index(&self, player_id: PlayerId) -> (r: Option<usize>)
        requires
            self.match_ok(),
        ensures
            match r {
                Some(i) => i < self.players@.len() && i == first_index(ids_of(self.players@), player_id),
                None => !ids_of(self.players@).contains(player_id),
            },
    {
        proof {
            lemma_first_index(ids_of(self.players@), player_id);
        }
        let mut i: usize = 0;
        while i < self.players.len()
            invariant
                i <= self.players.len(),
                forall|j: int| 0 <= j < i ==> ids_of(self.players@)[j] != player_id,
            decreases self.players.len() - i,
        {
            if self.players[i].id == player_id {
                proof {
                    assert(ids_of(self.players@)[i as int] == player_id);
                    lemma_first_index(ids_of(self.players@), player_id);
                }
                return Some(i);
            }
            i += 1;
        }
        None
    }

    /// Submits the word that `path` spells for `player_id`. Refused, in this order: outside
    /// the playing phase, for an unknown player, for a path that is not a path on the board,
    /// for a word shorter than the rules allow, for a word not in `dictionary`, and for a word
    /// the player already found this round. An accepted word is added to the player's list
    /// with the points that the rules' table gives it.
    pub fn submit_path(&mut self, player_id: PlayerId, path: Vec<usize>, dictionary: &Dictionary) -> (r: Result<Submission, SubmissionError>)
        ensures
            submitted(*old(self), *final(self), player_id, path@, dictionary.words(), outcome_view(r)),
            legal_step(*old(self), *final(self)),
            r matches Ok(sub) ==> old(self).phase_view() == MatchPhase::Playing && dictionary.words().contains(
                ascii_lower(sub@.1),
            ) && sub@.1 == spell(old(self).round_view().unwrap().board_view().board_grid().cell_seq(), path@)
                && sub@.0 == player_id && sub@.2 == path@,
            old(self).phase_view() == MatchPhase::Playing && ids_of(old(self).player_seq()).contains(player_id)
                && path_error(old(self).round_view().unwrap().board_view().board_grid().side(), path@) is None
                && spell(old(self).round_view().unwrap().board_view().board_grid().cell_seq(), path@).len()
                >= old(self).rules_view().min_letters() && !dictionary.words().contains(
                ascii_lower(spell(old(self).round_view().unwrap().board_view().board_grid().cell_seq(), path@)),
            ) ==> r is Err && r.unwrap_err() == SubmissionError::NotInDictionary && *final(self) == *old(self),
    {
        proof {
            use_type_invariant(&*self);
        }
        let phase = self.phase();
        if phase != MatchPhase::Playing {
            return Err(SubmissionError::RoundInactive { phase });
        }
        let index = match self.player_index(player_id) {
            Some(i) => i,
            None => {
                return Err(SubmissionError::UnknownPlayer { player_id });
            },
        };
        let round = match &self.stage {
            Stage::Playing(round) => round,
            _ => vstd::pervasive::unreached(),
        };
        let ghost ids = ids_of(self.players@);
        proof {
            lemma_first_index(ids, player_id);
            assert(ids[index as int] == player_id);
            assert(ids.contains(player_id));
            assert(self.round_view() == Some(*round));
            assert(round.ids() == ids);
            assert(first_index(round.ids(), player_id) == index);
        }
        let word = match round.board.grid().word_for_path(path.as_slice()) {
            Ok(w) => w,
            Err(e) => {
                return Err(SubmissionError::InvalidPath(e));
            },
        };
        let length = chars_of(word.as_str()).len();
        let minimum = self.rules.minimum_word_length();
        if length < minimum {
            return Err(SubmissionError::TooShort { actual: length, minimum });
        }
        if !dictionary.is_word_valid(word.as_str()) {
            return Err(SubmissionError::NotInDictionary);
        }
        let list = &round.entries[index].1;
        proof {
            assert(round.ids()[index as int] == ids[index as int]);
            assert(round.lists()[index as int] == views(list@));
            assert(list_for(round.ids(), round.lists(), player_id) == views(list@));
        }
        let mut k: usize = 0;
        #[verifier::loop_isolation(false)]
        while k < list.len()
            invariant
                k <= list.len(),
                list_for(round.ids(), round.lists(), player_id) == views(list@),
                forall|j: int| 0 <= j < k ==> (#[trigger] list@[j])@.1 != word@,
            decreases list.len() - k,
        {
            if list[k].word == word {
                proof {
                    assert(views(list@)[k as int].1 == word@);
                }
                return Err(SubmissionError::Duplicate);
            }
            k += 1;
        }
        proof {
            if has_word(views(list@), word@) {
                let j = choose|j: int| 0 <= j < views(list@).len() && (#[trigger] views(list@)[j]).1 == word@;
                assert(list@[j]@.1 == word@);
            }
        }
        let base_score = self.rules.scoring().score_word(word.as_str());
        let submission = Submission { player_id, word, path, base_score };
        let result = submission.duplicate();
        let ghost before = *self;
        let mut stage = Stage::Ready;
        std::mem::swap(&mut stage, &mut self.stage);
        match stage {
            Stage::Playing(mut round) => {
                let ghost old_round = round;
                let ghost old_entries = round.entries@;
                let ghost sv = submission@;
                let ghost old_list = old_entries[index as int].1@;
                round.entries[index].1.push(submission);
                proof {
                    let e = round.entries@;
                    assert(e.len() == old_entries.len());
                    assert(e[index as int].0 == old_entries[index as int].0);
                    assert(e[index as int].1@ == old_list.push(submission));
                    lemma_views_push(old_list, submission);
                    assert forall|j: int| 0 <= j < e.len() && j != index implies e[j] == old_entries[j] by {}
                    assert(round.ids() =~= old_round.ids());
                    assert(round.lists() =~= old_round.lists().update(index as int, old_round.lists()[index as int].push(sv)));
                    assert(round.board == old_round.board);
                    assert(round.remaining == old_round.remaining);
                    assert(round_fits(self.rules, ids, round)) by {
                        let nl = round.lists();
                        let ol = old_round.lists();
                        assert forall|i: int, q: int| 0 <= i < nl.len() && 0 <= q < nl[i].len() implies submission_fits(
                            self.rules, round.board_view(), ids[i], #[trigger] nl[i][q]) by {
                            if i == index && q == ol[i].len() {
                                assert(nl[i][q] == sv);
                                assert(ids[i] == player_id);
                                assert(sv.1 == word@);
                            } else {
                                assert(nl[i][q] == ol[i][q]);
                            }
                        }
                        assert forall|i: int, k1: int, k2: int|
                            0 <= i < nl.len() && 0 <= k1 < k2 < nl[i].len() implies (#[trigger] nl[i][k1]).1 != (#[trigger] nl[i][k2]).1 by {
                            if i == index && k2 == ol[i].len() {
                                assert(nl[i][k1] == ol[i][k1]);
                                assert(ol[i][k1] == views(old_list)[k1]);
                            } else {
                                assert(nl[i][k1] == ol[i][k1]);
                                assert(nl[i][k2] == ol[i][k2]);
                            }
                        }
                    }
                }
                self.stage = Stage::Playing(round);
            },
            _ => vstd::pervasive::unreached(),
        }
        Ok(result)
    }
}

/// A submission is accepted only for a word of the dictionary: the accepted word is the one
/// the path spells, and its ASCII lower case is in `words`; a path that spells a long enough
/// word whose lower case is not in `words` (even one that only starts a word of the list) is
/// refused as not in the dictionary and changes nothing.
pub proof fn lemma_accepted_word_is_in_dictionary(before: Match, after: Match, pid: PlayerId, path: Seq<usize>, words: Set<Seq<char>>, r: Result<SubmissionView, SubmissionError>)
    requires
        submitted(before, after, pid, path, words, r),
    ensures
        r matches Ok(s) ==> words.contains(ascii_lower(s.1)) && s.1 == spell(
            before.round_view().unwrap().board_view().board_grid().cell_seq(),
            path,
        ),
        before.phase_view() == MatchPhase::Playing && ids_of(before.player_seq()).contains(pid) && path_error(
            before.round_view().unwrap().board_view().board_grid().side(),
            path,
        ) is None && spell(before.round_view().unwrap().board_view().board_grid().cell_seq(), path).len()
            >= before.rules_view().min_letters() && !words.contains(
            ascii_lower(spell(before.round_view().unwrap().board_view().board_grid().cell_seq(), path)),
        ) ==> r == Err::<SubmissionView, SubmissionError>(SubmissionError::NotInDictionary) && after == before,
{
}

/// Some path on the board of the round in play spells `w`.
pub open spec fn traceable(m: Match, w: Seq<char>) -> bool {
    let g = m.round_view().unwrap().board_view().board_grid();
    exists|p: Seq<usize>| valid_path(g.side(), p) && #[trigger] spell(g.cell_seq(), p) == w
}

/// `after` and `r` are what submitting the text `w` for `pid` gives in `before`, with a
/// dictionary of `words`: refused outside the playing phase, for an unknown player, and when
/// no path on the board spells `normalize(w)` (nothing changes then); otherwise the result
/// of submitting the least path that spells it, as `submit_path` submits a path.
pub open spec fn text_submitted(before: Match, after: Match, pid: PlayerId, w: Seq<char>, words: Set<Seq<char>>, r: Result<(PlayerId, Seq<char>, Seq<usize>, nat), SubmissionError>) -> bool {
    if before.phase_view() != MatchPhase::Playing {
        r == Err::<(PlayerId, Seq<char>, Seq<usize>, nat), SubmissionError>(
            SubmissionError::RoundInactive { phase: before.phase_view() },
        ) && after == before
    } else if !ids_of(before.player_seq()).contains(pid) {
        r == Err::<(PlayerId, Seq<char>, Seq<usize>, nat), SubmissionError>(
            SubmissionError::UnknownPlayer { player_id: pid },
        ) && after == before
    } else if !traceable(before, normalize(w)) {
        r == Err::<(PlayerId, Seq<char>, Seq<usize>, nat), SubmissionError>(SubmissionError::NotOnBoard)
            && after == before
    } else {
        submitted(before, after, pid, text_path(before, normalize(w)), words, r)
    }
}

/// The path that a text submission of `w` takes on the board of the round in play: the least
/// path, in lexicographic order of cell indices, that spells `w` (there is at most one, by
/// `lemma_least_path_unique`).
pub open spec fn text_path(m: Match, w: Seq<char>) -> Seq<usize> {
    choose|p: Seq<usize>| least_path(m.round_view().unwrap().board_view().board_grid(), w, p)
}

impl Match {
    /// Submits `word`, trimmed and in ASCII lower case, for `player_id`, along the least path
    /// that spells it on the board. Refused outside the playing phase, for an unknown player,
    /// and when no path spells the word; otherwise that path is submitted as `submit_path`
    /// submits it.
    pub fn submit_text(&mut self, player_id: PlayerId, word: &str, dictionary: &Dictionary) -> (r: Result<Submission, SubmissionError>)
        ensures
            text_submitted(*old(self), *final(self), player_id, word@, dictionary.words(), outcome_view(r)),
            legal_step(*old(self), *final(self)),
            r matches Ok(sub) ==> dictionary.words().contains(ascii_lower(sub@.1)) && sub@.1 == normalize(word@),
    {
        proof {
            use_type_invariant(&*self);
        }
        let phase = self.phase();
        if phase != MatchPhase::Playing {
            return Err(SubmissionError::RoundInactive { phase });
        }
        match self.player_index(player_id) {
            None => {
                return Err(SubmissionError::UnknownPlayer { player_id });
            },
            Some(index) => {
                proof {
                    lemma_first_index(ids_of(self.players@), player_id);
                    assert(ids_of(self.players@)[index as int] == player_id);
                }
            },
        }
        let found = match &self.stage {
            Stage::Playing(round) => round.board.grid().find_path_for_word(word),
            _ => vstd::pervasive::unreached(),
        };
        match found {
            None => Err(SubmissionError::NotOnBoard),
            Some(path) => {
                let ghost p = path@;
                proof {
                    let g = old(self).round_view().unwrap().board_view().board_grid();
                    let w = normalize(word@);
                    assert(least_path(g, w, p));
                    assert(least_path(g, w, text_path(*old(self), w)));
                    lemma_least_path_unique(g, w, p, text_path(*old(self), w));
                }
                let r = self.submit_path(player_id, path, dictionary);
                proof {
                    assert(submitted(*old(self), *self, player_id, p, dictionary.words(), outcome_view(r)));
                }
                r
            },
        }
    }
}


/// The view of one submission: who, the word, the path and the points.
pub type SubmissionView = (PlayerId, Seq<char>, Seq<usize>, nat);

/// How many submissions of a list have the word `w`.
pub open spec fn count_in(l: Seq<SubmissionView>, w: Seq<char>) -> nat
    decreases l.len(),
{
    if l.len() == 0 {
        0
    } else {
        count_in(l.drop_last(), w) + if l.last().1 == w {
            1nat
        } else {
            0nat
        }
    }
}

/// How many submissions of all the players' lists have the word `w`.
pub open spec fn word_count(lists: Seq<Seq<SubmissionView>>, w: Seq<char>) -> nat
    decreases lists.len(),
{
    if lists.len() == 0 {
        0
    } else {
        word_count(lists.drop_last(), w) + count_in(lists.last(), w)
    }
}

/// The word was submitted more than once in the round, all players together.
pub open spec fn shared(lists: Seq<Seq<SubmissionView>>, w: Seq<char>) -> bool {
    word_count(lists, w) > 1
}

/// The submissions of `l`, in order, whose word is shared (`canceled`) or not (`!canceled`).
pub open spec fn split_by(l: Seq<SubmissionView>, lists: Seq<Seq<SubmissionView>>, canceled: bool) -> Seq<SubmissionView>
    decreases l.len(),
{
    if l.len() == 0 {
        Seq::empty()
    } else {
        let rest = split_by(l.drop_last(), lists, canceled);
        if shared(lists, l.last().1) == canceled {
            rest.push(l.last())
        } else {
            rest
        }
    }
}

/// The submissions of `l` that count: those whose word nobody else submitted.
pub open spec fn scored_of(l: Seq<SubmissionView>, lists: Seq<Seq<SubmissionView>>) -> Seq<SubmissionView> {
    split_by(l, lists, false)
}

/// The submissions of `l` that are canceled: those whose word was submitted more than once.
pub open spec fn canceled_of(l: Seq<SubmissionView>, lists: Seq<Seq<SubmissionView>>) -> Seq<SubmissionView> {
    split_by(l, lists, true)
}

/// The parts of the result of a round, one per player in the round's order: the scored
/// and the canceled submissions and the points of the scored ones.
pub open spec fn round_parts(r: Round) -> Seq<ResultView> {
    Seq::new(
        r.ids().len(),
        |i: int|
            (
                r.ids()[i],
                scored_of(r.lists()[i], r.lists()),
                canceled_of(r.lists()[i], r.lists()),
                sum_points(scored_of(r.lists()[i], r.lists())),
            ),
    )
}

/// Each player's points in the round fit in a `usize`.
pub open spec fn scores_fit(r: Round) -> bool {
    forall|i: int|
        0 <= i < r.lists().len() ==> sum_points(#[trigger] scored_of(r.lists()[i], r.lists()))
            <= usize::MAX
}

/// A list holds the word at most once.
pub open spec fn words_distinct(l: Seq<SubmissionView>) -> bool {
    forall|k1: int, k2: int| 0 <= k1 < k2 < l.len() ==> (#[trigger] l[k1]).1 != (#[trigger] l[k2]).1
}

proof fn lemma_count_in_positive(l: Seq<SubmissionView>, w: Seq<char>)
    ensures
        count_in(l, w) > 0 <==> has_word(l, w),
        words_distinct(l) ==> count_in(l, w) <= 1,
    decreases l.len(),
{
    if l.len() > 0 {
        let d = l.drop_last();
        lemma_count_in_positive(d, w);
        if has_word(d, w) {
            let k = choose|k: int| 0 <= k < d.len() && (#[trigger] d[k]).1 == w;
            assert(l[k] == d[k]);
        }
        if has_word(l, w) && l.last().1 != w {
            let k = choose|k: int| 0 <= k < l.len() && (#[trigger] l[k]).1 == w;
            assert(d[k] == l[k]);
        }
        if words_distinct(l) {
            assert forall|k1: int, k2: int| 0 <= k1 < k2 < d.len() implies (#[trigger] d[k1]).1 != (#[trigger] d[k2]).1 by {
                assert(d[k1] == l[k1] && d[k2] == l[k2]);
            }
            if l.last().1 == w && has_word(d, w) {
                let k = choose|k: int| 0 <= k < d.len() && (#[trigger] d[k]).1 == w;
                assert(l[k] == d[k]);
                assert(l[k].1 != l[l.len() - 1].1);
            }
        }
    }
}

proof fn lemma_word_count_some(lists: Seq<Seq<SubmissionView>>, w: Seq<char>, i: int)
    requires
        0 <= i < lists.len(),
    ensures
        word_count(lists, w) >= count_in(lists[i], w),
        (word_count(lists, w) > count_in(lists[i], w)) <==> exists|j: int|
            0 <= j < lists.len() && j != i && count_in(#[trigger] lists[j], w) > 0,
    decreases lists.len(),
{
    let n = lists.len() - 1;
    let d = lists.drop_last();
    if i == n {
        lemma_word_count_any(d, w);
        if exists|j: int| 0 <= j < lists.len() && j != i && count_in(#[trigger] lists[j], w) > 0 {
            let j = choose|j: int| 0 <= j < lists.len() && j != i && count_in(#[trigger] lists[j], w) > 0;
            assert(d[j] == lists[j]);
        }
        if word_count(d, w) > 0 {
            let j = choose|j: int| 0 <= j < d.len() && count_in(#[trigger] d[j], w) > 0;
            assert(d[j] == lists[j]);
        }
    } else {
        lemma_word_count_some(d, w, i);
        assert(d[i] == lists[i]);
        if exists|j: int| 0 <= j < lists.len() && j != i && count_in(#[trigger] lists[j], w) > 0 {
            let j = choose|j: int| 0 <= j < lists.len() && j != i && count_in(#[trigger] lists[j], w) > 0;
            if j < n {
                assert(d[j] == lists[j]);
            }
        }
        if word_count(d, w) > count_in(d[i], w) {
            let j = choose|j: int| 0 <= j < d.len() && j != i && count_in(#[trigger] d[j], w) > 0;
            assert(d[j] == lists[j]);
        }
    }
}

proof fn lemma_word_count_any(lists: Seq<Seq<SubmissionView>>, w: Seq<char>)
    ensures
        word_count(lists, w) > 0 <==> exists|j: int| 0 <= j < lists.len() && count_in(#[trigger] lists[j], w) > 0,
    decreases lists.len(),
{
    if lists.len() > 0 {
        let d = lists.drop_last();
        lemma_word_count_any(d, w);
        if word_count(d, w) > 0 {
            let j = choose|j: int| 0 <= j < d.len() && count_in(#[trigger] d[j], w) > 0;
            assert(d[j] == lists[j]);
        }
        if exists|j: int| 0 <= j < lists.len() && count_in(#[trigger] lists[j], w) > 0 {
            let j = choose|j: int| 0 <= j < lists.len() && count_in(#[trigger] lists[j], w) > 0;
            if j < lists.len() - 1 {
                assert(d[j] == lists[j]);
            }
        }
    }
}

proof fn lemma_split_by_contains(l: Seq<SubmissionView>, lists: Seq<Seq<SubmissionView>>, canceled: bool, s: SubmissionView)
    ensures
        split_by(l, lists, canceled).contains(s) <==> (l.contains(s) && shared(lists, s.1) == canceled),
    decreases l.len(),
{
    if l.len() > 0 {
        let d = l.drop_last();
        let rest = split_by(d, lists, canceled);
        lemma_split_by_contains(d, lists, canceled, s);
        if l.contains(s) && s != l.last() {
            let k = choose|k: int| 0 <= k < l.len() && l[k] == s;
            assert(d[k] == s);
        }
        if d.contains(s) {
            let k = choose|k: int| 0 <= k < d.len() && d[k] == s;
            assert(l[k] == s);
        }
        if l.contains(s) && s == l.last() {
            assert(l[l.len() - 1] == s);
        }
        if shared(lists, l.last().1) == canceled {
            let out = rest.push(l.last());
            if out.contains(s) && s != l.last() {
                let k = choose|k: int| 0 <= k < out.len() && out[k] == s;
                assert(rest[k] == s);
            }
            if rest.contains(s) {
                let k = choose|k: int| 0 <= k < rest.len() && rest[k] == s;
                assert(out[k] == s);
            }
            assert(out[out.len() - 1] == l.last());
        }
    }
}

/// Review cancels exactly the words that another player also found: for a round in play,
/// a submission of player `i` is canceled if and only if some other player has the same
/// word, and scored otherwise; each submission lands in exactly one of the two lists.
pub proof fn lemma_canceled_iff_found_by_another(rules: GameRules, ids: Seq<PlayerId>, r: Round, i: int, s: SubmissionView)
    requires
        round_fits(rules, ids, r),
        0 <= i < r.lists().len(),
        r.lists()[i].contains(s),
    ensures
        canceled_of(r.lists()[i], r.lists()).contains(s) <==> exists|j: int|
            0 <= j < r.lists().len() && j != i && has_word(#[trigger] r.lists()[j], s.1),
        scored_of(r.lists()[i], r.lists()).contains(s) <==> !canceled_of(r.lists()[i], r.lists()).contains(s),
{
    let lists = r.lists();
    let l = lists[i];
    assert(words_distinct(l)) by {
        assert forall|k1: int, k2: int| 0 <= k1 < k2 < l.len() implies (#[trigger] l[k1]).1 != (#[trigger] l[k2]).1 by {
            assert(lists[i][k1] == l[k1]);
        }
    }
    lemma_count_in_positive(l, s.1);
    let k = choose|k: int| 0 <= k < l.len() && l[k] == s;
    assert(has_word(l, s.1)) by {
        assert(l[k].1 == s.1);
    }
    lemma_word_count_some(lists, s.1, i);
    lemma_split_by_contains(l, lists, true, s);
    lemma_split_by_contains(l, lists, false, s);
    if exists|j: int| 0 <= j < lists.len() && j != i && has_word(#[trigger] lists[j], s.1) {
        let j = choose|j: int| 0 <= j < lists.len() && j != i && has_word(#[trigger] lists[j], s.1);
        lemma_count_in_positive(lists[j], s.1);
    }
    if exists|j: int| 0 <= j < lists.len() && j != i && count_in(#[trigger] lists[j], s.1) > 0 {
        let j = choose|j: int| 0 <= j < lists.len() && j != i && count_in(#[trigger] lists[j], s.1) > 0;
        lemma_count_in_positive(lists[j], s.1);
    }
}


/// In each part of a round result, the scored and the canceled submissions together hold
/// each word at most once.
pub open spec fn parts_distinct(parts: Seq<ResultView>) -> bool {
    forall|i: int| 0 <= i < parts.len() ==> words_distinct(#[trigger] parts[i].1 + parts[i].2)
}

proof fn lemma_split_by_distinct(l: Seq<SubmissionView>, lists: Seq<Seq<SubmissionView>>, canceled: bool)
    requires
        words_distinct(l),
    ensures
        words_distinct(split_by(l, lists, canceled)),
    decreases l.len(),
{
    if l.len() > 0 {
        let d = l.drop_last();
        assert(words_distinct(d)) by {
            assert forall|k1: int, k2: int| 0 <= k1 < k2 < d.len() implies (#[trigger] d[k1]).1 != (#[trigger] d[k2]).1 by {
                assert(d[k1] == l[k1] && d[k2] == l[k2]);
            }
        }
        lemma_split_by_distinct(d, lists, canceled);
        let rest = split_by(d, lists, canceled);
        if shared(lists, l.last().1) == canceled {
            let out = rest.push(l.last());
            assert forall|k1: int, k2: int| 0 <= k1 < k2 < out.len() implies (#[trigger] out[k1]).1 != (#[trigger] out[k2]).1 by {
                if k2 == out.len() - 1 {
                    assert(out[k1] == rest[k1]);
                    lemma_split_by_contains(d, lists, canceled, rest[k1]);
                    assert(rest.contains(rest[k1]));
                    let j = choose|j: int| 0 <= j < d.len() && d[j] == rest[k1];
                    assert(l[j] == d[j]);
                    assert(l[l.len() - 1] == l.last());
                } else {
                    assert(out[k1] == rest[k1] && out[k2] == rest[k2]);
                }
            }
        }
    }
}

/// The parts of a round in play hold each word at most once per player.
proof fn lemma_round_parts_distinct(rules: GameRules, ids: Seq<PlayerId>, r: Round)
    requires
        round_fits(rules, ids, r),
    ensures
        parts_distinct(round_parts(r)),
{
    let lists = r.lists();
    let parts = round_parts(r);
    assert forall|i: int| 0 <= i < parts.len() implies words_distinct(#[trigger] parts[i].1 + parts[i].2) by {
        let l = lists[i];
        assert(words_distinct(l)) by {
            assert forall|k1: int, k2: int| 0 <= k1 < k2 < l.len() implies (#[trigger] l[k1]).1 != (#[trigger] l[k2]).1 by {
                assert(lists[i][k1] == l[k1]);
            }
        }
        let a = scored_of(l, lists);
        let b = canceled_of(l, lists);
        lemma_split_by_distinct(l, lists, false);
        lemma_split_by_distinct(l, lists, true);
        let c = a + b;
        assert forall|k1: int, k2: int| 0 <= k1 < k2 < c.len() implies (#[trigger] c[k1]).1 != (#[trigger] c[k2]).1 by {
            if k2 < a.len() {
                assert(c[k1] == a[k1] && c[k2] == a[k2]);
            } else if k1 >= a.len() {
                assert(c[k1] == b[k1 - a.len()] && c[k2] == b[k2 - a.len()]);
            } else {
                assert(c[k1] == a[k1] && c[k2] == b[k2 - a.len()]);
                lemma_split_by_contains(l, lists, false, a[k1]);
                lemma_split_by_contains(l, lists, true, b[k2 - a.len()]);
                assert(a.contains(a[k1]));
                assert(b.contains(b[k2 - a.len()]));
            }
        }
    }
}

/// `n`, or 2 where `n` is larger.
spec fn cap2(n: nat) -> nat {
    if n < 2 {
        n
    } else {
        2
    }
}

proof fn lemma_sum_points_push(s: Seq<SubmissionView>, x: SubmissionView)
    ensures
        sum_points(s.push(x)) == sum_points(s) + x.3,
{
    assert(s.push(x).drop_last() =~= s);
}

proof fn lemma_scored_prefix_sum(l: Seq<SubmissionView>, lists: Seq<Seq<SubmissionView>>, k: int)
    requires
        0 <= k <= l.len(),
    ensures
        sum_points(scored_of(l.take(k), lists)) <= sum_points(scored_of(l, lists)),
    decreases l.len(),
{
    if k == l.len() {
        assert(l.take(k) =~= l);
    } else {
        let d = l.drop_last();
        lemma_scored_prefix_sum(d, lists, k);
        assert(l.take(k) =~= d.take(k));
        if !shared(lists, l.last().1) {
            lemma_sum_points_push(split_by(d, lists, false), l.last());
        }
    }
}

/// Whether more than one submission of the round, all players together, has the word.
fn found_more_than_once(entries: &Vec<(PlayerId, Vec<Submission>)>, word: &String) -> (r: bool)
    ensures
        r == shared(lists_of(entries@), word@),
{
    let ghost lists = lists_of(entries@);
    let mut c: usize = 0;
    let mut i: usize = 0;
    while i < entries.len()
        invariant
            i <= entries.len(),
            lists == lists_of(entries@),
            c == cap2(word_count(lists.take(i as int), word@)),
        decreases entries.len() - i,
    {
        let l = &entries[i].1;
        let mut k: usize = 0;
        while k < l.len()
            invariant
                k <= l.len(),
                i < entries.len(),
                *l == entries@[i as int].1,
                lists == lists_of(entries@),
                c == cap2(word_count(lists.take(i as int), word@) + count_in(views(l@).take(k as int), word@)),
            decreases l.len() - k,
        {
            if l[k].word == *word {
                if c < 2 {
                    c += 1;
                }
            }
            proof {
                let t = views(l@).take(k + 1);
                assert(t.drop_last() =~= views(l@).take(k as int));
                assert(t.last() == l@[k as int]@);
            }
            k += 1;
        }
        proof {
            assert(views(l@).take(l.len() as int) =~= views(l@));
            assert(lists[i as int] == views(l@));
            assert(lists.take(i + 1).drop_last() =~= lists.take(i as int));
            assert(lists.take(i + 1).last() == lists[i as int]);
        }
        i += 1;
    }
    assert(lists.take(entries.len() as int) =~= lists);
    c > 1
}

/// The result of player `i` of a round: its scored and canceled submissions and its points.
fn part_of(entries: &Vec<(PlayerId, Vec<Submission>)>, i: usize) -> (r: PlayerRoundResult)
    requires
        i < entries.len(),
        sum_points(scored_of(lists_of(entries@)[i as int], lists_of(entries@))) <= usize::MAX,
    ensures
        r@ == (
            entries@[i as int].0,
            scored_of(lists_of(entries@)[i as int], lists_of(entries@)),
            canceled_of(lists_of(entries@)[i as int], lists_of(entries@)),
            sum_points(scored_of(lists_of(entries@)[i as int], lists_of(entries@))),
        ),
{
    let ghost lists = lists_of(entries@);
    let l = &entries[i].1;
    let ghost lv = views(l@);
    assert(lists[i as int] == lv);
    let mut scored: Vec<Submission> = Vec::new();
    let mut canceled: Vec<Submission> = Vec::new();
    let mut score: usize = 0;
    let mut k: usize = 0;
    while k < l.len()
        invariant
            k <= l.len(),
            i < entries.len(),
            *l == entries@[i as int].1,
            lists == lists_of(entries@),
            lv == views(l@),
            sum_points(scored_of(lv, lists)) <= usize::MAX,
            views(scored@) == scored_of(lv.take(k as int), lists),
            views(canceled@) == canceled_of(lv.take(k as int), lists),
            score == sum_points(views(scored@)),
        decreases l.len() - k,
    {
        let ghost t = lv.take(k + 1);
        proof {
            assert(t.drop_last() =~= lv.take(k as int));
            assert(t.last() == l@[k as int]@);
            lemma_scored_prefix_sum(lv, lists, k + 1);
        }
        let cancel = found_more_than_once(entries, &l[k].word);
        let d = l[k].duplicate();
        if cancel {
            let ghost before = canceled@;
            canceled.push(d);
            proof {
                lemma_views_push(before, d);
            }
        } else {
            let ghost before = scored@;
            proof {
                lemma_sum_points_push(views(before), d@);
            }
            score = score + l[k].base_score;
            scored.push(d);
            proof {
                lemma_views_push(before, d);
            }
        }
        k += 1;
    }
    assert(lv.take(l.len() as int) =~= lv);
    PlayerRoundResult { player_id: entries[i].0, scored, canceled, score }
}

/// The two boards hold the same cells and the same rolled cubes.
pub open spec fn same_board(a: BoardRoll, b: BoardRoll) -> bool {
    &&& a.board_grid().side() == b.board_grid().side()
    &&& a.board_grid().cell_seq() == b.board_grid().cell_seq()
    &&& a.rolled().len() == b.rolled().len()
    &&& forall|i: int|
        0 <= i < a.rolled().len() ==> (#[trigger] a.rolled()[i]).cube_at() == b.rolled()[i].cube_at()
            && a.rolled()[i].face_at() == b.rolled()[i].face_at() && a.rolled()[i].label_view()
            == b.rolled()[i].label_view()
}

/// `after` is `before` with its round in play reviewed into `res`: the result holds the
/// round's board and, for each player of the match in order, the scored and canceled
/// submissions (no word in both) and the points; it is added to the finished rounds, and the
/// match moves to review.
pub open spec fn round_finished(before: Match, after: Match, res: RoundResult) -> bool {
    let rd = before.round_view().unwrap();
    &&& res.parts() == round_parts(rd)
    &&& res.parts().map_values(|x: ResultView| x.0) == ids_of(before.player_seq())
    &&& parts_distinct(res.parts())
    &&& forall|i: int| 0 <= i < res.parts().len() ==> (#[trigger] res.parts()[i]).3 == sum_points(res.parts()[i].1)
    &&& same_board(res.board_view(), rd.board_view())
    &&& after.phase_view() == MatchPhase::Review
    &&& after.round_view() is None
    &&& after.rules_view() == before.rules_view()
    &&& after.player_seq() == before.player_seq()
    &&& after.results_view().len() == before.results_view().len() + 1
    &&& after.results_view().drop_last() == before.results_view()
    &&& after.results_view().last().parts() == round_parts(rd)
    &&& after.results_view().last().board_view() == rd.board_view()
}

impl Match {
    /// Ends the round in play and reviews it: a word that more than one player submitted is
    /// canceled for all of them, the other words score their points. The result is kept
    /// among the finished rounds and returned. Refused outside the playing phase.
    pub fn finish_round(&mut self) -> (r: Result<RoundResult, MatchError>)
        requires
            old(self).phase_view() == MatchPhase::Playing ==> scores_fit(old(self).round_view().unwrap()),
        ensures
            old(self).phase_view() != MatchPhase::Playing ==> r is Err && r.unwrap_err() == (
            MatchError::InvalidTransition { phase: old(self).phase_view(), operation: "finish the round" })
                && *final(self) == *old(self),
            old(self).phase_view() == MatchPhase::Playing ==> (r matches Ok(res) && round_finished(
                *old(self),
                *final(self),
                res,
            )),
            legal_step(*old(self), *final(self)),
    {
        proof {
            use_type_invariant(&*self);
        }
        if self.phase() != MatchPhase::Playing {
            return Err(self.invalid_transition("finish the round"));
        }
        let mut stage = Stage::Ready;
        std::mem::swap(&mut stage, &mut self.stage);
        let round = match stage {
            Stage::Playing(round) => round,
            _ => vstd::pervasive::unreached(),
        };
        let ghost parts = round_parts(round);
        let mut players: Vec<PlayerRoundResult> = Vec::new();
        let mut i: usize = 0;
        while i < round.entries.len()
            invariant
                i <= round.entries.len(),
                parts == round_parts(round),
                scores_fit(round),
                result_views(players@) == parts.take(i as int),
            decreases round.entries.len() - i,
        {
            proof {
                assert(round.lists()[i as int] == lists_of(round.entries@)[i as int]);
                assert(sum_points(scored_of(round.lists()[i as int], round.lists())) <= usize::MAX);
            }
            let part = part_of(&round.entries, i);
            let ghost before = players@;
            players.push(part);
            proof {
                assert(result_views(before.push(part)) =~= result_views(before).push(part@));
                assert(parts.take(i + 1) =~= parts.take(i as int).push(parts[i as int]));
                assert(round.ids()[i as int] == round.entries@[i as int].0);
            }
            i += 1;
        }
        assert(parts.take(round.entries.len() as int) =~= parts);
        let result = RoundResult { board: round.board, players };
        let copy = result.duplicate();
        let ghost old_results = self.completed_rounds@;
        proof {
            lemma_round_parts_distinct(self.rules, ids_of(self.players@), round);
            assert(round_parts(round).map_values(|x: ResultView| x.0) =~= ids_of(self.players@));
        }
        let mut results: Vec<RoundResult> = Vec::new();
        std::mem::swap(&mut results, &mut self.completed_rounds);
        results.push(result);
        self.completed_rounds = results;
        self.stage = Stage::Review;
        proof {
            assert(self.completed_rounds@.drop_last() =~= old_results);
        }
        Ok(copy)
    }
}


/// `after` is `before` with `elapsed` taken off the time left of its timed round in play,
/// leaving `t_left`; nothing else changes.
pub open spec fn time_ticked(before: Match, after: Match, t_left: nat) -> bool {
    let ob = before.round_view().unwrap();
    let na = after.round_view().unwrap();
    &&& after.rules_view() == before.rules_view()
    &&& after.player_seq() == before.player_seq()
    &&& after.results_view() == before.results_view()
    &&& after.phase_view() == MatchPhase::Playing
    &&& after.round_view() is Some
    &&& na.board_view() == ob.board_view()
    &&& na.ids() == ob.ids()
    &&& na.lists() == ob.lists()
    &&& na.time_left() matches Some(d) && duration_nanos(d) == t_left
}

proof fn lemma_sum_points_prefix(s: Seq<SubmissionView>, k: int)
    requires
        0 <= k <= s.len(),
    ensures
        sum_points(s.take(k)) <= sum_points(s),
    decreases s.len(),
{
    if k < s.len() {
        lemma_sum_points_prefix(s.drop_last(), k);
        assert(s.take(k) =~= s.drop_last().take(k));
    } else {
        assert(s.take(k) =~= s);
    }
}

proof fn lemma_total_for_prefix(results: Seq<RoundResult>, pid: PlayerId, k: int)
    requires
        0 <= k <= results.len(),
    ensures
        total_for(results.take(k), pid) <= total_for(results, pid),
    decreases results.len(),
{
    if k < results.len() {
        lemma_total_for_prefix(results.drop_last(), pid, k);
        assert(results.take(k) =~= results.drop_last().take(k));
    } else {
        assert(results.take(k) =~= results);
    }
}

/// The sum of the points of some submissions.
fn sum_base_scores(s: &[Submission]) -> (r: usize)
    requires
        sum_points(views(s@)) <= usize::MAX,
    ensures
        r == sum_points(views(s@)),
{
    let mut t: usize = 0;
    let mut k: usize = 0;
    while k < s.len()
        invariant
            k <= s.len(),
            sum_points(views(s@)) <= usize::MAX,
            t == sum_points(views(s@).take(k as int)),
        decreases s.len() - k,
    {
        proof {
            let v = views(s@);
            assert(v.take(k + 1).drop_last() =~= v.take(k as int));
            assert(v.take(k + 1).last() == s@[k as int]@);
            lemma_sum_points_prefix(v, k + 1);
        }
        t = t + s[k].base_score;
        k += 1;
    }
    assert(views(s@).take(s.len() as int) =~= views(s@));
    t
}

impl Match {
    /// Takes `elapsed` off the time of the round in play. An endless round and a round with
    /// more time left than `elapsed` go on (the latter with less time left); otherwise the
    /// round's time is up and it is finished as `finish_round` finishes it. Refused outside
    /// the playing phase.
    pub fn advance_time(&mut self, elapsed: Duration) -> (r: Result<Option<RoundResult>, MatchError>)
        requires
            old(self).phase_view() == MatchPhase::Playing ==> scores_fit(old(self).round_view().unwrap()),
        ensures
            old(self).phase_view() != MatchPhase::Playing ==> r is Err && r.unwrap_err() == (
            MatchError::InvalidTransition { phase: old(self).phase_view(), operation: "advance round time" })
                && *final(self) == *old(self),
            old(self).phase_view() == MatchPhase::Playing ==> match old(self).round_view().unwrap().time_left() {
                None => r == Ok::<Option<RoundResult>, MatchError>(None) && *final(self) == *old(self),
                Some(t) => if duration_nanos(elapsed) < duration_nanos(t) {
                    r == Ok::<Option<RoundResult>, MatchError>(None) && time_ticked(
                        *old(self),
                        *final(self),
                        (duration_nanos(t) - duration_nanos(elapsed)) as nat,
                    )
                } else {
                    r matches Ok(Some(res)) && round_finished(*old(self), *final(self), res)
                },
            },
            legal_step(*old(self), *final(self)),
    {
        proof {
            use_type_invariant(&*self);
        }
        if self.phase() != MatchPhase::Playing {
            return Err(self.invalid_transition("advance round time"));
        }
        let time_left = match &self.stage {
            Stage::Playing(round) => round.remaining,
            _ => vstd::pervasive::unreached(),
        };
        let left = match time_left {
            None => {
                return Ok(None);
            },
            Some(t) => t,
        };
        if nanos_of(elapsed) < nanos_of(left) {
            let mut stage = Stage::Ready;
            std::mem::swap(&mut stage, &mut self.stage);
            match stage {
                Stage::Playing(mut round) => {
                    round.remaining = Some(duration_minus(left, elapsed));
                    self.stage = Stage::Playing(round);
                },
                _ => vstd::pervasive::unreached(),
            }
            return Ok(None);
        }
        match self.finish_round() {
            Ok(res) => Ok(Some(res)),
            Err(e) => Err(e),
        }
    }

    /// The points that `player_id` has had accepted in the round in play, before review; 0
    /// when no round is in play. Refused for a player not in the match.
    pub fn current_score(&self, player_id: PlayerId) -> (r: Result<usize, MatchError>)
        requires
            self.round_view() matches Some(rd) ==> sum_points(list_for(rd.ids(), rd.lists(), player_id)) <= usize::MAX,
        ensures
            match r {
                Ok(v) => ids_of(self.player_seq()).contains(player_id) && v == match self.round_view() {
                    Some(rd) => sum_points(list_for(rd.ids(), rd.lists(), player_id)),
                    None => 0,
                },
                Err(e) => !ids_of(self.player_seq()).contains(player_id) && e == (MatchError::UnknownPlayer { player_id }),
            },
    {
        proof {
            use_type_invariant(self);
        }
        match self.player_index(player_id) {
            None => {
                return Err(MatchError::UnknownPlayer { player_id });
            },
            Some(index) => {
                proof {
                    lemma_first_index(ids_of(self.players@), player_id);
                    assert(ids_of(self.players@)[index as int] == player_id);
                }
            },
        }
        match &self.stage {
            Stage::Rolling(round) => Ok(sum_base_scores(round.submissions(player_id))),
            Stage::Playing(round) => Ok(sum_base_scores(round.submissions(player_id))),
            _ => Ok(0),
        }
    }

    /// The points of `player_id` summed over the finished rounds. Refused for a player not in
    /// the match.
    pub fn total_score(&self, player_id: PlayerId) -> (r: Result<usize, MatchError>)
        requires
            total_for(self.results_view(), player_id) <= usize::MAX,
        ensures
            match r {
                Ok(v) => ids_of(self.player_seq()).contains(player_id) && v == total_for(self.results_view(), player_id),
                Err(e) => !ids_of(self.player_seq()).contains(player_id) && e == (MatchError::UnknownPlayer { player_id }),
            },
    {
        proof {
            use_type_invariant(self);
        }
        match self.player_index(player_id) {
            None => {
                return Err(MatchError::UnknownPlayer { player_id });
            },
            Some(index) => {
                proof {
                    lemma_first_index(ids_of(self.players@), player_id);
                    assert(ids_of(self.players@)[index as int] == player_id);
                }
            },
        }
        let ghost results = self.completed_rounds@;
        let mut t: usize = 0;
        let mut i: usize = 0;
        while i < self.completed_rounds.len()
            invariant
                i <= self.completed_rounds.len(),
                results == self.completed_rounds@,
                total_for(results, player_id) <= usize::MAX,
                t == total_for(results.take(i as int), player_id),
            decreases self.completed_rounds.len() - i,
        {
            proof {
                assert(results.take(i + 1).drop_last() =~= results.take(i as int));
                assert(results.take(i + 1).last() == results[i as int]);
                lemma_total_for_prefix(results, player_id, i + 1);
            }
            let points = match self.completed_rounds[i].player(player_id) {
                Some(part) => part.score(),
                None => 0,
            };
            t = t + points;
            i += 1;
        }
        assert(results.take(self.completed_rounds.len() as int) =~= results);
        Ok(t)
    }
}

/// The phase changes that the match operations make: none, or Ready to Rolling, Review to
/// Rolling (a new round), Rolling to Playing, Playing to Review, Review to Complete.
pub open spec fn phase_moves(a: MatchPhase, b: MatchPhase) -> bool {
    ||| a == b
    ||| a == MatchPhase::Ready && b == MatchPhase::Rolling
    ||| a == MatchPhase::Review && b == MatchPhase::Rolling
    ||| a == MatchPhase::Rolling && b == MatchPhase::Playing
    ||| a == MatchPhase::Playing && b == MatchPhase::Review
    ||| a == MatchPhase::Review && b == MatchPhase::Complete
}

/// While a round stays in play from `before` to `after`, it keeps its board and players and
/// each player's list of submissions only grows at its end.
pub open spec fn round_kept(before: Match, after: Match) -> bool {
    before.round_view() is Some && after.round_view() is Some ==> {
        let a = before.round_view().unwrap();
        let b = after.round_view().unwrap();
        &&& b.board_view() == a.board_view()
        &&& b.ids() == a.ids()
        &&& b.lists().len() == a.lists().len()
        &&& forall|i: int| 0 <= i < a.lists().len() ==> (#[trigger] a.lists()[i]).is_prefix_of(b.lists()[i])
    }
}

/// One call of a match operation takes `before` to `after`: the phase moves along the allowed
/// changes, the rules and players stay, the finished rounds are kept and at most added to,
/// and a round that stays in play only gains submissions.
pub open spec fn legal_step(before: Match, after: Match) -> bool {
    &&& phase_moves(before.phase_view(), after.phase_view())
    &&& after.rules_view() == before.rules_view()
    &&& after.player_seq() == before.player_seq()
    &&& before.results_view().is_prefix_of(after.results_view())
    &&& round_kept(before, after)
}

/// Over any run of match operations, each a legal step: the rules and players never change,
/// the finished rounds of an earlier state stay the first finished rounds of every later one,
/// a complete match stays complete, and while one round stays in play throughout, it keeps
/// its board and players and each player's list of submissions only grows at its end.
pub proof fn lemma_run_of_calls(ms: Seq<Match>, i: int, j: int)
    requires
        forall|k: int| 0 <= k < ms.len() - 1 ==> legal_step(#[trigger] ms[k], ms[k + 1]),
        0 <= i <= j < ms.len(),
    ensures
        ms[j].rules_view() == ms[i].rules_view(),
        ms[j].player_seq() == ms[i].player_seq(),
        ms[i].results_view().is_prefix_of(ms[j].results_view()),
        ms[i].phase_view() == MatchPhase::Complete ==> ms[j].phase_view() == MatchPhase::Complete,
        (forall|k: int| i <= k <= j ==> (#[trigger] ms[k]).round_view() is Some) ==> round_kept(ms[i], ms[j]),
    decreases j - i,
{
    if i < j {
        lemma_run_of_calls(ms, i, j - 1);
        let a = ms[i];
        let b = ms[j - 1];
        let c = ms[j];
        assert(legal_step(b, c));
        assert(a.results_view().is_prefix_of(c.results_view())) by {
            assert forall|x: int| 0 <= x < a.results_view().len() implies a.results_view()[x] == c.results_view()[x] by {
                assert(a.results_view()[x] == b.results_view()[x]);
            }
        }
        if forall|k: int| i <= k <= j ==> (#[trigger] ms[k]).round_view() is Some {
            assert(ms[j - 1].round_view() is Some);
            assert(forall|k: int| i <= k <= j - 1 ==> (#[trigger] ms[k]).round_view() is Some);
            assert(round_kept(a, b));
            let ra = a.round_view().unwrap();
            let rb = b.round_view().unwrap();
            let rc = c.round_view().unwrap();
            assert forall|x: int| 0 <= x < ra.lists().len() implies (#[trigger] ra.lists()[x]).is_prefix_of(rc.lists()[x]) by {
                assert(ra.lists()[x].is_prefix_of(rb.lists()[x]));
                assert(rb.lists()[x].is_prefix_of(rc.lists()[x]));
                assert forall|y: int| 0 <= y < ra.lists()[x].len() implies ra.lists()[x][y] == rc.lists()[x][y] by {
                    assert(ra.lists()[x][y] == rb.lists()[x][y]);
                }
            }
        }
    }
}

/// A finished round has exactly one part for each player of the match: `part_for` finds a
/// part for `pid` exactly when `pid` plays in the match, and that part is the player's own.
pub proof fn lemma_result_has_each_player(before: Match, after: Match, res: RoundResult, pid: PlayerId)
    requires
        round_finished(before, after, res),
    ensures
        part_for(res.parts(), pid) is Some <==> ids_of(before.player_seq()).contains(pid),
        part_for(res.parts(), pid) matches Some(p) ==> p.0 == pid,
{
    let ids = res.parts().map_values(|x: ResultView| x.0);
    lemma_first_index(ids, pid);
    if ids_of(before.player_seq()).contains(pid) {
        let k = choose|k: int| 0 <= k < ids.len() && ids[k] == pid;
        assert(ids[k] == pid);
    }
    if first_index(ids, pid) >= 0 {
        assert(ids[first_index(ids, pid)] == pid);
    }
}

/// Whether the points of player `i`'s scored submissions, all players' lists considered, fit
/// in a `usize`.
fn scored_sum_fits(entries: &Vec<(PlayerId, Vec<Submission>)>, i: usize) -> (r: bool)
    requires
        i < entries.len(),
    ensures
        r == (sum_points(scored_of(lists_of(entries@)[i as int], lists_of(entries@))) <= usize::MAX),
{
    let ghost lists = lists_of(entries@);
    let l = &entries[i].1;
    let ghost lv = views(l@);
    assert(lists[i as int] == lv);
    let mut acc: usize = 0;
    let mut k: usize = 0;
    while k < l.len()
        invariant
            k <= l.len(),
            i < entries.len(),
            *l == entries@[i as int].1,
            lists == lists_of(entries@),
            lv == views(l@),
            acc == sum_points(scored_of(lv.take(k as int), lists)),
        decreases l.len() - k,
    {
        let ghost t = lv.take(k + 1);
        proof {
            assert(t.drop_last() =~= lv.take(k as int));
            assert(t.last() == l@[k as int]@);
            lemma_scored_prefix_sum(lv, lists, k + 1);
        }
        if !found_more_than_once(entries, &l[k].word) {
            proof {
                lemma_sum_points_push(scored_of(lv.take(k as int), lists), l@[k as int]@);
            }
            match acc.checked_add(l[k].base_score) {
                None => {
                    return false;
                },
                Some(n) => {
                    acc = n;
                },
            }
        }
        k += 1;
    }
    assert(lv.take(l.len() as int) =~= lv);
    true
}

/// The sum of the points of some submissions, if it fits in a `usize`.
fn checked_points(s: &[Submission]) -> (r: Option<usize>)
    ensures
        match r {
            Some(v) => v == sum_points(views(s@)),
            None => sum_points(views(s@)) > usize::MAX,
        },
{
    let mut t: usize = 0;
    let mut k: usize = 0;
    while k < s.len()
        invariant
            k <= s.len(),
            t == sum_points(views(s@).take(k as int)),
        decreases s.len() - k,
    {
        proof {
            let v = views(s@);
            assert(v.take(k + 1).drop_last() =~= v.take(k as int));
            assert(v.take(k + 1).last() == s@[k as int]@);
            lemma_sum_points_prefix(v, k + 1);
        }
        match t.checked_add(s[k].base_score) {
            None => {
                return None;
            },
            Some(n) => {
                t = n;
            },
        }
        k += 1;
    }
    assert(views(s@).take(s.len() as int) =~= views(s@));
    Some(t)
}

impl Match {
    /// Whether every player's points in the round in play, once reviewed, fit in a `usize`:
    /// the condition under which `finish_round` and `advance_time` may be called.
    pub fn round_scores_fit(&self) -> (r: bool)
        ensures
            r == (self.round_view() matches Some(rd) ==> scores_fit(rd)),
    {
        let entries = match &self.stage {
            Stage::Rolling(round) => &round.entries,
            Stage::Playing(round) => &round.entries,
            _ => {
                return true;
            },
        };
        let mut i: usize = 0;
        while i < entries.len()
            invariant
                i <= entries.len(),
                self.round_view() matches Some(rd) && rd.lists() == lists_of(entries@),
                forall|j: int| 0 <= j < i ==> sum_points(#[trigger] scored_of(lists_of(entries@)[j], lists_of(entries@)))
                    <= usize::MAX,
            decreases entries.len() - i,
        {
            if !scored_sum_fits(entries, i) {
                return false;
            }
            i += 1;
        }
        true
    }

    /// Whether the points that `player_id` has had accepted in the round in play fit in a
    /// `usize`: the condition under which `current_score` may be called.
    pub fn current_score_fits(&self, player_id: PlayerId) -> (r: bool)
        ensures
            r == (self.round_view() matches Some(rd) ==> sum_points(list_for(rd.ids(), rd.lists(), player_id))
                <= usize::MAX),
    {
        match &self.stage {
            Stage::Rolling(round) => checked_points(round.submissions(player_id)).is_some(),
            Stage::Playing(round) => checked_points(round.submissions(player_id)).is_some(),
            _ => true,
        }
    }

    /// Whether the points of `player_id` over the finished rounds fit in a `usize`: the
    /// condition under which `total_score` may be called.
    pub fn total_score_fits(&self, player_id: PlayerId) -> (r: bool)
        ensures
            r == (total_for(self.results_view(), player_id) <= usize::MAX),
    {
        let ghost results = self.completed_rounds@;
        let mut t: usize = 0;
        let mut i: usize = 0;
        while i < self.completed_rounds.len()
            invariant
                i <= self.completed_rounds.len(),
                results == self.completed_rounds@,
                t == total_for(results.take(i as int), player_id),
            decreases self.completed_rounds.len() - i,
        {
            proof {
                assert(results.take(i + 1).drop_last() =~= results.take(i as int));
                assert(results.take(i + 1).last() == results[i as int]);
                lemma_total_for_prefix(results, player_id, i + 1);
            }
            let points = match self.completed_rounds[i].player(player_id) {
                Some(part) => part.score(),
                None => 0,
            };
            match t.checked_add(points) {
                None => {
                    return false;
                },
                Some(n) => {
                    t = n;
                },
            }
            i += 1;
        }
        assert(results.take(self.completed_rounds.len() as int) =~= results);
        true
    }
}

/// A finished round adds to each player's total exactly that player's points in the round.
pub proof fn lemma_finish_adds_round_points(before: Match, after: Match, res: RoundResult, pid: PlayerId)
    requires
        round_finished(before, after, res),
    ensures
        total_for(after.results_view(), pid) == total_for(before.results_view(), pid) + match part_for(res.parts(), pid) {
            Some(p) => p.3,
            None => 0,
        },
{
    assert(after.results_view().last().parts() == res.parts());
}

} // verus!
