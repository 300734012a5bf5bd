use std::time::Duration;

use vstd::prelude::*;

use crate::cube::{big_faces, cube_faces, CubeSet};
use crate::durations::{duration_from_secs, duration_nanos, nanos_of};
use crate::scoring::{standard_bands, ScoringTable};
use crate::text::{decimal, push_decimal, push_str};

verus! {

/// How rounds end.
#[derive(Debug, Clone, Copy, PartialEq, Eq)]
pub enum PlayMode {
    /// Each round lasts `duration` of play.
    TimedRounds { duration: Duration },
    /// Rounds last until they are finished by hand.
    Endless,
}

/// Why a combination of settings was refused.
#[derive(Debug, Clone, Copy, PartialEq, Eq, Structural)]
pub enum GameRulesError {
    /// The board side is zero.
    ZeroGridSize,
    /// The number of cells does not fit in a `usize`.
    GridSizeOverflow,
    /// Words must have at least 3 letters.
    MinimumWordLengthTooSmall { actual: usize },
    /// The cube set does not have one cube per cell.
    CubeCountMismatch { actual: usize, expected: usize },
    /// A timed round must last some time.
    ZeroRoundDuration,
}

/// The message that describes an error.
pub open spec fn rules_error_message(e: GameRulesError) -> Seq<char> {
    match e {
        GameRulesError::ZeroGridSize => "grid size must be greater than zero"@,
        GameRulesError::GridSizeOverflow => "grid size is too large"@,
        GameRulesError::MinimumWordLengthTooSmall { actual } =>
            "minimum word length must be at least 3, but was "@ + decimal(actual as nat),
        GameRulesError::CubeCountMismatch { actual, expected } => "cube set has "@ + decimal(
            actual as nat,
        ) + " cubes, but the grid requires "@ + decimal(expected as nat),
        GameRulesError::ZeroRoundDuration => "round duration must be greater than zero"@,
    }
}

impl GameRulesError {
    /// The message that describes this error.
    pub fn message(&self) -> (r: String)
        ensures
            r@ == rules_error_message(*self),
    {
        match self {
            GameRulesError::ZeroGridSize => String::from_str("grid size must be greater than zero"),
            GameRulesError::GridSizeOverflow => String::from_str("grid size is too large"),
            GameRulesError::MinimumWordLengthTooSmall { actual } => {
                let mut s = String::from_str("minimum word length must be at least 3, but was ");
                push_decimal(&mut s, *actual);
                s
            },
            GameRulesError::CubeCountMismatch { actual, expected } => {
                let mut s = String::from_str("cube set has ");
                push_decimal(&mut s, *actual);
                push_str(&mut s, " cubes, but the grid requires ");
                push_decimal(&mut s, *expected);
                s
            },
            GameRulesError::ZeroRoundDuration => String::from_str(
                "round duration must be greater than zero",
            ),
        }
    }
}

/// The mode has timed rounds of `nanos` nanoseconds.
pub open spec fn timed_for(mode: PlayMode, nanos: nat) -> bool {
    match mode {
        PlayMode::TimedRounds { duration } => duration_nanos(duration) == nanos,
        PlayMode::Endless => false,
    }
}

/// A timed mode has a round of no length.
pub open spec fn zero_round(mode: PlayMode) -> bool {
    match mode {
        PlayMode::TimedRounds { duration } => duration_nanos(duration) == 0,
        PlayMode::Endless => false,
    }
}

/// The first check that a combination of settings fails, in the order they are made.
pub open spec fn rules_error(grid_size: nat, minimum_word_length: nat, mode: PlayMode, cube_count: nat) -> Option<GameRulesError> {
    if grid_size == 0 {
        Some(GameRulesError::ZeroGridSize)
    } else if minimum_word_length < 3 {
        Some(GameRulesError::MinimumWordLengthTooSmall { actual: minimum_word_length as usize })
    } else if grid_size * grid_size > usize::MAX {
        Some(GameRulesError::GridSizeOverflow)
    } else if cube_count != grid_size * grid_size {
        Some(
            GameRulesError::CubeCountMismatch {
                actual: cube_count as usize,
                expected: (grid_size * grid_size) as usize,
            },
        )
    } else if zero_round(mode) {
        Some(GameRulesError::ZeroRoundDuration)
    } else {
        None
    }
}

/// The settings of a game: board side, shortest word, how rounds end, the cubes (one per
/// cell) and the scoring table.
#[derive(Debug, PartialEq, Eq)]
pub struct GameRules {
    grid_size: usize,
    minimum_word_length: usize,
    play_mode: PlayMode,
    cube_set: CubeSet,
    scoring: ScoringTable,
}

impl GameRules {
    /// The board side.
    pub closed spec fn side(&self) -> nat {
        self.grid_size as nat
    }

    /// The least number of letters of a word.
    pub closed spec fn min_letters(&self) -> nat {
        self.minimum_word_length as nat
    }

    /// How rounds end.
    pub closed spec fn mode(&self) -> PlayMode {
        self.play_mode
    }

    /// The cubes.
    pub closed spec fn cubes(&self) -> CubeSet {
        self.cube_set
    }

    /// The scoring table.
    pub closed spec fn table(&self) -> ScoringTable {
        self.scoring
    }

    /// The settings agree with each other.
    #[verifier::type_invariant]
    pub closed spec fn rules_ok(&self) -> bool {
        rules_error(
            self.grid_size as nat,
            self.minimum_word_length as nat,
            self.play_mode,
            self.cube_set.cube_seq().len(),
        ) is None
    }

    /// What the invariant says, over the public view.
    pub proof fn lemma_rules(&self)
        requires
            self.rules_ok(),
        ensures
            rules_error(self.side(), self.min_letters(), self.mode(), self.cubes().cube_seq().len()) is None,
            self.side() > 0,
            self.min_letters() >= 3,
            self.cubes().cube_seq().len() == self.side() * self.side(),
    {
    }

    /// Combines the settings, refusing a zero side, a shortest word under 3 letters, a side
    /// whose square overflows, a cube count other than one per cell, and a timed round of no
    /// length, in that order.
    pub fn new(
        grid_size: usize,
        minimum_word_length: usize,
        play_mode: PlayMode,
        cube_set: CubeSet,
        scoring: ScoringTable,
    ) -> (r: Result<Self, GameRulesError>)
        ensures
            match r {
                Ok(g) => rules_error(grid_size as nat, minimum_word_length as nat, play_mode, cube_set.cube_seq().len()) is None
                    && g.side() == grid_size && g.min_letters() == minimum_word_length && g.mode() == play_mode
                    && g.cubes() == cube_set && g.table() == scoring,
                Err(e) => rules_error(grid_size as nat, minimum_word_length as nat, play_mode, cube_set.cube_seq().len()) == Some(e),
            },
    {
        if grid_size == 0 {
            return Err(GameRulesError::ZeroGridSize);
        }
        if minimum_word_length < 3 {
            return Err(GameRulesError::MinimumWordLengthTooSmall { actual: minimum_word_length });
        }
        let expected = match grid_size.checked_mul(grid_size) {
            Some(v) => v,
            None => {
                return Err(GameRulesError::GridSizeOverflow);
            },
        };
        let actual = cube_set.cubes().len();
        if actual != expected {
            return Err(GameRulesError::CubeCountMismatch { actual, expected });
        }
        if let PlayMode::TimedRounds { duration } = play_mode {
            if nanos_of(duration) == 0 {
                return Err(GameRulesError::ZeroRoundDuration);
            }
        }
        Ok(GameRules { grid_size, minimum_word_length, play_mode, cube_set, scoring })
    }

    /// The Normal rules for a cube set: a 4 by 4 board, words of 3 letters or more, timed
    /// rounds of 3 minutes, and the standard scoring table.
    pub fn normal(cube_set: CubeSet) -> (r: Result<Self, GameRulesError>)
        ensures
            match r {
                Ok(g) => cube_set.cube_seq().len() == 16 && g.side() == 4 && g.min_letters() == 3
                    && timed_for(g.mode(), 180_000_000_000) && g.cubes() == cube_set
                    && g.table().band_seq() == standard_bands(),
                Err(e) => cube_set.cube_seq().len() != 16 && e == GameRulesError::CubeCountMismatch {
                    actual: cube_set.cube_seq().len() as usize,
                    expected: 16,
                },
            },
    {
        let duration = duration_from_secs(180);
        Self::new(4, 3, PlayMode::TimedRounds { duration }, cube_set, ScoringTable::standard())
    }

    /// The Big rules: a 5 by 5 board of the Big cubes, words of 4 letters or more, timed
    /// rounds of 3 minutes, and the standard scoring table.
    pub fn big() -> (g: Self)
        ensures
            g.side() == 5,
            g.min_letters() == 4,
            timed_for(g.mode(), 180_000_000_000),
            g.cubes().name_view() == "Big"@,
            cube_faces(g.cubes().cube_seq()) == big_faces(),
            g.table().band_seq() == standard_bands(),
    {
        let duration = duration_from_secs(180);
        let cubes = CubeSet::big();
        proof {
            assert(cube_faces(cubes.cube_seq()).len() == 25);
        }
        match Self::new(5, 4, PlayMode::TimedRounds { duration }, cubes, ScoringTable::standard()) {
            Ok(g) => g,
            Err(_) => {
                vstd::pervasive::unreached()
            },
        }
    }

    /// The board side.
    pub fn grid_size(&self) -> (r: usize)
        ensures
            r == self.side(),
    {
        self.grid_size
    }

    /// The least number of letters of a word.
    pub fn minimum_word_length(&self) -> (r: usize)
        ensures
            r == self.min_letters(),
    {
        self.minimum_word_length
    }

    /// How rounds end.
    pub fn play_mode(&self) -> (r: PlayMode)
        ensures
            r == self.mode(),
    {
        self.play_mode
    }

    /// The cubes.
    pub fn cube_set(&self) -> (r: &CubeSet)
        ensures
            *r == self.cubes(),
    {
        &self.cube_set
    }

    /// The scoring table.
    pub fn scoring(&self) -> (r: &ScoringTable)
        ensures
            *r == self.table(),
    {
        &self.scoring
    }
}

impl Clone for GameRules {
    fn clone(&self) -> (r: Self)
        ensures
            r.side() == self.side(),
            r.min_letters() == self.min_letters(),
            r.mode() == self.mode(),
            r.cubes().name_view() == self.cubes().name_view(),
            cube_faces(r.cubes().cube_seq()) == cube_faces(self.cubes().cube_seq()),
            r.table().band_seq() == self.table().band_seq(),
    {
        proof {
            use_type_invariant(self);
        }
        let cube_set = self.cube_set.clone();
        proof {
            assert(cube_faces(cube_set.cube_seq()).len() == cube_faces(self.cube_set.cube_seq()).len());
        }
        GameRules {
            grid_size: self.grid_size,
            minimum_word_length: self.minimum_word_length,
            play_mode: self.play_mode,
            cube_set,
            scoring: self.scoring.clone(),
        }
    }
}

} // verus!
