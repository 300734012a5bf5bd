//! Finding and scoring words on a square grid of letters, and playing rounds of the word
//! game on such grids: boards, word lists, the search for words, scoring tables, cube sets,
//! board rolls, matches with their rounds and results, the command line, and the decisions
//! of the game client.

pub mod text;
pub mod grid;
pub mod dictionary;
pub mod solver;
pub mod word_score;
pub mod scoring;
pub mod cube;
pub mod durations;
pub mod rules;
pub mod roll;
pub mod game_match;
pub mod output;
pub mod cli;
pub mod client;
pub mod session;
