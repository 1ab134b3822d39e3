//! A small peer-to-peer voting toolkit.
//!
//! Voters draw random ids from a shared pool and store their choice under that
//! id in a distributed key-value network; counting draws a sample of ids,
//! retrieves the votes stored under them and tallies them per option.
//!
//! The modules hold the decisions of that program, each with its contract:
//! - `storage`: the key-value store that every peer runs;
//! - `bulk`: the requests that cast a list of votes;
//! - `gather`: casting a vote under a random id, and collecting a sample of votes;
//! - `menu`: the cursor of the terminal selection menu;
//! - `tally`: counting the votes per option and laying out the result bars;
//! - `numbers`: the decimal reading and writing of counts, and the divisor of the bars.
pub mod bulk;
pub mod gather;
pub mod menu;
pub mod numbers;
pub mod storage;
pub mod tally;
