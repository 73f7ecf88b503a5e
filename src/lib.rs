//! Swiss-system tournament bookkeeping: players, rounds, pairing of the
//! next round, standings with tie-breaks, the fixed-column report format,
//! and federation rating lists.

pub mod player;
pub mod round;
pub mod history;
pub mod tournament;
pub mod pairing;
pub mod standings;
pub mod event;
pub mod codec;
pub mod report;
pub mod import;
pub mod export;
pub mod ratinglist;
