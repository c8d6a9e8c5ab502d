//! The poker table: seats, hands, betting, time limits, history and administration.

pub mod anti_cheat;
pub mod auth;
pub mod bad_beat;
pub mod ban_list;
pub mod betting;
pub mod commit_reveal;
pub mod contract;
pub mod dealing;
pub mod game;
pub mod governance;
pub mod hand_cancellation;
pub mod history;
pub mod multi_currency;
pub mod perm;
pub mod refunds;
pub mod run_it_twice;
pub mod seating;
pub mod session;
pub mod settlement;
pub mod showdown;
pub mod straddle;
pub mod time_bank;
pub mod timeout;
pub mod tournament;
pub mod types;
pub mod upgrade;
