//! Verified rules of a set of on-chain poker contracts.

pub mod arith;
pub mod assoc;
pub mod auth_manager;
pub mod committee_registry;
pub mod hand_verifier;
pub mod host;
pub mod jackpot_verifier;
pub mod liquidity_pool;
pub mod player_rating;
pub mod poker_table;
pub mod protocol_governance;
pub mod seqs;
pub mod totals;
