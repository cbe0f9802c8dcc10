pub mod ai;
pub mod card_counts;
pub mod card_encoding;
pub mod cards;
pub mod field;
pub mod flags;
pub mod match_log;
pub mod move_log;
pub mod online;
