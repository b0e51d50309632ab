//! Skill ratings of a roster of characters from human-judged pairwise
//! comparisons: groups and filters, tie-aware ranks, the bookkeeping of
//! rating periods, matchmaking and a weighted rank correlation.

pub mod text;
pub mod groups;
pub mod chara;
pub mod stats;
pub mod session;
pub mod sort;
pub mod data;
pub mod norm;
