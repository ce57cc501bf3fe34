//! Scoring of completed riichi-mahjong hands: tile notation, decomposition
//! into melds, wait classification with fu, yaku evaluation and points.

pub mod tiles;
pub mod score;
pub mod groups;
pub mod parse;
pub mod evaluate;
pub mod yaku;
pub mod notation;
pub mod calculator;

