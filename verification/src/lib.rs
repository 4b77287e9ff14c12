//! Riichi Mahjong hand analysis: tile notation, hand parsing, shanten and
//! tile acceptance, with every function proved against its contract.

pub mod tile;
pub mod blocks;
pub mod parse;
pub mod shanten;
pub mod text;
pub mod furiten;
pub mod complete;
pub mod arrange;
