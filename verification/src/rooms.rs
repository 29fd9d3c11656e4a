//! Room detection: which enclosed spaces exist, and what kind they are.

pub mod contents;
pub mod counting;
pub mod fill;
pub mod signature;
pub mod patterns;
pub mod map;
pub mod detect;
pub mod update;
