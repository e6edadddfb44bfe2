//! Frontier tiers: the right-hand edge of a tree that is still growing.

pub mod spine;
pub mod tier;
pub mod top;
