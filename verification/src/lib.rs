//! A tiered commitment tree: an append-only, authenticated accumulator whose
//! items can be witnessed by position and forgotten one by one without
//! disturbing any digest.
//!
//! A tree is a [`Top`] tier over items. An item is a [`Commitment`], or a
//! frontier tier of items, so that tiers nest to any depth. Every tier stands
//! for a [`Tree`], the mathematical value that the contracts speak of: its
//! root digest, the witnesses of its items, and what forgetting does to it.

pub mod complete;
pub mod focus;
pub mod frontier;
pub mod hash;
pub mod insert;
pub mod path;
pub mod tree;
pub mod wallet;

pub use crate::focus::{Focus, Subtree};
pub use crate::frontier::top::Top;
pub use crate::hash::{Commitment, Digest};
pub use crate::insert::Insert;
pub use crate::path::AuthPath;
pub use crate::tree::Tree;
pub use crate::wallet::WalletCmd;
