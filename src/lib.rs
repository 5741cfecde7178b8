//! A registry of kitties: digital assets with a 16-byte genome, created,
//! bred, transferred and sold between accounts. Which account holds which
//! kitties is kept in doubly linked lists whose nodes live as separate
//! entries of a key-value store.
use vstd::prelude::*;

pub mod dna;
pub mod kitties;
pub mod linked_item;
pub mod store;

pub use dna::{combine, combine_dna};
pub use kitties::{
    AccountId, Balance, Kitty, KittyError, KittyIndex, KittyLinkedItem, Module, OwnedKitties,
    MAX_KITTY_INDEX,
};
pub use linked_item::{LinkedItem, LinkedList};
pub use store::{LinkStore, MemoryStore};

verus! {

} // verus!
