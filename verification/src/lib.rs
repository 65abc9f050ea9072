//! A fixed-object-size slab allocator with machine-checked contracts.
//!
//! A [`Slab`] carves one page into equal slots and threads its free list through the unused
//! slots themselves. A [`SlabCache`] keeps the slabs of one size class in three intrusive lists
//! (partially used, full, empty), and an [`AllocateurSlab`] routes a request to the cache of the
//! smallest class that fits it.
//!
//! A page is a region of [`slab::TAILLE_SLAB`] bytes that its owner hands over together with
//! the address of its first byte. The allocator never acquires a page by itself, and what it
//! hands out are addresses inside the pages it was given.
//!
//! Every operation is specified over a mathematical model: [`slab::VueSlab`] for a slab and
//! [`modele::VueCache`] for a cache. The module [`lois`] states what holds over whole
//! histories of calls.

pub mod arene;
pub mod cache;
pub mod lois;
pub mod memoire;
pub mod modele;
pub mod repartiteur;
pub mod slab;

pub use cache::{Bilan, ErreurPage, SlabCache};
pub use repartiteur::AllocateurSlab;
pub use slab::Slab;
