//! Diffing of virtual DOM trees into change lists.
//!
//! A [`diff::DiffingMachine`] compares an old virtual tree with a new one and
//! emits, into an [`changelist::EditList`], the instructions that turn a
//! physical tree that reflects the old one into a physical tree that reflects
//! the new one.
pub mod changelist;
pub mod diff;
pub mod dom;
pub mod fx;
pub mod keys;
pub mod laws;
pub mod lis;
pub mod slots;
pub mod steps;
pub mod vnode;
