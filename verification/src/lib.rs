//! The resource tree of a zenoh router's routing tables, verified with Verus.
//! Resources are nodes of an arena indexed by `usize`, named by key
//! expressions split into chunks; faces declare expression ids and interests
//! on them, and each resource is matched with those the search for its key
//! expression finds.

pub mod context;
pub mod keys;
pub mod tree;
pub mod resource;
pub mod declare;
pub mod face;
pub mod keyexpr;
pub mod matching;
pub mod cleanup;
pub mod register;
pub mod access;
pub mod laws;
pub mod found;
