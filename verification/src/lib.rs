//! In-memory block store of a HotStuff-family BFT consensus participant.
//!
//! The crate keeps the rooted tree of proposal blocks together with the
//! quorum certificates that certify them, tracks the ordered and committed
//! roots as finality advances, and prunes branches abandoned by commits.
//! Executor, persistent log and clock are collaborators supplied by the
//! embedding process through the traits of `block_store`.

pub mod types;

pub mod block_tree;

pub mod block_store;

pub mod state_view;

pub mod upgrade;
