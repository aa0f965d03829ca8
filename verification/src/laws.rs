//! What the library does, stated on bytes, ticks and keys.
//!
//! Each law relates what goes into a function to what comes out of it, without the
//! functions that the contracts are written with where plain numbers can say it.

pub mod edges;
pub mod events;
pub mod extraction;
pub mod figures;
pub mod files;
pub mod numbers;
pub mod packets;
pub mod queries;
pub mod rewriting;
pub mod windows;
