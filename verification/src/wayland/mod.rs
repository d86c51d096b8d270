//! Protocol-related utilities

pub mod compositor;
