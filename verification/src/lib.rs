//! Core mechanisms of a forum site: a single-owner full-text index driven by
//! a FIFO command queue with per-query correlation tokens, and a namespaced
//! response cache with explicit invalidation.

pub mod actor;
pub mod docs;
pub mod auth;
pub mod cache;
pub mod gate;
pub mod gateway;
pub mod index;
pub mod text;
