//! A small infrastructure-as-a-service control plane, verified with Verus.
//!
//! The core of the crate is the resource orchestration layer: the domain
//! model, the persistence port and its in-memory adapter, the on-disk
//! record format, and the application service that coordinates them.
//! Around it stand the request/response shapes of the HTTP boundary and a
//! few small self-contained modules.

pub mod cli;
pub mod cons_list;
pub mod domain;
pub mod escape;
pub mod guess;
pub mod messages;
pub mod numerals;
pub mod record;
pub mod repository;
pub mod service;
pub mod shapes;
pub mod summaries;
pub mod text;
pub mod web;

pub use shapes::Rectangle;
