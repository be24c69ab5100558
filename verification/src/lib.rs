//! Building blocks of a small game engine.
//!
//! The heart of the crate is the [`builder`]: it collects named systems with
//! the names of the systems they depend on, keeps their graph free of cycles,
//! and delivers them to a planner in one fixed order with falling priorities.
//! [`registry`] holds the mathematical model that its contracts speak of,
//! [`graph`], [`table`] and [`traversal`] the parts it is made of, and
//! [`laws`] what holds of every registry and every build.
//!
//! Beside it stand the symbolic descriptions of texture formats
//! ([`format`]), of materials ([`material`]) and of scene defaults
//! ([`scene`]), and the decisions of the window loop ([`events`]).

pub mod builder;
pub mod error;
pub mod events;
pub mod format;
pub mod graph;
pub mod laws;
pub mod material;
pub mod registry;
pub mod scene;
pub mod system;
pub mod table;
pub mod traversal;
