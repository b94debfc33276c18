//! Editing of a layered-image container that embeds a relational store:
//! locating the store, cutting it out, planning the renaming of its layers
//! and putting a new container together.

pub mod error;
pub mod bytes;
pub mod scan;
pub mod container;
pub mod layer;
pub mod naming;
pub mod rename;
pub mod apply;
