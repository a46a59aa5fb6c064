//! Scene files: a flat list of records with stable ids, some of them instances of other scenes with
//! overrides of their own.
//!
//! A world is modelled as a list of nodes; see [`format`] for the records, [`save`] for how a world becomes a
//! file, [`load`] for how files become a world, and [`path`] for when two paths are one.

pub mod format;
pub mod load;
pub mod path;
pub mod save;
