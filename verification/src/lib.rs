//! Planning the installation of files that belong to a program.
//!
//! A caller names a destination directory and an ordered list of sources.
//! A source that is a file is placed at the top level of the destination
//! under its bare file name. A source that is a directory has everything
//! below it placed under the destination at the same relative location; the
//! directory's own name is not reproduced.
//!
//! This crate never touches a file system. The caller records what it sees
//! of the sources as plain values, [`install_files`] turns the record into the
//! ordered list of directory creations and file copies to carry out, and the
//! caller carries them out.
//!
//! - [`path`]: paths as sequences of segments, and the operations on them.
//! - [`plan`]: the record of the sources, the actions, and [`install_files`].
//! - [`layout`]: a model of the file tree that the actions are carried out on.
//! - [`laws`]: what is proved of every installation.

pub mod laws;
pub mod layout;
pub mod path;
pub mod plan;

pub use crate::path::{FilePath, Segment};
pub use crate::plan::{install_files, mirror, Action, Plan, Source, Visit};
