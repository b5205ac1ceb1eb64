//! Reconstructs file-descriptor lifecycles from a system-call trace and
//! aggregates the touched files into an annotated directory tree.
#![allow(unused_imports)]

use vstd::prelude::*;

pub mod file_tree;
pub mod numparse;
pub mod strutil;
pub mod tracker;
pub mod tracker_laws;
pub mod tree_laws;

pub use file_tree::{Perms, Node, Directory, FileTree, spaces};
pub use tracker::{StraceEvent, FDInfo, ProcessError, Eventer};
