//! Finding the mesh files below a directory.
//!
//! A scan walks a directory tree depth first and collects the paths of the files with a
//! given extension, `dae` for meshes. It reads nothing itself:
//!
//! - [`scanner`] holds the scan as a machine that is handed the entries of one directory
//!   at a time, for a program that reads them from disk as the scan asks for them;
//! - [`tree`] and [`scan`] hold a directory tree in memory and the scan of such a tree;
//! - [`lemmas`] proves what holds of every scan;
//! - [`path`] has the rules on names, extensions and paths;
//! - [`report`] words what a scan tells the user.

pub mod lemmas;
pub mod path;
pub mod report;
pub mod scan;
pub mod scanner;
pub mod tree;
