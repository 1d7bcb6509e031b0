//! The configuration of a run, as a typed structure.

use vstd::prelude::*;

verus! {

/// What to assemble and where to put it.
pub struct Config {
    /// The directory that receives the files; the file system's root where
    /// none is given.
    pub root: Option<String>,
    /// Where set, a disk image is built in place of a directory tree.
    pub image: Option<ImageConfig>,
    pub package: PackageConfig,
    /// Files that are put into the tree beside those of the packages.
    pub files: Option<Vec<File>>,
}

/// The disk image to build.
pub struct ImageConfig {
    pub path: String,
}

/// The packages to fetch and the mirror to fetch them from.
#[derive(Debug)]
pub struct PackageConfig {
    /// The names of the packages, in the order in which their files claim
    /// destinations.
    pub list: Vec<String>,
    /// The base address of the repository; the default repository where none
    /// is given.
    pub mirror: Option<String>,
}

/// A file of the host that goes to the destination `dest`.
pub struct File {
    pub source: String,
    pub dest: String,
}

/// What is done with the assembled mapping.
pub enum Sink {
    /// A disk image is built at `path`.
    Image { path: String },
    /// Each file is copied to its destination below `path`.
    Root { path: String },
}

/// The directory that receives the files where the configuration names none.
pub const DEFAULT_ROOT: &'static str = "/";

impl Config {
    /// What the configuration asks to be done with the mapping: an image
    /// where one is configured, whatever `root` says; else a copy below
    /// `root`, or below the file system's root where `root` is not set.
    pub fn sink(&self) -> (sink: Sink)
        ensures
            match self.image {
                Some(image) => sink matches Sink::Image { path } && path@ == image.path@,
                None => sink matches Sink::Root { path } && path@ == (match self.root {
                    Some(root) => root@,
                    None => DEFAULT_ROOT@,
                }),
            },
    {
        match &self.image {
            Some(image) => Sink::Image { path: image.path.clone() },
            None => match &self.root {
                Some(root) => Sink::Root { path: root.clone() },
                None => Sink::Root { path: DEFAULT_ROOT.to_owned() },
            },
        }
    }
}

} // verus!
