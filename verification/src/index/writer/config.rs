//! Where the index files go.
use crate::paths::{join_path, path_joined};
use std::path::PathBuf;
use vstd::prelude::*;

verus! {

/// The directory the index files are written to.
#[derive(Debug)]
pub struct Config {
    pub output_dir: PathBuf,
}

impl Config {
    pub fn new(output_dir: PathBuf) -> (r: Self)
        ensures
            r.output_dir == output_dir,
    {
        Self { output_dir }
    }

    /// The path of the index file `filename`: the output directory joined with it.
    pub fn build_file_path(&self, filename: &str) -> (r: PathBuf)
        ensures
            r == path_joined(self.output_dir, filename@),
    {
        join_path(&self.output_dir, filename)
    }
}

} // verus!
