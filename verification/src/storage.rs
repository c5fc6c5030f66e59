//! Local-disk storage: objects are written under a base directory.
use vstd::prelude::*;
use vstd::std_specs::convert::IntoSpec;

verus! {

/// Writes objects under a base directory on the local filesystem.
pub struct LocalStorage {
    base_dir: std::path::PathBuf,
}

impl LocalStorage {
    pub fn new<P: Into<std::path::PathBuf>>(base_dir: P) -> (res: Self)
        ensures
            P::obeys_into_spec() ==> res.base() == base_dir.into_spec(),
    {
        LocalStorage { base_dir: base_dir.into() }
    }

    /// The directory objects are written under.
    pub closed spec fn base(&self) -> std::path::PathBuf {
        self.base_dir
    }

    /// The directory objects are written under.
    pub fn base_dir(&self) -> (res: &std::path::PathBuf)
        ensures
            *res == self.base(),
    {
        &self.base_dir
    }
}

} // verus!
