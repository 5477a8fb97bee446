use std::path::PathBuf;
use vstd::prelude::*;
use vstd::std_specs::convert::IntoSpec;

verus! {

#[verifier::external_type_specification]
#[verifier::external_body]
pub struct ExPathBuf(PathBuf);

/// Where, and how often, store snapshots are saved as JSON.
pub struct FilePersister {
    path: PathBuf,
    interval_seconds: u64,
}

impl FilePersister {
    /// A persister that writes to `path` every `interval_seconds` seconds.
    pub fn new<P: Into<PathBuf>>(path: P, interval_seconds: u64) -> (r: Self)
        ensures
            r.interval() == interval_seconds,
            <P as IntoSpec<PathBuf>>::obeys_into_spec() ==> r.persist_path() == path.into_spec(),
    {
        FilePersister::with_path(path.into(), interval_seconds)
    }

    /// A persister that writes to exactly `path` every `interval_seconds`
    /// seconds.
    pub fn with_path(path: PathBuf, interval_seconds: u64) -> (r: Self)
        ensures
            r.persist_path() == path,
            r.interval() == interval_seconds,
    {
        FilePersister { path, interval_seconds }
    }

    /// The number of seconds between two saves.
    pub closed spec fn interval(&self) -> u64 {
        self.interval_seconds
    }

    /// The path that snapshots are saved to.
    pub closed spec fn persist_path(&self) -> PathBuf {
        self.path
    }

    /// The path of the persist file.
    pub fn path(&self) -> (r: &PathBuf)
        ensures
            *r == self.persist_path(),
    {
        &self.path
    }

    /// The number of seconds between two saves.
    pub fn interval_seconds(&self) -> (r: u64)
        ensures
            r == self.interval(),
    {
        self.interval_seconds
    }
}

} // verus!
