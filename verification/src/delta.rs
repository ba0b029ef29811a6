//! The editor's 'differentials': records of the unsaved changes to a file, analogous to vim's
//! swap files. On disk they normally have the extension `.fdiff`.
use vstd::prelude::*;

verus! {

/// Struct representing a change to a file open in fim.
#[derive(Debug, Clone, PartialEq, Eq, Structural)]
pub struct Delta {}

/// Struct representing all of the changes to a file open in fim.
#[derive(Debug, Clone)]
pub struct Differential {
    deltas: Vec<Delta>,
    file: String,
}

impl Differential {
    /// Create a new Differential with no changes for the file at the (canonical) path `file`.
    pub fn new(file: String) -> (d: Self)
        ensures
            d.changes() == Seq::<Delta>::empty(),
            d.path() == file@,
    {
        Differential { deltas: Vec::new(), file }
    }

    /// A Differential with the given changes for the file at the path `file`.
    pub fn from_parts(deltas: Vec<Delta>, file: String) -> (d: Self)
        ensures
            d.changes() == deltas@,
            d.path() == file@,
    {
        Differential { deltas, file }
    }

    /// The recorded changes, oldest first.
    pub closed spec fn changes(&self) -> Seq<Delta> {
        self.deltas@
    }

    /// The path of the changed file.
    pub closed spec fn path(&self) -> Seq<char> {
        self.file@
    }

    /// The recorded changes, oldest first.
    pub fn deltas(&self) -> (d: &Vec<Delta>)
        ensures
            d@ == self.changes(),
    {
        &self.deltas
    }

    /// The path of the changed file.
    pub fn file(&self) -> (f: &str)
        ensures
            f@ == self.path(),
    {
        self.file.as_str()
    }
}

} // verus!
