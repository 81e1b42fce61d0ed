//! The parsed program and the pieces it is made of.
use crate::file_table::FileTable;
use vstd::prelude::*;

verus! {

/// A table resolving symbolic address names to address values.
#[derive(Clone, Debug, PartialEq, Eq)]
pub struct NamedAddressMap {
    pub entries: Vec<(String, Vec<u8>)>,
}

/// The pool of named-address tables of one run; package paths refer to a
/// table by its index.
#[derive(Clone, Debug, PartialEq, Eq)]
pub struct NamedAddressMaps {
    maps: Vec<NamedAddressMap>,
}

impl View for NamedAddressMaps {
    type V = Seq<NamedAddressMap>;

    closed spec fn view(&self) -> Seq<NamedAddressMap> {
        self.maps@
    }
}

impl NamedAddressMaps {
    /// An empty pool.
    pub fn new() -> (r: NamedAddressMaps)
        ensures
            r@ == Seq::<NamedAddressMap>::empty(),
    {
        NamedAddressMaps { maps: Vec::new() }
    }

    /// Adds a table and returns its index.
    pub fn insert(&mut self, m: NamedAddressMap) -> (idx: usize)
        ensures
            final(self)@ == old(self)@.push(m),
            idx == old(self)@.len(),
    {
        let idx = self.maps.len();
        self.maps.push(m);
        idx
    }

    pub fn len(&self) -> (r: usize)
        ensures
            r == self@.len(),
    {
        self.maps.len()
    }

    /// The table at `idx`.
    pub fn get(&self, idx: usize) -> (r: &NamedAddressMap)
        requires
            idx < self@.len(),
        ensures
            *r == self@[idx as int],
    {
        &self.maps[idx]
    }
}

/// A comment of a file: the byte span it covers and its text.
#[derive(Clone, Debug, PartialEq, Eq)]
pub struct Comment {
    pub start: usize,
    pub end: usize,
    pub text: String,
}

/// A definition with the package it came from and the index of the
/// named-address table it resolves against.
#[derive(Clone, Debug, PartialEq, Eq)]
pub struct PackageDefinition<D> {
    pub package: Option<String>,
    pub named_address_map: usize,
    pub def: D,
}

/// The assembled program: the address tables, the definitions of the targets
/// and those of the dependencies, each in the order of their files.
#[derive(Clone, Debug, PartialEq, Eq)]
pub struct Program<D> {
    pub named_address_maps: NamedAddressMaps,
    pub source_definitions: Vec<PackageDefinition<D>>,
    pub lib_definitions: Vec<PackageDefinition<D>>,
}

/// The text of every file read in a run, by hash: its name and its text.
pub type FilesSourceText = FileTable<(String, String)>;

/// The comments of each target file, by hash.
pub type CommentMap = FileTable<Vec<Comment>>;

} // verus!
