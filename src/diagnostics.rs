//! Diagnostics, their severities, and the compilation environment that
//! accumulates them and carries the run's flags.
use crate::hash::FileHash;
use vstd::prelude::*;

verus! {

/// How serious a diagnostic is, from least to most.
#[derive(Clone, Copy, Debug, PartialEq, Eq, Structural)]
pub enum Severity {
    Warning,
    NonblockingError,
    BlockingError,
    Bug,
}

impl Severity {
    /// The position of a severity in the order Warning < NonblockingError <
    /// BlockingError < Bug.
    pub open spec fn level(self) -> nat {
        match self {
            Severity::Warning => 0,
            Severity::NonblockingError => 1,
            Severity::BlockingError => 2,
            Severity::Bug => 3,
        }
    }

    /// Whether this severity meets or exceeds `floor`.
    pub fn is_at_or_above(&self, floor: Severity) -> (r: bool)
        ensures
            r == (self.level() >= floor.level()),
    {
        let a: u8 = match self {
            Severity::Warning => 0,
            Severity::NonblockingError => 1,
            Severity::BlockingError => 2,
            Severity::Bug => 3,
        };
        let b: u8 = match floor {
            Severity::Warning => 0,
            Severity::NonblockingError => 1,
            Severity::BlockingError => 2,
            Severity::Bug => 3,
        };
        a >= b
    }
}

/// A span of a file: byte offsets `start..end` in the file with hash `file_hash`.
#[derive(Clone, Copy, Debug, PartialEq, Eq)]
pub struct Loc {
    pub file_hash: FileHash,
    pub start: usize,
    pub end: usize,
}

/// One diagnostic entry.
#[derive(Clone, Debug, PartialEq, Eq)]
pub struct Diagnostic {
    pub severity: Severity,
    pub loc: Loc,
    pub message: String,
}

/// Whether some entry of `ds` has a severity at or above `floor`.
pub open spec fn any_at_or_above(ds: Seq<Diagnostic>, floor: Severity) -> bool {
    exists|i: int| 0 <= i < ds.len() && (#[trigger] ds[i]).severity.level() >= floor.level()
}

/// A collection of diagnostics, in the order they were reported.
#[derive(Clone, Debug, PartialEq, Eq)]
pub struct Diagnostics {
    entries: Vec<Diagnostic>,
}

impl View for Diagnostics {
    type V = Seq<Diagnostic>;

    closed spec fn view(&self) -> Seq<Diagnostic> {
        self.entries@
    }
}

impl Diagnostics {
    /// No diagnostics.
    pub fn new() -> (r: Diagnostics)
        ensures
            r@ == Seq::<Diagnostic>::empty(),
    {
        Diagnostics { entries: Vec::new() }
    }

    /// The diagnostics of `entries`, in order.
    pub fn from_vec(entries: Vec<Diagnostic>) -> (r: Diagnostics)
        ensures
            r@ == entries@,
    {
        Diagnostics { entries }
    }

    /// The entries, in order.
    pub fn entries(&self) -> (r: &Vec<Diagnostic>)
        ensures
            r@ == self@,
    {
        &self.entries
    }

    pub fn len(&self) -> (r: usize)
        ensures
            r == self@.len(),
    {
        self.entries.len()
    }

    pub fn is_empty(&self) -> (r: bool)
        ensures
            r == (self@.len() == 0),
    {
        self.entries.len() == 0
    }

    /// Adds one entry.
    pub fn add(&mut self, d: Diagnostic)
        ensures
            final(self)@ == old(self)@.push(d),
    {
        self.entries.push(d);
    }

    /// Adds every entry of `other`, after those already here.
    pub fn extend(&mut self, other: Diagnostics)
        ensures
            final(self)@ == old(self)@ + other@,
    {
        let mut o = other.entries;
        self.entries.append(&mut o);
    }

    /// Whether some entry meets or exceeds `floor`.
    pub fn has_at_or_above(&self, floor: Severity) -> (r: bool)
        ensures
            r == any_at_or_above(self@, floor),
    {
        let mut i: usize = 0;
        while i < self.entries.len()
            invariant
                0 <= i <= self.entries@.len(),
                forall|j: int| 0 <= j < i ==> (#[trigger] self.entries@[j]).severity.level() < floor.level(),
            decreases self.entries@.len() - i,
        {
            if self.entries[i].severity.is_at_or_above(floor) {
                return true;
            }
            i = i + 1;
        }
        false
    }
}

/// The state of one compilation run: its flags and the diagnostics that
/// earlier work of the run has reported.
pub struct CompilationEnv {
    sources_shadow_deps: bool,
    diags: Diagnostics,
}

impl CompilationEnv {
    /// A fresh environment with no diagnostics.
    pub fn new(sources_shadow_deps: bool) -> (r: CompilationEnv)
        ensures
            r.spec_sources_shadow_deps() == sources_shadow_deps,
            r.spec_diags() == Seq::<Diagnostic>::empty(),
    {
        CompilationEnv { sources_shadow_deps, diags: Diagnostics::new() }
    }

    pub closed spec fn spec_sources_shadow_deps(&self) -> bool {
        self.sources_shadow_deps
    }

    pub closed spec fn spec_diags(&self) -> Seq<Diagnostic> {
        self.diags@
    }

    /// Whether a file listed both as a target and as a dependency is dropped
    /// from the dependencies rather than refused.
    pub fn sources_shadow_deps(&self) -> (r: bool)
        ensures
            r == self.spec_sources_shadow_deps(),
    {
        self.sources_shadow_deps
    }

    /// The diagnostics accumulated so far.
    pub fn diags(&self) -> (r: &Diagnostics)
        ensures
            r@ == self.spec_diags(),
    {
        &self.diags
    }

    /// Records diagnostics reported during the run.
    pub fn add_diags(&mut self, ds: Diagnostics)
        ensures
            final(self).spec_diags() == old(self).spec_diags() + ds@,
            final(self).spec_sources_shadow_deps() == old(self).spec_sources_shadow_deps(),
    {
        self.diags.extend(ds);
    }

    /// Fails with every accumulated diagnostic, which leaves the environment,
    /// when one of them meets or exceeds `floor`; else changes nothing.
    pub fn check_diags_at_or_above_severity(&mut self, floor: Severity) -> (r: Result<(), Diagnostics>)
        ensures
            final(self).spec_sources_shadow_deps() == old(self).spec_sources_shadow_deps(),
            any_at_or_above(old(self).spec_diags(), floor) ==> (r matches Err(ds) && ds@
                == old(self).spec_diags() && final(self).spec_diags() == Seq::<Diagnostic>::empty()),
            !any_at_or_above(old(self).spec_diags(), floor) ==> r is Ok && final(self).spec_diags() == old(self).spec_diags(),
    {
        if self.diags.has_at_or_above(floor) {
            let mut taken = Diagnostics::new();
            std::mem::swap(&mut taken, &mut self.diags);
            Err(taken)
        } else {
            Ok(())
        }
    }
}

} // verus!
