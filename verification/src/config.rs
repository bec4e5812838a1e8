//! Run-wide options and the policies derived from them.

use vstd::prelude::*;

use crate::strutil::clone_vec_string;

verus! {

/// The options a run of the operator is configured with. Command-line parsing
/// happens outside this crate; the parsed values land here.
#[derive(Debug)]
pub struct Options {
    /// Debugging mode: banner on startup, implies verbose.
    pub debug: bool,
    /// Verbose output: per-probe start lines from the waiter.
    pub verbose: bool,
    /// Quiet mode: only required output; ignored when verbose.
    pub quiet: bool,
    /// Task files to load, in order, ahead of the inline specifiers.
    pub files: Vec<String>,
    /// Inline process specifiers.
    pub specs: Vec<String>,
}

/// What a copied options record keeps: every flag and both lists.
pub open spec fn spec_opts_same(a: Options, b: Options) -> bool {
    &&& a.debug == b.debug
    &&& a.verbose == b.verbose
    &&& a.quiet == b.quiet
    &&& a.files@ == b.files@
    &&& a.specs@ == b.specs@
}

impl Clone for Options {
    /// A clone carries the same options.
    fn clone(&self) -> (r: Self)
        ensures
            spec_opts_same(r, *self),
    {
        Options {
            debug: self.debug,
            verbose: self.verbose,
            quiet: self.quiet,
            files: clone_vec_string(&self.files),
            specs: clone_vec_string(&self.specs),
        }
    }
}

impl Options {
    pub fn new() -> (r: Options)
        ensures
            !r.debug,
            !r.verbose,
            !r.quiet,
            r.files@.len() == 0,
            r.specs@.len() == 0,
    {
        Options { debug: false, verbose: false, quiet: false, files: Vec::new(), specs: Vec::new() }
    }

    pub fn debug(&self) -> (r: bool)
        ensures
            r == self.debug,
    {
        self.debug
    }

    /// Debug mode implies verbose output.
    pub fn verbose(&self) -> (r: bool)
        ensures
            r == (self.debug || self.verbose),
    {
        self.debug || self.verbose
    }

    /// Quiet only counts when verbose output was not requested.
    pub fn quiet(&self) -> (r: bool)
        ensures
            r == (self.quiet && !(self.debug || self.verbose)),
    {
        self.quiet && !self.verbose()
    }

    /// Child output is prefixed with the process key unless the run is quiet.
    pub fn prefix(&self) -> (r: bool)
        ensures
            r == !(self.quiet && !(self.debug || self.verbose)),
    {
        !self.quiet()
    }
}

} // verus!
