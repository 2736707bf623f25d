//! Lexical front end for a small dynamically-typed scripting language.
//!
//! The scanner makes a single left-to-right pass over a byte buffer,
//! classifies maximal-munch lexemes (punctuation, one/two-character
//! operators, comments, string literals, numeric literals, identifiers and
//! reserved keywords), tracks line numbers for diagnostics, and always
//! terminates the token stream with an `EOF` sentinel. Scanning never fails:
//! errors are reported through a collaborator and the pass continues.

use vstd::prelude::*;

pub mod grammar;
pub mod laws;
pub mod scanner;
pub mod token;

use vstd::string::StringSliceAdditionalSpecFns;

use crate::scanner::{Reporter, ScanError, Scanner};

verus! {

/// Driver state for one run of the pipeline: a sticky flag that records
/// whether any scanning error was reported.
pub struct Lox {
    pub has_error: bool,
}

impl Reporter for Lox {
    /// The sticky error signal is the driver's `has_error` flag.
    open spec fn error_seen(&self) -> bool {
        self.has_error
    }

    /// Record that an error occurred; display is left to the surrounding
    /// layer.
    fn report(&mut self, error: ScanError) {
        self.has_error = true;
    }
}

impl Lox {
    /// Scan one piece of source, reporting its diagnostics to this driver:
    /// afterwards `has_error` is set exactly when it already was or the
    /// source scans with an error.
    pub fn run(&mut self, code: &str)
        ensures
            final(self).has_error == (old(self).has_error || crate::grammar::scan_model(
                code.spec_bytes(),
            ).errors.len() > 0),
    {
        let _tokens = Scanner::scan(self, code);
    }
}

} // verus!
