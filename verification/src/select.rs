//! Choosing source files by a glob pattern on their file names.
use vstd::prelude::*;
use crate::index::IndexError;
use crate::text::chars_of;

verus! {

#[verifier::external_type_specification]
#[verifier::external_body]
pub struct ExGlobPatternError(glob::PatternError);

#[verifier::external_type_specification]
#[verifier::external_body]
pub struct ExGlobPattern(glob::Pattern);

/// Whether `glob::Pattern::new` accepts the pattern.
pub uninterp spec fn glob_valid(pattern: Seq<char>) -> bool;

/// Whether the glob pattern matches the name, as `glob::Pattern::matches` decides it.
pub uninterp spec fn glob_match(pattern: Seq<char>, name: Seq<char>) -> bool;

/// Calls `glob::Pattern::new`; it succeeds exactly on valid patterns.
#[verifier::external_body]
fn glob_compile(pattern: &str) -> (res: Result<glob::Pattern, glob::PatternError>)
    ensures
        res is Ok <==> glob_valid(pattern@),
{
    glob::Pattern::new(pattern)
}

/// Compiles a valid pattern with `glob::Pattern::new` and calls
/// `glob::Pattern::matches` on the name.
#[verifier::external_body]
fn glob_matches(pattern: &str, name: &str) -> (res: bool)
    requires
        glob_valid(pattern@),
    ensures
        res == glob_match(pattern@, name@),
{
    match glob::Pattern::new(pattern) {
        Ok(p) => p.matches(name),
        Err(_) => false,
    }
}

/// A valid glob pattern for file names.
pub struct FilePattern {
    source: String,
}

impl FilePattern {
    #[verifier::type_invariant]
    spec fn well_formed(self) -> bool {
        glob_valid(self.source@)
    }

    /// The pattern's text.
    pub closed spec fn pattern(self) -> Seq<char> {
        self.source@
    }

    /// Checks a glob pattern; an invalid one is an error.
    pub fn new(pattern: &str) -> (res: Result<FilePattern, IndexError>)
        ensures
            match res {
                Ok(p) => p.pattern() == pattern@ && glob_valid(pattern@),
                Err(e) => e == IndexError::Pattern && !glob_valid(pattern@),
            },
    {
        match glob_compile(pattern) {
            Ok(_) => {
                let cs = chars_of(pattern);
                let source = crate::text::string_from_chars(cs.as_slice());
                Ok(FilePattern { source })
            },
            Err(_) => Err(IndexError::Pattern),
        }
    }

    /// Whether a file name matches the pattern.
    pub fn matches(&self, name: &str) -> (res: bool)
        ensures
            res == glob_match(self.pattern(), name@),
    {
        proof {
            use_type_invariant(self);
        }
        glob_matches(self.source.as_str(), name)
    }
}

} // verus!
