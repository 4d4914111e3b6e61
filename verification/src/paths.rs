//! File paths, carried through as the system gives them: the library never
//! looks into a path, it only keeps it and hands it back.

use std::path::PathBuf;
use vstd::prelude::*;

verus! {

/// A path of `std`, carried through as it is.
#[verifier::external_type_specification]
#[verifier::external_body]
pub struct ExPathBuf(std::path::PathBuf);

/// `PathBuf::clone` gives a path equal to the one it was called on.
pub assume_specification[ <PathBuf as Clone>::clone ](path: &PathBuf) -> (out: PathBuf)
    ensures
        out == *path,
;

} // verus!
