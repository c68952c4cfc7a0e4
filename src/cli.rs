use vstd::prelude::*;

verus! {

/// Where the fighter records are read from and where the scores are written.
#[derive(Debug, Clone, PartialEq, Eq)]
pub struct Args {
    pub input: String,
    pub output: String,
}

} // verus!
