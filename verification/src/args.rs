//! The options of a compilation.

use vstd::prelude::*;

verus! {

/// The options of a compilation: the file to which the code vector of the
/// program's main lambda is written, if any.
pub struct CompilationArgs {
    pub export_vector_file: Option<String>,
}

} // verus!
