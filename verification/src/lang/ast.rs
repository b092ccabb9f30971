use vstd::prelude::*;

verus! {

/// What the front end knows of where a node of the syntax tree came from.
#[derive(Debug, Clone, Copy)]
pub struct SyntaxInfo {}

impl Default for SyntaxInfo {
    /// No information.
    fn default() -> (info: Self)
        ensures
            info == (SyntaxInfo {  }),
    {
        SyntaxInfo {  }
    }
}

} // verus!
