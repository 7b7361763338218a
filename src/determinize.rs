//! Options of determinization.
use vstd::prelude::*;

verus! {

/// How determinization treats the outputs of a transducer.
#[derive(Clone, Copy, Debug, PartialEq, Eq, PartialOrd, Structural)]
pub enum DeterminizeType {
    /// The input transducer is known to be functional (or an error is raised).
    DeterminizeFunctional,
    /// The input transducer is not known to be functional.
    DeterminizeNonFunctional,
    /// The input transducer is not known to be functional; only the smallest
    /// of ambiguous outputs is kept.
    DeterminizeDisambiguate,
}

} // verus!
