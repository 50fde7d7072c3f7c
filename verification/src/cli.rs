//! Options shared by the commands.
use vstd::prelude::*;

verus! {

/// The paper a print sheet is laid out on.
#[derive(PartialEq, Eq, Structural, Clone, Copy, Debug)]
pub enum PaperSize {
    A4,
    Letter,
}

} // verus!
