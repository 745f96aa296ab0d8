//! The host operating system family, which decides line endings, name comparison and
//! keyboard encodings.
use vstd::prelude::*;

verus! {

/// The operating system family that FuncTerm runs on.
#[derive(Debug, Clone, Copy, PartialEq, Eq, Structural)]
pub enum Platform {
    /// Linux, macOS and the other Unix-like systems.
    Unix,
    /// Microsoft Windows.
    Windows,
}

} // verus!
