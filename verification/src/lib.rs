//! The verified core of FuncTerm: shell quoting, keyboard encoding, environment
//! assembly and the small decisions of the daemon and the shims.
use vstd::prelude::*;

pub mod daemon;
pub mod drivers;
pub mod environment;
pub mod keyboard;
pub mod output;
pub mod platform;
pub mod quote;
pub mod request;
pub mod routing;
pub mod shell;
pub mod shims;
pub mod text;
pub mod variables;

verus! {
} // verus!
