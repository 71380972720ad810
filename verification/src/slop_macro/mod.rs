//! The decisions of the `slop` attribute: the checks it makes on a
//! declaration and the shape of the code it generates for it.
pub mod delegating;
pub mod frontend;
pub mod panicking;
pub mod reader;
