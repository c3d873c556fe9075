//! In-circuit Pedersen commitment machinery for a zero-knowledge proof system.
//!
//! The crate provides a windowed Pedersen commitment scheme and its
//! compressed variant as arithmetic-circuit gadgets: commitment parameters
//! are embedded into a constraint system (as constants, witnesses or public
//! inputs, with a subgroup check on every generator), a bit-string input and
//! a randomness bit sequence are folded into a group element inside the
//! circuit, and the compressed variant reduces the output to the point's
//! x-coordinate.  Alongside the gadgets stands the error taxonomy of the
//! binding-signature protocol built on these commitments.

pub mod binding_signature;
pub mod gadget;
pub mod group;
pub mod pedersen;
pub mod r1cs;
