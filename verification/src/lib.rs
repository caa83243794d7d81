use vstd::prelude::*;

pub mod assembler;
pub mod interp;
pub mod isa;
pub mod listing;
pub mod reassembly;
pub mod text;
pub mod verify;
pub mod whitespace;

verus! {
}
