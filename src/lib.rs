use vstd::prelude::*;

pub mod text;
pub mod outside;
pub mod artifact;
pub mod utils;
pub mod bloaty;
pub mod go;
pub mod go_symbol;
pub mod object;

verus! {

} // verus!
