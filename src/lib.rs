#![allow(non_snake_case)]

use vstd::prelude::*;

pub mod dlink;
pub mod pentomino;
pub mod solve;
pub mod solution;
pub mod parse;
pub mod cmd;

verus! {

} // verus!
