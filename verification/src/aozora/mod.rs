//! Reading the plain texts of Aozora Bunko.
use vstd::prelude::*;

pub mod kept_lines;
pub mod kept_text;
pub mod line;
pub mod notation;
pub mod parser_txt;

verus! {

} // verus!
