//! A Torah reader: references, book lookup, markup cleaning and the reading of
//! verse-service answers, with their contracts proved by Verus.

use vstd::prelude::*;

pub mod text;
pub mod unicode;
pub mod books;
pub mod reference;
pub mod html;
pub mod banner;
pub mod cli;
pub mod types;
pub mod json;
pub mod bolls;
pub mod resolver;

verus! {
} // verus!
