use vstd::prelude::*;

pub mod dedup;
pub mod gun;
pub mod ham;
pub mod json;
pub mod plugins;
pub mod text;
pub mod util;

verus! {
}
