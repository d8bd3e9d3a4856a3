use vstd::prelude::*;

pub mod deps;
pub mod diff;
pub mod extract;
pub mod file_size;
pub mod graph;
pub mod language;
pub mod non_symbol_changes;
pub mod pipeline;
pub mod parse;
pub mod progress;
pub mod report;
pub mod sort;
pub mod syntax;
pub mod text;
pub mod tree;

verus! {

/// Adds two integers.
pub fn add(a: i32, b: i32) -> (sum: i32)
    requires
        i32::MIN <= a + b <= i32::MAX,
    ensures
        sum == a + b,
{
    a + b
}

} // verus!
