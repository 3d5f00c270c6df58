pub mod digits;
pub mod pattern;
pub mod pattern_search;
pub mod soundness;
pub mod completeness;
