//! Small higher-order utilities: `any`, `count`, `find` and `map` over
//! sequences, and `find_keys` over a string-keyed mapping. Each function
//! takes a caller-supplied predicate or transform and applies it element
//! by element; the contracts pin down the result for every predicate.

pub mod collection;
pub mod find_keys;
