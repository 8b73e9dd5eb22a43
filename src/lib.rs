//! Loader for colon-delimited `key: value` parameter files.
//!
//! The text of a parameter file is split into lines, each line into a key and
//! a value at its first colon, and each value is converted to the type of the
//! field that its key names. What the loader returns is stated exactly by spec
//! functions in `text`, `number` and `params`; `laws` proves its properties.
pub mod text;
pub mod number;
pub mod params;
pub mod laws;
pub mod summary;
