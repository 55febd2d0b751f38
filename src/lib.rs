//! Conversion of JSON records into delimiter-separated text.
//!
//! [`json`] models a decoded JSON value; [`project`] renders the header line
//! and one line per record; [`decode`] holds the calls into `serde_json`
//! that decode the input; [`convert`] drives a whole conversion in either
//! decoding mode; [`theorems`] states what holds of every conversion.

pub mod json;
pub mod project;
pub mod decode;
pub mod convert;
pub mod theorems;
