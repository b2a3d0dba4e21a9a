//! Colourised rendering of an HTTP response for a terminal: the status line,
//! the header block and the body, with JSON bodies pretty-printed.
//!
//! Every renderer appends to a byte buffer and is specified by a function
//! from its inputs to the text that it appends. What holds of those texts
//! whatever the input is proved in `laws`, `indent` and `roundtrip`.

pub mod display;
pub mod error;
pub mod grammar;
pub mod headers;
pub mod indent;
pub mod laws;
pub mod media;
pub mod opt;
pub mod roundtrip;
pub mod text;
pub mod theme;
pub mod value;
