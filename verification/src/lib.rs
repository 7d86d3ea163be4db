//! Streaming, resumable decoder and canonical encoder for the RESP wire
//! format (versions 2 and 3). Bytes arrive in arbitrary chunks; the parser
//! yields one fully formed protocol value per successful call, suspends on
//! incomplete input, and enforces limits on length, nesting depth and work
//! per call.

pub mod resp;
pub mod bytebuf;
pub mod laws;
pub mod numbers;
pub mod parser;
pub mod text;
