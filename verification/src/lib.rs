//! The request pipeline of a web application firewall that stands in front
//! of one origin: it reads the head of an HTTP/1.1 request within bounds of
//! size and time, parses it, inspects it for the patterns of common attacks,
//! limits the rate of each source address, and says for every connection what
//! is to be done next.
//!
//! - [`text`]: scanning and matching on sequences of characters.
//! - [`http`]: the request model and its parser.
//! - [`engine`]: normalisation and the signature-based verdict.
//! - [`limiter`]: token buckets, kept in shards.
//! - [`pipeline`]: the connection as a state machine, and the answers that
//!   the firewall gives itself.
//!
//! The library does no input or output and reads no clock. The caller owns
//! the sockets, the locks and the time, and hands in bytes and nanoseconds.
//!
//! Every function is verified against a contract over mathematical models:
//! text is a `Seq<char>`, raw input a `Seq<u8>`, and the header table and the
//! buckets of the limiter are `Map`s. What is taken on trust of code outside
//! the library says so in its documentation.

pub mod engine;
pub mod http;
pub mod limiter;
pub mod pipeline;
pub mod text;
