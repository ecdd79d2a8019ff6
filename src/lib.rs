//! Wire-format codec for DNS messages: a bit-granular reader, the label
//! codec for domain names (with compression pointers), and the header,
//! question, answer and message codecs built on them.

pub mod error;
pub mod bits;
pub mod writer;
pub mod name;
pub mod header;
pub mod question;
pub mod answer;
pub mod message;
pub mod roundtrip;
