//! A small DNS server library: the wire format of DNS headers, questions and
//! answers, read from and written to byte buffers.
pub mod wire;
pub mod name;
pub mod answer;
pub mod dns;
pub mod field;
pub mod header;
pub mod ipv4;
pub mod message;
pub mod question;
pub mod server;
