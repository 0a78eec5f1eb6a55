//! Byte-level parser combinators and the HTTP/1.1 grammar primitives built from them.
pub mod either;
pub mod parser;
pub mod http;
