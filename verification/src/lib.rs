//! A verified DNS wire-format codec and iterative resolver core.
//!
//! The crate models classic 512-byte UDP DNS messages: a bounded byte buffer
//! with compression-aware domain-name decoding, codecs for the header,
//! question and resource-record layouts, whole-packet assembly, and the
//! pure delegation-walking decision logic of a recursive resolver.

pub mod addr;
pub mod byte_packet;
pub mod dns_header;
pub mod dns_question;
pub mod dns_packet;
pub mod dns_record;
pub mod err;
pub mod query_type;
pub mod res_code;
pub mod resolver;
