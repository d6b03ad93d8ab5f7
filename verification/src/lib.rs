//! A filtering DNS proxy core: wire-format codec with name compression,
//! a label-trie blocklist with wildcard entries, a TTL-decaying response
//! cache, and the per-request decision pipeline.

pub mod blocklist;
pub mod cache;
pub mod label;
pub mod compression;
pub mod datagram;
pub mod enums;
pub mod header;
pub mod name;
pub mod question;
pub mod responder;
pub mod resource_record;

use vstd::prelude::*;

verus! {

/// Reasons a wire message is rejected by the decoder.
#[derive(Clone, Copy, Debug, PartialEq, Eq, Structural)]
pub enum DecodeError {
    /// A label violates the alphanumeric/hyphen rule.
    LabelInvalid,
    /// The input ended before the structure it declares.
    Truncated,
    /// Following compression pointers exceeded the recursion budget.
    PointerLoop,
    /// A name's encoded form exceeds 255 bytes.
    NameTooLong,
}

} // verus!
