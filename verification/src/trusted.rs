//! The few places where this crate relies on code it does not verify.

use crate::node::LinkFollower;
use std::sync::Arc;
use vstd::prelude::*;
use vstd::utf8::encode_utf8;

verus! {

/// Whether a byte is written as an escape: the control bytes, everything
/// past `~`, and space, `"`, `#`, `<`, `>`, `` ` ``, `?`, `{` and `}`.
pub open spec fn is_escaped(byte: u8) -> bool {
    byte < 0x20 || byte > 0x7E || byte == 0x20 || byte == 0x22 || byte == 0x23 || byte == 0x3C
        || byte == 0x3E || byte == 0x60 || byte == 0x3F || byte == 0x7B || byte == 0x7D
}

/// The upper-case hexadecimal digit for a value below sixteen.
pub open spec fn hex_digit(value: int) -> char {
    if value == 0 {
        '0'
    } else if value == 1 {
        '1'
    } else if value == 2 {
        '2'
    } else if value == 3 {
        '3'
    } else if value == 4 {
        '4'
    } else if value == 5 {
        '5'
    } else if value == 6 {
        '6'
    } else if value == 7 {
        '7'
    } else if value == 8 {
        '8'
    } else if value == 9 {
        '9'
    } else if value == 10 {
        'A'
    } else if value == 11 {
        'B'
    } else if value == 12 {
        'C'
    } else if value == 13 {
        'D'
    } else if value == 14 {
        'E'
    } else {
        'F'
    }
}

/// One byte as it stands in a percent-encoded text: `%` and two hexadecimal
/// digits where it is escaped, else the ASCII character itself.
pub open spec fn escaped_byte(byte: u8) -> Seq<char> {
    if is_escaped(byte) {
        seq!['%', hex_digit(byte as int / 16), hex_digit(byte as int % 16)]
    } else {
        seq![byte as char]
    }
}

/// The bytes, each escaped where needed, in order.
pub open spec fn percent_encoded(bytes: Seq<u8>) -> Seq<char>
    decreases bytes.len(),
{
    if bytes.len() == 0 {
        Seq::empty()
    } else {
        percent_encoded(bytes.drop_last()) + escaped_byte(bytes.last())
    }
}

/// Calls `percent_encoding::utf8_percent_encode` with `DEFAULT_ENCODE_SET`
/// and writes the result out as a string.
///
/// Taken on trust: the result is `percent_encoded` of the UTF-8 bytes of the
/// text.  The outside crate walks those bytes, replaces each byte of the set
/// by `%` and its two upper-case hexadecimal digits, and copies every other
/// byte, which is ASCII then.
#[verifier::external_body]
pub(crate) fn percent_encode(text: &str) -> (encoded: String)
    ensures
        encoded@ == percent_encoded(encode_utf8(text@)),
{
    percent_encoding::utf8_percent_encode(text, percent_encoding::DEFAULT_ENCODE_SET).to_string()
}

/// Calls `Arc::clone` for a second handle to a shared node.
///
/// Taken on trust: the new handle points at the allocation of the old one,
/// so both denote the same node.
#[verifier::external_body]
pub(crate) fn share(node: &Arc<LinkFollower>) -> (handle: Arc<LinkFollower>)
    ensures
        handle == *node,
{
    Arc::clone(node)
}

/// `<u32 as Hash>::hash`, which feeds an integer to a hasher.  Nothing is
/// claimed of it: a hasher has no model here, so the call is merely allowed.
pub assume_specification<H: std::hash::Hasher>[ <u32 as std::hash::Hash>::hash ](
    value: &u32,
    state: &mut H,
);

} // verus!
