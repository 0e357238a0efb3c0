//! Internal keys: a user key followed by an eight-byte trailer that packs the
//! sequence number and the value type.

use vstd::bytes::*;
use vstd::prelude::*;

use crate::coding::{append_bytes, decode_fixed64, put_fixed64};

verus! {

/// The largest sequence number: sequence numbers take 56 bits.
pub const MAX_SEQUENCE: u64 = 0x00ff_ffff_ffff_ffff;

/// The bytes of an internal key: the user key, then the little-endian 64-bit
/// word `sequence << 8 | value_type`.
pub open spec fn internal_key_bytes(user_key: Seq<u8>, sequence: u64, value_type: u8) -> Seq<u8> {
    user_key + spec_u64_to_le_bytes((sequence * 256 + value_type) as u64)
}

/// The trailer word of an internal key of at least eight bytes.
pub open spec fn key_trailer(bytes: Seq<u8>) -> u64 {
    spec_u64_from_le_bytes(bytes.subrange(bytes.len() - 8, bytes.len() as int))
}

/// A user key tagged with a sequence number and a value type.
#[derive(Debug)]
pub struct InternalKey {
    rep: Vec<u8>,
}

impl View for InternalKey {
    type V = Seq<u8>;

    closed spec fn view(&self) -> Seq<u8> {
        self.rep@
    }
}

impl InternalKey {
    /// The internal key of `user_key` written at `sequence` with `value_type`.
    pub fn new(user_key: &[u8], sequence: u64, value_type: u8) -> (r: InternalKey)
        requires
            sequence <= MAX_SEQUENCE,
        ensures
            r@ == internal_key_bytes(user_key@, sequence, value_type),
    {
        let mut rep: Vec<u8> = Vec::new();
        append_bytes(&mut rep, user_key);
        put_fixed64(&mut rep, sequence * 256 + value_type as u64);
        assert(rep@ =~= internal_key_bytes(user_key@, sequence, value_type));
        InternalKey { rep }
    }

    /// The internal key whose bytes are `bytes`.
    pub fn decode_from(bytes: &[u8]) -> (r: InternalKey)
        ensures
            r@ == bytes@,
    {
        InternalKey { rep: vstd::slice::slice_to_vec(bytes) }
    }

    /// The key's bytes.
    pub fn get_contents(&self) -> (r: &[u8])
        ensures
            r@ == self@,
    {
        self.rep.as_slice()
    }

    /// The user key: every byte before the trailer; `None` where the key is
    /// shorter than a trailer.
    pub fn user_key(&self) -> (r: Option<&[u8]>)
        ensures
            self@.len() >= 8 ==> (r matches Some(u) && u@ == self@.subrange(
                0,
                self@.len() - 8,
            )),
            self@.len() < 8 ==> r is None,
    {
        if self.rep.len() < 8 {
            return None;
        }
        Some(vstd::slice::slice_subrange(self.rep.as_slice(), 0, self.rep.len() - 8))
    }

    fn trailer(&self) -> (r: u64)
        requires
            self@.len() >= 8,
        ensures
            r == key_trailer(self@),
    {
        let tail = vstd::slice::slice_subrange(
            self.rep.as_slice(),
            self.rep.len() - 8,
            self.rep.len(),
        );
        assert(tail@.subrange(0, 8) =~= tail@);
        decode_fixed64(tail)
    }

    /// The sequence number in the trailer.
    pub fn sequence(&self) -> (r: Option<u64>)
        ensures
            self@.len() >= 8 ==> r == Some((key_trailer(self@) / 256) as u64),
            self@.len() < 8 ==> r is None,
    {
        if self.rep.len() < 8 {
            return None;
        }
        Some(self.trailer() / 256)
    }

    /// The value type code in the trailer.
    pub fn value_type_code(&self) -> (r: Option<u8>)
        ensures
            self@.len() >= 8 ==> r == Some((key_trailer(self@) % 256) as u8),
            self@.len() < 8 ==> r is None,
    {
        if self.rep.len() < 8 {
            return None;
        }
        Some((self.trailer() % 256) as u8)
    }
}

} // verus!
