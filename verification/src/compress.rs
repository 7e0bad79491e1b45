//! Compression of blocks, in the Snappy format without framing.

use vstd::prelude::*;

verus! {

/// Declares `snap::Error`, the error of the Snappy encoder and decoder. A
/// value of it is carried through and never looked into.
#[verifier::external_type_specification]
#[verifier::external_body]
pub struct ExSnapError(snap::Error);

/// What the Snappy encoder makes of `data`.
pub uninterp spec fn snappy_encoded(data: Seq<u8>) -> Seq<u8>;

/// What the Snappy decoder makes of `data`: nothing where `data` is no
/// compressed block.
pub uninterp spec fn snappy_decoded(data: Seq<u8>) -> Option<Seq<u8>>;

/// The most bytes that compressing `len` bytes can give.
pub open spec fn max_encoded_len(len: nat) -> nat {
    32 + len + len / 6
}

/// True if the encoder takes an input of `len` bytes: the most that it can
/// give must fit in 32 bits.
pub open spec fn encodable_len(len: nat) -> bool {
    max_encoded_len(len) <= u32::MAX
}

/// True if decompressing what `data` compresses to gives `data` back. The
/// decoder undoes the encoder, so this holds of all data; what compresses
/// data says so of the data that it was given.
pub open spec fn round_trips(data: Seq<u8>) -> bool {
    snappy_decoded(snappy_encoded(data)) == Some(data)
}

/// Calls `snap::raw::Encoder::compress_vec` on a new encoder. It fails only
/// on an input that is too long; what it gives is taken to be a function of
/// the input alone, is no longer than `max_compress_len` allows, and is what
/// the decoder turns back into the input.
#[verifier::external_body]
pub(crate) fn snappy_compress(data: &[u8]) -> (r: Result<Vec<u8>, snap::Error>)
    ensures
        r is Ok <==> encodable_len(data@.len()),
        r matches Ok(packed) ==> {
            &&& packed@ == snappy_encoded(data@)
            &&& packed@.len() <= max_encoded_len(data@.len())
            &&& round_trips(data@)
        },
{
    snap::raw::Encoder::new().compress_vec(data)
}

/// Calls `snap::raw::Decoder::decompress_vec` on a new decoder. Whether it
/// succeeds and what it gives are taken to be a function of the input alone.
#[verifier::external_body]
pub(crate) fn snappy_decompress(data: &[u8]) -> (r: Result<Vec<u8>, snap::Error>)
    ensures
        r is Ok <==> snappy_decoded(data@) is Some,
        r matches Ok(plain) ==> snappy_decoded(data@) == Some(plain@),
{
    snap::raw::Decoder::new().decompress_vec(data)
}

} // verus!
