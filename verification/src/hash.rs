//! The hash that names a block: the BLAKE2b digest of its bytes, in hex.

use vstd::prelude::*;

verus! {

/// Use the maximum 64-byte hash.
pub const BLAKE_HASH_SIZE_BYTES: usize = 64;

/// The number of characters of a block's hash: two for each byte of the digest.
pub const BLOCK_HASH_CHARS: usize = 128;

/// The unkeyed BLAKE2b digest of `data` with an output of `nn` bytes.
pub uninterp spec fn blake2b_output(nn: nat, data: Seq<u8>) -> Seq<u8>;

/// The character that stands for `nibble` in lowercase hex.
pub open spec fn hex_char(nibble: int) -> char {
    seq!['0', '1', '2', '3', '4', '5', '6', '7', '8', '9', 'a', 'b', 'c', 'd', 'e', 'f'][nibble]
}

/// True for the sixteen characters of lowercase hex.
pub open spec fn is_hex_char(c: char) -> bool {
    ('0' <= c && c <= '9') || ('a' <= c && c <= 'f')
}

/// The lowercase hex encoding of `bytes`: two characters for each byte, the
/// high half first.
pub open spec fn hex_digits(bytes: Seq<u8>) -> Seq<char> {
    Seq::new(
        2 * bytes.len(),
        |i: int|
            hex_char(
                if i % 2 == 0 {
                    bytes[i / 2] as int / 16
                } else {
                    bytes[i / 2] as int % 16
                },
            ),
    )
}

/// The hash of a block that holds `data`.
pub open spec fn block_hash(data: Seq<u8>) -> Seq<char> {
    hex_digits(blake2b_output(BLAKE_HASH_SIZE_BYTES as nat, data))
}

/// True if the digest of `data` has its 64 bytes. The digest function gives
/// as many bytes as it is asked for, so this holds of all data; what hashes
/// data says so of the data that it was given.
pub open spec fn has_digest(data: Seq<u8>) -> bool {
    blake2b_output(BLAKE_HASH_SIZE_BYTES as nat, data).len() == BLAKE_HASH_SIZE_BYTES
}

/// True if `hash` has the form of a block's hash: 128 characters of lowercase hex.
pub open spec fn is_block_hash(hash: Seq<char>) -> bool {
    hash.len() == BLOCK_HASH_CHARS && forall|i: int| 0 <= i < hash.len() ==> is_hex_char(hash[i])
}

/// Calls `blake2_rfc::blake2b::blake2b` without a key. The digest that comes
/// back is taken to be a function of `nn` and the data alone, and to have
/// `nn` bytes. Outside 1 to 64 the call panics.
#[verifier::external_body]
fn blake2b_digest(nn: usize, data: &[u8]) -> (digest: Vec<u8>)
    requires
        1 <= nn <= 64,
    ensures
        digest@ == blake2b_output(nn as nat, data@),
        digest@.len() == nn,
{
    blake2_rfc::blake2b::blake2b(nn, &[], data).as_bytes().to_vec()
}

/// Calls `hex::encode`, which writes each byte as two characters of
/// lowercase hex, the high half first.
#[verifier::external_body]
fn hex_encode(bytes: &[u8]) -> (text: String)
    ensures
        text@ == hex_digits(bytes@),
{
    hex::encode(bytes)
}

/// The hex encoding of any bytes is made of hex characters only.
pub proof fn lemma_hex_digits(bytes: Seq<u8>)
    ensures
        hex_digits(bytes).len() == 2 * bytes.len(),
        forall|i: int| 0 <= i < hex_digits(bytes).len() ==> is_hex_char(#[trigger] hex_digits(bytes)[i]),
{
    assert forall|i: int| 0 <= i < hex_digits(bytes).len() implies is_hex_char(
        #[trigger] hex_digits(bytes)[i],
    ) by {
        let b = bytes[i / 2] as int;
        let n = if i % 2 == 0 {
            b / 16
        } else {
            b % 16
        };
        assert(0 <= n < 16);
        assert(hex_digits(bytes)[i] == hex_char(n));
        lemma_hex_char(n);
    }
}

/// Each of the sixteen values has a hex character.
pub proof fn lemma_hex_char(n: int)
    requires
        0 <= n < 16,
    ensures
        is_hex_char(hex_char(n)),
{
    let table = seq!['0', '1', '2', '3', '4', '5', '6', '7', '8', '9', 'a', 'b', 'c', 'd', 'e', 'f'];
    assert(table[0] == '0' && table[1] == '1' && table[2] == '2' && table[3] == '3');
    assert(table[4] == '4' && table[5] == '5' && table[6] == '6' && table[7] == '7');
    assert(table[8] == '8' && table[9] == '9' && table[10] == 'a' && table[11] == 'b');
    assert(table[12] == 'c' && table[13] == 'd' && table[14] == 'e' && table[15] == 'f');
}

/// The hash of any data has the form of a block's hash.
pub proof fn lemma_block_hash_form(data: Seq<u8>)
    requires
        has_digest(data),
    ensures
        is_block_hash(block_hash(data)),
{
    lemma_hex_digits(blake2b_output(BLAKE_HASH_SIZE_BYTES as nat, data));
}

/// The hash of `in_buf`, as the name of the block that holds it.
pub fn hash_bytes(in_buf: &[u8]) -> (hash: String)
    ensures
        hash@ == block_hash(in_buf@),
        is_block_hash(hash@),
        has_digest(in_buf@),
{
    let digest = blake2b_digest(BLAKE_HASH_SIZE_BYTES, in_buf);
    proof {
        lemma_block_hash_form(in_buf@);
    }
    hex_encode(digest.as_slice())
}

} // verus!
