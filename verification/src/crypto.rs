//! Trusted interface to the hashing, AEAD and compression primitives.
//!
//! Each wrapper names or states what the outside call returns; the chunk
//! pipeline in the tree module is verified against these contracts.

use blake2::{Blake2s256, Digest};
use std::io::Read;
use chacha20poly1305::aead::{Aead, OsRng};
use chacha20poly1305::{AeadCore, ChaCha20Poly1305, KeyInit};
use vstd::prelude::*;

use crate::backend::HatError;

verus! {

/// The cryptographic digest of the given bytes: a pure function of the
/// data alone, named rather than spelled out.
pub uninterp spec fn hash_of(data: Seq<u8>) -> Seq<u8>;

/// What AEAD decryption yields for a given key, nonce and ciphertext: a
/// pure function of its three inputs.
pub uninterp spec fn aead_open_spec(key: Seq<u8>, nonce: Seq<u8>, ct: Seq<u8>) -> Option<Seq<u8>>;

/// What Snappy decompression yields for the given bytes.
pub uninterp spec fn snappy_unpack_spec(data: Seq<u8>) -> Option<Seq<u8>>;

/// What gzip decompression yields for the given bytes.
pub uninterp spec fn gzip_unpack_spec(data: Seq<u8>) -> Option<Seq<u8>>;

/// Relies on `blake2::Blake2s256`: a deterministic 32-byte digest of the
/// input bytes.
#[verifier::external_body]
pub(crate) fn hash_bytes(data: &Vec<u8>) -> (r: Vec<u8>)
    ensures
        r@ == hash_of(data@),
        r@.len() == 32,
{
    let mut h = Blake2s256::new();
    h.update(&data[..]);
    h.finalize().to_vec()
}

/// Relies on `chacha20poly1305::ChaCha20Poly1305`: encrypts under a fresh
/// random 12-byte nonce; per RFC 8439, decrypting the result with the
/// same key and nonce yields the plaintext again.
#[verifier::external_body]
pub(crate) fn aead_seal(key: &Vec<u8>, pt: &Vec<u8>) -> (r: Result<(Vec<u8>, Vec<u8>), HatError>)
    requires
        key@.len() == 32,
    ensures
        r matches Ok((nonce, ct)) ==> {
            &&& nonce@.len() == 12
            &&& aead_open_spec(key@, nonce@, ct@) == Some(pt@)
        },
{
    let cipher = match ChaCha20Poly1305::new_from_slice(&key[..]) {
        Ok(c) => c,
        Err(_) => {
            return Err(HatError::Integrity);
        },
    };
    let nonce = ChaCha20Poly1305::generate_nonce(&mut OsRng);
    match cipher.encrypt(&nonce, &pt[..]) {
        Ok(ct) => Ok((nonce.to_vec(), ct)),
        Err(_) => Err(HatError::Integrity),
    }
}

/// Relies on `chacha20poly1305::ChaCha20Poly1305`: decryption is a pure
/// function of key, nonce and ciphertext, failing on any forgery.
#[verifier::external_body]
pub(crate) fn aead_open(key: &Vec<u8>, nonce: &Vec<u8>, ct: &Vec<u8>) -> (r: Option<Vec<u8>>)
    requires
        key@.len() == 32,
        nonce@.len() == 12,
    ensures
        r.deep_view() == aead_open_spec(key@, nonce@, ct@),
{
    let cipher = match ChaCha20Poly1305::new_from_slice(&key[..]) {
        Ok(c) => c,
        Err(_) => {
            return None;
        },
    };
    let nonce = chacha20poly1305::Nonce::from_slice(&nonce[..]);
    cipher.decrypt(nonce, &ct[..]).ok()
}

/// Relies on `snap::raw::Encoder::compress_vec`: the output decompresses
/// back to the input.
#[verifier::external_body]
pub(crate) fn snappy_pack(data: &Vec<u8>) -> (r: Result<Vec<u8>, HatError>)
    ensures
        r matches Ok(c) ==> snappy_unpack_spec(c@) == Some(data@),
{
    match snap::raw::Encoder::new().compress_vec(&data[..]) {
        Ok(c) => Ok(c),
        Err(e) => Err(HatError::Backend(format!("snappy: {}", e))),
    }
}

/// Relies on `snap::raw::Decoder::decompress_vec`: a pure function of the
/// compressed bytes.
#[verifier::external_body]
pub(crate) fn snappy_unpack(data: &Vec<u8>) -> (r: Option<Vec<u8>>)
    ensures
        r.deep_view() == snappy_unpack_spec(data@),
{
    snap::raw::Decoder::new().decompress_vec(&data[..]).ok()
}

/// Relies on `flate2::read::GzDecoder`: a pure function of the
/// compressed bytes.
#[verifier::external_body]
pub(crate) fn gzip_unpack(data: &Vec<u8>) -> (r: Option<Vec<u8>>)
    ensures
        r.deep_view() == gzip_unpack_spec(data@),
{
    let mut out = Vec::new();
    let mut d = flate2::read::GzDecoder::new(&data[..]);
    match d.read_to_end(&mut out) {
        Ok(_) => Some(out),
        Err(_) => None,
    }
}

} // verus!
