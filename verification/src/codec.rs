//! Compact binary codec for the persisted metadata structures.
//!
//! Integers are little-endian and length-prefixed byte strings carry their
//! length as a 64-bit prefix; enumerations use single-letter discriminant
//! bytes. Every encoder has a spec-level mirror (`s_enc_*`), every decoder
//! a spec-level parser (`s_dec_*`) that consumes from the front of a byte
//! sequence, and a proof (`lemma_dec_enc_*`) that parsing an encoding
//! followed by arbitrary bytes yields the encoded value exactly.

use crate::models::{
    ChunkRef, ChunkRefV, Content, ContentV, Entry, EntryV, ExtraInfo, ExtraInfoV, FileInfo,
    FileInfoV, FileName, FileNameV, HashRef, HashRefV, Key, KeyV, LeafType, Owner, Packing,
    Permissions, Snapshot, SnapshotV, UserGroup,
};
use crate::models::{bytes_to_utf8, bytes_to_utf8_lossy, lossy_utf8, utf8_to_bytes};
use vstd::prelude::*;
use vstd::seq_lib::lemma_concat_associative;
use vstd::utf8::{decode_utf8, encode_utf8, valid_utf8};
use vstd::bytes::{
    lemma_auto_spec_u32_to_from_le_bytes, lemma_auto_spec_u64_to_from_le_bytes,
    spec_u32_from_le_bytes, spec_u32_to_le_bytes, spec_u64_from_le_bytes, spec_u64_to_le_bytes,
    u32_from_le_bytes, u32_to_le_bytes, u64_from_le_bytes, u64_to_le_bytes,
};

verus! {

// Single-letter discriminant bytes (ASCII).
pub const TAG_R: u8 = 114;

pub const TAG_G: u8 = 103;

pub const TAG_S: u8 = 115;

pub const TAG_F: u8 = 102;

pub const TAG_T: u8 = 116;

pub const TAG_N: u8 = 110;

pub const TAG_C: u8 = 99;

pub const TAG_U: u8 = 117;

pub const TAG_M: u8 = 109;

pub const TAG_D: u8 = 100;

pub const TAG_L: u8 = 108;

/// Copy `buf[start .. start + n]` into a fresh vector.
pub fn copy_range(buf: &Vec<u8>, start: usize, n: usize) -> (r: Vec<u8>)
    requires
        start + n <= buf.len(),
    ensures
        r@ == buf@.subrange(start as int, start as int + n as int),
{
    let mut out: Vec<u8> = Vec::new();
    let mut i: usize = 0;
    while i < n
        invariant
            i <= n,
            start + n <= buf.len(),
            out@ == buf@.subrange(start as int, start as int + i as int),
        decreases n - i,
    {
        out.push(buf[start + i]);
        i = i + 1;
        proof {
            assert(out@ =~= buf@.subrange(start as int, start as int + i as int));
        }
    }
    out
}

// ---------------------------------------------------------------------
// u64
// ---------------------------------------------------------------------

pub open spec fn s_enc_u64(n: u64) -> Seq<u8> {
    spec_u64_to_le_bytes(n)
}

pub open spec fn s_dec_u64(s: Seq<u8>) -> Option<(u64, Seq<u8>)> {
    if s.len() >= 8 {
        Some((spec_u64_from_le_bytes(s.take(8)), s.skip(8)))
    } else {
        None
    }
}

pub proof fn lemma_dec_enc_u64(n: u64, rest: Seq<u8>)
    ensures
        s_enc_u64(n).len() == 8,
        s_dec_u64(s_enc_u64(n) + rest) == Some((n, rest)),
{
    lemma_auto_spec_u64_to_from_le_bytes();
    let s = s_enc_u64(n) + rest;
    assert(s.take(8) =~= s_enc_u64(n));
    assert(s.skip(8) =~= rest);
}

fn enc_u64(out: &mut Vec<u8>, n: u64)
    ensures
        final(out)@ == old(out)@ + s_enc_u64(n),
{
    let mut b = u64_to_le_bytes(n);
    out.append(&mut b);
}

fn dec_u64(buf: &Vec<u8>, pos: usize) -> (r: Option<(u64, usize)>)
    requires
        pos <= buf.len(),
    ensures
        match r {
            Some((n, p)) => {
                &&& pos <= p <= buf.len()
                &&& s_dec_u64(buf@.skip(pos as int)) == Some((n, buf@.skip(p as int)))
            },
            None => s_dec_u64(buf@.skip(pos as int)) is None,
        },
{
    if buf.len() - pos >= 8 {
        let window = copy_range(buf, pos, 8);
        let n = u64_from_le_bytes(window.as_slice());
        proof {
            let su = buf@.skip(pos as int);
            assert(su.take(8) =~= window@);
            assert(su.skip(8) =~= buf@.skip(pos as int + 8));
        }
        Some((n, pos + 8))
    } else {
        None
    }
}

// ---------------------------------------------------------------------
// i64 (two's-complement through u64)
// ---------------------------------------------------------------------

pub open spec fn s_enc_i64(n: i64) -> Seq<u8> {
    s_enc_u64(n as u64)
}

pub open spec fn s_dec_i64(s: Seq<u8>) -> Option<(i64, Seq<u8>)> {
    match s_dec_u64(s) {
        Some((n, rest)) => Some((n as i64, rest)),
        None => None,
    }
}

pub proof fn lemma_dec_enc_i64(n: i64, rest: Seq<u8>)
    ensures
        s_dec_i64(s_enc_i64(n) + rest) == Some((n, rest)),
{
    lemma_dec_enc_u64(n as u64, rest);
    assert((n as u64) as i64 == n) by (bit_vector);
}

fn enc_i64(out: &mut Vec<u8>, n: i64)
    ensures
        final(out)@ == old(out)@ + s_enc_i64(n),
{
    enc_u64(out, n as u64);
}

fn dec_i64(buf: &Vec<u8>, pos: usize) -> (r: Option<(i64, usize)>)
    requires
        pos <= buf.len(),
    ensures
        match r {
            Some((n, p)) => {
                &&& pos <= p <= buf.len()
                &&& s_dec_i64(buf@.skip(pos as int)) == Some((n, buf@.skip(p as int)))
            },
            None => s_dec_i64(buf@.skip(pos as int)) is None,
        },
{
    match dec_u64(buf, pos) {
        Some((n, p)) => Some((n as i64, p)),
        None => None,
    }
}

// ---------------------------------------------------------------------
// u32
// ---------------------------------------------------------------------

pub open spec fn s_enc_u32(n: u32) -> Seq<u8> {
    spec_u32_to_le_bytes(n)
}

pub open spec fn s_dec_u32(s: Seq<u8>) -> Option<(u32, Seq<u8>)> {
    if s.len() >= 4 {
        Some((spec_u32_from_le_bytes(s.take(4)), s.skip(4)))
    } else {
        None
    }
}

pub proof fn lemma_dec_enc_u32(n: u32, rest: Seq<u8>)
    ensures
        s_enc_u32(n).len() == 4,
        s_dec_u32(s_enc_u32(n) + rest) == Some((n, rest)),
{
    lemma_auto_spec_u32_to_from_le_bytes();
    let s = s_enc_u32(n) + rest;
    assert(s.take(4) =~= s_enc_u32(n));
    assert(s.skip(4) =~= rest);
}

fn enc_u32(out: &mut Vec<u8>, n: u32)
    ensures
        final(out)@ == old(out)@ + s_enc_u32(n),
{
    let mut b = u32_to_le_bytes(n);
    out.append(&mut b);
}

fn dec_u32(buf: &Vec<u8>, pos: usize) -> (r: Option<(u32, usize)>)
    requires
        pos <= buf.len(),
    ensures
        match r {
            Some((n, p)) => {
                &&& pos <= p <= buf.len()
                &&& s_dec_u32(buf@.skip(pos as int)) == Some((n, buf@.skip(p as int)))
            },
            None => s_dec_u32(buf@.skip(pos as int)) is None,
        },
{
    if buf.len() - pos >= 4 {
        let window = copy_range(buf, pos, 4);
        let n = u32_from_le_bytes(window.as_slice());
        proof {
            let su = buf@.skip(pos as int);
            assert(su.take(4) =~= window@);
            assert(su.skip(4) =~= buf@.skip(pos as int + 4));
        }
        Some((n, pos + 4))
    } else {
        None
    }
}

// ---------------------------------------------------------------------
// Tag bytes
// ---------------------------------------------------------------------

pub open spec fn s_enc_tag(t: u8) -> Seq<u8> {
    seq![t]
}

pub open spec fn s_dec_tag(s: Seq<u8>) -> Option<(u8, Seq<u8>)> {
    if s.len() >= 1 {
        Some((s[0], s.skip(1)))
    } else {
        None
    }
}

pub proof fn lemma_dec_enc_tag(t: u8, rest: Seq<u8>)
    ensures
        s_dec_tag(s_enc_tag(t) + rest) == Some((t, rest)),
{
    let s = s_enc_tag(t) + rest;
    assert(s.skip(1) =~= rest);
}

fn enc_tag(out: &mut Vec<u8>, t: u8)
    ensures
        final(out)@ == old(out)@ + s_enc_tag(t),
{
    out.push(t);
    proof {
        assert(final(out)@ =~= old(out)@ + s_enc_tag(t));
    }
}

fn dec_tag(buf: &Vec<u8>, pos: usize) -> (r: Option<(u8, usize)>)
    requires
        pos <= buf.len(),
    ensures
        match r {
            Some((t, p)) => {
                &&& pos <= p <= buf.len()
                &&& s_dec_tag(buf@.skip(pos as int)) == Some((t, buf@.skip(p as int)))
            },
            None => s_dec_tag(buf@.skip(pos as int)) is None,
        },
{
    if pos < buf.len() {
        let t = buf[pos];
        proof {
            let su = buf@.skip(pos as int);
            assert(su[0] == t);
            assert(su.skip(1) =~= buf@.skip(pos as int + 1));
        }
        Some((t, pos + 1))
    } else {
        None
    }
}

// ---------------------------------------------------------------------
// Length-prefixed byte strings
// ---------------------------------------------------------------------

pub open spec fn s_enc_bytes(b: Seq<u8>) -> Seq<u8> {
    s_enc_u64(b.len() as u64) + b
}

pub open spec fn s_dec_bytes(s: Seq<u8>) -> Option<(Seq<u8>, Seq<u8>)> {
    match s_dec_u64(s) {
        Some((n, rest)) => {
            if n <= rest.len() {
                Some((rest.take(n as int), rest.skip(n as int)))
            } else {
                None
            }
        },
        None => None,
    }
}

pub proof fn lemma_dec_enc_bytes(b: Seq<u8>, rest: Seq<u8>)
    requires
        b.len() <= u64::MAX,
    ensures
        s_dec_bytes(s_enc_bytes(b) + rest) == Some((b, rest)),
{
    let n = b.len() as u64;
    assert(s_enc_bytes(b) + rest =~= s_enc_u64(n) + (b + rest));
    lemma_dec_enc_u64(n, b + rest);
    assert((b + rest).take(n as int) =~= b);
    assert((b + rest).skip(n as int) =~= rest);
}

fn enc_bytes(out: &mut Vec<u8>, b: &Vec<u8>)
    ensures
        final(out)@ == old(out)@ + s_enc_bytes(b@),
        b@.len() <= u64::MAX,
{
    enc_u64(out, b.len() as u64);
    out.extend_from_slice(b.as_slice());
    proof {
        assert(final(out)@ =~= old(out)@ + s_enc_bytes(b@));
    }
}

fn dec_bytes(buf: &Vec<u8>, pos: usize) -> (r: Option<(Vec<u8>, usize)>)
    requires
        pos <= buf.len(),
    ensures
        match r {
            Some((b, p)) => {
                &&& pos <= p <= buf.len()
                &&& s_dec_bytes(buf@.skip(pos as int)) == Some((b@, buf@.skip(p as int)))
            },
            None => s_dec_bytes(buf@.skip(pos as int)) is None,
        },
{
    match dec_u64(buf, pos) {
        Some((n, p)) => {
            if n <= (buf.len() - p) as u64 {
                let n_us = n as usize;
                let b = copy_range(buf, p, n_us);
                proof {
                    let rest = buf@.skip(p as int);
                    assert(rest.take(n as int) =~= b@);
                    assert(rest.skip(n as int) =~= buf@.skip(p as int + n as int));
                }
                Some((b, p + n_us))
            } else {
                None
            }
        },
        None => None,
    }
}


// ---------------------------------------------------------------------
// UTF-8 strings
// ---------------------------------------------------------------------

#[verifier::opaque]
pub open spec fn s_enc_str(c: Seq<char>) -> Seq<u8> {
    s_enc_bytes(encode_utf8(c))
}

#[verifier::opaque]
pub open spec fn s_dec_str(s: Seq<u8>) -> Option<(Seq<char>, Seq<u8>)> {
    match s_dec_bytes(s) {
        Some((b, rest)) => {
            if valid_utf8(b) {
                Some((decode_utf8(b), rest))
            } else {
                None
            }
        },
        None => None,
    }
}

#[verifier::opaque]
pub open spec fn fits_str(c: Seq<char>) -> bool {
    encode_utf8(c).len() <= u64::MAX
}

pub proof fn lemma_dec_enc_str(c: Seq<char>, rest: Seq<u8>)
    requires
        fits_str(c),
    ensures
        s_dec_str(s_enc_str(c) + rest) == Some((c, rest)),
{
    reveal(s_enc_str);
    reveal(s_dec_str);
    reveal(fits_str);
    lemma_dec_enc_bytes(encode_utf8(c), rest);
    vstd::utf8::encode_utf8_valid_utf8(c);
    vstd::utf8::encode_utf8_decode_utf8(c);
}

fn enc_str(out: &mut Vec<u8>, s: &String)
    ensures
        final(out)@ == old(out)@ + s_enc_str(s@),
        fits_str(s@),
{
    proof {
        reveal(s_enc_str);
        reveal(fits_str);
    }
    let b = utf8_to_bytes(s.clone());
    enc_bytes(out, &b);
}

fn dec_str(buf: &Vec<u8>, pos: usize) -> (r: Option<(String, usize)>)
    requires
        pos <= buf.len(),
    ensures
        match r {
            Some((s, p)) => {
                &&& pos <= p <= buf.len()
                &&& s_dec_str(buf@.skip(pos as int)) == Some((s@, buf@.skip(p as int)))
            },
            None => s_dec_str(buf@.skip(pos as int)) is None,
        },
{
    proof {
        reveal(s_dec_str);
    }
    match dec_bytes(buf, pos) {
        Some((b, p)) => match bytes_to_utf8(b) {
            Ok(s) => Some((s, p)),
            Err(_) => None,
        },
        None => None,
    }
}

// ---------------------------------------------------------------------
// Enumerations with single-letter discriminants
// ---------------------------------------------------------------------

pub open spec fn s_enc_packing(v: Packing) -> Seq<u8> {
    match v {
        Packing::Raw => s_enc_tag(TAG_R),
        Packing::GZip => s_enc_tag(TAG_G),
        Packing::Snappy => s_enc_tag(TAG_S),
    }
}

pub open spec fn s_dec_packing(s: Seq<u8>) -> Option<(Packing, Seq<u8>)> {
    match s_dec_tag(s) {
        Some((t, rest)) => {
            if t == TAG_R {
                Some((Packing::Raw, rest))
            } else if t == TAG_G {
                Some((Packing::GZip, rest))
            } else if t == TAG_S {
                Some((Packing::Snappy, rest))
            } else {
                None
            }
        },
        None => None,
    }
}

pub proof fn lemma_dec_enc_packing(v: Packing, rest: Seq<u8>)
    ensures
        s_dec_packing(s_enc_packing(v) + rest) == Some((v, rest)),
{
    match v {
        Packing::Raw => lemma_dec_enc_tag(TAG_R, rest),
        Packing::GZip => lemma_dec_enc_tag(TAG_G, rest),
        Packing::Snappy => lemma_dec_enc_tag(TAG_S, rest),
    }
}

fn enc_packing(out: &mut Vec<u8>, v: &Packing)
    ensures
        final(out)@ == old(out)@ + s_enc_packing(*v),
{
    match v {
        Packing::Raw => enc_tag(out, TAG_R),
        Packing::GZip => enc_tag(out, TAG_G),
        Packing::Snappy => enc_tag(out, TAG_S),
    }
}

fn dec_packing(buf: &Vec<u8>, pos: usize) -> (r: Option<(Packing, usize)>)
    requires
        pos <= buf.len(),
    ensures
        match r {
            Some((v, p)) => {
                &&& pos <= p <= buf.len()
                &&& s_dec_packing(buf@.skip(pos as int)) == Some((v, buf@.skip(p as int)))
            },
            None => s_dec_packing(buf@.skip(pos as int)) is None,
        },
{
    match dec_tag(buf, pos) {
        Some((t, p)) => {
            if t == TAG_R {
                Some((Packing::Raw, p))
            } else if t == TAG_G {
                Some((Packing::GZip, p))
            } else if t == TAG_S {
                Some((Packing::Snappy, p))
            } else {
                None
            }
        },
        None => None,
    }
}

pub open spec fn s_enc_leaf_type(v: LeafType) -> Seq<u8> {
    match v {
        LeafType::FileChunk => s_enc_tag(TAG_F),
        LeafType::TreeList => s_enc_tag(TAG_T),
        LeafType::SnapshotList => s_enc_tag(TAG_S),
    }
}

pub open spec fn s_dec_leaf_type(s: Seq<u8>) -> Option<(LeafType, Seq<u8>)> {
    match s_dec_tag(s) {
        Some((t, rest)) => {
            if t == TAG_F {
                Some((LeafType::FileChunk, rest))
            } else if t == TAG_T {
                Some((LeafType::TreeList, rest))
            } else if t == TAG_S {
                Some((LeafType::SnapshotList, rest))
            } else {
                None
            }
        },
        None => None,
    }
}

pub proof fn lemma_dec_enc_leaf_type(v: LeafType, rest: Seq<u8>)
    ensures
        s_dec_leaf_type(s_enc_leaf_type(v) + rest) == Some((v, rest)),
{
    match v {
        LeafType::FileChunk => lemma_dec_enc_tag(TAG_F, rest),
        LeafType::TreeList => lemma_dec_enc_tag(TAG_T, rest),
        LeafType::SnapshotList => lemma_dec_enc_tag(TAG_S, rest),
    }
}

fn enc_leaf_type(out: &mut Vec<u8>, v: &LeafType)
    ensures
        final(out)@ == old(out)@ + s_enc_leaf_type(*v),
{
    match v {
        LeafType::FileChunk => enc_tag(out, TAG_F),
        LeafType::TreeList => enc_tag(out, TAG_T),
        LeafType::SnapshotList => enc_tag(out, TAG_S),
    }
}

fn dec_leaf_type(buf: &Vec<u8>, pos: usize) -> (r: Option<(LeafType, usize)>)
    requires
        pos <= buf.len(),
    ensures
        match r {
            Some((v, p)) => {
                &&& pos <= p <= buf.len()
                &&& s_dec_leaf_type(buf@.skip(pos as int)) == Some((v, buf@.skip(p as int)))
            },
            None => s_dec_leaf_type(buf@.skip(pos as int)) is None,
        },
{
    match dec_tag(buf, pos) {
        Some((t, p)) => {
            if t == TAG_F {
                Some((LeafType::FileChunk, p))
            } else if t == TAG_T {
                Some((LeafType::TreeList, p))
            } else if t == TAG_S {
                Some((LeafType::SnapshotList, p))
            } else {
                None
            }
        },
        None => None,
    }
}

pub open spec fn s_enc_key(v: KeyV) -> Seq<u8> {
    match v {
        KeyV::Plain => s_enc_tag(TAG_N),
        KeyV::AeadChacha20Poly1305(n) => s_enc_tag(TAG_C) + s_enc_bytes(n),
    }
}

pub open spec fn s_dec_key(s: Seq<u8>) -> Option<(KeyV, Seq<u8>)> {
    match s_dec_tag(s) {
        Some((t, rest)) => {
            if t == TAG_N {
                Some((KeyV::Plain, rest))
            } else if t == TAG_C {
                match s_dec_bytes(rest) {
                    Some((n, rest2)) => Some((KeyV::AeadChacha20Poly1305(n), rest2)),
                    None => None,
                }
            } else {
                None
            }
        },
        None => None,
    }
}

pub open spec fn fits_key(v: KeyV) -> bool {
    match v {
        KeyV::Plain => true,
        KeyV::AeadChacha20Poly1305(n) => n.len() <= u64::MAX,
    }
}

pub proof fn lemma_dec_enc_key(v: KeyV, rest: Seq<u8>)
    requires
        fits_key(v),
    ensures
        s_dec_key(s_enc_key(v) + rest) == Some((v, rest)),
{
    match v {
        KeyV::Plain => lemma_dec_enc_tag(TAG_N, rest),
        KeyV::AeadChacha20Poly1305(n) => {
            lemma_concat_associative(s_enc_tag(TAG_C), s_enc_bytes(n), rest);
            lemma_dec_enc_tag(TAG_C, s_enc_bytes(n) + rest);
            lemma_dec_enc_bytes(n, rest);
        },
    }
}

fn enc_key(out: &mut Vec<u8>, v: &Key)
    ensures
        final(out)@ == old(out)@ + s_enc_key(v@),
        fits_key(v@),
{
    match v {
        Key::Plain => enc_tag(out, TAG_N),
        Key::AeadChacha20Poly1305(n) => {
            enc_tag(out, TAG_C);
            enc_bytes(out, n);
            proof {
                assert(final(out)@ =~= old(out)@ + s_enc_key(v@));
            }
        },
    }
}

fn dec_key(buf: &Vec<u8>, pos: usize) -> (r: Option<(Key, usize)>)
    requires
        pos <= buf.len(),
    ensures
        match r {
            Some((v, p)) => {
                &&& pos <= p <= buf.len()
                &&& s_dec_key(buf@.skip(pos as int)) == Some((v@, buf@.skip(p as int)))
            },
            None => s_dec_key(buf@.skip(pos as int)) is None,
        },
{
    match dec_tag(buf, pos) {
        Some((t, p)) => {
            if t == TAG_N {
                Some((Key::Plain, p))
            } else if t == TAG_C {
                match dec_bytes(buf, p) {
                    Some((n, p2)) => Some((Key::AeadChacha20Poly1305(n), p2)),
                    None => None,
                }
            } else {
                None
            }
        },
        None => None,
    }
}

pub open spec fn s_enc_owner(v: Owner) -> Seq<u8> {
    match v {
        Owner::Absent => s_enc_tag(TAG_N),
        Owner::UserGroup(ug) => s_enc_tag(TAG_U) + s_enc_i64(ug.user_id) + s_enc_i64(ug.group_id),
    }
}

pub open spec fn s_dec_owner(s: Seq<u8>) -> Option<(Owner, Seq<u8>)> {
    match s_dec_tag(s) {
        Some((t, rest)) => {
            if t == TAG_N {
                Some((Owner::Absent, rest))
            } else if t == TAG_U {
                match s_dec_i64(rest) {
                    Some((u, rest2)) => match s_dec_i64(rest2) {
                        Some((g, rest3)) => Some(
                            (Owner::UserGroup(UserGroup { user_id: u, group_id: g }), rest3),
                        ),
                        None => None,
                    },
                    None => None,
                }
            } else {
                None
            }
        },
        None => None,
    }
}

pub proof fn lemma_dec_enc_owner(v: Owner, rest: Seq<u8>)
    ensures
        s_dec_owner(s_enc_owner(v) + rest) == Some((v, rest)),
{
    match v {
        Owner::Absent => lemma_dec_enc_tag(TAG_N, rest),
        Owner::UserGroup(ug) => {
            let t2 = s_enc_i64(ug.group_id) + rest;
            let t1 = s_enc_i64(ug.user_id) + t2;
            lemma_concat_associative(s_enc_tag(TAG_U) + s_enc_i64(ug.user_id), s_enc_i64(ug.group_id), rest);
            lemma_concat_associative(s_enc_tag(TAG_U), s_enc_i64(ug.user_id), t2);
            assert(s_enc_owner(v) + rest == s_enc_tag(TAG_U) + t1);
            lemma_dec_enc_tag(TAG_U, t1);
            lemma_dec_enc_i64(ug.user_id, t2);
            lemma_dec_enc_i64(ug.group_id, rest);
        },
    }
}

fn enc_owner(out: &mut Vec<u8>, v: &Owner)
    ensures
        final(out)@ == old(out)@ + s_enc_owner(*v),
{
    match v {
        Owner::Absent => enc_tag(out, TAG_N),
        Owner::UserGroup(ug) => {
            enc_tag(out, TAG_U);
            enc_i64(out, ug.user_id);
            enc_i64(out, ug.group_id);
            proof {
                assert(final(out)@ =~= old(out)@ + s_enc_owner(*v));
            }
        },
    }
}

fn dec_owner(buf: &Vec<u8>, pos: usize) -> (r: Option<(Owner, usize)>)
    requires
        pos <= buf.len(),
    ensures
        match r {
            Some((v, p)) => {
                &&& pos <= p <= buf.len()
                &&& s_dec_owner(buf@.skip(pos as int)) == Some((v, buf@.skip(p as int)))
            },
            None => s_dec_owner(buf@.skip(pos as int)) is None,
        },
{
    match dec_tag(buf, pos) {
        Some((t, p)) => {
            if t == TAG_N {
                Some((Owner::Absent, p))
            } else if t == TAG_U {
                match dec_i64(buf, p) {
                    Some((u, p2)) => match dec_i64(buf, p2) {
                        Some((g, p3)) => Some(
                            (Owner::UserGroup(UserGroup { user_id: u, group_id: g }), p3),
                        ),
                        None => None,
                    },
                    None => None,
                }
            } else {
                None
            }
        },
        None => None,
    }
}

pub open spec fn s_enc_permissions(v: Permissions) -> Seq<u8> {
    match v {
        Permissions::Absent => s_enc_tag(TAG_N),
        Permissions::Mode(m) => s_enc_tag(TAG_M) + s_enc_u32(m),
    }
}

pub open spec fn s_dec_permissions(s: Seq<u8>) -> Option<(Permissions, Seq<u8>)> {
    match s_dec_tag(s) {
        Some((t, rest)) => {
            if t == TAG_N {
                Some((Permissions::Absent, rest))
            } else if t == TAG_M {
                match s_dec_u32(rest) {
                    Some((m, rest2)) => Some((Permissions::Mode(m), rest2)),
                    None => None,
                }
            } else {
                None
            }
        },
        None => None,
    }
}

pub proof fn lemma_dec_enc_permissions(v: Permissions, rest: Seq<u8>)
    ensures
        s_dec_permissions(s_enc_permissions(v) + rest) == Some((v, rest)),
{
    match v {
        Permissions::Absent => lemma_dec_enc_tag(TAG_N, rest),
        Permissions::Mode(m) => {
            lemma_concat_associative(s_enc_tag(TAG_M), s_enc_u32(m), rest);
            lemma_dec_enc_tag(TAG_M, s_enc_u32(m) + rest);
            lemma_dec_enc_u32(m, rest);
        },
    }
}

fn enc_permissions(out: &mut Vec<u8>, v: &Permissions)
    ensures
        final(out)@ == old(out)@ + s_enc_permissions(*v),
{
    match v {
        Permissions::Absent => enc_tag(out, TAG_N),
        Permissions::Mode(m) => {
            enc_tag(out, TAG_M);
            enc_u32(out, *m);
            proof {
                assert(final(out)@ =~= old(out)@ + s_enc_permissions(*v));
            }
        },
    }
}

fn dec_permissions(buf: &Vec<u8>, pos: usize) -> (r: Option<(Permissions, usize)>)
    requires
        pos <= buf.len(),
    ensures
        match r {
            Some((v, p)) => {
                &&& pos <= p <= buf.len()
                &&& s_dec_permissions(buf@.skip(pos as int)) == Some((v, buf@.skip(p as int)))
            },
            None => s_dec_permissions(buf@.skip(pos as int)) is None,
        },
{
    match dec_tag(buf, pos) {
        Some((t, p)) => {
            if t == TAG_N {
                Some((Permissions::Absent, p))
            } else if t == TAG_M {
                match dec_u32(buf, p) {
                    Some((m, p2)) => Some((Permissions::Mode(m), p2)),
                    None => None,
                }
            } else {
                None
            }
        },
        None => None,
    }
}

pub open spec fn s_enc_file_name(v: FileNameV) -> Seq<u8> {
    match v {
        FileNameV::Utf8(s) => s_enc_tag(TAG_U) + s_enc_str(s),
        FileNameV::RawAndLossyUtf8(raw, _) => s_enc_tag(TAG_R) + s_enc_bytes(raw),
    }
}

pub open spec fn s_dec_file_name(s: Seq<u8>) -> Option<(FileNameV, Seq<u8>)> {
    match s_dec_tag(s) {
        Some((t, rest)) => {
            if t == TAG_U {
                match s_dec_str(rest) {
                    Some((c, rest2)) => Some((FileNameV::Utf8(c), rest2)),
                    None => None,
                }
            } else if t == TAG_R {
                match s_dec_bytes(rest) {
                    Some((raw, rest2)) => Some(
                        (FileNameV::RawAndLossyUtf8(raw, lossy_utf8(raw)), rest2),
                    ),
                    None => None,
                }
            } else {
                None
            }
        },
        None => None,
    }
}

pub open spec fn fits_file_name(v: FileNameV) -> bool {
    match v {
        FileNameV::Utf8(s) => fits_str(s),
        FileNameV::RawAndLossyUtf8(raw, _) => raw.len() <= u64::MAX,
    }
}

/// Names round trip: the raw variant comes back with its lossy alias
/// recomputed, which `wf` pins to the stored one.
pub proof fn lemma_dec_enc_file_name(v: FileNameV, rest: Seq<u8>)
    requires
        fits_file_name(v),
        v.wf(),
    ensures
        s_dec_file_name(s_enc_file_name(v) + rest) == Some((v, rest)),
{
    match v {
        FileNameV::Utf8(s) => {
            lemma_concat_associative(s_enc_tag(TAG_U), s_enc_str(s), rest);
            lemma_dec_enc_tag(TAG_U, s_enc_str(s) + rest);
            lemma_dec_enc_str(s, rest);
        },
        FileNameV::RawAndLossyUtf8(raw, l) => {
            lemma_concat_associative(s_enc_tag(TAG_R), s_enc_bytes(raw), rest);
            lemma_dec_enc_tag(TAG_R, s_enc_bytes(raw) + rest);
            lemma_dec_enc_bytes(raw, rest);
        },
    }
}

fn enc_file_name(out: &mut Vec<u8>, v: &FileName)
    ensures
        final(out)@ == old(out)@ + s_enc_file_name(v@),
        fits_file_name(v@),
{
    match v {
        FileName::Utf8(s) => {
            enc_tag(out, TAG_U);
            enc_str(out, s);
            proof {
                assert(final(out)@ =~= old(out)@ + s_enc_file_name(v@));
            }
        },
        FileName::RawAndLossyUtf8(raw, _) => {
            enc_tag(out, TAG_R);
            enc_bytes(out, raw);
            proof {
                assert(final(out)@ =~= old(out)@ + s_enc_file_name(v@));
            }
        },
    }
}

fn dec_file_name(buf: &Vec<u8>, pos: usize) -> (r: Option<(FileName, usize)>)
    requires
        pos <= buf.len(),
    ensures
        match r {
            Some((v, p)) => {
                &&& pos <= p <= buf.len()
                &&& s_dec_file_name(buf@.skip(pos as int)) == Some((v@, buf@.skip(p as int)))
            },
            None => s_dec_file_name(buf@.skip(pos as int)) is None,
        },
{
    match dec_tag(buf, pos) {
        Some((t, p)) => {
            if t == TAG_U {
                match dec_str(buf, p) {
                    Some((s, p2)) => Some((FileName::Utf8(s), p2)),
                    None => None,
                }
            } else if t == TAG_R {
                match dec_bytes(buf, p) {
                    Some((raw, p2)) => {
                        let lossy = bytes_to_utf8_lossy(&raw);
                        Some((FileName::RawAndLossyUtf8(raw, lossy), p2))
                    },
                    None => None,
                }
            } else {
                None
            }
        },
        None => None,
    }
}


// ---------------------------------------------------------------------
// FileInfo and ExtraInfo
// ---------------------------------------------------------------------

pub open spec fn s_enc_file_info(v: FileInfoV) -> Seq<u8> {
    s_enc_file_name(v.name) + s_enc_i64(v.created_ts) + s_enc_i64(v.modified_ts) + s_enc_i64(
        v.accessed_ts,
    ) + s_enc_i64(v.byte_length) + s_enc_owner(v.owner) + s_enc_permissions(v.permissions)
        + s_enc_i64(v.snapshot_ts_utc)
}

pub open spec fn s_dec_file_info(s: Seq<u8>) -> Option<(FileInfoV, Seq<u8>)> {
    match s_dec_file_name(s) {
        Some((name, s1)) => match s_dec_i64(s1) {
            Some((created, s2)) => match s_dec_i64(s2) {
                Some((modified, s3)) => match s_dec_i64(s3) {
                    Some((accessed, s4)) => match s_dec_i64(s4) {
                        Some((blen, s5)) => match s_dec_owner(s5) {
                            Some((owner, s6)) => match s_dec_permissions(s6) {
                                Some((perms, s7)) => match s_dec_i64(s7) {
                                    Some((sts, s8)) => Some(
                                        (
                                            FileInfoV {
                                                name,
                                                created_ts: created,
                                                modified_ts: modified,
                                                accessed_ts: accessed,
                                                byte_length: blen,
                                                owner,
                                                permissions: perms,
                                                snapshot_ts_utc: sts,
                                            },
                                            s8,
                                        ),
                                    ),
                                    None => None,
                                },
                                None => None,
                            },
                            None => None,
                        },
                        None => None,
                    },
                    None => None,
                },
                None => None,
            },
            None => None,
        },
        None => None,
    }
}

pub open spec fn fits_file_info(v: FileInfoV) -> bool {
    fits_file_name(v.name)
}

/// Every `FileName` buried in the value satisfies its well-formedness
/// predicate; the codec lemmas need this because the raw variant's lossy
/// alias is recomputed on decode.
pub open spec fn names_wf_file_info(v: FileInfoV) -> bool {
    v.name.wf()
}

pub open spec fn names_wf_extra(v: ExtraInfoV) -> bool {
    match v {
        ExtraInfoV::Absent => true,
        ExtraInfoV::FileInfo(i) => names_wf_file_info(i),
    }
}

pub open spec fn names_wf_hash_ref(v: HashRefV) -> bool {
    names_wf_extra(v.extra)
}

pub open spec fn names_wf_content(v: ContentV) -> bool {
    match v {
        ContentV::Data(h) => names_wf_hash_ref(h),
        ContentV::Directory(h) => names_wf_hash_ref(h),
        ContentV::SymbolicLink(_) => true,
    }
}

pub open spec fn names_wf_entry(e: EntryV, c: ContentV) -> bool {
    names_wf_file_info(e.info) && names_wf_content(c)
}

pub open spec fn names_wf_snapshot(v: SnapshotV) -> bool {
    names_wf_hash_ref(v.hash_ref)
}

pub proof fn lemma_dec_enc_file_info(v: FileInfoV, rest: Seq<u8>)
    requires
        fits_file_info(v),
        names_wf_file_info(v),
    ensures
        s_dec_file_info(s_enc_file_info(v) + rest) == Some((v, rest)),
{
    let t7 = s_enc_i64(v.snapshot_ts_utc) + rest;
    let t6 = s_enc_permissions(v.permissions) + t7;
    let t5 = s_enc_owner(v.owner) + t6;
    let t4 = s_enc_i64(v.byte_length) + t5;
    let t3 = s_enc_i64(v.accessed_ts) + t4;
    let t2 = s_enc_i64(v.modified_ts) + t3;
    let t1 = s_enc_i64(v.created_ts) + t2;
    let a1 = s_enc_file_name(v.name);
    let a2 = s_enc_i64(v.created_ts);
    let a3 = s_enc_i64(v.modified_ts);
    let a4 = s_enc_i64(v.accessed_ts);
    let a5 = s_enc_i64(v.byte_length);
    let a6 = s_enc_owner(v.owner);
    let a7 = s_enc_permissions(v.permissions);
    let a8 = s_enc_i64(v.snapshot_ts_utc);
    lemma_concat_associative(a1 + a2 + a3 + a4 + a5 + a6 + a7, a8, rest);
    lemma_concat_associative(a1 + a2 + a3 + a4 + a5 + a6, a7, t7);
    lemma_concat_associative(a1 + a2 + a3 + a4 + a5, a6, t6);
    lemma_concat_associative(a1 + a2 + a3 + a4, a5, t5);
    lemma_concat_associative(a1 + a2 + a3, a4, t4);
    lemma_concat_associative(a1 + a2, a3, t3);
    lemma_concat_associative(a1, a2, t2);
    assert(s_enc_file_info(v) + rest == a1 + t1);
    lemma_dec_enc_file_name(v.name, t1);
    lemma_dec_enc_i64(v.created_ts, t2);
    lemma_dec_enc_i64(v.modified_ts, t3);
    lemma_dec_enc_i64(v.accessed_ts, t4);
    lemma_dec_enc_i64(v.byte_length, t5);
    lemma_dec_enc_owner(v.owner, t6);
    lemma_dec_enc_permissions(v.permissions, t7);
    lemma_dec_enc_i64(v.snapshot_ts_utc, rest);
}

fn enc_file_info(out: &mut Vec<u8>, v: &FileInfo)
    ensures
        final(out)@ == old(out)@ + s_enc_file_info(v@),
        fits_file_info(v@),
{
    enc_file_name(out, &v.name);
    enc_i64(out, v.created_ts);
    enc_i64(out, v.modified_ts);
    enc_i64(out, v.accessed_ts);
    enc_i64(out, v.byte_length);
    enc_owner(out, &v.owner);
    enc_permissions(out, &v.permissions);
    enc_i64(out, v.snapshot_ts_utc);
    proof {
        assert(final(out)@ =~= old(out)@ + s_enc_file_info(v@));
    }
}

fn dec_file_info(buf: &Vec<u8>, pos: usize) -> (r: Option<(FileInfo, usize)>)
    requires
        pos <= buf.len(),
    ensures
        match r {
            Some((v, p)) => {
                &&& pos <= p <= buf.len()
                &&& s_dec_file_info(buf@.skip(pos as int)) == Some((v@, buf@.skip(p as int)))
            },
            None => s_dec_file_info(buf@.skip(pos as int)) is None,
        },
{
    match dec_file_name(buf, pos) {
        Some((name, p1)) => match dec_i64(buf, p1) {
            Some((created, p2)) => match dec_i64(buf, p2) {
                Some((modified, p3)) => match dec_i64(buf, p3) {
                    Some((accessed, p4)) => match dec_i64(buf, p4) {
                        Some((blen, p5)) => match dec_owner(buf, p5) {
                            Some((owner, p6)) => match dec_permissions(buf, p6) {
                                Some((perms, p7)) => match dec_i64(buf, p7) {
                                    Some((sts, p8)) => Some(
                                        (
                                            FileInfo {
                                                name,
                                                created_ts: created,
                                                modified_ts: modified,
                                                accessed_ts: accessed,
                                                byte_length: blen,
                                                owner,
                                                permissions: perms,
                                                snapshot_ts_utc: sts,
                                            },
                                            p8,
                                        ),
                                    ),
                                    None => None,
                                },
                                None => None,
                            },
                            None => None,
                        },
                        None => None,
                    },
                    None => None,
                },
                None => None,
            },
            None => None,
        },
        None => None,
    }
}

pub open spec fn s_enc_extra(v: ExtraInfoV) -> Seq<u8> {
    match v {
        ExtraInfoV::Absent => s_enc_tag(TAG_N),
        ExtraInfoV::FileInfo(i) => s_enc_tag(TAG_F) + s_enc_file_info(i),
    }
}

pub open spec fn s_dec_extra(s: Seq<u8>) -> Option<(ExtraInfoV, Seq<u8>)> {
    match s_dec_tag(s) {
        Some((t, rest)) => {
            if t == TAG_N {
                Some((ExtraInfoV::Absent, rest))
            } else if t == TAG_F {
                match s_dec_file_info(rest) {
                    Some((i, rest2)) => Some((ExtraInfoV::FileInfo(i), rest2)),
                    None => None,
                }
            } else {
                None
            }
        },
        None => None,
    }
}

pub open spec fn fits_extra(v: ExtraInfoV) -> bool {
    match v {
        ExtraInfoV::Absent => true,
        ExtraInfoV::FileInfo(i) => fits_file_info(i),
    }
}

pub proof fn lemma_dec_enc_extra(v: ExtraInfoV, rest: Seq<u8>)
    requires
        fits_extra(v),
        names_wf_extra(v),
    ensures
        s_dec_extra(s_enc_extra(v) + rest) == Some((v, rest)),
{
    match v {
        ExtraInfoV::Absent => lemma_dec_enc_tag(TAG_N, rest),
        ExtraInfoV::FileInfo(i) => {
            lemma_concat_associative(s_enc_tag(TAG_F), s_enc_file_info(i), rest);
            lemma_dec_enc_tag(TAG_F, s_enc_file_info(i) + rest);
            lemma_dec_enc_file_info(i, rest);
        },
    }
}

fn enc_extra(out: &mut Vec<u8>, v: &ExtraInfo)
    ensures
        final(out)@ == old(out)@ + s_enc_extra(v@),
        fits_extra(v@),
{
    match v {
        ExtraInfo::Absent => enc_tag(out, TAG_N),
        ExtraInfo::FileInfo(i) => {
            enc_tag(out, TAG_F);
            enc_file_info(out, i);
            proof {
                assert(final(out)@ =~= old(out)@ + s_enc_extra(v@));
            }
        },
    }
}

fn dec_extra(buf: &Vec<u8>, pos: usize) -> (r: Option<(ExtraInfo, usize)>)
    requires
        pos <= buf.len(),
    ensures
        match r {
            Some((v, p)) => {
                &&& pos <= p <= buf.len()
                &&& s_dec_extra(buf@.skip(pos as int)) == Some((v@, buf@.skip(p as int)))
            },
            None => s_dec_extra(buf@.skip(pos as int)) is None,
        },
{
    match dec_tag(buf, pos) {
        Some((t, p)) => {
            if t == TAG_N {
                Some((ExtraInfo::Absent, p))
            } else if t == TAG_F {
                match dec_file_info(buf, p) {
                    Some((i, p2)) => Some((ExtraInfo::FileInfo(i), p2)),
                    None => None,
                }
            } else {
                None
            }
        },
        None => None,
    }
}

// ---------------------------------------------------------------------
// ChunkRef and HashRef
// ---------------------------------------------------------------------

pub open spec fn s_enc_chunk_ref(v: ChunkRefV) -> Seq<u8> {
    s_enc_bytes(v.blob_name) + s_enc_u64(v.offset) + s_enc_u64(v.length) + s_enc_packing(v.packing)
        + s_enc_key(v.key)
}

pub open spec fn s_dec_chunk_ref(s: Seq<u8>) -> Option<(ChunkRefV, Seq<u8>)> {
    match s_dec_bytes(s) {
        Some((blob_name, s1)) => match s_dec_u64(s1) {
            Some((offset, s2)) => match s_dec_u64(s2) {
                Some((length, s3)) => match s_dec_packing(s3) {
                    Some((packing, s4)) => match s_dec_key(s4) {
                        Some((key, s5)) => Some(
                            (ChunkRefV { blob_name, offset, length, packing, key }, s5),
                        ),
                        None => None,
                    },
                    None => None,
                },
                None => None,
            },
            None => None,
        },
        None => None,
    }
}

pub open spec fn fits_chunk_ref(v: ChunkRefV) -> bool {
    v.blob_name.len() <= u64::MAX && fits_key(v.key)
}

pub proof fn lemma_dec_enc_chunk_ref(v: ChunkRefV, rest: Seq<u8>)
    requires
        fits_chunk_ref(v),
    ensures
        s_dec_chunk_ref(s_enc_chunk_ref(v) + rest) == Some((v, rest)),
{
    let t4 = s_enc_key(v.key) + rest;
    let t3 = s_enc_packing(v.packing) + t4;
    let t2 = s_enc_u64(v.length) + t3;
    let t1 = s_enc_u64(v.offset) + t2;
    let a1 = s_enc_bytes(v.blob_name);
    let a2 = s_enc_u64(v.offset);
    let a3 = s_enc_u64(v.length);
    let a4 = s_enc_packing(v.packing);
    let a5 = s_enc_key(v.key);
    lemma_concat_associative(a1 + a2 + a3 + a4, a5, rest);
    lemma_concat_associative(a1 + a2 + a3, a4, t4);
    lemma_concat_associative(a1 + a2, a3, t3);
    lemma_concat_associative(a1, a2, t2);
    assert(s_enc_chunk_ref(v) + rest == a1 + t1);
    lemma_dec_enc_bytes(v.blob_name, t1);
    lemma_dec_enc_u64(v.offset, t2);
    lemma_dec_enc_u64(v.length, t3);
    lemma_dec_enc_packing(v.packing, t4);
    lemma_dec_enc_key(v.key, rest);
}

pub fn enc_chunk_ref(out: &mut Vec<u8>, v: &ChunkRef)
    ensures
        final(out)@ == old(out)@ + s_enc_chunk_ref(v@),
        fits_chunk_ref(v@),
{
    enc_bytes(out, &v.blob_name);
    enc_u64(out, v.offset);
    enc_u64(out, v.length);
    enc_packing(out, &v.packing);
    enc_key(out, &v.key);
    proof {
        assert(final(out)@ =~= old(out)@ + s_enc_chunk_ref(v@));
    }
}

pub fn dec_chunk_ref(buf: &Vec<u8>, pos: usize) -> (r: Option<(ChunkRef, usize)>)
    requires
        pos <= buf.len(),
    ensures
        match r {
            Some((v, p)) => {
                &&& pos <= p <= buf.len()
                &&& s_dec_chunk_ref(buf@.skip(pos as int)) == Some((v@, buf@.skip(p as int)))
            },
            None => s_dec_chunk_ref(buf@.skip(pos as int)) is None,
        },
{
    match dec_bytes(buf, pos) {
        Some((blob_name, p1)) => match dec_u64(buf, p1) {
            Some((offset, p2)) => match dec_u64(buf, p2) {
                Some((length, p3)) => match dec_packing(buf, p3) {
                    Some((packing, p4)) => match dec_key(buf, p4) {
                        Some((key, p5)) => Some(
                            (ChunkRef { blob_name, offset, length, packing, key }, p5),
                        ),
                        None => None,
                    },
                    None => None,
                },
                None => None,
            },
            None => None,
        },
        None => None,
    }
}

pub open spec fn s_enc_hash_ref(v: HashRefV) -> Seq<u8> {
    s_enc_bytes(v.hash) + s_enc_chunk_ref(v.chunk_ref) + s_enc_u64(v.height) + s_enc_leaf_type(
        v.leaf_type,
    ) + s_enc_extra(v.extra)
}

pub open spec fn s_dec_hash_ref(s: Seq<u8>) -> Option<(HashRefV, Seq<u8>)> {
    match s_dec_bytes(s) {
        Some((hash, s1)) => match s_dec_chunk_ref(s1) {
            Some((chunk_ref, s2)) => match s_dec_u64(s2) {
                Some((height, s3)) => match s_dec_leaf_type(s3) {
                    Some((leaf_type, s4)) => match s_dec_extra(s4) {
                        Some((extra, s5)) => Some(
                            (HashRefV { hash, chunk_ref, height, leaf_type, extra }, s5),
                        ),
                        None => None,
                    },
                    None => None,
                },
                None => None,
            },
            None => None,
        },
        None => None,
    }
}

pub open spec fn fits_hash_ref(v: HashRefV) -> bool {
    v.hash.len() <= u64::MAX && fits_chunk_ref(v.chunk_ref) && fits_extra(v.extra)
}

pub proof fn lemma_dec_enc_hash_ref(v: HashRefV, rest: Seq<u8>)
    requires
        fits_hash_ref(v),
        names_wf_hash_ref(v),
    ensures
        s_dec_hash_ref(s_enc_hash_ref(v) + rest) == Some((v, rest)),
{
    let t4 = s_enc_extra(v.extra) + rest;
    let t3 = s_enc_leaf_type(v.leaf_type) + t4;
    let t2 = s_enc_u64(v.height) + t3;
    let t1 = s_enc_chunk_ref(v.chunk_ref) + t2;
    let a1 = s_enc_bytes(v.hash);
    let a2 = s_enc_chunk_ref(v.chunk_ref);
    let a3 = s_enc_u64(v.height);
    let a4 = s_enc_leaf_type(v.leaf_type);
    let a5 = s_enc_extra(v.extra);
    lemma_concat_associative(a1 + a2 + a3 + a4, a5, rest);
    lemma_concat_associative(a1 + a2 + a3, a4, t4);
    lemma_concat_associative(a1 + a2, a3, t3);
    lemma_concat_associative(a1, a2, t2);
    assert(s_enc_hash_ref(v) + rest == a1 + t1);
    lemma_dec_enc_bytes(v.hash, t1);
    lemma_dec_enc_chunk_ref(v.chunk_ref, t2);
    lemma_dec_enc_u64(v.height, t3);
    lemma_dec_enc_leaf_type(v.leaf_type, t4);
    lemma_dec_enc_extra(v.extra, rest);
}

pub fn enc_hash_ref(out: &mut Vec<u8>, v: &HashRef)
    ensures
        final(out)@ == old(out)@ + s_enc_hash_ref(v@),
        fits_hash_ref(v@),
{
    enc_bytes(out, &v.hash);
    enc_chunk_ref(out, &v.chunk_ref);
    enc_u64(out, v.height);
    enc_leaf_type(out, &v.leaf_type);
    enc_extra(out, &v.extra);
    proof {
        assert(final(out)@ =~= old(out)@ + s_enc_hash_ref(v@));
    }
}

pub fn dec_hash_ref(buf: &Vec<u8>, pos: usize) -> (r: Option<(HashRef, usize)>)
    requires
        pos <= buf.len(),
    ensures
        match r {
            Some((v, p)) => {
                &&& pos <= p <= buf.len()
                &&& s_dec_hash_ref(buf@.skip(pos as int)) == Some((v@, buf@.skip(p as int)))
            },
            None => s_dec_hash_ref(buf@.skip(pos as int)) is None,
        },
{
    match dec_bytes(buf, pos) {
        Some((hash, p1)) => match dec_chunk_ref(buf, p1) {
            Some((chunk_ref, p2)) => match dec_u64(buf, p2) {
                Some((height, p3)) => match dec_leaf_type(buf, p3) {
                    Some((leaf_type, p4)) => match dec_extra(buf, p4) {
                        Some((extra, p5)) => Some(
                            (HashRef { hash, chunk_ref, height, leaf_type, extra }, p5),
                        ),
                        None => None,
                    },
                    None => None,
                },
                None => None,
            },
            None => None,
        },
        None => None,
    }
}

// ---------------------------------------------------------------------
// Content and directory entries
// ---------------------------------------------------------------------

pub open spec fn s_enc_content(v: ContentV) -> Seq<u8> {
    match v {
        ContentV::Data(h) => s_enc_tag(TAG_F) + s_enc_hash_ref(h),
        ContentV::Directory(h) => s_enc_tag(TAG_D) + s_enc_hash_ref(h),
        ContentV::SymbolicLink(p) => s_enc_tag(TAG_L) + s_enc_bytes(p),
    }
}

pub open spec fn s_dec_content(s: Seq<u8>) -> Option<(ContentV, Seq<u8>)> {
    match s_dec_tag(s) {
        Some((t, rest)) => {
            if t == TAG_F {
                match s_dec_hash_ref(rest) {
                    Some((h, rest2)) => Some((ContentV::Data(h), rest2)),
                    None => None,
                }
            } else if t == TAG_D {
                match s_dec_hash_ref(rest) {
                    Some((h, rest2)) => Some((ContentV::Directory(h), rest2)),
                    None => None,
                }
            } else if t == TAG_L {
                match s_dec_bytes(rest) {
                    Some((p, rest2)) => Some((ContentV::SymbolicLink(p), rest2)),
                    None => None,
                }
            } else {
                None
            }
        },
        None => None,
    }
}

pub open spec fn fits_content(v: ContentV) -> bool {
    match v {
        ContentV::Data(h) => fits_hash_ref(h),
        ContentV::Directory(h) => fits_hash_ref(h),
        ContentV::SymbolicLink(p) => p.len() <= u64::MAX,
    }
}

pub proof fn lemma_dec_enc_content(v: ContentV, rest: Seq<u8>)
    requires
        fits_content(v),
        names_wf_content(v),
    ensures
        s_dec_content(s_enc_content(v) + rest) == Some((v, rest)),
{
    match v {
        ContentV::Data(h) => {
            lemma_concat_associative(s_enc_tag(TAG_F), s_enc_hash_ref(h), rest);
            lemma_dec_enc_tag(TAG_F, s_enc_hash_ref(h) + rest);
            lemma_dec_enc_hash_ref(h, rest);
        },
        ContentV::Directory(h) => {
            lemma_concat_associative(s_enc_tag(TAG_D), s_enc_hash_ref(h), rest);
            lemma_dec_enc_tag(TAG_D, s_enc_hash_ref(h) + rest);
            lemma_dec_enc_hash_ref(h, rest);
        },
        ContentV::SymbolicLink(p) => {
            lemma_concat_associative(s_enc_tag(TAG_L), s_enc_bytes(p), rest);
            lemma_dec_enc_tag(TAG_L, s_enc_bytes(p) + rest);
            lemma_dec_enc_bytes(p, rest);
        },
    }
}

pub fn enc_content(out: &mut Vec<u8>, v: &Content)
    ensures
        final(out)@ == old(out)@ + s_enc_content(v@),
        fits_content(v@),
{
    match v {
        Content::Data(h) => {
            enc_tag(out, TAG_F);
            enc_hash_ref(out, h);
            proof {
                assert(final(out)@ =~= old(out)@ + s_enc_content(v@));
            }
        },
        Content::Directory(h) => {
            enc_tag(out, TAG_D);
            enc_hash_ref(out, h);
            proof {
                assert(final(out)@ =~= old(out)@ + s_enc_content(v@));
            }
        },
        Content::SymbolicLink(p) => {
            enc_tag(out, TAG_L);
            enc_bytes(out, p);
            proof {
                assert(final(out)@ =~= old(out)@ + s_enc_content(v@));
            }
        },
    }
}

pub fn dec_content(buf: &Vec<u8>, pos: usize) -> (r: Option<(Content, usize)>)
    requires
        pos <= buf.len(),
    ensures
        match r {
            Some((v, p)) => {
                &&& pos <= p <= buf.len()
                &&& s_dec_content(buf@.skip(pos as int)) == Some((v@, buf@.skip(p as int)))
            },
            None => s_dec_content(buf@.skip(pos as int)) is None,
        },
{
    match dec_tag(buf, pos) {
        Some((t, p)) => {
            if t == TAG_F {
                match dec_hash_ref(buf, p) {
                    Some((h, p2)) => Some((Content::Data(h), p2)),
                    None => None,
                }
            } else if t == TAG_D {
                match dec_hash_ref(buf, p) {
                    Some((h, p2)) => Some((Content::Directory(h), p2)),
                    None => None,
                }
            } else if t == TAG_L {
                match dec_bytes(buf, p) {
                    Some((pth, p2)) => Some((Content::SymbolicLink(pth), p2)),
                    None => None,
                }
            } else {
                None
            }
        },
        None => None,
    }
}

pub open spec fn s_enc_entry(e: EntryV, c: ContentV) -> Seq<u8> {
    s_enc_file_info(e.info) + s_enc_content(c)
}

pub open spec fn s_dec_entry(s: Seq<u8>) -> Option<((EntryV, ContentV), Seq<u8>)> {
    match s_dec_file_info(s) {
        Some((info, s1)) => match s_dec_content(s1) {
            Some((c, s2)) => Some(((EntryV { info }, c), s2)),
            None => None,
        },
        None => None,
    }
}

pub open spec fn fits_entry(e: EntryV, c: ContentV) -> bool {
    fits_file_info(e.info) && fits_content(c)
}

pub proof fn lemma_dec_enc_entry(e: EntryV, c: ContentV, rest: Seq<u8>)
    requires
        fits_entry(e, c),
        names_wf_entry(e, c),
    ensures
        s_dec_entry(s_enc_entry(e, c) + rest) == Some(((e, c), rest)),
{
    let t1 = s_enc_content(c) + rest;
    lemma_concat_associative(s_enc_file_info(e.info), s_enc_content(c), rest);
    lemma_dec_enc_file_info(e.info, t1);
    lemma_dec_enc_content(c, rest);
}

pub fn enc_entry(out: &mut Vec<u8>, e: &Entry, c: &Content)
    ensures
        final(out)@ == old(out)@ + s_enc_entry(e@, c@),
        fits_entry(e@, c@),
{
    enc_file_info(out, &e.info);
    enc_content(out, c);
    proof {
        assert(final(out)@ =~= old(out)@ + s_enc_entry(e@, c@));
    }
}

pub fn dec_entry(buf: &Vec<u8>, pos: usize) -> (r: Option<((Entry, Content), usize)>)
    requires
        pos <= buf.len(),
    ensures
        match r {
            Some(((e, c), p)) => {
                &&& pos <= p <= buf.len()
                &&& s_dec_entry(buf@.skip(pos as int)) == Some(((e@, c@), buf@.skip(p as int)))
            },
            None => s_dec_entry(buf@.skip(pos as int)) is None,
        },
{
    match dec_file_info(buf, pos) {
        Some((info, p1)) => match dec_content(buf, p1) {
            Some((c, p2)) => Some(((Entry { info }, c), p2)),
            None => None,
        },
        None => None,
    }
}

// ---------------------------------------------------------------------
// Snapshot records
// ---------------------------------------------------------------------

pub open spec fn s_enc_snapshot(v: SnapshotV) -> Seq<u8> {
    s_enc_u64(v.id) + s_enc_hash_ref(v.hash_ref) + s_enc_str(v.family_name) + s_enc_str(v.msg)
        + s_enc_i64(v.created_ts_utc)
}

pub open spec fn s_dec_snapshot(s: Seq<u8>) -> Option<(SnapshotV, Seq<u8>)> {
    match s_dec_u64(s) {
        Some((id, s1)) => match s_dec_hash_ref(s1) {
            Some((hash_ref, s2)) => match s_dec_str(s2) {
                Some((family_name, s3)) => match s_dec_str(s3) {
                    Some((msg, s4)) => match s_dec_i64(s4) {
                        Some((ts, s5)) => Some(
                            (
                                SnapshotV {
                                    id,
                                    hash_ref,
                                    family_name,
                                    msg,
                                    created_ts_utc: ts,
                                },
                                s5,
                            ),
                        ),
                        None => None,
                    },
                    None => None,
                },
                None => None,
            },
            None => None,
        },
        None => None,
    }
}

pub open spec fn fits_snapshot(v: SnapshotV) -> bool {
    fits_hash_ref(v.hash_ref) && fits_str(v.family_name) && fits_str(v.msg)
}

pub proof fn lemma_dec_enc_snapshot(v: SnapshotV, rest: Seq<u8>)
    requires
        fits_snapshot(v),
        names_wf_snapshot(v),
    ensures
        s_dec_snapshot(s_enc_snapshot(v) + rest) == Some((v, rest)),
{
    let t4 = s_enc_i64(v.created_ts_utc) + rest;
    let t3 = s_enc_str(v.msg) + t4;
    let t2 = s_enc_str(v.family_name) + t3;
    let t1 = s_enc_hash_ref(v.hash_ref) + t2;
    let a1 = s_enc_u64(v.id);
    let a2 = s_enc_hash_ref(v.hash_ref);
    let a3 = s_enc_str(v.family_name);
    let a4 = s_enc_str(v.msg);
    let a5 = s_enc_i64(v.created_ts_utc);
    lemma_concat_associative(a1 + a2 + a3 + a4, a5, rest);
    lemma_concat_associative(a1 + a2 + a3, a4, t4);
    lemma_concat_associative(a1 + a2, a3, t3);
    lemma_concat_associative(a1, a2, t2);
    assert(s_enc_snapshot(v) + rest == a1 + t1);
    lemma_dec_enc_u64(v.id, t1);
    lemma_dec_enc_hash_ref(v.hash_ref, t2);
    lemma_dec_enc_str(v.family_name, t3);
    lemma_dec_enc_str(v.msg, t4);
    lemma_dec_enc_i64(v.created_ts_utc, rest);
}

pub fn enc_snapshot(out: &mut Vec<u8>, v: &Snapshot)
    ensures
        final(out)@ == old(out)@ + s_enc_snapshot(v@),
        fits_snapshot(v@),
{
    enc_u64(out, v.id);
    enc_hash_ref(out, &v.hash_ref);
    enc_str(out, &v.family_name);
    enc_str(out, &v.msg);
    enc_i64(out, v.created_ts_utc);
    proof {
        assert(final(out)@ =~= old(out)@ + s_enc_snapshot(v@));
    }
}

pub fn dec_snapshot(buf: &Vec<u8>, pos: usize) -> (r: Option<(Snapshot, usize)>)
    requires
        pos <= buf.len(),
    ensures
        match r {
            Some((v, p)) => {
                &&& pos <= p <= buf.len()
                &&& s_dec_snapshot(buf@.skip(pos as int)) == Some((v@, buf@.skip(p as int)))
            },
            None => s_dec_snapshot(buf@.skip(pos as int)) is None,
        },
{
    match dec_u64(buf, pos) {
        Some((id, p1)) => match dec_hash_ref(buf, p1) {
            Some((hash_ref, p2)) => match dec_str(buf, p2) {
                Some((family_name, p3)) => match dec_str(buf, p3) {
                    Some((msg, p4)) => match dec_i64(buf, p4) {
                        Some((ts, p5)) => Some(
                            (
                                Snapshot {
                                    id,
                                    hash_ref,
                                    family_name,
                                    msg,
                                    created_ts_utc: ts,
                                },
                                p5,
                            ),
                        ),
                        None => None,
                    },
                    None => None,
                },
                None => None,
            },
            None => None,
        },
        None => None,
    }
}


// ---------------------------------------------------------------------
// Counted lists
// ---------------------------------------------------------------------

pub open spec fn s_enc_ref_seq(l: Seq<HashRefV>) -> Seq<u8>
    decreases l.len(),
{
    if l.len() == 0 {
        Seq::empty()
    } else {
        s_enc_hash_ref(l[0]) + s_enc_ref_seq(l.drop_first())
    }
}

pub open spec fn s_enc_ref_list(l: Seq<HashRefV>) -> Seq<u8> {
    s_enc_u64(l.len() as u64) + s_enc_ref_seq(l)
}

pub open spec fn s_dec_ref_seq(s: Seq<u8>, n: nat) -> Option<(Seq<HashRefV>, Seq<u8>)>
    decreases n,
{
    if n == 0 {
        Some((Seq::empty(), s))
    } else {
        match s_dec_hash_ref(s) {
            Some((h, rest)) => match s_dec_ref_seq(rest, (n - 1) as nat) {
                Some((tail, rest2)) => Some((seq![h] + tail, rest2)),
                None => None,
            },
            None => None,
        }
    }
}

pub open spec fn s_dec_ref_list(s: Seq<u8>) -> Option<(Seq<HashRefV>, Seq<u8>)> {
    match s_dec_u64(s) {
        Some((n, rest)) => s_dec_ref_seq(rest, n as nat),
        None => None,
    }
}

pub open spec fn fits_ref_seq(l: Seq<HashRefV>) -> bool {
    forall|i: int| 0 <= i < l.len() ==> fits_hash_ref(#[trigger] l[i])
}

pub open spec fn names_wf_ref_seq(l: Seq<HashRefV>) -> bool {
    forall|i: int| 0 <= i < l.len() ==> names_wf_hash_ref(#[trigger] l[i])
}

proof fn lemma_enc_ref_seq_snoc(l: Seq<HashRefV>, x: HashRefV)
    ensures
        s_enc_ref_seq(l.push(x)) == s_enc_ref_seq(l) + s_enc_hash_ref(x),
    decreases l.len(),
{
    if l.len() == 0 {
        assert(l.push(x)[0] == x);
        assert(l.push(x).drop_first() =~= Seq::<HashRefV>::empty());
        assert(s_enc_ref_seq(l.push(x)) == s_enc_hash_ref(x) + s_enc_ref_seq(
            Seq::<HashRefV>::empty(),
        ));
        assert(s_enc_ref_seq(Seq::<HashRefV>::empty()) == Seq::<u8>::empty());
        assert(s_enc_ref_seq(l) == Seq::<u8>::empty());
        assert(s_enc_ref_seq(l.push(x)) =~= s_enc_ref_seq(l) + s_enc_hash_ref(x));
    } else {
        assert(l.push(x)[0] == l[0]);
        assert(l.push(x).drop_first() =~= l.drop_first().push(x));
        lemma_enc_ref_seq_snoc(l.drop_first(), x);
        assert(s_enc_ref_seq(l.push(x)) == s_enc_hash_ref(l[0]) + (s_enc_ref_seq(l.drop_first())
            + s_enc_hash_ref(x)));
        assert(s_enc_ref_seq(l.push(x)) =~= s_enc_ref_seq(l) + s_enc_hash_ref(x));
    }
}

pub proof fn lemma_dec_enc_ref_seq(l: Seq<HashRefV>, rest: Seq<u8>)
    requires
        fits_ref_seq(l),
        names_wf_ref_seq(l),
    ensures
        s_dec_ref_seq(s_enc_ref_seq(l) + rest, l.len() as nat) == Some((l, rest)),
    decreases l.len(),
{
    if l.len() == 0 {
        assert(s_enc_ref_seq(l) + rest =~= rest);
    } else {
        let tail_enc = s_enc_ref_seq(l.drop_first()) + rest;
        vstd::seq_lib::lemma_concat_associative(
            s_enc_hash_ref(l[0]),
            s_enc_ref_seq(l.drop_first()),
            rest,
        );
        assert(s_enc_ref_seq(l) + rest == s_enc_hash_ref(l[0]) + tail_enc);
        lemma_dec_enc_hash_ref(l[0], tail_enc);
        lemma_dec_enc_ref_seq(l.drop_first(), rest);
        assert(seq![l[0]] + l.drop_first() =~= l);
    }
}

pub proof fn lemma_dec_enc_ref_list(l: Seq<HashRefV>, rest: Seq<u8>)
    requires
        fits_ref_seq(l),
        names_wf_ref_seq(l),
        l.len() <= u64::MAX,
    ensures
        s_dec_ref_list(s_enc_ref_list(l) + rest) == Some((l, rest)),
{
    let body = s_enc_ref_seq(l) + rest;
    lemma_concat_associative(s_enc_u64(l.len() as u64), s_enc_ref_seq(l), rest);
    lemma_dec_enc_u64(l.len() as u64, body);
    lemma_dec_enc_ref_seq(l, rest);
}

/// Serialize a node's child list; this is the plaintext of an internal
/// tree node.
pub fn enc_ref_list(refs: &Vec<HashRef>) -> (out: Vec<u8>)
    ensures
        out@ == s_enc_ref_list(refs.deep_view()),
        fits_ref_seq(refs.deep_view()),
        refs.deep_view().len() <= u64::MAX,
{
    let mut out: Vec<u8> = Vec::new();
    enc_u64(&mut out, refs.len() as u64);
    let ghost l = refs.deep_view();
    let mut i: usize = 0;
    while i < refs.len()
        invariant
            i <= refs.len(),
            l == refs.deep_view(),
            out@ == s_enc_u64(refs.len() as u64) + s_enc_ref_seq(l.take(i as int)),
            forall|j: int| 0 <= j < i ==> fits_hash_ref(#[trigger] l[j]),
        decreases refs.len() - i,
    {
        proof {
            lemma_enc_ref_seq_snoc(l.take(i as int), l[i as int]);
            assert(l.take(i as int).push(l[i as int]) =~= l.take(i as int + 1));
        }
        enc_hash_ref(&mut out, &refs[i]);
        i = i + 1;
    }
    proof {
        assert(l.take(l.len() as int) =~= l);
    }
    out
}

/// Parse a node's child list back out of its plaintext.
pub fn dec_ref_list(buf: &Vec<u8>, pos: usize) -> (r: Option<(Vec<HashRef>, usize)>)
    requires
        pos <= buf.len(),
    ensures
        match r {
            Some((v, p)) => {
                &&& pos <= p <= buf.len()
                &&& s_dec_ref_list(buf@.skip(pos as int)) == Some(
                    (v.deep_view(), buf@.skip(p as int)),
                )
            },
            None => s_dec_ref_list(buf@.skip(pos as int)) is None,
        },
{
    match dec_u64(buf, pos) {
        Some((n, p0)) => {
            let mut acc: Vec<HashRef> = Vec::new();
            let mut p = p0;
            let mut i: u64 = 0;
            while i < n
                invariant
                    i <= n,
                    pos <= p0 <= p <= buf.len(),
                    s_dec_u64(buf@.skip(pos as int)) == Some((n, buf@.skip(p0 as int))),
                    s_dec_ref_seq(buf@.skip(p0 as int), n as nat) == (match s_dec_ref_seq(
                        buf@.skip(p as int),
                        (n - i) as nat,
                    ) {
                        Some((tail, r)) => Some((acc.deep_view() + tail, r)),
                        None => None,
                    }),
                decreases n - i,
            {
                match dec_hash_ref(buf, p) {
                    Some((h, p2)) => {
                        proof {
                            let ghost old_dv = acc.deep_view();
                            assert(old_dv + (seq![h@] + s_dec_ref_seq(
                                buf@.skip(p2 as int),
                                (n - i - 1) as nat,
                            )->Some_0.0) =~= (old_dv + seq![h@]) + s_dec_ref_seq(
                                buf@.skip(p2 as int),
                                (n - i - 1) as nat,
                            )->Some_0.0);
                        }
                        let ghost prev_dv = acc.deep_view();
                        acc.push(h);
                        proof {
                            assert(acc.deep_view() =~= prev_dv + seq![h@]);
                        }
                        p = p2;
                        i = i + 1;
                    },
                    None => {
                        return None;
                    },
                }
            }
            proof {
                assert(acc.deep_view() + Seq::<HashRefV>::empty() =~= acc.deep_view());
                assert(s_dec_ref_seq(buf@.skip(p0 as int), n as nat) == Some(
                    (acc.deep_view(), buf@.skip(p as int)),
                ));
            }
            Some((acc, p))
        },
        None => None,
    }
}


pub open spec fn s_enc_entry_seq(l: Seq<(EntryV, ContentV)>) -> Seq<u8>
    decreases l.len(),
{
    if l.len() == 0 {
        Seq::empty()
    } else {
        s_enc_entry(l[0].0, l[0].1) + s_enc_entry_seq(l.drop_first())
    }
}

pub open spec fn s_enc_entry_list(l: Seq<(EntryV, ContentV)>) -> Seq<u8> {
    s_enc_u64(l.len() as u64) + s_enc_entry_seq(l)
}

pub open spec fn s_dec_entry_seq(s: Seq<u8>, n: nat) -> Option<
    (Seq<(EntryV, ContentV)>, Seq<u8>),
>
    decreases n,
{
    if n == 0 {
        Some((Seq::empty(), s))
    } else {
        match s_dec_entry(s) {
            Some((e, rest)) => match s_dec_entry_seq(rest, (n - 1) as nat) {
                Some((tail, rest2)) => Some((seq![e] + tail, rest2)),
                None => None,
            },
            None => None,
        }
    }
}

pub open spec fn s_dec_entry_list(s: Seq<u8>) -> Option<(Seq<(EntryV, ContentV)>, Seq<u8>)> {
    match s_dec_u64(s) {
        Some((n, rest)) => s_dec_entry_seq(rest, n as nat),
        None => None,
    }
}

pub open spec fn fits_entry_seq(l: Seq<(EntryV, ContentV)>) -> bool {
    forall|i: int| 0 <= i < l.len() ==> fits_entry(#[trigger] l[i].0, l[i].1)
}

pub open spec fn names_wf_entry_seq(l: Seq<(EntryV, ContentV)>) -> bool {
    forall|i: int| 0 <= i < l.len() ==> names_wf_entry(#[trigger] l[i].0, l[i].1)
}

proof fn lemma_enc_entry_seq_snoc(l: Seq<(EntryV, ContentV)>, x: (EntryV, ContentV))
    ensures
        s_enc_entry_seq(l.push(x)) == s_enc_entry_seq(l) + s_enc_entry(x.0, x.1),
    decreases l.len(),
{
    if l.len() == 0 {
        assert(l.push(x)[0] == x);
        assert(l.push(x).drop_first() =~= Seq::<(EntryV, ContentV)>::empty());
        assert(s_enc_entry_seq(l.push(x)) == s_enc_entry(x.0, x.1) + s_enc_entry_seq(
            Seq::<(EntryV, ContentV)>::empty(),
        ));
        assert(s_enc_entry_seq(Seq::<(EntryV, ContentV)>::empty()) == Seq::<u8>::empty());
        assert(s_enc_entry_seq(l) == Seq::<u8>::empty());
        assert(s_enc_entry_seq(l.push(x)) =~= s_enc_entry_seq(l) + s_enc_entry(x.0, x.1));
    } else {
        assert(l.push(x)[0] == l[0]);
        assert(l.push(x).drop_first() =~= l.drop_first().push(x));
        lemma_enc_entry_seq_snoc(l.drop_first(), x);
        lemma_concat_associative(
            s_enc_entry(l[0].0, l[0].1),
            s_enc_entry_seq(l.drop_first()),
            s_enc_entry(x.0, x.1),
        );
        assert(s_enc_entry_seq(l.push(x)) == s_enc_entry(l[0].0, l[0].1) + (s_enc_entry_seq(
            l.drop_first(),
        ) + s_enc_entry(x.0, x.1)));
    }
}

pub proof fn lemma_dec_enc_entry_seq(l: Seq<(EntryV, ContentV)>, rest: Seq<u8>)
    requires
        fits_entry_seq(l),
        names_wf_entry_seq(l),
    ensures
        s_dec_entry_seq(s_enc_entry_seq(l) + rest, l.len() as nat) == Some((l, rest)),
    decreases l.len(),
{
    if l.len() == 0 {
        assert(s_enc_entry_seq(l) + rest =~= rest);
    } else {
        let tail_enc = s_enc_entry_seq(l.drop_first()) + rest;
        lemma_concat_associative(
            s_enc_entry(l[0].0, l[0].1),
            s_enc_entry_seq(l.drop_first()),
            rest,
        );
        assert(s_enc_entry_seq(l) + rest == s_enc_entry(l[0].0, l[0].1) + tail_enc);
        lemma_dec_enc_entry(l[0].0, l[0].1, tail_enc);
        lemma_dec_enc_entry_seq(l.drop_first(), rest);
        assert(seq![l[0]] + l.drop_first() =~= l);
    }
}

pub proof fn lemma_dec_enc_entry_list(l: Seq<(EntryV, ContentV)>, rest: Seq<u8>)
    requires
        fits_entry_seq(l),
        names_wf_entry_seq(l),
        l.len() <= u64::MAX,
    ensures
        s_dec_entry_list(s_enc_entry_list(l) + rest) == Some((l, rest)),
{
    let body = s_enc_entry_seq(l) + rest;
    lemma_concat_associative(s_enc_u64(l.len() as u64), s_enc_entry_seq(l), rest);
    lemma_dec_enc_u64(l.len() as u64, body);
    lemma_dec_enc_entry_seq(l, rest);
}

/// Serialize a directory listing; this is the plaintext of a `TreeList`
/// leaf chunk.
pub fn enc_entry_list(entries: &Vec<(Entry, Content)>) -> (out: Vec<u8>)
    ensures
        out@ == s_enc_entry_list(entries.deep_view()),
        fits_entry_seq(entries.deep_view()),
        entries.deep_view().len() <= u64::MAX,
{
    let mut out: Vec<u8> = Vec::new();
    enc_u64(&mut out, entries.len() as u64);
    let ghost l = entries.deep_view();
    let mut i: usize = 0;
    while i < entries.len()
        invariant
            i <= entries.len(),
            l == entries.deep_view(),
            out@ == s_enc_u64(entries.len() as u64) + s_enc_entry_seq(l.take(i as int)),
            forall|j: int| 0 <= j < i ==> fits_entry(#[trigger] l[j].0, l[j].1),
        decreases entries.len() - i,
    {
        proof {
            lemma_enc_entry_seq_snoc(l.take(i as int), l[i as int]);
            assert(l.take(i as int).push(l[i as int]) =~= l.take(i as int + 1));
        }
        enc_entry(&mut out, &entries[i].0, &entries[i].1);
        i = i + 1;
    }
    proof {
        assert(l.take(l.len() as int) =~= l);
    }
    out
}

/// Parse a directory listing out of a `TreeList` leaf chunk's plaintext.
pub fn dec_entry_list(buf: &Vec<u8>, pos: usize) -> (r: Option<(Vec<(Entry, Content)>, usize)>)
    requires
        pos <= buf.len(),
    ensures
        match r {
            Some((v, p)) => {
                &&& pos <= p <= buf.len()
                &&& s_dec_entry_list(buf@.skip(pos as int)) == Some(
                    (v.deep_view(), buf@.skip(p as int)),
                )
            },
            None => s_dec_entry_list(buf@.skip(pos as int)) is None,
        },
{
    match dec_u64(buf, pos) {
        Some((n, p0)) => {
            let mut acc: Vec<(Entry, Content)> = Vec::new();
            let mut p = p0;
            let mut i: u64 = 0;
            while i < n
                invariant
                    i <= n,
                    pos <= p0 <= p <= buf.len(),
                    s_dec_u64(buf@.skip(pos as int)) == Some((n, buf@.skip(p0 as int))),
                    s_dec_entry_seq(buf@.skip(p0 as int), n as nat) == (match s_dec_entry_seq(
                        buf@.skip(p as int),
                        (n - i) as nat,
                    ) {
                        Some((tail, r)) => Some((acc.deep_view() + tail, r)),
                        None => None,
                    }),
                decreases n - i,
            {
                match dec_entry(buf, p) {
                    Some(((e, c), p2)) => {
                        proof {
                            let old_dv = acc.deep_view();
                            assert(old_dv + (seq![(e@, c@)] + s_dec_entry_seq(
                                buf@.skip(p2 as int),
                                (n - i - 1) as nat,
                            )->Some_0.0) =~= (old_dv + seq![(e@, c@)]) + s_dec_entry_seq(
                                buf@.skip(p2 as int),
                                (n - i - 1) as nat,
                            )->Some_0.0);
                        }
                        let ghost prev_dv = acc.deep_view();
                        acc.push((e, c));
                        proof {
                            assert(acc.deep_view() =~= prev_dv + seq![(e@, c@)]);
                        }
                        p = p2;
                        i = i + 1;
                    },
                    None => {
                        return None;
                    },
                }
            }
            proof {
                assert(acc.deep_view() + Seq::<(EntryV, ContentV)>::empty() =~= acc.deep_view());
                assert(s_dec_entry_seq(buf@.skip(p0 as int), n as nat) == Some(
                    (acc.deep_view(), buf@.skip(p as int)),
                ));
            }
            Some((acc, p))
        },
        None => None,
    }
}

pub open spec fn s_enc_snap_seq(l: Seq<SnapshotV>) -> Seq<u8>
    decreases l.len(),
{
    if l.len() == 0 {
        Seq::empty()
    } else {
        s_enc_snapshot(l[0]) + s_enc_snap_seq(l.drop_first())
    }
}

pub open spec fn s_enc_snap_list(l: Seq<SnapshotV>) -> Seq<u8> {
    s_enc_u64(l.len() as u64) + s_enc_snap_seq(l)
}

pub open spec fn s_dec_snap_seq(s: Seq<u8>, n: nat) -> Option<(Seq<SnapshotV>, Seq<u8>)>
    decreases n,
{
    if n == 0 {
        Some((Seq::empty(), s))
    } else {
        match s_dec_snapshot(s) {
            Some((v, rest)) => match s_dec_snap_seq(rest, (n - 1) as nat) {
                Some((tail, rest2)) => Some((seq![v] + tail, rest2)),
                None => None,
            },
            None => None,
        }
    }
}

pub open spec fn s_dec_snap_list(s: Seq<u8>) -> Option<(Seq<SnapshotV>, Seq<u8>)> {
    match s_dec_u64(s) {
        Some((n, rest)) => s_dec_snap_seq(rest, n as nat),
        None => None,
    }
}

pub open spec fn fits_snap_seq(l: Seq<SnapshotV>) -> bool {
    forall|i: int| 0 <= i < l.len() ==> fits_snapshot(#[trigger] l[i])
}

pub open spec fn names_wf_snap_seq(l: Seq<SnapshotV>) -> bool {
    forall|i: int| 0 <= i < l.len() ==> names_wf_snapshot(#[trigger] l[i])
}

proof fn lemma_enc_snap_seq_snoc(l: Seq<SnapshotV>, x: SnapshotV)
    ensures
        s_enc_snap_seq(l.push(x)) == s_enc_snap_seq(l) + s_enc_snapshot(x),
    decreases l.len(),
{
    if l.len() == 0 {
        assert(l.push(x)[0] == x);
        assert(l.push(x).drop_first() =~= Seq::<SnapshotV>::empty());
        assert(s_enc_snap_seq(l.push(x)) == s_enc_snapshot(x) + s_enc_snap_seq(
            Seq::<SnapshotV>::empty(),
        ));
        assert(s_enc_snap_seq(Seq::<SnapshotV>::empty()) == Seq::<u8>::empty());
        assert(s_enc_snap_seq(l) == Seq::<u8>::empty());
        assert(s_enc_snap_seq(l.push(x)) =~= s_enc_snap_seq(l) + s_enc_snapshot(x));
    } else {
        assert(l.push(x)[0] == l[0]);
        assert(l.push(x).drop_first() =~= l.drop_first().push(x));
        lemma_enc_snap_seq_snoc(l.drop_first(), x);
        lemma_concat_associative(
            s_enc_snapshot(l[0]),
            s_enc_snap_seq(l.drop_first()),
            s_enc_snapshot(x),
        );
        assert(s_enc_snap_seq(l.push(x)) == s_enc_snapshot(l[0]) + (s_enc_snap_seq(l.drop_first())
            + s_enc_snapshot(x)));
    }
}

pub proof fn lemma_dec_enc_snap_seq(l: Seq<SnapshotV>, rest: Seq<u8>)
    requires
        fits_snap_seq(l),
        names_wf_snap_seq(l),
    ensures
        s_dec_snap_seq(s_enc_snap_seq(l) + rest, l.len() as nat) == Some((l, rest)),
    decreases l.len(),
{
    if l.len() == 0 {
        assert(s_enc_snap_seq(l) + rest =~= rest);
    } else {
        let tail_enc = s_enc_snap_seq(l.drop_first()) + rest;
        lemma_concat_associative(s_enc_snapshot(l[0]), s_enc_snap_seq(l.drop_first()), rest);
        assert(s_enc_snap_seq(l) + rest == s_enc_snapshot(l[0]) + tail_enc);
        lemma_dec_enc_snapshot(l[0], tail_enc);
        lemma_dec_enc_snap_seq(l.drop_first(), rest);
        assert(seq![l[0]] + l.drop_first() =~= l);
    }
}

pub proof fn lemma_dec_enc_snap_list(l: Seq<SnapshotV>, rest: Seq<u8>)
    requires
        fits_snap_seq(l),
        names_wf_snap_seq(l),
        l.len() <= u64::MAX,
    ensures
        s_dec_snap_list(s_enc_snap_list(l) + rest) == Some((l, rest)),
{
    let body = s_enc_snap_seq(l) + rest;
    lemma_concat_associative(s_enc_u64(l.len() as u64), s_enc_snap_seq(l), rest);
    lemma_dec_enc_u64(l.len() as u64, body);
    lemma_dec_enc_snap_seq(l, rest);
}

/// Serialize a snapshot roster segment; this is the plaintext of a
/// `SnapshotList` leaf chunk.
pub fn enc_snap_list(snaps: &Vec<Snapshot>) -> (out: Vec<u8>)
    ensures
        out@ == s_enc_snap_list(snaps.deep_view()),
        fits_snap_seq(snaps.deep_view()),
        snaps.deep_view().len() <= u64::MAX,
{
    let mut out: Vec<u8> = Vec::new();
    enc_u64(&mut out, snaps.len() as u64);
    let ghost l = snaps.deep_view();
    let mut i: usize = 0;
    while i < snaps.len()
        invariant
            i <= snaps.len(),
            l == snaps.deep_view(),
            out@ == s_enc_u64(snaps.len() as u64) + s_enc_snap_seq(l.take(i as int)),
            forall|j: int| 0 <= j < i ==> fits_snapshot(#[trigger] l[j]),
        decreases snaps.len() - i,
    {
        proof {
            lemma_enc_snap_seq_snoc(l.take(i as int), l[i as int]);
            assert(l.take(i as int).push(l[i as int]) =~= l.take(i as int + 1));
        }
        enc_snapshot(&mut out, &snaps[i]);
        i = i + 1;
    }
    proof {
        assert(l.take(l.len() as int) =~= l);
    }
    out
}

/// Parse a snapshot roster segment back out of its plaintext.
pub fn dec_snap_list(buf: &Vec<u8>, pos: usize) -> (r: Option<(Vec<Snapshot>, usize)>)
    requires
        pos <= buf.len(),
    ensures
        match r {
            Some((v, p)) => {
                &&& pos <= p <= buf.len()
                &&& s_dec_snap_list(buf@.skip(pos as int)) == Some(
                    (v.deep_view(), buf@.skip(p as int)),
                )
            },
            None => s_dec_snap_list(buf@.skip(pos as int)) is None,
        },
{
    match dec_u64(buf, pos) {
        Some((n, p0)) => {
            let mut acc: Vec<Snapshot> = Vec::new();
            let mut p = p0;
            let mut i: u64 = 0;
            while i < n
                invariant
                    i <= n,
                    pos <= p0 <= p <= buf.len(),
                    s_dec_u64(buf@.skip(pos as int)) == Some((n, buf@.skip(p0 as int))),
                    s_dec_snap_seq(buf@.skip(p0 as int), n as nat) == (match s_dec_snap_seq(
                        buf@.skip(p as int),
                        (n - i) as nat,
                    ) {
                        Some((tail, r)) => Some((acc.deep_view() + tail, r)),
                        None => None,
                    }),
                decreases n - i,
            {
                match dec_snapshot(buf, p) {
                    Some((v, p2)) => {
                        proof {
                            let old_dv = acc.deep_view();
                            assert(old_dv + (seq![v@] + s_dec_snap_seq(
                                buf@.skip(p2 as int),
                                (n - i - 1) as nat,
                            )->Some_0.0) =~= (old_dv + seq![v@]) + s_dec_snap_seq(
                                buf@.skip(p2 as int),
                                (n - i - 1) as nat,
                            )->Some_0.0);
                        }
                        let ghost prev_dv = acc.deep_view();
                        acc.push(v);
                        proof {
                            assert(acc.deep_view() =~= prev_dv + seq![v@]);
                        }
                        p = p2;
                        i = i + 1;
                    },
                    None => {
                        return None;
                    },
                }
            }
            proof {
                assert(acc.deep_view() + Seq::<SnapshotV>::empty() =~= acc.deep_view());
                assert(s_dec_snap_seq(buf@.skip(p0 as int), n as nat) == Some(
                    (acc.deep_view(), buf@.skip(p as int)),
                ));
            }
            Some((acc, p))
        },
        None => None,
    }
}

} // verus!
