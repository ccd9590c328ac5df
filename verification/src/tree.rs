//! Hash-tree storage: turning byte streams into Merkle trees of
//! encrypted chunks held by a blob store, and reading them back.
//!
//! The meaning of a `HashRef` is given by `tree_bytes`: the byte sequence
//! reachable from it through a given store contents map, or `None` when a
//! blob is missing, fails to decrypt, fails its hash check or decodes to
//! an ill-formed node.

use vstd::prelude::*;
use vstd::seq_lib::lemma_concat_associative;

use crate::backend::{extends, lemma_extends_trans, HatError, StoreBackend};
use crate::codec::{
    dec_ref_list, enc_ref_list, fits_hash_ref, fits_ref_seq, names_wf_hash_ref,
    names_wf_ref_seq, s_dec_ref_list, s_enc_ref_list,
};
use crate::crypto::{
    aead_open, aead_open_spec, aead_seal, gzip_unpack, gzip_unpack_spec, hash_bytes, hash_of,
    snappy_pack, snappy_unpack, snappy_unpack_spec,
};
use crate::codec::copy_range;
use crate::codec::lemma_dec_enc_ref_list;
use crate::backend::bytes_eq;
use crate::models::{
    ChunkRef, ChunkRefV, ExtraInfo, ExtraInfoV, HashRef, HashRefV, Key, KeyV, LeafType, Packing,
};

verus! {

/// Decompress according to the packing tag.
pub open spec fn unpack_spec(p: Packing, data: Seq<u8>) -> Option<Seq<u8>> {
    match p {
        Packing::Raw => Some(data),
        Packing::Snappy => snappy_unpack_spec(data),
        Packing::GZip => gzip_unpack_spec(data),
    }
}

/// Decrypt according to the chunk's key material.
pub open spec fn unseal_spec(master: Seq<u8>, k: KeyV, data: Seq<u8>) -> Option<Seq<u8>> {
    match k {
        KeyV::Plain => Some(data),
        KeyV::AeadChacha20Poly1305(nonce) => {
            if nonce.len() == 12 {
                aead_open_spec(master, nonce, data)
            } else {
                None
            }
        },
    }
}

/// The plaintext a `ChunkRef` denotes in the given store contents.
pub open spec fn chunk_plain_spec(
    master: Seq<u8>,
    contents: Map<Seq<u8>, Seq<u8>>,
    cr: ChunkRefV,
) -> Option<Seq<u8>> {
    if contents.contains_key(cr.blob_name) {
        let blob = contents[cr.blob_name];
        if cr.offset + cr.length <= blob.len() {
            let seg = blob.subrange(cr.offset as int, cr.offset as int + cr.length as int);
            match unseal_spec(master, cr.key, seg) {
                Some(packed) => unpack_spec(cr.packing, packed),
                None => None,
            }
        } else {
            None
        }
    } else {
        None
    }
}

/// The plaintext a `HashRef`'s own chunk denotes, with the integrity
/// check that its digest matches the reference.
pub open spec fn node_plain_spec(
    master: Seq<u8>,
    contents: Map<Seq<u8>, Seq<u8>>,
    h: HashRefV,
) -> Option<Seq<u8>> {
    match chunk_plain_spec(master, contents, h.chunk_ref) {
        Some(pt) => {
            if hash_of(pt) == h.hash {
                Some(pt)
            } else {
                None
            }
        },
        None => None,
    }
}

/// The byte sequence reachable from a `HashRef`: a leaf's plaintext, or
/// the concatenation of its children's bytes.
pub open spec fn tree_bytes(
    master: Seq<u8>,
    contents: Map<Seq<u8>, Seq<u8>>,
    h: HashRefV,
) -> Option<Seq<u8>>
    decreases h.height, 0int, 1int,
{
    match node_plain_spec(master, contents, h) {
        Some(pt) => {
            if h.height == 0 {
                Some(pt)
            } else {
                match s_dec_ref_list(pt) {
                    Some((refs, rest)) => {
                        if rest.len() == 0 {
                            trees_bytes(
                                master,
                                contents,
                                refs,
                                (h.height - 1) as u64,
                                h.leaf_type,
                            )
                        } else {
                            None
                        }
                    },
                    None => None,
                }
            }
        },
        None => None,
    }
}

/// The concatenated bytes of a sequence of sibling references, all of the
/// given height and leaf type.
pub open spec fn trees_bytes(
    master: Seq<u8>,
    contents: Map<Seq<u8>, Seq<u8>>,
    refs: Seq<HashRefV>,
    ht: u64,
    lt: LeafType,
) -> Option<Seq<u8>>
    decreases ht, refs.len(), 0int,
{
    if refs.len() == 0 {
        Some(Seq::empty())
    } else if refs[0].height == ht && refs[0].leaf_type == lt {
        match tree_bytes(master, contents, refs[0]) {
            Some(b) => match trees_bytes(master, contents, refs.drop_first(), ht, lt) {
                Some(tail) => Some(b + tail),
                None => None,
            },
            None => None,
        }
    } else {
        None
    }
}

/// Growing the store never changes the bytes an existing tree denotes.
pub proof fn lemma_tree_bytes_mono(
    master: Seq<u8>,
    m1: Map<Seq<u8>, Seq<u8>>,
    m2: Map<Seq<u8>, Seq<u8>>,
    h: HashRefV,
)
    requires
        extends(m1, m2),
        tree_bytes(master, m1, h) is Some,
    ensures
        tree_bytes(master, m2, h) == tree_bytes(master, m1, h),
    decreases h.height, 0int, 1int,
{
    assert(m1.contains_key(h.chunk_ref.blob_name));
    assert(m2[h.chunk_ref.blob_name] == m1[h.chunk_ref.blob_name]);
    let pt = node_plain_spec(master, m1, h)->Some_0;
    assert(node_plain_spec(master, m2, h) == Some(pt));
    if h.height != 0 {
        let (refs, rest) = s_dec_ref_list(pt)->Some_0;
        lemma_trees_bytes_mono(master, m1, m2, refs, (h.height - 1) as u64, h.leaf_type);
    }
}

pub proof fn lemma_trees_bytes_mono(
    master: Seq<u8>,
    m1: Map<Seq<u8>, Seq<u8>>,
    m2: Map<Seq<u8>, Seq<u8>>,
    refs: Seq<HashRefV>,
    ht: u64,
    lt: LeafType,
)
    requires
        extends(m1, m2),
        trees_bytes(master, m1, refs, ht, lt) is Some,
    ensures
        trees_bytes(master, m2, refs, ht, lt) == trees_bytes(master, m1, refs, ht, lt),
    decreases ht, refs.len(), 0int,
{
    if refs.len() == 0 {
    } else {
        lemma_tree_bytes_mono(master, m1, m2, refs[0]);
        lemma_trees_bytes_mono(master, m1, m2, refs.drop_first(), ht, lt);
    }
}

/// Sibling bytes split around an appended reference.
pub proof fn lemma_trees_bytes_snoc(
    master: Seq<u8>,
    contents: Map<Seq<u8>, Seq<u8>>,
    refs: Seq<HashRefV>,
    x: HashRefV,
    ht: u64,
    lt: LeafType,
)
    requires
        trees_bytes(master, contents, refs, ht, lt) is Some,
        tree_bytes(master, contents, x) is Some,
        x.height == ht,
        x.leaf_type == lt,
    ensures
        trees_bytes(master, contents, refs.push(x), ht, lt) == Some(
            trees_bytes(master, contents, refs, ht, lt)->Some_0 + tree_bytes(
                master,
                contents,
                x,
            )->Some_0,
        ),
    decreases refs.len(),
{
    if refs.len() == 0 {
        assert(refs.push(x)[0] == x);
        assert(refs.push(x).drop_first() =~= Seq::<HashRefV>::empty());
        let xb = tree_bytes(master, contents, x)->Some_0;
        assert(trees_bytes(master, contents, Seq::<HashRefV>::empty(), ht, lt) == Some(
            Seq::<u8>::empty(),
        ));
        assert(trees_bytes(master, contents, refs.push(x), ht, lt) == Some(
            xb + Seq::<u8>::empty(),
        ));
        assert(xb + Seq::<u8>::empty() =~= Seq::<u8>::empty() + xb);
    } else {
        assert(refs.push(x)[0] == refs[0]);
        assert(refs.push(x).drop_first() =~= refs.drop_first().push(x));
        lemma_trees_bytes_snoc(master, contents, refs.drop_first(), x, ht, lt);
        let b0 = tree_bytes(master, contents, refs[0])->Some_0;
        let tl = trees_bytes(master, contents, refs.drop_first(), ht, lt)->Some_0;
        let xb = tree_bytes(master, contents, x)->Some_0;
        lemma_concat_associative(b0, tl, xb);
        assert(trees_bytes(master, contents, refs.push(x), ht, lt) == Some(b0 + (tl + xb)));
        assert(trees_bytes(master, contents, refs, ht, lt) == Some(b0 + tl));
    }
}

/// Seal one plaintext chunk: digest, compress when it pays, encrypt under
/// a fresh nonce, and bind the ciphertext to its own digest in the store.
/// A name collision with different bytes is reported as an integrity
/// error rather than overwriting history.
pub fn seal_chunk<B: StoreBackend>(
    b: &mut B,
    master: &Vec<u8>,
    pt: &Vec<u8>,
    height: u64,
    leaf_type: LeafType,
) -> (r: Result<HashRef, HatError>)
    requires
        old(b).inv(),
        master@.len() == 32,
    ensures
        final(b).inv(),
        final(b).reliable() == old(b).reliable(),
        extends(old(b).contents(), final(b).contents()),
        r matches Ok(h) ==> {
            &&& node_plain_spec(master@, final(b).contents(), h@) == Some(pt@)
            &&& h@.height == 0 ==> tree_bytes(master@, final(b).contents(), h@) == Some(pt@)
            &&& h@.height == height
            &&& h@.leaf_type == leaf_type
            &&& h@.extra is Absent
            &&& h@.hash == hash_of(pt@)
            &&& fits_hash_ref(h@)
            &&& names_wf_hash_ref(h@)
        },
{
    let hash = hash_bytes(pt);

    let (packing, packed): (Packing, Vec<u8>) = match snappy_pack(pt) {
        Ok(c) => {
            if c.len() < pt.len() {
                (Packing::Snappy, c)
            } else {
                let mut copy: Vec<u8> = Vec::new();
                copy.extend_from_slice(pt.as_slice());
                proof {
                    assert(copy@ =~= pt@);
                }
                (Packing::Raw, copy)
            }
        },
        Err(_) => {
            let mut copy: Vec<u8> = Vec::new();
            copy.extend_from_slice(pt.as_slice());
            proof {
                assert(copy@ =~= pt@);
            }
            (Packing::Raw, copy)
        },
    };

    let (nonce, ct) = match aead_seal(master, &packed) {
        Ok(p) => p,
        Err(e) => {
            return Err(e);
        },
    };

    let name = hash_bytes(&ct);

    let stored = match b.retrieve(&name) {
        Ok(Some(existing)) => {
            if bytes_eq(&existing, &ct) {
                true
            } else {
                return Err(HatError::Integrity);
            }
        },
        Ok(None) => false,
        Err(e) => {
            return Err(e);
        },
    };

    let ghost pre = b.contents();
    if !stored {
        let mut name_copy: Vec<u8> = Vec::new();
        name_copy.extend_from_slice(name.as_slice());
        let mut ct_copy: Vec<u8> = Vec::new();
        ct_copy.extend_from_slice(ct.as_slice());
        proof {
            assert(name_copy@ =~= name@);
            assert(ct_copy@ =~= ct@);
        }
        match b.store(name_copy, ct_copy) {
            Ok(()) => {},
            Err(e) => {
                return Err(e);
            },
        }
    }

    let length = ct.len() as u64;
    let href = HashRef {
        hash,
        chunk_ref: ChunkRef {
            blob_name: name,
            offset: 0,
            length,
            packing,
            key: Key::AeadChacha20Poly1305(nonce),
        },
        height,
        leaf_type,
        extra: ExtraInfo::Absent,
    };
    proof {
        let c = final(b).contents();
        assert(c.contains_key(href@.chunk_ref.blob_name));
        assert(c[href@.chunk_ref.blob_name] == ct@);
        assert(ct@.subrange(0, ct@.len() as int) =~= ct@);
        assert(unseal_spec(master@, href@.chunk_ref.key, ct@) == Some(packed@));
        assert(unpack_spec(href@.chunk_ref.packing, packed@) == Some(pt@));
        assert(node_plain_spec(master@, c, href@) == Some(pt@));
    }
    Ok(href)
}

/// Fetch and open the chunk behind a reference, verifying its digest.
pub fn fetch_node_plain<B: StoreBackend>(b: &mut B, master: &Vec<u8>, href: &HashRef) -> (r:
    Result<Vec<u8>, HatError>)
    requires
        old(b).inv(),
        master@.len() == 32,
    ensures
        final(b).inv(),
        final(b).reliable() == old(b).reliable(),
        final(b).contents() == old(b).contents(),
        r matches Ok(v) ==> node_plain_spec(master@, old(b).contents(), href@) == Some(v@),
        old(b).reliable() && node_plain_spec(master@, old(b).contents(), href@) is Some ==> r
            is Ok,
{
    let blob = match b.retrieve(&href.chunk_ref.blob_name) {
        Ok(Some(v)) => v,
        Ok(None) => {
            return Err(HatError::Integrity);
        },
        Err(e) => {
            return Err(e);
        },
    };

    let offset = href.chunk_ref.offset;
    let length = href.chunk_ref.length;
    if offset > blob.len() as u64 || length > blob.len() as u64 - offset {
        return Err(HatError::Integrity);
    }
    proof {
        assert(blob@.len() <= usize::MAX);
        assert((offset as usize) as int == offset as int);
        assert((length as usize) as int == length as int);
    }
    let seg = copy_range(&blob, offset as usize, length as usize);
    proof {
        let cr = href@.chunk_ref;
        assert(seg@ == old(b).contents()[cr.blob_name].subrange(
            cr.offset as int,
            cr.offset as int + cr.length as int,
        ));
    }

    let ghost segv = seg@;
    let ghost keyv = href@.chunk_ref.key;
    let packed = match &href.chunk_ref.key {
        Key::Plain => seg,
        Key::AeadChacha20Poly1305(nonce) => {
            if nonce.len() != 12 {
                proof {
                    assert(unseal_spec(master@, keyv, segv) is None);
                }
                return Err(HatError::Integrity);
            }
            match aead_open(master, nonce, &seg) {
                Some(p) => p,
                None => {
                    proof {
                        assert(unseal_spec(master@, keyv, segv) is None);
                    }
                    return Err(HatError::Integrity);
                },
            }
        },
    };
    proof {
        assert(unseal_spec(master@, keyv, segv) == Some(packed@));
    }

    let ghost packedv = packed@;
    let pt = match href.chunk_ref.packing {
        Packing::Raw => packed,
        Packing::Snappy => match snappy_unpack(&packed) {
            Some(p) => p,
            None => {
                proof {
                    assert(unpack_spec(href@.chunk_ref.packing, packedv) is None);
                }
                return Err(HatError::Integrity);
            },
        },
        Packing::GZip => match gzip_unpack(&packed) {
            Some(p) => p,
            None => {
                proof {
                    assert(unpack_spec(href@.chunk_ref.packing, packedv) is None);
                }
                return Err(HatError::Integrity);
            },
        },
    };
    proof {
        assert(unpack_spec(href@.chunk_ref.packing, packedv) == Some(pt@));
        assert(chunk_plain_spec(master@, old(b).contents(), href@.chunk_ref) == Some(pt@));
    }

    let digest = hash_bytes(&pt);
    if !bytes_eq(&digest, &href.hash) {
        proof {
            assert(hash_of(pt@) != href@.hash);
            assert(node_plain_spec(master@, old(b).contents(), href@) is None);
        }
        return Err(HatError::Integrity);
    }
    Ok(pt)
}


/// One reference as the writer keeps it: correct height and leaf type,
/// encodable, and denoting some byte sequence in the store.
pub open spec fn ref_ok(
    master: Seq<u8>,
    contents: Map<Seq<u8>, Seq<u8>>,
    h: HashRefV,
    ht: u64,
    lt: LeafType,
) -> bool {
    &&& h.height == ht
    &&& h.leaf_type == lt
    &&& fits_hash_ref(h)
    &&& names_wf_hash_ref(h)
    &&& tree_bytes(master, contents, h) is Some
}

pub open spec fn level_ok(
    master: Seq<u8>,
    contents: Map<Seq<u8>, Seq<u8>>,
    refs: Seq<HashRefV>,
    ht: u64,
    lt: LeafType,
) -> bool {
    forall|i: int| 0 <= i < refs.len() ==> ref_ok(master, contents, #[trigger] refs[i], ht, lt)
}

/// The bytes the writer's pending buffers denote: higher levels hold
/// older data, so they come first.
pub open spec fn levels_bytes(
    master: Seq<u8>,
    contents: Map<Seq<u8>, Seq<u8>>,
    ls: Seq<Seq<HashRefV>>,
    lt: LeafType,
) -> Option<Seq<u8>>
    decreases ls.len(),
{
    if ls.len() == 0 {
        Some(Seq::empty())
    } else {
        match trees_bytes(master, contents, ls.last(), (ls.len() - 1) as u64, lt) {
            Some(hd) => match levels_bytes(master, contents, ls.drop_last(), lt) {
                Some(tl) => Some(hd + tl),
                None => None,
            },
            None => None,
        }
    }
}

proof fn lemma_level_defined(
    master: Seq<u8>,
    contents: Map<Seq<u8>, Seq<u8>>,
    refs: Seq<HashRefV>,
    ht: u64,
    lt: LeafType,
)
    requires
        level_ok(master, contents, refs, ht, lt),
    ensures
        trees_bytes(master, contents, refs, ht, lt) is Some,
    decreases refs.len(),
{
    if refs.len() > 0 {
        assert(ref_ok(master, contents, refs[0], ht, lt));
        assert(level_ok(master, contents, refs.drop_first(), ht, lt)) by {
            assert(forall|i: int|
                0 <= i < refs.drop_first().len() ==> refs.drop_first()[i] == refs[i + 1]);
        }
        lemma_level_defined(master, contents, refs.drop_first(), ht, lt);
    }
}

proof fn lemma_levels_defined(
    master: Seq<u8>,
    contents: Map<Seq<u8>, Seq<u8>>,
    ls: Seq<Seq<HashRefV>>,
    lt: LeafType,
)
    requires
        forall|l: int|
            0 <= l < ls.len() ==> level_ok(master, contents, #[trigger] ls[l], l as u64, lt),
    ensures
        levels_bytes(master, contents, ls, lt) is Some,
    decreases ls.len(),
{
    if ls.len() > 0 {
        lemma_level_defined(master, contents, ls.last(), (ls.len() - 1) as u64, lt);
        assert(forall|l: int|
            0 <= l < ls.drop_last().len() ==> ls.drop_last()[l] == ls[l]);
        lemma_levels_defined(master, contents, ls.drop_last(), lt);
    }
}

proof fn lemma_levels_mono(
    master: Seq<u8>,
    m1: Map<Seq<u8>, Seq<u8>>,
    m2: Map<Seq<u8>, Seq<u8>>,
    ls: Seq<Seq<HashRefV>>,
    lt: LeafType,
)
    requires
        extends(m1, m2),
        levels_bytes(master, m1, ls, lt) is Some,
    ensures
        levels_bytes(master, m2, ls, lt) == levels_bytes(master, m1, ls, lt),
    decreases ls.len(),
{
    if ls.len() > 0 {
        lemma_trees_bytes_mono(master, m1, m2, ls.last(), (ls.len() - 1) as u64, lt);
        lemma_levels_mono(master, m1, m2, ls.drop_last(), lt);
    }
}

/// Appending an empty top level changes nothing.
proof fn lemma_levels_push_empty_top(
    master: Seq<u8>,
    contents: Map<Seq<u8>, Seq<u8>>,
    ls: Seq<Seq<HashRefV>>,
    lt: LeafType,
)
    requires
        levels_bytes(master, contents, ls, lt) is Some,
    ensures
        levels_bytes(master, contents, ls.push(Seq::empty()), lt) == levels_bytes(
            master,
            contents,
            ls,
            lt,
        ),
{
    let ls2 = ls.push(Seq::<HashRefV>::empty());
    assert(ls2.last() =~= Seq::<HashRefV>::empty());
    assert(ls2.drop_last() =~= ls);
    assert(trees_bytes(master, contents, ls2.last(), (ls2.len() - 1) as u64, lt) == Some(
        Seq::<u8>::empty(),
    ));
    let tl = levels_bytes(master, contents, ls, lt)->Some_0;
    assert(Seq::<u8>::empty() + tl =~= tl);
}

/// Appending a leaf to the bottom level appends its bytes to the total.
proof fn lemma_levels_push_leaf(
    master: Seq<u8>,
    contents: Map<Seq<u8>, Seq<u8>>,
    ls: Seq<Seq<HashRefV>>,
    x: HashRefV,
    lt: LeafType,
)
    requires
        ls.len() >= 1,
        levels_bytes(master, contents, ls, lt) is Some,
        trees_bytes(master, contents, ls[0], 0, lt) is Some,
        tree_bytes(master, contents, x) is Some,
        x.height == 0,
        x.leaf_type == lt,
    ensures
        levels_bytes(master, contents, ls.update(0, ls[0].push(x)), lt) == Some(
            levels_bytes(master, contents, ls, lt)->Some_0 + tree_bytes(
                master,
                contents,
                x,
            )->Some_0,
        ),
    decreases ls.len(),
{
    let ls2 = ls.update(0, ls[0].push(x));
    let xb = tree_bytes(master, contents, x)->Some_0;
    if ls.len() == 1 {
        assert(ls2.last() == ls[0].push(x));
        assert(ls2.drop_last() =~= Seq::<Seq<HashRefV>>::empty());
        lemma_trees_bytes_snoc(master, contents, ls[0], x, 0, lt);
        let hd = trees_bytes(master, contents, ls[0], 0, lt)->Some_0;
        assert(levels_bytes(master, contents, ls2, lt) == Some((hd + xb) + Seq::<u8>::empty()));
        assert(ls.drop_last() =~= Seq::<Seq<HashRefV>>::empty());
        assert(levels_bytes(master, contents, ls, lt) == Some(hd + Seq::<u8>::empty()));
        assert(hd + Seq::<u8>::empty() =~= hd);
        assert((hd + xb) + Seq::<u8>::empty() =~= hd + xb);
    } else {
        assert(ls2.last() == ls.last());
        assert(ls2.drop_last() =~= ls.drop_last().update(0, ls[0].push(x)));
        assert(ls.drop_last()[0] == ls[0]);
        lemma_levels_push_leaf(master, contents, ls.drop_last(), x, lt);
        let hd = trees_bytes(master, contents, ls.last(), (ls.len() - 1) as u64, lt)->Some_0;
        let tl = levels_bytes(master, contents, ls.drop_last(), lt)->Some_0;
        lemma_concat_associative(hd, tl, xb);
        assert(levels_bytes(master, contents, ls2, lt) == Some(hd + (tl + xb)));
        assert(levels_bytes(master, contents, ls, lt) == Some(hd + tl));
    }
}

/// Packing a full level into one parent reference on the level above
/// leaves the denoted bytes unchanged.
proof fn lemma_levels_carry(
    master: Seq<u8>,
    contents: Map<Seq<u8>, Seq<u8>>,
    ls: Seq<Seq<HashRefV>>,
    lvl: int,
    parent: HashRefV,
    lt: LeafType,
)
    requires
        0 <= lvl,
        lvl + 1 < ls.len(),
        levels_bytes(master, contents, ls, lt) is Some,
        trees_bytes(master, contents, ls[lvl], lvl as u64, lt) is Some,
        trees_bytes(master, contents, ls[lvl + 1], (lvl + 1) as u64, lt) is Some,
        tree_bytes(master, contents, parent) == trees_bytes(
            master,
            contents,
            ls[lvl],
            lvl as u64,
            lt,
        ),
        parent.height == lvl + 1,
        parent.leaf_type == lt,
    ensures
        levels_bytes(
            master,
            contents,
            ls.update(lvl, Seq::empty()).update(lvl + 1, ls[lvl + 1].push(parent)),
            lt,
        ) == levels_bytes(master, contents, ls, lt),
    decreases ls.len(),
{
    let ls2 = ls.update(lvl, Seq::<HashRefV>::empty()).update(lvl + 1, ls[lvl + 1].push(parent));
    if ls.len() - 1 == lvl + 1 {
        assert(ls2.last() == ls[lvl + 1].push(parent));
        lemma_trees_bytes_snoc(master, contents, ls[lvl + 1], parent, (lvl + 1) as u64, lt);
        let up = trees_bytes(master, contents, ls[lvl + 1], (lvl + 1) as u64, lt)->Some_0;
        let pb = tree_bytes(master, contents, parent)->Some_0;
        assert(trees_bytes(master, contents, ls2.last(), (ls2.len() - 1) as u64, lt) == Some(
            up + pb,
        ));
        // drop the top level on both sides
        assert(ls2.drop_last() =~= ls.drop_last().update(lvl, Seq::<HashRefV>::empty()));
        assert(ls.drop_last().last() == ls[lvl]);
        assert(ls2.drop_last().last() =~= Seq::<HashRefV>::empty());
        assert(ls2.drop_last().drop_last() =~= ls.drop_last().drop_last());
        let rest = levels_bytes(master, contents, ls.drop_last().drop_last(), lt);
        assert(rest is Some);
        let restb = rest->Some_0;
        assert(trees_bytes(
            master,
            contents,
            ls2.drop_last().last(),
            (ls2.drop_last().len() - 1) as u64,
            lt,
        ) == Some(Seq::<u8>::empty()));
        assert(levels_bytes(master, contents, ls2.drop_last(), lt) == Some(
            Seq::<u8>::empty() + restb,
        ));
        assert(Seq::<u8>::empty() + restb =~= restb);
        assert(levels_bytes(master, contents, ls2, lt) == Some((up + pb) + restb));
        assert(levels_bytes(master, contents, ls.drop_last(), lt) == Some(pb + restb));
        assert(levels_bytes(master, contents, ls, lt) == Some(up + (pb + restb)));
        lemma_concat_associative(up, pb, restb);
    } else {
        assert(ls2.last() == ls.last());
        assert(ls2.drop_last() =~= ls.drop_last().update(lvl, Seq::<HashRefV>::empty()).update(
            lvl + 1,
            ls[lvl + 1].push(parent),
        ));
        assert(ls.drop_last()[lvl] == ls[lvl]);
        assert(ls.drop_last()[lvl + 1] == ls[lvl + 1]);
        lemma_levels_carry(master, contents, ls.drop_last(), lvl, parent, lt);
    }
}

/// When every level below the top is empty, the total is the top level's
/// bytes.
proof fn lemma_levels_top_only(
    master: Seq<u8>,
    contents: Map<Seq<u8>, Seq<u8>>,
    ls: Seq<Seq<HashRefV>>,
    lt: LeafType,
)
    requires
        ls.len() >= 1,
        levels_bytes(master, contents, ls, lt) is Some,
        forall|l: int| 0 <= l < ls.len() - 1 ==> (#[trigger] ls[l]).len() == 0,
    ensures
        levels_bytes(master, contents, ls, lt) == trees_bytes(
            master,
            contents,
            ls.last(),
            (ls.len() - 1) as u64,
            lt,
        ),
    decreases ls.len(),
{
    let hd = trees_bytes(master, contents, ls.last(), (ls.len() - 1) as u64, lt)->Some_0;
    if ls.len() == 1 {
        assert(ls.drop_last() =~= Seq::<Seq<HashRefV>>::empty());
        assert(levels_bytes(master, contents, ls, lt) == Some(hd + Seq::<u8>::empty()));
        assert(hd + Seq::<u8>::empty() =~= hd);
    } else {
        assert(forall|l: int|
            0 <= l < ls.drop_last().len() ==> ls.drop_last()[l] == ls[l]);
        lemma_levels_top_only(master, contents, ls.drop_last(), lt);
        assert(ls.drop_last().last() == ls[ls.len() - 2]);
        assert(ls[ls.len() - 2].len() == 0);
        assert(trees_bytes(
            master,
            contents,
            ls.drop_last().last(),
            (ls.drop_last().len() - 1) as u64,
            lt,
        ) == Some(Seq::<u8>::empty()));
        assert(levels_bytes(master, contents, ls.drop_last(), lt) == Some(Seq::<u8>::empty()));
        assert(levels_bytes(master, contents, ls, lt) == Some(hd + Seq::<u8>::empty()));
        assert(hd + Seq::<u8>::empty() =~= hd);
    }
}

/// The hash-tree writer: one pending buffer of references per height,
/// flushed upward as the fan-out threshold is reached.
pub struct TreeState {
    pub levels: Vec<Vec<HashRef>>,
    pub leaf_type: LeafType,
    pub master: Vec<u8>,
    pub fanout: usize,
}

impl TreeState {
    /// Every pending reference denotes bytes in the given store state.
    pub open spec fn wf(&self, contents: Map<Seq<u8>, Seq<u8>>) -> bool {
        &&& self.master@.len() == 32
        &&& self.fanout >= 2
        &&& self.levels.deep_view().len() >= 1
        &&& forall|l: int|
            0 <= l < self.levels.deep_view().len() ==> level_ok(
                self.master@,
                contents,
                #[trigger] self.levels.deep_view()[l],
                l as u64,
                self.leaf_type,
            )
    }

    /// The bytes appended so far.
    pub open spec fn total(&self, contents: Map<Seq<u8>, Seq<u8>>) -> Option<Seq<u8>> {
        levels_bytes(self.master@, contents, self.levels.deep_view(), self.leaf_type)
    }

    pub fn new(master: Vec<u8>, fanout: usize, leaf_type: LeafType) -> (r: TreeState)
        requires
            master@.len() == 32,
            fanout >= 2,
        ensures
            forall|contents: Map<Seq<u8>, Seq<u8>>|
                r.wf(contents) && #[trigger] r.total(contents) == Some(Seq::<u8>::empty()),
            r.leaf_type == leaf_type,
            r.master == master,
            r.fanout == fanout,
    {
        let mut levels: Vec<Vec<HashRef>> = Vec::new();
        levels.push(Vec::new());
        let r = TreeState { levels, leaf_type, master, fanout };
        proof {
            assert forall|contents: Map<Seq<u8>, Seq<u8>>|
                r.wf(contents) && #[trigger] r.total(contents) == Some(
                    Seq::<u8>::empty(),
                ) by {
                let dv = r.levels.deep_view();
                assert(dv.len() == 1);
                assert(dv[0] =~= Seq::<HashRefV>::empty());
                assert(dv.last() =~= Seq::<HashRefV>::empty());
                assert(trees_bytes(r.master@, contents, dv.last(), 0, leaf_type) == Some(
                    Seq::<u8>::empty(),
                ));
                assert(dv.drop_last() =~= Seq::<Seq<HashRefV>>::empty());
                assert(levels_bytes(r.master@, contents, Seq::<Seq<HashRefV>>::empty(), leaf_type)
                    == Some(Seq::<u8>::empty()));
                assert(r.total(contents) == Some(Seq::<u8>::empty() + Seq::<u8>::empty()));
                assert(Seq::<u8>::empty() + Seq::<u8>::empty() =~= Seq::<u8>::empty());
            }
        }
        r
    }
}


proof fn lemma_levels_ok_mono(
    master: Seq<u8>,
    m1: Map<Seq<u8>, Seq<u8>>,
    m2: Map<Seq<u8>, Seq<u8>>,
    ls: Seq<Seq<HashRefV>>,
    lt: LeafType,
)
    requires
        extends(m1, m2),
        forall|l: int|
            0 <= l < ls.len() ==> level_ok(master, m1, #[trigger] ls[l], l as u64, lt),
    ensures
        forall|l: int|
            0 <= l < ls.len() ==> level_ok(master, m2, #[trigger] ls[l], l as u64, lt),
{
    assert forall|l: int| 0 <= l < ls.len() implies level_ok(
        master,
        m2,
        #[trigger] ls[l],
        l as u64,
        lt,
    ) by {
        assert(level_ok(master, m1, ls[l], l as u64, lt));
        assert forall|i: int| 0 <= i < ls[l].len() implies ref_ok(
            master,
            m2,
            #[trigger] ls[l][i],
            l as u64,
            lt,
        ) by {
            assert(ref_ok(master, m1, ls[l][i], l as u64, lt));
            lemma_tree_bytes_mono(master, m1, m2, ls[l][i]);
        }
    }
}

proof fn lemma_refs_ok_mono(
    master: Seq<u8>,
    m1: Map<Seq<u8>, Seq<u8>>,
    m2: Map<Seq<u8>, Seq<u8>>,
    refs: Seq<HashRefV>,
    ht: u64,
    lt: LeafType,
)
    requires
        extends(m1, m2),
        level_ok(master, m1, refs, ht, lt),
    ensures
        level_ok(master, m2, refs, ht, lt),
{
    assert forall|i: int| 0 <= i < refs.len() implies ref_ok(
        master,
        m2,
        #[trigger] refs[i],
        ht,
        lt,
    ) by {
        assert(ref_ok(master, m1, refs[i], ht, lt));
        lemma_tree_bytes_mono(master, m1, m2, refs[i]);
    }
}

proof fn lemma_carry_wf(
    master: Seq<u8>,
    m2: Map<Seq<u8>, Seq<u8>>,
    dv0: Seq<Seq<HashRefV>>,
    lvl: int,
    parent: HashRefV,
    lt: LeafType,
)
    requires
        0 <= lvl,
        lvl + 1 < dv0.len(),
        forall|l: int|
            0 <= l < dv0.len() ==> level_ok(master, m2, #[trigger] dv0[l], l as u64, lt),
        ref_ok(master, m2, parent, (lvl + 1) as u64, lt),
    ensures
        forall|l: int|
            0 <= l < dv0.len() ==> level_ok(
                master,
                m2,
                #[trigger] dv0.update(lvl, Seq::<HashRefV>::empty()).update(
                    lvl + 1,
                    dv0[lvl + 1].push(parent),
                )[l],
                l as u64,
                lt,
            ),
{
    let dvf = dv0.update(lvl, Seq::<HashRefV>::empty()).update(lvl + 1, dv0[lvl + 1].push(parent));
    assert forall|l: int| 0 <= l < dv0.len() implies level_ok(
        master,
        m2,
        #[trigger] dvf[l],
        l as u64,
        lt,
    ) by {
        if l == lvl {
            assert(dvf[l] =~= Seq::<HashRefV>::empty());
        } else if l == lvl + 1 {
            assert(level_ok(master, m2, dv0[l], l as u64, lt));
            assert forall|i: int| 0 <= i < dvf[l].len() implies ref_ok(
                master,
                m2,
                #[trigger] dvf[l][i],
                l as u64,
                lt,
            ) by {
                if i < dv0[l].len() {
                    assert(dvf[l][i] == dv0[l][i]);
                    assert(ref_ok(master, m2, dv0[l][i], l as u64, lt));
                } else {
                    assert(dvf[l][i] == parent);
                }
            }
        } else {
            assert(dvf[l] == dv0[l]);
            assert(level_ok(master, m2, dv0[l], l as u64, lt));
        }
    }
}

impl TreeState {
    /// Pack the pending references of one level into a single parent
    /// reference on the level above; the denoted bytes do not change.
    #[verifier::rlimit(100)]
    fn carry_one<B: StoreBackend>(&mut self, b: &mut B, lvl: usize) -> (r: Result<(), HatError>)
        requires
            old(self).wf(old(b).contents()),
            old(b).inv(),
            lvl < old(self).levels@.len(),
        ensures
            final(b).inv(),
            final(b).reliable() == old(b).reliable(),
            extends(old(b).contents(), final(b).contents()),
            final(self).leaf_type == old(self).leaf_type,
            final(self).master == old(self).master,
            final(self).fanout == old(self).fanout,
            r is Ok ==> {
                &&& final(self).wf(final(b).contents())
                &&& lvl + 2 <= final(self).levels@.len()
                &&& final(self).levels@.len() <= old(self).levels@.len() + 1
                &&& (lvl + 1 < old(self).levels@.len() ==> final(self).levels@.len() == old(
                    self,
                ).levels@.len())
                &&& final(self).levels.deep_view()[lvl as int].len() == 0
                &&& final(self).total(final(b).contents()) == old(self).total(old(b).contents())
                &&& forall|l: int|
                    0 <= l < lvl ==> final(self).levels.deep_view()[l] == old(
                        self,
                    ).levels.deep_view()[l]
            },
    {
        let ghost m1 = old(b).contents();
        let ghost lt = self.leaf_type;
        let ghost masterv = self.master@;
        proof {
            lemma_levels_defined(masterv, m1, old(self).levels.deep_view(), lt);
        }

        let n_levels = self.levels.len();
        proof {
            assert(lvl < n_levels);
        }
        if lvl + 1 == n_levels {
            self.levels.push(Vec::new());
            proof {
                let dvold = old(self).levels.deep_view();
                assert(self.levels.deep_view() =~~= dvold.push(Seq::<HashRefV>::empty()));
                lemma_levels_push_empty_top(masterv, m1, dvold, lt);
            }
        }
        let ghost dv0 = self.levels.deep_view();
        proof {
            assert(forall|l: int|
                0 <= l < dv0.len() ==> level_ok(masterv, m1, #[trigger] dv0[l], l as u64, lt));
            assert(levels_bytes(masterv, m1, dv0, lt) == old(self).total(m1));
        }

        let children = self.levels.remove(lvl);
        self.levels.insert(lvl, Vec::new());
        let ghost childrenv = children.deep_view();
        proof {
            assert(childrenv == dv0[lvl as int]);
            assert(self.levels.deep_view() =~~= dv0.update(
                lvl as int,
                Seq::<HashRefV>::empty(),
            ));
        }

        let bytes = enc_ref_list(&children);
        let parent = match seal_chunk(b, &self.master, &bytes, (lvl + 1) as u64, self.leaf_type) {
            Ok(p) => p,
            Err(e) => {
                return Err(e);
            },
        };
        let ghost m2 = b.contents();
        proof {
            // every pending reference still denotes the same bytes
            lemma_levels_ok_mono(masterv, m1, m2, dv0, lt);
            lemma_levels_mono(masterv, m1, m2, dv0, lt);
            lemma_refs_ok_mono(masterv, m1, m2, childrenv, lvl as u64, lt);
            // the parent's payload parses back to exactly the children
            assert(bytes@ == s_enc_ref_list(childrenv));
            assert(names_wf_ref_seq(childrenv)) by {
                assert(level_ok(masterv, m2, childrenv, lvl as u64, lt));
            }
            lemma_dec_enc_ref_list(childrenv, Seq::<u8>::empty());
            assert(s_enc_ref_list(childrenv) + Seq::<u8>::empty() =~= s_enc_ref_list(childrenv));
            assert(s_dec_ref_list(bytes@) == Some((childrenv, Seq::<u8>::empty())));
            lemma_level_defined(masterv, m2, childrenv, lvl as u64, lt);
            assert(tree_bytes(masterv, m2, parent@) == trees_bytes(
                masterv,
                m2,
                childrenv,
                lvl as u64,
                lt,
            ));
            assert(ref_ok(masterv, m2, parent@, (lvl + 1) as u64, lt));
        }

        let mut up = self.levels.remove(lvl + 1);
        up.push(parent);
        self.levels.insert(lvl + 1, up);
        proof {
            let dvf = self.levels.deep_view();
            assert(dvf =~~= dv0.update(lvl as int, Seq::<HashRefV>::empty()).update(
                lvl as int + 1,
                dv0[lvl as int + 1].push(parent@),
            ));
            lemma_level_defined(masterv, m2, dv0[lvl as int + 1], (lvl + 1) as u64, lt);
            lemma_levels_carry(masterv, m2, dv0, lvl as int, parent@, lt);
            assert(levels_bytes(masterv, m2, dvf, lt) == levels_bytes(masterv, m2, dv0, lt));
            lemma_carry_wf(masterv, m2, dv0, lvl as int, parent@, lt);
        }
        Ok(())
    }

    /// Append one plaintext chunk to the stream, flushing full buffers
    /// upward.
    pub fn append_leaf<B: StoreBackend>(&mut self, b: &mut B, pt: &Vec<u8>) -> (r: Result<
        (),
        HatError,
    >)
        requires
            old(self).wf(old(b).contents()),
            old(b).inv(),
        ensures
            final(b).inv(),
            final(b).reliable() == old(b).reliable(),
            extends(old(b).contents(), final(b).contents()),
            final(self).leaf_type == old(self).leaf_type,
            final(self).master == old(self).master,
            final(self).fanout == old(self).fanout,
            r is Ok ==> {
                &&& final(self).wf(final(b).contents())
                &&& final(self).total(final(b).contents()) == Some(
                    old(self).total(old(b).contents())->Some_0 + pt@,
                )
            },
    {
        let ghost m1 = old(b).contents();
        let ghost lt = self.leaf_type;
        let ghost masterv = self.master@;
        proof {
            lemma_levels_defined(masterv, m1, old(self).levels.deep_view(), lt);
        }

        let href = match seal_chunk(b, &self.master, pt, 0, self.leaf_type) {
            Ok(h) => h,
            Err(e) => {
                return Err(e);
            },
        };
        let ghost m2 = b.contents();
        let ghost dv0 = self.levels.deep_view();
        proof {
            lemma_levels_ok_mono(masterv, m1, m2, dv0, lt);
            lemma_levels_mono(masterv, m1, m2, dv0, lt);
        }

        let mut l0 = self.levels.remove(0);
        l0.push(href);
        self.levels.insert(0, l0);
        proof {
            let dvf = self.levels.deep_view();
            assert(dvf =~~= dv0.update(0, dv0[0].push(href@)));
            assert(level_ok(masterv, m2, dv0[0], 0, lt));
            lemma_level_defined(masterv, m2, dv0[0], 0, lt);
            lemma_levels_push_leaf(masterv, m2, dv0, href@, lt);
            assert forall|l: int| 0 <= l < dvf.len() implies level_ok(
                masterv,
                m2,
                #[trigger] dvf[l],
                l as u64,
                lt,
            ) by {
                if l == 0 {
                    assert(ref_ok(masterv, m2, href@, 0, lt));
                    assert forall|i: int| 0 <= i < dvf[0].len() implies ref_ok(
                        masterv,
                        m2,
                        #[trigger] dvf[0][i],
                        0,
                        lt,
                    ) by {
                        if i < dv0[0].len() {
                            assert(dvf[0][i] == dv0[0][i]);
                        } else {
                            assert(dvf[0][i] == href@);
                        }
                    }
                } else {
                    assert(dvf[l] == dv0[l]);
                    assert(level_ok(masterv, m2, dv0[l], l as u64, lt));
                }
            }
        }

        let ghost goal = Some(old(self).total(m1)->Some_0 + pt@);
        proof {
            assert(self.total(b.contents()) == goal);
        }

        let max_iters: usize = self.levels.len();
        let mut iter: usize = 0;
        let mut lvl: usize = 0;
        while iter < max_iters
            invariant
                self.wf(b.contents()),
                b.inv(),
                b.reliable() == old(b).reliable(),
                extends(old(b).contents(), b.contents()),
                lvl == iter,
                iter <= max_iters,
                lvl < self.levels@.len(),
                self.total(b.contents()) == goal,
                self.leaf_type == old(self).leaf_type,
                self.master == old(self).master,
                self.fanout == old(self).fanout,
            decreases max_iters - iter,
        {
            if self.levels[lvl].len() < self.fanout {
                break;
            }
            let ghost mid = b.contents();
            match self.carry_one(b, lvl) {
                Ok(()) => {},
                Err(e) => {
                    proof {
                        lemma_extends_trans(old(b).contents(), mid, b.contents());
                    }
                    return Err(e);
                },
            }
            proof {
                lemma_extends_trans(old(b).contents(), mid, b.contents());
            }
            lvl = lvl + 1;
            iter = iter + 1;
        }
        Ok(())
    }

    /// Close the stream: flush every level upward and return the root.
    /// The root denotes exactly the bytes appended since `new`.
    pub fn finish<B: StoreBackend>(self, b: &mut B) -> (r: Result<HashRef, HatError>)
        requires
            self.wf(old(b).contents()),
            old(b).inv(),
        ensures
            final(b).inv(),
            final(b).reliable() == old(b).reliable(),
            extends(old(b).contents(), final(b).contents()),
            r matches Ok(h) ==> {
                &&& tree_bytes(self.master@, final(b).contents(), h@) == self.total(
                    old(b).contents(),
                )
                &&& h@.leaf_type == self.leaf_type
                &&& fits_hash_ref(h@)
                &&& names_wf_hash_ref(h@)
            },
    {
        let ghost m1 = old(b).contents();
        let ghost lt = self.leaf_type;
        let ghost masterv = self.master@;
        let ghost goal = self.total(m1);
        let mut st = self;
        proof {
            lemma_levels_defined(masterv, m1, st.levels.deep_view(), lt);
        }

        let n_levels = st.levels.len();
        let mut lvl: usize = 0;
        while lvl + 1 < n_levels
            invariant
                st.wf(b.contents()),
                b.inv(),
                b.reliable() == old(b).reliable(),
                m1 == old(b).contents(),
                extends(m1, b.contents()),
                lvl < n_levels,
                st.levels@.len() == n_levels,
                st.total(b.contents()) == goal,
                st.leaf_type == lt,
                st.master@ == masterv,
                st.master == self.master,
                st.fanout == self.fanout,
                forall|l: int| 0 <= l < lvl ==> (#[trigger] st.levels.deep_view()[l]).len() == 0,
            decreases st.levels@.len() - lvl,
        {
            let ghost mid = b.contents();
            if st.levels[lvl].len() > 0 {
                match st.carry_one(b, lvl) {
                    Ok(()) => {},
                    Err(e) => {
                        proof {
                            lemma_extends_trans(m1, mid, b.contents());
                        }
                        return Err(e);
                    },
                }
            }
            proof {
                lemma_extends_trans(m1, mid, b.contents());
            }
            lvl = lvl + 1;
        }

        // only the top level still holds references
        let ghost dvt = st.levels.deep_view();
        proof {
            lemma_levels_defined(masterv, b.contents(), dvt, lt);
            lemma_levels_top_only(masterv, b.contents(), dvt, lt);
            assert(dvt.last() == dvt[lvl as int]);
            assert(trees_bytes(masterv, b.contents(), dvt[lvl as int], lvl as u64, lt) == goal);
        }
        let mut top = st.levels.remove(lvl);
        let ghost topv = top.deep_view();

        if top.len() == 1 {
            let root = top.remove(0);
            proof {
                assert(topv =~= seq![root@]);
                assert(level_ok(masterv, b.contents(), topv, lvl as u64, lt));
                assert(ref_ok(masterv, b.contents(), root@, lvl as u64, lt));
                assert(seq![root@].drop_first() =~= Seq::<HashRefV>::empty());
                assert(trees_bytes(
                    masterv,
                    b.contents(),
                    Seq::<HashRefV>::empty(),
                    lvl as u64,
                    lt,
                ) == Some(Seq::<u8>::empty()));
                let rb = tree_bytes(masterv, b.contents(), root@)->Some_0;
                assert(trees_bytes(masterv, b.contents(), topv, lvl as u64, lt) == Some(
                    rb + Seq::<u8>::empty(),
                ));
                assert(rb + Seq::<u8>::empty() =~= rb);
                assert(tree_bytes(masterv, b.contents(), root@) == goal);
            }
            Ok(root)
        } else {
            let ghost mid = b.contents();
            let bytes = enc_ref_list(&top);
            let parent_height = (lvl + 1) as u64;
            let parent = match seal_chunk(b, &st.master, &bytes, parent_height, st.leaf_type) {
                Ok(p) => p,
                Err(e) => {
                    proof {
                        lemma_extends_trans(m1, mid, b.contents());
                    }
                    return Err(e);
                },
            };
            proof {
                let m3 = b.contents();
                lemma_extends_trans(m1, mid, m3);
                assert(level_ok(masterv, mid, topv, lvl as u64, lt));
                lemma_refs_ok_mono(masterv, mid, m3, topv, lvl as u64, lt);
                assert(bytes@ == s_enc_ref_list(topv));
                assert(names_wf_ref_seq(topv));
                lemma_dec_enc_ref_list(topv, Seq::<u8>::empty());
                assert(s_enc_ref_list(topv) + Seq::<u8>::empty() =~= s_enc_ref_list(topv));
                assert(s_dec_ref_list(bytes@) == Some((topv, Seq::<u8>::empty())));
                lemma_level_defined(masterv, m3, topv, lvl as u64, lt);
                assert(tree_bytes(masterv, m3, parent@) == trees_bytes(
                    masterv,
                    m3,
                    topv,
                    lvl as u64,
                    lt,
                ));
                lemma_trees_bytes_mono(masterv, mid, m3, topv, lvl as u64, lt);
                assert(tree_bytes(masterv, m3, parent@) == goal);
            }
            Ok(parent)
        }
    }
}

/// Chunk a byte stream and write it as a hash tree; the returned root
/// denotes exactly the input bytes. A detected blob-name collision or a
/// backend failure surfaces as an error.
pub fn write_bytes<B: StoreBackend>(
    b: &mut B,
    master: &Vec<u8>,
    data: &Vec<u8>,
    max_chunk: usize,
    fanout: usize,
    leaf_type: LeafType,
) -> (r: Result<HashRef, HatError>)
    requires
        old(b).inv(),
        master@.len() == 32,
        max_chunk >= 1,
        fanout >= 2,
    ensures
        final(b).inv(),
        final(b).reliable() == old(b).reliable(),
        extends(old(b).contents(), final(b).contents()),
        r matches Ok(h) ==> {
            &&& tree_bytes(master@, final(b).contents(), h@) == Some(data@)
            &&& h@.leaf_type == leaf_type
            &&& fits_hash_ref(h@)
            &&& names_wf_hash_ref(h@)
        },
{
    let master_copy = copy_range(master, 0, master.len());
    proof {
        assert(master_copy@ =~= master@);
    }
    let mut state = TreeState::new(master_copy, fanout, leaf_type);

    if data.len() == 0 {
        let empty_chunk: Vec<u8> = Vec::new();
        let ghost mid = b.contents();
        match state.append_leaf(b, &empty_chunk) {
            Ok(()) => {},
            Err(e) => {
                return Err(e);
            },
        }
        proof {
            assert(Seq::<u8>::empty() + empty_chunk@ =~= data@);
        }
    } else {
        let mut consumed: usize = 0;
        proof {
            assert(data@.take(0) =~= Seq::<u8>::empty());
        }
        while consumed < data.len()
            invariant
                state.wf(b.contents()),
                b.inv(),
                b.reliable() == old(b).reliable(),
                extends(old(b).contents(), b.contents()),
                consumed <= data.len(),
                state.total(b.contents()) == Some(data@.take(consumed as int)),
                state.leaf_type == leaf_type,
                state.master@ == master@,
                state.fanout == fanout,
                max_chunk >= 1,
            decreases data.len() - consumed,
        {
            let rem = data.len() - consumed;
            let k = if rem > max_chunk {
                max_chunk
            } else {
                rem
            };
            let chunk = copy_range(data, consumed, k);
            let ghost mid = b.contents();
            match state.append_leaf(b, &chunk) {
                Ok(()) => {},
                Err(e) => {
                    proof {
                        lemma_extends_trans(old(b).contents(), mid, b.contents());
                    }
                    return Err(e);
                },
            }
            proof {
                lemma_extends_trans(old(b).contents(), mid, b.contents());
                assert(data@.take(consumed as int + k as int) =~= data@.take(consumed as int)
                    + chunk@);
            }
            consumed = consumed + k;
        }
        proof {
            assert(data@.take(data@.len() as int) =~= data@);
        }
    }

    let ghost mid2 = b.contents();
    let r = state.finish(b);
    proof {
        lemma_extends_trans(old(b).contents(), mid2, b.contents());
    }
    r
}


/// The concatenation of a sequence of chunks.
pub open spec fn concat_chunks(cs: Seq<Seq<u8>>) -> Seq<u8>
    decreases cs.len(),
{
    if cs.len() == 0 {
        Seq::empty()
    } else {
        concat_chunks(cs.drop_last()) + cs.last()
    }
}

pub proof fn lemma_concat_chunks_push(cs: Seq<Seq<u8>>, x: Seq<u8>)
    ensures
        concat_chunks(cs.push(x)) == concat_chunks(cs) + x,
{
    assert(cs.push(x).drop_last() =~= cs);
}

/// The concatenation of a prefix is no longer than the whole.
pub proof fn lemma_concat_take_len(cs: Seq<Seq<u8>>, i: int)
    requires
        0 <= i <= cs.len(),
    ensures
        concat_chunks(cs.take(i)).len() <= concat_chunks(cs).len(),
    decreases cs.len() - i,
{
    if i == cs.len() {
        assert(cs.take(i) =~= cs);
    } else {
        lemma_concat_chunks_push(cs.take(i), cs[i]);
        assert(cs.take(i).push(cs[i]) =~= cs.take(i + 1));
        lemma_concat_take_len(cs, i + 1);
    }
}

/// Read every leaf chunk under a reference, in order, appending the
/// plaintexts to `out`.
fn read_chunks_into<B: StoreBackend>(
    b: &mut B,
    master: &Vec<u8>,
    href: &HashRef,
    out: &mut Vec<Vec<u8>>,
) -> (r: Result<(), HatError>)
    requires
        old(b).inv(),
        master@.len() == 32,
    ensures
        final(b).inv(),
        final(b).reliable() == old(b).reliable(),
        final(b).contents() == old(b).contents(),
        r is Ok ==> {
            &&& tree_bytes(master@, old(b).contents(), href@) is Some
            &&& concat_chunks(final(out).deep_view()) == concat_chunks(old(out).deep_view())
                + tree_bytes(master@, old(b).contents(), href@)->Some_0
        },
        old(b).reliable() && tree_bytes(master@, old(b).contents(), href@) is Some ==> r is Ok,
    decreases href.height,
{
    let pt = match fetch_node_plain(b, master, href) {
        Ok(v) => v,
        Err(e) => {
            return Err(e);
        },
    };

    if href.height == 0 {
        proof {
            lemma_concat_chunks_push(out.deep_view(), pt@);
        }
        let ghost outv = out.deep_view();
        out.push(pt);
        proof {
            assert(out.deep_view() =~~= outv.push(
                tree_bytes(master@, old(b).contents(), href@)->Some_0,
            ));
        }
        return Ok(());
    }

    let (refs, consumed) = match dec_ref_list(&pt, 0) {
        Some(x) => x,
        None => {
            proof {
                assert(pt@.skip(0) =~= pt@);
            }
            return Err(HatError::Integrity);
        },
    };
    proof {
        assert(pt@.skip(0) =~= pt@);
    }
    if consumed != pt.len() {
        proof {
            assert(pt@.skip(consumed as int).len() != 0);
        }
        return Err(HatError::Integrity);
    }
    proof {
        assert(pt@.skip(consumed as int) =~= Seq::<u8>::empty());
    }

    let ghost m = old(b).contents();
    let ghost refsv = refs.deep_view();
    let ghost h1 = (href@.height - 1) as u64;
    let ghost lt = href@.leaf_type;
    let ghost out0 = out.deep_view();
    let ghost mut emitted: Seq<u8> = Seq::empty();
    proof {
        assert(refsv.skip(0) =~= refsv);
        assert(concat_chunks(out.deep_view()) + Seq::<u8>::empty() =~= concat_chunks(
            out.deep_view(),
        ));
        assert(tree_bytes(master@, m, href@) == trees_bytes(master@, m, refsv, h1, lt));
    }

    let mut i: usize = 0;
    while i < refs.len()
        invariant
            b.inv(),
            b.reliable() == old(b).reliable(),
            b.contents() == m,
            m == old(b).contents(),
            master@.len() == 32,
            i <= refs.len(),
            refsv == refs.deep_view(),
            tree_bytes(master@, m, href@) == trees_bytes(master@, m, refsv, h1, lt),
            href@.height >= 1,
            h1 == (href@.height - 1) as u64,
            lt == href@.leaf_type,
            trees_bytes(master@, m, refsv, h1, lt) == (match trees_bytes(
                master@,
                m,
                refsv.skip(i as int),
                h1,
                lt,
            ) {
                Some(t) => Some(emitted + t),
                None => None,
            }),
            concat_chunks(out.deep_view()) == concat_chunks(out0) + emitted,
        decreases refs.len() - i,
    {
        let child = &refs[i];
        if child.height != href.height - 1 || !leaf_type_eq(&child.leaf_type, &href.leaf_type) {
            proof {
                assert(refsv.skip(i as int)[0] == refsv[i as int]);
                assert(trees_bytes(master@, m, refsv.skip(i as int), h1, lt) is None);
            }
            return Err(HatError::Integrity);
        }
        let ghost out_pre = out.deep_view();
        match read_chunks_into(b, master, child, out) {
            Ok(()) => {},
            Err(e) => {
                proof {
                    if b.reliable() && tree_bytes(master@, m, child@) is Some {
                        assert(false);
                    }
                    assert(refsv.skip(i as int)[0] == refsv[i as int]);
                }
                return Err(e);
            },
        }
        proof {
            let cb = tree_bytes(master@, m, child@)->Some_0;
            assert(refsv.skip(i as int)[0] == refsv[i as int]);
            assert(refsv.skip(i as int).drop_first() =~= refsv.skip(i as int + 1));
            let tail = trees_bytes(master@, m, refsv.skip(i as int + 1), h1, lt);
            if tail is Some {
                lemma_concat_associative(emitted, cb, tail->Some_0);
            }
            emitted = emitted + cb;
            lemma_concat_associative(concat_chunks(out0), emitted, Seq::empty());
        }
        i = i + 1;
    }
    proof {
        assert(refsv.skip(refsv.len() as int) =~= Seq::<HashRefV>::empty());
        assert(trees_bytes(master@, m, Seq::<HashRefV>::empty(), h1, lt) == Some(
            Seq::<u8>::empty(),
        ));
        assert(emitted + Seq::<u8>::empty() =~= emitted);
    }
    Ok(())
}

/// Compare leaf types.
pub fn leaf_type_eq(a: &LeafType, b: &LeafType) -> (r: bool)
    ensures
        r == (a == b),
{
    match (a, b) {
        (LeafType::FileChunk, LeafType::FileChunk) => true,
        (LeafType::TreeList, LeafType::TreeList) => true,
        (LeafType::SnapshotList, LeafType::SnapshotList) => true,
        _ => false,
    }
}

/// Read the full byte sequence a reference denotes.
pub fn read_tree_bytes<B: StoreBackend>(b: &mut B, master: &Vec<u8>, href: &HashRef) -> (r:
    Result<Vec<u8>, HatError>)
    requires
        old(b).inv(),
        master@.len() == 32,
    ensures
        final(b).inv(),
        final(b).reliable() == old(b).reliable(),
        final(b).contents() == old(b).contents(),
        r matches Ok(v) ==> tree_bytes(master@, old(b).contents(), href@) == Some(v@),
        old(b).reliable() && tree_bytes(master@, old(b).contents(), href@) is Some ==> r is Ok,
{
    let mut chunks: Vec<Vec<u8>> = Vec::new();
    proof {
        assert(chunks.deep_view() =~= Seq::<Seq<u8>>::empty());
    }
    match read_chunks_into(b, master, href, &mut chunks) {
        Ok(()) => {},
        Err(e) => {
            return Err(e);
        },
    }
    let ghost cv = chunks.deep_view();
    proof {
        assert(concat_chunks(Seq::<Seq<u8>>::empty()) + tree_bytes(
            master@,
            old(b).contents(),
            href@,
        )->Some_0 =~= tree_bytes(master@, old(b).contents(), href@)->Some_0);
    }
    let mut out: Vec<u8> = Vec::new();
    let mut i: usize = 0;
    proof {
        assert(cv.take(0) =~= Seq::<Seq<u8>>::empty());
    }
    while i < chunks.len()
        invariant
            i <= chunks.len(),
            cv == chunks.deep_view(),
            out@ == concat_chunks(cv.take(i as int)),
        decreases chunks.len() - i,
    {
        proof {
            lemma_concat_chunks_push(cv.take(i as int), cv[i as int]);
            assert(cv.take(i as int).push(cv[i as int]) =~= cv.take(i as int + 1));
        }
        out.extend_from_slice(chunks[i].as_slice());
        i = i + 1;
    }
    proof {
        assert(cv.take(cv.len() as int) =~= cv);
    }
    Ok(out)
}

/// A finite, in-order walk over the leaf chunks of one hash tree.
pub struct LeafIterator {
    pub chunks: Vec<Vec<u8>>,
    pub next_idx: usize,
}

impl LeafIterator {
    /// The chunks not yet yielded.
    pub open spec fn remaining(&self) -> Seq<Seq<u8>> {
        self.chunks.deep_view().skip(self.next_idx as int)
    }

    pub open spec fn wf(&self) -> bool {
        self.next_idx <= self.chunks@.len()
    }

    /// Walk the tree below `href`, verifying every node's digest.
    pub fn new<B: StoreBackend>(b: &mut B, master: &Vec<u8>, href: &HashRef) -> (r: Result<
        LeafIterator,
        HatError,
    >)
        requires
            old(b).inv(),
            master@.len() == 32,
        ensures
            final(b).inv(),
            final(b).reliable() == old(b).reliable(),
            final(b).contents() == old(b).contents(),
            r matches Ok(it) ==> {
                &&& it.wf()
                &&& tree_bytes(master@, old(b).contents(), href@) == Some(
                    concat_chunks(it.remaining()),
                )
                &&& concat_chunks(it.remaining()).len() <= u64::MAX
            },
            old(b).reliable() && (match tree_bytes(master@, old(b).contents(), href@) {
                Some(v) => v.len() <= u64::MAX,
                None => false,
            }) ==> r is Ok,
    {
        let mut chunks: Vec<Vec<u8>> = Vec::new();
        proof {
            assert(chunks.deep_view() =~= Seq::<Seq<u8>>::empty());
        }
        match read_chunks_into(b, master, href, &mut chunks) {
            Ok(()) => {},
            Err(e) => {
                return Err(e);
            },
        }
        proof {
            assert(concat_chunks(Seq::<Seq<u8>>::empty()) + tree_bytes(
                master@,
                old(b).contents(),
                href@,
            )->Some_0 =~= tree_bytes(master@, old(b).contents(), href@)->Some_0);
        }
        let ghost cv = chunks.deep_view();
        let mut cum: u64 = 0;
        let mut i: usize = 0;
        proof {
            assert(cv.take(0) =~= Seq::<Seq<u8>>::empty());
        }
        while i < chunks.len()
            invariant
                i <= chunks.len(),
                cv == chunks.deep_view(),
                cum == concat_chunks(cv.take(i as int)).len(),
                b.inv(),
                b.reliable() == old(b).reliable(),
                b.contents() == old(b).contents(),
                tree_bytes(master@, old(b).contents(), href@) == Some(concat_chunks(cv)),
            decreases chunks.len() - i,
        {
            proof {
                lemma_concat_chunks_push(cv.take(i as int), cv[i as int]);
                assert(cv.take(i as int).push(cv[i as int]) =~= cv.take(i as int + 1));
            }
            let clen = chunks[i].len() as u64;
            if clen > u64::MAX - cum {
                proof {
                    lemma_concat_take_len(cv, i as int + 1);
                }
                return Err(HatError::Integrity);
            }
            cum = cum + clen;
            i = i + 1;
        }
        proof {
            assert(cv.take(cv.len() as int) =~= cv);
        }
        let it = LeafIterator { chunks, next_idx: 0 };
        proof {
            assert(it.remaining() =~= it.chunks.deep_view());
        }
        Ok(it)
    }

    /// Yield the next leaf chunk's plaintext.
    pub fn next_chunk(&mut self) -> (r: Option<Vec<u8>>)
        requires
            old(self).wf(),
        ensures
            final(self).wf(),
            match r {
                Some(c) => {
                    &&& old(self).remaining().len() > 0
                    &&& c@ == old(self).remaining()[0]
                    &&& final(self).remaining() == old(self).remaining().drop_first()
                },
                None => {
                    &&& old(self).remaining().len() == 0
                    &&& final(self).remaining() == old(self).remaining()
                },
            },
    {
        if self.next_idx < self.chunks.len() {
            let c = copy_range(
                &self.chunks[self.next_idx],
                0,
                self.chunks[self.next_idx].len(),
            );
            proof {
                assert(c@ =~= self.chunks.deep_view()[self.next_idx as int]);
                assert(old(self).remaining()[0] == self.chunks.deep_view()[
                    self.next_idx as int]);
            }
            self.next_idx = self.next_idx + 1;
            proof {
                assert(final(self).remaining() =~= old(self).remaining().drop_first());
            }
            Some(c)
        } else {
            None
        }
    }
}


/// Hash-tree round trip: a root written for a byte sequence denotes
/// exactly that sequence, and keeps denoting it in every store the
/// original store has grown into; a leaf walk of such a root therefore
/// concatenates back to the written bytes.
pub proof fn lemma_tree_round_trip(
    master: Seq<u8>,
    m1: Map<Seq<u8>, Seq<u8>>,
    m2: Map<Seq<u8>, Seq<u8>>,
    h: HashRefV,
    data: Seq<u8>,
)
    requires
        extends(m1, m2),
        tree_bytes(master, m1, h) == Some(data),
    ensures
        tree_bytes(master, m2, h) == Some(data),
{
    lemma_tree_bytes_mono(master, m1, m2, h);
}

/// The digest a chunk is addressed by.
pub fn digest_of(data: &Vec<u8>) -> (r: Vec<u8>)
    ensures
        r@ == hash_of(data@),
        r@.len() == 32,
{
    hash_bytes(data)
}

} // verus!
