//! Directory listings and the snapshot roster as hash trees.
//!
//! A directory is a listing of `(Entry, Content)` pairs, serialized and
//! written as a `TreeList` tree; the snapshot roster is a list of
//! `Snapshot` records written as a `SnapshotList` tree.

use vstd::prelude::*;

use crate::backend::{extends, HatError, StoreBackend};
use crate::codec::{
    dec_entry_list, dec_snap_list, enc_entry_list, enc_snap_list, names_wf_entry_seq,
    names_wf_snap_seq, s_dec_entry_list, s_dec_snap_list, lemma_dec_enc_entry_list,
    lemma_dec_enc_snap_list,
};
use crate::models::{Content, ContentV, Entry, EntryV, HashRef, HashRefV, LeafType, Snapshot,
    SnapshotV};
use crate::tree::{lemma_tree_bytes_mono, read_tree_bytes, tree_bytes, write_bytes};

verus! {

/// Byte-lexicographic order on raw names.
pub open spec fn lex_le(a: Seq<u8>, b: Seq<u8>) -> bool
    decreases a.len(),
{
    if a.len() == 0 {
        true
    } else if b.len() == 0 {
        false
    } else if a[0] < b[0] {
        true
    } else if a[0] > b[0] {
        false
    } else {
        lex_le(a.drop_first(), b.drop_first())
    }
}

/// A listing is sorted when each adjacent pair of entry names is in
/// byte-lexicographic order.
pub open spec fn sorted_entries(l: Seq<(EntryV, ContentV)>) -> bool {
    forall|i: int|
        0 <= i < l.len() - 1 ==> lex_le(
            (#[trigger] l[i]).0.info.name.bytes(),
            l[i + 1].0.info.name.bytes(),
        )
}

/// Entry names are pairwise distinct: one entry per directory member.
pub open spec fn distinct_entry_names(l: Seq<(EntryV, ContentV)>) -> bool {
    forall|i: int, j: int|
        0 <= i < j < l.len() ==> (#[trigger] l[i]).0.info.name.bytes() != (
        #[trigger] l[j]).0.info.name.bytes()
}

/// The listing with every entry's snapshot timestamp replaced by the
/// commit-time stamp.
pub open spec fn set_snapshot_ts(l: Seq<(EntryV, ContentV)>, ts: i64) -> Seq<(EntryV, ContentV)> {
    Seq::new(l.len(), |i: int| (EntryV { info: l[i].0.info.with_snapshot_ts(ts) }, l[i].1))
}

/// The listing a `TreeList` root denotes: its tree bytes parsed as an
/// entry list, with nothing left over.
pub open spec fn dir_tree_listing(
    master: Seq<u8>,
    contents: Map<Seq<u8>, Seq<u8>>,
    h: HashRefV,
) -> Option<Seq<(EntryV, ContentV)>> {
    match tree_bytes(master, contents, h) {
        Some(bytes) => match s_dec_entry_list(bytes) {
            Some((l, rest)) => if rest.len() == 0 {
                Some(l)
            } else {
                None
            },
            None => None,
        },
        None => None,
    }
}

/// The roster a `SnapshotList` root denotes.
pub open spec fn snap_tree_listing(
    master: Seq<u8>,
    contents: Map<Seq<u8>, Seq<u8>>,
    h: HashRefV,
) -> Option<Seq<SnapshotV>> {
    match tree_bytes(master, contents, h) {
        Some(bytes) => match s_dec_snap_list(bytes) {
            Some((l, rest)) => if rest.len() == 0 {
                Some(l)
            } else {
                None
            },
            None => None,
        },
        None => None,
    }
}

/// Write a directory listing, stamping every entry with the commit
/// timestamp. Committed listings are sorted by entry name.
pub fn dir_write<B: StoreBackend>(
    b: &mut B,
    master: &Vec<u8>,
    entries: Vec<(Entry, Content)>,
    snapshot_ts: i64,
    max_chunk: usize,
    fanout: usize,
) -> (r: Result<HashRef, HatError>)
    requires
        old(b).inv(),
        master@.len() == 32,
        max_chunk >= 1,
        fanout >= 2,
        sorted_entries(entries.deep_view()),
        distinct_entry_names(entries.deep_view()),
        names_wf_entry_seq(entries.deep_view()),
    ensures
        final(b).inv(),
        final(b).reliable() == old(b).reliable(),
        extends(old(b).contents(), final(b).contents()),
        r matches Ok(h) ==> {
            &&& h@.leaf_type == LeafType::TreeList
            &&& dir_tree_listing(master@, final(b).contents(), h@) == Some(
                set_snapshot_ts(entries.deep_view(), snapshot_ts),
            )
            &&& sorted_entries(set_snapshot_ts(entries.deep_view(), snapshot_ts))
            &&& distinct_entry_names(set_snapshot_ts(entries.deep_view(), snapshot_ts))
        },
{
    let ghost origv = entries.deep_view();
    let mut stamped = entries;
    let mut i: usize = 0;
    while i < stamped.len()
        invariant
            i <= stamped@.len(),
            stamped@.len() == origv.len(),
            forall|j: int|
                0 <= j < i ==> stamped.deep_view()[j] == set_snapshot_ts(origv, snapshot_ts)[j],
            forall|j: int| i <= j < origv.len() ==> stamped.deep_view()[j] == origv[j],
        decreases stamped@.len() - i,
    {
        let ghost pre = stamped.deep_view();
        let mut pair = stamped.remove(i);
        pair.0.info.snapshot_ts_utc = snapshot_ts;
        let ghost pairdv = pair.deep_view();
        stamped.insert(i, pair);
        proof {
            assert(stamped.deep_view() =~~= pre.update(i as int, pairdv));
            assert(pairdv.0.info == pre[i as int].0.info.with_snapshot_ts(snapshot_ts));
            assert(pairdv.1 == pre[i as int].1);
            assert(pre[i as int] == origv[i as int]);
        }
        i = i + 1;
    }
    proof {
        assert(stamped.deep_view() =~~= set_snapshot_ts(origv, snapshot_ts));
        assert(names_wf_entry_seq(stamped.deep_view())) by {
            assert(forall|j: int|
                0 <= j < origv.len() ==> (#[trigger] stamped.deep_view()[j]).0.info.name
                    == origv[j].0.info.name && stamped.deep_view()[j].1 == origv[j].1);
        }
    }

    let bytes = enc_entry_list(&stamped);
    let r = write_bytes(b, master, &bytes, max_chunk, fanout, LeafType::TreeList);
    match r {
        Ok(h) => {
            proof {
                lemma_dec_enc_entry_list(stamped.deep_view(), Seq::<u8>::empty());
                assert(crate::codec::s_enc_entry_list(stamped.deep_view()) + Seq::<u8>::empty()
                    =~= crate::codec::s_enc_entry_list(stamped.deep_view()));
            }
            Ok(h)
        },
        Err(e) => Err(e),
    }
}

/// Fetch and decode a directory listing.
pub fn fetch_dir_data<B: StoreBackend>(b: &mut B, master: &Vec<u8>, href: &HashRef) -> (r:
    Result<Vec<(Entry, Content)>, HatError>)
    requires
        old(b).inv(),
        master@.len() == 32,
    ensures
        final(b).inv(),
        final(b).reliable() == old(b).reliable(),
        final(b).contents() == old(b).contents(),
        r matches Ok(l) ==> dir_tree_listing(master@, old(b).contents(), href@) == Some(
            l.deep_view(),
        ),
        old(b).reliable() && dir_tree_listing(master@, old(b).contents(), href@) is Some ==> r
            is Ok,
{
    let bytes = match read_tree_bytes(b, master, href) {
        Ok(v) => v,
        Err(e) => {
            return Err(e);
        },
    };
    proof {
        assert(bytes@.skip(0) =~= bytes@);
    }
    match dec_entry_list(&bytes, 0) {
        Some((l, p)) => {
            if p == bytes.len() {
                proof {
                    assert(bytes@.skip(p as int) =~= Seq::<u8>::empty());
                }
                Ok(l)
            } else {
                proof {
                    assert(bytes@.skip(p as int).len() != 0);
                }
                Err(HatError::Integrity)
            }
        },
        None => Err(HatError::Integrity),
    }
}

/// Write the snapshot roster.
pub fn snapshots_write<B: StoreBackend>(
    b: &mut B,
    master: &Vec<u8>,
    snaps: &Vec<Snapshot>,
    max_chunk: usize,
    fanout: usize,
) -> (r: Result<HashRef, HatError>)
    requires
        old(b).inv(),
        master@.len() == 32,
        max_chunk >= 1,
        fanout >= 2,
        names_wf_snap_seq(snaps.deep_view()),
    ensures
        final(b).inv(),
        final(b).reliable() == old(b).reliable(),
        extends(old(b).contents(), final(b).contents()),
        r matches Ok(h) ==> {
            &&& h@.leaf_type == LeafType::SnapshotList
            &&& snap_tree_listing(master@, final(b).contents(), h@) == Some(snaps.deep_view())
        },
{
    let bytes = enc_snap_list(snaps);
    let r = write_bytes(b, master, &bytes, max_chunk, fanout, LeafType::SnapshotList);
    match r {
        Ok(h) => {
            proof {
                lemma_dec_enc_snap_list(snaps.deep_view(), Seq::<u8>::empty());
                assert(crate::codec::s_enc_snap_list(snaps.deep_view()) + Seq::<u8>::empty()
                    =~= crate::codec::s_enc_snap_list(snaps.deep_view()));
            }
            Ok(h)
        },
        Err(e) => Err(e),
    }
}

/// Fetch and decode the snapshot roster.
pub fn snapshots_read<B: StoreBackend>(b: &mut B, master: &Vec<u8>, href: &HashRef) -> (r:
    Result<Vec<Snapshot>, HatError>)
    requires
        old(b).inv(),
        master@.len() == 32,
    ensures
        final(b).inv(),
        final(b).reliable() == old(b).reliable(),
        final(b).contents() == old(b).contents(),
        r matches Ok(l) ==> snap_tree_listing(master@, old(b).contents(), href@) == Some(
            l.deep_view(),
        ),
        old(b).reliable() && snap_tree_listing(master@, old(b).contents(), href@) is Some ==> r
            is Ok,
{
    let bytes = match read_tree_bytes(b, master, href) {
        Ok(v) => v,
        Err(e) => {
            return Err(e);
        },
    };
    proof {
        assert(bytes@.skip(0) =~= bytes@);
    }
    match dec_snap_list(&bytes, 0) {
        Some((l, p)) => {
            if p == bytes.len() {
                proof {
                    assert(bytes@.skip(p as int) =~= Seq::<u8>::empty());
                }
                Ok(l)
            } else {
                proof {
                    assert(bytes@.skip(p as int).len() != 0);
                }
                Err(HatError::Integrity)
            }
        },
        None => Err(HatError::Integrity),
    }
}

/// Directory round trip: a listing written at commit time `ts` denotes,
/// in any store extending the one it was written into, exactly the input
/// listing with each entry's snapshot timestamp set to `ts` — names,
/// metadata and contents unchanged.
pub proof fn lemma_dir_round_trip(
    master: Seq<u8>,
    m1: Map<Seq<u8>, Seq<u8>>,
    m2: Map<Seq<u8>, Seq<u8>>,
    h: HashRefV,
    l: Seq<(EntryV, ContentV)>,
    ts: i64,
)
    requires
        extends(m1, m2),
        dir_tree_listing(master, m1, h) == Some(set_snapshot_ts(l, ts)),
    ensures
        dir_tree_listing(master, m2, h) == Some(set_snapshot_ts(l, ts)),
        set_snapshot_ts(l, ts).len() == l.len(),
        forall|i: int|
            0 <= i < l.len() ==> {
                &&& (#[trigger] set_snapshot_ts(l, ts)[i]).0.info == l[i].0.info.with_snapshot_ts(
                    ts,
                )
                &&& set_snapshot_ts(l, ts)[i].1 == l[i].1
            },
{
    lemma_tree_bytes_mono(master, m1, m2, h);
}

} // verus!
