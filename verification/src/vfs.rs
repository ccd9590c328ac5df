//! The virtual filesystem view: projecting snapshots into a hierarchical
//! namespace and listing paths inside it.

use vstd::prelude::*;
use vstd::utf8::encode_utf8;

use crate::backend::{HatError, StoreBackend};
use crate::family::{dir_tree_listing, fetch_dir_data};
use crate::models::{
    clone_snapshot, clone_snapshots, Content, ContentV, Entry, EntryV, HashRef, Snapshot,
    SnapshotV,
};

verus! {

/// The forward slash, the path component separator.
pub const SEP: u8 = 47;

/// A byte string split on a separator into its non-empty segments.
pub open spec fn split_on(s: Seq<u8>, sep: u8) -> Seq<Seq<u8>>
    decreases s.len(),
{
    if s.len() == 0 {
        Seq::empty()
    } else if s[0] == sep {
        split_on(s.drop_first(), sep)
    } else {
        let rest = split_on(s.drop_first(), sep);
        if s.len() >= 2 && s[1] != sep {
            seq![seq![s[0]] + rest[0]] + rest.drop_first()
        } else {
            seq![seq![s[0]]] + rest
        }
    }
}

/// A path split into its non-empty components.
pub open spec fn split_bytes(s: Seq<u8>) -> Seq<Seq<u8>> {
    split_on(s, SEP)
}

/// When a path starts inside a component, the split is non-empty and its
/// first component starts with that byte.
pub(crate) proof fn lemma_split_head(s: Seq<u8>, sep: u8)
    requires
        s.len() > 0,
        s[0] != sep,
    ensures
        split_on(s, sep).len() > 0,
        split_on(s, sep)[0].len() > 0,
    decreases s.len(),
{
    if s.len() >= 2 && s[1] != sep {
        lemma_split_head(s.drop_first(), sep);
    }
}

pub(crate) fn split_from(bytes: &Vec<u8>, i: usize, sep: u8) -> (r: Vec<Vec<u8>>)
    requires
        i <= bytes.len(),
    ensures
        r.deep_view() == split_on(bytes@.skip(i as int), sep),
    decreases bytes.len() - i,
{
    let ghost su = bytes@.skip(i as int);
    if i == bytes.len() {
        let r: Vec<Vec<u8>> = Vec::new();
        proof {
            assert(r.deep_view() =~= split_on(su, sep));
        }
        r
    } else if bytes[i] == sep {
        let r = split_from(bytes, i + 1, sep);
        proof {
            assert(su.drop_first() =~= bytes@.skip(i as int + 1));
        }
        r
    } else {
        let mut rest = split_from(bytes, i + 1, sep);
        proof {
            assert(su.drop_first() =~= bytes@.skip(i as int + 1));
        }
        if i + 1 < bytes.len() && bytes[i + 1] != sep {
            proof {
                lemma_split_head(bytes@.skip(i as int + 1), sep);
            }
            let mut head = rest.remove(0);
            head.insert(0, bytes[i]);
            let ghost restdv = rest.deep_view();
            rest.insert(0, head);
            proof {
                assert(rest.deep_view() =~~= split_on(su, sep));
            }
            rest
        } else {
            let mut head: Vec<u8> = Vec::new();
            head.push(bytes[i]);
            rest.insert(0, head);
            proof {
                assert(rest.deep_view() =~~= split_on(su, sep));
            }
            rest
        }
    }
}

/// Split a path on `/`, dropping empty components.
pub fn split_path(path: &str) -> (r: Vec<Vec<u8>>)
    ensures
        r.deep_view() == split_bytes(encode_utf8(path@)),
{
    let b = path.as_bytes();
    let bytes = vstd::slice::slice_to_vec(b);
    proof {
        assert(bytes@.skip(0) =~= bytes@);
    }
    split_from(&bytes, 0, SEP)
}

/// The decimal representation of a snapshot id.
pub open spec fn dec_bytes(n: u64) -> Seq<u8>
    decreases n,
{
    if n < 10 {
        seq![(48 + n) as u8]
    } else {
        dec_bytes(n / 10).push((48 + n % 10) as u8)
    }
}

/// Render a snapshot id in decimal.
pub fn u64_to_dec(n: u64) -> (r: Vec<u8>)
    ensures
        r@ == dec_bytes(n),
    decreases n,
{
    if n < 10 {
        let mut r: Vec<u8> = Vec::new();
        r.push(48 + n as u8);
        proof {
            assert(r@ =~= dec_bytes(n));
        }
        r
    } else {
        let mut r = u64_to_dec(n / 10);
        r.push(48 + (n % 10) as u8);
        r
    }
}

/// Compare a byte slice with a vector.
pub fn slice_eq_vec(a: &[u8], b: &Vec<u8>) -> (r: bool)
    ensures
        r == (a@ == b@),
{
    if a.len() != b.len() {
        proof {
            assert(a@.len() != b@.len());
        }
        return false;
    }
    let mut i: usize = 0;
    while i < b.len()
        invariant
            i <= b@.len(),
            a@.len() == b@.len(),
            forall|j: int| 0 <= j < i ==> a@[j] == b@[j],
        decreases b@.len() - i,
    {
        if a[i] != b[i] {
            return false;
        }
        i = i + 1;
    }
    proof {
        assert(a@ =~= b@);
    }
    true
}

/// The snapshots belonging to one family, in roster order.
pub open spec fn snaps_of_family(s: Seq<SnapshotV>, fam: Seq<u8>) -> Seq<SnapshotV>
    decreases s.len(),
{
    if s.len() == 0 {
        Seq::empty()
    } else {
        let rest = snaps_of_family(s.drop_last(), fam);
        if encode_utf8(s.last().family_name) == fam {
            rest.push(s.last())
        } else {
            rest
        }
    }
}

/// The first snapshot whose decimal id matches the component.
pub open spec fn find_snapshot(s: Seq<SnapshotV>, id_bytes: Seq<u8>) -> Option<SnapshotV>
    decreases s.len(),
{
    if s.len() == 0 {
        None
    } else if dec_bytes(s[0].id) == id_bytes {
        Some(s[0])
    } else {
        find_snapshot(s.drop_first(), id_bytes)
    }
}

/// The first entry whose UTF-8 name matches the component.
pub open spec fn find_entry(l: Seq<(EntryV, ContentV)>, name: Seq<u8>) -> Option<
    (EntryV, ContentV),
>
    decreases l.len(),
{
    if l.len() == 0 {
        None
    } else if encode_utf8(l[0].0.info.name.chars()) == name {
        Some(l[0])
    } else {
        find_entry(l.drop_first(), name)
    }
}

/// What listing a path denotes.
pub ghost enum LsOutcome {
    RootR(Seq<SnapshotV>),
    SnapshotsR(Seq<SnapshotV>),
    DirR(Seq<(EntryV, ContentV)>),
    Absent,
    Fail,
}

/// Walk the remaining components down a directory listing.
pub open spec fn resolve_dir(
    master: Seq<u8>,
    contents: Map<Seq<u8>, Seq<u8>>,
    listing: Seq<(EntryV, ContentV)>,
    comps: Seq<Seq<u8>>,
) -> LsOutcome
    decreases comps.len(),
{
    if comps.len() == 0 {
        LsOutcome::DirR(listing)
    } else {
        match find_entry(listing, comps[0]) {
            Some((e, c)) => match c {
                ContentV::Directory(h) => match dir_tree_listing(master, contents, h) {
                    Some(l2) => resolve_dir(master, contents, l2, comps.drop_first()),
                    None => LsOutcome::Fail,
                },
                _ => {
                    if comps.len() == 1 {
                        LsOutcome::DirR(seq![(e, c)])
                    } else {
                        LsOutcome::Absent
                    }
                },
            },
            None => LsOutcome::Absent,
        }
    }
}

/// The meaning of `ls`: root listing, family listing, or a walk from a
/// snapshot's root directory.
pub open spec fn ls_spec(
    master: Seq<u8>,
    contents: Map<Seq<u8>, Seq<u8>>,
    snaps: Seq<SnapshotV>,
    comps: Seq<Seq<u8>>,
) -> LsOutcome {
    if comps.len() == 0 {
        LsOutcome::RootR(snaps)
    } else {
        let fam = snaps_of_family(snaps, comps[0]);
        if comps.len() == 1 {
            LsOutcome::SnapshotsR(fam)
        } else {
            match find_snapshot(fam, comps[1]) {
                None => LsOutcome::Absent,
                Some(s) => match dir_tree_listing(master, contents, s.hash_ref) {
                    None => LsOutcome::Fail,
                    Some(l) => resolve_dir(master, contents, l, comps.skip(2)),
                },
            }
        }
    }
}

/// A path listing: every snapshot, one family's snapshots, or one
/// directory's entries.
#[derive(Debug)]
pub enum List {
    Root(Vec<Snapshot>),
    Snapshots(Vec<Snapshot>),
    Dir(Vec<(Entry, Content)>),
}

/// Whether an `ls` result realizes the specified outcome.
pub open spec fn ls_matches(r: Result<Option<List>, HatError>, o: LsOutcome) -> bool {
    match o {
        LsOutcome::RootR(s) => r matches Ok(Some(List::Root(v))) && v.deep_view() == s,
        LsOutcome::SnapshotsR(s) => r matches Ok(Some(List::Snapshots(v))) && v.deep_view() == s,
        LsOutcome::DirR(l) => r matches Ok(Some(List::Dir(v))) && v.deep_view() == l,
        LsOutcome::Absent => r matches Ok(None::<List>),
        LsOutcome::Fail => r is Err,
    }
}

/// The read-only filesystem over one repository's snapshots.
pub struct Filesystem<B: StoreBackend> {
    pub snapshots: Vec<Snapshot>,
    pub backend: B,
    pub master: Vec<u8>,
}

impl<B: StoreBackend> Filesystem<B> {
    pub open spec fn wf(&self) -> bool {
        &&& self.backend.inv()
        &&& self.master@.len() == 32
    }

    pub fn new(snapshots: Vec<Snapshot>, backend: B, master: Vec<u8>) -> (r: Filesystem<B>)
        requires
            backend.inv(),
            master@.len() == 32,
        ensures
            r.wf(),
            r.snapshots == snapshots,
            r.backend == backend,
    {
        Filesystem { snapshots, backend, master }
    }

    /// Fetch the listing behind one directory reference.
    pub fn ls_ref(&mut self, hash_ref: &HashRef) -> (r: Result<Vec<(Entry, Content)>, HatError>)
        requires
            old(self).wf(),
        ensures
            final(self).wf(),
            final(self).snapshots == old(self).snapshots,
            final(self).master == old(self).master,
            final(self).backend.contents() == old(self).backend.contents(),
            final(self).backend.reliable() == old(self).backend.reliable(),
            r matches Ok(l) ==> dir_tree_listing(
                old(self).master@,
                old(self).backend.contents(),
                hash_ref@,
            ) == Some(l.deep_view()),
            old(self).backend.reliable() && dir_tree_listing(
                old(self).master@,
                old(self).backend.contents(),
                hash_ref@,
            ) is Some ==> r is Ok,
    {
        fetch_dir_data(&mut self.backend, &self.master, hash_ref)
    }

    /// List a path: the root lists every snapshot; one component lists a
    /// family; `family/id/...` walks the snapshot's directory tree, and a
    /// final file or symlink component yields a one-entry listing.
    /// Missing components yield `None`.
    pub fn ls(&mut self, path: &str) -> (r: Result<Option<List>, HatError>)
        requires
            old(self).wf(),
        ensures
            final(self).wf(),
            final(self).snapshots == old(self).snapshots,
            final(self).master == old(self).master,
            final(self).backend.contents() == old(self).backend.contents(),
            final(self).backend.reliable() == old(self).backend.reliable(),
            r is Ok ==> ls_matches(
                r,
                ls_spec(
                    old(self).master@,
                    old(self).backend.contents(),
                    old(self).snapshots.deep_view(),
                    split_bytes(encode_utf8(path@)),
                ),
            ),
            old(self).backend.reliable() ==> ls_matches(
                r,
                ls_spec(
                    old(self).master@,
                    old(self).backend.contents(),
                    old(self).snapshots.deep_view(),
                    split_bytes(encode_utf8(path@)),
                ),
            ),
            // the root and family listings read nothing from the store,
            // so they are owed even on a failing store
            split_bytes(encode_utf8(path@)).len() <= 1 ==> ls_matches(
                r,
                ls_spec(
                    old(self).master@,
                    old(self).backend.contents(),
                    old(self).snapshots.deep_view(),
                    split_bytes(encode_utf8(path@)),
                ),
            ),
    {
        let ghost comps_spec = split_bytes(encode_utf8(path@));
        let comps = split_path(path);

        if comps.len() == 0 {
            return Ok(Some(List::Root(clone_snapshots(&self.snapshots))));
        }

        // snapshots of the named family, in roster order
        let ghost snapsv = self.snapshots.deep_view();
        let mut fam: Vec<Snapshot> = Vec::new();
        let mut i: usize = 0;
        while i < self.snapshots.len()
            invariant
                i <= self.snapshots@.len(),
                snapsv == self.snapshots.deep_view(),
                comps@.len() > 0,
                comps.deep_view() == comps_spec,
                fam.deep_view() == snaps_of_family(snapsv.take(i as int), comps.deep_view()[0]),
            decreases self.snapshots@.len() - i,
        {
            let ghost pre = fam.deep_view();
            proof {
                assert(snapsv.take(i as int + 1).drop_last() =~= snapsv.take(i as int));
                assert(snapsv.take(i as int + 1).last() == snapsv[i as int]);
            }
            proof {
                assert(comps.deep_view()[0] =~= comps@[0]@);
            }
            if slice_eq_vec(self.snapshots[i].family_name.as_str().as_bytes(), &comps[0]) {
                let c = clone_snapshot(&self.snapshots[i]);
                fam.push(c);
                proof {
                    assert(fam.deep_view() =~~= pre.push(snapsv[i as int]));
                }
            }
            proof {
                assert(comps.deep_view()[0] =~= comps@[0]@);
            }
            i = i + 1;
        }
        proof {
            assert(snapsv.take(snapsv.len() as int) =~= snapsv);
        }

        if comps.len() == 1 {
            return Ok(Some(List::Snapshots(fam)));
        }

        // find the snapshot by decimal id
        let ghost famv = fam.deep_view();
        let mut found: Option<usize> = None;
        let mut j: usize = 0;
        proof {
            assert(famv.skip(0) =~= famv);
        }
        while j < fam.len()
            invariant_except_break
                found is None,
                find_snapshot(famv, comps.deep_view()[1]) == find_snapshot(
                    famv.skip(j as int),
                    comps.deep_view()[1],
                ),
            invariant
                j <= fam@.len(),
                famv == fam.deep_view(),
                comps@.len() >= 2,
                comps.deep_view() == comps_spec,
            ensures
                j <= fam@.len(),
                famv == fam.deep_view(),
                comps.deep_view() == comps_spec,
                match found {
                    Some(k) => k < fam@.len() && find_snapshot(famv, comps.deep_view()[1])
                        == Some(famv[k as int]),
                    None => j == fam@.len() && find_snapshot(famv, comps.deep_view()[1])
                        == find_snapshot(famv.skip(j as int), comps.deep_view()[1]),
                },
            decreases fam@.len() - j,
        {
            let idb = u64_to_dec(fam[j].id);
            proof {
                assert(famv.skip(j as int)[0] == famv[j as int]);
                assert(famv.skip(j as int).drop_first() =~= famv.skip(j as int + 1));
                assert(comps.deep_view()[1] =~= comps@[1]@);
            }
            let id_matches = crate::backend::bytes_eq(&idb, &comps[1]);
            proof {
                assert(idb@ == dec_bytes(famv[j as int].id));
                assert(id_matches == (dec_bytes(famv[j as int].id) == comps.deep_view()[1]));
            }
            if id_matches {
                found = Some(j);
                proof {
                    assert(find_snapshot(famv.skip(j as int), comps.deep_view()[1]) == Some(
                        famv[j as int],
                    ));
                }
                break;
            }
            j = j + 1;
        }
        proof {
            if found is None {
                assert(famv.skip(famv.len() as int) =~= Seq::<SnapshotV>::empty());
            }
        }

        let snap_idx = match found {
            Some(k) => k,
            None => {
                return Ok(None);
            },
        };

        // walk the snapshot's directory tree
        let mut listing = match fetch_dir_data(
            &mut self.backend,
            &self.master,
            &fam[snap_idx].hash_ref,
        ) {
            Ok(l) => l,
            Err(e) => {
                return Err(e);
            },
        };

        let mut ci: usize = 2;
        while ci < comps.len()
            invariant
                2 <= ci <= comps@.len(),
                comps.deep_view() == comps_spec,
                comps_spec == split_bytes(encode_utf8(path@)),
                old(self).wf(),
                self.wf(),
                self.backend.contents() == old(self).backend.contents(),
                self.backend.reliable() == old(self).backend.reliable(),
                self.master == old(self).master,
                self.snapshots == old(self).snapshots,
                ls_spec(
                    old(self).master@,
                    old(self).backend.contents(),
                    old(self).snapshots.deep_view(),
                    comps_spec,
                ) == resolve_dir(
                    old(self).master@,
                    old(self).backend.contents(),
                    listing.deep_view(),
                    comps_spec.skip(ci as int),
                ),
            decreases comps@.len() - ci,
        {
            proof {
                assert(comps_spec.skip(ci as int)[0] == comps_spec[ci as int]);
                assert(comps_spec.skip(ci as int).drop_first() =~= comps_spec.skip(ci as int + 1));
            }
            // find the entry with this name
            let ghost lv = listing.deep_view();
            let mut hit: Option<usize> = None;
            let mut k: usize = 0;
            proof {
                assert(lv.skip(0) =~= lv);
            }
            while k < listing.len()
                invariant_except_break
                    hit is None,
                    find_entry(lv, comps_spec[ci as int]) == find_entry(
                        lv.skip(k as int),
                        comps_spec[ci as int],
                    ),
                invariant
                    k <= listing@.len(),
                    lv == listing.deep_view(),
                    ci < comps@.len(),
                    comps.deep_view() == comps_spec,
                ensures
                    k <= listing@.len(),
                    lv == listing.deep_view(),
                    match hit {
                        Some(h) => h < listing@.len() && find_entry(lv, comps_spec[ci as int])
                            == Some(lv[h as int]),
                        None => k == listing@.len() && find_entry(lv, comps_spec[ci as int])
                            == find_entry(lv.skip(k as int), comps_spec[ci as int]),
                    },
                decreases listing@.len() - k,
            {
                proof {
                    assert(lv.skip(k as int)[0] == lv[k as int]);
                    assert(lv.skip(k as int).drop_first() =~= lv.skip(k as int + 1));
                    assert(comps.deep_view()[ci as int] =~= comps@[ci as int]@);
                }
                let name_matches = slice_eq_vec(
                    listing[k].0.info.name.utf8().as_bytes(),
                    &comps[ci],
                );
                proof {
                    assert(name_matches == (encode_utf8(lv[k as int].0.info.name.chars())
                        == comps_spec[ci as int]));
                }
                if name_matches {
                    hit = Some(k);
                    proof {
                        assert(find_entry(lv.skip(k as int), comps_spec[ci as int]) == Some(
                            lv[k as int],
                        ));
                    }
                    break;
                }
                k = k + 1;
            }
            proof {
                if hit is None {
                    assert(lv.skip(lv.len() as int) =~= Seq::<(EntryV, ContentV)>::empty());
                }
            }

            let eidx = match hit {
                Some(h) => h,
                None => {
                    proof {
                        assert(find_entry(lv, comps_spec[ci as int]) is None);
                        assert(comps_spec.skip(ci as int)[0] == comps_spec[ci as int]);
                        assert(resolve_dir(
                            old(self).master@,
                            old(self).backend.contents(),
                            lv,
                            comps_spec.skip(ci as int),
                        ) == LsOutcome::Absent);
                    }
                    return Ok(None);
                },
            };

            let (entry, content) = listing.remove(eidx);
            proof {
                assert(listing.deep_view() =~~= lv.remove(eidx as int));
            }
            match content {
                Content::Directory(href) => {
                    listing = match fetch_dir_data(&mut self.backend, &self.master, &href) {
                        Ok(l) => l,
                        Err(e) => {
                            return Err(e);
                        },
                    };
                    ci = ci + 1;
                },
                other => {
                    if ci + 1 == comps.len() {
                        let mut single: Vec<(Entry, Content)> = Vec::new();
                        single.push((entry, other));
                        proof {
                            assert(single.deep_view() =~~= seq![
                                (lv[eidx as int].0, lv[eidx as int].1),
                            ]);
                            assert(comps_spec.skip(ci as int).len() == 1);
                        }
                        return Ok(Some(List::Dir(single)));
                    } else {
                        proof {
                            assert(find_entry(lv, comps_spec[ci as int]) == Some(lv[eidx as int]));
                            assert(comps_spec.skip(ci as int).len() != 1);
                            assert(resolve_dir(
                                old(self).master@,
                                old(self).backend.contents(),
                                lv,
                                comps_spec.skip(ci as int),
                            ) == LsOutcome::Absent);
                        }
                        return Ok(None);
                    }
                },
            }
        }
        proof {
            assert(comps_spec.skip(comps_spec.len() as int) =~= Seq::<Seq<u8>>::empty());
        }
        Ok(Some(List::Dir(listing)))
    }
}

} // verus!
