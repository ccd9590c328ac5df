//! The filesystem adapter core: inode assignment, lazy directory
//! materialization, and positional file reads. The host bindings that
//! translate kernel requests into these calls live outside the library.

use std::collections::HashMap;
use vstd::prelude::*;
use vstd::utf8::encode_utf8;

use crate::backend::{HatError, StoreBackend};
use crate::family::fetch_dir_data;
use crate::fs::FileReader;
use crate::models::{
    clone_bytes, clone_hash_ref, Content, ContentV, EntryV, FileInfoV, HashRef, HashRefV,
    Snapshot, SnapshotV,
};
use crate::vfs::dec_bytes;
use crate::tree::LeafIterator;
use crate::vfs::u64_to_dec;

verus! {

broadcast use vstd::std_specs::hash::group_hash_axioms;

/// What an inode stands for.
pub enum NodeType {
    Parent,
    ParentTop(HashRef),
    FileTop(HashRef),
    SymbolicLink(Vec<u8>),
}

pub ghost enum NodeTypeV {
    Parent,
    ParentTop(HashRefV),
    FileTop(HashRefV),
    SymbolicLink(Seq<u8>),
}

impl View for NodeType {
    type V = NodeTypeV;

    open spec fn view(&self) -> NodeTypeV {
        match self {
            NodeType::Parent => NodeTypeV::Parent,
            NodeType::ParentTop(h) => NodeTypeV::ParentTop(h@),
            NodeType::FileTop(h) => NodeTypeV::FileTop(h@),
            NodeType::SymbolicLink(p) => NodeTypeV::SymbolicLink(p@),
        }
    }
}

#[derive(Clone, Copy, Debug, PartialEq, Eq, Structural)]
pub enum NodeKind {
    Directory,
    RegularFile,
    Symlink,
}

impl DeepView for NodeKind {
    type V = NodeKind;

    open spec fn deep_view(&self) -> NodeKind {
        *self
    }
}

/// Projected attributes, as the kernel sees them.
#[derive(Clone, Copy, Debug, PartialEq, Eq, Structural)]
pub struct Attr {
    pub ino: u64,
    pub size: u64,
    pub perm: u16,
    pub atime: i64,
    pub mtime: i64,
    pub ctime: i64,
    pub kind: NodeKind,
}

/// One materialized inode.
pub struct FsNode {
    pub name: Vec<u8>,
    pub node_type: NodeType,
    pub attr: Attr,
    pub parent: Option<u64>,
}

pub ghost struct FsNodeV {
    pub name: Seq<u8>,
    pub node_type: NodeTypeV,
    pub attr: Attr,
    pub parent: Option<u64>,
}

impl View for FsNode {
    type V = FsNodeV;

    open spec fn view(&self) -> FsNodeV {
        FsNodeV { name: self.name@, node_type: self.node_type@, attr: self.attr, parent: self.parent }
    }
}

/// The default attributes of a fresh directory node.
pub open spec fn default_attr_spec(kind: NodeKind) -> Attr {
    Attr { ino: 0, size: 0, perm: 493, atime: 0, mtime: 0, ctime: 0, kind }
}

/// Attributes with read-execute permissions and nothing else set.
pub fn default_attr(kind: NodeKind) -> (r: Attr)
    ensures
        r == default_attr_spec(kind),
{
    Attr { ino: 0, size: 0, perm: 493, atime: 0, mtime: 0, ctime: 0, kind }
}

/// Whether a directory name is the family name of one of the given
/// snapshots.
#[verifier::opaque]
pub open spec fn names_some_family(name: Seq<u8>, snaps: Seq<SnapshotV>) -> bool {
    exists|j: int| 0 <= j < snaps.len() && name == encode_utf8((#[trigger] snaps[j]).family_name)
}

/// The reserved roster family, hidden from the mounted view.
pub open spec fn reserved_name() -> Seq<u8> {
    seq![95u8, 95u8, 104u8, 97u8, 116u8, 95u8, 95u8, 114u8, 111u8, 111u8, 116u8, 115u8, 95u8, 95u8]
}

fn reserved_family_name() -> (r: Vec<u8>)
    ensures
        r@ == reserved_name(),
{
    let mut v: Vec<u8> = Vec::new();
    v.push(95);
    v.push(95);
    v.push(104);
    v.push(97);
    v.push(116);
    v.push(95);
    v.push(95);
    v.push(114);
    v.push(111);
    v.push(111);
    v.push(116);
    v.push(115);
    v.push(95);
    v.push(95);
    proof {
        assert(v@ =~= reserved_name());
    }
    v
}

/// Whether the tables hold a directory for the given snapshot: a family
/// directory named after its family, with a child named by the decimal
/// snapshot id pointing at the snapshot's root.
#[verifier::opaque]
pub open spec fn snapshot_dir_present(
    inodes: Map<u64, FsNode>,
    parent_map: Map<u64, Vec<u64>>,
    s: SnapshotV,
) -> bool {
    exists|f: u64, x: int|
        #![trigger parent_map[f]@[x]]
        {
            &&& inodes.contains_key(f)
            &&& inodes[f]@.name == encode_utf8(s.family_name)
            &&& parent_map.contains_key(f)
            &&& 0 <= x < parent_map[f]@.len()
            &&& inodes.contains_key(parent_map[f]@[x])
            &&& inodes[parent_map[f]@[x]]@.name == dec_bytes(s.id)
            &&& inodes[parent_map[f]@[x]]@.node_type == NodeTypeV::ParentTop(s.hash_ref)
            &&& inodes[parent_map[f]@[x]]@.attr.ctime == s.created_ts_utc
            &&& inodes[parent_map[f]@[x]]@.attr.mtime == s.created_ts_utc
            &&& inodes[parent_map[f]@[x]]@.parent == Some(f)
        }
}

/// A snapshot directory survives adding one fresh inode and appending
/// to one child list.
proof fn lemma_dir_survives_add(
    inodes0: Map<u64, FsNode>,
    par0: Map<u64, Vec<u64>>,
    s: SnapshotV,
    new_ino: u64,
    node: FsNode,
    pkey: u64,
    plist: Vec<u64>,
)
    requires
        snapshot_dir_present(inodes0, par0, s),
        forall|k: u64| #[trigger] inodes0.contains_key(k) ==> k <= inodes0.len(),
        new_ino > inodes0.len(),
        par0.contains_key(pkey) ==> plist@.len() >= par0[pkey]@.len() && (forall|idx: int|
            0 <= idx < par0[pkey]@.len() ==> plist@[idx] == par0[pkey]@[idx]),
    ensures
        snapshot_dir_present(inodes0.insert(new_ino, node), par0.insert(pkey, plist), s),
{
    reveal(snapshot_dir_present);
    let (f0, x0): (u64, int) = choose|f0: u64, x0: int|
        #![trigger par0[f0]@[x0]]
        {
            &&& inodes0.contains_key(f0)
            &&& inodes0[f0]@.name == encode_utf8(s.family_name)
            &&& par0.contains_key(f0)
            &&& 0 <= x0 < par0[f0]@.len()
            &&& inodes0.contains_key(par0[f0]@[x0])
            &&& inodes0[par0[f0]@[x0]]@.name == dec_bytes(s.id)
            &&& inodes0[par0[f0]@[x0]]@.node_type == NodeTypeV::ParentTop(s.hash_ref)
            &&& inodes0[par0[f0]@[x0]]@.attr.ctime == s.created_ts_utc
            &&& inodes0[par0[f0]@[x0]]@.attr.mtime == s.created_ts_utc
            &&& inodes0[par0[f0]@[x0]]@.parent == Some(f0)
        };
    let inodes2 = inodes0.insert(new_ino, node);
    let par2 = par0.insert(pkey, plist);
    assert(f0 <= inodes0.len());
    assert(par0[f0]@[x0] <= inodes0.len());
    assert(inodes2[f0] == inodes0[f0]);
    assert(inodes2[par0[f0]@[x0]] == inodes0[par0[f0]@[x0]]);
    if f0 == pkey {
        assert(par2[f0]@[x0] == par0[f0]@[x0]);
    } else {
        assert(par2[f0] == par0[f0]);
    }
    assert(par2[f0]@[x0] == par0[f0]@[x0]);
}

/// The adapter's state: snapshots, the store, and the inode tables.
pub struct Fuse<B: StoreBackend> {
    pub snapshots: Vec<Snapshot>,
    pub backend: B,
    pub master: Vec<u8>,
    pub inodes: HashMap<u64, FsNode>,
    pub parent: HashMap<u64, Vec<u64>>,
    pub open_files: HashMap<u64, FileReader<LeafIterator>>,
    pub next_fh: u64,
}

impl<B: StoreBackend> Fuse<B> {
    pub open spec fn wf(&self) -> bool {
        &&& self.backend.inv()
        &&& self.master@.len() == 32
        &&& vstd::std_specs::hash::obeys_key_model::<u64>()
        &&& forall|fh: u64|
            self.open_files@.contains_key(fh) ==> (#[trigger] self.open_files@[fh]).wf()
        &&& forall|fh: u64| #[trigger]
            self.open_files@.contains_key(fh) ==> fh < self.next_fh
    }

    /// Every root child is a family directory whose name is not the
    /// reserved roster family.
    pub open spec fn root_children_ok(&self) -> bool {
        &&& self.parent@.contains_key(1)
        &&& forall|i: int|
            0 <= i < self.parent@[1]@.len() ==> {
                let ino = #[trigger] self.parent@[1]@[i];
                &&& self.inodes@.contains_key(ino)
                &&& self.inodes@[ino]@.name != reserved_name()
            }
    }

    /// Every family named by a snapshot, other than the reserved one, is
    /// present as a root child.
    pub open spec fn families_present(&self) -> bool {
        forall|j: int|
            0 <= j < self.snapshots.deep_view().len() ==> {
                let fam = encode_utf8((#[trigger] self.snapshots.deep_view()[j]).family_name);
                fam != reserved_name() ==> exists|i: int|
                    0 <= i < self.parent@[1]@.len() && self.inodes@.contains_key(
                        #[trigger] self.parent@[1]@[i],
                    ) && self.inodes@[self.parent@[1]@[i]]@.name == fam
            }
    }

    /// Every root child carries the name of some snapshot's family: the
    /// root lists families and nothing else.
    pub open spec fn root_children_are_families(&self) -> bool {
        forall|x: int|
            0 <= x < self.parent@[1]@.len() ==> names_some_family(
                self.inodes@[#[trigger] self.parent@[1]@[x]]@.name,
                self.snapshots.deep_view(),
            )
    }

    /// Every snapshot of a visible family has its directory: a child of
    /// that family's directory, named by the decimal snapshot id, of
    /// snapshot-root type over its hash reference, with creation and
    /// modification times set to the snapshot creation timestamp.
    pub open spec fn snapshot_dirs_ok(&self) -> bool {
        forall|j: int|
            0 <= j < self.snapshots.deep_view().len() ==> {
                let s = #[trigger] self.snapshots.deep_view()[j];
                encode_utf8(s.family_name) != reserved_name() ==> snapshot_dir_present(
                    self.inodes@,
                    self.parent@,
                    s,
                )
            }
    }

    fn add_file(&mut self, mut file: FsNode) -> (ino: u64)
        requires
            old(self).wf(),
            old(self).inodes@.len() < u64::MAX,
            forall|k: u64|
                old(self).inodes@.contains_key(k) ==> k <= old(self).inodes@.len(),
        ensures
            final(self).wf(),
            ino == old(self).inodes@.len() + 1,
            !old(self).inodes@.contains_key(ino),
            final(self).inodes@.len() == old(self).inodes@.len() + 1,
            forall|k: u64|
                final(self).inodes@.contains_key(k) ==> k <= final(self).inodes@.len(),
            final(self).inodes@ == old(self).inodes@.insert(
                ino,
                final(self).inodes@[ino],
            ),
            final(self).inodes@.contains_key(ino),
            final(self).inodes@[ino]@.name == file@.name,
            final(self).inodes@[ino]@.node_type == file@.node_type,
            final(self).inodes@[ino]@.parent == file@.parent,
            final(self).inodes@[ino]@.attr == (Attr { ino, ..file@.attr }),
            final(self).parent@ == (match file@.parent {
                Some(p) => old(self).parent@.insert(
                    p,
                    final(self).parent@[p],
                ),
                None => old(self).parent@,
            }),
            file@.parent matches Some(p) ==> final(self).parent@.contains_key(p)
                && final(self).parent@[p]@ == ((if old(self).parent@.contains_key(p) {
                old(self).parent@[p]@
            } else {
                Seq::<u64>::empty()
            }).push(ino)),
            final(self).snapshots == old(self).snapshots,
            final(self).backend == old(self).backend,
            final(self).master == old(self).master,
            final(self).open_files@ == old(self).open_files@,
            final(self).next_fh == old(self).next_fh,
    {
        let ino = self.inodes.len() as u64 + 1;
        file.attr.ino = ino;

        match file.parent {
            Some(parent_ino) => {
                let mut children = match self.parent.remove(&parent_ino) {
                    Some(v) => v,
                    None => Vec::new(),
                };
                children.push(ino);
                self.parent.insert(parent_ino, children);
            },
            None => {},
        }

        self.inodes.insert(ino, file);
        proof {
            assert(!old(self).inodes@.contains_key(ino));
            assert(final(self).inodes@ =~= old(self).inodes@.insert(
                ino,
                final(self).inodes@[ino],
            ));
            vstd::map::axiom_map_insert_domain::<u64, FsNode>(
                old(self).inodes@,
                ino,
                final(self).inodes@[ino],
            );
            if file@.parent is Some {
                let p = file@.parent->Some_0;
                assert(final(self).parent@ =~= old(self).parent@.insert(
                    p,
                    final(self).parent@[p],
                ));
            }
        }
        ino
    }
}


/// The node kind an entry's content projects to.
pub open spec fn entry_kind(c: ContentV) -> NodeKind {
    match c {
        ContentV::Data(_) => NodeKind::RegularFile,
        ContentV::Directory(_) => NodeKind::Directory,
        ContentV::SymbolicLink(_) => NodeKind::Symlink,
    }
}

/// The attributes an entry projects to: mode from its permissions when
/// present, times from its metadata, size from its byte length for
/// regular files.
pub open spec fn entry_attr(e: FileInfoV, c: ContentV) -> Attr {
    Attr {
        ino: 0,
        size: (match c {
            ContentV::Data(_) => if e.byte_length >= 0 {
                e.byte_length as u64
            } else {
                0
            },
            _ => 0,
        }),
        perm: (match e.permissions {
            crate::models::Permissions::Mode(m) => m as u16,
            crate::models::Permissions::Absent => 493,
        }),
        atime: e.accessed_ts,
        mtime: e.modified_ts,
        ctime: 0,
        kind: entry_kind(c),
    }
}

/// The node type an entry's content projects to.
pub open spec fn entry_node_type(e: EntryV, c: ContentV) -> NodeTypeV {
    match c {
        ContentV::Data(h) => NodeTypeV::FileTop(h),
        ContentV::Directory(h) => NodeTypeV::ParentTop(h),
        ContentV::SymbolicLink(p) => NodeTypeV::SymbolicLink(p),
    }
}

impl<B: StoreBackend> Fuse<B> {
    /// Mount-time population: inode 1 is the root directory; every
    /// family except the reserved roster family becomes a child of the
    /// root, and each of its snapshots a directory named by its decimal
    /// id with times set to the snapshot creation timestamp.
    /// The mount-time population invariants: inode keys stay within the
    /// table size, the root exists, and every root child is a live,
    /// non-reserved family directory named after some snapshot's family.
    pub open spec fn tables_wf(&self) -> bool {
        &&& self.inodes@.len() >= 1
        &&& forall|k: u64| self.inodes@.contains_key(k) ==> k <= self.inodes@.len()
        &&& self.parent@.contains_key(1)
        &&& forall|x: int|
            0 <= x < self.parent@[1]@.len() ==> {
                let ino = #[trigger] self.parent@[1]@[x];
                &&& self.inodes@.contains_key(ino)
                &&& self.inodes@[ino]@.name != reserved_name()
                &&& ino <= self.inodes@.len()
                &&& names_some_family(self.inodes@[ino]@.name, self.snapshots.deep_view())
            }
    }

    /// The family registry is sound: each recorded family has a live
    /// root-child directory of that name.
    pub open spec fn registry_ok(&self, reg: Seq<(Vec<u8>, u64)>) -> bool {
        forall|k: int|
            0 <= k < reg.len() ==> {
                let nm = (#[trigger] reg[k]).0;
                let ino = reg[k].1;
                &&& nm@ != reserved_name()
                &&& ino != 1
                &&& ino <= self.inodes@.len()
                &&& self.inodes@.contains_key(ino)
                &&& self.inodes@[ino]@.name == nm@
                &&& self.parent@[1]@.contains(ino)
            }
    }

    /// Find the family directory for snapshot `i`, creating it under the
    /// root on first sight and recording it in the registry.
    #[verifier::rlimit(60)]
    #[verifier::spinoff_prover]
    fn family_node(&mut self, registry: &mut Vec<(Vec<u8>, u64)>, i: usize) -> (fam_ino: u64)
        requires
            old(self).wf(),
            old(self).tables_wf(),
            old(self).registry_ok(old(registry)@),
            i < old(self).snapshots.deep_view().len(),
            encode_utf8(old(self).snapshots.deep_view()[i as int].family_name)
                != reserved_name(),
            old(self).inodes@.len() <= usize::MAX - 3,
        ensures
            final(self).wf(),
            final(self).tables_wf(),
            final(self).registry_ok(final(registry)@),
            final(self).snapshots == old(self).snapshots,
            final(self).backend == old(self).backend,
            final(self).master == old(self).master,
            final(self).open_files@ == old(self).open_files@,
            final(self).next_fh == old(self).next_fh,
            final(self).inodes@.len() <= old(self).inodes@.len() + 1,
            final(self).inodes@.len() >= old(self).inodes@.len(),
            forall|k: int|
                0 <= k < old(registry)@.len() ==> final(registry)@[k] == old(registry)@[k],
            final(registry)@.len() >= old(registry)@.len(),
            exists|k: int|
                0 <= k < final(registry)@.len() && (#[trigger] final(registry)@[k]).0@
                    == encode_utf8(old(self).snapshots.deep_view()[i as int].family_name),
            fam_ino != 1,
            final(self).inodes@.contains_key(fam_ino),
            final(self).inodes@[fam_ino]@.name == encode_utf8(
                old(self).snapshots.deep_view()[i as int].family_name,
            ),
            fam_ino <= final(self).inodes@.len(),
            forall|j: int|
                0 <= j < old(self).snapshots.deep_view().len() && snapshot_dir_present(
                    old(self).inodes@,
                    old(self).parent@,
                    (#[trigger] old(self).snapshots.deep_view()[j]),
                ) ==> snapshot_dir_present(
                    final(self).inodes@,
                    final(self).parent@,
                    old(self).snapshots.deep_view()[j],
                ),
    {
        let ghost snaps_dv = self.snapshots.deep_view();
        let fam_slice = self.snapshots[i].family_name.as_str().as_bytes();
        let fam_bytes = vstd::slice::slice_to_vec(fam_slice);
        proof {
            assert(fam_bytes@ == encode_utf8(snaps_dv[i as int].family_name));
        }

        let mut fam_ino_opt: Option<u64> = None;
        let mut k: usize = 0;
        while k < registry.len()
            invariant_except_break
                fam_ino_opt is None,
            invariant
                k <= registry@.len(),
                registry@ == old(registry)@,
            ensures
                registry@ == old(registry)@,
                match fam_ino_opt {
                    Some(f) => exists|x: int|
                        0 <= x < registry@.len() && (#[trigger] registry@[x]).0@ == fam_bytes@
                            && registry@[x].1 == f,
                    None => true,
                },
            decreases registry@.len() - k,
        {
            if crate::backend::bytes_eq(&registry[k].0, &fam_bytes) {
                fam_ino_opt = Some(registry[k].1);
                proof {
                    assert(registry@[k as int].0@ == fam_bytes@);
                }
                break;
            }
            k = k + 1;
        }

        let ghost inodes0 = self.inodes@;
        let ghost par0 = self.parent@;
        let ghost reg0 = registry@;
        match fam_ino_opt {
            Some(f) => {
                proof {
                    let x = choose|x: int|
                        0 <= x < reg0.len() && (#[trigger] reg0[x]).0@ == fam_bytes@
                            && reg0[x].1 == f;
                    assert(reg0[x].1 != 1);
                    assert(self.inodes@.contains_key(f));
                    assert(self.inodes@[f]@.name == fam_bytes@);
                    assert(f <= self.inodes@.len());
                }
                f
            },
            None => {
                let nm_node = clone_bytes(&fam_bytes);
                let f = self.add_file(
                    FsNode {
                        name: nm_node,
                        node_type: NodeType::Parent,
                        attr: default_attr(NodeKind::Directory),
                        parent: Some(1),
                    },
                );
                registry.push((fam_bytes, f));
                proof {
                    assert(forall|k2: int| 0 <= k2 < reg0.len() ==> registry@[k2] == reg0[k2]);
                    assert(registry@[registry@.len() - 1].0@ == encode_utf8(
                        snaps_dv[i as int].family_name,
                    ));
                    assert(self.parent@[1]@ == par0[1]@.push(f));
                    assert(self.parent@[1]@.last() == f);
                    assert(self.parent@[1]@.contains(f));
                    assert(f == inodes0.len() + 1);
                    assert(names_some_family(fam_bytes@, snaps_dv)) by {
                        reveal(names_some_family);
                        assert(fam_bytes@ == encode_utf8(snaps_dv[i as int].family_name));
                    }
                    assert forall|x: int| 0 <= x < self.parent@[1]@.len() implies {
                        let ino = #[trigger] self.parent@[1]@[x];
                        &&& self.inodes@.contains_key(ino)
                        &&& self.inodes@[ino]@.name != reserved_name()
                        &&& ino <= self.inodes@.len()
                        &&& names_some_family(self.inodes@[ino]@.name, snaps_dv)
                    } by {
                        if x < par0[1]@.len() {
                            assert(self.parent@[1]@[x] == par0[1]@[x]);
                            assert(par0[1]@[x] <= inodes0.len());
                            assert(self.inodes@[par0[1]@[x]] == inodes0[par0[1]@[x]]);
                        } else {
                            assert(self.parent@[1]@[x] == f);
                            assert(self.inodes@[f]@.name == fam_bytes@);
                        }
                    }
                    assert forall|k2: int| 0 <= k2 < registry@.len() implies {
                        let nm = (#[trigger] registry@[k2]).0;
                        let ino = registry@[k2].1;
                        &&& nm@ != reserved_name()
                        &&& ino != 1
                        &&& ino <= self.inodes@.len()
                        &&& self.inodes@.contains_key(ino)
                        &&& self.inodes@[ino]@.name == nm@
                        &&& self.parent@[1]@.contains(ino)
                    } by {
                        if k2 < reg0.len() {
                            assert(registry@[k2] == reg0[k2]);
                            assert(reg0[k2].1 <= inodes0.len());
                            assert(self.inodes@[reg0[k2].1] == inodes0[reg0[k2].1]);
                            assert(par0[1]@.contains(reg0[k2].1));
                            let w = choose|w: int|
                                0 <= w < par0[1]@.len() && par0[1]@[w] == reg0[k2].1;
                            assert(self.parent@[1]@[w] == reg0[k2].1);
                        } else {
                            assert(registry@[k2].1 == f);
                        }
                    }
                    assert forall|j: int|
                        0 <= j < snaps_dv.len() && snapshot_dir_present(
                            inodes0,
                            par0,
                            (#[trigger] snaps_dv[j]),
                        ) implies snapshot_dir_present(
                        self.inodes@,
                        self.parent@,
                        snaps_dv[j],
                    ) by {
                        lemma_dir_survives_add(
                            inodes0,
                            par0,
                            snaps_dv[j],
                            f,
                            self.inodes@[f],
                            1,
                            self.parent@[1],
                        );
                        assert(self.inodes@ =~= inodes0.insert(f, self.inodes@[f]));
                        assert(self.parent@ =~= par0.insert(1, self.parent@[1]));
                    }
                }
                f
            },
        }
    }

    /// Record one visible snapshot at mount time: find or create its
    /// family directory under the root, then add a snapshot directory
    /// named by its decimal id with times from its creation stamp.
    #[verifier::rlimit(60)]
    #[verifier::spinoff_prover]
    fn register_snapshot(&mut self, registry: &mut Vec<(Vec<u8>, u64)>, i: usize)
        requires
            old(self).wf(),
            old(self).tables_wf(),
            old(self).registry_ok(old(registry)@),
            i < old(self).snapshots.deep_view().len(),
            encode_utf8(old(self).snapshots.deep_view()[i as int].family_name)
                != reserved_name(),
            old(self).inodes@.len() <= usize::MAX - 3,
        ensures
            final(self).wf(),
            final(self).tables_wf(),
            final(self).registry_ok(final(registry)@),
            final(self).snapshots == old(self).snapshots,
            final(self).backend == old(self).backend,
            final(self).master == old(self).master,
            final(self).open_files@ == old(self).open_files@,
            final(self).next_fh == old(self).next_fh,
            final(self).inodes@.len() <= old(self).inodes@.len() + 2,
            forall|k: int|
                0 <= k < old(registry)@.len() ==> final(registry)@[k] == old(registry)@[k],
            final(registry)@.len() >= old(registry)@.len(),
            exists|k: int|
                0 <= k < final(registry)@.len() && (#[trigger] final(registry)@[k]).0@
                    == encode_utf8(old(self).snapshots.deep_view()[i as int].family_name),
            snapshot_dir_present(
                final(self).inodes@,
                final(self).parent@,
                old(self).snapshots.deep_view()[i as int],
            ),
            forall|j: int|
                0 <= j < old(self).snapshots.deep_view().len() && snapshot_dir_present(
                    old(self).inodes@,
                    old(self).parent@,
                    (#[trigger] old(self).snapshots.deep_view()[j]),
                ) ==> snapshot_dir_present(
                    final(self).inodes@,
                    final(self).parent@,
                    old(self).snapshots.deep_view()[j],
                ),
    {
        let ghost snaps_dv = self.snapshots.deep_view();
        let fam_ino = self.family_node(registry, i);
        let ghost inodes1 = self.inodes@;
        let ghost par1 = self.parent@;
        let ghost reg1 = registry@;

        let mut at = default_attr(NodeKind::Directory);
        at.ctime = self.snapshots[i].created_ts_utc;
        at.mtime = self.snapshots[i].created_ts_utc;
        let id_name = u64_to_dec(self.snapshots[i].id);
        let href = clone_hash_ref(&self.snapshots[i].hash_ref);
        let snap_ino = self.add_file(
            FsNode {
                name: id_name,
                node_type: NodeType::ParentTop(href),
                attr: at,
                parent: Some(fam_ino),
            },
        );
        proof {
            assert(self.parent@ == par1.insert(fam_ino, self.parent@[fam_ino]));
            assert(self.parent@[1] == par1[1]);
            assert forall|x: int| 0 <= x < self.parent@[1]@.len() implies {
                let ino = #[trigger] self.parent@[1]@[x];
                &&& self.inodes@.contains_key(ino)
                &&& self.inodes@[ino]@.name != reserved_name()
                &&& ino <= self.inodes@.len()
                &&& names_some_family(self.inodes@[ino]@.name, snaps_dv)
            } by {
                assert(self.parent@[1]@[x] == par1[1]@[x]);
                assert(par1[1]@[x] <= inodes1.len());
                assert(self.inodes@[par1[1]@[x]] == inodes1[par1[1]@[x]]);
            }
            assert forall|k2: int| 0 <= k2 < registry@.len() implies {
                let nm = (#[trigger] registry@[k2]).0;
                let ino = registry@[k2].1;
                &&& nm@ != reserved_name()
                &&& ino != 1
                &&& ino <= self.inodes@.len()
                &&& self.inodes@.contains_key(ino)
                &&& self.inodes@[ino]@.name == nm@
                &&& self.parent@[1]@.contains(ino)
            } by {
                assert(registry@[k2] == reg1[k2]);
                assert(reg1[k2].1 <= inodes1.len());
                assert(self.inodes@[reg1[k2].1] == inodes1[reg1[k2].1]);
                let w = choose|w: int|
                    0 <= w < par1[1]@.len() && par1[1]@[w] == reg1[k2].1;
                assert(self.parent@[1]@[w] == reg1[k2].1);
            }
            // this snapshot's directory now stands under its family
            reveal(snapshot_dir_present);
            let xw = self.parent@[fam_ino]@.len() - 1;
            assert(self.parent@[fam_ino]@[xw] == snap_ino);
            assert(self.inodes@[fam_ino] == inodes1[fam_ino]);
            assert(self.inodes@[snap_ino]@.name == dec_bytes(snaps_dv[i as int].id));
            assert(self.inodes@[snap_ino]@.node_type == NodeTypeV::ParentTop(
                snaps_dv[i as int].hash_ref,
            ));
            assert(self.inodes@[snap_ino]@.attr.ctime == snaps_dv[i as int].created_ts_utc);
            assert(self.inodes@[snap_ino]@.attr.mtime == snaps_dv[i as int].created_ts_utc);
            assert(self.inodes@[snap_ino]@.parent == Some(fam_ino));
            assert(snapshot_dir_present(self.inodes@, self.parent@, snaps_dv[i as int]));
            // earlier snapshot directories survive both additions
            assert forall|j: int|
                0 <= j < snaps_dv.len() && snapshot_dir_present(
                    old(self).inodes@,
                    old(self).parent@,
                    (#[trigger] snaps_dv[j]),
                ) implies snapshot_dir_present(self.inodes@, self.parent@, snaps_dv[j]) by {
                assert(snapshot_dir_present(inodes1, par1, snaps_dv[j]));
                lemma_dir_survives_add(
                    inodes1,
                    par1,
                    snaps_dv[j],
                    snap_ino,
                    self.inodes@[snap_ino],
                    fam_ino,
                    self.parent@[fam_ino],
                );
                assert(self.inodes@ =~= inodes1.insert(snap_ino, self.inodes@[snap_ino]));
                assert(self.parent@ =~= par1.insert(fam_ino, self.parent@[fam_ino]));
            }
        }
    }

    /// Mount-time population: inode 1 is the root directory; every
    /// family except the reserved roster family becomes a child of the
    /// root, and each of its snapshots a directory named by its decimal
    /// id with times set to the snapshot creation timestamp.
    #[verifier::rlimit(60)]
    #[verifier::spinoff_prover]
    pub fn new(snapshots: Vec<Snapshot>, backend: B, master: Vec<u8>) -> (r: Result<
        Fuse<B>,
        HatError,
    >)
        requires
            backend.inv(),
            master@.len() == 32,
        ensures
            r matches Ok(fs) ==> {
                &&& fs.wf()
                &&& fs.root_children_ok()
                &&& fs.families_present()
                &&& fs.root_children_are_families()
                &&& fs.snapshot_dirs_ok()
                &&& fs.snapshots == snapshots
            },
            2 * snapshots.deep_view().len() + 4 <= usize::MAX ==> r is Ok,
    {
        let mut fs = Fuse {
            snapshots,
            backend,
            master,
            inodes: HashMap::new(),
            parent: HashMap::new(),
            open_files: HashMap::new(),
            next_fh: 1,
        };
        let mut root_name: Vec<u8> = Vec::new();
        root_name.push(114);
        root_name.push(111);
        root_name.push(111);
        root_name.push(116);
        let root_ino = fs.add_file(
            FsNode {
                name: root_name,
                node_type: NodeType::Parent,
                attr: default_attr(NodeKind::Directory),
                parent: None,
            },
        );
        if root_ino != 1 {
            return Err(HatError::Integrity);
        }
        if !fs.parent.contains_key(&1) {
            fs.parent.insert(1, Vec::new());
        }
        proof {
            assert(fs.parent@.contains_key(1));
            assert(fs.parent@[1]@ =~= Seq::<u64>::empty());
        }

        let reserved = reserved_family_name();
        let ghost snaps_dv = fs.snapshots.deep_view();
        // family name bytes, and the inode of each family directory
        let mut registry: Vec<(Vec<u8>, u64)> = Vec::new();
        let mut i: usize = 0;
        while i < fs.snapshots.len()
            invariant
                i <= fs.snapshots@.len(),
                fs.wf(),
                fs.tables_wf(),
                fs.registry_ok(registry@),
                fs.snapshots == snapshots,
                fs.snapshots.deep_view() == snaps_dv,
                reserved@ == reserved_name(),
                fs.inodes@.len() <= 1 + 2 * i,
                forall|j: int|
                    0 <= j < i ==> {
                        let fam = encode_utf8((#[trigger] snaps_dv[j]).family_name);
                        fam != reserved_name() ==> exists|k: int|
                            0 <= k < registry@.len() && (#[trigger] registry@[k]).0@ == fam
                    },
                forall|j: int|
                    0 <= j < i ==> {
                        let s = #[trigger] snaps_dv[j];
                        encode_utf8(s.family_name) != reserved_name() ==> snapshot_dir_present(
                            fs.inodes@,
                            fs.parent@,
                            s,
                        )
                    },
            decreases fs.snapshots@.len() - i,
        {
            if fs.inodes.len() > usize::MAX - 3 {
                return Err(HatError::Integrity);
            }
            let fam_slice = fs.snapshots[i].family_name.as_str().as_bytes();
            let fam_bytes = vstd::slice::slice_to_vec(fam_slice);
            proof {
                assert(fam_bytes@ == encode_utf8(snaps_dv[i as int].family_name));
            }
            if crate::backend::bytes_eq(&fam_bytes, &reserved) {
                i = i + 1;
                continue;
            }
            let ghost reg_pre = registry@;
            fs.register_snapshot(&mut registry, i);
            proof {
                assert forall|j: int|
                    0 <= j < i + 1 && encode_utf8(
                        (#[trigger] snaps_dv[j]).family_name,
                    ) != reserved_name() implies snapshot_dir_present(
                    fs.inodes@,
                    fs.parent@,
                    snaps_dv[j],
                ) by {}
                assert forall|j: int|
                    0 <= j < i + 1 && encode_utf8(
                        (#[trigger] snaps_dv[j]).family_name,
                    ) != reserved_name() implies exists|k: int|
                    0 <= k < registry@.len() && (#[trigger] registry@[k]).0@ == encode_utf8(
                    snaps_dv[j].family_name,
                ) by {
                    if j < i {
                        let k0 = choose|k0: int|
                            0 <= k0 < reg_pre.len() && (#[trigger] reg_pre[k0]).0@
                                == encode_utf8(snaps_dv[j].family_name);
                        assert(registry@[k0] == reg_pre[k0]);
                    }
                }
            }
            i = i + 1;
        }
        proof {
            lemma_population_complete(fs, registry@);
            assert(fs.snapshot_dirs_ok());
        }
        Ok(fs)
    }
}



/// Copy an inode list.
fn copy_u64s(x: &Vec<u64>) -> (r: Vec<u64>)
    ensures
        r@ == x@,
{
    let mut out: Vec<u64> = Vec::new();
    let mut i: usize = 0;
    while i < x.len()
        invariant
            i <= x@.len(),
            out@ == x@.take(i as int),
        decreases x@.len() - i,
    {
        out.push(x[i]);
        proof {
            assert(out@ =~= x@.take(i as int + 1));
        }
        i = i + 1;
    }
    proof {
        assert(x@.take(x@.len() as int) =~= x@);
    }
    out
}

/// The name of the self entry in a listing.
pub open spec fn dot_name() -> Seq<u8> {
    seq![46u8]
}

/// The name of the parent entry in a listing.
pub open spec fn dotdot_name() -> Seq<u8> {
    seq![46u8, 46u8]
}

/// The listing rows of a child inode sequence: one row per live child,
/// with its kind and name; unregistered inodes are skipped.
pub open spec fn children_entries(inodes: Map<u64, FsNode>, kids: Seq<u64>) -> Seq<
    (u64, NodeKind, Seq<u8>),
>
    decreases kids.len(),
{
    if kids.len() == 0 {
        Seq::empty()
    } else {
        children_entries(inodes, kids.drop_last()) + (if inodes.contains_key(kids.last()) {
            seq![
                (
                    kids.last(),
                    kind_of(inodes[kids.last()]@.node_type),
                    inodes[kids.last()]@.name,
                ),
            ]
        } else {
            Seq::empty()
        })
    }
}

/// The directory kind an inode presents in listings.
pub open spec fn kind_of(t: NodeTypeV) -> NodeKind {
    match t {
        NodeTypeV::Parent => NodeKind::Directory,
        NodeTypeV::ParentTop(_) => NodeKind::Directory,
        NodeTypeV::FileTop(_) => NodeKind::RegularFile,
        NodeTypeV::SymbolicLink(_) => NodeKind::Symlink,
    }
}

impl<B: StoreBackend> Fuse<B> {
    pub open spec fn keys_bounded(&self) -> bool {
        forall|k: u64| self.inodes@.contains_key(k) ==> k <= self.inodes@.len()
    }

    /// Whether listing the children of `ino` can be expected to succeed:
    /// either no fetch is needed, or the referenced directory tree is
    /// readable and the inode table has room for its entries.
    pub open spec fn can_materialize(&self, ino: u64) -> bool {
        self.inodes@.contains_key(ino) ==> (match self.inodes@[ino]@.node_type {
            NodeTypeV::ParentTop(h) => self.parent@.contains_key(ino) || (
            crate::family::dir_tree_listing(self.master@, self.backend.contents(), h) is Some
                && self.inodes@.len() + crate::family::dir_tree_listing(
                self.master@,
                self.backend.contents(),
                h,
            )->Some_0.len() + 2 <= usize::MAX),
            _ => true,
        })
    }

    /// Materialize the listing behind a snapshot or directory reference
    /// as children of `parent`: one inode per entry, with name, node type
    /// and attributes projected from the entry.
    #[verifier::rlimit(100)]
    pub fn fetch_dir(&mut self, parent: u64, hash_ref: &HashRef) -> (r: Result<(), HatError>)
        requires
            old(self).wf(),
            old(self).keys_bounded(),
        ensures
            final(self).wf(),
            final(self).keys_bounded(),
            final(self).backend.contents() == old(self).backend.contents(),
            final(self).backend.reliable() == old(self).backend.reliable(),
            final(self).snapshots == old(self).snapshots,
            final(self).master == old(self).master,
            final(self).open_files@ == old(self).open_files@,
            old(self).inodes@.submap_of(final(self).inodes@),
            final(self).parent@.remove(parent) == old(self).parent@.remove(parent),
            old(self).parent@.contains_key(parent) ==> final(self).parent@.contains_key(parent)
                && (forall|idx: int|
                    #![trigger old(self).parent@[parent]@[idx]]
                    0 <= idx < old(self).parent@[parent]@.len()
                        ==> final(self).parent@[parent]@[idx]
                        == old(self).parent@[parent]@[idx]),
            r is Err ==> final(self).inodes@ == old(self).inodes@
                && final(self).parent@ == old(self).parent@,
            r is Ok ==> {
                let l = crate::family::dir_tree_listing(
                    old(self).master@,
                    old(self).backend.contents(),
                    hash_ref@,
                )->Some_0;
                &&& crate::family::dir_tree_listing(
                    old(self).master@,
                    old(self).backend.contents(),
                    hash_ref@,
                ) is Some
                &&& final(self).parent@.contains_key(parent)
                &&& final(self).parent@[parent]@.len() == (if old(self).parent@.contains_key(
                    parent,
                ) {
                    old(self).parent@[parent]@.len()
                } else {
                    0
                }) + l.len()
                &&& forall|t: int|
                    #![trigger l[t]]
                    0 <= t < l.len() ==> {
                        let done = final(self).parent@[parent]@;
                        let ino = done[done.len() - l.len() + t];
                        &&& final(self).inodes@.contains_key(ino)
                        &&& final(self).inodes@[ino]@.name == l[t].0.info.name.bytes()
                        &&& final(self).inodes@[ino]@.node_type == entry_node_type(
                            l[t].0,
                            l[t].1,
                        )
                        &&& final(self).inodes@[ino]@.attr == (Attr {
                            ino,
                            ..entry_attr(l[t].0.info, l[t].1)
                        })
                        &&& final(self).inodes@[ino]@.parent == Some(parent)
                    }
            },
            (old(self).backend.reliable() && crate::family::dir_tree_listing(
                old(self).master@,
                old(self).backend.contents(),
                hash_ref@,
            ) is Some && old(self).inodes@.len() + crate::family::dir_tree_listing(
                old(self).master@,
                old(self).backend.contents(),
                hash_ref@,
            )->Some_0.len() + 2 <= usize::MAX) ==> r is Ok,
    {
        let entries = match fetch_dir_data(&mut self.backend, &self.master, hash_ref) {
            Ok(l) => l,
            Err(e) => {
                return Err(e);
            },
        };
        if entries.len() > usize::MAX - 2 || self.inodes.len() > usize::MAX - 2 - entries.len() {
            return Err(HatError::Integrity);
        }
        let ghost lv = entries.deep_view();
        let ghost base = if old(self).parent@.contains_key(parent) {
            old(self).parent@[parent]@.len() as int
        } else {
            0
        };

        let mut t: usize = 0;
        while t < entries.len()
            invariant
                t <= entries@.len(),
                lv == entries.deep_view(),
                self.wf(),
                self.keys_bounded(),
                self.backend.contents() == old(self).backend.contents(),
                self.backend.reliable() == old(self).backend.reliable(),
                self.snapshots == old(self).snapshots,
                self.master == old(self).master,
                self.open_files@ == old(self).open_files@,
                base == (if old(self).parent@.contains_key(parent) {
                    old(self).parent@[parent]@.len() as int
                } else {
                    0
                }),
                t > 0 ==> self.parent@.contains_key(parent),
                t > 0 ==> self.parent@[parent]@.len() == base + t,
                t == 0 ==> self.parent@ == old(self).parent@,
                self.inodes@.len() == old(self).inodes@.len() + t,
                old(self).inodes@.len() + entries@.len() + 2 <= usize::MAX,
                old(self).inodes@.submap_of(self.inodes@),
                self.parent@.remove(parent) == old(self).parent@.remove(parent),
                old(self).parent@.contains_key(parent) ==> self.parent@.contains_key(parent)
                    && (forall|idx: int|
                        #![trigger old(self).parent@[parent]@[idx]]
                        0 <= idx < old(self).parent@[parent]@.len() ==> self.parent@[parent]@[idx]
                            == old(self).parent@[parent]@[idx]),
                crate::family::dir_tree_listing(
                    old(self).master@,
                    old(self).backend.contents(),
                    hash_ref@,
                ) == Some(entries.deep_view()),
                forall|u: int|
                    0 <= u < t ==> {
                        let ino = #[trigger] self.parent@[parent]@[base + u];
                        &&& self.inodes@.contains_key(ino)
                        &&& self.inodes@[ino]@.name == lv[u].0.info.name.bytes()
                        &&& self.inodes@[ino]@.node_type == entry_node_type(lv[u].0, lv[u].1)
                        &&& self.inodes@[ino]@.attr == (Attr {
                            ino,
                            ..entry_attr(lv[u].0.info, lv[u].1)
                        })
                        &&& self.inodes@[ino]@.parent == Some(parent)
                    },
            decreases entries@.len() - t,
        {
            let name_bytes = crate::models::clone_file_name(&entries[t].0.info.name).into_bytes();
            let mut at: Attr;
            let nt: NodeType;
            match &entries[t].1 {
                Content::Data(h) => {
                    at = default_attr(NodeKind::RegularFile);
                    if entries[t].0.info.byte_length >= 0 {
                        at.size = entries[t].0.info.byte_length as u64;
                    }
                    nt = NodeType::FileTop(clone_hash_ref(h));
                },
                Content::Directory(h) => {
                    at = default_attr(NodeKind::Directory);
                    nt = NodeType::ParentTop(clone_hash_ref(h));
                },
                Content::SymbolicLink(pth) => {
                    at = default_attr(NodeKind::Symlink);
                    nt = NodeType::SymbolicLink(clone_bytes(pth));
                },
            }
            match &entries[t].0.info.permissions {
                crate::models::Permissions::Mode(m) => {
                    at.perm = *m as u16;
                },
                crate::models::Permissions::Absent => {},
            }
            at.atime = entries[t].0.info.accessed_ts;
            at.mtime = entries[t].0.info.modified_ts;
            proof {
                assert(at == (Attr { ino: 0, ..entry_attr(lv[t as int].0.info, lv[t as int].1) }));
            }

            let ghost inodes0 = self.inodes@;
            let ghost par0 = self.parent@;
            let ino = self.add_file(
                FsNode { name: name_bytes, node_type: nt, attr: at, parent: Some(parent) },
            );
            proof {
                assert forall|u: int| 0 <= u < t + 1 implies {
                    let cino = #[trigger] self.parent@[parent]@[base + u];
                    &&& self.inodes@.contains_key(cino)
                    &&& self.inodes@[cino]@.name == lv[u].0.info.name.bytes()
                    &&& self.inodes@[cino]@.node_type == entry_node_type(lv[u].0, lv[u].1)
                    &&& self.inodes@[cino]@.attr == (Attr {
                        ino: cino,
                        ..entry_attr(lv[u].0.info, lv[u].1)
                    })
                    &&& self.inodes@[cino]@.parent == Some(parent)
                } by {
                    if u < t {
                        assert(self.parent@[parent]@[base + u] == par0[parent]@[base + u]);
                        assert(par0[parent]@[base + u] <= inodes0.len());
                        assert(self.inodes@[par0[parent]@[base + u]] == inodes0[par0[parent]@[
                            base + u]]);
                    } else {
                        assert(self.parent@[parent]@[base + u] == ino);
                    }
                }
                assert(old(self).inodes@.submap_of(self.inodes@)) by {
                    assert forall|k: u64| old(self).inodes@.dom().contains(k) implies self.inodes@
                        .dom().contains(k) && old(self).inodes@[k] == self.inodes@[k] by {
                        assert(inodes0.dom().contains(k));
                        assert(k <= inodes0.len());
                        assert(self.inodes@[k] == inodes0[k]);
                    }
                }
                assert(self.parent@.remove(parent) =~= old(self).parent@.remove(parent)) by {
                    assert(self.parent@.remove(parent) =~= par0.remove(parent));
                }
                if old(self).parent@.contains_key(parent) {
                    assert forall|idx: int|
                        0 <= idx < old(self).parent@[parent]@.len() implies self.parent@[
                        parent]@[idx] == old(self).parent@[parent]@[idx] by {
                        assert(self.parent@[parent]@[idx] == par0[parent]@[idx]);
                    }
                }
            }
            t = t + 1;
        }
        proof {
            if lv.len() == 0 {
                if old(self).parent@.contains_key(parent) {
                    assert(self.parent@.contains_key(parent));
                }
            }
        }
        if entries.len() == 0 && !self.parent.contains_key(&parent) {
            self.parent.insert(parent, Vec::new());
            proof {
                assert(self.parent@[parent]@ =~= Seq::<u64>::empty());
            }
        }
        Ok(())
    }

    /// The children of an inode, materializing a snapshot directory on
    /// first access.
    pub fn childs(&mut self, parent: u64) -> (r: Result<Vec<u64>, HatError>)
        requires
            old(self).wf(),
            old(self).keys_bounded(),
        ensures
            final(self).wf(),
            final(self).keys_bounded(),
            final(self).backend.contents() == old(self).backend.contents(),
            final(self).backend.reliable() == old(self).backend.reliable(),
            final(self).snapshots == old(self).snapshots,
            final(self).master == old(self).master,
            final(self).open_files@ == old(self).open_files@,
            old(self).inodes@.submap_of(final(self).inodes@),
            final(self).parent@.remove(parent) == old(self).parent@.remove(parent),
            r matches Ok(v) ==> v@ == (if final(self).parent@.contains_key(parent) {
                final(self).parent@[parent]@
            } else {
                Seq::<u64>::empty()
            }),
            // materialize once: a registered child list is returned as it
            // stands, with no table change and no fetch
            old(self).parent@.contains_key(parent) ==> final(self).inodes@ == old(self).inodes@
                && final(self).parent@ == old(self).parent@,
            old(self).backend.reliable() && old(self).can_materialize(parent) ==> r is Ok,
    {
        let needs_fetch: Option<HashRef> = match self.inodes.get(&parent) {
            Some(node) => match &node.node_type {
                NodeType::ParentTop(h) => {
                    if !self.parent.contains_key(&parent) {
                        Some(clone_hash_ref(h))
                    } else {
                        None
                    }
                },
                _ => None,
            },
            None => None,
        };
        match needs_fetch {
            Some(h) => {
                match self.fetch_dir(parent, &h) {
                    Ok(()) => {},
                    Err(e) => {
                        return Err(e);
                    },
                }
            },
            None => {
                proof {
                    assert(self.inodes@.submap_of(self.inodes@));
                }
            },
        }
        match self.parent.get(&parent) {
            Some(v) => Ok(copy_u64s(v)),
            None => Ok(Vec::new()),
        }
    }

    /// The attributes of an inode.
    pub fn getattr(&self, ino: u64) -> (r: Option<Attr>)
        requires
            self.wf(),
        ensures
            match r {
                Some(a) => self.inodes@.contains_key(ino) && a == self.inodes@[ino]@.attr,
                None => !self.inodes@.contains_key(ino),
            },
    {
        match self.inodes.get(&ino) {
            Some(node) => Some(node.attr),
            None => None,
        }
    }

    /// The target of a symbolic link inode.
    pub fn readlink(&self, ino: u64) -> (r: Option<Vec<u8>>)
        requires
            self.wf(),
        ensures
            match r {
                Some(p) => self.inodes@.contains_key(ino) && (self.inodes@[ino]@.node_type
                    matches NodeTypeV::SymbolicLink(q) && p@ == q),
                None => !self.inodes@.contains_key(ino) || !(self.inodes@[ino]@.node_type
                    is SymbolicLink),
            },
    {
        match self.inodes.get(&ino) {
            Some(node) => match &node.node_type {
                NodeType::SymbolicLink(p) => Some(clone_bytes(p)),
                _ => None,
            },
            None => None,
        }
    }

    /// Find a child of `parent` by name.
    pub fn lookup(&mut self, parent: u64, name: &Vec<u8>) -> (r: Result<
        Option<(u64, Attr)>,
        HatError,
    >)
        requires
            old(self).wf(),
            old(self).keys_bounded(),
        ensures
            final(self).wf(),
            final(self).keys_bounded(),
            final(self).backend.contents() == old(self).backend.contents(),
            final(self).backend.reliable() == old(self).backend.reliable(),
            old(self).backend.reliable() && old(self).can_materialize(parent) ==> r is Ok,
            r matches Ok(Some((ino, a))) ==> final(self).inodes@.contains_key(ino)
                && final(self).inodes@[ino]@.name == name@
                && a == final(self).inodes@[ino]@.attr
                && final(self).parent@.contains_key(parent)
                && final(self).parent@[parent]@.contains(ino),
            r matches Ok(None::<(u64, Attr)>) ==> (final(self).parent@.contains_key(parent)
                ==> forall|x: int|
                    #![trigger final(self).parent@[parent]@[x]]
                    0 <= x < final(self).parent@[parent]@.len() ==> {
                        let cino = final(self).parent@[parent]@[x];
                        final(self).inodes@.contains_key(cino)
                            ==> final(self).inodes@[cino]@.name != name@
                    }),
    {
        let children = match self.childs(parent) {
            Ok(v) => v,
            Err(e) => {
                return Err(e);
            },
        };
        let mut i: usize = 0;
        while i < children.len()
            invariant
                i <= children@.len(),
                self.wf(),
                self.keys_bounded(),
                self.backend.contents() == old(self).backend.contents(),
                self.backend.reliable() == old(self).backend.reliable(),
                children@ == (if self.parent@.contains_key(parent) {
                    self.parent@[parent]@
                } else {
                    Seq::<u64>::empty()
                }),
                forall|x: int|
                    #![trigger children@[x]]
                    0 <= x < i ==> (self.inodes@.contains_key(children@[x])
                        ==> self.inodes@[children@[x]]@.name != name@),
            decreases children@.len() - i,
        {
            let cino = children[i];
            match self.inodes.get(&cino) {
                Some(node) => {
                    if crate::backend::bytes_eq(&node.name, name) {
                        proof {
                            assert(children@.len() > 0);
                            assert(self.parent@.contains_key(parent));
                            assert(self.parent@[parent]@[i as int] == cino);
                            assert(self.parent@[parent]@.contains(cino));
                        }
                        return Ok(Some((cino, node.attr)));
                    }
                },
                None => {},
            }
            i = i + 1;
        }
        Ok(None)
    }

    /// Whether opening `ino` is owed to succeed: a regular file whose
    /// tree denotes a byte sequence within machine bounds, with a file
    /// handle still available.
    pub open spec fn can_open(&self, ino: u64) -> bool {
        &&& self.inodes@.contains_key(ino)
        &&& self.inodes@[ino]@.node_type is FileTop
        &&& (match crate::tree::tree_bytes(
            self.master@,
            self.backend.contents(),
            self.inodes@[ino]@.node_type->FileTop_0,
        ) {
            Some(v) => v.len() <= u64::MAX,
            None => false,
        })
        &&& self.next_fh < u64::MAX
    }

    /// Open a regular file: allocate a reader over its hash tree and hand
    /// back a fresh file handle.
    pub fn open(&mut self, ino: u64) -> (r: Result<Option<u64>, HatError>)
        requires
            old(self).wf(),
        ensures
            final(self).wf(),
            final(self).backend.contents() == old(self).backend.contents(),
            final(self).backend.reliable() == old(self).backend.reliable(),
            final(self).inodes@ == old(self).inodes@,
            final(self).parent@ == old(self).parent@,
            final(self).next_fh >= old(self).next_fh,
            old(self).backend.reliable() && old(self).can_open(ino) ==> (r matches Ok(Some(fh))),
            !(r matches Ok(Some(fh))) ==> final(self).open_files@ == old(self).open_files@
                && final(self).next_fh == old(self).next_fh,
            r matches Ok(Some(fh)) ==> fh == old(self).next_fh && final(self).next_fh == old(
                self,
            ).next_fh + 1 && final(self).open_files@ == old(self).open_files@.insert(
                fh,
                final(self).open_files@[fh],
            ),
            r matches Ok(Some(fh)) ==> {
                &&& old(self).inodes@.contains_key(ino)
                &&& old(self).inodes@[ino]@.node_type matches NodeTypeV::FileTop(h)
                &&& final(self).open_files@.contains_key(fh)
                &&& !old(self).open_files@.contains_key(fh)
                &&& final(self).open_files@[fh].pos() == 0
                &&& Some(final(self).open_files@[fh].total()) == crate::tree::tree_bytes(
                    old(self).master@,
                    old(self).backend.contents(),
                    old(self).inodes@[ino]@.node_type->FileTop_0,
                )
            },
    {
        let href: HashRef = match self.inodes.get(&ino) {
            Some(node) => match &node.node_type {
                NodeType::FileTop(h) => clone_hash_ref(h),
                _ => {
                    return Ok(None);
                },
            },
            None => {
                return Ok(None);
            },
        };
        let it = match LeafIterator::new(&mut self.backend, &self.master, &href) {
            Ok(it) => it,
            Err(e) => {
                return Err(e);
            },
        };
        let reader = FileReader::new_from_iter(Some(it));
        if self.next_fh == u64::MAX {
            return Ok(None);
        }
        let fh = self.next_fh;
        self.next_fh = self.next_fh + 1;
        proof {
            // handles grow monotonically, so this one is fresh
            assert(!self.open_files@.contains_key(fh));
        }
        self.open_files.insert(fh, reader);
        proof {
            assert(final(self).open_files@ =~= old(self).open_files@.insert(
                fh,
                final(self).open_files@[fh],
            ));
        }
        Ok(Some(fh))
    }

    /// Serve a positional read on an open file handle. Returns `None` for
    /// an unknown handle, a backward seek, or a read at or past the end.
    pub fn read(&mut self, fh: u64, offset: u64, size: usize) -> (r: Option<Vec<u8>>)
        requires
            old(self).wf(),
        ensures
            final(self).wf(),
            final(self).backend.contents() == old(self).backend.contents(),
            final(self).backend.reliable() == old(self).backend.reliable(),
            final(self).inodes@ == old(self).inodes@,
            final(self).parent@ == old(self).parent@,
            final(self).next_fh == old(self).next_fh,
            final(self).open_files@.remove(fh) == old(self).open_files@.remove(fh),
            final(self).open_files@.contains_key(fh) <==> old(self).open_files@.contains_key(fh),
            old(self).open_files@.contains_key(fh) ==> final(self).open_files@[fh].total() == old(
                self,
            ).open_files@[fh].total(),
            old(self).open_files@.contains_key(fh) && old(self).open_files@[fh].pos()
                <= offset as int && (offset as int) < old(self).open_files@[fh].total().len()
                ==> r is Some,
            r matches Some(v) ==> {
                let total = old(self).open_files@[fh].total();
                &&& old(self).open_files@.contains_key(fh)
                &&& (offset as int) < total.len()
                &&& v@ == total.subrange(
                    offset as int,
                    if offset + size <= total.len() {
                        offset + size
                    } else {
                        total.len() as int
                    },
                )
            },
    {
        let mut reader = match self.open_files.remove(&fh) {
            Some(rd) => rd,
            None => {
                return None;
            },
        };
        if offset < reader.offset {
            self.open_files.insert(fh, reader);
            proof {
                assert(final(self).open_files@ =~= old(self).open_files@);
            }
            return None;
        }
        let out = reader.read(offset, size);
        self.open_files.insert(fh, reader);
        proof {
            assert(final(self).open_files@.remove(fh) =~= old(self).open_files@.remove(fh));
        }
        out
    }

    /// Drop an open file handle.
    pub fn release(&mut self, fh: u64)
        requires
            old(self).wf(),
        ensures
            final(self).wf(),
            final(self).open_files@ == old(self).open_files@.remove(fh),
            final(self).inodes@ == old(self).inodes@,
            final(self).parent@ == old(self).parent@,
            final(self).backend.contents() == old(self).backend.contents(),
            final(self).backend.reliable() == old(self).backend.reliable(),
    {
        let _ = self.open_files.remove(&fh);
        proof {
            assert(final(self).open_files@ =~= old(self).open_files@.remove(fh));
        }
    }

    /// The full listing of an inode: itself as `.`, its parent as `..`
    /// when that parent is live, then — for directories — its registered
    /// children with their kinds and names.
    pub open spec fn readdir_listing(&self, ino: u64) -> Seq<(u64, NodeKind, Seq<u8>)>
        recommends
            self.inodes@.contains_key(ino),
    {
        let node = self.inodes@[ino]@;
        (seq![(ino, NodeKind::Directory, dot_name())] + (match node.parent {
            Some(p) => if self.inodes@.contains_key(p) {
                seq![(p, NodeKind::Directory, dotdot_name())]
            } else {
                Seq::empty()
            },
            None => Seq::empty(),
        })) + (if node.node_type is Parent || node.node_type is ParentTop {
            children_entries(
                self.inodes@,
                if self.parent@.contains_key(ino) {
                    self.parent@[ino]@
                } else {
                    Seq::empty()
                },
            )
        } else {
            Seq::empty()
        })
    }

    /// List a directory inode: `.` and `..`, then its children, honoring
    /// the kernel's offset cursor.
    #[verifier::rlimit(100)]
    pub fn readdir(&mut self, ino: u64, offset: usize) -> (r: Result<
        Option<Vec<(u64, NodeKind, Vec<u8>)>>,
        HatError,
    >)
        requires
            old(self).wf(),
            old(self).keys_bounded(),
        ensures
            final(self).wf(),
            final(self).keys_bounded(),
            final(self).backend.contents() == old(self).backend.contents(),
            final(self).backend.reliable() == old(self).backend.reliable(),
            final(self).snapshots == old(self).snapshots,
            final(self).master == old(self).master,
            final(self).open_files@ == old(self).open_files@,
            old(self).inodes@.submap_of(final(self).inodes@),
            final(self).parent@.remove(ino) == old(self).parent@.remove(ino),
            r matches Ok(None::<Vec<(u64, NodeKind, Vec<u8>)>>) ==> !old(
                self,
            ).inodes@.contains_key(ino),
            old(self).inodes@.contains_key(ino) && r is Ok ==> (r matches Ok(Some(v))),
            old(self).backend.reliable() && old(self).can_materialize(ino) ==> r is Ok,
            r matches Ok(Some(v)) ==> {
                let listing = final(self).readdir_listing(ino);
                &&& final(self).inodes@.contains_key(ino)
                &&& v.deep_view() == (if offset <= listing.len() {
                    listing.skip(offset as int)
                } else {
                    Seq::empty()
                })
            },
    {
        let node_parent: Option<u64>;
        let is_dir: bool;
        match self.inodes.get(&ino) {
            Some(node) => {
                node_parent = node.parent;
                match &node.node_type {
                    NodeType::Parent => {
                        is_dir = true;
                    },
                    NodeType::ParentTop(_) => {
                        is_dir = true;
                    },
                    _ => {
                        is_dir = false;
                    },
                }
            },
            None => {
                return Ok(None);
            },
        }

        let children: Vec<u64> = if is_dir {
            match self.childs(ino) {
                Ok(v) => v,
                Err(e) => {
                    return Err(e);
                },
            }
        } else {
            Vec::new()
        };
        let ghost kidsv = children@;
        proof {
            // the inode survives materialization with its fields intact
            assert(old(self).inodes@.dom().contains(ino));
            assert(self.inodes@.dom().contains(ino) || true);
            assert(self.inodes@.dom().contains(ino));
            assert(self.inodes@[ino] == old(self).inodes@[ino]);
        }

        let mut files: Vec<(u64, NodeKind, Vec<u8>)> = Vec::new();
        let mut dot: Vec<u8> = Vec::new();
        dot.push(46);
        proof {
            assert(dot@ =~= dot_name());
        }
        files.push((ino, NodeKind::Directory, dot));
        match node_parent {
            Some(p) => {
                let mut dotdot: Vec<u8> = Vec::new();
                dotdot.push(46);
                dotdot.push(46);
                proof {
                    assert(dotdot@ =~= dotdot_name());
                }
                if self.inodes.contains_key(&p) {
                    files.push((p, NodeKind::Directory, dotdot));
                }
            },
            None => {},
        }
        let ghost headv = files.deep_view();
        proof {
            let node = self.inodes@[ino]@;
            assert(headv =~~= seq![(ino, NodeKind::Directory, dot_name())] + (match node.parent {
                Some(p) => if self.inodes@.contains_key(p) {
                    seq![(p, NodeKind::Directory, dotdot_name())]
                } else {
                    Seq::<(u64, NodeKind, Seq<u8>)>::empty()
                },
                None => Seq::<(u64, NodeKind, Seq<u8>)>::empty(),
            }));
            assert(children_entries(self.inodes@, kidsv.take(0)) =~= Seq::<
                (u64, NodeKind, Seq<u8>),
            >::empty());
            assert(files.deep_view() =~= headv + children_entries(self.inodes@, kidsv.take(0)));
        }

        if is_dir {
            let mut i: usize = 0;
            while i < children.len()
                invariant
                    i <= children@.len(),
                    kidsv == children@,
                    self.wf(),
                    files.deep_view() == headv + children_entries(self.inodes@, kidsv.take(
                        i as int,
                    )),
                decreases children@.len() - i,
            {
                proof {
                    assert(kidsv.take(i as int + 1).drop_last() =~= kidsv.take(i as int));
                    assert(kidsv.take(i as int + 1).last() == kidsv[i as int]);
                }
                let cino = children[i];
                let ghost pre = files.deep_view();
                match self.inodes.get(&cino) {
                    Some(child) => {
                        let kind = match &child.node_type {
                            NodeType::Parent => NodeKind::Directory,
                            NodeType::ParentTop(_) => NodeKind::Directory,
                            NodeType::FileTop(_) => NodeKind::RegularFile,
                            NodeType::SymbolicLink(_) => NodeKind::Symlink,
                        };
                        let nm = clone_bytes(&child.name);
                        files.push((cino, kind, nm));
                        proof {
                            assert(files.deep_view() =~~= pre + seq![
                                (
                                    cino,
                                    kind_of(self.inodes@[cino]@.node_type),
                                    self.inodes@[cino]@.name,
                                ),
                            ]);
                        }
                    },
                    None => {},
                }
                i = i + 1;
            }
            proof {
                assert(kidsv.take(kidsv.len() as int) =~= kidsv);
            }
        }
        let ghost fullv = files.deep_view();
        proof {
            let listing = self.readdir_listing(ino);
            if is_dir {
                assert(kidsv == (if self.parent@.contains_key(ino) {
                    self.parent@[ino]@
                } else {
                    Seq::<u64>::empty()
                }));
                assert(fullv =~= listing);
            } else {
                assert(fullv =~= headv + Seq::<(u64, NodeKind, Seq<u8>)>::empty());
                assert(fullv =~= listing);
            }
        }

        // honor the kernel's cursor
        let mut out: Vec<(u64, NodeKind, Vec<u8>)> = Vec::new();
        let mut i: usize = offset;
        proof {
            if offset <= fullv.len() {
                assert(out.deep_view() =~= fullv.subrange(offset as int, offset as int));
            } else {
                assert(out.deep_view() =~= Seq::<(u64, NodeKind, Seq<u8>)>::empty());
            }
        }
        while i < files.len()
            invariant
                offset <= i,
                i <= files@.len() || i == offset,
                fullv == files.deep_view(),
                offset <= fullv.len() ==> (offset <= i <= fullv.len() && out.deep_view()
                    == fullv.subrange(offset as int, i as int)),
                offset > fullv.len() ==> out.deep_view() == Seq::<
                    (u64, NodeKind, Seq<u8>),
                >::empty(),
                self.wf(),
            decreases files@.len() - i,
        {
            let (a, b, c) = (files[i].0, files[i].1, clone_bytes(&files[i].2));
            let ghost pre = out.deep_view();
            out.push((a, b, c));
            proof {
                assert(out.deep_view() =~~= pre.push(fullv[i as int]));
                assert(pre.push(fullv[i as int]) =~= fullv.subrange(
                    offset as int,
                    i as int + 1,
                ));
            }
            i = i + 1;
        }
        proof {
            if offset <= fullv.len() {
                assert(out.deep_view() =~= fullv.skip(offset as int));
            }
        }
        Ok(Some(out))
    }
}


/// Mount-time completeness: with sound tables and a registry that
/// records every visible family, the root children are exactly the
/// non-reserved families named by the snapshots.
#[verifier::rlimit(60)]
#[verifier::spinoff_prover]
proof fn lemma_population_complete<B: StoreBackend>(fs: Fuse<B>, reg: Seq<(Vec<u8>, u64)>)
    requires
        fs.tables_wf(),
        fs.registry_ok(reg),
        forall|j: int|
            0 <= j < fs.snapshots.deep_view().len() ==> {
                let fam = encode_utf8((#[trigger] fs.snapshots.deep_view()[j]).family_name);
                fam != reserved_name() ==> exists|k: int|
                    0 <= k < reg.len() && (#[trigger] reg[k]).0@ == fam
            },
    ensures
        fs.root_children_ok(),
        fs.root_children_are_families(),
        fs.families_present(),
{
    assert(fs.root_children_are_families());
    assert(fs.families_present()) by {
        assert forall|j: int| 0 <= j < fs.snapshots.deep_view().len() implies {
            let fam = encode_utf8((#[trigger] fs.snapshots.deep_view()[j]).family_name);
            fam != reserved_name() ==> exists|x: int|
                0 <= x < fs.parent@[1]@.len() && fs.inodes@.contains_key(
                    #[trigger] fs.parent@[1]@[x],
                ) && fs.inodes@[fs.parent@[1]@[x]]@.name == fam
        } by {
            let fam = encode_utf8(fs.snapshots.deep_view()[j].family_name);
            if fam != reserved_name() {
                let k = choose|k: int| 0 <= k < reg.len() && (#[trigger] reg[k]).0@ == fam;
                let ino = reg[k].1;
                assert(fs.parent@[1]@.contains(ino));
                let w = choose|w: int|
                    0 <= w < fs.parent@[1]@.len() && fs.parent@[1]@[w] == ino;
                assert(fs.inodes@.contains_key(fs.parent@[1]@[w]));
                assert(fs.inodes@[fs.parent@[1]@[w]]@.name == fam);
            }
        }
    }
}

} // verus!
