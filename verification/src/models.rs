//! Core data model: blob addressing, hash-tree references, filesystem
//! metadata and snapshot records, together with their ghost mirrors.
//!
//! Every persisted structure has a ghost mirror type (its `View`) built
//! from `Seq` so that contracts and the codec can speak about values
//! mathematically.

use vstd::prelude::*;
use vstd::utf8::{decode_utf8, encode_utf8, valid_utf8};

verus! {

/// What a `String::from_utf8_lossy` decoding of the given bytes contains.
/// Relied upon only through `bytes_to_utf8_lossy`; on valid UTF-8 it
/// coincides with `decode_utf8`.
pub uninterp spec fn lossy_utf8(bytes: Seq<u8>) -> Seq<char>;

/// Relies on `String::from_utf8`: succeeds exactly on valid UTF-8 and
/// decodes it; `FromUtf8Error::into_bytes` hands the input back unchanged.
#[verifier::external_body]
pub(crate) fn bytes_to_utf8(v: Vec<u8>) -> (r: Result<String, Vec<u8>>)
    ensures
        r is Ok <==> valid_utf8(v@),
        r matches Ok(s) ==> s@ == decode_utf8(v@),
        r matches Err(w) ==> w@ == v@,
{
    match String::from_utf8(v) {
        Ok(s) => Ok(s),
        Err(e) => Err(e.into_bytes()),
    }
}

/// Relies on `String::into_bytes`: returns the string's UTF-8 bytes.
#[verifier::external_body]
pub(crate) fn utf8_to_bytes(s: String) -> (r: Vec<u8>)
    ensures
        r@ == encode_utf8(s@),
{
    s.into_bytes()
}

/// Relies on `String::from_utf8_lossy`: a pure function of the bytes,
/// equal to exact decoding whenever the bytes are valid UTF-8.
#[verifier::external_body]
pub(crate) fn bytes_to_utf8_lossy(v: &Vec<u8>) -> (r: String)
    ensures
        r@ == lossy_utf8(v@),
        valid_utf8(v@) ==> r@ == decode_utf8(v@),
{
    String::from_utf8_lossy(v).to_string()
}

/// Compression scheme applied to a chunk before encryption.
#[derive(Clone, Copy, Debug, PartialEq, Eq, Structural)]
pub enum Packing {
    Raw,
    GZip,
    Snappy,
}

/// Per-chunk key material: either the chunk is stored in the clear, or it
/// is AEAD ciphertext and the payload carries the nonce.
#[derive(Clone, Debug, PartialEq, Eq)]
pub enum Key {
    Plain,
    AeadChacha20Poly1305(Vec<u8>),
}

#[verifier::ext_equal]
pub ghost enum KeyV {
    Plain,
    AeadChacha20Poly1305(Seq<u8>),
}

impl View for Key {
    type V = KeyV;

    open spec fn view(&self) -> KeyV {
        match self {
            Key::Plain => KeyV::Plain,
            Key::AeadChacha20Poly1305(n) => KeyV::AeadChacha20Poly1305(n@),
        }
    }
}

impl DeepView for Key {
    type V = KeyV;

    open spec fn deep_view(&self) -> KeyV {
        self.view()
    }
}

/// Addresses one contiguous byte range inside one stored blob.
#[derive(Clone, Debug, PartialEq, Eq)]
pub struct ChunkRef {
    pub blob_name: Vec<u8>,
    pub offset: u64,
    pub length: u64,
    pub packing: Packing,
    pub key: Key,
}

#[verifier::ext_equal]
pub ghost struct ChunkRefV {
    pub blob_name: Seq<u8>,
    pub offset: u64,
    pub length: u64,
    pub packing: Packing,
    pub key: KeyV,
}

impl View for ChunkRef {
    type V = ChunkRefV;

    open spec fn view(&self) -> ChunkRefV {
        ChunkRefV {
            blob_name: self.blob_name@,
            offset: self.offset,
            length: self.length,
            packing: self.packing,
            key: self.key@,
        }
    }
}

impl DeepView for ChunkRef {
    type V = ChunkRefV;

    open spec fn deep_view(&self) -> ChunkRefV {
        self.view()
    }
}

/// How the plaintext of a leaf chunk is to be interpreted.
#[derive(Clone, Copy, Debug, PartialEq, Eq, Structural)]
pub enum LeafType {
    FileChunk,
    TreeList,
    SnapshotList,
}

/// Optional side-band data attached to a `HashRef`.
#[derive(Clone, Debug, PartialEq, Eq)]
pub enum ExtraInfo {
    Absent,
    FileInfo(FileInfo),
}

#[verifier::ext_equal]
pub ghost enum ExtraInfoV {
    Absent,
    FileInfo(FileInfoV),
}

impl View for ExtraInfo {
    type V = ExtraInfoV;

    open spec fn view(&self) -> ExtraInfoV {
        match self {
            ExtraInfo::Absent => ExtraInfoV::Absent,
            ExtraInfo::FileInfo(i) => ExtraInfoV::FileInfo(i@),
        }
    }
}

impl DeepView for ExtraInfo {
    type V = ExtraInfoV;

    open spec fn deep_view(&self) -> ExtraInfoV {
        self.view()
    }
}

/// A typed, height-tagged pointer into a hash tree.
#[derive(Clone, Debug, PartialEq, Eq)]
pub struct HashRef {
    pub hash: Vec<u8>,
    pub chunk_ref: ChunkRef,
    pub height: u64,
    pub leaf_type: LeafType,
    pub extra: ExtraInfo,
}

#[verifier::ext_equal]
pub ghost struct HashRefV {
    pub hash: Seq<u8>,
    pub chunk_ref: ChunkRefV,
    pub height: u64,
    pub leaf_type: LeafType,
    pub extra: ExtraInfoV,
}

impl View for HashRef {
    type V = HashRefV;

    open spec fn view(&self) -> HashRefV {
        HashRefV {
            hash: self.hash@,
            chunk_ref: self.chunk_ref@,
            height: self.height,
            leaf_type: self.leaf_type,
            extra: self.extra@,
        }
    }
}

impl DeepView for HashRef {
    type V = HashRefV;

    open spec fn deep_view(&self) -> HashRefV {
        self.view()
    }
}

/// A list of child references, the payload of an internal tree node.
#[derive(Clone, Debug, PartialEq, Eq)]
pub struct HashRefs {
    pub refs: Vec<HashRef>,
}

impl View for HashRefs {
    type V = Seq<HashRefV>;

    open spec fn view(&self) -> Seq<HashRefV> {
        self.refs.deep_view()
    }
}

/// A list of snapshot ids.
#[derive(Clone, Debug, PartialEq, Eq)]
pub struct HashIds {
    pub ids: Vec<u64>,
}

impl View for HashIds {
    type V = Seq<u64>;

    open spec fn view(&self) -> Seq<u64> {
        self.ids@
    }
}

/// Owning user and group of a filesystem entry.
#[derive(Clone, Copy, Debug, PartialEq, Eq, Structural)]
pub struct UserGroup {
    pub user_id: i64,
    pub group_id: i64,
}

#[derive(Clone, Copy, Debug, PartialEq, Eq, Structural)]
pub enum Owner {
    Absent,
    UserGroup(UserGroup),
}

#[derive(Clone, Copy, Debug, PartialEq, Eq, Structural)]
pub enum Permissions {
    Absent,
    Mode(u32),
}

/// A path component: either valid UTF-8, or raw bytes together with their
/// lossy UTF-8 alias.
#[derive(Clone, Debug, PartialEq, Eq)]
pub enum FileName {
    Utf8(String),
    RawAndLossyUtf8(Vec<u8>, String),
}

#[verifier::ext_equal]
pub ghost enum FileNameV {
    Utf8(Seq<char>),
    RawAndLossyUtf8(Seq<u8>, Seq<char>),
}

impl View for FileName {
    type V = FileNameV;

    open spec fn view(&self) -> FileNameV {
        match self {
            FileName::Utf8(s) => FileNameV::Utf8(s@),
            FileName::RawAndLossyUtf8(r, l) => FileNameV::RawAndLossyUtf8(r@, l@),
        }
    }
}

impl DeepView for FileName {
    type V = FileNameV;

    open spec fn deep_view(&self) -> FileNameV {
        self.view()
    }
}

impl FileNameV {
    /// The byte form of the name.
    pub open spec fn bytes(self) -> Seq<u8> {
        match self {
            FileNameV::Utf8(s) => encode_utf8(s),
            FileNameV::RawAndLossyUtf8(r, _) => r,
        }
    }

    /// The UTF-8 view of the name, used for display and path lookup.
    pub open spec fn chars(self) -> Seq<char> {
        match self {
            FileNameV::Utf8(s) => s,
            FileNameV::RawAndLossyUtf8(_, l) => l,
        }
    }

    /// A well-formed raw variant really is non-UTF-8 and carries the
    /// matching lossy alias.
    pub open spec fn wf(self) -> bool {
        match self {
            FileNameV::Utf8(_) => true,
            FileNameV::RawAndLossyUtf8(r, l) => !valid_utf8(r) && l == lossy_utf8(r),
        }
    }
}

impl FileName {
    /// Classify raw path bytes: valid UTF-8 becomes `Utf8`, anything else
    /// keeps the raw bytes next to their lossy decoding.
    pub fn from_bytes(v: Vec<u8>) -> (r: FileName)
        ensures
            r@.bytes() == v@,
            r@.wf(),
            r@ is Utf8 <==> valid_utf8(v@),
    {
        let ghost vv = v@;
        match bytes_to_utf8(v) {
            Ok(s) => {
                proof {
                    vstd::utf8::decode_utf8_encode_utf8(vv);
                }
                FileName::Utf8(s)
            },
            Err(raw) => {
                let lossy = bytes_to_utf8_lossy(&raw);
                FileName::RawAndLossyUtf8(raw, lossy)
            },
        }
    }

    /// The byte form of the name, inverse of `from_bytes`.
    pub fn into_bytes(self) -> (r: Vec<u8>)
        ensures
            r@ == self@.bytes(),
    {
        match self {
            FileName::Utf8(s) => utf8_to_bytes(s),
            FileName::RawAndLossyUtf8(raw, _) => raw,
        }
    }

    /// Whether the byte form of the name is empty.
    pub fn is_empty(&self) -> (r: bool)
        ensures
            r == (self@.bytes().len() == 0),
    {
        match self {
            FileName::Utf8(s) => {
                proof {
                    lemma_encode_utf8_len(s@);
                }
                s.as_str().is_empty()
            },
            FileName::RawAndLossyUtf8(raw, _) => raw.len() == 0,
        }
    }

    /// The UTF-8 view of the name.
    pub fn utf8(&self) -> (r: &str)
        ensures
            r@ == self@.chars(),
    {
        match self {
            FileName::Utf8(s) => s.as_str(),
            FileName::RawAndLossyUtf8(_, s) => s.as_str(),
        }
    }
}

/// The UTF-8 encoding of a character sequence is empty exactly when the
/// sequence is.
pub proof fn lemma_encode_utf8_len(chars: Seq<char>)
    ensures
        encode_utf8(chars).len() == 0 <==> chars.len() == 0,
{
    if chars.len() > 0 {
        vstd::utf8::char_is_scalar(chars[0]);
    }
}

/// Filesystem metadata for one path component.
#[derive(Clone, Debug, PartialEq, Eq)]
pub struct FileInfo {
    pub name: FileName,
    pub created_ts: i64,
    pub modified_ts: i64,
    pub accessed_ts: i64,
    pub byte_length: i64,
    pub owner: Owner,
    pub permissions: Permissions,
    pub snapshot_ts_utc: i64,
}

#[verifier::ext_equal]
pub ghost struct FileInfoV {
    pub name: FileNameV,
    pub created_ts: i64,
    pub modified_ts: i64,
    pub accessed_ts: i64,
    pub byte_length: i64,
    pub owner: Owner,
    pub permissions: Permissions,
    pub snapshot_ts_utc: i64,
}

impl View for FileInfo {
    type V = FileInfoV;

    open spec fn view(&self) -> FileInfoV {
        FileInfoV {
            name: self.name@,
            created_ts: self.created_ts,
            modified_ts: self.modified_ts,
            accessed_ts: self.accessed_ts,
            byte_length: self.byte_length,
            owner: self.owner,
            permissions: self.permissions,
            snapshot_ts_utc: self.snapshot_ts_utc,
        }
    }
}

impl DeepView for FileInfo {
    type V = FileInfoV;

    open spec fn deep_view(&self) -> FileInfoV {
        self.view()
    }
}

impl FileInfoV {
    /// The same metadata with the snapshot timestamp replaced; listing
    /// round trips are stated up to this assignment.
    pub open spec fn with_snapshot_ts(self, ts: i64) -> FileInfoV {
        FileInfoV { snapshot_ts_utc: ts, ..self }
    }
}

/// One directory entry as yielded by the walker.
#[derive(Clone, Debug, PartialEq, Eq)]
pub struct Entry {
    pub info: FileInfo,
}

#[verifier::ext_equal]
pub ghost struct EntryV {
    pub info: FileInfoV,
}

impl View for Entry {
    type V = EntryV;

    open spec fn view(&self) -> EntryV {
        EntryV { info: self.info@ }
    }
}

impl DeepView for Entry {
    type V = EntryV;

    open spec fn deep_view(&self) -> EntryV {
        self.view()
    }
}

/// The body of a directory entry: file data, a subdirectory, or an inline
/// symlink target.
#[derive(Clone, Debug, PartialEq, Eq)]
pub enum Content {
    Data(HashRef),
    Directory(HashRef),
    SymbolicLink(Vec<u8>),
}

#[verifier::ext_equal]
pub ghost enum ContentV {
    Data(HashRefV),
    Directory(HashRefV),
    SymbolicLink(Seq<u8>),
}

impl View for Content {
    type V = ContentV;

    open spec fn view(&self) -> ContentV {
        match self {
            Content::Data(h) => ContentV::Data(h@),
            Content::Directory(h) => ContentV::Directory(h@),
            Content::SymbolicLink(p) => ContentV::SymbolicLink(p@),
        }
    }
}

impl DeepView for Content {
    type V = ContentV;

    open spec fn deep_view(&self) -> ContentV {
        self.view()
    }
}

/// A committed, immutable root for a family at a point in time.
#[derive(Clone, Debug, PartialEq, Eq)]
pub struct Snapshot {
    pub id: u64,
    pub hash_ref: HashRef,
    pub family_name: String,
    pub msg: String,
    pub created_ts_utc: i64,
}

#[verifier::ext_equal]
pub ghost struct SnapshotV {
    pub id: u64,
    pub hash_ref: HashRefV,
    pub family_name: Seq<char>,
    pub msg: Seq<char>,
    pub created_ts_utc: i64,
}

impl View for Snapshot {
    type V = SnapshotV;

    open spec fn view(&self) -> SnapshotV {
        SnapshotV {
            id: self.id,
            hash_ref: self.hash_ref@,
            family_name: self.family_name@,
            msg: self.msg@,
            created_ts_utc: self.created_ts_utc,
        }
    }
}

impl DeepView for Snapshot {
    type V = SnapshotV;

    open spec fn deep_view(&self) -> SnapshotV {
        self.view()
    }
}

/// The snapshot roster.
#[derive(Clone, Debug, PartialEq, Eq)]
pub struct Snapshots {
    pub snapshots: Vec<Snapshot>,
}

impl View for Snapshots {
    type V = Seq<SnapshotV>;

    open spec fn view(&self) -> Seq<SnapshotV> {
        self.snapshots.deep_view()
    }
}

/// One staged file row: metadata plus its content root.
#[derive(Clone, Debug, PartialEq, Eq)]
pub struct File {
    pub id: u64,
    pub info: FileInfo,
    pub content: Content,
}

#[verifier::ext_equal]
pub ghost struct FileV {
    pub id: u64,
    pub info: FileInfoV,
    pub content: ContentV,
}

impl View for File {
    type V = FileV;

    open spec fn view(&self) -> FileV {
        FileV { id: self.id, info: self.info@, content: self.content@ }
    }
}

impl DeepView for File {
    type V = FileV;

    open spec fn deep_view(&self) -> FileV {
        self.view()
    }
}

/// A staged file listing.
#[derive(Clone, Debug, PartialEq, Eq)]
pub struct Files {
    pub files: Vec<File>,
}

impl View for Files {
    type V = Seq<FileV>;

    open spec fn view(&self) -> Seq<FileV> {
        self.files.deep_view()
    }
}


/// Copy a byte vector.
pub fn clone_bytes(x: &Vec<u8>) -> (r: Vec<u8>)
    ensures
        r@ == x@,
{
    let mut out: Vec<u8> = Vec::new();
    out.extend_from_slice(x.as_slice());
    proof {
        assert(out@ =~= x@);
    }
    out
}

/// Copy a name; the copy denotes the same value.
pub fn clone_file_name(x: &FileName) -> (r: FileName)
    ensures
        r@ == x@,
{
    match x {
        FileName::Utf8(s) => FileName::Utf8(s.clone()),
        FileName::RawAndLossyUtf8(raw, l) => FileName::RawAndLossyUtf8(clone_bytes(raw), l.clone()),
    }
}

pub fn clone_file_info(x: &FileInfo) -> (r: FileInfo)
    ensures
        r@ == x@,
{
    FileInfo {
        name: clone_file_name(&x.name),
        created_ts: x.created_ts,
        modified_ts: x.modified_ts,
        accessed_ts: x.accessed_ts,
        byte_length: x.byte_length,
        owner: x.owner,
        permissions: x.permissions,
        snapshot_ts_utc: x.snapshot_ts_utc,
    }
}

pub fn clone_key(x: &Key) -> (r: Key)
    ensures
        r@ == x@,
{
    match x {
        Key::Plain => Key::Plain,
        Key::AeadChacha20Poly1305(n) => Key::AeadChacha20Poly1305(clone_bytes(n)),
    }
}

pub fn clone_chunk_ref(x: &ChunkRef) -> (r: ChunkRef)
    ensures
        r@ == x@,
{
    ChunkRef {
        blob_name: clone_bytes(&x.blob_name),
        offset: x.offset,
        length: x.length,
        packing: x.packing,
        key: clone_key(&x.key),
    }
}

pub fn clone_extra_info(x: &ExtraInfo) -> (r: ExtraInfo)
    ensures
        r@ == x@,
{
    match x {
        ExtraInfo::Absent => ExtraInfo::Absent,
        ExtraInfo::FileInfo(i) => ExtraInfo::FileInfo(clone_file_info(i)),
    }
}

pub fn clone_hash_ref(x: &HashRef) -> (r: HashRef)
    ensures
        r@ == x@,
{
    HashRef {
        hash: clone_bytes(&x.hash),
        chunk_ref: clone_chunk_ref(&x.chunk_ref),
        height: x.height,
        leaf_type: x.leaf_type,
        extra: clone_extra_info(&x.extra),
    }
}

pub fn clone_content(x: &Content) -> (r: Content)
    ensures
        r@ == x@,
{
    match x {
        Content::Data(h) => Content::Data(clone_hash_ref(h)),
        Content::Directory(h) => Content::Directory(clone_hash_ref(h)),
        Content::SymbolicLink(p) => Content::SymbolicLink(clone_bytes(p)),
    }
}

pub fn clone_entry(x: &Entry) -> (r: Entry)
    ensures
        r@ == x@,
{
    Entry { info: clone_file_info(&x.info) }
}

pub fn clone_snapshot(x: &Snapshot) -> (r: Snapshot)
    ensures
        r@ == x@,
{
    Snapshot {
        id: x.id,
        hash_ref: clone_hash_ref(&x.hash_ref),
        family_name: x.family_name.clone(),
        msg: x.msg.clone(),
        created_ts_utc: x.created_ts_utc,
    }
}

/// Copy a snapshot list.
pub fn clone_snapshots(x: &Vec<Snapshot>) -> (r: Vec<Snapshot>)
    ensures
        r.deep_view() == x.deep_view(),
{
    let mut out: Vec<Snapshot> = Vec::new();
    let mut i: usize = 0;
    while i < x.len()
        invariant
            i <= x@.len(),
            out.deep_view().len() == i,
            forall|j: int| 0 <= j < i ==> out.deep_view()[j] == x.deep_view()[j],
        decreases x@.len() - i,
    {
        let ghost pre = out.deep_view();
        let c = clone_snapshot(&x[i]);
        out.push(c);
        proof {
            assert(out.deep_view() =~~= pre.push(x.deep_view()[i as int]));
        }
        i = i + 1;
    }
    proof {
        assert(out.deep_view() =~~= x.deep_view());
    }
    out
}

} // verus!
