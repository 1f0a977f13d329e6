//! The filesystem handler: the owned aggregate of the tri-index cache,
//! the inode counter and the current root hash, and the translation of
//! kernel callbacks into cache operations and store requests.
//!
//! Handlers never perform I/O themselves.  Whatever must reach the server
//! is returned as a list of store operations for the caller to execute,
//! and whatever was fetched from the server is passed in as an argument,
//! so that every decision made here is checked.

use vstd::prelude::*;

use crate::api::FetchedNode;
use crate::api::StoreOp;
use crate::attr::AttrModel;
use crate::attr::FileAttr;
use crate::attr::FileKind;
use crate::attr::XFileAttr;
use crate::cache::Cache;
use crate::cache::Entry;
use crate::cache::EntryModel;
use crate::cache::children_ok;
use crate::cache::entry_of;
use crate::cache::has_hash;
use crate::cache::has_ino;
use crate::cache::has_name;
use crate::cache::idx_of;
use crate::cache::idx_of_name;
use crate::cache::lemma_idx_unique;
use crate::cache::lemma_name_unique;
use crate::cache::uniq;
use crate::crypto::dir_hash_of;
use crate::crypto::node_hash_of;
use vstd::std_specs::cmp::PartialEqSpec;

verus! {

/// An in-memory node: its extended attribute block and its plaintext
/// payload bytes (empty for directories).
#[derive(Debug)]
pub struct File {
    pub xattr: XFileAttr,
    pub data: Vec<u8>,
}

/// The mathematical model of an in-memory node.
pub struct FileModel {
    pub xattr: AttrModel,
    pub data: Seq<u8>,
}

impl View for File {
    type V = FileModel;

    open spec fn view(&self) -> FileModel {
        FileModel { xattr: self.xattr@, data: self.data@ }
    }
}

impl Clone for File {
    fn clone(&self) -> (r: Self)
        ensures
            r@ == self@,
    {
        let data = self.data.clone();
        proof {
            assert(data@ =~= self.data@);
        }
        File { xattr: self.xattr.clone(), data }
    }
}

/// The error taxonomy.  The first six arise in the core; `Transport` and
/// `PartialPropagation` are constructed by the surrounding program when a
/// store request fails outright or fails midway through a propagation.
#[derive(Clone, Copy, PartialEq, Eq, Structural, Debug)]
pub enum FsError {
    NoEnt,
    NotDir,
    Inval,
    Exist,
    DecryptCorrupt,
    IntegrityViolation,
    StructuralCorruption,
    Transport,
    PartialPropagation,
}

/// One row of a directory listing.
#[derive(Debug)]
pub struct DirEntry {
    pub ino: u64,
    pub kind: FileKind,
    pub name: Vec<u8>,
}

/// The mathematical model of the handler state.
pub struct FsModel {
    pub entries: Seq<EntryModel>,
    pub top_ino: u64,
    pub key: Seq<u8>,
    pub root_hash: Option<Seq<u8>>,
}

/// The handler: the tri-index cache, the monotonic inode counter, the
/// symmetric key, and the current root hash.
pub struct Q1FS {
    pub cache: Cache,
    pub top_ino: u64,
    pub key: Vec<u8>,
    pub root_hash: Option<Vec<u8>>,
}

impl View for Q1FS {
    type V = FsModel;

    open spec fn view(&self) -> FsModel {
        FsModel {
            entries: self.cache@,
            top_ino: self.top_ino,
            key: self.key@,
            root_hash: match self.root_hash {
                Option::Some(ref h) => Option::Some(h@),
                Option::None => Option::None,
            },
        }
    }
}

/// The payload slot a file entry is hashed over: its payload envelope
/// when it holds data, nothing when it is empty.
pub open spec fn file_slot(e: EntryModel) -> Option<Seq<u8>> {
    if e.file.data.len() == 0 {
        Option::None
    } else {
        Option::Some(e.payload_env)
    }
}

/// The shape of one cache entry: size agrees with the payload, bounded
/// lengths, a parent that is a cached directory strictly below it (the
/// root is its own parent), and a hash that equals the node-hash rule
/// applied to what the entry holds.
pub open spec fn entry_shape_ok(m: FsModel, k: int) -> bool {
    let e = m.entries[k];
    &&& e.hash.len() == 48
    &&& e.file.xattr.attr.size == e.file.data.len()
    &&& e.file.data.len() < 0x2000000000
    &&& e.file.xattr.file_name.len() < 0x100000
    &&& 1 <= e.ino() <= m.top_ino
    &&& (e.ino() == 1 ==> e.parent() == 1 && e.is_dir())
    &&& (e.ino() != 1 ==> e.parent() < e.ino() && has_ino(m.entries, e.parent()) && entry_of(
        m.entries,
        e.parent(),
    ).is_dir())
    &&& (e.is_dir() ==> e.file.data.len() == 0 && children_ok(e.children) && e.hash == dir_hash_of(
        e.meta_env,
        e.children,
    ))
    &&& (!e.is_dir() ==> e.children.len() == 0 && e.hash == node_hash_of(e.meta_env, file_slot(e)))
}

/// The upward link of one entry: its parent's child list carries its
/// current hash.
pub open spec fn link_ok(m: FsModel, k: int) -> bool {
    let e = m.entries[k];
    e.ino() != 1 ==> entry_of(m.entries, e.parent()).children.contains(e.hash)
}

/// The root hash field mirrors the cached root entry.
pub open spec fn root_ok(m: FsModel) -> bool {
    match m.root_hash {
        Option::Some(h) => has_ino(m.entries, 1) && entry_of(m.entries, 1).hash == h,
        Option::None => !has_ino(m.entries, 1),
    }
}

/// Everything except the upward links and the root hash mirror.
pub open spec fn wf_core(m: FsModel) -> bool {
    &&& m.key.len() == 32
    &&& m.top_ino >= 1
    &&& uniq(m.entries)
    &&& forall|k: int| 0 <= k < m.entries.len() ==> #[trigger] entry_shape_ok(m, k)
}

/// Well-formedness of the handler state.  This is the index-coherence
/// invariant together with the hash-coherence rule for every cached node.
pub open spec fn wf(m: FsModel) -> bool {
    &&& wf_core(m)
    &&& forall|k: int| 0 <= k < m.entries.len() ==> #[trigger] link_ok(m, k)
    &&& root_ok(m)
}

/// Well-formedness with one dirty node: every link holds except the one
/// of `dirty`, whose parent still lists `stale` (or nothing, for a node
/// just created) in place of its current hash.  When the root itself is
/// dirty, the root-hash field still holds the stale value.
pub open spec fn wf_dirty(m: FsModel, dirty: u64, stale: Option<Seq<u8>>) -> bool {
    &&& wf_core(m)
    &&& has_ino(m.entries, dirty)
    &&& forall|k: int|
        0 <= k < m.entries.len() && (#[trigger] m.entries[k]).ino() != dirty ==> link_ok(m, k)
    &&& (match stale {
        Option::Some(s) => !has_hash(m.entries, s),
        Option::None => true,
    })
    &&& (dirty != 1 ==> {
        let e = entry_of(m.entries, dirty);
        let p = entry_of(m.entries, e.parent());
        &&& !p.children.contains(e.hash)
        &&& (match stale {
            Option::Some(s) => p.children.contains(s) && s != e.hash,
            Option::None => true,
        })
    })
    &&& (dirty != 1 ==> root_ok(m))
    &&& (dirty == 1 ==> stale is Some && m.root_hash == stale && stale != Option::Some(
        entry_of(m.entries, 1).hash,
    ))
}

/// The proper ancestors of a cached inode: its parent, the parent's
/// parent, and so on up to the root.
pub open spec fn ancestors(m: FsModel, i: u64) -> Set<u64>
    decreases i,
{
    if !has_ino(m.entries, i) {
        Set::empty()
    } else {
        let p = entry_of(m.entries, i).parent();
        if p >= i {
            Set::empty()
        } else {
            ancestors(m, p).insert(p)
        }
    }
}

/// A cached non-root node's parent is among its ancestors.
pub proof fn lemma_anc_parent(m: FsModel, x: u64)
    requires
        has_ino(m.entries, x),
        entry_of(m.entries, x).parent() < x,
    ensures
        ancestors(m, x).contains(entry_of(m.entries, x).parent()),
{
}

/// Ancestors of an ancestor are ancestors.
pub proof fn lemma_anc_trans(m: FsModel, c: u64, x: u64)
    requires
        ancestors(m, c).contains(x),
    ensures
        ancestors(m, x).subset_of(ancestors(m, c)),
    decreases c,
{
    if has_ino(m.entries, c) {
        let p = entry_of(m.entries, c).parent();
        if p < c {
            if x == p {
                assert(ancestors(m, x).subset_of(ancestors(m, c)));
            } else {
                assert(ancestors(m, p).contains(x));
                lemma_anc_trans(m, p, x);
            }
        }
    }
}

/// The view of an optional borrowed hash.
pub open spec fn opt_ref_view(o: Option<&Vec<u8>>) -> Option<Seq<u8>> {
    match o {
        Option::Some(v) => Option::Some(v@),
        Option::None => Option::None,
    }
}

/// The view of an optional owned hash.
pub open spec fn opt_vec_view(o: Option<Vec<u8>>) -> Option<Seq<u8>> {
    match o {
        Option::Some(v) => Option::Some(v@),
        Option::None => Option::None,
    }
}

/// Two entry lists with pointwise equal inodes know the same inodes.
pub proof fn lemma_has_ino_eq(es1: Seq<EntryModel>, es2: Seq<EntryModel>, x: u64)
    requires
        es1.len() == es2.len(),
        forall|j: int| 0 <= j < es1.len() ==> (#[trigger] es1[j]).ino() == es2[j].ino(),
    ensures
        has_ino(es1, x) == has_ino(es2, x),
{
    if has_ino(es1, x) {
        let k = idx_of(es1, x);
        assert(es2[k].ino() == x);
    }
    if has_ino(es2, x) {
        let k = idx_of(es2, x);
        assert(es1[k].ino() == x);
    }
}

/// An entry keeps its shape across a state change that keeps the entry
/// itself, the inode and kind layout, and does not lower the counter.
pub proof fn lemma_shape_transfer(m1: FsModel, m2: FsModel, k: int)
    requires
        0 <= k < m1.entries.len(),
        entry_shape_ok(m1, k),
        m1.entries.len() == m2.entries.len(),
        forall|j: int|
            0 <= j < m1.entries.len() ==> (#[trigger] m1.entries[j]).ino() == m2.entries[j].ino()
                && m1.entries[j].is_dir() == m2.entries[j].is_dir(),
        m2.top_ino >= m1.top_ino,
        uniq(m1.entries),
        uniq(m2.entries),
        m2.entries[k] == m1.entries[k],
    ensures
        entry_shape_ok(m2, k),
{
    let e = m1.entries[k];
    if e.ino() != 1 {
        let kp = idx_of(m1.entries, e.parent());
        assert(m1.entries[kp].ino() == e.parent());
        assert(m2.entries[kp].ino() == e.parent());
        lemma_idx_unique(m2.entries, kp, e.parent());
        assert(entry_of(m2.entries, e.parent()) == m2.entries[kp]);
        assert(m2.entries[kp].is_dir());
    }
}

/// A fetched child listing that matches the canonical child set: the
/// same count, every listed hash a child, and no hash listed twice.
pub open spec fn listing_matches(listed: Seq<Seq<u8>>, ch: Seq<Seq<u8>>) -> bool {
    &&& listed.len() == ch.len()
    &&& forall|i: int| 0 <= i < listed.len() ==> ch.contains(#[trigger] listed[i])
    &&& forall|i: int, j: int|
        0 <= i < j < listed.len() ==> (#[trigger] listed[i]) != (#[trigger] listed[j])
}

/// The mathematical model of a directory listing row.
pub struct DirEntryModel {
    pub ino: u64,
    pub kind: FileKind,
    pub name: Seq<u8>,
}

impl View for DirEntry {
    type V = DirEntryModel;

    open spec fn view(&self) -> DirEntryModel {
        DirEntryModel { ino: self.ino, kind: self.kind, name: self.name@ }
    }
}

/// The index of the entry cached under a hash.
pub open spec fn idx_of_hash(es: Seq<EntryModel>, h: Seq<u8>) -> int {
    choose|k: int| 0 <= k < es.len() && (#[trigger] es[k]).hash == h
}

/// Under distinctness, any index holding hash `h` is its index.
pub proof fn lemma_hash_unique(es: Seq<EntryModel>, k: int, h: Seq<u8>)
    requires
        uniq(es),
        0 <= k < es.len(),
        es[k].hash == h,
    ensures
        has_hash(es, h),
        idx_of_hash(es, h) == k,
{
    assert(has_hash(es, h));
    let k2 = idx_of_hash(es, h);
    if k2 != k {
        if k < k2 {
            assert(es[k].hash != es[k2].hash);
        } else {
            assert(es[k2].hash != es[k].hash);
        }
    }
}

/// The row a cached child contributes to its directory's listing.
pub open spec fn child_row(m: FsModel, h: Seq<u8>) -> DirEntryModel {
    let c = m.entries[idx_of_hash(m.entries, h)];
    DirEntryModel { ino: c.ino(), kind: c.file.xattr.attr.kind, name: c.name() }
}

/// A directory's full listing: ".", "..", then its children in canonical
/// order.
pub open spec fn dir_listing(m: FsModel, ino: u64) -> Seq<DirEntryModel> {
    let e = entry_of(m.entries, ino);
    seq![
        DirEntryModel { ino, kind: FileKind::Directory, name: seq![46u8] },
        DirEntryModel { ino: e.parent(), kind: FileKind::Directory, name: seq![46u8, 46u8] },
    ] + Seq::new(e.children.len(), |i: int| child_row(m, e.children[i]))
}

/// The inode-to-hash index, as the map it stands for.
pub open spec fn ino_to_hash(m: FsModel) -> Map<u64, Seq<u8>> {
    Map::new(|i: u64| has_ino(m.entries, i), |i: u64| entry_of(m.entries, i).hash)
}

/// The hash-to-node index, as the map it stands for.
pub open spec fn hash_to_node(m: FsModel) -> Map<Seq<u8>, FileModel> {
    Map::new(
        |h: Seq<u8>| has_hash(m.entries, h),
        |h: Seq<u8>| m.entries[idx_of_hash(m.entries, h)].file,
    )
}

/// The (parent, name)-to-inode index, as the map it stands for.
pub open spec fn name_to_ino(m: FsModel) -> Map<(u64, Seq<u8>), u64> {
    Map::new(
        |pn: (u64, Seq<u8>)| has_name(m.entries, pn.0, pn.1),
        |pn: (u64, Seq<u8>)| m.entries[idx_of_name(m.entries, pn.0, pn.1)].ino(),
    )
}

/// Index coherence.  In any well-formed state — so after any sequence of
/// successful handler calls — the three indices agree on every cached
/// inode I: following I through the inode-to-hash index and then the
/// hash-to-node index yields a node whose inode is I again, and looking
/// the node's (parent, name) pair up in the name index yields I.
pub proof fn lemma_index_coherence(m: FsModel, ino: u64)
    requires
        wf(m),
        has_ino(m.entries, ino),
    ensures
        ino_to_hash(m).dom().contains(ino),
        hash_to_node(m).dom().contains(ino_to_hash(m)[ino]),
        hash_to_node(m)[ino_to_hash(m)[ino]].xattr.attr.ino == ino,
        name_to_ino(m).dom().contains(
            (entry_of(m.entries, ino).parent(), entry_of(m.entries, ino).name()),
        ),
        name_to_ino(m)[(entry_of(m.entries, ino).parent(), entry_of(m.entries, ino).name())]
            == ino,
{
    let k = idx_of(m.entries, ino);
    lemma_idx_unique(m.entries, k, ino);
    lemma_hash_unique(m.entries, k, m.entries[k].hash);
    lemma_name_unique(m.entries, k, m.entries[k].parent(), m.entries[k].name());
}

/// Whether the walk from the root down the child lists reaches a node:
/// each node on the parent chain is listed, under its current hash, in
/// its parent's child list.
pub open spec fn root_reaches(m: FsModel, i: u64) -> bool
    decreases i,
{
    if !has_ino(m.entries, i) {
        false
    } else if i == 1 {
        true
    } else {
        let e = entry_of(m.entries, i);
        if e.parent() >= i {
            false
        } else {
            root_reaches(m, e.parent()) && entry_of(m.entries, e.parent()).children.contains(
                e.hash,
            )
        }
    }
}

/// Propagation correctness, the authentication half.  In any well-formed
/// state — in particular right after a write, whose contract pins every
/// hash outside the written file's ancestor chain unchanged — walking
/// from the root down the child lists reaches every cached node under
/// its current hash.
pub proof fn lemma_root_reaches_all(m: FsModel, i: u64)
    requires
        wf(m),
        has_ino(m.entries, i),
    ensures
        root_reaches(m, i),
    decreases i,
{
    let k = idx_of(m.entries, i);
    lemma_idx_unique(m.entries, k, i);
    if i != 1 {
        assert(entry_shape_ok(m, k));
        assert(link_ok(m, k));
        lemma_root_reaches_all(m, m.entries[k].parent());
    }
}

/// Whether `ops` holds a delete of the object stored under `h`.
pub open spec fn ops_delete_hash(ops: Seq<StoreOp>, h: Seq<u8>) -> bool {
    exists|j: int| 0 <= j < ops.len() && crate::api::op_is_delete(#[trigger] ops[j], h)
}

/// Whether `ops` holds the puts that store the entry at index `k` of `m`:
/// the root put or the node put under its parent's current hash, and the
/// payload upload for a file that holds data.
pub open spec fn ops_put_entry(ops: Seq<StoreOp>, m: FsModel, k: int) -> bool {
    let e = m.entries[k];
    &&& (e.ino() == 1 ==> exists|j: int|
        0 <= j < ops.len() && crate::api::op_is_put_root(#[trigger] ops[j], e.hash, e.meta_env))
    &&& (e.ino() != 1 ==> exists|j: int|
        0 <= j < ops.len() && crate::api::op_is_put_node(
            #[trigger] ops[j],
            e.hash,
            entry_of(m.entries, e.parent()).hash,
            e.meta_env,
            e.is_dir(),
        ))
    &&& (!e.is_dir() && e.file.data.len() > 0 ==> exists|j: int|
        0 <= j < ops.len() && crate::api::op_is_put_data(#[trigger] ops[j], e.hash, e.payload_env))
}

/// The mutation lifecycle on the wire: every node whose hash changed gets
/// its old object deleted and its new envelope put under its parent's
/// final hash.
pub open spec fn reputs_covered(m_old: FsModel, m_new: FsModel, ops: Seq<StoreOp>) -> bool {
    forall|k: int|
        0 <= k < m_old.entries.len() && (#[trigger] m_new.entries[k]).hash
            != m_old.entries[k].hash ==> ops_delete_hash(ops, m_old.entries[k].hash)
            && ops_put_entry(ops, m_new, k)
}

/// `o1` is an unchanged prefix of `o2`: requests are only ever appended.
pub open spec fn ops_prefix(o1: Seq<StoreOp>, o2: Seq<StoreOp>) -> bool {
    o1.len() <= o2.len() && forall|j: int| 0 <= j < o1.len() ==> o2[j] == #[trigger] o1[j]
}

pub proof fn lemma_ops_grow_delete(o1: Seq<StoreOp>, o2: Seq<StoreOp>, h: Seq<u8>)
    requires
        ops_prefix(o1, o2),
        ops_delete_hash(o1, h),
    ensures
        ops_delete_hash(o2, h),
{
    let j = choose|j: int| 0 <= j < o1.len() && crate::api::op_is_delete(#[trigger] o1[j], h);
    assert(crate::api::op_is_delete(o2[j], h));
}

pub proof fn lemma_ops_grow_put(o1: Seq<StoreOp>, o2: Seq<StoreOp>, m: FsModel, k: int)
    requires
        ops_prefix(o1, o2),
        ops_put_entry(o1, m, k),
    ensures
        ops_put_entry(o2, m, k),
{
    let e = m.entries[k];
    if e.ino() == 1 {
        let j = choose|j: int|
            0 <= j < o1.len() && crate::api::op_is_put_root(#[trigger] o1[j], e.hash, e.meta_env);
        assert(crate::api::op_is_put_root(o2[j], e.hash, e.meta_env));
    } else {
        let j = choose|j: int|
            0 <= j < o1.len() && crate::api::op_is_put_node(
                #[trigger] o1[j],
                e.hash,
                entry_of(m.entries, e.parent()).hash,
                e.meta_env,
                e.is_dir(),
            );
        assert(crate::api::op_is_put_node(
            o2[j],
            e.hash,
            entry_of(m.entries, e.parent()).hash,
            e.meta_env,
            e.is_dir(),
        ));
    }
    if !e.is_dir() && e.file.data.len() > 0 {
        let j = choose|j: int|
            0 <= j < o1.len() && crate::api::op_is_put_data(
                #[trigger] o1[j],
                e.hash,
                e.payload_env,
            );
        assert(crate::api::op_is_put_data(o2[j], e.hash, e.payload_env));
    }
}

pub proof fn lemma_ops_grow_covered(
    o1: Seq<StoreOp>,
    o2: Seq<StoreOp>,
    m_old: FsModel,
    m_new: FsModel,
)
    requires
        ops_prefix(o1, o2),
        reputs_covered(m_old, m_new, o1),
    ensures
        reputs_covered(m_old, m_new, o2),
{
    assert forall|k: int|
        0 <= k < m_old.entries.len() && (#[trigger] m_new.entries[k]).hash
            != m_old.entries[k].hash implies ops_delete_hash(o2, m_old.entries[k].hash)
        && ops_put_entry(o2, m_new, k) by {
        lemma_ops_grow_delete(o1, o2, m_old.entries[k].hash);
        lemma_ops_grow_put(o1, o2, m_new, k);
    }
}

/// A suffix of a concatenation keeps its requests.
pub proof fn lemma_ops_shift_delete(pre: Seq<StoreOp>, suf: Seq<StoreOp>, h: Seq<u8>)
    requires
        ops_delete_hash(suf, h),
    ensures
        ops_delete_hash(pre + suf, h),
{
    let j = choose|j: int| 0 <= j < suf.len() && crate::api::op_is_delete(#[trigger] suf[j], h);
    assert(crate::api::op_is_delete((pre + suf)[pre.len() + j], h));
}

pub proof fn lemma_ops_shift_put(pre: Seq<StoreOp>, suf: Seq<StoreOp>, m: FsModel, k: int)
    requires
        ops_put_entry(suf, m, k),
    ensures
        ops_put_entry(pre + suf, m, k),
{
    let e = m.entries[k];
    if e.ino() == 1 {
        let j = choose|j: int|
            0 <= j < suf.len() && crate::api::op_is_put_root(#[trigger] suf[j], e.hash, e.meta_env);
        assert(crate::api::op_is_put_root((pre + suf)[pre.len() + j], e.hash, e.meta_env));
    } else {
        let j = choose|j: int|
            0 <= j < suf.len() && crate::api::op_is_put_node(
                #[trigger] suf[j],
                e.hash,
                entry_of(m.entries, e.parent()).hash,
                e.meta_env,
                e.is_dir(),
            );
        assert(crate::api::op_is_put_node(
            (pre + suf)[pre.len() + j],
            e.hash,
            entry_of(m.entries, e.parent()).hash,
            e.meta_env,
            e.is_dir(),
        ));
    }
    if !e.is_dir() && e.file.data.len() > 0 {
        let j = choose|j: int|
            0 <= j < suf.len() && crate::api::op_is_put_data(
                #[trigger] suf[j],
                e.hash,
                e.payload_env,
            );
        assert(crate::api::op_is_put_data((pre + suf)[pre.len() + j], e.hash, e.payload_env));
    }
}

pub proof fn lemma_ops_shift_covered(
    pre: Seq<StoreOp>,
    suf: Seq<StoreOp>,
    m_old: FsModel,
    m_new: FsModel,
)
    requires
        reputs_covered(m_old, m_new, suf),
    ensures
        reputs_covered(m_old, m_new, pre + suf),
{
    assert forall|k: int|
        0 <= k < m_old.entries.len() && (#[trigger] m_new.entries[k]).hash
            != m_old.entries[k].hash implies ops_delete_hash(pre + suf, m_old.entries[k].hash)
        && ops_put_entry(pre + suf, m_new, k) by {
        lemma_ops_shift_delete(pre, suf, m_old.entries[k].hash);
        lemma_ops_shift_put(pre, suf, m_new, k);
    }
}

/// Every cached inode's parent chain ends at the root, so a cache that
/// holds anything holds the root.
pub proof fn lemma_reaches_root(m: FsModel, i: u64)
    requires
        wf(m),
        has_ino(m.entries, i),
    ensures
        has_ino(m.entries, 1),
    decreases i,
{
    if i != 1 {
        let k = idx_of(m.entries, i);
        lemma_idx_unique(m.entries, k, i);
        assert(entry_shape_ok(m, k));
        lemma_reaches_root(m, m.entries[k].parent());
    }
}

/// A well-formed cache without a root is empty.
pub proof fn lemma_rootless_empty(m: FsModel)
    requires
        wf(m),
        !has_ino(m.entries, 1),
    ensures
        m.entries.len() == 0,
{
    if m.entries.len() > 0 {
        assert(m.entries[0].ino() == m.entries[0].ino());
        assert(has_ino(m.entries, m.entries[0].ino()));
        lemma_reaches_root(m, m.entries[0].ino());
    }
}

/// Two states with the same inode and parent layout have the same
/// ancestor sets.
pub proof fn lemma_anc_same(m1: FsModel, m2: FsModel, i: u64)
    requires
        m1.entries.len() == m2.entries.len(),
        forall|k: int|
            0 <= k < m1.entries.len() ==> (#[trigger] m1.entries[k]).ino() == m2.entries[k].ino()
                && m1.entries[k].parent() == m2.entries[k].parent(),
        uniq(m1.entries),
        uniq(m2.entries),
    ensures
        ancestors(m1, i) == ancestors(m2, i),
    decreases i,
{
    if has_ino(m1.entries, i) {
        let k = idx_of(m1.entries, i);
        assert(m2.entries[k].ino() == i);
        lemma_idx_unique(m2.entries, k, i);
        assert(has_ino(m2.entries, i));
        assert(entry_of(m2.entries, i) == m2.entries[k]);
        let p = entry_of(m1.entries, i).parent();
        assert(entry_of(m2.entries, i).parent() == p);
        if p < i {
            lemma_anc_same(m1, m2, p);
            assert(ancestors(m1, i) =~= ancestors(m2, i));
        } else {
            assert(ancestors(m1, i) =~= ancestors(m2, i));
        }
    } else {
        if has_ino(m2.entries, i) {
            let k = idx_of(m2.entries, i);
            assert(m1.entries[k].ino() == i);
            assert(has_ino(m1.entries, i));
        }
        assert(ancestors(m1, i) =~= ancestors(m2, i));
    }
}

/// The plaintext a fetched payload envelope decrypts to; empty when no
/// payload came.
pub open spec fn fetched_payload_data(key: Seq<u8>, pe: Option<Seq<u8>>) -> Seq<u8> {
    match pe {
        Option::Some(p) => crate::crypto::cipher_of(key, p.subrange(0, 24), p.skip(24)),
        Option::None => Seq::empty(),
    }
}

/// A child listing with no hash repeated.
pub open spec fn children_distinct(ch: Seq<Seq<u8>>) -> bool {
    forall|i: int, j: int| 0 <= i < j < ch.len() ==> (#[trigger] ch[i]) != (#[trigger] ch[j])
}

/// Whether a hash is the directory hash of an envelope over the canonical
/// form of a child set.
pub open spec fn canonical_form_matches(meta_env: Seq<u8>, children: Seq<Seq<u8>>, h: Seq<u8>) -> bool {
    exists|sorted: Seq<Seq<u8>>|
        #[trigger] children_ok(sorted) && sorted.len() == children.len() && (forall|x: Seq<u8>|
            sorted.contains(x) <==> children.contains(x)) && h == dir_hash_of(meta_env, sorted)
}

/// The condition under which a fetched node verifies and installs under a
/// cached parent: the parent is a cached directory listing the hash, the
/// envelopes decode within bounds, the decoded metadata agrees with the
/// kind and payload, the name is free, and the content re-hashes to the
/// expected identifier.
pub open spec fn install_accepts(m: FsModel, parent_ino: u64, f: crate::api::FetchedModel) -> bool {
    let data = fetched_payload_data(m.key, f.payload_env);
    let x = crate::attr::parse_attr(crate::api::env_plain(f.meta_env, m.key));
    &&& has_ino(m.entries, parent_ino)
    &&& entry_of(m.entries, parent_ino).is_dir()
    &&& f.hash.len() == 48
    &&& entry_of(m.entries, parent_ino).children.contains(f.hash)
    &&& (match f.payload_env {
        Option::Some(pe) => 24 <= pe.len() < 0x2000000000,
        Option::None => true,
    })
    &&& 24 <= f.meta_env.len() < 0x2000000000
    &&& x is Some
    &&& ((x.unwrap().attr.kind == FileKind::Directory) == f.is_dir)
    &&& x.unwrap().attr.size == data.len()
    &&& x.unwrap().file_name.len() < 0x100000
    &&& !has_name(m.entries, parent_ino, x.unwrap().file_name)
    &&& (f.is_dir ==> data.len() == 0 && children_distinct(f.children) && canonical_form_matches(
        f.meta_env,
        f.children,
        f.hash,
    ))
    &&& (!f.is_dir ==> f.hash == node_hash_of(
        f.meta_env,
        if data.len() == 0 {
            Option::None
        } else {
            Option::Some(f.payload_env.unwrap())
        },
    ))
}

/// The condition under which a fetched root verifies and is adopted.
pub open spec fn adopt_accepts(key: Seq<u8>, f: crate::api::FetchedModel) -> bool {
    let x = crate::attr::parse_attr(crate::api::env_plain(f.meta_env, key));
    &&& f.is_dir
    &&& f.hash.len() == 48
    &&& f.payload_env is None
    &&& 24 <= f.meta_env.len() < 0x2000000000
    &&& x is Some
    &&& x.unwrap().attr.kind == FileKind::Directory
    &&& x.unwrap().file_name.len() < 0x100000
    &&& children_distinct(f.children)
    &&& canonical_form_matches(f.meta_env, f.children, f.hash)
}

/// The attributes a `setattr` call may supply.
#[derive(Clone, Copy, Debug)]
pub struct SetAttrRequest {
    pub uid: Option<u32>,
    pub gid: Option<u32>,
    pub size: Option<u64>,
    pub atime: Option<u64>,
    pub mtime: Option<u64>,
    pub crtime: Option<u64>,
    pub flags: Option<u32>,
}

/// The attributes after applying a `setattr` request: each supplied
/// field replaces the stored one.
pub open spec fn apply_setattr(a: FileAttr, q: SetAttrRequest) -> FileAttr {
    FileAttr {
        ino: a.ino,
        size: match q.size {
            Option::Some(s) => s,
            Option::None => a.size,
        },
        blocks: a.blocks,
        atime: match q.atime {
            Option::Some(v) => v,
            Option::None => a.atime,
        },
        mtime: match q.mtime {
            Option::Some(v) => v,
            Option::None => a.mtime,
        },
        ctime: a.ctime,
        crtime: match q.crtime {
            Option::Some(v) => v,
            Option::None => a.crtime,
        },
        kind: a.kind,
        perm: a.perm,
        nlink: a.nlink,
        uid: match q.uid {
            Option::Some(v) => v,
            Option::None => a.uid,
        },
        gid: match q.gid {
            Option::Some(v) => v,
            Option::None => a.gid,
        },
        rdev: a.rdev,
        flags: match q.flags {
            Option::Some(v) => v,
            Option::None => a.flags,
        },
    }
}

/// A payload truncated or zero-extended to a target size.
pub open spec fn sized_data(d: Seq<u8>, n: int) -> Seq<u8> {
    if n <= d.len() {
        d.take(n)
    } else {
        d + Seq::new((n - d.len()) as nat, |i: int| 0u8)
    }
}

/// An entry keeps its shape when a fresh entry is appended after it.
pub proof fn lemma_shape_push(m1: FsModel, m2: FsModel, k: int)
    requires
        0 <= k < m1.entries.len(),
        entry_shape_ok(m1, k),
        m2.entries.len() == m1.entries.len() + 1,
        forall|j: int| 0 <= j < m1.entries.len() ==> #[trigger] m2.entries[j] == m1.entries[j],
        m2.top_ino >= m1.top_ino,
        uniq(m1.entries),
        uniq(m2.entries),
    ensures
        entry_shape_ok(m2, k),
        link_ok(m1, k) ==> link_ok(m2, k),
    decreases 0int,
{
    let e = m1.entries[k];
    if e.ino() != 1 {
        let kp = idx_of(m1.entries, e.parent());
        assert(m1.entries[kp].ino() == e.parent());
        assert(m2.entries[kp].ino() == e.parent());
        lemma_idx_unique(m2.entries, kp, e.parent());
        assert(entry_of(m2.entries, e.parent()) == m2.entries[kp]);
    }
}

impl Q1FS {
    /// A fresh handler: an empty cache, the inode counter at the reserved
    /// root inode, no root hash yet.
    pub fn new(key: Vec<u8>) -> (r: Q1FS)
        requires
            key@.len() == 32,
        ensures
            r@.entries.len() == 0,
            r@.top_ino == 1,
            r@.key == key@,
            r@.root_hash is None,
            wf(r@),
    {
        let fs = Q1FS { cache: Cache { entries: Vec::new() }, top_ino: 1, key, root_hash: None };
        proof {
            assert(fs@.entries.len() == 0);
            if has_ino(fs@.entries, 1) {
                let k = idx_of(fs@.entries, 1);
            }
        }
        fs
    }

    /// A full copy of the handler state.  Mutations are staged on such a
    /// copy and committed only when they succeed in full, so that any
    /// failed request leaves the handler exactly as it was.
    fn clone_state(&self) -> (r: Q1FS)
        ensures
            r@ == self@,
    {
        let mut entries: Vec<Entry> = Vec::new();
        let n = self.cache.entries.len();
        let mut i: usize = 0;
        while i < n
            invariant
                n == self@.entries.len(),
                i <= n,
                entries@.len() == i,
                forall|k: int| 0 <= k < i ==> (#[trigger] entries@[k])@ == self@.entries[k],
            decreases n - i,
        {
            let e = self.cache.entries[i].clone();
            entries.push(e);
            i = i + 1;
        }
        let key = self.key.clone();
        let root_hash = match &self.root_hash {
            Some(h) => {
                let c = h.clone();
                proof {
                    assert(c@ =~= h@);
                }
                Some(c)
            },
            None => None,
        };
        let r = Q1FS { cache: Cache { entries }, top_ino: self.top_ino, key, root_hash };
        proof {
            assert(key@ =~= self.key@);
            assert(r@.entries =~= self@.entries);
            assert(r@ == self@);
        }
        r
    }

    /// The cached attributes of an inode; `NoEnt` when it is unknown.
    pub fn getattr(&self, ino: u64) -> (r: Result<FileAttr, FsError>)
        requires
            wf(self@),
        ensures
            match r {
                Result::Ok(a) => has_ino(self@.entries, ino) && a == entry_of(
                    self@.entries,
                    ino,
                ).file.xattr.attr && a.ino == ino,
                Result::Err(e) => e == FsError::NoEnt && !has_ino(self@.entries, ino),
            },
    {
        match self.cache.find_ino(ino) {
            Some(k) => {
                proof {
                    lemma_idx_unique(self@.entries, k as int, ino);
                }
                Ok(self.cache.entries[k].file.xattr.attr)
            },
            None => Err(FsError::NoEnt),
        }
    }

    /// Validates an open: any known inode opens with the shared handle 0.
    pub fn open(&self, ino: u64) -> (r: Result<u64, FsError>)
        requires
            wf(self@),
        ensures
            match r {
                Result::Ok(fh) => fh == 0 && has_ino(self@.entries, ino),
                Result::Err(e) => e == FsError::NoEnt && !has_ino(self@.entries, ino),
            },
    {
        match self.cache.find_ino(ino) {
            Some(_) => Ok(0),
            None => Err(FsError::NoEnt),
        }
    }

    /// Reads `[offset, offset + size)` of a node's payload, clamped to
    /// its end; a start beyond the end reads nothing.
    pub fn read(&self, ino: u64, offset: u64, size: u32) -> (r: Result<Vec<u8>, FsError>)
        requires
            wf(self@),
        ensures
            match r {
                Result::Ok(d) => {
                    &&& has_ino(self@.entries, ino)
                    &&& {
                        let data = entry_of(self@.entries, ino).file.data;
                        if offset > data.len() {
                            d@ == Seq::<u8>::empty()
                        } else {
                            d@ == data.subrange(
                                offset as int,
                                if offset + size <= data.len() {
                                    offset + size
                                } else {
                                    data.len() as int
                                },
                            )
                        }
                    }
                },
                Result::Err(e) => e == FsError::NoEnt && !has_ino(self@.entries, ino),
            },
    {
        let k = match self.cache.find_ino(ino) {
            Some(k) => k,
            None => {
                return Err(FsError::NoEnt);
            },
        };
        proof {
            lemma_idx_unique(self@.entries, k as int, ino);
            assert(entry_shape_ok(self@, k as int));
        }
        let data = &self.cache.entries[k].file.data;
        let len = data.len();
        if offset > len as u64 {
            return Ok(Vec::new());
        }
        let off = offset as usize;
        let end = if (offset + size as u64) <= len as u64 {
            (offset + size as u64) as usize
        } else {
            len
        };
        let slice = vstd::slice::slice_subrange(data.as_slice(), off, end);
        let out = vstd::slice::slice_to_vec(slice);
        Ok(out)
    }

    /// One propagation step: the parent of `cur` replaces `stale` (or,
    /// for a fresh node, nothing) in its child list with `cur`'s current
    /// hash and gets its own hash recomputed by the directory rule.
    /// Yields the parent's inode, the parent's old hash, and whether the
    /// parent's hash actually changed; when it did not, the state is
    /// fully well-formed again and propagation can stop.
    #[verifier::rlimit(100)]
    fn rehash_parent(&mut self, cur: u64, stale_cur: &Option<Vec<u8>>) -> (r: Result<
        (u64, Vec<u8>, bool),
        FsError,
    >)
        requires
            wf_dirty(old(self)@, cur, opt_vec_view(*stale_cur)),
            cur != 1,
        ensures
            r matches Ok(t) ==> {
                &&& t.0 == entry_of(old(self)@.entries, cur).parent()
                &&& t.1@ == entry_of(old(self)@.entries, t.0).hash
                &&& (t.2 ==> wf_dirty(final(self)@, t.0, Option::Some(t.1@)))
                &&& (!t.2 ==> wf(final(self)@))
            },
            r is Ok ==> final(self)@.entries.len() == old(self)@.entries.len() && final(self)@.key
                == old(self)@.key && final(self)@.top_ino == old(self)@.top_ino && final(self)@.root_hash == old(self)@.root_hash,
            r is Ok ==> forall|k: int|
                0 <= k < old(self)@.entries.len() ==> (#[trigger] final(self)@.entries[k]).ino()
                    == old(self)@.entries[k].ino() && final(self)@.entries[k].file == old(self)@.entries[k].file && final(self)@.entries[k].meta_env == old(self)@.entries[k].meta_env && final(self)@.entries[k].payload_env == old(self)@.entries[k].payload_env,
            r matches Ok(t) ==> forall|k: int|
                0 <= k < old(self)@.entries.len() && (#[trigger] final(self)@.entries[k]) != old(self)@.entries[k] ==> old(self)@.entries[k].ino() == t.0,
            r matches Ok(t) ==> forall|k: int|
                0 <= k < old(self)@.entries.len() && (#[trigger] final(self)@.entries[k]).hash
                    != old(self)@.entries[k].hash ==> t.2 && old(self)@.entries[k].ino() == t.0,
    {
        proof {
            assert(has_ino(self@.entries, cur));
        }
        let k_cur = match self.cache.find_ino(cur) {
            Some(k) => k,
            None => {
                proof {
                    assert(false);
                }
                return Err(FsError::StructuralCorruption);
            },
        };
        proof {
            lemma_idx_unique(self@.entries, k_cur as int, cur);
            assert(entry_shape_ok(self@, k_cur as int));
        }
        let cur_hash = self.cache.entries[k_cur].hash.clone();
        let p_ino = self.cache.entries[k_cur].file.xattr.parent_ino;
        proof {
            assert(cur_hash@ =~= self@.entries[k_cur as int].hash);
            assert(p_ino < cur);
            assert(has_ino(self@.entries, p_ino));
        }
        let k_p = match self.cache.find_ino(p_ino) {
            Some(k) => k,
            None => {
                proof {
                    assert(false);
                }
                return Err(FsError::StructuralCorruption);
            },
        };
        proof {
            lemma_idx_unique(self@.entries, k_p as int, p_ino);
            assert(entry_shape_ok(self@, k_p as int));
            assert(self@.entries[k_p as int].is_dir());
        }
        let p_file = self.cache.entries[k_p].file.clone();
        let p_meta = self.cache.entries[k_p].meta_env.clone();
        let p_payload = self.cache.entries[k_p].payload_env.clone();
        let mut ch = crate::cache::clone_children(&self.cache.entries[k_p].children);
        proof {
            assert(p_meta@ =~= self@.entries[k_p as int].meta_env);
            assert(p_payload@ =~= self@.entries[k_p as int].payload_env);
            assert(crate::crypto::views_of(ch@) == self@.entries[k_p as int].children);
            assert(children_ok(crate::crypto::views_of(ch@)));
        }
        match stale_cur {
            Some(s) => {
                let removed = crate::cache::remove_hash(&mut ch, s.as_slice());
                proof {
                    assert(entry_of(self@.entries, p_ino) == self@.entries[k_p as int]);
                    assert(removed);
                }
            },
            None => {},
        }
        proof {
            assert(!crate::crypto::views_of(ch@).contains(cur_hash@));
        }
        crate::cache::insert_sorted(&mut ch, cur_hash);
        let new_p_hash = crate::crypto::hash_of_dir(&p_meta, &ch);
        let old_p_hash = self.cache.entries[k_p].hash.clone();
        proof {
            assert(old_p_hash@ =~= self@.entries[k_p as int].hash);
            assert(entry_of(self@.entries, p_ino) == self@.entries[k_p as int]);
        }
        let ghost prev = self@;
        if new_p_hash == old_p_hash {
            proof {
                assert(new_p_hash@ == old_p_hash@);
            }
            let e = Entry {
                hash: new_p_hash,
                file: p_file,
                meta_env: p_meta,
                payload_env: p_payload,
                children: ch,
            };
            self.cache.set_entry(k_p, e);
            proof {
                let m = self@;
                assert(m.entries == prev.entries.update(k_p as int, e@));
                assert(m.entries[k_p as int].hash == prev.entries[k_p as int].hash);
                assert(uniq(m.entries)) by {
                    assert forall|i: int, j: int| 0 <= i < j < m.entries.len() implies (
                    #[trigger] m.entries[i]).ino() != (#[trigger] m.entries[j]).ino()
                        && m.entries[i].hash != m.entries[j].hash && !(m.entries[i].parent()
                        == m.entries[j].parent() && m.entries[i].name() == m.entries[j].name()) by {
                        assert(prev.entries[i].ino() != prev.entries[j].ino()
                            && prev.entries[i].hash != prev.entries[j].hash && !(
                        prev.entries[i].parent() == prev.entries[j].parent()
                            && prev.entries[i].name() == prev.entries[j].name()));
                    }
                }
                assert forall|k: int| 0 <= k < m.entries.len() implies #[trigger] entry_shape_ok(
                    m,
                    k,
                ) by {
                    if k != k_p as int {
                        lemma_shape_transfer(prev, m, k);
                    } else {
                        assert(entry_shape_ok(prev, k_p as int));
                        lemma_has_ino_eq(prev.entries, m.entries, m.entries[k].parent());
                        if m.entries[k].ino() != 1 {
                            let kp2 = idx_of(prev.entries, prev.entries[k].parent());
                            lemma_idx_unique(m.entries, kp2, m.entries[k].parent());
                            lemma_idx_unique(prev.entries, kp2, prev.entries[k].parent());
                        }
                        assert(m.entries[k].is_dir());
                        assert(m.entries[k].children == crate::crypto::views_of(e.children@));
                        assert(m.entries[k].hash == dir_hash_of(
                            m.entries[k].meta_env,
                            m.entries[k].children,
                        ));
                    }
                }
                assert forall|k: int| 0 <= k < m.entries.len() implies #[trigger] link_ok(m, k) by {
                    let e2 = m.entries[k];
                    if e2.ino() != 1 {
                        assert(entry_shape_ok(prev, k));
                        assert(prev.entries[k].parent() == e2.parent());
                        assert(has_ino(prev.entries, e2.parent()));
                        let kpar = idx_of(prev.entries, e2.parent());
                        lemma_idx_unique(prev.entries, kpar, e2.parent());
                        lemma_idx_unique(m.entries, kpar, e2.parent());
                        assert(entry_of(m.entries, e2.parent()) == m.entries[kpar]);
                        if e2.ino() == cur {
                            assert(k == k_cur as int);
                            assert(kpar == k_p as int);
                            assert(m.entries[kpar].children.contains(e2.hash));
                        } else {
                            assert(link_ok(prev, k));
                            assert(prev.entries[k].hash == e2.hash);
                            if kpar == k_p as int {
                                assert(entry_of(prev.entries, e2.parent()) == prev.entries[k_p as int]);
                                assert(prev.entries[k_p as int].children.contains(e2.hash));
                                assert(match opt_vec_view(*stale_cur) {
                                    Option::Some(s) => e2.hash != s,
                                    Option::None => true,
                                });
                                assert(m.entries[k_p as int].children.contains(e2.hash));
                            } else {
                                assert(m.entries[kpar] == prev.entries[kpar]);
                            }
                        }
                    }
                }
                assert(root_ok(m)) by {
                    assert(cur != 1);
                    assert(root_ok(prev));
                    if prev.root_hash is Some {
                        let kr = idx_of(prev.entries, 1);
                        lemma_idx_unique(prev.entries, kr, 1);
                        lemma_idx_unique(m.entries, kr, 1);
                        assert(m.entries[kr].hash == prev.entries[kr].hash);
                    } else {
                        lemma_has_ino_eq(prev.entries, m.entries, 1);
                    }
                }
                assert(wf(m));
            }
            return Ok((p_ino, old_p_hash, false));
        }
        match self.cache.find_hash(new_p_hash.as_slice()) {
            Some(_) => {
                return Err(FsError::StructuralCorruption);
            },
            None => {},
        }
        if p_ino != 1 {
            let gp_ino = p_file.xattr.parent_ino;
            let k_gp = match self.cache.find_ino(gp_ino) {
                Some(k) => k,
                None => {
                    proof {
                        assert(false);
                    }
                    return Err(FsError::StructuralCorruption);
                },
            };
            proof {
                lemma_idx_unique(self@.entries, k_gp as int, gp_ino);
            }
            if crate::cache::contains_hash(
                &self.cache.entries[k_gp].children,
                new_p_hash.as_slice(),
            ) {
                return Err(FsError::StructuralCorruption);
            }
        }
        let ghost new_hash_view = new_p_hash@;
        let e = Entry {
            hash: new_p_hash,
            file: p_file,
            meta_env: p_meta,
            payload_env: p_payload,
            children: ch,
        };
        self.cache.set_entry(k_p, e);
        proof {
            let m = self@;
            assert(m.entries == prev.entries.update(k_p as int, e@));
            assert(m.entries[k_p as int].hash == new_hash_view);
            assert(!has_hash(prev.entries, new_hash_view));
            assert(uniq(m.entries)) by {
                assert forall|i: int, j: int| 0 <= i < j < m.entries.len() implies (
                #[trigger] m.entries[i]).ino() != (#[trigger] m.entries[j]).ino()
                    && m.entries[i].hash != m.entries[j].hash && !(m.entries[i].parent()
                    == m.entries[j].parent() && m.entries[i].name() == m.entries[j].name()) by {
                    assert(prev.entries[i].ino() != prev.entries[j].ino() && prev.entries[i].hash
                        != prev.entries[j].hash && !(prev.entries[i].parent()
                        == prev.entries[j].parent() && prev.entries[i].name()
                        == prev.entries[j].name()));
                    if i == k_p as int {
                        assert(prev.entries[j].hash != new_hash_view);
                    }
                    if j == k_p as int {
                        assert(prev.entries[i].hash != new_hash_view);
                    }
                }
            }
            assert forall|k: int| 0 <= k < m.entries.len() implies #[trigger] entry_shape_ok(
                m,
                k,
            ) by {
                if k != k_p as int {
                    lemma_shape_transfer(prev, m, k);
                } else {
                    assert(entry_shape_ok(prev, k_p as int));
                    lemma_has_ino_eq(prev.entries, m.entries, m.entries[k].parent());
                    if m.entries[k].ino() != 1 {
                        let kp2 = idx_of(prev.entries, prev.entries[k].parent());
                        lemma_idx_unique(m.entries, kp2, m.entries[k].parent());
                        lemma_idx_unique(prev.entries, kp2, prev.entries[k].parent());
                    }
                    assert(m.entries[k].is_dir());
                    assert(m.entries[k].children == crate::crypto::views_of(e.children@));
                    assert(m.entries[k].hash == dir_hash_of(
                        m.entries[k].meta_env,
                        m.entries[k].children,
                    ));
                }
            }
            assert forall|k: int|
                0 <= k < m.entries.len() && (#[trigger] m.entries[k]).ino() != p_ino implies link_ok(
                m,
                k,
            ) by {
                let e2 = m.entries[k];
                if e2.ino() != 1 {
                    assert(entry_shape_ok(prev, k));
                    assert(prev.entries[k].parent() == e2.parent());
                    assert(has_ino(prev.entries, e2.parent()));
                    let kpar = idx_of(prev.entries, e2.parent());
                    lemma_idx_unique(prev.entries, kpar, e2.parent());
                    lemma_idx_unique(m.entries, kpar, e2.parent());
                    if e2.ino() == cur {
                        assert(k == k_cur as int);
                        assert(kpar == k_p as int);
                        assert(m.entries[kpar].children.contains(e2.hash));
                    } else {
                        assert(link_ok(prev, k));
                        assert(prev.entries[k].hash == e2.hash);
                        if kpar == k_p as int {
                            assert(prev.entries[k_p as int].children.contains(e2.hash));
                            assert(match opt_vec_view(*stale_cur) {
                                Option::Some(s) => e2.hash != s,
                                Option::None => true,
                            });
                            assert(m.entries[k_p as int].children.contains(e2.hash));
                        } else {
                            assert(m.entries[kpar] == prev.entries[kpar]);
                        }
                    }
                }
            }
            assert(has_ino(m.entries, p_ino));
            assert(entry_of(m.entries, p_ino) == m.entries[k_p as int]);
            assert(!has_hash(m.entries, old_p_hash@)) by {
                if has_hash(m.entries, old_p_hash@) {
                    let k = choose|k: int|
                        0 <= k < m.entries.len() && (#[trigger] m.entries[k]).hash == old_p_hash@;
                    assert(k != k_p as int);
                    assert(prev.entries[k].hash == old_p_hash@);
                    assert(prev.entries[k_p as int].hash == old_p_hash@);
                    if k < k_p as int {
                        assert(prev.entries[k].hash != prev.entries[k_p as int].hash);
                    } else {
                        assert(prev.entries[k_p as int].hash != prev.entries[k].hash);
                    }
                }
            }
            if p_ino != 1 {
                let gpar = m.entries[k_p as int].parent();
                let kgp = idx_of(prev.entries, gpar);
                lemma_idx_unique(prev.entries, kgp, gpar);
                lemma_idx_unique(m.entries, kgp, gpar);
                assert(entry_of(m.entries, gpar) == m.entries[kgp]);
                assert(kgp != k_p as int);
                assert(m.entries[kgp] == prev.entries[kgp]);
                assert(!m.entries[kgp].children.contains(new_hash_view));
                assert(link_ok(prev, k_p as int));
                assert(m.entries[kgp].children.contains(old_p_hash@));
                assert(root_ok(m)) by {
                    assert(root_ok(prev));
                    if prev.root_hash is Some {
                        let kr = idx_of(prev.entries, 1);
                        lemma_idx_unique(prev.entries, kr, 1);
                        lemma_idx_unique(m.entries, kr, 1);
                        assert(kr != k_p as int);
                    } else {
                        lemma_has_ino_eq(prev.entries, m.entries, 1);
                    }
                }
            } else {
                assert(root_ok(prev));
                let kr = idx_of(prev.entries, 1);
                lemma_idx_unique(prev.entries, kr, 1);
                assert(kr == k_p as int);
                assert(prev.root_hash == Option::Some(old_p_hash@));
                lemma_idx_unique(m.entries, kr, 1);
                assert(entry_of(m.entries, 1).hash == new_hash_view);
            }
            assert(wf_dirty(m, p_ino, Option::Some(old_p_hash@)));
        }
        Ok((p_ino, old_p_hash, true))
    }

    /// The hash-propagation engine.  On entry one node is dirty: its own
    /// entry already holds its new hash, but its parent's child list
    /// still carries `stale` in its place (or nothing, for a node just
    /// created).  Walks the parent links up to the root, substituting the
    /// fresh hash into each parent's child list, recomputing the parent's
    /// hash by the directory rule, and finally repoints the root hash.
    /// Records a delete of each ancestor's old object and a put of its
    /// new one.
    ///
    /// The walk stops early when an ancestor's recomputed hash equals its
    /// old one: nothing above it can change.  A recomputed hash that
    /// collides with a different cached entry would corrupt the tri-index
    /// and is rejected as structural corruption; after such an error the
    /// cache is mid-propagation and the mount must be considered unsafe.
    #[verifier::loop_isolation(false)]
    #[verifier::rlimit(100)]
    fn update_parent_hashes(
        &mut self,
        child_ino: u64,
        stale: Option<&Vec<u8>>,
        ops: &mut Vec<StoreOp>,
    ) -> (r: Result<(), FsError>)
        requires
            wf_dirty(old(self)@, child_ino, opt_ref_view(stale)),
            child_ino == 1 ==> stale is Some,
        ensures
            r is Ok ==> wf(final(self)@),
            r is Ok ==> final(self)@.entries.len() == old(self)@.entries.len() && final(self)@.key
                == old(self)@.key && final(self)@.top_ino == old(self)@.top_ino,
            r is Ok ==> forall|k: int|
                0 <= k < old(self)@.entries.len() ==> (#[trigger] final(self)@.entries[k]).ino()
                    == old(self)@.entries[k].ino() && final(self)@.entries[k].file == old(self)@.entries[k].file && final(self)@.entries[k].meta_env == old(self)@.entries[k].meta_env && final(self)@.entries[k].payload_env == old(self)@.entries[k].payload_env,
            r is Ok ==> forall|k: int|
                0 <= k < old(self)@.entries.len() && (#[trigger] final(self)@.entries[k]) != old(self)@.entries[k] ==> ancestors(old(self)@, child_ino).contains(
                    old(self)@.entries[k].ino(),
                ),
            ops_prefix(old(ops)@, final(ops)@),
            r is Ok ==> reputs_covered(old(self)@, final(self)@, final(ops)@),
            r is Ok ==> (match opt_ref_view(stale) {
                Option::Some(s) => !has_hash(final(self)@.entries, s),
                Option::None => true,
            }),
    {
        let mut cur: u64 = child_ino;
        let mut stale_cur: Option<Vec<u8>> = match stale {
            Some(s) => {
                let c = s.clone();
                proof {
                    assert(c@ =~= s@);
                }
                Some(c)
            },
            None => None,
        };
        let first_stale: Option<Vec<u8>> = match stale {
            Some(s) => {
                let c = s.clone();
                proof {
                    assert(c@ =~= s@);
                }
                Some(c)
            },
            None => None,
        };
        let mut changed: Vec<(u64, Vec<u8>)> = Vec::new();
        let mut done: bool = false;
        while !done
            invariant
                !done ==> wf_dirty(self@, cur, opt_vec_view(stale_cur)),
                !done ==> (cur == 1 ==> stale_cur is Some),
                !done ==> (cur == child_ino || ancestors(old(self)@, child_ino).contains(cur)),
                done ==> wf(self@),
                self@.entries.len() == old(self)@.entries.len(),
                self@.key == old(self)@.key,
                self@.top_ino == old(self)@.top_ino,
                forall|k: int|
                    0 <= k < old(self)@.entries.len() ==> (#[trigger] self@.entries[k]).ino()
                        == old(self)@.entries[k].ino() && self@.entries[k].file == old(self)@.entries[k].file && self@.entries[k].meta_env == old(self)@.entries[k].meta_env && self@.entries[k].payload_env == old(self)@.entries[k].payload_env,
                forall|k: int|
                    0 <= k < old(self)@.entries.len() && (#[trigger] self@.entries[k]) != old(self)@.entries[k] ==> ancestors(old(self)@, child_ino).contains(
                        old(self)@.entries[k].ino(),
                    ),
                ops@ == old(ops)@,
                forall|k: int|
                    0 <= k < old(self)@.entries.len() && (#[trigger] self@.entries[k]).hash != old(self)@.entries[k].hash ==> exists|i2: int|
                        0 <= i2 < changed@.len() && (#[trigger] changed@[i2]).0 == old(self)@.entries[k].ino() && changed@[i2].1@ == old(self)@.entries[k].hash,
                !done ==> forall|k: int|
                    0 <= k < old(self)@.entries.len() && (#[trigger] self@.entries[k]).hash != old(self)@.entries[k].hash ==> old(self)@.entries[k].ino() >= cur,
                (match opt_ref_view(stale) {
                    Option::Some(s) => !has_hash(self@.entries, s),
                    Option::None => true,
                }),
                opt_vec_view(first_stale) == opt_ref_view(stale),
                forall|i2: int|
                    0 <= i2 < changed@.len() ==> !has_hash(
                        self@.entries,
                        (#[trigger] changed@[i2]).1@,
                    ),
            decreases (if done {
                0int
            } else {
                cur as int + 1
            }),
        {
            proof {
                assert(has_ino(self@.entries, cur));
            }
            if cur == 1 {
                let k_root = match self.cache.find_ino(1) {
                    Some(k) => k,
                    None => {
                        proof {
                            assert(false);
                        }
                        return Err(FsError::StructuralCorruption);
                    },
                };
                proof {
                    lemma_idx_unique(self@.entries, k_root as int, 1);
                }
                let new_root_hash = self.cache.entries[k_root].hash.clone();
                proof {
                    assert(new_root_hash@ =~= self@.entries[k_root as int].hash);
                }
                let ghost before = self@;
                self.root_hash = Some(new_root_hash);
                proof {
                    let m = self@;
                    assert(m.entries == before.entries && m.top_ino == before.top_ino && m.key
                        == before.key);
                    assert forall|k: int|
                        0 <= k < m.entries.len() implies #[trigger] entry_shape_ok(m, k) by {
                        assert(entry_shape_ok(before, k));
                    }
                    assert forall|k: int| 0 <= k < m.entries.len() implies #[trigger] link_ok(
                        m,
                        k,
                    ) by {
                        if m.entries[k].ino() != 1 {
                            assert(link_ok(before, k));
                            assert(link_ok(m, k));
                        }
                    }
                    assert(entry_of(m.entries, 1) == m.entries[k_root as int]);
                    assert(root_ok(m));
                }
                done = true;
                continue ;
            }
            let ghost at_entry = self@;
            let step = self.rehash_parent(cur, &stale_cur);
            match step {
                Ok((p_ino, old_p_hash, hash_changed)) => {
                    proof {
                        lemma_has_ino_eq(at_entry.entries, old(self)@.entries, cur);
                        assert(has_ino(old(self)@.entries, cur));
                        let kc = idx_of(at_entry.entries, cur);
                        lemma_idx_unique(at_entry.entries, kc, cur);
                        lemma_idx_unique(old(self)@.entries, kc, cur);
                        assert(entry_of(at_entry.entries, cur).parent() == p_ino);
                        assert(entry_of(old(self)@.entries, cur).parent() == p_ino);
                        assert(entry_shape_ok(at_entry, idx_of(at_entry.entries, cur)));
                        assert(p_ino < cur);
                        if cur == child_ino {
                            lemma_anc_parent(old(self)@, cur);
                        } else {
                            lemma_anc_trans(old(self)@, child_ino, cur);
                            lemma_anc_parent(old(self)@, cur);
                        }
                        assert(ancestors(old(self)@, child_ino).contains(p_ino));
                        assert forall|k: int|
                            0 <= k < old(self)@.entries.len() && (#[trigger] self@.entries[k])
                                != old(self)@.entries[k] implies ancestors(
                            old(self)@,
                            child_ino,
                        ).contains(old(self)@.entries[k].ino()) by {
                            if self@.entries[k] != at_entry.entries[k] {
                                assert(old(self)@.entries[k].ino() == p_ino);
                            }
                        }
                    }
                    if hash_changed {
                        // A fresh hash must not resurrect a hash retired
                        // earlier in this walk: the retired objects are
                        // deleted from the store, so a cached node under
                        // such a hash would be structural corruption.
                        let kp2 = match self.cache.find_ino(p_ino) {
                            Some(kk) => kk,
                            None => {
                                proof {
                                    assert(false);
                                }
                                return Err(FsError::StructuralCorruption);
                            },
                        };
                        proof {
                            lemma_idx_unique(self@.entries, kp2 as int, p_ino);
                        }
                        match &first_stale {
                            Some(s0) => {
                                if crate::codec::bytes_eq(
                                    self.cache.entries[kp2].hash.as_slice(),
                                    s0.as_slice(),
                                ) {
                                    return Err(FsError::StructuralCorruption);
                                }
                            },
                            None => {},
                        }
                        let n_ch = changed.len();
                        let mut ci: usize = 0;
                        while ci < n_ch
                            invariant
                                n_ch == changed@.len(),
                                ci <= n_ch,
                                kp2 < self@.entries.len(),
                                forall|j: int|
                                    0 <= j < ci ==> (#[trigger] changed@[j]).1@
                                        != self@.entries[kp2 as int].hash,
                            decreases n_ch - ci,
                        {
                            if crate::codec::bytes_eq(
                                self.cache.entries[kp2].hash.as_slice(),
                                changed[ci].1.as_slice(),
                            ) {
                                return Err(FsError::StructuralCorruption);
                            }
                            ci = ci + 1;
                        }
                        proof {
                            let nh = self@.entries[kp2 as int].hash;
                            assert forall|h: Seq<u8>|
                                !has_hash(at_entry.entries, h) && h != nh implies !has_hash(
                                self@.entries,
                                h,
                            ) by {
                                if has_hash(self@.entries, h) {
                                    let kx = choose|kx: int|
                                        0 <= kx < self@.entries.len() && (
                                        #[trigger] self@.entries[kx]).hash == h;
                                    if self@.entries[kx] == at_entry.entries[kx] {
                                        assert(at_entry.entries[kx].hash == h);
                                    } else {
                                        assert(old(self)@.entries[kx].ino() == p_ino);
                                        assert(at_entry.entries[kx].ino() == p_ino);
                                        lemma_idx_unique(at_entry.entries, kx, p_ino);
                                        lemma_idx_unique(
                                            at_entry.entries,
                                            kp2 as int,
                                            p_ino,
                                        );
                                        assert(kx == kp2 as int);
                                    }
                                }
                            }
                            match opt_ref_view(stale) {
                                Option::Some(s) => {
                                    assert(s != nh);
                                    assert(!has_hash(self@.entries, s));
                                },
                                Option::None => {},
                            }
                            assert forall|i2: int| 0 <= i2 < changed@.len() implies !has_hash(
                                self@.entries,
                                (#[trigger] changed@[i2]).1@,
                            ) by {
                                assert(changed@[i2].1@ != nh);
                            }
                        }
                        let ghost changed_prev = changed@;
                        changed.push((p_ino, old_p_hash));
                        let last = changed.len() - 1;
                        stale_cur = Some(changed[last].1.clone());
                        proof {
                            assert(changed@[last as int].1@ =~= stale_cur.unwrap()@);
                            assert(opt_vec_view(stale_cur) == Option::Some(
                                changed@[last as int].1@,
                            ));
                            assert(has_ino(at_entry.entries, p_ino));
                            let kp = idx_of(at_entry.entries, p_ino);
                            lemma_idx_unique(at_entry.entries, kp, p_ino);
                            lemma_idx_unique(self@.entries, kp, p_ino);
                            assert(old(self)@.entries[kp].ino() == p_ino);
                            assert(old(self)@.entries[kp].hash == at_entry.entries[kp].hash) by {
                                if at_entry.entries[kp].hash != old(self)@.entries[kp].hash {
                                    assert(old(self)@.entries[kp].ino() >= cur);
                                }
                            }
                            assert(old_p_hash@ == entry_of(at_entry.entries, p_ino).hash);
                            assert(old_p_hash@ == old(self)@.entries[kp].hash);
                            assert(!has_hash(self@.entries, old_p_hash@));
                            assert forall|k: int|
                                0 <= k < old(self)@.entries.len() && (#[trigger] self@.entries[k]).hash
                                    != old(self)@.entries[k].hash implies exists|i2: int|
                                0 <= i2 < changed@.len() && (#[trigger] changed@[i2]).0 == old(self)@.entries[k].ino() && changed@[i2].1@ == old(self)@.entries[k].hash by {
                                if self@.entries[k].hash != at_entry.entries[k].hash {
                                    assert(old(self)@.entries[k].ino() == p_ino);
                                    assert(k == kp);
                                    assert(changed@[last as int].0 == old(self)@.entries[k].ino()
                                        && changed@[last as int].1@ == old(self)@.entries[k].hash);
                                } else {
                                    let i2 = choose|i2: int|
                                        0 <= i2 < changed_prev.len() && (#[trigger] changed_prev[i2]).0 == old(self)@.entries[k].ino() && changed_prev[i2].1@ == old(self)@.entries[k].hash;
                                    assert(changed@[i2].0 == old(self)@.entries[k].ino()
                                        && changed@[i2].1@ == old(self)@.entries[k].hash);
                                }
                            }
                        }
                        cur = p_ino;
                    } else {
                        proof {
                            assert forall|h: Seq<u8>|
                                !has_hash(at_entry.entries, h) implies !has_hash(
                                self@.entries,
                                h,
                            ) by {
                                if has_hash(self@.entries, h) {
                                    let kx = choose|kx: int|
                                        0 <= kx < self@.entries.len() && (
                                        #[trigger] self@.entries[kx]).hash == h;
                                    assert(self@.entries[kx].hash
                                        == at_entry.entries[kx].hash);
                                }
                            }
                        }
                        done = true;
                    }
                },
                Err(e) => {
                    return Err(e);
                },
            }
        }
        // Emit the store requests for every ancestor whose hash changed,
        // bottom-up: delete the old object, put the new one under its
        // parent's final hash.
        let ghost m_done = self@;
        let n_changed = changed.len();
        let mut i: usize = 0;
        while i < n_changed
            invariant
                wf(self@),
                self@ == m_done,
                n_changed == changed@.len(),
                i <= n_changed,
                ops_prefix(old(ops)@, ops@),
                forall|i2: int|
                    0 <= i2 < i ==> ops_delete_hash(ops@, (#[trigger] changed@[i2]).1@) && (
                    has_ino(self@.entries, changed@[i2].0) ==> ops_put_entry(
                        ops@,
                        self@,
                        idx_of(self@.entries, changed@[i2].0),
                    )),
            decreases n_changed - i,
        {
            let ino = changed[i].0;
            let k = match self.cache.find_ino(ino) {
                Some(k) => k,
                None => {
                    return Err(FsError::StructuralCorruption);
                },
            };
            proof {
                lemma_idx_unique(self@.entries, k as int, ino);
                assert(entry_shape_ok(self@, k as int));
            }
            let ghost ops_at_entry = ops@;
            let ghost j_del = ops@.len() as int;
            let del = crate::api::op_delete(&changed[i].1);
            ops.push(del);
            let ghost j_put = ops@.len() as int;
            let is_dir_k = self.cache.entries[k].file.xattr.attr.kind == FileKind::Directory;
            if ino == 1 {
                let put = crate::api::op_put_root(
                    &self.cache.entries[k].hash,
                    &self.cache.entries[k].meta_env,
                );
                ops.push(put);
            } else {
                let par = self.cache.entries[k].file.xattr.parent_ino;
                let kp = match self.cache.find_ino(par) {
                    Some(kp) => kp,
                    None => {
                        proof {
                            assert(false);
                        }
                        return Err(FsError::StructuralCorruption);
                    },
                };
                proof {
                    lemma_idx_unique(self@.entries, kp as int, par);
                }
                let put = crate::api::op_put_node(
                    &self.cache.entries[k].hash,
                    &self.cache.entries[kp].hash,
                    &self.cache.entries[k].meta_env,
                    is_dir_k,
                );
                ops.push(put);
            }
            let ghost j_data = ops@.len() as int;
            if !is_dir_k && self.cache.entries[k].file.data.len() > 0 {
                let putd = crate::api::op_put_data(
                    &self.cache.entries[k].hash,
                    &self.cache.entries[k].payload_env,
                );
                ops.push(putd);
            }
            proof {
                assert(ops_prefix(ops_at_entry, ops@));
                assert(crate::api::op_is_delete(ops@[j_del], changed@[i as int].1@));
                let e = self@.entries[k as int];
                if e.ino() == 1 {
                    assert(crate::api::op_is_put_root(ops@[j_put], e.hash, e.meta_env));
                } else {
                    assert(crate::api::op_is_put_node(
                        ops@[j_put],
                        e.hash,
                        entry_of(self@.entries, e.parent()).hash,
                        e.meta_env,
                        e.is_dir(),
                    ));
                }
                if !e.is_dir() && e.file.data.len() > 0 {
                    assert(crate::api::op_is_put_data(ops@[j_data], e.hash, e.payload_env));
                }
                assert(ops_put_entry(ops@, self@, k as int));
                assert forall|i2: int|
                    0 <= i2 < i + 1 implies ops_delete_hash(ops@, (#[trigger] changed@[i2]).1@)
                    && (has_ino(self@.entries, changed@[i2].0) ==> ops_put_entry(
                    ops@,
                    self@,
                    idx_of(self@.entries, changed@[i2].0),
                )) by {
                    if i2 < i {
                        lemma_ops_grow_delete(ops_at_entry, ops@, changed@[i2].1@);
                        if has_ino(self@.entries, changed@[i2].0) {
                            lemma_ops_grow_put(
                                ops_at_entry,
                                ops@,
                                self@,
                                idx_of(self@.entries, changed@[i2].0),
                            );
                        }
                    } else {
                        assert(ops_delete_hash(ops@, changed@[i2].1@));
                        assert(idx_of(self@.entries, ino) == k as int);
                    }
                }
            }
            i = i + 1;
        }
        proof {
            assert forall|k: int|
                0 <= k < old(self)@.entries.len() && (#[trigger] self@.entries[k]).hash != old(self)@.entries[k].hash implies ops_delete_hash(ops@, old(self)@.entries[k].hash)
                && ops_put_entry(ops@, self@, k) by {
                let i2 = choose|i2: int|
                    0 <= i2 < changed@.len() && (#[trigger] changed@[i2]).0 == old(self)@.entries[k].ino() && changed@[i2].1@ == old(self)@.entries[k].hash;
                assert(ops_delete_hash(ops@, changed@[i2].1@));
                assert(self@.entries[k].ino() == old(self)@.entries[k].ino());
                lemma_idx_unique(self@.entries, k, self@.entries[k].ino());
                assert(has_ino(self@.entries, changed@[i2].0));
                assert(idx_of(self@.entries, changed@[i2].0) == k);
            }
            assert(reputs_covered(old(self)@, self@, ops@));
        }
        Ok(())
    }

    /// Replaces one cached node with a re-encrypted version of itself —
    /// same inode, parent, name and kind, possibly new attributes and
    /// payload — recomputes its hash, propagates the change to the root,
    /// and records the store requests: delete the old object, put the new
    /// one, and upload the payload envelope for a file that holds data.
    #[verifier::rlimit(100)]
    fn rehash_node(
        &mut self,
        ino: u64,
        new_file: File,
        meta_nonce: &Vec<u8>,
        payload_nonce: &Vec<u8>,
        ops: &mut Vec<StoreOp>,
    ) -> (r: Result<FileAttr, FsError>)
        requires
            wf(old(self)@),
            has_ino(old(self)@.entries, ino),
            meta_nonce@.len() == 24,
            payload_nonce@.len() == 24,
            new_file@.xattr.attr.ino == ino,
            new_file@.xattr.parent_ino == entry_of(old(self)@.entries, ino).parent(),
            new_file@.xattr.file_name == entry_of(old(self)@.entries, ino).name(),
            new_file@.xattr.attr.kind == entry_of(old(self)@.entries, ino).file.xattr.attr.kind,
            new_file@.xattr.attr.size == new_file@.data.len(),
            new_file@.data.len() < 0x2000000000,
            new_file@.xattr.file_name.len() < 0x100000,
            new_file@.xattr.attr.kind == FileKind::Directory ==> new_file@.data.len() == 0,
        ensures
            r matches Ok(a) ==> {
                &&& wf(final(self)@)
                &&& a == new_file@.xattr.attr
                &&& has_ino(final(self)@.entries, ino)
                &&& entry_of(final(self)@.entries, ino).file == new_file@
                &&& final(self)@.entries.len() == old(self)@.entries.len()
                &&& final(self)@.key == old(self)@.key
                &&& final(self)@.top_ino == old(self)@.top_ino
                &&& forall|k: int|
                    0 <= k < old(self)@.entries.len() ==> (#[trigger] final(self)@.entries[k]).ino() == old(self)@.entries[k].ino()
                &&& forall|k: int|
                    0 <= k < old(self)@.entries.len() && (#[trigger] final(self)@.entries[k]).file
                        != old(self)@.entries[k].file ==> old(self)@.entries[k].ino() == ino
                &&& forall|k: int|
                    0 <= k < old(self)@.entries.len() && (#[trigger] final(self)@.entries[k]).hash
                        != old(self)@.entries[k].hash ==> old(self)@.entries[k].ino() == ino
                        || ancestors(old(self)@, ino).contains(old(self)@.entries[k].ino())
                &&& ops_prefix(old(ops)@, final(ops)@)
                &&& reputs_covered(old(self)@, final(self)@, final(ops)@)
                &&& ops_delete_hash(final(ops)@, entry_of(old(self)@.entries, ino).hash)
                &&& ops_put_entry(final(ops)@, final(self)@, idx_of(final(self)@.entries, ino))
                &&& (entry_of(final(self)@.entries, ino).hash == entry_of(
                    old(self)@.entries,
                    ino,
                ).hash || !has_hash(final(self)@.entries, entry_of(old(self)@.entries, ino).hash))
                &&& entry_of(final(self)@.entries, ino).meta_env == crate::crypto::seal_spec(
                    crate::attr::serial_attr(new_file@.xattr),
                    old(self)@.key,
                    meta_nonce@,
                )
                &&& (new_file@.xattr.attr.kind != FileKind::Directory && new_file@.data.len() > 0
                    ==> entry_of(final(self)@.entries, ino).payload_env
                    == crate::crypto::seal_spec(new_file@.data, old(self)@.key, payload_nonce@))
            },
            r matches Err(e) ==> e == FsError::StructuralCorruption,
    {
        let k = match self.cache.find_ino(ino) {
            Some(k) => k,
            None => {
                proof {
                    assert(false);
                }
                return Err(FsError::StructuralCorruption);
            },
        };
        proof {
            lemma_idx_unique(self@.entries, k as int, ino);
            assert(entry_shape_ok(self@, k as int));
            assert(link_ok(self@, k as int));
        }
        let is_dir = match new_file.xattr.attr.kind {
            FileKind::Directory => true,
            FileKind::RegularFile => false,
        };
        let a = new_file.xattr.attr;
        let children = crate::cache::clone_children(&self.cache.entries[k].children);
        let (new_hash, meta_env, payload_env) = if is_dir {
            let plain = crate::attr::serialize_xattr(&new_file.xattr);
            proof {
                crate::attr::lemma_u64s_bytes_len(crate::attr::attr_fields(new_file.xattr@));
            }
            let env = crate::crypto::seal_envelope(&plain, &self.key, meta_nonce);
            let h = crate::crypto::hash_of_dir(&env, &children);
            (h, env, Vec::new())
        } else {
            crate::crypto::encrypt_and_hash_file(&new_file, &self.key, meta_nonce, payload_nonce)
        };
        let old_hash = self.cache.entries[k].hash.clone();
        proof {
            assert(old_hash@ =~= self@.entries[k as int].hash);
            assert(crate::crypto::views_of(children@) == self@.entries[k as int].children);
        }
        let ghost prev = self@;
        let data_len = new_file.data.len();
        let hash_same = new_hash == old_hash;
        proof {
            if hash_same {
                assert(new_hash@ =~= old_hash@);
            } else {
                if new_hash@ == old_hash@ {
                    assert(new_hash.eq_spec(&old_hash));
                    assert(false);
                }
            }
            assert(hash_same == (new_hash@ == old_hash@));
        }
        if !hash_same {
            match self.cache.find_hash(new_hash.as_slice()) {
                Some(_) => {
                    return Err(FsError::StructuralCorruption);
                },
                None => {},
            }
            if ino != 1 {
                let p_ino = new_file.xattr.parent_ino;
                let k_p = match self.cache.find_ino(p_ino) {
                    Some(kp) => kp,
                    None => {
                        proof {
                            assert(false);
                        }
                        return Err(FsError::StructuralCorruption);
                    },
                };
                proof {
                    lemma_idx_unique(self@.entries, k_p as int, p_ino);
                }
                if crate::cache::contains_hash(
                    &self.cache.entries[k_p].children,
                    new_hash.as_slice(),
                ) {
                    return Err(FsError::StructuralCorruption);
                }
            }
        }
        let ghost new_hash_view = new_hash@;
        let e = Entry {
            hash: new_hash,
            file: new_file,
            meta_env,
            payload_env,
            children,
        };
        self.cache.set_entry(k, e);
        proof {
            let m = self@;
            assert(m.entries == prev.entries.update(k as int, e@));
            assert(e@.ino() == ino && e@.parent() == prev.entries[k as int].parent() && e@.name()
                == prev.entries[k as int].name());
            assert(e@.is_dir() == prev.entries[k as int].is_dir());
            assert(uniq(m.entries)) by {
                assert forall|i: int, j: int| 0 <= i < j < m.entries.len() implies (
                #[trigger] m.entries[i]).ino() != (#[trigger] m.entries[j]).ino()
                    && m.entries[i].hash != m.entries[j].hash && !(m.entries[i].parent()
                    == m.entries[j].parent() && m.entries[i].name() == m.entries[j].name()) by {
                    assert(prev.entries[i].ino() != prev.entries[j].ino() && prev.entries[i].hash
                        != prev.entries[j].hash && !(prev.entries[i].parent()
                        == prev.entries[j].parent() && prev.entries[i].name()
                        == prev.entries[j].name()));
                    if !hash_same {
                        if i == k as int {
                            assert(prev.entries[j].hash != new_hash_view);
                        }
                        if j == k as int {
                            assert(prev.entries[i].hash != new_hash_view);
                        }
                    }
                }
            }
            assert forall|kk: int| 0 <= kk < m.entries.len() implies #[trigger] entry_shape_ok(
                m,
                kk,
            ) by {
                if kk != k as int {
                    lemma_shape_transfer(prev, m, kk);
                } else {
                    assert(entry_shape_ok(prev, k as int));
                    lemma_has_ino_eq(prev.entries, m.entries, m.entries[kk].parent());
                    if m.entries[kk].ino() != 1 {
                        let kp2 = idx_of(prev.entries, prev.entries[kk].parent());
                        lemma_idx_unique(m.entries, kp2, m.entries[kk].parent());
                        lemma_idx_unique(prev.entries, kp2, prev.entries[kk].parent());
                    }
                    if e@.is_dir() {
                        assert(m.entries[kk].children == prev.entries[k as int].children);
                        assert(children_ok(m.entries[kk].children));
                        assert(m.entries[kk].hash == dir_hash_of(
                            m.entries[kk].meta_env,
                            m.entries[kk].children,
                        ));
                    } else {
                        assert(m.entries[kk].hash == node_hash_of(
                            m.entries[kk].meta_env,
                            file_slot(m.entries[kk]),
                        ));
                    }
                }
            }
            assert forall|kk: int|
                0 <= kk < m.entries.len() && (#[trigger] m.entries[kk]).ino() != ino implies
                link_ok(m, kk) by {
                let e2 = m.entries[kk];
                if e2.ino() != 1 {
                    assert(entry_shape_ok(prev, kk));
                    assert(prev.entries[kk].parent() == e2.parent());
                    assert(has_ino(prev.entries, e2.parent()));
                    let kpar = idx_of(prev.entries, e2.parent());
                    lemma_idx_unique(prev.entries, kpar, e2.parent());
                    lemma_idx_unique(m.entries, kpar, e2.parent());
                    assert(link_ok(prev, kk));
                    assert(prev.entries[kk].hash == e2.hash);
                    if kpar == k as int {
                        assert(m.entries[kpar].children == prev.entries[kpar].children);
                    } else {
                        assert(m.entries[kpar] == prev.entries[kpar]);
                    }
                }
            }
        }
        let ghost at_dirty_all = self@;
        if hash_same {
            proof {
                let m = self@;
                assert(m.entries[k as int].hash == prev.entries[k as int].hash);
                assert forall|kk: int| 0 <= kk < m.entries.len() implies #[trigger] link_ok(
                    m,
                    kk,
                ) by {
                    let e2 = m.entries[kk];
                    if e2.ino() != 1 && e2.ino() == ino {
                        assert(kk == k as int);
                        assert(entry_shape_ok(prev, kk));
                        assert(has_ino(prev.entries, e2.parent()));
                        let kpar = idx_of(prev.entries, e2.parent());
                        lemma_idx_unique(prev.entries, kpar, e2.parent());
                        lemma_idx_unique(m.entries, kpar, e2.parent());
                        assert(link_ok(prev, kk));
                        if kpar == k as int {
                            assert(m.entries[kpar].children == prev.entries[kpar].children);
                        } else {
                            assert(m.entries[kpar] == prev.entries[kpar]);
                        }
                    }
                }
                assert(root_ok(self@)) by {
                    assert(root_ok(prev));
                    if prev.root_hash is Some {
                        let kr = idx_of(prev.entries, 1);
                        lemma_idx_unique(prev.entries, kr, 1);
                        lemma_idx_unique(self@.entries, kr, 1);
                        assert(self@.entries[kr].hash == prev.entries[kr].hash);
                    } else {
                        lemma_has_ino_eq(prev.entries, self@.entries, 1);
                    }
                }
                assert(wf(self@));
            }
        } else {
            proof {
                let m = self@;
                assert(has_ino(m.entries, ino));
                assert(entry_of(m.entries, ino) == m.entries[k as int]);
                assert(!has_hash(m.entries, old_hash@)) by {
                    if has_hash(m.entries, old_hash@) {
                        let kk = choose|kk: int|
                            0 <= kk < m.entries.len() && (#[trigger] m.entries[kk]).hash
                                == old_hash@;
                        assert(kk != k as int);
                        assert(prev.entries[kk].hash == old_hash@);
                        assert(prev.entries[k as int].hash == old_hash@);
                        if kk < k as int {
                            assert(prev.entries[kk].hash != prev.entries[k as int].hash);
                        } else {
                            assert(prev.entries[k as int].hash != prev.entries[kk].hash);
                        }
                    }
                }
                if ino != 1 {
                    let par = m.entries[k as int].parent();
                    assert(has_ino(prev.entries, par));
                    let kpar = idx_of(prev.entries, par);
                    lemma_idx_unique(prev.entries, kpar, par);
                    lemma_idx_unique(m.entries, kpar, par);
                    assert(kpar != k as int);
                    assert(m.entries[kpar] == prev.entries[kpar]);
                    assert(!m.entries[kpar].children.contains(new_hash_view));
                    assert(link_ok(prev, k as int));
                    assert(m.entries[kpar].children.contains(old_hash@));
                    assert(root_ok(m)) by {
                        assert(root_ok(prev));
                        if prev.root_hash is Some {
                            let kr = idx_of(prev.entries, 1);
                            lemma_idx_unique(prev.entries, kr, 1);
                            lemma_idx_unique(m.entries, kr, 1);
                            assert(kr != k as int);
                        } else {
                            lemma_has_ino_eq(prev.entries, m.entries, 1);
                        }
                    }
                } else {
                    assert(root_ok(prev));
                    let kr = idx_of(prev.entries, 1);
                    lemma_idx_unique(prev.entries, kr, 1);
                    assert(kr == k as int);
                    assert(prev.root_hash == Option::Some(old_hash@));
                    lemma_idx_unique(m.entries, kr, 1);
                }
                assert(wf_dirty(m, ino, Option::Some(old_hash@)));
            }
            let ghost at_dirty = self@;
            match self.update_parent_hashes(ino, Some(&old_hash), ops) {
                Ok(()) => {},
                Err(e2) => {
                    return Err(FsError::StructuralCorruption);
                },
            }
            proof {
                assert(self@.entries[k as int].file == at_dirty.entries[k as int].file);
                lemma_anc_same(at_dirty, old(self)@, ino);
                assert(ancestors(at_dirty, ino) == ancestors(old(self)@, ino));
            }
        }
        let ghost ops_mid = ops@;
        proof {
            if hash_same {
                assert(self@ == at_dirty_all);
            }
        }
        // The node's own store requests, under its parent's final hash.
        proof {
            lemma_idx_unique(self@.entries, k as int, ino);
            assert(entry_shape_ok(self@, k as int));
        }
        let ghost ops_before_leaf = ops@;
        let ghost j_del = ops@.len() as int;
        let del = crate::api::op_delete(&old_hash);
        ops.push(del);
        let ghost j_put = ops@.len() as int;
        if ino == 1 {
            let put = crate::api::op_put_root(
                &self.cache.entries[k].hash,
                &self.cache.entries[k].meta_env,
            );
            ops.push(put);
        } else {
            let par = self.cache.entries[k].file.xattr.parent_ino;
            let kp = match self.cache.find_ino(par) {
                Some(kp) => kp,
                None => {
                    proof {
                        assert(false);
                    }
                    return Err(FsError::StructuralCorruption);
                },
            };
            proof {
                lemma_idx_unique(self@.entries, kp as int, par);
            }
            let put = crate::api::op_put_node(
                &self.cache.entries[k].hash,
                &self.cache.entries[kp].hash,
                &self.cache.entries[k].meta_env,
                is_dir,
            );
            ops.push(put);
        }
        let ghost j_data = ops@.len() as int;
        if !is_dir && data_len > 0 {
            let putd = crate::api::op_put_data(
                &self.cache.entries[k].hash,
                &self.cache.entries[k].payload_env,
            );
            ops.push(putd);
        }
        proof {
            assert(entry_of(self@.entries, ino) == self@.entries[k as int]);
            let e = self@.entries[k as int];
            assert(crate::api::op_is_delete(ops@[j_del], old_hash@));
            assert(ops_delete_hash(ops@, old_hash@));
            if e.ino() == 1 {
                assert(crate::api::op_is_put_root(ops@[j_put], e.hash, e.meta_env));
            } else {
                assert(crate::api::op_is_put_node(
                    ops@[j_put],
                    e.hash,
                    entry_of(self@.entries, e.parent()).hash,
                    e.meta_env,
                    e.is_dir(),
                ));
            }
            if !e.is_dir() && e.file.data.len() > 0 {
                assert(crate::api::op_is_put_data(ops@[j_data], e.hash, e.payload_env));
            }
            assert(ops_put_entry(ops@, self@, k as int));
            assert(idx_of(self@.entries, ino) == k as int);
            // Every hash that changed is covered: the leaf by the pushes
            // above, each ancestor by the propagation's own requests.
            assert forall|kk: int|
                0 <= kk < old(self)@.entries.len() && (#[trigger] self@.entries[kk]).hash != old(self)@.entries[kk].hash implies ops_delete_hash(ops@, old(self)@.entries[kk].hash)
                && ops_put_entry(ops@, self@, kk) by {
                if kk == k as int {
                    assert(old(self)@.entries[kk].hash == old_hash@);
                } else {
                    assert(self@.entries[kk].hash != at_dirty_all.entries[kk].hash
                        || at_dirty_all.entries[kk].hash != old(self)@.entries[kk].hash);
                    assert(at_dirty_all.entries[kk].hash == old(self)@.entries[kk].hash);
                    lemma_ops_grow_delete(ops_mid, ops@, old(self)@.entries[kk].hash);
                    lemma_ops_grow_put(ops_mid, ops@, self@, kk);
                }
            }
            assert(reputs_covered(old(self)@, self@, ops@));
        }
        Ok(a)
    }

    /// Writes bytes into a file at an offset, growing it as needed,
    /// updating its size and block count, re-encrypting and re-hashing
    /// it, and propagating the new hash to the root.  A start beyond the
    /// current end is rejected.
    pub fn write(
        &mut self,
        ino: u64,
        offset: u64,
        data: &[u8],
        meta_nonce: &Vec<u8>,
        payload_nonce: &Vec<u8>,
        ops: &mut Vec<StoreOp>,
    ) -> (r: Result<u32, FsError>)
        requires
            wf(old(self)@),
            meta_nonce@.len() == 24,
            payload_nonce@.len() == 24,
            data@.len() <= u32::MAX,
            offset + data@.len() <= usize::MAX,
            offset + data@.len() < 0x2000000000,
        ensures
            r matches Ok(w) ==> {
                &&& wf(final(self)@)
                &&& w == data@.len()
                &&& has_ino(final(self)@.entries, ino)
                &&& entry_of(final(self)@.entries, ino).file.data
                    == crate::codec::splice_spec(
                    entry_of(old(self)@.entries, ino).file.data,
                    offset as int,
                    data@,
                )
                &&& entry_of(final(self)@.entries, ino).file.xattr.attr.size == entry_of(
                    final(self)@.entries,
                    ino,
                ).file.data.len()
                &&& final(self)@.entries.len() == old(self)@.entries.len()
                &&& forall|k: int|
                    0 <= k < old(self)@.entries.len() ==> (#[trigger] final(self)@.entries[k]).ino() == old(self)@.entries[k].ino()
                &&& forall|k: int|
                    0 <= k < old(self)@.entries.len() && (#[trigger] final(self)@.entries[k]).file
                        != old(self)@.entries[k].file ==> old(self)@.entries[k].ino() == ino
            },
            r matches Ok(w) ==> {
                &&& final(self)@.key == old(self)@.key
                &&& final(self)@.top_ino == old(self)@.top_ino
                &&& entry_of(final(self)@.entries, ino).file.xattr.attr == FileAttr {
                    size: entry_of(final(self)@.entries, ino).file.data.len() as u64,
                    blocks: (entry_of(final(self)@.entries, ino).file.data.len() as u64) / 4096,
                    ..entry_of(old(self)@.entries, ino).file.xattr.attr
                }
                &&& forall|k: int|
                    0 <= k < old(self)@.entries.len() && (#[trigger] final(self)@.entries[k]).hash
                        != old(self)@.entries[k].hash ==> old(self)@.entries[k].ino() == ino
                        || ancestors(old(self)@, ino).contains(old(self)@.entries[k].ino())
                &&& ops_prefix(old(ops)@, final(ops)@)
                &&& reputs_covered(old(self)@, final(self)@, final(ops)@)
                &&& ops_delete_hash(final(ops)@, entry_of(old(self)@.entries, ino).hash)
                &&& ops_put_entry(final(ops)@, final(self)@, idx_of(final(self)@.entries, ino))
                &&& (entry_of(final(self)@.entries, ino).hash == entry_of(
                    old(self)@.entries,
                    ino,
                ).hash || !has_hash(final(self)@.entries, entry_of(old(self)@.entries, ino).hash))
                &&& entry_of(final(self)@.entries, ino).meta_env == crate::crypto::seal_spec(
                    crate::attr::serial_attr(entry_of(final(self)@.entries, ino).file.xattr),
                    old(self)@.key,
                    meta_nonce@,
                )
                &&& (entry_of(final(self)@.entries, ino).file.data.len() > 0 ==> entry_of(
                    final(self)@.entries,
                    ino,
                ).payload_env == crate::crypto::seal_spec(
                    entry_of(final(self)@.entries, ino).file.data,
                    old(self)@.key,
                    payload_nonce@,
                ))
            },
            r is Err ==> final(self)@ == old(self)@ && final(ops)@ == old(ops)@,
            has_ino(old(self)@.entries, ino) && !entry_of(old(self)@.entries, ino).is_dir()
                && offset <= entry_of(old(self)@.entries, ino).file.data.len() ==> (r is Ok || r
                == Result::<u32, FsError>::Err(FsError::StructuralCorruption)),
            r == Result::<u32, FsError>::Err(FsError::NoEnt) <==> !has_ino(
                old(self)@.entries,
                ino,
            ),
            r == Result::<u32, FsError>::Err(FsError::Inval) <==> has_ino(old(self)@.entries, ino)
                && (entry_of(old(self)@.entries, ino).is_dir() || offset > entry_of(
                old(self)@.entries,
                ino,
            ).file.data.len()),
            r matches Err(e) ==> e == FsError::NoEnt || e == FsError::Inval || e
                == FsError::StructuralCorruption,
    {
        let k = match self.cache.find_ino(ino) {
            Some(k) => k,
            None => {
                return Err(FsError::NoEnt);
            },
        };
        proof {
            lemma_idx_unique(self@.entries, k as int, ino);
            assert(entry_shape_ok(self@, k as int));
        }
        let kind = self.cache.entries[k].file.xattr.attr.kind;
        if kind == FileKind::Directory {
            return Err(FsError::Inval);
        }
        let cur_len = self.cache.entries[k].file.data.len();
        if offset > cur_len as u64 {
            return Err(FsError::Inval);
        }
        let new_data = crate::codec::splice(
            &self.cache.entries[k].file.data,
            offset as usize,
            data,
        );
        let new_len = new_data.len();
        let old_attr = self.cache.entries[k].file.xattr.attr;
        let new_attr = FileAttr {
            size: new_len as u64,
            blocks: (new_len as u64) / 4096,
            ..old_attr
        };
        let name = self.cache.entries[k].file.xattr.file_name.clone();
        proof {
            assert(name@ =~= self@.entries[k as int].name());
        }
        let new_xattr = XFileAttr {
            attr: new_attr,
            file_name: name,
            parent_ino: self.cache.entries[k].file.xattr.parent_ino,
        };
        let new_file = File { xattr: new_xattr, data: new_data };
        let mut scratch = self.clone_state();
        let mut new_ops: Vec<StoreOp> = Vec::new();
        match scratch.rehash_node(ino, new_file, meta_nonce, payload_nonce, &mut new_ops) {
            Ok(_) => {
                let ghost pre_ops = ops@;
                let ghost suf = new_ops@;
                let ghost m_new = scratch@;
                *self = scratch;
                ops.append(&mut new_ops);
                proof {
                    assert(ops@ == pre_ops + suf);
                    assert(self@ == m_new);
                    lemma_ops_shift_covered(pre_ops, suf, old(self)@, m_new);
                    lemma_ops_shift_delete(pre_ops, suf, entry_of(old(self)@.entries, ino).hash);
                    lemma_ops_shift_put(pre_ops, suf, m_new, idx_of(m_new.entries, ino));
                }
                Ok(data.len() as u32)
            },
            Err(e) => Err(e),
        }
    }

    /// Creates a new node — a regular file or a directory — under a
    /// cached parent directory: allocates the next inode, builds and
    /// encrypts the node, installs it in all three indices, links it into
    /// the parent's child list, and propagates the parent's new hash to
    /// the root.
    #[verifier::rlimit(100)]
    fn create_node(
        &mut self,
        parent: u64,
        name: &[u8],
        mode: u16,
        kind: FileKind,
        now: u64,
        nonce: &Vec<u8>,
        ops: &mut Vec<StoreOp>,
    ) -> (r: Result<FileAttr, FsError>)
        requires
            wf(old(self)@),
            nonce@.len() == 24,
            name@.len() < 0x100000,
            old(self)@.top_ino < u64::MAX,
        ensures
            r matches Ok(a) ==> {
                &&& wf(final(self)@)
                &&& a.ino == old(self)@.top_ino + 1
                &&& final(self)@.top_ino == old(self)@.top_ino + 1
                &&& a.size == 0
                &&& a.kind == kind
                &&& a.perm == mode
                &&& a.atime == now && a.mtime == now && a.ctime == now && a.crtime == now
                &&& a.uid == 0 && a.gid == 0 && a.nlink == 0 && a.rdev == 0 && a.flags == 0
                &&& has_name(final(self)@.entries, parent, name@)
                &&& has_ino(final(self)@.entries, a.ino)
                &&& entry_of(final(self)@.entries, a.ino).file.xattr.attr == a
                &&& entry_of(final(self)@.entries, a.ino).file.data.len() == 0
                &&& entry_of(final(self)@.entries, a.ino).parent() == parent
                &&& entry_of(final(self)@.entries, a.ino).name() == name@
                &&& final(self)@.entries.len() == old(self)@.entries.len() + 1
                &&& forall|k: int|
                    0 <= k < old(self)@.entries.len() ==> (#[trigger] final(self)@.entries[k]).ino() == old(self)@.entries[k].ino() && final(self)@.entries[k].file == old(self)@.entries[k].file
                &&& final(self)@.key == old(self)@.key
                &&& ops_prefix(old(ops)@, final(ops)@)
                &&& reputs_covered(old(self)@, final(self)@, final(ops)@)
                &&& ops_put_entry(final(ops)@, final(self)@, idx_of(final(self)@.entries, a.ino))
                &&& entry_of(final(self)@.entries, a.ino).meta_env == crate::crypto::seal_spec(
                    crate::attr::serial_attr(entry_of(final(self)@.entries, a.ino).file.xattr),
                    old(self)@.key,
                    nonce@,
                )
            },
            r == Result::<FileAttr, FsError>::Err(FsError::NoEnt) <==> !has_ino(
                old(self)@.entries,
                parent,
            ),
            r == Result::<FileAttr, FsError>::Err(FsError::NotDir) <==> has_ino(
                old(self)@.entries,
                parent,
            ) && !entry_of(old(self)@.entries, parent).is_dir(),
            r == Result::<FileAttr, FsError>::Err(FsError::Exist) <==> has_ino(
                old(self)@.entries,
                parent,
            ) && entry_of(old(self)@.entries, parent).is_dir() && has_name(
                old(self)@.entries,
                parent,
                name@,
            ),
            has_ino(old(self)@.entries, parent) && entry_of(old(self)@.entries, parent).is_dir()
                && !has_name(old(self)@.entries, parent, name@) ==> (r is Ok || r == Result::<
                FileAttr,
                FsError,
            >::Err(FsError::StructuralCorruption)),
            r matches Err(e) ==> e == FsError::NoEnt || e == FsError::NotDir || e == FsError::Exist
                || e == FsError::StructuralCorruption,
    {
        let k_p = match self.cache.find_ino(parent) {
            Some(k) => k,
            None => {
                return Err(FsError::NoEnt);
            },
        };
        proof {
            lemma_idx_unique(self@.entries, k_p as int, parent);
            assert(entry_shape_ok(self@, k_p as int));
        }
        let p_kind = self.cache.entries[k_p].file.xattr.attr.kind;
        if p_kind != FileKind::Directory {
            return Err(FsError::NotDir);
        }
        match self.cache.find_name(parent, name) {
            Some(_) => {
                return Err(FsError::Exist);
            },
            None => {},
        }
        let new_ino = self.top_ino + 1;
        let attr = FileAttr {
            ino: new_ino,
            size: 0,
            blocks: 0,
            atime: now,
            mtime: now,
            ctime: now,
            crtime: now,
            kind,
            perm: mode,
            nlink: 0,
            uid: 0,
            gid: 0,
            rdev: 0,
            flags: 0,
        };
        let xattr = XFileAttr {
            attr,
            file_name: vstd::slice::slice_to_vec(name),
            parent_ino: parent,
        };
        let plain = crate::attr::serialize_xattr(&xattr);
        proof {
            crate::attr::lemma_u64s_bytes_len(crate::attr::attr_fields(xattr@));
        }
        let meta_env = crate::crypto::seal_envelope(&plain, &self.key, nonce);
        let h = crate::crypto::node_hash(&meta_env, None);
        match self.cache.find_hash(h.as_slice()) {
            Some(_) => {
                return Err(FsError::StructuralCorruption);
            },
            None => {},
        }
        if crate::cache::contains_hash(&self.cache.entries[k_p].children, h.as_slice()) {
            return Err(FsError::StructuralCorruption);
        }
        let ghost prev = self@;
        let ghost hview = h@;
        let e = Entry {
            hash: h,
            file: File { xattr, data: Vec::new() },
            meta_env,
            payload_env: Vec::new(),
            children: Vec::new(),
        };
        self.cache.push_entry(e);
        self.top_ino = new_ino;
        proof {
            let m = self@;
            let last = prev.entries.len() as int;
            assert(m.entries == prev.entries.push(e@));
            assert(m.entries[last] == e@);
            assert(e@.ino() == new_ino);
            assert(uniq(m.entries)) by {
                assert forall|i: int, j: int| 0 <= i < j < m.entries.len() implies (
                #[trigger] m.entries[i]).ino() != (#[trigger] m.entries[j]).ino()
                    && m.entries[i].hash != m.entries[j].hash && !(m.entries[i].parent()
                    == m.entries[j].parent() && m.entries[i].name() == m.entries[j].name()) by {
                    if j == last {
                        assert(entry_shape_ok(prev, i));
                        assert(prev.entries[i].ino() <= prev.top_ino);
                        assert(!has_hash(prev.entries, hview));
                        assert(prev.entries[i].hash != hview);
                        assert(!has_name(prev.entries, parent, name@));
                        assert(!(prev.entries[i].parent() == parent && prev.entries[i].name()
                            == name@));
                    } else {
                        assert(prev.entries[i].ino() != prev.entries[j].ino()
                            && prev.entries[i].hash != prev.entries[j].hash && !(
                        prev.entries[i].parent() == prev.entries[j].parent()
                            && prev.entries[i].name() == prev.entries[j].name()));
                    }
                }
            }
            assert forall|kk: int| 0 <= kk < m.entries.len() implies #[trigger] entry_shape_ok(
                m,
                kk,
            ) by {
                if kk != last {
                    assert(entry_shape_ok(prev, kk));
                    lemma_shape_push(prev, m, kk);
                } else {
                    assert(m.entries[kk].ino() == new_ino);
                    assert(m.entries[kk].parent() == parent);
                    assert(parent <= prev.top_ino);
                    lemma_idx_unique(m.entries, k_p as int, parent);
                    assert(entry_of(m.entries, parent) == m.entries[k_p as int]);
                    assert(m.entries[k_p as int].is_dir());
                    assert(m.entries[kk].children =~= Seq::<Seq<u8>>::empty());
                    if m.entries[kk].is_dir() {
                        assert(m.entries[kk].hash == dir_hash_of(
                            m.entries[kk].meta_env,
                            m.entries[kk].children,
                        ));
                    } else {
                        assert(m.entries[kk].hash == node_hash_of(
                            m.entries[kk].meta_env,
                            file_slot(m.entries[kk]),
                        ));
                    }
                }
            }
            assert forall|kk: int|
                0 <= kk < m.entries.len() && (#[trigger] m.entries[kk]).ino() != new_ino implies
                link_ok(m, kk) by {
                assert(kk != last);
                assert(entry_shape_ok(prev, kk));
                assert(link_ok(prev, kk));
                lemma_shape_push(prev, m, kk);
            }
            assert(has_ino(m.entries, new_ino)) by {
                assert(m.entries[last].ino() == new_ino);
            }
            lemma_idx_unique(m.entries, last, new_ino);
            assert(entry_of(m.entries, new_ino) == m.entries[last]);
            lemma_idx_unique(m.entries, k_p as int, parent);
            assert(!entry_of(m.entries, parent).children.contains(hview));
            assert(root_ok(m)) by {
                assert(root_ok(prev));
                if prev.root_hash is Some {
                    let kr = idx_of(prev.entries, 1);
                    lemma_idx_unique(prev.entries, kr, 1);
                    lemma_idx_unique(m.entries, kr, 1);
                } else {
                    if has_ino(m.entries, 1) {
                        let kr = idx_of(m.entries, 1);
                        if kr != last {
                            assert(prev.entries[kr].ino() == 1);
                            assert(has_ino(prev.entries, 1));
                        }
                    }
                }
            }
            assert(wf_dirty(m, new_ino, Option::None));
        }
        let ghost at_dirty = self@;
        match self.update_parent_hashes(new_ino, None, ops) {
            Ok(()) => {},
            Err(_) => {
                return Err(FsError::StructuralCorruption);
            },
        }
        proof {
            lemma_has_ino_eq(at_dirty.entries, self@.entries, new_ino);
            lemma_has_ino_eq(at_dirty.entries, self@.entries, parent);
            assert(has_ino(self@.entries, new_ino));
            assert(has_ino(self@.entries, parent));
        }
        // The new node's own insert request, under its parent's final hash.
        let k_new = match self.cache.find_ino(new_ino) {
            Some(k) => k,
            None => {
                proof {
                    assert(false);
                }
                return Err(FsError::StructuralCorruption);
            },
        };
        proof {
            lemma_idx_unique(self@.entries, k_new as int, new_ino);
            assert(entry_shape_ok(self@, k_new as int));
        }
        let k_p2 = match self.cache.find_ino(parent) {
            Some(k) => k,
            None => {
                proof {
                    assert(false);
                }
                return Err(FsError::StructuralCorruption);
            },
        };
        proof {
            lemma_idx_unique(self@.entries, k_p2 as int, parent);
        }
        let is_dir = kind == FileKind::Directory;
        let ghost ops_after_update = ops@;
        let ghost j_put = ops@.len() as int;
        let put = crate::api::op_put_node(
            &self.cache.entries[k_new].hash,
            &self.cache.entries[k_p2].hash,
            &self.cache.entries[k_new].meta_env,
            is_dir,
        );
        ops.push(put);
        proof {
            assert(entry_of(self@.entries, new_ino) == self@.entries[k_new as int]);
            assert(has_name(self@.entries, parent, name@)) by {
                assert(self@.entries[k_new as int].parent() == parent
                    && self@.entries[k_new as int].name() == name@);
            }
            let e2 = self@.entries[k_new as int];
            assert(e2.ino() == new_ino && new_ino != 1);
            assert(crate::api::op_is_put_node(
                ops@[j_put],
                e2.hash,
                entry_of(self@.entries, e2.parent()).hash,
                e2.meta_env,
                e2.is_dir(),
            ));
            assert(ops_put_entry(ops@, self@, k_new as int));
            assert(idx_of(self@.entries, new_ino) == k_new as int);
            // Ancestors' requests carry over from the propagation; the
            // entries that existed before are bitwise the prefix of the
            // pushed list.
            assert(ops_prefix(ops_after_update, ops@));
            assert forall|kk: int|
                0 <= kk < old(self)@.entries.len() && (#[trigger] self@.entries[kk]).hash != old(self)@.entries[kk].hash implies ops_delete_hash(ops@, old(self)@.entries[kk].hash)
                && ops_put_entry(ops@, self@, kk) by {
                assert(at_dirty.entries[kk] == prev.entries.push(e@)[kk]);
                assert(at_dirty.entries[kk].hash == old(self)@.entries[kk].hash);
                lemma_ops_grow_delete(ops_after_update, ops@, old(self)@.entries[kk].hash);
                lemma_ops_grow_put(ops_after_update, ops@, self@, kk);
            }
            assert(reputs_covered(old(self)@, self@, ops@));
            assert(entry_of(self@.entries, new_ino).meta_env == e@.meta_env);
        }
        Ok(attr)
    }

    /// Creates a regular file under a directory.
    pub fn create(
        &mut self,
        parent: u64,
        name: &[u8],
        mode: u16,
        now: u64,
        nonce: &Vec<u8>,
        ops: &mut Vec<StoreOp>,
    ) -> (r: Result<FileAttr, FsError>)
        requires
            wf(old(self)@),
            nonce@.len() == 24,
            name@.len() < 0x100000,
            old(self)@.top_ino < u64::MAX,
        ensures
            r matches Ok(a) ==> {
                &&& wf(final(self)@)
                &&& a.ino == old(self)@.top_ino + 1
                &&& final(self)@.top_ino == old(self)@.top_ino + 1
                &&& a.size == 0
                &&& a.kind == FileKind::RegularFile
                &&& a.perm == mode
                &&& a.atime == now && a.mtime == now && a.ctime == now && a.crtime == now
                &&& a.uid == 0 && a.gid == 0 && a.nlink == 0 && a.rdev == 0 && a.flags == 0
                &&& has_name(final(self)@.entries, parent, name@)
                &&& has_ino(final(self)@.entries, a.ino)
                &&& entry_of(final(self)@.entries, a.ino).file.xattr.attr == a
                &&& entry_of(final(self)@.entries, a.ino).file.data.len() == 0
                &&& entry_of(final(self)@.entries, a.ino).parent() == parent
                &&& entry_of(final(self)@.entries, a.ino).name() == name@
                &&& final(self)@.entries.len() == old(self)@.entries.len() + 1
                &&& forall|k: int|
                    0 <= k < old(self)@.entries.len() ==> (#[trigger] final(self)@.entries[k]).ino() == old(self)@.entries[k].ino() && final(self)@.entries[k].file == old(self)@.entries[k].file
                &&& final(self)@.key == old(self)@.key
                &&& ops_prefix(old(ops)@, final(ops)@)
                &&& reputs_covered(old(self)@, final(self)@, final(ops)@)
                &&& ops_put_entry(final(ops)@, final(self)@, idx_of(final(self)@.entries, a.ino))
                &&& entry_of(final(self)@.entries, a.ino).meta_env == crate::crypto::seal_spec(
                    crate::attr::serial_attr(entry_of(final(self)@.entries, a.ino).file.xattr),
                    old(self)@.key,
                    nonce@,
                )
            },
            r is Err ==> final(self)@ == old(self)@ && final(ops)@ == old(ops)@,
            r == Result::<FileAttr, FsError>::Err(FsError::NoEnt) <==> !has_ino(
                old(self)@.entries,
                parent,
            ),
            r == Result::<FileAttr, FsError>::Err(FsError::NotDir) <==> has_ino(
                old(self)@.entries,
                parent,
            ) && !entry_of(old(self)@.entries, parent).is_dir(),
            r == Result::<FileAttr, FsError>::Err(FsError::Exist) <==> has_ino(
                old(self)@.entries,
                parent,
            ) && entry_of(old(self)@.entries, parent).is_dir() && has_name(
                old(self)@.entries,
                parent,
                name@,
            ),
            has_ino(old(self)@.entries, parent) && entry_of(old(self)@.entries, parent).is_dir()
                && !has_name(old(self)@.entries, parent, name@) ==> (r is Ok || r == Result::<
                FileAttr,
                FsError,
            >::Err(FsError::StructuralCorruption)),
            r matches Err(e) ==> e == FsError::NoEnt || e == FsError::NotDir || e == FsError::Exist
                || e == FsError::StructuralCorruption,
    {
        let mut scratch = self.clone_state();
        let mut new_ops: Vec<StoreOp> = Vec::new();
        match scratch.create_node(parent, name, mode, FileKind::RegularFile, now, nonce, &mut new_ops) {
            Ok(a) => {
                let ghost pre_ops = ops@;
                let ghost suf = new_ops@;
                let ghost m_new = scratch@;
                *self = scratch;
                ops.append(&mut new_ops);
                proof {
                    assert(ops@ == pre_ops + suf);
                    assert(self@ == m_new);
                    lemma_ops_shift_covered(pre_ops, suf, old(self)@, m_new);
                    lemma_ops_shift_put(pre_ops, suf, m_new, idx_of(m_new.entries, a.ino));
                }
                Ok(a)
            },
            Err(e) => Err(e),
        }
    }

    /// Creates a directory under a directory.
    pub fn mkdir(
        &mut self,
        parent: u64,
        name: &[u8],
        mode: u16,
        now: u64,
        nonce: &Vec<u8>,
        ops: &mut Vec<StoreOp>,
    ) -> (r: Result<FileAttr, FsError>)
        requires
            wf(old(self)@),
            nonce@.len() == 24,
            name@.len() < 0x100000,
            old(self)@.top_ino < u64::MAX,
        ensures
            r matches Ok(a) ==> {
                &&& wf(final(self)@)
                &&& a.ino == old(self)@.top_ino + 1
                &&& final(self)@.top_ino == old(self)@.top_ino + 1
                &&& a.size == 0
                &&& a.kind == FileKind::Directory
                &&& a.perm == mode
                &&& a.atime == now && a.mtime == now && a.ctime == now && a.crtime == now
                &&& a.uid == 0 && a.gid == 0 && a.nlink == 0 && a.rdev == 0 && a.flags == 0
                &&& has_name(final(self)@.entries, parent, name@)
                &&& has_ino(final(self)@.entries, a.ino)
                &&& entry_of(final(self)@.entries, a.ino).file.xattr.attr == a
                &&& entry_of(final(self)@.entries, a.ino).file.data.len() == 0
                &&& entry_of(final(self)@.entries, a.ino).parent() == parent
                &&& entry_of(final(self)@.entries, a.ino).name() == name@
                &&& final(self)@.entries.len() == old(self)@.entries.len() + 1
                &&& forall|k: int|
                    0 <= k < old(self)@.entries.len() ==> (#[trigger] final(self)@.entries[k]).ino() == old(self)@.entries[k].ino() && final(self)@.entries[k].file == old(self)@.entries[k].file
                &&& final(self)@.key == old(self)@.key
                &&& ops_prefix(old(ops)@, final(ops)@)
                &&& reputs_covered(old(self)@, final(self)@, final(ops)@)
                &&& ops_put_entry(final(ops)@, final(self)@, idx_of(final(self)@.entries, a.ino))
                &&& entry_of(final(self)@.entries, a.ino).meta_env == crate::crypto::seal_spec(
                    crate::attr::serial_attr(entry_of(final(self)@.entries, a.ino).file.xattr),
                    old(self)@.key,
                    nonce@,
                )
            },
            r is Err ==> final(self)@ == old(self)@ && final(ops)@ == old(ops)@,
            r == Result::<FileAttr, FsError>::Err(FsError::NoEnt) <==> !has_ino(
                old(self)@.entries,
                parent,
            ),
            r == Result::<FileAttr, FsError>::Err(FsError::NotDir) <==> has_ino(
                old(self)@.entries,
                parent,
            ) && !entry_of(old(self)@.entries, parent).is_dir(),
            r == Result::<FileAttr, FsError>::Err(FsError::Exist) <==> has_ino(
                old(self)@.entries,
                parent,
            ) && entry_of(old(self)@.entries, parent).is_dir() && has_name(
                old(self)@.entries,
                parent,
                name@,
            ),
            has_ino(old(self)@.entries, parent) && entry_of(old(self)@.entries, parent).is_dir()
                && !has_name(old(self)@.entries, parent, name@) ==> (r is Ok || r == Result::<
                FileAttr,
                FsError,
            >::Err(FsError::StructuralCorruption)),
            r matches Err(e) ==> e == FsError::NoEnt || e == FsError::NotDir || e == FsError::Exist
                || e == FsError::StructuralCorruption,
    {
        let mut scratch = self.clone_state();
        let mut new_ops: Vec<StoreOp> = Vec::new();
        match scratch.create_node(parent, name, mode, FileKind::Directory, now, nonce, &mut new_ops) {
            Ok(a) => {
                let ghost pre_ops = ops@;
                let ghost suf = new_ops@;
                let ghost m_new = scratch@;
                *self = scratch;
                ops.append(&mut new_ops);
                proof {
                    assert(ops@ == pre_ops + suf);
                    assert(self@ == m_new);
                    lemma_ops_shift_covered(pre_ops, suf, old(self)@, m_new);
                    lemma_ops_shift_put(pre_ops, suf, m_new, idx_of(m_new.entries, a.ino));
                }
                Ok(a)
            },
            Err(e) => Err(e),
        }
    }

    /// Applies the supplied attributes to a node.  A size change
    /// truncates or zero-extends the payload.  When nothing would change,
    /// the node keeps its hash and nothing is re-put: applying the same
    /// attributes twice leaves the whole tree, root hash included, as it
    /// was.
    #[verifier::rlimit(100)]
    pub fn setattr(
        &mut self,
        ino: u64,
        q: SetAttrRequest,
        meta_nonce: &Vec<u8>,
        payload_nonce: &Vec<u8>,
        ops: &mut Vec<StoreOp>,
    ) -> (r: Result<FileAttr, FsError>)
        requires
            wf(old(self)@),
            meta_nonce@.len() == 24,
            payload_nonce@.len() == 24,
        ensures
            r matches Ok(a) ==> {
                &&& wf(final(self)@)
                &&& has_ino(old(self)@.entries, ino)
                &&& a == apply_setattr(entry_of(old(self)@.entries, ino).file.xattr.attr, q)
                &&& has_ino(final(self)@.entries, ino)
                &&& entry_of(final(self)@.entries, ino).file.xattr.attr == a
                &&& entry_of(final(self)@.entries, ino).file.data == sized_data(
                    entry_of(old(self)@.entries, ino).file.data,
                    a.size as int,
                )
                &&& final(self)@.entries.len() == old(self)@.entries.len()
            },
            r matches Ok(a) && a != entry_of(old(self)@.entries, ino).file.xattr.attr ==> {
                &&& ops_prefix(old(ops)@, final(ops)@)
                &&& reputs_covered(old(self)@, final(self)@, final(ops)@)
                &&& ops_delete_hash(final(ops)@, entry_of(old(self)@.entries, ino).hash)
                &&& ops_put_entry(final(ops)@, final(self)@, idx_of(final(self)@.entries, ino))
                &&& (entry_of(final(self)@.entries, ino).hash == entry_of(
                    old(self)@.entries,
                    ino,
                ).hash || !has_hash(final(self)@.entries, entry_of(old(self)@.entries, ino).hash))
                &&& entry_of(final(self)@.entries, ino).meta_env == crate::crypto::seal_spec(
                    crate::attr::serial_attr(entry_of(final(self)@.entries, ino).file.xattr),
                    old(self)@.key,
                    meta_nonce@,
                )
                &&& final(self)@.key == old(self)@.key
                &&& final(self)@.top_ino == old(self)@.top_ino
            },
            has_ino(old(self)@.entries, ino) && apply_setattr(
                entry_of(old(self)@.entries, ino).file.xattr.attr,
                q,
            ) == entry_of(old(self)@.entries, ino).file.xattr.attr ==> (r matches Ok(a) && final(self)@ == old(self)@ && final(ops)@ == old(ops)@),
            r is Err ==> final(self)@ == old(self)@ && final(ops)@ == old(ops)@,
            r == Result::<FileAttr, FsError>::Err(FsError::NoEnt) <==> !has_ino(
                old(self)@.entries,
                ino,
            ),
            r == Result::<FileAttr, FsError>::Err(FsError::Inval) <==> has_ino(
                old(self)@.entries,
                ino,
            ) && apply_setattr(entry_of(old(self)@.entries, ino).file.xattr.attr, q) != entry_of(
                old(self)@.entries,
                ino,
            ).file.xattr.attr && (entry_of(old(self)@.entries, ino).is_dir() && apply_setattr(
                entry_of(old(self)@.entries, ino).file.xattr.attr,
                q,
            ).size != 0 || apply_setattr(entry_of(old(self)@.entries, ino).file.xattr.attr, q).size
                > usize::MAX || apply_setattr(
                entry_of(old(self)@.entries, ino).file.xattr.attr,
                q,
            ).size >= 0x2000000000),
            has_ino(old(self)@.entries, ino) && !(entry_of(old(self)@.entries, ino).is_dir()
                && apply_setattr(entry_of(old(self)@.entries, ino).file.xattr.attr, q).size != 0)
                && apply_setattr(entry_of(old(self)@.entries, ino).file.xattr.attr, q).size
                <= usize::MAX && apply_setattr(
                entry_of(old(self)@.entries, ino).file.xattr.attr,
                q,
            ).size < 0x2000000000 ==> (r is Ok || r == Result::<FileAttr, FsError>::Err(
                FsError::StructuralCorruption,
            )),
            r matches Err(e) ==> e == FsError::NoEnt || e == FsError::Inval || e
                == FsError::StructuralCorruption,
    {
        let k = match self.cache.find_ino(ino) {
            Some(k) => k,
            None => {
                return Err(FsError::NoEnt);
            },
        };
        proof {
            lemma_idx_unique(self@.entries, k as int, ino);
            assert(entry_shape_ok(self@, k as int));
        }
        let old_attr = self.cache.entries[k].file.xattr.attr;
        let is_dir = old_attr.kind == FileKind::Directory;
        let new_attr = FileAttr {
            ino: old_attr.ino,
            size: match q.size {
                Some(s) => s,
                None => old_attr.size,
            },
            blocks: old_attr.blocks,
            atime: match q.atime {
                Some(v) => v,
                None => old_attr.atime,
            },
            mtime: match q.mtime {
                Some(v) => v,
                None => old_attr.mtime,
            },
            ctime: old_attr.ctime,
            crtime: match q.crtime {
                Some(v) => v,
                None => old_attr.crtime,
            },
            kind: old_attr.kind,
            perm: old_attr.perm,
            nlink: old_attr.nlink,
            uid: match q.uid {
                Some(v) => v,
                None => old_attr.uid,
            },
            gid: match q.gid {
                Some(v) => v,
                None => old_attr.gid,
            },
            rdev: old_attr.rdev,
            flags: match q.flags {
                Some(v) => v,
                None => old_attr.flags,
            },
        };
        proof {
            assert(new_attr == apply_setattr(old_attr, q));
        }
        if new_attr == old_attr {
            proof {
                assert(self@.entries[k as int].file.data.len() == old_attr.size);
                assert(sized_data(
                    self@.entries[k as int].file.data,
                    old_attr.size as int,
                ) =~= self@.entries[k as int].file.data);
            }
            return Ok(old_attr);
        }
        if is_dir && new_attr.size != 0 {
            return Err(FsError::Inval);
        }
        if new_attr.size > usize::MAX as u64 || new_attr.size >= 0x2000000000u64 {
            return Err(FsError::Inval);
        }
        let mut new_data = self.cache.entries[k].file.data.clone();
        proof {
            assert(new_data@ =~= self@.entries[k as int].file.data);
        }
        crate::codec::resize_zero(&mut new_data, new_attr.size as usize);
        proof {
            assert(new_data@ =~= sized_data(
                self@.entries[k as int].file.data,
                new_attr.size as int,
            ));
        }
        let name = self.cache.entries[k].file.xattr.file_name.clone();
        proof {
            assert(name@ =~= self@.entries[k as int].name());
        }
        let new_xattr = XFileAttr {
            attr: new_attr,
            file_name: name,
            parent_ino: self.cache.entries[k].file.xattr.parent_ino,
        };
        let new_file = File { xattr: new_xattr, data: new_data };
        let mut scratch = self.clone_state();
        let mut new_ops: Vec<StoreOp> = Vec::new();
        match scratch.rehash_node(ino, new_file, meta_nonce, payload_nonce, &mut new_ops) {
            Ok(a) => {
                let ghost pre_ops = ops@;
                let ghost suf = new_ops@;
                let ghost m_new = scratch@;
                *self = scratch;
                ops.append(&mut new_ops);
                proof {
                    assert(ops@ == pre_ops + suf);
                    assert(self@ == m_new);
                    lemma_ops_shift_covered(pre_ops, suf, old(self)@, m_new);
                    lemma_ops_shift_delete(pre_ops, suf, entry_of(old(self)@.entries, ino).hash);
                    lemma_ops_shift_put(pre_ops, suf, m_new, idx_of(m_new.entries, ino));
                }
                Ok(a)
            },
            Err(e) => Err(e),
        }
    }

    /// Creates and installs the root directory when no root is known yet;
    /// with a root already cached this is a no-op.  The fresh root's
    /// inode is 1, its name is "/", and its parent is itself.
    #[verifier::rlimit(100)]
    pub fn init(&mut self, now: u64, nonce: &Vec<u8>, ops: &mut Vec<StoreOp>) -> (r: Result<
        (),
        FsError,
    >)
        requires
            wf(old(self)@),
            nonce@.len() == 24,
        ensures
            r is Ok ==> wf(final(self)@) && has_ino(final(self)@.entries, 1) && final(self)@.root_hash is Some,
            r is Ok && has_ino(old(self)@.entries, 1) ==> final(self)@ == old(self)@,
            r is Ok,
            final(self)@.key == old(self)@.key && final(self)@.top_ino == old(self)@.top_ino,
            ops_prefix(old(ops)@, final(ops)@),
            has_ino(old(self)@.entries, 1) ==> final(ops)@ == old(ops)@,
            !has_ino(old(self)@.entries, 1) ==> ops_put_entry(
                final(ops)@,
                final(self)@,
                idx_of(final(self)@.entries, 1),
            ),
            r is Ok && !has_ino(old(self)@.entries, 1) ==> {
                let e = entry_of(final(self)@.entries, 1);
                &&& final(self)@.entries.len() == old(self)@.entries.len() + 1
                &&& e.ino() == 1
                &&& e.parent() == 1
                &&& e.is_dir()
                &&& e.name() == seq![47u8]
                &&& e.file.data.len() == 0
                &&& e.children.len() == 0
                &&& e.file.xattr.attr.perm == 0o777
                &&& e.file.xattr.attr.atime == now
                &&& final(self)@.root_hash == Option::Some(e.hash)
                &&& e.hash == node_hash_of(e.meta_env, Option::None)
            },
            r matches Err(e) ==> e == FsError::StructuralCorruption,
    {
        match self.cache.find_ino(1) {
            Some(_) => {
                return Ok(());
            },
            None => {},
        }
        let mut root_name: Vec<u8> = Vec::new();
        root_name.push(47);
        let attr = FileAttr {
            ino: 1,
            size: 0,
            blocks: 0,
            atime: now,
            mtime: now,
            ctime: now,
            crtime: now,
            kind: FileKind::Directory,
            perm: 0o777,
            nlink: 0,
            uid: 0,
            gid: 0,
            rdev: 0,
            flags: 0,
        };
        let xattr = XFileAttr { attr, file_name: root_name, parent_ino: 1 };
        proof {
            lemma_rootless_empty(self@);
        }
        let (h, env, op) = crate::api::new_root(&xattr, &self.key, nonce);
        match self.cache.find_hash(h.as_slice()) {
            Some(k0) => {
                proof {
                    assert(false);
                }
                return Err(FsError::StructuralCorruption);
            },
            None => {},
        }
        let ghost prev = self@;
        let ghost hview = h@;
        let hcopy = h.clone();
        proof {
            assert(hcopy@ =~= h@);
        }
        let e = Entry {
            hash: h,
            file: File { xattr, data: Vec::new() },
            meta_env: env,
            payload_env: Vec::new(),
            children: Vec::new(),
        };
        self.cache.push_entry(e);
        self.root_hash = Some(hcopy);
        let ghost j_op = ops@.len() as int;
        ops.push(op);
        proof {
            let m = self@;
            let last = prev.entries.len() as int;
            assert(m.entries == prev.entries.push(e@));
            assert(m.entries[last] == e@);
            assert(e@.ino() == 1);
            assert forall|j: int| 0 <= j < last implies (#[trigger] prev.entries[j]).parent()
                != 1 by {
                assert(entry_shape_ok(prev, j));
                if prev.entries[j].parent() == 1 {
                    if prev.entries[j].ino() != 1 {
                        assert(has_ino(prev.entries, 1));
                    }
                }
            }
            assert(uniq(m.entries)) by {
                assert forall|i: int, j: int| 0 <= i < j < m.entries.len() implies (
                #[trigger] m.entries[i]).ino() != (#[trigger] m.entries[j]).ino()
                    && m.entries[i].hash != m.entries[j].hash && !(m.entries[i].parent()
                    == m.entries[j].parent() && m.entries[i].name() == m.entries[j].name()) by {
                    if j == last {
                        if m.entries[i].ino() == 1 {
                            assert(has_ino(prev.entries, 1));
                        }
                        assert(!has_hash(prev.entries, hview));
                        assert(prev.entries[i].hash != hview);
                        assert(prev.entries[i].parent() != 1);
                    } else {
                        assert(prev.entries[i].ino() != prev.entries[j].ino()
                            && prev.entries[i].hash != prev.entries[j].hash && !(
                        prev.entries[i].parent() == prev.entries[j].parent()
                            && prev.entries[i].name() == prev.entries[j].name()));
                    }
                }
            }
            assert forall|kk: int| 0 <= kk < m.entries.len() implies #[trigger] entry_shape_ok(
                m,
                kk,
            ) by {
                if kk != last {
                    assert(entry_shape_ok(prev, kk));
                    lemma_shape_push(prev, m, kk);
                } else {
                    assert(m.entries[kk].ino() == 1);
                    assert(m.entries[kk].is_dir());
                    assert(m.entries[kk].children =~= Seq::<Seq<u8>>::empty());
                    assert(m.entries[kk].hash == dir_hash_of(
                        m.entries[kk].meta_env,
                        m.entries[kk].children,
                    ));
                }
            }
            assert forall|kk: int| 0 <= kk < m.entries.len() implies #[trigger] link_ok(m, kk) by {
                if kk != last {
                    assert(entry_shape_ok(prev, kk));
                    assert(link_ok(prev, kk));
                    lemma_shape_push(prev, m, kk);
                }
            }
            assert(has_ino(m.entries, 1)) by {
                assert(m.entries[last].ino() == 1);
            }
            lemma_idx_unique(m.entries, last, 1);
            assert(entry_of(m.entries, 1) == m.entries[last]);
            assert(root_ok(m));
            assert(wf(m));
            assert(e@.name() =~= seq![47u8]);
            assert(crate::api::op_is_put_root(ops@[j_op], e@.hash, e@.meta_env));
            assert(idx_of(m.entries, 1) == last);
            assert(ops_put_entry(ops@, m, last));
        }
        Ok(())
    }

    /// Verifies a node fetched from the server under an expected hash and
    /// installs it in the cache, as the child of a cached directory that
    /// lists that hash.  The hash is recomputed from what was fetched —
    /// for a directory, over its re-sorted child listing; for a file,
    /// over its payload envelope — and any mismatch poisons nothing and
    /// installs nothing: it is an integrity violation.  The node's inode
    /// is assigned locally and monotonically.
    #[verifier::rlimit(100)]
    pub fn install_fetched(&mut self, parent_ino: u64, f: &FetchedNode) -> (r: Result<
        FileAttr,
        FsError,
    >)
        requires
            wf(old(self)@),
            old(self)@.top_ino < u64::MAX,
        ensures
            r matches Ok(a) ==> wf(final(self)@) && has_hash(final(self)@.entries, f@.hash),
            r matches Ok(a) ==> (has_hash(old(self)@.entries, f@.hash) && final(self)@ == old(self)@) || {
                let e = final(self)@.entries[old(self)@.entries.len() as int];
                &&& final(self)@.entries.len() == old(self)@.entries.len() + 1
                &&& forall|k: int|
                    0 <= k < old(self)@.entries.len() ==> final(self)@.entries[k] == old(self)@.entries[k]
                &&& e.hash == f@.hash
                &&& e.parent() == parent_ino
                &&& e.ino() == old(self)@.top_ino + 1
                &&& a == e.file.xattr.attr
                &&& final(self)@.top_ino == old(self)@.top_ino + 1
                &&& (f@.is_dir ==> e.hash == dir_hash_of(e.meta_env, e.children)
                    && e.children.len() == f@.children.len() && (forall|x: Seq<u8>|
                    e.children.contains(x) ==> f@.children.contains(x)))
                &&& (!f@.is_dir ==> e.hash == node_hash_of(e.meta_env, file_slot(e)))
                &&& e.meta_env == f@.meta_env
                &&& {
                    let x = crate::attr::parse_attr(
                        crate::api::env_plain(f@.meta_env, old(self)@.key),
                    );
                    &&& x is Some
                    &&& e.name() == x.unwrap().file_name
                    &&& a.kind == x.unwrap().attr.kind
                    &&& a.size == x.unwrap().attr.size
                    &&& a.uid == x.unwrap().attr.uid
                }
                &&& e.file.data == (match f@.payload_env {
                    Option::Some(pe) => crate::crypto::cipher_of(
                        old(self)@.key,
                        pe.subrange(0, 24),
                        pe.skip(24),
                    ),
                    Option::None => Seq::<u8>::empty(),
                })
                &&& (!f@.is_dir ==> e.payload_env == (match f@.payload_env {
                    Option::Some(pe) => pe,
                    Option::None => Seq::<u8>::empty(),
                }))
            },
            r is Ok ==> final(self)@.key == old(self)@.key && final(self)@.root_hash == old(self)@.root_hash,
            r is Err ==> final(self)@ == old(self)@,
            r == Result::<FileAttr, FsError>::Err(FsError::NoEnt) ==> !has_ino(
                old(self)@.entries,
                parent_ino,
            ),
            !has_hash(old(self)@.entries, f@.hash) && install_accepts(old(self)@, parent_ino, f@)
                ==> r is Ok,
            has_ino(old(self)@.entries, parent_ino) && entry_of(
                old(self)@.entries,
                parent_ino,
            ).is_dir() && has_hash(old(self)@.entries, f@.hash) && old(self)@.entries[idx_of_hash(
                old(self)@.entries,
                f@.hash,
            )].parent() == parent_ino ==> r is Ok,
            r matches Err(e) ==> e == FsError::NoEnt || e == FsError::NotDir || e
                == FsError::IntegrityViolation || e == FsError::DecryptCorrupt || e
                == FsError::StructuralCorruption,
    {
        let k_p = match self.cache.find_ino(parent_ino) {
            Some(k) => k,
            None => {
                return Err(FsError::NoEnt);
            },
        };
        proof {
            lemma_idx_unique(self@.entries, k_p as int, parent_ino);
            assert(entry_shape_ok(self@, k_p as int));
        }
        if self.cache.entries[k_p].file.xattr.attr.kind != FileKind::Directory {
            return Err(FsError::NotDir);
        }
        // An object already cached under this hash is simply returned.
        match self.cache.find_hash(f.hash.as_slice()) {
            Some(k0) => {
                proof {
                    lemma_hash_unique(self@.entries, k0 as int, f@.hash);
                }
                let a0 = self.cache.entries[k0].file.xattr.attr;
                if self.cache.entries[k0].file.xattr.parent_ino == parent_ino {
                    return Ok(a0);
                }
                return Err(FsError::StructuralCorruption);
            },
            None => {},
        }
        if f.hash.len() != 48 {
            return Err(FsError::IntegrityViolation);
        }
        // The parent must actually list this hash as a child.
        if !crate::cache::contains_hash(&self.cache.entries[k_p].children, f.hash.as_slice()) {
            return Err(FsError::IntegrityViolation);
        }
        // Decrypt the payload, if one came.
        let (data, payload_env): (Vec<u8>, Vec<u8>) = match &f.payload_env {
            Some(pe) => {
                if pe.len() as u64 >= 0x2000000000u64 {
                    return Err(FsError::DecryptCorrupt);
                }
                match crate::crypto::open_envelope(pe, &self.key) {
                    Some((_n, pt)) => {
                        let pec = pe.clone();
                        proof {
                            assert(pec@ =~= pe@);
                        }
                        (pt, pec)
                    },
                    None => {
                        return Err(FsError::DecryptCorrupt);
                    },
                }
            },
            None => (Vec::new(), Vec::new()),
        };
        // Re-derive the node hash from what was fetched and compare.
        let mut sorted: Vec<Vec<u8>> = Vec::new();
        if f.is_dir {
            if data.len() > 0 {
                return Err(FsError::DecryptCorrupt);
            }
            let n = f.children.len();
            let mut i: usize = 0;
            while i < n
                invariant
                    n == f.children@.len(),
                    i <= n,
                    self@ == old(self)@,
                    !has_hash(self@.entries, f@.hash),
                    f.is_dir,
                    crate::cache::children_ok(crate::crypto::views_of(sorted@)),
                    sorted@.len() == i,
                    forall|x: Seq<u8>|
                        crate::crypto::views_of(sorted@).contains(x) ==> exists|i2: int|
                            0 <= i2 < i && (#[trigger] crate::crypto::views_of(f.children@)[i2])
                                == x,
                    forall|i2: int|
                        0 <= i2 < i ==> crate::crypto::views_of(sorted@).contains(
                            #[trigger] crate::crypto::views_of(f.children@)[i2],
                        ),
                decreases n - i,
            {
                if crate::cache::contains_hash(&sorted, f.children[i].as_slice()) {
                    proof {
                        let chv = crate::crypto::views_of(f.children@);
                        assert(chv[i as int] == f.children@[i as int]@);
                        assert(crate::crypto::views_of(sorted@).contains(chv[i as int]));
                        let i2 = choose|i2: int|
                            0 <= i2 < i && (#[trigger] chv[i2]) == chv[i as int];
                        assert(!children_distinct(chv));
                        assert(f@.children == chv);
                    }
                    return Err(FsError::IntegrityViolation);
                }
                let c = f.children[i].clone();
                proof {
                    assert(c@ =~= f.children@[i as int]@);
                    assert(crate::crypto::views_of(f.children@)[i as int] == c@);
                }
                crate::cache::insert_sorted(&mut sorted, c);
                i = i + 1;
            }
            let computed = crate::crypto::hash_of_dir(&f.meta_env, &sorted);
            if !crate::codec::bytes_eq(computed.as_slice(), f.hash.as_slice()) {
                proof {
                    let chv = crate::crypto::views_of(f.children@);
                    let sv = crate::crypto::views_of(sorted@);
                    if canonical_form_matches(f@.meta_env, f@.children, f@.hash) {
                        assert forall|x: Seq<u8>| sv.contains(x) <==> chv.contains(x) by {
                            if sv.contains(x) {
                                let i2 = choose|i2: int|
                                    0 <= i2 < n && (#[trigger] chv[i2]) == x;
                                assert(chv.contains(x));
                            }
                            if chv.contains(x) {
                                let j = choose|j: int| 0 <= j < chv.len() && chv[j] == x;
                                assert(sv.contains(chv[j]));
                            }
                        }
                        let w = choose|sorted2: Seq<Seq<u8>>|
                            #[trigger] children_ok(sorted2) && sorted2.len() == f@.children.len()
                                && (forall|x: Seq<u8>|
                                sorted2.contains(x) <==> f@.children.contains(x)) && f@.hash
                                == dir_hash_of(f@.meta_env, sorted2);
                        assert forall|x: Seq<u8>| sv.contains(x) == w.contains(x) by {
                            assert(sv.contains(x) <==> chv.contains(x));
                            assert(w.contains(x) <==> chv.contains(x));
                        }
                        crate::cache::lemma_canonical_unique(sv, w);
                        assert(computed@ == dir_hash_of(f@.meta_env, sv));
                        assert(computed@ == f@.hash);
                        assert(false);
                    }
                }
                return Err(FsError::IntegrityViolation);
            }
        } else {
            let slot: Option<&Vec<u8>> = if data.len() == 0 {
                None
            } else {
                Some(&payload_env)
            };
            let ok = crate::crypto::verify_merkle_hashes(&f.hash, &f.meta_env, slot);
            if !ok {
                return Err(FsError::IntegrityViolation);
            }
        }
        // Decrypt and decode the metadata block.
        let x = match crate::api::get_xattr_env(&f.meta_env, &self.key) {
            Ok(x) => x,
            Err(_) => {
                return Err(FsError::DecryptCorrupt);
            },
        };
        // The decoded block must agree with what the server claims and
        // with the payload that came with it.
        let x_is_dir = x.attr.kind == FileKind::Directory;
        if x_is_dir != f.is_dir {
            return Err(FsError::DecryptCorrupt);
        }
        if x.attr.size != data.len() as u64 {
            return Err(FsError::DecryptCorrupt);
        }
        if x.file_name.len() as u64 >= 0x100000u64 {
            return Err(FsError::DecryptCorrupt);
        }
        match self.cache.find_name(parent_ino, x.file_name.as_slice()) {
            Some(_) => {
                return Err(FsError::StructuralCorruption);
            },
            None => {},
        }
        // Install under a fresh local inode.
        let new_ino = self.top_ino + 1;
        let xattr = XFileAttr {
            attr: FileAttr { ino: new_ino, ..x.attr },
            file_name: x.file_name,
            parent_ino,
        };
        let hcopy = f.hash.clone();
        proof {
            assert(hcopy@ =~= f.hash@);
        }
        let ghost prev = self@;
        let ghost hview = f.hash@;
        let e = Entry {
            hash: hcopy,
            file: File { xattr, data },
            meta_env: f.meta_env.clone(),
            payload_env,
            children: sorted,
        };
        proof {
            assert(e.meta_env@ =~= f.meta_env@);
        }
        self.cache.push_entry(e);
        self.top_ino = new_ino;
        proof {
            let m = self@;
            let last = prev.entries.len() as int;
            assert(m.entries == prev.entries.push(e@));
            assert(m.entries[last] == e@);
            assert(e@.ino() == new_ino);
            assert(e@.hash == hview);
            assert(uniq(m.entries)) by {
                assert forall|i: int, j: int| 0 <= i < j < m.entries.len() implies (
                #[trigger] m.entries[i]).ino() != (#[trigger] m.entries[j]).ino()
                    && m.entries[i].hash != m.entries[j].hash && !(m.entries[i].parent()
                    == m.entries[j].parent() && m.entries[i].name() == m.entries[j].name()) by {
                    if j == last {
                        assert(entry_shape_ok(prev, i));
                        assert(prev.entries[i].ino() <= prev.top_ino);
                        assert(!has_hash(prev.entries, hview));
                        assert(prev.entries[i].hash != hview);
                        assert(!has_name(prev.entries, parent_ino, e@.name()));
                        assert(!(prev.entries[i].parent() == parent_ino && prev.entries[i].name()
                            == e@.name()));
                    } else {
                        assert(prev.entries[i].ino() != prev.entries[j].ino()
                            && prev.entries[i].hash != prev.entries[j].hash && !(
                        prev.entries[i].parent() == prev.entries[j].parent()
                            && prev.entries[i].name() == prev.entries[j].name()));
                    }
                }
            }
            assert forall|kk: int| 0 <= kk < m.entries.len() implies #[trigger] entry_shape_ok(
                m,
                kk,
            ) by {
                if kk != last {
                    assert(entry_shape_ok(prev, kk));
                    lemma_shape_push(prev, m, kk);
                } else {
                    assert(m.entries[kk].ino() == new_ino);
                    assert(m.entries[kk].parent() == parent_ino);
                    assert(parent_ino <= prev.top_ino);
                    lemma_idx_unique(m.entries, k_p as int, parent_ino);
                    assert(entry_of(m.entries, parent_ino) == m.entries[k_p as int]);
                    assert(m.entries[k_p as int].is_dir());
                    if m.entries[kk].is_dir() {
                        assert(m.entries[kk].hash == dir_hash_of(
                            m.entries[kk].meta_env,
                            m.entries[kk].children,
                        ));
                    } else {
                        assert(m.entries[kk].children =~= Seq::<Seq<u8>>::empty());
                        assert(m.entries[kk].hash == node_hash_of(
                            m.entries[kk].meta_env,
                            file_slot(m.entries[kk]),
                        ));
                    }
                }
            }
            assert forall|kk: int| 0 <= kk < m.entries.len() implies #[trigger] link_ok(m, kk) by {
                if kk != last {
                    assert(entry_shape_ok(prev, kk));
                    assert(link_ok(prev, kk));
                    lemma_shape_push(prev, m, kk);
                } else {
                    lemma_idx_unique(m.entries, k_p as int, parent_ino);
                    assert(entry_of(m.entries, parent_ino).children.contains(hview));
                }
            }
            assert(root_ok(m)) by {
                assert(root_ok(prev));
                if prev.root_hash is Some {
                    let kr = idx_of(prev.entries, 1);
                    lemma_idx_unique(prev.entries, kr, 1);
                    lemma_idx_unique(m.entries, kr, 1);
                } else {
                    if has_ino(m.entries, 1) {
                        let kr = idx_of(m.entries, 1);
                        if kr != last {
                            assert(prev.entries[kr].ino() == 1);
                            assert(has_ino(prev.entries, 1));
                        }
                    }
                }
            }
            assert(wf(m));
            assert(has_hash(m.entries, f@.hash)) by {
                assert(m.entries[last].hash == f@.hash);
            }
        }
        Ok(self.cache.entries[self.cache.entries.len() - 1].file.xattr.attr)
    }

    /// Lists a directory from `offset` onward: "." and ".." at the first
    /// two positions, then the children in canonical order.  The caller
    /// passes the child listing it just fetched from the server; a
    /// listing that is not exactly the cached canonical child set — a
    /// changed, added, dropped or repeated hash — is an integrity
    /// violation.  Every child must already be installed in the cache
    /// (`install_fetched` does that for fresh ones).
    #[verifier::rlimit(100)]
    pub fn readdir(&self, ino: u64, offset: u64, listed: &Vec<Vec<u8>>) -> (r: Result<
        Vec<DirEntry>,
        FsError,
    >)
        requires
            wf(self@),
        ensures
            r matches Ok(v) ==> {
                let rows = dir_listing(self@, ino);
                &&& has_ino(self@.entries, ino)
                &&& entry_of(self@.entries, ino).is_dir()
                &&& listing_matches(
                    crate::crypto::views_of(listed@),
                    entry_of(self@.entries, ino).children,
                )
                &&& v@.len() == (if offset <= rows.len() {
                    rows.len() - offset
                } else {
                    0int
                })
                &&& forall|j: int| 0 <= j < v@.len() ==> (#[trigger] v@[j])@ == rows[offset + j]
            },
            !has_ino(self@.entries, ino) ==> r == Result::<Vec<DirEntry>, FsError>::Err(
                FsError::NoEnt,
            ),
            r == Result::<Vec<DirEntry>, FsError>::Err(FsError::NotDir) <==> has_ino(
                self@.entries,
                ino,
            ) && !entry_of(self@.entries, ino).is_dir(),
            r == Result::<Vec<DirEntry>, FsError>::Err(FsError::IntegrityViolation) <==> has_ino(
                self@.entries,
                ino,
            ) && entry_of(self@.entries, ino).is_dir() && !listing_matches(
                crate::crypto::views_of(listed@),
                entry_of(self@.entries, ino).children,
            ),
            has_ino(self@.entries, ino) && entry_of(self@.entries, ino).is_dir()
                && listing_matches(
                crate::crypto::views_of(listed@),
                entry_of(self@.entries, ino).children,
            ) && (forall|i: int|
                0 <= i < entry_of(self@.entries, ino).children.len() ==> has_hash(
                    self@.entries,
                    #[trigger] entry_of(self@.entries, ino).children[i],
                )) ==> r is Ok,
            r == Result::<Vec<DirEntry>, FsError>::Err(FsError::NoEnt) ==> !has_ino(
                self@.entries,
                ino,
            ) || exists|i: int|
                0 <= i < entry_of(self@.entries, ino).children.len() && !has_hash(
                    self@.entries,
                    #[trigger] entry_of(self@.entries, ino).children[i],
                ),
            r matches Err(e) ==> e == FsError::NoEnt || e == FsError::NotDir || e
                == FsError::IntegrityViolation,
    {
        let k = match self.cache.find_ino(ino) {
            Some(k) => k,
            None => {
                return Err(FsError::NoEnt);
            },
        };
        proof {
            lemma_idx_unique(self@.entries, k as int, ino);
            assert(entry_shape_ok(self@, k as int));
            assert(entry_of(self@.entries, ino) == self@.entries[k as int]);
        }
        if self.cache.entries[k].file.xattr.attr.kind != FileKind::Directory {
            return Err(FsError::NotDir);
        }
        let n = self.cache.entries[k].children.len();
        if listed.len() != n {
            proof {
                assert(!listing_matches(
                    crate::crypto::views_of(listed@),
                    entry_of(self@.entries, ino).children,
                ));
            }
            return Err(FsError::IntegrityViolation);
        }
        let mut i: usize = 0;
        while i < n
            invariant
                n == listed@.len(),
                i <= n,
                wf(self@),
                k < self@.entries.len(),
                self@.entries[k as int].ino() == ino,
                self@.entries[k as int].is_dir(),
                n == self@.entries[k as int].children.len(),
                forall|j: int|
                    0 <= j < i ==> self@.entries[k as int].children.contains(
                        crate::crypto::views_of(listed@)[j],
                    ),
                forall|j1: int, j2: int|
                    0 <= j1 < j2 < i ==> (#[trigger] crate::crypto::views_of(listed@)[j1]) != (
                    #[trigger] crate::crypto::views_of(listed@)[j2]),
            decreases n - i,
        {
            if !crate::cache::contains_hash(&self.cache.entries[k].children, listed[i].as_slice())
            {
                proof {
                    assert(crate::crypto::views_of(listed@)[i as int] == listed@[i as int]@);
                    assert(!listing_matches(
                        crate::crypto::views_of(listed@),
                        entry_of(self@.entries, ino).children,
                    ));
                }
                return Err(FsError::IntegrityViolation);
            }
            let mut j: usize = 0;
            while j < i
                invariant
                    j <= i < n,
                    n == listed@.len(),
                    wf(self@),
                    k < self@.entries.len(),
                    self@.entries[k as int].ino() == ino,
                    self@.entries[k as int].is_dir(),
                    forall|j1: int|
                        0 <= j1 < j ==> (#[trigger] listed@[j1])@ != listed@[i as int]@,
                decreases i - j,
            {
                if crate::codec::bytes_eq(listed[j].as_slice(), listed[i].as_slice()) {
                    proof {
                        lemma_idx_unique(self@.entries, k as int, ino);
                        assert(crate::crypto::views_of(listed@)[j as int] == listed@[i as int]@);
                        assert(crate::crypto::views_of(listed@)[i as int] == listed@[i as int]@);
                        assert(!listing_matches(
                            crate::crypto::views_of(listed@),
                            entry_of(self@.entries, ino).children,
                        ));
                        assert(has_ino(self@.entries, ino));
                    }
                    return Err(FsError::IntegrityViolation);
                }
                j = j + 1;
            }
            proof {
                assert(crate::crypto::views_of(listed@)[i as int] == listed@[i as int]@);
                assert forall|j1: int, j2: int|
                    0 <= j1 < j2 < i + 1 implies (#[trigger] crate::crypto::views_of(
                    listed@,
                )[j1]) != (#[trigger] crate::crypto::views_of(listed@)[j2]) by {
                    if j2 == i as int {
                        assert(crate::crypto::views_of(listed@)[j1] == listed@[j1]@);
                    }
                }
            }
            i = i + 1;
        }
        proof {
            assert(listing_matches(
                crate::crypto::views_of(listed@),
                entry_of(self@.entries, ino).children,
            ));
        }
        // Emit rows from the requested offset.
        let mut out: Vec<DirEntry> = Vec::new();
        let ghost rows = dir_listing(self@, ino);
        proof {
            assert(rows.len() == n + 2);
        }
        if offset == 0 {
            let mut dot: Vec<u8> = Vec::new();
            dot.push(46);
            out.push(DirEntry { ino, kind: FileKind::Directory, name: dot });
            proof {
                assert(out@[0]@ == rows[0]);
            }
        }
        if offset <= 1 {
            let mut dotdot: Vec<u8> = Vec::new();
            dotdot.push(46);
            dotdot.push(46);
            let ghost before = out@;
            out.push(
                DirEntry {
                    ino: self.cache.entries[k].file.xattr.parent_ino,
                    kind: FileKind::Directory,
                    name: dotdot,
                },
            );
            proof {
                assert(out@.last()@.name =~= seq![46u8, 46u8]);
                assert(out@[out@.len() - 1]@ == rows[1]);
            }
        }
        let start: usize = if offset <= 2 {
            0
        } else {
            if offset - 2 >= n as u64 {
                n
            } else {
                (offset - 2) as usize
            }
        };
        let ghost off0 = if offset <= rows.len() {
            offset as int
        } else {
            rows.len() as int
        };
        let mut ci: usize = start;
        while ci < n
            invariant
                wf(self@),
                k < self@.entries.len(),
                self@.entries[k as int].ino() == ino,
                self@.entries[k as int].is_dir(),
                n == self@.entries[k as int].children.len(),
                listing_matches(
                    crate::crypto::views_of(listed@),
                    entry_of(self@.entries, ino).children,
                ),
                start <= ci <= n,
                rows == dir_listing(self@, ino),
                rows.len() == n + 2,
                off0 == (if offset <= rows.len() {
                    offset as int
                } else {
                    rows.len() as int
                }),
                start == (if offset <= 2 {
                    0int
                } else if offset - 2 >= n {
                    n as int
                } else {
                    offset - 2
                }),
                out@.len() == 2 + ci - off0 || (offset > 2 && out@.len() == ci - start),
                forall|j: int| 0 <= j < out@.len() ==> (#[trigger] out@[j])@ == rows[off0 + j],
            decreases n - ci,
        {
            let ch = &self.cache.entries[k].children;
            let kc = match self.cache.find_hash(ch[ci].as_slice()) {
                Some(kc) => kc,
                None => {
                    proof {
                        assert(!has_hash(
                            self@.entries,
                            entry_of(self@.entries, ino).children[ci as int],
                        ));
                    }
                    return Err(FsError::NoEnt);
                },
            };
            let name = self.cache.entries[kc].file.xattr.file_name.clone();
            proof {
                assert(name@ =~= self@.entries[kc as int].name());
            }
            let row = DirEntry {
                ino: self.cache.entries[kc].file.xattr.attr.ino,
                kind: self.cache.entries[kc].file.xattr.attr.kind,
                name,
            };
            out.push(row);
            proof {
                lemma_hash_unique(
                    self@.entries,
                    kc as int,
                    self@.entries[k as int].children[ci as int],
                );
                assert(child_row(self@, self@.entries[k as int].children[ci as int])
                    == out@.last()@);
                assert(rows[2 + ci as int] == child_row(
                    self@,
                    entry_of(self@.entries, ino).children[ci as int],
                ));
                assert(out@[out@.len() - 1]@ == rows[off0 + out@.len() - 1]);
            }
            ci = ci + 1;
        }
        proof {
            assert(out@.len() == (if offset <= rows.len() {
                rows.len() - offset
            } else {
                0int
            }));
        }
        Ok(out)
    }

    /// Adopts an existing root fetched from the server, on a fresh
    /// mount: verifies the fetched envelope and child listing against the
    /// given root hash, and installs it as inode 1.  Only an empty cache
    /// can adopt a root.
    #[verifier::rlimit(100)]
    pub fn adopt_root(&mut self, f: &FetchedNode) -> (r: Result<FileAttr, FsError>)
        requires
            wf(old(self)@),
            old(self)@.entries.len() == 0,
        ensures
            r matches Ok(a) ==> {
                let e = final(self)@.entries[0];
                &&& wf(final(self)@)
                &&& final(self)@.entries.len() == 1
                &&& e.hash == f@.hash
                &&& e.ino() == 1
                &&& e.is_dir()
                &&& e.hash == dir_hash_of(e.meta_env, e.children)
                &&& e.meta_env == f@.meta_env
                &&& final(self)@.root_hash == Option::Some(f@.hash)
                &&& a == e.file.xattr.attr
            },
            r is Ok ==> final(self)@.key == old(self)@.key && final(self)@.top_ino == old(self)@.top_ino,
            r is Err ==> final(self)@ == old(self)@,
            adopt_accepts(old(self)@.key, f@) ==> r is Ok,
            r matches Err(e) ==> e == FsError::Inval || e == FsError::IntegrityViolation || e
                == FsError::DecryptCorrupt,
    {
        if !f.is_dir {
            return Err(FsError::Inval);
        }
        if f.hash.len() != 48 {
            return Err(FsError::IntegrityViolation);
        }
        match &f.payload_env {
            Some(_) => {
                return Err(FsError::DecryptCorrupt);
            },
            None => {},
        }
        // Canonicalize and verify the fetched child listing.
        let mut sorted: Vec<Vec<u8>> = Vec::new();
        let n = f.children.len();
        let mut i: usize = 0;
        while i < n
            invariant
                n == f.children@.len(),
                i <= n,
                self@ == old(self)@,
                f.is_dir,
                crate::cache::children_ok(crate::crypto::views_of(sorted@)),
                sorted@.len() == i,
                forall|x: Seq<u8>|
                    crate::crypto::views_of(sorted@).contains(x) ==> exists|i2: int|
                        0 <= i2 < i && (#[trigger] crate::crypto::views_of(f.children@)[i2]) == x,
                forall|i2: int|
                    0 <= i2 < i ==> crate::crypto::views_of(sorted@).contains(
                        #[trigger] crate::crypto::views_of(f.children@)[i2],
                    ),
            decreases n - i,
        {
            if crate::cache::contains_hash(&sorted, f.children[i].as_slice()) {
                proof {
                    let chv = crate::crypto::views_of(f.children@);
                    assert(chv[i as int] == f.children@[i as int]@);
                    assert(crate::crypto::views_of(sorted@).contains(chv[i as int]));
                    let i2 = choose|i2: int| 0 <= i2 < i && (#[trigger] chv[i2]) == chv[i as int];
                    assert(!children_distinct(chv));
                    assert(f@.children == chv);
                }
                return Err(FsError::IntegrityViolation);
            }
            let c = f.children[i].clone();
            proof {
                assert(c@ =~= f.children@[i as int]@);
                assert(crate::crypto::views_of(f.children@)[i as int] == c@);
            }
            crate::cache::insert_sorted(&mut sorted, c);
            i = i + 1;
        }
        let computed = crate::crypto::hash_of_dir(&f.meta_env, &sorted);
        if !crate::codec::bytes_eq(computed.as_slice(), f.hash.as_slice()) {
            proof {
                let chv = crate::crypto::views_of(f.children@);
                let sv = crate::crypto::views_of(sorted@);
                if canonical_form_matches(f@.meta_env, f@.children, f@.hash) {
                    assert forall|x: Seq<u8>| sv.contains(x) <==> chv.contains(x) by {
                        if sv.contains(x) {
                            let i2 = choose|i2: int| 0 <= i2 < n && (#[trigger] chv[i2]) == x;
                            assert(chv.contains(x));
                        }
                        if chv.contains(x) {
                            let j = choose|j: int| 0 <= j < chv.len() && chv[j] == x;
                            assert(sv.contains(chv[j]));
                        }
                    }
                    let w = choose|sorted2: Seq<Seq<u8>>|
                        #[trigger] children_ok(sorted2) && sorted2.len() == f@.children.len() && (
                        forall|x: Seq<u8>| sorted2.contains(x) <==> f@.children.contains(x))
                            && f@.hash == dir_hash_of(f@.meta_env, sorted2);
                    assert forall|x: Seq<u8>| sv.contains(x) == w.contains(x) by {
                        assert(sv.contains(x) <==> chv.contains(x));
                        assert(w.contains(x) <==> chv.contains(x));
                    }
                    crate::cache::lemma_canonical_unique(sv, w);
                    assert(computed@ == dir_hash_of(f@.meta_env, sv));
                    assert(computed@ == f@.hash);
                    assert(false);
                }
            }
            return Err(FsError::IntegrityViolation);
        }
        let x = match crate::api::get_xattr_env(&f.meta_env, &self.key) {
            Ok(x) => x,
            Err(_) => {
                return Err(FsError::DecryptCorrupt);
            },
        };
        if x.attr.kind != FileKind::Directory {
            return Err(FsError::DecryptCorrupt);
        }
        if x.file_name.len() as u64 >= 0x100000u64 {
            return Err(FsError::DecryptCorrupt);
        }
        let xattr = XFileAttr {
            attr: FileAttr { ino: 1, size: 0, ..x.attr },
            file_name: x.file_name,
            parent_ino: 1,
        };
        let hcopy = f.hash.clone();
        let hcopy2 = f.hash.clone();
        proof {
            assert(hcopy@ =~= f.hash@);
            assert(hcopy2@ =~= f.hash@);
        }
        let ghost prev = self@;
        let e = Entry {
            hash: hcopy,
            file: File { xattr, data: Vec::new() },
            meta_env: f.meta_env.clone(),
            payload_env: Vec::new(),
            children: sorted,
        };
        proof {
            assert(e.meta_env@ =~= f.meta_env@);
        }
        self.cache.push_entry(e);
        self.root_hash = Some(hcopy2);
        proof {
            let m = self@;
            assert(m.entries =~= seq![e@]);
            assert(m.entries[0] == e@);
            assert(e@.ino() == 1);
            assert(uniq(m.entries));
            assert forall|kk: int| 0 <= kk < m.entries.len() implies #[trigger] entry_shape_ok(
                m,
                kk,
            ) by {
                assert(kk == 0);
                assert(m.entries[0].is_dir());
                assert(m.entries[0].hash == dir_hash_of(
                    m.entries[0].meta_env,
                    m.entries[0].children,
                ));
            }
            assert forall|kk: int| 0 <= kk < m.entries.len() implies #[trigger] link_ok(m, kk) by {
                assert(m.entries[kk].ino() == 1);
            }
            assert(has_ino(m.entries, 1)) by {
                assert(m.entries[0].ino() == 1);
            }
            lemma_idx_unique(m.entries, 0, 1);
            assert(root_ok(m));
            assert(wf(m));
        }
        Ok(self.cache.entries[0].file.xattr.attr)
    }

    /// Resolves a name in a directory through the (parent, name) index;
    /// `NoEnt` when nothing is cached under it (the caller may then fetch
    /// the directory's children and install them before asking again).
    pub fn lookup(&self, parent: u64, name: &[u8]) -> (r: Result<FileAttr, FsError>)
        requires
            wf(self@),
        ensures
            match r {
                Result::Ok(a) => has_name(self@.entries, parent, name@) && a
                    == self@.entries[idx_of_name(self@.entries, parent, name@)].file.xattr.attr,
                Result::Err(e) => e == FsError::NoEnt && !has_name(self@.entries, parent, name@),
            },
    {
        match self.cache.find_name(parent, name) {
            Some(k) => {
                proof {
                    lemma_name_unique(self@.entries, k as int, parent, name@);
                }
                Ok(self.cache.entries[k].file.xattr.attr)
            },
            None => Err(FsError::NoEnt),
        }
    }
}

} // verus!
