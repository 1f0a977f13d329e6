//! The tri-index cache: one owned store of entries that the three coupled
//! indices — inode to hash, hash to node, (parent inode, name) to inode —
//! are views of.  Keeping all three as projections of one entry list makes
//! their coherence a theorem about the list's distinctness.

use vstd::prelude::*;

use crate::codec::bytes_eq;
use crate::codec::lex_le;
use crate::codec::lex_le_bytes;
use crate::codec::lemma_lex_le_antisymmetric;
use crate::codec::lemma_lex_le_connected;
use crate::codec::lemma_lex_le_transitive;
use crate::fs::File;
use crate::fs::FileModel;
use crate::attr::FileKind;

verus! {

/// A cached node: its content hash, the node itself, the envelopes it is
/// stored under, and — for directories — its child hashes in canonical
/// order.
pub struct Entry {
    pub hash: Vec<u8>,
    pub file: File,
    pub meta_env: Vec<u8>,
    pub payload_env: Vec<u8>,
    pub children: Vec<Vec<u8>>,
}

/// The mathematical model of a cached node.
pub struct EntryModel {
    pub hash: Seq<u8>,
    pub file: FileModel,
    pub meta_env: Seq<u8>,
    pub payload_env: Seq<u8>,
    pub children: Seq<Seq<u8>>,
}

impl View for Entry {
    type V = EntryModel;

    open spec fn view(&self) -> EntryModel {
        EntryModel {
            hash: self.hash@,
            file: self.file@,
            meta_env: self.meta_env@,
            payload_env: self.payload_env@,
            children: crate::crypto::views_of(self.children@),
        }
    }
}

impl EntryModel {
    /// The inode number this entry is cached under.
    pub open spec fn ino(self) -> u64 {
        self.file.xattr.attr.ino
    }

    /// The inode of the directory this entry sits in.
    pub open spec fn parent(self) -> u64 {
        self.file.xattr.parent_ino
    }

    /// The entry's filename.
    pub open spec fn name(self) -> Seq<u8> {
        self.file.xattr.file_name
    }

    /// Whether the entry is a directory.
    pub open spec fn is_dir(self) -> bool {
        self.file.xattr.attr.kind == FileKind::Directory
    }
}

/// Whether some entry is cached under the inode `ino`.
pub open spec fn has_ino(es: Seq<EntryModel>, ino: u64) -> bool {
    exists|k: int| 0 <= k < es.len() && (#[trigger] es[k]).ino() == ino
}

/// The index of the entry cached under `ino`.
pub open spec fn idx_of(es: Seq<EntryModel>, ino: u64) -> int {
    choose|k: int| 0 <= k < es.len() && (#[trigger] es[k]).ino() == ino
}

/// The entry cached under `ino`.
pub open spec fn entry_of(es: Seq<EntryModel>, ino: u64) -> EntryModel {
    es[idx_of(es, ino)]
}

/// Whether some entry is cached under the hash `h`.
pub open spec fn has_hash(es: Seq<EntryModel>, h: Seq<u8>) -> bool {
    exists|k: int| 0 <= k < es.len() && (#[trigger] es[k]).hash == h
}

/// Whether some entry is listed under `name` in the directory `parent`.
pub open spec fn has_name(es: Seq<EntryModel>, parent: u64, name: Seq<u8>) -> bool {
    exists|k: int|
        0 <= k < es.len() && (#[trigger] es[k]).parent() == parent && es[k].name() == name
}

/// The index of the entry listed under `name` in the directory `parent`.
pub open spec fn idx_of_name(es: Seq<EntryModel>, parent: u64, name: Seq<u8>) -> int {
    choose|k: int|
        0 <= k < es.len() && (#[trigger] es[k]).parent() == parent && es[k].name() == name
}

/// Distinctness of the three indices: no two entries share an inode, a
/// hash, or a (parent, name) pair.
pub open spec fn uniq(es: Seq<EntryModel>) -> bool {
    forall|i: int, j: int|
        0 <= i < j < es.len() ==> (#[trigger] es[i]).ino() != (#[trigger] es[j]).ino() && es[i].hash
            != es[j].hash && !(es[i].parent() == es[j].parent() && es[i].name() == es[j].name())
}

/// Under distinctness, any index holding `ino` is the index of `ino`.
pub proof fn lemma_idx_unique(es: Seq<EntryModel>, k: int, ino: u64)
    requires
        uniq(es),
        0 <= k < es.len(),
        es[k].ino() == ino,
    ensures
        has_ino(es, ino),
        idx_of(es, ino) == k,
        entry_of(es, ino) == es[k],
{
    assert(has_ino(es, ino));
    let k2 = idx_of(es, ino);
    if k2 != k {
        if k < k2 {
            assert(es[k].ino() != es[k2].ino());
        } else {
            assert(es[k2].ino() != es[k].ino());
        }
    }
}

/// Under distinctness, any index holding `(parent, name)` is its index.
pub proof fn lemma_name_unique(es: Seq<EntryModel>, k: int, parent: u64, name: Seq<u8>)
    requires
        uniq(es),
        0 <= k < es.len(),
        es[k].parent() == parent,
        es[k].name() == name,
    ensures
        has_name(es, parent, name),
        idx_of_name(es, parent, name) == k,
{
    assert(has_name(es, parent, name));
    let k2 = idx_of_name(es, parent, name);
    if k2 != k {
        if k < k2 {
            assert(!(es[k].parent() == es[k2].parent() && es[k].name() == es[k2].name()));
        } else {
            assert(!(es[k2].parent() == es[k].parent() && es[k2].name() == es[k].name()));
        }
    }
}

/// The cache itself: the one entry list.
pub struct Cache {
    pub entries: Vec<Entry>,
}

impl View for Cache {
    type V = Seq<EntryModel>;

    open spec fn view(&self) -> Seq<EntryModel> {
        self.entries@.map_values(|e: Entry| e@)
    }
}

impl Cache {
    /// Finds the entry cached under an inode.
    pub fn find_ino(&self, ino: u64) -> (r: Option<usize>)
        ensures
            match r {
                Option::Some(k) => k < self@.len() && self@[k as int].ino() == ino,
                Option::None => !has_ino(self@, ino),
            },
    {
        let n = self.entries.len();
        let mut i: usize = 0;
        while i < n
            invariant
                n == self@.len(),
                i <= n,
                forall|k: int| 0 <= k < i ==> (#[trigger] self@[k]).ino() != ino,
            decreases n - i,
        {
            if self.entries[i].file.xattr.attr.ino == ino {
                return Some(i);
            }
            i = i + 1;
        }
        None
    }

    /// Finds the entry cached under a hash.
    pub fn find_hash(&self, h: &[u8]) -> (r: Option<usize>)
        ensures
            match r {
                Option::Some(k) => k < self@.len() && self@[k as int].hash == h@,
                Option::None => !has_hash(self@, h@),
            },
    {
        let n = self.entries.len();
        let mut i: usize = 0;
        while i < n
            invariant
                n == self@.len(),
                i <= n,
                forall|k: int| 0 <= k < i ==> (#[trigger] self@[k]).hash != h@,
            decreases n - i,
        {
            if bytes_eq(self.entries[i].hash.as_slice(), h) {
                return Some(i);
            }
            i = i + 1;
        }
        None
    }

    /// Finds the entry listed under `name` in the directory `parent`.
    pub fn find_name(&self, parent: u64, name: &[u8]) -> (r: Option<usize>)
        ensures
            match r {
                Option::Some(k) => k < self@.len() && self@[k as int].parent() == parent
                    && self@[k as int].name() == name@,
                Option::None => !has_name(self@, parent, name@),
            },
    {
        let n = self.entries.len();
        let mut i: usize = 0;
        while i < n
            invariant
                n == self@.len(),
                i <= n,
                forall|k: int|
                    0 <= k < i ==> !((#[trigger] self@[k]).parent() == parent && self@[k].name()
                        == name@),
            decreases n - i,
        {
            if self.entries[i].file.xattr.parent_ino == parent && bytes_eq(
                self.entries[i].file.xattr.file_name.as_slice(),
                name,
            ) {
                return Some(i);
            }
            i = i + 1;
        }
        None
    }
}

impl Clone for Entry {
    fn clone(&self) -> (r: Self)
        ensures
            r@ == self@,
    {
        let hash = self.hash.clone();
        let meta_env = self.meta_env.clone();
        let payload_env = self.payload_env.clone();
        proof {
            assert(hash@ =~= self.hash@);
            assert(meta_env@ =~= self.meta_env@);
            assert(payload_env@ =~= self.payload_env@);
        }
        Entry {
            hash,
            file: self.file.clone(),
            meta_env,
            payload_env,
            children: clone_children(&self.children),
        }
    }
}

impl Cache {
    /// Replaces the entry at an index.
    pub fn set_entry(&mut self, k: usize, e: Entry)
        requires
            k < old(self)@.len(),
        ensures
            final(self)@ == old(self)@.update(k as int, e@),
    {
        self.entries[k] = e;
        proof {
            assert(self@ =~= old(self)@.update(k as int, e@));
        }
    }

    /// Appends an entry.
    pub fn push_entry(&mut self, e: Entry)
        ensures
            final(self)@ == old(self)@.push(e@),
    {
        self.entries.push(e);
        proof {
            assert(self@ =~= old(self)@.push(e@));
        }
    }
}

/// A child-hash list in canonical order: strictly ascending in the
/// lexicographic order, so also free of duplicates.
pub open spec fn children_ok(ch: Seq<Seq<u8>>) -> bool {
    forall|i: int, j: int|
        0 <= i < j < ch.len() ==> lex_le(#[trigger] ch[i], #[trigger] ch[j]) && ch[i] != ch[j]
}

/// There is exactly one canonical form of a child set: two strictly
/// ascending lists with the same members are the same list.
pub proof fn lemma_canonical_unique(a: Seq<Seq<u8>>, b: Seq<Seq<u8>>)
    requires
        children_ok(a),
        children_ok(b),
        forall|x: Seq<u8>| a.contains(x) == b.contains(x),
    ensures
        a == b,
    decreases a.len(),
{
    if a.len() == 0 {
        if b.len() > 0 {
            assert(b.contains(b[0]));
            assert(a.contains(b[0]));
            let k = choose|k: int| 0 <= k < a.len() && a[k] == b[0];
            assert(0 <= k < a.len());
        }
        assert(a =~= b);
    } else if b.len() == 0 {
        assert(a.contains(a[0]));
        assert(b.contains(a[0]));
        let k = choose|k: int| 0 <= k < b.len() && b[k] == a[0];
        assert(0 <= k < b.len());
        assert(a =~= b);
    } else {
        assert(a[0] == b[0]) by {
            if a[0] != b[0] {
                assert(b.contains(a[0]));
                let j = choose|j: int| 0 <= j < b.len() && b[j] == a[0];
                assert(j >= 1);
                assert(lex_le(b[0], b[j]));
                assert(a.contains(b[0]));
                let i = choose|i: int| 0 <= i < a.len() && a[i] == b[0];
                assert(i >= 1);
                assert(lex_le(a[0], a[i]));
                lemma_lex_le_antisymmetric(a[0], b[0]);
            }
        }
        let at = a.skip(1);
        let bt = b.skip(1);
        assert(children_ok(at)) by {
            assert forall|i: int, j: int| 0 <= i < j < at.len() implies lex_le(
                #[trigger] at[i],
                #[trigger] at[j],
            ) && at[i] != at[j] by {
                assert(at[i] == a[i + 1] && at[j] == a[j + 1]);
            }
        }
        assert(children_ok(bt)) by {
            assert forall|i: int, j: int| 0 <= i < j < bt.len() implies lex_le(
                #[trigger] bt[i],
                #[trigger] bt[j],
            ) && bt[i] != bt[j] by {
                assert(bt[i] == b[i + 1] && bt[j] == b[j + 1]);
            }
        }
        assert forall|x: Seq<u8>| at.contains(x) == bt.contains(x) by {
            if at.contains(x) {
                let i = choose|i: int| 0 <= i < at.len() && at[i] == x;
                assert(a[i + 1] == x);
                assert(a.contains(x));
                assert(x != a[0]);
                assert(b.contains(x));
                let j = choose|j: int| 0 <= j < b.len() && b[j] == x;
                assert(j >= 1);
                assert(bt[j - 1] == x);
            }
            if bt.contains(x) {
                let i = choose|i: int| 0 <= i < bt.len() && bt[i] == x;
                assert(b[i + 1] == x);
                assert(b.contains(x));
                assert(x != b[0]);
                assert(a.contains(x));
                let j = choose|j: int| 0 <= j < a.len() && a[j] == x;
                assert(j >= 1);
                assert(at[j - 1] == x);
            }
        }
        lemma_canonical_unique(at, bt);
        assert(a.len() == b.len());
        assert forall|i: int| 0 <= i < a.len() implies a[i] == b[i] by {
            if i >= 1 {
                assert(a[i] == at[i - 1]);
                assert(b[i] == bt[i - 1]);
            }
        }
        assert(a =~= b);
    }
}

/// Whether a child-hash list contains a hash.
pub fn contains_hash(ch: &Vec<Vec<u8>>, h: &[u8]) -> (r: bool)
    ensures
        r == crate::crypto::views_of(ch@).contains(h@),
{
    let n = ch.len();
    let mut i: usize = 0;
    while i < n
        invariant
            n == ch@.len(),
            i <= n,
            forall|k: int| 0 <= k < i ==> crate::crypto::views_of(ch@)[k] != h@,
        decreases n - i,
    {
        if bytes_eq(ch[i].as_slice(), h) {
            proof {
                assert(crate::crypto::views_of(ch@)[i as int] == h@);
            }
            return true;
        }
        i = i + 1;
    }
    proof {
        assert forall|k: int|
            0 <= k < crate::crypto::views_of(ch@).len() implies crate::crypto::views_of(ch@)[k]
            != h@ by {}
    }
    false
}

/// Inserts a hash into a canonical child list, keeping the order.
pub fn insert_sorted(ch: &mut Vec<Vec<u8>>, h: Vec<u8>)
    requires
        children_ok(crate::crypto::views_of(old(ch)@)),
        !crate::crypto::views_of(old(ch)@).contains(h@),
    ensures
        children_ok(crate::crypto::views_of(final(ch)@)),
        exists|p: int|
            0 <= p <= old(ch)@.len() && crate::crypto::views_of(final(ch)@) == crate::crypto::views_of(
                old(ch)@,
            ).insert(p, h@),
        forall|x: Seq<u8>|
            crate::crypto::views_of(final(ch)@).contains(x) == (crate::crypto::views_of(
                old(ch)@,
            ).contains(x) || x == h@),
        final(ch)@.len() == old(ch)@.len() + 1,
{
    let ghost ov = crate::crypto::views_of(ch@);
    let n = ch.len();
    let mut p: usize = 0;
    while p < n
        invariant
            n == ch@.len(),
            p <= n,
            ch@ == old(ch)@,
            forall|k: int| 0 <= k < p ==> lex_le(#[trigger] ov[k], h@),
            ov == crate::crypto::views_of(ch@),
        ensures
            p <= n,
            ch@ == old(ch)@,
            forall|k: int| 0 <= k < p ==> lex_le(#[trigger] ov[k], h@),
            p < n ==> !lex_le(ov[p as int], h@),
        decreases n - p,
    {
        proof {
            assert(ov[p as int] == ch@[p as int]@);
        }
        if !lex_le_bytes(&ch[p], &h) {
            break;
        }
        p = p + 1;
    }
    proof {
        if p < n {
            lemma_lex_le_connected(ov[p as int], h@);
            assert(lex_le(h@, ov[p as int]));
        }
    }
    ch.insert(p, h);
    proof {
        let nv = crate::crypto::views_of(ch@);
        ov.insert_ensures(p as int, h@);
        assert(nv =~= ov.insert(p as int, h@));
        assert forall|i: int, j: int| 0 <= i < j < nv.len() implies lex_le(
            #[trigger] nv[i],
            #[trigger] nv[j],
        ) && nv[i] != nv[j] by {
            let pi = p as int;
            if i < pi && j < pi {
                assert(nv[i] == ov[i] && nv[j] == ov[j]);
            } else if i < pi && j == pi {
                assert(nv[i] == ov[i] && nv[j] == h@);
                assert(lex_le(ov[i], h@));
                if ov[i] == h@ {
                    assert(ov.contains(h@));
                }
            } else if i < pi && j > pi {
                assert(nv[i] == ov[i] && nv[j] == ov[j - 1]);
            } else if i == pi {
                assert(nv[i] == h@ && nv[j] == ov[j - 1]);
                assert(lex_le(h@, ov[pi]));
                if j - 1 > pi {
                    lemma_lex_le_transitive(h@, ov[pi], ov[j - 1]);
                }
                if h@ == ov[j - 1] {
                    assert(ov.contains(h@));
                }
            } else {
                assert(nv[i] == ov[i - 1] && nv[j] == ov[j - 1]);
            }
        }
        assert forall|x: Seq<u8>|
            nv.contains(x) == (ov.contains(x) || x == h@) by {
            if nv.contains(x) {
                let k = choose|k: int| 0 <= k < nv.len() && nv[k] == x;
                if k < p as int {
                    assert(ov[k] == x);
                } else if k == p as int {
                } else {
                    assert(ov[k - 1] == x);
                }
            }
            if ov.contains(x) {
                let k = choose|k: int| 0 <= k < ov.len() && ov[k] == x;
                if k < p as int {
                    assert(nv[k] == x);
                } else {
                    assert(nv[k + 1] == x);
                }
            }
            if x == h@ {
                assert(nv[p as int] == x);
            }
        }
    }
}

/// Removes a hash from a canonical child list; reports whether it was
/// there.
pub fn remove_hash(ch: &mut Vec<Vec<u8>>, h: &[u8]) -> (r: bool)
    requires
        children_ok(crate::crypto::views_of(old(ch)@)),
    ensures
        children_ok(crate::crypto::views_of(final(ch)@)),
        r == crate::crypto::views_of(old(ch)@).contains(h@),
        r ==> exists|p: int|
            0 <= p < old(ch)@.len() && crate::crypto::views_of(old(ch)@)[p] == h@
                && crate::crypto::views_of(final(ch)@) == crate::crypto::views_of(old(ch)@).remove(
                p,
            ),
        !r ==> final(ch)@ == old(ch)@,
        forall|x: Seq<u8>|
            x != h@ ==> crate::crypto::views_of(final(ch)@).contains(x)
                == crate::crypto::views_of(old(ch)@).contains(x),
        !crate::crypto::views_of(final(ch)@).contains(h@),
{
    let ghost ov = crate::crypto::views_of(ch@);
    let n = ch.len();
    let mut i: usize = 0;
    while i < n
        invariant
            n == ch@.len(),
            i <= n,
            ch@ == old(ch)@,
            ov == crate::crypto::views_of(ch@),
            children_ok(ov),
            forall|k: int| 0 <= k < i ==> ov[k] != h@,
        decreases n - i,
    {
        if bytes_eq(ch[i].as_slice(), h) {
            proof {
                assert(ov[i as int] == ch@[i as int]@);
            }
            ch.remove(i);
            proof {
                let nv = crate::crypto::views_of(ch@);
                assert(children_ok(ov));
                (ov).remove_ensures(i as int);
                assert(nv =~= ov.remove(i as int));
                assert(nv.len() == ov.len() - 1);
                assert forall|x: int| 0 <= x < nv.len() implies #[trigger] nv[x] == (if x < i as int {
                    ov[x]
                } else {
                    ov[x + 1]
                }) by {
                    if x < i as int {
                        assert(ov.remove(i as int)[x] == ov[x]);
                    } else {
                        assert(ov.remove(i as int)[x] == ov[x + 1]);
                    }
                }
                assert(ov.contains(h@));
                assert forall|a: int, b: int| 0 <= a < b < nv.len() implies lex_le(
                    #[trigger] nv[a],
                    #[trigger] nv[b],
                ) && nv[a] != nv[b] by {
                    let a0 = if a < i as int {
                        a
                    } else {
                        a + 1
                    };
                    let b0 = if b < i as int {
                        b
                    } else {
                        b + 1
                    };
                    assert(nv[a] == ov[a0] && nv[b] == ov[b0]);
                    assert(lex_le(ov[a0], ov[b0]) && ov[a0] != ov[b0]);
                }
                assert forall|x: Seq<u8>| x != h@ implies nv.contains(x) == ov.contains(x) by {
                    if nv.contains(x) {
                        let k = choose|k: int| 0 <= k < nv.len() && nv[k] == x;
                        if k < i as int {
                            assert(ov[k] == x);
                        } else {
                            assert(ov[k + 1] == x);
                        }
                    }
                    if ov.contains(x) {
                        let k = choose|k: int| 0 <= k < ov.len() && ov[k] == x;
                        if k < i as int {
                            assert(nv[k] == x);
                        } else if k == i as int {
                            assert(ov[k] == h@);
                        } else {
                            assert(nv[k - 1] == x);
                        }
                    }
                }
                assert(!nv.contains(h@)) by {
                    if nv.contains(h@) {
                        let k = choose|k: int| 0 <= k < nv.len() && nv[k] == h@;
                        if k < i as int {
                            assert(ov[k] == h@ && ov[i as int] == h@);
                            assert(ov[k] != ov[i as int]);
                        } else {
                            assert(ov[k + 1] == h@ && ov[i as int] == h@);
                            assert(ov[i as int] != ov[k + 1]);
                        }
                    }
                }
            }
            return true;
        }
        i = i + 1;
    }
    proof {
        if ov.contains(h@) {
            let k = choose|k: int| 0 <= k < ov.len() && ov[k] == h@;
            assert(ov[k] != h@);
        }
    }
    false
}

/// Copies a child-hash list.
pub fn clone_children(ch: &Vec<Vec<u8>>) -> (r: Vec<Vec<u8>>)
    ensures
        crate::crypto::views_of(r@) == crate::crypto::views_of(ch@),
        r@.len() == ch@.len(),
{
    let mut out: Vec<Vec<u8>> = Vec::new();
    let n = ch.len();
    let mut i: usize = 0;
    while i < n
        invariant
            n == ch@.len(),
            i <= n,
            out@.len() == i,
            forall|k: int|
                0 <= k < i ==> crate::crypto::views_of(out@)[k] == crate::crypto::views_of(ch@)[k],
        decreases n - i,
    {
        let c = ch[i].clone();
        proof {
            assert(c@ =~= ch@[i as int]@);
        }
        out.push(c);
        i = i + 1;
    }
    proof {
        assert(crate::crypto::views_of(out@) =~= crate::crypto::views_of(ch@));
    }
    out
}

} // verus!
