//! The node model: file attributes, the extended attribute block
//! (attributes, filename, parent inode), and its canonical byte encoding.
//!
//! Two clients that hold the same attribute block must produce identical
//! plaintext bytes, so the encoding is fixed: one kind byte, fifteen
//! little-endian 64-bit fields, then the filename bytes.

use vstd::prelude::*;

use crate::codec::le_bytes_to_u64;
use crate::codec::lemma_u64_le_round_trip;
use crate::codec::push_u64_le;
use crate::codec::read_u64_le;
use crate::codec::u64_le_bytes;

verus! {

/// The kind of a node: a directory or a regular file.
#[derive(Clone, Copy, PartialEq, Eq, Structural, Debug)]
pub enum FileKind {
    Directory,
    RegularFile,
}

/// The plain file attributes stored in a node's metadata block.
#[derive(Clone, Copy, PartialEq, Eq, Structural, Debug)]
pub struct FileAttr {
    pub ino: u64,
    pub size: u64,
    pub blocks: u64,
    pub atime: u64,
    pub mtime: u64,
    pub ctime: u64,
    pub crtime: u64,
    pub kind: FileKind,
    pub perm: u16,
    pub nlink: u32,
    pub uid: u32,
    pub gid: u32,
    pub rdev: u32,
    pub flags: u32,
}

/// The extended attribute block: attributes plus the node's filename and
/// its parent's inode number.
#[derive(Debug)]
pub struct XFileAttr {
    pub attr: FileAttr,
    pub file_name: Vec<u8>,
    pub parent_ino: u64,
}

/// The mathematical model of an extended attribute block.
pub struct AttrModel {
    pub attr: FileAttr,
    pub file_name: Seq<u8>,
    pub parent_ino: u64,
}

impl View for XFileAttr {
    type V = AttrModel;

    open spec fn view(&self) -> AttrModel {
        AttrModel { attr: self.attr, file_name: self.file_name@, parent_ino: self.parent_ino }
    }
}

impl Clone for XFileAttr {
    fn clone(&self) -> (r: Self)
        ensures
            r@ == self@,
    {
        let name = self.file_name.clone();
        proof {
            assert(name@ =~= self.file_name@);
        }
        XFileAttr { attr: self.attr, file_name: name, parent_ino: self.parent_ino }
    }
}

/// The byte that stands for a node kind in the encoding.
pub open spec fn kind_byte(k: FileKind) -> u8 {
    match k {
        FileKind::Directory => 0,
        FileKind::RegularFile => 1,
    }
}

/// The fifteen numeric fields of an attribute block, in their fixed order.
pub open spec fn attr_fields(m: AttrModel) -> Seq<u64> {
    seq![
        m.attr.ino,
        m.attr.size,
        m.attr.blocks,
        m.attr.atime,
        m.attr.mtime,
        m.attr.ctime,
        m.attr.crtime,
        m.attr.perm as u64,
        m.attr.nlink as u64,
        m.attr.uid as u64,
        m.attr.gid as u64,
        m.attr.rdev as u64,
        m.attr.flags as u64,
        m.parent_ino,
        m.file_name.len() as u64,
    ]
}

/// The little-endian bytes of a list of 64-bit fields, in order.
pub open spec fn u64s_bytes(fs: Seq<u64>) -> Seq<u8>
    decreases fs.len(),
{
    if fs.len() == 0 {
        Seq::empty()
    } else {
        u64_le_bytes(fs[0]) + u64s_bytes(fs.skip(1))
    }
}

pub proof fn lemma_u64s_bytes_len(fs: Seq<u64>)
    ensures
        u64s_bytes(fs).len() == 8 * fs.len(),
    decreases fs.len(),
{
    if fs.len() != 0 {
        lemma_u64s_bytes_len(fs.skip(1));
    }
}

pub proof fn lemma_u64s_bytes_push(fs: Seq<u64>, x: u64)
    ensures
        u64s_bytes(fs.push(x)) == u64s_bytes(fs) + u64_le_bytes(x),
    decreases fs.len(),
{
    let p = fs.push(x);
    assert(p.len() == fs.len() + 1);
    assert(p[0] == if fs.len() == 0 {
        x
    } else {
        fs[0]
    });
    assert(u64s_bytes(p) == u64_le_bytes(p[0]) + u64s_bytes(p.skip(1)));
    if fs.len() == 0 {
        assert(p.skip(1) =~= Seq::<u64>::empty());
        assert(u64s_bytes(p.skip(1)) =~= Seq::<u8>::empty());
        assert(u64s_bytes(p) =~= u64s_bytes(fs) + u64_le_bytes(x));
    } else {
        assert(p.skip(1) =~= fs.skip(1).push(x));
        lemma_u64s_bytes_push(fs.skip(1), x);
        assert(u64s_bytes(fs) == u64_le_bytes(fs[0]) + u64s_bytes(fs.skip(1)));
        assert(u64s_bytes(p) =~= u64s_bytes(fs) + u64_le_bytes(x));
    }
}

pub proof fn lemma_u64s_bytes_field(fs: Seq<u64>, k: int)
    requires
        0 <= k < fs.len(),
    ensures
        u64s_bytes(fs).subrange(8 * k, 8 * k + 8) == u64_le_bytes(fs[k]),
    decreases k,
{
    lemma_u64s_bytes_len(fs);
    lemma_u64s_bytes_len(fs.skip(1));
    if k == 0 {
        assert(u64s_bytes(fs).subrange(0, 8) =~= u64_le_bytes(fs[0]));
    } else {
        lemma_u64s_bytes_field(fs.skip(1), k - 1);
        assert(u64s_bytes(fs).subrange(8 * k, 8 * k + 8) =~= u64s_bytes(fs.skip(1)).subrange(
            8 * (k - 1),
            8 * (k - 1) + 8,
        ));
    }
}

/// The canonical byte encoding of an attribute block.
pub open spec fn serial_attr(m: AttrModel) -> Seq<u8> {
    seq![kind_byte(m.attr.kind)] + u64s_bytes(attr_fields(m)) + m.file_name
}

/// The field at position `k` of an encoded attribute block.
pub open spec fn parsed_field(s: Seq<u8>, k: int) -> u64 {
    le_bytes_to_u64(s.subrange(1 + 8 * k, 9 + 8 * k))
}

/// Decodes an attribute block from its canonical byte encoding; yields
/// nothing when the bytes are not such an encoding.
pub open spec fn parse_attr(s: Seq<u8>) -> Option<AttrModel> {
    if s.len() < 121 {
        None
    } else if s[0] != 0 && s[0] != 1 {
        None
    } else if parsed_field(s, 7) > 0xffff || parsed_field(s, 8) > 0xffffffff || parsed_field(s, 9)
        > 0xffffffff || parsed_field(s, 10) > 0xffffffff || parsed_field(s, 11) > 0xffffffff
        || parsed_field(s, 12) > 0xffffffff {
        None
    } else if parsed_field(s, 14) != s.len() - 121 {
        None
    } else {
        Some(
            AttrModel {
                attr: FileAttr {
                    ino: parsed_field(s, 0),
                    size: parsed_field(s, 1),
                    blocks: parsed_field(s, 2),
                    atime: parsed_field(s, 3),
                    mtime: parsed_field(s, 4),
                    ctime: parsed_field(s, 5),
                    crtime: parsed_field(s, 6),
                    kind: if s[0] == 0 {
                        FileKind::Directory
                    } else {
                        FileKind::RegularFile
                    },
                    perm: parsed_field(s, 7) as u16,
                    nlink: parsed_field(s, 8) as u32,
                    uid: parsed_field(s, 9) as u32,
                    gid: parsed_field(s, 10) as u32,
                    rdev: parsed_field(s, 11) as u32,
                    flags: parsed_field(s, 12) as u32,
                },
                file_name: s.skip(121),
                parent_ino: parsed_field(s, 13),
            },
        )
    }
}

/// Decoding inverts encoding: parsing the canonical bytes of any attribute
/// block yields that block back.
pub proof fn lemma_parse_serial(m: AttrModel)
    requires
        m.file_name.len() <= u64::MAX,
    ensures
        parse_attr(serial_attr(m)) == Some(m),
{
    let fs = attr_fields(m);
    let s = serial_attr(m);
    lemma_u64s_bytes_len(fs);
    assert(s.len() == 121 + m.file_name.len());
    assert(s[0] == kind_byte(m.attr.kind));
    assert forall|k: int| 0 <= k < 15 implies #[trigger] parsed_field(s, k) == fs[k] by {
        lemma_u64s_bytes_field(fs, k);
        lemma_u64_le_round_trip(fs[k]);
        assert(s.subrange(1 + 8 * k, 9 + 8 * k) =~= u64s_bytes(fs).subrange(8 * k, 8 * k + 8));
    }
    assert(s.skip(121) =~= m.file_name);
    assert(parsed_field(s, 7) == m.attr.perm as u64);
    assert(parse_attr(s).unwrap().attr == m.attr);
    assert(parse_attr(s).unwrap() == m);
}

/// Encodes an attribute block into its canonical bytes.
pub fn serialize_xattr(x: &XFileAttr) -> (r: Vec<u8>)
    requires
        x.file_name@.len() <= u64::MAX,
    ensures
        r@ == serial_attr(x@),
{
    let mut out: Vec<u8> = Vec::new();
    let kb: u8 = match x.attr.kind {
        FileKind::Directory => 0,
        FileKind::RegularFile => 1,
    };
    out.push(kb);
    let mut fields: Vec<u64> = Vec::new();
    fields.push(x.attr.ino);
    fields.push(x.attr.size);
    fields.push(x.attr.blocks);
    fields.push(x.attr.atime);
    fields.push(x.attr.mtime);
    fields.push(x.attr.ctime);
    fields.push(x.attr.crtime);
    fields.push(x.attr.perm as u64);
    fields.push(x.attr.nlink as u64);
    fields.push(x.attr.uid as u64);
    fields.push(x.attr.gid as u64);
    fields.push(x.attr.rdev as u64);
    fields.push(x.attr.flags as u64);
    fields.push(x.parent_ino);
    fields.push(x.file_name.len() as u64);
    proof {
        assert(fields@ =~= attr_fields(x@));
    }
    let n = fields.len();
    let mut i: usize = 0;
    proof {
        assert(fields@.take(0) =~= Seq::<u64>::empty());
        assert(out@ =~= seq![kind_byte(x@.attr.kind)] + u64s_bytes(fields@.take(0)));
    }
    while i < n
        invariant
            n == fields@.len(),
            i <= n,
            fields@ == attr_fields(x@),
            out@ == seq![kind_byte(x@.attr.kind)] + u64s_bytes(fields@.take(i as int)),
        decreases n - i,
    {
        push_u64_le(&mut out, fields[i]);
        proof {
            lemma_u64s_bytes_push(fields@.take(i as int), fields@[i as int]);
            assert(fields@.take(i as int).push(fields@[i as int]) =~= fields@.take(i as int + 1));
            assert(out@ =~= seq![kind_byte(x@.attr.kind)] + u64s_bytes(fields@.take(i as int + 1)));
        }
        i = i + 1;
    }
    proof {
        assert(fields@.take(n as int) =~= fields@);
    }
    out.extend_from_slice(x.file_name.as_slice());
    proof {
        assert(out@ =~= serial_attr(x@));
    }
    out
}

/// Decodes an attribute block from bytes; `None` when the bytes are not a
/// canonical encoding.
pub fn parse_xattr(b: &[u8]) -> (r: Option<XFileAttr>)
    ensures
        r matches Some(x) ==> parse_attr(b@) == Some(x@),
        r is None <==> parse_attr(b@) is None,
{
    if b.len() < 121 {
        return None;
    }
    let kb = b[0];
    if kb != 0 && kb != 1 {
        return None;
    }
    let kind = if kb == 0 {
        FileKind::Directory
    } else {
        FileKind::RegularFile
    };
    let ino = read_u64_le(b, 1);
    let size = read_u64_le(b, 9);
    let blocks = read_u64_le(b, 17);
    let atime = read_u64_le(b, 25);
    let mtime = read_u64_le(b, 33);
    let ctime = read_u64_le(b, 41);
    let crtime = read_u64_le(b, 49);
    let perm = read_u64_le(b, 57);
    let nlink = read_u64_le(b, 65);
    let uid = read_u64_le(b, 73);
    let gid = read_u64_le(b, 81);
    let rdev = read_u64_le(b, 89);
    let flags = read_u64_le(b, 97);
    let parent_ino = read_u64_le(b, 105);
    let name_len = read_u64_le(b, 113);
    proof {
        assert forall|k: int| 0 <= k < 15 implies #[trigger] b@.subrange(1 + 8 * k, 9 + 8 * k)
            == b@.subrange(1 + 8 * k, 1 + 8 * k + 8) by {
            assert(b@.subrange(1 + 8 * k, 9 + 8 * k) =~= b@.subrange(1 + 8 * k, 1 + 8 * k + 8));
        }
    }
    if perm > 0xffff || nlink > 0xffffffff || uid > 0xffffffff || gid > 0xffffffff || rdev
        > 0xffffffff || flags > 0xffffffff {
        return None;
    }
    if name_len != (b.len() - 121) as u64 {
        return None;
    }
    let name_slice = vstd::slice::slice_subrange(b, 121, b.len());
    let file_name = vstd::slice::slice_to_vec(name_slice);
    proof {
        assert(file_name@ =~= b@.skip(121));
    }
    Some(
        XFileAttr {
            attr: FileAttr {
                ino,
                size,
                blocks,
                atime,
                mtime,
                ctime,
                crtime,
                kind,
                perm: perm as u16,
                nlink: nlink as u32,
                uid: uid as u32,
                gid: gid as u32,
                rdev: rdev as u32,
                flags: flags as u32,
            },
            file_name,
            parent_ino,
        },
    )
}

} // verus!
