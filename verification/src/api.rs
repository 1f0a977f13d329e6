//! The object-store client, wire side: the response record the server
//! sends for a node, the store requests the handler emits, and the
//! decoding of base64 metadata and hex hashes into checked values.
//!
//! Nothing here talks to the network.  The surrounding program performs
//! each `StoreOp` and feeds responses back in as plain values.

use vstd::prelude::*;

use crate::attr::XFileAttr;
use crate::attr::parse_attr;
use crate::attr::serial_attr;
use crate::crypto::cipher_of;
use crate::crypto::node_hash_of;
use crate::crypto::open_envelope;
use crate::crypto::seal_envelope;
use crate::crypto::seal_spec;
use crate::crypto::node_hash;
use crate::fs::File;
use crate::fs::FsError;
use crate::hex::from_hex;
use crate::hex::hex_of;
use crate::hex::to_hex;

verus! {

/// The record the server returns for `GET /node/{hash}`.
#[derive(Debug)]
pub struct Node {
    pub hash: String,
    pub metadata: String,
    pub metadata_hash: String,
    pub data_hash: String,
    pub parent_hash: String,
    pub is_dir: bool,
}

/// A store request for the surrounding program to perform.
#[derive(Debug)]
pub enum StoreOp {
    /// `DELETE /node/{hash}`.
    Delete { hash_hex: String },
    /// `POST /node` with the parent link, the kind tag and the metadata
    /// envelope.
    PutNode { hash_hex: String, parent_hash_hex: String, metadata_b64: String, is_dir: bool },
    /// `POST /root` with the metadata envelope.
    PutRoot { hash_hex: String, metadata_b64: String },
    /// Upload of a file's payload envelope.
    PutData { hash_hex: String, data_b64: String },
}

/// The base64 form of a byte string, named: the standard encoding is a
/// function of the bytes alone.
pub uninterp spec fn b64_of(b: Seq<u8>) -> Seq<char>;

/// Relies on base64's `STANDARD` engine `encode`.
#[verifier::external_body]
fn b64_encode(b: &Vec<u8>) -> (r: String)
    ensures
        r@ == b64_of(b@),
{
    <base64::engine::general_purpose::GeneralPurpose as base64::Engine>::encode(
        &base64::engine::general_purpose::STANDARD,
        b.as_slice(),
    )
}

/// Relies on base64's `STANDARD` engine `decode`: it accepts exactly the
/// canonical encodings (padding required, trailing bits rejected) and
/// inverts `encode` on them.  So a decoded value re-encodes to the input,
/// an input that is the encoding of some bytes always decodes, and the
/// decoded value is the only byte string whose encoding is the input.
#[verifier::external_body]
fn b64_decode(s: &str) -> (r: Option<Vec<u8>>)
    ensures
        r matches Some(d) ==> b64_of(d@) == s@,
        r is None ==> forall|d: Seq<u8>| b64_of(d) != s@,
        r matches Some(d) ==> forall|d2: Seq<u8>| b64_of(d2) == s@ ==> d2 == d@,
{
    match <base64::engine::general_purpose::GeneralPurpose as base64::Engine>::decode(
        &base64::engine::general_purpose::STANDARD,
        s,
    ) {
        Ok(v) => Some(v),
        Err(_) => None,
    }
}

/// Builds the request that removes an object.
pub fn op_delete(h: &Vec<u8>) -> (r: StoreOp)
    ensures
        (r matches StoreOp::Delete { hash_hex } && hash_hex@ == hex_of(h@)),
{
    StoreOp::Delete { hash_hex: to_hex(h.as_slice()) }
}

/// Builds the request that stores a node under a parent.
pub fn op_put_node(h: &Vec<u8>, parent_h: &Vec<u8>, meta_env: &Vec<u8>, is_dir: bool) -> (r:
    StoreOp)
    ensures
        (r matches StoreOp::PutNode { hash_hex, parent_hash_hex, metadata_b64, is_dir: d }
            && hash_hex@ == hex_of(h@) && parent_hash_hex@ == hex_of(parent_h@) && metadata_b64@
            == b64_of(meta_env@) && d == is_dir),
{
    StoreOp::PutNode {
        hash_hex: to_hex(h.as_slice()),
        parent_hash_hex: to_hex(parent_h.as_slice()),
        metadata_b64: b64_encode(meta_env),
        is_dir,
    }
}

/// Builds the request that stores the root node.
pub fn op_put_root(h: &Vec<u8>, meta_env: &Vec<u8>) -> (r: StoreOp)
    ensures
        (r matches StoreOp::PutRoot { hash_hex, metadata_b64 } && hash_hex@ == hex_of(h@)
            && metadata_b64@ == b64_of(meta_env@)),
{
    StoreOp::PutRoot { hash_hex: to_hex(h.as_slice()), metadata_b64: b64_encode(meta_env) }
}

/// Builds the request that uploads a file's payload envelope.
pub fn op_put_data(h: &Vec<u8>, data_env: &Vec<u8>) -> (r: StoreOp)
    ensures
        (r matches StoreOp::PutData { hash_hex, data_b64 } && hash_hex@ == hex_of(h@) && data_b64@
            == b64_of(data_env@)),
{
    StoreOp::PutData { hash_hex: to_hex(h.as_slice()), data_b64: b64_encode(data_env) }
}

/// Whether a store request deletes the object stored under `h`.
pub open spec fn op_is_delete(op: StoreOp, h: Seq<u8>) -> bool {
    match op {
        StoreOp::Delete { hash_hex } => hash_hex@ == hex_of(h),
        _ => false,
    }
}

/// Whether a store request puts a node with hash `h` under parent `ph`
/// with metadata envelope `me` and kind `d`.
pub open spec fn op_is_put_node(op: StoreOp, h: Seq<u8>, ph: Seq<u8>, me: Seq<u8>, d: bool) -> bool {
    match op {
        StoreOp::PutNode { hash_hex, parent_hash_hex, metadata_b64, is_dir } => hash_hex@ == hex_of(
            h,
        ) && parent_hash_hex@ == hex_of(ph) && metadata_b64@ == b64_of(me) && is_dir == d,
        _ => false,
    }
}

/// Whether a store request puts the root with hash `h` and metadata
/// envelope `me`.
pub open spec fn op_is_put_root(op: StoreOp, h: Seq<u8>, me: Seq<u8>) -> bool {
    match op {
        StoreOp::PutRoot { hash_hex, metadata_b64 } => hash_hex@ == hex_of(h) && metadata_b64@
            == b64_of(me),
        _ => false,
    }
}

/// Whether a store request uploads the payload envelope `pe` for the
/// object stored under `h`.
pub open spec fn op_is_put_data(op: StoreOp, h: Seq<u8>, pe: Seq<u8>) -> bool {
    match op {
        StoreOp::PutData { hash_hex, data_b64 } => hash_hex@ == hex_of(h) && data_b64@ == b64_of(
            pe,
        ),
        _ => false,
    }
}

/// The plaintext inside a metadata envelope.
pub open spec fn env_plain(env: Seq<u8>, key: Seq<u8>) -> Seq<u8> {
    cipher_of(key, env.subrange(0, 24), env.skip(24))
}

/// Decrypts and decodes a metadata envelope.  Succeeds exactly when the
/// envelope is long enough to carry its nonce, within the cipher's size
/// bound, and its plaintext is a canonical attribute encoding.
pub fn get_xattr_env(env: &Vec<u8>, key: &Vec<u8>) -> (r: Result<XFileAttr, FsError>)
    requires
        key@.len() == 32,
    ensures
        match r {
            Result::Ok(x) => env@.len() >= 24 && parse_attr(env_plain(env@, key@)) == Some(x@),
            Result::Err(e) => e == FsError::DecryptCorrupt && (env@.len() < 24 || env@.len()
                >= 0x2000000000 || parse_attr(env_plain(env@, key@)) is None),
        },
{
    if env.len() as u64 >= 0x2000000000u64 {
        return Err(FsError::DecryptCorrupt);
    }
    match open_envelope(env, key) {
        Some((_nonce, pt)) => {
            match crate::attr::parse_xattr(pt.as_slice()) {
                Some(x) => Ok(x),
                None => Err(FsError::DecryptCorrupt),
            }
        },
        None => Err(FsError::DecryptCorrupt),
    }
}

/// Decodes the server's metadata field for a node and decrypts it.
/// Succeeds exactly when the field is the base64 form of a well-formed
/// metadata envelope; a field that is no base64 encoding at all is the
/// server garbling the wire, an integrity violation.
pub fn get_xattr(node: &Node, key: &Vec<u8>) -> (r: Result<XFileAttr, FsError>)
    requires
        key@.len() == 32,
    ensures
        (r matches Result::Ok(x) ==> (exists|env: Seq<u8>| b64_of(env) == node.metadata@)
            && forall|env: Seq<u8>|
            b64_of(env) == node.metadata@ ==> env.len() >= 24 && parse_attr(env_plain(env, key@))
                == Some(x@)),
        r == Result::<XFileAttr, FsError>::Err(FsError::IntegrityViolation) <==> (forall|
            env: Seq<u8>,
        | b64_of(env) != node.metadata@),
        (r matches Result::Err(e) ==> e == FsError::IntegrityViolation || e
            == FsError::DecryptCorrupt),
        r == Result::<XFileAttr, FsError>::Err(FsError::DecryptCorrupt) ==> exists|env: Seq<u8>|
            b64_of(env) == node.metadata@ && (env.len() < 24 || env.len() >= 0x2000000000
                || parse_attr(env_plain(env, key@)) is None),
        (exists|env: Seq<u8>|
            b64_of(env) == node.metadata@ && 24 <= env.len() < 0x2000000000 && parse_attr(
                env_plain(env, key@),
            ) is Some) ==> r is Ok,
{
    match b64_decode(node.metadata.as_str()) {
        Some(env) => {
            match get_xattr_env(&env, key) {
                Ok(x) => {
                    proof {
                        assert(b64_of(env@) == node.metadata@ && env@.len() >= 24 && parse_attr(
                            env_plain(env@, key@),
                        ) == Some(x@));
                        assert forall|env2: Seq<u8>|
                            b64_of(env2) == node.metadata@ implies env2.len() >= 24 && parse_attr(
                            env_plain(env2, key@),
                        ) == Some(x@) by {
                            assert(env2 == env@);
                        }
                    }
                    Ok(x)
                },
                Err(e) => {
                    proof {
                        assert(b64_of(env@) == node.metadata@);
                    }
                    Err(e)
                },
            }
        },
        None => Err(FsError::IntegrityViolation),
    }
}

/// The nonce carried at the front of an envelope.
pub fn get_nonce(env: &Vec<u8>) -> (r: Option<Vec<u8>>)
    ensures
        env@.len() < 24 ==> r is None,
        env@.len() >= 24 ==> (r matches Some(n) && n@ == env@.subrange(0, 24)),
{
    if env.len() < 24 {
        return None;
    }
    let s = vstd::slice::slice_subrange(env.as_slice(), 0, 24);
    Some(vstd::slice::slice_to_vec(s))
}

/// Decrypts a payload envelope.  Succeeds exactly when the envelope
/// carries its nonce and fits the cipher's size bound.
pub fn get_data(env: &Vec<u8>, key: &Vec<u8>) -> (r: Result<Vec<u8>, FsError>)
    requires
        key@.len() == 32,
    ensures
        match r {
            Result::Ok(d) => env@.len() >= 24 && d@ == cipher_of(
                key@,
                env@.subrange(0, 24),
                env@.skip(24),
            ),
            Result::Err(e) => e == FsError::DecryptCorrupt && (env@.len() < 24 || env@.len()
                >= 0x2000000000),
        },
{
    if env.len() as u64 >= 0x2000000000u64 {
        return Err(FsError::DecryptCorrupt);
    }
    match open_envelope(env, key) {
        Some((_nonce, pt)) => Ok(pt),
        None => Err(FsError::DecryptCorrupt),
    }
}

/// Decodes a server child listing from hex strings to raw hashes.
/// Succeeds exactly when every string is a lowercase hex encoding.
pub fn get_child_hashes(listed: &Vec<String>) -> (r: Result<Vec<Vec<u8>>, FsError>)
    ensures
        match r {
            Result::Ok(v) => v@.len() == listed@.len() && forall|i: int|
                0 <= i < v@.len() ==> (#[trigger] listed@[i])@ == hex_of(v@[i]@),
            Result::Err(e) => e == FsError::IntegrityViolation && exists|i: int|
                0 <= i < listed@.len() && forall|b: Seq<u8>| (#[trigger] listed@[i])@ != hex_of(b),
        },
{
    let mut out: Vec<Vec<u8>> = Vec::new();
    let n = listed.len();
    let mut i: usize = 0;
    while i < n
        invariant
            n == listed@.len(),
            i <= n,
            out@.len() == i,
            forall|k: int| 0 <= k < i ==> (#[trigger] listed@[k])@ == hex_of(out@[k]@),
        decreases n - i,
    {
        match from_hex(listed[i].as_str()) {
            Some(d) => {
                out.push(d);
            },
            None => {
                return Err(FsError::IntegrityViolation);
            },
        }
        i = i + 1;
    }
    Ok(out)
}

/// A fetched node after wire decoding: raw hash, raw envelopes, raw
/// child hashes.  What the handler verifies and installs.
#[derive(Debug)]
pub struct FetchedNode {
    pub hash: Vec<u8>,
    pub meta_env: Vec<u8>,
    pub payload_env: Option<Vec<u8>>,
    pub children: Vec<Vec<u8>>,
    pub is_dir: bool,
}

/// The mathematical model of a fetched node.
pub struct FetchedModel {
    pub hash: Seq<u8>,
    pub meta_env: Seq<u8>,
    pub payload_env: Option<Seq<u8>>,
    pub children: Seq<Seq<u8>>,
    pub is_dir: bool,
}

impl View for FetchedNode {
    type V = FetchedModel;

    open spec fn view(&self) -> FetchedModel {
        FetchedModel {
            hash: self.hash@,
            meta_env: self.meta_env@,
            payload_env: match self.payload_env {
                Option::Some(ref p) => Option::Some(p@),
                Option::None => Option::None,
            },
            children: crate::crypto::views_of(self.children@),
            is_dir: self.is_dir,
        }
    }
}

/// Whether a server response is well-encoded on the wire: the node's
/// hash and every listed child hash are hex encodings, and the metadata
/// and payload fields are base64 encodings.
pub open spec fn remote_decodable(
    node: Node,
    children_hex: Seq<String>,
    payload_b64: Option<String>,
) -> bool {
    &&& (exists|d: Seq<u8>| node.hash@ == hex_of(d))
    &&& (exists|m: Seq<u8>| b64_of(m) == node.metadata@)
    &&& (forall|i: int|
        0 <= i < children_hex.len() ==> exists|c: Seq<u8>| (#[trigger] children_hex[i])@ == hex_of(
            c,
        ))
    &&& (match payload_b64 {
        Option::Some(s) => exists|p: Seq<u8>| b64_of(p) == s@,
        Option::None => true,
    })
}

/// Decodes a server response — the node record, its child listing, and
/// an optional payload body — into raw bytes.  Succeeds exactly when
/// every field is the encoding it claims to be; anything else counts as
/// the server garbling the wire, an integrity violation.
pub fn decode_remote(node: &Node, children_hex: &Vec<String>, payload_b64: &Option<String>) -> (r:
    Result<FetchedNode, FsError>)
    ensures
        r matches Ok(f) ==> {
            &&& node.hash@ == hex_of(f@.hash)
            &&& b64_of(f@.meta_env) == node.metadata@
            &&& f@.is_dir == node.is_dir
            &&& f@.children.len() == children_hex@.len()
            &&& forall|i: int|
                0 <= i < children_hex@.len() ==> (#[trigger] children_hex@[i])@ == hex_of(
                    f@.children[i],
                )
            &&& match (payload_b64, f@.payload_env) {
                (Option::Some(s), Option::Some(p)) => b64_of(p) == s@,
                (Option::None, Option::None) => true,
                _ => false,
            }
        },
        r is Ok <==> remote_decodable(*node, children_hex@, *payload_b64),
        r matches Err(e) ==> e == FsError::IntegrityViolation,
{
    let hash = match from_hex(node.hash.as_str()) {
        Some(h) => h,
        None => {
            return Err(FsError::IntegrityViolation);
        },
    };
    let meta_env = match b64_decode(node.metadata.as_str()) {
        Some(m) => m,
        None => {
            return Err(FsError::IntegrityViolation);
        },
    };
    let children = match get_child_hashes(children_hex) {
        Ok(c) => c,
        Err(e) => {
            proof {
                let i = choose|i: int|
                    0 <= i < children_hex@.len() && forall|b: Seq<u8>|
                        (#[trigger] children_hex@[i])@ != hex_of(b);
                assert(!remote_decodable(*node, children_hex@, *payload_b64));
            }
            return Err(e);
        },
    };
    let payload_env = match payload_b64 {
        Some(s) => {
            match b64_decode(s.as_str()) {
                Some(p) => Some(p),
                None => {
                    return Err(FsError::IntegrityViolation);
                },
            }
        },
        None => None,
    };
    proof {
        assert(remote_decodable(*node, children_hex@, *payload_b64)) by {
            assert(node.hash@ == hex_of(hash@));
            assert(b64_of(meta_env@) == node.metadata@);
            assert forall|i: int| 0 <= i < children_hex@.len() implies exists|c: Seq<u8>| (
            #[trigger] children_hex@[i])@ == hex_of(c) by {
                assert(children_hex@[i]@ == hex_of(children@[i]@));
            }
        }
    }
    Ok(FetchedNode { hash, meta_env, payload_env, children, is_dir: node.is_dir })
}

/// Builds the root node's envelope and hash for `POST /root`.
pub fn new_root(xattr: &XFileAttr, key: &Vec<u8>, nonce: &Vec<u8>) -> (r: (Vec<u8>, Vec<u8>, StoreOp))
    requires
        key@.len() == 32,
        nonce@.len() == 24,
        xattr.file_name@.len() < 0x100000,
    ensures
        r.1@ == seal_spec(serial_attr(xattr@), key@, nonce@),
        r.0@ == node_hash_of(r.1@, Option::None),
        r.0@.len() == 48,
        (r.2 matches StoreOp::PutRoot { hash_hex, metadata_b64 } && hash_hex@ == hex_of(r.0@)
            && metadata_b64@ == b64_of(r.1@)),
{
    let plain = crate::attr::serialize_xattr(xattr);
    proof {
        crate::attr::lemma_u64s_bytes_len(crate::attr::attr_fields(xattr@));
    }
    let env = seal_envelope(&plain, key, nonce);
    let h = node_hash(&env, Option::None);
    let op = op_put_root(&h, &env);
    (h, env, op)
}

/// Builds a new directory node's envelope, hash and insert request.
pub fn mkdir(xattr: &XFileAttr, parent_hash: &Vec<u8>, key: &Vec<u8>, nonce: &Vec<u8>) -> (r: (
    Vec<u8>,
    Vec<u8>,
    StoreOp,
))
    requires
        key@.len() == 32,
        nonce@.len() == 24,
        xattr.file_name@.len() < 0x100000,
    ensures
        r.1@ == seal_spec(serial_attr(xattr@), key@, nonce@),
        r.0@ == node_hash_of(r.1@, Option::None),
        r.0@.len() == 48,
        (r.2 matches StoreOp::PutNode { hash_hex, parent_hash_hex, metadata_b64, is_dir }
            && hash_hex@ == hex_of(r.0@) && parent_hash_hex@ == hex_of(parent_hash@)
            && metadata_b64@ == b64_of(r.1@) && is_dir),
{
    let plain = crate::attr::serialize_xattr(xattr);
    proof {
        crate::attr::lemma_u64s_bytes_len(crate::attr::attr_fields(xattr@));
    }
    let env = seal_envelope(&plain, key, nonce);
    let h = node_hash(&env, Option::None);
    let op = op_put_node(&h, parent_hash, &env, true);
    (h, env, op)
}

/// Builds a new empty file node's envelope, hash and insert request.
pub fn create(xattr: &XFileAttr, parent_hash: &Vec<u8>, key: &Vec<u8>, nonce: &Vec<u8>) -> (r: (
    Vec<u8>,
    Vec<u8>,
    StoreOp,
))
    requires
        key@.len() == 32,
        nonce@.len() == 24,
        xattr.file_name@.len() < 0x100000,
    ensures
        r.1@ == seal_spec(serial_attr(xattr@), key@, nonce@),
        r.0@ == node_hash_of(r.1@, Option::None),
        r.0@.len() == 48,
        (r.2 matches StoreOp::PutNode { hash_hex, parent_hash_hex, metadata_b64, is_dir }
            && hash_hex@ == hex_of(r.0@) && parent_hash_hex@ == hex_of(parent_hash@)
            && metadata_b64@ == b64_of(r.1@) && !is_dir),
{
    let plain = crate::attr::serialize_xattr(xattr);
    proof {
        crate::attr::lemma_u64s_bytes_len(crate::attr::attr_fields(xattr@));
    }
    let env = seal_envelope(&plain, key, nonce);
    let h = node_hash(&env, Option::None);
    let op = op_put_node(&h, parent_hash, &env, false);
    (h, env, op)
}

/// Encrypts a file's payload into its envelope and builds the upload
/// request for it.
pub fn write_data(hash: &Vec<u8>, data: &Vec<u8>, key: &Vec<u8>, nonce: &Vec<u8>) -> (r: (
    Vec<u8>,
    StoreOp,
))
    requires
        key@.len() == 32,
        nonce@.len() == 24,
        data@.len() < 0x2000000000,
    ensures
        r.0@ == seal_spec(data@, key@, nonce@),
        cipher_of(key@, nonce@, r.0@.skip(24)) == data@,
        (r.1 matches StoreOp::PutData { hash_hex, data_b64 } && hash_hex@ == hex_of(hash@)
            && data_b64@ == b64_of(r.0@)),
{
    let env = seal_envelope(data, key, nonce);
    let op = op_put_data(hash, &env);
    (env, op)
}

/// Re-encrypts a node's metadata and payload and computes the hash the
/// server must index the new version under.
pub fn set_xattr(file: &File, key: &Vec<u8>, meta_nonce: &Vec<u8>, payload_nonce: &Vec<u8>) -> (r: (
    Vec<u8>,
    String,
))
    requires
        key@.len() == 32,
        meta_nonce@.len() == 24,
        payload_nonce@.len() == 24,
        file.xattr.file_name@.len() < 0x100000,
        file.data@.len() < 0x2000000000,
    ensures
        r.0@ == node_hash_of(
            seal_spec(serial_attr(file.xattr@), key@, meta_nonce@),
            if file.data@.len() == 0 {
                Option::None
            } else {
                Option::Some(seal_spec(file.data@, key@, payload_nonce@))
            },
        ),
        r.1@ == b64_of(seal_spec(serial_attr(file.xattr@), key@, meta_nonce@)),
{
    let (h, meta_env, _payload_env) = crate::crypto::encrypt_and_hash_file(
        file,
        key,
        meta_nonce,
        payload_nonce,
    );
    let b = b64_encode(&meta_env);
    (h, b)
}

} // verus!
