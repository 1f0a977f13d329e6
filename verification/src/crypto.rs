//! The crypto envelope: the XChaCha20 stream cipher, SHA-384 content
//! hashing, nonce generation, and the node-hash composition rule.
//!
//! Every object stored on the server is an envelope `nonce ‖ ciphertext`;
//! a node's content identifier is derived from its encrypted metadata and,
//! when present, its encrypted payload (for directories: the concatenation
//! of its children's node hashes in canonical order).

use vstd::prelude::*;

use crate::attr::XFileAttr;
use crate::attr::serial_attr;
use crate::attr::serialize_xattr;
use crate::fs::File;
use crate::hex::hex_of;
use crate::hex::to_hex;

verus! {

/// The SHA-384 digest of a byte string, named: the digest is a function of
/// the input alone.
pub uninterp spec fn sha384_of(data: Seq<u8>) -> Seq<u8>;

/// The XChaCha20 keystream of (key, nonce) XORed over a byte string,
/// named: it depends on the key, the nonce and the data alone.
pub uninterp spec fn cipher_of(key: Seq<u8>, nonce: Seq<u8>, data: Seq<u8>) -> Seq<u8>;

/// Relies on sha2's `Sha384`: a 48-byte digest computed from the input
/// bytes alone.
#[verifier::external_body]
fn sha384(data: &[u8]) -> (r: Vec<u8>)
    ensures
        r@ == sha384_of(data@),
        r@.len() == 48,
{
    let d = <sha2::Sha384 as sha2::Digest>::digest(data);
    d.as_slice().to_vec()
}

/// Relies on chacha20's `XChaCha20` (256-bit key, 192-bit nonce): applying
/// the keystream XORs it over the data, so the output length equals the
/// input length and applying the same keystream again restores the input.
#[verifier::external_body]
fn xchacha20_apply(data: &Vec<u8>, key: &Vec<u8>, nonce: &Vec<u8>) -> (r: Vec<u8>)
    requires
        key@.len() == 32,
        nonce@.len() == 24,
        data@.len() < 0x2000000000,
    ensures
        r@.len() == data@.len(),
        r@ == cipher_of(key@, nonce@, data@),
        cipher_of(key@, nonce@, r@) == data@,
{
    let mut buf = data.clone();
    let mut c = <chacha20::XChaCha20 as chacha20::cipher::KeyIvInit>::new_from_slices(
        key.as_slice(),
        nonce.as_slice(),
    ).expect("key and nonce lengths are fixed by the caller");
    chacha20::cipher::StreamCipher::apply_keystream(&mut c, buf.as_mut_slice());
    buf
}

/// Relies on getrandom's `fill`: on success the buffer holds bytes from
/// the system's random source; nothing is promised of their values.
#[verifier::external_body]
fn fill_random(buf: &mut Vec<u8>) -> (ok: bool)
    ensures
        final(buf)@.len() == old(buf)@.len(),
{
    getrandom::fill(buf.as_mut_slice()).is_ok()
}

/// The SHA-384 content hash of `data`: 48 bytes.
pub fn hash(data: &[u8]) -> (r: Vec<u8>)
    ensures
        r@ == sha384_of(data@),
        r@.len() == 48,
{
    sha384(data)
}

/// The SHA-384 content hash of `data` as its 96-character lowercase hex
/// string.
pub fn hash_s(data: &[u8]) -> (r: String)
    ensures
        r@ == hex_of(sha384_of(data@)),
        r@.len() == 96,
{
    let h = hash(data);
    to_hex(h.as_slice())
}

/// Draws a fresh 24-byte nonce from the system's random source; `None`
/// when the source fails.  XChaCha20's 192-bit nonce is used so that the
/// many small objects encrypted under one key cannot collide on nonces
/// with any noticeable probability.
pub fn generate_nonce() -> (r: Option<Vec<u8>>)
    ensures
        r matches Some(v) ==> v@.len() == 24,
{
    let mut v: Vec<u8> = Vec::new();
    let mut i: usize = 0;
    while i < 24
        invariant
            v@.len() == i,
            i <= 24,
        decreases 24 - i,
    {
        v.push(0);
        i = i + 1;
    }
    if fill_random(&mut v) {
        Some(v)
    } else {
        None
    }
}

/// Encrypts `data` under (key, nonce) with XChaCha20.  Applying the same
/// keystream to the result restores `data`.
pub fn encrypt(data: &Vec<u8>, key: &Vec<u8>, nonce: &Vec<u8>) -> (r: Vec<u8>)
    requires
        key@.len() == 32,
        nonce@.len() == 24,
        data@.len() < 0x2000000000,
    ensures
        r@ == cipher_of(key@, nonce@, data@),
        r@.len() == data@.len(),
        cipher_of(key@, nonce@, r@) == data@,
{
    xchacha20_apply(data, key, nonce)
}

/// Decrypts `encrypted` under (key, nonce): the stream cipher is its own
/// inverse.
pub fn decrypt(encrypted: &Vec<u8>, key: &Vec<u8>, nonce: &Vec<u8>) -> (r: Vec<u8>)
    requires
        key@.len() == 32,
        nonce@.len() == 24,
        encrypted@.len() < 0x2000000000,
    ensures
        r@ == cipher_of(key@, nonce@, encrypted@),
        r@.len() == encrypted@.len(),
        cipher_of(key@, nonce@, r@) == encrypted@,
{
    xchacha20_apply(encrypted, key, nonce)
}

/// The on-the-wire envelope of a plaintext: the nonce followed by the
/// ciphertext.
pub open spec fn seal_spec(pt: Seq<u8>, key: Seq<u8>, nonce: Seq<u8>) -> Seq<u8> {
    nonce + cipher_of(key, nonce, pt)
}

/// Builds the envelope `nonce ‖ ciphertext` for a plaintext.  Opening the
/// ciphertext part under the same key and nonce restores the plaintext.
pub fn seal_envelope(pt: &Vec<u8>, key: &Vec<u8>, nonce: &Vec<u8>) -> (r: Vec<u8>)
    requires
        key@.len() == 32,
        nonce@.len() == 24,
        pt@.len() < 0x2000000000,
    ensures
        r@ == seal_spec(pt@, key@, nonce@),
        r@.len() == 24 + pt@.len(),
        r@.subrange(0, 24) == nonce@,
        r@.skip(24) == cipher_of(key@, nonce@, pt@),
        cipher_of(key@, nonce@, r@.skip(24)) == pt@,
{
    let ct = encrypt(pt, key, nonce);
    let mut out = nonce.clone();
    proof {
        assert(out@ =~= nonce@);
    }
    out.extend_from_slice(ct.as_slice());
    proof {
        assert(out@ =~= seal_spec(pt@, key@, nonce@));
        assert(out@.subrange(0, 24) =~= nonce@);
        assert(out@.skip(24) =~= cipher_of(key@, nonce@, pt@));
    }
    out
}

/// Opens an envelope `nonce ‖ ciphertext`: yields the nonce and the
/// decrypted plaintext, or `None` when the envelope is too short to hold
/// a nonce.
pub fn open_envelope(env: &Vec<u8>, key: &Vec<u8>) -> (r: Option<(Vec<u8>, Vec<u8>)>)
    requires
        key@.len() == 32,
        env@.len() < 0x2000000000,
    ensures
        env@.len() < 24 ==> r is None,
        env@.len() >= 24 ==> (r matches Some(p) && p.0@ == env@.subrange(0, 24) && p.1@
            == cipher_of(key@, env@.subrange(0, 24), env@.skip(24)) && p.1@.len() == env@.len()
            - 24),
{
    if env.len() < 24 {
        return None;
    }
    let nonce_slice = vstd::slice::slice_subrange(env.as_slice(), 0, 24);
    let nonce = vstd::slice::slice_to_vec(nonce_slice);
    let ct_slice = vstd::slice::slice_subrange(env.as_slice(), 24, env.len());
    let ct = vstd::slice::slice_to_vec(ct_slice);
    proof {
        assert(ct@ =~= env@.skip(24));
    }
    let pt = decrypt(&ct, key, &nonce);
    Some((nonce, pt))
}

/// A node's content identifier.  The metadata envelope is hashed; a node
/// with a payload slot also hashes that slot and then the pair of digests;
/// a node without one hashes the metadata digest alone.
pub open spec fn node_hash_of(meta_env: Seq<u8>, payload: Option<Seq<u8>>) -> Seq<u8> {
    match payload {
        Option::None => sha384_of(sha384_of(meta_env)),
        Option::Some(p) => sha384_of(sha384_of(meta_env) + sha384_of(p)),
    }
}

/// Computes a node hash from the metadata envelope and the optional
/// payload slot.  Computing it twice over the same inputs yields the same
/// 48 bytes: the result is a function of the inputs alone.
pub fn node_hash(meta_env: &Vec<u8>, payload: Option<&Vec<u8>>) -> (r: Vec<u8>)
    ensures
        r@ == node_hash_of(
            meta_env@,
            match payload {
                Option::None => Option::None,
                Option::Some(p) => Option::Some(p@),
            },
        ),
        r@.len() == 48,
{
    let h_meta = hash(meta_env.as_slice());
    match payload {
        Option::None => hash(h_meta.as_slice()),
        Option::Some(p) => {
            let h_payload = hash(p.as_slice());
            let mut joined = h_meta;
            out_extend(&mut joined, &h_payload);
            hash(joined.as_slice())
        },
    }
}

/// Appends `src` to `dst`.
fn out_extend(dst: &mut Vec<u8>, src: &Vec<u8>)
    ensures
        final(dst)@ == old(dst)@ + src@,
{
    dst.extend_from_slice(src.as_slice());
    proof {
        assert(dst@ =~= old(dst)@ + src@);
    }
}

/// The concatenation of a list of child hashes, in order.
pub open spec fn concat_hashes(hs: Seq<Seq<u8>>) -> Seq<u8>
    decreases hs.len(),
{
    if hs.len() == 0 {
        Seq::empty()
    } else {
        hs[0] + concat_hashes(hs.skip(1))
    }
}

pub proof fn lemma_concat_hashes_push(hs: Seq<Seq<u8>>, x: Seq<u8>)
    ensures
        concat_hashes(hs.push(x)) == concat_hashes(hs) + x,
    decreases hs.len(),
{
    let p = hs.push(x);
    assert(concat_hashes(p) == p[0] + concat_hashes(p.skip(1)));
    if hs.len() == 0 {
        assert(p.skip(1) =~= Seq::<Seq<u8>>::empty());
        assert(concat_hashes(p) =~= concat_hashes(hs) + x);
    } else {
        assert(p.skip(1) =~= hs.skip(1).push(x));
        lemma_concat_hashes_push(hs.skip(1), x);
        assert(concat_hashes(hs) == hs[0] + concat_hashes(hs.skip(1)));
        assert(concat_hashes(p) =~= concat_hashes(hs) + x);
    }
}

/// The views of a list of hash vectors.
pub open spec fn views_of(hs: Seq<Vec<u8>>) -> Seq<Seq<u8>> {
    hs.map_values(|v: Vec<u8>| v@)
}

/// A directory's node hash over its metadata envelope and its child
/// hashes in canonical order: the payload slot is the concatenation of
/// the child hashes, and a directory with no children hashes its metadata
/// alone.
pub open spec fn dir_hash_of(meta_env: Seq<u8>, children: Seq<Seq<u8>>) -> Seq<u8> {
    if children.len() == 0 {
        node_hash_of(meta_env, Option::None)
    } else {
        node_hash_of(meta_env, Option::Some(concat_hashes(children)))
    }
}

/// Computes a directory's node hash from its metadata envelope and its
/// child hash list, which the caller keeps in canonical order.
pub fn hash_of_dir(meta_env: &Vec<u8>, children: &Vec<Vec<u8>>) -> (r: Vec<u8>)
    ensures
        r@ == dir_hash_of(meta_env@, views_of(children@)),
        r@.len() == 48,
{
    if children.len() == 0 {
        return node_hash(meta_env, Option::None);
    }
    let mut payload: Vec<u8> = Vec::new();
    let n = children.len();
    let mut i: usize = 0;
    proof {
        assert(views_of(children@).take(0) =~= Seq::<Seq<u8>>::empty());
        assert(payload@ =~= concat_hashes(views_of(children@).take(0)));
    }
    while i < n
        invariant
            n == children@.len(),
            i <= n,
            payload@ == concat_hashes(views_of(children@).take(i as int)),
        decreases n - i,
    {
        out_extend(&mut payload, &children[i]);
        proof {
            lemma_concat_hashes_push(views_of(children@).take(i as int), children@[i as int]@);
            assert(views_of(children@).take(i as int).push(children@[i as int]@) =~= views_of(
                children@,
            ).take(i as int + 1));
        }
        i = i + 1;
    }
    proof {
        assert(views_of(children@).take(n as int) =~= views_of(children@));
    }
    node_hash(meta_env, Option::Some(&payload))
}

/// The integrity check behind tamper detection: a node fetched under an
/// expected hash is accepted exactly when the hash recomputed from what
/// was fetched equals the expected one.
pub open spec fn node_matches(expected: Seq<u8>, meta_env: Seq<u8>, payload: Option<Seq<u8>>) -> bool {
    expected == node_hash_of(meta_env, payload)
}

/// Recomputes a node's hash from the fetched envelope and payload slot
/// and compares it with the expected content identifier.
pub fn verify_merkle_hashes(expected: &Vec<u8>, meta_env: &Vec<u8>, payload: Option<&Vec<u8>>) -> (r:
    bool)
    ensures
        r == node_matches(
            expected@,
            meta_env@,
            match payload {
                Option::None => Option::None,
                Option::Some(p) => Option::Some(p@),
            },
        ),
{
    let computed = node_hash(meta_env, payload);
    let eq = expected == &computed;
    proof {
        if expected@ =~= computed@ {
            assert(expected@ == computed@);
        }
    }
    eq
}

/// Tamper detection, reduced to the hash comparison: whenever the content
/// fetched for a node hashes to anything other than the expected
/// identifier, the integrity check rejects it.  (That flipping a stored
/// byte changes the SHA-384 digest is a property of the hash function
/// itself and stands outside what can be proved here; the tests exercise
/// it on concrete values.)
pub proof fn lemma_tamper_detected(expected: Seq<u8>, meta_env: Seq<u8>, payload: Option<Seq<u8>>)
    requires
        node_hash_of(meta_env, payload) != expected,
    ensures
        !node_matches(expected, meta_env, payload),
{
}

/// Encrypts a file's metadata and payload under fresh nonces and computes
/// its node hash.  Returns (node hash, metadata envelope, payload
/// envelope); the payload envelope takes part in the hash only when the
/// file holds data.
pub fn encrypt_and_hash_file(
    file: &File,
    key: &Vec<u8>,
    meta_nonce: &Vec<u8>,
    payload_nonce: &Vec<u8>,
) -> (r: (Vec<u8>, Vec<u8>, Vec<u8>))
    requires
        key@.len() == 32,
        meta_nonce@.len() == 24,
        payload_nonce@.len() == 24,
        file.xattr.file_name@.len() < 0x100000,
        file.data@.len() < 0x2000000000,
    ensures
        r.1@ == seal_spec(serial_attr(file.xattr@), key@, meta_nonce@),
        cipher_of(key@, meta_nonce@, r.1@.skip(24)) == serial_attr(file.xattr@),
        r.2@ == seal_spec(file.data@, key@, payload_nonce@),
        cipher_of(key@, payload_nonce@, r.2@.skip(24)) == file.data@,
        r.0@ == node_hash_of(
            r.1@,
            if file.data@.len() == 0 {
                Option::None
            } else {
                Option::Some(r.2@)
            },
        ),
        r.0@.len() == 48,
{
    let plain_meta = serialize_xattr(&file.xattr);
    proof {
        crate::attr::lemma_u64s_bytes_len(crate::attr::attr_fields(file.xattr@));
        assert(plain_meta@.len() == 121 + file.xattr.file_name@.len());
    }
    let meta_env = seal_envelope(&plain_meta, key, meta_nonce);
    let payload_env = seal_envelope(&file.data, key, payload_nonce);
    let h = if file.data.len() == 0 {
        node_hash(&meta_env, Option::None)
    } else {
        node_hash(&meta_env, Option::Some(&payload_env))
    };
    (h, meta_env, payload_env)
}

} // verus!
