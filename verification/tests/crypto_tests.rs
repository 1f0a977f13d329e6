use q1fs::crypto::{
    decrypt, encrypt, encrypt_and_hash_file, generate_nonce, hash, hash_of_dir, hash_s,
    node_hash, open_envelope, seal_envelope, verify_merkle_hashes,
};
use q1fs::attr::{FileAttr, FileKind, XFileAttr};
use q1fs::fs::File;

fn test_key() -> Vec<u8> {
    hash(b"test key material")[..32].to_vec()
}

fn nonce_of(b: u8) -> Vec<u8> {
    vec![b; 24]
}

fn sample_xattr(name: &[u8]) -> XFileAttr {
    XFileAttr {
        attr: FileAttr {
            ino: 7,
            size: 5,
            blocks: 0,
            atime: 100,
            mtime: 200,
            ctime: 300,
            crtime: 400,
            kind: FileKind::RegularFile,
            perm: 0o644,
            nlink: 1,
            uid: 1000,
            gid: 1000,
            rdev: 0,
            flags: 0,
        },
        file_name: name.to_vec(),
        parent_ino: 1,
    }
}

#[test]
fn sha384_known_vectors() {
    assert_eq!(
        hash_s(b""),
        "38b060a751ac96384cd9327eb1b1e36a21fdb71114be07434c0cc7bf63f6e1da274edebfe76f65fbd51ad2f14898b95b"
    );
    assert_eq!(
        hash_s(b"abc"),
        "cb00753f45a35e8bb5a03d699ac65007272c32ab0eded1631a8b605a43ff5bed8086072ba1e7cc2358baeca134c825a7"
    );
    assert_eq!(hash(b"abc").len(), 48);
}

#[test]
fn hash_is_deterministic() {
    let a = hash(b"some bytes");
    let b = hash(b"some bytes");
    assert_eq!(a, b);
}

#[test]
fn node_hash_is_deterministic() {
    let meta = vec![1u8, 2, 3, 4];
    let payload = vec![9u8, 9, 9];
    let h1 = node_hash(&meta, Some(&payload));
    let h2 = node_hash(&meta, Some(&payload));
    assert_eq!(h1, h2);
    let h3 = node_hash(&meta, None);
    let h4 = node_hash(&meta, None);
    assert_eq!(h3, h4);
    assert_ne!(h1, h3);
}

#[test]
fn cipher_round_trip() {
    let key = test_key();
    let nonce = nonce_of(7);
    let plain = b"the quick brown fox".to_vec();
    let ct = encrypt(&plain, &key, &nonce);
    assert_eq!(ct.len(), plain.len());
    assert_ne!(ct, plain);
    let back = decrypt(&ct, &key, &nonce);
    assert_eq!(back, plain);
}

#[test]
fn envelope_round_trip() {
    let key = test_key();
    let nonce = nonce_of(3);
    let plain = b"payload bytes".to_vec();
    let env = seal_envelope(&plain, &key, &nonce);
    assert_eq!(env.len(), 24 + plain.len());
    assert_eq!(&env[..24], &nonce[..]);
    let (n2, p2) = open_envelope(&env, &key).unwrap();
    assert_eq!(n2, nonce);
    assert_eq!(p2, plain);
}

#[test]
fn envelope_too_short_is_rejected() {
    let key = test_key();
    let short = vec![0u8; 23];
    assert!(open_envelope(&short, &key).is_none());
}

#[test]
fn generate_nonce_is_fresh() {
    let a = generate_nonce().unwrap();
    let b = generate_nonce().unwrap();
    assert_eq!(a.len(), 24);
    assert_eq!(b.len(), 24);
    assert_ne!(a, b);
}

#[test]
fn encrypt_and_hash_is_a_function_of_its_inputs() {
    let key = test_key();
    let f = File { xattr: sample_xattr(b"a.txt"), data: b"hello".to_vec() };
    let (h1, m1, p1) = encrypt_and_hash_file(&f, &key, &nonce_of(1), &nonce_of(2));
    let (h2, m2, p2) = encrypt_and_hash_file(&f, &key, &nonce_of(1), &nonce_of(2));
    assert_eq!(h1, h2);
    assert_eq!(m1, m2);
    assert_eq!(p1, p2);
    // A different nonce gives a different envelope and a different hash.
    let (h3, m3, _p3) = encrypt_and_hash_file(&f, &key, &nonce_of(9), &nonce_of(2));
    assert_ne!(m1, m3);
    assert_ne!(h1, h3);
}

#[test]
fn verify_accepts_the_computed_hash() {
    let key = test_key();
    let f = File { xattr: sample_xattr(b"a.txt"), data: b"hello".to_vec() };
    let (h, meta_env, payload_env) = encrypt_and_hash_file(&f, &key, &nonce_of(1), &nonce_of(2));
    assert!(verify_merkle_hashes(&h, &meta_env, Some(&payload_env)));
}

#[test]
fn tampering_with_the_ciphertext_is_detected() {
    let key = test_key();
    let f = File { xattr: sample_xattr(b"a.txt"), data: b"hello".to_vec() };
    let (h, meta_env, payload_env) = encrypt_and_hash_file(&f, &key, &nonce_of(1), &nonce_of(2));
    for i in 0..meta_env.len() {
        let mut bad = meta_env.clone();
        bad[i] ^= 1;
        assert!(!verify_merkle_hashes(&h, &bad, Some(&payload_env)));
    }
    for i in 0..payload_env.len() {
        let mut bad = payload_env.clone();
        bad[i] ^= 1;
        assert!(!verify_merkle_hashes(&h, &meta_env, Some(&bad)));
    }
}

#[test]
fn empty_payload_hashes_metadata_alone() {
    let meta = vec![5u8; 40];
    let inner = hash(&hash(&meta));
    assert_eq!(node_hash(&meta, None), inner);
}

#[test]
fn dir_hash_without_children_is_the_meta_only_hash() {
    let meta = vec![8u8; 40];
    let no_children: Vec<Vec<u8>> = Vec::new();
    assert_eq!(hash_of_dir(&meta, &no_children), node_hash(&meta, None));
}

#[test]
fn dir_hash_covers_each_child() {
    let meta = vec![8u8; 40];
    let c1 = hash(b"one");
    let c2 = hash(b"two");
    let h12 = hash_of_dir(&meta, &vec![c1.clone(), c2.clone()]);
    let h21 = hash_of_dir(&meta, &vec![c2.clone(), c1.clone()]);
    let h1 = hash_of_dir(&meta, &vec![c1.clone()]);
    assert_ne!(h12, h1);
    // The order of the list is part of the hash: callers keep it canonical.
    assert_ne!(h12, h21);
}
