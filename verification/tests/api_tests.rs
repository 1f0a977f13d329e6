use q1fs::api::{
    decode_remote, get_child_hashes, get_data, get_nonce, get_xattr, get_xattr_env, new_root,
    set_xattr, write_data, Node, StoreOp,
};
use q1fs::attr::{FileAttr, FileKind, XFileAttr};
use q1fs::crypto::{hash, node_hash, seal_envelope};
use base64::Engine;

fn test_key() -> Vec<u8> {
    hash(b"test key material")[..32].to_vec()
}

fn nonce_of(b: u8) -> Vec<u8> {
    vec![b; 24]
}

fn sample_xattr(name: &[u8]) -> XFileAttr {
    XFileAttr {
        attr: FileAttr {
            ino: 3,
            size: 0,
            blocks: 0,
            atime: 10,
            mtime: 10,
            ctime: 10,
            crtime: 10,
            kind: FileKind::RegularFile,
            perm: 0o600,
            nlink: 0,
            uid: 0,
            gid: 0,
            rdev: 0,
            flags: 0,
        },
        file_name: name.to_vec(),
        parent_ino: 1,
    }
}

#[test]
fn metadata_envelope_round_trip() {
    let key = test_key();
    let x = sample_xattr(b"a.txt");
    let plain = q1fs::attr::serialize_xattr(&x);
    let env = seal_envelope(&plain, &key, &nonce_of(1));
    let y = get_xattr_env(&env, &key).unwrap();
    assert_eq!(y.attr, x.attr);
    assert_eq!(y.file_name, x.file_name);
    // The nonce travels at the front of the envelope.
    assert_eq!(get_nonce(&env).unwrap(), nonce_of(1));
}

#[test]
fn payload_envelope_round_trip() {
    let key = test_key();
    let data = b"file contents".to_vec();
    let (env, op) = write_data(&hash(b"id"), &data, &key, &nonce_of(2));
    assert_eq!(get_data(&env, &key).unwrap(), data);
    match op {
        StoreOp::PutData { hash_hex, .. } => {
            assert_eq!(hash_hex, q1fs::hex::to_hex(&hash(b"id")));
        },
        _ => panic!("expected a data upload"),
    }
}

#[test]
fn child_listings_decode_from_hex() {
    let h1 = hash(b"one");
    let h2 = hash(b"two");
    let listed = vec![q1fs::hex::to_hex(&h1), q1fs::hex::to_hex(&h2)];
    let decoded = get_child_hashes(&listed).unwrap();
    assert_eq!(decoded, vec![h1, h2]);
    let bad = vec!["nothex!".to_string()];
    assert!(get_child_hashes(&bad).is_err());
}

#[test]
fn root_request_carries_the_root_hash() {
    let key = test_key();
    let mut x = sample_xattr(b"/");
    x.attr.kind = FileKind::Directory;
    x.attr.ino = 1;
    x.parent_ino = 1;
    let (h, env, op) = new_root(&x, &key, &nonce_of(1));
    assert_eq!(h, node_hash(&env, None));
    match op {
        StoreOp::PutRoot { hash_hex, .. } => {
            assert_eq!(hash_hex, q1fs::hex::to_hex(&h));
        },
        _ => panic!("expected a root put"),
    }
}

#[test]
fn set_xattr_matches_the_node_hash_rule() {
    let key = test_key();
    let file = q1fs::fs::File { xattr: sample_xattr(b"a"), data: Vec::new() };
    let (h, _b64) = set_xattr(&file, &key, &nonce_of(1), &nonce_of(2));
    let plain = q1fs::attr::serialize_xattr(&file.xattr);
    let env = seal_envelope(&plain, &key, &nonce_of(1));
    assert_eq!(h, node_hash(&env, None));
}

#[test]
fn wire_node_records_decode() {
    let key = test_key();
    let x = sample_xattr(b"a.txt");
    let plain = q1fs::attr::serialize_xattr(&x);
    let env = seal_envelope(&plain, &key, &nonce_of(1));
    let h = node_hash(&env, None);
    let node = Node {
        hash: q1fs::hex::to_hex(&h),
        metadata: base64::engine::general_purpose::STANDARD.encode(&env),
        metadata_hash: String::new(),
        data_hash: String::new(),
        parent_hash: String::new(),
        is_dir: false,
    };
    let y = get_xattr(&node, &key).unwrap();
    assert_eq!(y.attr, x.attr);
    let f = decode_remote(&node, &Vec::new(), &None).unwrap();
    assert_eq!(f.hash, h);
    assert_eq!(f.meta_env, env);
    assert!(f.payload_env.is_none());
    // A garbled metadata field is caught at the wire layer.
    let bad = Node { metadata: "!!!not base64!!!".to_string(), ..node };
    assert!(get_xattr(&bad, &key).is_err());
}
