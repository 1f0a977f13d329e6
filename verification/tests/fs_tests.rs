use q1fs::api::FetchedNode;
use q1fs::attr::FileKind;
use q1fs::crypto::{hash, node_hash};
use q1fs::fs::{FsError, Q1FS, SetAttrRequest};

fn test_key() -> Vec<u8> {
    hash(b"test key material")[..32].to_vec()
}

fn nonce_of(b: u8) -> Vec<u8> {
    vec![b; 24]
}

fn mounted(seed: u8) -> Q1FS {
    let mut fs = Q1FS::new(test_key());
    let mut ops = Vec::new();
    fs.init(1000, &nonce_of(seed), &mut ops).unwrap();
    fs
}

fn entry_index_of(fs: &Q1FS, ino: u64) -> usize {
    for (i, e) in fs.cache.entries.iter().enumerate() {
        if e.file.xattr.attr.ino == ino {
            return i;
        }
    }
    panic!("inode not cached");
}

fn children_of(fs: &Q1FS, ino: u64) -> Vec<Vec<u8>> {
    fs.cache.entries[entry_index_of(fs, ino)].children.clone()
}

fn hash_of(fs: &Q1FS, ino: u64) -> Vec<u8> {
    fs.cache.entries[entry_index_of(fs, ino)].hash.clone()
}

#[test]
fn empty_mount_lists_dot_and_dotdot() {
    let fs = mounted(0);
    let rows = fs.readdir(1, 0, &Vec::new()).unwrap();
    assert_eq!(rows.len(), 2);
    assert_eq!(rows[0].name, b".".to_vec());
    assert_eq!(rows[0].ino, 1);
    assert_eq!(rows[1].name, b"..".to_vec());
    // The root hash is the hash of the root directory with no children.
    let root = &fs.cache.entries[entry_index_of(&fs, 1)];
    let expected = node_hash(&root.meta_env, None);
    assert_eq!(fs.root_hash.as_ref().unwrap(), &expected);
}

#[test]
fn create_write_read_back() {
    let mut fs = mounted(0);
    let root_hash_before = fs.root_hash.clone().unwrap();
    let mut ops = Vec::new();
    let a = fs.create(1, b"a.txt", 0o644, 1001, &nonce_of(1), &mut ops).unwrap();
    assert_eq!(a.kind, FileKind::RegularFile);
    let written = fs
        .write(a.ino, 0, b"hello", &nonce_of(2), &nonce_of(3), &mut ops)
        .unwrap();
    assert_eq!(written, 5);
    let data = fs.read(a.ino, 0, 5).unwrap();
    assert_eq!(data, b"hello".to_vec());
    let attr = fs.getattr(a.ino).unwrap();
    assert_eq!(attr.size, 5);
    assert_ne!(fs.root_hash.clone().unwrap(), root_hash_before);
    // The name index resolves the file.
    let looked = fs.lookup(1, b"a.txt").unwrap();
    assert_eq!(looked.ino, a.ino);
    assert!(!ops.is_empty());
}

#[test]
fn read_is_clamped() {
    let mut fs = mounted(0);
    let mut ops = Vec::new();
    let a = fs.create(1, b"f", 0o644, 1001, &nonce_of(1), &mut ops).unwrap();
    fs.write(a.ino, 0, b"hello", &nonce_of(2), &nonce_of(3), &mut ops).unwrap();
    assert_eq!(fs.read(a.ino, 3, 100).unwrap(), b"lo".to_vec());
    assert_eq!(fs.read(a.ino, 100, 4).unwrap(), Vec::<u8>::new());
    assert_eq!(fs.read(99, 0, 4), Err(FsError::NoEnt));
}

#[test]
fn identical_histories_give_identical_root_hashes() {
    let build = || {
        let mut fs = mounted(0);
        let mut ops = Vec::new();
        let d = fs.mkdir(1, b"d", 0o755, 1001, &nonce_of(1), &mut ops).unwrap();
        let b = fs.create(d.ino, b"b", 0o644, 1002, &nonce_of(2), &mut ops).unwrap();
        fs.write(b.ino, 0, b"x", &nonce_of(3), &nonce_of(4), &mut ops).unwrap();
        fs
    };
    let fs1 = build();
    let fs2 = build();
    assert_eq!(fs1.root_hash, fs2.root_hash);
    // A different payload under the same nonces gives a different root.
    let mut fs3 = mounted(0);
    let mut ops = Vec::new();
    let d = fs3.mkdir(1, b"d", 0o755, 1001, &nonce_of(1), &mut ops).unwrap();
    let b = fs3.create(d.ino, b"b", 0o644, 1002, &nonce_of(2), &mut ops).unwrap();
    fs3.write(b.ino, 0, b"y", &nonce_of(3), &nonce_of(4), &mut ops).unwrap();
    assert_ne!(fs1.root_hash, fs3.root_hash);
}

#[test]
fn tampered_child_is_rejected_on_fetch() {
    // One mount writes a file; a second mount adopts the same root from
    // the server and fetches the file.
    let mut fs1 = mounted(0);
    let mut ops = Vec::new();
    let a = fs1.create(1, b"a.txt", 0o644, 1001, &nonce_of(1), &mut ops).unwrap();
    fs1.write(a.ino, 0, b"hello", &nonce_of(2), &nonce_of(3), &mut ops).unwrap();

    let root = &fs1.cache.entries[entry_index_of(&fs1, 1)];
    let root_fetched = FetchedNode {
        hash: root.hash.clone(),
        meta_env: root.meta_env.clone(),
        payload_env: None,
        children: root.children.clone(),
        is_dir: true,
    };
    let file = &fs1.cache.entries[entry_index_of(&fs1, a.ino)];
    let file_fetched = FetchedNode {
        hash: file.hash.clone(),
        meta_env: file.meta_env.clone(),
        payload_env: Some(file.payload_env.clone()),
        children: Vec::new(),
        is_dir: false,
    };

    // The honest copy verifies and installs.
    let mut fs2 = Q1FS::new(test_key());
    fs2.adopt_root(&root_fetched).unwrap();
    let got = fs2.install_fetched(1, &file_fetched).unwrap();
    assert_eq!(got.size, 5);
    let ino2 = fs2.lookup(1, b"a.txt").unwrap().ino;
    assert_eq!(fs2.read(ino2, 0, 5).unwrap(), b"hello".to_vec());

    // Any flipped ciphertext byte is caught.
    for i in 0..file_fetched.payload_env.as_ref().unwrap().len() {
        let mut fs3 = Q1FS::new(test_key());
        fs3.adopt_root(&root_fetched).unwrap();
        let mut bad = FetchedNode {
            hash: file_fetched.hash.clone(),
            meta_env: file_fetched.meta_env.clone(),
            payload_env: Some(file_fetched.payload_env.clone().unwrap()),
            children: Vec::new(),
            is_dir: false,
        };
        bad.payload_env.as_mut().unwrap()[i] ^= 1;
        assert_eq!(fs3.install_fetched(1, &bad).err(), Some(FsError::IntegrityViolation));
    }
    // A flipped metadata byte as well.
    let mut fs4 = Q1FS::new(test_key());
    fs4.adopt_root(&root_fetched).unwrap();
    let mut bad = FetchedNode {
        hash: file_fetched.hash.clone(),
        meta_env: file_fetched.meta_env.clone(),
        payload_env: Some(file_fetched.payload_env.clone().unwrap()),
        children: Vec::new(),
        is_dir: false,
    };
    bad.meta_env[30] ^= 1;
    assert_eq!(fs4.install_fetched(1, &bad).err(), Some(FsError::IntegrityViolation));
}

#[test]
fn tampered_listing_is_rejected_on_readdir() {
    let mut fs = mounted(0);
    let mut ops = Vec::new();
    fs.create(1, b"a", 0o644, 1001, &nonce_of(1), &mut ops).unwrap();
    let honest = children_of(&fs, 1);
    assert!(fs.readdir(1, 0, &honest).is_ok());
    // A listing with a flipped child hash is an integrity violation.
    let mut tampered = honest.clone();
    tampered[0][0] ^= 1;
    assert_eq!(fs.readdir(1, 0, &tampered).err(), Some(FsError::IntegrityViolation));
    // So is a dropped or repeated child.
    assert_eq!(fs.readdir(1, 0, &Vec::new()).err(), Some(FsError::IntegrityViolation));
    let mut doubled = honest.clone();
    doubled.push(honest[0].clone());
    assert_eq!(fs.readdir(1, 0, &doubled).err(), Some(FsError::IntegrityViolation));
}

#[test]
fn setattr_applies_and_is_idempotent() {
    let mut fs = mounted(0);
    let mut ops = Vec::new();
    let a = fs.create(1, b"a.txt", 0o644, 1001, &nonce_of(1), &mut ops).unwrap();
    let req = SetAttrRequest {
        uid: Some(1000),
        gid: None,
        size: None,
        atime: None,
        mtime: None,
        crtime: None,
        flags: None,
    };
    let root_before = fs.root_hash.clone();
    fs.setattr(a.ino, req, &nonce_of(5), &nonce_of(6), &mut ops).unwrap();
    assert_eq!(fs.getattr(a.ino).unwrap().uid, 1000);
    let root_after_first = fs.root_hash.clone();
    assert_ne!(root_before, root_after_first);
    // Applying the same attributes again changes nothing.
    let mut ops2 = Vec::new();
    fs.setattr(a.ino, req, &nonce_of(7), &nonce_of(8), &mut ops2).unwrap();
    assert_eq!(fs.root_hash, root_after_first);
    assert!(ops2.is_empty());
}

#[test]
fn setattr_size_truncates_and_extends() {
    let mut fs = mounted(0);
    let mut ops = Vec::new();
    let a = fs.create(1, b"a", 0o644, 1001, &nonce_of(1), &mut ops).unwrap();
    fs.write(a.ino, 0, b"hello", &nonce_of(2), &nonce_of(3), &mut ops).unwrap();
    let shrink = SetAttrRequest {
        uid: None,
        gid: None,
        size: Some(2),
        atime: None,
        mtime: None,
        crtime: None,
        flags: None,
    };
    fs.setattr(a.ino, shrink, &nonce_of(4), &nonce_of(5), &mut ops).unwrap();
    assert_eq!(fs.read(a.ino, 0, 10).unwrap(), b"he".to_vec());
    let grow = SetAttrRequest {
        uid: None,
        gid: None,
        size: Some(4),
        atime: None,
        mtime: None,
        crtime: None,
        flags: None,
    };
    fs.setattr(a.ino, grow, &nonce_of(6), &nonce_of(7), &mut ops).unwrap();
    assert_eq!(fs.read(a.ino, 0, 10).unwrap(), vec![b'h', b'e', 0, 0]);
}

#[test]
fn write_beyond_end_is_rejected_and_changes_nothing() {
    let mut fs = mounted(0);
    let mut ops = Vec::new();
    let a = fs.create(1, b"a.txt", 0o644, 1001, &nonce_of(1), &mut ops).unwrap();
    fs.write(a.ino, 0, b"hello", &nonce_of(2), &nonce_of(3), &mut ops).unwrap();
    let root_before = fs.root_hash.clone();
    let file_hash_before = hash_of(&fs, a.ino);
    let mut ops2 = Vec::new();
    let r = fs.write(a.ino, 100, b"z", &nonce_of(4), &nonce_of(5), &mut ops2);
    assert_eq!(r, Err(FsError::Inval));
    assert_eq!(fs.root_hash, root_before);
    assert_eq!(hash_of(&fs, a.ino), file_hash_before);
    assert!(ops2.is_empty());
}

#[test]
fn propagation_reaches_the_file_and_spares_other_branches() {
    let mut fs = mounted(0);
    let mut ops = Vec::new();
    let d1 = fs.mkdir(1, b"d1", 0o755, 1001, &nonce_of(1), &mut ops).unwrap();
    let d2 = fs.mkdir(1, b"d2", 0o755, 1001, &nonce_of(2), &mut ops).unwrap();
    let f1 = fs.create(d1.ino, b"f", 0o644, 1002, &nonce_of(3), &mut ops).unwrap();
    let d2_hash_before = hash_of(&fs, d2.ino);
    let root_before = fs.root_hash.clone().unwrap();
    fs.write(f1.ino, 0, b"data", &nonce_of(4), &nonce_of(5), &mut ops).unwrap();
    // The untouched sibling branch keeps its hash; the root does not.
    assert_eq!(hash_of(&fs, d2.ino), d2_hash_before);
    assert_ne!(fs.root_hash.clone().unwrap(), root_before);
    // Walking from the root down the child lists reaches the file's new
    // hash: root lists d1, d1 lists f, and every link carries the
    // current hash.
    assert!(children_of(&fs, 1).contains(&hash_of(&fs, d1.ino)));
    assert!(children_of(&fs, 1).contains(&hash_of(&fs, d2.ino)));
    assert!(children_of(&fs, d1.ino).contains(&hash_of(&fs, f1.ino)));
    assert_eq!(fs.root_hash.clone().unwrap(), hash_of(&fs, 1));
}

#[test]
fn index_coherence_is_observable() {
    let mut fs = mounted(0);
    let mut ops = Vec::new();
    let d = fs.mkdir(1, b"d", 0o755, 1001, &nonce_of(1), &mut ops).unwrap();
    let f = fs.create(d.ino, b"f", 0o644, 1002, &nonce_of(2), &mut ops).unwrap();
    // Identical names may exist in different directories.
    let f2 = fs.create(1, b"f", 0o644, 1003, &nonce_of(3), &mut ops).unwrap();
    assert_ne!(f.ino, f2.ino);
    assert_eq!(fs.lookup(d.ino, b"f").unwrap().ino, f.ino);
    assert_eq!(fs.lookup(1, b"f").unwrap().ino, f2.ino);
    // Every cached inode maps through hash to a node carrying it back.
    for e in fs.cache.entries.iter() {
        let ino = e.file.xattr.attr.ino;
        let by_hash = &fs.cache.entries[entry_index_of(&fs, ino)];
        assert_eq!(by_hash.file.xattr.attr.ino, ino);
    }
    // Duplicate names in one directory are refused.
    let r = fs.create(1, b"f", 0o644, 1004, &nonce_of(4), &mut ops);
    assert_eq!(r.err(), Some(FsError::Exist));
}

#[test]
fn lookup_and_create_against_missing_parents() {
    let mut fs = mounted(0);
    let mut ops = Vec::new();
    assert_eq!(fs.lookup(9, b"x"), Err(FsError::NoEnt));
    assert_eq!(
        fs.create(9, b"x", 0o644, 1001, &nonce_of(1), &mut ops).err(),
        Some(FsError::NoEnt)
    );
    let a = fs.create(1, b"a", 0o644, 1001, &nonce_of(1), &mut ops).unwrap();
    // Creating under a file is refused.
    assert_eq!(
        fs.create(a.ino, b"x", 0o644, 1002, &nonce_of(2), &mut ops).err(),
        Some(FsError::NotDir)
    );
}

#[test]
fn readdir_offsets() {
    let mut fs = mounted(0);
    let mut ops = Vec::new();
    fs.create(1, b"a", 0o644, 1001, &nonce_of(1), &mut ops).unwrap();
    fs.create(1, b"b", 0o644, 1002, &nonce_of(2), &mut ops).unwrap();
    let listed = children_of(&fs, 1);
    let all = fs.readdir(1, 0, &listed).unwrap();
    assert_eq!(all.len(), 4);
    let from1 = fs.readdir(1, 1, &listed).unwrap();
    assert_eq!(from1.len(), 3);
    assert_eq!(from1[0].name, b"..".to_vec());
    let from2 = fs.readdir(1, 2, &listed).unwrap();
    assert_eq!(from2.len(), 2);
    let past = fs.readdir(1, 10, &listed).unwrap();
    assert_eq!(past.len(), 0);
    // Children come in canonical (hash) order, whatever the offsets.
    assert_eq!(all[2].name, from2[0].name);
    assert_eq!(all[3].name, from2[1].name);
}

#[test]
fn open_requires_a_known_inode() {
    let fs = mounted(0);
    assert_eq!(fs.open(1).unwrap(), 0);
    assert_eq!(fs.open(5), Err(FsError::NoEnt));
}

#[test]
fn tampered_root_is_rejected_on_adoption() {
    let mut fs1 = mounted(0);
    let mut ops = Vec::new();
    fs1.create(1, b"a", 0o644, 1001, &nonce_of(1), &mut ops).unwrap();
    let root = &fs1.cache.entries[entry_index_of(&fs1, 1)];
    // A flipped byte in the root's metadata envelope is caught.
    let mut bad_meta = FetchedNode {
        hash: root.hash.clone(),
        meta_env: root.meta_env.clone(),
        payload_env: None,
        children: root.children.clone(),
        is_dir: true,
    };
    bad_meta.meta_env[40] ^= 1;
    let mut fs2 = Q1FS::new(test_key());
    assert_eq!(fs2.adopt_root(&bad_meta).err(), Some(FsError::IntegrityViolation));
    // A child hash swapped in the listing is caught as well.
    let mut bad_children = FetchedNode {
        hash: root.hash.clone(),
        meta_env: root.meta_env.clone(),
        payload_env: None,
        children: root.children.clone(),
        is_dir: true,
    };
    bad_children.children[0][0] ^= 1;
    let mut fs3 = Q1FS::new(test_key());
    assert_eq!(fs3.adopt_root(&bad_children).err(), Some(FsError::IntegrityViolation));
    // The honest record is adopted, and a remount sees the same root.
    let good = FetchedNode {
        hash: root.hash.clone(),
        meta_env: root.meta_env.clone(),
        payload_env: None,
        children: root.children.clone(),
        is_dir: true,
    };
    let mut fs4 = Q1FS::new(test_key());
    fs4.adopt_root(&good).unwrap();
    assert_eq!(fs4.root_hash, fs1.root_hash);
}
