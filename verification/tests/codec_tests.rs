use q1fs::attr::{parse_xattr, serialize_xattr, FileAttr, FileKind, XFileAttr};
use q1fs::codec::{bytes_eq, lex_le_bytes, push_u64_le, read_u64_le, splice};
use q1fs::hex::{from_hex, to_hex};
use q1fs::util::trim_last_item_from_path_str;

fn sample_xattr(kind: FileKind, name: &[u8]) -> XFileAttr {
    XFileAttr {
        attr: FileAttr {
            ino: 42,
            size: 1234,
            blocks: 1,
            atime: 11,
            mtime: 22,
            ctime: 33,
            crtime: 44,
            kind,
            perm: 0o755,
            nlink: 2,
            uid: 501,
            gid: 20,
            rdev: 9,
            flags: 5,
        },
        file_name: name.to_vec(),
        parent_ino: 6,
    }
}

#[test]
fn u64_le_round_trip() {
    let mut buf: Vec<u8> = Vec::new();
    push_u64_le(&mut buf, 0x0123_4567_89ab_cdef);
    assert_eq!(buf, vec![0xef, 0xcd, 0xab, 0x89, 0x67, 0x45, 0x23, 0x01]);
    assert_eq!(read_u64_le(&buf, 0), 0x0123_4567_89ab_cdef);
}

#[test]
fn xattr_serialization_round_trip() {
    for kind in [FileKind::RegularFile, FileKind::Directory] {
        let x = sample_xattr(kind, b"notes.txt");
        let bytes = serialize_xattr(&x);
        assert_eq!(bytes.len(), 121 + 9);
        let y = parse_xattr(&bytes).unwrap();
        assert_eq!(y.attr, x.attr);
        assert_eq!(y.file_name, x.file_name);
        assert_eq!(y.parent_ino, x.parent_ino);
    }
}

#[test]
fn xattr_parse_rejects_garbage() {
    assert!(parse_xattr(&[]).is_none());
    assert!(parse_xattr(&[0u8; 120]).is_none());
    // A bad kind byte.
    let x = sample_xattr(FileKind::RegularFile, b"n");
    let mut bytes = serialize_xattr(&x);
    bytes[0] = 9;
    assert!(parse_xattr(&bytes).is_none());
    // A truncated name.
    let bytes2 = serialize_xattr(&x);
    assert!(parse_xattr(&bytes2[..bytes2.len() - 1]).is_none());
}

#[test]
fn hex_round_trip() {
    let bytes = vec![0x00u8, 0x01, 0x7f, 0x80, 0xff, 0xa5];
    let s = to_hex(&bytes);
    assert_eq!(s, "00017f80ffa5");
    assert_eq!(from_hex(&s).unwrap(), bytes);
}

#[test]
fn hex_rejects_bad_strings() {
    assert!(from_hex("abc").is_none());
    assert!(from_hex("zz").is_none());
    assert!(from_hex("AB").is_none());
    assert_eq!(from_hex("").unwrap(), Vec::<u8>::new());
}

#[test]
fn lexicographic_order_of_hashes() {
    assert!(lex_le_bytes(&vec![1, 2], &vec![1, 3]));
    assert!(!lex_le_bytes(&vec![1, 3], &vec![1, 2]));
    assert!(lex_le_bytes(&vec![1, 2], &vec![1, 2]));
    assert!(lex_le_bytes(&vec![1], &vec![1, 0]));
    assert!(!lex_le_bytes(&vec![1, 0], &vec![1]));
}

#[test]
fn bytes_eq_compares_contents() {
    assert!(bytes_eq(b"abc", b"abc"));
    assert!(!bytes_eq(b"abc", b"abd"));
    assert!(!bytes_eq(b"abc", b"ab"));
}

#[test]
fn splice_grows_and_overwrites() {
    let d = vec![1u8, 2, 3, 4, 5];
    assert_eq!(splice(&d, 1, &[9, 9]), vec![1, 9, 9, 4, 5]);
    assert_eq!(splice(&d, 4, &[7, 7]), vec![1, 2, 3, 4, 7, 7]);
    assert_eq!(splice(&d, 5, &[8]), vec![1, 2, 3, 4, 5, 8]);
    assert_eq!(splice(&d, 0, &[]), vec![1, 2, 3, 4, 5]);
}

#[test]
fn trim_path_drops_the_last_component() {
    assert_eq!(trim_last_item_from_path_str("/a/b/c"), "/a/b");
    assert_eq!(trim_last_item_from_path_str("abc"), "abc");
    assert_eq!(trim_last_item_from_path_str("/a//b"), "/a");
    assert_eq!(trim_last_item_from_path_str("/"), "");
    assert_eq!(trim_last_item_from_path_str(""), "");
    assert_eq!(trim_last_item_from_path_str("a/b"), "a");
}
