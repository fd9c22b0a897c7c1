#![allow(non_snake_case)]
//! The codecs on concrete values: framing, hex, decimal, the key-value-list
//! format and the binary tree-entry format.

use wyag::dec::{dec_encode, dec_parse, DecParse};
use wyag::digest::Digest;
use wyag::frame::{frame, parse_header};
use wyag::hex::{from_hex, to_hex};
use wyag::kvlm::{kvlm_get, kvlm_len, kvlm_new, kvlm_parse, kvlm_put, kvlm_serialize};
use wyag::object::{GitKind, GitObject};
use wyag::tree::{tree_parse, tree_parse_one, tree_serialize, GitTreeLeaf};

fn digest_of_hex(s: &[u8]) -> Digest {
    Digest::from_hex(s).expect("forty hex digits")
}

#[test]
fn parse_empty_log() {
    let hm = kvlm_parse(b"").expect("an empty body is an empty document");
    assert_eq!(kvlm_len(&hm), 0);
}

#[test]
fn frame_exact_bytes() {
    let framed = frame(b"blob", b"abc");
    assert_eq!(framed, b"blob 3\x00abc".to_vec());
}

#[test]
fn frame_header_parses_back() {
    let framed = frame(b"commit", b"12345678");
    let h = parse_header(framed.as_slice()).expect("a framed buffer has a header");
    assert_eq!(h.kind, b"commit".to_vec());
    assert_eq!(h.body_start, 9);
    match h.declared {
        DecParse::Val(v) => assert_eq!(v, 8),
        _ => panic!("the length field is 8"),
    }
}

#[test]
fn header_without_space_is_rejected() {
    assert!(parse_header(b"blob3\x00abc").is_err());
}

#[test]
fn header_without_nul_is_rejected() {
    assert!(parse_header(b"blob 3abc").is_err());
}

#[test]
fn header_with_bad_length_field_is_rejected() {
    assert!(parse_header(b"blob x\x00abc").is_err());
}

#[test]
fn decimal_encodes_without_leading_zeros() {
    assert_eq!(dec_encode(0), b"0".to_vec());
    assert_eq!(dec_encode(1234), b"1234".to_vec());
    match dec_parse(b"007") {
        DecParse::Val(v) => assert_eq!(v, 7),
        _ => panic!("leading zeros still denote a number"),
    }
    match dec_parse(b"") {
        DecParse::Invalid => {},
        _ => panic!("an empty field denotes nothing"),
    }
}

#[test]
fn hex_round_trip() {
    assert_eq!(to_hex(&[0xde, 0xad, 0x0f]), b"dead0f".to_vec());
    assert_eq!(from_hex(b"dead0f"), Some(vec![0xde, 0xad, 0x0f]));
    assert_eq!(from_hex(b"DEAD0F"), Some(vec![0xde, 0xad, 0x0f]));
    assert_eq!(from_hex(b"xz"), None);
    assert_eq!(from_hex(b"abc"), None);
}

#[test]
fn digest_hex_forms() {
    let d = digest_of_hex(b"ce013625030ba8dba906f756967f9e9ca394464a");
    assert_eq!(d.to_hex(), b"ce013625030ba8dba906f756967f9e9ca394464a".to_vec());
    let (dir, file) = d.path_parts();
    assert_eq!(dir, b"ce".to_vec());
    assert_eq!(file, b"013625030ba8dba906f756967f9e9ca394464a".to_vec());
    assert_eq!(Digest::from_hex(b"ce01"), None);
}

#[test]
fn kvlm_parse_commit_body() {
    let body = b"tree 29ff16c9c14e2652b22f8b78bb08a5a07930c147\nparent 206941306e8a8af65b66eaaaea388a7ae24d49a0\n\nInitial commit\n";
    let m = kvlm_parse(body).expect("a well-formed commit body parses");
    assert_eq!(kvlm_len(&m), 3);
    assert_eq!(
        kvlm_get(&m, "tree"),
        Some(&vec![String::from("29ff16c9c14e2652b22f8b78bb08a5a07930c147")])
    );
    assert_eq!(
        kvlm_get(&m, "parent"),
        Some(&vec![String::from("206941306e8a8af65b66eaaaea388a7ae24d49a0")])
    );
    assert_eq!(kvlm_get(&m, ""), Some(&vec![String::from("Initial commit\n")]));
    assert_eq!(kvlm_get(&m, "author"), None);
}

#[test]
fn kvlm_serialize_exact_bytes() {
    let mut m = kvlm_new();
    kvlm_put(&mut m, String::from("k"), vec![String::from("v")]);
    kvlm_put(&mut m, String::from(""), vec![String::from("msg")]);
    assert_eq!(kvlm_serialize(&m), b"k v\n\nmsg".to_vec());
}

#[test]
fn kvlm_continuation_round_trip() {
    let mut m = kvlm_new();
    kvlm_put(&mut m, String::from("author"), vec![String::from("one\ntwo\nthree")]);
    kvlm_put(&mut m, String::from(""), vec![String::from("message body\n")]);
    let bytes = kvlm_serialize(&m);
    assert_eq!(bytes, b"author one\n two\n three\n\nmessage body\n".to_vec());
    let back = kvlm_parse(bytes.as_slice()).expect("the stored form parses");
    assert_eq!(kvlm_get(&back, "author"), Some(&vec![String::from("one\ntwo\nthree")]));
    assert_eq!(kvlm_get(&back, ""), Some(&vec![String::from("message body\n")]));
}

#[test]
fn kvlm_repeated_keys_keep_order() {
    let body = b"parent aaaa\nparent bbbb\n\nm";
    let m = kvlm_parse(body).expect("repeated keys are allowed");
    assert_eq!(
        kvlm_get(&m, "parent"),
        Some(&vec![String::from("aaaa"), String::from("bbbb")])
    );
    assert_eq!(kvlm_serialize(&m), body.to_vec());
}

#[test]
fn kvlm_rejects_line_without_space() {
    assert!(kvlm_parse(b"nospace\n\nm").is_err());
}

#[test]
fn kvlm_rejects_bad_text() {
    let body = b"k \xff\xfe\n\nm";
    assert!(kvlm_parse(body).is_err());
}

#[test]
fn kvlm_message_only_body() {
    let m = kvlm_parse(b"\njust a message").expect("a message-only body is valid");
    assert_eq!(kvlm_len(&m), 1);
    assert_eq!(kvlm_get(&m, ""), Some(&vec![String::from("just a message")]));
}

#[test]
fn treeTest() {
    let sha1 = digest_of_hex(b"29ff16c9c14e2652b22f8b78bb08a5a07930c147");
    let sha2 = digest_of_hex(b"206941306e8a8af65b66eaaaea388a7ae24d49a0");
    let items = vec![
        GitTreeLeaf { mode: b"100644".to_vec(), path: b"b.txt".to_vec(), sha: sha1 },
        GitTreeLeaf { mode: b"40000".to_vec(), path: b"a dir".to_vec(), sha: sha2 },
    ];
    let bytes = tree_serialize(&items);
    let back = tree_parse(bytes.as_slice()).expect("an encoded tree decodes");
    assert_eq!(back.len(), 2);
    assert_eq!(back[0].mode, b"100644".to_vec());
    assert_eq!(back[0].path, b"b.txt".to_vec());
    assert_eq!(back[0].sha.to_hex(), b"29ff16c9c14e2652b22f8b78bb08a5a07930c147".to_vec());
    assert_eq!(back[1].mode, b"40000".to_vec());
    assert_eq!(back[1].path, b"a dir".to_vec());
    assert_eq!(back[1].sha.to_hex(), b"206941306e8a8af65b66eaaaea388a7ae24d49a0".to_vec());
}

#[test]
fn tree_entry_exact_bytes() {
    let sha = digest_of_hex(b"00112233445566778899aabbccddeeff00112233");
    let items = vec![GitTreeLeaf { mode: b"100644".to_vec(), path: b"f.txt".to_vec(), sha }];
    let bytes = tree_serialize(&items);
    let mut expected = b"100644 f.txt\x00".to_vec();
    expected.extend_from_slice(&[
        0x00, 0x11, 0x22, 0x33, 0x44, 0x55, 0x66, 0x77, 0x88, 0x99, 0xaa, 0xbb, 0xcc, 0xdd,
        0xee, 0xff, 0x00, 0x11, 0x22, 0x33,
    ]);
    assert_eq!(bytes, expected);
    let (next, leaf) = tree_parse_one(expected.as_slice(), 0).expect("one entry parses");
    assert_eq!(next, expected.len());
    assert_eq!(leaf.mode, b"100644".to_vec());
    assert_eq!(leaf.path, b"f.txt".to_vec());
}

#[test]
fn tree_rejects_bad_mode_length() {
    // A mode of four bytes is neither five nor six.
    let body = b"1006 f.txt\x0001234567890123456789";
    assert!(tree_parse(body).is_err());
}

#[test]
fn tree_rejects_dangling_entry() {
    // The digest is cut short.
    let body = b"100644 f.txt\x000123";
    assert!(tree_parse(body).is_err());
}

#[test]
fn tree_empty_body_is_empty_tree() {
    assert_eq!(tree_parse(b"").expect("an empty tree body is valid").len(), 0);
}

#[test]
fn object_codec_round_trips_each_kind() {
    // Blob: identity.
    let blob = GitObject::Blob { data: b"raw bytes \x00\xff".to_vec() };
    let body = blob.serialize();
    assert_eq!(body, b"raw bytes \x00\xff".to_vec());
    match GitObject::deserialize(GitKind::Blob, body.as_slice()).unwrap() {
        GitObject::Blob { data } => assert_eq!(data, b"raw bytes \x00\xff".to_vec()),
        _ => panic!("a blob deserializes as a blob"),
    }
    // Tree.
    let sha = digest_of_hex(b"29ff16c9c14e2652b22f8b78bb08a5a07930c147");
    let tree = GitObject::Tree {
        items: vec![GitTreeLeaf { mode: b"100644".to_vec(), path: b"x".to_vec(), sha }],
    };
    let body = tree.serialize();
    match GitObject::deserialize(GitKind::Tree, body.as_slice()).unwrap() {
        GitObject::Tree { items } => {
            assert_eq!(items.len(), 1);
            assert_eq!(items[0].path, b"x".to_vec());
        },
        _ => panic!("a tree deserializes as a tree"),
    }
    // Commit and tag share the document format.
    let mut m = kvlm_new();
    kvlm_put(&mut m, String::from("tree"), vec![String::from("29ff16c9c14e2652b22f8b78bb08a5a07930c147")]);
    kvlm_put(&mut m, String::from(""), vec![String::from("hi\n")]);
    let commit = GitObject::Commit { kvlm: m };
    let body = commit.serialize();
    match GitObject::deserialize(GitKind::Commit, body.as_slice()).unwrap() {
        GitObject::Commit { kvlm } => {
            assert_eq!(kvlm_serialize(&kvlm), body);
        },
        _ => panic!("a commit deserializes as a commit"),
    }
    let mut t = kvlm_new();
    kvlm_put(&mut t, String::from("object"), vec![String::from("29ff16c9c14e2652b22f8b78bb08a5a07930c147")]);
    kvlm_put(&mut t, String::from("type"), vec![String::from("commit")]);
    kvlm_put(&mut t, String::from("tag"), vec![String::from("v1")]);
    kvlm_put(&mut t, String::from(""), vec![String::from("tag message\n")]);
    let tag = GitObject::Tag { kvlm: t };
    let body = tag.serialize();
    match GitObject::deserialize(GitKind::Tag, body.as_slice()).unwrap() {
        GitObject::Tag { kvlm } => {
            assert_eq!(kvlm_get(&kvlm, "tag"), Some(&vec![String::from("v1")]));
            assert_eq!(kvlm_serialize(&kvlm), body);
        },
        _ => panic!("a tag deserializes as a tag"),
    }
}
