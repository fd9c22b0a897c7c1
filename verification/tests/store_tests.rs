#![allow(non_snake_case)]
//! The object store on concrete values: write/read consistency, digest
//! addressing, and each error class.

use std::io::Write;

use wyag::digest::{digest, Digest};
use wyag::error::WyagErrorKind;
use wyag::frame::frame;
use wyag::kvlm::{kvlm_get, kvlm_new, kvlm_put, kvlm_serialize};
use wyag::object::{GitKind, GitObject};
use wyag::store::{hash_object, ObjectStore};
use wyag::tree::GitTreeLeaf;

fn digest_of_hex(s: &[u8]) -> Digest {
    Digest::from_hex(s).expect("forty hex digits")
}

fn zlib_pack(data: &[u8]) -> Vec<u8> {
    let mut e = flate2::write::ZlibEncoder::new(Vec::new(), flate2::Compression::default());
    e.write_all(data).expect("writing into a buffer succeeds");
    e.finish().expect("finishing an in-memory stream succeeds")
}

#[test]
fn cat_file() {
    let mut st = ObjectStore::new();
    let d = st.write(&GitObject::Blob { data: b"hello\n".to_vec() }, true);
    assert_eq!(wyag::store::cat_file(&st, &d).expect("a text blob renders"), String::from("hello\n"));
}

#[test]
fn blob_store_scenario() {
    let mut st = ObjectStore::new();
    let d = st.write(&GitObject::Blob { data: b"hello\n".to_vec() }, true);
    // The digest of `blob 6\0hello\n`, the store's content address.
    assert_eq!(d.to_hex(), b"ce013625030ba8dba906f756967f9e9ca394464a".to_vec());
    match st.read(&d).expect("what was written reads back") {
        GitObject::Blob { data } => assert_eq!(data, b"hello\n".to_vec()),
        _ => panic!("a blob reads back as a blob"),
    }
}

#[test]
fn digest_is_stable_and_content_sensitive() {
    let framed = frame(b"blob", b"hello\n");
    let d1 = digest(framed.as_slice());
    let d2 = digest(framed.as_slice());
    assert!(d1 == d2);
    let other = digest(frame(b"blob", b"hello!").as_slice());
    assert!(!(d1 == other));
    let other_kind = digest(frame(b"tree", b"hello\n").as_slice());
    assert!(!(d1 == other_kind));
}

#[test]
fn dry_run_write_returns_address_without_storing() {
    let mut st = ObjectStore::new();
    let obj = GitObject::Blob { data: b"hello\n".to_vec() };
    let d = st.write(&obj, false);
    assert_eq!(d.to_hex(), b"ce013625030ba8dba906f756967f9e9ca394464a".to_vec());
    assert_eq!(st.len(), 0);
    assert_eq!(st.read(&d).unwrap_err().kind, WyagErrorKind::NotFound);
}

#[test]
fn write_read_consistency_for_each_kind() {
    let mut st = ObjectStore::new();

    let d_blob = st.write(&GitObject::Blob { data: b"payload".to_vec() }, true);

    let sha = digest_of_hex(b"ce013625030ba8dba906f756967f9e9ca394464a");
    let tree = GitObject::Tree {
        items: vec![GitTreeLeaf { mode: b"100644".to_vec(), path: b"hello.txt".to_vec(), sha }],
    };
    let tree_body = tree.serialize();
    let d_tree = st.write(&tree, true);

    let mut m = kvlm_new();
    kvlm_put(&mut m, String::from("tree"), vec![String::from("29ff16c9c14e2652b22f8b78bb08a5a07930c147")]);
    kvlm_put(&mut m, String::from(""), vec![String::from("first\n")]);
    let commit = GitObject::Commit { kvlm: m };
    let commit_body = commit.serialize();
    let d_commit = st.write(&commit, true);

    match st.read(&d_blob).unwrap() {
        GitObject::Blob { data } => assert_eq!(data, b"payload".to_vec()),
        _ => panic!("kind preserved"),
    }
    match st.read(&d_tree).unwrap() {
        GitObject::Tree { items } => {
            assert_eq!(items.len(), 1);
            assert_eq!(wyag::tree::tree_serialize(&items), tree_body);
        },
        _ => panic!("kind preserved"),
    }
    match st.read(&d_commit).unwrap() {
        GitObject::Commit { kvlm } => {
            assert_eq!(kvlm_serialize(&kvlm), commit_body);
            assert_eq!(kvlm_get(&kvlm, ""), Some(&vec![String::from("first\n")]));
        },
        _ => panic!("kind preserved"),
    }
}

#[test]
fn read_missing_digest_is_not_found() {
    let st = ObjectStore::new();
    let d = digest_of_hex(b"0000000000000000000000000000000000000000");
    assert_eq!(st.read(&d).unwrap_err().kind, WyagErrorKind::NotFound);
}

#[test]
fn read_undecompressable_bytes_is_corrupt() {
    let mut st = ObjectStore::new();
    let d = digest_of_hex(b"1111111111111111111111111111111111111111");
    st.put_raw(d.clone(), b"this is not a compressed stream".to_vec());
    assert_eq!(st.read(&d).unwrap_err().kind, WyagErrorKind::CorruptObject);
}

#[test]
fn corrupt_length_scenario() {
    // The header declares ten body bytes; only eight follow.
    let mut st = ObjectStore::new();
    let d = digest_of_hex(b"2222222222222222222222222222222222222222");
    st.put_raw(d.clone(), zlib_pack(b"blob 10\x0012345678"));
    assert_eq!(st.read(&d).unwrap_err().kind, WyagErrorKind::CorruptObject);
}

#[test]
fn unknown_kind_is_reported() {
    let mut st = ObjectStore::new();
    let d = digest_of_hex(b"3333333333333333333333333333333333333333");
    st.put_raw(d.clone(), zlib_pack(b"folder 3\x00abc"));
    assert_eq!(st.read(&d).unwrap_err().kind, WyagErrorKind::UnknownKind);
}

#[test]
fn malformed_header_is_format_error() {
    let mut st = ObjectStore::new();
    let d = digest_of_hex(b"4444444444444444444444444444444444444444");
    st.put_raw(d.clone(), zlib_pack(b"no delimiters here"));
    assert_eq!(st.read(&d).unwrap_err().kind, WyagErrorKind::Format);
}

#[test]
fn existing_digest_is_never_overwritten() {
    let mut st = ObjectStore::new();
    let d = digest_of_hex(b"5555555555555555555555555555555555555555");
    let good = zlib_pack(b"blob 2\x00ok");
    st.put_raw(d.clone(), good);
    st.put_raw(d.clone(), b"garbage".to_vec());
    match st.read(&d).expect("the first write wins") {
        GitObject::Blob { data } => assert_eq!(data, b"ok".to_vec()),
        _ => panic!("a blob reads back as a blob"),
    }
}

#[test]
fn hash_object_matches_write() {
    let mut st = ObjectStore::new();
    let d = hash_object(&mut st, GitKind::Blob, b"hello\n", true).expect("a blob always hashes");
    assert_eq!(d.to_hex(), b"ce013625030ba8dba906f756967f9e9ca394464a".to_vec());
    assert_eq!(st.len(), 1);
    let bad = hash_object(&mut st, GitKind::Tree, b"dangling", true);
    assert_eq!(bad.unwrap_err().kind, WyagErrorKind::Format);
}

#[test]
fn cat_file_rejects_non_text_content() {
    let mut st = ObjectStore::new();
    let d = st.write(&GitObject::Blob { data: vec![0xff, 0xfe, 0x00] }, true);
    assert_eq!(wyag::store::cat_file(&st, &d).unwrap_err().kind, WyagErrorKind::Format);
}

#[test]
fn Read_GitBlob_Object_Ok() {
    let mut st = ObjectStore::new();
    let d = st.write(&GitObject::Blob { data: b"blob body".to_vec() }, true);
    match st.read(&d).unwrap() {
        GitObject::Blob { data } => assert_eq!(data, b"blob body".to_vec()),
        _ => panic!("expected a blob"),
    }
}

#[test]
fn Read_GitBlob_Object_Fail() {
    // The stored stream under the digest is truncated.
    let mut st = ObjectStore::new();
    let d = digest_of_hex(b"6666666666666666666666666666666666666666");
    let mut packed = zlib_pack(b"blob 4\x00data");
    packed.truncate(packed.len() - 3);
    st.put_raw(d.clone(), packed);
    assert_eq!(st.read(&d).unwrap_err().kind, WyagErrorKind::CorruptObject);
}

#[test]
fn Read_GitTree_Object_Ok() {
    let mut st = ObjectStore::new();
    let sha = digest_of_hex(b"ce013625030ba8dba906f756967f9e9ca394464a");
    let tree = GitObject::Tree {
        items: vec![GitTreeLeaf { mode: b"100644".to_vec(), path: b"hello.txt".to_vec(), sha }],
    };
    let d = st.write(&tree, true);
    match st.read(&d).unwrap() {
        GitObject::Tree { items } => {
            assert_eq!(items.len(), 1);
            assert_eq!(items[0].mode, b"100644".to_vec());
            assert_eq!(items[0].path, b"hello.txt".to_vec());
        },
        _ => panic!("expected a tree"),
    }
}

#[test]
fn Read_GitTree_Object_Fail() {
    let mut st = ObjectStore::new();
    let d = digest_of_hex(b"7777777777777777777777777777777777777777");
    st.put_raw(d.clone(), zlib_pack(b"tree 5\x0010064"));
    assert_eq!(st.read(&d).unwrap_err().kind, WyagErrorKind::Format);
}

#[test]
fn Read_GitCommit_Object_OK() {
    let mut st = ObjectStore::new();
    let mut m = kvlm_new();
    kvlm_put(&mut m, String::from("tree"), vec![String::from("29ff16c9c14e2652b22f8b78bb08a5a07930c147")]);
    kvlm_put(&mut m, String::from(""), vec![String::from("a commit\n")]);
    let d = st.write(&GitObject::Commit { kvlm: m }, true);
    match st.read(&d).unwrap() {
        GitObject::Commit { kvlm } => {
            assert_eq!(kvlm_get(&kvlm, ""), Some(&vec![String::from("a commit\n")]));
        },
        _ => panic!("expected a commit"),
    }
}

#[test]
fn Read_GitCommit_Object_Fail() {
    let mut st = ObjectStore::new();
    let d = digest_of_hex(b"8888888888888888888888888888888888888888");
    // The first field line holds no space before its newline.
    st.put_raw(d.clone(), zlib_pack(b"commit 9\x00nospace\n\n"));
    assert_eq!(st.read(&d).unwrap_err().kind, WyagErrorKind::Format);
}

#[test]
fn Read_GitTag_Object_Ok() {
    let mut st = ObjectStore::new();
    let mut m = kvlm_new();
    kvlm_put(&mut m, String::from("object"), vec![String::from("29ff16c9c14e2652b22f8b78bb08a5a07930c147")]);
    kvlm_put(&mut m, String::from("tag"), vec![String::from("v1")]);
    kvlm_put(&mut m, String::from(""), vec![String::from("tagged\n")]);
    let d = st.write(&GitObject::Tag { kvlm: m }, true);
    match st.read(&d).unwrap() {
        GitObject::Tag { kvlm } => {
            assert_eq!(kvlm_get(&kvlm, "tag"), Some(&vec![String::from("v1")]));
        },
        _ => panic!("expected a tag"),
    }
}

#[test]
fn Read_GitTag_Object_Fail() {
    let mut st = ObjectStore::new();
    let d = digest_of_hex(b"9999999999999999999999999999999999999999");
    // The value holds bytes that are no valid text.
    st.put_raw(d.clone(), zlib_pack(b"tag 7\x00k \xff\xfe\n\nm"));
    assert_eq!(st.read(&d).unwrap_err().kind, WyagErrorKind::Format);
}

#[test]
fn sha1_matches_published_test_vector() {
    // The digest of `abc` under SHA-1 is a published constant.
    let d = digest(b"abc");
    assert_eq!(d.to_hex(), b"a9993e364706816aba3e25717850c26c9cd0d89d".to_vec());
}
