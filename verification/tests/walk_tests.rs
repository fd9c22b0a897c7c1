//! The graph walks on concrete stores: the log walk with its cycle guard,
//! and checkout's resolution and materialization steps.

use std::io::Write;

use wyag::digest::Digest;
use wyag::error::WyagErrorKind;
use wyag::frame::frame;
use wyag::kvlm::{kvlm_new, kvlm_put};
use wyag::object::GitObject;
use wyag::store::ObjectStore;
use wyag::tree::GitTreeLeaf;
use wyag::walk::{checkout, log, CheckoutAction};

fn digest_of_hex(s: &[u8]) -> Digest {
    Digest::from_hex(s).expect("forty hex digits")
}

fn zlib_pack(data: &[u8]) -> Vec<u8> {
    let mut e = flate2::write::ZlibEncoder::new(Vec::new(), flate2::Compression::default());
    e.write_all(data).expect("writing into a buffer succeeds");
    e.finish().expect("finishing an in-memory stream succeeds")
}

/// Stores a commit body under a chosen digest, bypassing content addressing,
/// so reference cycles can be laid out.
fn put_commit_at(st: &mut ObjectStore, at: &Digest, body: &[u8]) {
    let framed = frame(b"commit", body);
    st.put_raw(at.clone(), zlib_pack(framed.as_slice()));
}

#[test]
fn log_emits_parent_edges_in_preorder() {
    let mut st = ObjectStore::new();
    // A root commit, and a child naming it as parent.
    let mut root = kvlm_new();
    kvlm_put(&mut root, String::from("tree"), vec![String::from("29ff16c9c14e2652b22f8b78bb08a5a07930c147")]);
    kvlm_put(&mut root, String::from(""), vec![String::from("root\n")]);
    let d_root = st.write(&GitObject::Commit { kvlm: root }, true);
    let root_hex = String::from_utf8(d_root.to_hex()).expect("hex is text");

    let mut child = kvlm_new();
    kvlm_put(&mut child, String::from("parent"), vec![root_hex]);
    kvlm_put(&mut child, String::from(""), vec![String::from("child\n")]);
    let d_child = st.write(&GitObject::Commit { kvlm: child }, true);

    let edges = log(&st, &d_child).expect("an acyclic chain walks to its root");
    assert_eq!(edges.len(), 1);
    assert!(edges[0].0 == d_child);
    assert!(edges[0].1 == d_root);
}

#[test]
fn log_cycle_terminates_visiting_each_once() {
    // A malformed graph: A names B as parent, B names A. The walk must end
    // after each of A and B is visited once, with exactly the two edges.
    let da = digest_of_hex(b"aaaaaaaaaaaaaaaaaaaaaaaaaaaaaaaaaaaaaaaa");
    let db = digest_of_hex(b"bbbbbbbbbbbbbbbbbbbbbbbbbbbbbbbbbbbbbbbb");
    let mut st = ObjectStore::new();
    put_commit_at(
        &mut st,
        &da,
        b"parent bbbbbbbbbbbbbbbbbbbbbbbbbbbbbbbbbbbbbbbb\n\nA\n",
    );
    put_commit_at(
        &mut st,
        &db,
        b"parent aaaaaaaaaaaaaaaaaaaaaaaaaaaaaaaaaaaaaaaa\n\nB\n",
    );
    let edges = log(&st, &da).expect("the cycle guard ends the walk");
    assert_eq!(edges.len(), 2);
    assert!(edges[0].0 == da && edges[0].1 == db);
    assert!(edges[1].0 == db && edges[1].1 == da);
}

#[test]
fn log_shared_ancestor_is_walked_once() {
    let mut st = ObjectStore::new();
    let mut root = kvlm_new();
    kvlm_put(&mut root, String::from(""), vec![String::from("root\n")]);
    let d_root = st.write(&GitObject::Commit { kvlm: root }, true);
    let root_hex = String::from_utf8(d_root.to_hex()).expect("hex is text");

    let mut merge = kvlm_new();
    kvlm_put(
        &mut merge,
        String::from("parent"),
        vec![root_hex.clone(), root_hex],
    );
    kvlm_put(&mut merge, String::from(""), vec![String::from("merge\n")]);
    let d_merge = st.write(&GitObject::Commit { kvlm: merge }, true);

    let edges = log(&st, &d_merge).expect("both parent links resolve");
    // Both edges are emitted, but the shared parent is visited once.
    assert_eq!(edges.len(), 2);
    assert!(edges[0].0 == d_merge && edges[0].1 == d_root);
    assert!(edges[1].0 == d_merge && edges[1].1 == d_root);
}

#[test]
fn log_on_missing_start_is_not_found() {
    let st = ObjectStore::new();
    let d = digest_of_hex(b"cccccccccccccccccccccccccccccccccccccccc");
    assert_eq!(log(&st, &d).unwrap_err().kind, WyagErrorKind::NotFound);
}

#[test]
fn log_on_blob_is_type_mismatch() {
    let mut st = ObjectStore::new();
    let d = st.write(&GitObject::Blob { data: b"x".to_vec() }, true);
    assert_eq!(log(&st, &d).unwrap_err().kind, WyagErrorKind::TypeMismatch);
}

#[test]
fn checkout_materializes_nested_tree() {
    let mut st = ObjectStore::new();
    let d_blob = st.write(&GitObject::Blob { data: b"content\n".to_vec() }, true);
    let inner = GitObject::Tree {
        items: vec![GitTreeLeaf {
            mode: b"100644".to_vec(),
            path: b"file.txt".to_vec(),
            sha: d_blob.clone(),
        }],
    };
    let d_inner = st.write(&inner, true);
    let outer = GitObject::Tree {
        items: vec![
            GitTreeLeaf { mode: b"40000".to_vec(), path: b"sub".to_vec(), sha: d_inner },
            GitTreeLeaf { mode: b"100644".to_vec(), path: b"top.txt".to_vec(), sha: d_blob },
        ],
    };
    let d_outer = st.write(&outer, true);
    let outer_hex = String::from_utf8(d_outer.to_hex()).expect("hex is text");

    let mut c = kvlm_new();
    kvlm_put(&mut c, String::from("tree"), vec![outer_hex]);
    kvlm_put(&mut c, String::from(""), vec![String::from("m\n")]);
    let d_commit = st.write(&GitObject::Commit { kvlm: c }, true);

    let acts = checkout(&st, &d_commit, "dest").expect("a commit resolves to its tree");
    assert_eq!(acts.len(), 4);
    match &acts[0] {
        CheckoutAction::MakeDir { path } => assert_eq!(path.as_str(), "dest"),
        _ => panic!("the destination directory comes first"),
    }
    match &acts[1] {
        CheckoutAction::MakeDir { path } => assert_eq!(path.as_str(), "dest/sub"),
        _ => panic!("the subdirectory comes before its contents"),
    }
    match &acts[2] {
        CheckoutAction::WriteFile { path, data } => {
            assert_eq!(path.as_str(), "dest/sub/file.txt");
            assert_eq!(data, &b"content\n".to_vec());
        },
        _ => panic!("the nested file follows its directory"),
    }
    match &acts[3] {
        CheckoutAction::WriteFile { path, data } => {
            assert_eq!(path.as_str(), "dest/top.txt");
            assert_eq!(data, &b"content\n".to_vec());
        },
        _ => panic!("the sibling file comes last"),
    }
}

#[test]
fn checkout_of_tree_directly() {
    let mut st = ObjectStore::new();
    let d_blob = st.write(&GitObject::Blob { data: b"b".to_vec() }, true);
    let tree = GitObject::Tree {
        items: vec![GitTreeLeaf { mode: b"100644".to_vec(), path: b"a".to_vec(), sha: d_blob }],
    };
    let d_tree = st.write(&tree, true);
    let acts = checkout(&st, &d_tree, "out").expect("a tree checks out directly");
    assert_eq!(acts.len(), 2);
}

#[test]
fn checkout_type_mismatch_scenario() {
    // The starting digest resolves to a blob: the walk fails before any step.
    let mut st = ObjectStore::new();
    let d = st.write(&GitObject::Blob { data: b"not a tree".to_vec() }, true);
    let r = checkout(&st, &d, "dest");
    assert_eq!(r.unwrap_err().kind, WyagErrorKind::TypeMismatch);
}

#[test]
fn checkout_of_missing_digest_is_not_found() {
    let st = ObjectStore::new();
    let d = digest_of_hex(b"dddddddddddddddddddddddddddddddddddddddd");
    assert_eq!(checkout(&st, &d, "dest").unwrap_err().kind, WyagErrorKind::NotFound);
}
