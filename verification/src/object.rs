//! The typed-object abstraction: a closed union over the four kinds the
//! store recognises, each knowing how to turn its body bytes into structure
//! and back.
use vstd::prelude::*;

use linked_hash_map::LinkedHashMap;

use crate::bytes_util;
use crate::digest;
use crate::error::WyagError;
use crate::error::WyagErrorKind;
use crate::frame;
use crate::kvlm;
use crate::tree;
use crate::tree::GitTreeLeaf;

verus! {

/// The four kinds of stored object.
#[derive(Clone, Copy, PartialEq, Eq, Structural, Debug)]
pub enum GitKind {
    Blob,
    Tree,
    Commit,
    Tag,
}

/// The kind name written in an object's header, lowercase ASCII.
pub open spec fn spec_kind_bytes(k: GitKind) -> Seq<u8> {
    match k {
        GitKind::Blob => seq![98u8, 108u8, 111u8, 98u8],
        GitKind::Tree => seq![116u8, 114u8, 101u8, 101u8],
        GitKind::Commit => seq![99u8, 111u8, 109u8, 109u8, 105u8, 116u8],
        GitKind::Tag => seq![116u8, 97u8, 103u8],
    }
}

/// Which kind a header name denotes, if any.
pub open spec fn spec_kind_of(b: Seq<u8>) -> Option<GitKind> {
    if b == spec_kind_bytes(GitKind::Blob) {
        Some(GitKind::Blob)
    } else if b == spec_kind_bytes(GitKind::Tree) {
        Some(GitKind::Tree)
    } else if b == spec_kind_bytes(GitKind::Commit) {
        Some(GitKind::Commit)
    } else if b == spec_kind_bytes(GitKind::Tag) {
        Some(GitKind::Tag)
    } else {
        None
    }
}

/// Every kind name is nonempty and free of the header delimiters, and names
/// its own kind.
pub proof fn lemma_kind_bytes(k: GitKind)
    ensures
        frame::kind_name_ok(spec_kind_bytes(k)),
        spec_kind_of(spec_kind_bytes(k)) == Some(k),
{
    match k {
        GitKind::Blob => {
            assert(spec_kind_bytes(GitKind::Blob) != spec_kind_bytes(GitKind::Tree));
        },
        GitKind::Tree => {
            assert(spec_kind_bytes(GitKind::Tree) != spec_kind_bytes(GitKind::Blob)) by {
                assert(spec_kind_bytes(GitKind::Tree)[0] != spec_kind_bytes(GitKind::Blob)[0]);
            }
        },
        GitKind::Commit => {
            assert(spec_kind_bytes(GitKind::Commit).len() != spec_kind_bytes(
                GitKind::Blob,
            ).len());
            assert(spec_kind_bytes(GitKind::Commit).len() != spec_kind_bytes(
                GitKind::Tree,
            ).len());
        },
        GitKind::Tag => {
            assert(spec_kind_bytes(GitKind::Tag).len() != spec_kind_bytes(GitKind::Blob).len());
            assert(spec_kind_bytes(GitKind::Tag).len() != spec_kind_bytes(GitKind::Tree).len());
            assert(spec_kind_bytes(GitKind::Tag).len() != spec_kind_bytes(
                GitKind::Commit,
            ).len());
        },
    }
}

/// The header name of a kind.
pub fn kind_bytes(k: GitKind) -> (r: Vec<u8>)
    ensures
        r@ == spec_kind_bytes(k),
{
    let mut r: Vec<u8> = Vec::new();
    match k {
        GitKind::Blob => {
            r.push(98u8);
            r.push(108u8);
            r.push(111u8);
            r.push(98u8);
        },
        GitKind::Tree => {
            r.push(116u8);
            r.push(114u8);
            r.push(101u8);
            r.push(101u8);
        },
        GitKind::Commit => {
            r.push(99u8);
            r.push(111u8);
            r.push(109u8);
            r.push(109u8);
            r.push(105u8);
            r.push(116u8);
        },
        GitKind::Tag => {
            r.push(116u8);
            r.push(97u8);
            r.push(103u8);
        },
    }
    proof {
        assert(r@ =~= spec_kind_bytes(k));
    }
    r
}

/// Which kind a header name denotes, if any.
pub fn kind_of(b: &[u8]) -> (r: Option<GitKind>)
    ensures
        r == spec_kind_of(b@),
{
    let blob = kind_bytes(GitKind::Blob);
    let tree_name = kind_bytes(GitKind::Tree);
    let commit = kind_bytes(GitKind::Commit);
    let tag = kind_bytes(GitKind::Tag);
    if bytes_util::bytes_eq(b, blob.as_slice()) {
        Some(GitKind::Blob)
    } else if bytes_util::bytes_eq(b, tree_name.as_slice()) {
        Some(GitKind::Tree)
    } else if bytes_util::bytes_eq(b, commit.as_slice()) {
        Some(GitKind::Commit)
    } else if bytes_util::bytes_eq(b, tag.as_slice()) {
        Some(GitKind::Tag)
    } else {
        None
    }
}

/// A typed object: raw bytes for a blob, ordered entries for a tree, a
/// key-value-list-with-message document for a commit or a tag.
#[derive(Debug)]
pub enum GitObject {
    Blob { data: Vec<u8> },
    Tree { items: Vec<GitTreeLeaf> },
    Commit { kvlm: LinkedHashMap<String, Vec<String>> },
    Tag { kvlm: LinkedHashMap<String, Vec<String>> },
}

impl GitObject {
    /// The kind of this object, fixed per variant.
    pub open spec fn spec_kind(&self) -> GitKind {
        match self {
            GitObject::Blob { .. } => GitKind::Blob,
            GitObject::Tree { .. } => GitKind::Tree,
            GitObject::Commit { .. } => GitKind::Commit,
            GitObject::Tag { .. } => GitKind::Tag,
        }
    }

    /// The object's structure is sound: tree entries fit the binary format,
    /// document keys do not repeat.
    pub open spec fn wf(&self) -> bool {
        match self {
            GitObject::Blob { .. } => true,
            GitObject::Tree { items } => forall|i: int|
                0 <= i < items@.len() ==> (#[trigger] items@[i]).wf(),
            GitObject::Commit { kvlm } => kvlm::kvlm_map_wf(*kvlm),
            GitObject::Tag { kvlm } => kvlm::kvlm_map_wf(*kvlm),
        }
    }

    /// The serialized body of this object.
    pub open spec fn spec_body(&self) -> Seq<u8> {
        match self {
            GitObject::Blob { data } => data@,
            GitObject::Tree { items } => tree::spec_tree_serialize(tree::leaves_view(items@)),
            GitObject::Commit { kvlm } => kvlm::spec_kvlm_serialize(
                kvlm::doc_bytes(kvlm::kvlm_entries(*kvlm)),
            ),
            GitObject::Tag { kvlm } => kvlm::spec_kvlm_serialize(
                kvlm::doc_bytes(kvlm::kvlm_entries(*kvlm)),
            ),
        }
    }

    /// This object's body will deserialize back to this object's structure:
    /// always for a blob or a well-formed tree; for a commit or tag, when its
    /// document carries the message entry last and field keys fit the format.
    pub open spec fn round_trips(&self) -> bool {
        &&& self.wf()
        &&& match self {
            GitObject::Blob { .. } => true,
            GitObject::Tree { .. } => true,
            GitObject::Commit { kvlm } => kvlm::kvlm_doc_wf(
                kvlm::doc_bytes(kvlm::kvlm_entries(*kvlm)),
            ),
            GitObject::Tag { kvlm } => kvlm::kvlm_doc_wf(
                kvlm::doc_bytes(kvlm::kvlm_entries(*kvlm)),
            ),
        }
    }

    /// The kind of this object.
    pub fn kind(&self) -> (r: GitKind)
        ensures
            r == self.spec_kind(),
    {
        match self {
            GitObject::Blob { .. } => GitKind::Blob,
            GitObject::Tree { .. } => GitKind::Tree,
            GitObject::Commit { .. } => GitKind::Commit,
            GitObject::Tag { .. } => GitKind::Tag,
        }
    }

    /// The header name of this object's kind.
    pub fn fmt(&self) -> (r: Vec<u8>)
        ensures
            r@ == spec_kind_bytes(self.spec_kind()),
    {
        kind_bytes(self.kind())
    }

    /// Writes this object's structured form back into body bytes.
    pub fn serialize(&self) -> (r: Vec<u8>)
        requires
            self.wf(),
        ensures
            r@ == self.spec_body(),
    {
        match self {
            GitObject::Blob { data } => digest::clone_bytes(data),
            GitObject::Tree { items } => tree::tree_serialize(items),
            GitObject::Commit { kvlm } => kvlm::kvlm_serialize(kvlm),
            GitObject::Tag { kvlm } => kvlm::kvlm_serialize(kvlm),
        }
    }

    /// Reads body bytes into the structured form of the named kind. A body
    /// that breaks the kind's grammar is a format error; a blob accepts any
    /// bytes.
    pub fn deserialize(kind: GitKind, data: &[u8]) -> (r: Result<GitObject, WyagError>)
        ensures
            match r {
                Ok(o) => {
                    &&& o.wf()
                    &&& o.spec_kind() == kind
                    &&& match o {
                        GitObject::Blob { data: d } => d@ == data@,
                        GitObject::Tree { items } => tree::spec_tree_parse(data@) == Some(
                            tree::leaves_view(items@),
                        ),
                        GitObject::Commit { kvlm } => kvlm::spec_kvlm_parse(data@) == Some(
                            kvlm::doc_bytes(kvlm::kvlm_entries(kvlm)),
                        ) && kvlm::spec_kvlm_decodable(data@),
                        GitObject::Tag { kvlm } => kvlm::spec_kvlm_parse(data@) == Some(
                            kvlm::doc_bytes(kvlm::kvlm_entries(kvlm)),
                        ) && kvlm::spec_kvlm_decodable(data@),
                    }
                },
                Err(e) => e.kind == WyagErrorKind::Format && (match kind {
                    GitKind::Blob => false,
                    GitKind::Tree => tree::spec_tree_parse(data@) is None,
                    GitKind::Commit => kvlm::spec_kvlm_parse(data@) is None
                        || !kvlm::spec_kvlm_decodable(data@),
                    GitKind::Tag => kvlm::spec_kvlm_parse(data@) is None
                        || !kvlm::spec_kvlm_decodable(data@),
                }),
            },
    {
        match kind {
            GitKind::Blob => Ok(
                GitObject::Blob { data: vstd::slice::slice_to_vec(data) },
            ),
            GitKind::Tree => match tree::tree_parse(data) {
                Ok(items) => Ok(GitObject::Tree { items }),
                Err(e) => Err(e),
            },
            GitKind::Commit => match kvlm::kvlm_parse(data) {
                Ok(kvlm) => Ok(GitObject::Commit { kvlm }),
                Err(e) => Err(e),
            },
            GitKind::Tag => match kvlm::kvlm_parse(data) {
                Ok(kvlm) => Ok(GitObject::Tag { kvlm }),
                Err(e) => Err(e),
            },
        }
    }
}

/// The round-trip law of the object codec: for every well-formed object,
/// deserializing its serialized body succeeds and yields the object's own
/// structure — byte-identical blob data, the same tree entries in the same
/// order, the same document entries.
pub proof fn lemma_object_round_trip(o: GitObject)
    requires
        o.round_trips(),
    ensures
        match o {
            GitObject::Blob { data } => true,
            GitObject::Tree { items } => tree::spec_tree_parse(o.spec_body()) == Some(
                tree::leaves_view(items@),
            ),
            GitObject::Commit { kvlm } => kvlm::spec_kvlm_parse(o.spec_body()) == Some(
                kvlm::doc_bytes(kvlm::kvlm_entries(kvlm)),
            ) && kvlm::spec_kvlm_decodable(o.spec_body()),
            GitObject::Tag { kvlm } => kvlm::spec_kvlm_parse(o.spec_body()) == Some(
                kvlm::doc_bytes(kvlm::kvlm_entries(kvlm)),
            ) && kvlm::spec_kvlm_decodable(o.spec_body()),
        },
{
    match o {
        GitObject::Blob { .. } => {},
        GitObject::Tree { items } => {
            assert(forall|i: int|
                0 <= i < tree::leaves_view(items@).len() ==> tree::leaf_view_wf(
                    #[trigger] tree::leaves_view(items@)[i],
                ));
            tree::lemma_tree_round_trip(tree::leaves_view(items@));
        },
        GitObject::Commit { kvlm } => {
            kvlm::lemma_kvlm_round_trip(kvlm::doc_bytes(kvlm::kvlm_entries(kvlm)));
            kvlm::lemma_serialized_decodable(kvlm::kvlm_entries(kvlm));
        },
        GitObject::Tag { kvlm } => {
            kvlm::lemma_kvlm_round_trip(kvlm::doc_bytes(kvlm::kvlm_entries(kvlm)));
            kvlm::lemma_serialized_decodable(kvlm::kvlm_entries(kvlm));
        },
    }
}

} // verus!
