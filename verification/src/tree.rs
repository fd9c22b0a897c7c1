//! The binary directory-entry format of tree bodies: a repetition of
//! `mode SP path NUL digest(20 raw bytes)` until the body is exhausted.
//! Entry order is preserved exactly; this codec never sorts.
use vstd::prelude::*;

use crate::bytes_util;
use crate::bytes_util::spec_find_byte;
use crate::digest;
use crate::digest::Digest;
use crate::error::WyagError;
use crate::error::WyagErrorKind;

verus! {

/// One `(mode, path, digest)` entry of a tree body. The digest is kept in
/// its 20-byte binary form.
#[derive(Debug)]
pub struct GitTreeLeaf {
    pub mode: Vec<u8>,
    pub path: Vec<u8>,
    pub sha: Digest,
}

impl View for GitTreeLeaf {
    type V = (Seq<u8>, Seq<u8>, Seq<u8>);

    open spec fn view(&self) -> (Seq<u8>, Seq<u8>, Seq<u8>) {
        (self.mode@, self.path@, self.sha@)
    }
}

impl Clone for GitTreeLeaf {
    fn clone(&self) -> (r: Self)
        ensures
            r@ == self@,
    {
        GitTreeLeaf {
            mode: digest::clone_bytes(&self.mode),
            path: digest::clone_bytes(&self.path),
            sha: self.sha.clone(),
        }
    }
}

/// A tree entry fit for the binary format: a mode of five or six bytes none
/// of which is a space, a path without NUL, a twenty-byte digest.
pub open spec fn leaf_view_wf(l: (Seq<u8>, Seq<u8>, Seq<u8>)) -> bool {
    &&& l.0.len() == 5 || l.0.len() == 6
    &&& forall|j: int| 0 <= j < l.0.len() ==> l.0[j] != 32u8
    &&& forall|j: int| 0 <= j < l.1.len() ==> l.1[j] != 0u8
    &&& l.2.len() == 20
}

impl GitTreeLeaf {
    /// This entry is fit for the binary format.
    pub open spec fn wf(&self) -> bool {
        leaf_view_wf(self@)
    }
}

/// The serialized form of one entry.
pub open spec fn spec_ser_leaf(l: (Seq<u8>, Seq<u8>, Seq<u8>)) -> Seq<u8> {
    l.0 + seq![32u8] + l.1 + seq![0u8] + l.2
}

/// What the front of a tree body denotes: the first entry and the count of
/// bytes it occupies. Nothing when the mode's length is not five or six, a
/// delimiter is missing, or fewer than twenty bytes follow the path.
pub open spec fn spec_tree_parse_one(raw: Seq<u8>) -> Option<(int, (Seq<u8>, Seq<u8>, Seq<u8>))> {
    match spec_find_byte(raw, 0, 32u8) {
        None => None,
        Some(x) => if x != 5 && x != 6 {
            None
        } else {
            match spec_find_byte(raw, x + 1, 0u8) {
                None => None,
                Some(y) => if y + 21 > raw.len() {
                    None
                } else {
                    Some(
                        (
                            y + 21,
                            (
                                raw.subrange(0, x),
                                raw.subrange(x + 1, y),
                                raw.subrange(y + 1, y + 21),
                            ),
                        ),
                    )
                },
            }
        },
    }
}

/// What a whole tree body denotes: its entries in order. Nothing when an
/// entry is malformed; an empty body is an empty tree.
pub open spec fn spec_tree_parse(raw: Seq<u8>) -> Option<Seq<(Seq<u8>, Seq<u8>, Seq<u8>)>>
    decreases raw.len(),
    via spec_tree_parse_decreases
{
    if raw.len() == 0 {
        Some(Seq::empty())
    } else {
        match spec_tree_parse_one(raw) {
            None => None,
            Some((c, l)) => match spec_tree_parse(raw.subrange(c, raw.len() as int)) {
                None => None,
                Some(rest) => Some(seq![l] + rest),
            },
        }
    }
}

#[via_fn]
proof fn spec_tree_parse_decreases(raw: Seq<u8>) {
    if raw.len() > 0 {
        match spec_find_byte(raw, 0, 32u8) {
            None => {},
            Some(x) => {
                bytes_util::lemma_find_byte(raw, 0, 32u8);
                match spec_find_byte(raw, x + 1, 0u8) {
                    None => {},
                    Some(y) => {
                        bytes_util::lemma_find_byte(raw, x + 1, 0u8);
                    },
                }
            },
        }
    }
}

/// The serialized form of a sequence of entries, in the order given.
pub open spec fn spec_tree_serialize(entries: Seq<(Seq<u8>, Seq<u8>, Seq<u8>)>) -> Seq<u8>
    decreases entries.len(),
{
    if entries.len() == 0 {
        Seq::empty()
    } else {
        spec_ser_leaf(entries[0]) + spec_tree_serialize(entries.drop_first())
    }
}

/// Appending one entry to a sequence appends its serialized form.
pub proof fn lemma_tree_ser_snoc(entries: Seq<(Seq<u8>, Seq<u8>, Seq<u8>)>, l: (Seq<u8>, Seq<u8>, Seq<u8>))
    ensures
        spec_tree_serialize(entries.push(l)) == spec_tree_serialize(entries) + spec_ser_leaf(l),
    decreases entries.len(),
{
    if entries.len() == 0 {
        assert(entries.push(l)[0] == l);
        assert(entries.push(l).drop_first() =~= Seq::<(Seq<u8>, Seq<u8>, Seq<u8>)>::empty());
        assert(spec_tree_serialize(Seq::<(Seq<u8>, Seq<u8>, Seq<u8>)>::empty())
            =~= Seq::<u8>::empty());
        assert(spec_tree_serialize(entries.push(l)) == spec_ser_leaf(l) + spec_tree_serialize(
            entries.push(l).drop_first(),
        ));
        assert(spec_tree_serialize(entries.push(l)) =~= spec_ser_leaf(l));
        assert(spec_tree_serialize(entries) + spec_ser_leaf(l) =~= spec_ser_leaf(l));
    } else {
        lemma_tree_ser_snoc(entries.drop_first(), l);
        assert(entries.push(l).drop_first() =~= entries.drop_first().push(l));
        assert(entries.push(l)[0] == entries[0]);
        assert(spec_tree_serialize(entries.push(l)) == spec_ser_leaf(entries[0])
            + spec_tree_serialize(entries.drop_first().push(l)));
        assert(spec_ser_leaf(entries[0]) + (spec_tree_serialize(entries.drop_first())
            + spec_ser_leaf(l)) =~= (spec_ser_leaf(entries[0]) + spec_tree_serialize(
            entries.drop_first(),
        )) + spec_ser_leaf(l));
    }
}

/// The front of `spec_ser_leaf(l) + rest` parses back to `l` exactly, for a
/// well-formed entry.
proof fn lemma_parse_one_of_ser(l: (Seq<u8>, Seq<u8>, Seq<u8>), rest: Seq<u8>)
    requires
        leaf_view_wf(l),
    ensures
        spec_tree_parse_one(spec_ser_leaf(l) + rest) == Some(
            (spec_ser_leaf(l).len() as int, l),
        ),
{
    let b = spec_ser_leaf(l) + rest;
    let x = l.0.len() as int;
    let y = x + 1 + l.1.len() as int;
    assert(b[x] == 32u8);
    assert(forall|j: int| 0 <= j < x ==> b[j] == l.0[j] && b[j] != 32u8);
    bytes_util::lemma_find_byte_exact(b, 0, x, 32u8);
    assert(b[y] == 0u8);
    assert(forall|j: int| x + 1 <= j < y ==> b[j] == l.1[j - (x + 1)] && b[j] != 0u8);
    bytes_util::lemma_find_byte_exact(b, x + 1, y, 0u8);
    assert(y + 21 <= b.len());
    assert(b.subrange(0, x) =~= l.0);
    assert(b.subrange(x + 1, y) =~= l.1);
    assert(b.subrange(y + 1, y + 21) =~= l.2);
    assert(y + 21 == spec_ser_leaf(l).len());
}

/// Decoding an encoded entry sequence yields the entries again, in the same
/// order, whenever every entry is fit for the format.
pub proof fn lemma_tree_round_trip(entries: Seq<(Seq<u8>, Seq<u8>, Seq<u8>)>)
    requires
        forall|i: int| 0 <= i < entries.len() ==> leaf_view_wf(#[trigger] entries[i]),
    ensures
        spec_tree_parse(spec_tree_serialize(entries)) == Some(entries),
    decreases entries.len(),
{
    if entries.len() == 0 {
        assert(spec_tree_serialize(entries) =~= Seq::<u8>::empty());
        assert(spec_tree_parse(Seq::<u8>::empty()) == Some(Seq::<(Seq<u8>, Seq<u8>, Seq<u8>)>::empty()));
        assert(entries =~= Seq::<(Seq<u8>, Seq<u8>, Seq<u8>)>::empty());
    } else {
        let l = entries[0];
        let rest = entries.drop_first();
        let b = spec_tree_serialize(entries);
        let tail = spec_tree_serialize(rest);
        assert(b == spec_ser_leaf(l) + tail);
        lemma_parse_one_of_ser(l, tail);
        assert(b.len() > 0);
        let c = spec_ser_leaf(l).len() as int;
        assert(b.subrange(c, b.len() as int) =~= tail);
        assert(forall|i: int| 0 <= i < rest.len() ==> leaf_view_wf(#[trigger] rest[i]));
        lemma_tree_round_trip(rest);
        assert(seq![l] + rest =~= entries);
    }
}

/// A body that decodes re-encodes to itself byte for byte: the tree codec
/// round-trips the stored form exactly.
pub proof fn lemma_tree_canonical(raw: Seq<u8>)
    requires
        spec_tree_parse(raw) is Some,
    ensures
        spec_tree_serialize(spec_tree_parse(raw).unwrap()) == raw,
        forall|i: int|
            0 <= i < spec_tree_parse(raw).unwrap().len() ==> leaf_view_wf(
                #[trigger] spec_tree_parse(raw).unwrap()[i],
            ),
    decreases raw.len(),
{
    if raw.len() == 0 {
        assert(spec_tree_serialize(Seq::<(Seq<u8>, Seq<u8>, Seq<u8>)>::empty()) =~= raw);
    } else {
        let (c, l) = spec_tree_parse_one(raw).unwrap();
        let x = spec_find_byte(raw, 0, 32u8).unwrap();
        bytes_util::lemma_find_byte(raw, 0, 32u8);
        let y = spec_find_byte(raw, x + 1, 0u8).unwrap();
        bytes_util::lemma_find_byte(raw, x + 1, 0u8);
        assert(leaf_view_wf(l));
        assert(spec_ser_leaf(l) =~= raw.subrange(0, c));
        let suffix = raw.subrange(c, raw.len() as int);
        lemma_tree_canonical(suffix);
        let e = spec_tree_parse(raw).unwrap();
        let rest = spec_tree_parse(suffix).unwrap();
        assert(e == seq![l] + rest);
        assert(e.drop_first() =~= rest);
        assert(e[0] == l);
        assert(spec_tree_serialize(e) == spec_ser_leaf(l) + spec_tree_serialize(rest));
        assert(spec_ser_leaf(l) + suffix =~= raw);
        assert(forall|i: int| 0 <= i < e.len() ==> leaf_view_wf(#[trigger] e[i])) by {
            assert(forall|i: int| 1 <= i < e.len() ==> e[i] == rest[i - 1]);
        }
    }
}

/// Reads one entry of a tree body starting at `start`, returning the
/// position just past it and the entry itself.
pub fn tree_parse_one(raw: &[u8], start: usize) -> (r: Result<(usize, GitTreeLeaf), WyagError>)
    requires
        start <= raw@.len(),
    ensures
        match r {
            Ok((next, leaf)) => {
                &&& spec_tree_parse_one(raw@.subrange(start as int, raw@.len() as int))
                    matches Some((c, lv))
                &&& next == start + c
                &&& start < next <= raw@.len()
                &&& leaf@ == lv
                &&& leaf.wf()
            },
            Err(e) => spec_tree_parse_one(raw@.subrange(start as int, raw@.len() as int)) is None
                && e.kind == WyagErrorKind::Format,
        },
{
    let n = raw.len();
    let s = vstd::slice::slice_subrange(raw, start, n);
    let x = match bytes_util::find_byte(s, 0, 32u8) {
        Some(i) => i,
        None => {
            return Err(
                WyagError::with_kind(
                    WyagErrorKind::Format,
                    "tree entry holds no space after its mode",
                ),
            );
        },
    };
    if x != 5 && x != 6 {
        return Err(
            WyagError::with_kind(WyagErrorKind::Format, "tree entry mode is not 5 or 6 bytes"),
        );
    }
    let y = match bytes_util::find_byte(s, x + 1, 0u8) {
        Some(i) => i,
        None => {
            return Err(
                WyagError::with_kind(
                    WyagErrorKind::Format,
                    "tree entry holds no NUL after its path",
                ),
            );
        },
    };
    if s.len() < 21 || y > s.len() - 21 {
        return Err(
            WyagError::with_kind(
                WyagErrorKind::Format,
                "tree entry ends before its twenty digest bytes",
            ),
        );
    }
    let mode = bytes_util::bytes_subrange(s, 0, x);
    let path = bytes_util::bytes_subrange(s, x + 1, y);
    let sha_bytes = bytes_util::bytes_subrange(s, y + 1, y + 21);
    proof {
        bytes_util::lemma_find_byte(s@, 0, 32u8);
        bytes_util::lemma_find_byte(s@, x + 1, 0u8);
    }
    let leaf = GitTreeLeaf { mode, path, sha: Digest::from_bytes(sha_bytes) };
    Ok((start + (y + 21), leaf))
}

/// The entries of a sequence of leaves.
pub open spec fn leaves_view(v: Seq<GitTreeLeaf>) -> Seq<(Seq<u8>, Seq<u8>, Seq<u8>)> {
    v.map_values(|l: GitTreeLeaf| l@)
}

/// Reads a whole tree body into its entries, in order. A malformed or
/// dangling entry is a format error.
pub fn tree_parse(raw: &[u8]) -> (r: Result<Vec<GitTreeLeaf>, WyagError>)
    ensures
        match r {
            Ok(v) => spec_tree_parse(raw@) == Some(leaves_view(v@)) && (forall|i: int|
                0 <= i < v@.len() ==> (#[trigger] v@[i]).wf()),
            Err(e) => spec_tree_parse(raw@) is None && e.kind == WyagErrorKind::Format,
        },
{
    let n = raw.len();
    let mut pos: usize = 0;
    let mut v: Vec<GitTreeLeaf> = Vec::new();
    proof {
        assert(raw@.subrange(0, n as int) =~= raw@);
        assert(leaves_view(v@) =~= Seq::<(Seq<u8>, Seq<u8>, Seq<u8>)>::empty());
        match spec_tree_parse(raw@) {
            Some(rest) => {
                assert(leaves_view(v@) + rest =~= rest);
            },
            None => {},
        }
    }
    while pos < n
        invariant
            pos <= n,
            n == raw@.len(),
            forall|i: int| 0 <= i < v@.len() ==> (#[trigger] v@[i]).wf(),
            spec_tree_parse(raw@) == (match spec_tree_parse(
                raw@.subrange(pos as int, n as int),
            ) {
                Some(rest) => Some(leaves_view(v@) + rest),
                None => None::<Seq<(Seq<u8>, Seq<u8>, Seq<u8>)>>,
            }),
        decreases n - pos,
    {
        let (next, leaf) = match tree_parse_one(raw, pos) {
            Ok(p) => p,
            Err(e) => {
                return Err(e);
            },
        };
        proof {
            let suf = raw@.subrange(pos as int, n as int);
            let (c, lv) = spec_tree_parse_one(suf).unwrap();
            assert(c == next - pos);
            assert(suf.subrange(c, suf.len() as int) =~= raw@.subrange(next as int, n as int));
            assert(leaves_view(v@.push(leaf)) =~= leaves_view(v@) + seq![leaf@]);
            match spec_tree_parse(raw@.subrange(next as int, n as int)) {
                Some(rest) => {
                    assert(spec_tree_parse(suf) == Some(seq![lv] + rest));
                    assert(leaves_view(v@) + (seq![lv] + rest) =~= (leaves_view(v@) + seq![lv])
                        + rest);
                },
                None => {
                    assert(spec_tree_parse(suf) is None);
                },
            }
        }
        v.push(leaf);
        pos = next;
    }
    proof {
        assert(raw@.subrange(pos as int, n as int) =~= Seq::<u8>::empty());
        assert(leaves_view(v@) + Seq::<(Seq<u8>, Seq<u8>, Seq<u8>)>::empty() =~= leaves_view(v@));
    }
    Ok(v)
}

/// Writes entries back into the binary form, in the order given.
pub fn tree_serialize(items: &Vec<GitTreeLeaf>) -> (r: Vec<u8>)
    ensures
        r@ == spec_tree_serialize(leaves_view(items@)),
{
    let mut r: Vec<u8> = Vec::new();
    let mut i: usize = 0;
    proof {
        assert(leaves_view(items@.subrange(0, 0)) =~= Seq::<(Seq<u8>, Seq<u8>, Seq<u8>)>::empty());
    }
    while i < items.len()
        invariant
            i <= items@.len(),
            r@ == spec_tree_serialize(leaves_view(items@.subrange(0, i as int))),
        decreases items@.len() - i,
    {
        let l = &items[i];
        r.extend_from_slice(l.mode.as_slice());
        r.push(32u8);
        r.extend_from_slice(l.path.as_slice());
        r.push(0u8);
        r.extend_from_slice(l.sha.bytes.as_slice());
        proof {
            let pre = leaves_view(items@.subrange(0, i as int));
            lemma_tree_ser_snoc(pre, items@[i as int]@);
            assert(leaves_view(items@.subrange(0, i + 1 as int)) =~= pre.push(items@[i as int]@));
            assert(r@ =~= spec_tree_serialize(pre) + spec_ser_leaf(items@[i as int]@));
        }
        i = i + 1;
    }
    proof {
        assert(items@.subrange(0, items@.len() as int) =~= items@);
    }
    r
}

} // verus!
