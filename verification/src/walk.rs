//! The two graph walks over stored objects: the log walk, which follows a
//! commit's parents recursively with a cycle guard and emits the visited
//! edges, and checkout, which resolves a commit or tree and lays out the
//! directory-creation and file-write steps that materialize it.
use vstd::prelude::*;

use linked_hash_map::LinkedHashMap;
use vstd::utf8::decode_utf8;
use vstd::utf8::encode_utf8;
use vstd::utf8::valid_utf8;

use crate::digest::Digest;
use crate::error::WyagError;
use crate::error::WyagErrorKind;
use crate::hex;
use crate::kvlm;
use crate::object::GitKind;
use crate::object::GitObject;
use crate::store;
use crate::store::ObjectStore;
use crate::store::ReadModel;

verus! {

/// The bytes of the key naming a commit's parents.
pub open spec fn parent_key() -> Seq<u8> {
    seq![112u8, 97u8, 114u8, 101u8, 110u8, 116u8]
}

/// The bytes of the key naming a commit's tree.
pub open spec fn tree_key() -> Seq<u8> {
    seq![116u8, 114u8, 101u8, 101u8]
}

/// The key texts encode to those bytes.
pub proof fn lemma_walk_keys()
    ensures
        encode_utf8("parent"@) == parent_key(),
        encode_utf8("tree"@) == tree_key(),
{
    broadcast use vstd::utf8::is_ascii_chars_encode_utf8;

    reveal_strlit("parent");
    reveal_strlit("tree");
    assert(vstd::utf8::is_ascii_chars("parent"@));
    assert(vstd::utf8::is_ascii_chars("tree"@));
    assert(encode_utf8("parent"@) =~= parent_key());
    assert(encode_utf8("tree"@) =~= tree_key());
}

/// The values a document holds under a key; none when the key is absent.
pub open spec fn doc_values(d: Seq<(Seq<u8>, Seq<Seq<u8>>)>, k: Seq<u8>) -> Seq<Seq<u8>> {
    if kvlm::has_key(d, k) {
        d[kvlm::key_index(d, k)].1
    } else {
        Seq::empty()
    }
}

/// The digest a field value denotes: its forty hex digits decoded to twenty
/// bytes.
pub open spec fn digest_of_value(v: Seq<u8>) -> Option<Seq<u8>> {
    if v.len() == 40 {
        hex::spec_from_hex(v)
    } else {
        None
    }
}

/// What a document of a well-formed map holds under a key, tied to what the
/// string-typed lookup found.
proof fn lemma_doc_lookup(
    m: LinkedHashMap<String, Vec<String>>,
    kc: Seq<char>,
    kb: Seq<u8>,
    found: Option<&Vec<String>>,
)
    requires
        kvlm::kvlm_map_wf(m),
        encode_utf8(kc) == kb,
        match found {
            Some(v) => exists|i: int|
                0 <= i < kvlm::kvlm_entries(m).len() && (#[trigger] kvlm::kvlm_entries(m)[i]).0
                    == kc && v.deep_view() == kvlm::kvlm_entries(m)[i].1,
            None => forall|i: int|
                0 <= i < kvlm::kvlm_entries(m).len() ==> (#[trigger] kvlm::kvlm_entries(m)[i]).0
                    != kc,
        },
    ensures
        match found {
            Some(v) => doc_values(kvlm::doc_bytes(kvlm::kvlm_entries(m)), kb)
                == v.deep_view().map_values(|x: Seq<char>| encode_utf8(x)),
            None => doc_values(kvlm::doc_bytes(kvlm::kvlm_entries(m)), kb) == Seq::<
                Seq<u8>,
            >::empty(),
        },
{
    let c = kvlm::kvlm_entries(m);
    let d = kvlm::doc_bytes(c);
    assert forall|a: int, b: int| 0 <= a < b < d.len() implies (#[trigger] d[a]).0 != (
    #[trigger] d[b]).0 by {
        if d[a].0 == d[b].0 {
            kvlm::lemma_encode_injective(c[a].0, c[b].0);
        }
    }
    match found {
        Some(v) => {
            let i = choose|i: int|
                0 <= i < c.len() && (#[trigger] c[i]).0 == kc && v.deep_view() == c[i].1;
            assert(d[i].0 == kb && d[i].1 == c[i].1.map_values(|x: Seq<char>| encode_utf8(x)));
            kvlm::lemma_key_index(d, kb, i);
        },
        None => {
            if kvlm::has_key(d, kb) {
                let i = kvlm::key_index(d, kb);
                assert(0 <= i < d.len() && d[i].0 == kb);
                kvlm::lemma_encode_injective(c[i].0, kc);
            }
        },
    }
}

// ---------------------------------------------------------------------------
// The log walk.
// ---------------------------------------------------------------------------
/// What visiting one commit digest yields: nothing new for an already-visited
/// digest; otherwise the commit is read and each parent contributes an edge
/// and its own walk, in order. The fuel bounds the depth of fresh visits; a
/// store of n objects never exhausts fuel n, since each fresh visit consumes
/// one stored object.
pub open spec fn spec_log(
    m: Map<Seq<u8>, Seq<u8>>,
    sha: Seq<u8>,
    seen: Seq<Seq<u8>>,
    fuel: nat,
) -> Result<(Seq<(Seq<u8>, Seq<u8>)>, Seq<Seq<u8>>), WyagErrorKind>
    decreases fuel, 0nat, 0nat,
{
    if seen.contains(sha) {
        Ok((Seq::empty(), seen))
    } else {
        match store::spec_read(m, sha) {
            ReadModel::NotFound => Err(WyagErrorKind::NotFound),
            ReadModel::Corrupt => Err(WyagErrorKind::CorruptObject),
            ReadModel::BadFormat => Err(WyagErrorKind::Format),
            ReadModel::BadLength => Err(WyagErrorKind::CorruptObject),
            ReadModel::Unknown => Err(WyagErrorKind::UnknownKind),
            ReadModel::Object(k, body) => if store::body_malformed(k, body) {
                Err(WyagErrorKind::Format)
            } else if k != GitKind::Commit {
                Err(WyagErrorKind::TypeMismatch)
            } else if fuel == 0 {
                Err(WyagErrorKind::Other)
            } else {
                spec_log_parents(
                    m,
                    sha,
                    doc_values(kvlm::spec_kvlm_parse(body).unwrap(), parent_key()),
                    seen.push(sha),
                    (fuel - 1) as nat,
                )
            },
        }
    }
}

/// Walks a commit's parents in order: each contributes the edge from the
/// commit to it, then whatever its own walk emits.
pub open spec fn spec_log_parents(
    m: Map<Seq<u8>, Seq<u8>>,
    src: Seq<u8>,
    ps: Seq<Seq<u8>>,
    seen: Seq<Seq<u8>>,
    fuel: nat,
) -> Result<(Seq<(Seq<u8>, Seq<u8>)>, Seq<Seq<u8>>), WyagErrorKind>
    decreases fuel, 1nat, ps.len(),
{
    if ps.len() == 0 {
        Ok((Seq::empty(), seen))
    } else {
        match digest_of_value(ps[0]) {
            None => Err(WyagErrorKind::Format),
            Some(pd) => match spec_log(m, pd, seen, fuel) {
                Err(k) => Err(k),
                Ok((e1, seen1)) => match spec_log_parents(m, src, ps.drop_first(), seen1, fuel) {
                    Err(k) => Err(k),
                    Ok((e2, seen2)) => Ok((seq![(src, pd)] + e1 + e2, seen2)),
                },
            },
        }
    }
}

/// The digests of a visited list.
pub open spec fn digests_view(s: Seq<Digest>) -> Seq<Seq<u8>> {
    s.map_values(|d: Digest| d@)
}

/// The digest pairs of an edge list.
pub open spec fn edges_view(s: Seq<(Digest, Digest)>) -> Seq<(Seq<u8>, Seq<u8>)> {
    s.map_values(|e: (Digest, Digest)| (e.0@, e.1@))
}

/// Whether the visited list holds this digest.
fn seen_contains(seen: &Vec<Digest>, d: &Digest) -> (r: bool)
    ensures
        r == digests_view(seen@).contains(d@),
{
    let n = seen.len();
    let mut i: usize = 0;
    while i < n
        invariant
            i <= n,
            n == seen@.len(),
            forall|j: int| 0 <= j < i ==> (#[trigger] seen@[j])@ != d@,
        decreases n - i,
    {
        if seen[i] == *d {
            proof {
                assert(digests_view(seen@)[i as int] == d@);
            }
            return true;
        }
        i = i + 1;
    }
    proof {
        if digests_view(seen@).contains(d@) {
            let j = choose|j: int|
                0 <= j < digests_view(seen@).len() && digests_view(seen@)[j] == d@;
            assert(seen@[j]@ == d@);
        }
    }
    false
}

/// Visits one digest of the parent graph, appending fresh edges and visited
/// digests.
fn log_walk(
    st: &ObjectStore,
    sha: &Digest,
    seen: &mut Vec<Digest>,
    edges: &mut Vec<(Digest, Digest)>,
    fuel: usize,
) -> (r: Result<(), WyagError>)
    requires
        st.wf(),
    ensures
        match spec_log(st@, sha@, digests_view(old(seen)@), fuel as nat) {
            Ok((e, s2)) => r is Ok && digests_view(final(seen)@) == s2 && edges_view(
                final(edges)@,
            ) == edges_view(old(edges)@) + e,
            Err(k) => r matches Err(err) && err.kind == k,
        },
    decreases fuel,
{
    if seen_contains(seen, sha) {
        proof {
            assert(edges_view(edges@) + Seq::<(Seq<u8>, Seq<u8>)>::empty() =~= edges_view(
                edges@,
            ));
        }
        return Ok(());
    }
    let obj = match st.read(sha) {
        Ok(o) => o,
        Err(e) => {
            return Err(e);
        },
    };
    let kvlm_doc = match obj {
        GitObject::Commit { kvlm } => kvlm,
        _ => {
            return Err(
                WyagError::with_kind(
                    WyagErrorKind::TypeMismatch,
                    "the log walk reached an object that is no commit",
                ),
            );
        },
    };
    if fuel == 0 {
        return Err(
            WyagError::with_kind(
                WyagErrorKind::Other,
                "the walk went deeper than the store has objects",
            ),
        );
    }
    let ghost seen0 = digests_view(seen@);
    seen.push(sha.clone());
    proof {
        assert(digests_view(seen@) =~= seen0.push(sha@));
    }
    let parents = kvlm::kvlm_get(&kvlm_doc, "parent");
    let ghost body = match store::spec_read(st@, sha@) {
        ReadModel::Object(k, b) => b,
        _ => Seq::empty(),
    };
    let ghost doc = kvlm::doc_bytes(kvlm::kvlm_entries(kvlm_doc));
    proof {
        lemma_walk_keys();
        lemma_doc_lookup(kvlm_doc, "parent"@, parent_key(), parents);
    }
    let vals: &Vec<String> = match parents {
        Some(v) => v,
        None => {
            proof {
                assert(edges_view(edges@) + Seq::<(Seq<u8>, Seq<u8>)>::empty() =~= edges_view(
                    edges@,
                ));
            }
            return Ok(());
        },
    };
    let ghost pvals = vals.deep_view().map_values(|x: Seq<char>| encode_utf8(x));
    let ghost edges0 = edges_view(edges@);
    let n = vals.len();
    let mut i: usize = 0;
    proof {
        assert(pvals.skip(0) =~= pvals);
        assert(edges_view(edges@).subrange(0, edges0.len() as int) =~= edges0);
        assert(spec_log(st@, sha@, seen0, fuel as nat) == spec_log_parents(
            st@,
            sha@,
            pvals,
            seen0.push(sha@),
            (fuel - 1) as nat,
        ));
    }
    while i < n
        invariant
            i <= n,
            n == vals@.len(),
            pvals == vals.deep_view().map_values(|x: Seq<char>| encode_utf8(x)),
            pvals.len() == n,
            st.wf(),
            fuel >= 1,
            seen0 == digests_view(old(seen)@),
            edges0 == edges_view(old(edges)@),
            spec_log(st@, sha@, seen0, fuel as nat) == spec_log_parents(
                st@,
                sha@,
                pvals,
                seen0.push(sha@),
                (fuel - 1) as nat,
            ),
            forall|x: int| 0 <= x < n ==> pvals[x] == encode_utf8((#[trigger] vals@[x])@),
            edges0.len() <= edges_view(edges@).len(),
            edges_view(edges@).subrange(0, edges0.len() as int) == edges0,
            match spec_log_parents(
                st@,
                sha@,
                pvals.skip(i as int),
                digests_view(seen@),
                (fuel - 1) as nat,
            ) {
                Ok((e, s2)) => spec_log_parents(
                    st@,
                    sha@,
                    pvals,
                    seen0.push(sha@),
                    (fuel - 1) as nat,
                ) == Ok::<_, WyagErrorKind>((edges_view(edges@).skip(edges0.len() as int) + e, s2))
                    && edges_view(edges@).subrange(0, edges0.len() as int) == edges0,
                Err(k) => spec_log_parents(
                    st@,
                    sha@,
                    pvals,
                    seen0.push(sha@),
                    (fuel - 1) as nat,
                ) == Err::<(Seq<(Seq<u8>, Seq<u8>)>, Seq<Seq<u8>>), _>(k),
            },
        decreases n - i,
    {
        let ghost f2 = (fuel - 1) as nat;
        let ghost seen_i = digests_view(seen@);
        let ghost edges_i = edges_view(edges@);
        proof {
            assert(pvals.skip(i as int)[0] == pvals[i as int]);
            assert(pvals.skip(i as int).drop_first() =~= pvals.skip(i + 1 as int));
            assert(vals.deep_view()[i as int] == vals@[i as int]@);
        }
        let pv: &String = &vals[i];
        let pd = match Digest::from_hex(pv.as_str().as_bytes()) {
            Some(d) => d,
            None => {
                proof {
                    assert(digest_of_value(pvals[i as int]) is None);
                }
                return Err(
                    WyagError::with_kind(
                        WyagErrorKind::Format,
                        "a parent value is no forty-digit hex digest",
                    ),
                );
            },
        };
        proof {
            assert(digest_of_value(pvals[i as int]) == Some(pd@));
        }
        edges.push((sha.clone(), pd.clone()));
        proof {
            assert(edges_view(edges@) =~= edges_i.push((sha@, pd@)));
            assert(edges_view(edges@).subrange(0, edges0.len() as int) =~= edges_i.subrange(
                0,
                edges0.len() as int,
            ));
        }
        match log_walk(st, &pd, seen, edges, fuel - 1) {
            Ok(()) => {},
            Err(e) => {
                return Err(e);
            },
        }
        proof {
            let pair = (sha@, pd@);
            match spec_log(st@, pd@, seen_i, f2) {
                Ok((e1, s2p)) => {
                    assert(digests_view(seen@) == s2p);
                    assert(edges_view(edges@) == edges_i.push(pair) + e1);
                    assert(edges_view(edges@).subrange(0, edges0.len() as int) =~= edges_i.subrange(
                        0,
                        edges0.len() as int,
                    ));
                    let emitted_new = edges_view(edges@).skip(edges0.len() as int);
                    let emitted_old = edges_i.skip(edges0.len() as int);
                    assert(emitted_new =~= emitted_old + seq![pair] + e1);
                    match spec_log_parents(st@, sha@, pvals.skip(i + 1 as int), s2p, f2) {
                        Ok((e2, s2)) => {
                            assert(spec_log_parents(st@, sha@, pvals.skip(i as int), seen_i, f2)
                                == Ok::<_, WyagErrorKind>((seq![pair] + e1 + e2, s2)));
                            assert(emitted_old + (seq![pair] + e1 + e2) =~= emitted_new + e2);
                        },
                        Err(k) => {
                            assert(spec_log_parents(st@, sha@, pvals.skip(i as int), seen_i, f2)
                                == Err::<(Seq<(Seq<u8>, Seq<u8>)>, Seq<Seq<u8>>), _>(k));
                        },
                    }
                },
                Err(_) => {
                    assert(false);
                },
            }
        }
        i = i + 1;
    }
    proof {
        assert(pvals.skip(n as int) =~= Seq::<Seq<u8>>::empty());
        let emitted = edges_view(edges@).skip(edges0.len() as int);
        assert(edges_view(edges@) =~= edges0 + emitted);
    }
    Ok(())
}

/// The log walk: starting from a commit digest, follows parent links
/// recursively, emitting one edge per parent link met, each commit visited
/// once — shared ancestry and cycles end branches early instead of repeating
/// them. The edge list comes back in pre-order of the traversal.
pub fn log(st: &ObjectStore, start: &Digest) -> (r: Result<Vec<(Digest, Digest)>, WyagError>)
    requires
        st.wf(),
    ensures
        match r {
            Ok(edges) => spec_log(st@, start@, Seq::empty(), st@.dom().len()) matches Ok((e, _))
                && edges_view(edges@) == e,
            Err(err) => spec_log(st@, start@, Seq::empty(), st@.dom().len()) matches Err(k)
                && err.kind == k,
        },
{
    let fuel = st.len();
    let mut seen: Vec<Digest> = Vec::new();
    let mut edges: Vec<(Digest, Digest)> = Vec::new();
    proof {
        assert(digests_view(seen@) =~= Seq::<Seq<u8>>::empty());
        assert(edges_view(edges@) =~= Seq::<(Seq<u8>, Seq<u8>)>::empty());
    }
    match log_walk(st, start, &mut seen, &mut edges, fuel) {
        Ok(()) => {
            proof {
                match spec_log(st@, start@, Seq::empty(), st@.dom().len()) {
                    Ok((e, s2)) => {
                        assert(Seq::<(Seq<u8>, Seq<u8>)>::empty() + e =~= e);
                    },
                    Err(_) => {},
                }
            }
            Ok(edges)
        },
        Err(e) => Err(e),
    }
}

// ---------------------------------------------------------------------------
// Checkout: resolving a commit or tree and laying out the steps that
// materialize it under a destination directory.
// ---------------------------------------------------------------------------
/// One step of materializing a tree: create a directory, or write a file
/// with a blob's bytes.
#[derive(Debug)]
pub enum CheckoutAction {
    MakeDir { path: String },
    WriteFile { path: String, data: Vec<u8> },
}

impl View for CheckoutAction {
    type V = (Seq<char>, Option<Seq<u8>>);

    open spec fn view(&self) -> (Seq<char>, Option<Seq<u8>>) {
        match self {
            CheckoutAction::MakeDir { path } => (path@, None),
            CheckoutAction::WriteFile { path, data } => (path@, Some(data@)),
        }
    }
}

/// The steps of an action list.
pub open spec fn actions_view(s: Seq<CheckoutAction>) -> Seq<(Seq<char>, Option<Seq<u8>>)> {
    s.map_values(|a: CheckoutAction| a@)
}

/// What materializing tree entries under a destination yields: per entry in
/// order, a directory (then its own entries) for a referenced tree, a file
/// write for a referenced blob; any other referenced kind fails the walk.
/// The fuel bounds the nesting depth; a store of n objects never exhausts
/// fuel n on acyclic data, while reference cycles run out and fail.
pub open spec fn spec_checkout_tree(
    m: Map<Seq<u8>, Seq<u8>>,
    entries: Seq<(Seq<u8>, Seq<u8>, Seq<u8>)>,
    dest: Seq<char>,
    fuel: nat,
) -> Result<Seq<(Seq<char>, Option<Seq<u8>>)>, WyagErrorKind>
    decreases fuel, entries.len(),
{
    if entries.len() == 0 {
        Ok(Seq::empty())
    } else {
        let ent = entries[0];
        if !valid_utf8(ent.1) {
            Err(WyagErrorKind::Format)
        } else {
            let sub = dest + seq!['/'] + decode_utf8(ent.1);
            match store::spec_read(m, ent.2) {
                ReadModel::NotFound => Err(WyagErrorKind::NotFound),
                ReadModel::Corrupt => Err(WyagErrorKind::CorruptObject),
                ReadModel::BadFormat => Err(WyagErrorKind::Format),
                ReadModel::BadLength => Err(WyagErrorKind::CorruptObject),
                ReadModel::Unknown => Err(WyagErrorKind::UnknownKind),
                ReadModel::Object(k, body) => if store::body_malformed(k, body) {
                    Err(WyagErrorKind::Format)
                } else {
                    match k {
                        GitKind::Tree => if fuel == 0 {
                            Err(WyagErrorKind::Other)
                        } else {
                            match spec_checkout_tree(
                                m,
                                crate::tree::spec_tree_parse(body).unwrap(),
                                sub,
                                (fuel - 1) as nat,
                            ) {
                                Err(k2) => Err(k2),
                                Ok(a1) => match spec_checkout_tree(
                                    m,
                                    entries.drop_first(),
                                    dest,
                                    fuel,
                                ) {
                                    Err(k2) => Err(k2),
                                    Ok(a2) => Ok(seq![(sub, None::<Seq<u8>>)] + a1 + a2),
                                },
                            }
                        },
                        GitKind::Blob => match spec_checkout_tree(
                            m,
                            entries.drop_first(),
                            dest,
                            fuel,
                        ) {
                            Err(k2) => Err(k2),
                            Ok(a2) => Ok(seq![(sub, Some(body))] + a2),
                        },
                        _ => Err(WyagErrorKind::TypeMismatch),
                    }
                },
            }
        }
    }
}

/// What a checkout of a starting digest yields: the working tree is the
/// start itself when it is a tree, or the tree its commit names; the steps
/// are the destination directory followed by the tree's materialization.
/// Any other starting or named kind is a type mismatch.
pub open spec fn spec_checkout(
    m: Map<Seq<u8>, Seq<u8>>,
    start: Seq<u8>,
    dest: Seq<char>,
    fuel: nat,
) -> Result<Seq<(Seq<char>, Option<Seq<u8>>)>, WyagErrorKind> {
    match store::spec_read(m, start) {
        ReadModel::NotFound => Err(WyagErrorKind::NotFound),
        ReadModel::Corrupt => Err(WyagErrorKind::CorruptObject),
        ReadModel::BadFormat => Err(WyagErrorKind::Format),
        ReadModel::BadLength => Err(WyagErrorKind::CorruptObject),
        ReadModel::Unknown => Err(WyagErrorKind::UnknownKind),
        ReadModel::Object(k, body) => if store::body_malformed(k, body) {
            Err(WyagErrorKind::Format)
        } else {
            match k {
                GitKind::Tree => spec_checkout_into(m, body, dest, fuel),
                GitKind::Commit => {
                    let doc = kvlm::spec_kvlm_parse(body).unwrap();
                    let tv = doc_values(doc, tree_key());
                    if tv.len() == 0 {
                        Err(WyagErrorKind::Format)
                    } else {
                        match digest_of_value(tv[0]) {
                            None => Err(WyagErrorKind::Format),
                            Some(td) => match store::spec_read(m, td) {
                                ReadModel::NotFound => Err(WyagErrorKind::NotFound),
                                ReadModel::Corrupt => Err(WyagErrorKind::CorruptObject),
                                ReadModel::BadFormat => Err(WyagErrorKind::Format),
                                ReadModel::BadLength => Err(WyagErrorKind::CorruptObject),
                                ReadModel::Unknown => Err(WyagErrorKind::UnknownKind),
                                ReadModel::Object(k2, tb) => if store::body_malformed(k2, tb) {
                                    Err(WyagErrorKind::Format)
                                } else if k2 != GitKind::Tree {
                                    Err(WyagErrorKind::TypeMismatch)
                                } else {
                                    spec_checkout_into(m, tb, dest, fuel)
                                },
                            },
                        }
                    }
                },
                _ => Err(WyagErrorKind::TypeMismatch),
            }
        },
    }
}

/// The steps for a resolved working tree: its destination directory, then
/// its entries.
pub open spec fn spec_checkout_into(
    m: Map<Seq<u8>, Seq<u8>>,
    tree_body: Seq<u8>,
    dest: Seq<char>,
    fuel: nat,
) -> Result<Seq<(Seq<char>, Option<Seq<u8>>)>, WyagErrorKind> {
    match spec_checkout_tree(m, crate::tree::spec_tree_parse(tree_body).unwrap(), dest, fuel) {
        Err(k) => Err(k),
        Ok(a) => Ok(seq![(dest, None::<Seq<u8>>)] + a),
    }
}

/// Materializes tree entries under a destination, appending the steps.
fn checkout_tree(
    st: &ObjectStore,
    items: &Vec<crate::tree::GitTreeLeaf>,
    dest: &str,
    out: &mut Vec<CheckoutAction>,
    fuel: usize,
) -> (r: Result<(), WyagError>)
    requires
        st.wf(),
    ensures
        match spec_checkout_tree(st@, crate::tree::leaves_view(items@), dest@, fuel as nat) {
            Ok(a) => r is Ok && actions_view(final(out)@) == actions_view(old(out)@) + a,
            Err(k) => r matches Err(e) && e.kind == k,
        },
    decreases fuel,
{
    let ghost entries = crate::tree::leaves_view(items@);
    let ghost out0 = actions_view(out@);
    let n = items.len();
    let mut i: usize = 0;
    proof {
        assert(entries.skip(0) =~= entries);
        assert(actions_view(out@).subrange(0, out0.len() as int) =~= out0);
    }
    while i < n
        invariant
            i <= n,
            n == items@.len(),
            st.wf(),
            entries == crate::tree::leaves_view(items@),
            entries.len() == n,
            out0.len() <= actions_view(out@).len(),
            actions_view(out@).subrange(0, out0.len() as int) == out0,
            match spec_checkout_tree(st@, entries.skip(i as int), dest@, fuel as nat) {
                Ok(a) => spec_checkout_tree(st@, entries, dest@, fuel as nat) == Ok::<
                    _,
                    WyagErrorKind,
                >((actions_view(out@).skip(out0.len() as int) + a)),
                Err(k) => spec_checkout_tree(st@, entries, dest@, fuel as nat) == Err::<
                    Seq<(Seq<char>, Option<Seq<u8>>)>,
                    _,
                >(k),
            },
        decreases n - i,
    {
        proof {
            assert(entries.skip(i as int)[0] == entries[i as int]);
            assert(entries.skip(i as int).drop_first() =~= entries.skip(i + 1 as int));
            assert(entries[i as int] == items@[i as int]@);
        }
        let leaf = &items[i];
        let name = match crate::bytes_util::string_from_utf8(
            crate::digest::clone_bytes(&leaf.path),
        ) {
            Some(s) => s,
            None => {
                return Err(
                    WyagError::with_kind(
                        WyagErrorKind::Format,
                        "a tree entry's path is no valid text",
                    ),
                );
            },
        };
        let mut sub = dest.to_owned();
        sub.append("/");
        sub.append(name.as_str());
        proof {
            broadcast use vstd::utf8::decode_utf8_encode_utf8;

            reveal_strlit("/");
            assert("/"@ =~= seq!['/']);
            assert(sub@ =~= dest@ + seq!['/'] + decode_utf8(items@[i as int].path@));
        }
        let obj = match st.read(&leaf.sha) {
            Ok(o) => o,
            Err(e) => {
                return Err(e);
            },
        };
        let ghost sub_chars = sub@;
        let ghost out_i = actions_view(out@);
        match obj {
            GitObject::Tree { items: subitems } => {
                if fuel == 0 {
                    return Err(
                        WyagError::with_kind(
                            WyagErrorKind::Other,
                            "the tree walk went deeper than the store has objects",
                        ),
                    );
                }
                out.push(CheckoutAction::MakeDir { path: sub.clone() });
                proof {
                    assert(actions_view(out@) =~= out_i.push((sub_chars, None::<Seq<u8>>)));
                }
                match checkout_tree(st, &subitems, sub.as_str(), out, fuel - 1) {
                    Ok(()) => {},
                    Err(e) => {
                        return Err(e);
                    },
                }
                proof {
                    let ghost body = match store::spec_read(st@, items@[i as int].sha@) {
                        ReadModel::Object(k, b) => b,
                        _ => Seq::empty(),
                    };
                    match spec_checkout_tree(
                        st@,
                        crate::tree::spec_tree_parse(body).unwrap(),
                        sub_chars,
                        (fuel - 1) as nat,
                    ) {
                        Ok(a1) => {
                            assert(actions_view(out@) == out_i.push(
                                (sub_chars, None::<Seq<u8>>),
                            ) + a1);
                            let emitted_new = actions_view(out@).skip(out0.len() as int);
                            let emitted_old = out_i.skip(out0.len() as int);
                            assert(emitted_new =~= emitted_old + seq![
                                (sub_chars, None::<Seq<u8>>),
                            ] + a1);
                            assert(actions_view(out@).subrange(0, out0.len() as int)
                                =~= out_i.subrange(0, out0.len() as int));
                            match spec_checkout_tree(
                                st@,
                                entries.skip(i + 1 as int),
                                dest@,
                                fuel as nat,
                            ) {
                                Ok(a2) => {
                                    assert(spec_checkout_tree(
                                        st@,
                                        entries.skip(i as int),
                                        dest@,
                                        fuel as nat,
                                    ) == Ok::<_, WyagErrorKind>((seq![
                                        (sub_chars, None::<Seq<u8>>),
                                    ] + a1 + a2)));
                                    assert(emitted_old + (seq![(sub_chars, None::<Seq<u8>>)] + a1
                                        + a2) =~= emitted_new + a2);
                                },
                                Err(_) => {},
                            }
                        },
                        Err(_) => {
                            assert(false);
                        },
                    }
                }
            },
            GitObject::Blob { data } => {
                let ghost body = data@;
                out.push(CheckoutAction::WriteFile { path: sub, data });
                proof {
                    assert(actions_view(out@) =~= out_i.push((sub_chars, Some(body))));
                    let emitted_new = actions_view(out@).skip(out0.len() as int);
                    let emitted_old = out_i.skip(out0.len() as int);
                    assert(emitted_new =~= emitted_old + seq![(sub_chars, Some(body))]);
                    assert(actions_view(out@).subrange(0, out0.len() as int) =~= out_i.subrange(
                        0,
                        out0.len() as int,
                    ));
                    match spec_checkout_tree(
                        st@,
                        entries.skip(i + 1 as int),
                        dest@,
                        fuel as nat,
                    ) {
                        Ok(a2) => {
                            assert(spec_checkout_tree(
                                st@,
                                entries.skip(i as int),
                                dest@,
                                fuel as nat,
                            ) == Ok::<_, WyagErrorKind>((seq![(sub_chars, Some(body))] + a2)));
                            assert(emitted_old + (seq![(sub_chars, Some(body))] + a2)
                                =~= emitted_new + a2);
                        },
                        Err(_) => {},
                    }
                }
            },
            _ => {
                return Err(
                    WyagError::with_kind(
                        WyagErrorKind::TypeMismatch,
                        "a tree entry names an object that is neither tree nor blob",
                    ),
                );
            },
        }
        i = i + 1;
    }
    proof {
        assert(entries.skip(n as int) =~= Seq::<(Seq<u8>, Seq<u8>, Seq<u8>)>::empty());
        let emitted = actions_view(out@).skip(out0.len() as int);
        assert(actions_view(out@) =~= out0 + emitted);
    }
    Ok(())
}

/// Checkout: resolves the starting digest — a tree directly, or the tree a
/// commit names under its tree key — and returns, in order, the steps that
/// materialize it: the destination directory first, then per entry a
/// directory and its contents or a file with a blob's bytes. Any other kind
/// met on the way is a type mismatch, and a failing entry aborts the whole
/// walk with no further steps.
pub fn checkout(st: &ObjectStore, start: &Digest, dest: &str) -> (r: Result<
    Vec<CheckoutAction>,
    WyagError,
>)
    requires
        st.wf(),
    ensures
        match r {
            Ok(acts) => spec_checkout(st@, start@, dest@, st@.dom().len()) == Ok::<
                _,
                WyagErrorKind,
            >(actions_view(acts@)),
            Err(err) => spec_checkout(st@, start@, dest@, st@.dom().len()) matches Err(k)
                && err.kind == k,
        },
{
    let fuel = st.len();
    let obj = match st.read(start) {
        Ok(o) => o,
        Err(e) => {
            return Err(e);
        },
    };
    let items: Vec<crate::tree::GitTreeLeaf> = match obj {
        GitObject::Tree { items } => items,
        GitObject::Commit { kvlm } => {
            let tvals_opt = kvlm::kvlm_get(&kvlm, "tree");
            proof {
                lemma_walk_keys();
                lemma_doc_lookup(kvlm, "tree"@, tree_key(), tvals_opt);
            }
            let tvals = match tvals_opt {
                Some(v) => v,
                None => {
                    return Err(
                        WyagError::with_kind(
                            WyagErrorKind::Format,
                            "the commit names no tree to check out",
                        ),
                    );
                },
            };
            if tvals.len() == 0 {
                return Err(
                    WyagError::with_kind(
                        WyagErrorKind::Format,
                        "the commit names no tree to check out",
                    ),
                );
            }
            proof {
                assert(tvals.deep_view()[0] == tvals@[0]@);
            }
            let td = match Digest::from_hex(tvals[0].as_str().as_bytes()) {
                Some(d) => d,
                None => {
                    return Err(
                        WyagError::with_kind(
                            WyagErrorKind::Format,
                            "the commit's tree value is no forty-digit hex digest",
                        ),
                    );
                },
            };
            match st.read(&td) {
                Ok(GitObject::Tree { items }) => items,
                Ok(_) => {
                    return Err(
                        WyagError::with_kind(
                            WyagErrorKind::TypeMismatch,
                            "the commit's tree value names an object that is no tree",
                        ),
                    );
                },
                Err(e) => {
                    return Err(e);
                },
            }
        },
        _ => {
            return Err(
                WyagError::with_kind(
                    WyagErrorKind::TypeMismatch,
                    "checkout starts only from a commit or a tree",
                ),
            );
        },
    };
    let mut out: Vec<CheckoutAction> = Vec::new();
    out.push(CheckoutAction::MakeDir { path: dest.to_owned() });
    proof {
        assert(actions_view(out@) =~= seq![(dest@, None::<Seq<u8>>)]);
    }
    match checkout_tree(st, &items, dest, &mut out, fuel) {
        Ok(()) => {
            proof {
                match spec_checkout_tree(
                    st@,
                    crate::tree::leaves_view(items@),
                    dest@,
                    fuel as nat,
                ) {
                    Ok(a) => {
                        assert(actions_view(out@) =~= seq![(dest@, None::<Seq<u8>>)] + a);
                    },
                    Err(_) => {},
                }
            }
            Ok(out)
        },
        Err(e) => Err(e),
    }
}

} // verus!
