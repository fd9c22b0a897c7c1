//! The object store: digests mapped to compressed framed objects. Reading
//! resolves a digest, decompresses, validates the header and dispatches to
//! the kind's codec; writing serializes, frames, digests and — when asked to
//! persist — compresses and stores. An existing digest is never overwritten.
use vstd::prelude::*;

use crate::digest;
use crate::digest::Digest;
use crate::error::WyagError;
use crate::error::WyagErrorKind;
use crate::frame;
use crate::frame::Header;
use crate::dec::DecParse;
use crate::kvlm;
use crate::object;
use crate::object::GitKind;
use crate::object::GitObject;
use crate::tree;
use crate::zlib;
use crate::zlib::zlib_inflate;

verus! {

/// What decoding a raw (already decompressed) object file yields.
pub enum DecodeModel {
    /// The header is malformed: a delimiter is missing or the length field is
    /// no number.
    BadFormat,
    /// The declared length does not match the body.
    BadLength,
    /// The header names no recognised kind.
    Unknown,
    /// A body of the named kind.
    Object(GitKind, Seq<u8>),
}

/// What a raw object file denotes.
pub open spec fn spec_decode(raw: Seq<u8>) -> DecodeModel {
    match frame::spec_parse_header(raw) {
        None => DecodeModel::BadFormat,
        Some((kb, v, off)) => if v != raw.len() - off {
            DecodeModel::BadLength
        } else {
            match object::spec_kind_of(kb) {
                None => DecodeModel::Unknown,
                Some(k) => DecodeModel::Object(k, raw.subrange(off, raw.len() as int)),
            }
        },
    }
}

/// The object parsed out of a body, when the body fits its kind's grammar:
/// how a deserialized object relates to the bytes it came from.
pub open spec fn parses_from(o: GitObject, body: Seq<u8>) -> bool {
    match o {
        GitObject::Blob { data } => data@ == body,
        GitObject::Tree { items } => tree::spec_tree_parse(body) == Some(
            tree::leaves_view(items@),
        ),
        GitObject::Commit { kvlm } => kvlm::spec_kvlm_parse(body) == Some(
            kvlm::doc_bytes(kvlm::kvlm_entries(kvlm)),
        ) && kvlm::spec_kvlm_decodable(body),
        GitObject::Tag { kvlm } => kvlm::spec_kvlm_parse(body) == Some(
            kvlm::doc_bytes(kvlm::kvlm_entries(kvlm)),
        ) && kvlm::spec_kvlm_decodable(body),
    }
}

/// A body of this kind breaks its grammar.
pub open spec fn body_malformed(k: GitKind, body: Seq<u8>) -> bool {
    match k {
        GitKind::Blob => false,
        GitKind::Tree => tree::spec_tree_parse(body) is None,
        GitKind::Commit => kvlm::spec_kvlm_parse(body) is None || !kvlm::spec_kvlm_decodable(
            body,
        ),
        GitKind::Tag => kvlm::spec_kvlm_parse(body) is None || !kvlm::spec_kvlm_decodable(body),
    }
}

/// Validates a raw object file and dispatches its body to the codec of the
/// kind its header names.
pub fn decode_object(raw: &[u8]) -> (r: Result<GitObject, WyagError>)
    ensures
        match r {
            Ok(o) => {
                &&& o.wf()
                &&& spec_decode(raw@) matches DecodeModel::Object(k, body) && o.spec_kind() == k
                    && parses_from(o, body)
            },
            Err(e) => match spec_decode(raw@) {
                DecodeModel::BadFormat => e.kind == WyagErrorKind::Format,
                DecodeModel::BadLength => e.kind == WyagErrorKind::CorruptObject,
                DecodeModel::Unknown => e.kind == WyagErrorKind::UnknownKind,
                DecodeModel::Object(k, body) => e.kind == WyagErrorKind::Format
                    && body_malformed(k, body),
            },
        },
{
    let n = raw.len();
    let h: Header = match frame::parse_header(raw) {
        Ok(h) => h,
        Err(e) => {
            return Err(e);
        },
    };
    let size_ok: bool = match h.declared {
        DecParse::Val(v) => v == n - h.body_start,
        _ => false,
    };
    if !size_ok {
        return Err(
            WyagError::with_kind(
                WyagErrorKind::CorruptObject,
                "object header declares a length other than its body's",
            ),
        );
    }
    let kind = match object::kind_of(h.kind.as_slice()) {
        Some(k) => k,
        None => {
            return Err(
                WyagError::with_kind(
                    WyagErrorKind::UnknownKind,
                    "object header names no recognised kind",
                ),
            );
        },
    };
    let body = vstd::slice::slice_subrange(raw, h.body_start, n);
    GitObject::deserialize(kind, body)
}

/// What reading a digest out of a store yields.
pub enum ReadModel {
    /// No object is stored under the digest.
    NotFound,
    /// The stored bytes do not decompress.
    Corrupt,
    /// The header is malformed.
    BadFormat,
    /// The declared length does not match the body.
    BadLength,
    /// The header names no recognised kind.
    Unknown,
    /// A body of the named kind.
    Object(GitKind, Seq<u8>),
}

/// What a store holds under a digest, after resolving, decompressing and
/// validating the header.
pub open spec fn spec_read(m: Map<Seq<u8>, Seq<u8>>, d: Seq<u8>) -> ReadModel {
    if !m.contains_key(d) {
        ReadModel::NotFound
    } else {
        match zlib_inflate(m[d]) {
            None => ReadModel::Corrupt,
            Some(raw) => match spec_decode(raw) {
                DecodeModel::BadFormat => ReadModel::BadFormat,
                DecodeModel::BadLength => ReadModel::BadLength,
                DecodeModel::Unknown => ReadModel::Unknown,
                DecodeModel::Object(k, b) => ReadModel::Object(k, b),
            },
        }
    }
}

/// The error class read reports for each failing outcome; reading succeeds
/// exactly when the outcome is a body that fits its kind's grammar.
pub open spec fn read_err_kind(model: ReadModel, e: WyagError) -> bool {
    match model {
        ReadModel::NotFound => e.kind == WyagErrorKind::NotFound,
        ReadModel::Corrupt => e.kind == WyagErrorKind::CorruptObject,
        ReadModel::BadFormat => e.kind == WyagErrorKind::Format,
        ReadModel::BadLength => e.kind == WyagErrorKind::CorruptObject,
        ReadModel::Unknown => e.kind == WyagErrorKind::UnknownKind,
        ReadModel::Object(k, body) => e.kind == WyagErrorKind::Format && body_malformed(k, body),
    }
}

/// The map a sequence of store entries denotes.
pub open spec fn entries_map(s: Seq<(Digest, Vec<u8>)>) -> Map<Seq<u8>, Seq<u8>>
    decreases s.len(),
{
    if s.len() == 0 {
        Map::empty()
    } else {
        entries_map(s.drop_last()).insert(s.last().0@, s.last().1@)
    }
}

/// A key is in the map exactly when some entry carries it.
pub proof fn lemma_entries_map_contains(s: Seq<(Digest, Vec<u8>)>, k: Seq<u8>)
    ensures
        entries_map(s).contains_key(k) <==> exists|i: int|
            0 <= i < s.len() && (#[trigger] s[i]).0@ == k,
    decreases s.len(),
{
    if s.len() == 0 {
    } else {
        lemma_entries_map_contains(s.drop_last(), k);
        if s.last().0@ == k {
            assert(s[s.len() - 1].0@ == k);
        } else {
            if entries_map(s).contains_key(k) {
                let i = choose|i: int| 0 <= i < s.drop_last().len() && (#[trigger] s.drop_last()[i]).0@ == k;
                assert(s[i].0@ == k);
            }
            if exists|i: int| 0 <= i < s.len() && (#[trigger] s[i]).0@ == k {
                let i = choose|i: int| 0 <= i < s.len() && (#[trigger] s[i]).0@ == k;
                assert(i < s.len() - 1);
                assert(s.drop_last()[i].0@ == k);
            }
        }
    }
}

/// Under distinct keys, the entry at `i` is what the map holds for its key.
pub proof fn lemma_entries_map_index(s: Seq<(Digest, Vec<u8>)>, i: int)
    requires
        forall|a: int, b: int| 0 <= a < b < s.len() ==> (#[trigger] s[a]).0@ != (#[trigger] s[b]).0@,
        0 <= i < s.len(),
    ensures
        entries_map(s).contains_key(s[i].0@),
        entries_map(s)[s[i].0@] == s[i].1@,
    decreases s.len(),
{
    if i == s.len() - 1 {
    } else {
        assert(forall|a: int, b: int|
            0 <= a < b < s.drop_last().len() ==> (#[trigger] s.drop_last()[a]).0@ != (
            #[trigger] s.drop_last()[b]).0@);
        lemma_entries_map_index(s.drop_last(), i);
        assert(s.drop_last()[i] == s[i]);
        assert(s[i].0@ != s[s.len() - 1].0@);
    }
}

/// The in-memory object store: each digest mapped to the compressed bytes of
/// its framed object.
pub struct ObjectStore {
    entries: Vec<(Digest, Vec<u8>)>,
}

impl View for ObjectStore {
    type V = Map<Seq<u8>, Seq<u8>>;

    closed spec fn view(&self) -> Map<Seq<u8>, Seq<u8>> {
        entries_map(self.entries@)
    }
}

impl ObjectStore {
    /// Every entry holds a twenty-byte digest and no digest repeats.
    pub closed spec fn wf(&self) -> bool {
        &&& forall|i: int| 0 <= i < self.entries@.len() ==> (#[trigger] self.entries@[i]).0.wf()
        &&& forall|a: int, b: int|
            0 <= a < b < self.entries@.len() ==> (#[trigger] self.entries@[a]).0@ != (
            #[trigger] self.entries@[b]).0@
    }

    /// An empty store.
    pub fn new() -> (r: ObjectStore)
        ensures
            r.wf(),
            r@ == Map::<Seq<u8>, Seq<u8>>::empty(),
    {
        let r = ObjectStore { entries: Vec::new() };
        proof {
            assert(r.entries@.len() == 0);
        }
        r
    }

    /// The count of stored objects.
    pub fn len(&self) -> (r: usize)
        requires
            self.wf(),
        ensures
            r == self@.dom().len(),
    {
        proof {
            lemma_entries_map_len(self.entries@);
        }
        self.entries.len()
    }

    /// The raw stored bytes under a digest, when the store holds it.
    pub fn get_raw<'a>(&'a self, d: &Digest) -> (r: Option<&'a Vec<u8>>)
        requires
            self.wf(),
        ensures
            match r {
                Some(v) => self@.contains_key(d@) && v@ == self@[d@],
                None => !self@.contains_key(d@),
            },
    {
        let n = self.entries.len();
        let mut i: usize = 0;
        while i < n
            invariant
                i <= n,
                n == self.entries@.len(),
                self.wf(),
                forall|j: int| 0 <= j < i ==> (#[trigger] self.entries@[j]).0@ != d@,
            decreases n - i,
        {
            if self.entries[i].0 == *d {
                proof {
                    lemma_entries_map_index(self.entries@, i as int);
                }
                return Some(&self.entries[i].1);
            }
            i = i + 1;
        }
        proof {
            lemma_entries_map_contains(self.entries@, d@);
        }
        None
    }

    /// Stores raw bytes under a digest. A digest the store already holds is
    /// left untouched: existing objects are immutable.
    pub fn put_raw(&mut self, d: Digest, bytes: Vec<u8>)
        requires
            old(self).wf(),
            d.wf(),
        ensures
            final(self).wf(),
            final(self)@ == (if old(self)@.contains_key(d@) {
                old(self)@
            } else {
                old(self)@.insert(d@, bytes@)
            }),
            final(self)@.contains_key(d@),
            old(self)@.contains_key(d@) ==> final(self)@[d@] == old(self)@[d@],
            !old(self)@.contains_key(d@) ==> final(self)@[d@] == bytes@,
    {
        let n = self.entries.len();
        let mut i: usize = 0;
        while i < n
            invariant
                i <= n,
                n == self.entries@.len(),
                self.wf(),
                forall|j: int| 0 <= j < i ==> (#[trigger] self.entries@[j]).0@ != d@,
            decreases n - i,
        {
            if self.entries[i].0 == d {
                proof {
                    lemma_entries_map_contains(self.entries@, d@);
                }
                return ;
            }
            i = i + 1;
        }
        proof {
            lemma_entries_map_contains(self.entries@, d@);
        }
        let ghost pre = self.entries@;
        self.entries.push((d, bytes));
        proof {
            assert(self.entries@.drop_last() =~= pre);
            assert(forall|j: int| 0 <= j < pre.len() ==> self.entries@[j] == pre[j]);
        }
    }

    /// Reads the object stored under a digest: resolve, decompress, validate
    /// the header and declared length, dispatch the body to its kind's codec.
    pub fn read(&self, d: &Digest) -> (r: Result<GitObject, WyagError>)
        requires
            self.wf(),
        ensures
            match r {
                Ok(o) => {
                    &&& o.wf()
                    &&& spec_read(self@, d@) matches ReadModel::Object(k, body)
                        && o.spec_kind() == k && parses_from(o, body)
                },
                Err(e) => read_err_kind(spec_read(self@, d@), e),
            },
    {
        let stored = match self.get_raw(d) {
            Some(v) => v,
            None => {
                return Err(
                    WyagError::with_kind(
                        WyagErrorKind::NotFound,
                        "the store holds no object under this digest",
                    ),
                );
            },
        };
        let raw = match zlib::decompress(stored.as_slice()) {
            Some(v) => v,
            None => {
                return Err(
                    WyagError::with_kind(
                        WyagErrorKind::CorruptObject,
                        "stored object bytes do not decompress",
                    ),
                );
            },
        };
        decode_object(raw.as_slice())
    }

    /// Serializes an object, frames it and computes its digest; when asked to
    /// persist, also compresses the framed bytes and stores them under that
    /// digest. The digest comes back either way, so a caller can learn an
    /// object's address without storing it.
    pub fn write(&mut self, obj: &GitObject, persist: bool) -> (r: Digest)
        requires
            old(self).wf(),
            obj.wf(),
        ensures
            ({
                let framed = frame::spec_frame(
                    object::spec_kind_bytes(obj.spec_kind()),
                    obj.spec_body(),
                );
                &&& final(self).wf()
                &&& r.wf()
                &&& r@ == digest::sha1_of(framed)
                &&& !persist ==> final(self)@ == old(self)@
                &&& persist ==> {
                    &&& final(self)@.contains_key(r@)
                    &&& old(self)@.contains_key(r@) ==> final(self)@ == old(self)@
                    &&& !old(self)@.contains_key(r@) ==> final(self)@ == old(self)@.insert(
                        r@,
                        final(self)@[r@],
                    ) && zlib_inflate(final(self)@[r@]) == Some(framed)
                }
            }),
    {
        let body = obj.serialize();
        let kb = object::kind_bytes(obj.kind());
        let framed = frame::frame(kb.as_slice(), body.as_slice());
        let dg = digest::digest(framed.as_slice());
        if persist {
            let compressed = zlib::compress(framed.as_slice());
            self.put_raw(dg.clone(), compressed);
        }
        dg
    }
}

/// A store built of distinct entries has as many objects as entries.
pub proof fn lemma_entries_map_len(s: Seq<(Digest, Vec<u8>)>)
    requires
        forall|a: int, b: int| 0 <= a < b < s.len() ==> (#[trigger] s[a]).0@ != (#[trigger] s[b]).0@,
    ensures
        entries_map(s).dom().finite(),
        entries_map(s).dom().len() == s.len(),
    decreases s.len(),
{
    if s.len() > 0 {
        assert(forall|a: int, b: int|
            0 <= a < b < s.drop_last().len() ==> (#[trigger] s.drop_last()[a]).0@ != (
            #[trigger] s.drop_last()[b]).0@);
        lemma_entries_map_len(s.drop_last());
        lemma_entries_map_contains(s.drop_last(), s.last().0@);
        assert(!entries_map(s.drop_last()).contains_key(s.last().0@)) by {
            if entries_map(s.drop_last()).contains_key(s.last().0@) {
                let i = choose|i: int|
                    0 <= i < s.drop_last().len() && (#[trigger] s.drop_last()[i]).0@
                        == s.last().0@;
                assert(s[i].0@ == s[s.len() - 1].0@);
            }
        }
        vstd::set::axiom_set_insert_len(entries_map(s.drop_last()).dom(), s.last().0@);
        assert(entries_map(s).dom() =~= entries_map(s.drop_last()).dom().insert(s.last().0@));
    }
}

/// The write/read consistency law: a well-formed object written into any
/// store is read back from its digest as an object with the same kind and the
/// same structure — the stored bytes decompress to the framed body, the
/// header names the object's kind and exact length, and the body parses back
/// to the structure that was written.
pub proof fn lemma_write_read_consistent(m: Map<Seq<u8>, Seq<u8>>, o: GitObject, c: Seq<u8>)
    requires
        o.round_trips(),
        zlib_inflate(c) == Some(
            frame::spec_frame(object::spec_kind_bytes(o.spec_kind()), o.spec_body()),
        ),
    ensures
        ({
            let framed = frame::spec_frame(object::spec_kind_bytes(o.spec_kind()), o.spec_body());
            let d = digest::sha1_of(framed);
            let m2 = m.insert(d, c);
            &&& m2.contains_key(d)
            &&& zlib_inflate(m2[d]) == Some(framed)
            &&& spec_decode(framed) == DecodeModel::Object(o.spec_kind(), o.spec_body())
            &&& !body_malformed(o.spec_kind(), o.spec_body())
            &&& match o {
                GitObject::Blob { data } => data@ == o.spec_body(),
                GitObject::Tree { items } => tree::spec_tree_parse(o.spec_body()) == Some(
                    tree::leaves_view(items@),
                ),
                GitObject::Commit { kvlm } => kvlm::spec_kvlm_parse(o.spec_body()) == Some(
                    kvlm::doc_bytes(kvlm::kvlm_entries(kvlm)),
                ),
                GitObject::Tag { kvlm } => kvlm::spec_kvlm_parse(o.spec_body()) == Some(
                    kvlm::doc_bytes(kvlm::kvlm_entries(kvlm)),
                ),
            }
        }),
{
    let kindb = object::spec_kind_bytes(o.spec_kind());
    let body = o.spec_body();
    let framed = frame::spec_frame(kindb, body);
    let d = digest::sha1_of(framed);
    let m2 = m.insert(d, c);
    object::lemma_kind_bytes(o.spec_kind());
    frame::lemma_frame_header(kindb, body);
    let digits = crate::dec::spec_dec_digits(body.len());
    let off = kindb.len() + 1 + digits.len() + 1 as int;
    assert(frame::spec_parse_header(framed) == Some((kindb, body.len() as nat, off)));
    assert(framed.subrange(off, framed.len() as int) == body);
    assert(body.len() == framed.len() - off);
    assert(spec_decode(framed) == DecodeModel::Object(o.spec_kind(), body));
    object::lemma_object_round_trip(o);
}


/// The body an object re-serializes to after being read: the same bytes for
/// a blob, the re-encoded entries for a tree, the re-serialized document for
/// a commit or tag; nothing when the body breaks its kind's grammar.
pub open spec fn spec_reser(k: GitKind, body: Seq<u8>) -> Option<Seq<u8>> {
    if body_malformed(k, body) {
        None
    } else {
        match k {
            GitKind::Blob => Some(body),
            GitKind::Tree => Some(tree::spec_tree_serialize(tree::spec_tree_parse(body).unwrap())),
            GitKind::Commit => Some(
                kvlm::spec_kvlm_serialize(kvlm::spec_kvlm_parse(body).unwrap()),
            ),
            GitKind::Tag => Some(kvlm::spec_kvlm_serialize(kvlm::spec_kvlm_parse(body).unwrap())),
        }
    }
}

/// Reads the object under a digest and renders its re-serialized body as
/// text, for display.
pub fn cat_file(st: &ObjectStore, d: &Digest) -> (r: Result<String, WyagError>)
    requires
        st.wf(),
    ensures
        match r {
            Ok(s) => {
                &&& spec_read(st@, d@) matches ReadModel::Object(k, body)
                &&& spec_reser(k, body) matches Some(rb)
                &&& vstd::utf8::valid_utf8(rb)
                &&& s@ == vstd::utf8::decode_utf8(rb)
            },
            Err(e) => match spec_read(st@, d@) {
                ReadModel::Object(k, body) => e.kind == WyagErrorKind::Format && (
                body_malformed(k, body) || !vstd::utf8::valid_utf8(spec_reser(k, body).unwrap())),
                model => read_err_kind(model, e),
            },
        },
{
    let obj = match st.read(d) {
        Ok(o) => o,
        Err(e) => {
            return Err(e);
        },
    };
    let body = obj.serialize();
    match crate::bytes_util::string_from_utf8(body) {
        Some(s) => Ok(s),
        None => Err(
            WyagError::with_kind(
                WyagErrorKind::Format,
                "the object's content is no valid text",
            ),
        ),
    }
}

/// Builds an object of the named kind out of raw content and computes its
/// address; when asked to persist, also stores it. The original content is
/// validated against the kind's grammar first.
pub fn hash_object(st: &mut ObjectStore, kind: GitKind, data: &[u8], persist: bool) -> (r: Result<
    Digest,
    WyagError,
>)
    requires
        old(st).wf(),
    ensures
        final(st).wf(),
        match r {
            Ok(d) => {
                let framed = frame::spec_frame(
                    object::spec_kind_bytes(kind),
                    spec_reser(kind, data@).unwrap(),
                );
                &&& !body_malformed(kind, data@)
                &&& d.wf()
                &&& d@ == digest::sha1_of(framed)
                &&& !persist ==> final(st)@ == old(st)@
                &&& persist ==> {
                    &&& final(st)@.contains_key(d@)
                    &&& old(st)@.contains_key(d@) ==> final(st)@ == old(st)@
                    &&& !old(st)@.contains_key(d@) ==> final(st)@ == old(st)@.insert(
                        d@,
                        final(st)@[d@],
                    ) && zlib_inflate(final(st)@[d@]) == Some(framed)
                }
            },
            Err(e) => body_malformed(kind, data@) && e.kind == WyagErrorKind::Format
                && final(st)@ == old(st)@,
        },
{
    let obj = match GitObject::deserialize(kind, data) {
        Ok(o) => o,
        Err(e) => {
            return Err(e);
        },
    };
    let d = st.write(&obj, persist);
    Ok(d)
}

/// The stored-form round-trip law: a framed buffer whose header is canonical
/// (no leading zero in its length field) and whose body fits its kind
/// re-frames, after a parse and re-serialization, to exactly the original
/// buffer. For a commit or tag the body must also carry its blank line and
/// keep each key's occurrences together: a body with a key's occurrences
/// interleaved between other keys re-groups them, so only its parsed
/// document — not its raw bytes — is preserved.
pub proof fn lemma_framed_round_trip(b: Seq<u8>)
    requires
        spec_decode(b) matches DecodeModel::Object(k, body) && !body_malformed(k, body) && ((k
            == GitKind::Blob || k == GitKind::Tree) || kvlm_body_canonical(body)),
        ({
            let sp = crate::bytes_util::spec_find_byte(b, 0, 32u8).unwrap();
            let (kb, v, off) = frame::spec_parse_header(b).unwrap();
            off - 1 - (sp + 1) > 1 ==> b[sp + 1] != 48u8
        }),
    ensures
        ({
            let r = match spec_decode(b) {
                DecodeModel::Object(k, body) => frame::spec_frame(
                    object::spec_kind_bytes(k),
                    spec_reser(k, body).unwrap(),
                ),
                _ => Seq::empty(),
            };
            r == b
        }),
{
    let (kb, v, off) = frame::spec_parse_header(b).unwrap();
    let body = b.subrange(off, b.len() as int);
    frame::lemma_header_canonical(b);
    match spec_decode(b) {
        DecodeModel::Object(k, bd) => {
            assert(bd == body);
            assert(object::spec_kind_of(kb) == Some(k));
            object::lemma_kind_bytes(k);
            assert(object::spec_kind_bytes(k) == kb) by {
                match k {
                    GitKind::Blob => {},
                    GitKind::Tree => {},
                    GitKind::Commit => {},
                    GitKind::Tag => {},
                }
            }
            match k {
                GitKind::Blob => {},
                GitKind::Tree => {
                    tree::lemma_tree_canonical(body);
                },
                _ => {
                    kvlm::lemma_kvlm_canonical(body);
                },
            }
        },
        _ => {},
    }
}

/// A commit or tag body in the canonical stored shape: it ends its fields
/// with the blank line and keeps each key's occurrences together.
pub open spec fn kvlm_body_canonical(body: Seq<u8>) -> bool {
    kvlm::spec_parse_lines(body) matches Some((lines, msg)) && msg is Some
        && kvlm::spec_lines_of(kvlm::spec_group(lines)) == lines
}

} // verus!
