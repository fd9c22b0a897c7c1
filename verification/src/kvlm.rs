//! The key-value-list-with-message format of commit and tag bodies: field
//! lines `key SP value NL` with continuation lines for embedded newlines, one
//! blank line, then the message verbatim. The document is an ordered map from
//! key to the values seen for it, keys in first-seen order; the message is
//! stored under the empty key, always last.
use vstd::prelude::*;

use linked_hash_map::LinkedHashMap;
use vstd::utf8::encode_utf8;
use vstd::utf8::valid_utf8;

use crate::bytes_util;
use crate::bytes_util::spec_find_byte;
use crate::error::WyagError;
use crate::error::WyagErrorKind;

verus! {

/// The outside ordered map that holds a parsed document.
#[verifier::external_type_specification]
#[verifier::external_body]
#[verifier::reject_recursive_types(K)]
#[verifier::reject_recursive_types(V)]
#[verifier::reject_recursive_types(S)]
pub struct ExLinkedHashMap<K, V, S>(LinkedHashMap<K, V, S>);

/// What a document map holds: its `(key, values)` entries in insertion
/// order, keys first-seen first.
pub uninterp spec fn kvlm_entries(m: LinkedHashMap<String, Vec<String>>) -> Seq<
    (Seq<char>, Seq<Seq<char>>),
>;

/// A document map is well formed when no key repeats among its entries.
pub open spec fn kvlm_map_wf(m: LinkedHashMap<String, Vec<String>>) -> bool {
    forall|i: int, j: int|
        0 <= i < j < kvlm_entries(m).len() ==> kvlm_entries(m)[i].0 != kvlm_entries(m)[j].0
}

/// Relies on LinkedHashMap::new: a fresh map holds no entries.
#[verifier::external_body]
pub(crate) fn lhm_new() -> (r: LinkedHashMap<String, Vec<String>>)
    ensures
        kvlm_entries(r) == Seq::<(Seq<char>, Seq<Seq<char>>)>::empty(),
{
    LinkedHashMap::new()
}

/// Relies on LinkedHashMap::len: the count of entries.
#[verifier::external_body]
pub(crate) fn lhm_len(m: &LinkedHashMap<String, Vec<String>>) -> (r: usize)
    ensures
        r == kvlm_entries(*m).len(),
{
    m.len()
}

/// Relies on LinkedHashMap::insert: a key not yet present is appended at the
/// end of the insertion order, holding the given values.
#[verifier::external_body]
pub(crate) fn lhm_insert_fresh(m: &mut LinkedHashMap<String, Vec<String>>, k: String, v: Vec<String>)
    requires
        forall|i: int|
            0 <= i < kvlm_entries(*old(m)).len() ==> (#[trigger] kvlm_entries(*old(m))[i]).0
                != k@,
    ensures
        kvlm_entries(*final(m)) == kvlm_entries(*old(m)).push((k@, v.deep_view())),
{
    m.insert(k, v);
}

/// Relies on LinkedHashMap::get: the values stored under a key, when some
/// entry carries that key.
#[verifier::external_body]
pub(crate) fn lhm_get<'a>(m: &'a LinkedHashMap<String, Vec<String>>, k: &str) -> (r: Option<
    &'a Vec<String>,
>)
    ensures
        match r {
            Some(v) => exists|i: int|
                0 <= i < kvlm_entries(*m).len() && (#[trigger] kvlm_entries(*m)[i]).0 == k@
                    && v.deep_view() == kvlm_entries(*m)[i].1,
            None => forall|i: int|
                0 <= i < kvlm_entries(*m).len() ==> (#[trigger] kvlm_entries(*m)[i]).0 != k@,
        },
{
    m.get(k)
}

/// Relies on LinkedHashMap::iter (insertion order) stepped to position `i`:
/// the entry at that position of the order.
#[verifier::external_body]
pub(crate) fn lhm_entry_at<'a>(m: &'a LinkedHashMap<String, Vec<String>>, i: usize) -> (r: (
    &'a String,
    &'a Vec<String>,
))
    requires
        i < kvlm_entries(*m).len(),
    ensures
        r.0@ == kvlm_entries(*m)[i as int].0,
        r.1.deep_view() == kvlm_entries(*m)[i as int].1,
{
    let (k, v) = m.iter().nth(i).expect("the position lies within the map");
    (k, v)
}

// ---------------------------------------------------------------------------
// Continuation-line escaping: in the stored form every newline embedded in a
// value is followed by one space, stripped on parse and restored on
// serialize.
// ---------------------------------------------------------------------------
/// The stored form of a value: each newline followed by an inserted space.
pub open spec fn spec_escape(v: Seq<u8>) -> Seq<u8>
    decreases v.len(),
{
    if v.len() == 0 {
        Seq::empty()
    } else if v[0] == 10u8 {
        seq![10u8, 32u8] + spec_escape(v.drop_first())
    } else {
        seq![v[0]] + spec_escape(v.drop_first())
    }
}

/// The logical value of a stored run: the space after each newline dropped.
pub open spec fn spec_unescape(s: Seq<u8>) -> Seq<u8>
    decreases s.len(),
{
    if s.len() == 0 {
        Seq::empty()
    } else if s[0] == 10u8 && s.len() >= 2 && s[1] == 32u8 {
        seq![10u8] + spec_unescape(s.subrange(2, s.len() as int))
    } else {
        seq![s[0]] + spec_unescape(s.drop_first())
    }
}

/// A stored run in which every newline is followed by a space (so none is
/// last): the shape escaping always produces.
pub open spec fn esc_wf(s: Seq<u8>) -> bool {
    forall|i: int| 0 <= i < s.len() && #[trigger] s[i] == 10u8 ==> i + 1 < s.len() && s[i + 1]
        == 32u8
}

/// Escaping always yields a run whose newlines all carry their space.
pub proof fn lemma_escape_wf(v: Seq<u8>)
    ensures
        esc_wf(spec_escape(v)),
    decreases v.len(),
{
    if v.len() > 0 {
        lemma_escape_wf(v.drop_first());
        let e = spec_escape(v);
        let rest = spec_escape(v.drop_first());
        if v[0] == 10u8 {
            assert(forall|i: int| 2 <= i < e.len() ==> e[i] == rest[i - 2]);
            assert forall|i: int| 0 <= i < e.len() && #[trigger] e[i] == 10u8 implies i + 1 < e.len() && e[i
                + 1] == 32u8 by {
                if i >= 2 {
                    assert(rest[i - 2] == 10u8);
                }
            }
        } else {
            assert(forall|i: int| 1 <= i < e.len() ==> e[i] == rest[i - 1]);
            assert forall|i: int| 0 <= i < e.len() && #[trigger] e[i] == 10u8 implies i + 1 < e.len() && e[i
                + 1] == 32u8 by {
                assert(i >= 1);
                assert(rest[i - 1] == 10u8);
            }
        }
    }
}

/// Un-escaping a freshly escaped value gives the value back.
pub proof fn lemma_unescape_escape(v: Seq<u8>)
    ensures
        spec_unescape(spec_escape(v)) == v,
    decreases v.len(),
{
    if v.len() == 0 {
        assert(spec_unescape(spec_escape(v)) =~= v);
    } else {
        lemma_unescape_escape(v.drop_first());
        let e = spec_escape(v);
        let rest = spec_escape(v.drop_first());
        if v[0] == 10u8 {
            assert(e == seq![10u8, 32u8] + rest);
            assert(e[0] == 10u8 && e.len() >= 2 && e[1] == 32u8);
            assert(e.subrange(2, e.len() as int) =~= rest);
            assert(spec_unescape(e) == seq![10u8] + spec_unescape(rest));
            assert(seq![10u8] + v.drop_first() =~= v);
        } else {
            assert(e == seq![v[0]] + rest);
            assert(e[0] == v[0]);
            if e.len() >= 2 && e[0] == 10u8 && e[1] == 32u8 {
                assert(false);
            }
            assert(e.drop_first() =~= rest);
            assert(spec_unescape(e) == seq![v[0]] + spec_unescape(rest));
            assert(seq![v[0]] + v.drop_first() =~= v);
        }
    }
}

/// Re-escaping the logical value of a well-shaped stored run restores the
/// run byte for byte.
pub proof fn lemma_escape_unescape(s: Seq<u8>)
    requires
        esc_wf(s),
    ensures
        spec_escape(spec_unescape(s)) == s,
    decreases s.len(),
{
    if s.len() == 0 {
        assert(spec_escape(spec_unescape(s)) =~= s);
    } else if s[0] == 10u8 {
        assert(s.len() >= 2 && s[1] == 32u8);
        let tail = s.subrange(2, s.len() as int);
        assert(esc_wf(tail)) by {
            assert(forall|i: int| 0 <= i < tail.len() ==> tail[i] == s[i + 2]);
            assert forall|i: int| 0 <= i < tail.len() && #[trigger] tail[i] == 10u8 implies i + 1 < tail.len()
                && tail[i + 1] == 32u8 by {
                assert(s[i + 2] == 10u8);
                assert(i + 3 < s.len() && s[i + 3] == 32u8);
            }
        }
        lemma_escape_unescape(tail);
        let u = spec_unescape(s);
        assert(u == seq![10u8] + spec_unescape(tail));
        assert(u[0] == 10u8);
        assert(u.drop_first() =~= spec_unescape(tail));
        assert(spec_escape(u) == seq![10u8, 32u8] + spec_escape(spec_unescape(tail)));
        assert(seq![10u8, 32u8] + tail =~= s);
    } else {
        let tail = s.drop_first();
        assert(esc_wf(tail)) by {
            assert(forall|i: int| 0 <= i < tail.len() ==> tail[i] == s[i + 1]);
            assert forall|i: int| 0 <= i < tail.len() && #[trigger] tail[i] == 10u8 implies i + 1 < tail.len()
                && tail[i + 1] == 32u8 by {
                assert(s[i + 1] == 10u8);
                assert(i + 2 < s.len() && s[i + 2] == 32u8);
            }
        }
        lemma_escape_unescape(tail);
        let u = spec_unescape(s);
        assert(u == seq![s[0]] + spec_unescape(tail));
        assert(u[0] == s[0]);
        if u.len() >= 2 && u[0] == 10u8 && u[1] == 32u8 {
            assert(false);
        }
        assert(u.drop_first() =~= spec_unescape(tail));
        assert(spec_escape(u) == seq![s[0]] + spec_escape(spec_unescape(tail)));
        assert(seq![s[0]] + tail =~= s);
    }
}

/// Writes the stored form of a value: a space inserted after each newline.
pub fn escape(v: &[u8]) -> (r: Vec<u8>)
    ensures
        r@ == spec_escape(v@),
{
    let n = v.len();
    let mut r: Vec<u8> = Vec::new();
    let mut i: usize = 0;
    proof {
        assert(v@.subrange(0, n as int) =~= v@);
        assert(r@ + spec_escape(v@) =~= spec_escape(v@));
    }
    while i < n
        invariant
            i <= n,
            n == v@.len(),
            spec_escape(v@) == r@ + spec_escape(v@.subrange(i as int, n as int)),
        decreases n - i,
    {
        proof {
            let suf = v@.subrange(i as int, n as int);
            assert(suf[0] == v@[i as int]);
            assert(suf.drop_first() =~= v@.subrange(i + 1 as int, n as int));
        }
        if v[i] == 10u8 {
            r.push(10u8);
            r.push(32u8);
            proof {
                let suf = v@.subrange(i as int, n as int);
                assert(spec_escape(suf) == seq![10u8, 32u8] + spec_escape(
                    v@.subrange(i + 1 as int, n as int),
                ));
                assert(spec_escape(v@) =~= r@ + spec_escape(v@.subrange(i + 1 as int, n as int)));
            }
        } else {
            r.push(v[i]);
            proof {
                let suf = v@.subrange(i as int, n as int);
                assert(spec_escape(suf) == seq![v@[i as int]] + spec_escape(
                    v@.subrange(i + 1 as int, n as int),
                ));
                assert(spec_escape(v@) =~= r@ + spec_escape(v@.subrange(i + 1 as int, n as int)));
            }
        }
        i = i + 1;
    }
    proof {
        assert(v@.subrange(n as int, n as int) =~= Seq::<u8>::empty());
        assert(spec_escape(v@) =~= r@);
    }
    r
}

/// Reads the logical value out of a stored run: the space after each newline
/// dropped.
pub fn unescape(s: &[u8]) -> (r: Vec<u8>)
    ensures
        r@ == spec_unescape(s@),
{
    let n = s.len();
    let mut r: Vec<u8> = Vec::new();
    let mut i: usize = 0;
    proof {
        assert(s@.subrange(0, n as int) =~= s@);
        assert(r@ + spec_unescape(s@) =~= spec_unescape(s@));
    }
    while i < n
        invariant
            i <= n,
            n == s@.len(),
            spec_unescape(s@) == r@ + spec_unescape(s@.subrange(i as int, n as int)),
        decreases n - i,
    {
        proof {
            let suf = s@.subrange(i as int, n as int);
            assert(suf[0] == s@[i as int]);
            if suf.len() >= 2 {
                assert(suf[1] == s@[i + 1]);
            }
            assert(suf.drop_first() =~= s@.subrange(i + 1 as int, n as int));
        }
        if s[i] == 10u8 && i + 1 < n && s[i + 1] == 32u8 {
            r.push(10u8);
            proof {
                let suf = s@.subrange(i as int, n as int);
                assert(suf.subrange(2, suf.len() as int) =~= s@.subrange(i + 2 as int, n as int));
                assert(spec_unescape(suf) == seq![10u8] + spec_unescape(
                    s@.subrange(i + 2 as int, n as int),
                ));
                assert(spec_unescape(s@) =~= r@ + spec_unescape(
                    s@.subrange(i + 2 as int, n as int),
                ));
            }
            i = i + 2;
        } else {
            r.push(s[i]);
            proof {
                let suf = s@.subrange(i as int, n as int);
                assert(spec_unescape(suf) == seq![s@[i as int]] + spec_unescape(
                    s@.subrange(i + 1 as int, n as int),
                ));
                assert(spec_unescape(s@) =~= r@ + spec_unescape(
                    s@.subrange(i + 1 as int, n as int),
                ));
            }
            i = i + 1;
        }
    }
    proof {
        assert(s@.subrange(n as int, n as int) =~= Seq::<u8>::empty());
        assert(spec_unescape(s@) =~= r@);
    }
    r
}

// ---------------------------------------------------------------------------
// The line grammar over the body bytes.
// ---------------------------------------------------------------------------
/// The end of a value run starting at or after `from`: the first newline not
/// followed by a continuation space.
pub open spec fn spec_value_end(s: Seq<u8>, from: int) -> Option<int>
    decreases s.len() - from,
{
    if from < 0 || from >= s.len() {
        None
    } else if s[from] == 10u8 && (from + 1 == s.len() || s[from + 1] != 32u8) {
        Some(from)
    } else {
        spec_value_end(s, from + 1)
    }
}

/// What a found value end means for the bytes before and at it.
pub proof fn lemma_value_end(s: Seq<u8>, from: int)
    requires
        0 <= from <= s.len(),
    ensures
        match spec_value_end(s, from) {
            Some(i) => {
                &&& from <= i < s.len()
                &&& s[i] == 10u8
                &&& (i + 1 == s.len() || s[i + 1] != 32u8)
                &&& forall|j: int|
                    from <= j < i && #[trigger] s[j] == 10u8 ==> j + 1 < s.len() && s[j + 1]
                        == 32u8
            },
            None => forall|j: int|
                from <= j < s.len() && #[trigger] s[j] == 10u8 ==> j + 1 < s.len() && s[j + 1]
                    == 32u8,
        },
    decreases s.len() - from,
{
    if from < s.len() && !(s[from] == 10u8 && (from + 1 == s.len() || s[from + 1] != 32u8)) {
        lemma_value_end(s, from + 1);
    }
}

/// When the bytes in `[from, to)` hold no value end, the search from `from`
/// agrees with the search from `to`.
pub proof fn lemma_value_end_skip(s: Seq<u8>, from: int, to: int)
    requires
        0 <= from <= to <= s.len(),
        forall|j: int|
            from <= j < to && #[trigger] s[j] == 10u8 ==> j + 1 < s.len() && s[j + 1] == 32u8,
    ensures
        spec_value_end(s, from) == spec_value_end(s, to),
    decreases to - from,
{
    if from < to {
        if s[from] == 10u8 {
            assert(from + 1 < s.len() && s[from + 1] == 32u8);
        }
        lemma_value_end_skip(s, from + 1, to);
    }
}

/// When `i` is a value end and none lies before it (from `from` on), the
/// search finds exactly `i`.
pub proof fn lemma_value_end_exact(s: Seq<u8>, from: int, i: int)
    requires
        0 <= from <= i < s.len(),
        s[i] == 10u8,
        i + 1 == s.len() || s[i + 1] != 32u8,
        forall|j: int|
            from <= j < i && #[trigger] s[j] == 10u8 ==> j + 1 < s.len() && s[j + 1] == 32u8,
    ensures
        spec_value_end(s, from) == Some(i),
{
    lemma_value_end_skip(s, from, i);
}

/// Finds the first newline at or after `from` that is not followed by a
/// continuation space.
pub fn value_end(s: &[u8], from: usize) -> (r: Option<usize>)
    requires
        from <= s@.len(),
    ensures
        match r {
            Some(i) => spec_value_end(s@, from as int) == Some(i as int) && from <= i < s@.len(),
            None => spec_value_end(s@, from as int) is None,
        },
{
    let n = s.len();
    let mut i = from;
    while i < n
        invariant
            from <= i <= n,
            n == s@.len(),
            spec_value_end(s@, from as int) == spec_value_end(s@, i as int),
        decreases n - i,
    {
        if s[i] == 10u8 && (i + 1 == n || s[i + 1] != 32u8) {
            return Some(i);
        }
        i = i + 1;
    }
    None
}

/// What the body denotes as raw lines: the `(key, unescaped value)` field
/// lines in order, and the message bytes when a blank line introduced them.
/// Nothing when a line violates the grammar: a nonblank line without a space,
/// a line whose first space comes at its start (an empty key) or after its
/// newline, or a field line that never ends.
pub open spec fn spec_parse_lines(b: Seq<u8>) -> Option<(Seq<(Seq<u8>, Seq<u8>)>, Option<Seq<u8>>)>
    decreases b.len(),
    via spec_parse_lines_decreases
{
    if b.len() == 0 {
        Some((Seq::empty(), None))
    } else if b[0] == 10u8 {
        Some((Seq::empty(), Some(b.subrange(1, b.len() as int))))
    } else {
        match spec_find_byte(b, 0, 32u8) {
            None => None,
            Some(sp) => {
                let nl = spec_find_byte(b, 0, 10u8);
                if sp == 0 || (nl is Some && nl.unwrap() < sp) {
                    None
                } else {
                    match spec_value_end(b, sp + 1) {
                        None => None,
                        Some(e) => match spec_parse_lines(b.subrange(e + 1, b.len() as int)) {
                            None => None,
                            Some((lines, msg)) => Some(
                                (
                                    seq![
                                        (b.subrange(0, sp), spec_unescape(b.subrange(sp + 1, e))),
                                    ] + lines,
                                    msg,
                                ),
                            ),
                        },
                    }
                }
            },
        }
    }
}

#[via_fn]
proof fn spec_parse_lines_decreases(b: Seq<u8>) {
    if b.len() > 0 && b[0] != 10u8 {
        match spec_find_byte(b, 0, 32u8) {
            None => {},
            Some(sp) => {
                bytes_util::lemma_find_byte(b, 0, 32u8);
                match spec_value_end(b, sp + 1) {
                    None => {},
                    Some(e) => {
                        lemma_value_end(b, sp + 1);
                    },
                }
            },
        }
    }
}

// ---------------------------------------------------------------------------
// Grouping lines into the ordered document.
// ---------------------------------------------------------------------------
/// No key occurs twice among the entries.
pub open spec fn distinct_keys<K, V>(d: Seq<(K, Seq<V>)>) -> bool {
    forall|i: int, j: int| 0 <= i < j < d.len() ==> (#[trigger] d[i]).0 != (#[trigger] d[j]).0
}

/// Some entry carries the key.
pub open spec fn has_key<K, V>(d: Seq<(K, Seq<V>)>, k: K) -> bool {
    exists|i: int| 0 <= i < d.len() && (#[trigger] d[i]).0 == k
}

/// The position of the entry carrying the key.
pub open spec fn key_index<K, V>(d: Seq<(K, Seq<V>)>, k: K) -> int {
    choose|i: int| 0 <= i < d.len() && (#[trigger] d[i]).0 == k
}

/// Under distinct keys, the entry found for a key is the only one.
pub proof fn lemma_key_index<K, V>(d: Seq<(K, Seq<V>)>, k: K, i: int)
    requires
        distinct_keys(d),
        0 <= i < d.len(),
        d[i].0 == k,
    ensures
        has_key(d, k),
        key_index(d, k) == i,
{
    assert(has_key(d, k));
    let j = key_index(d, k);
    assert(0 <= j < d.len() && d[j].0 == k);
    if i < j {
        assert(d[i].0 != d[j].0);
    } else if j < i {
        assert(d[j].0 != d[i].0);
    }
}

/// One line folded into the document: appended to its key's values when the
/// key is present, opening a new entry at the end otherwise.
pub open spec fn spec_group_add<K, V>(d: Seq<(K, Seq<V>)>, k: K, v: V) -> Seq<(K, Seq<V>)> {
    if has_key(d, k) {
        let i = key_index(d, k);
        d.update(i, (k, d[i].1.push(v)))
    } else {
        d.push((k, seq![v]))
    }
}

/// The ordered document of a line sequence: keys in first-seen order, each
/// holding its values in the order encountered.
pub open spec fn spec_group<K, V>(lines: Seq<(K, V)>) -> Seq<(K, Seq<V>)>
    decreases lines.len(),
{
    if lines.len() == 0 {
        Seq::empty()
    } else {
        spec_group_add(spec_group(lines.drop_last()), lines.last().0, lines.last().1)
    }
}

/// Folding a line in never repeats a key.
pub proof fn lemma_group_add_distinct<K, V>(d: Seq<(K, Seq<V>)>, k: K, v: V)
    requires
        distinct_keys(d),
    ensures
        distinct_keys(spec_group_add(d, k, v)),
        spec_group_add(d, k, v).len() >= d.len(),
{
    if has_key(d, k) {
        let i = key_index(d, k);
        assert(0 <= i < d.len() && d[i].0 == k);
        let r = d.update(i, (k, d[i].1.push(v)));
        assert(forall|x: int| 0 <= x < r.len() && x != i ==> r[x] == d[x]);
        assert(r[i].0 == d[i].0);
        assert(forall|x: int| 0 <= x < r.len() ==> (#[trigger] r[x]).0 == d[x].0);
    }
}

/// A grouped document never repeats a key.
pub proof fn lemma_group_distinct<K, V>(lines: Seq<(K, V)>)
    ensures
        distinct_keys(spec_group(lines)),
    decreases lines.len(),
{
    if lines.len() > 0 {
        lemma_group_distinct(lines.drop_last());
        lemma_group_add_distinct(
            spec_group(lines.drop_last()),
            lines.last().0,
            lines.last().1,
        );
    }
}

// ---------------------------------------------------------------------------
// The whole parse, over the byte view of a document.
// ---------------------------------------------------------------------------
/// What a body denotes as a byte-level document: the grouped field lines,
/// then — when a blank line appeared — the message under the empty key, last.
pub open spec fn spec_kvlm_parse(b: Seq<u8>) -> Option<Seq<(Seq<u8>, Seq<Seq<u8>>)>> {
    match spec_parse_lines(b) {
        None => None,
        Some((lines, msg)) => {
            let d = spec_group(lines);
            match msg {
                Some(m) => Some(d.push((Seq::empty(), seq![m]))),
                None => Some(d),
            }
        },
    }
}

/// Every key, value and message of the body is valid UTF-8, so the document
/// can be held as strings.
pub open spec fn spec_kvlm_decodable(b: Seq<u8>) -> bool {
    match spec_parse_lines(b) {
        None => false,
        Some((lines, msg)) => {
            &&& forall|i: int|
                0 <= i < lines.len() ==> valid_utf8((#[trigger] lines[i]).0) && valid_utf8(
                    lines[i].1,
                )
            &&& (msg matches Some(m) ==> valid_utf8(m))
        },
    }
}

// ---------------------------------------------------------------------------
// Serialization, over the byte view of a document.
// ---------------------------------------------------------------------------
/// One stored field line: key, space, escaped value, newline.
pub open spec fn spec_ser_value_line(k: Seq<u8>, v: Seq<u8>) -> Seq<u8> {
    k + seq![32u8] + spec_escape(v) + seq![10u8]
}

/// The stored lines of one key's values, in order.
pub open spec fn spec_ser_values(k: Seq<u8>, vs: Seq<Seq<u8>>) -> Seq<u8>
    decreases vs.len(),
{
    if vs.len() == 0 {
        Seq::empty()
    } else {
        spec_ser_value_line(k, vs[0]) + spec_ser_values(k, vs.drop_first())
    }
}

/// The stored field lines of a document, entries in order, the message entry
/// (empty key) skipped.
pub open spec fn spec_ser_fields(d: Seq<(Seq<u8>, Seq<Seq<u8>>)>) -> Seq<u8>
    decreases d.len(),
{
    if d.len() == 0 {
        Seq::empty()
    } else if d[0].0.len() == 0 {
        spec_ser_fields(d.drop_first())
    } else {
        spec_ser_values(d[0].0, d[0].1) + spec_ser_fields(d.drop_first())
    }
}

/// The message of a document: the first value under the empty key, if any.
pub open spec fn spec_msg_of(d: Seq<(Seq<u8>, Seq<Seq<u8>>)>) -> Seq<u8> {
    if has_key(d, Seq::<u8>::empty()) && d[key_index(d, Seq::<u8>::empty())].1.len() > 0 {
        d[key_index(d, Seq::<u8>::empty())].1[0]
    } else {
        Seq::empty()
    }
}

/// The stored form of a document: its field lines, one blank line, then the
/// message verbatim.
pub open spec fn spec_kvlm_serialize(d: Seq<(Seq<u8>, Seq<Seq<u8>>)>) -> Seq<u8> {
    spec_ser_fields(d) + seq![10u8] + spec_msg_of(d)
}

// ---------------------------------------------------------------------------
// Views tying the string-typed map to the byte-level document.
// ---------------------------------------------------------------------------
/// The bytes of a character-level document: every key and value encoded as
/// UTF-8.
pub open spec fn doc_bytes(d: Seq<(Seq<char>, Seq<Seq<char>>)>) -> Seq<(Seq<u8>, Seq<Seq<u8>>)> {
    d.map_values(
        |e: (Seq<char>, Seq<Seq<char>>)|
            (encode_utf8(e.0), e.1.map_values(|v: Seq<char>| encode_utf8(v))),
    )
}

/// UTF-8 encoding never collides: equal encodings come from equal texts.
pub proof fn lemma_encode_injective(a: Seq<char>, b: Seq<char>)
    requires
        encode_utf8(a) == encode_utf8(b),
    ensures
        a == b,
{
    broadcast use vstd::utf8::encode_utf8_decode_utf8;

    assert(vstd::utf8::decode_utf8(encode_utf8(a)) == a);
    assert(vstd::utf8::decode_utf8(encode_utf8(b)) == b);
}

/// A document fit for the stored form: the message entry (empty key, exactly
/// one value) stands last; every other key is nonempty and free of space and
/// newline bytes and holds at least one value; no key repeats.
pub open spec fn field_key_ok(k: Seq<u8>) -> bool {
    k.len() > 0 && forall|j: int|
        0 <= j < k.len() ==> #[trigger] k[j] != 32u8 && k[j] != 10u8
}

pub open spec fn kvlm_doc_wf(d: Seq<(Seq<u8>, Seq<Seq<u8>>)>) -> bool {
    &&& d.len() >= 1
    &&& d.last().0 == Seq::<u8>::empty()
    &&& d.last().1.len() == 1
    &&& forall|i: int|
        0 <= i < d.len() - 1 ==> field_key_ok((#[trigger] d[i]).0) && d[i].1.len() >= 1
    &&& distinct_keys(d)
}

// ---------------------------------------------------------------------------
// Views tying string-typed data to the byte-level grammar.
// ---------------------------------------------------------------------------
/// The byte view of collected field lines.
pub open spec fn lines_bytes(v: Seq<(String, String)>) -> Seq<(Seq<u8>, Seq<u8>)> {
    v.map_values(|p: (String, String)| (encode_utf8(p.0@), encode_utf8(p.1@)))
}

/// Lines prepended onto the outcome of parsing the rest of a body.
pub open spec fn lines_prepend(
    pre: Seq<(Seq<u8>, Seq<u8>)>,
    r: Option<(Seq<(Seq<u8>, Seq<u8>)>, Option<Seq<u8>>)>,
) -> Option<(Seq<(Seq<u8>, Seq<u8>)>, Option<Seq<u8>>)> {
    match r {
        None => None,
        Some((ls, m)) => Some((pre + ls, m)),
    }
}

/// The byte view of grouped entries held as strings.
pub open spec fn groups_bytes(g: Seq<(String, Vec<String>)>) -> Seq<(Seq<u8>, Seq<Seq<u8>>)> {
    g.map_values(
        |e: (String, Vec<String>)|
            (encode_utf8(e.0@), e.1.deep_view().map_values(|v: Seq<char>| encode_utf8(v))),
    )
}

/// The character view of grouped entries held as strings.
pub open spec fn groups_chars(g: Seq<(String, Vec<String>)>) -> Seq<(Seq<char>, Seq<Seq<char>>)> {
    g.map_values(|e: (String, Vec<String>)| (e.0@, e.1.deep_view()))
}

/// The byte view of grouped entries is the encoding of their character view.
pub proof fn lemma_groups_views(g: Seq<(String, Vec<String>)>)
    ensures
        doc_bytes(groups_chars(g)) == groups_bytes(g),
{
    assert(doc_bytes(groups_chars(g)) =~~= groups_bytes(g));
}

/// A text encodes to no bytes exactly when it has no characters.
pub proof fn lemma_encode_empty(s: Seq<char>)
    ensures
        (encode_utf8(s).len() == 0) <==> (s.len() == 0),
{
    if s.len() > 0 {
        assert(vstd::utf8::encode_scalar(s[0] as u32).len() >= 1);
    }
}

/// Copies a vector of strings.
pub fn clone_strings(v: &Vec<String>) -> (r: Vec<String>)
    ensures
        r@ == v@,
{
    let mut r: Vec<String> = Vec::new();
    let mut i: usize = 0;
    while i < v.len()
        invariant
            i <= v@.len(),
            r@ == v@.subrange(0, i as int),
        decreases v@.len() - i,
    {
        r.push(v[i].clone());
        proof {
            assert(r@ =~= v@.subrange(0, i + 1 as int));
        }
        i = i + 1;
    }
    proof {
        assert(v@.subrange(0, v@.len() as int) =~= v@);
    }
    r
}

// ---------------------------------------------------------------------------
// Grouping collected lines into ordered entries.
// ---------------------------------------------------------------------------
/// Folds field lines into grouped entries: keys keep first-seen order, each
/// later occurrence of a key appends to its values.
fn group_lines(lines: &Vec<(String, String)>) -> (g: Vec<(String, Vec<String>)>)
    ensures
        groups_bytes(g@) == spec_group(lines_bytes(lines@)),
        distinct_keys(groups_chars(g@)),
{
    let mut g: Vec<(String, Vec<String>)> = Vec::new();
    let mut i: usize = 0;
    proof {
        assert(lines_bytes(lines@).subrange(0, 0) =~= lines_bytes(lines@.subrange(0, 0)));
        assert(lines_bytes(lines@.subrange(0, 0)) =~= Seq::<(Seq<u8>, Seq<u8>)>::empty());
        assert(groups_bytes(g@) =~= Seq::<(Seq<u8>, Seq<Seq<u8>>)>::empty());
    }
    while i < lines.len()
        invariant
            i <= lines@.len(),
            groups_bytes(g@) == spec_group(lines_bytes(lines@).subrange(0, i as int)),
        decreases lines@.len() - i,
    {
        let k: &String = &lines[i].0;
        let v: String = lines[i].1.clone();
        let ghost lb = lines_bytes(lines@);
        let ghost pre = spec_group(lb.subrange(0, i as int));
        proof {
            lemma_group_distinct(lb.subrange(0, i as int));
            assert(lb.subrange(0, i + 1 as int).drop_last() =~= lb.subrange(0, i as int));
            assert(lb.subrange(0, i + 1 as int).last() == lb[i as int]);
            assert(lb[i as int] == (encode_utf8(k@), encode_utf8(lines@[i as int].1@)));
        }
        let mut j: usize = 0;
        let mut found: Option<usize> = None;
        while j < g.len()
            invariant
                j <= g@.len(),
                match found {
                    Some(x) => x < g@.len() && g@[x as int].0@ == k@,
                    None => forall|y: int| 0 <= y < j ==> (#[trigger] g@[y]).0@ != k@,
                },
            decreases g@.len() - j,
        {
            if found.is_none() && g[j].0 == *k {
                found = Some(j);
            }
            j = j + 1;
        }
        match found {
            Some(x) => {
                proof {
                    assert(groups_bytes(g@)[x as int].0 == encode_utf8(g@[x as int].0@));
                    lemma_key_index(groups_bytes(g@), encode_utf8(k@), x as int);
                }
                g[x].1.push(v);
                proof {
                    let kb = encode_utf8(k@);
                    let vb = encode_utf8(lines@[i as int].1@);
                    assert(groups_bytes(g@) =~~= spec_group_add(pre, kb, vb));
                }
            },
            None => {
                proof {
                    let kb = encode_utf8(k@);
                    assert forall|y: int| 0 <= y < groups_bytes(g@).len() implies (
                    #[trigger] groups_bytes(g@)[y]).0 != kb by {
                        if groups_bytes(g@)[y].0 == kb {
                            lemma_encode_injective(g@[y].0@, k@);
                        }
                    }
                    assert(!has_key(groups_bytes(g@), kb));
                }
                let mut nv: Vec<String> = Vec::new();
                nv.push(v);
                g.push((k.clone(), nv));
                proof {
                    let kb = encode_utf8(k@);
                    let vb = encode_utf8(lines@[i as int].1@);
                    assert(groups_bytes(g@) =~~= spec_group_add(pre, kb, vb));
                }
            },
        }
        i = i + 1;
    }
    proof {
        assert(lines_bytes(lines@).subrange(0, lines@.len() as int) =~= lines_bytes(lines@));
        lemma_group_distinct(lines_bytes(lines@));
        let gb = groups_bytes(g@);
        let gc = groups_chars(g@);
        assert forall|a: int, b: int| 0 <= a < b < gc.len() implies (#[trigger] gc[a]).0 != (
        #[trigger] gc[b]).0 by {
            assert(gb[a].0 == encode_utf8(gc[a].0));
            assert(gb[b].0 == encode_utf8(gc[b].0));
            assert(gb[a].0 != gb[b].0);
        }
    }
    g
}

/// Builds the document map out of grouped lines and the optional message.
fn build_doc(lines: &Vec<(String, String)>, msg: Option<String>) -> (m: LinkedHashMap<
    String,
    Vec<String>,
>)
    requires
        forall|i: int|
            0 <= i < lines_bytes(lines@).len() ==> (#[trigger] lines_bytes(lines@)[i]).0.len()
                > 0,
    ensures
        kvlm_map_wf(m),
        doc_bytes(kvlm_entries(m)) == (match msg {
            Some(ms) => spec_group(lines_bytes(lines@)).push(
                (Seq::<u8>::empty(), seq![encode_utf8(ms@)]),
            ),
            None => spec_group(lines_bytes(lines@)),
        }),
{
    let groups = group_lines(lines);
    let mut m = lhm_new();
    let mut i: usize = 0;
    proof {
        assert(groups_chars(groups@).subrange(0, 0) =~= Seq::<
            (Seq<char>, Seq<Seq<char>>),
        >::empty());
    }
    while i < groups.len()
        invariant
            i <= groups@.len(),
            kvlm_entries(m) == groups_chars(groups@).subrange(0, i as int),
            distinct_keys(groups_chars(groups@)),
        decreases groups@.len() - i,
    {
        let k = groups[i].0.clone();
        let vals = clone_strings(&groups[i].1);
        proof {
            let gc = groups_chars(groups@);
            assert(gc[i as int] == (groups@[i as int].0@, groups@[i as int].1.deep_view()));
            assert forall|y: int| 0 <= y < kvlm_entries(m).len() implies (
            #[trigger] kvlm_entries(m)[y]).0 != k@ by {
                assert(kvlm_entries(m)[y] == gc[y]);
            }
            assert(vals.deep_view() =~= groups@[i as int].1.deep_view());
        }
        lhm_insert_fresh(&mut m, k, vals);
        proof {
            assert(kvlm_entries(m) =~= groups_chars(groups@).subrange(0, i + 1 as int));
        }
        i = i + 1;
    }
    proof {
        assert(groups_chars(groups@).subrange(0, groups@.len() as int) =~= groups_chars(groups@));
    }
    match msg {
        Some(ms) => {
            proof {
                let gc = groups_chars(groups@);
                assert forall|y: int| 0 <= y < kvlm_entries(m).len() implies (
                #[trigger] kvlm_entries(m)[y]).0 != ms_key_view() by {
                    let gb = groups_bytes(groups@);
                    lemma_group_distinct(lines_bytes(lines@));
                    assert(gb[y].0 == encode_utf8(gc[y].0));
                    lemma_group_key_nonempty(lines_bytes(lines@), y);
                    lemma_encode_empty(gc[y].0);
                }
            }
            let mut mv: Vec<String> = Vec::new();
            mv.push(ms);
            lhm_insert_fresh(&mut m, String::new(), mv);
            proof {
                lemma_groups_views(groups@);
                let d = doc_bytes(kvlm_entries(m));
                assert(kvlm_entries(m).drop_last() =~= groups_chars(groups@));
                assert(d =~~= groups_bytes(groups@).push(
                    (Seq::<u8>::empty(), seq![encode_utf8(kvlm_entries(m).last().1[0])]),
                ));
                assert forall|a: int, b: int|
                    0 <= a < b < kvlm_entries(m).len() implies (#[trigger] kvlm_entries(m)[a]).0
                    != (#[trigger] kvlm_entries(m)[b]).0 by {
                    let gb = groups_bytes(groups@);
                    if b == kvlm_entries(m).len() - 1 {
                        lemma_group_key_nonempty(lines_bytes(lines@), a);
                        lemma_encode_empty(kvlm_entries(m)[a].0);
                        assert(gb[a].0 == encode_utf8(kvlm_entries(m)[a].0));
                    }
                }
            }
            m
        },
        None => {
            proof {
                lemma_groups_views(groups@);
            }
            m
        },
    }
}

/// The character view of the empty key.
pub open spec fn ms_key_view() -> Seq<char> {
    Seq::<char>::empty()
}

/// Every key a grouped document holds came from some line, so it is nonempty
/// whenever every line key is.
pub proof fn lemma_group_key_nonempty(lines: Seq<(Seq<u8>, Seq<u8>)>, y: int)
    requires
        0 <= y < spec_group(lines).len(),
    ensures
        exists|i: int| 0 <= i < lines.len() && (#[trigger] lines[i]).0 == spec_group(lines)[y].0,
    decreases lines.len(),
{
    if lines.len() > 0 {
        let pre = spec_group(lines.drop_last());
        let k = lines.last().0;
        let i0 = lines.len() - 1;
        if has_key(pre, k) {
            let x = key_index(pre, k);
            if y == x {
                assert(lines[i0].0 == spec_group(lines)[y].0);
            } else {
                assert(spec_group(lines)[y] == pre[y]);
                lemma_group_key_nonempty(lines.drop_last(), y);
                let i = choose|i: int|
                    0 <= i < lines.drop_last().len() && (#[trigger] lines.drop_last()[i]).0
                        == pre[y].0;
                assert(lines[i].0 == spec_group(lines)[y].0);
            }
        } else {
            if y == spec_group(lines).len() - 1 {
                assert(lines[i0].0 == spec_group(lines)[y].0);
            } else {
                assert(spec_group(lines)[y] == pre[y]);
                lemma_group_key_nonempty(lines.drop_last(), y);
                let i = choose|i: int|
                    0 <= i < lines.drop_last().len() && (#[trigger] lines.drop_last()[i]).0
                        == pre[y].0;
                assert(lines[i].0 == spec_group(lines)[y].0);
            }
        }
    }
}

// ---------------------------------------------------------------------------
// The parser.
// ---------------------------------------------------------------------------
/// Reads a body in the key-value-list-with-message format into its document
/// map. Grammar violations and text that is not UTF-8 are format errors.
pub fn kvlm_parse(raw: &[u8]) -> (r: Result<LinkedHashMap<String, Vec<String>>, WyagError>)
    ensures
        match r {
            Ok(m) => {
                &&& spec_kvlm_parse(raw@) == Some(doc_bytes(kvlm_entries(m)))
                &&& spec_kvlm_decodable(raw@)
                &&& kvlm_map_wf(m)
            },
            Err(e) => (spec_kvlm_parse(raw@) is None || !spec_kvlm_decodable(raw@)) && e.kind
                == WyagErrorKind::Format,
        },
{
    let n = raw.len();
    let mut pos: usize = 0;
    let mut lines: Vec<(String, String)> = Vec::new();
    proof {
        assert(raw@.subrange(0, n as int) =~= raw@);
        assert(lines_bytes(lines@) =~= Seq::<(Seq<u8>, Seq<u8>)>::empty());
        match spec_parse_lines(raw@) {
            Some((ls, m)) => {
                assert(lines_bytes(lines@) + ls =~= ls);
            },
            None => {},
        }
    }
    while pos < n
        invariant
            pos <= n,
            n == raw@.len(),
            spec_parse_lines(raw@) == lines_prepend(
                lines_bytes(lines@),
                spec_parse_lines(raw@.subrange(pos as int, n as int)),
            ),
            forall|i: int|
                0 <= i < lines_bytes(lines@).len() ==> (#[trigger] lines_bytes(
                    lines@,
                )[i]).0.len() > 0,
        decreases n - pos,
    {
        let s = vstd::slice::slice_subrange(raw, pos, n);
        let ghost suf = raw@.subrange(pos as int, n as int);
        if s[0] == 10u8 {
            // The blank line: the rest of the body is the message.
            let msg_bytes = bytes_util::bytes_subrange(s, 1, n - pos);
            proof {
                assert(msg_bytes@ =~= suf.subrange(1, suf.len() as int));
            }
            match bytes_util::string_from_utf8(msg_bytes) {
                Some(ms) => {
                    proof {
                        broadcast use vstd::utf8::decode_utf8_encode_utf8;

                        lemma_lines_decodable(lines@);
                    }
                    return Ok(build_doc(&lines, Some(ms)));
                },
                None => {
                    return Err(
                        WyagError::with_kind(
                            WyagErrorKind::Format,
                            "message bytes are not valid text",
                        ),
                    );
                },
            }
        }
        let sp = match bytes_util::find_byte(s, 0, 32u8) {
            Some(i) => i,
            None => {
                return Err(
                    WyagError::with_kind(
                        WyagErrorKind::Format,
                        "field line holds no space between key and value",
                    ),
                );
            },
        };
        let nl = bytes_util::find_byte(s, 0, 10u8);
        if sp == 0 || (nl.is_some() && nl.unwrap() < sp) {
            return Err(
                WyagError::with_kind(
                    WyagErrorKind::Format,
                    "field line's space comes at its start or after its newline",
                ),
            );
        }
        let e = match value_end(s, sp + 1) {
            Some(i) => i,
            None => {
                return Err(
                    WyagError::with_kind(WyagErrorKind::Format, "field line never ends"),
                );
            },
        };
        let key_bytes = bytes_util::bytes_subrange(s, 0, sp);
        let val_stored = bytes_util::bytes_subrange(s, sp + 1, e);
        let val_bytes = unescape(val_stored.as_slice());
        let ghost kb = suf.subrange(0, sp as int);
        let ghost vb = spec_unescape(suf.subrange(sp + 1 as int, e as int));
        proof {
            assert(key_bytes@ =~= kb);
            assert(val_stored@ =~= suf.subrange(sp + 1 as int, e as int));
        }
        let key_s = match bytes_util::string_from_utf8(key_bytes) {
            Some(s) => s,
            None => {
                proof {
                    lemma_line_undecodable(raw@, pos as int, lines@, true);
                }
                return Err(
                    WyagError::with_kind(WyagErrorKind::Format, "key bytes are not valid text"),
                );
            },
        };
        let val_s = match bytes_util::string_from_utf8(val_bytes) {
            Some(s) => s,
            None => {
                proof {
                    lemma_line_undecodable(raw@, pos as int, lines@, false);
                }
                return Err(
                    WyagError::with_kind(
                        WyagErrorKind::Format,
                        "value bytes are not valid text",
                    ),
                );
            },
        };
        proof {
            broadcast use vstd::utf8::decode_utf8_encode_utf8;

            assert(encode_utf8(key_s@) == kb);
            assert(encode_utf8(val_s@) == vb);
            assert(raw@.subrange(pos + e + 1 as int, n as int) =~= suf.subrange(
                e + 1 as int,
                suf.len() as int,
            ));
            assert(lines_bytes(lines@.push((key_s, val_s))) =~= lines_bytes(lines@).push(
                (kb, vb),
            ));
            match spec_parse_lines(suf.subrange(e + 1 as int, suf.len() as int)) {
                Some((ls2, m2)) => {
                    assert(spec_parse_lines(suf) == Some((seq![(kb, vb)] + ls2, m2)));
                    assert(lines_bytes(lines@).push((kb, vb)) + ls2 =~= lines_bytes(lines@) + (
                    seq![(kb, vb)] + ls2));
                },
                None => {},
            }
        }
        lines.push((key_s, val_s));
        pos = pos + e + 1;
    }
    // The body ended with no blank line: all of it was field lines.
    proof {
        assert(raw@.subrange(n as int, n as int) =~= Seq::<u8>::empty());
        match spec_parse_lines(raw@) {
            Some((ls, m)) => {
                assert(lines_bytes(lines@) + Seq::<(Seq<u8>, Seq<u8>)>::empty() =~= lines_bytes(
                    lines@,
                ));
            },
            None => {},
        }
        lemma_lines_decodable(lines@);
    }
    Ok(build_doc(&lines, None))
}

/// Lines collected as strings are all valid UTF-8 when viewed as bytes.
proof fn lemma_lines_decodable(v: Seq<(String, String)>)
    ensures
        forall|i: int|
            0 <= i < lines_bytes(v).len() ==> valid_utf8((#[trigger] lines_bytes(v)[i]).0)
                && valid_utf8(lines_bytes(v)[i].1),
{
    broadcast use vstd::utf8::encode_utf8_valid_utf8;

    assert forall|i: int| 0 <= i < lines_bytes(v).len() implies valid_utf8(
        (#[trigger] lines_bytes(v)[i]).0,
    ) && valid_utf8(lines_bytes(v)[i].1) by {
        assert(lines_bytes(v)[i].0 == encode_utf8(v[i].0@));
        assert(lines_bytes(v)[i].1 == encode_utf8(v[i].1@));
    }
}

/// When the next field line's key or value is not valid UTF-8, the body as a
/// whole either breaks the grammar or is not decodable.
proof fn lemma_line_undecodable(raw: Seq<u8>, pos: int, collected: Seq<(String, String)>, in_key: bool)
    requires
        0 <= pos <= raw.len(),
        spec_parse_lines(raw) == lines_prepend(
            lines_bytes(collected),
            spec_parse_lines(raw.subrange(pos, raw.len() as int)),
        ),
        ({
            let suf = raw.subrange(pos, raw.len() as int);
            &&& suf.len() > 0
            &&& suf[0] != 10u8
            &&& spec_find_byte(suf, 0, 32u8) is Some
            &&& spec_find_byte(suf, 0, 32u8).unwrap() > 0
            &&& !(spec_find_byte(suf, 0, 10u8) is Some && spec_find_byte(suf, 0, 10u8).unwrap()
                < spec_find_byte(suf, 0, 32u8).unwrap())
            &&& spec_value_end(suf, spec_find_byte(suf, 0, 32u8).unwrap() + 1) is Some
            &&& if in_key {
                !valid_utf8(suf.subrange(0, spec_find_byte(suf, 0, 32u8).unwrap()))
            } else {
                !valid_utf8(
                    spec_unescape(
                        suf.subrange(
                            spec_find_byte(suf, 0, 32u8).unwrap() + 1,
                            spec_value_end(suf, spec_find_byte(suf, 0, 32u8).unwrap() + 1).unwrap(),
                        ),
                    ),
                )
            }
        }),
    ensures
        spec_kvlm_parse(raw) is None || !spec_kvlm_decodable(raw),
{
    let suf = raw.subrange(pos, raw.len() as int);
    let sp = spec_find_byte(suf, 0, 32u8).unwrap();
    let e = spec_value_end(suf, sp + 1).unwrap();
    let kb = suf.subrange(0, sp);
    let vb = spec_unescape(suf.subrange(sp + 1, e));
    match spec_parse_lines(suf.subrange(e + 1, suf.len() as int)) {
        None => {
            assert(spec_parse_lines(suf) is None);
        },
        Some((ls2, m2)) => {
            assert(spec_parse_lines(suf) == Some((seq![(kb, vb)] + ls2, m2)));
            let full = lines_bytes(collected) + (seq![(kb, vb)] + ls2);
            let idx = lines_bytes(collected).len() as int;
            assert(full[idx] == (kb, vb));
            assert(!spec_kvlm_decodable(raw));
        },
    }
}

// ---------------------------------------------------------------------------
// The serializer.
// ---------------------------------------------------------------------------
/// Appending one value appends its stored line.
pub proof fn lemma_ser_values_snoc(k: Seq<u8>, vs: Seq<Seq<u8>>, v: Seq<u8>)
    ensures
        spec_ser_values(k, vs.push(v)) == spec_ser_values(k, vs) + spec_ser_value_line(k, v),
    decreases vs.len(),
{
    if vs.len() == 0 {
        assert(vs.push(v)[0] == v);
        assert(vs.push(v).drop_first() =~= Seq::<Seq<u8>>::empty());
        assert(spec_ser_values(k, Seq::<Seq<u8>>::empty()) =~= Seq::<u8>::empty());
        assert(spec_ser_values(k, vs.push(v)) =~= spec_ser_value_line(k, v));
        assert(spec_ser_values(k, vs) + spec_ser_value_line(k, v) =~= spec_ser_value_line(k, v));
    } else {
        lemma_ser_values_snoc(k, vs.drop_first(), v);
        assert(vs.push(v).drop_first() =~= vs.drop_first().push(v));
        assert(vs.push(v)[0] == vs[0]);
        assert(spec_ser_value_line(k, vs[0]) + (spec_ser_values(k, vs.drop_first())
            + spec_ser_value_line(k, v)) =~= (spec_ser_value_line(k, vs[0]) + spec_ser_values(
            k,
            vs.drop_first(),
        )) + spec_ser_value_line(k, v));
    }
}

/// Appending one entry appends its stored lines (nothing for the message
/// entry).
pub proof fn lemma_ser_fields_snoc(d: Seq<(Seq<u8>, Seq<Seq<u8>>)>, e: (Seq<u8>, Seq<Seq<u8>>))
    ensures
        spec_ser_fields(d.push(e)) == spec_ser_fields(d) + (if e.0.len() == 0 {
            Seq::<u8>::empty()
        } else {
            spec_ser_values(e.0, e.1)
        }),
    decreases d.len(),
{
    let piece = if e.0.len() == 0 {
        Seq::<u8>::empty()
    } else {
        spec_ser_values(e.0, e.1)
    };
    if d.len() == 0 {
        assert(d.push(e)[0] == e);
        assert(d.push(e).drop_first() =~= Seq::<(Seq<u8>, Seq<Seq<u8>>)>::empty());
        assert(spec_ser_fields(Seq::<(Seq<u8>, Seq<Seq<u8>>)>::empty()) =~= Seq::<u8>::empty());
        assert(spec_ser_fields(d.push(e)) =~= piece);
        assert(spec_ser_fields(d) + piece =~= piece);
    } else {
        lemma_ser_fields_snoc(d.drop_first(), e);
        assert(d.push(e).drop_first() =~= d.drop_first().push(e));
        assert(d.push(e)[0] == d[0]);
        if d[0].0.len() == 0 {
            assert(spec_ser_fields(d.push(e)) == spec_ser_fields(d.drop_first().push(e)));
        } else {
            assert(spec_ser_values(d[0].0, d[0].1) + (spec_ser_fields(d.drop_first()) + piece)
                =~= (spec_ser_values(d[0].0, d[0].1) + spec_ser_fields(d.drop_first())) + piece);
        }
    }
}

/// Writes a document map back into its stored form: field lines in entry
/// order (the message entry skipped), one blank line, then the message.
pub fn kvlm_serialize(m: &LinkedHashMap<String, Vec<String>>) -> (r: Vec<u8>)
    requires
        kvlm_map_wf(*m),
    ensures
        r@ == spec_kvlm_serialize(doc_bytes(kvlm_entries(*m))),
{
    let ghost d = doc_bytes(kvlm_entries(*m));
    let mut r: Vec<u8> = Vec::new();
    let len = lhm_len(m);
    let mut i: usize = 0;
    proof {
        assert(d.subrange(0, 0) =~= Seq::<(Seq<u8>, Seq<Seq<u8>>)>::empty());
        assert(r@ =~= spec_ser_fields(d.subrange(0, 0)));
    }
    while i < len
        invariant
            i <= len,
            len == kvlm_entries(*m).len(),
            d == doc_bytes(kvlm_entries(*m)),
            r@ == spec_ser_fields(d.subrange(0, i as int)),
        decreases len - i,
    {
        let (k, vs) = lhm_entry_at(m, i);
        let ghost e = d[i as int];
        proof {
            assert(e.0 == encode_utf8(k@));
            assert(e.1 == kvlm_entries(*m)[i as int].1.map_values(|v: Seq<char>| encode_utf8(v)));
            assert(d.subrange(0, i + 1 as int) =~= d.subrange(0, i as int).push(e));
            lemma_ser_fields_snoc(d.subrange(0, i as int), e);
            lemma_encode_empty(k@);
        }
        if !k.as_str().is_empty() {
            let mut j: usize = 0;
            let nv = vs.len();
            proof {
                assert(e.1.subrange(0, 0) =~= Seq::<Seq<u8>>::empty());
                assert(spec_ser_values(e.0, e.1.subrange(0, 0)) =~= Seq::<u8>::empty());
                assert(r@ =~= spec_ser_fields(d.subrange(0, i as int)) + spec_ser_values(
                    e.0,
                    e.1.subrange(0, 0),
                ));
            }
            while j < nv
                invariant
                    j <= nv,
                    nv == vs@.len(),
                    e.1.len() == nv,
                    e.0 == encode_utf8(k@),
                    forall|x: int| 0 <= x < nv ==> e.1[x] == encode_utf8((#[trigger] vs@[x])@),
                    r@ == spec_ser_fields(d.subrange(0, i as int)) + spec_ser_values(
                        e.0,
                        e.1.subrange(0, j as int),
                    ),
                decreases nv - j,
            {
                r.extend_from_slice(k.as_str().as_bytes());
                r.push(32u8);
                let esc = escape(vs[j].as_str().as_bytes());
                r.extend_from_slice(esc.as_slice());
                r.push(10u8);
                proof {
                    lemma_ser_values_snoc(e.0, e.1.subrange(0, j as int), e.1[j as int]);
                    assert(e.1.subrange(0, j + 1 as int) =~= e.1.subrange(0, j as int).push(
                        e.1[j as int],
                    ));
                    assert(r@ =~= spec_ser_fields(d.subrange(0, i as int)) + spec_ser_values(
                        e.0,
                        e.1.subrange(0, j + 1 as int),
                    ));
                }
                j = j + 1;
            }
            proof {
                assert(e.1.subrange(0, nv as int) =~= e.1);
            }
        }
        i = i + 1;
    }
    proof {
        assert(d.subrange(0, len as int) =~= d);
    }
    r.push(10u8);
    let msg = lhm_get(m, "");
    proof {
        reveal_strlit("");
        assert(""@ =~= Seq::<char>::empty());
    }
    match msg {
        Some(vs) => {
            proof {
                let i = choose|i: int|
                    0 <= i < kvlm_entries(*m).len() && (#[trigger] kvlm_entries(*m)[i]).0 == ""@
                        && vs.deep_view() == kvlm_entries(*m)[i].1;
                assert(d[i].0 == encode_utf8(Seq::<char>::empty()));
                assert(d[i].0 =~= Seq::<u8>::empty());
                assert forall|a: int, b: int| 0 <= a < b < d.len() implies (#[trigger] d[a]).0 != (
                #[trigger] d[b]).0 by {
                    if d[a].0 == d[b].0 {
                        lemma_encode_injective(kvlm_entries(*m)[a].0, kvlm_entries(*m)[b].0);
                    }
                }
                lemma_key_index(d, Seq::<u8>::empty(), i);
                assert(d[i].1 == kvlm_entries(*m)[i].1.map_values(
                    |v: Seq<char>| encode_utf8(v),
                ));
            }
            if vs.len() > 0 {
                r.extend_from_slice(vs[0].as_str().as_bytes());
                proof {
                    assert(vs.deep_view()[0] == vs@[0]@);
                }
            }
            proof {
                if vs@.len() == 0 {
                    assert(spec_msg_of(d) =~= Seq::<u8>::empty());
                    assert(r@ =~= spec_ser_fields(d) + seq![10u8] + spec_msg_of(d));
                } else {
                    assert(spec_msg_of(d) == encode_utf8(vs@[0]@));
                    assert(r@ =~= spec_ser_fields(d) + seq![10u8] + spec_msg_of(d));
                }
            }
        },
        None => {
            proof {
                assert forall|y: int| 0 <= y < d.len() implies (#[trigger] d[y]).0 != Seq::<
                    u8,
                >::empty() by {
                    reveal_strlit("");
                    lemma_encode_empty(kvlm_entries(*m)[y].0);
                    assert(d[y].0 == encode_utf8(kvlm_entries(*m)[y].0));
                    assert(kvlm_entries(*m)[y].0 != ""@);
                    if d[y].0 == Seq::<u8>::empty() {
                        assert(kvlm_entries(*m)[y].0.len() == 0);
                        assert(kvlm_entries(*m)[y].0 =~= ""@);
                    }
                }
                assert(!has_key(d, Seq::<u8>::empty()));
                assert(spec_msg_of(d) =~= Seq::<u8>::empty());
                assert(r@ =~= spec_ser_fields(d) + seq![10u8] + spec_msg_of(d));
            }
        },
    }
    r
}

// ---------------------------------------------------------------------------
// The public face of a document map.
// ---------------------------------------------------------------------------
/// A fresh, empty document.
pub fn kvlm_new() -> (m: LinkedHashMap<String, Vec<String>>)
    ensures
        kvlm_entries(m) == Seq::<(Seq<char>, Seq<Seq<char>>)>::empty(),
        kvlm_map_wf(m),
{
    lhm_new()
}

/// Adds an entry for a key not yet present, at the end of the order.
pub fn kvlm_put(m: &mut LinkedHashMap<String, Vec<String>>, k: String, vals: Vec<String>)
    requires
        kvlm_map_wf(*old(m)),
        forall|i: int|
            0 <= i < kvlm_entries(*old(m)).len() ==> (#[trigger] kvlm_entries(*old(m))[i]).0
                != k@,
    ensures
        kvlm_entries(*final(m)) == kvlm_entries(*old(m)).push((k@, vals.deep_view())),
        kvlm_map_wf(*final(m)),
{
    let ghost pre = kvlm_entries(*m);
    lhm_insert_fresh(m, k, vals);
    proof {
        let post = kvlm_entries(*m);
        assert(forall|i: int| 0 <= i < pre.len() ==> post[i] == pre[i]);
    }
}

/// The values stored under a key, when the document holds it.
pub fn kvlm_get<'a>(m: &'a LinkedHashMap<String, Vec<String>>, k: &str) -> (r: Option<
    &'a Vec<String>,
>)
    ensures
        match r {
            Some(v) => exists|i: int|
                0 <= i < kvlm_entries(*m).len() && (#[trigger] kvlm_entries(*m)[i]).0 == k@
                    && v.deep_view() == kvlm_entries(*m)[i].1,
            None => forall|i: int|
                0 <= i < kvlm_entries(*m).len() ==> (#[trigger] kvlm_entries(*m)[i]).0 != k@,
        },
{
    lhm_get(m, k)
}

/// The count of entries the document holds.
pub fn kvlm_len(m: &LinkedHashMap<String, Vec<String>>) -> (r: usize)
    ensures
        r == kvlm_entries(*m).len(),
{
    lhm_len(m)
}

/// The entry at a position of the document's order.
pub fn kvlm_entry<'a>(m: &'a LinkedHashMap<String, Vec<String>>, i: usize) -> (r: (
    &'a String,
    &'a Vec<String>,
))
    requires
        i < kvlm_entries(*m).len(),
    ensures
        r.0@ == kvlm_entries(*m)[i as int].0,
        r.1.deep_view() == kvlm_entries(*m)[i as int].1,
{
    lhm_entry_at(m, i)
}

// ---------------------------------------------------------------------------
// The round-trip law: parsing the stored form of a well-formed document
// yields the document again, embedded newlines included.
// ---------------------------------------------------------------------------
/// The field lines of one entry: its key paired with each of its values.
pub open spec fn pairs_of_kv(k: Seq<u8>, vs: Seq<Seq<u8>>) -> Seq<(Seq<u8>, Seq<u8>)> {
    vs.map_values(|v: Seq<u8>| (k, v))
}

/// The field lines a document's entries spell out, in order.
pub open spec fn spec_lines_of(d: Seq<(Seq<u8>, Seq<Seq<u8>>)>) -> Seq<(Seq<u8>, Seq<u8>)>
    decreases d.len(),
{
    if d.len() == 0 {
        Seq::empty()
    } else {
        pairs_of_kv(d[0].0, d[0].1) + spec_lines_of(d.drop_first())
    }
}

/// Appending an entry appends its lines.
proof fn lemma_lines_of_snoc(d: Seq<(Seq<u8>, Seq<Seq<u8>>)>, e: (Seq<u8>, Seq<Seq<u8>>))
    ensures
        spec_lines_of(d.push(e)) == spec_lines_of(d) + pairs_of_kv(e.0, e.1),
    decreases d.len(),
{
    if d.len() == 0 {
        assert(d.push(e)[0] == e);
        assert(d.push(e).drop_first() =~= Seq::<(Seq<u8>, Seq<Seq<u8>>)>::empty());
        assert(spec_lines_of(Seq::<(Seq<u8>, Seq<Seq<u8>>)>::empty()) =~= Seq::<
            (Seq<u8>, Seq<u8>),
        >::empty());
        assert(spec_lines_of(d.push(e)) =~= pairs_of_kv(e.0, e.1));
        assert(spec_lines_of(d) + pairs_of_kv(e.0, e.1) =~= pairs_of_kv(e.0, e.1));
    } else {
        lemma_lines_of_snoc(d.drop_first(), e);
        assert(d.push(e).drop_first() =~= d.drop_first().push(e));
        assert(d.push(e)[0] == d[0]);
        assert(pairs_of_kv(d[0].0, d[0].1) + (spec_lines_of(d.drop_first()) + pairs_of_kv(
            e.0,
            e.1,
        )) =~= (pairs_of_kv(d[0].0, d[0].1) + spec_lines_of(d.drop_first())) + pairs_of_kv(
            e.0,
            e.1,
        ));
    }
}

/// One stored field line at the front parses off exactly, leaving the rest.
proof fn lemma_parse_one_line(k: Seq<u8>, v: Seq<u8>, tail: Seq<u8>)
    requires
        field_key_ok(k),
        tail.len() == 0 || tail[0] != 32u8,
    ensures
        spec_parse_lines(spec_ser_value_line(k, v) + tail) == lines_prepend(
            seq![(k, v)],
            spec_parse_lines(tail),
        ),
{
    let b = spec_ser_value_line(k, v) + tail;
    let sp = k.len() as int;
    let ev = spec_escape(v);
    let end = k.len() + 1 + ev.len() as int;
    assert(b[0] == k[0]);
    assert(b[0] != 10u8 && b.len() > 0);
    assert(b[sp] == 32u8);
    assert(forall|j: int| 0 <= j < sp ==> b[j] == k[j] && b[j] != 32u8);
    bytes_util::lemma_find_byte_exact(b, 0, sp, 32u8);
    bytes_util::lemma_find_byte(b, 0, 10u8);
    match spec_find_byte(b, 0, 10u8) {
        Some(nl) => {
            if nl < sp {
                assert(b[nl] == k[nl] && b[nl] != 10u8);
            }
        },
        None => {},
    }
    lemma_escape_wf(v);
    assert(b[end] == 10u8);
    assert(end + 1 == b.len() || b[end + 1] != 32u8) by {
        if end + 1 < b.len() {
            assert(b[end + 1] == tail[0]);
        }
    }
    assert forall|j: int| sp + 1 <= j < end && #[trigger] b[j] == 10u8 implies j + 1 < b.len()
        && b[j + 1] == 32u8 by {
        assert(b[j] == ev[j - (sp + 1)]);
        assert(ev[j - (sp + 1)] == 10u8);
        assert(j - (sp + 1) + 1 < ev.len() && ev[j - (sp + 1) + 1] == 32u8);
        assert(b[j + 1] == ev[j + 1 - (sp + 1)]);
    }
    lemma_value_end_exact(b, sp + 1, end);
    assert(b.subrange(0, sp) =~= k);
    assert(b.subrange(sp + 1, end) =~= ev);
    lemma_unescape_escape(v);
    assert(b.subrange(end + 1, b.len() as int) =~= tail);
    match spec_parse_lines(tail) {
        Some((ls, m)) => {
            assert(spec_parse_lines(b) == Some((seq![(k, v)] + ls, m)));
        },
        None => {
            assert(spec_parse_lines(b) is None);
        },
    }
}

/// The stored lines of one key's values parse off in order, leaving the rest.
proof fn lemma_parse_ser_values(k: Seq<u8>, vs: Seq<Seq<u8>>, tail: Seq<u8>)
    requires
        field_key_ok(k),
        tail.len() == 0 || tail[0] != 32u8,
    ensures
        spec_parse_lines(spec_ser_values(k, vs) + tail) == lines_prepend(
            pairs_of_kv(k, vs),
            spec_parse_lines(tail),
        ),
    decreases vs.len(),
{
    if vs.len() == 0 {
        assert(spec_ser_values(k, vs) + tail =~= tail);
        assert(pairs_of_kv(k, vs) =~= Seq::<(Seq<u8>, Seq<u8>)>::empty());
        match spec_parse_lines(tail) {
            Some((ls, m)) => {
                assert(pairs_of_kv(k, vs) + ls =~= ls);
            },
            None => {},
        }
    } else {
        let rest = vs.drop_first();
        let tail2 = spec_ser_values(k, rest) + tail;
        assert(spec_ser_values(k, vs) + tail =~= spec_ser_value_line(k, vs[0]) + tail2);
        assert(tail2.len() == 0 || tail2[0] != 32u8) by {
            if rest.len() > 0 {
                assert(spec_ser_values(k, rest)[0] == spec_ser_value_line(k, rest[0])[0]);
                assert(spec_ser_value_line(k, rest[0])[0] == k[0]);
            } else {
                assert(spec_ser_values(k, rest) =~= Seq::<u8>::empty());
                assert(tail2 =~= tail);
            }
        }
        lemma_parse_one_line(k, vs[0], tail2);
        lemma_parse_ser_values(k, rest, tail);
        match spec_parse_lines(tail) {
            Some((ls, m)) => {
                assert(seq![(k, vs[0])] + (pairs_of_kv(k, rest) + ls) =~= pairs_of_kv(k, vs)
                    + ls);
            },
            None => {},
        }
    }
}

/// Entries fit for the field section: nonempty keys free of the delimiter
/// bytes, each with at least one value.
pub open spec fn fields_wf(d: Seq<(Seq<u8>, Seq<Seq<u8>>)>) -> bool {
    forall|i: int|
        0 <= i < d.len() ==> field_key_ok((#[trigger] d[i]).0) && d[i].1.len() >= 1
}

/// A nonempty field section begins with the first entry's first key byte.
proof fn lemma_ser_fields_first(d: Seq<(Seq<u8>, Seq<Seq<u8>>)>)
    requires
        fields_wf(d),
        d.len() > 0,
    ensures
        spec_ser_fields(d).len() > 0,
        spec_ser_fields(d)[0] == d[0].0[0],
{
    assert(field_key_ok(d[0].0) && d[0].1.len() >= 1);
    assert(spec_ser_fields(d) == spec_ser_values(d[0].0, d[0].1) + spec_ser_fields(
        d.drop_first(),
    ));
    assert(spec_ser_values(d[0].0, d[0].1)[0] == spec_ser_value_line(d[0].0, d[0].1[0])[0]);
    assert(spec_ser_value_line(d[0].0, d[0].1[0])[0] == d[0].0[0]);
}

/// The whole field section parses off as the document's lines, leaving the
/// rest of the body.
proof fn lemma_parse_ser_fields(d: Seq<(Seq<u8>, Seq<Seq<u8>>)>, tail: Seq<u8>)
    requires
        fields_wf(d),
        tail.len() == 0 || tail[0] != 32u8,
    ensures
        spec_parse_lines(spec_ser_fields(d) + tail) == lines_prepend(
            spec_lines_of(d),
            spec_parse_lines(tail),
        ),
    decreases d.len(),
{
    if d.len() == 0 {
        assert(spec_ser_fields(d) + tail =~= tail);
        assert(spec_lines_of(d) =~= Seq::<(Seq<u8>, Seq<u8>)>::empty());
        match spec_parse_lines(tail) {
            Some((ls, m)) => {
                assert(spec_lines_of(d) + ls =~= ls);
            },
            None => {},
        }
    } else {
        let rest = d.drop_first();
        assert(fields_wf(rest)) by {
            assert(forall|i: int| 0 <= i < rest.len() ==> rest[i] == d[i + 1]);
            assert forall|i: int| 0 <= i < rest.len() implies field_key_ok((#[trigger] rest[i]).0)
                && rest[i].1.len() >= 1 by {
                assert(d[i + 1] == rest[i]);
                assert(field_key_ok(d[i + 1].0) && d[i + 1].1.len() >= 1);
            }
        }
        let tail2 = spec_ser_fields(rest) + tail;
        assert(field_key_ok(d[0].0) && d[0].1.len() >= 1);
        assert(spec_ser_fields(d) + tail =~= spec_ser_values(d[0].0, d[0].1) + tail2);
        assert(tail2.len() == 0 || tail2[0] != 32u8) by {
            if rest.len() > 0 {
                lemma_ser_fields_first(rest);
                assert(tail2[0] == rest[0].0[0]);
            } else {
                assert(spec_ser_fields(rest) =~= Seq::<u8>::empty());
                assert(tail2 =~= tail);
            }
        }
        lemma_parse_ser_values(d[0].0, d[0].1, tail2);
        lemma_parse_ser_fields(rest, tail);
        match spec_parse_lines(tail) {
            Some((ls, m)) => {
                assert(pairs_of_kv(d[0].0, d[0].1) + (spec_lines_of(rest) + ls) =~= spec_lines_of(
                    d,
                ) + ls);
            },
            None => {},
        }
    }
}

/// Appending one key's lines to grouped lines appends one entry, when the key
/// is fresh.
proof fn lemma_group_extend(base: Seq<(Seq<u8>, Seq<u8>)>, k: Seq<u8>, vals: Seq<Seq<u8>>)
    requires
        vals.len() >= 1,
        distinct_keys(spec_group(base)),
        !has_key(spec_group(base), k),
    ensures
        spec_group(base + pairs_of_kv(k, vals)) == spec_group(base).push((k, vals)),
    decreases vals.len(),
{
    let g = spec_group(base);
    if vals.len() == 1 {
        let all = base + pairs_of_kv(k, vals);
        assert(all.drop_last() =~= base);
        assert(all.last() == (k, vals[0]));
        assert(spec_group(all) == spec_group_add(g, k, vals[0]));
        assert(spec_group_add(g, k, vals[0]) == g.push((k, seq![vals[0]])));
        assert(seq![vals[0]] =~= vals);
    } else {
        let vals0 = vals.drop_last();
        let v = vals.last();
        lemma_group_extend(base, k, vals0);
        let mid = base + pairs_of_kv(k, vals0);
        let all = base + pairs_of_kv(k, vals);
        assert(all.drop_last() =~= mid);
        assert(all.last() == (k, v));
        assert(spec_group(all) == spec_group_add(spec_group(mid), k, v));
        let gm = spec_group(mid);
        assert(gm == g.push((k, vals0)));
        assert(distinct_keys(gm)) by {
            assert(forall|x: int| 0 <= x < g.len() ==> gm[x] == g[x]);
            assert forall|a: int, b: int| 0 <= a < b < gm.len() implies (#[trigger] gm[a]).0 != (
            #[trigger] gm[b]).0 by {
                if b == gm.len() - 1 {
                    assert(gm[a] == g[a]);
                    assert(!(g[a].0 == k));
                }
            }
        }
        lemma_key_index(gm, k, g.len() as int);
        assert(spec_group_add(gm, k, v) == gm.update(g.len() as int, (k, vals0.push(v))));
        assert(vals0.push(v) =~= vals);
        assert(gm.update(g.len() as int, (k, vals)) =~= g.push((k, vals)));
    }
}

/// Grouping the lines a document spells out restores the document.
proof fn lemma_group_ungroup(d: Seq<(Seq<u8>, Seq<Seq<u8>>)>)
    requires
        fields_wf(d),
        distinct_keys(d),
    ensures
        spec_group(spec_lines_of(d)) == d,
    decreases d.len(),
{
    if d.len() == 0 {
        assert(spec_lines_of(d) =~= Seq::<(Seq<u8>, Seq<u8>)>::empty());
        assert(spec_group(spec_lines_of(d)) =~= d);
    } else {
        let pre = d.drop_last();
        let e = d.last();
        assert(fields_wf(pre) && distinct_keys(pre)) by {
            assert(forall|i: int| 0 <= i < pre.len() ==> pre[i] == d[i]);
        }
        lemma_group_ungroup(pre);
        assert(d =~= pre.push(e));
        lemma_lines_of_snoc(pre, e);
        assert(spec_lines_of(d) == spec_lines_of(pre) + pairs_of_kv(e.0, e.1));
        assert(!has_key(pre, e.0)) by {
            assert forall|i: int| 0 <= i < pre.len() implies (#[trigger] pre[i]).0 != e.0 by {
                assert(d[i].0 != d[d.len() - 1].0);
            }
        }
        assert(e.1.len() >= 1) by {
            assert(d[d.len() - 1] == e);
        }
        lemma_group_extend(spec_lines_of(pre), e.0, e.1);
        assert(spec_group(spec_lines_of(d)) == pre.push((e.0, e.1)));
        assert(pre.push((e.0, e.1)) =~= d);
    }
}

/// The round-trip law of the format: parsing the stored form of any
/// well-formed document yields exactly that document — keys in order, every
/// value byte for byte (embedded newlines included), and the message.
pub proof fn lemma_kvlm_round_trip(d: Seq<(Seq<u8>, Seq<Seq<u8>>)>)
    requires
        kvlm_doc_wf(d),
    ensures
        spec_kvlm_parse(spec_kvlm_serialize(d)) == Some(d),
{
    let fields = d.drop_last();
    let last = d.last();
    let msg = last.1[0];
    assert(d =~= fields.push(last));
    lemma_ser_fields_snoc(fields, last);
    assert(spec_ser_fields(d) == spec_ser_fields(fields));
    lemma_key_index(d, Seq::<u8>::empty(), d.len() - 1);
    assert(spec_msg_of(d) == msg);
    let tail = seq![10u8] + msg;
    assert(spec_kvlm_serialize(d) =~= spec_ser_fields(fields) + tail);
    assert(fields_wf(fields)) by {
        assert(forall|i: int| 0 <= i < fields.len() ==> fields[i] == d[i]);
        assert forall|i: int| 0 <= i < fields.len() implies field_key_ok(
            (#[trigger] fields[i]).0,
        ) && fields[i].1.len() >= 1 by {
            assert(d[i] == fields[i]);
        }
    }
    assert(tail[0] == 10u8);
    lemma_parse_ser_fields(fields, tail);
    assert(spec_parse_lines(tail) == Some(
        (Seq::<(Seq<u8>, Seq<u8>)>::empty(), Some(tail.subrange(1, tail.len() as int))),
    ));
    assert(tail.subrange(1, tail.len() as int) =~= msg);
    let lines = spec_lines_of(fields);
    assert(spec_parse_lines(spec_kvlm_serialize(d)) == Some((lines + Seq::<(Seq<u8>, Seq<u8>)>::empty(), Some(msg))));
    assert(lines + Seq::<(Seq<u8>, Seq<u8>)>::empty() =~= lines);
    assert(distinct_keys(fields)) by {
        assert(forall|i: int| 0 <= i < fields.len() ==> fields[i] == d[i]);
        assert forall|a: int, b: int| 0 <= a < b < fields.len() implies (
        #[trigger] fields[a]).0 != (#[trigger] fields[b]).0 by {
            assert(d[a] == fields[a] && d[b] == fields[b]);
        }
    }
    lemma_group_ungroup(fields);
    assert(spec_kvlm_parse(spec_kvlm_serialize(d)) == Some(
        fields.push((Seq::<u8>::empty(), seq![msg])),
    ));
    assert(last.1 =~= seq![msg]);
    assert((Seq::<u8>::empty(), seq![msg]) == last);
    assert(fields.push(last) == d);
}


/// The lines a document spells out inherit validity from its keys and
/// values.
proof fn lemma_lines_of_valid(d: Seq<(Seq<u8>, Seq<Seq<u8>>)>)
    requires
        forall|i: int|
            0 <= i < d.len() ==> valid_utf8((#[trigger] d[i]).0) && (forall|x: int|
                0 <= x < d[i].1.len() ==> valid_utf8(#[trigger] d[i].1[x])),
    ensures
        forall|j: int|
            0 <= j < spec_lines_of(d).len() ==> valid_utf8((#[trigger] spec_lines_of(d)[j]).0)
                && valid_utf8(spec_lines_of(d)[j].1),
    decreases d.len(),
{
    if d.len() > 0 {
        let rest = d.drop_first();
        assert(forall|i: int| 0 <= i < rest.len() ==> rest[i] == d[i + 1]);
        assert forall|i: int| 0 <= i < rest.len() implies valid_utf8((#[trigger] rest[i]).0) && (
        forall|x: int| 0 <= x < rest[i].1.len() ==> valid_utf8(#[trigger] rest[i].1[x])) by {
            assert(d[i + 1] == rest[i]);
            assert(valid_utf8(d[i + 1].0));
        }
        lemma_lines_of_valid(rest);
        let pairs = pairs_of_kv(d[0].0, d[0].1);
        assert forall|j: int| 0 <= j < spec_lines_of(d).len() implies valid_utf8(
            (#[trigger] spec_lines_of(d)[j]).0,
        ) && valid_utf8(spec_lines_of(d)[j].1) by {
            if j < pairs.len() {
                assert(spec_lines_of(d)[j] == pairs[j]);
                assert(pairs[j] == (d[0].0, d[0].1[j]));
                assert(valid_utf8(d[0].1[j]));
            } else {
                assert(spec_lines_of(d)[j] == spec_lines_of(rest)[j - pairs.len()]);
            }
        }
    }
}

/// The stored form of a well-formed document of strings is decodable: every
/// key, value and message in it is valid UTF-8.
pub proof fn lemma_serialized_decodable(c: Seq<(Seq<char>, Seq<Seq<char>>)>)
    requires
        kvlm_doc_wf(doc_bytes(c)),
    ensures
        spec_kvlm_decodable(spec_kvlm_serialize(doc_bytes(c))),
{
    broadcast use vstd::utf8::encode_utf8_valid_utf8;

    let d = doc_bytes(c);
    let fields = d.drop_last();
    let last = d.last();
    let msg = last.1[0];
    assert(d =~= fields.push(last));
    lemma_ser_fields_snoc(fields, last);
    assert(spec_ser_fields(d) == spec_ser_fields(fields));
    lemma_key_index(d, Seq::<u8>::empty(), d.len() - 1);
    assert(spec_msg_of(d) == msg);
    let tail = seq![10u8] + msg;
    assert(spec_kvlm_serialize(d) =~= spec_ser_fields(fields) + tail);
    assert(fields_wf(fields)) by {
        assert(forall|i: int| 0 <= i < fields.len() ==> fields[i] == d[i]);
        assert forall|i: int| 0 <= i < fields.len() implies field_key_ok(
            (#[trigger] fields[i]).0,
        ) && fields[i].1.len() >= 1 by {
            assert(d[i] == fields[i]);
        }
    }
    assert(tail[0] == 10u8);
    lemma_parse_ser_fields(fields, tail);
    assert(spec_parse_lines(tail) == Some(
        (Seq::<(Seq<u8>, Seq<u8>)>::empty(), Some(tail.subrange(1, tail.len() as int))),
    ));
    assert(tail.subrange(1, tail.len() as int) =~= msg);
    let lines = spec_lines_of(fields);
    assert(spec_parse_lines(spec_kvlm_serialize(d)) == Some(
        (lines + Seq::<(Seq<u8>, Seq<u8>)>::empty(), Some(msg)),
    ));
    assert(lines + Seq::<(Seq<u8>, Seq<u8>)>::empty() =~= lines);
    assert forall|i: int| 0 <= i < fields.len() implies valid_utf8((#[trigger] fields[i]).0) && (
    forall|x: int| 0 <= x < fields[i].1.len() ==> valid_utf8(#[trigger] fields[i].1[x])) by {
        assert(fields[i] == d[i]);
        assert(d[i] == (encode_utf8(c[i].0), c[i].1.map_values(|v: Seq<char>| encode_utf8(v))));
        assert(valid_utf8(encode_utf8(c[i].0)));
        assert forall|x: int| 0 <= x < fields[i].1.len() implies valid_utf8(
            #[trigger] fields[i].1[x],
        ) by {
            assert(fields[i].1[x] == encode_utf8(c[i].1[x]));
        }
    }
    lemma_lines_of_valid(fields);
    assert(valid_utf8(msg)) by {
        assert(last == d[d.len() - 1]);
        assert(d[d.len() - 1] == (encode_utf8(c[c.len() - 1].0), c[c.len() - 1].1.map_values(
            |v: Seq<char>| encode_utf8(v),
        )));
        assert(msg == encode_utf8(c[c.len() - 1].1[0]));
    }
}


// ---------------------------------------------------------------------------
// The stored-form round trip: a body that parses re-serializes to itself,
// as long as its field lines keep each key's occurrences together.
// ---------------------------------------------------------------------------
/// The stored form of a line sequence, one line after another.
pub open spec fn spec_ser_lines(lines: Seq<(Seq<u8>, Seq<u8>)>) -> Seq<u8>
    decreases lines.len(),
{
    if lines.len() == 0 {
        Seq::empty()
    } else {
        spec_ser_value_line(lines[0].0, lines[0].1) + spec_ser_lines(lines.drop_first())
    }
}

/// Storing lines distributes over concatenation.
proof fn lemma_ser_lines_concat(a: Seq<(Seq<u8>, Seq<u8>)>, b: Seq<(Seq<u8>, Seq<u8>)>)
    ensures
        spec_ser_lines(a + b) == spec_ser_lines(a) + spec_ser_lines(b),
    decreases a.len(),
{
    if a.len() == 0 {
        assert(a + b =~= b);
        assert(spec_ser_lines(a) =~= Seq::<u8>::empty());
        assert(spec_ser_lines(a) + spec_ser_lines(b) =~= spec_ser_lines(b));
    } else {
        lemma_ser_lines_concat(a.drop_first(), b);
        assert((a + b).drop_first() =~= a.drop_first() + b);
        assert((a + b)[0] == a[0]);
        assert(spec_ser_value_line(a[0].0, a[0].1) + (spec_ser_lines(a.drop_first())
            + spec_ser_lines(b)) =~= (spec_ser_value_line(a[0].0, a[0].1) + spec_ser_lines(
            a.drop_first(),
        )) + spec_ser_lines(b));
    }
}

/// One key's lines store the same bytes as its value block.
proof fn lemma_ser_lines_pairs(k: Seq<u8>, vs: Seq<Seq<u8>>)
    ensures
        spec_ser_lines(pairs_of_kv(k, vs)) == spec_ser_values(k, vs),
    decreases vs.len(),
{
    if vs.len() == 0 {
        assert(pairs_of_kv(k, vs) =~= Seq::<(Seq<u8>, Seq<u8>)>::empty());
    } else {
        lemma_ser_lines_pairs(k, vs.drop_first());
        assert(pairs_of_kv(k, vs)[0] == (k, vs[0]));
        assert(pairs_of_kv(k, vs).drop_first() =~= pairs_of_kv(k, vs.drop_first()));
    }
}

/// The field section of entries with nonempty keys is their lines, stored.
proof fn lemma_ser_fields_lines(d: Seq<(Seq<u8>, Seq<Seq<u8>>)>)
    requires
        forall|i: int| 0 <= i < d.len() ==> (#[trigger] d[i]).0.len() > 0,
    ensures
        spec_ser_fields(d) == spec_ser_lines(spec_lines_of(d)),
    decreases d.len(),
{
    if d.len() == 0 {
        assert(spec_lines_of(d) =~= Seq::<(Seq<u8>, Seq<u8>)>::empty());
    } else {
        let rest = d.drop_first();
        assert(forall|i: int| 0 <= i < rest.len() ==> rest[i] == d[i + 1]);
        assert forall|i: int| 0 <= i < rest.len() implies (#[trigger] rest[i]).0.len() > 0 by {
            assert(d[i + 1] == rest[i]);
        }
        lemma_ser_fields_lines(rest);
        lemma_ser_lines_concat(pairs_of_kv(d[0].0, d[0].1), spec_lines_of(rest));
        lemma_ser_lines_pairs(d[0].0, d[0].1);
    }
}

/// Every key a parse produces is nonempty.
proof fn lemma_parse_lines_keys_nonempty(b: Seq<u8>)
    requires
        spec_parse_lines(b) is Some,
    ensures
        forall|i: int|
            0 <= i < spec_parse_lines(b).unwrap().0.len() ==> (
            #[trigger] spec_parse_lines(b).unwrap().0[i]).0.len() > 0,
    decreases b.len(),
{
    if b.len() == 0 || b[0] == 10u8 {
    } else {
        let sp = spec_find_byte(b, 0, 32u8).unwrap();
        bytes_util::lemma_find_byte(b, 0, 32u8);
        let e = spec_value_end(b, sp + 1).unwrap();
        lemma_value_end(b, sp + 1);
        let suffix = b.subrange(e + 1, b.len() as int);
        lemma_parse_lines_keys_nonempty(suffix);
        let lines = spec_parse_lines(b).unwrap().0;
        let rest = spec_parse_lines(suffix).unwrap().0;
        assert forall|i: int| 0 <= i < lines.len() implies (#[trigger] lines[i]).0.len() > 0 by {
            if i == 0 {
                assert(lines[0].0 == b.subrange(0, sp));
            } else {
                assert(lines[i] == rest[i - 1]);
            }
        }
    }
}

/// A body that parses is, byte for byte, its lines re-stored — followed by
/// the blank line and the message when a blank line was present.
pub proof fn lemma_parse_reser(b: Seq<u8>)
    requires
        spec_parse_lines(b) is Some,
    ensures
        ({
            let (lines, msg) = spec_parse_lines(b).unwrap();
            match msg {
                Some(m) => b == spec_ser_lines(lines) + seq![10u8] + m,
                None => b == spec_ser_lines(lines),
            }
        }),
    decreases b.len(),
{
    if b.len() == 0 {
        assert(b =~= spec_ser_lines(Seq::<(Seq<u8>, Seq<u8>)>::empty()));
    } else if b[0] == 10u8 {
        let m = b.subrange(1, b.len() as int);
        assert(b =~= spec_ser_lines(Seq::<(Seq<u8>, Seq<u8>)>::empty()) + seq![10u8] + m);
    } else {
        let sp = spec_find_byte(b, 0, 32u8).unwrap();
        bytes_util::lemma_find_byte(b, 0, 32u8);
        let e = spec_value_end(b, sp + 1).unwrap();
        lemma_value_end(b, sp + 1);
        let key = b.subrange(0, sp);
        let slice = b.subrange(sp + 1, e);
        assert(esc_wf(slice)) by {
            assert forall|j: int| 0 <= j < slice.len() && #[trigger] slice[j] == 10u8 implies j + 1
                < slice.len() && slice[j + 1] == 32u8 by {
                assert(slice[j] == b[sp + 1 + j]);
                assert(b[sp + 1 + j] == 10u8);
                assert(sp + 1 + j + 1 < b.len() && b[sp + 1 + j + 1] == 32u8);
                if sp + 1 + j + 1 == e {
                    assert(b[e] == 10u8);
                    assert(false);
                }
                assert(slice[j + 1] == b[sp + 1 + j + 1]);
            }
        }
        lemma_escape_unescape(slice);
        let val = spec_unescape(slice);
        assert(spec_ser_value_line(key, val) =~= b.subrange(0, e + 1));
        let suffix = b.subrange(e + 1, b.len() as int);
        lemma_parse_reser(suffix);
        let (rest, msg) = spec_parse_lines(suffix).unwrap();
        let lines = spec_parse_lines(b).unwrap().0;
        assert(lines == seq![(key, val)] + rest);
        assert(lines[0] == (key, val));
        assert(lines.drop_first() =~= rest);
        assert(spec_ser_lines(lines) == spec_ser_value_line(key, val) + spec_ser_lines(rest));
        match msg {
            Some(m) => {
                assert(b =~= spec_ser_value_line(key, val) + (spec_ser_lines(rest) + seq![10u8]
                    + m));
                assert(spec_ser_lines(lines) + seq![10u8] + m =~= spec_ser_value_line(key, val) + (
                spec_ser_lines(rest) + seq![10u8] + m));
            },
            None => {
                assert(b =~= spec_ser_value_line(key, val) + spec_ser_lines(rest));
            },
        }
    }
}

/// The stored-form round-trip law of the format: a body that parses, carries
/// a blank line, and keeps each key's occurrences together re-serializes to
/// exactly its own bytes. (A body with the occurrences of a key interleaved
/// between other keys re-groups them, so only its parsed document — not its
/// raw bytes — is preserved.)
pub proof fn lemma_kvlm_canonical(b: Seq<u8>)
    requires
        spec_parse_lines(b) matches Some((lines, msg)) && msg is Some && spec_lines_of(
            spec_group(lines),
        ) == lines,
    ensures
        spec_kvlm_serialize(spec_kvlm_parse(b).unwrap()) == b,
{
    let (lines, msgo) = spec_parse_lines(b).unwrap();
    let m = msgo.unwrap();
    let g = spec_group(lines);
    let d = g.push((Seq::<u8>::empty(), seq![m]));
    assert(spec_kvlm_parse(b) == Some(d));
    lemma_parse_lines_keys_nonempty(b);
    lemma_group_distinct(lines);
    assert forall|y: int| 0 <= y < g.len() implies (#[trigger] g[y]).0.len() > 0 by {
        lemma_group_key_nonempty(lines, y);
    }
    assert(d.drop_last() =~= g);
    assert(d =~= g.push((Seq::<u8>::empty(), seq![m])));
    lemma_ser_fields_snoc(g, (Seq::<u8>::empty(), seq![m]));
    assert(spec_ser_fields(d) == spec_ser_fields(g));
    lemma_ser_fields_lines(g);
    assert(spec_ser_fields(g) == spec_ser_lines(lines));
    assert(distinct_keys(d)) by {
        assert(forall|x: int| 0 <= x < g.len() ==> d[x] == g[x]);
        assert forall|x: int, y: int| 0 <= x < y < d.len() implies (#[trigger] d[x]).0 != (
        #[trigger] d[y]).0 by {
            if y == d.len() - 1 {
                assert(d[x] == g[x]);
                assert(g[x].0.len() > 0);
            }
        }
    }
    lemma_key_index(d, Seq::<u8>::empty(), d.len() - 1);
    assert(spec_msg_of(d) == m);
    lemma_parse_reser(b);
    assert(spec_kvlm_serialize(d) == spec_ser_lines(lines) + seq![10u8] + m);
}

} // verus!
