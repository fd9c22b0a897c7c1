//! Header framing of stored objects: a framed buffer is
//! `kind SP decimal-length NUL body`, the form that is digested, compressed
//! and written to the store.
use vstd::prelude::*;

use crate::bytes_util;
use crate::bytes_util::spec_find_byte;
use crate::dec;
use crate::dec::DecParse;
use crate::error::WyagError;
use crate::error::WyagErrorKind;

verus! {

/// The framed form of a body under a kind name.
pub open spec fn spec_frame(kind: Seq<u8>, body: Seq<u8>) -> Seq<u8> {
    kind + seq![32u8] + dec::spec_dec_digits(body.len()) + seq![0u8] + body
}

/// A kind name fit for framing: nonempty, free of the two delimiter bytes.
pub open spec fn kind_name_ok(kind: Seq<u8>) -> bool {
    &&& kind.len() > 0
    &&& forall|j: int| 0 <= j < kind.len() ==> kind[j] != 32u8 && kind[j] != 0u8
}

/// What a framed buffer's header denotes: the kind name before the first
/// space, the declared length between that space and the first NUL after it,
/// and the offset where the body starts. Nothing when a delimiter is missing
/// or the length field is no decimal number.
pub open spec fn spec_parse_header(b: Seq<u8>) -> Option<(Seq<u8>, nat, int)> {
    match spec_find_byte(b, 0, 32u8) {
        None => None,
        Some(sp) => match spec_find_byte(b, sp + 1, 0u8) {
            None => None,
            Some(nul) => match dec::spec_parse_dec(b.subrange(sp + 1, nul)) {
                None => None,
                Some(v) => Some((b.subrange(0, sp), v, nul + 1)),
            },
        },
    }
}

/// Parsing the header of a framed buffer recovers the kind, the body's exact
/// length, and the offset of the body.
pub proof fn lemma_frame_header(kind: Seq<u8>, body: Seq<u8>)
    requires
        kind_name_ok(kind),
    ensures
        ({
            let b = spec_frame(kind, body);
            let digits = dec::spec_dec_digits(body.len());
            &&& spec_parse_header(b) == Some(
                (kind, body.len() as nat, kind.len() + 1 + digits.len() + 1 as int),
            )
            &&& b.subrange(kind.len() + 1 + digits.len() + 1 as int, b.len() as int) == body
            &&& b.len() == kind.len() + 1 + digits.len() + 1 + body.len()
        }),
{
    let b = spec_frame(kind, body);
    let digits = dec::spec_dec_digits(body.len());
    dec::lemma_dec_digits_ok(body.len());
    let sp = kind.len() as int;
    let nul = kind.len() + 1 + digits.len() as int;
    assert(b.len() == kind.len() + 1 + digits.len() + 1 + body.len());
    assert(b[sp] == 32u8);
    assert(forall|j: int| 0 <= j < sp ==> b[j] == kind[j] && b[j] != 32u8);
    bytes_util::lemma_find_byte_exact(b, 0, sp, 32u8);
    assert(b[nul] == 0u8);
    assert(forall|j: int|
        sp + 1 <= j < nul ==> b[j] == digits[j - (sp + 1)] && dec::is_digit(b[j]));
    assert(forall|j: int| sp + 1 <= j < nul ==> b[j] != 0u8);
    bytes_util::lemma_find_byte_exact(b, sp + 1, nul, 0u8);
    assert(b.subrange(sp + 1, nul) =~= digits);
    assert(b.subrange(0, sp) =~= kind);
    assert(b.subrange(nul + 1, b.len() as int) =~= body);
}

/// A buffer whose header parses, whose declared length matches its body and
/// whose length field has no leading zero is exactly the framing of its own
/// kind and body: re-framing what was parsed restores the buffer byte for
/// byte.
pub proof fn lemma_header_canonical(b: Seq<u8>)
    requires
        spec_parse_header(b) is Some,
        ({
            let (kb, v, off) = spec_parse_header(b).unwrap();
            let sp = spec_find_byte(b, 0, 32u8).unwrap();
            &&& v == b.len() - off
            &&& (off - 1 - (sp + 1) > 1 ==> b[sp + 1] != 48u8)
        }),
    ensures
        ({
            let (kb, v, off) = spec_parse_header(b).unwrap();
            spec_frame(kb, b.subrange(off, b.len() as int)) == b
        }),
{
    let (kb, v, off) = spec_parse_header(b).unwrap();
    let sp = spec_find_byte(b, 0, 32u8).unwrap();
    bytes_util::lemma_find_byte(b, 0, 32u8);
    let nul = spec_find_byte(b, sp + 1, 0u8).unwrap();
    bytes_util::lemma_find_byte(b, sp + 1, 0u8);
    let field = b.subrange(sp + 1, nul);
    assert(off == nul + 1);
    assert(kb == b.subrange(0, sp));
    assert(dec::spec_parse_dec(field) == Some(v));
    assert(field.len() >= 1 && dec::all_digits(field));
    assert(field.len() > 1 ==> field[0] != 48u8);
    dec::lemma_dec_canonical(field);
    assert(dec::spec_dec_digits(v) == field);
    let body = b.subrange(off, b.len() as int);
    assert(body.len() == v);
    assert(spec_frame(kb, body) =~= b);
}

/// Builds the framed form of a body: kind, space, decimal length, NUL, body.
pub fn frame(kind: &[u8], body: &[u8]) -> (r: Vec<u8>)
    ensures
        r@ == spec_frame(kind@, body@),
{
    let mut r: Vec<u8> = Vec::new();
    r.extend_from_slice(kind);
    r.push(32u8);
    let digits = dec::dec_encode(body.len());
    r.extend_from_slice(digits.as_slice());
    r.push(0u8);
    r.extend_from_slice(body);
    proof {
        assert(r@ =~= spec_frame(kind@, body@));
    }
    r
}

/// A parsed object header.
pub struct Header {
    /// The kind name found before the first space.
    pub kind: Vec<u8>,
    /// The declared body length, or the mark that it exceeds the machine.
    pub declared: DecParse,
    /// The offset at which the body starts.
    pub body_start: usize,
}

/// Reads the header of a framed buffer: the kind name up to the first space,
/// the decimal length up to the first NUL after it, and where the body
/// starts. A missing delimiter or a malformed length field is a format error.
pub fn parse_header(b: &[u8]) -> (r: Result<Header, WyagError>)
    ensures
        match r {
            Ok(h) => {
                &&& spec_parse_header(b@) matches Some((k, v, off))
                &&& h.kind@ == k
                &&& h.body_start == off
                &&& h.body_start <= b@.len()
                &&& match h.declared {
                    DecParse::Val(d) => v == d as nat,
                    DecParse::TooBig => v > usize::MAX,
                    DecParse::Invalid => false,
                }
            },
            Err(e) => spec_parse_header(b@) is None && e.kind == WyagErrorKind::Format,
        },
{
    let n = b.len();
    let sp = match bytes_util::find_byte(b, 0, 32u8) {
        Some(i) => i,
        None => {
            return Err(
                WyagError::with_kind(
                    WyagErrorKind::Format,
                    "object header holds no space delimiter",
                ),
            );
        },
    };
    let nul = match bytes_util::find_byte(b, sp + 1, 0u8) {
        Some(i) => i,
        None => {
            return Err(
                WyagError::with_kind(
                    WyagErrorKind::Format,
                    "object header holds no NUL delimiter after its kind",
                ),
            );
        },
    };
    let size_field = vstd::slice::slice_subrange(b, sp + 1, nul);
    let declared = match dec::dec_parse(size_field) {
        DecParse::Invalid => {
            return Err(
                WyagError::with_kind(
                    WyagErrorKind::Format,
                    "object header's length field is no decimal number",
                ),
            );
        },
        d => d,
    };
    let kind = bytes_util::bytes_subrange(b, 0, sp);
    Ok(Header { kind, declared, body_start: nul + 1 })
}

} // verus!
