//! Content digests. The 20-byte binary form is canonical in memory and on
//! disk; hex is produced only at presentation boundaries.
use vstd::prelude::*;

use crate::bytes_util;
use crate::hex;

verus! {

/// The digest that the SHA-1 hash function returns for a byte string. The
/// function is deterministic and order-sensitive; its value is fixed by the
/// input bytes alone.
pub uninterp spec fn sha1_of(data: Seq<u8>) -> Seq<u8>;

/// Relies on crypto's `Sha1` through `crypto::digest::Digest::input` and
/// `result`: a 160-bit (20-byte) digest computed from the input bytes alone.
#[verifier::external_body]
pub(crate) fn sha1_bytes(data: &[u8]) -> (r: Vec<u8>)
    ensures
        r@ == sha1_of(data@),
        r@.len() == 20,
{
    let mut h = crypto::sha1::Sha1::new();
    crypto::digest::Digest::input(&mut h, data);
    let mut out = [0u8; 20];
    crypto::digest::Digest::result(&mut h, &mut out);
    out.to_vec()
}

/// Copies a byte vector.
pub fn clone_bytes(v: &Vec<u8>) -> (r: Vec<u8>)
    ensures
        r@ == v@,
{
    let mut r: Vec<u8> = Vec::new();
    let mut i: usize = 0;
    while i < v.len()
        invariant
            i <= v@.len(),
            r@ == v@.subrange(0, i as int),
        decreases v@.len() - i,
    {
        r.push(v[i]);
        proof {
            assert(r@ =~= v@.subrange(0, i + 1 as int));
        }
        i = i + 1;
    }
    proof {
        assert(v@.subrange(0, v@.len() as int) =~= v@);
    }
    r
}

/// A 20-byte binary content digest.
#[derive(Debug)]
pub struct Digest {
    pub bytes: Vec<u8>,
}

impl View for Digest {
    type V = Seq<u8>;

    open spec fn view(&self) -> Seq<u8> {
        self.bytes@
    }
}

impl PartialEq for Digest {
    fn eq(&self, other: &Digest) -> (r: bool) {
        bytes_util::bytes_eq(self.bytes.as_slice(), other.bytes.as_slice())
    }
}

impl vstd::std_specs::cmp::PartialEqSpecImpl for Digest {
    open spec fn obeys_eq_spec() -> bool {
        true
    }

    open spec fn eq_spec(&self, other: &Digest) -> bool {
        self.bytes@ == other.bytes@
    }
}

impl Clone for Digest {
    fn clone(&self) -> (r: Self)
        ensures
            r@ == self@,
    {
        Digest { bytes: clone_bytes(&self.bytes) }
    }
}

impl Digest {
    /// A digest holds exactly twenty bytes.
    pub open spec fn wf(&self) -> bool {
        self.bytes@.len() == 20
    }

    /// Wraps twenty raw bytes as a digest.
    pub fn from_bytes(bytes: Vec<u8>) -> (r: Digest)
        requires
            bytes@.len() == 20,
        ensures
            r.wf(),
            r@ == bytes@,
    {
        Digest { bytes }
    }

    /// The canonical textual form: forty lowercase hex digits.
    pub fn to_hex(&self) -> (r: Vec<u8>)
        ensures
            r@ == hex::spec_to_hex(self@),
            self.wf() ==> r@.len() == 40,
    {
        proof {
            hex::lemma_hex_round_trip(self@);
        }
        hex::to_hex(self.bytes.as_slice())
    }

    /// Where an object with this digest lives under a store root: the first
    /// two hex digits name the subdirectory, the remaining thirty-eight name
    /// the file.
    pub fn path_parts(&self) -> (r: (Vec<u8>, Vec<u8>))
        requires
            self.wf(),
        ensures
            r.0@ == hex::spec_to_hex(self@).subrange(0, 2),
            r.1@ == hex::spec_to_hex(self@).subrange(2, 40),
    {
        proof {
            hex::lemma_hex_round_trip(self@);
        }
        let h = self.to_hex();
        let dir = bytes_util::bytes_subrange(h.as_slice(), 0, 2);
        let file = bytes_util::bytes_subrange(h.as_slice(), 2, 40);
        (dir, file)
    }

    /// Reads a digest from its forty-hex-digit textual form.
    pub fn from_hex(s: &[u8]) -> (r: Option<Digest>)
        ensures
            match r {
                Some(d) => s@.len() == 40 && hex::spec_from_hex(s@) == Some(d@) && d.wf(),
                None => s@.len() != 40 || hex::spec_from_hex(s@) is None,
            },
    {
        if s.len() != 40 {
            return None;
        }
        match hex::from_hex(s) {
            Some(v) => {
                proof {
                    hex::lemma_from_hex_len(s@);
                }
                Some(Digest { bytes: v })
            },
            None => None,
        }
    }
}

/// The content digest of a framed byte buffer.
pub fn digest(framed: &[u8]) -> (r: Digest)
    ensures
        r@ == sha1_of(framed@),
        r.wf(),
{
    Digest { bytes: sha1_bytes(framed) }
}

} // verus!
