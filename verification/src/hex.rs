//! Hexadecimal presentation of binary digests: the canonical textual form of
//! a digest is lowercase hex, used only at the store's path and command
//! boundaries; the binary form stays canonical everywhere else.
use vstd::prelude::*;

verus! {

/// The lowercase hex digit for a value below 16.
pub open spec fn spec_hex_digit(n: nat) -> u8 {
    if n < 10 {
        (48 + n) as u8
    } else {
        (87 + n) as u8
    }
}

/// The value of a hex digit byte, lower or upper case.
pub open spec fn spec_hex_val(b: u8) -> Option<nat> {
    if 48 <= b <= 57 {
        Some((b - 48) as nat)
    } else if 97 <= b <= 102 {
        Some((b - 87) as nat)
    } else if 65 <= b <= 70 {
        Some((b - 55) as nat)
    } else {
        None
    }
}

/// The lowercase hex rendering of a byte string, two digits per byte.
pub open spec fn spec_to_hex(b: Seq<u8>) -> Seq<u8>
    decreases b.len(),
{
    if b.len() == 0 {
        Seq::empty()
    } else {
        spec_to_hex(b.drop_last()) + seq![
            spec_hex_digit((b.last() / 16) as nat),
            spec_hex_digit((b.last() % 16) as nat),
        ]
    }
}

/// The bytes denoted by a hex string: one byte per digit pair, nothing when
/// the length is odd or a byte is no hex digit.
pub open spec fn spec_from_hex(s: Seq<u8>) -> Option<Seq<u8>>
    decreases s.len(),
{
    if s.len() % 2 != 0 {
        None
    } else if s.len() == 0 {
        Some(Seq::empty())
    } else {
        match spec_from_hex(s.subrange(0, s.len() - 2)) {
            None => None,
            Some(p) => match (spec_hex_val(s[s.len() - 2]), spec_hex_val(s[s.len() - 1])) {
                (Some(hi), Some(lo)) => Some(p.push((hi * 16 + lo) as u8)),
                _ => None,
            },
        }
    }
}

/// Reading back the hex rendering of any byte string recovers it exactly.
pub proof fn lemma_hex_round_trip(b: Seq<u8>)
    ensures
        spec_to_hex(b).len() == 2 * b.len(),
        spec_from_hex(spec_to_hex(b)) == Some(b),
    decreases b.len(),
{
    if b.len() == 0 {
        assert(spec_to_hex(b) =~= Seq::<u8>::empty());
    } else {
        let p = b.drop_last();
        lemma_hex_round_trip(p);
        let s = spec_to_hex(b);
        let x = b.last();
        assert(s =~= spec_to_hex(p) + seq![
            spec_hex_digit((x / 16) as nat),
            spec_hex_digit((x % 16) as nat),
        ]);
        assert(s.subrange(0, s.len() - 2) =~= spec_to_hex(p));
        assert(x / 16 < 16 && x % 16 < 16) by (bit_vector);
        assert(spec_hex_val(s[s.len() - 2]) == Some((x / 16) as nat));
        assert(spec_hex_val(s[s.len() - 1]) == Some((x % 16) as nat));
        assert(x / 16 * 16 + x % 16 == x) by (bit_vector);
        assert(spec_from_hex(s).unwrap() =~= b);
    }
}

/// The hex digit byte for a value below 16.
pub fn hex_digit(n: u8) -> (r: u8)
    requires
        n < 16,
    ensures
        r == spec_hex_digit(n as nat),
{
    if n < 10 {
        48 + n
    } else {
        87 + n
    }
}

/// Renders a byte string as lowercase hex, two digits per byte.
pub fn to_hex(b: &[u8]) -> (r: Vec<u8>)
    ensures
        r@ == spec_to_hex(b@),
{
    let mut r: Vec<u8> = Vec::new();
    let mut i: usize = 0;
    proof {
        assert(b@.subrange(0, 0) =~= Seq::<u8>::empty());
        assert(r@ =~= spec_to_hex(b@.subrange(0, 0)));
    }
    while i < b.len()
        invariant
            i <= b@.len(),
            r@ == spec_to_hex(b@.subrange(0, i as int)),
        decreases b@.len() - i,
    {
        let x = b[i];
        proof {
            let pre = b@.subrange(0, i as int);
            let cur = b@.subrange(0, i + 1 as int);
            assert(cur.drop_last() =~= pre);
            assert(cur.last() == b@[i as int]);
            assert(x / 16 < 16 && x % 16 < 16) by (bit_vector);
        }
        r.push(hex_digit(x / 16));
        r.push(hex_digit(x % 16));
        proof {
            assert(r@ =~= spec_to_hex(b@.subrange(0, i + 1 as int)));
        }
        i = i + 1;
    }
    proof {
        assert(b@.subrange(0, b@.len() as int) =~= b@);
    }
    r
}

/// The value of one hex digit byte.
pub fn hex_val(b: u8) -> (r: Option<u8>)
    ensures
        match r {
            Some(v) => spec_hex_val(b) == Some(v as nat) && v < 16,
            None => spec_hex_val(b) is None,
        },
{
    if 48 <= b && b <= 57 {
        Some(b - 48)
    } else if 97 <= b && b <= 102 {
        Some(b - 87)
    } else if 65 <= b && b <= 70 {
        Some(b - 55)
    } else {
        None
    }
}

/// Reads a hex string back into bytes; nothing when the length is odd or a
/// byte is no hex digit.
pub fn from_hex(s: &[u8]) -> (r: Option<Vec<u8>>)
    ensures
        match r {
            Some(v) => spec_from_hex(s@) == Some(v@),
            None => spec_from_hex(s@) is None,
        },
{
    if s.len() % 2 != 0 {
        return None;
    }
    let mut r: Vec<u8> = Vec::new();
    let mut i: usize = 0;
    proof {
        assert(s@.subrange(0, 0) =~= Seq::<u8>::empty());
    }
    while i < s.len()
        invariant
            i <= s@.len(),
            i % 2 == 0,
            s@.len() % 2 == 0,
            spec_from_hex(s@.subrange(0, i as int)) == Some(r@),
        decreases s@.len() - i,
    {
        let hi = match hex_val(s[i]) {
            Some(v) => v,
            None => {
                proof {
                    lemma_from_hex_bad(s@, i as int);
                }
                return None;
            },
        };
        let lo = match hex_val(s[i + 1]) {
            Some(v) => v,
            None => {
                proof {
                    lemma_from_hex_bad(s@, i + 1);
                }
                return None;
            },
        };
        proof {
            let cur = s@.subrange(0, i + 2 as int);
            assert(cur.subrange(0, cur.len() - 2) =~= s@.subrange(0, i as int));
            assert(cur[cur.len() - 2] == s@[i as int]);
            assert(cur[cur.len() - 1] == s@[i + 1]);
        }
        r.push(hi * 16 + lo);
        i = i + 2;
    }
    proof {
        assert(s@.subrange(0, s@.len() as int) =~= s@);
    }
    Some(r)
}

/// A hex string denotes half as many bytes as it has digits.
pub proof fn lemma_from_hex_len(s: Seq<u8>)
    requires
        spec_from_hex(s) is Some,
    ensures
        spec_from_hex(s).unwrap().len() * 2 == s.len(),
    decreases s.len(),
{
    if s.len() >= 2 {
        lemma_from_hex_len(s.subrange(0, s.len() - 2));
    }
}

/// A hex string of even length with a non-digit byte denotes nothing.
proof fn lemma_from_hex_bad(s: Seq<u8>, j: int)
    requires
        s.len() % 2 == 0,
        0 <= j < s.len(),
        spec_hex_val(s[j]) is None,
    ensures
        spec_from_hex(s) is None,
    decreases s.len(),
{
    if s.len() >= 2 {
        if j < s.len() - 2 {
            let p = s.subrange(0, s.len() - 2);
            assert(p[j] == s[j]);
            lemma_from_hex_bad(p, j);
        }
    }
}

} // verus!
