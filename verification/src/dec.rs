//! The decimal length field of an object header: rendering a length as ASCII
//! digits without leading zeros, and reading such a field back.
use vstd::prelude::*;

verus! {

/// An ASCII decimal digit.
pub open spec fn is_digit(b: u8) -> bool {
    48 <= b <= 57
}

/// Every byte of `s` is an ASCII digit.
pub open spec fn all_digits(s: Seq<u8>) -> bool {
    forall|j: int| 0 <= j < s.len() ==> is_digit(#[trigger] s[j])
}

/// The decimal digits of `n`, most significant first, without leading zeros.
pub open spec fn spec_dec_digits(n: nat) -> Seq<u8>
    decreases n,
{
    if n < 10 {
        seq![(48 + n) as u8]
    } else {
        spec_dec_digits(n / 10).push((48 + n % 10) as u8)
    }
}

/// The numeric value of a digit string, most significant first.
pub open spec fn dec_value(s: Seq<u8>) -> nat
    decreases s.len(),
{
    if s.len() == 0 {
        0
    } else {
        dec_value(s.drop_last()) * 10 + (if s.last() >= 48 {
            (s.last() - 48) as nat
        } else {
            0
        })
    }
}

/// What a decimal length field denotes: its value when it is a nonempty run
/// of digits, nothing otherwise.
pub open spec fn spec_parse_dec(s: Seq<u8>) -> Option<nat> {
    if s.len() > 0 && all_digits(s) {
        Some(dec_value(s))
    } else {
        None
    }
}

/// The rendering of any number is a nonempty digit string without a leading
/// zero (unless it is the single digit zero), and parses back to that number.
pub proof fn lemma_dec_digits_ok(n: nat)
    ensures
        spec_dec_digits(n).len() >= 1,
        all_digits(spec_dec_digits(n)),
        spec_dec_digits(n).len() > 1 ==> spec_dec_digits(n)[0] != 48,
        n >= 1 ==> spec_dec_digits(n)[0] != 48,
        spec_parse_dec(spec_dec_digits(n)) == Some(n),
    decreases n,
{
    if n < 10 {
        let s = spec_dec_digits(n);
        assert(s.drop_last() =~= Seq::<u8>::empty());
        assert(dec_value(Seq::<u8>::empty()) == 0);
        assert(dec_value(s) == n);
    } else {
        lemma_dec_digits_ok(n / 10);
        let s = spec_dec_digits(n);
        let p = spec_dec_digits(n / 10);
        assert(s.drop_last() =~= p);
        assert(dec_value(s) == dec_value(p) * 10 + n % 10);
        assert(n / 10 * 10 + n % 10 == n) by (nonlinear_arith);
        assert(n / 10 >= 1) by (nonlinear_arith)
            requires
                n >= 10,
        ;
        assert(s[0] == p[0]);
    }
}

/// A nonempty digit string without a leading zero is exactly the rendering of
/// its value: reading and re-rendering a canonical length field is identity.
pub proof fn lemma_dec_canonical(s: Seq<u8>)
    requires
        s.len() >= 1,
        all_digits(s),
        s.len() > 1 ==> s[0] != 48,
    ensures
        spec_dec_digits(dec_value(s)) == s,
    decreases s.len(),
{
    if s.len() == 1 {
        assert(s.drop_last() =~= Seq::<u8>::empty());
        assert(dec_value(Seq::<u8>::empty()) == 0);
        assert(dec_value(s) == (s[0] - 48) as nat);
        assert(spec_dec_digits(dec_value(s)) =~= s);
    } else {
        let p = s.drop_last();
        let v = dec_value(s);
        let d = (s.last() - 48) as nat;
        lemma_dec_canonical(p);
        lemma_dec_value_pos(p);
        assert(v == dec_value(p) * 10 + d);
        assert(dec_value(p) >= 1);
        assert(v >= 10 && v / 10 == dec_value(p) && v % 10 == d) by (nonlinear_arith)
            requires
                v == dec_value(p) * 10 + d,
                dec_value(p) >= 1,
                d < 10,
        ;
        assert(spec_dec_digits(v) =~= s);
    }
}

/// A digit string with a nonzero leading digit has a positive value.
proof fn lemma_dec_value_pos(s: Seq<u8>)
    requires
        s.len() >= 1,
        all_digits(s),
        s[0] != 48,
    ensures
        dec_value(s) >= 1,
    decreases s.len(),
{
    if s.len() > 1 {
        lemma_dec_value_pos(s.drop_last());
    }
}

/// Renders `n` as decimal digits, most significant first, no leading zeros.
pub fn dec_encode(n: usize) -> (r: Vec<u8>)
    ensures
        r@ == spec_dec_digits(n as nat),
    decreases n,
{
    if n < 10 {
        let mut v: Vec<u8> = Vec::new();
        v.push(48 + n as u8);
        proof {
            assert(v@ =~= spec_dec_digits(n as nat));
        }
        v
    } else {
        let mut v = dec_encode(n / 10);
        v.push(48 + (n % 10) as u8);
        v
    }
}

/// The outcome of reading a decimal length field.
pub enum DecParse {
    /// A nonempty digit run whose value fits the machine.
    Val(usize),
    /// A nonempty digit run whose value exceeds what the machine can hold.
    TooBig,
    /// Empty, or holding a byte that is no digit.
    Invalid,
}

/// Reads a decimal length field.
pub fn dec_parse(s: &[u8]) -> (r: DecParse)
    ensures
        match r {
            DecParse::Val(v) => spec_parse_dec(s@) == Some(v as nat),
            DecParse::TooBig => spec_parse_dec(s@) matches Some(v) && v > usize::MAX,
            DecParse::Invalid => spec_parse_dec(s@) is None,
        },
{
    if s.len() == 0 {
        return DecParse::Invalid;
    }
    let mut acc: usize = 0;
    let mut too_big: bool = false;
    let mut i: usize = 0;
    while i < s.len()
        invariant
            0 < s@.len(),
            i <= s@.len(),
            all_digits(s@.subrange(0, i as int)),
            !too_big ==> acc as nat == dec_value(s@.subrange(0, i as int)),
            too_big ==> dec_value(s@.subrange(0, i as int)) > usize::MAX,
        decreases s@.len() - i,
    {
        let b = s[i];
        if b < 48 || b > 57 {
            proof {
                assert(!is_digit(s@[i as int]));
            }
            return DecParse::Invalid;
        }
        let d = b - 48;
        proof {
            assert(s@.subrange(0, i + 1 as int) =~= s@.subrange(0, i as int).push(s@[i as int]));
            assert(s@.subrange(0, i + 1 as int).drop_last() =~= s@.subrange(0, i as int));
        }
        if too_big || acc > (usize::MAX - d as usize) / 10 {
            proof {
                let prev = dec_value(s@.subrange(0, i as int));
                let next = dec_value(s@.subrange(0, i + 1 as int));
                assert(next == prev * 10 + d);
                if !too_big {
                    assert(acc > (usize::MAX - d as usize) / 10);
                    assert(acc * 10 + d > usize::MAX) by (nonlinear_arith)
                        requires
                            acc > (usize::MAX - d as usize) / 10,
                            d < 10,
                            acc >= 0,
                    ;
                } else {
                    assert(prev * 10 + d >= prev) by (nonlinear_arith)
                        requires
                            prev >= 0,
                            d >= 0,
                    ;
                }
            }
            too_big = true;
        } else {
            proof {
                assert(acc <= (usize::MAX - d as usize) / 10);
                assert(acc * 10 + d <= usize::MAX) by (nonlinear_arith)
                    requires
                        acc <= (usize::MAX - d as usize) / 10,
                        d < 10,
                        acc >= 0,
                ;
            }
            acc = acc * 10 + d as usize;
        }
        i = i + 1;
    }
    proof {
        assert(s@.subrange(0, s@.len() as int) =~= s@);
    }
    if too_big {
        DecParse::TooBig
    } else {
        DecParse::Val(acc)
    }
}

} // verus!
