//! Decimal text: turning unsigned and signed machine integers into ASCII
//! digit sequences and reading them back.  The wire header of the protocol
//! is made of four such fields, so both directions carry exact contracts.

use vstd::prelude::*;
use vstd::slice::slice_subrange;

verus! {

/// `b` is an ASCII decimal digit.
pub open spec fn is_digit(b: u8) -> bool {
    48 <= b <= 57
}

/// Every byte of `s` is an ASCII decimal digit.
pub open spec fn all_digits(s: Seq<u8>) -> bool {
    forall|i: int| 0 <= i < s.len() ==> is_digit(#[trigger] s[i])
}

/// The decimal digit bytes of `n`, most significant first.
pub open spec fn dec_bytes(n: nat) -> Seq<u8>
    decreases n,
{
    if n < 10 {
        seq![(48 + n) as u8]
    } else {
        dec_bytes(n / 10).push((48 + n % 10) as u8)
    }
}

/// The decimal digit bytes of a signed value: a leading `'-'` for a
/// negative value, then the digits of its magnitude.
pub open spec fn dec_bytes_signed(n: int) -> Seq<u8> {
    if n < 0 {
        seq![45u8] + dec_bytes((-n) as nat)
    } else {
        dec_bytes(n as nat)
    }
}

/// The numeric value of a sequence of decimal digit bytes.
pub open spec fn dec_val(s: Seq<u8>) -> nat
    decreases s.len(),
{
    if s.len() == 0 {
        0
    } else {
        (dec_val(s.drop_last()) * 10 + s.last() - 48) as nat
    }
}

/// `s` is a well-formed unsigned decimal numeral whose value fits below `bound`.
pub open spec fn dec_ok(s: Seq<u8>, bound: nat) -> bool {
    s.len() > 0 && all_digits(s) && dec_val(s) <= bound
}

/// What `str::parse::<i64>` accepts: an optional sign, then digits, with the
/// value in range.  `None` is a malformed or out-of-range numeral.
pub open spec fn spec_parse_i64(s: Seq<u8>) -> Option<int> {
    if s.len() > 0 && s[0] == 45 {
        if dec_ok(s.drop_first(), 0x8000_0000_0000_0000) {
            Some(-(dec_val(s.drop_first()) as int))
        } else {
            None
        }
    } else if s.len() > 0 && s[0] == 43 {
        if dec_ok(s.drop_first(), i64::MAX as nat) {
            Some(dec_val(s.drop_first()) as int)
        } else {
            None
        }
    } else {
        if dec_ok(s, i64::MAX as nat) {
            Some(dec_val(s) as int)
        } else {
            None
        }
    }
}

/// What `str::parse` accepts for an unsigned type with maximum `bound`:
/// an optional `'+'`, then digits, with the value in range.
pub open spec fn spec_parse_uint(s: Seq<u8>, bound: nat) -> Option<nat> {
    if s.len() > 0 && s[0] == 43 {
        if dec_ok(s.drop_first(), bound) {
            Some(dec_val(s.drop_first()))
        } else {
            None
        }
    } else {
        if dec_ok(s, bound) {
            Some(dec_val(s))
        } else {
            None
        }
    }
}

/// The digits of `n` are digits indeed, there is at least one, and they
/// evaluate back to `n`.
pub proof fn lemma_dec_bytes_val(n: nat)
    ensures
        dec_bytes(n).len() >= 1,
        all_digits(dec_bytes(n)),
        dec_val(dec_bytes(n)) == n,
    decreases n,
{
    if n < 10 {
        let s = dec_bytes(n);
        assert(s.drop_last() =~= Seq::<u8>::empty());
        assert(dec_val(s.drop_last()) == 0);
        assert(dec_val(s) == n);
    } else {
        lemma_dec_bytes_val(n / 10);
        vstd::arithmetic::div_mod::lemma_fundamental_div_mod(n as int, 10);
        let d = dec_bytes(n / 10);
        let b = (48 + n % 10) as u8;
        assert(d.push(b).drop_last() =~= d);
        assert(dec_val(d.push(b)) == dec_val(d) * 10 + b - 48);
    }
}

/// Formatting an unsigned value and reading it back yields the value.
pub proof fn lemma_parse_uint_roundtrip(n: nat, bound: nat)
    requires
        n <= bound,
    ensures
        spec_parse_uint(dec_bytes(n), bound) == Some(n),
{
    lemma_dec_bytes_val(n);
    assert(is_digit(dec_bytes(n)[0]));
    assert(dec_bytes(n)[0] != 43);
}

/// Formatting a signed value and reading it back yields the value.
pub proof fn lemma_parse_i64_roundtrip(v: int)
    requires
        i64::MIN <= v <= i64::MAX,
    ensures
        spec_parse_i64(dec_bytes_signed(v)) == Some(v),
{
    if v < 0 {
        let s = dec_bytes_signed(v);
        lemma_dec_bytes_val((-v) as nat);
        assert(s[0] == 45);
        assert(s.drop_first() =~= dec_bytes((-v) as nat));
        assert(dec_ok(s.drop_first(), 0x8000_0000_0000_0000));
    } else {
        lemma_dec_bytes_val(v as nat);
        assert(is_digit(dec_bytes(v as nat)[0]));
        assert(dec_bytes(v as nat)[0] != 45 && dec_bytes(v as nat)[0] != 43);
    }
}

/// A digit string evaluates to at least the value of any of its prefixes.
proof fn lemma_dec_val_prefix_le(s: Seq<u8>, j: int)
    requires
        0 <= j <= s.len(),
        all_digits(s),
    ensures
        dec_val(s.take(j)) <= dec_val(s),
    decreases s.len() - j,
{
    if j < s.len() {
        let t = s.take(j + 1);
        assert(t.drop_last() =~= s.take(j));
        assert(t.last() == s[j]);
        assert(dec_val(s.take(j)) <= dec_val(s.take(j + 1)));
        lemma_dec_val_prefix_le(s, j + 1);
    } else {
        assert(s.take(j) =~= s);
    }
}

/// Reads an unsigned decimal numeral (digits only, no sign) worth at most
/// `u64::MAX`; anything else is `None`.
pub fn parse_u64_digits(s: &[u8]) -> (r: Option<u64>)
    ensures
        match r {
            Some(v) => dec_ok(s@, u64::MAX as nat) && v == dec_val(s@),
            None => !dec_ok(s@, u64::MAX as nat),
        },
{
    if s.len() == 0 {
        return None;
    }
    let mut acc: u64 = 0;
    let mut i: usize = 0;
    while i < s.len()
        invariant
            0 <= i <= s.len(),
            all_digits(s@.take(i as int)),
            acc == dec_val(s@.take(i as int)),
        decreases s.len() - i,
    {
        let b = s[i];
        if b < 48 || b > 57 {
            assert(!all_digits(s@));
            return None;
        }
        let d = b - 48;
        if acc > (u64::MAX - d as u64) / 10 {
            proof {
                vstd::arithmetic::div_mod::lemma_fundamental_div_mod(
                    (u64::MAX - d) as int,
                    10,
                );
                let t = s@.take(i + 1);
                assert(t.drop_last() =~= s@.take(i as int));
                assert(t.last() == s@[i as int]);
                assert(dec_val(t) > u64::MAX);
                if all_digits(s@) {
                    lemma_dec_val_prefix_le(s@, i + 1);
                }
            }
            return None;
        }
        proof {
            vstd::arithmetic::div_mod::lemma_fundamental_div_mod((u64::MAX - d) as int, 10);
            let t = s@.take(i + 1);
            assert(t.drop_last() =~= s@.take(i as int));
            assert(t.last() == s@[i as int]);
        }
        acc = acc * 10 + d as u64;
        i = i + 1;
    }
    proof {
        assert(s@.take(s@.len() as int) =~= s@);
    }
    Some(acc)
}

/// Reads a signed 64-bit decimal numeral as `str::parse::<i64>` would.
pub fn parse_i64_bytes(s: &[u8]) -> (r: Option<i64>)
    ensures
        match r {
            Some(v) => spec_parse_i64(s@) == Some(v as int),
            None => spec_parse_i64(s@) is None,
        },
{
    if s.len() == 0 {
        return None;
    }
    let first = s[0];
    if first == 45 {
        let rest = slice_drop_first(s);
        match parse_u64_digits(rest) {
            Some(m) => {
                if m > 0x8000_0000_0000_0000u64 {
                    return None;
                }
                if m == 0x8000_0000_0000_0000u64 {
                    Some(i64::MIN)
                } else {
                    Some(-(m as i64))
                }
            },
            None => None,
        }
    } else if first == 43 {
        let rest = slice_drop_first(s);
        match parse_u64_digits(rest) {
            Some(m) => {
                if m > i64::MAX as u64 {
                    None
                } else {
                    Some(m as i64)
                }
            },
            None => None,
        }
    } else {
        match parse_u64_digits(s) {
            Some(m) => {
                if m > i64::MAX as u64 {
                    None
                } else {
                    Some(m as i64)
                }
            },
            None => None,
        }
    }
}

/// Reads an unsigned decimal numeral as `str::parse::<usize>` would.
pub fn parse_usize_bytes(s: &[u8]) -> (r: Option<usize>)
    ensures
        match r {
            Some(v) => spec_parse_uint(s@, usize::MAX as nat) == Some(v as nat),
            None => spec_parse_uint(s@, usize::MAX as nat) is None,
        },
{
    if s.len() > 0 && s[0] == 43 {
        let rest = slice_drop_first(s);
        match parse_u64_digits(rest) {
            Some(m) => {
                if m > usize::MAX as u64 {
                    None
                } else {
                    Some(m as usize)
                }
            },
            None => None,
        }
    } else {
        match parse_u64_digits(s) {
            Some(m) => {
                if m > usize::MAX as u64 {
                    None
                } else {
                    Some(m as usize)
                }
            },
            None => None,
        }
    }
}

/// Reads an unsigned 32-bit decimal numeral as `str::parse::<u32>` would.
pub fn parse_u32_bytes(s: &[u8]) -> (r: Option<u32>)
    ensures
        match r {
            Some(v) => spec_parse_uint(s@, u32::MAX as nat) == Some(v as nat),
            None => spec_parse_uint(s@, u32::MAX as nat) is None,
        },
{
    if s.len() > 0 && s[0] == 43 {
        let rest = slice_drop_first(s);
        match parse_u64_digits(rest) {
            Some(m) => {
                if m > u32::MAX as u64 {
                    None
                } else {
                    Some(m as u32)
                }
            },
            None => None,
        }
    } else {
        match parse_u64_digits(s) {
            Some(m) => {
                if m > u32::MAX as u64 {
                    None
                } else {
                    Some(m as u32)
                }
            },
            None => None,
        }
    }
}

/// All bytes of `s` but the first.
fn slice_drop_first(s: &[u8]) -> (r: &[u8])
    requires
        s@.len() > 0,
    ensures
        r@ == s@.drop_first(),
{
    let r = slice_subrange(s, 1, s.len());
    proof {
        assert(r@ =~= s@.drop_first());
    }
    r
}

/// Writes the digits of `n`, most significant first.
pub fn u64_to_dec(n: u64) -> (v: Vec<u8>)
    ensures
        v@ == dec_bytes(n as nat),
    decreases n,
{
    if n < 10 {
        let mut v: Vec<u8> = Vec::new();
        v.push(48 + n as u8);
        proof {
            assert(v@ =~= dec_bytes(n as nat));
        }
        v
    } else {
        proof {
            vstd::arithmetic::div_mod::lemma_fundamental_div_mod(n as int, 10);
        }
        let mut v = u64_to_dec(n / 10);
        v.push(48 + (n % 10) as u8);
        v
    }
}

/// Writes a signed value: a `'-'` for a negative one, then its magnitude.
pub fn i64_to_dec(n: i64) -> (v: Vec<u8>)
    ensures
        v@ == dec_bytes_signed(n as int),
{
    if n >= 0 {
        u64_to_dec(n as u64)
    } else {
        let mag: u64 = ((-(n + 1)) as u64) + 1;
        let mut v: Vec<u8> = Vec::new();
        v.push(45);
        let mut digits = u64_to_dec(mag);
        let mut j: usize = 0;
        let ghost gd = digits@;
        while j < digits.len()
            invariant
                0 <= j <= digits.len(),
                digits@ == gd,
                v@ == seq![45u8] + gd.take(j as int),
            decreases digits.len() - j,
        {
            let b = digits[j];
            v.push(b);
            proof {
                assert(seq![45u8] + gd.take(j + 1) =~= (seq![45u8] + gd.take(j as int)).push(
                    gd[j as int],
                ));
            }
            j = j + 1;
        }
        proof {
            assert(gd.take(gd.len() as int) =~= gd);
            assert(v@ =~= dec_bytes_signed(n as int));
        }
        v
    }
}

/// Writes the digits of a `usize`, most significant first.
pub fn usize_to_dec(n: usize) -> (v: Vec<u8>)
    ensures
        v@ == dec_bytes(n as nat),
{
    u64_to_dec(n as u64)
}

/// The decimal digits of `n` as text.
pub open spec fn dec_chars(n: nat) -> Seq<char> {
    dec_bytes(n).map_values(|b: u8| b as char)
}

/// Renders `n` in decimal as a string.
pub fn u64_to_string(n: u64) -> (r: String)
    ensures
        r@ == dec_chars(n as nat),
{
    let v = u64_to_dec(n);
    proof {
        lemma_dec_bytes_val(n as nat);
        assert(forall|i: int| 0 <= i < v@.len() ==> v@[i] < 128);
        crate::utils::lemma_ascii_bytes(v@);
    }
    match crate::model::bytes_as_str(v.as_slice()) {
        Some(s) => s.to_owned(),
        None => {
            proof {
                assert(false);
            }
            String::new()
        },
    }
}

} // verus!
