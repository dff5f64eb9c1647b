//! Byte-level ASCII helpers: decimal integer parsing and rendering, and
//! ASCII case normalization. Everything here is verified; no outside code.
use vstd::prelude::*;

verus! {

/// Byte value of '-'.
pub const MINUS: u8 = 45;

/// Byte value of '+'.
pub const PLUS: u8 = 43;

pub open spec fn is_digit(b: u8) -> bool {
    48 <= b <= 57
}

pub open spec fn all_digits(s: Seq<u8>) -> bool {
    forall|i: int| 0 <= i < s.len() ==> is_digit(#[trigger] s[i])
}

/// Value of a string of decimal digits, most significant first.
pub open spec fn digits_val(s: Seq<u8>) -> int
    recommends
        all_digits(s),
    decreases s.len(),
{
    if s.len() == 0 {
        0
    } else {
        10 * digits_val(s.drop_last()) + (s.last() - 48)
    }
}

/// The digit part of a signed decimal representation: everything after an
/// optional leading '-' or '+'.
pub open spec fn digits_of(s: Seq<u8>) -> Seq<u8> {
    if s.len() > 0 && (s[0] == MINUS || s[0] == PLUS) {
        s.drop_first()
    } else {
        s
    }
}

pub open spec fn is_negative_repr(s: Seq<u8>) -> bool {
    s.len() > 0 && s[0] == MINUS
}

/// The value that `i64::from_str` gives to these bytes: an optional sign,
/// then one or more digits, rejected when empty, non-numeric or out of range.
pub open spec fn spec_parse_i64(s: Seq<u8>) -> Option<i64> {
    let ds = digits_of(s);
    if ds.len() == 0 || !all_digits(ds) {
        None
    } else if is_negative_repr(s) {
        if digits_val(ds) <= 0x8000_0000_0000_0000 {
            Some((-digits_val(ds)) as i64)
        } else {
            None
        }
    } else {
        if digits_val(ds) < 0x8000_0000_0000_0000 {
            Some(digits_val(ds) as i64)
        } else {
            None
        }
    }
}

pub proof fn lemma_digits_val_nonneg(s: Seq<u8>)
    requires
        all_digits(s),
    ensures
        digits_val(s) >= 0,
    decreases s.len(),
{
    if s.len() > 0 {
        assert(all_digits(s.drop_last()));
        lemma_digits_val_nonneg(s.drop_last());
    }
}

/// Extending a digit string on the right can only grow its value.
pub proof fn lemma_digits_val_prefix(s: Seq<u8>, n: int)
    requires
        all_digits(s),
        0 <= n <= s.len(),
    ensures
        digits_val(s.subrange(0, n)) <= digits_val(s),
    decreases s.len(),
{
    if n == s.len() {
        assert(s.subrange(0, n) =~= s);
    } else {
        let t = s.drop_last();
        assert(all_digits(t));
        lemma_digits_val_nonneg(t);
        lemma_digits_val_prefix(t, n);
        assert(t.subrange(0, n) =~= s.subrange(0, n));
        assert(digits_val(s) == 10 * digits_val(t) + (s.last() - 48));
        assert(digits_val(s) >= digits_val(t));
    }
}

/// Parse a signed 64-bit decimal integer, exactly as `spec_parse_i64` says.
pub fn parse_i64(s: &[u8]) -> (r: Option<i64>)
    ensures
        r == spec_parse_i64(s@),
{
    let n: usize = s.len();
    if n == 0 {
        return None;
    }
    let neg: bool = s[0] == MINUS;
    let start: usize = if s[0] == MINUS || s[0] == PLUS {
        1
    } else {
        0
    };
    let ghost ds = digits_of(s@);
    proof {
        assert(ds =~= s@.subrange(start as int, n as int));
    }
    if start == n {
        return None;
    }
    let bound: u128 = if neg {
        0x8000_0000_0000_0000
    } else {
        0x7FFF_FFFF_FFFF_FFFF
    };
    let mut acc: u128 = 0;
    let mut i: usize = start;
    while i < n
        invariant
            start <= i <= n,
            n == s@.len(),
            start < n,
            ds == digits_of(s@),
            ds =~= s@.subrange(start as int, n as int),
            all_digits(s@.subrange(start as int, i as int)),
            acc == digits_val(s@.subrange(start as int, i as int)),
            acc <= bound,
            bound == if neg { 0x8000_0000_0000_0000u128 } else { 0x7FFF_FFFF_FFFF_FFFFu128 },
            neg == is_negative_repr(s@),
        decreases n - i,
    {
        let b: u8 = s[i];
        if b < 48 || b > 57 {
            proof {
                assert(!is_digit(ds[i - start]));
            }
            return None;
        }
        let d: u128 = (b - 48) as u128;
        let acc2: u128 = acc * 10 + d;
        proof {
            assert(s@.subrange(start as int, i + 1).drop_last() =~= s@.subrange(
                start as int,
                i as int,
            ));
            assert(digits_val(s@.subrange(start as int, i + 1)) == 10 * digits_val(
                s@.subrange(start as int, i as int),
            ) + (s@[i as int] - 48));
        }
        if acc2 > bound {
            proof {
                if all_digits(ds) {
                    lemma_digits_val_prefix(ds, i + 1 - start);
                    assert(ds.subrange(0, i + 1 - start) =~= s@.subrange(start as int, i + 1));
                    assert(digits_val(ds) >= acc2);
                }
            }
            return None;
        }
        acc = acc2;
        i = i + 1;
    }
    proof {
        assert(s@.subrange(start as int, i as int) =~= ds);
    }
    if neg {
        if acc == 0x8000_0000_0000_0000 {
            Some(i64::MIN)
        } else {
            Some(-(acc as i64))
        }
    } else {
        Some(acc as i64)
    }
}

/// Decimal digits of a non-negative integer, most significant first,
/// without leading zeros (a single zero for 0).
pub open spec fn dec_bytes(n: int) -> Seq<u8>
    recommends
        n >= 0,
    decreases n,
{
    if n < 10 {
        seq![(48 + n) as u8]
    } else {
        dec_bytes(n / 10).push((48 + n % 10) as u8)
    }
}

/// Decimal digits of `n` decode back to `n`.
pub proof fn lemma_dec_bytes_val(n: int)
    requires
        n >= 0,
    ensures
        all_digits(dec_bytes(n)),
        digits_val(dec_bytes(n)) == n,
        dec_bytes(n).len() >= 1,
        is_digit(dec_bytes(n)[0]),
    decreases n,
{
    if n < 10 {
        assert(digits_val(dec_bytes(n)) == 10 * digits_val(dec_bytes(n).drop_last()) + n);
        assert(dec_bytes(n).drop_last() =~= Seq::<u8>::empty());
    } else {
        lemma_dec_bytes_val(n / 10);
        let s = dec_bytes(n);
        assert(s.drop_last() =~= dec_bytes(n / 10));
        assert(digits_val(s) == 10 * (n / 10) + n % 10);
    }
}

/// Render a `u64` in decimal.
pub fn u64_to_dec(n: u64) -> (v: Vec<u8>)
    ensures
        v@ == dec_bytes(n as int),
    decreases n,
{
    if n < 10 {
        let mut v: Vec<u8> = Vec::new();
        v.push(48 + (n as u8));
        proof {
            assert(v@ =~= dec_bytes(n as int));
        }
        v
    } else {
        let mut v = u64_to_dec(n / 10);
        v.push(48 + ((n % 10) as u8));
        v
    }
}

pub open spec fn spec_upper_byte(b: u8) -> u8 {
    if 97 <= b <= 122 {
        (b - 32) as u8
    } else {
        b
    }
}

/// ASCII uppercase of a byte string; this is how keys and verbs are
/// normalized.
pub open spec fn spec_upper(s: Seq<u8>) -> Seq<u8> {
    s.map_values(|b: u8| spec_upper_byte(b))
}

pub fn to_upper(s: &[u8]) -> (v: Vec<u8>)
    ensures
        v@ == spec_upper(s@),
{
    let n: usize = s.len();
    let mut v: Vec<u8> = Vec::new();
    let mut i: usize = 0;
    while i < n
        invariant
            0 <= i <= n,
            n == s@.len(),
            v@.len() == i,
            forall|j: int| 0 <= j < i ==> v@[j] == spec_upper_byte(#[trigger] s@[j]),
        decreases n - i,
    {
        let b: u8 = s[i];
        if 97 <= b && b <= 122 {
            v.push(b - 32);
        } else {
            v.push(b);
        }
        i = i + 1;
    }
    proof {
        assert(v@ =~= spec_upper(s@));
    }
    v
}

/// Byte-for-byte equality of two byte strings.
pub fn bytes_eq(a: &[u8], b: &[u8]) -> (r: bool)
    ensures
        r <==> a@ == b@,
{
    if a.len() != b.len() {
        return false;
    }
    let n: usize = a.len();
    let mut i: usize = 0;
    while i < n
        invariant
            0 <= i <= n,
            n == a@.len(),
            n == b@.len(),
            forall|j: int| 0 <= j < i ==> a@[j] == b@[j],
        decreases n - i,
    {
        if a[i] != b[i] {
            return false;
        }
        i = i + 1;
    }
    proof {
        assert(a@ =~= b@);
    }
    true
}


/// The value that `u64::from_str` gives to these bytes: an optional '+',
/// then one or more digits, rejected when empty, signed negative,
/// non-numeric or out of range.
pub open spec fn spec_parse_u64(s: Seq<u8>) -> Option<u64> {
    if s.len() > 0 && s[0] == MINUS {
        None
    } else {
        let ds = digits_of(s);
        if ds.len() == 0 || !all_digits(ds) {
            None
        } else if digits_val(ds) <= 0xFFFF_FFFF_FFFF_FFFF {
            Some(digits_val(ds) as u64)
        } else {
            None
        }
    }
}

/// Parse an unsigned 64-bit decimal integer, exactly as `spec_parse_u64` says.
pub fn parse_u64(s: &[u8]) -> (r: Option<u64>)
    ensures
        r == spec_parse_u64(s@),
{
    let n: usize = s.len();
    if n == 0 {
        return None;
    }
    if s[0] == MINUS {
        return None;
    }
    let start: usize = if s[0] == PLUS {
        1
    } else {
        0
    };
    let ghost ds = digits_of(s@);
    proof {
        assert(ds =~= s@.subrange(start as int, n as int));
    }
    if start == n {
        return None;
    }
    let bound: u128 = 0xFFFF_FFFF_FFFF_FFFF;
    let mut acc: u128 = 0;
    let mut i: usize = start;
    while i < n
        invariant
            start <= i <= n,
            n == s@.len(),
            start < n,
            ds == digits_of(s@),
            ds =~= s@.subrange(start as int, n as int),
            all_digits(s@.subrange(start as int, i as int)),
            acc == digits_val(s@.subrange(start as int, i as int)),
            acc <= bound,
            bound == 0xFFFF_FFFF_FFFF_FFFFu128,
        decreases n - i,
    {
        let b: u8 = s[i];
        if b < 48 || b > 57 {
            proof {
                assert(!is_digit(ds[i - start]));
            }
            return None;
        }
        let d: u128 = (b - 48) as u128;
        let acc2: u128 = acc * 10 + d;
        proof {
            assert(s@.subrange(start as int, i + 1).drop_last() =~= s@.subrange(
                start as int,
                i as int,
            ));
            assert(digits_val(s@.subrange(start as int, i + 1)) == 10 * digits_val(
                s@.subrange(start as int, i as int),
            ) + (s@[i as int] - 48));
        }
        if acc2 > bound {
            proof {
                if all_digits(ds) {
                    lemma_digits_val_prefix(ds, i + 1 - start);
                    assert(ds.subrange(0, i + 1 - start) =~= s@.subrange(start as int, i + 1));
                    assert(digits_val(ds) >= acc2);
                }
            }
            return None;
        }
        acc = acc2;
        i = i + 1;
    }
    proof {
        assert(s@.subrange(start as int, i as int) =~= ds);
    }
    Some(acc as u64)
}

/// Copy a byte vector.
pub fn clone_bytes(v: &Vec<u8>) -> (r: Vec<u8>)
    ensures
        r@ == v@,
{
    let n: usize = v.len();
    let mut r: Vec<u8> = Vec::new();
    let mut i: usize = 0;
    while i < n
        invariant
            0 <= i <= n,
            n == v@.len(),
            r@ == v@.subrange(0, i as int),
        decreases n - i,
    {
        r.push(v[i]);
        proof {
            assert(r@ =~= v@.subrange(0, i + 1));
        }
        i = i + 1;
    }
    proof {
        assert(v@.subrange(0, n as int) =~= v@);
    }
    r
}

} // verus!
