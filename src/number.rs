use vstd::prelude::*;

use crate::error::NumberError;

verus! {

pub open spec fn is_digit(b: u8) -> bool {
    0x30 <= b <= 0x39
}

/// One or more decimal digits.
pub open spec fn all_digits(s: Seq<u8>) -> bool {
    s.len() > 0 && forall|i: int| 0 <= i < s.len() ==> is_digit(#[trigger] s[i])
}

/// The value of a run of decimal digits.
pub open spec fn digits_value(s: Seq<u8>) -> nat
    decreases s.len(),
{
    if s.len() == 0 {
        0
    } else {
        digits_value(s.drop_last()) * 10 + (s.last() - 0x30) as nat
    }
}

/// The integer that `s` writes: decimal digits after an optional `+`, or,
/// where `signed` holds, after an optional `-`.
pub open spec fn int_value(s: Seq<u8>, signed: bool) -> Option<int> {
    if s.len() > 0 && s[0] == 0x2b && all_digits(s.drop_first()) {
        Some(digits_value(s.drop_first()) as int)
    } else if signed && s.len() > 0 && s[0] == 0x2d && all_digits(s.drop_first()) {
        Some(-digits_value(s.drop_first()))
    } else if all_digits(s) {
        Some(digits_value(s) as int)
    } else {
        None
    }
}

/// The number that `s` writes, if it lies in `lo..=hi`.
pub open spec fn number_in(s: Seq<u8>, signed: bool, lo: int, hi: int) -> Result<int, NumberError> {
    match int_value(s, signed) {
        None => Err(NumberError::Malformed),
        Some(v) => if lo <= v <= hi {
            Ok(v)
        } else {
            Err(NumberError::OutOfRange)
        },
    }
}

/// Above every bound that callers pass.
pub const LIMIT: u128 = 0x1_0000_0000_0000_0000;

/// Reads the decimal digits of `s` from `start` on; the value, or `None`
/// where one is not a digit. Past `LIMIT` the value is only known to be big.
fn read_digits(s: &[u8], start: usize) -> (r: Option<(u128, bool)>)
    requires
        start <= s@.len(),
    ensures
        match r {
            Some((v, big)) => {
                &&& all_digits(s@.subrange(start as int, s@.len() as int))
                &&& big ==> digits_value(s@.subrange(start as int, s@.len() as int)) > LIMIT
                &&& !big ==> v == digits_value(s@.subrange(start as int, s@.len() as int))
            },
            None => !all_digits(s@.subrange(start as int, s@.len() as int)),
        },
{
    let n = s.len();
    if start == n {
        return None;
    }
    let mut v: u128 = 0;
    let mut big = false;
    let mut i: usize = start;
    while i < n
        invariant
            n == s@.len(),
            start < n,
            start <= i <= n,
            forall|k: int| start <= k < i ==> is_digit(#[trigger] s@[k]),
            big ==> digits_value(s@.subrange(start as int, i as int)) > LIMIT,
            !big ==> v == digits_value(s@.subrange(start as int, i as int)),
            !big ==> v <= LIMIT,
        decreases n - i,
    {
        let b = s[i];
        if b < 0x30 || b > 0x39 {
            proof {
                let t = s@.subrange(start as int, n as int);
                assert(t[i - start] == b);
            }
            return None;
        }
        proof {
            let p = s@.subrange(start as int, i as int + 1);
            assert(p.drop_last() =~= s@.subrange(start as int, i as int));
            assert(p.last() == b);
        }
        if !big {
            v = v * 10 + (b - 0x30) as u128;
            if v > LIMIT {
                big = true;
            }
        }
        i = i + 1;
    }
    proof {
        let t = s@.subrange(start as int, n as int);
        assert forall|k: int| 0 <= k < t.len() implies is_digit(#[trigger] t[k]) by {
            assert(t[k] == s@[start + k]);
        }
    }
    Some((v, big))
}

/// Reads the number that `s` writes, as `number_in` describes.
pub fn parse_number(s: &[u8], signed: bool, lo: i128, hi: i128) -> (r: Result<i128, NumberError>)
    requires
        lo <= 0 <= hi,
        hi < LIMIT,
        -lo < LIMIT,
    ensures
        match r {
            Ok(v) => number_in(s@, signed, lo as int, hi as int) == Ok::<int, NumberError>(v as int),
            Err(e) => number_in(s@, signed, lo as int, hi as int) == Err::<int, NumberError>(e),
        },
{
    let n = s.len();
    let neg = n > 0 && s[0] == 0x2d && signed;
    let start: usize = if n > 0 && (s[0] == 0x2b || neg) { 1 } else { 0 };
    proof {
        assert(s@.subrange(0, n as int) =~= s@);
        assert(s@.drop_first() =~= s@.subrange(1, n as int));
    }
    match read_digits(s, start) {
        None => {
            proof {
                if start == 0 && n > 0 {
                    assert(!all_digits(s@));
                    assert(s@[0] != 0x2b);
                    if s@[0] == 0x2d {
                        assert(!is_digit(s@[0]));
                    }
                }
            }
            Err(NumberError::Malformed)
        },
        Some((v, big)) => {
            proof {
                if start == 0 {
                    assert(s@[0] != 0x2b);
                    assert(is_digit(s@[0]));
                }
            }
            if big {
                Err(NumberError::OutOfRange)
            } else if neg {
                if v > (-lo) as u128 {
                    Err(NumberError::OutOfRange)
                } else {
                    Ok(-(v as i128))
                }
            } else if v > hi as u128 {
                Err(NumberError::OutOfRange)
            } else {
                Ok(v as i128)
            }
        },
    }
}

} // verus!
