use vstd::prelude::*;

use crate::error::EscapeError;

verus! {

/// The backslash that opens an escape.
pub const BACKSLASH: u8 = 0x5c;

pub open spec fn is_octal_digit(b: u8) -> bool {
    0x30 <= b <= 0x37
}

/// The byte that the three digits after a backslash stand for, or why there
/// is none; `t` is what follows the backslash. Digits are checked in order,
/// so a bad digit is reported before a missing one.
pub open spec fn escape_code(t: Seq<u8>) -> Result<u8, EscapeError> {
    if t.len() < 1 {
        Err(EscapeError::Truncated)
    } else if !is_octal_digit(t[0]) {
        Err(EscapeError::NotOctal)
    } else if t.len() < 2 {
        Err(EscapeError::Truncated)
    } else if !is_octal_digit(t[1]) {
        Err(EscapeError::NotOctal)
    } else if t.len() < 3 {
        Err(EscapeError::Truncated)
    } else if !is_octal_digit(t[2]) {
        Err(EscapeError::NotOctal)
    } else {
        Ok(
            (((t[0] - 0x30) * 64 + (t[1] - 0x30) * 8 + (t[2] - 0x30)) % 256) as u8,
        )
    }
}

/// `out` followed by the bytes that `r` holds, if it holds any.
pub open spec fn prefixed(out: Seq<u8>, r: Result<Seq<u8>, EscapeError>) -> Result<
    Seq<u8>,
    EscapeError,
> {
    match r {
        Ok(t) => Ok(out + t),
        Err(e) => Err(e),
    }
}

/// The raw bytes that a field stands for: each byte is itself, except that a
/// backslash and three octal digits stand for the byte of that value (taken
/// modulo 256).
pub open spec fn decoded(s: Seq<u8>) -> Result<Seq<u8>, EscapeError>
    decreases s.len(),
{
    if s.len() == 0 {
        Ok(Seq::empty())
    } else if s[0] == BACKSLASH {
        match escape_code(s.subrange(1, s.len() as int)) {
            Ok(b) => prefixed(seq![b], decoded(s.subrange(4, s.len() as int))),
            Err(e) => Err(e),
        }
    } else {
        prefixed(seq![s[0]], decoded(s.subrange(1, s.len() as int)))
    }
}

proof fn lemma_prefixed_join(a: Seq<u8>, b: Seq<u8>, r: Result<Seq<u8>, EscapeError>)
    ensures
        prefixed(a, prefixed(b, r)) == prefixed(a + b, r),
        prefixed(Seq::empty(), r) == r,
{
    match r {
        Ok(t) => {
            assert(a + (b + t) =~= (a + b) + t);
            assert(Seq::<u8>::empty() + t =~= t);
        },
        Err(_) => {},
    }
}

/// Decodes the octal escapes of one field into the raw bytes it stands for.
pub fn decode_value(field: &[u8]) -> (r: Result<Vec<u8>, EscapeError>)
    ensures
        match r {
            Ok(v) => decoded(field@) == Ok::<Seq<u8>, EscapeError>(v@),
            Err(e) => decoded(field@) == Err::<Seq<u8>, EscapeError>(e),
        },
{
    let mut out: Vec<u8> = Vec::new();
    let n = field.len();
    let mut i: usize = 0;
    proof {
        assert(field@.subrange(0, n as int) =~= field@);
        lemma_prefixed_join(out@, out@, decoded(field@));
    }
    while i < n
        invariant
            n == field@.len(),
            i <= n,
            decoded(field@) == prefixed(out@, decoded(field@.subrange(i as int, n as int))),
        decreases n - i,
    {
        let rest = Ghost(field@.subrange(i as int, n as int));
        let b = field[i];
        let ghost old_out = out@;
        if b == BACKSLASH {
            let mut digits: [u8; 3] = [0, 0, 0];
            let mut k: usize = 0;
            while k < 3
                invariant
                    n == field@.len(),
                    i < n,
                    k <= 3,
                    rest@ == field@.subrange(i as int, n as int),
                    rest@[0] == BACKSLASH,
                    out@ == old_out,
                    decoded(field@) == prefixed(out@, decoded(rest@)),
                    i + k < n,
                    forall|j: int| 0 <= j < k ==> digits@[j] == rest@[j + 1],
                    forall|j: int| 0 <= j < k ==> is_octal_digit(#[trigger] rest@[j + 1]),
                decreases 3 - k,
            {
                if i + k + 1 >= n {
                    proof {
                        let t = rest@.subrange(1, rest@.len() as int);
                        assert(t.len() == k);
                        assert(escape_code(t) == Err::<u8, EscapeError>(EscapeError::Truncated));
                        assert(decoded(rest@) == Err::<Seq<u8>, EscapeError>(EscapeError::Truncated));
                    }
                    return Err(EscapeError::Truncated);
                }
                let d = field[i + k + 1];
                if d < 0x30 || d > 0x37 {
                    proof {
                        let t = rest@.subrange(1, rest@.len() as int);
                        assert(t[k as int] == d);
                        assert(escape_code(t) == Err::<u8, EscapeError>(EscapeError::NotOctal));
                        assert(decoded(rest@) == Err::<Seq<u8>, EscapeError>(EscapeError::NotOctal));
                    }
                    return Err(EscapeError::NotOctal);
                }
                digits[k] = d;
                k = k + 1;
            }
            let code: u32 = (digits[0] - 0x30) as u32 * 64 + (digits[1] - 0x30) as u32 * 8
                + (digits[2] - 0x30) as u32;
            out.push((code % 256) as u8);
            proof {
                let t = rest@.subrange(1, rest@.len() as int);
                let tail = field@.subrange(i as int + 4, n as int);
                assert(rest@.subrange(4, rest@.len() as int) =~= tail);
                assert(escape_code(t) == Ok::<u8, EscapeError>((code % 256) as u8));
                assert(decoded(rest@) == prefixed(seq![(code % 256) as u8], decoded(tail)));
                lemma_prefixed_join(old_out, seq![(code % 256) as u8], decoded(tail));
                assert(old_out + seq![(code % 256) as u8] =~= out@);
            }
            i = i + 4;
        } else {
            out.push(b);
            proof {
                let tail = field@.subrange(i as int + 1, n as int);
                assert(rest@.subrange(1, rest@.len() as int) =~= tail);
                lemma_prefixed_join(old_out, seq![b], decoded(tail));
                assert(old_out + seq![b] =~= out@);
            }
            i = i + 1;
        }
    }
    Ok(out)
}

} // verus!

verus! {

/// A byte that stands for itself in every field: printable ASCII other than
/// the backslash.
pub open spec fn is_plain_byte(b: u8) -> bool {
    0x20 <= b <= 0x7e && b != BACKSLASH
}

/// A field made only of printable ASCII bytes other than the backslash
/// decodes to itself.
pub proof fn lemma_plain_field_decodes_to_itself(field: Seq<u8>)
    requires
        forall|i: int| 0 <= i < field.len() ==> is_plain_byte(#[trigger] field[i]),
    ensures
        decoded(field) == Ok::<Seq<u8>, EscapeError>(field),
    decreases field.len(),
{
    if field.len() > 0 {
        let tail = field.subrange(1, field.len() as int);
        assert(is_plain_byte(field[0]));
        assert forall|i: int| 0 <= i < tail.len() implies is_plain_byte(#[trigger] tail[i]) by {
            assert(tail[i] == field[i + 1]);
        }
        lemma_plain_field_decodes_to_itself(tail);
        assert(seq![field[0]] + tail =~= field);
    } else {
        assert(field =~= Seq::<u8>::empty());
    }
}

/// The ASCII digit of an octal digit value.
pub open spec fn octal_digit(v: u8) -> u8 {
    (0x30 + v) as u8
}

/// A backslash followed by the three zero-padded octal digits of a byte
/// decodes to exactly that byte.
pub proof fn lemma_octal_escape_decodes_to_byte(b: u8)
    ensures
        decoded(seq![BACKSLASH, octal_digit(b / 64), octal_digit((b / 8) % 8), octal_digit(b % 8)])
            == Ok::<Seq<u8>, EscapeError>(seq![b]),
{
    let s = seq![BACKSLASH, octal_digit(b / 64), octal_digit((b / 8) % 8), octal_digit(b % 8)];
    let t = s.subrange(1, 4);
    assert(t =~= seq![octal_digit(b / 64), octal_digit((b / 8) % 8), octal_digit(b % 8)]);
    assert((b / 64) * 64 + ((b / 8) % 8) * 8 + b % 8 == b) by (nonlinear_arith);
    assert(escape_code(t) == Ok::<u8, EscapeError>(b));
    assert(s.subrange(4, 4) =~= Seq::<u8>::empty());
    assert(decoded(s.subrange(4, 4)) == Ok::<Seq<u8>, EscapeError>(Seq::empty()));
    assert(seq![b] + Seq::<u8>::empty() =~= seq![b]);
}

/// An escape is broken when fewer than three bytes follow the backslash, or
/// when one of the three that follow is not an octal digit.
pub open spec fn is_broken_escape(t: Seq<u8>) -> bool {
    t.len() < 3 || exists|j: int| 0 <= j < 3 && !is_octal_digit(#[trigger] t[j])
}

/// Decoding fails at the first backslash that opens a broken escape.
pub proof fn lemma_broken_escape_fails(plain: Seq<u8>, t: Seq<u8>)
    requires
        forall|i: int| 0 <= i < plain.len() ==> #[trigger] plain[i] != BACKSLASH,
        is_broken_escape(t),
    ensures
        decoded(plain + seq![BACKSLASH] + t) is Err,
    decreases plain.len(),
{
    let s = plain + seq![BACKSLASH] + t;
    if plain.len() == 0 {
        assert(s.subrange(1, s.len() as int) =~= t);
        assert(escape_code(t) is Err);
    } else {
        let rest = plain.subrange(1, plain.len() as int);
        assert(plain[0] != BACKSLASH);
        lemma_broken_escape_fails(rest, t);
        assert(s.subrange(1, s.len() as int) =~= rest + seq![BACKSLASH] + t);
    }
}

} // verus!
