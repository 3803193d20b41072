//! Unsigned decimal numbers as the mesh format writes them: the header counts
//! and the corner indices of faces.

use vstd::prelude::*;

verus! {

/// `b` is an ASCII decimal digit.
pub open spec fn is_digit(b: u8) -> bool {
    48 <= b <= 57
}

/// Every byte of `s` is a decimal digit.
pub open spec fn all_digits(s: Seq<u8>) -> bool {
    forall|i: int| 0 <= i < s.len() ==> is_digit(#[trigger] s[i])
}

/// The number that the decimal digits `s` denote, most significant first.
pub open spec fn digits_value(s: Seq<u8>) -> nat
    decreases s.len(),
{
    if s.len() == 0 {
        0
    } else {
        digits_value(s.drop_last()) * 10 + (s.last() - 48) as nat
    }
}

/// The number that `s` spells as an unsigned decimal: an optional leading `+`
/// followed by one or more digits, and nothing else (no sign `-`, no spaces).
pub open spec fn decimal_number(s: Seq<u8>) -> Option<nat> {
    let d = if s.len() > 0 && s[0] == 43 {
        s.drop_first()
    } else {
        s
    };
    if d.len() > 0 && all_digits(d) {
        Some(digits_value(d))
    } else {
        None
    }
}

/// What reading `s` as a `usize` gives: its decimal number where it fits.
pub open spec fn usize_text(s: Seq<u8>) -> Option<usize> {
    match decimal_number(s) {
        Some(v) => if v <= usize::MAX {
            Some(v as usize)
        } else {
            None
        },
        None => None,
    }
}

/// What reading `s` as a `u16` gives: its decimal number where it fits.
pub open spec fn u16_text(s: Seq<u8>) -> Option<u16> {
    match decimal_number(s) {
        Some(v) => if v <= 0xffff {
            Some(v as u16)
        } else {
            None
        },
        None => None,
    }
}

/// Appending digits never makes the number smaller.
proof fn lemma_digits_value_prefix(t: Seq<u8>, k: int)
    requires
        all_digits(t),
        0 <= k <= t.len(),
    ensures
        digits_value(t.take(k)) <= digits_value(t),
    decreases t.len(),
{
    if k == t.len() {
        assert(t.take(k) =~= t);
    } else {
        let p = t.drop_last();
        assert(all_digits(p)) by {
            assert forall|i: int| 0 <= i < p.len() implies is_digit(#[trigger] p[i]) by {
                assert(p[i] == t[i]);
            }
        }
        lemma_digits_value_prefix(p, k);
        assert(p.take(k) =~= t.take(k));
    }
}

/// Digits denote a number positionally: a single digit its own value, and
/// digits `d` followed by digits `e` the number `d * 10^|e| + e`.
pub proof fn law_digits_positional(d: Seq<u8>, e: Seq<u8>)
    requires
        all_digits(d),
        all_digits(e),
    ensures
        d.len() == 1 ==> digits_value(d) == d[0] - 48,
        digits_value(d + e) == digits_value(d) * vstd::arithmetic::power::pow(10, e.len()) + digits_value(e),
    decreases e.len(),
{
    if d.len() == 1 {
        assert(d.drop_last() =~= Seq::<u8>::empty());
        assert(digits_value(d.drop_last()) == 0);
        assert(d.last() == d[0]);
        assert(is_digit(d[0]));
    }
    if e.len() == 0 {
        assert(d + e =~= d);
        vstd::arithmetic::power::lemma_pow0(10);
    } else {
        let e2 = e.drop_last();
        assert(all_digits(e2)) by {
            assert forall|i: int| 0 <= i < e2.len() implies is_digit(#[trigger] e2[i]) by {
                assert(e2[i] == e[i]);
            }
        }
        law_digits_positional(d, e2);
        assert((d + e).drop_last() =~= d + e2);
        assert((d + e).last() == e.last());
        vstd::arithmetic::power::lemma_pow_adds(10, e2.len(), 1);
        vstd::arithmetic::power::lemma_pow1(10);
        let p = vstd::arithmetic::power::pow(10, e2.len());
        let v = digits_value(d);
        assert((v * p + digits_value(e2)) * 10 + (e.last() - 48) == v * (p * 10) + (digits_value(e2) * 10 + (
        e.last() - 48))) by (nonlinear_arith);
    }
}

/// Reading unsigned decimals: nothing is read from empty text or text that
/// starts with `-`; a leading `+` changes nothing; digits are read as the
/// number they denote, where it fits.
pub proof fn law_decimal_reading(s: Seq<u8>, d: Seq<u8>)
    requires
        d.len() > 0,
        all_digits(d),
    ensures
        s.len() == 0 ==> usize_text(s) is None && u16_text(s) is None,
        s.len() > 0 && s[0] == 45 ==> usize_text(s) is None && u16_text(s) is None,
        usize_text(seq![43u8] + d) == usize_text(d),
        u16_text(seq![43u8] + d) == u16_text(d),
        digits_value(d) <= usize::MAX <==> usize_text(d) == Some(digits_value(d) as usize),
        digits_value(d) <= 0xffff <==> u16_text(d) == Some(digits_value(d) as u16),
        digits_value(d) > usize::MAX <==> usize_text(d) is None,
        digits_value(d) > 0xffff <==> u16_text(d) is None,
{
    assert((seq![43u8] + d).drop_first() =~= d);
    assert(d[0] != 43);
    if s.len() > 0 && s[0] == 45 {
        if s.len() > 1 {
            let t = s;
            assert(!is_digit(t[0]));
        }
    }
}

/// Reads `s` as an unsigned decimal number that fits in a `usize`.
pub fn parse_usize(s: &[u8]) -> (r: Option<usize>)
    ensures
        r == usize_text(s@),
{
    let len = s.len();
    let start: usize = if len > 0 && s[0] == 43 {
        1
    } else {
        0
    };
    let ghost d = if s@.len() > 0 && s@[0] == 43 {
        s@.drop_first()
    } else {
        s@
    };
    assert(d =~= s@.subrange(start as int, len as int));
    if start == len {
        return None;
    }
    let mut acc: usize = 0;
    let mut i = start;
    assert(s@.subrange(start as int, start as int) =~= Seq::<u8>::empty());
    while i < len
        invariant
            start < len,
            start <= i <= len,
            len == s@.len(),
            d =~= s@.subrange(start as int, len as int),
            d == (if s@.len() > 0 && s@[0] == 43 {
                s@.drop_first()
            } else {
                s@
            }),
            all_digits(s@.subrange(start as int, i as int)),
            acc == digits_value(s@.subrange(start as int, i as int)),
        decreases len - i,
    {
        let b = s[i];
        if b < 48 || b > 57 {
            assert(!is_digit(d[i - start]));
            return None;
        }
        let ghost prev = s@.subrange(start as int, i as int);
        let ghost next = s@.subrange(start as int, i + 1);
        assert(next.drop_last() =~= prev);
        assert(all_digits(next)) by {
            assert forall|j: int| 0 <= j < next.len() implies is_digit(#[trigger] next[j]) by {
                if j < prev.len() {
                    assert(next[j] == prev[j]);
                }
            }
        }
        let step = match acc.checked_mul(10) {
            Some(m) => m.checked_add((b - 48) as usize),
            None => None,
        };
        match step {
            Some(v) => {
                acc = v;
            },
            None => {
                proof {
                    assert(digits_value(next) > usize::MAX);
                    if all_digits(d) {
                        lemma_digits_value_prefix(d, i + 1 - start);
                        assert(d.take(i + 1 - start) =~= next);
                    }
                }
                return None;
            },
        }
        i = i + 1;
    }
    Some(acc)
}

/// Reads `s` as an unsigned decimal number that fits in a `u16`.
pub fn parse_u16(s: &[u8]) -> (r: Option<u16>)
    ensures
        r == u16_text(s@),
{
    match parse_usize(s) {
        Some(v) => if v <= 0xffff {
            Some(v as u16)
        } else {
            None
        },
        None => None,
    }
}

} // verus!
