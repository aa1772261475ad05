//! Decimal rendering and parsing of object sizes.

use vstd::prelude::*;
use vstd::arithmetic::div_mod::lemma_fundamental_div_mod;

verus! {

/// The decimal digits of `n`, most significant first, as ASCII bytes.
pub open spec fn dec_digits(n: nat) -> Seq<u8>
    decreases n,
{
    if n < 10 {
        seq![(48 + n) as u8]
    } else {
        dec_digits(n / 10) + seq![(48 + n % 10) as u8]
    }
}

/// The numeric value of a digit string (garbage on non-digit bytes).
pub open spec fn digits_val(s: Seq<u8>) -> int
    decreases s.len(),
{
    if s.len() == 0 {
        0
    } else {
        digits_val(s.drop_last()) * 10 + (s.last() - 48)
    }
}

pub open spec fn is_digit(b: u8) -> bool {
    48 <= b <= 57
}

pub open spec fn all_digits(s: Seq<u8>) -> bool {
    forall|i: int| 0 <= i < s.len() ==> is_digit(#[trigger] s[i])
}

/// The digit part of a size token: a single leading `+` is tolerated, as the
/// decimal parser of the surrounding ecosystem tolerates it.
pub open spec fn size_digits(s: Seq<u8>) -> Seq<u8> {
    if s.len() > 0 && s[0] == 43 {
        s.skip(1)
    } else {
        s
    }
}

/// A size token parses when its digit part is nonempty, all digits, and in
/// range of `u64`.
pub open spec fn valid_size_token(s: Seq<u8>) -> bool {
    let d = size_digits(s);
    d.len() > 0 && all_digits(d) && digits_val(d) <= u64::MAX
}

/// Every byte of a rendered number is a decimal digit, and there is at least
/// one.
pub proof fn lemma_dec_digits_shape(n: nat)
    ensures
        dec_digits(n).len() >= 1,
        all_digits(dec_digits(n)),
    decreases n,
{
    if n >= 10 {
        lemma_dec_digits_shape(n / 10);
    }
}

/// Rendering then evaluating a number gives the number back.
pub proof fn lemma_digits_val_dec_digits(n: nat)
    ensures
        digits_val(dec_digits(n)) == n,
    decreases n,
{
    if n < 10 {
        let s = dec_digits(n);
        assert(s.drop_last() =~= Seq::<u8>::empty());
        assert((48 + n) as u8 == 48 + n);
        assert(digits_val(s) == digits_val(s.drop_last()) * 10 + (s.last() - 48));
    } else {
        lemma_digits_val_dec_digits(n / 10);
        let s = dec_digits(n);
        assert(s.drop_last() =~= dec_digits(n / 10));
        assert(s.last() == (48 + n % 10) as u8);
        assert((48 + n % 10) as u8 == 48 + n % 10);
        assert(digits_val(s) == digits_val(dec_digits(n / 10)) * 10 + (n % 10));
        lemma_fundamental_div_mod(n as int, 10);
    }
}

/// The value of a digit string is nonnegative.
pub proof fn lemma_digits_val_nonneg(s: Seq<u8>)
    requires
        all_digits(s),
    ensures
        digits_val(s) >= 0,
    decreases s.len(),
{
    if s.len() > 0 {
        assert(all_digits(s.drop_last())) by {
            assert(forall|i: int| 0 <= i < s.len() - 1 ==> s.drop_last()[i] == s[i]);
        }
        lemma_digits_val_nonneg(s.drop_last());
    }
}

/// A digit string is worth at least any of its prefixes.
pub proof fn lemma_digits_val_prefix_le(s: Seq<u8>, k: int)
    requires
        all_digits(s),
        0 <= k <= s.len(),
    ensures
        digits_val(s.take(k)) <= digits_val(s),
    decreases s.len() - k,
{
    if k < s.len() {
        let t = s.take(k + 1);
        assert(t.drop_last() =~= s.take(k));
        assert(all_digits(t)) by {
            assert(forall|i: int| 0 <= i < t.len() ==> t[i] == s[i]);
        }
        assert(all_digits(s.take(k))) by {
            assert(forall|i: int| 0 <= i < k ==> s.take(k)[i] == s[i]);
        }
        lemma_digits_val_nonneg(s.take(k));
        assert(digits_val(t) == digits_val(s.take(k)) * 10 + (t.last() - 48));
        assert(t.last() == s[k]);
        assert(digits_val(s.take(k)) <= digits_val(t)) by {
            assert(digits_val(s.take(k)) * 10 >= digits_val(s.take(k)))
                by (nonlinear_arith)
                requires digits_val(s.take(k)) >= 0;
        }
        lemma_digits_val_prefix_le(s, k + 1);
    } else {
        assert(s.take(k) =~= s);
    }
}

/// Render a number as decimal ASCII digits.
pub fn u64_to_decimal(n: u64) -> (r: Vec<u8>)
    ensures
        r@ == dec_digits(n as nat),
    decreases n,
{
    if n < 10 {
        let mut v: Vec<u8> = Vec::new();
        v.push(48 + n as u8);
        proof {
            assert(v@ =~= dec_digits(n as nat));
        }
        v
    } else {
        let mut v = u64_to_decimal(n / 10);
        v.push(48 + (n % 10) as u8);
        proof {
            assert(v@ =~= dec_digits(n as nat));
        }
        v
    }
}

/// Parse a size token. Returns the value exactly when the token is a valid
/// decimal number (one leading `+` tolerated) that fits in a `u64`.
pub fn parse_decimal(tok: &Vec<u8>) -> (r: Option<u64>)
    ensures
        valid_size_token(tok@) ==> r == Some(digits_val(size_digits(tok@)) as u64),
        !valid_size_token(tok@) ==> r is None,
{
    let ghost d = size_digits(tok@);
    let start: usize = if tok.len() > 0 && tok[0] == 43 {
        1
    } else {
        0
    };
    proof {
        assert(d =~= tok@.skip(start as int));
    }
    if start >= tok.len() {
        // the digit part is empty
        return None;
    }
    let mut acc: u64 = 0;
    let mut i: usize = start;
    while i < tok.len()
        invariant
            start <= i <= tok@.len(),
            d == size_digits(tok@),
            d == tok@.skip(start as int),
            d.len() == tok@.len() - start,
            all_digits(d.take(i - start as int)),
            acc == digits_val(d.take(i - start as int)),
        decreases tok@.len() - i,
    {
        let b = tok[i];
        proof {
            assert(d[i - start as int] == tok@[i as int]);
        }
        if b < 48 || b > 57 {
            // a non-digit byte: the token is invalid
            assert(!all_digits(d));
            return None;
        }
        let dig = (b - 48) as u64;
        let stepped = match acc.checked_mul(10) {
            Some(m) => m.checked_add(dig),
            None => None,
        };
        proof {
            let p = d.take(i - start as int);
            let q = d.take(i + 1 - start as int);
            assert(q.drop_last() =~= p);
            assert(q.last() == d[i - start as int]);
            assert(digits_val(q) == acc * 10 + dig);
            assert(all_digits(q)) by {
                assert(forall|j: int| 0 <= j < q.len() ==> q[j] == d[j]);
            }
        }
        match stepped {
            Some(next) => {
                acc = next;
            }
            None => {
                // the value overflows u64: the token cannot be valid, whether
                // or not the remaining bytes are digits
                proof {
                    if all_digits(d) {
                        lemma_digits_val_prefix_le(d, i + 1 - start as int);
                    }
                }
                return None;
            }
        }
        i += 1;
    }
    proof {
        assert(d.take(i - start as int) =~= d);
    }
    Some(acc)
}

} // verus!
