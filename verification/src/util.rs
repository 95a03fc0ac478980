//! Small parsers and formatters shared by the modules.

use vstd::prelude::*;

verus! {

/// The value of a non-empty string of ASCII decimal digits, or None.
pub open spec fn spec_parse_decimal(s: Seq<u8>) -> Option<int>
    decreases s.len(),
{
    if s.len() == 0 {
        None
    } else {
        let d = s.last();
        if !(48u8 <= d <= 57u8) {
            None
        } else if s.len() == 1 {
            Some(d - 48)
        } else {
            match spec_parse_decimal(s.drop_last()) {
                Some(v) => Some(v * 10 + (d - 48)),
                None => None,
            }
        }
    }
}

/// Parses a non-empty string of ASCII decimal digits into a `usize`; None
/// when it is empty, holds another byte or does not fit.
pub fn parse_decimal_usize(s: &[u8]) -> (r: Option<usize>)
    ensures
        r matches Some(v) ==> spec_parse_decimal(s@) == Some(v as int),
        spec_parse_decimal(s@) matches Some(v) ==> (v <= usize::MAX ==> r == Some(v as usize)),
{
    if s.len() == 0 {
        return None;
    }
    let mut v: usize = 0;
    let mut i: usize = 0;
    while i < s.len()
        invariant
            0 <= i <= s@.len(),
            s@.len() > 0,
            i > 0 ==> spec_parse_decimal(s@.take(i as int)) == Some(v as int),
            i == 0 ==> v == 0,
        decreases s.len() - i,
    {
        let d = s[i];
        proof {
            assert(s@.take(i + 1).drop_last() =~= s@.take(i as int));
            assert(s@.take(i + 1).last() == d);
        }
        if d < 48u8 || d > 57u8 {
            proof {
                lemma_parse_prefix_none(s@, i as int);
            }
            return None;
        }
        let digit = (d - 48u8) as usize;
        let nv = match v.checked_mul(10) {
            Some(m) => m.checked_add(digit),
            None => None,
        };
        match nv {
            Some(n) => {
                v = n;
            },
            None => {
                proof {
                    lemma_parse_prefix_grows(s@, (i + 1) as int);
                    if i > 0 {
                        assert(spec_parse_decimal(s@.take(i + 1)) == Some(v * 10 + (d - 48)));
                    }
                }
                return None;
            },
        }
        i += 1;
    }
    assert(s@.take(s@.len() as int) =~= s@);
    Some(v)
}

proof fn lemma_parse_prefix_none(s: Seq<u8>, i: int)
    requires
        0 <= i < s.len(),
        !(48u8 <= s[i] <= 57u8),
    ensures
        spec_parse_decimal(s) is None,
    decreases s.len(),
{
    if i < s.len() - 1 {
        assert(s.drop_last()[i] == s[i]);
        lemma_parse_prefix_none(s.drop_last(), i);
    }
}

proof fn lemma_parse_nonneg(s: Seq<u8>)
    ensures
        spec_parse_decimal(s) matches Some(v) ==> v >= 0,
    decreases s.len(),
{
    if s.len() > 1 {
        lemma_parse_nonneg(s.drop_last());
    }
}

proof fn lemma_parse_prefix_grows(s: Seq<u8>, k: int)
    requires
        1 <= k <= s.len(),
    ensures
        spec_parse_decimal(s) matches Some(v) ==> (spec_parse_decimal(s.take(k)) matches Some(w) && w <= v),
    decreases s.len() - k,
{
    if k == s.len() {
        assert(s.take(k) =~= s);
    } else {
        if spec_parse_decimal(s) is Some {
            assert(s.len() > 1);
            lemma_parse_prefix_grows(s.drop_last(), k);
            lemma_parse_nonneg(s.drop_last());
            assert(s.drop_last().take(k) =~= s.take(k));
        }
    }
}

/// `s` read as a `usize` the way the standard library's `str::parse` reads
/// one: an optional `+`, then decimal digits, and a value that fits.
pub open spec fn spec_parse_usize(s: Seq<u8>) -> Option<usize> {
    let digits = if s.len() > 0 && s[0] == 43u8 { s.skip(1) } else { s };
    match spec_parse_decimal(digits) {
        Some(v) => if v <= usize::MAX { Some(v as usize) } else { None },
        None => None,
    }
}

/// Reads `s` as a `usize`: an optional `+`, then decimal digits.
pub fn parse_usize(s: &[u8]) -> (r: Option<usize>)
    ensures
        r == spec_parse_usize(s@),
{
    let digits = if s.len() > 0 && s[0] == 43u8 {
        let d = vstd::slice::slice_subrange(s, 1, s.len());
        assert(d@ =~= s@.skip(1));
        d
    } else {
        s
    };
    let r = parse_decimal_usize(digits);
    proof {
        lemma_parse_nonneg(digits@);
    }
    match r {
        Some(v) => Some(v),
        None => None,
    }
}

/// The ASCII decimal digits of `n`, most significant first, without
/// leading zeros.
pub open spec fn decimal(n: nat) -> Seq<u8>
    decreases n,
{
    if n < 10 {
        seq![(48 + n) as u8]
    } else {
        decimal(n / 10).push((48 + n % 10) as u8)
    }
}

/// `n` written in ASCII decimal digits.
pub fn render_decimal(n: usize) -> (r: Vec<u8>)
    ensures
        r@ == decimal(n as nat),
    decreases n,
{
    if n < 10 {
        let mut v: Vec<u8> = Vec::new();
        v.push((48 + n) as u8);
        assert(v@ =~= decimal(n as nat));
        v
    } else {
        let mut v = render_decimal(n / 10);
        v.push((48 + n % 10) as u8);
        v
    }
}

proof fn lemma_decimal_len(n: nat)
    ensures
        decimal(n).len() >= 1,
        48 <= decimal(n)[0] <= 57,
    decreases n,
{
    if n >= 10 {
        lemma_decimal_len(n / 10);
    }
}

/// Reading back the decimal digits of a number gives the number.
pub proof fn lemma_parse_decimal(n: nat)
    ensures
        spec_parse_decimal(decimal(n)) == Some(n as int),
    decreases n,
{
    if n >= 10 {
        lemma_parse_decimal(n / 10);
        lemma_decimal_len(n / 10);
        let s = decimal(n);
        assert(s.drop_last() =~= decimal(n / 10));
    }
}

/// Reading back the decimal digits of a `usize` as a `usize` gives it.
pub proof fn lemma_parse_usize_decimal(n: usize)
    ensures
        spec_parse_usize(decimal(n as nat)) == Some(n),
{
    lemma_parse_decimal(n as nat);
    lemma_decimal_len(n as nat);
}

} // verus!
