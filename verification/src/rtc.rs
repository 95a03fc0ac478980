//! The real-time clock daemon's arithmetic, and the choice between the
//! null and zero schemes.
//!
//! On boots where the firmware clock is handed over in the kernel
//! environment as `BOOT_TIME=<seconds>`, the daemon reads it from there.

use vstd::prelude::*;
use crate::init::{split, split_chars, trim, trim_chars, views, chars_is};

verus! {

/// The value of the ASCII decimal digits `s` (at least one), or None.
pub open spec fn digits_value(s: Seq<char>) -> Option<int>
    decreases s.len(),
{
    if s.len() == 0 {
        None
    } else {
        let d = s.last();
        if !('0' <= d <= '9') {
            None
        } else if s.len() == 1 {
            Some((d as int) - ('0' as int))
        } else {
            match digits_value(s.drop_last()) {
                Some(v) => Some(v * 10 + ((d as int) - ('0' as int))),
                None => None,
            }
        }
    }
}

/// `s` read as a `u64` the way the standard library's `str::parse` reads
/// one: an optional `+`, then decimal digits, and a value that fits.
pub open spec fn parse_u64(s: Seq<char>) -> Option<u64> {
    let digits = if s.len() > 0 && s[0] == '+' { s.skip(1) } else { s };
    match digits_value(digits) {
        Some(v) => if v <= u64::MAX { Some(v as u64) } else { None },
        None => None,
    }
}

proof fn lemma_digits_nonneg(s: Seq<char>)
    requires
        digits_value(s) is Some,
    ensures
        digits_value(s)->0 >= 0,
    decreases s.len(),
{
    if s.len() > 1 {
        lemma_digits_nonneg(s.drop_last());
    }
}

proof fn lemma_digits_grow(s: Seq<char>, i: int)
    requires
        0 < i <= s.len(),
        digits_value(s) is Some,
    ensures
        digits_value(s.take(i)) is Some,
        digits_value(s.take(i))->0 <= digits_value(s)->0,
    decreases s.len() - i,
{
    if i < s.len() {
        assert(s.drop_last().take(i) =~= s.take(i));
        assert(digits_value(s.drop_last()) is Some);
        lemma_digits_grow(s.drop_last(), i);
        lemma_digits_nonneg(s.drop_last());
    } else {
        assert(s.take(i) =~= s);
    }
}

proof fn lemma_digits_prefix_bad(s: Seq<char>, i: int)
    requires
        0 <= i < s.len(),
        !('0' <= s[i] <= '9'),
    ensures
        digits_value(s) is None,
    decreases s.len(),
{
    if i < s.len() - 1 {
        lemma_digits_prefix_bad(s.drop_last(), i);
    }
}

fn parse_digits(s: &[char]) -> (r: Option<u64>)
    ensures
        r == (match digits_value(s@) {
            Some(v) => if v <= u64::MAX { Some(v as u64) } else { None::<u64> },
            None => None::<u64>,
        }),
{
    if s.len() == 0 {
        return None;
    }
    let mut v: u64 = 0;
    let mut i: usize = 0;
    while i < s.len()
        invariant
            0 <= i <= s@.len(),
            s@.len() > 0,
            i > 0 ==> digits_value(s@.take(i as int)) == Some(v as int),
            i == 0 ==> v == 0,
        decreases s.len() - i,
    {
        let c = s[i];
        proof {
            assert(s@.take(i + 1).drop_last() =~= s@.take(i as int));
            assert(s@.take(i + 1).last() == c);
        }
        if c < '0' || c > '9' {
            proof {
                lemma_digits_prefix_bad(s@, i as int);
            }
            return None;
        }
        let d = (c as u32 - '0' as u32) as u64;
        let nv = match v.checked_mul(10) {
            Some(m) => m.checked_add(d),
            None => None,
        };
        match nv {
            Some(n) => {
                v = n;
            },
            None => {
                proof {
                    if digits_value(s@) is Some {
                        lemma_digits_grow(s@, (i + 1) as int);
                        if i > 0 {
                            assert(digits_value(s@.take(i + 1)) == Some(v * 10 + ((c as int) - ('0' as int))));
                        }
                    }
                }
                return None;
            },
        }
        i += 1;
    }
    assert(s@.take(s@.len() as int) =~= s@);
    Some(v)
}

/// Reads `s` as a `u64`: an optional `+`, then decimal digits.
pub fn parse_u64_chars(s: &[char]) -> (r: Option<u64>)
    ensures
        r == parse_u64(s@),
{
    if s.len() > 0 && s[0] == '+' {
        let rest = s.split_at(1).1;
        assert(rest@ =~= s@.skip(1));
        parse_digits(rest)
    } else {
        parse_digits(s)
    }
}

/// The firmware time the line `line` gives, if it is `BOOT_TIME=` and a
/// number (white space around the number is ignored).
pub open spec fn boot_time_line(line: Seq<char>) -> Option<u64> {
    if line.len() >= 10 && line.take(10) == "BOOT_TIME="@ {
        parse_u64(trim(line.skip(10)))
    } else {
        None
    }
}

/// The first time a line of the kernel environment `env` gives, looking
/// at the lines in order. (A `\r` before a line's end, which the standard
/// library drops with the line end, cannot change it: it is white space.)
pub open spec fn boot_time_of(lines: Seq<Seq<char>>) -> Option<u64>
    decreases lines.len(),
{
    if lines.len() == 0 {
        None
    } else {
        match boot_time_line(lines[0]) {
            Some(t) => Some(t),
            None => boot_time_of(lines.skip(1)),
        }
    }
}

/// The firmware time, in seconds since the Unix epoch, that the kernel
/// environment `env` gives as `BOOT_TIME`, if any.
pub fn boot_time(env: &[char]) -> (r: Option<u64>)
    ensures
        r == boot_time_of(split(env@, '\n')),
{
    let lines = split_chars(env, '\n');
    let ghost ls = split(env@, '\n');
    assert(views(lines@) =~= ls);
    let mut i: usize = 0;
    assert(ls.skip(0) =~= ls);
    while i < lines.len()
        invariant
            i <= lines@.len(),
            lines@.len() == ls.len(),
            forall|k: int| 0 <= k < lines@.len() ==> (#[trigger] lines@[k])@ == ls[k],
            ls == split(env@, '\n'),
            boot_time_of(ls) == boot_time_of(ls.skip(i as int)),
        decreases lines.len() - i,
    {
        let line = lines[i].as_slice();
        assert(ls.skip(i as int)[0] == line@);
        assert(ls.skip(i as int).skip(1) =~= ls.skip(i + 1));
        if line.len() >= 10 {
            let (head, rest) = line.split_at(10);
            assert(head@ =~= line@.take(10));
            assert(rest@ =~= line@.skip(10));
            if chars_is(head, "BOOT_TIME=") {
                let value = trim_chars(rest);
                match parse_u64_chars(value.as_slice()) {
                    Some(t) => {
                        assert(boot_time_line(line@) == Some(t));
                        assert(boot_time_of(ls.skip(i as int)) == Some(t));
                        return Some(t);
                    },
                    None => {},
                }
            }
        }
        i += 1;
    }
    None
}

/// The offset the kernel's clock gets from a time in seconds: the time in
/// nanoseconds.
pub fn time_offset_ns(time_s: u64) -> (ns: u128)
    ensures
        ns == time_s * 1_000_000_000,
{
    (time_s as u128) * 1_000_000_000
}

/// The scheme a null/zero daemon provides, by the name it was started
/// under.
#[derive(Debug, Clone, Copy, PartialEq, Eq, Structural)]
pub enum NullOrZero {
    /// Reads nothing, swallows writes.
    Null,
    /// Reads zeros, swallows writes.
    Zero,
}

/// The scheme for a daemon started as `name`: `nulld` or `zerod`; any other
/// name is refused.
pub fn scheme_for_name(name: &[char]) -> (r: Option<NullOrZero>)
    ensures
        name@ == "nulld"@ ==> r == Some(NullOrZero::Null),
        name@ == "zerod"@ ==> r == Some(NullOrZero::Zero),
        name@ != "nulld"@ && name@ != "zerod"@ ==> r is None,
{
    proof {
        reveal_strlit("nulld");
        reveal_strlit("zerod");
        assert("zerod"@[0] != "nulld"@[0]);
    }
    if chars_is(name, "nulld") {
        Some(NullOrZero::Null)
    } else if chars_is(name, "zerod") {
        Some(NullOrZero::Zero)
    } else {
        None
    }
}

} // verus!
