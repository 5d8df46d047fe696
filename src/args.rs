//! Validation of the command line: exactly one argument, a positive `i32`.
use vstd::prelude::*;
use crate::text::chars_of;

verus! {

pub open spec fn is_digit(c: char) -> bool {
    '0' <= c && c <= '9'
}

pub open spec fn all_digits(s: Seq<char>) -> bool {
    forall|i: int| 0 <= i < s.len() ==> is_digit(#[trigger] s[i])
}

/// The number that a string of decimal digits denotes.
pub open spec fn digits_value(s: Seq<char>) -> nat
    decreases s.len(),
{
    if s.len() == 0 {
        0
    } else {
        10 * digits_value(s.drop_last()) + ((s.last() as u32 - '0' as u32) as nat)
    }
}

/// `s` without a leading plus sign.
pub open spec fn unsigned_part(s: Seq<char>) -> Seq<char> {
    if s.len() > 0 && s[0] == '+' { s.drop_first() } else { s }
}

/// The value of `s` read as an `i32` in decimal, when it is one and positive.
/// Digits may follow a plus sign; a minus sign gives no positive value.
pub open spec fn positive_i32_of(s: Seq<char>) -> Option<int> {
    let u = unsigned_part(s);
    if u.len() > 0 && all_digits(u) && 1 <= digits_value(u) <= i32::MAX {
        Some(digits_value(u) as int)
    } else {
        None
    }
}

/// The row count that a full argument list (program name first) gives.
pub open spec fn row_count_of(args: Seq<String>) -> Option<int> {
    if args.len() == 2 { positive_i32_of(args[1]@) } else { None }
}

proof fn lemma_prefix_value_le(u: Seq<char>, j: int)
    requires
        all_digits(u),
        0 <= j <= u.len(),
    ensures
        digits_value(u.take(j)) <= digits_value(u),
    decreases u.len(),
{
    if j < u.len() {
        let p = u.drop_last();
        assert(u.take(j) == p.take(j));
        assert(all_digits(p)) by {
            assert forall|i: int| 0 <= i < p.len() implies is_digit(#[trigger] p[i]) by {
                assert(p[i] == u[i]);
            }
        }
        lemma_prefix_value_le(p, j);
    } else {
        assert(u.take(j) == u);
    }
}

/// Reads a positive `i32` in decimal, as `str::parse::<i32>` does and keeping
/// only positive results.
pub fn parse_positive_i32(s: &str) -> (r: Option<i32>)
    ensures
        r matches Some(n) ==> positive_i32_of(s@) == Some(n as int),
        r is None ==> positive_i32_of(s@) is None,
{
    let v = chars_of(s);
    let start: usize = if v.len() > 0 && v[0] == '+' { 1 } else { 0 };
    let ghost u = unsigned_part(s@);
    assert(u == v@.subrange(start as int, v@.len() as int));
    if start == v.len() {
        return None;
    }
    let mut val: u64 = 0;
    let mut i: usize = start;
    while i < v.len()
        invariant
            start <= i <= v.len(),
            v@ == s@,
            u == unsigned_part(s@),
            u == v@.subrange(start as int, v@.len() as int),
            all_digits(u.take(i - start)),
            val == digits_value(u.take(i - start)),
            val <= i32::MAX,
        decreases v.len() - i,
    {
        let c = v[i];
        let ghost k = i - start;
        assert(u[k] == c);
        if !('0' <= c && c <= '9') {
            assert(!all_digits(u));
            return None;
        }
        let d = (c as u32 - '0' as u32) as u64;
        assert(u.take(k + 1).drop_last() == u.take(k));
        val = val * 10 + d;
        i += 1;
        assert(all_digits(u.take(i - start))) by {
            assert forall|j: int| 0 <= j < i - start implies is_digit(#[trigger] u.take(i - start)[j]) by {
                if j < k {
                    assert(u.take(i - start)[j] == u.take(k)[j]);
                }
            }
        }
        if val > 0x7fff_ffff {
            proof {
                if all_digits(u) {
                    lemma_prefix_value_le(u, i - start);
                }
            }
            return None;
        }
    }
    assert(u.take(i - start) == u);
    if val == 0 {
        None
    } else {
        Some(val as i32)
    }
}

/// The row count of a command line `[program, count]`: `Some` exactly when
/// there is one argument after the program name and it is a positive `i32`.
pub fn check_args(file_args: &[String]) -> (r: Option<i32>)
    ensures
        r matches Some(n) ==> row_count_of(file_args@) == Some(n as int),
        r is None ==> row_count_of(file_args@) is None,
{
    if file_args.len() != 2 {
        return None;
    }
    parse_positive_i32(file_args[1].as_str())
}

} // verus!
