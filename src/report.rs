//! Human-readable sizes and durations, and the worst-case size estimate of a
//! measurement file.
use vstd::prelude::*;
use vstd::utf8::encode_utf8;
use crate::text::{decimal, digit, push_char, push_decimal, push_str};

verus! {

/// Size units, from bytes up to tebibytes.
pub open spec fn unit_name(k: nat) -> Seq<char> {
    if k == 0 { "bytes"@ }
    else if k == 1 { "KiB"@ }
    else if k == 2 { "MiB"@ }
    else if k == 3 { "GiB"@ }
    else { "TiB"@ }
}

/// `1024` to the power `k`.
pub open spec fn unit_divisor(k: nat) -> nat
    decreases k,
{
    if k == 0 { 1 } else { 1024 * unit_divisor((k - 1) as nat) }
}

/// The unit in which `n` bytes are shown: the smallest below tebibytes in
/// which the scaled value is below 1024, and tebibytes otherwise.
pub open spec fn unit_index(n: nat) -> nat {
    if n < unit_divisor(1) { 0 }
    else if n < unit_divisor(2) { 1 }
    else if n < unit_divisor(3) { 2 }
    else if n < unit_divisor(4) { 3 }
    else { 4 }
}

/// `a / d` rounded to the nearest integer, ties to the even one.
pub open spec fn round_half_even(a: nat, d: nat) -> nat
    recommends
        d > 0,
{
    let q = a / d;
    let r = a % d;
    if 2 * r > d || (2 * r == d && q % 2 == 1) { q + 1 } else { q }
}

/// `n / d` written with exactly one fractional digit.
pub open spec fn one_decimal(n: nat, d: nat) -> Seq<char> {
    let t = round_half_even(10 * n, d);
    decimal(t / 10) + "."@ + seq![digit(t % 10)]
}

/// `n` bytes in the unit of `unit_index`, with one fractional digit.
pub open spec fn human_size(n: nat) -> Seq<char> {
    let k = unit_index(n);
    one_decimal(n, unit_divisor(k)) + " "@ + unit_name(k)
}

proof fn lemma_unit_divisors()
    ensures
        unit_divisor(0) == 1,
        unit_divisor(1) == 1024,
        unit_divisor(2) == 1048576,
        unit_divisor(3) == 1073741824,
        unit_divisor(4) == 1099511627776,
{
    reveal_with_fuel(unit_divisor, 5);
}

fn unit_str(k: usize) -> (r: &'static str)
    ensures
        r@ == unit_name(k as nat),
{
    if k == 0 { "bytes" }
    else if k == 1 { "KiB" }
    else if k == 2 { "MiB" }
    else if k == 3 { "GiB" }
    else { "TiB" }
}

/// Renders a byte count in the largest binary unit that keeps the value below
/// 1024 (tebibytes at most), with one fractional digit: `2048` gives "2.0 KiB".
pub fn convert_bytes(num: u64) -> (r: String)
    ensures
        r@ == human_size(num as nat),
{
    proof {
        lemma_unit_divisors();
    }
    let (k, d): (usize, u64) = if num < 1024 {
        (0, 1)
    } else if num < 1048576 {
        (1, 1024)
    } else if num < 1073741824 {
        (2, 1048576)
    } else if num < 1099511627776 {
        (3, 1073741824)
    } else {
        (4, 1099511627776)
    };
    assert(k as nat == unit_index(num as nat) && d as nat == unit_divisor(k as nat));
    let a: u128 = 10 * (num as u128);
    let q: u128 = a / (d as u128);
    let rem: u128 = a % (d as u128);
    let t: u128 = if 2 * rem > d as u128 || (2 * rem == d as u128 && q % 2 == 1) {
        q + 1
    } else {
        q
    };
    assert(t == round_half_even(10 * (num as nat), d as nat));
    assert(t <= 10 * (num as nat) + 1) by (nonlinear_arith)
        requires
            q == a / (d as u128),
            d >= 1,
            t <= q + 1,
            a == 10 * (num as nat),
    ;
    let mut r = String::new();
    push_decimal(&mut r, (t / 10) as u64);
    push_str(&mut r, ".");
    push_char(&mut r, crate::text::digit_char((t % 10) as u64));
    push_str(&mut r, " ");
    push_str(&mut r, unit_str(k));
    r
}

/// A duration in seconds as hours, minutes and seconds, leaving out the
/// leading units that are zero.
pub open spec fn elapsed_text(total: nat) -> Seq<char> {
    let h = total / 3600;
    let m = (total / 60) % 60;
    let sec = total % 60;
    if h > 0 {
        decimal(h) + " hours "@ + decimal(m) + " minutes "@ + decimal(sec) + " seconds"@
    } else if m > 0 {
        decimal(m) + " minutes "@ + decimal(sec) + " seconds"@
    } else {
        decimal(sec) + " seconds"@
    }
}

/// Formats a duration: `125` gives "2 minutes 5 seconds".
pub fn format_elapsed_time(seconds: u64) -> (r: String)
    ensures
        r@ == elapsed_text(seconds as nat),
{
    let minutes = seconds / 60;
    let secs = seconds % 60;
    let hours = minutes / 60;
    let minutes = minutes % 60;
    assert(hours == seconds / 3600) by (nonlinear_arith)
        requires
            hours == (seconds / 60) / 60,
    ;
    let mut r = String::new();
    if hours > 0 {
        push_decimal(&mut r, hours);
        push_str(&mut r, " hours ");
        push_decimal(&mut r, minutes);
        push_str(&mut r, " minutes ");
    } else if minutes > 0 {
        push_decimal(&mut r, minutes);
        push_str(&mut r, " minutes ");
    }
    push_decimal(&mut r, secs);
    push_str(&mut r, " seconds");
    r
}

/// Number of bytes in the UTF-8 encoding of `s`.
pub open spec fn byte_len(s: Seq<char>) -> nat {
    encode_utf8(s).len()
}

/// Byte length of the longest name, 0 when there is none.
pub open spec fn max_len(names: Seq<String>) -> nat
    decreases names.len(),
{
    if names.len() == 0 {
        0
    } else {
        let m = max_len(names.drop_last());
        let l = byte_len(names.last()@);
        if l > m { l } else { m }
    }
}

/// Byte length of the shortest name, 0 when there is none.
pub open spec fn min_len(names: Seq<String>) -> nat
    decreases names.len(),
{
    if names.len() == 0 {
        0
    } else if names.len() == 1 {
        byte_len(names[0]@)
    } else {
        let m = min_len(names.drop_last());
        let l = byte_len(names.last()@);
        if l < m { l } else { m }
    }
}

/// Worst-case size of one record: the longest name, twice the shortest as
/// slack, and seven bytes for separator, sign, digits, point and newline.
/// An empty list has no records, and size 0.
pub open spec fn record_size(names: Seq<String>) -> nat {
    if names.len() == 0 { 0 } else { max_len(names) + 2 * min_len(names) + 7 }
}

/// Worst-case size of a file of `rows` records, capped at `u64::MAX`; no rows
/// when `rows` is not positive.
pub open spec fn estimated_bytes(names: Seq<String>, rows: int) -> nat {
    let total = if rows <= 0 { 0 } else { rows as nat * record_size(names) };
    if total > u64::MAX { u64::MAX as nat } else { total }
}

/// The estimate message for `names` and `rows`.
pub open spec fn estimate_text(names: Seq<String>, rows: int) -> Seq<char> {
    "Estimated max file size is:  "@ + human_size(estimated_bytes(names, rows))
        + ".\nTrue size is probably much smaller (around half)."@
}

/// The worst-case size of a file of `num_rows_to_create` records drawn from
/// `weather_station_names`, as a two-line message.
pub fn estimate_file_size(weather_station_names: &[String], num_rows_to_create: i32) -> (r: String)
    requires
        forall|i: int|
            0 <= i < weather_station_names@.len() ==> byte_len(
                #[trigger] weather_station_names@[i]@,
            ) <= usize::MAX,
    ensures
        r@ == estimate_text(weather_station_names@, num_rows_to_create as int),
{
    let names = weather_station_names;
    let mut max_string: usize = 0;
    let mut min_string: usize = 0;
    let mut i: usize = 0;
    while i < names.len()
        invariant
            i <= names@.len(),
            forall|j: int| 0 <= j < names@.len() ==> byte_len(#[trigger] names@[j]@) <= usize::MAX,
            max_string == max_len(names@.take(i as int)),
            min_string == min_len(names@.take(i as int)),
        decreases names.len() - i,
    {
        let station_len = names[i].as_str().len();
        assert(names@.take(i + 1).drop_last() == names@.take(i as int));
        assert(station_len == byte_len(names@[i as int]@));
        if station_len > max_string {
            max_string = station_len;
        }
        if i == 0 || station_len < min_string {
            min_string = station_len;
        }
        i += 1;
    }
    assert(names@.take(i as int) == names@);
    let per_record: u128 = if names.len() == 0 {
        0
    } else {
        max_string as u128 + 2 * (min_string as u128) + 7
    };
    let total: u128 = if num_rows_to_create <= 0 {
        0
    } else {
        assert((num_rows_to_create as u128) * per_record <= 0x8000_0000 * 0x4_0000_0000_0000_0000)
            by (nonlinear_arith)
            requires
                0 < num_rows_to_create <= 0x8000_0000,
                per_record <= 0x4_0000_0000_0000_0000,
        ;
        (num_rows_to_create as u128) * per_record
    };
    let capped: u64 = if total > u64::MAX as u128 { u64::MAX } else { total as u64 };
    let mut r = String::new();
    push_str(&mut r, "Estimated max file size is:  ");
    let human = convert_bytes(capped);
    push_str(&mut r, human.as_str());
    push_str(&mut r, ".\nTrue size is probably much smaller (around half).");
    r
}

} // verus!
