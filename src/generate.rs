//! Measurement records: random draws of stations and temperatures, their
//! text form, the batches they are written in, and progress reporting.
use vstd::prelude::*;
use rand::Rng;
use rand::rngs::StdRng;
use crate::names::{is_name_list, lemma_names_single_line, views};
use crate::text::{decimal, digit, digit_char, push_char, push_decimal, push_str};

verus! {

#[verifier::external_type_specification]
#[verifier::external_body]
pub struct ExStdRng(StdRng);

/// Records per batch, written to the output in one piece.
pub const BATCH_SIZE: usize = 10000;

/// Names in the working sample that records draw their stations from.
pub const SAMPLE_SIZE: usize = 10000;

/// Highest temperature in tenths of a degree; the lowest is its negation.
pub const MAX_TENTHS: i32 = 999;

/// Relies on `rand::Rng::gen_range` over an inclusive range: a value within
/// it. It panics on an empty range, which `requires` leaves out.
#[verifier::external_body]
fn random_in(rng: &mut StdRng, lo: i64, hi: i64) -> (r: i64)
    requires
        lo <= hi,
    ensures
        lo <= r <= hi,
{
    rng.gen_range(lo..=hi)
}

/// A uniformly drawn index below `n`.
pub fn random_index(rng: &mut StdRng, n: usize) -> (r: usize)
    requires
        0 < n <= i64::MAX,
    ensures
        r < n,
{
    random_in(rng, 0, (n - 1) as i64) as usize
}

/// A uniformly drawn temperature in tenths of a degree, from -99.9 to 99.9.
pub fn random_tenths(rng: &mut StdRng) -> (r: i32)
    ensures
        -MAX_TENTHS <= r <= MAX_TENTHS,
{
    random_in(rng, -999, 999) as i32
}

/// Absolute value.
pub open spec fn abs(t: int) -> nat {
    if t < 0 { (-t) as nat } else { t as nat }
}

/// A temperature given in tenths, written with exactly one fractional digit:
/// `-123` is "-12.3", `5` is "0.5".
pub open spec fn tenths_text(t: int) -> Seq<char> {
    let sign = if t < 0 { "-"@ } else { ""@ };
    sign + decimal(abs(t) / 10) + "."@ + seq![digit(abs(t) % 10)]
}

/// One record line: name, `;`, temperature, newline.
pub open spec fn record_line(name: Seq<char>, t: int) -> Seq<char> {
    name + ";"@ + tenths_text(t) + "\n"@
}

/// Appends the record line of `name` and `tenths`.
pub fn push_record(out: &mut String, name: &str, tenths: i32)
    requires
        -MAX_TENTHS <= tenths <= MAX_TENTHS,
    ensures
        final(out)@ == old(out)@ + record_line(name@, tenths as int),
{
    push_str(out, name);
    push_str(out, ";");
    if tenths < 0 {
        push_str(out, "-");
    }
    let a: u64 = if tenths < 0 { (-tenths) as u64 } else { tenths as u64 };
    push_decimal(out, a / 10);
    push_str(out, ".");
    push_char(out, digit_char(a % 10));
    push_str(out, "\n");
    proof {
        reveal_strlit("");
    }
    assert(final(out)@ =~= old(out)@ + record_line(name@, tenths as int));
}

/// The text of a batch: for each draw `i`, the record of station
/// `names[picks[i]]` at temperature `temps[i]`, in order.
pub open spec fn batch_text(names: Seq<Seq<char>>, picks: Seq<usize>, temps: Seq<i32>) -> Seq<char>
    decreases picks.len(),
{
    if picks.len() == 0 || temps.len() == 0 {
        Seq::empty()
    } else {
        batch_text(names, picks.drop_last(), temps.drop_last()) + record_line(
            names[picks.last() as int],
            temps.last() as int,
        )
    }
}

/// Draws fit for `names`: as many temperatures as picks, every pick an index
/// of `names`, every temperature from -99.9 to 99.9.
pub open spec fn valid_draws(n: nat, picks: Seq<usize>, temps: Seq<i32>) -> bool {
    &&& picks.len() == temps.len()
    &&& forall|i: int| 0 <= i < picks.len() ==> (#[trigger] picks[i] as nat) < n
    &&& forall|i: int| 0 <= i < temps.len() ==> -MAX_TENTHS <= #[trigger] temps[i] <= MAX_TENTHS
}

/// The batch text of the given draws.
pub fn format_batch(names: &[String], picks: &[usize], temps: &[i32]) -> (r: String)
    requires
        valid_draws(names@.len(), picks@, temps@),
    ensures
        r@ == batch_text(views(names@), picks@, temps@),
{
    let mut r = String::new();
    let mut i: usize = 0;
    while i < picks.len()
        invariant
            i <= picks.len(),
            valid_draws(names@.len(), picks@, temps@),
            r@ == batch_text(views(names@), picks@.take(i as int), temps@.take(i as int)),
        decreases picks.len() - i,
    {
        let p = picks[i];
        let t = temps[i];
        assert(picks@[i as int] == p && temps@[i as int] == t);
        push_record(&mut r, names[p].as_str(), t);
        assert(picks@.take(i + 1).drop_last() == picks@.take(i as int));
        assert(temps@.take(i + 1).drop_last() == temps@.take(i as int));
        assert(views(names@)[p as int] == names@[p as int]@);
        i += 1;
    }
    assert(picks@.take(i as int) == picks@);
    assert(temps@.take(i as int) == temps@);
    r
}

/// Every element of `r` is one of `names`.
pub open spec fn drawn_from(r: Seq<String>, names: Seq<String>) -> bool {
    forall|i: int| 0 <= i < r.len() ==> names.contains(#[trigger] r[i])
}

/// The working sample: `SAMPLE_SIZE` names drawn uniformly, with
/// replacement, from `names`.
pub fn sample_names(names: &[String], rng: &mut StdRng) -> (r: Vec<String>)
    requires
        0 < names@.len() <= i64::MAX,
    ensures
        r@.len() == SAMPLE_SIZE,
        drawn_from(r@, names@),
{
    let mut r: Vec<String> = Vec::new();
    let mut i: usize = 0;
    while i < SAMPLE_SIZE
        invariant
            i <= SAMPLE_SIZE,
            0 < names@.len() <= i64::MAX,
            r@.len() == i,
            drawn_from(r@, names@),
        decreases SAMPLE_SIZE - i,
    {
        let j = random_index(rng, names.len());
        let name = names[j].clone();
        r.push(name);
        assert(r@[i as int] == names@[j as int]);
        i += 1;
    }
    r
}

/// One batch of `BATCH_SIZE` records whose stations are drawn from `sample`
/// and whose temperatures are drawn from -99.9 to 99.9.
pub fn generate_batch(sample: &[String], rng: &mut StdRng) -> (r: String)
    requires
        0 < sample@.len() <= i64::MAX,
    ensures
        exists|picks: Seq<usize>, temps: Seq<i32>|
            #![trigger batch_text(views(sample@), picks, temps)]
            picks.len() == BATCH_SIZE && valid_draws(sample@.len(), picks, temps) && r@ == batch_text(
                views(sample@),
                picks,
                temps,
            ),
{
    let mut picks: Vec<usize> = Vec::new();
    let mut temps: Vec<i32> = Vec::new();
    let mut i: usize = 0;
    while i < BATCH_SIZE
        invariant
            i <= BATCH_SIZE,
            0 < sample@.len() <= i64::MAX,
            picks@.len() == i,
            valid_draws(sample@.len(), picks@, temps@),
        decreases BATCH_SIZE - i,
    {
        picks.push(random_index(rng, sample.len()));
        temps.push(random_tenths(rng));
        i += 1;
    }
    format_batch(sample, picks.as_slice(), temps.as_slice())
}

/// Batches written for a requested row count: whole batches only, none when
/// the count is not positive.
pub open spec fn batch_count(rows: int) -> int {
    if rows <= 0 { 0 } else { rows / BATCH_SIZE as int }
}

/// The number of batches for `num_rows_to_create` rows.
pub fn num_batches(num_rows_to_create: i32) -> (r: u32)
    ensures
        r == batch_count(num_rows_to_create as int),
{
    if num_rows_to_create <= 0 {
        0
    } else {
        (num_rows_to_create / 10000) as u32
    }
}

/// Batches between progress redraws: a hundredth of them, at least one.
pub open spec fn progress_step_of(batches: int) -> int {
    if batches / 100 > 1 { batches / 100 } else { 1 }
}

pub fn progress_step(batches: u32) -> (r: u32)
    ensures
        r == progress_step_of(batches as int),
        r >= 1,
{
    if batches / 100 > 1 { batches / 100 } else { 1 }
}

/// Whether the progress line is redrawn after batch `s`: every `step`
/// batches, and after the last one.
pub fn should_report(s: u32, batches: u32, step: u32) -> (r: bool)
    requires
        step > 0,
    ensures
        r == (s % step == 0 || s as int == batches - 1),
{
    s % step == 0 || (batches > 0 && s == batches - 1)
}

/// Width of the progress bar in characters.
pub const BAR_WIDTH: u32 = 50;

/// `n` copies of `c`.
pub open spec fn repeat(c: char, n: nat) -> Seq<char> {
    Seq::new(n, |i: int| c)
}

/// The progress line after batch `s` of `batches`: a carriage return, the
/// bar filled in proportion, and the percentage done.
pub open spec fn progress_text(s: nat, batches: nat) -> Seq<char> {
    let filled = (s + 1) * BAR_WIDTH as nat / batches;
    let pct = (s + 1) * 100 / batches;
    "\r["@ + repeat('=', filled) + repeat(' ', (BAR_WIDTH - filled) as nat) + "] "@ + decimal(pct) + "%"@
}

fn push_repeat(out: &mut String, c: char, n: u32)
    ensures
        final(out)@ == old(out)@ + repeat(c, n as nat),
{
    let mut i: u32 = 0;
    while i < n
        invariant
            i <= n,
            out@ == old(out)@ + repeat(c, i as nat),
        decreases n - i,
    {
        push_char(out, c);
        i += 1;
        assert(out@ =~= old(out)@ + repeat(c, i as nat));
    }
}

/// The progress line after batch `s` of `batches`.
pub fn progress_line(s: u32, batches: u32) -> (r: String)
    requires
        s < batches,
    ensures
        r@ == progress_text(s as nat, batches as nat),
{
    let done: u64 = s as u64 + 1;
    let filled: u64 = done * 50 / (batches as u64);
    let pct: u64 = done * 100 / (batches as u64);
    assert(filled <= 50) by (nonlinear_arith)
        requires
            filled == (done * 50) as int / (batches as int),
            done <= batches,
            batches > 0,
    ;
    let mut r = String::new();
    push_str(&mut r, "\r[");
    push_repeat(&mut r, '=', filled as u32);
    push_repeat(&mut r, ' ', (50 - filled) as u32);
    push_str(&mut r, "] ");
    push_decimal(&mut r, pct);
    push_str(&mut r, "%");
    r
}

/// The rows written for a request: whole batches, so exactly the request when
/// it is a positive multiple of the batch size, and otherwise the largest
/// such multiple below it.
pub proof fn lemma_rows_written(rows: int)
    ensures
        batch_count(rows) * BATCH_SIZE == if rows <= 0 { 0 } else { 10000 * (rows / 10000) },
        rows > 0 ==> rows - BATCH_SIZE < batch_count(rows) * BATCH_SIZE <= rows,
        rows > 0 && rows % 10000 == 0 ==> batch_count(rows) * BATCH_SIZE == rows,
{
}

/// Number of newline characters in `t`: the number of lines of a text whose
/// every line is ended.
pub open spec fn count_newlines(t: Seq<char>) -> nat
    decreases t.len(),
{
    if t.len() == 0 {
        0
    } else {
        count_newlines(t.drop_last()) + if t.last() == '\n' { 1nat } else { 0nat }
    }
}

proof fn lemma_count_concat(a: Seq<char>, b: Seq<char>)
    ensures
        count_newlines(a + b) == count_newlines(a) + count_newlines(b),
    decreases b.len(),
{
    if b.len() == 0 {
        assert(a + b == a);
    } else {
        assert((a + b).drop_last() == a + b.drop_last());
        lemma_count_concat(a, b.drop_last());
    }
}

proof fn lemma_count_none(t: Seq<char>)
    requires
        !t.contains('\n'),
    ensures
        count_newlines(t) == 0,
    decreases t.len(),
{
    if t.len() > 0 {
        assert(t.last() == t[t.len() - 1]);
        assert(!t.drop_last().contains('\n')) by {
            if t.drop_last().contains('\n') {
                let i = choose|i: int| 0 <= i < t.drop_last().len() && t.drop_last()[i] == '\n';
                assert(t[i] == '\n');
            }
        }
        lemma_count_none(t.drop_last());
    }
}

proof fn lemma_decimal_no_newline(n: nat)
    ensures
        !decimal(n).contains('\n'),
    decreases n,
{
    if n >= 10 {
        lemma_decimal_no_newline(n / 10);
        let d = decimal(n);
        assert(d == decimal(n / 10).push(digit(n % 10)));
        if d.contains('\n') {
            let i = choose|i: int| 0 <= i < d.len() && d[i] == '\n';
            if i < d.len() - 1 {
                assert(decimal(n / 10)[i] == '\n');
            }
        }
    } else {
        assert(decimal(n) == seq![digit(n)]);
        if decimal(n).contains('\n') {
            let i = choose|i: int| 0 <= i < decimal(n).len() && decimal(n)[i] == '\n';
            assert(decimal(n)[i] == digit(n));
        }
    }
}

proof fn lemma_record_one_line(name: Seq<char>, t: int)
    requires
        !name.contains('\n'),
    ensures
        count_newlines(record_line(name, t)) == 1,
{
    reveal_strlit(";");
    reveal_strlit("-");
    reveal_strlit("");
    reveal_strlit(".");
    reveal_strlit("\n");
    let sign = if t < 0 { "-"@ } else { ""@ };
    let dec = decimal(abs(t) / 10);
    let frac = seq![digit(abs(t) % 10)];
    lemma_decimal_no_newline(abs(t) / 10);
    lemma_count_none(name);
    lemma_count_none(dec);
    assert(count_newlines(sign) == 0) by {
        assert(count_newlines(sign) == count_newlines(sign.drop_last()) + 0 || sign.len() == 0);
        assert(sign.len() == 0 || sign.drop_last().len() == 0);
    }
    assert(count_newlines(";"@) == 0) by {
        reveal_with_fuel(count_newlines, 2);
    }
    assert(count_newlines("."@) == 0) by {
        reveal_with_fuel(count_newlines, 2);
    }
    assert(count_newlines(frac) == 0) by {
        reveal_with_fuel(count_newlines, 2);
    }
    assert(count_newlines("\n"@) == 1) by {
        reveal_with_fuel(count_newlines, 2);
    }
    lemma_count_concat(name, ";"@);
    lemma_count_concat(name + ";"@, sign);
    lemma_count_concat(name + ";"@ + sign, dec);
    lemma_count_concat(name + ";"@ + sign + dec, "."@);
    lemma_count_concat(name + ";"@ + sign + dec + "."@, frac);
    lemma_count_concat(name + ";"@ + sign + dec + "."@ + frac, "\n"@);
    assert(tenths_text(t) == sign + dec + "."@ + frac);
    assert(record_line(name, t) == name + ";"@ + sign + dec + "."@ + frac + "\n"@);
}

/// A batch of `k` draws is `k` lines, each ended by a newline, when no
/// station name holds a newline.
pub proof fn lemma_batch_lines(names: Seq<Seq<char>>, picks: Seq<usize>, temps: Seq<i32>)
    requires
        valid_draws(names.len(), picks, temps),
        forall|i: int| 0 <= i < names.len() ==> !(#[trigger] names[i]).contains('\n'),
    ensures
        count_newlines(batch_text(names, picks, temps)) == picks.len(),
    decreases picks.len(),
{
    if picks.len() > 0 {
        let p = picks.drop_last();
        let t = temps.drop_last();
        assert(valid_draws(names.len(), p, t)) by {
            assert forall|i: int| 0 <= i < p.len() implies (#[trigger] p[i] as nat) < names.len() by {
                assert(p[i] == picks[i]);
            }
            assert forall|i: int| 0 <= i < t.len() implies -MAX_TENTHS <= #[trigger] t[i] <= MAX_TENTHS by {
                assert(t[i] == temps[i]);
            }
        }
        lemma_batch_lines(names, p, t);
        assert(picks.last() == picks[picks.len() - 1]);
        let name = names[picks.last() as int];
        lemma_record_one_line(name, temps.last() as int);
        lemma_count_concat(batch_text(names, p, t), record_line(name, temps.last() as int));
    }
}

/// A batch drawn from a working sample of a loaded name list is exactly
/// `BATCH_SIZE` lines; so the rows written for a request are
/// `BATCH_SIZE * batch_count(rows)` lines.
pub proof fn lemma_batch_of_loaded_names(
    contents: Seq<char>,
    list: Seq<String>,
    sample: Seq<String>,
    picks: Seq<usize>,
    temps: Seq<i32>,
)
    requires
        is_name_list(contents, views(list)),
        drawn_from(sample, list),
        picks.len() == BATCH_SIZE,
        valid_draws(sample.len(), picks, temps),
    ensures
        count_newlines(batch_text(views(sample), picks, temps)) == BATCH_SIZE,
{
    let names = views(sample);
    assert forall|i: int| 0 <= i < names.len() implies !(#[trigger] names[i]).contains('\n') by {
        assert(list.contains(sample[i]));
        let j = choose|j: int| 0 <= j < list.len() && list[j] == sample[i];
        assert(views(list)[j] == names[i]);
        assert(views(list).to_set().contains(names[i]));
        lemma_names_single_line(contents, names[i]);
    }
    lemma_batch_lines(names, picks, temps);
}

} // verus!
