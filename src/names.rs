//! The station-name list: the first `;`-separated field of each line of a
//! reference text that holds no `#`, without repeats, in ascending order.
use vstd::prelude::*;
use crate::order::{
    compare_chars, lemma_lex_asymmetric, lemma_lex_total, lemma_lex_transitive, lemma_sorted_unique,
    lex_lt, strictly_sorted,
};
use crate::text::{chars_of, string_of};

verus! {

/// The pieces of `s` between newlines; always at least one, the last being
/// what follows the final newline.
pub open spec fn segments(s: Seq<char>) -> Seq<Seq<char>>
    decreases s.len(),
{
    if s.len() == 0 {
        seq![Seq::empty()]
    } else {
        let r = segments(s.drop_last());
        if s.last() == '\n' {
            r.push(Seq::empty())
        } else {
            r.update(r.len() - 1, r.last().push(s.last()))
        }
    }
}

/// A line ended by a newline loses a carriage return before it.
pub open spec fn strip_cr(l: Seq<char>) -> Seq<char> {
    if l.len() > 0 && l.last() == '\r' { l.drop_last() } else { l }
}

/// The lines of `s`, as `str::lines` gives them: split at `\n` or `\r\n`,
/// with no empty line after a final line ending.
pub open spec fn lines_of(s: Seq<char>) -> Seq<Seq<char>> {
    let segs = segments(s);
    let ended = segs.drop_last().map_values(|l: Seq<char>| strip_cr(l));
    if segs.last().len() == 0 { ended } else { ended.push(segs.last()) }
}

/// The characters of `l` before its first `;` (all of them if it has none).
pub open spec fn first_field(l: Seq<char>) -> Seq<char>
    decreases l.len(),
{
    if l.len() == 0 || l[0] == ';' {
        Seq::empty()
    } else {
        seq![l[0]] + first_field(l.drop_first())
    }
}

/// The station named on a line; none for a comment line, one holding `#`.
pub open spec fn line_name(l: Seq<char>) -> Option<Seq<char>> {
    if l.contains('#') { None } else { Some(first_field(l)) }
}

/// The names of all lines of `ls`.
pub open spec fn names_of_lines(ls: Seq<Seq<char>>) -> Set<Seq<char>> {
    Set::new(|n: Seq<char>| exists|i: int| 0 <= i < ls.len() && line_name(ls[i]) == Some(n))
}

/// The station names of a reference text.
pub open spec fn station_name_set(contents: Seq<char>) -> Set<Seq<char>> {
    names_of_lines(lines_of(contents))
}

/// The text of each string.
pub open spec fn views(r: Seq<String>) -> Seq<Seq<char>> {
    r.map_values(|s: String| s@)
}

/// The contents of each vector.
pub open spec fn deep(r: Seq<Vec<char>>) -> Seq<Seq<char>> {
    r.map_values(|v: Vec<char>| v@)
}

/// `r` is the name list of `contents`: its names, ascending, each once.
pub open spec fn is_name_list(contents: Seq<char>, r: Seq<Seq<char>>) -> bool {
    strictly_sorted(r) && r.to_set() == station_name_set(contents)
}

/// The name on line `l`, if it is not a comment.
fn name_of_line(l: &Vec<char>) -> (r: Option<Vec<char>>)
    ensures
        r matches Some(n) ==> line_name(l@) == Some(n@),
        r is None ==> line_name(l@) is None,
{
    let mut j: usize = 0;
    while j < l.len()
        invariant
            j <= l.len(),
            forall|k: int| 0 <= k < j ==> l@[k] != '#',
        decreases l.len() - j,
    {
        if l[j] == '#' {
            assert(l@.contains('#'));
            return None;
        }
        j += 1;
    }
    let mut field: Vec<char> = Vec::new();
    let mut j: usize = 0;
    assert(l@.skip(0) == l@);
    while j < l.len() && l[j] != ';'
        invariant
            j <= l.len(),
            first_field(l@) == field@ + first_field(l@.skip(j as int)),
        decreases l.len() - j,
    {
        let ghost rest = l@.skip(j as int);
        assert(rest[0] == l@[j as int]);
        assert(rest.drop_first() == l@.skip(j + 1));
        assert(field@.push(l@[j as int]) + first_field(l@.skip(j + 1)) == field@ + (seq![rest[0]]
            + first_field(rest.drop_first())));
        field.push(l[j]);
        j += 1;
    }
    if j < l.len() {
        assert(l@.skip(j as int)[0] == ';');
    }
    assert(field@ + first_field(l@.skip(j as int)) == field@);
    Some(field)
}

proof fn lemma_names_push(ls: Seq<Seq<char>>, l: Seq<char>)
    ensures
        names_of_lines(ls.push(l)) == match line_name(l) {
            Some(n) => names_of_lines(ls).insert(n),
            None => names_of_lines(ls),
        },
{
    let t = ls.push(l);
    assert forall|n: Seq<char>| #[trigger] names_of_lines(ls).contains(n) implies names_of_lines(t).contains(n) by {
        let i = choose|i: int| 0 <= i < ls.len() && line_name(ls[i]) == Some(n);
        assert(t[i] == ls[i]);
    }
    assert forall|n: Seq<char>| #[trigger] names_of_lines(t).contains(n) implies (names_of_lines(ls).contains(n)
        || line_name(l) == Some(n)) by {
        let i = choose|i: int| 0 <= i < t.len() && line_name(t[i]) == Some(n);
        if i < ls.len() {
            assert(t[i] == ls[i]);
        }
    }
    if let Some(n) = line_name(l) {
        assert(t[ls.len() as int] == l);
        assert(names_of_lines(t) =~= names_of_lines(ls).insert(n));
    } else {
        assert(names_of_lines(t) =~= names_of_lines(ls));
    }
}

/// Adds `x` to a strictly sorted list, where it is not there yet.
fn insert_sorted(sorted: &mut Vec<Vec<char>>, x: Vec<char>)
    requires
        strictly_sorted(deep(old(sorted)@)),
    ensures
        strictly_sorted(deep(final(sorted)@)),
        deep(final(sorted)@).to_set() == deep(old(sorted)@).to_set().insert(x@),
{
    let ghost s = deep(sorted@);
    let mut lo: usize = 0;
    let mut hi: usize = sorted.len();
    while lo < hi
        invariant
            0 <= lo <= hi <= sorted.len(),
            s == deep(sorted@),
            strictly_sorted(s),
            forall|k: int| 0 <= k < lo ==> lex_lt(#[trigger] s[k], x@),
            forall|k: int| hi <= k < s.len() ==> !lex_lt(#[trigger] s[k], x@),
        decreases hi - lo,
    {
        let mid = lo + (hi - lo) / 2;
        let c = compare_chars(&sorted[mid], &x);
        assert(s[mid as int] == sorted@[mid as int]@);
        if c < 0 {
            assert forall|k: int| 0 <= k <= mid implies lex_lt(#[trigger] s[k], x@) by {
                if k < mid {
                    lemma_lex_transitive(s[k], s[mid as int], x@);
                }
            }
            lo = mid + 1;
        } else {
            assert forall|k: int| mid <= k < s.len() implies !lex_lt(#[trigger] s[k], x@) by {
                if k > mid {
                    if lex_lt(s[k], x@) {
                        if c == 0 {
                            lemma_lex_asymmetric(s[mid as int], s[k]);
                        } else {
                            lemma_lex_transitive(x@, s[mid as int], s[k]);
                            lemma_lex_asymmetric(x@, s[k]);
                        }
                    }
                }
            }
            hi = mid;
        }
    }
    if lo < sorted.len() && compare_chars(&sorted[lo], &x) == 0 {
        assert(s[lo as int] == x@);
        assert(s.to_set().insert(x@) =~= s.to_set());
        return;
    }
    let ghost xv = x@;
    sorted.insert(lo, x);
    let ghost t = deep(sorted@);
    assert(t =~= s.insert(lo as int, xv));
    assert forall|k: int| lo <= k < s.len() implies lex_lt(xv, #[trigger] s[k]) by {
        if k > lo {
            assert(lex_lt(s[lo as int], s[k]));
        }
        lemma_lex_total(xv, s[k]);
    }
    assert(strictly_sorted(t)) by {
        assert forall|i: int, j: int| 0 <= i < j < t.len() implies lex_lt(#[trigger] t[i], #[trigger] t[j]) by {
            if j < lo {
            } else if j == lo {
                assert(t[i] == s[i]);
            } else if i < lo {
                assert(t[j] == s[j - 1]);
                lemma_lex_transitive(s[i], xv, s[j - 1]);
            } else if i == lo {
                assert(t[j] == s[j - 1]);
            } else {
                assert(t[i] == s[i - 1] && t[j] == s[j - 1]);
            }
        }
    }
    assert(t.to_set() =~= s.to_set().insert(xv)) by {
        assert forall|y: Seq<char>| #[trigger] t.to_set().contains(y) implies s.to_set().insert(xv).contains(y) by {
            let i = choose|i: int| 0 <= i < t.len() && t[i] == y;
            if i < lo {
                assert(s[i] == y);
            } else if i > lo {
                assert(s[i - 1] == y);
            }
        }
        assert forall|y: Seq<char>| #[trigger] s.to_set().insert(xv).contains(y) implies t.to_set().contains(y) by {
            if y == xv {
                assert(t[lo as int] == y);
            } else {
                let i = choose|i: int| 0 <= i < s.len() && s[i] == y;
                if i < lo {
                    assert(t[i] == y);
                } else {
                    assert(t[i + 1] == y);
                }
            }
        }
    }
}

fn add_line_name(sorted: &mut Vec<Vec<char>>, line: &Vec<char>, Ghost(ls): Ghost<Seq<Seq<char>>>)
    requires
        strictly_sorted(deep(old(sorted)@)),
        deep(old(sorted)@).to_set() == names_of_lines(ls),
    ensures
        strictly_sorted(deep(final(sorted)@)),
        deep(final(sorted)@).to_set() == names_of_lines(ls.push(line@)),
{
    proof {
        lemma_names_push(ls, line@);
    }
    match name_of_line(line) {
        Some(n) => insert_sorted(sorted, n),
        None => {},
    }
}

/// The station names of a reference text, ascending and each once: the first
/// `;`-separated field of every line that holds no `#`.
pub fn build_weather_station_name_list(contents: &str) -> (r: Vec<String>)
    ensures
        is_name_list(contents@, views(r@)),
{
    let v = chars_of(contents);
    let mut sorted: Vec<Vec<char>> = Vec::new();
    let mut cur: Vec<char> = Vec::new();
    let ghost mut done: Seq<Seq<char>> = Seq::empty();
    let mut i: usize = 0;
    assert(v@.take(0) == Seq::<char>::empty());
    assert(deep(sorted@).to_set() =~= names_of_lines(done.map_values(|l: Seq<char>| strip_cr(l))));
    while i < v.len()
        invariant
            i <= v.len(),
            v@ == contents@,
            segments(v@.take(i as int)) == done.push(cur@),
            strictly_sorted(deep(sorted@)),
            deep(sorted@).to_set() == names_of_lines(done.map_values(|l: Seq<char>| strip_cr(l))),
        decreases v.len() - i,
    {
        let c = v[i];
        assert(v@.take(i + 1).drop_last() == v@.take(i as int));
        if c == '\n' {
            let ghost ended = done.map_values(|l: Seq<char>| strip_cr(l));
            let ghost old_cur = cur@;
            let mut line = cur;
            let n = line.len();
            if n > 0 && line[n - 1] == '\r' {
                line.pop();
            }
            assert(line@ == strip_cr(old_cur));
            add_line_name(&mut sorted, &line, Ghost(ended));
            proof {
                done = done.push(old_cur);
                assert(done.map_values(|l: Seq<char>| strip_cr(l)) =~= ended.push(line@));
            }
            cur = Vec::new();
            assert(segments(v@.take(i + 1)) =~= done.push(cur@));
        } else {
            let ghost prev = done.push(cur@);
            cur.push(c);
            assert(segments(v@.take(i + 1)) =~= done.push(cur@)) by {
                assert(prev.update(prev.len() - 1, prev.last().push(c)) =~= done.push(cur@));
            }
        }
        i += 1;
    }
    assert(v@.take(i as int) == contents@);
    let ghost ended = done.map_values(|l: Seq<char>| strip_cr(l));
    assert(done.push(cur@).drop_last() == done);
    if cur.len() > 0 {
        add_line_name(&mut sorted, &cur, Ghost(ended));
    }
    assert(deep(sorted@).to_set() == station_name_set(contents@));
    let mut r: Vec<String> = Vec::new();
    let mut k: usize = 0;
    while k < sorted.len()
        invariant
            k <= sorted.len(),
            views(r@) == deep(sorted@).take(k as int),
        decreases sorted.len() - k,
    {
        let name = string_of(&sorted[k]);
        assert(deep(sorted@)[k as int] == name@);
        let ghost before = r@;
        r.push(name);
        assert(views(r@) =~= views(before).push(name@));
        k += 1;
        assert(views(r@) =~= deep(sorted@).take(k as int));
    }
    assert(deep(sorted@).take(k as int) == deep(sorted@));
    r
}

/// Loading is deterministic: any two name lists of the same reference text
/// are the same list.
pub proof fn lemma_name_list_deterministic(contents: Seq<char>, a: Seq<String>, b: Seq<String>)
    requires
        is_name_list(contents, views(a)),
        is_name_list(contents, views(b)),
    ensures
        views(a) == views(b),
{
    lemma_sorted_unique(views(a), views(b));
}

proof fn lemma_segments_single_line(s: Seq<char>)
    ensures
        segments(s).len() >= 1,
        forall|i: int| 0 <= i < segments(s).len() ==> !(#[trigger] segments(s)[i]).contains('\n'),
    decreases s.len(),
{
    if s.len() > 0 {
        lemma_segments_single_line(s.drop_last());
        let r = segments(s.drop_last());
        if s.last() != '\n' {
            let l = r.last().push(s.last());
            assert(!l.contains('\n')) by {
                if l.contains('\n') {
                    let j = choose|j: int| 0 <= j < l.len() && l[j] == '\n';
                    assert(r.last()[j] == '\n');
                }
            }
            assert forall|i: int| 0 <= i < segments(s).len() implies !(#[trigger] segments(s)[i]).contains('\n') by {
                if i < r.len() - 1 {
                    assert(segments(s)[i] == r[i]);
                }
            }
        } else {
            assert forall|i: int| 0 <= i < segments(s).len() implies !(#[trigger] segments(s)[i]).contains('\n') by {
                if i < r.len() {
                    assert(segments(s)[i] == r[i]);
                }
            }
        }
    }
}

proof fn lemma_first_field_within(l: Seq<char>, c: char)
    requires
        first_field(l).contains(c),
    ensures
        l.contains(c),
    decreases l.len(),
{
    let f = first_field(l);
    let j = choose|j: int| 0 <= j < f.len() && f[j] == c;
    if j == 0 {
        assert(l[0] == c);
    } else {
        assert(first_field(l.drop_first())[j - 1] == c);
        lemma_first_field_within(l.drop_first(), c);
        let k = choose|k: int| 0 <= k < l.drop_first().len() && l.drop_first()[k] == c;
        assert(l[k + 1] == c);
    }
}

/// No station name holds a newline, so each record of a station is one line.
pub proof fn lemma_names_single_line(contents: Seq<char>, n: Seq<char>)
    requires
        station_name_set(contents).contains(n),
    ensures
        !n.contains('\n'),
{
    let ls = lines_of(contents);
    let segs = segments(contents);
    lemma_segments_single_line(contents);
    let i = choose|i: int| 0 <= i < ls.len() && line_name(ls[i]) == Some(n);
    let l = ls[i];
    assert(!l.contains('\n')) by {
        if i < segs.len() - 1 {
            let g = segs[i];
            assert(!g.contains('\n'));
            assert(l == strip_cr(g));
            if l.contains('\n') {
                let j = choose|j: int| 0 <= j < l.len() && l[j] == '\n';
                assert(g[j] == '\n');
            }
        } else {
            assert(l == segs.last());
        }
    }
    if n.contains('\n') {
        lemma_first_field_within(l, '\n');
    }
}

/// Comment lines are skipped wherever their `#` stands: every loaded name is
/// the first field of some line without `#`, and a line with `#` names nothing.
pub proof fn lemma_comment_lines_excluded(contents: Seq<char>, n: Seq<char>, l: Seq<char>)
    ensures
        station_name_set(contents).contains(n) ==> exists|i: int|
            0 <= i < lines_of(contents).len() && !(#[trigger] lines_of(contents)[i]).contains('#')
                && first_field(lines_of(contents)[i]) == n,
        l.contains('#') ==> line_name(l) is None,
{
}

} // verus!
