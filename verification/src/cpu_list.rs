//! The textual form of a CPU core list: comma-separated items, each a core
//! number (`3`) or an inclusive range (`4-7`).
use vstd::prelude::*;

use crate::error::{UtilError, UtilErrorView};
use crate::text::{
    all_digits, dec, first_index, is_digit, is_whitespace, lemma_dec_digits, lemma_first_index,
    push_decimal, trim_end, trim_start, unsigned_digits, digits_value, find_char_in, join, parse_usize, parse_usize_in, split, split_once, split_ranges,
    string_from_chars, trim, trim_bounds,
};

verus! {

// ---------------------------------------------------------------------------
// Parsing, as spec functions
// ---------------------------------------------------------------------------

/// The cores `a, a+1, ..., k-1`, each of which must be available; the first
/// one that is not is the error.
pub open spec fn range_prefix(a: int, k: int, avail: Seq<usize>) -> Result<Seq<usize>, UtilErrorView>
    decreases k - a,
{
    if k <= a {
        Ok(Seq::empty())
    } else {
        match range_prefix(a, k - 1, avail) {
            Ok(v) => if avail.contains((k - 1) as usize) {
                Ok(v.push((k - 1) as usize))
            } else {
                Err(UtilErrorView::CpuCoreNotFound((k - 1) as usize))
            },
            Err(e) => Err(e),
        }
    }
}

/// The bounds of an item of the form `start-end` (split at the first `-`,
/// each side trimmed and parsed as an unsigned number, `start <= end`).
pub open spec fn range_bounds(item: Seq<char>) -> Option<(usize, usize)> {
    match split_once(item, '-') {
        Some((l, r)) => match (parse_usize(trim(l)), parse_usize(trim(r))) {
            (Some(a), Some(b)) => if a <= b {
                Some((a, b))
            } else {
                None
            },
            _ => None,
        },
        None => None,
    }
}

/// The cores one comma-separated item names.
pub open spec fn parse_item(item: Seq<char>, avail: Seq<usize>) -> Result<Seq<usize>, UtilErrorView> {
    match range_bounds(item) {
        Some((a, b)) => range_prefix(a as int, b + 1, avail),
        None => match parse_usize(trim(item)) {
            Some(c) => if avail.contains(c) {
                Ok(seq![c])
            } else {
                Err(UtilErrorView::CpuCoreNotFound(c))
            },
            None => Err(UtilErrorView::InvalidCpuCoreRange(item)),
        },
    }
}

/// The items read left to right; the first failing item decides the error.
pub open spec fn parse_items(items: Seq<Seq<char>>, avail: Seq<usize>) -> Result<Seq<usize>, UtilErrorView>
    decreases items.len(),
{
    if items.len() == 0 {
        Ok(Seq::empty())
    } else {
        match parse_items(items.drop_last(), avail) {
            Ok(v) => match parse_item(items.last(), avail) {
                Ok(w) => Ok(v + w),
                Err(e) => Err(e),
            },
            Err(e) => Err(e),
        }
    }
}

/// The cores that the text `s` names, given the available cores.
pub open spec fn parse_cpu_list(s: Seq<char>, avail: Seq<usize>) -> Result<Seq<usize>, UtilErrorView> {
    parse_items(split(s, ','), avail)
}

// ---------------------------------------------------------------------------
// Rendering, as spec functions
// ---------------------------------------------------------------------------

/// The maximal runs of consecutive core numbers, as `(first, last)` pairs, in order.
pub open spec fn runs(s: Seq<usize>) -> Seq<(usize, usize)>
    decreases s.len(),
{
    if s.len() == 0 {
        Seq::empty()
    } else {
        let r = runs(s.drop_last());
        let x = s.last();
        if r.len() > 0 && r.last().1 + 1 == x {
            r.update(r.len() - 1, (r.last().0, x))
        } else {
            r.push((x, x))
        }
    }
}

/// `first` alone, or `first-last`.
pub open spec fn run_text(r: (usize, usize)) -> Seq<char> {
    if r.0 == r.1 {
        dec(r.0 as nat)
    } else {
        dec(r.0 as nat) + seq!['-'] + dec(r.1 as nat)
    }
}

/// The texts of several runs.
pub open spec fn run_texts(rs: Seq<(usize, usize)>) -> Seq<Seq<char>> {
    rs.map_values(|r: (usize, usize)| run_text(r))
}

/// The text of a core list: its runs, comma-separated.
pub open spec fn cpu_list_text(s: Seq<usize>) -> Seq<char> {
    join(run_texts(runs(s)), ',')
}

// ---------------------------------------------------------------------------
// Executable parsing
// ---------------------------------------------------------------------------

/// Whether `c` is among `avail`.
pub fn contains_core(avail: &Vec<usize>, c: usize) -> (r: bool)
    ensures
        r == avail@.contains(c),
{
    let mut i: usize = 0;
    while i < avail.len()
        invariant
            0 <= i <= avail.len(),
            forall|j: int| 0 <= j < i ==> avail@[j] != c,
        decreases avail.len() - i,
    {
        if avail[i] == c {
            assert(avail@[i as int] == c);
            return true;
        }
        i = i + 1;
    }
    false
}

/// Appends the cores `a..=b`, or reports the first one that is not available.
fn push_range(out: &mut Vec<usize>, a: usize, b: usize, avail: &Vec<usize>) -> (r: Result<(), UtilError>)
    requires
        a <= b,
    ensures
        match range_prefix(a as int, b + 1, avail@) {
            Ok(v) => r is Ok && final(out)@ == old(out)@ + v,
            Err(e) => r matches Err(x) && x@ == e,
        },
{
    let ghost base = out@;
    assert(base == old(out)@);
    let mut core = a;
    assert(out@.subrange(base.len() as int, out@.len() as int) =~= Seq::<usize>::empty());
    assert(out@ =~= base + Seq::<usize>::empty());
    loop
        invariant
            a <= core <= b,
            base == old(out)@,
            range_prefix(a as int, core as int, avail@) == Ok::<Seq<usize>, UtilErrorView>(
                out@.subrange(base.len() as int, out@.len() as int),
            ),
            out@ == base + out@.subrange(base.len() as int, out@.len() as int),
        decreases b - core,
    {
        let ghost v = out@.subrange(base.len() as int, out@.len() as int);
        if !contains_core(avail, core) {
            proof {
                lemma_range_prefix_err_stays(a as int, core as int + 1, b + 1, avail@);
            }
            return Err(UtilError::CpuCoreNotFound(core));
        }
        out.push(core);
        assert(out@.subrange(base.len() as int, out@.len() as int) =~= v.push(core));
        assert(out@ =~= base + out@.subrange(base.len() as int, out@.len() as int));
        assert(range_prefix(a as int, core + 1, avail@) == Ok::<Seq<usize>, UtilErrorView>(
            v.push(core),
        ));
        if core == b {
            assert(out@ == old(out)@ + v.push(core));
            return Ok(());
        }
        core = core + 1;
    }
}

/// Once a prefix of a range fails, the whole range fails the same way.
pub proof fn lemma_range_prefix_err_stays(a: int, k: int, m: int, avail: Seq<usize>)
    requires
        a <= k <= m,
        range_prefix(a, k, avail) is Err,
    ensures
        range_prefix(a, m, avail) == range_prefix(a, k, avail),
    decreases m - k,
{
    if m > k {
        lemma_range_prefix_err_stays(a, k, m - 1, avail);
    }
}

/// Parses the item `s[lo..hi]` and appends the cores it names.
fn push_item(out: &mut Vec<usize>, s: &Vec<char>, lo: usize, hi: usize, avail: &Vec<usize>) -> (r:
    Result<(), UtilError>)
    requires
        lo <= hi <= s.len(),
    ensures
        match parse_item(s@.subrange(lo as int, hi as int), avail@) {
            Ok(w) => r is Ok && final(out)@ == old(out)@ + w,
            Err(e) => r matches Err(x) && x@ == e,
        },
{
    let ghost item = s@.subrange(lo as int, hi as int);
    let dash = find_char_in(s, lo, hi, '-');
    let mut bounds: Option<(usize, usize)> = None;
    match dash {
        Some(k) => {
            let (l0, l1) = trim_bounds(s, lo, k);
            let (r0, r1) = trim_bounds(s, k + 1, hi);
            let left = parse_usize_in(s, l0, l1);
            let right = parse_usize_in(s, r0, r1);
            proof {
                assert(item.take(k - lo) =~= s@.subrange(lo as int, k as int));
                assert(item.skip(k - lo + 1) =~= s@.subrange(k + 1, hi as int));
            }
            match (left, right) {
                (Some(x), Some(y)) => {
                    if x <= y {
                        bounds = Some((x, y));
                    }
                },
                _ => {},
            }
        },
        None => {},
    }
    assert(bounds == range_bounds(item));
    match bounds {
        Some((x, y)) => push_range(out, x, y, avail),
        None => {
            let (t0, t1) = trim_bounds(s, lo, hi);
            match parse_usize_in(s, t0, t1) {
                Some(c) => {
                    if contains_core(avail, c) {
                        out.push(c);
                        Ok(())
                    } else {
                        Err(UtilError::CpuCoreNotFound(c))
                    }
                },
                None => {
                    let text = string_from_chars(&s.as_slice()[lo..hi]);
                    Err(UtilError::InvalidCpuCoreRange(text))
                },
            }
        },
    }
}

/// The cores that the text `s` names, given the available cores `avail`.
pub fn parse_cpu_list_chars(s: &Vec<char>, avail: &Vec<usize>) -> (r: Result<Vec<usize>, UtilError>)
    ensures
        match parse_cpu_list(s@, avail@) {
            Ok(v) => r matches Ok(x) && x@ == v,
            Err(e) => r matches Err(x) && x@ == e,
        },
{
    let items = split_ranges(s, ',');
    let ghost parts = split(s@, ',');
    let mut out: Vec<usize> = Vec::new();
    let mut i: usize = 0;
    assert(parts.take(0) =~= Seq::<Seq<char>>::empty());
    while i < items.len()
        invariant
            0 <= i <= items.len(),
            parts == split(s@, ','),
            items.len() == parts.len(),
            forall|j: int| #![trigger items[j]] 0 <= j < items.len() ==> items[j].0 <= items[j].1 <= s.len(),
            forall|j: int|
                #![trigger items[j]]
                0 <= j < items.len() ==> s@.subrange(items[j].0 as int, items[j].1 as int)
                    == parts[j],
            parse_items(parts.take(i as int), avail@) == Ok::<Seq<usize>, UtilErrorView>(out@),
        decreases items.len() - i,
    {
        let (lo, hi) = items[i];
        assert(parts.take(i + 1).drop_last() =~= parts.take(i as int));
        assert(parts.take(i + 1).last() == parts[i as int]);
        let res = push_item(&mut out, s, lo, hi, avail);
        match res {
            Ok(()) => {},
            Err(e) => {
                proof {
                    lemma_parse_items_err_stays(parts, i as int + 1, avail@);
                    assert(parts.take(parts.len() as int) =~= parts);
                }
                return Err(e);
            },
        }
        i = i + 1;
    }
    assert(parts.take(i as int) =~= parts);
    Ok(out)
}

/// Once a prefix of the items fails, every longer prefix fails the same way.
pub proof fn lemma_parse_items_err_stays(parts: Seq<Seq<char>>, k: int, avail: Seq<usize>)
    requires
        0 <= k <= parts.len(),
        parse_items(parts.take(k), avail) is Err,
    ensures
        parse_items(parts.take(parts.len() as int), avail) == parse_items(parts.take(k), avail),
    decreases parts.len() - k,
{
    if k < parts.len() {
        assert(parts.take(k + 1).drop_last() =~= parts.take(k));
        lemma_parse_items_err_stays(parts, k + 1, avail);
    }
}

// ---------------------------------------------------------------------------
// Executable rendering
// ---------------------------------------------------------------------------

/// Appends `first` or `first-last`.
fn push_run(out: &mut Vec<char>, a: usize, b: usize)
    ensures
        final(out)@ == old(out)@ + run_text((a, b)),
{
    push_decimal(out, a);
    if a != b {
        out.push('-');
        push_decimal(out, b);
    }
    assert(out@ =~= old(out)@ + run_text((a, b)));
}

/// The text of the core list `cores`.
pub fn cpu_list_chars(cores: &Vec<usize>) -> (r: Vec<char>)
    ensures
        r@ == cpu_list_text(cores@),
{
    let mut out: Vec<char> = Vec::new();
    let n = cores.len();
    if n == 0 {
        assert(cores@ =~= Seq::<usize>::empty());
        assert(run_texts(runs(cores@)) =~= Seq::<Seq<char>>::empty());
        return out;
    }
    let mut start = cores[0];
    let mut end = cores[0];
    let mut i: usize = 1;
    let ghost mut done: Seq<(usize, usize)> = Seq::empty();
    let mut flushed = false;
    proof {
        assert(cores@.take(1).drop_last() =~= Seq::<usize>::empty());
        assert(runs(cores@.take(1).drop_last()) =~= Seq::<(usize, usize)>::empty());
        assert(cores@.take(1).last() == start);
        assert(runs(cores@.take(1)) =~= seq![(start, end)]);
        assert(run_texts(done) =~= Seq::<Seq<char>>::empty());
    }
    while i < n
        invariant
            n == cores.len(),
            1 <= i <= n,
            flushed == (done.len() > 0),
            runs(cores@.take(i as int)) == done.push((start, end)),
            out@ == join(run_texts(done), ','),
        decreases n - i,
    {
        let x = cores[i];
        assert(cores@.take(i + 1).drop_last() =~= cores@.take(i as int));
        assert(cores@.take(i + 1).last() == x);
        if end < usize::MAX && x == end + 1 {
            end = x;
            assert(runs(cores@.take(i + 1)) =~= done.push((start, end)));
        } else {
            if flushed {
                out.push(',');
            }
            push_run(&mut out, start, end);
            flushed = true;
            proof {
                lemma_join_push(run_texts(done), run_text((start, end)), ',');
                assert(run_texts(done.push((start, end)))
                    =~= run_texts(done).push(run_text((start, end))));
                done = done.push((start, end));
            }
            start = x;
            end = x;
            assert(runs(cores@.take(i + 1)) =~= done.push((start, end)));
        }
        i = i + 1;
    }
    if flushed {
        out.push(',');
    }
    push_run(&mut out, start, end);
    proof {
        lemma_join_push(run_texts(done), run_text((start, end)), ',');
        assert(run_texts(done.push((start, end)))
            =~= run_texts(done).push(run_text((start, end))));
        assert(cores@.take(n as int) =~= cores@);
    }
    out
}

/// Joining one more piece appends the separator (if needed) and the piece.
pub proof fn lemma_join_push(parts: Seq<Seq<char>>, p: Seq<char>, sep: char)
    ensures
        join(parts.push(p), sep) == if parts.len() == 0 {
            p
        } else {
            join(parts, sep) + seq![sep] + p
        },
{
    assert(parts.push(p).drop_last() =~= parts);
}

// ---------------------------------------------------------------------------
// The text of a core list reads back as the same list
// ---------------------------------------------------------------------------

/// The cores `a..=b`.
pub open spec fn expand(r: (usize, usize)) -> Seq<usize> {
    Seq::new((r.1 - r.0 + 1) as nat, |i: int| (r.0 + i) as usize)
}

/// All cores of a sequence of runs, in order.
pub open spec fn flatten(rs: Seq<(usize, usize)>) -> Seq<usize>
    decreases rs.len(),
{
    if rs.len() == 0 {
        Seq::empty()
    } else {
        flatten(rs.drop_last()) + expand(rs.last())
    }
}

pub open spec fn runs_wf(rs: Seq<(usize, usize)>) -> bool {
    forall|i: int| 0 <= i < rs.len() ==> (#[trigger] rs[i]).0 <= rs[i].1
}

/// The runs of `s` are well formed and spell out `s` again.
pub proof fn lemma_runs_flatten(s: Seq<usize>)
    ensures
        runs_wf(runs(s)),
        flatten(runs(s)) == s,
        s.len() > 0 ==> runs(s).len() > 0 && runs(s).last().1 == s.last(),
    decreases s.len(),
{
    if s.len() > 0 {
        let p = s.drop_last();
        lemma_runs_flatten(p);
        let r = runs(p);
        let x = s.last();
        if r.len() > 0 && r.last().1 + 1 == x {
            let n = r.update(r.len() - 1, (r.last().0, x));
            assert(n.drop_last() =~= r.drop_last());
            assert(expand((r.last().0, x)) =~= expand(r.last()).push(x));
            assert(flatten(n) =~= flatten(r).push(x));
            assert(s =~= p.push(x));
        } else {
            let n = r.push((x, x));
            assert(n.drop_last() =~= r);
            assert(expand((x, x)) =~= seq![x]);
            assert(s =~= p.push(x));
        }
    }
}

/// Splitting after a text without the separator extends the last piece.
pub proof fn lemma_split_append(x: Seq<char>, y: Seq<char>, sep: char)
    requires
        forall|i: int| 0 <= i < y.len() ==> y[i] != sep,
    ensures
        split(x + y, sep) == split(x, sep).update(
            split(x, sep).len() - 1,
            split(x, sep).last() + y,
        ),
    decreases y.len(),
{
    crate::text::lemma_split_nonempty(x, sep);
    let r = split(x, sep);
    if y.len() == 0 {
        assert(x + y =~= x);
        assert(r.last() + y =~= r.last());
        assert(r.update(r.len() - 1, r.last()) =~= r);
    } else {
        let y0 = y.drop_last();
        lemma_split_append(x, y0, sep);
        assert((x + y).drop_last() =~= x + y0);
        assert((x + y).last() == y.last());
        assert((r.last() + y0).push(y.last()) =~= r.last() + y);
        let q = split(x + y0, sep);
        assert(q.update(q.len() - 1, q.last().push(y.last())) =~= r.update(
            r.len() - 1,
            r.last() + y,
        ));
    }
}

pub open spec fn free_of(t: Seq<char>, c: char) -> bool {
    forall|i: int| 0 <= i < t.len() ==> t[i] != c
}

/// Splitting a joined text gives back its pieces, when no piece holds the separator.
pub proof fn lemma_split_join(parts: Seq<Seq<char>>, sep: char)
    requires
        parts.len() >= 1,
        forall|i: int| 0 <= i < parts.len() ==> free_of(#[trigger] parts[i], sep),
    ensures
        split(join(parts, sep), sep) == parts,
    decreases parts.len(),
{
    let e = Seq::<char>::empty();
    if parts.len() == 1 {
        lemma_split_append(e, parts[0], sep);
        assert(e + parts[0] =~= parts[0]);
        assert(split(e, sep) =~= seq![e]);
        assert(seq![e].update(0, e + parts[0]) =~= parts);
    } else {
        let init = parts.drop_last();
        lemma_split_join(init, sep);
        let j = join(init, sep);
        let js = j + seq![sep];
        assert(js.drop_last() =~= j);
        assert(split(js, sep) == split(j, sep).push(e));
        assert(free_of(parts.last(), sep));
        lemma_split_append(js, parts.last(), sep);
        assert(e + parts.last() =~= parts.last());
        assert(init.push(e).update(init.len() as int, parts.last()) =~= parts);
    }
}

pub proof fn lemma_dec_text(n: nat)
    ensures
        dec(n).len() >= 1,
        all_digits(dec(n)),
        digits_value(dec(n)) == n,
        free_of(dec(n), ','),
        free_of(dec(n), '-'),
        trim(dec(n)) == dec(n),
        first_index(dec(n), '-') == None::<int>,
        n <= usize::MAX ==> parse_usize(dec(n)) == Some(n as usize),
{
    lemma_dec_digits(n);
    let d = dec(n);
    assert(is_digit(d[0]));
    assert(is_digit(d.last()));
    assert(!is_whitespace(d[0]));
    assert(trim_start(d) == d);
    assert(!is_whitespace(d.last()));
    assert(trim_end(d) == d);
    assert(free_of(d, '-')) by {
        assert forall|i: int| 0 <= i < d.len() implies d[i] != '-' by {
            assert(is_digit(d[i]));
        }
    }
    assert(free_of(d, ',')) by {
        assert forall|i: int| 0 <= i < d.len() implies d[i] != ',' by {
            assert(is_digit(d[i]));
        }
    }
    lemma_first_index(d, '-', d.len() as int);
    assert(unsigned_digits(d) == d);
}

/// All cores of a range are available: the range reads as those cores.
pub proof fn lemma_range_prefix_ok(a: int, k: int, avail: Seq<usize>)
    requires
        0 <= a <= k <= usize::MAX + 1,
        forall|c: usize| a <= c < k ==> #[trigger] avail.contains(c),
    ensures
        range_prefix(a, k, avail) == Ok::<Seq<usize>, UtilErrorView>(
            Seq::new((k - a) as nat, |i: int| (a + i) as usize),
        ),
    decreases k - a,
{
    if k > a {
        lemma_range_prefix_ok(a, k - 1, avail);
        assert(avail.contains((k - 1) as usize));
        assert(Seq::new((k - 1 - a) as nat, |i: int| (a + i) as usize).push((k - 1) as usize)
            =~= Seq::new((k - a) as nat, |i: int| (a + i) as usize));
    } else {
        assert(Seq::new((k - a) as nat, |i: int| (a + i) as usize) =~= Seq::<usize>::empty());
    }
}

/// The text of one run reads back as the cores of the run.
pub proof fn lemma_parse_run_text(r: (usize, usize), avail: Seq<usize>)
    requires
        r.0 <= r.1,
        forall|i: int| 0 <= i < expand(r).len() ==> avail.contains(#[trigger] expand(r)[i]),
    ensures
        parse_item(run_text(r), avail) == Ok::<Seq<usize>, UtilErrorView>(expand(r)),
        free_of(run_text(r), ','),
{
    let (a, b) = r;
    lemma_dec_text(a as nat);
    lemma_dec_text(b as nat);
    if a == b {
        assert(expand(r)[0] == a);
        assert(expand(r) =~= seq![a]);
        assert(split_once(dec(a as nat), '-') is None);
    } else {
        let t = run_text(r);
        let da = dec(a as nat);
        let db = dec(b as nat);
        assert(t =~= da + seq!['-'] + db);
        lemma_first_index(t, '-', da.len() as int);
        assert(t.take(da.len() as int) =~= da);
        assert(t.skip(da.len() as int + 1) =~= db);
        assert(range_bounds(t) == Some((a, b)));
        assert forall|c: usize| a <= c < b + 1 implies #[trigger] avail.contains(c) by {
            assert(expand(r)[c - a] == c);
        }
        lemma_range_prefix_ok(a as int, b + 1, avail);
        assert(Seq::new((b + 1 - a) as nat, |i: int| (a + i) as usize) =~= expand(r));
        assert(free_of(t, ',')) by {
            assert forall|i: int| 0 <= i < t.len() implies t[i] != ',' by {
                if i < da.len() {
                    assert(t[i] == da[i]);
                } else if i > da.len() {
                    assert(t[i] == db[i - da.len() - 1]);
                }
            }
        }
    }
}

/// The texts of well-formed runs whose cores are all available read back as those cores.
pub proof fn lemma_parse_run_texts(rs: Seq<(usize, usize)>, avail: Seq<usize>)
    requires
        runs_wf(rs),
        forall|i: int| 0 <= i < flatten(rs).len() ==> avail.contains(#[trigger] flatten(rs)[i]),
    ensures
        parse_items(run_texts(rs), avail) == Ok::<
            Seq<usize>,
            UtilErrorView,
        >(flatten(rs)),
        forall|i: int|
            0 <= i < rs.len() ==> free_of(
                #[trigger] run_texts(rs)[i],
                ',',
            ),
    decreases rs.len(),
{
    let m = run_texts(rs);
    if rs.len() > 0 {
        let init = rs.drop_last();
        let f0 = flatten(init);
        let e = expand(rs.last());
        assert(flatten(rs) == f0 + e);
        assert forall|i: int| 0 <= i < f0.len() implies avail.contains(#[trigger] f0[i]) by {
            assert(flatten(rs)[i] == f0[i]);
        }
        assert forall|i: int| 0 <= i < e.len() implies avail.contains(#[trigger] e[i]) by {
            assert(flatten(rs)[f0.len() + i] == e[i]);
        }
        assert(runs_wf(init)) by {
            assert forall|i: int| 0 <= i < init.len() implies (#[trigger] init[i]).0 <= init[i].1 by {
                assert(init[i] == rs[i]);
            }
        }
        lemma_parse_run_texts(init, avail);
        assert(rs[rs.len() - 1] == rs.last());
        lemma_parse_run_text(rs.last(), avail);
        assert(m.drop_last() =~= run_texts(init));
        assert(m.last() == run_text(rs.last()));
        assert forall|i: int| 0 <= i < rs.len() implies free_of(#[trigger] m[i], ',') by {
            if i < rs.len() - 1 {
                assert(m[i] == run_texts(init)[i]);
            }
        }
    } else {
        assert(m =~= Seq::<Seq<char>>::empty());
    }
}

/// Reading back the text of a non-empty core list, all of whose cores are
/// available, gives the same list: the rendering and the parser are inverse.
pub proof fn lemma_text_round_trip(s: Seq<usize>, avail: Seq<usize>)
    requires
        s.len() > 0,
        forall|i: int| 0 <= i < s.len() ==> avail.contains(#[trigger] s[i]),
    ensures
        parse_cpu_list(cpu_list_text(s), avail) == Ok::<Seq<usize>, UtilErrorView>(s),
{
    lemma_runs_flatten(s);
    let rs = runs(s);
    let m = run_texts(rs);
    lemma_parse_run_texts(rs, avail);
    lemma_split_join(m, ',');
}

// ---------------------------------------------------------------------------
// A parsed list names available cores only
// ---------------------------------------------------------------------------

pub open spec fn all_available(v: Seq<usize>, avail: Seq<usize>) -> bool {
    forall|i: int| 0 <= i < v.len() ==> avail.contains(#[trigger] v[i])
}

proof fn lemma_range_prefix_available(a: int, k: int, avail: Seq<usize>)
    ensures
        range_prefix(a, k, avail) matches Ok(v) ==> all_available(v, avail),
    decreases k - a,
{
    if k > a {
        lemma_range_prefix_available(a, k - 1, avail);
    }
}

/// Every core of a successfully parsed list is one of the available cores.
pub proof fn lemma_parsed_cores_available(items: Seq<Seq<char>>, avail: Seq<usize>)
    ensures
        parse_items(items, avail) matches Ok(v) ==> all_available(v, avail),
    decreases items.len(),
{
    if items.len() > 0 {
        lemma_parsed_cores_available(items.drop_last(), avail);
        let it = items.last();
        match range_bounds(it) {
            Some((a, b)) => lemma_range_prefix_available(a as int, b + 1, avail),
            None => {},
        }
        if let Ok(v) = parse_items(items, avail) {
            if let (Ok(p), Ok(w)) = (parse_items(items.drop_last(), avail), parse_item(it, avail)) {
                assert(v == p + w);
                assert forall|i: int| 0 <= i < v.len() implies avail.contains(#[trigger] v[i]) by {
                    if i < p.len() {
                        assert(v[i] == p[i]);
                    } else {
                        assert(v[i] == w[i - p.len()]);
                    }
                }
            }
        }
    }
}

/// Every core of a list parsed from text is available.
pub proof fn lemma_parse_cpu_list_available(s: Seq<char>, avail: Seq<usize>)
    ensures
        parse_cpu_list(s, avail) matches Ok(v) ==> all_available(v, avail),
{
    lemma_parsed_cores_available(split(s, ','), avail);
}

proof fn lemma_range_prefix_len(a: int, k: int, avail: Seq<usize>)
    requires
        a <= k,
    ensures
        range_prefix(a, k, avail) matches Ok(v) ==> v.len() == k - a,
    decreases k - a,
{
    if k > a {
        lemma_range_prefix_len(a, k - 1, avail);
    }
}

/// A successfully parsed item names at least one core.
proof fn lemma_parse_item_nonempty(item: Seq<char>, avail: Seq<usize>)
    ensures
        parse_item(item, avail) matches Ok(w) ==> w.len() > 0,
{
    match range_bounds(item) {
        Some((a, b)) => lemma_range_prefix_len(a as int, b + 1, avail),
        None => {},
    }
}

/// A successful parse of text names at least one core.
pub proof fn lemma_parse_cpu_list_nonempty(s: Seq<char>, avail: Seq<usize>)
    ensures
        parse_cpu_list(s, avail) matches Ok(v) ==> v.len() > 0,
{
    let items = split(s, ',');
    crate::text::lemma_split_nonempty(s, ',');
    lemma_parse_item_nonempty(items.last(), avail);
}

// ---------------------------------------------------------------------------
// What the errors of a parse mean
// ---------------------------------------------------------------------------

proof fn lemma_range_prefix_missing(a: int, k: int, avail: Seq<usize>)
    ensures
        range_prefix(a, k, avail) matches Err(e) ==> e matches UtilErrorView::CpuCoreNotFound(c)
            && !avail.contains(c),
    decreases k - a,
{
    if k > a {
        lemma_range_prefix_missing(a, k - 1, avail);
    }
}

/// A core reported as not found is not among the available cores, and an
/// item reported as invalid is one of the comma-separated items, untrimmed.
pub proof fn lemma_parse_errors_meaning(items: Seq<Seq<char>>, avail: Seq<usize>)
    ensures
        parse_items(items, avail) matches Err(e) ==> match e {
            UtilErrorView::CpuCoreNotFound(c) => !avail.contains(c),
            UtilErrorView::InvalidCpuCoreRange(t) => items.contains(t),
            UtilErrorView::NoCpuCores => false,
        },
    decreases items.len(),
{
    if items.len() > 0 {
        let init = items.drop_last();
        lemma_parse_errors_meaning(init, avail);
        let it = items.last();
        match range_bounds(it) {
            Some((a, b)) => lemma_range_prefix_missing(a as int, b + 1, avail),
            None => {},
        }
        if let Err(UtilErrorView::InvalidCpuCoreRange(t)) = parse_items(init, avail) {
            let j = choose|j: int| 0 <= j < init.len() && init[j] == t;
            assert(items[j] == t);
        }
        if let Err(UtilErrorView::InvalidCpuCoreRange(t)) = parse_item(it, avail) {
            assert(items[items.len() - 1] == t);
        }
    }
}

// ---------------------------------------------------------------------------
// The runs of the text are maximal
// ---------------------------------------------------------------------------

/// No run ends one before the next run starts: neighbouring runs could not be merged.
pub open spec fn runs_maximal(rs: Seq<(usize, usize)>) -> bool {
    forall|i: int| 0 <= i < rs.len() - 1 ==> (#[trigger] rs[i]).1 + 1 != rs[i + 1].0
}

/// The runs of a core list are maximal: the text never splits a stretch of
/// consecutive cores into two items.
pub proof fn lemma_runs_maximal(s: Seq<usize>)
    ensures
        runs_maximal(runs(s)),
    decreases s.len(),
{
    if s.len() > 0 {
        let p = s.drop_last();
        lemma_runs_maximal(p);
        let r = runs(p);
        let x = s.last();
        if r.len() > 0 && r.last().1 + 1 == x {
            let n = r.update(r.len() - 1, (r.last().0, x));
            assert forall|i: int| 0 <= i < n.len() - 1 implies (#[trigger] n[i]).1 + 1 != n[i + 1].0 by {
                assert(n[i] == r[i]);
                if i + 1 < r.len() - 1 {
                    assert(n[i + 1] == r[i + 1]);
                } else {
                    assert(n[i + 1].0 == r[i + 1].0);
                }
            }
        } else {
            let n = r.push((x, x));
            assert forall|i: int| 0 <= i < n.len() - 1 implies (#[trigger] n[i]).1 + 1 != n[i + 1].0 by {
                assert(n[i] == r[i]);
                if i + 1 < r.len() {
                    assert(n[i + 1] == r[i + 1]);
                }
            }
        }
    }
}

/// The cores `a, a+1, ..., a+n-1`.
pub open spec fn consecutive(a: usize, n: nat) -> Seq<usize> {
    Seq::new(n, |i: int| (a + i) as usize)
}

proof fn lemma_runs_consecutive(a: usize, n: nat)
    requires
        n >= 1,
        a + n - 1 <= usize::MAX,
    ensures
        runs(consecutive(a, n)) == seq![(a, (a + n - 1) as usize)],
    decreases n,
{
    let s = consecutive(a, n);
    if n == 1 {
        assert(s.drop_last() =~= Seq::<usize>::empty());
        assert(runs(s.drop_last()) =~= Seq::<(usize, usize)>::empty());
    } else {
        lemma_runs_consecutive(a, (n - 1) as nat);
        assert(s.drop_last() =~= consecutive(a, (n - 1) as nat));
        assert(seq![(a, (a + n - 2) as usize)].update(0, (a, (a + n - 1) as usize)) =~= seq![
            (a, (a + n - 1) as usize),
        ]);
    }
}

/// A stretch of two or more consecutive cores is written as one range
/// `first-last`, however long it is.
pub proof fn lemma_text_of_consecutive(a: usize, n: nat)
    requires
        n >= 2,
        a + n - 1 <= usize::MAX,
    ensures
        cpu_list_text(consecutive(a, n)) == dec(a as nat) + seq!['-'] + dec((a + n - 1) as nat),
{
    lemma_runs_consecutive(a, n);
    let rs = runs(consecutive(a, n));
    assert(run_texts(rs) =~= seq![run_text((a, (a + n - 1) as usize))]);
}

} // verus!
