//! Character-level text handling: whitespace trimming, splitting on a
//! separator, unsigned decimal parsing and decimal rendering, each stated as a
//! spec function over `Seq<char>` and implemented over a `Vec<char>`.
use vstd::prelude::*;

verus! {

// ---------------------------------------------------------------------------
// Character classes
// ---------------------------------------------------------------------------

/// Unicode `White_Space`, the set that `char::is_whitespace` and `str::trim` use.
pub open spec fn is_whitespace(c: char) -> bool {
    let u = c as u32;
    (0x9 <= u && u <= 0xd) || u == 0x20 || u == 0x85 || u == 0xa0 || u == 0x1680 || (0x2000 <= u
        && u <= 0x200a) || u == 0x2028 || u == 0x2029 || u == 0x202f || u == 0x205f || u == 0x3000
}

/// An ASCII decimal digit `'0'..='9'`.
pub open spec fn is_digit(c: char) -> bool {
    48 <= (c as u32) && (c as u32) <= 57
}

/// The value of an ASCII decimal digit.
pub open spec fn digit_of(c: char) -> nat {
    ((c as u32) - 48) as nat
}

/// The ASCII digit of a value below ten.
pub open spec fn digit_char(d: nat) -> char {
    (d + 48) as char
}

pub open spec fn all_digits(s: Seq<char>) -> bool {
    forall|i: int| 0 <= i < s.len() ==> is_digit(#[trigger] s[i])
}

// ---------------------------------------------------------------------------
// Decimal numbers
// ---------------------------------------------------------------------------

/// The number that a string of decimal digits denotes (leading zeros allowed).
pub open spec fn digits_value(s: Seq<char>) -> nat
    decreases s.len(),
{
    if s.len() == 0 {
        0
    } else {
        digits_value(s.drop_last()) * 10 + digit_of(s.last())
    }
}

/// The digits of an unsigned number after an optional leading `'+'`.
pub open spec fn unsigned_digits(s: Seq<char>) -> Seq<char> {
    if s.len() > 0 && s[0] == '+' {
        s.drop_first()
    } else {
        s
    }
}

/// What `s.parse::<usize>()` yields: an optional `'+'` followed by one or more
/// ASCII digits whose value fits in a `usize`; anything else is an error.
pub open spec fn parse_usize(s: Seq<char>) -> Option<usize> {
    let d = unsigned_digits(s);
    if d.len() > 0 && all_digits(d) && digits_value(d) <= usize::MAX {
        Some(digits_value(d) as usize)
    } else {
        None
    }
}

/// The shortest decimal rendering of `n`, as `format!("{n}")` writes it.
pub open spec fn dec(n: nat) -> Seq<char>
    decreases n,
{
    if n < 10 {
        seq![digit_char(n)]
    } else {
        dec(n / 10).push(digit_char(n % 10))
    }
}

// ---------------------------------------------------------------------------
// Trimming
// ---------------------------------------------------------------------------

pub open spec fn trim_start(s: Seq<char>) -> Seq<char>
    decreases s.len(),
{
    if s.len() > 0 && is_whitespace(s[0]) {
        trim_start(s.drop_first())
    } else {
        s
    }
}

pub open spec fn trim_end(s: Seq<char>) -> Seq<char>
    decreases s.len(),
{
    if s.len() > 0 && is_whitespace(s.last()) {
        trim_end(s.drop_last())
    } else {
        s
    }
}

/// `str::trim`: leading and trailing whitespace removed.
pub open spec fn trim(s: Seq<char>) -> Seq<char> {
    trim_end(trim_start(s))
}

// ---------------------------------------------------------------------------
// Splitting and joining
// ---------------------------------------------------------------------------

/// `str::split` on a single separator: `k` separators give `k + 1` pieces.
pub open spec fn split(s: Seq<char>, sep: char) -> Seq<Seq<char>>
    decreases s.len(),
{
    if s.len() == 0 {
        seq![Seq::empty()]
    } else {
        let r = split(s.drop_last(), sep);
        if s.last() == sep {
            r.push(Seq::empty())
        } else {
            r.update(r.len() - 1, r.last().push(s.last()))
        }
    }
}

/// Index of the first occurrence of `c` in `s`.
pub open spec fn first_index(s: Seq<char>, c: char) -> Option<int>
    decreases s.len(),
{
    if s.len() == 0 {
        None
    } else if s[0] == c {
        Some(0)
    } else {
        match first_index(s.drop_first(), c) {
            Some(i) => Some(i + 1),
            None => None,
        }
    }
}

/// `str::split_once`: the text before and after the first occurrence of `c`.
pub open spec fn split_once(s: Seq<char>, c: char) -> Option<(Seq<char>, Seq<char>)> {
    match first_index(s, c) {
        Some(i) => Some((s.take(i), s.skip(i + 1))),
        None => None,
    }
}

/// The pieces written one after another with `sep` between neighbours.
pub open spec fn join(parts: Seq<Seq<char>>, sep: char) -> Seq<char>
    decreases parts.len(),
{
    if parts.len() == 0 {
        Seq::empty()
    } else if parts.len() == 1 {
        parts[0]
    } else {
        join(parts.drop_last(), sep) + seq![sep] + parts.last()
    }
}

// ---------------------------------------------------------------------------
// Lemmas
// ---------------------------------------------------------------------------

pub proof fn lemma_split_nonempty(s: Seq<char>, sep: char)
    ensures
        split(s, sep).len() >= 1,
    decreases s.len(),
{
    if s.len() > 0 {
        lemma_split_nonempty(s.drop_last(), sep);
    }
}

/// A prefix of a digit string never denotes more than the whole string.
pub proof fn lemma_digits_value_prefix(t: Seq<char>, k: int)
    requires
        0 <= k <= t.len(),
    ensures
        digits_value(t.take(k)) <= digits_value(t),
    decreases t.len(),
{
    if k < t.len() {
        lemma_digits_value_prefix(t.drop_last(), k);
        assert(t.drop_last().take(k) =~= t.take(k));
    } else {
        assert(t.take(k) =~= t);
    }
}

pub proof fn lemma_first_index(s: Seq<char>, c: char, k: int)
    requires
        0 <= k <= s.len(),
        forall|j: int| 0 <= j < k ==> s[j] != c,
        k < s.len() ==> s[k] == c,
    ensures
        first_index(s, c) == (if k < s.len() {
            Some(k)
        } else {
            None::<int>
        }),
    decreases s.len(),
{
    if s.len() > 0 && k > 0 {
        lemma_first_index(s.drop_first(), c, k - 1);
    }
}

pub proof fn lemma_trim_start_ws(s: Seq<char>, a: int, hi: int)
    requires
        0 <= a < hi <= s.len(),
        is_whitespace(s[a]),
    ensures
        trim_start(s.subrange(a, hi)) == trim_start(s.subrange(a + 1, hi)),
{
    assert(s.subrange(a, hi).drop_first() =~= s.subrange(a + 1, hi));
}

pub proof fn lemma_trim_end_ws(s: Seq<char>, a: int, b: int)
    requires
        0 <= a < b <= s.len(),
        is_whitespace(s[b - 1]),
    ensures
        trim_end(s.subrange(a, b)) == trim_end(s.subrange(a, b - 1)),
{
    assert(s.subrange(a, b).drop_last() =~= s.subrange(a, b - 1));
}

pub proof fn lemma_dec_digits(n: nat)
    ensures
        dec(n).len() >= 1,
        all_digits(dec(n)),
        digits_value(dec(n)) == n,
    decreases n,
{
    if n >= 10 {
        lemma_dec_digits(n / 10);
        let d = dec(n);
        assert(d.drop_last() =~= dec(n / 10));
    } else {
        assert(digits_value(dec(n).drop_last()) == 0) by {
            assert(dec(n).drop_last() =~= Seq::<char>::empty());
        }
    }
}

// ---------------------------------------------------------------------------
// Executable helpers
// ---------------------------------------------------------------------------

pub fn char_is_whitespace(c: char) -> (r: bool)
    ensures
        r == is_whitespace(c),
{
    let u = c as u32;
    (0x9 <= u && u <= 0xd) || u == 0x20 || u == 0x85 || u == 0xa0 || u == 0x1680 || (0x2000 <= u
        && u <= 0x200a) || u == 0x2028 || u == 0x2029 || u == 0x202f || u == 0x205f || u == 0x3000
}

pub fn char_is_digit(c: char) -> (r: bool)
    ensures
        r == is_digit(c),
{
    let u = c as u32;
    48 <= u && u <= 57
}

/// The characters of `s`, in order.
pub fn str_chars(s: &str) -> (r: Vec<char>)
    ensures
        r@ == s@,
{
    let mut r: Vec<char> = Vec::new();
    for c in it: s.chars()
        invariant
            r@ == it.seq().take(it.index() as int),
            it.seq() == s@,
    {
        r.push(c);
    }
    r
}

/// Appends the characters of `s`.
pub fn push_str_chars(out: &mut Vec<char>, s: &str)
    ensures
        final(out)@ == old(out)@ + s@,
{
    let mut cs = str_chars(s);
    out.append(&mut cs);
}

/// `String::from_iter` over characters: the string holds exactly `v`'s
/// characters, in order.
#[verifier::external_body]
pub fn string_from_chars(v: &[char]) -> (r: String)
    ensures
        r@ == v@,
{
    String::from_iter(v)
}

/// Bounds of `trim(s[lo..hi])` inside `s`.
pub fn trim_bounds(s: &Vec<char>, lo: usize, hi: usize) -> (r: (usize, usize))
    requires
        lo <= hi <= s.len(),
    ensures
        lo <= r.0 <= r.1 <= hi,
        s@.subrange(r.0 as int, r.1 as int) == trim(s@.subrange(lo as int, hi as int)),
{
    let mut a = lo;
    while a < hi && char_is_whitespace(s[a])
        invariant
            lo <= a <= hi <= s.len(),
            trim_start(s@.subrange(lo as int, hi as int)) == trim_start(
                s@.subrange(a as int, hi as int),
            ),
        decreases hi - a,
    {
        proof {
            lemma_trim_start_ws(s@, a as int, hi as int);
        }
        a = a + 1;
    }
    let mut b = hi;
    while b > a && char_is_whitespace(s[b - 1])
        invariant
            lo <= a <= b <= hi <= s.len(),
            trim_start(s@.subrange(lo as int, hi as int)) == s@.subrange(a as int, hi as int),
            trim_end(s@.subrange(a as int, hi as int)) == trim_end(
                s@.subrange(a as int, b as int),
            ),
        decreases b - a,
    {
        proof {
            lemma_trim_end_ws(s@, a as int, b as int);
        }
        b = b - 1;
    }
    (a, b)
}

/// `s[lo..hi].parse::<usize>()`.
pub fn parse_usize_in(s: &Vec<char>, lo: usize, hi: usize) -> (r: Option<usize>)
    requires
        lo <= hi <= s.len(),
    ensures
        r == parse_usize(s@.subrange(lo as int, hi as int)),
{
    let ghost t = s@.subrange(lo as int, hi as int);
    let mut start = lo;
    if start < hi && s[start] == '+' {
        start = start + 1;
    }
    proof {
        if lo < hi && s@[lo as int] == '+' {
            assert(t.drop_first() =~= s@.subrange(start as int, hi as int));
        } else {
            assert(t =~= s@.subrange(start as int, hi as int));
        }
    }
    let ghost d = s@.subrange(start as int, hi as int);
    assert(unsigned_digits(t) == d);
    if start == hi {
        return None;
    }
    let mut acc: usize = 0;
    let mut i = start;
    assert(s@.subrange(start as int, start as int) =~= Seq::<char>::empty());
    while i < hi
        invariant
            lo <= start < hi <= s.len(),
            start <= i <= hi,
            d == s@.subrange(start as int, hi as int),
            unsigned_digits(t) == d,
            t == s@.subrange(lo as int, hi as int),
            all_digits(s@.subrange(start as int, i as int)),
            acc == digits_value(s@.subrange(start as int, i as int)),
        decreases hi - i,
    {
        let c = s[i];
        let ghost next = s@.subrange(start as int, i + 1);
        assert(next.drop_last() =~= s@.subrange(start as int, i as int));
        if !char_is_digit(c) {
            assert(d[i - start] == c);
            return None;
        }
        let v = (c as u32 - 48) as usize;
        assert(all_digits(next));
        assert(digits_value(next) == acc * 10 + v);
        let m = acc.checked_mul(10);
        let sum = match m {
            Some(m) => m.checked_add(v),
            None => None,
        };
        match sum {
            Some(x) => {
                acc = x;
            },
            None => {
                proof {
                    assert(digits_value(next) > usize::MAX);
                    if all_digits(d) {
                        lemma_digits_value_prefix(d, i + 1 - start);
                        assert(d.take(i + 1 - start) =~= next);
                    }
                }
                return None;
            },
        }
        i = i + 1;
    }
    assert(s@.subrange(start as int, i as int) =~= d);
    Some(acc)
}

/// Index of the first `c` in `s[lo..hi]`, as an index into `s`.
pub fn find_char_in(s: &Vec<char>, lo: usize, hi: usize, c: char) -> (r: Option<usize>)
    requires
        lo <= hi <= s.len(),
    ensures
        match r {
            Some(k) => lo <= k < hi && first_index(s@.subrange(lo as int, hi as int), c) == Some(
                k - lo,
            ),
            None => first_index(s@.subrange(lo as int, hi as int), c) == None::<int>,
        },
{
    let ghost t = s@.subrange(lo as int, hi as int);
    let mut k = lo;
    while k < hi
        invariant
            lo <= k <= hi <= s.len(),
            t == s@.subrange(lo as int, hi as int),
            forall|j: int| 0 <= j < k - lo ==> t[j] != c,
        decreases hi - k,
    {
        if s[k] == c {
            proof {
                lemma_first_index(t, c, k - lo);
            }
            return Some(k);
        }
        k = k + 1;
    }
    proof {
        lemma_first_index(t, c, k - lo);
    }
    None
}

/// The pieces of `s` between occurrences of `sep`, as index ranges into `s`.
pub fn split_ranges(s: &Vec<char>, sep: char) -> (r: Vec<(usize, usize)>)
    ensures
        r.len() == split(s@, sep).len(),
        forall|i: int| #![trigger r[i]] 0 <= i < r.len() ==> r[i].0 <= r[i].1 <= s.len(),
        forall|i: int|
            #![trigger r[i]]
            0 <= i < r.len() ==> s@.subrange(r[i].0 as int, r[i].1 as int) == split(s@, sep)[i],
{
    let n = s.len();
    let mut parts: Vec<(usize, usize)> = Vec::new();
    let mut start: usize = 0;
    let mut k: usize = 0;
    assert(s@.take(0) =~= Seq::<char>::empty());
    assert(s@.subrange(0, 0) =~= Seq::<char>::empty());
    assert(split(s@.take(0), sep) =~= Seq::<Seq<char>>::empty().push(s@.subrange(0, 0)));
    while k < n
        invariant
            n == s.len(),
            start <= k <= n,
            forall|i: int| #![trigger parts[i]] 0 <= i < parts.len() ==> parts[i].0 <= parts[i].1 <= k,
            split(s@.take(k as int), sep) == Seq::new(
                parts.len() as nat,
                |i: int| s@.subrange(parts[i].0 as int, parts[i].1 as int),
            ).push(s@.subrange(start as int, k as int)),
        decreases n - k,
    {
        let ghost old_pieces = Seq::new(
            parts.len() as nat,
            |i: int| s@.subrange(parts[i].0 as int, parts[i].1 as int),
        );
        let ghost r = split(s@.take(k as int), sep);
        assert(s@.take(k + 1).drop_last() =~= s@.take(k as int));
        assert(s@.take(k + 1).last() == s@[k as int]);
        if s[k] == sep {
            parts.push((start, k));
            start = k + 1;
            proof {
                let new_pieces = Seq::new(
                    parts.len() as nat,
                    |i: int| s@.subrange(parts[i].0 as int, parts[i].1 as int),
                );
                assert(new_pieces =~= old_pieces.push(s@.subrange(parts[parts.len() - 1].0 as int, k as int)));
                assert(s@.subrange(start as int, k + 1) =~= Seq::<char>::empty());
                assert(split(s@.take(k + 1), sep) =~= r.push(Seq::empty()));
                assert(split(s@.take(k + 1), sep) =~= new_pieces.push(
                    s@.subrange(start as int, k + 1),
                ));
            }
        } else {
            proof {
                assert(s@.subrange(start as int, k as int).push(s@[k as int]) =~= s@.subrange(
                    start as int,
                    k + 1,
                ));
                assert(r.len() == old_pieces.len() + 1);
                assert(r.last() == s@.subrange(start as int, k as int));
                assert(split(s@.take(k + 1), sep) =~= old_pieces.push(
                    s@.subrange(start as int, k + 1),
                ));
            }
        }
        k = k + 1;
    }
    let ghost old_pieces = Seq::new(
        parts.len() as nat,
        |i: int| s@.subrange(parts[i].0 as int, parts[i].1 as int),
    );
    parts.push((start, n));
    proof {
        assert(s@.take(n as int) =~= s@);
        let new_pieces = Seq::new(
            parts.len() as nat,
            |i: int| s@.subrange(parts[i].0 as int, parts[i].1 as int),
        );
        assert(new_pieces =~= old_pieces.push(s@.subrange(start as int, n as int)));
        assert forall|i: int| 0 <= i < parts.len() implies s@.subrange(
            parts[i].0 as int,
            parts[i].1 as int,
        ) == split(s@, sep)[i] by {
            assert(new_pieces[i] == s@.subrange(parts[i].0 as int, parts[i].1 as int));
        }
    }
    parts
}

/// Appends the decimal rendering of `n`.
pub fn push_decimal(out: &mut Vec<char>, n: usize)
    ensures
        final(out)@ == old(out)@ + dec(n as nat),
    decreases n,
{
    if n >= 10 {
        push_decimal(out, n / 10);
    }
    let d = (n % 10) as u8;
    let c = (d + 48) as char;
    out.push(c);
    assert(out@ =~= old(out)@ + dec(n as nat));
}

} // verus!
