//! Byte-string utilities shared by the parser, scanner and resolver.
//!
//! Text is modelled as sequences of bytes. Whitespace means ASCII whitespace
//! throughout: space, tab, line feed, carriage return, vertical tab, form feed.

use vstd::prelude::*;

verus! {

/// ASCII whitespace, as trimming and directive matching understand it.
pub open spec fn is_ws(b: u8) -> bool {
    b == 32 || b == 9 || b == 10 || b == 13 || b == 11 || b == 12
}

/// Index of the first byte at or after `i` that is not whitespace,
/// or `s.len()` if all of the rest is whitespace.
pub open spec fn first_non_ws_from(s: Seq<u8>, i: int) -> int
    decreases s.len() - i,
{
    if i < 0 {
        i
    } else if i >= s.len() {
        s.len() as int
    } else if is_ws(s[i]) {
        first_non_ws_from(s, i + 1)
    } else {
        i
    }
}

/// Index of the first occurrence of byte `b` at or after `i`,
/// or `s.len()` if there is none.
pub open spec fn first_byte_from(s: Seq<u8>, b: u8, i: int) -> int
    decreases s.len() - i,
{
    if i < 0 {
        i
    } else if i >= s.len() {
        s.len() as int
    } else if s[i] == b {
        i
    } else {
        first_byte_from(s, b, i + 1)
    }
}

/// The sequence with leading and trailing whitespace removed.
pub open spec fn spec_trim(s: Seq<u8>) -> Seq<u8>
    decreases s.len(),
{
    if s.len() == 0 {
        s
    } else if is_ws(s[0]) {
        spec_trim(s.skip(1))
    } else if is_ws(s[s.len() - 1]) {
        spec_trim(s.take(s.len() - 1))
    } else {
        s
    }
}

pub proof fn lemma_first_non_ws_from_bounds(s: Seq<u8>, i: int)
    requires
        0 <= i <= s.len(),
    ensures
        i <= first_non_ws_from(s, i) <= s.len(),
        forall|j: int| i <= j < first_non_ws_from(s, i) ==> is_ws(s[j]),
        first_non_ws_from(s, i) < s.len() ==> !is_ws(s[first_non_ws_from(s, i)]),
    decreases s.len() - i,
{
    if i < s.len() && is_ws(s[i]) {
        lemma_first_non_ws_from_bounds(s, i + 1);
    }
}

pub proof fn lemma_first_byte_from_bounds(s: Seq<u8>, b: u8, i: int)
    requires
        0 <= i <= s.len(),
    ensures
        i <= first_byte_from(s, b, i) <= s.len(),
        forall|j: int| i <= j < first_byte_from(s, b, i) ==> s[j] != b,
        first_byte_from(s, b, i) < s.len() ==> s[first_byte_from(s, b, i)] == b,
    decreases s.len() - i,
{
    if i < s.len() && s[i] != b {
        lemma_first_byte_from_bounds(s, b, i + 1);
    }
}

/// Whether `b` is ASCII whitespace.
pub fn is_ws_byte(b: u8) -> (r: bool)
    ensures
        r == is_ws(b),
{
    b == 32 || b == 9 || b == 10 || b == 13 || b == 11 || b == 12
}

/// Removes leading and trailing ASCII whitespace.
pub fn trim_ascii(s: &Vec<u8>) -> (r: Vec<u8>)
    ensures
        r@ == spec_trim(s@),
{
    let mut lo: usize = 0;
    let mut hi: usize = s.len();
    proof {
        assert(s@.subrange(0, s@.len() as int) =~= s@);
    }
    while lo < hi && is_ws_byte(s[lo])
        invariant
            0 <= lo <= hi <= s.len(),
            spec_trim(s@) == spec_trim(s@.subrange(lo as int, hi as int)),
            hi == s.len(),
        decreases hi - lo,
    {
        proof {
            assert(s@.subrange(lo as int, hi as int).skip(1) =~= s@.subrange(
                lo as int + 1,
                hi as int,
            ));
        }
        lo = lo + 1;
    }
    while lo < hi && is_ws_byte(s[hi - 1])
        invariant
            0 <= lo <= hi <= s.len(),
            spec_trim(s@) == spec_trim(s@.subrange(lo as int, hi as int)),
            lo < hi ==> !is_ws(s@.subrange(lo as int, hi as int)[0]),
        decreases hi - lo,
    {
        proof {
            let sub = s@.subrange(lo as int, hi as int);
            assert(sub.take(sub.len() - 1) =~= s@.subrange(lo as int, hi as int - 1));
        }
        hi = hi - 1;
    }
    let mut r: Vec<u8> = Vec::new();
    let mut i: usize = lo;
    while i < hi
        invariant
            lo <= i <= hi <= s.len(),
            r@ =~= s@.subrange(lo as int, i as int),
        decreases hi - i,
    {
        r.push(s[i]);
        i = i + 1;
    }
    proof {
        let sub = s@.subrange(lo as int, hi as int);
        if sub.len() > 0 {
            assert(!is_ws(sub[0]) && !is_ws(sub[sub.len() - 1]));
        }
        assert(spec_trim(sub) == sub);
        assert(r@ =~= sub);
    }
    r
}

/// Index of the first whitespace byte at or after `i`,
/// or `s.len()` if there is none.
pub open spec fn first_ws_from(s: Seq<u8>, i: int) -> int
    decreases s.len() - i,
{
    if i < 0 {
        i
    } else if i >= s.len() {
        s.len() as int
    } else if is_ws(s[i]) {
        i
    } else {
        first_ws_from(s, i + 1)
    }
}

pub proof fn lemma_first_ws_from_bounds(s: Seq<u8>, i: int)
    requires
        0 <= i <= s.len(),
    ensures
        i <= first_ws_from(s, i) <= s.len(),
        forall|j: int| i <= j < first_ws_from(s, i) ==> !is_ws(s[j]),
        first_ws_from(s, i) < s.len() ==> is_ws(s[first_ws_from(s, i)]),
    decreases s.len() - i,
{
    if i < s.len() && !is_ws(s[i]) {
        lemma_first_ws_from_bounds(s, i + 1);
    }
}

/// Finds the first occurrence of byte `b` at or after `i`.
pub fn find_byte_from(s: &Vec<u8>, b: u8, i: usize) -> (r: usize)
    requires
        i <= s@.len(),
    ensures
        r == first_byte_from(s@, b, i as int),
        i <= r <= s@.len(),
{
    let n = s.len();
    let mut j: usize = i;
    while j < n && s[j] != b
        invariant
            i <= j <= n == s@.len(),
            forall|t: int| i <= t < j ==> s@[t] != b,
        decreases n - j,
    {
        j = j + 1;
    }
    proof {
        lemma_first_byte_from_bounds(s@, b, i as int);
        let f = first_byte_from(s@, b, i as int);
        if f < j {
            assert(s@[f] == b);
        }
        if j < f {
            assert(s@[j as int] == b && s@[j as int] != b);
        }
    }
    j
}

/// Finds the first non-whitespace byte at or after `i`.
pub fn find_non_ws_from(s: &Vec<u8>, i: usize) -> (r: usize)
    requires
        i <= s@.len(),
    ensures
        r == first_non_ws_from(s@, i as int),
        i <= r <= s@.len(),
{
    let n = s.len();
    let mut j: usize = i;
    while j < n && is_ws_byte(s[j])
        invariant
            i <= j <= n == s@.len(),
            forall|t: int| i <= t < j ==> is_ws(s@[t]),
        decreases n - j,
    {
        j = j + 1;
    }
    proof {
        lemma_first_non_ws_from_bounds(s@, i as int);
        let f = first_non_ws_from(s@, i as int);
        if f < j {
            assert(!is_ws(s@[f]));
        }
        if j < f {
            assert(is_ws(s@[j as int]) && !is_ws(s@[j as int]));
        }
    }
    j
}

/// Finds the first whitespace byte at or after `i`.
pub fn find_ws_from(s: &Vec<u8>, i: usize) -> (r: usize)
    requires
        i <= s@.len(),
    ensures
        r == first_ws_from(s@, i as int),
        i <= r <= s@.len(),
{
    let n = s.len();
    let mut j: usize = i;
    while j < n && !is_ws_byte(s[j])
        invariant
            i <= j <= n == s@.len(),
            forall|t: int| i <= t < j ==> !is_ws(s@[t]),
        decreases n - j,
    {
        j = j + 1;
    }
    proof {
        lemma_first_ws_from_bounds(s@, i as int);
        let f = first_ws_from(s@, i as int);
        if f < j {
            assert(is_ws(s@[f]));
        }
        if j < f {
            assert(!is_ws(s@[j as int]) && is_ws(s@[j as int]));
        }
    }
    j
}

/// Index of the first byte at or after `i` that differs from `b`,
/// or `s.len()` if there is none.
pub open spec fn first_not_byte_from(s: Seq<u8>, b: u8, i: int) -> int
    decreases s.len() - i,
{
    if i < 0 {
        i
    } else if i >= s.len() {
        s.len() as int
    } else if s[i] == b {
        first_not_byte_from(s, b, i + 1)
    } else {
        i
    }
}

pub proof fn lemma_first_not_byte_from_bounds(s: Seq<u8>, b: u8, i: int)
    requires
        0 <= i <= s.len(),
    ensures
        i <= first_not_byte_from(s, b, i) <= s.len(),
        forall|j: int| i <= j < first_not_byte_from(s, b, i) ==> s[j] == b,
        first_not_byte_from(s, b, i) < s.len() ==> s[first_not_byte_from(s, b, i)] != b,
    decreases s.len() - i,
{
    if i < s.len() && s[i] == b {
        lemma_first_not_byte_from_bounds(s, b, i + 1);
    }
}

/// Finds the first byte at or after `i` that differs from `b`.
pub fn find_not_byte_from(s: &Vec<u8>, b: u8, i: usize) -> (r: usize)
    requires
        i <= s@.len(),
    ensures
        r == first_not_byte_from(s@, b, i as int),
        i <= r <= s@.len(),
{
    let n = s.len();
    let mut j: usize = i;
    while j < n && s[j] == b
        invariant
            i <= j <= n == s@.len(),
            forall|t: int| i <= t < j ==> s@[t] == b,
        decreases n - j,
    {
        j = j + 1;
    }
    proof {
        lemma_first_not_byte_from_bounds(s@, b, i as int);
        let f = first_not_byte_from(s@, b, i as int);
        if f < j {
            assert(s@[f] != b);
        }
        if j < f {
            assert(s@[j as int] == b && s@[j as int] != b);
        }
    }
    j
}

/// Whether two byte vectors hold the same bytes.
pub fn seq_eq(a: &Vec<u8>, b: &Vec<u8>) -> (r: bool)
    ensures
        r == (a@ =~= b@),
{
    if a.len() != b.len() {
        return false;
    }
    let r = bytes_match_at(a, 0, b);
    proof {
        assert(a@.subrange(0, b@.len() as int) =~= a@);
    }
    r
}

/// Whether `pat` occurs in `s` starting exactly at index `i`.
pub open spec fn contains_at(s: Seq<u8>, pat: Seq<u8>, i: int) -> bool {
    0 <= i && i + pat.len() <= s.len() && s.subrange(i, i + pat.len()) == pat
}

/// Whether `pat` occurs anywhere in `s`.
pub open spec fn spec_contains(s: Seq<u8>, pat: Seq<u8>) -> bool {
    exists|i: int| contains_at(s, pat, i)
}

/// Whether `pat` occurs anywhere in `s`.
pub fn contains_seq(s: &Vec<u8>, pat: &Vec<u8>) -> (r: bool)
    ensures
        r == spec_contains(s@, pat@),
{
    let n = s.len();
    let m = pat.len();
    if m > n {
        proof {
            assert(forall|i: int| !contains_at(s@, pat@, i));
        }
        return false;
    }
    let mut i: usize = 0;
    while i <= n - m
        invariant
            0 <= i <= n - m + 1,
            m <= n,
            n == s@.len(),
            m == pat@.len(),
            forall|t: int| 0 <= t < i ==> !contains_at(s@, pat@, t),
        decreases n + 1 - m - i,
    {
        if bytes_match_at(s, i, pat) {
            proof {
                assert(contains_at(s@, pat@, i as int));
            }
            return true;
        }
        i = i + 1;
    }
    proof {
        assert(forall|t: int| t > n - m ==> !contains_at(s@, pat@, t));
        assert(forall|t: int| !contains_at(s@, pat@, t));
    }
    false
}

/// The lines joined with a line feed between each pair.
pub open spec fn spec_join_nl(ls: Seq<Seq<u8>>) -> Seq<u8>
    decreases ls.len(),
{
    if ls.len() == 0 {
        Seq::empty()
    } else if ls.len() == 1 {
        ls[0]
    } else {
        ls[0] + seq![10u8] + spec_join_nl(ls.skip(1))
    }
}

/// Appending one more line extends the join with a line feed and the line.
pub proof fn lemma_join_nl_push(xs: Seq<Seq<u8>>, x: Seq<u8>)
    ensures
        xs.len() == 0 ==> spec_join_nl(xs.push(x)) == x,
        xs.len() > 0 ==> spec_join_nl(xs.push(x)) =~= spec_join_nl(xs) + seq![10u8] + x,
    decreases xs.len(),
{
    if xs.len() == 0 {
        assert(xs.push(x)[0] == x);
        assert(spec_join_nl(xs.push(x)) == x);
    } else if xs.len() == 1 {
        let p = xs.push(x);
        assert(p.len() == 2);
        assert(p[0] == xs[0]);
        assert(p.skip(1) =~= seq![x]);
        assert(spec_join_nl(seq![x]) == x);
        assert(spec_join_nl(p) == p[0] + seq![10u8] + spec_join_nl(p.skip(1)));
        assert(spec_join_nl(xs.push(x)) =~= xs[0] + seq![10u8] + x);
    } else {
        assert(xs.push(x).skip(1) =~= xs.skip(1).push(x));
        lemma_join_nl_push(xs.skip(1), x);
        assert(spec_join_nl(xs.push(x)) =~= xs[0] + seq![10u8] + spec_join_nl(xs.skip(1).push(x)));
        assert(spec_join_nl(xs) == xs[0] + seq![10u8] + spec_join_nl(xs.skip(1)));
    }
}

/// Joins lines with a line feed between each pair.
pub fn join_nl(ls: &Vec<Vec<u8>>) -> (r: Vec<u8>)
    ensures
        r@ == spec_join_nl(views_of(ls@)),
{
    let mut r: Vec<u8> = Vec::new();
    let n = ls.len();
    let mut i: usize = 0;
    while i < n
        invariant
            0 <= i <= n == ls@.len(),
            i == 0 ==> r@ =~= Seq::<u8>::empty(),
            i > 0 ==> r@ =~= spec_join_nl(views_of(ls@).take(i as int)),
        decreases n - i,
    {
        if i > 0 {
            r.push(10);
        }
        push_all(&mut r, &ls[i]);
        proof {
            let lv = views_of(ls@);
            assert(lv.take(i as int).push(lv[i as int]) =~= lv.take(i as int + 1));
            lemma_join_nl_push(lv.take(i as int), lv[i as int]);
            assert(lv[i as int] == ls@[i as int]@);
        }
        i = i + 1;
    }
    proof {
        if n == 0 {
            assert(views_of(ls@).len() == 0);
        } else {
            assert(views_of(ls@).take(n as int) =~= views_of(ls@));
        }
    }
    r
}

/// A line with a trailing carriage return removed.
pub open spec fn strip_cr(l: Seq<u8>) -> Seq<u8> {
    if l.len() > 0 && l[l.len() - 1] == 13 {
        l.take(l.len() - 1)
    } else {
        l
    }
}

/// The views of a sequence of byte vectors.
pub open spec fn views_of(r: Seq<Vec<u8>>) -> Seq<Seq<u8>> {
    Seq::new(r.len(), |i: int| r[i]@)
}

/// The lines of a byte string: split at each line feed, a carriage return
/// stripped from the end of a line only when a line feed closed it, and no
/// final empty line after a trailing line feed.
pub open spec fn spec_lines(s: Seq<u8>) -> Seq<Seq<u8>>
    decreases s.len(),
    via spec_lines_dec
{
    if s.len() == 0 {
        Seq::empty()
    } else {
        let nl = first_byte_from(s, 10, 0);
        if nl >= s.len() {
            seq![s]
        } else {
            seq![strip_cr(s.take(nl))] + spec_lines(s.skip(nl + 1))
        }
    }
}

#[via_fn]
proof fn spec_lines_dec(s: Seq<u8>) {
    if s.len() != 0 {
        lemma_first_byte_from_bounds(s, 10, 0);
    }
}

/// Splits a byte string into lines, as `spec_lines` describes.
pub fn split_lines(s: &Vec<u8>) -> (r: Vec<Vec<u8>>)
    ensures
        views_of(r@) == spec_lines(s@),
{
    let mut r: Vec<Vec<u8>> = Vec::new();
    let mut i: usize = 0;
    proof {
        assert(s@.skip(0) =~= s@);
    }
    while i < s.len()
        invariant
            0 <= i <= s.len(),
            views_of(r@) + spec_lines(s@.skip(i as int)) =~= spec_lines(s@),
            i > 0 ==> i == s.len() || s@[i as int - 1] == 10,
        decreases s.len() - i,
    {
        // find the end of the current line
        let mut j: usize = i;
        while j < s.len() && s[j] != 10
            invariant
                i <= j <= s.len(),
                forall|k: int| i <= k < j ==> s@[k] != 10,
            decreases s.len() - j,
        {
            j = j + 1;
        }
        // build the line; a carriage return goes only when a line feed
        // closed the line
        let end: usize = if j < s.len() && j > i && s[j - 1] == 13 {
            j - 1
        } else {
            j
        };
        let mut line: Vec<u8> = Vec::new();
        let mut k: usize = i;
        while k < end
            invariant
                i <= k <= end <= s.len(),
                line@ =~= s@.subrange(i as int, k as int),
            decreases end - k,
        {
            line.push(s[k]);
            k = k + 1;
        }
        proof {
            let rest = s@.skip(i as int);
            let nl = first_byte_from(rest, 10, 0);
            lemma_first_byte_from_bounds(rest, 10, 0);
            assert(forall|t: int| 0 <= t < j - i ==> rest[t] == s@[i + t] && rest[t] != 10);
            if j < s.len() {
                assert(rest[j - i] == 10);
            }
            assert(nl == j - i);
            if j < s.len() {
                assert(rest.take(nl) =~= s@.subrange(i as int, j as int));
                assert(strip_cr(s@.subrange(i as int, j as int)) =~= s@.subrange(
                    i as int,
                    end as int,
                ));
                assert(rest.skip(nl + 1) =~= s@.skip(j as int + 1));
                assert(spec_lines(rest) =~= seq![s@.subrange(i as int, end as int)] + spec_lines(
                    s@.skip(j as int + 1),
                ));
            } else {
                assert(rest =~= s@.subrange(i as int, j as int));
                assert(spec_lines(rest) =~= seq![s@.subrange(i as int, end as int)]);
            }
            assert(line@ =~= s@.subrange(i as int, end as int));
        }
        let ghost prev = views_of(r@);
        let ghost linev = line@;
        r.push(line);
        proof {
            assert(views_of(r@) =~= prev.push(linev));
        }
        i = if j < s.len() {
            j + 1
        } else {
            proof {
                assert(s@.skip(j as int) =~= Seq::<u8>::empty());
                assert(spec_lines(s@.skip(j as int)) =~= Seq::<Seq<u8>>::empty());
            }
            j
        };
        proof {
            assert(prev.push(linev) =~= prev + seq![linev]);
            assert(views_of(r@) + spec_lines(s@.skip(i as int)) =~= spec_lines(s@));
        }
    }
    proof {
        assert(s@.skip(i as int) =~= Seq::<u8>::empty());
        assert(spec_lines(s@.skip(i as int)) =~= Seq::<Seq<u8>>::empty());
        assert(views_of(r@) =~= spec_lines(s@));
    }
    r
}

/// The number of lines of a byte string.
pub fn count_lines(s: &Vec<u8>) -> (r: usize)
    ensures
        r == spec_lines(s@).len(),
{
    split_lines(s).len()
}

/// The total length of a sequence of lines.
pub open spec fn sum_lens(ls: Seq<Seq<u8>>) -> int
    decreases ls.len(),
{
    if ls.len() == 0 {
        0
    } else {
        ls[0].len() + sum_lens(ls.skip(1))
    }
}

pub proof fn lemma_sum_lens_nonneg(ls: Seq<Seq<u8>>)
    ensures
        sum_lens(ls) >= 0,
    decreases ls.len(),
{
    if ls.len() > 0 {
        lemma_sum_lens_nonneg(ls.skip(1));
    }
}

/// The lines of a byte string never hold more bytes than the string.
pub proof fn lemma_lines_sum(s: Seq<u8>)
    ensures
        sum_lens(spec_lines(s)) <= s.len(),
    decreases s.len(),
{
    if s.len() > 0 {
        let nl = first_byte_from(s, 10, 0);
        lemma_first_byte_from_bounds(s, 10, 0);
        if nl >= s.len() {
            let ls = seq![s];
            assert(ls.skip(1) =~= Seq::<Seq<u8>>::empty());
            assert(ls[0] == s);
            assert(sum_lens(Seq::<Seq<u8>>::empty()) == 0);
            assert(sum_lens(ls) == s.len());
        } else {
            let line = strip_cr(s.take(nl));
            let rest = spec_lines(s.skip(nl + 1));
            lemma_lines_sum(s.skip(nl + 1));
            let ls = seq![line] + rest;
            assert(ls.skip(1) =~= rest);
            assert(ls[0] == line);
            assert(sum_lens(ls) == line.len() + sum_lens(rest));
            assert(line.len() <= nl);
        }
    }
}

/// The two lowercase hex digits of one byte.
pub open spec fn hex_byte(b: u8) -> Seq<u8> {
    seq![hex_digit(b / 16), hex_digit(b % 16)]
}

/// One lowercase hex digit for a value below 16.
pub open spec fn hex_digit(d: u8) -> u8 {
    if d < 10 {
        (48 + d) as u8
    } else {
        (87 + d) as u8
    }
}

/// Lowercase hex encoding of a byte string, two digits per byte.
pub open spec fn spec_hex(s: Seq<u8>) -> Seq<u8>
    decreases s.len(),
{
    if s.len() == 0 {
        Seq::empty()
    } else {
        hex_byte(s[0]) + spec_hex(s.skip(1))
    }
}

pub proof fn lemma_spec_hex_len(s: Seq<u8>)
    ensures
        spec_hex(s).len() == 2 * s.len(),
    decreases s.len(),
{
    if s.len() > 0 {
        lemma_spec_hex_len(s.skip(1));
    }
}

/// Encodes bytes as lowercase hex, two digits per byte.
pub fn to_hex(s: &Vec<u8>) -> (r: Vec<u8>)
    ensures
        r@ == spec_hex(s@),
{
    let mut r: Vec<u8> = Vec::new();
    let mut i: usize = 0;
    proof {
        assert(s@.skip(0) =~= s@);
    }
    while i < s.len()
        invariant
            0 <= i <= s.len(),
            r@ + spec_hex(s@.skip(i as int)) =~= spec_hex(s@),
        decreases s.len() - i,
    {
        let b = s[i];
        let hi = b / 16;
        let lo = b % 16;
        r.push(if hi < 10 {
            48 + hi
        } else {
            87 + hi
        });
        r.push(if lo < 10 {
            48 + lo
        } else {
            87 + lo
        });
        proof {
            assert(s@.skip(i as int).skip(1) =~= s@.skip(i as int + 1));
        }
        i = i + 1;
    }
    proof {
        assert(s@.skip(i as int) =~= Seq::<u8>::empty());
        assert(r@ =~= spec_hex(s@));
    }
    r
}

/// Whether the bytes of `pat` occur in `s` starting at index `i`.
pub fn bytes_match_at(s: &Vec<u8>, i: usize, pat: &Vec<u8>) -> (r: bool)
    requires
        i + pat@.len() <= s@.len(),
    ensures
        r == (s@.subrange(i as int, i + pat@.len()) =~= pat@),
{
    let n: usize = s.len();
    let mut k: usize = 0;
    while k < pat.len()
        invariant
            0 <= k <= pat@.len(),
            i + pat@.len() <= s@.len(),
            n == s@.len(),
            forall|t: int| 0 <= t < k ==> s@[i + t] == pat@[t],
        decreases pat.len() - k,
    {
        proof {
            assert(i + k < n);
        }
        let idx: usize = i + k;
        if s[idx] != pat[k] {
            proof {
                assert(s@.subrange(i as int, i + pat@.len())[k as int] != pat@[k as int]);
            }
            return false;
        }
        k = k + 1;
    }
    proof {
        assert(s@.subrange(i as int, i + pat@.len()) =~= pat@);
    }
    true
}

/// Copies the byte range `[a, b)` of `s` into a fresh vector.
pub fn subvec(s: &Vec<u8>, a: usize, b: usize) -> (r: Vec<u8>)
    requires
        a <= b <= s@.len(),
    ensures
        r@ == s@.subrange(a as int, b as int),
{
    let mut r: Vec<u8> = Vec::new();
    let mut i: usize = a;
    while i < b
        invariant
            a <= i <= b <= s@.len(),
            r@ =~= s@.subrange(a as int, i as int),
        decreases b - i,
    {
        r.push(s[i]);
        i = i + 1;
    }
    r
}

/// Appends all bytes of `src` to `dst`.
pub fn push_all(dst: &mut Vec<u8>, src: &Vec<u8>)
    ensures
        final(dst)@ == old(dst)@ + src@,
{
    let mut i: usize = 0;
    while i < src.len()
        invariant
            0 <= i <= src@.len(),
            dst@ =~= old(dst)@ + src@.take(i as int),
        decreases src.len() - i,
    {
        dst.push(src[i]);
        i = i + 1;
    }
    proof {
        assert(old(dst)@ + src@.take(src@.len() as int) =~= old(dst)@ + src@);
    }
}

} // verus!
