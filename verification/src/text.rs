//! Character-level text utilities over the `Seq<char>` view of strings.

use vstd::prelude::*;

verus! {

broadcast use vstd::string::axiom_spec_iter;

/// An index as a mathematical integer.
pub open spec fn index_int(n: usize) -> int {
    n as int
}

/// The characters of `s`, in order.
pub fn chars_of(s: &str) -> (r: Vec<char>)
    ensures
        r@ == s@,
{
    let mut v: Vec<char> = Vec::new();
    for c in it: s.chars()
        invariant
            v@ == it.seq().take(it.index() as int),
            it.seq() == s@,
    {
        v.push(c);
    }
    v
}

/// The length of the longest common prefix of `a` and `b`.
pub fn common_prefix_len(a: &Vec<char>, b: &Vec<char>) -> (n: usize)
    ensures
        n <= a.len(),
        n <= b.len(),
        a@.take(n as int) == b@.take(n as int),
        n < a.len() && n < b.len() ==> a@[n as int] != b@[n as int],
{
    let mut i: usize = 0;
    while i < a.len() && i < b.len() && a[i] == b[i]
        invariant
            i <= a.len(),
            i <= b.len(),
            a@.take(i as int) == b@.take(i as int),
        decreases a.len() - i,
    {
        assert(a@.take(i + 1) =~= a@.take(i as int).push(a@[i as int]));
        assert(b@.take(i + 1) =~= b@.take(i as int).push(b@[i as int]));
        i = i + 1;
    }
    i
}

/// Whether `a` and `b` hold the same characters.
pub fn str_equal(a: &str, b: &str) -> (r: bool)
    ensures
        r == (a@ == b@),
{
    let x = chars_of(a);
    let y = chars_of(b);
    if x.len() != y.len() {
        return false;
    }
    let n = common_prefix_len(&x, &y);
    if n == x.len() {
        assert(x@.take(n as int) =~= x@);
        assert(y@.take(n as int) =~= y@);
        true
    } else {
        assert(x@[n as int] != y@[n as int]);
        false
    }
}

/// `p` occurs in `s` starting at index `i`.
pub open spec fn occurs_at(s: Seq<char>, p: Seq<char>, i: int) -> bool {
    0 <= i && i + p.len() <= s.len() && s.subrange(i, i + p.len()) == p
}

/// `p` occurs somewhere in `s`.
pub open spec fn contains(s: Seq<char>, p: Seq<char>) -> bool {
    exists|i: int| occurs_at(s, p, i)
}

/// The first index at or after `i` where `p` occurs in `s`.
pub open spec fn find_from(s: Seq<char>, p: Seq<char>, i: int) -> Option<int>
    decreases s.len() + 1 - i,
{
    if i < 0 || i + p.len() > s.len() {
        None
    } else if occurs_at(s, p, i) {
        Some(i)
    } else {
        find_from(s, p, i + 1)
    }
}

/// The index of the first occurrence of `p` in `s`.
pub open spec fn first_occurrence(s: Seq<char>, p: Seq<char>) -> Option<int> {
    find_from(s, p, 0)
}

proof fn lemma_find_from(s: Seq<char>, p: Seq<char>, i: int)
    requires
        0 <= i,
    ensures
        match find_from(s, p, i) {
            Some(k) => i <= k && occurs_at(s, p, k) && forall|j: int|
                i <= j < k ==> !occurs_at(s, p, j),
            None => forall|j: int| i <= j ==> !occurs_at(s, p, j),
        },
    decreases s.len() + 1 - i,
{
    if i + p.len() > s.len() {
    } else if occurs_at(s, p, i) {
    } else {
        lemma_find_from(s, p, i + 1);
    }
}

/// `first_occurrence` is the least index where `p` occurs, and is absent
/// exactly when `p` does not occur.
pub proof fn lemma_first_occurrence(s: Seq<char>, p: Seq<char>)
    ensures
        match first_occurrence(s, p) {
            Some(k) => occurs_at(s, p, k) && forall|j: int| 0 <= j < k ==> !occurs_at(s, p, j),
            None => !contains(s, p),
        },
        first_occurrence(s, p) is Some <==> contains(s, p),
{
    lemma_find_from(s, p, 0);
}

/// Whether `p` occurs in `s` at index `i`.
pub fn matches_at(s: &Vec<char>, p: &Vec<char>, i: usize) -> (r: bool)
    requires
        i + p.len() <= s.len(),
    ensures
        r == occurs_at(s@, p@, i as int),
{
    let mut k: usize = 0;
    while k < p.len()
        invariant
            i + p.len() <= s.len(),
            k <= p.len(),
            forall|j: int| 0 <= j < k ==> s@[i + j] == p@[j],
        decreases p.len() - k,
    {
        if s[i + k] != p[k] {
            assert(s@.subrange(i as int, i + p.len())[k as int] != p@[k as int]);
            return false;
        }
        k = k + 1;
    }
    assert(s@.subrange(i as int, i + p.len()) =~= p@);
    true
}

/// The index of the first occurrence of `p` in `s`, if any.
pub fn find(s: &Vec<char>, p: &Vec<char>) -> (r: Option<usize>)
    ensures
        match r {
            Some(k) => first_occurrence(s@, p@) == Some(k as int),
            None => first_occurrence(s@, p@) is None,
        },
{
    if p.len() > s.len() {
        return None;
    }
    let last = s.len() - p.len();
    let mut i: usize = 0;
    loop
        invariant
            p.len() <= s.len(),
            last == s.len() - p.len(),
            i <= last,
            first_occurrence(s@, p@) == find_from(s@, p@, i as int),
        decreases last - i,
    {
        if matches_at(s, p, i) {
            return Some(i);
        }
        if i == last {
            return None;
        }
        i = i + 1;
    }
}

/// The start of the line holding index `p`: just after the last newline before `p`.
pub open spec fn line_start(s: Seq<char>, p: int) -> int
    decreases p,
{
    if p <= 0 {
        0
    } else if s[p - 1] == '\n' {
        p
    } else {
        line_start(s, p - 1)
    }
}

/// The end of the line holding index `p`: the first newline at or after `p`,
/// or the end of `s`.
pub open spec fn line_end(s: Seq<char>, p: int) -> int
    decreases s.len() - p,
{
    if p >= s.len() {
        s.len() as int
    } else if s[p] == '\n' {
        p
    } else {
        line_end(s, p + 1)
    }
}

/// The line around index `p` starts at or before `p` and ends at or after it.
pub proof fn lemma_line_bounds(s: Seq<char>, p: int)
    requires
        0 <= p <= s.len(),
    ensures
        0 <= line_start(s, p) <= p,
        p <= line_end(s, p) <= s.len(),
    decreases s.len() - p,
{
    lemma_line_start_bounds(s, p);
    if p < s.len() && s[p] != '\n' {
        lemma_line_bounds(s, p + 1);
    }
}

proof fn lemma_line_start_bounds(s: Seq<char>, p: int)
    requires
        0 <= p <= s.len(),
    ensures
        0 <= line_start(s, p) <= p,
    decreases p,
{
    if p > 0 && s[p - 1] != '\n' {
        lemma_line_start_bounds(s, p - 1);
    }
}

/// A line runs on past every character that is not a newline.
pub proof fn lemma_line_end_past(s: Seq<char>, p: int, k: int)
    requires
        0 <= p <= k <= s.len(),
        forall|j: int| p <= j < k ==> s[j] != '\n',
    ensures
        line_end(s, p) >= k,
    decreases k - p,
{
    if p < k {
        assert(s[p] != '\n');
        lemma_line_end_past(s, p + 1, k);
    } else {
        lemma_line_bounds(s, p);
    }
}

/// The bounds of the line of `s` that holds index `p`.
pub fn line_bounds(s: &Vec<char>, p: usize) -> (r: (usize, usize))
    requires
        p <= s.len(),
    ensures
        r.0 == line_start(s@, p as int),
        r.1 == line_end(s@, p as int),
        r.0 <= p <= r.1 <= s.len(),
{
    proof {
        lemma_line_bounds(s@, p as int);
    }
    let mut a: usize = p;
    while a > 0 && s[a - 1] != '\n'
        invariant
            a <= p <= s.len(),
            line_start(s@, p as int) == line_start(s@, a as int),
        decreases a,
    {
        a = a - 1;
    }
    let mut b: usize = p;
    while b < s.len() && s[b] != '\n'
        invariant
            p <= b <= s.len(),
            line_end(s@, p as int) == line_end(s@, b as int),
        decreases s.len() - b,
    {
        b = b + 1;
    }
    (a, b)
}

/// The lines of `s`: the pieces between its newlines, in order. A text
/// that ends in a newline ends in an empty line here, where `str::lines`
/// drops it; `str::lines` also drops a `'\r'` before each newline.
pub open spec fn split_lines(s: Seq<char>) -> Seq<Seq<char>>
    decreases s.len(),
{
    match first_occurrence(s, seq!['\n']) {
        Some(k) => {
            proof {
                lemma_first_occurrence(s, seq!['\n']);
            }
            seq![s.take(k)] + split_lines(s.skip(k + 1))
        },
        None => seq![s],
    }
}

/// `l` without the carriage return that ends it, if any.
pub open spec fn strip_cr(l: Seq<char>) -> Seq<char> {
    if l.len() > 0 && l.last() == '\r' {
        l.drop_last()
    } else {
        l
    }
}

/// The lines of `s` as `str::lines` yields them: split at each newline,
/// without a carriage return just before a newline, and without the empty
/// piece after a final newline.
pub open spec fn text_lines(s: Seq<char>) -> Seq<Seq<char>>
    decreases s.len(),
{
    match first_occurrence(s, seq!['\n']) {
        Some(k) => {
            proof {
                lemma_first_occurrence(s, seq!['\n']);
            }
            seq![strip_cr(s.take(k))] + text_lines(s.skip(k + 1))
        },
        None => if s.len() == 0 {
            Seq::empty()
        } else {
            seq![s]
        },
    }
}

/// The trimmed form of an optional line.
pub open spec fn trimmed_line(o: Option<Seq<char>>) -> Option<Seq<char>> {
    match o {
        Some(l) => Some(trim(l)),
        None => None,
    }
}

/// The first of `lines` in which `p` occurs.
pub open spec fn first_line_with(lines: Seq<Seq<char>>, p: Seq<char>) -> Option<Seq<char>>
    decreases lines.len(),
{
    if lines.len() == 0 {
        None
    } else if contains(lines[0], p) {
        Some(lines[0])
    } else {
        first_line_with(lines.drop_first(), p)
    }
}

/// The line of `s` that holds the first occurrence of `p`.
pub open spec fn line_of_first_occurrence(s: Seq<char>, p: Seq<char>) -> Option<Seq<char>> {
    match first_occurrence(s, p) {
        Some(q) => Some(s.subrange(line_start(s, q), line_end(s, q))),
        None => None,
    }
}

proof fn lemma_newline_occurs_at(s: Seq<char>, j: int)
    requires
        0 <= j < s.len(),
    ensures
        occurs_at(s, seq!['\n'], j) <==> s[j] == '\n',
{
    if s[j] == '\n' {
        assert(s.subrange(j, j + 1) =~= seq!['\n']);
    } else {
        assert(s.subrange(j, j + 1)[0] != seq!['\n'][0]);
    }
}

proof fn lemma_line_start_zero(s: Seq<char>, q: int)
    requires
        0 <= q <= s.len(),
        forall|j: int| 0 <= j < q ==> s[j] != '\n',
    ensures
        line_start(s, q) == 0,
    decreases q,
{
    if q > 0 {
        assert(s[q - 1] != '\n');
        lemma_line_start_zero(s, q - 1);
    }
}

proof fn lemma_line_end_at(s: Seq<char>, q: int, k: int)
    requires
        0 <= q <= k < s.len(),
        s[k] == '\n',
        forall|j: int| q <= j < k ==> s[j] != '\n',
    ensures
        line_end(s, q) == k,
    decreases k - q,
{
    if q < k {
        assert(s[q] != '\n');
        lemma_line_end_at(s, q + 1, k);
    }
}

proof fn lemma_line_start_shift(s: Seq<char>, d: int, q: int)
    requires
        0 < d <= q <= s.len(),
        s[d - 1] == '\n',
    ensures
        line_start(s, q) == d + line_start(s.skip(d), q - d),
    decreases q,
{
    if q > d {
        assert(s[q - 1] == s.skip(d)[q - d - 1]);
        lemma_line_start_shift(s, d, q - 1);
    }
}

proof fn lemma_line_end_shift(s: Seq<char>, d: int, q: int)
    requires
        0 <= d <= q <= s.len(),
    ensures
        line_end(s, q) == d + line_end(s.skip(d), q - d),
    decreases s.len() - q,
{
    if q < s.len() {
        assert(s[q] == s.skip(d)[q - d]);
        lemma_line_end_shift(s, d, q + 1);
    }
}

proof fn lemma_occurs_at_shift(s: Seq<char>, p: Seq<char>, d: int, i: int)
    requires
        0 <= d <= i,
        d <= s.len(),
    ensures
        occurs_at(s, p, i) <==> occurs_at(s.skip(d), p, i - d),
{
    if i + p.len() <= s.len() {
        assert(s.subrange(i, i + p.len()) =~= s.skip(d).subrange(i - d, i - d + p.len()));
    }
}

proof fn lemma_find_from_shift(s: Seq<char>, p: Seq<char>, d: int, i: int)
    requires
        0 <= d <= i,
        d <= s.len(),
    ensures
        find_from(s, p, i) == match find_from(s.skip(d), p, i - d) {
            Some(x) => Some(x + d),
            None => None,
        },
    decreases s.len() + 1 - i,
{
    lemma_occurs_at_shift(s, p, d, i);
    if i + p.len() <= s.len() && !occurs_at(s, p, i) {
        lemma_find_from_shift(s, p, d, i + 1);
    }
}

proof fn lemma_find_from_skip(s: Seq<char>, p: Seq<char>, i: int, m: int)
    requires
        0 <= i <= m,
        forall|j: int| i <= j < m ==> !occurs_at(s, p, j),
    ensures
        find_from(s, p, i) == find_from(s, p, m),
    decreases m - i,
{
    if i < m && i + p.len() <= s.len() {
        lemma_find_from_skip(s, p, i + 1, m);
    } else if i < m {
        lemma_find_from(s, p, i);
        lemma_find_from(s, p, m);
    }
}

/// Whole lines put before a text, none holding a pattern without newlines,
/// only shift where the pattern first occurs, and leave the line around that
/// occurrence as it was.
pub proof fn lemma_lines_before(p: Seq<char>, o: Seq<char>, m: Seq<char>)
    requires
        p.len() > 0,
        p.last() == '\n',
        !contains(p, m),
        forall|j: int| 0 <= j < m.len() ==> m[j] != '\n',
    ensures
        first_occurrence(p + o, m) == match first_occurrence(o, m) {
            Some(q) => Some(q + p.len()),
            None => None,
        },
        contains(p + o, m) <==> contains(o, m),
        line_of_first_occurrence(p + o, m) == line_of_first_occurrence(o, m),
{
    let s = p + o;
    let d = p.len() as int;
    assert(s.skip(d) =~= o);
    assert forall|j: int| 0 <= j < d implies !occurs_at(s, m, j) by {
        if occurs_at(s, m, j) {
            if j + m.len() <= d {
                assert(p.subrange(j, j + m.len()) =~= s.subrange(j, j + m.len()));
                assert(occurs_at(p, m, j));
            } else {
                assert(s.subrange(j, j + m.len())[d - 1 - j] == m[d - 1 - j]);
                assert(s[d - 1] == p.last());
            }
        }
    }
    lemma_find_from_skip(s, m, 0, d);
    lemma_find_from_shift(s, m, d, d);
    lemma_first_occurrence(s, m);
    lemma_first_occurrence(o, m);
    if let Some(q) = first_occurrence(o, m) {
        lemma_line_bounds(o, q);
        assert(s[d - 1] == p.last());
        lemma_line_start_shift(s, d, q + d);
        lemma_line_end_shift(s, d, q + d);
        assert(s.subrange(line_start(s, q + d), line_end(s, q + d)) =~= o.subrange(
            line_start(o, q),
            line_end(o, q),
        ));
    }
}

/// The first line that holds a pattern without newlines is the line around
/// the pattern's first occurrence.
#[verifier::rlimit(40)]
pub proof fn lemma_first_line_with(s: Seq<char>, p: Seq<char>)
    requires
        forall|j: int| 0 <= j < p.len() ==> p[j] != '\n',
    ensures
        first_line_with(split_lines(s), p) == line_of_first_occurrence(s, p),
    decreases s.len(),
{
    let nl = seq!['\n'];
    lemma_first_occurrence(s, nl);
    lemma_first_occurrence(s, p);
    match first_occurrence(s, nl) {
        None => {
            assert forall|j: int| 0 <= j < s.len() implies s[j] != '\n' by {
                lemma_newline_occurs_at(s, j);
            }
            let ls = split_lines(s);
            assert(ls =~= seq![s]);
            assert(first_line_with(ls.drop_first(), p) == None::<Seq<char>>) by {
                assert(ls.drop_first().len() == 0);
            }
            if let Some(q) = first_occurrence(s, p) {
                lemma_line_start_zero(s, q);
                lemma_line_bounds(s, q);
                lemma_line_end_past(s, q, s.len() as int);
                assert(s.subrange(0, s.len() as int) =~= s);
                assert(contains(s, p));
            }
        },
        Some(k) => {
            assert forall|j: int| 0 <= j < k implies s[j] != '\n' by {
                lemma_newline_occurs_at(s, j);
            }
            lemma_newline_occurs_at(s, k);
            let t = s.skip(k + 1);
            let ls = split_lines(s);
            assert(ls[0] == s.take(k));
            assert(ls.drop_first() =~= split_lines(t));
            if contains(s.take(k), p) {
                let w = choose|w: int| occurs_at(s.take(k), p, w);
                assert(s.take(k).subrange(w, w + p.len()) =~= s.subrange(w, w + p.len()));
                assert(occurs_at(s, p, w));
                let q = first_occurrence(s, p)->0;
                assert(q <= w);
                lemma_line_start_zero(s, q);
                lemma_line_end_at(s, q, k);
                assert(s.subrange(0, k) =~= s.take(k));
            } else {
                assert forall|j: int| 0 <= j <= k implies !occurs_at(s, p, j) by {
                    if occurs_at(s, p, j) {
                        if j + p.len() <= k {
                            assert(s.take(k).subrange(j, j + p.len()) =~= s.subrange(
                                j,
                                j + p.len(),
                            ));
                            assert(occurs_at(s.take(k), p, j));
                        } else {
                            assert(s.subrange(j, j + p.len())[k - j] == p[k - j]);
                        }
                    }
                }
                lemma_find_from_skip(s, p, 0, k + 1);
                lemma_find_from_shift(s, p, k + 1, k + 1);
                lemma_first_line_with(t, p);
                lemma_first_occurrence(t, p);
                if let Some(x) = first_occurrence(t, p) {
                    let q = x + k + 1;
                    lemma_line_bounds(t, x);
                    lemma_line_start_shift(s, k + 1, q);
                    lemma_line_end_shift(s, k + 1, q);
                    assert(s.subrange(line_start(s, q), line_end(s, q)) =~= t.subrange(
                        line_start(t, x),
                        line_end(t, x),
                    ));
                }
            }
        },
    }
}

proof fn lemma_trim_start_drop_last(l: Seq<char>)
    requires
        l.len() > 0,
        is_white_space(l.last()),
    ensures
        trim_start(l).len() == 0 ==> trim_start(l.drop_last()).len() == 0,
        trim_start(l).len() > 0 ==> trim_start(l.drop_last()) == trim_start(l).drop_last(),
    decreases l.len(),
{
    if is_white_space(l[0]) {
        if l.len() > 1 {
            assert(l.drop_last().drop_first() =~= l.drop_first().drop_last());
            lemma_trim_start_drop_last(l.drop_first());
        } else {
            assert(l.drop_last().len() == 0);
        }
    }
}

/// Trimming ignores one more white space character at the end.
proof fn lemma_trim_drop_last_white(l: Seq<char>)
    requires
        l.len() > 0,
        is_white_space(l.last()),
    ensures
        trim(l.drop_last()) == trim(l),
{
    lemma_trim_start_drop_last(l);
    let m = lemma_trim_start_drops_prefix(l);
    let u = trim_start(l);
    if u.len() > 0 {
        assert(u.last() == l.last());
    } else {
        assert(trim_start(l.drop_last()) =~= u);
    }
}

proof fn lemma_strip_cr_contains(l: Seq<char>, p: Seq<char>)
    requires
        p.len() > 0,
        p.last() != '\r',
    ensures
        contains(strip_cr(l), p) <==> contains(l, p),
{
    if l.len() > 0 && l.last() == '\r' {
        let d = l.drop_last();
        if contains(l, p) {
            let i = choose|i: int| occurs_at(l, p, i);
            assert(l.subrange(i, i + p.len())[p.len() - 1] == p.last());
            assert(d.subrange(i, i + p.len()) =~= l.subrange(i, i + p.len()));
            assert(occurs_at(d, p, i));
        }
        if contains(d, p) {
            let i = choose|i: int| occurs_at(d, p, i);
            assert(d.subrange(i, i + p.len()) =~= l.subrange(i, i + p.len()));
            assert(occurs_at(l, p, i));
        }
    }
}

/// Looking for the first line that holds a pattern without line breaks,
/// trimmed, the lines of `str::lines` give what the plain newline split gives.
pub proof fn lemma_text_lines_first_line(s: Seq<char>, p: Seq<char>)
    requires
        p.len() > 0,
        forall|j: int| 0 <= j < p.len() ==> p[j] != '\n' && p[j] != '\r',
    ensures
        trimmed_line(first_line_with(text_lines(s), p)) == trimmed_line(
            first_line_with(split_lines(s), p),
        ),
    decreases s.len(),
{
    let nl = seq!['\n'];
    lemma_first_occurrence(s, nl);
    match first_occurrence(s, nl) {
        None => {
            let ls = split_lines(s);
            assert(ls =~= seq![s]);
            assert(ls.drop_first().len() == 0);
            if s.len() == 0 {
                assert forall|i: int| !occurs_at(s, p, i) by {}
                assert(!contains(s, p));
                assert(text_lines(s).len() == 0);
                assert(first_line_with(text_lines(s), p) is None);
                assert(first_line_with(split_lines(s), p) is None);
            } else {
                let ts = text_lines(s);
                assert(ts =~= seq![s]);
                assert(ts.drop_first().len() == 0);
                assert(first_line_with(ts, p) == first_line_with(ls, p));
            }
        },
        Some(k) => {
            let l = s.take(k);
            let t = s.skip(k + 1);
            let ls = split_lines(s);
            let ts = text_lines(s);
            assert(ls[0] == l);
            assert(ls.drop_first() =~= split_lines(t));
            assert(ts[0] == strip_cr(l));
            assert(ts.drop_first() =~= text_lines(t));
            lemma_strip_cr_contains(l, p);
            if contains(l, p) {
                if l.len() > 0 && l.last() == '\r' {
                    lemma_trim_drop_last_white(l);
                }
                assert(first_line_with(ts, p) == Some(strip_cr(l)));
                assert(first_line_with(ls, p) == Some(l));
                assert(trim(strip_cr(l)) == trim(l));
            } else {
                lemma_text_lines_first_line(t, p);
                assert(first_line_with(ts, p) == first_line_with(text_lines(t), p));
                assert(first_line_with(ls, p) == first_line_with(split_lines(t), p));
            }
        },
    }
}

/// Unicode `White_Space`, the characters that `str::trim` removes.
pub open spec fn is_white_space(c: char) -> bool {
    ('\t' <= c <= '\r') || c == ' ' || c == '\u{85}' || c == '\u{A0}' || c == '\u{1680}' || (
    '\u{2000}' <= c <= '\u{200A}') || c == '\u{2028}' || c == '\u{2029}' || c == '\u{202F}'
        || c == '\u{205F}' || c == '\u{3000}'
}

/// Whether `c` is Unicode white space.
pub fn white_space(c: char) -> (r: bool)
    ensures
        r == is_white_space(c),
{
    (c >= '\t' && c <= '\r') || c == ' ' || c == '\u{85}' || c == '\u{A0}' || c == '\u{1680}' || (
    c >= '\u{2000}' && c <= '\u{200A}') || c == '\u{2028}' || c == '\u{2029}' || c == '\u{202F}'
        || c == '\u{205F}' || c == '\u{3000}'
}

/// `t` without its leading white space.
pub open spec fn trim_start(t: Seq<char>) -> Seq<char>
    decreases t.len(),
{
    if t.len() > 0 && is_white_space(t[0]) {
        trim_start(t.drop_first())
    } else {
        t
    }
}

/// `t` without its trailing white space.
pub open spec fn trim_end(t: Seq<char>) -> Seq<char>
    decreases t.len(),
{
    if t.len() > 0 && is_white_space(t.last()) {
        trim_end(t.drop_last())
    } else {
        t
    }
}

/// `t` without leading and trailing white space, as `str::trim` gives it.
pub open spec fn trim(t: Seq<char>) -> Seq<char> {
    trim_end(trim_start(t))
}

/// The bounds, within `lo..hi`, of `s[lo..hi]` trimmed.
pub fn trim_bounds(s: &Vec<char>, lo: usize, hi: usize) -> (r: (usize, usize))
    requires
        lo <= hi <= s.len(),
    ensures
        lo <= r.0 <= r.1 <= hi,
        s@.subrange(r.0 as int, r.1 as int) == trim(s@.subrange(lo as int, hi as int)),
{
    let mut a: usize = lo;
    while a < hi && white_space(s[a])
        invariant
            lo <= a <= hi <= s.len(),
            trim_start(s@.subrange(lo as int, hi as int)) == trim_start(
                s@.subrange(a as int, hi as int),
            ),
        decreases hi - a,
    {
        assert(s@.subrange(a as int, hi as int).drop_first() =~= s@.subrange(a + 1, hi as int));
        a = a + 1;
    }
    let mut b: usize = hi;
    while b > a && white_space(s[b - 1])
        invariant
            lo <= a <= b <= hi <= s.len(),
            trim_end(s@.subrange(a as int, hi as int)) == trim_end(
                s@.subrange(a as int, b as int),
            ),
        decreases b,
    {
        assert(s@.subrange(a as int, b as int).drop_last() =~= s@.subrange(a as int, b - 1));
        b = b - 1;
    }
    (a, b)
}

/// `trim_start` drops a prefix of white space, up to the first other character.
pub proof fn lemma_trim_start_drops_prefix(t: Seq<char>) -> (m: int)
    ensures
        0 <= m <= t.len(),
        trim_start(t) == t.subrange(m, t.len() as int),
        forall|j: int| 0 <= j < m ==> is_white_space(#[trigger] t[j]),
        m < t.len() ==> !is_white_space(t[m]),
    decreases t.len(),
{
    if t.len() > 0 && is_white_space(t[0]) {
        let k = lemma_trim_start_drops_prefix(t.drop_first());
        assert(t.drop_first().subrange(k, t.len() - 1) =~= t.subrange(k + 1, t.len() as int));
        assert forall|j: int| 0 <= j < k + 1 implies is_white_space(#[trigger] t[j]) by {
            if j > 0 {
                assert(t[j] == t.drop_first()[j - 1]);
            }
        }
        k + 1
    } else {
        assert(t.subrange(0, t.len() as int) =~= t);
        0
    }
}

/// `trim_end` drops a suffix of white space, back to the last other character.
pub proof fn lemma_trim_end_drops_suffix(t: Seq<char>) -> (e: int)
    ensures
        0 <= e <= t.len(),
        trim_end(t) == t.take(e),
        forall|j: int| e <= j < t.len() ==> is_white_space(#[trigger] t[j]),
        e > 0 ==> !is_white_space(t[e - 1]),
    decreases t.len(),
{
    if t.len() > 0 && is_white_space(t.last()) {
        let k = lemma_trim_end_drops_suffix(t.drop_last());
        assert(t.drop_last().take(k) =~= t.take(k));
        assert forall|j: int| k <= j < t.len() implies is_white_space(#[trigger] t[j]) by {
            if j < t.len() - 1 {
                assert(t[j] == t.drop_last()[j]);
            }
        }
        k
    } else {
        assert(t.take(t.len() as int) =~= t);
        t.len() as int
    }
}

/// Trimming keeps every occurrence of a pattern that starts and ends with
/// characters other than white space.
pub proof fn lemma_trim_keeps_occurrence(t: Seq<char>, p: Seq<char>, q: int)
    requires
        occurs_at(t, p, q),
        p.len() > 0,
        !is_white_space(p[0]),
        !is_white_space(p.last()),
    ensures
        contains(trim(t), p),
{
    let m = lemma_trim_start_drops_prefix(t);
    assert(t[q] == p[0]) by {
        assert(t.subrange(q, q + p.len())[0] == p[0]);
    }
    assert(t[q + p.len() - 1] == p.last()) by {
        assert(t.subrange(q, q + p.len())[p.len() - 1] == p.last());
    }
    assert(m <= q);
    let u = trim_start(t);
    let e = lemma_trim_end_drops_suffix(u);
    assert(u[q + p.len() - 1 - m] == t[q + p.len() - 1]);
    assert(q + p.len() - m <= e);
    assert(trim(t).subrange(q - m, q - m + p.len()) =~= p) by {
        assert forall|j: int| 0 <= j < p.len() implies trim(t).subrange(q - m, q - m + p.len())[j]
            == p[j] by {
            assert(trim(t)[q - m + j] == t[q + j]);
            assert(t.subrange(q, q + p.len())[j] == p[j]);
        }
    }
    assert(occurs_at(trim(t), p, q - m));
}

/// Calls `String::push`: the contract claims that the characters of `s`
/// gain `c` at their end and are otherwise kept.
#[verifier::external_body]
fn push_char(s: &mut String, c: char)
    ensures
        final(s)@ == old(s)@.push(c),
{
    s.push(c);
}

/// The string made of `s[lo..hi]`.
pub fn string_of_range(s: &Vec<char>, lo: usize, hi: usize) -> (r: String)
    requires
        lo <= hi <= s.len(),
    ensures
        r@ == s@.subrange(lo as int, hi as int),
{
    let mut r = String::new();
    let mut i: usize = lo;
    while i < hi
        invariant
            lo <= i <= hi <= s.len(),
            r@ == s@.subrange(lo as int, i as int),
        decreases hi - i,
    {
        push_char(&mut r, s[i]);
        assert(s@.subrange(lo as int, i + 1) =~= s@.subrange(lo as int, i as int).push(s@[i as int]));
        i = i + 1;
    }
    r
}

/// `s` without leading and trailing white space.
pub fn trim_str(s: &str) -> (r: String)
    ensures
        r@ == trim(s@),
{
    let cs = chars_of(s);
    let (a, b) = trim_bounds(&cs, 0, cs.len());
    assert(cs@.subrange(0, cs@.len() as int) =~= cs@);
    string_of_range(&cs, a, b)
}

} // verus!
