//! Small string helpers: local names of IRIs and the common pattern of a
//! group of strings.

use vstd::prelude::*;
use vstd::string::*;

verus! {

broadcast use vstd::string::group_string_axioms;

/// The characters of `s`, in order.
pub fn chars_of(s: &str) -> (v: Vec<char>)
    ensures
        v@ == s@,
{
    let mut v: Vec<char> = Vec::new();
    for c in it: s.chars()
        invariant
            it.seq() == s@,
            v@ == it.seq().take(it.index() as int),
    {
        v.push(c);
    }
    v
}

/// Number of leading copies of `c` in `s`.
pub open spec fn leading_count(s: Seq<char>, c: char) -> nat
    decreases s.len(),
{
    if s.len() > 0 && s[0] == c {
        1 + leading_count(s.drop_first(), c)
    } else {
        0
    }
}

/// Number of trailing copies of `c` in `s`.
pub open spec fn trailing_count(s: Seq<char>, c: char) -> nat
    decreases s.len(),
{
    if s.len() > 0 && s.last() == c {
        1 + trailing_count(s.drop_last(), c)
    } else {
        0
    }
}

/// `s` without its leading copies of `c` (`str::trim_start_matches`).
pub open spec fn trim_start(s: Seq<char>, c: char) -> Seq<char> {
    s.skip(leading_count(s, c) as int)
}

/// `s` without its trailing copies of `c` (`str::trim_end_matches`).
pub open spec fn trim_end(s: Seq<char>, c: char) -> Seq<char> {
    s.take(s.len() - trailing_count(s, c))
}

/// Index of the last occurrence of `c` in `s`, or -1.
pub open spec fn last_index_of(s: Seq<char>, c: char) -> int
    decreases s.len(),
{
    if s.len() == 0 {
        -1
    } else if s.last() == c {
        s.len() - 1
    } else {
        last_index_of(s.drop_last(), c)
    }
}

/// The local name of an IRI: with surrounding angle brackets removed, the
/// part after the last `#`, or after the last `/` when there is no `#`.
pub open spec fn spec_local_name(iri: Seq<char>) -> Seq<char> {
    let t = trim_end(trim_start(iri, '<'), '>');
    let h = last_index_of(t, '#');
    let sl = last_index_of(t, '/');
    if h >= 0 {
        t.skip(h + 1)
    } else if sl >= 0 {
        t.skip(sl + 1)
    } else {
        t
    }
}

proof fn lemma_leading_count_exact(s: Seq<char>, c: char, k: int)
    requires
        0 <= k <= s.len(),
        forall|i: int| 0 <= i < k ==> s[i] == c,
        k < s.len() ==> s[k] != c,
    ensures
        leading_count(s, c) == k,
    decreases s.len(),
{
    if k > 0 {
        lemma_leading_count_exact(s.drop_first(), c, k - 1);
    }
}

proof fn lemma_trailing_count_exact(s: Seq<char>, c: char, k: int)
    requires
        0 <= k <= s.len(),
        forall|i: int| s.len() - k <= i < s.len() ==> s[i] == c,
        k < s.len() ==> s[s.len() - k - 1] != c,
    ensures
        trailing_count(s, c) == k,
    decreases s.len(),
{
    if k > 0 {
        lemma_trailing_count_exact(s.drop_last(), c, k - 1);
    }
}

proof fn lemma_last_index_exact(s: Seq<char>, c: char, k: int)
    requires
        -1 <= k < s.len(),
        k >= 0 ==> s[k] == c,
        forall|i: int| k < i < s.len() ==> s[i] != c,
    ensures
        last_index_of(s, c) == k,
    decreases s.len(),
{
    if s.len() > 0 && s.last() != c {
        lemma_last_index_exact(s.drop_last(), c, k);
    }
}

/// Index of the last `c` in `v[lo..hi]`, or -1 (as `None`).
pub(crate) fn rfind_in(v: &Vec<char>, lo: usize, hi: usize, c: char) -> (r: Option<usize>)
    requires
        lo <= hi <= v@.len(),
    ensures
        last_index_of(v@.subrange(lo as int, hi as int), c) == match r {
            Some(i) => i - lo,
            None => -1,
        },
        r matches Some(i) ==> lo <= i < hi,
{
    let mut i = hi;
    while i > lo
        invariant
            lo <= i <= hi <= v@.len(),
            forall|j: int| i <= j < hi ==> v@[j] != c,
        decreases i,
    {
        if v[i - 1] == c {
            proof {
                lemma_last_index_exact(v@.subrange(lo as int, hi as int), c, (i - 1 - lo) as int);
            }
            return Some(i - 1);
        }
        i = i - 1;
    }
    proof {
        lemma_last_index_exact(v@.subrange(lo as int, hi as int), c, -1);
    }
    None
}

/// Local name of an IRI: the part after the last `#`, or after the last `/`
/// if there is no `#`.
pub fn local_name(iri: &str) -> (r: &str)
    ensures
        r@ == spec_local_name(iri@),
{
    let v = chars_of(iri);
    let n = v.len();
    let mut lo: usize = 0;
    while lo < n && v[lo] == '<'
        invariant
            lo <= n == v@.len(),
            forall|j: int| 0 <= j < lo ==> v@[j] == '<',
        decreases n - lo,
    {
        lo = lo + 1;
    }
    let mut hi: usize = n;
    while hi > lo && v[hi - 1] == '>'
        invariant
            lo <= hi <= n == v@.len(),
            forall|j: int| hi <= j < n ==> v@[j] == '>',
        decreases hi,
    {
        hi = hi - 1;
    }
    let ghost s = iri@;
    proof {
        lemma_leading_count_exact(s, '<', lo as int);
        let t0 = trim_start(s, '<');
        assert(t0 =~= v@.subrange(lo as int, n as int));
        lemma_trailing_count_exact(t0, '>', (n - hi) as int);
        assert(trim_end(t0, '>') =~= v@.subrange(lo as int, hi as int));
    }
    let start = match rfind_in(&v, lo, hi, '#') {
        Some(i) => i + 1,
        None => match rfind_in(&v, lo, hi, '/') {
            Some(i) => i + 1,
            None => lo,
        },
    };
    let r = iri.substring_char(start, hi);
    proof {
        let t = v@.subrange(lo as int, hi as int);
        assert(r@ =~= t.skip(start - lo));
    }
    r
}

/// Leading copies of `c` in `a + b` lie within `a` when `b` starts with
/// another character.
proof fn lemma_leading_count_append(a: Seq<char>, b: Seq<char>, c: char)
    requires
        b.len() > 0,
        b[0] != c,
    ensures
        leading_count(a + b, c) == leading_count(a, c),
        leading_count(a, c) <= a.len(),
    decreases a.len(),
{
    if a.len() > 0 {
        assert((a + b).drop_first() =~= a.drop_first() + b);
        lemma_leading_count_append(a.drop_first(), b, c);
    } else {
        assert(a + b =~= b);
    }
}

/// The last `c` in `a + b` is the last in `a` when `b` holds none.
proof fn lemma_last_index_append(a: Seq<char>, b: Seq<char>, c: char)
    requires
        forall|i: int| 0 <= i < b.len() ==> b[i] != c,
    ensures
        last_index_of(a + b, c) == last_index_of(a, c),
    decreases b.len(),
{
    if b.len() > 0 {
        assert((a + b).drop_last() =~= a + b.drop_last());
        assert((a + b).last() == b.last());
        lemma_last_index_append(a, b.drop_last(), c);
    } else {
        assert(a + b =~= a);
    }
}

/// `last_index_of` is -1 or an index of `s`.
proof fn lemma_last_index_bounds(s: Seq<char>, c: char)
    ensures
        -1 <= last_index_of(s, c) < s.len(),
    decreases s.len(),
{
    if s.len() > 0 {
        lemma_last_index_bounds(s.drop_last(), c);
    }
}

/// Nothing after `last_index_of(s, c)` is `c`, and it is -1 or an index.
pub(crate) proof fn lemma_last_index_last(s: Seq<char>, c: char)
    ensures
        -1 <= last_index_of(s, c) < s.len(),
        last_index_of(s, c) >= 0 ==> s[last_index_of(s, c)] == c,
        forall|j: int| last_index_of(s, c) < j < s.len() ==> s[j] != c,
    decreases s.len(),
{
    if s.len() > 0 && s.last() != c {
        lemma_last_index_last(s.drop_last(), c);
        assert forall|j: int| last_index_of(s, c) < j < s.len() implies s[j] != c by {
            if j < s.len() - 1 {
                assert(s[j] == s.drop_last()[j]);
            }
        }
    }
}

/// The part of `z` that the local name of `z + sfx` keeps before `sfx`.
pub open spec fn local_stem(z: Seq<char>) -> Seq<char> {
    let t = z.skip(leading_count(z, '<') as int);
    let h = last_index_of(t, '#');
    let sl = last_index_of(t, '/');
    if h >= 0 {
        t.skip(h + 1)
    } else if sl >= 0 {
        t.skip(sl + 1)
    } else {
        t
    }
}

/// A suffix free of `#`, `/`, not starting with `<` nor ending with `>`
/// stays whole at the end of the local name.
pub proof fn lemma_local_name_suffix(z: Seq<char>, sfx: Seq<char>)
    requires
        sfx.len() > 0,
        sfx[0] != '<',
        sfx.last() != '>',
        forall|i: int| 0 <= i < sfx.len() ==> sfx[i] != '#' && sfx[i] != '/',
    ensures
        spec_local_name(z + sfx) == local_stem(z) + sfx,
{
    let s = z + sfx;
    lemma_leading_count_append(z, sfx, '<');
    let lc = leading_count(z, '<') as int;
    assert(s.last() == sfx.last());
    assert(trim_start(s, '<') =~= z.skip(lc) + sfx);
    let t = z.skip(lc) + sfx;
    assert(t.last() == sfx.last());
    assert(trailing_count(t, '>') == 0);
    assert(trim_end(t, '>') =~= t);
    let zt = z.skip(lc);
    lemma_last_index_append(zt, sfx, '#');
    lemma_last_index_append(zt, sfx, '/');
    lemma_last_index_bounds(zt, '#');
    lemma_last_index_bounds(zt, '/');
    let h = last_index_of(zt, '#');
    let sl = last_index_of(zt, '/');
    if h >= 0 {
        assert(t.skip(h + 1) =~= zt.skip(h + 1) + sfx);
    } else if sl >= 0 {
        assert(t.skip(sl + 1) =~= zt.skip(sl + 1) + sfx);
    }
}

/// Length of the longest common prefix of the rows, at most `bound`, starting
/// the search at column `k`.
pub open spec fn common_prefix_from(rows: Seq<Seq<char>>, bound: int, k: int) -> int
    decreases bound - k,
{
    if k < bound && forall|r: int| 0 <= r < rows.len() ==> #[trigger] rows[r][k] == rows[0][k] {
        common_prefix_from(rows, bound, k + 1)
    } else {
        k
    }
}

/// Length of the longest common suffix of the rows, at most `bound`, starting
/// the search at offset `k` from the end.
pub open spec fn common_suffix_from(rows: Seq<Seq<char>>, bound: int, k: int) -> int
    decreases bound - k,
{
    if k < bound && forall|r: int| 0 <= r < rows.len() ==>
        #[trigger] rows[r][rows[r].len() - 1 - k] == rows[0][rows[0].len() - 1 - k] {
        common_suffix_from(rows, bound, k + 1)
    } else {
        k
    }
}

/// Length of the shortest row.
pub open spec fn min_len(rows: Seq<Seq<char>>) -> int
    decreases rows.len(),
{
    if rows.len() == 0 {
        0
    } else if rows.len() == 1 {
        rows[0].len() as int
    } else {
        let m = min_len(rows.drop_last());
        if rows.last().len() < m { rows.last().len() as int } else { m }
    }
}

/// The common pattern of the rows: their longest common prefix followed by
/// their longest common suffix (each bounded by the shortest row), with the
/// suffix cut back so that the two together are no longer than the shortest
/// row. (The prefix and suffix are the same in every row; they are read off
/// the first.)
pub open spec fn spec_common_pattern(rows: Seq<Seq<char>>) -> Seq<char> {
    if rows.len() == 0 {
        Seq::empty()
    } else {
        let m = min_len(rows);
        let p = common_prefix_from(rows, m, 0);
        let s0 = common_suffix_from(rows, m, 0);
        let first = rows[0];
        let s = if p + s0 > m { m - p } else { s0 };
        first.take(p) + first.skip(first.len() - s)
    }
}

/// The common prefix found from column `k` lies between `k` and `bound`, and
/// every row agrees with the first on each column in between.
proof fn lemma_prefix_within(rows: Seq<Seq<char>>, bound: int, k: int)
    requires
        0 <= k <= bound,
    ensures
        k <= common_prefix_from(rows, bound, k) <= bound,
        forall|j: int, r: int| k <= j < common_prefix_from(rows, bound, k) && 0 <= r < rows.len()
            ==> #[trigger] rows[r][j] == rows[0][j],
    decreases bound - k,
{
    if k < bound && forall|r: int| 0 <= r < rows.len() ==> #[trigger] rows[r][k] == rows[0][k] {
        lemma_prefix_within(rows, bound, k + 1);
        assert forall|j: int, r: int| k <= j < common_prefix_from(rows, bound, k) && 0 <= r < rows.len()
            implies #[trigger] rows[r][j] == rows[0][j] by {
            if j == k {
                assert(rows[r][k] == rows[0][k]);
            }
        }
    }
}

/// The common suffix found from offset `k` lies between `k` and `bound`, and
/// every row agrees with the first on each offset from the end in between.
proof fn lemma_suffix_within(rows: Seq<Seq<char>>, bound: int, k: int)
    requires
        0 <= k <= bound,
    ensures
        k <= common_suffix_from(rows, bound, k) <= bound,
        forall|j: int, r: int| k <= j < common_suffix_from(rows, bound, k) && 0 <= r < rows.len()
            ==> #[trigger] rows[r][rows[r].len() - 1 - j] == rows[0][rows[0].len() - 1 - j],
    decreases bound - k,
{
    if k < bound && forall|r: int| 0 <= r < rows.len() ==>
        #[trigger] rows[r][rows[r].len() - 1 - k] == rows[0][rows[0].len() - 1 - k] {
        lemma_suffix_within(rows, bound, k + 1);
        assert forall|j: int, r: int| k <= j < common_suffix_from(rows, bound, k) && 0 <= r < rows.len()
            implies #[trigger] rows[r][rows[r].len() - 1 - j] == rows[0][rows[0].len() - 1 - j] by {
            if j == k {
                assert(rows[r][rows[r].len() - 1 - k] == rows[0][rows[0].len() - 1 - k]);
            }
        }
    }
}

/// Two lists of rows holding the same rows find the same common prefix.
proof fn lemma_prefix_same(a: Seq<Seq<char>>, b: Seq<Seq<char>>, bound: int, k: int)
    requires
        a.len() > 0,
        b.len() > 0,
        a.to_set() == b.to_set(),
    ensures
        common_prefix_from(a, bound, k) == common_prefix_from(b, bound, k),
    decreases bound - k,
{
    let ca = forall|r: int| 0 <= r < a.len() ==> #[trigger] a[r][k] == a[0][k];
    let cb = forall|r: int| 0 <= r < b.len() ==> #[trigger] b[r][k] == b[0][k];
    lemma_same_rows(a, b);
    lemma_same_rows(b, a);
    if ca {
        let i0 = choose|i: int| 0 <= i < a.len() && a[i] == b[0];
        assert forall|r: int| 0 <= r < b.len() implies #[trigger] b[r][k] == b[0][k] by {
            let i = choose|i: int| 0 <= i < a.len() && a[i] == b[r];
            assert(a[i][k] == a[0][k]);
            assert(a[i0][k] == a[0][k]);
        }
    }
    if cb {
        let i0 = choose|i: int| 0 <= i < b.len() && b[i] == a[0];
        assert forall|r: int| 0 <= r < a.len() implies #[trigger] a[r][k] == a[0][k] by {
            let i = choose|i: int| 0 <= i < b.len() && b[i] == a[r];
            assert(b[i][k] == b[0][k]);
            assert(b[i0][k] == b[0][k]);
        }
    }
    if k < bound && ca {
        lemma_prefix_same(a, b, bound, k + 1);
    }
}

/// Two lists of rows holding the same rows find the same common suffix.
proof fn lemma_suffix_same(a: Seq<Seq<char>>, b: Seq<Seq<char>>, bound: int, k: int)
    requires
        a.len() > 0,
        b.len() > 0,
        a.to_set() == b.to_set(),
    ensures
        common_suffix_from(a, bound, k) == common_suffix_from(b, bound, k),
    decreases bound - k,
{
    let ca = forall|r: int| 0 <= r < a.len() ==> #[trigger] a[r][a[r].len() - 1 - k] == a[0][a[0].len() - 1 - k];
    let cb = forall|r: int| 0 <= r < b.len() ==> #[trigger] b[r][b[r].len() - 1 - k] == b[0][b[0].len() - 1 - k];
    lemma_same_rows(a, b);
    lemma_same_rows(b, a);
    if ca {
        let i0 = choose|i: int| 0 <= i < a.len() && a[i] == b[0];
        assert forall|r: int| 0 <= r < b.len() implies #[trigger] b[r][b[r].len() - 1 - k] == b[0][b[0].len() - 1 - k] by {
            let i = choose|i: int| 0 <= i < a.len() && a[i] == b[r];
            assert(a[i][a[i].len() - 1 - k] == a[0][a[0].len() - 1 - k]);
            assert(a[i0][a[i0].len() - 1 - k] == a[0][a[0].len() - 1 - k]);
        }
    }
    if cb {
        let i0 = choose|i: int| 0 <= i < b.len() && b[i] == a[0];
        assert forall|r: int| 0 <= r < a.len() implies #[trigger] a[r][a[r].len() - 1 - k] == a[0][a[0].len() - 1 - k] by {
            let i = choose|i: int| 0 <= i < b.len() && b[i] == a[r];
            assert(b[i][b[i].len() - 1 - k] == b[0][b[0].len() - 1 - k]);
            assert(b[i0][b[i0].len() - 1 - k] == b[0][b[0].len() - 1 - k]);
        }
    }
    if k < bound && ca {
        lemma_suffix_same(a, b, bound, k + 1);
    }
}

/// Every row of `b` is a row of `a` when they hold the same rows.
proof fn lemma_same_rows(a: Seq<Seq<char>>, b: Seq<Seq<char>>)
    requires
        a.to_set() == b.to_set(),
    ensures
        forall|r: int| 0 <= r < b.len() ==> a.contains(#[trigger] b[r]),
{
    assert forall|r: int| 0 <= r < b.len() implies a.contains(#[trigger] b[r]) by {
        assert(b.to_set().contains(b[r]));
        assert(a.to_set().contains(b[r]));
        assert(a.contains(b[r]));
    }
}

/// Where the common prefix search stops short of `bound`, some row differs
/// from the first at that column.
proof fn lemma_prefix_stops(rows: Seq<Seq<char>>, bound: int, k: int)
    requires
        0 <= k <= bound,
    ensures
        common_prefix_from(rows, bound, k) < bound ==> exists|r: int| 0 <= r < rows.len()
            && #[trigger] rows[r][common_prefix_from(rows, bound, k)] != rows[0][common_prefix_from(rows, bound, k)],
    decreases bound - k,
{
    if k < bound && forall|r: int| 0 <= r < rows.len() ==> #[trigger] rows[r][k] == rows[0][k] {
        lemma_prefix_stops(rows, bound, k + 1);
    }
}

/// Length of the prefix part of the common pattern of `rows`.
pub open spec fn pattern_prefix_len(rows: Seq<Seq<char>>) -> int {
    common_prefix_from(rows, min_len(rows), 0)
}

/// Length of the suffix part of the common pattern of `rows`.
pub open spec fn pattern_suffix_len(rows: Seq<Seq<char>>) -> int {
    let m = min_len(rows);
    let p = common_prefix_from(rows, m, 0);
    let s0 = common_suffix_from(rows, m, 0);
    if p + s0 > m { m - p } else { s0 }
}

/// The common pattern of a nonempty list of rows is a prefix shared by
/// every row and a suffix shared by every row, read off the first row,
/// together no longer than the shortest row; and the prefix is the longest
/// shared one: short of the shortest row's length, some row differs from
/// the first just after it.
pub proof fn lemma_common_pattern_parts(rows: Seq<Seq<char>>)
    requires
        rows.len() > 0,
    ensures
        ({
            let p = pattern_prefix_len(rows);
            let s = pattern_suffix_len(rows);
            &&& 0 <= p && 0 <= s && p + s <= min_len(rows)
            &&& spec_common_pattern(rows) == rows[0].take(p) + rows[0].skip(rows[0].len() - s)
            &&& forall|r: int| 0 <= r < rows.len() ==> (#[trigger] rows[r]).take(p) == rows[0].take(p)
            &&& forall|r: int| 0 <= r < rows.len()
                ==> (#[trigger] rows[r]).skip(rows[r].len() - s) == rows[0].skip(rows[0].len() - s)
            &&& p < min_len(rows) ==> exists|r: int| 0 <= r < rows.len() && (#[trigger] rows[r])[p] != rows[0][p]
        }),
{
    let m = min_len(rows);
    lemma_min_len(rows);
    assert(m >= 0) by {
        let r0 = choose|r: int| 0 <= r < rows.len() && m == #[trigger] rows[r].len();
    }
    lemma_prefix_within(rows, m, 0);
    lemma_suffix_within(rows, m, 0);
    lemma_prefix_stops(rows, m, 0);
    let p = common_prefix_from(rows, m, 0);
    let s0 = common_suffix_from(rows, m, 0);
    let s = if p + s0 > m { m - p } else { s0 };
    assert forall|r: int| 0 <= r < rows.len() implies (#[trigger] rows[r]).take(p) == rows[0].take(p) by {
        assert(rows[r].len() >= m);
        assert forall|j: int| 0 <= j < p implies #[trigger] rows[r].take(p)[j] == rows[0].take(p)[j] by {
            assert(rows[r][j] == rows[0][j]);
        }
        assert(rows[r].take(p) =~= rows[0].take(p));
    }
    assert forall|r: int| 0 <= r < rows.len()
        implies (#[trigger] rows[r]).skip(rows[r].len() - s) == rows[0].skip(rows[0].len() - s) by {
        let a = rows[r];
        let b = rows[0];
        assert(a.len() >= m && b.len() >= m);
        assert forall|j: int| 0 <= j < s implies #[trigger] a.skip(a.len() - s)[j] == b.skip(b.len() - s)[j] by {
            let o = s - 1 - j;
            assert(0 <= o < s0);
            assert(a[a.len() - 1 - o] == b[b.len() - 1 - o]);
            assert(a.len() - s + j == a.len() - 1 - o);
        }
        assert(a.skip(a.len() - s) =~= b.skip(b.len() - s));
    }
    if p < m {
        let r = choose|r: int| 0 <= r < rows.len() && #[trigger] rows[r][p] != rows[0][p];
        assert(rows[r][p] != rows[0][p]);
    }
    assert(spec_common_pattern(rows) == rows[0].take(p) + rows[0].skip(rows[0].len() - s));
}

/// The common pattern depends only on which strings there are: not on their
/// order, nor on repeats. In particular it reads the same off any row.
pub proof fn lemma_common_pattern_rows(a: Seq<Seq<char>>, b: Seq<Seq<char>>)
    requires
        a.to_set() == b.to_set(),
    ensures
        spec_common_pattern(a) == spec_common_pattern(b),
{
    if a.len() == 0 || b.len() == 0 {
        if a.len() > 0 {
            assert(a.to_set().contains(a[0]));
        }
        if b.len() > 0 {
            assert(b.to_set().contains(b[0]));
        }
        return;
    }
    lemma_same_rows(a, b);
    lemma_same_rows(b, a);
    lemma_min_len(a);
    lemma_min_len(b);
    let ma = min_len(a);
    let mb = min_len(b);
    let wa = choose|r: int| 0 <= r < a.len() && ma == #[trigger] a[r].len();
    let wb = choose|r: int| 0 <= r < b.len() && mb == #[trigger] b[r].len();
    let ia = choose|i: int| 0 <= i < a.len() && a[i] == b[wb];
    let ib = choose|i: int| 0 <= i < b.len() && b[i] == a[wa];
    assert(ma <= a[ia].len());
    assert(mb <= b[ib].len());
    assert(ma == mb);
    let m = ma;
    lemma_prefix_same(a, b, m, 0);
    lemma_suffix_same(a, b, m, 0);
    lemma_prefix_within(a, m, 0);
    lemma_suffix_within(a, m, 0);
    let p = common_prefix_from(a, m, 0);
    let s0 = common_suffix_from(a, m, 0);
    let s = if p + s0 > m { m - p } else { s0 };
    let i = choose|i: int| 0 <= i < a.len() && a[i] == b[0];
    let x = a[i];
    let y = a[0];
    assert(m <= x.len() && m <= y.len());
    assert(x.take(p) =~= y.take(p)) by {
        assert forall|j: int| 0 <= j < p implies #[trigger] x.take(p)[j] == y.take(p)[j] by {
            assert(a[i][j] == a[0][j]);
        }
    }
    assert(x.skip(x.len() - s) =~= y.skip(y.len() - s)) by {
        assert forall|j: int| 0 <= j < s implies #[trigger] x.skip(x.len() - s)[j] == y.skip(y.len() - s)[j] by {
            let d = s - 1 - j;
            assert(a[i][a[i].len() - 1 - d] == a[0][a[0].len() - 1 - d]);
        }
    }
}

proof fn lemma_min_len(rows: Seq<Seq<char>>)
    requires
        rows.len() > 0,
    ensures
        forall|r: int| 0 <= r < rows.len() ==> min_len(rows) <= #[trigger] rows[r].len(),
        exists|r: int| 0 <= r < rows.len() && min_len(rows) == #[trigger] rows[r].len(),
    decreases rows.len(),
{
    if rows.len() == 1 {
        assert(min_len(rows) == rows[0].len());
    } else {
        let init = rows.drop_last();
        lemma_min_len(init);
        let m = min_len(init);
        let w = choose|r: int| 0 <= r < init.len() && m == #[trigger] init[r].len();
        assert(rows[w] == init[w]);
        if rows.last().len() < m {
            assert(min_len(rows) == rows[rows.len() - 1].len());
        } else {
            assert(min_len(rows) == rows[w].len());
        }
        assert forall|r: int| 0 <= r < rows.len() implies min_len(rows) <= #[trigger] rows[r].len() by {
            if r < rows.len() - 1 {
                assert(rows[r] == init[r]);
            }
        }
    }
}

/// The characters of each string.
fn rows_of(strings: &[&str]) -> (rows: Vec<Vec<char>>)
    ensures
        rows@.len() == strings@.len(),
        forall|i: int| 0 <= i < strings@.len() ==> #[trigger] rows@[i]@ == strings@[i]@,
{
    let mut rows: Vec<Vec<char>> = Vec::new();
    for i in 0..strings.len()
        invariant
            rows@.len() == i,
            forall|j: int| 0 <= j < i ==> #[trigger] rows@[j]@ == strings@[j]@,
    {
        rows.push(chars_of(strings[i]));
    }
    rows
}

pub open spec fn row_views(strings: Seq<&str>) -> Seq<Seq<char>> {
    strings.map_values(|s: &str| s@)
}

/// Returns the common-prefix + common-suffix "pattern" shared by all
/// `strings` (used to derive a class name from a group of equivalent subject
/// IRIs).
pub fn common_pattern(strings: &[&str]) -> (r: String)
    ensures
        r@ == spec_common_pattern(row_views(strings@)),
{
    let ghost sv = row_views(strings@);
    if strings.len() == 0 {
        return String::new();
    }
    let rows = rows_of(strings);
    let ghost rv = rows@.map_values(|r: Vec<char>| r@);
    assert(rv =~= sv);
    let mut m: usize = rows[0].len();
    let mut i: usize = 1;
    proof {
        assert(rv.take(1) =~= seq![rv[0]]);
    }
    while i < rows.len()
        invariant
            1 <= i <= rows@.len(),
            rv == rows@.map_values(|r: Vec<char>| r@),
            m == min_len(rv.take(i as int)),
        decreases rows@.len() - i,
    {
        assert(rv.take(i + 1).drop_last() =~= rv.take(i as int));
        if rows[i].len() < m {
            m = rows[i].len();
        }
        i = i + 1;
    }
    assert(rv.take(rows@.len() as int) =~= rv);
    proof {
        lemma_min_len(rv);
    }
    let first = &rows[0];
    let n0 = first.len();
    assert(first@ == rv[0]);
    let mut p: usize = 0;
    let mut done = false;
    while p < m && !done
        invariant
            p <= m,
            rv == rows@.map_values(|r: Vec<char>| r@),
            m == min_len(rv),
            forall|r: int| 0 <= r < rv.len() ==> m <= #[trigger] rv[r].len(),
            *first == rows@[0],
            first@ == rv[0],
            rv.len() > 0,
            done ==> common_prefix_from(rv, m as int, p as int) == p,
            common_prefix_from(rv, m as int, p as int) == common_prefix_from(rv, m as int, 0),
        decreases m - p + (if done { 0int } else { 1int }),
    {
        let c0 = first[p];
        let mut all = true;
        let mut r: usize = 0;
        while r < rows.len()
            invariant
                r <= rows@.len(),
                p < m,
                rv == rows@.map_values(|r: Vec<char>| r@),
                forall|q: int| 0 <= q < rv.len() ==> m <= #[trigger] rv[q].len(),
                c0 == rv[0][p as int],
                all <==> forall|q: int| 0 <= q < r ==> #[trigger] rv[q][p as int] == rv[0][p as int],
            decreases rows@.len() - r,
        {
            assert(rv[r as int] == rows@[r as int]@);
            if rows[r][p] != c0 {
                all = false;
            }
            r = r + 1;
        }
        if all {
            p = p + 1;
        } else {
            done = true;
        }
    }
    let mut s: usize = 0;
    let mut done2 = false;
    while s < m && !done2
        invariant
            s <= m,
            rv == rows@.map_values(|r: Vec<char>| r@),
            m == min_len(rv),
            forall|r: int| 0 <= r < rv.len() ==> m <= #[trigger] rv[r].len(),
            *first == rows@[0],
            first@ == rv[0],
            rv.len() > 0,
            done2 ==> common_suffix_from(rv, m as int, s as int) == s,
            common_suffix_from(rv, m as int, s as int) == common_suffix_from(rv, m as int, 0),
        decreases m - s + (if done2 { 0int } else { 1int }),
    {
        let c0 = first[first.len() - 1 - s];
        let mut all = true;
        let mut r: usize = 0;
        while r < rows.len()
            invariant
                r <= rows@.len(),
                s < m,
                rv == rows@.map_values(|r: Vec<char>| r@),
                forall|q: int| 0 <= q < rv.len() ==> m <= #[trigger] rv[q].len(),
                c0 == rv[0][rv[0].len() - 1 - s],
                all <==> forall|q: int| 0 <= q < r ==>
                    #[trigger] rv[q][rv[q].len() - 1 - s] == rv[0][rv[0].len() - 1 - s],
            decreases rows@.len() - r,
        {
            assert(rv[r as int] == rows@[r as int]@);
            let row = &rows[r];
            if row[row.len() - 1 - s] != c0 {
                all = false;
            }
            r = r + 1;
        }
        if all {
            s = s + 1;
        } else {
            done2 = true;
        }
    }
    proof {
        if !done {
            assert(common_prefix_from(rv, m as int, m as int) == m as int);
        }
        if !done2 {
            assert(common_suffix_from(rv, m as int, m as int) == m as int);
        }
    }
    assert(p as int == common_prefix_from(rv, m as int, 0));
    assert(s as int == common_suffix_from(rv, m as int, 0));
    assert(n0 == rv[0].len());
    proof {
        lemma_prefix_within(rv, m as int, 0);
    }
    if s > m - p {
        s = m - p;
    }
    let prefix = strings[0].substring_char(0, p);
    let suffix = strings[0].substring_char(n0 - s, n0);
    let mut out = prefix.to_owned();
    out.append(suffix);
    proof {
        assert(rv[0] == strings@[0]@);
        assert(out@ =~= spec_common_pattern(sv));
    }
    out
}

/// `s` begins with `prefix`.
pub open spec fn has_prefix(s: Seq<char>, prefix: Seq<char>) -> bool {
    prefix.len() <= s.len() && s.take(prefix.len() as int) == prefix
}

/// `s` ends with `suffix`.
pub open spec fn has_suffix(s: Seq<char>, suffix: Seq<char>) -> bool {
    suffix.len() <= s.len() && s.skip(s.len() - suffix.len()) == suffix
}

/// `needle` occurs in `s` at position `i`.
pub open spec fn occurs_at(s: Seq<char>, needle: Seq<char>, i: int) -> bool {
    0 <= i && i + needle.len() <= s.len() && s.subrange(i, i + needle.len()) == needle
}

/// `needle` occurs somewhere in `s`.
pub open spec fn has_infix(s: Seq<char>, needle: Seq<char>) -> bool {
    exists|i: int| occurs_at(s, needle, i)
}

/// Equality of the character sequences of two strings.
pub fn str_equal(a: &str, b: &str) -> (r: bool)
    ensures
        r == (a@ == b@),
{
    let x = a.to_owned();
    let y = b.to_owned();
    x == y
}

/// Whether `v[start..]` begins with `w`.
fn chars_match_at(v: &Vec<char>, w: &Vec<char>, start: usize) -> (r: bool)
    requires
        start <= v@.len(),
    ensures
        r == occurs_at(v@, w@, start as int),
{
    if w.len() > v.len() - start {
        return false;
    }
    let mut i: usize = 0;
    while i < w.len()
        invariant
            i <= w@.len(),
            start + w@.len() <= v@.len(),
            v@.len() <= usize::MAX,
            forall|j: int| 0 <= j < i ==> v@[start + j] == w@[j],
        decreases w@.len() - i,
    {
        if v[start + i] != w[i] {
            proof {
                assert(v@.subrange(start as int, start + w@.len())[i as int] != w@[i as int]);
            }
            return false;
        }
        i = i + 1;
    }
    assert(v@.subrange(start as int, start + w@.len()) =~= w@);
    true
}

/// Whether `s` begins with `prefix` (`str::starts_with`).
pub fn starts_with(s: &str, prefix: &str) -> (r: bool)
    ensures
        r == has_prefix(s@, prefix@),
{
    let v = chars_of(s);
    let w = chars_of(prefix);
    let r = chars_match_at(&v, &w, 0);
    proof {
        if w@.len() <= v@.len() {
            assert(v@.subrange(0, w@.len() as int) =~= v@.take(w@.len() as int));
        }
    }
    r
}

/// Whether `s` ends with `suffix` (`str::ends_with`).
pub fn ends_with(s: &str, suffix: &str) -> (r: bool)
    ensures
        r == has_suffix(s@, suffix@),
{
    let v = chars_of(s);
    let w = chars_of(suffix);
    if w.len() > v.len() {
        return false;
    }
    let r = chars_match_at(&v, &w, v.len() - w.len());
    proof {
        assert(v@.subrange(v@.len() - w@.len(), v@.len() as int) =~= v@.skip(v@.len() - w@.len()));
    }
    r
}

/// Whether `needle` occurs in `s` (`str::contains`).
pub fn contains_str(s: &str, needle: &str) -> (r: bool)
    ensures
        r == has_infix(s@, needle@),
{
    let v = chars_of(s);
    let w = chars_of(needle);
    let mut i: usize = 0;
    while i < v.len()
        invariant
            i <= v@.len(),
            v@ == s@,
            w@ == needle@,
            forall|j: int| 0 <= j < i ==> !occurs_at(v@, w@, j),
        decreases v@.len() - i,
    {
        if chars_match_at(&v, &w, i) {
            return true;
        }
        i = i + 1;
    }
    if chars_match_at(&v, &w, i) {
        return true;
    }
    assert forall|j: int| !occurs_at(v@, w@, j) by {
        if 0 <= j && j + w@.len() <= v@.len() {
            assert(j <= i);
        }
    }
    false
}

/// Position of the first occurrence of `needle` in `s` at or after `i`,
/// or -1.
pub open spec fn first_occurrence_from(s: Seq<char>, needle: Seq<char>, i: int) -> int
    decreases s.len() + 1 - i,
{
    if i < 0 || i + needle.len() > s.len() {
        -1
    } else if occurs_at(s, needle, i) {
        i
    } else {
        first_occurrence_from(s, needle, i + 1)
    }
}

/// The part of `s` before the first occurrence of `needle`, or all of `s`
/// (the first piece of `str::split`).
pub open spec fn before_first(s: Seq<char>, needle: Seq<char>) -> Seq<char> {
    let i = first_occurrence_from(s, needle, 0);
    if i >= 0 { s.take(i) } else { s }
}

/// The first piece of `s.split(needle)`.
pub fn split_first(s: &str, needle: &str) -> (r: String)
    ensures
        r@ == before_first(s@, needle@),
{
    let v = chars_of(s);
    let w = chars_of(needle);
    let mut i: usize = 0;
    let mut found: Option<usize> = None;
    while found.is_none() && w.len() <= v.len() - i
        invariant
            i <= v@.len(),
            v@ == s@,
            w@ == needle@,
            found is None ==> first_occurrence_from(v@, w@, 0) == first_occurrence_from(v@, w@, i as int),
            found matches Some(f) ==> first_occurrence_from(v@, w@, 0) == f && f <= v@.len(),
        decreases v@.len() - i + (if found is None { 1int } else { 0int }),
    {
        if chars_match_at(&v, &w, i) {
            found = Some(i);
        } else {
            assert(i < v@.len()) by {
                if i == v@.len() {
                    assert(v@.subrange(i as int, i as int) =~= w@);
                }
            }
            i = i + 1;
        }
    }
    let end = match found {
        Some(f) => f,
        None => v.len(),
    };
    let mut out = String::new();
    let mut k: usize = 0;
    while k < end
        invariant
            k <= end <= v@.len(),
            out@ == v@.take(k as int),
        decreases end - k,
    {
        push_char(&mut out, v[k]);
        assert(out@ =~= v@.take(k + 1));
        k = k + 1;
    }
    proof {
        if found is None {
            assert(first_occurrence_from(v@, w@, i as int) == -1);
            assert(v@.take(v@.len() as int) =~= v@);
        }
    }
    out
}

/// `s` without its first `k` characters.
pub fn skip_chars(s: &str, k: usize) -> (r: String)
    requires
        k <= s@.len(),
    ensures
        r@ == s@.skip(k as int),
{
    let v = chars_of(s);
    let mut out = String::new();
    let mut i: usize = k;
    while i < v.len()
        invariant
            k <= i <= v@.len(),
            v@ == s@,
            out@ == v@.subrange(k as int, i as int),
        decreases v@.len() - i,
    {
        push_char(&mut out, v[i]);
        assert(out@ =~= v@.subrange(k as int, i + 1));
        i = i + 1;
    }
    assert(out@ =~= s@.skip(k as int));
    out
}

/// `rdf:type` and `rdfs:member` are different IRIs.
pub proof fn lemma_type_not_member()
    ensures
        crate::namespace::RDF_TYPE_IRI@ != crate::namespace::RDFS_MEMBER_IRI@,
{
    reveal_strlit("http://www.w3.org/1999/02/22-rdf-syntax-ns#type");
    reveal_strlit("http://www.w3.org/2000/01/rdf-schema#member");
    assert(crate::namespace::RDF_TYPE_IRI@[29] != crate::namespace::RDFS_MEMBER_IRI@[29]);
}

/// Appends `c` to `s` (`String::push`).
#[verifier::external_body]
pub(crate) fn push_char(s: &mut String, c: char)
    ensures
        final(s)@ == old(s)@.push(c),
{
    s.push(c)
}

} // verus!
