//! Lexicographic order on strings and a stable insertion sort by string
//! keys.

use vstd::prelude::*;
use crate::util::chars_of;

verus! {

/// `a` comes before `b` in code point order (`str`'s `Ord`).
pub open spec fn str_lt(a: Seq<char>, b: Seq<char>) -> bool
    decreases a.len(),
{
    if a.len() == 0 {
        b.len() > 0
    } else if b.len() == 0 {
        false
    } else if (a[0] as u32) < (b[0] as u32) {
        true
    } else if a[0] == b[0] {
        str_lt(a.drop_first(), b.drop_first())
    } else {
        false
    }
}

/// `a` comes before `b` comparing strings one after the other (tuple and
/// `Vec` order).
pub open spec fn keys_lt(a: Seq<Seq<char>>, b: Seq<Seq<char>>) -> bool
    decreases a.len(),
{
    if a.len() == 0 {
        b.len() > 0
    } else if b.len() == 0 {
        false
    } else if str_lt(a[0], b[0]) {
        true
    } else if a[0] == b[0] {
        keys_lt(a.drop_first(), b.drop_first())
    } else {
        false
    }
}

/// Where a stable insertion puts an element with key `k` into `s`: before
/// the first element whose key is greater.
pub open spec fn insert_pos<T>(s: Seq<(Seq<Seq<char>>, T)>, k: Seq<Seq<char>>) -> int
    decreases s.len(),
{
    if s.len() == 0 {
        0
    } else if keys_lt(k, s[0].0) {
        0
    } else {
        1 + insert_pos(s.drop_first(), k)
    }
}

/// `s` sorted by key, stably (elements with equal keys keep their order).
pub open spec fn stable_sort<T>(s: Seq<(Seq<Seq<char>>, T)>) -> Seq<(Seq<Seq<char>>, T)>
    decreases s.len(),
{
    if s.len() == 0 {
        s
    } else {
        let r = stable_sort(s.drop_last());
        r.insert(insert_pos(r, s.last().0), s.last())
    }
}

/// The key views of keyed elements.
pub open spec fn keyed_views<T>(v: Seq<(Vec<String>, T)>) -> Seq<(Seq<Seq<char>>, T)> {
    v.map_values(|e: (Vec<String>, T)| (key_view(e.0@), e.1))
}

/// The view of a key.
pub open spec fn key_view(k: Seq<String>) -> Seq<Seq<char>> {
    k.map_values(|s: String| s@)
}

/// Whether `a` comes before `b` in code point order.
pub fn str_less(a: &str, b: &str) -> (r: bool)
    ensures
        r == str_lt(a@, b@),
{
    let x = chars_of(a);
    let y = chars_of(b);
    assert(x@.skip(0) =~= x@);
    assert(y@.skip(0) =~= y@);
    let mut i: usize = 0;
    while i < x.len() && i < y.len() && x[i] == y[i]
        invariant
            i <= x@.len(),
            i <= y@.len(),
            x@.take(i as int) == y@.take(i as int),
            str_lt(a@, b@) == str_lt(x@.skip(i as int), y@.skip(i as int)),
        decreases x@.len() - i,
    {
        assert(x@.skip(i as int).drop_first() =~= x@.skip(i + 1));
        assert(y@.skip(i as int).drop_first() =~= y@.skip(i + 1));
        assert(x@.take(i + 1) =~= x@.take(i as int).push(x@[i as int]));
        assert(y@.take(i + 1) =~= y@.take(i as int).push(y@[i as int]));
        i = i + 1;
    }
    if i == x.len() {
        i < y.len()
    } else if i == y.len() {
        false
    } else {
        (x[i] as u32) < (y[i] as u32)
    }
}

/// Whether key `a` comes before key `b`.
pub fn keys_less(a: &Vec<String>, b: &Vec<String>) -> (r: bool)
    ensures
        r == keys_lt(key_view(a@), key_view(b@)),
{
    let mut i: usize = 0;
    assert(key_view(a@).skip(0) =~= key_view(a@));
    assert(key_view(b@).skip(0) =~= key_view(b@));
    while i < a.len() && i < b.len()
        invariant
            i <= a@.len(),
            i <= b@.len(),
            keys_lt(key_view(a@), key_view(b@)) == keys_lt(key_view(a@).skip(i as int), key_view(b@).skip(i as int)),
        decreases a@.len() - i,
    {
        let ghost ka = key_view(a@).skip(i as int);
        let ghost kb = key_view(b@).skip(i as int);
        assert(ka[0] == a@[i as int]@);
        assert(kb[0] == b@[i as int]@);
        if str_less(a[i].as_str(), b[i].as_str()) {
            return true;
        }
        if a[i] != b[i] {
            return false;
        }
        assert(ka.drop_first() =~= key_view(a@).skip(i + 1));
        assert(kb.drop_first() =~= key_view(b@).skip(i + 1));
        i = i + 1;
    }
    proof {
        let ghost ka = key_view(a@).skip(i as int);
        let ghost kb = key_view(b@).skip(i as int);
        assert(ka.len() == 0 || kb.len() == 0);
    }
    i == a.len() && i < b.len()
}

/// Sorts keyed elements by key, stably.
pub fn sort_keyed<T>(v: Vec<(Vec<String>, T)>) -> (r: Vec<(Vec<String>, T)>)
    ensures
        keyed_views(r@) == stable_sort(keyed_views(v@)),
{
    let ghost orig = keyed_views(v@);
    let len = v.len();
    let ghost n = v@.len();
    assert(n == len);
    let mut pending: Vec<(Vec<String>, T)> = Vec::new();
    let mut v = v;
    // Reverse `v` into `pending`, so popping yields the elements in order.
    while v.len() > 0
        invariant
            v@.len() + pending@.len() == n,
            orig.len() == n,
            keyed_views(v@) == orig.take(v@.len() as int),
            keyed_views(pending@) == orig.skip(v@.len() as int).reverse(),
        decreases v@.len(),
    {
        let ghost m = v@.len();
        let ghost old_v = v@;
        let e = v.pop().unwrap();
        assert(e == old_v[m - 1]);
        assert(v@ =~= old_v.drop_last());
        assert(keyed_views(old_v)[m - 1] == orig[m - 1]);
        let ghost old_p = keyed_views(pending@);
        pending.push(e);
        assert(keyed_views(v@) =~= orig.take(m - 1));
        assert(keyed_views(pending@) =~= old_p.push(orig[m - 1]));
        assert(keyed_views(pending@) =~= orig.skip(m - 1).reverse()) by {
            assert forall|k: int| 0 <= k < old_p.len() + 1 implies #[trigger] keyed_views(pending@)[k] == orig.skip(m - 1).reverse()[k] by {
                if k < old_p.len() {
                    assert(old_p[k] == orig.skip(m as int).reverse()[k]);
                }
            }
        }
    }
    assert(orig.skip(0) =~= orig);
    let mut r: Vec<(Vec<String>, T)> = Vec::new();
    let mut done: usize = 0;
    while pending.len() > 0
        invariant
            done + pending@.len() == n,
            orig.len() == n,
            n <= usize::MAX,
            keyed_views(pending@) == orig.skip(done as int).reverse(),
            keyed_views(r@) == stable_sort(orig.take(done as int)),
        decreases pending@.len(),
    {
        let ghost pend = keyed_views(pending@);
        let ghost old_pending = pending@;
        let e = pending.pop().unwrap();
        assert(e == old_pending[old_pending.len() - 1]);
        assert(pending@ =~= old_pending.drop_last());
        assert(keyed_views(pending@) =~= pend.drop_last());
        assert(pend[pend.len() - 1] == orig.skip(done as int).reverse()[pend.len() - 1]);
        assert(pend.last() == orig[done as int]);
        assert((key_view(e.0@), e.1) == orig[done as int]);
        let ghost sorted = keyed_views(r@);
        assert(sorted.skip(0) =~= sorted);
        let mut p: usize = 0;
        while p < r.len() && !keys_less(&e.0, &r[p].0)
            invariant
                p <= r@.len(),
                sorted == keyed_views(r@),
                insert_pos(sorted, key_view(e.0@)) == p + insert_pos(sorted.skip(p as int), key_view(e.0@)),
            decreases r@.len() - p,
        {
            assert(sorted.skip(p as int)[0] == sorted[p as int]);
            assert(sorted.skip(p as int).drop_first() =~= sorted.skip(p + 1));
            p = p + 1;
        }
        proof {
            if p < r@.len() {
                assert(sorted.skip(p as int)[0] == sorted[p as int]);
            }
        }
        assert(insert_pos(sorted, key_view(e.0@)) == p);
        r.insert(p, e);
        assert(orig.take(done + 1).drop_last() =~= orig.take(done as int));
        assert(keyed_views(r@) =~= sorted.insert(p as int, orig[done as int]));
        done = done + 1;
        assert(keyed_views(pending@) =~= orig.skip(done as int).reverse()) by {
            assert forall|k: int| 0 <= k < pend.len() - 1 implies #[trigger] keyed_views(pending@)[k] == orig.skip(done as int).reverse()[k] by {
                assert(pend[k] == orig.skip(done - 1).reverse()[k]);
            }
        }
    }
    assert(orig.take(n as int) =~= orig);
    r
}

proof fn lemma_insert_pos_bounds<T>(s: Seq<(Seq<Seq<char>>, T)>, k: Seq<Seq<char>>)
    ensures
        0 <= insert_pos(s, k) <= s.len(),
    decreases s.len(),
{
    if s.len() > 0 && !keys_lt(k, s[0].0) {
        lemma_insert_pos_bounds(s.drop_first(), k);
    }
}

/// Sorting keeps the elements: the result is a permutation of the input.
pub proof fn lemma_stable_sort_permutation<T>(s: Seq<(Seq<Seq<char>>, T)>)
    ensures
        stable_sort(s).to_multiset() == s.to_multiset(),
        stable_sort(s).len() == s.len(),
    decreases s.len(),
{
    if s.len() > 0 {
        let init = s.drop_last();
        lemma_stable_sort_permutation(init);
        let r = stable_sort(init);
        lemma_insert_pos_bounds(r, s.last().0);
        vstd::seq_lib::to_multiset_insert(r, insert_pos(r, s.last().0), s.last());
        vstd::seq_lib::to_multiset_build(init, s.last());
        assert(init.push(s.last()) =~= s);
    }
}

/// Every element of the sorted sequence comes from the input.
pub proof fn lemma_stable_sort_elements<T>(s: Seq<(Seq<Seq<char>>, T)>)
    ensures
        stable_sort(s).len() == s.len(),
        forall|j: int| 0 <= j < stable_sort(s).len() ==> s.contains(#[trigger] stable_sort(s)[j]),
    decreases s.len(),
{
    if s.len() > 0 {
        let init = s.drop_last();
        lemma_stable_sort_elements(init);
        let r = stable_sort(init);
        let p = insert_pos(r, s.last().0);
        lemma_insert_pos_bounds(r, s.last().0);
        let rr = r.insert(p, s.last());
        assert forall|j: int| 0 <= j < rr.len() implies s.contains(#[trigger] rr[j]) by {
            if j == p {
                assert(s[s.len() - 1] == rr[j]);
            } else {
                let jj = if j < p { j } else { j - 1 };
                assert(rr[j] == r[jj]);
                assert(init.contains(r[jj]));
                let k = choose|k: int| 0 <= k < init.len() && init[k] == r[jj];
                assert(s[k] == rr[j]);
            }
        }
    }
}

/// Keyed elements with `f` applied to each payload.
pub open spec fn payload_map<T, U>(s: Seq<(Seq<Seq<char>>, T)>, f: spec_fn(T) -> U) -> Seq<(Seq<Seq<char>>, U)> {
    s.map_values(|e: (Seq<Seq<char>>, T)| (e.0, f(e.1)))
}

proof fn lemma_insert_pos_payload<T, U>(s: Seq<(Seq<Seq<char>>, T)>, k: Seq<Seq<char>>, f: spec_fn(T) -> U)
    ensures
        insert_pos(payload_map(s, f), k) == insert_pos(s, k),
    decreases s.len(),
{
    if s.len() > 0 {
        assert(payload_map(s, f).drop_first() =~= payload_map(s.drop_first(), f));
        lemma_insert_pos_payload(s.drop_first(), k, f);
    }
}

/// Sorting looks at keys only: mapping the payloads commutes with it.
pub proof fn lemma_stable_sort_payload<T, U>(s: Seq<(Seq<Seq<char>>, T)>, f: spec_fn(T) -> U)
    ensures
        stable_sort(payload_map(s, f)) == payload_map(stable_sort(s), f),
    decreases s.len(),
{
    if s.len() > 0 {
        let m = payload_map(s, f);
        assert(m.drop_last() =~= payload_map(s.drop_last(), f));
        lemma_stable_sort_payload(s.drop_last(), f);
        let r = stable_sort(s.drop_last());
        let p = insert_pos(r, s.last().0);
        lemma_insert_pos_payload(r, s.last().0, f);
        lemma_insert_pos_bounds(r, s.last().0);
        assert(payload_map(r.insert(p, s.last()), f) =~= payload_map(r, f).insert(p, (s.last().0, f(s.last().1))));
    }
}

/// `v` in reverse order.
pub fn reverse_vec<T>(v: Vec<T>) -> (r: Vec<T>)
    ensures
        r@ == v@.reverse(),
{
    let mut v = v;
    let ghost orig = v@;
    let mut r: Vec<T> = Vec::new();
    while v.len() > 0
        invariant
            v@.len() <= orig.len(),
            v@ == orig.take(v@.len() as int),
            r@ == orig.skip(v@.len() as int).reverse(),
        decreases v@.len(),
    {
        let ghost n = v@.len();
        let ghost old_r = r@;
        let ghost old_v = v@;
        let x = v.pop().unwrap();
        assert(x == old_v[n - 1]);
        assert(v@ =~= old_v.drop_last());
        r.push(x);
        assert(v@ =~= orig.take(n - 1));
        let ghost want = orig.skip(n - 1).reverse();
        assert forall|k: int| 0 <= k < want.len() implies r@[k] == want[k] by {
            if k < old_r.len() {
                assert(old_r[k] == orig.skip(n as int).reverse()[k]);
            }
        }
        assert(r@ =~= want);
    }
    assert(orig.skip(0) =~= orig);
    r
}

} // verus!
