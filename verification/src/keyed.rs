//! Small maps held as lists of entries with distinct keys, in insertion
//! order: the name counter and the class assignment of the relabeling.

use vstd::prelude::*;
use crate::model::{Iri, STerm, SubjectNode};
use crate::util::str_equal;

verus! {

/// No key occurs twice.
pub open spec fn keys_distinct<K, V>(e: Seq<(K, V)>) -> bool {
    forall|i: int, j: int| 0 <= i < j < e.len() ==> e[i].0 != e[j].0
}

/// The index of the entry with key `k`, or -1.
pub open spec fn key_index<K, V>(e: Seq<(K, V)>, k: K) -> int
    decreases e.len(),
{
    if e.len() == 0 {
        -1
    } else if e.last().0 == k {
        e.len() - 1
    } else {
        key_index(e.drop_last(), k)
    }
}

/// The value stored for `k`, if any.
pub open spec fn value_of<K, V>(e: Seq<(K, V)>, k: K) -> Option<V> {
    let i = key_index(e, k);
    if i >= 0 { Some(e[i].1) } else { None }
}

/// The entries after setting `k` to `v`: replaced in place if `k` is there,
/// else added at the end.
pub open spec fn set_entry<K, V>(e: Seq<(K, V)>, k: K, v: V) -> Seq<(K, V)> {
    let i = key_index(e, k);
    if i >= 0 { e.update(i, (k, v)) } else { e.push((k, v)) }
}

/// `key_index` finds exactly the entry with key `k`.
pub proof fn lemma_key_index<K, V>(e: Seq<(K, V)>, k: K)
    requires
        keys_distinct(e),
    ensures
        -1 <= key_index(e, k) < e.len(),
        key_index(e, k) >= 0 ==> e[key_index(e, k)].0 == k,
        key_index(e, k) < 0 <==> forall|i: int| 0 <= i < e.len() ==> e[i].0 != k,
        forall|i: int| 0 <= i < e.len() && e[i].0 == k ==> key_index(e, k) == i,
    decreases e.len(),
{
    if e.len() > 0 {
        let init = e.drop_last();
        lemma_key_index(init, k);
        assert forall|i: int| 0 <= i < init.len() implies init[i] == e[i] by {}
    }
}

/// Setting a key keeps keys distinct, and changes the value of that key
/// only.
pub proof fn lemma_set_entry<K, V>(e: Seq<(K, V)>, k: K, v: V)
    requires
        keys_distinct(e),
    ensures
        keys_distinct(set_entry(e, k, v)),
        value_of(set_entry(e, k, v), k) == Some(v),
        forall|k2: K| k2 != k ==> value_of(set_entry(e, k, v), k2) == value_of(e, k2),
        set_entry(e, k, v).len() == e.len() + (if key_index(e, k) >= 0 { 0int } else { 1int }),
{
    lemma_key_index(e, k);
    let r = set_entry(e, k, v);
    let i = key_index(e, k);
    assert(keys_distinct(r)) by {
        assert forall|a: int, b: int| 0 <= a < b < r.len() implies r[a].0 != r[b].0 by {
            if i >= 0 {
                if a != i && b != i {
                    assert(r[a] == e[a] && r[b] == e[b]);
                } else if a == i {
                    assert(r[b] == e[b]);
                } else {
                    assert(r[a] == e[a]);
                }
            } else {
                if b < e.len() {
                    assert(r[a] == e[a] && r[b] == e[b]);
                } else {
                    assert(r[a] == e[a]);
                }
            }
        }
    }
    lemma_key_index(r, k);
    if i >= 0 {
        assert(r[i].0 == k);
    } else {
        assert(r[e.len() as int].0 == k);
    }
    assert forall|k2: K| k2 != k implies value_of(r, k2) == value_of(e, k2) by {
        lemma_key_index(e, k2);
        lemma_key_index(r, k2);
        let j = key_index(e, k2);
        if j >= 0 {
            assert(r[j] == e[j]);
        } else {
            if key_index(r, k2) >= 0 {
                let m = key_index(r, k2);
                if m < e.len() && m != i {
                    assert(r[m] == e[m]);
                }
            }
        }
    }
}

/// Setting a key to a value with property `p` keeps every value with it.
pub proof fn lemma_set_entry_values<K, V>(e: Seq<(K, V)>, k: K, v: V, p: spec_fn(V) -> bool)
    requires
        forall|j: int| 0 <= j < e.len() ==> p(#[trigger] e[j].1),
        p(v),
    ensures
        forall|j: int| 0 <= j < set_entry(e, k, v).len() ==> p(#[trigger] set_entry(e, k, v)[j].1),
{
    let r = set_entry(e, k, v);
    let i = key_index(e, k);
    if i >= 0 {
        lemma_key_index_found(e, k);
    }
    assert forall|j: int| 0 <= j < r.len() implies p(#[trigger] r[j].1) by {
        if j == i || j == e.len() {
            assert(r[j] == (k, v));
        } else {
            assert(r[j] == e[j]);
        }
    }
}

/// Some entry has key `x`.
pub open spec fn has_key<K, V>(e: Seq<(K, V)>, x: K) -> bool {
    exists|j: int| 0 <= j < e.len() && (#[trigger] e[j]).0 == x
}

/// Setting a key to a value keeps every other key, and adds that one.
pub proof fn lemma_set_entry_keys<K, V>(e: Seq<(K, V)>, k: K, v: V)
    ensures
        forall|x: K| #[trigger] has_key(set_entry(e, k, v), x) <==> (x == k || has_key(e, x)),
{
    let r = set_entry(e, k, v);
    let i = key_index(e, k);
    if i >= 0 {
        lemma_key_index_found(e, k);
    }
    assert forall|x: K| #[trigger] has_key(r, x) <==> (x == k || has_key(e, x)) by {
        if has_key(r, x) {
            let j = choose|j: int| 0 <= j < r.len() && (#[trigger] r[j]).0 == x;
            if j == i || j == e.len() {
                assert(r[j] == (k, v));
            } else {
                assert(r[j] == e[j]);
            }
        }
        if x == k {
            if i >= 0 {
                assert(r[i].0 == k);
            } else {
                assert(r[e.len() as int].0 == k);
            }
        } else if has_key(e, x) {
            let j = choose|j: int| 0 <= j < e.len() && (#[trigger] e[j]).0 == x;
            assert(j != i);
            assert(r[j] == e[j]);
        }
    }
}

/// A key that `key_index` finds sits at that index.
pub proof fn lemma_key_index_found<K, V>(e: Seq<(K, V)>, k: K)
    requires
        key_index(e, k) >= 0,
    ensures
        key_index(e, k) < e.len(),
        e[key_index(e, k)].0 == k,
    decreases e.len(),
{
    if e.len() > 0 && e.last().0 != k {
        lemma_key_index_found(e.drop_last(), k);
    }
}

/// With distinct keys, `k` has value `v` exactly when `(k, v)` is an entry.
pub proof fn lemma_value_of_entry<K, V>(e: Seq<(K, V)>, k: K, v: V)
    requires
        keys_distinct(e),
    ensures
        value_of(e, k) == Some(v) <==> exists|j: int| 0 <= j < e.len() && e[j] == (k, v),
        value_of(e, k) is Some <==> has_key(e, k),
{
    lemma_key_index(e, k);
    if exists|j: int| 0 <= j < e.len() && e[j] == (k, v) {
        let j = choose|j: int| 0 <= j < e.len() && e[j] == (k, v);
        assert(e[j].0 == k);
    }
    if value_of(e, k) == Some(v) {
        assert(e[key_index(e, k)] == (k, v));
    }
    if has_key(e, k) {
        let j = choose|j: int| 0 <= j < e.len() && (#[trigger] e[j]).0 == k;
    }
    if value_of(e, k) is Some {
        assert(e[key_index(e, k)].0 == k);
    }
}

/// How often each name has been used, as a map from names to counts.
pub struct NameCounter {
    entries: Vec<(String, usize)>,
}

impl View for NameCounter {
    type V = Seq<(Seq<char>, nat)>;

    closed spec fn view(&self) -> Seq<(Seq<char>, nat)> {
        self.entries@.map_values(|e: (String, usize)| (e.0@, e.1 as nat))
    }
}

/// The count of `name`: 0 if it was never used.
pub open spec fn count_of(counts: Seq<(Seq<char>, nat)>, name: Seq<char>) -> nat {
    match value_of(counts, name) {
        Some(n) => n,
        None => 0,
    }
}

impl NameCounter {
    #[verifier::type_invariant]
    closed spec fn distinct(self) -> bool {
        keys_distinct(self@)
    }

    /// No name counted yet.
    pub fn new() -> (r: NameCounter)
        ensures
            r@ == Seq::<(Seq<char>, nat)>::empty(),
    {
        let r = NameCounter { entries: Vec::new() };
        assert(r@ =~= Seq::<(Seq<char>, nat)>::empty());
        r
    }

    /// Forgets all counts.
    pub fn clear(&mut self)
        ensures
            final(self)@ == Seq::<(Seq<char>, nat)>::empty(),
    {
        self.entries = Vec::new();
        assert(self@ =~= Seq::<(Seq<char>, nat)>::empty());
    }

    /// Names are counted once each.
    pub fn assert_distinct(&self)
        ensures
            keys_distinct(self@),
    {
        proof {
            use_type_invariant(self);
        }
    }

    fn position(&self, name: &str) -> (r: Option<usize>)
        ensures
            match r {
                Some(i) => i < self@.len() && self@[i as int].0 == name@,
                None => forall|i: int| 0 <= i < self@.len() ==> self@[i].0 != name@,
            },
    {
        let mut i: usize = 0;
        while i < self.entries.len()
            invariant
                i <= self.entries@.len(),
                forall|j: int| 0 <= j < i ==> self@[j].0 != name@,
            decreases self.entries@.len() - i,
        {
            if str_equal(self.entries[i].0.as_str(), name) {
                return Some(i);
            }
            i = i + 1;
        }
        None
    }

    /// The count of `name`.
    pub fn count(&self, name: &str) -> (r: usize)
        ensures
            r == count_of(self@, name@),
    {
        proof {
            use_type_invariant(self);
            lemma_key_index(self@, name@);
        }
        match self.position(name) {
            Some(i) => self.entries[i].1,
            None => 0,
        }
    }

    /// Counts one more use of `name` and returns its new count.
    pub fn bump(&mut self, name: &str) -> (r: usize)
        requires
            count_of(old(self)@, name@) < usize::MAX,
        ensures
            r == count_of(old(self)@, name@) + 1,
            final(self)@ == set_entry(old(self)@, name@, r as nat),
    {
        proof {
            use_type_invariant(&*self);
            lemma_key_index(self@, name@);
        }
        let ghost before = self@;
        let found = self.position(name);
        let mut es: Vec<(String, usize)> = Vec::new();
        std::mem::swap(&mut es, &mut self.entries);
        assert(es@.map_values(|e: (String, usize)| (e.0@, e.1 as nat)) == before);
        let r = match found {
            Some(i) => {
                let n = es[i].1 + 1;
                es.set(i, (name.to_owned(), n));
                assert(es@.map_values(|e: (String, usize)| (e.0@, e.1 as nat)) =~= set_entry(before, name@, n as nat));
                n
            },
            None => {
                es.push((name.to_owned(), 1));
                assert(es@.map_values(|e: (String, usize)| (e.0@, e.1 as nat)) =~= set_entry(before, name@, 1));
                1
            },
        };
        proof {
            lemma_set_entry(before, name@, r as nat);
        }
        self.entries = es;
        r
    }
}

/// The new class of each subject, with each subject once.
pub struct ClassAssignment {
    entries: Vec<(SubjectNode, Iri)>,
}

impl View for ClassAssignment {
    type V = Seq<(STerm, Seq<char>)>;

    closed spec fn view(&self) -> Seq<(STerm, Seq<char>)> {
        self.entries@.map_values(|e: (SubjectNode, Iri)| (e.0@, e.1@))
    }
}

impl ClassAssignment {
    #[verifier::type_invariant]
    closed spec fn distinct(self) -> bool {
        keys_distinct(self@)
    }

    /// No subject assigned yet.
    pub fn new() -> (r: ClassAssignment)
        ensures
            r@ == Seq::<(STerm, Seq<char>)>::empty(),
    {
        let r = ClassAssignment { entries: Vec::new() };
        assert(r@ =~= Seq::<(STerm, Seq<char>)>::empty());
        r
    }

    /// Subjects are assigned once each.
    pub fn assert_distinct(&self)
        ensures
            keys_distinct(self@),
    {
        proof {
            use_type_invariant(self);
        }
    }

    /// Number of subjects assigned.
    pub fn len(&self) -> (r: usize)
        ensures
            r == self@.len(),
    {
        self.entries.len()
    }

    /// The `i`-th assignment.
    pub fn entry(&self, i: usize) -> (r: (&SubjectNode, &Iri))
        requires
            i < self@.len(),
        ensures
            (r.0@, r.1@) == self@[i as int],
    {
        (&self.entries[i].0, &self.entries[i].1)
    }

    fn position(&self, s: &SubjectNode) -> (r: Option<usize>)
        ensures
            match r {
                Some(i) => i < self@.len() && self@[i as int].0 == s@,
                None => forall|i: int| 0 <= i < self@.len() ==> self@[i].0 != s@,
            },
    {
        let mut i: usize = 0;
        while i < self.entries.len()
            invariant
                i <= self.entries@.len(),
                forall|j: int| 0 <= j < i ==> self@[j].0 != s@,
            decreases self.entries@.len() - i,
        {
            if self.entries[i].0.equals(s) {
                return Some(i);
            }
            i = i + 1;
        }
        None
    }

    /// The class of `s`, if it has one.
    pub fn get(&self, s: &SubjectNode) -> (r: Option<&Iri>)
        ensures
            match r {
                Some(c) => value_of(self@, s@) == Some(c@),
                None => value_of(self@, s@) is None,
            },
    {
        proof {
            use_type_invariant(self);
            lemma_key_index(self@, s@);
        }
        match self.position(s) {
            Some(i) => Some(&self.entries[i].1),
            None => None,
        }
    }

    /// Assigns class `c` to `s`.
    pub fn insert(&mut self, s: SubjectNode, c: Iri)
        ensures
            final(self)@ == set_entry(old(self)@, s@, c@),
    {
        proof {
            use_type_invariant(&*self);
            lemma_key_index(self@, s@);
        }
        let ghost before = self@;
        let ghost sv = s@;
        let ghost cv = c@;
        let found = self.position(&s);
        let mut es: Vec<(SubjectNode, Iri)> = Vec::new();
        std::mem::swap(&mut es, &mut self.entries);
        assert(es@.map_values(|e: (SubjectNode, Iri)| (e.0@, e.1@)) == before);
        match found {
            Some(i) => {
                es.set(i, (s, c));
                assert(es@.map_values(|e: (SubjectNode, Iri)| (e.0@, e.1@)) =~= set_entry(before, sv, cv));
            },
            None => {
                es.push((s, c));
                assert(es@.map_values(|e: (SubjectNode, Iri)| (e.0@, e.1@)) =~= set_entry(before, sv, cv));
            },
        }
        proof {
            lemma_set_entry(before, sv, cv);
        }
        self.entries = es;
    }
}

} // verus!
