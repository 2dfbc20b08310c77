//! Canonical forms of small RDF graphs: ground `(s, p, o)` string triples,
//! with blank nodes relabeled `_:c0`, `_:c1`, ... after color refinement,
//! so that graphs can be compared as sets.

use vstd::prelude::*;
use vstd::string::*;
use crate::model::{RdfTerm, RdfTriple, STerm, STriple, SubjectNode};
use crate::order::{keyed_views, lemma_stable_sort_permutation, sort_keyed, stable_sort};
use crate::util::push_char;

verus! {

/// A canonical triple: subject, predicate and object keys.
pub type CanonTriple = (String, String, String);

/// The view of a canonical triple.
pub type SCanon = (Seq<char>, Seq<char>, Seq<char>);

pub open spec fn canon_view(c: CanonTriple) -> SCanon {
    (c.0@, c.1@, c.2@)
}

/// A set of canonical triples, held in insertion order without repeats.
pub struct CanonSet {
    items: Vec<CanonTriple>,
}

impl View for CanonSet {
    type V = Set<SCanon>;

    closed spec fn view(&self) -> Set<SCanon> {
        self.items@.map_values(|c: CanonTriple| canon_view(c)).to_set()
    }
}

impl CanonSet {
    closed spec fn seq_view(&self) -> Seq<SCanon> {
        self.items@.map_values(|c: CanonTriple| canon_view(c))
    }

    #[verifier::type_invariant]
    closed spec fn no_repeats(self) -> bool {
        self.seq_view().no_duplicates()
    }

    /// An empty set.
    pub fn new() -> (r: CanonSet)
        ensures
            r@ == Set::<SCanon>::empty(),
    {
        let r = CanonSet { items: Vec::new() };
        assert(r.seq_view() =~= Seq::<SCanon>::empty());
        assert(r@ =~= Set::<SCanon>::empty());
        r
    }

    proof fn lemma_len(&self)
        requires
            self.seq_view().no_duplicates(),
        ensures
            self@.finite(),
            self@.len() == self.items@.len(),
    {
        self.seq_view().unique_seq_to_set();
        vstd::seq_lib::seq_to_set_is_finite(self.seq_view());
    }

    /// Number of triples.
    pub fn len(&self) -> (r: usize)
        ensures
            self@.finite(),
            r == self@.len(),
    {
        proof {
            use_type_invariant(self);
            self.lemma_len();
        }
        self.items.len()
    }

    /// Whether `c` is in the set.
    pub fn contains(&self, c: &CanonTriple) -> (r: bool)
        ensures
            r == self@.contains(canon_view(*c)),
    {
        let mut i: usize = 0;
        while i < self.items.len()
            invariant
                i <= self.items@.len(),
                forall|j: int| 0 <= j < i ==> self.seq_view()[j] != canon_view(*c),
            decreases self.items@.len() - i,
        {
            let x = &self.items[i];
            if x.0 == c.0 && x.1 == c.1 && x.2 == c.2 {
                assert(self.seq_view()[i as int] == canon_view(*c));
                return true;
            }
            i = i + 1;
        }
        assert(!self.seq_view().contains(canon_view(*c)));
        assert(!self@.contains(canon_view(*c)));
        false
    }

    /// Adds `c`.
    pub fn insert(&mut self, c: CanonTriple)
        ensures
            final(self)@ == old(self)@.insert(canon_view(c)),
    {
        proof {
            use_type_invariant(&*self);
        }
        if !self.contains(&c) {
            let ghost cv = canon_view(c);
            let mut v: Vec<CanonTriple> = Vec::new();
            std::mem::swap(&mut v, &mut self.items);
            let ghost before = v@.map_values(|c: CanonTriple| canon_view(c));
            v.push(c);
            assert(v@.map_values(|c: CanonTriple| canon_view(c)) =~= before.push(cv));
            self.items = v;
            assert(self.seq_view() =~= old(self).seq_view().push(cv));
            assert forall|x: SCanon| self@.contains(x) <==> old(self)@.insert(cv).contains(x) by {
                if self.seq_view().contains(x) && x != cv {
                    let k = choose|k: int| 0 <= k < self.seq_view().len() && self.seq_view()[k] == x;
                    assert(old(self).seq_view()[k] == x);
                }
                if old(self).seq_view().contains(x) {
                    let k = choose|k: int| 0 <= k < old(self).seq_view().len() && old(self).seq_view()[k] == x;
                    assert(self.seq_view()[k] == x);
                }
                if x == cv {
                    assert(self.seq_view()[self.seq_view().len() - 1] == x);
                }
            }
            assert(self@ =~= old(self)@.insert(cv));
        }
    }

    /// The set without `c`.
    pub fn without(&self, c: &CanonTriple) -> (r: CanonSet)
        ensures
            r@ == self@.remove(canon_view(*c)),
    {
        let mut r = CanonSet::new();
        for i in 0..self.items.len()
            invariant
                r@ == self.seq_view().take(i as int).to_set().remove(canon_view(*c)),
        {
            let x = &self.items[i];
            let ghost xv = canon_view(*x);
            assert(self.seq_view()[i as int] == xv);
            let ghost pre = self.seq_view().take(i as int);
            let ghost post = self.seq_view().take(i + 1);
            assert(post =~= pre.push(xv));
            let same = x.0 == c.0 && x.1 == c.1 && x.2 == c.2;
            if !same {
                r.insert((x.0.clone(), x.1.clone(), x.2.clone()));
            }
            proof {
                assert forall|y: SCanon| post.to_set().remove(canon_view(*c)).contains(y) <==> r@.contains(y) by {
                    if post.contains(y) && y != xv {
                        let k = choose|k: int| 0 <= k < post.len() && post[k] == y;
                        assert(pre[k] == y);
                    }
                    if pre.contains(y) {
                        let k = choose|k: int| 0 <= k < pre.len() && pre[k] == y;
                        assert(post[k] == y);
                    }
                    if y == xv {
                        assert(post[i as int] == y);
                    }
                }
                assert(r@ =~= post.to_set().remove(canon_view(*c)));
            }
        }
        assert(self.seq_view().take(self.items@.len() as int) =~= self.seq_view());
        r
    }

    /// The `i`-th triple held.
    fn item(&self, i: usize) -> (r: &CanonTriple)
        requires
            i < self.items@.len(),
        ensures
            self@.contains(canon_view(*r)),
    {
        assert(self.seq_view()[i as int] == canon_view(self.items@[i as int]));
        &self.items[i]
    }

    /// Number of triples in both sets.
    pub fn intersection_count(&self, other: &CanonSet) -> (r: usize)
        ensures
            r == self@.intersect(other@).len(),
    {
        proof {
            use_type_invariant(self);
            self.lemma_len();
        }
        let mut n: usize = 0;
        let ghost mut seen: Set<SCanon> = Set::empty();
        for i in 0..self.items.len()
            invariant
                seen == self.seq_view().take(i as int).to_set().intersect(other@),
                seen.finite(),
                n == seen.len(),
                n <= i,
                self.seq_view().no_duplicates(),
        {
            let x = &self.items[i];
            let ghost xv = canon_view(*x);
            assert(self.seq_view()[i as int] == xv);
            assert(self.seq_view().take(i + 1) =~= self.seq_view().take(i as int).push(xv));
            assert(!self.seq_view().take(i as int).contains(xv)) by {
                if self.seq_view().take(i as int).contains(xv) {
                    let k = choose|k: int| 0 <= k < i && self.seq_view().take(i as int)[k] == xv;
                    assert(self.seq_view()[k] == self.seq_view()[i as int]);
                }
            }
            if other.contains(x) {
                proof {
                    let pre = self.seq_view().take(i as int);
                    let post = self.seq_view().take(i + 1);
                    assert forall|y: SCanon| post.to_set().intersect(other@).contains(y) <==> seen.insert(xv).contains(y) by {
                        if post.contains(y) && y != xv {
                            let k = choose|k: int| 0 <= k < post.len() && post[k] == y;
                            assert(pre[k] == y);
                        }
                        if pre.contains(y) {
                            let k = choose|k: int| 0 <= k < pre.len() && pre[k] == y;
                            assert(post[k] == y);
                        }
                        if y == xv {
                            assert(post[i as int] == y);
                        }
                    }
                    assert(post.to_set().intersect(other@) =~= seen.insert(xv));
                    seen = seen.insert(xv);
                }
                n = n + 1;
            } else {
                proof {
                    let pre = self.seq_view().take(i as int);
                    let post = self.seq_view().take(i + 1);
                    assert forall|y: SCanon| post.to_set().intersect(other@).contains(y) <==> seen.contains(y) by {
                        if post.contains(y) && y != xv {
                            let k = choose|k: int| 0 <= k < post.len() && post[k] == y;
                            assert(pre[k] == y);
                        }
                        if pre.contains(y) {
                            let k = choose|k: int| 0 <= k < pre.len() && pre[k] == y;
                            assert(post[k] == y);
                        }
                    }
                    assert(post.to_set().intersect(other@) =~= seen);
                }
            }
        }
        assert(self.seq_view().take(self.items@.len() as int) =~= self.seq_view());
        n
    }

    /// Whether both sets hold the same triples.
    pub fn same_as(&self, other: &CanonSet) -> (r: bool)
        ensures
            r == (self@ == other@),
    {
        proof {
            use_type_invariant(self);
            use_type_invariant(other);
            self.lemma_len();
            other.lemma_len();
        }
        if self.items.len() != other.items.len() {
            return false;
        }
        let k = self.intersection_count(other);
        proof {
            vstd::set_lib::lemma_len_intersect(self@, other@);
            vstd::set_lib::lemma_len_intersect(other@, self@);
            assert(self@.intersect(other@) =~= other@.intersect(self@));
            if k == self.items@.len() {
                vstd::set_lib::lemma_subset_equality(self@.intersect(other@), self@);
                vstd::set_lib::lemma_subset_equality(self@.intersect(other@), other@);
            } else {
                if self@ == other@ {
                    assert(self@.intersect(other@) =~= self@);
                }
            }
        }
        k == self.items.len()
    }
}

/// Number of triples the two canonicalized graphs have in common.
pub fn common_canon_triple_count(a: &CanonSet, b: &CanonSet) -> (r: usize)
    ensures
        r == a@.intersect(b@).len(),
{
    a.intersection_count(b)
}

/// `N<iri>`, the key of a named node.
pub open spec fn named_key(iri: Seq<char>) -> Seq<char> {
    seq!['N', '<'] + iri + seq!['>']
}

/// The key of a term that is not a blank node: `N<iri>`, `L"value"@lang`,
/// or `L"value"^^<datatype>`.
pub open spec fn ground_key_of(t: STerm) -> Seq<char> {
    match t {
        STerm::Named(iri) => named_key(iri),
        STerm::Lit(v, d, lang) => match lang {
            Some(l) => seq!['L', '"'] + v + seq!['"', '@'] + l,
            None => seq!['L', '"'] + v + seq!['"', '^', '^', '<'] + d + seq!['>'],
        },
        STerm::Blank(_) => Seq::empty(),
    }
}

/// The decimal digit for `d < 10`.
pub open spec fn digit_char(d: nat) -> char {
    (d + 48) as char
}

/// `n` in decimal.
pub open spec fn decimal(n: nat) -> Seq<char>
    decreases n,
{
    if n < 10 {
        seq![digit_char(n)]
    } else {
        decimal(n / 10).push(digit_char(n % 10))
    }
}

/// The decimal digits of `n` are digits, at least one, and two or more
/// from 10 on.
pub proof fn lemma_decimal_digits(n: nat)
    ensures
        decimal(n).len() >= 1,
        n >= 10 ==> decimal(n).len() >= 2,
        forall|i: int| 0 <= i < decimal(n).len() ==> '0' <= #[trigger] decimal(n)[i] && decimal(n)[i] <= '9',
    decreases n,
{
    if n >= 10 {
        lemma_decimal_digits(n / 10);
        assert forall|i: int| 0 <= i < decimal(n).len() implies '0' <= #[trigger] decimal(n)[i] && decimal(n)[i] <= '9' by {
            if i < decimal(n).len() - 1 {
                assert(decimal(n)[i] == decimal(n / 10)[i]);
            }
        }
    }
}

/// Different numbers have different decimal digits.
pub proof fn lemma_decimal_injective(a: nat, b: nat)
    requires
        decimal(a) == decimal(b),
    ensures
        a == b,
    decreases a + b,
{
    lemma_decimal_digits(a);
    lemma_decimal_digits(b);
    let da = decimal(a);
    if a < 10 && b < 10 {
        assert(da[0] == digit_char(a));
        assert(da[0] == digit_char(b));
    } else if a >= 10 && b >= 10 {
        assert(da.last() == digit_char(a % 10));
        assert(da.last() == digit_char(b % 10));
        assert(a % 10 == b % 10);
        assert(da.drop_last() == decimal(a / 10));
        assert(da.drop_last() == decimal(b / 10));
        lemma_decimal_injective(a / 10, b / 10);
    }
}

/// Position of the first `x` in `s`, or -1.
pub open spec fn first_pos<A>(s: Seq<A>, x: A) -> int
    decreases s.len(),
{
    if s.len() == 0 {
        -1
    } else if s[0] == x {
        0
    } else {
        let p = first_pos(s.drop_first(), x);
        if p < 0 { -1 } else { p + 1 }
    }
}

/// `first_pos` is `i` when `x` first occurs at `i`, and -1 when `i` is the
/// length and `x` does not occur.
proof fn lemma_first_pos<A>(s: Seq<A>, x: A, i: int)
    requires
        0 <= i <= s.len(),
        forall|j: int| 0 <= j < i ==> s[j] != x,
        i < s.len() ==> s[i] == x,
    ensures
        first_pos(s, x) == (if i < s.len() { i } else { -1 }),
    decreases s.len(),
{
    if s.len() > 0 && i > 0 {
        assert forall|j: int| 0 <= j < i - 1 implies s.drop_first()[j] != x by {
            assert(s.drop_first()[j] == s[j + 1]);
        }
        if i < s.len() {
            assert(s.drop_first()[i - 1] == s[i]);
        }
        lemma_first_pos(s.drop_first(), x, i - 1);
    }
}

/// The color of a term during refinement: a blank node's current color
/// (from its first place among `ids`), a ground term's place among
/// `grounds` plus one, 0 for a term in neither.
pub open spec fn term_color(t: STerm, ids: Seq<Seq<char>>, colors: Seq<u64>, grounds: Seq<STerm>) -> u64 {
    match t {
        STerm::Blank(b) => {
            let i = first_pos(ids, b);
            if i >= 0 { colors[i] } else { 0 }
        },
        _ => {
            let i = first_pos(grounds, t);
            if 0 <= i && i < (u64::MAX as usize) { (i + 1) as u64 } else { 0 }
        },
    }
}

/// `g` with `t` added at the end, unless `t` is a blank node or in `g`.
pub open spec fn add_ground(g: Seq<STerm>, t: STerm) -> Seq<STerm> {
    if t is Blank || g.contains(t) { g } else { g.push(t) }
}

/// The distinct terms of `ts` that are not blank nodes, in order of first
/// appearance (subject before object).
pub open spec fn ground_terms(ts: Seq<STriple>) -> Seq<STerm>
    decreases ts.len(),
{
    if ts.len() == 0 {
        Seq::empty()
    } else {
        add_ground(add_ground(ground_terms(ts.drop_last()), ts.last().subject), ts.last().object)
    }
}

/// Position of `x` in `s`, or -1.
pub open spec fn position_of<A>(s: Seq<A>, x: A) -> int
    decreases s.len(),
{
    if s.len() == 0 {
        -1
    } else if s.last() == x {
        s.len() - 1
    } else {
        position_of(s.drop_last(), x)
    }
}

/// The key of a term, blank nodes being labeled `_:c<i>` after their
/// position `i` in `order`.
pub open spec fn term_key(t: STerm, order: Seq<Seq<char>>) -> Seq<char> {
    match t {
        STerm::Blank(id) => seq!['_', ':', 'c'] + decimal(position_of(order, id) as nat),
        _ => ground_key_of(t),
    }
}

/// The canonical triple of `t`.
pub open spec fn canon_of(t: STriple, order: Seq<Seq<char>>) -> SCanon {
    (term_key(t.subject, order), named_key(t.predicate), term_key(t.object, order))
}

/// Labels of the blank nodes of `ts`.
pub open spec fn blank_ids_of(ts: Seq<STriple>) -> Set<Seq<char>> {
    Set::new(|id: Seq<char>| exists|i: int| 0 <= i < ts.len()
        && (ts[i].subject == STerm::Blank(id) || ts[i].object == STerm::Blank(id)))
}

/// `r` is the canonical form of `ts` for some order of its blank nodes.
pub open spec fn canonical(ts: Seq<STriple>, r: Set<SCanon>) -> bool {
    exists|order: Seq<Seq<char>>| #[trigger] canonical_for(ts, r, order)
}

/// `r` is the canonical form of `ts` when its blank nodes are numbered in
/// `order`.
pub open spec fn canonical_for(ts: Seq<STriple>, r: Set<SCanon>, order: Seq<Seq<char>>) -> bool {
    &&& order.no_duplicates()
    &&& order.to_set() == blank_ids_of(ts)
    &&& r == ts.map_values(|t: STriple| canon_of(t, order)).to_set()
}

/// No triple of `ts` has a blank node.
pub open spec fn is_ground(ts: Seq<STriple>) -> bool {
    forall|i: int| 0 <= i < ts.len() ==> !(#[trigger] ts[i].subject is Blank) && !(ts[i].object is Blank)
}

/// The canonical form of a graph without blank nodes: its triples' keys.
pub open spec fn ground_canonical(ts: Seq<STriple>) -> Set<SCanon> {
    ts.map_values(|t: STriple| canon_of(t, Seq::empty())).to_set()
}

/// Where a separator `c` stands last in two equal texts, the parts before
/// and after it agree.
proof fn lemma_split_at_last(x1: Seq<char>, b1: Seq<char>, x2: Seq<char>, b2: Seq<char>, c: char)
    requires
        x1 + seq![c] + b1 == x2 + seq![c] + b2,
        !b1.contains(c),
        !b2.contains(c),
    ensures
        x1 == x2,
        b1 == b2,
{
    let s1 = x1 + seq![c] + b1;
    let s2 = x2 + seq![c] + b2;
    assert(s1.len() == s2.len());
    if b1.len() < b2.len() {
        let i = x1.len() - x2.len() - 1;
        assert(s1[x1.len() as int] == c);
        assert(s2[x1.len() as int] == b2[i]);
        assert(b2.contains(b2[i]));
    } else if b2.len() < b1.len() {
        let i = x2.len() - x1.len() - 1;
        assert(s2[x2.len() as int] == c);
        assert(s1[x2.len() as int] == b1[i]);
        assert(b1.contains(b1[i]));
    }
    assert(x1.len() == x2.len());
    assert(x1 =~= s1.take(x1.len() as int));
    assert(x2 =~= s2.take(x2.len() as int));
    assert(b1 =~= s1.skip(x1.len() as int + 1));
    assert(b2 =~= s2.skip(x2.len() as int + 1));
}

/// A term whose key can be read back: a typed literal's datatype IRI holds
/// no `<`, and a language-tagged literal has the datatype `rdf:langString`
/// and a tag without `@` or `>` (as valid IRIs and language tags are).
pub open spec fn key_readable(t: STerm) -> bool {
    match t {
        STerm::Named(_) => true,
        STerm::Lit(_, d, lang) => match lang {
            None => !d.contains('<'),
            Some(l) => d == crate::model::RDF_LANG_STRING_IRI@ && !l.contains('@') && !l.contains('>'),
        },
        STerm::Blank(_) => false,
    }
}

/// The key of a term that is not a blank node identifies it: two readable
/// terms (IRIs, literals with their value, datatype and language tag) with
/// the same key are the same term.
pub proof fn lemma_ground_key_injective(t1: STerm, t2: STerm)
    requires
        key_readable(t1),
        key_readable(t2),
        ground_key_of(t1) == ground_key_of(t2),
    ensures
        t1 == t2,
{
    let k = ground_key_of(t1);
    match t1 {
        STerm::Named(i1) => {
            assert(k[0] == 'N');
            match t2 {
                STerm::Named(i2) => {
                    assert(i1 =~= k.subrange(2, k.len() - 1));
                    assert(i2 =~= k.subrange(2, k.len() - 1));
                },
                _ => {
                    assert(ground_key_of(t2)[0] == 'L');
                },
            }
        },
        STerm::Lit(v1, d1, lang1) => {
            assert(k[0] == 'L');
            match t2 {
                STerm::Named(_) => {
                    assert(ground_key_of(t2)[0] == 'N');
                },
                STerm::Lit(v2, d2, lang2) => {
                    match (lang1, lang2) {
                        (None, None) => {
                            let x1 = seq!['L', '"'] + v1 + seq!['"', '^', '^'];
                            let x2 = seq!['L', '"'] + v2 + seq!['"', '^', '^'];
                            let b1 = d1 + seq!['>'];
                            let b2 = d2 + seq!['>'];
                            assert(ground_key_of(t1) =~= x1 + seq!['<'] + b1);
                            assert(ground_key_of(t2) =~= x2 + seq!['<'] + b2);
                            assert(!b1.contains('<')) by {
                                if b1.contains('<') {
                                    let j = choose|j: int| 0 <= j < b1.len() && b1[j] == '<';
                                    if j < d1.len() {
                                        assert(d1.contains(d1[j]));
                                    }
                                }
                            }
                            assert(!b2.contains('<')) by {
                                if b2.contains('<') {
                                    let j = choose|j: int| 0 <= j < b2.len() && b2[j] == '<';
                                    if j < d2.len() {
                                        assert(d2.contains(d2[j]));
                                    }
                                }
                            }
                            lemma_split_at_last(x1, b1, x2, b2, '<');
                            assert(v1 =~= x1.subrange(2, x1.len() - 3));
                            assert(v2 =~= x2.subrange(2, x2.len() - 3));
                            assert(d1 =~= b1.drop_last());
                            assert(d2 =~= b2.drop_last());
                        },
                        (Some(l1), Some(l2)) => {
                            let x1 = seq!['L', '"'] + v1 + seq!['"'];
                            let x2 = seq!['L', '"'] + v2 + seq!['"'];
                            assert(ground_key_of(t1) =~= x1 + seq!['@'] + l1);
                            assert(ground_key_of(t2) =~= x2 + seq!['@'] + l2);
                            lemma_split_at_last(x1, l1, x2, l2, '@');
                            assert(v1 =~= x1.subrange(2, x1.len() - 1));
                            assert(v2 =~= x2.subrange(2, x2.len() - 1));
                        },
                        (None, Some(l2)) => {
                            assert(k.last() == '>');
                            if l2.len() > 0 {
                                assert(ground_key_of(t2).last() == l2.last());
                                assert(l2.contains(l2.last()));
                            } else {
                                assert(ground_key_of(t2).last() == '@');
                            }
                        },
                        (Some(l1), None) => {
                            assert(ground_key_of(t2).last() == '>');
                            if l1.len() > 0 {
                                assert(k.last() == l1.last());
                                assert(l1.contains(l1.last()));
                            } else {
                                assert(k.last() == '@');
                            }
                        },
                    }
                },
                STerm::Blank(_) => {},
            }
        },
        STerm::Blank(_) => {},
    }
}

/// Every term of the triples of `ts` can be read back from its key.
pub open spec fn keys_readable(ts: Seq<STriple>) -> bool {
    forall|i: int| 0 <= i < ts.len() ==> key_readable(#[trigger] ts[i].subject) && key_readable(ts[i].object)
}

/// Graphs without blank nodes have the same canonical form exactly when
/// they hold the same triples (their terms readable from their keys).
pub proof fn lemma_ground_canonical_same_triples(a: Seq<STriple>, b: Seq<STriple>)
    requires
        keys_readable(a),
        keys_readable(b),
    ensures
        ground_canonical(a) == ground_canonical(b) <==> a.to_set() == b.to_set(),
{
    let f = |t: STriple| canon_of(t, Seq::empty());
    a.lemma_to_set_map_commutes(f);
    b.lemma_to_set_map_commutes(f);
    if ground_canonical(a) == ground_canonical(b) {
        assert forall|t: STriple| a.to_set().contains(t) implies b.to_set().contains(t) by {
            let i = choose|i: int| 0 <= i < a.len() && a[i] == t;
            assert(a.contains(a[i]));
            assert(a.map_values(f)[i] == f(t));
            assert(a.map_values(f).to_set().contains(f(t)));
            assert(b.map_values(f).to_set().contains(f(t)));
            let j = choose|j: int| 0 <= j < b.map_values(f).len() && b.map_values(f)[j] == f(t);
            let u = b[j];
            assert(f(u) == f(t));
            assert(key_readable(u.subject) && key_readable(u.object));
            assert(key_readable(t.subject) && key_readable(t.object));
            lemma_ground_key_injective(u.subject, t.subject);
            lemma_ground_key_injective(u.object, t.object);
            assert(u.predicate =~= named_key(u.predicate).subrange(2, named_key(u.predicate).len() - 1));
            assert(t.predicate =~= named_key(t.predicate).subrange(2, named_key(t.predicate).len() - 1));
            assert(b.contains(u));
        }
        assert forall|t: STriple| b.to_set().contains(t) implies a.to_set().contains(t) by {
            let i = choose|i: int| 0 <= i < b.len() && b[i] == t;
            assert(b.contains(b[i]));
            assert(b.map_values(f)[i] == f(t));
            assert(b.map_values(f).to_set().contains(f(t)));
            assert(a.map_values(f).to_set().contains(f(t)));
            let j = choose|j: int| 0 <= j < a.map_values(f).len() && a.map_values(f)[j] == f(t);
            let u = a[j];
            assert(f(u) == f(t));
            assert(key_readable(u.subject) && key_readable(u.object));
            assert(key_readable(t.subject) && key_readable(t.object));
            lemma_ground_key_injective(u.subject, t.subject);
            lemma_ground_key_injective(u.object, t.object);
            assert(u.predicate =~= named_key(u.predicate).subrange(2, named_key(u.predicate).len() - 1));
            assert(t.predicate =~= named_key(t.predicate).subrange(2, named_key(t.predicate).len() - 1));
            assert(a.contains(u));
        }
        assert(a.to_set() =~= b.to_set());
    }
    if a.to_set() == b.to_set() {
        assert(ground_canonical(a) == a.to_set().map(f));
        assert(ground_canonical(b) == b.to_set().map(f));
    }
}

/// A graph without blank nodes has exactly one canonical form, its
/// triples' keys.
pub proof fn lemma_canonical_ground(ts: Seq<STriple>, r: Set<SCanon>)
    requires
        is_ground(ts),
        canonical(ts, r),
    ensures
        r == ground_canonical(ts),
{
    let order = choose|order: Seq<Seq<char>>| #[trigger] canonical_for(ts, r, order);
    assert(blank_ids_of(ts) =~= Set::<Seq<char>>::empty()) by {
        assert forall|id: Seq<char>| !blank_ids_of(ts).contains(id) by {
            if blank_ids_of(ts).contains(id) {
                let i = choose|i: int| 0 <= i < ts.len()
                    && (ts[i].subject == STerm::Blank(id) || ts[i].object == STerm::Blank(id));
                assert(!(ts[i].subject is Blank) && !(ts[i].object is Blank));
            }
        }
    }
    order.lemma_cardinality_of_empty_set_is_0();
    assert(order =~= Seq::<Seq<char>>::empty());
}

/// Graphs without blank nodes holding the same triples, in any order and
/// with any repeats, have the same canonical form: isomorphic ground graphs
/// canonicalize identically.
pub proof fn lemma_canonical_ground_sets(a: Seq<STriple>, b: Seq<STriple>, ra: Set<SCanon>, rb: Set<SCanon>)
    requires
        is_ground(a),
        is_ground(b),
        a.to_set() == b.to_set(),
        canonical(a, ra),
        canonical(b, rb),
    ensures
        ra == rb,
{
    lemma_canonical_ground(a, ra);
    lemma_canonical_ground(b, rb);
    let f = |t: STriple| canon_of(t, Seq::empty());
    a.lemma_to_set_map_commutes(f);
    b.lemma_to_set_map_commutes(f);
    assert(a.map_values(f) == a.map_values(|t: STriple| canon_of(t, Seq::empty())));
    assert(b.map_values(f) == b.map_values(|t: STriple| canon_of(t, Seq::empty())));
}

/// `N<iri>`.
pub fn named_node_key(iri: &str) -> (r: String)
    ensures
        r@ == named_key(iri@),
{
    let mut s = String::new();
    push_char(&mut s, 'N');
    push_char(&mut s, '<');
    s.append(iri);
    push_char(&mut s, '>');
    assert(s@ =~= named_key(iri@));
    s
}

/// The key of a term that is not a blank node.
fn ground_key(t: &RdfTerm) -> (r: String)
    requires
        !(t@ is Blank),
    ensures
        r@ == ground_key_of(t@),
{
    match t {
        RdfTerm::Iri(n) => named_node_key(n.iri.as_str()),
        RdfTerm::Literal(l) => {
            let mut s = String::new();
            push_char(&mut s, 'L');
            push_char(&mut s, '"');
            s.append(l.value.as_str());
            push_char(&mut s, '"');
            match &l.language {
                Some(lang) => {
                    push_char(&mut s, '@');
                    s.append(lang.as_str());
                },
                None => {
                    push_char(&mut s, '^');
                    push_char(&mut s, '^');
                    push_char(&mut s, '<');
                    s.append(l.datatype.as_str());
                    push_char(&mut s, '>');
                },
            }
            assert(s@ =~= ground_key_of(t@));
            s
        },
        RdfTerm::Blank(_) => String::new(),
    }
}

/// Appends `n` in decimal to `s`.
pub fn push_decimal(s: &mut String, n: usize)
    ensures
        final(s)@ == old(s)@ + decimal(n as nat),
    decreases n,
{
    if n < 10 {
        let c = (n as u8 + 48) as char;
        push_char(s, c);
        assert(final(s)@ =~= old(s)@ + decimal(n as nat));
    } else {
        push_decimal(s, n / 10);
        let c = ((n % 10) as u8 + 48) as char;
        push_char(s, c);
        assert(final(s)@ =~= old(s)@ + decimal(n as nat));
    }
}

/// The lowest `k` decimal digits of `u`, lowest first.
pub open spec fn low_digits(u: nat, k: nat) -> Seq<char>
    decreases k,
{
    if k == 0 {
        Seq::empty()
    } else {
        seq![digit_char(u % 10)] + low_digits(u / 10, (k - 1) as nat)
    }
}

/// `u` in decimal, left-padded with zeros to 20 digits (the lowest 20
/// digits, highest first).
pub open spec fn padded_digits(u: nat) -> Seq<char> {
    low_digits(u, 20).reverse()
}

/// `u` in decimal, left-padded with zeros to 20 digits, so that the text
/// order of two such strings is the numeric order.
fn padded_decimal(u: u64) -> (r: String)
    ensures
        r@ == padded_digits(u as nat),
{
    let mut digits: Vec<char> = Vec::new();
    let mut v = u;
    let mut k: usize = 0;
    while k < 20
        invariant
            k <= 20,
            low_digits(u as nat, 20) == digits@ + low_digits(v as nat, (20 - k) as nat),
        decreases 20 - k,
    {
        let d = (v % 10) as u8;
        let c = (d + 48) as char;
        assert(c == digit_char((v % 10) as nat));
        let ghost before = digits@;
        digits.push(c);
        assert(low_digits(v as nat, (20 - k) as nat) == seq![c] + low_digits((v / 10) as nat, (20 - k - 1) as nat));
        assert(digits@ =~= before + seq![c]);
        assert(before + low_digits(v as nat, (20 - k) as nat) =~= digits@ + low_digits((v / 10) as nat, (20 - k - 1) as nat));
        v = v / 10;
        k = k + 1;
    }
    assert(low_digits(v as nat, 0) =~= Seq::<char>::empty());
    assert(digits@ =~= low_digits(u as nat, 20));
    let mut s = String::new();
    let mut i = digits.len();
    assert(digits@.skip(i as int).reverse() =~= s@);
    while i > 0
        invariant
            i <= digits@.len(),
            s@ == digits@.skip(i as int).reverse(),
        decreases i,
    {
        i = i - 1;
        push_char(&mut s, digits[i]);
        assert(digits@.skip(i as int).reverse() =~= digits@.skip(i + 1).reverse().push(digits@[i as int]));
    }
    assert(digits@.skip(0) =~= digits@);
    s
}

/// Position of `id` among `ids`.
fn find_id(ids: &Vec<String>, id: &String) -> (r: Option<usize>)
    ensures
        match r {
            Some(i) => i < ids@.len() && ids@[i as int]@ == id@
                && forall|j: int| 0 <= j < i ==> ids@[j]@ != id@,
            None => forall|j: int| 0 <= j < ids@.len() ==> ids@[j]@ != id@,
        },
{
    let mut i: usize = 0;
    while i < ids.len()
        invariant
            i <= ids@.len(),
            forall|j: int| 0 <= j < i ==> ids@[j]@ != id@,
        decreases ids@.len() - i,
    {
        if ids[i] == *id {
            return Some(i);
        }
        i = i + 1;
    }
    None
}

/// Position of a ground term among `grounds`.
fn find_term(grounds: &Vec<RdfTerm>, t: &RdfTerm) -> (r: Option<usize>)
    ensures
        match r {
            Some(i) => i < grounds@.len() && grounds@[i as int]@ == t@
                && forall|j: int| 0 <= j < i ==> grounds@[j]@ != t@,
            None => forall|j: int| 0 <= j < grounds@.len() ==> grounds@[j]@ != t@,
        },
{
    let mut i: usize = 0;
    while i < grounds.len()
        invariant
            i <= grounds@.len(),
            forall|j: int| 0 <= j < i ==> grounds@[j]@ != t@,
        decreases grounds@.len() - i,
    {
        if grounds[i].equals(t) {
            return Some(i);
        }
        i = i + 1;
    }
    None
}

/// The current color of a term: its blank node's color, or the color given
/// to a ground term (its position among `grounds`, plus one).
fn color_of(t: &RdfTerm, blanks: &Vec<String>, colors: &Vec<u64>, grounds: &Vec<RdfTerm>) -> (r: u64)
    requires
        colors@.len() == blanks@.len(),
    ensures
        r == term_color(t@, id_views(blanks@), colors@, crate::graph::term_views(grounds@)),
{
    match t {
        RdfTerm::Blank(b) => match find_id(blanks, &b.id) {
            Some(i) => {
                proof {
                    lemma_first_pos(id_views(blanks@), b@, i as int);
                }
                colors[i]
            },
            None => {
                proof {
                    lemma_first_pos(id_views(blanks@), b@, blanks@.len() as int);
                }
                0
            },
        },
        _ => match find_term(grounds, t) {
            Some(i) => {
                proof {
                    lemma_first_pos(crate::graph::term_views(grounds@), t@, i as int);
                }
                if i < u64::MAX as usize { i as u64 + 1 } else { 0 }
            },
            None => {
                proof {
                    lemma_first_pos(crate::graph::term_views(grounds@), t@, grounds@.len() as int);
                }
                0
            },
        },
    }
}

/// Element-wise equality of two keys.
fn keys_equal(a: &Vec<String>, b: &Vec<String>) -> (r: bool)
    ensures
        r == (crate::order::key_view(a@) == crate::order::key_view(b@)),
{
    if a.len() != b.len() {
        assert(crate::order::key_view(a@).len() != crate::order::key_view(b@).len());
        return false;
    }
    let mut i: usize = 0;
    while i < a.len()
        invariant
            i <= a@.len(),
            a@.len() == b@.len(),
            forall|j: int| 0 <= j < i ==> a@[j]@ == b@[j]@,
        decreases a@.len() - i,
    {
        if a[i] != b[i] {
            assert(crate::order::key_view(a@)[i as int] != crate::order::key_view(b@)[i as int]);
            return false;
        }
        i = i + 1;
    }
    assert(crate::order::key_view(a@) =~= crate::order::key_view(b@));
    true
}

/// Element-wise equality of two lists of keys.
fn signatures_equal(a: &Vec<(Vec<String>, ())>, b: &Vec<(Vec<String>, ())>) -> (r: bool)
    ensures
        r == (keyed_views(a@) == keyed_views(b@)),
{
    if a.len() != b.len() {
        assert(keyed_views(a@).len() != keyed_views(b@).len());
        return false;
    }
    let mut i: usize = 0;
    while i < a.len()
        invariant
            i <= a@.len(),
            a@.len() == b@.len(),
            forall|j: int| 0 <= j < i ==> keyed_views(a@)[j] == keyed_views(b@)[j],
        decreases a@.len() - i,
    {
        if !keys_equal(&a[i].0, &b[i].0) {
            assert(keyed_views(a@)[i as int] != keyed_views(b@)[i as int]);
            return false;
        }
        assert(keyed_views(a@)[i as int] == keyed_views(b@)[i as int]);
        i = i + 1;
    }
    assert(keyed_views(a@) =~= keyed_views(b@));
    true
}

/// The signature entries that blank node `b` takes from triple `t`: as its
/// subject, `("0", predicate, padded color of the object)`; as its object,
/// `("1", predicate, padded color of the subject)`.
pub open spec fn sig_entries_of(
    t: STriple,
    b: Seq<char>,
    ids: Seq<Seq<char>>,
    colors: Seq<u64>,
    grounds: Seq<STerm>,
) -> Seq<(Seq<Seq<char>>, ())> {
    (if t.subject == STerm::Blank(b) {
        seq![(seq!["0"@, t.predicate, padded_digits(term_color(t.object, ids, colors, grounds) as nat)], ())]
    } else {
        Seq::empty()
    }) + (if t.object == STerm::Blank(b) {
        seq![(seq!["1"@, t.predicate, padded_digits(term_color(t.subject, ids, colors, grounds) as nat)], ())]
    } else {
        Seq::empty()
    })
}

/// The signature entries of `b` over `ts`, in triple order.
pub open spec fn raw_signature(
    ts: Seq<STriple>,
    b: Seq<char>,
    ids: Seq<Seq<char>>,
    colors: Seq<u64>,
    grounds: Seq<STerm>,
) -> Seq<(Seq<Seq<char>>, ())>
    decreases ts.len(),
{
    if ts.len() == 0 {
        Seq::empty()
    } else {
        raw_signature(ts.drop_last(), b, ids, colors, grounds) + sig_entries_of(ts.last(), b, ids, colors, grounds)
    }
}

/// The signature of blank node `b`: its (role, predicate, neighbor color)
/// entries, sorted.
pub open spec fn blank_signature(
    ts: Seq<STriple>,
    b: Seq<char>,
    ids: Seq<Seq<char>>,
    colors: Seq<u64>,
    grounds: Seq<STerm>,
) -> Seq<(Seq<Seq<char>>, ())> {
    stable_sort(raw_signature(ts, b, ids, colors, grounds))
}

/// The pair of old color and signature of the blank node at `b`.
pub open spec fn color_pair(
    ts: Seq<STriple>,
    ids: Seq<Seq<char>>,
    colors: Seq<u64>,
    grounds: Seq<STerm>,
    b: int,
) -> (u64, Seq<(Seq<Seq<char>>, ())>) {
    (colors[b], blank_signature(ts, ids[b], ids, colors, grounds))
}

/// The new colors of the first `n` blank nodes, and the distinct pairs met
/// among them in order: a blank node's new color is the place of its pair
/// among the pairs met, plus one.
pub open spec fn refine_upto(
    ts: Seq<STriple>,
    ids: Seq<Seq<char>>,
    colors: Seq<u64>,
    grounds: Seq<STerm>,
    n: nat,
) -> (Seq<u64>, Seq<(u64, Seq<(Seq<Seq<char>>, ())>)>)
    decreases n,
{
    if n == 0 {
        (Seq::empty(), Seq::empty())
    } else {
        let prev = refine_upto(ts, ids, colors, grounds, (n - 1) as nat);
        let p = color_pair(ts, ids, colors, grounds, n - 1);
        let k = first_pos(prev.1, p);
        if k >= 0 {
            (prev.0.push((k + 1) as u64), prev.1)
        } else {
            (prev.0.push((prev.1.len() + 1) as u64), prev.1.push(p))
        }
    }
}

/// The colors after one round of refinement.
pub open spec fn spec_refine(ts: Seq<STriple>, ids: Seq<Seq<char>>, colors: Seq<u64>, grounds: Seq<STerm>) -> Seq<u64> {
    refine_upto(ts, ids, colors, grounds, ids.len()).0
}

/// The views of the (old color, signature) pairs met so far.
pub open spec fn seen_views(seen: Seq<(u64, Vec<(Vec<String>, ())>)>) -> Seq<(u64, Seq<(Seq<Seq<char>>, ())>)> {
    seen.map_values(|e: (u64, Vec<(Vec<String>, ())>)| (e.0, keyed_views(e.1@)))
}

/// One round of color refinement: each blank node's new color numbers the
/// distinct pairs of its old color and the sorted list of (role,
/// predicate, neighbor color) it takes part in. Two blank nodes get the
/// same new color exactly when they had the same old color and the same
/// signature.
fn refine(triples: &[RdfTriple], blanks: &Vec<String>, colors: &Vec<u64>, grounds: &Vec<RdfTerm>) -> (r: Vec<u64>)
    requires
        colors@.len() == blanks@.len(),
    ensures
        r@.len() == blanks@.len(),
        r@ == spec_refine(crate::graph::triple_views(triples@), id_views(blanks@), colors@, crate::graph::term_views(grounds@)),
        forall|i: int, j: int| 0 <= i < r@.len() && 0 <= j < r@.len() ==>
            (#[trigger] r@[i] == #[trigger] r@[j] <==> colors@[i] == colors@[j]
                && blank_signature(crate::graph::triple_views(triples@), blanks@[i]@, id_views(blanks@), colors@,
                    crate::graph::term_views(grounds@))
                == blank_signature(crate::graph::triple_views(triples@), blanks@[j]@, id_views(blanks@), colors@,
                    crate::graph::term_views(grounds@))),
{
    let ghost ts = crate::graph::triple_views(triples@);
    let ghost ids = id_views(blanks@);
    let ghost gv = crate::graph::term_views(grounds@);
    let ghost pair = |b: int| (colors@[b], blank_signature(ts, ids[b], ids, colors@, gv));
    let mut seen: Vec<(u64, Vec<(Vec<String>, ())>)> = Vec::new();
    let mut next: Vec<u64> = Vec::new();
    let ghost mut idx_of: Seq<int> = Seq::empty();
    for bi in 0..blanks.len()
        invariant
            colors@.len() == blanks@.len(),
            ts == crate::graph::triple_views(triples@),
            ids == id_views(blanks@),
            gv == crate::graph::term_views(grounds@),
            pair == (|b: int| (colors@[b], blank_signature(ts, ids[b], ids, colors@, gv))),
            next@.len() == bi,
            idx_of.len() == bi,
            seen@.len() <= bi,
            forall|q1: int, q2: int| 0 <= q1 < q2 < seen@.len() ==> seen_views(seen@)[q1] != seen_views(seen@)[q2],
            forall|b: int| 0 <= b < bi ==> 0 <= #[trigger] idx_of[b] < seen@.len()
                && next@[b] == idx_of[b] + 1 && seen_views(seen@)[idx_of[b]] == pair(b),
            (next@, seen_views(seen@)) == refine_upto(ts, ids, colors@, gv, bi as nat),
            forall|b: int| 0 <= b < ids.len() ==> #[trigger] pair(b) == color_pair(ts, ids, colors@, gv, b),
    {
        let b = &blanks[bi];
        let mut sig: Vec<(Vec<String>, ())> = Vec::new();
        for ti in 0..triples.len()
            invariant
                colors@.len() == blanks@.len(),
                ts == crate::graph::triple_views(triples@),
                ids == id_views(blanks@),
                gv == crate::graph::term_views(grounds@),
                *b == blanks@[bi as int],
                keyed_views(sig@) == raw_signature(ts.take(ti as int), b@, ids, colors@, gv),
        {
            let t = &triples[ti];
            assert(ts.take(ti + 1).drop_last() =~= ts.take(ti as int));
            assert(ts.take(ti + 1).last() == t@);
            let ghost before = keyed_views(sig@);
            if let SubjectNode::Blank(sb) = &t.subject {
                if sb.id == *b {
                    let c = color_of(&t.object, blanks, colors, grounds);
                    let key = vec!["0".to_owned(), t.predicate.iri.clone(), padded_decimal(c)];
                    assert(crate::order::key_view(key@) =~= seq!["0"@, t.predicate@, padded_digits(c as nat)]);
                    sig.push((key, ()));
                }
            }
            let ghost mid = keyed_views(sig@);
            assert(mid =~= before + (if t@.subject == STerm::Blank(b@) {
                seq![(seq!["0"@, t@.predicate, padded_digits(term_color(t@.object, ids, colors@, gv) as nat)], ())]
            } else {
                Seq::<(Seq<Seq<char>>, ())>::empty()
            }));
            if let RdfTerm::Blank(ob) = &t.object {
                if ob.id == *b {
                    let c = color_of(&t.subject.to_term(), blanks, colors, grounds);
                    let key = vec!["1".to_owned(), t.predicate.iri.clone(), padded_decimal(c)];
                    assert(crate::order::key_view(key@) =~= seq!["1"@, t.predicate@, padded_digits(c as nat)]);
                    sig.push((key, ()));
                }
            }
            assert(keyed_views(sig@) =~= mid + (if t@.object == STerm::Blank(b@) {
                seq![(seq!["1"@, t@.predicate, padded_digits(term_color(t@.subject, ids, colors@, gv) as nat)], ())]
            } else {
                Seq::<(Seq<Seq<char>>, ())>::empty()
            }));
            assert(keyed_views(sig@) =~= raw_signature(ts.take(ti + 1), b@, ids, colors@, gv));
        }
        assert(ts.take(triples@.len() as int) =~= ts);
        let sig = sort_keyed(sig);
        let ghost sv = keyed_views(sig@);
        assert(sv == blank_signature(ts, ids[bi as int], ids, colors@, gv));
        let old_color = colors[bi];
        let mut found: Option<usize> = None;
        let mut k: usize = 0;
        while k < seen.len()
            invariant
                k <= seen@.len(),
                sv == keyed_views(sig@),
                match found {
                    Some(f) => f < k && seen_views(seen@)[f as int] == (old_color, sv)
                        && forall|q: int| 0 <= q < f ==> seen_views(seen@)[q] != (old_color, sv),
                    None => forall|q: int| 0 <= q < k ==> seen_views(seen@)[q] != (old_color, sv),
                },
            decreases seen@.len() - k,
        {
            assert(seen_views(seen@)[k as int] == (seen@[k as int].0, keyed_views(seen@[k as int].1@)));
            if found.is_none() && seen[k].0 == old_color && signatures_equal(&seen[k].1, &sig) {
                found = Some(k);
            }
            k = k + 1;
        }
        let ghost seen_before = seen_views(seen@);
        let ghost prev = refine_upto(ts, ids, colors@, gv, bi as nat);
        proof {
            assert(color_pair(ts, ids, colors@, gv, bi as int) == (old_color, sv));
            match found {
                Some(f) => lemma_first_pos(seen_before, (old_color, sv), f as int),
                None => lemma_first_pos(seen_before, (old_color, sv), seen_before.len() as int),
            }
        }
        let idx = match found {
            Some(f) => f,
            None => {
                seen.push((old_color, sig));
                assert(seen_views(seen@) =~= seen_before.push((old_color, sv)));
                seen.len() - 1
            },
        };
        let n_seen = seen.len();
        assert(idx < (0xFFFF_FFFF_FFFF_FFFFu64 as usize)) by (bit_vector)
            requires
                idx < n_seen,
        ;
        let color = if idx < u64::MAX as usize { idx as u64 + 1 } else { 0 };
        next.push(color);
        proof {
            idx_of = idx_of.push(idx as int);
            assert(refine_upto(ts, ids, colors@, gv, (bi + 1) as nat).1 == seen_views(seen@));
            assert(refine_upto(ts, ids, colors@, gv, (bi + 1) as nat).0 =~= next@);
            assert(pair(bi as int) == (old_color, sv));
            assert forall|b: int| 0 <= b <= bi implies 0 <= #[trigger] idx_of[b] < seen@.len()
                && next@[b] == idx_of[b] + 1 && seen_views(seen@)[idx_of[b]] == pair(b) by {
                if b < bi {
                    assert(seen_views(seen@)[idx_of[b]] == seen_before[idx_of[b]]);
                }
            }
        }
    }
    proof {
        assert(next@ == spec_refine(ts, ids, colors@, gv));
        assert forall|i: int, j: int| 0 <= i < next@.len() && 0 <= j < next@.len() implies
            (#[trigger] next@[i] == #[trigger] next@[j] <==> pair(i) == pair(j)) by {
            if pair(i) == pair(j) && idx_of[i] != idx_of[j] {
                if idx_of[i] < idx_of[j] {
                    assert(seen_views(seen@)[idx_of[i]] != seen_views(seen@)[idx_of[j]]);
                } else {
                    assert(seen_views(seen@)[idx_of[j]] != seen_views(seen@)[idx_of[i]]);
                }
            }
        }
    }
    next
}

/// The labels carried by keyed elements.
pub open spec fn payload_ids(s: Seq<(Seq<Seq<char>>, String)>) -> Seq<Seq<char>> {
    s.map_values(|e: (Seq<Seq<char>>, String)| e.1@)
}

proof fn lemma_permuted_ids(a: Seq<(Seq<Seq<char>>, String)>, b: Seq<(Seq<Seq<char>>, String)>)
    requires
        a.to_multiset() == b.to_multiset(),
        payload_ids(a).no_duplicates(),
    ensures
        payload_ids(b).no_duplicates(),
        payload_ids(b).to_set() == payload_ids(a).to_set(),
{
    broadcast use vstd::seq_lib::to_multiset_contains;
    assert(a.no_duplicates()) by {
        assert forall|i: int, j: int| 0 <= i < a.len() && 0 <= j < a.len() && i != j implies a[i] != a[j] by {
            assert(payload_ids(a)[i] != payload_ids(a)[j]);
        }
    }
    a.lemma_multiset_has_no_duplicates();
    b.lemma_multiset_has_no_duplicates_conv();
    assert forall|x: Seq<char>| payload_ids(b).to_set().contains(x) <==> payload_ids(a).to_set().contains(x) by {
        if payload_ids(b).contains(x) {
            let j = choose|j: int| 0 <= j < payload_ids(b).len() && payload_ids(b)[j] == x;
            assert(b.contains(b[j]));
            assert(b.to_multiset().count(b[j]) > 0);
            let i = choose|i: int| 0 <= i < a.len() && a[i] == b[j];
            assert(payload_ids(a)[i] == x);
        }
        if payload_ids(a).contains(x) {
            let i = choose|i: int| 0 <= i < payload_ids(a).len() && payload_ids(a)[i] == x;
            assert(a.contains(a[i]));
            assert(a.to_multiset().count(a[i]) > 0);
            let j = choose|j: int| 0 <= j < b.len() && b[j] == a[i];
            assert(payload_ids(b)[j] == x);
        }
    }
    assert(payload_ids(b).to_set() =~= payload_ids(a).to_set());
    assert forall|i: int, j: int| 0 <= i < b.len() && 0 <= j < b.len() && i != j implies payload_ids(b)[i] != payload_ids(b)[j] by {
        if payload_ids(b)[i] == payload_ids(b)[j] {
            assert(b.to_multiset().count(b[i]) > 0);
            assert(b.to_multiset().count(b[j]) > 0);
            let ia = choose|k: int| 0 <= k < a.len() && a[k] == b[i];
            let ja = choose|k: int| 0 <= k < a.len() && a[k] == b[j];
            assert(payload_ids(a)[ia] == payload_ids(a)[ja]);
            assert(b[i] == b[j]);
        }
    }
}

proof fn lemma_position_of<A>(s: Seq<A>, i: int)
    requires
        s.no_duplicates(),
        0 <= i < s.len(),
    ensures
        position_of(s, s[i]) == i,
    decreases s.len(),
{
    if i < s.len() - 1 {
        lemma_position_of(s.drop_last(), i);
        assert(s.drop_last()[i] == s[i]);
    }
}

/// The views of a slice of string labels.
pub open spec fn id_views(v: Seq<String>) -> Seq<Seq<char>> {
    v.map_values(|s: String| s@)
}

/// `g` with `id` added at the end, unless it is there.
pub open spec fn add_label(g: Seq<Seq<char>>, id: Seq<char>) -> Seq<Seq<char>> {
    if g.contains(id) { g } else { g.push(id) }
}

/// `g` with the label of `t` added when `t` is a blank node.
pub open spec fn add_blank(g: Seq<Seq<char>>, t: STerm) -> Seq<Seq<char>> {
    match t {
        STerm::Blank(id) => add_label(g, id),
        _ => g,
    }
}

/// The distinct blank node labels of `ts`, in order of first appearance
/// (subject before object).
pub open spec fn blank_order(ts: Seq<STriple>) -> Seq<Seq<char>>
    decreases ts.len(),
{
    if ts.len() == 0 {
        Seq::empty()
    } else {
        add_blank(add_blank(blank_order(ts.drop_last()), ts.last().subject), ts.last().object)
    }
}

/// Adds `id` to `ids` unless it is there.
fn add_id(ids: &mut Vec<String>, id: &String)
    requires
        id_views(old(ids)@).no_duplicates(),
    ensures
        id_views(final(ids)@).no_duplicates(),
        id_views(final(ids)@).to_set() == id_views(old(ids)@).to_set().insert(id@),
        id_views(final(ids)@) == add_label(id_views(old(ids)@), id@),
{
    match find_id(ids, id) {
        Some(i) => {
            assert(id_views(ids@)[i as int] == id@);
            assert(id_views(ids@).contains(id@));
            assert(id_views(ids@).to_set() =~= id_views(old(ids)@).to_set().insert(id@)) by {
                assert(id_views(ids@).contains(id@));
            }
        },
        None => {
            let ghost before = id_views(ids@);
            assert(!before.contains(id@)) by {
                if before.contains(id@) {
                    let k = choose|k: int| 0 <= k < before.len() && before[k] == id@;
                    assert(ids@[k]@ == id@);
                }
            }
            ids.push(id.clone());
            assert(id_views(ids@) =~= before.push(id@));
            assert(id_views(ids@).to_set() =~= before.to_set().insert(id@)) by {
                assert forall|x: Seq<char>| id_views(ids@).contains(x) <==> before.to_set().insert(id@).contains(x) by {
                    if id_views(ids@).contains(x) && x != id@ {
                        let k = choose|k: int| 0 <= k < id_views(ids@).len() && id_views(ids@)[k] == x;
                        assert(before[k] == x);
                    }
                    if before.contains(x) {
                        let k = choose|k: int| 0 <= k < before.len() && before[k] == x;
                        assert(id_views(ids@)[k] == x);
                    }
                    if x == id@ {
                        assert(id_views(ids@)[before.len() as int] == x);
                    }
                }
            }
        },
    }
}

/// The distinct blank node labels of `triples`, in order of first
/// appearance.
fn collect_blanks(triples: &[RdfTriple]) -> (r: Vec<String>)
    ensures
        id_views(r@).no_duplicates(),
        id_views(r@).to_set() == blank_ids_of(crate::graph::triple_views(triples@)),
        id_views(r@) == blank_order(crate::graph::triple_views(triples@)),
{
    let ghost ts = crate::graph::triple_views(triples@);
    let mut blanks: Vec<String> = Vec::new();
    assert(id_views(blanks@).to_set() =~= blank_ids_of(ts.take(0)));
    assert(id_views(blanks@) =~= blank_order(ts.take(0)));
    for i in 0..triples.len()
        invariant
            ts == crate::graph::triple_views(triples@),
            id_views(blanks@).no_duplicates(),
            id_views(blanks@).to_set() == blank_ids_of(ts.take(i as int)),
            id_views(blanks@) == blank_order(ts.take(i as int)),
    {
        let t = &triples[i];
        assert(ts.take(i + 1).drop_last() =~= ts.take(i as int));
        assert(ts.take(i + 1).last() == t@);
        let ghost o0 = id_views(blanks@);
        let ghost before = id_views(blanks@).to_set();
        if let SubjectNode::Blank(b) = &t.subject {
            add_id(&mut blanks, &b.id);
        }
        let ghost o1 = id_views(blanks@);
        assert(o1 == add_blank(o0, t@.subject));
        if let RdfTerm::Blank(b) = &t.object {
            add_id(&mut blanks, &b.id);
        }
        assert(id_views(blanks@) == add_blank(o1, t@.object));
        proof {
            let pre = ts.take(i as int);
            let post = ts.take(i + 1);
            assert(post[i as int] == t@);
            assert forall|x: Seq<char>| id_views(blanks@).to_set().contains(x) <==> blank_ids_of(post).contains(x) by {
                if blank_ids_of(pre).contains(x) {
                    let k = choose|k: int| 0 <= k < pre.len()
                        && (pre[k].subject == STerm::Blank(x) || pre[k].object == STerm::Blank(x));
                    assert(post[k] == pre[k]);
                }
                if blank_ids_of(post).contains(x) {
                    let k = choose|k: int| 0 <= k < post.len()
                        && (post[k].subject == STerm::Blank(x) || post[k].object == STerm::Blank(x));
                    if k < i {
                        assert(pre[k] == post[k]);
                        assert(blank_ids_of(pre).contains(x));
                    }
                }
            }
            assert(id_views(blanks@).to_set() =~= blank_ids_of(post));
        }
    }
    assert(ts.take(triples@.len() as int) =~= ts);
    blanks
}

/// The distinct ground terms of `triples`, in order of first appearance.
fn collect_grounds(triples: &[RdfTriple]) -> (r: Vec<RdfTerm>)
    ensures
        crate::graph::term_views(r@) == ground_terms(crate::graph::triple_views(triples@)),
{
    let ghost ts = crate::graph::triple_views(triples@);
    let mut grounds: Vec<RdfTerm> = Vec::new();
    assert(crate::graph::term_views(grounds@) =~= ground_terms(ts.take(0)));
    for i in 0..triples.len()
        invariant
            ts == crate::graph::triple_views(triples@),
            crate::graph::term_views(grounds@) == ground_terms(ts.take(i as int)),
    {
        let t = &triples[i];
        assert(ts.take(i + 1).drop_last() =~= ts.take(i as int));
        assert(ts.take(i + 1).last() == t@);
        let s = t.subject.to_term();
        let ghost g0 = crate::graph::term_views(grounds@);
        let ghost sv = s@;
        if !matches!(s, RdfTerm::Blank(_)) {
            match find_term(&grounds, &s) {
                None => {
                    assert(!g0.contains(sv)) by {
                        if g0.contains(sv) {
                            let k = choose|k: int| 0 <= k < g0.len() && g0[k] == sv;
                            assert(grounds@[k]@ == sv);
                        }
                    }
                    grounds.push(s);
                    assert(crate::graph::term_views(grounds@) =~= g0.push(sv));
                },
                Some(k) => {
                    assert(g0[k as int] == sv);
                },
            }
        }
        assert(crate::graph::term_views(grounds@) == add_ground(g0, sv));
        let ghost g1 = crate::graph::term_views(grounds@);
        let ghost ov = t.object@;
        if !matches!(t.object, RdfTerm::Blank(_)) {
            match find_term(&grounds, &t.object) {
                None => {
                    assert(!g1.contains(ov)) by {
                        if g1.contains(ov) {
                            let k = choose|k: int| 0 <= k < g1.len() && g1[k] == ov;
                            assert(grounds@[k]@ == ov);
                        }
                    }
                    grounds.push(t.object.clone());
                    assert(crate::graph::term_views(grounds@) =~= g1.push(ov));
                },
                Some(k) => {
                    assert(g1[k as int] == ov);
                },
            }
        }
        assert(crate::graph::term_views(grounds@) == add_ground(g1, ov));
    }
    assert(ts.take(triples@.len() as int) =~= ts);
    grounds
}

/// The key of a term: its ground key, or `_:c<i>` for a blank node at
/// position `i` of `order`.
fn term_key_exec(t: &RdfTerm, order: &Vec<String>) -> (r: String)
    requires
        id_views(order@).no_duplicates(),
        t@ is Blank ==> id_views(order@).contains(t@->Blank_0),
    ensures
        r@ == term_key(t@, id_views(order@)),
{
    match t {
        RdfTerm::Blank(b) => {
            proof {
                let k = choose|k: int| 0 <= k < id_views(order@).len() && id_views(order@)[k] == b@;
            }
            match find_id(order, &b.id) {
                Some(i) => {
                    proof {
                        lemma_position_of(id_views(order@), i as int);
                        assert(id_views(order@)[i as int] == b@);
                    }
                    let mut s = String::new();
                    push_char(&mut s, '_');
                    push_char(&mut s, ':');
                    push_char(&mut s, 'c');
                    push_decimal(&mut s, i);
                    assert(s@ =~= term_key(t@, id_views(order@)));
                    s
                },
                None => {
                    proof {
                        let k = choose|k: int| 0 <= k < id_views(order@).len() && id_views(order@)[k] == b@;
                        assert(order@[k]@ == b@);
                    }
                    String::new()
                },
            }
        },
        _ => ground_key(t),
    }
}

/// The colors after `k` rounds of refinement from `colors`.
pub open spec fn refine_rounds(
    ts: Seq<STriple>,
    ids: Seq<Seq<char>>,
    grounds: Seq<STerm>,
    colors: Seq<u64>,
    k: nat,
) -> Seq<u64>
    decreases k,
{
    if k == 0 {
        colors
    } else {
        spec_refine(ts, ids, refine_rounds(ts, ids, grounds, colors, (k - 1) as nat), grounds)
    }
}

/// The colors of the blank nodes of `ts` (in order of first appearance)
/// after one more round of refinement than there are blank nodes, starting
/// from all zero.
pub open spec fn final_colors(ts: Seq<STriple>) -> Seq<u64> {
    let ids = blank_order(ts);
    refine_rounds(ts, ids, ground_terms(ts), Seq::new(ids.len(), |i: int| 0u64), ids.len() + 1)
}

/// The blank nodes keyed for ranking: by (padded color, label).
pub open spec fn rank_entries(ids: Seq<Seq<char>>, colors: Seq<u64>) -> Seq<(Seq<Seq<char>>, Seq<char>)> {
    Seq::new(ids.len(), |i: int| (seq![padded_digits(colors[i] as nat), ids[i]], ids[i]))
}

/// The blank nodes of `ts` ranked by their final color, then by label.
pub open spec fn blank_rank(ts: Seq<STriple>) -> Seq<Seq<char>> {
    stable_sort(rank_entries(blank_order(ts), final_colors(ts))).map_values(
        |e: (Seq<Seq<char>>, Seq<char>)| e.1,
    )
}

/// The canonical form of `ts`: its blank nodes numbered in the order of
/// [`blank_rank`].
pub open spec fn spec_canonicalize(ts: Seq<STriple>) -> Set<SCanon> {
    ts.map_values(|t: STriple| canon_of(t, blank_rank(ts))).to_set()
}

/// Deterministically canonicalizes `triples` into ground `(s, p, o)` string
/// triples: blank nodes are replaced with labels `_:c<i>` numbered after
/// ranking them by (color after refinement, label), so that the result does
/// not depend on the blank node labels' spelling beyond that ranking.
pub fn canonicalize(triples: &[RdfTriple]) -> (r: CanonSet)
    ensures
        canonical(crate::graph::triple_views(triples@), r@),
        is_ground(crate::graph::triple_views(triples@)) ==> r@ == ground_canonical(crate::graph::triple_views(triples@)),
        r@ == spec_canonicalize(crate::graph::triple_views(triples@)),
{
    let ghost ts = crate::graph::triple_views(triples@);
    let blanks = collect_blanks(triples);
    let grounds = collect_grounds(triples);
    let ghost ids = id_views(blanks@);
    let ghost gv = crate::graph::term_views(grounds@);
    let nb = blanks.len();
    let mut colors: Vec<u64> = Vec::new();
    for i in 0..nb
        invariant
            colors@.len() == i,
            forall|j: int| 0 <= j < i ==> colors@[j] == 0u64,
    {
        colors.push(0);
    }
    let ghost zeros = colors@;
    assert(zeros =~= Seq::new(ids.len(), |i: int| 0u64));
    assert(refine_rounds(ts, ids, gv, zeros, 0) == zeros);
    colors = refine(triples, &blanks, &colors, &grounds);
    assert(colors@ == refine_rounds(ts, ids, gv, zeros, 1));
    let mut round: usize = 0;
    while round < nb
        invariant
            colors@.len() == blanks@.len(),
            round <= nb,
            nb == blanks@.len(),
            ts == crate::graph::triple_views(triples@),
            ids == id_views(blanks@),
            gv == crate::graph::term_views(grounds@),
            colors@ == refine_rounds(ts, ids, gv, zeros, (round + 1) as nat),
        decreases nb - round,
    {
        colors = refine(triples, &blanks, &colors, &grounds);
        round = round + 1;
    }
    assert(colors@ == final_colors(ts));
    let mut keyed: Vec<(Vec<String>, String)> = Vec::new();
    for i in 0..nb
        invariant
            nb == blanks@.len(),
            colors@.len() == nb,
            keyed@.len() == i,
            forall|j: int| 0 <= j < i ==> (#[trigger] keyed@[j]).1@ == blanks@[j]@,
            forall|j: int| 0 <= j < i ==> crate::order::key_view((#[trigger] keyed@[j]).0@)
                == seq![padded_digits(colors@[j] as nat), blanks@[j]@],
    {
        let key = vec![padded_decimal(colors[i]), blanks[i].clone()];
        assert(crate::order::key_view(key@) =~= seq![padded_digits(colors@[i as int] as nat), blanks@[i as int]@]);
        keyed.push((key, blanks[i].clone()));
    }
    let ghost kv = keyed_views(keyed@);
    let ghost f = |s: String| s@;
    proof {
        assert(payload_ids(kv) =~= id_views(blanks@));
        assert(crate::order::payload_map(kv, f) =~= rank_entries(ids, colors@));
        crate::order::lemma_stable_sort_payload(kv, f);
        assert(stable_sort(kv).map_values(|e: (Seq<Seq<char>>, String)| e.1@) =~=
            stable_sort(rank_entries(ids, colors@)).map_values(|e: (Seq<Seq<char>>, Seq<char>)| e.1));
    }
    let sorted = sort_keyed(keyed);
    proof {
        lemma_stable_sort_permutation(kv);
        lemma_permuted_ids(kv, stable_sort(kv));
    }
    let mut order: Vec<String> = Vec::new();
    for i in 0..sorted.len()
        invariant
            keyed_views(sorted@) == stable_sort(kv),
            id_views(order@) == payload_ids(keyed_views(sorted@)).take(i as int),
    {
        let ghost before = id_views(order@);
        let c = sorted[i].1.clone();
        order.push(c);
        assert(keyed_views(sorted@)[i as int].1 == sorted@[i as int].1);
        assert(payload_ids(keyed_views(sorted@))[i as int] == c@);
        assert(id_views(order@) =~= before.push(c@));
        assert(id_views(order@) =~= payload_ids(keyed_views(sorted@)).take(i + 1));
    }
    let ghost ov = id_views(order@);
    proof {
        assert(ov =~= payload_ids(stable_sort(kv)));
    }
    let mut r = CanonSet::new();
    for i in 0..triples.len()
        invariant
            ts == crate::graph::triple_views(triples@),
            ov == id_views(order@),
            ov.no_duplicates(),
            ov.to_set() == blank_ids_of(ts),
            r@ == ts.take(i as int).map_values(|t: STriple| canon_of(t, ov)).to_set(),
    {
        let t = &triples[i];
        assert(ts[i as int] == t@);
        proof {
            if t.subject@ is Blank {
                assert(blank_ids_of(ts).contains(t.subject@->Blank_0));
            }
            if t.object@ is Blank {
                assert(blank_ids_of(ts).contains(t.object@->Blank_0));
            }
        }
        let s = term_key_exec(&t.subject.to_term(), &order);
        let p = named_node_key(t.predicate.iri.as_str());
        let o = term_key_exec(&t.object, &order);
        let ghost c = canon_of(t@, ov);
        r.insert((s, p, o));
        proof {
            let pre = ts.take(i as int).map_values(|t: STriple| canon_of(t, ov));
            let post = ts.take(i + 1).map_values(|t: STriple| canon_of(t, ov));
            assert(post =~= pre.push(c));
            assert forall|x: SCanon| post.to_set().contains(x) <==> pre.to_set().insert(c).contains(x) by {
                if post.contains(x) && x != c {
                    let k = choose|k: int| 0 <= k < post.len() && post[k] == x;
                    assert(pre[k] == x);
                }
                if pre.contains(x) {
                    let k = choose|k: int| 0 <= k < pre.len() && pre[k] == x;
                    assert(post[k] == x);
                }
                if x == c {
                    assert(post[i as int] == x);
                }
            }
            assert(r@ =~= post.to_set());
        }
    }
    proof {
        assert(ts.take(triples@.len() as int) =~= ts);
        assert(canonical_for(ts, r@, ov));
        assert(ov =~= blank_rank(ts));
        if is_ground(ts) {
            lemma_canonical_ground(ts, r@);
        }
    }
    r
}

/// Whether two graphs are isomorphic up to blank node relabeling, as far as
/// their canonical forms tell.
pub fn is_isomorphic(a: &[RdfTriple], b: &[RdfTriple]) -> (r: bool)
    ensures
        r ==> a@.len() == b@.len(),
        a@.len() != b@.len() ==> !r,
        a@.len() == b@.len() ==> exists|ca: Set<SCanon>, cb: Set<SCanon>|
            canonical(crate::graph::triple_views(a@), ca) && canonical(crate::graph::triple_views(b@), cb)
            && r == (ca == cb),
        is_ground(crate::graph::triple_views(a@)) && is_ground(crate::graph::triple_views(b@)) && a@.len() == b@.len()
            ==> r == (ground_canonical(crate::graph::triple_views(a@)) == ground_canonical(crate::graph::triple_views(b@))),
        r == (a@.len() == b@.len() && spec_canonicalize(crate::graph::triple_views(a@))
            == spec_canonicalize(crate::graph::triple_views(b@))),
{
    if a.len() != b.len() {
        return false;
    }
    let ca = canonicalize(a);
    let cb = canonicalize(b);
    proof {
        if is_ground(crate::graph::triple_views(a@)) && is_ground(crate::graph::triple_views(b@)) {
            lemma_canonical_ground(crate::graph::triple_views(a@), ca@);
            lemma_canonical_ground(crate::graph::triple_views(b@), cb@);
        }
    }
    ca.same_as(&cb)
}

/// Number of triples two graphs have in common after canonicalization.
pub fn common_triple_count(a: &[RdfTriple], b: &[RdfTriple]) -> (r: usize)
    ensures
        exists|ca: Set<SCanon>, cb: Set<SCanon>|
            canonical(crate::graph::triple_views(a@), ca) && canonical(crate::graph::triple_views(b@), cb)
            && r == ca.intersect(cb).len(),
        is_ground(crate::graph::triple_views(a@)) && is_ground(crate::graph::triple_views(b@))
            ==> r == ground_canonical(crate::graph::triple_views(a@)).intersect(
                ground_canonical(crate::graph::triple_views(b@))).len(),
        r == spec_canonicalize(crate::graph::triple_views(a@)).intersect(
            spec_canonicalize(crate::graph::triple_views(b@))).len(),
{
    let ca = canonicalize(a);
    let cb = canonicalize(b);
    proof {
        if is_ground(crate::graph::triple_views(a@)) && is_ground(crate::graph::triple_views(b@)) {
            lemma_canonical_ground(crate::graph::triple_views(a@), ca@);
            lemma_canonical_ground(crate::graph::triple_views(b@), cb@);
        }
    }
    ca.intersection_count(&cb)
}

} // verus!
