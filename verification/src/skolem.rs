//! Skolemization: replacing blank nodes and literals by named nodes, so
//! that every node has a stable identity while the graph is relabeled.

use vstd::prelude::*;
use crate::error::BschemaError;
use crate::graph::RdfGraph;
use crate::model::{Iri, LiteralValue, RdfTerm, RdfTriple, STerm, STriple, SubjectNode};
use crate::namespace::{BNODE_BASE, LITERAL_SKOLEM_BASE, RDF_TYPE_IRI};
use crate::rdfio::{literal_hash, ox_literal};
use crate::util::push_char;

verus! {

/// Lowercase hexadecimal digit of `d < 16`.
pub open spec fn hex_lower(d: int) -> char {
    if d < 10 { (d + 48) as char } else { (d + 87) as char }
}

/// The last `k` hexadecimal digits of `h`, most significant first.
pub open spec fn hex_digits(h: nat, k: nat) -> Seq<char>
    decreases k,
{
    if k == 0 {
        Seq::empty()
    } else {
        hex_digits(h / 16, (k - 1) as nat).push(hex_lower((h % 16) as int))
    }
}

/// `h` as 16 lowercase hexadecimal digits (`{:016x}`).
pub open spec fn hex16(h: u64) -> Seq<char> {
    hex_digits(h as nat, 16)
}

/// `16` to the power `k`.
pub open spec fn pow16(k: nat) -> nat
    decreases k,
{
    if k == 0 { 1 } else { 16 * pow16((k - 1) as nat) }
}

/// Distinct hexadecimal digit values are written as distinct characters.
proof fn lemma_hex_lower_injective(a: int, b: int)
    requires
        0 <= a < 16,
        0 <= b < 16,
        hex_lower(a) == hex_lower(b),
    ensures
        a == b,
{
    let ca = if a < 10 { a + 48 } else { a + 87 };
    let cb = if b < 10 { b + 48 } else { b + 87 };
    assert(hex_lower(a) as int == ca);
    assert(hex_lower(b) as int == cb);
}

/// Numbers below `16^k` with the same `k` hexadecimal digits are equal.
proof fn lemma_hex_digits_injective(a: nat, b: nat, k: nat)
    requires
        a < pow16(k),
        b < pow16(k),
        hex_digits(a, k) == hex_digits(b, k),
    ensures
        a == b,
    decreases k,
{
    if k > 0 {
        let ka = (k - 1) as nat;
        let pa = hex_digits(a / 16, ka);
        let pb = hex_digits(b / 16, ka);
        assert(hex_digits(a, k) == pa.push(hex_lower((a % 16) as int)));
        assert(hex_digits(b, k) == pb.push(hex_lower((b % 16) as int)));
        assert(hex_digits(a, k).last() == hex_lower((a % 16) as int));
        lemma_hex_lower_injective((a % 16) as int, (b % 16) as int);
        assert(pa =~= hex_digits(a, k).drop_last());
        assert(pb =~= hex_digits(b, k).drop_last());
        let q = pow16(ka);
        assert(a / 16 < q) by (nonlinear_arith)
            requires a < 16 * q;
        assert(b / 16 < q) by (nonlinear_arith)
            requires b < 16 * q;
        lemma_hex_digits_injective(a / 16, b / 16, ka);
        assert(a == 16 * (a / 16) + a % 16);
        assert(b == 16 * (b / 16) + b % 16);
    }
}

/// Distinct hashes give distinct literal skolem IRIs.
pub proof fn lemma_skolem_literal_iri_injective(a: u64, b: u64)
    requires
        skolem_literal_iri(a) == skolem_literal_iri(b),
    ensures
        a == b,
{
    reveal_with_fuel(pow16, 17);
    assert(pow16(16) == 0x1_0000_0000_0000_0000nat);
    let n = LITERAL_SKOLEM_BASE@.len() as int;
    assert(hex16(a) =~= skolem_literal_iri(a).skip(n));
    assert(hex16(b) =~= skolem_literal_iri(b).skip(n));
    lemma_hex_digits_injective(a as nat, b as nat, 16);
}

/// The skolem IRI of a blank node.
pub open spec fn skolem_blank_iri(id: Seq<char>) -> Seq<char> {
    BNODE_BASE@ + id
}

/// The skolem IRI of a literal whose hash is `h`.
pub open spec fn skolem_literal_iri(h: u64) -> Seq<char> {
    LITERAL_SKOLEM_BASE@ + hex16(h)
}

/// The term that stands for `t` after skolemization, given the hash `h` of
/// each literal.
pub open spec fn skolem_term(t: STerm, h: spec_fn(STerm) -> u64) -> STerm {
    match t {
        STerm::Named(iri) => STerm::Named(iri),
        STerm::Blank(id) => STerm::Named(skolem_blank_iri(id)),
        STerm::Lit(_, _, _) => STerm::Named(skolem_literal_iri(h(t))),
    }
}

/// The triple that stands for `t` after skolemization.
pub open spec fn skolem_triple(t: STriple, h: spec_fn(STerm) -> u64) -> STriple {
    STriple {
        subject: skolem_term(t.subject, h),
        predicate: t.predicate,
        object: skolem_term(t.object, h),
    }
}

/// The datatype IRI of a literal.
pub open spec fn literal_datatype(t: STerm) -> Seq<char> {
    match t {
        STerm::Lit(_, d, _) => d,
        _ => Seq::empty(),
    }
}

/// The `rdf:type` triple that skolemization adds for a literal's node.
pub open spec fn literal_type_triple(node: Seq<char>, lit: STerm) -> STriple {
    STriple {
        subject: STerm::Named(node),
        predicate: RDF_TYPE_IRI@,
        object: STerm::Named(literal_datatype(lit)),
    }
}

/// The value stored for key `k` in a list of entries, if any.
pub open spec fn lookup(entries: Seq<(Seq<char>, STerm)>, k: Seq<char>) -> Option<STerm>
    decreases entries.len(),
{
    if entries.len() == 0 {
        None
    } else if entries.last().0 == k {
        Some(entries.last().1)
    } else {
        lookup(entries.drop_last(), k)
    }
}

/// Keys of the entries are pairwise distinct.
pub open spec fn distinct_keys(entries: Seq<(Seq<char>, STerm)>) -> bool {
    forall|i: int, j: int| 0 <= i < j < entries.len() ==> entries[i].0 != entries[j].0
}

/// With distinct keys, looking up `k` finds nothing exactly when no entry
/// has key `k`, and otherwise the value of the entry with key `k`.
pub proof fn lemma_lookup(entries: Seq<(Seq<char>, STerm)>, k: Seq<char>)
    requires
        distinct_keys(entries),
    ensures
        lookup(entries, k) is None <==> forall|i: int| 0 <= i < entries.len() ==> entries[i].0 != k,
        forall|i: int| 0 <= i < entries.len() && entries[i].0 == k ==> lookup(entries, k) == Some(entries[i].1),
    decreases entries.len(),
{
    if entries.len() > 0 {
        lemma_lookup(entries.drop_last(), k);
        assert forall|i: int| 0 <= i < entries.len() && entries[i].0 == k implies lookup(entries, k) == Some(entries[i].1) by {
            if i < entries.len() - 1 {
                assert(entries.drop_last()[i] == entries[i]);
            }
        }
        if lookup(entries, k) is None {
            assert forall|i: int| 0 <= i < entries.len() implies entries[i].0 != k by {
                if i < entries.len() - 1 {
                    assert(entries.drop_last()[i] == entries[i]);
                }
            }
        }
    }
}

/// A map from skolem IRIs back to the literals they stand for, in insertion
/// order.
pub struct SkolemMap {
    entries: Vec<(Iri, RdfTerm)>,
}

impl View for SkolemMap {
    type V = Seq<(Seq<char>, STerm)>;

    closed spec fn view(&self) -> Seq<(Seq<char>, STerm)> {
        self.entries@.map_values(|e: (Iri, RdfTerm)| (e.0@, e.1@))
    }
}

impl SkolemMap {
    #[verifier::type_invariant]
    closed spec fn keys_distinct(self) -> bool {
        distinct_keys(self@)
    }

    /// An empty map.
    pub fn new() -> (m: SkolemMap)
        ensures
            m@ == Seq::<(Seq<char>, STerm)>::empty(),
    {
        let m = SkolemMap { entries: Vec::new() };
        assert(m@ =~= Seq::<(Seq<char>, STerm)>::empty());
        m
    }

    /// Keys are pairwise distinct.
    pub fn assert_distinct_keys(&self)
        ensures
            distinct_keys(self@),
    {
        proof {
            use_type_invariant(self);
        }
    }

    /// Number of entries.
    pub fn len(&self) -> (r: usize)
        ensures
            r == self@.len(),
    {
        self.entries.len()
    }

    /// Position of key `k`.
    fn position(&self, k: &Iri) -> (r: Option<usize>)
        ensures
            match r {
                Some(i) => i < self@.len() && self@[i as int].0 == k@,
                None => forall|i: int| 0 <= i < self@.len() ==> self@[i].0 != k@,
            },
    {
        let mut i: usize = 0;
        while i < self.entries.len()
            invariant
                i <= self.entries@.len(),
                forall|j: int| 0 <= j < i ==> self@[j].0 != k@,
            decreases self.entries@.len() - i,
        {
            if self.entries[i].0.equals(k) {
                return Some(i);
            }
            i = i + 1;
        }
        None
    }

    /// The value of key `k`.
    pub fn get(&self, k: &Iri) -> (r: Option<&RdfTerm>)
        ensures
            match r {
                Some(v) => lookup(self@, k@) == Some(v@),
                None => lookup(self@, k@) is None,
            },
    {
        proof {
            use_type_invariant(self);
            lemma_lookup(self@, k@);
        }
        match self.position(k) {
            Some(i) => Some(&self.entries[i].1),
            None => None,
        }
    }

    /// The `i`-th entry.
    pub fn entry(&self, i: usize) -> (r: (&Iri, &RdfTerm))
        requires
            i < self@.len(),
        ensures
            (r.0@, r.1@) == self@[i as int],
    {
        (&self.entries[i].0, &self.entries[i].1)
    }

    /// Sets key `k` to `v`, replacing a value it had, else adding an entry
    /// at the end.
    pub fn insert(&mut self, k: Iri, v: RdfTerm)
        ensures
            old(self)@.len() <= final(self)@.len(),
            forall|i: int| 0 <= i < final(self)@.len() ==> (final(self)@[i].0 == k@ && final(self)@[i].1 == v@)
                || (i < old(self)@.len() && final(self)@[i] == old(self)@[i]),
            exists|i: int| 0 <= i < final(self)@.len() && final(self)@[i] == (k@, v@),
            forall|i: int| 0 <= i < old(self)@.len() && old(self)@[i].0 != k@ ==> final(self)@[i] == old(self)@[i],
    {
        proof {
            use_type_invariant(&*self);
        }
        let ghost kv = k@;
        let ghost vv = v@;
        let found = self.position(&k);
        let mut es: Vec<(Iri, RdfTerm)> = Vec::new();
        std::mem::swap(&mut es, &mut self.entries);
        let ghost before = es@.map_values(|e: (Iri, RdfTerm)| (e.0@, e.1@));
        assert(before == old(self)@);
        match found {
            Some(j) => {
                es.set(j, (k, v));
                proof {
                    let after = es@.map_values(|e: (Iri, RdfTerm)| (e.0@, e.1@));
                    assert(after =~= before.update(j as int, (kv, vv)));
                    assert(after[j as int] == (kv, vv));
                    assert(distinct_keys(after)) by {
                        assert forall|a: int, b: int| 0 <= a < b < after.len() implies after[a].0 != after[b].0 by {
                            if a != j && b != j {
                                assert(after[a] == before[a] && after[b] == before[b]);
                            } else if a == j {
                                assert(after[b] == before[b]);
                                assert(before[j as int].0 == kv);
                            } else {
                                assert(after[a] == before[a]);
                                assert(before[j as int].0 == kv);
                            }
                        }
                    }
                }
            },
            None => {
                es.push((k, v));
                proof {
                    let after = es@.map_values(|e: (Iri, RdfTerm)| (e.0@, e.1@));
                    assert(after =~= before.push((kv, vv)));
                    assert(after[before.len() as int] == (kv, vv));
                }
            },
        }
        self.entries = es;
    }
}

fn hex_lower_char(d: u64) -> (c: char)
    requires
        d < 16,
    ensures
        c == hex_lower(d as int),
{
    let v: u8 = if d < 10 { (d + 48) as u8 } else { (d + 87) as u8 };
    v as char
}

/// Appends the last `k` hexadecimal digits of `h` to `s`.
fn push_hex_digits(s: &mut String, h: u64, k: usize)
    ensures
        final(s)@ == old(s)@ + hex_digits(h as nat, k as nat),
    decreases k,
{
    if k > 0 {
        push_hex_digits(s, h / 16, k - 1);
        push_char(s, hex_lower_char(h % 16));
        assert(final(s)@ =~= old(s)@ + hex_digits(h as nat, k as nat));
    } else {
        assert(final(s)@ =~= old(s)@ + hex_digits(h as nat, k as nat));
    }
}

/// The skolem node of a blank node.
pub fn skolem_blank_node(id: &str) -> (r: Iri)
    ensures
        r@ == skolem_blank_iri(id@),
{
    let mut s = BNODE_BASE.to_owned();
    s.append(id);
    Iri { iri: s }
}

/// The skolem node of a literal whose hash is `h`.
pub fn skolem_literal_node(h: u64) -> (r: Iri)
    ensures
        r@ == skolem_literal_iri(h),
{
    let mut s = LITERAL_SKOLEM_BASE.to_owned();
    push_hex_digits(&mut s, h, 16);
    Iri { iri: s }
}

/// The hash function described by the hashes computed so far.
pub open spec fn hash_of(hm: Map<STerm, u64>) -> spec_fn(STerm) -> u64 {
    |t: STerm| if hm.contains_key(t) { hm[t] } else { 0u64 }
}

/// `out` and `rev` are what skolemizing `src` gives when literal `l` hashes
/// to `h(l)`: `out` holds exactly the skolemized triples of `src` and an
/// `rdf:type` triple giving the datatype of each literal's node; `rev` maps
/// each literal node to a literal of `src` it stands for, has a key for
/// every literal object of `src`, and no key twice.
pub open spec fn skolemized(
    src: Seq<STriple>,
    out: Seq<STriple>,
    rev: Seq<(Seq<char>, STerm)>,
    h: spec_fn(STerm) -> u64,
) -> bool {
    &&& forall|i: int| 0 <= i < src.len() ==> out.contains(#[trigger] skolem_triple(src[i], h))
    &&& forall|j: int| 0 <= j < rev.len() ==> out.contains(#[trigger] literal_type_triple(rev[j].0, rev[j].1))
    &&& forall|u: STriple| #[trigger] out.contains(u) ==> (exists|i: int| 0 <= i < src.len() && u == skolem_triple(src[i], h))
        || (exists|j: int| 0 <= j < rev.len() && u == literal_type_triple(rev[j].0, rev[j].1))
    &&& forall|j: int| 0 <= j < rev.len() ==> (#[trigger] rev[j]).1 is Lit && rev[j].0 == skolem_literal_iri(h(rev[j].1))
        && exists|i: int| 0 <= i < src.len() && src[i].object == rev[j].1
    &&& forall|i: int| 0 <= i < src.len() && (#[trigger] src[i]).object is Lit
        ==> lookup(rev, skolem_literal_iri(h(src[i].object))) is Some
    &&& distinct_keys(rev)
}

/// Distinct literal objects of `src` get distinct nodes under the hashing
/// `h`.
pub open spec fn literal_nodes_apart(src: Seq<STriple>, h: spec_fn(STerm) -> u64) -> bool {
    forall|i1: int, i2: int| 0 <= i1 < src.len() && 0 <= i2 < src.len() && (#[trigger] src[i1]).object is Lit
        && (#[trigger] src[i2]).object is Lit
        && skolem_literal_iri(h(src[i1].object)) == skolem_literal_iri(h(src[i2].object))
        ==> src[i1].object == src[i2].object
}

/// The way back from a literal's node: when distinct literal objects of
/// `src` get distinct nodes under the hashing `h`, the literal map of a
/// skolemization gives back, for the node of each literal object, that
/// literal.
pub proof fn lemma_skolem_round_trip(
    src: Seq<STriple>,
    out: Seq<STriple>,
    rev: Seq<(Seq<char>, STerm)>,
    h: spec_fn(STerm) -> u64,
    i: int,
)
    requires
        skolemized(src, out, rev, h),
        0 <= i < src.len(),
        src[i].object is Lit,
        literal_nodes_apart(src, h),
    ensures
        lookup(rev, skolem_literal_iri(h(src[i].object))) == Some(src[i].object),
{
    let key = skolem_literal_iri(h(src[i].object));
    lemma_lookup(rev, key);
    assert(lookup(rev, key) is Some);
    let j = choose|j: int| 0 <= j < rev.len() && rev[j].0 == key;
    assert(rev[j].1 is Lit && rev[j].0 == skolem_literal_iri(h(rev[j].1)));
    let i2 = choose|i2: int| 0 <= i2 < src.len() && src[i2].object == rev[j].1;
    assert(src[i2].object is Lit);
}

/// Skolemization keeps every literal apart: each literal object of `src`
/// has a node of its own, typed in `out`, that the literal map gives back
/// as that literal; distinct literals have distinct nodes.
pub proof fn lemma_skolem_keeps_literals(src: Seq<STriple>, out: Seq<STriple>, rev: Seq<(Seq<char>, STerm)>)
    requires
        skolemizes(src, out, rev),
    ensures
        forall|i: int| 0 <= i < src.len() && (#[trigger] src[i]).object is Lit ==> exists|j: int|
            0 <= j < rev.len() && (#[trigger] rev[j]).1 == src[i].object
            && out.contains(literal_type_triple(rev[j].0, rev[j].1))
            && lookup(rev, rev[j].0) == Some(src[i].object),
        forall|j1: int, j2: int| 0 <= j1 < rev.len() && 0 <= j2 < rev.len()
            && (#[trigger] rev[j1]).1 != (#[trigger] rev[j2]).1 ==> rev[j1].0 != rev[j2].0,
{
    let h = choose|h: spec_fn(STerm) -> u64| #[trigger] skolemized(src, out, rev, h) && literal_nodes_apart(src, h);
    assert forall|i: int| 0 <= i < src.len() && (#[trigger] src[i]).object is Lit implies exists|j: int|
        0 <= j < rev.len() && (#[trigger] rev[j]).1 == src[i].object
        && out.contains(literal_type_triple(rev[j].0, rev[j].1))
        && lookup(rev, rev[j].0) == Some(src[i].object) by {
        lemma_skolem_round_trip(src, out, rev, h, i);
        let key = skolem_literal_iri(h(src[i].object));
        lemma_lookup(rev, key);
        let j = choose|j: int| 0 <= j < rev.len() && rev[j].0 == key;
        assert(lookup(rev, key) == Some(rev[j].1));
    }
    assert forall|j1: int, j2: int| 0 <= j1 < rev.len() && 0 <= j2 < rev.len()
        && (#[trigger] rev[j1]).1 != (#[trigger] rev[j2]).1 implies rev[j1].0 != rev[j2].0 by {
        if rev[j1].0 == rev[j2].0 {
            let i1 = choose|i: int| 0 <= i < src.len() && src[i].object == rev[j1].1;
            let i2 = choose|i: int| 0 <= i < src.len() && src[i].object == rev[j2].1;
            assert(src[i1].object is Lit && src[i2].object is Lit);
        }
    }
}

/// `small` agrees with `big` on every key of `small`.
pub open spec fn extends(big: Map<STerm, u64>, small: Map<STerm, u64>) -> bool {
    forall|k: STerm| #[trigger] small.contains_key(k) ==> big.contains_key(k) && big[k] == small[k]
}

proof fn lemma_skolem_stable(t: STriple, small: Map<STerm, u64>, big: Map<STerm, u64>)
    requires
        extends(big, small),
        !(t.subject is Lit),
        t.object is Lit ==> small.contains_key(t.object),
    ensures
        skolem_triple(t, hash_of(small)) == skolem_triple(t, hash_of(big)),
{
}

/// `h + j`, wrapping round past `u64::MAX`, for `0 <= j < 2^64`.
pub open spec fn wrap_from(h: u64, j: int) -> u64 {
    if h + j < 0x1_0000_0000_0000_0000int {
        (h + j) as u64
    } else {
        (h + j - 0x1_0000_0000_0000_0000int) as u64
    }
}

/// The literal nodes made so far: each literal seen, its node and the hash
/// it was named after, the map back from nodes to literals, and (ghost) the
/// hash of each literal.
struct LiteralSkolems {
    nodes: Vec<(LiteralValue, Iri, u64)>,
    rev: SkolemMap,
    hm: Ghost<Map<STerm, u64>>,
}

impl LiteralSkolems {
    spec fn inv(&self) -> bool {
        let hm = self.hm@;
        &&& forall|l: STerm| #[trigger] hm.contains_key(l) ==> l is Lit
        &&& forall|l: STerm| #[trigger] hm.contains_key(l) ==> exists|m: int| 0 <= m < self.nodes@.len()
                && self.nodes@[m].0@ == l
        &&& forall|m: int| 0 <= m < self.nodes@.len() ==> hm.contains_key((#[trigger] self.nodes@[m]).0@)
                && self.nodes@[m].1@ == skolem_literal_iri(hm[self.nodes@[m].0@])
                && self.nodes@[m].2 == hm[self.nodes@[m].0@]
        &&& forall|l1: STerm, l2: STerm| #![trigger hm[l1], hm[l2]]
                hm.contains_key(l1) && hm.contains_key(l2) && hm[l1] == hm[l2] ==> l1 == l2
        &&& forall|m: int| 0 <= m < self.rev@.len() ==> (#[trigger] self.rev@[m]).1 is Lit
                && hm.contains_key(self.rev@[m].1) && self.rev@[m].0 == skolem_literal_iri(hm[self.rev@[m].1])
        &&& forall|l: STerm| #[trigger] hm.contains_key(l) ==> lookup(self.rev@, skolem_literal_iri(hm[l])) is Some
        &&& distinct_keys(self.rev@)
    }

    fn new() -> (r: LiteralSkolems)
        ensures
            r.inv(),
            r.hm@ == Map::<STerm, u64>::empty(),
    {
        LiteralSkolems { nodes: Vec::new(), rev: SkolemMap::new(), hm: Ghost(Map::empty()) }
    }

    /// Whether some literal seen so far has the hash `h`.
    fn hash_taken(&self, h: u64) -> (r: bool)
        ensures
            r == exists|m: int| 0 <= m < self.nodes@.len() && (#[trigger] self.nodes@[m]).2 == h,
    {
        let mut m: usize = 0;
        while m < self.nodes.len()
            invariant
                m <= self.nodes@.len(),
                forall|q: int| 0 <= q < m ==> (#[trigger] self.nodes@[q]).2 != h,
            decreases self.nodes@.len() - m,
        {
            if self.nodes[m].2 == h {
                return true;
            }
            m = m + 1;
        }
        false
    }

    /// A hash no literal seen so far has: `h` itself when it is free, else
    /// the first free value after it, wrapping round. There is one among
    /// the next as many values as literals seen.
    fn fresh_hash(&self, h: u64) -> (r: u64)
        ensures
            forall|m: int| 0 <= m < self.nodes@.len() ==> (#[trigger] self.nodes@[m]).2 != r,
            (forall|m: int| 0 <= m < self.nodes@.len() ==> (#[trigger] self.nodes@[m]).2 != h) ==> r == h,
    {
        let n = self.nodes.len();
        let ghost hs = self.nodes@.map_values(|e: (LiteralValue, Iri, u64)| e.2);
        let ghost used = hs.to_set();
        proof {
            hs.lemma_cardinality_of_set();
        }
        let mut c = h;
        let mut attempt: usize = 0;
        let ghost mut tried: Set<u64> = Set::empty();
        while self.hash_taken(c)
            invariant
                n == self.nodes@.len(),
                hs == self.nodes@.map_values(|e: (LiteralValue, Iri, u64)| e.2),
                used == hs.to_set(),
                used.len() <= n,
                tried.finite(),
                tried.len() == attempt,
                tried.subset_of(used),
                forall|x: u64| #[trigger] tried.contains(x) <==> exists|j: int| 0 <= j < attempt && x == wrap_from(h, j),
                c == wrap_from(h, attempt as int),
                attempt <= n,
                attempt > 0 ==> exists|m: int| 0 <= m < self.nodes@.len() && (#[trigger] self.nodes@[m]).2 == h,
            decreases n - attempt,
        {
            proof {
                let m = choose|m: int| 0 <= m < self.nodes@.len() && (#[trigger] self.nodes@[m]).2 == c;
                assert(hs[m] == c);
                assert(used.contains(c));
                if tried.contains(c) {
                    let j = choose|j: int| 0 <= j < attempt && c == wrap_from(h, j);
                    assert(false);
                }
                let t2 = tried.insert(c);
                vstd::set_lib::lemma_len_subset(t2, used);
                assert forall|x: u64| #[trigger] t2.contains(x) <==> exists|j: int| 0 <= j < attempt + 1 && x == wrap_from(h, j) by {
                    if x == c {
                        assert(0 <= attempt < attempt + 1 && x == wrap_from(h, attempt as int));
                    }
                    if exists|j: int| 0 <= j < attempt + 1 && x == wrap_from(h, j) {
                        let j = choose|j: int| 0 <= j < attempt + 1 && x == wrap_from(h, j);
                        if j < attempt {
                            assert(tried.contains(x));
                        }
                    }
                }
                tried = t2;
            }
            c = if c == u64::MAX { 0 } else { c + 1 };
            attempt = attempt + 1;
        }
        proof {
            assert forall|m: int| 0 <= m < self.nodes@.len() implies (#[trigger] self.nodes@[m]).2 != c by {}
        }
        c
    }

    /// The node of literal `l`, made from its hash the first time `l` is seen
    /// (moved on to a free hash if another literal already has it).
    fn node_for(&mut self, l: &LiteralValue) -> (r: Iri)
        requires
            old(self).inv(),
        ensures
            final(self).inv(),
            extends(final(self).hm@, old(self).hm@),
            final(self).hm@.contains_key(l@),
            forall|k: STerm| #[trigger] final(self).hm@.contains_key(k) ==> old(self).hm@.contains_key(k) || k == l@,
            r@ == skolem_literal_iri(final(self).hm@[l@]),
    {
        let mut m: usize = 0;
        while m < self.nodes.len()
            invariant
                m <= self.nodes@.len(),
                self.inv(),
                self.hm@ == old(self).hm@,
                forall|q: int| 0 <= q < m ==> self.nodes@[q].0@ != l@,
            decreases self.nodes@.len() - m,
        {
            if self.nodes[m].0.equals(l) {
                return self.nodes[m].1.clone();
            }
            m = m + 1;
        }
        let ghost old_hm = self.hm@;
        assert(!old_hm.contains_key(l@));
        let hv = self.fresh_hash(literal_hash(&ox_literal(l)));
        proof {
            assert forall|x: STerm| #[trigger] old_hm.contains_key(x) implies old_hm[x] != hv by {
                let m3 = choose|m3: int| 0 <= m3 < self.nodes@.len() && self.nodes@[m3].0@ == x;
                assert(self.nodes@[m3].2 == old_hm[x]);
            }
        }
        let node = skolem_literal_node(hv);
        self.hm = Ghost(old_hm.insert(l@, hv));
        let ghost old_nodes = self.nodes@;
        self.nodes.push((l.clone(), node.clone(), hv));
        let ghost old_rev = self.rev@;
        self.rev.insert(node.clone(), RdfTerm::Literal(l.clone()));
        self.rev.assert_distinct_keys();
        proof {
            let hm = self.hm@;
            lemma_lookup(self.rev@, node@);
            assert forall|x: STerm| #[trigger] hm.contains_key(x) implies lookup(self.rev@, skolem_literal_iri(hm[x])) is Some by {
                if x != l@ {
                    let key = skolem_literal_iri(old_hm[x]);
                    lemma_lookup(old_rev, key);
                    let q = choose|q: int| 0 <= q < old_rev.len() && old_rev[q].0 == key;
                    lemma_lookup(self.rev@, key);
                    if self.rev@[q].0 != key {
                        assert(old_rev[q].0 == node@);
                    }
                }
            }
            assert forall|m2: int| 0 <= m2 < self.rev@.len() implies (#[trigger] self.rev@[m2]).1 is Lit
                && hm.contains_key(self.rev@[m2].1) && self.rev@[m2].0 == skolem_literal_iri(hm[self.rev@[m2].1]) by {
                if !(self.rev@[m2].0 == node@ && self.rev@[m2].1 == l@) {
                    assert(self.rev@[m2] == old_rev[m2]);
                }
            }
            assert forall|m2: int| 0 <= m2 < self.nodes@.len() implies hm.contains_key((#[trigger] self.nodes@[m2]).0@)
                && self.nodes@[m2].1@ == skolem_literal_iri(hm[self.nodes@[m2].0@])
                && self.nodes@[m2].2 == hm[self.nodes@[m2].0@] by {
                if m2 < old_nodes.len() {
                    assert(self.nodes@[m2] == old_nodes[m2]);
                }
            }
            assert forall|l1: STerm, l2: STerm| #![trigger hm[l1], hm[l2]]
                hm.contains_key(l1) && hm.contains_key(l2) && hm[l1] == hm[l2] implies l1 == l2 by {
                if l1 != l@ && l2 != l@ {
                    assert(old_hm.contains_key(l1) && old_hm.contains_key(l2));
                } else if l1 == l@ && l2 != l@ {
                    assert(old_hm.contains_key(l2));
                } else if l2 == l@ && l1 != l@ {
                    assert(old_hm.contains_key(l1));
                }
            }
            assert forall|l2: STerm| #[trigger] hm.contains_key(l2) implies exists|m3: int| 0 <= m3 < self.nodes@.len()
                && self.nodes@[m3].0@ == l2 by {
                if l2 == l@ {
                    assert(self.nodes@[self.nodes@.len() - 1].0@ == l@);
                } else {
                    let m3 = choose|m3: int| 0 <= m3 < old_nodes.len() && old_nodes[m3].0@ == l2;
                    assert(self.nodes@[m3] == old_nodes[m3]);
                }
            }
        }
        node
    }
}

/// Skolemizes each triple of `ts` in turn into a new graph.
fn skolem_pass(ts: &Vec<RdfTriple>) -> (r: (RdfGraph, LiteralSkolems))
    ensures
        r.1.inv(),
        forall|l: STerm| #[trigger] r.1.hm@.contains_key(l) ==> exists|j: int| 0 <= j < ts@.len() && ts@[j]@.object == l,
        forall|j: int| 0 <= j < ts@.len() && (#[trigger] ts@[j])@.object is Lit ==> r.1.hm@.contains_key(ts@[j]@.object),
        forall|j: int| 0 <= j < ts@.len() ==> r.0@.contains(#[trigger] skolem_triple(ts@[j]@, hash_of(r.1.hm@))),
        forall|u: STriple| #[trigger] r.0@.contains(u) ==> exists|j: int| 0 <= j < ts@.len()
            && u == skolem_triple(ts@[j]@, hash_of(r.1.hm@)),
{
        let ghost src = crate::graph::triple_views(ts@);
        let mut out = RdfGraph::empty();
        let mut lits = LiteralSkolems::new();
        for i in 0..ts.len()
            invariant
                crate::graph::triple_views(ts@) == src,
                src.len() == ts@.len(),
                lits.inv(),
                forall|l: STerm| #[trigger] lits.hm@.contains_key(l) ==> exists|j: int| 0 <= j < i && src[j].object == l,
                forall|j: int| 0 <= j < i && (#[trigger] src[j]).object is Lit ==> lits.hm@.contains_key(src[j].object),
                forall|j: int| 0 <= j < i ==> out@.contains(#[trigger] skolem_triple(src[j], hash_of(lits.hm@))),
                forall|u: STriple| #[trigger] out@.contains(u) ==> exists|j: int| 0 <= j < i
                    && u == skolem_triple(src[j], hash_of(lits.hm@)),
        {
            let t = &ts[i];
            assert(t@ == src[i as int]);
            let subject = match &t.subject {
                SubjectNode::Blank(b) => SubjectNode::Iri(skolem_blank_node(b.id.as_str())),
                SubjectNode::Iri(n) => SubjectNode::Iri(n.clone()),
            };
            let ghost old_hm = lits.hm@;
            let object = match &t.object {
                RdfTerm::Blank(b) => RdfTerm::Iri(skolem_blank_node(b.id.as_str())),
                RdfTerm::Iri(n) => RdfTerm::Iri(n.clone()),
                RdfTerm::Literal(l) => RdfTerm::Iri(lits.node_for(l)),
            };
            let st = RdfTriple { subject, predicate: t.predicate.clone(), object };
            proof {
                assert(st@ == skolem_triple(src[i as int], hash_of(lits.hm@)));
                assert forall|j: int| 0 <= j < i implies skolem_triple(src[j], hash_of(old_hm)) == #[trigger] skolem_triple(src[j], hash_of(lits.hm@)) by {
                    lemma_skolem_stable(src[j], old_hm, lits.hm@);
                }
            }
            out.insert(&st);
        }
        proof {
            assert forall|j: int| 0 <= j < ts@.len() && (#[trigger] ts@[j])@.object is Lit implies lits.hm@.contains_key(ts@[j]@.object) by {
                assert(src[j] == ts@[j]@);
            }
            assert forall|j: int| 0 <= j < ts@.len() implies out@.contains(#[trigger] skolem_triple(ts@[j]@, hash_of(lits.hm@))) by {
                assert(src[j] == ts@[j]@);
            }
            assert forall|l: STerm| #[trigger] lits.hm@.contains_key(l) implies exists|j: int| 0 <= j < ts@.len() && ts@[j]@.object == l by {
                let j = choose|j: int| 0 <= j < src.len() && src[j].object == l;
                assert(src[j] == ts@[j]@);
            }
            assert forall|u: STriple| #[trigger] out@.contains(u) implies exists|j: int| 0 <= j < ts@.len()
                && u == skolem_triple(ts@[j]@, hash_of(lits.hm@)) by {
                let j = choose|j: int| 0 <= j < src.len() && u == skolem_triple(src[j], hash_of(lits.hm@));
                assert(src[j] == ts@[j]@);
            }
        }
        (out, lits)
}

/// `out` and `rev` are what skolemizing `src` gives for some hashing of
/// its literals under which distinct literal objects get distinct nodes.
pub open spec fn skolemizes(src: Seq<STriple>, out: Seq<STriple>, rev: Seq<(Seq<char>, STerm)>) -> bool {
    exists|h: spec_fn(STerm) -> u64| #[trigger] skolemized(src, out, rev, h) && literal_nodes_apart(src, h)
}

impl RdfGraph {
    /// A copy of this graph with every blank node replaced by a named node
    /// under [`BNODE_BASE`], and every literal object by a named node under
    /// [`LITERAL_SKOLEM_BASE`] named after the literal's hash, typed with the
    /// literal's datatype; with a map from each literal node back to the
    /// literal. (This never fails.)
    pub fn skolemize(&self) -> (r: Result<(RdfGraph, SkolemMap), BschemaError>)
        ensures
            r is Ok,
            r matches Ok(p) ==> skolemizes(self@, p.0@, p.1@),
    {
        let ts = self.triples();
        let ghost src = self@;
        let (mut out, lits) = skolem_pass(&ts);
        proof {
            assert forall|i: int| 0 <= i < src.len() implies src[i] == ts@[i]@ by {}
        }
        assert(src.len() == ts@.len());
        let ghost h = hash_of(lits.hm@);
        proof {
            assert forall|i1: int, i2: int| 0 <= i1 < src.len() && 0 <= i2 < src.len() && (#[trigger] src[i1]).object is Lit
                && (#[trigger] src[i2]).object is Lit
                && skolem_literal_iri(h(src[i1].object)) == skolem_literal_iri(h(src[i2].object))
                implies src[i1].object == src[i2].object by {
                assert(src[i1] == ts@[i1]@ && src[i2] == ts@[i2]@);
                assert(lits.hm@.contains_key(src[i1].object));
                assert(lits.hm@.contains_key(src[i2].object));
                lemma_skolem_literal_iri_injective(h(src[i1].object), h(src[i2].object));
                assert(lits.hm@[src[i1].object] == lits.hm@[src[i2].object]);
            }
            assert(literal_nodes_apart(src, h));
        }
        let ghost mid = out@;
        let rev = lits.rev;
        let n = rev.len();
        for m in 0..n
            invariant
                n == rev@.len(),
                forall|j: int| 0 <= j < src.len() ==> out@.contains(#[trigger] skolem_triple(src[j], h)),
                forall|j: int| 0 <= j < m ==> out@.contains(#[trigger] literal_type_triple(rev@[j].0, rev@[j].1)),
                forall|u: STriple| #[trigger] out@.contains(u) ==> mid.contains(u)
                    || exists|j: int| 0 <= j < m && u == literal_type_triple(rev@[j].0, rev@[j].1),
        {
            let (node, lit) = rev.entry(m);
            let dt = match lit {
                RdfTerm::Literal(l) => Iri { iri: l.datatype.clone() },
                _ => Iri { iri: String::new() },
            };
            let tt = RdfTriple {
                subject: SubjectNode::Iri(node.clone()),
                predicate: Iri { iri: RDF_TYPE_IRI.to_owned() },
                object: RdfTerm::Iri(dt),
            };
            assert(tt@ == literal_type_triple(rev@[m as int].0, rev@[m as int].1));
            out.insert(&tt);
        }
        proof {
            assert forall|j: int| 0 <= j < rev@.len() implies (#[trigger] rev@[j]).1 is Lit
                && rev@[j].0 == skolem_literal_iri(h(rev@[j].1))
                && exists|i: int| 0 <= i < src.len() && src[i].object == rev@[j].1 by {
                assert(lits.hm@.contains_key(rev@[j].1));
                let w = choose|w: int| 0 <= w < ts@.len() && ts@[w]@.object == rev@[j].1;
                assert(src[w] == ts@[w]@);
            }
            assert forall|u: STriple| #[trigger] out@.contains(u) implies (exists|i: int| 0 <= i < src.len() && u == skolem_triple(src[i], h))
                || (exists|j: int| 0 <= j < rev@.len() && u == literal_type_triple(rev@[j].0, rev@[j].1)) by {
                if mid.contains(u) {
                    let w = choose|w: int| 0 <= w < ts@.len() && u == skolem_triple(ts@[w]@, h);
                    assert(src[w] == ts@[w]@);
                }
            }
            assert forall|i: int| 0 <= i < src.len() && (#[trigger] src[i]).object is Lit
                implies lookup(rev@, skolem_literal_iri(h(src[i].object))) is Some by {
                assert(lits.hm@.contains_key(src[i].object));
            }
            assert(skolemized(src, out@, rev@, h));
            assert(exists|h2: spec_fn(STerm) -> u64| skolemized(self@, out@, rev@, h2));
        }
        let pair = (out, rev);
        assert(skolemized(self@, pair.0@, pair.1@, h));
        assert(skolemized(self@, pair.0@, pair.1@, h) && literal_nodes_apart(self@, h));
        assert(skolemizes(self@, pair.0@, pair.1@));
        Ok(pair)
    }
}

} // verus!
