//! An in-memory RDF graph: a set of triples, enumerated most recently
//! inserted first, with the lookups the algorithm needs.

use vstd::prelude::*;
use vstd::string::*;
use crate::error::BschemaError;
use crate::model::{
    opt_view, spec_term_text, Blank, Iri, LiteralValue, RdfTerm, RdfTriple, STerm, STriple, SubjectNode, RDF_LANG_STRING_IRI,
    XSD_STRING_IRI,
};
use crate::namespace::spec_prefix_table;
use crate::rdfio::{
    named_node_string, node_parts, ntriples_to_turtle, parse_quads, quad_parts, term_parts, turtle_of_ntriples,
    utf8_lossy, lossy_utf8, ntriples_accepted, rdf_accepted,
    RdfFormat, TermParts,
};
use crate::util::{chars_of, last_index_of, push_char, rfind_in, skip_chars, str_equal};

verus! {

/// The views of a sequence of triples.
pub open spec fn triple_views(v: Seq<RdfTriple>) -> Seq<STriple> {
    v.map_values(|t: RdfTriple| t@)
}

/// The views of a sequence of terms.
pub open spec fn term_views(v: Seq<RdfTerm>) -> Seq<STerm> {
    v.map_values(|t: RdfTerm| t@)
}

/// Objects `o` of the triples `(s, p, o)` of `ts`, in order.
pub open spec fn objects_of(ts: Seq<STriple>, s: STerm, p: Seq<char>) -> Seq<STerm>
    decreases ts.len(),
{
    if ts.len() == 0 {
        Seq::empty()
    } else {
        let r = objects_of(ts.drop_last(), s, p);
        if ts.last().subject == s && ts.last().predicate == p {
            r.push(ts.last().object)
        } else {
            r
        }
    }
}

/// `(predicate, object)` pairs of the triples of `ts` with subject `s`, in
/// order.
pub open spec fn predicate_objects_of(ts: Seq<STriple>, s: STerm) -> Seq<(Seq<char>, STerm)>
    decreases ts.len(),
{
    if ts.len() == 0 {
        Seq::empty()
    } else {
        let r = predicate_objects_of(ts.drop_last(), s);
        if ts.last().subject == s {
            r.push((ts.last().predicate, ts.last().object))
        } else {
            r
        }
    }
}

/// `(subject, predicate)` pairs of the triples of `ts` with object `o`, in
/// order.
pub open spec fn subject_predicates_of(ts: Seq<STriple>, o: STerm) -> Seq<(STerm, Seq<char>)>
    decreases ts.len(),
{
    if ts.len() == 0 {
        Seq::empty()
    } else {
        let r = subject_predicates_of(ts.drop_last(), o);
        if ts.last().object == o {
            r.push((ts.last().subject, ts.last().predicate))
        } else {
            r
        }
    }
}

/// A graph of RDF triples: a set, enumerated most recently inserted first
/// (the order of oxigraph's in-memory store).
pub struct RdfGraph {
    triples: Vec<RdfTriple>,
}

impl View for RdfGraph {
    type V = Seq<STriple>;

    closed spec fn view(&self) -> Seq<STriple> {
        triple_views(self.triples@)
    }
}

impl RdfGraph {
    #[verifier::type_invariant]
    closed spec fn no_repeats(self) -> bool {
        triple_views(self.triples@).no_duplicates()
    }

    /// No triple has a literal as its subject.
    pub proof fn lemma_no_literal_subjects(&self)
        ensures
            forall|t: STriple| #[trigger] self@.contains(t) ==> !(t.subject is Lit),
    {
        assert forall|t: STriple| #[trigger] self@.contains(t) implies !(t.subject is Lit) by {
            let i = choose|i: int| 0 <= i < self@.len() && self@[i] == t;
            assert(self@[i] == self.triples@[i]@);
        }
    }

    /// Every triple occurs once in the enumeration.
    pub fn assert_no_duplicates(&self)
        ensures
            self@.no_duplicates(),
    {
        proof {
            use_type_invariant(self);
        }
    }

    /// An empty graph.
    pub fn empty() -> (g: RdfGraph)
        ensures
            g@ == Seq::<STriple>::empty(),
    {
        let g = RdfGraph { triples: Vec::new() };
        assert(g@ =~= Seq::<STriple>::empty());
        g
    }

    /// An empty graph (this never fails).
    pub fn new() -> (r: Result<RdfGraph, BschemaError>)
        ensures
            r matches Ok(g) && g@ == Seq::<STriple>::empty(),
    {
        Ok(RdfGraph::empty())
    }

    /// Number of triples.
    pub fn len(&self) -> (r: usize)
        ensures
            r == self@.len(),
    {
        self.triples.len()
    }

    /// Whether the graph has no triple.
    pub fn is_empty(&self) -> (r: bool)
        ensures
            r == (self@.len() == 0),
    {
        self.triples.len() == 0
    }

    /// Position of `t` in the enumeration.
    fn position(&self, t: &RdfTriple) -> (r: Option<usize>)
        ensures
            match r {
                Some(i) => i < self@.len() && self@[i as int] == t@,
                None => !self@.contains(t@),
            },
    {
        let mut i: usize = 0;
        while i < self.triples.len()
            invariant
                i <= self.triples@.len(),
                forall|j: int| 0 <= j < i ==> self@[j] != t@,
            decreases self.triples@.len() - i,
        {
            if triple_equals(&self.triples[i], t) {
                return Some(i);
            }
            i = i + 1;
        }
        None
    }

    /// Whether `t` is in the graph.
    pub fn contains(&self, t: &RdfTriple) -> (r: bool)
        ensures
            r == self@.contains(t@),
    {
        self.position(t).is_some()
    }

    /// Adds `t`, as the first triple of the enumeration, unless it is
    /// already there.
    pub fn insert(&mut self, t: &RdfTriple)
        ensures
            final(self)@ == if old(self)@.contains(t@) {
                old(self)@
            } else {
                seq![t@] + old(self)@
            },
            forall|u: STriple| #[trigger] final(self)@.contains(u) <==> (old(self)@.contains(u) || u == t@),
    {
        proof {
            use_type_invariant(&*self);
        }
        if !self.contains(t) {
            let c = t.clone();
            let mut v: Vec<RdfTriple> = Vec::new();
            std::mem::swap(&mut v, &mut self.triples);
            v.insert(0, c);
            assert(triple_views(v@) =~= seq![t@] + triple_views(old(self).triples@));
            self.triples = v;
            assert forall|u: STriple| #[trigger] self@.contains(u) <==> (old(self)@.contains(u) || u == t@) by {
                if self@.contains(u) && u != t@ {
                    let k = choose|k: int| 0 <= k < self@.len() && self@[k] == u;
                    assert(old(self)@[k - 1] == u);
                }
                if old(self)@.contains(u) {
                    let k = choose|k: int| 0 <= k < old(self)@.len() && old(self)@[k] == u;
                    assert(self@[k + 1] == u);
                }
                if u == t@ {
                    assert(self@[0] == u);
                }
            }
        }
    }

    /// Removes `t` if it is in the graph, keeping the order of the others.
    pub fn remove(&mut self, t: &RdfTriple)
        ensures
            old(self)@.contains(t@) ==> exists|i: int|
                0 <= i < old(self)@.len() && old(self)@[i] == t@ && final(self)@ == old(self)@.remove(i),
            !old(self)@.contains(t@) ==> final(self)@ == old(self)@,
            !final(self)@.contains(t@),
            forall|u: STriple| #[trigger] final(self)@.contains(u) <==> (old(self)@.contains(u) && u != t@),
    {
        proof {
            use_type_invariant(&*self);
        }
        match self.position(t) {
            Some(i) => {
                let ghost before = self@;
                let mut v: Vec<RdfTriple> = Vec::new();
            std::mem::swap(&mut v, &mut self.triples);
                v.remove(i);
                assert(triple_views(v@) =~= before.remove(i as int));
                assert(triple_views(v@).no_duplicates()) by {
                    let w = triple_views(v@);
                    assert forall|a: int, b: int| 0 <= a < w.len() && 0 <= b < w.len() && a != b implies w[a] != w[b] by {
                        let a2 = if a < i { a } else { a + 1 };
                        let b2 = if b < i { b } else { b + 1 };
                        assert(w[a] == before[a2]);
                        assert(w[b] == before[b2]);
                    }
                }
                self.triples = v;
                assert forall|u: STriple| #[trigger] self@.contains(u) <==> (before.contains(u) && u != t@) by {
                    if self@.contains(u) {
                        let k = choose|k: int| 0 <= k < self@.len() && self@[k] == u;
                        if k < i {
                            assert(before[k] == u);
                        } else {
                            assert(before[k + 1] == u);
                        }
                    }
                    if before.contains(u) && u != t@ {
                        let k = choose|k: int| 0 <= k < before.len() && before[k] == u;
                        assert(k != i);
                        if k < i {
                            assert(self@[k] == u);
                        } else {
                            assert(self@[k - 1] == u);
                        }
                    }
                }
                assert(!self@.contains(t@)) by {
                    if self@.contains(t@) {
                        let k = choose|k: int| 0 <= k < self@.len() && self@[k] == t@;
                        if k < i {
                            assert(before[k] == before[i as int]);
                        } else {
                            assert(before[k + 1] == before[i as int]);
                        }
                    }
                }
            },
            None => {},
        }
    }

    /// All triples, in enumeration order.
    pub fn triples(&self) -> (r: Vec<RdfTriple>)
        ensures
            triple_views(r@) == self@,
            self@.no_duplicates(),
    {
        proof {
            use_type_invariant(self);
        }
        let mut r: Vec<RdfTriple> = Vec::new();
        for i in 0..self.triples.len()
            invariant
                triple_views(r@) == self@.take(i as int),
        {
            let ghost old_r = r@;
            let c = self.triples[i].clone();
            r.push(c);
            assert(r@ == old_r.push(c));
            assert(triple_views(r@) =~= triple_views(old_r).push(c@));
            assert(self@[i as int] == self.triples@[i as int]@);
            assert(triple_views(r@) =~= self@.take(i + 1));
        }
        assert(self@.take(self@.len() as int) =~= self@);
        r
    }

    /// Objects `o` such that `(subject, predicate, o)` is in the graph.
    pub fn objects(&self, subject: &SubjectNode, predicate: &Iri) -> (r: Vec<RdfTerm>)
        ensures
            term_views(r@) == objects_of(self@, subject@, predicate@),
    {
        let mut r: Vec<RdfTerm> = Vec::new();
        for i in 0..self.triples.len()
            invariant
                term_views(r@) == objects_of(self@.take(i as int), subject@, predicate@),
        {
            let t = &self.triples[i];
            assert(self@.take(i + 1).drop_last() =~= self@.take(i as int));
            if t.subject.equals(subject) && t.predicate.equals(predicate) {
                r.push(t.object.clone());
                assert(term_views(r@) =~= objects_of(self@.take(i as int), subject@, predicate@).push(t.object@));
            }
        }
        assert(self@.take(self@.len() as int) =~= self@);
        r
    }

    /// `(predicate, object)` pairs of the triples with the given subject.
    pub fn predicate_objects(&self, subject: &SubjectNode) -> (r: Vec<(Iri, RdfTerm)>)
        ensures
            r@.map_values(|x: (Iri, RdfTerm)| (x.0@, x.1@)) == predicate_objects_of(self@, subject@),
    {
        let mut r: Vec<(Iri, RdfTerm)> = Vec::new();
        for i in 0..self.triples.len()
            invariant
                r@.map_values(|x: (Iri, RdfTerm)| (x.0@, x.1@)) == predicate_objects_of(self@.take(i as int), subject@),
        {
            let t = &self.triples[i];
            assert(self@.take(i + 1).drop_last() =~= self@.take(i as int));
            if t.subject.equals(subject) {
                r.push((t.predicate.clone(), t.object.clone()));
                assert(r@.map_values(|x: (Iri, RdfTerm)| (x.0@, x.1@)) =~= predicate_objects_of(self@.take(i as int), subject@).push((t.predicate@, t.object@)));
            }
        }
        assert(self@.take(self@.len() as int) =~= self@);
        r
    }

    /// `(subject, predicate)` pairs of the triples with the given object.
    pub fn subject_predicates(&self, object: &RdfTerm) -> (r: Vec<(SubjectNode, Iri)>)
        ensures
            r@.map_values(|x: (SubjectNode, Iri)| (x.0@, x.1@)) == subject_predicates_of(self@, object@),
    {
        let mut r: Vec<(SubjectNode, Iri)> = Vec::new();
        for i in 0..self.triples.len()
            invariant
                r@.map_values(|x: (SubjectNode, Iri)| (x.0@, x.1@)) == subject_predicates_of(self@.take(i as int), object@),
        {
            let t = &self.triples[i];
            assert(self@.take(i + 1).drop_last() =~= self@.take(i as int));
            if t.object.equals(object) {
                r.push((t.subject.clone(), t.predicate.clone()));
                assert(r@.map_values(|x: (SubjectNode, Iri)| (x.0@, x.1@)) =~= subject_predicates_of(self@.take(i as int), object@).push((t.subject@, t.predicate@)));
            }
        }
        assert(self@.take(self@.len() as int) =~= self@);
        r
    }
}

/// Equality of triples.
pub fn triple_equals(a: &RdfTriple, b: &RdfTriple) -> (r: bool)
    ensures
        r == (a@ == b@),
{
    a.subject.equals(&b.subject) && a.predicate.equals(&b.predicate) && a.object.equals(&b.object)
}

/// The graph after inserting `t`: unchanged if `t` is there, else with `t`
/// first.
pub open spec fn graph_insert(g: Seq<STriple>, t: STriple) -> Seq<STriple> {
    if g.contains(t) { g } else { seq![t] + g }
}

/// The graph after inserting the triples of `ts` in order.
pub open spec fn insert_all(g: Seq<STriple>, ts: Seq<STriple>) -> Seq<STriple>
    decreases ts.len(),
{
    if ts.len() == 0 {
        g
    } else {
        graph_insert(insert_all(g, ts.drop_last()), ts.last())
    }
}

/// Membership in `objects_of`.
pub proof fn lemma_objects_of(ts: Seq<STriple>, s: STerm, p: Seq<char>)
    ensures
        forall|o: STerm| #[trigger] objects_of(ts, s, p).contains(o) <==> ts.contains(STriple { subject: s, predicate: p, object: o }),
    decreases ts.len(),
{
    if ts.len() > 0 {
        lemma_objects_of(ts.drop_last(), s, p);
        let r = objects_of(ts.drop_last(), s, p);
        assert forall|o: STerm| #[trigger] objects_of(ts, s, p).contains(o) <==> ts.contains(STriple { subject: s, predicate: p, object: o }) by {
            let t = STriple { subject: s, predicate: p, object: o };
            if ts.last().subject == s && ts.last().predicate == p {
                assert(objects_of(ts, s, p) == r.push(ts.last().object));
            } else {
                assert(objects_of(ts, s, p) == r);
            }
            if ts.contains(t) {
                let k = choose|k: int| 0 <= k < ts.len() && ts[k] == t;
                if k < ts.len() - 1 {
                    assert(ts.drop_last()[k] == t);
                    assert(ts.drop_last().contains(t));
                    assert(r.contains(o));
                    let q = choose|q: int| 0 <= q < r.len() && r[q] == o;
                    assert(objects_of(ts, s, p)[q] == o);
                } else {
                    assert(objects_of(ts, s, p)[r.len() as int] == o);
                }
            }
            if objects_of(ts, s, p).contains(o) {
                let k = choose|k: int| 0 <= k < objects_of(ts, s, p).len() && objects_of(ts, s, p)[k] == o;
                if k < r.len() {
                    assert(r[k] == o);
                    assert(r.contains(o));
                    let q = choose|q: int| 0 <= q < ts.drop_last().len() && ts.drop_last()[q] == t;
                    assert(ts[q] == t);
                } else {
                    assert(ts[ts.len() - 1] == t);
                }
            }
        }
    }
}

/// Membership in `predicate_objects_of`.
pub proof fn lemma_predicate_objects_of(ts: Seq<STriple>, s: STerm)
    ensures
        forall|x: (Seq<char>, STerm)| #[trigger] predicate_objects_of(ts, s).contains(x) <==> ts.contains(STriple { subject: s, predicate: x.0, object: x.1 }),
    decreases ts.len(),
{
    if ts.len() > 0 {
        lemma_predicate_objects_of(ts.drop_last(), s);
        let r = predicate_objects_of(ts.drop_last(), s);
        assert forall|x: (Seq<char>, STerm)| #[trigger] predicate_objects_of(ts, s).contains(x) <==> ts.contains(STriple { subject: s, predicate: x.0, object: x.1 }) by {
            let t = STriple { subject: s, predicate: x.0, object: x.1 };
            if ts.last().subject == s {
                assert(predicate_objects_of(ts, s) == r.push((ts.last().predicate, ts.last().object)));
            } else {
                assert(predicate_objects_of(ts, s) == r);
            }
            if ts.contains(t) {
                let k = choose|k: int| 0 <= k < ts.len() && ts[k] == t;
                if k < ts.len() - 1 {
                    assert(ts.drop_last()[k] == t);
                    assert(ts.drop_last().contains(t));
                    assert(r.contains(x));
                    let q = choose|q: int| 0 <= q < r.len() && r[q] == x;
                    assert(predicate_objects_of(ts, s)[q] == x);
                } else {
                    assert(predicate_objects_of(ts, s)[r.len() as int] == x);
                }
            }
            if predicate_objects_of(ts, s).contains(x) {
                let k = choose|k: int| 0 <= k < predicate_objects_of(ts, s).len() && predicate_objects_of(ts, s)[k] == x;
                if k < r.len() {
                    assert(r[k] == x);
                    assert(r.contains(x));
                    let q = choose|q: int| 0 <= q < ts.drop_last().len() && ts.drop_last()[q] == t;
                    assert(ts[q] == t);
                } else {
                    assert(ts[ts.len() - 1] == t);
                }
            }
        }
    }
}

/// Membership in `subject_predicates_of`.
pub proof fn lemma_subject_predicates_of(ts: Seq<STriple>, o: STerm)
    ensures
        forall|x: (STerm, Seq<char>)| #[trigger] subject_predicates_of(ts, o).contains(x) <==> ts.contains(STriple { subject: x.0, predicate: x.1, object: o }),
    decreases ts.len(),
{
    if ts.len() > 0 {
        lemma_subject_predicates_of(ts.drop_last(), o);
        let r = subject_predicates_of(ts.drop_last(), o);
        assert forall|x: (STerm, Seq<char>)| #[trigger] subject_predicates_of(ts, o).contains(x) <==> ts.contains(STriple { subject: x.0, predicate: x.1, object: o }) by {
            let t = STriple { subject: x.0, predicate: x.1, object: o };
            if ts.last().object == o {
                assert(subject_predicates_of(ts, o) == r.push((ts.last().subject, ts.last().predicate)));
            } else {
                assert(subject_predicates_of(ts, o) == r);
            }
            if ts.contains(t) {
                let k = choose|k: int| 0 <= k < ts.len() && ts[k] == t;
                if k < ts.len() - 1 {
                    assert(ts.drop_last()[k] == t);
                    assert(ts.drop_last().contains(t));
                    assert(r.contains(x));
                    let q = choose|q: int| 0 <= q < r.len() && r[q] == x;
                    assert(subject_predicates_of(ts, o)[q] == x);
                } else {
                    assert(subject_predicates_of(ts, o)[r.len() as int] == x);
                }
            }
            if subject_predicates_of(ts, o).contains(x) {
                let k = choose|k: int| 0 <= k < subject_predicates_of(ts, o).len() && subject_predicates_of(ts, o)[k] == x;
                if k < r.len() {
                    assert(r[k] == x);
                    assert(r.contains(x));
                    let q = choose|q: int| 0 <= q < ts.drop_last().len() && ts.drop_last()[q] == t;
                    assert(ts[q] == t);
                } else {
                    assert(ts[ts.len() - 1] == t);
                }
            }
        }
    }
}

/// A node from its oxigraph parts.
fn node_from_parts(parts: (bool, String)) -> (r: SubjectNode)
    ensures
        r@ == (if parts.0 { STerm::Blank(parts.1@) } else { STerm::Named(parts.1@) }),
{
    let (is_blank, label) = parts;
    if is_blank {
        SubjectNode::Blank(Blank { id: label })
    } else {
        SubjectNode::Iri(Iri { iri: label })
    }
}

/// The term given by its parts: a literal without an explicit datatype is an
/// `rdf:langString` when it has a language tag and an `xsd:string`
/// otherwise.
pub open spec fn parts_term(parts: TermParts) -> STerm {
    match parts {
        TermParts::Named(iri) => STerm::Named(iri@),
        TermParts::Blank(id) => STerm::Blank(id@),
        TermParts::Literal(value, datatype, language) => STerm::Lit(
            value@,
            match datatype {
                Some(d) => d@,
                None => if language is Some { RDF_LANG_STRING_IRI@ } else { XSD_STRING_IRI@ },
            },
            opt_view(language),
        ),
    }
}

/// A term from its oxigraph parts; a literal without an explicit datatype is
/// an `rdf:langString` when it has a language tag and an `xsd:string`
/// otherwise.
fn term_from_parts(parts: TermParts) -> (r: RdfTerm)
    ensures
        r@ == parts_term(parts),
{
    match parts {
        TermParts::Named(iri) => RdfTerm::Iri(Iri { iri }),
        TermParts::Blank(id) => RdfTerm::Blank(Blank { id }),
        TermParts::Literal(value, datatype, language) => {
            let datatype = match datatype {
                Some(d) => d,
                None => if language.is_some() {
                    RDF_LANG_STRING_IRI.to_owned()
                } else {
                    XSD_STRING_IRI.to_owned()
                },
            };
            RdfTerm::Literal(LiteralValue { value, datatype, language })
        },
    }
}

/// Reverses a vector of quads.
fn reversed(v: Vec<oxigraph::model::Quad>) -> (r: Vec<oxigraph::model::Quad>)
    ensures
        r@ == v@.reverse(),
{
    let mut v = v;
    let ghost orig = v@;
    let mut r: Vec<oxigraph::model::Quad> = Vec::new();
    while v.len() > 0
        invariant
            v@.len() <= orig.len(),
            v@ == orig.take(v@.len() as int),
            r@ == orig.skip(v@.len() as int).reverse(),
        decreases v@.len(),
    {
        let ghost n = v@.len();
        let ghost old_r = r@;
        let ghost old_v = v@;
        let q = v.pop().unwrap();
        assert(q == old_v[n - 1]);
        assert(v@ =~= old_v.drop_last());
        r.push(q);
        assert(v@ =~= orig.take(n - 1));
        assert(old_v[n - 1] == orig[n - 1]);
        let ghost want = orig.skip(n - 1).reverse();
        assert forall|k: int| 0 <= k < want.len() implies r@[k] == want[k] by {
            if k < old_r.len() {
                assert(old_r[k] == orig.skip(n as int).reverse()[k]);
            }
        }
        assert(r@ =~= want);
    }
    assert(orig.skip(0) =~= orig);
    r
}

/// A quad as plain values: its subject (whether it is a blank node, and its
/// label or IRI), its predicate IRI, the parts of its object, and whether it
/// lies in the default graph.
pub type PlainQuad = ((bool, String), String, TermParts, bool);

/// The triple of a plain quad.
pub open spec fn plain_quad_triple(q: PlainQuad) -> STriple {
    STriple {
        subject: if q.0.0 { STerm::Blank(q.0.1@) } else { STerm::Named(q.0.1@) },
        predicate: q.1@,
        object: parts_term(q.2),
    }
}

/// The graph of the default-graph quads of `q`, inserted in order (each
/// triple once; the latest new triple first).
pub open spec fn spec_graph_from_quads(q: Seq<PlainQuad>) -> Seq<STriple>
    decreases q.len(),
{
    if q.len() == 0 {
        Seq::empty()
    } else {
        let g = spec_graph_from_quads(q.drop_last());
        if q.last().3 { graph_insert(g, plain_quad_triple(q.last())) } else { g }
    }
}

/// The graph of the default-graph quads of `quads`, inserted in order.
pub fn graph_from_quads(quads: Vec<PlainQuad>) -> (g: RdfGraph)
    ensures
        g@ == spec_graph_from_quads(quads@),
{
    let ghost qs = quads@;
    let n = quads.len();
    let mut pending = crate::order::reverse_vec(quads);
    let mut g = RdfGraph::empty();
    let mut k: usize = 0;
    assert(qs.take(0) =~= Seq::<PlainQuad>::empty());
    assert(pending@ =~= qs.subrange(0, n as int).reverse());
    while pending.len() > 0
        invariant
            n == qs.len(),
            k <= n,
            pending@ == qs.subrange(k as int, n as int).reverse(),
            g@ == spec_graph_from_quads(qs.take(k as int)),
        decreases pending@.len(),
    {
        let ghost before = pending@;
        let q = pending.pop().unwrap();
        assert(q == qs[k as int]);
        assert(qs.take(k + 1).drop_last() =~= qs.take(k as int));
        assert(qs.take(k + 1).last() == q);
        let ((is_blank, label), predicate, object, in_default_graph) = q;
        if in_default_graph {
            let t = RdfTriple {
                subject: node_from_parts((is_blank, label)),
                predicate: Iri { iri: predicate },
                object: term_from_parts(object),
            };
            g.insert(&t);
        }
        k = k + 1;
        assert(pending@ =~= qs.subrange(k as int, n as int).reverse());
    }
    assert(qs.take(n as int) =~= qs);
    g
}

impl RdfGraph {
    /// Parses RDF `data` in `format`, keeping the triples of its default
    /// graph. Blank nodes get fresh labels, so the quads read are not
    /// stated; the graph is what [`graph_from_quads`] builds from them.
    pub fn parse_slice(data: &[u8], format: RdfFormat) -> (r: Result<RdfGraph, BschemaError>)
        ensures
            r is Ok <==> rdf_accepted(data@, format),
            r matches Err(e) ==> e is Load,
            r matches Ok(g) ==> exists|q: Seq<PlainQuad>| #[trigger] spec_graph_from_quads(q) == g@,
    {
        match parse_quads(data, format) {
            Err(e) => Err(BschemaError::Load(e)),
            Ok(quads) => {
                let mut pending = reversed(quads);
                let mut plain: Vec<PlainQuad> = Vec::new();
                while pending.len() > 0
                    decreases pending@.len(),
                {
                    let q = pending.pop().unwrap();
                    let (s, p, o, in_default_graph) = quad_parts(q);
                    plain.push((node_parts(s), named_node_string(p), term_parts(o), in_default_graph));
                }
                let g = graph_from_quads(plain);
                Ok(g)
            },
        }
    }

    /// Parses RDF text `data` in `format`, keeping the triples of its default
    /// graph, as [`RdfGraph::parse_slice`] does with its UTF-8 bytes.
    pub fn parse_str(data: &str, format: RdfFormat) -> (r: Result<RdfGraph, BschemaError>)
        ensures
            r is Ok <==> rdf_accepted(data.spec_bytes(), format),
            r matches Err(e) ==> e is Load,
            r matches Ok(g) ==> exists|q: Seq<PlainQuad>| #[trigger] spec_graph_from_quads(q) == g@,
    {
        RdfGraph::parse_slice(data.as_bytes(), format)
    }

    /// The graph as N-Triples text: one line per triple, in the order of
    /// the enumeration.
    pub fn to_ntriples(&self) -> (r: String)
        ensures
            r@ == ntriples_text(self@),
    {
        let ts = self.triples();
        let ghost g = self@;
        let mut out = String::new();
        for i in 0..ts.len()
            invariant
                triple_views(ts@) == g,
                out@ == ntriples_text(g.take(i as int)),
        {
            let t = &ts[i];
            assert(g.take(i + 1).drop_last() =~= g.take(i as int));
            assert(g.take(i + 1).last() == t@);
            let ghost before = out@;
            out.append(t.subject.to_term().to_string().as_str());
            push_char(&mut out, ' ');
            out.append(t.predicate.to_string().as_str());
            push_char(&mut out, ' ');
            out.append(t.object.to_string().as_str());
            push_char(&mut out, ' ');
            push_char(&mut out, '.');
            push_char(&mut out, '\n');
            assert(out@ =~= before + ntriples_line(t@));
        }
        assert(g.take(ts@.len() as int) =~= g);
        out
    }

    /// The graph as Turtle text, after a `@prefix` line for each known
    /// namespace: its N-Triples text, written again as Turtle by oxigraph.
    pub fn serialize_turtle(&self) -> (r: Result<String, BschemaError>)
        ensures
            r is Ok <==> ntriples_accepted(ntriples_text(self@)),
            r matches Err(e) ==> e is Parse,
            r matches Ok(s) ==> s@ == spec_prefix_header() + lossy_utf8(turtle_of_ntriples(ntriples_text(self@))),
    {
        let nt = self.to_ntriples();
        match ntriples_to_turtle(nt.as_str()) {
            Ok(bytes) => {
                let mut out = prefix_header();
                let body = utf8_lossy(&bytes);
                out.append(body.as_str());
                assert(out@ == spec_prefix_header() + lossy_utf8(bytes@));
                Ok(out)
            },
            Err(e) => Err(e),
        }
    }
}

/// The N-Triples line of a triple.
pub open spec fn ntriples_line(t: STriple) -> Seq<char> {
    spec_term_text(t.subject) + seq![' '] + spec_term_text(STerm::Named(t.predicate)) + seq![' ']
        + spec_term_text(t.object) + seq![' ', '.', '\n']
}

/// The N-Triples text of a sequence of triples.
pub open spec fn ntriples_text(ts: Seq<STriple>) -> Seq<char>
    decreases ts.len(),
{
    if ts.len() == 0 {
        Seq::empty()
    } else {
        ntriples_text(ts.drop_last()) + ntriples_line(ts.last())
    }
}

/// `@prefix p: <iri> .` lines for the entries of a prefix table.
pub open spec fn prefix_lines(table: Seq<(&'static str, &'static str)>) -> Seq<char>
    decreases table.len(),
{
    if table.len() == 0 {
        Seq::empty()
    } else {
        prefix_lines(table.drop_last()) + prefix_line(table.last().0@, table.last().1@)
    }
}

/// `@prefix p: <iri> .` and a line break.
pub open spec fn prefix_line(prefix: Seq<char>, iri: Seq<char>) -> Seq<char> {
    seq!['@', 'p', 'r', 'e', 'f', 'i', 'x', ' '] + prefix + seq![':', ' ', '<'] + iri + seq!['>', ' ', '.', '\n']
}

/// The header written before serialized Turtle: a `@prefix` line for each
/// known namespace, then an empty line.
pub open spec fn spec_prefix_header() -> Seq<char> {
    prefix_lines(spec_prefix_table()) + seq!['\n']
}

/// Appends `@prefix p: <iri> .` and a line break to `s`.
pub fn push_prefix_line(s: &mut String, prefix: &str, iri: &str)
    ensures
        final(s)@ == old(s)@ + prefix_line(prefix@, iri@),
{
    s.append("@prefix ");
    proof {
        reveal_strlit("@prefix ");
    }
    s.append(prefix);
    push_char(s, ':');
    push_char(s, ' ');
    push_char(s, '<');
    s.append(iri);
    push_char(s, '>');
    push_char(s, ' ');
    push_char(s, '.');
    push_char(s, '\n');
    assert(s@ =~= old(s)@ + prefix_line(prefix@, iri@));
}

/// The header written before serialized Turtle.
pub fn prefix_header() -> (r: String)
    ensures
        r@ == spec_prefix_header(),
{
    let table = crate::namespace::prefix_table();
    let mut s = String::new();
    for i in 0..table.len()
        invariant
            table@ == spec_prefix_table(),
            s@ == prefix_lines(table@.take(i as int)),
    {
        assert(table@.take(i + 1).drop_last() =~= table@.take(i as int));
        let (p, iri) = table[i];
        push_prefix_line(&mut s, p, iri);
    }
    assert(table@.take(table@.len() as int) =~= table@);
    push_char(&mut s, '\n');
    s
}

/// `c` with ASCII uppercase letters made lowercase.
pub open spec fn ascii_lower_char(c: char) -> char {
    if 'A' <= c && c <= 'Z' { ((c as u32) + 32) as char } else { c }
}

/// `s` with ASCII uppercase letters made lowercase (`str::to_ascii_lowercase`).
pub open spec fn ascii_lower(s: Seq<char>) -> Seq<char> {
    s.map_values(|c: char| ascii_lower_char(c))
}

/// `s` with ASCII uppercase letters made lowercase.
pub fn to_ascii_lowercase(s: &str) -> (r: String)
    ensures
        r@ == ascii_lower(s@),
{
    let mut r = String::new();
    for c in it: s.chars()
        invariant
            it.seq() == s@,
            r@ == ascii_lower(it.seq().take(it.index() as int)),
    {
        let d = if 'A' <= c && c <= 'Z' {
            let v = (c as u32) + 32;
            let b = v as u8;
            b as char
        } else {
            c
        };
        push_char(&mut r, d);
        assert(r@ =~= ascii_lower(it.seq().take(it.index() + 1)));
    }
    assert(s@.take(s@.len() as int) =~= s@);
    r
}

/// The format named by a lowercased format name or file extension.
pub open spec fn spec_format_of(name: Seq<char>) -> Option<RdfFormat> {
    if name == "ttl"@ || name == "turtle"@ {
        Some(RdfFormat::Turtle)
    } else if name == "nt"@ || name == "ntriples"@ {
        Some(RdfFormat::NTriples)
    } else if name == "nq"@ || name == "nquads"@ {
        Some(RdfFormat::NQuads)
    } else if name == "rdf"@ || name == "xml"@ || name == "owl"@ || name == "rdfxml"@ {
        Some(RdfFormat::RdfXml)
    } else if name == "trig"@ {
        Some(RdfFormat::TriG)
    } else {
        None
    }
}

/// The extension of the file name `name`, as `std::path::Path::extension`
/// documents it: none when the name has no `.`, or only a leading one;
/// else what follows its last `.`.
pub open spec fn spec_extension(name: Seq<char>) -> Option<Seq<char>> {
    let i = last_index_of(name, '.');
    if i <= 0 {
        None
    } else {
        Some(name.skip(i + 1))
    }
}

/// The format named, in any ASCII case, by the extension of the file name
/// `name`, read as the empty name when there is none; `UnknownFormat` with
/// the file name when it names no format.
pub fn format_from_file_name(name: &str) -> (r: Result<RdfFormat, BschemaError>)
    ensures
        ({
            let ext = match spec_extension(name@) {
                Some(e) => e,
                None => Seq::empty(),
            };
            match spec_format_of(ascii_lower(ext)) {
                Some(f) => r matches Ok(g) && g == f,
                None => r matches Err(BschemaError::UnknownFormat(s)) && s@ == name@,
            }
        }),
{
    let v = chars_of(name);
    let n = v.len();
    let found = rfind_in(&v, 0, n, '.');
    proof {
        assert(v@.subrange(0, n as int) =~= name@);
    }
    let ext = match found {
        Some(i) => if i > 0 { skip_chars(name, i + 1) } else { String::new() },
        None => String::new(),
    };
    match format_from_name(ext.as_str()) {
        Some(f) => Ok(f),
        None => Err(BschemaError::UnknownFormat(name.to_owned())),
    }
}

/// Maps a format or extension name (`"ttl"`, `"turtle"`, `"nt"`, `"xml"`,
/// ...), in any ASCII case, to an [`RdfFormat`].
pub fn format_from_name(name: &str) -> (r: Option<RdfFormat>)
    ensures
        r == spec_format_of(ascii_lower(name@)),
{
    let lower = to_ascii_lowercase(name);
    let n = lower.as_str();
    if str_equal(n, "ttl") || str_equal(n, "turtle") {
        Some(RdfFormat::Turtle)
    } else if str_equal(n, "nt") || str_equal(n, "ntriples") {
        Some(RdfFormat::NTriples)
    } else if str_equal(n, "nq") || str_equal(n, "nquads") {
        Some(RdfFormat::NQuads)
    } else if str_equal(n, "rdf") || str_equal(n, "xml") || str_equal(n, "owl") || str_equal(n, "rdfxml") {
        Some(RdfFormat::RdfXml)
    } else if str_equal(n, "trig") {
        Some(RdfFormat::TriG)
    } else {
        None
    }
}

} // verus!
