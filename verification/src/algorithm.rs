//! The summarization algorithm: class patterns of triples, grouping of
//! subjects by the class pattern of their surroundings, naming of the
//! groups, and the iteration that relabels the graph until the groups are
//! stable.

use vstd::prelude::*;
use vstd::string::*;
use crate::graph::{
    graph_insert, insert_all, lemma_objects_of, lemma_predicate_objects_of,
    lemma_subject_predicates_of, objects_of, predicate_objects_of, subject_predicates_of,
    term_views, triple_views, RdfGraph,
};
use crate::model::{stripple, Iri, RdfTerm, RdfTriple, STerm, STriple, SubjectNode};
use crate::namespace::{
    named, named_node_predicates, spec_named_node_predicates, BS_BASE, RDFS_LITERAL_IRI,
    RDFS_RESOURCE_IRI, RDF_TYPE_IRI,
};
use crate::util::{has_prefix, starts_with};
pub use crate::isomorphism::{
    class_isomorphisms, lists_have_same_members, sublist_overlaps, ClassIsomorphisms, SimilarityThreshold,
};
pub use crate::relabel::{assign_new_classes, create_bschema, BschemaResult};

verus! {

/// A named node whose IRI lies in the `bs:` namespace.
pub open spec fn is_bs_class(t: STerm) -> bool {
    t is Named && has_prefix(t->Named_0, BS_BASE@)
}

/// Index of the first `bs:` class in `types`, or -1.
pub open spec fn first_bs_index(types: Seq<STerm>) -> int
    decreases types.len(),
{
    if types.len() == 0 {
        -1
    } else if is_bs_class(types[0]) {
        0
    } else {
        let r = first_bs_index(types.drop_first());
        if r < 0 { -1 } else { r + 1 }
    }
}

/// The class chosen among the `rdf:type` objects of a node: the first `bs:`
/// class, else the first type if it is a named node, else `rdfs:Resource`.
pub open spec fn class_from_types(types: Seq<STerm>) -> Seq<char> {
    let i = first_bs_index(types);
    if i >= 0 {
        types[i]->Named_0
    } else if types.len() > 0 && types[0] is Named {
        types[0]->Named_0
    } else {
        RDFS_RESOURCE_IRI@
    }
}

/// The class of a term in graph `g`: `rdfs:Literal` for a literal, else the
/// class chosen among its `rdf:type`s.
pub open spec fn spec_get_class(node: STerm, g: Seq<STriple>) -> Seq<char> {
    if node is Lit {
        RDFS_LITERAL_IRI@
    } else {
        class_from_types(objects_of(g, node, RDF_TYPE_IRI@))
    }
}

/// The class of the object of `t`: a named object of `rdf:type` or of one
/// of the named-node predicates is its own class.
pub open spec fn object_class(t: STriple, g: Seq<STriple>) -> Seq<char> {
    if (t.predicate == RDF_TYPE_IRI@ || spec_named_node_predicates().contains(t.predicate)) && t.object is Named {
        t.object->Named_0
    } else {
        spec_get_class(t.object, g)
    }
}

/// The class pattern `(class(s), p, class(o))` of a triple.
pub open spec fn spec_class_pattern(t: STriple, g: Seq<STriple>) -> STriple {
    STriple {
        subject: STerm::Named(spec_get_class(t.subject, g)),
        predicate: t.predicate,
        object: STerm::Named(object_class(t, g)),
    }
}

/// The class patterns of the triples of `ts`, in order.
pub open spec fn patterns_of(ts: Seq<STriple>, g: Seq<STriple>) -> Seq<STriple> {
    ts.map_values(|t: STriple| spec_class_pattern(t, g))
}

/// The class graph of `g`: its class patterns, inserted in enumeration
/// order.
pub open spec fn spec_class_graph(g: Seq<STriple>) -> Seq<STriple> {
    insert_all(Seq::empty(), patterns_of(g, g))
}

proof fn lemma_first_bs_index(types: Seq<STerm>)
    ensures
        first_bs_index(types) < types.len(),
        first_bs_index(types) >= 0 ==> is_bs_class(types[first_bs_index(types)]),
        first_bs_index(types) < 0 ==> forall|i: int| 0 <= i < types.len() ==> !is_bs_class(#[trigger] types[i]),
    decreases types.len(),
{
    if types.len() > 0 && !is_bs_class(types[0]) {
        lemma_first_bs_index(types.drop_first());
        assert forall|i: int| 1 <= i < types.len() implies types[i] == types.drop_first()[i - 1] by {}
    }
}

/// The class of a node that carries a `bs:` type is the first of its `bs:`
/// types: a `bs:` class that it carries.
pub proof fn lemma_bs_type_preferred(node: STerm, g: Seq<STriple>, c: Seq<char>)
    requires
        !(node is Lit),
        g.contains(stripple(node, RDF_TYPE_IRI@, STerm::Named(c))),
        has_prefix(c, BS_BASE@),
    ensures
        has_prefix(spec_get_class(node, g), BS_BASE@),
        g.contains(stripple(node, RDF_TYPE_IRI@, STerm::Named(spec_get_class(node, g)))),
{
    let types = objects_of(g, node, RDF_TYPE_IRI@);
    lemma_objects_of(g, node, RDF_TYPE_IRI@);
    lemma_first_bs_index(types);
    assert(types.contains(STerm::Named(c)));
    let j = choose|j: int| 0 <= j < types.len() && types[j] == STerm::Named(c);
    assert(is_bs_class(types[j]));
    let i = first_bs_index(types);
    assert(i >= 0);
    assert(types.contains(types[i]));
}

/// A `bs:` class of a node is one of its `rdf:type`s in `g`.
pub proof fn lemma_bs_class_is_type(node: STerm, g: Seq<STriple>)
    requires
        has_prefix(spec_get_class(node, g), BS_BASE@),
        !has_prefix(RDFS_RESOURCE_IRI@, BS_BASE@),
        !has_prefix(RDFS_LITERAL_IRI@, BS_BASE@),
    ensures
        g.contains(stripple(node, RDF_TYPE_IRI@, STerm::Named(spec_get_class(node, g)))),
{
    let types = objects_of(g, node, RDF_TYPE_IRI@);
    lemma_first_bs_index(types);
    lemma_objects_of(g, node, RDF_TYPE_IRI@);
    let c = spec_get_class(node, g);
    let i = first_bs_index(types);
    if i >= 0 {
        assert(types[i] == STerm::Named(c));
        assert(types.contains(STerm::Named(c)));
    } else if types.len() > 0 && types[0] is Named {
        assert(!is_bs_class(types[0]));
        assert(types[0] == STerm::Named(c));
        assert(false);
    }
}

/// The class graph of `g` holds the class pattern of each triple of `g`
/// and nothing else.
pub proof fn lemma_class_graph_contains(g: Seq<STriple>, u: STriple)
    ensures
        spec_class_graph(g).contains(u) <==> exists|i: int| 0 <= i < g.len() && u == #[trigger] spec_class_pattern(g[i], g),
{
    lemma_insert_all_contains(Seq::empty(), patterns_of(g, g), u);
    if patterns_of(g, g).contains(u) {
        let i = choose|i: int| 0 <= i < patterns_of(g, g).len() && patterns_of(g, g)[i] == u;
    }
    if exists|i: int| 0 <= i < g.len() && u == #[trigger] spec_class_pattern(g[i], g) {
        let i = choose|i: int| 0 <= i < g.len() && u == #[trigger] spec_class_pattern(g[i], g);
        assert(patterns_of(g, g)[i] == u);
    }
}

proof fn lemma_insert_all_contains(g: Seq<STriple>, ts: Seq<STriple>, u: STriple)
    ensures
        insert_all(g, ts).contains(u) <==> g.contains(u) || ts.contains(u),
    decreases ts.len(),
{
    if ts.len() > 0 {
        let init = ts.drop_last();
        lemma_insert_all_contains(g, init, u);
        let prev = insert_all(g, init);
        if !prev.contains(ts.last()) {
            assert((seq![ts.last()] + prev)[0] == ts.last());
            if (seq![ts.last()] + prev).contains(u) && u != ts.last() {
                let k = choose|k: int| 0 <= k < (seq![ts.last()] + prev).len() && (seq![ts.last()] + prev)[k] == u;
                assert(prev[k - 1] == u);
            }
            if prev.contains(u) {
                let k = choose|k: int| 0 <= k < prev.len() && prev[k] == u;
                assert((seq![ts.last()] + prev)[k + 1] == u);
            }
        }
        if ts.contains(u) && u != ts.last() {
            let k = choose|k: int| 0 <= k < ts.len() && ts[k] == u;
            assert(init[k] == u);
        }
        if init.contains(u) {
            let k = choose|k: int| 0 <= k < init.len() && init[k] == u;
            assert(ts[k] == u);
        }
        if u == ts.last() {
            assert(ts[ts.len() - 1] == u);
        }
    }
}

/// The class of a node given its `rdf:type` objects.
fn class_of_types(types: &Vec<RdfTerm>) -> (r: Iri)
    ensures
        r@ == class_from_types(term_views(types@)),
{
    let ghost tv = term_views(types@);
    assert(tv.skip(0) =~= tv);
    let mut i: usize = 0;
    while i < types.len()
        invariant
            i <= types@.len(),
            tv == term_views(types@),
            first_bs_index(tv) == if first_bs_index(tv.skip(i as int)) < 0 { -1 } else { first_bs_index(tv.skip(i as int)) + i },
        decreases types@.len() - i,
    {
        let ghost rest = tv.skip(i as int);
        assert(rest[0] == types@[i as int]@);
        assert(rest.drop_first() =~= tv.skip(i + 1));
        if let RdfTerm::Iri(n) = &types[i] {
            if starts_with(n.iri.as_str(), BS_BASE) {
                return n.clone();
            }
        }
        i = i + 1;
    }
    assert(tv.skip(i as int).len() == 0);
    if types.len() > 0 {
        if let RdfTerm::Iri(n) = &types[0] {
            return n.clone();
        }
    }
    named(RDFS_RESOURCE_IRI)
}

/// Gets the class of a node: a `bs:` class among its types if there is
/// one, else its first type, else `rdfs:Literal` for a literal and
/// `rdfs:Resource` otherwise.
pub fn get_class(node: &RdfTerm, data_graph: &RdfGraph) -> (r: Iri)
    ensures
        r@ == spec_get_class(node@, data_graph@),
{
    match node.to_node() {
        Some(subject) => {
            let a = named(RDF_TYPE_IRI);
            let types = data_graph.objects(&subject, &a);
            class_of_types(&types)
        },
        None => named(RDFS_LITERAL_IRI),
    }
}

/// Whether `p` is one of the named-node predicates.
fn is_named_node_predicate(p: &Iri) -> (r: bool)
    ensures
        r == spec_named_node_predicates().contains(p@),
{
    let preds = named_node_predicates();
    let ghost pv = preds@.map_values(|n: Iri| n@);
    let mut i: usize = 0;
    while i < preds.len()
        invariant
            i <= preds@.len(),
            pv == preds@.map_values(|n: Iri| n@),
            pv == spec_named_node_predicates(),
            forall|j: int| 0 <= j < i ==> pv[j] != p@,
        decreases preds@.len() - i,
    {
        if preds[i].equals(p) {
            assert(pv[i as int] == p@);
            return true;
        }
        i = i + 1;
    }
    false
}

/// Builds the class-level pattern `(class(s), p, class(o))` for a triple,
/// treating `rdf:type` and a fixed set of "named node" predicates (units,
/// quantity kinds, aspects, ...) as already denoting the class of their
/// object.
pub fn class_pattern(triple: &RdfTriple, data_graph: &RdfGraph) -> (r: RdfTriple)
    ensures
        r@ == spec_class_pattern(triple@, data_graph@),
{
    let s_class = get_class(&triple.subject.to_term(), data_graph);
    let is_type = str_equal_iri(&triple.predicate, RDF_TYPE_IRI);
    let o_class = if is_type || is_named_node_predicate(&triple.predicate) {
        match &triple.object {
            RdfTerm::Iri(n) => n.clone(),
            other => get_class(other, data_graph),
        }
    } else {
        get_class(&triple.object, data_graph)
    };
    RdfTriple {
        subject: SubjectNode::Iri(s_class),
        predicate: triple.predicate.clone(),
        object: RdfTerm::Iri(o_class),
    }
}

/// Whether the IRI of `n` is `iri`.
fn str_equal_iri(n: &Iri, iri: &str) -> (r: bool)
    ensures
        r == (n@ == iri@),
{
    crate::util::str_equal(n.iri.as_str(), iri)
}

/// The deduplicated class patterns of every triple of `data_graph`.
pub fn class_graph(data_graph: &RdfGraph) -> (r: Result<RdfGraph, crate::error::BschemaError>)
    ensures
        r matches Ok(out) && out@ == spec_class_graph(data_graph@),
{
    let ts = data_graph.triples();
    let ghost g = data_graph@;
    let mut out = RdfGraph::empty();
    for i in 0..ts.len()
        invariant
            triple_views(ts@) == g,
            g == data_graph@,
            out@ == insert_all(Seq::empty(), patterns_of(g, g).take(i as int)),
    {
        let pattern = class_pattern(&ts[i], data_graph);
        assert(ts@[i as int]@ == g[i as int]);
        assert(patterns_of(g, g).take(i + 1).drop_last() =~= patterns_of(g, g).take(i as int));
        if !out.contains(&pattern) {
            out.insert(&pattern);
        }
        assert(out@ == insert_all(Seq::empty(), patterns_of(g, g).take(i + 1)));
    }
    assert(patterns_of(g, g).take(g.len() as int) =~= patterns_of(g, g));
    Ok(out)
}

/// `t` gives the `rdf:type` of `n`.
pub open spec fn is_type_triple_of(t: STriple, n: STerm) -> bool {
    t.subject == n && t.predicate == RDF_TYPE_IRI@
}

/// `m` is a named node linked to `n` by a triple of `g`, either way.
pub open spec fn adjacent(g: Seq<STriple>, n: STerm, m: STerm) -> bool {
    m is Named && exists|t: STriple| #[trigger] g.contains(t)
        && ((t.subject == n && t.object == m) || (t.object == n && t.subject == m))
}

/// `t` is a triple that visiting `n` adds to a subgraph: a triple of `g`
/// with `n` as subject or object, or giving the type of a named node linked
/// to `n`.
pub open spec fn hop_triple(g: Seq<STriple>, n: STerm, t: STriple) -> bool {
    g.contains(t) && (t.subject == n || t.object == n
        || (t.predicate == RDF_TYPE_IRI@ && adjacent(g, n, t.subject)))
}

/// The layer of the breadth-first search from `c` after `k` hops, and the
/// nodes visited before it.
pub open spec fn bfs(g: Seq<STriple>, c: STerm, k: nat) -> (Set<STerm>, Set<STerm>)
    decreases k,
{
    if k == 0 {
        (set![c], Set::empty())
    } else {
        let (layer, visited) = bfs(g, c, (k - 1) as nat);
        (
            Set::new(|m: STerm| exists|n: STerm| layer.contains(n) && !visited.contains(n) && #[trigger] adjacent(g, n, m)),
            visited.union(layer),
        )
    }
}

/// The nodes visited (expanded) at hop `k`: those of the layer not visited
/// before.
pub open spec fn expanded(g: Seq<STriple>, c: STerm, k: nat) -> Set<STerm> {
    bfs(g, c, k).0.difference(bfs(g, c, k).1)
}

/// `t` lies in the subgraph within the first `hops` hops of `c`: a type of
/// `c`, or a triple added by visiting a node expanded before hop `hops`.
pub open spec fn in_hops(g: Seq<STriple>, c: STerm, hops: nat, t: STriple) -> bool {
    (g.contains(t) && is_type_triple_of(t, c))
        || exists|k: nat, n: STerm| k < hops && #[trigger] expanded(g, c, k).contains(n) && #[trigger] hop_triple(g, n, t)
}

/// `t` lies in the subgraph of `c`, with, when `get_classes` is set, the
/// types of the subjects and named objects of its triples.
pub open spec fn in_subgraph(g: Seq<STriple>, c: STerm, hops: nat, get_classes: bool, t: STriple) -> bool {
    in_hops(g, c, hops, t) || (get_classes && g.contains(t) && t.predicate == RDF_TYPE_IRI@
        && exists|u: STriple| #[trigger] in_hops(g, c, hops, u)
            && (t.subject == u.subject || (u.object is Named && t.subject == u.object)))
}

proof fn lemma_to_set_contains<A>(s: Seq<A>, x: A)
    ensures
        s.to_set().contains(x) == s.contains(x),
{
}

/// Views of a list of nodes.
pub open spec fn node_views(v: Seq<SubjectNode>) -> Seq<STerm> {
    v.map_values(|n: SubjectNode| n@)
}

/// Whether `n` is in `v`.
pub(crate) fn has_node(v: &Vec<SubjectNode>, n: &SubjectNode) -> (r: bool)
    ensures
        r == node_views(v@).contains(n@),
{
    let mut i: usize = 0;
    while i < v.len()
        invariant
            i <= v@.len(),
            forall|j: int| 0 <= j < i ==> node_views(v@)[j] != n@,
        decreases v@.len() - i,
    {
        if v[i].equals(n) {
            assert(node_views(v@)[i as int] == n@);
            return true;
        }
        i = i + 1;
    }
    false
}

/// Adds `n` to `v` unless it is there.
pub(crate) fn add_node(v: &mut Vec<SubjectNode>, n: &SubjectNode)
    requires
        node_views(old(v)@).no_duplicates(),
    ensures
        node_views(final(v)@).no_duplicates(),
        forall|m: STerm| #[trigger] node_views(final(v)@).contains(m) <==> node_views(old(v)@).contains(m) || m == n@,
{
    if !has_node(v, n) {
        let ghost before = node_views(v@);
        v.push(n.clone());
        assert(node_views(v@) =~= before.push(n@));
        assert forall|m: STerm| #[trigger] node_views(v@).contains(m) <==> before.contains(m) || m == n@ by {
            if node_views(v@).contains(m) && m != n@ {
                let k = choose|k: int| 0 <= k < node_views(v@).len() && node_views(v@)[k] == m;
                assert(before[k] == m);
            }
            if before.contains(m) {
                let k = choose|k: int| 0 <= k < before.len() && before[k] == m;
                assert(node_views(v@)[k] == m);
            }
            if m == n@ {
                assert(node_views(v@)[before.len() as int] == m);
            }
        }
    }
}

/// Adds the `rdf:type` triples of `m` in `g` to `sub`.
fn add_types(g: &RdfGraph, m: &SubjectNode, sub: &mut RdfGraph)
    ensures
        forall|t: STriple| #[trigger] final(sub)@.contains(t) <==> old(sub)@.contains(t)
            || (g@.contains(t) && is_type_triple_of(t, m@)),
{
    let a = named(RDF_TYPE_IRI);
    let types = g.objects(m, &a);
    proof {
        lemma_objects_of(g@, m@, a@);
    }
    let ghost tv = term_views(types@);
    for i in 0..types.len()
        invariant
            tv == term_views(types@),
            tv == objects_of(g@, m@, a@),
            a@ == RDF_TYPE_IRI@,
            forall|o: STerm| #[trigger] objects_of(g@, m@, a@).contains(o) <==> g@.contains(stripple(m@, a@, o)),
            forall|t: STriple| #[trigger] sub@.contains(t) <==> old(sub)@.contains(t)
                || exists|j: int| 0 <= j < i && t == stripple(m@, a@, tv[j]),
    {
        let t = RdfTriple { subject: m.clone(), predicate: a.clone(), object: types[i].clone() };
        assert(t@ == stripple(m@, a@, tv[i as int]));
        sub.insert(&t);
        assert forall|u: STriple| #[trigger] sub@.contains(u) <==> old(sub)@.contains(u)
            || exists|j: int| 0 <= j < i + 1 && u == stripple(m@, a@, tv[j]) by {
            if u == t@ {
                assert(0 <= i < i + 1 && u == stripple(m@, a@, tv[i as int]));
            }
        }
    }
    assert forall|t: STriple| #[trigger] sub@.contains(t) <==> old(sub)@.contains(t)
        || (g@.contains(t) && is_type_triple_of(t, m@)) by {
        if g@.contains(t) && is_type_triple_of(t, m@) {
            assert(t == stripple(m@, a@, t.object));
            assert(objects_of(g@, m@, a@).contains(t.object));
            let j = choose|j: int| 0 <= j < tv.len() && tv[j] == t.object;
        }
        if sub@.contains(t) && !old(sub)@.contains(t) {
            let j = choose|j: int| 0 <= j < types@.len() && t == stripple(m@, a@, tv[j]);
            assert(objects_of(g@, m@, a@).contains(tv[j]));
        }
    }
}

/// Visits node `n`: adds to `sub` the triples `hop_triple` describes and
/// to `next` the named nodes linked to `n`.
fn expand_node(g: &RdfGraph, n: &SubjectNode, sub: &mut RdfGraph, next: &mut Vec<SubjectNode>)
    requires
        node_views(old(next)@).no_duplicates(),
    ensures
        node_views(final(next)@).no_duplicates(),
        forall|m: STerm| #[trigger] node_views(final(next)@).contains(m) <==> node_views(old(next)@).contains(m)
            || adjacent(g@, n@, m),
        forall|t: STriple| #[trigger] final(sub)@.contains(t) <==> old(sub)@.contains(t) || hop_triple(g@, n@, t),
{
    let ghost gv = g@;
    let pos = g.predicate_objects(n);
    let ghost posv = pos@.map_values(|x: (Iri, RdfTerm)| (x.0@, x.1@));
    proof {
        lemma_predicate_objects_of(gv, n@);
    }
    for i in 0..pos.len()
        invariant
            gv == g@,
            posv == pos@.map_values(|x: (Iri, RdfTerm)| (x.0@, x.1@)),
            posv == predicate_objects_of(gv, n@),
            node_views(next@).no_duplicates(),
            forall|m: STerm| #[trigger] node_views(next@).contains(m) <==> node_views(old(next)@).contains(m)
                || exists|j: int| 0 <= j < i && posv[j].1 is Named && m == posv[j].1,
            forall|t: STriple| #[trigger] sub@.contains(t) <==> old(sub)@.contains(t)
                || exists|j: int| 0 <= j < i && (t == stripple(n@, posv[j].0, posv[j].1)
                    || (posv[j].1 is Named && gv.contains(t) && is_type_triple_of(t, posv[j].1))),
    {
        let (p, o) = (&pos[i].0, &pos[i].1);
        assert(posv[i as int] == (p@, o@));
        let t = RdfTriple { subject: n.clone(), predicate: p.clone(), object: o.clone() };
        sub.insert(&t);
        if let RdfTerm::Iri(on) = o {
            let node = SubjectNode::Iri(on.clone());
            add_node(next, &node);
            add_types(g, &node, sub);
        }
        assert forall|m: STerm| #[trigger] node_views(next@).contains(m) <==> node_views(old(next)@).contains(m)
            || exists|j: int| 0 <= j < i + 1 && posv[j].1 is Named && m == posv[j].1 by {
            if m == o@ && o@ is Named {
                assert(0 <= i < i + 1 && posv[i as int].1 is Named && m == posv[i as int].1);
            }
        }
        assert forall|u: STriple| #[trigger] sub@.contains(u) <==> old(sub)@.contains(u)
            || exists|j: int| 0 <= j < i + 1 && (u == stripple(n@, posv[j].0, posv[j].1)
                || (posv[j].1 is Named && gv.contains(u) && is_type_triple_of(u, posv[j].1))) by {
            if u == t@ || (o@ is Named && gv.contains(u) && is_type_triple_of(u, o@)) {
                assert(0 <= i < i + 1);
            }
        }
    }
    let nt = n.to_term();
    let sps = g.subject_predicates(&nt);
    let ghost spsv = sps@.map_values(|x: (SubjectNode, Iri)| (x.0@, x.1@));
    proof {
        lemma_subject_predicates_of(gv, n@);
    }
    let ghost mid_next = node_views(next@);
    let ghost mid_sub = sub@;
    for i in 0..sps.len()
        invariant
            gv == g@,
            nt@ == n@,
            spsv == sps@.map_values(|x: (SubjectNode, Iri)| (x.0@, x.1@)),
            spsv == subject_predicates_of(gv, n@),
            node_views(next@).no_duplicates(),
            forall|m: STerm| #[trigger] node_views(next@).contains(m) <==> mid_next.contains(m)
                || exists|j: int| 0 <= j < i && spsv[j].0 is Named && m == spsv[j].0,
            forall|t: STriple| #[trigger] sub@.contains(t) <==> mid_sub.contains(t)
                || exists|j: int| 0 <= j < i && (t == stripple(spsv[j].0, spsv[j].1, n@)
                    || (spsv[j].0 is Named && gv.contains(t) && is_type_triple_of(t, spsv[j].0))),
    {
        let (sn, p) = (&sps[i].0, &sps[i].1);
        assert(spsv[i as int] == (sn@, p@));
        let t = RdfTriple { subject: sn.clone(), predicate: p.clone(), object: nt.clone() };
        sub.insert(&t);
        if let SubjectNode::Iri(_) = sn {
            add_node(next, sn);
            add_types(g, sn, sub);
        }
        assert forall|m: STerm| #[trigger] node_views(next@).contains(m) <==> mid_next.contains(m)
            || exists|j: int| 0 <= j < i + 1 && spsv[j].0 is Named && m == spsv[j].0 by {
            if m == sn@ && sn@ is Named {
                assert(0 <= i < i + 1 && spsv[i as int].0 is Named && m == spsv[i as int].0);
            }
        }
        assert forall|u: STriple| #[trigger] sub@.contains(u) <==> mid_sub.contains(u)
            || exists|j: int| 0 <= j < i + 1 && (u == stripple(spsv[j].0, spsv[j].1, n@)
                || (spsv[j].0 is Named && gv.contains(u) && is_type_triple_of(u, spsv[j].0))) by {
            if u == t@ || (sn@ is Named && gv.contains(u) && is_type_triple_of(u, sn@)) {
                assert(0 <= i < i + 1);
            }
        }
    }
    proof {
        assert forall|m: STerm| #[trigger] node_views(next@).contains(m) <==> node_views(old(next)@).contains(m)
            || adjacent(gv, n@, m) by {
            if adjacent(gv, n@, m) {
                let u = choose|u: STriple| #[trigger] gv.contains(u)
                    && ((u.subject == n@ && u.object == m) || (u.object == n@ && u.subject == m));
                if u.subject == n@ && u.object == m {
                    assert(predicate_objects_of(gv, n@).contains((u.predicate, u.object)));
                    let j = choose|j: int| 0 <= j < posv.len() && posv[j] == (u.predicate, u.object);
                    assert(mid_next.contains(m));
                } else {
                    assert(subject_predicates_of(gv, n@).contains((u.subject, u.predicate)));
                    let j = choose|j: int| 0 <= j < spsv.len() && spsv[j] == (u.subject, u.predicate);
                }
            }
            if node_views(next@).contains(m) && !node_views(old(next)@).contains(m) {
                if mid_next.contains(m) {
                    let j = choose|j: int| 0 <= j < posv.len() && posv[j].1 is Named && m == posv[j].1;
                    assert(predicate_objects_of(gv, n@).contains(posv[j]));
                    assert(gv.contains(stripple(n@, posv[j].0, posv[j].1)));
                } else {
                    let j = choose|j: int| 0 <= j < spsv.len() && spsv[j].0 is Named && m == spsv[j].0;
                    assert(subject_predicates_of(gv, n@).contains(spsv[j]));
                    assert(gv.contains(stripple(spsv[j].0, spsv[j].1, n@)));
                }
            }
        }
        assert forall|t: STriple| #[trigger] sub@.contains(t) <==> old(sub)@.contains(t) || hop_triple(gv, n@, t) by {
            if hop_triple(gv, n@, t) {
                if t.subject == n@ {
                    assert(predicate_objects_of(gv, n@).contains((t.predicate, t.object)));
                    let j = choose|j: int| 0 <= j < posv.len() && posv[j] == (t.predicate, t.object);
                    assert(mid_sub.contains(t));
                } else if t.object == n@ {
                    assert(subject_predicates_of(gv, n@).contains((t.subject, t.predicate)));
                    let j = choose|j: int| 0 <= j < spsv.len() && spsv[j] == (t.subject, t.predicate);
                } else {
                    let m = t.subject;
                    let u = choose|u: STriple| #[trigger] gv.contains(u)
                        && ((u.subject == n@ && u.object == m) || (u.object == n@ && u.subject == m));
                    if u.subject == n@ && u.object == m {
                        assert(predicate_objects_of(gv, n@).contains((u.predicate, u.object)));
                        let j = choose|j: int| 0 <= j < posv.len() && posv[j] == (u.predicate, u.object);
                        assert(mid_sub.contains(t));
                    } else {
                        assert(subject_predicates_of(gv, n@).contains((u.subject, u.predicate)));
                        let j = choose|j: int| 0 <= j < spsv.len() && spsv[j] == (u.subject, u.predicate);
                    }
                }
            }
            if sub@.contains(t) && !old(sub)@.contains(t) {
                if mid_sub.contains(t) {
                    let j = choose|j: int| 0 <= j < posv.len() && (t == stripple(n@, posv[j].0, posv[j].1)
                        || (posv[j].1 is Named && gv.contains(t) && is_type_triple_of(t, posv[j].1)));
                    assert(predicate_objects_of(gv, n@).contains(posv[j]));
                    assert(gv.contains(stripple(n@, posv[j].0, posv[j].1)));
                } else {
                    let j = choose|j: int| 0 <= j < spsv.len() && (t == stripple(spsv[j].0, spsv[j].1, n@)
                        || (spsv[j].0 is Named && gv.contains(t) && is_type_triple_of(t, spsv[j].0)));
                    assert(subject_predicates_of(gv, n@).contains(spsv[j]));
                    assert(gv.contains(stripple(spsv[j].0, spsv[j].1, n@)));
                }
            }
        }
    }
}

/// One hop of the search: visits the nodes of `current` not visited yet.
fn expand_layer(
    graph: &RdfGraph,
    current: &Vec<SubjectNode>,
    visited: &mut Vec<SubjectNode>,
    sub: &mut RdfGraph,
    Ghost(c): Ghost<STerm>,
    Ghost(hop): Ghost<nat>,
) -> (next: Vec<SubjectNode>)
    requires
        node_views(current@).no_duplicates(),
        node_views(current@).to_set() == bfs(graph@, c, hop).0,
        node_views(old(visited)@).to_set() == bfs(graph@, c, hop).1,
        forall|t: STriple| #[trigger] old(sub)@.contains(t) <==> in_hops(graph@, c, hop, t),
    ensures
        node_views(next@).no_duplicates(),
        node_views(next@).to_set() == bfs(graph@, c, hop + 1).0,
        node_views(final(visited)@).to_set() == bfs(graph@, c, hop + 1).1,
        forall|t: STriple| #[trigger] final(sub)@.contains(t) <==> in_hops(graph@, c, hop + 1, t),
{
    let ghost g = graph@;
    let ghost layer = bfs(g, c, hop).0;
    let ghost vis = bfs(g, c, hop).1;
    let ghost cv = node_views(current@);
    let mut next: Vec<SubjectNode> = Vec::new();
    for idx in 0..current.len()
        invariant
            g == graph@,
            cv == node_views(current@),
            cv.no_duplicates(),
            cv.to_set() == layer,
            layer == bfs(g, c, hop).0,
            vis == bfs(g, c, hop).1,
            node_views(visited@).to_set() == vis.union(cv.take(idx as int).to_set()),
            node_views(next@).no_duplicates(),
            forall|m: STerm| #[trigger] node_views(next@).contains(m) <==> exists|j: int| 0 <= j < idx
                && !vis.contains(cv[j]) && adjacent(g, cv[j], m),
            forall|t: STriple| #[trigger] sub@.contains(t) <==> in_hops(g, c, hop, t)
                || exists|j: int| 0 <= j < idx && !vis.contains(cv[j]) && hop_triple(g, cv[j], t),
    {
        let node = &current[idx];
        assert(cv[idx as int] == node@);
        assert(cv.take(idx + 1) =~= cv.take(idx as int).push(node@));
        let seen = has_node(visited, node);
        proof {
            assert(!cv.take(idx as int).contains(node@)) by {
                if cv.take(idx as int).contains(node@) {
                    let k = choose|k: int| 0 <= k < idx && cv.take(idx as int)[k] == node@;
                    assert(cv[k] == cv[idx as int]);
                }
            }
            lemma_to_set_contains(node_views(visited@), node@);
            lemma_to_set_contains(cv.take(idx as int), node@);
            assert(seen == vis.contains(node@));
        }
        if seen {
            assert(node_views(visited@).to_set() =~= vis.union(cv.take(idx + 1).to_set()));
            assert forall|m: STerm| #[trigger] node_views(next@).contains(m) <==> exists|j: int| 0 <= j < idx + 1
                && !vis.contains(cv[j]) && adjacent(g, cv[j], m) by {}
            assert forall|t: STriple| #[trigger] sub@.contains(t) <==> in_hops(g, c, hop, t)
                || exists|j: int| 0 <= j < idx + 1 && !vis.contains(cv[j]) && hop_triple(g, cv[j], t) by {}
        } else {
            let ghost before_v = node_views(visited@);
            visited.push(node.clone());
            assert(node_views(visited@) =~= before_v.push(node@));
            assert(node_views(visited@).to_set() =~= vis.union(cv.take(idx + 1).to_set())) by {
                assert forall|x: STerm| node_views(visited@).to_set().contains(x) <==> vis.union(cv.take(idx + 1).to_set()).contains(x) by {
                    lemma_to_set_contains(node_views(visited@), x);
                    lemma_to_set_contains(before_v, x);
                    lemma_to_set_contains(cv.take(idx + 1), x);
                    lemma_to_set_contains(cv.take(idx as int), x);
                    let t1 = cv.take(idx + 1);
                    let t0 = cv.take(idx as int);
                    if t1.contains(x) && x != node@ {
                        let k = choose|k: int| 0 <= k < t1.len() && t1[k] == x;
                        assert(t0[k] == x);
                    }
                    if t0.contains(x) {
                        let k = choose|k: int| 0 <= k < t0.len() && t0[k] == x;
                        assert(t1[k] == x);
                    }
                    if x == node@ {
                        assert(t1[idx as int] == x);
                    }
                    if node_views(visited@).contains(x) && x != node@ {
                        let k = choose|k: int| 0 <= k < node_views(visited@).len() && node_views(visited@)[k] == x;
                        assert(before_v[k] == x);
                    }
                    if before_v.contains(x) {
                        let k = choose|k: int| 0 <= k < before_v.len() && before_v[k] == x;
                        assert(node_views(visited@)[k] == x);
                    }
                    if x == node@ {
                        assert(node_views(visited@)[before_v.len() as int] == x);
                    }
                }
            }
            expand_node(graph, node, sub, &mut next);
            assert forall|m: STerm| #[trigger] node_views(next@).contains(m) <==> exists|j: int| 0 <= j < idx + 1
                && !vis.contains(cv[j]) && adjacent(g, cv[j], m) by {
                if adjacent(g, node@, m) {
                    assert(0 <= idx < idx + 1 && !vis.contains(cv[idx as int]) && adjacent(g, cv[idx as int], m));
                }
            }
            assert forall|t: STriple| #[trigger] sub@.contains(t) <==> in_hops(g, c, hop, t)
                || exists|j: int| 0 <= j < idx + 1 && !vis.contains(cv[j]) && hop_triple(g, cv[j], t) by {
                if hop_triple(g, node@, t) {
                    assert(0 <= idx < idx + 1 && !vis.contains(cv[idx as int]) && hop_triple(g, cv[idx as int], t));
                }
            }
        }
    }
    proof {
        assert(cv.take(cv.len() as int) =~= cv);
        let nxt = bfs(g, c, hop + 1);
        assert(nxt.1 == vis.union(layer));
        assert forall|m: STerm| node_views(next@).to_set().contains(m) <==> nxt.0.contains(m) by {
            if node_views(next@).contains(m) {
                let j = choose|j: int| 0 <= j < cv.len() && !vis.contains(cv[j]) && adjacent(g, cv[j], m);
                assert(layer.contains(cv[j]));
            }
            if nxt.0.contains(m) {
                let n = choose|n: STerm| layer.contains(n) && !vis.contains(n) && #[trigger] adjacent(g, n, m);
                assert(cv.contains(n));
                let j = choose|j: int| 0 <= j < cv.len() && cv[j] == n;
            }
        }
        assert(node_views(next@).to_set() =~= nxt.0);
        assert(node_views(visited@).to_set() =~= nxt.1);
        assert forall|t: STriple| #[trigger] sub@.contains(t) <==> in_hops(g, c, hop + 1, t) by {
            if in_hops(g, c, hop + 1, t) && !in_hops(g, c, hop, t) {
                let (k, n) = choose|k: nat, n: STerm| k < hop + 1 && #[trigger] expanded(g, c, k).contains(n) && #[trigger] hop_triple(g, n, t);
                assert(k == hop);
                assert(cv.contains(n));
                let j = choose|j: int| 0 <= j < cv.len() && cv[j] == n;
            }
            if sub@.contains(t) && !in_hops(g, c, hop, t) {
                let j = choose|j: int| 0 <= j < cv.len() && !vis.contains(cv[j]) && hop_triple(g, cv[j], t);
                assert(expanded(g, c, hop).contains(cv[j]));
            }
            if in_hops(g, c, hop, t) && !(g.contains(t) && is_type_triple_of(t, c)) {
                let (k, n) = choose|k: nat, n: STerm| k < hop && #[trigger] expanded(g, c, k).contains(n) && #[trigger] hop_triple(g, n, t);
                assert(k < hop + 1);
            }
        }
    }
    next
}

/// The subgraph around a node grows with the number of hops, and taking
/// the classes too only adds triples.
pub proof fn lemma_subgraph_monotone(
    g: Seq<STriple>,
    c: STerm,
    hops1: nat,
    hops2: nat,
    get_classes1: bool,
    get_classes2: bool,
    t: STriple,
)
    requires
        hops1 <= hops2,
        get_classes1 ==> get_classes2,
        in_subgraph(g, c, hops1, get_classes1, t),
    ensures
        in_subgraph(g, c, hops2, get_classes2, t),
{
    assert forall|u: STriple| in_hops(g, c, hops1, u) implies in_hops(g, c, hops2, u) by {
        if !(g.contains(u) && is_type_triple_of(u, c)) {
            let (k, n) = choose|k: nat, n: STerm| k < hops1 && #[trigger] expanded(g, c, k).contains(n)
                && #[trigger] hop_triple(g, n, u);
            assert(k < hops2 && expanded(g, c, k).contains(n) && hop_triple(g, n, u));
        }
    }
    if !in_hops(g, c, hops1, t) {
        let u = choose|u: STriple| #[trigger] in_hops(g, c, hops1, u)
            && (t.subject == u.subject || (u.object is Named && t.subject == u.object));
        assert(in_hops(g, c, hops2, u));
    }
}

/// The neighbourhood of a node is taken over edges in both directions: once
/// at least one hop is taken, every triple with the central node `c` as
/// subject or as object is in the subgraph, and so is every `rdf:type`
/// triple of a named node at the other end of such a triple.
pub proof fn lemma_subgraph_both_directions(
    g: Seq<STriple>,
    c: STerm,
    hops: nat,
    get_classes: bool,
    t: STriple,
    u: STriple,
)
    requires
        hops >= 1,
        g.contains(t),
        t.subject == c || t.object == c,
    ensures
        in_subgraph(g, c, hops, get_classes, t),
        t.object == c && t.subject is Named && g.contains(u) && is_type_triple_of(u, t.subject)
            ==> in_subgraph(g, c, hops, get_classes, u),
        t.subject == c && t.object is Named && g.contains(u) && is_type_triple_of(u, t.object)
            ==> in_subgraph(g, c, hops, get_classes, u),
{
    assert(bfs(g, c, 0) == (set![c], Set::<STerm>::empty()));
    assert(expanded(g, c, 0).contains(c));
    assert(hop_triple(g, c, t));
    assert(0 < hops && expanded(g, c, 0nat).contains(c) && hop_triple(g, c, t));
    assert(in_hops(g, c, hops, t));
    if t.object == c && t.subject is Named && g.contains(u) && is_type_triple_of(u, t.subject) {
        assert(adjacent(g, c, u.subject));
        assert(hop_triple(g, c, u));
        assert(0 < hops && expanded(g, c, 0nat).contains(c) && hop_triple(g, c, u));
        assert(in_hops(g, c, hops, u));
    }
    if t.subject == c && t.object is Named && g.contains(u) && is_type_triple_of(u, t.object) {
        assert(adjacent(g, c, u.subject));
        assert(hop_triple(g, c, u));
        assert(0 < hops && expanded(g, c, 0nat).contains(c) && hop_triple(g, c, u));
        assert(in_hops(g, c, hops, u));
    }
}

/// Inserting triples one by one grows a graph by at most one triple each.
proof fn lemma_insert_all_len(ts: Seq<STriple>)
    ensures
        insert_all(Seq::empty(), ts).len() <= ts.len(),
    decreases ts.len(),
{
    if ts.len() > 0 {
        lemma_insert_all_len(ts.drop_last());
    }
}

/// A class graph has at most as many triples as the graph it summarizes.
pub proof fn lemma_class_graph_no_larger(g: Seq<STriple>)
    ensures
        spec_class_graph(g).len() <= g.len(),
{
    lemma_insert_all_len(patterns_of(g, g));
}

/// Extracts the subgraph within `num_hops` of `central_node`: the triples
/// around each node reached, and the `rdf:type` triples of the named nodes
/// they link to; with `get_classes`, also the types of the subjects and
/// named objects of every triple collected.
pub fn subgraph_with_hops(graph: &RdfGraph, central_node: &SubjectNode, num_hops: usize, get_classes: bool)
    -> (r: Result<RdfGraph, crate::error::BschemaError>)
    ensures
        r matches Ok(sub) && forall|t: STriple| #[trigger] sub@.contains(t)
            <==> in_subgraph(graph@, central_node@, num_hops as nat, get_classes, t),
{
    let ghost g = graph@;
    let ghost c = central_node@;
    let mut sub = RdfGraph::empty();
    add_types(graph, central_node, &mut sub);
    let mut visited: Vec<SubjectNode> = Vec::new();
    let mut current: Vec<SubjectNode> = Vec::new();
    current.push(central_node.clone());
    proof {
        assert(node_views(current@) =~= seq![c]);
        assert forall|x: STerm| node_views(current@).to_set().contains(x) <==> set![c].contains(x) by {
            lemma_to_set_contains(node_views(current@), x);
            if x == c {
                assert(node_views(current@)[0] == x);
            }
        }
        assert(node_views(current@).to_set() =~= set![c]);
        assert(node_views(visited@).to_set() =~= Set::<STerm>::empty());
        assert forall|t: STriple| #[trigger] sub@.contains(t) <==> in_hops(g, c, 0, t) by {}
    }
    for hop in 0..num_hops
        invariant
            g == graph@,
            c == central_node@,
            node_views(current@).no_duplicates(),
            node_views(current@).to_set() == bfs(g, c, hop as nat).0,
            node_views(visited@).to_set() == bfs(g, c, hop as nat).1,
            forall|t: STriple| #[trigger] sub@.contains(t) <==> in_hops(g, c, hop as nat, t),
    {
        let next = expand_layer(graph, &current, &mut visited, &mut sub, Ghost(c), Ghost(hop as nat));
        current = next;
    }
    if get_classes {
        let snapshot = sub.triples();
        let ghost base = sub@;
        for i in 0..snapshot.len()
            invariant
                g == graph@,
                triple_views(snapshot@) == base,
                forall|t: STriple| #[trigger] base.contains(t) <==> in_hops(g, c, num_hops as nat, t),
                forall|t: STriple| #[trigger] sub@.contains(t) <==> base.contains(t) || exists|j: int| 0 <= j < i
                    && g.contains(t) && (is_type_triple_of(t, base[j].subject)
                        || (base[j].object is Named && is_type_triple_of(t, base[j].object))),
        {
            let t = &snapshot[i];
            assert(base[i as int] == t@);
            add_types(graph, &t.subject, &mut sub);
            if let RdfTerm::Iri(o) = &t.object {
                add_types(graph, &SubjectNode::Iri(o.clone()), &mut sub);
            }
            assert forall|u: STriple| #[trigger] sub@.contains(u) <==> base.contains(u) || exists|j: int| 0 <= j < i + 1
                && g.contains(u) && (is_type_triple_of(u, base[j].subject)
                    || (base[j].object is Named && is_type_triple_of(u, base[j].object))) by {
                if g.contains(u) && (is_type_triple_of(u, t@.subject) || (t@.object is Named && is_type_triple_of(u, t@.object))) {
                    assert(0 <= i < i + 1);
                }
            }
        }
        proof {
            assert forall|t: STriple| #[trigger] sub@.contains(t) <==> in_subgraph(g, c, num_hops as nat, get_classes, t) by {
                if sub@.contains(t) && !base.contains(t) {
                    let j = choose|j: int| 0 <= j < base.len() && g.contains(t) && (is_type_triple_of(t, base[j].subject)
                        || (base[j].object is Named && is_type_triple_of(t, base[j].object)));
                    assert(base.contains(base[j]));
                    assert(in_hops(g, c, num_hops as nat, base[j]));
                }
                if in_subgraph(g, c, num_hops as nat, get_classes, t) && !in_hops(g, c, num_hops as nat, t) {
                    let u = choose|u: STriple| #[trigger] in_hops(g, c, num_hops as nat, u)
                        && (t.subject == u.subject || (u.object is Named && t.subject == u.object));
                    assert(base.contains(u));
                    let j = choose|j: int| 0 <= j < base.len() && base[j] == u;
                }
            }
        }
    }
    Ok(sub)
}

} // verus!
