//! Grouping of subjects by the class pattern of their one-hop
//! surroundings: exactly equal patterns, or, with a similarity threshold,
//! patterns that overlap enough.

use vstd::prelude::*;
use rayon::iter::{IntoParallelRefIterator, ParallelIterator};
use crate::algorithm::{
    add_node, class_graph, get_class, has_node, in_subgraph, node_views, spec_class_graph, spec_get_class,
    subgraph_with_hops,
};
use crate::canon::{canon_view, canonical, canonicalize, named_key, named_node_key, CanonSet, CanonTriple, SCanon};
use crate::error::BschemaError;
use crate::graph::{triple_views, RdfGraph};
use crate::model::{Iri, STerm, STriple, SubjectNode};
use crate::namespace::{RDFS_LITERAL_IRI, RDF_TYPE_IRI};
use crate::order::{
    key_view, keyed_views, lemma_stable_sort_elements, lemma_stable_sort_payload, payload_map, reverse_vec, sort_keyed,
    stable_sort,
};

verus! {

/// A similarity threshold: `exceeds(common, smaller)` tells whether
/// `common` shared pattern triples, out of the `smaller` of two pattern
/// sizes (at least 1), are overlap enough to merge; `single_pass` says the
/// threshold is zero, which stops relabeling after one pass.
pub struct SimilarityThreshold<F> {
    pub exceeds: F,
    pub single_pass: bool,
}

/// `f` can be called on any two counts and answers each the same way.
pub open spec fn is_decision<F: Fn(usize, usize) -> bool>(f: F) -> bool {
    &&& forall|i: usize, s: usize| call_requires(f, (i, s))
    &&& forall|i: usize, s: usize, r1: bool, r2: bool|
        call_ensures(f, (i, s), r1) && call_ensures(f, (i, s), r2) ==> r1 == r2
}

/// The answer of `f` on `(i, s)`.
pub open spec fn decide<F: Fn(usize, usize) -> bool>(f: F, i: nat, s: nat) -> bool {
    choose|r: bool| #[trigger] call_ensures(f, (i as usize, s as usize), r)
}

/// The decision of an optional threshold.
pub open spec fn threshold_decision<F: Fn(usize, usize) -> bool>(t: Option<&SimilarityThreshold<F>>) -> Option<spec_fn(nat, nat) -> bool> {
    match t {
        Some(th) => Some(|i: nat, s: nat| decide(th.exceeds, i, s)),
        None => None,
    }
}

/// The size of the smaller of two patterns, at least 1.
pub open spec fn smaller_len(p: Set<SCanon>, e: Set<SCanon>) -> nat {
    let m = if p.len() < e.len() { p.len() } else { e.len() };
    if m < 1 { 1 } else { m }
}

/// With a threshold, overlap is measured against the smaller pattern: the
/// decision is asked about the shared triples and a size `n` that is at
/// least one and no larger than either pattern (when not empty). So a
/// pattern contained in the other matches exactly when the decision accepts
/// its own size against itself.
pub proof fn lemma_overlap_against_smaller(p: Set<SCanon>, e: Set<SCanon>, f: spec_fn(nat, nat) -> bool)
    requires
        p.finite(),
        e.finite(),
    ensures
        exists|n: nat| #![trigger f(p.intersect(e).len(), n)] {
            &&& overlap_matches(p, e, Some(f)) == f(p.intersect(e).len(), n)
            &&& n >= 1
            &&& (p.len() >= 1 ==> n <= p.len())
            &&& (e.len() >= 1 ==> n <= e.len())
            &&& (n == p.len() || n == e.len() || n == 1)
        },
        p.subset_of(e) ==> overlap_matches(p, e, Some(f)) == f(p.len(), if p.len() < 1 { 1 } else { p.len() }),
        e.subset_of(p) ==> overlap_matches(p, e, Some(f)) == f(e.len(), if e.len() < 1 { 1 } else { e.len() }),
{
    let n = smaller_len(p, e);
    assert(overlap_matches(p, e, Some(f)) == f(p.intersect(e).len(), n));
    if p.subset_of(e) {
        assert(p.intersect(e) =~= p);
        vstd::set_lib::lemma_len_subset(p, e);
    }
    if e.subset_of(p) {
        assert(p.intersect(e) =~= e);
        vstd::set_lib::lemma_len_subset(e, p);
    }
}

/// Pattern `p` matches the pattern `e` of a group: equal without a
/// threshold, else as the threshold decides on their overlap.
pub open spec fn overlap_matches(p: Set<SCanon>, e: Set<SCanon>, d: Option<spec_fn(nat, nat) -> bool>) -> bool {
    match d {
        None => p == e,
        Some(f) => f(p.intersect(e).len(), smaller_len(p, e)),
    }
}

/// The groups found so far: the pattern, members and class of each.
#[verifier::ext_equal]
pub struct SGroups {
    pub patterns: Seq<Set<SCanon>>,
    pub members: Seq<Seq<STerm>>,
    pub classes: Seq<Seq<char>>,
}

/// The first of the first `n` groups with class `c` whose pattern `p`
/// matches, or -1.
pub open spec fn first_match(gs: SGroups, c: Seq<char>, p: Set<SCanon>, d: Option<spec_fn(nat, nat) -> bool>, n: nat) -> int
    decreases n,
{
    if n == 0 {
        -1
    } else {
        let r = first_match(gs, c, p, d, (n - 1) as nat);
        if r >= 0 {
            r
        } else if gs.classes[n - 1] == c && overlap_matches(p, gs.patterns[n - 1], d) {
            n - 1
        } else {
            -1
        }
    }
}

/// Adds subject `s` of class `c` and pattern `p`: to the first matching
/// group of its class, or as a new group.
pub open spec fn group_step(gs: SGroups, s: STerm, c: Seq<char>, p: Set<SCanon>, d: Option<spec_fn(nat, nat) -> bool>) -> SGroups {
    let i = first_match(gs, c, p, d, gs.classes.len());
    if i >= 0 {
        SGroups { members: gs.members.update(i, gs.members[i].push(s)), ..gs }
    } else {
        SGroups {
            patterns: gs.patterns.push(p),
            members: gs.members.push(seq![s]),
            classes: gs.classes.push(c),
        }
    }
}

/// The groups of a sequence of `(subject, class, pattern)` signatures,
/// added in order.
pub open spec fn spec_group(sigs: Seq<(STerm, Seq<char>, Set<SCanon>)>, d: Option<spec_fn(nat, nat) -> bool>) -> SGroups
    decreases sigs.len(),
{
    if sigs.len() == 0 {
        SGroups { patterns: Seq::empty(), members: Seq::empty(), classes: Seq::empty() }
    } else {
        let gs = spec_group(sigs.drop_last(), d);
        group_step(gs, sigs.last().0, sigs.last().1, sigs.last().2, d)
    }
}

proof fn lemma_first_match_stays(gs: SGroups, c: Seq<char>, p: Set<SCanon>, d: Option<spec_fn(nat, nat) -> bool>, m: nat, n: nat)
    requires
        m <= n,
        first_match(gs, c, p, d, m) >= 0,
    ensures
        first_match(gs, c, p, d, n) == first_match(gs, c, p, d, m),
    decreases n - m,
{
    if m < n {
        lemma_first_match_stays(gs, c, p, d, m, (n - 1) as nat);
    }
}

/// A subject with its class and the canonical class pattern of its one-hop
/// subgraph.
pub struct SubjectSignature {
    pub subject: SubjectNode,
    pub class: Iri,
    pub pattern: CanonSet,
}

impl View for SubjectSignature {
    type V = (STerm, Seq<char>, Set<SCanon>);

    open spec fn view(&self) -> (STerm, Seq<char>, Set<SCanon>) {
        (self.subject@, self.class@, self.pattern@)
    }
}

/// `<literal> a rdfs:Literal` in canonical form: the marker that
/// skolemization gives every literal, the same for all of them, and so of no
/// use to tell patterns apart.
pub open spec fn literal_marker_canon() -> SCanon {
    (named_key(RDFS_LITERAL_IRI@), named_key(RDF_TYPE_IRI@), named_key(RDFS_LITERAL_IRI@))
}

/// The literal marker as a canonical triple.
fn literal_marker_canon_triple() -> (r: CanonTriple)
    ensures
        canon_view(r) == literal_marker_canon(),
{
    (named_node_key(RDFS_LITERAL_IRI), named_node_key(RDF_TYPE_IRI), named_node_key(RDFS_LITERAL_IRI))
}

/// `sig` is the signature of subject `s` in `g`: `s`, its class, and the
/// canonical form of the class graph of its one-hop subgraph (the graph of
/// the triples within one hop, in some enumeration order) without the
/// literal marker.
pub open spec fn signature_of(g: Seq<STriple>, s: STerm, sig: (STerm, Seq<char>, Set<SCanon>)) -> bool {
    &&& sig.0 == s
    &&& sig.1 == spec_get_class(s, g)
    &&& exists|sub: Seq<STriple>, c: Set<SCanon>|
        #![trigger canonical(spec_class_graph(sub), c)]
        (forall|t: STriple| #[trigger] sub.contains(t) <==> in_subgraph(g, s, 1, false, t))
        && canonical(spec_class_graph(sub), c)
        && sig.2 == c.remove(literal_marker_canon())
}

/// The signature of subject `s` in `data_graph`.
pub fn subject_signature(data_graph: &RdfGraph, s: &SubjectNode) -> (r: SubjectSignature)
    ensures
        signature_of(data_graph@, s@, r@),
{
    let class = get_class(&s.to_term(), data_graph);
    let sub = match subgraph_with_hops(data_graph, s, 1, false) {
        Ok(g) => g,
        Err(_) => RdfGraph::empty(),
    };
    let cg = match class_graph(&sub) {
        Ok(g) => g,
        Err(_) => RdfGraph::empty(),
    };
    let ts = cg.triples();
    let full = canonicalize(ts.as_slice());
    let marker = literal_marker_canon_triple();
    let pattern = full.without(&marker);
    let r = SubjectSignature { subject: s.clone(), class, pattern };
    proof {
        assert(canonical(spec_class_graph(sub@), full@));
        assert(r@.2 == full@.remove(literal_marker_canon()));
    }
    r
}

/// The signatures of `subjects`, computed in parallel with rayon
/// (`par_iter`, `map`, `collect` into a `Vec`, which keeps the order of the
/// input): the `i`-th is what `subject_signature` gives for the `i`-th
/// subject.
#[verifier::external_body]
fn par_signatures(data_graph: &RdfGraph, subjects: &Vec<SubjectNode>) -> (r: Vec<SubjectSignature>)
    ensures
        r@.len() == subjects@.len(),
        forall|i: int| #![trigger r@[i]] 0 <= i < subjects@.len() ==> signature_of(data_graph@, subjects@[i]@, r@[i]@),
{
    subjects.par_iter().map(|s| subject_signature(data_graph, s)).collect()
}

/// The subjects of `ts`, each once, in order of first occurrence.
pub open spec fn distinct_subjects(ts: Seq<STriple>) -> Seq<STerm>
    decreases ts.len(),
{
    if ts.len() == 0 {
        Seq::empty()
    } else {
        let r = distinct_subjects(ts.drop_last());
        if r.contains(ts.last().subject) {
            r
        } else {
            r.push(ts.last().subject)
        }
    }
}

/// The key by which nodes are ordered: the IRI or the blank node label.
pub open spec fn node_key_of(n: STerm) -> Seq<char> {
    match n {
        STerm::Named(iri) => iri,
        STerm::Blank(id) => id,
        STerm::Lit(v, _, _) => v,
    }
}

/// A node with its sort key.
pub open spec fn keyed_node(n: STerm) -> (Seq<Seq<char>>, STerm) {
    (seq![node_key_of(n)], n)
}

/// `s` sorted by key, stably (nodes with equal keys keep their order).
pub open spec fn sorted_nodes(s: Seq<STerm>) -> Seq<STerm> {
    stable_sort(s.map_values(|n: STerm| keyed_node(n))).map_values(|e: (Seq<Seq<char>>, STerm)| e.1)
}

/// The subjects of `g`, each once, sorted by key (nodes with equal keys in
/// order of first occurrence).
pub open spec fn sorted_subjects(g: Seq<STriple>) -> Seq<STerm> {
    sorted_nodes(distinct_subjects(g))
}

/// The IRI of a named node, the label of a blank node.
pub fn node_key(n: &SubjectNode) -> (r: String)
    ensures
        r@ == node_key_of(n@),
{
    match n {
        SubjectNode::Iri(i) => i.iri.clone(),
        SubjectNode::Blank(b) => b.id.clone(),
    }
}

/// The subjects of `g`, each once, sorted by key.
pub fn subjects_by_key(g: &RdfGraph) -> (r: Vec<SubjectNode>)
    ensures
        node_views(r@) == sorted_subjects(g@),
{
    let ts = g.triples();
    let ghost gv = g@;
    let mut distinct: Vec<SubjectNode> = Vec::new();
    for i in 0..ts.len()
        invariant
            triple_views(ts@) == gv,
            node_views(distinct@) == distinct_subjects(gv.take(i as int)),
    {
        assert(gv.take(i + 1).drop_last() =~= gv.take(i as int));
        assert(gv[i as int] == ts@[i as int]@);
        if !has_node(&distinct, &ts[i].subject) {
            let ghost before = node_views(distinct@);
            distinct.push(ts[i].subject.clone());
            assert(node_views(distinct@) =~= before.push(ts@[i as int].subject@));
        }
    }
    assert(gv.take(gv.len() as int) =~= gv);
    sort_nodes(&distinct)
}

/// `v` sorted by key, stably.
pub fn sort_nodes(distinct: &Vec<SubjectNode>) -> (r: Vec<SubjectNode>)
    ensures
        node_views(r@) == sorted_nodes(node_views(distinct@)),
{
    let ghost dv = node_views(distinct@);
    let ghost kx = Seq::new(dv.len(), |i: int| (seq![node_key_of(dv[i])], i as usize));
    let mut keyed: Vec<(Vec<String>, usize)> = Vec::new();
    for i in 0..distinct.len()
        invariant
            dv == node_views(distinct@),
            kx == Seq::new(dv.len(), |i: int| (seq![node_key_of(dv[i])], i as usize)),
            keyed_views(keyed@) == kx.take(i as int),
    {
        let k = node_key(&distinct[i]);
        let ghost kv = k@;
        assert(dv[i as int] == distinct@[i as int]@);
        let key = vec![k];
        assert(key_view(key@) =~= seq![kv]);
        let ghost before = keyed_views(keyed@);
        keyed.push((key, i));
        assert(kx[i as int] == (seq![kv], i));
        assert(keyed_views(keyed@) =~= before.push((seq![kv], i)));
        assert(keyed_views(keyed@) =~= kx.take(i + 1));
    }
    assert(kx.take(dv.len() as int) =~= kx);
    let sorted = sort_keyed(keyed);
    let ghost ss = stable_sort(kx);
    let ghost pick = |j: usize| dv[j as int];
    proof {
        lemma_stable_sort_elements(kx);
        assert forall|j: int| 0 <= j < ss.len() implies #[trigger] ss[j].1 < dv.len() by {
            assert(kx.contains(ss[j]));
        }
    }
    let mut r: Vec<SubjectNode> = Vec::new();
    for i in 0..sorted.len()
        invariant
            keyed_views(sorted@) == ss,
            dv == node_views(distinct@),
            pick == (|j: usize| dv[j as int]),
            forall|j: int| 0 <= j < ss.len() ==> #[trigger] ss[j].1 < dv.len(),
            node_views(r@) == ss.take(i as int).map_values(|e: (Seq<Seq<char>>, usize)| pick(e.1)),
    {
        assert(keyed_views(sorted@)[i as int].1 == sorted@[i as int].1);
        let k = sorted[i].1;
        assert(k == ss[i as int].1);
        assert(k < dv.len());
        assert(dv[k as int] == distinct@[k as int]@);
        let ghost before = node_views(r@);
        r.push(distinct[k].clone());
        assert(node_views(r@) =~= before.push(pick(k)));
        assert(node_views(r@) =~= ss.take(i + 1).map_values(|e: (Seq<Seq<char>>, usize)| pick(e.1)));
    }
    proof {
        assert(ss.take(ss.len() as int) =~= ss);
        lemma_stable_sort_payload(kx, pick);
        assert(payload_map(kx, pick) =~= dv.map_values(|n: STerm| keyed_node(n)));
        assert(node_views(r@) =~= sorted_nodes(dv));
    }
    r
}

/// The groups of subjects: for each, the class pattern of its first member,
/// its members, and its class.
pub struct ClassIsomorphisms {
    pub distinct_class_subgraphs: Vec<CanonSet>,
    pub equivalent_subjects: Vec<Vec<SubjectNode>>,
    pub subject_classes: Vec<Iri>,
}

impl View for ClassIsomorphisms {
    type V = SGroups;

    open spec fn view(&self) -> SGroups {
        SGroups {
            patterns: self.distinct_class_subgraphs@.map_values(|c: CanonSet| c@),
            members: self.equivalent_subjects@.map_values(|v: Vec<SubjectNode>| node_views(v@)),
            classes: self.subject_classes@.map_values(|n: Iri| n@),
        }
    }
}

/// Whether signature pattern `p` matches group pattern `e`.
fn patterns_match<F: Fn(usize, usize) -> bool>(p: &CanonSet, e: &CanonSet, threshold: Option<&SimilarityThreshold<F>>) -> (r: bool)
    requires
        threshold matches Some(t) ==> is_decision(t.exceeds),
    ensures
        r == overlap_matches(p@, e@, threshold_decision(threshold)),
{
    match threshold {
        None => p.same_as(e),
        Some(t) => {
            let common = p.intersection_count(e);
            let lp = p.len();
            let le = e.len();
            let m = if lp < le { lp } else { le };
            let smaller = if m < 1 { 1 } else { m };
            let r = (t.exceeds)(common, smaller);
            assert(call_ensures(t.exceeds, (common, smaller), r));
            assert(decide(t.exceeds, common as nat, smaller as nat) == r);
            r
        },
    }
}

/// Groups signatures in order: each subject joins the first group of its
/// class whose pattern its own matches, or starts a new group.
pub fn group_signatures<F: Fn(usize, usize) -> bool>(sigs: Vec<SubjectSignature>, threshold: Option<&SimilarityThreshold<F>>)
    -> (r: ClassIsomorphisms)
    requires
        threshold matches Some(t) ==> is_decision(t.exceeds),
    ensures
        r@ == spec_group(sigs@.map_values(|s: SubjectSignature| s@), threshold_decision(threshold)),
{
    let ghost sv = sigs@.map_values(|s: SubjectSignature| s@);
    let ghost d = threshold_decision(threshold);
    let ghost n = sigs@.len();
    let mut pending = reverse_vec(sigs);
    let mut out = ClassIsomorphisms {
        distinct_class_subgraphs: Vec::new(),
        equivalent_subjects: Vec::new(),
        subject_classes: Vec::new(),
    };
    assert(out@ =~= spec_group(sv.take(0), d));
    while pending.len() > 0
        invariant
            threshold matches Some(t) ==> is_decision(t.exceeds),
            d == threshold_decision(threshold),
            pending@.len() <= n,
            sv.len() == n,
            forall|k: int| 0 <= k < pending@.len() ==> #[trigger] pending@[k]@ == sv[n - 1 - k],
            out@ == spec_group(sv.take(n - pending@.len()), d),
            out.distinct_class_subgraphs@.len() == out.subject_classes@.len(),
            out.equivalent_subjects@.len() == out.subject_classes@.len(),
        decreases pending@.len(),
    {
        let ghost done = n - pending@.len();
        let ghost old_pending = pending@;
        let sig = pending.pop().unwrap();
        assert(sig == old_pending[old_pending.len() - 1]);
        assert(sig@ == sv[done]);
        assert(pending@ =~= old_pending.drop_last());
        assert(sv.take(done + 1).drop_last() =~= sv.take(done));
        let ghost gs = out@;
        let ngroups = out.subject_classes.len();
        let mut i: usize = 0;
        let mut found: Option<usize> = None;
        while i < ngroups && found.is_none()
            invariant
                threshold matches Some(t) ==> is_decision(t.exceeds),
                d == threshold_decision(threshold),
                gs == out@,
                ngroups == out.subject_classes@.len(),
                out.distinct_class_subgraphs@.len() == ngroups,
                i <= ngroups,
                found is None ==> first_match(gs, sig.class@, sig.pattern@, d, i as nat) == -1,
                found matches Some(f) ==> f < ngroups && first_match(gs, sig.class@, sig.pattern@, d, ngroups as nat) == f,
            decreases ngroups - i + (if found is None { 1int } else { 0int }),
        {
            assert(gs.classes[i as int] == out.subject_classes@[i as int]@);
            assert(gs.patterns[i as int] == out.distinct_class_subgraphs@[i as int]@);
            if out.subject_classes[i].equals(&sig.class)
                && patterns_match(&sig.pattern, &out.distinct_class_subgraphs[i], threshold) {
                proof {
                    assert(first_match(gs, sig.class@, sig.pattern@, d, (i + 1) as nat) == i);
                    lemma_first_match_stays(gs, sig.class@, sig.pattern@, d, (i + 1) as nat, ngroups as nat);
                }
                found = Some(i);
            } else {
                i = i + 1;
            }
        }
        match found {
            Some(f) => {
                let mut members = out.equivalent_subjects.remove(f);
                let ghost old_members = node_views(members@);
                members.push(sig.subject);
                assert(node_views(members@) =~= old_members.push(sig@.0));
                out.equivalent_subjects.insert(f, members);
                proof {
                    assert(out@.members =~= gs.members.update(f as int, gs.members[f as int].push(sig@.0)));
                    assert(out@.patterns =~= gs.patterns);
                    assert(out@.classes =~= gs.classes);
                }
            },
            None => {
                proof {
                    assert(first_match(gs, sig.class@, sig.pattern@, d, ngroups as nat) == -1);
                }
                let ghost sview = sig@;
                let SubjectSignature { subject, class, pattern } = sig;
                out.distinct_class_subgraphs.push(pattern);
                let members = vec![subject];
                assert(node_views(members@) =~= seq![sview.0]);
                out.equivalent_subjects.push(members);
                out.subject_classes.push(class);
                proof {
                    assert(out@.members =~= gs.members.push(seq![sview.0]));
                    assert(out@.patterns =~= gs.patterns.push(sview.2));
                    assert(out@.classes =~= gs.classes.push(sview.1));
                }
            },
        }
        assert(out@ == spec_group(sv.take(done + 1), d));
        assert forall|k: int| 0 <= k < pending@.len() implies #[trigger] pending@[k]@ == sv[n - 1 - k] by {
            assert(pending@[k] == old_pending[k]);
        }
    }
    assert(sv.take(n as int) =~= sv);
    out
}

/// `gs` groups the subjects of `g`: the subjects sorted by key, each with
/// its signature, are grouped in that order.
pub open spec fn groups_subjects(g: Seq<STriple>, d: Option<spec_fn(nat, nat) -> bool>, gs: SGroups) -> bool {
    exists|sigs: Seq<(STerm, Seq<char>, Set<SCanon>)>|
        #![trigger spec_group(sigs, d)]
        sigs.len() == sorted_subjects(g).len()
        && (forall|i: int| 0 <= i < sigs.len() ==> signature_of(g, sorted_subjects(g)[i], #[trigger] sigs[i]))
        && gs == spec_group(sigs, d)
}

/// Groups the subjects of `data_graph` by the class pattern of their
/// one-hop subgraph: taken in order of their keys, each joins the first
/// group of its class whose pattern its own equals (or, with a threshold,
/// overlaps enough), else starts a new group.
pub fn class_isomorphisms<F: Fn(usize, usize) -> bool>(
    data_graph: &RdfGraph,
    similarity_threshold: Option<&SimilarityThreshold<F>>,
) -> (r: Result<ClassIsomorphisms, BschemaError>)
    requires
        similarity_threshold matches Some(t) ==> is_decision(t.exceeds),
    ensures
        r matches Ok(ci) && groups_subjects(data_graph@, threshold_decision(similarity_threshold), ci@),
{
    let ghost g = data_graph@;
    let subjects = subjects_by_key(data_graph);
    let sigs = par_signatures(data_graph, &subjects);
    let ghost sv = sigs@.map_values(|s: SubjectSignature| s@);
    let r = group_signatures(sigs, similarity_threshold);
    proof {
        assert forall|i: int| 0 <= i < sv.len() implies signature_of(g, sorted_subjects(g)[i], #[trigger] sv[i]) by {
            assert(sorted_subjects(g)[i] == node_views(subjects@)[i]);
        }
        assert(sv.len() == sorted_subjects(g).len());
    }
    Ok(r)
}

/// The groups are well formed: one pattern, member list and class per
/// group, and no group without members.
pub open spec fn groups_wf(gs: SGroups) -> bool {
    &&& gs.patterns.len() == gs.members.len()
    &&& gs.classes.len() == gs.members.len()
    &&& forall|i: int| 0 <= i < gs.members.len() ==> (#[trigger] gs.members[i]).len() > 0
}

/// Member `j` of group `i` is the subject of a signature of the group's
/// class and, without a threshold, of the group's pattern.
pub open spec fn member_from(
    sigs: Seq<(STerm, Seq<char>, Set<SCanon>)>,
    gs: SGroups,
    d: Option<spec_fn(nat, nat) -> bool>,
    i: int,
    j: int,
) -> bool {
    exists|k: int|
        0 <= k < sigs.len() && (#[trigger] sigs[k]).0 == gs.members[i][j] && sigs[k].1 == gs.classes[i]
            && (d is None ==> sigs[k].2 == gs.patterns[i])
}

/// The subjects of the signatures, in order.
pub open spec fn sig_subjects(sigs: Seq<(STerm, Seq<char>, Set<SCanon>)>) -> Seq<STerm> {
    sigs.map_values(|s: (STerm, Seq<char>, Set<SCanon>)| s.0)
}

proof fn lemma_first_match_found(gs: SGroups, c: Seq<char>, p: Set<SCanon>, d: Option<spec_fn(nat, nat) -> bool>, n: nat)
    requires
        first_match(gs, c, p, d, n) >= 0,
    ensures
        first_match(gs, c, p, d, n) < n,
        gs.classes[first_match(gs, c, p, d, n)] == c,
        overlap_matches(p, gs.patterns[first_match(gs, c, p, d, n)], d),
    decreases n,
{
    if n > 0 && first_match(gs, c, p, d, (n - 1) as nat) >= 0 {
        lemma_first_match_found(gs, c, p, d, (n - 1) as nat);
    }
}

proof fn lemma_first_match_none(gs: SGroups, c: Seq<char>, p: Set<SCanon>, d: Option<spec_fn(nat, nat) -> bool>, n: nat)
    requires
        first_match(gs, c, p, d, n) < 0,
    ensures
        forall|i: int| 0 <= i < n ==> !(gs.classes[i] == c && overlap_matches(p, #[trigger] gs.patterns[i], d)),
    decreases n,
{
    if n > 0 {
        if first_match(gs, c, p, d, (n - 1) as nat) >= 0 {
            lemma_first_match_found(gs, c, p, d, (n - 1) as nat);
        } else {
            lemma_first_match_none(gs, c, p, d, (n - 1) as nat);
        }
    }
}

/// Without a threshold no two groups share both class and pattern: grouping
/// puts subjects with the same class and the same pattern together.
pub proof fn lemma_groups_distinct(sigs: Seq<(STerm, Seq<char>, Set<SCanon>)>)
    ensures
        spec_group(sigs, None).classes.len() == spec_group(sigs, None).patterns.len(),
        forall|i: int, j: int| 0 <= i < j < spec_group(sigs, None).classes.len()
            ==> !(spec_group(sigs, None).classes[i] == spec_group(sigs, None).classes[j]
                && #[trigger] spec_group(sigs, None).patterns[i] == #[trigger] spec_group(sigs, None).patterns[j]),
    decreases sigs.len(),
{
    if sigs.len() > 0 {
        lemma_groups_distinct(sigs.drop_last());
        let gs = spec_group(sigs.drop_last(), None);
        let (s, c, p) = sigs.last();
        let n = gs.classes.len();
        if first_match(gs, c, p, None, n) < 0 {
            lemma_first_match_none(gs, c, p, None, n);
            let g2 = spec_group(sigs, None);
            assert forall|i: int, j: int| 0 <= i < j < g2.classes.len()
                implies !(g2.classes[i] == g2.classes[j] && #[trigger] g2.patterns[i] == #[trigger] g2.patterns[j]) by {
                if j == n {
                    assert(g2.classes[i] == gs.classes[i] && g2.patterns[i] == gs.patterns[i]);
                    assert(!(gs.classes[i] == c && overlap_matches(p, gs.patterns[i], None)));
                } else {
                    assert(g2.patterns[i] == gs.patterns[i] && g2.patterns[j] == gs.patterns[j]);
                }
            }
        }
    }
}

proof fn lemma_flatten_update_push<A>(ms: Seq<Seq<A>>, i: int, x: A)
    requires
        0 <= i < ms.len(),
    ensures
        ms.update(i, ms[i].push(x)).flatten().to_multiset() == ms.flatten().to_multiset().insert(x),
    decreases ms.len(),
{
    broadcast use vstd::seq_lib::group_to_multiset_ensures, vstd::seq_lib::lemma_multiset_commutative, Seq::lemma_flatten_push;

    let init = ms.drop_last();
    assert(init.push(ms.last()) =~= ms);
    if i == ms.len() - 1 {
        assert(ms.update(i, ms[i].push(x)) =~= init.push(ms[i].push(x)));
        assert(init.flatten() + ms[i].push(x) =~= (init.flatten() + ms[i]).push(x));
    } else {
        lemma_flatten_update_push(init, i, x);
        assert(ms.update(i, ms[i].push(x)) =~= init.update(i, init[i].push(x)).push(ms.last()));
        let a = init.flatten().to_multiset();
        let b = ms.last().to_multiset();
        assert(a.insert(x).add(b) =~= a.add(b).insert(x)) by {
            broadcast use vstd::multiset::group_multiset_axioms;
        }
    }
}

/// Grouping places each signature's subject exactly once: taken together,
/// the members of all groups are the subjects of the signatures (counted
/// with repeats); every group has members, and each member is the subject
/// of a signature of its group's class and, without a threshold, of its
/// group's pattern.
pub proof fn lemma_group_partition(sigs: Seq<(STerm, Seq<char>, Set<SCanon>)>, d: Option<spec_fn(nat, nat) -> bool>)
    ensures
        groups_wf(spec_group(sigs, d)),
        spec_group(sigs, d).members.flatten().to_multiset() == sig_subjects(sigs).to_multiset(),
        forall|i: int, j: int|
            0 <= i < spec_group(sigs, d).members.len() && 0 <= j < spec_group(sigs, d).members[i].len()
                ==> #[trigger] member_from(sigs, spec_group(sigs, d), d, i, j),
    decreases sigs.len(),
{
    broadcast use vstd::seq_lib::group_to_multiset_ensures, vstd::seq_lib::lemma_multiset_commutative, Seq::lemma_flatten_push;

    if sigs.len() == 0 {
        assert(sig_subjects(sigs) =~= Seq::<STerm>::empty());
        assert(spec_group(sigs, d).members.flatten() =~= Seq::<STerm>::empty());
    } else {
        let init = sigs.drop_last();
        lemma_group_partition(init, d);
        let gs = spec_group(init, d);
        let s = sigs.last().0;
        let c = sigs.last().1;
        let p = sigs.last().2;
        let n = sigs.len() - 1;
        assert(sigs[n] == sigs.last());
        let r = first_match(gs, c, p, d, gs.classes.len());
        let gs2 = spec_group(sigs, d);
        assert(gs2 == group_step(gs, s, c, p, d));
        assert(sig_subjects(sigs) =~= sig_subjects(init).push(s));
        if r >= 0 {
            lemma_first_match_found(gs, c, p, d, gs.classes.len());
            lemma_flatten_update_push(gs.members, r, s);
            assert(gs2.members == gs.members.update(r, gs.members[r].push(s)));
            assert forall|i: int, j: int| 0 <= i < gs2.members.len() && 0 <= j < gs2.members[i].len()
                implies #[trigger] member_from(sigs, gs2, d, i, j) by {
                if i == r && j == gs.members[r].len() {
                    assert(sigs[n].0 == gs2.members[i][j]);
                } else {
                    assert(gs2.members[i][j] == gs.members[i][j]);
                    assert(member_from(init, gs, d, i, j));
                    let k = choose|k: int|
                        0 <= k < init.len() && (#[trigger] init[k]).0 == gs.members[i][j] && init[k].1 == gs.classes[i]
                            && (d is None ==> init[k].2 == gs.patterns[i]);
                    assert(sigs[k] == init[k]);
                }
            }
        } else {
            assert(gs2.members == gs.members.push(seq![s]));
            assert(gs2.members.flatten() =~= gs.members.flatten() + seq![s]);
            assert(gs.members.flatten() + seq![s] =~= gs.members.flatten().push(s));
            assert forall|i: int, j: int| 0 <= i < gs2.members.len() && 0 <= j < gs2.members[i].len()
                implies #[trigger] member_from(sigs, gs2, d, i, j) by {
                if i == gs.members.len() {
                    assert(sigs[n].0 == gs2.members[i][j]);
                } else {
                    assert(gs2.members[i] == gs.members[i]);
                    assert(member_from(init, gs, d, i, j));
                    let k = choose|k: int|
                        0 <= k < init.len() && (#[trigger] init[k]).0 == gs.members[i][j] && init[k].1 == gs.classes[i]
                            && (d is None ==> init[k].2 == gs.patterns[i]);
                    assert(sigs[k] == init[k]);
                }
            }
        }
    }
}

/// Mapping two sequences that hold the same elements, each as often,
/// gives two that hold the same elements, each as often.
pub proof fn lemma_map_multiset<A, B>(a: Seq<A>, b: Seq<A>, f: spec_fn(A) -> B)
    requires
        a.to_multiset() == b.to_multiset(),
    ensures
        a.map_values(f).to_multiset() == b.map_values(f).to_multiset(),
    decreases a.len(),
{
    broadcast use vstd::seq_lib::group_to_multiset_ensures;

    if a.len() == 0 {
        assert(a.to_multiset().len() == a.len());
        assert(b.to_multiset().len() == b.len());
        assert(b.len() == 0);
        assert(a.map_values(f) =~= b.map_values(f));
    } else {
        let x = a.last();
        let init = a.drop_last();
        assert(init.push(x) =~= a);
        assert(a.to_multiset().count(x) > 0);
        assert(b.contains(x));
        let k = choose|k: int| 0 <= k < b.len() && b[k] == x;
        let b2 = b.remove(k);
        assert(init.to_multiset() =~= b2.to_multiset()) by {
            broadcast use vstd::multiset::group_multiset_axioms;
        }
        lemma_map_multiset(init, b2, f);
        assert(a.map_values(f) =~= init.map_values(f).push(f(x)));
        assert(b2.map_values(f) =~= b.map_values(f).remove(k));
        assert(b.map_values(f)[k] == f(x));
        assert(b.map_values(f).to_multiset() =~= b2.map_values(f).to_multiset().insert(f(x))) by {
            broadcast use vstd::multiset::group_multiset_axioms;
        }
    }
}

/// Sorting nodes by key keeps them: the result is a permutation.
pub proof fn lemma_sorted_nodes_permutation(s: Seq<STerm>)
    ensures
        sorted_nodes(s).to_multiset() == s.to_multiset(),
{
    let k = s.map_values(|n: STerm| keyed_node(n));
    crate::order::lemma_stable_sort_permutation(k);
    let pick = |e: (Seq<Seq<char>>, STerm)| e.1;
    lemma_map_multiset(stable_sort(k), k, pick);
    assert(k.map_values(pick) =~= s);
}

/// The distinct subjects of `ts` are each subject of `ts`, once.
pub proof fn lemma_distinct_subjects(ts: Seq<STriple>)
    ensures
        distinct_subjects(ts).no_duplicates(),
        forall|x: STerm| distinct_subjects(ts).contains(x) <==> exists|i: int| 0 <= i < ts.len() && (#[trigger] ts[i]).subject == x,
    decreases ts.len(),
{
    if ts.len() > 0 {
        let init = ts.drop_last();
        lemma_distinct_subjects(init);
        let r = distinct_subjects(init);
        assert forall|x: STerm| distinct_subjects(ts).contains(x) <==> exists|i: int| 0 <= i < ts.len() && (#[trigger] ts[i]).subject == x by {
            if distinct_subjects(ts).contains(x) {
                if r.contains(x) {
                    let i = choose|i: int| 0 <= i < init.len() && (#[trigger] init[i]).subject == x;
                    assert(ts[i] == init[i]);
                } else {
                    assert(ts[ts.len() - 1].subject == x);
                }
            }
            if exists|i: int| 0 <= i < ts.len() && (#[trigger] ts[i]).subject == x {
                let i = choose|i: int| 0 <= i < ts.len() && (#[trigger] ts[i]).subject == x;
                if i < ts.len() - 1 {
                    assert(init[i] == ts[i]);
                    assert(r.contains(x));
                    if !r.contains(ts.last().subject) {
                        let m = choose|m: int| 0 <= m < r.len() && r[m] == x;
                        assert(r.push(ts.last().subject)[m] == x);
                    }
                } else {
                    if !r.contains(ts.last().subject) {
                        assert(r.push(ts.last().subject)[r.len() as int] == x);
                    }
                }
            }
        }
    }
}

/// What `class_isomorphisms` promises of its groups: every subject of the
/// graph is a member of exactly one group, at one place (the members of all
/// groups, taken together, are the distinct subjects); every group has
/// members, all of the group's class; and without a threshold every member
/// has exactly the group's class and class pattern as its signature.
pub proof fn lemma_class_isomorphisms_partition(g: Seq<STriple>, d: Option<spec_fn(nat, nat) -> bool>, gs: SGroups)
    requires
        groups_subjects(g, d, gs),
    ensures
        groups_wf(gs),
        gs.members.flatten().to_multiset() == distinct_subjects(g).to_multiset(),
        distinct_subjects(g).no_duplicates(),
        forall|x: STerm| distinct_subjects(g).contains(x) <==> exists|i: int| 0 <= i < g.len() && (#[trigger] g[i]).subject == x,
        forall|i: int, j: int| 0 <= i < gs.members.len() && 0 <= j < gs.members[i].len()
            ==> spec_get_class(#[trigger] gs.members[i][j], g) == gs.classes[i],
        d is None ==> forall|i: int, j: int| 0 <= i < gs.members.len() && 0 <= j < gs.members[i].len()
            ==> signature_of(g, #[trigger] gs.members[i][j], (gs.members[i][j], gs.classes[i], gs.patterns[i])),
{
    let sigs = choose|sigs: Seq<(STerm, Seq<char>, Set<SCanon>)>|
        #![trigger spec_group(sigs, d)]
        sigs.len() == sorted_subjects(g).len()
        && (forall|i: int| 0 <= i < sigs.len() ==> signature_of(g, sorted_subjects(g)[i], #[trigger] sigs[i]))
        && gs == spec_group(sigs, d);
    lemma_group_partition(sigs, d);
    lemma_distinct_subjects(g);
    lemma_sorted_nodes_permutation(distinct_subjects(g));
    assert(sig_subjects(sigs) =~= sorted_subjects(g)) by {
        assert forall|i: int| 0 <= i < sigs.len() implies sig_subjects(sigs)[i] == sorted_subjects(g)[i] by {
            assert(signature_of(g, sorted_subjects(g)[i], sigs[i]));
        }
    }
    assert forall|i: int, j: int| 0 <= i < gs.members.len() && 0 <= j < gs.members[i].len()
        implies spec_get_class(#[trigger] gs.members[i][j], g) == gs.classes[i]
            && (d is None ==> signature_of(g, gs.members[i][j], (gs.members[i][j], gs.classes[i], gs.patterns[i]))) by {
        assert(member_from(sigs, gs, d, i, j));
        let k = choose|k: int|
            0 <= k < sigs.len() && (#[trigger] sigs[k]).0 == gs.members[i][j] && sigs[k].1 == gs.classes[i]
                && (d is None ==> sigs[k].2 == gs.patterns[i]);
        assert(signature_of(g, sorted_subjects(g)[k], sigs[k]));
        if d is None {
            assert(sigs[k] == (gs.members[i][j], gs.classes[i], gs.patterns[i]));
        }
    }
}

/// The views of lists of nodes.
pub open spec fn groups_view(l: Seq<Vec<SubjectNode>>) -> Seq<Seq<STerm>> {
    l.map_values(|v: Vec<SubjectNode>| node_views(v@))
}

/// Each group sorted by key.
pub open spec fn sorted_groups(l: Seq<Seq<STerm>>) -> Seq<Seq<STerm>> {
    l.map_values(|m: Seq<STerm>| sorted_nodes(m))
}

/// Two lists of groups have the same members: as many groups, and the same
/// key-sorted groups, compared as sets.
pub open spec fn same_members(l1: Seq<Seq<STerm>>, l2: Seq<Seq<STerm>>) -> bool {
    l1.len() == l2.len() && sorted_groups(l1).to_set() == sorted_groups(l2).to_set()
}

/// Equality of two lists of nodes.
fn nodes_equal(a: &Vec<SubjectNode>, b: &Vec<SubjectNode>) -> (r: bool)
    ensures
        r == (node_views(a@) == node_views(b@)),
{
    if a.len() != b.len() {
        assert(node_views(a@).len() != node_views(b@).len());
        return false;
    }
    let mut i: usize = 0;
    while i < a.len()
        invariant
            i <= a@.len(),
            a@.len() == b@.len(),
            forall|j: int| 0 <= j < i ==> node_views(a@)[j] == node_views(b@)[j],
        decreases a@.len() - i,
    {
        if !a[i].equals(&b[i]) {
            assert(node_views(a@)[i as int] != node_views(b@)[i as int]);
            return false;
        }
        i = i + 1;
    }
    assert(node_views(a@) =~= node_views(b@));
    true
}

/// Whether every group of `a` is a group of `b`.
fn groups_within(a: &Vec<Vec<SubjectNode>>, b: &Vec<Vec<SubjectNode>>) -> (r: bool)
    ensures
        r == forall|i: int| 0 <= i < a@.len() ==> groups_view(b@).contains(#[trigger] groups_view(a@)[i]),
{
    let mut i: usize = 0;
    while i < a.len()
        invariant
            i <= a@.len(),
            forall|k: int| 0 <= k < i ==> groups_view(b@).contains(#[trigger] groups_view(a@)[k]),
        decreases a@.len() - i,
    {
        let mut found = false;
        let mut j: usize = 0;
        while j < b.len() && !found
            invariant
                i < a@.len(),
                j <= b@.len(),
                found ==> groups_view(b@).contains(groups_view(a@)[i as int]),
                !found ==> forall|k: int| 0 <= k < j ==> groups_view(b@)[k] != groups_view(a@)[i as int],
            decreases b@.len() - j + (if found { 0int } else { 1int }),
        {
            if nodes_equal(&a[i], &b[j]) {
                assert(groups_view(b@)[j as int] == groups_view(a@)[i as int]);
                found = true;
            } else {
                j = j + 1;
            }
        }
        if !found {
            assert(!groups_view(b@).contains(groups_view(a@)[i as int]));
            return false;
        }
        i = i + 1;
    }
    true
}

/// Each group of `l`, sorted by key.
fn sort_groups(l: &[Vec<SubjectNode>]) -> (r: Vec<Vec<SubjectNode>>)
    ensures
        groups_view(r@) == sorted_groups(groups_view(l@)),
{
    let mut r: Vec<Vec<SubjectNode>> = Vec::new();
    for i in 0..l.len()
        invariant
            groups_view(r@) == sorted_groups(groups_view(l@)).take(i as int),
    {
        let ghost before = groups_view(r@);
        let sg = sort_nodes(&l[i]);
        assert(groups_view(l@)[i as int] == node_views(l@[i as int]@));
        assert(sorted_groups(groups_view(l@))[i as int] == node_views(sg@));
        r.push(sg);
        assert(groups_view(r@) =~= before.push(node_views(sg@)));
        assert(groups_view(r@) =~= sorted_groups(groups_view(l@)).take(i + 1));
    }
    assert(sorted_groups(groups_view(l@)).take(l@.len() as int) =~= sorted_groups(groups_view(l@)));
    r
}

/// Order-independent equality of two lists of groups, the groups compared
/// as sets of sets.
pub fn lists_have_same_members(list1: &[Vec<SubjectNode>], list2: &[Vec<SubjectNode>]) -> (r: bool)
    ensures
        r == same_members(groups_view(list1@), groups_view(list2@)),
{
    if list1.len() != list2.len() {
        return false;
    }
    let sets1 = sort_groups(list1);
    let sets2 = sort_groups(list2);
    let r = groups_within(&sets1, &sets2) && groups_within(&sets2, &sets1);
    proof {
        let s1 = groups_view(sets1@);
        let s2 = groups_view(sets2@);
        if r {
            assert forall|x: Seq<STerm>| s1.to_set().contains(x) <==> s2.to_set().contains(x) by {
                if s1.contains(x) {
                    let k = choose|k: int| 0 <= k < s1.len() && s1[k] == x;
                }
                if s2.contains(x) {
                    let k = choose|k: int| 0 <= k < s2.len() && s2[k] == x;
                }
            }
            assert(s1.to_set() =~= s2.to_set());
        } else {
            if s1.to_set() == s2.to_set() {
                assert forall|i: int| 0 <= i < s1.len() implies s2.contains(#[trigger] s1[i]) by {
                    assert(s1.to_set().contains(s1[i]));
                }
                assert forall|i: int| 0 <= i < s2.len() implies s1.contains(#[trigger] s2[i]) by {
                    assert(s2.to_set().contains(s2[i]));
                }
            }
        }
    }
    r
}

/// The overlap of the member sets `a` and `b`: how many members they share,
/// and the size of the smaller set (at least 1).
pub open spec fn overlap_counts(a: Set<STerm>, b: Set<STerm>) -> (int, int) {
    let m = if a.len() < b.len() { a.len() } else { b.len() };
    (a.intersect(b).len() as int, if m < 1 { 1int } else { m as int })
}

/// For group number `i` with member set `a`, the entries `(i, j, common,
/// smaller)` of the groups `j` of `l2` whose member set differs from `a`,
/// in the order of `l2`.
pub open spec fn row_overlaps(a: Set<STerm>, i: int, l2: Seq<Seq<STerm>>) -> Seq<(int, int, int, int)>
    decreases l2.len(),
{
    if l2.len() == 0 {
        seq![]
    } else {
        let prev = row_overlaps(a, i, l2.drop_last());
        let b = l2.last().to_set();
        if a == b {
            prev
        } else {
            let (c, m) = overlap_counts(a, b);
            prev.push((i, l2.len() - 1, c, m))
        }
    }
}

/// The overlap entries of every pair of a group of `l1` and a group of
/// `l2` with different member sets, in the order of `l1`, then of `l2`.
pub open spec fn spec_overlaps(l1: Seq<Seq<STerm>>, l2: Seq<Seq<STerm>>) -> Seq<(int, int, int, int)>
    decreases l1.len(),
{
    if l1.len() == 0 {
        seq![]
    } else {
        spec_overlaps(l1.drop_last(), l2) + row_overlaps(l1.last().to_set(), l1.len() - 1, l2)
    }
}

/// The entries of a list of overlaps, as integers.
pub open spec fn overlap_views(r: Seq<(usize, usize, usize, usize)>) -> Seq<(int, int, int, int)> {
    r.map_values(|e: (usize, usize, usize, usize)| (e.0 as int, e.1 as int, e.2 as int, e.3 as int))
}

/// What a sequence with one more item contains.
proof fn lemma_push_contains<A>(s: Seq<A>, x: A, m: A)
    ensures
        s.push(x).contains(m) <==> s.contains(m) || m == x,
{
    if s.push(x).contains(m) && m != x {
        let k = choose|k: int| 0 <= k < s.push(x).len() && s.push(x)[k] == m;
        assert(s[k] == m);
    }
    if s.contains(m) {
        let k = choose|k: int| 0 <= k < s.len() && s[k] == m;
        assert(s.push(x)[k] == m);
    }
    if m == x {
        assert(s.push(x)[s.len() as int] == m);
    }
}

/// The members of `v`, each once.
fn distinct_nodes(v: &Vec<SubjectNode>) -> (r: Vec<SubjectNode>)
    ensures
        node_views(r@).no_duplicates(),
        node_views(r@).to_set() == node_views(v@).to_set(),
{
    let mut r: Vec<SubjectNode> = Vec::new();
    for i in 0..v.len()
        invariant
            node_views(r@).no_duplicates(),
            forall|m: STerm| #[trigger] node_views(r@).contains(m) <==> node_views(v@).take(i as int).contains(m),
    {
        add_node(&mut r, &v[i]);
        assert forall|m: STerm| #[trigger] node_views(v@).take(i + 1).contains(m) <==> node_views(v@).take(i as int).contains(m) || m == v@[i as int]@ by {
            assert(node_views(v@).take(i + 1) =~= node_views(v@).take(i as int).push(v@[i as int]@));
            lemma_push_contains(node_views(v@).take(i as int), v@[i as int]@, m);
        }
    }
    assert(node_views(v@).take(v@.len() as int) =~= node_views(v@));
    assert(node_views(r@).to_set() =~= node_views(v@).to_set());
    r
}

/// The members of `a` that are members of `b`, each once.
fn shared_nodes(a: &Vec<SubjectNode>, b: &Vec<SubjectNode>) -> (r: Vec<SubjectNode>)
    ensures
        node_views(r@).no_duplicates(),
        node_views(r@).to_set() == node_views(a@).to_set().intersect(node_views(b@).to_set()),
{
    let mut r: Vec<SubjectNode> = Vec::new();
    for i in 0..a.len()
        invariant
            node_views(r@).no_duplicates(),
            forall|m: STerm| #[trigger] node_views(r@).contains(m) <==> node_views(a@).take(i as int).contains(m)
                && node_views(b@).contains(m),
    {
        let ghost before = node_views(r@);
        if has_node(b, &a[i]) {
            add_node(&mut r, &a[i]);
        }
        assert forall|m: STerm| #[trigger] node_views(r@).contains(m) <==> node_views(a@).take(i + 1).contains(m)
            && node_views(b@).contains(m) by {
            assert(node_views(a@).take(i + 1) =~= node_views(a@).take(i as int).push(a@[i as int]@));
            lemma_push_contains(node_views(a@).take(i as int), a@[i as int]@, m);
        }
    }
    assert(node_views(a@).take(a@.len() as int) =~= node_views(a@));
    assert(node_views(r@).to_set() =~= node_views(a@).to_set().intersect(node_views(b@).to_set()));
    r
}

/// Whether every member of `a` is a member of `b`.
fn nodes_within(a: &Vec<SubjectNode>, b: &Vec<SubjectNode>) -> (r: bool)
    ensures
        r == node_views(a@).to_set().subset_of(node_views(b@).to_set()),
{
    let mut i: usize = 0;
    while i < a.len()
        invariant
            i <= a@.len(),
            forall|k: int| 0 <= k < i ==> node_views(b@).contains(#[trigger] node_views(a@)[k]),
        decreases a@.len() - i,
    {
        if !has_node(b, &a[i]) {
            assert(node_views(a@).to_set().contains(node_views(a@)[i as int]));
            return false;
        }
        i = i + 1;
    }
    assert forall|m: STerm| node_views(a@).to_set().contains(m) implies node_views(b@).to_set().contains(m) by {
        let k = choose|k: int| 0 <= k < node_views(a@).len() && node_views(a@)[k] == m;
    }
    true
}

/// The overlap of two groups given by their members, each once.
fn group_overlap(a: &Vec<SubjectNode>, b: &Vec<SubjectNode>) -> (r: (usize, usize))
    requires
        node_views(a@).no_duplicates(),
        node_views(b@).no_duplicates(),
    ensures
        (r.0 as int, r.1 as int) == overlap_counts(node_views(a@).to_set(), node_views(b@).to_set()),
{
    let common = shared_nodes(a, b);
    proof {
        node_views(common@).unique_seq_to_set();
        node_views(a@).unique_seq_to_set();
        node_views(b@).unique_seq_to_set();
    }
    let m = if a.len() < b.len() { a.len() } else { b.len() };
    let smaller = if m < 1 { 1 } else { m };
    (common.len(), smaller)
}

/// Pairs of a group of `list1` and a group of `list2` whose member sets
/// differ, with how many members they share and the size of the smaller
/// member set (at least 1): `(i, j, common, smaller)`, in the order of
/// `list1`, then of `list2`. The ratio `common / smaller` is the overlap
/// coefficient of the two groups.
pub fn sublist_overlaps(list1: &[Vec<SubjectNode>], list2: &[Vec<SubjectNode>]) -> (r: Vec<(usize, usize, usize, usize)>)
    ensures
        overlap_views(r@) == spec_overlaps(groups_view(list1@), groups_view(list2@)),
{
    let ghost l1 = groups_view(list1@);
    let ghost l2 = groups_view(list2@);
    let mut sets2: Vec<Vec<SubjectNode>> = Vec::new();
    for j in 0..list2.len()
        invariant
            sets2@.len() == j,
            l2 == groups_view(list2@),
            forall|k: int| 0 <= k < j ==> node_views(#[trigger] sets2@[k]@).no_duplicates()
                && node_views(sets2@[k]@).to_set() == l2[k].to_set(),
    {
        let d = distinct_nodes(&list2[j]);
        sets2.push(d);
    }
    let mut r: Vec<(usize, usize, usize, usize)> = Vec::new();
    for i in 0..list1.len()
        invariant
            l1 == groups_view(list1@),
            l2 == groups_view(list2@),
            sets2@.len() == l2.len(),
            forall|k: int| 0 <= k < l2.len() ==> node_views(#[trigger] sets2@[k]@).no_duplicates()
                && node_views(sets2@[k]@).to_set() == l2[k].to_set(),
            overlap_views(r@) == spec_overlaps(l1.take(i as int), l2),
    {
        let s1 = distinct_nodes(&list1[i]);
        let ghost a = l1[i as int].to_set();
        let ghost base = overlap_views(r@);
        assert(node_views(s1@).to_set() == a);
        for j in 0..sets2.len()
            invariant
                i < l1.len(),
                sets2@.len() == l2.len(),
                forall|k: int| 0 <= k < l2.len() ==> node_views(#[trigger] sets2@[k]@).no_duplicates()
                    && node_views(sets2@[k]@).to_set() == l2[k].to_set(),
                node_views(s1@).no_duplicates(),
                node_views(s1@).to_set() == a,
                overlap_views(r@) == base + row_overlaps(a, i as int, l2.take(j as int)),
        {
            let ghost prev = overlap_views(r@);
            let b = &sets2[j];
            assert(l2.take(j + 1).drop_last() =~= l2.take(j as int));
            assert(l2.take(j + 1).last() == l2[j as int]);
            let same = nodes_within(&s1, b) && nodes_within(b, &s1);
            proof {
                if same {
                    assert(a =~= l2[j as int].to_set());
                }
            }
            if !same {
                let (c, m) = group_overlap(&s1, b);
                r.push((i, j, c, m));
                assert(overlap_views(r@) =~= prev.push((i as int, j as int, c as int, m as int)));
            }
        }
        assert(l2.take(l2.len() as int) =~= l2);
        assert(l1.take(i + 1).drop_last() =~= l1.take(i as int));
        assert(l1.take(i + 1).last() == l1[i as int]);
    }
    assert(l1.take(l1.len() as int) =~= l1);
    r
}

/// Having the same members is an equivalence: reflexive, symmetric and
/// transitive.
pub proof fn lemma_same_members_equivalence(l1: Seq<Seq<STerm>>, l2: Seq<Seq<STerm>>, l3: Seq<Seq<STerm>>)
    ensures
        same_members(l1, l1),
        same_members(l1, l2) ==> same_members(l2, l1),
        same_members(l1, l2) && same_members(l2, l3) ==> same_members(l1, l3),
{
}

/// The order of the groups does not matter: two lists holding the same
/// groups, each as often, have the same members.
pub proof fn lemma_same_members_group_order(l1: Seq<Seq<STerm>>, l2: Seq<Seq<STerm>>)
    requires
        l1.to_multiset() == l2.to_multiset(),
    ensures
        same_members(l1, l2),
{
    broadcast use vstd::seq_lib::group_to_multiset_ensures;

    let f = |m: Seq<STerm>| sorted_nodes(m);
    lemma_map_multiset(l1, l2, f);
    assert(l1.to_multiset().len() == l1.len());
    assert(l2.to_multiset().len() == l2.len());
    let s1 = sorted_groups(l1);
    let s2 = sorted_groups(l2);
    assert(s1 == l1.map_values(f));
    assert(s2 == l2.map_values(f));
    assert forall|x: Seq<STerm>| s1.to_set().contains(x) <==> s2.to_set().contains(x) by {
        assert(s1.to_multiset().count(x) == s2.to_multiset().count(x));
    }
    assert(s1.to_set() =~= s2.to_set());
}

} // verus!
