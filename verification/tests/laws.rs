use bschema::algorithm::{assign_new_classes, class_isomorphisms, create_bschema, lists_have_same_members};
use bschema::canon::canonicalize;
use bschema::graph::RdfGraph;
use bschema::isomorphism::SimilarityThreshold;
use bschema::keyed::NameCounter;
use bschema::model::{Blank, Iri, RdfTerm, RdfTriple, SubjectNode};
use bschema::RdfFormat;
use std::collections::HashSet;

type NoThreshold = SimilarityThreshold<fn(usize, usize) -> bool>;

fn iri(s: &str) -> Iri {
    Iri::new_unchecked(s.to_string())
}

fn node(s: &str) -> SubjectNode {
    SubjectNode::Iri(iri(s))
}

const TTL: &str = r#"
    @prefix ex: <urn:example#> .
    @prefix s223: <http://data.ashrae.org/standard223#> .
    @prefix xsd: <http://www.w3.org/2001/XMLSchema#> .

    ex:sensor1 a s223:Sensor ; s223:hasUnit s223:UnitA ; s223:hasValue "1.5"^^xsd:double .
    ex:sensor2 a s223:Sensor ; s223:hasUnit s223:UnitA ; s223:hasValue "2.5"^^xsd:double .
    ex:actuator1 a s223:Actuator ; s223:hasRole s223:RoleA ; ex:hasPart _:p .
    _:p a ex:Part .
"#;

#[test]
fn every_subject_is_in_exactly_one_group() {
    let g = RdfGraph::parse_str(TTL, RdfFormat::Turtle).unwrap();
    let groups = class_isomorphisms(&g, None::<&NoThreshold>).unwrap();
    let mut seen: Vec<String> = Vec::new();
    for members in &groups.equivalent_subjects {
        assert!(!members.is_empty());
        for m in members {
            seen.push(m.to_string());
        }
    }
    let subjects: HashSet<String> = g.triples().iter().map(|t| t.subject.to_string()).collect();
    let seen_set: HashSet<String> = seen.iter().cloned().collect();
    assert_eq!(seen.len(), seen_set.len(), "no subject twice: {seen:?}");
    assert_eq!(seen_set, subjects);
    assert_eq!(groups.equivalent_subjects.len(), groups.subject_classes.len());
    assert_eq!(groups.equivalent_subjects.len(), groups.distinct_class_subgraphs.len());
}

#[test]
fn isomorphic_subjects_share_a_group() {
    let g = RdfGraph::parse_str(TTL, RdfFormat::Turtle).unwrap();
    let groups = class_isomorphisms(&g, None::<&NoThreshold>).unwrap();
    let with_sensor1 = groups
        .equivalent_subjects
        .iter()
        .find(|m| m.iter().any(|n| n.to_string() == "<urn:example#sensor1>"))
        .unwrap();
    let names: Vec<String> = with_sensor1.iter().map(|n| n.to_string()).collect();
    assert_eq!(names, vec!["<urn:example#sensor1>".to_string(), "<urn:example#sensor2>".to_string()]);
}

#[test]
fn same_members_ignores_order() {
    let a = vec![vec![node("urn:x#a"), node("urn:x#b")], vec![node("urn:x#c")]];
    let b = vec![vec![node("urn:x#c")], vec![node("urn:x#b"), node("urn:x#a")]];
    let c = vec![vec![node("urn:x#a")], vec![node("urn:x#b"), node("urn:x#c")]];
    assert!(lists_have_same_members(&a, &a));
    assert!(lists_have_same_members(&a, &b));
    assert!(lists_have_same_members(&b, &a));
    assert!(!lists_have_same_members(&a, &c));
    assert!(!lists_have_same_members(&a, &a[..1]));
}

#[test]
fn assigns_names_from_common_patterns() {
    let groups = vec![
        vec![node("urn:example#sensor1"), node("urn:example#sensor2")],
        vec![node("urn:example#sensor3")],
        vec![node("urn:bschema-rs:skolem-literal:00ff")],
        vec![SubjectNode::Blank(Blank { id: "b0".to_string() }), node("urn:bschema-rs:skolem:b1")],
    ];
    let mut counter = NameCounter::new();
    let assigned = assign_new_classes(&groups, &[], true, &mut counter);
    assert_eq!(assigned.get(&node("urn:example#sensor1")).unwrap().as_str(), "urn:bschema#sensor1");
    assert_eq!(assigned.get(&node("urn:example#sensor2")).unwrap().as_str(), "urn:bschema#sensor1");
    assert_eq!(assigned.get(&node("urn:example#sensor3")).unwrap().as_str(), "urn:bschema#sensor31");
    assert_eq!(assigned.get(&node("urn:bschema-rs:skolem-literal:00ff")).unwrap().as_str(), "urn:bschema#literal1");
    assert!(assigned.get(&node("urn:example#other")).is_none());
    assert_eq!(assigned.len(), 6);
    assert_eq!(counter.count("literal"), 1);
    assert_eq!(counter.count("sensor"), 1);
}

#[test]
fn groups_with_the_same_local_name_get_fresh_classes() {
    let groups = vec![vec![node("urn:a#x")], vec![node("urn:b#x")]];
    let mut counter = NameCounter::new();
    let assigned = assign_new_classes(&groups, &[], true, &mut counter);
    assert_eq!(assigned.get(&node("urn:a#x")).unwrap().as_str(), "urn:bschema#x1");
    assert_eq!(assigned.get(&node("urn:b#x")).unwrap().as_str(), "urn:bschema#x2");
}

#[test]
fn assigns_versions_without_original_names() {
    let groups = vec![vec![node("urn:x#a")], vec![node("urn:x#b")]];
    let classes = vec![iri("urn:x#Sensor_version_3"), iri("urn:x#Sensor")];
    let mut counter = NameCounter::new();
    let assigned = assign_new_classes(&groups, &classes, false, &mut counter);
    assert_eq!(assigned.get(&node("urn:x#a")).unwrap().as_str(), "urn:bschema#Sensor_version_1");
    assert_eq!(assigned.get(&node("urn:x#b")).unwrap().as_str(), "urn:bschema#Sensor_version_2");
    assert_eq!(counter.count("Sensor"), 2);
}

#[test]
fn input_loses_only_its_ontology_declaration() {
    let ttl = "@prefix owl: <http://www.w3.org/2002/07/owl#> . <urn:example#> a owl:Ontology . <urn:example#s> <urn:example#p> <urn:example#o> .";
    let mut g = RdfGraph::parse_str(ttl, RdfFormat::Turtle).unwrap();
    assert_eq!(g.len(), 2);
    let _ = create_bschema(&mut g, 1, None::<&NoThreshold>, true, true).unwrap();
    assert_eq!(g.len(), 1);
    assert_eq!(g.triples()[0].subject.to_string(), "<urn:example#s>");
}

#[test]
fn no_iterations_give_an_unlabelled_summary() {
    let mut g = RdfGraph::parse_str(TTL, RdfFormat::Turtle).unwrap();
    let result = create_bschema(&mut g, 0, None::<&NoThreshold>, true, true).unwrap();
    assert_eq!(result.iterations, 0);
    assert_eq!(result.member_graph.len(), 0);
    assert!(result.class_graph.triples().iter().all(|t| !t.subject.to_string().contains("urn:bschema#")));
}

#[test]
fn iterations_stay_below_the_limit() {
    let mut g = RdfGraph::parse_str(TTL, RdfFormat::Turtle).unwrap();
    let result = create_bschema(&mut g, 1, None::<&NoThreshold>, true, true).unwrap();
    assert_eq!(result.iterations, 0);
    let mut g = RdfGraph::parse_str(TTL, RdfFormat::Turtle).unwrap();
    let result = create_bschema(&mut g, 10, None::<&NoThreshold>, true, true).unwrap();
    assert!(result.iterations < 10);
}

#[test]
fn every_subject_of_the_input_is_reported_as_a_member() {
    let mut g = RdfGraph::parse_str(TTL, RdfFormat::Turtle).unwrap();
    let result = create_bschema(&mut g, 10, None::<&NoThreshold>, true, true).unwrap();
    let members: HashSet<String> = result
        .member_graph
        .triples()
        .iter()
        .filter(|t| t.predicate.as_str() == "http://www.w3.org/2000/01/rdf-schema#member")
        .map(|t| t.object.to_string())
        .collect();
    for t in g.triples() {
        match &t.subject {
            SubjectNode::Iri(_) => assert!(members.contains(&t.subject.to_string()), "{} missing", t.subject.to_string()),
            SubjectNode::Blank(_) => assert!(members.iter().any(|m| m.starts_with("_:"))),
        }
    }
    for lit in ["1.5", "2.5"] {
        assert!(members.iter().any(|m| m.contains(lit)), "{lit} missing from {members:?}");
    }
    assert!(members.iter().all(|m| !m.contains("skolem")));
}

#[test]
fn every_bs_class_of_the_class_graph_has_members() {
    let mut g = RdfGraph::parse_str(TTL, RdfFormat::Turtle).unwrap();
    let result = create_bschema(&mut g, 10, None::<&NoThreshold>, false, true).unwrap();
    let classes: HashSet<String> = result
        .member_graph
        .triples()
        .iter()
        .filter(|t| t.predicate.as_str() == "http://www.w3.org/2000/01/rdf-schema#member")
        .map(|t| t.subject.to_string())
        .collect();
    let mut seen = 0;
    for t in result.class_graph.triples() {
        for term in [t.subject.to_term(), t.object.clone()] {
            if let RdfTerm::Iri(n) = &term {
                if n.as_str().starts_with("urn:bschema#") {
                    seen += 1;
                    assert!(classes.contains(&term.to_string()), "{} has no members", n.as_str());
                }
            }
        }
    }
    assert!(seen > 0);
}

#[test]
fn removing_added_labels_drops_bs_type_triples() {
    let mut g = RdfGraph::parse_str(TTL, RdfFormat::Turtle).unwrap();
    let kept = create_bschema(&mut g, 10, None::<&NoThreshold>, false, true).unwrap();
    let mut g = RdfGraph::parse_str(TTL, RdfFormat::Turtle).unwrap();
    let removed = create_bschema(&mut g, 10, None::<&NoThreshold>, true, true).unwrap();
    let is_label = |t: &RdfTriple| {
        t.predicate.as_str() == "http://www.w3.org/1999/02/22-rdf-syntax-ns#type"
            && matches!(&t.object, RdfTerm::Iri(n) if n.as_str().contains("urn:bschema#"))
    };
    assert!(kept.class_graph.triples().iter().any(|t| is_label(t)));
    assert!(removed.class_graph.triples().iter().all(|t| !is_label(t)));
    let marker = |t: &RdfTriple| matches!(&t.object, RdfTerm::Iri(n) if n.as_str() == "http://www.w3.org/2000/01/rdf-schema#Literal");
    assert!(kept.class_graph.triples().iter().all(|t| !marker(t)));
}

#[test]
fn member_graph_has_only_seq_and_member_triples() {
    let mut g = RdfGraph::parse_str(TTL, RdfFormat::Turtle).unwrap();
    let result = create_bschema(&mut g, 10, None::<&NoThreshold>, true, true).unwrap();
    for t in result.member_graph.triples() {
        assert!(t.subject.to_string().starts_with("<urn:bschema#"));
        let p = t.predicate.as_str();
        if p == "http://www.w3.org/1999/02/22-rdf-syntax-ns#type" {
            assert_eq!(t.object.to_string(), "<http://www.w3.org/1999/02/22-rdf-syntax-ns#Seq>");
        } else {
            assert_eq!(p, "http://www.w3.org/2000/01/rdf-schema#member");
        }
    }
}

#[test]
fn a_high_threshold_merges_less_than_a_low_one() {
    let ttl = r#"
        @prefix ex: <urn:example#> .
        ex:a a ex:T ; ex:p ex:x ; ex:q ex:y .
        ex:b a ex:T ; ex:p ex:x .
    "#;
    let g = RdfGraph::parse_str(ttl, RdfFormat::Turtle).unwrap();
    let low = SimilarityThreshold { exceeds: |i: usize, s: usize| (i as f64 / s as f64) > 0.1, single_pass: false };
    let high = SimilarityThreshold { exceeds: |i: usize, s: usize| (i as f64 / s as f64) > 1.0, single_pass: false };
    let merged = class_isomorphisms(&g, Some(&low)).unwrap();
    let apart = class_isomorphisms(&g, Some(&high)).unwrap();
    assert!(merged.equivalent_subjects.len() < apart.equivalent_subjects.len());
}

#[test]
fn ground_graphs_with_the_same_triples_canonicalize_alike() {
    let t1 = RdfTriple { subject: node("urn:x#a"), predicate: iri("urn:x#p"), object: RdfTerm::Iri(iri("urn:x#b")) };
    let t2 = RdfTriple { subject: node("urn:x#b"), predicate: iri("urn:x#q"), object: RdfTerm::Iri(iri("urn:x#c")) };
    let a = canonicalize(&[t1.clone(), t2.clone()]);
    let b = canonicalize(&[t2.clone(), t1.clone(), t2.clone()]);
    assert!(a.same_as(&b));
    assert_eq!(a.len(), 2);
    assert!(a.contains(&("N<urn:x#a>".to_string(), "N<urn:x#p>".to_string(), "N<urn:x#b>".to_string())));
}

#[test]
fn literal_typing_patterns_are_not_in_the_class_graph() {
    let ttl = r#"
        @prefix ex: <urn:example#> .
        @prefix s223: <http://data.ashrae.org/standard223#> .
        @prefix xsd: <http://www.w3.org/2001/XMLSchema#> .
        ex:sensor1 a s223:Sensor ; s223:hasValue "22.5"^^xsd:double .
        ex:sensor2 a s223:Sensor ; s223:hasValue "23.1"^^xsd:double .
    "#;
    for remove in [true, false] {
        let mut g = RdfGraph::parse_str(ttl, RdfFormat::Turtle).unwrap();
        let r = create_bschema(&mut g, 10, None::<&NoThreshold>, remove, true).unwrap();
        for t in r.class_graph.triples() {
            assert!(!t.object.equals(&RdfTerm::Iri(iri("http://www.w3.org/2001/XMLSchema#double"))));
        }
        assert!(r.class_graph.triples().iter().any(|t| t.predicate.as_str() == "http://data.ashrae.org/standard223#hasValue"));
    }
}

#[test]
fn zero_iterations_give_an_empty_member_graph() {
    let mut g = RdfGraph::parse_str(TTL, RdfFormat::Turtle).unwrap();
    let r = create_bschema(&mut g, 0, None::<&NoThreshold>, true, true).unwrap();
    assert_eq!(r.member_graph.len(), 0);
    assert_eq!(r.iterations, 0);
}

#[test]
fn each_member_is_reported_under_one_class() {
    let mut g = RdfGraph::parse_str(TTL, RdfFormat::Turtle).unwrap();
    let result = create_bschema(&mut g, 10, None::<&NoThreshold>, true, true).unwrap();
    let member_triples: Vec<(String, String)> = result
        .member_graph
        .triples()
        .iter()
        .filter(|t| t.predicate.as_str() == "http://www.w3.org/2000/01/rdf-schema#member")
        .map(|t| (t.subject.to_string(), t.object.to_string()))
        .collect();
    assert!(!member_triples.is_empty());
    for (c, m) in &member_triples {
        for (c2, m2) in &member_triples {
            if m == m2 {
                assert_eq!(c, c2, "{m} is reported under two classes");
            }
        }
    }
    for lit in ["1.5", "2.5"] {
        assert_eq!(member_triples.iter().filter(|(_, m)| m.contains(lit)).count(), 1, "{lit}");
    }
}

#[test]
fn a_run_that_stops_early_stops_at_the_same_pass_with_a_tighter_limit() {
    let mut g = RdfGraph::parse_str(TTL, RdfFormat::Turtle).unwrap();
    let first = create_bschema(&mut g, 10, None::<&NoThreshold>, true, true).unwrap();
    assert!(first.iterations + 1 < 10);
    let mut g = RdfGraph::parse_str(TTL, RdfFormat::Turtle).unwrap();
    let again = create_bschema(&mut g, first.iterations + 1, None::<&NoThreshold>, true, true).unwrap();
    assert_eq!(again.iterations, first.iterations);
    assert_eq!(again.member_graph.len(), first.member_graph.len());
    assert_eq!(again.class_graph.len(), first.class_graph.len());
}
