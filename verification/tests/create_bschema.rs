use bschema::algorithm::create_bschema;
use bschema::graph::RdfGraph;
use bschema::isomorphism::SimilarityThreshold;
use bschema::model::{RdfTerm, SubjectNode};
use bschema::RdfFormat;
use std::collections::HashSet;

type NoThreshold = SimilarityThreshold<fn(usize, usize) -> bool>;

fn ratio_above(t: f64) -> SimilarityThreshold<impl Fn(usize, usize) -> bool> {
    SimilarityThreshold { exceeds: move |i: usize, s: usize| (i as f64 / s as f64) > t, single_pass: t == 0.0 }
}

const TTL: &str = r#"
    @prefix ex: <urn:example#> .
    @prefix s223: <http://data.ashrae.org/standard223#> .

    ex:sensor1 a s223:Sensor ; s223:hasUnit s223:UnitA .
    ex:sensor2 a s223:Sensor ; s223:hasUnit s223:UnitA .
    ex:sensor3 a s223:Sensor ; s223:hasUnit s223:UnitA .
    ex:actuator1 a s223:Actuator ; s223:hasRole s223:RoleA .
"#;

#[test]
fn groups_isomorphic_one_hop_patterns_and_compresses() {
    let mut data_graph = RdfGraph::parse_str(TTL, RdfFormat::Turtle).unwrap();
    let original_len = data_graph.len();
    assert!(original_len > 0);

    let result = create_bschema(&mut data_graph, 10, None::<&NoThreshold>, true, true).unwrap();

    assert!(result.class_graph.len() > 0);
    assert!(result.class_graph.len() < original_len, "bschema should compress the graph");

    let member_triples = result.member_graph.triples();
    let seq_count = member_triples.iter().filter(|t| t.predicate.as_str().ends_with("22-rdf-syntax-ns#type")).count();
    assert!(seq_count >= 1);

    let sensor_group_size = member_triples
        .iter()
        .filter(|t| t.predicate.as_str().ends_with("rdf-schema#member"))
        .filter(|t| {
            let obj = t.object.to_string();
            obj.contains("sensor1") || obj.contains("sensor2") || obj.contains("sensor3")
        })
        .count();
    assert_eq!(sensor_group_size, 3, "the three isomorphic sensors should be grouped together");
}

#[test]
fn similarity_threshold_zero_is_single_pass() {
    let mut data_graph = RdfGraph::parse_str(TTL, RdfFormat::Turtle).unwrap();
    let threshold = ratio_above(0.0);
    let result = create_bschema(&mut data_graph, 10, Some(&threshold), true, true).unwrap();
    assert_eq!(result.iterations, 0);
}

const TTL_WITH_LITERALS: &str = r#"
    @prefix ex: <urn:example#> .
    @prefix s223: <http://data.ashrae.org/standard223#> .
    @prefix xsd: <http://www.w3.org/2001/XMLSchema#> .

    ex:sensor1 a s223:Sensor ; s223:hasUnit s223:UnitA ; s223:hasValue "22.5"^^xsd:double .
    ex:sensor2 a s223:Sensor ; s223:hasUnit s223:UnitA ; s223:hasValue "23.1"^^xsd:double .
    ex:sensor3 a s223:Sensor ; s223:hasUnit s223:UnitA ; s223:hasValue "19.8"^^xsd:double .
"#;

#[test]
fn groups_literals_by_topology_and_reports_original_values() {
    let mut data_graph = RdfGraph::parse_str(TTL_WITH_LITERALS, RdfFormat::Turtle).unwrap();
    let result = create_bschema(&mut data_graph, 10, None::<&NoThreshold>, true, true).unwrap();

    let member_triples = result.member_graph.triples();

    assert!(
        member_triples.iter().all(|t| !t.object.to_string().contains("skolem-literal")),
        "member graph should report original literal values, not skolem stand-ins"
    );

    let literal_values: HashSet<String> = member_triples
        .iter()
        .filter(|t| t.predicate.as_str().ends_with("rdf-schema#member"))
        .filter_map(|t| match &t.object {
            RdfTerm::Literal(l) => Some(l.value().to_string()),
            _ => None,
        })
        .collect();

    for v in ["22.5", "23.1", "19.8"] {
        assert!(
            literal_values.contains(v),
            "expected literal value {v} to be reported in the member graph, got {literal_values:?}"
        );
    }

    let literal_group_size = member_triples
        .iter()
        .filter(|t| t.predicate.as_str().ends_with("rdf-schema#member"))
        .filter(|t| matches!(&t.object, RdfTerm::Literal(_)))
        .count();
    assert_eq!(literal_group_size, 3, "the three isomorphic literal values should be grouped together");

    let class_triples = result.class_graph.triples();
    let has_value_pattern = class_triples
        .iter()
        .find(|t| t.predicate.as_str().ends_with("hasValue"))
        .expect("hasValue should appear in the class graph");
    match &has_value_pattern.object {
        RdfTerm::Iri(n) => {
            assert!(
                !n.as_str().ends_with("rdf-schema#Literal"),
                "hasValue's object class should not collapse to generic rdfs:Literal, got {}",
                n.as_str()
            );
        },
        other => panic!("expected hasValue's class-pattern object to be a NamedNode, got {other:?}"),
    }
}

const TTL_WITH_BLANK_NODES: &str = r#"
    @prefix ex: <urn:example#> .

    ex:sensor1 ex:hasSpec _:b1 .
    ex:sensor2 ex:hasSpec _:b2 .
    _:b1 a ex:Spec .
    _:b2 a ex:Spec .
"#;

#[test]
fn groups_blank_nodes_by_topology_and_reports_as_blank_nodes() {
    let mut data_graph = RdfGraph::parse_str(TTL_WITH_BLANK_NODES, RdfFormat::Turtle).unwrap();
    let result = create_bschema(&mut data_graph, 10, None::<&NoThreshold>, true, true).unwrap();

    let member_triples = result.member_graph.triples();

    assert!(
        member_triples.iter().all(|t| !t.object.to_string().contains("bschema-rs:skolem:")),
        "member graph should report original blank nodes, not skolem stand-ins, got {member_triples:?}"
    );

    let blank_member_count = member_triples
        .iter()
        .filter(|t| t.predicate.as_str().ends_with("rdf-schema#member"))
        .filter(|t| matches!(&t.object, RdfTerm::Blank(_)))
        .count();
    assert_eq!(blank_member_count, 2, "the two isomorphic blank-node specs should be grouped together");
}

#[test]
fn threshold_zero_member_graph_is_keyed_consistently_with_class_graph() {
    let mut data_graph = RdfGraph::parse_str(TTL, RdfFormat::Turtle).unwrap();
    let threshold = ratio_above(0.0);
    let result = create_bschema(&mut data_graph, 10, Some(&threshold), true, true).unwrap();

    let member_classes: HashSet<String> = result
        .member_graph
        .triples()
        .into_iter()
        .filter(|t| t.predicate.as_str().ends_with("rdf-schema#member"))
        .filter_map(|t| match t.subject {
            SubjectNode::Iri(n) => Some(n.as_str().to_string()),
            SubjectNode::Blank(_) => None,
        })
        .collect();

    let mut checked_any = false;
    for t in result.class_graph.triples() {
        for term in [t.subject.to_term(), t.object.clone()] {
            if let RdfTerm::Iri(n) = &term {
                if n.as_str().starts_with("urn:bschema#") {
                    checked_any = true;
                    assert!(
                        member_classes.contains(n.as_str()),
                        "class_graph references {} but member_graph has no members for it",
                        n.as_str()
                    );
                }
            }
        }
    }
    assert!(checked_any, "test setup: expected at least one bs: class in class_graph");
}
