use bschema::algorithm::{class_graph, class_pattern, get_class, sublist_overlaps, subgraph_with_hops};
use bschema::canon::{canonicalize, common_canon_triple_count, common_triple_count, is_isomorphic, named_node_key};
use bschema::examples::{escape_turtle_string, example_turtle, is_safe_pn_local, observe_iri, split_namespace, PrefixTable, StrSet};
use bschema::graph::{format_from_file_name, format_from_name, graph_from_quads, prefix_header, RdfGraph};
use bschema::rdfio::TermParts;
use bschema::model::{Blank, Iri, LiteralValue, RdfTerm, RdfTriple, SubjectNode};
use bschema::namespace::{named_node_predicates, prefix_table};
use bschema::{BschemaError, RdfFormat};

fn iri(s: &str) -> Iri {
    Iri::new_unchecked(s.to_string())
}

fn triple(s: SubjectNode, p: &str, o: RdfTerm) -> RdfTriple {
    RdfTriple { subject: s, predicate: iri(p), object: o }
}

const TYPE: &str = "http://www.w3.org/1999/02/22-rdf-syntax-ns#type";

#[test]
fn split_namespace_after_last_hash_or_slash() {
    assert_eq!(split_namespace("http://a.org/x#y"), ("http://a.org/x#".to_string(), "y".to_string()));
    assert_eq!(split_namespace("http://a.org/x/y"), ("http://a.org/x/".to_string(), "y".to_string()));
    assert_eq!(split_namespace("http://a.org/x#"), ("http://a.org/x#".to_string(), String::new()));
    assert_eq!(split_namespace("urn-no-separator"), ("urn-no-separator".to_string(), String::new()));
}

#[test]
fn safe_local_names() {
    assert!(is_safe_pn_local("AHU_1"));
    assert!(is_safe_pn_local("a-b.c"));
    assert!(!is_safe_pn_local(""));
    assert!(!is_safe_pn_local("ends."));
    assert!(!is_safe_pn_local("has space"));
    assert!(!is_safe_pn_local("é"));
    assert!(!is_safe_pn_local("-a"));
    assert!(!is_safe_pn_local(".a"));
    assert!(is_safe_pn_local("1a"));
}

#[test]
fn escapes_turtle_strings() {
    assert_eq!(escape_turtle_string("a\"b\\c\nd\re\tf"), "a\\\"b\\\\c\\nd\\re\\tf");
    assert_eq!(escape_turtle_string("plain"), "plain");
}

#[test]
fn observes_only_abbreviable_namespaces() {
    let mut ns = StrSet::new();
    observe_iri(&mut ns, "urn:bldg#AHU_1");
    observe_iri(&mut ns, "urn:bldg#Point_1");
    observe_iri(&mut ns, "urn:other#bad local");
    observe_iri(&mut ns, "no-separator");
    assert_eq!(ns.len(), 1);
    assert_eq!(ns.get(0).as_str(), "urn:bldg#");
}

#[test]
fn prefix_table_numbers_unknown_namespaces_in_order() {
    let mut ns = StrSet::new();
    observe_iri(&mut ns, "urn:zzz#a");
    observe_iri(&mut ns, "urn:example#a");
    observe_iri(&mut ns, "urn:aaa#a");
    let table = PrefixTable::build(&ns);
    assert_eq!(table.abbreviate("urn:aaa#x"), "ns1:x");
    assert_eq!(table.abbreviate("urn:zzz#x"), "ns2:x");
    assert_eq!(table.abbreviate("urn:example#x"), "ex:x");
    assert_eq!(table.abbreviate("urn:unbound#x"), "<urn:unbound#x>");
    assert_eq!(table.abbreviate("urn:aaa#bad local"), "<urn:aaa#bad local>");
    assert_eq!(
        table.header(),
        "@prefix ns1: <urn:aaa#> .\n@prefix ex: <urn:example#> .\n@prefix ns2: <urn:zzz#> .\n\n"
    );
    assert_eq!(PrefixTable::build(&StrSet::new()).header(), "");
}

#[test]
fn example_turtle_of_a_tiny_summary() {
    let class_graph = RdfGraph::parse_str(
        "@prefix bs: <urn:bschema#> . @prefix ex: <urn:example#> . bs:A1 ex:link bs:B1 . bs:A1 a ex:A .",
        RdfFormat::Turtle,
    )
    .unwrap();
    let member_graph = RdfGraph::parse_str(
        "@prefix bs: <urn:bschema#> . @prefix ex: <urn:example#> . @prefix rdfs: <http://www.w3.org/2000/01/rdf-schema#> . \
         bs:A1 rdfs:member ex:a2, ex:a1 . bs:B1 rdfs:member ex:b1 .",
        RdfFormat::Turtle,
    )
    .unwrap();
    let turtle = example_turtle(&class_graph, &member_graph, 5).unwrap();
    assert_eq!(
        turtle,
        "@prefix rdf: <http://www.w3.org/1999/02/22-rdf-syntax-ns#> .\n@prefix ex: <urn:example#> .\n\n(ex:a1 ex:a2) a ex:A ;\n    ex:link (ex:b1) .\n"
    );
}

#[test]
fn parse_errors_are_reported() {
    let r = RdfGraph::parse_str("this is not turtle", RdfFormat::Turtle);
    assert!(matches!(r, Err(BschemaError::Load(_))));
}

#[test]
fn format_names_ignore_case() {
    assert_eq!(format_from_name("TTL"), Some(RdfFormat::Turtle));
    assert_eq!(format_from_name("nt"), Some(RdfFormat::NTriples));
    assert_eq!(format_from_name("NQuads"), Some(RdfFormat::NQuads));
    assert_eq!(format_from_name("owl"), Some(RdfFormat::RdfXml));
    assert_eq!(format_from_name("trig"), Some(RdfFormat::TriG));
    assert_eq!(format_from_name("json"), None);
}

#[test]
fn serializes_with_the_prefix_header() {
    let g = RdfGraph::parse_str("<urn:example#s> <urn:example#p> \"v\" .", RdfFormat::Turtle).unwrap();
    let ttl = g.serialize_turtle().unwrap();
    assert!(ttl.starts_with(&prefix_header()));
    assert!(prefix_header().starts_with("@prefix xsd: <http://www.w3.org/2001/XMLSchema#> .\n"));
    assert!(prefix_header().ends_with(" .\n\n"));
    assert_eq!(prefix_header().lines().filter(|l| l.starts_with("@prefix")).count(), prefix_table().len());
    let back = RdfGraph::parse_str(&ttl, RdfFormat::Turtle).unwrap();
    assert_eq!(back.len(), 1);
    assert_eq!(back.triples()[0].object.to_string(), "\"v\"");
}

#[test]
fn parsing_keeps_the_default_graph_newest_first() {
    let g = RdfGraph::parse_str(
        "<urn:x#a> <urn:x#p> <urn:x#b> . <urn:x#c> <urn:x#p> <urn:x#d> . <urn:x#a> <urn:x#p> <urn:x#b> .",
        RdfFormat::Turtle,
    )
    .unwrap();
    assert_eq!(g.len(), 2);
    let subjects: Vec<String> = g.triples().iter().map(|t| t.subject.to_string()).collect();
    assert_eq!(subjects, vec!["<urn:x#c>".to_string(), "<urn:x#a>".to_string()]);
    let q = RdfGraph::parse_str("<urn:x#a> <urn:x#p> <urn:x#b> <urn:x#g> .", RdfFormat::NQuads).unwrap();
    assert_eq!(q.len(), 0);
}

#[test]
fn skolemizes_blank_nodes_and_literals() {
    let mut g = RdfGraph::empty();
    g.insert(&triple(
        SubjectNode::Blank(Blank { id: "b7".to_string() }),
        "urn:x#p",
        RdfTerm::Literal(LiteralValue {
            value: "22.5".to_string(),
            datatype: "http://www.w3.org/2001/XMLSchema#double".to_string(),
            language: None,
        }),
    ));
    let (sk, rev) = g.skolemize().unwrap();
    assert_eq!(sk.len(), 2);
    assert_eq!(rev.len(), 1);
    let ts = sk.triples();
    let main = ts.iter().find(|t| t.predicate.as_str() == "urn:x#p").unwrap();
    assert_eq!(main.subject.to_string(), "<urn:bschema-rs:skolem:b7>");
    let lit_node = match &main.object {
        RdfTerm::Iri(n) => n.as_str().to_string(),
        other => panic!("literal not skolemized: {other:?}"),
    };
    assert!(lit_node.starts_with("urn:bschema-rs:skolem-literal:"));
    let hex = &lit_node["urn:bschema-rs:skolem-literal:".len()..];
    assert_eq!(hex.len(), 16);
    assert!(hex.chars().all(|c| c.is_ascii_hexdigit() && !c.is_ascii_uppercase()));
    let typed = ts.iter().find(|t| t.predicate.as_str() == TYPE).unwrap();
    assert_eq!(typed.subject.to_string(), format!("<{lit_node}>"));
    assert_eq!(typed.object.to_string(), "<http://www.w3.org/2001/XMLSchema#double>");
    let back = rev.get(&iri(&lit_node)).unwrap();
    assert_eq!(back.to_string(), "\"22.5\"^^<http://www.w3.org/2001/XMLSchema#double>");
}

#[test]
fn equal_literals_share_one_skolem_node() {
    let g = RdfGraph::parse_str("<urn:x#a> <urn:x#p> \"v\" . <urn:x#b> <urn:x#p> \"v\" .", RdfFormat::Turtle).unwrap();
    let (sk, rev) = g.skolemize().unwrap();
    assert_eq!(rev.len(), 1);
    assert_eq!(sk.len(), 3);
}

#[test]
fn canonical_forms_ignore_blank_labels() {
    let a = vec![
        triple(SubjectNode::Blank(Blank { id: "x".to_string() }), "urn:x#p", RdfTerm::Iri(iri("urn:x#o"))),
        triple(SubjectNode::Iri(iri("urn:x#s")), "urn:x#q", RdfTerm::Blank(Blank { id: "x".to_string() })),
    ];
    let b = vec![
        triple(SubjectNode::Iri(iri("urn:x#s")), "urn:x#q", RdfTerm::Blank(Blank { id: "zz".to_string() })),
        triple(SubjectNode::Blank(Blank { id: "zz".to_string() }), "urn:x#p", RdfTerm::Iri(iri("urn:x#o"))),
    ];
    assert!(is_isomorphic(&a, &b));
    assert_eq!(common_triple_count(&a, &b), 2);
    let c = vec![triple(SubjectNode::Iri(iri("urn:x#s")), "urn:x#q", RdfTerm::Iri(iri("urn:x#o")))];
    assert!(!is_isomorphic(&a, &c));
    let ca = canonicalize(&a);
    let cc = canonicalize(&c);
    assert_eq!(ca.len(), 2);
    assert_eq!(common_canon_triple_count(&ca, &cc), 0);
    assert!(ca.contains(&("N<urn:x#s>".to_string(), "N<urn:x#q>".to_string(), "_:c0".to_string())));
    assert_eq!(named_node_key("urn:x#s"), "N<urn:x#s>");
}

#[test]
fn class_of_a_node_prefers_bs_classes() {
    let g = RdfGraph::parse_str(
        "<urn:x#a> a <urn:x#T>, <urn:bschema#B1> . <urn:x#b> a <urn:x#T> . <urn:x#c> <urn:x#p> \"1\" .",
        RdfFormat::Turtle,
    )
    .unwrap();
    assert_eq!(get_class(&RdfTerm::Iri(iri("urn:x#a")), &g).as_str(), "urn:bschema#B1");
    assert_eq!(get_class(&RdfTerm::Iri(iri("urn:x#b")), &g).as_str(), "urn:x#T");
    assert_eq!(get_class(&RdfTerm::Iri(iri("urn:x#c")), &g).as_str(), "http://www.w3.org/2000/01/rdf-schema#Resource");
    let lit = RdfTerm::Literal(LiteralValue {
        value: "1".to_string(),
        datatype: "http://www.w3.org/2001/XMLSchema#string".to_string(),
        language: None,
    });
    assert_eq!(get_class(&lit, &g).as_str(), "http://www.w3.org/2000/01/rdf-schema#Literal");
}

#[test]
fn class_patterns_keep_named_objects_of_unit_predicates() {
    let g = RdfGraph::parse_str(
        "@prefix s223: <http://data.ashrae.org/standard223#> . <urn:x#a> a <urn:x#T> ; s223:hasUnit <urn:x#Volt> ; <urn:x#p> <urn:x#b> . <urn:x#b> a <urn:x#U> .",
        RdfFormat::Turtle,
    )
    .unwrap();
    assert!(named_node_predicates().iter().any(|p| p.as_str() == "http://data.ashrae.org/standard223#hasUnit"));
    let unit = triple(SubjectNode::Iri(iri("urn:x#a")), "http://data.ashrae.org/standard223#hasUnit", RdfTerm::Iri(iri("urn:x#Volt")));
    let p = class_pattern(&unit, &g);
    assert_eq!(p.subject.to_string(), "<urn:x#T>");
    assert_eq!(p.object.to_string(), "<urn:x#Volt>");
    let link = triple(SubjectNode::Iri(iri("urn:x#a")), "urn:x#p", RdfTerm::Iri(iri("urn:x#b")));
    assert_eq!(class_pattern(&link, &g).object.to_string(), "<urn:x#U>");
    let cg = class_graph(&g).unwrap();
    assert_eq!(cg.len(), 4);
}

#[test]
fn one_hop_subgraph_holds_neighbours_and_their_types() {
    let g = RdfGraph::parse_str(
        "<urn:x#a> a <urn:x#T> ; <urn:x#p> <urn:x#b> . <urn:x#b> a <urn:x#U> ; <urn:x#q> <urn:x#c> . <urn:x#c> a <urn:x#V> .",
        RdfFormat::Turtle,
    )
    .unwrap();
    let sub = subgraph_with_hops(&g, &SubjectNode::Iri(iri("urn:x#a")), 1, false).unwrap();
    let mut got: Vec<String> = sub
        .triples()
        .iter()
        .map(|t| format!("{} {} {}", t.subject.to_string(), t.predicate.as_str(), t.object.to_string()))
        .collect();
    got.sort();
    assert_eq!(
        got,
        vec![
            format!("<urn:x#a> {TYPE} <urn:x#T>"),
            "<urn:x#a> urn:x#p <urn:x#b>".to_string(),
            format!("<urn:x#b> {TYPE} <urn:x#U>"),
        ]
    );
    let two = subgraph_with_hops(&g, &SubjectNode::Iri(iri("urn:x#a")), 2, false).unwrap();
    assert_eq!(two.len(), 5);
}

#[test]
fn overlaps_of_differing_groups() {
    let n = |s: &str| SubjectNode::Iri(iri(&format!("urn:x#{s}")));
    let list1 = vec![vec![n("a"), n("b"), n("c")], vec![n("d")]];
    let list2 = vec![vec![n("c"), n("b"), n("a"), n("a")], vec![n("a"), n("b"), n("e"), n("f")], vec![]];
    // The first pair holds the same members and is left out; an empty
    // group counts as size 1 when compared.
    assert_eq!(
        sublist_overlaps(&list1, &list2),
        vec![(0, 1, 2, 3), (0, 2, 0, 1), (1, 0, 0, 1), (1, 1, 0, 1), (1, 2, 0, 1)]
    );
}

#[test]
fn graph_from_quads_keeps_default_graph_triples_once() {
    let q = |s: &str, o: &str, default_graph: bool| {
        ((false, s.to_string()), "urn:x#p".to_string(), TermParts::Named(o.to_string()), default_graph)
    };
    let g = graph_from_quads(vec![
        q("urn:x#a", "urn:x#b", true),
        q("urn:x#a", "urn:x#c", false),
        q("urn:x#a", "urn:x#b", true),
        ((true, "n1".to_string()), "urn:x#p".to_string(), TermParts::Literal("v".to_string(), None, None), true),
    ]);
    let ts = g.triples();
    assert_eq!(ts.len(), 2);
    assert!(ts[0].subject.equals(&SubjectNode::Blank(Blank { id: "n1".to_string() })));
    match &ts[0].object {
        RdfTerm::Literal(l) => assert_eq!(l.datatype, "http://www.w3.org/2001/XMLSchema#string"),
        _ => panic!("expected a literal"),
    }
    assert!(ts[1].object.equals(&RdfTerm::Iri(iri("urn:x#b"))));
}

#[test]
fn ntriples_and_turtle_text_follow_the_triples() {
    let g = RdfGraph::parse_str("<urn:x#s> <urn:x#p> \"v\" .", RdfFormat::Turtle).unwrap();
    assert_eq!(g.to_ntriples(), "<urn:x#s> <urn:x#p> \"v\" .\n");
    let ttl = g.serialize_turtle().unwrap();
    assert!(ttl.len() > prefix_header().len());
    assert!(ttl.contains("<urn:x#s>"));
    let empty = RdfGraph::parse_str("", RdfFormat::Turtle).unwrap();
    assert_ne!(empty.serialize_turtle().unwrap(), ttl);
}

#[test]
fn file_names_give_their_format_by_extension() {
    assert_eq!(format_from_file_name("building.TTL").unwrap(), RdfFormat::Turtle);
    assert_eq!(format_from_file_name("dump.2024.nt").unwrap(), RdfFormat::NTriples);
    assert_eq!(format_from_file_name("model.owl").unwrap(), RdfFormat::RdfXml);
    assert!(matches!(format_from_file_name("README"), Err(BschemaError::UnknownFormat(n)) if n == "README"));
    assert!(matches!(format_from_file_name(".ttl"), Err(BschemaError::UnknownFormat(n)) if n == ".ttl"));
    assert!(matches!(format_from_file_name("data.json"), Err(BschemaError::UnknownFormat(_))));
    assert!(matches!(format_from_file_name("data."), Err(BschemaError::UnknownFormat(_))));
}

#[test]
fn serializing_fails_only_where_ntriples_cannot_be_read_back() {
    let mut g = RdfGraph::empty();
    g.insert(&triple(SubjectNode::Iri(iri("urn:a b")), "urn:p", RdfTerm::Iri(iri("urn:o"))));
    assert!(matches!(g.serialize_turtle(), Err(BschemaError::Parse(_))));
    let mut g = RdfGraph::empty();
    g.insert(&triple(SubjectNode::Iri(iri("urn:a")), "urn:p", RdfTerm::Iri(iri("urn:o"))));
    assert!(g.serialize_turtle().unwrap().contains("<urn:a> <urn:p> <urn:o>"));
}

#[test]
fn parsing_text_reads_its_default_graph() {
    let g = RdfGraph::parse_str("<urn:x#a> <urn:x#p> <urn:x#b> .\n<urn:x#a> <urn:x#p> <urn:x#c> <urn:x#g> .", RdfFormat::NQuads).unwrap();
    assert_eq!(g.len(), 1);
    assert_eq!(g.triples()[0].object.to_string(), "<urn:x#b>");
}

#[test]
fn more_hops_and_classes_only_add_triples() {
    let g = RdfGraph::parse_str(
        "<urn:x#a> a <urn:x#T> ; <urn:x#p> <urn:x#b> . <urn:x#b> a <urn:x#U> ; <urn:x#q> <urn:x#c> . <urn:x#c> a <urn:x#V> ; <urn:x#r> <urn:x#d> .",
        RdfFormat::Turtle,
    )
    .unwrap();
    let text = |sub: &RdfGraph| -> Vec<String> {
        sub.triples().iter().map(|t| format!("{} {} {}", t.subject.to_string(), t.predicate.as_str(), t.object.to_string())).collect()
    };
    let a = SubjectNode::Iri(iri("urn:x#a"));
    for get_classes in [false, true] {
        let mut previous: Vec<String> = Vec::new();
        for hops in 0..4 {
            let now = text(&subgraph_with_hops(&g, &a, hops, get_classes).unwrap());
            assert!(previous.iter().all(|t| now.contains(t)), "{hops} {get_classes}");
            previous = now;
        }
        assert!(previous.len() > 3);
    }
    for hops in 0..4 {
        let without = text(&subgraph_with_hops(&g, &a, hops, false).unwrap());
        let with = text(&subgraph_with_hops(&g, &a, hops, true).unwrap());
        assert!(without.iter().all(|t| with.contains(t)), "{hops}");
    }
}

#[test]
fn a_class_graph_is_no_larger_than_its_graph() {
    let g = RdfGraph::parse_str(
        "<urn:x#a> a <urn:x#T> ; <urn:x#p> <urn:x#b> . <urn:x#e> a <urn:x#T> ; <urn:x#p> <urn:x#f> . <urn:x#b> a <urn:x#U> . <urn:x#f> a <urn:x#U> .",
        RdfFormat::Turtle,
    )
    .unwrap();
    let cg = class_graph(&g).unwrap();
    assert!(cg.len() <= g.len());
    assert_eq!(cg.len(), 3);
}
