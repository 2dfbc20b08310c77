//! Namespace IRIs and the vocabulary terms the algorithm refers to.

use vstd::prelude::*;
use vstd::string::*;
use crate::graph::RdfGraph;
use crate::model::Iri;

verus! {

pub const BS_BASE: &'static str = "urn:bschema#";
pub const EX_BASE: &'static str = "urn:example#";
pub const HPF_BASE: &'static str = "urn:hpflex#";
pub const HPFS_BASE: &'static str = "urn:hpflex/shapes#";
pub const PARAM_BASE: &'static str = "urn:___param___#";
pub const BRICK_BASE: &'static str = "https://brickschema.org/schema/Brick#";
pub const TAG_BASE: &'static str = "https://brickschema.org/schema/BrickTag#";
pub const BSH_BASE: &'static str = "https://brickschema.org/schema/BrickShape#";
pub const REF_BASE: &'static str = "https://brickschema.org/schema/Brick/ref#";
pub const REC_BASE: &'static str = "https://w3id.org/rec#";
pub const S4BLDG_BASE: &'static str = "https://saref.etsi.org/saref4bldg#";
pub const S4ENER_BASE: &'static str = "https://saref.etsi.org/saref4ener#";
pub const SAREF_BASE: &'static str = "https://saref.etsi.org/core#";
pub const OWL_BASE: &'static str = "http://www.w3.org/2002/07/owl#";
pub const RDF_BASE: &'static str = "http://www.w3.org/1999/02/22-rdf-syntax-ns#";
pub const RDFS_BASE: &'static str = "http://www.w3.org/2000/01/rdf-schema#";
pub const SKOS_BASE: &'static str = "http://www.w3.org/2004/02/skos/core#";
pub const SH_BASE: &'static str = "http://www.w3.org/ns/shacl#";
pub const XSD_BASE: &'static str = "http://www.w3.org/2001/XMLSchema#";
pub const BOB_BASE: &'static str = "http://data.ashrae.org/standard223/si-builder#";
pub const QUDT_BASE: &'static str = "http://qudt.org/schema/qudt/";
pub const QK_BASE: &'static str = "http://qudt.org/vocab/quantitykind/";
pub const DV_BASE: &'static str = "http://qudt.org/vocab/dimensionvector/";
pub const UNIT_BASE: &'static str = "http://qudt.org/vocab/unit/";
pub const BACNET_BASE: &'static str = "http://data.ashrae.org/bacnet/2020#";
pub const S223_BASE: &'static str = "http://data.ashrae.org/standard223#";
pub const BM_BASE: &'static str = "https://nrel.gov/BuildingMOTIF#";
pub const CONSTRAINT_BASE: &'static str = "https://nrel.gov/BuildingMOTIF/constraints#";

/// Base IRI used to skolemize blank nodes.
pub const BNODE_BASE: &'static str = "urn:bschema-rs:skolem:";

/// Base IRI used to skolemize literals, distinct from [`BNODE_BASE`].
pub const LITERAL_SKOLEM_BASE: &'static str = "urn:bschema-rs:skolem-literal:";

/// The IRI of rdf:type, written `a` in Turtle.
pub const RDF_TYPE_IRI: &'static str = "http://www.w3.org/1999/02/22-rdf-syntax-ns#type";

/// The IRI of owl:Ontology.
pub const OWL_ONTOLOGY_IRI: &'static str = "http://www.w3.org/2002/07/owl#Ontology";

/// The IRI of rdf:Seq.
pub const RDF_SEQ_IRI: &'static str = "http://www.w3.org/1999/02/22-rdf-syntax-ns#Seq";

/// The IRI of rdfs:member.
pub const RDFS_MEMBER_IRI: &'static str = "http://www.w3.org/2000/01/rdf-schema#member";

/// The IRI of rdfs:Literal.
pub const RDFS_LITERAL_IRI: &'static str = "http://www.w3.org/2000/01/rdf-schema#Literal";

/// The IRI of rdfs:Resource.
pub const RDFS_RESOURCE_IRI: &'static str = "http://www.w3.org/2000/01/rdf-schema#Resource";

pub const S223_HAS_ASPECT: &'static str = "http://data.ashrae.org/standard223#hasAspect";
pub const S223_HAS_ENUMERATION_KIND: &'static str = "http://data.ashrae.org/standard223#hasEnumerationKind";
pub const S223_HAS_QUANTITY_KIND: &'static str = "http://data.ashrae.org/standard223#hasQuantityKind";
pub const S223_HAS_UNIT: &'static str = "http://data.ashrae.org/standard223#hasUnit";
pub const S223_HAS_MEDIUM: &'static str = "http://data.ashrae.org/standard223#hasMedium";
pub const S223_OF_CONSTITUENT: &'static str = "http://data.ashrae.org/standard223#ofConstituent";
pub const QUDT_HAS_UNIT: &'static str = "http://qudt.org/schema/qudt/hasUnit";
pub const S223_HAS_ROLE: &'static str = "http://data.ashrae.org/standard223#hasRole";
pub const S223_HAS_DOMAIN: &'static str = "http://data.ashrae.org/standard223#hasDomain";
pub const BRICK_HAS_UNIT: &'static str = "https://brickschema.org/schema/Brick#hasUnit";
pub const QUDT_HAS_QUANTITY_KIND: &'static str = "http://qudt.org/schema/qudt/hasQuantityKind";

/// A named node in namespace `base` with local part `local`, not checked
/// for validity.
pub fn ns(base: &str, local: &str) -> (r: Iri)
    ensures
        r@ == base@ + local@,
{
    let mut s = base.to_owned();
    s.append(local);
    Iri::new_unchecked(s)
}

/// The named node for a constant IRI.
pub fn named(iri: &str) -> (r: Iri)
    ensures
        r@ == iri@,
{
    Iri::new_unchecked(iri.to_owned())
}

/// The IRIs of the predicates whose object is itself taken as the class of
/// that object when class patterns are built.
pub open spec fn spec_named_node_predicates() -> Seq<Seq<char>> {
    seq![
        S223_HAS_ASPECT@,
        S223_HAS_ENUMERATION_KIND@,
        S223_HAS_QUANTITY_KIND@,
        S223_HAS_UNIT@,
        S223_HAS_MEDIUM@,
        S223_OF_CONSTITUENT@,
        QUDT_HAS_UNIT@,
        S223_HAS_ROLE@,
        S223_HAS_DOMAIN@,
        BRICK_HAS_UNIT@,
        QUDT_HAS_QUANTITY_KIND@,
    ]
}

/// The predicates whose object is itself taken as the class of that object
/// when class patterns are built (units, quantity kinds, aspects, ...).
pub fn named_node_predicates() -> (r: Vec<Iri>)
    ensures
        r@.map_values(|n: Iri| n@) == spec_named_node_predicates(),
{
    let r = vec![
        named(S223_HAS_ASPECT),
        named(S223_HAS_ENUMERATION_KIND),
        named(S223_HAS_QUANTITY_KIND),
        named(S223_HAS_UNIT),
        named(S223_HAS_MEDIUM),
        named(S223_OF_CONSTITUENT),
        named(QUDT_HAS_UNIT),
        named(S223_HAS_ROLE),
        named(S223_HAS_DOMAIN),
        named(BRICK_HAS_UNIT),
        named(QUDT_HAS_QUANTITY_KIND),
    ];
    assert(r@.map_values(|n: Iri| n@) =~= spec_named_node_predicates());
    r
}

/// The `urn:example#` subject of the ontology declaration that
/// `create_bschema` strips before processing.
pub fn ex_ontology_subject() -> (r: Iri)
    ensures
        r@ == EX_BASE@,
{
    named(EX_BASE)
}

/// Prefixes are only needed when text is written, where they are computed
/// from [`prefix_table`]; a graph holds none, so there is nothing to bind.
pub fn bind_prefixes(graph: &RdfGraph) {
}

/// `(prefix, namespace IRI)` pairs of the known namespaces, used to shorten
/// IRIs in Turtle output.
pub open spec fn spec_prefix_table() -> Seq<(&'static str, &'static str)> {
    seq![
        ("xsd", XSD_BASE),
        ("rdf", RDF_BASE),
        ("owl", OWL_BASE),
        ("rdfs", RDFS_BASE),
        ("skos", SKOS_BASE),
        ("sh", SH_BASE),
        ("quantitykind", QK_BASE),
        ("qudt", QUDT_BASE),
        ("unit", UNIT_BASE),
        ("ref", REF_BASE),
        ("rec", REC_BASE),
        ("brick", BRICK_BASE),
        ("tag", TAG_BASE),
        ("bsh", BSH_BASE),
        ("P", PARAM_BASE),
        ("constraint", CONSTRAINT_BASE),
        ("bmotif", BM_BASE),
        ("hpflex", HPF_BASE),
        ("hpfs", HPFS_BASE),
        ("s223", S223_BASE),
        ("ex", EX_BASE),
        ("bs", BS_BASE),
        ("bob", BOB_BASE),
        ("bacnet", BACNET_BASE),
        ("s4bldg", S4BLDG_BASE),
        ("s4ener", S4ENER_BASE),
        ("saref", SAREF_BASE),
    ]
}

/// `(prefix, namespace IRI)` pairs of the known namespaces, used to shorten
/// IRIs in Turtle output.
pub fn prefix_table() -> (r: Vec<(&'static str, &'static str)>)
    ensures
        r@ == spec_prefix_table(),
{
    let r = vec![
        ("xsd", XSD_BASE),
        ("rdf", RDF_BASE),
        ("owl", OWL_BASE),
        ("rdfs", RDFS_BASE),
        ("skos", SKOS_BASE),
        ("sh", SH_BASE),
        ("quantitykind", QK_BASE),
        ("qudt", QUDT_BASE),
        ("unit", UNIT_BASE),
        ("ref", REF_BASE),
        ("rec", REC_BASE),
        ("brick", BRICK_BASE),
        ("tag", TAG_BASE),
        ("bsh", BSH_BASE),
        ("P", PARAM_BASE),
        ("constraint", CONSTRAINT_BASE),
        ("bmotif", BM_BASE),
        ("hpflex", HPF_BASE),
        ("hpfs", HPFS_BASE),
        ("s223", S223_BASE),
        ("ex", EX_BASE),
        ("bs", BS_BASE),
        ("bob", BOB_BASE),
        ("bacnet", BACNET_BASE),
        ("s4bldg", S4BLDG_BASE),
        ("s4ener", S4ENER_BASE),
        ("saref", SAREF_BASE),
    ];
    assert(r@ =~= spec_prefix_table());
    r
}

} // verus!
