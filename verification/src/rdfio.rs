//! The bridge to oxigraph's RDF parsers and serializers: conversions between
//! oxigraph's terms and the library's plain terms.

use vstd::prelude::*;
use crate::error::BschemaError;
use crate::model::LiteralValue;
use oxigraph::io::{RdfParseError, RdfParser, RdfSerializer};
use oxigraph::store::{LoaderError, SerializerError};
use std::hash::{Hash, Hasher};

verus! {

/// Declares `oxigraph::model::Quad`.
#[verifier::external_type_specification]
#[verifier::external_body]
pub struct ExQuad(oxigraph::model::Quad);

/// Declares `oxigraph::model::NamedOrBlankNode`.
#[verifier::external_type_specification]
#[verifier::external_body]
pub struct ExOxNamedOrBlankNode(oxigraph::model::NamedOrBlankNode);

/// Declares `oxigraph::model::NamedNode`.
#[verifier::external_type_specification]
#[verifier::external_body]
pub struct ExOxNamedNode(oxigraph::model::NamedNode);

/// Declares `oxigraph::model::Term`.
#[verifier::external_type_specification]
#[verifier::external_body]
pub struct ExOxTerm(oxigraph::model::Term);

/// Declares `oxigraph::model::Literal`.
#[verifier::external_type_specification]
#[verifier::external_body]
pub struct ExOxLiteral(oxigraph::model::Literal);

/// The RDF syntaxes the library reads.
#[derive(Debug, Clone, Copy, PartialEq, Eq, Structural)]
pub enum RdfFormat {
    NQuads,
    NTriples,
    RdfXml,
    TriG,
    Turtle,
}

/// The parts of a term as plain strings: an IRI, a blank node label, or a
/// literal's value, explicit datatype IRI (absent for simple and
/// language-tagged literals) and language tag.
pub enum TermParts {
    Named(String),
    Blank(String),
    Literal(String, Option<String>, Option<String>),
}

/// Whether oxigraph's `RdfParser` for `format` reads every statement of
/// `data` without a syntax error.
pub uninterp spec fn rdf_accepted(data: Seq<u8>, format: RdfFormat) -> bool;

/// Parses `data` in `format` with oxigraph's `RdfParser`
/// (`from_format(..).rename_blank_nodes().for_slice(..)`), collecting the
/// quads or the first error, as a load error (`LoaderError::Parsing`): it
/// succeeds exactly when the parser accepts the whole input, named
/// `rdf_accepted`. Blank nodes get fresh random
/// labels, so nothing is stated of the quads returned.
#[verifier::external_body]
pub(crate) fn parse_quads(data: &[u8], format: RdfFormat) -> (r: Result<Vec<oxigraph::model::Quad>, LoaderError>)
    ensures
        r is Ok <==> rdf_accepted(data@, format),
{
    let format = match format {
        RdfFormat::NQuads => oxigraph::io::RdfFormat::NQuads,
        RdfFormat::NTriples => oxigraph::io::RdfFormat::NTriples,
        RdfFormat::RdfXml => oxigraph::io::RdfFormat::RdfXml,
        RdfFormat::TriG => oxigraph::io::RdfFormat::TriG,
        RdfFormat::Turtle => oxigraph::io::RdfFormat::Turtle,
    };
    let quads = RdfParser::from_format(format).rename_blank_nodes().for_slice(data);
    quads.collect::<Result<Vec<_>, _>>().map_err(|e| LoaderError::Parsing(RdfParseError::Syntax(e)))
}

/// Splits an oxigraph `Quad` into its subject, predicate and object, and
/// whether it lies in the default graph (`GraphName::is_default_graph`).
#[verifier::external_body]
pub(crate) fn quad_parts(q: oxigraph::model::Quad) -> (r: (oxigraph::model::NamedOrBlankNode, oxigraph::model::NamedNode, oxigraph::model::Term, bool)) {
    let in_default_graph = q.graph_name.is_default_graph();
    (q.subject, q.predicate, q.object, in_default_graph)
}

/// The IRI of an oxigraph `NamedNode` (`NamedNode::into_string`).
#[verifier::external_body]
pub(crate) fn named_node_string(n: oxigraph::model::NamedNode) -> (r: String) {
    n.into_string()
}

/// Whether an oxigraph subject is a blank node, with its label or IRI
/// (`into_string` of the node inside).
#[verifier::external_body]
pub(crate) fn node_parts(n: oxigraph::model::NamedOrBlankNode) -> (r: (bool, String)) {
    match n {
        oxigraph::model::NamedOrBlankNode::NamedNode(n) => (false, n.into_string()),
        oxigraph::model::NamedOrBlankNode::BlankNode(b) => (true, b.into_string()),
    }
}

/// The parts of an oxigraph `Term` (`into_string` of nodes,
/// `Literal::destruct` of literals).
#[verifier::external_body]
pub(crate) fn term_parts(t: oxigraph::model::Term) -> (r: TermParts) {
    match t {
        oxigraph::model::Term::NamedNode(n) => TermParts::Named(n.into_string()),
        oxigraph::model::Term::BlankNode(b) => TermParts::Blank(b.into_string()),
        oxigraph::model::Term::Literal(l) => {
            let (value, datatype, language) = l.destruct();
            TermParts::Literal(value, datatype.map(oxigraph::model::NamedNode::into_string), language)
        },
    }
}

/// The literal that `Literal::new_language_tagged_literal_unchecked` makes
/// of a value and a language tag.
pub uninterp spec fn language_literal_of(value: Seq<char>, language: Seq<char>) -> oxigraph::model::Literal;

/// An oxigraph literal with a language tag
/// (`Literal::new_language_tagged_literal_unchecked`, which stores both
/// strings as given); it is named `language_literal_of`.
#[verifier::external_body]
pub(crate) fn ox_language_literal(value: &String, language: &String) -> (r: oxigraph::model::Literal)
    ensures
        r == language_literal_of(value@, language@),
{
    oxigraph::model::Literal::new_language_tagged_literal_unchecked(value.clone(), language.clone())
}

/// The literal that `Literal::new_typed_literal` makes of a value and the
/// datatype IRI taken by `NamedNode::new_unchecked`.
pub uninterp spec fn typed_literal_of(value: Seq<char>, datatype: Seq<char>) -> oxigraph::model::Literal;

/// An oxigraph literal of the datatype named `datatype`
/// (`Literal::new_typed_literal` with `NamedNode::new_unchecked`, which
/// store the strings as given, an `xsd:string` literal as a simple one);
/// it is named `typed_literal_of`.
#[verifier::external_body]
pub(crate) fn ox_typed_literal(value: &String, datatype: &String) -> (r: oxigraph::model::Literal)
    ensures
        r == typed_literal_of(value@, datatype@),
{
    oxigraph::model::Literal::new_typed_literal(value.clone(), oxigraph::model::NamedNode::new_unchecked(datatype.clone()))
}

/// The oxigraph `Literal` for `l`: language-tagged when it has a language
/// tag, else typed with its datatype.
pub(crate) fn ox_literal(l: &LiteralValue) -> (r: oxigraph::model::Literal)
    ensures
        r == match l.language {
            Some(lang) => language_literal_of(l.value@, lang@),
            None => typed_literal_of(l.value@, l.datatype@),
        },
{
    match &l.language {
        Some(lang) => ox_language_literal(&l.value, lang),
        None => ox_typed_literal(&l.value, &l.datatype),
    }
}

/// Whether oxigraph's N-Triples `RdfParser` reads every statement of the
/// document `text` without a syntax error.
pub uninterp spec fn ntriples_accepted(text: Seq<char>) -> bool;

/// The Turtle bytes that oxigraph's `RdfSerializer` writes for the triples
/// that its `RdfParser` reads from the N-Triples document `text`, in order.
pub uninterp spec fn turtle_of_ntriples(text: Seq<char>) -> Seq<u8>;

/// Reads `text` as N-Triples (`RdfParser::from_format(NTriples).for_slice`,
/// which keeps blank node labels) and writes its triples as Turtle
/// (`RdfSerializer::from_format(Turtle).for_writer(Vec::new())`,
/// `serialize_quad` for each, then `finish`). A syntax error comes back as
/// `BschemaError::Parse`. The triples read lie in the default graph and the
/// writer is a `Vec`, so the serializer's `io::Result`s are never errors:
/// the call succeeds exactly when the parser accepts `text`, named
/// `ntriples_accepted`, and the bytes written are named `turtle_of_ntriples`.
#[verifier::external_body]
pub(crate) fn ntriples_to_turtle(text: &str) -> (r: Result<Vec<u8>, BschemaError>)
    ensures
        r is Ok <==> ntriples_accepted(text@),
        r matches Err(e) ==> e is Parse,
        r matches Ok(b) ==> b@ == turtle_of_ntriples(text@),
{
    let mut w = RdfSerializer::from_format(oxigraph::io::RdfFormat::Turtle).for_writer(Vec::new());
    for q in RdfParser::from_format(oxigraph::io::RdfFormat::NTriples).for_slice(text.as_bytes()) {
        let q = q.map_err(|e| BschemaError::Parse(RdfParseError::Syntax(e)))?;
        w.serialize_quad(&q).map_err(|e| BschemaError::Serialize(SerializerError::Io(e)))?;
    }
    w.finish().map_err(|e| BschemaError::Serialize(SerializerError::Io(e)))
}

/// The text that `String::from_utf8_lossy` makes of `bytes`: their UTF-8
/// decoding, with each invalid sequence replaced by U+FFFD.
pub uninterp spec fn lossy_utf8(bytes: Seq<u8>) -> Seq<char>;

/// `String::from_utf8_lossy` of `bytes`, owned; its text is named
/// `lossy_utf8`.
#[verifier::external_body]
pub(crate) fn utf8_lossy(bytes: &Vec<u8>) -> (r: String)
    ensures
        r@ == lossy_utf8(bytes@),
{
    String::from_utf8_lossy(bytes).into_owned()
}

/// The `Hash` of an oxigraph `Literal` under `DefaultHasher::new()`. Hashing
/// writes integers in the machine's byte order, so nothing is stated of the
/// value.
#[verifier::external_body]
pub(crate) fn literal_hash(l: &oxigraph::model::Literal) -> (r: u64) {
    let mut hasher = std::collections::hash_map::DefaultHasher::new();
    l.hash(&mut hasher);
    hasher.finish()
}

} // verus!
