//! Errors reported by the library.

use vstd::prelude::*;

verus! {

/// Declares `oxigraph::io::RdfParseError`, the error of the RDF parsers.
#[verifier::external_type_specification]
#[verifier::external_body]
pub struct ExRdfParseError(oxigraph::io::RdfParseError);

/// Declares `oxigraph::store::SerializerError`, the error of writing RDF.
#[verifier::external_type_specification]
#[verifier::external_body]
pub struct ExSerializerError(oxigraph::store::SerializerError);

/// Declares `oxigraph::store::LoaderError`, the error of loading RDF.
#[verifier::external_type_specification]
#[verifier::external_body]
pub struct ExLoaderError(oxigraph::store::LoaderError);

/// Declares `std::io::Error`.
#[verifier::external_type_specification]
#[verifier::external_body]
pub struct ExIoError(std::io::Error);

/// What can go wrong while reading, summarizing or writing RDF.
#[derive(Debug)]
pub enum BschemaError {
    /// RDF text written by the library could not be read back.
    Parse(oxigraph::io::RdfParseError),
    /// RDF input could not be loaded: its text could not be parsed.
    Load(oxigraph::store::LoaderError),
    /// RDF could not be written.
    Serialize(oxigraph::store::SerializerError),
    /// A file could not be read.
    Io(std::io::Error),
    /// A file name whose extension names no known RDF format.
    UnknownFormat(String),
}

/// Result type of the library.
pub type Result<T> = std::result::Result<T, BschemaError>;

} // verus!
