//! RDF terms and triples as plain values: IRIs, blank node identifiers and
//! literals held as strings.

use vstd::prelude::*;
use vstd::string::*;
use crate::util::{push_char, str_equal};

verus! {

/// The mathematical value of a term: an IRI, a blank node identifier, or a
/// literal with its lexical value, datatype IRI and optional language tag.
pub enum STerm {
    Named(Seq<char>),
    Blank(Seq<char>),
    Lit(Seq<char>, Seq<char>, Option<Seq<char>>),
}

/// The mathematical value of a triple.
pub struct STriple {
    pub subject: STerm,
    pub predicate: Seq<char>,
    pub object: STerm,
}

pub open spec fn stripple(subject: STerm, predicate: Seq<char>, object: STerm) -> STriple {
    STriple { subject, predicate, object }
}

/// An IRI.
#[derive(Debug)]
pub struct Iri {
    pub iri: String,
}

/// A blank node, identified by its label.
#[derive(Debug)]
pub struct Blank {
    pub id: String,
}

/// A literal: its lexical value, its datatype IRI (`rdf:langString` when it
/// carries a language tag) and its language tag.
#[derive(Debug)]
pub struct LiteralValue {
    pub value: String,
    pub datatype: String,
    pub language: Option<String>,
}

/// A term in subject position.
#[derive(Debug)]
pub enum SubjectNode {
    Iri(Iri),
    Blank(Blank),
}

/// A term in object position.
#[derive(Debug)]
pub enum RdfTerm {
    Iri(Iri),
    Blank(Blank),
    Literal(LiteralValue),
}

/// An RDF triple.
#[derive(Debug)]
pub struct RdfTriple {
    pub subject: SubjectNode,
    pub predicate: Iri,
    pub object: RdfTerm,
}

impl View for Iri {
    type V = Seq<char>;

    open spec fn view(&self) -> Seq<char> {
        self.iri@
    }
}

impl View for Blank {
    type V = Seq<char>;

    open spec fn view(&self) -> Seq<char> {
        self.id@
    }
}

pub open spec fn opt_view(o: Option<String>) -> Option<Seq<char>> {
    match o {
        Some(s) => Some(s@),
        None => None,
    }
}

impl View for LiteralValue {
    type V = STerm;

    open spec fn view(&self) -> STerm {
        STerm::Lit(self.value@, self.datatype@, opt_view(self.language))
    }
}

impl View for SubjectNode {
    type V = STerm;

    open spec fn view(&self) -> STerm {
        match self {
            SubjectNode::Iri(n) => STerm::Named(n@),
            SubjectNode::Blank(b) => STerm::Blank(b@),
        }
    }
}

impl View for RdfTerm {
    type V = STerm;

    open spec fn view(&self) -> STerm {
        match self {
            RdfTerm::Iri(n) => STerm::Named(n@),
            RdfTerm::Blank(b) => STerm::Blank(b@),
            RdfTerm::Literal(l) => l@,
        }
    }
}

impl View for RdfTriple {
    type V = STriple;

    open spec fn view(&self) -> STriple {
        STriple { subject: self.subject@, predicate: self.predicate@, object: self.object@ }
    }
}

impl Clone for Iri {
    fn clone(&self) -> (r: Self)
        ensures
            r@ == self@,
    {
        Iri { iri: self.iri.clone() }
    }
}

impl Clone for Blank {
    fn clone(&self) -> (r: Self)
        ensures
            r@ == self@,
    {
        Blank { id: self.id.clone() }
    }
}

impl Clone for LiteralValue {
    fn clone(&self) -> (r: Self)
        ensures
            r@ == self@,
    {
        let language = match &self.language {
            Some(l) => Some(l.clone()),
            None => None,
        };
        LiteralValue { value: self.value.clone(), datatype: self.datatype.clone(), language }
    }
}

impl Clone for SubjectNode {
    fn clone(&self) -> (r: Self)
        ensures
            r@ == self@,
    {
        match self {
            SubjectNode::Iri(n) => SubjectNode::Iri(n.clone()),
            SubjectNode::Blank(b) => SubjectNode::Blank(b.clone()),
        }
    }
}

impl Clone for RdfTerm {
    fn clone(&self) -> (r: Self)
        ensures
            r@ == self@,
    {
        match self {
            RdfTerm::Iri(n) => RdfTerm::Iri(n.clone()),
            RdfTerm::Blank(b) => RdfTerm::Blank(b.clone()),
            RdfTerm::Literal(l) => RdfTerm::Literal(l.clone()),
        }
    }
}

impl Clone for RdfTriple {
    fn clone(&self) -> (r: Self)
        ensures
            r@ == self@,
    {
        RdfTriple {
            subject: self.subject.clone(),
            predicate: self.predicate.clone(),
            object: self.object.clone(),
        }
    }
}

impl Iri {
    /// A named node with the given IRI, not checked for validity.
    pub fn new_unchecked(iri: String) -> (r: Self)
        ensures
            r@ == iri@,
    {
        Iri { iri }
    }

    /// The IRI.
    pub fn as_str(&self) -> (r: &str)
        ensures
            r@ == self@,
    {
        self.iri.as_str()
    }

    /// Equality of IRIs.
    pub fn equals(&self, other: &Iri) -> (r: bool)
        ensures
            r == (self@ == other@),
    {
        self.iri == other.iri
    }

    /// The N-Triples form `<iri>`.
    pub fn to_string(&self) -> (r: String)
        ensures
            r@ == spec_term_text(STerm::Named(self@)),
    {
        let mut s = String::new();
        push_char(&mut s, '<');
        s.append(self.iri.as_str());
        push_char(&mut s, '>');
        s
    }
}

impl Blank {
    /// The blank node label.
    pub fn as_str(&self) -> (r: &str)
        ensures
            r@ == self@,
    {
        self.id.as_str()
    }
}

fn opt_string_equal(a: &Option<String>, b: &Option<String>) -> (r: bool)
    ensures
        r == (opt_view(*a) == opt_view(*b)),
{
    match (a, b) {
        (Some(x), Some(y)) => *x == *y,
        (None, None) => true,
        _ => false,
    }
}

impl LiteralValue {
    /// The lexical value.
    pub fn value(&self) -> (r: &str)
        ensures
            r@ == self.value@,
    {
        self.value.as_str()
    }

    /// Equality of value, datatype and language tag.
    pub fn equals(&self, other: &LiteralValue) -> (r: bool)
        ensures
            r == (self@ == other@),
    {
        self.value == other.value && self.datatype == other.datatype && opt_string_equal(&self.language, &other.language)
    }
}

impl SubjectNode {
    /// Equality of terms.
    pub fn equals(&self, other: &SubjectNode) -> (r: bool)
        ensures
            r == (self@ == other@),
    {
        match (self, other) {
            (SubjectNode::Iri(a), SubjectNode::Iri(b)) => a.iri == b.iri,
            (SubjectNode::Blank(a), SubjectNode::Blank(b)) => a.id == b.id,
            _ => false,
        }
    }

    /// The same node as a term in object position.
    pub fn to_term(&self) -> (r: RdfTerm)
        ensures
            r@ == self@,
    {
        match self {
            SubjectNode::Iri(n) => RdfTerm::Iri(n.clone()),
            SubjectNode::Blank(b) => RdfTerm::Blank(b.clone()),
        }
    }

    /// The N-Triples form.
    pub fn to_string(&self) -> (r: String)
        ensures
            r@ == spec_term_text(self@),
    {
        self.to_term().to_string()
    }
}

impl RdfTerm {
    /// Equality of terms.
    pub fn equals(&self, other: &RdfTerm) -> (r: bool)
        ensures
            r == (self@ == other@),
    {
        match (self, other) {
            (RdfTerm::Iri(a), RdfTerm::Iri(b)) => a.iri == b.iri,
            (RdfTerm::Blank(a), RdfTerm::Blank(b)) => a.id == b.id,
            (RdfTerm::Literal(a), RdfTerm::Literal(b)) => a.equals(b),
            _ => false,
        }
    }

    /// The node this term denotes, when it is not a literal.
    pub fn to_node(&self) -> (r: Option<SubjectNode>)
        ensures
            r matches Some(n) ==> n@ == self@,
            r is None <==> self@ is Lit,
    {
        match self {
            RdfTerm::Iri(n) => Some(SubjectNode::Iri(n.clone())),
            RdfTerm::Blank(b) => Some(SubjectNode::Blank(b.clone())),
            RdfTerm::Literal(_) => None,
        }
    }

    /// The N-Triples form of this term: `<iri>`, `_:id`, or a quoted,
    /// escaped literal followed by `@lang` or `^^<datatype>` (nothing for a
    /// plain `xsd:string` literal).
    pub fn to_string(&self) -> (r: String)
        ensures
            r@ == spec_term_text(self@),
    {
        let mut s = String::new();
        match self {
            RdfTerm::Iri(n) => {
                push_char(&mut s, '<');
                s.append(n.iri.as_str());
                push_char(&mut s, '>');
            },
            RdfTerm::Blank(b) => {
                push_char(&mut s, '_');
                push_char(&mut s, ':');
                s.append(b.id.as_str());
            },
            RdfTerm::Literal(l) => {
                push_quoted(&mut s, l.value.as_str());
                match &l.language {
                    Some(lang) => {
                        push_char(&mut s, '@');
                        s.append(lang.as_str());
                    },
                    None => {
                        if !str_equal(l.datatype.as_str(), XSD_STRING_IRI) {
                            push_char(&mut s, '^');
                            push_char(&mut s, '^');
                            push_char(&mut s, '<');
                            s.append(l.datatype.as_str());
                            push_char(&mut s, '>');
                        }
                    },
                }
            },
        }
        s
    }
}

/// The `xsd:string` datatype IRI.
pub const XSD_STRING_IRI: &'static str = "http://www.w3.org/2001/XMLSchema#string";

/// The `rdf:langString` datatype IRI.
pub const RDF_LANG_STRING_IRI: &'static str = "http://www.w3.org/1999/02/22-rdf-syntax-ns#langString";

/// Uppercase hexadecimal digit of `d < 16`.
pub open spec fn hex_upper(d: int) -> char {
    if d < 10 { (d + 48) as char } else { (d + 55) as char }
}

/// A character that N-Triples prints as a `\uXXXX` escape.
pub open spec fn needs_unicode_escape(c: char) -> bool {
    (c as u32) <= 0x1F || c as u32 == 0x7F || c as u32 == 0xFFFE || c as u32 == 0xFFFF
}

/// How one character of a literal's value is printed between quotes.
pub open spec fn escape_quoted_char(c: char) -> Seq<char> {
    if c == '\u{8}' {
        seq!['\\', 'b']
    } else if c == '\t' {
        seq!['\\', 't']
    } else if c == '\n' {
        seq!['\\', 'n']
    } else if c == '\u{C}' {
        seq!['\\', 'f']
    } else if c == '\r' {
        seq!['\\', 'r']
    } else if c == '"' {
        seq!['\\', '"']
    } else if c == '\\' {
        seq!['\\', '\\']
    } else if needs_unicode_escape(c) {
        let v = c as u32 as int;
        seq!['\\', 'u', hex_upper(v / 4096), hex_upper((v / 256) % 16), hex_upper((v / 16) % 16), hex_upper(v % 16)]
    } else {
        seq![c]
    }
}

/// The escaped body of a quoted literal value.
pub open spec fn escape_quoted(s: Seq<char>) -> Seq<char>
    decreases s.len(),
{
    if s.len() == 0 {
        Seq::empty()
    } else {
        escape_quoted(s.drop_last()) + escape_quoted_char(s.last())
    }
}

/// The N-Triples form of a term.
pub open spec fn spec_term_text(t: STerm) -> Seq<char> {
    match t {
        STerm::Named(iri) => seq!['<'] + iri + seq!['>'],
        STerm::Blank(id) => seq!['_', ':'] + id,
        STerm::Lit(value, datatype, language) => {
            let quoted = seq!['"'] + escape_quoted(value) + seq!['"'];
            match language {
                Some(lang) => quoted + seq!['@'] + lang,
                None => if datatype == XSD_STRING_IRI@ {
                    quoted
                } else {
                    quoted + seq!['^', '^', '<'] + datatype + seq!['>']
                },
            }
        },
    }
}

fn hex_digit_upper(d: u32) -> (c: char)
    requires
        d < 16,
    ensures
        c == hex_upper(d as int),
{
    if d < 10 {
        proof {
            assert((d + 48) as char == hex_upper(d as int));
        }
        char_of(d + 48)
    } else {
        char_of(d + 55)
    }
}

/// The character with code point `v` (an ASCII code point here).
fn char_of(v: u32) -> (c: char)
    requires
        v < 128,
    ensures
        c == v as char,
{
    let b = v as u8;
    b as char
}

/// Appends `"value"` to `s` with N-Triples escapes.
fn push_quoted(s: &mut String, value: &str)
    ensures
        final(s)@ == old(s)@ + seq!['"'] + escape_quoted(value@) + seq!['"'],
{
    push_char(s, '"');
    let ghost start = s@;
    for c in it: value.chars()
        invariant
            it.seq() == value@,
            s@ == start + escape_quoted(it.seq().take(it.index() as int)),
    {
        let ghost before = it.seq().take(it.index() as int);
        proof {
            assert(it.seq().take(it.index() + 1).drop_last() =~= before);
        }
        if c == '\u{8}' {
            push_char(s, '\\');
            push_char(s, 'b');
        } else if c == '\t' {
            push_char(s, '\\');
            push_char(s, 't');
        } else if c == '\n' {
            push_char(s, '\\');
            push_char(s, 'n');
        } else if c == '\u{C}' {
            push_char(s, '\\');
            push_char(s, 'f');
        } else if c == '\r' {
            push_char(s, '\\');
            push_char(s, 'r');
        } else if c == '"' {
            push_char(s, '\\');
            push_char(s, '"');
        } else if c == '\\' {
            push_char(s, '\\');
            push_char(s, '\\');
        } else if (c as u32) <= 0x1F || c as u32 == 0x7F || c as u32 == 0xFFFE || c as u32 == 0xFFFF {
            let v = c as u32;
            push_char(s, '\\');
            push_char(s, 'u');
            push_char(s, hex_digit_upper(v / 4096));
            push_char(s, hex_digit_upper((v / 256) % 16));
            push_char(s, hex_digit_upper((v / 16) % 16));
            push_char(s, hex_digit_upper(v % 16));
        } else {
            push_char(s, c);
        }
        proof {
            assert(s@ =~= start + escape_quoted(before) + escape_quoted_char(c));
        }
    }
    proof {
        assert(value@.take(value@.len() as int) =~= value@);
    }
    push_char(s, '"');
}

} // verus!
