//! The example graph: the class graph written as Turtle with each `bs:`
//! class replaced by real members of that class from the member graph,
//! e.g. `(ex:AHU_1 ex:AHU_2) brick:hasPoint (ex:point_1 ex:point_2) .`
//!
//! Repeated subject and predicate pairs share one statement through
//! Turtle's object lists; every namespace used gets a `@prefix` (the known
//! short names where they apply, else `ns1:`, `ns2:`, ... in namespace
//! order); a class whose sampled members are all blank nodes is shown as a
//! nested blank node property list of what the class itself asserts; and
//! the `<node> a rdfs:Literal` bookkeeping triples are left out.

use vstd::prelude::*;
use vstd::string::*;
use crate::canon::{decimal, push_decimal};
use crate::keyed::{key_index, keys_distinct, value_of};
use crate::graph::RdfGraph;
use crate::model::{Blank, Iri, LiteralValue, RdfTerm, RdfTriple, STerm, STriple, SubjectNode, XSD_STRING_IRI};
use crate::namespace::{prefix_table, spec_prefix_table, BNODE_BASE, RDFS_MEMBER_IRI, RDF_TYPE_IRI};
use crate::order::{key_view, keyed_views, sort_keyed, stable_sort};
use crate::util::{chars_of, has_prefix, last_index_of, push_char, starts_with, str_equal};

verus! {

/// The index after which an IRI splits into namespace and local part: its
/// last `#` or `/`, whichever comes later, or -1.
pub open spec fn split_point(iri: Seq<char>) -> int {
    let h = last_index_of(iri, '#');
    let s = last_index_of(iri, '/');
    if h > s { h } else { s }
}

/// `(namespace, local)`: `iri` split right after its last `#` or `/`; the
/// whole IRI and an empty local part when there is no separator or nothing
/// follows it.
pub open spec fn spec_split_namespace(iri: Seq<char>) -> (Seq<char>, Seq<char>) {
    let p = split_point(iri);
    if p >= 0 && p + 1 < iri.len() {
        (iri.take(p + 1), iri.skip(p + 1))
    } else {
        (iri, Seq::empty())
    }
}

/// Splitting loses nothing: the namespace followed by the local part is the
/// IRI, and a non-empty local part holds no `#` or `/`.
pub proof fn lemma_split_namespace(iri: Seq<char>)
    ensures
        spec_split_namespace(iri).0 + spec_split_namespace(iri).1 == iri,
        forall|i: int| 0 <= i < spec_split_namespace(iri).1.len()
            ==> #[trigger] spec_split_namespace(iri).1[i] != '#' && spec_split_namespace(iri).1[i] != '/',
{
    crate::util::lemma_last_index_last(iri, '#');
    crate::util::lemma_last_index_last(iri, '/');
    let p = split_point(iri);
    if p >= 0 && p + 1 < iri.len() {
        assert(iri.take(p + 1) + iri.skip(p + 1) =~= iri);
        assert forall|i: int| 0 <= i < iri.skip(p + 1).len() implies #[trigger] iri.skip(p + 1)[i] != '#'
            && iri.skip(p + 1)[i] != '/' by {
            assert(iri.skip(p + 1)[i] == iri[p + 1 + i]);
        }
    } else {
        assert(iri + Seq::<char>::empty() =~= iri);
    }
}

/// A character allowed in an abbreviated local name.
pub open spec fn is_pn_char(c: char) -> bool {
    ('0' <= c && c <= '9') || ('a' <= c && c <= 'z') || ('A' <= c && c <= 'Z') || c == '_' || c == '-' || c == '.'
}

/// `s` can stand after `prefix:` in Turtle: non-empty, not starting with `-`
/// or `.`, not ending in `.`, and made of ASCII letters, digits, `_`, `-`
/// and `.`.
pub open spec fn spec_is_safe_pn_local(s: Seq<char>) -> bool {
    s.len() > 0 && s[0] != '-' && s[0] != '.' && s.last() != '.'
        && forall|i: int| 0 <= i < s.len() ==> is_pn_char(#[trigger] s[i])
}

fn last_of(v: &Vec<char>, c: char) -> (r: Option<usize>)
    ensures
        match r {
            Some(i) => i == last_index_of(v@, c) && i < v@.len(),
            None => last_index_of(v@, c) == -1,
        },
{
    let mut i: usize = v.len();
    assert(v@.take(i as int) =~= v@);
    while i > 0
        invariant
            i <= v@.len(),
            last_index_of(v@, c) == last_index_of(v@.take(i as int), c),
        decreases i,
    {
        let ghost t = v@.take(i as int);
        assert(t.drop_last() =~= v@.take(i - 1));
        if v[i - 1] == c {
            return Some(i - 1);
        }
        i = i - 1;
    }
    assert(v@.take(0) =~= Seq::<char>::empty());
    None
}

fn string_of(v: &Vec<char>, lo: usize, hi: usize) -> (r: String)
    requires
        lo <= hi <= v@.len(),
    ensures
        r@ == v@.subrange(lo as int, hi as int),
{
    let mut out = String::new();
    let mut i = lo;
    while i < hi
        invariant
            lo <= i <= hi <= v@.len(),
            out@ == v@.subrange(lo as int, i as int),
        decreases hi - i,
    {
        push_char(&mut out, v[i]);
        assert(out@ =~= v@.subrange(lo as int, i + 1));
        i = i + 1;
    }
    out
}

/// Splits `iri` right after its last `#` or `/` into namespace and local
/// part; the local part is empty (not abbreviable) when there is no
/// separator or nothing follows it.
pub fn split_namespace(iri: &str) -> (r: (String, String))
    ensures
        (r.0@, r.1@) == spec_split_namespace(iri@),
{
    let v = chars_of(iri);
    let h = last_of(&v, '#');
    let s = last_of(&v, '/');
    let p: Option<usize> = match (h, s) {
        (Some(a), Some(b)) => if a > b { Some(a) } else { Some(b) },
        (Some(a), None) => Some(a),
        (None, Some(b)) => Some(b),
        (None, None) => None,
    };
    proof {
        lemma_last_index_bounds(v@, '#');
        lemma_last_index_bounds(v@, '/');
    }
    match p {
        Some(q0) => {
            if q0 < v.len() - 1 {
                let q = q0 + 1;
                let ns = string_of(&v, 0, q);
                let local = string_of(&v, q, v.len());
                assert(v@.subrange(0, q as int) =~= iri@.take(q as int));
                assert(v@.subrange(q as int, v@.len() as int) =~= iri@.skip(q as int));
                (ns, local)
            } else {
                (iri.to_owned(), String::new())
            }
        },
        None => (iri.to_owned(), String::new()),
    }
}

proof fn lemma_last_index_bounds(s: Seq<char>, c: char)
    ensures
        -1 <= last_index_of(s, c) < s.len(),
    decreases s.len(),
{
    if s.len() > 0 {
        lemma_last_index_bounds(s.drop_last(), c);
    }
}

/// Whether `s` can stand after `prefix:` in Turtle (see
/// [`spec_is_safe_pn_local`]).
pub fn is_safe_pn_local(s: &str) -> (r: bool)
    ensures
        r == spec_is_safe_pn_local(s@),
{
    let v = chars_of(s);
    if v.len() == 0 || v[0] == '-' || v[0] == '.' || v[v.len() - 1] == '.' {
        return false;
    }
    let mut i: usize = 0;
    while i < v.len()
        invariant
            i <= v@.len(),
            v@ == s@,
            forall|j: int| 0 <= j < i ==> is_pn_char(#[trigger] v@[j]),
        decreases v@.len() - i,
    {
        let c = v[i];
        let ok = ('0' <= c && c <= '9') || ('a' <= c && c <= 'z') || ('A' <= c && c <= 'Z') || c == '_' || c == '-' || c == '.';
        if !ok {
            assert(!is_pn_char(v@[i as int]));
            return false;
        }
        i = i + 1;
    }
    true
}

/// How one character is written inside a quoted Turtle string.
pub open spec fn turtle_escape_char(c: char) -> Seq<char> {
    if c == '\\' {
        seq!['\\', '\\']
    } else if c == '"' {
        seq!['\\', '"']
    } else if c == '\n' {
        seq!['\\', 'n']
    } else if c == '\r' {
        seq!['\\', 'r']
    } else if c == '\t' {
        seq!['\\', 't']
    } else {
        seq![c]
    }
}

/// `s` escaped for a quoted Turtle string: backslash, double quote, line
/// feed, carriage return and tab escaped with a backslash.
pub open spec fn turtle_escape(s: Seq<char>) -> Seq<char>
    decreases s.len(),
{
    if s.len() == 0 {
        Seq::empty()
    } else {
        turtle_escape(s.drop_last()) + turtle_escape_char(s.last())
    }
}

/// Escapes `value` for a quoted Turtle string (see [`turtle_escape`]).
pub fn escape_turtle_string(value: &str) -> (r: String)
    ensures
        r@ == turtle_escape(value@),
{
    let v = chars_of(value);
    let mut out = String::new();
    let mut i: usize = 0;
    while i < v.len()
        invariant
            i <= v@.len(),
            v@ == value@,
            out@ == turtle_escape(v@.take(i as int)),
        decreases v@.len() - i,
    {
        let c = v[i];
        let ghost before = out@;
        if c == '\\' {
            push_char(&mut out, '\\');
            push_char(&mut out, '\\');
        } else if c == '"' {
            push_char(&mut out, '\\');
            push_char(&mut out, '"');
        } else if c == '\n' {
            push_char(&mut out, '\\');
            push_char(&mut out, 'n');
        } else if c == '\r' {
            push_char(&mut out, '\\');
            push_char(&mut out, 'r');
        } else if c == '\t' {
            push_char(&mut out, '\\');
            push_char(&mut out, 't');
        } else {
            push_char(&mut out, c);
        }
        assert(v@.take(i + 1).drop_last() =~= v@.take(i as int));
        assert(out@ =~= before + turtle_escape_char(c));
        i = i + 1;
    }
    assert(v@.take(v@.len() as int) =~= v@);
    out
}

/// A set of strings, kept in insertion order.
pub struct StrSet {
    items: Vec<String>,
}

impl View for StrSet {
    type V = Seq<Seq<char>>;

    closed spec fn view(&self) -> Seq<Seq<char>> {
        self.items@.map_values(|s: String| s@)
    }
}

impl StrSet {
    #[verifier::type_invariant]
    closed spec fn distinct(self) -> bool {
        self@.no_duplicates()
    }

    /// The empty set.
    pub fn new() -> (r: StrSet)
        ensures
            r@ == Seq::<Seq<char>>::empty(),
    {
        let r = StrSet { items: Vec::new() };
        assert(r@ =~= Seq::<Seq<char>>::empty());
        r
    }

    /// No string is held twice.
    pub fn assert_distinct(&self)
        ensures
            self@.no_duplicates(),
    {
        proof {
            use_type_invariant(self);
        }
    }

    /// Number of strings.
    pub fn len(&self) -> (r: usize)
        ensures
            r == self@.len(),
    {
        self.items.len()
    }

    /// The `i`-th string.
    pub fn get(&self, i: usize) -> (r: &String)
        requires
            i < self@.len(),
        ensures
            r@ == self@[i as int],
    {
        &self.items[i]
    }

    /// Whether `s` is held.
    pub fn contains(&self, s: &str) -> (r: bool)
        ensures
            r == self@.contains(s@),
    {
        let mut i: usize = 0;
        while i < self.items.len()
            invariant
                i <= self.items@.len(),
                forall|j: int| 0 <= j < i ==> self@[j] != s@,
            decreases self.items@.len() - i,
        {
            if str_equal(self.items[i].as_str(), s) {
                assert(self@[i as int] == s@);
                return true;
            }
            i = i + 1;
        }
        false
    }

    /// Adds `s` at the end unless it is held.
    pub fn insert(&mut self, s: &str)
        ensures
            final(self)@ == if old(self)@.contains(s@) { old(self)@ } else { old(self)@.push(s@) },
    {
        proof {
            use_type_invariant(&*self);
        }
        if !self.contains(s) {
            let ghost before = self@;
            let mut v: Vec<String> = Vec::new();
            std::mem::swap(&mut v, &mut self.items);
            v.push(s.to_owned());
            assert(v@.map_values(|x: String| x@) =~= before.push(s@));
            self.items = v;
        }
    }

    /// Removes `s` if it is held, keeping the order of the others.
    pub fn remove(&mut self, s: &str)
        ensures
            final(self)@ == old(self)@.filter(other_than(s@)),
    {
        proof {
            use_type_invariant(&*self);
        }
        let ghost before = self@;
        let mut kept: Vec<String> = Vec::new();
        let mut i: usize = 0;
        while i < self.items.len()
            invariant
                i <= self.items@.len(),
                before == self@,
                before.no_duplicates(),
                kept@.map_values(|x: String| x@) == before.take(i as int).filter(other_than(s@)),
            decreases self.items@.len() - i,
        {
            assert(before.take(i + 1).drop_last() =~= before.take(i as int));
            assert(before.take(i + 1).last() == before[i as int]);
            let ghost k0 = kept@.map_values(|x: String| x@);
            proof {
                reveal(Seq::filter);
            }
            if !str_equal(self.items[i].as_str(), s) {
                kept.push(self.items[i].clone());
                assert(kept@.map_values(|x: String| x@) =~= k0.push(before[i as int]));
            }
            i = i + 1;
        }
        assert(before.take(before.len() as int) =~= before);
        proof {
            lemma_filter_no_dup(before, s@);
        }
        assert(kept@.map_values(|x: String| x@) == before.filter(other_than(s@)));
        assert(kept@.map_values(|x: String| x@).no_duplicates());
        assert(kept@.map_values(|x: String| x@) =~= kept@.map_values(|t: String| t@));
        self.items = kept;
    }
}

/// Every string but `y`.
pub open spec fn other_than(y: Seq<char>) -> spec_fn(Seq<char>) -> bool {
    |x: Seq<char>| x != y
}

proof fn lemma_filter_no_dup(s: Seq<Seq<char>>, y: Seq<char>)
    requires
        s.no_duplicates(),
    ensures
        s.filter(other_than(y)).no_duplicates(),
    decreases s.len(),
{
    let f = other_than(y);
    reveal(Seq::filter);
    if s.len() > 0 {
        let init = s.drop_last();
        assert(init.no_duplicates()) by {
            assert forall|i: int, j: int| 0 <= i < init.len() && 0 <= j < init.len() && i != j implies init[i] != init[j] by {
                assert(s[i] == init[i] && s[j] == init[j]);
            }
        }
        lemma_filter_no_dup(init, y);
        let fi = init.filter(f);
        if f(s.last()) {
            assert(s.filter(f) == fi.push(s.last()));
            assert(!fi.contains(s.last())) by {
                if fi.contains(s.last()) {
                    init.lemma_filter_contains_rev(f, s.last());
                    let k = choose|k: int| 0 <= k < init.len() && init[k] == s.last();
                    assert(s[k] == s[s.len() - 1]);
                }
            }
        } else {
            assert(s.filter(f) == fi);
        }
    }
}

/// Notes the namespace of `iri` if it can be abbreviated: it has a
/// namespace and a safe local part.
pub fn observe_iri(namespaces: &mut StrSet, iri: &str)
    ensures
        final(namespaces)@ == if spec_split_namespace(iri@).0.len() > 0 && spec_is_safe_pn_local(spec_split_namespace(iri@).1) {
            if old(namespaces)@.contains(spec_split_namespace(iri@).0) { old(namespaces)@ } else { old(namespaces)@.push(spec_split_namespace(iri@).0) }
        } else {
            old(namespaces)@
        },
{
    let (ns, local) = split_namespace(iri);
    if ns.as_str().unicode_len() > 0 && is_safe_pn_local(local.as_str()) {
        namespaces.insert(ns.as_str());
    }
}

/// `s` sorted in code point order, stably.
pub open spec fn sorted_strs(s: Seq<Seq<char>>) -> Seq<Seq<char>> {
    stable_sort(s.map_values(|x: Seq<char>| (seq![x], x))).map_values(|e: (Seq<Seq<char>>, Seq<char>)| e.1)
}

/// The strings of `v`, sorted in code point order.
fn sort_strings(v: &Vec<String>) -> (r: Vec<String>)
    ensures
        r@.map_values(|x: String| x@) == sorted_strs(v@.map_values(|x: String| x@)),
{
    let ghost dv = v@.map_values(|x: String| x@);
    let ghost kx = Seq::new(dv.len(), |i: int| (seq![dv[i]], i as usize));
    let mut keyed: Vec<(Vec<String>, usize)> = Vec::new();
    for i in 0..v.len()
        invariant
            dv == v@.map_values(|x: String| x@),
            kx == Seq::new(dv.len(), |i: int| (seq![dv[i]], i as usize)),
            keyed_views(keyed@) == kx.take(i as int),
    {
        let k = v[i].clone();
        let ghost kv = k@;
        assert(dv[i as int] == v@[i as int]@);
        let key = vec![k];
        assert(key_view(key@) =~= seq![kv]);
        let ghost before = keyed_views(keyed@);
        keyed.push((key, i));
        assert(kx[i as int] == (seq![kv], i));
        assert(keyed_views(keyed@) =~= before.push((seq![kv], i)));
        assert(keyed_views(keyed@) =~= kx.take(i + 1));
    }
    assert(kx.take(dv.len() as int) =~= kx);
    let sorted = sort_keyed(keyed);
    let ghost ss = stable_sort(kx);
    let ghost pick = |j: usize| dv[j as int];
    proof {
        crate::order::lemma_stable_sort_elements(kx);
        assert forall|j: int| 0 <= j < ss.len() implies #[trigger] ss[j].1 < dv.len() by {
            assert(kx.contains(ss[j]));
        }
    }
    let mut r: Vec<String> = Vec::new();
    for i in 0..sorted.len()
        invariant
            keyed_views(sorted@) == ss,
            dv == v@.map_values(|x: String| x@),
            pick == (|j: usize| dv[j as int]),
            forall|j: int| 0 <= j < ss.len() ==> #[trigger] ss[j].1 < dv.len(),
            r@.map_values(|x: String| x@) == ss.take(i as int).map_values(|e: (Seq<Seq<char>>, usize)| pick(e.1)),
    {
        assert(keyed_views(sorted@)[i as int].1 == sorted@[i as int].1);
        let k = sorted[i].1;
        assert(k == ss[i as int].1);
        assert(dv[k as int] == v@[k as int]@);
        let ghost before = r@.map_values(|x: String| x@);
        r.push(v[k].clone());
        assert(r@.map_values(|x: String| x@) =~= before.push(pick(k)));
        assert(r@.map_values(|x: String| x@) =~= ss.take(i + 1).map_values(|e: (Seq<Seq<char>>, usize)| pick(e.1)));
    }
    proof {
        assert(ss.take(ss.len() as int) =~= ss);
        crate::order::lemma_stable_sort_payload(kx, pick);
        assert(crate::order::payload_map(kx, pick) =~= dv.map_values(|x: Seq<char>| (seq![x], x)));
    }
    r
}

/// The known short name of namespace `ns` in `table`: that of its first
/// entry for `ns`.
pub open spec fn known_prefix_in(table: Seq<(&'static str, &'static str)>, ns: Seq<char>) -> Option<Seq<char>>
    decreases table.len(),
{
    if table.len() == 0 {
        None
    } else if table[0].1@ == ns {
        Some(table[0].0@)
    } else {
        known_prefix_in(table.drop_first(), ns)
    }
}

/// The known short name of namespace `ns`, if it has one.
pub open spec fn known_prefix(ns: Seq<char>) -> Option<Seq<char>> {
    known_prefix_in(spec_prefix_table(), ns)
}

/// How many namespaces of `s` have no known short name.
pub open spec fn unknown_count(s: Seq<Seq<char>>) -> nat
    decreases s.len(),
{
    if s.len() == 0 {
        0
    } else {
        unknown_count(s.drop_last()) + if known_prefix(s.last()) is None { 1nat } else { 0nat }
    }
}

/// The `(namespace, prefix)` entries for namespaces `s`, in order: the
/// known short name where there is one, else `ns<k>` for the `k`-th
/// namespace without one.
pub open spec fn prefix_entries(s: Seq<Seq<char>>) -> Seq<(Seq<char>, Seq<char>)>
    decreases s.len(),
{
    if s.len() == 0 {
        Seq::empty()
    } else {
        let p = match known_prefix(s.last()) {
            Some(k) => k,
            None => seq!['n', 's'] + decimal(unknown_count(s.drop_last()) + 1),
        };
        prefix_entries(s.drop_last()).push((s.last(), p))
    }
}

/// The prefixes for namespaces `nss`: their entries in namespace order.
pub open spec fn spec_build(nss: Seq<Seq<char>>) -> Seq<(Seq<char>, Seq<char>)> {
    prefix_entries(sorted_strs(nss))
}

/// `prefix:local` when the namespace of `iri` is bound and its local part
/// is safe, else `<iri>`.
pub open spec fn spec_abbreviate(entries: Seq<(Seq<char>, Seq<char>)>, iri: Seq<char>) -> Seq<char> {
    let ns = spec_split_namespace(iri).0;
    let local = spec_split_namespace(iri).1;
    if spec_is_safe_pn_local(local) && value_of(entries, ns) is Some {
        value_of(entries, ns).unwrap() + seq![':'] + local
    } else {
        seq!['<'] + iri + seq!['>']
    }
}

/// `@prefix p: <ns> .` lines for the entries, in order.
pub open spec fn entry_lines(entries: Seq<(Seq<char>, Seq<char>)>) -> Seq<char>
    decreases entries.len(),
{
    if entries.len() == 0 {
        Seq::empty()
    } else {
        entry_lines(entries.drop_last()) + crate::graph::prefix_line(entries.last().1, entries.last().0)
    }
}

/// The `@prefix` header: a line per entry, and a blank line after them
/// when there is any.
pub open spec fn spec_header(entries: Seq<(Seq<char>, Seq<char>)>) -> Seq<char> {
    if entries.len() > 0 { entry_lines(entries) + seq!['\n'] } else { Seq::empty() }
}

/// The `@prefix` names of the namespaces used in the output, in namespace
/// order: the crate's known short names where they apply, else `ns1:`,
/// `ns2:`, ... for the others, numbered in namespace order.
pub struct PrefixTable {
    entries: Vec<(String, String)>,
}

impl View for PrefixTable {
    type V = Seq<(Seq<char>, Seq<char>)>;

    closed spec fn view(&self) -> Seq<(Seq<char>, Seq<char>)> {
        self.entries@.map_values(|e: (String, String)| (e.0@, e.1@))
    }
}

fn known_prefix_of(ns: &str) -> (r: Option<&'static str>)
    ensures
        match r {
            Some(p) => known_prefix(ns@) == Some(p@),
            None => known_prefix(ns@) is None,
        },
{
    let table = prefix_table();
    let mut i: usize = 0;
    assert(table@.skip(0) =~= table@);
    while i < table.len()
        invariant
            i <= table@.len(),
            table@ == spec_prefix_table(),
            known_prefix(ns@) == known_prefix_in(table@.skip(i as int), ns@),
        decreases table@.len() - i,
    {
        assert(table@.skip(i as int)[0] == table@[i as int]);
        assert(table@.skip(i as int).drop_first() =~= table@.skip(i + 1));
        let (p, base) = table[i];
        if str_equal(base, ns) {
            return Some(p);
        }
        i = i + 1;
    }
    None
}

impl PrefixTable {
    /// The prefixes for `namespaces`: each gets its known short name, or
    /// `ns<k>`, numbered in namespace order among those without one.
    pub fn build(namespaces: &StrSet) -> (r: PrefixTable)
        ensures
            r@ == spec_build(namespaces@),
    {
        let mut all: Vec<String> = Vec::new();
        let n = namespaces.len();
        for i in 0..n
            invariant
                n == namespaces@.len(),
                all@.map_values(|x: String| x@) == namespaces@.take(i as int),
        {
            let ghost before = all@.map_values(|x: String| x@);
            all.push(namespaces.get(i).clone());
            assert(all@.map_values(|x: String| x@) =~= before.push(namespaces@[i as int]));
            assert(all@.map_values(|x: String| x@) =~= namespaces@.take(i + 1));
        }
        assert(namespaces@.take(namespaces@.len() as int) =~= namespaces@);
        let sorted = sort_strings(&all);
        let ghost sv = sorted@.map_values(|x: String| x@);
        let mut entries: Vec<(String, String)> = Vec::new();
        let mut unknown: usize = 0;
        for i in 0..sorted.len()
            invariant
                sv == sorted@.map_values(|x: String| x@),
                unknown == unknown_count(sv.take(i as int)),
                unknown <= i,
                entries@.map_values(|e: (String, String)| (e.0@, e.1@)) == prefix_entries(sv.take(i as int)),
        {
            let ns = &sorted[i];
            assert(sv[i as int] == ns@);
            assert(sv.take(i + 1).drop_last() =~= sv.take(i as int));
            assert(sv.take(i + 1).last() == ns@);
            let ghost before = entries@.map_values(|e: (String, String)| (e.0@, e.1@));
            let ghost u0 = unknown;
            let p: String = match known_prefix_of(ns.as_str()) {
                Some(k) => k.to_owned(),
                None => {
                    let mut t = String::new();
                    push_char(&mut t, 'n');
                    push_char(&mut t, 's');
                    push_decimal(&mut t, unknown + 1);
                    assert(t@ =~= seq!['n', 's'] + decimal((u0 + 1) as nat));
                    unknown = unknown + 1;
                    t
                },
            };
            let ghost pv = p@;
            assert(pv == match known_prefix(ns@) {
                Some(k) => k,
                None => seq!['n', 's'] + decimal(unknown_count(sv.take(i as int)) + 1),
            });
            entries.push((ns.clone(), p));
            assert(entries@.map_values(|e: (String, String)| (e.0@, e.1@)) =~= before.push((ns@, pv)));
            assert(entries@.map_values(|e: (String, String)| (e.0@, e.1@)) =~= prefix_entries(sv.take(i + 1)));
        }
        assert(sv.take(sv.len() as int) =~= sv);
        PrefixTable { entries }
    }

    /// Shortens `iri` to `prefix:local` when its namespace has a prefix
    /// and its local part is safe, else writes `<iri>`.
    pub fn abbreviate(&self, iri: &str) -> (r: String)
        ensures
            r@ == spec_abbreviate(self@, iri@),
    {
        let (ns, local) = split_namespace(iri);
        if is_safe_pn_local(local.as_str()) {
            let mut i: usize = self.entries.len();
            assert(self@.take(i as int) =~= self@);
            while i > 0
                invariant
                    i <= self.entries@.len(),
                    key_index(self@, ns@) == key_index(self@.take(i as int), ns@),
                    (ns@, local@) == spec_split_namespace(iri@),
                    spec_is_safe_pn_local(local@),
                decreases i,
            {
                assert(self@.take(i as int).drop_last() =~= self@.take(i - 1));
                assert(self@.take(i as int).last() == self@[i - 1]);
                if str_equal(self.entries[i - 1].0.as_str(), ns.as_str()) {
                    let mut out = self.entries[i - 1].1.clone();
                    push_char(&mut out, ':');
                    out.append(local.as_str());
                    assert(key_index(self@, ns@) == i - 1);
                    assert(value_of(self@, ns@) == Some(self@[i - 1].1));
                    assert(out@ =~= self@[i - 1].1 + seq![':'] + local@);
                    return out;
                }
                i = i - 1;
            }
            assert(self@.take(0) =~= Seq::<(Seq<char>, Seq<char>)>::empty());
        }
        let mut out = String::new();
        push_char(&mut out, '<');
        out.append(iri);
        push_char(&mut out, '>');
        assert(out@ =~= seq!['<'] + iri@ + seq!['>']);
        out
    }

    /// The `@prefix` header: a line per namespace, in namespace order,
    /// then a blank line when there is any.
    pub fn header(&self) -> (r: String)
        ensures
            r@ == spec_header(self@),
    {
        let mut s = String::new();
        for i in 0..self.entries.len()
            invariant
                s@ == entry_lines(self@.take(i as int)),
        {
            assert(self@.take(i + 1).drop_last() =~= self@.take(i as int));
            crate::graph::push_prefix_line(&mut s, self.entries[i].1.as_str(), self.entries[i].0.as_str());
        }
        assert(self@.take(self@.len() as int) =~= self@);
        if self.entries.len() > 0 {
            push_char(&mut s, '\n');
        }
        s
    }
}

/// `"value"`, `"value"@lang` or `"value"^^datatype`, the value escaped.
pub open spec fn literal_text(value: Seq<char>, datatype: Seq<char>, language: Option<Seq<char>>, t: Seq<(Seq<char>, Seq<char>)>) -> Seq<char> {
    let quoted = seq!['"'] + turtle_escape(value) + seq!['"'];
    match language {
        Some(lang) => quoted + seq!['@'] + lang,
        None => if datatype == XSD_STRING_IRI@ {
            quoted
        } else {
            quoted + seq!['^', '^'] + spec_abbreviate(t, datatype)
        },
    }
}

/// The quoted, escaped `value` followed by `^^` and the datatype as `a`.
pub open spec fn typed_literal_form(value: Seq<char>, a: Seq<char>) -> Seq<char> {
    seq!['"'] + turtle_escape(value) + seq!['"', '^', '^'] + a
}

/// A literal without a language tag whose datatype is not `xsd:string` is
/// written with its datatype: the quoted, escaped value, then `^^`, then
/// either `<datatype>` or `prefix:local` where the table binds the
/// namespace `ns` to `prefix` and `ns` followed by `local` is the datatype;
/// so the text reads back as a literal of that datatype.
pub proof fn lemma_typed_literal_keeps_datatype(
    value: Seq<char>,
    datatype: Seq<char>,
    t: Seq<(Seq<char>, Seq<char>)>,
)
    requires
        datatype != XSD_STRING_IRI@,
    ensures
        exists|a: Seq<char>| #![trigger typed_literal_form(value, a)]
            literal_text(value, datatype, None, t) == typed_literal_form(value, a)
            && (a == seq!['<'] + datatype + seq!['>']
                || exists|ns: Seq<char>, local: Seq<char>, prefix: Seq<char>|
                    #![trigger value_of(t, ns), ns + local, prefix + seq![':'] + local]
                    ns + local == datatype && value_of(t, ns) == Some(prefix)
                    && a == prefix + seq![':'] + local),
{
    let a = spec_abbreviate(t, datatype);
    lemma_split_namespace(datatype);
    let ns = spec_split_namespace(datatype).0;
    let local = spec_split_namespace(datatype).1;
    assert(literal_text(value, datatype, None, t)
        =~= seq!['"'] + turtle_escape(value) + seq!['"', '^', '^'] + a);
    if spec_is_safe_pn_local(local) && value_of(t, ns) is Some {
        let prefix = value_of(t, ns).unwrap();
        assert(ns + local == datatype && value_of(t, ns) == Some(prefix) && a == prefix + seq![':'] + local);
        assert(exists|ns2: Seq<char>, local2: Seq<char>, prefix2: Seq<char>|
            #![trigger value_of(t, ns2), ns2 + local2, prefix2 + seq![':'] + local2]
            ns2 + local2 == datatype && value_of(t, ns2) == Some(prefix2)
            && a == prefix2 + seq![':'] + local2);
    } else {
        assert(a == seq!['<'] + datatype + seq!['>']);
    }
    assert(literal_text(value, datatype, None, t) == typed_literal_form(value, a)
        && (a == seq!['<'] + datatype + seq!['>']
            || exists|ns2: Seq<char>, local2: Seq<char>, prefix2: Seq<char>|
                #![trigger value_of(t, ns2), ns2 + local2, prefix2 + seq![':'] + local2]
                ns2 + local2 == datatype && value_of(t, ns2) == Some(prefix2)
                && a == prefix2 + seq![':'] + local2));
}

/// A term as written: `[]` for a blank node (or a node made from one), an
/// abbreviated IRI, or a literal.
pub open spec fn term_text(term: STerm, t: Seq<(Seq<char>, Seq<char>)>) -> Seq<char> {
    match term {
        STerm::Named(n) => if has_prefix(n, BNODE_BASE@) { seq!['[', ']'] } else { spec_abbreviate(t, n) },
        STerm::Blank(_) => seq!['[', ']'],
        STerm::Lit(v, d, l) => literal_text(v, d, l, t),
    }
}

/// Writes a literal as Turtle.
fn format_literal(l: &LiteralValue, prefixes: &PrefixTable) -> (r: String)
    ensures
        r@ == literal_text(l.value@, l.datatype@, crate::model::opt_view(l.language), prefixes@),
{
    let value = escape_turtle_string(l.value.as_str());
    let mut out = String::new();
    push_char(&mut out, '"');
    out.append(value.as_str());
    push_char(&mut out, '"');
    let ghost quoted = out@;
    assert(quoted =~= seq!['"'] + turtle_escape(l.value@) + seq!['"']);
    match &l.language {
        Some(lang) => {
            push_char(&mut out, '@');
            out.append(lang.as_str());
        },
        None => {
            if !str_equal(l.datatype.as_str(), XSD_STRING_IRI) {
                push_char(&mut out, '^');
                push_char(&mut out, '^');
                let d = prefixes.abbreviate(l.datatype.as_str());
                out.append(d.as_str());
            }
        },
    }
    out
}

/// Writes a term as Turtle (see [`term_text`]).
fn format_term(term: &RdfTerm, prefixes: &PrefixTable) -> (r: String)
    ensures
        r@ == term_text(term@, prefixes@),
{
    match term {
        RdfTerm::Iri(n) => {
            if starts_with(n.as_str(), BNODE_BASE) {
                let mut s = String::new();
                push_char(&mut s, '[');
                push_char(&mut s, ']');
                s
            } else {
                prefixes.abbreviate(n.as_str())
            }
        },
        RdfTerm::Blank(_) => {
            let mut s = String::new();
            push_char(&mut s, '[');
            push_char(&mut s, ']');
            s
        },
        RdfTerm::Literal(l) => format_literal(l, prefixes),
    }
}

/// A blank node, or a node made from one.
pub open spec fn is_blank_like(t: STerm) -> bool {
    match t {
        STerm::Blank(_) => true,
        STerm::Named(n) => has_prefix(n, BNODE_BASE@),
        STerm::Lit(_, _, _) => false,
    }
}

/// Whether `t` is blank-like.
fn blank_like(t: &RdfTerm) -> (r: bool)
    ensures
        r == is_blank_like(t@),
{
    match t {
        RdfTerm::Blank(_) => true,
        RdfTerm::Iri(n) => starts_with(n.as_str(), BNODE_BASE),
        RdfTerm::Literal(_) => false,
    }
}

/// The sampled members of each class.
pub open spec fn members_view(m: Seq<(Iri, Vec<RdfTerm>)>) -> Seq<(Seq<char>, Seq<STerm>)> {
    m.map_values(|e: (Iri, Vec<RdfTerm>)| (e.0@, crate::graph::term_views(e.1@)))
}

/// What each class asserts: its `(predicate, object)` pairs.
pub open spec fn props_view(p: Seq<(Iri, Vec<(Iri, RdfTerm)>)>) -> Seq<(Seq<char>, Seq<(Seq<char>, STerm)>)> {
    p.map_values(|e: (Iri, Vec<(Iri, RdfTerm)>)| (e.0@, pair_views(e.1@)))
}

/// Views of `(predicate, object)` pairs.
pub open spec fn pair_views(v: Seq<(Iri, RdfTerm)>) -> Seq<(Seq<char>, STerm)> {
    v.map_values(|x: (Iri, RdfTerm)| (x.0@, x.1@))
}

/// A class is all-blank when it has sampled members, all blank-like.
pub open spec fn is_blank_class(m: Seq<(Seq<char>, Seq<STerm>)>, c: Seq<char>) -> bool {
    value_of(m, c) is Some && value_of(m, c).unwrap().len() > 0
        && forall|i: int| 0 <= i < value_of(m, c).unwrap().len() ==> is_blank_like(#[trigger] value_of(m, c).unwrap()[i])
}

/// The index of the entry for class `c` (the last one), if any.
fn find_members(members: &Vec<(Iri, Vec<RdfTerm>)>, c: &str) -> (r: Option<usize>)
    ensures
        match r {
            Some(i) => i == key_index(members_view(members@), c@) && i < members@.len(),
            None => key_index(members_view(members@), c@) == -1,
        },
{
    let ghost mv = members_view(members@);
    let mut i: usize = members.len();
    assert(mv.take(i as int) =~= mv);
    while i > 0
        invariant
            i <= members@.len(),
            mv == members_view(members@),
            key_index(mv, c@) == key_index(mv.take(i as int), c@),
        decreases i,
    {
        assert(mv.take(i as int).drop_last() =~= mv.take(i - 1));
        assert(mv.take(i as int).last() == mv[i - 1]);
        if str_equal(members[i - 1].0.as_str(), c) {
            return Some(i - 1);
        }
        i = i - 1;
    }
    assert(mv.take(0) =~= Seq::<(Seq<char>, Seq<STerm>)>::empty());
    None
}

/// The index of the entry for class `c` (the last one), if any.
fn find_props(props: &Vec<(Iri, Vec<(Iri, RdfTerm)>)>, c: &str) -> (r: Option<usize>)
    ensures
        match r {
            Some(i) => i == key_index(props_view(props@), c@) && i < props@.len(),
            None => key_index(props_view(props@), c@) == -1,
        },
{
    let ghost pv = props_view(props@);
    let mut i: usize = props.len();
    assert(pv.take(i as int) =~= pv);
    while i > 0
        invariant
            i <= props@.len(),
            pv == props_view(props@),
            key_index(pv, c@) == key_index(pv.take(i as int), c@),
        decreases i,
    {
        assert(pv.take(i as int).drop_last() =~= pv.take(i - 1));
        assert(pv.take(i as int).last() == pv[i - 1]);
        if str_equal(props[i - 1].0.as_str(), c) {
            return Some(i - 1);
        }
        i = i - 1;
    }
    assert(pv.take(0) =~= Seq::<(Seq<char>, Seq<(Seq<char>, STerm)>)>::empty());
    None
}

/// Whether `c` is an all-blank class.
fn blank_class(c: &str, members: &Vec<(Iri, Vec<RdfTerm>)>) -> (r: bool)
    ensures
        r == is_blank_class(members_view(members@), c@),
{
    match find_members(members, c) {
        Some(i) => {
            let ms = &members[i].1;
            let ghost mv = members_view(members@);
            assert(value_of(mv, c@) == Some(crate::graph::term_views(ms@)));
            if ms.len() == 0 {
                return false;
            }
            let mut j: usize = 0;
            while j < ms.len()
                invariant
                    j <= ms@.len(),
                    ms@.len() > 0,
                    mv == members_view(members@),
                    value_of(mv, c@) == Some(crate::graph::term_views(ms@)),
                    forall|k: int| 0 <= k < j ==> is_blank_like(#[trigger] crate::graph::term_views(ms@)[k]),
                decreases ms@.len() - j,
            {
                if !blank_like(&ms[j]) {
                    assert(!is_blank_like(crate::graph::term_views(ms@)[j as int]));
                    return false;
                }
                j = j + 1;
            }
            true
        },
        None => false,
    }
}

/// How many classes of `p` are not in `v`.
pub open spec fn count_unvisited(p: Seq<(Seq<char>, Seq<(Seq<char>, STerm)>)>, v: Seq<Seq<char>>) -> nat
    decreases p.len(),
{
    if p.len() == 0 {
        0
    } else {
        count_unvisited(p.drop_last(), v) + if v.contains(p.last().0) { 0nat } else { 1nat }
    }
}

/// Visiting a class of `p` that was not visited leaves fewer to visit.
pub proof fn lemma_count_unvisited(p: Seq<(Seq<char>, Seq<(Seq<char>, STerm)>)>, v: Seq<Seq<char>>, c: Seq<char>)
    requires
        key_index(p, c) >= 0,
        !v.contains(c),
    ensures
        count_unvisited(p, v.push(c)) < count_unvisited(p, v),
    decreases p.len(),
{
    lemma_count_unvisited_le(p.drop_last(), v, c);
    assert(v.push(c).contains(c)) by {
        assert(v.push(c)[v.len() as int] == c);
    }
    if p.last().0 != c {
        assert(key_index(p.drop_last(), c) >= 0);
        lemma_count_unvisited(p.drop_last(), v, c);
        lemma_push_contains(v, c, p.last().0);
    }
}

proof fn lemma_push_contains(v: Seq<Seq<char>>, c: Seq<char>, x: Seq<char>)
    ensures
        v.push(c).contains(x) <==> v.contains(x) || x == c,
{
    if v.push(c).contains(x) && x != c {
        let k = choose|k: int| 0 <= k < v.push(c).len() && v.push(c)[k] == x;
        assert(v[k] == x);
    }
    if v.contains(x) {
        let k = choose|k: int| 0 <= k < v.len() && v[k] == x;
        assert(v.push(c)[k] == x);
    }
    if x == c {
        assert(v.push(c)[v.len() as int] == x);
    }
}

proof fn lemma_count_unvisited_le(p: Seq<(Seq<char>, Seq<(Seq<char>, STerm)>)>, v: Seq<Seq<char>>, c: Seq<char>)
    ensures
        count_unvisited(p, v.push(c)) <= count_unvisited(p, v),
    decreases p.len(),
{
    if p.len() > 0 {
        lemma_count_unvisited_le(p.drop_last(), v, c);
        lemma_push_contains(v, c, p.last().0);
    }
}

/// `n` levels of indentation, four spaces each.
pub open spec fn spaces(n: nat) -> Seq<char>
    decreases n,
{
    if n == 0 { Seq::empty() } else { spaces((n - 1) as nat) + seq![' ', ' ', ' ', ' '] }
}

/// A predicate as written: `a` for `rdf:type`, else abbreviated.
pub open spec fn pred_text(t: Seq<(Seq<char>, Seq<char>)>, p: Seq<char>) -> Seq<char> {
    if p == RDF_TYPE_IRI@ { seq!['a'] } else { spec_abbreviate(t, p) }
}

/// Terms written one after the other, separated by spaces.
pub open spec fn joined_terms(ms: Seq<STerm>, t: Seq<(Seq<char>, Seq<char>)>) -> Seq<char>
    decreases ms.len(),
{
    if ms.len() == 0 {
        Seq::empty()
    } else if ms.len() == 1 {
        term_text(ms[0], t)
    } else {
        joined_terms(ms.drop_last(), t) + seq![' '] + term_text(ms.last(), t)
    }
}

/// A term in subject or object position: an all-blank class as the
/// property list of what it asserts, a class with members as the list of
/// its sampled members, anything else as itself.
pub open spec fn pos_text(
    term: STerm,
    m: Seq<(Seq<char>, Seq<STerm>)>,
    p: Seq<(Seq<char>, Seq<(Seq<char>, STerm)>)>,
    t: Seq<(Seq<char>, Seq<char>)>,
    v: Seq<Seq<char>>,
    indent: nat,
) -> Seq<char>
    decreases count_unvisited(p, v), 1nat, 0nat,
{
    match term {
        STerm::Named(n) => if is_blank_class(m, n) {
            blank_text(n, m, p, t, v, indent)
        } else if value_of(m, n) is Some {
            seq!['('] + joined_terms(value_of(m, n).unwrap(), t) + seq![')']
        } else {
            term_text(term, t)
        },
        _ => term_text(term, t),
    }
}

/// An all-blank class as a blank node property list of what it asserts,
/// or `[]` when it asserts nothing or is already being written.
pub open spec fn blank_text(
    c: Seq<char>,
    m: Seq<(Seq<char>, Seq<STerm>)>,
    p: Seq<(Seq<char>, Seq<(Seq<char>, STerm)>)>,
    t: Seq<(Seq<char>, Seq<char>)>,
    v: Seq<Seq<char>>,
    indent: nat,
) -> Seq<char>
    decreases count_unvisited(p, v), 0nat, 0nat,
{
    if v.contains(c) || value_of(p, c) is None || value_of(p, c).unwrap().len() == 0 {
        seq!['[', ']']
    } else {
        proof {
            crate::keyed::lemma_key_index_found(p, c);
            lemma_count_unvisited(p, v, c);
        }
        seq!['[', '\n'] + prop_lines(value_of(p, c).unwrap(), m, p, t, v.push(c), indent + 1) + seq!['\n'] + spaces(indent)
            + seq![']']
    }
}

/// The lines `predicate object` of a property list, joined by ` ;` and line
/// breaks.
pub open spec fn prop_lines(
    ps: Seq<(Seq<char>, STerm)>,
    m: Seq<(Seq<char>, Seq<STerm>)>,
    p: Seq<(Seq<char>, Seq<(Seq<char>, STerm)>)>,
    t: Seq<(Seq<char>, Seq<char>)>,
    v: Seq<Seq<char>>,
    indent: nat,
) -> Seq<char>
    decreases count_unvisited(p, v), 2nat, ps.len(),
{
    if ps.len() == 0 {
        Seq::empty()
    } else {
        let line = spaces(indent) + pred_text(t, ps.last().0) + seq![' '] + pos_text(ps.last().1, m, p, t, v, indent);
        if ps.len() == 1 {
            line
        } else {
            prop_lines(ps.drop_last(), m, p, t, v, indent) + seq![' ', ';', '\n'] + line
        }
    }
}

/// `s` with `x` added at the end unless it is there.
pub open spec fn set_insert(s: Seq<Seq<char>>, x: Seq<char>) -> Seq<Seq<char>> {
    if s.contains(x) { s } else { s.push(x) }
}

/// The all-blank classes written along with a term in a position, added to
/// `r` in the order they are written.
pub open spec fn pos_refs(
    term: STerm,
    m: Seq<(Seq<char>, Seq<STerm>)>,
    p: Seq<(Seq<char>, Seq<(Seq<char>, STerm)>)>,
    v: Seq<Seq<char>>,
    r: Seq<Seq<char>>,
) -> Seq<Seq<char>>
    decreases count_unvisited(p, v), 1nat, 0nat,
{
    match term {
        STerm::Named(n) => if is_blank_class(m, n) { blank_refs(n, m, p, v, r) } else { r },
        _ => r,
    }
}

/// The all-blank classes written along with class `c`, `c` included.
pub open spec fn blank_refs(
    c: Seq<char>,
    m: Seq<(Seq<char>, Seq<STerm>)>,
    p: Seq<(Seq<char>, Seq<(Seq<char>, STerm)>)>,
    v: Seq<Seq<char>>,
    r: Seq<Seq<char>>,
) -> Seq<Seq<char>>
    decreases count_unvisited(p, v), 0nat, 0nat,
{
    let r1 = set_insert(r, c);
    if v.contains(c) || value_of(p, c) is None || value_of(p, c).unwrap().len() == 0 {
        r1
    } else {
        proof {
            crate::keyed::lemma_key_index_found(p, c);
            lemma_count_unvisited(p, v, c);
        }
        prop_refs(value_of(p, c).unwrap(), m, p, v.push(c), r1)
    }
}

/// The all-blank classes written along with the objects of `ps`.
pub open spec fn prop_refs(
    ps: Seq<(Seq<char>, STerm)>,
    m: Seq<(Seq<char>, Seq<STerm>)>,
    p: Seq<(Seq<char>, Seq<(Seq<char>, STerm)>)>,
    v: Seq<Seq<char>>,
    r: Seq<Seq<char>>,
) -> Seq<Seq<char>>
    decreases count_unvisited(p, v), 2nat, ps.len(),
{
    if ps.len() == 0 {
        r
    } else {
        pos_refs(ps.last().1, m, p, v, prop_refs(ps.drop_last(), m, p, v, r))
    }
}

/// The namespaces `n` after noting that of IRI `iri`.
pub open spec fn obs_iri(n: Seq<Seq<char>>, iri: Seq<char>) -> Seq<Seq<char>> {
    if spec_split_namespace(iri).0.len() > 0 && spec_is_safe_pn_local(spec_split_namespace(iri).1) {
        set_insert(n, spec_split_namespace(iri).0)
    } else {
        n
    }
}

/// The namespaces `n` after noting those a term is written with: an IRI's
/// (not a node made from a blank node), a typed literal's datatype.
pub open spec fn obs_term(n: Seq<Seq<char>>, term: STerm) -> Seq<Seq<char>> {
    match term {
        STerm::Named(iri) => if has_prefix(iri, BNODE_BASE@) { n } else { obs_iri(n, iri) },
        STerm::Lit(_, d, l) => if l is None && d != XSD_STRING_IRI@ { obs_iri(n, d) } else { n },
        STerm::Blank(_) => n,
    }
}

/// The namespaces after noting those of terms `ts`, in order.
pub open spec fn obs_terms(n: Seq<Seq<char>>, ts: Seq<STerm>) -> Seq<Seq<char>>
    decreases ts.len(),
{
    if ts.len() == 0 { n } else { obs_term(obs_terms(n, ts.drop_last()), ts.last()) }
}

/// The namespaces after noting those a term in a position is written with.
pub open spec fn obs_pos(
    term: STerm,
    m: Seq<(Seq<char>, Seq<STerm>)>,
    p: Seq<(Seq<char>, Seq<(Seq<char>, STerm)>)>,
    v: Seq<Seq<char>>,
    n: Seq<Seq<char>>,
) -> Seq<Seq<char>>
    decreases count_unvisited(p, v), 1nat, 0nat,
{
    match term {
        STerm::Named(c) => if is_blank_class(m, c) {
            obs_blank(c, m, p, v, n)
        } else if value_of(m, c) is Some {
            obs_terms(n, value_of(m, c).unwrap())
        } else {
            obs_term(n, term)
        },
        _ => obs_term(n, term),
    }
}

/// The namespaces after noting those an all-blank class is written with.
pub open spec fn obs_blank(
    c: Seq<char>,
    m: Seq<(Seq<char>, Seq<STerm>)>,
    p: Seq<(Seq<char>, Seq<(Seq<char>, STerm)>)>,
    v: Seq<Seq<char>>,
    n: Seq<Seq<char>>,
) -> Seq<Seq<char>>
    decreases count_unvisited(p, v), 0nat, 0nat,
{
    if v.contains(c) || value_of(p, c) is None {
        n
    } else {
        proof {
            crate::keyed::lemma_key_index_found(p, c);
            lemma_count_unvisited(p, v, c);
        }
        obs_props(value_of(p, c).unwrap(), m, p, v.push(c), n)
    }
}

/// The namespaces after noting those of the predicates and objects of `ps`.
pub open spec fn obs_props(
    ps: Seq<(Seq<char>, STerm)>,
    m: Seq<(Seq<char>, Seq<STerm>)>,
    p: Seq<(Seq<char>, Seq<(Seq<char>, STerm)>)>,
    v: Seq<Seq<char>>,
    n: Seq<Seq<char>>,
) -> Seq<Seq<char>>
    decreases count_unvisited(p, v), 2nat, ps.len(),
{
    if ps.len() == 0 {
        n
    } else {
        let before = obs_props(ps.drop_last(), m, p, v, n);
        obs_pos(ps.last().1, m, p, v, obs_term(before, STerm::Named(ps.last().0)))
    }
}

proof fn lemma_filter_absent(v: Seq<Seq<char>>, c: Seq<char>)
    requires
        !v.contains(c),
    ensures
        v.push(c).filter(other_than(c)) == v,
    decreases v.len(),
{
    reveal(Seq::filter);
    assert(v.push(c).drop_last() =~= v);
    lemma_filter_all(v, c);
}

proof fn lemma_filter_all(v: Seq<Seq<char>>, c: Seq<char>)
    requires
        !v.contains(c),
    ensures
        v.filter(other_than(c)) == v,
    decreases v.len(),
{
    reveal(Seq::filter);
    if v.len() > 0 {
        let init = v.drop_last();
        assert(!init.contains(c)) by {
            if init.contains(c) {
                let k = choose|k: int| 0 <= k < init.len() && init[k] == c;
                assert(v[k] == c);
            }
        }
        lemma_filter_all(init, c);
        assert(v.last() != c) by {
            assert(v[v.len() - 1] == v.last());
        }
        assert(init.push(v.last()) =~= v);
    }
}

/// Notes the namespace a term is written with.
fn observe_term(namespaces: &mut StrSet, term: &RdfTerm)
    ensures
        final(namespaces)@ == obs_term(old(namespaces)@, term@),
{
    match term {
        RdfTerm::Iri(n) => {
            if !starts_with(n.as_str(), BNODE_BASE) {
                observe_iri(namespaces, n.as_str());
            }
        },
        RdfTerm::Literal(l) => {
            if l.language.is_none() && !str_equal(l.datatype.as_str(), XSD_STRING_IRI) {
                observe_iri(namespaces, l.datatype.as_str());
            }
        },
        RdfTerm::Blank(_) => {},
    }
}

/// Notes the namespaces a term in a position is written with.
fn observe_position(
    namespaces: &mut StrSet,
    term: &RdfTerm,
    members: &Vec<(Iri, Vec<RdfTerm>)>,
    props: &Vec<(Iri, Vec<(Iri, RdfTerm)>)>,
    visiting: &mut StrSet,
)
    ensures
        final(namespaces)@ == obs_pos(term@, members_view(members@), props_view(props@), old(visiting)@, old(namespaces)@),
        final(visiting)@ == old(visiting)@,
    decreases count_unvisited(props_view(props@), old(visiting)@), 1nat, 0nat,
{
    if let RdfTerm::Iri(n) = term {
        if blank_class(n.as_str(), members) {
            observe_blank_class(namespaces, n.as_str(), members, props, visiting);
            return;
        }
        if let Some(i) = find_members(members, n.as_str()) {
            let ms = &members[i].1;
            let ghost n0 = namespaces@;
            let ghost tv = crate::graph::term_views(ms@);
            assert(value_of(members_view(members@), n@) == Some(tv));
            for j in 0..ms.len()
                invariant
                    tv == crate::graph::term_views(ms@),
                    namespaces@ == obs_terms(n0, tv.take(j as int)),
            {
                assert(tv.take(j + 1).drop_last() =~= tv.take(j as int));
                assert(tv.take(j + 1).last() == ms@[j as int]@);
                observe_term(namespaces, &ms[j]);
            }
            assert(tv.take(tv.len() as int) =~= tv);
            return;
        }
    }
    observe_term(namespaces, term);
}

/// Notes the namespaces an all-blank class is written with: those of what
/// it asserts.
fn observe_blank_class(
    namespaces: &mut StrSet,
    class: &str,
    members: &Vec<(Iri, Vec<RdfTerm>)>,
    props: &Vec<(Iri, Vec<(Iri, RdfTerm)>)>,
    visiting: &mut StrSet,
)
    ensures
        final(namespaces)@ == obs_blank(class@, members_view(members@), props_view(props@), old(visiting)@, old(namespaces)@),
        final(visiting)@ == old(visiting)@,
    decreases count_unvisited(props_view(props@), old(visiting)@), 0nat, 0nat,
{
    if visiting.contains(class) {
        return;
    }
    let ghost pv = props_view(props@);
    let ghost mv = members_view(members@);
    let ghost v0 = visiting@;
    let ghost n0 = namespaces@;
    match find_props(props, class) {
        None => {},
        Some(i) => {
            proof {
                crate::keyed::lemma_key_index_found(pv, class@);
                lemma_count_unvisited(pv, v0, class@);
            }
            visiting.insert(class);
            let ps = &props[i].1;
            let ghost psv = pair_views(ps@);
            assert(value_of(pv, class@) == Some(psv));
            for j in 0..ps.len()
                invariant
                    psv == pair_views(ps@),
                    pv == props_view(props@),
                    mv == members_view(members@),
                    visiting@ == v0.push(class@),
                    v0 == old(visiting)@,
                    count_unvisited(pv, v0.push(class@)) < count_unvisited(pv, v0),
                    namespaces@ == obs_props(psv.take(j as int), mv, pv, v0.push(class@), n0),
            {
                assert(psv.take(j + 1).drop_last() =~= psv.take(j as int));
                assert(psv.take(j + 1).last() == (ps@[j as int].0@, ps@[j as int].1@));
                let pred = RdfTerm::Iri(ps[j].0.clone());
                observe_term(namespaces, &pred);
                observe_position(namespaces, &ps[j].1, members, props, visiting);
            }
            assert(psv.take(psv.len() as int) =~= psv);
            visiting.remove(class);
            proof {
                lemma_filter_absent(v0, class@);
            }
        },
    }
}

/// Appends `n` levels of indentation to `s`.
fn push_spaces(s: &mut String, n: usize)
    ensures
        final(s)@ == old(s)@ + spaces(n as nat),
{
    let mut i: usize = 0;
    while i < n
        invariant
            i <= n,
            s@ == old(s)@ + spaces(i as nat),
        decreases n - i,
    {
        push_char(s, ' ');
        push_char(s, ' ');
        push_char(s, ' ');
        push_char(s, ' ');
        assert(s@ =~= old(s)@ + spaces((i + 1) as nat));
        i = i + 1;
    }
}

/// Writes a predicate: `a` for `rdf:type`, else abbreviated.
fn predicate_text(p: &Iri, prefixes: &PrefixTable) -> (r: String)
    ensures
        r@ == pred_text(prefixes@, p@),
{
    if str_equal(p.as_str(), RDF_TYPE_IRI) {
        let mut s = String::new();
        push_char(&mut s, 'a');
        s
    } else {
        prefixes.abbreviate(p.as_str())
    }
}

/// Writes a term in a position (see [`pos_text`]), noting the all-blank
/// classes written in `referenced`.
fn render_position(
    term: &RdfTerm,
    members: &Vec<(Iri, Vec<RdfTerm>)>,
    props: &Vec<(Iri, Vec<(Iri, RdfTerm)>)>,
    prefixes: &PrefixTable,
    referenced: &mut StrSet,
    visiting: &mut StrSet,
    indent: usize,
) -> (r: String)
    requires
        indent + count_unvisited(props_view(props@), old(visiting)@) < usize::MAX,
    ensures
        r@ == pos_text(term@, members_view(members@), props_view(props@), prefixes@, old(visiting)@, indent as nat),
        final(referenced)@ == pos_refs(term@, members_view(members@), props_view(props@), old(visiting)@, old(referenced)@),
        final(visiting)@ == old(visiting)@,
    decreases count_unvisited(props_view(props@), old(visiting)@), 1nat, 0nat,
{
    if let RdfTerm::Iri(n) = term {
        if blank_class(n.as_str(), members) {
            return render_blank_class(n.as_str(), members, props, prefixes, referenced, visiting, indent);
        }
        if let Some(i) = find_members(members, n.as_str()) {
            let ms = &members[i].1;
            let ghost tv = crate::graph::term_views(ms@);
            assert(value_of(members_view(members@), n@) == Some(tv));
            let mut out = String::new();
            push_char(&mut out, '(');
            let ghost start = out@;
            for j in 0..ms.len()
                invariant
                    tv == crate::graph::term_views(ms@),
                    out@ == start + joined_terms(tv.take(j as int), prefixes@),
            {
                assert(tv.take(j + 1).drop_last() =~= tv.take(j as int));
                assert(tv.take(j + 1).last() == ms@[j as int]@);
                if j > 0 {
                    push_char(&mut out, ' ');
                }
                let text = format_term(&ms[j], prefixes);
                out.append(text.as_str());
                assert(out@ =~= start + joined_terms(tv.take(j + 1), prefixes@));
            }
            assert(tv.take(tv.len() as int) =~= tv);
            push_char(&mut out, ')');
            return out;
        }
    }
    format_term(term, prefixes)
}

/// Writes an all-blank class (see [`blank_text`]), noting it and the
/// all-blank classes written inside it in `referenced`.
fn render_blank_class(
    class: &str,
    members: &Vec<(Iri, Vec<RdfTerm>)>,
    props: &Vec<(Iri, Vec<(Iri, RdfTerm)>)>,
    prefixes: &PrefixTable,
    referenced: &mut StrSet,
    visiting: &mut StrSet,
    indent: usize,
) -> (r: String)
    requires
        indent + count_unvisited(props_view(props@), old(visiting)@) < usize::MAX,
    ensures
        r@ == blank_text(class@, members_view(members@), props_view(props@), prefixes@, old(visiting)@, indent as nat),
        final(referenced)@ == blank_refs(class@, members_view(members@), props_view(props@), old(visiting)@, old(referenced)@),
        final(visiting)@ == old(visiting)@,
    decreases count_unvisited(props_view(props@), old(visiting)@), 0nat, 0nat,
{
    referenced.insert(class);
    let mut empty = String::new();
    push_char(&mut empty, '[');
    push_char(&mut empty, ']');
    if visiting.contains(class) {
        return empty;
    }
    let ghost pv = props_view(props@);
    let ghost mv = members_view(members@);
    let ghost v0 = visiting@;
    let ghost r1 = referenced@;
    let i = match find_props(props, class) {
        None => {
            return empty;
        },
        Some(i) => i,
    };
    let ps = &props[i].1;
    let ghost psv = pair_views(ps@);
    assert(value_of(pv, class@) == Some(psv));
    if ps.len() == 0 {
        return empty;
    }
    proof {
        crate::keyed::lemma_key_index_found(pv, class@);
        lemma_count_unvisited(pv, v0, class@);
    }
    visiting.insert(class);
    let mut out = String::new();
    push_char(&mut out, '[');
    push_char(&mut out, '\n');
    let ghost start = out@;
    let inner = indent + 1;
    for j in 0..ps.len()
        invariant
            psv == pair_views(ps@),
            ps@.len() > 0,
            pv == props_view(props@),
            mv == members_view(members@),
            visiting@ == v0.push(class@),
            v0 == old(visiting)@,
            count_unvisited(pv, v0.push(class@)) < count_unvisited(pv, v0),
            inner == indent + 1,
            inner + count_unvisited(pv, v0.push(class@)) < usize::MAX,
            j > 0 ==> out@ == start + prop_lines(psv.take(j as int), mv, pv, prefixes@, v0.push(class@), inner as nat),
            j == 0 ==> out@ == start,
            referenced@ == prop_refs(psv.take(j as int), mv, pv, v0.push(class@), r1),
    {
        assert(psv.take(j + 1).drop_last() =~= psv.take(j as int));
        assert(psv.take(j + 1).last() == (ps@[j as int].0@, ps@[j as int].1@));
        if j > 0 {
            push_char(&mut out, ' ');
            push_char(&mut out, ';');
            push_char(&mut out, '\n');
        }
        push_spaces(&mut out, inner);
        let pt = predicate_text(&ps[j].0, prefixes);
        out.append(pt.as_str());
        push_char(&mut out, ' ');
        let ot = render_position(&ps[j].1, members, props, prefixes, referenced, visiting, inner);
        out.append(ot.as_str());
        assert(out@ =~= start + prop_lines(psv.take(j + 1), mv, pv, prefixes@, v0.push(class@), inner as nat));
    }
    assert(psv.take(psv.len() as int) =~= psv);
    visiting.remove(class);
    proof {
        lemma_filter_absent(v0, class@);
    }
    push_char(&mut out, '\n');
    push_spaces(&mut out, indent);
    push_char(&mut out, ']');
    out
}

/// The groups `g` after adding `x` to the group of `k` (a new group at
/// the end if there is none).
pub open spec fn add_to_group<K, T>(g: Seq<(K, Seq<T>)>, k: K, x: T) -> Seq<(K, Seq<T>)> {
    let i = key_index(g, k);
    if i >= 0 { g.update(i, (k, g[i].1.push(x))) } else { g.push((k, seq![x])) }
}

/// The objects of the `rdfs:member` triples of `ts`, grouped by their
/// class, classes in order of first occurrence.
pub open spec fn member_groups(ts: Seq<STriple>) -> Seq<(Seq<char>, Seq<STerm>)>
    decreases ts.len(),
{
    if ts.len() == 0 {
        Seq::empty()
    } else {
        let g = member_groups(ts.drop_last());
        let t = ts.last();
        if t.predicate == RDFS_MEMBER_IRI@ && t.subject is Named {
            add_to_group(g, t.subject->Named_0, t.object)
        } else {
            g
        }
    }
}

/// A literal whose value is empty or white space only: a poor example.
pub open spec fn is_blank_literal(t: STerm) -> bool {
    match t {
        STerm::Lit(v, _, _) => forall|i: int| 0 <= i < v.len() ==> is_white(#[trigger] v[i]),
        _ => false,
    }
}

/// A white space character.
pub open spec fn is_white(c: char) -> bool {
    c == ' ' || c == '\t' || c == '\n' || c == '\r'
}

/// How a member is ranked as an example: blank literals after the others,
/// then by N-Triples form.
pub open spec fn example_key(t: STerm) -> Seq<Seq<char>> {
    seq![if is_blank_literal(t) { seq!['1'] } else { seq!['0'] }, crate::model::spec_term_text(t)]
}

/// Terms sorted as examples (see [`example_key`]), stably.
pub open spec fn sorted_terms(s: Seq<STerm>) -> Seq<STerm> {
    stable_sort(s.map_values(|x: STerm| (example_key(x), x))).map_values(|e: (Seq<Seq<char>>, STerm)| e.1)
}

/// Whether `t` is a blank literal.
fn blank_literal(t: &RdfTerm) -> (r: bool)
    ensures
        r == is_blank_literal(t@),
{
    match t {
        RdfTerm::Literal(l) => {
            let v = chars_of(l.value.as_str());
            let mut i: usize = 0;
            while i < v.len()
                invariant
                    i <= v@.len(),
                    v@ == l.value@,
                    t@ is Lit && t@->Lit_0 == l.value@,
                    forall|j: int| 0 <= j < i ==> is_white(#[trigger] v@[j]),
                decreases v@.len() - i,
            {
                let c = v[i];
                if !(c == ' ' || c == '\t' || c == '\n' || c == '\r') {
                    assert(!is_white(v@[i as int]));
                    return false;
                }
                i = i + 1;
            }
            true
        },
        _ => false,
    }
}

/// The first `n` of `s` (all of them when there are fewer).
pub open spec fn first_n<T>(s: Seq<T>, n: nat) -> Seq<T> {
    if s.len() <= n { s } else { s.take(n as int) }
}

/// The sampled members of each class of member graph `mg`: its members,
/// blank literals last and otherwise by N-Triples form, at most `n` of
/// them.
pub open spec fn spec_collect_members(mg: Seq<STriple>, n: nat) -> Seq<(Seq<char>, Seq<STerm>)> {
    member_groups(mg).map_values(|e: (Seq<char>, Seq<STerm>)| (e.0, first_n(sorted_terms(e.1), n)))
}

/// Adds `x` to the group of class `c` in `by_class`.
fn add_member(by_class: &mut Vec<(Iri, Vec<RdfTerm>)>, c: &Iri, x: &RdfTerm)
    ensures
        members_view(final(by_class)@) == add_to_group(members_view(old(by_class)@), c@, x@),
{
    let ghost mv = members_view(by_class@);
    match find_members(by_class, c.as_str()) {
        Some(i) => {
            proof {
                crate::keyed::lemma_key_index_found(mv, c@);
            }
            let (k, mut v) = by_class.remove(i);
            let ghost vv = crate::graph::term_views(v@);
            assert(mv[i as int] == (k@, vv));
            v.push(x.clone());
            assert(crate::graph::term_views(v@) =~= vv.push(x@));
            by_class.insert(i, (k, v));
            assert(mv[i as int].0 == c@);
            assert(members_view(by_class@) =~= mv.update(i as int, (c@, vv.push(x@))));
        },
        None => {
            let v = vec![x.clone()];
            assert(crate::graph::term_views(v@) =~= seq![x@]);
            by_class.push((c.clone(), v));
            assert(members_view(by_class@) =~= mv.push((c@, seq![x@])));
        },
    }
}

/// The terms of `v` sorted as examples.
fn sort_terms(v: &Vec<RdfTerm>) -> (r: Vec<RdfTerm>)
    ensures
        crate::graph::term_views(r@) == sorted_terms(crate::graph::term_views(v@)),
{
    let ghost dv = crate::graph::term_views(v@);
    let ghost kx = Seq::new(dv.len(), |i: int| (example_key(dv[i]), i as usize));
    let mut keyed: Vec<(Vec<String>, usize)> = Vec::new();
    for i in 0..v.len()
        invariant
            dv == crate::graph::term_views(v@),
            kx == Seq::new(dv.len(), |i: int| (example_key(dv[i]), i as usize)),
            keyed_views(keyed@) == kx.take(i as int),
    {
        let mut rank = String::new();
        if blank_literal(&v[i]) {
            push_char(&mut rank, '1');
        } else {
            push_char(&mut rank, '0');
        }
        let k = v[i].to_string();
        let ghost rv = rank@;
        let ghost kv = k@;
        assert(dv[i as int] == v@[i as int]@);
        let key = vec![rank, k];
        assert(key_view(key@) =~= seq![rv, kv]);
        assert(seq![rv, kv] =~= example_key(dv[i as int]));
        let ghost before = keyed_views(keyed@);
        keyed.push((key, i));
        assert(keyed_views(keyed@) =~= before.push((example_key(dv[i as int]), i)));
        assert(keyed_views(keyed@) =~= kx.take(i + 1));
    }
    assert(kx.take(dv.len() as int) =~= kx);
    let sorted = sort_keyed(keyed);
    let ghost ss = stable_sort(kx);
    let ghost pick = |j: usize| dv[j as int];
    proof {
        crate::order::lemma_stable_sort_elements(kx);
        assert forall|j: int| 0 <= j < ss.len() implies #[trigger] ss[j].1 < dv.len() by {
            assert(kx.contains(ss[j]));
        }
    }
    let mut r: Vec<RdfTerm> = Vec::new();
    for i in 0..sorted.len()
        invariant
            keyed_views(sorted@) == ss,
            dv == crate::graph::term_views(v@),
            pick == (|j: usize| dv[j as int]),
            forall|j: int| 0 <= j < ss.len() ==> #[trigger] ss[j].1 < dv.len(),
            crate::graph::term_views(r@) == ss.take(i as int).map_values(|e: (Seq<Seq<char>>, usize)| pick(e.1)),
    {
        assert(keyed_views(sorted@)[i as int].1 == sorted@[i as int].1);
        let k = sorted[i].1;
        assert(k == ss[i as int].1);
        assert(dv[k as int] == v@[k as int]@);
        let ghost before = crate::graph::term_views(r@);
        r.push(v[k].clone());
        assert(crate::graph::term_views(r@) =~= before.push(pick(k)));
        assert(crate::graph::term_views(r@) =~= ss.take(i + 1).map_values(|e: (Seq<Seq<char>>, usize)| pick(e.1)));
    }
    proof {
        assert(ss.take(ss.len() as int) =~= ss);
        crate::order::lemma_stable_sort_payload(kx, pick);
        assert(crate::order::payload_map(kx, pick) =~= dv.map_values(|x: STerm| (example_key(x), x)));
    }
    r
}

/// Groups the `rdfs:member` triples of `member_graph` by class, each
/// class's members sorted as examples (blank literals last, then by
/// N-Triples form) and cut to `example_count`.
fn collect_members(member_graph: &RdfGraph, example_count: usize) -> (r: Vec<(Iri, Vec<RdfTerm>)>)
    ensures
        members_view(r@) == spec_collect_members(member_graph@, example_count as nat),
{
    let ts = member_graph.triples();
    let ghost g = member_graph@;
    let mut by_class: Vec<(Iri, Vec<RdfTerm>)> = Vec::new();
    let member = crate::namespace::named(RDFS_MEMBER_IRI);
    for i in 0..ts.len()
        invariant
            crate::graph::triple_views(ts@) == g,
            member@ == RDFS_MEMBER_IRI@,
            members_view(by_class@) == member_groups(g.take(i as int)),
    {
        assert(g.take(i + 1).drop_last() =~= g.take(i as int));
        assert(g.take(i + 1).last() == ts@[i as int]@);
        let t = &ts[i];
        if t.predicate.equals(&member) {
            if let SubjectNode::Iri(c) = &t.subject {
                add_member(&mut by_class, c, &t.object);
            }
        }
    }
    assert(g.take(g.len() as int) =~= g);
    let ghost groups = members_view(by_class@);
    let mut r: Vec<(Iri, Vec<RdfTerm>)> = Vec::new();
    for i in 0..by_class.len()
        invariant
            groups == members_view(by_class@),
            members_view(r@) == groups.take(i as int).map_values(
                |e: (Seq<char>, Seq<STerm>)| (e.0, first_n(sorted_terms(e.1), example_count as nat)),
            ),
    {
        let mut sorted = sort_terms(&by_class[i].1);
        let ghost st = crate::graph::term_views(sorted@);
        sorted.truncate(example_count);
        assert(crate::graph::term_views(sorted@) =~= first_n(st, example_count as nat));
        let ghost before = members_view(r@);
        assert(groups[i as int] == (by_class@[i as int].0@, crate::graph::term_views(by_class@[i as int].1@)));
        let ghost entry = (by_class@[i as int].0@, first_n(st, example_count as nat));
        r.push((by_class[i].0.clone(), sorted));
        assert(members_view(r@) =~= before.push(entry));
        assert(members_view(r@) =~= groups.take(i + 1).map_values(
            |e: (Seq<char>, Seq<STerm>)| (e.0, first_n(sorted_terms(e.1), example_count as nat)),
        ));
    }
    assert(groups.take(groups.len() as int) =~= groups);
    r
}

/// The triples of `ts` that are not `<node> a rdfs:Literal` bookkeeping.
pub open spec fn kept_triples(ts: Seq<STriple>) -> Seq<STriple>
    decreases ts.len(),
{
    if ts.len() == 0 {
        Seq::empty()
    } else if crate::relabel::is_literal_marker_triple(ts.last()) {
        kept_triples(ts.drop_last())
    } else {
        kept_triples(ts.drop_last()).push(ts.last())
    }
}

/// The subject of `t` is an all-blank class.
pub open spec fn blank_subject(m: Seq<(Seq<char>, Seq<STerm>)>, t: STriple) -> bool {
    t.subject is Named && is_blank_class(m, t.subject->Named_0)
}

/// The `(predicate, object)` pairs of the triples of `ts` whose subject is
/// an all-blank class, grouped by that class.
pub open spec fn prop_groups(ts: Seq<STriple>, m: Seq<(Seq<char>, Seq<STerm>)>) -> Seq<(Seq<char>, Seq<(Seq<char>, STerm)>)>
    decreases ts.len(),
{
    if ts.len() == 0 {
        Seq::empty()
    } else if blank_subject(m, ts.last()) {
        add_to_group(prop_groups(ts.drop_last(), m), ts.last().subject->Named_0, (ts.last().predicate, ts.last().object))
    } else {
        prop_groups(ts.drop_last(), m)
    }
}

/// The triples of `ts` whose subject is not an all-blank class.
pub open spec fn top_triples(ts: Seq<STriple>, m: Seq<(Seq<char>, Seq<STerm>)>) -> Seq<STriple>
    decreases ts.len(),
{
    if ts.len() == 0 {
        Seq::empty()
    } else if blank_subject(m, ts.last()) {
        top_triples(ts.drop_last(), m)
    } else {
        top_triples(ts.drop_last(), m).push(ts.last())
    }
}

/// `(predicate, object)` pairs sorted by predicate IRI, then object's
/// N-Triples form, stably.
pub open spec fn sorted_pairs(s: Seq<(Seq<char>, STerm)>) -> Seq<(Seq<char>, STerm)> {
    stable_sort(s.map_values(|x: (Seq<char>, STerm)| (seq![x.0, crate::model::spec_term_text(x.1)], x)))
        .map_values(|e: (Seq<Seq<char>>, (Seq<char>, STerm))| e.1)
}

/// What each all-blank class asserts, in sorted order.
pub open spec fn spec_props(ts: Seq<STriple>, m: Seq<(Seq<char>, Seq<STerm>)>) -> Seq<(Seq<char>, Seq<(Seq<char>, STerm)>)> {
    prop_groups(ts, m).map_values(|e: (Seq<char>, Seq<(Seq<char>, STerm)>)| (e.0, sorted_pairs(e.1)))
}

/// The namespaces after noting those of the top-level triples: predicate,
/// subject, then object of each.
pub open spec fn obs_top(
    top: Seq<STriple>,
    m: Seq<(Seq<char>, Seq<STerm>)>,
    p: Seq<(Seq<char>, Seq<(Seq<char>, STerm)>)>,
    n: Seq<Seq<char>>,
) -> Seq<Seq<char>>
    decreases top.len(),
{
    if top.len() == 0 {
        n
    } else {
        let t = top.last();
        let n1 = obs_term(obs_top(top.drop_last(), m, p, n), STerm::Named(t.predicate));
        obs_pos(t.object, m, p, Seq::empty(), obs_pos(t.subject, m, p, Seq::empty(), n1))
    }
}

/// The namespaces after noting those of each all-blank class of `cs`.
pub open spec fn obs_classes(
    cs: Seq<(Seq<char>, Seq<(Seq<char>, STerm)>)>,
    m: Seq<(Seq<char>, Seq<STerm>)>,
    p: Seq<(Seq<char>, Seq<(Seq<char>, STerm)>)>,
    n: Seq<Seq<char>>,
) -> Seq<Seq<char>>
    decreases cs.len(),
{
    if cs.len() == 0 {
        n
    } else {
        obs_blank(cs.last().0, m, p, Seq::empty(), obs_classes(cs.drop_last(), m, p, n))
    }
}

/// The objects of the top-level triples grouped by subject and predicate.
pub open spec fn statement_groups(top: Seq<STriple>) -> Seq<((STerm, Seq<char>), Seq<STerm>)>
    decreases top.len(),
{
    if top.len() == 0 {
        Seq::empty()
    } else {
        add_to_group(statement_groups(top.drop_last()), (top.last().subject, top.last().predicate), top.last().object)
    }
}

/// The statement groups sorted by the subject's N-Triples form, then the
/// predicate IRI, stably.
pub open spec fn sorted_statements(g: Seq<((STerm, Seq<char>), Seq<STerm>)>) -> Seq<((STerm, Seq<char>), Seq<STerm>)> {
    stable_sort(g.map_values(|e: ((STerm, Seq<char>), Seq<STerm>)| (seq![crate::model::spec_term_text(e.0.0), e.0.1], e)))
        .map_values(|e: (Seq<Seq<char>>, ((STerm, Seq<char>), Seq<STerm>))| e.1)
}

/// The object lines of a predicate with several objects, each on its own
/// line indented `ind` levels, joined by ` ,` and line breaks.
pub open spec fn object_lines(
    os: Seq<STerm>,
    m: Seq<(Seq<char>, Seq<STerm>)>,
    p: Seq<(Seq<char>, Seq<(Seq<char>, STerm)>)>,
    t: Seq<(Seq<char>, Seq<char>)>,
    ind: nat,
) -> Seq<char>
    decreases os.len(),
{
    if os.len() == 0 {
        Seq::empty()
    } else {
        let line = spaces(ind) + pos_text(os.last(), m, p, t, Seq::empty(), ind);
        if os.len() == 1 {
            line
        } else {
            object_lines(os.drop_last(), m, p, t, ind) + seq![' ', ',', '\n'] + line
        }
    }
}

/// The all-blank classes written along with objects `os`.
pub open spec fn object_refs(
    os: Seq<STerm>,
    m: Seq<(Seq<char>, Seq<STerm>)>,
    p: Seq<(Seq<char>, Seq<(Seq<char>, STerm)>)>,
    r: Seq<Seq<char>>,
) -> Seq<Seq<char>>
    decreases os.len(),
{
    if os.len() == 0 {
        r
    } else {
        pos_refs(os.last(), m, p, Seq::empty(), object_refs(os.drop_last(), m, p, r))
    }
}

/// A predicate with its objects, the predicate written at level `lvl`: a
/// single object follows it on its line, several go on their own lines
/// one level deeper, joined by ` ,`.
pub open spec fn pred_block(
    g: ((STerm, Seq<char>), Seq<STerm>),
    m: Seq<(Seq<char>, Seq<STerm>)>,
    p: Seq<(Seq<char>, Seq<(Seq<char>, STerm)>)>,
    t: Seq<(Seq<char>, Seq<char>)>,
    lvl: nat,
) -> Seq<char> {
    if g.1.len() == 1 {
        pred_text(t, g.0.1) + seq![' '] + pos_text(g.1[0], m, p, t, Seq::empty(), lvl)
    } else {
        pred_text(t, g.0.1) + seq!['\n'] + object_lines(g.1, m, p, t, lvl + 1)
    }
}

/// The statements of the sorted groups, the text before the final ` .` and
/// line break, and the all-blank classes written: a group starting a new
/// subject closes the previous statement and writes the subject; a group
/// of the same subject continues its predicate list after ` ;`.
pub open spec fn body_pieces(
    gs: Seq<((STerm, Seq<char>), Seq<STerm>)>,
    m: Seq<(Seq<char>, Seq<STerm>)>,
    p: Seq<(Seq<char>, Seq<(Seq<char>, STerm)>)>,
    t: Seq<(Seq<char>, Seq<char>)>,
) -> (Seq<char>, Seq<Seq<char>>)
    decreases gs.len(),
{
    if gs.len() == 0 {
        (Seq::empty(), Seq::empty())
    } else {
        let prev = body_pieces(gs.drop_last(), m, p, t);
        let g = gs.last();
        if gs.len() == 1 || gs[gs.len() - 2].0.0 != g.0.0 {
            let close = if gs.len() > 1 { seq![' ', '.', '\n'] } else { Seq::empty() };
            (
                prev.0 + close + pos_text(g.0.0, m, p, t, Seq::empty(), 0) + seq![' '] + pred_block(g, m, p, t, 0),
                object_refs(g.1, m, p, pos_refs(g.0.0, m, p, Seq::empty(), prev.1)),
            )
        } else {
            (prev.0 + seq![' ', ';', '\n'] + spaces(1) + pred_block(g, m, p, t, 1), object_refs(g.1, m, p, prev.1))
        }
    }
}

/// The statements of the sorted groups, and the all-blank classes written.
pub open spec fn body_text(
    gs: Seq<((STerm, Seq<char>), Seq<STerm>)>,
    m: Seq<(Seq<char>, Seq<STerm>)>,
    p: Seq<(Seq<char>, Seq<(Seq<char>, STerm)>)>,
    t: Seq<(Seq<char>, Seq<char>)>,
) -> (Seq<char>, Seq<Seq<char>>) {
    let b = body_pieces(gs, m, p, t);
    (if gs.len() > 0 { b.0 + seq![' ', '.', '\n'] } else { b.0 }, b.1)
}

/// The all-blank classes not written so far, each as a statement of its
/// own, in order of `cs`.
pub open spec fn tail_text(
    cs: Seq<Seq<char>>,
    m: Seq<(Seq<char>, Seq<STerm>)>,
    p: Seq<(Seq<char>, Seq<(Seq<char>, STerm)>)>,
    t: Seq<(Seq<char>, Seq<char>)>,
    r: Seq<Seq<char>>,
) -> (Seq<char>, Seq<Seq<char>>)
    decreases cs.len(),
{
    if cs.len() == 0 {
        (Seq::empty(), r)
    } else {
        let prev = tail_text(cs.drop_last(), m, p, t, r);
        if prev.1.contains(cs.last()) {
            prev
        } else {
            (
                prev.0 + blank_text(cs.last(), m, p, t, Seq::empty(), 0) + seq![' ', '.', '\n'],
                blank_refs(cs.last(), m, p, Seq::empty(), prev.1),
            )
        }
    }
}

/// The example graph of class graph `cg` and member graph `mg` with at most
/// `n` members shown per class.
pub open spec fn spec_example_turtle(cg: Seq<STriple>, mg: Seq<STriple>, n: nat) -> Seq<char> {
    let m = spec_collect_members(mg, n);
    let ts = kept_triples(cg);
    let p = spec_props(ts, m);
    let top = top_triples(ts, m);
    let ns = obs_classes(p, m, p, obs_top(top, m, p, Seq::empty()));
    let t = spec_build(ns);
    let body = body_text(sorted_statements(statement_groups(top)), m, p, t);
    let tail = tail_text(sorted_strs(p.map_values(|e: (Seq<char>, Seq<(Seq<char>, STerm)>)| e.0)), m, p, t, body.1);
    spec_header(t) + body.0 + tail.0
}

proof fn lemma_add_to_group_len<K, T>(g: Seq<(K, Seq<T>)>, k: K, x: T)
    ensures
        add_to_group(g, k, x).len() <= g.len() + 1,
{
    if key_index(g, k) >= 0 {
        crate::keyed::lemma_key_index_found(g, k);
    }
}

/// Adds `(pr, o)` to what class `c` asserts.
fn add_prop(props: &mut Vec<(Iri, Vec<(Iri, RdfTerm)>)>, c: &Iri, pr: &Iri, o: &RdfTerm)
    ensures
        props_view(final(props)@) == add_to_group(props_view(old(props)@), c@, (pr@, o@)),
{
    let ghost pv = props_view(props@);
    match find_props(props, c.as_str()) {
        Some(i) => {
            proof {
                crate::keyed::lemma_key_index_found(pv, c@);
            }
            let (k, mut v) = props.remove(i);
            let ghost vv = pair_views(v@);
            assert(pv[i as int] == (k@, vv));
            v.push((pr.clone(), o.clone()));
            assert(pair_views(v@) =~= vv.push((pr@, o@)));
            props.insert(i, (k, v));
            assert(props_view(props@) =~= pv.update(i as int, (c@, vv.push((pr@, o@)))));
        },
        None => {
            let v = vec![(pr.clone(), o.clone())];
            assert(pair_views(v@) =~= seq![(pr@, o@)]);
            props.push((c.clone(), v));
            assert(props_view(props@) =~= pv.push((c@, seq![(pr@, o@)])));
        },
    }
}

/// Splits the class graph, without its bookkeeping triples, into what the
/// all-blank classes assert and the top-level triples.
fn split_triples(class_graph: &RdfGraph, members: &Vec<(Iri, Vec<RdfTerm>)>)
    -> (r: (Vec<(Iri, Vec<(Iri, RdfTerm)>)>, Vec<RdfTriple>))
    ensures
        props_view(r.0@) == prop_groups(kept_triples(class_graph@), members_view(members@)),
        crate::graph::triple_views(r.1@) == top_triples(kept_triples(class_graph@), members_view(members@)),
        r.0@.len() <= class_graph@.len(),
{
    let ts = class_graph.triples();
    let ghost g = class_graph@;
    let ghost mv = members_view(members@);
    let mut props: Vec<(Iri, Vec<(Iri, RdfTerm)>)> = Vec::new();
    let mut top: Vec<RdfTriple> = Vec::new();
    for i in 0..ts.len()
        invariant
            crate::graph::triple_views(ts@) == g,
            mv == members_view(members@),
            props_view(props@) == prop_groups(kept_triples(g.take(i as int)), mv),
            crate::graph::triple_views(top@) == top_triples(kept_triples(g.take(i as int)), mv),
            props@.len() <= i,
    {
        let ghost k0 = kept_triples(g.take(i as int));
        assert(g.take(i + 1).drop_last() =~= g.take(i as int));
        assert(g.take(i + 1).last() == ts@[i as int]@);
        let t = &ts[i];
        if !crate::relabel::is_literal_marker(t) {
            assert(kept_triples(g.take(i + 1)) == k0.push(t@));
            assert(k0.push(t@).drop_last() =~= k0);
            let mut is_blank = false;
            if let SubjectNode::Iri(c) = &t.subject {
                if blank_class(c.as_str(), members) {
                    is_blank = true;
                    let ghost pv0 = props_view(props@);
                    add_prop(&mut props, c, &t.predicate, &t.object);
                    proof {
                        lemma_add_to_group_len(pv0, c@, (t.predicate@, t.object@));
                    }
                }
            }
            if !is_blank {
                let ghost before = crate::graph::triple_views(top@);
                top.push(t.clone());
                assert(crate::graph::triple_views(top@) =~= before.push(t@));
            }
            assert(props@.len() <= i + 1) by {
                assert(props_view(props@).len() == props@.len());
            }
        }
    }
    assert(g.take(g.len() as int) =~= g);
    (props, top)
}

/// The pairs of `v` sorted by predicate IRI, then object's N-Triples form.
fn sort_pairs(v: &Vec<(Iri, RdfTerm)>) -> (r: Vec<(Iri, RdfTerm)>)
    ensures
        pair_views(r@) == sorted_pairs(pair_views(v@)),
{
    let ghost dv = pair_views(v@);
    let ghost kx = Seq::new(dv.len(), |i: int| (seq![dv[i].0, crate::model::spec_term_text(dv[i].1)], i as usize));
    let mut keyed: Vec<(Vec<String>, usize)> = Vec::new();
    for i in 0..v.len()
        invariant
            dv == pair_views(v@),
            kx == Seq::new(dv.len(), |i: int| (seq![dv[i].0, crate::model::spec_term_text(dv[i].1)], i as usize)),
            keyed_views(keyed@) == kx.take(i as int),
    {
        let a = v[i].0.iri.clone();
        let b = v[i].1.to_string();
        let ghost av = a@;
        let ghost bv = b@;
        assert(dv[i as int] == (v@[i as int].0@, v@[i as int].1@));
        let key = vec![a, b];
        assert(key_view(key@) =~= seq![av, bv]);
        let ghost before = keyed_views(keyed@);
        keyed.push((key, i));
        assert(kx[i as int] == (seq![av, bv], i));
        assert(keyed_views(keyed@) =~= before.push((seq![av, bv], i)));
        assert(keyed_views(keyed@) =~= kx.take(i + 1));
    }
    assert(kx.take(dv.len() as int) =~= kx);
    let sorted = sort_keyed(keyed);
    let ghost ss = stable_sort(kx);
    let ghost pick = |j: usize| dv[j as int];
    proof {
        crate::order::lemma_stable_sort_elements(kx);
        assert forall|j: int| 0 <= j < ss.len() implies #[trigger] ss[j].1 < dv.len() by {
            assert(kx.contains(ss[j]));
        }
    }
    let mut r: Vec<(Iri, RdfTerm)> = Vec::new();
    for i in 0..sorted.len()
        invariant
            keyed_views(sorted@) == ss,
            dv == pair_views(v@),
            pick == (|j: usize| dv[j as int]),
            forall|j: int| 0 <= j < ss.len() ==> #[trigger] ss[j].1 < dv.len(),
            pair_views(r@) == ss.take(i as int).map_values(|e: (Seq<Seq<char>>, usize)| pick(e.1)),
    {
        assert(keyed_views(sorted@)[i as int].1 == sorted@[i as int].1);
        let k = sorted[i].1;
        assert(k == ss[i as int].1);
        assert(dv[k as int] == (v@[k as int].0@, v@[k as int].1@));
        let ghost before = pair_views(r@);
        r.push((v[k].0.clone(), v[k].1.clone()));
        assert(pair_views(r@) =~= before.push(pick(k)));
        assert(pair_views(r@) =~= ss.take(i + 1).map_values(|e: (Seq<Seq<char>>, usize)| pick(e.1)));
    }
    proof {
        assert(ss.take(ss.len() as int) =~= ss);
        crate::order::lemma_stable_sort_payload(kx, pick);
        assert(crate::order::payload_map(kx, pick) =~= dv.map_values(
            |x: (Seq<char>, STerm)| (seq![x.0, crate::model::spec_term_text(x.1)], x),
        ));
    }
    r
}

/// What each all-blank class asserts, sorted.
fn sort_props(props: &Vec<(Iri, Vec<(Iri, RdfTerm)>)>) -> (r: Vec<(Iri, Vec<(Iri, RdfTerm)>)>)
    ensures
        props_view(r@) == props_view(props@).map_values(|e: (Seq<char>, Seq<(Seq<char>, STerm)>)| (e.0, sorted_pairs(e.1))),
        r@.len() == props@.len(),
{
    let ghost pv = props_view(props@);
    let mut r: Vec<(Iri, Vec<(Iri, RdfTerm)>)> = Vec::new();
    for i in 0..props.len()
        invariant
            pv == props_view(props@),
            props_view(r@) == pv.take(i as int).map_values(|e: (Seq<char>, Seq<(Seq<char>, STerm)>)| (e.0, sorted_pairs(e.1))),
            r@.len() == i,
    {
        let sorted = sort_pairs(&props[i].1);
        assert(pv[i as int] == (props@[i as int].0@, pair_views(props@[i as int].1@)));
        let ghost before = props_view(r@);
        let ghost entry = (props@[i as int].0@, pair_views(sorted@));
        r.push((props[i].0.clone(), sorted));
        assert(props_view(r@) =~= before.push(entry));
        assert(props_view(r@) =~= pv.take(i + 1).map_values(|e: (Seq<char>, Seq<(Seq<char>, STerm)>)| (e.0, sorted_pairs(e.1))));
    }
    assert(pv.take(pv.len() as int) =~= pv);
    r
}

proof fn lemma_count_unvisited_bound(p: Seq<(Seq<char>, Seq<(Seq<char>, STerm)>)>, v: Seq<Seq<char>>)
    ensures
        count_unvisited(p, v) <= p.len(),
    decreases p.len(),
{
    if p.len() > 0 {
        lemma_count_unvisited_bound(p.drop_last(), v);
    }
}

/// The namespaces the example graph is written with.
fn observe_all(
    top: &Vec<RdfTriple>,
    members: &Vec<(Iri, Vec<RdfTerm>)>,
    props: &Vec<(Iri, Vec<(Iri, RdfTerm)>)>,
) -> (r: StrSet)
    ensures
        r@ == obs_classes(props_view(props@), members_view(members@), props_view(props@),
            obs_top(crate::graph::triple_views(top@), members_view(members@), props_view(props@), Seq::empty())),
{
    let ghost mv = members_view(members@);
    let ghost pv = props_view(props@);
    let ghost tv = crate::graph::triple_views(top@);
    let mut namespaces = StrSet::new();
    let mut visiting = StrSet::new();
    for i in 0..top.len()
        invariant
            mv == members_view(members@),
            pv == props_view(props@),
            tv == crate::graph::triple_views(top@),
            visiting@ == Seq::<Seq<char>>::empty(),
            namespaces@ == obs_top(tv.take(i as int), mv, pv, Seq::empty()),
    {
        assert(tv.take(i + 1).drop_last() =~= tv.take(i as int));
        assert(tv.take(i + 1).last() == top@[i as int]@);
        let t = &top[i];
        let pred = RdfTerm::Iri(t.predicate.clone());
        observe_term(&mut namespaces, &pred);
        let subj = t.subject.to_term();
        observe_position(&mut namespaces, &subj, members, props, &mut visiting);
        observe_position(&mut namespaces, &t.object, members, props, &mut visiting);
    }
    assert(tv.take(tv.len() as int) =~= tv);
    let ghost n1 = namespaces@;
    for i in 0..props.len()
        invariant
            mv == members_view(members@),
            pv == props_view(props@),
            visiting@ == Seq::<Seq<char>>::empty(),
            namespaces@ == obs_classes(pv.take(i as int), mv, pv, n1),
    {
        assert(pv.take(i + 1).drop_last() =~= pv.take(i as int));
        assert(pv.take(i + 1).last().0 == props@[i as int].0@);
        observe_blank_class(&mut namespaces, props[i].0.as_str(), members, props, &mut visiting);
    }
    assert(pv.take(pv.len() as int) =~= pv);
    namespaces
}

/// The views of statement groups.
pub open spec fn groups_of_statements_view(g: Seq<((SubjectNode, Iri), Vec<RdfTerm>)>) -> Seq<((STerm, Seq<char>), Seq<STerm>)> {
    g.map_values(|e: ((SubjectNode, Iri), Vec<RdfTerm>)| ((e.0.0@, e.0.1@), crate::graph::term_views(e.1@)))
}

/// Groups the objects of the top-level triples by subject and predicate.
fn group_statements(top: &Vec<RdfTriple>) -> (r: Vec<((SubjectNode, Iri), Vec<RdfTerm>)>)
    ensures
        groups_of_statements_view(r@) == statement_groups(crate::graph::triple_views(top@)),
{
    let ghost tv = crate::graph::triple_views(top@);
    let mut groups: Vec<((SubjectNode, Iri), Vec<RdfTerm>)> = Vec::new();
    for i in 0..top.len()
        invariant
            tv == crate::graph::triple_views(top@),
            groups_of_statements_view(groups@) == statement_groups(tv.take(i as int)),
    {
        assert(tv.take(i + 1).drop_last() =~= tv.take(i as int));
        assert(tv.take(i + 1).last() == top@[i as int]@);
        let t = &top[i];
        let ghost gv = groups_of_statements_view(groups@);
        let ghost key = (t.subject@, t.predicate@);
        let mut j: usize = groups.len();
        assert(gv.take(j as int) =~= gv);
        let mut found: Option<usize> = None;
        while j > 0 && found.is_none()
            invariant
                j <= groups@.len(),
                gv == groups_of_statements_view(groups@),
                key == (t.subject@, t.predicate@),
                found is None ==> key_index(gv, key) == key_index(gv.take(j as int), key),
                found matches Some(f) ==> f == key_index(gv, key) && f < groups@.len(),
            decreases j + (if found is None { 1int } else { 0int }),
        {
            assert(gv.take(j as int).drop_last() =~= gv.take(j - 1));
            assert(gv.take(j as int).last() == gv[j - 1]);
            if groups[j - 1].0.0.equals(&t.subject) && groups[j - 1].0.1.equals(&t.predicate) {
                found = Some(j - 1);
            } else {
                j = j - 1;
            }
        }
        match found {
            Some(f) => {
                let (k, mut v) = groups.remove(f);
                let ghost vv = crate::graph::term_views(v@);
                assert(gv[f as int] == ((k.0@, k.1@), vv));
                v.push(t.object.clone());
                assert(crate::graph::term_views(v@) =~= vv.push(t.object@));
                groups.insert(f, (k, v));
                proof {
                    crate::keyed::lemma_key_index_found(gv, key);
                }
                assert(groups_of_statements_view(groups@) =~= gv.update(f as int, (key, vv.push(t.object@))));
            },
            None => {
                assert(gv.take(0) =~= Seq::<((STerm, Seq<char>), Seq<STerm>)>::empty());
                let v = vec![t.object.clone()];
                assert(crate::graph::term_views(v@) =~= seq![t.object@]);
                groups.push(((t.subject.clone(), t.predicate.clone()), v));
                assert(groups_of_statements_view(groups@) =~= gv.push((key, seq![t.object@])));
            },
        }
    }
    assert(tv.take(tv.len() as int) =~= tv);
    groups
}

/// The positions of the statement groups in sorted order.
fn statement_order(groups: &Vec<((SubjectNode, Iri), Vec<RdfTerm>)>) -> (r: Vec<usize>)
    ensures
        forall|j: int| 0 <= j < r@.len() ==> #[trigger] r@[j] < groups@.len(),
        r@.map_values(|k: usize| groups_of_statements_view(groups@)[k as int])
            == sorted_statements(groups_of_statements_view(groups@)),
{
    let ghost dv = groups_of_statements_view(groups@);
    let ghost kx = Seq::new(dv.len(), |i: int| (seq![crate::model::spec_term_text(dv[i].0.0), dv[i].0.1], i as usize));
    let mut keyed: Vec<(Vec<String>, usize)> = Vec::new();
    for i in 0..groups.len()
        invariant
            dv == groups_of_statements_view(groups@),
            kx == Seq::new(dv.len(), |i: int| (seq![crate::model::spec_term_text(dv[i].0.0), dv[i].0.1], i as usize)),
            keyed_views(keyed@) == kx.take(i as int),
    {
        let a = groups[i].0.0.to_string();
        let b = groups[i].0.1.iri.clone();
        let ghost av = a@;
        let ghost bv = b@;
        assert(dv[i as int].0 == (groups@[i as int].0.0@, groups@[i as int].0.1@));
        let key = vec![a, b];
        assert(key_view(key@) =~= seq![av, bv]);
        let ghost before = keyed_views(keyed@);
        keyed.push((key, i));
        assert(kx[i as int] == (seq![av, bv], i));
        assert(keyed_views(keyed@) =~= before.push((seq![av, bv], i)));
        assert(keyed_views(keyed@) =~= kx.take(i + 1));
    }
    assert(kx.take(dv.len() as int) =~= kx);
    let sorted = sort_keyed(keyed);
    let ghost ss = stable_sort(kx);
    let ghost pick = |j: usize| dv[j as int];
    proof {
        crate::order::lemma_stable_sort_elements(kx);
        assert forall|j: int| 0 <= j < ss.len() implies #[trigger] ss[j].1 < dv.len() by {
            assert(kx.contains(ss[j]));
        }
    }
    let mut r: Vec<usize> = Vec::new();
    for i in 0..sorted.len()
        invariant
            keyed_views(sorted@) == ss,
            dv == groups_of_statements_view(groups@),
            pick == (|j: usize| dv[j as int]),
            forall|j: int| 0 <= j < ss.len() ==> #[trigger] ss[j].1 < dv.len(),
            forall|j: int| 0 <= j < r@.len() ==> #[trigger] r@[j] < groups@.len(),
            r@ == ss.take(i as int).map_values(|e: (Seq<Seq<char>>, usize)| e.1),
    {
        assert(keyed_views(sorted@)[i as int].1 == sorted@[i as int].1);
        let k = sorted[i].1;
        assert(k == ss[i as int].1);
        r.push(k);
        assert(r@ =~= ss.take(i + 1).map_values(|e: (Seq<Seq<char>>, usize)| e.1));
    }
    proof {
        assert(ss.take(ss.len() as int) =~= ss);
        crate::order::lemma_stable_sort_payload(kx, pick);
        assert(crate::order::payload_map(kx, pick) =~= dv.map_values(
            |e: ((STerm, Seq<char>), Seq<STerm>)| (seq![crate::model::spec_term_text(e.0.0), e.0.1], e),
        ));
        assert(r@.map_values(|k: usize| dv[k as int]) =~= sorted_statements(dv));
    }
    r
}

/// Writes a predicate with its objects (see [`pred_block`]).
fn render_block(
    group: &((SubjectNode, Iri), Vec<RdfTerm>),
    members: &Vec<(Iri, Vec<RdfTerm>)>,
    props: &Vec<(Iri, Vec<(Iri, RdfTerm)>)>,
    prefixes: &PrefixTable,
    referenced: &mut StrSet,
    visiting: &mut StrSet,
    lvl: usize,
) -> (r: String)
    requires
        old(visiting)@ == Seq::<Seq<char>>::empty(),
        lvl <= 1,
        2 + count_unvisited(props_view(props@), Seq::empty()) < usize::MAX,
    ensures
        r@ == pred_block(((group.0.0@, group.0.1@), crate::graph::term_views(group.1@)),
            members_view(members@), props_view(props@), prefixes@, lvl as nat),
        final(referenced)@ == object_refs(crate::graph::term_views(group.1@), members_view(members@), props_view(props@),
            old(referenced)@),
        final(visiting)@ == Seq::<Seq<char>>::empty(),
{
    let ghost mv = members_view(members@);
    let ghost pv = props_view(props@);
    let ghost os = crate::graph::term_views(group.1@);
    let mut out = predicate_text(&group.0.1, prefixes);
    let ghost head = out@;
    let ghost r0 = referenced@;
    let objects = &group.1;
    if objects.len() == 1 {
        push_char(&mut out, ' ');
        let ot = render_position(&objects[0], members, props, prefixes, referenced, visiting, lvl);
        out.append(ot.as_str());
        assert(os.drop_last() =~= Seq::<STerm>::empty());
        assert(os.last() == os[0]);
        assert(object_refs(os.drop_last(), mv, pv, r0) == r0);
        assert(out@ =~= head + seq![' '] + pos_text(os[0], mv, pv, prefixes@, Seq::empty(), lvl as nat));
        return out;
    }
    push_char(&mut out, '\n');
    let ghost start = out@;
    let ind = lvl + 1;
    for j in 0..objects.len()
        invariant
            os == crate::graph::term_views(objects@),
            mv == members_view(members@),
            pv == props_view(props@),
            visiting@ == Seq::<Seq<char>>::empty(),
            ind == lvl + 1,
            lvl <= 1,
            2 + count_unvisited(pv, Seq::empty()) < usize::MAX,
            j > 0 ==> out@ == start + object_lines(os.take(j as int), mv, pv, prefixes@, ind as nat),
            j == 0 ==> out@ == start,
            referenced@ == object_refs(os.take(j as int), mv, pv, r0),
    {
        assert(os.take(j + 1).drop_last() =~= os.take(j as int));
        assert(os.take(j + 1).last() == objects@[j as int]@);
        if j > 0 {
            push_char(&mut out, ' ');
            push_char(&mut out, ',');
            push_char(&mut out, '\n');
        }
        push_spaces(&mut out, ind);
        let ot = render_position(&objects[j], members, props, prefixes, referenced, visiting, ind);
        out.append(ot.as_str());
        assert(out@ =~= start + object_lines(os.take(j + 1), mv, pv, prefixes@, ind as nat));
    }
    assert(os.take(os.len() as int) =~= os);
    proof {
        if os.len() == 0 {
            assert(out@ =~= head + seq!['\n'] + object_lines(os, mv, pv, prefixes@, ind as nat));
        }
    }
    out
}

/// Renders the example graph of a summary: the class graph as Turtle,
/// each class with members replaced by a list of at most `example_count` of
/// them, each all-blank class by a nested property list of what it
/// asserts, with `@prefix` lines for the namespaces used.
#[verifier::rlimit(60)]
pub fn example_turtle(class_graph: &RdfGraph, member_graph: &RdfGraph, example_count: usize)
    -> (r: Result<String, crate::error::BschemaError>)
    requires
        class_graph@.len() + 3 < usize::MAX,
    ensures
        r matches Ok(s) && s@ == spec_example_turtle(class_graph@, member_graph@, example_count as nat),
{
    let members = collect_members(member_graph, example_count);
    let (raw_props, top) = split_triples(class_graph, &members);
    let props = sort_props(&raw_props);
    let ghost mv = members_view(members@);
    let ghost pv = props_view(props@);
    proof {
        lemma_count_unvisited_bound(pv, Seq::empty());
    }
    let namespaces = observe_all(&top, &members, &props);
    let prefixes = PrefixTable::build(&namespaces);
    let mut out = prefixes.header();
    let mut referenced = StrSet::new();
    let mut visiting = StrSet::new();
    let groups = group_statements(&top);
    let order = statement_order(&groups);
    let ghost sorted = sorted_statements(groups_of_statements_view(groups@));
    let ghost start = out@;
    let ghost gview = groups_of_statements_view(groups@);
    for j in 0..order.len()
        invariant
            mv == members_view(members@),
            pv == props_view(props@),
            gview == groups_of_statements_view(groups@),
            2 + count_unvisited(pv, Seq::empty()) < usize::MAX,
            visiting@ == Seq::<Seq<char>>::empty(),
            forall|k: int| 0 <= k < order@.len() ==> #[trigger] order@[k] < groups@.len(),
            order@.map_values(|k: usize| gview[k as int]) == sorted,
            out@ == start + body_pieces(sorted.take(j as int), mv, pv, prefixes@).0,
            referenced@ == body_pieces(sorted.take(j as int), mv, pv, prefixes@).1,
    {
        let k = order[j];
        assert(sorted[j as int] == gview[k as int]);
        let ghost pre = sorted.take(j + 1);
        assert(pre.drop_last() =~= sorted.take(j as int));
        assert(pre.last() == sorted[j as int]);
        let g = &groups[k];
        let new_subject = if j == 0 {
            true
        } else {
            let pk = order[j - 1];
            assert(pre[pre.len() - 2] == sorted[j - 1]);
            assert(sorted[j - 1] == gview[pk as int]);
            !groups[pk].0.0.equals(&g.0.0)
        };
        if new_subject {
            if j > 0 {
                push_char(&mut out, ' ');
                push_char(&mut out, '.');
                push_char(&mut out, '\n');
            }
            let subj = g.0.0.to_term();
            let st = render_position(&subj, &members, &props, &prefixes, &mut referenced, &mut visiting, 0);
            out.append(st.as_str());
            push_char(&mut out, ' ');
            let block = render_block(g, &members, &props, &prefixes, &mut referenced, &mut visiting, 0);
            out.append(block.as_str());
        } else {
            push_char(&mut out, ' ');
            push_char(&mut out, ';');
            push_char(&mut out, '\n');
            push_spaces(&mut out, 1);
            let block = render_block(g, &members, &props, &prefixes, &mut referenced, &mut visiting, 1);
            out.append(block.as_str());
        }
        assert(out@ =~= start + body_pieces(pre, mv, pv, prefixes@).0);
    }
    assert(sorted.take(order@.len() as int) =~= sorted);
    if order.len() > 0 {
        push_char(&mut out, ' ');
        push_char(&mut out, '.');
        push_char(&mut out, '\n');
    }
    assert(out@ =~= start + body_text(sorted, mv, pv, prefixes@).0);
    let ghost r_body = referenced@;
    let ghost mid = out@;
    let mut keys: Vec<String> = Vec::new();
    for i in 0..props.len()
        invariant
            pv == props_view(props@),
            keys@.map_values(|x: String| x@) == pv.take(i as int).map_values(|e: (Seq<char>, Seq<(Seq<char>, STerm)>)| e.0),
    {
        let ghost before = keys@.map_values(|x: String| x@);
        keys.push(props[i].0.iri.clone());
        assert(keys@.map_values(|x: String| x@) =~= before.push(pv[i as int].0));
        assert(keys@.map_values(|x: String| x@) =~= pv.take(i + 1).map_values(|e: (Seq<char>, Seq<(Seq<char>, STerm)>)| e.0));
    }
    assert(pv.take(pv.len() as int) =~= pv);
    let candidates = sort_strings(&keys);
    let ghost cs = candidates@.map_values(|x: String| x@);
    for i in 0..candidates.len()
        invariant
            mv == members_view(members@),
            pv == props_view(props@),
            2 + count_unvisited(pv, Seq::empty()) < usize::MAX,
            visiting@ == Seq::<Seq<char>>::empty(),
            cs == candidates@.map_values(|x: String| x@),
            out@ == mid + tail_text(cs.take(i as int), mv, pv, prefixes@, r_body).0,
            referenced@ == tail_text(cs.take(i as int), mv, pv, prefixes@, r_body).1,
    {
        assert(cs.take(i + 1).drop_last() =~= cs.take(i as int));
        assert(cs.take(i + 1).last() == candidates@[i as int]@);
        let c = &candidates[i];
        if !referenced.contains(c.as_str()) {
            let block = render_blank_class(c.as_str(), &members, &props, &prefixes, &mut referenced, &mut visiting, 0);
            out.append(block.as_str());
            push_char(&mut out, ' ');
            push_char(&mut out, '.');
            push_char(&mut out, '\n');
            assert(out@ =~= mid + tail_text(cs.take(i + 1), mv, pv, prefixes@, r_body).0);
        }
    }
    assert(cs.take(cs.len() as int) =~= cs);
    Ok(out)
}

impl crate::relabel::BschemaResult {
    /// The example graph of this summary (see [`example_turtle`]).
    pub fn example_turtle(&self, example_count: usize) -> (r: Result<String, crate::error::BschemaError>)
        requires
            self.class_graph@.len() + 3 < usize::MAX,
        ensures
            r matches Ok(s) && s@ == spec_example_turtle(self.class_graph@, self.member_graph@, example_count as nat),
    {
        example_turtle(&self.class_graph, &self.member_graph, example_count)
    }
}

/// The bookkeeping triples are left out of the example graph, and nothing
/// else is: the triples it is written from are exactly the other triples
/// of the class graph.
pub proof fn lemma_kept_triples(ts: Seq<STriple>)
    ensures
        forall|t: STriple| #[trigger] kept_triples(ts).contains(t)
            <==> ts.contains(t) && !crate::relabel::is_literal_marker_triple(t),
    decreases ts.len(),
{
    if ts.len() > 0 {
        let init = ts.drop_last();
        lemma_kept_triples(init);
        let k0 = kept_triples(init);
        assert forall|t: STriple| #[trigger] kept_triples(ts).contains(t)
            <==> ts.contains(t) && !crate::relabel::is_literal_marker_triple(t) by {
            if ts.contains(t) {
                let i = choose|i: int| 0 <= i < ts.len() && ts[i] == t;
                if i < ts.len() - 1 {
                    assert(init[i] == t);
                    assert(init.contains(t));
                }
            }
            if init.contains(t) {
                let i = choose|i: int| 0 <= i < init.len() && init[i] == t;
                assert(ts[i] == t);
            }
            if !crate::relabel::is_literal_marker_triple(ts.last()) {
                let k1 = k0.push(ts.last());
                if k1.contains(t) && t != ts.last() {
                    let i = choose|i: int| 0 <= i < k1.len() && k1[i] == t;
                    assert(k0[i] == t);
                }
                if k0.contains(t) {
                    let i = choose|i: int| 0 <= i < k0.len() && k0[i] == t;
                    assert(k1[i] == t);
                }
                assert(k1[k0.len() as int] == ts.last());
            }
            assert(ts[ts.len() - 1] == ts.last());
        }
    }
}

proof fn lemma_prefix_entries_keys(s: Seq<Seq<char>>)
    ensures
        prefix_entries(s).len() == s.len(),
        forall|i: int| 0 <= i < s.len() ==> (#[trigger] prefix_entries(s)[i]).0 == s[i],
    decreases s.len(),
{
    if s.len() > 0 {
        lemma_prefix_entries_keys(s.drop_last());
        assert forall|i: int| 0 <= i < s.len() implies (#[trigger] prefix_entries(s)[i]).0 == s[i] by {
            if i < s.len() - 1 {
                assert(prefix_entries(s)[i] == prefix_entries(s.drop_last())[i]);
            }
        }
    }
}

/// Every namespace used gets a prefix: its known short name when it has
/// one, else one of the numbered `ns` names.
pub proof fn lemma_build_covers(nss: Seq<Seq<char>>, ns: Seq<char>)
    requires
        nss.contains(ns),
    ensures
        value_of(spec_build(nss), ns) is Some,
        known_prefix(ns) matches Some(k) ==> value_of(spec_build(nss), ns) == Some(k),
{
    broadcast use vstd::seq_lib::group_to_multiset_ensures;

    let kx = nss.map_values(|x: Seq<char>| (seq![x], x));
    crate::order::lemma_stable_sort_permutation(kx);
    let pick = |e: (Seq<Seq<char>>, Seq<char>)| e.1;
    crate::isomorphism::lemma_map_multiset(stable_sort(kx), kx, pick);
    assert(kx.map_values(pick) =~= nss);
    let sorted = sorted_strs(nss);
    assert(sorted.to_multiset().count(ns) > 0);
    lemma_prefix_entries_keys(sorted);
    let e = prefix_entries(sorted);
    let i = choose|i: int| 0 <= i < sorted.len() && sorted[i] == ns;
    assert(e[i].0 == ns);
    assert(crate::keyed::has_key(e, ns));
    lemma_key_index_exists(e, ns);
    let j = key_index(e, ns);
    crate::keyed::lemma_key_index_found(e, ns);
    lemma_prefix_entries_value(sorted, j);
}

proof fn lemma_key_index_exists<K, V>(e: Seq<(K, V)>, k: K)
    requires
        crate::keyed::has_key(e, k),
    ensures
        key_index(e, k) >= 0,
    decreases e.len(),
{
    if e.last().0 != k {
        let j = choose|j: int| 0 <= j < e.len() && (#[trigger] e[j]).0 == k;
        assert(e.drop_last()[j] == e[j]);
        lemma_key_index_exists(e.drop_last(), k);
    }
}

proof fn lemma_prefix_entries_value(s: Seq<Seq<char>>, j: int)
    requires
        0 <= j < s.len(),
    ensures
        known_prefix(s[j]) matches Some(k) ==> prefix_entries(s)[j].1 == k,
    decreases s.len(),
{
    lemma_prefix_entries_keys(s);
    if j < s.len() - 1 {
        lemma_prefix_entries_value(s.drop_last(), j);
        assert(prefix_entries(s)[j] == prefix_entries(s.drop_last())[j]);
    }
}

} // verus!
