//! Naming of the groups of equivalent subjects, and the iteration that
//! relabels the graph with those names until the groups are stable.

use vstd::prelude::*;
use crate::algorithm::{class_graph, node_views};
use crate::canon::{decimal, push_decimal};
use crate::error::BschemaError;
use crate::graph::{triple_views, RdfGraph};
use crate::isomorphism::{
    class_isomorphisms, groups_view, is_decision, lemma_class_isomorphisms_partition,
    lists_have_same_members, node_key, node_key_of, SGroups, SimilarityThreshold,
};
use crate::keyed::{
    count_of, lemma_set_entry_values, set_entry, value_of, ClassAssignment, NameCounter,
};
use crate::model::{stripple, Blank, Iri, RdfTerm, RdfTriple, STerm, STriple, SubjectNode};
use crate::namespace::{
    ex_ontology_subject, named, ns, BNODE_BASE, BS_BASE, EX_BASE, LITERAL_SKOLEM_BASE,
    OWL_ONTOLOGY_IRI, RDFS_LITERAL_IRI, RDFS_MEMBER_IRI, RDF_SEQ_IRI, RDF_TYPE_IRI,
};
use crate::skolem::{lookup, SkolemMap};
use crate::util::{
    before_first, common_pattern, contains_str, has_infix, has_prefix, local_name, row_views,
    skip_chars, spec_common_pattern, spec_local_name, split_first, starts_with,
};

verus! {

/// The name a group is derived from, by which its classes are counted: with
/// original names, the local name of the common pattern of its members'
/// keys (`literal` or `bnode` when that pattern lies among skolem nodes),
/// which is the part of the class name before the count; else the local
/// name of its class, cut before any `_version_`.
pub open spec fn group_base(members: Seq<STerm>, class: Seq<char>, use_original_names: bool) -> Seq<char> {
    if use_original_names {
        let name = spec_common_pattern(members.map_values(|n: STerm| node_key_of(n)));
        if has_infix(name, LITERAL_SKOLEM_BASE@) {
            "literal"@
        } else if has_infix(name, BNODE_BASE@) {
            "bnode"@
        } else {
            spec_local_name(name)
        }
    } else {
        before_first(spec_local_name(class), "_version_"@)
    }
}

/// The class given to a group whose base name has been used `count` times,
/// this time included: `bs:<local><count>` with original names, else
/// `bs:<base>_version_<count>`.
pub open spec fn group_class(base: Seq<char>, count: nat, use_original_names: bool) -> Seq<char> {
    let name = if use_original_names {
        BS_BASE@ + spec_local_name(base) + decimal(count)
    } else {
        base + "_version_"@ + decimal(count)
    };
    BS_BASE@ + spec_local_name(name)
}

/// The class views of a list of classes.
pub open spec fn class_views(classes: Seq<Iri>) -> Seq<Seq<char>> {
    classes.map_values(|c: Iri| c@)
}

/// The entries after giving every member of `members` the class `c`.
pub open spec fn assign_all(e: Seq<(STerm, Seq<char>)>, members: Seq<STerm>, c: Seq<char>) -> Seq<(STerm, Seq<char>)>
    decreases members.len(),
{
    if members.len() == 0 {
        e
    } else {
        set_entry(assign_all(e, members.drop_last(), c), members.last(), c)
    }
}

/// The counts and assignment after naming the groups in order, starting
/// from `counts`.
pub open spec fn spec_assign(
    groups: Seq<Seq<STerm>>,
    classes: Seq<Seq<char>>,
    use_original_names: bool,
    counts: Seq<(Seq<char>, nat)>,
) -> (Seq<(Seq<char>, nat)>, Seq<(STerm, Seq<char>)>)
    decreases groups.len(),
{
    if groups.len() == 0 {
        (counts, Seq::empty())
    } else {
        let prev = spec_assign(groups.drop_last(), classes, use_original_names, counts);
        let i = groups.len() - 1;
        let base = group_base(groups[i], classes[i], use_original_names);
        let n = count_of(prev.0, base) + 1;
        (set_entry(prev.0, base, n), assign_all(prev.1, groups[i], group_class(base, n, use_original_names)))
    }
}

/// After naming `i` groups no count has grown by more than `i`.
pub open spec fn counts_within(now: Seq<(Seq<char>, nat)>, before: Seq<(Seq<char>, nat)>, i: nat) -> bool {
    forall|k: Seq<char>| #[trigger] count_of(now, k) <= count_of(before, k) + i
}

proof fn lemma_bump_within(now: Seq<(Seq<char>, nat)>, before: Seq<(Seq<char>, nat)>, i: nat, base: Seq<char>, n: nat)
    requires
        crate::keyed::keys_distinct(now),
        counts_within(now, before, i),
        n == count_of(now, base) + 1,
    ensures
        counts_within(set_entry(now, base, n), before, i + 1),
        crate::keyed::keys_distinct(set_entry(now, base, n)),
{
    crate::keyed::lemma_set_entry(now, base, n);
    assert forall|k: Seq<char>| #[trigger] count_of(set_entry(now, base, n), k) <= count_of(before, k) + i + 1 by {
        if k != base {
            assert(count_of(set_entry(now, base, n), k) == count_of(now, k));
        }
    }
}

/// The name a group is derived from (see [`group_base`]).
fn base_name(members: &Vec<SubjectNode>, class: &Iri, use_original_names: bool) -> (r: String)
    ensures
        r@ == group_base(node_views(members@), class@, use_original_names),
{
    if use_original_names {
        let mut keys: Vec<String> = Vec::new();
        for j in 0..members.len()
            invariant
                keys@.len() == j,
                forall|m: int| 0 <= m < j ==> (#[trigger] keys@[m])@ == node_key_of(members@[m]@),
        {
            keys.push(node_key(&members[j]));
        }
        let mut refs: Vec<&str> = Vec::new();
        for j in 0..keys.len()
            invariant
                refs@.len() == j,
                forall|m: int| 0 <= m < j ==> (#[trigger] refs@[m])@ == keys@[m]@,
        {
            refs.push(keys[j].as_str());
        }
        let name = common_pattern(refs.as_slice());
        assert(row_views(refs@) =~= node_views(members@).map_values(|n: STerm| node_key_of(n)));
        if contains_str(name.as_str(), LITERAL_SKOLEM_BASE) {
            "literal".to_owned()
        } else if contains_str(name.as_str(), BNODE_BASE) {
            "bnode".to_owned()
        } else {
            local_name(name.as_str()).to_owned()
        }
    } else {
        split_first(local_name(class.as_str()), "_version_")
    }
}

/// The class of a group whose base name has been used `count` times (see
/// [`group_class`]).
fn class_for(base: &str, count: usize, use_original_names: bool) -> (r: Iri)
    ensures
        r@ == group_class(base@, count as nat, use_original_names),
{
    let mut name: String;
    if use_original_names {
        name = BS_BASE.to_owned();
        name.append(local_name(base));
        push_decimal(&mut name, count);
    } else {
        name = base.to_owned();
        name.append("_version_");
        push_decimal(&mut name, count);
    }
    ns(BS_BASE, local_name(name.as_str()))
}

/// Gives each group of equivalent subjects a fresh `bs:` class, named
/// after the common pattern of its members' IRIs (or, without original
/// names, after a new version of its current class), numbering repeated
/// names with `counter`.
pub fn assign_new_classes(
    equivalent_subjects: &[Vec<SubjectNode>],
    subject_classes: &[Iri],
    use_original_names: bool,
    counter: &mut NameCounter,
) -> (r: ClassAssignment)
    requires
        !use_original_names ==> subject_classes@.len() >= equivalent_subjects@.len(),
        forall|k: Seq<char>| #[trigger] count_of(old(counter)@, k) + equivalent_subjects@.len() <= usize::MAX,
    ensures
        (final(counter)@, r@) == spec_assign(
            groups_view(equivalent_subjects@),
            class_views(subject_classes@),
            use_original_names,
            old(counter)@,
        ),
{
    let ghost groups = groups_view(equivalent_subjects@);
    let ghost classes = class_views(subject_classes@);
    let ghost start = counter@;
    let mut r = ClassAssignment::new();
    let n = equivalent_subjects.len();
    let placeholder = Iri { iri: String::new() };
    for i in 0..n
        invariant
            n == equivalent_subjects@.len(),
            groups == groups_view(equivalent_subjects@),
            classes == class_views(subject_classes@),
            !use_original_names ==> subject_classes@.len() >= n,
            forall|k: Seq<char>| #[trigger] count_of(start, k) + n <= usize::MAX,
            counts_within(counter@, start, i as nat),
            (counter@, r@) == spec_assign(groups.take(i as int), classes, use_original_names, start),
    {
        let members = &equivalent_subjects[i];
        let class = if use_original_names { &placeholder } else { &subject_classes[i] };
        let base = base_name(members, class, use_original_names);
        proof {
            assert(groups.take(i + 1).drop_last() =~= groups.take(i as int));
            assert(groups[i as int] == node_views(members@));
            if !use_original_names {
                assert(classes[i as int] == class@);
            }
            assert(base@ == group_base(groups[i as int], classes[i as int], use_original_names));
            assert(count_of(counter@, base@) <= count_of(start, base@) + i);
        }
        counter.assert_distinct();
        let ghost before_counts = counter@;
        let count = counter.bump(base.as_str());
        proof {
            lemma_bump_within(before_counts, start, i as nat, base@, count as nat);
        }
        let cls = class_for(base.as_str(), count, use_original_names);
        let ghost e0 = r@;
        for j in 0..members.len()
            invariant
                r@ == assign_all(e0, node_views(members@).take(j as int), cls@),
        {
            assert(node_views(members@).take(j + 1).drop_last() =~= node_views(members@).take(j as int));
            r.insert(members[j].clone(), cls.clone());
        }
        assert(node_views(members@).take(members@.len() as int) =~= node_views(members@));
    }
    assert(groups.take(n as int) =~= groups);
    r
}

/// The count with which group `i` is named: one more than the uses of its
/// base name by the groups before it.
pub open spec fn naming_count(
    groups: Seq<Seq<STerm>>,
    classes: Seq<Seq<char>>,
    use_original_names: bool,
    counts: Seq<(Seq<char>, nat)>,
    i: int,
) -> nat {
    count_of(
        spec_assign(groups.take(i), classes, use_original_names, counts).0,
        group_base(groups[i], classes[i], use_original_names),
    ) + 1
}

/// The class that naming gives group `i`.
pub open spec fn group_class_at(
    groups: Seq<Seq<STerm>>,
    classes: Seq<Seq<char>>,
    use_original_names: bool,
    counts: Seq<(Seq<char>, nat)>,
    i: int,
) -> Seq<char> {
    group_class(
        group_base(groups[i], classes[i], use_original_names),
        naming_count(groups, classes, use_original_names, counts, i),
        use_original_names,
    )
}

/// Naming one more group never lowers a count, and sets the count of that
/// group's base name to the count it was named with.
proof fn lemma_counts_step(
    groups: Seq<Seq<STerm>>,
    classes: Seq<Seq<char>>,
    use_original_names: bool,
    counts: Seq<(Seq<char>, nat)>,
    m: int,
)
    requires
        crate::keyed::keys_distinct(counts),
        0 <= m < groups.len(),
    ensures
        crate::keyed::keys_distinct(spec_assign(groups.take(m + 1), classes, use_original_names, counts).0),
        forall|k: Seq<char>| #[trigger] count_of(spec_assign(groups.take(m + 1), classes, use_original_names, counts).0, k)
            >= count_of(spec_assign(groups.take(m), classes, use_original_names, counts).0, k),
        count_of(
            spec_assign(groups.take(m + 1), classes, use_original_names, counts).0,
            group_base(groups[m], classes[m], use_original_names),
        ) == naming_count(groups, classes, use_original_names, counts, m),
    decreases m,
{
    let g1 = groups.take(m + 1);
    assert(g1.drop_last() =~= groups.take(m));
    assert(g1[m] == groups[m]);
    lemma_counts_distinct(groups, classes, use_original_names, counts, m);
    let prev = spec_assign(groups.take(m), classes, use_original_names, counts).0;
    let base = group_base(groups[m], classes[m], use_original_names);
    let n = count_of(prev, base) + 1;
    crate::keyed::lemma_set_entry(prev, base, n);
}

/// Naming keeps the counted names distinct.
proof fn lemma_counts_distinct(
    groups: Seq<Seq<STerm>>,
    classes: Seq<Seq<char>>,
    use_original_names: bool,
    counts: Seq<(Seq<char>, nat)>,
    m: int,
)
    requires
        crate::keyed::keys_distinct(counts),
        0 <= m <= groups.len(),
    ensures
        crate::keyed::keys_distinct(spec_assign(groups.take(m), classes, use_original_names, counts).0),
    decreases m,
{
    if m > 0 {
        lemma_counts_distinct(groups, classes, use_original_names, counts, m - 1);
        let g1 = groups.take(m);
        assert(g1.drop_last() =~= groups.take(m - 1));
        let prev = spec_assign(groups.take(m - 1), classes, use_original_names, counts).0;
        let base = group_base(groups[m - 1], classes[m - 1], use_original_names);
        crate::keyed::lemma_set_entry(prev, base, count_of(prev, base) + 1);
    } else {
        assert(groups.take(0) =~= Seq::<Seq<STerm>>::empty());
    }
}

/// Counts after naming the first `j` groups are at least those after the
/// first `i`.
proof fn lemma_counts_grow(
    groups: Seq<Seq<STerm>>,
    classes: Seq<Seq<char>>,
    use_original_names: bool,
    counts: Seq<(Seq<char>, nat)>,
    i: int,
    j: int,
    k: Seq<char>,
)
    requires
        crate::keyed::keys_distinct(counts),
        0 <= i <= j <= groups.len(),
    ensures
        count_of(spec_assign(groups.take(j), classes, use_original_names, counts).0, k)
            >= count_of(spec_assign(groups.take(i), classes, use_original_names, counts).0, k),
    decreases j - i,
{
    if i < j {
        lemma_counts_grow(groups, classes, use_original_names, counts, i, j - 1, k);
        lemma_counts_step(groups, classes, use_original_names, counts, j - 1);
    }
}

/// The class for a base name differs with the count.
proof fn lemma_group_class_injective(base: Seq<char>, n1: nat, n2: nat, use_original_names: bool)
    requires
        n1 != n2,
    ensures
        group_class(base, n1, use_original_names) != group_class(base, n2, use_original_names),
{
    let z = if use_original_names { BS_BASE@ + spec_local_name(base) } else { base + "_version_"@ };
    crate::canon::lemma_decimal_digits(n1);
    crate::canon::lemma_decimal_digits(n2);
    let d1 = decimal(n1);
    let d2 = decimal(n2);
    assert(d1.last() == d1[d1.len() - 1]);
    assert(d2.last() == d2[d2.len() - 1]);
    crate::util::lemma_local_name_suffix(z, d1);
    crate::util::lemma_local_name_suffix(z, d2);
    if use_original_names {
        assert(BS_BASE@ + spec_local_name(base) + d1 =~= z + d1);
        assert(BS_BASE@ + spec_local_name(base) + d2 =~= z + d2);
    } else {
        assert(base + "_version_"@ + d1 =~= z + d1);
        assert(base + "_version_"@ + d2 =~= z + d2);
    }
    let w = crate::util::local_stem(z);
    if group_class(base, n1, use_original_names) == group_class(base, n2, use_original_names) {
        let c1 = BS_BASE@ + (w + d1);
        let c2 = BS_BASE@ + (w + d2);
        assert(c1 == c2);
        assert(c1.skip((BS_BASE@.len() + w.len()) as int) =~= d1);
        assert(c2.skip((BS_BASE@.len() + w.len()) as int) =~= d2);
        crate::canon::lemma_decimal_injective(n1, n2);
    }
}

/// Naming gives fresh classes: two different groups counted under the same
/// base name get different classes.
pub proof fn lemma_fresh_classes(
    groups: Seq<Seq<STerm>>,
    classes: Seq<Seq<char>>,
    use_original_names: bool,
    counts: Seq<(Seq<char>, nat)>,
    i: int,
    j: int,
)
    requires
        crate::keyed::keys_distinct(counts),
        0 <= i < j < groups.len(),
        group_base(groups[i], classes[i], use_original_names) == group_base(groups[j], classes[j], use_original_names),
    ensures
        group_class_at(groups, classes, use_original_names, counts, i)
            != group_class_at(groups, classes, use_original_names, counts, j),
{
    let base = group_base(groups[i], classes[i], use_original_names);
    lemma_counts_step(groups, classes, use_original_names, counts, i);
    lemma_counts_grow(groups, classes, use_original_names, counts, i + 1, j, base);
    lemma_group_class_injective(
        base,
        naming_count(groups, classes, use_original_names, counts, i),
        naming_count(groups, classes, use_original_names, counts, j),
        use_original_names,
    );
}

/// Some group holds `x`.
pub open spec fn in_some_group(ms: Seq<Seq<STerm>>, x: STerm) -> bool {
    exists|k: int, j: int| 0 <= k < ms.len() && 0 <= j < ms[k].len() && ms[k][j] == x
}

/// No node is in two groups.
pub open spec fn groups_disjoint(ms: Seq<Seq<STerm>>) -> bool {
    forall|k1: int, k2: int, x: STerm|
        0 <= k1 < ms.len() && 0 <= k2 < ms.len() && k1 != k2 && #[trigger] ms[k1].contains(x) && #[trigger] ms[k2].contains(x) ==> false
}

/// The nodes of all groups, taken together, are the nodes of the groups.
pub proof fn lemma_flatten_contains(ms: Seq<Seq<STerm>>, x: STerm)
    ensures
        ms.flatten().contains(x) <==> in_some_group(ms, x),
    decreases ms.len(),
{
    broadcast use Seq::lemma_flatten_push;

    if ms.len() > 0 {
        let init = ms.drop_last();
        assert(init.push(ms.last()) =~= ms);
        lemma_flatten_contains(init, x);
        let f = init.flatten();
        let l = ms.last();
        assert(ms.flatten() =~= f + l);
        if ms.flatten().contains(x) {
            let i = choose|i: int| 0 <= i < ms.flatten().len() && ms.flatten()[i] == x;
            if i < f.len() {
                assert(f[i] == x);
                let (k, j) = choose|k: int, j: int| 0 <= k < init.len() && 0 <= j < init[k].len() && init[k][j] == x;
                assert(ms[k] == init[k]);
            } else {
                assert(l[i - f.len()] == x);
                assert(ms[ms.len() - 1] == l);
            }
        }
        if in_some_group(ms, x) {
            let (k, j) = choose|k: int, j: int| 0 <= k < ms.len() && 0 <= j < ms[k].len() && ms[k][j] == x;
            if k < ms.len() - 1 {
                assert(init[k] == ms[k]);
                assert(in_some_group(init, x));
                let i = choose|i: int| 0 <= i < f.len() && f[i] == x;
                assert(ms.flatten()[i] == x);
            } else {
                assert(ms.flatten()[f.len() + j] == x);
            }
        }
    } else {
        assert(ms.flatten() =~= Seq::<STerm>::empty());
    }
}

proof fn lemma_flatten_count(ms: Seq<Seq<STerm>>, x: STerm, k1: int, k2: int)
    requires
        0 <= k1 < ms.len(),
        0 <= k2 < ms.len(),
        k1 != k2,
        ms[k1].contains(x),
        ms[k2].contains(x),
    ensures
        ms.flatten().to_multiset().count(x) >= 2,
    decreases ms.len(),
{
    broadcast use Seq::lemma_flatten_push, vstd::seq_lib::group_to_multiset_ensures, vstd::seq_lib::lemma_multiset_commutative;

    let init = ms.drop_last();
    assert(init.push(ms.last()) =~= ms);
    let n = ms.len() - 1;
    assert(ms.flatten() =~= init.flatten() + ms.last());
    if k1 < n && k2 < n {
        assert(init[k1] == ms[k1] && init[k2] == ms[k2]);
        lemma_flatten_count(init, x, k1, k2);
    } else {
        let k = if k1 < n { k1 } else { k2 };
        assert(init[k] == ms[k]);
        lemma_flatten_contains(init, x);
        assert(in_some_group(init, x)) by {
            let j = choose|j: int| 0 <= j < init[k].len() && init[k][j] == x;
        }
        assert(ms[n] == ms.last());
        assert(init.flatten().to_multiset().count(x) >= 1);
        assert(ms.last().to_multiset().count(x) >= 1);
    }
}

/// Groups whose nodes, taken together, hold no node twice are disjoint.
pub proof fn lemma_disjoint_from_counts(ms: Seq<Seq<STerm>>, whole: Seq<STerm>)
    requires
        ms.flatten().to_multiset() == whole.to_multiset(),
        whole.no_duplicates(),
    ensures
        groups_disjoint(ms),
{
    broadcast use vstd::seq_lib::group_to_multiset_ensures;

    assert forall|k1: int, k2: int, x: STerm|
        0 <= k1 < ms.len() && 0 <= k2 < ms.len() && k1 != k2 && #[trigger] ms[k1].contains(x) && #[trigger] ms[k2].contains(x) implies false by {
        lemma_flatten_count(ms, x, k1, k2);
        lemma_no_dup_count(whole, x);
    }
}

proof fn lemma_no_dup_count(s: Seq<STerm>, x: STerm)
    requires
        s.no_duplicates(),
    ensures
        s.to_multiset().count(x) <= 1,
    decreases s.len(),
{
    broadcast use vstd::seq_lib::group_to_multiset_ensures;

    if s.len() > 0 {
        let init = s.drop_last();
        assert(init.push(s.last()) =~= s);
        lemma_no_dup_count(init, x);
        if s.last() == x {
            assert(!init.contains(x)) by {
                if init.contains(x) {
                    let i = choose|i: int| 0 <= i < init.len() && init[i] == x;
                    assert(s[i] == s[s.len() - 1]);
                }
            }
        }
    }
}

proof fn lemma_assign_all(e: Seq<(STerm, Seq<char>)>, members: Seq<STerm>, c: Seq<char>)
    requires
        crate::keyed::keys_distinct(e),
    ensures
        crate::keyed::keys_distinct(assign_all(e, members, c)),
        forall|x: STerm| #[trigger] value_of(assign_all(e, members, c), x)
            == if members.contains(x) { Some(c) } else { value_of(e, x) },
    decreases members.len(),
{
    if members.len() > 0 {
        let init = members.drop_last();
        lemma_assign_all(e, init, c);
        let prev = assign_all(e, init, c);
        crate::keyed::lemma_set_entry(prev, members.last(), c);
        assert forall|x: STerm| #[trigger] value_of(assign_all(e, members, c), x)
            == if members.contains(x) { Some(c) } else { value_of(e, x) } by {
            assert(value_of(prev, x) == if init.contains(x) { Some(c) } else { value_of(e, x) });
            if x != members.last() {
                if members.contains(x) {
                    let i = choose|i: int| 0 <= i < members.len() && members[i] == x;
                    assert(init[i] == x);
                }
                if init.contains(x) {
                    let i = choose|i: int| 0 <= i < init.len() && init[i] == x;
                    assert(members[i] == x);
                }
            } else {
                assert(members[members.len() - 1] == x);
            }
        }
    }
}

/// Naming gives each node of the groups a class and no other node one;
/// with disjoint groups all members of a group get the same class.
pub proof fn lemma_assign_groups(
    groups: Seq<Seq<STerm>>,
    classes: Seq<Seq<char>>,
    use_original_names: bool,
    counts: Seq<(Seq<char>, nat)>,
)
    ensures
        crate::keyed::keys_distinct(spec_assign(groups, classes, use_original_names, counts).1),
        forall|x: STerm| #[trigger] value_of(spec_assign(groups, classes, use_original_names, counts).1, x) is Some
            <==> in_some_group(groups, x),
        groups_disjoint(groups) ==> forall|k: int, j: int| 0 <= k < groups.len() && 0 <= j < groups[k].len()
            ==> #[trigger] value_of(spec_assign(groups, classes, use_original_names, counts).1, groups[k][j])
                == value_of(spec_assign(groups, classes, use_original_names, counts).1, groups[k][0]),
    decreases groups.len(),
{
    if groups.len() > 0 {
        let init = groups.drop_last();
        lemma_assign_groups(init, classes, use_original_names, counts);
        let prev = spec_assign(init, classes, use_original_names, counts);
        let i = groups.len() - 1;
        let base = group_base(groups[i], classes[i], use_original_names);
        let n = count_of(prev.0, base) + 1;
        let c = group_class(base, n, use_original_names);
        let r = spec_assign(groups, classes, use_original_names, counts).1;
        assert(r == assign_all(prev.1, groups[i], c));
        lemma_assign_all(prev.1, groups[i], c);
        assert forall|x: STerm| #[trigger] value_of(r, x) is Some <==> in_some_group(groups, x) by {
            if in_some_group(groups, x) {
                let (k, j) = choose|k: int, j: int| 0 <= k < groups.len() && 0 <= j < groups[k].len() && groups[k][j] == x;
                if k < i {
                    assert(init[k] == groups[k]);
                    assert(in_some_group(init, x));
                } else {
                    assert(groups[i].contains(x));
                }
            }
            if value_of(r, x) is Some && !groups[i].contains(x) {
                assert(in_some_group(init, x));
                let (k, j) = choose|k: int, j: int| 0 <= k < init.len() && 0 <= j < init[k].len() && init[k][j] == x;
                assert(groups[k] == init[k]);
            }
            if groups[i].contains(x) {
                let j = choose|j: int| 0 <= j < groups[i].len() && groups[i][j] == x;
            }
        }
        if groups_disjoint(groups) {
            assert(groups_disjoint(init)) by {
                assert forall|k1: int, k2: int, x: STerm|
                    0 <= k1 < init.len() && 0 <= k2 < init.len() && k1 != k2 && #[trigger] init[k1].contains(x) && #[trigger] init[k2].contains(x) implies false by {
                    assert(groups[k1] == init[k1] && groups[k2] == init[k2]);
                    assert(groups[k1].contains(x) && groups[k2].contains(x));
                }
            }
            assert forall|k: int, j: int| 0 <= k < groups.len() && 0 <= j < groups[k].len()
                implies #[trigger] value_of(r, groups[k][j]) == value_of(r, groups[k][0]) by {
                if k == i {
                    assert(groups[i].contains(groups[k][j]));
                    assert(groups[i].contains(groups[k][0]));
                } else {
                    assert(groups[k] == init[k]);
                    assert(groups[k].contains(groups[k][j]));
                    assert(groups[k].contains(groups[k][0]));
                    assert(!groups[i].contains(groups[k][j]));
                    assert(!groups[i].contains(groups[k][0]));
                }
            }
        }
    }
}

/// `s` is the subject of a triple of `g`.
pub open spec fn is_subject(g: Seq<STriple>, s: STerm) -> bool {
    exists|i: int| 0 <= i < g.len() && (#[trigger] g[i]).subject == s
}

/// The label `(s, rdf:type, c)`.
pub open spec fn label(s: STerm, c: Seq<char>) -> STriple {
    stripple(s, RDF_TYPE_IRI@, STerm::Named(c))
}

/// `t` is the label that assignment `a` gives its subject.
pub open spec fn is_label_in(a: Seq<(STerm, Seq<char>)>, t: STriple) -> bool {
    t.predicate == RDF_TYPE_IRI@ && t.object is Named && value_of(a, t.subject) == Some(t.object->Named_0)
}

/// `a` gives a `bs:` class to every subject of `sk` and to nothing else.
pub open spec fn assigns_subjects(a: Seq<(STerm, Seq<char>)>, sk: Seq<STriple>) -> bool {
    &&& crate::keyed::keys_distinct(a)
    &&& forall|s: STerm| #[trigger] value_of(a, s) is Some <==> is_subject(sk, s)
    &&& forall|j: int| 0 <= j < a.len() ==> is_bs_iri(#[trigger] a[j].1)
}

/// `dg` is `sk` relabeled by `a`: it has the same subjects, holds triples
/// of `sk` and labels of `a` only, every label of `a`, and every triple of
/// `sk` that is not a `bs:` label.
pub open spec fn relabeled(dg: Seq<STriple>, sk: Seq<STriple>, a: Option<Seq<(STerm, Seq<char>)>>) -> bool {
    &&& forall|s: STerm| #[trigger] is_subject(dg, s) <==> is_subject(sk, s)
    &&& forall|t: STriple| #[trigger] sk.contains(t) && !is_bs_label(t) ==> dg.contains(t)
    &&& forall|t: STriple| #[trigger] dg.contains(t) ==> sk.contains(t) || (a matches Some(m) && is_label_in(m, t))
    &&& a matches Some(m) ==> {
        &&& assigns_subjects(m, sk)
        &&& forall|s: STerm, c: Seq<char>| value_of(m, s) == Some(c) ==> #[trigger] dg.contains(label(s, c))
    }
}

/// `t` is the label of one of the entries of `a`.
pub open spec fn is_entry_label(a: Seq<(STerm, Seq<char>)>, t: STriple) -> bool {
    exists|j: int| 0 <= j < a.len() && t == label(a[j].0, a[j].1)
}

/// `after` is `before` with the labels of `prev` taken out and those of
/// `next` put in.
pub open spec fn relabels(
    after: Seq<STriple>,
    before: Seq<STriple>,
    prev: Option<Seq<(STerm, Seq<char>)>>,
    next: Seq<(STerm, Seq<char>)>,
) -> bool {
    forall|t: STriple| #[trigger] after.contains(t)
        <==> (before.contains(t) && !(prev matches Some(p) && is_entry_label(p, t))) || is_entry_label(next, t)
}

/// Every member of every group has a class in `a`, that of the first member
/// of its group.
pub open spec fn groups_uniform(ms: Seq<Seq<STerm>>, a: Seq<(STerm, Seq<char>)>) -> bool {
    forall|k: int, j: int| 0 <= k < ms.len() && 0 <= j < ms[k].len()
        ==> value_of(a, #[trigger] ms[k][j]) is Some && value_of(a, ms[k][j]) == value_of(a, ms[k][0])
}

/// The view of an optional assignment.
pub open spec fn assignment_view(a: Option<ClassAssignment>) -> Option<Seq<(STerm, Seq<char>)>> {
    match a {
        Some(m) => Some(m@),
        None => None,
    }
}

/// Groups with the same members as uniform groups are uniform.
proof fn lemma_same_members_uniform(e: Seq<Seq<STerm>>, p: Seq<Seq<STerm>>, a: Seq<(STerm, Seq<char>)>)
    requires
        crate::isomorphism::same_members(e, p),
        groups_uniform(p, a),
        forall|k: int| 0 <= k < p.len() ==> (#[trigger] p[k]).len() > 0,
    ensures
        groups_uniform(e, a),
{
    broadcast use vstd::seq_lib::group_to_multiset_ensures;

    assert forall|k: int, j: int| 0 <= k < e.len() && 0 <= j < e[k].len()
        implies value_of(a, #[trigger] e[k][j]) is Some && value_of(a, e[k][j]) == value_of(a, e[k][0]) by {
        let se = crate::isomorphism::sorted_groups(e);
        let sp = crate::isomorphism::sorted_groups(p);
        assert(se[k] == crate::isomorphism::sorted_nodes(e[k]));
        assert(se.to_set().contains(se[k]));
        assert(sp.to_set().contains(se[k]));
        let m = choose|m: int| 0 <= m < sp.len() && sp[m] == se[k];
        crate::isomorphism::lemma_sorted_nodes_permutation(e[k]);
        crate::isomorphism::lemma_sorted_nodes_permutation(p[m]);
        assert(e[k].to_multiset() == p[m].to_multiset());
        assert forall|x: STerm| e[k].contains(x) implies value_of(a, x) is Some && value_of(a, x) == value_of(a, p[m][0]) by {
            assert(e[k].to_multiset().count(x) > 0);
            assert(p[m].contains(x));
            let q = choose|q: int| 0 <= q < p[m].len() && p[m][q] == x;
            assert(value_of(a, p[m][q]) is Some);
        }
        assert(e[k].contains(e[k][j]));
        assert(e[k].contains(e[k][0]));
    }
}

/// The groups of a graph whose subjects are those of `sk` are disjoint and
/// hold exactly the subjects of `sk`.
proof fn lemma_groups_cover(dg: Seq<STriple>, sk: Seq<STriple>, groups: Seq<Seq<STerm>>)
    requires
        groups.flatten().to_multiset() == crate::isomorphism::distinct_subjects(dg).to_multiset(),
        forall|s: STerm| #[trigger] is_subject(dg, s) <==> is_subject(sk, s),
    ensures
        groups_disjoint(groups),
        forall|x: STerm| #[trigger] in_some_group(groups, x) <==> is_subject(sk, x),
{
    crate::isomorphism::lemma_distinct_subjects(dg);
    lemma_disjoint_from_counts(groups, crate::isomorphism::distinct_subjects(dg));
    assert forall|x: STerm| #[trigger] in_some_group(groups, x) <==> is_subject(sk, x) by {
        lemma_flatten_contains(groups, x);
        assert(groups.flatten().to_multiset().count(x) == crate::isomorphism::distinct_subjects(dg).to_multiset().count(x));
        vstd::seq_lib::to_multiset_contains(groups.flatten(), x);
        vstd::seq_lib::to_multiset_contains(crate::isomorphism::distinct_subjects(dg), x);
        assert(is_subject(dg, x) <==> is_subject(sk, x));
        if is_subject(dg, x) {
            let i = choose|i: int| 0 <= i < dg.len() && (#[trigger] dg[i]).subject == x;
        }
    }
}

/// Naming disjoint groups that hold exactly the subjects of `sk` assigns
/// those subjects, uniformly per group.
proof fn lemma_new_assignment(groups: Seq<Seq<STerm>>, classes: Seq<Seq<char>>, use_original_names: bool, sk: Seq<STriple>)
    requires
        groups_disjoint(groups),
        forall|x: STerm| #[trigger] in_some_group(groups, x) <==> is_subject(sk, x),
    ensures
        assigns_subjects(spec_assign(groups, classes, use_original_names, Seq::empty()).1, sk),
        groups_uniform(groups, spec_assign(groups, classes, use_original_names, Seq::empty()).1),
{
    let a = spec_assign(groups, classes, use_original_names, Seq::empty()).1;
    lemma_assigned_classes_bs(groups, classes, use_original_names, Seq::empty());
    lemma_assign_groups(groups, classes, use_original_names, Seq::empty());
    assert forall|x: STerm| #[trigger] value_of(a, x) is Some <==> is_subject(sk, x) by {
        assert(in_some_group(groups, x) <==> is_subject(sk, x));
    }
    assert forall|k: int, j: int| 0 <= k < groups.len() && 0 <= j < groups[k].len()
        implies value_of(a, #[trigger] groups[k][j]) is Some && value_of(a, groups[k][j]) == value_of(a, groups[k][0]) by {
        assert(in_some_group(groups, groups[k][j]));
    }
}

/// Replaces the labels of `prev` in `dg` with those of `next`.
fn relabel(dg: &mut RdfGraph, prev: &Option<ClassAssignment>, next: &ClassAssignment, Ghost(sk): Ghost<Seq<STriple>>)
    requires
        relabeled(old(dg)@, sk, assignment_view(*prev)),
        assigns_subjects(next@, sk),
    ensures
        relabeled(final(dg)@, sk, Some(next@)),
        relabels(final(dg)@, old(dg)@, assignment_view(*prev), next@),
{
    let ghost dg0 = dg@;
    match prev {
        Some(a) => {
            let n = a.len();
            for i in 0..n
                invariant
                    n == a@.len(),
                    forall|t: STriple| #[trigger] dg@.contains(t) <==> dg0.contains(t)
                        && !(exists|j: int| 0 <= j < i && t == label(a@[j].0, a@[j].1)),
            {
                let (s, c) = a.entry(i);
                let t = type_triple(s, c);
                dg.remove(&t);
                assert forall|u: STriple| #[trigger] dg@.contains(u) <==> dg0.contains(u)
                    && !(exists|j: int| 0 <= j < i + 1 && u == label(a@[j].0, a@[j].1)) by {
                    if exists|j: int| 0 <= j < i + 1 && u == label(a@[j].0, a@[j].1) {
                        let j = choose|j: int| 0 <= j < i + 1 && u == label(a@[j].0, a@[j].1);
                        if j < i {
                            assert(exists|j2: int| 0 <= j2 < i && u == label(a@[j2].0, a@[j2].1));
                        }
                    }
                }
            }
        },
        None => {},
    }
    let ghost dg1 = dg@;
    let m = next.len();
    for i in 0..m
        invariant
            m == next@.len(),
            forall|t: STriple| #[trigger] dg@.contains(t) <==> dg1.contains(t)
                || (exists|j: int| 0 <= j < i && t == label(next@[j].0, next@[j].1)),
    {
        let (s, c) = next.entry(i);
        let t = type_triple(s, c);
        dg.insert(&t);
        assert forall|u: STriple| #[trigger] dg@.contains(u) <==> dg1.contains(u)
            || (exists|j: int| 0 <= j < i + 1 && u == label(next@[j].0, next@[j].1)) by {
            if exists|j: int| 0 <= j < i + 1 && u == label(next@[j].0, next@[j].1) {
                let j = choose|j: int| 0 <= j < i + 1 && u == label(next@[j].0, next@[j].1);
                if j < i {
                    assert(exists|j2: int| 0 <= j2 < i && u == label(next@[j2].0, next@[j2].1));
                }
            }
        }
    }
    proof {
        let dg2 = dg@;
        let nv = next@;
        assert forall|t: STriple| #[trigger] dg2.contains(t)
            <==> (dg0.contains(t) && !(assignment_view(*prev) matches Some(p) && is_entry_label(p, t)))
                || is_entry_label(nv, t) by {
            match prev {
                Some(a) => {
                    assert(dg1.contains(t) <==> dg0.contains(t) && !is_entry_label(a@, t));
                },
                None => {
                    assert(dg1 == dg0);
                },
            }
        }
        assert forall|t: STriple| #[trigger] sk.contains(t) && !is_bs_label(t) implies dg2.contains(t) by {
            assert(dg0.contains(t));
            if let Some(a) = *prev {
                if exists|j: int| 0 <= j < a@.len() && t == label(a@[j].0, a@[j].1) {
                    let j = choose|j: int| 0 <= j < a@.len() && t == label(a@[j].0, a@[j].1);
                    assert(is_bs_iri(a@[j].1));
                    assert(crate::util::occurs_at(a@[j].1, BS_BASE@, 0)) by {
                        assert(a@[j].1.subrange(0, BS_BASE@.len() as int) =~= a@[j].1.take(BS_BASE@.len() as int));
                    }
                    assert(is_bs_label(t));
                }
            }
            assert(dg1.contains(t));
        }
        assert forall|s: STerm, c: Seq<char>| value_of(nv, s) == Some(c) implies #[trigger] dg2.contains(label(s, c)) by {
            crate::keyed::lemma_value_of_entry(nv, s, c);
            let j = choose|j: int| 0 <= j < nv.len() && nv[j] == (s, c);
            assert(label(s, c) == label(nv[j].0, nv[j].1));
        }
        assert forall|t: STriple| #[trigger] dg2.contains(t) implies sk.contains(t) || is_label_in(nv, t) by {
            if exists|j: int| 0 <= j < m && t == label(nv[j].0, nv[j].1) {
                let j = choose|j: int| 0 <= j < m && t == label(nv[j].0, nv[j].1);
                crate::keyed::lemma_value_of_entry(nv, nv[j].0, nv[j].1);
            } else {
                assert(dg1.contains(t));
                assert(dg0.contains(t));
                match prev {
                    Some(a) => {
                        if is_label_in(a@, t) {
                            crate::keyed::lemma_value_of_entry(a@, t.subject, t.object->Named_0);
                            let j = choose|j: int| 0 <= j < a@.len() && a@[j] == (t.subject, t.object->Named_0);
                            assert(t == label(a@[j].0, a@[j].1));
                            assert(false);
                        }
                    },
                    None => {},
                }
            }
        }
        assert forall|x: STerm| #[trigger] is_subject(dg2, x) <==> is_subject(sk, x) by {
            if is_subject(dg2, x) {
                let i = choose|i: int| 0 <= i < dg2.len() && (#[trigger] dg2[i]).subject == x;
                assert(dg2.contains(dg2[i]));
                if exists|j: int| 0 <= j < m && dg2[i] == label(nv[j].0, nv[j].1) {
                    let j = choose|j: int| 0 <= j < m && dg2[i] == label(nv[j].0, nv[j].1);
                    crate::keyed::lemma_value_of_entry(nv, nv[j].0, nv[j].1);
                } else {
                    assert(dg0.contains(dg2[i]));
                    let k = choose|k: int| 0 <= k < dg0.len() && dg0[k] == dg2[i];
                    assert(is_subject(dg0, x));
                }
            }
            if is_subject(sk, x) {
                assert(value_of(nv, x) is Some);
                let c = value_of(nv, x).unwrap();
                assert(dg2.contains(label(x, c)));
                let k = choose|k: int| 0 <= k < dg2.len() && dg2[k] == label(x, c);
                assert(dg2[k].subject == x);
            }
        }
    }
}

proof fn lemma_no_counts(n: nat)
    requires
        n <= usize::MAX,
    ensures
        forall|k: Seq<char>| #[trigger] count_of(Seq::<(Seq<char>, nat)>::empty(), k) + n <= usize::MAX,
{
    assert forall|k: Seq<char>| #[trigger] count_of(Seq::<(Seq<char>, nat)>::empty(), k) + n <= usize::MAX by {
        assert(crate::keyed::key_index(Seq::<(Seq<char>, nat)>::empty(), k) == -1);
    }
}

/// The skolem namespaces and the `bs:` namespace lie apart, and the
/// fallback classes are not `bs:` classes.
proof fn lemma_namespaces_apart(x: Seq<char>)
    ensures
        !has_prefix(BNODE_BASE@ + x, LITERAL_SKOLEM_BASE@),
        !has_prefix(LITERAL_SKOLEM_BASE@ + x, BNODE_BASE@),
        !is_bs_iri(BNODE_BASE@ + x),
        !is_bs_iri(LITERAL_SKOLEM_BASE@ + x),
        !is_bs_iri(crate::namespace::RDFS_RESOURCE_IRI@),
        !is_bs_iri(RDFS_LITERAL_IRI@),
        has_prefix(LITERAL_SKOLEM_BASE@ + x, LITERAL_SKOLEM_BASE@),
        has_prefix(BNODE_BASE@ + x, BNODE_BASE@),
        (BNODE_BASE@ + x).skip(BNODE_BASE@.len() as int) == x,
{
    reveal_strlit("urn:bschema-rs:skolem:");
    reveal_strlit("urn:bschema-rs:skolem-literal:");
    reveal_strlit("urn:bschema#");
    reveal_strlit("http://www.w3.org/2000/01/rdf-schema#Resource");
    reveal_strlit("http://www.w3.org/2000/01/rdf-schema#Literal");
    let b = BNODE_BASE@ + x;
    let l = LITERAL_SKOLEM_BASE@ + x;
    assert(BNODE_BASE@.len() == 22);
    assert(LITERAL_SKOLEM_BASE@.len() == 30);
    assert(BS_BASE@.len() == 12);
    assert(b[21] == ':' && b[11] == '-');
    assert(l[21] == '-' && l[11] == '-');
    if has_prefix(b, LITERAL_SKOLEM_BASE@) {
        assert(b.take(30)[21] == LITERAL_SKOLEM_BASE@[21]);
    }
    if has_prefix(l, BNODE_BASE@) {
        assert(l.take(22)[21] == BNODE_BASE@[21]);
    }
    if is_bs_iri(b) {
        assert(b.take(12)[11] == BS_BASE@[11]);
    }
    if is_bs_iri(l) {
        assert(l.take(12)[11] == BS_BASE@[11]);
    }
    if is_bs_iri(crate::namespace::RDFS_RESOURCE_IRI@) {
        assert(crate::namespace::RDFS_RESOURCE_IRI@.take(12)[0] == BS_BASE@[0]);
    }
    if is_bs_iri(RDFS_LITERAL_IRI@) {
        assert(RDFS_LITERAL_IRI@.take(12)[0] == BS_BASE@[0]);
    }
    assert((LITERAL_SKOLEM_BASE@ + x).take(LITERAL_SKOLEM_BASE@.len() as int) =~= LITERAL_SKOLEM_BASE@);
    assert((BNODE_BASE@ + x).take(BNODE_BASE@.len() as int) =~= BNODE_BASE@);
    assert((BNODE_BASE@ + x).skip(BNODE_BASE@.len() as int) =~= x);
}

/// `iri` lies in one of the skolem namespaces.
pub open spec fn is_skolem_iri(iri: Seq<char>) -> bool {
    has_prefix(iri, BNODE_BASE@) || has_prefix(iri, LITERAL_SKOLEM_BASE@)
}

/// No subject of `g` is a named node of a skolem namespace.
pub open spec fn no_skolem_subjects(g: Seq<STriple>) -> bool {
    forall|t: STriple| #[trigger] g.contains(t) && t.subject is Named ==> !is_skolem_iri(t.subject->Named_0)
}

/// No object of `g` is a `bs:` IRI or a literal of a `bs:` datatype.
pub open spec fn no_bs_objects(g: Seq<STriple>) -> bool {
    forall|t: STriple| #[trigger] g.contains(t) ==> match t.object {
        STerm::Named(x) => !is_bs_iri(x),
        STerm::Lit(_, d, _) => !is_bs_iri(d),
        STerm::Blank(_) => true,
    }
}

/// A named node of the `bs:` namespace.
pub open spec fn is_bs_node(t: STerm) -> bool {
    t is Named && is_bs_iri(t->Named_0)
}

/// Class `c` has a member in member graph `m`.
pub open spec fn has_members(m: Seq<STriple>, c: STerm) -> bool {
    exists|x: STerm| #[trigger] m.contains(stripple(c, RDFS_MEMBER_IRI@, x))
}

proof fn lemma_lookup_key(rev: Seq<(Seq<char>, STerm)>, k: Seq<char>)
    requires
        crate::skolem::distinct_keys(rev),
        lookup(rev, k) is Some,
    ensures
        exists|j: int| 0 <= j < rev.len() && rev[j].0 == k && lookup(rev, k) == Some(rev[j].1),
{
    crate::skolem::lemma_lookup(rev, k);
    let j = choose|j: int| 0 <= j < rev.len() && rev[j].0 == k;
}

/// A subject of the input is reported as itself.
proof fn lemma_reported_subject(src: Seq<STriple>, sk: Seq<STriple>, rev: Seq<(Seq<char>, STerm)>, h: spec_fn(STerm) -> u64, i: int)
    requires
        crate::skolem::skolemized(src, sk, rev, h),
        0 <= i < src.len(),
        no_skolem_subjects(src),
        !(src[i].subject is Lit),
    ensures
        reported(crate::skolem::skolem_term(src[i].subject, h), rev) == src[i].subject,
{
    assert(src.contains(src[i]));
    let s = src[i].subject;
    match s {
        STerm::Named(iri) => {
            if lookup(rev, iri) is Some {
                lemma_lookup_key(rev, iri);
                let j = choose|j: int| 0 <= j < rev.len() && rev[j].0 == iri && lookup(rev, iri) == Some(rev[j].1);
                assert(rev[j].0 == crate::skolem::skolem_literal_iri(h(rev[j].1)));
                lemma_namespaces_apart(crate::skolem::hex16(h(rev[j].1)));
            }
        },
        STerm::Blank(id) => {
            lemma_namespaces_apart(id);
            let k = BNODE_BASE@ + id;
            if lookup(rev, k) is Some {
                lemma_lookup_key(rev, k);
                let j = choose|j: int| 0 <= j < rev.len() && rev[j].0 == k && lookup(rev, k) == Some(rev[j].1);
                assert(rev[j].0 == crate::skolem::skolem_literal_iri(h(rev[j].1)));
                lemma_namespaces_apart(crate::skolem::hex16(h(rev[j].1)));
                assert(false);
            }
        },
        STerm::Lit(_, _, _) => {},
    }
}

/// What a subject of the skolemized graph is reported as is never a named
/// node of a skolem namespace.
proof fn lemma_reported_not_skolem(src: Seq<STriple>, sk: Seq<STriple>, rev: Seq<(Seq<char>, STerm)>, h: spec_fn(STerm) -> u64, m: STerm)
    requires
        crate::skolem::skolemized(src, sk, rev, h),
        no_skolem_subjects(src),
        forall|t: STriple| #[trigger] src.contains(t) ==> !(t.subject is Lit),
        is_subject(sk, m),
    ensures
        !(reported(m, rev) is Named && is_skolem_iri(reported(m, rev)->Named_0)),
{
    let i = choose|i: int| 0 <= i < sk.len() && (#[trigger] sk[i]).subject == m;
    assert(sk.contains(sk[i]));
    let u = sk[i];
    if exists|q: int| 0 <= q < src.len() && u == crate::skolem::skolem_triple(src[q], h) {
        let q = choose|q: int| 0 <= q < src.len() && u == crate::skolem::skolem_triple(src[q], h);
        assert(src.contains(src[q]));
        lemma_reported_subject(src, sk, rev, h, q);
    } else {
        let j = choose|j: int| 0 <= j < rev.len() && u == crate::skolem::literal_type_triple(rev[j].0, rev[j].1);
        crate::skolem::lemma_lookup(rev, rev[j].0);
        assert(rev[j].1 is Lit);
    }
}

/// Without `bs:` objects in the input, the skolemized graph has none.
proof fn lemma_sk_no_bs(src: Seq<STriple>, sk: Seq<STriple>, rev: Seq<(Seq<char>, STerm)>, h: spec_fn(STerm) -> u64)
    requires
        crate::skolem::skolemized(src, sk, rev, h),
        no_bs_objects(src),
    ensures
        forall|u: STriple| #[trigger] sk.contains(u) ==> !is_bs_node(u.object),
{
    assert forall|u: STriple| #[trigger] sk.contains(u) implies !is_bs_node(u.object) by {
        if exists|q: int| 0 <= q < src.len() && u == crate::skolem::skolem_triple(src[q], h) {
            let q = choose|q: int| 0 <= q < src.len() && u == crate::skolem::skolem_triple(src[q], h);
            assert(src.contains(src[q]));
            match src[q].object {
                STerm::Blank(id) => {
                    lemma_namespaces_apart(id);
                },
                STerm::Lit(_, _, _) => {
                    lemma_namespaces_apart(crate::skolem::hex16(h(src[q].object)));
                },
                STerm::Named(_) => {},
            }
        } else {
            let j = choose|j: int| 0 <= j < rev.len() && u == crate::skolem::literal_type_triple(rev[j].0, rev[j].1);
            assert(rev[j].1 is Lit);
            let q = choose|q: int| 0 <= q < src.len() && src[q].object == rev[j].1;
            assert(src.contains(src[q]));
        }
    }
}

/// A `bs:` label in the relabeled graph has members in the member graph.
proof fn lemma_label_has_members(
    dg: Seq<STriple>,
    sk: Seq<STriple>,
    a: Option<Seq<(STerm, Seq<char>)>>,
    av: Seq<(STerm, Seq<char>)>,
    groups: Seq<Seq<STerm>>,
    rev: Seq<(Seq<char>, STerm)>,
    mg: Seq<STriple>,
    n: STerm,
    x: Seq<char>,
)
    requires
        relabeled(dg, sk, a),
        forall|u: STriple| #[trigger] sk.contains(u) ==> !is_bs_node(u.object),
        a matches Some(m) ==> av == m && groups_uniform(groups, m)
            && forall|y: STerm| #[trigger] in_some_group(groups, y) <==> is_subject(sk, y),
        forall|k: int, j: int| #![trigger groups[k][j]]
            0 <= k < groups.len() && 0 <= j < groups[k].len() && value_of(av, groups[k][0]) is Some
            ==> mg.contains(stripple(STerm::Named(value_of(av, groups[k][0]).unwrap()), RDFS_MEMBER_IRI@, reported(groups[k][j], rev))),
        dg.contains(label(n, x)),
        is_bs_iri(x),
    ensures
        has_members(mg, STerm::Named(x)),
{
    let t = label(n, x);
    assert(!sk.contains(t));
    let m = a.unwrap();
    assert(is_label_in(m, t));
    assert(value_of(m, n) == Some(x));
    assert(is_subject(sk, n));
    assert(in_some_group(groups, n));
    let (k, j) = choose|k: int, j: int| 0 <= k < groups.len() && 0 <= j < groups[k].len() && groups[k][j] == n;
    assert(value_of(av, groups[k][j]) == value_of(av, groups[k][0]));
    assert(mg.contains(stripple(STerm::Named(x), RDFS_MEMBER_IRI@, reported(groups[k][j], rev))));
}

/// Named nodes are reported as distinct terms: a literal only for its own
/// node, a blank node only for its skolem node, any other named node as
/// itself.
proof fn lemma_reported_injective(
    src: Seq<STriple>,
    sk: Seq<STriple>,
    rev: Seq<(Seq<char>, STerm)>,
    h: spec_fn(STerm) -> u64,
    x: STerm,
    y: STerm,
)
    requires
        crate::skolem::skolemized(src, sk, rev, h),
        x is Named,
        y is Named,
        reported(x, rev) == reported(y, rev),
    ensures
        x == y,
{
    let ix = x->Named_0;
    let iy = y->Named_0;
    let n = BNODE_BASE@.len() as int;
    if lookup(rev, ix) is Some {
        lemma_lookup_key(rev, ix);
        let j1 = choose|j: int| 0 <= j < rev.len() && rev[j].0 == ix && lookup(rev, ix) == Some(rev[j].1);
        assert(rev[j1].1 is Lit);
        if lookup(rev, iy) is Some {
            lemma_lookup_key(rev, iy);
            let j2 = choose|j: int| 0 <= j < rev.len() && rev[j].0 == iy && lookup(rev, iy) == Some(rev[j].1);
            assert(rev[j2].1 == rev[j1].1);
            assert(rev[j1].0 == crate::skolem::skolem_literal_iri(h(rev[j1].1)));
            assert(rev[j2].0 == crate::skolem::skolem_literal_iri(h(rev[j2].1)));
        } else {
            assert(!(reported(y, rev) is Lit));
        }
    } else if lookup(rev, iy) is Some {
        lemma_lookup_key(rev, iy);
        let j2 = choose|j: int| 0 <= j < rev.len() && rev[j].0 == iy && lookup(rev, iy) == Some(rev[j].1);
        assert(rev[j2].1 is Lit);
        assert(!(reported(x, rev) is Lit));
    } else if has_prefix(ix, BNODE_BASE@) {
        assert(has_prefix(iy, BNODE_BASE@));
        assert(ix.skip(n) == iy.skip(n));
        assert(ix =~= ix.take(n) + ix.skip(n));
        assert(iy =~= iy.take(n) + iy.skip(n));
    } else {
        assert(!has_prefix(iy, BNODE_BASE@));
    }
}

/// Every node of the groups is a subject of `sk`, and so a named node.
proof fn lemma_group_nodes_named(
    src: Seq<STriple>,
    sk: Seq<STriple>,
    rev: Seq<(Seq<char>, STerm)>,
    h: spec_fn(STerm) -> u64,
    groups: Seq<Seq<STerm>>,
    x: STerm,
)
    requires
        crate::skolem::skolemized(src, sk, rev, h),
        forall|y: STerm| #[trigger] in_some_group(groups, y) <==> is_subject(sk, y),
        in_some_group(groups, x),
    ensures
        x is Named,
{
    assert(is_subject(sk, x));
    let q = choose|q: int| 0 <= q < sk.len() && (#[trigger] sk[q]).subject == x;
    assert(sk.contains(sk[q]));
}

/// A member is reported under one class only.
proof fn lemma_member_class_unique(
    src: Seq<STriple>,
    sk: Seq<STriple>,
    rev: Seq<(Seq<char>, STerm)>,
    h: spec_fn(STerm) -> u64,
    groups: Seq<Seq<STerm>>,
    av: Seq<(STerm, Seq<char>)>,
    mg: Seq<STriple>,
)
    requires
        crate::skolem::skolemized(src, sk, rev, h),
        groups_disjoint(groups),
        forall|y: STerm| #[trigger] in_some_group(groups, y) <==> is_subject(sk, y),
        forall|t: STriple| (#[trigger] mg.contains(t) && t.predicate == RDFS_MEMBER_IRI@)
            <==> is_member_triple(t, groups, av, rev),
    ensures
        forall|c1: Seq<char>, c2: Seq<char>, m: STerm|
            #![trigger mg.contains(stripple(STerm::Named(c1), RDFS_MEMBER_IRI@, m)), mg.contains(stripple(STerm::Named(c2), RDFS_MEMBER_IRI@, m))]
            mg.contains(stripple(STerm::Named(c1), RDFS_MEMBER_IRI@, m))
            && mg.contains(stripple(STerm::Named(c2), RDFS_MEMBER_IRI@, m)) ==> c1 == c2,
{
    assert forall|c1: Seq<char>, c2: Seq<char>, m: STerm|
        mg.contains(stripple(STerm::Named(c1), RDFS_MEMBER_IRI@, m))
        && mg.contains(stripple(STerm::Named(c2), RDFS_MEMBER_IRI@, m)) implies c1 == c2 by {
        let t1 = stripple(STerm::Named(c1), RDFS_MEMBER_IRI@, m);
        let t2 = stripple(STerm::Named(c2), RDFS_MEMBER_IRI@, m);
        assert(is_member_triple(t1, groups, av, rev));
        assert(is_member_triple(t2, groups, av, rev));
        let (k1, j1) = choose|k: int, j: int| 0 <= k < groups.len() && 0 <= j < groups[k].len()
            && value_of(av, groups[k][0]) is Some
            && t1 == stripple(STerm::Named(value_of(av, groups[k][0]).unwrap()), RDFS_MEMBER_IRI@, reported(groups[k][j], rev));
        let (k2, j2) = choose|k: int, j: int| 0 <= k < groups.len() && 0 <= j < groups[k].len()
            && value_of(av, groups[k][0]) is Some
            && t2 == stripple(STerm::Named(value_of(av, groups[k][0]).unwrap()), RDFS_MEMBER_IRI@, reported(groups[k][j], rev));
        let x1 = groups[k1][j1];
        let x2 = groups[k2][j2];
        assert(groups[k1].contains(x1));
        assert(groups[k2].contains(x2));
        assert(in_some_group(groups, x1));
        assert(in_some_group(groups, x2));
        lemma_group_nodes_named(src, sk, rev, h, groups, x1);
        lemma_group_nodes_named(src, sk, rev, h, groups, x2);
        lemma_reported_injective(src, sk, rev, h, x1, x2);
        if k1 != k2 {
            assert(groups[k1].contains(x1) && groups[k2].contains(x1));
        }
    }
}

/// Once the passes have run, and when distinct literal objects of the input
/// get distinct nodes, every literal object of the input is reported as a
/// member.
proof fn lemma_literals_reported(
    src: Seq<STriple>,
    sk: Seq<STriple>,
    rev: Seq<(Seq<char>, STerm)>,
    h: spec_fn(STerm) -> u64,
    groups: Seq<Seq<STerm>>,
    av: Seq<(STerm, Seq<char>)>,
    mg: Seq<STriple>,
)
    requires
        crate::skolem::skolemized(src, sk, rev, h),
        forall|y: STerm| #[trigger] in_some_group(groups, y) <==> is_subject(sk, y),
        groups_uniform(groups, av),
        forall|k: int, j: int| #![trigger groups[k][j]]
            0 <= k < groups.len() && 0 <= j < groups[k].len() && value_of(av, groups[k][0]) is Some
            ==> mg.contains(stripple(STerm::Named(value_of(av, groups[k][0]).unwrap()), RDFS_MEMBER_IRI@, reported(groups[k][j], rev))),
    ensures
        crate::skolem::literal_nodes_apart(src, h) ==> forall|i: int| 0 <= i < src.len() && (#[trigger] src[i]).object is Lit
            ==> exists|c: Seq<char>| mg.contains(stripple(STerm::Named(c), RDFS_MEMBER_IRI@, src[i].object)),
{
    if crate::skolem::literal_nodes_apart(src, h) {
        assert forall|i: int| 0 <= i < src.len() && (#[trigger] src[i]).object is Lit
            implies exists|c: Seq<char>| mg.contains(stripple(STerm::Named(c), RDFS_MEMBER_IRI@, src[i].object)) by {
            let l = src[i].object;
            let node = crate::skolem::skolem_literal_iri(h(l));
            crate::skolem::lemma_skolem_round_trip(src, sk, rev, h, i);
            lemma_lookup_key(rev, node);
            let j = choose|j: int| 0 <= j < rev.len() && rev[j].0 == node && lookup(rev, node) == Some(rev[j].1);
            let u = crate::skolem::literal_type_triple(rev[j].0, rev[j].1);
            assert(sk.contains(u));
            let q = choose|q: int| 0 <= q < sk.len() && sk[q] == u;
            assert(sk[q].subject == STerm::Named(node));
            assert(is_subject(sk, STerm::Named(node)));
            assert(in_some_group(groups, STerm::Named(node)));
            let (k, jj) = choose|k: int, jj: int| 0 <= k < groups.len() && 0 <= jj < groups[k].len()
                && groups[k][jj] == STerm::Named(node);
            assert(value_of(av, groups[k][jj]) == value_of(av, groups[k][0]));
            assert(reported(groups[k][jj], rev) == l);
            assert(mg.contains(stripple(STerm::Named(value_of(av, groups[k][0]).unwrap()), RDFS_MEMBER_IRI@, reported(groups[k][jj], rev))));
        }
    }
}

/// The laws of a summary, from the state the relabeling ends in: every
/// subject of the input is reported as a member of some class (once any
/// pass has run); no member is reported as a skolem node; and every `bs:`
/// class the class graph mentions has members.
#[verifier::rlimit(40)]
proof fn lemma_result_laws(
    src: Seq<STriple>,
    sk: Seq<STriple>,
    rev: Seq<(Seq<char>, STerm)>,
    dg: Seq<STriple>,
    a: Option<Seq<(STerm, Seq<char>)>>,
    av: Seq<(STerm, Seq<char>)>,
    groups: Seq<Seq<STerm>>,
    cg: Seq<STriple>,
    mg: Seq<STriple>,
    ran: bool,
)
    requires
        crate::skolem::skolemizes(src, sk, rev),
        forall|t: STriple| #[trigger] src.contains(t) ==> !(t.subject is Lit),
        relabeled(dg, sk, a),
        ran ==> a is Some,
        a is None ==> groups.len() == 0,
        a matches Some(m) ==> av == m && groups_uniform(groups, m)
            && forall|y: STerm| #[trigger] in_some_group(groups, y) <==> is_subject(sk, y),
        forall|k: int, j: int| #![trigger groups[k][j]]
            0 <= k < groups.len() && 0 <= j < groups[k].len() && value_of(av, groups[k][0]) is Some
            ==> mg.contains(stripple(STerm::Named(value_of(av, groups[k][0]).unwrap()), RDFS_MEMBER_IRI@, reported(groups[k][j], rev))),
        forall|t: STriple| #[trigger] mg.contains(t) && t.predicate == RDFS_MEMBER_IRI@
            ==> exists|k: int, j: int| 0 <= k < groups.len() && 0 <= j < groups[k].len() && t.object == reported(groups[k][j], rev),
        forall|u: STriple| #[trigger] cg.contains(u) ==> crate::algorithm::spec_class_graph(dg).contains(u),
    ensures
        ran && no_skolem_subjects(src) ==> forall|t: STriple| #[trigger] src.contains(t)
            ==> exists|c: Seq<char>| mg.contains(stripple(STerm::Named(c), RDFS_MEMBER_IRI@, t.subject)),
        no_skolem_subjects(src) ==> forall|t: STriple| #[trigger] mg.contains(t) && t.predicate == RDFS_MEMBER_IRI@
            ==> !(t.object is Named && is_skolem_iri(t.object->Named_0)),
        no_bs_objects(src) ==> forall|u: STriple| #[trigger] cg.contains(u)
            ==> (is_bs_node(u.subject) ==> has_members(mg, u.subject)) && (is_bs_node(u.object) ==> has_members(mg, u.object)),
{
    let h = choose|h: spec_fn(STerm) -> u64| #[trigger] crate::skolem::skolemized(src, sk, rev, h)
        && crate::skolem::literal_nodes_apart(src, h);
    if ran && no_skolem_subjects(src) {
        assert forall|t: STriple| #[trigger] src.contains(t)
            implies exists|c: Seq<char>| mg.contains(stripple(STerm::Named(c), RDFS_MEMBER_IRI@, t.subject)) by {
            let i = choose|i: int| 0 <= i < src.len() && src[i] == t;
            let st = crate::skolem::skolem_term(t.subject, h);
            assert(sk.contains(crate::skolem::skolem_triple(src[i], h)));
            let q = choose|q: int| 0 <= q < sk.len() && sk[q] == crate::skolem::skolem_triple(src[i], h);
            assert(sk[q].subject == st);
            assert(is_subject(sk, st));
            assert(in_some_group(groups, st));
            let (k, j) = choose|k: int, j: int| 0 <= k < groups.len() && 0 <= j < groups[k].len() && groups[k][j] == st;
            assert(value_of(av, groups[k][j]) == value_of(av, groups[k][0]));
            lemma_reported_subject(src, sk, rev, h, i);
            assert(mg.contains(stripple(STerm::Named(value_of(av, groups[k][0]).unwrap()), RDFS_MEMBER_IRI@, reported(groups[k][j], rev))));
        }
    }
    if no_skolem_subjects(src) {
        assert forall|t: STriple| #[trigger] mg.contains(t) && t.predicate == RDFS_MEMBER_IRI@
            implies !(t.object is Named && is_skolem_iri(t.object->Named_0)) by {
            let (k, j) = choose|k: int, j: int| 0 <= k < groups.len() && 0 <= j < groups[k].len() && t.object == reported(groups[k][j], rev);
            assert(in_some_group(groups, groups[k][j]));
            lemma_reported_not_skolem(src, sk, rev, h, groups[k][j]);
        }
    }
    if no_bs_objects(src) {
        lemma_sk_no_bs(src, sk, rev, h);
        lemma_namespaces_apart(Seq::empty());
        assert forall|u: STriple| #[trigger] cg.contains(u)
            implies (is_bs_node(u.subject) ==> has_members(mg, u.subject)) && (is_bs_node(u.object) ==> has_members(mg, u.object)) by {
            crate::algorithm::lemma_class_graph_contains(dg, u);
            let i = choose|i: int| 0 <= i < dg.len() && u == #[trigger] crate::algorithm::spec_class_pattern(dg[i], dg);
            let t = dg[i];
            assert(dg.contains(t));
            if is_bs_node(u.subject) {
                let c = crate::algorithm::spec_get_class(t.subject, dg);
                crate::algorithm::lemma_bs_class_is_type(t.subject, dg);
                lemma_label_has_members(dg, sk, a, av, groups, rev, mg, t.subject, c);
            }
            if is_bs_node(u.object) {
                let oc = crate::algorithm::object_class(t, dg);
                if (t.predicate == RDF_TYPE_IRI@ || crate::namespace::spec_named_node_predicates().contains(t.predicate)) && t.object is Named {
                    assert(oc == t.object->Named_0);
                    assert(!sk.contains(t));
                    let m = a.unwrap();
                    assert(is_label_in(m, t));
                    assert(t == label(t.subject, oc));
                    lemma_label_has_members(dg, sk, a, av, groups, rev, mg, t.subject, oc);
                } else {
                    crate::algorithm::lemma_bs_class_is_type(t.object, dg);
                    lemma_label_has_members(dg, sk, a, av, groups, rev, mg, t.object, oc);
                }
            }
        }
    }
}

/// A class IRI of the `bs:` namespace.
pub open spec fn is_bs_iri(c: Seq<char>) -> bool {
    has_prefix(c, BS_BASE@)
}

proof fn lemma_assign_all_bs(e: Seq<(STerm, Seq<char>)>, members: Seq<STerm>, c: Seq<char>)
    requires
        forall|j: int| 0 <= j < e.len() ==> is_bs_iri(#[trigger] e[j].1),
        is_bs_iri(c),
    ensures
        forall|j: int| 0 <= j < assign_all(e, members, c).len() ==> is_bs_iri(#[trigger] assign_all(e, members, c)[j].1),
    decreases members.len(),
{
    if members.len() > 0 {
        lemma_assign_all_bs(e, members.drop_last(), c);
        lemma_set_entry_values(assign_all(e, members.drop_last(), c), members.last(), c, |x: Seq<char>| is_bs_iri(x));
    }
}

/// Every class that naming assigns lies in the `bs:` namespace.
pub proof fn lemma_assigned_classes_bs(
    groups: Seq<Seq<STerm>>,
    classes: Seq<Seq<char>>,
    use_original_names: bool,
    counts: Seq<(Seq<char>, nat)>,
)
    ensures
        forall|j: int| 0 <= j < spec_assign(groups, classes, use_original_names, counts).1.len()
            ==> is_bs_iri(#[trigger] spec_assign(groups, classes, use_original_names, counts).1[j].1),
    decreases groups.len(),
{
    if groups.len() > 0 {
        let init = groups.drop_last();
        lemma_assigned_classes_bs(init, classes, use_original_names, counts);
        let prev = spec_assign(init, classes, use_original_names, counts);
        let i = groups.len() - 1;
        let base = group_base(groups[i], classes[i], use_original_names);
        let n = count_of(prev.0, base) + 1;
        let name = if use_original_names {
            BS_BASE@ + spec_local_name(base) + decimal(n)
        } else {
            base + "_version_"@ + decimal(n)
        };
        assert((BS_BASE@ + spec_local_name(name)).take(BS_BASE@.len() as int) =~= BS_BASE@);
        lemma_assign_all_bs(prev.1, groups[i], group_class(base, n, use_original_names));
    }
}

/// The `rdf:type` triple `(ex:, rdf:type, owl:Ontology)` that is stripped
/// from the input.
pub open spec fn ontology_triple() -> STriple {
    stripple(STerm::Named(EX_BASE@), RDF_TYPE_IRI@, STerm::Named(OWL_ONTOLOGY_IRI@))
}

/// `<node> a rdfs:Literal`: bookkeeping, never part of a result.
pub open spec fn is_literal_marker_triple(t: STriple) -> bool {
    t.predicate == RDF_TYPE_IRI@ && t.object == STerm::Named(RDFS_LITERAL_IRI@)
}

/// An `rdf:type` triple whose class IRI contains the `bs:` namespace.
pub open spec fn is_bs_label(t: STriple) -> bool {
    t.predicate == RDF_TYPE_IRI@ && t.object is Named && has_infix(t.object->Named_0, BS_BASE@)
}

/// Whether `t` is `<node> a rdfs:Literal`.
pub fn is_literal_marker(t: &RdfTriple) -> (r: bool)
    ensures
        r == is_literal_marker_triple(t@),
{
    crate::util::str_equal(t.predicate.as_str(), RDF_TYPE_IRI) && match &t.object {
        RdfTerm::Iri(n) => crate::util::str_equal(n.as_str(), RDFS_LITERAL_IRI),
        _ => false,
    }
}

/// Whether `t` is an `rdf:type` triple with a `bs:` class.
fn is_bs_label_triple(t: &RdfTriple) -> (r: bool)
    ensures
        r == is_bs_label(t@),
{
    crate::util::str_equal(t.predicate.as_str(), RDF_TYPE_IRI) && match &t.object {
        RdfTerm::Iri(n) => contains_str(n.as_str(), BS_BASE),
        _ => false,
    }
}

/// `(s, rdf:type, c)`.
fn type_triple(s: &SubjectNode, c: &Iri) -> (r: RdfTriple)
    ensures
        r@ == stripple(s@, RDF_TYPE_IRI@, STerm::Named(c@)),
{
    RdfTriple { subject: s.clone(), predicate: named(RDF_TYPE_IRI), object: RdfTerm::Iri(c.clone()) }
}

/// How a member is reported: a literal node as its literal, a node made
/// from a blank node as that blank node, any other node as itself.
pub open spec fn reported(s: STerm, rev: Seq<(Seq<char>, STerm)>) -> STerm {
    match s {
        STerm::Named(iri) => match lookup(rev, iri) {
            Some(t) => t,
            None => if has_prefix(iri, BNODE_BASE@) {
                STerm::Blank(iri.skip(BNODE_BASE@.len() as int))
            } else {
                s
            },
        },
        _ => s,
    }
}

/// The term reported for member `s` (see [`reported`]).
fn member_term(s: &SubjectNode, rev: &SkolemMap) -> (r: RdfTerm)
    ensures
        r@ == reported(s@, rev@),
{
    match s {
        SubjectNode::Iri(n) => match rev.get(n) {
            Some(t) => t.clone(),
            None => if starts_with(n.as_str(), BNODE_BASE) {
                let k = crate::util::chars_of(BNODE_BASE).len();
                let id = skip_chars(n.as_str(), k);
                RdfTerm::Blank(Blank { id })
            } else {
                RdfTerm::Iri(n.clone())
            },
        },
        SubjectNode::Blank(b) => RdfTerm::Blank(b.clone()),
    }
}

/// A copy of a list of groups.
fn clone_groups(v: &Vec<Vec<SubjectNode>>) -> (r: Vec<Vec<SubjectNode>>)
    ensures
        groups_view(r@) == groups_view(v@),
{
    let mut r: Vec<Vec<SubjectNode>> = Vec::new();
    for i in 0..v.len()
        invariant
            groups_view(r@) == groups_view(v@).take(i as int),
    {
        let mut g: Vec<SubjectNode> = Vec::new();
        let src = &v[i];
        for j in 0..src.len()
            invariant
                node_views(g@) == node_views(src@).take(j as int),
        {
            let ghost before = node_views(g@);
            g.push(src[j].clone());
            assert(node_views(g@) =~= before.push(src@[j as int]@));
            assert(node_views(g@) =~= node_views(src@).take(j + 1));
        }
        assert(node_views(src@).take(src@.len() as int) =~= node_views(src@));
        assert(groups_view(v@)[i as int] == node_views(src@));
        let ghost before = groups_view(r@);
        r.push(g);
        assert(groups_view(r@) =~= before.push(node_views(src@)));
        assert(groups_view(r@) =~= groups_view(v@).take(i + 1));
    }
    assert(groups_view(v@).take(v@.len() as int) =~= groups_view(v@));
    r
}

/// A summary: the class graph, the member graph mapping each derived class
/// to its members, and the index of the last iteration run.
pub struct BschemaResult {
    pub class_graph: RdfGraph,
    pub member_graph: RdfGraph,
    pub iterations: usize,
}

/// The member graph holds only `(c, rdf:type, rdf:Seq)` and
/// `(c, rdfs:member, m)` triples, for `bs:` classes `c`.
pub open spec fn member_graph_shape(m: Seq<STriple>) -> bool {
    forall|t: STriple| #[trigger] m.contains(t) ==> t.subject is Named && is_bs_iri(t.subject->Named_0)
        && ((t.predicate == RDF_TYPE_IRI@ && t.object == STerm::Named(RDF_SEQ_IRI@)) || t.predicate == RDFS_MEMBER_IRI@)
}

/// `t` is the class pattern, in `d`, of one of the `rdf:type` triples that
/// skolemization adds for the literal nodes of `rev`.
pub open spec fn is_synthetic_pattern(t: STriple, rev: Seq<(Seq<char>, STerm)>, d: Seq<STriple>) -> bool {
    exists|j: int| 0 <= j < rev.len()
        && t == crate::algorithm::spec_class_pattern(crate::skolem::literal_type_triple(rev[j].0, rev[j].1), d)
}

/// `cg` is the class graph of `d` without the literal markers, without the
/// patterns of the typing triples that skolemization added for the literal
/// nodes of `rev`, and, when labels are removed, without the `bs:` labels.
pub open spec fn summary_of(
    cg: Seq<STriple>,
    d: Seq<STriple>,
    rev: Seq<(Seq<char>, STerm)>,
    remove_added_labels: bool,
) -> bool {
    forall|t: STriple| #[trigger] cg.contains(t) <==> crate::algorithm::spec_class_graph(d).contains(t)
        && !is_literal_marker_triple(t) && !(remove_added_labels && is_bs_label(t))
        && !is_synthetic_pattern(t, rev, d)
}

/// A record of the passes behind a summary: the skolemized input `sk` with
/// its literal map `rev` and the hashing of literals it was made with,
/// every pass run (the graph it grouped and the groups found), and the
/// final relabeled graph.
pub struct PassRecord {
    pub sk: Seq<STriple>,
    pub rev: Seq<(Seq<char>, STerm)>,
    pub hash: spec_fn(STerm) -> u64,
    pub passes: Seq<(Seq<STriple>, SGroups)>,
    pub graph: Seq<STriple>,
}

/// Pass `n` of `passes` found the same groups as the pass before it.
pub open spec fn converged_at(passes: Seq<(Seq<STriple>, SGroups)>, n: int) -> bool {
    n >= 1 && same_groups(passes[n].1.members, passes[n - 1].1.members)
}

/// The passes behind a summary of `src` whose last pass has index `it`:
/// `w.sk` and `w.rev` skolemize `src` under the hashing `w.hash`;
/// `w.passes` holds exactly the `it + 1` passes run, chained as
/// [`pass_chain`] says; when pass `it` found the same
/// groups as the pass before it (`converged_at`) the final graph is the
/// graph it grouped, left as it was, and otherwise that graph relabeled with
/// the classes named from its groups; when the passes stopped before the
/// limit (`stopped`) they had converged; the class graph `cg` is the summary
/// of the final graph; the member graph `mg` reports the groups of pass
/// `it`, each under the class applied to it; and, distinct literal objects
/// of `src` having got distinct nodes, each of them is reported as a
/// member.
pub open spec fn last_pass(
    src: Seq<STriple>,
    td: Option<spec_fn(nat, nat) -> bool>,
    use_original_names: bool,
    remove_added_labels: bool,
    stopped: bool,
    it: usize,
    cg: Seq<STriple>,
    mg: Seq<STriple>,
    w: PassRecord,
) -> bool {
    let n = it as int;
    let applied = assign_of(w.passes[if converged_at(w.passes, n) { n - 1 } else { n }].1, use_original_names);
    &&& crate::skolem::skolemized(src, w.sk, w.rev, w.hash)
    &&& crate::skolem::literal_nodes_apart(src, w.hash)
    &&& pass_chain(w.sk, td, use_original_names, w.passes)
    &&& w.passes.len() == n + 1
    &&& converged_at(w.passes, n) ==> w.graph == w.passes[n].0
    &&& !converged_at(w.passes, n) ==> relabels(w.graph, w.passes[n].0,
            applied_before(w.passes, n, use_original_names), applied)
    &&& relabeled(w.graph, w.sk, Some(applied))
    &&& stopped ==> converged_at(w.passes, n)
    &&& summary_of(cg, w.graph, w.rev, remove_added_labels)
    &&& forall|t: STriple| (#[trigger] mg.contains(t) && t.predicate == RDFS_MEMBER_IRI@)
        <==> is_member_triple(t, w.passes[n].1.members, applied, w.rev)
    &&& crate::skolem::literal_nodes_apart(src, w.hash) ==> forall|i: int| 0 <= i < src.len()
        && (#[trigger] src[i]).object is Lit
        ==> exists|c: Seq<char>| mg.contains(stripple(STerm::Named(c), RDFS_MEMBER_IRI@, src[i].object))
}

/// The last pass `it` came before the limit of `iterations` passes although
/// the threshold did not ask for a single pass: the groups stopped changing.
pub open spec fn stopped_early<F>(it: usize, iterations: usize, t: Option<&SimilarityThreshold<F>>) -> bool {
    it + 1 < iterations && !(t matches Some(x) && x.single_pass)
}

/// Every class with a member in `m` is typed `rdf:Seq` in `m`.
pub open spec fn seq_typed(m: Seq<STriple>) -> bool {
    forall|t: STriple| #[trigger] m.contains(t) && t.predicate == RDFS_MEMBER_IRI@
        ==> m.contains(stripple(t.subject, RDF_TYPE_IRI@, STerm::Named(RDF_SEQ_IRI@)))
}

/// `g` groups the subjects of `d` under decision `td` (see
/// [`crate::isomorphism::groups_subjects`]), kept opaque while the passes
/// run.
#[verifier::opaque]
pub open spec fn grouped(d: Seq<STriple>, td: Option<spec_fn(nat, nat) -> bool>, g: SGroups) -> bool {
    crate::isomorphism::groups_subjects(d, td, g)
}

/// The lists of groups `a` and `b` have the same members (see
/// [`crate::isomorphism::same_members`]), kept opaque while the passes run.
#[verifier::opaque]
pub open spec fn same_groups(a: Seq<Seq<STerm>>, b: Seq<Seq<STerm>>) -> bool {
    crate::isomorphism::same_members(a, b)
}

/// The assignment that naming the groups `g` gives, counting from scratch.
pub open spec fn assign_of(g: SGroups, use_original_names: bool) -> Seq<(STerm, Seq<char>)> {
    spec_assign(g.members, g.classes, use_original_names, Seq::empty()).1
}

/// The assignment whose labels the graph of pass `k` carries: none for the
/// first pass, else the one named from the groups of pass `k - 1`.
pub open spec fn applied_before(
    passes: Seq<(Seq<STriple>, SGroups)>,
    k: int,
    use_original_names: bool,
) -> Option<Seq<(STerm, Seq<char>)>> {
    if k == 0 { None } else { Some(assign_of(passes[k - 1].1, use_original_names)) }
}

/// The passes run over the skolemized graph `sk`, each as the graph it
/// grouped and the groups found: the first pass groups `sk` itself; each
/// pass groups its graph under `td`; the graph of each next pass is that of
/// the pass before with the labels it carried replaced by those named from
/// its groups (so a relabeling of `sk`); and no pass before the last found
/// the same groups as the pass before it.
#[verifier::opaque]
pub open spec fn pass_chain(
    sk: Seq<STriple>,
    td: Option<spec_fn(nat, nat) -> bool>,
    use_original_names: bool,
    passes: Seq<(Seq<STriple>, SGroups)>,
) -> bool {
    &&& passes.len() > 0 ==> passes[0].0 == sk
    &&& forall|k: int| #![trigger passes[k]] 0 <= k < passes.len() ==> grouped(passes[k].0, td, passes[k].1)
    &&& forall|k: int| #![trigger passes[k]] 0 <= k < passes.len() - 1 ==> {
        &&& relabels(passes[k + 1].0, passes[k].0, applied_before(passes, k, use_original_names),
                assign_of(passes[k].1, use_original_names))
        &&& relabeled(passes[k + 1].0, sk, Some(assign_of(passes[k].1, use_original_names)))
    }
    &&& forall|k: int| #![trigger passes[k]] 1 <= k < passes.len() - 1
        ==> !same_groups(passes[k].1.members, passes[k - 1].1.members)
}

/// One more pass, over the graph `d` that the last pass left, extends the
/// chain of passes.
proof fn lemma_chain_push(
    sk: Seq<STriple>,
    td: Option<spec_fn(nat, nat) -> bool>,
    use_original_names: bool,
    passes: Seq<(Seq<STriple>, SGroups)>,
    d: Seq<STriple>,
    g: SGroups,
)
    requires
        pass_chain(sk, td, use_original_names, passes),
        passes.len() == 0 ==> d == sk,
        passes.len() > 0 ==> relabels(d, passes.last().0, applied_before(passes, passes.len() - 1, use_original_names),
            assign_of(passes.last().1, use_original_names)),
        passes.len() > 0 ==> relabeled(d, sk, Some(assign_of(passes.last().1, use_original_names))),
        passes.len() >= 2 ==> !same_groups(passes.last().1.members, passes[passes.len() - 2].1.members),
        grouped(d, td, g),
    ensures
        pass_chain(sk, td, use_original_names, passes.push((d, g))),
{
    reveal(pass_chain);
    let q = passes.push((d, g));
    let n = passes.len() as int;
    assert forall|k: int| #![trigger q[k]] 0 <= k < q.len() implies grouped(q[k].0, td, q[k].1) by {
        if k < n {
            assert(q[k] == passes[k]);
        }
    }
    assert forall|k: int| #![trigger q[k]] 0 <= k < q.len() - 1 implies {
        &&& relabels(q[k + 1].0, q[k].0, applied_before(q, k, use_original_names), assign_of(q[k].1, use_original_names))
        &&& relabeled(q[k + 1].0, sk, Some(assign_of(q[k].1, use_original_names)))
    } by {
        assert(q[k] == passes[k]);
        assert(applied_before(q, k, use_original_names) == applied_before(passes, k, use_original_names));
        if k + 1 < n {
            assert(q[k + 1] == passes[k + 1]);
            assert(passes[k] == passes[k]);
        } else {
            assert(q[k + 1] == (d, g));
        }
    }
    assert forall|k: int| #![trigger q[k]] 1 <= k < q.len() - 1
        implies !same_groups(q[k].1.members, q[k - 1].1.members) by {
        assert(q[k] == passes[k]);
        assert(q[k - 1] == passes[k - 1]);
        if k < n - 1 {
            assert(passes[k] == passes[k]);
        }
    }
}

/// Gathers the facts of a summary's last pass into [`last_pass`].
proof fn lemma_last_pass(
    src: Seq<STriple>,
    td: Option<spec_fn(nat, nat) -> bool>,
    use_original_names: bool,
    remove_added_labels: bool,
    stopped: bool,
    it: usize,
    cg: Seq<STriple>,
    mg: Seq<STriple>,
    sk: Seq<STriple>,
    rev: Seq<(Seq<char>, STerm)>,
    h: spec_fn(STerm) -> u64,
    d: Seq<STriple>,
    hist: Seq<(Seq<STriple>, SGroups)>,
    conv: bool,
    av: Seq<(STerm, Seq<char>)>,
)
    requires
        crate::skolem::skolemized(src, sk, rev, h),
        crate::skolem::literal_nodes_apart(src, h),
        pass_chain(sk, td, use_original_names, hist),
        hist.len() == it + 1,
        conv <==> (it >= 1 && same_groups(hist[it as int].1.members, hist[it - 1].1.members)),
        conv ==> d == hist[it as int].0 && av == assign_of(hist[it - 1].1, use_original_names),
        !conv ==> relabels(d, hist[it as int].0, applied_before(hist, it as int, use_original_names),
            assign_of(hist[it as int].1, use_original_names)) && av == assign_of(hist[it as int].1, use_original_names),
        relabeled(d, sk, Some(av)),
        stopped ==> conv,
        summary_of(cg, d, rev, remove_added_labels),
        forall|t: STriple| (#[trigger] mg.contains(t) && t.predicate == RDFS_MEMBER_IRI@)
            <==> is_member_triple(t, hist[it as int].1.members, av, rev),
        crate::skolem::literal_nodes_apart(src, h) ==> forall|i: int| 0 <= i < src.len()
            && (#[trigger] src[i]).object is Lit
            ==> exists|c: Seq<char>| mg.contains(stripple(STerm::Named(c), RDFS_MEMBER_IRI@, src[i].object)),
    ensures
        exists|w: PassRecord| #[trigger] last_pass(src, td, use_original_names, remove_added_labels, stopped, it, cg, mg, w),
{
    let w = PassRecord { sk, rev, hash: h, passes: hist, graph: d };
    assert(converged_at(w.passes, it as int) == conv);
    assert(last_pass(src, td, use_original_names, remove_added_labels, stopped, it, cg, mg, w));
}

/// The class graph of `data_graph` without the literal markers, without the
/// patterns of the literal typing triples of `rev`, and, when asked, without
/// the `bs:` labels.
fn summary_class_graph(data_graph: &RdfGraph, rev: &SkolemMap, remove_added_labels: bool) -> (r: RdfGraph)
    ensures
        summary_of(r@, data_graph@, rev@, remove_added_labels),
        forall|t: STriple| #[trigger] r@.contains(t) ==> !is_literal_marker_triple(t)
            && (remove_added_labels ==> !is_bs_label(t)) && crate::algorithm::spec_class_graph(data_graph@).contains(t),
{
    let mut class_graph_result = match class_graph(data_graph) {
        Ok(g) => g,
        Err(_) => RdfGraph::empty(),
    };
    let ghost cg0 = class_graph_result@;
    if remove_added_labels {
        let ts = class_graph_result.triples();
        let ghost snapshot = class_graph_result@;
        for i in 0..ts.len()
            invariant
                snapshot == cg0,
                triple_views(ts@) == snapshot,
                forall|t: STriple| #[trigger] class_graph_result@.contains(t) ==> snapshot.contains(t),
                forall|j: int| 0 <= j < i && is_bs_label(snapshot[j]) ==> !class_graph_result@.contains(#[trigger] snapshot[j]),
                forall|t: STriple| #[trigger] snapshot.contains(t) && !is_bs_label(t) ==> class_graph_result@.contains(t),
        {
            assert(snapshot[i as int] == ts@[i as int]@);
            if is_bs_label_triple(&ts[i]) {
                class_graph_result.remove(&ts[i]);
            }
        }
        assert forall|t: STriple| #[trigger] class_graph_result@.contains(t) implies !is_bs_label(t) by {
            let j = choose|j: int| 0 <= j < snapshot.len() && snapshot[j] == t;
        }
    }
    let ts = class_graph_result.triples();
    let ghost snapshot = class_graph_result@;
    assert(forall|t: STriple| #[trigger] snapshot.contains(t) ==> cg0.contains(t));
    assert(forall|t: STriple| #[trigger] snapshot.contains(t) <==> cg0.contains(t)
        && !(remove_added_labels && is_bs_label(t)));
    for i in 0..ts.len()
        invariant
            triple_views(ts@) == snapshot,
            forall|t: STriple| #[trigger] snapshot.contains(t) ==> cg0.contains(t),
            forall|t: STriple| #[trigger] class_graph_result@.contains(t) ==> snapshot.contains(t),
            forall|j: int| 0 <= j < i && is_literal_marker_triple(snapshot[j]) ==> !class_graph_result@.contains(#[trigger] snapshot[j]),
            forall|t: STriple| #[trigger] snapshot.contains(t) && !is_literal_marker_triple(t) ==> class_graph_result@.contains(t),
    {
        assert(snapshot[i as int] == ts@[i as int]@);
        if is_literal_marker(&ts[i]) {
            class_graph_result.remove(&ts[i]);
        }
    }
    assert forall|t: STriple| #[trigger] class_graph_result@.contains(t) implies !is_literal_marker_triple(t)
        && (remove_added_labels ==> !is_bs_label(t)) by {
        let j = choose|j: int| 0 <= j < snapshot.len() && snapshot[j] == t;
    }
    assert forall|t: STriple| #[trigger] class_graph_result@.contains(t) <==> crate::algorithm::spec_class_graph(data_graph@).contains(t)
        && !is_literal_marker_triple(t) && !(remove_added_labels && is_bs_label(t)) by {
        if class_graph_result@.contains(t) {
            let j = choose|j: int| 0 <= j < snapshot.len() && snapshot[j] == t;
        }
    }
    let ghost before_syn = class_graph_result@;
    let n_rev = rev.len();
    for m in 0..n_rev
        invariant
            n_rev == rev@.len(),
            forall|t: STriple| #[trigger] class_graph_result@.contains(t) <==> before_syn.contains(t)
                && !(exists|j: int| 0 <= j < m && t == crate::algorithm::spec_class_pattern(
                    crate::skolem::literal_type_triple(rev@[j].0, rev@[j].1), data_graph@)),
    {
        let (node, lit) = rev.entry(m);
        let dt = match lit {
            RdfTerm::Literal(l) => Iri { iri: l.datatype.clone() },
            _ => Iri { iri: String::new() },
        };
        let tt = RdfTriple {
            subject: SubjectNode::Iri(node.clone()),
            predicate: named(RDF_TYPE_IRI),
            object: RdfTerm::Iri(dt),
        };
        assert(tt@ == crate::skolem::literal_type_triple(rev@[m as int].0, rev@[m as int].1));
        let pat = crate::algorithm::class_pattern(&tt, data_graph);
        let ghost c0 = class_graph_result@;
        class_graph_result.remove(&pat);
        assert forall|t: STriple| #[trigger] class_graph_result@.contains(t) <==> before_syn.contains(t)
            && !(exists|j: int| 0 <= j < m + 1 && t == crate::algorithm::spec_class_pattern(
                crate::skolem::literal_type_triple(rev@[j].0, rev@[j].1), data_graph@)) by {
            if t == pat@ {
                assert(0 <= m < m + 1);
            }
        }
    }
    assert(summary_of(class_graph_result@, data_graph@, rev@, remove_added_labels));
    assert forall|t: STriple| #[trigger] class_graph_result@.contains(t) implies !is_literal_marker_triple(t)
        && (remove_added_labels ==> !is_bs_label(t)) && cg0.contains(t) by {
        assert(before_syn.contains(t));
    }
    class_graph_result
}

/// What a summary of `src` promises: bounds on the index `it` of the last
/// pass; the class graph `cg` without markers (and labels, when removed)
/// and the summary of a relabeling of the skolemized input; the shape of
/// the member graph `mg`; the passes run, each over the graph the one
/// before left, until the groups stopped changing or the limit was reached
/// (see [`last_pass`]), and how the last groups are reported; and the laws
/// that tie members to subjects, each member to one class, and classes to
/// members.
pub open spec fn summary_facts<F: Fn(usize, usize) -> bool>(
    src: Seq<STriple>,
    iterations: usize,
    similarity_threshold: Option<&SimilarityThreshold<F>>,
    remove_added_labels: bool,
    use_original_names: bool,
    cg: Seq<STriple>,
    mg: Seq<STriple>,
    it: usize,
) -> bool {
    &&& iterations == 0 ==> it == 0
    &&& iterations > 0 ==> it < iterations
    &&& (similarity_threshold matches Some(t) && t.single_pass) ==> it == 0
    &&& forall|t: STriple| #[trigger] cg.contains(t) ==> !is_literal_marker_triple(t)
    &&& remove_added_labels ==> forall|t: STriple| #[trigger] cg.contains(t) ==> !is_bs_label(t)
    &&& member_graph_shape(mg)
    &&& seq_typed(mg)
    &&& iterations == 0 ==> mg.len() == 0
    &&& exists|sk: Seq<STriple>, rev: Seq<(Seq<char>, STerm)>, d: Seq<STriple>, a: Option<Seq<(STerm, Seq<char>)>>|
        #[trigger] crate::skolem::skolemizes(src, sk, rev) && #[trigger] relabeled(d, sk, a)
        && summary_of(cg, d, rev, remove_added_labels)
    &&& iterations > 0 ==> exists|w: PassRecord|
        #[trigger] last_pass(src, crate::isomorphism::threshold_decision(similarity_threshold),
            use_original_names, remove_added_labels,
            stopped_early(it, iterations, similarity_threshold),
            it, cg, mg, w)
    &&& (iterations > 0 && no_skolem_subjects(src)) ==> forall|t: STriple|
        #[trigger] src.contains(t)
        ==> exists|c: Seq<char>| mg.contains(stripple(STerm::Named(c), RDFS_MEMBER_IRI@, t.subject))
    &&& iterations > 0 ==> forall|i: int| 0 <= i < src.len() && (#[trigger] src[i]).object is Lit
        ==> exists|c: Seq<char>| mg.contains(stripple(STerm::Named(c), RDFS_MEMBER_IRI@, src[i].object))
    &&& no_skolem_subjects(src) ==> forall|t: STriple|
        #[trigger] mg.contains(t) && t.predicate == RDFS_MEMBER_IRI@
        ==> !(t.object is Named && is_skolem_iri(t.object->Named_0))
    &&& forall|c1: Seq<char>, c2: Seq<char>, m: STerm|
        #![trigger mg.contains(stripple(STerm::Named(c1), RDFS_MEMBER_IRI@, m)), mg.contains(stripple(STerm::Named(c2), RDFS_MEMBER_IRI@, m))]
        mg.contains(stripple(STerm::Named(c1), RDFS_MEMBER_IRI@, m))
        && mg.contains(stripple(STerm::Named(c2), RDFS_MEMBER_IRI@, m)) ==> c1 == c2
    &&& no_bs_objects(src) ==> forall|u: STriple| #[trigger] cg.contains(u)
        ==> (is_bs_node(u.subject) ==> has_members(mg, u.subject))
            && (is_bs_node(u.object) ==> has_members(mg, u.object))
}

/// Gathers what a summary establishes into [`summary_facts`].
proof fn lemma_summary_facts<F: Fn(usize, usize) -> bool>(
    src: Seq<STriple>,
    iterations: usize,
    similarity_threshold: Option<&SimilarityThreshold<F>>,
    remove_added_labels: bool,
    use_original_names: bool,
    cg: Seq<STriple>,
    mg: Seq<STriple>,
    it: usize,
    sk: Seq<STriple>,
    rev: Seq<(Seq<char>, STerm)>,
    d: Seq<STriple>,
    a: Option<Seq<(STerm, Seq<char>)>>,
)
    requires
        iterations == 0 ==> it == 0,
        iterations > 0 ==> it < iterations,
        (similarity_threshold matches Some(t) && t.single_pass) ==> it == 0,
        forall|t: STriple| #[trigger] cg.contains(t) ==> !is_literal_marker_triple(t),
        remove_added_labels ==> forall|t: STriple| #[trigger] cg.contains(t) ==> !is_bs_label(t),
        member_graph_shape(mg),
        seq_typed(mg),
        iterations == 0 ==> mg.len() == 0,
        crate::skolem::skolemizes(src, sk, rev),
        relabeled(d, sk, a),
        summary_of(cg, d, rev, remove_added_labels),
        iterations > 0 ==> exists|w: PassRecord|
            #[trigger] last_pass(src, crate::isomorphism::threshold_decision(similarity_threshold),
                use_original_names, remove_added_labels,
                stopped_early(it, iterations, similarity_threshold), it, cg, mg, w),
        (iterations > 0 && no_skolem_subjects(src)) ==> forall|t: STriple|
            #[trigger] src.contains(t)
            ==> exists|c: Seq<char>| mg.contains(stripple(STerm::Named(c), RDFS_MEMBER_IRI@, t.subject)),
        iterations > 0 ==> forall|i: int| 0 <= i < src.len() && (#[trigger] src[i]).object is Lit
            ==> exists|c: Seq<char>| mg.contains(stripple(STerm::Named(c), RDFS_MEMBER_IRI@, src[i].object)),
        no_skolem_subjects(src) ==> forall|t: STriple|
            #[trigger] mg.contains(t) && t.predicate == RDFS_MEMBER_IRI@
            ==> !(t.object is Named && is_skolem_iri(t.object->Named_0)),
        forall|c1: Seq<char>, c2: Seq<char>, m: STerm|
            #![trigger mg.contains(stripple(STerm::Named(c1), RDFS_MEMBER_IRI@, m)), mg.contains(stripple(STerm::Named(c2), RDFS_MEMBER_IRI@, m))]
            mg.contains(stripple(STerm::Named(c1), RDFS_MEMBER_IRI@, m))
            && mg.contains(stripple(STerm::Named(c2), RDFS_MEMBER_IRI@, m)) ==> c1 == c2,
        no_bs_objects(src) ==> forall|u: STriple| #[trigger] cg.contains(u)
            ==> (is_bs_node(u.subject) ==> has_members(mg, u.subject))
                && (is_bs_node(u.object) ==> has_members(mg, u.object)),
    ensures
        summary_facts(src, iterations, similarity_threshold, remove_added_labels, use_original_names, cg, mg, it),
{
}

/// What the passes leave behind, as ghost values: whether the groups
/// stopped changing, and every pass run, as the graph it grouped and the
/// groups found.
pub type PassGhost = (bool, Seq<(Seq<STriple>, SGroups)>);

/// Runs the grouping and relabeling passes over the skolemized graph `sk`:
/// the last groups, the assignment applied, the index of the last pass, and
/// what the passes leave behind.
fn run_passes<F: Fn(usize, usize) -> bool>(
    data_graph: &mut RdfGraph,
    iterations: usize,
    similarity_threshold: Option<&SimilarityThreshold<F>>,
    use_original_names: bool,
    Ghost(sk): Ghost<Seq<STriple>>,
) -> (r: Result<(Vec<Vec<SubjectNode>>, Option<ClassAssignment>, usize, Ghost<PassGhost>), BschemaError>)
    requires
        similarity_threshold matches Some(t) ==> is_decision(t.exceeds),
        old(data_graph)@ == sk,
    ensures
        r matches Ok(x) && {
            let (eq, prev, it, gh) = x;
            let td = crate::isomorphism::threshold_decision(similarity_threshold);
            &&& iterations == 0 ==> it == 0 && eq@.len() == 0 && prev is None
            &&& iterations > 0 ==> it < iterations && prev is Some
            &&& (similarity_threshold matches Some(t) && t.single_pass) ==> it == 0
            &&& relabeled(final(data_graph)@, sk, assignment_view(prev))
            &&& iterations > 0 ==> (prev matches Some(a) && {
                &&& groups_uniform(groups_view(eq@), a@)
                &&& forall|y: STerm| #[trigger] in_some_group(groups_view(eq@), y) <==> is_subject(sk, y)
                &&& groups_disjoint(groups_view(eq@))
            })
            &&& stopped_early(it, iterations, similarity_threshold) ==> gh@.0
            &&& iterations > 0 ==> {
                let h = gh@.1;
                &&& pass_chain(sk, td, use_original_names, h)
                &&& h.len() == it + 1
                &&& groups_view(eq@) == h[it as int].1.members
                &&& gh@.0 <==> (it >= 1 && same_groups(h[it as int].1.members, h[it - 1].1.members))
                &&& gh@.0 ==> final(data_graph)@ == h[it as int].0
                    && assignment_view(prev) == Some(assign_of(h[it - 1].1, use_original_names))
                &&& !gh@.0 ==> relabels(final(data_graph)@, h[it as int].0, applied_before(h, it as int, use_original_names),
                        assign_of(h[it as int].1, use_original_names))
                    && assignment_view(prev) == Some(assign_of(h[it as int].1, use_original_names))
            }
        },
{
    let single_pass = match similarity_threshold {
        Some(t) => t.single_pass,
        None => false,
    };
    let mut equivalent_subjects: Vec<Vec<SubjectNode>> = Vec::new();
    let mut prev_equivalent_subjects: Option<Vec<Vec<SubjectNode>>> = None;
    let mut prev_subject_classes: Option<ClassAssignment> = None;
    let mut final_iteration: usize = 0;
    let mut iteration: usize = 0;
    let mut done = false;
    let ghost td = crate::isomorphism::threshold_decision(similarity_threshold);
    let mut counter = NameCounter::new();
    let ghost mut g_prev = SGroups { patterns: Seq::empty(), members: Seq::empty(), classes: Seq::empty() };
    let ghost mut conv = false;
    let ghost mut hist: Seq<(Seq<STriple>, SGroups)> = Seq::empty();
    proof {
        reveal(pass_chain);
    }
    while iteration < iterations && !done
        invariant
            td == crate::isomorphism::threshold_decision(similarity_threshold),
            pass_chain(sk, td, use_original_names, hist),
            !conv ==> hist.len() == iteration,
            conv ==> hist.len() == iteration + 1 && hist.len() >= 2 && final_iteration == iteration,
            !conv && iteration > 0 ==> g_prev == hist.last().1,
            conv ==> g_prev == hist[hist.len() - 2].1 && data_graph@ == hist.last().0,
            !conv && hist.len() >= 2 ==> !same_groups(hist.last().1.members, hist[hist.len() - 2].1.members),
            !conv && iteration == 0 ==> data_graph@ == sk,
            !conv && iteration > 0 ==> relabels(data_graph@, hist.last().0,
                applied_before(hist, hist.len() - 1, use_original_names), assign_of(hist.last().1, use_original_names)),
            iteration > 0 && !conv ==> assignment_view(prev_subject_classes) == Some(assign_of(hist.last().1, use_original_names)),
            iteration > 0 ==> assignment_view(prev_subject_classes) == Some(assign_of(g_prev, use_original_names)),
            iteration > 0 && !conv ==> groups_view(equivalent_subjects@) == g_prev.members,
            conv ==> done && hist.last().1.members == groups_view(equivalent_subjects@)
                && same_groups(hist.last().1.members, g_prev.members),
            done ==> conv || single_pass,
            !conv && iteration > 0 ==> final_iteration + 1 == iteration,
            prev_equivalent_subjects matches Some(p) ==> groups_view(p@) == g_prev.members,
            similarity_threshold matches Some(t) ==> is_decision(t.exceeds),
            single_pass == (similarity_threshold matches Some(t) && t.single_pass),
            iteration <= iterations,
            final_iteration <= iteration,
            final_iteration < iterations || final_iteration == 0,
            single_pass && iteration > 0 ==> final_iteration == 0,
            single_pass && iteration > 0 ==> done,
            done ==> final_iteration < iterations,
            done ==> iteration > 0,
            iteration == 0 ==> equivalent_subjects@.len() == 0 && prev_subject_classes is None,
            relabeled(data_graph@, sk, assignment_view(prev_subject_classes)),
            prev_subject_classes is Some <==> prev_equivalent_subjects is Some,
            iteration > 0 ==> prev_subject_classes is Some,
            prev_equivalent_subjects matches Some(p) ==> (prev_subject_classes matches Some(a) && {
                &&& groups_uniform(groups_view(p@), a@)
                &&& forall|k: int| 0 <= k < p@.len() ==> (#[trigger] groups_view(p@)[k]).len() > 0
            }),
            iteration > 0 ==> (prev_subject_classes matches Some(a) && {
                &&& groups_uniform(groups_view(equivalent_subjects@), a@)
                &&& forall|x: STerm| #[trigger] in_some_group(groups_view(equivalent_subjects@), x) <==> is_subject(sk, x)
                &&& groups_disjoint(groups_view(equivalent_subjects@))
            }),
        decreases iterations - iteration + (if done { 0int } else { 1int }),
    {
        counter.clear();
        final_iteration = iteration;
        let result = match class_isomorphisms(&*data_graph, similarity_threshold) {
            Ok(r) => r,
            Err(e) => return Err(e),
        };
        let ghost dg = data_graph@;
        proof {
            lemma_class_isomorphisms_partition(dg, crate::isomorphism::threshold_decision(similarity_threshold), result@);
        }
        let ghost groups = result@.members;
        let ghost rv = result@;
        assert(crate::isomorphism::groups_wf(result@));
        equivalent_subjects = result.equivalent_subjects;
        let subject_classes = result.subject_classes;
        assert(groups_view(equivalent_subjects@) == groups);
        proof {
            lemma_groups_cover(dg, sk, groups);
        }
        let ngroups = equivalent_subjects.len();
        proof {
            lemma_no_counts(ngroups as nat);
        }
        let new_subject_classes = assign_new_classes(&equivalent_subjects, &subject_classes, use_original_names, &mut counter);
        proof {
            lemma_new_assignment(groups, class_views(subject_classes@), use_original_names, sk);
        }
        let converged = iteration >= 1 && match &prev_equivalent_subjects {
            Some(prev) => lists_have_same_members(equivalent_subjects.as_slice(), prev.as_slice()),
            None => false,
        };
        if converged {
            proof {
                let p = prev_equivalent_subjects.unwrap();
                let a = prev_subject_classes.unwrap();
                lemma_same_members_uniform(groups, groups_view(p@), a@);
                assert(grouped(dg, td, rv)) by { reveal(grouped); }
                assert(same_groups(rv.members, g_prev.members)) by { reveal(same_groups); }
                lemma_chain_push(sk, td, use_original_names, hist, dg, rv);
                hist = hist.push((dg, rv));
                conv = true;
            }
            done = true;
        } else {
            proof {
                assert(class_views(subject_classes@) =~= rv.classes);
                assert(grouped(dg, td, rv)) by { reveal(grouped); }
                if iteration >= 1 {
                    let p = prev_equivalent_subjects.unwrap();
                    assert(!same_groups(rv.members, g_prev.members)) by { reveal(same_groups); }
                }
                lemma_chain_push(sk, td, use_original_names, hist, dg, rv);
                hist = hist.push((dg, rv));
                assert(applied_before(hist, hist.len() - 1, use_original_names) == assignment_view(prev_subject_classes));
                g_prev = rv;
            }
            relabel(data_graph, &prev_subject_classes, &new_subject_classes, Ghost(sk));
            prev_subject_classes = Some(new_subject_classes);
            prev_equivalent_subjects = Some(clone_groups(&equivalent_subjects));
            proof {
                assert forall|k: int| 0 <= k < groups.len() implies (#[trigger] groups[k]).len() > 0 by {
                    assert(crate::isomorphism::groups_wf(result@));
                }
            }
            if single_pass {
                done = true;
            }
            iteration = iteration + 1;
        }
    }
    proof {
        if stopped_early(final_iteration, iterations, similarity_threshold) {
            assert(conv);
        }
    }
    Ok((equivalent_subjects, prev_subject_classes, final_iteration, Ghost((conv, hist))))
}

/// Summarizes `original_data_graph` (after removing its ontology
/// declaration) into a class graph and a member graph: repeatedly groups
/// its subjects by their one-hop class pattern and relabels each group with
/// a fresh `bs:` class, until the groups no longer change, `iterations`
/// passes have run, or the threshold asks for a single pass.
#[verifier::rlimit(100)]
#[verifier::spinoff_prover]
pub fn create_bschema<F: Fn(usize, usize) -> bool>(
    original_data_graph: &mut RdfGraph,
    iterations: usize,
    similarity_threshold: Option<&SimilarityThreshold<F>>,
    remove_added_labels: bool,
    use_original_names: bool,
) -> (r: Result<BschemaResult, BschemaError>)
    requires
        similarity_threshold matches Some(t) ==> is_decision(t.exceeds),
    ensures
        forall|t: STriple| #[trigger] final(original_data_graph)@.contains(t)
            <==> (old(original_data_graph)@.contains(t) && t != ontology_triple()),
        r matches Ok(res) && summary_facts(final(original_data_graph)@, iterations, similarity_threshold,
            remove_added_labels, use_original_names, res.class_graph@, res.member_graph@, res.iterations),
{
    let onto = RdfTriple {
        subject: SubjectNode::Iri(ex_ontology_subject()),
        predicate: named(RDF_TYPE_IRI),
        object: RdfTerm::Iri(named(OWL_ONTOLOGY_IRI)),
    };
    original_data_graph.remove(&onto);
    let ghost src = original_data_graph@;
    proof {
        original_data_graph.lemma_no_literal_subjects();
    }
    let (mut data_graph, skolem_reverse) = match original_data_graph.skolemize() {
        Ok(p) => p,
        Err(e) => return Err(e),
    };
    let ghost sk = data_graph@;
    let ghost td = crate::isomorphism::threshold_decision(similarity_threshold);
    let (equivalent_subjects, prev_subject_classes, final_iteration, pass_ghost) =
        match run_passes(&mut data_graph, iterations, similarity_threshold, use_original_names, Ghost(sk)) {
            Ok(x) => x,
            Err(e) => return Err(e),
        };
    let ghost (conv, hist) = pass_ghost@;
    let class_graph_result = summary_class_graph(&data_graph, &skolem_reverse, remove_added_labels);
    assert(crate::skolem::skolemizes(src, sk, skolem_reverse@) && relabeled(data_graph@, sk, assignment_view(prev_subject_classes)));
    let ghost a = assignment_view(prev_subject_classes);
    let applied = match prev_subject_classes {
        Some(a) => a,
        None => ClassAssignment::new(),
    };
    let member_graph = member_graph_of(&equivalent_subjects, &applied, &skolem_reverse);
    let ghost h = choose|h: spec_fn(STerm) -> u64| #[trigger] crate::skolem::skolemized(src, sk, skolem_reverse@, h)
        && crate::skolem::literal_nodes_apart(src, h);
    proof {
        if iterations > 0 {
            lemma_member_class_unique(src, sk, skolem_reverse@, h, groups_view(equivalent_subjects@), applied@, member_graph@);
        } else {
            assert(member_graph@.len() == 0);
            assert forall|c1: Seq<char>, c2: Seq<char>, m: STerm|
                member_graph@.contains(stripple(STerm::Named(c1), RDFS_MEMBER_IRI@, m))
                && member_graph@.contains(stripple(STerm::Named(c2), RDFS_MEMBER_IRI@, m)) implies c1 == c2 by {}
        }
    }
    proof {
        lemma_result_laws(
            src, sk, skolem_reverse@, data_graph@, a, applied@, groups_view(equivalent_subjects@),
            class_graph_result@, member_graph@, iterations > 0,
        );
    }
    proof {
        if iterations > 0 {
            let stopped = stopped_early(final_iteration, iterations, similarity_threshold);
            if stopped {
                assert(conv);
            }
            assert(Some(applied@) == assignment_view(prev_subject_classes));
            lemma_literals_reported(src, sk, skolem_reverse@, h, groups_view(equivalent_subjects@), applied@, member_graph@);
            lemma_last_pass(
                src, td, use_original_names, remove_added_labels, stopped, final_iteration,
                class_graph_result@, member_graph@, sk, skolem_reverse@, h, data_graph@, hist, conv, applied@,
            );
        }
    }
    proof {
        lemma_summary_facts(
            src, iterations, similarity_threshold, remove_added_labels, use_original_names,
            class_graph_result@, member_graph@, final_iteration, sk, skolem_reverse@, data_graph@,
            assignment_view(prev_subject_classes),
        );
    }
    Ok(BschemaResult { class_graph: class_graph_result, member_graph, iterations: final_iteration })
}

/// `t` is `(c, rdfs:member, m)` for a group of `groups` whose first member
/// has class `c` in `a`, and `m` the reported form of a member of that group.
pub open spec fn is_member_triple(
    t: STriple,
    groups: Seq<Seq<STerm>>,
    a: Seq<(STerm, Seq<char>)>,
    rev: Seq<(Seq<char>, STerm)>,
) -> bool {
    exists|k: int, j: int| 0 <= k < groups.len() && 0 <= j < groups[k].len() && value_of(a, groups[k][0]) is Some
        && t == stripple(STerm::Named(value_of(a, groups[k][0]).unwrap()), RDFS_MEMBER_IRI@, reported(groups[k][j], rev))
}

/// The member graph: for each group whose first member has a class `c` in
/// `applied`, `(c, rdf:type, rdf:Seq)` and `(c, rdfs:member, m)` for each
/// member `m`, reported as the literal or blank node it stands for.
fn member_graph_of(groups: &Vec<Vec<SubjectNode>>, applied: &ClassAssignment, rev: &SkolemMap) -> (r: RdfGraph)
    requires
        forall|j: int| 0 <= j < applied@.len() ==> is_bs_iri(#[trigger] applied@[j].1),
    ensures
        member_graph_shape(r@),
        forall|k: int, j: int| #![trigger groups_view(groups@)[k][j]]
            0 <= k < groups@.len() && 0 <= j < groups_view(groups@)[k].len()
            && value_of(applied@, groups_view(groups@)[k][0]) is Some
            ==> r@.contains(stripple(STerm::Named(value_of(applied@, groups_view(groups@)[k][0]).unwrap()),
                RDFS_MEMBER_IRI@, reported(groups_view(groups@)[k][j], rev@))),
        forall|t: STriple| #[trigger] r@.contains(t) && t.predicate == RDFS_MEMBER_IRI@
            ==> exists|k: int, j: int| 0 <= k < groups@.len() && 0 <= j < groups_view(groups@)[k].len()
                && t.object == reported(groups_view(groups@)[k][j], rev@),
        seq_typed(r@),
        groups@.len() == 0 ==> r@.len() == 0,
        forall|t: STriple| (#[trigger] r@.contains(t) && t.predicate == RDFS_MEMBER_IRI@)
            <==> is_member_triple(t, groups_view(groups@), applied@, rev@),
{
    applied.assert_distinct();
    let ghost gv = groups_view(groups@);
    let mut member_graph = RdfGraph::empty();
    for gi in 0..groups.len()
        invariant
            gv == groups_view(groups@),
            crate::keyed::keys_distinct(applied@),
            forall|j: int| 0 <= j < applied@.len() ==> is_bs_iri(#[trigger] applied@[j].1),
            member_graph_shape(member_graph@),
            forall|k: int, j: int| #![trigger gv[k][j]]
                0 <= k < gi && 0 <= j < gv[k].len() && value_of(applied@, gv[k][0]) is Some
                ==> member_graph@.contains(stripple(STerm::Named(value_of(applied@, gv[k][0]).unwrap()),
                    RDFS_MEMBER_IRI@, reported(gv[k][j], rev@))),
            forall|t: STriple| #[trigger] member_graph@.contains(t) && t.predicate == RDFS_MEMBER_IRI@
                ==> exists|k: int, j: int| 0 <= k < gi && 0 <= j < gv[k].len() && t.object == reported(gv[k][j], rev@),
            seq_typed(member_graph@),
            gi == 0 ==> member_graph@.len() == 0,
            forall|t: STriple| #[trigger] member_graph@.contains(t) && t.predicate == RDFS_MEMBER_IRI@
                ==> is_member_triple(t, gv.take(gi as int), applied@, rev@),
    {
        let members = &groups[gi];
        assert(gv[gi as int] == node_views(members@));
        if members.len() > 0 {
            match applied.get(&members[0]) {
                Some(c) => {
                    proof {
                        crate::keyed::lemma_key_index(applied@, members@[0]@);
                    }
                    let ghost before = member_graph@;
                    member_graph.insert(&RdfTriple {
                        subject: SubjectNode::Iri(c.clone()),
                        predicate: named(RDF_TYPE_IRI),
                        object: RdfTerm::Iri(named(RDF_SEQ_IRI)),
                    });
                    proof {
                        crate::util::lemma_type_not_member();
                    }
                    for j in 0..members.len()
                        invariant
                            gv == groups_view(groups@),
                            gv[gi as int] == node_views(members@),
                            gi < groups@.len(),
                            member_graph_shape(member_graph@),
                            is_bs_iri(c@),
                            RDF_TYPE_IRI@ != RDFS_MEMBER_IRI@,
                            forall|t: STriple| before.contains(t) ==> #[trigger] member_graph@.contains(t),
                            forall|t: STriple| #[trigger] member_graph@.contains(t) && t.predicate == RDFS_MEMBER_IRI@
                                ==> before.contains(t) || exists|m: int| 0 <= m < j && t.object == reported(gv[gi as int][m], rev@),
                            forall|m: int| 0 <= m < j ==> #[trigger] member_graph@.contains(
                                stripple(STerm::Named(c@), RDFS_MEMBER_IRI@, reported(gv[gi as int][m], rev@))),
                            member_graph@.contains(stripple(STerm::Named(c@), RDF_TYPE_IRI@, STerm::Named(RDF_SEQ_IRI@))),
                            seq_typed(member_graph@),
                            value_of(applied@, gv[gi as int][0]) == Some(c@),
                            forall|t: STriple| #[trigger] member_graph@.contains(t) && t.predicate == RDFS_MEMBER_IRI@
                                ==> is_member_triple(t, gv.take(gi as int), applied@, rev@) || exists|m: int| 0 <= m < j
                                    && t == stripple(STerm::Named(c@), RDFS_MEMBER_IRI@, reported(gv[gi as int][m], rev@)),
                    {
                        let ghost b2 = member_graph@;
                        let ghost new_t = stripple(STerm::Named(c@), RDFS_MEMBER_IRI@, reported(gv[gi as int][j as int], rev@));
                        assert(gv[gi as int][j as int] == members@[j as int]@);
                        member_graph.insert(&RdfTriple {
                            subject: SubjectNode::Iri(c.clone()),
                            predicate: named(RDFS_MEMBER_IRI),
                            object: member_term(&members[j], rev),
                        });
                        assert forall|t: STriple| #[trigger] member_graph@.contains(t) && t.predicate == RDFS_MEMBER_IRI@
                            implies is_member_triple(t, gv.take(gi as int), applied@, rev@) || exists|m: int| 0 <= m < j + 1
                                && t == stripple(STerm::Named(c@), RDFS_MEMBER_IRI@, reported(gv[gi as int][m], rev@)) by {
                            if t == new_t {
                                assert(0 <= j < j + 1);
                            } else {
                                assert(b2.contains(t));
                            }
                        }
                    }
                    proof {
                        assert forall|t: STriple| #[trigger] member_graph@.contains(t) && t.predicate == RDFS_MEMBER_IRI@
                            && !is_member_triple(t, gv.take(gi as int), applied@, rev@)
                            implies is_member_triple(t, gv.take(gi + 1), applied@, rev@) by {
                            let m = choose|m: int| 0 <= m < members@.len()
                                && t == stripple(STerm::Named(c@), RDFS_MEMBER_IRI@, reported(gv[gi as int][m], rev@));
                            assert(gv.take(gi + 1)[gi as int] == gv[gi as int]);
                            assert(0 <= gi < gv.take(gi + 1).len() && 0 <= m < gv.take(gi + 1)[gi as int].len());
                        }
                        assert forall|t: STriple| #[trigger] member_graph@.contains(t) && t.predicate == RDFS_MEMBER_IRI@
                            implies exists|k: int, j: int| 0 <= k < gi + 1 && 0 <= j < gv[k].len() && t.object == reported(gv[k][j], rev@) by {
                            if !before.contains(t) {
                                let m = choose|m: int| 0 <= m < members@.len() && t.object == reported(gv[gi as int][m], rev@);
                                assert(0 <= gi < gi + 1 && 0 <= m < gv[gi as int].len());
                            } else {
                                let (k, j) = choose|k: int, j: int| 0 <= k < gi && 0 <= j < gv[k].len() && t.object == reported(gv[k][j], rev@);
                                assert(0 <= k < gi + 1);
                            }
                        }
                    }
                },
                None => {},
            }
        }
        proof {
            assert forall|t: STriple| #[trigger] member_graph@.contains(t) && t.predicate == RDFS_MEMBER_IRI@
                implies is_member_triple(t, gv.take(gi + 1), applied@, rev@) by {
                let g1 = gv.take(gi + 1);
                if is_member_triple(t, gv.take(gi as int), applied@, rev@) {
                    let (k, j) = choose|k: int, j: int| 0 <= k < gv.take(gi as int).len() && 0 <= j < gv.take(gi as int)[k].len()
                        && value_of(applied@, gv.take(gi as int)[k][0]) is Some
                        && t == stripple(STerm::Named(value_of(applied@, gv.take(gi as int)[k][0]).unwrap()), RDFS_MEMBER_IRI@,
                            reported(gv.take(gi as int)[k][j], rev@));
                    assert(g1[k] == gv.take(gi as int)[k]);
                }
            }
            assert forall|k: int, j: int| #![trigger gv[k][j]]
                0 <= k < gi + 1 && 0 <= j < gv[k].len() && value_of(applied@, gv[k][0]) is Some
                implies member_graph@.contains(stripple(STerm::Named(value_of(applied@, gv[k][0]).unwrap()),
                    RDFS_MEMBER_IRI@, reported(gv[k][j], rev@))) by {
                if k == gi {
                    assert(gv[k][0] == members@[0]@);
                }
            }
        }
    }
    proof {
        assert(gv.take(groups@.len() as int) =~= gv);
        assert forall|t: STriple| is_member_triple(t, gv, applied@, rev@)
            implies #[trigger] member_graph@.contains(t) && t.predicate == RDFS_MEMBER_IRI@ by {
            let (k, j) = choose|k: int, j: int| 0 <= k < gv.len() && 0 <= j < gv[k].len() && value_of(applied@, gv[k][0]) is Some
                && t == stripple(STerm::Named(value_of(applied@, gv[k][0]).unwrap()), RDFS_MEMBER_IRI@, reported(gv[k][j], rev@));
            assert(gv[k][j] == gv[k][j]);
        }
    }
    member_graph
}

} // verus!
