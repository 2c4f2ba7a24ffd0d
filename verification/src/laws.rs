use vstd::prelude::*;

use crate::field::FieldType;
use crate::store::Store;
use crate::store::spec_attach;

verus! {

/// First write wins: attaching under an (id, name) slot twice keeps the
/// first component; the second attach changes nothing, and when the slot
/// was free the slot holds the first value afterwards.
pub proof fn lemma_attach_first_write_wins(
    m: Map<Seq<char>, Map<i64, Map<Seq<char>, FieldType>>>,
    entity_id: i64,
    name: Seq<char>,
    first: Map<Seq<char>, FieldType>,
    second: Map<Seq<char>, FieldType>,
)
    ensures
        spec_attach(spec_attach(m, entity_id, name, first), entity_id, name, second)
            == spec_attach(m, entity_id, name, first),
        spec_attach(m, entity_id, name, first)[name].contains_key(entity_id),
        !(m.contains_key(name) && m[name].contains_key(entity_id)) ==> spec_attach(
            m,
            entity_id,
            name,
            first,
        )[name][entity_id] == first,
{
}

/// Query monotonicity, in set semantics: appending a name to a query
/// narrows (or keeps) the resulting id set.
pub proof fn lemma_query_monotone(s: Store, names: Seq<Seq<char>>, extra: Seq<char>)
    ensures
        s.query_ids(names.push(extra)).subset_of(s.query_ids(names)),
{
    assert(names.push(extra).drop_last() =~= names);
    assert(names.push(extra).last() == extra);
    if s.cats().contains_key(extra) {
        assert(s.query_ids(names.push(extra)) == s.query_ids(names).intersect(
            s.cats()[extra].dom(),
        ));
    }
}

/// A query with no names yields the id set of every issued entity.
pub proof fn lemma_query_empty_names(s: Store)
    ensures
        s.query_ids(Seq::<Seq<char>>::empty()) == s.ids().to_set(),
{
}

/// An unregistered name anywhere in the query list forces the empty id
/// set, whatever the other names are.
pub proof fn lemma_query_unregistered(s: Store, names: Seq<Seq<char>>, i: int)
    requires
        0 <= i < names.len(),
        !s.cats().contains_key(names[i]),
    ensures
        s.query_ids(names) == Set::<i64>::empty(),
    decreases names.len(),
{
    if i == names.len() - 1 {
        assert(names.last() == names[i]);
    } else {
        assert(names.drop_last()[i] == names[i]);
        lemma_query_unregistered(s, names.drop_last(), i);
        if s.cats().contains_key(names.last()) {
            assert(Set::<i64>::empty().intersect(s.cats()[names.last()].dom()) =~= Set::<
                i64,
            >::empty());
        }
    }
}

/// An id is on a query's surviving prefix list exactly when it is among
/// the first `i` issued ids and in the query's id set.
proof fn lemma_surviving_prefix_membership(s: Store, names: Seq<Seq<char>>, i: int, id: i64)
    requires
        0 <= i <= s.entities@.len(),
    ensures
        s.surviving_prefix(names, i).contains(id) <==> (s.entities@.subrange(0, i).contains(id)
            && s.query_ids(names).contains(id)),
    decreases i,
{
    reveal(Seq::filter);
    if i > 0 {
        lemma_surviving_prefix_membership(s, names, i - 1, id);
        let sub0 = s.entities@.subrange(0, i - 1);
        let sub1 = s.entities@.subrange(0, i);
        assert(sub1.drop_last() =~= sub0);
        let last = s.entities@[i - 1];
        assert(sub1.last() == last);
        let f0 = s.surviving_prefix(names, i - 1);
        let f1 = s.surviving_prefix(names, i);
        if s.query_ids(names).contains(last) {
            assert(f1 == f0.push(last));
            if f1.contains(id) {
                let j = choose|j: int| 0 <= j < f1.len() && f1[j] == id;
                if j == f1.len() - 1 {
                    assert(sub1[i - 1] == id);
                } else {
                    assert(f0[j] == id);
                    assert(f0.contains(id));
                    let k = choose|k: int| 0 <= k < sub0.len() && sub0[k] == id;
                    assert(sub1[k] == id);
                }
            }
            if sub1.contains(id) && s.query_ids(names).contains(id) {
                let k = choose|k: int| 0 <= k < sub1.len() && sub1[k] == id;
                if k == i - 1 {
                    assert(f1[f1.len() - 1] == id);
                } else {
                    assert(sub0[k] == id);
                    assert(sub0.contains(id));
                    let j = choose|j: int| 0 <= j < f0.len() && f0[j] == id;
                    assert(f1[j] == id);
                }
            }
        } else {
            assert(f1 == f0);
            if f1.contains(id) {
                let k = choose|k: int| 0 <= k < sub0.len() && sub0[k] == id;
                assert(sub1[k] == id);
            }
            if sub1.contains(id) && s.query_ids(names).contains(id) {
                let k = choose|k: int| 0 <= k < sub1.len() && sub1[k] == id;
                assert(k != i - 1);
                assert(sub0[k] == id);
                assert(sub0.contains(id));
            }
        }
    }
}

/// Query monotonicity over the returned creation-ordered lists: every id a
/// longer query keeps is kept by the shorter one.
pub proof fn lemma_query_monotone_lists(
    s: Store,
    names: Seq<Seq<char>>,
    extra: Seq<char>,
    id: i64,
)
    requires
        s.surviving_ids(names.push(extra)).contains(id),
    ensures
        s.surviving_ids(names).contains(id),
{
    let len = s.entities@.len() as int;
    lemma_surviving_prefix_membership(s, names.push(extra), len, id);
    lemma_surviving_prefix_membership(s, names, len, id);
    lemma_query_monotone(s, names, extra);
}

/// A query with no names keeps every issued id, in creation order: the
/// surviving list is the whole creation-order list, also when it is empty.
pub proof fn lemma_empty_query_keeps_all(s: Store)
    ensures
        s.surviving_ids(Seq::<Seq<char>>::empty()) == s.ids(),
{
    lemma_empty_query_prefix(s, s.entities@.len() as int);
    assert(s.entities@.subrange(0, s.entities@.len() as int) =~= s.entities@);
}

/// Helper induction: with no names, the surviving prefix is the prefix
/// itself.
proof fn lemma_empty_query_prefix(s: Store, i: int)
    requires
        0 <= i <= s.entities@.len(),
    ensures
        s.surviving_prefix(Seq::<Seq<char>>::empty(), i) == s.entities@.subrange(0, i),
    decreases i,
{
    reveal(Seq::filter);
    if i > 0 {
        lemma_empty_query_prefix(s, i - 1);
        let sub0 = s.entities@.subrange(0, i - 1);
        let sub1 = s.entities@.subrange(0, i);
        assert(sub1.drop_last() =~= sub0);
        let last = s.entities@[i - 1];
        assert(sub1.last() == last);
        assert(s.query_ids(Seq::<Seq<char>>::empty()).contains(last)) by {
            assert(s.entities@[i - 1] == last);
            assert(s.entities@.contains(last));
        }
        assert(s.surviving_prefix(Seq::<Seq<char>>::empty(), i) == sub0.push(last));
        assert(sub0.push(last) =~= sub1);
    }
}

/// Issued ids are strictly increasing, at least 1, and below the id the
/// next creation will return.
pub proof fn lemma_ids_strictly_increasing(s: Store, i: int, j: int)
    requires
        s.wf(),
        0 <= i < j < s.ids().len(),
    ensures
        1 <= s.ids()[i] < s.ids()[j] < s.next_id,
{
}

/// An id that no registered category holds has the empty entity view: a
/// view with zero components, not an error.
pub proof fn lemma_unknown_id_empty_view(s: Store, entity_id: i64)
    requires
        forall|n: Seq<char>| #[trigger] s.cats().contains_key(n) ==> !s.cats()[n].contains_key(
            entity_id,
        ),
    ensures
        s.entity_view(entity_id) == Map::<Seq<char>, Map<Seq<char>, FieldType>>::empty(),
{
    assert(s.entity_view(entity_id) =~= Map::<Seq<char>, Map<Seq<char>, FieldType>>::empty());
}

} // verus!
