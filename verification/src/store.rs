use vstd::prelude::*;

use crate::assoc::assoc_map;
use crate::assoc::distinct_keys;
use crate::assoc::has_key;
use crate::assoc::lemma_assoc_absent;
use crate::assoc::lemma_assoc_at;
use crate::assoc::lemma_assoc_dom;
use crate::assoc::lemma_assoc_push;
use crate::assoc::lemma_assoc_update;
use crate::component::Component;
use crate::field::FieldType;
use crate::field::combine;
use crate::field::spec_combine;

verus! {

/// The contents of one component category: its registered (entity id,
/// component) entries, as a map from id to component contents.
pub open spec fn cat_pairs(entries: Seq<(i64, Component)>) -> Seq<(i64, Map<Seq<char>, FieldType>)> {
    entries.map_values(|p: (i64, Component)| (p.0, p.1@))
}

/// The map denoted by one category's entry list.
pub open spec fn cat_map(entries: Seq<(i64, Component)>) -> Map<i64, Map<Seq<char>, FieldType>> {
    assoc_map(cat_pairs(entries))
}

/// The view of an initial-component list handed to `add_entity`.
pub open spec fn comp_pairs(initial: Seq<(String, Component)>) -> Seq<
    (Seq<char>, Map<Seq<char>, FieldType>),
> {
    initial.map_values(|p: (String, Component)| (p.0@, p.1@))
}

/// The names of a query list, as character sequences.
pub open spec fn names_view(names: Seq<String>) -> Seq<Seq<char>> {
    names.map_values(|s: String| s@)
}

/// Attaching one component: a no-op when the (name, id) slot is already
/// taken, an insertion otherwise.
pub open spec fn spec_attach(
    m: Map<Seq<char>, Map<i64, Map<Seq<char>, FieldType>>>,
    entity_id: i64,
    name: Seq<char>,
    c: Map<Seq<char>, FieldType>,
) -> Map<Seq<char>, Map<i64, Map<Seq<char>, FieldType>>> {
    let inner = if m.contains_key(name) {
        m[name]
    } else {
        Map::empty()
    };
    if inner.contains_key(entity_id) {
        m
    } else {
        m.insert(name, inner.insert(entity_id, c))
    }
}

/// Attaching a list of components in order, each under the attach rule.
pub open spec fn spec_attach_all(
    m: Map<Seq<char>, Map<i64, Map<Seq<char>, FieldType>>>,
    entity_id: i64,
    comps: Seq<(Seq<char>, Map<Seq<char>, FieldType>)>,
) -> Map<Seq<char>, Map<i64, Map<Seq<char>, FieldType>>>
    decreases comps.len(),
{
    if comps.len() == 0 {
        m
    } else {
        spec_attach(
            spec_attach_all(m, entity_id, comps.drop_last()),
            entity_id,
            comps.last().0,
            comps.last().1,
        )
    }
}

/// Overwriting one field of one attached component.
pub open spec fn spec_update_field(
    m: Map<Seq<char>, Map<i64, Map<Seq<char>, FieldType>>>,
    entity_id: i64,
    name: Seq<char>,
    field: Seq<char>,
    value: FieldType,
) -> Map<Seq<char>, Map<i64, Map<Seq<char>, FieldType>>> {
    m.insert(name, m[name].insert(entity_id, m[name][entity_id].insert(field, value)))
}

/// A transient view of one entity: the components currently registered
/// under its id, reconstructed on demand and never stored.
#[derive(Debug)]
pub struct Entity {
    pub components: Vec<(String, Component)>,
}

impl View for Entity {
    type V = Map<Seq<char>, Map<Seq<char>, FieldType>>;

    open spec fn view(&self) -> Map<Seq<char>, Map<Seq<char>, FieldType>> {
        assoc_map(self.pairs())
    }
}

impl Entity {
    /// The carried pairs, with names as character sequences and components
    /// as their maps.
    pub open spec fn pairs(self) -> Seq<(Seq<char>, Map<Seq<char>, FieldType>)> {
        comp_pairs(self.components@)
    }

    /// Component names are pairwise distinct and each component is
    /// well-formed.
    pub open spec fn wf(self) -> bool {
        &&& distinct_keys(self.pairs())
        &&& forall|i: int|
            0 <= i < self.components@.len() ==> (#[trigger] self.components@[i]).1.wf()
    }
}

/// The store: a monotonically increasing id counter, the creation-ordered
/// list of every id issued by `add_entity`, and for each registered
/// component name the entries attached under it.
pub struct Store {
    pub next_id: i64,
    pub entities: Vec<i64>,
    pub components: Vec<(String, Vec<(i64, Component)>)>,
}

impl Store {
    /// The registered categories, with names as character sequences and
    /// contents as maps.
    pub open spec fn store_pairs(self) -> Seq<(Seq<char>, Map<i64, Map<Seq<char>, FieldType>>)> {
        self.components@.map_values(|p: (String, Vec<(i64, Component)>)| (p.0@, cat_map(p.1@)))
    }

    /// The full registry: component name, then entity id, then field name.
    pub open spec fn cats(self) -> Map<Seq<char>, Map<i64, Map<Seq<char>, FieldType>>> {
        assoc_map(self.store_pairs())
    }

    /// The creation-ordered ids issued so far.
    pub open spec fn ids(self) -> Seq<i64> {
        self.entities@
    }

    /// Well-formedness: ids are at least 1, strictly increasing and below
    /// the counter; category names are distinct; within a category the ids
    /// are distinct and every component is well-formed.
    pub open spec fn wf(self) -> bool {
        &&& 1 <= self.next_id
        &&& forall|i: int, j: int|
            0 <= i < j < self.entities@.len() ==> self.entities@[i] < self.entities@[j]
        &&& forall|i: int|
            0 <= i < self.entities@.len() ==> 1 <= #[trigger] self.entities@[i] < self.next_id
        &&& distinct_keys(self.store_pairs())
        &&& forall|ci: int|
            0 <= ci < self.components@.len() ==> distinct_keys(
                cat_pairs((#[trigger] self.components@[ci]).1@),
            )
        &&& forall|ci: int, ei: int|
            0 <= ci < self.components@.len() && 0 <= ei < self.components@[ci].1@.len() ==> (
            #[trigger] self.components@[ci].1@[ei]).1.wf()
    }

    /// The view `get_entity` materializes for an id: every registered
    /// category that holds the id, with that component's contents.
    pub open spec fn entity_view(self, entity_id: i64) -> Map<Seq<char>, Map<Seq<char>, FieldType>> {
        Map::new(
            |n: Seq<char>| self.cats().contains_key(n) && self.cats()[n].contains_key(entity_id),
            |n: Seq<char>| self.cats()[n][entity_id],
        )
    }

    /// Whether the id has a component under the (registered) name.
    pub open spec fn spec_has_component(self, entity_id: i64, name: Seq<char>) -> bool {
        self.cats().contains_key(name) && self.cats()[name].contains_key(entity_id)
    }

    /// The stored value of a field, absent when the category, the entity's
    /// component, or the field itself is missing.
    pub open spec fn spec_field_at(
        self,
        entity_id: i64,
        name: Seq<char>,
        field: Seq<char>,
    ) -> Option<FieldType> {
        if self.spec_has_component(entity_id, name) && self.cats()[name][entity_id].contains_key(
            field,
        ) {
            Some(self.cats()[name][entity_id][field])
        } else {
            None
        }
    }

    /// An empty store; ids start at 1.
    pub fn new() -> (s: Store)
        ensures
            s.wf(),
            s.next_id == 1,
            s.ids() == Seq::<i64>::empty(),
            s.cats() == Map::<Seq<char>, Map<i64, Map<Seq<char>, FieldType>>>::empty(),
    {
        let s = Store { next_id: 1, entities: Vec::new(), components: Vec::new() };
        proof {
            assert(s.store_pairs() =~= Seq::<(Seq<char>, Map<i64, Map<Seq<char>, FieldType>>)>::empty());
            assert(s.entities@ =~= Seq::<i64>::empty());
        }
        s
    }

    /// Index of the category with this name, if registered.
    fn find_cat(&self, name: &String) -> (r: Option<usize>)
        requires
            self.wf(),
        ensures
            match r {
                Some(ci) => ci < self.components@.len() && self.components@[ci as int].0@ == name@
                    && self.cats().contains_key(name@) && self.cats()[name@] == cat_map(
                    self.components@[ci as int].1@,
                ),
                None => !self.cats().contains_key(name@),
            },
    {
        let n = self.components.len();
        let mut i: usize = 0;
        while i < n
            invariant
                self.wf(),
                n == self.components@.len(),
                i <= n,
                forall|j: int| 0 <= j < i ==> (#[trigger] self.store_pairs()[j]).0 != name@,
            decreases n - i,
        {
            if self.components[i].0 == *name {
                proof {
                    assert(self.store_pairs()[i as int].0 == name@);
                    lemma_assoc_at(self.store_pairs(), i as int);
                }
                return Some(i);
            }
            proof {
                assert(self.store_pairs()[i as int].0 == self.components@[i as int].0@);
            }
            i = i + 1;
        }
        proof {
            lemma_assoc_absent(self.store_pairs(), name@);
        }
        None
    }

    /// Index of the entry for this id within one category's entry list.
    fn find_entry(entries: &Vec<(i64, Component)>, entity_id: i64) -> (r: Option<usize>)
        requires
            distinct_keys(cat_pairs(entries@)),
        ensures
            match r {
                Some(ei) => ei < entries@.len() && entries@[ei as int].0 == entity_id && cat_map(
                    entries@,
                ).contains_key(entity_id) && cat_map(entries@)[entity_id] == entries@[ei as int].1@,
                None => !cat_map(entries@).contains_key(entity_id),
            },
    {
        let n = entries.len();
        let mut i: usize = 0;
        while i < n
            invariant
                distinct_keys(cat_pairs(entries@)),
                n == entries@.len(),
                i <= n,
                forall|j: int| 0 <= j < i ==> (#[trigger] cat_pairs(entries@)[j]).0 != entity_id,
            decreases n - i,
        {
            if entries[i].0 == entity_id {
                proof {
                    assert(cat_pairs(entries@)[i as int].0 == entity_id);
                    lemma_assoc_at(cat_pairs(entries@), i as int);
                }
                return Some(i);
            }
            proof {
                assert(cat_pairs(entries@)[i as int].0 == entries@[i as int].0);
            }
            i = i + 1;
        }
        proof {
            lemma_assoc_absent(cat_pairs(entries@), entity_id);
        }
        None
    }

    /// Attach a component under (entity_id, name); first write wins: when a
    /// component already sits there the call is a no-op and the original is
    /// retained. The id need not have been issued by `add_entity`.
    pub fn attach_component(&mut self, entity_id: i64, name: &String, component: Component)
        requires
            old(self).wf(),
            component.wf(),
        ensures
            final(self).wf(),
            final(self).next_id == old(self).next_id,
            final(self).entities@ == old(self).entities@,
            final(self).cats() == spec_attach(old(self).cats(), entity_id, name@, component@),
    {
        let found = self.find_cat(name);
        match found {
            None => {
                let ghost oldpairs = self.store_pairs();
                let mut entries: Vec<(i64, Component)> = Vec::new();
                entries.push((entity_id, component));
                proof {
                    assert(cat_pairs(entries@) =~= Seq::<
                        (i64, Map<Seq<char>, FieldType>),
                    >::empty().push((entity_id, entries@[0].1@)));
                    lemma_assoc_push(
                        Seq::<(i64, Map<Seq<char>, FieldType>)>::empty(),
                        entity_id,
                        entries@[0].1@,
                    );
                }
                self.components.push((name.clone(), entries));
                proof {
                    assert(self.store_pairs() =~= oldpairs.push((name@, cat_map(entries@))));
                    lemma_assoc_push(oldpairs, name@, cat_map(entries@));
                    lemma_assoc_dom(oldpairs, name@);
                    assert(distinct_keys(self.store_pairs()));
                    assert(!old(self).cats().contains_key(name@));
                    assert(cat_map(entries@) =~= Map::<i64, Map<Seq<char>, FieldType>>::empty()
                        .insert(entity_id, component@));
                    assert(final(self).cats() =~= spec_attach(
                        old(self).cats(),
                        entity_id,
                        name@,
                        component@,
                    ));
                }
            },
            Some(ci) => {
                let entry = Self::find_entry(&self.components[ci].1, entity_id);
                match entry {
                    Some(_) => {
                        proof {
                            assert(old(self).cats()[name@].contains_key(entity_id));
                        }
                    },
                    None => {
                        let ghost oldpairs = self.store_pairs();
                        let ghost oldcat = self.components@[ci as int].1@;
                        self.components[ci].1.push((entity_id, component));
                        proof {
                            let newcat = self.components@[ci as int].1@;
                            assert(newcat == oldcat.push((entity_id, component)));
                            assert(cat_pairs(newcat) =~= cat_pairs(oldcat).push(
                                (entity_id, component@),
                            ));
                            lemma_assoc_dom(cat_pairs(oldcat), entity_id);
                            lemma_assoc_push(cat_pairs(oldcat), entity_id, component@);
                            assert(distinct_keys(cat_pairs(newcat)));
                            assert(self.store_pairs() =~= oldpairs.update(
                                ci as int,
                                (name@, cat_map(newcat)),
                            ));
                            assert(oldpairs[ci as int].0 == name@);
                            lemma_assoc_update(oldpairs, ci as int, cat_map(newcat));
                            assert(final(self).cats() == old(self).cats().insert(
                                name@,
                                cat_map(oldcat).insert(entity_id, component@),
                            ));
                            assert(final(self).cats() =~= spec_attach(
                                old(self).cats(),
                                entity_id,
                                name@,
                                component@,
                            ));
                        }
                    },
                }
            },
        }
    }

    /// Create an entity: allocate the next id, attach every supplied
    /// component under it in list order (first write wins among duplicate
    /// names), append the id to the creation-order list, and return it.
    pub fn add_entity(&mut self, initial_components: Vec<(String, Component)>) -> (entity_id: i64)
        requires
            old(self).wf(),
            old(self).next_id < i64::MAX,
            forall|i: int|
                0 <= i < initial_components@.len() ==> (#[trigger] initial_components@[i]).1.wf(),
        ensures
            final(self).wf(),
            entity_id == old(self).next_id,
            1 <= entity_id,
            final(self).next_id == old(self).next_id + 1,
            final(self).entities@ == old(self).entities@.push(entity_id),
            final(self).cats() == spec_attach_all(
                old(self).cats(),
                entity_id,
                comp_pairs(initial_components@),
            ),
    {
        let entity_id = self.next_id;
        self.next_id = self.next_id + 1;
        let n = initial_components.len();
        let mut i: usize = 0;
        while i < n
            invariant
                self.wf(),
                n == initial_components@.len(),
                i <= n,
                entity_id == old(self).next_id,
                self.next_id == old(self).next_id + 1,
                self.entities@ == old(self).entities@,
                forall|j: int|
                    0 <= j < n ==> (#[trigger] initial_components@[j]).1.wf(),
                self.cats() == spec_attach_all(
                    old(self).cats(),
                    entity_id,
                    comp_pairs(initial_components@.subrange(0, i as int)),
                ),
            decreases n - i,
        {
            let c = initial_components[i].1.clone();
            proof {
                assert(c@ == initial_components@[i as int].1@);
                assert(c.wf());
            }
            let ghost precats = self.cats();
            self.attach_component(entity_id, &initial_components[i].0, c);
            proof {
                let sub0 = comp_pairs(initial_components@.subrange(0, i as int));
                let sub1 = comp_pairs(initial_components@.subrange(0, i as int + 1));
                assert(sub1.drop_last() =~= sub0);
                assert(sub1.last() == (initial_components@[i as int].0@, c@));
                assert(spec_attach_all(old(self).cats(), entity_id, sub1) == spec_attach(
                    spec_attach_all(old(self).cats(), entity_id, sub0),
                    entity_id,
                    sub1.last().0,
                    sub1.last().1,
                ));
            }
            i = i + 1;
        }
        proof {
            assert(initial_components@.subrange(0, n as int) =~= initial_components@);
        }
        self.entities.push(entity_id);
        entity_id
    }

    /// Materialize the transient view of one entity: scan every registered
    /// category and collect a copy of each component attached under the id.
    /// An unknown id yields a view with zero components; that is not an
    /// error.
    pub fn get_entity(&self, entity_id: i64) -> (e: Entity)
        requires
            self.wf(),
        ensures
            e.wf(),
            e@ == self.entity_view(entity_id),
    {
        let mut out: Vec<(String, Component)> = Vec::new();
        let n = self.components.len();
        let mut i: usize = 0;
        while i < n
            invariant
                self.wf(),
                n == self.components@.len(),
                i <= n,
                distinct_keys(comp_pairs(out@)),
                forall|ei: int| 0 <= ei < out@.len() ==> (#[trigger] out@[ei]).1.wf(),
                forall|k: Seq<char>|
                    #[trigger] has_key(comp_pairs(out@), k) <==> exists|ci: int|
                        0 <= ci < i && (#[trigger] self.store_pairs()[ci]).0 == k
                            && self.store_pairs()[ci].1.contains_key(entity_id),
                forall|k: Seq<char>|
                    #[trigger] assoc_map(comp_pairs(out@)).contains_key(k) ==> (
                    self.cats().contains_key(k) && self.cats()[k].contains_key(entity_id)
                        && assoc_map(comp_pairs(out@))[k] == self.cats()[k][entity_id]),
            decreases n - i,
        {
            let found = Self::find_entry(&self.components[i].1, entity_id);
            match found {
                Some(ei) => {
                    let ghost oldout = out@;
                    let ghost name = self.components@[i as int].0@;
                    let c = self.components[i].1[ei].1.clone();
                    proof {
                        assert(c@ == self.components@[i as int].1@[ei as int].1@);
                        assert(c.wf());
                        assert(self.store_pairs()[i as int].0 == name);
                        assert(self.store_pairs()[i as int].1 == cat_map(
                            self.components@[i as int].1@,
                        ));
                        // the new key is not already collected
                        if has_key(comp_pairs(oldout), name) {
                            let ci = choose|ci: int|
                                0 <= ci < i && (#[trigger] self.store_pairs()[ci]).0 == name
                                    && self.store_pairs()[ci].1.contains_key(entity_id);
                            assert(self.store_pairs()[ci].0 == self.store_pairs()[i as int].0);
                            assert(false);
                        }
                        lemma_assoc_dom(comp_pairs(oldout), name);
                    }
                    out.push((self.components[i].0.clone(), c));
                    proof {
                        assert(comp_pairs(out@) =~= comp_pairs(oldout).push((name, c@)));
                        lemma_assoc_push(comp_pairs(oldout), name, c@);
                        lemma_assoc_at(self.store_pairs(), i as int);
                        assert(self.cats()[name] == cat_map(self.components@[i as int].1@));
                        assert(self.cats()[name].contains_key(entity_id));
                        assert(c@ == self.cats()[name][entity_id]);
                        assert forall|k: Seq<char>| #[trigger] has_key(comp_pairs(out@), k)
                            implies exists|ci: int|
                            0 <= ci < i + 1 && (#[trigger] self.store_pairs()[ci]).0 == k
                                && self.store_pairs()[ci].1.contains_key(entity_id) by {
                            lemma_assoc_dom(comp_pairs(out@), k);
                            if k == name {
                                assert((#[trigger] self.store_pairs()[i as int]).0 == k
                                    && self.store_pairs()[i as int].1.contains_key(entity_id));
                            } else {
                                assert(assoc_map(comp_pairs(oldout)).insert(name, c@).contains_key(
                                    k,
                                ));
                                lemma_assoc_dom(comp_pairs(oldout), k);
                            }
                        }
                        assert forall|k: Seq<char>|
                            (exists|ci: int|
                                0 <= ci < i + 1 && (#[trigger] self.store_pairs()[ci]).0 == k
                                    && self.store_pairs()[ci].1.contains_key(entity_id))
                            implies #[trigger] has_key(comp_pairs(out@), k) by {
                            let ci = choose|ci: int|
                                0 <= ci < i + 1 && (#[trigger] self.store_pairs()[ci]).0 == k
                                    && self.store_pairs()[ci].1.contains_key(entity_id);
                            lemma_assoc_dom(comp_pairs(out@), k);
                            if ci == i {
                                assert(assoc_map(comp_pairs(out@)).contains_key(name));
                            } else {
                                assert(has_key(comp_pairs(oldout), k));
                                lemma_assoc_dom(comp_pairs(oldout), k);
                                assert(assoc_map(comp_pairs(out@)).contains_key(k));
                            }
                        }
                    }
                },
                None => {
                    proof {
                        assert(!self.store_pairs()[i as int].1.contains_key(entity_id));
                        assert forall|k: Seq<char>| #[trigger] has_key(comp_pairs(out@), k)
                            implies exists|ci: int|
                            0 <= ci < i + 1 && (#[trigger] self.store_pairs()[ci]).0 == k
                                && self.store_pairs()[ci].1.contains_key(entity_id) by {
                            let ci = choose|ci: int|
                                0 <= ci < i && (#[trigger] self.store_pairs()[ci]).0 == k
                                    && self.store_pairs()[ci].1.contains_key(entity_id);
                            assert(0 <= ci < i + 1 && (self.store_pairs()[ci]).0 == k
                                && self.store_pairs()[ci].1.contains_key(entity_id));
                        }
                        assert forall|k: Seq<char>|
                            (exists|ci: int|
                                0 <= ci < i + 1 && (#[trigger] self.store_pairs()[ci]).0 == k
                                    && self.store_pairs()[ci].1.contains_key(entity_id))
                            implies #[trigger] has_key(comp_pairs(out@), k) by {
                            let ci = choose|ci: int|
                                0 <= ci < i + 1 && (#[trigger] self.store_pairs()[ci]).0 == k
                                    && self.store_pairs()[ci].1.contains_key(entity_id);
                            assert(ci < i);
                        }
                    }
                },
            }
            i = i + 1;
        }
        let e = Entity { components: out };
        proof {
            assert forall|k: Seq<char>| #[trigger] self.entity_view(entity_id).contains_key(k)
                implies e@.contains_key(k) by {
                lemma_assoc_dom(self.store_pairs(), k);
                let ci = choose|ci: int|
                    0 <= ci < self.store_pairs().len() && (#[trigger] self.store_pairs()[ci]).0
                        == k;
                lemma_assoc_at(self.store_pairs(), ci);
                assert(self.store_pairs()[ci].1.contains_key(entity_id));
                assert(has_key(comp_pairs(out@), k));
                lemma_assoc_dom(comp_pairs(out@), k);
            }
            assert forall|k: Seq<char>| #[trigger] e@.contains_key(k)
                implies self.entity_view(entity_id).contains_key(k) by {
            }
            assert(e@ =~= self.entity_view(entity_id));
        }
        e
    }

    /// Insert or overwrite one field of one attached component. Fails, with
    /// no effect, exactly when the name is not a registered category or the
    /// id has no component under it.
    pub fn update_field(
        &mut self,
        entity_id: i64,
        component_name: &String,
        field_name: &String,
        value: FieldType,
    ) -> (ok: bool)
        requires
            old(self).wf(),
        ensures
            final(self).wf(),
            ok == old(self).spec_has_component(entity_id, component_name@),
            final(self).next_id == old(self).next_id,
            final(self).entities@ == old(self).entities@,
            ok ==> final(self).cats() == spec_update_field(
                old(self).cats(),
                entity_id,
                component_name@,
                field_name@,
                value,
            ),
            !ok ==> *final(self) == *old(self),
    {
        let found = self.find_cat(component_name);
        match found {
            None => false,
            Some(ci) => {
                let entry = Self::find_entry(&self.components[ci].1, entity_id);
                match entry {
                    None => false,
                    Some(ei) => {
                        let ghost oldpairs = self.store_pairs();
                        let ghost oldcat = self.components@[ci as int].1@;
                        let ghost oldcomp = self.components@[ci as int].1@[ei as int].1;
                        self.components[ci].1[ei].1.set(field_name, value);
                        proof {
                            let newcomp = self.components@[ci as int].1@[ei as int].1;
                            let newcat = self.components@[ci as int].1@;
                            assert(newcomp@ == oldcomp@.insert(field_name@, value));
                            assert(newcat == oldcat.update(ei as int, (entity_id, newcomp)));
                            assert(cat_pairs(newcat) =~= cat_pairs(oldcat).update(
                                ei as int,
                                (entity_id, newcomp@),
                            ));
                            assert(cat_pairs(oldcat)[ei as int].0 == entity_id);
                            lemma_assoc_update(cat_pairs(oldcat), ei as int, newcomp@);
                            assert(cat_map(newcat) == cat_map(oldcat).insert(entity_id, newcomp@));
                            assert(self.store_pairs() =~= oldpairs.update(
                                ci as int,
                                (component_name@, cat_map(newcat)),
                            ));
                            assert(oldpairs[ci as int].0 == component_name@);
                            lemma_assoc_update(oldpairs, ci as int, cat_map(newcat));
                            assert(oldcomp@ == old(self).cats()[component_name@][entity_id]);
                            assert(final(self).cats() == spec_update_field(
                                old(self).cats(),
                                entity_id,
                                component_name@,
                                field_name@,
                                value,
                            ));
                        }
                        true
                    },
                }
            },
        }
    }

    /// Read one field of one attached component; absent when the category,
    /// the entity's component, or the field itself is missing. Absence is a
    /// valid outcome, not an error.
    pub fn get_field(
        &self,
        entity_id: i64,
        component_name: &String,
        field_name: &String,
    ) -> (r: Option<FieldType>)
        requires
            self.wf(),
        ensures
            r == self.spec_field_at(entity_id, component_name@, field_name@),
    {
        let found = self.find_cat(component_name);
        match found {
            None => None,
            Some(ci) => {
                let entry = Self::find_entry(&self.components[ci].1, entity_id);
                match entry {
                    None => None,
                    Some(ei) => self.components[ci].1[ei].1.get(field_name),
                }
            },
        }
    }

    /// Combine a delta into one field: read it, and when present write back
    /// `combine` of the current value and the delta. Fails, with no effect,
    /// exactly when the field is absent.
    pub fn increment_field(
        &mut self,
        entity_id: i64,
        component_name: &String,
        field_name: &String,
        delta: FieldType,
    ) -> (ok: bool)
        requires
            old(self).wf(),
        ensures
            final(self).wf(),
            ok == (old(self).spec_field_at(entity_id, component_name@, field_name@) is Some),
            final(self).next_id == old(self).next_id,
            final(self).entities@ == old(self).entities@,
            ok ==> final(self).cats() == spec_update_field(
                old(self).cats(),
                entity_id,
                component_name@,
                field_name@,
                spec_combine(
                    old(self).spec_field_at(entity_id, component_name@, field_name@).unwrap(),
                    delta,
                ),
            ),
            !ok ==> *final(self) == *old(self),
    {
        let current = self.get_field(entity_id, component_name, field_name);
        match current {
            Some(value) => self.update_field(
                entity_id,
                component_name,
                field_name,
                combine(value, delta),
            ),
            None => false,
        }
    }

    /// The ids a query yields: all issued ids, intersected with each named
    /// category's id set in order; an unregistered name empties the result.
    /// An empty name list keeps the full set.
    pub open spec fn query_ids(self, names: Seq<Seq<char>>) -> Set<i64>
        decreases names.len(),
    {
        if names.len() == 0 {
            self.entities@.to_set()
        } else if self.cats().contains_key(names.last()) {
            self.query_ids(names.drop_last()).intersect(self.cats()[names.last()].dom())
        } else {
            Set::<i64>::empty()
        }
    }

    /// The query's surviving ids among the first `i` issued ones, in
    /// creation order.
    pub open spec fn surviving_prefix(self, names: Seq<Seq<char>>, i: int) -> Seq<i64> {
        self.entities@.subrange(0, i).filter(|id: i64| self.query_ids(names).contains(id))
    }

    /// The query's surviving ids, in creation order.
    pub open spec fn surviving_ids(self, names: Seq<Seq<char>>) -> Seq<i64> {
        self.surviving_prefix(names, self.entities@.len() as int)
    }

    /// An id survives a query exactly when it was issued and every queried
    /// name is a registered category whose id set holds it.
    pub proof fn lemma_query_ids_membership(self, names: Seq<Seq<char>>, id: i64)
        ensures
            self.query_ids(names).contains(id) <==> (self.entities@.to_set().contains(id)
                && forall|j: int|
                0 <= j < names.len() ==> self.cats().contains_key(#[trigger] names[j])
                    && self.cats()[names[j]].contains_key(id)),
        decreases names.len(),
    {
        if names.len() > 0 {
            self.lemma_query_ids_membership(names.drop_last(), id);
            assert(forall|j: int|
                0 <= j < names.len() - 1 ==> names.drop_last()[j] == #[trigger] names[j]);
            if self.query_ids(names).contains(id) {
                assert(self.cats().contains_key(names.last()));
                assert(forall|j: int|
                    0 <= j < names.len() ==> self.cats().contains_key(#[trigger] names[j])
                        && self.cats()[names[j]].contains_key(id));
            } else {
                if self.entities@.to_set().contains(id) && forall|j: int|
                    0 <= j < names.len() ==> self.cats().contains_key(#[trigger] names[j])
                        && self.cats()[names[j]].contains_key(id) {
                    assert(names[names.len() - 1] == names.last());
                    assert(self.query_ids(names.drop_last()).contains(id));
                    assert(self.query_ids(names).contains(id));
                    assert(false);
                }
            }
        }
    }

    /// Whether every queried name is a registered category holding the id.
    fn id_matches(&self, entity_id: i64, component_names: &Vec<String>) -> (r: bool)
        requires
            self.wf(),
        ensures
            r == (forall|j: int|
                0 <= j < component_names@.len() ==> self.cats().contains_key(
                    #[trigger] names_view(component_names@)[j],
                ) && self.cats()[names_view(component_names@)[j]].contains_key(entity_id)),
    {
        let n = component_names.len();
        let mut j: usize = 0;
        while j < n
            invariant
                self.wf(),
                n == component_names@.len(),
                j <= n,
                forall|k: int|
                    0 <= k < j ==> self.cats().contains_key(
                        #[trigger] names_view(component_names@)[k],
                    ) && self.cats()[names_view(component_names@)[k]].contains_key(entity_id),
            decreases n - j,
        {
            let found = self.find_cat(&component_names[j]);
            match found {
                None => {
                    proof {
                        assert(names_view(component_names@)[j as int] == component_names@[j as int]@);
                    }
                    return false;
                },
                Some(ci) => {
                    let entry = Self::find_entry(&self.components[ci].1, entity_id);
                    match entry {
                        None => {
                            proof {
                                assert(names_view(component_names@)[j as int]
                                    == component_names@[j as int]@);
                            }
                            return false;
                        },
                        Some(_) => {
                            proof {
                                assert(names_view(component_names@)[j as int]
                                    == component_names@[j as int]@);
                            }
                        },
                    }
                },
            }
            j = j + 1;
        }
        true
    }

    /// Query: materialize an entity view for every issued id that carries
    /// all the named components, in creation order. An empty name list
    /// returns every issued entity; an unregistered name returns none.
    pub fn get_entities_with_components(&self, component_names: &Vec<String>) -> (res: Vec<Entity>)
        requires
            self.wf(),
        ensures
            res@.len() == self.surviving_ids(names_view(component_names@)).len(),
            forall|i: int|
                0 <= i < res@.len() ==> (#[trigger] res@[i]).wf() && res@[i]@ == self.entity_view(
                    self.surviving_ids(names_view(component_names@))[i],
                ),
    {
        let ghost nv = names_view(component_names@);
        let mut res: Vec<Entity> = Vec::new();
        let n = self.entities.len();
        let mut i: usize = 0;
        while i < n
            invariant
                self.wf(),
                n == self.entities@.len(),
                i <= n,
                nv == names_view(component_names@),
                res@.len() == self.surviving_prefix(nv, i as int).len(),
                forall|k: int|
                    0 <= k < res@.len() ==> (#[trigger] res@[k]).wf() && res@[k]@
                        == self.entity_view(self.surviving_prefix(nv, i as int)[k]),
            decreases n - i,
        {
            let id = self.entities[i];
            let ghost sub0 = self.entities@.subrange(0, i as int);
            let ghost sub1 = self.entities@.subrange(0, i as int + 1);
            proof {
                assert(sub1.drop_last() =~= sub0);
                assert(sub1.last() == id);
                self.lemma_query_ids_membership(nv, id);
                assert(self.entities@.to_set().contains(id)) by {
                    assert(self.entities@[i as int] == id);
                }
            }
            let matched = self.id_matches(id, component_names);
            if matched {
                proof {
                    reveal(Seq::filter);
                    assert(self.query_ids(nv).contains(id));
                    assert(self.surviving_prefix(nv, i as int + 1) == self.surviving_prefix(
                        nv,
                        i as int,
                    ).push(id));
                }
                let e = self.get_entity(id);
                res.push(e);
            } else {
                proof {
                    reveal(Seq::filter);
                    assert(!self.query_ids(nv).contains(id));
                    assert(self.surviving_prefix(nv, i as int + 1) == self.surviving_prefix(
                        nv,
                        i as int,
                    ));
                }
            }
            i = i + 1;
        }
        proof {
            assert(self.entities@.subrange(0, n as int) =~= self.entities@);
        }
        res
    }
}

} // verus!
