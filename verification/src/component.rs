use vstd::prelude::*;

use crate::assoc::assoc_map;
use crate::assoc::distinct_keys;
use crate::assoc::has_key;
use crate::assoc::lemma_assoc_absent;
use crate::assoc::lemma_assoc_at;
use crate::assoc::lemma_assoc_push;
use crate::assoc::lemma_assoc_update;
use crate::field::FieldType;

verus! {

/// A named bag of tagged numeric fields, stored as (field name, value)
/// pairs with pairwise distinct names.
#[derive(Debug)]
pub struct Component {
    pub fields: Vec<(String, FieldType)>,
}

impl View for Component {
    type V = Map<Seq<char>, FieldType>;

    open spec fn view(&self) -> Map<Seq<char>, FieldType> {
        assoc_map(self.pairs())
    }
}

impl Component {
    /// The stored pairs, with each name taken as its character sequence.
    pub open spec fn pairs(self) -> Seq<(Seq<char>, FieldType)> {
        self.fields@.map_values(|p: (String, FieldType)| (p.0@, p.1))
    }

    /// Field names are pairwise distinct.
    pub open spec fn wf(self) -> bool {
        distinct_keys(self.pairs())
    }

    /// The stored value of a field, absent when the field was never written.
    pub open spec fn spec_get(self, name: Seq<char>) -> Option<FieldType> {
        if self@.contains_key(name) {
            Some(self@[name])
        } else {
            None
        }
    }

    /// A component with no fields.
    pub fn new() -> (c: Component)
        ensures
            c.wf(),
            c@ == Map::<Seq<char>, FieldType>::empty(),
    {
        Component { fields: Vec::new() }
    }

    /// Read one field by name.
    pub fn get(&self, name: &String) -> (r: Option<FieldType>)
        requires
            self.wf(),
        ensures
            r == self.spec_get(name@),
    {
        let n = self.fields.len();
        let mut i: usize = 0;
        while i < n
            invariant
                n == self.fields.len(),
                i <= n,
                self.wf(),
                forall|j: int| 0 <= j < i ==> (#[trigger] self.pairs()[j]).0 != name@,
            decreases n - i,
        {
            if self.fields[i].0 == *name {
                proof {
                    assert(self.pairs()[i as int].0 == name@);
                    lemma_assoc_at(self.pairs(), i as int);
                }
                return Some(self.fields[i].1);
            }
            proof {
                assert(self.pairs()[i as int].0 == self.fields@[i as int].0@);
            }
            i = i + 1;
        }
        proof {
            lemma_assoc_absent(self.pairs(), name@);
        }
        None
    }

    /// Write one field by name, inserting it or overwriting it
    /// unconditionally.
    pub fn set(&mut self, name: &String, value: FieldType)
        requires
            old(self).wf(),
        ensures
            final(self).wf(),
            final(self)@ == old(self)@.insert(name@, value),
    {
        let n = self.fields.len();
        let mut i: usize = 0;
        while i < n
            invariant
                n == self.fields.len(),
                i <= n,
                self.wf(),
                *self == *old(self),
                forall|j: int| 0 <= j < i ==> (#[trigger] self.pairs()[j]).0 != name@,
            decreases n - i,
        {
            if self.fields[i].0 == *name {
                proof {
                    assert(self.pairs()[i as int].0 == name@);
                }
                let ghost oldpairs = self.pairs();
                self.fields[i] = (name.clone(), value);
                proof {
                    assert(self.pairs() =~= oldpairs.update(i as int, (name@, value)));
                    lemma_assoc_update(oldpairs, i as int, value);
                }
                return ;
            }
            proof {
                assert(self.pairs()[i as int].0 == self.fields@[i as int].0@);
            }
            i = i + 1;
        }
        proof {
            assert(!has_key(self.pairs(), name@));
        }
        let ghost oldpairs = self.pairs();
        self.fields.push((name.clone(), value));
        proof {
            assert(self.pairs() =~= oldpairs.push((name@, value)));
            lemma_assoc_push(oldpairs, name@, value);
        }
    }
}

impl Clone for Component {
    /// A field-for-field copy denoting the same map.
    fn clone(&self) -> (c: Self)
        ensures
            c.fields@ == self.fields@,
    {
        let n = self.fields.len();
        let mut out: Vec<(String, FieldType)> = Vec::new();
        let mut i: usize = 0;
        while i < n
            invariant
                n == self.fields.len(),
                i <= n,
                out@ =~= self.fields@.subrange(0, i as int),
            decreases n - i,
        {
            out.push((self.fields[i].0.clone(), self.fields[i].1));
            i = i + 1;
        }
        proof {
            assert(out@ =~= self.fields@);
        }
        Component { fields: out }
    }
}

} // verus!
