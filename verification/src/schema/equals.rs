//! Equality of schema elements: two elements are equal when their models
//! are.

use super::elements::{
    lemma_views, opt_str_view, strings_view, Atom, List, Schema, SchemaMap, StructField, TypeDef, TypeRef, Union,
    UnionField,
};
use crate::value::str_equal;
use vstd::prelude::*;

verus! {

fn opt_string_eq(a: &Option<String>, b: &Option<String>) -> (r: bool)
    ensures
        r == (opt_str_view(*a) == opt_str_view(*b)),
{
    match (a, b) {
        (Some(x), Some(y)) => str_equal(x.as_str(), y.as_str()),
        (None, None) => true,
        _ => false,
    }
}

fn strings_eq(a: &Vec<String>, b: &Vec<String>) -> (r: bool)
    ensures
        r == (strings_view(a@) == strings_view(b@)),
{
    if a.len() != b.len() {
        proof {
            assert(strings_view(a@).len() != strings_view(b@).len());
        }
        return false;
    }
    let mut i: usize = 0;
    while i < a.len()
        invariant
            a@.len() == b@.len(),
            i <= a@.len(),
            forall|j: int| 0 <= j < i ==> #[trigger] a@[j]@ == b@[j]@,
        decreases a@.len() - i,
    {
        if !str_equal(a[i].as_str(), b[i].as_str()) {
            proof {
                assert(strings_view(a@)[i as int] != strings_view(b@)[i as int]);
            }
            return false;
        }
        i = i + 1;
    }
    proof {
        assert(strings_view(a@) =~= strings_view(b@));
    }
    true
}

impl PartialEq for TypeRef {
    fn eq(&self, other: &TypeRef) -> (r: bool)
        decreases self,
    {
        proof {
            lemma_views(*self, *self.inlined, arbitrary(), arbitrary(), arbitrary());
            lemma_views(*other, *other.inlined, arbitrary(), arbitrary(), arbitrary());
        }
        if !opt_string_eq(&self.named_type, &other.named_type) {
            return false;
        }
        if self.element_relationship != other.element_relationship {
            return false;
        }
        (&*self.inlined).eq(&*other.inlined)
    }
}

impl vstd::std_specs::cmp::PartialEqSpecImpl for TypeRef {
    open spec fn obeys_eq_spec() -> bool {
        true
    }

    open spec fn eq_spec(&self, other: &TypeRef) -> bool {
        self@ == other@
    }
}

impl Eq for TypeRef {}

impl PartialEq for Atom {
    fn eq(&self, other: &Atom) -> (r: bool)
        decreases self,
    {
        proof {
            lemma_views(arbitrary(), *self, arbitrary(), arbitrary(), arbitrary());
            lemma_views(arbitrary(), *other, arbitrary(), arbitrary(), arbitrary());
        }
        if self.scalar != other.scalar {
            return false;
        }
        let lists = match (&self.list, &other.list) {
            (Some(a), Some(b)) => a.eq(b),
            (None, None) => true,
            _ => false,
        };
        if !lists {
            return false;
        }
        match (&self.map, &other.map) {
            (Some(a), Some(b)) => a.eq(b),
            (None, None) => true,
            _ => false,
        }
    }
}

impl vstd::std_specs::cmp::PartialEqSpecImpl for Atom {
    open spec fn obeys_eq_spec() -> bool {
        true
    }

    open spec fn eq_spec(&self, other: &Atom) -> bool {
        self@ == other@
    }
}

impl Eq for Atom {}

impl PartialEq for List {
    fn eq(&self, other: &List) -> (r: bool)
        decreases self,
    {
        proof {
            lemma_views(arbitrary(), arbitrary(), *self, arbitrary(), arbitrary());
            lemma_views(arbitrary(), arbitrary(), *other, arbitrary(), arbitrary());
        }
        if !self.element_type.eq(&other.element_type) {
            return false;
        }
        if self.element_relationship != other.element_relationship {
            return false;
        }
        strings_eq(&self.keys, &other.keys)
    }
}

impl vstd::std_specs::cmp::PartialEqSpecImpl for List {
    open spec fn obeys_eq_spec() -> bool {
        true
    }

    open spec fn eq_spec(&self, other: &List) -> bool {
        self@ == other@
    }
}

impl Eq for List {}

impl PartialEq for UnionField {
    fn eq(&self, other: &UnionField) -> (r: bool) {
        str_equal(self.field_name.as_str(), other.field_name.as_str()) && str_equal(
            self.discriminator_value.as_str(),
            other.discriminator_value.as_str(),
        )
    }
}

impl vstd::std_specs::cmp::PartialEqSpecImpl for UnionField {
    open spec fn obeys_eq_spec() -> bool {
        true
    }

    open spec fn eq_spec(&self, other: &UnionField) -> bool {
        self@ == other@
    }
}

impl Eq for UnionField {}

impl PartialEq for Union {
    fn eq(&self, other: &Union) -> (r: bool) {
        if !opt_string_eq(&self.discriminator, &other.discriminator) {
            return false;
        }
        if self.deduce_invalid_discriminator != other.deduce_invalid_discriminator {
            return false;
        }
        if self.fields.len() != other.fields.len() {
            proof {
                assert(self@.fields.len() != other@.fields.len());
            }
            return false;
        }
        let mut i: usize = 0;
        while i < self.fields.len()
            invariant
                self.fields@.len() == other.fields@.len(),
                i <= self.fields@.len(),
                forall|j: int| 0 <= j < i ==> #[trigger] self.fields@[j]@ == other.fields@[j]@,
            decreases self.fields@.len() - i,
        {
            if !self.fields[i].eq(&other.fields[i]) {
                proof {
                    assert(self@.fields[i as int] != other@.fields[i as int]);
                }
                return false;
            }
            i = i + 1;
        }
        proof {
            assert(self@.fields =~= other@.fields);
        }
        true
    }
}

impl vstd::std_specs::cmp::PartialEqSpecImpl for Union {
    open spec fn obeys_eq_spec() -> bool {
        true
    }

    open spec fn eq_spec(&self, other: &Union) -> bool {
        self@ == other@
    }
}

impl Eq for Union {}

impl PartialEq for StructField {
    fn eq(&self, other: &StructField) -> (r: bool)
        decreases self,
    {
        proof {
            lemma_views(arbitrary(), arbitrary(), arbitrary(), arbitrary(), *self);
            lemma_views(arbitrary(), arbitrary(), arbitrary(), arbitrary(), *other);
        }
        if !str_equal(self.name.as_str(), other.name.as_str()) {
            return false;
        }
        let defaults = match (&self.default, &other.default) {
            (Some(a), Some(b)) => a.eq(b),
            (None, None) => true,
            _ => false,
        };
        if !defaults {
            return false;
        }
        self.field_type.eq(&other.field_type)
    }
}

impl vstd::std_specs::cmp::PartialEqSpecImpl for StructField {
    open spec fn obeys_eq_spec() -> bool {
        true
    }

    open spec fn eq_spec(&self, other: &StructField) -> bool {
        self@ == other@
    }
}

impl Eq for StructField {}

impl PartialEq for SchemaMap {
    fn eq(&self, other: &SchemaMap) -> (r: bool)
        decreases self,
    {
        proof {
            lemma_views(arbitrary(), arbitrary(), arbitrary(), *self, arbitrary());
            lemma_views(arbitrary(), arbitrary(), arbitrary(), *other, arbitrary());
        }
        if !self.element_type.eq(&other.element_type) {
            return false;
        }
        if self.element_relationship != other.element_relationship {
            return false;
        }
        if self.fields.len() != other.fields.len() {
            proof {
                assert(self@.fields.len() != other@.fields.len());
            }
            return false;
        }
        let mut i: usize = 0;
        while i < self.fields.len()
            invariant
                self.fields@.len() == other.fields@.len(),
                i <= self.fields@.len(),
                forall|j: int| 0 <= j < i ==> #[trigger] self.fields@[j]@ == other.fields@[j]@,
            decreases self.fields@.len() - i,
        {
            if !self.fields[i].eq(&other.fields[i]) {
                proof {
                    lemma_views(arbitrary(), arbitrary(), arbitrary(), *self, arbitrary());
                    lemma_views(arbitrary(), arbitrary(), arbitrary(), *other, arbitrary());
                    assert(self@.fields[i as int] != other@.fields[i as int]);
                }
                return false;
            }
            i = i + 1;
        }
        if self.unions.len() != other.unions.len() {
            proof {
                assert(self@.unions.len() != other@.unions.len());
            }
            return false;
        }
        let mut k: usize = 0;
        while k < self.unions.len()
            invariant
                self.unions@.len() == other.unions@.len(),
                k <= self.unions@.len(),
                forall|j: int| 0 <= j < k ==> #[trigger] self.unions@[j]@ == other.unions@[j]@,
            decreases self.unions@.len() - k,
        {
            if !self.unions[k].eq(&other.unions[k]) {
                proof {
                    lemma_views(arbitrary(), arbitrary(), arbitrary(), *self, arbitrary());
                    lemma_views(arbitrary(), arbitrary(), arbitrary(), *other, arbitrary());
                    assert(self@.unions[k as int] != other@.unions[k as int]);
                }
                return false;
            }
            k = k + 1;
        }
        proof {
            assert(self@.fields =~= other@.fields);
            assert(self@.unions =~= other@.unions);
        }
        true
    }
}

impl vstd::std_specs::cmp::PartialEqSpecImpl for SchemaMap {
    open spec fn obeys_eq_spec() -> bool {
        true
    }

    open spec fn eq_spec(&self, other: &SchemaMap) -> bool {
        self@ == other@
    }
}

impl Eq for SchemaMap {}

impl PartialEq for TypeDef {
    fn eq(&self, other: &TypeDef) -> (r: bool) {
        str_equal(self.name.as_str(), other.name.as_str()) && self.atom.eq(&other.atom)
    }
}

impl vstd::std_specs::cmp::PartialEqSpecImpl for TypeDef {
    open spec fn obeys_eq_spec() -> bool {
        true
    }

    open spec fn eq_spec(&self, other: &TypeDef) -> bool {
        self@ == other@
    }
}

impl Eq for TypeDef {}

impl PartialEq for Schema {
    fn eq(&self, other: &Schema) -> (r: bool) {
        if self.types.len() != other.types.len() {
            proof {
                assert(self@.len() != other@.len());
            }
            return false;
        }
        let mut i: usize = 0;
        while i < self.types.len()
            invariant
                self.types@.len() == other.types@.len(),
                i <= self.types@.len(),
                forall|j: int| 0 <= j < i ==> #[trigger] self.types@[j]@ == other.types@[j]@,
            decreases self.types@.len() - i,
        {
            if !self.types[i].eq(&other.types[i]) {
                proof {
                    assert(self@[i as int] == self.types@[i as int]@);
                    assert(other@[i as int] == other.types@[i as int]@);
                }
                return false;
            }
            i = i + 1;
        }
        proof {
            assert forall|j: int| 0 <= j < self@.len() implies #[trigger] self@[j] == other@[j] by {
                assert(self@[j] == self.types@[j]@);
                assert(other@[j] == other.types@[j]@);
            }
            assert(self@ =~= other@);
        }
        true
    }
}

impl vstd::std_specs::cmp::PartialEqSpecImpl for Schema {
    open spec fn obeys_eq_spec() -> bool {
        true
    }

    open spec fn eq_spec(&self, other: &Schema) -> bool {
        self@ == other@
    }
}

impl Eq for Schema {}

} // verus!
