//! The header fields emitted while decoding one header block.

use vstd::prelude::*;
use crate::header_field::{FieldModel, HeaderField, bytes_eq, copy_bytes, fields_model};

verus! {

/// The values of the fields of `s` named `name`, in order.
pub open spec fn values_of(s: Seq<FieldModel>, name: Seq<u8>) -> Seq<Seq<u8>>
    decreases s.len(),
{
    if s.len() == 0 {
        Seq::empty()
    } else if s.last().0 == name {
        values_of(s.drop_last(), name).push(s.last().1)
    } else {
        values_of(s.drop_last(), name)
    }
}

/// A multiset of header fields, kept in emission order.
#[derive(Clone)]
pub struct HeaderSet {
    fields: Vec<HeaderField>,
}

impl View for HeaderSet {
    type V = Seq<FieldModel>;

    closed spec fn view(&self) -> Seq<FieldModel> {
        fields_model(self.fields@)
    }
}

impl HeaderSet {
    /// An empty set.
    pub fn new() -> (r: HeaderSet)
        ensures
            r@ == Seq::<FieldModel>::empty(),
    {
        let r = HeaderSet { fields: Vec::new() };
        assert(r@ =~= Seq::<FieldModel>::empty());
        r
    }

    /// Adds a field.
    pub fn emit(&mut self, field: HeaderField)
        ensures
            final(self)@ == old(self)@.push(field@),
    {
        self.fields.push(field);
        assert(self@ =~= old(self)@.push(field@));
    }

    /// Number of fields emitted.
    pub fn len(&self) -> (r: usize)
        ensures
            r == self@.len(),
    {
        self.fields.len()
    }

    /// Copies of the fields, in emission order.
    pub fn get_header_fields(&self) -> (r: Vec<HeaderField>)
        ensures
            fields_model(r@) == self@,
    {
        let mut r: Vec<HeaderField> = Vec::new();
        let mut i: usize = 0;
        while i < self.fields.len()
            invariant
                i <= self.fields@.len(),
                fields_model(r@) == self@.subrange(0, i as int),
            decreases self.fields@.len() - i,
        {
            let ghost prev = fields_model(r@);
            r.push(self.fields[i].duplicate());
            assert(fields_model(r@) =~= prev.push(self@[i as int]));
            i = i + 1;
            assert(fields_model(r@) =~= self@.subrange(0, i as int));
        }
        assert(self@.subrange(0, self@.len() as int) =~= self@);
        r
    }

    /// Whether `field` was emitted.
    pub fn contains(&self, field: &HeaderField) -> (r: bool)
        ensures
            r == self@.contains(field@),
    {
        let mut i: usize = 0;
        while i < self.fields.len()
            invariant
                i <= self.fields@.len(),
                forall|j: int| 0 <= j < i ==> self@[j] != field@,
            decreases self.fields@.len() - i,
        {
            if self.fields[i].same_as(field) {
                assert(self@[i as int] == field@);
                return true;
            }
            i = i + 1;
        }
        false
    }

    /// The values emitted under `name`, in emission order.
    pub fn get(&self, name: &[u8]) -> (r: Vec<Vec<u8>>)
        ensures
            r@.map_values(|v: Vec<u8>| v@) == values_of(self@, name@),
    {
        let mut r: Vec<Vec<u8>> = Vec::new();
        let mut i: usize = 0;
        while i < self.fields.len()
            invariant
                i <= self.fields@.len(),
                r@.map_values(|v: Vec<u8>| v@) == values_of(self@.subrange(0, i as int), name@),
            decreases self.fields@.len() - i,
        {
            let ghost sub = self@.subrange(0, i as int);
            let ghost sub2 = self@.subrange(0, i + 1);
            let ghost prev = r@.map_values(|v: Vec<u8>| v@);
            proof {
                assert(sub2.drop_last() =~= sub);
                assert(sub2.last() == self@[i as int]);
                assert(self@[i as int].0 == self.fields@[i as int].key@);
            }
            if bytes_eq(self.fields[i].key.as_slice(), name) {
                r.push(copy_bytes(self.fields[i].value.as_slice()));
                assert(r@.map_values(|v: Vec<u8>| v@) =~= prev.push(self@[i as int].1));
            }
            i = i + 1;
        }
        assert(self@.subrange(0, self@.len() as int) =~= self@);
        r
    }
}

} // verus!
