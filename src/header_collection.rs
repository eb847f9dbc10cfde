//! Header fields grouped by name: each name maps to its values in the
//! order they were added.

use vstd::prelude::*;
use crate::header_field::{FieldModel, HeaderField, fields_model};
use crate::header_set::{HeaderSet, values_of};

verus! {

/// A multimap from header name to values.
#[derive(Clone)]
pub struct HeaderCollection {
    header_fields: HeaderSet,
}

impl View for HeaderCollection {
    type V = Seq<FieldModel>;

    closed spec fn view(&self) -> Seq<FieldModel> {
        self.header_fields@
    }
}

impl HeaderCollection {
    /// An empty collection.
    pub fn new() -> (r: HeaderCollection)
        ensures
            r@ == Seq::<FieldModel>::empty(),
    {
        HeaderCollection { header_fields: HeaderSet::new() }
    }

    /// Adds `value` as the last value of `key`.
    pub fn add(&mut self, key: Vec<u8>, value: Vec<u8>)
        ensures
            final(self)@ == old(self)@.push((key@, value@)),
            values_of(final(self)@, key@) == values_of(old(self)@, key@).push(value@),
    {
        self.header_fields.emit(HeaderField::new(key, value));
        proof {
            assert(self@.drop_last() =~= old(self)@);
        }
    }

    /// The values of `key`, in the order they were added.
    pub fn get(&self, key: &[u8]) -> (r: Vec<Vec<u8>>)
        ensures
            r@.map_values(|v: Vec<u8>| v@) == values_of(self@, key@),
    {
        self.header_fields.get(key)
    }

    /// Adds every value of `other` after those of this collection.
    pub fn merge(&mut self, other: HeaderCollection)
        ensures
            final(self)@ == old(self)@ + other@,
    {
        let fields = other.header_fields.get_header_fields();
        let mut i: usize = 0;
        while i < fields.len()
            invariant
                i <= fields@.len(),
                fields_model(fields@) == other@,
                self@ == old(self)@ + other@.subrange(0, i as int),
            decreases fields@.len() - i,
        {
            let f = fields[i].duplicate();
            self.add(f.key, f.value);
            i = i + 1;
            assert(self@ =~= old(self)@ + other@.subrange(0, i as int));
        }
        assert(other@.subrange(0, other@.len() as int) =~= other@);
    }
}

} // verus!
