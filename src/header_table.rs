//! The dynamic header table: newest entry first, bounded in octets.

use vstd::prelude::*;
use crate::header_field::{FieldModel, HeaderField, field_fits, field_size, fields_model, find_field, get_field, is_find_result};

verus! {

/// Default maximum size of a dynamic table, in octets.
pub const DEFAULT_HEADER_TABLE_SIZE: usize = 4096;

/// Largest maximum size a table accepts: the largest decodable integer.
pub const MAX_TABLE_SIZE: usize = 0xFFFF_FFFF;

/// Sum of the sizes of the fields of `s`.
pub open spec fn seq_size(s: Seq<FieldModel>) -> nat
    decreases s.len(),
{
    if s.len() == 0 {
        0
    } else {
        seq_size(s.drop_last()) + field_size(s.last())
    }
}

/// All fields of `s` fit the integer codec.
pub open spec fn all_fit(s: Seq<FieldModel>) -> bool {
    forall|i: int| 0 <= i < s.len() ==> field_fits(#[trigger] s[i])
}

pub proof fn lemma_seq_size_concat(a: Seq<FieldModel>, b: Seq<FieldModel>)
    ensures
        seq_size(a + b) == seq_size(a) + seq_size(b),
    decreases b.len(),
{
    if b.len() == 0 {
        assert(a + b =~= a);
    } else {
        lemma_seq_size_concat(a, b.drop_last());
        assert((a + b).drop_last() =~= a + b.drop_last());
    }
}

/// Every entry takes at least 32 octets.
pub proof fn lemma_seq_size_min(s: Seq<FieldModel>)
    ensures
        seq_size(s) >= 32 * s.len(),
    decreases s.len(),
{
    if s.len() > 0 {
        lemma_seq_size_min(s.drop_last());
    }
}

pub proof fn lemma_seq_size_prepend(f: FieldModel, s: Seq<FieldModel>)
    ensures
        seq_size(seq![f] + s) == field_size(f) + seq_size(s),
{
    lemma_seq_size_concat(seq![f], s);
    assert(seq![f].drop_last() =~= Seq::<FieldModel>::empty());
    assert(seq_size(seq![f]) == seq_size(Seq::<FieldModel>::empty()) + field_size(f));
}

pub proof fn lemma_seq_size_remove(s: Seq<FieldModel>, i: int)
    requires
        0 <= i < s.len(),
    ensures
        seq_size(s.remove(i)) + field_size(s[i]) == seq_size(s),
{
    let a = s.subrange(0, i);
    let b = s.subrange(i + 1, s.len() as int);
    lemma_seq_size_concat(a, b);
    lemma_seq_size_concat(a, seq![s[i]] + b);
    lemma_seq_size_prepend(s[i], b);
    assert(s.remove(i) =~= a + b);
    assert(s =~= a + (seq![s[i]] + b));
}

/// The dynamic table of a compression context.
pub struct HeaderTable {
    fields: Vec<HeaderField>,
    max_size: usize,
    size: u64,
}

impl View for HeaderTable {
    type V = Seq<FieldModel>;

    closed spec fn view(&self) -> Seq<FieldModel> {
        fields_model(self.fields@)
    }
}

impl HeaderTable {
    /// The configured maximum size in octets.
    pub closed spec fn max(&self) -> nat {
        self.max_size as nat
    }

    /// The cached size equals the sum of the entry sizes, every entry fits
    /// the integer codec, and the maximum is within bounds.
    pub closed spec fn wf(&self) -> bool {
        &&& self.size as nat == seq_size(self@)
        &&& all_fit(self@)
        &&& self.max_size <= MAX_TABLE_SIZE
    }

    /// What well-formedness gives callers.
    pub proof fn lemma_wf(&self)
        requires
            self.wf(),
        ensures
            all_fit(self@),
            self.max() <= MAX_TABLE_SIZE,
    {
    }

    /// An empty table with the given maximum size.
    pub fn new(max_size: usize) -> (r: HeaderTable)
        requires
            max_size <= MAX_TABLE_SIZE,
        ensures
            r.wf(),
            r@ == Seq::<FieldModel>::empty(),
            r.max() == max_size,
    {
        let r = HeaderTable { fields: Vec::new(), max_size, size: 0 };
        assert(r@ =~= Seq::<FieldModel>::empty());
        r
    }

    /// Sets the maximum size; entries are left as they are (see the
    /// context for eviction).
    pub fn set_max_size(&mut self, new_max_size: usize)
        requires
            old(self).wf(),
            new_max_size <= MAX_TABLE_SIZE,
        ensures
            final(self).wf(),
            final(self)@ == old(self)@,
            final(self).max() == new_max_size,
    {
        self.max_size = new_max_size;
    }

    /// The maximum size in octets.
    pub fn get_max_size(&self) -> (r: usize)
        ensures
            r == self.max(),
    {
        self.max_size
    }

    /// Searches the table for `hf`: the first full match, else the last
    /// entry with the same name, else nothing.
    pub fn find(&self, hf: HeaderField) -> (r: Option<(usize, bool)>)
        ensures
            is_find_result(self@, hf@, r),
    {
        find_field(&self.fields, &hf)
    }

    /// The size of the table in octets: the sum of its entries' sizes.
    pub fn size(&self) -> (r: u64)
        requires
            self.wf(),
        ensures
            r as nat == seq_size(self@),
    {
        self.size
    }

    /// Number of entries.
    pub fn len(&self) -> (r: usize)
        ensures
            r == self@.len(),
    {
        self.fields.len()
    }

    /// Prepends a field: it becomes entry 1.
    pub fn add(&mut self, field: HeaderField)
        requires
            old(self).wf(),
            field_fits(field@),
            seq_size(old(self)@) + field_size(field@) <= u64::MAX,
        ensures
            final(self).wf(),
            final(self)@ == seq![field@] + old(self)@,
            final(self).max() == old(self).max(),
    {
        let s = field.size();
        self.fields.insert(0, field);
        self.size = self.size + s;
        proof {
            assert(self@ =~= seq![field@] + old(self)@);
            lemma_seq_size_prepend(field@, old(self)@);
        }
    }

    /// A copy of the entry at 1-based `index`, if there is one.
    pub fn get(&self, index: usize) -> (r: Option<HeaderField>)
        ensures
            r is Some <==> 1 <= index <= self@.len(),
            r matches Some(h) ==> h@ == self@[index - 1],
    {
        get_field(&self.fields, index)
    }

    /// Removes and returns the entry at 1-based `index`; the later entries
    /// move up by one. `None` when there is no such entry.
    pub fn remove(&mut self, index: usize) -> (r: Option<HeaderField>)
        requires
            old(self).wf(),
        ensures
            final(self).wf(),
            final(self).max() == old(self).max(),
            r is Some <==> 1 <= index <= old(self)@.len(),
            r matches Some(h) ==> h@ == old(self)@[index - 1] && final(self)@ == old(self)@.remove(
                index - 1,
            ),
            r is None ==> final(self)@ == old(self)@,
    {
        if index < 1 || index > self.fields.len() {
            return None;
        }
        proof {
            lemma_seq_size_remove(self@, index - 1);
        }
        let h = self.fields.remove(index - 1);
        let s = h.size();
        self.size = self.size - s;
        proof {
            assert(self@ =~= old(self)@.remove(index - 1));
        }
        Some(h)
    }
}

} // verus!
