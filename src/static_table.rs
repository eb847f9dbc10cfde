//! The static table of draft 07, Appendix B: 61 fixed entries.

use vstd::prelude::*;
use crate::header_field::{FieldModel, field_fits, HeaderField, copy_bytes, fields_model, find_field, get_field, is_find_result};

verus! {

/// Number of entries in the static table.
pub const STATIC_TABLE_LEN: usize = 61;

/// The entry at 1-based `index` of the static table.
pub open spec fn static_entry(index: int) -> FieldModel {
    if index == 1 {
        (seq![58u8, 97, 117, 116, 104, 111, 114, 105, 116, 121], Seq::<u8>::empty())
    } else if index == 2 {
        (seq![58u8, 109, 101, 116, 104, 111, 100], seq![71u8, 69, 84])
    } else if index == 3 {
        (seq![58u8, 109, 101, 116, 104, 111, 100], seq![80u8, 79, 83, 84])
    } else if index == 4 {
        (seq![58u8, 112, 97, 116, 104], seq![47u8])
    } else if index == 5 {
        (seq![58u8, 112, 97, 116, 104], seq![47u8, 105, 110, 100, 101, 120, 46, 104, 116, 109, 108])
    } else if index == 6 {
        (seq![58u8, 115, 99, 104, 101, 109, 101], seq![104u8, 116, 116, 112])
    } else if index == 7 {
        (seq![58u8, 115, 99, 104, 101, 109, 101], seq![104u8, 116, 116, 112, 115])
    } else if index == 8 {
        (seq![58u8, 115, 116, 97, 116, 117, 115], seq![50u8, 48, 48])
    } else if index == 9 {
        (seq![58u8, 115, 116, 97, 116, 117, 115], seq![50u8, 48, 52])
    } else if index == 10 {
        (seq![58u8, 115, 116, 97, 116, 117, 115], seq![50u8, 48, 54])
    } else if index == 11 {
        (seq![58u8, 115, 116, 97, 116, 117, 115], seq![51u8, 48, 52])
    } else if index == 12 {
        (seq![58u8, 115, 116, 97, 116, 117, 115], seq![52u8, 48, 48])
    } else if index == 13 {
        (seq![58u8, 115, 116, 97, 116, 117, 115], seq![52u8, 48, 52])
    } else if index == 14 {
        (seq![58u8, 115, 116, 97, 116, 117, 115], seq![53u8, 48, 48])
    } else if index == 15 {
        (seq![97u8, 99, 99, 101, 112, 116, 45, 99, 104, 97, 114, 115, 101, 116], Seq::<u8>::empty())
    } else if index == 16 {
        (seq![97u8, 99, 99, 101, 112, 116, 45, 101, 110, 99, 111, 100, 105, 110, 103], Seq::<u8>::empty())
    } else if index == 17 {
        (seq![97u8, 99, 99, 101, 112, 116, 45, 108, 97, 110, 103, 117, 97, 103, 101], Seq::<u8>::empty())
    } else if index == 18 {
        (seq![97u8, 99, 99, 101, 112, 116, 45, 114, 97, 110, 103, 101, 115], Seq::<u8>::empty())
    } else if index == 19 {
        (seq![97u8, 99, 99, 101, 112, 116], Seq::<u8>::empty())
    } else if index == 20 {
        (seq![97u8, 99, 99, 101, 115, 115, 45, 99, 111, 110, 116, 114, 111, 108, 45, 97, 108, 108, 111, 119, 45, 111, 114, 105, 103, 105, 110], Seq::<u8>::empty())
    } else if index == 21 {
        (seq![97u8, 103, 101], Seq::<u8>::empty())
    } else if index == 22 {
        (seq![97u8, 108, 108, 111, 119], Seq::<u8>::empty())
    } else if index == 23 {
        (seq![97u8, 117, 116, 104, 111, 114, 105, 122, 97, 116, 105, 111, 110], Seq::<u8>::empty())
    } else if index == 24 {
        (seq![99u8, 97, 99, 104, 101, 45, 99, 111, 110, 116, 114, 111, 108], Seq::<u8>::empty())
    } else if index == 25 {
        (seq![99u8, 111, 110, 116, 101, 110, 116, 45, 100, 105, 115, 112, 111, 115, 105, 116, 105, 111, 110], Seq::<u8>::empty())
    } else if index == 26 {
        (seq![99u8, 111, 110, 116, 101, 110, 116, 45, 101, 110, 99, 111, 100, 105, 110, 103], Seq::<u8>::empty())
    } else if index == 27 {
        (seq![99u8, 111, 110, 116, 101, 110, 116, 45, 108, 97, 110, 103, 117, 97, 103, 101], Seq::<u8>::empty())
    } else if index == 28 {
        (seq![99u8, 111, 110, 116, 101, 110, 116, 45, 108, 101, 110, 103, 116, 104], Seq::<u8>::empty())
    } else if index == 29 {
        (seq![99u8, 111, 110, 116, 101, 110, 116, 45, 108, 111, 99, 97, 116, 105, 111, 110], Seq::<u8>::empty())
    } else if index == 30 {
        (seq![99u8, 111, 110, 116, 101, 110, 116, 45, 114, 97, 110, 103, 101], Seq::<u8>::empty())
    } else if index == 31 {
        (seq![99u8, 111, 110, 116, 101, 110, 116, 45, 116, 121, 112, 101], Seq::<u8>::empty())
    } else if index == 32 {
        (seq![99u8, 111, 111, 107, 105, 101], Seq::<u8>::empty())
    } else if index == 33 {
        (seq![100u8, 97, 116, 101], Seq::<u8>::empty())
    } else if index == 34 {
        (seq![101u8, 116, 97, 103], Seq::<u8>::empty())
    } else if index == 35 {
        (seq![101u8, 120, 112, 101, 99, 116], Seq::<u8>::empty())
    } else if index == 36 {
        (seq![101u8, 120, 112, 105, 114, 101, 115], Seq::<u8>::empty())
    } else if index == 37 {
        (seq![102u8, 114, 111, 109], Seq::<u8>::empty())
    } else if index == 38 {
        (seq![104u8, 111, 115, 116], Seq::<u8>::empty())
    } else if index == 39 {
        (seq![105u8, 102, 45, 109, 97, 116, 99, 104], Seq::<u8>::empty())
    } else if index == 40 {
        (seq![105u8, 102, 45, 109, 111, 100, 105, 102, 105, 101, 100, 45, 115, 105, 110, 99, 101], Seq::<u8>::empty())
    } else if index == 41 {
        (seq![105u8, 102, 45, 110, 111, 110, 101, 45, 109, 97, 116, 99, 104], Seq::<u8>::empty())
    } else if index == 42 {
        (seq![105u8, 102, 45, 114, 97, 110, 103, 101], Seq::<u8>::empty())
    } else if index == 43 {
        (seq![105u8, 102, 45, 117, 110, 109, 111, 100, 105, 102, 105, 101, 100, 45, 115, 105, 110, 99, 101], Seq::<u8>::empty())
    } else if index == 44 {
        (seq![108u8, 97, 115, 116, 45, 109, 111, 100, 105, 102, 105, 101, 100], Seq::<u8>::empty())
    } else if index == 45 {
        (seq![108u8, 105, 110, 107], Seq::<u8>::empty())
    } else if index == 46 {
        (seq![108u8, 111, 99, 97, 116, 105, 111, 110], Seq::<u8>::empty())
    } else if index == 47 {
        (seq![109u8, 97, 120, 45, 102, 111, 114, 119, 97, 114, 100, 115], Seq::<u8>::empty())
    } else if index == 48 {
        (seq![112u8, 114, 111, 120, 121, 45, 97, 117, 116, 104, 101, 110, 116, 105, 99, 97, 116, 101], Seq::<u8>::empty())
    } else if index == 49 {
        (seq![112u8, 114, 111, 120, 121, 45, 97, 117, 116, 104, 111, 114, 105, 122, 97, 116, 105, 111, 110], Seq::<u8>::empty())
    } else if index == 50 {
        (seq![114u8, 97, 110, 103, 101], Seq::<u8>::empty())
    } else if index == 51 {
        (seq![114u8, 101, 102, 101, 114, 101, 114], Seq::<u8>::empty())
    } else if index == 52 {
        (seq![114u8, 101, 102, 114, 101, 115, 104], Seq::<u8>::empty())
    } else if index == 53 {
        (seq![114u8, 101, 116, 114, 121, 45, 97, 102, 116, 101, 114], Seq::<u8>::empty())
    } else if index == 54 {
        (seq![115u8, 101, 114, 118, 101, 114], Seq::<u8>::empty())
    } else if index == 55 {
        (seq![115u8, 101, 116, 45, 99, 111, 111, 107, 105, 101], Seq::<u8>::empty())
    } else if index == 56 {
        (seq![115u8, 116, 114, 105, 99, 116, 45, 116, 114, 97, 110, 115, 112, 111, 114, 116, 45, 115, 101, 99, 117, 114, 105, 116, 121], Seq::<u8>::empty())
    } else if index == 57 {
        (seq![116u8, 114, 97, 110, 115, 102, 101, 114, 45, 101, 110, 99, 111, 100, 105, 110, 103], Seq::<u8>::empty())
    } else if index == 58 {
        (seq![117u8, 115, 101, 114, 45, 97, 103, 101, 110, 116], Seq::<u8>::empty())
    } else if index == 59 {
        (seq![118u8, 97, 114, 121], Seq::<u8>::empty())
    } else if index == 60 {
        (seq![118u8, 105, 97], Seq::<u8>::empty())
    } else if index == 61 {
        (seq![119u8, 119, 119, 45, 97, 117, 116, 104, 101, 110, 116, 105, 99, 97, 116, 101], Seq::<u8>::empty())
    } else {
        (Seq::empty(), Seq::empty())
    }
}

/// Every static entry fits the integer codec.
pub proof fn lemma_static_fits(index: int)
    requires
        1 <= index <= STATIC_TABLE_LEN,
    ensures
        field_fits(static_entry(index)),
        static_entry(index).0.len() <= 27,
        static_entry(index).1.len() <= 11,
{
}

/// The read-only static table.
pub struct StaticHeaderTable {
    fields: Vec<HeaderField>,
}

impl View for StaticHeaderTable {
    type V = Seq<FieldModel>;

    closed spec fn view(&self) -> Seq<FieldModel> {
        fields_model(self.fields@)
    }
}

fn push_entry(fields: &mut Vec<HeaderField>, key: &[u8], value: &[u8])
    ensures
        fields_model(final(fields)@) == fields_model(old(fields)@).push((key@, value@)),
{
    let h = HeaderField::new(copy_bytes(key), copy_bytes(value));
    fields.push(h);
    assert(fields_model(fields@) =~= fields_model(old(fields)@).push((key@, value@)));
}

impl StaticHeaderTable {
    /// The well-formed static table: its entries are those of the draft.
    pub open spec fn wf(&self) -> bool {
        self@.len() == STATIC_TABLE_LEN && forall|i: int| 1 <= i <= STATIC_TABLE_LEN ==> self@[i - 1] == static_entry(i)
    }

    /// Builds the static table.
    #[verifier::rlimit(50)]
    pub fn new() -> (r: StaticHeaderTable)
        ensures
            r.wf(),
    {
        let mut fields: Vec<HeaderField> = Vec::new();
        assert(fields_model(fields@) =~= Seq::<FieldModel>::empty());
        push_entry(&mut fields, &[58u8, 97, 117, 116, 104, 111, 114, 105, 116, 121], &[]);
        push_entry(&mut fields, &[58u8, 109, 101, 116, 104, 111, 100], &[71u8, 69, 84]);
        push_entry(&mut fields, &[58u8, 109, 101, 116, 104, 111, 100], &[80u8, 79, 83, 84]);
        push_entry(&mut fields, &[58u8, 112, 97, 116, 104], &[47u8]);
        push_entry(&mut fields, &[58u8, 112, 97, 116, 104], &[47u8, 105, 110, 100, 101, 120, 46, 104, 116, 109, 108]);
        push_entry(&mut fields, &[58u8, 115, 99, 104, 101, 109, 101], &[104u8, 116, 116, 112]);
        push_entry(&mut fields, &[58u8, 115, 99, 104, 101, 109, 101], &[104u8, 116, 116, 112, 115]);
        push_entry(&mut fields, &[58u8, 115, 116, 97, 116, 117, 115], &[50u8, 48, 48]);
        push_entry(&mut fields, &[58u8, 115, 116, 97, 116, 117, 115], &[50u8, 48, 52]);
        push_entry(&mut fields, &[58u8, 115, 116, 97, 116, 117, 115], &[50u8, 48, 54]);
        push_entry(&mut fields, &[58u8, 115, 116, 97, 116, 117, 115], &[51u8, 48, 52]);
        push_entry(&mut fields, &[58u8, 115, 116, 97, 116, 117, 115], &[52u8, 48, 48]);
        push_entry(&mut fields, &[58u8, 115, 116, 97, 116, 117, 115], &[52u8, 48, 52]);
        push_entry(&mut fields, &[58u8, 115, 116, 97, 116, 117, 115], &[53u8, 48, 48]);
        push_entry(&mut fields, &[97u8, 99, 99, 101, 112, 116, 45, 99, 104, 97, 114, 115, 101, 116], &[]);
        push_entry(&mut fields, &[97u8, 99, 99, 101, 112, 116, 45, 101, 110, 99, 111, 100, 105, 110, 103], &[]);
        push_entry(&mut fields, &[97u8, 99, 99, 101, 112, 116, 45, 108, 97, 110, 103, 117, 97, 103, 101], &[]);
        push_entry(&mut fields, &[97u8, 99, 99, 101, 112, 116, 45, 114, 97, 110, 103, 101, 115], &[]);
        push_entry(&mut fields, &[97u8, 99, 99, 101, 112, 116], &[]);
        push_entry(&mut fields, &[97u8, 99, 99, 101, 115, 115, 45, 99, 111, 110, 116, 114, 111, 108, 45, 97, 108, 108, 111, 119, 45, 111, 114, 105, 103, 105, 110], &[]);
        push_entry(&mut fields, &[97u8, 103, 101], &[]);
        push_entry(&mut fields, &[97u8, 108, 108, 111, 119], &[]);
        push_entry(&mut fields, &[97u8, 117, 116, 104, 111, 114, 105, 122, 97, 116, 105, 111, 110], &[]);
        push_entry(&mut fields, &[99u8, 97, 99, 104, 101, 45, 99, 111, 110, 116, 114, 111, 108], &[]);
        push_entry(&mut fields, &[99u8, 111, 110, 116, 101, 110, 116, 45, 100, 105, 115, 112, 111, 115, 105, 116, 105, 111, 110], &[]);
        push_entry(&mut fields, &[99u8, 111, 110, 116, 101, 110, 116, 45, 101, 110, 99, 111, 100, 105, 110, 103], &[]);
        push_entry(&mut fields, &[99u8, 111, 110, 116, 101, 110, 116, 45, 108, 97, 110, 103, 117, 97, 103, 101], &[]);
        push_entry(&mut fields, &[99u8, 111, 110, 116, 101, 110, 116, 45, 108, 101, 110, 103, 116, 104], &[]);
        push_entry(&mut fields, &[99u8, 111, 110, 116, 101, 110, 116, 45, 108, 111, 99, 97, 116, 105, 111, 110], &[]);
        push_entry(&mut fields, &[99u8, 111, 110, 116, 101, 110, 116, 45, 114, 97, 110, 103, 101], &[]);
        push_entry(&mut fields, &[99u8, 111, 110, 116, 101, 110, 116, 45, 116, 121, 112, 101], &[]);
        push_entry(&mut fields, &[99u8, 111, 111, 107, 105, 101], &[]);
        push_entry(&mut fields, &[100u8, 97, 116, 101], &[]);
        push_entry(&mut fields, &[101u8, 116, 97, 103], &[]);
        push_entry(&mut fields, &[101u8, 120, 112, 101, 99, 116], &[]);
        push_entry(&mut fields, &[101u8, 120, 112, 105, 114, 101, 115], &[]);
        push_entry(&mut fields, &[102u8, 114, 111, 109], &[]);
        push_entry(&mut fields, &[104u8, 111, 115, 116], &[]);
        push_entry(&mut fields, &[105u8, 102, 45, 109, 97, 116, 99, 104], &[]);
        push_entry(&mut fields, &[105u8, 102, 45, 109, 111, 100, 105, 102, 105, 101, 100, 45, 115, 105, 110, 99, 101], &[]);
        push_entry(&mut fields, &[105u8, 102, 45, 110, 111, 110, 101, 45, 109, 97, 116, 99, 104], &[]);
        push_entry(&mut fields, &[105u8, 102, 45, 114, 97, 110, 103, 101], &[]);
        push_entry(&mut fields, &[105u8, 102, 45, 117, 110, 109, 111, 100, 105, 102, 105, 101, 100, 45, 115, 105, 110, 99, 101], &[]);
        push_entry(&mut fields, &[108u8, 97, 115, 116, 45, 109, 111, 100, 105, 102, 105, 101, 100], &[]);
        push_entry(&mut fields, &[108u8, 105, 110, 107], &[]);
        push_entry(&mut fields, &[108u8, 111, 99, 97, 116, 105, 111, 110], &[]);
        push_entry(&mut fields, &[109u8, 97, 120, 45, 102, 111, 114, 119, 97, 114, 100, 115], &[]);
        push_entry(&mut fields, &[112u8, 114, 111, 120, 121, 45, 97, 117, 116, 104, 101, 110, 116, 105, 99, 97, 116, 101], &[]);
        push_entry(&mut fields, &[112u8, 114, 111, 120, 121, 45, 97, 117, 116, 104, 111, 114, 105, 122, 97, 116, 105, 111, 110], &[]);
        push_entry(&mut fields, &[114u8, 97, 110, 103, 101], &[]);
        push_entry(&mut fields, &[114u8, 101, 102, 101, 114, 101, 114], &[]);
        push_entry(&mut fields, &[114u8, 101, 102, 114, 101, 115, 104], &[]);
        push_entry(&mut fields, &[114u8, 101, 116, 114, 121, 45, 97, 102, 116, 101, 114], &[]);
        push_entry(&mut fields, &[115u8, 101, 114, 118, 101, 114], &[]);
        push_entry(&mut fields, &[115u8, 101, 116, 45, 99, 111, 111, 107, 105, 101], &[]);
        push_entry(&mut fields, &[115u8, 116, 114, 105, 99, 116, 45, 116, 114, 97, 110, 115, 112, 111, 114, 116, 45, 115, 101, 99, 117, 114, 105, 116, 121], &[]);
        push_entry(&mut fields, &[116u8, 114, 97, 110, 115, 102, 101, 114, 45, 101, 110, 99, 111, 100, 105, 110, 103], &[]);
        push_entry(&mut fields, &[117u8, 115, 101, 114, 45, 97, 103, 101, 110, 116], &[]);
        push_entry(&mut fields, &[118u8, 97, 114, 121], &[]);
        push_entry(&mut fields, &[118u8, 105, 97], &[]);
        push_entry(&mut fields, &[119u8, 119, 119, 45, 97, 117, 116, 104, 101, 110, 116, 105, 99, 97, 116, 101], &[]);
        let r = StaticHeaderTable { fields };
        assert forall|i: int| 1 <= i <= STATIC_TABLE_LEN implies r@[i - 1] == static_entry(i) by {}
        r
    }

    /// Number of entries.
    pub fn len(&self) -> (r: usize)
        ensures
            r == self@.len(),
    {
        self.fields.len()
    }

    /// A copy of the entry at 1-based `index`; `None` outside 1..=61.
    pub fn get(&self, index: usize) -> (r: Option<HeaderField>)
        ensures
            r is Some <==> 1 <= index <= self@.len(),
            r matches Some(h) ==> h@ == self@[index - 1],
    {
        get_field(&self.fields, index)
    }

    /// Searches the table for `hf`: the first full match, else the last
    /// entry with the same name, else nothing.
    pub fn find(&self, hf: HeaderField) -> (r: Option<(usize, bool)>)
        ensures
            is_find_result(self@, hf@, r),
    {
        find_field(&self.fields, &hf)
    }
}

} // verus!
