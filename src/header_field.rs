//! A header field: a name and a value, both octet strings.

use vstd::prelude::*;

verus! {

/// The model of a header field: its name and its value.
pub type FieldModel = (Seq<u8>, Seq<u8>);

/// Longest name or value the codec carries: the largest integer that the
/// integer codec decodes.
pub const MAX_STRING_LEN: usize = 0xFFFF_FFFF;

/// The octets a field occupies in a header table: name, value and 32.
pub open spec fn field_size(f: FieldModel) -> nat {
    f.0.len() + f.1.len() + 32
}

/// A field whose name and value fit the integer codec.
pub open spec fn field_fits(f: FieldModel) -> bool {
    f.0.len() <= MAX_STRING_LEN && f.1.len() <= MAX_STRING_LEN
}

/// An HTTP/2 header field.
#[derive(Clone, Debug, PartialEq, Eq)]
pub struct HeaderField {
    pub key: Vec<u8>,
    pub value: Vec<u8>,
}

impl View for HeaderField {
    type V = FieldModel;

    open spec fn view(&self) -> FieldModel {
        (self.key@, self.value@)
    }
}

/// Whether two octet strings are equal.
pub fn bytes_eq(a: &[u8], b: &[u8]) -> (r: bool)
    ensures
        r == (a@ == b@),
{
    if a.len() != b.len() {
        return false;
    }
    let mut i: usize = 0;
    while i < a.len()
        invariant
            a@.len() == b@.len(),
            i <= a@.len(),
            forall|j: int| 0 <= j < i ==> a@[j] == b@[j],
        decreases a@.len() - i,
    {
        if a[i] != b[i] {
            return false;
        }
        i = i + 1;
    }
    assert(a@ =~= b@);
    true
}

/// A fresh copy of an octet string.
pub fn copy_bytes(a: &[u8]) -> (r: Vec<u8>)
    ensures
        r@ == a@,
{
    let mut r: Vec<u8> = Vec::new();
    let mut i: usize = 0;
    while i < a.len()
        invariant
            i <= a@.len(),
            r@ == a@.subrange(0, i as int),
        decreases a@.len() - i,
    {
        r.push(a[i]);
        i = i + 1;
        assert(r@ =~= a@.subrange(0, i as int));
    }
    assert(r@ =~= a@);
    r
}

impl HeaderField {
    /// Creates a header field.
    pub fn new(key: Vec<u8>, value: Vec<u8>) -> (r: HeaderField)
        ensures
            r@ == (key@, value@),
    {
        HeaderField { key, value }
    }

    /// The size of the field in a header table: the octets of its name and
    /// of its value, plus 32.
    pub fn size(&self) -> (r: u64)
        requires
            field_fits(self@),
        ensures
            r as nat == field_size(self@),
    {
        self.key.len() as u64 + self.value.len() as u64 + 32
    }

    /// A copy of this field.
    pub fn duplicate(&self) -> (r: HeaderField)
        ensures
            r@ == self@,
    {
        HeaderField { key: copy_bytes(self.key.as_slice()), value: copy_bytes(self.value.as_slice()) }
    }

    /// Whether both name and value are equal.
    pub fn same_as(&self, other: &HeaderField) -> (r: bool)
        ensures
            r == (self@ == other@),
    {
        bytes_eq(self.key.as_slice(), other.key.as_slice()) && bytes_eq(
            self.value.as_slice(),
            other.value.as_slice(),
        )
    }
}

} // verus!

verus! {

/// What a search of `s` for `f` returns: the 1-based position of the first
/// entry equal to `f` with `true`; failing that, the position of the last
/// entry with the same name, with `false`; failing that, nothing.
pub open spec fn is_find_result(s: Seq<FieldModel>, f: FieldModel, r: Option<(usize, bool)>) -> bool {
    match r {
        Some((i, true)) => 1 <= i <= s.len() && s[i - 1] == f && forall|j: int|
            0 <= j < i - 1 ==> s[j] != f,
        Some((i, false)) => 1 <= i <= s.len() && s[i - 1].0 == f.0 && (forall|j: int|
            0 <= j < s.len() ==> s[j] != f) && forall|j: int| i <= j < s.len() ==> s[j].0 != f.0,
        None => forall|j: int| 0 <= j < s.len() ==> s[j].0 != f.0,
    }
}

/// The models of a list of fields.
pub open spec fn fields_model(v: Seq<HeaderField>) -> Seq<FieldModel> {
    v.map_values(|h: HeaderField| h@)
}

/// Searches `fields` for `hf`, see `is_find_result`.
pub fn find_field(fields: &Vec<HeaderField>, hf: &HeaderField) -> (r: Option<(usize, bool)>)
    ensures
        is_find_result(fields_model(fields@), hf@, r),
{
    let ghost s = fields_model(fields@);
    let mut partial: Option<(usize, bool)> = None;
    let mut i: usize = 0;
    while i < fields.len()
        invariant
            s == fields_model(fields@),
            i <= fields@.len(),
            forall|j: int| 0 <= j < i ==> s[j] != hf@,
            match partial {
                Some((p, b)) => !b && 1 <= p <= i && s[p - 1].0 == hf@.0 && forall|j: int|
                    p <= j < i ==> s[j].0 != hf@.0,
                None => forall|j: int| 0 <= j < i ==> s[j].0 != hf@.0,
            },
        decreases fields@.len() - i,
    {
        if bytes_eq(fields[i].key.as_slice(), hf.key.as_slice()) {
            if bytes_eq(fields[i].value.as_slice(), hf.value.as_slice()) {
                return Some((i + 1, true));
            }
            partial = Some((i + 1, false));
        }
        i = i + 1;
    }
    partial
}

/// A copy of the field at 1-based `index`, if there is one.
pub fn get_field(fields: &Vec<HeaderField>, index: usize) -> (r: Option<HeaderField>)
    ensures
        r is Some <==> 1 <= index <= fields@.len(),
        r matches Some(h) ==> h@ == fields@[index - 1]@,
{
    if index < 1 || index > fields.len() {
        return None;
    }
    Some(fields[index - 1].duplicate())
}

} // verus!
