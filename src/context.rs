//! The compression context shared in kind by decoder and encoder: the
//! dynamic table, the static table and the reference set.

use vstd::prelude::*;
use crate::header_field::{FieldModel, HeaderField, field_fits, field_size, is_find_result};
use crate::header_table::{HeaderTable, MAX_TABLE_SIZE, seq_size, all_fit, lemma_seq_size_min, lemma_seq_size_prepend};
use crate::reference_set::ReferenceSet;
use crate::static_table::{StaticHeaderTable, STATIC_TABLE_LEN, lemma_static_fits, static_entry};

verus! {

/// Drops the oldest entries of `d` while it is larger than `max`, removing
/// each dropped field from the reference map `r`.
pub open spec fn evict_model(d: Seq<FieldModel>, max: nat, r: Map<FieldModel, bool>) -> (
    Seq<FieldModel>,
    Map<FieldModel, bool>,
)
    decreases d.len(),
{
    if seq_size(d) > max && d.len() > 0 {
        evict_model(d.drop_last(), max, r.remove(d.last()))
    } else {
        (d, r)
    }
}

/// The field at `index` of the combined index space of dynamic table `d`
/// and the static table.
pub open spec fn resolve_model(d: Seq<FieldModel>, index: int) -> Option<FieldModel> {
    if 1 <= index <= d.len() {
        Some(d[index - 1])
    } else if d.len() < index <= d.len() + STATIC_TABLE_LEN {
        Some(static_entry(index - d.len()))
    } else {
        None
    }
}

/// What a search of the combined index space of dynamic table `d` for `f`
/// returns: the first index whose entry is `f`, with `true`; failing that,
/// an index whose entry has `f`'s name, with `false`, one of the dynamic
/// table when it has such an entry; failing that, nothing.
pub open spec fn is_header_search(d: Seq<FieldModel>, f: FieldModel, r: Option<(usize, bool)>) -> bool {
    let n = d.len() + STATIC_TABLE_LEN;
    match r {
        Some((i, true)) => 1 <= i <= n && resolve_model(d, i as int) == Some(f) && forall|j: int|
            1 <= j < i ==> #[trigger] resolve_model(d, j) != Some(f),
        Some((i, false)) => 1 <= i <= n && (resolve_model(d, i as int) matches Some(g) && g.0
            == f.0) && (forall|j: int| 1 <= j <= n ==> #[trigger] resolve_model(d, j) != Some(f)) && ((exists|
            j: int,
        | 0 <= j < d.len() && #[trigger] d[j].0 == f.0) ==> i <= d.len()),
        None => forall|j: int|
            1 <= j <= n ==> (#[trigger] resolve_model(d, j) matches Some(g) ==> g.0 != f.0),
    }
}

/// After eviction the table fits its maximum size, is what remains of the
/// oldest-last list, and no field that was dropped is still referenced;
/// the other references are kept.
pub proof fn lemma_evict(d: Seq<FieldModel>, max: nat, r: Map<FieldModel, bool>)
    ensures
        ({
            let (d2, r2) = evict_model(d, max, r);
            &&& seq_size(d2) <= max
            &&& d2.len() <= d.len()
            &&& d2 == d.subrange(0, d2.len() as int)
            &&& forall|j: int| d2.len() <= j < d.len() ==> !r2.contains_key(#[trigger] d[j])
            &&& forall|k: FieldModel|
                (forall|j: int| d2.len() <= j < d.len() ==> d[j] != k) ==> (#[trigger] r2.contains_key(k)
                    == r.contains_key(k) && (r.contains_key(k) ==> r2[k] == r[k]))
        }),
    decreases d.len(),
{
    if seq_size(d) > max && d.len() > 0 {
        let t = d.drop_last();
        lemma_evict(t, max, r.remove(d.last()));
        let (d2, r2) = evict_model(t, max, r.remove(d.last()));
        assert(d2 == d.subrange(0, d2.len() as int)) by {
            assert(d2 =~= d.subrange(0, d2.len() as int));
        }
        assert forall|j: int| d2.len() <= j < d.len() implies !r2.contains_key(#[trigger] d[j]) by {
            if j < t.len() {
                assert(t[j] == d[j]);
            } else {
                let k = d[j];
                if r2.contains_key(k) {
                    let jj = choose|jj: int| d2.len() <= jj < t.len() && t[jj] == k;
                }
            }
        }
        assert forall|k: FieldModel|
            (forall|j: int| d2.len() <= j < d.len() ==> d[j] != k) implies (#[trigger] r2.contains_key(k)
                == r.contains_key(k) && (r.contains_key(k) ==> r2[k] == r[k])) by {
            assert(d[d.len() - 1] != k);
            assert forall|j: int| d2.len() <= j < t.len() implies t[j] != k by {
                assert(t[j] == d[j]);
            }
        }
    } else {
        assert(d =~= d.subrange(0, d.len() as int));
    }
}

/// A context's state: dynamic table (newest first), its maximum size, and
/// the reference set.
pub type CtxModel = (Seq<FieldModel>, nat, Map<FieldModel, bool>);

/// Every referenced field is an entry of dynamic table `d`.
pub open spec fn refs_in_table(d: Seq<FieldModel>, r: Map<FieldModel, bool>) -> bool {
    forall|k: FieldModel| #[trigger] r.contains_key(k) ==> d.contains(k)
}

/// A context state as the context keeps it: the dynamic table fits its
/// maximum size and every reference is one of its entries.
pub open spec fn model_ok(c: CtxModel) -> bool {
    seq_size(c.0) <= c.1 && refs_in_table(c.0, c.2)
}

/// Eviction keeps every reference among the entries that remain.
pub proof fn lemma_evict_refs_in_table(d: Seq<FieldModel>, max: nat, r: Map<FieldModel, bool>)
    requires
        refs_in_table(d, r),
    ensures
        refs_in_table(evict_model(d, max, r).0, evict_model(d, max, r).1),
    decreases d.len(),
{
    if seq_size(d) > max && d.len() > 0 {
        let t = d.drop_last();
        let r2 = r.remove(d.last());
        assert forall|k: FieldModel| #[trigger] r2.contains_key(k) implies t.contains(k) by {
            let i = choose|i: int| 0 <= i < d.len() && d[i] == k;
            assert(i != d.len() - 1);
            assert(t[i] == k);
        }
        lemma_evict_refs_in_table(t, max, r2);
    }
}

/// The state of one direction of a connection.
pub struct Context {
    header_table: HeaderTable,
    static_header_table: StaticHeaderTable,
    reference_set: ReferenceSet,
}

impl Context {
    /// The dynamic table, newest first.
    pub closed spec fn dynamic(&self) -> Seq<FieldModel> {
        self.header_table@
    }

    /// The maximum size of the dynamic table.
    pub closed spec fn max_size(&self) -> nat {
        self.header_table.max()
    }

    /// The reference set: each referenced field with its emitted flag.
    pub closed spec fn refs(&self) -> Map<FieldModel, bool> {
        self.reference_set@
    }

    /// The whole state.
    pub open spec fn model(&self) -> CtxModel {
        (self.dynamic(), self.max_size(), self.refs())
    }

    /// The tables and the reference set are well formed, and the dynamic
    /// table fits its maximum size.
    pub closed spec fn wf(&self) -> bool {
        &&& self.header_table.wf()
        &&& self.static_header_table.wf()
        &&& self.reference_set.wf()
        &&& seq_size(self.header_table@) <= self.header_table.max()
        &&& refs_in_table(self.header_table@, self.reference_set@)
    }

    /// What well-formedness gives callers: the dynamic table fits its
    /// maximum size and every reference is one of its entries.
    pub proof fn lemma_model_ok(&self)
        requires
            self.wf(),
        ensures
            model_ok(self.model()),
    {
    }

    /// Every field the combined index space resolves to fits the integer
    /// codec.
    pub proof fn lemma_resolved_fits(&self, index: int)
        requires
            self.wf(),
        ensures
            resolve_model(self.dynamic(), index) matches Some(f) ==> field_fits(f),
    {
        self.header_table.lemma_wf();
        if 1 <= index <= self.dynamic().len() {
            assert(field_fits(self.dynamic()[index - 1]));
        } else if self.dynamic().len() < index <= self.dynamic().len() + STATIC_TABLE_LEN {
            lemma_static_fits(index - self.dynamic().len());
        }
    }

    /// The dynamic table holds at most 2^27 entries: each takes 32 octets
    /// or more, and the table fits its maximum size.
    pub proof fn lemma_len_bound(&self)
        requires
            self.wf(),
        ensures
            self.dynamic().len() <= 0x8000000,
            self.max_size() <= MAX_TABLE_SIZE,
    {
        self.header_table.lemma_wf();
        lemma_seq_size_min(self.dynamic());
    }

    /// A fresh context: empty dynamic table and reference set.
    pub fn new(max_size: usize) -> (r: Context)
        requires
            max_size <= MAX_TABLE_SIZE,
        ensures
            r.wf(),
            r.dynamic() == Seq::<FieldModel>::empty(),
            r.max_size() == max_size,
            r.refs() == Map::<FieldModel, bool>::empty(),
    {
        Context {
            header_table: HeaderTable::new(max_size),
            static_header_table: StaticHeaderTable::new(),
            reference_set: ReferenceSet::new(),
        }
    }

    /// Drops the oldest entries until the table fits, and their references.
    fn evict(&mut self)
        requires
            old(self).header_table.wf(),
            old(self).static_header_table.wf(),
            old(self).reference_set.wf(),
            refs_in_table(old(self).dynamic(), old(self).refs()),
        ensures
            final(self).wf(),
            final(self).max_size() == old(self).max_size(),
            (final(self).dynamic(), final(self).refs()) == evict_model(
                old(self).dynamic(),
                old(self).max_size(),
                old(self).refs(),
            ),
    {
        let ghost target = evict_model(self.dynamic(), self.max_size(), self.refs());
        proof {
            lemma_evict_refs_in_table(self.dynamic(), self.max_size(), self.refs());
        }
        while self.header_table.size() > self.header_table.get_max_size() as u64
            && self.header_table.len() > 0
            invariant
                self.header_table.wf(),
                self.static_header_table.wf(),
                self.reference_set.wf(),
                self.max_size() == old(self).max_size(),
                evict_model(self.dynamic(), self.max_size(), self.refs()) == target,
            decreases self.dynamic().len(),
        {
            let n = self.header_table.len();
            let removed = self.header_table.remove(n);
            match removed {
                Some(h) => {
                    self.reference_set.remove(&h);
                },
                None => {},
            }
        }
    }

    /// Sets the maximum size of the dynamic table and evicts to fit.
    pub fn set_max_size(&mut self, n: usize)
        requires
            old(self).wf(),
            n <= MAX_TABLE_SIZE,
        ensures
            final(self).wf(),
            final(self).max_size() == n,
            (final(self).dynamic(), final(self).refs()) == evict_model(
                old(self).dynamic(),
                n as nat,
                old(self).refs(),
            ),
    {
        self.header_table.set_max_size(n);
        self.evict();
    }

    /// The size of the dynamic table in octets.
    pub fn dynamic_size(&self) -> (r: u64)
        requires
            self.wf(),
        ensures
            r as nat == seq_size(self.dynamic()),
    {
        self.header_table.size()
    }

    /// The maximum size of the dynamic table.
    pub fn get_max_size(&self) -> (r: usize)
        ensures
            r == self.max_size(),
    {
        self.header_table.get_max_size()
    }

    /// Number of entries of the dynamic table.
    pub fn dynamic_len(&self) -> (r: usize)
        ensures
            r == self.dynamic().len(),
    {
        self.header_table.len()
    }

    /// The field at `index` of the combined index space: dynamic entries
    /// first, then the static table. `None` on 0 or past the end.
    pub fn resolve(&self, index: usize) -> (r: Option<HeaderField>)
        requires
            self.wf(),
        ensures
            match resolve_model(self.dynamic(), index as int) {
                Some(f) => r matches Some(h) && h@ == f,
                None => r is None,
            },
    {
        let n = self.header_table.len();
        if index >= 1 && index <= n {
            return self.header_table.get(index);
        }
        if index > n {
            return self.static_header_table.get(index - n);
        }
        None
    }

    /// Searches the combined index space for `hf`: the first full match;
    /// failing that, a name match (in the dynamic table when it has one);
    /// failing that, nothing.
    pub fn find_header(&self, hf: &HeaderField) -> (r: Option<(usize, bool)>)
        requires
            self.wf(),
        ensures
            is_header_search(self.dynamic(), hf@, r),
    {
        let n = self.header_table.len();
        proof {
            self.lemma_len_bound();
        }
        let d = self.header_table.find(hf.duplicate());
        if let Some((i, true)) = d {
            return d;
        }
        let st = self.static_header_table.find(hf.duplicate());
        proof {
            assert forall|j: int| 1 <= j <= n implies resolve_model(self.dynamic(), j) != Some(hf@) by {
                assert(self.dynamic()[j - 1] != hf@);
            }
        }
        if let Some((i, true)) = st {
            proof {
                assert(resolve_model(self.dynamic(), (i + n) as int) == Some(static_entry(i as int)));
                assert forall|j: int| 1 <= j < i + n implies resolve_model(self.dynamic(), j) != Some(hf@) by {
                    if j > n {
                        assert(static_entry(j - n) == self.static_header_table@[j - n - 1]);
                    }
                }
            }
            return Some((i + n, true));
        }
        proof {
            assert forall|j: int| 1 <= j <= n + STATIC_TABLE_LEN implies resolve_model(self.dynamic(), j) != Some(hf@) by {
                if j > n {
                    assert(static_entry(j - n) == self.static_header_table@[j - n - 1]);
                }
            }
        }
        if let Some((i, false)) = d {
            return d;
        }
        match st {
            Some((i, _)) => {
                proof {
                    assert(resolve_model(self.dynamic(), (i + n) as int) == Some(static_entry(i as int)));
                }
                Some((i + n, false))
            },
            None => {
                proof {
                    assert forall|j: int| 1 <= j <= n + STATIC_TABLE_LEN implies (#[trigger] resolve_model(
                        self.dynamic(),
                        j,
                    ) matches Some(g) ==> g.0 != hf@.0) by {
                        if j > n {
                            assert(static_entry(j - n) == self.static_header_table@[j - n - 1]);
                        } else {
                            assert(self.dynamic()[j - 1].0 != hf@.0);
                        }
                    }
                }
                None
            },
        }
    }

    /// Prepends `field` to the dynamic table, references it as emitted
    /// when `reference` is set, then evicts to fit.
    pub fn insert(&mut self, field: HeaderField, reference: bool)
        requires
            old(self).wf(),
            field_fits(field@),
        ensures
            final(self).wf(),
            final(self).max_size() == old(self).max_size(),
            (final(self).dynamic(), final(self).refs()) == evict_model(
                seq![field@] + old(self).dynamic(),
                old(self).max_size(),
                if reference {
                    old(self).refs().insert(field@, true)
                } else {
                    old(self).refs()
                },
            ),
    {
        let ghost f = field@;
        proof {
            self.header_table.lemma_wf();
        }
        let ghost d0 = self.dynamic();
        if reference {
            self.reference_set.add(field.duplicate(), true);
        }
        self.header_table.add(field);
        proof {
            assert forall|k: FieldModel| #[trigger] self.refs().contains_key(k) implies self.dynamic().contains(k) by {
                if k == f {
                    assert(self.dynamic()[0] == f);
                } else {
                    let i = choose|i: int| 0 <= i < d0.len() && d0[i] == k;
                    assert(self.dynamic()[i + 1] == k);
                }
            }
        }
        self.evict();
    }

    /// Whether `field` is referenced.
    pub fn is_referenced(&self, field: &HeaderField) -> (r: bool)
        requires
            self.wf(),
        ensures
            r == self.refs().contains_key(field@),
    {
        self.reference_set.has(field)
    }

    /// References `field` with the given emitted flag.
    pub fn reference(&mut self, field: HeaderField, emitted: bool)
        requires
            old(self).wf(),
            old(self).dynamic().contains(field@),
        ensures
            final(self).wf(),
            final(self).dynamic() == old(self).dynamic(),
            final(self).max_size() == old(self).max_size(),
            final(self).refs() == old(self).refs().insert(field@, emitted),
    {
        self.reference_set.add(field, emitted);
    }

    /// Drops the reference to `field`.
    pub fn unreference(&mut self, field: &HeaderField)
        requires
            old(self).wf(),
        ensures
            final(self).wf(),
            final(self).dynamic() == old(self).dynamic(),
            final(self).max_size() == old(self).max_size(),
            final(self).refs() == old(self).refs().remove(field@),
    {
        self.reference_set.remove(field);
    }

    /// Empties the reference set.
    pub fn clear_references(&mut self)
        requires
            old(self).wf(),
        ensures
            final(self).wf(),
            final(self).dynamic() == old(self).dynamic(),
            final(self).max_size() == old(self).max_size(),
            final(self).refs() == Map::<FieldModel, bool>::empty(),
    {
        self.reference_set.empty();
    }

    /// Clears every emitted flag.
    pub fn reset_references(&mut self)
        requires
            old(self).wf(),
        ensures
            final(self).wf(),
            final(self).dynamic() == old(self).dynamic(),
            final(self).max_size() == old(self).max_size(),
            final(self).refs().dom() == old(self).refs().dom(),
            forall|k: FieldModel| #[trigger] final(self).refs().contains_key(k) ==> !final(self).refs()[k],
    {
        self.reference_set.reset();
    }

    /// Copies of the dynamic table's entries, newest first.
    pub fn dynamic_entries(&self) -> (r: Vec<HeaderField>)
        ensures
            crate::header_field::fields_model(r@) == self.dynamic(),
    {
        let mut r: Vec<HeaderField> = Vec::new();
        let n = self.header_table.len();
        let mut i: usize = 0;
        while i < n
            invariant
                n == self.dynamic().len(),
                i <= n,
                crate::header_field::fields_model(r@) == self.dynamic().subrange(0, i as int),
            decreases n - i,
        {
            let ghost prev = crate::header_field::fields_model(r@);
            match self.header_table.get(i + 1) {
                Some(h) => {
                    let ghost hv = h@;
                    r.push(h);
                    assert(crate::header_field::fields_model(r@) =~= prev.push(hv));
                    assert(crate::header_field::fields_model(r@) =~= self.dynamic().subrange(
                        0,
                        i + 1,
                    ));
                },
                None => {},
            }
            i = i + 1;
        }
        assert(self.dynamic().subrange(0, n as int) =~= self.dynamic());
        r
    }

    /// Copies of the references with their flags.
    pub fn references(&self) -> (r: Vec<(HeaderField, bool)>)
        requires
            self.wf(),
        ensures
            crate::reference_set::unique_keys(crate::reference_set::refs_model(r@)),
            crate::reference_set::ref_map(crate::reference_set::refs_model(r@)) == self.refs(),
    {
        self.reference_set.entries()
    }
}

} // verus!
