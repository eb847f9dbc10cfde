//! The reference set: the fields committed to the context, each with the
//! flag that tells whether it was emitted in the current header block.

use vstd::prelude::*;
use crate::header_field::{FieldModel, HeaderField};

verus! {

/// The model of a list of references.
pub open spec fn refs_model(v: Seq<(HeaderField, bool)>) -> Seq<(FieldModel, bool)> {
    v.map_values(|p: (HeaderField, bool)| (p.0@, p.1))
}

/// No field appears twice in `s`.
pub open spec fn unique_keys(s: Seq<(FieldModel, bool)>) -> bool {
    forall|i: int, j: int| 0 <= i < s.len() && 0 <= j < s.len() && s[i].0 == s[j].0 ==> i == j
}

/// The map from field to emitted flag that a list of references stands for.
pub open spec fn ref_map(s: Seq<(FieldModel, bool)>) -> Map<FieldModel, bool>
    decreases s.len(),
{
    if s.len() == 0 {
        Map::empty()
    } else {
        ref_map(s.drop_last()).insert(s.last().0, s.last().1)
    }
}

pub proof fn lemma_ref_map(s: Seq<(FieldModel, bool)>)
    requires
        unique_keys(s),
    ensures
        forall|k: FieldModel| #[trigger]
            ref_map(s).contains_key(k) <==> exists|i: int| 0 <= i < s.len() && s[i].0 == k,
        forall|i: int| 0 <= i < s.len() ==> ref_map(s)[#[trigger] s[i].0] == s[i].1,
        ref_map(s).dom().finite(),
        ref_map(s).dom().len() == s.len(),
    decreases s.len(),
{
    if s.len() > 0 {
        let t = s.drop_last();
        assert(unique_keys(t));
        lemma_ref_map(t);
        let k0 = s.last().0;
        assert(!ref_map(t).contains_key(k0)) by {
            if ref_map(t).contains_key(k0) {
                let i = choose|i: int| 0 <= i < t.len() && t[i].0 == k0;
                assert(s[i].0 == s[s.len() - 1].0);
            }
        }
        assert forall|k: FieldModel| #[trigger]
            ref_map(s).contains_key(k) <==> exists|i: int| 0 <= i < s.len() && s[i].0 == k by {
            if k != k0 && ref_map(s).contains_key(k) {
                let i = choose|i: int| 0 <= i < t.len() && t[i].0 == k;
                assert(s[i].0 == k);
            }
            if exists|i: int| 0 <= i < s.len() && s[i].0 == k {
                let i = choose|i: int| 0 <= i < s.len() && s[i].0 == k;
                if i < t.len() {
                    assert(t[i].0 == k);
                }
            }
        }
        assert forall|i: int| 0 <= i < s.len() implies ref_map(s)[#[trigger] s[i].0] == s[i].1 by {
            if i < t.len() {
                assert(t[i].0 == s[i].0);
                assert(s[i].0 != k0);
            }
        }
    }
}

/// `ref_map(s)` is `m` when `s` lists exactly the entries of `m`.
proof fn lemma_ref_map_is(s: Seq<(FieldModel, bool)>, m: Map<FieldModel, bool>)
    requires
        unique_keys(s),
        forall|k: FieldModel| #[trigger]
            m.contains_key(k) <==> exists|i: int| 0 <= i < s.len() && s[i].0 == k,
        forall|i: int| 0 <= i < s.len() ==> m[#[trigger] s[i].0] == s[i].1,
    ensures
        ref_map(s) == m,
{
    lemma_ref_map(s);
    assert forall|k: FieldModel| #[trigger] ref_map(s).contains_key(k) implies ref_map(s)[k] == m[k] by {
        let i = choose|i: int| 0 <= i < s.len() && s[i].0 == k;
        assert(ref_map(s)[s[i].0] == s[i].1);
    }
    assert(ref_map(s) =~= m);
}

/// The reference set of a compression context.
pub struct ReferenceSet {
    references: Vec<(HeaderField, bool)>,
}

impl View for ReferenceSet {
    type V = Map<FieldModel, bool>;

    closed spec fn view(&self) -> Map<FieldModel, bool> {
        ref_map(refs_model(self.references@))
    }
}

impl ReferenceSet {
    /// No field is referenced twice.
    pub closed spec fn wf(&self) -> bool {
        unique_keys(refs_model(self.references@))
    }

    /// Position of `field` in the list, if referenced.
    fn position(&self, field: &HeaderField) -> (r: Option<usize>)
        requires
            self.wf(),
        ensures
            r matches Some(i) ==> i < self.references@.len() && self.references@[i as int].0@
                == field@,
            r is None ==> forall|i: int|
                0 <= i < self.references@.len() ==> self.references@[i].0@ != field@,
    {
        let mut i: usize = 0;
        while i < self.references.len()
            invariant
                i <= self.references@.len(),
                forall|j: int| 0 <= j < i ==> self.references@[j].0@ != field@,
            decreases self.references@.len() - i,
        {
            if self.references[i].0.same_as(field) {
                return Some(i);
            }
            i = i + 1;
        }
        None
    }

    /// An empty reference set.
    pub fn new() -> (r: ReferenceSet)
        ensures
            r.wf(),
            r@ == Map::<FieldModel, bool>::empty(),
    {
        let r = ReferenceSet { references: Vec::new() };
        assert(refs_model(r.references@) =~= Seq::<(FieldModel, bool)>::empty());
        r
    }

    /// Number of references.
    pub fn len(&self) -> (r: usize)
        requires
            self.wf(),
        ensures
            r == self@.dom().len(),
            self@.dom().finite(),
    {
        proof {
            lemma_ref_map(refs_model(self.references@));
        }
        self.references.len()
    }

    /// Adds a reference to `field` with the given flag, or sets the flag of
    /// an existing one.
    pub fn add(&mut self, field: HeaderField, emitted: bool)
        requires
            old(self).wf(),
        ensures
            final(self).wf(),
            final(self)@ == old(self)@.insert(field@, emitted),
    {
        let ghost f = field@;
        let ghost s0 = refs_model(self.references@);
        proof {
            lemma_ref_map(s0);
        }
        match self.position(&field) {
            Some(i) => {
                self.references.set(i, (field, emitted));
                proof {
                    let s = refs_model(self.references@);
                    assert(s =~= s0.update(i as int, (f, emitted)));
                    assert forall|k: FieldModel| #[trigger]
                        old(self)@.insert(f, emitted).contains_key(k) <==> exists|j: int|
                            0 <= j < s.len() && s[j].0 == k by {
                        if old(self)@.contains_key(k) && k != f {
                            let j = choose|j: int| 0 <= j < s0.len() && s0[j].0 == k;
                            assert(s[j].0 == k);
                        }
                        if k == f {
                            assert(s[i as int].0 == k);
                        }
                    }
                    assert forall|j: int| 0 <= j < s.len() implies old(self)@.insert(f, emitted)[
                        #[trigger] s[j].0] == s[j].1 by {
                        if j != i {
                            assert(s0[j].0 == s[j].0);
                            assert(s0[j].0 != s0[i as int].0);
                            assert(old(self)@[s0[j].0] == s0[j].1);
                        }
                    }
                    assert(unique_keys(s)) by {
                        assert forall|a: int, b: int|
                            0 <= a < s.len() && 0 <= b < s.len() && s[a].0 == s[b].0 implies a
                            == b by {
                            assert(s0[a].0 == s[a].0 && s0[b].0 == s[b].0);
                        }
                    }
                    lemma_ref_map_is(s, old(self)@.insert(f, emitted));
                }
            },
            None => {
                self.references.push((field, emitted));
                proof {
                    let s = refs_model(self.references@);
                    assert(s =~= s0.push((f, emitted)));
                    assert(s.drop_last() =~= s0);
                }
            },
        }
    }

    /// Removes every reference.
    pub fn empty(&mut self)
        ensures
            final(self).wf(),
            final(self)@ == Map::<FieldModel, bool>::empty(),
    {
        self.references.clear();
        assert(refs_model(self.references@) =~= Seq::<(FieldModel, bool)>::empty());
    }

    /// Whether `field` is referenced.
    pub fn has(&self, field: &HeaderField) -> (r: bool)
        requires
            self.wf(),
        ensures
            r == self@.contains_key(field@),
    {
        proof {
            lemma_ref_map(refs_model(self.references@));
        }
        let p = self.position(field);
        proof {
            let s = refs_model(self.references@);
            if let Some(i) = p {
                assert(s[i as int].0 == field@);
            }
        }
        p.is_some()
    }

    /// The emitted flag of `field`, if referenced.
    pub fn emitted(&self, field: &HeaderField) -> (r: Option<bool>)
        requires
            self.wf(),
        ensures
            r is Some == self@.contains_key(field@),
            r matches Some(b) ==> b == self@[field@],
    {
        proof {
            lemma_ref_map(refs_model(self.references@));
        }
        match self.position(field) {
            Some(i) => {
                proof {
                    let s = refs_model(self.references@);
                    assert(s[i as int].0 == field@);
                }
                Some(self.references[i].1)
            },
            None => None,
        }
    }

    /// Removes the reference to `field`; whether there was one.
    pub fn remove(&mut self, field: &HeaderField) -> (r: bool)
        requires
            old(self).wf(),
        ensures
            final(self).wf(),
            final(self)@ == old(self)@.remove(field@),
            r == old(self)@.contains_key(field@),
    {
        let ghost s0 = refs_model(self.references@);
        proof {
            lemma_ref_map(s0);
        }
        match self.position(field) {
            Some(i) => {
                self.references.remove(i);
                proof {
                    let s = refs_model(self.references@);
                    let m = old(self)@.remove(field@);
                    assert(s =~= s0.remove(i as int));
                    assert(s0[i as int].0 == field@);
                    assert forall|k: FieldModel| #[trigger]
                        m.contains_key(k) <==> exists|j: int| 0 <= j < s.len() && s[j].0 == k by {
                        if m.contains_key(k) {
                            let j = choose|j: int| 0 <= j < s0.len() && s0[j].0 == k;
                            if j < i {
                                assert(s[j].0 == k);
                            } else {
                                assert(j != i);
                                assert(s[j - 1].0 == k);
                            }
                        }
                        if exists|j: int| 0 <= j < s.len() && s[j].0 == k {
                            let j = choose|j: int| 0 <= j < s.len() && s[j].0 == k;
                            if j < i {
                                assert(s0[j].0 == k);
                            } else {
                                assert(s0[j + 1].0 == k);
                            }
                        }
                    }
                    assert forall|j: int| 0 <= j < s.len() implies m[#[trigger] s[j].0]
                        == s[j].1 by {
                        if j < i {
                            assert(s0[j] == s[j]);
                        } else {
                            assert(s0[j + 1] == s[j]);
                        }
                    }
                    lemma_ref_map_is(s, m);
                }
                true
            },
            None => {
                proof {
                    assert(!old(self)@.contains_key(field@));
                    assert(old(self)@.remove(field@) =~= old(self)@);
                }
                false
            },
        }
    }

    /// Clears every emitted flag.
    pub fn reset(&mut self)
        requires
            old(self).wf(),
        ensures
            final(self).wf(),
            final(self)@.dom() == old(self)@.dom(),
            forall|k: FieldModel| #[trigger] final(self)@.contains_key(k) ==> !final(self)@[k],
    {
        let ghost s0 = refs_model(self.references@);
        let mut i: usize = 0;
        while i < self.references.len()
            invariant
                i <= self.references@.len(),
                self.references@.len() == s0.len(),
                forall|j: int|
                    0 <= j < s0.len() ==> #[trigger] refs_model(self.references@)[j].0 == s0[j].0,
                forall|j: int| 0 <= j < i ==> !#[trigger] refs_model(self.references@)[j].1,
            decreases self.references@.len() - i,
        {
            let f = self.references[i].0.duplicate();
            let ghost before = refs_model(self.references@);
            self.references.set(i, (f, false));
            assert(refs_model(self.references@) =~= before.update(i as int, (before[i as int].0, false)));
            i = i + 1;
        }
        proof {
            let s = refs_model(self.references@);
            assert(unique_keys(s)) by {
                assert forall|a: int, b: int|
                    0 <= a < s.len() && 0 <= b < s.len() && s[a].0 == s[b].0 implies a == b by {
                    assert(s0[a].0 == s[a].0 && s0[b].0 == s[b].0);
                }
            }
            lemma_ref_map(s);
            lemma_ref_map(s0);
            assert forall|k: FieldModel| self@.contains_key(k) <==> old(self)@.contains_key(k) by {
                if self@.contains_key(k) {
                    let j = choose|j: int| 0 <= j < s.len() && s[j].0 == k;
                    assert(s0[j].0 == k);
                }
                if old(self)@.contains_key(k) {
                    let j = choose|j: int| 0 <= j < s0.len() && s0[j].0 == k;
                    assert(s[j].0 == k);
                }
            }
            assert(self@.dom() =~= old(self)@.dom());
            assert forall|k: FieldModel| #[trigger] self@.contains_key(k) implies !self@[k] by {
                let j = choose|j: int| 0 <= j < s.len() && s[j].0 == k;
                assert(self@[s[j].0] == s[j].1);
            }
        }
    }

    /// Copies of the references, with their flags, in no particular order.
    pub fn entries(&self) -> (r: Vec<(HeaderField, bool)>)
        requires
            self.wf(),
        ensures
            unique_keys(refs_model(r@)),
            ref_map(refs_model(r@)) == self@,
    {
        let mut r: Vec<(HeaderField, bool)> = Vec::new();
        let mut i: usize = 0;
        while i < self.references.len()
            invariant
                i <= self.references@.len(),
                refs_model(r@) == refs_model(self.references@).subrange(0, i as int),
            decreases self.references@.len() - i,
        {
            let f = self.references[i].0.duplicate();
            let ghost prev = refs_model(r@);
            r.push((f, self.references[i].1));
            assert(refs_model(r@) =~= prev.push(refs_model(self.references@)[i as int]));
            i = i + 1;
            assert(refs_model(r@) =~= refs_model(self.references@).subrange(0, i as int));
        }
        assert(refs_model(r@) =~= refs_model(self.references@));
        r
    }
}

} // verus!
