//! The encoding context: turns header sets into header blocks.

use vstd::prelude::*;
use crate::context::{Context, CtxModel, evict_model, lemma_evict, model_ok, resolve_model};
use crate::decoder::{lemma_evict_paired, lemma_step_extend, literal_parts, paired, step, string_at, update_step, walk_from, reset_model};
use crate::header_field::MAX_STRING_LEN;
use crate::huffman::{huffman_octets, lemma_encoding_is_valid};
use crate::integer::{INT_MAX, int_octets, lemma_int_round_trip_at, lemma_prefix_bounds, pow2, prefix_bound};
use crate::representation::{string_octets, with_flags};
use crate::header_field::{FieldModel, HeaderField, field_fits, field_size, fields_model};
use crate::header_table::{DEFAULT_HEADER_TABLE_SIZE, seq_size};
use crate::huffman::HuffmanEncoder;
use crate::reference_set::{lemma_ref_map, refs_model};
use crate::representation::{ContextUpdate, IndexedHeader, IndexedLiteral, NamedLiteral, Representation};

verus! {

/// Whether `f` is among `v`.
fn contains_field(v: &Vec<HeaderField>, f: &HeaderField) -> (r: bool)
    ensures
        r == fields_model(v@).contains(f@),
{
    let mut i: usize = 0;
    while i < v.len()
        invariant
            i <= v@.len(),
            forall|j: int| 0 <= j < i ==> fields_model(v@)[j] != f@,
        decreases v@.len() - i,
    {
        if v[i].same_as(f) {
            assert(fields_model(v@)[i as int] == f@);
            return true;
        }
        i = i + 1;
    }
    false
}

/// Appends `b` to `a`.
fn append(a: &mut Vec<u8>, b: Vec<u8>)
    ensures
        final(a)@ == old(a)@ + b@,
{
    let mut k: usize = 0;
    while k < b.len()
        invariant
            k <= b@.len(),
            a@ == old(a)@ + b@.subrange(0, k as int),
        decreases b@.len() - k,
    {
        a.push(b[k]);
        k = k + 1;
        assert(a@ =~= old(a)@ + b@.subrange(0, k as int));
    }
    assert(b@.subrange(0, b@.len() as int) =~= b@);
}

/// The octets to send for `s`: its Huffman coding when that is strictly
/// shorter, else `s` itself; and whether it is Huffman-coded.
fn choose_coding(huffman: &mut HuffmanEncoder, s: &Vec<u8>) -> (r: (bool, Vec<u8>))
    ensures
        r.0 == (huffman_octets(s@).len() < s@.len()),
        r.1@ == sent_as(r.0, s@),
{
    let h = huffman.encode(crate::header_field::copy_bytes(s.as_slice()));
    if h.len() < s.len() {
        (true, h)
    } else {
        (false, crate::header_field::copy_bytes(s.as_slice()))
    }
}

/// The octets sent for string `v`: its Huffman coding or itself.
pub open spec fn sent_as(huffman: bool, v: Seq<u8>) -> Seq<u8> {
    if huffman {
        huffman_octets(v)
    } else {
        v
    }
}

proof fn lemma_pow2_facts()
    ensures
        pow2(4) == 16,
        pow2(6) == 64,
        pow2(7) == 128,
{
    reveal_with_fuel(pow2, 8);
}

/// A string literal of `v`, raw or Huffman-coded, written at any position
/// and followed by anything, reads back as `v` and ends where it was
/// written to end; `read_string` therefore returns exactly `v` there.
pub proof fn lemma_string_round_trip(blk: Seq<u8>, huffman: bool, v: Seq<u8>, tail: Seq<u8>)
    requires
        v.len() <= MAX_STRING_LEN,
        sent_as(huffman, v).len() <= INT_MAX,
    ensures
        string_at(
            blk + string_octets(huffman, sent_as(huffman, v)) + tail,
            blk.len() as int,
            v,
            (blk.len() + string_octets(huffman, sent_as(huffman, v)).len()) as int,
        ),
{
    let pl = sent_as(huffman, v);
    let o = int_octets(pl.len(), 7);
    let flags: nat = if huffman { 0x80 } else { 0 };
    lemma_prefix_bounds();
    lemma_pow2_facts();
    lemma_int_round_trip_at(pl.len(), 7, flags, blk, pl + tail);
    let w = o.update(0, (o[0] + flags) as u8);
    assert(w == with_flags(o, flags));
    let s = blk + string_octets(huffman, pl) + tail;
    assert(s =~= blk + w + (pl + tail));
    assert(s.subrange((blk.len() + o.len()) as int, (blk.len() + o.len() + pl.len()) as int) =~= pl);
    if huffman {
        lemma_encoding_is_valid(v);
    }
}

/// An indexed header field appended to a block is one decoder step.
proof fn lemma_indexed_step(blk: Seq<u8>, j: nat, c: CtxModel, o: Seq<FieldModel>)
    requires
        1 <= j <= INT_MAX,
        resolve_model(c.0, j as int) is Some,
    ensures
        ({
            let rep = with_flags(int_octets(j, 7), 0x80);
            let s = blk + rep;
            let f = resolve_model(c.0, j as int).unwrap();
            &&& s[blk.len() as int] >= 128
            &&& crate::integer::int_decode(s, blk.len() as int, 7) == Some((j, s.len() as int))
            &&& blk.len() < s.len()
        }),
{
    lemma_prefix_bounds();
    lemma_pow2_facts();
    lemma_int_round_trip_at(j, 7, 0x80, blk, Seq::empty());
    let rep = with_flags(int_octets(j, 7), 0x80);
    assert(blk + rep + Seq::<u8>::empty() =~= blk + rep);
}

/// An indexed header field naming a referenced entry: the decoder drops
/// the reference.
proof fn lemma_toggle_step(blk: Seq<u8>, j: nat, c: CtxModel, o: Seq<FieldModel>)
    requires
        1 <= j <= INT_MAX,
        resolve_model(c.0, j as int) matches Some(f) && c.2.contains_key(f),
    ensures
        ({
            let rep = with_flags(int_octets(j, 7), 0x80);
            let f = resolve_model(c.0, j as int).unwrap();
            step(blk + rep, blk.len() as int, c, o, (blk + rep).len() as int, (c.0, c.1, c.2.remove(f)), o)
        }),
{
    lemma_indexed_step(blk, j, c, o);
}

/// The decoder's context after an indexed header field adds `f`.
pub open spec fn index_add_outcome(c: CtxModel, j: nat, f: FieldModel) -> CtxModel {
    if j <= c.0.len() {
        (c.0, c.1, c.2.insert(f, true))
    } else {
        let ev = evict_model(seq![f] + c.0, c.1, c.2.insert(f, true));
        (ev.0, c.1, ev.1)
    }
}

/// An indexed header field naming an unreferenced entry: the decoder
/// emits it and references it, copying a static entry into the table.
proof fn lemma_index_add_step(blk: Seq<u8>, j: nat, c: CtxModel, o: Seq<FieldModel>)
    requires
        1 <= j <= INT_MAX,
        resolve_model(c.0, j as int) matches Some(f) && !c.2.contains_key(f) && field_fits(f),
    ensures
        ({
            let rep = with_flags(int_octets(j, 7), 0x80);
            let f = resolve_model(c.0, j as int).unwrap();
            step(
                blk + rep,
                blk.len() as int,
                c,
                o,
                (blk + rep).len() as int,
                index_add_outcome(c, j, f),
                o.push(f),
            )
        }),
{
    lemma_indexed_step(blk, j, c, o);
}

/// The reference set emptying octet.
proof fn lemma_clear_step(blk: Seq<u8>, c: CtxModel, o: Seq<FieldModel>)
    ensures
        ({
            let rep = with_flags(int_octets(0, 4), 0x30);
            step(
                blk + rep,
                blk.len() as int,
                c,
                o,
                (blk + rep).len() as int,
                (c.0, c.1, Map::<FieldModel, bool>::empty()),
                o,
            )
        }),
{
    lemma_prefix_bounds();
    let rep = with_flags(int_octets(0, 4), 0x30);
    assert(rep =~= seq![0x30u8]);
    assert((blk + rep)[blk.len() as int] == 0x30);
    assert(update_step(
        blk + rep,
        blk.len() as int,
        c,
        o,
        (blk + rep).len() as int,
        (c.0, c.1, Map::<FieldModel, bool>::empty()),
        o,
    ));
}

/// A literal without indexing whose name is that of entry `j`.
proof fn lemma_plain_literal_step(
    blk: Seq<u8>,
    j: nat,
    f: FieldModel,
    huffman: bool,
    c: CtxModel,
    o: Seq<FieldModel>,
)
    requires
        1 <= j <= INT_MAX,
        resolve_model(c.0, j as int) matches Some(g) && g.0 == f.0,
        field_fits(f),
        sent_as(huffman, f.1).len() <= INT_MAX,
    ensures
        ({
            let rep = with_flags(int_octets(j, 4), 0) + string_octets(huffman, sent_as(huffman, f.1));
            step(blk + rep, blk.len() as int, c, o, (blk + rep).len() as int, c, o.push(f))
        }),
{
    lemma_prefix_bounds();
    lemma_pow2_facts();
    let head = with_flags(int_octets(j, 4), 0);
    let str = string_octets(huffman, sent_as(huffman, f.1));
    let s = blk + (head + str);
    lemma_int_round_trip_at(j, 4, 0, blk, str);
    assert(int_octets(j, 4).update(0, (int_octets(j, 4)[0] + 0) as u8) == head);
    assert(s =~= blk + head + str);
    lemma_string_round_trip(blk + head, huffman, f.1, Seq::empty());
    assert(blk + head + str + Seq::<u8>::empty() =~= s);
    assert(s[blk.len() as int] == head[0]);
    let p = (blk.len() + head.len()) as int;
    assert(literal_parts(s, p, j, c.0, f.0, p, f.1, s.len() as int));
    assert((f.0, f.1) == f);
    assert(crate::integer::int_decode(s, blk.len() as int, 4) == Some((j, p)));
    crate::decoder::lemma_literal_step_intro(s, blk.len() as int, 4, false, c, o, s.len() as int, c, j, p, f.0, p, f.1);
    assert(crate::decoder::literal_step(s, blk.len() as int, 4, false, c, o, s.len() as int, c, o.push(f)));
}

/// A literal with incremental indexing and a literal name.
proof fn lemma_new_literal_step(
    blk: Seq<u8>,
    f: FieldModel,
    hn: bool,
    hv: bool,
    c: CtxModel,
    o: Seq<FieldModel>,
)
    requires
        field_fits(f),
        sent_as(hn, f.0).len() <= INT_MAX,
        sent_as(hv, f.1).len() <= INT_MAX,
    ensures
        ({
            let rep = seq![0x40u8] + string_octets(hn, sent_as(hn, f.0)) + string_octets(
                hv,
                sent_as(hv, f.1),
            );
            let ev = evict_model(seq![f] + c.0, c.1, c.2.insert(f, true));
            step(blk + rep, blk.len() as int, c, o, (blk + rep).len() as int, (ev.0, c.1, ev.1), o.push(f))
        }),
{
    lemma_prefix_bounds();
    lemma_pow2_facts();
    let sn = string_octets(hn, sent_as(hn, f.0));
    let sv = string_octets(hv, sent_as(hv, f.1));
    let s = blk + (seq![0x40u8] + sn + sv);
    let b1 = blk.push(0x40u8);
    assert(s =~= b1 + sn + sv);
    assert(s[blk.len() as int] == 0x40);
    assert(crate::integer::int_decode(s, blk.len() as int, 6) == Some((0nat, (blk.len() + 1) as int)));
    lemma_string_round_trip(b1, hn, f.0, sv);
    lemma_string_round_trip(b1 + sn, hv, f.1, Seq::empty());
    assert(b1 + sn + sv + Seq::<u8>::empty() =~= s);
    let p2 = (b1.len() + sn.len()) as int;
    assert(literal_parts(s, (blk.len() + 1) as int, 0nat, c.0, f.0, p2, f.1, s.len() as int));
    assert((f.0, f.1) == f);
    let ev = evict_model(seq![f] + c.0, c.1, c.2.insert(f, true));
    crate::decoder::lemma_literal_step_intro(
        s,
        blk.len() as int,
        6,
        true,
        c,
        o,
        s.len() as int,
        (ev.0, c.1, ev.1),
        0,
        (blk.len() + 1) as int,
        f.0,
        p2,
        f.1,
    );
    assert(crate::decoder::literal_step(
        s,
        blk.len() as int,
        6,
        true,
        c,
        o,
        s.len() as int,
        (ev.0, c.1, ev.1),
        o.push(f),
    ));
}

/// Whether a string goes Huffman-coded: when that is strictly shorter.
pub open spec fn use_huffman(v: Seq<u8>) -> bool {
    huffman_octets(v).len() < v.len()
}

/// The octets of an indexed header field for index `i`.
pub open spec fn indexed_octets(i: nat) -> Seq<u8> {
    with_flags(int_octets(i, 7), 0x80)
}

/// The policy's step for field `f` from context `c` and block `b0`: nothing
/// when `f` is referenced; else, by the search of the combined index
/// space, the index of a full match (copying a static entry into the
/// dynamic table, and referencing it); a literal without indexing named by
/// the index of a name match (the context unchanged); or a literal with
/// incremental indexing and a literal name (inserted and referenced). Each
/// string goes Huffman-coded when that is strictly shorter.
pub open spec fn add_step(c: CtxModel, f: FieldModel, b0: Seq<u8>, c1: CtxModel, b1: Seq<u8>) -> bool {
    if c.2.contains_key(f) {
        b1 == b0 && c1 == c
    } else {
        exists|res: Option<(usize, bool)>| #[trigger] crate::context::is_header_search(c.0, f, res) && match res {
            Some((i, true)) => b1 == b0 + indexed_octets(i as nat) && c1 == (if i <= c.0.len() {
                (c.0, c.1, c.2.insert(f, true))
            } else {
                let ev = evict_model(seq![f] + c.0, c.1, c.2.insert(f, true));
                (ev.0, c.1, ev.1)
            }),
            Some((i, false)) => b1 == b0 + with_flags(int_octets(i as nat, 4), 0) + string_octets(
                use_huffman(f.1),
                sent_as(use_huffman(f.1), f.1),
            ) && c1 == c,
            None => b1 == b0 + seq![0x40u8] + string_octets(use_huffman(f.0), sent_as(use_huffman(f.0), f.0))
                + string_octets(use_huffman(f.1), sent_as(use_huffman(f.1), f.1)) && ({
                let ev = evict_model(seq![f] + c.0, c.1, c.2.insert(f, true));
                c1 == (ev.0, c.1, ev.1)
            }),
        }
    }
}

/// The first position (from 1) of `f` in dynamic table `d`.
pub open spec fn first_index(d: Seq<FieldModel>, f: FieldModel) -> nat {
    choose|i: nat| 1 <= i <= d.len() && #[trigger] d[i - 1] == f && forall|j: int| 0 <= j < i - 1 ==> d[j] != f
}

proof fn lemma_first_index(d: Seq<FieldModel>, f: FieldModel, i: nat)
    requires
        1 <= i <= d.len(),
        d[i - 1] == f,
        forall|j: int| 0 <= j < i - 1 ==> d[j] != f,
    ensures
        first_index(d, f) == i,
{
    let k = first_index(d, f);
    assert(1 <= k <= d.len() && d[k - 1] == f && forall|j: int| 0 <= j < k - 1 ==> d[j] != f);
    if k < i {
        assert(d[k - 1] != f);
    }
    if k > i {
        assert(d[i - 1] != f);
    }
}

/// The indexed header fields that drop the references `tr`, in order.
pub open spec fn toggles(d: Seq<FieldModel>, tr: Seq<FieldModel>) -> Seq<u8>
    decreases tr.len(),
{
    if tr.len() == 0 {
        Seq::empty()
    } else {
        toggles(d, tr.drop_last()) + indexed_octets(first_index(d, tr.last()))
    }
}

/// The octets that adding the fields of `h` not referenced in `r` may add
/// to a dynamic table.
pub open spec fn added_size(r: Map<FieldModel, bool>, h: Seq<FieldModel>) -> nat
    decreases h.len(),
{
    if h.len() == 0 {
        0
    } else {
        added_size(r, h.drop_last()) + if r.contains_key(h.last()) {
            0
        } else {
            field_size(h.last())
        }
    }
}

proof fn lemma_added_size_concat(r: Map<FieldModel, bool>, a: Seq<FieldModel>, b: Seq<FieldModel>)
    ensures
        added_size(r, a + b) == added_size(r, a) + added_size(r, b),
    decreases b.len(),
{
    if b.len() == 0 {
        assert(a + b =~= a);
    } else {
        lemma_added_size_concat(r, a, b.drop_last());
        assert((a + b).drop_last() =~= a + b.drop_last());
    }
}

proof fn lemma_added_size_zero(r: Map<FieldModel, bool>, h: Seq<FieldModel>)
    requires
        forall|x: int| 0 <= x < h.len() ==> r.contains_key(#[trigger] h[x]),
    ensures
        added_size(r, h) == 0,
    decreases h.len(),
{
    if h.len() > 0 {
        lemma_added_size_zero(r, h.drop_last());
        assert(r.contains_key(h[h.len() - 1]));
    }
}

/// Whether the policy empties the reference set: when more than half of
/// the references go, or when adding the fields not referenced might evict
/// an entry (which could drop a reference that is kept).
pub open spec fn empties(c: CtxModel, h: Seq<FieldModel>) -> bool {
    unwanted(c.2, h).len() > c.2.dom().len() / 2 || seq_size(c.0) + added_size(c.2, h) > c.1
}

/// `es` are the block and context after the removal phase and after each
/// field of `h`, for the references `tr` that go, in the order dropped.
pub open spec fn encoding_trace(
    c: CtxModel,
    h: Seq<FieldModel>,
    tr: Seq<FieldModel>,
    es: Seq<(Seq<u8>, CtxModel)>,
) -> bool {
    &&& tr.no_duplicates()
    &&& tr.to_set() == unwanted(c.2, h)
    &&& es.len() == h.len() + 1
    &&& if empties(c, h) {
        es[0] == (seq![0x30u8], (c.0, c.1, Map::<FieldModel, bool>::empty()))
    } else {
        es[0] == (toggles(c.0, tr), (c.0, c.1, c.2.remove_keys(unwanted(c.2, h))))
    }
    &&& forall|k: int|
        0 <= k < h.len() ==> #[trigger] add_step(es[k].1, h[k], es[k].0, es[k + 1].1, es[k + 1].0)
}

/// Every reference of `refs` is one of `desired`.
pub open spec fn refs_within(refs: Map<FieldModel, bool>, desired: Seq<FieldModel>) -> bool {
    forall|k: FieldModel| #[trigger] refs.contains_key(k) ==> desired.contains(k)
}

/// All fields of `v` fit the integer codec.
pub open spec fn all_fields_fit(v: Seq<HeaderField>) -> bool {
    forall|i: int| 0 <= i < v.len() ==> field_fits(#[trigger] v[i]@)
}

/// An HPACK encoding context.
pub struct Encoder {
    context: Context,
    huffman_encoder: HuffmanEncoder,
}

impl Encoder {
    /// The encoding context's state.
    pub closed spec fn context(&self) -> Context {
        self.context
    }

    pub open spec fn wf(&self) -> bool {
        self.context().wf()
    }

    /// The context this encoder works on.
    pub fn state(&self) -> (r: &Context)
        ensures
            *r == self.context(),
    {
        &self.context
    }

    /// An empty encoding context with the default table size.
    pub fn new() -> (r: Encoder)
        ensures
            r.wf(),
            r.context().dynamic() == Seq::<FieldModel>::empty(),
            r.context().max_size() == DEFAULT_HEADER_TABLE_SIZE,
            r.context().refs() == Map::<FieldModel, bool>::empty(),
    {
        Encoder { context: Context::new(DEFAULT_HEADER_TABLE_SIZE), huffman_encoder: HuffmanEncoder::new() }
    }


    /// Adds `hf` to the header block unless it is referenced already: by
    /// index on a full match (copying a static entry into the dynamic
    /// table), as a literal without indexing on a name match, else as a
    /// literal with incremental indexing.
    #[verifier::rlimit(80)]
    fn add_field(
        &mut self,
        block: &mut Vec<u8>,
        hf: &HeaderField,
        Ghost(dc): Ghost<CtxModel>,
        Ghost(o): Ghost<Seq<FieldModel>>,
    ) -> (r: Ghost<CtxModel>)
        requires
            old(self).wf(),
            field_fits(hf@),
            paired(dc, old(self).context().model()),
        ensures
            final(self).wf(),
            paired(r@, final(self).context().model()),
            old(block)@.len() <= final(block)@.len(),
            final(block)@.subrange(0, old(block)@.len() as int) == old(block)@,
            old(self).context().refs().contains_key(hf@) ==> final(block)@ == old(block)@ && r@ == dc
                && final(self).context() == old(self).context(),
            (forall|k: FieldModel| #[trigger] dc.2.contains_key(k) ==> dc.2[k] && o.contains(k)) ==> (
            forall|k: FieldModel| #[trigger] r@.2.contains_key(k) ==> r@.2[k] && o.push(hf@).contains(
                k,
            )),
            add_step(
                old(self).context().model(),
                hf@,
                old(block)@,
                final(self).context().model(),
                final(block)@,
            ),
            final(block)@ == old(block)@ ==> old(self).context().refs().contains_key(hf@) && r@ == dc,
            forall|k: FieldModel| #[trigger]
                r@.2.contains_key(k) && r@.2[k] ==> (dc.2.contains_key(k) && dc.2[k]) || k == hf@,
            seq_size(dc.0) + field_size(hf@) <= dc.1 ==> (forall|k: FieldModel| #[trigger]
                dc.2.contains_key(k) && k != hf@ ==> r@.2.contains_key(k) && r@.2[k] == dc.2[k])
                && seq_size(r@.0) <= seq_size(dc.0) + field_size(hf@),
            (final(block)@ == old(block)@ && r@ == dc) || step(
                final(block)@,
                old(block)@.len() as int,
                dc,
                o,
                final(block)@.len() as int,
                r@,
                o.push(hf@),
            ),
            forall|f: FieldModel| #[trigger] final(self).context().refs().contains_key(f) ==> f
                == hf@ || old(self).context().refs().contains_key(f),
    {
        if self.context.is_referenced(hf) {
            assert(block@.subrange(0, block@.len() as int) =~= block@);
            proof {
                assert forall|k: FieldModel| #[trigger] dc.2.contains_key(k) && o.contains(k) implies o.push(
                    hf@,
                ).contains(k) by {
                    let x = choose|x: int| 0 <= x < o.len() && o[x] == k;
                    assert(o.push(hf@)[x] == k);
                }
            }
            return Ghost(dc);
        }
        let ghost r0 = self.context().refs();
        let ghost d0 = self.context().dynamic();
        let ghost mx = self.context().max_size();
        let ghost b0 = block@;
        let ghost f = hf@;
        proof {
            self.context.lemma_len_bound();
            assert(!dc.2.contains_key(f));
        }
        let ghost mut dc2 = dc;
        let found = self.context.find_header(hf);
        match found {
            Some((index, true)) => {
                let rep = IndexedHeader::new(index).encode();
                proof {
                    lemma_index_add_step(b0, index as nat, dc, o);
                    dc2 = index_add_outcome(dc, index as nat, f);
                }
                let ghost rv = rep@;
                append(block, rep);
                assert(block@ =~= b0 + rv);
                if index > self.context.dynamic_len() {
                    self.context.insert(hf.duplicate(), true);
                    proof {
                        lemma_evict(seq![f] + d0, mx, r0.insert(f, true));
                        lemma_evict_paired(seq![f] + d0, mx, r0.insert(f, true), dc.2.insert(f, true));
                    }
                } else {
                    self.context.reference(hf.duplicate(), true);
                }
                proof {
                    assert(rv == indexed_octets(index as nat));
                    let c0 = (d0, mx, r0);
                    if index as nat <= d0.len() {
                        assert(self.context().model() == (c0.0, c0.1, c0.2.insert(f, true)));
                    } else {
                        let ev = evict_model(seq![f] + c0.0, c0.1, c0.2.insert(f, true));
                        assert(self.context().model() == (ev.0, c0.1, ev.1));
                    }
                }
            },
            Some((index, false)) => {
                let (huff, value) = choose_coding(&mut self.huffman_encoder, &hf.value);
                let rep = IndexedLiteral::new(false, false, index, huff, value).encode();
                proof {
                    lemma_plain_literal_step(b0, index as nat, f, huff, dc, o);
                }
                let ghost rv = rep@;
                append(block, rep);
                assert(block@ =~= b0 + rv);
                proof {
                    assert(block@ =~= b0 + with_flags(int_octets(index as nat, 4), 0) + string_octets(
                        use_huffman(f.1),
                        sent_as(use_huffman(f.1), f.1),
                    ));
                }
            },
            None => {
                let (name_huff, name) = choose_coding(&mut self.huffman_encoder, &hf.key);
                let (value_huff, value) = choose_coding(&mut self.huffman_encoder, &hf.value);
                let rep = NamedLiteral::new(true, false, name_huff, name, value_huff, value).encode();
                proof {
                    lemma_new_literal_step(b0, f, name_huff, value_huff, dc, o);
                    let ev = evict_model(seq![f] + dc.0, dc.1, dc.2.insert(f, true));
                    dc2 = (ev.0, dc.1, ev.1);
                }
                let ghost rv = rep@;
                append(block, rep);
                assert(block@ =~= b0 + rv);
                self.context.insert(hf.duplicate(), true);
                proof {
                    lemma_evict(seq![f] + d0, mx, r0.insert(f, true));
                    lemma_evict_paired(seq![f] + d0, mx, r0.insert(f, true), dc.2.insert(f, true));
                    assert(block@ =~= b0 + seq![0x40u8] + string_octets(
                        use_huffman(f.0),
                        sent_as(use_huffman(f.0), f.0),
                    ) + string_octets(use_huffman(f.1), sent_as(use_huffman(f.1), f.1)));
                    let ev = evict_model(seq![f] + d0, mx, r0.insert(f, true));
                    assert(self.context().model() == (ev.0, mx, ev.1));
                }
            },
        }
        proof {
            lemma_evict(seq![f] + dc.0, dc.1, dc.2.insert(f, true));
            crate::header_table::lemma_seq_size_prepend(f, dc.0);
            assert(block@.len() > b0.len());
            assert forall|k: FieldModel| #[trigger] dc2.2.contains_key(k) && dc2.2[k] implies (dc.2.contains_key(
                k,
            ) && dc.2[k]) || k == f by {
                if k != f && dc2.2.contains_key(k) {
                    assert(dc.2.insert(f, true).contains_key(k));
                }
            }
            if seq_size(dc.0) + field_size(f) <= dc.1 {
                assert(seq_size(seq![f] + dc.0) <= dc.1);
                assert(evict_model(seq![f] + dc.0, dc.1, dc.2.insert(f, true)) == (seq![f] + dc.0, dc.2.insert(f, true)));
            }
            if forall|k: FieldModel| #[trigger] dc.2.contains_key(k) ==> dc.2[k] && o.contains(k) {
                lemma_evict(seq![f] + dc.0, dc.1, dc.2.insert(f, true));
                assert forall|k: FieldModel| #[trigger] dc2.2.contains_key(k) implies dc2.2[k] && o.push(
                    f,
                ).contains(k) by {
                    if k == f {
                        assert(o.push(f)[o.len() as int] == f);
                    } else {
                        if dc.2.contains_key(k) {
                            let x = choose|x: int| 0 <= x < o.len() && o[x] == k;
                            assert(o.push(f)[x] == k);
                        }
                    }
                }
            }
            assert(block@.subrange(0, b0.len() as int) =~= b0);
            assert(crate::context::is_header_search(d0, f, found));
            assert forall|g: FieldModel| #[trigger] self.context().refs().contains_key(g) implies g
                == f || r0.contains_key(g) by {
                if g != f && r0.insert(f, true).contains_key(g) {
                    assert(r0.contains_key(g));
                }
            }
        }
        Ghost(dc2)
    }

    /// Encodes a set of header fields against this context.
    ///
    /// The block is what `encoding_trace` lays out. First the references
    /// that are not wanted go: all at once by the emptying octet `0x30`
    /// when more than half of them go, or when adding the fields not yet
    /// referenced might evict an entry (and with it a reference that is
    /// kept); else one by one, each by an indexed header field at its first
    /// position in the dynamic table. Then each field, in order, by
    /// `add_step`.
    ///
    /// A decoder whose context equals this one's, its flags cleared, walks
    /// the block to the end; it then holds this context's new dynamic
    /// table, maximum size and referenced fields. Every field it emits is
    /// one of `fields`, and every field of `fields` is emitted or left as a
    /// reference still to emit. Every reference left is one of `fields` and
    /// an entry of the dynamic table, which fits its maximum size.
    pub fn encode(&mut self, fields: Vec<HeaderField>) -> (r: Vec<u8>)
        requires
            old(self).wf(),
            all_fields_fit(fields@),
        ensures
            final(self).wf(),
            refs_within(final(self).context().refs(), fields_model(fields@)),
            exists|t: Seq<(int, CtxModel, Seq<FieldModel>)>| #[trigger] walk_from(
                r@,
                reset_model(old(self).context().model()),
                t,
            ) && paired(t.last().1, final(self).context().model()) && (forall|f: FieldModel|
                t.last().2.contains(f) ==> fields_model(fields@).contains(f)) && (old(
                self,
            ).context().refs() == Map::<FieldModel, bool>::empty() ==> (forall|f: FieldModel|
                fields_model(fields@).contains(f) ==> t.last().2.contains(f)) && forall|
                k: FieldModel,
            | #[trigger] t.last().1.2.contains_key(k) ==> t.last().1.2[k]) && forall|f: FieldModel|
                #[trigger] fields_model(fields@).contains(f) ==> t.last().2.contains(f) || (
                t.last().1.2.contains_key(f) && !t.last().1.2[f]),
            exists|tr: Seq<FieldModel>, es: Seq<(Seq<u8>, CtxModel)>| #[trigger] encoding_trace(
                old(self).context().model(),
                fields_model(fields@),
                tr,
                es,
            ) && r@ == es.last().0 && final(self).context().model() == es.last().1,
            model_ok(final(self).context().model()),
            (forall|f: FieldModel| #[trigger]
                old(self).context().refs().contains_key(f) <==> fields_model(fields@).contains(f))
                ==> r@.len() == 0 && final(self).context() == old(self).context(),
            unwanted(old(self).context().refs(), fields_model(fields@)).len() > old(
                self,
            ).context().refs().dom().len() / 2 ==> r@.len() > 0 && r@[0] == 0x30,
    {
        let ghost desired = fields_model(fields@);
        let ghost c_start = self.context();
        let ghost fresh = old(self).context().refs() == Map::<FieldModel, bool>::empty();
        let ghost same = forall|f: FieldModel| #[trigger]
            old(self).context().refs().contains_key(f) <==> fields_model(fields@).contains(f);
        let ghost cs = reset_model(old(self).context().model());
        let mut block: Vec<u8> = Vec::new();
        let entries = self.context.references();
        let ghost rs = refs_model(entries@);
        proof {
            lemma_ref_map(rs);
        }
        let mut to_remove: Vec<HeaderField> = Vec::new();
        let mut i: usize = 0;
        while i < entries.len()
            invariant
                rs == refs_model(entries@),
                crate::reference_set::unique_keys(rs),
                desired == fields_model(fields@),
                i <= entries@.len(),
                forall|j: int| 0 <= j < i ==> desired.contains(#[trigger] rs[j].0) || fields_model(
                    to_remove@,
                ).contains(rs[j].0),
                forall|x: int, y: int|
                    0 <= x < y < to_remove@.len() ==> #[trigger] fields_model(to_remove@)[x]
                        != #[trigger] fields_model(to_remove@)[y],
                forall|x: int|
                    0 <= x < to_remove@.len() ==> key_before(rs, #[trigger] fields_model(to_remove@)[x], i as int),
                forall|x: int|
                    0 <= x < to_remove@.len() ==> !desired.contains(#[trigger] fields_model(to_remove@)[x]),
            decreases entries@.len() - i,
        {
            assert(rs[i as int].0 == entries@[i as int].0@);
            if !contains_field(&fields, &entries[i].0) {
                let ghost prev = fields_model(to_remove@);
                to_remove.push(entries[i].0.duplicate());
                proof {
                    let cur = fields_model(to_remove@);
                    assert(cur =~= prev.push(rs[i as int].0));
                    assert forall|j: int| 0 <= j < i + 1 implies desired.contains(#[trigger] rs[j].0)
                        || cur.contains(rs[j].0) by {
                        if j < i && !desired.contains(rs[j].0) {
                            let a = choose|a: int| 0 <= a < prev.len() && prev[a] == rs[j].0;
                            assert(cur[a] == rs[j].0);
                        }
                        if j == i {
                            assert(cur[prev.len() as int] == rs[j].0);
                        }
                    }
                    assert forall|x: int, y: int| 0 <= x < y < cur.len() implies #[trigger] cur[x]
                        != #[trigger] cur[y] by {
                        if y == prev.len() {
                            assert(prev[x] == cur[x]);
                            assert(key_before(rs, prev[x], i as int));
                            let jj = choose|jj: int| 0 <= jj < i && rs[jj].0 == prev[x];
                            assert(rs[jj].0 != rs[i as int].0);
                        } else {
                            assert(prev[x] == cur[x] && prev[y] == cur[y]);
                        }
                    }
                    assert forall|x: int| 0 <= x < cur.len() implies !desired.contains(#[trigger] cur[x]) by {
                        if x < prev.len() {
                            assert(prev[x] == cur[x]);
                        }
                    }
                    assert forall|x: int| 0 <= x < cur.len() implies key_before(rs, #[trigger] cur[x], i + 1) by {
                        if x < prev.len() {
                            assert(prev[x] == cur[x]);
                            assert(key_before(rs, prev[x], i as int));
                            let jj = choose|jj: int| 0 <= jj < i && rs[jj].0 == prev[x];
                            assert(0 <= jj < i + 1 && rs[jj].0 == cur[x]);
                        } else {
                            assert(rs[i as int].0 == cur[x]);
                        }
                    }
                }
            }
            i = i + 1;
        }
        let ghost tr = fields_model(to_remove@);
        assert forall|k: FieldModel| #[trigger] self.context().refs().contains_key(k) implies desired.contains(k)
            || tr.contains(k) by {
            let j = choose|j: int| 0 <= j < rs.len() && rs[j].0 == k;
        }
        assert forall|x: int| 0 <= x < tr.len() implies self.context().refs().contains_key(#[trigger] tr[x]) by {
            assert(key_before(rs, tr[x], entries@.len() as int));
            let jj = choose|jj: int| 0 <= jj < entries@.len() && rs[jj].0 == tr[x];
            assert(self.context().refs()[rs[jj].0] == rs[jj].1);
        }
        proof {
            let un = unwanted(c_start.refs(), desired);
            assert(tr.no_duplicates());
            assert(tr.to_set() =~= un) by {
                assert forall|f: FieldModel| tr.to_set().contains(f) <==> un.contains(f) by {
                    if tr.to_set().contains(f) {
                        let x = choose|x: int| 0 <= x < tr.len() && tr[x] == f;
                        assert(!desired.contains(tr[x]));
                        assert(self.context().refs().contains_key(tr[x]));
                    }
                    if un.contains(f) {
                        let j = choose|j: int| 0 <= j < rs.len() && rs[j].0 == f;
                        assert(desired.contains(rs[j].0) || tr.contains(rs[j].0));
                    }
                }
            }
            tr.unique_seq_to_set();
            assert(entries@.len() == c_start.refs().dom().len());
            if fresh {
                assert(c_start.refs().dom() =~= Set::<FieldModel>::empty());
                if tr.len() > 0 {
                    assert(key_before(rs, tr[0], entries@.len() as int));
                }
            }
            if same && tr.len() > 0 {
                assert(self.context().refs().contains_key(tr[0]));
                assert(!desired.contains(tr[0]));
            }
        }
        let ghost un = unwanted(c_start.refs(), desired);
        let ghost d = c_start.dynamic();
        proof {
            c_start.lemma_model_ok();
            c_start.lemma_len_bound();
        }
        let mut indices: Vec<usize> = Vec::new();
        let mut all_found = true;
        let mut m: usize = 0;
        while m < to_remove.len()
            invariant
                self.wf(),
                self.context() == c_start,
                d == c_start.dynamic(),
                model_ok(c_start.model()),
                tr == fields_model(to_remove@),
                forall|x: int| 0 <= x < tr.len() ==> c_start.refs().contains_key(#[trigger] tr[x]),
                m <= to_remove@.len(),
                all_found,
                indices@.len() == m,
                forall|x: int|
                    0 <= x < m ==> 1 <= #[trigger] indices@[x] <= d.len() && resolve_model(
                        d,
                        indices@[x] as int,
                    ) == Some(tr[x]) && indices@[x] == first_index(d, tr[x]),
            decreases to_remove@.len() - m,
        {
            let ghost f = tr[m as int];
            let found = self.context.find_header(&to_remove[m]);
            proof {
                assert(d.contains(f));
                let j = choose|j: int| 0 <= j < d.len() && d[j] == f;
                assert(resolve_model(d, j + 1) == Some(f));
            }
            match found {
                Some((index, true)) => {
                    proof {
                        assert(index <= d.len()) by {
                            let j = choose|j: int| 0 <= j < d.len() && d[j] == f;
                            assert(resolve_model(d, j + 1) == Some(f));
                        }
                        assert forall|j: int| 0 <= j < index - 1 implies d[j] != f by {
                            assert(resolve_model(d, j + 1) != Some(f));
                        }
                        lemma_first_index(d, f, index as nat);
                    }
                    indices.push(index);
                },
                _ => {
                    proof {
                        let j = choose|j: int| 0 <= j < d.len() && d[j] == f;
                        assert(resolve_model(d, j + 1) == Some(f));
                    }
                    all_found = false;
                },
            }
            m = m + 1;
        }
        let mut total: u64 = self.context.dynamic_size();
        let max: u64 = self.context.get_max_size() as u64;
        let mut fits = true;
        let mut q: usize = 0;
        while q < fields.len() && fits
            invariant
                self.context() == c_start,
                desired == fields_model(fields@),
                all_fields_fit(fields@),
                q <= fields@.len(),
                max == c_start.max_size(),
                max <= 0xFFFF_FFFF,
                self.wf(),
                fits ==> total as nat == seq_size(d) + added_size(c_start.refs(), desired.subrange(0, q as int)),
                fits ==> total <= max,
                !fits ==> seq_size(d) + added_size(c_start.refs(), desired.subrange(0, q as int)) > max,
            decreases fields@.len() - q,
        {
            let sz: u64 = if self.context.is_referenced(&fields[q]) {
                0
            } else {
                fields[q].size()
            };
            proof {
                assert(desired[q as int] == fields@[q as int]@);
                let p1 = desired.subrange(0, q + 1);
                assert(p1.drop_last() =~= desired.subrange(0, q as int));
            }
            if sz > max - total {
                fits = false;
            } else {
                total = total + sz;
            }
            q = q + 1;
        }
        proof {
            if fits {
                assert(desired.subrange(0, desired.len() as int) =~= desired);
            } else {
                let pre = desired.subrange(0, q as int);
                lemma_added_size_concat(c_start.refs(), pre, desired.subrange(q as int, desired.len() as int));
                assert(pre + desired.subrange(q as int, desired.len() as int) =~= desired);
            }
            assert(fits == (seq_size(d) + added_size(c_start.refs(), desired) <= c_start.max_size()));
            if same {
                assert forall|x: int| 0 <= x < desired.len() implies c_start.refs().contains_key(#[trigger] desired[x]) by {
                    assert(desired.contains(desired[x]));
                }
                lemma_added_size_zero(c_start.refs(), desired);
            }
            assert(empties(c_start.model(), desired) == (tr.len() > entries@.len() / 2 || !fits));
        }
        let ghost mut t: Seq<(int, CtxModel, Seq<FieldModel>)> = seq![
            (0int, cs, Seq::<FieldModel>::empty()),
        ];
        let ghost cleared = empties(c_start.model(), desired);
        proof {
            assert(cs.2.dom() =~= c_start.model().2.dom());
            assert(block@ =~= Seq::<u8>::empty());
        }
        if !all_found || to_remove.len() > entries.len() / 2 || !fits {
            let rep = ContextUpdate::new(true, 0).encode();
            proof {
                lemma_clear_step(block@, t.last().1, t.last().2);
                lemma_walk_append(block@, rep@, cs, t, (t.last().1.0, t.last().1.1, Map::empty()), t.last().2);
                t = t.push(((block@ + rep@).len() as int, (t.last().1.0, t.last().1.1, Map::empty()), t.last().2));
            }
            append(&mut block, rep);
            self.context.clear_references();
            proof {
                assert(t.last().1.2.dom() =~= self.context().refs().dom());
                assert(rep@ =~= seq![0x30u8]) by {
                    lemma_prefix_bounds();
                }
                assert(block@ =~= seq![0x30u8]);
                assert(block@[0] == 0x30);
            }
        } else {
            let mut k: usize = 0;
            while k < to_remove.len()
                invariant
                    self.wf(),
                    indices@.len() == to_remove@.len(),
                    tr == fields_model(to_remove@),
                    k <= to_remove@.len(),
                    d == c_start.dynamic(),
                    self.context().dynamic() == d,
                    self.context().max_size() == c_start.max_size(),
                    d.len() <= 0x8000000,
                    forall|x: int|
                        0 <= x < tr.len() ==> 1 <= #[trigger] indices@[x] <= d.len() && resolve_model(
                            d,
                            indices@[x] as int,
                        ) == Some(tr[x]) && indices@[x] == first_index(d, tr[x]),
                    forall|x: int, y: int|
                        0 <= x < y < tr.len() ==> #[trigger] tr[x] != #[trigger] tr[y],
                    forall|x: int|
                        k <= x < tr.len() ==> self.context().refs().contains_key(#[trigger] tr[x]),
                    forall|f: FieldModel| #[trigger] self.context().refs().contains_key(f)
                        ==> desired.contains(f) || exists|j: int| k <= j < tr.len() && tr[j] == f,
                    self.context().refs() == c_start.refs().remove_keys(tr.subrange(0, k as int).to_set()),
                    block@ == toggles(d, tr.subrange(0, k as int)),
                    partial_walk(block@, cs, t),
                    paired(t.last().1, self.context().model()),
                    forall|f: FieldModel| t.last().2.contains(f) ==> desired.contains(f),
                    t.last().2 == Seq::<FieldModel>::empty(),
                    forall|f: FieldModel| #[trigger] t.last().1.2.contains_key(f) ==> !t.last().1.2[f],
                    same ==> tr.len() == 0 && block@.len() == 0 && self.context() == c_start,
                    fresh ==> tr.len() == 0 && t.len() == 1 && t[0].1 == cs,
                decreases to_remove@.len() - k,
            {
                let rep = IndexedHeader::new(indices[k]).encode();
                let ghost tk = tr[k as int];
                let ghost dc = t.last().1;
                let ghost b0 = block@;
                let ghost refs0 = self.context().refs();
                proof {
                    assert(1 <= indices@[k as int] <= d.len());
                    lemma_toggle_step(block@, indices@[k as int] as nat, dc, t.last().2);
                    let dc2 = (dc.0, dc.1, dc.2.remove(tk));
                    lemma_walk_append(block@, rep@, cs, t, dc2, t.last().2);
                    t = t.push(((block@ + rep@).len() as int, dc2, t.last().2));
                }
                append(&mut block, rep);
                self.context.unreference(&to_remove[k]);
                proof {
                    let sub1 = tr.subrange(0, k + 1);
                    assert(sub1.drop_last() =~= tr.subrange(0, k as int));
                    assert(sub1.last() == tk);
                    assert(block@ =~= toggles(d, sub1));
                    assert(sub1.to_set() =~= tr.subrange(0, k as int).to_set().insert(tk));
                    assert(self.context().refs() =~= c_start.refs().remove_keys(sub1.to_set()));
                    assert(t.last().1.2.dom() =~= self.context().refs().dom());
                    assert forall|x: int| k + 1 <= x < tr.len() implies self.context().refs().contains_key(
                        #[trigger] tr[x],
                    ) by {
                        assert(tr[x] != tr[k as int]);
                    }
                    assert forall|f: FieldModel| #[trigger] self.context().refs().contains_key(f)
                        implies desired.contains(f) || exists|j: int| k + 1 <= j < tr.len() && tr[j] == f by {
                        assert(f != tk);
                        if !desired.contains(f) {
                            let j = choose|j: int| k <= j < tr.len() && tr[j] == f;
                            assert(j != k);
                        }
                    }
                }
                k = k + 1;
            }
            proof {
                assert(tr.subrange(0, tr.len() as int) =~= tr);
                assert(tr.to_set() =~= un);
            }
        }
        let ghost mut es: Seq<(Seq<u8>, CtxModel)> = seq![(block@, self.context().model())];
        proof {
            if fresh {
                assert(cs.2.dom() =~= Set::<FieldModel>::empty());
            }
            if cleared {
                assert(self.context().model() == (d, c_start.max_size(), Map::<FieldModel, bool>::empty()));
            } else {
                assert(self.context().model() == (d, c_start.max_size(), c_start.refs().remove_keys(un)));
            }
            assert(desired.subrange(0, desired.len() as int) =~= desired);
        }
        let mut a: usize = 0;
        while a < fields.len()
            invariant
                self.wf(),
                desired == fields_model(fields@),
                all_fields_fit(fields@),
                a <= fields@.len(),
                refs_within(self.context().refs(), desired),
                partial_walk(block@, cs, t),
                paired(t.last().1, self.context().model()),
                forall|f: FieldModel| t.last().2.contains(f) ==> desired.contains(f),
                same == forall|f: FieldModel| #[trigger]
                    c_start.refs().contains_key(f) <==> desired.contains(f),
                same ==> block@.len() == 0 && self.context() == c_start,
                unwanted(c_start.refs(), desired).len() > c_start.refs().dom().len() / 2 ==> block@.len()
                    > 0 && block@[0] == 0x30,
                fresh == (c_start.refs() == Map::<FieldModel, bool>::empty()),
                fresh ==> forall|k: FieldModel| #[trigger]
                    t.last().1.2.contains_key(k) ==> t.last().1.2[k] && t.last().2.contains(k),
                fresh ==> forall|x: int| 0 <= x < a ==> t.last().2.contains(#[trigger] desired[x]),
                forall|k: FieldModel| #[trigger]
                    t.last().1.2.contains_key(k) && t.last().1.2[k] ==> t.last().2.contains(k),
                cleared ==> forall|k: FieldModel| #[trigger] t.last().1.2.contains_key(k) ==> t.last().1.2[k],
                !cleared ==> seq_size(self.context().dynamic()) + added_size(
                    c_start.refs(),
                    desired.subrange(a as int, desired.len() as int),
                ) <= self.context().max_size(),
                !cleared ==> forall|f: FieldModel| #[trigger] c_start.refs().contains_key(f)
                    && desired.contains(f) ==> self.context().refs().contains_key(f),
                forall|x: int|
                    0 <= x < a ==> t.last().2.contains(#[trigger] desired[x]) || (t.last().1.2.contains_key(
                        desired[x],
                    ) && !t.last().1.2[desired[x]]),
                es.len() == a + 1,
                es.last() == (block@, self.context().model()),
                cleared ==> es[0] == (seq![0x30u8], (d, c_start.max_size(), Map::<FieldModel, bool>::empty())),
                !cleared ==> es[0] == (toggles(d, tr), (d, c_start.max_size(), c_start.refs().remove_keys(un))),
                forall|k: int|
                    0 <= k < a ==> #[trigger] add_step(es[k].1, desired[k], es[k].0, es[k + 1].1, es[k + 1].0),
            decreases fields@.len() - a,
        {
            let hf = &fields[a];
            assert(desired[a as int] == hf@);
            assert(same ==> c_start.refs().contains_key(hf@));
            let ghost b0 = block@;
            let ghost o0 = t.last().2;
            let ghost dc0 = t.last().1;
            let ghost m0 = self.context().model();
            let ghost rest = desired.subrange(a + 1, desired.len() as int);
            proof {
                assert(desired.subrange(a as int, desired.len() as int) =~= seq![hf@] + rest);
                lemma_added_size_concat(c_start.refs(), seq![hf@], rest);
                assert(seq![hf@].drop_last() =~= Seq::<FieldModel>::empty());
                assert(seq![hf@].last() == hf@);
                assert(added_size(c_start.refs(), Seq::<FieldModel>::empty()) == 0);
                assert(added_size(c_start.refs(), seq![hf@]) == if c_start.refs().contains_key(hf@) {
                    0
                } else {
                    field_size(hf@)
                });
                assert(desired.contains(hf@));
            }
            let Ghost(dc2) = self.add_field(&mut block, hf, Ghost(t.last().1), Ghost(o0));
            proof {
                let es_prev = es;
                es = es.push((block@, self.context().model()));
                assert forall|k: int| 0 <= k < a + 1 implies #[trigger] add_step(
                    es[k].1,
                    desired[k],
                    es[k].0,
                    es[k + 1].1,
                    es[k + 1].0,
                ) by {
                    if k < a {
                        assert(es[k] == es_prev[k] && es[k + 1] == es_prev[k + 1]);
                    }
                }
                if fresh && block@ == b0 && dc2 == dc0 {
                    assert(dc0.2.contains_key(hf@));
                    assert(t.last().2.contains(hf@));
                    assert forall|x: int| 0 <= x < a + 1 implies t.last().2.contains(#[trigger] desired[x]) by {
                        if x == a {
                            assert(desired[x] == hf@);
                        }
                    }
                }
                if b0.len() > 0 {
                    assert(block@[0] == block@.subrange(0, b0.len() as int)[0]);
                }
                assert forall|f: FieldModel| #[trigger] self.context().refs().contains_key(f)
                    implies desired.contains(f) by {
                    if f == hf@ {
                        assert(desired[a as int] == f);
                    }
                }
                let tprev = t;
                if block@ != b0 {
                    let rep = block@.subrange(b0.len() as int, block@.len() as int);
                    assert(block@ =~= b0 + rep);
                    lemma_walk_append(b0, rep, cs, t, dc2, o0.push(hf@));
                    t = t.push((block@.len() as int, dc2, o0.push(hf@)));
                    assert forall|x: int| 0 <= x < a + 1 implies t.last().2.contains(#[trigger] desired[x]) || (
                    t.last().1.2.contains_key(desired[x]) && !t.last().1.2[desired[x]]) by {
                        if x == a {
                            assert(o0.push(hf@)[o0.len() as int] == hf@);
                        } else if tprev.last().2.contains(desired[x]) {
                            let y = choose|y: int| 0 <= y < o0.len() && o0[y] == desired[x];
                            assert(o0.push(hf@)[y] == desired[x]);
                        } else {
                            assert(!cleared);
                            assert(desired[x] != hf@) by {
                                if desired[x] == hf@ {
                                    assert(dc0.2.contains_key(hf@));
                                }
                            }
                        }
                    }
                    if fresh {
                        assert forall|x: int| 0 <= x < a + 1 implies t.last().2.contains(#[trigger] desired[x]) by {
                            if x == a {
                                assert(o0.push(hf@)[o0.len() as int] == hf@);
                            } else {
                                assert(tprev.last().2.contains(desired[x]));
                                let y = choose|y: int| 0 <= y < o0.len() && o0[y] == desired[x];
                                assert(o0.push(hf@)[y] == desired[x]);
                            }
                        }
                    }
                    assert forall|f: FieldModel| t.last().2.contains(f) implies desired.contains(f) by {
                        if f != hf@ {
                            let x = choose|x: int| 0 <= x < o0.push(hf@).len() && o0.push(hf@)[x] == f;
                            assert(o0.contains(f)) by {
                                assert(o0[x] == f);
                            }
                        }
                    }
                    assert forall|k: FieldModel| #[trigger]
                        t.last().1.2.contains_key(k) && t.last().1.2[k] implies t.last().2.contains(k) by {
                        if k == hf@ {
                            assert(o0.push(hf@)[o0.len() as int] == hf@);
                        } else {
                            assert(tprev.last().2.contains(k));
                            let y = choose|y: int| 0 <= y < o0.len() && o0[y] == k;
                            assert(o0.push(hf@)[y] == k);
                        }
                    }
                } else {
                    assert forall|x: int| 0 <= x < a + 1 implies t.last().2.contains(#[trigger] desired[x]) || (
                    t.last().1.2.contains_key(desired[x]) && !t.last().1.2[desired[x]]) by {
                        if x == a {
                            assert(dc0.2.contains_key(hf@));
                        }
                    }
                }
            }
            a = a + 1;
        }
        proof {
            assert(encoding_trace(c_start.model(), desired, tr, es));
            self.context.lemma_model_ok();
        }
        proof {
            assert(walk_from(block@, cs, t));
        }
        block
    }
}

/// The referenced fields of `refs` that are not among `desired`.
pub open spec fn unwanted(refs: Map<FieldModel, bool>, desired: Seq<FieldModel>) -> Set<FieldModel> {
    refs.dom().filter(|f: FieldModel| !desired.contains(f))
}

/// `f` is the field of one of the first `i` references of `rs`.
pub open spec fn key_before(rs: Seq<(FieldModel, bool)>, f: FieldModel, i: int) -> bool {
    exists|jj: int| 0 <= jj < i && rs[jj].0 == f
}

/// `t` walks `blk` from context `c`, one representation at a time, to the
/// block's end.
pub open spec fn partial_walk(blk: Seq<u8>, c: CtxModel, t: Seq<(int, CtxModel, Seq<FieldModel>)>) -> bool {
    &&& t.len() >= 1
    &&& t[0] == (0int, c, Seq::<FieldModel>::empty())
    &&& t.last().0 == blk.len()
    &&& forall|k: int|
        0 <= k < t.len() - 1 ==> #[trigger] step(
            blk,
            t[k].0,
            t[k].1,
            t[k].2,
            t[k + 1].0,
            t[k + 1].1,
            t[k + 1].2,
        )
}

/// A walk goes on by one representation appended to the block.
proof fn lemma_walk_append(
    blk: Seq<u8>,
    rep: Seq<u8>,
    c: CtxModel,
    t: Seq<(int, CtxModel, Seq<FieldModel>)>,
    c1: CtxModel,
    o1: Seq<FieldModel>,
)
    requires
        partial_walk(blk, c, t),
        step(blk + rep, blk.len() as int, t.last().1, t.last().2, (blk + rep).len() as int, c1, o1),
    ensures
        partial_walk(blk + rep, c, t.push(((blk + rep).len() as int, c1, o1))),
{
    let t2 = t.push(((blk + rep).len() as int, c1, o1));
    assert forall|k: int| 0 <= k < t2.len() - 1 implies #[trigger] step(
        blk + rep,
        t2[k].0,
        t2[k].1,
        t2[k].2,
        t2[k + 1].0,
        t2[k + 1].1,
        t2[k + 1].2,
    ) by {
        if k < t.len() - 1 {
            assert(t2[k] == t[k] && t2[k + 1] == t[k + 1]);
            lemma_step_extend(blk, rep, t[k].0, t[k].1, t[k].2, t[k + 1].0, t[k + 1].1, t[k + 1].2);
        } else {
            assert(t2[k] == t.last());
        }
    }
}

} // verus!
