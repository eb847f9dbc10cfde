//! The decoding context: turns header blocks into header sets.

use vstd::prelude::*;
use crate::context::{Context, CtxModel, evict_model, resolve_model};
use crate::header_table::seq_size;
use crate::header_field::{FieldModel, HeaderField, MAX_STRING_LEN, field_fits};
use crate::header_set::HeaderSet;
use crate::header_table::DEFAULT_HEADER_TABLE_SIZE;
use crate::huffman::{HuffmanDecoder, is_huffman_decoding};
use crate::integer::{decode_int_at, int_decode, lemma_int_decode_extend};
use crate::reference_set::{lemma_ref_map, ref_map, refs_model, unique_keys};

verus! {

/// `s[p..e]` as a vector.
fn copy_range(s: &[u8], p: usize, e: usize) -> (r: Vec<u8>)
    requires
        p <= e <= s@.len(),
    ensures
        r@ == s@.subrange(p as int, e as int),
{
    let mut r: Vec<u8> = Vec::new();
    let mut k: usize = p;
    while k < e
        invariant
            p <= k <= e,
            e <= s@.len(),
            r@ == s@.subrange(p as int, k as int),
        decreases e - k,
    {
        r.push(s[k]);
        k = k + 1;
        assert(r@ =~= s@.subrange(p as int, k as int));
    }
    r
}

/// Reads a string literal of `s` at `pos`: its octets, decoded when
/// Huffman-coded, and the position after it.
pub fn read_string(huffman: &mut HuffmanDecoder, s: &[u8], pos: usize) -> (r: Option<(Vec<u8>, usize)>)
    ensures
        r matches Some((v, e)) ==> pos < e && string_at(s@, pos as int, v@, e as int) && forall|
            v2: Seq<u8>,
            e2: int,
        | #[trigger] string_at(s@, pos as int, v2, e2) ==> v2 == v@ && e2 == e,
        (exists|v: Seq<u8>, e: int| #[trigger] string_at(s@, pos as int, v, e)) ==> r is Some,
{
    if pos >= s.len() {
        return None;
    }
    let huffman_coded = s[pos] >= 128;
    let (len, p) = match decode_int_at(s, pos, 7) {
        Some(x) => x,
        None => return None,
    };
    if len > s.len() - p {
        return None;
    }
    let e = p + len;
    let raw = copy_range(s, p, e);
    if huffman_coded {
        let ghost payload = raw@;
        match huffman.decode(raw) {
            Some(v) => {
                if v.len() > MAX_STRING_LEN {
                    proof {
                        assert forall|v2: Seq<u8>, e2: int| !string_at(s@, pos as int, v2, e2) by {
                            if string_at(s@, pos as int, v2, e2) {
                                assert(is_huffman_decoding(payload, v2));
                            }
                        }
                    }
                    None
                } else {
                    proof {
                        assert forall|v2: Seq<u8>, e2: int| #[trigger]
                            string_at(s@, pos as int, v2, e2) implies v2 == v@ && e2 == e by {
                            assert(is_huffman_decoding(payload, v2));
                        }
                    }
                    Some((v, e))
                }
            },
            None => {
                proof {
                    assert forall|v2: Seq<u8>, e2: int| !string_at(s@, pos as int, v2, e2) by {
                        if string_at(s@, pos as int, v2, e2) {
                            assert(is_huffman_decoding(payload, v2));
                        }
                    }
                }
                None
            },
        }
    } else {
        Some((raw, e))
    }
}

/// `out` is `body` followed by the unemitted references of `refs`, each
/// once.
pub open spec fn ends_with_unemitted(
    out: Seq<FieldModel>,
    body: Seq<FieldModel>,
    refs: Map<FieldModel, bool>,
) -> bool {
    &&& body.len() <= out.len()
    &&& out.subrange(0, body.len() as int) == body
    &&& unique_fields(out.subrange(body.len() as int, out.len() as int))
    &&& forall|f: FieldModel| #[trigger]
        out.subrange(body.len() as int, out.len() as int).contains(f) <==> (refs.contains_key(f)
            && !refs[f])
}

/// The string literal of `s` at `pos` carries `v` and ends at `e`.
pub open spec fn string_at(s: Seq<u8>, pos: int, v: Seq<u8>, e: int) -> bool {
    0 <= pos < s.len() && match int_decode(s, pos, 7) {
        Some((l, p)) => e == p + l && e <= s.len() && v.len() <= MAX_STRING_LEN && (s[pos] < 128
            ==> v == s.subrange(p, e)) && (s[pos] >= 128 ==> is_huffman_decoding(
            s.subrange(p, e),
            v,
        )),
        None => false,
    }
}

/// An indexed header field at `pos` ends at `e` and takes context `c0` and
/// output `out0` to `c1` and `out1`.
pub open spec fn indexed_step(
    s: Seq<u8>,
    pos: int,
    c0: CtxModel,
    out0: Seq<FieldModel>,
    e: int,
    c1: CtxModel,
    out1: Seq<FieldModel>,
) -> bool {
    match int_decode(s, pos, 7) {
        Some((i, e2)) => e2 == e && match resolve_model(c0.0, i as int) {
            Some(f) => if c0.2.contains_key(f) {
                c1 == (c0.0, c0.1, c0.2.remove(f)) && out1 == out0
            } else if i <= c0.0.len() {
                c1 == (c0.0, c0.1, c0.2.insert(f, true)) && out1 == out0.push(f)
            } else {
                field_fits(f) && c1.1 == c0.1 && (c1.0, c1.2) == evict_model(
                    seq![f] + c0.0,
                    c0.1,
                    c0.2.insert(f, true),
                ) && out1 == out0.push(f)
            },
            None => false,
        },
        None => false,
    }
}

/// The name and value of a literal whose index (0 for a literal name) was
/// read up to `p`: the value string ends at `e`.
pub open spec fn literal_parts(
    s: Seq<u8>,
    p: int,
    i: nat,
    d: Seq<FieldModel>,
    name: Seq<u8>,
    p2: int,
    value: Seq<u8>,
    e: int,
) -> bool {
    (if i == 0 {
        string_at(s, p, name, p2)
    } else {
        p2 == p && (resolve_model(d, i as int) matches Some(f) && name == f.0)
    }) && string_at(s, p2, value, e) && name.len() <= MAX_STRING_LEN
}

/// A literal with an `n`-bit index prefix at `pos`; inserted and
/// referenced when `indexing`.
pub open spec fn literal_step(
    s: Seq<u8>,
    pos: int,
    n: nat,
    indexing: bool,
    c0: CtxModel,
    out0: Seq<FieldModel>,
    e: int,
    c1: CtxModel,
    out1: Seq<FieldModel>,
) -> bool {
    match int_decode(s, pos, n) {
        Some((i, p)) => exists|name: Seq<u8>, p2: int, value: Seq<u8>|
            #[trigger] literal_parts(s, p, i, c0.0, name, p2, value, e) && out1 == out0.push(
                (name, value),
            ) && if indexing {
                c1.1 == c0.1 && (c1.0, c1.2) == evict_model(
                    seq![(name, value)] + c0.0,
                    c0.1,
                    c0.2.insert((name, value), true),
                )
            } else {
                c1 == c0
            },
        None => false,
    }
}

/// A literal step from its parts.
#[verifier::spinoff_prover]
pub proof fn lemma_literal_step_intro(
    s: Seq<u8>,
    pos: int,
    n: nat,
    indexing: bool,
    c0: CtxModel,
    out0: Seq<FieldModel>,
    e: int,
    c1: CtxModel,
    i: nat,
    p: int,
    name: Seq<u8>,
    p2: int,
    value: Seq<u8>,
)
    requires
        int_decode(s, pos, n) == Some((i, p)),
        literal_parts(s, p, i, c0.0, name, p2, value, e),
        if indexing {
            c1.1 == c0.1 && (c1.0, c1.2) == evict_model(
                seq![(name, value)] + c0.0,
                c0.1,
                c0.2.insert((name, value), true),
            )
        } else {
            c1 == c0
        },
    ensures
        literal_step(s, pos, n, indexing, c0, out0, e, c1, out0.push((name, value))),
{
    let r = int_decode(s, pos, n);
    assert(r.unwrap().0 == i && r.unwrap().1 == p);
    assert(literal_parts(s, r.unwrap().1, r.unwrap().0, c0.0, name, p2, value, e));
    assert(out0.push((name, value)) == out0.push((name, value)));
}

/// A context update at `pos`.
pub open spec fn update_step(
    s: Seq<u8>,
    pos: int,
    c0: CtxModel,
    out0: Seq<FieldModel>,
    e: int,
    c1: CtxModel,
    out1: Seq<FieldModel>,
) -> bool {
    out1 == out0 && if s[pos] == 0x30 {
        e == pos + 1 && c1 == (c0.0, c0.1, Map::<FieldModel, bool>::empty())
    } else if s[pos] < 0x30 {
        match int_decode(s, pos, 4) {
            Some((v, e2)) => e == e2 && c1.1 == v && (c1.0, c1.2) == evict_model(c0.0, v, c0.2),
            None => false,
        }
    } else {
        false
    }
}

/// The representation at `pos`, chosen by its first octet, ends at `e` and
/// takes `(c0, out0)` to `(c1, out1)`.
pub open spec fn step(
    s: Seq<u8>,
    pos: int,
    c0: CtxModel,
    out0: Seq<FieldModel>,
    e: int,
    c1: CtxModel,
    out1: Seq<FieldModel>,
) -> bool {
    0 <= pos < e <= s.len() && if s[pos] >= 128 {
        indexed_step(s, pos, c0, out0, e, c1, out1)
    } else if s[pos] >= 64 {
        literal_step(s, pos, 6, true, c0, out0, e, c1, out1)
    } else if s[pos] >= 32 {
        update_step(s, pos, c0, out0, e, c1, out1)
    } else {
        literal_step(s, pos, 4, false, c0, out0, e, c1, out1)
    }
}

/// `t` walks header block `s` from its start to its end, one
/// representation per step: position, context and output so far.
pub open spec fn valid_trace(s: Seq<u8>, t: Seq<(int, CtxModel, Seq<FieldModel>)>) -> bool {
    &&& t.len() >= 1
    &&& t[0].0 == 0
    &&& t.last().0 == s.len()
    &&& forall|k: int|
        0 <= k < t.len() - 1 ==> #[trigger] step(
            s,
            t[k].0,
            t[k].1,
            t[k].2,
            t[k + 1].0,
            t[k + 1].1,
            t[k + 1].2,
        )
}

/// An indexed header field that names a referenced entry removes that
/// reference and emits nothing; the dynamic table is left as it was.
pub proof fn lemma_toggle_off(
    s: Seq<u8>,
    pos: int,
    c0: CtxModel,
    out0: Seq<FieldModel>,
    e: int,
    c1: CtxModel,
    out1: Seq<FieldModel>,
)
    requires
        step(s, pos, c0, out0, e, c1, out1),
        s[pos] >= 128,
        int_decode(s, pos, 7) matches Some((i, p)) && (resolve_model(c0.0, i as int) matches Some(
            f,
        ) && c0.2.contains_key(f)),
    ensures
        int_decode(s, pos, 7) matches Some((i, p)) && (resolve_model(c0.0, i as int) matches Some(
            f,
        ) && c1 == (c0.0, c0.1, c0.2.remove(f))),
        out1 == out0,
{
}

/// `t` walks header block `s` from context `c` with nothing emitted yet.
pub open spec fn walk_from(s: Seq<u8>, c: CtxModel, t: Seq<(int, CtxModel, Seq<FieldModel>)>) -> bool {
    &&& valid_trace(s, t)
    &&& t[0].1 == c
    &&& t[0].2 == Seq::<FieldModel>::empty()
}

proof fn lemma_string_at_extend(s: Seq<u8>, t: Seq<u8>, pos: int, v: Seq<u8>, e: int)
    requires
        string_at(s, pos, v, e),
    ensures
        string_at(s + t, pos, v, e),
{
    lemma_int_decode_extend(s, t, pos, 7);
    crate::integer::lemma_cont_decode_bound(s, pos + 1, 0);
    let (l, p) = int_decode(s, pos, 7).unwrap();
    assert(pos < p);
    assert((s + t).subrange(p, e) =~= s.subrange(p, e));
}

/// A representation reads the same when more octets follow the block.
pub proof fn lemma_step_extend(
    s: Seq<u8>,
    t: Seq<u8>,
    pos: int,
    c0: CtxModel,
    out0: Seq<FieldModel>,
    e: int,
    c1: CtxModel,
    out1: Seq<FieldModel>,
)
    requires
        step(s, pos, c0, out0, e, c1, out1),
    ensures
        step(s + t, pos, c0, out0, e, c1, out1),
{
    let s2 = s + t;
    assert(s2[pos] == s[pos]);
    if s[pos] >= 128 {
        lemma_int_decode_extend(s, t, pos, 7);
    } else if 32 <= s[pos] < 64 {
        if s[pos] < 0x30 {
            lemma_int_decode_extend(s, t, pos, 4);
        }
    } else {
        let n: nat = if s[pos] >= 64 { 6 } else { 4 };
        let indexing = s[pos] >= 64;
        lemma_int_decode_extend(s, t, pos, n);
        let (i, p) = int_decode(s, pos, n).unwrap();
        let (nm, q, v) = choose|nm: Seq<u8>, q: int, v: Seq<u8>|
            #[trigger] literal_parts(s, p, i, c0.0, nm, q, v, e) && out1 == out0.push((nm, v))
            && if indexing {
            c1.1 == c0.1 && (c1.0, c1.2) == evict_model(
                seq![(nm, v)] + c0.0,
                c0.1,
                c0.2.insert((nm, v), true),
            )
        } else {
            c1 == c0
        };
        if i == 0 {
            lemma_string_at_extend(s, t, p, nm, q);
        }
        lemma_string_at_extend(s, t, q, v, e);
        assert(literal_parts(s2, p, i, c0.0, nm, q, v, e));
    }
}

/// Two contexts that differ at most in their emitted flags.
pub open spec fn paired(a: CtxModel, b: CtxModel) -> bool {
    a.0 == b.0 && a.1 == b.1 && a.2.dom() == b.2.dom()
}

/// Eviction does not look at the emitted flags.
pub proof fn lemma_evict_paired(d: Seq<FieldModel>, m: nat, r1: Map<FieldModel, bool>, r2: Map<FieldModel, bool>)
    requires
        r1.dom() == r2.dom(),
    ensures
        evict_model(d, m, r1).0 == evict_model(d, m, r2).0,
        evict_model(d, m, r1).1.dom() == evict_model(d, m, r2).1.dom(),
    decreases d.len(),
{
    if seq_size(d) > m && d.len() > 0 {
        assert(r1.remove(d.last()).dom() == r2.remove(d.last()).dom());
        lemma_evict_paired(d.drop_last(), m, r1.remove(d.last()), r2.remove(d.last()));
    }
}

/// `c` with every emitted flag cleared.
pub open spec fn reset_model(c: CtxModel) -> CtxModel {
    (c.0, c.1, Map::new(|k: FieldModel| c.2.contains_key(k), |k: FieldModel| false))
}

/// No field appears twice in `s`.
pub open spec fn unique_fields(s: Seq<FieldModel>) -> bool {
    forall|i: int, j: int| 0 <= i < s.len() && 0 <= j < s.len() && s[i] == s[j] ==> i == j
}

/// An HPACK decoding context.
pub struct Decoder {
    context: Context,
    huffman_decoder: HuffmanDecoder,
}

impl Decoder {
    /// The decoding context's state.
    pub closed spec fn context(&self) -> Context {
        self.context
    }

    pub open spec fn wf(&self) -> bool {
        self.context().wf()
    }

    /// The context this decoder works on.
    pub fn state(&self) -> (r: &Context)
        ensures
            *r == self.context(),
    {
        &self.context
    }

    /// An empty decoding context with the default table size.
    pub fn new() -> (r: Decoder)
        ensures
            r.wf(),
            r.context().dynamic() == Seq::<FieldModel>::empty(),
            r.context().max_size() == DEFAULT_HEADER_TABLE_SIZE,
            r.context().refs() == Map::<FieldModel, bool>::empty(),
    {
        Decoder { context: Context::new(DEFAULT_HEADER_TABLE_SIZE), huffman_decoder: HuffmanDecoder::new() }
    }

    #[verifier::rlimit(60)]
    /// Indexed header field at `pos`: toggles the entry off when it is
    /// referenced, else emits it, references it, and copies a static entry
    /// into the dynamic table.
    pub fn decode_indexed_header(&mut self, out: &mut HeaderSet, s: &[u8], pos: usize) -> (r: Option<usize>)
        requires
            old(self).wf(),
        ensures
            final(self).wf(),
            (exists|e2: int, c2: CtxModel, o2: Seq<FieldModel>| #[trigger] indexed_step(
                s@,
                pos as int,
                old(self).context().model(),
                old(out)@,
                e2,
                c2,
                o2,
            )) ==> r is Some,
            r matches Some(e) ==> pos < e <= s@.len() && forall|
                e2: int,
                c2: CtxModel,
                o2: Seq<FieldModel>,
            | #[trigger] indexed_step(s@, pos as int, old(self).context().model(), old(out)@, e2, c2, o2)
                <==> (e2 == e && c2 == final(self).context().model() && o2 == final(out)@),
    {
        let (index, e) = match decode_int_at(s, pos, 7) {
            Some(x) => x,
            None => return None,
        };
        assert(int_decode(s@, pos as int, 7) matches Some((i, e2)) && e2 == e && i == index);
        let hf = match self.context.resolve(index) {
            Some(h) => h,
            None => return None,
        };
        if self.context.is_referenced(&hf) {
            self.context.unreference(&hf);
        } else {
            if index > self.context.dynamic_len() {
                proof {
                    self.context.lemma_resolved_fits(index as int);
                }
                out.emit(hf.duplicate());
                self.context.insert(hf, true);
            } else {
                out.emit(hf.duplicate());
                self.context.reference(hf, true);
            }
        }
        Some(e)
    }

    /// Literal header field at `pos`, with an `n`-bit index prefix: emits
    /// the field and, when `indexing`, inserts and references it.
    pub fn decode_literal(&mut self, out: &mut HeaderSet, s: &[u8], pos: usize, n: u8, indexing: bool) -> (r: Option<usize>)
        requires
            old(self).wf(),
            n == 4 || n == 6,
        ensures
            final(self).wf(),
            (exists|e2: int, c2: CtxModel, o2: Seq<FieldModel>| #[trigger] literal_step(
                s@,
                pos as int,
                n as nat,
                indexing,
                old(self).context().model(),
                old(out)@,
                e2,
                c2,
                o2,
            )) ==> r is Some,
            r matches Some(e) ==> pos < e <= s@.len() && forall|
                e2: int,
                c2: CtxModel,
                o2: Seq<FieldModel>,
            | #[trigger] literal_step(
                s@,
                pos as int,
                n as nat,
                indexing,
                old(self).context().model(),
                old(out)@,
                e2,
                c2,
                o2,
            ) <==> (e2 == e && c2 == final(self).context().model() && o2 == final(out)@),
    {
        let ghost c0 = self.context().model();
        let ghost o0 = out@;
        let (index, p) = match decode_int_at(s, pos, n) {
            Some(x) => x,
            None => return None,
        };
        let (name, p2) = if index == 0 {
            match read_string(&mut self.huffman_decoder, s, p) {
                Some(x) => x,
                None => {
                    proof {
                        assert forall|e2: int, c2: CtxModel, o2: Seq<FieldModel>| !literal_step(
                            s@,
                            pos as int,
                            n as nat,
                            indexing,
                            c0,
                            o0,
                            e2,
                            c2,
                            o2,
                        ) by {
                            if literal_step(s@, pos as int, n as nat, indexing, c0, o0, e2, c2, o2) {
                                let (nm, q, v) = choose|nm: Seq<u8>, q: int, v: Seq<u8>|
                                    #[trigger] literal_parts(s@, p as int, index as nat, c0.0, nm, q, v, e2);
                                assert(string_at(s@, p as int, nm, q));
                            }
                        }
                    }
                    return None;
                },
            }
        } else {
            match self.context.resolve(index) {
                Some(h) => {
                    proof {
                        self.context.lemma_resolved_fits(index as int);
                    }
                    (h.key, p)
                },
                None => return None,
            }
        };
        let (value, e) = match read_string(&mut self.huffman_decoder, s, p2) {
            Some(x) => x,
            None => {
                proof {
                    assert forall|e2: int, c2: CtxModel, o2: Seq<FieldModel>| !literal_step(
                        s@,
                        pos as int,
                        n as nat,
                        indexing,
                        c0,
                        o0,
                        e2,
                        c2,
                        o2,
                    ) by {
                        if literal_step(s@, pos as int, n as nat, indexing, c0, o0, e2, c2, o2) {
                            let (nm, q, v) = choose|nm: Seq<u8>, q: int, v: Seq<u8>|
                                #[trigger] literal_parts(s@, p as int, index as nat, c0.0, nm, q, v, e2);
                            if index == 0 {
                                assert(string_at(s@, p as int, nm, q));
                            }
                            assert(string_at(s@, p2 as int, v, e2));
                        }
                    }
                }
                return None;
            },
        };
        assert(literal_parts(s@, p as int, index as nat, c0.0, name@, p2 as int, value@, e as int));
        let hf = HeaderField::new(name, value);
        let ghost f = hf@;
        out.emit(hf.duplicate());
        if indexing {
            self.context.insert(hf, true);
        }
        proof {
            assert forall|e2: int, c2: CtxModel, o2: Seq<FieldModel>| #[trigger] literal_step(
                s@,
                pos as int,
                n as nat,
                indexing,
                c0,
                o0,
                e2,
                c2,
                o2,
            ) <==> (e2 == e && c2 == self.context().model() && o2 == out@) by {
                if literal_step(s@, pos as int, n as nat, indexing, c0, o0, e2, c2, o2) {
                    let (nm, q, v) = choose|nm: Seq<u8>, q: int, v: Seq<u8>|
                        #[trigger] literal_parts(s@, p as int, index as nat, c0.0, nm, q, v, e2)
                        && o2 == o0.push((nm, v)) && if indexing {
                        c2.1 == c0.1 && (c2.0, c2.2) == evict_model(
                            seq![(nm, v)] + c0.0,
                            c0.1,
                            c0.2.insert((nm, v), true),
                        )
                    } else {
                        c2 == c0
                    };
                    if index == 0 {
                        assert(string_at(s@, p as int, nm, q));
                    }
                    assert(q == p2);
                    assert(string_at(s@, p2 as int, v, e2));
                    assert(nm == f.0 && v == f.1 && e2 == e);
                }
                if e2 == e && c2 == self.context().model() && o2 == out@ {
                    assert(literal_parts(s@, p as int, index as nat, c0.0, f.0, p2 as int, f.1, e as int));
                }
            }
        }
        Some(e)
    }

    /// Context update at `pos`: `0x30` empties the reference set,
    /// `0010xxxx` sets the maximum table size; other `0011xxxx` octets are
    /// reserved and refused.
    pub fn decode_context_update(&mut self, s: &[u8], pos: usize) -> (r: Option<usize>)
        requires
            old(self).wf(),
            pos < s@.len(),
            32 <= s@[pos as int] < 64,
        ensures
            final(self).wf(),
            0x30 < s@[pos as int] ==> r is None,
            (exists|e2: int, c2: CtxModel| #[trigger] update_step(
                s@,
                pos as int,
                old(self).context().model(),
                Seq::<FieldModel>::empty(),
                e2,
                c2,
                Seq::<FieldModel>::empty(),
            )) ==> r is Some,
            r matches Some(e) ==> pos < e <= s@.len() && forall|
                o: Seq<FieldModel>,
                e2: int,
                c2: CtxModel,
                o2: Seq<FieldModel>,
            | #[trigger] update_step(s@, pos as int, old(self).context().model(), o, e2, c2, o2) <==> (
            e2 == e && c2 == final(self).context().model() && o2 == o),
    {
        let b = s[pos];
        if b == 0x30 {
            self.context.clear_references();
            return Some(pos + 1);
        }
        if b > 0x30 {
            return None;
        }
        match decode_int_at(s, pos, 4) {
            Some((v, e)) => {
                self.context.set_max_size(v);
                Some(e)
            },
            None => None,
        }
    }

    /// Decodes a header block against this context. On success there is
    /// a walk of the block, one representation at a time, from this
    /// context with its emitted flags cleared to the final context; the
    /// result is what the walk emitted followed by every reference left
    /// unemitted, each once. `None` on a malformed representation.
    pub fn decode(&mut self, header_block: Vec<u8>) -> (r: Option<HeaderSet>)
        requires
            old(self).wf(),
        ensures
            final(self).wf(),
            r matches Some(hs) ==> exists|t: Seq<(int, CtxModel, Seq<FieldModel>)>|
                #[trigger] valid_trace(header_block@, t) && t[0].1 == reset_model(
                    old(self).context().model(),
                ) && t[0].2 == Seq::<FieldModel>::empty() && t.last().1 == final(self).context().model()
                && ends_with_unemitted(hs@, t.last().2, final(self).context().refs()),
            (exists|t: Seq<(int, CtxModel, Seq<FieldModel>)>| #[trigger] walk_from(
                header_block@,
                reset_model(old(self).context().model()),
                t,
            )) ==> r is Some,
    {
        let mut out = HeaderSet::new();
        self.context.reset_references();
        proof {
            assert(self.context().refs() =~= reset_model(old(self).context().model()).2);
        }
        let s = header_block.as_slice();
        let mut pos: usize = 0;
        let ghost mut trace: Seq<(int, CtxModel, Seq<FieldModel>)> = seq![
            (0int, self.context().model(), out@),
        ];
        let ghost hyp = exists|t: Seq<(int, CtxModel, Seq<FieldModel>)>| #[trigger] walk_from(
            header_block@,
            reset_model(old(self).context().model()),
            t,
        );
        let ghost w = choose|t: Seq<(int, CtxModel, Seq<FieldModel>)>| #[trigger] walk_from(
            header_block@,
            reset_model(old(self).context().model()),
            t,
        );
        while pos < s.len()
            invariant
                self.wf(),
                pos <= s@.len(),
                s@ == header_block@,
                trace.len() >= 1,
                trace[0] == (0int, reset_model(old(self).context().model()), Seq::<FieldModel>::empty()),
                trace.last() == (pos as int, self.context().model(), out@),
                hyp == exists|t: Seq<(int, CtxModel, Seq<FieldModel>)>| #[trigger] walk_from(
                    header_block@,
                    reset_model(old(self).context().model()),
                    t,
                ),
                hyp ==> walk_from(s@, reset_model(old(self).context().model()), w),
                hyp ==> trace.len() <= w.len() && forall|k: int|
                    0 <= k < trace.len() ==> trace[k] == #[trigger] w[k],
                forall|k: int|
                    0 <= k < trace.len() - 1 ==> #[trigger] step(
                        s@,
                        trace[k].0,
                        trace[k].1,
                        trace[k].2,
                        trace[k + 1].0,
                        trace[k + 1].1,
                        trace[k + 1].2,
                    ),
            decreases s@.len() - pos,
        {
            let b = s[pos];
            let ghost c0 = self.context().model();
            let ghost o0 = out@;
            let ghost kk = trace.len() - 1;
            proof {
                if hyp {
                    assert(trace[kk] == w[kk]);
                    if kk == w.len() - 1 {
                        assert(w.last().0 == s@.len());
                    }
                    assert(kk < w.len() - 1);
                    assert(step(s@, w[kk].0, w[kk].1, w[kk].2, w[kk + 1].0, w[kk + 1].1, w[kk + 1].2));
                }
            }
            let next = if b >= 128 {
                self.decode_indexed_header(&mut out, s, pos)
            } else if b >= 64 {
                self.decode_literal(&mut out, s, pos, 6, true)
            } else if b >= 32 {
                self.decode_context_update(s, pos)
            } else {
                self.decode_literal(&mut out, s, pos, 4, false)
            };
            match next {
                Some(e) => {
                    proof {
                        if b >= 128 {
                            assert(indexed_step(s@, pos as int, c0, o0, e as int, self.context().model(), out@));
                        } else if b >= 64 {
                            assert(literal_step(s@, pos as int, 6, true, c0, o0, e as int, self.context().model(), out@));
                        } else if b >= 32 {
                            assert(update_step(s@, pos as int, c0, o0, e as int, self.context().model(), out@));
                        } else {
                            assert(literal_step(s@, pos as int, 4, false, c0, o0, e as int, self.context().model(), out@));
                        }
                        assert(step(s@, pos as int, c0, o0, e as int, self.context().model(), out@));
                        if hyp {
                            let w1 = w[kk + 1];
                            if b >= 128 {
                                assert(indexed_step(s@, pos as int, c0, o0, w1.0, w1.1, w1.2));
                            } else if b >= 64 {
                                assert(literal_step(s@, pos as int, 6, true, c0, o0, w1.0, w1.1, w1.2));
                            } else if b >= 32 {
                                assert(update_step(s@, pos as int, c0, o0, w1.0, w1.1, w1.2));
                                assert(update_step(
                                    s@,
                                    pos as int,
                                    c0,
                                    Seq::<FieldModel>::empty(),
                                    w1.0,
                                    w1.1,
                                    Seq::<FieldModel>::empty(),
                                ));
                            } else {
                                assert(literal_step(s@, pos as int, 4, false, c0, o0, w1.0, w1.1, w1.2));
                            }
                        }
                        let t2 = trace.push((e as int, self.context().model(), out@));
                        assert forall|k: int| 0 <= k < t2.len() - 1 implies #[trigger] step(
                            s@,
                            t2[k].0,
                            t2[k].1,
                            t2[k].2,
                            t2[k + 1].0,
                            t2[k + 1].1,
                            t2[k + 1].2,
                        ) by {
                            if k < trace.len() - 1 {
                                assert(t2[k] == trace[k] && t2[k + 1] == trace[k + 1]);
                            } else {
                                assert(t2[k] == trace.last());
                            }
                        }
                        if hyp {
                            assert forall|k: int| 0 <= k < t2.len() implies t2[k] == #[trigger] w[k] by {
                                if k < trace.len() {
                                    assert(t2[k] == trace[k]);
                                }
                            }
                        }
                        trace = t2;
                    }
                    pos = e;
                },
                None => {
                    proof {
                        if hyp {
                            let w1 = w[kk + 1];
                            if b >= 128 {
                                assert(indexed_step(s@, pos as int, c0, o0, w1.0, w1.1, w1.2));
                            } else if b >= 64 {
                                assert(literal_step(s@, pos as int, 6, true, c0, o0, w1.0, w1.1, w1.2));
                            } else if b >= 32 {
                                assert(update_step(s@, pos as int, c0, o0, w1.0, w1.1, w1.2));
                                assert(update_step(
                                    s@,
                                    pos as int,
                                    c0,
                                    Seq::<FieldModel>::empty(),
                                    w1.0,
                                    w1.1,
                                    Seq::<FieldModel>::empty(),
                                ));
                            } else {
                                assert(literal_step(s@, pos as int, 4, false, c0, o0, w1.0, w1.1, w1.2));
                            }
                        }
                    }
                    return None;
                },
            }
        }
        let ghost body = out@;
        proof {
            assert(valid_trace(header_block@, trace));
        }
        let refs = self.context.references();
        let ghost start = out@.len();
        let ghost rs = refs_model(refs@);
        let mut i: usize = 0;
        while i < refs.len()
            invariant
                self.wf(),
                start == body.len(),
                start <= out@.len(),
                out@.subrange(0, start as int) == body,
                valid_trace(header_block@, trace),
                trace.last().1 == self.context().model(),
                trace.last().2 == body,
                trace[0].1 == reset_model(old(self).context().model()),
                trace[0].2 == Seq::<FieldModel>::empty(),
                rs == refs_model(refs@),
                unique_keys(rs),
                i <= refs@.len(),
                unique_fields(out@.subrange(start as int, out@.len() as int)),
                forall|f: FieldModel| #[trigger]
                    out@.subrange(start as int, out@.len() as int).contains(f) <==> exists|j: int|
                        0 <= j < i && rs[j] == (f, false),
            decreases refs@.len() - i,
        {
            let ghost before = out@.subrange(start as int, out@.len() as int);
            if !refs[i].1 {
                out.emit(refs[i].0.duplicate());
                proof {
                    let after = out@.subrange(start as int, out@.len() as int);
                    assert(after =~= before.push(rs[i as int].0));
                    assert forall|a: int, c: int|
                        0 <= a < after.len() && 0 <= c < after.len() && after[a] == after[c] implies a
                        == c by {
                        if a < before.len() && c == before.len() {
                            assert(before.contains(after[a]));
                            let j = choose|j: int| 0 <= j < i && rs[j] == (after[a], false);
                        }
                        if c < before.len() && a == before.len() {
                            assert(before.contains(after[c]));
                            let j = choose|j: int| 0 <= j < i && rs[j] == (after[c], false);
                        }
                    }
                    assert forall|f: FieldModel| #[trigger] after.contains(f) <==> exists|j: int|
                        0 <= j < i + 1 && rs[j] == (f, false) by {
                        if after.contains(f) {
                            let a = choose|a: int| 0 <= a < after.len() && after[a] == f;
                            if a < before.len() {
                                assert(before.contains(f));
                            } else {
                                assert(rs[i as int] == (f, false));
                            }
                        }
                        if exists|j: int| 0 <= j < i + 1 && rs[j] == (f, false) {
                            let j = choose|j: int| 0 <= j < i + 1 && rs[j] == (f, false);
                            if j < i {
                                assert(before.contains(f));
                                let a = choose|a: int| 0 <= a < before.len() && before[a] == f;
                                assert(after[a] == f);
                            } else {
                                assert(after[before.len() as int] == f);
                            }
                        }
                    }
                }
            } else {
                proof {
                    assert forall|f: FieldModel| #[trigger] before.contains(f) <==> exists|j: int|
                        0 <= j < i + 1 && rs[j] == (f, false) by {
                        if exists|j: int| 0 <= j < i + 1 && rs[j] == (f, false) {
                            let j = choose|j: int| 0 <= j < i + 1 && rs[j] == (f, false);
                            assert(j != i);
                        }
                    }
                }
            }
            i = i + 1;
        }
        proof {
            let m = self.context().refs();
            lemma_ref_map(rs);
            let tail = out@.subrange(start as int, out@.len() as int);
            assert forall|f: FieldModel| #[trigger] tail.contains(f) <==> (m.contains_key(f) && !m[f]) by {
                if tail.contains(f) {
                    let j = choose|j: int| 0 <= j < rs.len() && rs[j] == (f, false);
                    assert(rs[j].0 == f);
                    assert(m[rs[j].0] == rs[j].1);
                }
                if m.contains_key(f) && !m[f] {
                    let j = choose|j: int| 0 <= j < rs.len() && rs[j].0 == f;
                    assert(m[rs[j].0] == rs[j].1);
                    assert(rs[j] == (f, false));
                }
            }
            assert(unique_fields(out@.subrange(start as int, out@.len() as int)));
            assert(ends_with_unemitted(out@, body, m));
        }
        Some(out)
    }
}

} // verus!
