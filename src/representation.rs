//! The wire representations of header field operations, and their encoding.
//!
//! | first octet | prefix | meaning                                    |
//! |-------------|--------|--------------------------------------------|
//! | `1xxxxxxx`  | 7      | indexed header field                       |
//! | `01xxxxxx`  | 6      | literal with incremental indexing          |
//! | `0000xxxx`  | 4      | literal without indexing                   |
//! | `0001xxxx`  | 4      | literal never indexed                      |
//! | `0011xxxx`  | 4      | reference set emptying (value 0)           |
//! | `0010xxxx`  | 4      | maximum header table size change           |

use vstd::prelude::*;
use crate::integer::{encode_int, int_decode, int_octets, prefix_bound, lemma_int_round_trip, lemma_pow2_small, lemma_prefix_bounds};

verus! {

/// `s` with `flags` added into its first octet.
pub open spec fn with_flags(s: Seq<u8>, flags: nat) -> Seq<u8> {
    s.update(0, (s[0] + flags) as u8)
}

/// A string literal: the Huffman flag and 7-bit prefix length, then the
/// payload.
pub open spec fn string_octets(huffman: bool, payload: Seq<u8>) -> Seq<u8> {
    with_flags(int_octets(payload.len(), 7), if huffman { 0x80 } else { 0 }) + payload
}

/// A raw string literal reads back as its payload, whatever follows it:
/// its first octet has the Huffman flag clear, its length decodes from the
/// 7-bit prefix, and the payload follows the length.
pub proof fn lemma_raw_string_round_trip(x: Seq<u8>, tail: Seq<u8>)
    requires
        x.len() < 268435456,
    ensures
        ({
            let s = string_octets(false, x) + tail;
            let k = int_octets(x.len(), 7).len() as int;
            &&& s[0] < 128
            &&& int_decode(s, 0, 7) == Some((x.len(), k))
            &&& s.subrange(k, k + x.len()) == x
        }),
{
    let h = int_octets(x.len(), 7);
    lemma_prefix_bounds();
    assert(with_flags(h, 0) =~= h);
    let s = string_octets(false, x) + tail;
    assert(s =~= h + (x + tail));
    lemma_int_round_trip(x.len(), 7, x + tail);
    assert(s.subrange(h.len() as int, (h.len() + x.len()) as int) =~= x);
}

/// Prefix width and flag bits of a literal representation.
pub open spec fn literal_prefix(indexing: bool, never_indexed: bool) -> (nat, nat) {
    if never_indexed {
        (4, 0x10)
    } else if indexing {
        (6, 0x40)
    } else {
        (4, 0x00)
    }
}

/// The common encoding of an integer with flag bits in its first octet.
fn encode_flagged(i: usize, n: u8, flags: u8) -> (r: Vec<u8>)
    requires
        1 <= n <= 8,
        flags as nat + prefix_bound(n as nat) <= 255,
    ensures
        r@ == with_flags(int_octets(i as nat, n as nat), flags as nat),
        r@.len() >= 1,
{
    let mut buffer = encode_int(i, n);
    let b: u8 = buffer[0] + flags;
    buffer.set(0, b);
    buffer
}

/// Appends a string literal to `out`.
pub fn push_string(out: &mut Vec<u8>, huffman: bool, payload: &[u8])
    ensures
        final(out)@ == old(out)@ + string_octets(huffman, payload@),
{
    proof {
        lemma_pow2_small(7);
        lemma_prefix_bounds();
    }
    let head = encode_flagged(payload.len(), 7, if huffman { 0x80 } else { 0 });
    let mut k: usize = 0;
    while k < head.len()
        invariant
            k <= head@.len(),
            out@ == old(out)@ + head@.subrange(0, k as int),
        decreases head@.len() - k,
    {
        out.push(head[k]);
        k = k + 1;
        assert(out@ =~= old(out)@ + head@.subrange(0, k as int));
    }
    let ghost mid = out@;
    let mut m: usize = 0;
    while m < payload.len()
        invariant
            m <= payload@.len(),
            out@ == mid + payload@.subrange(0, m as int),
        decreases payload@.len() - m,
    {
        out.push(payload[m]);
        m = m + 1;
        assert(out@ =~= mid + payload@.subrange(0, m as int));
    }
    assert(out@ =~= old(out)@ + string_octets(huffman, payload@));
}

/// Something that is written to a header block.
pub trait Representation {
    /// The octets of this representation.
    spec fn spec_octets(&self) -> Seq<u8>;

    /// Writes the representation.
    fn encode(&self) -> (r: Vec<u8>)
        ensures
            r@ == self.spec_octets(),
    ;
}

/// Indexed header field: toggles the entry at `index` in the reference set.
pub struct IndexedHeader {
    pub index: usize,
}

impl IndexedHeader {
    pub fn new(index: usize) -> (r: IndexedHeader)
        ensures
            r.index == index,
    {
        IndexedHeader { index }
    }
}

impl Representation for IndexedHeader {
    open spec fn spec_octets(&self) -> Seq<u8> {
        with_flags(int_octets(self.index as nat, 7), 0x80)
    }

    fn encode(&self) -> (r: Vec<u8>) {
        proof {
            lemma_pow2_small(7);
            lemma_prefix_bounds();
        }
        encode_flagged(self.index, 7, 0x80)
    }
}

/// Literal header field whose name is the name of the entry at `index`.
pub struct IndexedLiteral {
    pub indexing: bool,
    pub never_indexed: bool,
    pub index: usize,
    pub value_huffman: bool,
    pub value_string: Vec<u8>,
}

impl IndexedLiteral {
    /// `value_string` is sent as it is: Huffman-coded already when
    /// `value_huffman` is set.
    pub fn new(
        indexing: bool,
        never_indexed: bool,
        index: usize,
        value_huffman: bool,
        value_string: Vec<u8>,
    ) -> (r: IndexedLiteral)
        ensures
            r.indexing == indexing,
            r.never_indexed == never_indexed,
            r.index == index,
            r.value_huffman == value_huffman,
            r.value_string@ == value_string@,
    {
        IndexedLiteral { indexing, never_indexed, index, value_huffman, value_string }
    }
}

impl Representation for IndexedLiteral {
    open spec fn spec_octets(&self) -> Seq<u8> {
        let (n, flags) = literal_prefix(self.indexing, self.never_indexed);
        with_flags(int_octets(self.index as nat, n), flags) + string_octets(
            self.value_huffman,
            self.value_string@,
        )
    }

    fn encode(&self) -> (r: Vec<u8>) {
        proof {
            lemma_pow2_small(4);
            lemma_pow2_small(6);
            lemma_prefix_bounds();
        }
        let mut buffer = if self.never_indexed {
            encode_flagged(self.index, 4, 0x10)
        } else if self.indexing {
            encode_flagged(self.index, 6, 0x40)
        } else {
            encode_flagged(self.index, 4, 0x00)
        };
        push_string(&mut buffer, self.value_huffman, self.value_string.as_slice());
        buffer
    }
}

/// Literal header field with a literal name.
pub struct NamedLiteral {
    pub indexing: bool,
    pub never_indexed: bool,
    pub name_huffman: bool,
    pub name_string: Vec<u8>,
    pub value_huffman: bool,
    pub value_string: Vec<u8>,
}

impl NamedLiteral {
    /// Name and value are sent as they are: Huffman-coded already where
    /// their flag is set.
    pub fn new(
        indexing: bool,
        never_indexed: bool,
        name_huffman: bool,
        name_string: Vec<u8>,
        value_huffman: bool,
        value_string: Vec<u8>,
    ) -> (r: NamedLiteral)
        ensures
            r.indexing == indexing,
            r.never_indexed == never_indexed,
            r.name_huffman == name_huffman,
            r.name_string@ == name_string@,
            r.value_huffman == value_huffman,
            r.value_string@ == value_string@,
    {
        NamedLiteral { indexing, never_indexed, name_huffman, name_string, value_huffman, value_string }
    }
}

impl Representation for NamedLiteral {
    open spec fn spec_octets(&self) -> Seq<u8> {
        seq![literal_prefix(self.indexing, self.never_indexed).1 as u8] + string_octets(
            self.name_huffman,
            self.name_string@,
        ) + string_octets(self.value_huffman, self.value_string@)
    }

    fn encode(&self) -> (r: Vec<u8>) {
        let mut buffer: Vec<u8> = Vec::new();
        if self.never_indexed {
            buffer.push(0x10);
        } else if self.indexing {
            buffer.push(0x40);
        } else {
            buffer.push(0x00);
        }
        push_string(&mut buffer, self.name_huffman, self.name_string.as_slice());
        push_string(&mut buffer, self.value_huffman, self.value_string.as_slice());
        buffer
    }
}

/// Context update: empties the reference set (`flag`, `data` 0) or sets
/// the maximum size of the dynamic table to `data`.
pub struct ContextUpdate {
    pub flag: bool,
    pub data: usize,
}

impl ContextUpdate {
    pub fn new(flag: bool, data: usize) -> (r: ContextUpdate)
        ensures
            r.flag == flag,
            r.data == data,
    {
        ContextUpdate { flag, data }
    }
}

impl Representation for ContextUpdate {
    open spec fn spec_octets(&self) -> Seq<u8> {
        with_flags(int_octets(self.data as nat, 4), if self.flag { 0x30 } else { 0x20 })
    }

    fn encode(&self) -> (r: Vec<u8>) {
        proof {
            lemma_pow2_small(4);
            lemma_prefix_bounds();
        }
        encode_flagged(self.data, 4, if self.flag { 0x30 } else { 0x20 })
    }
}

} // verus!
