//! Huffman coding of string literals: encoding pads the last octet with the
//! leading (all one) bits of the end-of-string code; decoding accepts at
//! most seven such padding bits.

use vstd::prelude::*;
use crate::huffman_code::{
    EOS,
    MAX_CODE_LEN,
    code_count,
    code_of,
    first_code,
    huffman_code,
    lemma_code_in_range,
    lemma_codes_fit,
    lemma_first_code_step,
    lemma_short_codes_not_all_ones,
};
use crate::integer::pow2;
use vstd::arithmetic::div_mod::{lemma_div_denominator, lemma_fundamental_div_mod, lemma_fundamental_div_mod_converse};

verus! {

/// The `l` low bits of `c`, most significant first.
pub open spec fn code_bits(c: nat, l: nat) -> Seq<bool>
    decreases l,
{
    if l == 0 {
        Seq::empty()
    } else {
        code_bits(c / 2, (l - 1) as nat).push(c % 2 == 1)
    }
}

/// The bits of the code of octet `b`.
pub open spec fn symbol_bits(b: u8) -> Seq<bool> {
    code_bits(huffman_code(b as u16).0, huffman_code(b as u16).1)
}

/// The code bits of every octet of `s`, in order.
pub open spec fn huff_bits(s: Seq<u8>) -> Seq<bool>
    decreases s.len(),
{
    if s.len() == 0 {
        Seq::empty()
    } else {
        huff_bits(s.drop_last()) + symbol_bits(s.last())
    }
}

/// The bits of the octets of `s`, each most significant bit first.
pub open spec fn octet_bits(s: Seq<u8>) -> Seq<bool>
    decreases s.len(),
{
    if s.len() == 0 {
        Seq::empty()
    } else {
        octet_bits(s.drop_last()) + code_bits(s.last() as nat, 8)
    }
}

/// The number that bits `b` spell, most significant first.
pub open spec fn bits_value(b: Seq<bool>) -> nat
    decreases b.len(),
{
    if b.len() == 0 {
        0
    } else {
        2 * bits_value(b.drop_last()) + if b.last() {
            1nat
        } else {
            0nat
        }
    }
}

/// `n` one bits.
pub open spec fn ones(n: nat) -> Seq<bool> {
    Seq::new(n, |i: int| true)
}

/// `b` padded with one bits to a whole number of octets.
pub open spec fn pad_bits(b: Seq<bool>) -> Seq<bool> {
    b + ones(((8 - b.len() % 8) % 8) as nat)
}

/// The octets that bits `b` spell, eight at a time; a trailing partial
/// octet is dropped.
pub open spec fn octets_of(b: Seq<bool>) -> Seq<u8> {
    Seq::new(b.len() / 8, |k: int| bits_value(b.subrange(8 * k, 8 * k + 8)) as u8)
}

/// The Huffman encoding of `s`.
pub open spec fn huffman_octets(s: Seq<u8>) -> Seq<u8> {
    octets_of(pad_bits(huff_bits(s)))
}

/// Whether `s` is a valid Huffman encoding of `out`: the codes of `out`
/// followed by at most seven one bits.
pub open spec fn is_huffman_decoding(s: Seq<u8>, out: Seq<u8>) -> bool {
    exists|p: nat| p <= 7 && octet_bits(s) == huff_bits(out) + ones(p)
}

proof fn lemma_code_bits_len(c: nat, l: nat)
    ensures
        code_bits(c, l).len() == l,
    decreases l,
{
    if l > 0 {
        lemma_code_bits_len(c / 2, (l - 1) as nat);
    }
}

proof fn lemma_code_bits_push(c: nat, l: nat, b: bool)
    ensures
        code_bits(2 * c + if b {
            1nat
        } else {
            0nat
        }, l + 1) == code_bits(c, l).push(b),
{
    let c2: nat = 2 * c + if b {
        1nat
    } else {
        0nat
    };
    assert(c2 / 2 == c);
    assert((c2 % 2 == 1) == b);
}

proof fn lemma_all_ones(l: nat)
    ensures
        code_bits((crate::integer::pow2(l) - 1) as nat, l) == ones(l),
    decreases l,
{
    if l > 0 {
        let p = crate::integer::pow2((l - 1) as nat);
        assert(crate::integer::pow2(l) == 2 * p);
        assert(p >= 1) by {
            lemma_pow2_pos((l - 1) as nat);
        }
        let c = (2 * p - 1) as nat;
        assert(c / 2 == (p - 1) as nat);
        assert(c % 2 == 1);
        lemma_all_ones((l - 1) as nat);
        assert(ones((l - 1) as nat).push(true) =~= ones(l));
    }
}

proof fn lemma_pow2_pos(n: nat)
    ensures
        crate::integer::pow2(n) >= 1,
    decreases n,
{
    if n > 0 {
        lemma_pow2_pos((n - 1) as nat);
    }
}

proof fn lemma_bits_value_bound(b: Seq<bool>)
    ensures
        bits_value(b) < crate::integer::pow2(b.len()),
    decreases b.len(),
{
    if b.len() > 0 {
        lemma_bits_value_bound(b.drop_last());
    }
}

proof fn lemma_code_bits_of_value(b: Seq<bool>)
    ensures
        code_bits(bits_value(b), b.len()) == b,
    decreases b.len(),
{
    if b.len() > 0 {
        let t = b.drop_last();
        lemma_code_bits_of_value(t);
        let v = bits_value(b);
        let bit: nat = if b.last() { 1 } else { 0 };
        assert(v == 2 * bits_value(t) + bit);
        assert(v / 2 == bits_value(t));
        assert((v % 2 == 1) == b.last());
        assert(code_bits(v, b.len()) == code_bits(v / 2, t.len()).push(v % 2 == 1));
        assert(t.push(b.last()) =~= b);
    }
}

/// Reading back the octets that whole groups of eight bits spell gives the
/// bits again.
proof fn lemma_octet_bits_of_octets(b: Seq<bool>)
    requires
        b.len() % 8 == 0,
    ensures
        octet_bits(octets_of(b)) == b,
    decreases b.len(),
{
    if b.len() > 0 {
        let n = b.len() as int;
        let t = b.subrange(0, n - 8);
        let last = b.subrange(n - 8, n);
        lemma_octet_bits_of_octets(t);
        assert(octets_of(b).drop_last() =~= octets_of(t)) by {
            assert forall|k: int| 0 <= k < t.len() / 8 implies #[trigger] octets_of(b)[k]
                == octets_of(t)[k] by {
                assert(b.subrange(8 * k, 8 * k + 8) =~= t.subrange(8 * k, 8 * k + 8));
            }
        }
        lemma_bits_value_bound(last);
        reveal_with_fuel(crate::integer::pow2, 9);
        assert(octets_of(b).last() == bits_value(last) as u8);
        lemma_code_bits_of_value(last);
        assert(b =~= t + last);
    } else {
        assert(octets_of(b) =~= Seq::<u8>::empty());
        assert(b =~= Seq::<bool>::empty());
    }
}

/// What the encoder produces is a valid encoding of its input in the sense
/// the decoder checks: the codes of the input followed by at most seven
/// one bits.
pub proof fn lemma_encoding_is_valid(x: Seq<u8>)
    ensures
        is_huffman_decoding(huffman_octets(x), x),
{
    let h = huff_bits(x);
    let p: nat = ((8 - h.len() % 8) % 8) as nat;
    assert((h.len() + p) % 8 == 0);
    lemma_octet_bits_of_octets(pad_bits(h));
    assert(octet_bits(huffman_octets(x)) == h + ones(p));
}

/// The bits of the `l` low bits of `c` spell `c mod 2^l`.
proof fn lemma_value_of_code_bits(c: nat, l: nat)
    ensures
        bits_value(code_bits(c, l)) == c % pow2(l),
    decreases l,
{
    if l == 0 {
        lemma_fundamental_div_mod_converse(c as int, 1, c as int, 0);
    } else {
        let m = pow2((l - 1) as nat);
        lemma_pow2_pos((l - 1) as nat);
        lemma_value_of_code_bits(c / 2, (l - 1) as nat);
        let t = code_bits(c / 2, (l - 1) as nat);
        assert(code_bits(c, l).drop_last() == t);
        let q = (c / 2) / m;
        let u = (c / 2) % m;
        let r = c % 2;
        lemma_fundamental_div_mod(c as int, 2);
        lemma_fundamental_div_mod((c / 2) as int, m as int);
        assert(c == q * (2 * m) + (2 * u + r)) by (nonlinear_arith)
            requires
                c == 2 * (c / 2) + r,
                c / 2 == m * q + u,
        ;
        lemma_fundamental_div_mod_converse(c as int, (2 * m) as int, q as int, (2 * u + r) as int);
    }
}

/// The first `j` of the `l` low bits of `c` are the `j` low bits of
/// `c / 2^(l - j)`.
proof fn lemma_code_bits_prefix(c: nat, l: nat, j: nat)
    requires
        j <= l,
    ensures
        code_bits(c, l).subrange(0, j as int) == code_bits(c / pow2((l - j) as nat), j),
    decreases l,
{
    lemma_code_bits_len(c, l);
    if j == l {
        lemma_fundamental_div_mod_converse(c as int, 1, c as int, 0);
        assert(code_bits(c, l).subrange(0, j as int) =~= code_bits(c, l));
    } else {
        lemma_code_bits_prefix(c / 2, (l - 1) as nat, j);
        lemma_code_bits_len(c / 2, (l - 1) as nat);
        assert(code_bits(c, l).subrange(0, j as int) =~= code_bits(c / 2, (l - 1) as nat).subrange(
            0,
            j as int,
        ));
        lemma_pow2_pos((l - 1 - j) as nat);
        lemma_div_denominator(c as int, 2, pow2((l - 1 - j) as nat) as int);
        assert(pow2((l - j) as nat) == 2 * pow2((l - 1 - j) as nat));
    }
}

/// Two values below `2^j` with the same `j` low bits are equal.
proof fn lemma_code_bits_injective(a: nat, b: nat, j: nat)
    requires
        code_bits(a, j) == code_bits(b, j),
        a < pow2(j),
        b < pow2(j),
    ensures
        a == b,
{
    lemma_value_of_code_bits(a, j);
    lemma_value_of_code_bits(b, j);
    lemma_fundamental_div_mod_converse(a as int, pow2(j) as int, 0, a as int);
    lemma_fundamental_div_mod_converse(b as int, pow2(j) as int, 0, b as int);
}

proof fn lemma_div_bounds(x: nat, d: nat, a: nat)
    requires
        d > 0,
    ensures
        x >= a * d ==> x / d >= a,
        x < a * d ==> x / d < a,
{
    lemma_fundamental_div_mod(x as int, d as int);
    let q = x / d;
    let r = x % d;
    if x >= a * d && q < a {
        assert(x < a * d) by (nonlinear_arith)
            requires
                x == d * q + r,
                r < d,
                q + 1 <= a,
        ;
    }
    if x < a * d && q >= a {
        assert(x >= a * d) by (nonlinear_arith)
            requires
                x == d * q + r,
                r >= 0,
                q >= a,
        ;
    }
}

/// Longer codes start past every shorter code and its extensions.
proof fn lemma_gap(j: nat, l: nat)
    requires
        4 <= j < l <= 26,
    ensures
        first_code(l) >= (first_code(j) + code_count(j)) * pow2((l - j) as nat),
    decreases l,
{
    lemma_first_code_step((l - 1) as nat);
    if l == j + 1 {
        reveal_with_fuel(pow2, 2);
        assert(pow2((l - j) as nat) == 2);
    } else {
        lemma_gap(j, (l - 1) as nat);
        let a = first_code(j) + code_count(j);
        let p = pow2((l - 1 - j) as nat);
        assert(pow2((l - j) as nat) == 2 * p);
        assert(2 * (first_code((l - 1) as nat) + code_count((l - 1) as nat)) >= a * (2 * p))
            by (nonlinear_arith)
            requires
                first_code((l - 1) as nat) >= a * p,
        ;
    }
}

/// The code of a symbol with the bits of `s` and its length in bits.
pub open spec fn code_is(sym: u16, c: nat, l: nat) -> bool {
    sym <= EOS && huffman_code(sym) == (c, l)
}

/// No code is a proper prefix of the code of `x`.
proof fn lemma_no_proper_prefix(x: u16, j: nat, y: u16)
    requires
        x <= EOS,
        1 <= j < huffman_code(x).1,
    ensures
        !code_is(y, huffman_code(x).0 / pow2((huffman_code(x).1 - j) as nat), j),
{
    let (c, l) = huffman_code(x);
    lemma_code_in_range(x);
    if code_is(y, c / pow2((l - j) as nat), j) {
        lemma_code_in_range(y);
        lemma_gap(j, l);
        lemma_pow2_pos((l - j) as nat);
        let a = first_code(j) + code_count(j);
        assert(c >= a * pow2((l - j) as nat)) by (nonlinear_arith)
            requires
                c >= first_code(l),
                first_code(l) >= a * pow2((l - j) as nat),
        ;
        lemma_div_bounds(c, pow2((l - j) as nat), a);
    }
}

/// Two symbols with the same code are the same symbol.
proof fn lemma_code_injective(x: u16, y: u16)
    requires
        x <= EOS,
        y <= EOS,
        huffman_code(x) == huffman_code(y),
    ensures
        x == y,
{
    lemma_code_in_range(x);
    lemma_code_in_range(y);
}

/// No code of seven bits or fewer is all ones.
proof fn lemma_padding_not_code(j: nat, y: u16)
    requires
        1 <= j <= 7,
    ensures
        !code_is(y, (pow2(j) - 1) as nat, j),
{
    if code_is(y, (pow2(j) - 1) as nat, j) {
        lemma_code_in_range(y);
        lemma_short_codes_not_all_ones(j);
    }
}

proof fn lemma_huff_bits_concat(a: Seq<u8>, b: Seq<u8>)
    ensures
        huff_bits(a + b) == huff_bits(a) + huff_bits(b),
    decreases b.len(),
{
    if b.len() == 0 {
        assert(a + b =~= a);
        assert(huff_bits(a) + huff_bits(b) =~= huff_bits(a));
    } else {
        lemma_huff_bits_concat(a, b.drop_last());
        assert((a + b).drop_last() =~= a + b.drop_last());
    }
}

proof fn lemma_pow2_add(a: nat, b: nat)
    ensures
        pow2(a + b) == pow2(a) * pow2(b),
    decreases a,
{
    if a > 0 {
        lemma_pow2_add((a - 1) as nat, b);
        assert(pow2(a + b) == 2 * pow2((a - 1 + b) as nat));
        let x = pow2((a - 1) as nat);
        let y = pow2(b);
        assert(2 * (x * y) == (2 * x) * y) by (nonlinear_arith);
    } else {
        assert(pow2(0) == 1);
    }
}

/// A bit as a number.
pub open spec fn bit_val(b: bool) -> nat {
    if b {
        1
    } else {
        0
    }
}

/// `bits` are the codes of `v` followed by `p <= 7` one bits.
pub open spec fn decodes_as(bits: Seq<bool>, v: Seq<u8>, p: nat) -> bool {
    p <= 7 && bits == huff_bits(v) + ones(p)
}

/// After the first `k` symbols of `v`, the `len` pending bits `code` are
/// the start of the next symbol's code, or of the padding.
spec fn on_track(v: Seq<u8>, p: nat, k: int, code: nat, len: nat) -> bool {
    &&& 0 <= k <= v.len()
    &&& code < pow2(len)
    &&& if k < v.len() {
        len < huffman_code(v[k] as u16).1 && code_bits(code, len) == symbol_bits(v[k]).subrange(
            0,
            len as int,
        )
    } else {
        len <= p && code_bits(code, len) == ones(len)
    }
}

/// A decoder that has emitted `out` and holds `len` pending bits `code`
/// after reading `j` bits is on the way to `v`.
spec fn tracking(v: Seq<u8>, p: nat, out: Seq<u8>, code: nat, len: nat, j: int) -> bool {
    &&& out.len() <= v.len()
    &&& out == v.subrange(0, out.len() as int)
    &&& on_track(v, p, out.len() as int, code, len)
    &&& j == huff_bits(out).len() + len
}

/// What reading bit `j` does to a decoder on the way to `v`.
spec fn step_facts(bits: Seq<bool>, v: Seq<u8>, p: nat, out: Seq<u8>, code: nat, len: nat, j: int) -> bool {
    let b = bits[j];
    let c2: nat = 2 * code + bit_val(b);
    let l2: nat = len + 1;
    &&& l2 <= 26
    &&& c2 < pow2(l2)
    &&& out.len() < v.len() ==> {
        let x = v[out.len() as int] as u16;
        &&& l2 <= huffman_code(x).1
        &&& l2 < huffman_code(x).1 ==> tracking(v, p, out, c2, l2, j + 1) && forall|s: u16|
            !code_is(s, c2, l2)
        &&& l2 == huffman_code(x).1 ==> (forall|s: u16| code_is(s, c2, l2) <==> s == x) && x
            != EOS && tracking(v, p, out.push(x as u8), 0, 0, j + 1)
    }
    &&& out.len() == v.len() ==> tracking(v, p, out, c2, l2, j + 1) && forall|s: u16|
        !code_is(s, c2, l2)
}

proof fn lemma_track_step(bits: Seq<bool>, v: Seq<u8>, p: nat, out: Seq<u8>, code: nat, len: nat, j: int)
    requires
        decodes_as(bits, v, p),
        tracking(v, p, out, code, len, j),
        0 <= j < bits.len(),
    ensures
        step_facts(bits, v, p, out, code, len, j),
{
    let b = bits[j];
    let c2: nat = 2 * code + bit_val(b);
    let l2: nat = len + 1;
    let k = out.len() as int;
    let hk = huff_bits(out);
    lemma_code_bits_push(code, len, b);
    assert(pow2(l2) == 2 * pow2(len));
    if k < v.len() {
        let x = v[k];
        let (c, l) = huffman_code(x as u16);
        let rest = v.subrange(k + 1, v.len() as int);
        assert(v =~= out + (seq![x] + rest));
        lemma_huff_bits_concat(out, seq![x] + rest);
        lemma_huff_bits_concat(seq![x], rest);
        assert(seq![x].drop_last() =~= Seq::<u8>::empty());
        assert(seq![x].last() == x);
        assert(huff_bits(Seq::<u8>::empty()) =~= Seq::<bool>::empty());
        assert(huff_bits(seq![x]) =~= symbol_bits(x));
        lemma_code_bits_len(c, l);
        lemma_code_in_range(x as u16);
        lemma_codes_fit(l);
        assert(bits[j] == symbol_bits(x)[len as int]);
        assert(code_bits(c2, l2) =~= symbol_bits(x).subrange(0, l2 as int));
        lemma_code_bits_prefix(c, l, l2);
        lemma_pow2_add((l - l2) as nat, l2);
        lemma_pow2_pos((l - l2) as nat);
        lemma_pow2_pos(l2);
        assert(c < pow2(l2) * pow2((l - l2) as nat)) by (nonlinear_arith)
            requires
                c < pow2(l),
                pow2(l) == pow2((l - l2) as nat) * pow2(l2),
        ;
        lemma_div_bounds(c, pow2((l - l2) as nat), pow2(l2));
        lemma_code_bits_injective(c2, c / pow2((l - l2) as nat), l2);
        if l2 < l {
            assert forall|s: u16| !code_is(s, c2, l2) by {
                lemma_no_proper_prefix(x as u16, l2, s);
            }
            assert(tracking(v, p, out, c2, l2, j + 1));
        } else {
            lemma_fundamental_div_mod_converse(c as int, 1, c as int, 0);
            assert(c2 == c);
            assert forall|s: u16| code_is(s, c2, l2) <==> s == x as u16 by {
                if code_is(s, c2, l2) {
                    lemma_code_injective(s, x as u16);
                }
            }
            let o2 = out.push(x);
            assert(o2 == v.subrange(0, k + 1)) by {
                assert(o2 =~= v.subrange(0, k + 1));
            }
            assert(o2.drop_last() =~= out);
            assert(huff_bits(o2) == hk + symbol_bits(x));
            assert(code_bits(0, 0) =~= Seq::<bool>::empty());
            if k + 1 < v.len() {
                lemma_code_in_range(v[k + 1] as u16);
                assert(symbol_bits(v[k + 1]).subrange(0, 0) =~= Seq::<bool>::empty());
            } else {
                assert(ones(0) =~= Seq::<bool>::empty());
            }
            assert(tracking(v, p, o2, 0, 0, j + 1));
        }
    } else {
        assert(out =~= v);
        assert(bits[j] == ones(p)[len as int]);
        assert(code_bits(c2, l2) =~= ones(l2));
        lemma_all_ones(l2);
        lemma_pow2_pos(l2);
        lemma_code_bits_injective(c2, (pow2(l2) - 1) as nat, l2);
        assert forall|s: u16| !code_is(s, c2, l2) by {
            lemma_padding_not_code(l2, s);
        }
    }
}

proof fn lemma_track_end(bits: Seq<bool>, v: Seq<u8>, p: nat, out: Seq<u8>, code: nat, len: nat)
    requires
        decodes_as(bits, v, p),
        tracking(v, p, out, code, len, bits.len() as int),
    ensures
        out == v,
        len == p,
        code == pow2(len) - 1,
{
    let k = out.len() as int;
    if k < v.len() {
        let x = v[k];
        let rest = v.subrange(k + 1, v.len() as int);
        assert(v =~= out + (seq![x] + rest));
        lemma_huff_bits_concat(out, seq![x] + rest);
        lemma_huff_bits_concat(seq![x], rest);
        assert(seq![x].drop_last() =~= Seq::<u8>::empty());
        assert(seq![x].last() == x);
        assert(huff_bits(Seq::<u8>::empty()) =~= Seq::<bool>::empty());
        assert(huff_bits(seq![x]) =~= symbol_bits(x));
        lemma_code_bits_len(huffman_code(x as u16).0, huffman_code(x as u16).1);
    }
    assert(out =~= v);
    lemma_all_ones(len);
    lemma_pow2_pos(len);
    lemma_code_bits_injective(code, (pow2(len) - 1) as nat, len);
}

/// Writes bits into octets, most significant bit first.
struct BitWriter {
    out: Vec<u8>,
    acc: u32,
    nbits: u32,
    bits: Ghost<Seq<bool>>,
}

impl BitWriter {
    spec fn inv(&self) -> bool {
        let b = self.bits@;
        &&& self.nbits < 8
        &&& b.len() == 8 * self.out@.len() + self.nbits
        &&& self.out@ == octets_of(b.subrange(0, 8 * self.out@.len() as int))
        &&& self.acc as nat == bits_value(b.subrange(8 * self.out@.len() as int, b.len() as int))
        &&& self.acc < 256
    }

    fn new() -> (r: BitWriter)
        ensures
            r.inv(),
            r.bits@ == Seq::<bool>::empty(),
    {
        let r = BitWriter { out: Vec::new(), acc: 0, nbits: 0, bits: Ghost(Seq::empty()) };
        assert(r.out@ =~= octets_of(r.bits@.subrange(0, 0)));
        r
    }

    fn push_bit(&mut self, bit: bool)
        requires
            old(self).inv(),
        ensures
            final(self).inv(),
            final(self).bits@ == old(self).bits@.push(bit),
    {
        let ghost b0 = self.bits@;
        let ghost n0 = self.out@.len();
        let ghost b1 = b0.push(bit);
        proof {
            assert(b1.subrange(8 * n0 as int, b1.len() as int) =~= b0.subrange(
                8 * n0 as int,
                b0.len() as int,
            ).push(bit));
            assert(b1.subrange(8 * n0 as int, b1.len() as int).drop_last() =~= b0.subrange(
                8 * n0 as int,
                b0.len() as int,
            ));
            lemma_bits_value_bound(b1.subrange(8 * n0 as int, b1.len() as int));
            reveal_with_fuel(crate::integer::pow2, 9);
        }
        let v: u32 = 2 * self.acc + if bit {
            1
        } else {
            0
        };
        self.bits = Ghost(b1);
        if self.nbits == 7 {
            self.out.push(v as u8);
            self.acc = 0;
            self.nbits = 0;
            proof {
                let b = self.bits@;
                assert(b.subrange(8 * self.out@.len() as int, b.len() as int) =~= Seq::<
                    bool,
                >::empty());
                let full = b.subrange(0, 8 * self.out@.len() as int);
                let prev = b0.subrange(0, 8 * n0 as int);
                assert forall|k: int| 0 <= k < n0 + 1 implies #[trigger] octets_of(full)[k]
                    == self.out@[k] by {
                    if k < n0 {
                        assert(full.subrange(8 * k, 8 * k + 8) =~= prev.subrange(8 * k, 8 * k + 8));
                    } else {
                        assert(full.subrange(8 * k, 8 * k + 8) =~= b1.subrange(
                            8 * n0 as int,
                            b1.len() as int,
                        ));
                    }
                }
                assert(self.out@ =~= octets_of(b.subrange(0, 8 * self.out@.len() as int)));
            }
        } else {
            self.acc = v;
            self.nbits = self.nbits + 1;
            proof {
                assert(b1.subrange(0, 8 * n0 as int) =~= b0.subrange(0, 8 * n0 as int));
            }
        }
    }

    /// Writes the `l` low bits of `c`, most significant first.
    fn push_code(&mut self, c: u32, l: u8)
        requires
            old(self).inv(),
        ensures
            final(self).inv(),
            final(self).bits@ == old(self).bits@ + code_bits(c as nat, l as nat),
        decreases l,
    {
        if l == 0 {
            assert(self.bits@ =~= old(self).bits@ + code_bits(c as nat, 0));
            return;
        }
        self.push_code(c / 2, l - 1);
        self.push_bit(c % 2 == 1);
        assert(self.bits@ =~= old(self).bits@ + code_bits(c as nat, l as nat));
    }
}

/// Huffman encoder of string literals.
pub struct HuffmanEncoder {}

impl HuffmanEncoder {
    /// A new encoder.
    pub fn new() -> (r: HuffmanEncoder) {
        HuffmanEncoder {}
    }

    /// The Huffman encoding of `bytes`: the codes of its octets, the last
    /// octet padded with one bits.
    pub fn encode(&mut self, bytes: Vec<u8>) -> (r: Vec<u8>)
        ensures
            r@ == huffman_octets(bytes@),
    {
        let mut w = BitWriter::new();
        let mut i: usize = 0;
        while i < bytes.len()
            invariant
                w.inv(),
                i <= bytes@.len(),
                w.bits@ == huff_bits(bytes@.subrange(0, i as int)),
            decreases bytes@.len() - i,
        {
            let (c, l) = code_of(bytes[i] as u16);
            w.push_code(c, l);
            proof {
                let s = bytes@.subrange(0, i + 1);
                assert(s.drop_last() =~= bytes@.subrange(0, i as int));
            }
            i = i + 1;
        }
        assert(bytes@.subrange(0, bytes@.len() as int) =~= bytes@);
        let ghost hb = w.bits@;
        if w.nbits != 0 {
            let (c, l) = code_of(EOS);
            let pad: u32 = 8 - w.nbits;
            let ones_code: u32 = if pad == 1 { 1 } else if pad == 2 { 3 } else if pad == 3 { 7 } else if pad == 4 { 15 } else if pad == 5 { 31 } else if pad == 6 { 63 } else { 127 };
            proof {
                reveal_with_fuel(crate::integer::pow2, 9);
                lemma_all_ones(pad as nat);
            }
            w.push_code(ones_code, pad as u8);
        } else {
            assert(ones(0) =~= Seq::<bool>::empty());
        }
        proof {
            let b = w.bits@;
            assert(b =~= pad_bits(hb));
            assert(b.subrange(0, 8 * w.out@.len() as int) =~= b);
        }
        w.out
    }
}

/// Appends the `l` low bits of `c` to `v`, most significant first.
fn push_bits(v: &mut Vec<bool>, c: u32, l: u8)
    ensures
        final(v)@ == old(v)@ + code_bits(c as nat, l as nat),
    decreases l,
{
    if l == 0 {
        assert(v@ =~= old(v)@ + code_bits(c as nat, 0));
        return;
    }
    push_bits(v, c / 2, l - 1);
    v.push(c % 2 == 1);
    assert(v@ =~= old(v)@ + code_bits(c as nat, l as nat));
}

/// The symbol whose code is the `len` low bits of `code`, if any.
fn lookup(code: u32, len: u8) -> (r: Option<u16>)
    ensures
        r matches Some(s) ==> s <= EOS && huffman_code(s) == (code as nat, len as nat),
        r is None ==> forall|s: u16| !code_is(s, code as nat, len as nat),
{
    let mut s: u16 = 0;
    while s <= EOS
        invariant
            s <= EOS + 1,
            forall|t: u16| t < s ==> !code_is(t, code as nat, len as nat),
        decreases EOS + 1 - s,
    {
        let (c, l) = code_of(s);
        if c == code && l == len {
            return Some(s);
        }
        s = s + 1;
    }
    None
}

#[verifier::rlimit(50)]
proof fn lemma_pow2_26()
    ensures
        crate::integer::pow2(26) == 0x4000000,
        forall|l: nat| l <= 26 ==> #[trigger] crate::integer::pow2(l) <= 0x4000000,
{
    reveal_with_fuel(crate::integer::pow2, 27);
}

/// Huffman decoder of string literals.
pub struct HuffmanDecoder {}

impl HuffmanDecoder {
    /// A new decoder.
    pub fn new() -> (r: HuffmanDecoder) {
        HuffmanDecoder {}
    }

    /// Decodes a Huffman-coded string: the octets whose codes, followed by
    /// at most seven one bits, are the bits of `bytes`. `None` when there
    /// are none: on the end-of-string code, on more than seven bits of
    /// padding, on padding that is not all ones, or on a code cut short.
    pub fn decode(&mut self, bytes: Vec<u8>) -> (r: Option<Vec<u8>>)
        ensures
            r matches Some(out) ==> is_huffman_decoding(bytes@, out@),
            forall|v: Seq<u8>| #[trigger]
                is_huffman_decoding(bytes@, v) ==> (r matches Some(out) && out@ == v),
    {
        let mut bits: Vec<bool> = Vec::new();
        let mut i: usize = 0;
        while i < bytes.len()
            invariant
                i <= bytes@.len(),
                bits@ == octet_bits(bytes@.subrange(0, i as int)),
            decreases bytes@.len() - i,
        {
            push_bits(&mut bits, bytes[i] as u32, 8);
            proof {
                let t = bytes@.subrange(0, i + 1);
                assert(t.drop_last() =~= bytes@.subrange(0, i as int));
            }
            i = i + 1;
        }
        assert(bytes@.subrange(0, bytes@.len() as int) =~= bytes@);
        let mut out: Vec<u8> = Vec::new();
        let mut code: u32 = 0;
        let mut len: u8 = 0;
        let mut j: usize = 0;
        proof {
            lemma_pow2_26();
            assert(bits@.subrange(0, 0) =~= huff_bits(out@) + code_bits(0, 0));
            assert forall|v: Seq<u8>, p: nat| #[trigger] decodes_as(bits@, v, p) implies tracking(
                v,
                p,
                out@,
                0,
                0,
                0,
            ) by {
                assert(out@ =~= v.subrange(0, 0));
                assert(code_bits(0, 0) =~= Seq::<bool>::empty());
                assert(huff_bits(out@) =~= Seq::<bool>::empty());
                if v.len() > 0 {
                    lemma_code_in_range(v[0] as u16);
                    assert(symbol_bits(v[0]).subrange(0, 0) =~= Seq::<bool>::empty());
                } else {
                    assert(ones(0) =~= Seq::<bool>::empty());
                }
            }
        }
        while j < bits.len()
            invariant
                bits@ == octet_bits(bytes@),
                j <= bits@.len(),
                len <= MAX_CODE_LEN,
                (code as nat) < pow2(len as nat),
                bits@.subrange(0, j as int) == huff_bits(out@) + code_bits(code as nat, len as nat),
                forall|v: Seq<u8>, p: nat| #[trigger]
                    decodes_as(bits@, v, p) ==> tracking(v, p, out@, code as nat, len as nat, j as int),
            decreases bits@.len() - j,
        {
            let bit = bits[j];
            let ghost out0 = out@;
            let ghost code0 = code as nat;
            let ghost len0 = len as nat;
            let ghost j0 = j as int;
            proof {
                lemma_pow2_26();
                lemma_code_bits_push(code as nat, len as nat, bit);
                assert(bits@.subrange(0, j + 1) =~= bits@.subrange(0, j as int).push(bit));
                assert forall|v: Seq<u8>, p: nat| #[trigger] decodes_as(bits@, v, p) implies step_facts(
                    bits@,
                    v,
                    p,
                    out0,
                    code0,
                    len0,
                    j0,
                ) by {
                    lemma_track_step(bits@, v, p, out0, code0, len0, j0);
                }
            }
            code = 2 * code + if bit {
                1
            } else {
                0
            };
            len = len + 1;
            j = j + 1;
            assert(bit == bits@[j0]);
            assert(code as nat == 2 * code0 + bit_val(bits@[j0]));
            assert(len as nat == len0 + 1);
            if len > MAX_CODE_LEN {
                proof {
                    assert forall|v: Seq<u8>| !is_huffman_decoding(bytes@, v) by {
                        if is_huffman_decoding(bytes@, v) {
                            let p = choose|p: nat| p <= 7 && octet_bits(bytes@) == huff_bits(v) + ones(p);
                            assert(decodes_as(bits@, v, p));
                        }
                    }
                }
                return None;
            }
            match lookup(code, len) {
                Some(s) => {
                    if s == EOS {
                        proof {
                            assert forall|v: Seq<u8>| !is_huffman_decoding(bytes@, v) by {
                                if is_huffman_decoding(bytes@, v) {
                                    let p = choose|p: nat| p <= 7 && octet_bits(bytes@) == huff_bits(v) + ones(p);
                                    assert(decodes_as(bits@, v, p));
                                    assert(code_is(s, code as nat, len as nat));
                                    assert(step_facts(bits@, v, p, out0, code0, len0, j0));
                                    let c2: nat = 2 * code0 + bit_val(bits@[j0]);
                                    let l2: nat = len0 + 1;
                                    assert(code_is(s, c2, l2));
                                    assert(out0.len() < v.len());
                                    let x = v[out0.len() as int] as u16;
                                    assert(l2 == huffman_code(x).1);
                                    assert(s == x);
                                }
                            }
                        }
                        return None;
                    }
                    let ghost before = out@;
                    out.push(s as u8);
                    proof {
                        assert(out@.drop_last() =~= before);
                        assert(code_bits(0, 0) =~= Seq::<bool>::empty());
                        assert(huff_bits(out@) == huff_bits(before) + symbol_bits(s as u8));
                        assert(bits@.subrange(0, j as int) =~= huff_bits(out@) + code_bits(0, 0));
                        assert forall|v: Seq<u8>, p: nat| #[trigger] decodes_as(bits@, v, p) implies tracking(
                            v,
                            p,
                            out@,
                            0,
                            0,
                            j as int,
                        ) by {
                            assert(code_is(s, code as nat, len as nat));
                            assert(step_facts(bits@, v, p, out0, code0, len0, j0));
                            let c2: nat = 2 * code0 + bit_val(bits@[j0]);
                            let l2: nat = len0 + 1;
                            assert(code_is(s, c2, l2));
                            assert(out0.len() < v.len());
                            let x = v[out0.len() as int] as u16;
                            assert(l2 == huffman_code(x).1);
                            assert(s == x);
                            assert(out@ == out0.push(x as u8));
                        }
                    }
                    code = 0;
                    len = 0;
                },
                None => {
                    proof {
                        assert forall|v: Seq<u8>, p: nat| #[trigger] decodes_as(bits@, v, p) implies tracking(
                            v,
                            p,
                            out@,
                            code as nat,
                            len as nat,
                            j as int,
                        ) by {
                            assert(step_facts(bits@, v, p, out0, code0, len0, j0));
                            if out0.len() < v.len() {
                                let x = v[out0.len() as int] as u16;
                                let c2: nat = 2 * code0 + bit_val(bits@[j0]);
                                let l2: nat = len0 + 1;
                                if l2 == huffman_code(x).1 {
                                    assert(code_is(x, c2, l2));
                                    assert(code_is(x, code as nat, len as nat));
                                }
                            }
                        }
                    }
                },
            }
        }
        proof {
            assert forall|v: Seq<u8>| #[trigger] is_huffman_decoding(bytes@, v) implies out@ == v
                && len as nat <= 7 && code as nat == pow2(len as nat) - 1 by {
                let p = choose|p: nat| p <= 7 && octet_bits(bytes@) == huff_bits(v) + ones(p);
                assert(decodes_as(bits@, v, p));
                lemma_track_end(bits@, v, p, out@, code as nat, len as nat);
            }
        }
        if len > 7 {
            return None;
        }
        let mut all_ones: u32 = 0;
        let mut k: u8 = 0;
        while k < len
            invariant
                k <= len <= 7,
                all_ones as nat == pow2(k as nat) - 1,
            decreases len - k,
        {
            proof {
                reveal_with_fuel(pow2, 9);
                lemma_pow2_26();
            }
            all_ones = 2 * all_ones + 1;
            k = k + 1;
        }
        if code != all_ones {
            return None;
        }
        proof {
            lemma_all_ones(len as nat);
            assert(bits@.subrange(0, bits@.len() as int) =~= bits@);
            assert(octet_bits(bytes@) == huff_bits(out@) + ones(len as nat));
        }
        Some(out)
    }
}

} // verus!
