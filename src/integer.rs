//! N-bit prefix integers: the first octet carries the low N bits, larger
//! values continue in 7-bit groups, least significant group first.

use vstd::prelude::*;

verus! {

/// Largest value a decoded integer may take.
pub const INT_MAX: u64 = 0xFFFF_FFFF;

/// Most continuation octets a decoded integer may use.
pub const MAX_CONT_OCTETS: usize = 5;

/// `2^n`.
pub open spec fn pow2(n: nat) -> nat
    decreases n,
{
    if n == 0 {
        1
    } else {
        2 * pow2((n - 1) as nat)
    }
}

/// The largest value that fits in an `n`-bit prefix: `2^n - 1`.
pub open spec fn prefix_bound(n: nat) -> nat {
    (pow2(n) - 1) as nat
}

/// The continuation octets of `j`: 7 bits at a time, high bit set on all
/// but the last.
pub open spec fn cont_octets(j: nat) -> Seq<u8>
    decreases j,
{
    if j < 128 {
        seq![j as u8]
    } else {
        seq![(j % 128 + 128) as u8] + cont_octets(j / 128)
    }
}

/// The octets that encode `i` with an `n`-bit prefix (flag bits left zero).
pub open spec fn int_octets(i: nat, n: nat) -> Seq<u8> {
    if i < prefix_bound(n) {
        seq![i as u8]
    } else {
        seq![prefix_bound(n) as u8] + cont_octets((i - prefix_bound(n)) as nat)
    }
}

/// Reads continuation octets of `s` from `pos`, `k` of them having been read
/// already: the value they carry and the position after the last one, or
/// `None` when the input ends first or more than `MAX_CONT_OCTETS` are used.
pub open spec fn cont_decode(s: Seq<u8>, pos: int, k: nat) -> Option<(nat, int)>
    decreases MAX_CONT_OCTETS - k,
{
    if k >= MAX_CONT_OCTETS || pos < 0 || pos >= s.len() {
        None
    } else if s[pos] < 128 {
        Some((s[pos] as nat, pos + 1))
    } else {
        match cont_decode(s, pos + 1, k + 1) {
            Some((v, e)) => Some(((s[pos] - 128) as nat + 128 * v, e)),
            None => None,
        }
    }
}

/// Decodes an `n`-bit prefix integer of `s` at `pos`: its value and the
/// position after it, or `None` on truncated or excessive input.
pub open spec fn int_decode(s: Seq<u8>, pos: int, n: nat) -> Option<(nat, int)> {
    if pos < 0 || pos >= s.len() {
        None
    } else if (s[pos] as nat) % pow2(n) < prefix_bound(n) {
        Some((((s[pos] as nat) % pow2(n)) as nat, pos + 1))
    } else {
        match cont_decode(s, pos + 1, 0) {
            Some((v, e)) => if prefix_bound(n) + v <= INT_MAX {
                Some((prefix_bound(n) + v, e))
            } else {
                None
            },
            None => None,
        }
    }
}

/// Exclusive bound of the values that continuation octets can carry when `k`
/// of them have been read already.
pub open spec fn cont_cap(k: nat) -> nat
    decreases MAX_CONT_OCTETS - k,
{
    if k >= MAX_CONT_OCTETS {
        1
    } else {
        128 * cont_cap(k + 1)
    }
}

pub proof fn lemma_pow2_small(n: nat)
    requires
        1 <= n <= 8,
    ensures
        2 <= pow2(n) <= 256,
        prefix_bound(n) == pow2(n) - 1,
{
    reveal_with_fuel(pow2, 9);
}

pub proof fn lemma_prefix_bounds()
    ensures
        prefix_bound(4) == 15,
        prefix_bound(5) == 31,
        prefix_bound(6) == 63,
        prefix_bound(7) == 127,
        prefix_bound(8) == 255,
{
    reveal_with_fuel(pow2, 9);
}

proof fn lemma_cont_cap_values()
    ensures
        cont_cap(0) == 34359738368,
        cont_cap(1) == 268435456,
        cont_cap(2) == 2097152,
        cont_cap(3) == 16384,
        cont_cap(4) == 128,
        cont_cap(5) == 1,
{
    reveal_with_fuel(cont_cap, 6);
}

pub proof fn lemma_cont_decode_bound(s: Seq<u8>, pos: int, k: nat)
    ensures
        cont_decode(s, pos, k) matches Some((v, e)) ==> v < cont_cap(k) && pos < e <= s.len(),
    decreases MAX_CONT_OCTETS - k,
{
    lemma_cont_cap_values();
    if k < MAX_CONT_OCTETS && 0 <= pos < s.len() && s[pos] >= 128 {
        lemma_cont_decode_bound(s, pos + 1, k + 1);
        if let Some((v, e)) = cont_decode(s, pos + 1, k + 1) {
            let b: int = s[pos] - 128;
            let c: int = cont_cap(k + 1) as int;
            assert(b + 128 * v < 128 * c) by (nonlinear_arith)
                requires
                    0 <= b < 128,
                    v < c,
            ;
        }
    } else if k < MAX_CONT_OCTETS {
        assert(cont_cap(k) >= 128);
    }
}

/// Continuation octets read back from any position give the value they
/// were written from, provided it fits the remaining octet budget.
proof fn lemma_cont_round_trip(j: nat, k: nat, pre: Seq<u8>, tail: Seq<u8>)
    requires
        k < MAX_CONT_OCTETS,
        j < cont_cap(k),
    ensures
        cont_decode(pre + cont_octets(j) + tail, pre.len() as int, k) == Some(
            (j, (pre.len() + cont_octets(j).len()) as int),
        ),
    decreases j,
{
    let s = pre + cont_octets(j) + tail;
    if j < 128 {
        assert(s[pre.len() as int] == j as u8);
    } else {
        let b = (j % 128 + 128) as u8;
        let pre2 = pre.push(b);
        assert(cont_cap(k) == 128 * cont_cap(k + 1));
        assert(j / 128 < cont_cap(k + 1)) by (nonlinear_arith)
            requires
                j < 128 * cont_cap(k + 1),
        ;
        if k + 1 >= MAX_CONT_OCTETS {
            lemma_cont_cap_values();
        }
        lemma_cont_round_trip(j / 128, k + 1, pre2, tail);
        assert(pre2 + cont_octets(j / 128) + tail =~= s);
        assert(s[pre.len() as int] == b);
        assert(j == j % 128 + 128 * (j / 128)) by (nonlinear_arith);
    }
}

/// Decoding the encoding of any integer below 2^28, with any prefix width
/// from 1 to 8, gives back that integer and consumes exactly its octets,
/// whatever follows them.
pub proof fn lemma_int_round_trip(i: nat, n: nat, tail: Seq<u8>)
    requires
        1 <= n <= 8,
        i < 268435456,
    ensures
        int_decode(int_octets(i, n) + tail, 0, n) == Some((i, int_octets(i, n).len() as int)),
{
    lemma_pow2_small(n);
    let s = int_octets(i, n) + tail;
    if i < prefix_bound(n) {
        assert(s[0] == i as u8);
        assert((i % pow2(n)) == i) by (nonlinear_arith)
            requires
                i < pow2(n),
        ;
    } else {
        let j = (i - prefix_bound(n)) as nat;
        lemma_cont_cap_values();
        lemma_cont_round_trip(j, 0, seq![prefix_bound(n) as u8], tail);
        assert(seq![prefix_bound(n) as u8] + cont_octets(j) + tail =~= s);
        assert(s[0] == prefix_bound(n) as u8);
        assert((prefix_bound(n) % pow2(n)) == prefix_bound(n)) by (nonlinear_arith)
            requires
                prefix_bound(n) < pow2(n),
        ;
    }
}

/// Decoding is unaffected by octets after the integer.
pub proof fn lemma_cont_decode_extend(s: Seq<u8>, t: Seq<u8>, pos: int, k: nat)
    requires
        cont_decode(s, pos, k) is Some,
    ensures
        cont_decode(s + t, pos, k) == cont_decode(s, pos, k),
    decreases MAX_CONT_OCTETS - k,
{
    if s[pos] >= 128 {
        lemma_cont_decode_extend(s, t, pos + 1, k + 1);
    }
}

/// Decoding is unaffected by octets after the integer.
pub proof fn lemma_int_decode_extend(s: Seq<u8>, t: Seq<u8>, pos: int, n: nat)
    requires
        int_decode(s, pos, n) is Some,
    ensures
        int_decode(s + t, pos, n) == int_decode(s, pos, n),
{
    if (s[pos] as nat) % pow2(n) >= prefix_bound(n) {
        lemma_cont_decode_extend(s, t, pos + 1, 0);
    }
}

/// An integer up to `INT_MAX`, written at any position with flag bits in
/// the high `8 - n` bits of its first octet, reads back as itself.
pub proof fn lemma_int_round_trip_at(i: nat, n: nat, flags: nat, pre: Seq<u8>, tail: Seq<u8>)
    requires
        1 <= n <= 8,
        i <= INT_MAX,
        flags % pow2(n) == 0,
        flags + prefix_bound(n) <= 255,
    ensures
        ({
            let o = int_octets(i, n);
            let w = o.update(0, (o[0] + flags) as u8);
            &&& int_decode(pre + w + tail, pre.len() as int, n) == Some((i, (pre.len() + o.len()) as int))
            &&& w[0] as nat == (if i < prefix_bound(n) {
                i
            } else {
                prefix_bound(n)
            }) + flags
            &&& o.len() >= 1
        }),
{
    lemma_pow2_small(n);
    let o = int_octets(i, n);
    let w = o.update(0, (o[0] + flags) as u8);
    let s = pre + w + tail;
    let b = prefix_bound(n);
    let p = pow2(n);
    let first: nat = if i < b {
        i
    } else {
        b
    };
    assert(s[pre.len() as int] == (first + flags) as u8);
    assert((first + flags) % p == first) by {
        vstd::arithmetic::div_mod::lemma_fundamental_div_mod(flags as int, p as int);
        let q = flags / p;
        assert(first + flags == q * p + first) by (nonlinear_arith)
            requires
                flags == p * q + flags % p,
                flags % p == 0,
        ;
        vstd::arithmetic::div_mod::lemma_fundamental_div_mod_converse(
            (first + flags) as int,
            p as int,
            q as int,
            first as int,
        );
    }
    if i >= b {
        let j = (i - b) as nat;
        lemma_cont_cap_values();
        lemma_cont_round_trip(j, 0, pre.push(w[0]), tail);
        assert(pre.push(w[0]) + cont_octets(j) + tail =~= s);
    }
}

/// Encodes `i` with an `n`-bit prefix; the caller ORs flag bits into the
/// high `8 - n` bits of the first octet.
pub fn encode_int(i: usize, n: u8) -> (r: Vec<u8>)
    requires
        1 <= n <= 8,
    ensures
        r@ == int_octets(i as nat, n as nat),
        r@.len() >= 1,
        r@[0] as nat <= prefix_bound(n as nat),
{
    proof {
        lemma_pow2_small(n as nat);
    }
    let pw: u64 = pow2_exec(n);
    let bound: u64 = pw - 1;
    let mut buffer: Vec<u8> = Vec::new();
    if (i as u64) < bound {
        buffer.push(i as u8);
        return buffer;
    }
    buffer.push(bound as u8);
    let mut j: u64 = i as u64 - bound;
    while j >= 128
        invariant
            buffer@.len() >= 1,
            buffer@[0] == bound as u8,
            buffer@ + cont_octets(j as nat) == int_octets(i as nat, n as nat),
        decreases j,
    {
        let b: u8 = (j % 128 + 128) as u8;
        proof {
            assert(cont_octets(j as nat) =~= seq![b] + cont_octets((j / 128) as nat));
            assert(buffer@.push(b) + cont_octets((j / 128) as nat) =~= buffer@ + cont_octets(
                j as nat,
            ));
        }
        buffer.push(b);
        j = j / 128;
    }
    proof {
        assert(buffer@.push(j as u8) =~= buffer@ + cont_octets(j as nat));
    }
    buffer.push(j as u8);
    buffer
}

/// `2^n` for a prefix width.
fn pow2_exec(n: u8) -> (r: u64)
    requires
        1 <= n <= 8,
    ensures
        r as nat == pow2(n as nat),
{
    reveal_with_fuel(pow2, 9);
    let mut r: u64 = 1;
    let mut k: u8 = 0;
    while k < n
        invariant
            k <= n <= 8,
            r as nat == pow2(k as nat),
            r <= 256,
        decreases n - k,
    {
        proof {
            lemma_pow2_le(k as nat);
        }
        r = r * 2;
        k = k + 1;
    }
    r
}

proof fn lemma_pow2_le(k: nat)
    requires
        k < 8,
    ensures
        pow2(k) <= 128,
{
    reveal_with_fuel(pow2, 9);
}

/// Reads continuation octets of `s` from `pos`, `k` having been read already.
fn decode_cont(s: &[u8], pos: usize, k: usize) -> (r: Option<(u64, usize)>)
    requires
        k <= MAX_CONT_OCTETS,
    ensures
        match cont_decode(s@, pos as int, k as nat) {
            Some((v, e)) => r matches Some((w, f)) && w == v && f == e,
            None => r is None,
        },
    decreases MAX_CONT_OCTETS - k,
{
    if k >= MAX_CONT_OCTETS || pos >= s.len() {
        return None;
    }
    let b: u8 = s[pos];
    if b < 128 {
        return Some((b as u64, pos + 1));
    }
    proof {
        lemma_cont_decode_bound(s@, pos as int + 1, (k + 1) as nat);
        lemma_cont_cap_values();
        if k + 1 < MAX_CONT_OCTETS {
            assert(cont_cap((k + 1) as nat) <= cont_cap(1)) by {
                reveal_with_fuel(cont_cap, 6);
            }
        }
    }
    match decode_cont(s, pos + 1, k + 1) {
        Some((v, e)) => {
            Some(((b - 128) as u64 + 128 * v, e))
        },
        None => None,
    }
}

/// Decodes an `n`-bit prefix integer from `s` at `pos`: its value and the
/// position just after it.
pub fn decode_int_at(s: &[u8], pos: usize, n: u8) -> (r: Option<(usize, usize)>)
    requires
        1 <= n <= 8,
    ensures
        match int_decode(s@, pos as int, n as nat) {
            Some((v, e)) => r matches Some((w, f)) && w == v && f == e,
            None => r is None,
        },
        r matches Some((v, e)) ==> pos < e <= s@.len() && v <= INT_MAX,
        int_decode(s@, pos as int, n as nat) matches Some((v, e)) ==> pos < e <= s@.len() && v
            <= INT_MAX,
{
    proof {
        lemma_pow2_small(n as nat);
    }
    if pos >= s.len() {
        return None;
    }
    let pw: u64 = pow2_exec(n);
    let bound: u64 = pw - 1;
    let first: u64 = s[pos] as u64 % pw;
    assert(first as nat == (s@[pos as int] as nat) % pow2(n as nat));
    if first < bound {
        return Some((first as usize, pos + 1));
    }
    proof {
        lemma_cont_decode_bound(s@, pos as int + 1, 0);
        lemma_cont_cap_values();
    }
    match decode_cont(s, pos + 1, 0) {
        Some((v, e)) => {
            if v <= INT_MAX - bound {
                Some(((bound + v) as usize, e))
            } else {
                assert(prefix_bound(n as nat) + v > INT_MAX);
                None
            }
        },
        None => None,
    }
}

/// Decodes an `n`-bit prefix integer at the start of `buffer`: its value and
/// the octets that follow it. `None` when `buffer` is empty, `n` is not in
/// 1..=8, the continuation is cut short, or the value is excessive.
pub fn decode_int(buffer: Vec<u8>, n: u8) -> (r: Option<(usize, Vec<u8>)>)
    ensures
        !(1 <= n <= 8) ==> r is None,
        1 <= n <= 8 ==> match int_decode(buffer@, 0, n as nat) {
            Some((v, e)) => r matches Some((w, rest)) && w == v && rest@ == buffer@.subrange(
                e,
                buffer@.len() as int,
            ),
            None => r is None,
        },
{
    if n < 1 || n > 8 {
        return None;
    }
    match decode_int_at(buffer.as_slice(), 0, n) {
        Some((v, e)) => {
            let mut rest: Vec<u8> = Vec::new();
            let mut k: usize = e;
            while k < buffer.len()
                invariant
                    e <= k <= buffer@.len(),
                    rest@ == buffer@.subrange(e as int, k as int),
                decreases buffer@.len() - k,
            {
                rest.push(buffer[k]);
                k = k + 1;
                proof {
                    assert(rest@ =~= buffer@.subrange(e as int, k as int));
                }
            }
            Some((v, rest))
        },
        None => None,
    }
}

} // verus!
