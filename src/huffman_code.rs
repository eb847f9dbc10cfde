//! The static Huffman code of draft 07: 256 octet symbols and the
//! end-of-string symbol 256, codes written most significant bit first.

use vstd::prelude::*;

verus! {

/// The end-of-string symbol.
pub const EOS: u16 = 256;

/// Longest code length in bits.
pub const MAX_CODE_LEN: u8 = 26;

/// The code of `sym` and its length in bits.
pub open spec fn huffman_code(sym: u16) -> (nat, nat) {
    match sym {
        0 => (0x3ffffba, 26),
        1 => (0x3ffffbb, 26),
        2 => (0x3ffffbc, 26),
        3 => (0x3ffffbd, 26),
        4 => (0x3ffffbe, 26),
        5 => (0x3ffffbf, 26),
        6 => (0x3ffffc0, 26),
        7 => (0x3ffffc1, 26),
        8 => (0x3ffffc2, 26),
        9 => (0x3ffffc3, 26),
        10 => (0x3ffffc4, 26),
        11 => (0x3ffffc5, 26),
        12 => (0x3ffffc6, 26),
        13 => (0x3ffffc7, 26),
        14 => (0x3ffffc8, 26),
        15 => (0x3ffffc9, 26),
        16 => (0x3ffffca, 26),
        17 => (0x3ffffcb, 26),
        18 => (0x3ffffcc, 26),
        19 => (0x3ffffcd, 26),
        20 => (0x3ffffce, 26),
        21 => (0x3ffffcf, 26),
        22 => (0x3ffffd0, 26),
        23 => (0x3ffffd1, 26),
        24 => (0x3ffffd2, 26),
        25 => (0x3ffffd3, 26),
        26 => (0x3ffffd4, 26),
        27 => (0x3ffffd5, 26),
        28 => (0x3ffffd6, 26),
        29 => (0x3ffffd7, 26),
        30 => (0x3ffffd8, 26),
        31 => (0x3ffffd9, 26),
        32 => (0x6, 5),
        33 => (0x1ffc, 13),
        34 => (0x1f0, 9),
        35 => (0x3ffc, 14),
        36 => (0x7ffc, 15),
        37 => (0x1e, 6),
        38 => (0x64, 7),
        39 => (0x1ffd, 13),
        40 => (0x3fa, 10),
        41 => (0x1f1, 9),
        42 => (0x3fb, 10),
        43 => (0x3fc, 10),
        44 => (0x65, 7),
        45 => (0x66, 7),
        46 => (0x1f, 6),
        47 => (0x7, 5),
        48 => (0x0, 4),
        49 => (0x1, 4),
        50 => (0x2, 4),
        51 => (0x8, 5),
        52 => (0x20, 6),
        53 => (0x21, 6),
        54 => (0x22, 6),
        55 => (0x23, 6),
        56 => (0x24, 6),
        57 => (0x25, 6),
        58 => (0x26, 6),
        59 => (0xec, 8),
        60 => (0x1fffc, 17),
        61 => (0x27, 6),
        62 => (0x7ffd, 15),
        63 => (0x3fd, 10),
        64 => (0x7ffe, 15),
        65 => (0x67, 7),
        66 => (0xed, 8),
        67 => (0xee, 8),
        68 => (0x68, 7),
        69 => (0xef, 8),
        70 => (0x69, 7),
        71 => (0x6a, 7),
        72 => (0x1f2, 9),
        73 => (0xf0, 8),
        74 => (0x1f3, 9),
        75 => (0x1f4, 9),
        76 => (0x1f5, 9),
        77 => (0x6b, 7),
        78 => (0x6c, 7),
        79 => (0xf1, 8),
        80 => (0xf2, 8),
        81 => (0x1f6, 9),
        82 => (0x1f7, 9),
        83 => (0x6d, 7),
        84 => (0x28, 6),
        85 => (0xf3, 8),
        86 => (0x1f8, 9),
        87 => (0x1f9, 9),
        88 => (0xf4, 8),
        89 => (0x1fa, 9),
        90 => (0x1fb, 9),
        91 => (0x7fc, 11),
        92 => (0x3ffffda, 26),
        93 => (0x7fd, 11),
        94 => (0x3ffd, 14),
        95 => (0x6e, 7),
        96 => (0x3fffe, 18),
        97 => (0x9, 5),
        98 => (0x6f, 7),
        99 => (0xa, 5),
        100 => (0x29, 6),
        101 => (0xb, 5),
        102 => (0x70, 7),
        103 => (0x2a, 6),
        104 => (0x2b, 6),
        105 => (0xc, 5),
        106 => (0xf5, 8),
        107 => (0xf6, 8),
        108 => (0x2c, 6),
        109 => (0x2d, 6),
        110 => (0x2e, 6),
        111 => (0xd, 5),
        112 => (0x2f, 6),
        113 => (0x1fc, 9),
        114 => (0x30, 6),
        115 => (0x31, 6),
        116 => (0xe, 5),
        117 => (0x71, 7),
        118 => (0x72, 7),
        119 => (0x73, 7),
        120 => (0x74, 7),
        121 => (0x75, 7),
        122 => (0xf7, 8),
        123 => (0x1fffd, 17),
        124 => (0xffc, 12),
        125 => (0x1fffe, 17),
        126 => (0xffd, 12),
        127 => (0x3ffffdb, 26),
        128 => (0x3ffffdc, 26),
        129 => (0x3ffffdd, 26),
        130 => (0x3ffffde, 26),
        131 => (0x3ffffdf, 26),
        132 => (0x3ffffe0, 26),
        133 => (0x3ffffe1, 26),
        134 => (0x3ffffe2, 26),
        135 => (0x3ffffe3, 26),
        136 => (0x3ffffe4, 26),
        137 => (0x3ffffe5, 26),
        138 => (0x3ffffe6, 26),
        139 => (0x3ffffe7, 26),
        140 => (0x3ffffe8, 26),
        141 => (0x3ffffe9, 26),
        142 => (0x3ffffea, 26),
        143 => (0x3ffffeb, 26),
        144 => (0x3ffffec, 26),
        145 => (0x3ffffed, 26),
        146 => (0x3ffffee, 26),
        147 => (0x3ffffef, 26),
        148 => (0x3fffff0, 26),
        149 => (0x3fffff1, 26),
        150 => (0x3fffff2, 26),
        151 => (0x3fffff3, 26),
        152 => (0x3fffff4, 26),
        153 => (0x3fffff5, 26),
        154 => (0x3fffff6, 26),
        155 => (0x3fffff7, 26),
        156 => (0x3fffff8, 26),
        157 => (0x3fffff9, 26),
        158 => (0x3fffffa, 26),
        159 => (0x3fffffb, 26),
        160 => (0x3fffffc, 26),
        161 => (0x3fffffd, 26),
        162 => (0x3fffffe, 26),
        163 => (0x3ffffff, 26),
        164 => (0x1ffff80, 25),
        165 => (0x1ffff81, 25),
        166 => (0x1ffff82, 25),
        167 => (0x1ffff83, 25),
        168 => (0x1ffff84, 25),
        169 => (0x1ffff85, 25),
        170 => (0x1ffff86, 25),
        171 => (0x1ffff87, 25),
        172 => (0x1ffff88, 25),
        173 => (0x1ffff89, 25),
        174 => (0x1ffff8a, 25),
        175 => (0x1ffff8b, 25),
        176 => (0x1ffff8c, 25),
        177 => (0x1ffff8d, 25),
        178 => (0x1ffff8e, 25),
        179 => (0x1ffff8f, 25),
        180 => (0x1ffff90, 25),
        181 => (0x1ffff91, 25),
        182 => (0x1ffff92, 25),
        183 => (0x1ffff93, 25),
        184 => (0x1ffff94, 25),
        185 => (0x1ffff95, 25),
        186 => (0x1ffff96, 25),
        187 => (0x1ffff97, 25),
        188 => (0x1ffff98, 25),
        189 => (0x1ffff99, 25),
        190 => (0x1ffff9a, 25),
        191 => (0x1ffff9b, 25),
        192 => (0x1ffff9c, 25),
        193 => (0x1ffff9d, 25),
        194 => (0x1ffff9e, 25),
        195 => (0x1ffff9f, 25),
        196 => (0x1ffffa0, 25),
        197 => (0x1ffffa1, 25),
        198 => (0x1ffffa2, 25),
        199 => (0x1ffffa3, 25),
        200 => (0x1ffffa4, 25),
        201 => (0x1ffffa5, 25),
        202 => (0x1ffffa6, 25),
        203 => (0x1ffffa7, 25),
        204 => (0x1ffffa8, 25),
        205 => (0x1ffffa9, 25),
        206 => (0x1ffffaa, 25),
        207 => (0x1ffffab, 25),
        208 => (0x1ffffac, 25),
        209 => (0x1ffffad, 25),
        210 => (0x1ffffae, 25),
        211 => (0x1ffffaf, 25),
        212 => (0x1ffffb0, 25),
        213 => (0x1ffffb1, 25),
        214 => (0x1ffffb2, 25),
        215 => (0x1ffffb3, 25),
        216 => (0x1ffffb4, 25),
        217 => (0x1ffffb5, 25),
        218 => (0x1ffffb6, 25),
        219 => (0x1ffffb7, 25),
        220 => (0x1ffffb8, 25),
        221 => (0x1ffffb9, 25),
        222 => (0x1ffffba, 25),
        223 => (0x1ffffbb, 25),
        224 => (0x1ffffbc, 25),
        225 => (0x1ffffbd, 25),
        226 => (0x1ffffbe, 25),
        227 => (0x1ffffbf, 25),
        228 => (0x1ffffc0, 25),
        229 => (0x1ffffc1, 25),
        230 => (0x1ffffc2, 25),
        231 => (0x1ffffc3, 25),
        232 => (0x1ffffc4, 25),
        233 => (0x1ffffc5, 25),
        234 => (0x1ffffc6, 25),
        235 => (0x1ffffc7, 25),
        236 => (0x1ffffc8, 25),
        237 => (0x1ffffc9, 25),
        238 => (0x1ffffca, 25),
        239 => (0x1ffffcb, 25),
        240 => (0x1ffffcc, 25),
        241 => (0x1ffffcd, 25),
        242 => (0x1ffffce, 25),
        243 => (0x1ffffcf, 25),
        244 => (0x1ffffd0, 25),
        245 => (0x1ffffd1, 25),
        246 => (0x1ffffd2, 25),
        247 => (0x1ffffd3, 25),
        248 => (0x1ffffd4, 25),
        249 => (0x1ffffd5, 25),
        250 => (0x1ffffd6, 25),
        251 => (0x1ffffd7, 25),
        252 => (0x1ffffd8, 25),
        253 => (0x1ffffd9, 25),
        254 => (0x1ffffda, 25),
        255 => (0x1ffffdb, 25),
        256 => (0x1ffffdc, 25),
        _ => (0, 0),
    }
}

/// The smallest code of length `l` (for a length that no symbol has,
/// where its codes would start).
pub open spec fn first_code(l: nat) -> nat {
    if l == 4 {
        0
    } else if l == 5 {
        6
    } else if l == 6 {
        30
    } else if l == 7 {
        100
    } else if l == 8 {
        236
    } else if l == 9 {
        496
    } else if l == 10 {
        1018
    } else if l == 11 {
        2044
    } else if l == 12 {
        4092
    } else if l == 13 {
        8188
    } else if l == 14 {
        16380
    } else if l == 15 {
        32764
    } else if l == 16 {
        65534
    } else if l == 17 {
        131068
    } else if l == 18 {
        262142
    } else if l == 19 {
        524286
    } else if l == 20 {
        1048572
    } else if l == 21 {
        2097144
    } else if l == 22 {
        4194288
    } else if l == 23 {
        8388576
    } else if l == 24 {
        16777152
    } else if l == 25 {
        33554304
    } else if l == 26 {
        67108794
    } else {
        0
    }
}

/// How many symbols have codes of length `l`.
pub open spec fn code_count(l: nat) -> nat {
    if l == 4 {
        3
    } else if l == 5 {
        9
    } else if l == 6 {
        20
    } else if l == 7 {
        18
    } else if l == 8 {
        12
    } else if l == 9 {
        13
    } else if l == 10 {
        4
    } else if l == 11 {
        2
    } else if l == 12 {
        2
    } else if l == 13 {
        2
    } else if l == 14 {
        2
    } else if l == 15 {
        3
    } else if l == 17 {
        3
    } else if l == 18 {
        1
    } else if l == 25 {
        93
    } else if l == 26 {
        70
    } else {
        0
    }
}

/// The symbols whose codes have length `l`, in code order.
pub open spec fn symbols_of_len(l: nat) -> Seq<u16> {
    if l == 4 {
        seq![48u16, 49, 50]
    } else if l == 5 {
        seq![32u16, 47, 51, 97, 99, 101, 105, 111, 116]
    } else if l == 6 {
        seq![37u16, 46, 52, 53, 54, 55, 56, 57, 58, 61, 84, 100, 103, 104, 108, 109, 110, 112, 114, 115]
    } else if l == 7 {
        seq![38u16, 44, 45, 65, 68, 70, 71, 77, 78, 83, 95, 98, 102, 117, 118, 119, 120, 121]
    } else if l == 8 {
        seq![59u16, 66, 67, 69, 73, 79, 80, 85, 88, 106, 107, 122]
    } else if l == 9 {
        seq![34u16, 41, 72, 74, 75, 76, 81, 82, 86, 87, 89, 90, 113]
    } else if l == 10 {
        seq![40u16, 42, 43, 63]
    } else if l == 11 {
        seq![91u16, 93]
    } else if l == 12 {
        seq![124u16, 126]
    } else if l == 13 {
        seq![33u16, 39]
    } else if l == 14 {
        seq![35u16, 94]
    } else if l == 15 {
        seq![36u16, 62, 64]
    } else if l == 17 {
        seq![60u16, 123, 125]
    } else if l == 18 {
        seq![96u16]
    } else if l == 25 {
        seq![164u16, 165, 166, 167, 168, 169, 170, 171, 172, 173, 174, 175, 176, 177, 178, 179, 180, 181, 182, 183, 184, 185, 186, 187, 188, 189, 190, 191, 192, 193, 194, 195, 196, 197, 198, 199, 200, 201, 202, 203, 204, 205, 206, 207, 208, 209, 210, 211, 212, 213, 214, 215, 216, 217, 218, 219, 220, 221, 222, 223, 224, 225, 226, 227, 228, 229, 230, 231, 232, 233, 234, 235, 236, 237, 238, 239, 240, 241, 242, 243, 244, 245, 246, 247, 248, 249, 250, 251, 252, 253, 254, 255, 256]
    } else if l == 26 {
        seq![0u16, 1, 2, 3, 4, 5, 6, 7, 8, 9, 10, 11, 12, 13, 14, 15, 16, 17, 18, 19, 20, 21, 22, 23, 24, 25, 26, 27, 28, 29, 30, 31, 92, 127, 128, 129, 130, 131, 132, 133, 134, 135, 136, 137, 138, 139, 140, 141, 142, 143, 144, 145, 146, 147, 148, 149, 150, 151, 152, 153, 154, 155, 156, 157, 158, 159, 160, 161, 162, 163]
    } else {
        Seq::empty()
    }
}

/// Each length's codes start where those of the length before end, one
/// bit longer.
pub proof fn lemma_first_code_step(l: nat)
    requires
        4 <= l < 26,
    ensures
        first_code(l + 1) == 2 * (first_code(l) + code_count(l)),
{
}

/// Codes of length `l` are below `2^l`.
pub proof fn lemma_codes_fit(l: nat)
    requires
        4 <= l <= 26,
    ensures
        first_code(l) + code_count(l) <= crate::integer::pow2(l),
{
    reveal_with_fuel(crate::integer::pow2, 27);
}

/// No code of seven bits or fewer is all ones.
pub proof fn lemma_short_codes_not_all_ones(l: nat)
    requires
        4 <= l <= 7,
    ensures
        first_code(l) + code_count(l) < crate::integer::pow2(l) - 1,
{
    reveal_with_fuel(crate::integer::pow2, 8);
}

/// The code of every symbol lies in the consecutive range of its length,
/// at the place of the symbol in `symbols_of_len`.
pub proof fn lemma_code_in_range(x: u16)
    requires
        x <= EOS,
    ensures
        ({
            let (c, l) = huffman_code(x);
            &&& 4 <= l <= 26
            &&& first_code(l) <= c < first_code(l) + code_count(l)
            &&& symbols_of_len(l).len() == code_count(l)
            &&& symbols_of_len(l)[c - first_code(l)] == x
        }),
{
}

/// The code of `sym` and its length in bits; `sym` is at most 256.
pub fn code_of(sym: u16) -> (r: (u32, u8))
    requires
        sym <= EOS,
    ensures
        r.0 as nat == huffman_code(sym).0,
        r.1 as nat == huffman_code(sym).1,
        1 <= r.1 <= MAX_CODE_LEN,
{
    match sym {
        0 => (0x3ffffba, 26),
        1 => (0x3ffffbb, 26),
        2 => (0x3ffffbc, 26),
        3 => (0x3ffffbd, 26),
        4 => (0x3ffffbe, 26),
        5 => (0x3ffffbf, 26),
        6 => (0x3ffffc0, 26),
        7 => (0x3ffffc1, 26),
        8 => (0x3ffffc2, 26),
        9 => (0x3ffffc3, 26),
        10 => (0x3ffffc4, 26),
        11 => (0x3ffffc5, 26),
        12 => (0x3ffffc6, 26),
        13 => (0x3ffffc7, 26),
        14 => (0x3ffffc8, 26),
        15 => (0x3ffffc9, 26),
        16 => (0x3ffffca, 26),
        17 => (0x3ffffcb, 26),
        18 => (0x3ffffcc, 26),
        19 => (0x3ffffcd, 26),
        20 => (0x3ffffce, 26),
        21 => (0x3ffffcf, 26),
        22 => (0x3ffffd0, 26),
        23 => (0x3ffffd1, 26),
        24 => (0x3ffffd2, 26),
        25 => (0x3ffffd3, 26),
        26 => (0x3ffffd4, 26),
        27 => (0x3ffffd5, 26),
        28 => (0x3ffffd6, 26),
        29 => (0x3ffffd7, 26),
        30 => (0x3ffffd8, 26),
        31 => (0x3ffffd9, 26),
        32 => (0x6, 5),
        33 => (0x1ffc, 13),
        34 => (0x1f0, 9),
        35 => (0x3ffc, 14),
        36 => (0x7ffc, 15),
        37 => (0x1e, 6),
        38 => (0x64, 7),
        39 => (0x1ffd, 13),
        40 => (0x3fa, 10),
        41 => (0x1f1, 9),
        42 => (0x3fb, 10),
        43 => (0x3fc, 10),
        44 => (0x65, 7),
        45 => (0x66, 7),
        46 => (0x1f, 6),
        47 => (0x7, 5),
        48 => (0x0, 4),
        49 => (0x1, 4),
        50 => (0x2, 4),
        51 => (0x8, 5),
        52 => (0x20, 6),
        53 => (0x21, 6),
        54 => (0x22, 6),
        55 => (0x23, 6),
        56 => (0x24, 6),
        57 => (0x25, 6),
        58 => (0x26, 6),
        59 => (0xec, 8),
        60 => (0x1fffc, 17),
        61 => (0x27, 6),
        62 => (0x7ffd, 15),
        63 => (0x3fd, 10),
        64 => (0x7ffe, 15),
        65 => (0x67, 7),
        66 => (0xed, 8),
        67 => (0xee, 8),
        68 => (0x68, 7),
        69 => (0xef, 8),
        70 => (0x69, 7),
        71 => (0x6a, 7),
        72 => (0x1f2, 9),
        73 => (0xf0, 8),
        74 => (0x1f3, 9),
        75 => (0x1f4, 9),
        76 => (0x1f5, 9),
        77 => (0x6b, 7),
        78 => (0x6c, 7),
        79 => (0xf1, 8),
        80 => (0xf2, 8),
        81 => (0x1f6, 9),
        82 => (0x1f7, 9),
        83 => (0x6d, 7),
        84 => (0x28, 6),
        85 => (0xf3, 8),
        86 => (0x1f8, 9),
        87 => (0x1f9, 9),
        88 => (0xf4, 8),
        89 => (0x1fa, 9),
        90 => (0x1fb, 9),
        91 => (0x7fc, 11),
        92 => (0x3ffffda, 26),
        93 => (0x7fd, 11),
        94 => (0x3ffd, 14),
        95 => (0x6e, 7),
        96 => (0x3fffe, 18),
        97 => (0x9, 5),
        98 => (0x6f, 7),
        99 => (0xa, 5),
        100 => (0x29, 6),
        101 => (0xb, 5),
        102 => (0x70, 7),
        103 => (0x2a, 6),
        104 => (0x2b, 6),
        105 => (0xc, 5),
        106 => (0xf5, 8),
        107 => (0xf6, 8),
        108 => (0x2c, 6),
        109 => (0x2d, 6),
        110 => (0x2e, 6),
        111 => (0xd, 5),
        112 => (0x2f, 6),
        113 => (0x1fc, 9),
        114 => (0x30, 6),
        115 => (0x31, 6),
        116 => (0xe, 5),
        117 => (0x71, 7),
        118 => (0x72, 7),
        119 => (0x73, 7),
        120 => (0x74, 7),
        121 => (0x75, 7),
        122 => (0xf7, 8),
        123 => (0x1fffd, 17),
        124 => (0xffc, 12),
        125 => (0x1fffe, 17),
        126 => (0xffd, 12),
        127 => (0x3ffffdb, 26),
        128 => (0x3ffffdc, 26),
        129 => (0x3ffffdd, 26),
        130 => (0x3ffffde, 26),
        131 => (0x3ffffdf, 26),
        132 => (0x3ffffe0, 26),
        133 => (0x3ffffe1, 26),
        134 => (0x3ffffe2, 26),
        135 => (0x3ffffe3, 26),
        136 => (0x3ffffe4, 26),
        137 => (0x3ffffe5, 26),
        138 => (0x3ffffe6, 26),
        139 => (0x3ffffe7, 26),
        140 => (0x3ffffe8, 26),
        141 => (0x3ffffe9, 26),
        142 => (0x3ffffea, 26),
        143 => (0x3ffffeb, 26),
        144 => (0x3ffffec, 26),
        145 => (0x3ffffed, 26),
        146 => (0x3ffffee, 26),
        147 => (0x3ffffef, 26),
        148 => (0x3fffff0, 26),
        149 => (0x3fffff1, 26),
        150 => (0x3fffff2, 26),
        151 => (0x3fffff3, 26),
        152 => (0x3fffff4, 26),
        153 => (0x3fffff5, 26),
        154 => (0x3fffff6, 26),
        155 => (0x3fffff7, 26),
        156 => (0x3fffff8, 26),
        157 => (0x3fffff9, 26),
        158 => (0x3fffffa, 26),
        159 => (0x3fffffb, 26),
        160 => (0x3fffffc, 26),
        161 => (0x3fffffd, 26),
        162 => (0x3fffffe, 26),
        163 => (0x3ffffff, 26),
        164 => (0x1ffff80, 25),
        165 => (0x1ffff81, 25),
        166 => (0x1ffff82, 25),
        167 => (0x1ffff83, 25),
        168 => (0x1ffff84, 25),
        169 => (0x1ffff85, 25),
        170 => (0x1ffff86, 25),
        171 => (0x1ffff87, 25),
        172 => (0x1ffff88, 25),
        173 => (0x1ffff89, 25),
        174 => (0x1ffff8a, 25),
        175 => (0x1ffff8b, 25),
        176 => (0x1ffff8c, 25),
        177 => (0x1ffff8d, 25),
        178 => (0x1ffff8e, 25),
        179 => (0x1ffff8f, 25),
        180 => (0x1ffff90, 25),
        181 => (0x1ffff91, 25),
        182 => (0x1ffff92, 25),
        183 => (0x1ffff93, 25),
        184 => (0x1ffff94, 25),
        185 => (0x1ffff95, 25),
        186 => (0x1ffff96, 25),
        187 => (0x1ffff97, 25),
        188 => (0x1ffff98, 25),
        189 => (0x1ffff99, 25),
        190 => (0x1ffff9a, 25),
        191 => (0x1ffff9b, 25),
        192 => (0x1ffff9c, 25),
        193 => (0x1ffff9d, 25),
        194 => (0x1ffff9e, 25),
        195 => (0x1ffff9f, 25),
        196 => (0x1ffffa0, 25),
        197 => (0x1ffffa1, 25),
        198 => (0x1ffffa2, 25),
        199 => (0x1ffffa3, 25),
        200 => (0x1ffffa4, 25),
        201 => (0x1ffffa5, 25),
        202 => (0x1ffffa6, 25),
        203 => (0x1ffffa7, 25),
        204 => (0x1ffffa8, 25),
        205 => (0x1ffffa9, 25),
        206 => (0x1ffffaa, 25),
        207 => (0x1ffffab, 25),
        208 => (0x1ffffac, 25),
        209 => (0x1ffffad, 25),
        210 => (0x1ffffae, 25),
        211 => (0x1ffffaf, 25),
        212 => (0x1ffffb0, 25),
        213 => (0x1ffffb1, 25),
        214 => (0x1ffffb2, 25),
        215 => (0x1ffffb3, 25),
        216 => (0x1ffffb4, 25),
        217 => (0x1ffffb5, 25),
        218 => (0x1ffffb6, 25),
        219 => (0x1ffffb7, 25),
        220 => (0x1ffffb8, 25),
        221 => (0x1ffffb9, 25),
        222 => (0x1ffffba, 25),
        223 => (0x1ffffbb, 25),
        224 => (0x1ffffbc, 25),
        225 => (0x1ffffbd, 25),
        226 => (0x1ffffbe, 25),
        227 => (0x1ffffbf, 25),
        228 => (0x1ffffc0, 25),
        229 => (0x1ffffc1, 25),
        230 => (0x1ffffc2, 25),
        231 => (0x1ffffc3, 25),
        232 => (0x1ffffc4, 25),
        233 => (0x1ffffc5, 25),
        234 => (0x1ffffc6, 25),
        235 => (0x1ffffc7, 25),
        236 => (0x1ffffc8, 25),
        237 => (0x1ffffc9, 25),
        238 => (0x1ffffca, 25),
        239 => (0x1ffffcb, 25),
        240 => (0x1ffffcc, 25),
        241 => (0x1ffffcd, 25),
        242 => (0x1ffffce, 25),
        243 => (0x1ffffcf, 25),
        244 => (0x1ffffd0, 25),
        245 => (0x1ffffd1, 25),
        246 => (0x1ffffd2, 25),
        247 => (0x1ffffd3, 25),
        248 => (0x1ffffd4, 25),
        249 => (0x1ffffd5, 25),
        250 => (0x1ffffd6, 25),
        251 => (0x1ffffd7, 25),
        252 => (0x1ffffd8, 25),
        253 => (0x1ffffd9, 25),
        254 => (0x1ffffda, 25),
        255 => (0x1ffffdb, 25),
        256 => (0x1ffffdc, 25),
        _ => (0x1ffffdc, 25),
    }
}

} // verus!
