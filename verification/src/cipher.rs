//! The substitution that rewrites an instruction cell once it has run.

use vstd::prelude::*;

verus! {

/// The substitution table: the value that replaces a cell whose value has
/// the residue `n` modulo 94.
pub open spec fn encrypt_spec(n: int) -> int {
    if n == 0 {
        57
    } else if n == 1 {
        109
    } else if n == 2 {
        60
    } else if n == 3 {
        46
    } else if n == 4 {
        84
    } else if n == 5 {
        86
    } else if n == 6 {
        97
    } else if n == 7 {
        99
    } else if n == 8 {
        96
    } else if n == 9 {
        117
    } else if n == 10 {
        89
    } else if n == 11 {
        42
    } else if n == 12 {
        77
    } else if n == 13 {
        75
    } else if n == 14 {
        39
    } else if n == 15 {
        88
    } else if n == 16 {
        126
    } else if n == 17 {
        120
    } else if n == 18 {
        68
    } else if n == 19 {
        108
    } else if n == 20 {
        125
    } else if n == 21 {
        82
    } else if n == 22 {
        69
    } else if n == 23 {
        111
    } else if n == 24 {
        107
    } else if n == 25 {
        78
    } else if n == 26 {
        58
    } else if n == 27 {
        35
    } else if n == 28 {
        63
    } else if n == 29 {
        71
    } else if n == 30 {
        34
    } else if n == 31 {
        105
    } else if n == 32 {
        64
    } else if n == 33 {
        53
    } else if n == 34 {
        122
    } else if n == 35 {
        93
    } else if n == 36 {
        38
    } else if n == 37 {
        103
    } else if n == 38 {
        113
    } else if n == 39 {
        116
    } else if n == 40 {
        121
    } else if n == 41 {
        102
    } else if n == 42 {
        114
    } else if n == 43 {
        36
    } else if n == 44 {
        40
    } else if n == 45 {
        119
    } else if n == 46 {
        101
    } else if n == 47 {
        52
    } else if n == 48 {
        123
    } else if n == 49 {
        87
    } else if n == 50 {
        80
    } else if n == 51 {
        41
    } else if n == 52 {
        72
    } else if n == 53 {
        45
    } else if n == 54 {
        90
    } else if n == 55 {
        110
    } else if n == 56 {
        44
    } else if n == 57 {
        91
    } else if n == 58 {
        37
    } else if n == 59 {
        92
    } else if n == 60 {
        51
    } else if n == 61 {
        100
    } else if n == 62 {
        76
    } else if n == 63 {
        43
    } else if n == 64 {
        81
    } else if n == 65 {
        59
    } else if n == 66 {
        62
    } else if n == 67 {
        85
    } else if n == 68 {
        33
    } else if n == 69 {
        112
    } else if n == 70 {
        74
    } else if n == 71 {
        83
    } else if n == 72 {
        55
    } else if n == 73 {
        50
    } else if n == 74 {
        70
    } else if n == 75 {
        104
    } else if n == 76 {
        79
    } else if n == 77 {
        65
    } else if n == 78 {
        49
    } else if n == 79 {
        67
    } else if n == 80 {
        66
    } else if n == 81 {
        54
    } else if n == 82 {
        118
    } else if n == 83 {
        94
    } else if n == 84 {
        61
    } else if n == 85 {
        73
    } else if n == 86 {
        95
    } else if n == 87 {
        48
    } else if n == 88 {
        47
    } else if n == 89 {
        56
    } else if n == 90 {
        124
    } else if n == 91 {
        106
    } else if n == 92 {
        115
    } else {
        98
    }
}

/// The opcode that a cell holding `cell` selects when it stands at address
/// `addr`: the word sum of the two, taken modulo 94.
pub open spec fn decode_spec(cell: int, addr: int) -> int {
    ((cell + addr) % 59049) % 94
}

/// Looks up the substitute for the residue `n`.
pub fn encrypt(n: usize) -> (r: usize)
    requires
        n < 94,
    ensures
        r == encrypt_spec(n as int),
        33 <= r <= 126,
{
    match n {
        0 => 57,
        1 => 109,
        2 => 60,
        3 => 46,
        4 => 84,
        5 => 86,
        6 => 97,
        7 => 99,
        8 => 96,
        9 => 117,
        10 => 89,
        11 => 42,
        12 => 77,
        13 => 75,
        14 => 39,
        15 => 88,
        16 => 126,
        17 => 120,
        18 => 68,
        19 => 108,
        20 => 125,
        21 => 82,
        22 => 69,
        23 => 111,
        24 => 107,
        25 => 78,
        26 => 58,
        27 => 35,
        28 => 63,
        29 => 71,
        30 => 34,
        31 => 105,
        32 => 64,
        33 => 53,
        34 => 122,
        35 => 93,
        36 => 38,
        37 => 103,
        38 => 113,
        39 => 116,
        40 => 121,
        41 => 102,
        42 => 114,
        43 => 36,
        44 => 40,
        45 => 119,
        46 => 101,
        47 => 52,
        48 => 123,
        49 => 87,
        50 => 80,
        51 => 41,
        52 => 72,
        53 => 45,
        54 => 90,
        55 => 110,
        56 => 44,
        57 => 91,
        58 => 37,
        59 => 92,
        60 => 51,
        61 => 100,
        62 => 76,
        63 => 43,
        64 => 81,
        65 => 59,
        66 => 62,
        67 => 85,
        68 => 33,
        69 => 112,
        70 => 74,
        71 => 83,
        72 => 55,
        73 => 50,
        74 => 70,
        75 => 104,
        76 => 79,
        77 => 65,
        78 => 49,
        79 => 67,
        80 => 66,
        81 => 54,
        82 => 118,
        83 => 94,
        84 => 61,
        85 => 73,
        86 => 95,
        87 => 48,
        88 => 47,
        89 => 56,
        90 => 124,
        91 => 106,
        92 => 115,
        _ => 98,
    }
}

/// Every substitute is a printable 7-bit character code.
pub proof fn lemma_encrypt_range(n: int)
    requires
        0 <= n < 94,
    ensures
        33 <= encrypt_spec(n) <= 126,
{
}

/// No two residues share a substitute.
pub proof fn lemma_encrypt_injective(m: int, n: int)
    requires
        0 <= m < 94,
        0 <= n < 94,
        encrypt_spec(m) == encrypt_spec(n),
    ensures
        m == n,
{
}

/// The substitute of a residue never has that residue itself.
pub proof fn lemma_encrypt_moves(n: int)
    requires
        0 <= n < 94,
    ensures
        encrypt_spec(n) % 94 != n,
{
}

/// Two cells that select the same opcode at one address have the same
/// residue modulo 94, as long as the word sum wraps either for both or for
/// neither.
proof fn lemma_same_opcode_same_residue(x: int, y: int, addr: int)
    requires
        0 <= x < 59049,
        0 <= y < 59049,
        0 <= addr < 59049,
        (x + addr < 59049) == (y + addr < 59049),
        decode_spec(x, addr) == decode_spec(y, addr),
    ensures
        x % 94 == y % 94,
{
    let k: int = if x + addr < 59049 {
        addr
    } else {
        addr - 59049
    };
    assert((x + addr) % 59049 == x + k);
    assert((y + addr) % 59049 == y + k);
    assert((x + k) % 94 == (y + k) % 94);
    assert((x - y) % 94 == 0);
}

/// A rewritten cell selects another opcode than before when it is decoded at
/// the same address again, as long as the word sum wraps either both times
/// or neither time.
pub proof fn lemma_rewrite_changes_opcode(cell: int, addr: int)
    requires
        0 <= cell < 59049,
        0 <= addr < 59049,
        (cell + addr < 59049) == (encrypt_spec(cell % 94) + addr < 59049),
    ensures
        decode_spec(encrypt_spec(cell % 94), addr) != decode_spec(cell, addr),
{
    let n = cell % 94;
    let e = encrypt_spec(n);
    lemma_encrypt_moves(n);
    lemma_encrypt_range(n);
    if decode_spec(e, addr) == decode_spec(cell, addr) {
        lemma_same_opcode_same_residue(e, cell, addr);
    }
}

} // verus!
