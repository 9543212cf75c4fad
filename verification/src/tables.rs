use vstd::prelude::*;

use crate::Alphabet;

verus! {

/// The sentinel stored in an inverse-table entry whose byte is not a symbol
/// of the alphabet. It lies outside the 5-bit range `0..32`.
pub const INVALID_BYTE: u8 = 255;

/// The 32-entry symbol table of an alphabet: entry `q` is the ASCII byte
/// that represents the 5-bit value `q`.
pub open spec fn symbol_seq(a: Alphabet) -> Seq<u8> {
    match a {
        Alphabet::Standard => seq![65u8, 66u8, 67u8, 68u8, 69u8, 70u8, 71u8, 72u8, 73u8, 74u8, 75u8, 76u8, 77u8, 78u8, 79u8, 80u8, 81u8, 82u8, 83u8, 84u8, 85u8, 86u8, 87u8, 88u8, 89u8, 90u8, 50u8, 51u8, 52u8, 53u8, 54u8, 55u8],
        Alphabet::ExtendedHex => seq![48u8, 49u8, 50u8, 51u8, 52u8, 53u8, 54u8, 55u8, 56u8, 57u8, 65u8, 66u8, 67u8, 68u8, 69u8, 70u8, 71u8, 72u8, 73u8, 74u8, 75u8, 76u8, 77u8, 78u8, 79u8, 80u8, 81u8, 82u8, 83u8, 84u8, 85u8, 86u8],
        Alphabet::Crockford => seq![48u8, 49u8, 50u8, 51u8, 52u8, 53u8, 54u8, 55u8, 56u8, 57u8, 65u8, 66u8, 67u8, 68u8, 69u8, 70u8, 71u8, 72u8, 74u8, 75u8, 77u8, 78u8, 80u8, 81u8, 82u8, 83u8, 84u8, 86u8, 87u8, 88u8, 89u8, 90u8],
        Alphabet::ZBase32 => seq![121u8, 98u8, 110u8, 100u8, 114u8, 102u8, 103u8, 56u8, 101u8, 106u8, 107u8, 109u8, 99u8, 112u8, 113u8, 120u8, 111u8, 116u8, 49u8, 117u8, 119u8, 105u8, 115u8, 122u8, 97u8, 51u8, 52u8, 53u8, 104u8, 55u8, 54u8, 57u8],
    }
}

/// The byte representing the 5-bit value `q`, for `q < 32`.
pub open spec fn spec_symbol(a: Alphabet, q: u8) -> u8 {
    if q < 32 { symbol_seq(a)[q as int] } else { 0 }
}

/// The inverse of the symbol table: the 5-bit value that the byte `b`
/// represents in alphabet `a`, or `INVALID_BYTE` when `b` is not a symbol.
pub open spec fn spec_quintet(a: Alphabet, b: u8) -> u8 {
    match a {
        Alphabet::Standard => if b == 65 { 0 } else if b == 66 { 1 } else if b == 67 { 2 } else if b == 68 { 3 } else if b == 69 { 4 } else if b == 70 { 5 } else if b == 71 { 6 } else if b == 72 { 7 } else if b == 73 { 8 } else if b == 74 { 9 } else if b == 75 { 10 } else if b == 76 { 11 } else if b == 77 { 12 } else if b == 78 { 13 } else if b == 79 { 14 } else if b == 80 { 15 } else if b == 81 { 16 } else if b == 82 { 17 } else if b == 83 { 18 } else if b == 84 { 19 } else if b == 85 { 20 } else if b == 86 { 21 } else if b == 87 { 22 } else if b == 88 { 23 } else if b == 89 { 24 } else if b == 90 { 25 } else if b == 50 { 26 } else if b == 51 { 27 } else if b == 52 { 28 } else if b == 53 { 29 } else if b == 54 { 30 } else if b == 55 { 31 } else { INVALID_BYTE },
        Alphabet::ExtendedHex => if b == 48 { 0 } else if b == 49 { 1 } else if b == 50 { 2 } else if b == 51 { 3 } else if b == 52 { 4 } else if b == 53 { 5 } else if b == 54 { 6 } else if b == 55 { 7 } else if b == 56 { 8 } else if b == 57 { 9 } else if b == 65 { 10 } else if b == 66 { 11 } else if b == 67 { 12 } else if b == 68 { 13 } else if b == 69 { 14 } else if b == 70 { 15 } else if b == 71 { 16 } else if b == 72 { 17 } else if b == 73 { 18 } else if b == 74 { 19 } else if b == 75 { 20 } else if b == 76 { 21 } else if b == 77 { 22 } else if b == 78 { 23 } else if b == 79 { 24 } else if b == 80 { 25 } else if b == 81 { 26 } else if b == 82 { 27 } else if b == 83 { 28 } else if b == 84 { 29 } else if b == 85 { 30 } else if b == 86 { 31 } else { INVALID_BYTE },
        Alphabet::Crockford => if b == 48 { 0 } else if b == 49 { 1 } else if b == 50 { 2 } else if b == 51 { 3 } else if b == 52 { 4 } else if b == 53 { 5 } else if b == 54 { 6 } else if b == 55 { 7 } else if b == 56 { 8 } else if b == 57 { 9 } else if b == 65 { 10 } else if b == 66 { 11 } else if b == 67 { 12 } else if b == 68 { 13 } else if b == 69 { 14 } else if b == 70 { 15 } else if b == 71 { 16 } else if b == 72 { 17 } else if b == 74 { 18 } else if b == 75 { 19 } else if b == 77 { 20 } else if b == 78 { 21 } else if b == 80 { 22 } else if b == 81 { 23 } else if b == 82 { 24 } else if b == 83 { 25 } else if b == 84 { 26 } else if b == 86 { 27 } else if b == 87 { 28 } else if b == 88 { 29 } else if b == 89 { 30 } else if b == 90 { 31 } else { INVALID_BYTE },
        Alphabet::ZBase32 => if b == 121 { 0 } else if b == 98 { 1 } else if b == 110 { 2 } else if b == 100 { 3 } else if b == 114 { 4 } else if b == 102 { 5 } else if b == 103 { 6 } else if b == 56 { 7 } else if b == 101 { 8 } else if b == 106 { 9 } else if b == 107 { 10 } else if b == 109 { 11 } else if b == 99 { 12 } else if b == 112 { 13 } else if b == 113 { 14 } else if b == 120 { 15 } else if b == 111 { 16 } else if b == 116 { 17 } else if b == 49 { 18 } else if b == 117 { 19 } else if b == 119 { 20 } else if b == 105 { 21 } else if b == 115 { 22 } else if b == 122 { 23 } else if b == 97 { 24 } else if b == 51 { 25 } else if b == 52 { 26 } else if b == 53 { 27 } else if b == 104 { 28 } else if b == 55 { 29 } else if b == 54 { 30 } else if b == 57 { 31 } else { INVALID_BYTE },
    }
}

/// Whether the byte `b` is a symbol of alphabet `a`.
pub open spec fn valid_symbol(a: Alphabet, b: u8) -> bool {
    spec_quintet(a, b) != INVALID_BYTE
}

impl Alphabet {
    /// The symbol table as a vector: entry `q` holds the byte for the 5-bit
    /// value `q`.
    pub fn encode_table(self) -> (t: Vec<u8>)
        ensures
            t@ == symbol_seq(self),
    {
        let mut t: Vec<u8> = Vec::new();
        match self {
            Alphabet::Standard => {
                t.push(65);
                t.push(66);
                t.push(67);
                t.push(68);
                t.push(69);
                t.push(70);
                t.push(71);
                t.push(72);
                t.push(73);
                t.push(74);
                t.push(75);
                t.push(76);
                t.push(77);
                t.push(78);
                t.push(79);
                t.push(80);
                t.push(81);
                t.push(82);
                t.push(83);
                t.push(84);
                t.push(85);
                t.push(86);
                t.push(87);
                t.push(88);
                t.push(89);
                t.push(90);
                t.push(50);
                t.push(51);
                t.push(52);
                t.push(53);
                t.push(54);
                t.push(55);
            }
            Alphabet::ExtendedHex => {
                t.push(48);
                t.push(49);
                t.push(50);
                t.push(51);
                t.push(52);
                t.push(53);
                t.push(54);
                t.push(55);
                t.push(56);
                t.push(57);
                t.push(65);
                t.push(66);
                t.push(67);
                t.push(68);
                t.push(69);
                t.push(70);
                t.push(71);
                t.push(72);
                t.push(73);
                t.push(74);
                t.push(75);
                t.push(76);
                t.push(77);
                t.push(78);
                t.push(79);
                t.push(80);
                t.push(81);
                t.push(82);
                t.push(83);
                t.push(84);
                t.push(85);
                t.push(86);
            }
            Alphabet::Crockford => {
                t.push(48);
                t.push(49);
                t.push(50);
                t.push(51);
                t.push(52);
                t.push(53);
                t.push(54);
                t.push(55);
                t.push(56);
                t.push(57);
                t.push(65);
                t.push(66);
                t.push(67);
                t.push(68);
                t.push(69);
                t.push(70);
                t.push(71);
                t.push(72);
                t.push(74);
                t.push(75);
                t.push(77);
                t.push(78);
                t.push(80);
                t.push(81);
                t.push(82);
                t.push(83);
                t.push(84);
                t.push(86);
                t.push(87);
                t.push(88);
                t.push(89);
                t.push(90);
            }
            Alphabet::ZBase32 => {
                t.push(121);
                t.push(98);
                t.push(110);
                t.push(100);
                t.push(114);
                t.push(102);
                t.push(103);
                t.push(56);
                t.push(101);
                t.push(106);
                t.push(107);
                t.push(109);
                t.push(99);
                t.push(112);
                t.push(113);
                t.push(120);
                t.push(111);
                t.push(116);
                t.push(49);
                t.push(117);
                t.push(119);
                t.push(105);
                t.push(115);
                t.push(122);
                t.push(97);
                t.push(51);
                t.push(52);
                t.push(53);
                t.push(104);
                t.push(55);
                t.push(54);
                t.push(57);
            }
        }
        proof {
            assert(t@ =~= symbol_seq(self));
        }
        t
    }

    /// The 256-entry inverse table: entry `b` holds the 5-bit value of the
    /// byte `b`, or `INVALID_BYTE` when `b` is not a symbol of the alphabet.
    pub fn decode_table(self) -> (t: Vec<u8>)
        ensures
            t@.len() == 256,
            forall|b: int| 0 <= b < 256 ==> t@[b] == spec_quintet(self, b as u8),
    {
        let mut t: Vec<u8> = Vec::new();
        let mut b: usize = 0;
        while b < 256
            invariant
                b <= 256,
                t@.len() == b,
                forall|j: int| 0 <= j < b ==> t@[j] == spec_quintet(self, j as u8),
            decreases 256 - b,
        {
            t.push(quintet_value(self, b as u8));
            b = b + 1;
        }
        t
    }
}

/// The 5-bit value of the byte `b` in alphabet `a`, or `INVALID_BYTE`.
fn quintet_value(a: Alphabet, b: u8) -> (q: u8)
    ensures
        q == spec_quintet(a, b),
{
    match a {
        Alphabet::Standard => if b == 65 { 0 } else if b == 66 { 1 } else if b == 67 { 2 } else if b == 68 { 3 } else if b == 69 { 4 } else if b == 70 { 5 } else if b == 71 { 6 } else if b == 72 { 7 } else if b == 73 { 8 } else if b == 74 { 9 } else if b == 75 { 10 } else if b == 76 { 11 } else if b == 77 { 12 } else if b == 78 { 13 } else if b == 79 { 14 } else if b == 80 { 15 } else if b == 81 { 16 } else if b == 82 { 17 } else if b == 83 { 18 } else if b == 84 { 19 } else if b == 85 { 20 } else if b == 86 { 21 } else if b == 87 { 22 } else if b == 88 { 23 } else if b == 89 { 24 } else if b == 90 { 25 } else if b == 50 { 26 } else if b == 51 { 27 } else if b == 52 { 28 } else if b == 53 { 29 } else if b == 54 { 30 } else if b == 55 { 31 } else { INVALID_BYTE },
        Alphabet::ExtendedHex => if b == 48 { 0 } else if b == 49 { 1 } else if b == 50 { 2 } else if b == 51 { 3 } else if b == 52 { 4 } else if b == 53 { 5 } else if b == 54 { 6 } else if b == 55 { 7 } else if b == 56 { 8 } else if b == 57 { 9 } else if b == 65 { 10 } else if b == 66 { 11 } else if b == 67 { 12 } else if b == 68 { 13 } else if b == 69 { 14 } else if b == 70 { 15 } else if b == 71 { 16 } else if b == 72 { 17 } else if b == 73 { 18 } else if b == 74 { 19 } else if b == 75 { 20 } else if b == 76 { 21 } else if b == 77 { 22 } else if b == 78 { 23 } else if b == 79 { 24 } else if b == 80 { 25 } else if b == 81 { 26 } else if b == 82 { 27 } else if b == 83 { 28 } else if b == 84 { 29 } else if b == 85 { 30 } else if b == 86 { 31 } else { INVALID_BYTE },
        Alphabet::Crockford => if b == 48 { 0 } else if b == 49 { 1 } else if b == 50 { 2 } else if b == 51 { 3 } else if b == 52 { 4 } else if b == 53 { 5 } else if b == 54 { 6 } else if b == 55 { 7 } else if b == 56 { 8 } else if b == 57 { 9 } else if b == 65 { 10 } else if b == 66 { 11 } else if b == 67 { 12 } else if b == 68 { 13 } else if b == 69 { 14 } else if b == 70 { 15 } else if b == 71 { 16 } else if b == 72 { 17 } else if b == 74 { 18 } else if b == 75 { 19 } else if b == 77 { 20 } else if b == 78 { 21 } else if b == 80 { 22 } else if b == 81 { 23 } else if b == 82 { 24 } else if b == 83 { 25 } else if b == 84 { 26 } else if b == 86 { 27 } else if b == 87 { 28 } else if b == 88 { 29 } else if b == 89 { 30 } else if b == 90 { 31 } else { INVALID_BYTE },
        Alphabet::ZBase32 => if b == 121 { 0 } else if b == 98 { 1 } else if b == 110 { 2 } else if b == 100 { 3 } else if b == 114 { 4 } else if b == 102 { 5 } else if b == 103 { 6 } else if b == 56 { 7 } else if b == 101 { 8 } else if b == 106 { 9 } else if b == 107 { 10 } else if b == 109 { 11 } else if b == 99 { 12 } else if b == 112 { 13 } else if b == 113 { 14 } else if b == 120 { 15 } else if b == 111 { 16 } else if b == 116 { 17 } else if b == 49 { 18 } else if b == 117 { 19 } else if b == 119 { 20 } else if b == 105 { 21 } else if b == 115 { 22 } else if b == 122 { 23 } else if b == 97 { 24 } else if b == 51 { 25 } else if b == 52 { 26 } else if b == 53 { 27 } else if b == 104 { 28 } else if b == 55 { 29 } else if b == 54 { 30 } else if b == 57 { 31 } else { INVALID_BYTE },
    }
}

/// The symbol table and its inverse form a bijection on the valid subset:
/// every symbol is a distinct ASCII byte that decodes back to its own index,
/// and every byte that decodes to a 5-bit value is the symbol of that value.
pub proof fn lemma_table_bijection(a: Alphabet)
    ensures
        symbol_seq(a).len() == 32,
        forall|q: u8| q < 32 ==> #[trigger] spec_quintet(a, symbol_seq(a)[q as int]) == q,
        forall|q: u8| q < 32 ==> symbol_seq(a)[q as int] < 128,
        forall|b: u8| spec_quintet(a, b) != INVALID_BYTE ==> spec_quintet(a, b) < 32
            && symbol_seq(a)[spec_quintet(a, b) as int] == b,
{
    assert forall|q: u8| q < 32 implies #[trigger] spec_quintet(a, symbol_seq(a)[q as int]) == q
        && symbol_seq(a)[q as int] < 128 by {
        lemma_symbol_entry(a, q);
    }
}

proof fn lemma_symbol_entry(a: Alphabet, q: u8)
    requires
        q < 32,
    ensures
        spec_quintet(a, symbol_seq(a)[q as int]) == q,
        symbol_seq(a)[q as int] < 128,
{
}

} // verus!
