use vstd::prelude::*;

use vstd::arithmetic::div_mod::{
    lemma_div_is_ordered,
    lemma_fundamental_div_mod,
    lemma_fundamental_div_mod_converse,
};

use crate::Alphabet;
use crate::Encoding;
use crate::tables::{spec_symbol, symbol_seq};

verus! {

/// How many base32 symbols encode `n` raw bytes: one symbol per 5-bit group,
/// so `ceil(n * 8 / 5)` of them.
pub open spec fn quintet_count(n: int) -> int {
    (n * 8 + 4) / 5
}

/// How many padding bytes a padded configuration appends after the symbols
/// for `n` raw bytes: enough to complete the trailing partial group to a full
/// block of 8 symbols.
pub open spec fn pad_count(n: int) -> int {
    let r = n % 5;
    if r == 1 {
        6
    } else if r == 2 {
        4
    } else if r == 3 {
        3
    } else if r == 4 {
        1
    } else {
        0
    }
}

/// The eight 5-bit values of one full 5-byte group, most significant first.
pub open spec fn chunk_quintets(b0: u8, b1: u8, b2: u8, b3: u8, b4: u8) -> Seq<u8> {
    seq![
        b0 >> 3,
        ((b0 << 2) | (b1 >> 6)) & 31,
        (b1 >> 1) & 31,
        ((b1 << 4) | (b2 >> 4)) & 31,
        ((b2 << 1) | (b3 >> 7)) & 31,
        (b3 >> 2) & 31,
        ((b3 << 3) | (b4 >> 5)) & 31,
        b4 & 31,
    ]
}

/// The 5-bit values that encode the byte sequence `s`: each full 5-byte group
/// gives eight values, and a trailing partial group, zero-extended on the
/// right, gives `ceil(len * 8 / 5)` values.
pub open spec fn data_quintets(s: Seq<u8>) -> Seq<u8>
    decreases s.len(),
{
    if s.len() >= 5 {
        chunk_quintets(s[0], s[1], s[2], s[3], s[4]) + data_quintets(s.skip(5))
    } else if s.len() == 0 {
        Seq::empty()
    } else {
        let b1 = if s.len() > 1 {
            s[1]
        } else {
            0u8
        };
        let b2 = if s.len() > 2 {
            s[2]
        } else {
            0u8
        };
        let b3 = if s.len() > 3 {
            s[3]
        } else {
            0u8
        };
        chunk_quintets(s[0], b1, b2, b3, 0u8).take(quintet_count(s.len() as int))
    }
}

/// The symbols that encode `s` in alphabet `a`.
pub open spec fn encoded_symbols(a: Alphabet, s: Seq<u8>) -> Seq<u8> {
    data_quintets(s).map(|i: int, q: u8| spec_symbol(a, q))
}

/// The full encoded text of `s` under the configuration `e`: the symbols,
/// followed by padding bytes when `e` has a padding byte.
pub open spec fn encoded_text(e: Encoding, s: Seq<u8>) -> Seq<u8> {
    match e.pad {
        Some(p) => encoded_symbols(e.alpha, s) + Seq::new(pad_count(s.len() as int) as nat, |i: int| p),
        None => encoded_symbols(e.alpha, s),
    }
}

/// The exact number of bytes `encode` produces for `n` input bytes:
/// `ceil(n / 5) * 8` with padding, `ceil(n * 8 / 5)` without.
pub open spec fn spec_encoded_size(e: Encoding, n: int) -> int {
    if e.pad is Some {
        ((n + 4) / 5) * 8
    } else {
        (n * 8 + 4) / 5
    }
}

/// Splits the symbol count of `n` bytes into full groups and the remainder:
/// every full 5-byte group contributes 8 symbols, the trailing `n % 5` bytes
/// contribute 0, 2, 4, 5 or 7.
pub proof fn lemma_quintet_count_split(n: int)
    requires
        n >= 0,
    ensures
        quintet_count(n) == 8 * (n / 5) + quintet_count(n % 5),
        quintet_count(0) == 0,
        quintet_count(1) == 2,
        quintet_count(2) == 4,
        quintet_count(3) == 5,
        quintet_count(4) == 7,
{
    lemma_fundamental_div_mod(n, 5);
    let k = n / 5;
    let r = n % 5;
    if r == 0 {
        lemma_fundamental_div_mod_converse(n * 8 + 4, 5, 8 * k, 4);
    } else if r == 1 {
        lemma_fundamental_div_mod_converse(n * 8 + 4, 5, 8 * k + 2, 2);
    } else if r == 2 {
        lemma_fundamental_div_mod_converse(n * 8 + 4, 5, 8 * k + 4, 0);
    } else if r == 3 {
        lemma_fundamental_div_mod_converse(n * 8 + 4, 5, 8 * k + 5, 3);
    } else {
        lemma_fundamental_div_mod_converse(n * 8 + 4, 5, 8 * k + 7, 1);
    }
}

/// With padding, the symbols plus the padding fill whole 8-symbol blocks:
/// together they come to `ceil(n / 5) * 8` bytes.
pub proof fn lemma_padded_size(n: int)
    requires
        n >= 0,
    ensures
        quintet_count(n) + pad_count(n) == ((n + 4) / 5) * 8,
        (quintet_count(n) + pad_count(n)) % 8 == 0,
{
    lemma_quintet_count_split(n);
    lemma_fundamental_div_mod(n, 5);
    let k = n / 5;
    let r = n % 5;
    if r == 0 {
        lemma_fundamental_div_mod_converse(n + 4, 5, k, 4);
    } else {
        lemma_fundamental_div_mod_converse(n + 4, 5, k + 1, r - 1);
    }
}

/// Every 5-bit value of a group is below 32.
proof fn lemma_chunk_quintets_bound(b0: u8, b1: u8, b2: u8, b3: u8, b4: u8)
    ensures
        b0 >> 3 < 32,
        ((b0 << 2) | (b1 >> 6)) & 31 < 32,
        (b1 >> 1) & 31 < 32,
        ((b1 << 4) | (b2 >> 4)) & 31 < 32,
        ((b2 << 1) | (b3 >> 7)) & 31 < 32,
        (b3 >> 2) & 31 < 32,
        ((b3 << 3) | (b4 >> 5)) & 31 < 32,
        b4 & 31 < 32,
        forall|i: int| 0 <= i < 8 ==> chunk_quintets(b0, b1, b2, b3, b4)[i] < 32,
{
    assert(b0 >> 3 < 32 && ((b0 << 2) | (b1 >> 6)) & 31 < 32 && (b1 >> 1) & 31 < 32 && ((b1 << 4)
        | (b2 >> 4)) & 31 < 32 && ((b2 << 1) | (b3 >> 7)) & 31 < 32 && (b3 >> 2) & 31 < 32 && ((b3
        << 3) | (b4 >> 5)) & 31 < 32 && b4 & 31 < 32) by (bit_vector);
}

/// The 5-bit values encoding `s` number `ceil(len * 8 / 5)` and all lie below
/// 32.
pub proof fn lemma_data_quintets_props(s: Seq<u8>)
    ensures
        data_quintets(s).len() == quintet_count(s.len() as int),
        forall|i: int| 0 <= i < data_quintets(s).len() ==> #[trigger] data_quintets(s)[i] < 32,
    decreases s.len(),
{
    lemma_quintet_count_split(s.len() as int);
    if s.len() >= 5 {
        lemma_chunk_quintets_bound(s[0], s[1], s[2], s[3], s[4]);
        lemma_data_quintets_props(s.skip(5));
        assert(s.skip(5).len() == s.len() - 5);
        lemma_quintet_count_split(s.len() - 5);
        lemma_fundamental_div_mod(s.len() as int, 5);
        lemma_fundamental_div_mod(s.len() - 5, 5);
        lemma_fundamental_div_mod_converse(
            s.len() - 5,
            5,
            s.len() as int / 5 - 1,
            s.len() as int % 5,
        );
    } else if s.len() == 0 {
    } else {
        let b1 = if s.len() > 1 {
            s[1]
        } else {
            0u8
        };
        let b2 = if s.len() > 2 {
            s[2]
        } else {
            0u8
        };
        let b3 = if s.len() > 3 {
            s[3]
        } else {
            0u8
        };
        lemma_chunk_quintets_bound(s[0], b1, b2, b3, 0u8);
    }
}

/// Encoding distributes over a split of the input after any number of full
/// 5-byte groups.
pub proof fn lemma_data_quintets_append(s: Seq<u8>, t: Seq<u8>)
    requires
        s.len() % 5 == 0,
    ensures
        data_quintets(s + t) == data_quintets(s) + data_quintets(t),
    decreases s.len(),
{
    if s.len() == 0 {
        assert(s + t =~= t);
        assert(data_quintets(s) + data_quintets(t) =~= data_quintets(t));
    } else {
        assert(s.len() >= 5);
        let u = s + t;
        assert(u.len() >= 5);
        assert(u[0] == s[0] && u[1] == s[1] && u[2] == s[2] && u[3] == s[3] && u[4] == s[4]);
        assert(u.skip(5) =~= s.skip(5) + t);
        assert(s.skip(5).len() % 5 == 0) by {
            lemma_fundamental_div_mod(s.len() as int, 5);
            lemma_fundamental_div_mod_converse(s.len() - 5, 5, s.len() as int / 5 - 1, 0);
        }
        lemma_data_quintets_append(s.skip(5), t);
        assert(data_quintets(s + t) =~= data_quintets(s) + data_quintets(t));
    }
}

/// Mapping the symbol table over split 5-bit values splits the symbol text
/// the same way.
pub proof fn lemma_encoded_symbols_append(a: Alphabet, s: Seq<u8>, t: Seq<u8>)
    requires
        s.len() % 5 == 0,
    ensures
        encoded_symbols(a, s + t) == encoded_symbols(a, s) + encoded_symbols(a, t),
{
    lemma_data_quintets_append(s, t);
    assert(encoded_symbols(a, s + t) =~= encoded_symbols(a, s) + encoded_symbols(a, t));
}

/// The symbol count grows by 8 over one more full 5-byte group.
proof fn lemma_quintet_count_step(i: int)
    requires
        i >= 0,
        i % 5 == 0,
    ensures
        quintet_count(i + 5) == quintet_count(i) + 8,
        (i + 5) % 5 == 0,
{
    lemma_fundamental_div_mod(i, 5);
    lemma_fundamental_div_mod_converse(i + 5, 5, i / 5 + 1, 0);
    lemma_quintet_count_split(i);
    lemma_quintet_count_split(i + 5);
}

/// The symbol count never shrinks as the input grows.
pub proof fn lemma_quintet_count_mono(x: int, y: int)
    requires
        0 <= x <= y,
    ensures
        quintet_count(x) <= quintet_count(y),
{
    lemma_div_is_ordered(x * 8 + 4, y * 8 + 4, 5);
}

/// Reads 8 bytes of `input` starting at `at` as one big-endian 64-bit word.
/// The encoder's batched stage reads one such word per 5-byte group, so the
/// low 3 bytes are look-ahead beyond the group itself.
fn read_u64(input: &[u8], at: usize) -> (w: u64)
    requires
        at + 8 <= input@.len(),
    ensures
        ((w >> 56) & 0xff) as u8 == input@[at as int],
        ((w >> 48) & 0xff) as u8 == input@[at as int + 1],
        ((w >> 40) & 0xff) as u8 == input@[at as int + 2],
        ((w >> 32) & 0xff) as u8 == input@[at as int + 3],
        ((w >> 24) & 0xff) as u8 == input@[at as int + 4],
{
    let b0 = input[at];
    let b1 = input[at + 1];
    let b2 = input[at + 2];
    let b3 = input[at + 3];
    let b4 = input[at + 4];
    let b5 = input[at + 5];
    let b6 = input[at + 6];
    let b7 = input[at + 7];
    let w = ((b0 as u64) << 56) | ((b1 as u64) << 48) | ((b2 as u64) << 40) | ((b3 as u64) << 32)
        | ((b4 as u64) << 24) | ((b5 as u64) << 16) | ((b6 as u64) << 8) | (b7 as u64);
    proof {
        assert(((w >> 56) & 0xff) as u8 == b0 && ((w >> 48) & 0xff) as u8 == b1 && ((w >> 40)
            & 0xff) as u8 == b2 && ((w >> 32) & 0xff) as u8 == b3 && ((w >> 24) & 0xff) as u8
            == b4) by (bit_vector)
            requires
                w == ((b0 as u64) << 56) | ((b1 as u64) << 48) | ((b2 as u64) << 40) | ((b3
                    as u64) << 32) | ((b4 as u64) << 24) | ((b5 as u64) << 16) | ((b6 as u64) << 8)
                    | (b7 as u64),
        ;
    }
    w
}

/// Writes the 8 symbols of one 5-byte group, handed over as the top 5 bytes
/// of a big-endian word, extracting each 5-bit value by shift and mask.
fn write_symbols_wide(
    table: &Vec<u8>,
    output: &mut Vec<u8>,
    output_index: usize,
    w: u64,
    Ghost(a): Ghost<Alphabet>,
    Ghost(chunk): Ghost<Seq<u8>>,
)
    requires
        table@ == symbol_seq(a),
        table@.len() == 32,
        chunk.len() == 5,
        output_index + 8 <= old(output)@.len(),
        ((w >> 56) & 0xff) as u8 == chunk[0],
        ((w >> 48) & 0xff) as u8 == chunk[1],
        ((w >> 40) & 0xff) as u8 == chunk[2],
        ((w >> 32) & 0xff) as u8 == chunk[3],
        ((w >> 24) & 0xff) as u8 == chunk[4],
    ensures
        final(output)@.len() == old(output)@.len(),
        final(output)@.subrange(output_index as int, output_index as int + 8) == encoded_symbols(
            a,
            chunk,
        ),
        forall|j: int|
            0 <= j < final(output)@.len() && !(output_index <= j < output_index + 8)
                ==> final(output)@[j] == old(output)@[j],
{
    let out_len = output.len();
    proof {
        assert(output_index + 8 <= out_len);
    }
    let q0 = (w >> 59) & 31;
    let q1 = (w >> 54) & 31;
    let q2 = (w >> 49) & 31;
    let q3 = (w >> 44) & 31;
    let q4 = (w >> 39) & 31;
    let q5 = (w >> 34) & 31;
    let q6 = (w >> 29) & 31;
    let q7 = (w >> 24) & 31;
    proof {
        let b0 = chunk[0];
        let b1 = chunk[1];
        let b2 = chunk[2];
        let b3 = chunk[3];
        let b4 = chunk[4];
        assert((w >> 59) & 31 == ((b0 >> 3) as u64) && (w >> 54) & 31 == ((((b0 << 2) | (b1 >> 6))
            & 31) as u64) && (w >> 49) & 31 == (((b1 >> 1) & 31) as u64) && (w >> 44) & 31 == ((((
        b1 << 4) | (b2 >> 4)) & 31) as u64) && (w >> 39) & 31 == ((((b2 << 1) | (b3 >> 7))
            & 31) as u64) && (w >> 34) & 31 == (((b3 >> 2) & 31) as u64) && (w >> 29) & 31 == ((((
        b3 << 3) | (b4 >> 5)) & 31) as u64) && (w >> 24) & 31 == ((b4 & 31) as u64)) by (bit_vector)
            requires
                ((w >> 56) & 0xff) as u8 == b0,
                ((w >> 48) & 0xff) as u8 == b1,
                ((w >> 40) & 0xff) as u8 == b2,
                ((w >> 32) & 0xff) as u8 == b3,
                ((w >> 24) & 0xff) as u8 == b4,
        ;
        lemma_chunk_quintets_bound(b0, b1, b2, b3, b4);
    }
    output.set(output_index, table[q0 as usize]);
    output.set(output_index + 1, table[q1 as usize]);
    output.set(output_index + 2, table[q2 as usize]);
    output.set(output_index + 3, table[q3 as usize]);
    output.set(output_index + 4, table[q4 as usize]);
    output.set(output_index + 5, table[q5 as usize]);
    output.set(output_index + 6, table[q6 as usize]);
    output.set(output_index + 7, table[q7 as usize]);
    proof {
        assert(chunk.skip(5) =~= Seq::<u8>::empty());
        assert(data_quintets(chunk.skip(5)) =~= Seq::<u8>::empty());
        assert(data_quintets(chunk) =~= chunk_quintets(
            chunk[0],
            chunk[1],
            chunk[2],
            chunk[3],
            chunk[4],
        ));
        assert(output@.subrange(output_index as int, output_index as int + 8) =~= encoded_symbols(
            a,
            chunk,
        ));
    }
}

/// Relies on `String::from_utf8`: a vector of ASCII bytes converts to the
/// string whose characters are exactly those bytes.
#[verifier::external_body]
fn ascii_to_string(bytes: Vec<u8>) -> (r: String)
    requires
        forall|i: int| 0 <= i < bytes@.len() ==> bytes@[i] < 128,
    ensures
        r@ == bytes@.map(|i: int, b: u8| b as char),
{
    match String::from_utf8(bytes) {
        Ok(s) => s,
        Err(_) => String::new(),
    }
}

/// Encodes the input bytes using the standard base32 configuration.
pub fn encode(data: &[u8]) -> (r: String)
    requires
        data@.len() + 4 <= usize::MAX,
        ((data@.len() + 4) / 5) * 8 <= usize::MAX,
    ensures
        r@ == encoded_text(crate::spec_standard(), data@).map(|i: int, b: u8| b as char),
        r@.map(|i: int, c: char| c as u8) == encoded_text(crate::spec_standard(), data@),
        vstd::utf8::is_ascii_chars(r@),
{
    crate::standard().encode(data)
}

impl Encoding {
    /// Encodes arbitrary input bytes according to the chosen configuration,
    /// returning the text as a `String`.
    ///
    /// The precondition excludes inputs whose encoded size overflows `usize`
    /// and padding bytes outside the ASCII range, both of which the sizing
    /// contract treats as caller errors.
    pub fn encode(&self, data: &[u8]) -> (r: String)
        requires
            self.pad is Some ==> data@.len() + 4 <= usize::MAX && ((data@.len() + 4) / 5) * 8
                <= usize::MAX,
            self.pad is None ==> data@.len() * 8 + 4 <= usize::MAX,
            self.pad is Some ==> self.pad->0 < 128,
        ensures
            r@ == encoded_text(*self, data@).map(|i: int, b: u8| b as char),
            r@.map(|i: int, c: char| c as u8) == encoded_text(*self, data@),
            vstd::utf8::is_ascii_chars(r@),
    {
        proof {
            lemma_padded_size(data@.len() as int);
            lemma_data_quintets_props(data@);
        }
        let size = self.encoded_size(data.len());
        let mut buf: Vec<u8> = vec![0u8; size];
        let written = self.encode_to_slice(&mut buf, data);
        match self.pad {
            Some(p) => {
                let r = data.len() % 5;
                let padn: usize = if r == 1 {
                    6
                } else if r == 2 {
                    4
                } else if r == 3 {
                    3
                } else if r == 4 {
                    1
                } else {
                    0
                };
                let mut j: usize = 0;
                while j < padn
                    invariant
                        j <= padn,
                        written + padn == buf@.len(),
                        buf@.len() == size,
                        forall|i: int| 0 <= i < written + j ==> buf@[i] == #[trigger] (encoded_text(
                            *self,
                            data@,
                        ))[i],
                        written == quintet_count(data@.len() as int),
                        padn == pad_count(data@.len() as int),
                        self.pad == Some(p),
                        encoded_text(*self, data@).len() == size,
                        buf@.subrange(0, written as int) == encoded_symbols(self.alpha, data@),
                    decreases padn - j,
                {
                    buf.set(written + j, p);
                    assert(encoded_text(*self, data@)[written + j] == p);
                    j += 1;
                }
            },
            None => {},
        }
        proof {
            assert(buf@ =~= encoded_text(*self, data@));
            crate::tables::lemma_table_bijection(self.alpha);
            assert forall|i: int| 0 <= i < buf@.len() implies buf@[i] < 128 by {
                if i < quintet_count(data@.len() as int) {
                    assert(buf@[i] == encoded_symbols(self.alpha, data@)[i]);
                    assert(data_quintets(data@)[i] < 32);
                }
            }
        }
        let r = ascii_to_string(buf);
        proof {
            assert forall|i: int| 0 <= i < r@.len() implies '\0' <= #[trigger] r@[i] <= '\u{7f}'
                && r@.map(|j: int, c: char| c as u8)[i] == encoded_text(*self, data@)[i] by {
                assert(r@[i] == buf@[i] as char);
                assert(buf@[i] < 128);
            }
            assert(r@.map(|i: int, c: char| c as u8) =~= encoded_text(*self, data@));
        }
        r
    }

    /// Calculates the bytes required to store the encoded form of `bytes`
    /// input bytes. Inputs so large that the calculation would overflow
    /// `usize` are excluded by precondition.
    pub fn encoded_size(&self, bytes: usize) -> (r: usize)
        requires
            self.pad is Some ==> bytes + 4 <= usize::MAX && ((bytes + 4) / 5) * 8 <= usize::MAX,
            self.pad is None ==> bytes * 8 + 4 <= usize::MAX,
        ensures
            r == spec_encoded_size(*self, bytes as int),
    {
        if self.pad.is_some() {
            (bytes + 4) / 5 * 8
        } else {
            (bytes * 8 + 4) / 5
        }
    }

    /// Takes a slice of arbitrary bytes and encodes it according to the
    /// configuration, writing the symbols (but no padding) into the output
    /// buffer from offset 0 and returning how many bytes were written.
    #[verifier::rlimit(100)]
    pub fn encode_to_slice(&self, output: &mut Vec<u8>, input: &[u8]) -> (written: usize)
        requires
            quintet_count(input@.len() as int) <= old(output)@.len(),
        ensures
            written == quintet_count(input@.len() as int),
            final(output)@.len() == old(output)@.len(),
            final(output)@.subrange(0, written as int) == encoded_symbols(self.alpha, input@),
            forall|j: int|
                written <= j < final(output)@.len() ==> final(output)@[j] == old(output)@[j],
    {
        let n = input.len();
        let out_len = output.len();
        let table = self.alpha.encode_table();
        let ghost a = self.alpha;
        proof {
            crate::tables::lemma_table_bijection(a);
            lemma_quintet_count_split(n as int);
        }
        let mut input_index: usize = 0;
        let mut output_index: usize = 0;

        // Batched stage: while a whole block of four 5-byte groups plus 3
        // bytes of look-ahead remains, read one wide word per group and emit
        // 32 symbols per iteration.
        if n >= 24 {
            let last_fast_index = n - 23;
            while input_index <= last_fast_index
                invariant
                    n == input@.len(),
                    out_len == output@.len(),
                    n >= 24,
                    last_fast_index == n - 23,
                    input_index <= n,
                    input_index % 5 == 0,
                    output_index == quintet_count(input_index as int),
                    quintet_count(n as int) <= output@.len(),
                    output@.len() == old(output)@.len(),
                    table@ == symbol_seq(a),
                    table@.len() == 32,
                    a == self.alpha,
                    output@.subrange(0, output_index as int) == encoded_symbols(
                        a,
                        input@.take(input_index as int),
                    ),
                    forall|j: int|
                        output_index <= j < output@.len() ==> output@[j] == old(output)@[j],
                decreases n - input_index,
            {
                proof {
                    lemma_quintet_count_step(input_index as int);
                    lemma_quintet_count_step(input_index as int + 5);
                    lemma_quintet_count_step(input_index as int + 10);
                    lemma_quintet_count_step(input_index as int + 15);
                    lemma_quintet_count_mono(input_index as int + 20, n as int);
                }
                let ghost ii = input_index as int;
                let w0 = read_u64(input, input_index);
                let w1 = read_u64(input, input_index + 5);
                let w2 = read_u64(input, input_index + 10);
                let w3 = read_u64(input, input_index + 15);
                write_symbols_wide(
                    &table,
                    output,
                    output_index,
                    w0,
                    Ghost(a),
                    Ghost(input@.subrange(ii, ii + 5)),
                );
                proof {
                    let pre = input@.take(ii);
                    let chunk = input@.subrange(ii, ii + 5);
                    assert(input@.take(ii + 5) =~= pre + chunk);
                    lemma_encoded_symbols_append(a, pre, chunk);
                    assert(output@.subrange(0, output_index as int + 8) =~= encoded_symbols(
                        a,
                        input@.take(ii + 5),
                    ));
                }
                write_symbols_wide(
                    &table,
                    output,
                    output_index + 8,
                    w1,
                    Ghost(a),
                    Ghost(input@.subrange(ii + 5, ii + 10)),
                );
                proof {
                    let pre = input@.take(ii + 5);
                    let chunk = input@.subrange(ii + 5, ii + 10);
                    assert(input@.take(ii + 10) =~= pre + chunk);
                    lemma_encoded_symbols_append(a, pre, chunk);
                    assert(output@.subrange(0, output_index as int + 16) =~= encoded_symbols(
                        a,
                        input@.take(ii + 10),
                    ));
                }
                write_symbols_wide(
                    &table,
                    output,
                    output_index + 16,
                    w2,
                    Ghost(a),
                    Ghost(input@.subrange(ii + 10, ii + 15)),
                );
                proof {
                    let pre = input@.take(ii + 10);
                    let chunk = input@.subrange(ii + 10, ii + 15);
                    assert(input@.take(ii + 15) =~= pre + chunk);
                    lemma_encoded_symbols_append(a, pre, chunk);
                    assert(output@.subrange(0, output_index as int + 24) =~= encoded_symbols(
                        a,
                        input@.take(ii + 15),
                    ));
                }
                write_symbols_wide(
                    &table,
                    output,
                    output_index + 24,
                    w3,
                    Ghost(a),
                    Ghost(input@.subrange(ii + 15, ii + 20)),
                );
                proof {
                    let pre = input@.take(ii + 15);
                    let chunk = input@.subrange(ii + 15, ii + 20);
                    assert(input@.take(ii + 20) =~= pre + chunk);
                    lemma_encoded_symbols_append(a, pre, chunk);
                    assert(output@.subrange(0, output_index as int + 32) =~= encoded_symbols(
                        a,
                        input@.take(ii + 20),
                    ));
                }
                output_index = output_index + 32;
                input_index = input_index + 20;
            }
        }

        // Scalar chunk stage: one 5-byte group at a time, packed with
        // byte-level shifts.
        while n - input_index >= 5
            invariant
                n == input@.len(),
                out_len == output@.len(),
                input_index <= n,
                input_index % 5 == 0,
                output_index == quintet_count(input_index as int),
                quintet_count(n as int) <= output@.len(),
                output@.len() == old(output)@.len(),
                table@ == symbol_seq(a),
                table@.len() == 32,
                a == self.alpha,
                output@.subrange(0, output_index as int) == encoded_symbols(
                    a,
                    input@.take(input_index as int),
                ),
                forall|j: int| output_index <= j < output@.len() ==> output@[j] == old(output)@[j],
            decreases n - input_index,
        {
            proof {
                lemma_quintet_count_step(input_index as int);
                lemma_quintet_count_mono(input_index as int + 5, n as int);
            }
            let b0 = input[input_index];
            let b1 = input[input_index + 1];
            let b2 = input[input_index + 2];
            let b3 = input[input_index + 3];
            let b4 = input[input_index + 4];
            let q0 = b0 >> 3;
            let q1 = ((b0 << 2) | (b1 >> 6)) & 31;
            let q2 = (b1 >> 1) & 31;
            let q3 = ((b1 << 4) | (b2 >> 4)) & 31;
            let q4 = ((b2 << 1) | (b3 >> 7)) & 31;
            let q5 = (b3 >> 2) & 31;
            let q6 = ((b3 << 3) | (b4 >> 5)) & 31;
            let q7 = b4 & 31;
            proof {
                lemma_chunk_quintets_bound(b0, b1, b2, b3, b4);
            }
            output.set(output_index, table[q0 as usize]);
            output.set(output_index + 1, table[q1 as usize]);
            output.set(output_index + 2, table[q2 as usize]);
            output.set(output_index + 3, table[q3 as usize]);
            output.set(output_index + 4, table[q4 as usize]);
            output.set(output_index + 5, table[q5 as usize]);
            output.set(output_index + 6, table[q6 as usize]);
            output.set(output_index + 7, table[q7 as usize]);
            proof {
                let pre = input@.take(input_index as int);
                let chunk = input@.subrange(input_index as int, input_index as int + 5);
                assert(chunk.len() == 5);
                assert(chunk[0] == b0 && chunk[1] == b1 && chunk[2] == b2 && chunk[3] == b3
                    && chunk[4] == b4);
                assert(chunk.skip(5) =~= Seq::<u8>::empty());
                assert(data_quintets(chunk.skip(5)) =~= Seq::<u8>::empty());
                assert(data_quintets(chunk) =~= chunk_quintets(b0, b1, b2, b3, b4));
                assert(input@.take(input_index as int + 5) =~= pre + chunk);
                lemma_encoded_symbols_append(a, pre, chunk);
                assert(output@.subrange(0, output_index as int + 8) =~= encoded_symbols(
                    a,
                    input@.take(input_index as int + 5),
                ));
            }
            output_index = output_index + 8;
            input_index = input_index + 5;
        }

        let rem = n - input_index;
        if rem > 0 {
            let b0 = input[input_index];
            let b1 = if rem > 1 {
                input[input_index + 1]
            } else {
                0
            };
            let b2 = if rem > 2 {
                input[input_index + 2]
            } else {
                0
            };
            let b3 = if rem > 3 {
                input[input_index + 3]
            } else {
                0
            };
            let b4 = 0u8;
            let q0 = b0 >> 3;
            let q1 = ((b0 << 2) | (b1 >> 6)) & 31;
            let q2 = (b1 >> 1) & 31;
            let q3 = ((b1 << 4) | (b2 >> 4)) & 31;
            let q4 = ((b2 << 1) | (b3 >> 7)) & 31;
            let q5 = (b3 >> 2) & 31;
            let q6 = ((b3 << 3) | (b4 >> 5)) & 31;
            proof {
                lemma_chunk_quintets_bound(b0, b1, b2, b3, b4);
                lemma_quintet_count_split(input_index as int);
                lemma_fundamental_div_mod(input_index as int, 5);
                lemma_fundamental_div_mod_converse(
                    n as int,
                    5,
                    input_index as int / 5,
                    rem as int,
                );
                lemma_quintet_count_split(n as int);
            }
            let count: usize = if rem == 1 {
                output.set(output_index, table[q0 as usize]);
                output.set(output_index + 1, table[q1 as usize]);
                2
            } else if rem == 2 {
                output.set(output_index, table[q0 as usize]);
                output.set(output_index + 1, table[q1 as usize]);
                output.set(output_index + 2, table[q2 as usize]);
                output.set(output_index + 3, table[q3 as usize]);
                4
            } else if rem == 3 {
                output.set(output_index, table[q0 as usize]);
                output.set(output_index + 1, table[q1 as usize]);
                output.set(output_index + 2, table[q2 as usize]);
                output.set(output_index + 3, table[q3 as usize]);
                output.set(output_index + 4, table[q4 as usize]);
                5
            } else {
                output.set(output_index, table[q0 as usize]);
                output.set(output_index + 1, table[q1 as usize]);
                output.set(output_index + 2, table[q2 as usize]);
                output.set(output_index + 3, table[q3 as usize]);
                output.set(output_index + 4, table[q4 as usize]);
                output.set(output_index + 5, table[q5 as usize]);
                output.set(output_index + 6, table[q6 as usize]);
                7
            };
            proof {
                let pre = input@.take(input_index as int);
                let tail = input@.skip(input_index as int);
                assert(input@ =~= pre + tail);
                lemma_encoded_symbols_append(a, pre, tail);
                assert(data_quintets(tail) == chunk_quintets(b0, b1, b2, b3, b4).take(
                    quintet_count(rem as int),
                ));
                assert(output@.subrange(0, output_index as int + count as int) =~= encoded_symbols(
                    a,
                    input@,
                ));
            }
            output_index = output_index + count;
        } else {
            proof {
                assert(input@.take(input_index as int) =~= input@);
            }
        }
        output_index
    }

    /// Writes the padding bytes for an input of `input_len` raw bytes into the
    /// output buffer from offset 0, returning how many were written; does
    /// nothing when the configuration disables padding.
    pub fn add_padding(&self, output: &mut Vec<u8>, input_len: usize) -> (written: usize)
        requires
            self.pad is Some ==> pad_count(input_len as int) <= old(output)@.len(),
        ensures
            written == (if self.pad is Some {
                pad_count(input_len as int)
            } else {
                0
            }),
            final(output)@.len() == old(output)@.len(),
            forall|j: int| 0 <= j < written ==> final(output)@[j] == self.pad->0,
            forall|j: int|
                written <= j < final(output)@.len() ==> final(output)@[j] == old(output)@[j],
    {
        match self.pad {
            Some(p) => {
                let r = input_len % 5;
                let count: usize = if r == 1 {
                    6
                } else if r == 2 {
                    4
                } else if r == 3 {
                    3
                } else if r == 4 {
                    1
                } else {
                    0
                };
                let mut j: usize = 0;
                while j < count
                    invariant
                        j <= count,
                        count == pad_count(input_len as int),
                        count <= output@.len(),
                        output@.len() == old(output)@.len(),
                        self.pad == Some(p),
                        forall|i: int| 0 <= i < j ==> output@[i] == p,
                        forall|i: int| j <= i < output@.len() ==> output@[i] == old(output)@[i],
                    decreases count - j,
                {
                    output.set(j, p);
                    j += 1;
                }
                count
            },
            None => 0,
        }
    }
}

} // verus!
