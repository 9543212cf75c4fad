use vstd::prelude::*;

use vstd::arithmetic::div_mod::{
    lemma_div_is_ordered,
    lemma_fundamental_div_mod,
    lemma_fundamental_div_mod_converse,
};

use crate::Alphabet;
use crate::Encoding;
use crate::tables::{spec_quintet, valid_symbol, INVALID_BYTE};

verus! {

/// Errors that can occur while decoding.
#[derive(Copy, Clone, Debug, PartialEq, Eq, Structural)]
pub enum DecodeError {
    /// A consumed input byte is not present in the alphabet's inverse table;
    /// carries the index at which the offending byte was found as well as its
    /// value.
    InvalidByte(usize, u8),
    /// The input is of a length that could never have been produced by a
    /// well-formed encoding.
    InvalidInputLength,
}

/// Whether an input of `m` bytes is rejected outright: no encoded text,
/// padded or not, ends in a group of exactly 1, 3 or 6 symbols.
pub open spec fn invalid_length(m: int) -> bool {
    m % 8 == 1 || m % 8 == 3 || m % 8 == 6
}

/// Where the tail of an `m`-byte input begins: the final block of at most 8
/// bytes, the only place where padding may appear. Everything before it is
/// decoded as full 8-symbol chunks.
pub open spec fn tail_start(m: int) -> int {
    if m % 8 == 0 {
        if m == 0 {
            0
        } else {
            m - 8
        }
    } else {
        m - (m % 8)
    }
}

/// How many leading bytes of the tail `t` the decoder consumes: all of them,
/// or exactly those before the first padding byte.
pub open spec fn count_before_pad(pad: Option<u8>, t: Seq<u8>) -> int
    decreases t.len(),
{
    if t.len() == 0 {
        0
    } else if pad is Some && t[0] == pad->0 {
        0
    } else {
        1 + count_before_pad(pad, t.skip(1))
    }
}

/// The index of the first byte of `u` that is not a symbol of `a`, or
/// `u.len()` when every byte is one.
pub open spec fn first_invalid(a: Alphabet, u: Seq<u8>) -> int
    decreases u.len(),
{
    if u.len() == 0 {
        0
    } else if !valid_symbol(a, u[0]) {
        0
    } else {
        1 + first_invalid(a, u.skip(1))
    }
}

/// The five bytes packed from eight 5-bit values, most significant value
/// first.
pub open spec fn chunk_bytes(
    q0: u8,
    q1: u8,
    q2: u8,
    q3: u8,
    q4: u8,
    q5: u8,
    q6: u8,
    q7: u8,
) -> Seq<u8> {
    seq![
        (q0 << 3) | (q1 >> 2),
        (q1 << 6) | (q2 << 1) | (q3 >> 4),
        (q3 << 4) | (q4 >> 1),
        (q4 << 7) | (q5 << 2) | (q6 >> 3),
        (q6 << 5) | q7,
    ]
}

/// The bytes decoded from the leading full 8-symbol chunks of `u`.
pub open spec fn decode_main(a: Alphabet, u: Seq<u8>) -> Seq<u8>
    decreases u.len(),
{
    if u.len() < 8 {
        Seq::empty()
    } else {
        chunk_bytes(
            spec_quintet(a, u[0]),
            spec_quintet(a, u[1]),
            spec_quintet(a, u[2]),
            spec_quintet(a, u[3]),
            spec_quintet(a, u[4]),
            spec_quintet(a, u[5]),
            spec_quintet(a, u[6]),
            spec_quintet(a, u[7]),
        ) + decode_main(a, u.skip(8))
    }
}

/// How many whole bytes `k` consumed tail symbols determine: their 5-bit
/// values fill `5 * k` bits, of which only whole leading bytes are data.
pub open spec fn tail_byte_count(k: int) -> int {
    if k == 2 {
        1
    } else if k == 4 {
        2
    } else if k == 5 {
        3
    } else if k == 7 {
        4
    } else if k == 8 {
        5
    } else {
        0
    }
}

/// The bytes decoded from a consumed tail `t` of symbols: their 5-bit values,
/// zero-extended to a full group, packed as bytes and cut to the whole bytes
/// the symbols determine.
pub open spec fn tail_bytes(a: Alphabet, t: Seq<u8>) -> Seq<u8> {
    let q0 = if t.len() > 0 { spec_quintet(a, t[0]) } else { 0u8 };
    let q1 = if t.len() > 1 { spec_quintet(a, t[1]) } else { 0u8 };
    let q2 = if t.len() > 2 { spec_quintet(a, t[2]) } else { 0u8 };
    let q3 = if t.len() > 3 { spec_quintet(a, t[3]) } else { 0u8 };
    let q4 = if t.len() > 4 { spec_quintet(a, t[4]) } else { 0u8 };
    let q5 = if t.len() > 5 { spec_quintet(a, t[5]) } else { 0u8 };
    let q6 = if t.len() > 6 { spec_quintet(a, t[6]) } else { 0u8 };
    let q7 = if t.len() > 7 { spec_quintet(a, t[7]) } else { 0u8 };
    chunk_bytes(q0, q1, q2, q3, q4, q5, q6, q7).take(tail_byte_count(t.len() as int))
}

/// What decoding yields on any input `u` under the configuration `e`:
/// - `InvalidInputLength` when the input length leaves a remainder of 1, 3 or
///   6 modulo 8, or when the consumed part of the tail has 1, 3 or 6 symbols;
/// - `InvalidByte` carrying the position and value of the first consumed byte
///   that is not a symbol of the alphabet;
/// - otherwise the bytes of the full chunks and of the consumed tail.
pub open spec fn spec_decode(e: Encoding, u: Seq<u8>) -> Result<Seq<u8>, DecodeError> {
    let m = u.len() as int;
    if invalid_length(m) {
        Err(DecodeError::InvalidInputLength)
    } else {
        let ts = tail_start(m);
        let k = count_before_pad(e.pad, u.skip(ts));
        let consumed = ts + k;
        let fi = first_invalid(e.alpha, u.take(consumed));
        if fi < consumed {
            Err(DecodeError::InvalidByte(fi as usize, u[fi]))
        } else if k == 1 || k == 3 || k == 6 {
            Err(DecodeError::InvalidInputLength)
        } else {
            Ok(decode_main(e.alpha, u.take(ts)) + tail_bytes(e.alpha, u.subrange(ts, ts + k)))
        }
    }
}

/// An upper bound on how many bytes decoding an `m`-byte input can write:
/// five per full chunk and the whole bytes of a full-length tail.
pub open spec fn spec_decode_capacity(m: int) -> int {
    (tail_start(m) / 8) * 5 + tail_byte_count(m - tail_start(m))
}

/// The decoded-size estimate the size calculator documents: `(m / 8) * 5`
/// with padding, `(m * 5) / 8` without.
pub open spec fn spec_decoded_size(e: Encoding, m: int) -> int {
    if e.pad is Some {
        (m / 8) * 5
    } else {
        (m * 5) / 8
    }
}

/// The extra buffer bytes, beyond the documented estimate, that a padded
/// configuration can fill when the input length is not a multiple of 8.
pub open spec fn pad_extra(e: Encoding, m: int) -> int {
    if e.pad is Some {
        tail_byte_count(m % 8)
    } else {
        0
    }
}

/// The consumed count lies between zero and the tail length.
pub proof fn lemma_count_before_pad_bounds(pad: Option<u8>, t: Seq<u8>)
    ensures
        0 <= count_before_pad(pad, t) <= t.len(),
    decreases t.len(),
{
    if t.len() == 0 {
    } else if pad is Some && t[0] == pad->0 {
    } else {
        lemma_count_before_pad_bounds(pad, t.skip(1));
    }
}

/// The consumed count is `k` exactly when the first `k` tail bytes are not
/// padding and the tail either ends there or continues with a padding byte.
pub proof fn lemma_count_before_pad_exact(pad: Option<u8>, t: Seq<u8>, k: int)
    requires
        0 <= k <= t.len(),
        forall|j: int| 0 <= j < k ==> !(pad is Some && #[trigger] t[j] == pad->0),
        k < t.len() ==> pad is Some && t[k] == pad->0,
    ensures
        count_before_pad(pad, t) == k,
    decreases t.len(),
{
    if t.len() == 0 {
    } else if k == 0 {
    } else {
        let s = t.skip(1);
        assert(!(pad is Some && t[0] == pad->0));
        assert forall|j: int| 0 <= j < k - 1 implies !(pad is Some && #[trigger] s[j]
            == pad->0) by {
            assert(s[j] == t[j + 1]);
        }
        assert(k - 1 < s.len() ==> pad is Some && s[k - 1] == pad->0) by {
            if k - 1 < s.len() {
                assert(s[k - 1] == t[k]);
            }
        }
        lemma_count_before_pad_exact(pad, s, k - 1);
    }
}

/// A lower bound on the consumed count: at least `k` when the first `k` tail
/// bytes are not padding.
proof fn lemma_count_before_pad_at_least(pad: Option<u8>, t: Seq<u8>, k: int)
    requires
        0 <= k <= t.len(),
        forall|j: int| 0 <= j < k ==> !(pad is Some && #[trigger] t[j] == pad->0),
    ensures
        count_before_pad(pad, t) >= k,
    decreases t.len(),
{
    if t.len() == 0 || k == 0 {
        lemma_count_before_pad_bounds(pad, t);
    } else {
        let s = t.skip(1);
        assert(!(pad is Some && t[0] == pad->0));
        assert forall|j: int| 0 <= j < k - 1 implies !(pad is Some && #[trigger] s[j]
            == pad->0) by {
            assert(s[j] == t[j + 1]);
        }
        lemma_count_before_pad_at_least(pad, s, k - 1);
        assert(count_before_pad(pad, t) == 1 + count_before_pad(pad, s));
    }
}

/// The first invalid index is `i` exactly when the bytes before `i` are
/// symbols and `u` either ends at `i` or has a non-symbol there.
pub proof fn lemma_first_invalid_exact(a: Alphabet, u: Seq<u8>, i: int)
    requires
        0 <= i <= u.len(),
        forall|j: int| 0 <= j < i ==> valid_symbol(a, #[trigger] u[j]),
        i < u.len() ==> !valid_symbol(a, u[i]),
    ensures
        first_invalid(a, u) == i,
    decreases u.len(),
{
    if u.len() == 0 {
    } else if i == 0 {
    } else {
        let s = u.skip(1);
        assert(valid_symbol(a, u[0]));
        assert forall|j: int| 0 <= j < i - 1 implies valid_symbol(a, #[trigger] s[j]) by {
            assert(s[j] == u[j + 1]);
        }
        assert(i - 1 < s.len() ==> !valid_symbol(a, s[i - 1])) by {
            if i - 1 < s.len() {
                assert(s[i - 1] == u[i]);
            }
        }
        lemma_first_invalid_exact(a, s, i - 1);
    }
}

/// What the first invalid index tells: everything before it is a symbol, and
/// at it, when it is inside the sequence, stands a byte that is not one.
proof fn lemma_first_invalid_props(a: Alphabet, u: Seq<u8>)
    ensures
        0 <= first_invalid(a, u) <= u.len(),
        forall|j: int| 0 <= j < first_invalid(a, u) ==> valid_symbol(a, #[trigger] u[j]),
        first_invalid(a, u) < u.len() ==> !valid_symbol(a, u[first_invalid(a, u)]),
    decreases u.len(),
{
    if u.len() == 0 {
    } else if !valid_symbol(a, u[0]) {
    } else {
        let s = u.skip(1);
        lemma_first_invalid_props(a, s);
        assert forall|j: int| 0 <= j < first_invalid(a, u) implies valid_symbol(
            a,
            #[trigger] u[j],
        ) by {
            if j > 0 {
                assert(u[j] == s[j - 1]);
            }
        }
        if first_invalid(a, u) < u.len() {
            assert(u[first_invalid(a, u)] == s[first_invalid(a, s)]);
        }
    }
}

/// Decoding distributes over a split of the input after any number of full
/// 8-symbol chunks.
pub proof fn lemma_decode_main_append(a: Alphabet, s: Seq<u8>, t: Seq<u8>)
    requires
        s.len() % 8 == 0,
    ensures
        decode_main(a, s + t) == decode_main(a, s) + decode_main(a, t),
    decreases s.len(),
{
    if s.len() == 0 {
        assert(s + t =~= t);
        assert(decode_main(a, s) + decode_main(a, t) =~= decode_main(a, t));
    } else {
        assert(s.len() >= 8);
        let u = s + t;
        assert(u.len() >= 8);
        assert(forall|j: int| 0 <= j < 8 ==> #[trigger] u[j] == s[j]);
        assert(u.skip(8) =~= s.skip(8) + t);
        assert(s.skip(8).len() % 8 == 0) by {
            lemma_fundamental_div_mod(s.len() as int, 8);
            lemma_fundamental_div_mod_converse(s.len() - 8, 8, s.len() as int / 8 - 1, 0);
        }
        lemma_decode_main_append(a, s.skip(8), t);
        assert(decode_main(a, s + t) =~= decode_main(a, s) + decode_main(a, t));
    }
}

/// Decodes data encoded with the standard base32 configuration.
pub fn decode(data: &[u8]) -> (r: Result<Vec<u8>, DecodeError>)
    ensures
        (match r {
            Ok(v) => spec_decode(crate::spec_standard(), data@) is Ok && v@ == spec_decode(
                crate::spec_standard(),
                data@,
            )->Ok_0,
            Err(e) => spec_decode(crate::spec_standard(), data@) == Err::<Seq<u8>, DecodeError>(e),
        }),
{
    crate::standard().decode(data)
}

impl Encoding {
    /// Decodes base32-encoded data according to the configuration, returning
    /// the raw bytes, or the error that describes the first violation found.
    ///
    /// The precondition excludes, for configurations without padding, inputs
    /// so large that the size estimate overflows `usize`; the sizing contract
    /// treats such inputs as caller errors.
    pub fn decode(&self, data: &[u8]) -> (r: Result<Vec<u8>, DecodeError>)
        requires
            self.pad is None ==> data@.len() * 5 <= usize::MAX,
        ensures
            (match r {
                Ok(v) => spec_decode(*self, data@) is Ok && v@ == spec_decode(*self, data@)->Ok_0,
                Err(e) => spec_decode(*self, data@) == Err::<Seq<u8>, DecodeError>(e),
            }),
    {
        let m = data.len();
        proof {
            lemma_decode_capacity(*self, m as int);
        }
        let size = self.decoded_size(m);
        let extra: usize = match self.pad {
            Some(_) => {
                let r8 = m % 8;
                if r8 == 2 {
                    1
                } else if r8 == 4 {
                    2
                } else if r8 == 5 {
                    3
                } else if r8 == 7 {
                    4
                } else {
                    0
                }
            },
            None => 0,
        };
        proof {
            assert(extra as int == pad_extra(*self, m as int));
            assert(spec_decode_capacity(m as int) <= size as int + extra as int);
        }
        let mut buf: Vec<u8> = vec![0u8; size + extra];
        match self.decode_to_slice(&mut buf, data) {
            Ok(written) => {
                buf.truncate(written);
                Ok(buf)
            },
            Err(e) => Err(e),
        }
    }

    /// Returns an estimate of how many bytes are required to store the
    /// decoded form of `bytes` encoded bytes. It may overestimate, and for
    /// padded configurations it assumes the input length is a multiple of 8;
    /// [`Encoding::decode_to_slice`] states the bound it actually relies on.
    /// Inputs whose estimate would overflow `usize` are excluded by
    /// precondition.
    pub fn decoded_size(&self, bytes: usize) -> (r: usize)
        requires
            self.pad is None ==> bytes * 5 <= usize::MAX,
        ensures
            r == spec_decoded_size(*self, bytes as int),
    {
        if self.pad.is_some() {
            proof {
                lemma_div_is_ordered(bytes as int, usize::MAX as int, 8);
            }
            (bytes / 8) * 5
        } else {
            (bytes * 5) / 8
        }
    }

    /// Takes a slice of encoded data and decodes it into the output buffer
    /// from offset 0, returning how many bytes were written, or the error
    /// that describes the first violation found. The output buffer must hold
    /// the documented estimate for the input length, plus, for a padded
    /// configuration whose input length is not a multiple of 8, the bytes of
    /// the extra partial tail.
    #[verifier::rlimit(80)]
    pub fn decode_to_slice(&self, output: &mut Vec<u8>, input: &[u8]) -> (r: Result<
        usize,
        DecodeError,
    >)
        requires
            spec_decode_capacity(input@.len() as int) <= old(output)@.len(),
        ensures
            final(output)@.len() == old(output)@.len(),
            (match r {
                Ok(written) => {
                    &&& spec_decode(*self, input@) is Ok
                    &&& written == spec_decode(*self, input@)->Ok_0.len()
                    &&& written <= final(output)@.len()
                    &&& final(output)@.subrange(0, written as int) == spec_decode(
                        *self,
                        input@,
                    )->Ok_0
                    &&& forall|j: int|
                        written <= j < final(output)@.len() ==> final(output)@[j] == old(
                            output,
                        )@[j]
                },
                Err(e) => spec_decode(*self, input@) == Err::<Seq<u8>, DecodeError>(e),
            }),
    {
        let m = input.len();
        let rem = m % 8;
        if rem == 1 || rem == 3 || rem == 6 {
            return Err(DecodeError::InvalidInputLength);
        }
        let ts: usize = if rem == 0 {
            if m == 0 {
                0
            } else {
                m - 8
            }
        } else {
            m - rem
        };
        let ghost a = self.alpha;
        let table = self.alpha.decode_table();
        let out_len = output.len();
        let mut input_index: usize = 0;
        let mut output_index: usize = 0;

        while input_index < ts
            invariant
                m == input@.len(),
                ts == tail_start(m as int),
                !invalid_length(m as int),
                ts <= m,
                ts % 8 == 0,
                input_index <= ts,
                input_index % 8 == 0,
                output_index == (input_index as int / 8) * 5,
                out_len == output@.len(),
                output@.len() == old(output)@.len(),
                spec_decode_capacity(m as int) <= out_len,
                a == self.alpha,
                table@.len() == 256,
                forall|b: int| 0 <= b < 256 ==> table@[b] == spec_quintet(a, b as u8),
                forall|j: int| 0 <= j < input_index ==> valid_symbol(a, #[trigger] input@[j]),
                output@.subrange(0, output_index as int) == decode_main(
                    a,
                    input@.take(input_index as int),
                ),
                forall|j: int| output_index <= j < output@.len() ==> output@[j] == old(output)@[j],
            decreases ts - input_index,
        {
            proof {
                lemma_fundamental_div_mod(input_index as int, 8);
                lemma_fundamental_div_mod(ts as int, 8);
                lemma_fundamental_div_mod_converse(
                    input_index as int + 8,
                    8,
                    input_index as int / 8 + 1,
                    0,
                );
            }
            match decode_chunk(self.alpha, &table, output, output_index, input, input_index) {
                Ok(()) => {},
                Err(e) => {
                    proof {
                        let chunk = input@.subrange(input_index as int, input_index as int + 8);
                        lemma_first_invalid_props(a, chunk);
                        let fi = first_invalid(a, chunk);
                        let i0 = input_index as int + fi;
                        lemma_count_before_pad_bounds(self.pad, input@.skip(ts as int));
                        let k = count_before_pad(self.pad, input@.skip(ts as int));
                        let consumed = ts as int + k;
                        assert forall|j: int| 0 <= j < i0 implies valid_symbol(
                            a,
                            #[trigger] input@[j],
                        ) by {
                            if j >= input_index {
                                assert(input@[j] == chunk[j - input_index]);
                            }
                        }
                        assert(!valid_symbol(a, input@[i0]));
                        assert(forall|j: int|
                            0 <= j < consumed ==> input@.take(consumed)[j] == #[trigger] input@[j]);
                        lemma_first_invalid_exact(a, input@.take(consumed), i0);
                        assert(spec_decode(*self, input@) == Err::<Seq<u8>, DecodeError>(e));
                    }
                    return Err(e);
                },
            }
            proof {
                let pre = input@.take(input_index as int);
                let chunk = input@.subrange(input_index as int, input_index as int + 8);
                assert(input@.take(input_index as int + 8) =~= pre + chunk);
                lemma_decode_main_append(a, pre, chunk);
                assert(chunk.skip(8) =~= Seq::<u8>::empty());
                assert(decode_main(a, chunk.skip(8)) =~= Seq::<u8>::empty());
                assert(decode_main(a, chunk) =~= decode_main(a, chunk) + Seq::<u8>::empty());
                assert(output@.subrange(0, output_index as int + 5) =~= decode_main(
                    a,
                    input@.take(input_index as int + 8),
                ));
            }
            output_index = output_index + 5;
            input_index = input_index + 8;
        }

        let tail_len = m - ts;
        let ghost tail = input@.skip(ts as int);
        let mut quints: Vec<u8> = vec![0u8; 8];
        let mut k: usize = 0;
        let mut stopped = false;

        while k < tail_len && !stopped
            invariant
                m == input@.len(),
                ts == tail_start(m as int),
                !invalid_length(m as int),
                ts <= m,
                ts % 8 == 0,
                tail_len == m - ts,
                tail_len <= 8,
                tail == input@.skip(ts as int),
                k <= tail_len,
                quints@.len() == 8,
                out_len == output@.len(),
                output@.len() == old(output)@.len(),
                spec_decode_capacity(m as int) <= out_len,
                a == self.alpha,
                table@.len() == 256,
                forall|b: int| 0 <= b < 256 ==> table@[b] == spec_quintet(a, b as u8),
                input_index == ts,
                output_index == (ts as int / 8) * 5,
                forall|j: int| 0 <= j < ts ==> valid_symbol(a, #[trigger] input@[j]),
                forall|j: int| 0 <= j < k ==> quints@[j] == spec_quintet(a, #[trigger] tail[j]),
                forall|j: int| k <= j < 8 ==> quints@[j] == 0,
                forall|j: int| 0 <= j < k ==> valid_symbol(a, #[trigger] tail[j]),
                forall|j: int|
                    0 <= j < k ==> !(self.pad is Some && #[trigger] tail[j] == self.pad->0),
                stopped ==> k < tail_len && self.pad is Some && tail[k as int] == self.pad->0,
                output@.subrange(0, output_index as int) == decode_main(a, input@.take(ts as int)),
                forall|j: int| output_index <= j < output@.len() ==> output@[j] == old(output)@[j],
            decreases tail_len - k, (if stopped {
                0int
            } else {
                1int
            }),
        {
            let b = input[ts + k];
            assert(b == tail[k as int]);
            let mut is_pad = false;
            match self.pad {
                Some(p) => {
                    if b == p {
                        is_pad = true;
                    }
                },
                None => {},
            }
            if is_pad {
                stopped = true;
            } else {
                let q = table[b as usize];
                if q == INVALID_BYTE {
                    proof {
                        let i0 = ts as int + k;
                        lemma_count_before_pad_at_least(self.pad, tail, k as int + 1);
                        lemma_count_before_pad_bounds(self.pad, tail);
                        let kk = count_before_pad(self.pad, tail);
                        let consumed = ts as int + kk;
                        assert(forall|j: int|
                            ts <= j < i0 ==> valid_symbol(a, #[trigger] input@[j]) || (
                            valid_symbol(a, tail[j - ts]) && tail[j - ts] == input@[j]));
                        assert(forall|j: int|
                            0 <= j < i0 ==> valid_symbol(a, #[trigger] input@[j]));
                        assert(!valid_symbol(a, input@[i0]));
                        assert(forall|j: int|
                            0 <= j < consumed ==> input@.take(consumed)[j] == #[trigger] input@[j]);
                        lemma_first_invalid_exact(a, input@.take(consumed), i0);
                        assert(spec_decode(*self, input@) == Err::<Seq<u8>, DecodeError>(
                            DecodeError::InvalidByte((ts + k) as usize, b),
                        ));
                    }
                    return Err(DecodeError::InvalidByte(ts + k, b));
                }
                quints.set(k, q);
                k = k + 1;
            }
        }

        proof {
            lemma_count_before_pad_exact(self.pad, tail, k as int);
            let consumed = ts as int + k;
            assert(forall|j: int|
                ts <= j < consumed ==> valid_symbol(a, #[trigger] input@[j]) || (valid_symbol(
                    a,
                    tail[j - ts],
                ) && tail[j - ts] == input@[j]));
            assert(forall|j: int| 0 <= j < consumed ==> valid_symbol(a, #[trigger] input@[j]));
            assert(forall|j: int|
                0 <= j < consumed ==> input@.take(consumed)[j] == #[trigger] input@[j]);
            lemma_first_invalid_exact(a, input@.take(consumed), consumed);
        }

        if k == 1 || k == 3 || k == 6 {
            return Err(DecodeError::InvalidInputLength);
        }

        let tb: usize = if k == 2 {
            1
        } else if k == 4 {
            2
        } else if k == 5 {
            3
        } else if k == 7 {
            4
        } else if k == 8 {
            5
        } else {
            0
        };

        let ghost consumed_tail = input@.subrange(ts as int, ts as int + k as int);
        proof {
            assert(consumed_tail.len() == k);
            assert(forall|j: int| 0 <= j < k ==> #[trigger] consumed_tail[j] == tail[j]);
            assert(tb as int == tail_byte_count(k as int));
        }

        if tb > 0 {
            let q0 = quints[0];
            let q1 = quints[1];
            let q2 = quints[2];
            let q3 = quints[3];
            let q4 = quints[4];
            let q5 = quints[5];
            let q6 = quints[6];
            let q7 = quints[7];
            output.set(output_index, (q0 << 3) | (q1 >> 2));
            if tb > 1 {
                output.set(output_index + 1, (q1 << 6) | (q2 << 1) | (q3 >> 4));
            }
            if tb > 2 {
                output.set(output_index + 2, (q3 << 4) | (q4 >> 1));
            }
            if tb > 3 {
                output.set(output_index + 3, (q4 << 7) | (q5 << 2) | (q6 >> 3));
            }
            if tb > 4 {
                output.set(output_index + 4, (q6 << 5) | q7);
            }
            proof {
                assert(output@.subrange(output_index as int, output_index as int + tb as int)
                    =~= tail_bytes(a, consumed_tail));
            }
            output_index = output_index + tb;
        } else {
            proof {
                assert(tail_bytes(a, consumed_tail) =~= Seq::<u8>::empty());
            }
        }

        proof {
            let spec_out = decode_main(a, input@.take(ts as int)) + tail_bytes(a, consumed_tail);
            assert(output@.subrange(0, output_index as int) =~= spec_out);
            assert(spec_decode(*self, input@) == Ok::<Seq<u8>, DecodeError>(spec_out));
        }
        Ok(output_index)
    }
}

/// Decodes one full chunk of 8 symbols starting at `input_index` into 5 bytes
/// starting at `output_index`, failing on the first input byte that is not a
/// symbol of the alphabet and leaving the output untouched in that case.
fn decode_chunk(
    alpha: Alphabet,
    table: &Vec<u8>,
    output: &mut Vec<u8>,
    output_index: usize,
    input: &[u8],
    input_index: usize,
) -> (r: Result<(), DecodeError>)
    requires
        table@.len() == 256,
        forall|b: int| 0 <= b < 256 ==> table@[b] == spec_quintet(alpha, b as u8),
        input_index + 8 <= input@.len(),
        output_index + 5 <= old(output)@.len(),
    ensures
        final(output)@.len() == old(output)@.len(),
        (match r {
            Ok(()) => {
                &&& forall|j: int|
                    input_index <= j < input_index + 8 ==> valid_symbol(
                        alpha,
                        #[trigger] input@[j],
                    )
                &&& final(output)@.subrange(output_index as int, output_index as int + 5)
                    == decode_main(
                    alpha,
                    input@.subrange(input_index as int, input_index as int + 8),
                )
                &&& forall|j: int|
                    0 <= j < final(output)@.len() && !(output_index <= j < output_index + 5)
                        ==> final(output)@[j] == old(output)@[j]
            },
            Err(e) => {
                let chunk = input@.subrange(input_index as int, input_index as int + 8);
                let fi = first_invalid(alpha, chunk);
                &&& final(output)@ == old(output)@
                &&& fi < 8
                &&& e == DecodeError::InvalidByte((input_index + fi) as usize, chunk[fi])
            },
        }),
{
    let ghost chunk = input@.subrange(input_index as int, input_index as int + 8);
    let out_len = output.len();
    let b0 = input[input_index];
    let b1 = input[input_index + 1];
    let b2 = input[input_index + 2];
    let b3 = input[input_index + 3];
    let b4 = input[input_index + 4];
    let b5 = input[input_index + 5];
    let b6 = input[input_index + 6];
    let b7 = input[input_index + 7];
    proof {
        assert(chunk[0] == b0 && chunk[1] == b1 && chunk[2] == b2 && chunk[3] == b3 && chunk[4]
            == b4 && chunk[5] == b5 && chunk[6] == b6 && chunk[7] == b7);
    }
    let q0 = table[b0 as usize];
    if q0 == INVALID_BYTE {
        proof {
            lemma_first_invalid_exact(alpha, chunk, 0);
        }
        return Err(DecodeError::InvalidByte(input_index, b0));
    }
    let q1 = table[b1 as usize];
    if q1 == INVALID_BYTE {
        proof {
            lemma_first_invalid_exact(alpha, chunk, 1);
        }
        return Err(DecodeError::InvalidByte(input_index + 1, b1));
    }
    let q2 = table[b2 as usize];
    if q2 == INVALID_BYTE {
        proof {
            lemma_first_invalid_exact(alpha, chunk, 2);
        }
        return Err(DecodeError::InvalidByte(input_index + 2, b2));
    }
    let q3 = table[b3 as usize];
    if q3 == INVALID_BYTE {
        proof {
            lemma_first_invalid_exact(alpha, chunk, 3);
        }
        return Err(DecodeError::InvalidByte(input_index + 3, b3));
    }
    let q4 = table[b4 as usize];
    if q4 == INVALID_BYTE {
        proof {
            lemma_first_invalid_exact(alpha, chunk, 4);
        }
        return Err(DecodeError::InvalidByte(input_index + 4, b4));
    }
    let q5 = table[b5 as usize];
    if q5 == INVALID_BYTE {
        proof {
            lemma_first_invalid_exact(alpha, chunk, 5);
        }
        return Err(DecodeError::InvalidByte(input_index + 5, b5));
    }
    let q6 = table[b6 as usize];
    if q6 == INVALID_BYTE {
        proof {
            lemma_first_invalid_exact(alpha, chunk, 6);
        }
        return Err(DecodeError::InvalidByte(input_index + 6, b6));
    }
    let q7 = table[b7 as usize];
    if q7 == INVALID_BYTE {
        proof {
            lemma_first_invalid_exact(alpha, chunk, 7);
        }
        return Err(DecodeError::InvalidByte(input_index + 7, b7));
    }
    output.set(output_index, (q0 << 3) | (q1 >> 2));
    output.set(output_index + 1, (q1 << 6) | (q2 << 1) | (q3 >> 4));
    output.set(output_index + 2, (q3 << 4) | (q4 >> 1));
    output.set(output_index + 3, (q4 << 7) | (q5 << 2) | (q6 >> 3));
    output.set(output_index + 4, (q6 << 5) | q7);
    proof {
        assert(chunk.skip(8) =~= Seq::<u8>::empty());
        assert(decode_main(alpha, chunk.skip(8)) =~= Seq::<u8>::empty());
        assert(decode_main(alpha, chunk) =~= chunk_bytes(
            spec_quintet(alpha, b0),
            spec_quintet(alpha, b1),
            spec_quintet(alpha, b2),
            spec_quintet(alpha, b3),
            spec_quintet(alpha, b4),
            spec_quintet(alpha, b5),
            spec_quintet(alpha, b6),
            spec_quintet(alpha, b7),
        ));
        assert(output@.subrange(output_index as int, output_index as int + 5) =~= decode_main(
            alpha,
            chunk,
        ));
    }
    Ok(())
}

/// The write bound of `decode_to_slice` never exceeds the documented size
/// estimate plus, for a padded configuration on a length that is not a
/// multiple of 8, the bytes of the extra partial tail; and that total fits in
/// `usize`.
pub proof fn lemma_decode_capacity(e: Encoding, m: int)
    requires
        0 <= m <= usize::MAX,
        e.pad is None ==> m * 5 <= usize::MAX,
    ensures
        spec_decode_capacity(m) <= spec_decoded_size(e, m) + pad_extra(e, m),
        spec_decoded_size(e, m) + pad_extra(e, m) <= usize::MAX,
{
    lemma_fundamental_div_mod(m, 8);
    let r = m % 8;
    let ts = tail_start(m);
    assert(ts % 8 == 0 && ts >= 0) by {
        if m % 8 == 0 && m > 0 {
            lemma_fundamental_div_mod_converse(m - 8, 8, m / 8 - 1, 0);
        } else if m % 8 != 0 {
            lemma_fundamental_div_mod_converse(m - r, 8, m / 8, 0);
        }
    }
    if m % 8 == 0 {
        if m == 0 {
        } else {
            lemma_fundamental_div_mod_converse(m - 8, 8, m / 8 - 1, 0);
        }
    } else {
        lemma_fundamental_div_mod_converse(m - r, 8, m / 8, 0);
    }
    lemma_div_is_ordered(m, usize::MAX as int, 8);
    if e.pad is None {
        // (ts / 8) * 5 + tail_byte_count(m - ts) <= (m * 5) / 8
        let w = ts / 8;
        if m % 8 == 0 {
            if m > 0 {
                lemma_fundamental_div_mod_converse(m * 5, 8, w * 5 + 5, 0);
            }
        } else if r == 2 {
            lemma_fundamental_div_mod_converse(m * 5, 8, w * 5 + 1, 2);
        } else if r == 4 {
            lemma_fundamental_div_mod_converse(m * 5, 8, w * 5 + 2, 4);
        } else if r == 5 {
            lemma_fundamental_div_mod_converse(m * 5, 8, w * 5 + 3, 1);
        } else if r == 7 {
            lemma_fundamental_div_mod_converse(m * 5, 8, w * 5 + 4, 3);
        } else if r == 1 {
            lemma_fundamental_div_mod_converse(m * 5, 8, w * 5, 5);
        } else if r == 3 {
            lemma_fundamental_div_mod_converse(m * 5, 8, w * 5 + 1, 7);
        } else {
            lemma_fundamental_div_mod_converse(m * 5, 8, w * 5 + 3, 6);
        }
        lemma_div_is_ordered(m * 5, usize::MAX as int, 8);
    } else {
        // (ts / 8) * 5 + tail_byte_count(m - ts) <= (m / 8) * 5 + pad_extra
    }
}

} // verus!
