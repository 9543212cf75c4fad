use vstd::prelude::*;

use vstd::arithmetic::div_mod::{
    lemma_div_is_ordered,
    lemma_fundamental_div_mod,
    lemma_fundamental_div_mod_converse,
};

use crate::Alphabet;
use crate::Encoding;
use crate::decode::{
    count_before_pad,
    decode_main,
    invalid_length,
    lemma_count_before_pad_exact,
    lemma_decode_main_append,
    lemma_first_invalid_exact,
    spec_decode,
    spec_decoded_size,
    tail_bytes,
    tail_start,
    DecodeError,
};
use crate::encode::{
    chunk_quintets,
    data_quintets,
    encoded_symbols,
    encoded_text,
    lemma_data_quintets_props,
    lemma_encoded_symbols_append,
    lemma_padded_size,
    lemma_quintet_count_split,
    pad_count,
    quintet_count,
    spec_encoded_size,
};
use crate::tables::{lemma_table_bijection, spec_symbol, valid_symbol};

verus! {

/// A configuration whose padding byte, if there is one, is not a symbol of
/// its own alphabet. All four built-in configurations qualify: `=` belongs to
/// no alphabet. A padding byte drawn from the alphabet makes encoded texts
/// ambiguous, and decoding cannot then restore every input.
pub open spec fn pad_outside_alphabet(e: Encoding) -> bool {
    match e.pad {
        Some(p) => !valid_symbol(e.alpha, p),
        None => true,
    }
}

/// Packing eight 5-bit values from five bytes and unpacking them again gives
/// back exactly those bytes.
proof fn lemma_chunk_round_trip(b0: u8, b1: u8, b2: u8, b3: u8, b4: u8)
    ensures
        ({
            let q = chunk_quintets(b0, b1, b2, b3, b4);
            crate::decode::chunk_bytes(q[0], q[1], q[2], q[3], q[4], q[5], q[6], q[7]) == seq![
                b0,
                b1,
                b2,
                b3,
                b4,
            ]
        }),
{
    assert((((b0 >> 3) << 3) | ((((b0 << 2) | (b1 >> 6)) & 31) >> 2)) == b0 && (((((b0 << 2) | (b1
        >> 6)) & 31) << 6) | (((b1 >> 1) & 31) << 1) | ((((b1 << 4) | (b2 >> 4)) & 31) >> 4)) == b1
        && (((((b1 << 4) | (b2 >> 4)) & 31) << 4) | ((((b2 << 1) | (b3 >> 7)) & 31) >> 1)) == b2
        && (((((b2 << 1) | (b3 >> 7)) & 31) << 7) | (((b3 >> 2) & 31) << 2) | ((((b3 << 3) | (b4
        >> 5)) & 31) >> 3)) == b3 && (((((b3 << 3) | (b4 >> 5)) & 31) << 5) | (b4 & 31)) == b4)
        by (bit_vector);
    let q = chunk_quintets(b0, b1, b2, b3, b4);
    assert(crate::decode::chunk_bytes(q[0], q[1], q[2], q[3], q[4], q[5], q[6], q[7]) =~= seq![
        b0,
        b1,
        b2,
        b3,
        b4,
    ]);
}

/// The 5-bit values of a group whose trailing bytes are zero are themselves
/// zero from the first value that draws only on those bytes.
proof fn lemma_quintets_of_zeros(b1: u8, b2: u8, b3: u8)
    ensures
        b1 == 0 ==> (b1 >> 1) & 31 == 0,
        b1 == 0 && b2 == 0 ==> ((b1 << 4) | (b2 >> 4)) & 31 == 0,
        b2 == 0 && b3 == 0 ==> ((b2 << 1) | (b3 >> 7)) & 31 == 0,
        b3 == 0 ==> (b3 >> 2) & 31 == 0,
        b3 == 0 ==> ((b3 << 3) | (0u8 >> 5)) & 31 == 0,
        0u8 & 31 == 0,
{
    assert((b1 == 0 ==> (b1 >> 1) & 31 == 0) && (b1 == 0 && b2 == 0 ==> ((b1 << 4) | (b2 >> 4))
        & 31 == 0) && (b2 == 0 && b3 == 0 ==> ((b2 << 1) | (b3 >> 7)) & 31 == 0) && (b3 == 0 ==> (
    b3 >> 2) & 31 == 0) && (b3 == 0 ==> ((b3 << 3) | (0u8 >> 5)) & 31 == 0) && 0u8 & 31 == 0)
        by (bit_vector);
}

/// Every symbol of an encoded text is a valid symbol of the alphabet, its
/// 5-bit value is the one it was encoded from, and it differs from the
/// padding byte of any configuration that keeps its padding byte outside the
/// alphabet.
proof fn lemma_encoded_symbols_valid(e: Encoding, s: Seq<u8>)
    requires
        pad_outside_alphabet(e),
    ensures
        forall|i: int|
            0 <= i < encoded_symbols(e.alpha, s).len() ==> {
                let b = #[trigger] encoded_symbols(e.alpha, s)[i];
                valid_symbol(e.alpha, b) && crate::tables::spec_quintet(e.alpha, b)
                    == data_quintets(s)[i] && !(e.pad is Some && b == e.pad->0)
            },
{
    lemma_data_quintets_props(s);
    lemma_table_bijection(e.alpha);
    assert forall|i: int| 0 <= i < encoded_symbols(e.alpha, s).len() implies {
        let b = #[trigger] encoded_symbols(e.alpha, s)[i];
        valid_symbol(e.alpha, b) && crate::tables::spec_quintet(e.alpha, b) == data_quintets(s)[i]
            && !(e.pad is Some && b == e.pad->0)
    } by {
        let q = data_quintets(s)[i];
        assert(q < 32);
        assert(encoded_symbols(e.alpha, s)[i] == spec_symbol(e.alpha, q));
        assert(crate::tables::spec_quintet(e.alpha, crate::tables::symbol_seq(e.alpha)[q as int])
            == q);
    }
}

/// Decoding the symbols of any whole number of 5-byte groups gives back
/// exactly those bytes.
proof fn lemma_decode_encoded_chunks(a: Alphabet, s: Seq<u8>)
    requires
        s.len() % 5 == 0,
    ensures
        encoded_symbols(a, s).len() == quintet_count(s.len() as int),
        encoded_symbols(a, s).len() % 8 == 0,
        decode_main(a, encoded_symbols(a, s)) == s,
    decreases s.len(),
{
    lemma_table_bijection(a);
    lemma_data_quintets_props(s);
    lemma_quintet_count_split(s.len() as int);
    if s.len() == 0 {
        assert(encoded_symbols(a, s) =~= Seq::<u8>::empty());
        assert(decode_main(a, encoded_symbols(a, s)) =~= s);
    } else {
        assert(s.len() >= 5);
        let c = s.take(5);
        let rest = s.skip(5);
        assert(s =~= c + rest);
        assert(rest.len() % 5 == 0) by {
            lemma_fundamental_div_mod(s.len() as int, 5);
            lemma_fundamental_div_mod_converse(s.len() - 5, 5, s.len() as int / 5 - 1, 0);
        }
        lemma_encoded_symbols_append(a, c, rest);
        let cs = encoded_symbols(a, c);
        let rs = encoded_symbols(a, rest);
        lemma_data_quintets_props(c);
        lemma_quintet_count_split(5);
        assert(cs.len() == 8) by {
            lemma_fundamental_div_mod_converse(44int, 5, 8, 4);
        }
        lemma_decode_encoded_chunks(a, rest);
        lemma_decode_main_append(a, cs, rs);
        // the head group inverts byte for byte
        assert(c.skip(5) =~= Seq::<u8>::empty());
        assert(data_quintets(c.skip(5)) =~= Seq::<u8>::empty());
        assert(data_quintets(c) =~= chunk_quintets(c[0], c[1], c[2], c[3], c[4]));
        let q = chunk_quintets(c[0], c[1], c[2], c[3], c[4]);
        assert forall|i: int| 0 <= i < 8 implies crate::tables::spec_quintet(
            a,
            #[trigger] cs[i],
        ) == q[i] by {
            assert(q[i] < 32);
            assert(cs[i] == spec_symbol(a, q[i]));
        }
        assert(cs.skip(8) =~= Seq::<u8>::empty());
        assert(decode_main(a, cs.skip(8)) =~= Seq::<u8>::empty());
        lemma_chunk_round_trip(c[0], c[1], c[2], c[3], c[4]);
        assert(decode_main(a, cs) =~= crate::decode::chunk_bytes(
            crate::tables::spec_quintet(a, cs[0]),
            crate::tables::spec_quintet(a, cs[1]),
            crate::tables::spec_quintet(a, cs[2]),
            crate::tables::spec_quintet(a, cs[3]),
            crate::tables::spec_quintet(a, cs[4]),
            crate::tables::spec_quintet(a, cs[5]),
            crate::tables::spec_quintet(a, cs[6]),
            crate::tables::spec_quintet(a, cs[7]),
        ));
        assert(decode_main(a, cs) =~= c);
        assert(decode_main(a, encoded_symbols(a, s)) =~= s);
    }
}

/// The consumed symbols of an encoded trailing group decode back to exactly
/// the bytes of that group.
proof fn lemma_decode_encoded_tail(a: Alphabet, c: Seq<u8>)
    requires
        1 <= c.len() <= 5,
    ensures
        tail_bytes(a, encoded_symbols(a, c)) == c,
{
    lemma_table_bijection(a);
    lemma_data_quintets_props(c);
    lemma_quintet_count_split(c.len() as int);
    let t = encoded_symbols(a, c);
    let dq = data_quintets(c);
    let c0 = c[0];
    let c1 = if c.len() > 1 {
        c[1]
    } else {
        0u8
    };
    let c2 = if c.len() > 2 {
        c[2]
    } else {
        0u8
    };
    let c3 = if c.len() > 3 {
        c[3]
    } else {
        0u8
    };
    let c4 = if c.len() > 4 {
        c[4]
    } else {
        0u8
    };
    let full = chunk_quintets(c0, c1, c2, c3, c4);
    assert(c.len() == 5 ==> c.skip(5) =~= Seq::<u8>::empty() && data_quintets(c.skip(5)) =~= Seq::<
        u8,
    >::empty());
    assert(dq =~= full.take(quintet_count(c.len() as int)));
    let cr = t.len() as int;
    assert(cr == quintet_count(c.len() as int));
    assert forall|i: int| 0 <= i < cr implies crate::tables::spec_quintet(a, #[trigger] t[i])
        == full[i] by {
        assert(dq[i] < 32);
        assert(t[i] == spec_symbol(a, dq[i]));
        assert(dq[i] == full[i]);
    }
    lemma_quintets_of_zeros(c1, c2, c3);
    assert(forall|i: int| cr <= i < 8 ==> #[trigger] full[i] == 0);
    lemma_chunk_round_trip(c0, c1, c2, c3, c4);
    assert(tail_bytes(a, t) =~= c);
}

/// Round trip: decoding the encoded text of any byte sequence gives back
/// exactly that sequence, for every configuration whose padding byte stays
/// outside its alphabet.
#[verifier::rlimit(100)]
pub proof fn lemma_round_trip(e: Encoding, s: Seq<u8>)
    requires
        pad_outside_alphabet(e),
    ensures
        spec_decode(e, encoded_text(e, s)) == Ok::<Seq<u8>, DecodeError>(s),
{
    let a = e.alpha;
    let n = s.len() as int;
    let u = encoded_text(e, s);
    let syms = encoded_symbols(a, s);
    lemma_data_quintets_props(s);
    lemma_table_bijection(a);
    lemma_quintet_count_split(n);
    lemma_padded_size(n);
    lemma_encoded_symbols_valid(e, s);

    if n == 0 {
        assert(data_quintets(s) =~= Seq::<u8>::empty());
        assert(syms =~= Seq::<u8>::empty());
        assert(u =~= Seq::<u8>::empty());
        assert(count_before_pad(e.pad, u.skip(0)) == 0) by {
            assert(u.skip(0) =~= Seq::<u8>::empty());
        }
        assert(u.take(0) =~= Seq::<u8>::empty());
        assert(decode_main(a, u.take(0)) =~= Seq::<u8>::empty());
        assert(u.subrange(0, 0) =~= Seq::<u8>::empty());
        assert(tail_bytes(a, u.subrange(0, 0)) =~= Seq::<u8>::empty()) by {
            assert(crate::decode::tail_byte_count(0) == 0);
        }
        assert(spec_decode(e, u)->Ok_0 =~= s);
    } else {
        lemma_fundamental_div_mod(n, 5);
        let r = n % 5;
        let full_len: int = if r == 0 {
            n - 5
        } else {
            n - r
        };
        let head = s.take(full_len);
        let c = s.skip(full_len);
        assert(head.len() == full_len && c.len() == n - full_len);
        assert(full_len % 5 == 0) by {
            if r == 0 {
                lemma_fundamental_div_mod_converse(n - 5, 5, n / 5 - 1, 0);
            } else {
                lemma_fundamental_div_mod_converse(n - r, 5, n / 5, 0);
            }
        }
        assert(s =~= head + c);
        lemma_encoded_symbols_append(a, head, c);
        lemma_decode_encoded_chunks(a, head);
        let hsyms = encoded_symbols(a, head);
        let csyms = encoded_symbols(a, c);
        lemma_data_quintets_props(c);
        lemma_quintet_count_split(c.len() as int);
        let ts = hsyms.len() as int;
        let cr = csyms.len() as int;
        assert(cr == quintet_count(c.len() as int));
        assert(c.len() == 5 ==> cr == 8) by {
            lemma_fundamental_div_mod_converse(44int, 5, 8, 4);
        }
        assert(cr == 2 || cr == 4 || cr == 5 || cr == 7 || cr == 8);
        assert(syms == hsyms + csyms);

        // the length and the block structure of the text
        let m = u.len() as int;
        let padc = pad_count(n);
        assert(c.len() < 5 ==> padc + cr == 8);
        assert(c.len() == 5 ==> padc == 0);
        lemma_fundamental_div_mod(ts, 8);
        if e.pad is Some {
            assert(m == ts + cr + padc);
            assert(m == ts + 8);
            assert(m % 8 == 0) by {
                lemma_fundamental_div_mod_converse(m, 8, ts / 8 + 1, 0);
            }
            assert(tail_start(m) == ts);
        } else {
            assert(m == ts + cr);
            if cr == 8 {
                assert(m % 8 == 0) by {
                    lemma_fundamental_div_mod_converse(m, 8, ts / 8 + 1, 0);
                }
                assert(tail_start(m) == ts);
            } else {
                assert(m % 8 == cr) by {
                    lemma_fundamental_div_mod_converse(m, 8, ts / 8, cr);
                }
                assert(tail_start(m) == ts);
            }
        }
        assert(!invalid_length(m));

        // the main region is the symbols of the whole groups
        assert(u.take(ts) =~= hsyms);

        // the tail: the symbols of the trailing group, then padding
        let tail = u.skip(ts);
        assert forall|j: int| 0 <= j < cr implies #[trigger] tail[j] == csyms[j] by {
            assert(tail[j] == u[ts + j]);
            assert(u[ts + j] == syms[ts + j]);
        }
        assert(cr < tail.len() ==> e.pad is Some && tail[cr] == e.pad->0);
        assert forall|j: int| 0 <= j < cr implies !(e.pad is Some && #[trigger] tail[j]
            == e.pad->0) by {
            assert(csyms[j] == syms[ts + j]);
        }
        lemma_count_before_pad_exact(e.pad, tail, cr);

        // every consumed byte is a symbol
        let consumed = ts + cr;
        assert forall|j: int| 0 <= j < consumed implies valid_symbol(
            a,
            #[trigger] u.take(consumed)[j],
        ) by {
            assert(u.take(consumed)[j] == u[j]);
            assert(u[j] == syms[j]);
        }
        lemma_first_invalid_exact(a, u.take(consumed), consumed);

        // the decoded value
        assert(u.subrange(ts, ts + cr) =~= csyms);
        lemma_decode_encoded_tail(a, c);
        assert(spec_decode(e, u)->Ok_0 == decode_main(a, hsyms) + tail_bytes(a, csyms));
        assert(decode_main(a, hsyms) + tail_bytes(a, csyms) =~= s);
    }
}

/// Sizing a decode buffer from `decoded_size` of `encoded_size` never
/// underestimates the original length.
pub proof fn lemma_size_round_trip(e: Encoding, n: int)
    requires
        n >= 0,
    ensures
        spec_decoded_size(e, spec_encoded_size(e, n)) >= n,
{
    if e.pad is Some {
        let q = (n + 4) / 5;
        lemma_fundamental_div_mod(n + 4, 5);
        lemma_fundamental_div_mod_converse(q * 8, 8, q, 0);
    } else {
        let es = (n * 8 + 4) / 5;
        lemma_fundamental_div_mod(n * 8 + 4, 5);
        assert(es * 5 >= n * 8);
        lemma_div_is_ordered(n * 8, es * 5, 8);
        lemma_fundamental_div_mod_converse(n * 8, 8, n, 0);
    }
}

/// `encoded_size` never shrinks as the input length grows.
pub proof fn lemma_encoded_size_monotone(e: Encoding, n1: int, n2: int)
    requires
        0 <= n1 <= n2,
    ensures
        spec_encoded_size(e, n1) <= spec_encoded_size(e, n2),
{
    if e.pad is Some {
        lemma_div_is_ordered(n1 + 4, n2 + 4, 5);
    } else {
        lemma_div_is_ordered(n1 * 8 + 4, n2 * 8 + 4, 5);
    }
}

/// Any input whose length leaves a remainder of 1, 3 or 6 modulo 8 is
/// rejected as `InvalidInputLength`, for every configuration.
pub proof fn lemma_invalid_length_rejected(e: Encoding, u: Seq<u8>)
    requires
        invalid_length(u.len() as int),
    ensures
        spec_decode(e, u) == Err::<Seq<u8>, DecodeError>(DecodeError::InvalidInputLength),
{
}

/// The first consumed byte that is not a symbol of the alphabet is reported
/// as `InvalidByte` with its exact position and value. Bytes at or after the
/// first padding byte of the tail are not consumed and so are never reported.
pub proof fn lemma_invalid_byte_rejected(e: Encoding, u: Seq<u8>, i: int)
    requires
        !invalid_length(u.len() as int),
        0 <= i < tail_start(u.len() as int) + count_before_pad(
            e.pad,
            u.skip(tail_start(u.len() as int)),
        ),
        !valid_symbol(e.alpha, u[i]),
        forall|j: int| 0 <= j < i ==> valid_symbol(e.alpha, #[trigger] u[j]),
    ensures
        spec_decode(e, u) == Err::<Seq<u8>, DecodeError>(
            DecodeError::InvalidByte(i as usize, u[i]),
        ),
{
    let m = u.len() as int;
    let ts = tail_start(m);
    let k = count_before_pad(e.pad, u.skip(ts));
    crate::decode::lemma_count_before_pad_bounds(e.pad, u.skip(ts));
    let consumed = ts + k;
    assert(consumed <= m);
    assert forall|j: int| 0 <= j < i implies valid_symbol(
        e.alpha,
        #[trigger] u.take(consumed)[j],
    ) by {
        assert(u.take(consumed)[j] == u[j]);
    }
    assert(u.take(consumed)[i] == u[i]);
    lemma_first_invalid_exact(e.alpha, u.take(consumed), i);
}

/// Disabling padding yields exactly the encoded text with its padding
/// stripped: the symbols alone.
pub proof fn lemma_padding_stripped(e: Encoding, s: Seq<u8>)
    ensures
        encoded_text((Encoding { alpha: e.alpha, pad: None }), s) == encoded_text(e, s).take(
            quintet_count(s.len() as int),
        ),
{
    lemma_data_quintets_props(s);
    assert(encoded_text((Encoding { alpha: e.alpha, pad: None }), s) =~= encoded_text(e, s).take(
        quintet_count(s.len() as int),
    ));
}

/// Substituting one padding byte for another changes exactly the padding
/// positions of the encoded text: the symbols stay, each padding byte is
/// replaced.
pub proof fn lemma_padding_replaced(e: Encoding, p1: u8, p2: u8, s: Seq<u8>)
    ensures
        ({
            let t1 = encoded_text((Encoding { alpha: e.alpha, pad: Some(p1) }), s);
            let t2 = encoded_text((Encoding { alpha: e.alpha, pad: Some(p2) }), s);
            let qc = quintet_count(s.len() as int);
            &&& t1.len() == t2.len()
            &&& forall|i: int| 0 <= i < qc ==> t1[i] == #[trigger] t2[i]
            &&& forall|i: int| qc <= i < t1.len() ==> #[trigger] t1[i] == p1 && t2[i] == p2
        }),
{
    lemma_data_quintets_props(s);
}

} // verus!
