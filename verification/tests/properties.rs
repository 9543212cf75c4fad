use base32::{crockford, extended_hex, standard, zbase32, Encoding};

fn configs() -> Vec<Encoding> {
    vec![
        standard(),
        extended_hex(),
        crockford(),
        zbase32(),
        standard().with_padding(None),
        standard().with_padding(Some(b'+')),
    ]
}

fn sample(len: usize) -> Vec<u8> {
    // a deterministic pattern covering all byte values over longer runs
    let mut v = Vec::with_capacity(len);
    let mut x: u8 = 7;
    for i in 0..len {
        x = x.wrapping_mul(31).wrapping_add(i as u8);
        v.push(x);
    }
    v
}

#[test]
fn round_trip_every_configuration() {
    // lengths that exercise the empty input, every remainder of the trailing
    // group, and several whole groups
    let lengths = [
        0usize, 1, 2, 3, 4, 5, 6, 7, 8, 9, 10, 14, 15, 16, 19, 20, 21, 24, 25, 39, 40, 41, 63,
        64, 100, 255,
    ];
    for e in configs() {
        for &len in lengths.iter() {
            let data = sample(len);
            let text = e.encode(&data);
            let back = e.decode(text.as_bytes()).expect("round trip must decode");
            assert_eq!(back, data);
        }
    }
}

#[test]
fn encode_to_slice_and_add_padding_match_encode() {
    let data = sample(11);
    let e = standard();
    let mut buf = vec![0u8; e.encoded_size(data.len())];
    let written = e.encode_to_slice(&mut buf, &data);
    let more = {
        let mut pad_buf = vec![0u8; buf.len() - written];
        let count = e.add_padding(&mut pad_buf, data.len());
        for i in 0..count {
            buf[written + i] = pad_buf[i];
        }
        count
    };
    assert_eq!(written + more, buf.len());
    assert_eq!(buf, e.encode(&data).into_bytes());
}

#[test]
fn decode_to_slice_matches_decode() {
    let e = crockford();
    let data = sample(23);
    let text = e.encode(&data);
    let mut buf = vec![0u8; e.decoded_size(text.len())];
    let written = e
        .decode_to_slice(&mut buf, text.as_bytes())
        .expect("valid text must decode");
    assert_eq!(&buf[..written], &data[..]);
}

#[test]
fn size_calculations_are_exact() {
    let padded = standard();
    let unpadded = crockford();
    // ceil(n / 5) * 8 with padding, ceil(n * 8 / 5) without
    let cases = [
        (0usize, 0usize, 0usize),
        (1, 8, 2),
        (2, 8, 4),
        (3, 8, 5),
        (4, 8, 7),
        (5, 8, 8),
        (6, 16, 10),
        (10, 16, 16),
        (11, 24, 18),
    ];
    for &(n, with_pad, without_pad) in cases.iter() {
        assert_eq!(padded.encoded_size(n), with_pad);
        assert_eq!(unpadded.encoded_size(n), without_pad);
    }
    // (m / 8) * 5 with padding, (m * 5) / 8 without
    assert_eq!(padded.decoded_size(0), 0);
    assert_eq!(padded.decoded_size(8), 5);
    assert_eq!(padded.decoded_size(16), 10);
    assert_eq!(padded.decoded_size(10), 5);
    assert_eq!(unpadded.decoded_size(0), 0);
    assert_eq!(unpadded.decoded_size(2), 1);
    assert_eq!(unpadded.decoded_size(7), 4);
    assert_eq!(unpadded.decoded_size(8), 5);
    assert_eq!(unpadded.decoded_size(16), 10);
}

#[test]
fn sizes_never_underestimate_and_grow_monotonically() {
    for e in configs() {
        let mut last_encoded = 0;
        for n in 0..200usize {
            let es = e.encoded_size(n);
            assert!(e.decoded_size(es) >= n);
            assert!(es >= last_encoded);
            last_encoded = es;
        }
    }
}

#[test]
fn padding_customization_matches_standard() {
    for len in 0..30usize {
        let data = sample(len);
        let padded = standard().encode(&data);
        let stripped = standard().with_padding(None).encode(&data);
        assert_eq!(padded.trim_end_matches('='), stripped);
        let swapped = standard().with_padding(Some(b'#')).encode(&data);
        assert_eq!(padded.replace('=', "#"), swapped);
    }
}

#[test]
fn add_padding_is_a_no_op_without_padding() {
    let mut buf = vec![0xaau8; 8];
    assert_eq!(crockford().add_padding(&mut buf, 3), 0);
    assert_eq!(buf, vec![0xaa; 8]);
    assert_eq!(standard().add_padding(&mut buf, 3), 3);
    assert_eq!(&buf[..3], b"===");
    assert_eq!(&buf[3..], [0xaa; 5]);
}

#[test]
fn to_slice_functions_leave_spare_buffer_bytes_untouched() {
    let e = standard();
    let mut buf = vec![0xaau8; 40];
    let written = e.encode_to_slice(&mut buf, b"fooba");
    assert_eq!(written, 8);
    assert_eq!(&buf[..8], b"MZXW6YTB");
    assert_eq!(&buf[8..], [0xaa; 32].as_slice());

    let mut out = vec![0xaau8; 40];
    let got = e.decode_to_slice(&mut out, b"MZXW6YTB").unwrap();
    assert_eq!(got, 5);
    assert_eq!(&out[..5], b"fooba");
    assert_eq!(&out[5..], [0xaa; 35].as_slice());
}

#[test]
fn padded_text_without_block_alignment_still_decodes() {
    // ten valid symbols under a padded configuration: the final two symbols
    // form an extra partial group beyond the size estimate
    let decoded = standard().decode(b"MZXW6YTBMZ").expect("valid symbols");
    assert_eq!(decoded, b"foobaf");
}

#[test]
fn junk_after_padding_is_ignored() {
    // consumption of the tail stops at the first padding byte
    let decoded = standard().decode(b"MY==\x07!**").expect("pad ends the data");
    assert_eq!(decoded, b"f");
}
