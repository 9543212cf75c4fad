use base32::{crockford, extended_hex, standard, zbase32, DecodeError, Encoding};

fn configs() -> Vec<Encoding> {
    vec![standard(), extended_hex(), crockford(), zbase32()]
}

#[test]
fn invalid_lengths_are_rejected_for_every_alphabet() {
    // any length that is 1, 3 or 6 modulo 8 can never be well formed
    let lengths = [1usize, 3, 6, 9, 11, 14, 17, 19, 22];
    for e in configs() {
        for &len in lengths.iter() {
            let input = vec![b'A'; len];
            assert!(matches!(
                e.decode(&input),
                Err(DecodeError::InvalidInputLength)
            ));
        }
    }
}

#[test]
fn invalid_bytes_are_reported_with_position_and_value() {
    // '0' is not in the standard alphabet
    assert!(matches!(
        standard().decode(b"MZ0W6YTB"),
        Err(DecodeError::InvalidByte(2, b'0'))
    ));
    // lowercase is not in the standard alphabet
    assert!(matches!(
        standard().decode(b"mY======"),
        Err(DecodeError::InvalidByte(0, b'm'))
    ));
    // 'W' is not in the extended-hex alphabet
    assert!(matches!(
        extended_hex().decode(b"CPNMUOJW"),
        Err(DecodeError::InvalidByte(7, b'W'))
    ));
    // 'U' is excluded from Crockford's alphabet
    assert!(matches!(
        crockford().decode(b"CSQPYRKU"),
        Err(DecodeError::InvalidByte(7, b'U'))
    ));
    // uppercase is not in the z-base-32 alphabet
    assert!(matches!(
        zbase32().decode(b"C3zs6aub"),
        Err(DecodeError::InvalidByte(0, b'C'))
    ));
    // the first offender wins, also beyond the first chunk
    assert!(matches!(
        standard().decode(b"MZXW6YTBMZXW6YTB\xffZXW6YTBMZXW6YTB"),
        Err(DecodeError::InvalidByte(16, 0xff))
    ));
}

#[test]
fn padding_where_a_symbol_is_expected_is_invalid() {
    // a pad byte inside a full chunk is not a symbol
    assert!(matches!(
        standard().decode(b"MY======MZXW6YTB"),
        Err(DecodeError::InvalidByte(2, b'='))
    ));
    // a pad that cuts the tail to 1, 3 or 6 symbols leaves an impossible
    // group length
    assert!(matches!(
        standard().decode(b"M======="),
        Err(DecodeError::InvalidInputLength)
    ));
    assert!(matches!(
        standard().decode(b"MZX====="),
        Err(DecodeError::InvalidInputLength)
    ));
    assert!(matches!(
        standard().decode(b"MZXW6Y=="),
        Err(DecodeError::InvalidInputLength)
    ));
}

#[test]
fn arbitrary_inputs_never_panic() {
    // a crude generator over many lengths and byte patterns: every outcome
    // must be a success or one of the two documented errors
    for e in configs() {
        for len in 0..48usize {
            let mut x: u8 = 91;
            let input: Vec<u8> = (0..len)
                .map(|i| {
                    x = x.wrapping_mul(167).wrapping_add(i as u8 ^ 0x5a);
                    x
                })
                .collect();
            match e.decode(&input) {
                Ok(_) => {}
                Err(DecodeError::InvalidByte(pos, b)) => {
                    assert!(pos < input.len());
                    assert_eq!(input[pos], b);
                }
                Err(DecodeError::InvalidInputLength) => {}
            }
        }
    }
}

#[test]
fn whole_alphabets_decode_to_their_indices() {
    let tables: [(Encoding, &[u8; 32]); 4] = [
        (standard(), b"ABCDEFGHIJKLMNOPQRSTUVWXYZ234567"),
        (extended_hex(), b"0123456789ABCDEFGHIJKLMNOPQRSTUV"),
        (crockford(), b"0123456789ABCDEFGHJKMNPQRSTVWXYZ"),
        (zbase32(), b"ybndrfg8ejkmcpqxot1uwisza345h769"),
    ];
    for (e, table) in tables.iter() {
        // encoding the 5-bit values 0..32 walks the whole symbol table
        let data: Vec<u8> = vec![
            0x00, 0x44, 0x32, 0x14, 0xc7, 0x42, 0x54, 0xb6, 0x35, 0xcf, 0x84, 0x65, 0x3a, 0x56,
            0xd7, 0xc6, 0x75, 0xbe, 0x77, 0xdf,
        ];
        let text = e.encode(&data);
        assert_eq!(text.as_bytes(), *table);
        assert_eq!(e.decode(text.as_bytes()).unwrap(), data);
    }
}
