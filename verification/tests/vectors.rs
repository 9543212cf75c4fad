use base32::DecodeError;
use base32::{crockford, extended_hex, standard, zbase32};

#[test]
fn rfc4648_test_vectors_encode() {
    assert_eq!(standard().encode(b""), "");
    assert_eq!(standard().encode(b"f"), "MY======");
    assert_eq!(standard().encode(b"fo"), "MZXQ====");
    assert_eq!(standard().encode(b"foo"), "MZXW6===");
    assert_eq!(standard().encode(b"foob"), "MZXW6YQ=");
    assert_eq!(standard().encode(b"fooba"), "MZXW6YTB");
    assert_eq!(standard().encode(b"foobar"), "MZXW6YTBOI======");

    assert_eq!(extended_hex().encode(b""), "");
    assert_eq!(extended_hex().encode(b"f"), "CO======");
    assert_eq!(extended_hex().encode(b"fo"), "CPNG====");
    assert_eq!(extended_hex().encode(b"foo"), "CPNMU===");
    assert_eq!(extended_hex().encode(b"foob"), "CPNMUOG=");
    assert_eq!(extended_hex().encode(b"fooba"), "CPNMUOJ1");
    assert_eq!(extended_hex().encode(b"foobar"), "CPNMUOJ1E8======");

    assert_eq!(crockford().encode(b""), "");
    assert_eq!(crockford().encode(b"f"), "CR");
    assert_eq!(crockford().encode(b"fo"), "CSQG");
    assert_eq!(crockford().encode(b"foo"), "CSQPY");
    assert_eq!(crockford().encode(b"foob"), "CSQPYRG");
    assert_eq!(crockford().encode(b"fooba"), "CSQPYRK1");
    assert_eq!(crockford().encode(b"foobar"), "CSQPYRK1E8");

    assert_eq!(zbase32().encode(b""), "");
    assert_eq!(zbase32().encode(b"f"), "ca");
    assert_eq!(zbase32().encode(b"fo"), "c3zo");
    assert_eq!(zbase32().encode(b"foo"), "c3zs6");
    assert_eq!(zbase32().encode(b"foob"), "c3zs6ao");
    assert_eq!(zbase32().encode(b"fooba"), "c3zs6aub");
    assert_eq!(zbase32().encode(b"foobar"), "c3zs6aubqe");
}

#[test]
fn rfc4648_test_vectors_decode() -> Result<(), DecodeError> {
    assert_eq!(standard().decode(b"")?, b"");
    assert_eq!(standard().decode(b"MY======")?, b"f");
    assert_eq!(standard().decode(b"MZXQ====")?, b"fo");
    assert_eq!(standard().decode(b"MZXW6===")?, b"foo");
    assert_eq!(standard().decode(b"MZXW6YQ=")?, b"foob");
    assert_eq!(standard().decode(b"MZXW6YTB")?, b"fooba");
    assert_eq!(standard().decode(b"MZXW6YTBOI======")?, b"foobar");

    assert_eq!(extended_hex().decode(b"")?, b"");
    assert_eq!(extended_hex().decode(b"CO======")?, b"f");
    assert_eq!(extended_hex().decode(b"CPNG====")?, b"fo");
    assert_eq!(extended_hex().decode(b"CPNMU===")?, b"foo");
    assert_eq!(extended_hex().decode(b"CPNMUOG=")?, b"foob");
    assert_eq!(extended_hex().decode(b"CPNMUOJ1")?, b"fooba");
    assert_eq!(extended_hex().decode(b"CPNMUOJ1E8======")?, b"foobar");

    assert_eq!(crockford().decode(b"")?, b"");
    assert_eq!(crockford().decode(b"CR")?, b"f");
    assert_eq!(crockford().decode(b"CSQG")?, b"fo");
    assert_eq!(crockford().decode(b"CSQPY")?, b"foo");
    assert_eq!(crockford().decode(b"CSQPYRG")?, b"foob");
    assert_eq!(crockford().decode(b"CSQPYRK1")?, b"fooba");
    assert_eq!(crockford().decode(b"CSQPYRK1E8")?, b"foobar");

    assert_eq!(zbase32().decode(b"")?, b"");
    assert_eq!(zbase32().decode(b"ca")?, b"f");
    assert_eq!(zbase32().decode(b"c3zo")?, b"fo");
    assert_eq!(zbase32().decode(b"c3zs6")?, b"foo");
    assert_eq!(zbase32().decode(b"c3zs6ao")?, b"foob");
    assert_eq!(zbase32().decode(b"c3zs6aub")?, b"fooba");
    assert_eq!(zbase32().decode(b"c3zs6aubqe")?, b"foobar");

    Ok(())
}

#[test]
fn custom_padding_encode() {
    let original = standard().encode(b"foobar");

    assert_eq!(
        original.trim_end_matches('='),
        standard().with_padding(None).encode(b"foobar")
    );
    assert_eq!(
        original.replace('=', "+"),
        standard().with_padding(Some(b'+')).encode(b"foobar"),
    );
}

#[test]
fn custom_padding_decode() {
    let original = standard().encode(b"foobar");

    assert!(standard()
        .with_padding(None)
        .decode(original.trim_end_matches('=').as_bytes())
        .is_ok());
    assert!(standard()
        .with_padding(Some(b'+'))
        .decode(original.replace('=', "+").as_bytes())
        .is_ok());
}

#[test]
fn default_and_free_functions_use_standard() {
    let e = base32::Encoding::default();
    assert_eq!(e.encode(b"foobar"), "MZXW6YTBOI======");
    assert_eq!(base32::encode(b"foobar"), "MZXW6YTBOI======");
    assert_eq!(base32::decode(b"MZXW6YTBOI======").unwrap(), b"foobar");
}
