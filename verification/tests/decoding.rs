use tiny2fa::{decode, DecodeError};

#[test]
fn decodes_rfc4648_vectors() {
    assert_eq!(decode(""), Ok(vec![]));
    assert_eq!(decode("MY======"), Ok(b"f".to_vec()));
    assert_eq!(decode("MZXQ===="), Ok(b"fo".to_vec()));
    assert_eq!(decode("MZXW6==="), Ok(b"foo".to_vec()));
    assert_eq!(decode("MZXW6YQ="), Ok(b"foob".to_vec()));
    assert_eq!(decode("MZXW6YTB"), Ok(b"fooba".to_vec()));
    assert_eq!(decode("MZXW6YTBOI======"), Ok(b"foobar".to_vec()));
}

#[test]
fn decodes_unpadded_full_blocks() {
    assert_eq!(
        decode("JBSWY3DPEHPK3PXP"),
        Ok(vec![0x48, 0x65, 0x6c, 0x6c, 0x6f, 0x21, 0xde, 0xad, 0xbe, 0xef])
    );
}

#[test]
fn rejects_characters_outside_the_alphabet() {
    assert_eq!(decode("12300000"), Err(DecodeError::InvalidEncoding));
    assert_eq!(decode("MZXW6=T="), Err(DecodeError::InvalidEncoding));
    assert_eq!(decode("mzxw6==="), Err(DecodeError::InvalidEncoding));
    assert_eq!(decode("MZXW6YT\u{e9}"), Err(DecodeError::InvalidEncoding));
}

#[test]
fn rejects_malformed_padding() {
    assert_eq!(decode("1230"), Err(DecodeError::InvalidEncoding));
    assert_eq!(decode("MZXW6"), Err(DecodeError::InvalidEncoding));
    assert_eq!(decode("M======="), Err(DecodeError::InvalidEncoding));
    assert_eq!(decode("========"), Err(DecodeError::InvalidEncoding));
    assert_eq!(decode("=A======"), Err(DecodeError::InvalidEncoding));
    assert_eq!(decode("MZXW6===MZXW6YTB"), Err(DecodeError::InvalidEncoding));
}

#[test]
fn agrees_with_the_base32_crate_on_valid_input() {
    let alphabet = base32::Alphabet::Rfc4648 { padding: true };
    for encoded in [
        "",
        "MY======",
        "MZXQ====",
        "MZXW6===",
        "MZXW6YQ=",
        "MZXW6YTB",
        "MZXW6YTBOI======",
        "JBSWY3DPEHPK3PXP",
        "GEZDGNBVGY3TQOJQGEZDGNBVGY3TQOJQ",
    ] {
        assert_eq!(
            decode(encoded).expect("test inputs are valid base32"),
            base32::decode(alphabet, encoded).expect("test inputs are valid base32"),
        );
    }
}
