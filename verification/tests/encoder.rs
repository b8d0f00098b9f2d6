use base64::Engine;
use typepaste::encoder::{AnyEncoder, Base16, Base32, Base64, Encoder, Encoding};

#[test]
fn base32_lowercase_and_roundtrip() {
    let data = b"hello world";
    let enc = Base32.encode(data);
    // The padding stays; the letters are in lower case.
    assert!(
        enc.chars()
            .all(|c| c.is_ascii_lowercase() || c.is_ascii_digit() || c == '='),
        "{enc}"
    );
    assert_eq!(enc, data_encoding::BASE32.encode(data).to_lowercase());
    let upper: String = enc.to_uppercase();
    let decoded = data_encoding::BASE32.decode(upper.as_bytes()).unwrap();
    assert_eq!(decoded, data);
}

#[test]
fn base64_standard() {
    let data = b"hello world";
    assert_eq!(
        Base64.encode(data),
        base64::engine::general_purpose::STANDARD.encode(data)
    );
    assert_eq!(Base64.suffix(), "b64");
}

#[test]
fn base16_lowercase() {
    let data = b"hello world";
    let enc = Base16.encode(data);
    assert_eq!(enc, hex::encode(data));
    assert!(enc
        .chars()
        .all(|c| c.is_ascii_hexdigit() && !c.is_ascii_uppercase()));
}

#[test]
fn names_and_suffixes() {
    assert_eq!(Base32.name(), "Base32");
    assert_eq!(Base32.suffix(), "b32");
    assert_eq!(Base64.name(), "Base64");
    assert_eq!(Base16.name(), "Base16");
    assert_eq!(Base16.suffix(), "b16");
}

#[test]
fn parse_and_from_suffix() {
    assert_eq!(Encoding::parse("base32"), Some(Encoding::Base32));
    assert_eq!(Encoding::parse("base64"), Some(Encoding::Base64));
    assert_eq!(Encoding::parse("base16"), Some(Encoding::Base16));
    assert_eq!(Encoding::parse("nope"), None);
    assert_eq!(Encoding::from_suffix("b64"), Some(Encoding::Base64));
    assert_eq!(Encoding::from_suffix("zz"), None);
}

#[test]
fn exact_texts() {
    assert_eq!(Base32.encode(b"foobar"), "mzxw6ytboi======");
    assert_eq!(Base32.encode(b"fooba"), "mzxw6ytb");
    assert_eq!(Base32.encode(b""), "");
    assert_eq!(Base64.encode(b"foob"), "Zm9vYg==");
    assert_eq!(Base64.encode(&[0xfb, 0xff]), "+/8=");
    assert_eq!(Base16.encode(&[0x00, 0x0f, 0xa5, 0xff]), "000fa5ff");
}

#[test]
fn chosen_encoder_agrees() {
    for e in [Encoding::Base32, Encoding::Base64, Encoding::Base16] {
        let enc = e.encoder();
        assert_eq!(Encoding::from_suffix(enc.suffix()), Some(e));
        assert_eq!(Encoding::parse(&enc.name().to_lowercase()), Some(e));
        match (e, &enc) {
            (Encoding::Base32, AnyEncoder::Base32(_)) => {}
            (Encoding::Base64, AnyEncoder::Base64(_)) => {}
            (Encoding::Base16, AnyEncoder::Base16(_)) => {}
            _ => panic!(),
        }
    }
}
