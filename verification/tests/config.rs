use typepaste::config::{non_neg_int, parse_size};
use typepaste::text::{is_whitespace, push_quoted};

#[test]
fn parse_size_units() {
    assert_eq!(parse_size("1m").unwrap(), 1024 * 1024);
    assert_eq!(parse_size("2M").unwrap(), 2 * 1024 * 1024);
    assert_eq!(parse_size("500k").unwrap(), 500 * 1024);
    assert_eq!(parse_size("500K").unwrap(), 500 * 1024);
    assert_eq!(parse_size("1048576").unwrap(), 1048576);
    assert!(parse_size("0").is_err());
    assert!(parse_size("0m").is_err());
    assert!(parse_size("").is_err());
    assert!(parse_size("3g").is_err());
}

#[test]
fn size_messages() {
    assert_eq!(parse_size("  "), Err("大小不能为空".to_string()));
    assert_eq!(parse_size("0k"), Err("大小必须 >= 1".to_string()));
    assert_eq!(parse_size("1 k"), Err("需要整数，得到 1 ".to_string()));
    assert_eq!(parse_size("-5"), Err("需要整数，得到 -5".to_string()));
    assert_eq!(parse_size("+5"), Ok(5));
    assert_eq!(parse_size(" 7\n"), Ok(7));
    assert_eq!(
        parse_size("18446744073709551615m"),
        Err("18446744073709551615×1048576 溢出".to_string())
    );
    for c in ['g', '"', '\\', '\'', '\u{0}', '\u{1}', '\u{7f}', '~'] {
        let s = format!("3{c}");
        let suf = c.to_string();
        assert_eq!(
            parse_size(&s),
            Err(format!("未知大小后缀 {suf:?}（支持 k/K/m/M）"))
        );
    }
}

#[test]
fn non_negative_integers() {
    assert_eq!(non_neg_int("0"), Ok(0));
    assert_eq!(non_neg_int("+12"), Ok(12));
    assert_eq!(non_neg_int("9223372036854775807"), Ok(9223372036854775807));
    assert_eq!(
        non_neg_int("9223372036854775808"),
        Err("需要整数，得到 9223372036854775808".to_string())
    );
    assert_eq!(non_neg_int("-3"), Err("必须 >= 0，得到 -3".to_string()));
    assert_eq!(
        non_neg_int("-9223372036854775808"),
        Err("必须 >= 0，得到 -9223372036854775808".to_string())
    );
    assert_eq!(non_neg_int(" 1"), Err("需要整数，得到  1".to_string()));
    assert_eq!(non_neg_int("-0"), Ok(0));
    assert_eq!(non_neg_int("-"), Err("需要整数，得到 -".to_string()));
    assert_eq!(non_neg_int(""), Err("需要整数，得到 ".to_string()));
}

#[test]
fn quoted_like_debug() {
    for n in 0u8..=255 {
        let c = n as char;
        let mut s = String::new();
        push_quoted(&mut s, c, '\'');
        assert_eq!(s, format!("{c:?}"));
        let mut s = String::new();
        push_quoted(&mut s, c, '"');
        assert_eq!(s, format!("{:?}", c.to_string()));
    }
}

#[test]
fn whitespace_like_std() {
    for n in 0u32..0x11_0000 {
        if let Some(c) = char::from_u32(n) {
            assert_eq!(is_whitespace(c), c.is_whitespace(), "{n:x}");
        }
    }
}
