use typepaste::ocr::{
    find_file_info, hex_confusion, is_hex_content_line, normalize_digits, normalize_hex,
    parse_file_info, parse_hex_chunk, FileInfo,
};
use typepaste::screen::{
    escape_hint, ocr_engines, retry_wait_ms, scaled_size, select_region, tesseract_args, Capture,
    FocusState, Scan, ScanAction, ScanEvent, Selection, Wanted,
};
use typepaste::utils::md5_of_bytes;

fn lines(v: &[&str]) -> Vec<String> {
    v.iter().map(|s| s.to_string()).collect()
}

#[test]
fn parse_hex_chunk_normal() {
    let lines = vec![
        "some prompt noise".to_string(),
        "68656c6c6f".to_string(),
        "5d41402abc4b2a76b9719d911017c592".to_string(),
    ];
    let (content, md5) = parse_hex_chunk(&lines).unwrap();
    assert_eq!(content, "68656c6c6f");
    assert_eq!(md5.len(), 32);
}

#[test]
fn parse_hex_chunk_with_trailing_prompt() {
    let lines = vec![
        "clear; sed -n '1p' file".to_string(),
        "68656c6c6f".to_string(),
        "5d41402abc4b2a76b9719d911017c592".to_string(),
        "user@host:~$".to_string(),
    ];
    let (content, md5) = parse_hex_chunk(&lines).unwrap();
    assert_eq!(content, "68656c6c6f");
    assert_eq!(md5, "5d41402abc4b2a76b9719d911017c592");
}

#[test]
fn parse_hex_chunk_filters_noise() {
    let lines = vec![
        "68 65 6c 6c 6f".to_string(),
        "5d41402abc4b2a76b9719d911017c592".to_string(),
    ];
    let (content, _) = parse_hex_chunk(&lines).unwrap();
    assert_eq!(content, "68656c6c6f");
}

#[test]
fn parse_hex_chunk_wrapped_lines() {
    let lines = vec![
        "68656c6c6f".to_string(),
        "776f726c64".to_string(),
        "5d41402abc4b2a76b9719d911017c592".to_string(),
        "user@host:~$".to_string(),
    ];
    let (content, md5) = parse_hex_chunk(&lines).unwrap();
    assert_eq!(content, "68656c6c6f776f726c64");
    assert_eq!(md5, "5d41402abc4b2a76b9719d911017c592");
}

#[test]
fn parse_hex_chunk_wrapped_with_noise_above() {
    let lines = vec![
        "clear; sed -n '1p' file".to_string(),
        "68656c6c6f".to_string(),
        "776f726c64".to_string(),
        "5d41402abc4b2a76b9719d911017c592".to_string(),
        "$".to_string(),
    ];
    let (content, _) = parse_hex_chunk(&lines).unwrap();
    assert_eq!(content, "68656c6c6f776f726c64");
}

#[test]
fn parse_hex_chunk_corrects_confusion() {
    let lines = vec![
        "6ó656c6c6f".to_string(),
        "5d41402abc4b2a76b9719d911017c592".to_string(),
    ];
    let (content, _) = parse_hex_chunk(&lines).unwrap();
    assert_eq!(content, "66656c6c6f");
}

#[test]
fn parse_hex_chunk_o_to_zero() {
    let lines = vec![
        "O".to_string(),
        "5d41402abc4b2a76b9719d911017c592".to_string(),
    ];
    let (content, _) = parse_hex_chunk(&lines).unwrap();
    assert_eq!(content, "0");
}

#[test]
fn parse_hex_chunk_md5_wrong_len() {
    let lines = vec!["68656c6c6f".to_string(), "5d41402abc4b2a76".to_string()];
    assert!(parse_hex_chunk(&lines).is_none());
}

#[test]
fn parse_file_info_normal() {
    let lines = vec![
        "1024".to_string(),
        "abcdef0123456789abcdef0123456789".to_string(),
        "17e00497124c8f0ae9a581cbfab00312".to_string(), // md5("1024" + file_md5)
    ];
    let (size, md5) = parse_file_info(&lines).unwrap();
    assert_eq!(size, 1024);
    assert_eq!(md5, "abcdef0123456789abcdef0123456789");
}

#[test]
fn parse_file_info_with_trailing_prompt() {
    let lines = vec![
        "stat -c%s /tmp/test.txt".to_string(),
        "1024".to_string(),
        "abcdef0123456789abcdef0123456789".to_string(),
        "17e00497124c8f0ae9a581cbfab00312".to_string(), // md5("1024" + file_md5)
        "$".to_string(),
    ];
    let (size, md5) = parse_file_info(&lines).unwrap();
    assert_eq!(size, 1024);
    assert_eq!(md5, "abcdef0123456789abcdef0123456789");
}

#[test]
fn parse_file_info_digit_confusion() {
    let lines = vec![
        "ló2O".to_string(),
        "abcdef0123456789abcdef0123456789".to_string(),
        "d69bf443a2c38a48b7cf76bf512f91cf".to_string(), // md5("1620" + file_md5)
    ];
    let (size, md5) = parse_file_info(&lines).unwrap();
    assert_eq!(size, 1620);
    assert_eq!(md5, "abcdef0123456789abcdef0123456789");
}

#[test]
fn parse_file_info_checksum_mismatch() {
    let lines = vec![
        "1024".to_string(),
        "abcdef0123456789abcdef0123456789".to_string(),
        "00000000000000000000000000000000".to_string(),
    ];
    assert!(parse_file_info(&lines).is_none());
}

#[test]
fn parse_file_info_missing_checksum() {
    let lines = vec![
        "1024".to_string(),
        "abcdef0123456789abcdef0123456789".to_string(),
    ];
    assert!(parse_file_info(&lines).is_none());
}

#[test]
fn spaced_digits_are_read() {
    let v = lines(&[
        "$ qwrtyu mnpk",
        "6 8 6 5 6 c 6 c",
        "6 f 7 7 6 f 7 2",
        "6 c 6 4",
        "5 e b 6 3 b b b e 0 1 e e e d 0 9 3 c b 2 2 b b 8 f 5 a c d c 3",
        "user@host:~$",
    ]);
    let (hex, md5) = parse_hex_chunk(&v).unwrap();
    assert_eq!(hex, "68656c6c6f776f726c64");
    assert_eq!(md5, "5eb63bbbe01eeed093cb22bb8f5acdc3");
}

#[test]
fn chunk_needs_content_above_digest() {
    let digest = "5d41402abc4b2a76b9719d911017c592";
    assert!(parse_hex_chunk(&lines(&[digest])).is_none());
    assert!(parse_hex_chunk(&lines(&["user@host:~/work$ ls", digest])).is_none());
    assert!(parse_hex_chunk(&[]).is_none());
    // A digest-like row without content above it is passed over.
    let v = lines(&["6865", digest, "--------", digest]);
    assert_eq!(parse_hex_chunk(&v).unwrap().0, "6865");
}

#[test]
fn confusion_tables() {
    assert_eq!(hex_confusion('B'), Some('b'));
    assert_eq!(hex_confusion('|'), Some('1'));
    assert_eq!(hex_confusion('ž'), Some('2'));
    assert_eq!(hex_confusion('š'), Some('5'));
    assert_eq!(hex_confusion('ő'), Some('6'));
    assert_eq!(hex_confusion('ğ'), Some('9'));
    assert_eq!(hex_confusion('x'), None);
    assert_eq!(hex_confusion(' '), None);
    assert_eq!(normalize_hex("0x7F g!"), "07f91");
    assert_eq!(normalize_digits("lO24 b"), "1024");
    assert_eq!(normalize_digits("Í"), "");
}

#[test]
fn content_lines() {
    assert!(!is_hex_content_line(""));
    assert!(!is_hex_content_line("   "));
    assert!(is_hex_content_line("deadbeef"));
    // Seven of ten are enough, six are not.
    assert!(is_hex_content_line("abcdef0xyu"));
    assert!(!is_hex_content_line("abcdefxyuv"));
}

#[test]
fn file_info_without_size_ends_search() {
    let md5 = "abcdef0123456789abcdef0123456789";
    let seal = "17e00497124c8f0ae9a581cbfab00312";
    let good = ["1024", md5, seal];
    let mut v = lines(&good);
    v.extend(lines(&["--", md5, md5]));
    assert!(parse_file_info(&v).is_none());
    // A wrong seal is passed over.
    let mut v = lines(&good);
    v.extend(lines(&["77", md5, md5]));
    assert_eq!(parse_file_info(&v), Some((1024, md5.to_string())));
}

#[test]
fn file_info_places() {
    let row = |s: &str| s.chars().collect::<Vec<char>>();
    let md5 = "abcdef0123456789abcdef0123456789";
    let rows = vec![row("12"), row(md5), row(md5), row("$")];
    assert_eq!(
        find_file_info(&rows, 4),
        FileInfo::Info {
            at: 2,
            size: 12,
            file_md5: md5.to_string(),
            checksum: md5.to_string()
        }
    );
    assert_eq!(find_file_info(&rows, 2), FileInfo::Nothing);
    let rows = vec![row("z-"), row(md5), row(md5)];
    assert_eq!(
        find_file_info(&rows, 3),
        FileInfo::Info {
            at: 2,
            size: 2,
            file_md5: md5.to_string(),
            checksum: md5.to_string()
        }
    );
    let rows = vec![row("--"), row(md5), row(md5)];
    assert_eq!(find_file_info(&rows, 3), FileInfo::NoSize);
}

#[test]
fn waits_between_rounds() {
    let waits: Vec<u64> = (1..=6).map(retry_wait_ms).collect();
    assert_eq!(waits, vec![500, 200, 100, 100, 100, 100]);
}

#[test]
fn engines_and_arguments() {
    let names: Vec<&str> = ocr_engines().iter().map(|e| e.name()).collect();
    assert_eq!(names, vec!["tesseract", "ocrs", "tesseract-cli"]);
    assert_eq!(
        tesseract_args("/tmp/a.png").join(" "),
        "/tmp/a.png stdout --psm 4 -c tessedit_char_whitelist=0123456789abcdef"
    );
}

#[test]
fn scaled_sizes() {
    assert_eq!(scaled_size(2000, 1000, 1000), (1000, 500));
    assert_eq!(scaled_size(3000, 1001, 1000), (1000, 333));
    assert_eq!(scaled_size(2000, 1000, 50), (100, 50));
    assert_eq!(scaled_size(5000, 1, 900), (900, 1));
    assert_eq!(scaled_size(0, 7, 900), (900, 6300));
}

#[test]
fn scan_goes_through_widths() {
    let hex = "68656c6c6f";
    let good = format!("$ x\n{hex}\n{}\n", md5_of_bytes(hex.as_bytes()));
    let mut s = Scan::new(Wanted::Chunk);
    assert!(matches!(s.step(ScanEvent::Captured), ScanAction::Scale(1000)));
    assert!(matches!(s.step(ScanEvent::Failed), ScanAction::Wait));
    assert!(matches!(
        s.step(ScanEvent::Recognised(format!("{hex}\nffff"))),
        ScanAction::Wait
    ));
    assert!(matches!(s.step(ScanEvent::Through), ScanAction::Scale(900)));
    assert!(matches!(s.step(ScanEvent::Unusable), ScanAction::Scale(1100)));
    match s.step(ScanEvent::Recognised(good)) {
        ScanAction::Found(v) => assert_eq!(v[1], hex),
        _ => panic!(),
    }
    assert!(matches!(s.step(ScanEvent::Through), ScanAction::GiveUp));
}

#[test]
fn wanted_checks_digests() {
    let md5 = "abcdef0123456789abcdef0123456789";
    let v = lines(&["1024", md5, "17e00497124c8f0ae9a581cbfab00312"]);
    assert!(Wanted::FileInfo.passes(&v));
    // The size and the digest above the seal are a chunk too.
    assert!(Wanted::Chunk.passes(&v));
    let v = lines(&["6865", md5]);
    assert!(!Wanted::Chunk.passes(&v));
    assert!(!Wanted::FileInfo.passes(&v));
    let v = lines(&["6865", &md5_of_bytes(b"6865")]);
    assert!(Wanted::Chunk.passes(&v));
}

#[test]
fn captures() {
    let c = Capture::choose_first(Some((-5, 6, 70, 80)), Some("42".to_string()));
    assert_eq!(c.args(), vec!["-x", "-R", "-5,6,70,80"]);
    assert_eq!(c.fallback(), None);
    let c = Capture::choose_first(None, Some("42".to_string()));
    assert_eq!(c.args(), vec!["-x", "-o", "-l", "42"]);
    assert_eq!(c.fallback(), Some(Capture::Screen));
    let c = Capture::choose_first(None, None);
    assert_eq!(c.args(), vec!["-x", "-t", "png"]);
    assert_eq!(c.fallback(), None);
}

#[test]
fn selected_regions() {
    let out = |s: &str| select_region(Selection::Output(s.to_string()));
    assert_eq!(out(" 1,-2, 3 ,4\n"), Ok((1, -2, 3, 4)));
    assert_eq!(out(" \n"), Err("已取消区域选择".to_string()));
    assert_eq!(out("1,2,3\n"), Err("区域选择输出格式错误：1,2,3".to_string()));
    assert_eq!(
        out("1,2,3,x\n"),
        Err("区域选择坐标解析失败：1,2,3,x".to_string())
    );
    assert_eq!(
        out("1,2,3,2147483648"),
        Err("区域选择坐标解析失败：1,2,3,2147483648".to_string())
    );
    assert_eq!(
        select_region(Selection::Unsupported),
        Err("区域选择仅支持 macOS".to_string())
    );
    assert_eq!(
        select_region(Selection::Failed("no swift".to_string())),
        Err("区域选择失败：no swift".to_string())
    );
}

#[test]
fn hints_are_escaped() {
    assert_eq!(escape_hint(r#"say "a\b""#), r#"say \"a\\b\""#);
    assert_eq!(escape_hint("框选"), "框选");
}

#[test]
fn focus_follows_front() {
    let mut f = FocusState::new(" com.vdi \n");
    assert!(f.is_focused());
    f.line("ACT:com.mail");
    assert!(!f.is_focused());
    f.line("noise");
    assert!(!f.is_focused());
    f.line("ACT:com.vdi");
    assert!(f.is_focused());
    f.line("ACT:com.mail");
    f.line("BASE:com.other");
    assert!(f.is_focused());
    f.line("ACT:com.other");
    assert!(!f.is_focused());
    // Without a name at the start, the first one that is reported counts.
    let mut f = FocusState::new("");
    f.line("ACT:com.first");
    assert!(f.is_focused());
    f.line("ACT:com.second");
    assert!(!f.is_focused());
}
