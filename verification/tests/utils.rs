use std::io::Read;
use typepaste::backend::{char_steps, KeyStep};
use typepaste::failsafe::{monitor_step, MonitorAction};
use typepaste::utils::{
    gzip_compress, md5_of_bytes, preview_text, sanitize_filename, type_text,
};

#[test]
fn md5_known_value() {
    assert_eq!(md5_of_bytes(b"hello"), "5d41402abc4b2a76b9719d911017c592");
}

#[test]
fn type_text_records_all_chars() {
    let text = "Hello World ABC 123";
    let recorded = type_text(text, 0);
    assert_eq!(recorded, text.chars().collect::<Vec<_>>());
}

#[test]
fn type_text_count_matches_len() {
    let recorded = type_text("abcdef", 0);
    assert_eq!(recorded.len(), 6);
}

#[test]
fn type_text_wrap_inserts_newline() {
    let recorded = type_text("abcdefghij", 3);
    // A line break after every third character: abc, def, ghi, and none after the last one.
    assert_eq!(recorded.iter().filter(|&&c| c == '\n').count(), 3);
    assert_eq!(recorded.iter().filter(|&&c| c != '\n').count(), 10);
}

#[test]
fn wrap_ends_without_line_break() {
    let shown = |t: &str, w: usize| type_text(t, w).into_iter().collect::<String>();
    assert_eq!(shown("abcdef", 3), "abc\ndef");
    assert_eq!(shown("abcdefg", 3), "abc\ndef\ng");
    assert_eq!(shown("ab", 3), "ab");
    assert_eq!(shown("", 3), "");
    assert_eq!(shown("abc", 1), "a\nb\nc");
}

#[test]
fn gzip_roundtrip() {
    let data = b"hello world hello world hello world";
    let compressed = gzip_compress(data).unwrap();
    let mut decoder = flate2::read::GzDecoder::new(&compressed[..]);
    let mut out = Vec::new();
    decoder.read_to_end(&mut out).unwrap();
    assert_eq!(out, data);
}

#[test]
fn gzip_is_repeatable() {
    let data = vec![7u8; 10_000];
    let a = gzip_compress(&data).unwrap();
    assert_eq!(a, gzip_compress(&data).unwrap());
    assert!(a.len() < 100);
}

#[test]
fn sanitize_replaces_unsafe() {
    assert_eq!(sanitize_filename("hello world.txt"), "hello_world.txt");
}

#[test]
fn sanitize_fallback_file() {
    assert_eq!(sanitize_filename("中文"), "file");
    assert_eq!(sanitize_filename("   "), "file");
}

#[test]
fn sanitize_truncates() {
    let long = "a".repeat(80);
    let s = sanitize_filename(&long);
    assert_eq!(s.len(), 50);
}

#[test]
fn sanitize_keeps_safe_chars() {
    assert_eq!(sanitize_filename("a1.2-3_4"), "a1.2-3_4");
}

#[test]
fn sanitize_edges() {
    assert_eq!(sanitize_filename(""), "file");
    assert_eq!(sanitize_filename("_中_a"), "___a");
    // The cut comes last, so that underscores alone can be left.
    assert_eq!(sanitize_filename(&("_".repeat(60) + "a")), "_".repeat(50));
}

#[test]
fn preview_is_cut() {
    assert_eq!(preview_text("abcdefg", 3), "abc\ndef\ng");
    let long = "x".repeat(501);
    let shown = preview_text(&long, 100);
    let head = vec!["x".repeat(100); 5].join("\n");
    assert_eq!(
        shown,
        format!("{head}\n…（已截断，共 501 字符，剩余 1 字符）")
    );
    assert_eq!(preview_text(&"x".repeat(500), 0), "x".repeat(500));
}

#[test]
fn steps_for_keys() {
    assert_eq!(char_steps('a', false), vec![KeyStep::Key('a')]);
    assert_eq!(char_steps('a', true), vec![KeyStep::Code(0)]);
    assert_eq!(
        char_steps('>', true),
        vec![
            KeyStep::ShiftDown,
            KeyStep::Settle,
            KeyStep::Code(47),
            KeyStep::ShiftUp,
            KeyStep::Settle
        ]
    );
    assert_eq!(
        char_steps('Q', false),
        vec![
            KeyStep::ShiftDown,
            KeyStep::Settle,
            KeyStep::Key('q'),
            KeyStep::ShiftUp,
            KeyStep::Settle
        ]
    );
    assert_eq!(char_steps('\n', true), vec![KeyStep::Return]);
    assert_eq!(char_steps('\t', false), vec![KeyStep::Tab]);
    assert_eq!(char_steps('中', true), vec![KeyStep::Text('中')]);
}

#[test]
fn corner_stops() {
    assert_eq!(monitor_step(true, Some((0, 0))), MonitorAction::Leave);
    assert_eq!(monitor_step(false, Some((2, 2))), MonitorAction::Trigger);
    assert_eq!(monitor_step(false, Some((3, 2))), MonitorAction::Wait);
    assert_eq!(monitor_step(false, Some((2, 3))), MonitorAction::Wait);
    assert_eq!(monitor_step(false, None), MonitorAction::GiveUp);
}
