use base64::Engine;
use typepaste::utils::md5_of_bytes;
use typepaste::web::{assemble_frames, dry_run_web, prepare, WebArgs};

#[test]
fn frame_format_and_roundtrip() {
    let data: Vec<u8> = (0..9000u32)
        .map(|i| i.wrapping_mul(2654435761) as u8)
        .collect();
    let prep = prepare(&data, Some("tp_web_test_high.bin"), 4096).unwrap();
    assert_eq!(prep.raw_size, 9000);
    assert_eq!(prep.frames.len(), 3);
    let mut reassembled = Vec::new();
    for (seq, f) in prep.frames.iter().enumerate() {
        let fields: Vec<&str> = f.body.split('|').collect();
        assert!(fields.len() >= 6, "frame {seq} is short");
        assert_eq!(fields[0], seq.to_string());
        assert_eq!(fields[1], "3");
        assert_eq!(fields[2], "9000");
        let zflag: u8 = fields[3].parse().unwrap();
        let payload = base64::engine::general_purpose::STANDARD
            .decode(fields[5])
            .unwrap();
        assert_eq!(md5_of_bytes(&payload), fields[4], "digest of frame {seq}");
        let raw = if zflag == 1 {
            zstd::stream::decode_all(payload.as_slice()).unwrap()
        } else {
            payload
        };
        reassembled.extend_from_slice(&raw);
        if seq == 0 {
            assert_eq!(fields.len(), 7);
            let name = base64::engine::general_purpose::STANDARD
                .decode(fields[6])
                .unwrap();
            assert_eq!(String::from_utf8(name).unwrap(), "tp_web_test_high.bin");
        } else {
            assert_eq!(fields.len(), 6);
        }
    }
    assert_eq!(reassembled, data);
    assert_eq!(prep.file_md5, md5_of_bytes(&data));
}

#[test]
fn text_file_uses_zstd() {
    let data = b"hello typepaste web transfer ".repeat(500);
    let prep = prepare(&data, Some("tp_web_test_text.txt"), 4096).unwrap();
    let zflag: u8 = prep.frames[0]
        .body
        .split('|')
        .nth(3)
        .unwrap()
        .parse()
        .unwrap();
    assert_eq!(zflag, 1);
    let mut out = Vec::new();
    for f in &prep.frames {
        let fields: Vec<&str> = f.body.split('|').collect();
        let payload = base64::engine::general_purpose::STANDARD
            .decode(fields[5])
            .unwrap();
        out.extend_from_slice(&zstd::stream::decode_all(payload.as_slice()).unwrap());
    }
    assert_eq!(out, data);
}

#[test]
fn small_file_single_chunk() {
    let data = b"hi";
    let prep = prepare(data, Some("tp_web_test_small.bin"), 4096).unwrap();
    assert_eq!(prep.frames.len(), 1);
    let fields: Vec<&str> = prep.frames[0].body.split('|').collect();
    assert_eq!(fields[0], "0");
    assert_eq!(fields[1], "1");
    let payload = base64::engine::general_purpose::STANDARD
        .decode(fields[5])
        .unwrap();
    let zflag: u8 = fields[3].parse().unwrap();
    let raw = if zflag == 1 {
        zstd::stream::decode_all(payload.as_slice()).unwrap()
    } else {
        payload
    };
    assert_eq!(&raw, b"hi");
}

#[test]
fn empty_file_is_one_frame() {
    let prep = prepare(&[], None, 1024).unwrap();
    assert_eq!(prep.frames.len(), 1);
    assert_eq!(prep.raw_size, 0);
    assert_eq!(prep.file_md5, "d41d8cd98f00b204e9800998ecf8427e");
    assert_eq!(
        prep.frames[0].body,
        "0|1|0|0|d41d8cd98f00b204e9800998ecf8427e||cmVjZWl2ZWQuYmlu"
    );
}

#[test]
fn frames_in_full() {
    let prep = prepare(b"abcde", Some("é.txt"), 3).unwrap();
    assert_eq!(
        prep.frames[0].body,
        "0|2|5|0|900150983cd24fb0d6963f7d28e17f72|YWJj|w6kudHh0"
    );
    assert_eq!(prep.frames[0].md5, "900150983cd24fb0d6963f7d28e17f72");
    assert_eq!(
        prep.frames[1].body,
        format!("1|2|5|0|{}|ZGU=", md5_of_bytes(b"de"))
    );
    assert_eq!(prep.file_md5, "ab56b4d92b40713acc5af89985d4b786");
}

#[test]
fn frames_compress_below_threshold() {
    let raw = vec![7u8; 20];
    let with = |a: usize, b: usize| {
        let compressed = vec![vec![1u8; a], vec![2u8; b]];
        let prep = assemble_frames(&raw, &compressed, "n", 10);
        prep.frames[1].body.split('|').nth(3).unwrap().to_string()
    };
    assert_eq!(with(9, 9), "1");
    assert_eq!(with(9, 10), "0");
    assert_eq!(with(100, 100), "0");
    let prep = assemble_frames(&raw, &[vec![1], vec![2, 2]], "n", 10);
    assert_eq!(prep.frames[1].md5, md5_of_bytes(&[2, 2]));
    assert!(prep.frames[1].body.ends_with("|AgI="));
}

#[test]
fn web_dry_run() {
    let mut args = WebArgs {
        file: "/tmp/a.bin".to_string(),
        chunk_bytes: 3,
        interval: 0,
        dry_run: true,
        select_region: false,
        region: None,
        printable_frame: false,
        max_retry: 5,
    };
    let prep = prepare(&[b'x'; 200], Some("a.bin"), 200).unwrap();
    let lines = dry_run_web(&prep, &args);
    assert_eq!(lines.len(), 7);
    assert_eq!(lines[0], "[dry-run] 网页传输：/tmp/a.bin");
    assert_eq!(lines[1], "  原始大小：200 字节");
    assert_eq!(lines[2], "  分片数量：1（每片 3B）");
    assert_eq!(lines[3], "  帧定界  ：Ctrl+B / Ctrl+C");
    let shown: String = prep.frames[0].body.chars().take(120).collect();
    assert_eq!(lines[5], format!("  帧 0 预览：{shown}..."));
    args.printable_frame = true;
    assert_eq!(
        dry_run_web(&prep, &args)[3],
        "  帧定界  ：可打印 {{/}} （--web-printable-frame）"
    );
}
