use typepaste::cli::{
    auto_invoke_command, dry_run_lines, dry_run_text, manual_restore_steps, plan_deploy,
    plan_transfer, Args, Step,
};
use typepaste::encoder::Encoding;
use typepaste::parts::{parse_part_selection, parts_to_send, split_into_parts};
use typepaste::payload::{
    assemble_payload, build_payload, generate_chunked_uid_base, generate_uid_base, uid_base,
};
use typepaste::restore_script::{
    decode_cmd_for_shell, heredoc_footer, heredoc_header, Shell, Target,
};
use typepaste::utils::{md5_of_bytes, preview_text};

#[test]
fn uid_base_sanitizes() {
    let base = generate_uid_base(Some("hello world.txt"), "20250102030405");
    assert!(base.starts_with("typepaste_"));
    assert!(base.contains("hello_world.txt"));
}

#[test]
fn manual_steps_plain_b32() {
    let steps = manual_restore_steps("typepaste_x_file.b32", "abc");
    assert!(steps[0].contains("base32 -d"));
    assert!(steps[1].contains("# md5sum"));
    assert!(!steps
        .iter()
        .any(|s| s.contains("gunzip") || s.contains("unzip")));
}

#[test]
fn manual_steps_zip_gz_b32() {
    let steps = manual_restore_steps("typepaste_x_dir.zip.gz.b32", "abc");
    assert!(steps[0].contains("base32 -d"));
    assert!(steps.iter().any(|s| s.contains("gunzip")));
    assert!(steps.iter().any(|s| s.contains("unzip")));
}

#[test]
fn auto_invoke_bash_default() {
    let args = Args {
        file: None,
        exclude: vec![],
        deploy_script: false,
        target: None,
        encode: None,
        shell: Shell::Bash,
        restore_script: None,
        delay: 0,
        interval: 0,
        dry_run: false,
        part_size: None,
        skip_parts: None,
        only_parts: None,
    };
    let cmd = auto_invoke_command(&args, "uid.b32", "md5", None);
    assert_eq!(cmd, "bash typepaste-restore.sh uid.b32 md5");
}

#[test]
fn auto_invoke_custom_script() {
    let args = Args {
        file: None,
        exclude: vec![],
        deploy_script: false,
        target: None,
        encode: None,
        shell: Shell::Bash,
        restore_script: Some("myrestore.sh".to_string()),
        delay: 0,
        interval: 0,
        dry_run: false,
        part_size: None,
        skip_parts: None,
        only_parts: None,
    };
    let cmd = auto_invoke_command(&args, "uid.b32", "md5", None);
    assert_eq!(cmd, "myrestore.sh uid.b32 md5");
}

#[test]
fn auto_invoke_powershell() {
    let args = Args {
        file: None,
        exclude: vec![],
        deploy_script: false,
        target: None,
        encode: None,
        shell: Shell::Powershell,
        restore_script: None,
        delay: 0,
        interval: 0,
        dry_run: false,
        part_size: None,
        skip_parts: None,
        only_parts: None,
    };
    let cmd = auto_invoke_command(&args, "uid.b32", "md5", None);
    assert_eq!(cmd, "powershell -File typepaste-restore.ps1 uid.b32 md5");
}

#[test]
fn parse_part_selection_ranges() {
    assert_eq!(
        parse_part_selection("1,3-5").unwrap().unwrap(),
        [1usize, 3, 4, 5].into_iter().collect()
    );
    assert_eq!(
        parse_part_selection("2,4").unwrap().unwrap(),
        [2usize, 4].into_iter().collect()
    );
    assert_eq!(parse_part_selection("").unwrap(), None);
    assert_eq!(parse_part_selection("   ").unwrap(), None);
    assert!(parse_part_selection("0").is_err());
    assert!(parse_part_selection("a").is_err());
    assert!(parse_part_selection("5-3").is_err());
}

#[test]
fn split_into_parts_boundaries() {
    let parts = split_into_parts("abcdef", 3);
    assert_eq!(parts, vec!["abc", "def"]);
    let parts = split_into_parts("abcdefg", 3);
    assert_eq!(parts, vec!["abc", "def", "g"]);
    let parts = split_into_parts("ab", 5);
    assert_eq!(parts, vec!["ab"]);
}

#[test]
fn chunked_uid_no_timestamp() {
    let base = generate_chunked_uid_base(Some("hello world.txt"));
    assert_eq!(base, "typepaste_hello_world.txt");
}

#[test]
fn auto_invoke_chunked_last_part() {
    let args = Args {
        file: None,
        exclude: vec![],
        deploy_script: false,
        target: None,
        encode: None,
        shell: Shell::Bash,
        restore_script: None,
        delay: 0,
        interval: 0,
        dry_run: false,
        part_size: None,
        skip_parts: None,
        only_parts: None,
    };
    let cmd = auto_invoke_command(&args, "uid.b32", "localmd5", None);
    assert_eq!(cmd, "bash typepaste-restore.sh uid.b32 localmd5");
    let cmd = auto_invoke_command(&args, "uid.b32", "localmd5", Some("md5a,md5b,md5c"));
    assert_eq!(
        cmd,
        "bash typepaste-restore.sh uid.b32 localmd5 md5a,md5b,md5c"
    );
}

#[test]
fn build_payload_chunked_forces_encoding_and_no_ts() {
    let data = b"hello typepaste chunked transfer test".to_vec();
    let payload = build_payload(
        data,
        false,
        Some("typepaste_chunk_test.txt"),
        "20250102030405",
        None,
        Some(100),
    )
    .unwrap();
    assert!(payload.encoding.is_some());
    assert!(!payload.uid_full.contains("2025"));
    assert!(!payload.uid_full.contains("2026"));
    assert!(payload
        .uid_full
        .starts_with("typepaste_typepaste_chunk_test"));
    assert!(payload.uid_full.ends_with(".b32"));
    let parts = payload.parts.expect("parts");
    assert!(parts.total >= 1);
    assert_eq!(parts.part_size, 100);
    assert_eq!(parts.part_md5s.len(), parts.total);
    assert_eq!(parts.encoded_parts.len(), parts.total);
    let joined: String = parts.encoded_parts.concat();
    assert_eq!(joined, payload.encoded.unwrap());
}

fn plain_args() -> Args {
    Args {
        file: None,
        exclude: vec![],
        deploy_script: false,
        target: None,
        encode: None,
        shell: Shell::Bash,
        restore_script: None,
        delay: 0,
        interval: 0,
        dry_run: false,
        part_size: None,
        skip_parts: None,
        only_parts: None,
    }
}

fn command(s: &str) -> Step {
    Step::Command(s.to_string())
}

#[test]
fn unnamed_source() {
    assert_eq!(generate_uid_base(None, "1"), "typepaste_1_file");
    assert_eq!(generate_chunked_uid_base(None), "typepaste_file");
}

#[test]
fn manual_steps_in_full() {
    assert_eq!(
        manual_restore_steps("d.zip.gz.b16", "abc"),
        vec![
            "cat d.zip.gz.b16 | tr 'a-z' 'A-Z' | xxd -r -p > d.zip.gz",
            "gunzip d.zip.gz",
            "# md5sum d.zip  应为 abc",
            "unzip d.zip",
        ]
    );
    assert_eq!(
        manual_restore_steps("plain.txt", "abc"),
        vec!["# md5sum plain.txt  应为 abc"]
    );
}

#[test]
fn part_selection_errors() {
    let e = |s: &str| parse_part_selection(s).unwrap_err();
    assert_eq!(e("1, x"), "分片号非法：x");
    assert_eq!(e("1-"), "分片号非法：1-");
    assert_eq!(e("-3"), "分片号非法：-3");
    assert_eq!(e("0"), "分片号必须 ≥ 1：0");
    assert_eq!(e("0-2"), "分片号必须 ≥ 1：0-2");
    assert_eq!(e("5 - 3"), "范围起始 > 结束：5 - 3");
    assert_eq!(parse_part_selection(" , ,").unwrap(), None);
    assert_eq!(
        parse_part_selection("+2, 2 - 3 ,").unwrap().unwrap(),
        [2usize, 3].into_iter().collect()
    );
}

#[test]
fn chosen_parts() {
    assert_eq!(parts_to_send(4, None, None), Ok(vec![1, 2, 3, 4]));
    assert_eq!(parts_to_send(4, Some("4,2,9"), None), Ok(vec![2, 4]));
    assert_eq!(parts_to_send(4, None, Some("4,2,9")), Ok(vec![1, 3]));
    assert_eq!(parts_to_send(4, Some("1"), Some("x")), Ok(vec![1]));
    assert_eq!(
        parts_to_send(4, Some(" "), None),
        Err("--only-parts 不能为空".to_string())
    );
    assert_eq!(
        parts_to_send(4, None, Some(",")),
        Err("--skip-parts 不能为空".to_string())
    );
    assert_eq!(
        parts_to_send(4, None, Some("a")),
        Err("分片号非法：a".to_string())
    );
}

#[test]
fn parts_of_size_zero() {
    assert_eq!(split_into_parts("abc", 0), vec!["a", "b", "c"]);
    assert!(split_into_parts("", 3).is_empty());
}

#[test]
fn parts_carry_no_time() {
    let name = Some("a b.txt");
    assert_eq!(uid_base(name, "20250102030405", false), "typepaste_20250102030405_a_b.txt");
    assert_eq!(uid_base(name, "20250102030405", true), "typepaste_a_b.txt");
    assert_eq!(
        uid_base(name, "20250102030405", false),
        generate_uid_base(name, "20250102030405")
    );
    assert_eq!(uid_base(None, "1", true), generate_chunked_uid_base(None));
}

#[test]
fn plain_text_goes_as_it_is() {
    let text = "Hello, world!";
    let p = build_payload(text.into(), false, Some("u"), "1", None, None).unwrap();
    assert_eq!(p.encoding, None);
    assert_eq!(p.encoded, None);
    assert!(!p.is_compressed);
    assert_eq!(p.uid_full, "typepaste_1_u");
    assert_eq!(p.local_md5, "6cd3556deb0da54bca060b4c39479839");
    assert_eq!(p.char_count(), 13);
    let args = plain_args();
    assert_eq!(
        plan_transfer(&p, &args),
        Ok(vec![Step::Text {
            text: text.to_string(),
            wrap: 0
        }])
    );
    assert_eq!(
        dry_run_lines(&p, &args),
        Ok(vec!["[dry-run] 原文直输".to_string()])
    );
}

#[test]
fn untypable_text_is_encoded() {
    let p = build_payload("é".into(), false, Some("u"), "1", None, None).unwrap();
    assert_eq!(p.encoding, Some(Encoding::Base32));
    assert_eq!(p.encoded.as_deref(), Some("youq===="));
    assert_eq!(p.uid_full, "typepaste_1_u.b32");
    let p = build_payload(
        "é".into(),
        false,
        Some("u"),
        "1",
        Some(Encoding::Base16),
        None,
    )
    .unwrap();
    assert_eq!(p.encoded.as_deref(), Some("c3a9"));
    assert_eq!(p.char_count(), 4);
}

#[test]
fn repetitive_data_is_compressed() {
    let data = vec![b'a'; 1000];
    let p = build_payload(data.clone(), false, Some("u"), "1", None, None).unwrap();
    assert!(p.is_compressed);
    assert!(p.gz_len < 100);
    assert_eq!(p.uid_full, "typepaste_1_u.gz.b32");
    // What the far end does with the text.
    let text = p.encoded.unwrap().to_uppercase();
    let gz = data_encoding::BASE32.decode(text.as_bytes()).unwrap();
    assert_eq!(gz.len(), p.gz_len);
    let mut out = Vec::new();
    std::io::Read::read_to_end(&mut flate2::read::GzDecoder::new(gz.as_slice()), &mut out)
        .unwrap();
    assert_eq!(out, data);
}

#[test]
fn compression_threshold() {
    let with = |gz_len: usize| {
        let gz = vec![0; gz_len];
        assemble_payload(vec![b'a'; 10], gz, false, "u".to_string(), None, None)
    };
    assert!(with(7).is_compressed);
    let p = with(8);
    assert!(!p.is_compressed);
    assert_eq!(p.encoding, None);
    assert_eq!(p.gz_len, 8);
}

#[test]
fn directories_are_encoded() {
    let p = assemble_payload(
        vec![b'a'; 5],
        vec![b'b'; 5],
        true,
        "u".to_string(),
        Some(Encoding::Base64),
        None,
    );
    assert!(p.is_dir);
    assert_eq!(p.uid_full, "u.zip.b64");
    assert_eq!(p.encoded.as_deref(), Some("YWFhYWE="));
}

#[test]
fn payload_limits() {
    let build = |n: usize, part: Option<usize>| {
        build_payload(vec![b'x'; n], false, Some("u"), "1", None, part).map(|p| p.raw.len())
    };
    assert_eq!(build(0, None), Err("源数据为空".to_string()));
    assert_eq!(build(0, Some(5)), Err("源数据为空".to_string()));
    assert_eq!(build(5 * 1024 * 1024, None), Ok(5242880));
    assert_eq!(
        build(5 * 1024 * 1024 + 1, None),
        Err("源数据 5242881 字节超过上限 5242880 字节".to_string())
    );
    assert_eq!(build(5 * 1024 * 1024 + 1, Some(1000)), Ok(5242881));
}

#[test]
fn encoded_transfer_plan() {
    let p = build_payload(
        b"hi".to_vec(),
        false,
        Some("u"),
        "1",
        Some(Encoding::Base16),
        None,
    )
    .unwrap();
    let args = plain_args();
    let call = "bash typepaste-restore.sh typepaste_1_u.b16 49f68a5c8493ec2c0bf489821c21fc3b";
    let plan = plan_transfer(&p, &args).unwrap();
    assert_eq!(
        plan,
        vec![
            command(&heredoc_header(Shell::Bash, "typepaste_1_u.b16")),
            Step::Text {
                text: "6869".to_string(),
                wrap: 100
            },
            command(&heredoc_footer(Shell::Bash, "typepaste_1_u.b16")),
            Step::Pause(500),
            command(&format!("{call}\n")),
        ]
    );
    assert_eq!(
        dry_run_lines(&p, &args),
        Ok(vec![
            "[dry-run] auto 模式".to_string(),
            format!("  调用命令：{call}")
        ])
    );
    assert_eq!(
        dry_run_text(&plan),
        format!(
            "{}{}{}{call}\n",
            heredoc_header(Shell::Bash, "typepaste_1_u.b16"),
            preview_text("6869", 100),
            heredoc_footer(Shell::Bash, "typepaste_1_u.b16")
        )
    );
}

#[test]
fn transfer_in_parts_plan() {
    let p = build_payload(
        b"hello".to_vec(),
        false,
        Some("u"),
        "1",
        Some(Encoding::Base16),
        Some(4),
    )
    .unwrap();
    let parts = p.parts.as_ref().unwrap();
    assert_eq!(parts.encoded_parts, vec!["6865", "6c6c", "6f"]);
    assert_eq!(parts.part_md5s[2], md5_of_bytes(b"6f"));
    let md5s = parts.part_md5s.join(",");
    let md5_2 = parts.part_md5s[1].clone();
    let mut args = plain_args();
    args.only_parts = Some("2".to_string());
    let call = format!(
        "bash typepaste-restore.sh typepaste_u.b16 5d41402abc4b2a76b9719d911017c592 {md5s}"
    );
    assert_eq!(
        plan_transfer(&p, &args),
        Ok(vec![
            Step::Note(format!("p2 >>> md5={md5_2}")),
            command(&heredoc_header(Shell::Bash, "typepaste_u.b16.p2")),
            Step::Text {
                text: "6c6c".to_string(),
                wrap: 100
            },
            command(&heredoc_footer(Shell::Bash, "typepaste_u.b16.p2")),
            Step::Pause(500),
            command(&format!("{call}\n")),
        ])
    );
    assert_eq!(
        dry_run_lines(&p, &args),
        Ok(vec![
            "[dry-run] 分片模式：3 片，待传 1 片".to_string(),
            format!("  p2: typepaste_u.b16.p2 (md5={md5_2})"),
            format!("  批量校验+合并调用：\n{call}"),
        ])
    );
    args.only_parts = Some("x".to_string());
    assert_eq!(
        plan_transfer(&p, &args),
        Err("分片号非法：x".to_string())
    );
    assert!(dry_run_lines(&p, &args).is_err());
    args.only_parts = None;
    assert_eq!(plan_transfer(&p, &args).unwrap().len(), 16);
}

#[test]
fn raw_bytes_cannot_be_typed() {
    let mut p = build_payload(b"hi".to_vec(), false, Some("u"), "1", None, None).unwrap();
    p.raw = vec![0xff, 0xfe];
    assert_eq!(p.char_count(), 2);
    let err = "源文件非 UTF-8 文本，无法原文直输；请使用 --encode base32/base64/base16";
    assert_eq!(plan_transfer(&p, &plain_args()), Err(err.to_string()));
    assert_eq!(dry_run_lines(&p, &plain_args()), Err(err.to_string()));
}

#[test]
fn deployment_plan() {
    let args = plain_args();
    for target in Target::all() {
        let landing = target.landing_name();
        let plan = plan_deploy(target, &args);
        assert_eq!(plan.len(), 3);
        let file = format!("{landing}.b32");
        assert_eq!(plan[0], command(&heredoc_header(Shell::Bash, &file)));
        match &plan[1] {
            Step::Text { text, wrap } => {
                assert_eq!(*wrap, 100);
                let bytes = data_encoding::BASE32
                    .decode(text.to_uppercase().as_bytes())
                    .unwrap();
                assert_eq!(bytes, target.script().as_bytes());
            }
            _ => panic!(),
        }
        assert_eq!(
            plan[2],
            command(&format!(
                "{}\n{}\n",
                heredoc_footer(Shell::Bash, &file),
                decode_cmd_for_shell(Shell::Bash, Encoding::Base32, &file, landing)
            ))
        );
    }
}
