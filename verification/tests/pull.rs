use typepaste::pull::{
    accept_file, chunk_diff, dry_run_pull, expected_chunk, hex_decode, prepare_command,
    probe_command, quote, quote_powershell, show_command, total_chunks, Pull, PullAction, PullArgs,
    PullEvent,
};
use typepaste::restore_script::Shell;
use typepaste::screen::Wanted;
use typepaste::utils::md5_of_bytes;

fn pull_args(path: &str) -> PullArgs {
    PullArgs {
        remote_path: path.to_string(),
        local_out: None,
        shell: Shell::Bash,
        chunk_bytes: 4,
        max_retry: 2,
        interval: 5,
        delay: 0,
        dry_run: false,
        select_region: false,
        region: None,
        char_space: false,
        line_width: 64,
    }
}

#[test]
fn quotes_for_paths() {
    assert_eq!(quote("/tmp/a b"), "'");
    assert_eq!(quote("it's"), "\"");
    assert_eq!(quote_powershell("it's"), "'");
}

#[test]
fn remote_commands() {
    let mut args = pull_args("/tmp/a b");
    assert_eq!(
        probe_command(&args),
        "bash typepaste-pull.sh probe '/tmp/a b' 0\n"
    );
    assert_eq!(
        prepare_command(&args),
        "bash typepaste-pull.sh prepare '/tmp/a b' 4\n"
    );
    assert_eq!(
        show_command(&args, 12),
        "bash typepaste-pull.sh show 12 64 0\n"
    );
    args.shell = Shell::Powershell;
    args.char_space = true;
    args.remote_path = "it's".to_string();
    assert_eq!(
        probe_command(&args),
        "powershell -File typepaste-pull.ps1 probe 'it's' 1\n"
    );
    assert_eq!(
        show_command(&args, 1),
        "powershell -File typepaste-pull.ps1 show 1 64 1\n"
    );
    args.shell = Shell::Bash;
    assert_eq!(
        prepare_command(&args),
        "bash typepaste-pull.sh prepare \"it's\" 4\n"
    );
}

#[test]
fn pull_dry_run() {
    assert_eq!(
        dry_run_pull(&pull_args("/tmp/x")),
        vec![
            "[dry-run] 反向传输：/tmp/x → 本地",
            "  [探测] bash typepaste-pull.sh probe '/tmp/x' 0",
            "  [准备] bash typepaste-pull.sh prepare '/tmp/x' 4 → /tmp/tp_pull.b16（每行: content md5）",
            "  [循环] bash typepaste-pull.sh show <i> 64 0 → 截图 OCR → 校验",
            "  [每行宽度] 64 字符",
            "  [字符间距] 关闭",
            "  [重组] hex decode → 写文件 → md5 校验",
            "  提示：脚本需先用 --deploy-script 部署到目标机。",
        ]
    );
}

#[test]
fn hex_is_decoded() {
    assert_eq!(hex_decode("00fFa5"), Ok(vec![0, 255, 165]));
    assert_eq!(hex_decode(""), Ok(vec![]));
    assert_eq!(
        hex_decode("abc"),
        Err("base16 解码失败：Odd number of digits".to_string())
    );
    assert_eq!(
        hex_decode("ab0g"),
        Err("base16 解码失败：Invalid character 'g' at position 3".to_string())
    );
}

#[test]
fn hex_messages_as_the_crate_has_them() {
    let mut texts: Vec<String> = (0u32..=0x100)
        .filter_map(char::from_u32)
        .map(|c| format!("ab{c}0").repeat(2))
        .collect();
    texts.extend(["é", "中中", "'0", "a", "\u{7f}a", "\\a", "\ta"].map(|s| s.to_string()));
    for t in texts {
        let want = hex::decode(&t).map_err(|e| format!("base16 解码失败：{e}"));
        assert_eq!(hex_decode(&t), want);
    }
}

#[test]
fn digests_decide() {
    assert_eq!(accept_file(vec![1, 2], "a", "a"), Ok(vec![1, 2]));
    assert_eq!(
        accept_file(vec![1, 2], "a", "b"),
        Err("文件 md5 校验失败：got=a want=b".to_string())
    );
}

#[test]
fn chunk_numbers() {
    assert_eq!(total_chunks(0, 4), 0);
    assert_eq!(total_chunks(1, 4), 1);
    assert_eq!(total_chunks(4, 4), 1);
    assert_eq!(total_chunks(5, 4), 2);
    assert_eq!(total_chunks(usize::MAX, 1), usize::MAX);
    assert_eq!(total_chunks(usize::MAX, 2), usize::MAX / 2 + 1);
}

fn show(a: PullAction) -> String {
    match a {
        PullAction::Type { command, settle_ms } => format!("{} {settle_ms}", command.trim_end()),
        PullAction::Look { wait_ms, wanted } => match wanted {
            Wanted::FileInfo => format!("info {wait_ms}"),
            Wanted::Chunk => format!("chunk {wait_ms}"),
        },
        PullAction::Stop => "stop".to_string(),
        PullAction::Fail(m) => m,
        PullAction::Save(b) => format!("save {}", String::from_utf8(b).unwrap()),
    }
}

fn info_screen(data: &[u8]) -> Vec<String> {
    let md5 = md5_of_bytes(data);
    let size = data.len().to_string();
    let seal = md5_of_bytes(format!("{size}{md5}").as_bytes());
    vec!["$ probe".to_string(), size, md5, seal]
}

fn chunk_screen(hex: &str) -> Vec<String> {
    vec![
        "$ show".to_string(),
        hex.to_string(),
        md5_of_bytes(hex.as_bytes()),
    ]
}

#[test]
fn shown_file_arrives() {
    let args = pull_args("/f");
    let data = b"hello!";
    let (mut p, a) = Pull::start(&args);
    assert_eq!(show(a), "bash typepaste-pull.sh probe '/f' 0 2400");
    assert_eq!(show(p.step(&args, PullEvent::Typed, false)), "info 500");
    assert_eq!(show(p.step(&args, PullEvent::Seen(None), false)), "info 200");
    assert_eq!(
        show(p.step(&args, PullEvent::Seen(Some(info_screen(data))), false)),
        "bash typepaste-pull.sh prepare '/f' 4 4000"
    );
    assert_eq!(p.file_info(), (6, md5_of_bytes(data).as_str()));
    assert_eq!(
        show(p.step(&args, PullEvent::Typed, false)),
        "bash typepaste-pull.sh show 1 64 0 1500"
    );
    assert_eq!(p.progress(), (1, 2));
    assert_eq!(show(p.step(&args, PullEvent::Typed, false)), "chunk 500");
    assert_eq!(
        show(p.step(&args, PullEvent::Seen(Some(chunk_screen("68656c6c"))), false)),
        "bash typepaste-pull.sh show 2 64 0 1500"
    );
    assert_eq!(show(p.step(&args, PullEvent::Typed, false)), "chunk 500");
    assert_eq!(show(p.step(&args, PullEvent::Seen(None), false)), "chunk 200");
    assert_eq!(
        show(p.step(&args, PullEvent::Seen(Some(chunk_screen("6f21"))), false)),
        "save hello!"
    );
}

fn reading(args: &PullArgs, data: &[u8]) -> Pull {
    let (mut p, _) = Pull::start(args);
    p.step(args, PullEvent::Typed, false);
    p.step(args, PullEvent::Seen(Some(info_screen(data))), false);
    p.step(args, PullEvent::Typed, false);
    p
}

#[test]
fn pulls_that_fail() {
    let args = pull_args("/f");
    let (mut p, _) = Pull::start(&args);
    p.step(&args, PullEvent::Typed, false);
    p.step(&args, PullEvent::Seen(None), false);
    assert_eq!(
        show(p.step(&args, PullEvent::Seen(None), false)),
        "探测文件信息失败（OCR 多次未识别）"
    );

    let mut p = reading(&args, b"hi");
    p.step(&args, PullEvent::Typed, false);
    // Lines whose digest does not fit count as not seen.
    let mut bad = chunk_screen("6869");
    bad[1] = "6868".to_string();
    assert_eq!(show(p.step(&args, PullEvent::Seen(Some(bad)), false)), "chunk 200");
    assert_eq!(
        show(p.step(&args, PullEvent::Seen(None), false)),
        "片 1 读取失败（重试 2 次）"
    );

    let mut p = reading(&args, b"hi");
    p.step(&args, PullEvent::Typed, false);
    assert_eq!(
        show(p.step(&args, PullEvent::Seen(Some(chunk_screen("6868"))), false)),
        format!(
            "文件 md5 校验失败：got={} want={}",
            md5_of_bytes(b"hh"),
            md5_of_bytes(b"hi")
        )
    );

    let mut p = reading(&args, b"hi");
    p.step(&args, PullEvent::Typed, false);
    assert_eq!(
        show(p.step(&args, PullEvent::Seen(Some(chunk_screen("686"))), false)),
        "base16 解码失败：Odd number of digits"
    );
}

#[test]
fn pulls_that_stop() {
    let args = pull_args("/f");
    let mut p = reading(&args, b"hello!");
    assert_eq!(show(p.step(&args, PullEvent::Typed, true)), "已停止");
    let mut p = reading(&args, b"hello!");
    p.step(&args, PullEvent::Typed, false);
    assert_eq!(
        show(p.step(&args, PullEvent::Seen(Some(chunk_screen("68656c6c"))), true)),
        "stop"
    );
}

#[test]
fn listings_are_compared() {
    let listing = "6865 aaaa\n  6c6c\tbbbb\n\n";
    assert_eq!(expected_chunk(listing, 1).as_deref(), Some("6865"));
    assert_eq!(expected_chunk(listing, 2).as_deref(), Some("6c6c"));
    assert_eq!(expected_chunk(listing, 3).as_deref(), Some(""));
    assert_eq!(expected_chunk(listing, 4), None);
    assert_eq!(chunk_diff("6865", "6965"), (" ^  ".to_string(), 1));
    assert_eq!(chunk_diff("68", "6865"), ("  ^^".to_string(), 2));
    assert_eq!(chunk_diff("é", "e"), ("^^".to_string(), 2));
    assert_eq!(chunk_diff("", ""), (String::new(), 0));
}
