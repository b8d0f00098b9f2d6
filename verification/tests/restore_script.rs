use typepaste::encoder::Encoding;
use typepaste::restore_script::{
    decode_cmd, decode_cmd_for_shell, heredoc_footer, heredoc_header, parse_ops, Shell, Target,
};

#[test]
fn parse_plain_b32() {
    let ops = parse_ops("typepaste_20260822153616_file.b32");
    assert_eq!(ops.decode, Some(Encoding::Base32));
    assert!(!ops.gunzip);
    assert!(!ops.unzip);
}

#[test]
fn parse_zip_b32() {
    let ops = parse_ops("typepaste_20260822153616_dir.zip.b32");
    assert_eq!(ops.decode, Some(Encoding::Base32));
    assert!(!ops.gunzip);
    assert!(ops.unzip);
}

#[test]
fn parse_gz_b64() {
    let ops = parse_ops("typepaste_20260822153616_file.gz.b64");
    assert_eq!(ops.decode, Some(Encoding::Base64));
    assert!(ops.gunzip);
    assert!(!ops.unzip);
}

#[test]
fn parse_zip_gz_b32() {
    let ops = parse_ops("typepaste_20260822153616_dir.zip.gz.b32");
    assert_eq!(ops.decode, Some(Encoding::Base32));
    assert!(ops.gunzip);
    assert!(ops.unzip);
}

#[test]
fn parse_no_suffix() {
    let ops = parse_ops("typepaste_20260822153616_file");
    assert_eq!(ops.decode, None);
    assert!(!ops.gunzip);
    assert!(!ops.unzip);
    assert_eq!(ops.part, None);
}

#[test]
fn parse_part_suffix_plain() {
    let ops = parse_ops("typepaste_file.b32.p3");
    assert_eq!(ops.part, Some(3));
    assert_eq!(ops.decode, Some(Encoding::Base32));
    assert!(!ops.gunzip);
    assert!(!ops.unzip);
}

#[test]
fn parse_part_suffix_full_pipeline() {
    let ops = parse_ops("typepaste_dir.zip.gz.b32.p2");
    assert_eq!(ops.part, Some(2));
    assert_eq!(ops.decode, Some(Encoding::Base32));
    assert!(ops.gunzip);
    assert!(ops.unzip);
}

#[test]
fn parse_part_suffix_not_trailing_digit() {
    // The name ends in `.b32`, so `.p1` is no part.
    let ops = parse_ops("typepaste_release.p1.b32");
    assert_eq!(ops.part, None);
    assert_eq!(ops.decode, Some(Encoding::Base32));
}

#[test]
fn decode_cmd_base32() {
    let cmd = decode_cmd(Encoding::Base32, "a.b32", "a");
    assert!(cmd.contains("tr 'a-z' 'A-Z'"));
    assert!(cmd.contains("base32 -d"));
    assert!(cmd.ends_with("> a"));
}

#[test]
fn decode_cmd_base64() {
    let cmd = decode_cmd(Encoding::Base64, "a.b64", "a");
    assert_eq!(cmd, "base64 -d a.b64 > a");
}

#[test]
fn decode_cmd_base16() {
    let cmd = decode_cmd(Encoding::Base16, "a.b16", "a");
    assert!(cmd.contains("xxd -r -p"));
}

#[test]
fn target_variants_complete() {
    for t in Target::all() {
        assert!(!t.script().is_empty());
        assert!(t.landing_name().starts_with("typepaste-restore."));
    }
}

#[test]
fn heredoc_header_bash() {
    let h = heredoc_header(Shell::Bash, "file.txt");
    assert_eq!(h, "cat > file.txt << 'EOF'\n");
}

#[test]
fn heredoc_header_powershell() {
    let h = heredoc_header(Shell::Powershell, "file.txt");
    assert_eq!(h, "$content = @'\n");
}

#[test]
fn heredoc_footer_bash() {
    let f = heredoc_footer(Shell::Bash, "file.txt");
    assert_eq!(f, "\nEOF\n");
}

#[test]
fn heredoc_footer_powershell() {
    let f = heredoc_footer(Shell::Powershell, "file.txt");
    assert!(f.contains("'@"));
    assert!(f.contains("Set-Content -Path \"file.txt\""));
    assert!(f.contains("-NoNewline"));
}

#[test]
fn decode_cmd_powershell_base32() {
    let cmd = decode_cmd_for_shell(Shell::Powershell, Encoding::Base32, "f.b32", "f");
    assert!(cmd.contains("python3"));
    assert!(cmd.contains("base64.b32decode"));
    assert!(cmd.contains("f.b32"));
    assert!(cmd.ends_with("f"));
}

#[test]
fn decode_cmd_powershell_base64() {
    let cmd = decode_cmd_for_shell(Shell::Powershell, Encoding::Base64, "f.b64", "f");
    assert!(cmd.contains("python3"));
    assert!(cmd.contains("base64.b64decode"));
}

#[test]
fn decode_cmd_powershell_base16() {
    let cmd = decode_cmd_for_shell(Shell::Powershell, Encoding::Base16, "f.b16", "f");
    assert!(cmd.contains("python3"));
    assert!(cmd.contains("bytes.fromhex"));
}

#[test]
fn decode_cmd_for_shell_bash_delegates() {
    let cmd = decode_cmd_for_shell(Shell::Bash, Encoding::Base32, "f.b32", "f");
    assert_eq!(cmd, decode_cmd(Encoding::Base32, "f.b32", "f"));
}

#[test]
fn part_name_keeps_the_rest() {
    let whole = parse_ops("typepaste_d.zip.gz.b64");
    let part = parse_ops("typepaste_d.zip.gz.b64.p17");
    assert_eq!(part.part, Some(17));
    assert_eq!(
        (part.decode, part.gunzip, part.unzip),
        (whole.decode, whole.gunzip, whole.unzip)
    );
    assert_eq!(whole.part, None);
}
