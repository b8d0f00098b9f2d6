//! The scripts that restore a transfer on the target machine.
//!
//! Each is called as `<script> <uid> <md5> [part md5s]`. With part digests it first checks every part
//! (`<uid>.p1`, `<uid>.p2`, ...) and joins them. The suffixes of the uid say what to undo, from the last
//! one backwards: text encoding, gzip, zip. The digest is compared before a zip archive is unpacked.

use vstd::prelude::*;
use vstd::utf8::encode_utf8;

verus! {

/// Linux: GNU tools.
pub const RESTORE_LINUX: &'static str = r#"#!/usr/bin/env bash
set -eu
uid="$1"
want="$2"
parts="${3:-}"
fail() { echo "typepaste: $1" >&2; exit 1; }
digest() { md5sum | cut -c1-32; }
if_parts() {
  n=0
  : > "$uid"
  for m in $(echo "$parts" | tr ',' ' '); do
    n=$((n + 1))
    [ -f "$uid.p$n" ] || fail "missing $uid.p$n"
    got=$(tr -d '\r\n' < "$uid.p$n" | digest)
    [ "$got" = "$m" ] || fail "md5 of $uid.p$n is $got, not $m"
    cat "$uid.p$n" >> "$uid"
  done
}
[ -z "$parts" ] || if_parts
cur="$uid"
case "$cur" in
  *.b32) out="${cur%.b32}"; tr -d '\r\n' < "$cur" | tr 'a-z' 'A-Z' | base32 -d > "$out"; cur="$out" ;;
  *.b64) out="${cur%.b64}"; tr -d '\r\n' < "$cur" | base64 -d > "$out"; cur="$out" ;;
  *.b16) out="${cur%.b16}"; tr -d '\r\n' < "$cur" | tr 'a-z' 'A-Z' | xxd -r -p > "$out"; cur="$out" ;;
esac
case "$cur" in
  *.gz) gunzip -f "$cur"; cur="${cur%.gz}" ;;
esac
got=$(digest < "$cur")
[ "$got" = "$want" ] || fail "md5 of $cur is $got, not $want"
case "$cur" in
  *.zip) unzip -o "$cur" ;;
esac
echo "typepaste: restored $cur"
"#;

/// macOS: no `base32` and no `md5sum`, so `python3` and `md5` stand in.
pub const RESTORE_MAC: &'static str = r#"#!/usr/bin/env bash
set -eu
uid="$1"
want="$2"
parts="${3:-}"
fail() { echo "typepaste: $1" >&2; exit 1; }
digest() { md5 -q; }
decode() { python3 -c "import sys,base64;d=sys.stdin.read();sys.stdout.buffer.write(getattr(base64,sys.argv[1])(''.join(d.split()) if sys.argv[1]=='b64decode' else ''.join(d.split()).upper()))" "$1"; }
if_parts() {
  n=0
  : > "$uid"
  for m in $(echo "$parts" | tr ',' ' '); do
    n=$((n + 1))
    [ -f "$uid.p$n" ] || fail "missing $uid.p$n"
    got=$(tr -d '\r\n' < "$uid.p$n" | digest)
    [ "$got" = "$m" ] || fail "md5 of $uid.p$n is $got, not $m"
    cat "$uid.p$n" >> "$uid"
  done
}
[ -z "$parts" ] || if_parts
cur="$uid"
case "$cur" in
  *.b32) out="${cur%.b32}"; decode b32decode < "$cur" > "$out"; cur="$out" ;;
  *.b64) out="${cur%.b64}"; decode b64decode < "$cur" > "$out"; cur="$out" ;;
  *.b16) out="${cur%.b16}"; decode b16decode < "$cur" > "$out"; cur="$out" ;;
esac
case "$cur" in
  *.gz) gunzip -f "$cur"; cur="${cur%.gz}" ;;
esac
got=$(digest < "$cur")
[ "$got" = "$want" ] || fail "md5 of $cur is $got, not $want"
case "$cur" in
  *.zip) unzip -o "$cur" ;;
esac
echo "typepaste: restored $cur"
"#;

/// Git Bash on Windows: GNU tools, without `unzip` and `xxd` at times, for which `python` stands in.
pub const RESTORE_GITBASH: &'static str = r#"#!/usr/bin/env bash
set -eu
uid="$1"
want="$2"
parts="${3:-}"
fail() { echo "typepaste: $1" >&2; exit 1; }
digest() { md5sum | cut -c1-32; }
if_parts() {
  n=0
  : > "$uid"
  for m in $(echo "$parts" | tr ',' ' '); do
    n=$((n + 1))
    [ -f "$uid.p$n" ] || fail "missing $uid.p$n"
    got=$(tr -d '\r\n' < "$uid.p$n" | digest)
    [ "$got" = "$m" ] || fail "md5 of $uid.p$n is $got, not $m"
    cat "$uid.p$n" >> "$uid"
  done
}
[ -z "$parts" ] || if_parts
cur="$uid"
case "$cur" in
  *.b32) out="${cur%.b32}"; tr -d '\r\n' < "$cur" | tr 'a-z' 'A-Z' | base32 -d > "$out"; cur="$out" ;;
  *.b64) out="${cur%.b64}"; tr -d '\r\n' < "$cur" | base64 -d > "$out"; cur="$out" ;;
  *.b16) out="${cur%.b16}"; tr -d '\r\n' < "$cur" | tr 'a-z' 'A-Z' | xxd -r -p > "$out"; cur="$out" ;;
esac
case "$cur" in
  *.gz) gunzip -f "$cur"; cur="${cur%.gz}" ;;
esac
got=$(digest < "$cur")
[ "$got" = "$want" ] || fail "md5 of $cur is $got, not $want"
case "$cur" in
  *.zip) unzip -o "$cur" || python -m zipfile -e "$cur" . ;;
esac
echo "typepaste: restored $cur"
"#;

/// PowerShell on Windows, with `python3` for what it has no tool for.
pub const RESTORE_POWERSHELL: &'static str = r#"param([string]$uid, [string]$want, [string]$parts = "")
$ErrorActionPreference = "Stop"
function Get-Md5($path) { (Get-FileHash -Algorithm MD5 -Path $path).Hash.ToLower() }
if ($parts -ne "") {
  $n = 0
  $all = ""
  foreach ($m in $parts.Split(",")) {
    $n = $n + 1
    $text = (Get-Content -Raw -Path "$uid.p$n") -replace "[\r\n]", ""
    Set-Content -Path "$uid.tmp" -Value $text -NoNewline -Encoding ascii
    $got = Get-Md5 "$uid.tmp"
    if ($got -ne $m) { throw "md5 of $uid.p$n is $got, not $m" }
    $all = $all + $text
  }
  Set-Content -Path $uid -Value $all -NoNewline -Encoding ascii
}
$cur = $uid
$py = "import sys,base64;d=''.join(open(sys.argv[2]).read().split());f=getattr(base64,sys.argv[1]);open(sys.argv[3],'wb').write(f(d if sys.argv[1]=='b64decode' else d.upper()))"
foreach ($k in @("b32", "b64", "b16")) {
  if ($cur.EndsWith(".$k")) {
    $out = $cur.Substring(0, $cur.Length - 4)
    python3 -c $py "$($k)decode" $cur $out
    $cur = $out
    break
  }
}
if ($cur.EndsWith(".gz")) {
  $out = $cur.Substring(0, $cur.Length - 3)
  python3 -c "import sys,gzip;open(sys.argv[2],'wb').write(gzip.open(sys.argv[1]).read())" $cur $out
  $cur = $out
}
$got = Get-Md5 $cur
if ($got -ne $want) { throw "md5 of $cur is $got, not $want" }
if ($cur.EndsWith(".zip")) { Expand-Archive -Force -Path $cur -DestinationPath . }
Write-Output "typepaste: restored $cur"
"#;

/// At most four bytes for each character.
proof fn lemma_utf8_len(s: Seq<char>)
    ensures
        encode_utf8(s).len() <= 4 * s.len(),
    decreases s.len(),
{
    if s.len() > 0 {
        lemma_utf8_len(s.drop_first());
    }
}

/// The scripts are short, and some of the tools that they call. A literal tells what it holds only where it
/// is written out.
pub proof fn lemma_scripts_are_short()
    ensures
        RESTORE_LINUX@.len() == 1014,
        RESTORE_LINUX@.subrange(118, 124) == "md5sum"@,
        RESTORE_LINUX@.subrange(555, 564) == "base32 -d"@,
        RESTORE_MAC@.len() == 1145,
        RESTORE_MAC@.subrange(118, 124) == "md5 -q"@,
        RESTORE_MAC@.subrange(710, 719) == "b32decode"@,
        RESTORE_GITBASH@.len() == 1047,
        RESTORE_GITBASH@.subrange(118, 124) == "md5sum"@,
        RESTORE_GITBASH@.subrange(977, 994) == "python -m zipfile"@,
        RESTORE_POWERSHELL@.len() == 1378,
        RESTORE_POWERSHELL@.subrange(115, 127) == "Get-FileHash"@,
        encode_utf8(RESTORE_LINUX@).len() <= 16384,
        encode_utf8(RESTORE_MAC@).len() <= 16384,
        encode_utf8(RESTORE_GITBASH@).len() <= 16384,
        encode_utf8(RESTORE_POWERSHELL@).len() <= 16384,
{
    reveal_strlit(r#"#!/usr/bin/env bash
set -eu
uid="$1"
want="$2"
parts="${3:-}"
fail() { echo "typepaste: $1" >&2; exit 1; }
digest() { md5sum | cut -c1-32; }
if_parts() {
  n=0
  : > "$uid"
  for m in $(echo "$parts" | tr ',' ' '); do
    n=$((n + 1))
    [ -f "$uid.p$n" ] || fail "missing $uid.p$n"
    got=$(tr -d '\r\n' < "$uid.p$n" | digest)
    [ "$got" = "$m" ] || fail "md5 of $uid.p$n is $got, not $m"
    cat "$uid.p$n" >> "$uid"
  done
}
[ -z "$parts" ] || if_parts
cur="$uid"
case "$cur" in
  *.b32) out="${cur%.b32}"; tr -d '\r\n' < "$cur" | tr 'a-z' 'A-Z' | base32 -d > "$out"; cur="$out" ;;
  *.b64) out="${cur%.b64}"; tr -d '\r\n' < "$cur" | base64 -d > "$out"; cur="$out" ;;
  *.b16) out="${cur%.b16}"; tr -d '\r\n' < "$cur" | tr 'a-z' 'A-Z' | xxd -r -p > "$out"; cur="$out" ;;
esac
case "$cur" in
  *.gz) gunzip -f "$cur"; cur="${cur%.gz}" ;;
esac
got=$(digest < "$cur")
[ "$got" = "$want" ] || fail "md5 of $cur is $got, not $want"
case "$cur" in
  *.zip) unzip -o "$cur" ;;
esac
echo "typepaste: restored $cur"
"#);
    reveal_strlit(r#"#!/usr/bin/env bash
set -eu
uid="$1"
want="$2"
parts="${3:-}"
fail() { echo "typepaste: $1" >&2; exit 1; }
digest() { md5 -q; }
decode() { python3 -c "import sys,base64;d=sys.stdin.read();sys.stdout.buffer.write(getattr(base64,sys.argv[1])(''.join(d.split()) if sys.argv[1]=='b64decode' else ''.join(d.split()).upper()))" "$1"; }
if_parts() {
  n=0
  : > "$uid"
  for m in $(echo "$parts" | tr ',' ' '); do
    n=$((n + 1))
    [ -f "$uid.p$n" ] || fail "missing $uid.p$n"
    got=$(tr -d '\r\n' < "$uid.p$n" | digest)
    [ "$got" = "$m" ] || fail "md5 of $uid.p$n is $got, not $m"
    cat "$uid.p$n" >> "$uid"
  done
}
[ -z "$parts" ] || if_parts
cur="$uid"
case "$cur" in
  *.b32) out="${cur%.b32}"; decode b32decode < "$cur" > "$out"; cur="$out" ;;
  *.b64) out="${cur%.b64}"; decode b64decode < "$cur" > "$out"; cur="$out" ;;
  *.b16) out="${cur%.b16}"; decode b16decode < "$cur" > "$out"; cur="$out" ;;
esac
case "$cur" in
  *.gz) gunzip -f "$cur"; cur="${cur%.gz}" ;;
esac
got=$(digest < "$cur")
[ "$got" = "$want" ] || fail "md5 of $cur is $got, not $want"
case "$cur" in
  *.zip) unzip -o "$cur" ;;
esac
echo "typepaste: restored $cur"
"#);
    reveal_strlit(r#"#!/usr/bin/env bash
set -eu
uid="$1"
want="$2"
parts="${3:-}"
fail() { echo "typepaste: $1" >&2; exit 1; }
digest() { md5sum | cut -c1-32; }
if_parts() {
  n=0
  : > "$uid"
  for m in $(echo "$parts" | tr ',' ' '); do
    n=$((n + 1))
    [ -f "$uid.p$n" ] || fail "missing $uid.p$n"
    got=$(tr -d '\r\n' < "$uid.p$n" | digest)
    [ "$got" = "$m" ] || fail "md5 of $uid.p$n is $got, not $m"
    cat "$uid.p$n" >> "$uid"
  done
}
[ -z "$parts" ] || if_parts
cur="$uid"
case "$cur" in
  *.b32) out="${cur%.b32}"; tr -d '\r\n' < "$cur" | tr 'a-z' 'A-Z' | base32 -d > "$out"; cur="$out" ;;
  *.b64) out="${cur%.b64}"; tr -d '\r\n' < "$cur" | base64 -d > "$out"; cur="$out" ;;
  *.b16) out="${cur%.b16}"; tr -d '\r\n' < "$cur" | tr 'a-z' 'A-Z' | xxd -r -p > "$out"; cur="$out" ;;
esac
case "$cur" in
  *.gz) gunzip -f "$cur"; cur="${cur%.gz}" ;;
esac
got=$(digest < "$cur")
[ "$got" = "$want" ] || fail "md5 of $cur is $got, not $want"
case "$cur" in
  *.zip) unzip -o "$cur" || python -m zipfile -e "$cur" . ;;
esac
echo "typepaste: restored $cur"
"#);
    reveal_strlit(r#"param([string]$uid, [string]$want, [string]$parts = "")
$ErrorActionPreference = "Stop"
function Get-Md5($path) { (Get-FileHash -Algorithm MD5 -Path $path).Hash.ToLower() }
if ($parts -ne "") {
  $n = 0
  $all = ""
  foreach ($m in $parts.Split(",")) {
    $n = $n + 1
    $text = (Get-Content -Raw -Path "$uid.p$n") -replace "[\r\n]", ""
    Set-Content -Path "$uid.tmp" -Value $text -NoNewline -Encoding ascii
    $got = Get-Md5 "$uid.tmp"
    if ($got -ne $m) { throw "md5 of $uid.p$n is $got, not $m" }
    $all = $all + $text
  }
  Set-Content -Path $uid -Value $all -NoNewline -Encoding ascii
}
$cur = $uid
$py = "import sys,base64;d=''.join(open(sys.argv[2]).read().split());f=getattr(base64,sys.argv[1]);open(sys.argv[3],'wb').write(f(d if sys.argv[1]=='b64decode' else d.upper()))"
foreach ($k in @("b32", "b64", "b16")) {
  if ($cur.EndsWith(".$k")) {
    $out = $cur.Substring(0, $cur.Length - 4)
    python3 -c $py "$($k)decode" $cur $out
    $cur = $out
    break
  }
}
if ($cur.EndsWith(".gz")) {
  $out = $cur.Substring(0, $cur.Length - 3)
  python3 -c "import sys,gzip;open(sys.argv[2],'wb').write(gzip.open(sys.argv[1]).read())" $cur $out
  $cur = $out
}
$got = Get-Md5 $cur
if ($got -ne $want) { throw "md5 of $cur is $got, not $want" }
if ($cur.EndsWith(".zip")) { Expand-Archive -Force -Path $cur -DestinationPath . }
Write-Output "typepaste: restored $cur"
"#);
    reveal_strlit("md5sum");
    reveal_strlit("base32 -d");
    reveal_strlit("md5 -q");
    reveal_strlit("b32decode");
    reveal_strlit("python -m zipfile");
    reveal_strlit("Get-FileHash");
    assert(RESTORE_LINUX@.subrange(118, 124) =~= "md5sum"@);
    assert(RESTORE_LINUX@.subrange(555, 564) =~= "base32 -d"@);
    assert(RESTORE_MAC@.subrange(118, 124) =~= "md5 -q"@);
    assert(RESTORE_MAC@.subrange(710, 719) =~= "b32decode"@);
    assert(RESTORE_GITBASH@.subrange(118, 124) =~= "md5sum"@);
    assert(RESTORE_GITBASH@.subrange(977, 994) =~= "python -m zipfile"@);
    assert(RESTORE_POWERSHELL@.subrange(115, 127) =~= "Get-FileHash"@);
    lemma_utf8_len(RESTORE_LINUX@);
    lemma_utf8_len(RESTORE_MAC@);
    lemma_utf8_len(RESTORE_GITBASH@);
    lemma_utf8_len(RESTORE_POWERSHELL@);
}

} // verus!
