//! Restoring on the target machine: its platforms, the steps that a file name asks for, and the
//! commands of its shells.

use vstd::prelude::*;
use vstd::slice::slice_subrange;
use crate::encoder::{Encoder, Encoding};
use crate::scripts::{
    lemma_scripts_are_short, RESTORE_GITBASH, RESTORE_LINUX, RESTORE_MAC, RESTORE_POWERSHELL,
};
use crate::text::{
    all_digits, chars_of, dec, digits_value, ends, ends_with, is_digit, law_dec_parses, lemma_dec, parse_usize,
    parsed_usize,
};

verus! {

/// The shell of the target machine, which decides how commands are written.
#[derive(Debug, Clone, Copy, PartialEq, Eq, Structural)]
pub enum Shell {
    /// Bash (Linux, macOS, Git Bash).
    Bash,
    /// PowerShell.
    Powershell,
}

/// The platform of the target machine.
#[derive(Debug, Clone, Copy, PartialEq, Eq, Structural)]
pub enum Target {
    /// Linux, with the GNU tools.
    Linux,
    /// macOS, without `base32` and `md5sum`.
    Mac,
    /// Git Bash on Windows.
    Gitbash,
    /// PowerShell on Windows.
    Powershell,
}

impl Target {
    /// What `label` gives.
    pub open spec fn name(self) -> Seq<char> {
        match self {
            Target::Linux => "linux"@,
            Target::Mac => "mac"@,
            Target::Gitbash => "gitbash"@,
            Target::Powershell => "powershell"@,
        }
    }

    /// What `script` gives.
    pub open spec fn source(self) -> Seq<char> {
        match self {
            Target::Linux => RESTORE_LINUX@,
            Target::Mac => RESTORE_MAC@,
            Target::Gitbash => RESTORE_GITBASH@,
            Target::Powershell => RESTORE_POWERSHELL@,
        }
    }

    /// What `landing_name` gives.
    pub open spec fn landing(self) -> Seq<char> {
        if self == Target::Powershell {
            "typepaste-restore.ps1"@
        } else {
            "typepaste-restore.sh"@
        }
    }

    /// The name of the platform.
    pub fn label(self) -> (r: &'static str)
        ensures
            r@ == self.name(),
    {
        match self {
            Target::Linux => "linux",
            Target::Mac => "mac",
            Target::Gitbash => "gitbash",
            Target::Powershell => "powershell",
        }
    }

    /// The restore script for the platform.
    pub fn script(self) -> (r: &'static str)
        ensures
            r@ == self.source(),
    {
        match self {
            Target::Linux => RESTORE_LINUX,
            Target::Mac => RESTORE_MAC,
            Target::Gitbash => RESTORE_GITBASH,
            Target::Powershell => RESTORE_POWERSHELL,
        }
    }

    /// The file name under which the script lands.
    pub fn landing_name(self) -> (r: &'static str)
        ensures
            r@ == self.landing(),
    {
        match self {
            Target::Powershell => "typepaste-restore.ps1",
            _ => "typepaste-restore.sh",
        }
    }

    /// All platforms.
    pub fn all() -> (r: [Target; 4])
        ensures
            r@ == seq![Target::Linux, Target::Mac, Target::Gitbash, Target::Powershell],
    {
        [Target::Linux, Target::Mac, Target::Gitbash, Target::Powershell]
    }
}

/// What a file name says has to be undone.
#[derive(Debug, Clone, PartialEq, Eq)]
pub struct Ops {
    /// The text encoding (`.b32`, `.b64` or `.b16`).
    pub decode: Option<Encoding>,
    /// Whether it is compressed (`.gz`).
    pub gunzip: bool,
    /// Whether it is an archive (`.zip`).
    pub unzip: bool,
    /// The number of the part (`.p3`).
    pub part: Option<usize>,
}

/// Where the digits at the end of a text begin.
pub open spec fn digits_start(s: Seq<char>) -> int
    decreases s.len(),
{
    if s.len() > 0 && is_digit(s.last()) {
        digits_start(s.drop_last())
    } else {
        s.len() as int
    }
}

/// Whether a name ends in `.p` and digits.
pub open spec fn has_part(s: Seq<char>) -> bool {
    let i = digits_start(s);
    2 <= i < s.len() && s[i - 2] == '.' && s[i - 1] == 'p'
}

/// The name without its part.
pub open spec fn part_name(s: Seq<char>) -> Seq<char> {
    if has_part(s) {
        s.take(digits_start(s) - 2)
    } else {
        s
    }
}

/// The encoding that a name ends in.
pub open spec fn encoding_of(s: Seq<char>) -> Option<Encoding> {
    if ends(s, ".b32"@) {
        Some(Encoding::Base32)
    } else if ends(s, ".b64"@) {
        Some(Encoding::Base64)
    } else if ends(s, ".b16"@) {
        Some(Encoding::Base16)
    } else {
        None
    }
}

/// The name without the suffix of its encoding.
pub open spec fn plain_name(s: Seq<char>) -> Seq<char> {
    if encoding_of(s) is Some {
        s.take(s.len() - 4)
    } else {
        s
    }
}

/// The name without `.gz`.
pub open spec fn unpacked_name(s: Seq<char>) -> Seq<char> {
    if ends(s, ".gz"@) {
        s.take(s.len() - 3)
    } else {
        s
    }
}

/// What `parse_ops` gives.
pub open spec fn ops_of(uid: Seq<char>) -> Ops {
    let n = plain_name(part_name(uid));
    Ops {
        decode: encoding_of(part_name(uid)),
        gunzip: ends(n, ".gz"@),
        unzip: ends(unpacked_name(n), ".zip"@),
        part: if has_part(uid) {
            parsed_usize(uid.skip(digits_start(uid)))
        } else {
            None
        },
    }
}

/// Whether the part number of a name, if it has one, is within range.
pub open spec fn part_in_range(uid: Seq<char>) -> bool {
    has_part(uid) ==> digits_value(uid.skip(digits_start(uid))) <= usize::MAX
}

proof fn lemma_digits_start(s: Seq<char>)
    ensures
        0 <= digits_start(s) <= s.len(),
        forall|k: int| digits_start(s) <= k < s.len() ==> is_digit(#[trigger] s[k]),
        digits_start(s) > 0 ==> !is_digit(s[digits_start(s) - 1]),
    decreases s.len(),
{
    if s.len() > 0 && is_digit(s.last()) {
        lemma_digits_start(s.drop_last());
        assert forall|k: int| digits_start(s) <= k < s.len() implies is_digit(#[trigger] s[k]) by {
            if k < s.len() - 1 {
                assert(s[k] == s.drop_last()[k]);
            }
        }
        if digits_start(s) > 0 {
            assert(s[digits_start(s) - 1] == s.drop_last()[digits_start(s) - 1]);
        }
    }
}

proof fn lemma_digits_start_is(s: Seq<char>, i: int)
    requires
        0 <= i <= s.len(),
        forall|k: int| i <= k < s.len() ==> is_digit(#[trigger] s[k]),
        i > 0 ==> !is_digit(s[i - 1]),
    ensures
        digits_start(s) == i,
    decreases s.len(),
{
    if i < s.len() {
        assert(is_digit(s[s.len() - 1]));
        lemma_digits_start_is(s.drop_last(), i);
    }
}

fn suffix(name: &[char], s: &str) -> (r: bool)
    ensures
        r == ends(name@, s@),
{
    let v = chars_of(s);
    ends_with(name, v.as_slice())
}

/// Reads off a file name what has to be undone, from its end: part, encoding, compression, archive. A
/// part number has to be within range.
pub fn parse_ops(uid_full: &str) -> (r: Ops)
    requires
        part_in_range(uid_full@),
    ensures
        r == ops_of(uid_full@),
{
    let v = chars_of(uid_full);
    let mut name: &[char] = v.as_slice();
    let mut part: Option<usize> = None;
    let mut i: usize = name.len();
    while i > 0 && '0' <= name[i - 1] && name[i - 1] <= '9'
        invariant
            i <= name@.len(),
            forall|k: int| i <= k < name@.len() ==> is_digit(#[trigger] name@[k]),
        decreases i,
    {
        i -= 1;
    }
    proof {
        lemma_digits_start_is(name@, i as int);
    }
    if i >= 2 && i < name.len() && name[i - 2] == '.' && name[i - 1] == 'p' {
        let digits = slice_subrange(name, i, name.len());
        assert(digits@ =~= name@.skip(i as int));
        part = parse_usize(digits);
        name = slice_subrange(name, 0, i - 2);
        assert(name@ =~= uid_full@.take(i as int - 2));
    }
    assert(name@ == part_name(uid_full@));
    proof {
        reveal_strlit(".b32");
        reveal_strlit(".b64");
        reveal_strlit(".b16");
        reveal_strlit(".gz");
    }
    let mut decode: Option<Encoding> = None;
    if suffix(name, ".b32") {
        decode = Some(Encoding::Base32);
    } else if suffix(name, ".b64") {
        decode = Some(Encoding::Base64);
    } else if suffix(name, ".b16") {
        decode = Some(Encoding::Base16);
    }
    if decode.is_some() {
        let n = name.len();
        name = slice_subrange(name, 0, n - 4);
    }
    assert(name@ =~= plain_name(part_name(uid_full@)));
    let gunzip = suffix(name, ".gz");
    if gunzip {
        let n = name.len();
        name = slice_subrange(name, 0, n - 3);
    }
    assert(name@ =~= unpacked_name(plain_name(part_name(uid_full@))));
    let unzip = suffix(name, ".zip");
    Ops { decode, gunzip, unzip, part }
}

/// The name of a transfer: the base, then `.zip` for an archive, `.gz` for compression and the suffix of
/// the encoding.
pub open spec fn uid_of(
    base: Seq<char>,
    is_dir: bool,
    is_compressed: bool,
    encoding: Option<Encoding>,
) -> Seq<char> {
    let a = if is_dir {
        base + ".zip"@
    } else {
        base
    };
    let b = if is_compressed {
        a + ".gz"@
    } else {
        a
    };
    match encoding {
        Some(e) => b + "."@ + e.chosen().ending(),
        None => b,
    }
}

/// The name of an encoded transfer says what was done to the data, except for the archive. The base must
/// not itself end in `.gz` where nothing was compressed.
pub proof fn lemma_uid_names_codec(base: Seq<char>, is_dir: bool, is_compressed: bool, e: Encoding)
    requires
        !is_dir && !is_compressed ==> !ends(base, ".gz"@),
    ensures
        ({
            let uid = uid_of(base, is_dir, is_compressed, Some(e));
            let a = if is_dir {
                base + ".zip"@
            } else {
                base
            };
            &&& ops_of(uid).decode == Some(e)
            &&& ops_of(uid).gunzip == is_compressed
            &&& ops_of(uid).part is None
            &&& ops_of(uid).unzip == ends(a, ".zip"@)
        }),
{
    reveal_strlit(".zip");
    reveal_strlit(".gz");
    reveal_strlit(".");
    reveal_strlit(".b32");
    reveal_strlit(".b64");
    reveal_strlit(".b16");
    reveal_strlit("b32");
    reveal_strlit("b64");
    reveal_strlit("b16");
    let a = if is_dir {
        base + ".zip"@
    } else {
        base
    };
    let b = if is_compressed {
        a + ".gz"@
    } else {
        a
    };
    let uid = uid_of(base, is_dir, is_compressed, Some(e));
    let n = b.len() as int;
    assert(uid.len() == n + 4);
    assert(uid[n] == '.' && uid[n + 1] == 'b');
    assert(is_digit(uid[n + 2]) && is_digit(uid[n + 3]));
    lemma_digits_start_is(uid, n + 2);
    assert(!has_part(uid));
    assert(ends(uid, "."@ + e.chosen().ending())) by {
        assert(uid.skip(n) =~= "."@ + e.chosen().ending());
    }
    assert("."@ + "b32"@ =~= ".b32"@);
    assert("."@ + "b64"@ =~= ".b64"@);
    assert("."@ + "b16"@ =~= ".b16"@);
    assert(encoding_of(uid) == Some(e)) by {
        assert(uid.subrange(n, n + 4) =~= "."@ + e.chosen().ending());
        assert(".b32"@[2] == '3' && ".b64"@[2] == '6' && ".b16"@[2] == '1');
        assert(uid.subrange(n, n + 4)[2] == uid[n + 2]);
    }
    assert(plain_name(uid) =~= b);
    if is_compressed {
        assert(b.subrange(a.len() as int, b.len() as int) =~= ".gz"@);
        assert(unpacked_name(b) =~= a);
    } else if is_dir {
        assert(b.subrange(b.len() - 3, b.len() as int)[0] == 'z');
        assert(".gz"@[0] == '.');
        assert(!ends(b, ".gz"@));
    }
}

/// The name of an encoded transfer says exactly what was done to the data: the target machine undoes
/// those steps and no others. The base must not itself end like a step that was not taken (a file
/// called `x.zip` sent as it is).
pub proof fn law_uid_names_pipeline(base: Seq<char>, is_dir: bool, is_compressed: bool, e: Encoding)
    requires
        !is_dir ==> !ends(base, ".zip"@),
        !is_dir && !is_compressed ==> !ends(base, ".gz"@),
    ensures
        ops_of(uid_of(base, is_dir, is_compressed, Some(e))) == (Ops {
            decode: Some(e),
            gunzip: is_compressed,
            unzip: is_dir,
            part: None,
        }),
{
    lemma_uid_names_codec(base, is_dir, is_compressed, e);
    if is_dir {
        let a = base + ".zip"@;
        assert(a.subrange(base.len() as int, a.len() as int) =~= ".zip"@);
    }
}

/// The name of a part of a transfer.
pub open spec fn part_uid(uid: Seq<char>, n: nat) -> Seq<char> {
    uid + ".p"@ + dec(n)
}

/// The name of a part says which part it is, and of the rest what the name of the transfer says.
pub proof fn law_part_uid_names_part(uid: Seq<char>, n: usize)
    requires
        !has_part(uid),
    ensures
        part_in_range(part_uid(uid, n as nat)),
        ops_of(part_uid(uid, n as nat)) == (Ops { part: Some(n), ..ops_of(uid) }),
{
    reveal_strlit(".p");
    let d = dec(n as nat);
    let s = part_uid(uid, n as nat);
    let i = uid.len() as int + 2;
    lemma_dec(n as nat);
    law_dec_parses(n as nat);
    assert forall|k: int| i <= k < s.len() implies is_digit(#[trigger] s[k]) by {
        assert(s[k] == d[k - i]);
    }
    assert(s[i - 1] == 'p' && s[i - 2] == '.');
    lemma_digits_start_is(s, i);
    assert(s.skip(i) =~= d);
    assert(s.take(i - 2) =~= uid);
}

/// What `decode_cmd` gives.
pub open spec fn decode_cmd_of(encoding: Encoding, file: Seq<char>, out: Seq<char>) -> Seq<char> {
    match encoding {
        Encoding::Base32 => "cat "@ + file + " | tr 'a-z' 'A-Z' | base32 -d > "@ + out,
        Encoding::Base64 => "base64 -d "@ + file + " > "@ + out,
        Encoding::Base16 => "cat "@ + file + " | tr 'a-z' 'A-Z' | xxd -r -p > "@ + out,
    }
}

/// Joins four texts.
fn join4(a: &str, b: &str, c: &str, d: &str) -> (r: String)
    ensures
        r@ == a@ + b@ + c@ + d@,
{
    let mut r = a.to_string();
    r.append(b);
    r.append(c);
    r.append(d);
    r
}

/// The command that decodes a file into another.
pub fn decode_cmd(encoding: Encoding, encoded_file: &str, out_name: &str) -> (r: String)
    ensures
        r@ == decode_cmd_of(encoding, encoded_file@, out_name@),
{
    match encoding {
        Encoding::Base32 => join4(
            "cat ",
            encoded_file,
            " | tr 'a-z' 'A-Z' | base32 -d > ",
            out_name,
        ),
        Encoding::Base64 => join4("base64 -d ", encoded_file, " > ", out_name),
        Encoding::Base16 => join4(
            "cat ",
            encoded_file,
            " | tr 'a-z' 'A-Z' | xxd -r -p > ",
            out_name,
        ),
    }
}

/// What `heredoc_header` gives.
pub open spec fn heredoc_header_of(shell: Shell, file: Seq<char>) -> Seq<char> {
    match shell {
        Shell::Bash => "cat > "@ + file + " << 'EOF'\n"@,
        Shell::Powershell => "$content = @'\n"@,
    }
}

/// The command before text that is to become a file.
pub fn heredoc_header(shell: Shell, file: &str) -> (r: String)
    ensures
        r@ == heredoc_header_of(shell, file@),
{
    match shell {
        Shell::Bash => {
            let mut r = "cat > ".to_string();
            r.append(file);
            r.append(" << 'EOF'\n");
            r
        },
        Shell::Powershell => "$content = @'\n".to_string(),
    }
}

/// What `heredoc_footer` gives.
pub open spec fn heredoc_footer_of(shell: Shell, file: Seq<char>) -> Seq<char> {
    match shell {
        Shell::Bash => "\nEOF\n"@,
        Shell::Powershell => "\n'@\nSet-Content -Path \""@ + file + "\" -Value $content -NoNewline\n"@,
    }
}

/// The command after text that is to become a file.
pub fn heredoc_footer(shell: Shell, file: &str) -> (r: String)
    ensures
        r@ == heredoc_footer_of(shell, file@),
{
    match shell {
        Shell::Bash => "\nEOF\n".to_string(),
        Shell::Powershell => {
            let mut r = "\n'@\nSet-Content -Path \"".to_string();
            r.append(file);
            r.append("\" -Value $content -NoNewline\n");
            r
        },
    }
}

/// What `decode_cmd_for_shell` gives.
pub open spec fn decode_cmd_for_shell_of(
    shell: Shell,
    encoding: Encoding,
    file: Seq<char>,
    out: Seq<char>,
) -> Seq<char> {
    match shell {
        Shell::Bash => decode_cmd_of(encoding, file, out),
        Shell::Powershell => match encoding {
            Encoding::Base32 =>
                "python3 -c \"import sys,base64;open(sys.argv[2],'wb').write(base64.b32decode(open(sys.argv[1]).read().upper()))\" "@
                    + file + " "@ + out,
            Encoding::Base64 =>
                "python3 -c \"import sys,base64;open(sys.argv[2],'wb').write(base64.b64decode(open(sys.argv[1]).read()))\" "@
                    + file + " "@ + out,
            Encoding::Base16 =>
                "python3 -c \"import sys;data=open(sys.argv[1]).read().strip().upper();open(sys.argv[2],'wb').write(bytes.fromhex(data))\" "@
                    + file + " "@ + out,
        },
    }
}

/// The command that decodes a file into another, in the given shell. PowerShell has `python3` do it.
pub fn decode_cmd_for_shell(
    shell: Shell,
    encoding: Encoding,
    encoded_file: &str,
    out_name: &str,
) -> (r: String)
    ensures
        r@ == decode_cmd_for_shell_of(shell, encoding, encoded_file@, out_name@),
{
    match shell {
        Shell::Bash => decode_cmd(encoding, encoded_file, out_name),
        Shell::Powershell => match encoding {
            Encoding::Base32 => join4(
                "python3 -c \"import sys,base64;open(sys.argv[2],'wb').write(base64.b32decode(open(sys.argv[1]).read().upper()))\" ",
                encoded_file,
                " ",
                out_name,
            ),
            Encoding::Base64 => join4(
                "python3 -c \"import sys,base64;open(sys.argv[2],'wb').write(base64.b64decode(open(sys.argv[1]).read()))\" ",
                encoded_file,
                " ",
                out_name,
            ),
            Encoding::Base16 => join4(
                "python3 -c \"import sys;data=open(sys.argv[1]).read().strip().upper();open(sys.argv[2],'wb').write(bytes.fromhex(data))\" ",
                encoded_file,
                " ",
                out_name,
            ),
        },
    }
}

/// Whether a text stands at a place in another.
pub open spec fn stands_at(script: Seq<char>, tool: Seq<char>, i: int) -> bool {
    0 <= i && i + tool.len() <= script.len() && script.subrange(i, i + tool.len()) == tool
}

/// Whether a script calls a tool.
pub open spec fn calls(script: Seq<char>, tool: Seq<char>) -> bool {
    exists|i: int| stands_at(script, tool, i)
}

/// Each platform has a script of its own, which calls the tools that it has: `md5sum` and `base32` on
/// Linux, `md5` and Python on macOS, Python for archives in Git Bash, and what PowerShell brings along.
pub proof fn law_scripts_suit_their_platforms(a: Target, b: Target)
    ensures
        a != b ==> a.source() != b.source(),
        calls(Target::Linux.source(), "md5sum"@),
        calls(Target::Linux.source(), "base32 -d"@),
        calls(Target::Mac.source(), "md5 -q"@),
        calls(Target::Mac.source(), "b32decode"@),
        calls(Target::Gitbash.source(), "md5sum"@),
        calls(Target::Gitbash.source(), "python -m zipfile"@),
        calls(Target::Powershell.source(), "Get-FileHash"@),
{
    lemma_scripts_are_short();
    reveal_strlit("md5sum");
    reveal_strlit("base32 -d");
    reveal_strlit("md5 -q");
    reveal_strlit("b32decode");
    reveal_strlit("python -m zipfile");
    reveal_strlit("Get-FileHash");
    let l = Target::Linux.source();
    let m = Target::Mac.source();
    let g = Target::Gitbash.source();
    let p = Target::Powershell.source();
    assert(stands_at(l, "md5sum"@, 118));
    assert(stands_at(l, "base32 -d"@, 555));
    assert(stands_at(m, "md5 -q"@, 118));
    assert(stands_at(m, "b32decode"@, 710));
    assert(stands_at(g, "md5sum"@, 118));
    assert(stands_at(g, "python -m zipfile"@, 977));
    assert(stands_at(p, "Get-FileHash"@, 115));
}

/// The names of the platforms, and under which name a script lands: that of a PowerShell script only on
/// PowerShell, and else that of a shell script.
pub proof fn law_platforms_are_told_apart(t: Target)
    ensures
        Target::Linux.name() == seq!['l', 'i', 'n', 'u', 'x'],
        Target::Mac.name() == seq!['m', 'a', 'c'],
        Target::Gitbash.name() == seq!['g', 'i', 't', 'b', 'a', 's', 'h'],
        Target::Powershell.name() == seq!['p', 'o', 'w', 'e', 'r', 's', 'h', 'e', 'l', 'l'],
        ends(t.landing(), seq!['.', 'p', 's', '1']) <==> t == Target::Powershell,
        ends(t.landing(), seq!['.', 's', 'h']) <==> t != Target::Powershell,
{
    reveal_strlit("linux");
    reveal_strlit("mac");
    reveal_strlit("gitbash");
    reveal_strlit("powershell");
    reveal_strlit("typepaste-restore.ps1");
    reveal_strlit("typepaste-restore.sh");
    assert(Target::Linux.name() =~= seq!['l', 'i', 'n', 'u', 'x']);
    assert(Target::Mac.name() =~= seq!['m', 'a', 'c']);
    assert(Target::Gitbash.name() =~= seq!['g', 'i', 't', 'b', 'a', 's', 'h']);
    assert(Target::Powershell.name() =~= seq!['p', 'o', 'w', 'e', 'r', 's', 'h', 'e', 'l', 'l']);
    let p = "typepaste-restore.ps1"@;
    let s = "typepaste-restore.sh"@;
    assert(p.skip(17) =~= seq!['.', 'p', 's', '1']);
    assert(s.skip(17) =~= seq!['.', 's', 'h']);
    assert(p.skip(18)[0] == 'p');
    assert(s.skip(16)[0] == 'e');
}

/// Whether a name is another name with `.p` and a number behind it.
pub open spec fn is_part_of(uid: Seq<char>, name: Seq<char>, digits: Seq<char>) -> bool {
    uid == name + seq!['.', 'p'] + digits && digits.len() > 0 && all_digits(digits)
}

/// A name is read from its end. A part is what ends in `.p` and digits, and nothing else; the rest of the
/// name is then read as if it were the whole. A text is encoded, data is compressed, and an archive is to be
/// unpacked exactly if the name, without what was read before, ends in the suffix for it.
pub proof fn law_names_are_read_from_the_end(uid: Seq<char>, name: Seq<char>, digits: Seq<char>)
    ensures
        is_part_of(uid, name, digits) && digits_value(digits) <= usize::MAX ==> ops_of(uid).part == Some(
            digits_value(digits) as usize,
        ),
        ops_of(uid).part is Some ==> exists|n: Seq<char>, d: Seq<char>| is_part_of(uid, n, d),
        ops_of(uid).part is None && part_in_range(uid) ==> {
            &&& ops_of(uid).decode == Some(Encoding::Base32) <==> ends(uid, ".b32"@)
            &&& ops_of(uid).decode == Some(Encoding::Base64) <==> ends(uid, ".b64"@)
            &&& ops_of(uid).decode == Some(Encoding::Base16) <==> ends(uid, ".b16"@)
            &&& ops_of(uid).decode is None ==> (ops_of(uid).gunzip <==> ends(uid, ".gz"@))
            &&& ops_of(uid).decode is Some ==> (ops_of(uid).gunzip <==> ends(uid.take(uid.len() - 4), ".gz"@))
            &&& ops_of(uid).decode is None && !ops_of(uid).gunzip ==> (ops_of(uid).unzip <==> ends(
                uid,
                ".zip"@,
            ))
            &&& ops_of(uid).decode is Some && !ops_of(uid).gunzip ==> (ops_of(uid).unzip <==> ends(
                uid.take(uid.len() - 4),
                ".zip"@,
            ))
            &&& ops_of(uid).decode is None && ops_of(uid).gunzip ==> (ops_of(uid).unzip <==> ends(
                uid.take(uid.len() - 3),
                ".zip"@,
            ))
            &&& ops_of(uid).decode is Some && ops_of(uid).gunzip ==> (ops_of(uid).unzip <==> ends(
                uid.take(uid.len() - 7),
                ".zip"@,
            ))
        },
{
    lemma_digits_start(uid);
    let i = digits_start(uid);
    if is_part_of(uid, name, digits) {
        let k = name.len() as int + 2;
        assert forall|j: int| k <= j < uid.len() implies is_digit(#[trigger] uid[j]) by {
            assert(uid[j] == digits[j - k]);
            assert(is_digit(digits[j - k]));
        }
        assert(uid[k - 1] == 'p' && uid[k - 2] == '.');
        lemma_digits_start_is(uid, k);
        assert(uid.skip(k) =~= digits);
        assert(is_digit(digits[0]));
    }
    if has_part(uid) {
        let n = uid.take(i - 2);
        let d = uid.skip(i);
        assert forall|j: int| 0 <= j < d.len() implies is_digit(#[trigger] d[j]) by {
            assert(d[j] == uid[i + j]);
        }
        assert(uid =~= n + seq!['.', 'p'] + d);
        assert(is_part_of(uid, n, d));
        assert(is_digit(d[0]));
    } else {
        reveal_strlit(".b32");
        reveal_strlit(".b64");
        reveal_strlit(".b16");
        reveal_strlit(".gz");
        assert(".b32"@[2] == '3' && ".b64"@[2] == '6' && ".b16"@[2] == '1');
        if uid.len() >= 4 {
            let t = uid.skip(uid.len() - 4);
            assert(t == ".b32"@ ==> t[2] == '3');
            assert(t == ".b64"@ ==> t[2] == '6');
            assert(t == ".b16"@ ==> t[2] == '1');
            let q = uid.take(uid.len() - 4);
            if q.len() >= 3 {
                assert(q.take(q.len() - 3) =~= uid.take(uid.len() - 7));
            }
        }
    }
}

} // verus!
