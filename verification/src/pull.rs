//! Transfer back: the remote machine shows a file on its screen, chunk by chunk, and the screen is read.
//!
//! Each chunk comes with its digest and is read again until it is right; in the end the digest of the
//! whole file has to be right.

use vstd::prelude::*;
use vstd::slice::slice_subrange;
use vstd::utf8::{encode_utf8, is_ascii_chars, is_ascii_chars_encode_utf8};
use crate::ocr::{file_info_of, hex_chunk_of, parse_file_info, parse_hex_chunk};
use crate::parts::{chunks, concat, law_parts_make_whole};
use crate::radix::{
    decoded, encoded, in_alphabet, law_decode_encode, lemma_encoded_chars, Alphabet,
};
use crate::restore_script::Shell;
use crate::screen::{chunk_ok, retry_wait_ms, wait_before, Region, Wanted};
use crate::text::{
    chars_of, contains_char, dec, dec_string, ends, found, is_digit, is_space, is_whitespace, law_lines_are_cut,
    lemma_dec, lemma_found, lemma_position_is, lemma_split_at, lemma_stripped_start, lines, lines_of, push_dec,
    push_quoted, quoted, same_str, split, starts, string_of, strip_start, stripped_start, texts, Strip,
};
use crate::utils::{md5_hex, md5_of_bytes};

verus! {

/// What a transfer back asks for.
pub struct PullArgs {
    /// The file on the remote machine.
    pub remote_path: String,
    /// Where to put it; by default under its own name.
    pub local_out: Option<String>,
    /// The shell of the remote machine.
    pub shell: Shell,
    /// The bytes in a chunk. On the screen each takes two characters.
    pub chunk_bytes: usize,
    /// How often one chunk is looked at.
    pub max_retry: usize,
    /// Milliseconds between two characters.
    pub interval: u64,
    /// Seconds of countdown.
    pub delay: u64,
    /// Show what would be done, and do nothing.
    pub dry_run: bool,
    /// Let the user select the region of the screen.
    pub select_region: bool,
    /// The region of the screen; without it the window in front, or the whole screen.
    pub region: Option<Region>,
    /// Put a space before each character, so that they are told apart more easily.
    pub char_space: bool,
    /// The characters on a row.
    pub line_width: usize,
}

// ---------------------------------------------------------------------------------------------
// Commands
// ---------------------------------------------------------------------------------------------

/// The quote for a path in Bash.
pub open spec fn quote_of(path: Seq<char>) -> Seq<char> {
    if path.contains('\'') {
        "\""@
    } else {
        "'"@
    }
}

/// The quote to put round a path in Bash: a single one, unless the path has one in it.
pub fn quote(s: &str) -> (r: &'static str)
    ensures
        r@ == quote_of(s@),
{
    let v = chars_of(s);
    if contains_char(v.as_slice(), '\'') {
        "\""
    } else {
        "'"
    }
}

/// The quote to put round a path in PowerShell.
pub fn quote_powershell(s: &str) -> (r: &'static str)
    ensures
        r@ == "'"@,
{
    "'"
}

impl PullArgs {
    /// The call of the script.
    pub open spec fn script(self) -> Seq<char> {
        match self.shell {
            Shell::Bash => "bash typepaste-pull.sh"@,
            Shell::Powershell => "powershell -File typepaste-pull.ps1"@,
        }
    }

    /// The path in quotes.
    pub open spec fn path(self) -> Seq<char> {
        let q = match self.shell {
            Shell::Bash => quote_of(self.remote_path@),
            Shell::Powershell => "'"@,
        };
        q + self.remote_path@ + q
    }

    /// Whether there are spaces, for the script.
    pub open spec fn space(self) -> Seq<char> {
        if self.char_space {
            "1"@
        } else {
            "0"@
        }
    }

    /// The call that shows the size and the digest.
    pub open spec fn probe(self) -> Seq<char> {
        self.script() + " probe "@ + self.path() + " "@ + self.space()
    }

    /// The call that cuts the file into chunks.
    pub open spec fn prepare(self) -> Seq<char> {
        self.script() + " prepare "@ + self.path() + " "@ + dec(self.chunk_bytes as nat)
    }

    /// The call that shows a chunk.
    pub open spec fn show(self, i: Seq<char>) -> Seq<char> {
        self.script() + " show "@ + i + " "@ + dec(self.line_width as nat) + " "@ + self.space()
    }
}

fn script_name(args: &PullArgs) -> (r: &'static str)
    ensures
        r@ == args.script(),
{
    match args.shell {
        Shell::Bash => "bash typepaste-pull.sh",
        Shell::Powershell => "powershell -File typepaste-pull.ps1",
    }
}

fn quoted_path(args: &PullArgs) -> (r: String)
    ensures
        r@ == args.path(),
{
    let q = match args.shell {
        Shell::Bash => quote(args.remote_path.as_str()),
        Shell::Powershell => quote_powershell(args.remote_path.as_str()),
    };
    let mut r = q.to_string();
    r.append(args.remote_path.as_str());
    r.append(q);
    r
}

fn space_flag(args: &PullArgs) -> (r: &'static str)
    ensures
        r@ == args.space(),
{
    if args.char_space {
        "1"
    } else {
        "0"
    }
}

fn probe_call(args: &PullArgs) -> (r: String)
    ensures
        r@ == args.probe(),
{
    let mut r = script_name(args).to_string();
    r.append(" probe ");
    let p = quoted_path(args);
    r.append(p.as_str());
    r.append(" ");
    r.append(space_flag(args));
    r
}

fn prepare_call(args: &PullArgs) -> (r: String)
    ensures
        r@ == args.prepare(),
{
    let mut r = script_name(args).to_string();
    r.append(" prepare ");
    let p = quoted_path(args);
    r.append(p.as_str());
    r.append(" ");
    push_dec(&mut r, args.chunk_bytes as u64);
    r
}

fn show_call(args: &PullArgs, i: &str) -> (r: String)
    ensures
        r@ == args.show(i@),
{
    let mut r = script_name(args).to_string();
    r.append(" show ");
    r.append(i);
    r.append(" ");
    push_dec(&mut r, args.line_width as u64);
    r.append(" ");
    r.append(space_flag(args));
    r
}

fn enter(s: String) -> (r: String)
    ensures
        r@ == s@ + "\n"@,
{
    let mut r = s;
    r.append("\n");
    r
}

/// The command that shows the size and the digest of the file.
pub fn probe_command(args: &PullArgs) -> (r: String)
    ensures
        r@ == args.probe() + "\n"@,
{
    enter(probe_call(args))
}

/// The command that cuts the file into chunks.
pub fn prepare_command(args: &PullArgs) -> (r: String)
    ensures
        r@ == args.prepare() + "\n"@,
{
    enter(prepare_call(args))
}

/// The command that shows a chunk, counted from one.
pub fn show_command(args: &PullArgs, i: usize) -> (r: String)
    ensures
        r@ == args.show(dec(i as nat)) + "\n"@,
{
    let n = dec_string(i as u64);
    enter(show_call(args, n.as_str()))
}

/// What `dry_run_pull` gives.
pub open spec fn dry_run_of(a: PullArgs) -> Seq<Seq<char>> {
    seq![
        "[dry-run] 反向传输："@ + a.remote_path@ + " → 本地"@,
        "  [探测] "@ + a.probe(),
        "  [准备] "@ + a.prepare() + " → /tmp/tp_pull.b16（每行: content md5）"@,
        "  [循环] "@ + a.show("<i>"@) + " → 截图 OCR → 校验"@,
        "  [每行宽度] "@ + dec(a.line_width as nat) + " 字符"@,
        "  [字符间距] "@ + (if a.char_space {
            "开启（每字符前加空格）"@
        } else {
            "关闭"@
        }),
        "  [重组] hex decode → 写文件 → md5 校验"@,
        "  提示：脚本需先用 --deploy-script 部署到目标机。"@,
    ]
}

fn join3(a: &str, b: &str, c: &str) -> (r: String)
    ensures
        r@ == a@ + b@ + c@,
{
    let mut r = a.to_string();
    r.append(b);
    r.append(c);
    r
}

/// What a dry run shows, line by line.
pub fn dry_run_pull(args: &PullArgs) -> (r: Vec<String>)
    ensures
        texts(r@) == dry_run_of(*args),
{
    let mut v: Vec<String> = Vec::new();
    v.push(join3("[dry-run] 反向传输：", args.remote_path.as_str(), " → 本地"));
    let mut probe = "  [探测] ".to_string();
    let p = probe_call(args);
    probe.append(p.as_str());
    v.push(probe);
    let p = prepare_call(args);
    v.push(join3("  [准备] ", p.as_str(), " → /tmp/tp_pull.b16（每行: content md5）"));
    let s = show_call(args, "<i>");
    v.push(join3("  [循环] ", s.as_str(), " → 截图 OCR → 校验"));
    let w = dec_string(args.line_width as u64);
    v.push(join3("  [每行宽度] ", w.as_str(), " 字符"));
    let mut gap = "  [字符间距] ".to_string();
    gap.append(
        if args.char_space {
            "开启（每字符前加空格）"
        } else {
            "关闭"
        },
    );
    v.push(gap);
    v.push("  [重组] hex decode → 写文件 → md5 校验".to_string());
    v.push("  提示：脚本需先用 --deploy-script 部署到目标机。".to_string());
    assert(texts(v@) =~= dry_run_of(*args));
    v
}

// ---------------------------------------------------------------------------------------------
// Decoding
// ---------------------------------------------------------------------------------------------

/// Why a text is not hexadecimal.
#[derive(Debug, Clone, Copy, PartialEq, Eq, Structural)]
pub enum HexError {
    /// A byte that is no digit, as a character, and where it stands.
    Invalid { c: char, index: usize },
    /// An odd number of digits.
    Odd,
    /// A length that does not fit.
    Length,
}

/// The bytes of a text, each as a character.
pub open spec fn byte_chars(s: Seq<char>) -> Seq<char> {
    encode_utf8(s).map_values(|b: u8| b as char)
}

/// The first position from `i` on that holds no hexadecimal digit.
pub open spec fn first_bad(c: Seq<char>, i: int) -> int
    decreases c.len() - i,
{
    if i >= c.len() || Alphabet::Hex.value(c[i]) is None {
        i
    } else {
        first_bad(c, i + 1)
    }
}

/// What decoding a hexadecimal text gives.
pub open spec fn hex_outcome(s: Seq<char>) -> Result<Seq<u8>, HexError> {
    let c = byte_chars(s);
    let i = first_bad(c, 0);
    if c.len() % 2 == 1 {
        Err(HexError::Odd)
    } else if i < c.len() {
        Err(HexError::Invalid { c: c[i], index: i as usize })
    } else {
        Ok(decoded(Alphabet::Hex, c)->0)
    }
}

/// `hex::decode`: the bytes that pairs of hexadecimal digits stand for, in either case. An odd length is
/// an error, and so is the first byte that is no digit.
#[verifier::external_body]
fn hex_bytes(s: &str) -> (r: Result<Vec<u8>, HexError>)
    ensures
        match r {
            Ok(v) => hex_outcome(s@) == Ok::<Seq<u8>, HexError>(v@),
            Err(e) => hex_outcome(s@) == Err::<Seq<u8>, HexError>(e),
        },
{
    hex::decode(s).map_err(|e| match e {
        hex::FromHexError::InvalidHexCharacter { c, index } => HexError::Invalid { c, index },
        hex::FromHexError::OddLength => HexError::Odd,
        hex::FromHexError::InvalidStringLength => HexError::Length,
    })
}

/// The message for a text that is not hexadecimal.
pub open spec fn hex_message(e: HexError) -> Seq<char> {
    "base16 解码失败："@ + match e {
        HexError::Invalid { c, index } => "Invalid character "@ + quoted(c, '\'') + " at position "@ + dec(
            index as nat,
        ),
        HexError::Odd => "Odd number of digits"@,
        HexError::Length => "Invalid string length"@,
    }
}

/// What `hex_decode` gives.
pub open spec fn hex_decode_of(s: Seq<char>) -> Result<Seq<u8>, Seq<char>> {
    match hex_outcome(s) {
        Ok(b) => Ok(b),
        Err(e) => Err(hex_message(e)),
    }
}

proof fn lemma_first_bad(c: Seq<char>, i: int)
    requires
        0 <= i <= c.len(),
    ensures
        i <= first_bad(c, i) <= c.len(),
    decreases c.len() - i,
{
    if i < c.len() && Alphabet::Hex.value(c[i]) is Some {
        lemma_first_bad(c, i + 1);
    }
}

/// The bytes that a hexadecimal text stands for, or why it is none.
pub fn hex_decode(hex: &str) -> (r: Result<Vec<u8>, String>)
    ensures
        match r {
            Ok(v) => hex_decode_of(hex@) == Ok::<Seq<u8>, Seq<char>>(v@),
            Err(e) => hex_decode_of(hex@) == Err::<Seq<u8>, Seq<char>>(e@),
        },
{
    match hex_bytes(hex) {
        Ok(v) => Ok(v),
        Err(e) => {
            let mut m = "base16 解码失败：".to_string();
            match e {
                HexError::Invalid { c, index } => {
                    proof {
                        let b = byte_chars(hex@);
                        lemma_first_bad(b, 0);
                        assert(c == b[first_bad(b, 0)]);
                    }
                    m.append("Invalid character ");
                    push_quoted(&mut m, c, '\'');
                    m.append(" at position ");
                    push_dec(&mut m, index as u64);
                    assert(m@ =~= hex_message(e));
                },
                HexError::Odd => {
                    m.append("Odd number of digits");
                },
                HexError::Length => {
                    m.append("Invalid string length");
                },
            }
            Err(m)
        },
    }
}

/// The message for a file whose digest is wrong.
pub open spec fn digest_message(actual: Seq<char>, want: Seq<char>) -> Seq<char> {
    "文件 md5 校验失败：got="@ + actual + " want="@ + want
}

/// Takes a file whose digest is the one that was wanted.
pub fn accept_file(bytes: Vec<u8>, actual: &str, want: &str) -> (r: Result<Vec<u8>, String>)
    ensures
        actual@ == want@ ==> r == Ok::<Vec<u8>, String>(bytes),
        actual@ != want@ ==> (r matches Err(e) && e@ == digest_message(actual@, want@)),
{
    if same_str(actual, want) {
        Ok(bytes)
    } else {
        let mut e = "文件 md5 校验失败：got=".to_string();
        e.append(actual);
        e.append(" want=");
        e.append(want);
        Err(e)
    }
}

// ---------------------------------------------------------------------------------------------
// The course of a transfer
// ---------------------------------------------------------------------------------------------

/// How far a transfer is.
#[derive(Debug, Clone, Copy, PartialEq, Eq, Structural)]
pub enum PullPhase {
    /// The size and the digest are not known.
    Probing,
    /// The file is being cut.
    Preparing,
    /// Chunks are being read.
    Reading,
}

/// The state of a transfer over sequences.
pub struct PullView {
    /// How far it is.
    pub phase: PullPhase,
    /// The size of the file.
    pub size: usize,
    /// The digest of the file.
    pub md5: Seq<char>,
    /// The number of chunks.
    pub total: usize,
    /// The chunk that is being read, counted from one.
    pub chunk: usize,
    /// How often it was looked at.
    pub round: usize,
    /// What has been read.
    pub hex: Seq<char>,
}

/// The state of a transfer.
pub struct Pull {
    phase: PullPhase,
    size: usize,
    md5: String,
    total: usize,
    chunk: usize,
    round: usize,
    hex: String,
}

impl View for Pull {
    type V = PullView;

    closed spec fn view(&self) -> PullView {
        PullView {
            phase: self.phase,
            size: self.size,
            md5: self.md5@,
            total: self.total,
            chunk: self.chunk,
            round: self.round,
            hex: self.hex@,
        }
    }
}

/// What happened.
pub enum PullEvent {
    /// The command was typed, and the time to carry it out is over.
    Typed,
    /// The screen was looked at. These lines hold what was wanted, if it was there.
    Seen(Option<Vec<String>>),
}

/// What to do next.
pub enum PullAction {
    /// Type a command, and wait.
    Type { command: String, settle_ms: u64 },
    /// Wait, and look for something on the screen.
    Look { wait_ms: u64, wanted: Wanted },
    /// Stop, as the user asked.
    Stop,
    /// The transfer has failed.
    Fail(String),
    /// This is the file.
    Save(Vec<u8>),
}

/// What to do next, over sequences.
pub enum PullDo {
    /// Type a command, and wait.
    Type(Seq<char>, u64),
    /// Wait, and look for something on the screen.
    Look(u64, Wanted),
    /// Stop, as the user asked.
    Stop,
    /// The transfer has failed.
    Fail(Seq<char>),
    /// This is the file.
    Save(Seq<u8>),
}

impl View for PullAction {
    type V = PullDo;

    open spec fn view(&self) -> PullDo {
        match self {
            PullAction::Type { command, settle_ms } => PullDo::Type(command@, *settle_ms),
            PullAction::Look { wait_ms, wanted } => PullDo::Look(*wait_ms, *wanted),
            PullAction::Stop => PullDo::Stop,
            PullAction::Fail(m) => PullDo::Fail(m@),
            PullAction::Save(b) => PullDo::Save(b@),
        }
    }
}

/// Milliseconds for the remote machine to show the size and the digest.
pub const PROBE_SETTLE_MS: u64 = 2400;

/// Milliseconds for the remote machine to cut the file.
pub const PREPARE_SETTLE_MS: u64 = 4000;

/// Milliseconds for the remote machine to show a chunk.
pub const SHOW_SETTLE_MS: u64 = 1500;

/// The number of chunks of a file.
pub open spec fn chunk_count(size: nat, chunk_bytes: nat) -> nat {
    size / chunk_bytes + (if size % chunk_bytes == 0 {
        0nat
    } else {
        1
    })
}

/// The number of chunks of a file. A chunk has to have a size.
pub fn total_chunks(size: usize, chunk_bytes: usize) -> (r: usize)
    requires
        chunk_bytes > 0,
    ensures
        r == chunk_count(size as nat, chunk_bytes as nat),
{
    if size % chunk_bytes == 0 {
        size / chunk_bytes
    } else {
        proof {
            assert(size == 0 ==> size % chunk_bytes == 0) by (nonlinear_arith)
                requires
                    chunk_bytes > 0,
            ;
            assert(size / chunk_bytes < size || chunk_bytes == 1) by (nonlinear_arith)
                requires
                    size > 0,
                    chunk_bytes > 0,
            ;
            assert(chunk_bytes == 1 ==> size % chunk_bytes == 0);
        }
        size / chunk_bytes + 1
    }
}

/// The message for a file whose size and digest could not be read.
pub open spec fn probe_message() -> Seq<char> {
    "探测文件信息失败（OCR 多次未识别）"@
}

/// The message for a chunk that could not be read.
pub open spec fn chunk_message(chunk: nat, max_retry: nat) -> Seq<char> {
    "片 "@ + dec(chunk) + " 读取失败（重试 "@ + dec(max_retry) + " 次）"@
}

/// The end of a transfer: the digits are decoded, and the digest of the file has to be right.
pub open spec fn finish_of(hex: Seq<char>, md5: Seq<char>) -> PullDo {
    match hex_decode_of(hex) {
        Err(e) => PullDo::Fail(e),
        Ok(b) => if md5_hex(b) == md5 {
            PullDo::Save(b)
        } else {
            PullDo::Fail(digest_message(md5_hex(b), md5))
        },
    }
}

/// Looking for the size and the digest, if there is a round left.
pub open spec fn look_for_info(a: PullArgs, s: PullView, round: int) -> (PullView, PullDo) {
    if round > a.max_retry {
        (s, PullDo::Fail(probe_message()))
    } else {
        (
            PullView { round: round as usize, ..s },
            PullDo::Look(wait_before(round as nat), Wanted::FileInfo),
        )
    }
}

/// Looking for a chunk, if there is a round left.
pub open spec fn look_for_chunk(a: PullArgs, s: PullView, round: int, stopped: bool) -> (
    PullView,
    PullDo,
) {
    if round > a.max_retry {
        (s, PullDo::Fail(chunk_message(s.chunk as nat, a.max_retry as nat)))
    } else if stopped {
        (s, PullDo::Fail("已停止"@))
    } else {
        (
            PullView { round: round as usize, ..s },
            PullDo::Look(wait_before(round as nat), Wanted::Chunk),
        )
    }
}

/// Going on to the next chunk, or to the end.
pub open spec fn next_chunk(a: PullArgs, s: PullView, stopped: bool) -> (PullView, PullDo) {
    if s.chunk >= s.total {
        (s, finish_of(s.hex, s.md5))
    } else if stopped {
        (s, PullDo::Stop)
    } else {
        let n = (s.chunk + 1) as usize;
        (
            PullView { phase: PullPhase::Reading, chunk: n, round: 0, ..s },
            PullDo::Type(a.show(dec(n as nat)) + "\n"@, SHOW_SETTLE_MS),
        )
    }
}

/// What happened, over sequences.
pub open spec fn seen_view(e: PullEvent) -> Option<Option<Seq<Seq<char>>>> {
    match e {
        PullEvent::Typed => None,
        PullEvent::Seen(None) => Some(None),
        PullEvent::Seen(Some(v)) => Some(Some(texts(v@))),
    }
}

/// The course of a transfer: what follows on a command that was typed (`None`), or on a look at the
/// screen with the lines that hold what was wanted, if it was there. `stopped` says whether the user
/// wants to stop.
pub open spec fn pull_next(
    a: PullArgs,
    s: PullView,
    seen: Option<Option<Seq<Seq<char>>>>,
    stopped: bool,
) -> (PullView, PullDo) {
    match s.phase {
        PullPhase::Probing => match seen {
            None => look_for_info(a, s, 1),
            Some(Some(lines)) if file_info_of(lines) is Some => {
                let info = file_info_of(lines)->0;
                (
                    PullView {
                        phase: PullPhase::Preparing,
                        size: info.0,
                        md5: info.1,
                        ..s
                    },
                    PullDo::Type(a.prepare() + "\n"@, PREPARE_SETTLE_MS),
                )
            },
            _ => look_for_info(a, s, s.round + 1),
        },
        PullPhase::Preparing => next_chunk(
            a,
            PullView {
                total: chunk_count(s.size as nat, a.chunk_bytes as nat) as usize,
                chunk: 0,
                hex: Seq::empty(),
                ..s
            },
            stopped,
        ),
        PullPhase::Reading => match seen {
            None => look_for_chunk(a, s, 1, stopped),
            Some(Some(lines)) if chunk_ok(lines) => next_chunk(
                a,
                PullView { hex: s.hex + (hex_chunk_of(lines)->0).0, ..s },
                stopped,
            ),
            _ => look_for_chunk(a, s, s.round + 1, stopped),
        },
    }
}

/// The start of a transfer.
pub open spec fn pull_start() -> PullView {
    PullView {
        phase: PullPhase::Probing,
        size: 0,
        md5: Seq::empty(),
        total: 0,
        chunk: 0,
        round: 0,
        hex: Seq::empty(),
    }
}

impl Pull {
    /// Whether the rounds are counted within their bound.
    pub open spec fn wf(self, a: PullArgs) -> bool {
        self@.round <= a.max_retry
    }

    /// The start of a transfer: asks for the size and the digest.
    pub fn start(args: &PullArgs) -> (r: (Pull, PullAction))
        ensures
            r.0@ == pull_start(),
            r.0.wf(*args),
            r.1@ == PullDo::Type(args.probe() + "\n"@, PROBE_SETTLE_MS),
    {
        let s = Pull {
            phase: PullPhase::Probing,
            size: 0,
            md5: String::new(),
            total: 0,
            chunk: 0,
            round: 0,
            hex: String::new(),
        };
        assert(s@ =~= pull_start());
        (s, PullAction::Type { command: probe_command(args), settle_ms: PROBE_SETTLE_MS })
    }

    /// The chunk that is being read, counted from one, and the number of chunks.
    pub fn progress(&self) -> (r: (usize, usize))
        ensures
            r.0 == self@.chunk,
            r.1 == self@.total,
    {
        (self.chunk, self.total)
    }

    /// The size and the digest of the file, once they are known.
    pub fn file_info(&self) -> (r: (usize, &str))
        ensures
            r.0 == self@.size,
            r.1@ == self@.md5,
    {
        (self.size, self.md5.as_str())
    }

    fn info_round(&mut self, args: &PullArgs, done: usize) -> (r: PullAction)
        requires
            old(self).wf(*args),
        ensures
            final(self).wf(*args),
            (final(self)@, r@) == look_for_info(*args, old(self)@, done + 1),
    {
        if done >= args.max_retry {
            return PullAction::Fail("探测文件信息失败（OCR 多次未识别）".to_string());
        }
        let round = done + 1;
        self.round = round;
        PullAction::Look { wait_ms: retry_wait_ms(round), wanted: Wanted::FileInfo }
    }

    fn chunk_round(&mut self, args: &PullArgs, done: usize, stopped: bool) -> (r: PullAction)
        requires
            old(self).wf(*args),
        ensures
            final(self).wf(*args),
            (final(self)@, r@) == look_for_chunk(*args, old(self)@, done + 1, stopped),
    {
        if done >= args.max_retry {
            let mut m = "片 ".to_string();
            push_dec(&mut m, self.chunk as u64);
            m.append(" 读取失败（重试 ");
            push_dec(&mut m, args.max_retry as u64);
            m.append(" 次）");
            assert(m@ =~= chunk_message(self.chunk as nat, args.max_retry as nat));
            return PullAction::Fail(m);
        }
        if stopped {
            return PullAction::Fail("已停止".to_string());
        }
        let round = done + 1;
        self.round = round;
        PullAction::Look { wait_ms: retry_wait_ms(round), wanted: Wanted::Chunk }
    }

    fn finish(&self) -> (r: PullAction)
        ensures
            r@ == finish_of(self@.hex, self@.md5),
    {
        match hex_decode(self.hex.as_str()) {
            Err(e) => PullAction::Fail(e),
            Ok(b) => {
                let actual = md5_of_bytes(b.as_slice());
                match accept_file(b, actual.as_str(), self.md5.as_str()) {
                    Ok(b) => PullAction::Save(b),
                    Err(e) => PullAction::Fail(e),
                }
            },
        }
    }

    fn advance(&mut self, args: &PullArgs, stopped: bool) -> (r: PullAction)
        requires
            old(self).wf(*args),
        ensures
            final(self).wf(*args),
            (final(self)@, r@) == next_chunk(*args, old(self)@, stopped),
    {
        if self.chunk >= self.total {
            return self.finish();
        }
        if stopped {
            return PullAction::Stop;
        }
        self.phase = PullPhase::Reading;
        self.chunk = self.chunk + 1;
        self.round = 0;
        PullAction::Type { command: show_command(args, self.chunk), settle_ms: SHOW_SETTLE_MS }
    }

    /// Takes note of what happened and says what to do. `stopped` says whether the user wants to stop. A
    /// chunk has to have a size.
    pub fn step(&mut self, args: &PullArgs, event: PullEvent, stopped: bool) -> (r: PullAction)
        requires
            args.chunk_bytes > 0,
            old(self).wf(*args),
        ensures
            final(self).wf(*args),
            (final(self)@, r@) == pull_next(*args, old(self)@, seen_view(event), stopped),
    {
        match self.phase {
            PullPhase::Probing => match event {
                PullEvent::Typed => self.info_round(args, 0),
                PullEvent::Seen(found) => {
                    if let Some(v) = found {
                        if let Some((size, md5)) = parse_file_info(v.as_slice()) {
                            self.phase = PullPhase::Preparing;
                            self.size = size;
                            self.md5 = md5;
                            return PullAction::Type {
                                command: prepare_command(args),
                                settle_ms: PREPARE_SETTLE_MS,
                            };
                        }
                    }
                    let done = self.round;
                    self.info_round(args, done)
                },
            },
            PullPhase::Preparing => {
                self.total = total_chunks(self.size, args.chunk_bytes);
                self.chunk = 0;
                self.hex = String::new();
                self.advance(args, stopped)
            },
            PullPhase::Reading => match event {
                PullEvent::Typed => self.chunk_round(args, 0, stopped),
                PullEvent::Seen(found) => {
                    if let Some(v) = found {
                        if Wanted::Chunk.passes(v.as_slice()) {
                            if let Some((hex, _)) = parse_hex_chunk(v.as_slice()) {
                                self.hex.append(hex.as_str());
                                return self.advance(args, stopped);
                            }
                        }
                    }
                    let done = self.round;
                    self.chunk_round(args, done, stopped)
                },
            },
        }
    }
}

// ---------------------------------------------------------------------------------------------
// What is shown arrives
// ---------------------------------------------------------------------------------------------

/// The digits of a file, on the screen.
pub open spec fn file_hex(file: Seq<u8>) -> Seq<char> {
    encoded(Alphabet::Hex, file)
}

/// The digits of the chunks of a file.
pub open spec fn file_chunks(file: Seq<u8>, chunk_bytes: nat) -> Seq<Seq<char>> {
    chunks(file_hex(file), 2 * chunk_bytes)
}

proof fn lemma_chunk_number(s: Seq<char>, n: nat)
    requires
        n > 0,
    ensures
        chunks(s, n).len() == chunk_count(s.len(), n),
    decreases s.len(),
{
    if s.len() == 0 {
        assert(0nat / n == 0 && 0nat % n == 0) by (nonlinear_arith)
            requires
                n > 0,
        ;
    } else if s.len() <= n {
        let m = s.len();
        if m < n {
            vstd::arithmetic::div_mod::lemma_small_mod(m, n);
            vstd::arithmetic::div_mod::lemma_basic_div(m as int, n as int);
        } else {
            assert(n / n == 1 && n % n == 0) by (nonlinear_arith)
                requires
                    n > 0,
            ;
        }
    } else {
        let rest = s.skip(n as int);
        lemma_chunk_number(rest, n);
        let m = rest.len() as int;
        vstd::arithmetic::div_mod::lemma_div_plus_one(m, n as int);
        vstd::arithmetic::div_mod::lemma_mod_add_multiples_vanish(m, n as int);
    }
}

/// A file has as many chunks as the transfer counts on.
pub proof fn law_chunks_are_counted(file: Seq<u8>, chunk_bytes: nat)
    requires
        chunk_bytes > 0,
    ensures
        file_chunks(file, chunk_bytes).len() == chunk_count(file.len(), chunk_bytes),
{
    lemma_encoded_chars(Alphabet::Hex, file);
    lemma_chunk_number(file_hex(file), 2 * chunk_bytes);
    let n = file.len() as int;
    let c = chunk_bytes as int;
    assert((2 * n) / (2 * c) == n / c && (2 * n) % (2 * c) == 2 * (n % c)) by {
        vstd::arithmetic::div_mod::lemma_fundamental_div_mod(n, c);
        let q = n / c;
        let r = n % c;
        assert(2 * n == q * (2 * c) + 2 * r) by (nonlinear_arith)
            requires
                n == c * q + r,
        ;
        vstd::arithmetic::div_mod::lemma_mod_bound(n, c);
        vstd::arithmetic::div_mod::lemma_fundamental_div_mod_converse(2 * n, 2 * c, q, 2 * r);
    }
}

/// The digits of a file decode to the file.
proof fn lemma_file_hex_decodes(file: Seq<u8>)
    ensures
        hex_outcome(file_hex(file)) == Ok::<Seq<u8>, HexError>(file),
{
    let t = file_hex(file);
    lemma_encoded_chars(Alphabet::Hex, file);
    assert(is_ascii_chars(t)) by {
        assert forall|i: int| 0 <= i < t.len() implies '\0' <= #[trigger] t[i] <= '\u{7f}' by {
            assert(in_alphabet(Alphabet::Hex, t[i]));
        }
    }
    is_ascii_chars_encode_utf8(t);
    assert(byte_chars(t) =~= t) by {
        assert forall|i: int| 0 <= i < t.len() implies byte_chars(t)[i] == t[i] by {
            assert(in_alphabet(Alphabet::Hex, t[i]));
            assert(t[i] as u8 == encode_utf8(t)[i]);
        }
    }
    lemma_all_digits(t, 0);
    law_decode_encode(Alphabet::Hex, file);
}

proof fn lemma_all_digits(c: Seq<char>, i: int)
    requires
        0 <= i <= c.len(),
        forall|k: int| 0 <= k < c.len() ==> in_alphabet(Alphabet::Hex, #[trigger] c[k]),
    ensures
        first_bad(c, i) == c.len(),
    decreases c.len() - i,
{
    if i < c.len() {
        assert(in_alphabet(Alphabet::Hex, c[i]));
        lemma_all_digits(c, i + 1);
    }
}

/// The digits and the digest of a file end a transfer with the file.
pub proof fn law_right_digits_give_file(file: Seq<u8>)
    ensures
        finish_of(file_hex(file), md5_hex(file)) == PullDo::Save(file),
{
    lemma_file_hex_decodes(file);
}

/// A file is only ever saved if its digest is the one that was read at the start.
pub proof fn law_saved_file_is_right(
    a: PullArgs,
    s: PullView,
    seen: Option<Option<Seq<Seq<char>>>>,
    stopped: bool,
)
    ensures
        pull_next(a, s, seen, stopped).1 matches PullDo::Save(b) ==> md5_hex(b) == s.md5,
{
}

/// The course of the reading: the state and what is to be done after `k` chunks have been seen, each at
/// the first look.
pub open spec fn after_screens(
    a: PullArgs,
    s: PullView,
    screens: Seq<Seq<Seq<char>>>,
    k: nat,
) -> (PullView, PullDo)
    decreases k,
{
    if k == 0 {
        pull_next(a, s, None, false)
    } else {
        let asked = after_screens(a, s, screens, (k - 1) as nat).0;
        let looking = pull_next(a, asked, None, false).0;
        pull_next(a, looking, Some(Some(screens[k - 1])), false)
    }
}

/// Whether a screen shows a chunk and its digest.
pub open spec fn shows(screen: Seq<Seq<char>>, chunk: Seq<char>) -> bool {
    hex_chunk_of(screen) == Some((chunk, md5_hex(encode_utf8(chunk))))
}

proof fn lemma_concat_push(v: Seq<Seq<char>>, k: int)
    requires
        0 <= k < v.len(),
    ensures
        concat(v.take(k + 1)) == concat(v.take(k)) + v[k],
    decreases k,
{
    let a = v.take(k + 1);
    let b = v.take(k);
    if k == 0 {
        assert(a.drop_first() =~= Seq::empty());
        assert(b =~= Seq::empty());
        assert(concat(a) =~= concat(b) + v[k]);
    } else {
        let w = v.drop_first();
        lemma_concat_push(w, k - 1);
        assert(a.drop_first() =~= w.take(k));
        assert(b.drop_first() =~= w.take(k - 1));
        assert(concat(a) =~= concat(b) + v[k]);
    }
}

proof fn lemma_after_screens(
    a: PullArgs,
    s: PullView,
    screens: Seq<Seq<Seq<char>>>,
    file: Seq<u8>,
    k: nat,
)
    requires
        a.chunk_bytes > 0,
        a.max_retry >= 1,
        s.phase == PullPhase::Preparing,
        s.size == file.len(),
        s.md5 == md5_hex(file),
        screens.len() == file_chunks(file, a.chunk_bytes as nat).len(),
        forall|i: int|
            0 <= i < screens.len() ==> shows(
                #[trigger] screens[i],
                file_chunks(file, a.chunk_bytes as nat)[i],
            ),
        k <= screens.len(),
        screens.len() <= usize::MAX,
    ensures
        ({
            let r = after_screens(a, s, screens, k);
            let all = file_chunks(file, a.chunk_bytes as nat);
            if k < screens.len() {
                &&& r.0.phase == PullPhase::Reading
                &&& r.0.chunk == k + 1
                &&& r.0.total == screens.len()
                &&& r.0.md5 == s.md5
                &&& r.0.hex == concat(all.take(k as int))
                &&& r.1 == PullDo::Type(a.show(dec(k + 1)) + "\n"@, SHOW_SETTLE_MS)
            } else {
                r.1 == finish_of(concat(all), s.md5)
            }
        }),
    decreases k,
{
    let all = file_chunks(file, a.chunk_bytes as nat);
    law_chunks_are_counted(file, a.chunk_bytes as nat);
    if k == 0 {
        assert(all.take(0) =~= Seq::empty());
        if screens.len() == 0 {
            assert(all =~= Seq::empty());
        }
    } else {
        lemma_after_screens(a, s, screens, file, (k - 1) as nat);
        assert(shows(screens[k - 1], all[k - 1]));
        lemma_concat_push(all, k - 1);
        if k == screens.len() {
            assert(all.take(k as int) =~= all);
        }
    }
}

/// A file that is shown faithfully arrives: once its size and its digest have been read, and every one of
/// its chunks has been seen with its digest, the file is saved as it was.
pub proof fn law_shown_file_arrives(
    a: PullArgs,
    s: PullView,
    screens: Seq<Seq<Seq<char>>>,
    file: Seq<u8>,
)
    requires
        a.chunk_bytes > 0,
        a.max_retry >= 1,
        s.phase == PullPhase::Preparing,
        s.size == file.len(),
        s.md5 == md5_hex(file),
        screens.len() == file_chunks(file, a.chunk_bytes as nat).len(),
        screens.len() <= usize::MAX,
        forall|i: int|
            0 <= i < screens.len() ==> shows(
                #[trigger] screens[i],
                file_chunks(file, a.chunk_bytes as nat)[i],
            ),
    ensures
        after_screens(a, s, screens, screens.len()).1 == PullDo::Save(file),
{
    lemma_after_screens(a, s, screens, file, screens.len());
    law_parts_make_whole(file_hex(file), 2 * (a.chunk_bytes as nat));
    law_right_digits_give_file(file);
}

// ---------------------------------------------------------------------------------------------
// Comparing
// ---------------------------------------------------------------------------------------------

/// Where the first word of a text ends, which has no white space before it.
pub open spec fn word_end(s: Seq<char>) -> int
    decreases s.len(),
{
    if s.len() == 0 || is_space(s[0]) {
        0
    } else {
        1 + word_end(s.skip(1))
    }
}

/// The first word of a line.
pub open spec fn first_word(s: Seq<char>) -> Seq<char> {
    let t = stripped_start(s, Strip::Space);
    t.take(word_end(t))
}

/// What `expected_chunk` gives.
pub open spec fn expected_of(content: Seq<char>, i: nat) -> Option<Seq<char>> {
    if i - 1 < lines(content).len() {
        Some(first_word(lines(content)[i - 1]))
    } else {
        None
    }
}

/// The digits of a chunk, counted from one, in a listing that has on each line the digits and the digest
/// of a chunk. `None` if there is no such line.
pub fn expected_chunk(content: &str, i: usize) -> (r: Option<String>)
    requires
        i >= 1,
    ensures
        match r {
            Some(t) => expected_of(content@, i as nat) == Some(t@),
            None => expected_of(content@, i as nat) is None,
        },
{
    let all = lines_of(content);
    assert(texts(all@).len() == all@.len());
    if i - 1 >= all.len() {
        return None;
    }
    assert(texts(all@)[i - 1] == all@[i - 1]@);
    let v = chars_of(all[i - 1].as_str());
    let t = strip_start(v.as_slice(), Strip::Space);
    let mut k: usize = 0;
    assert(t@.skip(0) =~= t@);
    while k < t.len() && !is_whitespace(t[k])
        invariant
            k <= t@.len(),
            word_end(t@) == k + word_end(t@.skip(k as int)),
        decreases t.len() - k,
    {
        assert(t@.skip(k as int).skip(1) =~= t@.skip(k + 1));
        assert(t@.skip(k as int)[0] == t@[k as int]);
        k += 1;
    }
    assert(k < t@.len() ==> t@.skip(k as int)[0] == t@[k as int]);
    let w = slice_subrange(t, 0, k);
    assert(w@ =~= first_word(all@[i - 1]@));
    Some(string_of(w))
}

/// The larger of two lengths.
pub open spec fn longer(a: nat, b: nat) -> nat {
    if a >= b {
        a
    } else {
        b
    }
}

/// Marks below two texts: a space where they agree, `^` where they do not. There are as many as the longer
/// one has bytes.
pub open spec fn diff_marks(expected: Seq<char>, actual: Seq<char>) -> Seq<char> {
    Seq::new(
        longer(encode_utf8(expected).len(), encode_utf8(actual).len()),
        |k: int|
            if k < expected.len() && k < actual.len() && expected[k] == actual[k] {
                ' '
            } else {
                '^'
            },
    )
}

/// How many differences are marked.
pub open spec fn mark_count(marks: Seq<char>) -> nat
    decreases marks.len(),
{
    if marks.len() == 0 {
        0
    } else {
        mark_count(marks.drop_last()) + (if marks.last() == '^' {
            1nat
        } else {
            0
        })
    }
}

/// Marks the differences between two texts, and counts them.
pub fn chunk_diff(expected: &str, actual: &str) -> (r: (String, usize))
    ensures
        r.0@ == diff_marks(expected@, actual@),
        r.1 == mark_count(diff_marks(expected@, actual@)),
{
    let e = chars_of(expected);
    let a = chars_of(actual);
    let m = expected.as_bytes().len();
    let n = actual.as_bytes().len();
    let total: usize = if m >= n {
        m
    } else {
        n
    };
    let ghost marks = diff_marks(expected@, actual@);
    let mut r = String::new();
    let mut count: usize = 0;
    let mut k: usize = 0;
    assert(marks.take(0) =~= Seq::empty());
    while k < total
        invariant
            k <= total,
            count <= k,
            total == marks.len(),
            e@ == expected@,
            a@ == actual@,
            marks == diff_marks(expected@, actual@),
            r@ == marks.take(k as int),
            count == mark_count(marks.take(k as int)),
        decreases total - k,
    {
        let same = k < e.len() && k < a.len() && e[k] == a[k];
        r.push(
            if same {
                ' '
            } else {
                '^'
            },
        );
        assert(marks.take(k + 1).drop_last() =~= marks.take(k as int));
        assert(r@ =~= marks.take(k + 1));
        if !same {
            count += 1;
        }
        k += 1;
    }
    assert(marks.take(total as int) =~= marks);
    (r, count)
}

proof fn lemma_marks(m: Seq<char>)
    ensures
        mark_count(m) <= m.len(),
        mark_count(m) == 0 <==> !m.contains('^'),
        mark_count(m) == m.filter(|c: char| c == '^').len(),
    decreases m.len(),
{
    reveal(Seq::filter);
    if m.len() > 0 {
        let d = m.drop_last();
        lemma_marks(d);
        if d.contains('^') {
            let k = d.index_of('^');
            assert(m[k] == '^');
        }
        if m.contains('^') {
            let k = m.index_of('^');
            if k < d.len() {
                assert(d[k] == '^');
            }
        }
        if m.last() == '^' {
            assert(m[m.len() - 1] == '^');
        }
    }
}

/// The marks do not depend on which text comes first, and each of them that is a `^` is counted. Texts of
/// ASCII have none exactly if they are the same.
pub proof fn law_marks_are_differences(a: Seq<char>, b: Seq<char>)
    ensures
        diff_marks(a, b) == diff_marks(b, a),
        mark_count(diff_marks(a, b)) == diff_marks(a, b).filter(|c: char| c == '^').len(),
        is_ascii_chars(a) && is_ascii_chars(b) ==> (mark_count(diff_marks(a, b)) == 0 <==> a == b),
        forall|k: int|
            0 <= k < a.len() && k < b.len() && k < diff_marks(a, b).len() ==> (#[trigger] diff_marks(a, b)[k]
                == ' ') == (a[k] == b[k]),
{
    let m = diff_marks(a, b);
    assert(m =~= diff_marks(b, a));
    lemma_marks(m);
    if is_ascii_chars(a) && is_ascii_chars(b) {
        is_ascii_chars_encode_utf8(a);
        is_ascii_chars_encode_utf8(b);
        if a == b {
            if m.contains('^') {
                let k = m.index_of('^');
                assert(m[k] == ' ');
            }
        } else if !m.contains('^') {
            if a.len() != b.len() {
                assert(m[m.len() - 1] == '^');
            } else {
                assert forall|k: int| 0 <= k < a.len() implies a[k] == b[k] by {
                    assert(m.contains(m[k]));
                }
                assert(a =~= b);
            }
        }
    }
}

proof fn lemma_word_end(w: Seq<char>, s: Seq<char>)
    requires
        forall|i: int| 0 <= i < w.len() ==> !is_space(#[trigger] w[i]),
        s.len() == 0 || is_space(s[0]),
    ensures
        word_end(w + s) == w.len(),
    decreases w.len(),
{
    if w.len() == 0 {
        assert(w + s =~= s);
    } else {
        let t = w.skip(1);
        assert forall|i: int| 0 <= i < t.len() implies !is_space(#[trigger] t[i]) by {
            assert(t[i] == w[i + 1]);
        }
        lemma_word_end(t, s);
        assert((w + s)[0] == w[0]);
        assert((w + s).skip(1) =~= t + s);
    }
}

/// Of a line of a listing the digits are taken: what comes first, up to white space, and nothing of the
/// digest behind it.
pub proof fn law_listing_gives_digits(l: Seq<char>, digits: Seq<char>, rest: Seq<char>)
    requires
        forall|i: int| 0 <= i < l.len() ==> is_space(#[trigger] l[i]),
        forall|i: int| 0 <= i < digits.len() ==> !is_space(#[trigger] digits[i]),
        rest.len() == 0 || is_space(rest[0]),
        digits.len() > 0,
    ensures
        first_word(l + digits + rest) == digits,
{
    let s = digits + rest;
    assert(l + digits + rest =~= l + s);
    lemma_stripped_start(l, s, Strip::Space);
    assert(s[0] == digits[0]);
    lemma_word_end(digits, rest);
    assert(s.take(digits.len() as int) =~= digits);
}

/// Chunks are counted from one: the chunk with a number is on the line with that number, and there is none
/// behind the last.
pub proof fn law_listing_counts_from_one(line: Seq<char>, rest: Seq<char>, i: nat)
    requires
        !line.contains('\n'),
        line.len() == 0 || line.last() != '\r',
        i >= 1,
    ensures
        expected_of(line + seq!['\n'] + rest, 1) == Some(first_word(line)),
        expected_of(line + seq!['\n'] + rest, i + 1) == expected_of(rest, i),
        expected_of(Seq::empty(), i) is None,
{
    law_lines_are_cut(line, rest);
    let v = lines(line + seq!['\n'] + rest);
    assert(v[0] == line);
    assert(i < v.len() ==> v[i as int] == lines(rest)[i - 1]);
}

// ---------------------------------------------------------------------------------------------
// The steps of a transfer
// ---------------------------------------------------------------------------------------------

/// The wait before a look: half a second before the first, a fifth before the second, and a tenth before
/// every later one.
pub open spec fn look_wait(round: int) -> u64 {
    if round == 1 {
        500
    } else if round == 2 {
        200
    } else {
        100
    }
}

/// Once a command was typed the screen is looked at for the first time, whatever was looked at before, if
/// it is to be looked at at all.
pub proof fn law_command_is_followed_by_a_look(a: PullArgs, s: PullView, stopped: bool)
    requires
        a.max_retry >= 1,
    ensures
        s.phase == PullPhase::Probing ==> pull_next(a, s, None, stopped) == (
            PullView { round: 1, ..s },
            PullDo::Look(500, Wanted::FileInfo),
        ),
        s.phase == PullPhase::Reading && !stopped ==> pull_next(a, s, None, stopped) == (
            PullView { round: 1, ..s },
            PullDo::Look(500, Wanted::Chunk),
        ),
{
}

/// What could not be read is looked for again, with nothing typed and nothing taken over, until it has
/// been looked for as often as was asked. Then the transfer fails. Where the user wants to stop, a chunk
/// is not looked for again.
pub proof fn law_missed_is_looked_for_again(
    a: PullArgs,
    s: PullView,
    seen: Option<Seq<Seq<char>>>,
    stopped: bool,
)
    requires
        s.phase == PullPhase::Probing ==> (seen matches Some(v) ==> file_info_of(v) is None),
        s.phase == PullPhase::Reading ==> (seen matches Some(v) ==> forall|c: Seq<char>| !shows(v, c)),
    ensures
        s.phase == PullPhase::Probing && s.round < a.max_retry ==> pull_next(a, s, Some(seen), stopped) == (
            PullView { round: (s.round + 1) as usize, ..s },
            PullDo::Look(look_wait(s.round + 1), Wanted::FileInfo),
        ),
        s.phase == PullPhase::Reading && s.round < a.max_retry && !stopped ==> pull_next(
            a,
            s,
            Some(seen),
            stopped,
        ) == (
            PullView { round: (s.round + 1) as usize, ..s },
            PullDo::Look(look_wait(s.round + 1), Wanted::Chunk),
        ),
        s.phase != PullPhase::Preparing && s.round >= a.max_retry ==> pull_next(a, s, Some(seen), stopped).1 is Fail,
        s.phase == PullPhase::Reading && stopped ==> pull_next(a, s, Some(seen), stopped).1 is Fail,
        s.phase != PullPhase::Preparing ==> pull_next(a, s, Some(seen), stopped).0.hex == s.hex && pull_next(
            a,
            s,
            Some(seen),
            stopped,
        ).0.chunk == s.chunk && pull_next(a, s, Some(seen), stopped).0.phase == s.phase,
{
    if s.phase == PullPhase::Reading {
        if let Some(v) = seen {
            if chunk_ok(v) {
                let c = (hex_chunk_of(v)->0).0;
                assert(shows(v, c));
            }
        }
    }
}

/// The size and the digest that were read are those that the transfer goes by, and what follows is that
/// the file is cut.
pub proof fn law_info_is_gone_by(a: PullArgs, s: PullView, lines: Seq<Seq<char>>, stopped: bool)
    requires
        s.phase == PullPhase::Probing,
        file_info_of(lines) is Some,
    ensures
        ({
            let t = pull_next(a, s, Some(Some(lines)), stopped);
            &&& t.0.phase == PullPhase::Preparing
            &&& Some((t.0.size, t.0.md5)) == file_info_of(lines)
            &&& t.0.hex == s.hex
            &&& t.1 == PullDo::Type(a.prepare().push('\n'), 4000)
        }),
{
    reveal_strlit("\n");
    assert(a.prepare() + "\n"@ =~= a.prepare().push('\n'));
}

/// A chunk that is shown with its digest is put behind what was read before. Then the next one is asked
/// for, by its number, unless the user wants to stop; behind the last one comes the end, which no stop
/// prevents.
pub proof fn law_shown_chunk_is_taken(
    a: PullArgs,
    s: PullView,
    lines: Seq<Seq<char>>,
    chunk: Seq<char>,
    stopped: bool,
)
    requires
        s.phase == PullPhase::Reading,
        shows(lines, chunk),
    ensures
        ({
            let t = pull_next(a, s, Some(Some(lines)), stopped);
            &&& t.0.hex == s.hex + chunk
            &&& t.0.md5 == s.md5 && t.0.size == s.size && t.0.total == s.total
            &&& s.chunk < s.total && !stopped ==> t.0.chunk == s.chunk + 1 && t.1 == PullDo::Type(
                a.show(dec((s.chunk + 1) as nat)).push('\n'),
                1500,
            )
            &&& s.chunk < s.total && stopped ==> t.1 is Stop
            &&& s.chunk >= s.total ==> t.1 is Save || t.1 is Fail
        }),
{
    reveal_strlit("\n");
    let c = a.show(dec((s.chunk + 1) as nat));
    assert(c + "\n"@ =~= c.push('\n'));
}

/// A file is cut before the first chunk is asked for, and with a file of no bytes there is nothing to ask
/// for: it is there at once.
pub proof fn law_reading_starts_at_one(a: PullArgs, s: PullView, seen: Option<Option<Seq<Seq<char>>>>)
    requires
        s.phase == PullPhase::Preparing,
        a.chunk_bytes > 0,
    ensures
        s.size > 0 ==> pull_next(a, s, seen, false).1 == PullDo::Type(a.show(seq!['1']).push('\n'), 1500)
            && pull_next(a, s, seen, false).0.chunk == 1 && pull_next(a, s, seen, false).0.hex.len() == 0,
        s.size > 0 ==> pull_next(a, s, seen, true).1 is Stop,
        s.size == 0 && s.md5 == md5_hex(Seq::empty()) ==> pull_next(a, s, seen, false).1 == PullDo::Save(
            Seq::empty(),
        ),
{
    reveal_strlit("\n");
    let file = Seq::<u8>::empty();
    let n = s.size as int;
    let c = a.chunk_bytes as int;
    vstd::arithmetic::div_mod::lemma_fundamental_div_mod(n, c);
    vstd::arithmetic::div_mod::lemma_mod_bound(n, c);
    vstd::arithmetic::div_mod::lemma_div_pos_is_pos(n, c);
    vstd::arithmetic::div_mod::lemma_div_is_ordered_by_denominator(n, 1, c);
    vstd::arithmetic::div_mod::lemma_div_basics(n);
    if s.size > 0 {
        assert(n / c > 0 || n % c > 0) by {
            if n / c == 0 && n % c == 0 {
                assert(n == 0) by (nonlinear_arith)
                    requires
                        n == c * (n / c) + n % c,
                        n / c == 0,
                        n % c == 0,
                ;
            }
        }
        if n % c != 0 && n / c == n {
            assert(c == 1) by (nonlinear_arith)
                requires
                    n == c * (n / c) + n % c,
                    n / c == n,
                    n > 0,
                    c > 0,
                    n % c >= 0,
            ;
        }
        assert(chunk_count(s.size as nat, a.chunk_bytes as nat) <= s.size);
        assert(dec(1) =~= seq!['1']);
        assert(a.show(seq!['1']) + "\n"@ =~= a.show(seq!['1']).push('\n'));
    } else {
        assert(n / c == 0 && n % c == 0) by (nonlinear_arith)
            requires
                n == 0,
                c > 0,
        ;
        law_right_digits_give_file(file);
        lemma_encoded_chars(Alphabet::Hex, file);
        assert(file_hex(file) =~= Seq::<char>::empty());
    }
}

// ---------------------------------------------------------------------------------------------
// The words of the commands
// ---------------------------------------------------------------------------------------------

proof fn lemma_words_behind(a: Seq<char>, w: Seq<char>, b: Seq<char>)
    requires
        !w.contains(' '),
    ensures
        split(a + (seq![' '] + w + seq![' ']) + b, ' ') == split(a, ' ') + seq![w] + split(b, ' '),
        split(w, ' ') == seq![w],
{
    assert forall|i: int| 0 <= i < w.len() implies w[i] != ' ' by {
        assert(w.contains(w[i]));
    }
    lemma_position_is(w, ' ', w.len() as int);
    assert(a + (seq![' '] + w + seq![' ']) + b =~= (a + seq![' '] + w) + seq![' '] + b);
    lemma_split_at(a + seq![' '] + w, b, ' ');
    lemma_split_at(a, w, ' ');
}

proof fn lemma_number_is_a_word(n: nat)
    ensures
        !dec(n).contains(' '),
{
    lemma_dec(n);
    if dec(n).contains(' ') {
        let i = dec(n).index_of(' ');
        assert(is_digit(dec(n)[i]));
    }
}

/// The commands hand the script what it goes by, each as a word of its own: what is to be done, the path
/// or the number of the chunk, the bytes of a chunk or the width of a row, and whether there are spaces.
pub proof fn law_commands_have_their_words(a: PullArgs, i: nat)
    ensures
        split(a.probe(), ' ') == split(a.script(), ' ') + seq![seq!['p', 'r', 'o', 'b', 'e']] + split(
            a.path(),
            ' ',
        ) + seq![seq![if a.char_space {
            '1'
        } else {
            '0'
        }]],
        split(a.prepare(), ' ') == split(a.script(), ' ') + seq![
            seq!['p', 'r', 'e', 'p', 'a', 'r', 'e'],
        ] + split(a.path(), ' ') + seq![dec(a.chunk_bytes as nat)],
        split(a.show(dec(i)), ' ') == split(a.script(), ' ') + seq![
            seq!['s', 'h', 'o', 'w'],
            dec(i),
            dec(a.line_width as nat),
            seq![if a.char_space {
                '1'
            } else {
                '0'
            }],
        ],
{
    reveal_strlit(" probe ");
    reveal_strlit(" prepare ");
    reveal_strlit(" show ");
    reveal_strlit(" ");
    reveal_strlit("1");
    reveal_strlit("0");
    let probe = seq!['p', 'r', 'o', 'b', 'e'];
    let prepare = seq!['p', 'r', 'e', 'p', 'a', 'r', 'e'];
    let show = seq!['s', 'h', 'o', 'w'];
    let n = dec(a.chunk_bytes as nat);
    let w = dec(a.line_width as nat);
    let f = seq![if a.char_space {
        '1'
    } else {
        '0'
    }];
    assert(a.space() =~= f);
    lemma_number_is_a_word(i);
    lemma_number_is_a_word(a.chunk_bytes as nat);
    lemma_number_is_a_word(a.line_width as nat);
    lemma_words_behind(Seq::empty(), f, Seq::empty());
    lemma_words_behind(Seq::empty(), n, Seq::empty());
    lemma_words_behind(Seq::empty(), w, Seq::empty());
    lemma_words_behind(Seq::empty(), dec(i), Seq::empty());
    assert(" probe "@ =~= seq![' '] + probe + seq![' ']);
    assert(" prepare "@ =~= seq![' '] + prepare + seq![' ']);
    assert(" show "@ =~= seq![' '] + show + seq![' ']);
    assert(" "@ =~= seq![' ']);
    lemma_split_at(a.path(), f, ' ');
    lemma_words_behind(a.script(), probe, a.path() + seq![' '] + f);
    assert(a.probe() =~= a.script() + (seq![' '] + probe + seq![' ']) + (a.path() + seq![' '] + f));
    assert(split(a.probe(), ' ') =~= split(a.script(), ' ') + seq![probe] + split(a.path(), ' ') + seq![f]);
    lemma_split_at(a.path(), n, ' ');
    lemma_words_behind(a.script(), prepare, a.path() + seq![' '] + n);
    assert(a.prepare() =~= a.script() + (seq![' '] + prepare + seq![' ']) + (a.path() + seq![' '] + n));
    assert(split(a.prepare(), ' ') =~= split(a.script(), ' ') + seq![prepare] + split(a.path(), ' ') + seq![n]);
    let last = w + seq![' '] + f;
    lemma_split_at(w, f, ' ');
    lemma_split_at(dec(i), last, ' ');
    lemma_words_behind(a.script(), show, dec(i) + seq![' '] + last);
    assert(a.show(dec(i)) =~= a.script() + (seq![' '] + show + seq![' ']) + (dec(i) + seq![' '] + last));
    assert(split(a.show(dec(i)), ' ') =~= split(a.script(), ' ') + seq![show, dec(i), w, f]);
}

/// A path stands between two quotes of the same kind. In Bash it holds none of that kind, unless it holds
/// both kinds.
pub proof fn law_path_is_quoted(a: PullArgs)
    ensures
        a.path().len() == a.remote_path@.len() + 2,
        a.path()[0] == a.path().last(),
        a.path()[0] == '\'' || a.path()[0] == '"',
        a.path().subrange(1, a.path().len() - 1) == a.remote_path@,
        a.shell == Shell::Bash && !(a.remote_path@.contains('\'') && a.remote_path@.contains('"'))
            ==> !a.remote_path@.contains(a.path()[0]),
        a.shell == Shell::Powershell ==> a.path()[0] == '\'',
{
    reveal_strlit("'");
    reveal_strlit("\"");
    assert(a.path().subrange(1, a.path().len() - 1) =~= a.remote_path@);
}

/// A dry run shows the commands that would be typed, and tells whether there are spaces.
pub proof fn law_dry_run_shows_the_commands(a: PullArgs)
    ensures
        ends(dry_run_of(a)[1], seq![' '] + a.probe()),
        found(dry_run_of(a)[2], seq![' '] + a.prepare() + seq![' ']) is Some,
        found(dry_run_of(a)[3], seq![' '] + a.show("<i>"@) + seq![' ']) is Some,
        found(dry_run_of(a)[4], seq![' '] + dec(a.line_width as nat) + seq![' ']) is Some,
        dry_run_of(a)[5] == "  [字符间距] "@ + (if a.char_space {
            "开启（每字符前加空格）"@
        } else {
            "关闭"@
        }),
{
    reveal_strlit("  [探测] ");
    reveal_strlit("  [准备] ");
    reveal_strlit("  [循环] ");
    reveal_strlit("  [每行宽度] ");
    reveal_strlit(" → /tmp/tp_pull.b16（每行: content md5）");
    reveal_strlit(" → 截图 OCR → 校验");
    reveal_strlit(" 字符");
    let d = dry_run_of(a);
    let p = seq![' '] + a.probe();
    assert(d[1].skip(d[1].len() - p.len()) =~= p);
    lemma_within("  [准备] "@, a.prepare(), " → /tmp/tp_pull.b16（每行: content md5）"@);
    lemma_within("  [循环] "@, a.show("<i>"@), " → 截图 OCR → 校验"@);
    lemma_within("  [每行宽度] "@, dec(a.line_width as nat), " 字符"@);
}

proof fn lemma_within(before: Seq<char>, s: Seq<char>, after: Seq<char>)
    requires
        before.len() > 0 && before.last() == ' ',
        after.len() > 0 && after[0] == ' ',
    ensures
        found(before + s + after, seq![' '] + s + seq![' ']) is Some,
{
    let t = before + s + after;
    let p = seq![' '] + s + seq![' '];
    let n = before.len() - 1;
    assert(t.skip(n).take(p.len() as int) =~= p);
    assert(starts(t.skip(n), p));
    lemma_found(t, p);
}

} // verus!
