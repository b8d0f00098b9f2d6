//! What is typed: the plans of the transfers and of the deployment, and what a dry run shows.

use vstd::prelude::*;
use vstd::utf8::{decode_utf8, encode_utf8, valid_utf8};
use crate::config::{CMD_SLEEP_MS, DEFAULT_ENCODING, WRAP_EVERY};
use crate::encoder::{alphabet, law_far_end_decodes, received, Encoder, Encoding};
use crate::parts::{maybe, parts_to_send, parts_to_send_of};
use crate::payload::{
    law_part_is_its_stretch, law_plain_data_is_typable, lemma_no_line_break, utf8_text, PartsInfo, Payload,
    Source,
};
use crate::radix::decoded;
use crate::restore_script::{
    decode_cmd, decode_cmd_for_shell, decode_cmd_for_shell_of, decode_cmd_of, heredoc_footer,
    heredoc_footer_of, heredoc_header, heredoc_header_of, law_uid_names_pipeline, ops_of, parse_ops,
    part_in_range, part_uid, uid_of, Shell, Target,
};
use crate::scripts::lemma_scripts_are_short;
use crate::text::{
    chars_of, dec, dec_string, ends, found, join, joined, lemma_found, lemma_position_is, lemma_split_at,
    split, starts, string_of, texts,
};
use crate::utils::{law_wrap_keeps_text, md5_hex, preview, preview_text, unwrapped, wrapped};

verus! {

/// What the command line asks for.
pub struct Args {
    /// The file or directory to send. It can be left out where a script is deployed.
    pub file: Option<String>,
    /// Glob patterns of files and directories to leave out.
    pub exclude: Vec<String>,
    /// Deploy the restore script.
    pub deploy_script: bool,
    /// The platform to deploy for.
    pub target: Option<Target>,
    /// The encoding.
    pub encode: Option<Encoding>,
    /// The shell of the target machine.
    pub shell: Shell,
    /// Another restore script to call.
    pub restore_script: Option<String>,
    /// Seconds of countdown.
    pub delay: u64,
    /// Milliseconds between two characters.
    pub interval: u64,
    /// Show what would be typed, and type nothing.
    pub dry_run: bool,
    /// The size of the parts, where it goes in parts.
    pub part_size: Option<usize>,
    /// The parts to skip.
    pub skip_parts: Option<String>,
    /// The only parts to send.
    pub only_parts: Option<String>,
}

/// One thing to do, in order.
#[derive(Debug, Clone, PartialEq, Eq)]
pub enum Step {
    /// Tell the user.
    Note(String),
    /// Type a command.
    Command(String),
    /// Type a text, with a line break after every `wrap` characters.
    Text { text: String, wrap: usize },
    /// Wait for so many milliseconds.
    Pause(u64),
}

/// A step over sequences.
pub enum StepView {
    /// Tell the user.
    Note(Seq<char>),
    /// Type a command.
    Command(Seq<char>),
    /// Type a text, with a line break after so many characters.
    Text(Seq<char>, nat),
    /// Wait for so many milliseconds.
    Pause(nat),
}

impl View for Step {
    type V = StepView;

    open spec fn view(&self) -> StepView {
        match self {
            Step::Note(s) => StepView::Note(s@),
            Step::Command(s) => StepView::Command(s@),
            Step::Text { text, wrap } => StepView::Text(text@, *wrap as nat),
            Step::Pause(ms) => StepView::Pause(*ms as nat),
        }
    }
}

/// Steps over sequences.
pub open spec fn plan_view(v: Seq<Step>) -> Seq<StepView> {
    v.map_values(|s: Step| s@)
}

/// The view of an optional text.
pub open spec fn text_view(s: Option<String>) -> Option<Seq<char>> {
    match s {
        Some(t) => Some(t@),
        None => None,
    }
}

fn text_ref(s: &Option<String>) -> (r: Option<&str>)
    ensures
        maybe(r) == text_view(*s),
{
    match s {
        Some(t) => Some(t.as_str()),
        None => None,
    }
}

// ---------------------------------------------------------------------------------------------
// Commands
// ---------------------------------------------------------------------------------------------

/// What `auto_invoke_command` gives.
pub open spec fn invoke_of(args: Args, uid: Seq<char>, md5: Seq<char>, part_md5s: Option<Seq<char>>) -> Seq<
    char,
> {
    let script = match args.restore_script {
        Some(name) => name@,
        None => match args.shell {
            Shell::Bash => "bash typepaste-restore.sh"@,
            Shell::Powershell => "powershell -File typepaste-restore.ps1"@,
        },
    };
    let call = script + " "@ + uid + " "@ + md5;
    match part_md5s {
        Some(m) => call + " "@ + m,
        None => call,
    }
}

/// The command that calls the restore script: with the name and the digest, and for a transfer in parts
/// with the digests of all parts, against which the target machine checks each part before it joins them.
pub fn auto_invoke_command(args: &Args, uid_full: &str, md5: &str, part_md5s: Option<&str>) -> (r: String)
    ensures
        r@ == invoke_of(*args, uid_full@, md5@, maybe(part_md5s)),
{
    let mut r = match &args.restore_script {
        Some(name) => name.as_str().to_string(),
        None => match args.shell {
            Shell::Bash => "bash typepaste-restore.sh".to_string(),
            Shell::Powershell => "powershell -File typepaste-restore.ps1".to_string(),
        },
    };
    r.append(" ");
    r.append(uid_full);
    r.append(" ");
    r.append(md5);
    if let Some(m) = part_md5s {
        r.append(" ");
        r.append(m);
    }
    r
}

/// What `manual_restore_steps` gives.
pub open spec fn manual_steps_of(uid: Seq<char>, md5: Seq<char>) -> Seq<Seq<char>> {
    let ops = ops_of(uid);
    let plain = if ops.decode is Some {
        uid.take(uid.len() - 4)
    } else {
        uid
    };
    let data = if ops.gunzip {
        plain.take(plain.len() - 3)
    } else {
        plain
    };
    let decode = match ops.decode {
        Some(e) => seq![decode_cmd_of(e, uid, plain)],
        None => seq![],
    };
    let gunzip = if ops.gunzip {
        seq!["gunzip "@ + plain]
    } else {
        seq![]
    };
    let unzip = if ops.unzip {
        seq!["unzip "@ + data]
    } else {
        seq![]
    };
    decode + gunzip + seq!["# md5sum "@ + data + "  应为 "@ + md5] + unzip
}

/// The steps that restore a transfer by hand, from the suffixes of its name: decode, decompress, compare
/// the digest, unpack. A part number in the name has to be within range.
pub fn manual_restore_steps(uid_full: &str, md5: &str) -> (r: Vec<String>)
    requires
        part_in_range(uid_full@),
    ensures
        texts(r@) == manual_steps_of(uid_full@, md5@),
{
    let ops = parse_ops(uid_full);
    let mut steps: Vec<String> = Vec::new();
    let mut cur = chars_of(uid_full);
    proof {
        reveal_strlit(".b32");
        reveal_strlit(".b64");
        reveal_strlit(".b16");
        reveal_strlit(".gz");
    }
    if let Some(e) = ops.decode {
        let n = cur.len();
        let mut out = cur.clone();
        out.truncate(n - 4);
        let name = string_of(out.as_slice());
        steps.push(decode_cmd(e, uid_full, name.as_str()));
        cur = out;
    }
    let ghost plain = cur@;
    assert(plain =~= (if ops.decode is Some {
        uid_full@.take(uid_full@.len() - 4)
    } else {
        uid_full@
    }));
    if ops.gunzip {
        let name = string_of(cur.as_slice());
        let mut s = "gunzip ".to_string();
        s.append(name.as_str());
        steps.push(s);
        let n = cur.len();
        cur.truncate(n - 3);
    }
    let name = string_of(cur.as_slice());
    let mut s = "# md5sum ".to_string();
    s.append(name.as_str());
    s.append("  应为 ");
    s.append(md5);
    steps.push(s);
    if ops.unzip {
        let mut s = "unzip ".to_string();
        s.append(name.as_str());
        steps.push(s);
    }
    assert(texts(steps@) =~= manual_steps_of(uid_full@, md5@));
    steps
}

// ---------------------------------------------------------------------------------------------
// Plans
// ---------------------------------------------------------------------------------------------

/// The steps that make a file of a text.
pub open spec fn file_steps(shell: Shell, file: Seq<char>, text: Seq<char>) -> Seq<StepView> {
    seq![
        StepView::Command(heredoc_header_of(shell, file)),
        StepView::Text(text, WRAP_EVERY as nat),
        StepView::Command(heredoc_footer_of(shell, file)),
    ]
}

fn push_file_steps(steps: &mut Vec<Step>, shell: Shell, file: &str, text: &str)
    ensures
        plan_view(final(steps)@) == plan_view(old(steps)@) + file_steps(shell, file@, text@),
{
    steps.push(Step::Command(heredoc_header(shell, file)));
    steps.push(Step::Text { text: text.to_string(), wrap: WRAP_EVERY });
    steps.push(Step::Command(heredoc_footer(shell, file)));
    assert(plan_view(steps@) =~= plan_view(old(steps)@) + file_steps(shell, file@, text@));
}

/// The plan for one text under one name: write it, wait, and call the restore script.
pub open spec fn auto_plan(p: Payload, args: Args) -> Seq<StepView> {
    file_steps(args.shell, p.uid_full@, p.encoded->0@) + seq![
        StepView::Pause(CMD_SLEEP_MS as nat),
        StepView::Command(invoke_of(args, p.uid_full@, p.local_md5@, None) + "\n"@),
    ]
}

/// The steps for one part: say which, write it, and wait.
pub open spec fn part_steps(p: Payload, args: Args, n: usize) -> Seq<StepView> {
    let i = p.parts->0;
    seq![StepView::Note("p"@ + dec(n as nat) + " >>> md5="@ + i.part_md5s@[n - 1]@)] + file_steps(
        args.shell,
        part_uid(p.uid_full@, n as nat),
        i.encoded_parts@[n - 1]@,
    ) + seq![StepView::Pause(CMD_SLEEP_MS as nat)]
}

/// The steps for some parts.
pub open spec fn parts_steps(p: Payload, args: Args, numbers: Seq<usize>) -> Seq<StepView>
    decreases numbers.len(),
{
    if numbers.len() == 0 {
        Seq::empty()
    } else {
        parts_steps(p, args, numbers.drop_last()) + part_steps(p, args, numbers.last())
    }
}

/// The command that has all parts checked, joined and restored.
pub open spec fn join_command(p: Payload, args: Args) -> Seq<char> {
    invoke_of(
        args,
        p.uid_full@,
        p.local_md5@,
        Some(joined(texts(p.parts->0.part_md5s@), ","@)),
    )
}

/// What `plan_transfer` gives.
pub open spec fn plan_of(p: Payload, args: Args) -> Result<Seq<StepView>, Seq<char>> {
    if p.parts is Some {
        match parts_to_send_of(
            p.parts->0.total,
            text_view(args.only_parts),
            text_view(args.skip_parts),
        ) {
            Err(e) => Err(e),
            Ok(numbers) => Ok(
                parts_steps(p, args, numbers) + seq![
                    StepView::Command(join_command(p, args) + "\n"@),
                ],
            ),
        }
    } else if p.encoding is Some {
        Ok(auto_plan(p, args))
    } else if valid_utf8(p.raw@) {
        Ok(seq![StepView::Text(decode_utf8(p.raw@), 0)])
    } else {
        Err(not_text())
    }
}

/// The error for data that is no text.
pub open spec fn not_text() -> Seq<char> {
    "源文件非 UTF-8 文本，无法原文直输；请使用 --encode base32/base64/base16"@
}

/// A plan over sequences.
pub open spec fn planned(r: Result<Vec<Step>, String>) -> Result<Seq<StepView>, Seq<char>> {
    match r {
        Ok(v) => Ok(plan_view(v@)),
        Err(e) => Err(e@),
    }
}

fn with_newline(s: String) -> (r: String)
    ensures
        r@ == s@ + "\n"@,
{
    let mut r = s;
    r.append("\n");
    r
}

fn part_name(uid: &str, n: usize) -> (r: String)
    ensures
        r@ == part_uid(uid@, n as nat),
{
    let mut r = uid.to_string();
    r.append(".p");
    let d = dec_string(n as u64);
    r.append(d.as_str());
    r
}

fn part_note(n: usize, md5: &str) -> (r: String)
    ensures
        r@ == "p"@ + dec(n as nat) + " >>> md5="@ + md5@,
{
    let mut r = "p".to_string();
    let d = dec_string(n as u64);
    r.append(d.as_str());
    r.append(" >>> md5=");
    r.append(md5);
    r
}

fn push_part_steps(steps: &mut Vec<Step>, p: &Payload, i: &PartsInfo, args: &Args, n: usize)
    requires
        p.parts == Some(*i),
        p.wf(),
        1 <= n <= i.total,
    ensures
        plan_view(final(steps)@) == plan_view(old(steps)@) + part_steps(*p, *args, n),
{
    let ghost before = plan_view(steps@);
    steps.push(Step::Note(part_note(n, i.part_md5s[n - 1].as_str())));
    assert(plan_view(steps@) =~= before.push(steps@.last()@));
    let file = part_name(p.uid_full.as_str(), n);
    push_file_steps(steps, args.shell, file.as_str(), i.encoded_parts[n - 1].as_str());
    let ghost middle = plan_view(steps@);
    steps.push(Step::Pause(CMD_SLEEP_MS));
    assert(plan_view(steps@) =~= middle.push(StepView::Pause(CMD_SLEEP_MS as nat)));
    assert(plan_view(steps@) =~= before + part_steps(*p, *args, n));
}

fn join_call(p: &Payload, i: &PartsInfo, args: &Args) -> (r: String)
    requires
        p.parts == Some(*i),
    ensures
        r@ == join_command(*p, *args),
{
    let all = join(i.part_md5s.as_slice(), ",");
    auto_invoke_command(args, p.uid_full.as_str(), p.local_md5.as_str(), Some(all.as_str()))
}

/// The numbers of the parts that are sent are numbers of parts.
proof fn lemma_numbers(total: usize, only: Option<Seq<char>>, skip: Option<Seq<char>>)
    ensures
        parts_to_send_of(total, only, skip) matches Ok(v) ==> forall|k: int|
            0 <= k < v.len() ==> 1 <= #[trigger] v[k] <= total,
{
    if let Ok(v) = parts_to_send_of(total, only, skip) {
        assert forall|k: int| 0 <= k < v.len() implies 1 <= #[trigger] v[k] <= total by {
            let (set, want) = choose|set: Set<usize>, want: bool|
                v == #[trigger] crate::parts::picked(total as nat, set, want);
            crate::parts::law_picked_in_order(total, set, want);
            assert(v.contains(v[k]));
        }
    }
}

/// The plan of a transfer. In parts: each part that is to be sent becomes a file, and the restore script
/// checks and joins all of them. In one piece: the text becomes a file, and the restore script is called.
/// Not encoded: the text is typed as it is, which it has to be.
pub fn plan_transfer(payload: &Payload, args: &Args) -> (r: Result<Vec<Step>, String>)
    requires
        payload.wf(),
    ensures
        planned(r) == plan_of(*payload, *args),
{
    let mut steps: Vec<Step> = Vec::new();
    if let Some(i) = &payload.parts {
        let numbers = match parts_to_send(
            i.total,
            text_ref(&args.only_parts),
            text_ref(&args.skip_parts),
        ) {
            Ok(v) => v,
            Err(e) => {
                return Err(e);
            },
        };
        proof {
            lemma_numbers(i.total, text_view(args.only_parts), text_view(args.skip_parts));
        }
        let mut k: usize = 0;
        assert(plan_view(steps@) =~= parts_steps(*payload, *args, numbers@.take(0)));
        while k < numbers.len()
            invariant
                k <= numbers@.len(),
                payload.wf(),
                payload.parts == Some(*i),
                forall|j: int| 0 <= j < numbers@.len() ==> 1 <= #[trigger] numbers@[j] <= i.total,
                plan_view(steps@) == parts_steps(*payload, *args, numbers@.take(k as int)),
            decreases numbers.len() - k,
        {
            push_part_steps(&mut steps, payload, i, args, numbers[k]);
            assert(numbers@.take(k + 1).drop_last() =~= numbers@.take(k as int));
            k += 1;
        }
        assert(numbers@.take(k as int) =~= numbers@);
        let ghost before = plan_view(steps@);
        steps.push(Step::Command(with_newline(join_call(payload, i, args))));
        assert(plan_view(steps@) =~= before + seq![
            StepView::Command(join_command(*payload, *args) + "\n"@),
        ]);
        return Ok(steps);
    }
    match &payload.encoded {
        Some(text) if payload.encoding.is_some() => {
            push_file_steps(&mut steps, args.shell, payload.uid_full.as_str(), text.as_str());
            let ghost before = plan_view(steps@);
            steps.push(Step::Pause(CMD_SLEEP_MS));
            let call = auto_invoke_command(
                args,
                payload.uid_full.as_str(),
                payload.local_md5.as_str(),
                None,
            );
            steps.push(Step::Command(with_newline(call)));
            assert(plan_view(steps@) =~= auto_plan(*payload, *args));
            Ok(steps)
        },
        _ => match utf8_text(payload.raw.as_slice()) {
            Some(text) => {
                steps.push(Step::Text { text, wrap: 0 });
                assert(plan_view(steps@) =~= seq![StepView::Text(decode_utf8(payload.raw@), 0)]);
                Ok(steps)
            },
            None => Err(
                "源文件非 UTF-8 文本，无法原文直输；请使用 --encode base32/base64/base16".to_string(),
            ),
        },
    }
}

/// The encoding in which a script is delivered.
pub open spec fn delivery(args: Args) -> Encoding {
    match args.encode {
        Some(e) => e,
        None => DEFAULT_ENCODING,
    }
}

/// What `plan_deploy` gives: the encoded script becomes a file, which is decoded under its own name.
pub open spec fn deploy_plan(target: Target, args: Args) -> Seq<StepView> {
    let e = delivery(args);
    let file = target.landing() + "."@ + e.chosen().ending();
    seq![
        StepView::Command(heredoc_header_of(args.shell, file)),
        StepView::Text(e.chosen().text_of(encode_utf8(target.source())), WRAP_EVERY as nat),
        StepView::Command(
            heredoc_footer_of(args.shell, file) + "\n"@ + decode_cmd_for_shell_of(
                args.shell,
                e,
                file,
                target.landing(),
            ) + "\n"@,
        ),
    ]
}

/// The plan that deploys the restore script of a platform.
pub fn plan_deploy(target: Target, args: &Args) -> (r: Vec<Step>)
    ensures
        plan_view(r@) == deploy_plan(target, *args),
{
    let e: Encoding = match args.encode {
        Some(e) => e,
        None => DEFAULT_ENCODING,
    };
    let bytes = target.script().as_bytes();
    proof {
        lemma_scripts_are_short();
    }
    let landing = target.landing_name();
    let mut file = landing.to_string();
    file.append(".");
    file.append(e.encoder().suffix());
    let text = e.encoder().encode(bytes);
    let cmd = decode_cmd_for_shell(args.shell, e, file.as_str(), landing);
    let mut last = heredoc_footer(args.shell, file.as_str());
    last.append("\n");
    last.append(cmd.as_str());
    last.append("\n");
    let mut steps: Vec<Step> = Vec::new();
    steps.push(Step::Command(heredoc_header(args.shell, file.as_str())));
    steps.push(Step::Text { text, wrap: WRAP_EVERY });
    steps.push(Step::Command(last));
    assert(plan_view(steps@) =~= deploy_plan(target, *args));
    steps
}

// ---------------------------------------------------------------------------------------------
// Dry runs
// ---------------------------------------------------------------------------------------------

/// What a dry run shows of the steps: commands in full, texts cut.
pub open spec fn shown(plan: Seq<StepView>) -> Seq<char>
    decreases plan.len(),
{
    if plan.len() == 0 {
        Seq::empty()
    } else {
        shown(plan.drop_last()) + match plan.last() {
            StepView::Command(s) => s,
            StepView::Text(t, w) => preview(t, w),
            _ => Seq::empty(),
        }
    }
}

/// What a dry run shows in place of typing the steps.
pub fn dry_run_text(steps: &[Step]) -> (r: String)
    ensures
        r@ == shown(plan_view(steps@)),
{
    let mut r = String::new();
    let mut i: usize = 0;
    while i < steps.len()
        invariant
            i <= steps@.len(),
            r@ == shown(plan_view(steps@).take(i as int)),
        decreases steps.len() - i,
    {
        match &steps[i] {
            Step::Command(s) => {
                r.append(s.as_str());
            },
            Step::Text { text, wrap } => {
                let p = preview_text(text.as_str(), *wrap);
                r.append(p.as_str());
            },
            _ => {},
        }
        proof {
            let t = plan_view(steps@).take(i + 1);
            assert(t.drop_last() =~= plan_view(steps@).take(i as int));
            assert(t.last() == steps@[i as int]@);
            assert(r@ =~= shown(t));
        }
        i += 1;
    }
    assert(plan_view(steps@).take(steps@.len() as int) =~= plan_view(steps@));
    r
}

/// The line of a dry run for one part.
pub open spec fn part_line(p: Payload, n: usize) -> Seq<char> {
    "  p"@ + dec(n as nat) + ": "@ + part_uid(p.uid_full@, n as nat) + " (md5="@
        + p.parts->0.part_md5s@[n - 1]@ + ")"@
}

/// What `dry_run_lines` gives.
pub open spec fn dry_run_lines_of(p: Payload, args: Args) -> Result<Seq<Seq<char>>, Seq<char>> {
    if p.parts is Some {
        match parts_to_send_of(
            p.parts->0.total,
            text_view(args.only_parts),
            text_view(args.skip_parts),
        ) {
            Err(e) => Err(e),
            Ok(numbers) => Ok(
                seq![
                    "[dry-run] 分片模式："@ + dec(p.parts->0.total as nat) + " 片，待传 "@ + dec(
                        numbers.len(),
                    ) + " 片"@,
                ] + numbers.map_values(|n: usize| part_line(p, n)) + seq![
                    "  批量校验+合并调用：\n"@ + join_command(p, args),
                ],
            ),
        }
    } else if p.encoding is Some {
        Ok(
            seq![
                "[dry-run] auto 模式"@,
                "  调用命令："@ + invoke_of(args, p.uid_full@, p.local_md5@, None),
            ],
        )
    } else if valid_utf8(p.raw@) {
        Ok(seq!["[dry-run] 原文直输"@])
    } else {
        Err(not_text())
    }
}

/// Lines over sequences.
pub open spec fn lines_view(r: Result<Vec<String>, String>) -> Result<Seq<Seq<char>>, Seq<char>> {
    match r {
        Ok(v) => Ok(texts(v@)),
        Err(e) => Err(e@),
    }
}

fn part_entry(p: &Payload, i: &PartsInfo, n: usize) -> (r: String)
    requires
        p.parts == Some(*i),
        p.wf(),
        1 <= n <= i.total,
    ensures
        r@ == part_line(*p, n),
{
    let mut r = "  p".to_string();
    let d = dec_string(n as u64);
    r.append(d.as_str());
    r.append(": ");
    let name = part_name(p.uid_full.as_str(), n);
    r.append(name.as_str());
    r.append(" (md5=");
    r.append(i.part_md5s[n - 1].as_str());
    r.append(")");
    r
}

/// The lines with which a dry run of a transfer begins. For a transfer in parts they are all it shows.
pub fn dry_run_lines(payload: &Payload, args: &Args) -> (r: Result<Vec<String>, String>)
    requires
        payload.wf(),
    ensures
        lines_view(r) == dry_run_lines_of(*payload, *args),
{
    let mut lines: Vec<String> = Vec::new();
    if let Some(i) = &payload.parts {
        let numbers = match parts_to_send(
            i.total,
            text_ref(&args.only_parts),
            text_ref(&args.skip_parts),
        ) {
            Ok(v) => v,
            Err(e) => {
                return Err(e);
            },
        };
        proof {
            lemma_numbers(i.total, text_view(args.only_parts), text_view(args.skip_parts));
        }
        let mut head = "[dry-run] 分片模式：".to_string();
        let total = dec_string(i.total as u64);
        head.append(total.as_str());
        head.append(" 片，待传 ");
        let count = dec_string(numbers.len() as u64);
        head.append(count.as_str());
        head.append(" 片");
        let ghost first = head@;
        lines.push(head);
        let ghost entries = numbers@.map_values(|n: usize| part_line(*payload, n));
        let mut k: usize = 0;
        assert(texts(lines@) =~= seq![first] + entries.take(0));
        while k < numbers.len()
            invariant
                k <= numbers@.len(),
                payload.wf(),
                payload.parts == Some(*i),
                forall|j: int| 0 <= j < numbers@.len() ==> 1 <= #[trigger] numbers@[j] <= i.total,
                entries == numbers@.map_values(|n: usize| part_line(*payload, n)),
                texts(lines@) == seq![first] + entries.take(k as int),
            decreases numbers.len() - k,
        {
            let ghost before = texts(lines@);
            lines.push(part_entry(payload, i, numbers[k]));
            proof {
                assert(texts(lines@) =~= before.push(part_line(*payload, numbers@[k as int])));
                assert(texts(lines@) =~= seq![first] + entries.take(k + 1));
            }
            k += 1;
        }
        assert(entries.take(k as int) =~= entries);
        let call = join_call(payload, i, args);
        let mut tail = "  批量校验+合并调用：\n".to_string();
        tail.append(call.as_str());
        let ghost before = texts(lines@);
        lines.push(tail);
        assert(texts(lines@) =~= before.push(tail@));
        assert(texts(lines@) =~= seq![first] + entries + seq![tail@]);
        return Ok(lines);
    }
    if payload.encoding.is_some() {
        let call = auto_invoke_command(
            args,
            payload.uid_full.as_str(),
            payload.local_md5.as_str(),
            None,
        );
        let mut tail = "  调用命令：".to_string();
        tail.append(call.as_str());
        lines.push("[dry-run] auto 模式".to_string());
        lines.push(tail);
        assert(texts(lines@) =~= seq![
            "[dry-run] auto 模式"@,
            "  调用命令："@ + invoke_of(*args, payload.uid_full@, payload.local_md5@, None),
        ]);
        return Ok(lines);
    }
    match utf8_text(payload.raw.as_slice()) {
        Some(_) => {
            lines.push("[dry-run] 原文直输".to_string());
            assert(texts(lines@) =~= seq!["[dry-run] 原文直输"@]);
            Ok(lines)
        },
        None => Err(
            "源文件非 UTF-8 文本，无法原文直输；请使用 --encode base32/base64/base16".to_string(),
        ),
    }
}

/// Data that needs no encoding can always be typed as it is: the plan is its bytes, as characters.
pub proof fn law_plain_transfer_is_planned(p: Payload, s: Source, args: Args)
    requires
        p.is_from(s),
        p.encoding is None,
    ensures
        plan_of(p, args) == Ok::<Seq<StepView>, Seq<char>>(
            seq![StepView::Text(p.raw@.map_values(|b: u8| b as char), 0)],
        ),
{
    law_plain_data_is_typable(p, s);
}

/// Every part that is to be sent is typed in its turn: say which, its file, and a pause, five steps for
/// each and nothing else.
pub proof fn law_parts_are_typed_in_turn(p: Payload, args: Args, numbers: Seq<usize>, j: int)
    requires
        0 <= j < numbers.len(),
    ensures
        parts_steps(p, args, numbers).len() == 5 * numbers.len(),
        parts_steps(p, args, numbers).subrange(5 * j, 5 * j + 5) == part_steps(p, args, numbers[j]),
    decreases numbers.len(),
{
    let head = numbers.drop_last();
    let before = parts_steps(p, args, head);
    let all = parts_steps(p, args, numbers);
    if head.len() > 0 {
        law_parts_are_typed_in_turn(p, args, head, 0);
    }
    assert(before.len() == 5 * head.len());
    if j < head.len() {
        law_parts_are_typed_in_turn(p, args, head, j);
        assert(all.subrange(5 * j, 5 * j + 5) =~= before.subrange(5 * j, 5 * j + 5));
    } else {
        assert(all.subrange(5 * j, 5 * j + 5) =~= part_steps(p, args, numbers[j]));
    }
}

/// What is deployed arrives: the text that is typed, without its line breaks, decodes to the script.
pub proof fn law_deployed_script_arrives(target: Target, args: Args)
    ensures
        deploy_plan(target, args)[1] matches StepView::Text(text, wrap) && decoded(
            alphabet(delivery(args)),
            received(delivery(args), unwrapped(wrapped(text, wrap))),
        ) == Some(encode_utf8(target.source())),
{
    let e = delivery(args);
    let data = encode_utf8(target.source());
    lemma_no_line_break(e, data);
    law_wrap_keeps_text(e.chosen().text_of(data), WRAP_EVERY as nat);
    law_far_end_decodes(e, data);
}

// ---------------------------------------------------------------------------------------------
// What the commands and the notes say
// ---------------------------------------------------------------------------------------------

proof fn lemma_one_word(s: Seq<char>)
    requires
        !s.contains(' '),
    ensures
        split(s, ' ') == seq![s],
{
    assert forall|i: int| 0 <= i < s.len() implies s[i] != ' ' by {
        assert(s.contains(s[i]));
    }
    lemma_position_is(s, ' ', s.len() as int);
}

/// A call of a restore script hands it the name and the digest, and for a transfer in parts the digests of
/// the parts, each as a word of its own. The script is the one that was asked for, or else the one that
/// was deployed, by way of the shell.
pub proof fn law_call_hands_over(args: Args, uid: Seq<char>, md5: Seq<char>, all: Seq<char>)
    requires
        !uid.contains(' '),
        !md5.contains(' '),
        !all.contains(' '),
    ensures
        ({
            let script = match args.restore_script {
                Some(name) => split(name@, ' '),
                None => match args.shell {
                    Shell::Bash => seq!["bash"@, Target::Linux.landing()],
                    Shell::Powershell => seq!["powershell"@, "-File"@, Target::Powershell.landing()],
                },
            };
            &&& split(invoke_of(args, uid, md5, None), ' ') == script + seq![uid, md5]
            &&& split(invoke_of(args, uid, md5, Some(all)), ' ') == script + seq![uid, md5, all]
        }),
{
    reveal_strlit(" ");
    reveal_strlit("bash");
    reveal_strlit("powershell");
    reveal_strlit("-File");
    reveal_strlit("typepaste-restore.sh");
    reveal_strlit("typepaste-restore.ps1");
    reveal_strlit("bash typepaste-restore.sh");
    reveal_strlit("powershell -File typepaste-restore.ps1");
    let b = "bash typepaste-restore.sh"@;
    let p = "powershell -File typepaste-restore.ps1"@;
    let pf = "powershell"@ + seq![' '] + "-File"@;
    assert(b =~= "bash"@ + seq![' '] + "typepaste-restore.sh"@);
    assert(p =~= pf + seq![' '] + "typepaste-restore.ps1"@);
    lemma_split_at("bash"@, "typepaste-restore.sh"@, ' ');
    lemma_split_at(pf, "typepaste-restore.ps1"@, ' ');
    lemma_split_at("powershell"@, "-File"@, ' ');
    lemma_one_word("bash"@);
    lemma_one_word("powershell"@);
    lemma_one_word("-File"@);
    lemma_one_word("typepaste-restore.sh"@);
    lemma_one_word("typepaste-restore.ps1"@);
    lemma_one_word(uid);
    lemma_one_word(md5);
    lemma_one_word(all);
    let script = match args.restore_script {
        Some(name) => name@,
        None => match args.shell {
            Shell::Bash => b,
            Shell::Powershell => p,
        },
    };
    assert(" "@ =~= seq![' ']);
    let one = script + seq![' '] + uid;
    let two = one + seq![' '] + md5;
    lemma_split_at(script, uid, ' ');
    lemma_split_at(one, md5, ' ');
    lemma_split_at(two, all, ' ');
    assert(split(b, ' ') =~= seq!["bash"@, Target::Linux.landing()]);
    assert(split(p, ' ') =~= seq!["powershell"@, "-File"@, Target::Powershell.landing()]);
    assert(split(two, ' ') =~= split(script, ' ') + seq![uid, md5]);
    assert(split(two + seq![' '] + all, ' ') =~= split(script, ' ') + seq![uid, md5, all]);
}

/// Before a part is typed, the user is told its number and the digest of exactly what is typed for it.
pub proof fn law_note_tells_digest(p: Payload, args: Args, s: Source, n: usize)
    requires
        p.is_from(s),
        p.parts is Some,
        1 <= n <= p.parts->0.total,
    ensures
        part_steps(p, args, n).len() == 5,
        part_steps(p, args, n)[2] matches StepView::Text(text, wrap) && part_steps(p, args, n)[0]
            == StepView::Note(seq!['p'] + dec(n as nat) + " >>> md5="@ + md5_hex(encode_utf8(text))),
        part_steps(p, args, n)[4] == StepView::Pause(500),
{
    reveal_strlit("p");
    law_part_is_its_stretch(p, s, n as int);
    assert("p"@ =~= seq!['p']);
}

/// A dry run of a transfer in parts shows how many there are and how many would be sent, a line for each of
/// those with its number, its file and the digest of its text, and the call that joins them. It fails
/// where the transfer does.
pub proof fn law_dry_run_lists_parts(p: Payload, args: Args, s: Source, k: int)
    requires
        p.is_from(s),
        p.parts is Some,
    ensures
        ({
            let only = text_view(args.only_parts);
            let skip = text_view(args.skip_parts);
            match parts_to_send_of(p.parts->0.total, only, skip) {
                Err(e) => dry_run_lines_of(p, args) == Err::<Seq<Seq<char>>, Seq<char>>(e),
                Ok(v) => {
                    &&& dry_run_lines_of(p, args) matches Ok(lines) && lines.len() == v.len() + 2
                    &&& found(dry_run_lines_of(p, args)->Ok_0[0], dec(p.parts->0.total as nat)) is Some
                    &&& ends(
                        dry_run_lines_of(p, args)->Ok_0[0],
                        dec(v.len()) + seq![' ', '片'],
                    )
                    &&& 0 <= k < v.len() ==> dry_run_lines_of(p, args)->Ok_0[k + 1] == seq![' ', ' ', 'p'] + dec(
                        v[k] as nat,
                    ) + seq![':', ' '] + part_uid(p.uid_full@, v[k] as nat) + " (md5="@ + md5_hex(
                        encode_utf8(p.parts->0.encoded_parts@[v[k] - 1]@),
                    ) + seq![')']
                    &&& ends(dry_run_lines_of(p, args)->Ok_0.last(), seq!['\n'] + join_command(p, args))
                },
            }
        }),
{
    reveal_strlit("  p");
    reveal_strlit(": ");
    reveal_strlit(")");
    reveal_strlit(" 片");
    reveal_strlit("  批量校验+合并调用：\n");
    let only = text_view(args.only_parts);
    let skip = text_view(args.skip_parts);
    lemma_numbers(p.parts->0.total, only, skip);
    if let Ok(v) = parts_to_send_of(p.parts->0.total, only, skip) {
        let lines = dry_run_lines_of(p, args)->Ok_0;
        let head = "[dry-run] 分片模式："@;
        let total = dec(p.parts->0.total as nat);
        let first = head + total + " 片，待传 "@ + dec(v.len()) + " 片"@;
        assert(lines[0] == first);
        lemma_found(first, total);
        assert(first.skip(head.len() as int).take(total.len() as int) =~= total);
        assert(starts(first.skip(head.len() as int), total));
        let tail = dec(v.len()) + seq![' ', '片'];
        assert(" 片"@ =~= seq![' ', '片']);
        assert(first.skip(first.len() - tail.len()) =~= tail);
        let call = join_command(p, args);
        let last = "  批量校验+合并调用：\n"@ + call;
        assert(lines.last() == last);
        assert(last.skip(last.len() - call.len() - 1) =~= seq!['\n'] + call);
        if 0 <= k < v.len() {
            let n = v[k];
            assert(1 <= n <= p.parts->0.total);
            law_part_is_its_stretch(p, s, n as int);
            assert("  p"@ =~= seq![' ', ' ', 'p']);
            assert(": "@ =~= seq![':', ' ']);
            assert(")"@ =~= seq![')']);
            assert(lines[k + 1] == part_line(p, n));
        }
    }
}

/// Where data goes in one piece, a dry run names the call that would restore it.
pub proof fn law_dry_run_names_the_call(p: Payload, args: Args)
    requires
        p.parts is None,
        p.encoding is Some,
    ensures
        dry_run_lines_of(p, args) matches Ok(lines) && lines.len() == 2 && ends(
            lines[1],
            invoke_of(args, p.uid_full@, p.local_md5@, None),
        ),
        plan_of(p, args) matches Ok(plan) && plan.last() == StepView::Command(
            invoke_of(args, p.uid_full@, p.local_md5@, None).push('\n'),
        ),
{
    reveal_strlit("\n");
    let call = invoke_of(args, p.uid_full@, p.local_md5@, None);
    let line = "  调用命令："@ + call;
    assert(line.skip(line.len() - call.len()) =~= call);
    assert(dry_run_lines_of(p, args)->Ok_0[1] == line);
    assert(call + "\n"@ =~= call.push('\n'));
    assert(auto_plan(p, args).last() == StepView::Command(call + "\n"@));
}

/// The steps that restore a transfer by hand undo what its name says, the last thing first: the text is
/// decoded into a file without the suffix, that is decompressed, the digest is compared for what comes of
/// it, and an archive is unpacked. The base must not itself end like a step that was not taken.
pub proof fn law_steps_by_hand(base: Seq<char>, is_dir: bool, is_compressed: bool, e: Encoding, md5: Seq<char>)
    requires
        !is_dir ==> !ends(base, ".zip"@),
        !is_dir && !is_compressed ==> !ends(base, ".gz"@),
    ensures
        ({
            let data = if is_dir {
                base + ".zip"@
            } else {
                base
            };
            let packed = if is_compressed {
                data + ".gz"@
            } else {
                data
            };
            let uid = uid_of(base, is_dir, is_compressed, Some(e));
            let steps = manual_steps_of(uid, md5);
            let at: int = if is_compressed {
                2
            } else {
                1
            };
            &&& steps.len() == at + (if is_dir {
                2int
            } else {
                1
            })
            &&& steps[0] == decode_cmd_of(e, uid, packed)
            &&& is_compressed ==> steps[1] == "gunzip "@ + data + ".gz"@
            &&& starts(steps[at], "# md5sum "@ + data + " "@)
            &&& ends(steps[at], " "@ + md5)
            &&& is_dir ==> steps[at + 1] == "unzip "@ + base + ".zip"@
        }),
{
    law_uid_names_pipeline(base, is_dir, is_compressed, e);
    reveal_strlit(".gz");
    reveal_strlit(".");
    reveal_strlit("b32");
    reveal_strlit("b64");
    reveal_strlit("b16");
    reveal_strlit(" ");
    reveal_strlit("  应为 ");
    let data = if is_dir {
        base + ".zip"@
    } else {
        base
    };
    let packed = if is_compressed {
        data + ".gz"@
    } else {
        data
    };
    let uid = uid_of(base, is_dir, is_compressed, Some(e));
    assert(uid.take(uid.len() - 4) =~= packed);
    if is_compressed {
        assert(packed.take(packed.len() - 3) =~= data);
        assert("gunzip "@ + packed =~= "gunzip "@ + data + ".gz"@);
    }
    if is_dir {
        assert("unzip "@ + data =~= "unzip "@ + base + ".zip"@);
    }
    let check = "# md5sum "@ + data + "  应为 "@ + md5;
    let front = "# md5sum "@ + data + " "@;
    assert(check.take(front.len() as int) =~= front);
    let back = " "@ + md5;
    assert(check.skip(check.len() - back.len()) =~= back);
}

/// The number of characters that is announced is that of the text that the plan types.
pub proof fn law_count_is_of_the_text(p: Payload, s: Source, args: Args)
    requires
        p.is_from(s),
        p.parts is None,
    ensures
        plan_of(p, args) matches Ok(plan) && exists|i: int|
            0 <= i < plan.len() && (#[trigger] plan[i] matches StepView::Text(t, _) && t.len() == p.chars()),
        p.encoding is None ==> p.chars() == p.raw@.len(),
{
    if p.encoding is Some {
        let plan = auto_plan(p, args);
        assert(plan[1] == StepView::Text(p.encoded->0@, WRAP_EVERY as nat));
    } else {
        law_plain_transfer_is_planned(p, s, args);
        law_plain_data_is_typable(p, s);
        let plan = plan_of(p, args)->Ok_0;
        assert(plan[0] is Text);
    }
}

/// A script is delivered in the encoding that was asked for, and in Base32 where none was. The name of the
/// file that is typed tells which.
pub proof fn law_asked_encoding_delivers(target: Target, args: Args)
    ensures
        args.encode is Some ==> Some(delivery(args)) == args.encode,
        args.encode is None ==> delivery(args) == Encoding::Base32,
        deploy_plan(target, args).len() == 3,
        deploy_plan(target, args)[0] == StepView::Command(
            heredoc_header_of(
                args.shell,
                target.landing() + (match delivery(args) {
                    Encoding::Base32 => ".b32"@,
                    Encoding::Base64 => ".b64"@,
                    Encoding::Base16 => ".b16"@,
                }),
            ),
        ),
{
    reveal_strlit(".");
    reveal_strlit("b32");
    reveal_strlit("b64");
    reveal_strlit("b16");
    reveal_strlit(".b32");
    reveal_strlit(".b64");
    reveal_strlit(".b16");
    let file = target.landing() + "."@ + delivery(args).chosen().ending();
    assert(file =~= target.landing() + (match delivery(args) {
        Encoding::Base32 => ".b32"@,
        Encoding::Base64 => ".b64"@,
        Encoding::Base16 => ".b16"@,
    }));
}

} // verus!
