//! The screen: what to capture, how to go through the ways of recognising it, and whether the window in
//! front is still the one that was there at the start.

use vstd::prelude::*;
use vstd::slice::slice_subrange;
use vstd::utf8::encode_utf8;
use crate::ocr::{file_info_of, hex_chunk_of, parse_file_info, parse_hex_chunk};
use crate::text::{
    chars_of, dec, dec_int, dec_int_string, is_digit, is_space, law_numbers_are_read,
    law_trim_takes_the_ends, lemma_dec, lemma_position_is, lemma_split_at, lemma_stripped_same, lines,
    lines_of, parse_i32, parsed_i32, pieces, push_chars, said, same_str, split, split_at_char, starts,
    starts_with, string_of, texts, trim, trimmed, Strip,
};
use crate::utils::{md5_hex, md5_of_bytes};

verus! {

/// A rectangle of the screen: left, top, width, height, in points.
pub type Region = (i32, i32, i32, i32);

// ---------------------------------------------------------------------------------------------
// Recognition
// ---------------------------------------------------------------------------------------------

/// What recognises text.
#[derive(Debug, Clone, Copy, PartialEq, Eq, Structural)]
pub enum OcrEngine {
    /// Tesseract as a library.
    Tesseract,
    /// The `ocrs` models.
    Ocrs,
    /// The `tesseract` command.
    TesseractCli,
}

impl OcrEngine {
    /// What `name` gives.
    pub open spec fn label(self) -> Seq<char> {
        match self {
            OcrEngine::Tesseract => "tesseract"@,
            OcrEngine::Ocrs => "ocrs"@,
            OcrEngine::TesseractCli => "tesseract-cli"@,
        }
    }

    /// The name of the engine.
    pub fn name(&self) -> (r: &'static str)
        ensures
            r@ == self.label(),
    {
        match self {
            OcrEngine::Tesseract => "tesseract",
            OcrEngine::Ocrs => "ocrs",
            OcrEngine::TesseractCli => "tesseract-cli",
        }
    }
}

/// The engines, in the order in which they are started.
pub fn ocr_engines() -> (r: [OcrEngine; 3])
    ensures
        r@ == seq![OcrEngine::Tesseract, OcrEngine::Ocrs, OcrEngine::TesseractCli],
{
    [OcrEngine::Tesseract, OcrEngine::Ocrs, OcrEngine::TesseractCli]
}

/// The widths, in pixels, to which a capture is scaled in turn.
pub const OCR_WIDTHS: [u32; 3] = [1000, 900, 1100];

/// Milliseconds to wait before each round of looking; the last one repeats. What is waited for is the
/// remote terminal: the first wait is the longest, and the later ones get shorter.
pub const OCR_RETRY_WAITS_MS: [u64; 3] = [500, 200, 100];

/// The wait before a round, counted from one.
pub open spec fn wait_before(round: nat) -> u64 {
    if round >= 3 {
        OCR_RETRY_WAITS_MS@[2]
    } else {
        OCR_RETRY_WAITS_MS@[round - 1]
    }
}

/// Milliseconds to wait before a round of looking, counted from one.
pub fn retry_wait_ms(round: usize) -> (r: u64)
    requires
        round >= 1,
    ensures
        r == wait_before(round as nat),
{
    if round >= 3 {
        OCR_RETRY_WAITS_MS[2]
    } else {
        OCR_RETRY_WAITS_MS[round - 1]
    }
}

/// No wait is longer than the one before it.
pub proof fn law_waits_never_grow(r: nat)
    requires
        r >= 1,
    ensures
        wait_before(r) >= wait_before(r + 1),
{
}

/// The arguments of the `tesseract` command for a picture: one column of text of varying sizes, and no
/// characters but hexadecimal digits.
pub fn tesseract_args(picture: &str) -> (r: Vec<String>)
    ensures
        texts(r@) == seq![
            picture@,
            "stdout"@,
            "--psm"@,
            "4"@,
            "-c"@,
            "tessedit_char_whitelist=0123456789abcdef"@,
        ],
{
    let mut v: Vec<String> = Vec::new();
    v.push(picture.to_string());
    v.push("stdout".to_string());
    v.push("--psm".to_string());
    v.push("4".to_string());
    v.push("-c".to_string());
    v.push("tessedit_char_whitelist=0123456789abcdef".to_string());
    assert(texts(v@) =~= seq![
        picture@,
        "stdout"@,
        "--psm"@,
        "4"@,
        "-c"@,
        "tessedit_char_whitelist=0123456789abcdef"@,
    ]);
    v
}

/// The size to which a picture is scaled: the width that is aimed at, but at least 100, and the height
/// in proportion, but at least 1.
pub fn scaled_size(width: u32, height: u32, target_width: u32) -> (r: (u32, u32))
    ensures
        r.0 == (if target_width < 100 {
            100
        } else {
            target_width
        }),
        ({
            let w: int = if width == 0 {
                1
            } else {
                width as int
            };
            let h = (height * r.0 / w) as u32;
            r.1 == (if h == 0 {
                1
            } else {
                h
            })
        }),
{
    let new_w: u32 = if target_width < 100 {
        100
    } else {
        target_width
    };
    let w: u64 = if width == 0 {
        1
    } else {
        width as u64
    };
    assert(height * new_w <= 0xffff_ffff * 0xffff_ffff) by (nonlinear_arith)
        requires
            height <= 0xffff_ffff,
            new_w <= 0xffff_ffff,
    ;
    let h: u32 = ((height as u64) * (new_w as u64) / w) as u32;
    (
        new_w,
        if h == 0 {
            1
        } else {
            h
        },
    )
}

/// What is looked for on the screen.
#[derive(Debug, Clone, Copy, PartialEq, Eq, Structural)]
pub enum Wanted {
    /// The size and the digest of a file.
    FileInfo,
    /// A chunk with its digest.
    Chunk,
}

/// Whether a chunk stands on the screen whose digest is right.
pub open spec fn chunk_ok(lines: Seq<Seq<char>>) -> bool {
    match hex_chunk_of(lines) {
        Some((hex, md5)) => md5_hex(encode_utf8(hex)) == md5,
        None => false,
    }
}

impl Wanted {
    /// Whether lines hold what is looked for.
    pub open spec fn in_lines(self, lines: Seq<Seq<char>>) -> bool {
        match self {
            Wanted::FileInfo => file_info_of(lines) is Some,
            Wanted::Chunk => chunk_ok(lines),
        }
    }

    /// Whether lines hold what is looked for: a size and a digest that are sealed, or a chunk whose
    /// digest is right.
    pub fn passes(&self, lines: &[String]) -> (r: bool)
        ensures
            r == self.in_lines(texts(lines@)),
    {
        match self {
            Wanted::FileInfo => parse_file_info(lines).is_some(),
            Wanted::Chunk => match parse_hex_chunk(lines) {
                Some((hex, md5)) => {
                    let actual = md5_of_bytes(hex.as_str().as_bytes());
                    same_str(actual.as_str(), md5.as_str())
                },
                None => false,
            },
        }
    }
}

/// What happened while a capture was gone through.
pub enum ScanEvent {
    /// The capture is there.
    Captured,
    /// It could not be scaled to the width.
    Unusable,
    /// An engine recognised a text.
    Recognised(String),
    /// An engine failed.
    Failed,
    /// All engines are through with the width.
    Through,
}

/// What to do next.
pub enum ScanAction {
    /// Scale the capture to a width and start the engines on it.
    Scale(u32),
    /// Wait for the engines.
    Wait,
    /// What was looked for is on these lines.
    Found(Vec<String>),
    /// It is not on this capture.
    GiveUp,
}

/// Going through the ways of recognising a capture: each width in turn, with all engines.
pub struct Scan {
    wanted: Wanted,
    tried: usize,
}

impl Scan {
    /// What is looked for.
    pub closed spec fn target(self) -> Wanted {
        self.wanted
    }

    /// How many widths have been taken.
    pub closed spec fn taken(self) -> nat {
        self.tried as nat
    }

    /// Whether it is a state that can be reached.
    pub open spec fn wf(self) -> bool {
        self.taken() <= OCR_WIDTHS@.len()
    }

    /// The start.
    pub fn new(wanted: Wanted) -> (r: Scan)
        ensures
            r.wf(),
            r.target() == wanted,
            r.taken() == 0,
    {
        Scan { wanted, tried: 0 }
    }

    /// Takes note of what happened and says what to do. A text that holds what is looked for ends the
    /// search. The next width comes when a width is of no use, or when all engines are through with it.
    pub fn step(&mut self, event: ScanEvent) -> (r: ScanAction)
        requires
            old(self).wf(),
        ensures
            final(self).wf(),
            final(self).target() == old(self).target(),
            match event {
                ScanEvent::Recognised(t) => {
                    &&& final(self).taken() == old(self).taken()
                    &&& if old(self).target().in_lines(lines(t@)) {
                        r matches ScanAction::Found(v) && texts(v@) == lines(t@)
                    } else {
                        r is Wait
                    }
                },
                ScanEvent::Failed => final(self).taken() == old(self).taken() && r is Wait,
                _ => if old(self).taken() < OCR_WIDTHS@.len() {
                    &&& final(self).taken() == old(self).taken() + 1
                    &&& r == ScanAction::Scale(OCR_WIDTHS@[old(self).taken() as int])
                } else {
                    final(self).taken() == old(self).taken() && r is GiveUp
                },
            },
    {
        match event {
            ScanEvent::Recognised(t) => {
                let v = lines_of(t.as_str());
                if self.wanted.passes(v.as_slice()) {
                    ScanAction::Found(v)
                } else {
                    ScanAction::Wait
                }
            },
            ScanEvent::Failed => ScanAction::Wait,
            _ => if self.tried < OCR_WIDTHS.len() {
                let w = OCR_WIDTHS[self.tried];
                self.tried = self.tried + 1;
                ScanAction::Scale(w)
            } else {
                ScanAction::GiveUp
            },
        }
    }
}

// ---------------------------------------------------------------------------------------------
// Capture
// ---------------------------------------------------------------------------------------------

/// What is captured.
#[derive(Debug, PartialEq, Eq)]
pub enum Capture {
    /// A rectangle of the screen.
    Region(Region),
    /// The window with this number.
    Window(String),
    /// The whole screen.
    Screen,
}

/// The rectangle as text.
pub open spec fn region_text(g: Region) -> Seq<char> {
    dec_int(g.0 as int) + ","@ + dec_int(g.1 as int) + ","@ + dec_int(g.2 as int) + ","@ + dec_int(
        g.3 as int,
    )
}

impl Capture {
    /// What `args` gives.
    pub open spec fn options(self) -> Seq<Seq<char>> {
        match self {
            Capture::Region(g) => seq!["-x"@, "-R"@, region_text(g)],
            Capture::Window(id) => seq!["-x"@, "-o"@, "-l"@, id@],
            Capture::Screen => seq!["-x"@, "-t"@, "png"@],
        }
    }

    /// What to capture: the region where there is one, else the window in front where it is known, else
    /// the whole screen.
    pub fn choose_first(region: Option<Region>, window: Option<String>) -> (r: Capture)
        ensures
            r == (match region {
                Some(g) => Capture::Region(g),
                None => match window {
                    Some(id) => Capture::Window(id),
                    None => Capture::Screen,
                },
            }),
    {
        match region {
            Some(g) => Capture::Region(g),
            None => match window {
                Some(id) => Capture::Window(id),
                None => Capture::Screen,
            },
        }
    }

    /// What to capture where this could not be captured: the whole screen in place of a window. `None`
    /// says that there is nothing else to try.
    pub fn fallback(&self) -> (r: Option<Capture>)
        ensures
            r == (if self is Window {
                Some(Capture::Screen)
            } else {
                None
            }),
    {
        match self {
            Capture::Window(_) => Some(Capture::Screen),
            _ => None,
        }
    }

    /// The arguments of `screencapture`, before the file.
    pub fn args(&self) -> (r: Vec<String>)
        ensures
            texts(r@) == self.options(),
    {
        let mut v: Vec<String> = Vec::new();
        v.push("-x".to_string());
        match self {
            Capture::Region(g) => {
                let x = dec_int_string(g.0 as i64);
                let y = dec_int_string(g.1 as i64);
                let w = dec_int_string(g.2 as i64);
                let h = dec_int_string(g.3 as i64);
                let mut s = x;
                s.append(",");
                s.append(y.as_str());
                s.append(",");
                s.append(w.as_str());
                s.append(",");
                s.append(h.as_str());
                v.push("-R".to_string());
                v.push(s);
            },
            Capture::Window(id) => {
                v.push("-o".to_string());
                v.push("-l".to_string());
                v.push(id.as_str().to_string());
            },
            Capture::Screen => {
                v.push("-t".to_string());
                v.push("png".to_string());
            },
        }
        assert(texts(v@) =~= self.options());
        v
    }
}

/// What came of letting the user select a region.
pub enum Selection {
    /// It cannot be done on this platform.
    Unsupported,
    /// The helper failed with this message.
    Failed(String),
    /// The helper wrote this.
    Output(String),
}

/// The region that the output of the helper stands for.
pub open spec fn region_of(output: Seq<char>) -> Result<Region, Seq<char>> {
    let t = trimmed(output);
    let p = split(t, ',');
    if t.len() == 0 {
        Err("已取消区域选择"@)
    } else if p.len() != 4 {
        Err("区域选择输出格式错误："@ + t)
    } else {
        match (
            parsed_i32(trimmed(p[0])),
            parsed_i32(trimmed(p[1])),
            parsed_i32(trimmed(p[2])),
            parsed_i32(trimmed(p[3])),
        ) {
            (Some(x), Some(y), Some(w), Some(h)) => Ok((x, y, w, h)),
            _ => Err("区域选择坐标解析失败："@ + t),
        }
    }
}

/// The region that the user selected. It is an error if the platform cannot do it, if the helper failed,
/// if the user gave up, or if the output is not four numbers with commas between them.
pub fn select_region(outcome: Selection) -> (r: Result<Region, String>)
    ensures
        said(r) == (match outcome {
            Selection::Unsupported => Err("区域选择仅支持 macOS"@),
            Selection::Failed(m) => Err("区域选择失败："@ + m@),
            Selection::Output(s) => region_of(s@),
        }),
{
    match outcome {
        Selection::Unsupported => Err("区域选择仅支持 macOS".to_string()),
        Selection::Failed(m) => {
            let mut e = "区域选择失败：".to_string();
            e.append(m.as_str());
            Err(e)
        },
        Selection::Output(s) => {
            let v = chars_of(s.as_str());
            let t = trim(v.as_slice());
            if t.len() == 0 {
                return Err("已取消区域选择".to_string());
            }
            let p = split_at_char(t, ',');
            assert(pieces(p@).len() == p@.len());
            if p.len() != 4 {
                let mut e = "区域选择输出格式错误：".to_string();
                push_chars(&mut e, t);
                return Err(e);
            }
            assert(forall|k: int| 0 <= k < 4 ==> pieces(p@)[k] == (#[trigger] p@[k])@);
            let x = parse_i32(trim(p[0]));
            let y = parse_i32(trim(p[1]));
            let w = parse_i32(trim(p[2]));
            let h = parse_i32(trim(p[3]));
            match (x, y, w, h) {
                (Some(x), Some(y), Some(w), Some(h)) => Ok((x, y, w, h)),
                _ => {
                    let mut e = "区域选择坐标解析失败：".to_string();
                    push_chars(&mut e, t);
                    Err(e)
                },
            }
        },
    }
}

/// A text with a backslash before each backslash and each double quote.
pub open spec fn swift_escaped(s: Seq<char>) -> Seq<char>
    decreases s.len(),
{
    if s.len() == 0 {
        Seq::empty()
    } else {
        let c = s.last();
        let r = swift_escaped(s.drop_last());
        if c == '\\' || c == '"' {
            r.push('\\').push(c)
        } else {
            r.push(c)
        }
    }
}

/// Escapes a hint so that it can stand in a string of the helper's source.
pub fn escape_hint(hint: &str) -> (r: String)
    ensures
        r@ == swift_escaped(hint@),
{
    let v = chars_of(hint);
    let mut r = String::new();
    let mut i: usize = 0;
    while i < v.len()
        invariant
            i <= v@.len(),
            v@ == hint@,
            r@ == swift_escaped(v@.take(i as int)),
        decreases v.len() - i,
    {
        assert(v@.take(i + 1).drop_last() =~= v@.take(i as int));
        let c = v[i];
        if c == '\\' || c == '"' {
            r.push('\\');
        }
        r.push(c);
        i += 1;
    }
    assert(v@.take(i as int) =~= v@);
    r
}

// ---------------------------------------------------------------------------------------------
// Focus
// ---------------------------------------------------------------------------------------------

/// Whether the application in front is still the one that was there at the start.
pub struct FocusState {
    baseline: Option<String>,
    focused: bool,
}

/// The same over sequences: the application at the start, and whether it is in front.
pub struct FocusView {
    /// The application that was in front at the start, once it is known.
    pub baseline: Option<Seq<char>>,
    /// Whether it is in front.
    pub focused: bool,
}

/// What a line from the observer changes. `BASE:` names the application in front at the start, `ACT:` one
/// that came to the front. The first name that is known is the one to compare with.
pub open spec fn after_line(s: FocusView, line: Seq<char>) -> FocusView {
    let base = starts(line, "BASE:"@);
    let act = starts(line, "ACT:"@);
    let id = if base {
        line.skip(5)
    } else {
        line.skip(4)
    };
    let known = match s.baseline {
        Some(b) => b,
        None => id,
    };
    if base {
        FocusView { baseline: Some(known), focused: true }
    } else if act {
        FocusView { baseline: Some(known), focused: known == id }
    } else {
        s
    }
}

impl View for FocusState {
    type V = FocusView;

    closed spec fn view(&self) -> FocusView {
        FocusView {
            baseline: match self.baseline {
                Some(b) => Some(b@),
                None => None,
            },
            focused: self.focused,
        }
    }
}

impl FocusState {
    /// The start, with the name of the application in front as it was first read: with white space
    /// around it, or empty where it could not be read.
    pub fn new(front: &str) -> (r: FocusState)
        ensures
            r@ == (FocusView {
                baseline: if trimmed(front@).len() == 0 {
                    None
                } else {
                    Some(trimmed(front@))
                },
                focused: true,
            }),
    {
        let v = chars_of(front);
        let t = trim(v.as_slice());
        let baseline: Option<String> = if t.len() == 0 {
            None
        } else {
            Some(string_of(t))
        };
        FocusState { baseline, focused: true }
    }

    /// Takes note of a line from the observer.
    pub fn line(&mut self, line: &str)
        ensures
            final(self)@ == after_line(old(self)@, line@),
    {
        let v = chars_of(line);
        let base_mark = chars_of("BASE:");
        let act_mark = chars_of("ACT:");
        proof {
            reveal_strlit("BASE:");
            reveal_strlit("ACT:");
        }
        let base = starts_with(v.as_slice(), base_mark.as_slice());
        let act = starts_with(v.as_slice(), act_mark.as_slice());
        if !base && !act {
            return;
        }
        let from: usize = if base {
            5
        } else {
            4
        };
        let rest = slice_subrange(v.as_slice(), from, v.len());
        assert(rest@ =~= line@.skip(from as int));
        let id = string_of(rest);
        let same = match &self.baseline {
            Some(b) => same_str(b.as_str(), id.as_str()),
            None => true,
        };
        if self.baseline.is_none() {
            self.baseline = Some(id);
        }
        self.focused = base || same;
    }

    /// Whether the application in front is still the one that was there at the start.
    pub fn is_focused(&self) -> (r: bool)
        ensures
            r == self@.focused,
    {
        self.focused
    }
}

/// Once the application at the start is known it stays the same, and it alone counts: whatever comes to
/// the front, the focus is there exactly if it is that application.
pub proof fn law_focus_follows_front(s: FocusView, id: Seq<char>)
    requires
        s.baseline is Some,
    ensures
        after_line(s, "ACT:"@ + id) == (FocusView {
            baseline: s.baseline,
            focused: s.baseline == Some(id),
        }),
{
    reveal_strlit("ACT:");
    reveal_strlit("BASE:");
    let line = "ACT:"@ + id;
    assert(line[0] == 'A');
    assert(line.take(4) =~= "ACT:"@);
    assert(!starts(line, "BASE:"@)) by {
        if starts(line, "BASE:"@) {
            assert(line.take(5)[0] == 'B');
        }
    }
    assert(line.skip(4) =~= id);
}

/// Before its start is known, the first application that is named is taken for it. An application that
/// is said to have been there at the start is in front, and a line that names none changes nothing.
pub proof fn law_first_name_counts(s: FocusView, id: Seq<char>, line: Seq<char>)
    ensures
        s.baseline is None ==> after_line(s, "ACT:"@ + id) == (FocusView {
            baseline: Some(id),
            focused: true,
        }),
        s.baseline is None ==> after_line(s, "BASE:"@ + id) == (FocusView {
            baseline: Some(id),
            focused: true,
        }),
        s.baseline is Some ==> after_line(s, "BASE:"@ + id) == (FocusView {
            baseline: s.baseline,
            focused: true,
        }),
        (forall|i: int| 0 <= i < line.len() ==> line[i] != ':') ==> after_line(s, line) == s,
{
    reveal_strlit("ACT:");
    reveal_strlit("BASE:");
    let a = "ACT:"@ + id;
    assert(a[0] == 'A');
    assert(a.take(4) =~= "ACT:"@);
    assert(!starts(a, "BASE:"@)) by {
        if starts(a, "BASE:"@) {
            assert(a.take(5)[0] == 'B');
        }
    }
    assert(a.skip(4) =~= id);
    let b = "BASE:"@ + id;
    assert(b.take(5) =~= "BASE:"@);
    assert(b.skip(5) =~= id);
    if forall|i: int| 0 <= i < line.len() ==> line[i] != ':' {
        if starts(line, "BASE:"@) {
            assert(line.take(5)[4] == ':');
        }
        if starts(line, "ACT:"@) {
            assert(line.take(4)[3] == ':');
        }
    }
}

proof fn lemma_coordinate(n: i32)
    ensures
        trimmed(dec_int(n as int)) == dec_int(n as int),
        parsed_i32(dec_int(n as int)) == Some(n),
        !dec_int(n as int).contains(','),
        dec_int(n as int).len() > 0,
        !is_space(dec_int(n as int)[0]),
        !is_space(dec_int(n as int).last()),
{
    let m: nat = if n < 0 {
        (0 - n) as nat
    } else {
        n as nat
    };
    lemma_dec(m);
    law_numbers_are_read(m);
    let d = dec_int(n as int);
    assert(is_digit(dec(m)[0]) && is_digit(dec(m).last()));
    assert(d.last() == dec(m).last());
    lemma_stripped_same(d, Strip::Space);
    assert forall|i: int| 0 <= i < d.len() implies d[i] != ',' by {
        if n < 0 {
            if i > 0 {
                assert(is_digit(dec(m)[i - 1]));
            }
        } else {
            assert(is_digit(dec(m)[i]));
        }
    }
}

/// A region that was written is read back, with white space round it or not: left, top, width and height
/// in the order in which they are written.
pub proof fn law_region_is_read_back(g: Region, l: Seq<char>, r: Seq<char>)
    requires
        forall|i: int| 0 <= i < l.len() ==> is_space(#[trigger] l[i]),
        forall|i: int| 0 <= i < r.len() ==> is_space(#[trigger] r[i]),
    ensures
        region_of(l + region_text(g) + r) == Ok::<Region, Seq<char>>(g),
{
    reveal_strlit(",");
    lemma_coordinate(g.0);
    lemma_coordinate(g.1);
    lemma_coordinate(g.2);
    lemma_coordinate(g.3);
    let a = dec_int(g.0 as int);
    let b = dec_int(g.1 as int);
    let c = dec_int(g.2 as int);
    let d = dec_int(g.3 as int);
    let t = region_text(g);
    assert(t[0] == a[0] && t.last() == d.last());
    law_trim_takes_the_ends(l, t, r, Strip::Space);
    assert(trimmed(l + t + r) == t);
    let abc = a + ","@ + b + ","@ + c;
    let ab = a + ","@ + b;
    assert(","@ =~= seq![',']);
    lemma_split_at(abc, d, ',');
    lemma_split_at(ab, c, ',');
    lemma_split_at(a, b, ',');
    lemma_one_piece(a);
    lemma_one_piece(b);
    lemma_one_piece(c);
    lemma_one_piece(d);
    assert(split(t, ',') =~= seq![a, b, c, d]);
}

proof fn lemma_one_piece(s: Seq<char>)
    requires
        !s.contains(','),
    ensures
        split(s, ',') == seq![s],
{
    assert forall|i: int| 0 <= i < s.len() implies s[i] != ',' by {
        assert(s.contains(s[i]));
    }
    lemma_position_is(s, ',', s.len() as int);
}

/// What stands in a string of the helper's source, up to its end: a backslash stands for the character
/// behind it, and a double quote by itself would end the string, so that there is none.
pub open spec fn in_string(s: Seq<char>) -> Option<Seq<char>>
    decreases s.len(),
{
    if s.len() == 0 {
        Some(Seq::empty())
    } else if s[0] == '"' || (s[0] == '\\' && s.len() == 1) {
        None
    } else {
        let n: int = if s[0] == '\\' {
            2
        } else {
            1
        };
        match in_string(s.skip(n)) {
            Some(t) => Some(seq![s[n - 1]] + t),
            None => None,
        }
    }
}

proof fn lemma_escaped_first(s: Seq<char>)
    requires
        s.len() > 0,
    ensures
        swift_escaped(s) == (if s[0] == '\\' || s[0] == '"' {
            seq!['\\', s[0]]
        } else {
            seq![s[0]]
        }) + swift_escaped(s.skip(1)),
    decreases s.len(),
{
    if s.len() == 1 {
        assert(s.skip(1) =~= Seq::empty());
        assert(s.drop_last() =~= Seq::empty());
        assert(swift_escaped(Seq::empty()) =~= Seq::empty());
    } else {
        lemma_escaped_first(s.drop_last());
        assert(s.drop_last().skip(1) =~= s.skip(1).drop_last());
        assert(s.skip(1).last() == s.last());
    }
    assert(swift_escaped(s) =~= (if s[0] == '\\' || s[0] == '"' {
        seq!['\\', s[0]]
    } else {
        seq![s[0]]
    }) + swift_escaped(s.skip(1)));
}

/// An escaped hint stands for the hint.
pub proof fn law_hint_is_read_back(s: Seq<char>)
    ensures
        in_string(swift_escaped(s)) == Some(s),
    decreases s.len(),
{
    if s.len() == 0 {
        assert(s =~= Seq::empty());
    } else {
        lemma_escaped_first(s);
        law_hint_is_read_back(s.skip(1));
        let e = swift_escaped(s);
        if s[0] == '\\' || s[0] == '"' {
            assert(e.skip(2) =~= swift_escaped(s.skip(1)));
        } else {
            assert(e.skip(1) =~= swift_escaped(s.skip(1)));
        }
        assert(seq![s[0]] + s.skip(1) =~= s);
    }
}

/// A chunk that passes has the digest that stands below it.
pub proof fn law_chunk_is_checked(lines: Seq<Seq<char>>)
    ensures
        Wanted::Chunk.in_lines(lines) <==> exists|hex: Seq<char>|
            hex_chunk_of(lines) == Some((hex, #[trigger] md5_hex(encode_utf8(hex)))),
{
    if Wanted::Chunk.in_lines(lines) {
        let hex = (hex_chunk_of(lines)->0).0;
        assert(hex_chunk_of(lines) == Some((hex, md5_hex(encode_utf8(hex)))));
    }
}

} // verus!
