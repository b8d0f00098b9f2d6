//! The course of a transfer to a page: a frame is sent until the page says that it is right, and stands
//! still while the page is not in front.

use vstd::prelude::*;
use crate::qr::{Feedback, FeedbackView, Status};
use crate::radix::{encoded, in_alphabet, lemma_encoded_chars, Alphabet};
use crate::text::{
    chars_of, dec, dec_int, dec_int_string, is_digit, lemma_dec, push_dec, same_str,
};
use crate::utils::{digest_shaped, is_lower_hex, md5_hex};
use crate::web::frame_text;

verus! {

/// Milliseconds between two looks at the code.
pub const QR_POLL_INTERVAL_MS: u64 = 500;

/// Milliseconds between two looks at the code while a frame is being typed.
pub const QR_MIDCHECK_INTERVAL_MS: u64 = 700;

/// Milliseconds to wait for the answer to a frame.
pub const ACK_TIMEOUT_MS: u64 = 30_000;

/// Milliseconds to wait for the page at the start, without a word from it.
pub const READY_TIMEOUT_MS: u64 = 180_000;

/// Milliseconds to wait for the page to come to the front again.
pub const PAUSE_TIMEOUT_MS: u64 = 600_000;

/// Milliseconds between two hints that the page needs a directory.
pub const UNAUTH_HINT_MS: u64 = 5_000;

/// The view of feedback that may not be there.
pub open spec fn heard(fb: Option<&Feedback>) -> Option<FeedbackView> {
    match fb {
        Some(f) => Some(f@),
        None => None,
    }
}

/// The message for an error of the page.
pub open spec fn page_error(err: Seq<char>) -> Seq<char> {
    "接收端错误："@ + err
}

/// The message for a page that may not write any more.
pub open spec fn lost_grant() -> Seq<char> {
    "接收端未授权保存目录（页面可能已刷新），请重新授权后开始传输"@
}

fn page_error_text(err: &str) -> (r: String)
    ensures
        r@ == page_error(err@),
{
    let mut r = "接收端错误：".to_string();
    r.append(err);
    r
}

fn lost_grant_text() -> (r: String)
    ensures
        r@ == lost_grant(),
{
    "接收端未授权保存目录（页面可能已刷新），请重新授权后开始传输".to_string()
}

// ---------------------------------------------------------------------------------------------
// The keys of a frame
// ---------------------------------------------------------------------------------------------

/// A key with a meaning of its own for the page.
#[derive(Debug, Clone, Copy, PartialEq, Eq, Structural)]
pub enum FrameKey {
    /// Ctrl+A: the page drops what is left of a frame.
    Reset,
    /// Ctrl+B: a frame begins.
    Start,
    /// Ctrl+C: a frame ends.
    End,
    /// A character.
    Char(char),
}

/// The keys before and after the text of a frame: the page is cleared, and the frame begins and ends with
/// control keys, or with braces where those are wanted.
pub fn frame_keys(printable: bool) -> (r: ([FrameKey; 2], FrameKey))
    ensures
        printable ==> (r.0)@ == seq![FrameKey::Reset, FrameKey::Char('{')] && r.1 == FrameKey::Char('}'),
        !printable ==> (r.0)@ == seq![FrameKey::Reset, FrameKey::Start] && r.1 == FrameKey::End,
{
    if printable {
        ([FrameKey::Reset, FrameKey::Char('{')], FrameKey::Char('}'))
    } else {
        ([FrameKey::Reset, FrameKey::Start], FrameKey::End)
    }
}

/// A frame between braces ends where it is meant to end: its text has no brace in it. `md5_hex` is a
/// digest.
pub proof fn law_frame_has_no_brace(
    seq: nat,
    total: nat,
    size: nat,
    compressed: bool,
    payload: Seq<u8>,
    name: Seq<char>,
    i: int,
)
    requires
        digest_shaped(md5_hex(payload)),
        0 <= i < frame_text(seq, total, size, compressed, payload, name).len(),
    ensures
        frame_text(seq, total, size, compressed, payload, name)[i] != '{',
        frame_text(seq, total, size, compressed, payload, name)[i] != '}',
{
    let data = vstd::utf8::encode_utf8(name);
    reveal_strlit("|");
    reveal_strlit("1");
    reveal_strlit("0");
    lemma_dec(seq);
    lemma_dec(total);
    lemma_dec(size);
    lemma_encoded_chars(Alphabet::Base64, payload);
    lemma_encoded_chars(Alphabet::Base64, data);
    let z = if compressed {
        "1"@
    } else {
        "0"@
    };
    let m = md5_hex(payload);
    let b = encoded(Alphabet::Base64, payload);
    let nb = encoded(Alphabet::Base64, data);
    lemma_no_brace_digits(dec(seq));
    lemma_no_brace_digits(dec(total));
    lemma_no_brace_digits(dec(size));
    assert(no_brace("|"@));
    assert(no_brace(z));
    assert(no_brace(m)) by {
        assert forall|k: int| 0 <= k < m.len() implies #[trigger] m[k] != '{' && m[k] != '}' by {
            assert(is_lower_hex(m[k]));
        }
    }
    assert(no_brace(b)) by {
        assert forall|k: int| 0 <= k < b.len() implies #[trigger] b[k] != '{' && b[k] != '}' by {
            assert(in_alphabet(Alphabet::Base64, b[k]));
        }
    }
    assert(no_brace(nb)) by {
        assert forall|k: int| 0 <= k < nb.len() implies #[trigger] nb[k] != '{' && nb[k] != '}' by {
            assert(in_alphabet(Alphabet::Base64, nb[k]));
        }
    }
    let t1 = dec(seq) + "|"@;
    let t2 = t1 + dec(total);
    let t3 = t2 + "|"@;
    let t4 = t3 + dec(size);
    let t5 = t4 + "|"@;
    let t6 = t5 + z;
    let t7 = t6 + "|"@;
    let t8 = t7 + m;
    let t9 = t8 + "|"@;
    let t10 = t9 + b;
    lemma_no_brace_add(dec(seq), "|"@);
    lemma_no_brace_add(t1, dec(total));
    lemma_no_brace_add(t2, "|"@);
    lemma_no_brace_add(t3, dec(size));
    lemma_no_brace_add(t4, "|"@);
    lemma_no_brace_add(t5, z);
    lemma_no_brace_add(t6, "|"@);
    lemma_no_brace_add(t7, m);
    lemma_no_brace_add(t8, "|"@);
    lemma_no_brace_add(t9, b);
    lemma_no_brace_add(t10, "|"@);
    lemma_no_brace_add(t10 + "|"@, nb);
}

spec fn no_brace(s: Seq<char>) -> bool {
    forall|k: int| 0 <= k < s.len() ==> #[trigger] s[k] != '{' && s[k] != '}'
}

proof fn lemma_no_brace_add(a: Seq<char>, b: Seq<char>)
    requires
        no_brace(a),
        no_brace(b),
    ensures
        no_brace(a + b),
{
    assert forall|k: int| 0 <= k < (a + b).len() implies #[trigger] (a + b)[k] != '{' && (a + b)[k] != '}' by {
        if k < a.len() {
            assert((a + b)[k] == a[k]);
        } else {
            assert((a + b)[k] == b[k - a.len()]);
        }
    }
}

proof fn lemma_no_brace_digits(s: Seq<char>)
    requires
        crate::text::all_digits(s),
    ensures
        no_brace(s),
{
    assert forall|k: int| 0 <= k < s.len() implies #[trigger] s[k] != '{' && s[k] != '}' by {
        assert(is_digit(s[k]));
    }
}

// ---------------------------------------------------------------------------------------------
// Waiting
// ---------------------------------------------------------------------------------------------

/// What to do while waiting for the page at the start.
pub enum ReadyStep {
    /// The page is ready.
    Go,
    /// Remind the user that the page needs a directory, and wait on.
    Hint,
    /// Wait on.
    Wait,
    /// Give up.
    Fail(String),
}

/// The same over sequences.
pub enum ReadyView {
    /// The page is ready.
    Go,
    /// Remind the user that the page needs a directory, and wait on.
    Hint,
    /// Wait on.
    Wait,
    /// Give up.
    Fail(Seq<char>),
}

impl View for ReadyStep {
    type V = ReadyView;

    open spec fn view(&self) -> ReadyView {
        match self {
            ReadyStep::Go => ReadyView::Go,
            ReadyStep::Hint => ReadyView::Hint,
            ReadyStep::Wait => ReadyView::Wait,
            ReadyStep::Fail(m) => ReadyView::Fail(m@),
        }
    }
}

/// What `ready_step` gives.
pub open spec fn ready_of(
    stopped: bool,
    fb: Option<FeedbackView>,
    silent_ms: u64,
    hint_ms: u64,
) -> ReadyView {
    if stopped {
        ReadyView::Fail("已停止"@)
    } else {
        match fb {
            Some(f) => match f.status {
                Status::Ready => ReadyView::Go,
                Status::Error => ReadyView::Fail(page_error(f.err)),
                Status::Unauth => if hint_ms >= UNAUTH_HINT_MS {
                    ReadyView::Hint
                } else {
                    ReadyView::Wait
                },
                _ => ReadyView::Wait,
            },
            None => if silent_ms >= READY_TIMEOUT_MS {
                ReadyView::Fail(
                    "等待接收端 READY 超时（请确认 receiver.html 已打开、二维码区域框选正确）"@,
                )
            } else {
                ReadyView::Wait
            },
        }
    }
}

/// One look at the code while waiting for the page at the start: what it says, how long it has been since
/// it last said anything, and how long since the last hint. Waiting ends in an error only if the page has
/// been silent for too long; a page that says that it needs a directory can take any time.
pub fn ready_step(stopped: bool, fb: Option<&Feedback>, silent_ms: u64, hint_ms: u64) -> (r: ReadyStep)
    ensures
        r@ == ready_of(stopped, heard(fb), silent_ms, hint_ms),
{
    if stopped {
        return ReadyStep::Fail("已停止".to_string());
    }
    match fb {
        Some(f) => match f.status {
            Status::Ready => ReadyStep::Go,
            Status::Error => ReadyStep::Fail(page_error_text(f.err.as_str())),
            Status::Unauth => if hint_ms >= UNAUTH_HINT_MS {
                ReadyStep::Hint
            } else {
                ReadyStep::Wait
            },
            _ => ReadyStep::Wait,
        },
        None => if silent_ms >= READY_TIMEOUT_MS {
            ReadyStep::Fail(
                "等待接收端 READY 超时（请确认 receiver.html 已打开、二维码区域框选正确）".to_string(),
            )
        } else {
            ReadyStep::Wait
        },
    }
}

/// What to do while waiting for the page to come to the front.
pub enum PauseStep {
    /// It is there again.
    Resumed,
    /// Another application is in front: wait, without looking at the code.
    Away,
    /// Wait on.
    Wait,
    /// Give up.
    Fail(String),
}

/// The same over sequences.
pub enum PauseView {
    /// It is there again.
    Resumed,
    /// Another application is in front: wait, without looking at the code.
    Away,
    /// Wait on.
    Wait,
    /// Give up.
    Fail(Seq<char>),
}

impl View for PauseStep {
    type V = PauseView;

    open spec fn view(&self) -> PauseView {
        match self {
            PauseStep::Resumed => PauseView::Resumed,
            PauseStep::Away => PauseView::Away,
            PauseStep::Wait => PauseView::Wait,
            PauseStep::Fail(m) => PauseView::Fail(m@),
        }
    }
}

/// What `pause_step` gives.
pub open spec fn pause_of(
    stopped: bool,
    focused: bool,
    fb: Option<FeedbackView>,
    elapsed_ms: u64,
) -> PauseView {
    let on = if elapsed_ms >= PAUSE_TIMEOUT_MS {
        PauseView::Fail("等待页面重新聚焦超时"@)
    } else {
        PauseView::Wait
    };
    if stopped {
        PauseView::Fail("已停止"@)
    } else if !focused {
        PauseView::Away
    } else {
        match fb {
            Some(f) => match f.status {
                Status::Ready | Status::Okay | Status::Finish => PauseView::Resumed,
                Status::Error => PauseView::Fail(page_error(f.err)),
                Status::Unauth => PauseView::Fail(lost_grant()),
                Status::Pause | Status::Retry => on,
            },
            None => on,
        }
    }
}

/// One look while waiting for the page to come to the front: whether the application in front is the right
/// one, what the code says, and how long it has been waited. Both the application and the page have to be
/// back.
pub fn pause_step(stopped: bool, focused: bool, fb: Option<&Feedback>, elapsed_ms: u64) -> (r: PauseStep)
    ensures
        r@ == pause_of(stopped, focused, heard(fb), elapsed_ms),
{
    if stopped {
        return PauseStep::Fail("已停止".to_string());
    }
    if !focused {
        return PauseStep::Away;
    }
    if let Some(f) = fb {
        match f.status {
            Status::Ready | Status::Okay | Status::Finish => {
                return PauseStep::Resumed;
            },
            Status::Error => {
                return PauseStep::Fail(page_error_text(f.err.as_str()));
            },
            Status::Unauth => {
                return PauseStep::Fail(lost_grant_text());
            },
            Status::Pause | Status::Retry => {},
        }
    }
    if elapsed_ms >= PAUSE_TIMEOUT_MS {
        PauseStep::Fail("等待页面重新聚焦超时".to_string())
    } else {
        PauseStep::Wait
    }
}

/// What to do before the next character of a frame.
pub enum MidStep {
    /// Type it.
    Go,
    /// Leave the frame: it will be sent again.
    Abort,
    /// Give up.
    Fail(String),
}

/// The same over sequences.
pub enum MidView {
    /// Type it.
    Go,
    /// Leave the frame: it will be sent again.
    Abort,
    /// Give up.
    Fail(Seq<char>),
}

impl View for MidStep {
    type V = MidView;

    open spec fn view(&self) -> MidView {
        match self {
            MidStep::Go => MidView::Go,
            MidStep::Abort => MidView::Abort,
            MidStep::Fail(m) => MidView::Fail(m@),
        }
    }
}

/// What `mid_step` gives.
pub open spec fn mid_of(stopped: bool, focused: bool, fb: Option<FeedbackView>) -> MidView {
    if stopped || !focused {
        MidView::Abort
    } else {
        match fb {
            Some(f) => match f.status {
                Status::Pause => MidView::Abort,
                Status::Error => MidView::Fail(page_error(f.err)),
                Status::Unauth => MidView::Fail(lost_grant()),
                _ => MidView::Go,
            },
            None => MidView::Go,
        }
    }
}

/// Whether to type the next character of a frame: not where the user wants to stop or another application
/// is in front, and not where the code, if it was due to be looked at, says that the page is not in front
/// or cannot go on.
pub fn mid_step(stopped: bool, focused: bool, fb: Option<&Feedback>) -> (r: MidStep)
    ensures
        r@ == mid_of(stopped, focused, heard(fb)),
{
    if stopped || !focused {
        return MidStep::Abort;
    }
    match fb {
        Some(f) => match f.status {
            Status::Pause => MidStep::Abort,
            Status::Error => MidStep::Fail(page_error_text(f.err.as_str())),
            Status::Unauth => MidStep::Fail(lost_grant_text()),
            _ => MidStep::Go,
        },
        None => MidStep::Go,
    }
}

// ---------------------------------------------------------------------------------------------
// Typing a frame
// ---------------------------------------------------------------------------------------------

/// How far the typing of a frame is.
#[derive(Debug, Clone, Copy, PartialEq, Eq, Structural)]
pub enum TypePhase {
    /// What is left of a frame has to be cleared.
    Clear,
    /// The frame has to begin.
    Begin,
    /// The text is being typed.
    Text,
    /// The code is being looked at, in the middle of the text.
    Looking,
    /// The frame has ended.
    Ended,
    /// There is nothing more to do.
    Over,
}

/// The typing of a frame over sequences.
pub struct TypingView {
    /// Whether the frame stands between braces.
    pub printable: bool,
    /// The text of the frame.
    pub text: Seq<char>,
    /// How far it is.
    pub phase: TypePhase,
    /// How many characters of the text have been typed.
    pub typed: nat,
}

/// The typing of a frame.
pub struct Typing {
    printable: bool,
    text: Vec<char>,
    phase: TypePhase,
    typed: usize,
}

impl View for Typing {
    type V = TypingView;

    closed spec fn view(&self) -> TypingView {
        TypingView {
            printable: self.printable,
            text: self.text@,
            phase: self.phase,
            typed: self.typed as nat,
        }
    }
}

/// What happened.
pub enum TypeEvent {
    /// The last thing to do has been done. Whether the right application is in front, and how many
    /// milliseconds ago the code was last looked at, or the typing started.
    Ready { focused: bool, since_look_ms: u64 },
    /// The code was looked at, and this is what it says, if it is there.
    Looked(Option<Feedback>),
}

/// The same over sequences.
pub enum TypeEventView {
    /// The last thing to do has been done.
    Ready(bool, u64),
    /// The code was looked at, and this is what it says, if it is there.
    Looked(Option<FeedbackView>),
}

impl View for TypeEvent {
    type V = TypeEventView;

    open spec fn view(&self) -> TypeEventView {
        match self {
            TypeEvent::Ready { focused, since_look_ms } => TypeEventView::Ready(*focused, *since_look_ms),
            TypeEvent::Looked(Some(f)) => TypeEventView::Looked(Some(f@)),
            TypeEvent::Looked(None) => TypeEventView::Looked(None),
        }
    }
}

impl TypeEventView {
    /// Whether the event is one that can come at this point.
    pub open spec fn answers(self, phase: TypePhase) -> bool {
        match phase {
            TypePhase::Looking => self is Looked,
            TypePhase::Over => false,
            _ => self is Ready,
        }
    }
}

/// What to do next.
pub enum TypeAction {
    /// Press a key with a meaning of its own for the page.
    Key(FrameKey),
    /// Type a character of the text.
    Char(char),
    /// Look at the code.
    Look,
    /// The frame has been typed to its end.
    Done,
    /// Leave the frame as it is: it will be sent again.
    Abandon,
    /// Give up.
    Fail(String),
}

/// The same over sequences.
pub enum TypeDo {
    /// Press a key with a meaning of its own for the page.
    Key(FrameKey),
    /// Type a character of the text.
    Char(char),
    /// Look at the code.
    Look,
    /// The frame has been typed to its end.
    Done,
    /// Leave the frame as it is: it will be sent again.
    Abandon,
    /// Give up.
    Fail(Seq<char>),
}

impl View for TypeAction {
    type V = TypeDo;

    open spec fn view(&self) -> TypeDo {
        match self {
            TypeAction::Key(k) => TypeDo::Key(*k),
            TypeAction::Char(c) => TypeDo::Char(*c),
            TypeAction::Look => TypeDo::Look,
            TypeAction::Done => TypeDo::Done,
            TypeAction::Abandon => TypeDo::Abandon,
            TypeAction::Fail(m) => TypeDo::Fail(m@),
        }
    }
}

/// The key that begins a frame.
pub open spec fn begin_key(printable: bool) -> FrameKey {
    if printable {
        FrameKey::Char('{')
    } else {
        FrameKey::Start
    }
}

/// The key that ends a frame.
pub open spec fn end_key(printable: bool) -> FrameKey {
    if printable {
        FrameKey::Char('}')
    } else {
        FrameKey::End
    }
}

/// Going on with the next character, or not.
pub open spec fn next_char(s: TypingView, mid: MidView) -> (TypingView, TypeDo) {
    match mid {
        MidView::Go => (
            TypingView { phase: TypePhase::Text, typed: s.typed + 1, ..s },
            TypeDo::Char(s.text[s.typed as int]),
        ),
        MidView::Abort => (TypingView { phase: TypePhase::Over, ..s }, TypeDo::Abandon),
        MidView::Fail(m) => (TypingView { phase: TypePhase::Over, ..s }, TypeDo::Fail(m)),
    }
}

/// The typing of a frame: the page is cleared, the frame begins, its text follows, and it ends. Before
/// each character it is left if the user wants to stop or another application is in front, and the code is
/// looked at if that is due.
pub open spec fn type_next(s: TypingView, e: TypeEventView, stopped: bool) -> (TypingView, TypeDo) {
    match s.phase {
        TypePhase::Clear => (
            TypingView { phase: TypePhase::Begin, ..s },
            TypeDo::Key(FrameKey::Reset),
        ),
        TypePhase::Begin => (
            TypingView { phase: TypePhase::Text, ..s },
            TypeDo::Key(begin_key(s.printable)),
        ),
        TypePhase::Text => if s.typed >= s.text.len() {
            (TypingView { phase: TypePhase::Ended, ..s }, TypeDo::Key(end_key(s.printable)))
        } else {
            match e {
                TypeEventView::Ready(focused, since_look_ms) => if mid_of(stopped, focused, None) is Go
                    && since_look_ms >= QR_MIDCHECK_INTERVAL_MS {
                    (TypingView { phase: TypePhase::Looking, ..s }, TypeDo::Look)
                } else {
                    next_char(s, mid_of(stopped, focused, None))
                },
                TypeEventView::Looked(fb) => next_char(s, mid_of(stopped, true, fb)),
            }
        },
        TypePhase::Looking => match e {
            TypeEventView::Looked(fb) => next_char(s, mid_of(false, true, fb)),
            _ => (s, TypeDo::Look),
        },
        _ => (TypingView { phase: TypePhase::Over, ..s }, TypeDo::Done),
    }
}

/// The start of the typing of a frame.
pub open spec fn type_start(text: Seq<char>, printable: bool) -> TypingView {
    TypingView { printable, text, phase: TypePhase::Clear, typed: 0 }
}

impl TypingView {
    /// Whether it is a state that can be reached.
    pub open spec fn wf(self) -> bool {
        &&& self.typed <= self.text.len()
        &&& self.phase == TypePhase::Looking ==> self.typed < self.text.len()
    }
}

impl Typing {
    /// The start of the typing of a frame.
    pub fn start(text: &str, printable: bool) -> (r: Typing)
        ensures
            r@.wf(),
            r@ == type_start(text@, printable),
    {
        Typing { printable, text: chars_of(text), phase: TypePhase::Clear, typed: 0 }
    }

    fn go_on(&mut self, mid: MidStep) -> (r: TypeAction)
        requires
            old(self)@.wf(),
            old(self)@.typed < old(self)@.text.len(),
        ensures
            final(self)@.wf(),
            (final(self)@, r@) == next_char(old(self)@, mid@),
    {
        match mid {
            MidStep::Go => {
                let n = self.text.len();
                let c = self.text[self.typed];
                assert(self.typed < n);
                self.phase = TypePhase::Text;
                self.typed = self.typed + 1;
                TypeAction::Char(c)
            },
            MidStep::Abort => {
                self.phase = TypePhase::Over;
                TypeAction::Abandon
            },
            MidStep::Fail(m) => {
                self.phase = TypePhase::Over;
                TypeAction::Fail(m)
            },
        }
    }

    /// Takes note of what happened and says what to do. `stopped` says whether the user wants to stop. The
    /// event has to answer what was asked for.
    pub fn step(&mut self, event: TypeEvent, stopped: bool) -> (r: TypeAction)
        requires
            old(self)@.wf(),
            event@.answers(old(self)@.phase),
        ensures
            final(self)@.wf(),
            (final(self)@, r@) == type_next(old(self)@, event@, stopped),
    {
        let (before, after) = frame_keys(self.printable);
        match self.phase {
            TypePhase::Clear => {
                self.phase = TypePhase::Begin;
                TypeAction::Key(before[0])
            },
            TypePhase::Begin => {
                self.phase = TypePhase::Text;
                TypeAction::Key(before[1])
            },
            TypePhase::Text => {
                if self.typed >= self.text.len() {
                    self.phase = TypePhase::Ended;
                    return TypeAction::Key(after);
                }
                match event {
                    TypeEvent::Ready { focused, since_look_ms } => {
                        let mid = mid_step(stopped, focused, None);
                        if let MidStep::Go = mid {
                            if since_look_ms >= QR_MIDCHECK_INTERVAL_MS {
                                self.phase = TypePhase::Looking;
                                return TypeAction::Look;
                            }
                        }
                        self.go_on(mid)
                    },
                    TypeEvent::Looked(fb) => self.go_on(mid_step(stopped, true, fb.as_ref())),
                }
            },
            TypePhase::Looking => match event {
                TypeEvent::Looked(fb) => self.go_on(mid_step(false, true, fb.as_ref())),
                _ => TypeAction::Look,
            },
            _ => {
                self.phase = TypePhase::Over;
                TypeAction::Done
            },
        }
    }
}

/// What the page has got: its own keys, each with the number of characters that came before it, and the
/// characters of the text.
pub struct Got {
    /// The keys.
    pub keys: Seq<(FrameKey, nat)>,
    /// The characters.
    pub text: Seq<char>,
}

/// What the page has got after one more thing was done.
pub open spec fn got_more(g: Got, d: TypeDo) -> Got {
    match d {
        TypeDo::Key(k) => Got { keys: g.keys.push((k, g.text.len())), ..g },
        TypeDo::Char(c) => Got { text: g.text.push(c), ..g },
        _ => g,
    }
}

/// The course of the typing of a frame: the state, the last thing to do, and what the page has got, after
/// some events, each with whether the user wants to stop.
pub open spec fn typing_course(
    text: Seq<char>,
    printable: bool,
    events: Seq<(TypeEventView, bool)>,
) -> (TypingView, Option<TypeDo>, Got)
    decreases events.len(),
{
    if events.len() == 0 {
        (type_start(text, printable), None, Got { keys: Seq::empty(), text: Seq::empty() })
    } else {
        let (s, _, g) = typing_course(text, printable, events.drop_last());
        let (t, d) = type_next(s, events.last().0, events.last().1);
        (t, Some(d), got_more(g, d))
    }
}

/// Whether each event answers what was asked for.
pub open spec fn in_turn(text: Seq<char>, printable: bool, events: Seq<(TypeEventView, bool)>) -> bool
    decreases events.len(),
{
    events.len() > 0 ==> in_turn(text, printable, events.drop_last()) && events.last().0.answers(
        typing_course(text, printable, events.drop_last()).0.phase,
    )
}

/// Whether nothing follows on this.
pub open spec fn is_last(d: Option<TypeDo>) -> bool {
    d matches Some(x) && (x is Done || x is Abandon || x is Fail)
}

/// The keys before the text of a frame.
pub open spec fn keys_before(printable: bool) -> Seq<(FrameKey, nat)> {
    seq![(FrameKey::Reset, 0nat), (begin_key(printable), 0nat)]
}

/// What the page has got in each state.
spec fn got_fits(s: TypingView, last: Option<TypeDo>, g: Got) -> bool {
    let whole = keys_before(s.printable).push((end_key(s.printable), s.text.len()));
    &&& s.wf()
    &&& g.text == s.text.take(s.typed as int)
    &&& s.phase == TypePhase::Over <==> is_last(last)
    &&& match s.phase {
        TypePhase::Clear => g.keys == Seq::<(FrameKey, nat)>::empty() && s.typed == 0,
        TypePhase::Begin => g.keys == seq![(FrameKey::Reset, 0nat)] && s.typed == 0,
        TypePhase::Text | TypePhase::Looking => g.keys == keys_before(s.printable),
        TypePhase::Ended => g.keys == whole && s.typed == s.text.len(),
        TypePhase::Over => if last == Some(TypeDo::Done) {
            g.keys == whole && s.typed == s.text.len()
        } else {
            g.keys == keys_before(s.printable) && s.typed < s.text.len()
        },
    }
}

proof fn lemma_got_fits(text: Seq<char>, printable: bool, events: Seq<(TypeEventView, bool)>)
    requires
        in_turn(text, printable, events),
    ensures
        ({
            let (s, last, g) = typing_course(text, printable, events);
            got_fits(s, last, g) && s.text == text && s.printable == printable
        }),
    decreases events.len(),
{
    let (t, d, h) = typing_course(text, printable, events);
    if events.len() == 0 {
        assert(h.text =~= t.text.take(0));
    } else {
        lemma_got_fits(text, printable, events.drop_last());
        let (s, last, g) = typing_course(text, printable, events.drop_last());
        if t.typed == s.typed + 1 {
            assert(h.text =~= t.text.take(t.typed as int));
        } else {
            assert(h.text =~= g.text);
        }
        if s.phase == TypePhase::Begin {
            assert(h.keys =~= keys_before(printable));
        } else if s.phase == TypePhase::Clear {
            assert(h.keys =~= seq![(FrameKey::Reset, 0nat)]);
        } else if s.phase == TypePhase::Text && t.phase == TypePhase::Ended {
            assert(g.text.len() == text.len());
        }
    }
}

/// A frame goes whole or stays open. Once it is done the page has been cleared and has got the key that
/// begins a frame, every character of the text, and then the key that ends it. Where it is left or given
/// up the page has got the same beginning, only a part of the text, and no key that ends it.
pub proof fn law_frame_is_whole_or_open(
    text: Seq<char>,
    printable: bool,
    events: Seq<(TypeEventView, bool)>,
)
    requires
        in_turn(text, printable, events),
    ensures
        ({
            let (_, last, got) = typing_course(text, printable, events);
            &&& last == Some(TypeDo::Done) ==> got.text == text && got.keys == keys_before(printable).push(
                (end_key(printable), text.len()),
            )
            &&& is_last(last) && last != Some(TypeDo::Done) ==> got.keys == keys_before(printable)
                && got.text.len() < text.len() && got.text == text.take(got.text.len() as int)
        }),
{
    lemma_got_fits(text, printable, events);
    let (s, last, got) = typing_course(text, printable, events);
    if last == Some(TypeDo::Done) {
        assert(text.take(text.len() as int) =~= text);
    }
}

/// A frame is given up only because the page says that something is wrong, or that it may not write.
pub proof fn law_frame_fails_by_the_page(s: TypingView, e: TypeEventView, stopped: bool)
    ensures
        type_next(s, e, stopped).1 is Fail ==> (e matches TypeEventView::Looked(Some(f)) && (f.status
            == Status::Error || f.status == Status::Unauth)),
{
}

/// The code is looked at before a character exactly if the last look is long enough ago, unless the frame
/// is left anyway.
pub proof fn law_looks_are_due(s: TypingView, e: TypeEventView, stopped: bool)
    requires
        s.phase == TypePhase::Text,
        s.typed < s.text.len(),
        e.answers(s.phase),
    ensures
        e matches TypeEventView::Ready(focused, since_look_ms) && {
            let d = type_next(s, e, stopped).1;
            &&& d is Abandon <==> stopped || !focused
            &&& d is Look <==> !stopped && focused && since_look_ms >= QR_MIDCHECK_INTERVAL_MS
            &&& d is Char <==> !stopped && focused && since_look_ms < QR_MIDCHECK_INTERVAL_MS
        },
{
}

// ---------------------------------------------------------------------------------------------
// Answers
// ---------------------------------------------------------------------------------------------

/// What the answer to a frame is.
pub enum AckStep {
    /// The frame was right.
    Acked,
    /// All frames are there, and this is the digest of the file.
    Finished(String),
    /// The page is not in front.
    Paused,
    /// The frame has to be sent again.
    Resend,
    /// The page says that something is wrong.
    Fail(String),
    /// There is no answer yet.
    Wait,
}

/// The same over sequences.
pub enum AckView {
    /// The frame was right.
    Acked,
    /// All frames are there, and this is the digest of the file.
    Finished(Seq<char>),
    /// The page is not in front.
    Paused,
    /// The frame has to be sent again.
    Resend,
    /// The page says that something is wrong.
    Fail(Seq<char>),
    /// There is no answer yet.
    Wait,
}

impl View for AckStep {
    type V = AckView;

    open spec fn view(&self) -> AckView {
        match self {
            AckStep::Acked => AckView::Acked,
            AckStep::Finished(m) => AckView::Finished(m@),
            AckStep::Paused => AckView::Paused,
            AckStep::Resend => AckView::Resend,
            AckStep::Fail(m) => AckView::Fail(m@),
            AckStep::Wait => AckView::Wait,
        }
    }
}

/// The message for a page that asks for another frame.
pub open spec fn out_of_step(fb: FeedbackView, seq: usize) -> Seq<char> {
    "接收端状态不一致（反馈 seq="@ + dec_int(fb.seq as int) + "，当前 seq="@ + dec(seq as nat) + "，"@ + fb.err
        + "），请刷新页面后重新开始"@
}

/// What `ack_step` gives.
pub open spec fn ack_of(stopped: bool, seq: usize, fb: Option<FeedbackView>, elapsed_ms: u64) -> AckView {
    let on = if elapsed_ms >= ACK_TIMEOUT_MS {
        AckView::Resend
    } else {
        AckView::Wait
    };
    if stopped {
        AckView::Fail("已停止"@)
    } else {
        match fb {
            Some(f) => match f.status {
                Status::Okay => if f.seq as usize == seq {
                    AckView::Acked
                } else {
                    on
                },
                Status::Finish => if f.seq as usize == seq {
                    AckView::Finished(f.md5)
                } else {
                    on
                },
                Status::Error => AckView::Fail(page_error(f.err)),
                Status::Unauth => AckView::Fail(lost_grant()),
                Status::Pause => AckView::Paused,
                Status::Retry => if f.seq as usize == seq {
                    AckView::Resend
                } else {
                    AckView::Fail(out_of_step(f, seq))
                },
                Status::Ready => on,
            },
            None => on,
        }
    }
}

/// One look at the code after a frame was sent: what it says, and how long it has been waited. What speaks
/// of another frame is left alone, except that a page that asks for another frame is out of step. After a
/// while the frame counts as lost.
pub fn ack_step(stopped: bool, seq: usize, fb: Option<&Feedback>, elapsed_ms: u64) -> (r: AckStep)
    ensures
        r@ == ack_of(stopped, seq, heard(fb), elapsed_ms),
{
    if stopped {
        return AckStep::Fail("已停止".to_string());
    }
    if let Some(f) = fb {
        let same = f.seq as usize == seq;
        match f.status {
            Status::Okay => {
                if same {
                    return AckStep::Acked;
                }
            },
            Status::Finish => {
                if same {
                    return AckStep::Finished(f.md5.as_str().to_string());
                }
            },
            Status::Error => {
                return AckStep::Fail(page_error_text(f.err.as_str()));
            },
            Status::Unauth => {
                return AckStep::Fail(lost_grant_text());
            },
            Status::Pause => {
                return AckStep::Paused;
            },
            Status::Retry => {
                if same {
                    return AckStep::Resend;
                }
                let mut m = "接收端状态不一致（反馈 seq=".to_string();
                let n = dec_int_string(f.seq);
                m.append(n.as_str());
                m.append("，当前 seq=");
                push_dec(&mut m, seq as u64);
                m.append("，");
                m.append(f.err.as_str());
                m.append("），请刷新页面后重新开始");
                return AckStep::Fail(m);
            },
            Status::Ready => {},
        }
    }
    if elapsed_ms >= ACK_TIMEOUT_MS {
        AckStep::Resend
    } else {
        AckStep::Wait
    }
}

// ---------------------------------------------------------------------------------------------
// The sender
// ---------------------------------------------------------------------------------------------

/// What the sender waits for.
#[derive(Debug, Clone, Copy, PartialEq, Eq, Structural)]
pub enum SendPhase {
    /// The page to be in front.
    Focus,
    /// The frame to be typed.
    Frame,
    /// The answer to the frame.
    Answer,
}

/// The state of the sender over sequences.
pub struct SenderView {
    /// The number of frames.
    pub total: usize,
    /// The digest of the file.
    pub file_md5: Seq<char>,
    /// How often a frame is sent again.
    pub max_retry: usize,
    /// The frame, counted from zero.
    pub seq: usize,
    /// How often it was sent again.
    pub attempt: usize,
    /// What is waited for.
    pub phase: SendPhase,
}

/// The state of the sender.
pub struct Sender {
    total: usize,
    file_md5: String,
    max_retry: usize,
    seq: usize,
    attempt: usize,
    phase: SendPhase,
}

impl View for Sender {
    type V = SenderView;

    closed spec fn view(&self) -> SenderView {
        SenderView {
            total: self.total,
            file_md5: self.file_md5@,
            max_retry: self.max_retry,
            seq: self.seq,
            attempt: self.attempt,
            phase: self.phase,
        }
    }
}

/// What happened.
pub enum SendEvent {
    /// The page is in front.
    Focused,
    /// The page did not come to the front, for this reason.
    Lost(String),
    /// The frame was typed to its end, or left before (`false`).
    Typed(bool),
    /// The frame could not be typed, for this reason.
    Broken(String),
    /// The frame was right.
    Acked,
    /// All frames are there, and this is the digest of the file.
    Finished(String),
    /// The page is not in front.
    Paused,
    /// The frame has to be sent again.
    Resend,
    /// The page says that something is wrong.
    Refused(String),
}

/// The same over sequences.
pub enum SendEventView {
    /// The page is in front.
    Focused,
    /// The page did not come to the front, for this reason.
    Lost(Seq<char>),
    /// The frame was typed to its end, or left before (`false`).
    Typed(bool),
    /// The frame could not be typed, for this reason.
    Broken(Seq<char>),
    /// The frame was right.
    Acked,
    /// All frames are there, and this is the digest of the file.
    Finished(Seq<char>),
    /// The page is not in front.
    Paused,
    /// The frame has to be sent again.
    Resend,
    /// The page says that something is wrong.
    Refused(Seq<char>),
}

impl View for SendEvent {
    type V = SendEventView;

    open spec fn view(&self) -> SendEventView {
        match self {
            SendEvent::Focused => SendEventView::Focused,
            SendEvent::Lost(m) => SendEventView::Lost(m@),
            SendEvent::Typed(b) => SendEventView::Typed(*b),
            SendEvent::Broken(m) => SendEventView::Broken(m@),
            SendEvent::Acked => SendEventView::Acked,
            SendEvent::Finished(m) => SendEventView::Finished(m@),
            SendEvent::Paused => SendEventView::Paused,
            SendEvent::Resend => SendEventView::Resend,
            SendEvent::Refused(m) => SendEventView::Refused(m@),
        }
    }
}

impl SendEventView {
    /// What the event answers.
    pub open spec fn answers(self) -> SendPhase {
        match self {
            SendEventView::Focused | SendEventView::Lost(_) => SendPhase::Focus,
            SendEventView::Typed(_) | SendEventView::Broken(_) => SendPhase::Frame,
            _ => SendPhase::Answer,
        }
    }
}

/// What to do next.
pub enum SendAction {
    /// Wait for the page to be in front.
    AwaitFocus,
    /// Type a frame.
    Send(usize),
    /// Wait for the answer to a frame.
    AwaitAnswer(usize),
    /// Stop, as the user asked.
    Stop,
    /// The file is there.
    Done,
    /// The transfer has failed.
    Fail(String),
}

/// The same over sequences.
pub enum SendDo {
    /// Wait for the page to be in front.
    AwaitFocus,
    /// Type a frame.
    Send(usize),
    /// Wait for the answer to a frame.
    AwaitAnswer(usize),
    /// Stop, as the user asked.
    Stop,
    /// The file is there.
    Done,
    /// The transfer has failed.
    Fail(Seq<char>),
}

impl View for SendAction {
    type V = SendDo;

    open spec fn view(&self) -> SendDo {
        match self {
            SendAction::AwaitFocus => SendDo::AwaitFocus,
            SendAction::Send(n) => SendDo::Send(*n),
            SendAction::AwaitAnswer(n) => SendDo::AwaitAnswer(*n),
            SendAction::Stop => SendDo::Stop,
            SendAction::Done => SendDo::Done,
            SendAction::Fail(m) => SendDo::Fail(m@),
        }
    }
}

/// Beginning with a frame.
pub open spec fn begin(s: SenderView, seq: usize, stopped: bool) -> (SenderView, SendDo) {
    let t = SenderView { seq, attempt: 0, phase: SendPhase::Focus, ..s };
    if stopped {
        (t, SendDo::Stop)
    } else {
        (t, SendDo::AwaitFocus)
    }
}

/// Sending the frame, for the first time or again.
pub open spec fn send(s: SenderView, stopped: bool) -> (SenderView, SendDo) {
    if stopped {
        (s, SendDo::Stop)
    } else {
        (SenderView { phase: SendPhase::Frame, ..s }, SendDo::Send(s.seq))
    }
}

/// The message for a frame that was sent too often.
pub open spec fn gave_up(seq: nat, attempt: nat) -> Seq<char> {
    "片 "@ + dec(seq) + " 重试 "@ + dec(attempt) + " 次仍失败（接收端无法确认）"@
}

/// The message for a frame that the page has refused too often.
pub open spec fn gave_up_on(seq: nat, reason: Seq<char>) -> Seq<char> {
    "片 "@ + dec(seq) + " 等待反馈失败："@ + reason
}

/// The course of a transfer: what follows on what happened. `stopped` says whether the user wants to stop.
pub open spec fn send_next(s: SenderView, e: SendEventView, stopped: bool) -> (SenderView, SendDo) {
    let again = SenderView { attempt: (s.attempt + 1) as usize, ..s };
    match e {
        SendEventView::Focused => send(s, stopped),
        SendEventView::Lost(m) => (s, SendDo::Fail(m)),
        SendEventView::Typed(true) => (
            SenderView { phase: SendPhase::Answer, ..s },
            SendDo::AwaitAnswer(s.seq),
        ),
        SendEventView::Typed(false) => (SenderView { phase: SendPhase::Focus, ..s }, SendDo::AwaitFocus),
        SendEventView::Broken(m) => (s, SendDo::Fail(m)),
        SendEventView::Acked => if s.seq + 1 < s.total {
            begin(s, (s.seq + 1) as usize, stopped)
        } else {
            (s, SendDo::Fail("传输结束但未收到接收端 FINISH 确认"@))
        },
        SendEventView::Finished(md5) => if md5 == s.file_md5 {
            (s, SendDo::Done)
        } else {
            (s, SendDo::Fail("整文件 MD5 校验失败"@))
        },
        SendEventView::Paused => (SenderView { phase: SendPhase::Focus, ..s }, SendDo::AwaitFocus),
        SendEventView::Resend => if s.attempt >= s.max_retry {
            (s, SendDo::Fail(gave_up(s.seq as nat, (s.attempt + 1) as nat)))
        } else {
            send(again, stopped)
        },
        SendEventView::Refused(m) => if s.attempt >= s.max_retry {
            (s, SendDo::Fail(gave_up_on(s.seq as nat, m)))
        } else {
            send(again, stopped)
        },
    }
}

impl SenderView {
    /// Whether it is a state that can be reached.
    pub open spec fn wf(self) -> bool {
        self.seq < self.total && self.attempt <= self.max_retry && self.max_retry < usize::MAX
    }
}

/// The start of a transfer.
pub open spec fn send_start(total: usize, file_md5: Seq<char>, max_retry: usize) -> SenderView {
    SenderView { total, file_md5, max_retry, seq: 0, attempt: 0, phase: SendPhase::Focus }
}

impl Sender {
    /// The start of a transfer, of at least one frame.
    pub fn start(total: usize, file_md5: &str, max_retry: usize, stopped: bool) -> (r: (
        Sender,
        SendAction,
    ))
        requires
            total > 0,
            max_retry < usize::MAX,
        ensures
            r.0@.wf(),
            (r.0@, r.1@) == begin(send_start(total, file_md5@, max_retry), 0, stopped),
    {
        let s = Sender {
            total,
            file_md5: file_md5.to_string(),
            max_retry,
            seq: 0,
            attempt: 0,
            phase: SendPhase::Focus,
        };
        if stopped {
            (s, SendAction::Stop)
        } else {
            (s, SendAction::AwaitFocus)
        }
    }

    fn send(&mut self, stopped: bool) -> (r: SendAction)
        requires
            old(self)@.wf(),
        ensures
            final(self)@.wf(),
            (final(self)@, r@) == send(old(self)@, stopped),
    {
        if stopped {
            return SendAction::Stop;
        }
        self.phase = SendPhase::Frame;
        SendAction::Send(self.seq)
    }

    /// Takes note of what happened and says what to do. `stopped` says whether the user wants to stop. The
    /// event has to answer what was asked for.
    pub fn step(&mut self, event: SendEvent, stopped: bool) -> (r: SendAction)
        requires
            old(self)@.wf(),
            event@.answers() == old(self)@.phase,
        ensures
            final(self)@.wf(),
            (final(self)@, r@) == send_next(old(self)@, event@, stopped),
    {
        match event {
            SendEvent::Focused => self.send(stopped),
            SendEvent::Lost(m) => SendAction::Fail(m),
            SendEvent::Typed(done) => if done {
                self.phase = SendPhase::Answer;
                SendAction::AwaitAnswer(self.seq)
            } else {
                self.phase = SendPhase::Focus;
                SendAction::AwaitFocus
            },
            SendEvent::Broken(m) => SendAction::Fail(m),
            SendEvent::Acked => if self.total - self.seq > 1 {
                self.seq = self.seq + 1;
                self.attempt = 0;
                self.phase = SendPhase::Focus;
                if stopped {
                    SendAction::Stop
                } else {
                    SendAction::AwaitFocus
                }
            } else {
                SendAction::Fail("传输结束但未收到接收端 FINISH 确认".to_string())
            },
            SendEvent::Finished(md5) => if same_str(md5.as_str(), self.file_md5.as_str()) {
                SendAction::Done
            } else {
                SendAction::Fail("整文件 MD5 校验失败".to_string())
            },
            SendEvent::Paused => {
                self.phase = SendPhase::Focus;
                SendAction::AwaitFocus
            },
            SendEvent::Resend => {
                if self.attempt >= self.max_retry {
                    let mut m = "片 ".to_string();
                    push_dec(&mut m, self.seq as u64);
                    m.append(" 重试 ");
                    push_dec(&mut m, self.attempt as u64 + 1);
                    m.append(" 次仍失败（接收端无法确认）");
                    assert(m@ =~= gave_up(self.seq as nat, (self.attempt + 1) as nat));
                    return SendAction::Fail(m);
                }
                self.attempt = self.attempt + 1;
                self.send(stopped)
            },
            SendEvent::Refused(reason) => {
                if self.attempt >= self.max_retry {
                    let mut m = "片 ".to_string();
                    push_dec(&mut m, self.seq as u64);
                    m.append(" 等待反馈失败：");
                    m.append(reason.as_str());
                    return SendAction::Fail(m);
                }
                self.attempt = self.attempt + 1;
                self.send(stopped)
            },
        }
    }
}

// ---------------------------------------------------------------------------------------------
// Laws
// ---------------------------------------------------------------------------------------------

/// A transfer is done only if the page has the file: the digest that it reports is that of the file.
pub proof fn law_done_means_right_file(s: SenderView, e: SendEventView, stopped: bool)
    ensures
        send_next(s, e, stopped).1 is Done ==> e == SendEventView::Finished(s.file_md5),
{
}

/// Frames go in order: the sender goes on to another frame only when the page has said that the frame was
/// right, and then to the next.
pub proof fn law_frames_go_in_order(s: SenderView, e: SendEventView, stopped: bool)
    requires
        s.wf(),
    ensures
        send_next(s, e, stopped).0.wf(),
        send_next(s, e, stopped).0.seq != s.seq ==> e is Acked && send_next(s, e, stopped).0.seq == s.seq
            + 1,
        send_next(s, e, stopped).1 matches SendDo::Send(n) ==> n == s.seq,
{
}

/// A page that is not in front costs no attempt: leaving a frame, or being told to pause, keeps the frame
/// and the count of attempts.
pub proof fn law_pause_costs_nothing(s: SenderView, stopped: bool)
    ensures
        send_next(s, SendEventView::Paused, stopped) == send_next(s, SendEventView::Typed(false), stopped),
        send_next(s, SendEventView::Paused, stopped) == (
            SenderView { phase: SendPhase::Focus, ..s },
            SendDo::AwaitFocus,
        ),
{
}

/// The course of a transfer in which the page takes every frame at once: the state before frame `k`.
pub open spec fn after_acks(s: SenderView, k: nat) -> SenderView
    decreases k,
{
    if k == 0 {
        s
    } else {
        let a = after_acks(s, (k - 1) as nat);
        let b = send_next(a, SendEventView::Focused, false).0;
        let c = send_next(b, SendEventView::Typed(true), false).0;
        send_next(c, SendEventView::Acked, false).0
    }
}

/// A transfer succeeds: where the page takes every frame, and at the last one has the file, each frame is
/// sent once and the transfer is done.
pub proof fn law_accepted_frames_finish(total: usize, file_md5: Seq<char>, max_retry: usize, k: nat)
    requires
        k < total,
    ensures
        ({
            let s = after_acks(send_start(total, file_md5, max_retry), k);
            let sent = send_next(s, SendEventView::Focused, false);
            let typed = send_next(sent.0, SendEventView::Typed(true), false);
            &&& s == (SenderView { seq: k as usize, ..send_start(total, file_md5, max_retry) })
            &&& sent.1 == SendDo::Send(k as usize)
            &&& typed.1 == SendDo::AwaitAnswer(k as usize)
            &&& k + 1 == total ==> send_next(
                typed.0,
                SendEventView::Finished(file_md5),
                false,
            ).1 is Done
        }),
    decreases k,
{
    if k > 0 {
        law_accepted_frames_finish(total, file_md5, max_retry, (k - 1) as nat);
    }
}

/// A page that refuses a frame is not asked for ever: after `max_retry` repeats the transfer fails.
pub proof fn law_repeats_are_bounded(s: SenderView, e: SendEventView, stopped: bool)
    requires
        s.wf(),
        e is Resend || e is Refused,
    ensures
        s.attempt == s.max_retry ==> send_next(s, e, stopped).1 is Fail,
        s.attempt < s.max_retry ==> send_next(s, e, stopped).0.attempt == s.attempt + 1,
{
}

/// What a look at the code in the middle of a frame leads to. Only a page that is not in front has the frame
/// left, and only one that reports an error or may not write has it given up, with the reason that the page
/// gives. Whatever else the code says, or if it is not there, the next character of the text is typed.
pub proof fn law_only_pause_leaves_a_frame(s: TypingView, fb: Option<FeedbackView>, stopped: bool)
    requires
        s.wf(),
        s.phase == TypePhase::Looking,
    ensures
        ({
            let (t, d) = type_next(s, TypeEventView::Looked(fb), stopped);
            let pause = fb is Some && fb->0.status == Status::Pause;
            let error = fb is Some && fb->0.status == Status::Error;
            let unauth = fb is Some && fb->0.status == Status::Unauth;
            &&& d is Abandon <==> pause
            &&& d is Fail <==> error || unauth
            &&& error ==> d == TypeDo::Fail("接收端错误："@ + fb->0.err)
            &&& !pause && !error && !unauth ==> d == TypeDo::Char(s.text[s.typed as int]) && t == (
            TypingView { phase: TypePhase::Text, typed: s.typed + 1, ..s })
        }),
{
}

/// The same of one decision: before a character the frame is left if the user wants to stop, another
/// application is in front, or the page says that it is not, and in no other case; and it is given up only
/// where the page cannot go on.
pub proof fn law_next_character_is_typed(stopped: bool, focused: bool, fb: Option<FeedbackView>)
    ensures
        mid_of(stopped, focused, fb) is Abort <==> stopped || !focused || (fb is Some && fb->0.status
            == Status::Pause),
        mid_of(stopped, focused, fb) is Fail <==> !stopped && focused && fb is Some && (fb->0.status
            == Status::Error || fb->0.status == Status::Unauth),
{
}

/// When waiting for the page at the start ends. It goes on with READY and nothing else. It fails if the user
/// stops, if the page reports an error, or after three minutes without a word; never while the page asks for
/// a directory, of which the user is reminded every five seconds.
pub proof fn law_start_waits_for_ready(
    stopped: bool,
    fb: Option<FeedbackView>,
    silent_ms: u64,
    hint_ms: u64,
)
    ensures
        ({
            let r = ready_of(stopped, fb, silent_ms, hint_ms);
            let says = |st: Status| fb is Some && fb->0.status == st;
            &&& r is Go <==> !stopped && says(Status::Ready)
            &&& r is Fail <==> stopped || says(Status::Error) || (fb is None && silent_ms >= 180_000)
            &&& r is Hint <==> !stopped && says(Status::Unauth) && hint_ms >= 5_000
            &&& !stopped && says(Status::Error) ==> r == ReadyView::Fail("接收端错误："@ + fb->0.err)
        }),
{
}

/// When waiting for the page to come back ends. While another application is in front nothing else counts.
/// It goes on once the page says that it takes frames, has taken one, or has all. It fails if the user stops,
/// if the page reports an error or may not write, or after ten minutes in which it said none of that.
pub proof fn law_pause_waits_for_the_page(
    stopped: bool,
    focused: bool,
    fb: Option<FeedbackView>,
    elapsed_ms: u64,
)
    ensures
        ({
            let r = pause_of(stopped, focused, fb, elapsed_ms);
            let says = |st: Status| fb is Some && fb->0.status == st;
            let back = says(Status::Ready) || says(Status::Okay) || says(Status::Finish);
            let wrong = says(Status::Error) || says(Status::Unauth);
            &&& r is Away <==> !stopped && !focused
            &&& r is Resumed <==> !stopped && focused && back
            &&& r is Fail <==> stopped || (focused && (wrong || (!back && elapsed_ms >= 600_000)))
            &&& !stopped && focused && says(Status::Error) ==> r == PauseView::Fail(
                "接收端错误："@ + fb->0.err,
            )
        }),
{
}

/// What counts as the answer to a frame. It is right, or the file is complete, only if the page says so of
/// this very frame. It is sent again if the page asks for it, or after half a minute without an answer to
/// it. A page that asks for another frame, reports an error or may not write ends the waiting.
pub proof fn law_answer_is_to_this_frame(
    stopped: bool,
    seq: usize,
    fb: Option<FeedbackView>,
    elapsed_ms: u64,
)
    requires
        fb is Some ==> 0 <= fb->0.seq <= usize::MAX,
    ensures
        ({
            let r = ack_of(stopped, seq, fb, elapsed_ms);
            let says = |st: Status| fb is Some && fb->0.status == st;
            let same = fb is Some && fb->0.seq == seq;
            let silent = fb is None || says(Status::Ready) || ((says(Status::Okay) || says(Status::Finish))
                && !same);
            &&& r is Acked <==> !stopped && says(Status::Okay) && same
            &&& r is Finished <==> !stopped && says(Status::Finish) && same
            &&& r is Finished ==> r == AckView::Finished(fb->0.md5)
            &&& r is Paused <==> !stopped && says(Status::Pause)
            &&& r is Resend <==> !stopped && ((says(Status::Retry) && same) || (silent && elapsed_ms
                >= 30_000))
            &&& r is Fail <==> stopped || says(Status::Error) || says(Status::Unauth) || (says(Status::Retry)
                && !same)
            &&& !stopped && says(Status::Error) ==> r == AckView::Fail("接收端错误："@ + fb->0.err)
        }),
{
}

/// What follows on what happened, unless it is the end. A page in front gets the frame; a frame that was
/// typed is waited for; one that was left, or that the page was not there for, waits for the page; one that
/// has to go again goes at once, as long as it may.
pub proof fn law_transfer_goes_on(s: SenderView, e: SendEventView)
    requires
        s.wf(),
    ensures
        ({
            let d = send_next(s, e, false).1;
            &&& e is Focused ==> d == SendDo::Send(s.seq)
            &&& e == SendEventView::Typed(true) ==> d == SendDo::AwaitAnswer(s.seq)
            &&& e == SendEventView::Typed(false) || e is Paused ==> d == SendDo::AwaitFocus
            &&& e is Acked && s.seq + 1 < s.total ==> d == SendDo::AwaitFocus
            &&& (e is Resend || e is Refused) && s.attempt < s.max_retry ==> d == SendDo::Send(s.seq)
            &&& e == SendEventView::Finished(s.file_md5) ==> d is Done
        }),
{
}

/// When a transfer fails: the page or the keyboard is lost, whose reason is passed on; the digest of the file
/// is another; the last frame was taken but the file is not complete; or a frame has been sent once and
/// again as often as it may. In no other case.
pub proof fn law_transfer_fails_for_cause(s: SenderView, e: SendEventView, stopped: bool)
    requires
        s.wf(),
    ensures
        ({
            let d = send_next(s, e, stopped).1;
            &&& d is Fail <==> {
                ||| e is Lost
                ||| e is Broken
                ||| e is Acked && s.seq + 1 == s.total
                ||| e is Finished && e != SendEventView::Finished(s.file_md5)
                ||| (e is Resend || e is Refused) && s.attempt == s.max_retry
            }
            &&& e matches SendEventView::Lost(m) ==> d == SendDo::Fail(m)
            &&& e matches SendEventView::Broken(m) ==> d == SendDo::Fail(m)
        }),
{
}

/// A user who wants to stop gets no further frame, and stopping is never a failure or a success.
pub proof fn law_stop_sends_nothing(s: SenderView, e: SendEventView, stopped: bool)
    ensures
        stopped ==> !(send_next(s, e, stopped).1 is Send),
        send_next(s, e, stopped).1 is Stop ==> stopped,
        stopped && e is Focused ==> send_next(s, e, stopped).1 is Stop,
{
}

/// What the sender keeps: the file, the limit, and the count of repeats, which starts anew with each frame
/// and grows by one only where the frame has to go again.
pub proof fn law_sender_keeps_count(s: SenderView, e: SendEventView, stopped: bool)
    requires
        s.wf(),
    ensures
        ({
            let t = send_next(s, e, stopped).0;
            &&& t.total == s.total && t.file_md5 == s.file_md5 && t.max_retry == s.max_retry
            &&& t.seq != s.seq ==> t.attempt == 0
            &&& t.seq == s.seq ==> t.attempt == s.attempt || (t.attempt == s.attempt + 1 && (e is Resend || e
                is Refused))
        }),
        begin(s, s.seq, false).1 == SendDo::AwaitFocus,
        begin(s, s.seq, stopped).0.attempt == 0,
{
}

/// A number below zero speaks of no frame: it is no answer to any.
pub proof fn law_no_frame_below_zero(seq: usize, f: FeedbackView, elapsed_ms: u64)
    requires
        -0x8000_0000 <= f.seq < 0,
        seq < 0x8000_0000,
    ensures
        !(ack_of(false, seq, Some(f), elapsed_ms) is Acked),
        !(ack_of(false, seq, Some(f), elapsed_ms) is Finished),
        f.status == Status::Retry ==> ack_of(false, seq, Some(f), elapsed_ms) is Fail,
{
    let n = f.seq;
    assert(n as usize != seq) by (bit_vector)
        requires
            -0x8000_0000 <= n < 0,
            seq < 0x8000_0000,
    ;
}

} // verus!
