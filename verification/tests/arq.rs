use typepaste::arq::{
    ack_step, frame_keys, mid_step, pause_step, ready_step, AckStep, FrameKey, MidStep, PauseStep,
    ReadyStep, SendAction, SendEvent, Sender, TypeAction, TypeEvent, Typing,
};
use typepaste::qr::{Feedback, Status};

fn said(seq: i64, status: Status) -> Feedback {
    Feedback {
        seq,
        status,
        md5: "feed".to_string(),
        err: "disk full".to_string(),
    }
}

const GRANT: &str = "接收端未授权保存目录（页面可能已刷新），请重新授权后开始传输";

#[test]
fn keys_round_a_frame() {
    assert_eq!(
        frame_keys(false),
        ([FrameKey::Reset, FrameKey::Start], FrameKey::End)
    );
    assert_eq!(
        frame_keys(true),
        ([FrameKey::Reset, FrameKey::Char('{')], FrameKey::Char('}'))
    );
}

#[test]
fn waiting_for_the_page() {
    let step = |fb: Option<Status>, silent: u64, hint: u64| match ready_step(
        false,
        fb.map(|s| said(0, s)).as_ref(),
        silent,
        hint,
    ) {
        ReadyStep::Go => "go".to_string(),
        ReadyStep::Hint => "hint".to_string(),
        ReadyStep::Wait => "wait".to_string(),
        ReadyStep::Fail(m) => m,
    };
    assert_eq!(step(Some(Status::Ready), 0, 0), "go");
    assert_eq!(step(Some(Status::Error), 0, 0), "接收端错误：disk full");
    assert_eq!(step(Some(Status::Unauth), 999_999, 4_999), "wait");
    assert_eq!(step(Some(Status::Unauth), 999_999, 5_000), "hint");
    assert_eq!(step(Some(Status::Pause), 999_999, 9_999), "wait");
    assert_eq!(step(None, 179_999, 9_999), "wait");
    assert_eq!(
        step(None, 180_000, 0),
        "等待接收端 READY 超时（请确认 receiver.html 已打开、二维码区域框选正确）"
    );
    assert!(matches!(
        ready_step(true, Some(&said(0, Status::Ready)), 0, 0),
        ReadyStep::Fail(m) if m == "已停止"
    ));
}

#[test]
fn waiting_for_the_front() {
    let step = |focused: bool, fb: Option<Status>, ms: u64| match pause_step(
        false,
        focused,
        fb.map(|s| said(0, s)).as_ref(),
        ms,
    ) {
        PauseStep::Resumed => "resumed".to_string(),
        PauseStep::Away => "away".to_string(),
        PauseStep::Wait => "wait".to_string(),
        PauseStep::Fail(m) => m,
    };
    for s in [Status::Ready, Status::Okay, Status::Finish] {
        assert_eq!(step(true, Some(s), 0), "resumed");
        assert_eq!(step(false, Some(s), 999_999), "away");
    }
    assert_eq!(step(true, Some(Status::Error), 0), "接收端错误：disk full");
    assert_eq!(step(true, Some(Status::Unauth), 0), GRANT);
    for fb in [Some(Status::Pause), Some(Status::Retry), None] {
        assert_eq!(step(true, fb, 599_999), "wait");
        assert_eq!(step(true, fb, 600_000), "等待页面重新聚焦超时");
    }
    assert!(matches!(pause_step(true, false, None, 0), PauseStep::Fail(m) if m == "已停止"));
}

#[test]
fn within_a_frame() {
    let step = |fb: Option<Status>| match mid_step(false, true, fb.map(|s| said(0, s)).as_ref()) {
        MidStep::Go => "go".to_string(),
        MidStep::Abort => "abort".to_string(),
        MidStep::Fail(m) => m,
    };
    assert_eq!(step(None), "go");
    assert_eq!(step(Some(Status::Okay)), "go");
    assert_eq!(step(Some(Status::Pause)), "abort");
    assert_eq!(step(Some(Status::Error)), "接收端错误：disk full");
    assert_eq!(step(Some(Status::Unauth)), GRANT);
    assert!(matches!(mid_step(true, true, None), MidStep::Abort));
    assert!(matches!(mid_step(false, false, None), MidStep::Abort));
}

fn ready(since_look_ms: u64) -> TypeEvent {
    TypeEvent::Ready {
        focused: true,
        since_look_ms,
    }
}

fn typed(action: TypeAction) -> String {
    match action {
        TypeAction::Key(FrameKey::Reset) => "<reset>".to_string(),
        TypeAction::Key(FrameKey::Start) => "<start>".to_string(),
        TypeAction::Key(FrameKey::End) => "<end>".to_string(),
        TypeAction::Key(FrameKey::Char(c)) => format!("<{c}>"),
        TypeAction::Char(c) => c.to_string(),
        TypeAction::Look => "look ".to_string(),
        TypeAction::Done => " done".to_string(),
        TypeAction::Abandon => " abandon".to_string(),
        TypeAction::Fail(m) => format!(" {m}"),
    }
}

/// What is typed of a frame: events that are ready with these milliseconds, then the last event.
fn typing(text: &str, printable: bool, waits: &[u64], last: TypeEvent, stopped: bool) -> String {
    let mut typing = Typing::start(text, printable);
    let mut out = String::new();
    for &ms in waits {
        out.push_str(&typed(typing.step(ready(ms), false)));
    }
    out.push_str(&typed(typing.step(last, stopped)));
    out
}

#[test]
fn whole_frames() {
    assert_eq!(
        typing("aé", false, &[0, 0, 699, 0, 900], ready(0), false),
        "<reset><start>aé<end> done"
    );
    assert_eq!(
        typing("ab", true, &[0, 900, 0, 0, 0], ready(900), true),
        "<reset><{>ab<}> done"
    );
    assert_eq!(typing("", true, &[0, 0, 900], ready(0), false), "<reset><{><}> done");
}

#[test]
fn frames_that_are_left() {
    let away = TypeEvent::Ready {
        focused: false,
        since_look_ms: 900,
    };
    assert_eq!(typing("abc", false, &[0, 0, 0], away, false), "<reset><start>a abandon");
    assert_eq!(typing("abc", false, &[0, 0, 0], ready(900), true), "<reset><start>a abandon");
    // The keys before the text are typed in any case, and so is the one after it.
    assert_eq!(typing("abc", false, &[0], ready(0), true), "<reset><start>");
    assert_eq!(typing("a", false, &[0, 0, 0], ready(0), true), "<reset><start>a<end>");
}

#[test]
fn looks_within_a_frame() {
    let look = |fb: Option<Status>, stopped: bool| {
        let fb = TypeEvent::Looked(fb.map(|s| said(0, s)));
        typing("abc", false, &[0, 0, 699, 700], fb, stopped)
    };
    assert_eq!(look(None, false), "<reset><start>alook b");
    assert_eq!(look(Some(Status::Ready), false), "<reset><start>alook b");
    // Whether to stop was seen before the look, and is seen again before the next character.
    assert_eq!(look(None, true), "<reset><start>alook b");
    assert_eq!(look(Some(Status::Pause), false), "<reset><start>alook  abandon");
    assert_eq!(
        look(Some(Status::Error), false),
        "<reset><start>alook  接收端错误：disk full"
    );
    assert_eq!(
        look(Some(Status::Unauth), false),
        format!("<reset><start>alook  {GRANT}")
    );
}

#[test]
fn answers_to_a_frame() {
    let step = |fb: Option<(i64, Status)>, ms: u64| match ack_step(
        false,
        3,
        fb.map(|(n, s)| said(n, s)).as_ref(),
        ms,
    ) {
        AckStep::Acked => "acked".to_string(),
        AckStep::Finished(m) => format!("finished {m}"),
        AckStep::Paused => "paused".to_string(),
        AckStep::Resend => "resend".to_string(),
        AckStep::Fail(m) => m,
        AckStep::Wait => "wait".to_string(),
    };
    assert_eq!(step(Some((3, Status::Okay)), 99_999), "acked");
    assert_eq!(step(Some((2, Status::Okay)), 0), "wait");
    assert_eq!(step(Some((2, Status::Okay)), 30_000), "resend");
    assert_eq!(step(Some((3, Status::Finish)), 0), "finished feed");
    assert_eq!(step(Some((4, Status::Finish)), 0), "wait");
    assert_eq!(step(Some((9, Status::Error)), 0), "接收端错误：disk full");
    assert_eq!(step(Some((9, Status::Unauth)), 0), GRANT);
    assert_eq!(step(Some((9, Status::Pause)), 0), "paused");
    assert_eq!(step(Some((3, Status::Retry)), 0), "resend");
    assert_eq!(
        step(Some((-1, Status::Retry)), 0),
        "接收端状态不一致（反馈 seq=-1，当前 seq=3，disk full），请刷新页面后重新开始"
    );
    assert_eq!(step(Some((3, Status::Ready)), 29_999), "wait");
    assert_eq!(step(None, 29_999), "wait");
    assert_eq!(step(None, 30_000), "resend");
    assert!(matches!(ack_step(true, 3, None, 0), AckStep::Fail(m) if m == "已停止"));
}

fn show(a: SendAction) -> String {
    match a {
        SendAction::AwaitFocus => "focus".to_string(),
        SendAction::Send(n) => format!("send {n}"),
        SendAction::AwaitAnswer(n) => format!("answer {n}"),
        SendAction::Stop => "stop".to_string(),
        SendAction::Done => "done".to_string(),
        SendAction::Fail(m) => m,
    }
}

#[test]
fn frames_go_in_order() {
    let (mut s, a) = Sender::start(2, "feed", 0, false);
    assert_eq!(show(a), "focus");
    assert_eq!(show(s.step(SendEvent::Focused, false)), "send 0");
    assert_eq!(show(s.step(SendEvent::Typed(true), false)), "answer 0");
    assert_eq!(show(s.step(SendEvent::Acked, false)), "focus");
    assert_eq!(show(s.step(SendEvent::Focused, false)), "send 1");
    assert_eq!(show(s.step(SendEvent::Typed(true), false)), "answer 1");
    assert_eq!(
        show(s.step(SendEvent::Finished("feed".to_string()), false)),
        "done"
    );
}

#[test]
fn pauses_cost_no_attempt() {
    let (mut s, _) = Sender::start(1, "feed", 0, false);
    for _ in 0..10 {
        assert_eq!(show(s.step(SendEvent::Focused, false)), "send 0");
        assert_eq!(show(s.step(SendEvent::Typed(false), false)), "focus");
        assert_eq!(show(s.step(SendEvent::Focused, false)), "send 0");
        assert_eq!(show(s.step(SendEvent::Typed(true), false)), "answer 0");
        assert_eq!(show(s.step(SendEvent::Paused, false)), "focus");
    }
    assert_eq!(show(s.step(SendEvent::Focused, false)), "send 0");
    assert_eq!(show(s.step(SendEvent::Typed(true), false)), "answer 0");
    assert_eq!(
        show(s.step(SendEvent::Resend, false)),
        "片 0 重试 1 次仍失败（接收端无法确认）"
    );
}

#[test]
fn repeats_are_bounded() {
    let (mut s, _) = Sender::start(3, "feed", 2, false);
    s.step(SendEvent::Focused, false);
    for _ in 0..2 {
        assert_eq!(show(s.step(SendEvent::Typed(true), false)), "answer 0");
        assert_eq!(show(s.step(SendEvent::Resend, false)), "send 0");
    }
    s.step(SendEvent::Typed(true), false);
    assert_eq!(
        show(s.step(SendEvent::Refused("x".to_string()), false)),
        "片 0 等待反馈失败：x"
    );
}

#[test]
fn attempts_start_anew_with_a_frame() {
    let (mut s, _) = Sender::start(2, "feed", 1, false);
    for n in 0..2 {
        assert_eq!(show(s.step(SendEvent::Focused, false)), format!("send {n}"));
        s.step(SendEvent::Typed(true), false);
        assert_eq!(
            show(s.step(SendEvent::Refused("x".to_string()), false)),
            format!("send {n}")
        );
        s.step(SendEvent::Typed(true), false);
        if n == 0 {
            assert_eq!(show(s.step(SendEvent::Acked, false)), "focus");
        }
    }
    assert_eq!(
        show(s.step(SendEvent::Acked, false)),
        "传输结束但未收到接收端 FINISH 确认"
    );
}

#[test]
fn transfers_that_end_early() {
    let (_, a) = Sender::start(1, "feed", 1, true);
    assert_eq!(show(a), "stop");
    let (mut s, _) = Sender::start(1, "feed", 1, false);
    assert_eq!(show(s.step(SendEvent::Focused, true)), "stop");
    let (mut s, _) = Sender::start(1, "feed", 1, false);
    assert_eq!(show(s.step(SendEvent::Lost("l".to_string()), false)), "l");
    let (mut s, _) = Sender::start(1, "feed", 1, false);
    s.step(SendEvent::Focused, false);
    assert_eq!(show(s.step(SendEvent::Broken("b".to_string()), false)), "b");
    let (mut s, _) = Sender::start(1, "feed", 1, false);
    s.step(SendEvent::Focused, false);
    s.step(SendEvent::Typed(true), false);
    assert_eq!(
        show(s.step(SendEvent::Finished("beef".to_string()), false)),
        "整文件 MD5 校验失败"
    );
}
