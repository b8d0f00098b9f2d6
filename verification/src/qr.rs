//! Feedback by QR code: the receiving page shows its state as a code on the screen, such as
//! `{"seq":0,"status":"OK","md5":"...","err":""}`.

use vstd::prelude::*;
use vstd::slice::slice_subrange;
use vstd::string::StrSliceExecFns;
use crate::text::{
    chars_of, dec, dec_int, find, find_char, found, is_digit, is_space, law_dec_int_parses,
    law_trim_takes_the_ends, lemma_dec, lemma_found, lemma_found_is, lemma_position, lemma_position_is,
    lemma_stripped_start, parse_i64, parsed_i64, position, same_str, starts, string_of, strip, strip_end,
    strip_start, stripped, stripped_end, stripped_start, trimmed, Strip,
};
use crate::utils::is_lower_hex;

verus! {

/// The state of the receiving page.
#[derive(Debug, Clone, Copy, PartialEq, Eq, Structural)]
pub enum Status {
    /// It waits for frames.
    Ready,
    /// A frame was right.
    Okay,
    /// A frame was wrong and has to come again.
    Retry,
    /// Its window is not in front: nothing is to be sent.
    Pause,
    /// All frames are there.
    Finish,
    /// It cannot go on.
    Error,
    /// It may not write yet: the sender goes on waiting.
    Unauth,
}

impl Status {
    /// What `parse` gives.
    pub open spec fn named(s: Seq<char>) -> Option<Status> {
        if s == "READY"@ {
            Some(Status::Ready)
        } else if s == "OK"@ {
            Some(Status::Okay)
        } else if s == "RETRY"@ {
            Some(Status::Retry)
        } else if s == "PAUSE"@ {
            Some(Status::Pause)
        } else if s == "FINISH"@ {
            Some(Status::Finish)
        } else if s == "ERROR"@ {
            Some(Status::Error)
        } else if s == "UNAUTH"@ {
            Some(Status::Unauth)
        } else {
            None
        }
    }

    /// The name of a state.
    pub open spec fn name(self) -> Seq<char> {
        match self {
            Status::Ready => "READY"@,
            Status::Okay => "OK"@,
            Status::Retry => "RETRY"@,
            Status::Pause => "PAUSE"@,
            Status::Finish => "FINISH"@,
            Status::Error => "ERROR"@,
            Status::Unauth => "UNAUTH"@,
        }
    }

    /// Reads the name of a state; `None` if it is none of them.
    pub fn parse(s: &str) -> (r: Option<Self>)
        ensures
            r == Status::named(s@),
    {
        if same_str(s, "READY") {
            Some(Status::Ready)
        } else if same_str(s, "OK") {
            Some(Status::Okay)
        } else if same_str(s, "RETRY") {
            Some(Status::Retry)
        } else if same_str(s, "PAUSE") {
            Some(Status::Pause)
        } else if same_str(s, "FINISH") {
            Some(Status::Finish)
        } else if same_str(s, "ERROR") {
            Some(Status::Error)
        } else if same_str(s, "UNAUTH") {
            Some(Status::Unauth)
        } else {
            None
        }
    }
}

/// Every state is read from its name.
pub proof fn law_status_names(s: Status)
    ensures
        Status::named(s.name()) == Some(s),
{
    reveal_strlit("READY");
    reveal_strlit("OK");
    reveal_strlit("RETRY");
    reveal_strlit("PAUSE");
    reveal_strlit("FINISH");
    reveal_strlit("ERROR");
    reveal_strlit("UNAUTH");
    assert("READY"@[2] != "RETRY"@[2]);
    assert("READY"@[0] != "ERROR"@[0]);
    assert("READY"@[0] != "PAUSE"@[0]);
    assert("RETRY"@[0] != "PAUSE"@[0]);
    assert("RETRY"@[0] != "ERROR"@[0]);
    assert("PAUSE"@[0] != "ERROR"@[0]);
    assert("FINISH"@[0] != "UNAUTH"@[0]);
}

/// What the receiving page says.
#[derive(Debug, Clone)]
pub struct Feedback {
    /// The number of the frame that it speaks of.
    pub seq: i64,
    /// Its state.
    pub status: Status,
    /// The digest of what it received.
    pub md5: String,
    /// The error, where there is one.
    pub err: String,
}

/// The same over sequences.
pub struct FeedbackView {
    /// The number of the frame that it speaks of.
    pub seq: i64,
    /// Its state.
    pub status: Status,
    /// The digest of what it received.
    pub md5: Seq<char>,
    /// The error, where there is one.
    pub err: Seq<char>,
}

impl View for Feedback {
    type V = FeedbackView;

    open spec fn view(&self) -> FeedbackView {
        FeedbackView { seq: self.seq, status: self.status, md5: self.md5@, err: self.err@ }
    }
}

// ---------------------------------------------------------------------------------------------
// Fields
// ---------------------------------------------------------------------------------------------

/// A key as it stands in the text.
pub open spec fn key_text(key: Seq<char>) -> Seq<char> {
    "\""@ + key + "\""@
}

/// Where a value ends: at the first comma or closing brace.
pub open spec fn value_end(s: Seq<char>) -> int {
    let a = position(s, ',');
    let b = position(s, '}');
    if a <= b {
        a
    } else {
        b
    }
}

/// The value after a key, as it stands in the text.
pub open spec fn field_of(json: Seq<char>, key: Seq<char>) -> Option<Seq<char>> {
    match found(json, key_text(key)) {
        None => None,
        Some(p) => {
            let rest = stripped_start(json.skip(p + key_text(key).len()), Strip::Space);
            if rest.len() == 0 || rest[0] != ':' {
                None
            } else {
                let value = stripped_start(rest.skip(1), Strip::Space);
                Some(trimmed(value.take(value_end(value))))
            }
        },
    }
}

proof fn lemma_start_is_tail(s: Seq<char>, k: Strip)
    ensures
        stripped_start(s, k).len() <= s.len(),
        stripped_start(s, k) == s.skip(s.len() - stripped_start(s, k).len()),
    decreases s.len(),
{
    if s.len() > 0 && k.takes(s[0]) {
        lemma_start_is_tail(s.skip(1), k);
        let t = stripped_start(s, k);
        assert(s.skip(1).skip(s.skip(1).len() - t.len()) =~= s.skip(s.len() - t.len()));
    } else {
        assert(s.skip(0) =~= s);
    }
}

proof fn lemma_end_is_head(s: Seq<char>, k: Strip)
    ensures
        stripped_end(s, k).len() <= s.len(),
        stripped_end(s, k) == s.take(stripped_end(s, k).len() as int),
    decreases s.len(),
{
    if s.len() > 0 && k.takes(s.last()) {
        lemma_end_is_head(s.drop_last(), k);
        let t = stripped_end(s, k);
        assert(s.drop_last().take(t.len() as int) =~= s.take(t.len() as int));
    } else {
        assert(s.take(s.len() as int) =~= s);
    }
}

/// Where the value after a key stands.
fn field_span(v: &[char], key: &str) -> (r: Option<(usize, usize)>)
    ensures
        match r {
            Some((a, b)) => a <= b <= v@.len() && field_of(v@, key@) == Some(
                v@.subrange(a as int, b as int),
            ),
            None => field_of(v@, key@) is None,
        },
{
    let mut pat_text = "\"".to_string();
    pat_text.append(key);
    pat_text.append("\"");
    let pat = chars_of(pat_text.as_str());
    let n = v.len();
    let p: usize = match find(v, pat.as_slice()) {
        Some(p) => p,
        None => {
            return None;
        },
    };
    proof {
        lemma_found(v@, pat@);
    }
    let after = slice_subrange(v, p + pat.len(), n);
    assert(after@ =~= v@.skip(p + pat@.len()));
    let rest = strip_start(after, Strip::Space);
    if rest.len() == 0 || rest[0] != ':' {
        return None;
    }
    let tail = slice_subrange(rest, 1, rest.len());
    assert(tail@ =~= rest@.skip(1));
    let value = strip_start(tail, Strip::Space);
    proof {
        lemma_start_is_tail(after@, Strip::Space);
        lemma_start_is_tail(tail@, Strip::Space);
        lemma_position(value@, ',');
        lemma_position(value@, '}');
    }
    let comma = find_char(value, ',');
    let brace = find_char(value, '}');
    let end: usize = if comma <= brace {
        comma
    } else {
        brace
    };
    let cut = slice_subrange(value, 0, end);
    assert(cut@ =~= value@.take(end as int));
    let begun = strip_start(cut, Strip::Space);
    let done = strip_end(begun, Strip::Space);
    proof {
        lemma_start_is_tail(cut@, Strip::Space);
        lemma_end_is_head(begun@, Strip::Space);
    }
    let a: usize = (n - value.len()) + (cut.len() - begun.len());
    let b: usize = a + done.len();
    proof {
        assert(value@ =~= v@.skip(n - value@.len()));
        assert(done@ =~= v@.subrange(a as int, b as int));
    }
    Some((a, b))
}

/// The value after a key, as it stands in the text: a string with its quotes, a number without. It ends at
/// the first comma or closing brace.
pub fn json_field<'a>(json: &'a str, key: &str) -> (r: Option<&'a str>)
    ensures
        match r {
            Some(t) => field_of(json@, key@) == Some(t@),
            None => field_of(json@, key@) is None,
        },
{
    let v = chars_of(json);
    match field_span(v.as_slice(), key) {
        Some((a, b)) => Some(json.substring_char(a, b)),
        None => None,
    }
}

// ---------------------------------------------------------------------------------------------
// Feedback
// ---------------------------------------------------------------------------------------------

/// A value without its quotes.
pub open spec fn unquoted(s: Seq<char>) -> Seq<char> {
    stripped(s, Strip::Only('"'))
}

/// What `parse_feedback` gives.
pub open spec fn feedback_of(json: Seq<char>) -> Option<FeedbackView> {
    match (field_of(json, "status"@), field_of(json, "seq"@), field_of(json, "md5"@)) {
        (Some(status), Some(seq), Some(md5)) => match (Status::named(unquoted(status)), parsed_i64(seq)) {
            (Some(status), Some(seq)) => Some(
                FeedbackView {
                    seq,
                    status,
                    md5: unquoted(md5),
                    err: match field_of(json, "err"@) {
                        Some(e) => unquoted(e),
                        None => Seq::empty(),
                    },
                },
            ),
            _ => None,
        },
        _ => None,
    }
}

fn unquote(s: &str) -> (r: String)
    ensures
        r@ == unquoted(s@),
{
    let v = chars_of(s);
    string_of(strip(v.as_slice(), Strip::Only('"')))
}

/// A result over sequences.
pub open spec fn maybe_feedback(r: Option<Feedback>) -> Option<FeedbackView> {
    match r {
        Some(f) => Some(f@),
        None => None,
    }
}

/// Reads what the receiving page says. The state, the number and the digest have to be there; an error
/// need not.
pub fn parse_feedback(json: &str) -> (r: Option<Feedback>)
    ensures
        maybe_feedback(r) == feedback_of(json@),
{
    let status = match json_field(json, "status") {
        Some(t) => unquote(t),
        None => {
            return None;
        },
    };
    let seq = match json_field(json, "seq") {
        Some(t) => chars_of(t),
        None => {
            return None;
        },
    };
    let md5 = match json_field(json, "md5") {
        Some(t) => unquote(t),
        None => {
            return None;
        },
    };
    let err = match json_field(json, "err") {
        Some(t) => unquote(t),
        None => String::new(),
    };
    match (Status::parse(status.as_str()), parse_i64(seq.as_slice())) {
        (Some(status), Some(seq)) => Some(Feedback { seq, status, md5, err }),
        _ => None,
    }
}

// ---------------------------------------------------------------------------------------------
// Codes
// ---------------------------------------------------------------------------------------------

/// Texts over sequences.
pub open spec fn code_texts(v: Seq<Option<String>>) -> Seq<Option<Seq<char>>> {
    v.map_values(
        |t: Option<String>|
            match t {
                Some(s) => Some(s@),
                None => None,
            },
    )
}

/// What the first of the texts that is feedback says.
pub open spec fn first_feedback_of(codes: Seq<Option<Seq<char>>>) -> Option<FeedbackView>
    decreases codes.len(),
{
    if codes.len() == 0 {
        None
    } else {
        match codes[0] {
            Some(t) if feedback_of(t) is Some => feedback_of(t),
            _ => first_feedback_of(codes.drop_first()),
        }
    }
}

/// What the first of the texts that is feedback says.
pub fn first_feedback(codes: &[Option<String>]) -> (r: Option<Feedback>)
    ensures
        maybe_feedback(r) == first_feedback_of(code_texts(codes@)),
{
    let ghost all = code_texts(codes@);
    let mut i: usize = 0;
    assert(all.skip(0) =~= all);
    while i < codes.len()
        invariant
            i <= codes@.len(),
            all == code_texts(codes@),
            first_feedback_of(all) == first_feedback_of(all.skip(i as int)),
        decreases codes.len() - i,
    {
        assert(all.skip(i as int).drop_first() =~= all.skip(i + 1));
        if let Some(t) = &codes[i] {
            let f = parse_feedback(t.as_str());
            if f.is_some() {
                return f;
            }
        }
        i += 1;
    }
    None
}

/// What came of capturing the screen.
pub enum Screenshot {
    /// It cannot be done on this platform.
    Unsupported,
    /// The capture failed with this message.
    Failed(String),
    /// The picture could not be read, with this message.
    Unreadable(String),
    /// The codes in the picture, in the order in which they were found: the text of each, or `None` where
    /// it could not be decoded.
    Codes(Vec<Option<String>>),
}

/// What the receiving page says on the screen: `None` if no code says anything.
pub fn read_feedback(shot: &Screenshot) -> (r: Result<Option<Feedback>, String>)
    ensures
        match shot {
            Screenshot::Unsupported => r matches Err(e) && e@ == "二维码反馈通道目前仅支持 macOS"@,
            Screenshot::Failed(m) => r matches Err(e) && e@ == m@,
            Screenshot::Unreadable(m) => r matches Err(e) && e@ == "二维码图片加载失败："@ + m@,
            Screenshot::Codes(v) => r matches Ok(f) && maybe_feedback(f) == first_feedback_of(
                code_texts(v@),
            ),
        },
{
    match shot {
        Screenshot::Unsupported => Err("二维码反馈通道目前仅支持 macOS".to_string()),
        Screenshot::Failed(m) => Err(m.as_str().to_string()),
        Screenshot::Unreadable(m) => {
            let mut e = "二维码图片加载失败：".to_string();
            e.append(m.as_str());
            Err(e)
        },
        Screenshot::Codes(v) => Ok(first_feedback(v.as_slice())),
    }
}

// ---------------------------------------------------------------------------------------------
// What the page says is read
// ---------------------------------------------------------------------------------------------

/// What the receiving page shows.
pub open spec fn page_text(f: FeedbackView) -> Seq<char> {
    "{\"seq\":"@ + dec_int(f.seq as int) + ",\"status\":\""@ + f.status.name() + "\",\"md5\":\""@ + f.md5
        + "\",\"err\":\""@ + f.err + "\"}"@
}

/// Whether a character can stand in an error: none that ends a value or a string.
pub open spec fn is_plain(c: char) -> bool {
    c != ',' && c != '}' && c != '"'
}

/// A key that is first found at a place, with a value after it.
proof fn lemma_field(json: Seq<char>, key: Seq<char>, n: int, to: int)
    requires
        key.len() >= 2,
        0 <= n,
        n + key.len() + 3 < to < json.len(),
        json[n] == '"',
        json.subrange(n + 1, n + 1 + key.len()) == key,
        json[n + 1 + key.len()] == '"',
        json[n + 2 + key.len()] == ':',
        forall|j: int|
            0 <= j < n ==> (#[trigger] json[j]) != '"' || json[j + 1] != key[0] || json[j + 2] != key[1],
        json[to] == ',' || json[to] == '}',
        forall|j: int|
            n + 3 + key.len() <= j < to ==> (#[trigger] json[j]) != ',' && json[j] != '}',
        !is_space(json[n + 3 + key.len()]),
        !is_space(json[to - 1]),
    ensures
        field_of(json, key) == Some(json.subrange(n + 3 + key.len(), to)),
{
    reveal_strlit("\"");
    let pat = key_text(key);
    let k = key.len() as int;
    assert(pat.len() == k + 2);
    assert(json.skip(n).take(k + 2) =~= pat) by {
        assert forall|t: int| 0 <= t < k + 2 implies json.skip(n).take(k + 2)[t] == pat[t] by {
            if 1 <= t <= k {
                assert(json.subrange(n + 1, n + 1 + k)[t - 1] == key[t - 1]);
            }
        }
    }
    assert forall|j: int| 0 <= j < n implies !starts(#[trigger] json.skip(j), pat) by {
        if starts(json.skip(j), pat) {
            let h = json.skip(j).take(k + 2);
            assert(h[0] == json[j] && h[1] == json[j + 1] && h[2] == json[j + 2]);
            assert(pat[0] == '"' && pat[1] == key[0] && pat[2] == key[1]);
        }
    }
    lemma_found_is(json, pat, n);
    let rest = json.skip(n + k + 2);
    assert(rest[0] == ':');
    assert(stripped_start(rest, Strip::Space) == rest);
    let value = rest.skip(1);
    assert(value =~= json.skip(n + k + 3));
    assert(value[0] == json[n + 3 + k]);
    assert(stripped_start(value, Strip::Space) == value);
    let m = to - (n + k + 3);
    assert forall|j: int| 0 <= j < m implies value[j] != ',' && value[j] != '}' by {
        assert(value[j] == json[n + k + 3 + j]);
    }
    assert(value[m] == json[to]);
    lemma_position(value, ',');
    lemma_position(value, '}');
    assert(value_end(value) == m) by {
        if json[to] == ',' {
            lemma_position_is(value, ',', m);
        } else {
            lemma_position_is(value, '}', m);
        }
    }
    let cut = value.take(m);
    assert(cut =~= json.subrange(n + 3 + k, to));
    assert(cut[0] == json[n + 3 + k]);
    assert(cut.last() == json[to - 1]);
}

/// A text in quotes, without the quotes.
proof fn lemma_unquoted(s: Seq<char>)
    requires
        forall|i: int| 0 <= i < s.len() ==> (#[trigger] s[i]) != '"',
    ensures
        unquoted(seq!['"'] + s + seq!['"']) == s,
{
    let q = seq!['"'] + s + seq!['"'];
    let k = Strip::Only('"');
    let a = s + seq!['"'];
    assert(q[0] == '"');
    assert(q.skip(1) =~= a);
    assert(stripped_start(q, k) == stripped_start(a, k));
    assert(a.last() == '"');
    assert(a.drop_last() =~= s);
    if s.len() > 0 {
        assert(a[0] == s[0]);
        assert(stripped_start(a, k) == a);
        assert(stripped_end(a, k) == stripped_end(s, k));
        assert(s.last() == s[s.len() - 1]);
    } else {
        assert(a[0] == '"');
        assert(a.skip(1) =~= s);
        assert(stripped_start(a, k) == stripped_start(s, k));
    }
}

/// Where the parts of a page begin: the number, the text after it, the state, and so on.
struct PageLayout {
    /// After the number.
    a: int,
    /// The state.
    b: int,
    /// After the state.
    c: int,
    /// The digest.
    d: int,
    /// After the digest.
    e: int,
    /// The error.
    f: int,
    /// After the error.
    g: int,
}

/// Whether the parts of a text stand where a layout says.
spec fn laid_out(j: Seq<char>, v: FeedbackView, l: PageLayout) -> bool {
    let num = dec_int(v.seq as int);
    &&& l.a == 7 + num.len()
    &&& l.b == l.a + 11
    &&& l.c == l.b + v.status.name().len()
    &&& l.d == l.c + 9
    &&& l.e == l.d + v.md5.len()
    &&& l.f == l.e + 9
    &&& l.g == l.f + v.err.len()
    &&& j.len() == l.g + 2
    &&& j.subrange(0, 7) == "{\"seq\":"@
    &&& j.subrange(7, l.a) == num
    &&& j.subrange(l.a, l.b) == ",\"status\":\""@
    &&& j.subrange(l.b, l.c) == v.status.name()
    &&& j.subrange(l.c, l.d) == "\",\"md5\":\""@
    &&& j.subrange(l.d, l.e) == v.md5
    &&& j.subrange(l.e, l.f) == "\",\"err\":\""@
    &&& j.subrange(l.f, l.g) == v.err
    &&& j.subrange(l.g, l.g + 2) == "\"}"@
}

proof fn lemma_laid_out(v: FeedbackView) -> (l: PageLayout)
    ensures
        laid_out(page_text(v), v, l),
{
    reveal_strlit("{\"seq\":");
    reveal_strlit(",\"status\":\"");
    reveal_strlit("\",\"md5\":\"");
    reveal_strlit("\",\"err\":\"");
    reveal_strlit("\"}");
    let num = dec_int(v.seq as int);
    let a = 7 + num.len() as int;
    let b = a + 11;
    let c = b + v.status.name().len();
    let d = c + 9;
    let e = d + v.md5.len();
    let f = e + 9;
    let g = f + v.err.len();
    let j = page_text(v);
    let j1 = "{\"seq\":"@ + num;
    let j2 = j1 + ",\"status\":\""@;
    let j3 = j2 + v.status.name();
    let j4 = j3 + "\",\"md5\":\""@;
    let j5 = j4 + v.md5;
    let j6 = j5 + "\",\"err\":\""@;
    let j7 = j6 + v.err;
    assert(j == j7 + "\"}"@);
    assert(j.subrange(0, 7) =~= "{\"seq\":"@);
    assert(j.subrange(7, a) =~= num);
    assert(j.subrange(a, b) =~= ",\"status\":\""@);
    assert(j.subrange(b, c) =~= v.status.name());
    assert(j.subrange(c, d) =~= "\",\"md5\":\""@);
    assert(j.subrange(d, e) =~= v.md5);
    assert(j.subrange(e, f) =~= "\",\"err\":\""@);
    assert(j.subrange(f, g) =~= v.err);
    assert(j.subrange(g, g + 2) =~= "\"}"@);
    PageLayout { a, b, c, d, e, f, g }
}

/// Which characters stand in each part of a page.
spec fn page_chars(j: Seq<char>, l: PageLayout) -> bool {
    &&& 7 < l.a && l.b == l.a + 11 && l.b < l.c && l.d == l.c + 9 && l.d <= l.e && l.f == l.e + 9 && l.f
        <= l.g && j.len() == l.g + 2
    &&& j[0] == '{' && j[1] == '"' && j[2] == 's' && j[3] == 'e' && j[4] == 'q' && j[5] == '"' && j[6]
        == ':'
    &&& j[l.a] == ',' && j[l.a + 1] == '"' && j[l.a + 2] == 's' && j[l.a + 3] == 't' && j[l.a + 4] == 'a'
        && j[l.a + 5] == 't' && j[l.a + 6] == 'u' && j[l.a + 7] == 's' && j[l.a + 8] == '"' && j[l.a + 9]
        == ':' && j[l.a + 10] == '"'
    &&& j[l.c] == '"' && j[l.c + 1] == ',' && j[l.c + 2] == '"' && j[l.c + 3] == 'm' && j[l.c + 4] == 'd'
        && j[l.c + 5] == '5' && j[l.c + 6] == '"' && j[l.c + 7] == ':' && j[l.c + 8] == '"'
    &&& j[l.e] == '"' && j[l.e + 1] == ',' && j[l.e + 2] == '"' && j[l.e + 3] == 'e' && j[l.e + 4] == 'r'
        && j[l.e + 5] == 'r' && j[l.e + 6] == '"' && j[l.e + 7] == ':' && j[l.e + 8] == '"'
    &&& j[l.g] == '"' && j[l.g + 1] == '}'
    &&& forall|i: int| 7 <= i < l.a ==> is_digit(#[trigger] j[i]) || j[i] == '-'
    &&& forall|i: int| l.b <= i < l.c ==> 'A' <= #[trigger] j[i] <= 'Z'
    &&& forall|i: int| l.d <= i < l.e ==> is_lower_hex(#[trigger] j[i])
    &&& forall|i: int| l.f <= i < l.g ==> is_plain(#[trigger] j[i])
}

proof fn lemma_page_chars(j: Seq<char>, v: FeedbackView, l: PageLayout)
    requires
        laid_out(j, v, l),
        forall|i: int| 0 <= i < v.md5.len() ==> is_lower_hex(#[trigger] v.md5[i]),
        forall|i: int| 0 <= i < v.err.len() ==> is_plain(#[trigger] v.err[i]),
    ensures
        page_chars(j, l),
{
    reveal_strlit("{\"seq\":");
    reveal_strlit(",\"status\":\"");
    reveal_strlit("\",\"md5\":\"");
    reveal_strlit("\",\"err\":\"");
    reveal_strlit("\"}");
    lemma_signed_chars(v.seq as int);
    lemma_name_chars(v.status);
    assert forall|i: int| 0 <= i < 7 implies j[i] == #[trigger] j.subrange(0, 7)[i] by {}
    assert forall|i: int| 0 <= i < 11 implies j[l.a + i] == #[trigger] j.subrange(l.a, l.b)[i] by {}
    assert forall|i: int| 0 <= i < 9 implies j[l.c + i] == #[trigger] j.subrange(l.c, l.d)[i] by {}
    assert forall|i: int| 0 <= i < 9 implies j[l.e + i] == #[trigger] j.subrange(l.e, l.f)[i] by {}
    assert forall|i: int| 0 <= i < 2 implies j[l.g + i] == #[trigger] j.subrange(l.g, l.g + 2)[i] by {}
    assert(j.subrange(0, 7)[0] == '{' && j.subrange(0, 7)[1] == '"' && j.subrange(0, 7)[2] == 's'
        && j.subrange(0, 7)[3] == 'e' && j.subrange(0, 7)[4] == 'q' && j.subrange(0, 7)[5] == '"'
        && j.subrange(0, 7)[6] == ':');
    let p = j.subrange(l.a, l.b);
    assert(p[0] == ',' && p[1] == '"' && p[2] == 's' && p[3] == 't' && p[4] == 'a' && p[5] == 't' && p[6]
        == 'u' && p[7] == 's' && p[8] == '"' && p[9] == ':' && p[10] == '"');
    let p = j.subrange(l.c, l.d);
    assert(p[0] == '"' && p[1] == ',' && p[2] == '"' && p[3] == 'm' && p[4] == 'd' && p[5] == '5' && p[6]
        == '"' && p[7] == ':' && p[8] == '"');
    let p = j.subrange(l.e, l.f);
    assert(p[0] == '"' && p[1] == ',' && p[2] == '"' && p[3] == 'e' && p[4] == 'r' && p[5] == 'r' && p[6]
        == '"' && p[7] == ':' && p[8] == '"');
    let p = j.subrange(l.g, l.g + 2);
    assert(p[0] == '"' && p[1] == '}');
    assert forall|i: int| 7 <= i < l.a implies is_digit(#[trigger] j[i]) || j[i] == '-' by {
        assert(j[i] == j.subrange(7, l.a)[i - 7]);
    }
    assert forall|i: int| l.b <= i < l.c implies 'A' <= #[trigger] j[i] <= 'Z' by {
        assert(j[i] == j.subrange(l.b, l.c)[i - l.b]);
    }
    assert forall|i: int| l.d <= i < l.e implies is_lower_hex(#[trigger] j[i]) by {
        assert(j[i] == j.subrange(l.d, l.e)[i - l.d]);
    }
    assert forall|i: int| l.f <= i < l.g implies is_plain(#[trigger] j[i]) by {
        assert(j[i] == j.subrange(l.f, l.g)[i - l.f]);
    }
}

/// The fields of a page, as they stand in it.
proof fn lemma_page_fields(j: Seq<char>, l: PageLayout)
    requires
        page_chars(j, l),
    ensures
        field_of(j, "seq"@) == Some(j.subrange(7, l.a)),
        field_of(j, "status"@) == Some(j.subrange(l.a + 10, l.c + 1)),
        field_of(j, "md5"@) == Some(j.subrange(l.c + 8, l.e + 1)),
        field_of(j, "err"@) == Some(j.subrange(l.e + 8, l.g + 1)),
{
    reveal_strlit("seq");
    reveal_strlit("status");
    reveal_strlit("md5");
    reveal_strlit("err");
    assert(j.subrange(2, 5) =~= "seq"@);
    assert(j.subrange(l.a + 2, l.a + 8) =~= "status"@);
    assert(j.subrange(l.c + 3, l.c + 6) =~= "md5"@);
    assert(j.subrange(l.e + 3, l.e + 6) =~= "err"@);
    lemma_field(j, "seq"@, 1, l.a);
    lemma_field(j, "status"@, l.a + 1, l.c + 1);
    lemma_field(j, "md5"@, l.c + 2, l.e + 1);
    lemma_field(j, "err"@, l.e + 2, l.g + 1);
}

/// What the receiving page shows is read as it was meant. The digest is hexadecimal, and the error has no
/// comma, closing brace or quote in it.
pub proof fn law_page_is_read(f: FeedbackView)
    requires
        forall|i: int| 0 <= i < f.md5.len() ==> is_lower_hex(#[trigger] f.md5[i]),
        forall|i: int| 0 <= i < f.err.len() ==> is_plain(#[trigger] f.err[i]),
    ensures
        feedback_of(page_text(f)) == Some(f),
{
    let j = page_text(f);
    let l = lemma_laid_out(f);
    let name = f.status.name();
    lemma_page_chars(j, f, l);
    lemma_page_fields(j, l);
    lemma_name_chars(f.status);
    assert(j.subrange(l.a + 10, l.c + 1) =~= seq!['"'] + name + seq!['"']) by {
        assert forall|i: int| 0 <= i < name.len() implies j[l.b + i] == #[trigger] name[i] by {
            assert(j.subrange(l.b, l.c)[i] == name[i]);
        }
    }
    assert(j.subrange(l.c + 8, l.e + 1) =~= seq!['"'] + f.md5 + seq!['"']) by {
        assert forall|i: int| 0 <= i < f.md5.len() implies j[l.d + i] == #[trigger] f.md5[i] by {
            assert(j.subrange(l.d, l.e)[i] == f.md5[i]);
        }
    }
    assert(j.subrange(l.e + 8, l.g + 1) =~= seq!['"'] + f.err + seq!['"']) by {
        assert forall|i: int| 0 <= i < f.err.len() implies j[l.f + i] == #[trigger] f.err[i] by {
            assert(j.subrange(l.f, l.g)[i] == f.err[i]);
        }
    }
    lemma_unquoted(name);
    lemma_unquoted(f.md5);
    lemma_unquoted(f.err);
    law_status_names(f.status);
    law_dec_int_parses(f.seq as int);
}

proof fn lemma_signed_chars(n: int)
    ensures
        dec_int(n).len() > 0,
        forall|i: int| 0 <= i < dec_int(n).len() ==> is_digit(#[trigger] dec_int(n)[i]) || dec_int(n)[i] == '-',
{
    let m: nat = if n < 0 {
        (-n) as nat
    } else {
        n as nat
    };
    lemma_dec(m);
    assert forall|i: int| 0 <= i < dec_int(n).len() implies is_digit(#[trigger] dec_int(n)[i]) || dec_int(
        n,
    )[i] == '-' by {
        if n < 0 {
            if i > 0 {
                assert(dec_int(n)[i] == dec(m)[i - 1]);
            }
        } else {
            assert(is_digit(dec(m)[i]));
        }
    }
}

proof fn lemma_name_chars(s: Status)
    ensures
        s.name().len() > 0,
        forall|i: int| 0 <= i < s.name().len() ==> 'A' <= #[trigger] s.name()[i] <= 'Z',
{
    reveal_strlit("READY");
    reveal_strlit("OK");
    reveal_strlit("RETRY");
    reveal_strlit("PAUSE");
    reveal_strlit("FINISH");
    reveal_strlit("ERROR");
    reveal_strlit("UNAUTH");
}

/// A value is what stands after its key and a colon, up to a comma, a closing brace or the end of the
/// text, without the white space between them.
pub proof fn law_value_stands_after_key(
    before: Seq<char>,
    key: Seq<char>,
    l: Seq<char>,
    m: Seq<char>,
    value: Seq<char>,
    r: Seq<char>,
    after: Seq<char>,
)
    requires
        !before.contains('"'),
        forall|i: int| 0 <= i < l.len() ==> is_space(#[trigger] l[i]),
        forall|i: int| 0 <= i < m.len() ==> is_space(#[trigger] m[i]),
        forall|i: int| 0 <= i < r.len() ==> is_space(#[trigger] r[i]),
        value.len() > 0,
        !is_space(value[0]) && !is_space(value.last()),
        forall|i: int| 0 <= i < value.len() ==> (#[trigger] value[i]) != ',' && value[i] != '}',
        after.len() == 0 || after[0] == ',' || after[0] == '}',
    ensures
        field_of(
            before + (seq!['"'] + key + seq!['"']) + (l + seq![':'] + m + value + r + after),
            key,
        ) == Some(value),
{
    reveal_strlit("\"");
    let pat = seq!['"'] + key + seq!['"'];
    assert(key_text(key) =~= pat);
    let tail = l + seq![':'] + m + value + r + after;
    let json = before + pat + tail;
    let n = before.len() as int;
    assert(json.skip(n).take(pat.len() as int) =~= pat);
    assert forall|j: int| 0 <= j < n implies !starts(#[trigger] json.skip(j), pat) by {
        if starts(json.skip(j), pat) {
            assert(json.skip(j).take(pat.len() as int)[0] == before[j]);
            assert(before.contains(before[j]));
        }
    }
    lemma_found_is(json, pat, n);
    assert(json.skip(n + pat.len()) =~= tail);
    let rest = seq![':'] + m + value + r + after;
    assert(tail =~= l + rest);
    lemma_stripped_start(l, rest, Strip::Space);
    assert(rest[0] == ':');
    let open = value + r + after;
    assert(rest.skip(1) =~= m + open);
    lemma_stripped_start(m, open, Strip::Space);
    assert(open[0] == value[0]);
    let end = (value + r).len() as int;
    assert forall|i: int| 0 <= i < end implies open[i] != ',' && open[i] != '}' by {
        if i < value.len() {
            assert(open[i] == value[i]);
        } else {
            assert(open[i] == r[i - value.len()]);
        }
    }
    lemma_position(open, ',');
    lemma_position(open, '}');
    assert(after.len() > 0 ==> open[end] == after[0]);
    assert(value_end(open) == end);
    assert(open.take(end) =~= Seq::<char>::empty() + value + r);
    law_trim_takes_the_ends(Seq::empty(), value, r, Strip::Space);
}

/// Of all the codes in a picture the first that can be read and says something counts, whatever comes
/// behind it; where there is none, nothing is said.
pub proof fn law_first_code_counts(codes: Seq<Option<Seq<char>>>, k: int)
    requires
        0 <= k <= codes.len(),
        forall|j: int| 0 <= j < k ==> ((#[trigger] codes[j]) matches Some(t) ==> feedback_of(t) is None),
        k < codes.len() ==> (codes[k] matches Some(t) && feedback_of(t) is Some),
    ensures
        k < codes.len() ==> first_feedback_of(codes) == feedback_of(codes[k]->0),
        k == codes.len() ==> first_feedback_of(codes) is None,
    decreases codes.len(),
{
    if codes.len() > 0 && k > 0 {
        let rest = codes.drop_first();
        assert(codes[0] matches Some(t) ==> feedback_of(t) is None);
        assert forall|j: int| 0 <= j < k - 1 implies ((#[trigger] rest[j]) matches Some(t) ==> feedback_of(
            t,
        ) is None) by {
            assert(rest[j] == codes[j + 1]);
        }
        law_first_code_counts(rest, k - 1);
    }
}

/// Nothing is said without a state that is known, a number and a digest, and what is said is what stands
/// in these fields. Where no error is given, there is none.
pub proof fn law_feedback_needs_its_fields(json: Seq<char>)
    ensures
        field_of(json, "status"@) is None || field_of(json, "seq"@) is None || field_of(json, "md5"@) is None
            ==> feedback_of(json) is None,
        feedback_of(json) matches Some(f) ==> {
            &&& field_of(json, "seq"@) matches Some(t) && parsed_i64(t) == Some(f.seq)
            &&& field_of(json, "status"@) matches Some(t) && Status::named(unquoted(t)) == Some(f.status)
            &&& field_of(json, "md5"@) matches Some(t) && unquoted(t) == f.md5
            &&& field_of(json, "err"@) is None ==> f.err.len() == 0
            &&& field_of(json, "err"@) matches Some(t) ==> unquoted(t) == f.err
        },
{
}

/// Only the name of a state is read as one, to the letter.
pub proof fn law_only_names_are_read(s: Seq<char>)
    ensures
        Status::named(s) matches Some(t) ==> s == t.name(),
{
}

/// The quotes round a value go, however many there are, and no others.
pub proof fn law_quotes_go(l: Seq<char>, s: Seq<char>, r: Seq<char>)
    requires
        forall|i: int| 0 <= i < l.len() ==> (#[trigger] l[i]) == '"',
        forall|i: int| 0 <= i < r.len() ==> (#[trigger] r[i]) == '"',
        s.len() > 0 ==> s[0] != '"' && s.last() != '"',
    ensures
        unquoted(l + s + r) == s,
{
    law_trim_takes_the_ends(l, s, r, Strip::Only('"'));
}

} // verus!
