//! Digests, file names, compression, and how text is laid out for typing.

use vstd::prelude::*;
use vstd::slice::slice_subrange;
use crate::config::DRY_RUN_PREVIEW;
use crate::text::{
    chars_of, dec, is_digit, law_trim_takes_the_ends, lemma_dec, push_dec, starts, string_of, strip,
    stripped, stripped_end, Strip,
};

verus! {

// ---------------------------------------------------------------------------------------------
// Digests
// ---------------------------------------------------------------------------------------------

/// The MD5 digest of the data, as 32 hexadecimal digits in lower case.
pub uninterp spec fn md5_hex(data: Seq<u8>) -> Seq<char>;

/// Whether a character is a hexadecimal digit in lower case.
pub open spec fn is_lower_hex(c: char) -> bool {
    '0' <= c <= '9' || 'a' <= c <= 'f'
}

/// Whether a text looks like an MD5 digest.
pub open spec fn digest_shaped(s: Seq<char>) -> bool {
    s.len() == 32 && forall|i: int| 0 <= i < s.len() ==> is_lower_hex(#[trigger] s[i])
}

/// `md5::Md5::digest`, written with `{:x}`: the MD5 digest of the data. Its 16 bytes give 32
/// hexadecimal digits in lower case.
#[verifier::external_body]
pub fn md5_of_bytes(data: &[u8]) -> (r: String)
    ensures
        r@ == md5_hex(data@),
        digest_shaped(r@),
{
    format!("{:x}", <md5::Md5 as md5::Digest>::digest(data))
}

// ---------------------------------------------------------------------------------------------
// File names
// ---------------------------------------------------------------------------------------------

/// Whether a character can stand in a file name as it is.
pub open spec fn is_safe(c: char) -> bool {
    'a' <= c <= 'z' || 'A' <= c <= 'Z' || '0' <= c <= '9' || c == '.' || c == '_' || c == '-'
}

/// The name with every other character replaced by `_`.
pub open spec fn masked(name: Seq<char>) -> Seq<char> {
    name.map_values(
        |c: char|
            if is_safe(c) {
                c
            } else {
                '_'
            },
    )
}

/// The longest file name that is kept.
pub const MAX_NAME: usize = 50;

/// What `sanitize_filename` gives.
pub open spec fn sanitized(name: Seq<char>) -> Seq<char> {
    let s = if stripped(masked(name), Strip::Only('_')).len() == 0 {
        "file"@
    } else {
        masked(name)
    };
    if s.len() > MAX_NAME {
        s.take(MAX_NAME as int)
    } else {
        s
    }
}

fn mask(name: &[char]) -> (r: Vec<char>)
    ensures
        r@ == masked(name@),
{
    let mut r: Vec<char> = Vec::new();
    let mut i: usize = 0;
    while i < name.len()
        invariant
            i <= name.len(),
            r@ == masked(name@).take(i as int),
        decreases name.len() - i,
    {
        let c = name[i];
        let safe = ('a' <= c && c <= 'z') || ('A' <= c && c <= 'Z') || ('0' <= c && c <= '9') || c == '.'
            || c == '_' || c == '-';
        r.push(
            if safe {
                c
            } else {
                '_'
            },
        );
        assert(r@ =~= masked(name@).take(i as int + 1));
        i += 1;
    }
    assert(masked(name@).take(name@.len() as int) =~= masked(name@));
    r
}

/// Cleans a file name: `a-zA-Z0-9._-` stay and the rest become `_`; a name of nothing but `_` becomes
/// `file`; the result is cut at 50 characters.
pub fn sanitize_filename(name: &str) -> (r: String)
    ensures
        r@ == sanitized(name@),
{
    let v = chars_of(name);
    let m = mask(v.as_slice());
    let bare = strip(m.as_slice(), Strip::Only('_'));
    if bare.len() == 0 {
        proof {
            reveal_strlit("file");
        }
        return "file".to_string();
    }
    if m.len() > MAX_NAME {
        let cut = slice_subrange(m.as_slice(), 0, MAX_NAME);
        assert(cut@ =~= m@.take(MAX_NAME as int));
        string_of(cut)
    } else {
        string_of(m.as_slice())
    }
}

/// A cleaned name is never empty, has at most 50 characters, and only those that a file name and a
/// shell command can hold as they are.
pub proof fn law_sanitized_is_safe(name: Seq<char>)
    ensures
        0 < sanitized(name).len() <= MAX_NAME,
        forall|i: int| 0 <= i < sanitized(name).len() ==> is_safe(#[trigger] sanitized(name)[i]),
{
    reveal_strlit("file");
    let m = masked(name);
    if m.len() == 0 {
        assert(stripped(m, Strip::Only('_')).len() == 0) by {
            crate::text::lemma_stripped_same(m, Strip::Only('_'));
        }
    }
}

// ---------------------------------------------------------------------------------------------
// Compression
// ---------------------------------------------------------------------------------------------

/// What gzip makes of the data at the default level.
pub uninterp spec fn gzip_stream(data: Seq<u8>) -> Seq<u8>;

/// What decompression reads out of a gzip stream.
pub uninterp spec fn gunzipped(stream: Seq<u8>) -> Option<Seq<u8>>;

/// `flate2::write::GzEncoder` at the default compression level, into a vector: `write_all` of the data,
/// then `finish`. It succeeds, as a vector takes all that is written to it. The stream depends on the data
/// alone (the header holds no time and no name), and decompressing it gives the data back.
#[verifier::external_body]
pub fn gzip_compress(data: &[u8]) -> (r: Result<Vec<u8>, String>)
    ensures
        r is Ok,
        r->Ok_0@ == gzip_stream(data@),
        gunzipped(r->Ok_0@) == Some(data@),
{
    let mut encoder = flate2::write::GzEncoder::new(Vec::new(), flate2::Compression::default());
    std::io::Write::write_all(&mut encoder, data).map_err(|e| e.to_string())?;
    encoder.finish().map_err(|e| e.to_string())
}

// ---------------------------------------------------------------------------------------------
// Layout
// ---------------------------------------------------------------------------------------------

/// The text broken into lines of `wrap` characters, with no line break at the end. With `wrap` zero
/// the text stays as it is.
pub open spec fn wrapped(text: Seq<char>, wrap: nat) -> Seq<char>
    decreases text.len(),
{
    if wrap == 0 || text.len() <= wrap {
        text
    } else {
        text.take(wrap as int) + seq!['\n'] + wrapped(text.skip(wrap as int), wrap)
    }
}

/// The characters to send for a text, in order: after every `wrap_every` of them comes a line break,
/// but none after the last. With `wrap_every` zero there is none.
pub fn type_text(text: &str, wrap_every: usize) -> (r: Vec<char>)
    ensures
        r@ == wrapped(text@, wrap_every as nat),
{
    let v = chars_of(text);
    lay_out(v.as_slice(), wrap_every)
}

fn lay_out(v: &[char], wrap: usize) -> (r: Vec<char>)
    ensures
        r@ == wrapped(v@, wrap as nat),
{
    let mut r: Vec<char> = Vec::new();
    let mut i: usize = 0;
    assert(v@.skip(0) =~= v@);
    while wrap > 0 && v.len() - i > wrap
        invariant
            i <= v.len(),
            r@ + wrapped(v@.skip(i as int), wrap as nat) == wrapped(v@, wrap as nat),
        decreases v.len() - i,
    {
        let ghost rest = v@.skip(i as int);
        let ghost before = r@;
        let line = slice_subrange(v, i, i + wrap);
        assert(line@ =~= rest.take(wrap as int));
        r.extend_from_slice(line);
        r.push('\n');
        i += wrap;
        proof {
            assert(rest.skip(wrap as int) =~= v@.skip(i as int));
            assert(r@ =~= before + rest.take(wrap as int) + seq!['\n']);
            assert(r@ + wrapped(v@.skip(i as int), wrap as nat) =~= before + wrapped(rest, wrap as nat));
        }
    }
    let tail = slice_subrange(v, i, v.len());
    assert(tail@ =~= v@.skip(i as int));
    r.extend_from_slice(tail);
    assert(r@ =~= wrapped(v@, wrap as nat));
    r
}

/// A text without its line breaks.
pub open spec fn unwrapped(text: Seq<char>) -> Seq<char> {
    text.filter(|c: char| c != '\n')
}

proof fn lemma_filter_all(text: Seq<char>)
    requires
        !text.contains('\n'),
    ensures
        unwrapped(text) == text,
    decreases text.len(),
{
    reveal(Seq::filter);
    if text.len() > 0 {
        assert(text.last() != '\n') by {
            assert(text.contains(text.last()));
        }
        assert forall|c: char| text.drop_last().contains(c) implies text.contains(c) by {
            let k = text.drop_last().index_of(c);
            assert(text[k] == c);
        }
        lemma_filter_all(text.drop_last());
        assert(text =~= text.drop_last().push(text.last()));
    }
}

/// Breaking a text into lines loses nothing: without the line breaks it is the text again.
pub proof fn law_wrap_keeps_text(text: Seq<char>, wrap: nat)
    requires
        !text.contains('\n'),
    ensures
        unwrapped(wrapped(text, wrap)) == text,
    decreases text.len(),
{
    if wrap == 0 || text.len() <= wrap {
        lemma_filter_all(text);
    } else {
        let p = |c: char| c != '\n';
        let head = text.take(wrap as int);
        let tail = text.skip(wrap as int);
        assert forall|c: char| head.contains(c) implies text.contains(c) by {
            let k = head.index_of(c);
            assert(text[k] == c);
        }
        assert forall|c: char| tail.contains(c) implies text.contains(c) by {
            let k = tail.index_of(c);
            assert(text[k + wrap] == c);
        }
        lemma_filter_all(head);
        law_wrap_keeps_text(tail, wrap);
        Seq::filter_distributes_over_add(head + seq!['\n'], wrapped(tail, wrap), p);
        Seq::filter_distributes_over_add(head, seq!['\n'], p);
        assert(seq!['\n'].filter(p) =~= Seq::<char>::empty()) by {
            reveal(Seq::filter);
            assert(seq!['\n'].drop_last() =~= Seq::<char>::empty());
        }
        assert(head + tail =~= text);
    }
}

/// What a dry run shows of a text: its first characters, laid out as they would be typed, and how
/// much is left out.
pub open spec fn preview(text: Seq<char>, wrap: nat) -> Seq<char> {
    if text.len() > DRY_RUN_PREVIEW {
        wrapped(text.take(DRY_RUN_PREVIEW as int), wrap) + "\n…（已截断，共 "@ + dec(text.len())
            + " 字符，剩余 "@ + dec((text.len() - DRY_RUN_PREVIEW) as nat) + " 字符）"@
    } else {
        wrapped(text, wrap)
    }
}

/// What a dry run shows of a text in place of typing it.
pub fn preview_text(text: &str, wrap_every: usize) -> (r: String)
    ensures
        r@ == preview(text@, wrap_every as nat),
{
    let v = chars_of(text);
    if v.len() > DRY_RUN_PREVIEW {
        let head = slice_subrange(v.as_slice(), 0, DRY_RUN_PREVIEW);
        assert(head@ =~= text@.take(DRY_RUN_PREVIEW as int));
        let shown = lay_out(head, wrap_every);
        let mut r = string_of(shown.as_slice());
        r.append("\n…（已截断，共 ");
        push_dec(&mut r, v.len() as u64);
        r.append(" 字符，剩余 ");
        push_dec(&mut r, (v.len() - DRY_RUN_PREVIEW) as u64);
        r.append(" 字符）");
        r
    } else {
        let shown = lay_out(v.as_slice(), wrap_every);
        string_of(shown.as_slice())
    }
}

// ---------------------------------------------------------------------------------------------
// Laws
// ---------------------------------------------------------------------------------------------

proof fn lemma_stripped_some(s: Seq<char>, k: Strip, j: int)
    requires
        0 <= j < s.len(),
        !k.takes(s[j]),
    ensures
        stripped(s, k).len() > 0,
    decreases s.len(),
{
    if k.takes(s[0]) {
        assert(s.skip(1)[j - 1] == s[j]);
        lemma_stripped_some(s.skip(1), k, j - 1);
    } else {
        lemma_stripped_end_some(s, k, j);
    }
}

proof fn lemma_stripped_end_some(s: Seq<char>, k: Strip, j: int)
    requires
        0 <= j < s.len(),
        !k.takes(s[j]),
    ensures
        stripped_end(s, k).len() > 0,
    decreases s.len(),
{
    if k.takes(s.last()) {
        assert(s.drop_last()[j] == s[j]);
        lemma_stripped_end_some(s.drop_last(), k, j);
    }
}

/// A cleaned name is the name, character for character: letters and digits of ASCII, dots, hyphens and
/// underscores stay where they are, any other character is an underscore, and what is behind the first
/// fifty goes. Only a name that would be all underscores is replaced as a whole.
pub proof fn law_sanitized_keeps_name(name: Seq<char>, j: int)
    requires
        0 <= j < name.len(),
        'a' <= name[j] <= 'z' || 'A' <= name[j] <= 'Z' || '0' <= name[j] <= '9' || name[j] == '.' || name[j]
            == '-',
    ensures
        sanitized(name).len() == (if name.len() > 50 {
            50
        } else {
            name.len()
        }),
        j < 50 ==> sanitized(name)[j] == name[j],
        forall|i: int|
            0 <= i < sanitized(name).len() ==> #[trigger] sanitized(name)[i] == name[i] || sanitized(name)[i]
                == '_',
        forall|i: int|
            0 <= i < sanitized(name).len() && (name[i] < '-' || name[i] == '/' || ':' <= name[i] <= '@'
                || '[' <= name[i] <= '`' || name[i] > 'z') ==> #[trigger] sanitized(name)[i] == '_',
{
    assert(masked(name)[j] == name[j]);
    lemma_stripped_some(masked(name), Strip::Only('_'), j);
}

/// Where the cleaned name has nothing to tell, the name is `file`.
pub proof fn law_blank_name_is_file(name: Seq<char>)
    requires
        forall|i: int| 0 <= i < name.len() ==> !is_safe(#[trigger] name[i]) || name[i] == '_',
    ensures
        sanitized(name) == seq!['f', 'i', 'l', 'e'],
{
    reveal_strlit("file");
    let m = masked(name);
    assert forall|i: int| 0 <= i < m.len() implies Strip::Only('_').takes(#[trigger] m[i]) by {
        assert(!is_safe(name[i]) || name[i] == '_');
    }
    law_trim_takes_the_ends(m, Seq::empty(), Seq::empty(), Strip::Only('_'));
    assert(m + Seq::<char>::empty() + Seq::<char>::empty() =~= m);
    assert("file"@ =~= seq!['f', 'i', 'l', 'e']);
}

/// A text is broken after every so many characters and nowhere else: each line but the last has that
/// length, and the last is not empty unless the text is.
pub proof fn law_lines_are_full(text: Seq<char>, wrap: nat)
    requires
        !text.contains('\n'),
        wrap > 0,
    ensures
        forall|i: int|
            0 <= i < wrapped(text, wrap).len() ==> (#[trigger] wrapped(text, wrap)[i] == '\n') == (i % (wrap + 1) as int
                == wrap),
        text.len() > 0 ==> wrapped(text, wrap).len() > 0 && wrapped(text, wrap).last() != '\n',
    decreases text.len(),
{
    let w = wrapped(text, wrap);
    assert forall|i: int| 0 <= i < text.len() implies text[i] != '\n' by {
        assert(text.contains(text[i]));
    }
    if text.len() <= wrap {
        assert forall|i: int| 0 <= i < w.len() implies (#[trigger] w[i] == '\n') == (i % (wrap + 1) as int == wrap) by {
            vstd::arithmetic::div_mod::lemma_small_mod(i as nat, wrap + 1);
        }
    } else {
        let head = text.take(wrap as int);
        let tail = text.skip(wrap as int);
        let rest = wrapped(tail, wrap);
        assert(!tail.contains('\n')) by {
            if tail.contains('\n') {
                let k = tail.index_of('\n');
                assert(text[k + wrap] == '\n');
            }
        }
        law_lines_are_full(tail, wrap);
        assert forall|i: int| 0 <= i < w.len() implies (#[trigger] w[i] == '\n') == (i % (wrap + 1) as int == wrap) by {
            if i <= wrap {
                vstd::arithmetic::div_mod::lemma_small_mod(i as nat, wrap + 1);
                if i < wrap {
                    assert(w[i] == text[i]);
                }
            } else {
                let k = i - (wrap + 1);
                assert(w[i] == rest[k]);
                vstd::arithmetic::div_mod::lemma_mod_add_multiples_vanish(k, (wrap + 1) as int);
            }
        }
        assert(w.last() == rest.last());
    }
}

/// A dry run shows a text of up to 500 characters as it would be typed, and of a longer one the first 500,
/// followed by a line that tells of the rest.
pub proof fn law_preview_is_the_beginning(text: Seq<char>, wrap: nat)
    ensures
        text.len() <= 500 ==> preview(text, wrap) == wrapped(text, wrap),
        text.len() > 500 ==> starts(preview(text, wrap), wrapped(text.take(500), wrap).push('\n'))
            && !preview(text, wrap).skip(wrapped(text.take(500), wrap).len() as int + 1).contains('\n'),
{
    if text.len() > 500 {
        reveal_strlit("\n…（已截断，共 ");
        reveal_strlit(" 字符，剩余 ");
        reveal_strlit(" 字符）");
        let head = wrapped(text.take(500), wrap);
        let p = preview(text, wrap);
        assert(p.take(head.len() as int + 1) =~= head.push('\n'));
        let a = "\n…（已截断，共 "@.skip(1);
        let b = dec(text.len());
        let c = " 字符，剩余 "@;
        let d = dec((text.len() - 500) as nat);
        let e = " 字符）"@;
        let tail = p.skip(head.len() as int + 1);
        assert(tail =~= a + b + c + d + e);
        lemma_dec(text.len());
        lemma_dec((text.len() - 500) as nat);
        assert forall|i: int| 0 <= i < tail.len() implies tail[i] != '\n' by {
            let ab = (a + b).len() as int;
            let abc = ab + c.len();
            if a.len() <= i < ab {
                assert(tail[i] == b[i - a.len()]);
                assert(is_digit(b[i - a.len()]));
            } else if ab <= i < abc {
                assert(tail[i] == c[i - ab]);
            } else if abc <= i < abc + d.len() {
                assert(tail[i] == d[i - abc]);
                assert(is_digit(d[i - abc]));
            } else if i >= abc + d.len() {
                assert(tail[i] == e[i - abc - d.len()]);
            }
        }
    }
}

} // verus!
