//! Reading the remote terminal off the screen: what recognised text stands for.
//!
//! Everything that is to be read is hexadecimal or a number, so that what recognition mixes up can be
//! put right; a digest that comes along decides whether it was.

use vstd::prelude::*;
use vstd::utf8::encode_utf8;
use crate::parts::{chunks, concat, law_parts_make_whole, lemma_chunk_of};
use crate::text::{
    chars_of, dec, dec_string, is_space, is_whitespace, law_dec_parses, parse_usize, parsed_usize, same_str,
    string_of, texts, trim, trimmed,
};
use crate::utils::{is_lower_hex, md5_hex, md5_of_bytes};

verus! {

// ---------------------------------------------------------------------------------------------
// Characters
// ---------------------------------------------------------------------------------------------

/// The hexadecimal digit that a recognised character stands for.
pub open spec fn hex_of(c: char) -> Option<char> {
    match c {
        '0'..='9' => Some(c),
        'a'..='f' => Some(c),
        'A' => Some('a'),
        'B' => Some('b'),
        'C' => Some('c'),
        'D' => Some('d'),
        'E' => Some('e'),
        'F' => Some('f'),
        'O' | 'o' | 'Ø' | '∅' | 'Q' => Some('0'),
        'l' | 'I' | '|' | 'i' | '!' | 'ı' | 'Í' => Some('1'),
        'Z' | 'z' | 'Ž' | 'ž' => Some('2'),
        'S' | 's' | 'Š' | 'š' | '$' => Some('5'),
        'ó' | 'ò' | 'õ' | 'ô' | 'ö' | 'ő' | 'G' => Some('6'),
        'g' | 'q' | 'ğ' => Some('9'),
        _ => None,
    }
}

/// The hexadecimal digit that a recognised character stands for: a digit itself, one that it is mixed
/// up with, or `None`.
pub fn hex_confusion(c: char) -> (r: Option<char>)
    ensures
        r == hex_of(c),
{
    match c {
        '0'..='9' => Some(c),
        'a'..='f' => Some(c),
        'A' => Some('a'),
        'B' => Some('b'),
        'C' => Some('c'),
        'D' => Some('d'),
        'E' => Some('e'),
        'F' => Some('f'),
        'O' | 'o' | 'Ø' | '∅' | 'Q' => Some('0'),
        'l' | 'I' | '|' | 'i' | '!' | 'ı' | 'Í' => Some('1'),
        'Z' | 'z' | 'Ž' | 'ž' => Some('2'),
        'S' | 's' | 'Š' | 'š' | '$' => Some('5'),
        'ó' | 'ò' | 'õ' | 'ô' | 'ö' | 'ő' | 'G' => Some('6'),
        'g' | 'q' | 'ğ' => Some('9'),
        _ => None,
    }
}

/// The decimal digit that a recognised character stands for.
pub open spec fn digit_of(c: char) -> Option<char> {
    match c {
        '0'..='9' => Some(c),
        'O' | 'o' | 'Ø' | '∅' | 'Q' => Some('0'),
        'l' | 'I' | '|' | 'i' | '!' | 'ı' => Some('1'),
        'Z' | 'z' => Some('2'),
        'S' | 's' | '$' => Some('5'),
        'ó' | 'ò' | 'õ' | 'ô' | 'ö' | 'G' => Some('6'),
        'g' | 'q' => Some('9'),
        _ => None,
    }
}

fn digit_confusion(c: char) -> (r: Option<char>)
    ensures
        r == digit_of(c),
{
    match c {
        '0'..='9' => Some(c),
        'O' | 'o' | 'Ø' | '∅' | 'Q' => Some('0'),
        'l' | 'I' | '|' | 'i' | '!' | 'ı' => Some('1'),
        'Z' | 'z' => Some('2'),
        'S' | 's' | '$' => Some('5'),
        'ó' | 'ò' | 'õ' | 'ô' | 'ö' | 'G' => Some('6'),
        'g' | 'q' => Some('9'),
        _ => None,
    }
}

/// The hexadecimal digits that a recognised text stands for.
pub open spec fn hex_text(s: Seq<char>) -> Seq<char>
    decreases s.len(),
{
    if s.len() == 0 {
        Seq::empty()
    } else {
        match hex_of(s.last()) {
            Some(c) => hex_text(s.drop_last()).push(c),
            None => hex_text(s.drop_last()),
        }
    }
}

/// The decimal digits that a recognised text stands for.
pub open spec fn digit_text(s: Seq<char>) -> Seq<char>
    decreases s.len(),
{
    if s.len() == 0 {
        Seq::empty()
    } else {
        match digit_of(s.last()) {
            Some(c) => digit_text(s.drop_last()).push(c),
            None => digit_text(s.drop_last()),
        }
    }
}

fn hex_chars(v: &[char]) -> (r: Vec<char>)
    ensures
        r@ == hex_text(v@),
{
    let mut r: Vec<char> = Vec::new();
    let mut i: usize = 0;
    while i < v.len()
        invariant
            i <= v@.len(),
            r@ == hex_text(v@.take(i as int)),
        decreases v.len() - i,
    {
        assert(v@.take(i + 1).drop_last() =~= v@.take(i as int));
        if let Some(c) = hex_confusion(v[i]) {
            r.push(c);
        }
        i += 1;
    }
    assert(v@.take(i as int) =~= v@);
    r
}

fn digit_chars(v: &[char]) -> (r: Vec<char>)
    ensures
        r@ == digit_text(v@),
{
    let mut r: Vec<char> = Vec::new();
    let mut i: usize = 0;
    while i < v.len()
        invariant
            i <= v@.len(),
            r@ == digit_text(v@.take(i as int)),
        decreases v.len() - i,
    {
        assert(v@.take(i + 1).drop_last() =~= v@.take(i as int));
        if let Some(c) = digit_confusion(v[i]) {
            r.push(c);
        }
        i += 1;
    }
    assert(v@.take(i as int) =~= v@);
    r
}

/// The hexadecimal digits that a recognised text stands for; the rest is dropped.
pub fn normalize_hex(s: &str) -> (r: String)
    ensures
        r@ == hex_text(s@),
{
    let v = chars_of(s);
    let h = hex_chars(v.as_slice());
    string_of(h.as_slice())
}

/// The decimal digits that a recognised text stands for; the rest is dropped.
pub fn normalize_digits(s: &str) -> (r: String)
    ensures
        r@ == digit_text(s@),
{
    let v = chars_of(s);
    let d = digit_chars(v.as_slice());
    string_of(d.as_slice())
}

/// The number of characters that are not white space.
pub open spec fn ink(s: Seq<char>) -> nat
    decreases s.len(),
{
    if s.len() == 0 {
        0
    } else {
        ink(s.drop_last()) + (if is_space(s.last()) {
            0nat
        } else {
            1
        })
    }
}

/// Whether a line looks like hexadecimal content: at least 70 percent of what is not white space stands
/// for digits.
pub open spec fn is_content(s: Seq<char>) -> bool {
    ink(s) > 0 && hex_text(s).len() * 10 >= ink(s) * 7
}

fn content_like(v: &[char]) -> (r: bool)
    ensures
        r == is_content(v@),
{
    let mut n: usize = 0;
    let mut i: usize = 0;
    while i < v.len()
        invariant
            i <= v@.len(),
            n <= i,
            n == ink(v@.take(i as int)),
        decreases v.len() - i,
    {
        assert(v@.take(i + 1).drop_last() =~= v@.take(i as int));
        if !is_whitespace(v[i]) {
            n += 1;
        }
        i += 1;
    }
    assert(v@.take(i as int) =~= v@);
    let kept = hex_chars(v);
    n > 0 && (kept.len() as u128) * 10 >= (n as u128) * 7
}

/// Whether a line looks like hexadecimal content. The echo of a command or a prompt does not, with its
/// punctuation and its other letters; a few characters that were not recognised are tolerated.
pub fn is_hex_content_line(s: &str) -> (r: bool)
    ensures
        r == is_content(s@),
{
    let v = chars_of(s);
    content_like(v.as_slice())
}

// ---------------------------------------------------------------------------------------------
// Rows
// ---------------------------------------------------------------------------------------------

/// The lines without white space around them, and without those that are then empty.
pub open spec fn rows(lines: Seq<Seq<char>>) -> Seq<Seq<char>>
    decreases lines.len(),
{
    if lines.len() == 0 {
        Seq::empty()
    } else {
        let t = trimmed(lines.last());
        if t.len() == 0 {
            rows(lines.drop_last())
        } else {
            rows(lines.drop_last()).push(t)
        }
    }
}

/// Rows as sequences.
pub open spec fn row_texts(v: Seq<Vec<char>>) -> Seq<Seq<char>> {
    v.map_values(|r: Vec<char>| r@)
}

fn rows_of(lines: &[String]) -> (r: Vec<Vec<char>>)
    ensures
        row_texts(r@) == rows(texts(lines@)),
{
    let mut r: Vec<Vec<char>> = Vec::new();
    let mut i: usize = 0;
    assert(row_texts(r@) =~= rows(texts(lines@).take(0)));
    while i < lines.len()
        invariant
            i <= lines@.len(),
            row_texts(r@) == rows(texts(lines@).take(i as int)),
        decreases lines.len() - i,
    {
        let ghost before = row_texts(r@);
        proof {
            let t = texts(lines@).take(i + 1);
            assert(t.drop_last() =~= texts(lines@).take(i as int));
            assert(t.last() == lines@[i as int]@);
        }
        let v = chars_of(lines[i].as_str());
        let t = trim(v.as_slice());
        if t.len() > 0 {
            let mut row: Vec<char> = Vec::new();
            row.extend_from_slice(t);
            assert(row@ =~= t@);
            r.push(row);
            assert(row_texts(r@) =~= before.push(t@));
        }
        i += 1;
    }
    assert(texts(lines@).take(i as int) =~= texts(lines@));
    r
}

/// Whether a row stands for 32 hexadecimal digits, as an MD5 digest does.
pub open spec fn is_digest_row(s: Seq<char>) -> bool {
    hex_text(s).len() == 32
}

// ---------------------------------------------------------------------------------------------
// A chunk of a file
// ---------------------------------------------------------------------------------------------

/// The digits of the content rows directly above row `i`.
pub open spec fn content_above(rows: Seq<Seq<char>>, i: int) -> Seq<char>
    decreases i,
{
    if i <= 0 || !is_content(rows[i - 1]) {
        Seq::empty()
    } else {
        content_above(rows, i - 1) + hex_text(rows[i - 1])
    }
}

/// The lowest of the first `n` rows that stands for a digest and has content above it, with that
/// content.
pub open spec fn chunk_in(rows: Seq<Seq<char>>, n: int) -> Option<(Seq<char>, Seq<char>)>
    decreases n,
{
    if n <= 1 {
        None
    } else if is_digest_row(rows[n - 1]) && content_above(rows, n - 1).len() > 0 {
        Some((content_above(rows, n - 1), hex_text(rows[n - 1])))
    } else {
        chunk_in(rows, n - 1)
    }
}

/// What `parse_hex_chunk` gives.
pub open spec fn hex_chunk_of(lines: Seq<Seq<char>>) -> Option<(Seq<char>, Seq<char>)> {
    chunk_in(rows(lines), rows(lines).len() as int)
}

fn gather_above(v: &[Vec<char>], i: usize) -> (r: Vec<char>)
    requires
        i <= v@.len(),
    ensures
        r@ == content_above(row_texts(v@), i as int),
{
    let ghost all = row_texts(v@);
    let mut j: usize = i;
    while j > 0 && content_like(v[j - 1].as_slice())
        invariant
            j <= i <= v@.len(),
            all == row_texts(v@),
            forall|k: int| j <= k < i ==> is_content(#[trigger] all[k]),
        ensures
            j <= i <= v@.len(),
            forall|k: int| j <= k < i ==> is_content(#[trigger] all[k]),
            j == 0 || !is_content(all[j - 1]),
        decreases j,
    {
        j -= 1;
    }
    let mut r: Vec<char> = Vec::new();
    while j < i
        invariant
            j <= i <= v@.len(),
            all == row_texts(v@),
            forall|k: int| j <= k < i ==> is_content(#[trigger] all[k]),
            r@ == content_above(all, j as int),
        decreases i - j,
    {
        let h = hex_chars(v[j].as_slice());
        r.extend_from_slice(h.as_slice());
        assert(is_content(all[j as int]));
        assert(r@ =~= content_above(all, j + 1));
        j += 1;
    }
    r
}

/// Reads a chunk off the screen: its hexadecimal digits and the digest below them. The terminal breaks
/// long lines, and puts a prompt after the output. So the lowest row of 32 digits is the digest, and all
/// content rows directly above it make up the chunk.
pub fn parse_hex_chunk(lines: &[String]) -> (r: Option<(String, String)>)
    ensures
        match r {
            Some((hex, md5)) => hex_chunk_of(texts(lines@)) == Some((hex@, md5@)),
            None => hex_chunk_of(texts(lines@)) is None,
        },
{
    let v = rows_of(lines);
    let ghost all = row_texts(v@);
    let mut n: usize = v.len();
    while n > 1
        invariant
            n <= v@.len(),
            all == row_texts(v@),
            all == rows(texts(lines@)),
            hex_chunk_of(texts(lines@)) == chunk_in(all, n as int),
        decreases n,
    {
        let md5 = hex_chars(v[n - 1].as_slice());
        if md5.len() == 32 {
            let content = gather_above(v.as_slice(), n - 1);
            if content.len() > 0 {
                return Some((string_of(content.as_slice()), string_of(md5.as_slice())));
            }
        }
        n -= 1;
    }
    None
}

// ---------------------------------------------------------------------------------------------
// Size and digest of a file
// ---------------------------------------------------------------------------------------------

/// What stands at a place on the screen where a size and two digests can be.
pub enum InfoView {
    /// No two rows of 32 digits, one above the other.
    Nothing,
    /// Two such rows, with no number above them.
    NoSize,
    /// A number and two digests: where the lower one stands, and what they are.
    Info(int, usize, Seq<char>, Seq<char>),
}

/// The lowest of the first `n` rows that stands for a digest and has another one above it and a row above
/// that.
pub open spec fn info_in(rows: Seq<Seq<char>>, n: int) -> InfoView
    decreases n,
{
    if n <= 2 {
        InfoView::Nothing
    } else if is_digest_row(rows[n - 1]) && is_digest_row(rows[n - 2]) {
        match parsed_usize(digit_text(rows[n - 3])) {
            None => InfoView::NoSize,
            Some(size) => InfoView::Info(n - 1, size, hex_text(rows[n - 2]), hex_text(rows[n - 1])),
        }
    } else {
        info_in(rows, n - 1)
    }
}

/// What stands at a place on the screen where a size and two digests can be.
#[derive(Debug, Clone, PartialEq, Eq)]
pub enum FileInfo {
    /// No two rows of 32 digits, one above the other.
    Nothing,
    /// Two such rows, with no number above them.
    NoSize,
    /// A number and two digests.
    Info {
        /// The row of the lower digest.
        at: usize,
        /// The number.
        size: usize,
        /// The upper digest.
        file_md5: String,
        /// The lower digest.
        checksum: String,
    },
}

impl View for FileInfo {
    type V = InfoView;

    open spec fn view(&self) -> InfoView {
        match self {
            FileInfo::Nothing => InfoView::Nothing,
            FileInfo::NoSize => InfoView::NoSize,
            FileInfo::Info { at, size, file_md5, checksum } => InfoView::Info(
                *at as int,
                *size,
                file_md5@,
                checksum@,
            ),
        }
    }
}

/// The lowest place, among the first `n` rows, where a size and two digests stand.
pub fn find_file_info(rows: &[Vec<char>], n: usize) -> (r: FileInfo)
    requires
        n <= rows@.len(),
    ensures
        r@ == info_in(row_texts(rows@), n as int),
        r matches FileInfo::Info { at, .. } ==> 2 <= at < n,
{
    let ghost all = row_texts(rows@);
    let mut k: usize = n;
    while k > 2
        invariant
            k <= n <= rows@.len(),
            all == row_texts(rows@),
            info_in(all, n as int) == info_in(all, k as int),
        decreases k,
    {
        let checksum = hex_chars(rows[k - 1].as_slice());
        if checksum.len() == 32 {
            let file_md5 = hex_chars(rows[k - 2].as_slice());
            if file_md5.len() == 32 {
                let digits = digit_chars(rows[k - 3].as_slice());
                return match parse_usize(digits.as_slice()) {
                    None => FileInfo::NoSize,
                    Some(size) => FileInfo::Info {
                        at: k - 1,
                        size,
                        file_md5: string_of(file_md5.as_slice()),
                        checksum: string_of(checksum.as_slice()),
                    },
                };
            }
        }
        k -= 1;
    }
    FileInfo::Nothing
}

/// The digest of a size and a digest.
pub open spec fn seal(size: usize, file_md5: Seq<char>) -> Seq<char> {
    md5_hex(encode_utf8(dec(size as nat) + file_md5))
}

/// The lowest place, among the first `n` rows, where a size and two digests stand of which the second is
/// the digest of the first two. A place without a size ends the search.
pub open spec fn sealed_in(rows: Seq<Seq<char>>, n: int) -> Option<(usize, Seq<char>)>
    decreases n,
{
    match info_in(rows, n) {
        InfoView::Info(at, size, file_md5, checksum) => if seal(size, file_md5) == checksum {
            Some((size, file_md5))
        } else if 0 <= at < n {
            sealed_in(rows, at)
        } else {
            None
        },
        _ => None,
    }
}

/// What `parse_file_info` gives.
pub open spec fn file_info_of(lines: Seq<Seq<char>>) -> Option<(usize, Seq<char>)> {
    sealed_in(rows(lines), rows(lines).len() as int)
}

/// Reads the size and the digest of a file off the screen. They stand on three rows: the size, the
/// digest, and the digest of the two, which has to be right.
pub fn parse_file_info(lines: &[String]) -> (r: Option<(usize, String)>)
    ensures
        match r {
            Some((size, md5)) => file_info_of(texts(lines@)) == Some((size, md5@)),
            None => file_info_of(texts(lines@)) is None,
        },
{
    let v = rows_of(lines);
    let ghost all = row_texts(v@);
    let mut n: usize = v.len();
    loop
        invariant
            n <= v@.len(),
            all == row_texts(v@),
            all == rows(texts(lines@)),
            file_info_of(texts(lines@)) == sealed_in(all, n as int),
        decreases n,
    {
        match find_file_info(v.as_slice(), n) {
            FileInfo::Info { at, size, file_md5, checksum } => {
                let mut t = dec_string(size as u64);
                t.append(file_md5.as_str());
                let expected = md5_of_bytes(t.as_str().as_bytes());
                if same_str(expected.as_str(), checksum.as_str()) {
                    return Some((size, file_md5));
                }
                n = at;
            },
            _ => {
                return None;
            },
        }
    }
}

// ---------------------------------------------------------------------------------------------
// What is shown is read
// ---------------------------------------------------------------------------------------------

/// How a terminal shows digits: as they are, or with a space between each two.
pub open spec fn shown(s: Seq<char>, spaced: bool) -> Seq<char>
    decreases s.len(),
{
    if !spaced || s.len() <= 1 {
        s
    } else {
        shown(s.drop_last(), spaced).push(' ').push(s.last())
    }
}

/// Whether a text is made of hexadecimal digits in lower case.
pub open spec fn is_hex(s: Seq<char>) -> bool {
    forall|i: int| 0 <= i < s.len() ==> is_lower_hex(#[trigger] s[i])
}

/// Digits that are shown are read, and look like content.
pub proof fn law_shown_digits_are_read(s: Seq<char>, spaced: bool)
    requires
        is_hex(s),
    ensures
        hex_text(shown(s, spaced)) == s,
        ink(shown(s, spaced)) == s.len(),
        s.len() > 0 ==> is_content(shown(s, spaced)),
    decreases s.len(),
{
    let t = shown(s, spaced);
    if s.len() == 0 {
        assert(hex_text(t) =~= s);
    } else {
        let init = s.drop_last();
        assert(is_lower_hex(s[s.len() - 1]));
        assert(is_hex(init)) by {
            assert forall|i: int| 0 <= i < init.len() implies is_lower_hex(#[trigger] init[i]) by {
                assert(init[i] == s[i]);
            }
        }
        law_shown_digits_are_read(init, spaced);
        assert(s =~= init.push(s.last()));
        if spaced && s.len() > 1 {
            let u = shown(init, spaced).push(' ');
            assert(t.drop_last() =~= u);
            assert(u.drop_last() =~= shown(init, spaced));
            assert(hex_text(u) == hex_text(shown(init, spaced)));
            assert(ink(u) == ink(shown(init, spaced)));
        } else {
            assert(t.drop_last() =~= init);
            assert(shown(init, spaced) =~= init);
        }
    }
}

/// The texts of rows, one after the other, as digits.
pub open spec fn digits_of(rows: Seq<Seq<char>>) -> Seq<char>
    decreases rows.len(),
{
    if rows.len() == 0 {
        Seq::empty()
    } else {
        digits_of(rows.drop_last()) + hex_text(rows.last())
    }
}

proof fn lemma_content_above(all: Seq<Seq<char>>, from: int, to: int)
    requires
        0 <= from <= to <= all.len(),
        from == 0 || !is_content(all[from - 1]),
        forall|k: int| from <= k < to ==> is_content(#[trigger] all[k]),
    ensures
        content_above(all, to) == digits_of(all.subrange(from, to)),
    decreases to - from,
{
    let part = all.subrange(from, to);
    if from < to {
        lemma_content_above(all, from, to - 1);
        assert(is_content(all[to - 1]));
        assert(part.drop_last() =~= all.subrange(from, to - 1));
        assert(part.last() == all[to - 1]);
    }
}

proof fn lemma_chunk_below(all: Seq<Seq<char>>, n: int, m: int)
    requires
        0 <= n <= m <= all.len(),
        forall|k: int| n <= k < m ==> !is_digest_row(#[trigger] all[k]),
    ensures
        n >= 2 ==> chunk_in(all, m) == chunk_in(all, n),
        n >= 2 ==> info_in(all, m) == info_in(all, n),
    decreases m - n,
{
    if n < m {
        assert(!is_digest_row(all[m - 1]));
        lemma_chunk_below(all, n, m - 1);
    }
}

/// A chunk that is shown is read: its rows, a row with a digest, and whatever comes below that looks like
/// no digest. What is above the rows must not look like content.
pub proof fn law_shown_chunk_is_read(
    lines: Seq<Seq<char>>,
    above: Seq<Seq<char>>,
    content: Seq<Seq<char>>,
    digest: Seq<char>,
    below: Seq<Seq<char>>,
)
    requires
        rows(lines) == above + content + seq![digest] + below,
        above.len() == 0 || !is_content(above.last()),
        content.len() > 0,
        forall|k: int| 0 <= k < content.len() ==> is_content(#[trigger] content[k]),
        digits_of(content).len() > 0,
        is_digest_row(digest),
        forall|k: int| 0 <= k < below.len() ==> !is_digest_row(#[trigger] below[k]),
    ensures
        hex_chunk_of(lines) == Some((digits_of(content), hex_text(digest))),
{
    let all = rows(lines);
    let from = above.len() as int;
    let at = from + content.len();
    assert(all[at] == digest);
    assert forall|k: int| at + 1 <= k < all.len() implies !is_digest_row(#[trigger] all[k]) by {
        assert(all[k] == below[k - at - 1]);
    }
    lemma_chunk_below(all, at + 1, all.len() as int);
    assert forall|k: int| from <= k < at implies is_content(#[trigger] all[k]) by {
        assert(all[k] == content[k - from]);
    }
    if from > 0 {
        assert(all[from - 1] == above.last());
    }
    lemma_content_above(all, from, at);
    assert(all.subrange(from, at) =~= content);
}

proof fn lemma_digits_of_shown(parts: Seq<Seq<char>>, spaced: bool)
    requires
        forall|k: int| 0 <= k < parts.len() ==> is_hex(#[trigger] parts[k]),
    ensures
        digits_of(parts.map_values(|p: Seq<char>| shown(p, spaced))) == concat(parts),
    decreases parts.len(),
{
    let v = parts.map_values(|p: Seq<char>| shown(p, spaced));
    if parts.len() > 0 {
        let init = parts.drop_last();
        assert forall|k: int| 0 <= k < init.len() implies is_hex(#[trigger] init[k]) by {
            assert(init[k] == parts[k]);
        }
        lemma_digits_of_shown(init, spaced);
        assert(v.drop_last() =~= init.map_values(|p: Seq<char>| shown(p, spaced)));
        assert(is_hex(parts[parts.len() - 1]));
        law_shown_digits_are_read(parts.last(), spaced);
        lemma_concat_last(parts);
    }
}

proof fn lemma_concat_last(parts: Seq<Seq<char>>)
    requires
        parts.len() > 0,
    ensures
        concat(parts) == concat(parts.drop_last()) + parts.last(),
    decreases parts.len(),
{
    if parts.len() == 1 {
        assert(parts.drop_first() =~= Seq::empty());
        assert(parts.drop_last() =~= Seq::empty());
        assert(concat(parts) =~= concat(parts.drop_last()) + parts.last());
    } else {
        lemma_concat_last(parts.drop_first());
        assert(parts.drop_first().drop_last() =~= parts.drop_last().drop_first());
        assert(concat(parts) =~= concat(parts.drop_last()) + parts.last());
    }
}

/// The rows of a chunk: so many digits on each, with or without spaces.
pub open spec fn chunk_rows(hex: Seq<char>, width: nat, spaced: bool) -> Seq<Seq<char>> {
    chunks(hex, width).map_values(|p: Seq<char>| shown(p, spaced))
}

/// Hexadecimal content of any length, broken into rows of any width, with or without spaces, is read
/// back as it was, together with its digest.
pub proof fn law_hex_is_read_back(
    lines: Seq<Seq<char>>,
    above: Seq<Seq<char>>,
    hex: Seq<char>,
    width: nat,
    spaced: bool,
    digest: Seq<char>,
    below: Seq<Seq<char>>,
)
    requires
        is_hex(hex),
        hex.len() > 0,
        width > 0,
        is_hex(digest),
        digest.len() == 32,
        rows(lines) == above + chunk_rows(hex, width, spaced) + seq![shown(digest, spaced)] + below,
        above.len() == 0 || !is_content(above.last()),
        forall|k: int| 0 <= k < below.len() ==> !is_digest_row(#[trigger] below[k]),
    ensures
        hex_chunk_of(lines) == Some((hex, digest)),
{
    let parts = chunks(hex, width);
    let content = chunk_rows(hex, width, spaced);
    law_parts_make_whole(hex, width);
    assert forall|k: int| 0 <= k < parts.len() implies is_hex(#[trigger] parts[k]) by {
        lemma_chunk_of(hex, width, k);
        assert forall|j: int| 0 <= j < parts[k].len() implies is_lower_hex(#[trigger] parts[k][j]) by {
            assert(parts[k][j] == hex[k * width + j]);
        }
    }
    assert forall|k: int| 0 <= k < content.len() implies is_content(#[trigger] content[k]) by {
        assert(is_hex(parts[k]));
        law_shown_digits_are_read(parts[k], spaced);
    }
    lemma_digits_of_shown(parts, spaced);
    law_shown_digits_are_read(digest, spaced);
    law_shown_chunk_is_read(lines, above, content, shown(digest, spaced), below);
}

/// A size and a digest that are shown are read: on three rows, the third of which stands for the digest
/// of the first two, with whatever comes below that looks like no digest.
pub proof fn law_shown_info_is_read(
    lines: Seq<Seq<char>>,
    above: Seq<Seq<char>>,
    size_row: Seq<char>,
    digest_row: Seq<char>,
    seal_row: Seq<char>,
    below: Seq<Seq<char>>,
    size: usize,
)
    requires
        rows(lines) == above + seq![size_row, digest_row, seal_row] + below,
        digit_text(size_row) == dec(size as nat),
        is_digest_row(digest_row),
        is_digest_row(seal_row),
        hex_text(seal_row) == seal(size, hex_text(digest_row)),
        forall|k: int| 0 <= k < below.len() ==> !is_digest_row(#[trigger] below[k]),
    ensures
        file_info_of(lines) == Some((size, hex_text(digest_row))),
{
    let all = rows(lines);
    let at = above.len() as int + 2;
    assert(all[at] == seal_row);
    assert(all[at - 1] == digest_row);
    assert(all[at - 2] == size_row);
    assert forall|k: int| at + 1 <= k < all.len() implies !is_digest_row(#[trigger] all[k]) by {
        assert(all[k] == below[k - at - 1]);
    }
    lemma_chunk_below(all, at + 1, all.len() as int);
    law_dec_parses(size as nat);
}

// ---------------------------------------------------------------------------------------------
// What is taken for what
// ---------------------------------------------------------------------------------------------

/// Which characters are taken for which digit: the digit itself, a letter in either case, and what looks
/// like it. No other character is taken for a digit.
pub proof fn law_lookalikes(c: char)
    ensures
        hex_of(c) == Some('0') <==> seq!['0', 'O', 'o', 'Ø', '∅', 'Q'].contains(c),
        hex_of(c) == Some('1') <==> seq!['1', 'l', 'I', '|', 'i', '!', 'ı', 'Í'].contains(c),
        hex_of(c) == Some('2') <==> seq!['2', 'Z', 'z', 'Ž', 'ž'].contains(c),
        hex_of(c) == Some('5') <==> seq!['5', 'S', 's', 'Š', 'š', '$'].contains(c),
        hex_of(c) == Some('6') <==> seq!['6', 'ó', 'ò', 'õ', 'ô', 'ö', 'ő', 'G'].contains(c),
        hex_of(c) == Some('9') <==> seq!['9', 'g', 'q', 'ğ'].contains(c),
        hex_of(c) == Some('3') <==> c == '3',
        hex_of(c) == Some('4') <==> c == '4',
        hex_of(c) == Some('7') <==> c == '7',
        hex_of(c) == Some('8') <==> c == '8',
        hex_of(c) == Some('a') <==> c == 'a' || c == 'A',
        hex_of(c) == Some('b') <==> c == 'b' || c == 'B',
        hex_of(c) == Some('c') <==> c == 'c' || c == 'C',
        hex_of(c) == Some('d') <==> c == 'd' || c == 'D',
        hex_of(c) == Some('e') <==> c == 'e' || c == 'E',
        hex_of(c) == Some('f') <==> c == 'f' || c == 'F',
        hex_of(c) matches Some(d) ==> is_lower_hex(d),
{
    lemma_among(seq!['0', 'O', 'o', 'Ø', '∅', 'Q'], c);
    lemma_among(seq!['1', 'l', 'I', '|', 'i', '!', 'ı', 'Í'], c);
    lemma_among(seq!['2', 'Z', 'z', 'Ž', 'ž'], c);
    lemma_among(seq!['5', 'S', 's', 'Š', 'š', '$'], c);
    lemma_among(seq!['6', 'ó', 'ò', 'õ', 'ô', 'ö', 'ő', 'G'], c);
    lemma_among(seq!['9', 'g', 'q', 'ğ'], c);
}

/// Whether a character is one of at most eight.
proof fn lemma_among(v: Seq<char>, c: char)
    requires
        0 < v.len() <= 8,
    ensures
        v.contains(c) <==> v[0] == c || (v.len() > 1 && v[1] == c) || (v.len() > 2 && v[2] == c) || (v.len() > 3
            && v[3] == c) || (v.len() > 4 && v[4] == c) || (v.len() > 5 && v[5] == c) || (v.len() > 6 && v[6]
            == c) || (v.len() > 7 && v[7] == c),
{
    if v.contains(c) {
        let i = v.index_of(c);
        assert(v[i] == c);
        assert(i == 0 || i == 1 || i == 2 || i == 3 || i == 4 || i == 5 || i == 6 || i == 7);
    }
}

/// In a number a character is taken for the same digit as elsewhere, but for seven accented letters, which
/// are passed over there. Letters that are digits by themselves are none in a number.
pub proof fn law_numbers_are_taken_alike(c: char)
    ensures
        digit_of(c) matches Some(d) ==> '0' <= d <= '9' && hex_of(c) == Some(d),
        seq!['Í', 'Ž', 'ž', 'Š', 'š', 'ő', 'ğ'].contains(c) ==> digit_of(c) is None,
        (hex_of(c) matches Some(d) && '0' <= d <= '9') && !seq!['Í', 'Ž', 'ž', 'Š', 'š', 'ő', 'ğ'].contains(c)
            ==> digit_of(c) == hex_of(c),
{
    lemma_among(seq!['Í', 'Ž', 'ž', 'Š', 'š', 'ő', 'ğ'], c);
}

/// A text is read character by character, in order: what two texts stand for, one after the other, is
/// what they stand for together.
pub proof fn law_texts_are_read_in_order(s: Seq<char>, t: Seq<char>)
    ensures
        hex_text(s + t) == hex_text(s) + hex_text(t),
        digit_text(s + t) == digit_text(s) + digit_text(t),
        hex_text(s).len() + hex_text(t).len() == hex_text(s + t).len(),
    decreases t.len(),
{
    if t.len() == 0 {
        assert(s + t =~= s);
        assert(hex_text(s) + hex_text(t) =~= hex_text(s));
        assert(digit_text(s) + digit_text(t) =~= digit_text(s));
    } else {
        law_texts_are_read_in_order(s, t.drop_last());
        assert((s + t).drop_last() =~= s + t.drop_last());
        assert((s + t).last() == t.last());
        assert(hex_text(s + t) =~= hex_text(s) + hex_text(t));
        assert(digit_text(s + t) =~= digit_text(s) + digit_text(t));
    }
}

/// The characters that are not white space and stand for no digit.
pub open spec fn unread(s: Seq<char>) -> Seq<char> {
    s.filter(|c: char| !is_space(c) && hex_of(c) is None)
}

proof fn lemma_unread(s: Seq<char>)
    ensures
        ink(s) == hex_text(s).len() + unread(s).len(),
    decreases s.len(),
{
    reveal(Seq::filter);
    if s.len() > 0 {
        lemma_unread(s.drop_last());
    }
}

/// A line looks like content if there is something on it, and of ten characters at most three cannot be
/// read.
pub proof fn law_content_can_be_read(s: Seq<char>)
    ensures
        is_content(s) <==> hex_text(s).len() > 0 && 3 * hex_text(s).len() >= 7 * unread(s).len(),
{
    lemma_unread(s);
}

/// Whether a size and its digest stand on a row and the two above it: the row has the digest of the other
/// two.
pub open spec fn sealed_at(rows: Seq<Seq<char>>, i: int, size: usize, file_md5: Seq<char>) -> bool {
    &&& 2 <= i < rows.len()
    &&& parsed_usize(digit_text(rows[i - 2])) == Some(size)
    &&& hex_text(rows[i - 1]) == file_md5
    &&& file_md5.len() == 32
    &&& hex_text(rows[i]) == md5_hex(encode_utf8(dec(size as nat) + file_md5))
}

proof fn lemma_info_in(rows: Seq<Seq<char>>, n: int)
    requires
        n <= rows.len(),
    ensures
        info_in(rows, n) matches InfoView::Info(at, size, a, b) ==> 2 <= at < n && parsed_usize(
            digit_text(rows[at - 2]),
        ) == Some(size) && hex_text(rows[at - 1]) == a && hex_text(rows[at]) == b && a.len() == 32,
    decreases n,
{
    if n > 2 {
        lemma_info_in(rows, n - 1);
    }
}

proof fn lemma_sealed_in(rows: Seq<Seq<char>>, n: int) -> (i: int)
    requires
        n <= rows.len(),
    ensures
        sealed_in(rows, n) matches Some((size, file_md5)) ==> sealed_at(rows, i, size, file_md5),
    decreases n,
{
    lemma_info_in(rows, n);
    match info_in(rows, n) {
        InfoView::Info(at, size, file_md5, checksum) => if seal(size, file_md5) == checksum {
            assert(sealed_in(rows, n) == Some((size, file_md5)));
            at
        } else {
            assert(sealed_in(rows, n) == sealed_in(rows, at));
            lemma_sealed_in(rows, at)
        },
        _ => {
            assert(sealed_in(rows, n) is None);
            0
        },
    }
}

/// A size and a digest are only ever taken from the screen together, and only where the row below them
/// has the digest of the two.
pub proof fn law_info_is_sealed(lines: Seq<Seq<char>>)
    ensures
        file_info_of(lines) matches Some((size, file_md5)) ==> exists|i: int|
            sealed_at(rows(lines), i, size, file_md5),
{
    let i = lemma_sealed_in(rows(lines), rows(lines).len() as int);
    if let Some((size, file_md5)) = file_info_of(lines) {
        assert(sealed_at(rows(lines), i, size, file_md5));
    }
}

/// Whether digits and a digest stand on a row and directly above it.
pub open spec fn chunk_at(rows: Seq<Seq<char>>, i: int, hex: Seq<char>, md5: Seq<char>) -> bool {
    &&& 1 <= i < rows.len()
    &&& md5 == hex_text(rows[i])
    &&& md5.len() == 32
    &&& hex.len() > 0
    &&& exists|j: int| 0 <= j < i && hex == digits_of(#[trigger] rows.subrange(j, i))
}

proof fn lemma_above(rows: Seq<Seq<char>>, i: int) -> (j: int)
    requires
        0 <= i <= rows.len(),
    ensures
        0 <= j <= i,
        content_above(rows, i) == digits_of(rows.subrange(j, i)),
    decreases i,
{
    if i <= 0 || !is_content(rows[i - 1]) {
        assert(rows.subrange(i, i) =~= Seq::empty());
        i
    } else {
        let j = lemma_above(rows, i - 1);
        assert(rows.subrange(j, i).drop_last() =~= rows.subrange(j, i - 1));
        assert(rows.subrange(j, i).last() == rows[i - 1]);
        j
    }
}

proof fn lemma_chunk_in(rows: Seq<Seq<char>>, n: int) -> (i: int)
    requires
        n <= rows.len(),
    ensures
        chunk_in(rows, n) matches Some((hex, md5)) ==> chunk_at(rows, i, hex, md5),
    decreases n,
{
    if n <= 1 {
        0
    } else {
        let hex = content_above(rows, n - 1);
        if is_digest_row(rows[n - 1]) && hex.len() > 0 {
            let j = lemma_above(rows, n - 1);
            if j == n - 1 {
                assert(rows.subrange(j, n - 1) =~= Seq::empty());
                assert(digits_of(rows.subrange(j, n - 1)).len() == 0);
            }
            assert(hex == digits_of(rows.subrange(j, n - 1)));
            assert(chunk_at(rows, n - 1, hex, hex_text(rows[n - 1])));
            n - 1
        } else {
            lemma_chunk_in(rows, n - 1)
        }
    }
}

/// A chunk is only ever taken from rows that stand directly above a row of 32 digits, which is taken for
/// its digest.
pub proof fn law_chunk_is_above_its_digest(lines: Seq<Seq<char>>)
    ensures
        hex_chunk_of(lines) matches Some((hex, md5)) ==> exists|i: int| chunk_at(rows(lines), i, hex, md5),
{
    let i = lemma_chunk_in(rows(lines), rows(lines).len() as int);
    if let Some((hex, md5)) = hex_chunk_of(lines) {
        assert(chunk_at(rows(lines), i, hex, md5));
    }
}

/// The rows of a screen are its lines, in order, without white space round them and without those that
/// have nothing else.
pub proof fn law_rows_are_lines(a: Seq<Seq<char>>, b: Seq<Seq<char>>, line: Seq<char>)
    ensures
        rows(a + b) == rows(a) + rows(b),
        rows(seq![line]) == (if trimmed(line).len() == 0 {
            Seq::empty()
        } else {
            seq![trimmed(line)]
        }),
    decreases b.len(),
{
    assert(seq![line].drop_last() =~= Seq::empty());
    assert(rows(Seq::<Seq<char>>::empty()) =~= Seq::empty());
    assert(rows(seq![line]) =~= (if trimmed(line).len() == 0 {
        Seq::empty()
    } else {
        seq![trimmed(line)]
    }));
    if b.len() == 0 {
        assert(a + b =~= a);
        assert(rows(a) + rows(b) =~= rows(a));
    } else {
        law_rows_are_lines(a, b.drop_last(), line);
        assert((a + b).drop_last() =~= a + b.drop_last());
        assert((a + b).last() == b.last());
        assert(rows(a + b) =~= rows(a) + rows(b));
    }
}

} // verus!
