//! Settings and the checks of option values.

use vstd::prelude::*;
use vstd::slice::slice_subrange;
use crate::encoder::Encoding;
use crate::text::{
    chars_of, dec, dec_int, dec_int_string, is_digit, is_space, law_numbers_are_read,
    law_trim_takes_the_ends, lemma_dec, parse_i64, parse_usize, parsed_i64, parsed_usize, push_chars,
    push_dec, push_quoted, quoted, said, trim, trimmed, Strip,
};

verus! {

/// Milliseconds between two characters.
pub const DEFAULT_INTERVAL: u64 = 5;

/// Seconds of countdown.
pub const DEFAULT_DELAY: u64 = 5;

/// The most bytes that are sent in one go.
pub const MAX_FILE_SIZE: usize = 5 * 1024 * 1024;

/// Milliseconds that the target terminal gets to carry out a command.
pub const CMD_SLEEP_MS: u64 = 500;

/// Compression is used where the compressed size is below this part of the original size.
pub const GZIP_USE_NUM: u64 = 4;

/// The whole of which `GZIP_USE_NUM` is a part.
pub const GZIP_USE_DEN: u64 = 5;

/// Encoded text breaks into lines of this many characters; decoding ignores the line breaks.
pub const WRAP_EVERY: usize = 100;

/// How many characters of a text a dry run shows.
pub const DRY_RUN_PREVIEW: usize = 500;

/// The encoding where one is needed and none was asked for.
pub const DEFAULT_ENCODING: Encoding = Encoding::Base32;

/// What `non_neg_int` gives.
pub open spec fn non_neg_int_of(s: Seq<char>) -> Result<u64, Seq<char>> {
    match parsed_i64(s) {
        None => Err("需要整数，得到 "@ + s),
        Some(n) => if n < 0 {
            Err("必须 >= 0，得到 "@ + dec_int(n as int))
        } else {
            Ok(n as u64)
        },
    }
}

/// Reads an integer that is not negative.
pub fn non_neg_int(s: &str) -> (r: Result<u64, String>)
    ensures
        said(r) == non_neg_int_of(s@),
{
    let v = chars_of(s);
    match parse_i64(v.as_slice()) {
        None => {
            let mut e = "需要整数，得到 ".to_string();
            e.append(s);
            Err(e)
        },
        Some(n) => if n < 0 {
            let mut e = "必须 >= 0，得到 ".to_string();
            let d = dec_int_string(n);
            e.append(d.as_str());
            Err(e)
        } else {
            Ok(n as u64)
        },
    }
}

/// The factor that a size suffix stands for.
pub open spec fn size_factor(c: char) -> Option<usize> {
    if c == 'k' || c == 'K' {
        Some(1024)
    } else if c == 'm' || c == 'M' {
        Some(1_048_576)
    } else {
        None
    }
}

/// What `parse_size` gives for a number and a factor.
pub open spec fn scaled(num: Seq<char>, factor: usize) -> Result<usize, Seq<char>> {
    match parsed_usize(num) {
        None => Err("需要整数，得到 "@ + num),
        Some(n) => if n == 0 {
            Err("大小必须 >= 1"@)
        } else if n * factor > usize::MAX {
            Err(dec(n as nat) + "×"@ + dec(factor as nat) + " 溢出"@)
        } else {
            Ok((n * factor) as usize)
        },
    }
}

/// What `parse_size` gives.
pub open spec fn parse_size_of(s: Seq<char>) -> Result<usize, Seq<char>> {
    let t = trimmed(s);
    if t.len() == 0 {
        Err("大小不能为空"@)
    } else if is_digit(t.last()) {
        scaled(t, 1)
    } else {
        match size_factor(t.last()) {
            Some(f) => scaled(t.drop_last(), f),
            None => Err("未知大小后缀 "@ + quoted(t.last(), '"') + "（支持 k/K/m/M）"@),
        }
    }
}

fn scale(num: &[char], factor: usize) -> (r: Result<usize, String>)
    ensures
        said(r) == scaled(num@, factor),
{
    match parse_usize(num) {
        None => {
            let mut e = "需要整数，得到 ".to_string();
            push_chars(&mut e, num);
            Err(e)
        },
        Some(n) => {
            if n == 0 {
                return Err("大小必须 >= 1".to_string());
            }
            match n.checked_mul(factor) {
                Some(m) => Ok(m),
                None => {
                    let mut e = String::new();
                    push_dec(&mut e, n as u64);
                    e.append("×");
                    push_dec(&mut e, factor as u64);
                    e.append(" 溢出");
                    assert(e@ =~= dec(n as nat) + "×"@ + dec(factor as nat) + " 溢出"@);
                    Err(e)
                },
            }
        },
    }
}

/// Reads a size in bytes with an optional suffix: `1m`, `2M`, `500k`, `500K`, `1048576`. The least
/// size is 1. The last character has to be ASCII, since the suffix is one byte.
pub fn parse_size(s: &str) -> (r: Result<usize, String>)
    requires
        trimmed(s@).len() > 0 ==> trimmed(s@).last() <= '\u{7f}',
    ensures
        said(r) == parse_size_of(s@),
{
    let v = chars_of(s);
    let t = trim(v.as_slice());
    if t.len() == 0 {
        return Err("大小不能为空".to_string());
    }
    let last = t[t.len() - 1];
    assert(last == trimmed(s@).last());
    if '0' <= last && last <= '9' {
        return scale(t, 1);
    }
    let num = slice_subrange(t, 0, t.len() - 1);
    assert(num@ =~= t@.drop_last());
    if last == 'k' || last == 'K' {
        scale(num, 1024)
    } else if last == 'm' || last == 'M' {
        scale(num, 1_048_576)
    } else {
        let mut e = "未知大小后缀 ".to_string();
        push_quoted(&mut e, last, '"');
        e.append("（支持 k/K/m/M）");
        Err(e)
    }
}

/// A size counts in bytes, in units of 1024 with `k` and of 1048576 with `m`, of either case, with white
/// space round it or not. Nothing is no size, and a size that cannot be held is refused.
pub proof fn law_sizes_are_scaled(n: nat, l: Seq<char>, r: Seq<char>)
    requires
        forall|i: int| 0 <= i < l.len() ==> is_space(#[trigger] l[i]),
        forall|i: int| 0 <= i < r.len() ==> is_space(#[trigger] r[i]),
    ensures
        1 <= n <= usize::MAX ==> parse_size_of(l + dec(n) + r) == Ok::<usize, Seq<char>>(n as usize),
        n == 0 || n > usize::MAX ==> parse_size_of(l + dec(n) + r) is Err,
        forall|c: char|
            c == 'k' || c == 'K' ==> if 1 <= n && n * 1024 <= usize::MAX {
                #[trigger] parse_size_of(l + dec(n).push(c) + r) == Ok::<usize, Seq<char>>(
                    (n * 1024) as usize,
                )
            } else {
                parse_size_of(l + dec(n).push(c) + r) is Err
            },
        forall|c: char|
            c == 'm' || c == 'M' ==> if 1 <= n && n * 1048576 <= usize::MAX {
                #[trigger] parse_size_of(l + dec(n).push(c) + r) == Ok::<usize, Seq<char>>(
                    (n * 1048576) as usize,
                )
            } else {
                parse_size_of(l + dec(n).push(c) + r) is Err
            },
        parse_size_of(l + r) is Err,
{
    lemma_dec(n);
    law_numbers_are_read(n);
    let d = dec(n);
    assert(is_digit(d[0]) && is_digit(d.last()));
    law_trim_takes_the_ends(l, d, r, Strip::Space);
    assert(trimmed(l + d + r) == d);
    law_trim_takes_the_ends(l, Seq::empty(), r, Strip::Space);
    assert(l + Seq::<char>::empty() + r =~= l + r);
    assert forall|c: char| c == 'k' || c == 'K' || c == 'm' || c == 'M' implies trimmed(
        l + (#[trigger] d.push(c)) + r,
    ) == d.push(c) by {
        law_trim_takes_the_ends(l, d.push(c), r, Strip::Space);
    }
    assert forall|c: char| (#[trigger] d.push(c)).drop_last() == d by {
        assert(d.push(c).drop_last() =~= d);
    }
}

/// An integer that is not negative is read as it is written, up to the largest `i64`; a negative one and
/// a larger one are refused.
pub proof fn law_non_negative_is_read(n: nat)
    ensures
        n <= 0x7fff_ffff_ffff_ffff ==> non_neg_int_of(dec(n)) == Ok::<u64, Seq<char>>(n as u64),
        n > 0x7fff_ffff_ffff_ffff ==> non_neg_int_of(dec(n)) is Err,
        n > 0 ==> non_neg_int_of(seq!['-'] + dec(n)) is Err,
{
    law_numbers_are_read(n);
}

} // verus!
