//! Directories as zip archives.
//!
//! The same directory gives the same bytes each time: entries come in the order of their names, and
//! carry the time at which the file was last changed, not the time of archiving.

use vstd::prelude::*;
use vstd::utf8::encode_utf8;
use crate::text::{
    chars_of, lemma_split_at, pieces, said, split, split_at_char, string_of,
};

verus! {

// ---------------------------------------------------------------------------------------------
// What is left out
// ---------------------------------------------------------------------------------------------

/// Whether a pattern has two stars in a row, which stand for any number of directories.
pub open spec fn is_recursive(pattern: Seq<char>) -> bool {
    exists|i: int| 0 <= i && i + 1 < pattern.len() && #[trigger] pattern[i] == '*' && pattern[i + 1] == '*'
}

/// Whether every platform agrees on a pattern and a name. A backslash is a path separator on some
/// platforms, where it also matches a slash. That makes no difference if there is no backslash, or if the
/// pattern is not recursive and no slash meets a backslash.
pub open spec fn agreed(pattern: Seq<char>, name: Seq<char>) -> bool {
    ||| !pattern.contains('\\') && !name.contains('\\')
    ||| !is_recursive(pattern) && !(pattern.contains('/') && name.contains('\\')) && !(pattern.contains('\\')
        && name.contains('/'))
}

/// Whether a glob pattern matches a name, or the message for a pattern that is not valid, where every
/// platform agrees.
pub uninterp spec fn glob_match(pattern: Seq<char>, name: Seq<char>) -> Result<bool, Seq<char>>;

/// `glob::Pattern::new` and, on a valid pattern, `glob::Pattern::matches` with the default options.
/// The result depends on the two texts alone where every platform agrees; nothing is said of others.
#[verifier::external_body]
fn try_pattern(pattern: &str, name: &str) -> (r: Result<bool, String>)
    ensures
        agreed(pattern@, name@) ==> said(r) == glob_match(pattern@, name@),
{
    match glob::Pattern::new(pattern) {
        Ok(p) => Ok(p.matches(name)),
        Err(e) => Err(e.to_string()),
    }
}

/// The message for a pattern that is not valid; `None` for one that is.
pub open spec fn pattern_error(pattern: Seq<char>) -> Option<Seq<char>> {
    match glob_match(pattern, ""@) {
        Ok(_) => None,
        Err(m) => Some(m),
    }
}

/// The message for each of the patterns that is not valid, and `None` for each that is. Nothing is said
/// of recursive patterns with a backslash, on which platforms differ.
pub fn pattern_errors(patterns: &[String]) -> (r: Vec<Option<String>>)
    ensures
        r@.len() == patterns@.len(),
        forall|i: int|
            0 <= i < patterns@.len() && agreed(patterns@[i]@, ""@) ==> match #[trigger] r@[i] {
                Some(m) => pattern_error(patterns@[i]@) == Some(m@),
                None => pattern_error(patterns@[i]@) is None,
            },
{
    let mut r: Vec<Option<String>> = Vec::new();
    let mut i: usize = 0;
    while i < patterns.len()
        invariant
            r@.len() == i <= patterns@.len(),
            forall|k: int|
                0 <= k < i && agreed(patterns@[k]@, ""@) ==> match #[trigger] r@[k] {
                    Some(m) => pattern_error(patterns@[k]@) == Some(m@),
                    None => pattern_error(patterns@[k]@) is None,
                },
        decreases patterns.len() - i,
    {
        r.push(
            match try_pattern(patterns[i].as_str(), "") {
                Ok(_) => None,
                Err(m) => Some(m),
            },
        );
        i += 1;
    }
    r
}

/// Whether one of the patterns is valid and matches the name.
pub open spec fn excluded(patterns: Seq<String>, name: Seq<char>) -> bool {
    exists|i: int|
        0 <= i < patterns.len() && #[trigger] glob_match(patterns[i]@, name) == Ok::<bool, Seq<char>>(
            true,
        )
}

/// Whether one of the patterns matches the name on every platform.
pub open spec fn surely_excluded(patterns: Seq<String>, name: Seq<char>) -> bool {
    exists|i: int|
        0 <= i < patterns.len() && agreed(patterns[i]@, name) && #[trigger] glob_match(patterns[i]@, name)
            == Ok::<bool, Seq<char>>(true)
}

/// Whether every platform agrees on a name: on what each pattern says of it, or on one that matches.
pub open spec fn settled(patterns: Seq<String>, name: Seq<char>) -> bool {
    ||| forall|i: int| 0 <= i < patterns.len() ==> agreed((#[trigger] patterns[i])@, name)
    ||| surely_excluded(patterns, name)
}

/// Whether one of the outcomes is a match.
pub open spec fn has_match(outcomes: Seq<Result<bool, String>>) -> bool {
    exists|i: int| 0 <= i < outcomes.len() && #[trigger] outcomes[i] == Ok::<bool, String>(true)
}

/// Whether these can be the outcomes of trying the patterns on a name, one after the other.
pub open spec fn tried(outcomes: Seq<Result<bool, String>>, patterns: Seq<String>, name: Seq<char>) -> bool {
    outcomes.len() == patterns.len() && forall|i: int|
        0 <= i < outcomes.len() && agreed(patterns[i]@, name) ==> said(#[trigger] outcomes[i])
            == glob_match(patterns[i]@, name)
}

/// Whether one of the outcomes is a match. Patterns that are not valid are passed over.
pub fn some_matches(outcomes: &[Result<bool, String>]) -> (r: bool)
    ensures
        r == has_match(outcomes@),
{
    let mut i: usize = 0;
    while i < outcomes.len()
        invariant
            i <= outcomes@.len(),
            forall|k: int| 0 <= k < i ==> #[trigger] outcomes@[k] != Ok::<bool, String>(true),
        decreases outcomes.len() - i,
    {
        if let Ok(true) = &outcomes[i] {
            assert(outcomes@[i as int] == Ok::<bool, String>(true));
            return true;
        }
        i += 1;
    }
    false
}

fn try_patterns(patterns: &[String], name: &str) -> (r: Vec<Result<bool, String>>)
    ensures
        tried(r@, patterns@, name@),
{
    let mut r: Vec<Result<bool, String>> = Vec::new();
    let mut i: usize = 0;
    while i < patterns.len()
        invariant
            r@.len() == i <= patterns@.len(),
            forall|k: int|
                0 <= k < i && agreed(patterns@[k]@, name@) ==> said(#[trigger] r@[k]) == glob_match(
                    patterns@[k]@,
                    name@,
                ),
        decreases patterns.len() - i,
    {
        r.push(try_pattern(patterns[i].as_str(), name));
        i += 1;
    }
    r
}

/// Whether a name is to be left out: one of the patterns, as they are tried on it, matches. Patterns that
/// are not valid are passed over. What a pattern says where platforms differ is left open.
pub fn is_excluded(patterns: &[String], name: &str) -> (r: bool)
    ensures
        settled(patterns@, name@) ==> r == excluded(patterns@, name@),
{
    let outcomes = try_patterns(patterns, name);
    let r = some_matches(outcomes.as_slice());
    proof {
        lemma_tried(outcomes@, patterns@, name@);
    }
    r
}

/// Where every platform agrees, the outcomes say whether the name is excluded.
proof fn lemma_tried(outcomes: Seq<Result<bool, String>>, patterns: Seq<String>, name: Seq<char>)
    requires
        tried(outcomes, patterns, name),
    ensures
        settled(patterns, name) ==> has_match(outcomes) == excluded(patterns, name),
{
    let yes = Ok::<bool, Seq<char>>(true);
    assert forall|i: int| 0 <= i < outcomes.len() && agreed(patterns[i]@, name) implies (
    #[trigger] outcomes[i] == Ok::<bool, String>(true)) == (glob_match(patterns[i]@, name) == yes) by {
        assert(said(outcomes[i]) == glob_match(patterns[i]@, name));
    }
    if surely_excluded(patterns, name) {
        let i = choose|i: int|
            0 <= i < patterns.len() && agreed(patterns[i]@, name) && #[trigger] glob_match(
                patterns[i]@,
                name,
            ) == yes;
        assert(outcomes[i] == Ok::<bool, String>(true));
    } else if settled(patterns, name) {
        if has_match(outcomes) {
            let i = choose|i: int|
                0 <= i < outcomes.len() && #[trigger] outcomes[i] == Ok::<bool, String>(true);
            assert(agreed(patterns[i]@, name));
            assert(glob_match(patterns[i]@, name) == yes);
        }
        if excluded(patterns, name) {
            let i = choose|i: int| 0 <= i < patterns.len() && #[trigger] glob_match(patterns[i]@, name) == yes;
            assert(agreed(patterns[i]@, name));
            assert(outcomes[i] == Ok::<bool, String>(true));
        }
    }
}

/// The names on the way to a path from the directory: that of the directory, and each part of the path.
pub open spec fn names_on_way(root: Seq<char>, rel: Seq<char>, sep: char) -> Seq<Seq<char>> {
    if rel.len() == 0 {
        seq![root]
    } else {
        seq![root] + split(rel, sep)
    }
}

/// Whether a path is left out: one of the names on the way to it is.
pub open spec fn left_out(patterns: Seq<String>, root: Seq<char>, rel: Seq<char>, sep: char) -> bool {
    exists|i: int|
        0 <= i < names_on_way(root, rel, sep).len() && excluded(
            patterns,
            #[trigger] names_on_way(root, rel, sep)[i],
        )
}

/// Whether every platform agrees on a path: on all the names on the way to it, or on one that is excluded.
pub open spec fn path_settled(patterns: Seq<String>, root: Seq<char>, rel: Seq<char>, sep: char) -> bool {
    ||| forall|i: int|
        0 <= i < names_on_way(root, rel, sep).len() ==> settled(
            patterns,
            #[trigger] names_on_way(root, rel, sep)[i],
        )
    ||| exists|i: int|
        0 <= i < names_on_way(root, rel, sep).len() && surely_excluded(
            patterns,
            #[trigger] names_on_way(root, rel, sep)[i],
        )
}

/// Whether one of the names on the way to a path is to be left out.
pub fn some_excluded(verdicts: &[bool]) -> (r: bool)
    ensures
        r == verdicts@.contains(true),
{
    let mut i: usize = 0;
    while i < verdicts.len()
        invariant
            i <= verdicts@.len(),
            forall|k: int| 0 <= k < i ==> !(#[trigger] verdicts@[k]),
        decreases verdicts.len() - i,
    {
        if verdicts[i] {
            assert(verdicts@[i as int]);
            return true;
        }
        i += 1;
    }
    false
}

/// Whether a path from a directory, with this character between its parts, is to be left out: a pattern
/// matches the name of the directory or a part of the path. It is left open where platforms differ.
pub fn is_left_out(patterns: &[String], root: &str, rel: &str, sep: char) -> (r: bool)
    ensures
        path_settled(patterns@, root@, rel@, sep) ==> r == left_out(patterns@, root@, rel@, sep),
{
    let ghost all = names_on_way(root@, rel@, sep);
    let mut verdicts: Vec<bool> = Vec::new();
    verdicts.push(is_excluded(patterns, root));
    let v = chars_of(rel);
    if v.len() > 0 {
        let parts = split_at_char(v.as_slice(), sep);
        assert(all == seq![root@] + pieces(parts@));
        let mut i: usize = 0;
        while i < parts.len()
            invariant
                i <= parts@.len(),
                verdicts@.len() == i + 1,
                all == seq![root@] + pieces(parts@),
                forall|k: int|
                    0 <= k < i + 1 && settled(patterns@, #[trigger] all[k]) ==> verdicts@[k] == excluded(
                        patterns@,
                        all[k],
                    ),
            decreases parts.len() - i,
        {
            let name = string_of(parts[i]);
            assert(all[i + 1] == name@);
            verdicts.push(is_excluded(patterns, name.as_str()));
            i += 1;
        }
    }
    proof {
        lemma_verdicts(patterns@, root@, rel@, sep, verdicts@);
    }
    some_excluded(verdicts.as_slice())
}

/// Where every platform agrees on a path, the verdicts on the names say whether it is left out.
proof fn lemma_verdicts(
    patterns: Seq<String>,
    root: Seq<char>,
    rel: Seq<char>,
    sep: char,
    verdicts: Seq<bool>,
)
    requires
        verdicts.len() == names_on_way(root, rel, sep).len(),
        forall|k: int|
            0 <= k < verdicts.len() && settled(patterns, #[trigger] names_on_way(root, rel, sep)[k])
                ==> verdicts[k] == excluded(patterns, names_on_way(root, rel, sep)[k]),
    ensures
        path_settled(patterns, root, rel, sep) ==> verdicts.contains(true) == left_out(
            patterns,
            root,
            rel,
            sep,
        ),
{
    let all = names_on_way(root, rel, sep);
    if exists|k: int| 0 <= k < all.len() && surely_excluded(patterns, #[trigger] all[k]) {
        let k = choose|k: int| 0 <= k < all.len() && surely_excluded(patterns, #[trigger] all[k]);
        assert(excluded(patterns, all[k]));
        assert(verdicts[k]);
    } else if path_settled(patterns, root, rel, sep) {
        if verdicts.contains(true) {
            let k = choose|k: int| 0 <= k < verdicts.len() && verdicts[k] == true;
            assert(excluded(patterns, all[k]));
        }
        if left_out(patterns, root, rel, sep) {
            let k = choose|k: int| 0 <= k < all.len() && excluded(patterns, #[trigger] all[k]);
            assert(verdicts[k]);
        }
    }
}

/// A directory that is left out takes with it all that is under it: the walk need not go there.
pub proof fn law_tree_is_left_out(
    patterns: Seq<String>,
    root: Seq<char>,
    dir: Seq<char>,
    under: Seq<char>,
    sep: char,
)
    requires
        left_out(patterns, root, dir, sep),
    ensures
        dir.len() == 0 ==> left_out(patterns, root, under, sep),
        dir.len() > 0 ==> left_out(patterns, root, dir + seq![sep] + under, sep),
{
    let names = names_on_way(root, dir, sep);
    let i = choose|i: int| 0 <= i < names.len() && excluded(patterns, #[trigger] names[i]);
    if dir.len() == 0 {
        assert(names_on_way(root, under, sep)[i] == names[i]);
    } else {
        lemma_split_at(dir, under, sep);
        assert(names_on_way(root, dir + seq![sep] + under, sep)[i] == names[i]);
    }
}

/// What the walk does with what it found.
#[derive(Debug, Clone, Copy, PartialEq, Eq, Structural)]
pub enum Visit {
    /// Put it in the archive.
    Keep,
    /// Leave it out.
    Skip,
    /// Leave it out with all that is under it.
    SkipTree,
}

/// What the walk does with a file or a directory that is to be left out or not.
pub fn visit(is_excluded: bool, is_dir: bool) -> (r: Visit)
    ensures
        r == (if !is_excluded {
            Visit::Keep
        } else if is_dir {
            Visit::SkipTree
        } else {
            Visit::Skip
        }),
{
    if !is_excluded {
        Visit::Keep
    } else if is_dir {
        Visit::SkipTree
    } else {
        Visit::Skip
    }
}

// ---------------------------------------------------------------------------------------------
// Time stamps
// ---------------------------------------------------------------------------------------------

/// Whether a year of the Gregorian calendar is a leap year.
pub open spec fn is_leap(y: int) -> bool {
    y % 4 == 0 && (y % 100 != 0 || y % 400 == 0)
}

/// The number of days in a month.
pub open spec fn month_len(y: int, m: int) -> int {
    if m == 2 {
        if is_leap(y) {
            29
        } else {
            28
        }
    } else if m == 4 || m == 6 || m == 9 || m == 11 {
        30
    } else {
        31
    }
}

/// The number of days of a year before a month.
pub open spec fn before_month(y: int, m: int) -> int
    decreases m,
{
    if m <= 1 {
        0
    } else {
        before_month(y, m - 1) + month_len(y, m - 1)
    }
}

/// The number of days from the first of January 1970 to the first of January of a year.
pub open spec fn year_start(y: int) -> int {
    365 * (y - 1) + (y - 1) / 4 - (y - 1) / 100 + (y - 1) / 400 - 719162
}

/// Whether the fields (year, month, day, hour, minute, second) are a date and a time of day.
pub open spec fn is_civil(f: (int, int, int, int, int, int)) -> bool {
    &&& 1 <= f.1 <= 12
    &&& 1 <= f.2 <= month_len(f.0, f.1)
    &&& 0 <= f.3 < 24
    &&& 0 <= f.4 < 60
    &&& 0 <= f.5 < 60
}

/// The number of seconds from the start of 1970 to a date and a time of day.
pub open spec fn civil_secs(f: (int, int, int, int, int, int)) -> int {
    (year_start(f.0) + before_month(f.0, f.1) + f.2 - 1) * 86400 + f.3 * 3600 + f.4 * 60 + f.5
}

/// `chrono::DateTime::from_timestamp` in UTC, taken apart into year, month, day, hour, minute and
/// second: the date and the time of day in the Gregorian calendar, so many seconds after the start of
/// 1970. It is there for the years -262143 to 262142.
#[verifier::external_body]
fn utc_fields(secs: i64) -> (r: Option<(i32, u32, u32, u32, u32, u32)>)
    ensures
        r is Some <==> -8334601228800 <= secs < 8210266876800,
        r matches Some(f) ==> {
            let g = (f.0 as int, f.1 as int, f.2 as int, f.3 as int, f.4 as int, f.5 as int);
            is_civil(g) && civil_secs(g) == secs
        },
{
    let t = chrono::DateTime::from_timestamp(secs, 0)?;
    let d = (chrono::Datelike::year(&t), chrono::Datelike::month(&t), chrono::Datelike::day(&t));
    let h = (chrono::Timelike::hour(&t), chrono::Timelike::minute(&t), chrono::Timelike::second(&t));
    Some((d.0, d.1, d.2, h.0, h.1, h.2))
}

/// The time stamp of an entry: year, month, day, hour, minute, second.
pub type Stamp = (u16, u8, u8, u8, u8, u8);

/// The fields of a stamp as integers.
pub open spec fn fields(s: Stamp) -> (int, int, int, int, int, int) {
    (s.0 as int, s.1 as int, s.2 as int, s.3 as int, s.4 as int, s.5 as int)
}

/// Whether an archive can hold a stamp: its years are 1980 to 2107.
pub open spec fn storable(s: Stamp) -> bool {
    1980 <= s.0 <= 2107 && is_civil(fields(s))
}

/// The start of 1980.
pub open spec fn oldest_stamp() -> Stamp {
    (1980, 1, 1, 0, 0, 0)
}

/// Whether a time, in seconds from the start of 1970, is within the years 1980 to 2107.
pub open spec fn in_zip_years(secs: int) -> bool {
    315532800 <= secs < 4354819200
}

/// Whether a stamp is the one for a time: that time itself within the years that an archive can hold,
/// and the start of 1980 for any other.
pub open spec fn stamps(s: Stamp, secs: int) -> bool {
    if in_zip_years(secs) {
        storable(s) && civil_secs(fields(s)) == secs
    } else {
        s == oldest_stamp()
    }
}

/// A quotient grows by one at the multiples of the divisor.
proof fn lemma_quotient_step(y: int, d: int)
    requires
        d > 1,
    ensures
        y / d - (y - 1) / d == (if y % d == 0 {
            1int
        } else {
            0
        }),
{
    let q = y / d;
    let r = y % d;
    vstd::arithmetic::div_mod::lemma_fundamental_div_mod(y, d);
    vstd::arithmetic::div_mod::lemma_mod_bound(y, d);
    if r == 0 {
        assert(y - 1 == (q - 1) * d + (d - 1)) by (nonlinear_arith)
            requires
                y == d * q + r,
                r == 0,
        ;
        vstd::arithmetic::div_mod::lemma_fundamental_div_mod_converse(y - 1, d, q - 1, d - 1);
    } else {
        assert(y - 1 == q * d + (r - 1)) by (nonlinear_arith)
            requires
                y == d * q + r,
        ;
        vstd::arithmetic::div_mod::lemma_fundamental_div_mod_converse(y - 1, d, q, r - 1);
    }
}

/// How long a year is.
#[verifier::spinoff_prover]
proof fn lemma_year_len(y: int)
    ensures
        year_start(y + 1) - year_start(y) == 365 + (if is_leap(y) {
            1int
        } else {
            0
        }),
{
    lemma_quotient_step(y, 4);
    lemma_quotient_step(y, 100);
    lemma_quotient_step(y, 400);
    assert(y % 100 == 0 ==> y % 4 == 0) by (nonlinear_arith);
    assert(y % 400 == 0 ==> y % 100 == 0) by (nonlinear_arith);
}

/// Years start in order.
proof fn lemma_years_in_order(a: int, b: int)
    requires
        a <= b,
    ensures
        year_start(a) <= year_start(b),
    decreases b - a,
{
    if a < b {
        lemma_years_in_order(a, b - 1);
        lemma_year_len(b - 1);
    }
}

proof fn lemma_year_start(a: int, b: int)
    requires
        a <= b,
    ensures
        year_start(a) <= year_start(b),
        a < b ==> year_start(a + 1) <= year_start(b),
        year_start(a + 1) - year_start(a) == 365 + (if is_leap(a) {
            1int
        } else {
            0
        }),
{
    lemma_year_len(a);
    lemma_years_in_order(a, b);
    if a < b {
        lemma_years_in_order(a + 1, b);
    }
}

proof fn lemma_before_month(y: int, m: int)
    requires
        1 <= m <= 12,
    ensures
        before_month(y, 1) == 0,
        before_month(y, 12) + 31 == 365 + (if is_leap(y) {
            1int
        } else {
            0
        }),
        0 <= before_month(y, m),
        before_month(y, m) + month_len(y, m) <= 365 + (if is_leap(y) {
            1int
        } else {
            0
        }),
{
    reveal_with_fuel(before_month, 13);
}

proof fn lemma_months_apart(y: int, a: int, b: int)
    requires
        1 <= a < b <= 12,
    ensures
        before_month(y, a) + month_len(y, a) <= before_month(y, b),
    decreases b - a,
{
    if a + 1 < b {
        lemma_months_apart(y, a, b - 1);
    }
}

/// The days of a date, within its year.
proof fn lemma_within_year(f: (int, int, int, int, int, int))
    requires
        is_civil(f),
    ensures
        year_start(f.0) * 86400 <= civil_secs(f) < year_start(f.0 + 1) * 86400,
{
    lemma_before_month(f.0, f.1);
    lemma_year_start(f.0, f.0);
}

/// The time that `zip_stamp` records is the only one that its contract allows: two dates and times of
/// day that are the same number of seconds from the start of 1970 are the same.
pub proof fn law_stamp_is_unique(a: Stamp, b: Stamp)
    requires
        is_civil(fields(a)),
        is_civil(fields(b)),
        civil_secs(fields(a)) == civil_secs(fields(b)),
    ensures
        a == b,
{
    let f = fields(a);
    let g = fields(b);
    lemma_within_year(f);
    lemma_within_year(g);
    if f.0 < g.0 {
        lemma_year_start(f.0, g.0);
    }
    if g.0 < f.0 {
        lemma_year_start(g.0, f.0);
    }
    let df = before_month(f.0, f.1) + f.2;
    let dg = before_month(g.0, g.1) + g.2;
    let sf = f.3 * 3600 + f.4 * 60 + f.5;
    let sg = g.3 * 3600 + g.4 * 60 + g.5;
    assert(0 <= sf < 86400 && 0 <= sg < 86400);
    assert(df == dg);
    if f.1 < g.1 {
        lemma_months_apart(f.0, f.1, g.1);
    }
    if g.1 < f.1 {
        lemma_months_apart(f.0, g.1, f.1);
    }
}

/// The stamp for a time of change, in seconds from the start of 1970 in UTC. A time outside the years
/// that an archive can hold becomes the start of 1980.
pub fn zip_stamp(secs: i64) -> (r: Stamp)
    ensures
        stamps(r, secs as int),
        storable(r),
{
    proof {
        lemma_before_month(1980, 1);
    }
    match utc_fields(secs) {
        Some((y, mo, d, h, mi, s)) => {
            let ghost f = (y as int, mo as int, d as int, h as int, mi as int, s as int);
            proof {
                lemma_within_year(f);
                assert(year_start(1980) * 86400 == 315532800);
                assert(year_start(2108) * 86400 == 4354819200);
                if y < 1980 {
                    lemma_year_start(y + 1, 1980);
                } else if y > 2107 {
                    lemma_year_start(2108, y as int);
                } else {
                    lemma_year_start(1980, y as int);
                    lemma_year_start(y + 1, 2108);
                }
            }
            if 1980 <= y && y <= 2107 {
                (y as u16, mo as u8, d as u8, h as u8, mi as u8, s as u8)
            } else {
                (1980, 1, 1, 0, 0, 0)
            }
        },
        None => (1980, 1, 1, 0, 0, 0),
    }
}

// ---------------------------------------------------------------------------------------------
// The archive
// ---------------------------------------------------------------------------------------------

/// An entry of an archive: its name, its stamp, and its contents, or `None` for a directory.
pub type ZipEntry = (Seq<char>, Stamp, Option<Seq<u8>>);

/// An archive that is being written.
#[verifier::external_body]
pub struct Zip {
    writer: zip::ZipWriter<std::io::Cursor<Vec<u8>>>,
}

/// The entries that have been put in, in order.
pub uninterp spec fn zip_entries(z: Zip) -> Seq<ZipEntry>;

/// The bytes of a finished archive.
pub uninterp spec fn zip_bytes(entries: Seq<ZipEntry>) -> Seq<u8>;

/// Whether nothing has gone wrong with an archive so far.
pub uninterp spec fn zip_sound(z: Zip) -> bool;

/// What reading an archive gives: the names and the contents of its entries, in order.
pub uninterp spec fn zip_listing(bytes: Seq<u8>) -> Seq<(Seq<char>, Seq<u8>)>;

/// The longest name under which an entry can be listed, in bytes of UTF-8.
pub const MAX_ENTRY_NAME: usize = 65535;

/// How an entry is listed: the name of a directory ends in a slash.
pub open spec fn listed(e: ZipEntry) -> (Seq<char>, Seq<u8>) {
    match e.2 {
        Some(d) => (e.0, d),
        None => if e.0.len() > 0 && (e.0.last() == '/' || e.0.last() == '\\') {
            (e.0, Seq::empty())
        } else {
            (e.0.push('/'), Seq::empty())
        },
    }
}

/// Whether an entry is listed under a name.
pub open spec fn has_name(entries: Seq<ZipEntry>, name: Seq<char>) -> bool {
    exists|i: int| 0 <= i < entries.len() && listed(#[trigger] entries[i]).0 == name
}

/// At most how much room an entry takes: its name, which is recorded twice, its contents, and what else is
/// recorded of it.
pub open spec fn entry_weight(e: ZipEntry) -> nat {
    2 * encode_utf8(e.0).len() + 1024 + match e.2 {
        Some(d) => d.len(),
        None => 0,
    }
}

/// At most how much room entries take.
pub open spec fn weight(entries: Seq<ZipEntry>) -> nat
    decreases entries.len(),
{
    if entries.len() == 0 {
        0
    } else {
        weight(entries.drop_last()) + entry_weight(entries.last())
    }
}

/// What a file or an archive can hold and stay below 4 GiB also where its data cannot be compressed. The
/// format has another way of recording what is larger.
pub const ROOM: usize = 0xC000_0000;

/// A number of entries that stands for a larger number in the format, so that a reader can take the end of
/// the last name for the place where that number is recorded.
pub const UNCLEAR_COUNT: usize = 65535;

/// Whether the contents of a file stay below 4 GiB, compressed or not.
pub open spec fn fits(e: ZipEntry) -> bool {
    e.2 matches Some(d) ==> d.len() <= ROOM
}

/// Whether the contents of each file do.
pub open spec fn all_fit(entries: Seq<ZipEntry>) -> bool {
    forall|i: int| 0 <= i < entries.len() ==> fits(#[trigger] entries[i])
}

/// `zip::ZipWriter::new` on an empty buffer: an archive without entries.
#[verifier::external_body]
fn zip_new() -> (z: Zip)
    ensures
        zip_entries(z) == Seq::<ZipEntry>::empty(),
        zip_sound(z),
{
    Zip { writer: zip::ZipWriter::new(std::io::Cursor::new(Vec::new())) }
}

/// `zip::ZipWriter::add_directory`, with `zip::DateTime::from_date_and_time` of the stamp as the time of
/// change: where it succeeds, an entry for the directory has been put in. The crate takes every stamp
/// that is storable, and stops on a name that does not fit. As long as nothing has gone wrong and the
/// files so far stay below 4 GiB, it fails on names that are already there, and on no others.
#[verifier::external_body]
fn zip_add_directory(z: &mut Zip, name: String, s: Stamp) -> (r: Result<(), String>)
    requires
        storable(s),
        encode_utf8(listed((name@, s, None)).0).len() <= MAX_ENTRY_NAME,
    ensures
        r is Ok ==> zip_entries(*final(z)) == zip_entries(*old(z)).push((name@, s, None)),
        r is Ok && zip_sound(*old(z)) ==> zip_sound(*final(z)),
        zip_sound(*old(z)) && all_fit(zip_entries(*old(z))) ==> (r is Ok <==> !has_name(
            zip_entries(*old(z)),
            listed((name@, s, None)).0,
        )),
{
    let t = zip::DateTime::from_date_and_time(s.0, s.1, s.2, s.3, s.4, s.5).unwrap_or_default();
    let o = zip::write::SimpleFileOptions::default()
        .compression_method(zip::CompressionMethod::Deflated)
        .last_modified_time(t);
    z.writer.add_directory(name, o).map_err(|e| e.to_string())
}

/// `zip::ZipWriter::start_file`, deflated, with `zip::DateTime::from_date_and_time` of the stamp as the
/// time of change: where it succeeds, an entry for a file without contents has been put in. The crate
/// takes every stamp that is storable, and stops on a name that does not fit. As long as nothing has gone
/// wrong and the files so far stay below 4 GiB, it fails on names that are already there, and on no others.
#[verifier::external_body]
fn zip_start_file(z: &mut Zip, name: String, s: Stamp) -> (r: Result<(), String>)
    requires
        storable(s),
        encode_utf8(name@).len() <= MAX_ENTRY_NAME,
    ensures
        r is Ok ==> zip_entries(*final(z)) == zip_entries(*old(z)).push(
            (name@, s, Some(Seq::empty())),
        ),
        r is Ok && zip_sound(*old(z)) ==> zip_sound(*final(z)),
        zip_sound(*old(z)) && all_fit(zip_entries(*old(z))) ==> (r is Ok <==> !has_name(
            zip_entries(*old(z)),
            name@,
        )),
{
    let t = zip::DateTime::from_date_and_time(s.0, s.1, s.2, s.3, s.4, s.5).unwrap_or_default();
    let o = zip::write::SimpleFileOptions::default()
        .compression_method(zip::CompressionMethod::Deflated)
        .last_modified_time(t);
    z.writer.start_file(name, o).map_err(|e| e.to_string())
}

/// The entries after the last file has got its contents.
pub open spec fn filled(entries: Seq<ZipEntry>, data: Seq<u8>) -> Seq<ZipEntry> {
    let e = entries.last();
    entries.drop_last().push((e.0, e.1, Some(data)))
}

/// `write_all` on a `zip::ZipWriter` whose last entry is a file without contents: where it succeeds, the
/// data is what the file holds. As long as nothing has gone wrong and the file stays below 4 GiB it
/// succeeds; a larger file is refused.
#[verifier::external_body]
fn zip_write(z: &mut Zip, data: &[u8]) -> (r: Result<(), String>)
    requires
        zip_entries(*old(z)).len() > 0,
        zip_entries(*old(z)).last().2 == Some(Seq::<u8>::empty()),
    ensures
        r is Ok ==> zip_entries(*final(z)) == filled(zip_entries(*old(z)), data@),
        r is Ok && zip_sound(*old(z)) ==> zip_sound(*final(z)),
        zip_sound(*old(z)) && fits(filled(zip_entries(*old(z)), data@).last()) ==> r is Ok,
{
    std::io::Write::write_all(&mut z.writer, data).map_err(|e| e.to_string())
}

/// `zip::ZipWriter::finish`, where nothing has gone wrong before. Where it succeeds, the bytes depend on
/// the entries alone. `zip::ZipArchive` reads the names and the contents of the entries out of them again
/// as long as the archive stays below 4 GiB and the number of entries is clear. It succeeds if each file
/// stays below 4 GiB. Nothing is said of an archive after a call that failed: what was written of a file
/// that was refused stays in its bytes.
#[verifier::external_body]
fn zip_finish(z: Zip) -> (r: Result<Vec<u8>, String>)
    ensures
        zip_sound(z) ==> (r matches Ok(b) ==> b@ == zip_bytes(zip_entries(z))),
        zip_sound(z) && zip_entries(z).len() != UNCLEAR_COUNT && weight(zip_entries(z)) <= ROOM ==> (
        r matches Ok(b) ==> zip_listing(b@) == zip_entries(z).map_values(|e: ZipEntry| listed(e))),
        zip_sound(z) && all_fit(zip_entries(z)) ==> r is Ok,
{
    z.writer.finish().map(|c| c.into_inner()).map_err(|e| e.to_string())
}

/// What a walk finds in a directory.
pub struct Found {
    /// The path from the directory, empty for the directory itself.
    pub rel: String,
    /// Whether it is a directory.
    pub is_dir: bool,
    /// The time of change, in seconds from the start of 1970 in UTC.
    pub modified: i64,
    /// The contents of a file.
    pub data: Vec<u8>,
}

/// The name of the entry for a path from the directory.
pub open spec fn entry_name(dir_name: Seq<char>, rel: Seq<char>) -> Seq<char> {
    if rel.len() == 0 {
        dir_name
    } else {
        dir_name + "/"@ + rel
    }
}

/// Whether an entry is the one for what the walk found.
pub open spec fn records(e: ZipEntry, dir_name: Seq<char>, f: Found) -> bool {
    &&& e.0 == entry_name(dir_name, f.rel@)
    &&& stamps(e.1, f.modified as int)
    &&& e.2 == (if f.is_dir {
        None
    } else {
        Some(f.data@)
    })
}

/// Whether the entries are those for what the walk found, in the same order.
pub open spec fn record_all(entries: Seq<ZipEntry>, dir_name: Seq<char>, found: Seq<Found>) -> bool {
    entries.len() == found.len() && forall|i: int|
        0 <= i < found.len() ==> records(#[trigger] entries[i], dir_name, found[i])
}

fn entry_path(dir_name: &str, rel: &str) -> (r: String)
    ensures
        r@ == entry_name(dir_name@, rel@),
{
    let v = chars_of(rel);
    let mut r = dir_name.to_string();
    if v.len() > 0 {
        r.append("/");
        r.append(rel);
    }
    r
}

/// The name under which what the walk found is listed: that of a directory ends in a slash.
pub open spec fn found_name(dir_name: Seq<char>, f: Found) -> Seq<char> {
    let contents: Option<Seq<u8>> = if f.is_dir {
        None
    } else {
        Some(f.data@)
    };
    listed((entry_name(dir_name, f.rel@), oldest_stamp(), contents)).0
}

/// Whether all that the walk found is listed under different names.
pub open spec fn different_names(dir_name: Seq<char>, found: Seq<Found>) -> bool {
    forall|i: int, j: int|
        0 <= i < j < found.len() ==> found_name(dir_name, #[trigger] found[i]) != found_name(
            dir_name,
            #[trigger] found[j],
        )
}

/// At most how much room what the walk found takes in an archive.
pub open spec fn found_weight(dir_name: Seq<char>, found: Seq<Found>) -> nat
    decreases found.len(),
{
    if found.len() == 0 {
        0
    } else {
        let f = found.last();
        found_weight(dir_name, found.drop_last()) + 2 * encode_utf8(entry_name(dir_name, f.rel@)).len() + 1024
            + if f.is_dir {
            0
        } else {
            f.data@.len()
        }
    }
}

/// Whether each of the files that the walk found stays below 4 GiB, compressed or not.
pub open spec fn found_fit(found: Seq<Found>) -> bool {
    forall|i: int| 0 <= i < found.len() ==> (#[trigger] found[i]).is_dir || found[i].data@.len() <= ROOM
}

proof fn lemma_same_weight(entries: Seq<ZipEntry>, dir_name: Seq<char>, found: Seq<Found>)
    requires
        record_all(entries, dir_name, found),
    ensures
        weight(entries) == found_weight(dir_name, found),
    decreases found.len(),
{
    if found.len() > 0 {
        let e = entries.drop_last();
        let f = found.drop_last();
        assert forall|i: int| 0 <= i < f.len() implies records(#[trigger] e[i], dir_name, f[i]) by {
            assert(e[i] == entries[i]);
        }
        lemma_same_weight(e, dir_name, f);
        assert(records(entries[found.len() - 1], dir_name, found[found.len() - 1]));
    }
}

/// A name is among the entries exactly if it is among what they record.
proof fn lemma_names(entries: Seq<ZipEntry>, dir_name: Seq<char>, found: Seq<Found>, name: Seq<char>)
    requires
        record_all(entries, dir_name, found),
    ensures
        has_name(entries, name) <==> exists|k: int|
            0 <= k < found.len() && found_name(dir_name, #[trigger] found[k]) == name,
{
    assert forall|k: int| 0 <= k < found.len() implies listed(#[trigger] entries[k]).0 == found_name(
        dir_name,
        found[k],
    ) by {
        assert(records(entries[k], dir_name, found[k]));
    }
    if has_name(entries, name) {
        let k = choose|k: int| 0 <= k < entries.len() && listed(#[trigger] entries[k]).0 == name;
        assert(found_name(dir_name, found[k]) == name);
    }
    if exists|k: int| 0 <= k < found.len() && found_name(dir_name, #[trigger] found[k]) == name {
        let k = choose|k: int| 0 <= k < found.len() && found_name(dir_name, #[trigger] found[k]) == name;
        assert(listed(entries[k]).0 == name);
    }
}

/// One more entry: whether it fits, and whether its name is new.
proof fn lemma_one_more(
    before: Seq<ZipEntry>,
    e: ZipEntry,
    dir_name: Seq<char>,
    found: Seq<Found>,
    i: int,
)
    requires
        0 <= i < found.len(),
        record_all(before, dir_name, found.take(i)),
        records(e, dir_name, found[i]),
    ensures
        record_all(before.push(e), dir_name, found.take(i + 1)),
        found_fit(found) ==> fits(e),
        has_name(before, listed(e).0) ==> !different_names(dir_name, found),
        !has_name(before, listed(e).0) && different_names(dir_name, found.take(i)) ==> different_names(
            dir_name,
            found.take(i + 1),
        ),
{
    let now = before.push(e);
    let f = found.take(i + 1);
    assert forall|k: int| 0 <= k < f.len() implies records(#[trigger] now[k], dir_name, f[k]) by {
        if k < i {
            assert(now[k] == before[k]);
            assert(records(before[k], dir_name, found.take(i)[k]));
        }
    }
    lemma_names(before, dir_name, found.take(i), listed(e).0);
    assert(listed(e).0 == found_name(dir_name, found[i]));
    if has_name(before, listed(e).0) {
        let k = choose|k: int|
            0 <= k < i && found_name(dir_name, #[trigger] found.take(i)[k]) == listed(e).0;
        assert(found_name(dir_name, found[k]) == found_name(dir_name, found[i]));
    } else if different_names(dir_name, found.take(i)) {
        assert forall|a: int, b: int| 0 <= a < b < f.len() implies found_name(dir_name, #[trigger] f[a])
            != found_name(dir_name, #[trigger] f[b]) by {
            assert(f[a] == found.take(i)[a]);
            if b < i {
                assert(f[b] == found.take(i)[b]);
            }
        }
    }
}

/// Whether this is what comes of putting what the walk found into an archive, under the name of the
/// directory. The bytes are those of the archive with one entry for each, in the same order, and reading
/// the archive gives their names and contents back, as long as it stays below 4 GiB and the number of
/// entries is clear. If each file stays below 4 GiB it fails if two entries have the same name, and only
/// then.
pub open spec fn archived(r: Result<Vec<u8>, String>, dir_name: Seq<char>, found: Seq<Found>) -> bool {
    &&& r matches Ok(b) ==> exists|entries: Seq<ZipEntry>|
        {
            &&& record_all(entries, dir_name, found)
            &&& b@ == #[trigger] zip_bytes(entries)
            &&& found.len() != UNCLEAR_COUNT && found_weight(dir_name, found) <= ROOM ==> zip_listing(b@)
                == entries.map_values(|e: ZipEntry| listed(e))
        }
    &&& found_fit(found) ==> (r is Ok <==> different_names(dir_name, found))
}

fn write_archive(dir_name: &str, found: &[Found]) -> (r: Result<Vec<u8>, String>)
    requires
        forall|i: int|
            0 <= i < found@.len() ==> encode_utf8(found_name(dir_name@, #[trigger] found@[i])).len()
                <= MAX_ENTRY_NAME,
    ensures
        archived(r, dir_name@, found@),
{
    let mut z = zip_new();
    let mut i: usize = 0;
    let ghost fit = found_fit(found@);
    while i < found.len()
        invariant
            i <= found@.len(),
            fit == found_fit(found@),
            zip_sound(z),
            record_all(zip_entries(z), dir_name@, found@.take(i as int)),
            fit ==> all_fit(zip_entries(z)) && different_names(dir_name@, found@.take(i as int)),
            forall|k: int|
                0 <= k < found@.len() ==> encode_utf8(
                    found_name(dir_name@, #[trigger] found@[k]),
                ).len() <= MAX_ENTRY_NAME,
        decreases found.len() - i,
    {
        let f = &found[i];
        let ghost before = zip_entries(z);
        let name = entry_path(dir_name, f.rel.as_str());
        let stamp = zip_stamp(f.modified);
        let ghost e: ZipEntry = (
            name@,
            stamp,
            if f.is_dir {
                None
            } else {
                Some(f.data@)
            },
        );
        assert(encode_utf8(found_name(dir_name@, found@[i as int])).len() <= MAX_ENTRY_NAME);
        proof {
            lemma_one_more(before, e, dir_name@, found@, i as int);
        }
        if f.is_dir {
            if let Err(m) = zip_add_directory(&mut z, name, stamp) {
                return Err(m);
            }
        } else {
            let ghost bare: ZipEntry = (name@, stamp, Some(Seq::empty()));
            proof {
                assert(before.push(bare).drop_last() =~= before);
                assert(before.push(e).drop_last() =~= before);
                assert(filled(before.push(bare), f.data@) =~= before.push(e));
            }
            if let Err(m) = zip_start_file(&mut z, name, stamp) {
                return Err(m);
            }
            if let Err(m) = zip_write(&mut z, f.data.as_slice()) {
                return Err(m);
            }
        }
        assert(zip_entries(z) =~= before.push(e));
        i += 1;
    }
    assert(found@.take(found@.len() as int) =~= found@);
    proof {
        lemma_same_weight(zip_entries(z), dir_name@, found@);
    }
    zip_finish(z)
}

/// What of a listing is not left out, in the same order.
pub open spec fn kept(patterns: Seq<String>, root: Seq<char>, sep: char, listing: Seq<Found>) -> Seq<Found>
    decreases listing.len(),
{
    if listing.len() == 0 {
        Seq::empty()
    } else {
        let before = kept(patterns, root, sep, listing.drop_last());
        if left_out(patterns, root, listing.last().rel@, sep) {
            before
        } else {
            before.push(listing.last())
        }
    }
}

/// Whether every platform agrees on all of a listing.
pub open spec fn all_settled(patterns: Seq<String>, root: Seq<char>, sep: char, listing: Seq<Found>) -> bool {
    forall|i: int|
        0 <= i < listing.len() ==> path_settled(patterns, root, (#[trigger] listing[i]).rel@, sep)
}

/// Whether this is what stays of a listing, in the same order: what is left out does not, the rest does.
/// That of which platforms differ may do either.
pub open spec fn stays(
    patterns: Seq<String>,
    root: Seq<char>,
    sep: char,
    listing: Seq<Found>,
    found: Seq<Found>,
) -> bool
    decreases listing.len(),
{
    if listing.len() == 0 {
        found.len() == 0
    } else {
        let f = listing.last();
        let unsure = !path_settled(patterns, root, f.rel@, sep);
        let out = left_out(patterns, root, f.rel@, sep);
        ||| (unsure || out) && stays(patterns, root, sep, listing.drop_last(), found)
        ||| (unsure || !out) && found.len() > 0 && found.last() == f && stays(
            patterns,
            root,
            sep,
            listing.drop_last(),
            found.drop_last(),
        )
    }
}

/// Whether the patterns leave something out, and every platform agrees on it.
pub open spec fn surely_out(patterns: Seq<String>, root: Seq<char>, sep: char, f: Found) -> bool {
    path_settled(patterns, root, f.rel@, sep) && left_out(patterns, root, f.rel@, sep)
}

/// Where every platform agrees, only one sequence is what stays.
proof fn lemma_stays(
    patterns: Seq<String>,
    root: Seq<char>,
    sep: char,
    listing: Seq<Found>,
    found: Seq<Found>,
)
    requires
        stays(patterns, root, sep, listing, found),
    ensures
        all_settled(patterns, root, sep, listing) ==> found == kept(patterns, root, sep, listing),
        forall|j: int|
            0 <= j < found.len() ==> listing.contains(#[trigger] found[j]) && !surely_out(
                patterns,
                root,
                sep,
                found[j],
            ),
    decreases listing.len(),
{
    if listing.len() == 0 {
        assert(found =~= Seq::empty());
    } else {
        let head = listing.drop_last();
        let last = listing.last();
        let without = stays(patterns, root, sep, head, found) && (left_out(
            patterns,
            root,
            last.rel@,
            sep,
        ) || !path_settled(patterns, root, last.rel@, sep));
        let before = if without {
            found
        } else {
            found.drop_last()
        };
        lemma_stays(patterns, root, sep, head, before);
        if all_settled(patterns, root, sep, listing) {
            assert forall|i: int| 0 <= i < head.len() implies path_settled(
                patterns,
                root,
                (#[trigger] head[i]).rel@,
                sep,
            ) by {
                assert(head[i] == listing[i]);
            }
            assert(path_settled(patterns, root, listing[listing.len() - 1].rel@, sep));
            if !without {
                assert(found =~= before.push(last));
            }
        }
        assert forall|j: int| 0 <= j < found.len() implies listing.contains(#[trigger] found[j])
            && !surely_out(patterns, root, sep, found[j]) by {
            if j < before.len() {
                assert(found[j] == before[j]);
                assert(head.contains(before[j]));
                let i = choose|i: int| 0 <= i < head.len() && head[i] == before[j];
                assert(listing[i] == found[j]);
            } else {
                assert(found[j] == last);
                assert(listing[listing.len() - 1] == last);
            }
        }
    }
}

/// What of a listing is not marked, in the same order.
pub open spec fn picked(listing: Seq<Found>, marks: Seq<bool>) -> Seq<Found>
    decreases listing.len(),
{
    if listing.len() == 0 {
        Seq::empty()
    } else {
        let before = picked(listing.drop_last(), marks.take(listing.len() - 1));
        if marks[listing.len() - 1] {
            before
        } else {
            before.push(listing.last())
        }
    }
}

/// Drops what is marked from a listing.
pub fn pick(listing: Vec<Found>, marks: &[bool]) -> (r: Vec<Found>)
    requires
        marks@.len() == listing@.len(),
    ensures
        r@ == picked(listing@, marks@),
{
    let ghost all = listing@;
    let mut r: Vec<Found> = Vec::new();
    let mut i: usize = 0;
    for f in it: listing
        invariant
            it.seq() == all,
            i == it.index(),
            marks@.len() == all.len(),
            r@ == picked(all.take(it.index()), marks@.take(it.index())),
    {
        proof {
            assert(f == all[it.index()]);
            assert(all.take(it.index() + 1).drop_last() =~= all.take(it.index()));
            assert(marks@.take(it.index() + 1).take(it.index()) =~= marks@.take(it.index()));
        }
        if !marks[i] {
            r.push(f);
        }
        i += 1;
    }
    assert(all.take(all.len() as int) =~= all);
    assert(marks@.take(all.len() as int) =~= marks@);
    r
}

/// Marks that follow the patterns leave what stays.
proof fn lemma_picked(
    patterns: Seq<String>,
    root: Seq<char>,
    sep: char,
    listing: Seq<Found>,
    marks: Seq<bool>,
)
    requires
        marks.len() == listing.len(),
        forall|i: int|
            0 <= i < listing.len() && path_settled(patterns, root, (#[trigger] listing[i]).rel@, sep)
                ==> marks[i] == left_out(patterns, root, listing[i].rel@, sep),
    ensures
        stays(patterns, root, sep, listing, picked(listing, marks)),
    decreases listing.len(),
{
    if listing.len() > 0 {
        let n = listing.len() - 1;
        let head = listing.drop_last();
        assert forall|i: int|
            0 <= i < head.len() && path_settled(patterns, root, (#[trigger] head[i]).rel@, sep) implies marks.take(
            n,
        )[i] == left_out(patterns, root, head[i].rel@, sep) by {
            assert(head[i] == listing[i]);
        }
        lemma_picked(patterns, root, sep, head, marks.take(n));
        let before = picked(head, marks.take(n));
        assert(listing[n] == listing.last());
        assert(before.push(listing.last()).drop_last() =~= before);
    }
}

/// Goes through the listing of a directory of this name, with this character between the parts of a
/// path: what has no excluded name on the way to it stays, in the same order. It is left open whether
/// something stays on which platforms differ.
pub fn keep(listing: Vec<Found>, patterns: &[String], root: &str, sep: char) -> (r: Vec<Found>)
    ensures
        stays(patterns@, root@, sep, listing@, r@),
        all_settled(patterns@, root@, sep, listing@) ==> r@ == kept(patterns@, root@, sep, listing@),
{
    let mut marks: Vec<bool> = Vec::new();
    let mut i: usize = 0;
    while i < listing.len()
        invariant
            marks@.len() == i <= listing@.len(),
            forall|k: int|
                0 <= k < i && path_settled(patterns@, root@, (#[trigger] listing@[k]).rel@, sep)
                    ==> marks@[k] == left_out(patterns@, root@, listing@[k].rel@, sep),
        decreases listing.len() - i,
    {
        marks.push(is_left_out(patterns, root, listing[i].rel.as_str(), sep));
        i += 1;
    }
    proof {
        let found = picked(listing@, marks@);
        lemma_picked(patterns@, root@, sep, listing@, marks@);
        lemma_stays(patterns@, root@, sep, listing@, found);
    }
    pick(listing, marks.as_slice())
}

/// Whether this is what comes of archiving a directory: an archive of what stays of its listing.
pub open spec fn zipped(
    r: Result<Vec<u8>, String>,
    root: Seq<char>,
    dir_name: Seq<char>,
    listing: Seq<Found>,
    patterns: Seq<String>,
    sep: char,
) -> bool {
    exists|found: Seq<Found>|
        stays(patterns, root, sep, listing, found) && #[trigger] archived(r, dir_name, found)
}

/// The archive of a directory of this name (`root`), as a walk has listed it with this character between
/// the parts of a path, under another name: all that the patterns do not leave out. The names of the
/// entries have to fit. It is left open whether something is in the archive on which platforms differ.
pub fn zip_directory(root: &str, dir_name: &str, listing: Vec<Found>, patterns: &[String], sep: char) -> (r:
    Result<Vec<u8>, String>)
    requires
        forall|i: int|
            0 <= i < listing@.len() && !surely_out(patterns@, root@, sep, #[trigger] listing@[i])
                ==> encode_utf8(found_name(dir_name@, listing@[i])).len() <= MAX_ENTRY_NAME,
    ensures
        zipped(r, root@, dir_name@, listing@, patterns@, sep),
        all_settled(patterns@, root@, sep, listing@) ==> archived(
            r,
            dir_name@,
            kept(patterns@, root@, sep, listing@),
        ),
{
    let ghost all = listing@;
    let found = keep(listing, patterns, root, sep);
    proof {
        lemma_stays(patterns@, root@, sep, all, found@);
    }
    assert forall|j: int| 0 <= j < found@.len() implies encode_utf8(
        found_name(dir_name@, #[trigger] found@[j]),
    ).len() <= MAX_ENTRY_NAME by {
        assert(all.contains(found@[j]));
        let i = choose|i: int| 0 <= i < all.len() && all[i] == found@[j];
        assert(!surely_out(patterns@, root@, sep, all[i]));
    }
    write_archive(dir_name, found.as_slice())
}

/// What stays of a listing is exactly what has no excluded name on the way to it.
pub proof fn law_kept_is_not_left_out(
    patterns: Seq<String>,
    root: Seq<char>,
    sep: char,
    listing: Seq<Found>,
    f: Found,
)
    ensures
        kept(patterns, root, sep, listing).contains(f) <==> listing.contains(f) && !left_out(
            patterns,
            root,
            f.rel@,
            sep,
        ),
    decreases listing.len(),
{
    let k = kept(patterns, root, sep, listing);
    if listing.len() > 0 {
        let head = listing.drop_last();
        let before = kept(patterns, root, sep, head);
        let last = listing.last();
        law_kept_is_not_left_out(patterns, root, sep, head, f);
        if head.contains(f) {
            let i = choose|i: int| 0 <= i < head.len() && head[i] == f;
            assert(listing[i] == f);
        }
        if listing.contains(f) {
            let i = choose|i: int| 0 <= i < listing.len() && listing[i] == f;
            if i < head.len() {
                assert(head[i] == f);
            }
        }
        if before.contains(f) {
            let i = choose|i: int| 0 <= i < before.len() && before[i] == f;
            assert(k[i] == f);
        }
        if k.contains(f) {
            let i = choose|i: int| 0 <= i < k.len() && k[i] == f;
            if i < before.len() {
                assert(before[i] == f);
            }
        }
        if !left_out(patterns, root, last.rel@, sep) {
            assert(k[before.len() as int] == last);
        }
        assert(listing[listing.len() - 1] == last);
    }
}

/// Archiving is repeatable: two archives of what a walk found, made at any two times, are the same byte for
/// byte.
pub proof fn law_archive_is_repeatable(
    a: Result<Vec<u8>, String>,
    b: Result<Vec<u8>, String>,
    dir_name: Seq<char>,
    found: Seq<Found>,
)
    requires
        archived(a, dir_name, found),
        archived(b, dir_name, found),
        a is Ok,
        b is Ok,
    ensures
        a->Ok_0@ == b->Ok_0@,
{
    let x = choose|x: Seq<ZipEntry>| record_all(x, dir_name, found) && a->Ok_0@ == #[trigger] zip_bytes(x);
    let y = choose|y: Seq<ZipEntry>| record_all(y, dir_name, found) && b->Ok_0@ == #[trigger] zip_bytes(y);
    assert forall|i: int| 0 <= i < x.len() implies x[i] == y[i] by {
        assert(records(x[i], dir_name, found[i]));
        assert(records(y[i], dir_name, found[i]));
        if in_zip_years(found[i].modified as int) {
            law_stamp_is_unique(x[i].1, y[i].1);
        }
    }
    assert(x =~= y);
}

/// The archive of a directory is repeatable: two calls on the same directory with the same patterns, at any
/// two times, give the same bytes, or both fail if each file stays below 4 GiB. This is without patterns
/// and names on which platforms differ.
pub proof fn law_directory_is_repeatable(
    a: Result<Vec<u8>, String>,
    b: Result<Vec<u8>, String>,
    root: Seq<char>,
    dir_name: Seq<char>,
    listing: Seq<Found>,
    patterns: Seq<String>,
    sep: char,
)
    requires
        zipped(a, root, dir_name, listing, patterns, sep),
        zipped(b, root, dir_name, listing, patterns, sep),
        all_settled(patterns, root, sep, listing),
    ensures
        a is Ok && b is Ok ==> a->Ok_0@ == b->Ok_0@,
        found_fit(listing) ==> (a is Ok <==> b is Ok),
{
    let x = choose|x: Seq<Found>|
        stays(patterns, root, sep, listing, x) && #[trigger] archived(a, dir_name, x);
    let y = choose|y: Seq<Found>|
        stays(patterns, root, sep, listing, y) && #[trigger] archived(b, dir_name, y);
    lemma_stays(patterns, root, sep, listing, x);
    lemma_stays(patterns, root, sep, listing, y);
    assert(x == y);
    if a is Ok && b is Ok {
        law_archive_is_repeatable(a, b, dir_name, x);
    }
    if found_fit(listing) {
        assert forall|j: int| 0 <= j < x.len() implies (#[trigger] x[j]).is_dir || x[j].data@.len() <= ROOM by {
            assert(listing.contains(x[j]));
            let i = choose|i: int| 0 <= i < listing.len() && listing[i] == x[j];
            assert(listing[i].is_dir || listing[i].data@.len() <= ROOM);
        }
    }
}

/// Reading an archive gives back what the walk found, one entry for each in the same order: a file under the
/// name of the directory, a slash and its path, with its contents, and a directory with nothing in it and a
/// slash at its end. The archive has to stay below 4 GiB, and the number of entries has to be clear.
pub proof fn law_archive_is_read_back(
    r: Result<Vec<u8>, String>,
    dir_name: Seq<char>,
    found: Seq<Found>,
    i: int,
)
    requires
        archived(r, dir_name, found),
        r is Ok,
        found.len() != UNCLEAR_COUNT,
        found_weight(dir_name, found) <= ROOM,
        0 <= i < found.len(),
    ensures
        ({
            let listing = zip_listing(r->Ok_0@);
            let path = if found[i].rel@.len() == 0 {
                dir_name
            } else {
                dir_name + seq!['/'] + found[i].rel@
            };
            &&& listing.len() == found.len()
            &&& !found[i].is_dir ==> listing[i] == (path, found[i].data@)
            &&& found[i].is_dir ==> listing[i].1.len() == 0
            &&& found[i].is_dir && path.len() > 0 && path.last() != '/' && path.last() != '\\' ==> listing[i].0
                == path.push('/')
        }),
{
    reveal_strlit("/");
    assert("/"@ =~= seq!['/']);
    let b = r->Ok_0@;
    let entries = choose|entries: Seq<ZipEntry>|
        {
            &&& record_all(entries, dir_name, found)
            &&& b == #[trigger] zip_bytes(entries)
            &&& found.len() != UNCLEAR_COUNT && found_weight(dir_name, found) <= ROOM ==> zip_listing(b)
                == entries.map_values(|e: ZipEntry| listed(e))
        };
    assert(records(entries[i], dir_name, found[i]));
    assert(zip_listing(b)[i] == listed(entries[i]));
}

/// A pattern more can only leave out more: a name is excluded by patterns together exactly if it is by some
/// of them, and without any it never is.
pub proof fn law_patterns_add_up(p: Seq<String>, q: Seq<String>, name: Seq<char>)
    ensures
        excluded(p + q, name) <==> excluded(p, name) || excluded(q, name),
        !excluded(Seq::empty(), name),
{
    let yes = Ok::<bool, Seq<char>>(true);
    if excluded(p, name) {
        let i = choose|i: int| 0 <= i < p.len() && #[trigger] glob_match(p[i]@, name) == yes;
        assert(glob_match((p + q)[i]@, name) == yes);
    }
    if excluded(q, name) {
        let i = choose|i: int| 0 <= i < q.len() && #[trigger] glob_match(q[i]@, name) == yes;
        assert(glob_match((p + q)[p.len() + i]@, name) == yes);
    }
    if excluded(p + q, name) {
        let i = choose|i: int| 0 <= i < (p + q).len() && #[trigger] glob_match((p + q)[i]@, name) == yes;
        if i < p.len() {
            assert(glob_match(p[i]@, name) == yes);
        } else {
            assert(glob_match(q[i - p.len()]@, name) == yes);
        }
    }
}

/// What is in a directory is left out if the directory is, or if its own name is excluded, and in no other
/// case. The directory that is archived is left out if its name is excluded.
pub proof fn law_path_is_left_out_by_a_name(
    patterns: Seq<String>,
    root: Seq<char>,
    dir: Seq<char>,
    name: Seq<char>,
    sep: char,
)
    requires
        !name.contains(sep),
        name.len() > 0,
    ensures
        left_out(patterns, root, Seq::empty(), sep) <==> excluded(patterns, root),
        left_out(patterns, root, name, sep) <==> excluded(patterns, root) || excluded(patterns, name),
        dir.len() > 0 ==> (left_out(patterns, root, dir + seq![sep] + name, sep) <==> left_out(
            patterns,
            root,
            dir,
            sep,
        ) || excluded(patterns, name)),
{
    assert forall|i: int| 0 <= i < name.len() implies name[i] != sep by {
        assert(name.contains(name[i]));
    }
    crate::text::lemma_position_is(name, sep, name.len() as int);
    assert(split(name, sep) == seq![name]);
    lemma_split_at(dir, name, sep);
    let none = Seq::<char>::empty();
    assert(names_on_way(root, none, sep)[0] == root);
    let one = names_on_way(root, name, sep);
    assert(one =~= seq![root, name]);
    assert(one[0] == root && one[1] == name);
    if dir.len() > 0 {
        let short = names_on_way(root, dir, sep);
        let long = names_on_way(root, dir + seq![sep] + name, sep);
        assert(long =~= short.push(name));
        if left_out(patterns, root, dir, sep) {
            let i = choose|i: int| 0 <= i < short.len() && excluded(patterns, #[trigger] short[i]);
            assert(long[i] == short[i]);
        }
        if excluded(patterns, name) {
            assert(long[short.len() as int] == name);
        }
        if left_out(patterns, root, dir + seq![sep] + name, sep) {
            let i = choose|i: int| 0 <= i < long.len() && excluded(patterns, #[trigger] long[i]);
            if i < short.len() {
                assert(short[i] == long[i]);
            }
        }
    }
}

/// What stays of a listing stays in its order, and each thing stays or goes by itself.
pub proof fn law_listing_keeps_its_order(
    patterns: Seq<String>,
    root: Seq<char>,
    sep: char,
    a: Seq<Found>,
    b: Seq<Found>,
)
    ensures
        kept(patterns, root, sep, a + b) == kept(patterns, root, sep, a) + kept(patterns, root, sep, b),
    decreases b.len(),
{
    if b.len() == 0 {
        assert(a + b =~= a);
        assert(kept(patterns, root, sep, a) + kept(patterns, root, sep, b) =~= kept(patterns, root, sep, a));
    } else {
        law_listing_keeps_its_order(patterns, root, sep, a, b.drop_last());
        assert((a + b).drop_last() =~= a + b.drop_last());
        assert((a + b).last() == b.last());
        assert(kept(patterns, root, sep, a + b) =~= kept(patterns, root, sep, a) + kept(patterns, root, sep, b));
    }
}

} // verus!
