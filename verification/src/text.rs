//! Text as sequences of characters: trimming, splitting, searching, and decimal numbers.
//!
//! The executable functions work on slices of characters; `chars_of` and `string_of` convert
//! between them and strings.

use vstd::prelude::*;
use vstd::slice::slice_subrange;

verus! {

/// `String::push` appends one character.
pub assume_specification[ String::push ](s: &mut String, c: char)
    ensures
        final(s)@ == old(s)@.push(c),
;

// ---------------------------------------------------------------------------------------------
// Conversions and comparison
// ---------------------------------------------------------------------------------------------

/// The characters of a string.
pub fn chars_of(s: &str) -> (v: Vec<char>)
    ensures
        v@ == s@,
{
    let mut v: Vec<char> = Vec::new();
    for c in it: s.chars()
        invariant
            it.seq() == s@,
            v@ == s@.take(it.index()),
    {
        proof {
            assert(s@.take(it.index() + 1) =~= s@.take(it.index()).push(c));
        }
        v.push(c);
    }
    assert(s@.take(s@.len() as int) =~= s@);
    v
}

/// The string made of `v`.
pub fn string_of(v: &[char]) -> (s: String)
    ensures
        s@ == v@,
{
    let mut s = String::new();
    push_chars(&mut s, v);
    assert(s@ =~= v@);
    s
}

/// Appends all of `v` to `s`.
pub fn push_chars(s: &mut String, v: &[char])
    ensures
        final(s)@ == old(s)@ + v@,
{
    let mut i: usize = 0;
    assert(v@.take(0) =~= Seq::empty());
    assert(s@ =~= old(s)@ + v@.take(0));
    while i < v.len()
        invariant
            i <= v.len(),
            s@ == old(s)@ + v@.take(i as int),
        decreases v.len() - i,
    {
        s.push(v[i]);
        proof {
            assert(old(s)@ + v@.take(i as int + 1) =~= (old(s)@ + v@.take(i as int)).push(v@[i as int]));
        }
        i += 1;
    }
    assert(v@.take(v@.len() as int) =~= v@);
}

/// Whether two slices hold the same characters.
pub fn same_chars(a: &[char], b: &[char]) -> (r: bool)
    ensures
        r == (a@ == b@),
{
    if a.len() != b.len() {
        return false;
    }
    let mut i: usize = 0;
    while i < a.len()
        invariant
            i <= a.len(),
            a.len() == b.len(),
            forall|j: int| 0 <= j < i ==> a@[j] == b@[j],
        decreases a.len() - i,
    {
        if a[i] != b[i] {
            return false;
        }
        i += 1;
    }
    assert(a@ =~= b@);
    true
}

/// Whether two strings hold the same characters.
pub fn same_str(a: &str, b: &str) -> (r: bool)
    ensures
        r == (a@ == b@),
{
    let x = chars_of(a);
    let y = chars_of(b);
    same_chars(x.as_slice(), y.as_slice())
}

// ---------------------------------------------------------------------------------------------
// Trimming
// ---------------------------------------------------------------------------------------------

/// The characters with the Unicode property White_Space.
pub open spec fn is_space(c: char) -> bool {
    ||| '\u{9}' <= c <= '\u{d}'
    ||| c == ' '
    ||| c == '\u{85}'
    ||| c == '\u{a0}'
    ||| c == '\u{1680}'
    ||| '\u{2000}' <= c <= '\u{200a}'
    ||| c == '\u{2028}'
    ||| c == '\u{2029}'
    ||| c == '\u{202f}'
    ||| c == '\u{205f}'
    ||| c == '\u{3000}'
}

/// Whether `c` is white space.
pub fn is_whitespace(c: char) -> (r: bool)
    ensures
        r == is_space(c),
{
    ('\u{9}' <= c && c <= '\u{d}') || c == ' ' || c == '\u{85}' || c == '\u{a0}' || c == '\u{1680}'
        || ('\u{2000}' <= c && c <= '\u{200a}') || c == '\u{2028}' || c == '\u{2029}'
        || c == '\u{202f}' || c == '\u{205f}' || c == '\u{3000}'
}

/// What a trim removes.
#[derive(Clone, Copy)]
pub enum Strip {
    /// White space.
    Space,
    /// One given character.
    Only(char),
}

impl Strip {
    /// Whether `c` is removed.
    pub open spec fn takes(self, c: char) -> bool {
        match self {
            Strip::Space => is_space(c),
            Strip::Only(k) => c == k,
        }
    }

    /// Executable form of `takes`.
    pub fn hits(&self, c: char) -> (r: bool)
        ensures
            r == self.takes(c),
    {
        match self {
            Strip::Space => is_whitespace(c),
            Strip::Only(k) => c == *k,
        }
    }
}

/// `s` without its longest prefix of removed characters.
pub open spec fn stripped_start(s: Seq<char>, k: Strip) -> Seq<char>
    decreases s.len(),
{
    if s.len() > 0 && k.takes(s[0]) {
        stripped_start(s.skip(1), k)
    } else {
        s
    }
}

/// `s` without its longest suffix of removed characters.
pub open spec fn stripped_end(s: Seq<char>, k: Strip) -> Seq<char>
    decreases s.len(),
{
    if s.len() > 0 && k.takes(s.last()) {
        stripped_end(s.drop_last(), k)
    } else {
        s
    }
}

/// `s` trimmed at both ends.
pub open spec fn stripped(s: Seq<char>, k: Strip) -> Seq<char> {
    stripped_end(stripped_start(s, k), k)
}

/// `s` without white space at either end.
pub open spec fn trimmed(s: Seq<char>) -> Seq<char> {
    stripped(s, Strip::Space)
}

/// A sequence whose ends are not removed is its own trim.
pub proof fn lemma_stripped_same(s: Seq<char>, k: Strip)
    requires
        s.len() > 0 ==> !k.takes(s[0]) && !k.takes(s.last()),
    ensures
        stripped(s, k) == s,
{
}

/// Removes leading characters.
pub fn strip_start<'a>(s: &'a [char], k: Strip) -> (r: &'a [char])
    ensures
        r@ == stripped_start(s@, k),
{
    let mut i: usize = 0;
    assert(s@.skip(0) =~= s@);
    while i < s.len() && k.hits(s[i])
        invariant
            i <= s.len(),
            stripped_start(s@, k) == stripped_start(s@.skip(i as int), k),
        decreases s.len() - i,
    {
        proof {
            assert(s@.skip(i as int).skip(1) =~= s@.skip(i as int + 1));
        }
        i += 1;
    }
    assert(s@.subrange(i as int, s@.len() as int) =~= s@.skip(i as int));
    slice_subrange(s, i, s.len())
}

/// Removes trailing characters.
pub fn strip_end<'a>(s: &'a [char], k: Strip) -> (r: &'a [char])
    ensures
        r@ == stripped_end(s@, k),
{
    let mut n: usize = s.len();
    assert(s@.take(n as int) =~= s@);
    while n > 0 && k.hits(s[n - 1])
        invariant
            n <= s.len(),
            stripped_end(s@, k) == stripped_end(s@.take(n as int), k),
        decreases n,
    {
        proof {
            assert(s@.take(n as int).drop_last() =~= s@.take(n as int - 1));
        }
        n -= 1;
    }
    assert(s@.subrange(0, n as int) =~= s@.take(n as int));
    slice_subrange(s, 0, n)
}

/// Trims both ends.
pub fn strip<'a>(s: &'a [char], k: Strip) -> (r: &'a [char])
    ensures
        r@ == stripped(s@, k),
{
    strip_end(strip_start(s, k), k)
}

/// Trims white space at both ends.
pub fn trim<'a>(s: &'a [char]) -> (r: &'a [char])
    ensures
        r@ == trimmed(s@),
{
    strip(s, Strip::Space)
}

// ---------------------------------------------------------------------------------------------
// Searching
// ---------------------------------------------------------------------------------------------

/// Whether `p` is a prefix of `s`.
pub open spec fn starts(s: Seq<char>, p: Seq<char>) -> bool {
    p.len() <= s.len() && s.take(p.len() as int) == p
}

/// Whether `p` is a suffix of `s`.
pub open spec fn ends(s: Seq<char>, p: Seq<char>) -> bool {
    p.len() <= s.len() && s.skip(s.len() - p.len()) == p
}

/// Whether `p` is a prefix of `s`.
pub fn starts_with(s: &[char], p: &[char]) -> (r: bool)
    ensures
        r == starts(s@, p@),
{
    if p.len() > s.len() {
        return false;
    }
    assert(s@.subrange(0, p@.len() as int) =~= s@.take(p@.len() as int));
    same_chars(slice_subrange(s, 0, p.len()), p)
}

/// Whether `p` is a suffix of `s`.
pub fn ends_with(s: &[char], p: &[char]) -> (r: bool)
    ensures
        r == ends(s@, p@),
{
    if p.len() > s.len() {
        return false;
    }
    assert(s@.subrange(s@.len() - p@.len(), s@.len() as int) =~= s@.skip(s@.len() - p@.len()));
    same_chars(slice_subrange(s, s.len() - p.len(), s.len()), p)
}

/// The first position of `c` in `s`, or the length of `s`.
pub open spec fn position(s: Seq<char>, c: char) -> int
    decreases s.len(),
{
    if s.len() == 0 || s[0] == c {
        0
    } else {
        1 + position(s.skip(1), c)
    }
}

/// `position` is the first occurrence, or the length when there is none.
pub proof fn lemma_position(s: Seq<char>, c: char)
    ensures
        0 <= position(s, c) <= s.len(),
        position(s, c) < s.len() ==> s[position(s, c)] == c,
        forall|i: int| 0 <= i < position(s, c) ==> s[i] != c,
    decreases s.len(),
{
    if s.len() > 0 && s[0] != c {
        lemma_position(s.skip(1), c);
        assert forall|i: int| 0 <= i < position(s, c) implies s[i] != c by {
            if i > 0 {
                assert(s[i] == s.skip(1)[i - 1]);
            }
        }
    }
}

/// The first occurrence is the only position that looks like it.
pub proof fn lemma_position_is(s: Seq<char>, c: char, n: int)
    requires
        0 <= n <= s.len(),
        n < s.len() ==> s[n] == c,
        forall|i: int| 0 <= i < n ==> s[i] != c,
    ensures
        position(s, c) == n,
{
    lemma_position(s, c);
    if position(s, c) < n {
        assert(s[position(s, c)] != c);
    } else if n < position(s, c) {
        assert(s[n] != c);
    }
}

/// The first position of `c` in `s`, or the length of `s`.
pub fn find_char(s: &[char], c: char) -> (r: usize)
    ensures
        r == position(s@, c),
        r <= s.len(),
{
    let mut i: usize = 0;
    while i < s.len() && s[i] != c
        invariant
            i <= s.len(),
            forall|j: int| 0 <= j < i ==> s@[j] != c,
        decreases s.len() - i,
    {
        i += 1;
    }
    proof {
        lemma_position_is(s@, c, i as int);
    }
    i
}

/// Whether `s` holds `c`.
pub fn contains_char(s: &[char], c: char) -> (r: bool)
    ensures
        r == s@.contains(c),
{
    let i = find_char(s, c);
    proof {
        lemma_position(s@, c);
        if s@.contains(c) {
            let j = choose|j: int| 0 <= j < s@.len() && s@[j] == c;
            assert(s@[j] == c);
        }
    }
    i < s.len()
}

/// The first position at which `p` stands in `s`.
pub open spec fn found(s: Seq<char>, p: Seq<char>) -> Option<int>
    decreases s.len(),
{
    if starts(s, p) {
        Some(0int)
    } else if s.len() == 0 {
        None
    } else {
        match found(s.skip(1), p) {
            Some(i) => Some(i + 1),
            None => None,
        }
    }
}

/// What `found` says of its result.
pub proof fn lemma_found(s: Seq<char>, p: Seq<char>)
    ensures
        found(s, p) matches Some(i) ==> {
            &&& 0 <= i
            &&& i + p.len() <= s.len()
            &&& s.subrange(i, i + p.len()) == p
        },
        found(s, p) matches Some(i) ==> forall|j: int| 0 <= j < i ==> !starts(#[trigger] s.skip(j), p),
        found(s, p) is None ==> forall|j: int| 0 <= j <= s.len() ==> !starts(#[trigger] s.skip(j), p),
    decreases s.len(),
{
    assert(s.skip(0) =~= s);
    if starts(s, p) {
        assert(s.subrange(0, p.len() as int) =~= s.take(p.len() as int));
    } else if s.len() > 0 {
        let t = s.skip(1);
        lemma_found(t, p);
        assert forall|j: int| 1 <= j <= s.len() implies #[trigger] s.skip(j) == t.skip(j - 1) by {
            assert(s.skip(j) =~= t.skip(j - 1));
        }
        if let Some(i) = found(t, p) {
            assert(s.subrange(i + 1, i + 1 + p.len()) =~= t.subrange(i, i + p.len()));
        }
    }
}

/// The first occurrence of `p` is where `found` says.
pub proof fn lemma_found_is(s: Seq<char>, p: Seq<char>, n: int)
    requires
        0 <= n <= s.len(),
        starts(s.skip(n), p),
        forall|j: int| 0 <= j < n ==> !starts(#[trigger] s.skip(j), p),
    ensures
        found(s, p) == Some(n),
{
    lemma_found(s, p);
    if let Some(i) = found(s, p) {
        assert(s.skip(i).take(p.len() as int) =~= s.subrange(i, i + p.len()));
        assert(starts(s.skip(i), p));
    }
}

/// The first position at which `p` stands in `s`.
pub fn find(s: &[char], p: &[char]) -> (r: Option<usize>)
    ensures
        r is Some <==> found(s@, p@) is Some,
        r matches Some(i) ==> found(s@, p@) == Some(i as int) && i + p@.len() <= s@.len(),
{
    let mut i: usize = 0;
    while i <= s.len()
        invariant
            i <= s.len(),
            forall|j: int| 0 <= j < i ==> !starts(#[trigger] s@.skip(j), p@),
        decreases s.len() + 1 - i,
    {
        if s.len() - i < p.len() {
            proof {
                assert forall|j: int| 0 <= j <= s@.len() implies !starts(#[trigger] s@.skip(j), p@) by {}
                lemma_found(s@, p@);
                if let Some(k) = found(s@, p@) {
                    assert(s@.skip(k).take(p@.len() as int) =~= s@.subrange(k, k + p@.len()));
                    assert(starts(s@.skip(k), p@));
                }
            }
            return None;
        }
        assert(s@.subrange(i as int, s@.len() as int) =~= s@.skip(i as int));
        if starts_with(slice_subrange(s, i, s.len()), p) {
            proof {
                lemma_found_is(s@, p@, i as int);
            }
            return Some(i);
        }
        if i == s.len() {
            proof {
                lemma_found(s@, p@);
                if let Some(k) = found(s@, p@) {
                    assert(s@.skip(k).take(p@.len() as int) =~= s@.subrange(k, k + p@.len()));
                    assert(starts(s@.skip(k), p@));
                }
            }
            return None;
        }
        i += 1;
    }
    None
}

// ---------------------------------------------------------------------------------------------
// Splitting
// ---------------------------------------------------------------------------------------------

/// The pieces of `s` between occurrences of `sep`; always at least one.
pub open spec fn split(s: Seq<char>, sep: char) -> Seq<Seq<char>>
    decreases s.len(),
{
    let n = position(s, sep);
    if n >= s.len() {
        seq![s]
    } else {
        proof {
            lemma_position(s, sep);
        }
        seq![s.take(n)] + split(s.skip(n + 1), sep)
    }
}

/// The pieces of two texts with the separator between them are those of the one and of the other.
pub proof fn lemma_split_at(a: Seq<char>, b: Seq<char>, sep: char)
    ensures
        split(a + seq![sep] + b, sep) == split(a, sep) + split(b, sep),
    decreases a.len(),
{
    let s = a + seq![sep] + b;
    let n = position(a, sep);
    lemma_position(a, sep);
    assert forall|i: int| 0 <= i < n implies s[i] != sep by {
        assert(s[i] == a[i]);
    }
    assert(s[n] == sep);
    lemma_position_is(s, sep, n);
    assert(s.take(n) =~= a.take(n));
    if n < a.len() {
        let rest = a.skip(n + 1);
        lemma_split_at(rest, b, sep);
        assert(s.skip(n + 1) =~= rest + seq![sep] + b);
        assert(split(s, sep) =~= split(a, sep) + split(b, sep));
    } else {
        assert(a.take(n) =~= a);
        assert(s.skip(n + 1) =~= b);
        assert(split(s, sep) =~= split(a, sep) + split(b, sep));
    }
}

/// The lines of `s`: each ends at a line feed, or at a carriage return and a line feed, and the
/// last line ending is optional.
pub open spec fn lines(s: Seq<char>) -> Seq<Seq<char>>
    decreases s.len(),
{
    let n = position(s, '\n');
    if s.len() == 0 {
        Seq::empty()
    } else if n >= s.len() {
        seq![s]
    } else {
        proof {
            lemma_position(s, '\n');
        }
        seq![without_cr(s.take(n))] + lines(s.skip(n + 1))
    }
}

/// `s` without one trailing carriage return.
pub open spec fn without_cr(s: Seq<char>) -> Seq<char> {
    if s.len() > 0 && s.last() == '\r' {
        s.drop_last()
    } else {
        s
    }
}

/// The pieces of a slice, as sequences.
pub open spec fn pieces(v: Seq<&[char]>) -> Seq<Seq<char>> {
    v.map_values(|x: &[char]| x@)
}

/// Splits `s` at every `sep`.
pub fn split_at_char<'a>(s: &'a [char], sep: char) -> (r: Vec<&'a [char]>)
    ensures
        pieces(r@) == split(s@, sep),
{
    let mut r: Vec<&'a [char]> = Vec::new();
    let mut rest = s;
    assert(pieces(r@) =~= Seq::empty());
    assert(pieces(r@) + split(rest@, sep) =~= split(s@, sep));
    loop
        invariant
            pieces(r@) + split(rest@, sep) == split(s@, sep),
        decreases rest@.len(),
    {
        let n = find_char(rest, sep);
        let ghost before = pieces(r@);
        if n == rest.len() {
            r.push(rest);
            assert(pieces(r@) =~= before.push(rest@));
            assert(before.push(rest@) =~= before + seq![rest@]);
            return r;
        }
        let head = slice_subrange(rest, 0, n);
        let tail = slice_subrange(rest, n + 1, rest.len());
        assert(head@ =~= rest@.take(n as int));
        assert(tail@ =~= rest@.skip(n as int + 1));
        r.push(head);
        assert(pieces(r@) =~= before.push(head@));
        assert(before.push(head@) + split(tail@, sep) =~= before + (seq![head@] + split(tail@, sep)));
        rest = tail;
    }
}

/// Splits `s` into lines.
pub fn split_lines<'a>(s: &'a [char]) -> (r: Vec<&'a [char]>)
    ensures
        pieces(r@) == lines(s@),
{
    let mut r: Vec<&'a [char]> = Vec::new();
    let mut rest = s;
    assert(pieces(r@) =~= Seq::empty());
    assert(pieces(r@) + lines(rest@) =~= lines(s@));
    while rest.len() > 0
        invariant
            pieces(r@) + lines(rest@) == lines(s@),
        decreases rest@.len(),
    {
        let n = find_char(rest, '\n');
        let ghost before = pieces(r@);
        if n == rest.len() {
            r.push(rest);
            assert(pieces(r@) =~= before.push(rest@));
            assert(before.push(rest@) =~= before + seq![rest@]);
            return r;
        }
        let body = slice_subrange(rest, 0, n);
        let tail = slice_subrange(rest, n + 1, rest.len());
        assert(body@ =~= rest@.take(n as int));
        assert(tail@ =~= rest@.skip(n as int + 1));
        let line = if body.len() > 0 && body[body.len() - 1] == '\r' {
            assert(body@.subrange(0, body@.len() - 1) =~= body@.drop_last());
            slice_subrange(body, 0, body.len() - 1)
        } else {
            body
        };
        r.push(line);
        assert(pieces(r@) =~= before.push(line@));
        assert(before.push(line@) + lines(tail@) =~= before + (seq![line@] + lines(tail@)));
        rest = tail;
    }
    assert(pieces(r@) + lines(rest@) =~= pieces(r@));
    r
}

/// The contents of a list of strings.
pub open spec fn texts(v: Seq<String>) -> Seq<Seq<char>> {
    v.map_values(|x: String| x@)
}

/// The lines of `s` as strings.
pub fn lines_of(s: &str) -> (r: Vec<String>)
    ensures
        texts(r@) == lines(s@),
{
    let v = chars_of(s);
    let l = split_lines(v.as_slice());
    let mut r: Vec<String> = Vec::new();
    let mut i: usize = 0;
    while i < l.len()
        invariant
            i <= l.len(),
            r.len() == i,
            forall|j: int| 0 <= j < i ==> (#[trigger] r@[j])@ == l@[j]@,
        decreases l.len() - i,
    {
        r.push(string_of(l[i]));
        i += 1;
    }
    assert(texts(r@) =~= pieces(l@));
    r
}

// ---------------------------------------------------------------------------------------------
// Decimal numbers
// ---------------------------------------------------------------------------------------------

/// Whether `c` is one of `0` to `9`.
pub open spec fn is_digit(c: char) -> bool {
    '0' <= c <= '9'
}

/// Whether `s` is made of digits.
pub open spec fn all_digits(s: Seq<char>) -> bool {
    forall|i: int| 0 <= i < s.len() ==> is_digit(#[trigger] s[i])
}

/// The character of a digit.
pub open spec fn digit_char(d: nat) -> char {
    (48 + d) as char
}

/// The decimal form of `n`, without leading zeros.
pub open spec fn dec(n: nat) -> Seq<char>
    decreases n,
{
    if n < 10 {
        seq![digit_char(n)]
    } else {
        dec(n / 10).push(digit_char(n % 10))
    }
}

/// The decimal form of `n` with a minus sign where it is negative.
pub open spec fn dec_int(n: int) -> Seq<char> {
    if n < 0 {
        seq!['-'] + dec((-n) as nat)
    } else {
        dec(n as nat)
    }
}

/// The number that a sequence of digits writes.
pub open spec fn digits_value(s: Seq<char>) -> nat
    decreases s.len(),
{
    if s.len() == 0 {
        0
    } else {
        digits_value(s.drop_last()) * 10 + (s.last() as nat - 48) as nat
    }
}

/// A number as written: digits, with an optional plus sign before them.
pub open spec fn parsed_nat(s: Seq<char>) -> Option<nat> {
    let d = if s.len() > 0 && s[0] == '+' { s.skip(1) } else { s };
    if d.len() > 0 && all_digits(d) {
        Some(digits_value(d))
    } else {
        None
    }
}

/// A number as written: digits, with an optional sign before them.
pub open spec fn parsed_int(s: Seq<char>) -> Option<int> {
    if s.len() > 0 && s[0] == '-' {
        let d = s.skip(1);
        if d.len() > 0 && all_digits(d) {
            Some(-(digits_value(d) as int))
        } else {
            None
        }
    } else {
        match parsed_nat(s) {
            Some(n) => Some(n as int),
            None => None,
        }
    }
}

/// `parsed_nat` where the number fits in a `usize`.
pub open spec fn parsed_usize(s: Seq<char>) -> Option<usize> {
    match parsed_nat(s) {
        Some(n) => if n <= usize::MAX {
            Some(n as usize)
        } else {
            None
        },
        None => None,
    }
}

/// `parsed_int` where the number fits in an `i64`.
pub open spec fn parsed_i64(s: Seq<char>) -> Option<i64> {
    match parsed_int(s) {
        Some(n) => if i64::MIN <= n <= i64::MAX {
            Some(n as i64)
        } else {
            None
        },
        None => None,
    }
}

/// `parsed_int` where the number fits in an `i32`.
pub open spec fn parsed_i32(s: Seq<char>) -> Option<i32> {
    match parsed_int(s) {
        Some(n) => if i32::MIN <= n <= i32::MAX {
            Some(n as i32)
        } else {
            None
        },
        None => None,
    }
}

/// A decimal form is made of digits and writes its number.
pub proof fn lemma_dec(n: nat)
    ensures
        dec(n).len() > 0,
        all_digits(dec(n)),
        digits_value(dec(n)) == n,
    decreases n,
{
    let s = dec(n);
    if n < 10 {
        assert(s.drop_last() =~= Seq::empty());
        assert(digits_value(s.drop_last()) == 0);
    } else {
        lemma_dec(n / 10);
        assert(s.drop_last() =~= dec(n / 10));
        assert forall|i: int| 0 <= i < s.len() implies is_digit(#[trigger] s[i]) by {
            if i < s.len() - 1 {
                assert(s[i] == dec(n / 10)[i]);
            }
        }
    }
}

/// Reading a decimal form gives the number back.
pub proof fn law_dec_parses(n: nat)
    ensures
        parsed_nat(dec(n)) == Some(n),
{
    lemma_dec(n);
    assert(is_digit(dec(n)[0]));
}

/// Reading a signed decimal form gives the number back.
pub proof fn law_dec_int_parses(n: int)
    ensures
        parsed_int(dec_int(n)) == Some(n),
{
    if n < 0 {
        lemma_dec((-n) as nat);
        assert(dec_int(n).skip(1) =~= dec((-n) as nat));
    } else {
        law_dec_parses(n as nat);
        lemma_dec(n as nat);
        assert(is_digit(dec(n as nat)[0]));
    }
}

/// A prefix of a sequence of digits writes a smaller number.
pub proof fn lemma_digits_value_prefix(s: Seq<char>, k: int)
    requires
        all_digits(s),
        0 <= k <= s.len(),
    ensures
        digits_value(s.take(k)) <= digits_value(s),
    decreases s.len(),
{
    if k < s.len() {
        assert(s.drop_last().take(k) =~= s.take(k));
        lemma_digits_value_prefix(s.drop_last(), k);
    } else {
        assert(s.take(k) =~= s);
    }
}

/// Appends the decimal form of `n`.
pub fn push_dec(s: &mut String, n: u64)
    ensures
        final(s)@ == old(s)@ + dec(n as nat),
    decreases n,
{
    if n >= 10 {
        push_dec(s, n / 10);
    }
    let d = (n % 10) as u8;
    s.push((48 + d) as char);
    assert(s@ =~= old(s)@ + dec(n as nat));
}

/// The decimal form of `n`.
pub fn dec_string(n: u64) -> (s: String)
    ensures
        s@ == dec(n as nat),
{
    let mut s = String::new();
    push_dec(&mut s, n);
    assert(s@ =~= dec(n as nat));
    s
}

/// The decimal form of `n`, signed.
pub fn dec_int_string(n: i64) -> (s: String)
    ensures
        s@ == dec_int(n as int),
{
    let mut s = String::new();
    if n < 0 {
        s.push('-');
        push_dec(&mut s, (-(n as i128)) as u64);
        assert(s@ =~= dec_int(n as int));
    } else {
        push_dec(&mut s, n as u64);
        assert(s@ =~= dec_int(n as int));
    }
    s
}

/// The number that digits write, where it does not exceed `max`.
fn parse_digits(d: &[char], max: u64) -> (r: Option<u64>)
    ensures
        r is Some <==> d@.len() > 0 && all_digits(d@) && digits_value(d@) <= max,
        r matches Some(n) ==> n == digits_value(d@),
{
    if d.len() == 0 {
        return None;
    }
    let mut n: u64 = 0;
    let mut i: usize = 0;
    assert(d@.take(0) =~= Seq::empty());
    while i < d.len()
        invariant
            i <= d.len(),
            n == digits_value(d@.take(i as int)),
            n <= max,
            forall|j: int| 0 <= j < i ==> is_digit(#[trigger] d@[j]),
        decreases d.len() - i,
    {
        let c = d[i];
        if c < '0' || c > '9' {
            assert(!is_digit(d@[i as int]));
            return None;
        }
        let v = c as u64 - 48;
        proof {
            assert(d@.take(i as int + 1).drop_last() =~= d@.take(i as int));
            assert(d@.take(i as int + 1).last() == c);
        }
        let w: u128 = n as u128 * 10 + v as u128;
        if w > max as u128 {
            proof {
                if all_digits(d@) {
                    lemma_digits_value_prefix(d@, i as int + 1);
                }
            }
            return None;
        }
        n = w as u64;
        i += 1;
    }
    assert(d@.take(d@.len() as int) =~= d@);
    Some(n)
}

/// Reads an unsigned number.
pub fn parse_usize(s: &[char]) -> (r: Option<usize>)
    ensures
        r == parsed_usize(s@),
{
    let d = if s.len() > 0 && s[0] == '+' {
        assert(s@.subrange(1, s@.len() as int) =~= s@.skip(1));
        slice_subrange(s, 1, s.len())
    } else {
        s
    };
    match parse_digits(d, usize::MAX as u64) {
        Some(n) => Some(n as usize),
        None => None,
    }
}

/// Reads a signed number.
pub fn parse_i64(s: &[char]) -> (r: Option<i64>)
    ensures
        r == parsed_i64(s@),
{
    if s.len() > 0 && s[0] == '-' {
        assert(s@.subrange(1, s@.len() as int) =~= s@.skip(1));
        match parse_digits(slice_subrange(s, 1, s.len()), 0x8000_0000_0000_0000) {
            Some(n) => Some((-(n as i128)) as i64),
            None => None,
        }
    } else {
        let d = if s.len() > 0 && s[0] == '+' {
            assert(s@.subrange(1, s@.len() as int) =~= s@.skip(1));
            slice_subrange(s, 1, s.len())
        } else {
            s
        };
        match parse_digits(d, i64::MAX as u64) {
            Some(n) => Some(n as i64),
            None => None,
        }
    }
}

/// Reads a signed number of 32 bits.
pub fn parse_i32(s: &[char]) -> (r: Option<i32>)
    ensures
        r == parsed_i32(s@),
{
    match parse_i64(s) {
        Some(n) => if -0x8000_0000 <= n && n <= 0x7fff_ffff {
            Some(n as i32)
        } else {
            None
        },
        None => None,
    }
}

// ---------------------------------------------------------------------------------------------
// Joining
// ---------------------------------------------------------------------------------------------

/// The texts, one after the other, with a separator between each two.
pub open spec fn joined(v: Seq<Seq<char>>, sep: Seq<char>) -> Seq<char>
    decreases v.len(),
{
    if v.len() == 0 {
        Seq::empty()
    } else if v.len() == 1 {
        v[0]
    } else {
        joined(v.drop_last(), sep) + sep + v.last()
    }
}

/// Joins texts with a separator between each two.
pub fn join(v: &[String], sep: &str) -> (r: String)
    ensures
        r@ == joined(texts(v@), sep@),
{
    let mut r = String::new();
    let mut i: usize = 0;
    while i < v.len()
        invariant
            i <= v@.len(),
            r@ == joined(texts(v@).take(i as int), sep@),
        decreases v.len() - i,
    {
        if i > 0 {
            r.append(sep);
        }
        r.append(v[i].as_str());
        proof {
            let t = texts(v@).take(i + 1);
            assert(t.drop_last() =~= texts(v@).take(i as int));
            assert(t.last() == v@[i as int]@);
        }
        i += 1;
    }
    assert(texts(v@).take(v@.len() as int) =~= texts(v@));
    r
}

// ---------------------------------------------------------------------------------------------
// Results and quoted text
// ---------------------------------------------------------------------------------------------

/// A result whose error is a message, with the message as a sequence.
pub open spec fn said<T>(r: Result<T, String>) -> Result<T, Seq<char>> {
    match r {
        Ok(v) => Ok(v),
        Err(e) => Err(e@),
    }
}

/// The hexadecimal digits of a number below 256, without leading zeros.
pub open spec fn short_hex(n: nat) -> Seq<char> {
    if n < 16 {
        seq![hex_digit(n)]
    } else {
        seq![hex_digit(n / 16), hex_digit(n % 16)]
    }
}

/// A lower-case hexadecimal digit.
pub open spec fn hex_digit(d: nat) -> char {
    if d < 10 {
        (48 + d) as char
    } else {
        (87 + d) as char
    }
}

/// How a character below U+0100 is shown between quotes of the given kind: some are escaped with
/// a backslash, and those without a printed form by their number.
pub open spec fn escaped(c: char, quote: char) -> Seq<char> {
    if c == '\0' {
        seq!['\\', '0']
    } else if c == '\t' {
        seq!['\\', 't']
    } else if c == '\r' {
        seq!['\\', 'r']
    } else if c == '\n' {
        seq!['\\', 'n']
    } else if c == '\\' || c == quote {
        seq!['\\', c]
    } else if c < ' ' || '\u{7f}' <= c <= '\u{a0}' || c == '\u{ad}' {
        seq!['\\', 'u', '{'] + short_hex(c as nat) + seq!['}']
    } else {
        seq![c]
    }
}

/// A character below U+0100 between quotes.
pub open spec fn quoted(c: char, quote: char) -> Seq<char> {
    seq![quote] + escaped(c, quote) + seq![quote]
}

fn hex_digit_char(d: u8) -> (c: char)
    requires
        d < 16,
    ensures
        c == hex_digit(d as nat),
{
    if d < 10 {
        (48 + d) as char
    } else {
        (87 + d) as char
    }
}

/// Appends a character below U+0100 between quotes.
pub fn push_quoted(s: &mut String, c: char, quote: char)
    requires
        c <= '\u{ff}',
    ensures
        final(s)@ == old(s)@ + quoted(c, quote),
{
    s.push(quote);
    if c == '\0' {
        s.push('\\');
        s.push('0');
    } else if c == '\t' {
        s.push('\\');
        s.push('t');
    } else if c == '\r' {
        s.push('\\');
        s.push('r');
    } else if c == '\n' {
        s.push('\\');
        s.push('n');
    } else if c == '\\' || c == quote {
        s.push('\\');
        s.push(c);
    } else if c < ' ' || ('\u{7f}' <= c && c <= '\u{a0}') || c == '\u{ad}' {
        s.push('\\');
        s.push('u');
        s.push('{');
        let n = c as u8;
        if n >= 16 {
            s.push(hex_digit_char(n / 16));
        }
        s.push(hex_digit_char(n % 16));
        s.push('}');
    } else {
        s.push(c);
    }
    s.push(quote);
    assert(s@ =~= old(s)@ + quoted(c, quote));
}

// ---------------------------------------------------------------------------------------------
// Laws
// ---------------------------------------------------------------------------------------------

/// Joining is the same from either end.
proof fn lemma_joined_first(x: Seq<char>, v: Seq<Seq<char>>, sep: Seq<char>)
    requires
        v.len() > 0,
    ensures
        joined(seq![x] + v, sep) == x + sep + joined(v, sep),
    decreases v.len(),
{
    let all = seq![x] + v;
    assert(all.last() == v.last());
    if v.len() == 1 {
        assert(all.drop_last() =~= seq![x]);
        assert(joined(seq![x], sep) == x);
        assert(joined(all, sep) =~= x + sep + joined(v, sep));
    } else {
        lemma_joined_first(x, v.drop_last(), sep);
        assert(all.drop_last() =~= seq![x] + v.drop_last());
        assert(joined(all, sep) =~= x + sep + joined(v, sep));
    }
}

/// Splitting loses nothing: the pieces, with the separator between each two, are the text again, and no
/// piece holds a separator.
pub proof fn law_split_is_undone(s: Seq<char>, sep: char)
    ensures
        joined(split(s, sep), seq![sep]) == s,
        split(s, sep).len() > 0,
        forall|i: int, j: int|
            0 <= i < split(s, sep).len() && 0 <= j < split(s, sep)[i].len() ==> #[trigger] split(s, sep)[i][j]
                != sep,
    decreases s.len(),
{
    let n = position(s, sep);
    lemma_position(s, sep);
    if n < s.len() {
        let rest = s.skip(n + 1);
        law_split_is_undone(rest, sep);
        lemma_joined_first(s.take(n), split(rest, sep), seq![sep]);
        assert(s.take(n) + seq![sep] + rest =~= s);
        assert forall|i: int, j: int|
            0 <= i < split(s, sep).len() && 0 <= j < split(s, sep)[i].len() implies #[trigger] split(
            s,
            sep,
        )[i][j] != sep by {
            if i > 0 {
                assert(split(s, sep)[i] == split(rest, sep)[i - 1]);
                assert(split(rest, sep)[i - 1][j] != sep);
            }
        }
    }
}

/// A line ends at a line feed, with or without a carriage return before it, and what follows are the
/// lines of the rest. The last line needs no line feed, and where nothing is left there is no line.
pub proof fn law_lines_are_cut(a: Seq<char>, b: Seq<char>)
    requires
        !a.contains('\n'),
    ensures
        lines(a + seq!['\r', '\n'] + b) == seq![a] + lines(b),
        a.len() == 0 || a.last() != '\r' ==> lines(a + seq!['\n'] + b) == seq![a] + lines(b),
        a.len() > 0 ==> lines(a) == seq![a],
        lines(Seq::empty()) == Seq::<Seq<char>>::empty(),
{
    assert forall|i: int| 0 <= i < a.len() implies a[i] != '\n' by {
        assert(a.contains(a[i]));
    }
    let s = a + seq!['\r', '\n'] + b;
    let n = a.len() as int;
    lemma_position_is(s, '\n', n + 1);
    assert(s.take(n + 1) =~= a.push('\r'));
    assert(a.push('\r').drop_last() =~= a);
    assert(s.skip(n + 2) =~= b);
    let t = a + seq!['\n'] + b;
    lemma_position_is(t, '\n', n);
    assert(t.take(n) =~= a);
    assert(t.skip(n + 1) =~= b);
    lemma_position_is(a, '\n', n);
}

/// Removed characters in front make no difference.
pub proof fn lemma_stripped_start(l: Seq<char>, s: Seq<char>, k: Strip)
    requires
        forall|i: int| 0 <= i < l.len() ==> k.takes(#[trigger] l[i]),
    ensures
        stripped_start(l + s, k) == stripped_start(s, k),
    decreases l.len(),
{
    if l.len() == 0 {
        assert(l + s =~= s);
    } else {
        let m = l.skip(1);
        assert forall|i: int| 0 <= i < m.len() implies k.takes(#[trigger] m[i]) by {
            assert(m[i] == l[i + 1]);
        }
        lemma_stripped_start(m, s, k);
        assert((l + s)[0] == l[0]);
        assert((l + s).skip(1) =~= m + s);
    }
}

/// Removed characters behind make no difference.
pub proof fn lemma_stripped_end(s: Seq<char>, r: Seq<char>, k: Strip)
    requires
        forall|i: int| 0 <= i < r.len() ==> k.takes(#[trigger] r[i]),
    ensures
        stripped_end(s + r, k) == stripped_end(s, k),
    decreases r.len(),
{
    if r.len() == 0 {
        assert(s + r =~= s);
    } else {
        lemma_stripped_end(s, r.drop_last(), k);
        assert((s + r).last() == r.last());
        assert((s + r).drop_last() =~= s + r.drop_last());
    }
}

/// A trim takes away what is to go at either end, all of it and no more.
pub proof fn law_trim_takes_the_ends(l: Seq<char>, m: Seq<char>, r: Seq<char>, k: Strip)
    requires
        forall|i: int| 0 <= i < l.len() ==> k.takes(#[trigger] l[i]),
        forall|i: int| 0 <= i < r.len() ==> k.takes(#[trigger] r[i]),
        m.len() > 0 ==> !k.takes(m[0]) && !k.takes(m.last()),
    ensures
        stripped(l + m + r, k) == m,
{
    assert(l + m + r =~= l + (m + r));
    lemma_stripped_start(l, m + r, k);
    if m.len() > 0 {
        assert((m + r)[0] == m[0]);
        lemma_stripped_end(m, r, k);
    } else {
        assert(m + r =~= r + m);
        lemma_stripped_start(r, m, k);
    }
}

proof fn lemma_leading_zero(s: Seq<char>)
    ensures
        digits_value(seq!['0'] + s) == digits_value(s),
    decreases s.len(),
{
    let t = seq!['0'] + s;
    if s.len() == 0 {
        assert(t.drop_last() =~= Seq::empty());
        assert(digits_value(t.drop_last()) == 0);
    } else {
        lemma_leading_zero(s.drop_last());
        assert(t.drop_last() =~= seq!['0'] + s.drop_last());
    }
}

/// A number is read from its decimal form, with a plus sign or a zero before it too, where it fits in its
/// type, and nothing is read where it does not.
pub proof fn law_numbers_are_read(n: nat)
    ensures
        parsed_usize(dec(n)) == (if n <= usize::MAX {
            Some(n as usize)
        } else {
            None
        }),
        parsed_i64(dec(n)) == (if n <= 0x7fff_ffff_ffff_ffff {
            Some(n as i64)
        } else {
            None
        }),
        parsed_i64(seq!['-'] + dec(n)) == (if n <= 0x8000_0000_0000_0000 {
            Some((0 - n) as i64)
        } else {
            None
        }),
        parsed_i32(dec(n)) == (if n <= 0x7fff_ffff {
            Some(n as i32)
        } else {
            None
        }),
        parsed_i32(seq!['-'] + dec(n)) == (if n <= 0x8000_0000 {
            Some((0 - n) as i32)
        } else {
            None
        }),
        parsed_nat(seq!['+'] + dec(n)) == Some(n),
        parsed_nat(seq!['0'] + dec(n)) == Some(n),
        parsed_int(seq!['+'] + dec(n)) == Some(n as int),
        parsed_int(seq!['0'] + dec(n)) == Some(n as int),
{
    lemma_dec(n);
    law_dec_parses(n);
    law_dec_int_parses(n as int);
    lemma_leading_zero(dec(n));
    let p = seq!['+'] + dec(n);
    assert(p.skip(1) =~= dec(n));
    let m = seq!['-'] + dec(n);
    assert(m.skip(1) =~= dec(n));
    let z = seq!['0'] + dec(n);
    assert forall|i: int| 0 <= i < z.len() implies is_digit(#[trigger] z[i]) by {
        if i > 0 {
            assert(z[i] == dec(n)[i - 1]);
        }
    }
}

/// What is no number is not read: a text that holds anything but digits behind its first character, one
/// that starts with neither a digit nor a sign, a sign alone, and no text at all. A minus sign is read
/// only where the number can be negative.
pub proof fn law_no_number_is_read(s: Seq<char>)
    ensures
        s.len() == 0 ==> parsed_nat(s) is None && parsed_int(s) is None,
        s.len() == 1 && !is_digit(s[0]) ==> parsed_nat(s) is None && parsed_int(s) is None,
        s.len() > 0 && !is_digit(s[0]) && s[0] != '+' ==> parsed_nat(s) is None,
        s.len() > 0 && !is_digit(s[0]) && s[0] != '+' && s[0] != '-' ==> parsed_int(s) is None,
        forall|i: int|
            1 <= i < s.len() && !is_digit(#[trigger] s[i]) ==> parsed_nat(s) is None && parsed_int(s) is None,
{
    assert forall|i: int| 1 <= i < s.len() && !is_digit(#[trigger] s[i]) implies parsed_nat(s) is None
        && parsed_int(s) is None by {
        assert(s.skip(1)[i - 1] == s[i]);
        assert(!is_digit(s.skip(1)[i - 1]));
    }
    if s.len() > 0 && !is_digit(s[0]) {
        assert(!all_digits(s));
    }
}

} // verus!
