//! Transfer in parts: cutting a text, and choosing which parts to send.

use std::collections::HashSet;
use vstd::prelude::*;
use vstd::slice::slice_subrange;
use crate::text::{
    chars_of, dec, find_char, is_digit, law_numbers_are_read, lemma_dec, lemma_position,
    lemma_position_is, lemma_split_at, lemma_stripped_same, parse_usize, parsed_usize, pieces, position,
    push_chars, said, split, split_at_char, string_of, texts, trim, trimmed, Strip,
};

verus! {

broadcast use vstd::std_specs::hash::group_hash_axioms;

// ---------------------------------------------------------------------------------------------
// Cutting
// ---------------------------------------------------------------------------------------------

/// The text cut into pieces of `n` characters, the last one with what is left.
pub open spec fn chunks(s: Seq<char>, n: nat) -> Seq<Seq<char>>
    decreases s.len(),
{
    if s.len() == 0 {
        Seq::empty()
    } else if n == 0 || s.len() <= n {
        seq![s]
    } else {
        seq![s.take(n as int)] + chunks(s.skip(n as int), n)
    }
}

/// The size of the pieces: at least one character.
pub open spec fn piece_size(part_size: usize) -> nat {
    if part_size == 0 {
        1
    } else {
        part_size as nat
    }
}

/// Cuts a text into parts of so many characters (a size of zero counts as one). The last part has what
/// is left.
pub fn split_into_parts(encoded: &str, part_size: usize) -> (r: Vec<String>)
    ensures
        texts(r@) == chunks(encoded@, piece_size(part_size)),
{
    let n: usize = if part_size == 0 {
        1
    } else {
        part_size
    };
    let v = chars_of(encoded);
    let mut r: Vec<String> = Vec::new();
    let mut i: usize = 0;
    assert(v@.skip(0) =~= encoded@);
    assert(texts(r@) + chunks(encoded@, n as nat) =~= chunks(encoded@, n as nat));
    while i < v.len()
        invariant
            i <= v.len(),
            n > 0,
            n == piece_size(part_size),
            v@ == encoded@,
            texts(r@) + chunks(v@.skip(i as int), n as nat) == chunks(encoded@, n as nat),
        decreases v.len() - i,
    {
        let ghost rest = v@.skip(i as int);
        let ghost before = texts(r@);
        let j: usize = if v.len() - i <= n {
            v.len()
        } else {
            i + n
        };
        let piece = slice_subrange(v.as_slice(), i, j);
        r.push(string_of(piece));
        proof {
            assert(texts(r@) =~= before.push(piece@));
            if rest.len() <= n {
                assert(piece@ =~= rest);
                assert(chunks(v@.skip(j as int), n as nat) =~= Seq::empty());
                assert(texts(r@) + chunks(v@.skip(j as int), n as nat) =~= before + chunks(rest, n as nat));
            } else {
                assert(piece@ =~= rest.take(n as int));
                assert(rest.skip(n as int) =~= v@.skip(j as int));
                assert(texts(r@) + chunks(v@.skip(j as int), n as nat) =~= before + chunks(rest, n as nat));
            }
        }
        i = j;
    }
    assert(texts(r@) + chunks(v@.skip(i as int), n as nat) =~= texts(r@));
    r
}

/// The texts, one after the other.
pub open spec fn concat(v: Seq<Seq<char>>) -> Seq<char>
    decreases v.len(),
{
    if v.len() == 0 {
        Seq::empty()
    } else {
        v[0] + concat(v.drop_first())
    }
}

/// The parts of a text, one after the other, are the text. None is empty, and all but the last have the
/// full size.
pub proof fn law_parts_make_whole(s: Seq<char>, n: nat)
    requires
        n > 0,
    ensures
        concat(chunks(s, n)) == s,
        forall|i: int| 0 <= i < chunks(s, n).len() ==> 0 < (#[trigger] chunks(s, n)[i]).len() <= n,
        forall|i: int| 0 <= i < chunks(s, n).len() - 1 ==> (#[trigger] chunks(s, n)[i]).len() == n,
    decreases s.len(),
{
    let c = chunks(s, n);
    if s.len() == 0 {
        assert(concat(c) =~= s);
    } else if s.len() <= n {
        assert(c.drop_first() =~= Seq::empty());
        assert(concat(c.drop_first()) =~= Seq::empty());
        assert(concat(c) =~= s);
    } else {
        let rest = s.skip(n as int);
        law_parts_make_whole(rest, n);
        let d = chunks(rest, n);
        assert(c.drop_first() =~= d);
        assert(concat(c) =~= s);
        assert forall|i: int| 0 <= i < c.len() implies 0 < (#[trigger] c[i]).len() <= n && (i < c.len() - 1
            ==> c[i].len() == n) by {
            if i > 0 {
                assert(c[i] == d[i - 1]);
            }
        }
    }
}

/// The stretch of a text from a position on, of at most `n` characters.
pub open spec fn stretch(s: Seq<char>, from: int, n: nat) -> Seq<char> {
    if from + n <= s.len() {
        s.subrange(from, from + n)
    } else {
        s.subrange(from, s.len() as int)
    }
}

/// Each part is the stretch of the text that starts at a multiple of the size.
pub proof fn lemma_chunk_of(s: Seq<char>, n: nat, i: int)
    requires
        n > 0,
        0 <= i < chunks(s, n).len(),
    ensures
        0 <= i * n < s.len(),
        chunks(s, n)[i] == stretch(s, i * n, n),
    decreases s.len(),
{
    let c = chunks(s, n);
    let rest = s.skip(n as int);
    if i == 0 {
        assert(i * n == 0) by (nonlinear_arith)
            requires
                i == 0,
        ;
        assert(c[i] =~= stretch(s, 0, n));
    } else {
        lemma_chunk_of(rest, n, i - 1);
        assert(c[i] == chunks(rest, n)[i - 1]);
        assert((i - 1) * n + n == i * n) by (nonlinear_arith);
        assert(c[i] =~= stretch(s, i * n, n));
    }
}

// ---------------------------------------------------------------------------------------------
// Choosing
// ---------------------------------------------------------------------------------------------

/// The numbers from `a` to `b`.
pub open spec fn range_set(a: usize, b: usize) -> Set<usize> {
    Set::new(|n: usize| a <= n <= b)
}

/// What one item of a selection stands for: a number, or two numbers with `-` between them.
pub open spec fn item_range(t: Seq<char>) -> Result<(usize, usize), Seq<char>> {
    let k = position(t, '-');
    let a = if k < t.len() {
        parsed_usize(trimmed(t.take(k)))
    } else {
        parsed_usize(t)
    };
    let b = if k < t.len() {
        parsed_usize(trimmed(t.skip(k + 1)))
    } else {
        a
    };
    if a is None || b is None {
        Err("分片号非法："@ + t)
    } else if a == Some(0usize) || b == Some(0usize) {
        Err("分片号必须 ≥ 1："@ + t)
    } else if a->0 > b->0 {
        Err("范围起始 > 结束："@ + t)
    } else {
        Ok((a->0, b->0))
    }
}

/// The numbers that the items of a selection stand for, or the error of the first bad one. Empty items
/// are passed over.
pub open spec fn items_set(items: Seq<Seq<char>>) -> Result<Set<usize>, Seq<char>>
    decreases items.len(),
{
    if items.len() == 0 {
        Ok(Set::empty())
    } else {
        match items_set(items.drop_last()) {
            Err(e) => Err(e),
            Ok(set) => {
                let t = trimmed(items.last());
                if t.len() == 0 {
                    Ok(set)
                } else {
                    match item_range(t) {
                        Err(e) => Err(e),
                        Ok((a, b)) => Ok(set.union(range_set(a, b))),
                    }
                }
            },
        }
    }
}

/// What `parse_part_selection` gives: `None` where the selection has no item.
pub open spec fn selection_of(spec: Seq<char>) -> Result<Option<Set<usize>>, Seq<char>> {
    match items_set(split(trimmed(spec), ',')) {
        Err(e) => Err(e),
        Ok(set) => if set == Set::<usize>::empty() {
            Ok(None)
        } else {
            Ok(Some(set))
        },
    }
}

/// A selection with its set as a set of numbers.
pub open spec fn selection_view(r: Result<Option<HashSet<usize>>, String>) -> Result<
    Option<Set<usize>>,
    Seq<char>,
> {
    match r {
        Err(e) => Err(e@),
        Ok(None) => Ok(None),
        Ok(Some(h)) => Ok(Some(h@)),
    }
}

fn bad_item(what: &str, t: &[char]) -> (r: String)
    ensures
        r@ == what@ + t@,
{
    let mut e = what.to_string();
    push_chars(&mut e, t);
    e
}

fn parse_item(t: &[char]) -> (r: Result<(usize, usize), String>)
    ensures
        said(r) == item_range(t@),
{
    let k = find_char(t, '-');
    proof {
        lemma_position(t@, '-');
    }
    let a: Option<usize>;
    let b: Option<usize>;
    if k < t.len() {
        let x = slice_subrange(t, 0, k);
        let y = slice_subrange(t, k + 1, t.len());
        assert(x@ =~= t@.take(k as int));
        assert(y@ =~= t@.skip(k + 1));
        a = parse_usize(trim(x));
        b = parse_usize(trim(y));
    } else {
        a = parse_usize(t);
        b = a;
    }
    match (a, b) {
        (Some(a), Some(b)) => if a == 0 || b == 0 {
            Err(bad_item("分片号必须 ≥ 1：", t))
        } else if a > b {
            Err(bad_item("范围起始 > 结束：", t))
        } else {
            Ok((a, b))
        },
        _ => Err(bad_item("分片号非法：", t)),
    }
}

fn insert_range(set: &mut HashSet<usize>, a: usize, b: usize)
    requires
        a <= b,
    ensures
        final(set)@ == old(set)@.union(range_set(a, b)),
{
    let mut n: usize = a;
    set.insert(n);
    assert(set@ =~= old(set)@.union(range_set(a, n)));
    while n < b
        invariant
            a <= n <= b,
            set@ == old(set)@.union(range_set(a, n)),
        decreases b - n,
    {
        n += 1;
        set.insert(n);
        assert(set@ =~= old(set)@.union(range_set(a, n)));
    }
}

/// Reads a selection of parts, counted from one, such as `1,3-5`: the set of their numbers. `None` says
/// that nothing is selected.
pub fn parse_part_selection(spec: &str) -> (r: Result<Option<HashSet<usize>>, String>)
    ensures
        selection_view(r) == selection_of(spec@),
{
    let v = chars_of(spec);
    let s = trim(v.as_slice());
    let items = split_at_char(s, ',');
    let ghost all = pieces(items@);
    let mut set: HashSet<usize> = HashSet::new();
    let mut any = false;
    let mut i: usize = 0;
    assert(all.take(0) =~= Seq::empty());
    while i < items.len()
        invariant
            i <= items@.len(),
            all == pieces(items@),
            items_set(all.take(i as int)) == Ok::<Set<usize>, Seq<char>>(set@),
            any <==> set@ != Set::<usize>::empty(),
            all == split(trimmed(spec@), ','),
        decreases items.len() - i,
    {
        let t = trim(items[i]);
        proof {
            assert(all.take(i + 1).drop_last() =~= all.take(i as int));
            assert(all.take(i + 1).last() == items@[i as int]@);
            lemma_first_error(all, i + 1);
        }
        if t.len() > 0 {
            match parse_item(t) {
                Err(e) => {
                    return Err(e);
                },
                Ok((a, b)) => {
                    insert_range(&mut set, a, b);
                    assert(set@.contains(a));
                    any = true;
                },
            }
        }
        i += 1;
    }
    assert(all.take(all.len() as int) =~= all);
    if any {
        Ok(Some(set))
    } else {
        Ok(None)
    }
}

/// An error among the first items is the error of all.
proof fn lemma_first_error(items: Seq<Seq<char>>, n: int)
    requires
        0 <= n <= items.len(),
    ensures
        items_set(items.take(n)) is Err ==> items_set(items) == items_set(items.take(n)),
    decreases items.len(),
{
    if n == items.len() {
        assert(items.take(n) =~= items);
    } else {
        assert(items.drop_last().take(n) =~= items.take(n));
        lemma_first_error(items.drop_last(), n);
    }
}

/// The parts of `total`, counted from one and in order, that are in the set (`want`) or not in it.
pub open spec fn picked(total: nat, set: Set<usize>, want: bool) -> Seq<usize>
    decreases total,
{
    if total == 0 {
        Seq::empty()
    } else {
        let r = picked((total - 1) as nat, set, want);
        if set.contains(total as usize) == want {
            r.push(total as usize)
        } else {
            r
        }
    }
}

/// What `parts_to_send` gives.
pub open spec fn parts_to_send_of(
    total: usize,
    only: Option<Seq<char>>,
    skip: Option<Seq<char>>,
) -> Result<Seq<usize>, Seq<char>> {
    match only {
        Some(spec) => match selection_of(spec) {
            Err(e) => Err(e),
            Ok(None) => Err("--only-parts 不能为空"@),
            Ok(Some(set)) => Ok(picked(total as nat, set, true)),
        },
        None => match skip {
            Some(spec) => match selection_of(spec) {
                Err(e) => Err(e),
                Ok(None) => Err("--skip-parts 不能为空"@),
                Ok(Some(set)) => Ok(picked(total as nat, set, false)),
            },
            None => Ok(picked(total as nat, Set::empty(), false)),
        },
    }
}

fn pick(total: usize, set: &HashSet<usize>, want: bool) -> (r: Vec<usize>)
    ensures
        r@ == picked(total as nat, set@, want),
{
    let mut r: Vec<usize> = Vec::new();
    let mut n: usize = 0;
    while n < total
        invariant
            n <= total,
            r@ == picked(n as nat, set@, want),
        decreases total - n,
    {
        n += 1;
        if set.contains(&n) == want {
            r.push(n);
        }
    }
    r
}

/// The view of an optional text.
pub open spec fn maybe(s: Option<&str>) -> Option<Seq<char>> {
    match s {
        Some(t) => Some(t@),
        None => None,
    }
}

/// The numbers of the parts to send, in order, given what `--only-parts` and `--skip-parts` say. The
/// first goes before the second; without either, all are sent.
pub fn parts_to_send(total: usize, only: Option<&str>, skip: Option<&str>) -> (r: Result<
    Vec<usize>,
    String,
>)
    ensures
        match r {
            Ok(v) => parts_to_send_of(total, maybe(only), maybe(skip)) == Ok::<
                Seq<usize>,
                Seq<char>,
            >(v@),
            Err(e) => parts_to_send_of(total, maybe(only), maybe(skip)) == Err::<
                Seq<usize>,
                Seq<char>,
            >(e@),
        },
{
    match only {
        Some(spec) => match parse_part_selection(spec) {
            Err(e) => Err(e),
            Ok(None) => Err("--only-parts 不能为空".to_string()),
            Ok(Some(set)) => Ok(pick(total, &set, true)),
        },
        None => match skip {
            Some(spec) => match parse_part_selection(spec) {
                Err(e) => Err(e),
                Ok(None) => Err("--skip-parts 不能为空".to_string()),
                Ok(Some(set)) => Ok(pick(total, &set, false)),
            },
            None => {
                let none: HashSet<usize> = HashSet::new();
                Ok(pick(total, &none, false))
            },
        },
    }
}

/// The parts that are picked are exactly those of the transfer that the selection asks for, each once
/// and in rising order.
pub proof fn law_picked_in_order(total: usize, set: Set<usize>, want: bool)
    ensures
        forall|n: usize|
            #[trigger] picked(total as nat, set, want).contains(n) <==> (1 <= n <= total && set.contains(n)
                == want),
        forall|i: int, j: int|
            0 <= i < j < picked(total as nat, set, want).len() ==> (#[trigger] picked(
                total as nat,
                set,
                want,
            )[i]) < (#[trigger] picked(total as nat, set, want)[j]),
    decreases total,
{
    if total > 0 {
        let prev = (total - 1) as usize;
        law_picked_in_order(prev, set, want);
        let p = picked(prev as nat, set, want);
        let q = picked(total as nat, set, want);
        if set.contains(total) == want {
            assert(q == p.push(total));
        } else {
            assert(q == p);
        }
        assert forall|n: usize| #[trigger] q.contains(n) <==> (1 <= n <= total && set.contains(n) == want) by {
            assert(p.contains(n) <==> (1 <= n <= prev && set.contains(n) == want));
            if set.contains(total) == want {
                if q.contains(n) {
                    let k = choose|k: int| 0 <= k < q.len() && q[k] == n;
                    if k < p.len() {
                        assert(p[k] == n);
                    }
                }
                if p.contains(n) {
                    let k = choose|k: int| 0 <= k < p.len() && p[k] == n;
                    assert(q[k] == n);
                }
                assert(q[p.len() as int] == total);
            }
        }
        assert forall|i: int, j: int| 0 <= i < j < q.len() implies (#[trigger] q[i]) < (
        #[trigger] q[j]) by {
            assert(q[i] == p[i]);
            if j < p.len() {
                assert(q[j] == p[j]);
            } else {
                assert(p.contains(p[i]));
            }
        }
    }
}

/// Without a selection every part is sent, in order.
pub proof fn law_all_parts_by_default(total: usize)
    ensures
        parts_to_send_of(total, None, None) == Ok::<Seq<usize>, Seq<char>>(
            Seq::new(total as nat, |i: int| (i + 1) as usize),
        ),
    decreases total,
{
    let all = picked(total as nat, Set::empty(), false);
    if total > 0 {
        law_all_parts_by_default((total - 1) as usize);
    }
    assert(all =~= Seq::new(total as nat, |i: int| (i + 1) as usize));
}

/// Skipping a selection sends exactly the parts that sending only the selection leaves out.
pub proof fn law_skip_complements_only(total: usize, spec: Seq<char>, n: usize)
    requires
        selection_of(spec) matches Ok(Some(_)),
        1 <= n <= total,
    ensures
        parts_to_send_of(total, None, Some(spec))->Ok_0.contains(n) <==> !parts_to_send_of(
            total,
            Some(spec),
            None,
        )->Ok_0.contains(n),
{
    let set = selection_of(spec)->Ok_0->0;
    law_picked_in_order(total, set, true);
    law_picked_in_order(total, set, false);
    assert(parts_to_send_of(total, Some(spec), None)->Ok_0 == picked(total as nat, set, true));
    assert(parts_to_send_of(total, None, Some(spec))->Ok_0 == picked(total as nat, set, false));
}

/// What is no dash, comma or blank.
proof fn lemma_plain_number(n: nat)
    ensures
        trimmed(dec(n)) == dec(n),
        split(dec(n), ',') == seq![dec(n)],
        position(dec(n), '-') == dec(n).len(),
{
    lemma_dec(n);
    let d = dec(n);
    assert(is_digit(d[0]) && is_digit(d.last()));
    lemma_stripped_same(d, Strip::Space);
    assert forall|i: int| 0 <= i < d.len() implies d[i] != ',' && d[i] != '-' by {
        assert(is_digit(d[i]));
    }
    lemma_position_is(d, ',', d.len() as int);
    lemma_position_is(d, '-', d.len() as int);
}

/// A number selects its part, and two numbers with a dash between them select the parts from the one to
/// the other, both included. Parts are counted from one, and a range does not run backwards.
pub proof fn law_ranges_are_selected(a: nat, b: nat)
    requires
        a <= usize::MAX,
        b <= usize::MAX,
    ensures
        1 <= a <= b ==> (selection_of(dec(a) + seq!['-'] + dec(b)) matches Ok(Some(set)) && forall|n: usize|
            #[trigger] set.contains(n) <==> a <= n <= b),
        a == 0 || b == 0 || a > b ==> selection_of(dec(a) + seq!['-'] + dec(b)) is Err,
        1 <= a ==> (selection_of(dec(a)) matches Ok(Some(set)) && forall|n: usize|
            #[trigger] set.contains(n) <==> n == a),
        a == 0 ==> selection_of(dec(a)) is Err,
{
    lemma_dec(a);
    lemma_dec(b);
    lemma_plain_number(a);
    lemma_plain_number(b);
    law_numbers_are_read(a);
    law_numbers_are_read(b);
    let d = dec(a);
    let e = dec(b);
    let t = d + seq!['-'] + e;
    assert(is_digit(d[0]) && is_digit(e.last()));
    assert(t[0] == d[0] && t.last() == e.last());
    lemma_stripped_same(t, Strip::Space);
    assert forall|i: int| 0 <= i < t.len() implies t[i] != ',' by {
        if i < d.len() {
            assert(is_digit(d[i]));
        } else if i > d.len() {
            assert(is_digit(e[i - d.len() - 1]));
        }
    }
    lemma_position_is(t, ',', t.len() as int);
    assert(split(t, ',') == seq![t]);
    assert forall|i: int| 0 <= i < d.len() implies t[i] != '-' by {
        assert(is_digit(d[i]));
    }
    lemma_position_is(t, '-', d.len() as int);
    assert(t.take(d.len() as int) =~= d);
    assert(t.skip(d.len() as int + 1) =~= e);
    reveal_with_fuel(items_set, 2);
    assert(seq![t].drop_last() =~= Seq::<Seq<char>>::empty());
    assert(seq![d].drop_last() =~= Seq::<Seq<char>>::empty());
    if 1 <= a <= b {
        let set = Set::<usize>::empty().union(range_set(a as usize, b as usize));
        assert(items_set(seq![t]) == Ok::<Set<usize>, Seq<char>>(set));
        assert(set.contains(a as usize));
    }
    if 1 <= a {
        let set = Set::<usize>::empty().union(range_set(a as usize, a as usize));
        assert(items_set(seq![d]) == Ok::<Set<usize>, Seq<char>>(set));
        assert(set.contains(a as usize));
    }
}

proof fn lemma_items_set_add(v: Seq<Seq<char>>, w: Seq<Seq<char>>)
    requires
        items_set(v) is Ok,
    ensures
        match items_set(w) {
            Ok(set) => items_set(v + w) == Ok::<Set<usize>, Seq<char>>(items_set(v)->Ok_0.union(set)),
            Err(e) => items_set(v + w) == Err::<Set<usize>, Seq<char>>(e),
        },
    decreases w.len(),
{
    if w.len() == 0 {
        assert(v + w =~= v);
        assert(items_set(v)->Ok_0.union(Set::empty()) =~= items_set(v)->Ok_0);
    } else {
        lemma_items_set_add(v, w.drop_last());
        assert((v + w).drop_last() =~= v + w.drop_last());
        assert((v + w).last() == w.last());
        if let Ok(set) = items_set(w) {
            assert(items_set(v + w)->Ok_0 =~= items_set(v)->Ok_0.union(set));
        }
    }
}

/// Selections with a comma between them select what either selects, and fail where one of them fails, with
/// the error of the first that does.
pub proof fn law_commas_add_up(s: Seq<char>, t: Seq<char>)
    requires
        trimmed(s) == s,
        trimmed(t) == t,
        trimmed(s + seq![','] + t) == s + seq![','] + t,
    ensures
        selection_of(s) matches Err(e) ==> selection_of(s + seq![','] + t) == Err::<
            Option<Set<usize>>,
            Seq<char>,
        >(e),
        selection_of(s) is Ok && selection_of(t) is Err ==> selection_of(s + seq![','] + t) == selection_of(t),
        selection_of(s) is Ok && selection_of(t) is Ok ==> selection_of(s + seq![','] + t) is Ok && forall|
            n: usize,
        |
            #[trigger] selects(s + seq![','] + t, n) <==> selects(s, n) || selects(t, n),
{
    let v = split(s, ',');
    let w = split(t, ',');
    lemma_split_at(s, t, ',');
    if items_set(v) is Err {
        assert((v + w).take(v.len() as int) =~= v);
        lemma_first_error(v + w, v.len() as int);
    } else {
        lemma_items_set_add(v, w);
        if let Ok(b) = items_set(w) {
            let a = items_set(v)->Ok_0;
            let both = a.union(b);
            assert forall|n: usize| #[trigger] selects(s + seq![','] + t, n) <==> selects(s, n) || selects(
                t,
                n,
            ) by {
                assert(both.contains(n) <==> a.contains(n) || b.contains(n));
            }
        }
    }
}

/// Whether a selection is valid and has a part in it.
pub open spec fn selects(spec: Seq<char>, n: usize) -> bool {
    selection_of(spec) matches Ok(Some(set)) && set.contains(n)
}

/// What is to be sent only decides alone: what is to be skipped then makes no difference.
pub proof fn law_only_goes_first(total: usize, only: Seq<char>, skip: Option<Seq<char>>)
    ensures
        parts_to_send_of(total, Some(only), skip) == parts_to_send_of(total, Some(only), None),
        parts_to_send_of(total, Some(only), skip) is Ok <==> selection_of(only) matches Ok(Some(_)),
        parts_to_send_of(total, Some(only), skip) matches Ok(v) ==> forall|n: usize|
            #[trigger] v.contains(n) <==> 1 <= n <= total && selects(only, n),
{
    if let Ok(Some(set)) = selection_of(only) {
        law_picked_in_order(total, set, true);
    }
}

} // verus!
