//! A progress bar as text.
//!
//! The share is that of double-precision arithmetic, with its rounding: a number counts by its first 53
//! binary digits, and what lies halfway between two numbers goes to the even one. It is worked out in
//! integers.

use vstd::arithmetic::power2::{lemma_pow2_pos, lemma_pow2_unfold, pow2};
use vstd::prelude::*;
use crate::text::{dec, dec_string, push_dec};

verus! {

/// Two to the 53rd: the first integer with 54 binary digits.
pub const WIDE: u128 = 0x20_0000_0000_0000;

/// A quotient rounded to an integer, to the even one from halfway.
pub open spec fn half_even(n: nat, d: nat) -> nat {
    let q = n / d;
    let r = n % d;
    if 2 * r < d {
        q
    } else if 2 * r > d {
        q + 1
    } else {
        q + q % 2
    }
}

/// By how many binary digits an integer is longer than 53.
pub open spec fn extra(n: nat) -> nat
    decreases n,
{
    if n < WIDE {
        0
    } else {
        1 + extra(n / 2)
    }
}

/// An integer rounded to 53 binary digits.
pub open spec fn to53(n: nat) -> nat {
    half_even(n, pow2(extra(n))) * pow2(extra(n))
}

/// By how many binary digits `a` has to be shifted for `a / b` to have 53 digits before the point.
pub open spec fn shift(a: nat, b: nat) -> nat
    decreases b * WIDE - a,
{
    if a == 0 || b == 0 || a * 2 >= WIDE * b {
        0
    } else {
        1 + shift(2 * a, b)
    }
}

/// The share of `a` in `b`, as an integer and the number of binary digits behind its point.
pub open spec fn share(a: nat, b: nat) -> (nat, nat) {
    let k = shift(a, b);
    (half_even(a * pow2(k), b), k)
}

/// The share that is done: at most the whole.
pub open spec fn ratio(done: nat, total: nat) -> (nat, nat) {
    let a = to53(done);
    let b = to53(total);
    if total == 0 || a >= b {
        (1, 0)
    } else {
        share(a, b)
    }
}

/// The part of a length that a share makes up, cut to an integer.
pub open spec fn part_of(len: nat, r: (nat, nat)) -> nat {
    to53(to53(len) * r.0) / pow2(r.1)
}

/// A share in tenths of a percent.
pub open spec fn permille(r: (nat, nat)) -> nat {
    half_even(to53(r.0 * 100) * 10, pow2(r.1))
}

/// A text of one character, so many times.
pub open spec fn repeated(c: char, n: nat) -> Seq<char> {
    Seq::new(n, |i: int| c)
}

/// A number of tenths with one decimal, at least five characters wide.
pub open spec fn tenths(t: nat) -> Seq<char> {
    let s = dec(t / 10) + "."@ + dec(t % 10);
    repeated(
        ' ',
        if s.len() < 5 {
            (5 - s.len()) as nat
        } else {
            0
        },
    ) + s
}

/// What `progress_bar` gives.
pub open spec fn progress_bar_of(done: nat, total: nat, bar_len: nat) -> Seq<char> {
    let r = ratio(done, total);
    let filled = part_of(bar_len, r);
    "["@ + repeated('█', filled) + repeated('░', (bar_len - filled) as nat) + "] "@ + tenths(permille(r))
        + "% ("@ + dec(done) + "/"@ + dec(total) + ")"@
}

proof fn lemma_pow2_step(k: nat)
    ensures
        pow2(k + 1) == 2 * pow2(k),
        pow2(k) > 0,
{
    lemma_pow2_unfold(k + 1);
    lemma_pow2_pos(k);
}

proof fn lemma_extra(n: nat)
    ensures
        pow2(extra(n)) <= n + 1,
        n >= WIDE ==> WIDE / 2 * pow2(extra(n)) <= n,
        n < WIDE * pow2(extra(n)),
    decreases n,
{
    vstd::arithmetic::power2::lemma2_to64();
    if n >= WIDE {
        lemma_extra(n / 2);
        lemma_pow2_step(extra(n / 2));
        let p = pow2(extra(n / 2));
        assert(n < WIDE * (2 * p)) by (nonlinear_arith)
            requires
                n / 2 < WIDE * p,
        ;
        if n / 2 >= WIDE {
            assert(WIDE / 2 * (2 * p) <= n) by (nonlinear_arith)
                requires
                    WIDE / 2 * p <= n / 2,
            ;
        }
    }
}

fn round_div(n: u128, d: u128) -> (r: u128)
    requires
        0 < d < 0x4000_0000_0000_0000_0000_0000_0000_0000,
        n < 0x4000_0000_0000_0000_0000_0000_0000_0000,
    ensures
        r == half_even(n as nat, d as nat),
        r <= n / d + 1,
{
    let q = n / d;
    let m = n % d;
    proof {
        assert(q <= n) by (nonlinear_arith)
            requires
                q == n / d,
                d > 0,
        ;
    }
    if 2 * m < d {
        q
    } else if 2 * m > d {
        q + 1
    } else {
        q + q % 2
    }
}

proof fn lemma_halve(n: nat, p: nat)
    requires
        p > 0,
    ensures
        (n / p) / 2 == n / (2 * p),
{
    vstd::arithmetic::div_mod::lemma_div_denominator(n as int, p as int, 2);
    assert(p * 2 == 2 * p);
}

fn round53(n: u128) -> (r: u128)
    requires
        n < 0x100_0000_0000_0000_0000_0000_0000_0000,
    ensures
        r == to53(n as nat),
        r <= 2 * n + 1,
{
    let mut t: u128 = n;
    let mut p: u128 = 1;
    let ghost mut s: nat = 0;
    proof {
        vstd::arithmetic::power2::lemma2_to64();
        assert(n / 1 == n);
    }
    while t >= WIDE
        invariant
            n < 0x100_0000_0000_0000_0000_0000_0000_0000,
            extra(n as nat) == s + extra(t as nat),
            p == pow2(s),
            p > 0,
            t == n / p,
            p == 1 || p <= n,
        decreases t,
    {
        proof {
            lemma_pow2_step(s);
            lemma_halve(n as nat, p as nat);
            assert(2 * p <= n) by (nonlinear_arith)
                requires
                    n / p >= WIDE,
                    p > 0,
            ;
            s = s + 1;
        }
        t = t / 2;
        p = p * 2;
    }
    let q = round_div(n, p);
    proof {
        assert(q * p <= n + p) by (nonlinear_arith)
            requires
                q <= n / p + 1,
                p > 0,
        ;
    }
    q * p
}

fn share_of(a: u128, b: u128) -> (r: (u128, u128))
    requires
        0 < b < 0x4_0000_0000_0000_0000,
        a < b,
    ensures
        r.0 == share(a as nat, b as nat).0,
        r.1 == pow2(share(a as nat, b as nat).1),
        r.0 <= WIDE,
        0 < r.1 < 0x100_0000_0000_0000_0000_0000_0000_0000,
        r.0 <= r.1,
{
    let mut x: u128 = a;
    let mut p: u128 = 1;
    let ghost mut k: nat = 0;
    let whole = WIDE * b;
    proof {
        vstd::arithmetic::power2::lemma2_to64();
        assert(a < whole);
    }
    while x > 0 && x * 2 < whole
        invariant
            0 < b < 0x4_0000_0000_0000_0000,
            a < b,
            whole == WIDE * b,
            shift(a as nat, b as nat) == k + shift(x as nat, b as nat),
            p == pow2(k),
            p > 0,
            x == a * p,
            x < whole,
            a == 0 ==> p == 1,
        decreases whole - x,
    {
        proof {
            lemma_pow2_step(k);
            k = k + 1;
        }
        x = x * 2;
        assert(p <= x) by (nonlinear_arith)
            requires
                x == a * p * 2,
                a > 0,
                p > 0,
        ;
        assert(a * (p * 2) == a * p * 2) by (nonlinear_arith);
        assert(p * 2 <= x) by (nonlinear_arith)
            requires
                x == a * p * 2,
                a > 0,
                p > 0,
        ;
        p = p * 2;
    }
    assert(p == 1 || p <= x) by (nonlinear_arith)
        requires
            x == a * p,
            a == 0 ==> p == 1,
            a >= 0,
            p > 0,
    ;
    let m = round_div(x, b);
    proof {
        assert(x / b < WIDE) by (nonlinear_arith)
            requires
                x < WIDE * b,
                b > 0,
        ;
        lemma_share_at_most_one(a as nat, b as nat, p as nat);
    }
    (m, p)
}

proof fn lemma_share_at_most_one(a: nat, b: nat, p: nat)
    requires
        a < b,
        p > 0,
    ensures
        half_even(a * p, b) <= p,
{
    let n = a * p;
    let q = n / b;
    let r = n % b;
    assert(n < b * p) by (nonlinear_arith)
        requires
            n == a * p,
            a < b,
            p > 0,
    ;
    vstd::arithmetic::div_mod::lemma_fundamental_div_mod(n as int, b as int);
    assert(q < p) by (nonlinear_arith)
        requires
            n == b * q + r,
            n < b * p,
            r >= 0,
            b > 0,
    ;
}

/// A product that is no more than a whole stays so when it is rounded, where the whole has at most 53
/// binary digits before its shift.
proof fn lemma_round_within(x: nat, len: nat, k: nat)
    requires
        len < WIDE,
        x <= len * pow2(k),
    ensures
        to53(x) <= len * pow2(k),
{
    let y = len * pow2(k);
    let s = extra(x);
    lemma_extra(x);
    vstd::arithmetic::power2::lemma2_to64();
    if x < WIDE {
        assert(s == 0);
        assert(x / 1 == x && x % 1 == 0);
    } else {
        let p = pow2(s);
        lemma_pow2_pos(s);
        lemma_pow2_pos(k);
        if k < s {
            // The whole would be smaller than the product.
            vstd::arithmetic::power2::lemma_pow2_adds(k, (s - k) as nat);
            lemma_pow2_step((s - k - 1) as nat);
            lemma_pow2_pos((s - k - 1) as nat);
            let d = pow2((s - k) as nat);
            assert(d >= 2);
            assert(WIDE / 2 * p >= WIDE * pow2(k)) by (nonlinear_arith)
                requires
                    p == pow2(k) * d,
                    d >= 2,
            ;
            assert(len * pow2(k) < WIDE * pow2(k)) by (nonlinear_arith)
                requires
                    len < WIDE,
                    pow2(k) > 0,
            ;
        }
        vstd::arithmetic::power2::lemma_pow2_adds(s, (k - s) as nat);
        let e = pow2((k - s) as nat);
        let c = len * e;
        assert(y == c * p) by (nonlinear_arith)
            requires
                y == len * pow2(k),
                pow2(k) == p * e,
                c == len * e,
        ;
        let q = x / p;
        let r = x % p;
        vstd::arithmetic::div_mod::lemma_fundamental_div_mod(x as int, p as int);
        vstd::arithmetic::div_mod::lemma_mod_bound(x as int, p as int);
        if r == 0 {
            assert(half_even(x, p) == q);
            assert(q * p <= y) by (nonlinear_arith)
                requires
                    x == p * q + r,
                    r == 0,
                    x <= y,
            ;
        } else {
            assert(q < c) by (nonlinear_arith)
                requires
                    x == p * q + r,
                    x <= c * p,
                    r > 0,
            ;
            assert(half_even(x, p) <= q + 1);
            assert(half_even(x, p) * p <= c * p) by (nonlinear_arith)
                requires
                    half_even(x, p) <= c,
            ;
        }
    }
}

fn push_times(s: &mut String, c: char, n: usize)
    ensures
        final(s)@ == old(s)@ + repeated(c, n as nat),
{
    let mut i: usize = 0;
    assert(s@ =~= old(s)@ + repeated(c, 0));
    while i < n
        invariant
            i <= n,
            s@ == old(s)@ + repeated(c, i as nat),
        decreases n - i,
    {
        s.push(c);
        i += 1;
        assert(s@ =~= old(s)@ + repeated(c, i as nat));
    }
}

fn push_tenths(s: &mut String, t: u128)
    requires
        t / 10 <= u64::MAX,
    ensures
        final(s)@ == old(s)@ + tenths(t as nat),
{
    let ghost before = s@;
    let mut n = dec_string((t / 10) as u64);
    n.append(".");
    push_dec(&mut n, (t % 10) as u64);
    let ghost shown = n@;
    assert(shown =~= dec((t / 10) as nat) + "."@ + dec((t % 10) as nat));
    let len = crate::text::chars_of(n.as_str()).len();
    if len < 5 {
        push_times(s, ' ', 5 - len);
    } else {
        push_times(s, ' ', 0);
    }
    s.append(n.as_str());
    assert(s@ =~= before + tenths(t as nat));
}

/// A progress bar: how much of the whole is done as a bar, as a percentage with one decimal, and in
/// numbers. Nothing of nothing counts as done, and more than the whole as the whole. The bar has fewer than
/// two to the 53rd characters.
pub fn progress_bar(done: usize, total: usize, bar_len: usize) -> (r: String)
    requires
        bar_len < WIDE,
    ensures
        r@ == progress_bar_of(done as nat, total as nat, bar_len as nat),
{
    proof {
        vstd::arithmetic::power2::lemma2_to64();
    }
    let a = round53(done as u128);
    let b = round53(total as u128);
    let (m, p): (u128, u128) = if total == 0 || a >= b {
        (1, 1)
    } else {
        share_of(a, b)
    };
    let ghost r = ratio(done as nat, total as nat);
    assert(m == r.0 && p == pow2(r.1));
    let len = round53(bar_len as u128);
    assert(len == bar_len) by {
        assert(extra(bar_len as nat) == 0);
        assert(bar_len as nat / 1 == bar_len && bar_len as nat % 1 == 0);
    }
    assert(len * m <= WIDE * WIDE) by (nonlinear_arith)
        requires
            len < WIDE,
            m <= WIDE,
    ;
    let product = round53(len * m);
    proof {
        assert(len * m <= len * p) by (nonlinear_arith)
            requires
                m <= p,
        ;
        lemma_round_within((len * m) as nat, bar_len as nat, r.1);
        assert(product / p <= bar_len) by (nonlinear_arith)
            requires
                product <= bar_len * p,
                p > 0,
        ;
    }
    let filled = (product / p) as usize;
    let points = round53(m * 100);
    let t = round_div(points * 10, p);
    proof {
        assert((points * 10) / (p as int) <= points * 10) by (nonlinear_arith)
            requires
                p > 0,
                points >= 0,
        ;
    }
    let mut s = "[".to_string();
    push_times(&mut s, '█', filled);
    push_times(&mut s, '░', bar_len - filled);
    s.append("] ");
    push_tenths(&mut s, t);
    s.append("% (");
    push_dec(&mut s, done as u64);
    s.append("/");
    push_dec(&mut s, total as u64);
    s.append(")");
    assert(s@ =~= progress_bar_of(done as nat, total as nat, bar_len as nat));
    s
}

// ---------------------------------------------------------------------------------------------
// Laws
// ---------------------------------------------------------------------------------------------

proof fn lemma_short_is_exact(n: nat)
    requires
        n < WIDE,
    ensures
        to53(n) == n,
{
    vstd::arithmetic::power2::lemma2_to64();
    assert(extra(n) == 0);
    assert(n / 1 == n && n % 1 == 0);
}

proof fn lemma_extra_grows(a: nat, b: nat)
    requires
        a <= b,
    ensures
        extra(a) <= extra(b),
    decreases b,
{
    if a >= WIDE {
        lemma_extra_grows(a / 2, b / 2);
    }
}

/// A rounded quotient is at least the cut one, and at most one more.
proof fn lemma_half_even_near(n: nat, d: nat)
    requires
        d > 0,
    ensures
        n / d <= half_even(n, d) <= n / d + 1,
{
}

proof fn lemma_half_even_grows(a: nat, b: nat, d: nat)
    requires
        a <= b,
        d > 0,
    ensures
        half_even(a, d) <= half_even(b, d),
{
    let qa = a / d;
    let qb = b / d;
    vstd::arithmetic::div_mod::lemma_fundamental_div_mod(a as int, d as int);
    vstd::arithmetic::div_mod::lemma_fundamental_div_mod(b as int, d as int);
    vstd::arithmetic::div_mod::lemma_div_is_ordered(a as int, b as int, d as int);
    if qa == qb {
        assert(a % d <= b % d);
    } else {
        lemma_half_even_near(a, d);
        lemma_half_even_near(b, d);
    }
}

/// Rounding keeps the order.
proof fn lemma_to53_grows(a: nat, b: nat)
    requires
        a <= b,
    ensures
        to53(a) <= to53(b),
{
    let ea = extra(a);
    let eb = extra(b);
    let pa = pow2(ea);
    let pb = pow2(eb);
    lemma_extra_grows(a, b);
    lemma_extra(a);
    lemma_extra(b);
    lemma_pow2_pos(ea);
    lemma_pow2_pos(eb);
    if ea == eb {
        lemma_half_even_grows(a, b, pa);
        assert(half_even(a, pa) * pa <= half_even(b, pa) * pa) by (nonlinear_arith)
            requires
                half_even(a, pa) <= half_even(b, pa),
        ;
    } else {
        lemma_half_even_near(a, pa);
        lemma_half_even_near(b, pb);
        vstd::arithmetic::div_mod::lemma_fundamental_div_mod(a as int, pa as int);
        vstd::arithmetic::div_mod::lemma_fundamental_div_mod(b as int, pb as int);
        vstd::arithmetic::div_mod::lemma_mod_bound(b as int, pb as int);
        let qa = a / pa;
        let qb = b / pb;
        assert(qa < WIDE) by (nonlinear_arith)
            requires
                a < WIDE * pa,
                qa == a / pa,
                pa > 0,
        ;
        assert(b >= WIDE);
        assert(qb >= WIDE / 2) by (nonlinear_arith)
            requires
                WIDE / 2 * pb <= b,
                b == pb * qb + b % pb,
                b % pb < pb,
                pb > 0,
        ;
        vstd::arithmetic::power2::lemma_pow2_adds(ea, (eb - ea) as nat);
        lemma_pow2_step((eb - ea - 1) as nat);
        let d = pow2((eb - ea) as nat);
        assert(d >= 2);
        assert(half_even(a, pa) * pa <= half_even(b, pb) * pb) by (nonlinear_arith)
            requires
                half_even(a, pa) <= WIDE,
                half_even(b, pb) >= WIDE / 2,
                pb == pa * d,
                d >= 2,
                pa > 0,
        ;
    }
}

/// The bar has its length, whatever is done: the filled part is no longer than the whole.
pub proof fn law_bar_keeps_length(done: nat, total: nat, bar_len: nat)
    requires
        bar_len < WIDE,
    ensures
        part_of(bar_len, ratio(done, total)) <= bar_len,
{
    let r = ratio(done, total);
    let p = pow2(r.1);
    vstd::arithmetic::power2::lemma2_to64();
    lemma_pow2_pos(r.1);
    lemma_short_is_exact(bar_len);
    if total != 0 && to53(done) < to53(total) {
        lemma_share_at_most_one(to53(done), to53(total), p);
    }
    assert(bar_len * r.0 <= bar_len * p) by (nonlinear_arith)
        requires
            r.0 <= p,
    ;
    lemma_round_within(bar_len * r.0, bar_len, r.1);
    let product = to53(bar_len * r.0);
    assert(product / p <= bar_len) by (nonlinear_arith)
        requires
            product <= bar_len * p,
            p > 0,
    ;
}

/// When all is done, or more than all, the bar is full and shows 100 percent.
pub proof fn law_all_done_is_full(done: nat, total: nat, bar_len: nat)
    requires
        done >= total,
        bar_len < WIDE,
    ensures
        progress_bar_of(done, total, bar_len) == "["@ + repeated('█', bar_len) + "] 100.0% ("@ + dec(done)
            + "/"@ + dec(total) + ")"@,
{
    vstd::arithmetic::power2::lemma2_to64();
    lemma_to53_grows(total, done);
    lemma_short_is_exact(bar_len);
    lemma_short_is_exact(100);
    assert(ratio(done, total) == (1nat, 0nat));
    assert(to53(bar_len) * 1 == bar_len);
    assert(part_of(bar_len, (1nat, 0nat)) == bar_len);
    assert(1000nat / 1 == 1000 && 1000nat % 1 == 0);
    assert(permille((1nat, 0nat)) == 1000);
    reveal_strlit(".");
    reveal_strlit("] ");
    reveal_strlit("% (");
    reveal_strlit("] 100.0% (");
    reveal_with_fuel(dec, 3);
    assert(dec(100) =~= seq!['1', '0', '0']);
    assert(tenths(1000) =~= seq!['1', '0', '0', '.', '0']);
    assert("] "@ + tenths(1000) + "% ("@ =~= "] 100.0% ("@);
    assert(repeated('░', 0) =~= Seq::empty());
    assert(progress_bar_of(done, total, bar_len) =~= "["@ + repeated('█', bar_len) + ("] "@ + tenths(1000)
        + "% ("@) + dec(done) + "/"@ + dec(total) + ")"@);
}

/// When nothing is done, the bar is empty and shows 0 percent.
pub proof fn law_nothing_done_is_empty(total: nat, bar_len: nat)
    requires
        total > 0,
        bar_len < WIDE,
    ensures
        progress_bar_of(0, total, bar_len) == "["@ + repeated('░', bar_len) + "]   0.0% (0/"@ + dec(total)
            + ")"@,
{
    vstd::arithmetic::power2::lemma2_to64();
    lemma_short_is_exact(0);
    lemma_short_is_exact(1);
    lemma_short_is_exact(bar_len);
    lemma_to53_grows(1, total);
    let b = to53(total);
    assert(0nat / b == 0 && 0nat % b == 0) by (nonlinear_arith)
        requires
            b > 0,
    ;
    assert(ratio(0, total) == (0nat, 0nat));
    assert(to53(bar_len) * 0 == 0);
    assert(part_of(bar_len, (0nat, 0nat)) == 0);
    assert(permille((0nat, 0nat)) == 0);
    reveal_strlit(".");
    reveal_strlit("] ");
    reveal_strlit("% (");
    reveal_strlit("/");
    reveal_strlit("]   0.0% (0/");
    assert(tenths(0) =~= seq![' ', ' ', '0', '.', '0']);
    assert("] "@ + tenths(0) + "% ("@ + dec(0) + "/"@ =~= "]   0.0% (0/"@);
    assert(repeated('█', 0) =~= Seq::empty());
    assert(progress_bar_of(0, total, bar_len) =~= "["@ + repeated('░', bar_len) + ("] "@ + tenths(0)
        + "% ("@ + dec(0) + "/"@) + dec(total) + ")"@);
}

} // verus!
