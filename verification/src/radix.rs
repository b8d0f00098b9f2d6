//! RFC 4648: bytes written as text in base 16, base 32 and base 64.
//!
//! The bits of the data, most significant first, are cut into groups of 4, 5 or 6; the last group
//! is filled with zero bits; each group selects a symbol; and `=` fills the last block.

use vstd::prelude::*;
use crate::text::{stripped_end, Strip};

verus! {

/// The three alphabets.
#[derive(Clone, Copy)]
pub enum Alphabet {
    /// Lower-case hexadecimal.
    Hex,
    /// Upper-case base 32 (RFC 4648, section 6).
    Base32,
    /// Base 64 (RFC 4648, section 4).
    Base64,
}

impl Alphabet {
    /// Bits per symbol.
    pub open spec fn width(self) -> nat {
        match self {
            Alphabet::Hex => 4,
            Alphabet::Base32 => 5,
            Alphabet::Base64 => 6,
        }
    }

    /// Symbols per block; the text is padded to a whole number of blocks.
    pub open spec fn block(self) -> nat {
        match self {
            Alphabet::Hex => 2,
            Alphabet::Base32 => 8,
            Alphabet::Base64 => 4,
        }
    }

    /// The symbol of a group of bits.
    pub open spec fn symbol(self, v: nat) -> char {
        match self {
            Alphabet::Hex => if v < 10 {
                (48 + v) as char
            } else {
                (97 + (v - 10)) as char
            },
            Alphabet::Base32 => if v < 26 {
                (65 + v) as char
            } else {
                (50 + (v - 26)) as char
            },
            Alphabet::Base64 => if v < 26 {
                (65 + v) as char
            } else if v < 52 {
                (97 + (v - 26)) as char
            } else if v < 62 {
                (48 + (v - 52)) as char
            } else if v == 62 {
                '+'
            } else {
                '/'
            },
        }
    }

    /// The group of bits that a symbol stands for; hexadecimal takes either case.
    pub open spec fn value(self, c: char) -> Option<nat> {
        match self {
            Alphabet::Hex => if '0' <= c <= '9' {
                Some((c as nat - 48) as nat)
            } else if 'a' <= c <= 'f' {
                Some((c as nat - 87) as nat)
            } else if 'A' <= c <= 'F' {
                Some((c as nat - 55) as nat)
            } else {
                None
            },
            Alphabet::Base32 => if 'A' <= c <= 'Z' {
                Some((c as nat - 65) as nat)
            } else if '2' <= c <= '7' {
                Some((c as nat - 24) as nat)
            } else {
                None
            },
            Alphabet::Base64 => if 'A' <= c <= 'Z' {
                Some((c as nat - 65) as nat)
            } else if 'a' <= c <= 'z' {
                Some((c as nat - 71) as nat)
            } else if '0' <= c <= '9' {
                Some((c as nat + 4) as nat)
            } else if c == '+' {
                Some(62)
            } else if c == '/' {
                Some(63)
            } else {
                None
            },
        }
    }
}

/// The number whose binary digits are `b`, most significant first.
pub open spec fn bits_value(b: Seq<nat>) -> nat
    decreases b.len(),
{
    if b.len() == 0 {
        0
    } else {
        2 * bits_value(b.drop_last()) + b.last()
    }
}

/// The low `w` binary digits of `v`, most significant first.
pub open spec fn bits_of(v: nat, w: nat) -> Seq<nat>
    decreases w,
{
    if w == 0 {
        Seq::empty()
    } else {
        bits_of(v / 2, (w - 1) as nat).push(v % 2)
    }
}

/// Bit `j` of the data; past the end the bits are zero.
pub open spec fn data_bit(data: Seq<u8>, j: int) -> nat {
    if 0 <= j < 8 * data.len() {
        bits_of(data[j / 8] as nat, 8)[j % 8]
    } else {
        0
    }
}

/// Group `i` of `w` bits.
pub open spec fn group(data: Seq<u8>, w: nat, i: int) -> nat {
    bits_value(Seq::new(w, |t: int| data_bit(data, w * i + t)))
}

/// How many groups of `w` bits cover `n` bytes.
pub open spec fn groups(n: nat, w: nat) -> nat {
    ((8 * n + w - 1) / w as int) as nat
}

/// The symbols of the data, without padding.
pub open spec fn symbols(a: Alphabet, data: Seq<u8>) -> Seq<char> {
    Seq::new(groups(data.len(), a.width()), |i: int| a.symbol(group(data, a.width(), i)))
}

/// How many `=` fill up the last block after `n` symbols.
pub open spec fn fill(a: Alphabet, n: nat) -> nat {
    ((a.block() - n % a.block()) % (a.block() as int)) as nat
}

/// The data as text.
pub open spec fn encoded(a: Alphabet, data: Seq<u8>) -> Seq<char> {
    let s = symbols(a, data);
    s + Seq::new(fill(a, s.len()), |i: int| '=')
}

/// Bit `j` of the bits that the symbols of `s` stand for.
pub open spec fn text_bit(a: Alphabet, s: Seq<char>, j: int) -> nat {
    bits_of(a.value(s[j / (a.width() as int)])->0, a.width())[j % (a.width() as int)]
}

/// The data that a text stands for; bits left over after the last whole byte are dropped.
pub open spec fn decoded(a: Alphabet, text: Seq<char>) -> Option<Seq<u8>> {
    let s = stripped_end(text, Strip::Only('='));
    if forall|i: int| 0 <= i < s.len() ==> a.value(#[trigger] s[i]) is Some {
        Some(
            Seq::new(
                (a.width() * s.len() / 8) as nat,
                |k: int| bits_value(Seq::new(8, |t: int| text_bit(a, s, 8 * k + t))) as u8,
            ),
        )
    } else {
        None
    }
}

// ---------------------------------------------------------------------------------------------
// Proofs
// ---------------------------------------------------------------------------------------------

/// Which characters a text of each alphabet holds.
pub open spec fn in_alphabet(a: Alphabet, c: char) -> bool {
    match a {
        Alphabet::Hex => '0' <= c <= '9' || 'a' <= c <= 'f',
        Alphabet::Base32 => 'A' <= c <= 'Z' || '2' <= c <= '7' || c == '=',
        Alphabet::Base64 => 'A' <= c <= 'Z' || 'a' <= c <= 'z' || '0' <= c <= '9' || c == '+' || c == '/'
            || c == '=',
    }
}

/// Whether all of `b` are zero or one.
pub open spec fn binary(b: Seq<nat>) -> bool {
    forall|i: int| 0 <= i < b.len() ==> #[trigger] b[i] < 2
}

/// Whether `v` has at most `w` binary digits.
pub open spec fn narrow(v: nat, w: nat) -> bool
    decreases w,
{
    if w == 0 {
        v == 0
    } else {
        narrow(v / 2, (w - 1) as nat)
    }
}

proof fn lemma_bits_of(v: nat, w: nat)
    ensures
        bits_of(v, w).len() == w,
        binary(bits_of(v, w)),
        narrow(v, w) ==> bits_value(bits_of(v, w)) == v,
    decreases w,
{
    if w > 0 {
        lemma_bits_of(v / 2, (w - 1) as nat);
        assert(bits_of(v, w).drop_last() =~= bits_of(v / 2, (w - 1) as nat));
    }
}

proof fn lemma_bits_value(b: Seq<nat>)
    requires
        binary(b),
    ensures
        bits_of(bits_value(b), b.len()) == b,
        narrow(bits_value(b), b.len()),
    decreases b.len(),
{
    if b.len() > 0 {
        let h = b.drop_last();
        assert forall|i: int| 0 <= i < h.len() implies #[trigger] h[i] < 2 by {
            assert(h[i] == b[i]);
        }
        lemma_bits_value(h);
        let v = bits_value(b);
        assert(b.last() < 2);
        assert(v / 2 == bits_value(h));
        assert(v % 2 == b.last());
        assert(bits_of(v, b.len()) =~= h.push(b.last()));
        assert(h.push(b.last()) =~= b);
    }
}

proof fn lemma_narrow_8(v: nat)
    ensures
        narrow(v, 8) <==> v < 256,
{
    reveal_with_fuel(narrow, 9);
}

proof fn lemma_narrow_width(a: Alphabet, v: nat)
    requires
        narrow(v, a.width()),
    ensures
        a.value(a.symbol(v)) == Some(v),
        a.symbol(v) != '=',
        in_alphabet(a, a.symbol(v)),
{
    reveal_with_fuel(narrow, 7);
}

proof fn lemma_data_bit(data: Seq<u8>, j: int)
    ensures
        data_bit(data, j) < 2,
{
    if 0 <= j < 8 * data.len() {
        lemma_bits_of(data[j / 8] as nat, 8);
    }
}

/// Each symbol gives its group of bits back.
proof fn lemma_symbol_bits(a: Alphabet, data: Seq<u8>, i: int)
    requires
        0 <= i < groups(data.len(), a.width()),
    ensures
        a.value(symbols(a, data)[i]) == Some(group(data, a.width(), i)),
        symbols(a, data)[i] != '=',
        in_alphabet(a, symbols(a, data)[i]),
        bits_of(group(data, a.width(), i), a.width()) == Seq::new(
            a.width(),
            |t: int| data_bit(data, a.width() * i + t),
        ),
{
    let w = a.width();
    let b = Seq::new(w, |t: int| data_bit(data, w * i + t));
    assert forall|t: int| 0 <= t < b.len() implies #[trigger] b[t] < 2 by {
        lemma_data_bit(data, w * i + t);
    }
    lemma_bits_value(b);
    lemma_narrow_width(a, group(data, w, i));
}

/// Padding is stripped off again.
proof fn lemma_unpad(s: Seq<char>, n: nat)
    requires
        s.len() > 0 ==> s.last() != '=',
    ensures
        stripped_end(s + Seq::new(n, |i: int| '='), Strip::Only('=')) == s,
    decreases n,
{
    let t = s + Seq::new(n, |i: int| '=');
    if n > 0 {
        assert(t.drop_last() =~= s + Seq::new((n - 1) as nat, |i: int| '='));
        lemma_unpad(s, (n - 1) as nat);
    } else {
        assert(t =~= s);
    }
}

/// Decoding gives back what was encoded, in every alphabet and for any data.
pub proof fn law_decode_encode(a: Alphabet, data: Seq<u8>)
    ensures
        decoded(a, encoded(a, data)) == Some(data),
{
    let w = a.width();
    let s = symbols(a, data);
    let n = data.len();
    assert forall|i: int| 0 <= i < s.len() implies a.value(#[trigger] s[i]) is Some && s[i] != '=' by {
        lemma_symbol_bits(a, data, i);
    }
    lemma_unpad(s, fill(a, s.len()));
    assert(w * s.len() / 8 == n);
    let r = decoded(a, encoded(a, data))->0;
    assert forall|k: int| 0 <= k < n implies #[trigger] r[k] == data[k] by {
        let b = Seq::new(8, |t: int| text_bit(a, s, 8 * k + t));
        let c = bits_of(data[k] as nat, 8);
        lemma_bits_of(data[k] as nat, 8);
        lemma_narrow_8(data[k] as nat);
        assert forall|t: int| 0 <= t < 8 implies b[t] == #[trigger] c[t] by {
            let j = 8 * k + t;
            let i = j / (w as int);
            let u = j % (w as int);
            assert(0 <= i < s.len());
            lemma_symbol_bits(a, data, i);
            assert(w * i + u == j);
            assert(j / 8 == k && j % 8 == t);
        }
        assert(b =~= c);
    }
    assert(r =~= data);
}

/// A text holds only characters of its alphabet; hexadecimal text has two per byte.
pub proof fn lemma_encoded_chars(a: Alphabet, data: Seq<u8>)
    ensures
        forall|i: int| 0 <= i < encoded(a, data).len() ==> in_alphabet(a, #[trigger] encoded(a, data)[i]),
        a is Hex ==> encoded(a, data).len() == 2 * data.len(),
{
    let s = symbols(a, data);
    if a is Hex {
        assert(a.width() == 4);
        let n = data.len() as int;
        assert((8 * n + 4 - 1) / 4 == 2 * n);
        assert(groups(data.len(), a.width()) == 2 * data.len());
        assert(fill(a, s.len()) == 0);
    }
    assert forall|i: int| 0 <= i < encoded(a, data).len() implies in_alphabet(
        a,
        #[trigger] encoded(a, data)[i],
    ) by {
        if i < s.len() {
            lemma_symbol_bits(a, data, i);
            assert(encoded(a, data)[i] == s[i]);
        }
    }
}

/// Text comes in whole blocks, and there is some for every byte.
pub proof fn lemma_encoded_len(a: Alphabet, data: Seq<u8>)
    ensures
        encoded(a, data).len() % a.block() == 0,
        encoded(a, data).len() >= data.len(),
{
    let n = groups(data.len(), a.width());
    let m = data.len() as int;
    match a {
        Alphabet::Hex => {
            assert((8 * m + 4 - 1) / 4 >= m);
        },
        Alphabet::Base32 => {
            assert((8 * m + 5 - 1) / 5 >= m);
        },
        Alphabet::Base64 => {
            assert((8 * m + 6 - 1) / 6 >= m);
        },
    }
    assert(symbols(a, data).len() == n);
    assert((n + fill(a, n)) % a.block() == 0);
}

/// No data, no text.
pub proof fn lemma_encoded_empty(a: Alphabet)
    ensures
        encoded(a, Seq::empty()).len() == 0,
{
    match a {
        Alphabet::Hex => {
            assert((8 * 0 + 4 - 1) / 4 == 0) by (nonlinear_arith);
            assert(groups(0, 4) == 0);
            assert((2 - 0nat % 2) % 2 == 0) by (nonlinear_arith);
        },
        Alphabet::Base32 => {
            assert((8 * 0 + 5 - 1) / 5 == 0) by (nonlinear_arith);
            assert(groups(0, 5) == 0);
            assert((8 - 0nat % 8) % 8 == 0) by (nonlinear_arith);
        },
        Alphabet::Base64 => {
            assert((8 * 0 + 6 - 1) / 6 == 0) by (nonlinear_arith);
            assert(groups(0, 6) == 0);
            assert((4 - 0nat % 4) % 4 == 0) by (nonlinear_arith);
        },
    }
    assert(symbols(a, Seq::empty()).len() == 0);
    assert(fill(a, 0) == 0);
}

} // verus!
