//! Encoders: bytes to ASCII text that a keyboard can type.
//!
//! Base 32 and base 16 come out in lower case, which needs no Shift key.

use vstd::prelude::*;
use crate::radix::{
    decoded, encoded, in_alphabet, law_decode_encode, lemma_encoded_chars, text_bit, Alphabet,
};
use crate::text::{chars_of, same_str, stripped_end, Strip};

verus! {

/// `data_encoding::BASE32.encode`: padded base 32 in upper case, as RFC 4648 writes it. The crate
/// refuses more than `usize::MAX / 512` bytes.
#[verifier::external_body]
fn base32_encode(data: &[u8]) -> (r: String)
    requires
        data@.len() <= usize::MAX / 512,
    ensures
        r@ == encoded(Alphabet::Base32, data@),
{
    data_encoding::BASE32.encode(data)
}

/// `base64::engine::general_purpose::STANDARD.encode`: padded base 64 in the standard alphabet,
/// as RFC 4648 writes it. The text has to fit in memory.
#[verifier::external_body]
pub(crate) fn base64_encode(data: &[u8]) -> (r: String)
    requires
        (data@.len() + 2) / 3 * 4 <= isize::MAX,
    ensures
        r@ == encoded(Alphabet::Base64, data@),
{
    base64::Engine::encode(&base64::engine::general_purpose::STANDARD, data)
}

/// `hex::encode`: two lower-case hexadecimal digits per byte. The text has to fit in memory.
#[verifier::external_body]
fn hex_encode(data: &[u8]) -> (r: String)
    requires
        data@.len() * 2 <= isize::MAX,
    ensures
        r@ == encoded(Alphabet::Hex, data@),
{
    hex::encode(data)
}

/// ASCII lower case of one character.
pub open spec fn lower_char(c: char) -> char {
    if 'A' <= c <= 'Z' {
        (c as nat + 32) as char
    } else {
        c
    }
}

/// ASCII upper case of one character.
pub open spec fn upper_char(c: char) -> char {
    if 'a' <= c <= 'z' {
        (c as nat - 32) as char
    } else {
        c
    }
}

/// ASCII lower case.
pub open spec fn lower(s: Seq<char>) -> Seq<char> {
    s.map_values(|c: char| lower_char(c))
}

/// ASCII upper case: what `tr 'a-z' 'A-Z'` makes of a text.
pub open spec fn upper(s: Seq<char>) -> Seq<char> {
    s.map_values(|c: char| upper_char(c))
}

/// ASCII lower case.
pub fn to_lower(s: &str) -> (r: String)
    ensures
        r@ == lower(s@),
{
    let v = chars_of(s);
    let mut r = String::new();
    let mut i: usize = 0;
    while i < v.len()
        invariant
            i <= v.len(),
            v@ == s@,
            r@ == lower(s@).take(i as int),
        decreases v.len() - i,
    {
        let c = v[i];
        let l = if 'A' <= c && c <= 'Z' {
            (c as u8 + 32) as char
        } else {
            c
        };
        r.push(l);
        proof {
            assert(lower(s@).take(i as int + 1) =~= lower(s@).take(i as int).push(l));
        }
        i += 1;
    }
    assert(lower(s@).take(v@.len() as int) =~= lower(s@));
    r
}

/// What an encoder can do.
pub trait Encoder {
    /// The name that `name` returns.
    spec fn label(&self) -> Seq<char>;

    /// The suffix that `suffix` returns.
    spec fn ending(&self) -> Seq<char>;

    /// Whether the text of so many bytes fits in memory.
    spec fn fits(&self, n: nat) -> bool;

    /// The text of the data.
    spec fn text_of(&self, data: Seq<u8>) -> Seq<char>;

    /// Display name, such as `Base32`.
    fn name(&self) -> (r: &'static str)
        ensures
            r@ == self.label(),
    ;

    /// File suffix, such as `b32`.
    fn suffix(&self) -> (r: &'static str)
        ensures
            r@ == self.ending(),
    ;

    /// Encodes bytes as ASCII text.
    fn encode(&self, data: &[u8]) -> (r: String)
        requires
            self.fits(data@.len()),
        ensures
            r@ == self.text_of(data@),
    ;
}

/// Base 32 in lower case, padded.
pub struct Base32;

/// Base 64, padded.
pub struct Base64;

/// Base 16 in lower case.
pub struct Base16;

impl Encoder for Base32 {
    open spec fn label(&self) -> Seq<char> {
        "Base32"@
    }

    open spec fn ending(&self) -> Seq<char> {
        "b32"@
    }

    open spec fn fits(&self, n: nat) -> bool {
        n <= usize::MAX / 512
    }

    open spec fn text_of(&self, data: Seq<u8>) -> Seq<char> {
        lower(encoded(Alphabet::Base32, data))
    }

    fn name(&self) -> (r: &'static str) {
        "Base32"
    }

    fn suffix(&self) -> (r: &'static str) {
        "b32"
    }

    fn encode(&self, data: &[u8]) -> (r: String) {
        let t = base32_encode(data);
        to_lower(t.as_str())
    }
}

impl Encoder for Base64 {
    open spec fn label(&self) -> Seq<char> {
        "Base64"@
    }

    open spec fn ending(&self) -> Seq<char> {
        "b64"@
    }

    open spec fn fits(&self, n: nat) -> bool {
        (n + 2) / 3 * 4 <= isize::MAX
    }

    open spec fn text_of(&self, data: Seq<u8>) -> Seq<char> {
        encoded(Alphabet::Base64, data)
    }

    fn name(&self) -> (r: &'static str) {
        "Base64"
    }

    fn suffix(&self) -> (r: &'static str) {
        "b64"
    }

    fn encode(&self, data: &[u8]) -> (r: String) {
        base64_encode(data)
    }
}

impl Encoder for Base16 {
    open spec fn label(&self) -> Seq<char> {
        "Base16"@
    }

    open spec fn ending(&self) -> Seq<char> {
        "b16"@
    }

    open spec fn fits(&self, n: nat) -> bool {
        n * 2 <= isize::MAX
    }

    open spec fn text_of(&self, data: Seq<u8>) -> Seq<char> {
        encoded(Alphabet::Hex, data)
    }

    fn name(&self) -> (r: &'static str) {
        "Base16"
    }

    fn suffix(&self) -> (r: &'static str) {
        "b16"
    }

    fn encode(&self, data: &[u8]) -> (r: String) {
        hex_encode(data)
    }
}

/// One of the encoders.
pub enum AnyEncoder {
    /// Base 32.
    Base32(Base32),
    /// Base 64.
    Base64(Base64),
    /// Base 16.
    Base16(Base16),
}

impl Encoder for AnyEncoder {
    open spec fn label(&self) -> Seq<char> {
        match self {
            AnyEncoder::Base32(e) => e.label(),
            AnyEncoder::Base64(e) => e.label(),
            AnyEncoder::Base16(e) => e.label(),
        }
    }

    open spec fn ending(&self) -> Seq<char> {
        match self {
            AnyEncoder::Base32(e) => e.ending(),
            AnyEncoder::Base64(e) => e.ending(),
            AnyEncoder::Base16(e) => e.ending(),
        }
    }

    open spec fn fits(&self, n: nat) -> bool {
        match self {
            AnyEncoder::Base32(e) => e.fits(n),
            AnyEncoder::Base64(e) => e.fits(n),
            AnyEncoder::Base16(e) => e.fits(n),
        }
    }

    open spec fn text_of(&self, data: Seq<u8>) -> Seq<char> {
        match self {
            AnyEncoder::Base32(e) => e.text_of(data),
            AnyEncoder::Base64(e) => e.text_of(data),
            AnyEncoder::Base16(e) => e.text_of(data),
        }
    }

    fn name(&self) -> (r: &'static str) {
        match self {
            AnyEncoder::Base32(e) => e.name(),
            AnyEncoder::Base64(e) => e.name(),
            AnyEncoder::Base16(e) => e.name(),
        }
    }

    fn suffix(&self) -> (r: &'static str) {
        match self {
            AnyEncoder::Base32(e) => e.suffix(),
            AnyEncoder::Base64(e) => e.suffix(),
            AnyEncoder::Base16(e) => e.suffix(),
        }
    }

    fn encode(&self, data: &[u8]) -> (r: String) {
        match self {
            AnyEncoder::Base32(e) => e.encode(data),
            AnyEncoder::Base64(e) => e.encode(data),
            AnyEncoder::Base16(e) => e.encode(data),
        }
    }
}

/// The choice of an encoder.
#[derive(Debug, Clone, Copy, PartialEq, Eq, Structural)]
pub enum Encoding {
    /// Base 32.
    Base32,
    /// Base 64.
    Base64,
    /// Base 16.
    Base16,
}

impl Encoding {
    /// The encoder that was chosen.
    pub open spec fn chosen(self) -> AnyEncoder {
        match self {
            Encoding::Base32 => AnyEncoder::Base32(Base32),
            Encoding::Base64 => AnyEncoder::Base64(Base64),
            Encoding::Base16 => AnyEncoder::Base16(Base16),
        }
    }

    /// The encoding with this name.
    pub open spec fn named(s: Seq<char>) -> Option<Encoding> {
        if s == "base32"@ {
            Some(Encoding::Base32)
        } else if s == "base64"@ {
            Some(Encoding::Base64)
        } else if s == "base16"@ {
            Some(Encoding::Base16)
        } else {
            None
        }
    }

    /// The encoding with this suffix.
    pub open spec fn suffixed(s: Seq<char>) -> Option<Encoding> {
        if s == "b32"@ {
            Some(Encoding::Base32)
        } else if s == "b64"@ {
            Some(Encoding::Base64)
        } else if s == "b16"@ {
            Some(Encoding::Base16)
        } else {
            None
        }
    }

    /// Reads the name of an encoding; `None` if it is none of them.
    pub fn parse(s: &str) -> (r: Option<Self>)
        ensures
            r == Encoding::named(s@),
    {
        if same_str(s, "base32") {
            Some(Encoding::Base32)
        } else if same_str(s, "base64") {
            Some(Encoding::Base64)
        } else if same_str(s, "base16") {
            Some(Encoding::Base16)
        } else {
            None
        }
    }

    /// Reads the suffix of an encoding; `None` if it is none of them.
    pub fn from_suffix(suffix: &str) -> (r: Option<Self>)
        ensures
            r == Encoding::suffixed(suffix@),
    {
        if same_str(suffix, "b32") {
            Some(Encoding::Base32)
        } else if same_str(suffix, "b64") {
            Some(Encoding::Base64)
        } else if same_str(suffix, "b16") {
            Some(Encoding::Base16)
        } else {
            None
        }
    }

    /// The encoder.
    pub fn encoder(&self) -> (r: AnyEncoder)
        ensures
            r == self.chosen(),
    {
        match self {
            Encoding::Base32 => AnyEncoder::Base32(Base32),
            Encoding::Base64 => AnyEncoder::Base64(Base64),
            Encoding::Base16 => AnyEncoder::Base16(Base16),
        }
    }
}

/// The alphabet that decodes the text of an encoding.
pub open spec fn alphabet(e: Encoding) -> Alphabet {
    match e {
        Encoding::Base32 => Alphabet::Base32,
        Encoding::Base64 => Alphabet::Base64,
        Encoding::Base16 => Alphabet::Hex,
    }
}

/// What the far end makes of the text before it decodes: base 32 and base 16 go through
/// `tr 'a-z' 'A-Z'`, base 64 goes as it is.
pub open spec fn received(e: Encoding, text: Seq<char>) -> Seq<char> {
    match e {
        Encoding::Base32 => upper(text),
        Encoding::Base64 => text,
        Encoding::Base16 => upper(text),
    }
}

/// The suffix of an encoder leads back to the encoding.
pub proof fn law_suffix_names_encoding(e: Encoding)
    ensures
        Encoding::suffixed(e.chosen().ending()) == Some(e),
{
    reveal_strlit("b32");
    reveal_strlit("b64");
    reveal_strlit("b16");
    assert("b32"@[1] != "b64"@[1]);
    assert("b32"@[1] != "b16"@[1]);
    assert("b64"@[1] != "b16"@[1]);
}

/// The far end decodes every text that an encoder makes to the data it was made from.
pub proof fn law_far_end_decodes(e: Encoding, data: Seq<u8>)
    ensures
        decoded(alphabet(e), received(e, e.chosen().text_of(data))) == Some(data),
{
    let a = alphabet(e);
    let t = encoded(a, data);
    law_decode_encode(a, data);
    match e {
        Encoding::Base32 => {
            lemma_encoded_chars(a, data);
            assert(upper(lower(t)) =~= t);
        },
        Encoding::Base64 => {},
        Encoding::Base16 => {
            lemma_upper_hex(data);
        },
    }
}

/// Hexadecimal digits decode alike in either case.
proof fn lemma_upper_hex(data: Seq<u8>)
    ensures
        decoded(Alphabet::Hex, upper(encoded(Alphabet::Hex, data))) == decoded(
            Alphabet::Hex,
            encoded(Alphabet::Hex, data),
        ),
{
    let a = Alphabet::Hex;
    let t = encoded(a, data);
    let u = upper(t);
    lemma_encoded_chars(a, data);
    assert(stripped_end(t, Strip::Only('=')) == t);
    assert(stripped_end(u, Strip::Only('=')) == u) by {
        if u.len() > 0 {
            assert(in_alphabet(a, t.last()));
        }
    }
    assert forall|i: int| 0 <= i < t.len() implies a.value(#[trigger] u[i]) == a.value(t[i]) && a.value(
        t[i],
    ) is Some by {
        assert(in_alphabet(a, t[i]));
    }
    assert forall|k: int| 0 <= k < (4 * t.len() / 8) implies #[trigger] decoded(a, u)->0[k] == decoded(a, t)->0[k] by {
        assert(Seq::new(8, |j: int| text_bit(a, u, 8 * k + j)) =~= Seq::new(
            8,
            |j: int| text_bit(a, t, 8 * k + j),
        ));
    }
    assert(decoded(a, u)->0 =~= decoded(a, t)->0);
}

/// Only a suffix is read as one, to the letter, and only `base` and the number of a base as its name; the
/// suffix has the same number.
pub proof fn law_only_bases_are_read(s: Seq<char>)
    ensures
        Encoding::suffixed(s) matches Some(e) ==> s == e.chosen().ending(),
        Encoding::named(s) matches Some(e) ==> s.len() == 6 && s.take(4) == seq!['b', 'a', 's', 'e'] && seq![
            'b',
        ] + s.skip(4) == e.chosen().ending(),
        Encoding::named(seq!['b', 'a', 's', 'e', '3', '2']) == Some(Encoding::Base32),
        Encoding::named(seq!['b', 'a', 's', 'e', '6', '4']) == Some(Encoding::Base64),
        Encoding::named(seq!['b', 'a', 's', 'e', '1', '6']) == Some(Encoding::Base16),
{
    reveal_strlit("base32");
    reveal_strlit("base64");
    reveal_strlit("base16");
    reveal_strlit("b32");
    reveal_strlit("b64");
    reveal_strlit("b16");
    assert("base32"@ =~= seq!['b', 'a', 's', 'e', '3', '2']);
    assert("base64"@ =~= seq!['b', 'a', 's', 'e', '6', '4']);
    assert("base16"@ =~= seq!['b', 'a', 's', 'e', '1', '6']);
    assert("base32"@[4] != "base64"@[4]);
    assert("base32"@[4] != "base16"@[4]);
    assert("base64"@[4] != "base16"@[4]);
    if let Some(e) = Encoding::named(s) {
        assert(s.take(4) =~= seq!['b', 'a', 's', 'e']);
        assert(seq!['b'] + s.skip(4) =~= e.chosen().ending());
    }
}

} // verus!
