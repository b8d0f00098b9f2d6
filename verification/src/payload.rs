//! The data pipeline: archive, compression, encoding, parts.

use vstd::prelude::*;
use vstd::utf8::{
    decode_utf8, encode_utf8, encode_utf8_decode_utf8, encode_utf8_valid_utf8, is_ascii_chars,
    is_ascii_chars_encode_utf8, valid_utf8,
};
use crate::config::{DEFAULT_ENCODING, GZIP_USE_DEN, GZIP_USE_NUM, MAX_FILE_SIZE, WRAP_EVERY};
use crate::encoder::{
    alphabet, law_far_end_decodes, received, Encoder, Encoding,
};
use crate::keymap::{get_key_info, key_info, law_encoded_is_typable, law_typable, typable};
use crate::parts::{
    chunks, concat, law_parts_make_whole, lemma_chunk_of, piece_size, split_into_parts, stretch,
};
use crate::radix::{decoded, encoded, in_alphabet, lemma_encoded_chars, lemma_encoded_len};
use crate::restore_script::{lemma_uid_names_codec, ops_of, uid_of, Ops};
use crate::text::{
    chars_of, dec, ends, lemma_position, lemma_position_is, position, push_dec, split, starts, texts,
};
use crate::utils::{
    gunzipped, gzip_compress, gzip_stream, law_wrap_keeps_text, md5_hex, md5_of_bytes, sanitize_filename,
    sanitized, unwrapped, wrapped,
};

verus! {

/// A payload in parts.
pub struct PartsInfo {
    /// The size of a part, in characters.
    pub part_size: usize,
    /// The number of parts.
    pub total: usize,
    /// The MD5 digest of each part.
    pub part_md5s: Vec<String>,
    /// The parts of the encoded text.
    pub encoded_parts: Vec<String>,
}

/// What the pipeline made of the data.
pub struct Payload {
    /// The file, or the archive of the directory. The digest is taken of this.
    pub raw: Vec<u8>,
    /// The encoded text, where it is encoded.
    pub encoded: Option<String>,
    /// The encoding.
    pub encoding: Option<Encoding>,
    /// Whether it is the archive of a directory.
    pub is_dir: bool,
    /// Whether it is compressed.
    pub is_compressed: bool,
    /// The size that compression gives.
    pub gz_len: usize,
    /// The MD5 digest of `raw`.
    pub local_md5: String,
    /// The file name that says what was done.
    pub uid_full: String,
    /// The parts, where it goes in parts.
    pub parts: Option<PartsInfo>,
}

// ---------------------------------------------------------------------------------------------
// Names
// ---------------------------------------------------------------------------------------------

/// The name of a file, or `file` where it has none, made safe.
pub open spec fn safe_name(name: Option<Seq<char>>) -> Seq<char> {
    match name {
        Some(n) => sanitized(n),
        None => sanitized("file"@),
    }
}

/// The view of an optional text.
pub open spec fn name_view(name: Option<&str>) -> Option<Seq<char>> {
    match name {
        Some(n) => Some(n@),
        None => None,
    }
}

/// The base of the name of a transfer: `typepaste_{ts}_{name}`, with the time as text.
pub fn generate_uid_base(name: Option<&str>, ts: &str) -> (r: String)
    ensures
        r@ == "typepaste_"@ + ts@ + "_"@ + safe_name(name_view(name)),
{
    let clean = sanitize_filename(
        match name {
            Some(n) => n,
            None => "file",
        },
    );
    let mut r = "typepaste_".to_string();
    r.append(ts);
    r.append("_");
    r.append(clean.as_str());
    r
}

/// The base of the name of a transfer in parts: `typepaste_{name}`. Without the time, so that a later
/// transfer of missing parts finds the same file.
pub fn generate_chunked_uid_base(name: Option<&str>) -> (r: String)
    ensures
        r@ == "typepaste_"@ + safe_name(name_view(name)),
{
    let clean = sanitize_filename(
        match name {
            Some(n) => n,
            None => "file",
        },
    );
    let mut r = "typepaste_".to_string();
    r.append(clean.as_str());
    r
}

/// The base of the name of a transfer, in one piece or in parts.
pub open spec fn uid_base_of(name: Option<Seq<char>>, ts: Seq<char>, in_parts: bool) -> Seq<char> {
    if in_parts {
        "typepaste_"@ + safe_name(name)
    } else {
        "typepaste_"@ + ts + "_"@ + safe_name(name)
    }
}

/// The base of the name of a transfer: with the time in one piece, without it in parts.
pub fn uid_base(name: Option<&str>, ts: &str, in_parts: bool) -> (r: String)
    ensures
        r@ == uid_base_of(name_view(name), ts@, in_parts),
{
    if in_parts {
        generate_chunked_uid_base(name)
    } else {
        generate_uid_base(name, ts)
    }
}

// ---------------------------------------------------------------------------------------------
// The pipeline
// ---------------------------------------------------------------------------------------------

/// Whether compression to this size is worth it.
pub open spec fn pays_off(raw_len: nat, gz_len: nat) -> bool {
    GZIP_USE_DEN * gz_len < GZIP_USE_NUM * raw_len
}

/// Whether one of the bytes is a character that no key types.
pub open spec fn untypable(raw: Seq<u8>) -> bool {
    exists|i: int| 0 <= i < raw.len() && key_info(#[trigger] raw[i] as char) is None
}

/// What goes into the pipeline.
pub struct Source {
    /// The file, or the archive of the directory.
    pub raw: Seq<u8>,
    /// The data compressed.
    pub gz: Seq<u8>,
    /// Whether it is the archive of a directory.
    pub is_dir: bool,
    /// The base of the name.
    pub uid: Seq<char>,
    /// The encoding that was asked for.
    pub encode: Option<Encoding>,
    /// The size of the parts, where it goes in parts.
    pub part_size: Option<usize>,
}

impl Source {
    /// Whether it is sent compressed.
    pub open spec fn compressed(self) -> bool {
        pays_off(self.raw.len(), self.gz.len())
    }

    /// The bytes to send.
    pub open spec fn body(self) -> Seq<u8> {
        if self.compressed() {
            self.gz
        } else {
            self.raw
        }
    }

    /// Whether it has to be encoded: some byte cannot be typed, it is an archive, it is compressed, or
    /// it goes in parts.
    pub open spec fn forced(self) -> bool {
        untypable(self.raw) || self.is_dir || self.compressed() || self.part_size is Some
    }

    /// The encoding: what was asked for, or the default where one is needed.
    pub open spec fn encoding(self) -> Option<Encoding> {
        if self.encode is None && self.forced() {
            Some(DEFAULT_ENCODING)
        } else {
            self.encode
        }
    }

    /// The encoded text.
    pub open spec fn text(self) -> Option<Seq<char>> {
        match self.encoding() {
            Some(e) => Some(e.chosen().text_of(self.body())),
            None => None,
        }
    }

    /// The name of the transfer.
    pub open spec fn name(self) -> Seq<char> {
        uid_of(self.uid, self.is_dir, self.compressed(), self.encoding())
    }
}

impl PartsInfo {
    /// Whether these are the parts of a text.
    pub open spec fn cuts(self, text: Seq<char>, size: usize) -> bool {
        &&& self.part_size == size
        &&& texts(self.encoded_parts@) == chunks(text, piece_size(size))
        &&& self.total == self.encoded_parts@.len()
        &&& texts(self.part_md5s@) == texts(self.encoded_parts@).map_values(
            |p: Seq<char>| md5_hex(encode_utf8(p)),
        )
    }
}

impl Payload {
    /// Whether this is what the pipeline makes of a source.
    pub open spec fn is_from(self, s: Source) -> bool {
        &&& self.raw@ == s.raw
        &&& self.is_dir == s.is_dir
        &&& self.gz_len == s.gz.len()
        &&& self.is_compressed == s.compressed()
        &&& self.encoding == s.encoding()
        &&& self.local_md5@ == md5_hex(s.raw)
        &&& self.uid_full@ == s.name()
        &&& match s.text() {
            Some(t) => self.encoded is Some && self.encoded->0@ == t,
            None => self.encoded is None,
        }
        &&& match s.part_size {
            Some(size) => self.parts is Some && self.parts->0.cuts(s.text()->0, size),
            None => self.parts is None,
        }
    }

    /// Whether the fields agree: an encoding comes with a text, and each part with a digest.
    pub open spec fn wf(self) -> bool {
        &&& self.encoding is Some ==> self.encoded is Some
        &&& self.parts matches Some(i) ==> i.total == i.encoded_parts@.len() && i.total
            == i.part_md5s@.len()
    }

    /// The number of characters to type: of the encoded text, or of the data as text. Data that is not
    /// UTF-8 counts by bytes.
    pub open spec fn chars(self) -> nat {
        match self.encoded {
            Some(t) => t@.len(),
            None => if valid_utf8(self.raw@) {
                decode_utf8(self.raw@).len()
            } else {
                self.raw@.len()
            },
        }
    }

    /// The number of characters to type.
    pub fn char_count(&self) -> (n: usize)
        ensures
            n == self.chars(),
    {
        match &self.encoded {
            Some(t) => chars_of(t.as_str()).len(),
            None => match utf8_text(self.raw.as_slice()) {
                Some(t) => chars_of(t.as_str()).len(),
                None => self.raw.len(),
            },
        }
    }
}

/// `std::str::from_utf8`: the text, where the bytes are UTF-8.
#[verifier::external_body]
pub(crate) fn utf8_text(bytes: &[u8]) -> (r: Option<String>)
    ensures
        r is Some <==> valid_utf8(bytes@),
        r matches Some(t) ==> t@ == decode_utf8(bytes@),
{
    std::str::from_utf8(bytes).ok().map(|t| t.to_string())
}

fn has_untypable(raw: &[u8]) -> (r: bool)
    ensures
        r == untypable(raw@),
{
    let mut i: usize = 0;
    while i < raw.len()
        invariant
            i <= raw@.len(),
            forall|k: int| 0 <= k < i ==> key_info(#[trigger] raw@[k] as char) is Some,
        decreases raw.len() - i,
    {
        if get_key_info(raw[i] as char).is_none() {
            assert(key_info(raw@[i as int] as char) is None);
            return true;
        }
        i += 1;
    }
    false
}

fn digests(parts: &[String]) -> (r: Vec<String>)
    ensures
        texts(r@) == texts(parts@).map_values(|p: Seq<char>| md5_hex(encode_utf8(p))),
{
    let mut r: Vec<String> = Vec::new();
    let mut i: usize = 0;
    while i < parts.len()
        invariant
            i <= parts@.len(),
            r@.len() == i,
            forall|k: int| 0 <= k < i ==> (#[trigger] r@[k])@ == md5_hex(encode_utf8(parts@[k]@)),
        decreases parts.len() - i,
    {
        let d = md5_of_bytes(parts[i].as_str().as_bytes());
        r.push(d);
        i += 1;
    }
    assert(texts(r@) =~= texts(parts@).map_values(|p: Seq<char>| md5_hex(encode_utf8(p))));
    r
}

/// What the pipeline makes of the data and of what compression gives for it. The data has to be small
/// enough for its encoding to fit in memory.
pub fn assemble_payload(
    raw: Vec<u8>,
    gz: Vec<u8>,
    is_dir: bool,
    uid: String,
    encode_opt: Option<Encoding>,
    part_size: Option<usize>,
) -> (r: Payload)
    requires
        raw@.len() <= usize::MAX / 512,
    ensures
        r.is_from(
            (Source {
                raw: raw@,
                gz: gz@,
                is_dir,
                uid: uid@,
                encode: encode_opt,
                part_size,
            }),
        ),
        r.wf(),
        encode_opt is Some ==> r.encoding == encode_opt,
        r.raw@ == raw@,
        r.is_dir == is_dir,
        r.parts is Some <==> part_size is Some,
{
    let ghost s = Source {
        raw: raw@,
        gz: gz@,
        is_dir,
        uid: uid@,
        encode: encode_opt,
        part_size,
    };
    let gz_len = gz.len();
    let is_compressed = (GZIP_USE_DEN as u128) * (gz_len as u128) < (GZIP_USE_NUM as u128) * (
    raw.len() as u128);
    let forced = has_untypable(raw.as_slice()) || is_dir || is_compressed || part_size.is_some();
    let encoding: Option<Encoding> = match encode_opt {
        Some(e) => Some(e),
        None => if forced {
            Some(DEFAULT_ENCODING)
        } else {
            None
        },
    };
    assert(encoding == s.encoding());
    let encoded: Option<String> = match encoding {
        Some(e) => {
            let body: &[u8] = if is_compressed {
                gz.as_slice()
            } else {
                raw.as_slice()
            };
            Some(e.encoder().encode(body))
        },
        None => None,
    };
    let mut uid_full = uid;
    if is_dir {
        uid_full.append(".zip");
    }
    if is_compressed {
        uid_full.append(".gz");
    }
    if let Some(e) = encoding {
        uid_full.append(".");
        uid_full.append(e.encoder().suffix());
    }
    let local_md5 = md5_of_bytes(raw.as_slice());
    let parts: Option<PartsInfo> = match (&encoded, part_size) {
        (Some(text), Some(size)) => {
            let encoded_parts = split_into_parts(text.as_str(), size);
            let part_md5s = digests(encoded_parts.as_slice());
            assert(texts(part_md5s@).len() == texts(encoded_parts@).len());
            Some(PartsInfo { part_size: size, total: encoded_parts.len(), part_md5s, encoded_parts })
        },
        _ => None,
    };
    Payload { raw, encoded, encoding, is_dir, is_compressed, gz_len, local_md5, uid_full, parts }
}

/// Runs the pipeline on a file or on the archive of a directory, with its name and the time as text. It
/// is an error if there is no data, or if there is too much to go in one piece.
/// Where it goes in parts, the data has to be small enough for its encoding to fit in memory.
pub fn build_payload(
    raw: Vec<u8>,
    is_dir: bool,
    name: Option<&str>,
    ts: &str,
    encode_opt: Option<Encoding>,
    part_size: Option<usize>,
) -> (r: Result<Payload, String>)
    requires
        part_size is Some ==> raw@.len() <= usize::MAX / 512,
    ensures
        raw@.len() == 0 ==> (r matches Err(e) && e@ == "源数据为空"@),
        raw@.len() > MAX_FILE_SIZE && part_size is None ==> (r matches Err(e) && e@ == "源数据 "@ + dec(
            raw@.len(),
        ) + " 字节超过上限 "@ + dec(MAX_FILE_SIZE as nat) + " 字节"@),
        raw@.len() > 0 && (raw@.len() <= MAX_FILE_SIZE || part_size is Some) ==> (r matches Ok(p)
            && p.is_from(
            (Source {
                raw: raw@,
                gz: gzip_stream(raw@),
                is_dir,
                uid: uid_base_of(name_view(name), ts@, part_size is Some),
                encode: encode_opt,
                part_size,
            }),
        ) && p.wf() && gunzipped(gzip_stream(raw@)) == Some(raw@)),
{
    if raw.len() == 0 {
        return Err("源数据为空".to_string());
    }
    if raw.len() > MAX_FILE_SIZE && part_size.is_none() {
        let mut e = "源数据 ".to_string();
        push_dec(&mut e, raw.len() as u64);
        e.append(" 字节超过上限 ");
        push_dec(&mut e, MAX_FILE_SIZE as u64);
        e.append(" 字节");
        return Err(e);
    }
    match gzip_compress(raw.as_slice()) {
        Ok(gz) => {
            let uid = uid_base(name, ts, part_size.is_some());
            Ok(assemble_payload(raw, gz, is_dir, uid, encode_opt, part_size))
        },
        Err(m) => {
            let mut e = "gzip 失败：".to_string();
            e.append(m.as_str());
            Err(e)
        },
    }
}

// ---------------------------------------------------------------------------------------------
// What arrives
// ---------------------------------------------------------------------------------------------

/// What the target machine makes of a text that it received under a name: it decodes and decompresses
/// as the name says.
pub open spec fn restored(ops: Ops, text: Seq<char>) -> Option<Seq<u8>> {
    match ops.decode {
        None => None,
        Some(e) => match decoded(alphabet(e), received(e, text)) {
            None => None,
            Some(b) => if ops.gunzip {
                gunzipped(b)
            } else {
                Some(b)
            },
        },
    }
}

/// No encoded text holds a line break.
pub proof fn lemma_no_line_break(e: Encoding, data: Seq<u8>)
    ensures
        !e.chosen().text_of(data).contains('\n'),
{
    let t = e.chosen().text_of(data);
    if t.contains('\n') {
        let i = choose|i: int| 0 <= i < t.len() && t[i] == '\n';
        law_encoded_is_typable(e, data, i);
    }
}

/// What is sent arrives: the target machine ignores the line breaks of the typed text, undoes what the
/// name says, and has the data again, with the digest that was sent along. The name must not itself end
/// in `.gz` where nothing was compressed (a file called `x.gz` sent as it is).
pub proof fn law_transfer_arrives(p: Payload, s: Source)
    requires
        p.is_from(s),
        p.encoding is Some,
        gunzipped(s.gz) == Some(s.raw),
        !s.is_dir && !s.compressed() ==> !ends(s.uid, ".gz"@),
    ensures
        restored(ops_of(p.uid_full@), unwrapped(wrapped(p.encoded->0@, WRAP_EVERY as nat))) == Some(
            p.raw@,
        ),
        md5_hex(p.raw@) == p.local_md5@,
{
    let e = p.encoding->0;
    let t = p.encoded->0@;
    lemma_no_line_break(e, s.body());
    law_wrap_keeps_text(t, WRAP_EVERY as nat);
    law_far_end_decodes(e, s.body());
    lemma_uid_names_codec(s.uid, s.is_dir, s.compressed(), e);
}

/// What is sent in parts arrives: the parts, each without its line breaks, make up the encoded text.
pub proof fn law_parts_arrive(p: Payload, s: Source)
    requires
        p.is_from(s),
        p.parts is Some,
    ensures
        concat(
            texts(p.parts->0.encoded_parts@).map_values(
                |t: Seq<char>| unwrapped(wrapped(t, WRAP_EVERY as nat)),
            ),
        ) == p.encoded->0@,
        p.parts->0.part_md5s@.len() == p.parts->0.total,
{
    let size = s.part_size->0;
    let n = piece_size(size);
    let text = p.encoded->0@;
    let parts = texts(p.parts->0.encoded_parts@);
    let typed = parts.map_values(|t: Seq<char>| unwrapped(wrapped(t, WRAP_EVERY as nat)));
    assert(s.forced());
    lemma_no_line_break(p.encoding->0, s.body());
    law_parts_make_whole(text, n);
    lemma_chunk_chars(text, n);
    assert forall|i: int| 0 <= i < parts.len() implies typed[i] == parts[i] by {
        law_wrap_keeps_text(parts[i], WRAP_EVERY as nat);
    }
    assert(typed =~= parts);
    assert(texts(p.parts->0.part_md5s@).len() == p.parts->0.part_md5s@.len());
}

/// The parts restore the data: joined, they decode and decompress as the name of the transfer says. The
/// name must not itself end in `.gz` where nothing was compressed.
pub proof fn law_joined_parts_restore(p: Payload, s: Source)
    requires
        p.is_from(s),
        p.parts is Some,
        gunzipped(s.gz) == Some(s.raw),
        !s.is_dir && !s.compressed() ==> !ends(s.uid, ".gz"@),
    ensures
        restored(
            ops_of(p.uid_full@),
            concat(
                texts(p.parts->0.encoded_parts@).map_values(
                    |t: Seq<char>| unwrapped(wrapped(t, WRAP_EVERY as nat)),
                ),
            ),
        ) == Some(p.raw@),
{
    assert(s.forced());
    law_parts_arrive(p, s);
    law_transfer_arrives(p, s);
    lemma_no_line_break(p.encoding->0, s.body());
    law_wrap_keeps_text(p.encoded->0@, WRAP_EVERY as nat);
}

/// The parts of a text have no characters but its own.
proof fn lemma_chunk_chars(s: Seq<char>, n: nat)
    requires
        n > 0,
        !s.contains('\n'),
    ensures
        forall|i: int| 0 <= i < chunks(s, n).len() ==> !(#[trigger] chunks(s, n)[i]).contains('\n'),
    decreases s.len(),
{
    if s.len() > n {
        let head = s.take(n as int);
        let rest = s.skip(n as int);
        assert forall|c: char| head.contains(c) implies s.contains(c) by {
            let k = choose|k: int| 0 <= k < head.len() && head[k] == c;
            assert(s[k] == c);
        }
        assert forall|c: char| rest.contains(c) implies s.contains(c) by {
            let k = choose|k: int| 0 <= k < rest.len() && rest[k] == c;
            assert(s[k + n] == c);
        }
        lemma_chunk_chars(rest, n);
        assert forall|i: int| 0 <= i < chunks(s, n).len() implies !(
        #[trigger] chunks(s, n)[i]).contains('\n') by {
            if i > 0 {
                assert(chunks(s, n)[i] == chunks(rest, n)[i - 1]);
            }
        }
    }
}

/// Data that is sent as it is consists of characters that keys type, one for each byte.
pub proof fn law_plain_data_is_typable(p: Payload, s: Source)
    requires
        p.is_from(s),
        p.encoding is None,
    ensures
        valid_utf8(p.raw@),
        decode_utf8(p.raw@) == p.raw@.map_values(|b: u8| b as char),
        forall|i: int| 0 <= i < p.raw@.len() ==> typable(#[trigger] p.raw@[i] as char),
{
    let raw = p.raw@;
    let chars = raw.map_values(|b: u8| b as char);
    assert forall|i: int| 0 <= i < raw.len() implies typable(#[trigger] raw[i] as char) by {
        law_typable(raw[i] as char);
        assert(key_info(raw[i] as char) is Some);
    }
    assert(is_ascii_chars(chars));
    is_ascii_chars_encode_utf8(chars);
    assert(encode_utf8(chars) =~= raw);
    encode_utf8_valid_utf8(chars);
    encode_utf8_decode_utf8(chars);
}

/// The lines of a text that was broken into lines.
proof fn lemma_lines_of_wrapped(text: Seq<char>, wrap: nat)
    requires
        wrap > 0,
        text.len() > 0,
        !text.contains('\n'),
    ensures
        split(wrapped(text, wrap), '\n') == chunks(text, wrap),
    decreases text.len(),
{
    let w = wrapped(text, wrap);
    if text.len() <= wrap {
        lemma_position(w, '\n');
        assert(position(w, '\n') == w.len()) by {
            if position(w, '\n') < w.len() {
                assert(w.contains(w[position(w, '\n')]));
            }
        }
    } else {
        let head = text.take(wrap as int);
        let rest = text.skip(wrap as int);
        assert forall|c: char| rest.contains(c) implies text.contains(c) by {
            let k = choose|k: int| 0 <= k < rest.len() && rest[k] == c;
            assert(text[k + wrap] == c);
        }
        lemma_lines_of_wrapped(rest, wrap);
        assert forall|k: int| 0 <= k < wrap implies w[k] != '\n' by {
            assert(w[k] == text[k]);
            assert(text.contains(text[k]));
        }
        lemma_position_is(w, '\n', wrap as int);
        assert(w.take(wrap as int) =~= head);
        assert(w.skip(wrap as int + 1) =~= wrapped(rest, wrap));
    }
}

/// No line of an encoded text, broken into lines, reads `EOF` or starts with a quote.
pub proof fn lemma_encoded_lines(e: Encoding, data: Seq<u8>)
    requires
        data.len() > 0,
    ensures
        forall|i: int|
            0 <= i < split(wrapped(e.chosen().text_of(data), WRAP_EVERY as nat), '\n').len() ==> {
                let line = #[trigger] split(wrapped(e.chosen().text_of(data), WRAP_EVERY as nat), '\n')[i];
                line != "EOF"@ && line.len() > 0 && line[0] != '\''
            },
{
    let text = e.chosen().text_of(data);
    let n = WRAP_EVERY as nat;
    reveal_strlit("EOF");
    lemma_no_line_break(e, data);
    lemma_encoded_len(alphabet(e), data);
    lemma_lines_of_wrapped(text, n);
    law_parts_make_whole(text, n);
    let c = chunks(text, n);
    assert forall|i: int| 0 <= i < c.len() implies {
        let line = #[trigger] c[i];
        line != "EOF"@ && line.len() > 0 && line[0] != '\''
    } by {
        lemma_chunk_of(text, n, i);
        assert(c[i][0] == text[i * n]);
        lemma_encoded_chars(alphabet(e), data);
        let t = encoded(alphabet(e), data);
        assert(in_alphabet(alphabet(e), t[i * n]));
        if e == Encoding::Base64 {
            assert(i * n == 100 * i);
            let q = text.len() / 4;
            assert(text.len() == 4 * q);
            assert(c[i].len() == 100 || c[i].len() == 4 * (q - 25 * i));
        } else {
            assert("EOF"@[0] == 'E');
        }
    }
}

/// A text that is typed into a file does not end the input early. No line of it reads `EOF`, which ends
/// it in Bash, and none starts with a quote, as the line that ends it in PowerShell does. Base 64 text
/// has to be whole: a part of it can read `EOF`.
pub proof fn law_input_stays_open(p: Payload, s: Source)
    requires
        p.is_from(s),
        p.encoding is Some,
        s.body().len() > 0,
    ensures
        forall|i: int|
            0 <= i < split(wrapped(p.encoded->0@, WRAP_EVERY as nat), '\n').len() ==> {
                let line = #[trigger] split(wrapped(p.encoded->0@, WRAP_EVERY as nat), '\n')[i];
                line != "EOF"@ && line.len() > 0 && line[0] != '\''
            },
{
    lemma_encoded_lines(p.encoding->0, s.body());
}

/// The same of each part, where the encoding is not Base 64.
pub proof fn law_part_input_stays_open(p: Payload, s: Source, k: int)
    requires
        p.is_from(s),
        p.parts is Some,
        p.encoding != Some(Encoding::Base64),
        0 <= k < p.parts->0.total,
    ensures
        forall|i: int|
            0 <= i < split(
                wrapped(p.parts->0.encoded_parts@[k]@, WRAP_EVERY as nat),
                '\n',
            ).len() ==> {
                let line = #[trigger] split(
                    wrapped(p.parts->0.encoded_parts@[k]@, WRAP_EVERY as nat),
                    '\n',
                )[i];
                line != "EOF"@ && line.len() > 0 && line[0] != '\''
            },
{
    let e = p.encoding->0;
    let text = p.encoded->0@;
    let size = piece_size(s.part_size->0);
    let part = p.parts->0.encoded_parts@[k]@;
    let n = WRAP_EVERY as nat;
    assert(s.forced());
    reveal_strlit("EOF");
    assert("EOF"@[0] == 'E');
    assert(part == texts(p.parts->0.encoded_parts@)[k]);
    lemma_no_line_break(e, s.body());
    law_parts_make_whole(text, size);
    lemma_chunk_chars(text, size);
    lemma_chunk_of(text, size, k);
    lemma_lines_of_wrapped(part, n);
    law_parts_make_whole(part, n);
    let c = chunks(part, n);
    assert forall|i: int| 0 <= i < c.len() implies {
        let line = #[trigger] c[i];
        line != "EOF"@ && line.len() > 0 && line[0] != '\''
    } by {
        lemma_chunk_of(part, n, i);
        assert(c[i][0] == part[i * n]);
        assert(part[i * n] == text[k * size + i * n]);
        lemma_encoded_chars(alphabet(e), s.body());
        let t = encoded(alphabet(e), s.body());
        assert(in_alphabet(alphabet(e), t[k * size + i * n]));
    }
}

/// Which encoding is used. What was asked for is used whatever becomes of the data: compressed, archived,
/// untypable or in parts. Only where nothing was asked for is the default taken, and only if the data cannot
/// go as it is, since it is an archive, is compressed, goes in parts, or has a byte that no key types.
pub proof fn law_asked_encoding_is_used(p: Payload, s: Source)
    requires
        p.is_from(s),
    ensures
        s.encode is Some ==> p.encoding == s.encode,
        s.encode is None ==> (p.encoding is Some <==> p.is_dir || p.is_compressed || p.parts is Some
            || exists|i: int| 0 <= i < p.raw@.len() && !typable(#[trigger] p.raw@[i] as char)),
        s.encode is None && p.encoding is Some ==> p.encoding == Some(Encoding::Base32),
        p.encoded is Some <==> p.encoding is Some,
{
    if untypable(s.raw) {
        let i = choose|i: int| 0 <= i < s.raw.len() && key_info(#[trigger] s.raw[i] as char) is None;
        law_typable(s.raw[i] as char);
        assert(!typable(p.raw@[i] as char));
    }
    if exists|i: int| 0 <= i < p.raw@.len() && !typable(#[trigger] p.raw@[i] as char) {
        let i = choose|i: int| 0 <= i < p.raw@.len() && !typable(#[trigger] p.raw@[i] as char);
        law_typable(p.raw@[i] as char);
        assert(key_info(s.raw[i] as char) is None);
    }
}

/// What is compressed: the data that compression makes smaller than four fifths, and no other. The text
/// decodes, in the encoding that is used, to the compressed data where it is compressed and to the data
/// itself where it is not.
pub proof fn law_compression_has_to_pay(p: Payload, s: Source)
    requires
        p.is_from(s),
    ensures
        p.is_compressed <==> 10 * s.gz.len() < 8 * s.raw.len(),
        p.gz_len == s.gz.len(),
        p.encoding matches Some(e) ==> decoded(alphabet(e), received(e, p.encoded->0@)) == Some(
            if p.is_compressed {
                s.gz
            } else {
                s.raw
            },
        ),
{
    if let Some(e) = p.encoding {
        law_far_end_decodes(e, s.body());
    }
}

/// The name of a transfer: the base, and a suffix for each thing that was done, in the order in which it was
/// done. Without any it is the base.
pub proof fn law_name_tells_all(p: Payload, s: Source)
    requires
        p.is_from(s),
    ensures
        starts(p.uid_full@, s.uid),
        p.uid_full@.skip(s.uid.len() as int) == (if p.is_dir {
            ".zip"@
        } else {
            ""@
        }) + (if p.is_compressed {
            ".gz"@
        } else {
            ""@
        }) + (match p.encoding {
            Some(Encoding::Base32) => ".b32"@,
            Some(Encoding::Base64) => ".b64"@,
            Some(Encoding::Base16) => ".b16"@,
            None => ""@,
        }),
{
    reveal_strlit("");
    reveal_strlit(".");
    reveal_strlit("b32");
    reveal_strlit("b64");
    reveal_strlit("b16");
    reveal_strlit(".b32");
    reveal_strlit(".b64");
    reveal_strlit(".b16");
    assert("."@ + "b32"@ =~= ".b32"@);
    assert("."@ + "b64"@ =~= ".b64"@);
    assert("."@ + "b16"@ =~= ".b16"@);
    let tail = (if p.is_dir {
        ".zip"@
    } else {
        ""@
    }) + (if p.is_compressed {
        ".gz"@
    } else {
        ""@
    }) + (match p.encoding {
        Some(Encoding::Base32) => ".b32"@,
        Some(Encoding::Base64) => ".b64"@,
        Some(Encoding::Base16) => ".b16"@,
        None => ""@,
    });
    assert(p.uid_full@ =~= s.uid + tail);
    assert((s.uid + tail).take(s.uid.len() as int) =~= s.uid);
    assert((s.uid + tail).skip(s.uid.len() as int) =~= tail);
}

/// Two transfers of a file in parts have the same name, whenever they are made, so that missing parts can be
/// sent later. In one piece, transfers of the same file at different times have different names.
pub proof fn law_parts_can_follow_later(name: Option<Seq<char>>, a: Seq<char>, b: Seq<char>)
    ensures
        uid_base_of(name, a, true) == uid_base_of(name, b, true),
        a.len() == b.len() && a != b ==> uid_base_of(name, a, false) != uid_base_of(name, b, false),
{
    let u = uid_base_of(name, a, false);
    let v = uid_base_of(name, b, false);
    let n = "typepaste_"@.len() as int;
    assert(u.subrange(n, n + a.len()) =~= a);
    assert(v.subrange(n, n + b.len()) =~= b);
}

/// The parts of a payload: each is the stretch of the text at its place, all of the size that was asked for
/// but the last, and each comes with its own digest.
pub proof fn law_part_is_its_stretch(p: Payload, s: Source, n: int)
    requires
        p.is_from(s),
        p.parts is Some,
        1 <= n <= p.parts->0.total,
    ensures
        p.encoded is Some,
        ({
            let size = if s.part_size->0 == 0 {
                1
            } else {
                s.part_size->0 as int
            };
            let text = p.encoded->0@;
            let from = (n - 1) * size;
            let to = if n < p.parts->0.total {
                from + size
            } else {
                text.len() as int
            };
            &&& 0 <= from < to <= text.len()
            &&& p.parts->0.encoded_parts@[n - 1]@ == text.subrange(from, to)
            &&& p.parts->0.part_md5s@[n - 1]@ == md5_hex(encode_utf8(text.subrange(from, to)))
        }),
{
    let i = p.parts->0;
    let text = p.encoded->0@;
    let size = piece_size(s.part_size->0);
    let k = n - 1;
    assert(s.forced());
    law_parts_make_whole(text, size);
    lemma_chunk_of(text, size, k);
    assert(texts(i.encoded_parts@).len() == i.encoded_parts@.len());
    assert(i.encoded_parts@[k]@ == texts(i.encoded_parts@)[k]);
    assert(texts(i.part_md5s@).len() == i.part_md5s@.len());
    assert(i.part_md5s@[k]@ == texts(i.part_md5s@)[k]);
    let c = chunks(text, size);
    let from = k * size;
    assert(c[k] == stretch(text, from, size));
    if n < i.total {
        assert(c[k].len() == size);
        assert(from + size <= text.len());
    } else {
        lemma_chunk_count(text, size);
        assert(c.len() == n);
        assert(k * size + size == n * size) by (nonlinear_arith)
            requires
                k == n - 1,
        ;
        assert(c.len() * size == n * size);
        assert(text.len() <= from + size);
        assert(c[k] =~= text.subrange(from, text.len() as int));
    }
}

/// The last part ends with the text.
proof fn lemma_chunk_count(s: Seq<char>, n: nat)
    requires
        n > 0,
        s.len() > 0,
    ensures
        ({
            let c = chunks(s, n);
            c.len() > 0 && (c.len() - 1) * n < s.len() <= c.len() * n
        }),
    decreases s.len(),
{
    let c = chunks(s, n);
    if s.len() > n {
        lemma_chunk_count(s.skip(n as int), n);
        let d = chunks(s.skip(n as int), n);
        assert(c.len() == d.len() + 1);
        assert((d.len() - 1) * n + n == (c.len() - 1) * n) by (nonlinear_arith)
            requires
                c.len() == d.len() + 1,
        ;
        assert(d.len() * n + n == c.len() * n) by (nonlinear_arith)
            requires
                c.len() == d.len() + 1,
        ;
    } else {
        assert(c.len() == 1);
    }
}

} // verus!
