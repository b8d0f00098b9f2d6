//! Transfer to a page in a browser: the file goes as frames through the keyboard, and the page answers by
//! QR code.
//!
//! A frame is a text with its fields between bars:
//! `seq|total|rawSize|zstdFlag|md5Chunk|<base64 payload>[|<base64 filename>]`. The frames are counted from
//! zero. With the flag 1 the payload is a zstd stream of its own. The digest is that of the payload. The
//! name comes with the first frame only.

use vstd::prelude::*;
use vstd::slice::slice_subrange;
use vstd::utf8::{decode_utf8, encode_utf8, encode_utf8_decode_utf8};
use crate::encoder::base64_encode;
use crate::pull::{chunk_count, total_chunks};
use crate::radix::{
    decoded, encoded, in_alphabet, law_decode_encode, lemma_encoded_chars, Alphabet,
};
use crate::screen::Region;
use crate::text::{
    chars_of, dec, dec_string, is_digit, lemma_dec, lemma_position_is, push_dec,
    split, string_of, texts,
};
use crate::utils::{digest_shaped, is_lower_hex, md5_hex, md5_of_bytes};

verus! {

/// The bytes in a frame, by default.
pub const DEFAULT_WEB_CHUNK: usize = 1024;

/// The level of zstd compression.
pub const ZSTD_LEVEL: i32 = 3;

/// Compression is used where the compressed size is below this part of the original size.
pub const COMPRESS_USE_NUM: u64 = 19;

/// The whole of which `COMPRESS_USE_NUM` is a part.
pub const COMPRESS_USE_DEN: u64 = 20;

/// What a transfer to a page asks for.
pub struct WebArgs {
    /// The file to send.
    pub file: String,
    /// The bytes in a frame.
    pub chunk_bytes: usize,
    /// Milliseconds between two characters.
    pub interval: u64,
    /// Show what would be sent, and send nothing.
    pub dry_run: bool,
    /// Let the user select where the code is on the screen.
    pub select_region: bool,
    /// Where the code is on the screen.
    pub region: Option<Region>,
    /// Put frames between braces in place of Ctrl+B and Ctrl+C, which a remote desktop may take away.
    pub printable_frame: bool,
    /// How often a frame is sent again.
    pub max_retry: usize,
}

// ---------------------------------------------------------------------------------------------
// Frames
// ---------------------------------------------------------------------------------------------

/// What zstd makes of the data at a level, or the message of the error that it stops on.
pub uninterp spec fn zstd_outcome(data: Seq<u8>, level: int) -> Result<Seq<u8>, Seq<char>>;

/// What decompression reads out of a zstd stream.
pub uninterp spec fn unzstd(stream: Seq<u8>) -> Option<Seq<u8>>;

/// `zstd::stream::encode_all`: the stream depends on the data and the level alone, and decompressing it
/// with `zstd::stream::decode_all` gives the data back.
#[verifier::external_body]
fn zstd_compress(data: &[u8], level: i32) -> (r: Result<Vec<u8>, String>)
    ensures
        match r {
            Ok(z) => zstd_outcome(data@, level as int) == Ok::<Seq<u8>, Seq<char>>(z@),
            Err(e) => zstd_outcome(data@, level as int) == Err::<Seq<u8>, Seq<char>>(e@),
        },
        r matches Ok(z) ==> unzstd(z@) == Some(data@),
{
    zstd::stream::encode_all(data, level).map_err(|e| e.to_string())
}

/// A frame.
pub struct Frame {
    /// The text of the frame.
    pub body: String,
    /// The digest of its payload.
    pub md5: String,
}

/// A file in frames.
pub struct Prepared {
    /// The frames.
    pub frames: Vec<Frame>,
    /// The size of the file.
    pub raw_size: usize,
    /// The digest of the file.
    pub file_md5: String,
}

/// The number of frames of a file: at least one.
pub open spec fn frame_count(size: nat, chunk_bytes: nat) -> nat {
    let n = chunk_count(size, chunk_bytes);
    if n == 0 {
        1
    } else {
        n
    }
}

/// The piece of the file for a frame.
pub open spec fn piece(raw: Seq<u8>, chunk_bytes: nat, k: nat) -> Seq<u8> {
    let from = (k * chunk_bytes) as int;
    if from + chunk_bytes <= raw.len() {
        raw.subrange(from, from + chunk_bytes)
    } else {
        raw.subrange(from, raw.len() as int)
    }
}

/// The number of bytes in all streams together.
pub open spec fn sizes(v: Seq<Seq<u8>>) -> nat
    decreases v.len(),
{
    if v.len() == 0 {
        0
    } else {
        sizes(v.drop_last()) + v.last().len()
    }
}

/// Byte vectors as sequences.
pub open spec fn streams(v: Seq<Vec<u8>>) -> Seq<Seq<u8>> {
    v.map_values(|x: Vec<u8>| x@)
}

/// Whether compression of the whole file is worth it.
pub open spec fn worth_it(raw_len: nat, compressed: nat) -> bool {
    COMPRESS_USE_DEN * compressed < COMPRESS_USE_NUM * raw_len
}

/// The text of a frame.
pub open spec fn frame_text(
    seq: nat,
    total: nat,
    size: nat,
    compressed: bool,
    payload: Seq<u8>,
    name: Seq<char>,
) -> Seq<char> {
    let body = dec(seq) + "|"@ + dec(total) + "|"@ + dec(size) + "|"@ + (if compressed {
        "1"@
    } else {
        "0"@
    }) + "|"@ + md5_hex(payload) + "|"@ + encoded(Alphabet::Base64, payload);
    if seq == 0 {
        body + "|"@ + encoded(Alphabet::Base64, encode_utf8(name))
    } else {
        body
    }
}

/// What goes into the frames.
pub struct WebSource {
    /// The file.
    pub raw: Seq<u8>,
    /// The pieces of the file compressed.
    pub compressed: Seq<Seq<u8>>,
    /// The name of the file.
    pub name: Seq<char>,
    /// The bytes in a frame.
    pub chunk_bytes: nat,
}

impl WebSource {
    /// The number of frames.
    pub open spec fn total(self) -> nat {
        frame_count(self.raw.len(), self.chunk_bytes)
    }

    /// Whether the frames are compressed.
    pub open spec fn packed(self) -> bool {
        worth_it(self.raw.len(), sizes(self.compressed))
    }

    /// The payload of a frame.
    pub open spec fn payload(self, k: nat) -> Seq<u8> {
        if self.packed() {
            self.compressed[k as int]
        } else {
            piece(self.raw, self.chunk_bytes, k)
        }
    }

    /// The text of a frame.
    pub open spec fn body(self, k: nat) -> Seq<char> {
        frame_text(k, self.total(), self.raw.len(), self.packed(), self.payload(k), self.name)
    }
}

impl Prepared {
    /// Whether these are the frames of a source.
    pub open spec fn is_from(self, s: WebSource) -> bool {
        &&& self.raw_size == s.raw.len()
        &&& self.file_md5@ == md5_hex(s.raw)
        &&& self.frames@.len() == s.total()
        &&& forall|k: int|
            0 <= k < self.frames@.len() ==> (#[trigger] self.frames@[k]).body@ == s.body(k as nat)
                && self.frames@[k].md5@ == md5_hex(s.payload(k as nat)) && digest_shaped(self.frames@[k].md5@)
    }
}

/// The pieces of a file start within it.
proof fn lemma_piece_start(size: nat, chunk_bytes: nat, k: nat)
    requires
        chunk_bytes > 0,
        k < frame_count(size, chunk_bytes),
    ensures
        k * chunk_bytes <= size,
        k + 1 < frame_count(size, chunk_bytes) ==> k * chunk_bytes + chunk_bytes < size,
        k + 1 == frame_count(size, chunk_bytes) ==> k * chunk_bytes + chunk_bytes >= size,
{
    let q = size / chunk_bytes;
    let r = size % chunk_bytes;
    vstd::arithmetic::div_mod::lemma_fundamental_div_mod(size as int, chunk_bytes as int);
    vstd::arithmetic::div_mod::lemma_mod_bound(size as int, chunk_bytes as int);
    assert(size == chunk_bytes * q + r);
    assert(k * chunk_bytes <= size) by (nonlinear_arith)
        requires
            size == chunk_bytes * q + r,
            k <= q,
    ;
    if k + 1 < frame_count(size, chunk_bytes) {
        assert(k * chunk_bytes + chunk_bytes == (k + 1) * chunk_bytes) by (nonlinear_arith);
        if r == 0 {
            assert((k + 1) * chunk_bytes < size) by (nonlinear_arith)
                requires
                    size == chunk_bytes * q + r,
                    r == 0,
                    k + 1 < q,
                    chunk_bytes > 0,
            ;
        } else {
            assert((k + 1) * chunk_bytes < size) by (nonlinear_arith)
                requires
                    size == chunk_bytes * q + r,
                    r > 0,
                    k + 1 <= q,
                    chunk_bytes > 0,
            ;
        }
    }
    if k + 1 == frame_count(size, chunk_bytes) {
        assert(k * chunk_bytes + chunk_bytes == (k + 1) * chunk_bytes) by (nonlinear_arith);
        if chunk_count(size, chunk_bytes) == 0 {
            assert(size == 0) by (nonlinear_arith)
                requires
                    size == chunk_bytes * q + r,
                    q == 0,
                    r == 0,
            ;
        } else {
            assert((k + 1) * chunk_bytes >= size) by (nonlinear_arith)
                requires
                    size == chunk_bytes * q + r,
                    r < chunk_bytes,
                    k + 1 == q + 1 || (r == 0 && k + 1 == q),
            ;
        }
    }
}

fn piece_of(raw: &[u8], chunk_bytes: usize, k: usize) -> (r: &[u8])
    requires
        chunk_bytes > 0,
        raw@.len() <= isize::MAX / 2,
        k < frame_count(raw@.len(), chunk_bytes as nat),
    ensures
        r@ == piece(raw@, chunk_bytes as nat, k as nat),
{
    let n = raw.len();
    proof {
        lemma_piece_start(raw@.len(), chunk_bytes as nat, k as nat);
        assert(0 <= k * chunk_bytes) by (nonlinear_arith);
    }
    let from = k * chunk_bytes;
    if n - from >= chunk_bytes {
        slice_subrange(raw, from, from + chunk_bytes)
    } else {
        slice_subrange(raw, from, n)
    }
}

fn frame_total(size: usize, chunk_bytes: usize) -> (r: usize)
    requires
        chunk_bytes > 0,
    ensures
        r == frame_count(size as nat, chunk_bytes as nat),
{
    let n = total_chunks(size, chunk_bytes);
    if n == 0 {
        1
    } else {
        n
    }
}

/// The size that all streams have together.
fn total_size(v: &[Vec<u8>]) -> (r: u128)
    requires
        v@.len() <= u64::MAX,
    ensures
        r == sizes(streams(v@)),
{
    let mut sum: u128 = 0;
    let mut i: usize = 0;
    let ghost all = streams(v@);
    while i < v.len()
        invariant
            i <= v@.len(),
            all == streams(v@),
            sum == sizes(all.take(i as int)),
            sum <= i * (u64::MAX as int),
            v@.len() <= u64::MAX,
        decreases v.len() - i,
    {
        proof {
            assert(all.take(i + 1).drop_last() =~= all.take(i as int));
            assert(all.take(i + 1).last() == v@[i as int]@);
            assert(i * (u64::MAX as int) <= (u64::MAX as int) * (u64::MAX as int)) by (nonlinear_arith)
                requires
                    0 <= i <= u64::MAX,
            ;
            assert((i + 1) * (u64::MAX as int) == i * (u64::MAX as int) + u64::MAX) by (nonlinear_arith);
        }
        sum = sum + v[i].len() as u128;
        i += 1;
    }
    assert(all.take(i as int) =~= all);
    sum
}

fn frame_body(seq: usize, total: usize, size: usize, compressed: bool, payload: &[u8], md5: &str, name: &str) -> (r:
    String)
    requires
        payload@.len() <= isize::MAX / 2,
        encode_utf8(name@).len() <= isize::MAX / 2,
        md5@ == md5_hex(payload@),
    ensures
        r@ == frame_text(seq as nat, total as nat, size as nat, compressed, payload@, name@),
{
    let mut r = dec_string(seq as u64);
    r.append("|");
    push_dec(&mut r, total as u64);
    r.append("|");
    push_dec(&mut r, size as u64);
    r.append("|");
    r.append(
        if compressed {
            "1"
        } else {
            "0"
        },
    );
    r.append("|");
    r.append(md5);
    r.append("|");
    let text = base64_encode(payload);
    r.append(text.as_str());
    if seq == 0 {
        r.append("|");
        let text = base64_encode(name.as_bytes());
        r.append(text.as_str());
    }
    r
}

/// A stream among others is no larger than all of them.
proof fn lemma_size_within(v: Seq<Seq<u8>>, k: int)
    requires
        0 <= k < v.len(),
    ensures
        v[k].len() <= sizes(v),
    decreases v.len(),
{
    if k < v.len() - 1 {
        lemma_size_within(v.drop_last(), k);
        assert(v.drop_last()[k] == v[k]);
    }
}

/// Puts a file into frames, given what compression makes of each of its pieces. A frame has to have a
/// size, and the file and its name have to be small enough for their encoding to fit in memory.
pub fn assemble_frames(raw: &[u8], compressed: &[Vec<u8>], name: &str, chunk_bytes: usize) -> (r: Prepared)
    requires
        chunk_bytes > 0,
        raw@.len() <= isize::MAX / 2,
        encode_utf8(name@).len() <= isize::MAX / 2,
        compressed@.len() == frame_count(raw@.len(), chunk_bytes as nat),
    ensures
        r.is_from(
            (WebSource {
                raw: raw@,
                compressed: streams(compressed@),
                name: name@,
                chunk_bytes: chunk_bytes as nat,
            }),
        ),
{
    let ghost s = WebSource {
        raw: raw@,
        compressed: streams(compressed@),
        name: name@,
        chunk_bytes: chunk_bytes as nat,
    };
    let raw_size = raw.len();
    let file_md5 = md5_of_bytes(raw);
    let total = frame_total(raw_size, chunk_bytes);
    let sum = total_size(compressed);
    let packed = sum <= raw_size as u128 && (COMPRESS_USE_DEN as u128) * sum < (COMPRESS_USE_NUM as u128) * (
    raw_size as u128);
    assert(packed == s.packed());
    let mut frames: Vec<Frame> = Vec::new();
    let mut k: usize = 0;
    while k < total
        invariant
            k <= total,
            total == s.total(),
            raw_size == raw@.len(),
            chunk_bytes > 0,
            raw@.len() <= isize::MAX / 2,
            encode_utf8(name@).len() <= isize::MAX / 2,
            compressed@.len() == total,
            packed == s.packed(),
            s == (WebSource {
                raw: raw@,
                compressed: streams(compressed@),
                name: name@,
                chunk_bytes: chunk_bytes as nat,
            }),
            frames@.len() == k,
            forall|j: int|
                0 <= j < k ==> (#[trigger] frames@[j]).body@ == s.body(j as nat) && frames@[j].md5@
                    == md5_hex(s.payload(j as nat)) && digest_shaped(frames@[j].md5@),
        decreases total - k,
    {
        let payload: &[u8] = if packed {
            proof {
                lemma_size_within(s.compressed, k as int);
                assert(s.compressed[k as int] == compressed@[k as int]@);
            }
            compressed[k].as_slice()
        } else {
            piece_of(raw, chunk_bytes, k)
        };
        assert(payload@ == s.payload(k as nat));
        proof {
            lemma_piece_start(raw@.len(), chunk_bytes as nat, k as nat);
        }
        let md5 = md5_of_bytes(payload);
        let body = frame_body(k, total, raw_size, packed, payload, md5.as_str(), name);
        frames.push(Frame { body, md5 });
        k += 1;
    }
    Prepared { frames, raw_size, file_md5 }
}

/// What compression makes of the first `n` pieces, or the first error.
pub open spec fn compress_all(raw: Seq<u8>, chunk_bytes: nat, n: nat) -> Result<Seq<Seq<u8>>, Seq<char>>
    decreases n,
{
    if n == 0 {
        Ok(Seq::empty())
    } else {
        let k = (n - 1) as nat;
        match compress_all(raw, chunk_bytes, k) {
            Err(e) => Err(e),
            Ok(v) => match zstd_outcome(piece(raw, chunk_bytes, k), ZSTD_LEVEL as int) {
                Err(e) => Err(e),
                Ok(z) => Ok(v.push(z)),
            },
        }
    }
}

/// The name of a file, or `received.bin` where it has none.
pub open spec fn sent_name(name: Option<&str>) -> Seq<char> {
    match name {
        Some(n) => n@,
        None => "received.bin"@,
    }
}

/// An error among the first pieces is the error of all.
proof fn lemma_first_compress_error(raw: Seq<u8>, chunk_bytes: nat, k: nat, n: nat)
    requires
        k <= n,
        compress_all(raw, chunk_bytes, k) is Err,
    ensures
        compress_all(raw, chunk_bytes, n) == compress_all(raw, chunk_bytes, k),
    decreases n,
{
    if k < n {
        lemma_first_compress_error(raw, chunk_bytes, k, (n - 1) as nat);
    }
}

/// Puts a file into frames: it is cut into pieces, each piece is compressed by itself, and unless that is
/// worth it for the whole file the pieces go as they are. A frame has to have a size, and the file and its
/// name have to be small enough for their encoding to fit in memory.
pub fn prepare(raw: &[u8], name: Option<&str>, chunk_bytes: usize) -> (r: Result<Prepared, String>)
    requires
        chunk_bytes > 0,
        raw@.len() <= isize::MAX / 2,
        encode_utf8(sent_name(name)).len() <= isize::MAX / 2,
    ensures
        match compress_all(raw@, chunk_bytes as nat, frame_count(raw@.len(), chunk_bytes as nat)) {
            Err(m) => r matches Err(e) && e@ == "zstd 压缩失败："@ + m,
            Ok(c) => {
                &&& r matches Ok(p) && p.is_from(
                    (WebSource {
                        raw: raw@,
                        compressed: c,
                        name: sent_name(name),
                        chunk_bytes: chunk_bytes as nat,
                    }),
                )
                &&& c.len() == frame_count(raw@.len(), chunk_bytes as nat)
                &&& forall|k: int|
                    0 <= k < c.len() ==> unzstd(#[trigger] c[k]) == Some(
                        piece(raw@, chunk_bytes as nat, k as nat),
                    )
            },
        },
{
    let total = frame_total(raw.len(), chunk_bytes);
    let mut compressed: Vec<Vec<u8>> = Vec::new();
    let mut k: usize = 0;
    assert(streams(compressed@) =~= Seq::empty());
    while k < total
        invariant
            k <= total,
            total == frame_count(raw@.len(), chunk_bytes as nat),
            chunk_bytes > 0,
            raw@.len() <= isize::MAX / 2,
            compressed@.len() == k,
            compress_all(raw@, chunk_bytes as nat, k as nat) == Ok::<Seq<Seq<u8>>, Seq<char>>(
                streams(compressed@),
            ),
            forall|j: int|
                0 <= j < k ==> unzstd(#[trigger] streams(compressed@)[j]) == Some(
                    piece(raw@, chunk_bytes as nat, j as nat),
                ),
        decreases total - k,
    {
        let ghost before = streams(compressed@);
        match zstd_compress(piece_of(raw, chunk_bytes, k), ZSTD_LEVEL) {
            Ok(z) => {
                compressed.push(z);
                assert(streams(compressed@) =~= before.push(z@));
            },
            Err(m) => {
                proof {
                    lemma_first_compress_error(
                        raw@,
                        chunk_bytes as nat,
                        (k + 1) as nat,
                        total as nat,
                    );
                }
                let mut e = "zstd 压缩失败：".to_string();
                e.append(m.as_str());
                return Err(e);
            },
        }
        k += 1;
    }
    let name = match name {
        Some(n) => n,
        None => "received.bin",
    };
    Ok(assemble_frames(raw, compressed.as_slice(), name, chunk_bytes))
}

// ---------------------------------------------------------------------------------------------
// What the page receives
// ---------------------------------------------------------------------------------------------

/// The fields of a frame.
pub open spec fn frame_fields(body: Seq<char>) -> Seq<Seq<char>> {
    split(body, '|')
}

/// What the page makes of a frame: it decodes the payload, compares its digest, and decompresses it where
/// the flag says so.
pub open spec fn received_piece(body: Seq<char>) -> Option<Seq<u8>> {
    let f = frame_fields(body);
    if f.len() < 6 {
        None
    } else {
        match decoded(Alphabet::Base64, f[5]) {
            None => None,
            Some(payload) => if md5_hex(payload) != f[4] {
                None
            } else if f[3] == "1"@ {
                unzstd(payload)
            } else {
                Some(payload)
            },
        }
    }
}

/// The name that the page takes from the first frame.
pub open spec fn received_name(body: Seq<char>) -> Option<Seq<char>> {
    let f = frame_fields(body);
    if f.len() != 7 {
        None
    } else {
        match decoded(Alphabet::Base64, f[6]) {
            None => None,
            Some(b) => Some(decode_utf8(b)),
        }
    }
}

/// A text up to the first bar is a field of its own.
proof fn lemma_split_field(a: Seq<char>, rest: Seq<char>)
    requires
        !a.contains('|'),
    ensures
        split(a + "|"@ + rest, '|') == seq![a] + split(rest, '|'),
        split(a, '|') == seq![a],
{
    reveal_strlit("|");
    let s = a + "|"@ + rest;
    assert forall|i: int| 0 <= i < a.len() implies s[i] != '|' by {
        assert(s[i] == a[i]);
        assert(a.contains(a[i]));
    }
    lemma_position_is(s, '|', a.len() as int);
    assert(s.take(a.len() as int) =~= a);
    assert(s.skip(a.len() as int + 1) =~= rest);
    assert forall|i: int| 0 <= i < a.len() implies a[i] != '|' by {
        assert(a.contains(a[i]));
    }
    lemma_position_is(a, '|', a.len() as int);
}

proof fn lemma_no_bar_dec(n: nat)
    ensures
        !dec(n).contains('|'),
{
    lemma_dec(n);
    if dec(n).contains('|') {
        let i = choose|i: int| 0 <= i < dec(n).len() && dec(n)[i] == '|';
        assert(is_digit(dec(n)[i]));
    }
}

proof fn lemma_no_bar_base64(data: Seq<u8>)
    ensures
        !encoded(Alphabet::Base64, data).contains('|'),
{
    lemma_encoded_chars(Alphabet::Base64, data);
    let t = encoded(Alphabet::Base64, data);
    if t.contains('|') {
        let i = choose|i: int| 0 <= i < t.len() && t[i] == '|';
        assert(in_alphabet(Alphabet::Base64, t[i]));
    }
}

/// Fields put together from either end are the same text.
proof fn lemma_regroup(l: Seq<char>, x: Seq<char>, r: Seq<char>)
    ensures
        (l + "|"@ + x) + "|"@ + r == l + "|"@ + (x + "|"@ + r),
{
    assert((l + "|"@ + x) + "|"@ + r =~= l + "|"@ + (x + "|"@ + r));
}

/// The fields of a frame are those that it was made of: no field holds a bar. `md5_hex` is a digest.
pub proof fn law_frame_fields(
    seq: nat,
    total: nat,
    size: nat,
    compressed: bool,
    payload: Seq<u8>,
    name: Seq<char>,
)
    requires
        digest_shaped(md5_hex(payload)),
    ensures
        frame_fields(frame_text(seq, total, size, compressed, payload, name)) == seq![
            dec(seq),
            dec(total),
            dec(size),
            if compressed {
                "1"@
            } else {
                "0"@
            },
            md5_hex(payload),
            encoded(Alphabet::Base64, payload),
        ] + (if seq == 0 {
            seq![encoded(Alphabet::Base64, encode_utf8(name))]
        } else {
            seq![]
        }),
{
    let z = if compressed {
        "1"@
    } else {
        "0"@
    };
    let m = md5_hex(payload);
    let b = encoded(Alphabet::Base64, payload);
    let nb = encoded(Alphabet::Base64, encode_utf8(name));
    reveal_strlit("1");
    reveal_strlit("0");
    lemma_no_bar_dec(seq);
    lemma_no_bar_dec(total);
    lemma_no_bar_dec(size);
    lemma_no_bar_base64(payload);
    lemma_no_bar_base64(encode_utf8(name));
    assert(!z.contains('|')) by {
        if z.contains('|') {
            let i = choose|i: int| 0 <= i < z.len() && z[i] == '|';
            assert(i == 0);
        }
    }
    assert(!m.contains('|')) by {
        if m.contains('|') {
            let i = choose|i: int| 0 <= i < m.len() && m[i] == '|';
            assert(is_lower_hex(m[i]));
        }
    }
    let r6 = if seq == 0 {
        b + "|"@ + nb
    } else {
        b
    };
    let r5 = m + "|"@ + r6;
    let r4 = z + "|"@ + r5;
    let r3 = dec(size) + "|"@ + r4;
    let r2 = dec(total) + "|"@ + r3;
    let r1 = dec(seq) + "|"@ + r2;
    let l2 = dec(seq) + "|"@ + dec(total);
    let l3 = l2 + "|"@ + dec(size);
    let l4 = l3 + "|"@ + z;
    let l5 = l4 + "|"@ + m;
    lemma_regroup(l5, b, nb);
    lemma_regroup(l4, m, r6);
    lemma_regroup(l3, z, r5);
    lemma_regroup(l2, dec(size), r4);
    lemma_regroup(dec(seq), dec(total), r3);
    assert(frame_text(seq, total, size, compressed, payload, name) == l5 + "|"@ + r6);
    assert(frame_text(seq, total, size, compressed, payload, name) == r1);
    lemma_split_field(dec(seq), r2);
    lemma_split_field(dec(total), r3);
    lemma_split_field(dec(size), r4);
    lemma_split_field(z, r5);
    lemma_split_field(m, r6);
    lemma_split_field(b, nb);
    lemma_split_field(nb, b);
    let fields = seq![dec(seq), dec(total), dec(size), z, m, b];
    if seq == 0 {
        assert(frame_fields(r1) =~= fields + seq![nb]);
    } else {
        assert(frame_fields(r1) =~= fields + seq![]);
    }
}

/// The page makes of each frame the piece of the file that it was made of, and takes the name from the
/// first.
pub proof fn law_frame_is_received(p: Prepared, s: WebSource, k: int)
    requires
        p.is_from(s),
        0 <= k < p.frames@.len(),
        unzstd(s.compressed[k]) == Some(piece(s.raw, s.chunk_bytes, k as nat)),
    ensures
        received_piece(p.frames@[k].body@) == Some(piece(s.raw, s.chunk_bytes, k as nat)),
        k == 0 ==> received_name(p.frames@[k].body@) == Some(s.name),
{
    let payload = s.payload(k as nat);
    assert(p.frames@[k].body@ == s.body(k as nat));
    law_frame_fields(k as nat, s.total(), s.raw.len(), s.packed(), payload, s.name);
    law_decode_encode(Alphabet::Base64, payload);
    law_decode_encode(Alphabet::Base64, encode_utf8(s.name));
    encode_utf8_decode_utf8(s.name);
    reveal_strlit("1");
    reveal_strlit("0");
    assert("1"@[0] != "0"@[0]);
}

/// The first `n` pieces of a file, one after the other.
pub open spec fn joined_pieces(raw: Seq<u8>, chunk_bytes: nat, n: nat) -> Seq<u8>
    decreases n,
{
    if n == 0 {
        Seq::empty()
    } else {
        joined_pieces(raw, chunk_bytes, (n - 1) as nat) + piece(raw, chunk_bytes, (n - 1) as nat)
    }
}

proof fn lemma_joined_pieces(raw: Seq<u8>, chunk_bytes: nat, n: nat)
    requires
        chunk_bytes > 0,
        n <= frame_count(raw.len(), chunk_bytes),
    ensures
        n < frame_count(raw.len(), chunk_bytes) ==> n * chunk_bytes <= raw.len() && joined_pieces(
            raw,
            chunk_bytes,
            n,
        ) == raw.take((n * chunk_bytes) as int),
        n == frame_count(raw.len(), chunk_bytes) ==> joined_pieces(raw, chunk_bytes, n) == raw,
    decreases n,
{
    if n == 0 {
        assert(0 * chunk_bytes == 0);
        assert(joined_pieces(raw, chunk_bytes, n) =~= raw.take(0));
    } else {
        let k = (n - 1) as nat;
        lemma_joined_pieces(raw, chunk_bytes, k);
        lemma_piece_start(raw.len(), chunk_bytes, k);
        assert(n * chunk_bytes == k * chunk_bytes + chunk_bytes) by (nonlinear_arith)
            requires
                n == k + 1,
        ;
        if n < frame_count(raw.len(), chunk_bytes) {
            assert(joined_pieces(raw, chunk_bytes, n) =~= raw.take((n * chunk_bytes) as int));
        } else {
            assert(joined_pieces(raw, chunk_bytes, n) =~= raw);
        }
    }
}

/// The pieces of a file, one after the other, are the file.
pub proof fn law_pieces_make_file(raw: Seq<u8>, chunk_bytes: nat)
    requires
        chunk_bytes > 0,
    ensures
        joined_pieces(raw, chunk_bytes, frame_count(raw.len(), chunk_bytes)) == raw,
{
    lemma_joined_pieces(raw, chunk_bytes, frame_count(raw.len(), chunk_bytes));
}

/// What the page makes of the first `n` frames: the pieces, one after the other.
pub open spec fn received_file(frames: Seq<Frame>, n: int) -> Option<Seq<u8>>
    decreases n,
{
    if n <= 0 {
        Some(Seq::empty())
    } else {
        match (received_file(frames, n - 1), received_piece(frames[n - 1].body@)) {
            (Some(a), Some(b)) => Some(a + b),
            _ => None,
        }
    }
}

proof fn lemma_received_file(p: Prepared, s: WebSource, n: nat)
    requires
        p.is_from(s),
        n <= s.total(),
        forall|k: int|
            0 <= k < s.total() ==> unzstd(#[trigger] s.compressed[k]) == Some(
                piece(s.raw, s.chunk_bytes, k as nat),
            ),
    ensures
        received_file(p.frames@, n as int) == Some(joined_pieces(s.raw, s.chunk_bytes, n)),
    decreases n,
{
    if n > 0 {
        lemma_received_file(p, s, (n - 1) as nat);
        assert(unzstd(s.compressed[n - 1]) == Some(piece(s.raw, s.chunk_bytes, (n - 1) as nat)));
        law_frame_is_received(p, s, n - 1);
    }
}

/// What is sent arrives: from all frames the page has the file again, with the digest that it is compared
/// with.
pub proof fn law_page_has_file(p: Prepared, s: WebSource)
    requires
        p.is_from(s),
        s.chunk_bytes > 0,
        forall|k: int|
            0 <= k < s.total() ==> unzstd(#[trigger] s.compressed[k]) == Some(
                piece(s.raw, s.chunk_bytes, k as nat),
            ),
    ensures
        received_file(p.frames@, p.frames@.len() as int) == Some(s.raw),
        p.file_md5@ == md5_hex(s.raw),
{
    lemma_received_file(p, s, s.total());
    law_pieces_make_file(s.raw, s.chunk_bytes);
}

// ---------------------------------------------------------------------------------------------
// Dry runs
// ---------------------------------------------------------------------------------------------

/// How much of the first frame a dry run shows.
pub const FRAME_PREVIEW: usize = 120;

/// The beginning of a frame.
pub open spec fn frame_preview(body: Seq<char>) -> Seq<char> {
    if body.len() > FRAME_PREVIEW {
        body.take(FRAME_PREVIEW as int)
    } else {
        body
    }
}

/// What `dry_run_web` gives.
pub open spec fn dry_run_web_of(p: Prepared, a: WebArgs) -> Seq<Seq<char>> {
    seq![
        "[dry-run] 网页传输："@ + a.file@,
        "  原始大小："@ + dec(p.raw_size as nat) + " 字节"@,
        "  分片数量："@ + dec(p.frames@.len()) + "（每片 "@ + dec(a.chunk_bytes as nat) + "B）"@,
        "  帧定界  ："@ + (if a.printable_frame {
            "可打印 {{/}} （--web-printable-frame）"@
        } else {
            "Ctrl+B / Ctrl+C"@
        }),
        "  [流程] 等待二维码 READY → 逐片发送帧 → 二维码 OK/RETRY/PAUSE/FINISH"@,
    ] + (if p.frames@.len() > 0 {
        seq!["  帧 0 预览："@ + frame_preview(p.frames@[0].body@) + "..."@]
    } else {
        seq![]
    }) + seq!["  提示：receiver.html 需先用 --deploy-receiver 部署并在 VDI 浏览器打开。"@]
}

/// What a dry run shows, line by line.
pub fn dry_run_web(prep: &Prepared, args: &WebArgs) -> (r: Vec<String>)
    ensures
        texts(r@) == dry_run_web_of(*prep, *args),
{
    let mut v: Vec<String> = Vec::new();
    let mut s = "[dry-run] 网页传输：".to_string();
    s.append(args.file.as_str());
    v.push(s);
    let mut s = "  原始大小：".to_string();
    push_dec(&mut s, prep.raw_size as u64);
    s.append(" 字节");
    v.push(s);
    let mut s = "  分片数量：".to_string();
    push_dec(&mut s, prep.frames.len() as u64);
    s.append("（每片 ");
    push_dec(&mut s, args.chunk_bytes as u64);
    s.append("B）");
    v.push(s);
    let mut s = "  帧定界  ：".to_string();
    s.append(
        if args.printable_frame {
            "可打印 {{/}} （--web-printable-frame）"
        } else {
            "Ctrl+B / Ctrl+C"
        },
    );
    v.push(s);
    v.push("  [流程] 等待二维码 READY → 逐片发送帧 → 二维码 OK/RETRY/PAUSE/FINISH".to_string());
    if prep.frames.len() > 0 {
        let body = chars_of(prep.frames[0].body.as_str());
        let n: usize = if body.len() > FRAME_PREVIEW {
            FRAME_PREVIEW
        } else {
            body.len()
        };
        let head = slice_subrange(body.as_slice(), 0, n);
        assert(head@ =~= frame_preview(prep.frames@[0].body@));
        let mut s = "  帧 0 预览：".to_string();
        let shown = string_of(head);
        s.append(shown.as_str());
        s.append("...");
        v.push(s);
    }
    v.push("  提示：receiver.html 需先用 --deploy-receiver 部署并在 VDI 浏览器打开。".to_string());
    assert(texts(v@) =~= dry_run_web_of(*prep, *args));
    v
}

// ---------------------------------------------------------------------------------------------
// How a file is cut and packed
// ---------------------------------------------------------------------------------------------

/// Frames go compressed only where all streams together take less than nineteen twentieths of the file,
/// and then each frame carries its stream; else each carries its piece of the file as it is.
pub proof fn law_packing_has_to_pay(s: WebSource, k: nat)
    requires
        k < s.total(),
    ensures
        s.packed() <==> 20 * sizes(s.compressed) < 19 * s.raw.len(),
        20 * sizes(s.compressed) < 19 * s.raw.len() ==> s.payload(k) == s.compressed[k as int],
        20 * sizes(s.compressed) >= 19 * s.raw.len() ==> s.payload(k) == piece(s.raw, s.chunk_bytes, k),
{
}

/// A file is cut into full pieces, and the last one has what is left: at least a byte of it, unless the
/// file has none, for which there is one empty piece.
pub proof fn law_pieces_are_full(raw: Seq<u8>, chunk_bytes: nat, k: nat)
    requires
        chunk_bytes > 0,
        k < frame_count(raw.len(), chunk_bytes),
    ensures
        k + 1 < frame_count(raw.len(), chunk_bytes) ==> piece(raw, chunk_bytes, k).len() == chunk_bytes,
        piece(raw, chunk_bytes, k).len() <= chunk_bytes,
        raw.len() > 0 ==> piece(raw, chunk_bytes, k).len() > 0,
        raw.len() == 0 ==> frame_count(raw.len(), chunk_bytes) == 1 && piece(raw, chunk_bytes, k).len() == 0,
{
    lemma_piece_start(raw.len(), chunk_bytes, k);
    vstd::arithmetic::div_mod::lemma_fundamental_div_mod(raw.len() as int, chunk_bytes as int);
    vstd::arithmetic::div_mod::lemma_mod_bound(raw.len() as int, chunk_bytes as int);
    let q = raw.len() / chunk_bytes;
    let r = raw.len() % chunk_bytes;
    if raw.len() == 0 {
        assert(q == 0 && r == 0) by (nonlinear_arith)
            requires
                raw.len() == 0,
                q == raw.len() / chunk_bytes,
                r == raw.len() % chunk_bytes,
                chunk_bytes > 0,
        ;
        assert(k * chunk_bytes == 0) by (nonlinear_arith)
            requires
                k == 0,
        ;
    } else if k > 0 {
        lemma_piece_start(raw.len(), chunk_bytes, (k - 1) as nat);
        assert(k * chunk_bytes == (k - 1) * chunk_bytes + chunk_bytes) by (nonlinear_arith)
            requires
                k >= 1,
        ;
    } else {
        assert(k * chunk_bytes == 0) by (nonlinear_arith)
            requires
                k == 0,
        ;
    }
}

/// Each piece is compressed by itself, at the third level, and the first piece that cannot be compressed
/// ends it.
pub proof fn law_pieces_are_compressed(raw: Seq<u8>, chunk_bytes: nat, n: nat, k: nat)
    requires
        k < n,
    ensures
        compress_all(raw, chunk_bytes, n) matches Ok(c) ==> c.len() == n && zstd_outcome(
            piece(raw, chunk_bytes, k),
            3,
        ) == Ok::<Seq<u8>, Seq<char>>(c[k as int]),
        (forall|j: nat| j < k ==> zstd_outcome(#[trigger] piece(raw, chunk_bytes, j), 3) is Ok) && (
        zstd_outcome(piece(raw, chunk_bytes, k), 3) matches Err(m)) ==> compress_all(raw, chunk_bytes, n)
            == Err::<Seq<Seq<u8>>, Seq<char>>(zstd_outcome(piece(raw, chunk_bytes, k), 3)->Err_0),
    decreases n,
{
    if n == 1 {
        assert(compress_all(raw, chunk_bytes, 0) == Ok::<Seq<Seq<u8>>, Seq<char>>(Seq::empty()));
    } else {
        let m = (n - 1) as nat;
        if k < m {
            law_pieces_are_compressed(raw, chunk_bytes, m, k);
        } else {
            lemma_compressed(raw, chunk_bytes, m);
            law_pieces_are_compressed(raw, chunk_bytes, m, 0);
        }
    }
}

/// Pieces that can be compressed are.
proof fn lemma_compressed(raw: Seq<u8>, chunk_bytes: nat, n: nat)
    ensures
        (forall|j: nat| j < n ==> zstd_outcome(#[trigger] piece(raw, chunk_bytes, j), 3) is Ok) ==> compress_all(
            raw,
            chunk_bytes,
            n,
        ) is Ok,
    decreases n,
{
    if n > 0 && (forall|j: nat| j < n ==> zstd_outcome(#[trigger] piece(raw, chunk_bytes, j), 3) is Ok) {
        lemma_compressed(raw, chunk_bytes, (n - 1) as nat);
        assert(zstd_outcome(piece(raw, chunk_bytes, (n - 1) as nat), 3) is Ok);
    }
}

} // verus!
