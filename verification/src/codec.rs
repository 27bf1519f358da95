use vstd::prelude::*;
use vstd::arithmetic::div_mod::lemma_fundamental_div_mod;
use base64::Engine;
use vstd::arithmetic::mul::lemma_mul_inequality;
use crate::config::Config;
use crate::errors::TransferError;

verus! {

/// The byte window of chunk number `part` of `data`, with chunks of
/// `part_size` bytes: the window starts at `part * part_size` and runs for
/// `part_size` bytes, clipped to the end of the data. A chunk that starts at
/// or past the end of the data is empty.
pub open spec fn chunk_of(data: Seq<u8>, part: nat, part_size: nat) -> Seq<u8> {
    let start = part * part_size;
    if start >= data.len() {
        Seq::empty()
    } else if start + part_size > data.len() {
        data.subrange(start as int, data.len() as int)
    } else {
        data.subrange(start as int, (start + part_size) as int)
    }
}

/// How many chunks of `part_size` bytes a file of `len` bytes has: the
/// ceiling of `len / part_size`. Every chunk at this index or beyond is
/// empty.
pub open spec fn num_chunks(len: nat, part_size: nat) -> nat
    recommends
        part_size > 0,
{
    ((len + part_size - 1) as int / part_size as int) as nat
}

/// Chunks `0 .. n` of `data`, concatenated in index order.
pub open spec fn chunks_concat(data: Seq<u8>, part_size: nat, n: nat) -> Seq<u8>
    decreases n,
{
    if n == 0 {
        Seq::empty()
    } else {
        chunks_concat(data, part_size, (n - 1) as nat) + chunk_of(data, (n - 1) as nat, part_size)
    }
}

proof fn lemma_chunks_concat_prefix(data: Seq<u8>, part_size: nat, n: nat)
    requires
        part_size > 0,
    ensures
        chunks_concat(data, part_size, n) == if n * part_size >= data.len() {
            data
        } else {
            data.subrange(0, (n * part_size) as int)
        },
    decreases n,
{
    if n == 0 {
        assert(data.subrange(0, 0) =~= Seq::<u8>::empty());
        if data.len() == 0 {
            assert(data =~= Seq::<u8>::empty());
        }
    } else {
        let m = (n - 1) as nat;
        lemma_chunks_concat_prefix(data, part_size, m);
        assert(n * part_size == m * part_size + part_size) by (nonlinear_arith)
            requires
                m == n - 1,
                n >= 1,
        ;
        let start = m * part_size;
        if start >= data.len() {
            assert(chunk_of(data, m, part_size) =~= Seq::<u8>::empty());
            assert(data + Seq::<u8>::empty() =~= data);
        } else if start + part_size > data.len() {
            assert(data.subrange(0, start as int) + data.subrange(start as int, data.len() as int)
                =~= data);
        } else {
            assert(data.subrange(0, start as int) + data.subrange(
                start as int,
                (start + part_size) as int,
            ) =~= data.subrange(0, (start + part_size) as int));
        }
    }
}

/// Concatenating chunks `0 .. num_chunks(len, part_size)` in order
/// reproduces the data byte for byte, and every chunk from index
/// `num_chunks(len, part_size)` on is empty.
pub proof fn lemma_chunks_reconstruct(data: Seq<u8>, part_size: nat)
    requires
        part_size > 0,
    ensures
        chunks_concat(data, part_size, num_chunks(data.len(), part_size)) == data,
        forall|i: nat|
            i >= num_chunks(data.len(), part_size) ==> chunk_of(data, i, part_size)
                == Seq::<u8>::empty(),
{
    let len = data.len();
    let c = part_size as int;
    let n = num_chunks(len, part_size);
    let x = len + part_size - 1;
    lemma_fundamental_div_mod(x as int, c);
    assert(n * c == x - (x as int % c)) by (nonlinear_arith)
        requires
            n == x as int / c,
            x as int == c * (x as int / c) + x as int % c,
    ;
    assert(x as int % c < c);
    assert(n * c >= len);
    lemma_chunks_concat_prefix(data, part_size, n);
    assert forall|i: nat| i >= n implies chunk_of(data, i, part_size) == Seq::<u8>::empty() by {
        lemma_mul_inequality(n as int, i as int, c);
        assert(i * part_size >= len);
    }
}

/// Reads chunk `part` of in-memory contents: the executable counterpart of
/// `chunk_of`. An empty result signals a chunk at or past the end.
pub fn read_chunk(data: &Vec<u8>, part: u64, part_size: u64) -> (r: Vec<u8>)
    ensures
        r@ == chunk_of(data@, part as nat, part_size as nat),
{
    let len: usize = data.len();
    proof {
        assert((part as int) * (part_size as int) <= 0xffffffffffffffffu64 * 0xffffffffffffffffu64)
            by (nonlinear_arith)
            requires
                part as int <= 0xffffffffffffffffu64,
                part_size as int <= 0xffffffffffffffffu64,
        ;
    }
    let start_wide: u128 = (part as u128) * (part_size as u128);
    if start_wide >= len as u128 {
        return Vec::new();
    }
    let start: usize = start_wide as usize;
    let end: usize = if len as u128 - start_wide > part_size as u128 {
        start + (part_size as usize)
    } else {
        len
    };
    let mut out: Vec<u8> = Vec::new();
    let mut i: usize = start;
    while i < end
        invariant
            start <= i <= end <= len,
            len == data@.len(),
            out@ == data@.subrange(start as int, i as int),
        decreases end - i,
    {
        out.push(data[i]);
        proof {
            assert(out@ =~= data@.subrange(start as int, i + 1 as int));
        }
        i = i + 1;
    }
    proof {
        assert(out@ == chunk_of(data@, part as nat, part_size as nat));
    }
    out
}

/// The byte window `[start, end)` that a download of chunk `part` must read
/// from a file of `file_size` bytes, or `None` when the chunk starts at or
/// past the end of the file (the client's cue to stop requesting chunks).
pub fn chunk_bounds(file_size: u64, part: u64, part_size: u64) -> (r: Option<(u64, u64)>)
    ensures
        match r {
            None => part * part_size >= file_size,
            Some(b) => b.0 == part * part_size && b.0 < file_size && b.1 == if b.0 + part_size
                > file_size {
                file_size as int
            } else {
                b.0 + part_size
            },
        },
        forall|data: Seq<u8>|
            data.len() == file_size ==> #[trigger] chunk_of(data, part as nat, part_size as nat)
                == (match r {
                None => Seq::<u8>::empty(),
                Some(b) => data.subrange(b.0 as int, b.1 as int),
            }),
{
    proof {
        assert((part as int) * (part_size as int) <= 0xffffffffffffffffu64 * 0xffffffffffffffffu64)
            by (nonlinear_arith)
            requires
                part as int <= 0xffffffffffffffffu64,
                part_size as int <= 0xffffffffffffffffu64,
        ;
    }
    let start_wide: u128 = (part as u128) * (part_size as u128);
    if start_wide >= file_size as u128 {
        return None;
    }
    let start: u64 = start_wide as u64;
    let end: u64 = if file_size - start > part_size {
        start + part_size
    } else {
        file_size
    };
    Some((start, end))
}

/// The character of one decimal digit.
pub open spec fn dec_digit_char(d: nat) -> char
    recommends
        d < 10,
{
    ((d + 0x30) as u8) as char
}

/// The decimal rendering of a number, most significant digit first, with no
/// leading zeros (zero itself renders as one digit).
pub open spec fn dec_string_of(n: nat) -> Seq<char>
    decreases n,
{
    if n < 10 {
        seq![dec_digit_char(n)]
    } else {
        dec_string_of(n / 10).push(dec_digit_char(n % 10))
    }
}

/// Relies on `String::from_utf8`: bytes below 0x80 are valid UTF-8 and
/// decode to one character each, equal to the byte.
#[verifier::external_body]
fn ascii_string(bytes: Vec<u8>) -> (r: String)
    requires
        forall|i: int| 0 <= i < bytes@.len() ==> bytes@[i] < 0x80,
    ensures
        r@ == bytes@.map_values(|b: u8| b as char),
{
    match String::from_utf8(bytes) {
        Ok(s) => s,
        Err(_) => String::new(),
    }
}

/// Serves a download size request: the byte count of the file, rendered in
/// decimal for the response body.
pub fn download_size(file_size: u64) -> (r: String)
    ensures
        r@ == dec_string_of(file_size as nat),
{
    let mut digits: Vec<u8> = Vec::new();  // low-order digit first
    let mut m: u64 = file_size;
    proof {
        assert(digits@.reverse() =~= Seq::<u8>::empty());
        assert(dec_string_of(file_size as nat) =~= dec_string_of(m as nat)
            + digits@.reverse().map_values(|b: u8| b as char));
    }
    while m >= 10
        invariant
            dec_string_of(file_size as nat) == dec_string_of(m as nat)
                + digits@.reverse().map_values(|b: u8| b as char),
            forall|i: int| 0 <= i < digits@.len() ==> 0x30 <= #[trigger] digits@[i] < 0x3a,
        decreases m,
    {
        let ghost rev_before = digits@.reverse().map_values(|b: u8| b as char);
        let ghost m_before = m as nat;
        let d: u8 = (m % 10) as u8 + 0x30;
        digits.push(d);
        m = m / 10;
        proof {
            assert(dec_string_of(m_before) == dec_string_of(m as nat).push(
                dec_digit_char(m_before % 10),
            ));
            assert(d as char == dec_digit_char(m_before % 10));
            assert(digits@.reverse().map_values(|b: u8| b as char) =~= seq![d as char]
                + rev_before);
            assert(dec_string_of(m as nat).push(dec_digit_char(m_before % 10)) + rev_before
                =~= dec_string_of(m as nat) + (seq![d as char] + rev_before));
        }
    }
    let ghost rev_before = digits@.reverse().map_values(|b: u8| b as char);
    let d: u8 = m as u8 + 0x30;
    digits.push(d);
    proof {
        assert(dec_string_of(m as nat) == seq![dec_digit_char(m as nat)]);
        assert(d as char == dec_digit_char(m as nat));
        assert(digits@.reverse().map_values(|b: u8| b as char) =~= seq![d as char] + rev_before);
        assert(dec_string_of(file_size as nat) =~= digits@.reverse().map_values(
            |b: u8| b as char,
        ));
    }
    let n = digits.len();
    let mut out: Vec<u8> = Vec::new();
    let mut i: usize = n;
    while i > 0
        invariant
            i <= n == digits@.len(),
            forall|k: int| 0 <= k < digits@.len() ==> 0x30 <= #[trigger] digits@[k] < 0x3a,
            out@ == digits@.reverse().take(n - i),
        decreases i,
    {
        i = i - 1;
        out.push(digits[i]);
        proof {
            assert(out@ =~= digits@.reverse().take(n - i));
        }
    }
    proof {
        assert(out@ =~= digits@.reverse());
    }
    ascii_string(out)
}

/// What the base64 encoder with the standard alphabet and no padding
/// returns for the given bytes.
pub uninterp spec fn base64_nopad_of(bytes: Seq<u8>) -> Seq<char>;

/// What the base64 decoder with the standard alphabet and canonical padding
/// returns for the given text: the decoded bytes, or `None` for malformed
/// input.
pub uninterp spec fn base64_padded_decode_of(text: Seq<char>) -> Option<Seq<u8>>;

/// Relies on the `base64` crate's `STANDARD_NO_PAD` engine: `encode` returns
/// the base64 text of its input, a pure function of the bytes alone, and
/// encodes empty input as the empty string. `encode` panics when the encoded
/// length overflows `usize`, so inputs that large are excluded.
#[verifier::external_body]
fn encode_base64_nopad(bytes: &[u8]) -> (r: String)
    requires
        4 * bytes@.len() <= usize::MAX,
    ensures
        r@ == base64_nopad_of(bytes@),
        bytes@.len() == 0 ==> r@.len() == 0,
{
    base64::engine::general_purpose::STANDARD_NO_PAD.encode(bytes)
}

/// Relies on the `base64` crate's `STANDARD` engine: `decode` returns the
/// bytes that the padded base64 text denotes, a pure function of the text
/// alone, and fails exactly on malformed input.
#[verifier::external_body]
fn decode_base64_padded(text: &str) -> (r: Option<Vec<u8>>)
    ensures
        match r {
            Some(b) => base64_padded_decode_of(text@) == Some(b@),
            None => base64_padded_decode_of(text@) is None,
        },
{
    match base64::engine::general_purpose::STANDARD.decode(text) {
        Ok(b) => Some(b),
        Err(_) => None,
    }
}

/// Serves a download request for chunk `part` of the given file contents:
/// the chunk window, base64-encoded without padding. Past the end of the
/// file the body is empty.
pub fn download_part(config: &Config, data: &Vec<u8>, part: u64) -> (r: String)
    requires
        4 * data@.len() <= usize::MAX,
    ensures
        r@ == base64_nopad_of(chunk_of(data@, part as nat, config.download_part_size as nat)),
{
    let chunk = read_chunk(data, part, config.download_part_size);
    encode_base64_nopad(chunk.as_slice())
}

/// Decodes an upload request body: base64 with padding. Malformed input is
/// rejected as `InvalidEncoding`.
pub fn decode_upload_body(input: &str) -> (r: Result<Vec<u8>, TransferError>)
    ensures
        match r {
            Ok(b) => base64_padded_decode_of(input@) == Some(b@),
            Err(e) => e == TransferError::InvalidEncoding && base64_padded_decode_of(input@)
                is None,
        },
{
    match decode_base64_padded(input) {
        Some(b) => Ok(b),
        None => Err(TransferError::InvalidEncoding),
    }
}

} // verus!
