//! Byte-level work: the GBK form of search queries, its percent-encoding, and
//! the decoding of response bodies.

use encoding_rs::GBK;
use vstd::prelude::*;
use vstd::utf8::{decode_utf8, encode_utf8, is_ascii_chars, valid_utf8};

use crate::response::FetchError;
use crate::text::push_char;

verus! {

/// The bytes that `encoding_rs` writes for `s` in GBK.
pub uninterp spec fn gbk_encoded(s: Seq<char>) -> Seq<u8>;

/// The text that `encoding_rs` reads from `bytes` as GBK (after BOM sniffing).
pub uninterp spec fn gbk_decoded(bytes: Seq<u8>) -> Seq<char>;

/// The largest input, in bytes, handed to the GBK codec. `Encoding::encode` and
/// `Encoding::decode` panic when their output-buffer size overflows `usize`;
/// below this bound it cannot.
pub open spec fn codec_input_limit() -> nat {
    (usize::MAX / 8) as nat
}

/// `encoding_rs::GBK.encode`: the GBK bytes of `s`, unmappable characters
/// written as decimal numeric character references. The result is named by
/// `gbk_encoded`; the source returns the UTF-8 bytes of an all-ASCII input
/// unchanged, which is stated too.
#[verifier::external_body]
fn gbk_encode(s: &str) -> (out: Vec<u8>)
    requires
        encode_utf8(s@).len() <= codec_input_limit(),
    ensures
        out@ == gbk_encoded(s@),
        is_ascii_chars(s@) ==> out@ == encode_utf8(s@),
{
    GBK.encode(s).0.into_owned()
}

/// `encoding_rs::GBK.decode`: the text of `bytes` read as GBK (or as the
/// encoding its byte-order mark names), malformed sequences replaced by
/// U+FFFD. The result is named by `gbk_decoded`.
#[verifier::external_body]
fn gbk_decode(bytes: &[u8]) -> (out: String)
    requires
        bytes@.len() <= codec_input_limit(),
    ensures
        out@ == gbk_decoded(bytes@),
{
    GBK.decode(bytes).0.into_owned()
}

/// `core::str::from_utf8`: succeeds exactly on valid UTF-8 and gives its text.
#[verifier::external_body]
fn utf8_text(bytes: &[u8]) -> (out: Option<&str>)
    ensures
        out is Some <==> valid_utf8(bytes@),
        out matches Some(t) ==> t@ == decode_utf8(bytes@),
{
    core::str::from_utf8(bytes).ok()
}

/// The upper-case hexadecimal digit of `d < 16`.
pub open spec fn hex_char(d: nat) -> char {
    seq!['0', '1', '2', '3', '4', '5', '6', '7', '8', '9', 'A', 'B', 'C', 'D', 'E', 'F'][d as int]
}

/// `%XX` for every byte, upper-case hexadecimal.
pub open spec fn percent_encoded(bytes: Seq<u8>) -> Seq<char>
    decreases bytes.len(),
{
    if bytes.len() == 0 {
        Seq::<char>::empty()
    } else {
        percent_encoded(bytes.drop_last()) + seq![
            '%',
            hex_char((bytes.last() / 16) as nat),
            hex_char((bytes.last() % 16) as nat),
        ]
    }
}

/// Percent-encoding writes `%` and two upper-case hexadecimal digits per
/// byte, most significant first: byte `i` becomes characters `3i..3i+3`.
pub proof fn lemma_percent_encoded_bytes(bytes: Seq<u8>)
    ensures
        percent_encoded(bytes).len() == 3 * bytes.len(),
        forall|i: int|
            0 <= i < bytes.len() ==> #[trigger] byte_encoded_at(percent_encoded(bytes), i, bytes[i]),
    decreases bytes.len(),
{
    if bytes.len() > 0 {
        let init = bytes.drop_last();
        lemma_percent_encoded_bytes(init);
        lemma_hex_char((bytes.last() / 16) as nat);
        lemma_hex_char((bytes.last() % 16) as nat);
        let out = percent_encoded(bytes);
        assert forall|i: int| 0 <= i < bytes.len() implies #[trigger] byte_encoded_at(
            out,
            i,
            bytes[i],
        ) by {
            if i < init.len() {
                assert(bytes[i] == init[i]);
                assert(byte_encoded_at(percent_encoded(init), i, init[i]));
                assert(out[3 * i] == percent_encoded(init)[3 * i]);
                assert(out[3 * i + 1] == percent_encoded(init)[3 * i + 1]);
                assert(out[3 * i + 2] == percent_encoded(init)[3 * i + 2]);
            } else {
                let n: int = 3 * (init.len() as int);
                assert(i == init.len());
                assert(bytes[i] == bytes.last());
                assert(out[n] == '%');
                assert(out[n + 1] == hex_char((bytes.last() / 16) as nat));
                assert(out[n + 2] == hex_char((bytes.last() % 16) as nat));
            }
        }
    }
}

/// Characters `3i..3i+3` of `out` are `%` and the two hexadecimal digits of `b`.
pub open spec fn byte_encoded_at(out: Seq<char>, i: int, b: u8) -> bool {
    &&& out[3 * i] == '%'
    &&& is_hex_of(out[3 * i + 1], (b / 16) as nat)
    &&& is_hex_of(out[3 * i + 2], (b % 16) as nat)
}

/// `c` is the upper-case hexadecimal digit of `d`.
pub open spec fn is_hex_of(c: char, d: nat) -> bool {
    if d < 10 {
        c as u32 == '0' as u32 + d
    } else {
        d < 16 && c as u32 == 'A' as u32 + (d - 10)
    }
}

proof fn lemma_hex_char(d: nat)
    requires
        d < 16,
    ensures
        is_hex_of(hex_char(d), d),
{
}

fn hex_digit(d: u8) -> (c: char)
    requires
        d < 16,
    ensures
        c == hex_char(d as nat),
{
    match d {
        0 => '0',
        1 => '1',
        2 => '2',
        3 => '3',
        4 => '4',
        5 => '5',
        6 => '6',
        7 => '7',
        8 => '8',
        9 => '9',
        10 => 'A',
        11 => 'B',
        12 => 'C',
        13 => 'D',
        14 => 'E',
        _ => 'F',
    }
}

/// Percent-encodes every byte, as the search form expects.
pub fn percent_encode(bytes: &[u8]) -> (out: String)
    ensures
        out@ == percent_encoded(bytes@),
{
    let mut out = String::new();
    let mut i: usize = 0;
    while i < bytes.len()
        invariant
            i <= bytes@.len(),
            out@ == percent_encoded(bytes@.take(i as int)),
        decreases bytes@.len() - i,
    {
        let b = bytes[i];
        assert(b >> 4 == b / 16 && b & 0x0f == b % 16) by (bit_vector);
        assert(bytes@.take(i + 1).drop_last() =~= bytes@.take(i as int));
        push_char(&mut out, '%');
        push_char(&mut out, hex_digit(b >> 4));
        push_char(&mut out, hex_digit(b & 0x0f));
        i = i + 1;
    }
    assert(bytes@.take(bytes@.len() as int) =~= bytes@);
    out
}

/// The search key for the site's form: the GBK bytes of `query`, each
/// percent-encoded.
pub fn encode_search_query(query: &str) -> (out: String)
    requires
        encode_utf8(query@).len() <= codec_input_limit(),
    ensures
        out@ == percent_encoded(gbk_encoded(query@)),
        is_ascii_chars(query@) ==> out@ == percent_encoded(encode_utf8(query@)),
{
    let bytes = gbk_encode(query);
    percent_encode(&bytes)
}

/// The text of a response body: refused when empty, read as UTF-8 when it is
/// valid UTF-8, and as GBK otherwise.
pub fn decode_body(data: &[u8]) -> (r: Result<String, FetchError>)
    requires
        data@.len() <= codec_input_limit(),
    ensures
        data@.len() == 0 <==> r == Err::<String, FetchError>(FetchError::EmptyResponse),
        data@.len() > 0 && valid_utf8(data@) ==> (r matches Ok(t) && t@ == decode_utf8(data@)),
        data@.len() > 0 && !valid_utf8(data@) ==> (r matches Ok(t) && t@ == gbk_decoded(data@)),
{
    if data.len() == 0 {
        return Err(FetchError::EmptyResponse);
    }
    match utf8_text(data) {
        Some(t) => Ok(t.to_owned()),
        None => Ok(gbk_decode(data)),
    }
}

} // verus!
