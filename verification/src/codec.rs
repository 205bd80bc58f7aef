use vstd::prelude::*;
use crate::errors::TileError;

verus! {

/// The four little-endian bytes of a 32-bit word, least significant first.
pub open spec fn u32_le_bytes(w: u32) -> Seq<u8> {
    seq![
        (w as int % 256) as u8,
        (w as int / 256 % 256) as u8,
        (w as int / 65536 % 256) as u8,
        (w as int / 16777216 % 256) as u8,
    ]
}

/// The 32-bit word whose little-endian bytes are b0, b1, b2, b3.
pub open spec fn u32_from_le_bytes(b0: u8, b1: u8, b2: u8, b3: u8) -> u32 {
    (b0 as int + b1 as int * 256 + b2 as int * 65536 + b3 as int * 16777216) as u32
}

/// Dense binary layout of a tile record: each word as 4 little-endian bytes,
/// concatenated in sequence order.
pub open spec fn le_bytes_of_words(ids: Seq<u32>) -> Seq<u8>
    decreases ids.len(),
{
    if ids.len() == 0 {
        Seq::empty()
    } else {
        le_bytes_of_words(ids.drop_last()) + u32_le_bytes(ids.last())
    }
}

/// Reads a byte sequence back as little-endian 32-bit words (whole groups of 4).
pub open spec fn words_of_le_bytes(b: Seq<u8>) -> Seq<u32>
    decreases b.len(),
{
    if b.len() < 4 {
        Seq::empty()
    } else {
        words_of_le_bytes(b.take(b.len() - 4)).push(
            u32_from_le_bytes(b[b.len() - 4], b[b.len() - 3], b[b.len() - 2], b[b.len() - 1]),
        )
    }
}

proof fn lemma_word_round_trip(w: u32)
    ensures
        u32_from_le_bytes(
            (w as int % 256) as u8,
            (w as int / 256 % 256) as u8,
            (w as int / 65536 % 256) as u8,
            (w as int / 16777216 % 256) as u8,
        ) == w,
{
    let n = w as int;
    assert(n / 65536 == (n / 256) / 256) by (nonlinear_arith);
    assert(n / 16777216 == (n / 65536) / 256) by (nonlinear_arith);
    assert(n / 256 == 256 * ((n / 256) / 256) + (n / 256) % 256);
    assert(n / 65536 == 256 * ((n / 65536) / 256) + (n / 65536) % 256);
    assert(n / 16777216 % 256 == n / 16777216) by (nonlinear_arith)
        requires 0 <= n < 4294967296;
}

/// Packing is length-preserving: 4 bytes per word.
pub proof fn lemma_le_bytes_len(ids: Seq<u32>)
    ensures
        le_bytes_of_words(ids).len() == 4 * ids.len(),
    decreases ids.len(),
{
    if ids.len() > 0 {
        lemma_le_bytes_len(ids.drop_last());
    }
}

/// The binary layout is lossless: reading the packed bytes back as
/// little-endian words reproduces the word sequence exactly.
pub proof fn lemma_le_round_trip(ids: Seq<u32>)
    ensures
        words_of_le_bytes(le_bytes_of_words(ids)) == ids,
    decreases ids.len(),
{
    if ids.len() == 0 {
        assert(words_of_le_bytes(le_bytes_of_words(ids)) =~= ids);
    } else {
        let prefix = ids.drop_last();
        let w = ids.last();
        let b = le_bytes_of_words(ids);
        lemma_le_bytes_len(ids);
        lemma_le_bytes_len(prefix);
        lemma_le_round_trip(prefix);
        lemma_word_round_trip(w);
        assert(b.take(b.len() - 4) =~= le_bytes_of_words(prefix));
        assert(words_of_le_bytes(b) =~= ids);
    }
}

/// The canonical padded base64 text of a byte sequence.
pub uninterp spec fn b64_of(bytes: Seq<u8>) -> Seq<char>;

/// Relies on base64's `Engine::encode` with the standard padded alphabet
/// (`engine::general_purpose::STANDARD`): the result is the canonical base64
/// text of the input bytes, a pure function of those bytes.
#[verifier::external_body]
fn b64_encode(bytes: &Vec<u8>) -> (r: String)
    ensures
        r@ == b64_of(bytes@),
{
    base64::Engine::encode(&base64::engine::general_purpose::STANDARD, bytes)
}

/// Relies on base64's `Engine::decode` with the same engine as `b64_encode`:
/// decoding the canonical encoding of any byte sequence gives those bytes back.
#[verifier::external_body]
fn b64_decode(text: &str) -> (r: Option<Vec<u8>>)
    ensures
        forall|b: Seq<u8>| text@ == b64_of(b) ==> r is Some && r.unwrap()@ == b,
{
    base64::Engine::decode(&base64::engine::general_purpose::STANDARD, text).ok()
}

/// Packs exactly 256 area identifiers into 1024 little-endian bytes and
/// encodes them as base64 text; rejects any other length.
pub fn encode_tile_b64(area_ids: &[u32]) -> (r: Result<String, TileError>)
    ensures
        r is Ok <==> area_ids@.len() == 256,
        r matches Ok(text) ==> text@ == b64_of(le_bytes_of_words(area_ids@)),
        r matches Err(e) ==> e matches TileError::WrongLength { got } && got == area_ids@.len(),
{
    if area_ids.len() != 256 {
        return Err(TileError::WrongLength { got: area_ids.len() });
    }
    let mut raw: Vec<u8> = Vec::new();
    let mut i: usize = 0;
    while i < 256
        invariant
            i <= 256,
            area_ids@.len() == 256,
            raw@ == le_bytes_of_words(area_ids@.take(i as int)),
        decreases 256 - i,
    {
        let w = area_ids[i];
        let ghost raw_before = raw@;
        raw.push((w % 256) as u8);
        raw.push((w / 256 % 256) as u8);
        raw.push((w / 65536 % 256) as u8);
        raw.push((w / 16777216 % 256) as u8);
        proof {
            assert(raw@ =~= raw_before + u32_le_bytes(w));
            assert(area_ids@.take(i + 1).drop_last() =~= area_ids@.take(i as int));
            assert(area_ids@.take(i + 1).last() == w);
        }
        i += 1;
    }
    proof {
        assert(area_ids@.take(256) =~= area_ids@);
    }
    Ok(b64_encode(&raw))
}

/// Decodes an encoded tile record back to its 256 area identifiers; `None`
/// for text that is not the encoding of a 256-word record.
pub fn decode_tile_record(text: &str) -> (r: Option<Vec<u32>>)
    ensures
        r matches Some(v) ==> v@.len() == 256,
        forall|ids: Seq<u32>|
            ids.len() == 256 && text@ == b64_of(le_bytes_of_words(ids)) ==> r is Some
                && r.unwrap()@ == ids,
{
    let bytes = match b64_decode(text) {
        Some(b) => b,
        None => {
            proof {
                assert forall|ids: Seq<u32>|
                    ids.len() == 256 && text@ == b64_of(le_bytes_of_words(ids)) implies false by {
                    lemma_le_bytes_len(ids);
                }
            }
            return None;
        },
    };
    if bytes.len() != 1024 {
        proof {
            assert forall|ids: Seq<u32>|
                ids.len() == 256 && text@ == b64_of(le_bytes_of_words(ids)) implies false by {
                lemma_le_bytes_len(ids);
            }
        }
        return None;
    }
    let mut out: Vec<u32> = Vec::new();
    let mut i: usize = 0;
    while i < 256
        invariant
            i <= 256,
            bytes@.len() == 1024,
            out@.len() == i,
            out@ == words_of_le_bytes(bytes@.take(4 * i as int)),
        decreases 256 - i,
    {
        let b0 = bytes[4 * i];
        let b1 = bytes[4 * i + 1];
        let b2 = bytes[4 * i + 2];
        let b3 = bytes[4 * i + 3];
        let w = b0 as u32 + b1 as u32 * 256 + b2 as u32 * 65536 + b3 as u32 * 16777216;
        out.push(w);
        proof {
            let t = bytes@.take(4 * (i + 1) as int);
            assert(t.take(t.len() - 4) =~= bytes@.take(4 * i as int));
            assert(out@ =~= words_of_le_bytes(t));
        }
        i += 1;
    }
    proof {
        assert(bytes@.take(1024) =~= bytes@);
        assert forall|ids: Seq<u32>|
            ids.len() == 256 && text@ == b64_of(le_bytes_of_words(ids)) implies out@ == ids by {
            lemma_le_bytes_len(ids);
            lemma_le_round_trip(ids);
        }
    }
    Some(out)
}

} // verus!
