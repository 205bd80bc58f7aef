use vstd::prelude::*;
use crate::errors::TileError;

verus! {

/// What the structural parser yields for a terrain file's bytes: `None` when
/// the byte layout is malformed, otherwise the ordered per-chunk area
/// identifiers (empty for a file that carries no terrain chunks).
pub uninterp spec fn adt_area_ids_of(data: Seq<u8>) -> Option<Seq<u32>>;

/// Relies on wow_adt's `parse_adt` (a pure function of the bytes): on a root
/// terrain file it yields the `mcnk_chunks` in file order, each carrying its
/// `header.area_id`; auxiliary file kinds (texture, object, level-of-detail)
/// carry no terrain chunks and yield the empty sequence; bytes the parser
/// rejects (too short for any chunk, or required chunks missing or corrupt)
/// are an error, whose message this returns.
#[verifier::external_body]
fn parse_adt_raw(data: &[u8]) -> (r: Result<Vec<u32>, String>)
    ensures
        r is Ok <==> adt_area_ids_of(data@) is Some,
        r matches Ok(ids) ==> ids@ == adt_area_ids_of(data@).unwrap(),
{
    let mut cursor = std::io::Cursor::new(data);
    match wow_adt::parse_adt(&mut cursor) {
        Ok(wow_adt::ParsedAdt::Root(root)) => {
            Ok(root.mcnk_chunks.iter().map(|chunk| chunk.header.area_id).collect())
        },
        Ok(_) => Ok(Vec::new()),
        Err(e) => Err(e.to_string()),
    }
}

/// A sequence normalized to the fixed record length of 256: zero-padded at
/// the tail when shorter, truncated when longer.
pub open spec fn normalize_spec(ids: Seq<u32>) -> Seq<u32> {
    if ids.len() >= 256 {
        ids.take(256)
    } else {
        ids + Seq::new((256 - ids.len()) as nat, |i: int| 0u32)
    }
}

/// Normalizes an extracted sequence: an empty sequence means "no data" and is
/// reported as `None`; anything else comes back with exactly 256 entries,
/// zero-padded or truncated at the tail.
pub fn normalize_area_ids(ids: Vec<u32>) -> (r: Option<Vec<u32>>)
    ensures
        r is Some <==> ids@.len() > 0,
        r matches Some(v) ==> v@ == normalize_spec(ids@) && v@.len() == 256,
{
    if ids.len() == 0 {
        return None;
    }
    let mut out = ids;
    let ghost orig = out@;
    if out.len() >= 256 {
        out.truncate(256);
        proof {
            assert(out@ =~= normalize_spec(orig));
        }
    } else {
        while out.len() < 256
            invariant
                orig.len() < 256,
                orig.len() <= out@.len() <= 256,
                out@ == orig + Seq::new((out@.len() - orig.len()) as nat, |i: int| 0u32),
            decreases 256 - out@.len(),
        {
            out.push(0);
            proof {
                assert(out@ =~= orig + Seq::new((out@.len() - orig.len()) as nat, |i: int| 0u32));
            }
        }
        proof {
            assert(out@ =~= normalize_spec(orig));
        }
    }
    Some(out)
}

/// Extracts a tile's area identifiers from raw file bytes: an error exactly
/// when the structural parse fails, `Ok(None)` exactly when the parse
/// succeeds with zero chunk records, and otherwise the normalized 256-entry
/// sequence.
pub fn parse_adt_areaids(data: &[u8]) -> (r: Result<Option<Vec<u32>>, TileError>)
    ensures
        r is Err <==> adt_area_ids_of(data@) is None,
        r matches Err(e) ==> e is Parse,
        r matches Ok(opt) ==> (opt is None <==> adt_area_ids_of(data@).unwrap().len() == 0),
        r matches Ok(Some(v)) ==> v@ == normalize_spec(adt_area_ids_of(data@).unwrap())
            && v@.len() == 256,
{
    match parse_adt_raw(data) {
        Err(message) => Err(TileError::Parse { message }),
        Ok(ids) => Ok(normalize_area_ids(ids)),
    }
}

} // verus!
