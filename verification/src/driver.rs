use vstd::prelude::*;
use vstd::pervasive::unreached;
use crate::codec::{b64_of, le_bytes_of_words, encode_tile_b64};
use crate::errors::TileError;
use crate::export::TileGridExport;
use crate::extract::{adt_area_ids_of, normalize_spec, parse_adt_areaids};

verus! {

/// What became of one accepted file during a continent scan.
#[derive(Debug)]
pub enum TileOutcome {
    /// The file's record was encoded and stored under its tile index.
    Inserted,
    /// The parse succeeded but yielded no chunk records; the file is skipped.
    Empty,
    /// The structural parse failed; the caller reports it and the scan goes on.
    Failed { error: TileError },
}

impl TileGridExport {
    /// Runs one accepted file through extraction, normalization, encoding and
    /// aggregation. A malformed file or one without chunk records leaves the
    /// export unchanged; otherwise the normalized record's encoding is stored
    /// under the tile index y*64+x, overwriting any record already there.
    pub fn process_tile(&mut self, tile_x: u32, tile_y: u32, data: &[u8]) -> (r: TileOutcome)
        requires
            old(self).wf(),
            tile_y * 64 + tile_x <= u32::MAX,
        ensures
            final(self).wf(),
            final(self).name_view() == old(self).name_view(),
            r is Failed <==> adt_area_ids_of(data@) is None,
            r matches TileOutcome::Failed { error } ==> error is Parse && final(self).as_map()
                == old(self).as_map(),
            r is Empty <==> (adt_area_ids_of(data@) matches Some(ids) && ids.len() == 0),
            r is Empty ==> final(self).as_map() == old(self).as_map(),
            r is Inserted <==> (adt_area_ids_of(data@) matches Some(ids) && ids.len() > 0),
            r is Inserted ==> final(self).as_map() == old(self).as_map().insert(
                (crate::tile_index(tile_x as int, tile_y as int)) as u32,
                b64_of(le_bytes_of_words(normalize_spec(adt_area_ids_of(data@).unwrap()))),
            ),
    {
        match parse_adt_areaids(data) {
            Err(error) => TileOutcome::Failed { error },
            Ok(None) => TileOutcome::Empty,
            Ok(Some(ids)) => {
                let encoded = match encode_tile_b64(ids.as_slice()) {
                    Ok(text) => text,
                    Err(_) => unreached(),
                };
                let key = crate::tile_key(tile_x, tile_y);
                self.insert(key, encoded);
                TileOutcome::Inserted
            },
        }
    }
}

} // verus!
