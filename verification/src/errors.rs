use vstd::prelude::*;

verus! {

/// Why a single tile's processing failed. Per-tile failures never abort a
/// continent run; the caller reports them and moves on.
#[derive(Debug)]
pub enum TileError {
    /// The encoder was handed a sequence whose length is not exactly 256.
    WrongLength { got: usize },
    /// The structural parser reported malformed input; the message describes it.
    Parse { message: String },
}

} // verus!
