//! Grid-cell coordinates and the encoding from a coordinate pair to the
//! dataset's integer record identifier.

use vstd::prelude::*;

verus! {

/// Number of grid cells per row of the dataset's coverage rectangle.
///
/// The dataset assigns record identifiers row by row, so the identifier of
/// the cell at `(easting_km, northing_km)` is
/// `easting_km + northing_km * ROW_STRIDE + 1`. The lookup must invert that
/// assignment exactly; a mismatch here would silently resolve every query to
/// the wrong record.
pub const ROW_STRIDE: i32 = 701;

/// Incoming ETRS89 kilometer-grid references
#[derive(Clone, Copy, Debug, PartialEq, Eq, Structural)]
pub struct GridRefs {
    pub easting: i32,
    pub northing: i32,
}

/// The identifier that the dataset assigns to the grid cell at
/// `(easting, northing)`, as an unbounded integer.
pub open spec fn spec_key(easting: int, northing: int) -> int {
    easting + northing * (ROW_STRIDE as int) + 1
}

/// Encode a kilometer-grid coordinate pair as the dataset's record
/// identifier: `easting + northing * ROW_STRIDE + 1`.
pub fn encode_key(easting: i32, northing: i32) -> (key: i32)
    requires
        i32::MIN <= spec_key(easting as int, northing as int) <= i32::MAX,
    ensures
        key as int == spec_key(easting as int, northing as int),
{
    let wide: i64 = easting as i64 + northing as i64 * ROW_STRIDE as i64 + 1;
    wide as i32
}

impl From<(i32, i32)> for GridRefs {
    fn from(gr: (i32, i32)) -> (r: GridRefs) {
        GridRefs { easting: gr.0, northing: gr.1 }
    }
}

impl vstd::std_specs::convert::FromSpecImpl<(i32, i32)> for GridRefs {
    open spec fn obeys_from_spec() -> bool {
        true
    }

    open spec fn from_spec(gr: (i32, i32)) -> GridRefs {
        GridRefs { easting: gr.0, northing: gr.1 }
    }
}

impl From<GridRefs> for (i32, i32) {
    fn from(gr: GridRefs) -> (r: (i32, i32)) {
        (gr.easting, gr.northing)
    }
}

impl vstd::std_specs::convert::FromSpecImpl<GridRefs> for (i32, i32) {
    open spec fn obeys_from_spec() -> bool {
        true
    }

    open spec fn from_spec(gr: GridRefs) -> (i32, i32) {
        (gr.easting, gr.northing)
    }
}

/// Within one row of the coverage rectangle the easting ranges over
/// `0 ..= ROW_STRIDE - 1`, so no two distinct coordinate pairs with eastings
/// in that range share a record identifier.
pub proof fn lemma_key_injective(e1: int, n1: int, e2: int, n2: int)
    requires
        0 <= e1 < ROW_STRIDE as int,
        0 <= e2 < ROW_STRIDE as int,
        spec_key(e1, n1) == spec_key(e2, n2),
    ensures
        e1 == e2,
        n1 == n2,
{
    assert(e1 - e2 == (n2 - n1) * (ROW_STRIDE as int)) by (nonlinear_arith)
        requires
            e1 + n1 * (ROW_STRIDE as int) + 1 == e2 + n2 * (ROW_STRIDE as int) + 1,
    ;
    assert(n1 == n2) by (nonlinear_arith)
        requires
            e1 - e2 == (n2 - n1) * (ROW_STRIDE as int),
            0 <= e1 < 701,
            0 <= e2 < 701,
    ;
}

} // verus!
