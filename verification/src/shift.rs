//! The data model: one correction magnitude, the triple of corrections for a
//! grid cell, and one row of the source dataset.

use vstd::prelude::*;

verus! {

/// One correction magnitude in dataset units, held exactly as a signed count
/// of thousandths. The dataset states its shifts as decimals with three
/// places (millimeter resolution), so this representation preserves every
/// source value without rounding.
#[derive(Clone, Copy, Debug, PartialEq, Eq, Structural)]
pub struct Shift {
    pub thousandths: i64,
}

impl Shift {
    /// The shift whose exact decimal value is `thousandths / 1000`.
    pub fn from_thousandths(thousandths: i64) -> (s: Shift)
        ensures
            s.thousandths == thousandths,
    {
        Shift { thousandths }
    }
}

/// Outgoing OSTN15 Easting, Northing, and height adjustments
#[derive(Clone, Copy, Debug, PartialEq, Eq, Structural)]
pub struct Adjustment {
    pub x_shift: Shift,
    pub y_shift: Shift,
    pub z_shift: Shift,
}

impl From<(Shift, Shift, Shift)> for Adjustment {
    fn from(adj: (Shift, Shift, Shift)) -> (r: Adjustment) {
        Adjustment { x_shift: adj.0, y_shift: adj.1, z_shift: adj.2 }
    }
}

impl vstd::std_specs::convert::FromSpecImpl<(Shift, Shift, Shift)> for Adjustment {
    open spec fn obeys_from_spec() -> bool {
        true
    }

    open spec fn from_spec(adj: (Shift, Shift, Shift)) -> Adjustment {
        Adjustment { x_shift: adj.0, y_shift: adj.1, z_shift: adj.2 }
    }
}

impl From<Adjustment> for (Shift, Shift, Shift) {
    fn from(adj: Adjustment) -> (r: (Shift, Shift, Shift)) {
        (adj.x_shift, adj.y_shift, adj.z_shift)
    }
}

impl vstd::std_specs::convert::FromSpecImpl<Adjustment> for (Shift, Shift, Shift) {
    open spec fn obeys_from_spec() -> bool {
        true
    }

    open spec fn from_spec(adj: Adjustment) -> (Shift, Shift, Shift) {
        (adj.x_shift, adj.y_shift, adj.z_shift)
    }
}

/// One row of the source dataset: the record identifier and the three shift
/// magnitudes. The two absolute-position fields of the source file are
/// discarded during parsing and never reach this type.
#[derive(Clone, Copy, Debug, PartialEq, Eq, Structural)]
pub struct ShiftRecord {
    pub id: i32,
    pub easting_shift: Shift,
    pub northing_shift: Shift,
    pub height_shift: Shift,
}

/// The triple of shifts that a record contributes to the table, in the order
/// the lookup returns them.
pub open spec fn triple_of(rec: ShiftRecord) -> (Shift, Shift, Shift) {
    (rec.easting_shift, rec.northing_shift, rec.height_shift)
}

} // verus!
