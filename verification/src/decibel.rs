use vstd::prelude::*;
use crate::frac::{Frac, vle};

verus! {

/// The silence-floor decision of the decibel unit: a denormalized decibel
/// value at or below the floor collapses to silence (`None`, to be rendered
/// as exactly zero amplitude); anything above the floor passes through
/// unchanged.  The decibel/amplitude conversion itself is transcendental and
/// lives outside this crate; this is the exact decision it composes with.
pub fn apply_db_floor(db: Frac, floor_db: Frac) -> (r: Option<Frac>)
    requires
        db.wf(),
        floor_db.wf(),
        db.mid(),
        floor_db.mid(),
    ensures
        r is None <==> vle(db, floor_db),
        r matches Some(x) ==> x == db,
{
    if db.le(&floor_db) {
        None
    } else {
        Some(db)
    }
}

} // verus!
