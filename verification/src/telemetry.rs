use vstd::prelude::*;
use crate::geo::{GeoDb, spec_country_tag};

verus! {

/// Mathematical view of a telemetry point.
pub struct PointView {
    pub address: Seq<char>,
    pub count: u64,
    pub country: Option<Seq<char>>,
}

/// One aggregated measurement for one attacking address within a flush
/// window: the address, how often it was seen, and its country when the geo
/// lookup knows one.
pub struct TelemetryPoint {
    pub address: String,
    pub count: u64,
    pub country: Option<String>,
}

impl View for TelemetryPoint {
    type V = PointView;

    open spec fn view(&self) -> PointView {
        PointView {
            address: self.address@,
            count: self.count,
            country: match self.country {
                Some(ref code) => Some(code@),
                None => None,
            },
        }
    }
}

/// The measurement name every point is sent under.
pub fn measurement_name() -> (r: &'static str)
    ensures
        r@ == "ip_attack"@,
{
    "ip_attack"
}

/// The points of one flush describe a counter map exactly: one point per
/// counted address, carrying its count and its country tag, no two points
/// for one address, and no address left out.
pub open spec fn points_match(
    m: Map<Seq<char>, u64>,
    db: GeoDb,
    pts: Seq<PointView>,
) -> bool {
    &&& pts.len() == m.dom().len()
    &&& forall|i: int|
        0 <= i < pts.len() ==> m.contains_key(#[trigger] pts[i].address) && m[pts[i].address]
            == pts[i].count && pts[i].country == spec_country_tag(db, pts[i].address)
    &&& forall|i: int, j: int| 0 <= i < j < pts.len() ==> pts[i].address != pts[j].address
    &&& forall|k: Seq<char>|
        m.contains_key(k) ==> exists|i: int| 0 <= i < pts.len() && pts[i].address == k
}

} // verus!
