//! Zones: what lies in the box that a device acts on.

use vstd::prelude::*;

use crate::devices::{Device, DeviceRuntime, DeviceView, StateView};
use crate::fixed::{abs, Vec3};
use crate::rollout::{Rollout, RolloutView};
use crate::views::views;

verus! {

/// Whether a point, in the zone's own frame, lies in a zone of the given size.
pub open spec fn in_zone(point: Vec3, size: Vec3) -> bool {
    &&& 2 * abs(point.x as int) <= size.x
    &&& 2 * abs(point.y as int) <= size.y
    &&& 2 * abs(point.z as int) <= size.z
}

fn within(x: i64, size: i64) -> (r: bool)
    ensures
        r == (2 * abs(x as int) <= size),
{
    let twice: i128 = 2 * x as i128;
    -(size as i128) <= twice && twice <= size as i128
}

/// Whether a point, in the zone's own frame, lies in a zone of the given size.
pub fn inside_zone(point: Vec3, size: Vec3) -> (r: bool)
    ensures
        r == in_zone(point, size),
{
    within(point.x, size.x) && within(point.y, size.y) && within(point.z, size.z)
}

/// Which points lie in a zone; none where there is no zone.
pub open spec fn zone_marks(points: Seq<Vec3>, size: Option<Vec3>) -> Seq<bool> {
    Seq::new(points.len(), |k: int| size matches Some(s) && in_zone(points[k], s))
}

/// Which points lie in a zone; none where there is no zone.
pub fn mark_zone(points: &Vec<Vec3>, size: Option<Vec3>) -> (r: Vec<bool>)
    ensures
        r@ == zone_marks(points@, size),
{
    let ghost want = zone_marks(points@, size);
    let mut out: Vec<bool> = Vec::new();
    let mut k: usize = 0;
    while k < points.len()
        invariant
            k <= points.len(),
            want == zone_marks(points@, size),
            out@ == want.take(k as int),
        decreases points.len() - k,
    {
        out.push(
            match size {
                Some(s) => inside_zone(points[k], s),
                None => false,
            },
        );
        k = k + 1;
        assert(out@ =~= want.take(k as int));
    }
    assert(out@ =~= want);
    out
}

/// The size of the zone that a device takes bodies from as it runs.
pub open spec fn zone_size(device: DeviceView) -> Option<Vec3> {
    match device.state {
        StateView::Conveyor(c) => Some(c.size),
        StateView::Sink(s) => Some(s.size),
        _ => None,
    }
}

fn size_of_zone(device: &Device) -> (r: Option<Vec3>)
    ensures
        r == zone_size(device@),
{
    match &device.state {
        DeviceRuntime::Conveyor(c) => Some(c.size),
        DeviceRuntime::Sink(s) => Some(s.size),
        _ => None,
    }
}

impl RolloutView {
    /// There is a point for every device and body.
    pub open spec fn located(self, points: Seq<Seq<Vec3>>) -> bool {
        points.len() == self.devices.len() && forall|d: int|
            0 <= d < points.len() ==> (#[trigger] points[d]).len() == self.obstacles.len()
    }

    /// Which bodies lie in which device's zone.
    pub open spec fn inside(self, points: Seq<Seq<Vec3>>) -> Seq<Seq<bool>> {
        Seq::new(points.len(), |d: int| zone_marks(points[d], zone_size(self.devices[d])))
    }
}

impl<'a> Rollout<'a> {
    /// Which bodies lie in which device's zone. `points[d][k]` is the origin of
    /// body `k` in the frame of device `d`'s zone.
    pub fn find_inside(&self, points: &Vec<Vec<Vec3>>) -> (r: Vec<Vec<bool>>)
        requires
            self@.located(views(points@)),
        ensures
            views(r@) == self@.inside(views(points@)),
            self@.zoned(views(r@)),
    {
        let ghost all = views(points@);
        let ghost want = self@.inside(all);
        let mut out: Vec<Vec<bool>> = Vec::new();
        let mut d: usize = 0;
        assert(views(out@) =~= want.take(0));
        while d < points.len()
            invariant
                d <= points.len(),
                points@.len() == self.devices@.len(),
                all == views(points@),
                want == self@.inside(all),
                views(out@) == want.take(d as int),
            decreases points.len() - d,
        {
            assert(all[d as int] == points@[d as int]@);
            assert(self@.devices[d as int] == self.devices@[d as int]@);
            let row: Vec<bool> = mark_zone(&points[d], size_of_zone(&self.devices[d]));
            let ghost before = views(out@);
            let ghost marks = row@;
            out.push(row);
            assert(views(out@) =~= before.push(marks));
            d = d + 1;
            assert(views(out@) =~= want.take(d as int));
        }
        assert(views(out@) =~= want);
        assert forall|i: int| 0 <= i < want.len() implies (#[trigger] want[i]).len()
            == self@.obstacles.len() by {
            assert(all[i].len() == self@.obstacles.len());
        }
        out
    }
}

/// A point lies in a zone where on no axis it is further from the middle than half
/// the zone's size, whichever side it is on.
pub proof fn law_a_zone_reaches_half_its_size_to_either_side(point: Vec3, size: Vec3)
    ensures
        in_zone(point, size) <==> -size.x <= 2 * point.x <= size.x && -size.y <= 2 * point.y
            <= size.y && -size.z <= 2 * point.z <= size.z,
{
}

/// A body is taken by the zone of a belt or of a sink where it lies in it; no other
/// device takes bodies from a zone.
pub proof fn law_belts_and_sinks_take_from_their_zones(
    v: RolloutView,
    points: Seq<Seq<Vec3>>,
    d: int,
    k: int,
)
    requires
        0 <= d < points.len(),
        0 <= k < points[d].len(),
    ensures
        ({
            let inside = v.inside(points);
            &&& inside.len() == points.len()
            &&& inside[d].len() == points[d].len()
            &&& inside[d][k] == (match v.devices[d].state {
                StateView::Conveyor(c) => in_zone(points[d][k], c.size),
                StateView::Sink(s) => in_zone(points[d][k], s.size),
                _ => false,
            })
        }),
{
}

} // verus!
