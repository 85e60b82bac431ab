//! Walking machines: the plan of a walk, and what has been walked.

use vstd::prelude::*;

use crate::fixed::{Pico, Pose, Vec3};

verus! {

/// One step of one leg.
#[derive(Clone, Copy, Debug, PartialEq, Eq, Structural)]
pub struct Footfall {
    pub leg: usize,
    /// When the foot leaves the ground.
    pub lift: Pico,
    /// When it lands.
    pub land: Pico,
    pub position: Vec3,
    pub yaw: Pico,
}

/// A stretch of time over which the body tilts, rides or sways. What it does
/// in it the gait planner keeps, under `plan`.
#[derive(Clone, Copy, Debug, PartialEq, Eq, Structural)]
pub struct Ride {
    pub t0: Pico,
    pub t1: Pico,
    pub plan: usize,
}

/// A joint that swings along with the walk.
#[derive(Clone, Copy, Debug, PartialEq, Eq, Structural)]
pub struct ArmSwing {
    pub joint: usize,
    pub center: Pico,
    pub amplitude: Pico,
}

/// The plan of one drive's walk.
#[derive(Debug)]
pub struct GaitPlan {
    pub t0: Pico,
    /// When the last foot has settled.
    pub done: Pico,
    /// Per leg, the steps it takes.
    pub legs: Vec<Vec<Footfall>>,
    /// The joints that swing along: set as the walk starts.
    pub swing: Vec<ArmSwing>,
    /// The joints that the walk drives: set as the walk starts.
    pub owned: Vec<usize>,
    /// The stance that the walk ends in.
    pub rest: Vec<Pico>,
    pub pitch: Vec<Ride>,
    pub rise: Vec<Ride>,
    pub sway: Option<Ride>,
}

#[verifier::ext_equal]
pub struct PlanView {
    pub t0: Pico,
    pub done: Pico,
    pub legs: Seq<Seq<Footfall>>,
    pub swing: Seq<ArmSwing>,
    pub owned: Seq<usize>,
    pub rest: Seq<Pico>,
    pub pitch: Seq<Ride>,
    pub rise: Seq<Ride>,
    pub sway: Option<Ride>,
}

impl View for GaitPlan {
    type V = PlanView;

    open spec fn view(&self) -> PlanView {
        PlanView {
            t0: self.t0,
            done: self.done,
            legs: crate::views::views(self.legs@),
            swing: self.swing@,
            owned: self.owned@,
            rest: self.rest@,
            pitch: self.pitch@,
            rise: self.rise@,
            sway: self.sway,
        }
    }
}

/// A walking robot's legs.
#[derive(Debug)]
pub struct GaitRuntime {
    /// The plan of the drive in progress, until the last foot has settled.
    pub plan: Option<GaitPlan>,
    pub history: Vec<Footfall>,
    /// What is composed onto the body's rigid ride now, and every walk's.
    pub sway: Pose,
    pub sways: Vec<Ride>,
    pub pitch: Pose,
    pub pitches: Vec<Ride>,
    pub rise: Pico,
    pub rises: Vec<Ride>,
    /// The deck load that rides the body, each with its offset in the body
    /// link's frame.
    pub carried: Vec<(String, Pose)>,
}

#[verifier::ext_equal]
pub struct GaitView {
    pub plan: Option<PlanView>,
    pub history: Seq<Footfall>,
    pub sway: Pose,
    pub sways: Seq<Ride>,
    pub pitch: Pose,
    pub pitches: Seq<Ride>,
    pub rise: Pico,
    pub rises: Seq<Ride>,
    pub carried: Seq<(String, Pose)>,
}

impl View for GaitRuntime {
    type V = GaitView;

    open spec fn view(&self) -> GaitView {
        GaitView {
            plan: crate::views::opt(self.plan),
            history: self.history@,
            sway: self.sway,
            sways: self.sways@,
            pitch: self.pitch,
            pitches: self.pitches@,
            rise: self.rise,
            rises: self.rises@,
            carried: self.carried@,
        }
    }
}

/// The pose that moves nothing.
pub open spec fn still() -> Pose {
    Pose {
        at: Vec3 { x: 0, y: 0, z: 0 },
        i: 0,
        j: 0,
        k: 0,
        w: 1_000_000_000_000,
    }
}

/// The pose that moves nothing.
pub fn identity() -> (r: Pose)
    ensures
        r == still(),
{
    Pose {
        at: Vec3 { x: 0, y: 0, z: 0 },
        i: 0,
        j: 0,
        k: 0,
        w: 1_000_000_000_000,
    }
}

impl GaitView {
    /// A machine that stands and has walked nowhere.
    pub open spec fn standing() -> GaitView {
        GaitView {
            plan: None,
            history: Seq::empty(),
            sway: still(),
            sways: Seq::empty(),
            pitch: still(),
            pitches: Seq::empty(),
            rise: 0,
            rises: Seq::empty(),
            carried: Seq::empty(),
        }
    }
}

impl GaitRuntime {
    /// A machine that stands and has walked nowhere.
    pub fn new() -> (r: GaitRuntime)
        ensures
            r@ == GaitView::standing(),
    {
        let g: GaitRuntime = GaitRuntime {
            plan: None,
            history: Vec::new(),
            sway: identity(),
            sways: Vec::new(),
            pitch: identity(),
            pitches: Vec::new(),
            rise: 0,
            rises: Vec::new(),
            carried: Vec::new(),
        };
        assert(g@ =~= GaitView::standing());
        g
    }
}

} // verus!
