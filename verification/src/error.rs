//! What can go wrong in a rollout.

use vstd::prelude::*;

use crate::fixed::Pico;
use crate::text::{
    cat3, cat5, cat7, decimal, decimal_text, join, joined, milli, milli_text, plain, plain_text,
    texts,
};

verus! {

/// Why a rollout stopped.
#[derive(Debug)]
#[allow(inconsistent_fields)]
pub enum SeqError {
    UnknownSequence(String),
    Validation { step: Option<usize>, message: String },
    PlanFailed { step: usize, name: String, message: String },
    Action { step: usize, name: String, message: String },
    /// `forced` lists the pinned inputs: a run that stalls under a stuck
    /// contact says so in the same sentence as where it stalled.
    Timeout { step: usize, name: String, limit: Pico, forced: Vec<(String, bool)> },
    /// Names every stuck program: with several, where everybody waits is the
    /// deadlock diagnosis.
    ProgramsTimeout { at: String, limit: Pico, forced: Vec<(String, bool)> },
    ImmediateLoop { step: usize, name: String, limit: usize },
    /// Two robots met: the cycle needs an interlock.
    RobotCollision { t: Pico, a: String, b: String, link_a: String, link_b: String },
    /// A travelling vehicle's body met the environment.
    VehicleCollision { t: Pico, vehicle: String, body: String, obstacle: String },
    /// A robot riding a travelling vehicle met the environment.
    RiderCollision { t: Pico, vehicle: String, robot: String, part: String, obstacle: String },
    /// A walking leg could not reach its footfall.
    GaitReach {
        t: Pico,
        robot: String,
        leg: String,
        stride: Pico,
        reach: Pico,
        drop: Pico,
        detail: String,
    },
    /// A leg would step higher than the machine's declared ability.
    StepHeight {
        t: Pico,
        robot: String,
        leg: String,
        rise: Pico,
        max_step: Pico,
        x: Pico,
        y: Pico,
        z: Pico,
    },
    /// A foothold landed too close to the edge of its tread.
    FootOverhang {
        t: Pico,
        robot: String,
        leg: String,
        obstacle: String,
        margin: Pico,
        need: Pico,
    },
    /// A travelling vehicle's body met a robot that is not its passenger.
    VehicleRobotCollision { t: Pico, vehicle: String, body: String, robot: String, link: String },
}

/// What an error says.
#[verifier::ext_equal]
#[allow(inconsistent_fields)]
pub enum ErrorView {
    UnknownSequence(Seq<char>),
    Validation { step: Option<usize>, message: Seq<char> },
    PlanFailed { step: usize, name: Seq<char>, message: Seq<char> },
    Action { step: usize, name: Seq<char>, message: Seq<char> },
    Timeout { step: usize, name: Seq<char>, limit: Pico, forced: Seq<(Seq<char>, bool)> },
    ProgramsTimeout { at: Seq<char>, limit: Pico, forced: Seq<(Seq<char>, bool)> },
    ImmediateLoop { step: usize, name: Seq<char>, limit: usize },
    RobotCollision {
        t: Pico,
        a: Seq<char>,
        b: Seq<char>,
        link_a: Seq<char>,
        link_b: Seq<char>,
    },
    VehicleCollision { t: Pico, vehicle: Seq<char>, body: Seq<char>, obstacle: Seq<char> },
    RiderCollision {
        t: Pico,
        vehicle: Seq<char>,
        robot: Seq<char>,
        part: Seq<char>,
        obstacle: Seq<char>,
    },
    GaitReach {
        t: Pico,
        robot: Seq<char>,
        leg: Seq<char>,
        stride: Pico,
        reach: Pico,
        drop: Pico,
        detail: Seq<char>,
    },
    StepHeight {
        t: Pico,
        robot: Seq<char>,
        leg: Seq<char>,
        rise: Pico,
        max_step: Pico,
        x: Pico,
        y: Pico,
        z: Pico,
    },
    FootOverhang {
        t: Pico,
        robot: Seq<char>,
        leg: Seq<char>,
        obstacle: Seq<char>,
        margin: Pico,
        need: Pico,
    },
    VehicleRobotCollision {
        t: Pico,
        vehicle: Seq<char>,
        body: Seq<char>,
        robot: Seq<char>,
        link: Seq<char>,
    },
}

/// A list of levels, each with its name.
pub open spec fn named_levels(list: Seq<(String, bool)>) -> Seq<(Seq<char>, bool)> {
    Seq::new(list.len(), |i: int| (list[i].0@, list[i].1))
}

impl View for SeqError {
    type V = ErrorView;

    open spec fn view(&self) -> ErrorView {
        match self {
            SeqError::UnknownSequence(name) => ErrorView::UnknownSequence(name@),
            SeqError::Validation { step, message } => ErrorView::Validation {
                step: *step,
                message: message@,
            },
            SeqError::PlanFailed { step, name, message } => ErrorView::PlanFailed {
                step: *step,
                name: name@,
                message: message@,
            },
            SeqError::Action { step, name, message } => ErrorView::Action {
                step: *step,
                name: name@,
                message: message@,
            },
            SeqError::Timeout { step, name, limit, forced } => ErrorView::Timeout {
                step: *step,
                name: name@,
                limit: *limit,
                forced: named_levels(forced@),
            },
            SeqError::ProgramsTimeout { at, limit, forced } => ErrorView::ProgramsTimeout {
                at: at@,
                limit: *limit,
                forced: named_levels(forced@),
            },
            SeqError::ImmediateLoop { step, name, limit } => ErrorView::ImmediateLoop {
                step: *step,
                name: name@,
                limit: *limit,
            },
            SeqError::RobotCollision { t, a, b, link_a, link_b } => ErrorView::RobotCollision {
                t: *t,
                a: a@,
                b: b@,
                link_a: link_a@,
                link_b: link_b@,
            },
            SeqError::VehicleCollision { t, vehicle, body, obstacle } => {
                ErrorView::VehicleCollision {
                    t: *t,
                    vehicle: vehicle@,
                    body: body@,
                    obstacle: obstacle@,
                }
            },
            SeqError::RiderCollision { t, vehicle, robot, part, obstacle } => {
                ErrorView::RiderCollision {
                    t: *t,
                    vehicle: vehicle@,
                    robot: robot@,
                    part: part@,
                    obstacle: obstacle@,
                }
            },
            SeqError::GaitReach { t, robot, leg, stride, reach, drop, detail } => {
                ErrorView::GaitReach {
                    t: *t,
                    robot: robot@,
                    leg: leg@,
                    stride: *stride,
                    reach: *reach,
                    drop: *drop,
                    detail: detail@,
                }
            },
            SeqError::StepHeight { t, robot, leg, rise, max_step, x, y, z } => {
                ErrorView::StepHeight {
                    t: *t,
                    robot: robot@,
                    leg: leg@,
                    rise: *rise,
                    max_step: *max_step,
                    x: *x,
                    y: *y,
                    z: *z,
                }
            },
            SeqError::FootOverhang { t, robot, leg, obstacle, margin, need } => {
                ErrorView::FootOverhang {
                    t: *t,
                    robot: robot@,
                    leg: leg@,
                    obstacle: obstacle@,
                    margin: *margin,
                    need: *need,
                }
            },
            SeqError::VehicleRobotCollision { t, vehicle, body, robot, link } => {
                ErrorView::VehicleRobotCollision {
                    t: *t,
                    vehicle: vehicle@,
                    body: body@,
                    robot: robot@,
                    link: link@,
                }
            },
        }
    }
}

/// One pinned input, as `name=value`.
pub open spec fn pin_text(pin: (Seq<char>, bool)) -> Seq<char> {
    pin.0 + "="@ + (if pin.1 {
        "true"@
    } else {
        "false"@
    })
}

/// ` — forced: a=false, b=true` for a run under faults, nothing otherwise.
pub open spec fn forced_text(forced: Seq<(Seq<char>, bool)>) -> Seq<char> {
    if forced.len() == 0 {
        Seq::empty()
    } else {
        " — forced: "@ + joined(Seq::new(forced.len(), |i: int| pin_text(forced[i])), ", "@)
    }
}

/// ` — forced: a=false, b=true` for a run under faults, nothing otherwise.
pub fn forced_note(forced: &Vec<(String, bool)>) -> (r: String)
    ensures
        r@ == forced_text(named_levels(forced@)),
{
    if forced.len() == 0 {
        let s: String = String::new();
        assert(s@ =~= Seq::<char>::empty());
        return s;
    }
    let ghost all = named_levels(forced@);
    let mut list: Vec<String> = Vec::new();
    let mut i: usize = 0;
    while i < forced.len()
        invariant
            i <= forced.len(),
            list@.len() == i,
            all == named_levels(forced@),
            forall|k: int| 0 <= k < i ==> (#[trigger] list@[k])@ == pin_text(all[k]),
        decreases forced.len() - i,
    {
        let s: String = cat3(
            forced[i].0.as_str(),
            "=",
            if forced[i].1 {
                "true"
            } else {
                "false"
            },
        );
        list.push(s);
        i = i + 1;
    }
    assert(texts(list@) =~= Seq::new(all.len(), |k: int| pin_text(all[k])));
    let mut s: String = String::from_str(" — forced: ");
    s.append(join(&list, ", ").as_str());
    s
}

/// `step N (`name`): `, as errors that happen in a step begin.
pub open spec fn in_step(step: usize, name: Seq<char>) -> Seq<char> {
    "step "@ + decimal(step as nat) + " (`"@ + name + "`): "@
}

/// A count of 10^-12 with three places and its sign.
pub open spec fn signed_milli(x: Pico) -> Seq<char> {
    if x < 0 {
        milli(x)
    } else {
        "+"@ + milli(x)
    }
}

impl ErrorView {
    /// The error as a sentence.
    pub open spec fn text(self) -> Seq<char> {
        match self {
            ErrorView::UnknownSequence(name) => "unknown sequence `"@ + name + "`"@,
            ErrorView::Validation { step, message } => "step "@ + (match step {
                Some(s) => decimal(s as nat),
                None => "-"@,
            }) + ": "@ + message,
            ErrorView::PlanFailed { step, name, message } => in_step(step, name)
                + "planning failed: "@ + message,
            ErrorView::Action { step, name, message } => in_step(step, name) + message,
            ErrorView::Timeout { step, name, limit, forced } => "timed out after "@ + plain(
                limit as int,
            ) + "s waiting in step "@ + decimal(step as nat) + " (`"@ + name + "`)"@ + forced_text(
                forced,
            ),
            ErrorView::ProgramsTimeout { at, limit, forced } => "timed out after "@ + plain(
                limit as int,
            ) + "s; programs waiting at: "@ + at + forced_text(forced),
            ErrorView::ImmediateLoop { step, name, limit } => in_step(step, name) + ">"@ + decimal(
                limit as nat,
            ) + " instantaneous steps in one scan tick (immediate loop?)"@,
            ErrorView::RobotCollision { t, a, b, link_a, link_b } => "robots `"@ + a + "` and `"@
                + b + "` collide at t = "@ + milli(t) + "s ("@ + link_a + " × "@ + link_b
                + "); add an interlock (zone sensor / robot_done) so one waits for the other"@,
            ErrorView::VehicleCollision { t, vehicle, body, obstacle } => "vehicle `"@ + vehicle
                + "` collides with `"@ + obstacle + "` at t = "@ + milli(t) + "s (body part `"@
                + body + "`); widen the aisle or re-teach the path"@,
            ErrorView::RiderCollision { t, vehicle, robot, part, obstacle } => "robot `"@ + robot
                + "` riding `"@ + vehicle + "` collides with `"@ + obstacle + "` at t = "@ + milli(
                t,
            ) + "s (`"@ + part + "`); widen the aisle or re-teach the path"@,
            ErrorView::GaitReach { t, robot, leg, stride, reach, drop, detail } => "robot `"@
                + robot + "`: leg `"@ + leg + "` cannot reach its footfall at t = "@ + milli(t)
                + "s — "@ + milli(reach) + " m from the hip to a foot "@ + signed_milli(drop)
                + " m below the body, on a "@ + milli(stride) + " m stride ("@ + detail
                + "); lower the vehicle speed, shorten the gait period, or take the grade in smaller steps"@,
            ErrorView::StepHeight { t, robot, leg, rise, max_step, x, y, z } => "robot `"@ + robot
                + "`: leg `"@ + leg + "` would step "@ + milli(rise) + " m at ("@ + milli(x)
                + ", "@ + milli(y) + ", "@ + milli(z) + ") on the walk dispatched at t = "@
                + milli(t) + "s, over the gait's max_step "@ + milli(max_step)
                + " m; smaller risers, or a machine that climbs higher"@,
            ErrorView::FootOverhang { t, robot, leg, obstacle, margin, need } => "robot `"@ + robot
                + "`: leg `"@ + leg + "` lands "@ + milli(margin) + " m inside the edge of `"@
                + obstacle + "` at t = "@ + milli(t) + "s (the foot needs "@ + milli(need)
                + " m); move the path, the stride or the stairs so the foot is on the tread"@,
            ErrorView::VehicleRobotCollision { t, vehicle, body, robot, link } => "vehicle `"@
                + vehicle + "`: `"@ + body + "` hits robot `"@ + robot + "` (link `"@ + link
                + "`) at t = "@ + milli(t)
                + "s while driving; hold the robot clear with an interlock or re-teach the path"@,
        }
    }
}

fn step_prefix(step: usize, name: &str) -> (r: String)
    ensures
        r@ == in_step(step, name@),
{
    cat5("step ", decimal_text(step as u64).as_str(), " (`", name, "`): ")
}

impl SeqError {
    /// The error as a sentence.
    pub fn text(&self) -> (r: String)
        ensures
            r@ == self@.text(),
    {
        match self {
            SeqError::UnknownSequence(name) => cat3("unknown sequence `", name.as_str(), "`"),
            SeqError::Validation { step, message } => {
                let mut s: String = String::from_str("step ");
                match step {
                    Some(i) => {
                        s.append(decimal_text(*i as u64).as_str());
                    },
                    None => {
                        s.append("-");
                    },
                }
                s.append(": ");
                s.append(message.as_str());
                s
            },
            SeqError::PlanFailed { step, name, message } => {
                let mut s: String = step_prefix(*step, name.as_str());
                s.append("planning failed: ");
                s.append(message.as_str());
                s
            },
            SeqError::Action { step, name, message } => {
                let mut s: String = step_prefix(*step, name.as_str());
                s.append(message.as_str());
                s
            },
            SeqError::Timeout { step, name, limit, forced } => {
                let mut s: String = cat7(
                    "timed out after ",
                    plain_text(*limit).as_str(),
                    "s waiting in step ",
                    decimal_text(*step as u64).as_str(),
                    " (`",
                    name.as_str(),
                    "`)",
                );
                s.append(forced_note(forced).as_str());
                s
            },
            SeqError::ProgramsTimeout { at, limit, forced } => cat5(
                "timed out after ",
                plain_text(*limit).as_str(),
                "s; programs waiting at: ",
                at.as_str(),
                forced_note(forced).as_str(),
            ),
            SeqError::ImmediateLoop { step, name, limit } => {
                let mut s: String = step_prefix(*step, name.as_str());
                s.append(">");
                s.append(decimal_text(*limit as u64).as_str());
                s.append(" instantaneous steps in one scan tick (immediate loop?)");
                s
            },
            SeqError::RobotCollision { t, a, b, link_a, link_b } => {
                let mut s: String = cat7(
                    "robots `",
                    a.as_str(),
                    "` and `",
                    b.as_str(),
                    "` collide at t = ",
                    milli_text(*t).as_str(),
                    "s (",
                );
                s.append(link_a.as_str());
                s.append(" × ");
                s.append(link_b.as_str());
                s.append(
                    "); add an interlock (zone sensor / robot_done) so one waits for the other",
                );
                s
            },
            SeqError::VehicleCollision { t, vehicle, body, obstacle } => {
                let mut s: String = cat7(
                    "vehicle `",
                    vehicle.as_str(),
                    "` collides with `",
                    obstacle.as_str(),
                    "` at t = ",
                    milli_text(*t).as_str(),
                    "s (body part `",
                );
                s.append(body.as_str());
                s.append("`); widen the aisle or re-teach the path");
                s
            },
            SeqError::RiderCollision { t, vehicle, robot, part, obstacle } => {
                let mut s: String = cat7(
                    "robot `",
                    robot.as_str(),
                    "` riding `",
                    vehicle.as_str(),
                    "` collides with `",
                    obstacle.as_str(),
                    "` at t = ",
                );
                s.append(milli_text(*t).as_str());
                s.append("s (`");
                s.append(part.as_str());
                s.append("`); widen the aisle or re-teach the path");
                s
            },
            SeqError::GaitReach { t, robot, leg, stride, reach, drop, detail } => {
                let mut s: String = cat7(
                    "robot `",
                    robot.as_str(),
                    "`: leg `",
                    leg.as_str(),
                    "` cannot reach its footfall at t = ",
                    milli_text(*t).as_str(),
                    "s — ",
                );
                s.append(milli_text(*reach).as_str());
                s.append(" m from the hip to a foot ");
                let mut d: String = String::from_str(if *drop < 0 { "" } else { "+" });
                d.append(milli_text(*drop).as_str());
                proof {
                    reveal_strlit("");
                    assert(""@ + milli(*drop) =~= milli(*drop));
                }
                s.append(d.as_str());
                s.append(" m below the body, on a ");
                s.append(milli_text(*stride).as_str());
                s.append(" m stride (");
                s.append(detail.as_str());
                s.append(
                    "); lower the vehicle speed, shorten the gait period, or take the grade in smaller steps",
                );
                s
            },
            SeqError::StepHeight { t, robot, leg, rise, max_step, x, y, z } => {
                let mut s: String = cat7(
                    "robot `",
                    robot.as_str(),
                    "`: leg `",
                    leg.as_str(),
                    "` would step ",
                    milli_text(*rise).as_str(),
                    " m at (",
                );
                s.append(milli_text(*x).as_str());
                s.append(", ");
                s.append(milli_text(*y).as_str());
                s.append(", ");
                s.append(milli_text(*z).as_str());
                s.append(") on the walk dispatched at t = ");
                s.append(milli_text(*t).as_str());
                s.append("s, over the gait's max_step ");
                s.append(milli_text(*max_step).as_str());
                s.append(" m; smaller risers, or a machine that climbs higher");
                s
            },
            SeqError::FootOverhang { t, robot, leg, obstacle, margin, need } => {
                let mut s: String = cat7(
                    "robot `",
                    robot.as_str(),
                    "`: leg `",
                    leg.as_str(),
                    "` lands ",
                    milli_text(*margin).as_str(),
                    " m inside the edge of `",
                );
                s.append(obstacle.as_str());
                s.append("` at t = ");
                s.append(milli_text(*t).as_str());
                s.append("s (the foot needs ");
                s.append(milli_text(*need).as_str());
                s.append(
                    " m); move the path, the stride or the stairs so the foot is on the tread",
                );
                s
            },
            SeqError::VehicleRobotCollision { t, vehicle, body, robot, link } => {
                let mut s: String = cat7(
                    "vehicle `",
                    vehicle.as_str(),
                    "`: `",
                    body.as_str(),
                    "` hits robot `",
                    robot.as_str(),
                    "` (link `",
                );
                s.append(link.as_str());
                s.append("`) at t = ");
                s.append(milli_text(*t).as_str());
                s.append(
                    "s while driving; hold the robot clear with an interlock or re-teach the path",
                );
                s
            },
        }
    }
}

} // verus!
