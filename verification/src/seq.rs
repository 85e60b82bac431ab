//! Authored sequences: steps, their actions, and the conditions between them.

use vstd::prelude::*;

use crate::fixed::Pico;

verus! {

/// What a step waits for.
#[derive(Debug)]
pub enum Condition {
    Immediately,
    /// Every move that the step started has ended.
    Done,
    /// The named robot has no move in flight.
    RobotDone { robot: String },
    /// The step has been active this long.
    Elapsed { seconds: Pico },
    /// A signal has this level.
    Signal { name: String, value: bool },
    /// A signal went from low to high since this program's previous scan.
    Rising { name: String },
    /// A signal went from high to low since this program's previous scan.
    Falling { name: String },
    /// The device is in position.
    DeviceDone { device: String },
    All(Vec<Condition>),
    Any(Vec<Condition>),
}

/// What a step commands of a device.
#[derive(Debug)]
pub enum DeviceCommand {
    Start,
    Stop,
    SetSpeed(Pico),
    MoveTo(Pico),
    Goto { station: String },
    MoveToStop(String),
    Advance(Pico),
}

/// What a step does when it is entered.
#[derive(Debug)]
pub enum Action {
    StartMotion { motion: String },
    StartToolpath { robot: Option<String>, toolpath: String },
    StartRamp { robot: Option<String>, targets: Vec<(String, Pico)>, duration: Pico },
    Attach {
        robot: Option<String>,
        object: String,
        link: Option<String>,
        touch_links: Option<Vec<String>>,
    },
    Detach { object: String },
    Track { robot: Option<String>, object: String, link: Option<String> },
    Untrack { robot: Option<String> },
    SetSignal { signal: String, value: bool },
    Device { device: String, command: DeviceCommand },
}

/// One arm of a branching step: its guard and the steps it runs.
#[derive(Debug)]
pub struct SelectArm {
    pub condition: Condition,
    pub steps: Vec<Step>,
}

/// One step. A step with arms is a branching step: its arms are its
/// transitions, and it fires no actions of its own.
#[derive(Debug)]
pub struct Step {
    pub name: String,
    pub actions: Vec<Action>,
    pub transition: Condition,
    pub select: Vec<SelectArm>,
}

/// A named list of steps.
#[derive(Debug)]
pub struct Sequence {
    pub name: String,
    pub steps: Vec<Step>,
}

/// How many steps `steps` holds, nested ones included.
pub open spec fn size_steps(steps: Seq<Step>) -> nat
    decreases steps,
{
    if steps.len() == 0 {
        0
    } else {
        1 + size_arms(steps[0].select@) + size_steps(steps.drop_first())
    }
}

/// How many steps the arms hold.
pub open spec fn size_arms(arms: Seq<SelectArm>) -> nat
    decreases arms,
{
    if arms.len() == 0 {
        0
    } else {
        size_steps(arms[0].steps@) + size_arms(arms.drop_first())
    }
}

/// How many branching steps `steps` holds, nested ones included.
pub open spec fn selects_in_steps(steps: Seq<Step>) -> nat
    decreases steps,
{
    if steps.len() == 0 {
        0
    } else {
        (if steps[0].select@.len() == 0 {
            0
        } else {
            1 + selects_in_arms(steps[0].select@)
        }) + selects_in_steps(steps.drop_first())
    }
}

/// How many branching steps the arms hold.
pub open spec fn selects_in_arms(arms: Seq<SelectArm>) -> nat
    decreases arms,
{
    if arms.len() == 0 {
        0
    } else {
        selects_in_steps(arms[0].steps@) + selects_in_arms(arms.drop_first())
    }
}

/// The branching steps of `steps` in pre-order: a branching step, then those
/// of its arms in arm order, then those of the steps after it.
pub open spec fn selects_of_steps(steps: Seq<Step>) -> Seq<Step>
    decreases steps,
{
    if steps.len() == 0 {
        Seq::empty()
    } else if steps[0].select@.len() == 0 {
        selects_of_steps(steps.drop_first())
    } else {
        seq![steps[0]] + selects_of_arms(steps[0].select@) + selects_of_steps(steps.drop_first())
    }
}

/// The branching steps of the arms, in pre-order.
pub open spec fn selects_of_arms(arms: Seq<SelectArm>) -> Seq<Step>
    decreases arms,
{
    if arms.len() == 0 {
        Seq::empty()
    } else {
        selects_of_steps(arms[0].steps@) + selects_of_arms(arms.drop_first())
    }
}

/// The steps that a list of references stands for.
pub open spec fn deref_steps(refs: Seq<&Step>) -> Seq<Step> {
    Seq::new(refs.len(), |i: int| *refs[i])
}

/// The branching steps of `steps` in pre-order. A step's place in this list
/// is its ordinal, the number that decisions and coverage refer to it by.
pub fn enumerate_selects<'a>(steps: &'a Vec<Step>) -> (r: Vec<&'a Step>)
    ensures
        deref_steps(r@) == selects_of_steps(steps@),
{
    let mut out: Vec<&'a Step> = Vec::new();
    push_selects(steps, &mut out);
    assert(deref_steps(out@) =~= selects_of_steps(steps@));
    out
}

fn push_selects<'a>(steps: &'a Vec<Step>, out: &mut Vec<&'a Step>)
    ensures
        deref_steps(final(out)@) == deref_steps(old(out)@) + selects_of_steps(steps@),
    decreases steps,
{
    let ghost start = deref_steps(out@);
    let mut i: usize = 0;
    assert(steps@.skip(0) =~= steps@);
    while i < steps.len()
        invariant
            i <= steps.len(),
            deref_steps(out@) + selects_of_steps(steps@.skip(i as int)) == start
                + selects_of_steps(steps@),
        decreases steps.len() - i,
    {
        let ghost before = deref_steps(out@);
        let ghost rest = steps@.skip(i as int);
        assert(rest[0] == steps@[i as int]);
        assert(rest.drop_first() =~= steps@.skip(i + 1));
        if steps[i].select.len() > 0 {
            out.push(&steps[i]);
            assert(deref_steps(out@) =~= before + seq![steps@[i as int]]);
            push_arm_selects(&steps[i].select, out);
            assert(deref_steps(out@) + selects_of_steps(rest.drop_first()) =~= before
                + selects_of_steps(rest));
        }
        i = i + 1;
    }
    assert(selects_of_steps(steps@.skip(i as int)) =~= Seq::<Step>::empty());
    assert(deref_steps(out@) =~= start + selects_of_steps(steps@));
}

fn push_arm_selects<'a>(arms: &'a Vec<SelectArm>, out: &mut Vec<&'a Step>)
    ensures
        deref_steps(final(out)@) == deref_steps(old(out)@) + selects_of_arms(arms@),
    decreases arms,
{
    let ghost start = deref_steps(out@);
    let mut i: usize = 0;
    assert(arms@.skip(0) =~= arms@);
    while i < arms.len()
        invariant
            i <= arms.len(),
            deref_steps(out@) + selects_of_arms(arms@.skip(i as int)) == start
                + selects_of_arms(arms@),
        decreases arms.len() - i,
    {
        let ghost before = deref_steps(out@);
        let ghost rest = arms@.skip(i as int);
        assert(rest[0] == arms@[i as int]);
        assert(rest.drop_first() =~= arms@.skip(i + 1));
        push_selects(&arms[i].steps, out);
        assert(deref_steps(out@) + selects_of_arms(rest.drop_first()) =~= before
            + selects_of_arms(rest));
        i = i + 1;
    }
    assert(selects_of_arms(arms@.skip(i as int)) =~= Seq::<Step>::empty());
    assert(deref_steps(out@) =~= start + selects_of_arms(arms@));
}

/// A list of steps holds each of its steps and what their arms hold; the branching ones
/// among them are told pre-order, a step before what its arms hold, and that before the
/// steps behind it.
pub proof fn law_steps_are_counted_and_told_in_order(
    step: Step,
    more: Seq<Step>,
    arm: SelectArm,
    arms: Seq<SelectArm>,
)
    ensures
        size_steps(seq![]) == 0,
        size_steps(seq![step] + more) == 1 + size_arms(step.select@) + size_steps(more),
        size_arms(seq![arm] + arms) == size_steps(arm.steps@) + size_arms(arms),
        selects_in_steps(seq![]) == 0,
        step.select@.len() > 0 ==> selects_in_steps(seq![step] + more) == 1 + selects_in_arms(
            step.select@,
        ) + selects_in_steps(more),
        step.select@.len() == 0 ==> selects_in_steps(seq![step] + more) == selects_in_steps(more),
        selects_in_arms(seq![arm] + arms) == selects_in_steps(arm.steps@) + selects_in_arms(arms),
        selects_of_steps(seq![]).len() == 0,
        step.select@.len() > 0 ==> selects_of_steps(seq![step] + more) == seq![step]
            + selects_of_arms(step.select@) + selects_of_steps(more),
        step.select@.len() == 0 ==> selects_of_steps(seq![step] + more) == selects_of_steps(more),
        selects_of_arms(seq![arm] + arms) == selects_of_steps(arm.steps@) + selects_of_arms(arms),
{
    assert((seq![step] + more).drop_first() =~= more);
    assert((seq![step] + more)[0] == step);
    assert((seq![arm] + arms).drop_first() =~= arms);
    assert((seq![arm] + arms)[0] == arm);
}

} // verus!
