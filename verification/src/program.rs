//! Exporting a rolled sequence as a controller program.

use vstd::prelude::*;

use crate::export::{
    command_view, command_views, lemma_command_views, test_views, Command, CommandView, DigitalTest,
    PlainTests, Program, TestView,
};
use crate::fixed::{clip, muldiv, scaled, Pico, UNIT};
use crate::lower::{
    list_guarding, list_waited, tests_guarding, tests_waited, IoView, SequenceIo,
};
use crate::names::{find, find_named, names_of, same};
use crate::scene::{Robot, Scene};
use crate::script::{
    at, ramp_shaped, steps_lowered, LowerView, Lowering, Place, Source, SourceView,
};
use crate::seq::{Action, SelectArm, Sequence, Step};
use crate::setup::valid;
use crate::text::{cat3, cat5, cat7, decimal, decimal_text, join, joined, same_texts, texts};
use crate::timeline::{
    BranchTaken, BranchView, PlannedMove, PlannedView, RobotTrack, SequenceTimeline,
};
use crate::views::{copied, opt, views};

verus! {

/// The actions of a list of steps, those of branch arms too, in the order in
/// which they are written.
pub open spec fn actions_in(steps: Seq<Step>) -> Seq<Action>
    decreases steps,
{
    if steps.len() == 0 {
        Seq::empty()
    } else {
        steps[0].actions@ + actions_in_arms(steps[0].select@) + actions_in(steps.drop_first())
    }
}

/// The actions of branch arms.
pub open spec fn actions_in_arms(arms: Seq<SelectArm>) -> Seq<Action>
    decreases arms,
{
    if arms.len() == 0 {
        Seq::empty()
    } else {
        actions_in(arms[0].steps@) + actions_in_arms(arms.drop_first())
    }
}

/// The actions that a list of references stands for.
pub open spec fn deref_actions(refs: Seq<&Action>) -> Seq<Action> {
    Seq::new(refs.len(), |i: int| *refs[i])
}

fn push_actions<'a>(steps: &'a Vec<Step>, out: &mut Vec<&'a Action>)
    ensures
        deref_actions(final(out)@) == deref_actions(old(out)@) + actions_in(steps@),
    decreases steps,
{
    let ghost start = deref_actions(out@);
    let mut i: usize = 0;
    assert(steps@.skip(0) =~= steps@);
    while i < steps.len()
        invariant
            i <= steps.len(),
            deref_actions(out@) + actions_in(steps@.skip(i as int)) == start + actions_in(steps@),
        decreases steps.len() - i,
    {
        let ghost before = deref_actions(out@);
        let ghost rest = steps@.skip(i as int);
        assert(rest[0] == steps@[i as int]);
        assert(rest.drop_first() =~= steps@.skip(i + 1));
        let mut k: usize = 0;
        assert(deref_actions(out@) =~= before + steps@[i as int].actions@.take(0));
        while k < steps[i].actions.len()
            invariant
                i < steps.len(),
                k <= steps@[i as int].actions@.len(),
                deref_actions(out@) == before + steps@[i as int].actions@.take(k as int),
            decreases steps@[i as int].actions@.len() - k,
        {
            let ghost mid = deref_actions(out@);
            out.push(&steps[i].actions[k]);
            assert(deref_actions(out@) =~= mid.push(steps@[i as int].actions@[k as int]));
            k = k + 1;
            assert(deref_actions(out@) =~= before + steps@[i as int].actions@.take(k as int));
        }
        assert(steps@[i as int].actions@.take(k as int) =~= steps@[i as int].actions@);
        push_arm_actions(&steps[i].select, out);
        assert(deref_actions(out@) + actions_in(rest.drop_first()) =~= before + actions_in(rest));
        i = i + 1;
    }
    assert(actions_in(steps@.skip(i as int)) =~= Seq::<Action>::empty());
    assert(deref_actions(out@) =~= start + actions_in(steps@));
}

fn push_arm_actions<'a>(arms: &'a Vec<SelectArm>, out: &mut Vec<&'a Action>)
    ensures
        deref_actions(final(out)@) == deref_actions(old(out)@) + actions_in_arms(arms@),
    decreases arms,
{
    let ghost start = deref_actions(out@);
    let mut i: usize = 0;
    assert(arms@.skip(0) =~= arms@);
    while i < arms.len()
        invariant
            i <= arms.len(),
            deref_actions(out@) + actions_in_arms(arms@.skip(i as int)) == start
                + actions_in_arms(arms@),
        decreases arms.len() - i,
    {
        let ghost before = deref_actions(out@);
        let ghost rest = arms@.skip(i as int);
        assert(rest[0] == arms@[i as int]);
        assert(rest.drop_first() =~= arms@.skip(i + 1));
        push_actions(&arms[i].steps, out);
        assert(deref_actions(out@) + actions_in_arms(rest.drop_first()) =~= before
            + actions_in_arms(rest));
        i = i + 1;
    }
    assert(actions_in_arms(arms@.skip(i as int)) =~= Seq::<Action>::empty());
    assert(deref_actions(out@) =~= start + actions_in_arms(arms@));
}

/// The actions of a list of steps, those of branch arms too.
pub fn walk_actions<'a>(steps: &'a Vec<Step>) -> (r: Vec<&'a Action>)
    ensures
        deref_actions(r@) == actions_in(steps@),
{
    let mut out: Vec<&'a Action> = Vec::new();
    push_actions(steps, &mut out);
    assert(deref_actions(out@) =~= actions_in(steps@));
    out
}

/// The compound tests of a list of steps, those of branch arms too: of every
/// transition and every guard.
pub open spec fn tests_in(steps: Seq<Step>, io: IoView) -> Seq<TestView>
    decreases steps,
{
    if steps.len() == 0 {
        Seq::empty()
    } else {
        (if steps[0].select@.len() > 0 {
            tests_in_arms(steps[0].select@, io)
        } else {
            tests_waited(steps[0].transition, io)
        }) + tests_in(steps.drop_first(), io)
    }
}

/// The compound tests of branch arms.
pub open spec fn tests_in_arms(arms: Seq<SelectArm>, io: IoView) -> Seq<TestView>
    decreases arms,
{
    if arms.len() == 0 {
        Seq::empty()
    } else {
        tests_guarding(arms[0].condition, io) + tests_in(arms[0].steps@, io) + tests_in_arms(
            arms.drop_first(),
            io,
        )
    }
}

fn push_tests(steps: &Vec<Step>, io: &SequenceIo, out: &mut Vec<DigitalTest>)
    ensures
        test_views(final(out)@) == test_views(old(out)@) + tests_in(steps@, io@),
    decreases steps,
{
    let ghost start = test_views(out@);
    let mut i: usize = 0;
    assert(steps@.skip(0) =~= steps@);
    while i < steps.len()
        invariant
            i <= steps.len(),
            test_views(out@) + tests_in(steps@.skip(i as int), io@) == start + tests_in(
                steps@,
                io@,
            ),
        decreases steps.len() - i,
    {
        let ghost before = test_views(out@);
        let ghost rest = steps@.skip(i as int);
        assert(rest[0] == steps@[i as int]);
        assert(rest.drop_first() =~= steps@.skip(i + 1));
        if steps[i].select.len() > 0 {
            push_arm_tests(&steps[i].select, io, out);
        } else {
            list_waited(&steps[i].transition, io, out);
        }
        assert(test_views(out@) + tests_in(rest.drop_first(), io@) =~= before + tests_in(rest, io@));
        i = i + 1;
    }
    assert(tests_in(steps@.skip(i as int), io@) =~= Seq::<TestView>::empty());
    assert(test_views(out@) =~= start + tests_in(steps@, io@));
}

fn push_arm_tests(arms: &Vec<SelectArm>, io: &SequenceIo, out: &mut Vec<DigitalTest>)
    ensures
        test_views(final(out)@) == test_views(old(out)@) + tests_in_arms(arms@, io@),
    decreases arms,
{
    let ghost start = test_views(out@);
    let mut i: usize = 0;
    assert(arms@.skip(0) =~= arms@);
    while i < arms.len()
        invariant
            i <= arms.len(),
            test_views(out@) + tests_in_arms(arms@.skip(i as int), io@) == start + tests_in_arms(
                arms@,
                io@,
            ),
        decreases arms.len() - i,
    {
        let ghost before = test_views(out@);
        let ghost rest = arms@.skip(i as int);
        assert(rest[0] == arms@[i as int]);
        assert(rest.drop_first() =~= arms@.skip(i + 1));
        list_guarding(&arms[i].condition, io, out);
        push_tests(&arms[i].steps, io, out);
        assert(test_views(out@) + tests_in_arms(rest.drop_first(), io@) =~= before + tests_in_arms(
            rest,
            io@,
        ));
        i = i + 1;
    }
    assert(tests_in_arms(arms@.skip(i as int), io@) =~= Seq::<TestView>::empty());
    assert(test_views(out@) =~= start + tests_in_arms(arms@, io@));
}

/// The compound tests of a list of steps: those that an export asks the
/// simplifier for.
pub fn compound_tests(steps: &Vec<Step>, io: &SequenceIo) -> (r: Vec<DigitalTest>)
    ensures
        test_views(r@) == tests_in(steps@, io@),
{
    let mut out: Vec<DigitalTest> = Vec::new();
    push_tests(steps, io, &mut out);
    assert(test_views(out@) =~= tests_in(steps@, io@));
    out
}

/// Whether an action addresses a robot, which then has to be resolved.
pub open spec fn addresses(action: Action) -> bool {
    action is StartRamp || action is Attach || action is Track || action is Untrack
        || action is StartToolpath
}

/// How many of the first `n` actions address a robot.
pub open spec fn addressed(actions: Seq<Action>, n: nat) -> nat
    decreases n,
{
    if n == 0 {
        0
    } else {
        addressed(actions, (n - 1) as nat) + (if addresses(actions[n - 1]) {
            1nat
        } else {
            0nat
        })
    }
}

/// The robot that action `i` drives, where it drives one. What an action that
/// addresses a robot resolves to is handed in, in order.
pub open spec fn claim(
    scene: Scene,
    actions: Seq<Action>,
    resolved: Seq<Result<usize, String>>,
    i: int,
) -> Option<Result<usize, Seq<char>>> {
    match actions[i] {
        Action::StartMotion { motion } => Some(
            match find(names_of(scene.motions@), motion@) {
                Some(m) => Ok(scene.motions@[m].robot),
                None => Err("unknown motion `"@ + motion@ + "`"@),
            },
        ),
        _ => if addresses(actions[i]) {
            Some(
                match resolved[addressed(actions, i as nat) as int] {
                    Ok(r) => Ok(r),
                    Err(e) => Err(e@),
                },
            )
        } else {
            None
        },
    }
}

/// The single robot that the actions from `i` on drive, `driven` being the
/// one that those before drive.
pub open spec fn claims(
    scene: Scene,
    name: Seq<char>,
    actions: Seq<Action>,
    resolved: Seq<Result<usize, String>>,
    driven: Option<usize>,
    i: int,
) -> Result<usize, Seq<char>>
    decreases actions.len() - i,
{
    if i < 0 || i >= actions.len() {
        match driven {
            Some(r) => Ok(r),
            None => Err(
                "sequence `"@ + name
                    + "` drives no robot — nothing to export (device-only programs stay on the cell controller)"@,
            ),
        }
    } else {
        match claim(scene, actions, resolved, i) {
            None => claims(scene, name, actions, resolved, driven, i + 1),
            Some(Err(e)) => Err(e),
            Some(Ok(r)) => match driven {
                Some(d) if d != r => Err(
                    "sequence `"@ + name + "` drives both `"@ + scene.robots@[d as int].name@
                        + "` and `"@ + scene.robots@[r as int].name@
                        + "` — a controller program is one robot's; split it into per-robot programs (simulate_sequences) and export each"@,
                ),
                _ => claims(scene, name, actions, resolved, Some(r), i + 1),
            },
        }
    }
}

/// The single robot that a sequence drives.
pub open spec fn driven(
    scene: Scene,
    seq: Sequence,
    resolved: Seq<Result<usize, String>>,
) -> Result<usize, Seq<char>> {
    claims(scene, seq.name@, actions_in(seq.steps@), resolved, None, 0)
}

/// There is a resolution for every action that addresses a robot, and it is a
/// robot of the scene.
pub open spec fn resolution_fits(
    scene: Scene,
    seq: Sequence,
    resolved: Seq<Result<usize, String>>,
) -> bool {
    let actions = actions_in(seq.steps@);
    resolved.len() == addressed(actions, actions.len()) && forall|i: int|
        0 <= i < resolved.len() ==> ((#[trigger] resolved[i]) matches Ok(r) ==> r
            < scene.robots@.len())
}

/// Whether a result is what was to come.
pub open spec fn resolves_as<T>(r: Result<T, String>, want: Result<T, Seq<char>>) -> bool {
    match (r, want) {
        (Ok(x), Ok(w)) => x == w,
        (Err(e), Err(w)) => e@ == w,
        _ => false,
    }
}

proof fn lemma_addressed(actions: Seq<Action>, k: nat, n: nat)
    requires
        k <= n <= actions.len(),
    ensures
        addressed(actions, k) <= addressed(actions, n) <= n,
    decreases n,
{
    if n > 0 {
        if k < n {
            lemma_addressed(actions, k, (n - 1) as nat);
        } else {
            lemma_addressed(actions, (k - 1) as nat, (n - 1) as nat);
        }
    }
}

/// The single robot that a sequence drives: motions claim their owner, the
/// actions that address a robot claim what it resolves to, branch arms
/// included.
pub fn driven_robot(scene: &Scene, seq: &Sequence, resolved: &Vec<Result<usize, String>>) -> (r:
    Result<usize, String>)
    requires
        valid(*scene),
        resolution_fits(*scene, *seq, resolved@),
    ensures
        resolves_as(r, driven(*scene, *seq, resolved@)),
        r matches Ok(k) ==> k < scene.robots@.len(),
{
    let actions: Vec<&Action> = walk_actions(&seq.steps);
    let ghost all = actions_in(seq.steps@);
    assert(deref_actions(actions@).len() == actions@.len());
    let mut driven: Option<usize> = None;
    let mut next: usize = 0;
    let mut i: usize = 0;
    while i < actions.len()
        invariant
            i <= actions.len(),
            valid(*scene),
            deref_actions(actions@) == all,
            all == actions_in(seq.steps@),
            actions@.len() == all.len(),
            resolution_fits(*scene, *seq, resolved@),
            next == addressed(all, i as nat),
            next <= i,
            driven matches Some(d) ==> d < scene.robots@.len(),
            claims(*scene, seq.name@, all, resolved@, None, 0) == claims(
                *scene,
                seq.name@,
                all,
                resolved@,
                driven,
                i as int,
            ),
        decreases actions.len() - i,
    {
        assert(all[i as int] == *actions@[i as int]);
        proof {
            lemma_addressed(all, (i + 1) as nat, all.len());
        }
        let action: &Action = actions[i];
        let addressing: bool = match action {
            Action::StartRamp { .. } => true,
            Action::Attach { .. } => true,
            Action::Track { .. } => true,
            Action::Untrack { .. } => true,
            Action::StartToolpath { .. } => true,
            _ => false,
        };
        let claimed: Option<usize> = match action {
            Action::StartMotion { motion } => match find_named(&scene.motions, motion.as_str()) {
                Some(m) => {
                    assert(scene.motions@[m as int].robot < scene.robots@.len());
                    Some(scene.motions[m].robot)
                },
                None => {
                    return Err(cat3("unknown motion `", motion.as_str(), "`"));
                },
            },
            _ => if addressing {
                assert(next < resolved@.len());
                match &resolved[next] {
                    Ok(r) => {
                        assert(resolved@[next as int] matches Ok(k) ==> k < scene.robots@.len());
                        Some(*r)
                    },
                    Err(e) => {
                        return Err(e.clone());
                    },
                }
            } else {
                None
            },
        };
        if addressing {
            next = next + 1;
        }
        match claimed {
            Some(r) => {
                match driven {
                    Some(d) => {
                        if d != r {
                            return Err(
                                cat7(
                                    "sequence `",
                                    seq.name.as_str(),
                                    "` drives both `",
                                    scene.robots[d].name.as_str(),
                                    "` and `",
                                    scene.robots[r].name.as_str(),
                                    "` — a controller program is one robot's; split it into per-robot programs (simulate_sequences) and export each",
                                ),
                            );
                        }
                    },
                    None => {},
                }
                driven = Some(r);
            },
            None => {},
        }
        i = i + 1;
    }
    match driven {
        Some(r) => Ok(r),
        None => Err(
            cat3(
                "sequence `",
                seq.name.as_str(),
                "` drives no robot — nothing to export (device-only programs stay on the cell controller)",
            ),
        ),
    }
}

/// The names of a list, each in backquotes.
pub open spec fn quoted(names: Seq<String>) -> Seq<Seq<char>> {
    Seq::new(names.len(), |i: int| "`"@ + names[i]@ + "`"@)
}

fn quoted_list(names: &Vec<String>) -> (r: String)
    ensures
        r@ == joined(quoted(names@), ", "@),
{
    let mut out: Vec<String> = Vec::new();
    let mut i: usize = 0;
    while i < names.len()
        invariant
            i <= names.len(),
            texts(out@) == quoted(names@).take(i as int),
        decreases names.len() - i,
    {
        let ghost before = texts(out@);
        let one: String = cat3("`", names[i].as_str(), "`");
        let ghost seen = one@;
        out.push(one);
        assert(texts(out@) =~= before.push(seen));
        i = i + 1;
        assert(texts(out@) =~= quoted(names@).take(i as int));
    }
    assert(texts(out@) =~= quoted(names@));
    join(&out, ", ")
}

/// Which of a timeline's sequences is meant.
pub open spec fn meant(sequences: Seq<String>, sequence: Option<Seq<char>>) -> Result<
    Seq<char>,
    Seq<char>,
> {
    match sequence {
        Some(name) => if find(names_of(sequences), name) is Some {
            Ok(name)
        } else {
            Err(
                "sequence `"@ + name + "` was not part of this rollout (rolled: "@ + joined(
                    quoted(sequences),
                    ", "@,
                ) + ") — simulate it, together with the programs it runs beside, first"@,
            )
        },
        None => if sequences.len() == 1 {
            Ok(sequences[0]@)
        } else {
            Err(
                "the timeline was rolled from "@ + decimal(sequences.len())
                    + " programs; pass sequence=<name> (one of: "@ + joined(
                    quoted(sequences),
                    ", "@,
                ) + ")"@,
            )
        },
    }
}

/// The view of an optional name.
pub open spec fn named(sequence: Option<&str>) -> Option<Seq<char>> {
    match sequence {
        Some(n) => Some(n@),
        None => None,
    }
}

/// Which of a timeline's sequences is meant: the one named, or the only one.
pub fn resolve_sequence(timeline: &SequenceTimeline, sequence: Option<&str>) -> (r: Result<
    String,
    String,
>)
    ensures
        match (r, meant(timeline.sequences@, named(sequence))) {
            (Ok(name), Ok(w)) => name@ == w,
            (Err(e), Err(w)) => e@ == w,
            _ => false,
        },
{
    match sequence {
        Some(name) => {
            if find_named(&timeline.sequences, name).is_some() {
                Ok(String::from_str(name))
            } else {
                Err(
                    cat5(
                        "sequence `",
                        name,
                        "` was not part of this rollout (rolled: ",
                        quoted_list(&timeline.sequences).as_str(),
                        ") — simulate it, together with the programs it runs beside, first",
                    ),
                )
            }
        },
        None => {
            let n: usize = timeline.sequences.len();
            if n == 1 {
                Ok(timeline.sequences[0].clone())
            } else {
                Err(
                    cat5(
                        "the timeline was rolled from ",
                        decimal_text(n as u64).as_str(),
                        " programs; pass sequence=<name> (one of: ",
                        quoted_list(&timeline.sequences).as_str(),
                        ")",
                    ),
                )
            }
        },
    }
}

/// The sequence of the scene that is meant, where the timeline rolled it and
/// the scene holds it.
pub open spec fn meant_index(
    scene: Scene,
    sequences: Seq<String>,
    sequence: Option<Seq<char>>,
) -> Option<int> {
    match meant(sequences, sequence) {
        Ok(name) => find(names_of(scene.sequences@), name),
        Err(_) => None,
    }
}

/// The resolutions fit the sequence that is meant.
pub open spec fn meant_resolved(
    scene: Scene,
    sequences: Seq<String>,
    sequence: Option<Seq<char>>,
    resolved: Seq<Result<usize, String>>,
) -> bool {
    meant_index(scene, sequences, sequence) matches Some(k) ==> resolution_fits(
        scene,
        scene.sequences@[k],
        resolved,
    )
}

/// The robot that a rolled sequence drives.
pub open spec fn driven_name(
    scene: Scene,
    sequences: Seq<String>,
    sequence: Option<Seq<char>>,
    resolved: Seq<Result<usize, String>>,
) -> Result<Seq<char>, Seq<char>> {
    match meant(sequences, sequence) {
        Err(e) => Err(e),
        Ok(name) => match find(names_of(scene.sequences@), name) {
            None => Err("the timeline's scene snapshot holds no sequence `"@ + name + "`"@),
            Some(k) => match driven(scene, scene.sequences@[k], resolved) {
                Err(e) => Err(e),
                Ok(r) => Ok(scene.robots@[r as int].name@),
            },
        },
    }
}

/// The name of the robot that a rolled sequence drives.
pub fn driven_robot_name(
    scene: &Scene,
    timeline: &SequenceTimeline,
    sequence: Option<&str>,
    resolved: &Vec<Result<usize, String>>,
) -> (r: Result<String, String>)
    requires
        valid(*scene),
        meant_resolved(*scene, timeline.sequences@, named(sequence), resolved@),
    ensures
        match (r, driven_name(*scene, timeline.sequences@, named(sequence), resolved@)) {
            (Ok(name), Ok(w)) => name@ == w,
            (Err(e), Err(w)) => e@ == w,
            _ => false,
        },
{
    let name: String = match resolve_sequence(timeline, sequence) {
        Ok(name) => name,
        Err(e) => {
            return Err(e);
        },
    };
    match find_named(&scene.sequences, name.as_str()) {
        None => Err(
            cat3("the timeline's scene snapshot holds no sequence `", name.as_str(), "`"),
        ),
        Some(k) => match driven_robot(scene, &scene.sequences[k], resolved) {
            Err(e) => Err(e),
            Ok(r) => Ok(scene.robots[r].name.clone()),
        },
    }
}

/// How a program is exported.
#[derive(Clone, Copy, Debug, PartialEq, Eq, Structural)]
pub struct ProgramOptions {
    pub speed_scale: Pico,
    pub tcp_speed: Pico,
    pub tcp_accel: Pico,
    pub blend_radius: Pico,
    pub move_to_start: bool,
}

/// A lowered program and everything that the lowering had to approximate.
#[derive(Debug)]
pub struct SequenceProgram {
    pub program: Program,
    /// Empty means that the script reproduces the sequence's order and its
    /// timing.
    pub warnings: Vec<String>,
}

/// What a lowered program says.
#[verifier::ext_equal]
pub struct SequenceProgramView {
    pub name: Seq<char>,
    pub joint_names: Seq<String>,
    pub commands: Seq<CommandView>,
    pub warnings: Seq<Seq<char>>,
}

impl View for SequenceProgram {
    type V = SequenceProgramView;

    open spec fn view(&self) -> SequenceProgramView {
        SequenceProgramView {
            name: self.program.name@,
            joint_names: self.program.joint_names@,
            commands: command_views(self.program.commands@),
            warnings: texts(self.warnings@),
        }
    }
}

/// Whether there is a command that does something.
pub open spec fn does_something(commands: Seq<CommandView>) -> bool {
    exists|i: int| 0 <= i < commands.len() && !((#[trigger] commands[i]) is Comment)
}

fn acts(commands: &Vec<Command>) -> (r: bool)
    ensures
        r == does_something(command_views(commands@)),
{
    proof {
        lemma_command_views(commands@);
    }
    let ghost all = command_views(commands@);
    let mut i: usize = 0;
    while i < commands.len()
        invariant
            i <= commands.len(),
            all == command_views(commands@),
            all.len() == commands@.len(),
            forall|k: int|
                0 <= k < commands@.len() ==> (#[trigger] all[k]) == command_view(commands@[k]),
            forall|k: int| 0 <= k < i ==> (#[trigger] all[k]) is Comment,
        decreases commands.len() - i,
    {
        let comment: bool = match &commands[i] {
            Command::Comment { .. } => true,
            _ => false,
        };
        assert(all[i as int] is Comment == comment);
        if !comment {
            return true;
        }
        i = i + 1;
    }
    false
}

fn empty_text(name: &str) -> (r: String)
    ensures
        r@ == lowers_to_nothing(name@),
{
    cat3("sequence `", name, "` lowers to no commands")
}

/// A sequence without commands.
pub open spec fn lowers_to_nothing(name: Seq<char>) -> Seq<char> {
    "sequence `"@ + name + "` lowers to no commands"@
}

/// What the export takes from outside.
#[derive(Debug)]
pub struct ExportFacts {
    /// What the actions that address a robot resolve to, in order.
    pub resolved: Vec<Result<usize, String>>,
    /// The joint limits of the robot's model.
    pub velocity_limits: Vec<Pico>,
    pub acceleration_limits: Vec<Pico>,
    /// Where each timeline's robot starts.
    pub starts: Vec<Vec<Pico>>,
    /// What the simplifier makes of the sequence's compound tests, wired for the
    /// driven robot.
    pub plain: PlainTests,
}

/// The least of a list of limits; no limit where there is none.
pub open spec fn least(list: Seq<Pico>, n: nat) -> Pico
    decreases n,
{
    if n == 0 {
        i64::MAX
    } else {
        let less = least(list, (n - 1) as nat);
        if list[n - 1] < less {
            list[n - 1]
        } else {
            less
        }
    }
}

fn least_of(list: &Vec<Pico>) -> (r: Pico)
    ensures
        r == least(list@, list@.len()),
{
    let mut most: Pico = i64::MAX;
    let mut n: usize = 0;
    while n < list.len()
        invariant
            n <= list.len(),
            most == least(list@, n as nat),
        decreases list.len() - n,
    {
        if list[n] < most {
            most = list[n];
        }
        n = n + 1;
    }
    most
}

/// The planned moves among the first `n` that a sequence started.
pub open spec fn planned_by(planned: Seq<PlannedView>, name: Seq<char>, n: nat) -> Seq<PlannedView>
    decreases n,
{
    if n == 0 {
        Seq::empty()
    } else {
        let less = planned_by(planned, name, (n - 1) as nat);
        if planned[n - 1].sequence == name {
            less.push(planned[n - 1])
        } else {
            less
        }
    }
}

/// The branch decisions among the first `n` that a sequence made.
pub open spec fn decided_by(branches: Seq<BranchView>, name: Seq<char>, n: nat) -> Seq<BranchView>
    decreases n,
{
    if n == 0 {
        Seq::empty()
    } else {
        let less = decided_by(branches, name, (n - 1) as nat);
        if branches[n - 1].sequence == name {
            less.push(branches[n - 1])
        } else {
            less
        }
    }
}

/// The cursors of the timelines from `from` on.
pub open spec fn sources_of(
    sources: Seq<SourceView>,
    timelines: Seq<(&str, &SequenceTimeline)>,
    name: Seq<char>,
    robot: Seq<char>,
    starts: Seq<Vec<Pico>>,
    from: int,
) -> Result<Seq<SourceView>, Seq<char>>
    decreases timelines.len() - from,
{
    if from < 0 || from >= timelines.len() {
        Ok(sources)
    } else {
        let (label, timeline) = timelines[from];
        match find(names_of(timeline.robots@), robot) {
            None => Err("timeline `"@ + label@ + "` has no track for robot `"@ + robot + "`"@),
            Some(k) => {
                let planned = views(timeline.robots@[k].planned@);
                let branches = views(timeline.branches@);
                sources_of(
                    sources.push(
                        SourceView {
                            scenario: label@,
                            planned: planned_by(planned, name, planned.len()),
                            planned_next: 0,
                            decisions: decided_by(branches, name, branches.len()),
                            decisions_next: 0,
                            cur_q: starts[from]@,
                        },
                    ),
                    timelines,
                    name,
                    robot,
                    starts,
                    from + 1,
                )
            },
        }
    }
}

/// The first timeline, from `from` on, that was rolled from another set of
/// sequences than the first.
pub open spec fn odd_timeline(timelines: Seq<(&str, &SequenceTimeline)>, from: int) -> Option<int>
    decreases timelines.len() - from,
{
    if from < 0 || from >= timelines.len() {
        None
    } else if texts(timelines[from].1.sequences@) != texts(timelines[0].1.sequences@) {
        Some(from)
    } else {
        odd_timeline(timelines, from + 1)
    }
}

/// What is left over in the sources from `from` on: a timeline that no longer
/// matches its sequence.
pub open spec fn left_over(sources: Seq<SourceView>, name: Seq<char>, from: int) -> Option<Seq<char>>
    decreases sources.len() - from,
{
    if from < 0 || from >= sources.len() {
        None
    } else if sources[from].planned_next < sources[from].planned.len() {
        Some(
            "timeline `"@ + sources[from].scenario + "` holds more planned moves for `"@ + name
                + "` than the sequence fires (was the sequence edited after the rollout?)"@,
        )
    } else if sources[from].decisions_next < sources[from].decisions.len() {
        Some(
            "timeline `"@ + sources[from].scenario + "` holds more branch decisions for `"@ + name
                + "` than the sequence has branching steps (was the sequence edited after the rollout?)"@,
        )
    } else {
        left_over(sources, name, from + 1)
    }
}

/// The names of a robot's actuated joints.
pub open spec fn actuated_names(robot: Robot) -> Seq<String> {
    Seq::new(
        robot.actuated@.len(),
        |i: int| robot.joints@[robot.actuated@[i] as int].name,
    )
}

/// A lowering before its first step.
pub open spec fn lowering_start(
    robot: Robot,
    io: IoView,
    options: ProgramOptions,
    facts: ExportFacts,
    sources: Seq<SourceView>,
) -> LowerView {
    LowerView {
        io: io.on_robot(robot.name@),
        plain: facts.plain@,
        robot,
        blend_radius: options.blend_radius,
        joint_velocity: clip(
            muldiv(
                least(facts.velocity_limits@, facts.velocity_limits@.len()) as int,
                options.speed_scale as int,
                UNIT as int,
            ),
        ),
        joint_acceleration: clip(
            muldiv(
                least(facts.acceleration_limits@, facts.acceleration_limits@.len()) as int,
                options.speed_scale as int,
                UNIT as int,
            ),
        ),
        tcp_velocity: clip(
            muldiv(options.tcp_speed as int, options.speed_scale as int, UNIT as int),
        ),
        tcp_acceleration: clip(
            muldiv(options.tcp_accel as int, options.speed_scale as int, UNIT as int),
        ),
        sources,
        warnings: Seq::empty(),
        step_no: 0,
        selects_seen: 0,
        pending_rejoin: None,
    }
}

/// Where the first planned move starts.
pub open spec fn first_waypoint(planned: Seq<PlannedView>) -> Option<Seq<Pico>> {
    if planned.len() > 0 && planned[0].segments.len() > 0 && planned[0].segments[0].waypoints.len()
        > 0 {
        Some(planned[0].segments[0].waypoints[0])
    } else {
        None
    }
}

/// A program before its first step: with a move to where the first planned
/// move starts, where that is asked for.
pub open spec fn program_start(l: LowerView, options: ProgramOptions) -> Place {
    let here = Place { l, q: l.sources[0].cur_q, out: Seq::empty() };
    match first_waypoint(l.sources[0].planned) {
        Some(q) if options.move_to_start => Place {
            q,
            ..here.command(
                CommandView::MoveJoint {
                    q,
                    velocity: l.joint_velocity,
                    acceleration: l.joint_acceleration,
                    blend: 0,
                },
            )
        },
        _ => here,
    }
}

/// The first `n` numbers.
pub open spec fn counted(n: nat) -> Seq<usize> {
    Seq::new(n, |i: int| i as usize)
}

/// One sequence of a robot lowered from a set of timelines.
pub open spec fn lowered(
    robot: Robot,
    seq: Sequence,
    name: Seq<char>,
    l: LowerView,
    options: ProgramOptions,
) -> Result<SequenceProgramView, Seq<char>> {
    match steps_lowered(
        program_start(l, options),
        seq.steps@,
        counted(l.sources.len()),
        Some(0usize),
    ) {
        Err(e) => Err(e),
        Ok(p) => match left_over(p.l.sources, name, 0) {
            Some(why) => Err(why),
            None => if !does_something(p.out) {
                Err(lowers_to_nothing(name))
            } else {
                Ok(
                    SequenceProgramView {
                        name,
                        joint_names: actuated_names(robot),
                        commands: p.out,
                        warnings: p.l.warnings,
                    },
                )
            },
        },
    }
}

/// One sequence lowered from a set of timelines.
pub open spec fn merged(
    scene: Scene,
    timelines: Seq<(&str, &SequenceTimeline)>,
    sequence: Option<Seq<char>>,
    io: IoView,
    options: ProgramOptions,
    facts: ExportFacts,
) -> Result<SequenceProgramView, Seq<char>> {
    if timelines.len() == 0 {
        Err("no timelines to export"@)
    } else if odd_timeline(timelines, 0) is Some {
        let (label, timeline) = timelines[odd_timeline(timelines, 0)->0];
        Err(
            "timeline `"@ + label@ + "` was rolled from a different sequence set (`"@ + joined(
                texts(timelines[0].1.sequences@),
                " + "@,
            ) + "` vs `"@ + joined(texts(timeline.sequences@), " + "@)
                + "`) — merge the runs of one scenario sweep"@,
        )
    } else {
        match meant(timelines[0].1.sequences@, sequence) {
            Err(e) => Err(e),
            Ok(name) => match find(names_of(scene.sequences@), name) {
                None => Err(
                    "the timeline's scene snapshot holds no sequence `"@ + name
                        + "` (internal mismatch)"@,
                ),
                Some(k) => match driven(scene, scene.sequences@[k], facts.resolved@) {
                    Err(e) => Err(e),
                    Ok(r) => {
                        let robot = scene.robots@[r as int];
                        if robot.mount matches Some(m) && m.gait is Some {
                            Err(walks_its_vehicle(robot.name@))
                        } else if options.speed_scale <= 0 || options.tcp_speed <= 0
                            || options.tcp_accel <= 0 {
                            Err(
                                "speed scale, tcp speed, and tcp acceleration must be positive"@,
                            )
                        } else {
                            match sources_of(
                                Seq::empty(),
                                timelines,
                                name,
                                robot.name@,
                                facts.starts@,
                                0,
                            ) {
                                Err(e) => Err(e),
                                Ok(sources) => lowered(
                                    robot,
                                    scene.sequences@[k],
                                    name,
                                    lowering_start(robot, io, options, facts, sources),
                                    options,
                                ),
                            }
                        }
                    },
                },
            },
        }
    }
}

/// A walking robot's joints are its legs, driven by the gait; no controller
/// takes that as a program.
pub open spec fn walks_its_vehicle(robot: Seq<char>) -> Seq<char> {
    "robot `"@ + robot
        + "` walks its vehicle: its legs are a gait, not a program — there is no controller script to export for it (the cycle belongs to the PLC side: export_plcopen)"@
}

/// Every ramp that a timeline planned goes from one configuration to another.
pub open spec fn ramps_planned(timeline: SequenceTimeline) -> bool {
    forall|r: int, k: int|
        0 <= r < timeline.robots@.len() && 0 <= k < timeline.robots@[r].planned@.len()
            ==> ramp_shaped(#[trigger] timeline.robots@[r].planned@[k]@)
}

fn planned_of<'a>(track: &'a RobotTrack, name: &str) -> (r: Vec<&'a PlannedMove>)
    ensures
        Seq::new(r@.len(), |i: int| (*r@[i])@) == planned_by(
            views(track.planned@),
            name@,
            track.planned@.len(),
        ),
{
    let ghost all = views(track.planned@);
    let mut out: Vec<&'a PlannedMove> = Vec::new();
    let mut n: usize = 0;
    assert(Seq::new(out@.len(), |i: int| (*out@[i])@) =~= planned_by(all, name@, 0));
    while n < track.planned.len()
        invariant
            n <= track.planned.len(),
            all == views(track.planned@),
            Seq::new(out@.len(), |i: int| (*out@[i])@) == planned_by(all, name@, n as nat),
        decreases track.planned.len() - n,
    {
        let ghost before = Seq::new(out@.len(), |i: int| (*out@[i])@);
        assert(all[n as int] == track.planned@[n as int]@);
        if same(track.planned[n].sequence.as_str(), name) {
            out.push(&track.planned[n]);
            assert(Seq::new(out@.len(), |i: int| (*out@[i])@) =~= before.push(all[n as int]));
        }
        n = n + 1;
    }
    out
}

fn decisions_of<'a>(timeline: &'a SequenceTimeline, name: &str) -> (r: Vec<&'a BranchTaken>)
    ensures
        Seq::new(r@.len(), |i: int| (*r@[i])@) == decided_by(
            views(timeline.branches@),
            name@,
            timeline.branches@.len(),
        ),
{
    let ghost all = views(timeline.branches@);
    let mut out: Vec<&'a BranchTaken> = Vec::new();
    let mut n: usize = 0;
    assert(Seq::new(out@.len(), |i: int| (*out@[i])@) =~= decided_by(all, name@, 0));
    while n < timeline.branches.len()
        invariant
            n <= timeline.branches.len(),
            all == views(timeline.branches@),
            Seq::new(out@.len(), |i: int| (*out@[i])@) == decided_by(all, name@, n as nat),
        decreases timeline.branches.len() - n,
    {
        let ghost before = Seq::new(out@.len(), |i: int| (*out@[i])@);
        assert(all[n as int] == timeline.branches@[n as int]@);
        if same(timeline.branches[n].sequence.as_str(), name) {
            out.push(&timeline.branches[n]);
            assert(Seq::new(out@.len(), |i: int| (*out@[i])@) =~= before.push(all[n as int]));
        }
        n = n + 1;
    }
    out
}

proof fn lemma_planned_shaped(planned: Seq<PlannedView>, name: Seq<char>, n: nat)
    requires
        n <= planned.len(),
        forall|k: int| 0 <= k < planned.len() ==> ramp_shaped(#[trigger] planned[k]),
    ensures
        forall|k: int|
            0 <= k < planned_by(planned, name, n).len() ==> ramp_shaped(
                #[trigger] planned_by(planned, name, n)[k],
            ),
    decreases n,
{
    if n > 0 {
        lemma_planned_shaped(planned, name, (n - 1) as nat);
        let less = planned_by(planned, name, (n - 1) as nat);
        let all = planned_by(planned, name, n);
        assert forall|k: int| 0 <= k < all.len() implies ramp_shaped(#[trigger] all[k]) by {
            if k < less.len() {
                assert(all[k] == less[k]);
            }
        }
    }
}

/// Every ramp in the sources is one.
pub open spec fn sources_shaped(sources: Seq<SourceView>) -> bool {
    forall|i: int, k: int|
        0 <= i < sources.len() && 0 <= k < sources[i].planned.len() ==> ramp_shaped(
            #[trigger] sources[i].planned[k],
        )
}

fn build_sources<'a>(
    timelines: &[(&'a str, &'a SequenceTimeline)],
    name: &str,
    robot: &str,
    starts: &Vec<Vec<Pico>>,
) -> (r: Result<Vec<Source<'a>>, String>)
    requires
        starts@.len() == timelines@.len(),
        forall|i: int|
            0 <= i < timelines@.len() ==> ramps_planned(*(#[trigger] timelines@[i]).1),
    ensures
        match (r, sources_of(Seq::empty(), timelines@, name@, robot@, starts@, 0)) {
            (Ok(list), Ok(w)) => views(list@) == w && sources_shaped(w) && w.len()
                == timelines@.len(),
            (Err(e), Err(w)) => e@ == w,
            _ => false,
        },
{
    let mut out: Vec<Source<'a>> = Vec::new();
    let mut i: usize = 0;
    assert(views(out@) =~= Seq::<SourceView>::empty());
    while i < timelines.len()
        invariant
            i <= timelines@.len(),
            starts@.len() == timelines@.len(),
            forall|k: int|
                0 <= k < timelines@.len() ==> ramps_planned(*(#[trigger] timelines@[k]).1),
            out@.len() == i,
            sources_shaped(views(out@)),
            sources_of(Seq::empty(), timelines@, name@, robot@, starts@, 0) == sources_of(
                views(out@),
                timelines@,
                name@,
                robot@,
                starts@,
                i as int,
            ),
        decreases timelines@.len() - i,
    {
        let label: &'a str = timelines[i].0;
        let timeline: &'a SequenceTimeline = timelines[i].1;
        assert(timelines@[i as int] == (label, timeline));
        assert(ramps_planned(*timelines@[i as int].1));
        match find_named(&timeline.robots, robot) {
            None => {
                return Err(
                    cat5("timeline `", label, "` has no track for robot `", robot, "`"),
                );
            },
            Some(k) => {
                let track: &'a RobotTrack = &timeline.robots[k];
                let ghost planned = views(track.planned@);
                proof {
                    assert forall|n: int| 0 <= n < planned.len() implies ramp_shaped(
                        #[trigger] planned[n],
                    ) by {
                        assert(ramp_shaped(timeline.robots@[k as int].planned@[n]@));
                    }
                    lemma_planned_shaped(planned, name@, planned.len());
                }
                let source: Source<'a> = Source {
                    scenario: String::from_str(label),
                    planned: planned_of(track, name),
                    planned_next: 0,
                    decisions: decisions_of(timeline, name),
                    decisions_next: 0,
                    cur_q: copied(&starts[i]),
                };
                let ghost before = views(out@);
                let ghost seen = source@;
                out.push(source);
                proof {
                    assert(views(out@) =~= before.push(seen));
                    assert(seen.planned == planned_by(planned, name@, planned.len()));
                    assert forall|a: int, n: int|
                        0 <= a < views(out@).len() && 0 <= n < views(out@)[a].planned.len() implies ramp_shaped(
                        #[trigger] views(out@)[a].planned[n],
                    ) by {
                        if a < before.len() {
                            assert(views(out@)[a] == before[a]);
                            assert(ramp_shaped(before[a].planned[n]));
                        } else {
                            assert(views(out@)[a] == seen);
                        }
                    }
                }
            },
        }
        i = i + 1;
    }
    Ok(out)
}

fn find_left_over<'a>(sources: &Vec<Source<'a>>, name: &str) -> (r: Option<String>)
    ensures
        opt(r) == left_over(views(sources@), name@, 0),
{
    let ghost all = views(sources@);
    let mut i: usize = 0;
    while i < sources.len()
        invariant
            i <= sources.len(),
            all == views(sources@),
            left_over(all, name@, 0) == left_over(all, name@, i as int),
        decreases sources.len() - i,
    {
        assert(all[i as int] == sources@[i as int]@);
        let s: &Source<'a> = &sources[i];
        if s.planned_next < s.planned.len() {
            return Some(
                cat5(
                    "timeline `",
                    s.scenario.as_str(),
                    "` holds more planned moves for `",
                    name,
                    "` than the sequence fires (was the sequence edited after the rollout?)",
                ),
            );
        }
        if s.decisions_next < s.decisions.len() {
            return Some(
                cat5(
                    "timeline `",
                    s.scenario.as_str(),
                    "` holds more branch decisions for `",
                    name,
                    "` than the sequence has branching steps (was the sequence edited after the rollout?)",
                ),
            );
        }
        i = i + 1;
    }
    None
}

fn joint_names(robot: &Robot) -> (r: Vec<String>)
    requires
        forall|i: int|
            0 <= i < robot.actuated@.len() ==> (#[trigger] robot.actuated@[i])
                < robot.joints@.len(),
    ensures
        r@ == actuated_names(*robot),
{
    let mut out: Vec<String> = Vec::new();
    let mut i: usize = 0;
    while i < robot.actuated.len()
        invariant
            i <= robot.actuated.len(),
            forall|k: int|
                0 <= k < robot.actuated@.len() ==> (#[trigger] robot.actuated@[k])
                    < robot.joints@.len(),
            out@ == actuated_names(*robot).take(i as int),
        decreases robot.actuated.len() - i,
    {
        assert(robot.actuated@[i as int] < robot.joints@.len());
        out.push(robot.joints[robot.actuated[i]].name.clone());
        i = i + 1;
        assert(out@ =~= actuated_names(*robot).take(i as int));
    }
    assert(out@ =~= actuated_names(*robot));
    out
}

fn count_to(n: usize) -> (r: Vec<usize>)
    ensures
        r@ == counted(n as nat),
{
    let mut out: Vec<usize> = Vec::new();
    let mut i: usize = 0;
    while i < n
        invariant
            i <= n,
            out@ == counted(i as nat),
        decreases n - i,
    {
        out.push(i);
        i = i + 1;
        assert(out@ =~= counted(i as nat));
    }
    out
}

fn lower_program<'a>(
    robot: &'a Robot,
    seq: &'a Sequence,
    name: &str,
    lowering: Lowering<'a>,
    options: ProgramOptions,
) -> (r: Result<SequenceProgram, String>)
    requires
        forall|i: int|
            0 <= i < robot.actuated@.len() ==> (#[trigger] robot.actuated@[i])
                < robot.joints@.len(),
        lowering@.sources.len() > 0,
        lowering@.shaped(),
    ensures
        match (r, lowered(*robot, *seq, name@, lowering@, options)) {
            (Ok(p), Ok(w)) => p@ == w,
            (Err(e), Err(w)) => e@ == w,
            _ => false,
        },
{
    let ghost l = lowering@;
    let mut lowering: Lowering<'a> = lowering;
    let mut commands: Vec<Command> = Vec::new();
    assert(command_views(commands@) =~= Seq::<CommandView>::empty());
    assert(l.sources[0] == lowering.sources@[0]@);
    let mut q: Vec<Pico> = copied(&lowering.sources[0].cur_q);
    if options.move_to_start && lowering.sources[0].planned.len() > 0 {
        let first: &PlannedMove = lowering.sources[0].planned[0];
        assert(l.sources[0].planned[0] == first@);
        if first.segments.len() > 0 {
            assert(first@.segments[0] == first.segments@[0]@);
            if first.segments[0].waypoints.len() > 0 {
                assert(first@.segments[0].waypoints[0] == first.segments@[0].waypoints@[0]@);
                q = copied(&first.segments[0].waypoints[0]);
                crate::lower::push_command(
                    &mut commands,
                    Command::MoveJoint {
                        q: copied(&q),
                        velocity: lowering.joint_velocity,
                        acceleration: lowering.joint_acceleration,
                        blend: 0,
                    },
                );
            }
        }
    }
    assert(at(lowering@, q@, commands@) =~= program_start(l, options));
    let active: Vec<usize> = count_to(lowering.sources.len());
    proof {
        assert forall|k: int| 0 <= k < active@.len() implies (#[trigger] active@[k])
            < l.sources.len() by {}
    }
    match lowering.lower_steps(&seq.steps, &active, Some(0), &mut q, &mut commands) {
        Ok(_) => {},
        Err(e) => {
            return Err(e);
        },
    }
    match find_left_over(&lowering.sources, name) {
        Some(why) => {
            return Err(why);
        },
        None => {},
    }
    if !acts(&commands) {
        return Err(empty_text(name));
    }
    let made: SequenceProgram = SequenceProgram {
        program: Program {
            name: String::from_str(name),
            joint_names: joint_names(robot),
            commands,
        },
        warnings: lowering.warnings,
    };
    Ok(made)
}

fn walks_text(robot: &str) -> (r: String)
    ensures
        r@ == walks_its_vehicle(robot@),
{
    cat3(
        "robot `",
        robot,
        "` walks its vehicle: its legs are a gait, not a program — there is no controller script to export for it (the cycle belongs to the PLC side: export_plcopen)",
    )
}

/// Lowers one sequence from a set of rolled timelines into one program that
/// carries every branch arm. The first timeline is the primary: it supplies
/// the shared path and the arms it took. An arm that it skipped is donated by
/// the first other timeline that took it, where that reached the branch at the
/// same configuration. Waits and guards stand in their plainest form.
pub fn merged_sequence_program<'a>(
    scene: &'a Scene,
    timelines: &[(&'a str, &'a SequenceTimeline)],
    sequence: Option<&str>,
    io: &SequenceIo,
    options: ProgramOptions,
    facts: &ExportFacts,
) -> (r: Result<SequenceProgram, String>)
    requires
        valid(*scene),
        facts.starts@.len() == timelines@.len(),
        timelines@.len() > 0 ==> meant_resolved(
            *scene,
            timelines@[0].1.sequences@,
            named(sequence),
            facts.resolved@,
        ),
        forall|i: int|
            0 <= i < timelines@.len() ==> ramps_planned(*(#[trigger] timelines@[i]).1),
    ensures
        match (r, merged(*scene, timelines@, named(sequence), io@, options, *facts)) {
            (Ok(p), Ok(w)) => p@ == w,
            (Err(e), Err(w)) => e@ == w,
            _ => false,
        },
{
    if timelines.len() == 0 {
        return Err(String::from_str("no timelines to export"));
    }
    let first: &'a SequenceTimeline = timelines[0].1;
    let mut i: usize = 0;
    while i < timelines.len()
        invariant
            i <= timelines@.len(),
            timelines@.len() > 0,
            *first == *timelines@[0].1,
            odd_timeline(timelines@, 0) == odd_timeline(timelines@, i as int),
        decreases timelines@.len() - i,
    {
        let timeline: &SequenceTimeline = timelines[i].1;
        if !same_texts(&timeline.sequences, &first.sequences) {
            return Err(
                cat7(
                    "timeline `",
                    timelines[i].0,
                    "` was rolled from a different sequence set (`",
                    join(&first.sequences, " + ").as_str(),
                    "` vs `",
                    join(&timeline.sequences, " + ").as_str(),
                    "`) — merge the runs of one scenario sweep",
                ),
            );
        }
        i = i + 1;
    }
    let name: String = match resolve_sequence(first, sequence) {
        Ok(name) => name,
        Err(e) => {
            return Err(e);
        },
    };
    let k: usize = match find_named(&scene.sequences, name.as_str()) {
        Some(k) => k,
        None => {
            return Err(
                cat3(
                    "the timeline's scene snapshot holds no sequence `",
                    name.as_str(),
                    "` (internal mismatch)",
                ),
            );
        },
    };
    let r: usize = match driven_robot(scene, &scene.sequences[k], &facts.resolved) {
        Ok(r) => r,
        Err(e) => {
            return Err(e);
        },
    };
    let robot: &'a Robot = &scene.robots[r];
    assert(crate::setup::valid_robot(scene.robots@[r as int]));
    let walks: bool = match &robot.mount {
        Some(m) => m.gait.is_some(),
        None => false,
    };
    if walks {
        return Err(walks_text(robot.name.as_str()));
    }
    if options.speed_scale <= 0 || options.tcp_speed <= 0 || options.tcp_accel <= 0 {
        return Err(
            String::from_str("speed scale, tcp speed, and tcp acceleration must be positive"),
        );
    }
    let sources: Vec<Source<'a>> = match build_sources(
        timelines,
        name.as_str(),
        robot.name.as_str(),
        &facts.starts,
    ) {
        Ok(sources) => sources,
        Err(e) => {
            return Err(e);
        },
    };
    let own: SequenceIo = io.run_by(robot.name.as_str());
    let ghost all = views(sources@);
    let warnings: Vec<String> = Vec::new();
    assert(texts(warnings@) =~= Seq::<Seq<char>>::empty());
    let lowering: Lowering = Lowering {
        io: &own,
        plain: &facts.plain,
        robot,
        blend_radius: options.blend_radius,
        joint_velocity: scaled(
            least_of(&facts.velocity_limits),
            options.speed_scale,
            UNIT as i128,
        ),
        joint_acceleration: scaled(
            least_of(&facts.acceleration_limits),
            options.speed_scale,
            UNIT as i128,
        ),
        tcp_velocity: scaled(options.tcp_speed, options.speed_scale, UNIT as i128),
        tcp_acceleration: scaled(options.tcp_accel, options.speed_scale, UNIT as i128),
        sources,
        warnings,
        step_no: 0,
        selects_seen: 0,
        pending_rejoin: None,
    };
    proof {
        let want = lowering_start(*robot, io@, options, *facts, all);
        assert(lowering@ =~= want);
        assert forall|a: int, n: int|
            0 <= a < lowering@.sources.len() && 0 <= n < lowering@.sources[a].planned.len() implies ramp_shaped(
            #[trigger] lowering@.sources[a].planned[n],
        ) by {
            assert(ramp_shaped(all[a].planned[n]));
        }
    }
    lower_program(robot, &scene.sequences[k], name.as_str(), lowering, options)
}

/// The scenario that a timeline ran under.
pub open spec fn scenario_of(timeline: SequenceTimeline) -> Seq<char> {
    match timeline.scenario {
        Some(s) => s@,
        None => "baseline"@,
    }
}

/// Lowers one sequence of a rolled timeline. `sequence` may be left out where
/// the timeline was rolled from a single program.
pub fn sequence_program(
    scene: &Scene,
    timeline: &SequenceTimeline,
    sequence: Option<&str>,
    io: &SequenceIo,
    options: ProgramOptions,
    facts: &ExportFacts,
) -> (r: Result<SequenceProgram, String>)
    requires
        valid(*scene),
        facts.starts@.len() == 1,
        meant_resolved(*scene, timeline.sequences@, named(sequence), facts.resolved@),
        ramps_planned(*timeline),
    ensures
        exists|label: &str| #[trigger]
            label@ == scenario_of(*timeline) && match (
                r,
                merged(
                    *scene,
                    seq![(label, timeline)],
                    named(sequence),
                    io@,
                    options,
                    *facts,
                ),
            ) {
                (Ok(p), Ok(w)) => p@ == w,
                (Err(e), Err(w)) => e@ == w,
                _ => false,
            },
{
    let label: &str = match &timeline.scenario {
        Some(s) => s.as_str(),
        None => "baseline",
    };
    let list: [(&str, &SequenceTimeline); 1] = [(label, timeline)];
    assert(list@ =~= seq![(label, timeline)]);
    let r: Result<SequenceProgram, String> = merged_sequence_program(
        scene,
        &list,
        sequence,
        io,
        options,
        facts,
    );
    assert(label@ == scenario_of(*timeline));
    r
}

/// The least of a list of limits is one of them, and none is less; without limits there
/// is none. `i` is any of them.
pub proof fn law_the_least_limit_is_the_smallest(list: Seq<Pico>, n: nat, i: int)
    requires
        n <= list.len(),
    ensures
        0 <= i < n ==> least(list, n) <= list[i],
        n == 0 ==> least(list, n) == i64::MAX,
        n > 0 ==> exists|k: int| 0 <= k < n && least(list, n) == #[trigger] list[k],
    decreases n,
{
    if n > 0 {
        let less = (n - 1) as nat;
        law_the_least_limit_is_the_smallest(list, less, i);
        if least(list, n) == list[n - 1] {
            assert(list[n - 1] == least(list, n));
        } else if less > 0 {
            let k = choose|k: int| 0 <= k < less && least(list, less) == #[trigger] list[k];
            assert(list[k] == least(list, n));
        } else {
            assert(list[n - 1] == i64::MAX);
        }
    }
}

/// A controller program is one robot's: where a sequence is found to drive robot `r`, no
/// action of it drives another one, and one of them drives it. An action that cannot be
/// resolved is an error, and so are two that drive different robots. `k` is any action.
pub proof fn law_a_program_is_one_robots(
    scene: Scene,
    name: Seq<char>,
    actions: Seq<Action>,
    resolved: Seq<Result<usize, String>>,
    driven: Option<usize>,
    i: int,
    k: int,
)
    requires
        0 <= i,
    ensures
        claims(scene, name, actions, resolved, driven, i) matches Ok(r) ==> {
            &&& i <= k < actions.len() ==> (claim(scene, actions, resolved, k) is None || claim(
                scene,
                actions,
                resolved,
                k,
            ) == Some(Ok::<usize, Seq<char>>(r)))
            &&& driven is Some ==> driven == Some(r)
            &&& driven is None ==> exists|j: int|
                i <= j < actions.len() && #[trigger] claim(scene, actions, resolved, j) == Some(
                    Ok::<usize, Seq<char>>(r),
                )
        },
    decreases actions.len() - i,
{
    if i < actions.len() && claims(scene, name, actions, resolved, driven, i) is Ok {
        let r = claims(scene, name, actions, resolved, driven, i)->Ok_0;
        match claim(scene, actions, resolved, i) {
            None => {
                law_a_program_is_one_robots(scene, name, actions, resolved, driven, i + 1, k);
            },
            Some(Ok(d)) => {
                law_a_program_is_one_robots(scene, name, actions, resolved, Some(d), i + 1, k);
                assert(claim(scene, actions, resolved, i) == Some(Ok::<usize, Seq<char>>(r)));
            },
            Some(Err(_)) => {},
        }
    }
}

/// A sequence that is named is meant where the timeline was rolled from it; without a
/// name the one that it was rolled from is, where it is the only one.
pub proof fn law_a_sequence_is_meant_by_name(
    sequences: Seq<String>,
    name: Seq<char>,
)
    ensures
        (exists|i: int| 0 <= i < sequences.len() && (#[trigger] sequences[i])@ == name) ==> meant(
            sequences,
            Some(name),
        ) == Ok::<Seq<char>, Seq<char>>(name),
        (forall|i: int| 0 <= i < sequences.len() ==> (#[trigger] sequences[i])@ != name) ==> meant(
            sequences,
            Some(name),
        ) is Err,
        sequences.len() == 1 ==> meant(sequences, None) == Ok::<Seq<char>, Seq<char>>(
            sequences[0]@,
        ),
        sequences.len() != 1 ==> meant(sequences, None) is Err,
{
    let names = names_of(sequences);
    crate::names::lemma_find(names, name, 0);
    match find(names, name) {
        Some(k) => {
            assert(names[k] == sequences[k]@);
        },
        None => {
            assert forall|i: int| 0 <= i < sequences.len() implies (#[trigger] sequences[i])@
                != name by {
                assert(names[i] == sequences[i]@);
            }
        },
    }
}

/// What a sequence planned and decided is what is recorded under its name, in order, and
/// nothing else.
pub proof fn law_records_are_told_apart_by_sequence(
    planned: Seq<PlannedView>,
    branches: Seq<BranchView>,
    name: Seq<char>,
    n: nat,
)
    requires
        n < planned.len(),
        n < branches.len(),
    ensures
        planned_by(planned, name, 0).len() == 0,
        decided_by(branches, name, 0).len() == 0,
        planned[n as int].sequence == name ==> planned_by(planned, name, n + 1) == planned_by(
            planned,
            name,
            n,
        ).push(planned[n as int]),
        planned[n as int].sequence != name ==> planned_by(planned, name, n + 1) == planned_by(
            planned,
            name,
            n,
        ),
        branches[n as int].sequence == name ==> decided_by(branches, name, n + 1) == decided_by(
            branches,
            name,
            n,
        ).push(branches[n as int]),
        branches[n as int].sequence != name ==> decided_by(branches, name, n + 1) == decided_by(
            branches,
            name,
            n,
        ),
{
}

/// Timelines are of one sweep where all were rolled from the sequences that the first was
/// rolled from; the first one that was not is the odd one.
pub proof fn law_timelines_are_of_one_sweep(
    timelines: Seq<(&str, &SequenceTimeline)>,
    from: int,
    i: int,
)
    requires
        0 <= from,
    ensures
        (forall|j: int|
            from <= j < timelines.len() ==> texts((#[trigger] timelines[j]).1.sequences@) == texts(
                timelines[0].1.sequences@,
            )) ==> odd_timeline(timelines, from) is None,
        from <= i < timelines.len() && texts(timelines[i].1.sequences@) != texts(
            timelines[0].1.sequences@,
        ) && (forall|j: int|
            from <= j < i ==> texts((#[trigger] timelines[j]).1.sequences@) == texts(
                timelines[0].1.sequences@,
            )) ==> odd_timeline(timelines, from) == Some(i),
    decreases timelines.len() - from,
{
    if from < timelines.len() {
        let here = timelines[from];
        law_timelines_are_of_one_sweep(timelines, from + 1, i);
    }
}

/// A program is whole where every record and every decision of every timeline went into
/// it.
pub proof fn law_nothing_is_left_over(sources: Seq<SourceView>, name: Seq<char>, from: int)
    requires
        0 <= from,
    ensures
        left_over(sources, name, from) is None <==> forall|i: int|
            from <= i < sources.len() ==> (#[trigger] sources[i]).planned_next
                >= sources[i].planned.len() && sources[i].decisions_next
                >= sources[i].decisions.len(),
    decreases sources.len() - from,
{
    if from < sources.len() {
        let here = sources[from];
        law_nothing_is_left_over(sources, name, from + 1);
    }
}

/// A program runs its joints at the least of the limits, and its tool at the speed and
/// acceleration asked for, each scaled as asked, rounded down.
pub proof fn law_a_program_runs_at_the_scaled_limits(
    robot: Robot,
    io: IoView,
    options: ProgramOptions,
    facts: ExportFacts,
    sources: Seq<SourceView>,
)
    requires
        0 < options.speed_scale <= 1_000_000_000_000,
        options.tcp_speed > 0,
        options.tcp_accel > 0,
        facts.velocity_limits@.len() > 0,
        facts.acceleration_limits@.len() > 0,
    ensures
        ({
            let l = lowering_start(robot, io, options, facts, sources);
            let s = options.speed_scale as int;
            let v = least(facts.velocity_limits@, facts.velocity_limits@.len());
            let a = least(facts.acceleration_limits@, facts.acceleration_limits@.len());
            &&& scales(l.joint_velocity as int, v as int, s)
            &&& scales(l.joint_acceleration as int, a as int, s)
            &&& scales(l.tcp_velocity as int, options.tcp_speed as int, s)
            &&& scales(l.tcp_acceleration as int, options.tcp_accel as int, s)
            &&& l.blend_radius == options.blend_radius
            &&& l.sources == sources
            &&& l.warnings.len() == 0
            &&& l.step_no == 0
            &&& l.selects_seen == 0
            &&& l.pending_rejoin is None
        }),
{
    let s = options.speed_scale as int;
    lemma_scales(least(facts.velocity_limits@, facts.velocity_limits@.len()) as int, s);
    lemma_scales(least(facts.acceleration_limits@, facts.acceleration_limits@.len()) as int, s);
    lemma_scales(options.tcp_speed as int, s);
    lemma_scales(options.tcp_accel as int, s);
}

/// Whether `y` is `x` scaled by `s` out of 10^12, rounded down.
pub open spec fn scales(y: int, x: int, s: int) -> bool {
    0 <= x * s - 1_000_000_000_000 * y < 1_000_000_000_000
}

proof fn lemma_scales(x: int, s: int)
    requires
        0 < s <= 1_000_000_000_000,
        i64::MIN <= x <= i64::MAX,
    ensures
        scales(clip(muldiv(x, s, UNIT as int)) as int, x, s),
{
    crate::fixed::law_quotients_are_rounded_down(x, s, UNIT as int);
    let q = muldiv(x, s, UNIT as int);
    let u = 1_000_000_000_000int;
    assert(i64::MIN <= q <= i64::MAX) by (nonlinear_arith)
        requires
            0 < s <= u,
            i64::MIN <= x <= i64::MAX,
            u * q <= x * s < u * q + u,
            u == 1_000_000_000_000,
    ;
}

/// A program starts where its first timeline does; where a move to the start is asked for
/// and the first planned move says where it starts, it goes there first, at rest.
pub proof fn law_a_program_starts_where_its_timeline_does(l: LowerView, options: ProgramOptions)
    requires
        l.sources.len() > 0,
    ensures
        ({
            let p = program_start(l, options);
            let planned = l.sources[0].planned;
            let known = planned.len() > 0 && planned[0].segments.len() > 0
                && planned[0].segments[0].waypoints.len() > 0;
            &&& p.l == l
            &&& !options.move_to_start || !known ==> p.out.len() == 0 && p.q == l.sources[0].cur_q
            &&& options.move_to_start && known ==> p.q == planned[0].segments[0].waypoints[0]
                && p.out.len() == 1 && (p.out[0] matches CommandView::MoveJoint {
                q,
                velocity,
                acceleration,
                blend,
            } && q == p.q && velocity == l.joint_velocity && acceleration == l.joint_acceleration
                && blend == 0)
        }),
{
}

/// An action addresses a robot where it drives one that it may name: a ramp, a grasp, a
/// track or its end, or a toolpath.
pub proof fn law_robots_are_addressed_by_what_drives_them(actions: Seq<Action>, n: nat)
    requires
        n < actions.len(),
    ensures
        addressed(actions, 0) == 0,
        addressed(actions, n + 1) == addressed(actions, n) + (match actions[n as int] {
            Action::StartRamp { .. } => 1nat,
            Action::Attach { .. } => 1nat,
            Action::Track { .. } => 1nat,
            Action::Untrack { .. } => 1nat,
            Action::StartToolpath { .. } => 1nat,
            _ => 0nat,
        }),
{
}

/// The actions of steps are told in the order in which they are written: a step's own,
/// then those of its arms, then those of the steps behind it.
pub proof fn law_actions_are_told_as_written(step: Step, more: Seq<Step>, arm: SelectArm, arms: Seq<SelectArm>)
    ensures
        actions_in(seq![]).len() == 0,
        actions_in_arms(seq![]).len() == 0,
        actions_in(seq![step] + more) == step.actions@ + actions_in_arms(step.select@) + actions_in(
            more,
        ),
        actions_in_arms(seq![arm] + arms) == actions_in(arm.steps@) + actions_in_arms(arms),
{
    assert((seq![step] + more).drop_first() =~= more);
    assert((seq![step] + more)[0] == step);
    assert((seq![arm] + arms).drop_first() =~= arms);
    assert((seq![arm] + arms)[0] == arm);
}

/// Each timeline gives a cursor at its start, over what its robot planned and decided for
/// the sequence, from where the robot starts; one without a track of the robot is an error.
/// `k` is the first track of the robot's name.
pub proof fn law_each_timeline_gives_a_cursor(
    sources: Seq<SourceView>,
    timelines: Seq<(&str, &SequenceTimeline)>,
    name: Seq<char>,
    robot: Seq<char>,
    starts: Seq<Vec<Pico>>,
    from: int,
    k: int,
)
    requires
        0 <= from < timelines.len(),
    ensures
        ({
            let timeline = timelines[from].1;
            let r = sources_of(sources, timelines, name, robot, starts, from);
            &&& (forall|j: int|
                0 <= j < timeline.robots@.len() ==> (#[trigger] timeline.robots@[j]).name@
                    != robot) ==> r is Err
            &&& 0 <= k < timeline.robots@.len() && timeline.robots@[k].name@ == robot && (forall|
                j: int,
            |
                0 <= j < k ==> (#[trigger] timeline.robots@[j]).name@ != robot) ==> {
                let planned = views(timeline.robots@[k].planned@);
                let branches = views(timeline.branches@);
                r == sources_of(
                    sources.push(
                        SourceView {
                            scenario: timelines[from].0@,
                            planned: planned_by(planned, name, planned.len()),
                            planned_next: 0,
                            decisions: decided_by(branches, name, branches.len()),
                            decisions_next: 0,
                            cur_q: starts[from]@,
                        },
                    ),
                    timelines,
                    name,
                    robot,
                    starts,
                    from + 1,
                )
            }
        }),
        sources_of(sources, timelines, name, robot, starts, timelines.len() as int) == Ok::<
            Seq<SourceView>,
            Seq<char>,
        >(sources),
{
    crate::names::law_a_name_stands_for_the_first(timelines[from].1.robots@, robot, k);
}

} // verus!
