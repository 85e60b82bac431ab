//! Rolling a scene's sequences out.

use vstd::prelude::*;

use crate::engine::{begun, runnable, Run, RunView};
use crate::error::{ErrorView, SeqError};
use crate::names::{find, find_named, names_of, same};
use crate::rollout::RolloutOptions;
use crate::scene::Scene;
use crate::seq::Sequence;
use crate::setup::valid;
use crate::text::cat3;

verus! {

/// What is wrong with a sequence, and in which of its steps.
#[derive(Debug)]
pub struct SequenceFault {
    pub step: Option<usize>,
    pub message: String,
}

/// Whether the name at `i` was listed before.
pub open spec fn listed_before(names: Seq<&str>, i: int) -> bool {
    exists|j: int| 0 <= j < i && (#[trigger] names[j])@ == names[i]@
}

/// Why the sequences named from `i` on cannot be run, if they cannot: the
/// first one that is listed twice, unknown, or at fault.
pub open spec fn refusal(
    scene: Scene,
    names: Seq<&str>,
    faults: Seq<Option<SequenceFault>>,
    i: int,
) -> Option<ErrorView>
    decreases names.len() - i,
{
    if i < 0 || i >= names.len() {
        None
    } else if listed_before(names, i) {
        Some(
            ErrorView::Validation {
                step: None,
                message: "sequence `"@ + names[i]@ + "` is listed twice"@,
            },
        )
    } else if find(names_of(scene.sequences@), names[i]@) is None {
        Some(ErrorView::UnknownSequence(names[i]@))
    } else {
        match faults[i] {
            Some(fault) => Some(
                ErrorView::Validation {
                    step: fault.step,
                    message: if names.len() == 1 {
                        fault.message@
                    } else {
                        "sequence `"@ + names[i]@ + "`: "@ + fault.message@
                    },
                },
            ),
            None => refusal(scene, names, faults, i + 1),
        }
    }
}

/// Why a set of sequences cannot be run together, if it cannot. `faults[i]`
/// is what is wrong with the sequence at `i`, `shared` what two of them both
/// drive.
pub open spec fn start_refusal(
    scene: Scene,
    names: Seq<&str>,
    faults: Seq<Option<SequenceFault>>,
    shared: Option<String>,
) -> Option<ErrorView> {
    if names.len() == 0 {
        Some(ErrorView::Validation { step: None, message: "no sequences to simulate"@ })
    } else {
        match refusal(scene, names, faults, 0) {
            Some(e) => Some(e),
            None => match shared {
                Some(message) => if names.len() > 1 {
                    Some(ErrorView::Validation { step: None, message: message@ })
                } else {
                    None
                },
                None => None,
            },
        }
    }
}

/// The sequences of the given names.
pub open spec fn named_sequences(scene: Scene, names: Seq<&str>) -> Seq<&Sequence> {
    Seq::new(
        names.len(),
        |i: int| &scene.sequences@[find(names_of(scene.sequences@), names[i]@)->0],
    )
}

/// Whether a start is what was to come.
pub open spec fn starts_as<'a>(
    r: Result<Run<'a>, SeqError>,
    why: Option<ErrorView>,
    want: RunView,
) -> bool {
    match (r, why) {
        (Ok(run), None) => run@ == want && run@.sound(),
        (Err(e), Some(w)) => e@ == w,
        _ => false,
    }
}

/// A scene that the named sequences can be rolled out over: its parts refer to
/// parts that are there, and a sequence in which no fault was found has steps.
pub open spec fn rollable(scene: Scene, names: Seq<&str>, faults: Seq<Option<SequenceFault>>) -> bool {
    &&& valid(scene)
    &&& faults.len() == names.len()
    &&& forall|i: int|
        0 <= i < names.len() && (#[trigger] faults[i]) is None ==> (find(
            names_of(scene.sequences@),
            names[i]@,
        ) matches Some(k) ==> runnable(scene.sequences@[k]))
}

/// Whether a scenario means the scene as it stands.
pub open spec fn is_baseline(scenario: Option<&str>) -> bool {
    scenario matches Some(s) ==> s@ == "baseline"@
}

fn is_listed_before(names: &[&str], i: usize) -> (r: bool)
    requires
        i < names@.len(),
    ensures
        r == listed_before(names@, i as int),
{
    let mut j: usize = 0;
    while j < i
        invariant
            j <= i < names@.len(),
            forall|k: int| 0 <= k < j ==> (#[trigger] names@[k])@ != names@[i as int]@,
        decreases i - j,
    {
        if same(names[j], names[i]) {
            assert(names@[j as int]@ == names@[i as int]@);
            return true;
        }
        j = j + 1;
    }
    false
}

impl Scene {
    /// Starts the rollout of one sequence.
    pub fn simulate_sequence<'a>(
        &'a self,
        name: &str,
        options: RolloutOptions,
        faults: &Vec<Option<SequenceFault>>,
    ) -> (r: Result<Run<'a>, SeqError>)
        requires
            rollable(*self, seq![name], faults@),
            options.dt > 0,
        ensures
            starts_as(
                r,
                start_refusal(*self, seq![name], faults@, None),
                begun(*self, named_sequences(*self, seq![name]), options, None),
            ),
    {
        let names: [&str; 1] = [name];
        assert(names@ =~= seq![name]);
        self.simulate_sequences(&names, options, faults, &None)
    }

    /// Starts the rollout of several sequences over one shared world: every
    /// tick advances every program, in the order given here. `faults` is what
    /// validating each sequence found, `shared` what checking that no two
    /// drive one thing found.
    pub fn simulate_sequences<'a>(
        &'a self,
        names: &[&str],
        options: RolloutOptions,
        faults: &Vec<Option<SequenceFault>>,
        shared: &Option<String>,
    ) -> (r: Result<Run<'a>, SeqError>)
        requires
            rollable(*self, names@, faults@),
            options.dt > 0,
        ensures
            starts_as(
                r,
                start_refusal(*self, names@, faults@, *shared),
                begun(*self, named_sequences(*self, names@), options, None),
            ),
    {
        if names.len() == 0 {
            return Err(
                SeqError::Validation {
                    step: None,
                    message: String::from_str("no sequences to simulate"),
                },
            );
        }
        let ghost want = named_sequences(*self, names@);
        let mut sequences: Vec<&'a Sequence> = Vec::new();
        let mut i: usize = 0;
        while i < names.len()
            invariant
                i <= names@.len(),
                names@.len() > 0,
                rollable(*self, names@, faults@),
                want == named_sequences(*self, names@),
                sequences@ == want.take(i as int),
                forall|k: int| 0 <= k < sequences@.len() ==> runnable(*#[trigger] sequences@[k]),
                refusal(*self, names@, faults@, 0) == refusal(
                    *self,
                    names@,
                    faults@,
                    i as int,
                ),
            decreases names@.len() - i,
        {
            let name: &str = names[i];
            if is_listed_before(names, i) {
                return Err(
                    SeqError::Validation {
                        step: None,
                        message: cat3("sequence `", name, "` is listed twice"),
                    },
                );
            }
            let k: usize = match find_named(&self.sequences, name) {
                Some(k) => k,
                None => {
                    return Err(SeqError::UnknownSequence(String::from_str(name)));
                },
            };
            match &faults[i] {
                Some(fault) => {
                    return Err(
                        SeqError::Validation {
                            step: fault.step,
                            message: if names.len() == 1 {
                                fault.message.clone()
                            } else {
                                let mut message: String = cat3("sequence `", name, "`: ");
                                message.append(fault.message.as_str());
                                message
                            },
                        },
                    );
                },
                None => {},
            }
            assert(faults@[i as int] is None);
            sequences.push(&self.sequences[k]);
            i = i + 1;
            assert(sequences@ =~= want.take(i as int));
        }
        assert(sequences@ =~= want);
        if names.len() > 1 {
            match shared {
                Some(message) => {
                    return Err(
                        SeqError::Validation { step: None, message: message.clone() },
                    );
                },
                None => {},
            }
        }
        Ok(Run::new(self, &sequences, options, None))
    }

    /// Starts the rollout of several sequences under a named scenario.
    /// `applied` is what applying its deltas to a snapshot of the scene gave;
    /// the scene itself is never touched. No scenario and `baseline` both mean
    /// the scene as it stands.
    pub fn simulate_sequences_scenario<'a>(
        &'a self,
        names: &[&str],
        scenario: Option<&str>,
        applied: Result<&'a Scene, String>,
        options: RolloutOptions,
        faults: &Vec<Option<SequenceFault>>,
        shared: &Option<String>,
    ) -> (r: Result<Run<'a>, SeqError>)
        requires
            is_baseline(scenario) ==> rollable(*self, names@, faults@),
            !is_baseline(scenario) ==> (applied matches Ok(snapshot) ==> rollable(
                *snapshot,
                names@,
                faults@,
            )),
            options.dt > 0,
        ensures
            match scenario {
                Some(s) if !is_baseline(scenario) => match applied {
                    Err(message) => r matches Err(e) && e@ == (ErrorView::Validation {
                        step: None,
                        message: message@,
                    }),
                    Ok(snapshot) => match (r, start_refusal(
                        *snapshot,
                        names@,
                        faults@,
                        *shared,
                    )) {
                        (Ok(run), None) => {
                            &&& run.scenario matches Some(name) && name@ == s@
                            &&& run@ == (RunView {
                                scenario: run.scenario,
                                ..begun(
                                    *snapshot,
                                    named_sequences(*snapshot, names@),
                                    options,
                                    None,
                                )
                            })
                            &&& run@.sound()
                        },
                        (Err(e), Some(w)) => e@ == w,
                        _ => false,
                    },
                },
                _ => starts_as(
                    r,
                    start_refusal(*self, names@, faults@, *shared),
                    begun(*self, named_sequences(*self, names@), options, None),
                ),
            },
    {
        match scenario {
            Some(s) => {
                if !same(s, "baseline") {
                    return match applied {
                        Err(message) => Err(SeqError::Validation { step: None, message }),
                        Ok(snapshot) => match snapshot.simulate_sequences(
                            names,
                            options,
                            faults,
                            shared,
                        ) {
                            Ok(run) => {
                                let ghost before = run@;
                                let mut run: Run<'a> = run;
                                run.scenario = Some(String::from_str(s));
                                assert(run@ =~= (RunView { scenario: run.scenario, ..before }));
                                Ok(run)
                            },
                            Err(e) => Err(e),
                        },
                    };
                }
            },
            None => {},
        }
        self.simulate_sequences(names, options, faults, shared)
    }
}

/// Whether nothing is wrong with the sequence at `i`: no fault was found in it, it is not
/// listed before, and the scene has it.
pub open spec fn can_run(
    scene: Scene,
    names: Seq<&str>,
    faults: Seq<Option<SequenceFault>>,
    i: int,
) -> bool {
    &&& faults[i] is None
    &&& forall|j: int| 0 <= j < i ==> (#[trigger] names[j])@ != names[i]@
    &&& exists|k: int|
        0 <= k < scene.sequences@.len() && (#[trigger] scene.sequences@[k]).name@ == names[i]@
}

/// Sequences are run where each is there, listed once and without a fault; no sequence,
/// and several that drive one thing, are not run.
pub proof fn law_sequences_run_where_nothing_is_wrong_with_them(
    scene: Scene,
    names: Seq<&str>,
    faults: Seq<Option<SequenceFault>>,
    shared: Option<String>,
)
    ensures
        start_refusal(scene, names, faults, shared) is None <==> names.len() > 0 && (forall|i: int|
            0 <= i < names.len() ==> #[trigger] can_run(scene, names, faults, i)) && (shared is None
            || names.len() == 1),
{
    lemma_refusal(scene, names, faults, 0);
}

proof fn lemma_refusal(
    scene: Scene,
    names: Seq<&str>,
    faults: Seq<Option<SequenceFault>>,
    from: int,
)
    requires
        0 <= from,
    ensures
        refusal(scene, names, faults, from) is None <==> forall|i: int|
            from <= i < names.len() ==> #[trigger] can_run(scene, names, faults, i),
    decreases names.len() - from,
{
    if from < names.len() {
        lemma_refusal(scene, names, faults, from + 1);
        let all = names_of(scene.sequences@);
        let name = names[from]@;
        crate::names::lemma_find(all, name, 0);
        let here = can_run(scene, names, faults, from);
        if listed_before(names, from) {
            let j = choose|j: int| 0 <= j < from && (#[trigger] names[j])@ == name;
            assert(names[j]@ == name);
        }
        match find(all, name) {
            Some(k) => {
                assert(scene.sequences@[k].name@ == all[k]);
            },
            None => {
                assert forall|k: int| 0 <= k < scene.sequences@.len() implies (
                #[trigger] scene.sequences@[k]).name@ != name by {
                    assert(all[k] == scene.sequences@[k].name@);
                }
            },
        }
        assert(here <==> faults[from] is None && !listed_before(names, from) && find(all, name)
            is Some);
    }
}

/// The first sequence that is wrong is what is reported: one that is listed again, then
/// one that is not there, then one at fault.
pub proof fn law_the_first_wrong_sequence_is_named(
    scene: Scene,
    names: Seq<&str>,
    faults: Seq<Option<SequenceFault>>,
    i: int,
)
    requires
        0 <= i < names.len(),
    ensures
        ({
            let r = refusal(scene, names, faults, i);
            let known = find(names_of(scene.sequences@), names[i]@) is Some;
            &&& listed_before(names, i) ==> (r matches Some(e) && e is Validation)
            &&& !listed_before(names, i) && !known ==> r == Some(
                ErrorView::UnknownSequence(names[i]@),
            )
            &&& !listed_before(names, i) && known && faults[i] is Some ==> (r matches Some(e) && (
            e matches ErrorView::Validation { step, .. } && step == (faults[i]->0).step))
            &&& !listed_before(names, i) && known && faults[i] is None ==> r == refusal(
                scene,
                names,
                faults,
                i + 1,
            )
        }),
{
}

} // verus!
