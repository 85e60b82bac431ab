//! Branch coverage over a set of timelines.

use vstd::prelude::*;

use crate::names::{find, find_named, names_of, same};
use crate::scene::Scene;
use crate::seq::{deref_steps, enumerate_selects, selects_of_steps, Sequence, Step};
use crate::text::{cat3, cat5, decimal, decimal_text, join, joined, same_texts, texts};
use crate::timeline::{BranchTaken, SequenceTimeline};
use crate::views::views;

verus! {

/// An arm that no timeline took: an authored path that was never exercised,
/// and therefore never verified.
#[derive(Debug)]
pub struct UncoveredArm {
    pub sequence: String,
    /// The branching step's name.
    pub step: String,
    /// Its pre-order ordinal within the sequence.
    pub select: usize,
    /// The arm, in authored order.
    pub arm: usize,
    /// The arm's guard, as it is written.
    pub condition: String,
}

#[verifier::ext_equal]
pub struct UncoveredView {
    pub sequence: Seq<char>,
    pub step: Seq<char>,
    pub select: usize,
    pub arm: usize,
    pub condition: Seq<char>,
}

impl View for UncoveredArm {
    type V = UncoveredView;

    open spec fn view(&self) -> UncoveredView {
        UncoveredView {
            sequence: self.sequence@,
            step: self.step@,
            select: self.select,
            arm: self.arm,
            condition: self.condition@,
        }
    }
}

impl UncoveredArm {
    /// The arm in words, arms counted from one.
    pub fn text(&self) -> (r: String)
        requires
            self.arm < usize::MAX,
        ensures
            r@ == "`"@ + self.sequence@ + "` step `"@ + self.step@ + "` arm "@ + decimal(
                (self.arm + 1) as nat,
            ) + " (when "@ + self.condition@ + ")"@,
    {
        let mut s: String = cat5(
            "`",
            self.sequence.as_str(),
            "` step `",
            self.step.as_str(),
            "` arm ",
        );
        s.append(decimal_text((self.arm + 1) as u64).as_str());
        s.append(" (when ");
        s.append(self.condition.as_str());
        s.append(")");
        s
    }
}

/// Whether one timeline took an arm.
pub open spec fn took_arm(timeline: SequenceTimeline, name: Seq<char>, select: int, arm: int) -> bool {
    exists|b: int|
        0 <= b < timeline.branches@.len() && (#[trigger] timeline.branches@[b]).sequence@ == name
            && timeline.branches@[b].select == select && timeline.branches@[b].arm == arm
}

/// Whether any of the timelines took an arm.
pub open spec fn covered_arm(
    timelines: Seq<&SequenceTimeline>,
    name: Seq<char>,
    select: int,
    arm: int,
) -> bool {
    exists|t: int|
        0 <= t < timelines.len() && took_arm(*(#[trigger] timelines[t]), name, select, arm)
}

/// The first `n` arms of a branching step that no timeline took.
pub open spec fn missed_arms(
    timelines: Seq<&SequenceTimeline>,
    name: Seq<char>,
    step: Step,
    select: int,
    guards: Seq<String>,
    n: nat,
) -> Seq<UncoveredView>
    decreases n,
{
    if n == 0 {
        Seq::empty()
    } else {
        let less = missed_arms(timelines, name, step, select, guards, (n - 1) as nat);
        if covered_arm(timelines, name, select, n - 1) {
            less
        } else {
            less.push(
                UncoveredView {
                    sequence: name,
                    step: step.name@,
                    select: select as usize,
                    arm: (n - 1) as usize,
                    condition: guards[n - 1]@,
                },
            )
        }
    }
}

/// The arms of a sequence's first `n` branching steps that no timeline took.
pub open spec fn missed_selects(
    timelines: Seq<&SequenceTimeline>,
    name: Seq<char>,
    steps: Seq<Step>,
    guards: Seq<Vec<String>>,
    n: nat,
) -> Seq<UncoveredView>
    decreases n,
{
    if n == 0 {
        Seq::empty()
    } else {
        missed_selects(timelines, name, steps, guards, (n - 1) as nat) + missed_arms(
            timelines,
            name,
            steps[n - 1],
            n - 1,
            guards[n - 1]@,
            steps[n - 1].select@.len(),
        )
    }
}

/// What the first `n` sequences of a set leave uncovered; none where one of
/// them is not there.
pub open spec fn missed_in(
    scene: Scene,
    timelines: Seq<&SequenceTimeline>,
    names: Seq<String>,
    guards: Seq<Vec<Vec<String>>>,
    n: nat,
) -> Result<Seq<UncoveredView>, Seq<char>>
    decreases n,
{
    if n == 0 {
        Ok(Seq::empty())
    } else {
        match missed_in(scene, timelines, names, guards, (n - 1) as nat) {
            Err(e) => Err(e),
            Ok(less) => match find(names_of(scene.sequences@), names[n - 1]@) {
                None => Err("the scene no longer holds sequence `"@ + names[n - 1]@ + "`"@),
                Some(k) => {
                    let selects = selects_of_steps(scene.sequences@[k].steps@);
                    Ok(
                        less + missed_selects(
                            timelines,
                            names[n - 1]@,
                            selects,
                            guards[k]@,
                            selects.len(),
                        ),
                    )
                },
            },
        }
    }
}

/// The first timeline, from `from` on, that was rolled from another set of
/// sequences than the first.
pub open spec fn odd_one(timelines: Seq<&SequenceTimeline>, from: int) -> Option<int>
    decreases timelines.len() - from,
{
    if from < 0 || from >= timelines.len() {
        None
    } else if texts(timelines[from].sequences@) != texts(timelines[0].sequences@) {
        Some(from)
    } else {
        odd_one(timelines, from + 1)
    }
}

/// Branch coverage: every authored arm, nested ones too, that no timeline
/// took, in enumeration order.
pub open spec fn coverage_of(
    scene: Scene,
    timelines: Seq<&SequenceTimeline>,
    guards: Seq<Vec<Vec<String>>>,
) -> Result<Seq<UncoveredView>, Seq<char>> {
    if timelines.len() == 0 {
        Err("no timelines to measure coverage over"@)
    } else {
        match odd_one(timelines, 0) {
            Some(t) => Err(
                "timelines were rolled from different sequence sets (`"@ + joined(
                    texts(timelines[0].sequences@),
                    " + "@,
                ) + "` vs `"@ + joined(texts(timelines[t].sequences@), " + "@)
                    + "`) — coverage is per set"@,
            ),
            None => missed_in(
                scene,
                timelines,
                timelines[0].sequences@,
                guards,
                timelines[0].sequences@.len(),
            ),
        }
    }
}

/// There is a guard's text for every arm of every sequence.
pub open spec fn guards_fit(scene: Scene, guards: Seq<Vec<Vec<String>>>) -> bool {
    &&& guards.len() == scene.sequences@.len()
    &&& forall|k: int|
        0 <= k < guards.len() ==> guards_of(
            scene.sequences@[k],
            (#[trigger] guards[k])@,
        )
}

/// There is a guard's text for every arm of a sequence.
pub open spec fn guards_of(sequence: Sequence, guards: Seq<Vec<String>>) -> bool {
    let selects = selects_of_steps(sequence.steps@);
    guards.len() == selects.len() && forall|i: int|
        0 <= i < guards.len() ==> (#[trigger] guards[i])@.len() == selects[i].select@.len()
}

impl SequenceTimeline {
    fn took(&self, name: &str, select: usize, arm: usize) -> (r: bool)
        ensures
            r == took_arm(*self, name@, select as int, arm as int),
    {
        let mut b: usize = 0;
        while b < self.branches.len()
            invariant
                b <= self.branches.len(),
                forall|k: int|
                    0 <= k < b ==> !((#[trigger] self.branches@[k]).sequence@ == name@
                        && self.branches@[k].select == select && self.branches@[k].arm == arm),
            decreases self.branches.len() - b,
        {
            let taken: &BranchTaken = &self.branches[b];
            if taken.select == select && taken.arm == arm && same(taken.sequence.as_str(), name) {
                assert(self.branches@[b as int].sequence@ == name@);
                return true;
            }
            b = b + 1;
        }
        false
    }
}

fn is_covered(timelines: &[&SequenceTimeline], name: &str, select: usize, arm: usize) -> (r: bool)
    ensures
        r == covered_arm(timelines@, name@, select as int, arm as int),
{
    let mut t: usize = 0;
    while t < timelines.len()
        invariant
            t <= timelines@.len(),
            forall|k: int|
                0 <= k < t ==> !took_arm(
                    *(#[trigger] timelines@[k]),
                    name@,
                    select as int,
                    arm as int,
                ),
        decreases timelines@.len() - t,
    {
        if timelines[t].took(name, select, arm) {
            assert(took_arm(*timelines@[t as int], name@, select as int, arm as int));
            return true;
        }
        t = t + 1;
    }
    false
}

fn push_missed(
    out: &mut Vec<UncoveredArm>,
    timelines: &[&SequenceTimeline],
    sequence: &String,
    steps: &Vec<Step>,
    guards: &Vec<Vec<String>>,
)
    requires
        ({
            let selects = selects_of_steps(steps@);
            &&& guards@.len() == selects.len()
            &&& forall|i: int|
                0 <= i < guards@.len() ==> (#[trigger] guards@[i])@.len()
                    == selects[i].select@.len()
        }),
    ensures
        views(final(out)@) == views(old(out)@) + missed_selects(
            timelines@,
            sequence@,
            selects_of_steps(steps@),
            guards@,
            selects_of_steps(steps@).len(),
        ),
{
    let ghost start = views(out@);
    let ghost selects = selects_of_steps(steps@);
    let list: Vec<&Step> = enumerate_selects(steps);
    assert(list@.len() == deref_steps(list@).len());
    let mut n: usize = 0;
    assert(views(out@) =~= start + missed_selects(timelines@, sequence@, selects, guards@, 0));
    while n < list.len()
        invariant
            n <= list.len(),
            list@.len() == selects.len(),
            deref_steps(list@) == selects,
            guards@.len() == selects.len(),
            forall|i: int|
                0 <= i < guards@.len() ==> (#[trigger] guards@[i])@.len()
                    == selects[i].select@.len(),
            views(out@) == start + missed_selects(
                timelines@,
                sequence@,
                selects,
                guards@,
                n as nat,
            ),
        decreases list.len() - n,
    {
        let ghost before = views(out@);
        let step: &Step = list[n];
        assert(selects[n as int] == *step);
        assert(guards@[n as int]@.len() == step.select@.len());
        let mut a: usize = 0;
        assert(views(out@) =~= before + missed_arms(
            timelines@,
            sequence@,
            *step,
            n as int,
            guards@[n as int]@,
            0,
        ));
        while a < step.select.len()
            invariant
                a <= step.select.len(),
                n < guards@.len(),
                guards@[n as int]@.len() == step.select@.len(),
                views(out@) == before + missed_arms(
                    timelines@,
                    sequence@,
                    *step,
                    n as int,
                    guards@[n as int]@,
                    a as nat,
                ),
            decreases step.select.len() - a,
        {
            if !is_covered(timelines, sequence.as_str(), n, a) {
                let ghost mid = views(out@);
                let arm: UncoveredArm = UncoveredArm {
                    sequence: sequence.clone(),
                    step: step.name.clone(),
                    select: n,
                    arm: a,
                    condition: guards[n][a].clone(),
                };
                let ghost seen = arm@;
                out.push(arm);
                assert(views(out@) =~= mid.push(seen));
                assert(views(out@) =~= before + missed_arms(
                    timelines@,
                    sequence@,
                    *step,
                    n as int,
                    guards@[n as int]@,
                    (a + 1) as nat,
                ));
            }
            a = a + 1;
        }
        n = n + 1;
        assert(views(out@) =~= start + missed_selects(
            timelines@,
            sequence@,
            selects,
            guards@,
            n as nat,
        ));
    }
}

proof fn lemma_missing_sequence(
    scene: Scene,
    timelines: Seq<&SequenceTimeline>,
    names: Seq<String>,
    guards: Seq<Vec<Vec<String>>>,
    k: nat,
    n: nat,
)
    requires
        k <= n,
        missed_in(scene, timelines, names, guards, k) is Err,
    ensures
        missed_in(scene, timelines, names, guards, n) == missed_in(
            scene,
            timelines,
            names,
            guards,
            k,
        ),
    decreases n - k,
{
    if k < n {
        lemma_missing_sequence(scene, timelines, names, guards, k, (n - 1) as nat);
    }
}

/// Branch coverage over a set of timelines: every authored arm minus the union
/// of what the runs took. An empty list means that every path was exercised.
/// Every timeline must come from the same set of sequences. `guards[k][i][a]`
/// is how the guard of arm `a` of the `i`th branching step of sequence `k` of
/// the scene is written.
pub fn arm_coverage(
    scene: &Scene,
    timelines: &[&SequenceTimeline],
    guards: &Vec<Vec<Vec<String>>>,
) -> (r: Result<Vec<UncoveredArm>, String>)
    requires
        guards_fit(*scene, guards@),
    ensures
        match (r, coverage_of(*scene, timelines@, guards@)) {
            (Ok(list), Ok(want)) => views(list@) == want,
            (Err(message), Err(want)) => message@ == want,
            _ => false,
        },
{
    if timelines.len() == 0 {
        return Err(String::from_str("no timelines to measure coverage over"));
    }
    let first: &SequenceTimeline = timelines[0];
    let mut t: usize = 0;
    while t < timelines.len()
        invariant
            t <= timelines@.len(),
            timelines@.len() > 0,
            *first == *timelines@[0],
            odd_one(timelines@, 0) == odd_one(timelines@, t as int),
        decreases timelines@.len() - t,
    {
        if !same_texts(&timelines[t].sequences, &first.sequences) {
            return Err(
                cat5(
                    "timelines were rolled from different sequence sets (`",
                    join(&first.sequences, " + ").as_str(),
                    "` vs `",
                    join(&timelines[t].sequences, " + ").as_str(),
                    "`) — coverage is per set",
                ),
            );
        }
        t = t + 1;
    }
    let mut out: Vec<UncoveredArm> = Vec::new();
    let ghost names = first.sequences@;
    let mut n: usize = 0;
    assert(views(out@) =~= Seq::<UncoveredView>::empty());
    while n < first.sequences.len()
        invariant
            n <= first.sequences.len(),
            names == first.sequences@,
            timelines@.len() > 0,
            *first == *timelines@[0],
            odd_one(timelines@, 0) is None,
            guards_fit(*scene, guards@),
            missed_in(*scene, timelines@, names, guards@, n as nat) == Ok::<
                Seq<UncoveredView>,
                Seq<char>,
            >(views(out@)),
        decreases first.sequences.len() - n,
    {
        let name: &String = &first.sequences[n];
        match find_named(&scene.sequences, name.as_str()) {
            Some(k) => {
                assert(guards_of(scene.sequences@[k as int], guards@[k as int]@));
                push_missed(&mut out, timelines, name, &scene.sequences[k].steps, &guards[k]);
            },
            None => {
                proof {
                    lemma_missing_sequence(
                        *scene,
                        timelines@,
                        names,
                        guards@,
                        (n + 1) as nat,
                        names.len(),
                    );
                }
                return Err(
                    cat3("the scene no longer holds sequence `", name.as_str(), "`"),
                );
            },
        }
        n = n + 1;
    }
    Ok(out)
}

/// Adding a timeline never uncovers an arm.
pub proof fn law_more_runs_cover_more(
    timelines: Seq<&SequenceTimeline>,
    more: &SequenceTimeline,
    name: Seq<char>,
    select: int,
    arm: int,
)
    requires
        covered_arm(timelines, name, select, arm),
    ensures
        covered_arm(timelines.push(more), name, select, arm),
{
    let t = choose|t: int|
        0 <= t < timelines.len() && took_arm(*(#[trigger] timelines[t]), name, select, arm);
    assert(timelines.push(more)[t] == timelines[t]);
}

/// A report names an arm of a step exactly where no timeline took it.
pub proof fn law_report_names_what_no_run_took(
    timelines: Seq<&SequenceTimeline>,
    name: Seq<char>,
    step: Step,
    select: int,
    guards: Seq<String>,
    n: nat,
    arm: int,
)
    requires
        0 <= arm < n <= usize::MAX,
        0 <= select <= usize::MAX,
    ensures
        !covered_arm(timelines, name, select, arm) <==> missed_arms(
            timelines,
            name,
            step,
            select,
            guards,
            n,
        ).contains(
            UncoveredView {
                sequence: name,
                step: step.name@,
                select: select as usize,
                arm: arm as usize,
                condition: guards[arm]@,
            },
        ),
    decreases n,
{
    let less = missed_arms(timelines, name, step, select, guards, (n - 1) as nat);
    let all = missed_arms(timelines, name, step, select, guards, n);
    let it = UncoveredView {
        sequence: name,
        step: step.name@,
        select: select as usize,
        arm: arm as usize,
        condition: guards[arm]@,
    };
    lemma_missed_before(timelines, name, step, select, guards, (n - 1) as nat);
    if arm < n - 1 {
        law_report_names_what_no_run_took(
            timelines,
            name,
            step,
            select,
            guards,
            (n - 1) as nat,
            arm,
        );
        if less.contains(it) {
            let i = choose|i: int| 0 <= i < less.len() && less[i] == it;
            assert(all[i] == it);
        }
        if all.contains(it) {
            let i = choose|i: int| 0 <= i < all.len() && all[i] == it;
            assert(less[i] == it);
        }
    } else {
        if !covered_arm(timelines, name, select, arm) {
            assert(all.last() == it);
            assert(all[all.len() - 1] == it);
        } else if all.contains(it) {
            let i = choose|i: int| 0 <= i < all.len() && all[i] == it;
            assert(less[i].arm < n - 1);
        }
    }
}

proof fn lemma_missed_before(
    timelines: Seq<&SequenceTimeline>,
    name: Seq<char>,
    step: Step,
    select: int,
    guards: Seq<String>,
    n: nat,
)
    requires
        n <= usize::MAX,
    ensures
        forall|i: int|
            0 <= i < missed_arms(timelines, name, step, select, guards, n).len() ==> (
            #[trigger] missed_arms(timelines, name, step, select, guards, n)[i]).arm < n,
    decreases n,
{
    if n > 0 {
        lemma_missed_before(timelines, name, step, select, guards, (n - 1) as nat);
        let less = missed_arms(timelines, name, step, select, guards, (n - 1) as nat);
        let all = missed_arms(timelines, name, step, select, guards, n);
        assert forall|i: int| 0 <= i < all.len() implies (#[trigger] all[i]).arm < n by {
            if i < less.len() {
                assert(all[i] == less[i]);
            }
        }
    }
}

/// Whether `a` is what is left of `b` once some of it is struck out.
pub open spec fn part_of(a: Seq<UncoveredView>, b: Seq<UncoveredView>) -> bool
    decreases b.len(),
{
    if a.len() == 0 {
        true
    } else if b.len() == 0 {
        false
    } else {
        ||| a.last() == b.last() && part_of(a.drop_last(), b.drop_last())
        ||| part_of(a, b.drop_last())
    }
}

/// Whether every arm that some of `less` took, some of `more` took.
pub open spec fn covers_as_much(
    more: Seq<&SequenceTimeline>,
    less: Seq<&SequenceTimeline>,
) -> bool {
    forall|name: Seq<char>, select: int, arm: int| #[trigger]
        covered_arm(less, name, select, arm) ==> covered_arm(more, name, select, arm)
}

proof fn lemma_part_longer(a: Seq<UncoveredView>, b: Seq<UncoveredView>, x: UncoveredView)
    requires
        part_of(a, b),
    ensures
        part_of(a, b.push(x)),
        part_of(a.push(x), b.push(x)),
{
    assert(b.push(x).drop_last() =~= b);
    assert(a.push(x).drop_last() =~= a);
}

proof fn lemma_parts_joined(
    a: Seq<UncoveredView>,
    b: Seq<UncoveredView>,
    c: Seq<UncoveredView>,
    d: Seq<UncoveredView>,
)
    requires
        part_of(a, b),
        part_of(c, d),
    ensures
        part_of(a + c, b + d),
    decreases d.len(),
{
    if d.len() == 0 {
        assert(a + c =~= a);
        assert(b + d =~= b);
    } else {
        let less = d.drop_last();
        assert(b + d =~= (b + less).push(d.last()));
        if c.len() == 0 {
            assert(part_of(c, less));
            lemma_parts_joined(a, b, c, less);
            lemma_part_longer(a + c, b + less, d.last());
        } else if part_of(c, less) {
            lemma_parts_joined(a, b, c, less);
            lemma_part_longer(a + c, b + less, d.last());
        } else {
            lemma_parts_joined(a, b, c.drop_last(), less);
            lemma_part_longer(a + c.drop_last(), b + less, d.last());
            assert((a + c.drop_last()).push(d.last()) =~= a + c);
        }
    }
}

proof fn lemma_arms_shrink(
    more: Seq<&SequenceTimeline>,
    less: Seq<&SequenceTimeline>,
    name: Seq<char>,
    step: Step,
    select: int,
    guards: Seq<String>,
    n: nat,
)
    requires
        covers_as_much(more, less),
    ensures
        part_of(
            missed_arms(more, name, step, select, guards, n),
            missed_arms(less, name, step, select, guards, n),
        ),
    decreases n,
{
    if n > 0 {
        lemma_arms_shrink(more, less, name, step, select, guards, (n - 1) as nat);
        let a = missed_arms(more, name, step, select, guards, (n - 1) as nat);
        let b = missed_arms(less, name, step, select, guards, (n - 1) as nat);
        let it = UncoveredView {
            sequence: name,
            step: step.name@,
            select: select as usize,
            arm: (n - 1) as usize,
            condition: guards[n - 1]@,
        };
        lemma_part_longer(a, b, it);
        assert(covered_arm(less, name, select, n - 1) ==> covered_arm(more, name, select, n - 1));
    }
}

proof fn lemma_selects_shrink(
    more: Seq<&SequenceTimeline>,
    less: Seq<&SequenceTimeline>,
    name: Seq<char>,
    steps: Seq<Step>,
    guards: Seq<Vec<String>>,
    n: nat,
)
    requires
        covers_as_much(more, less),
    ensures
        part_of(
            missed_selects(more, name, steps, guards, n),
            missed_selects(less, name, steps, guards, n),
        ),
    decreases n,
{
    if n > 0 {
        lemma_selects_shrink(more, less, name, steps, guards, (n - 1) as nat);
        let select = n - 1;
        let arms = steps[n - 1].select@.len();
        lemma_arms_shrink(more, less, name, steps[n - 1], select, guards[n - 1]@, arms);
        lemma_parts_joined(
            missed_selects(more, name, steps, guards, (n - 1) as nat),
            missed_selects(less, name, steps, guards, (n - 1) as nat),
            missed_arms(more, name, steps[n - 1], select, guards[n - 1]@, arms),
            missed_arms(less, name, steps[n - 1], select, guards[n - 1]@, arms),
        );
    }
}

proof fn lemma_missed_shrinks(
    scene: Scene,
    more: Seq<&SequenceTimeline>,
    less: Seq<&SequenceTimeline>,
    names: Seq<String>,
    guards: Seq<Vec<Vec<String>>>,
    n: nat,
)
    requires
        covers_as_much(more, less),
    ensures
        match (
            missed_in(scene, more, names, guards, n),
            missed_in(scene, less, names, guards, n),
        ) {
            (Ok(v), Ok(u)) => part_of(v, u),
            (Err(a), Err(b)) => a == b,
            _ => false,
        },
    decreases n,
{
    if n > 0 {
        lemma_missed_shrinks(scene, more, less, names, guards, (n - 1) as nat);
        match (
            missed_in(scene, more, names, guards, (n - 1) as nat),
            missed_in(scene, less, names, guards, (n - 1) as nat),
        ) {
            (Ok(v), Ok(u)) => match find(names_of(scene.sequences@), names[n - 1]@) {
                None => {},
                Some(k) => {
                    let selects = selects_of_steps(scene.sequences@[k].steps@);
                    let name = names[n - 1]@;
                    lemma_selects_shrink(more, less, name, selects, guards[k]@, selects.len());
                    lemma_parts_joined(
                        v,
                        u,
                        missed_selects(more, name, selects, guards[k]@, selects.len()),
                        missed_selects(less, name, selects, guards[k]@, selects.len()),
                    );
                },
            },
            _ => {},
        }
    }
}

/// Another run only strikes arms out of the report: what is left uncovered is a
/// part of what was, in the same order.
pub proof fn law_another_run_shortens_the_report(
    scene: Scene,
    timelines: Seq<&SequenceTimeline>,
    more: &SequenceTimeline,
    guards: Seq<Vec<Vec<String>>>,
)
    ensures
        match (
            coverage_of(scene, timelines.push(more), guards),
            coverage_of(scene, timelines, guards),
        ) {
            (Ok(v), Ok(u)) => part_of(v, u),
            _ => true,
        },
{
    if timelines.len() > 0 {
        let all = timelines.push(more);
        assert forall|name: Seq<char>, select: int, arm: int| #[trigger]
            covered_arm(timelines, name, select, arm) implies covered_arm(
            all,
            name,
            select,
            arm,
        ) by {
            law_more_runs_cover_more(timelines, more, name, select, arm);
        }
        assert(all[0] == timelines[0]);
        lemma_missed_shrinks(
            scene,
            all,
            timelines,
            timelines[0].sequences@,
            guards,
            timelines[0].sequences@.len(),
        );
    }
}

proof fn lemma_odd_one(timelines: Seq<&SequenceTimeline>, from: int)
    requires
        0 <= from,
    ensures
        odd_one(timelines, from) is None <==> forall|i: int|
            from <= i < timelines.len() ==> texts((#[trigger] timelines[i]).sequences@) == texts(
                timelines[0].sequences@,
            ),
    decreases timelines.len() - from,
{
    if from < timelines.len() {
        lemma_odd_one(timelines, from + 1);
        if odd_one(timelines, from) is None {
            assert forall|i: int| from <= i < timelines.len() implies texts(
                (#[trigger] timelines[i]).sequences@,
            ) == texts(timelines[0].sequences@) by {}
        } else if odd_one(timelines, from + 1) is None {
            assert(texts(timelines[from].sequences@) != texts(timelines[0].sequences@));
        }
    }
}

/// The same arms taken, the same report.
proof fn lemma_same_arms(
    a: Seq<&SequenceTimeline>,
    b: Seq<&SequenceTimeline>,
    name: Seq<char>,
    step: Step,
    select: int,
    guards: Seq<String>,
    n: nat,
)
    requires
        covers_as_much(a, b),
        covers_as_much(b, a),
    ensures
        missed_arms(a, name, step, select, guards, n) == missed_arms(
            b,
            name,
            step,
            select,
            guards,
            n,
        ),
    decreases n,
{
    if n > 0 {
        lemma_same_arms(a, b, name, step, select, guards, (n - 1) as nat);
        assert(covered_arm(a, name, select, n - 1) ==> covered_arm(b, name, select, n - 1));
        assert(covered_arm(b, name, select, n - 1) ==> covered_arm(a, name, select, n - 1));
    }
}

proof fn lemma_same_selects(
    a: Seq<&SequenceTimeline>,
    b: Seq<&SequenceTimeline>,
    name: Seq<char>,
    steps: Seq<Step>,
    guards: Seq<Vec<String>>,
    n: nat,
)
    requires
        covers_as_much(a, b),
        covers_as_much(b, a),
    ensures
        missed_selects(a, name, steps, guards, n) == missed_selects(b, name, steps, guards, n),
    decreases n,
{
    if n > 0 {
        lemma_same_selects(a, b, name, steps, guards, (n - 1) as nat);
        lemma_same_arms(
            a,
            b,
            name,
            steps[n - 1],
            n - 1,
            guards[n - 1]@,
            steps[n - 1].select@.len(),
        );
    }
}

proof fn lemma_same_missed(
    scene: Scene,
    a: Seq<&SequenceTimeline>,
    b: Seq<&SequenceTimeline>,
    names: Seq<String>,
    others: Seq<String>,
    guards: Seq<Vec<Vec<String>>>,
    n: nat,
)
    requires
        covers_as_much(a, b),
        covers_as_much(b, a),
        texts(names) == texts(others),
        n <= names.len(),
    ensures
        missed_in(scene, a, names, guards, n) == missed_in(scene, b, others, guards, n),
    decreases n,
{
    if n > 0 {
        lemma_same_missed(scene, a, b, names, others, guards, (n - 1) as nat);
        assert(texts(names).len() == names.len() && texts(others).len() == others.len());
        assert(texts(names)[n - 1] == names[n - 1]@);
        assert(texts(others)[n - 1] == others[n - 1]@);
        match find(names_of(scene.sequences@), names[n - 1]@) {
            None => {},
            Some(k) => {
                let selects = selects_of_steps(scene.sequences@[k].steps@);
                lemma_same_selects(a, b, names[n - 1]@, selects, guards[k]@, selects.len());
            },
        }
    }
}

/// Whether every timeline of `a` is one of `b`.
pub open spec fn among(a: Seq<&SequenceTimeline>, b: Seq<&SequenceTimeline>) -> bool {
    forall|i: int| 0 <= i < a.len() ==> b.contains(#[trigger] a[i])
}

proof fn lemma_among_covers(a: Seq<&SequenceTimeline>, b: Seq<&SequenceTimeline>)
    requires
        among(a, b),
    ensures
        covers_as_much(b, a),
{
    assert forall|name: Seq<char>, select: int, arm: int| #[trigger]
        covered_arm(a, name, select, arm) implies covered_arm(b, name, select, arm) by {
        let t = choose|t: int|
            0 <= t < a.len() && took_arm(*(#[trigger] a[t]), name, select, arm);
        assert(b.contains(a[t]));
        let k = choose|k: int| 0 <= k < b.len() && b[k] == a[t];
        assert(took_arm(*b[k], name, select, arm));
    }
}

/// Neither the order of the runs nor repeating one of them changes the report.
pub proof fn law_order_and_repetition_do_not_matter(
    scene: Scene,
    a: Seq<&SequenceTimeline>,
    b: Seq<&SequenceTimeline>,
    guards: Seq<Vec<Vec<String>>>,
)
    requires
        among(a, b),
        among(b, a),
        coverage_of(scene, a, guards) is Ok,
    ensures
        coverage_of(scene, b, guards) == coverage_of(scene, a, guards),
{
    lemma_among_covers(a, b);
    lemma_among_covers(b, a);
    lemma_odd_one(a, 0);
    lemma_odd_one(b, 0);
    assert(a.len() > 0);
    assert(b.contains(a[0]));
    assert forall|i: int| 0 <= i < b.len() implies texts((#[trigger] b[i]).sequences@) == texts(
        a[0].sequences@,
    ) by {
        assert(a.contains(b[i]));
        let k = choose|k: int| 0 <= k < a.len() && a[k] == b[i];
        assert(texts(a[k].sequences@) == texts(a[0].sequences@));
    }
    assert(texts(b[0].sequences@) == texts(a[0].sequences@));
    assert(odd_one(b, 0) is None);
    assert(texts(a[0].sequences@).len() == a[0].sequences@.len());
    assert(texts(b[0].sequences@).len() == b[0].sequences@.len());
    lemma_same_missed(
        scene,
        a,
        b,
        a[0].sequences@,
        b[0].sequences@,
        guards,
        a[0].sequences@.len(),
    );
}

/// Coverage is measured over timelines of one set of sequences: over none, and over
/// timelines that were rolled from different sets, it is an error.
pub proof fn law_coverage_is_measured_over_one_set(
    scene: Scene,
    timelines: Seq<&SequenceTimeline>,
    guards: Seq<Vec<Vec<String>>>,
    i: int,
)
    ensures
        timelines.len() == 0 ==> coverage_of(scene, timelines, guards) is Err,
        0 <= i < timelines.len() && texts(timelines[i].sequences@) != texts(
            timelines[0].sequences@,
        ) ==> coverage_of(scene, timelines, guards) is Err,
{
    lemma_odd_one(timelines, 0);
}

} // verus!
