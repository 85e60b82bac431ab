//! Compiling authored steps to a flat list with explicit exits.

use vstd::prelude::*;

use crate::seq::{
    selects_in_arms, selects_in_steps, selects_of_arms, selects_of_steps, size_arms, size_steps,
    Action, Condition, SelectArm, Step,
};

verus! {

/// One compiled step. Authored steps are laid out pre-order (a branching
/// step, then each arm's steps in arm order), each with explicit exit
/// targets: a linear step has one, the following step; a branching step has
/// one per arm. The length of the list is the end-of-program target.
pub struct FlatStep<'a> {
    pub step: &'a Step,
    pub exits: Vec<usize>,
    /// `Some(ordinal)` where the exits are branch arms.
    pub select: Option<usize>,
}

/// What a compiled step says.
#[verifier::ext_equal]
pub struct FlatView {
    pub step: Step,
    pub exits: Seq<int>,
    pub select: Option<int>,
}

impl<'a> View for FlatStep<'a> {
    type V = FlatView;

    open spec fn view(&self) -> FlatView {
        FlatView {
            step: *self.step,
            exits: Seq::new(self.exits@.len(), |i: int| self.exits@[i] as int),
            select: match self.select {
                Some(o) => Some(o as int),
                None => None,
            },
        }
    }
}

impl FlatView {
    /// The condition of exit `j`: the arm's guard on a branching step, the
    /// step's transition otherwise.
    pub open spec fn condition(self, j: int) -> Condition {
        if self.step.select@.len() == 0 {
            self.step.transition
        } else {
            self.step.select@[j].condition
        }
    }

    /// The actions that entering the step fires: none on a branching step.
    pub open spec fn actions(self) -> Seq<Action> {
        if self.step.select@.len() == 0 {
            self.step.actions@
        } else {
            Seq::empty()
        }
    }

    /// One exit for a linear step, one per arm for a branching one.
    pub open spec fn formed(self) -> bool {
        &&& self.exits.len() == (if self.step.select@.len() == 0 {
            1
        } else {
            self.step.select@.len()
        })
        &&& self.select is Some <==> self.step.select@.len() > 0
    }
}

impl<'a> FlatStep<'a> {
    /// The condition of exit `j`.
    pub fn condition(&self, j: usize) -> (r: &'a Condition)
        requires
            self@.formed(),
            j < self.exits@.len(),
        ensures
            *r == self@.condition(j as int),
    {
        if self.step.select.len() == 0 {
            &self.step.transition
        } else {
            &self.step.select[j].condition
        }
    }

    /// How many actions entering the step fires.
    pub fn action_count(&self) -> (r: usize)
        ensures
            r == self@.actions().len(),
    {
        if self.step.select.len() == 0 {
            self.step.actions.len()
        } else {
            0
        }
    }

    /// The `i`th action that entering the step fires.
    pub fn action(&self, i: usize) -> (r: &'a Action)
        requires
            i < self@.actions().len(),
        ensures
            *r == self@.actions()[i as int],
    {
        &self.step.actions[i]
    }
}

/// The views of a compiled list.
pub open spec fn flat_views(flat: Seq<FlatStep>) -> Seq<FlatView> {
    Seq::new(flat.len(), |i: int| flat[i]@)
}

/// `steps` compiled from flat index `base` on, rejoining at `cont`, the first
/// branching step numbered `ord`.
pub open spec fn flat_steps(steps: Seq<Step>, base: int, cont: int, ord: int) -> Seq<FlatView>
    decreases steps,
{
    if steps.len() == 0 {
        Seq::empty()
    } else {
        let step = steps[0];
        let next = base + 1 + size_arms(step.select@);
        let target = if steps.len() == 1 {
            cont
        } else {
            next
        };
        if step.select@.len() == 0 {
            seq![FlatView { step, exits: seq![target], select: None }] + flat_steps(
                steps.drop_first(),
                next,
                cont,
                ord,
            )
        } else {
            seq![
                FlatView {
                    step,
                    exits: arm_targets(step.select@, base + 1, target),
                    select: Some(ord),
                },
            ] + flat_arms(step.select@, base + 1, target, ord + 1) + flat_steps(
                steps.drop_first(),
                next,
                cont,
                ord + 1 + selects_in_arms(step.select@),
            )
        }
    }
}

/// The arms compiled one after the other from flat index `base` on, every one
/// rejoining at `cont`.
pub open spec fn flat_arms(arms: Seq<SelectArm>, base: int, cont: int, ord: int) -> Seq<FlatView>
    decreases arms,
{
    if arms.len() == 0 {
        Seq::empty()
    } else {
        flat_steps(arms[0].steps@, base, cont, ord) + flat_arms(
            arms.drop_first(),
            base + size_steps(arms[0].steps@),
            cont,
            ord + selects_in_steps(arms[0].steps@),
        )
    }
}

/// Where each arm leads: to its first step, or, where it has none, straight
/// to the rejoin.
pub open spec fn arm_targets(arms: Seq<SelectArm>, base: int, cont: int) -> Seq<int>
    decreases arms,
{
    if arms.len() == 0 {
        Seq::empty()
    } else {
        seq![
            if arms[0].steps@.len() == 0 {
                cont
            } else {
                base
            },
        ] + arm_targets(arms.drop_first(), base + size_steps(arms[0].steps@), cont)
    }
}

/// How many steps the arms hold.
fn count_arms(arms: &Vec<SelectArm>) -> (r: usize)
    requires
        size_arms(arms@) <= usize::MAX,
    ensures
        r == size_arms(arms@),
    decreases arms,
{
    let mut total: usize = 0;
    let mut i: usize = 0;
    assert(arms@.skip(0) =~= arms@);
    while i < arms.len()
        invariant
            i <= arms.len(),
            total + size_arms(arms@.skip(i as int)) == size_arms(arms@),
            size_arms(arms@) <= usize::MAX,
        decreases arms.len() - i,
    {
        let ghost rest = arms@.skip(i as int);
        assert(rest[0] == arms@[i as int]);
        assert(rest.drop_first() =~= arms@.skip(i + 1));
        let n: usize = count_steps(&arms[i].steps);
        total = total + n;
        i = i + 1;
    }
    assert(arms@.skip(i as int) =~= Seq::<SelectArm>::empty());
    total
}

/// How many steps `steps` holds, nested ones included.
fn count_steps(steps: &Vec<Step>) -> (r: usize)
    requires
        size_steps(steps@) <= usize::MAX,
    ensures
        r == size_steps(steps@),
    decreases steps,
{
    let mut total: usize = 0;
    let mut i: usize = 0;
    assert(steps@.skip(0) =~= steps@);
    while i < steps.len()
        invariant
            i <= steps.len(),
            total + size_steps(steps@.skip(i as int)) == size_steps(steps@),
            size_steps(steps@) <= usize::MAX,
        decreases steps.len() - i,
    {
        let ghost rest = steps@.skip(i as int);
        assert(rest[0] == steps@[i as int]);
        assert(rest.drop_first() =~= steps@.skip(i + 1));
        let n: usize = count_arms(&steps[i].select);
        total = total + 1 + n;
        i = i + 1;
    }
    assert(steps@.skip(i as int) =~= Seq::<Step>::empty());
    total
}

/// The arms of a branching step at flat index `base - 1`: their targets.
fn targets_of(arms: &Vec<SelectArm>, base: usize, cont: usize) -> (r: Vec<usize>)
    requires
        base + size_arms(arms@) <= usize::MAX,
    ensures
        Seq::new(r@.len(), |i: int| r@[i] as int) == arm_targets(
            arms@,
            base as int,
            cont as int,
        ),
{
    let mut out: Vec<usize> = Vec::new();
    let mut at: usize = base;
    let mut i: usize = 0;
    assert(arms@.skip(0) =~= arms@);
    while i < arms.len()
        invariant
            i <= arms.len(),
            at + size_arms(arms@.skip(i as int)) <= usize::MAX,
            Seq::new(out@.len(), |k: int| out@[k] as int) + arm_targets(
                arms@.skip(i as int),
                at as int,
                cont as int,
            ) == arm_targets(arms@, base as int, cont as int),
        decreases arms.len() - i,
    {
        let ghost rest = arms@.skip(i as int);
        let ghost before = Seq::new(out@.len(), |k: int| out@[k] as int);
        assert(rest[0] == arms@[i as int]);
        assert(rest.drop_first() =~= arms@.skip(i + 1));
        let target: usize = if arms[i].steps.len() == 0 {
            cont
        } else {
            at
        };
        let n: usize = count_steps(&arms[i].steps);
        out.push(target);
        assert(Seq::new(out@.len(), |k: int| out@[k] as int) =~= before + seq![target as int]);
        assert(before + seq![target as int] + arm_targets(rest.drop_first(), at + n, cont as int)
            =~= before + arm_targets(rest, at as int, cont as int));
        at = at + n;
        i = i + 1;
    }
    assert(arm_targets(arms@.skip(i as int), at as int, cont as int) =~= Seq::<int>::empty());
    assert(Seq::new(out@.len(), |k: int| out@[k] as int) =~= arm_targets(
        arms@,
        base as int,
        cont as int,
    ));
    out
}

fn emit_arms<'a>(
    arms: &'a Vec<SelectArm>,
    base: usize,
    cont: usize,
    ord: usize,
    out: &mut Vec<FlatStep<'a>>,
)
    requires
        base + size_arms(arms@) <= usize::MAX,
        ord + selects_in_arms(arms@) <= usize::MAX,
    ensures
        flat_views(final(out)@) == flat_views(old(out)@) + flat_arms(
            arms@,
            base as int,
            cont as int,
            ord as int,
        ),
    decreases arms,
{
    let ghost start = flat_views(out@);
    let mut at: usize = base;
    let mut no: usize = ord;
    let mut i: usize = 0;
    assert(arms@.skip(0) =~= arms@);
    while i < arms.len()
        invariant
            i <= arms.len(),
            at + size_arms(arms@.skip(i as int)) <= usize::MAX,
            no + selects_in_arms(arms@.skip(i as int)) <= usize::MAX,
            flat_views(out@) + flat_arms(
                arms@.skip(i as int),
                at as int,
                cont as int,
                no as int,
            ) == start + flat_arms(arms@, base as int, cont as int, ord as int),
        decreases arms.len() - i,
    {
        let ghost before = flat_views(out@);
        let ghost rest = arms@.skip(i as int);
        assert(rest[0] == arms@[i as int]);
        assert(rest.drop_first() =~= arms@.skip(i + 1));
        let ghost tail = flat_arms(
            rest.drop_first(),
            at + size_steps(rest[0].steps@),
            cont as int,
            no + selects_in_steps(rest[0].steps@),
        );
        let n: usize = count_steps(&arms[i].steps);
        no = emit_steps(&arms[i].steps, at, cont, no, out);
        assert(flat_views(out@) + tail =~= before + flat_arms(
            rest,
            at as int,
            cont as int,
            no - selects_in_steps(rest[0].steps@),
        ));
        at = at + n;
        i = i + 1;
    }
    assert(flat_arms(arms@.skip(i as int), at as int, cont as int, no as int) =~= Seq::<
        FlatView,
    >::empty());
    assert(flat_views(out@) =~= start + flat_arms(arms@, base as int, cont as int, ord as int));
}

/// Appends the compiled `steps`; returns the next free ordinal.
fn emit_steps<'a>(
    steps: &'a Vec<Step>,
    base: usize,
    cont: usize,
    ord: usize,
    out: &mut Vec<FlatStep<'a>>,
) -> (next: usize)
    requires
        base + size_steps(steps@) <= usize::MAX,
        ord + selects_in_steps(steps@) <= usize::MAX,
    ensures
        next == ord + selects_in_steps(steps@),
        flat_views(final(out)@) == flat_views(old(out)@) + flat_steps(
            steps@,
            base as int,
            cont as int,
            ord as int,
        ),
    decreases steps,
{
    let ghost start = flat_views(out@);
    let mut at: usize = base;
    let mut no: usize = ord;
    let mut i: usize = 0;
    assert(steps@.skip(0) =~= steps@);
    while i < steps.len()
        invariant
            i <= steps.len(),
            at + size_steps(steps@.skip(i as int)) <= usize::MAX,
            no + selects_in_steps(steps@.skip(i as int)) == ord + selects_in_steps(steps@),
            ord + selects_in_steps(steps@) <= usize::MAX,
            flat_views(out@) + flat_steps(
                steps@.skip(i as int),
                at as int,
                cont as int,
                no as int,
            ) == start + flat_steps(steps@, base as int, cont as int, ord as int),
        decreases steps.len() - i,
    {
        let ghost before = flat_views(out@);
        let ghost rest = steps@.skip(i as int);
        let ghost at0 = at as int;
        let ghost no0 = no as int;
        assert(rest[0] == steps@[i as int]);
        assert(rest.drop_first() =~= steps@.skip(i + 1));
        let step: &'a Step = &steps[i];
        let inner: usize = count_arms(&step.select);
        let next: usize = at + 1 + inner;
        let target: usize = if i + 1 == steps.len() {
            cont
        } else {
            next
        };
        if step.select.len() == 0 {
            let mut exits: Vec<usize> = Vec::new();
            exits.push(target);
            out.push(FlatStep { step, exits, select: None });
            let ghost me = FlatView { step: *step, exits: seq![target as int], select: None };
            assert(out@.last()@ =~= me);
            assert(flat_views(out@) =~= before + seq![me]);
            assert(flat_views(out@) + flat_steps(rest.drop_first(), next as int, cont as int, no0)
                =~= before + flat_steps(rest, at0, cont as int, no0));
        } else {
            let exits: Vec<usize> = targets_of(&step.select, at + 1, target);
            out.push(FlatStep { step, exits, select: Some(no) });
            let ghost me = FlatView {
                step: *step,
                exits: arm_targets(step.select@, at0 + 1, target as int),
                select: Some(no0),
            };
            assert(out@.last()@ =~= me);
            assert(flat_views(out@) =~= before + seq![me]);
            let ghost arms = flat_arms(step.select@, at0 + 1, target as int, no0 + 1);
            emit_arms(&step.select, at + 1, target, no + 1, out);
            let more: usize = count_selects(&step.select);
            no = no + 1 + more;
            let ghost tail = flat_steps(rest.drop_first(), next as int, cont as int, no as int);
            assert(flat_views(out@) =~= before + seq![me] + arms);
            assert(flat_views(out@) + tail =~= before + (seq![me] + arms + tail));
            assert(flat_steps(rest, at0, cont as int, no0) == seq![me] + arms + tail);
        }
        at = next;
        i = i + 1;
    }
    assert(flat_steps(steps@.skip(i as int), at as int, cont as int, no as int) =~= Seq::<
        FlatView,
    >::empty());
    assert(flat_views(out@) =~= start + flat_steps(steps@, base as int, cont as int, ord as int));
    no
}

/// How many branching steps the arms hold.
fn count_selects(arms: &Vec<SelectArm>) -> (r: usize)
    requires
        selects_in_arms(arms@) <= usize::MAX,
    ensures
        r == selects_in_arms(arms@),
    decreases arms,
{
    let mut total: usize = 0;
    let mut i: usize = 0;
    assert(arms@.skip(0) =~= arms@);
    while i < arms.len()
        invariant
            i <= arms.len(),
            total + selects_in_arms(arms@.skip(i as int)) == selects_in_arms(arms@),
            selects_in_arms(arms@) <= usize::MAX,
        decreases arms.len() - i,
    {
        let ghost rest = arms@.skip(i as int);
        assert(rest[0] == arms@[i as int]);
        assert(rest.drop_first() =~= arms@.skip(i + 1));
        let n: usize = count_step_selects(&arms[i].steps);
        total = total + n;
        i = i + 1;
    }
    assert(arms@.skip(i as int) =~= Seq::<SelectArm>::empty());
    total
}

fn count_step_selects(steps: &Vec<Step>) -> (r: usize)
    requires
        selects_in_steps(steps@) <= usize::MAX,
    ensures
        r == selects_in_steps(steps@),
    decreases steps,
{
    let mut total: usize = 0;
    let mut i: usize = 0;
    assert(steps@.skip(0) =~= steps@);
    while i < steps.len()
        invariant
            i <= steps.len(),
            total + selects_in_steps(steps@.skip(i as int)) == selects_in_steps(steps@),
            selects_in_steps(steps@) <= usize::MAX,
        decreases steps.len() - i,
    {
        let ghost rest = steps@.skip(i as int);
        assert(rest[0] == steps@[i as int]);
        assert(rest.drop_first() =~= steps@.skip(i + 1));
        if steps[i].select.len() > 0 {
            let n: usize = count_selects(&steps[i].select);
            total = total + 1 + n;
        }
        i = i + 1;
    }
    assert(steps@.skip(i as int) =~= Seq::<Step>::empty());
    total
}

/// Compiles authored steps: laid out pre-order from index zero, numbered
/// from ordinal zero, the last ones leading to the end of the list.
pub fn flatten<'a>(steps: &'a Vec<Step>) -> (r: Vec<FlatStep<'a>>)
    requires
        size_steps(steps@) <= usize::MAX,
    ensures
        flat_views(r@) == flat_steps(steps@, 0, size_steps(steps@) as int, 0),
{
    proof {
        lemma_fewer_selects(steps@);
    }
    let end: usize = count_steps(steps);
    let mut out: Vec<FlatStep<'a>> = Vec::new();
    emit_steps(steps, 0, end, 0, &mut out);
    assert(flat_views(out@) =~= flat_steps(steps@, 0, end as int, 0));
    out
}

/// There are at most as many branching steps as steps.
pub proof fn lemma_fewer_selects(steps: Seq<Step>)
    ensures
        selects_in_steps(steps) <= size_steps(steps),
    decreases steps,
{
    if steps.len() > 0 {
        lemma_fewer_selects_arms(steps[0].select@);
        lemma_fewer_selects(steps.drop_first());
    }
}

proof fn lemma_fewer_selects_arms(arms: Seq<SelectArm>)
    ensures
        selects_in_arms(arms) <= size_arms(arms),
    decreases arms,
{
    if arms.len() > 0 {
        lemma_fewer_selects(arms[0].steps@);
        lemma_fewer_selects_arms(arms.drop_first());
    }
}

/// Compiling keeps one entry per authored step.
pub proof fn law_flat_size(steps: Seq<Step>, base: int, cont: int, ord: int)
    ensures
        flat_steps(steps, base, cont, ord).len() == size_steps(steps),
    decreases steps,
{
    if steps.len() > 0 {
        let step = steps[0];
        let next = base + 1 + size_arms(step.select@);
        let target = if steps.len() == 1 {
            cont
        } else {
            next
        };
        if step.select@.len() == 0 {
            law_flat_size(steps.drop_first(), next, cont, ord);
        } else {
            lemma_arms_size(step.select@, base + 1, target, ord + 1);
            law_flat_size(
                steps.drop_first(),
                next,
                cont,
                ord + 1 + selects_in_arms(step.select@),
            );
        }
    }
}

proof fn lemma_arms_size(arms: Seq<SelectArm>, base: int, cont: int, ord: int)
    ensures
        flat_arms(arms, base, cont, ord).len() == size_arms(arms),
    decreases arms,
{
    if arms.len() > 0 {
        law_flat_size(arms[0].steps@, base, cont, ord);
        lemma_arms_size(
            arms.drop_first(),
            base + size_steps(arms[0].steps@),
            cont,
            ord + selects_in_steps(arms[0].steps@),
        );
    }
}

/// Every compiled step has its exits.
pub proof fn lemma_formed(steps: Seq<Step>, base: int, cont: int, ord: int)
    ensures
        forall|i: int|
            0 <= i < flat_steps(steps, base, cont, ord).len() ==> (#[trigger] flat_steps(
                steps,
                base,
                cont,
                ord,
            )[i]).formed(),
    decreases steps,
{
    if steps.len() > 0 {
        let step = steps[0];
        let next = base + 1 + size_arms(step.select@);
        let target = if steps.len() == 1 {
            cont
        } else {
            next
        };
        let rest = steps.drop_first();
        let all = flat_steps(steps, base, cont, ord);
        if step.select@.len() == 0 {
            lemma_formed(rest, next, cont, ord);
            let tail = flat_steps(rest, next, cont, ord);
            assert forall|i: int| 0 <= i < all.len() implies (#[trigger] all[i]).formed() by {
                if i > 0 {
                    assert(all[i] == tail[i - 1]);
                }
            }
        } else {
            let later = ord + 1 + selects_in_arms(step.select@);
            lemma_arms_formed(step.select@, base + 1, target, ord + 1);
            lemma_formed(rest, next, cont, later);
            lemma_targets_len(step.select@, base + 1, target);
            let arms = flat_arms(step.select@, base + 1, target, ord + 1);
            let tail = flat_steps(rest, next, cont, later);
            assert forall|i: int| 0 <= i < all.len() implies (#[trigger] all[i]).formed() by {
                if i > arms.len() {
                    assert(all[i] == tail[i - 1 - arms.len()]);
                } else if i > 0 {
                    assert(all[i] == arms[i - 1]);
                }
            }
        }
    }
}

proof fn lemma_targets_len(arms: Seq<SelectArm>, base: int, cont: int)
    ensures
        arm_targets(arms, base, cont).len() == arms.len(),
    decreases arms,
{
    if arms.len() > 0 {
        lemma_targets_len(arms.drop_first(), base + size_steps(arms[0].steps@), cont);
    }
}

proof fn lemma_arms_formed(arms: Seq<SelectArm>, base: int, cont: int, ord: int)
    ensures
        forall|i: int|
            0 <= i < flat_arms(arms, base, cont, ord).len() ==> (#[trigger] flat_arms(
                arms,
                base,
                cont,
                ord,
            )[i]).formed(),
    decreases arms,
{
    if arms.len() > 0 {
        lemma_formed(arms[0].steps@, base, cont, ord);
        let first = flat_steps(arms[0].steps@, base, cont, ord);
        let rest = flat_arms(
            arms.drop_first(),
            base + size_steps(arms[0].steps@),
            cont,
            ord + selects_in_steps(arms[0].steps@),
        );
        lemma_arms_formed(
            arms.drop_first(),
            base + size_steps(arms[0].steps@),
            cont,
            ord + selects_in_steps(arms[0].steps@),
        );
        let all = flat_arms(arms, base, cont, ord);
        assert forall|i: int| 0 <= i < all.len() implies (#[trigger] all[i]).formed() by {
            if i < first.len() {
                assert(all[i] == first[i]);
            } else {
                assert(all[i] == rest[i - first.len()]);
            }
        }
    }
}

/// Whether every exit of a list compiled from index `base` on leads forward,
/// and no further than `end`.
pub open spec fn forward_only(flat: Seq<FlatView>, base: int, end: int) -> bool {
    forall|i: int, j: int|
        #![trigger flat[i].exits[j]]
        0 <= i < flat.len() && 0 <= j < flat[i].exits.len() ==> base + i < flat[i].exits[j] <= end
}

/// Every exit leads to a later step or to the end of the program, so no
/// program can loop: each transition takes it strictly forward.
pub proof fn law_forward_only(steps: Seq<Step>, base: int, cont: int, ord: int)
    requires
        cont >= base + size_steps(steps),
    ensures
        forward_only(flat_steps(steps, base, cont, ord), base, cont),
    decreases steps,
{
    if steps.len() > 0 {
        let step = steps[0];
        let next = base + 1 + size_arms(step.select@);
        let target = if steps.len() == 1 {
            cont
        } else {
            next
        };
        let rest = steps.drop_first();
        let all = flat_steps(steps, base, cont, ord);
        if step.select@.len() == 0 {
            law_forward_only(rest, next, cont, ord);
            let tail = flat_steps(rest, next, cont, ord);
            assert forall|i: int, j: int|
                #![trigger all[i].exits[j]]
                0 <= i < all.len() && 0 <= j < all[i].exits.len() implies base + i
                < all[i].exits[j] <= cont by {
                if i > 0 {
                    assert(all[i] == tail[i - 1]);
                    assert(tail[i - 1].exits[j] == all[i].exits[j]);
                }
            }
        } else {
            let no = ord + 1 + selects_in_arms(step.select@);
            law_forward_only(rest, next, cont, no);
            lemma_arms_forward(step.select@, base + 1, target, ord + 1);
            lemma_targets_forward(step.select@, base + 1, target);
            lemma_arms_size(step.select@, base + 1, target, ord + 1);
            let arms = flat_arms(step.select@, base + 1, target, ord + 1);
            let tail = flat_steps(rest, next, cont, no);
            assert forall|i: int, j: int|
                #![trigger all[i].exits[j]]
                0 <= i < all.len() && 0 <= j < all[i].exits.len() implies base + i
                < all[i].exits[j] <= cont by {
                if i == 0 {
                    assert(all[0].exits == arm_targets(step.select@, base + 1, target));
                } else if i <= arms.len() {
                    assert(all[i] == arms[i - 1]);
                    assert(arms[i - 1].exits[j] == all[i].exits[j]);
                } else {
                    assert(all[i] == tail[i - 1 - arms.len()]);
                    assert(tail[i - 1 - arms.len()].exits[j] == all[i].exits[j]);
                }
            }
        }
    }
}

proof fn lemma_arms_forward(arms: Seq<SelectArm>, base: int, cont: int, ord: int)
    requires
        cont >= base + size_arms(arms),
    ensures
        forward_only(flat_arms(arms, base, cont, ord), base, cont),
    decreases arms,
{
    if arms.len() > 0 {
        let n = size_steps(arms[0].steps@);
        let no = ord + selects_in_steps(arms[0].steps@);
        law_forward_only(arms[0].steps@, base, cont, ord);
        lemma_arms_forward(arms.drop_first(), base + n, cont, no);
        law_flat_size(arms[0].steps@, base, cont, ord);
        let head = flat_steps(arms[0].steps@, base, cont, ord);
        let tail = flat_arms(arms.drop_first(), base + n, cont, no);
        let all = flat_arms(arms, base, cont, ord);
        assert forall|i: int, j: int|
            #![trigger all[i].exits[j]]
            0 <= i < all.len() && 0 <= j < all[i].exits.len() implies base + i < all[i].exits[j]
            <= cont by {
            if i < head.len() {
                assert(all[i] == head[i]);
                assert(head[i].exits[j] == all[i].exits[j]);
            } else {
                assert(all[i] == tail[i - head.len()]);
                assert(tail[i - head.len()].exits[j] == all[i].exits[j]);
            }
        }
    }
}

proof fn lemma_targets_forward(arms: Seq<SelectArm>, base: int, cont: int)
    requires
        cont >= base + size_arms(arms),
    ensures
        arm_targets(arms, base, cont).len() == arms.len(),
        forall|j: int|
            0 <= j < arms.len() ==> base <= #[trigger] arm_targets(arms, base, cont)[j] <= cont,
    decreases arms,
{
    if arms.len() > 0 {
        lemma_targets_forward(arms.drop_first(), base + size_steps(arms[0].steps@), cont);
        let tail = arm_targets(arms.drop_first(), base + size_steps(arms[0].steps@), cont);
        assert forall|j: int| 0 <= j < arms.len() implies base <= #[trigger] arm_targets(
            arms,
            base,
            cont,
        )[j] <= cont by {
            if j > 0 {
                assert(arm_targets(arms, base, cont)[j] == tail[j - 1]);
            }
        }
    }
}

/// The branching entries of a compiled list, each with its ordinal.
pub open spec fn branching(flat: Seq<FlatView>) -> Seq<(int, Step)>
    decreases flat.len(),
{
    if flat.len() == 0 {
        Seq::empty()
    } else {
        branching(flat.drop_last()) + match flat.last().select {
            Some(o) => seq![(o, flat.last().step)],
            None => Seq::empty(),
        }
    }
}

/// `steps` numbered from `ord` on.
pub open spec fn numbered(steps: Seq<Step>, ord: int) -> Seq<(int, Step)> {
    Seq::new(steps.len(), |k: int| (ord + k, steps[k]))
}

proof fn lemma_branching_concat(a: Seq<FlatView>, b: Seq<FlatView>)
    ensures
        branching(a + b) == branching(a) + branching(b),
    decreases b.len(),
{
    if b.len() == 0 {
        assert(a + b =~= a);
        assert(branching(a) + branching(b) =~= branching(a));
    } else {
        assert((a + b).drop_last() =~= a + b.drop_last());
        lemma_branching_concat(a, b.drop_last());
        let last = match b.last().select {
            Some(o) => seq![(o, b.last().step)],
            None => Seq::empty(),
        };
        assert(branching(a) + branching(b.drop_last()) + last =~= branching(a) + (branching(
            b.drop_last(),
        ) + last));
    }
}

proof fn lemma_branching_one(v: FlatView)
    ensures
        branching(seq![v]) == (match v.select {
            Some(o) => seq![(o, v.step)],
            None => Seq::empty(),
        }),
{
    assert(seq![v].drop_last() =~= Seq::<FlatView>::empty());
    let last = match v.select {
        Some(o) => seq![(o, v.step)],
        None => Seq::empty(),
    };
    assert(branching(seq![v]) =~= last) by {
        assert(branching(Seq::<FlatView>::empty()) =~= Seq::<(int, Step)>::empty());
        assert(seq![v].last() == v);
    }
}

/// The compiled list numbers its branching entries exactly as the authored
/// enumeration does: the same steps in the same order, from `ord` on.
pub proof fn law_ordinals_match_enumeration(steps: Seq<Step>, base: int, cont: int, ord: int)
    ensures
        selects_of_steps(steps).len() == selects_in_steps(steps),
        branching(flat_steps(steps, base, cont, ord)) == numbered(selects_of_steps(steps), ord),
    decreases steps,
{
    if steps.len() > 0 {
        let step = steps[0];
        let next = base + 1 + size_arms(step.select@);
        let target = if steps.len() == 1 {
            cont
        } else {
            next
        };
        let rest = steps.drop_first();
        if step.select@.len() == 0 {
            let me = FlatView { step, exits: seq![target], select: None };
            let tail = flat_steps(rest, next, cont, ord);
            law_ordinals_match_enumeration(rest, next, cont, ord);
            lemma_branching_concat(seq![me], tail);
            lemma_branching_one(me);
            assert(branching(seq![me] + tail) =~= branching(tail));
        } else {
            let no = ord + 1 + selects_in_arms(step.select@);
            let me = FlatView {
                step,
                exits: arm_targets(step.select@, base + 1, target),
                select: Some(ord),
            };
            let arms = flat_arms(step.select@, base + 1, target, ord + 1);
            let tail = flat_steps(rest, next, cont, no);
            law_ordinals_match_enumeration(rest, next, cont, no);
            lemma_arm_ordinals(step.select@, base + 1, target, ord + 1);
            lemma_branching_concat(seq![me], arms);
            lemma_branching_concat(seq![me] + arms, tail);
            lemma_branching_one(me);
            assert(branching(seq![me] + arms + tail) =~= numbered(selects_of_steps(steps), ord));
        }
    } else {
        assert(branching(flat_steps(steps, base, cont, ord)) =~= numbered(
            selects_of_steps(steps),
            ord,
        ));
    }
}

proof fn lemma_arm_ordinals(arms: Seq<SelectArm>, base: int, cont: int, ord: int)
    ensures
        selects_of_arms(arms).len() == selects_in_arms(arms),
        branching(flat_arms(arms, base, cont, ord)) == numbered(selects_of_arms(arms), ord),
    decreases arms,
{
    if arms.len() > 0 {
        let no = ord + selects_in_steps(arms[0].steps@);
        let n = base + size_steps(arms[0].steps@);
        let head = flat_steps(arms[0].steps@, base, cont, ord);
        let tail = flat_arms(arms.drop_first(), n, cont, no);
        law_ordinals_match_enumeration(arms[0].steps@, base, cont, ord);
        lemma_arm_ordinals(arms.drop_first(), n, cont, no);
        lemma_branching_concat(head, tail);
        assert(branching(head + tail) =~= numbered(selects_of_arms(arms), ord));
    } else {
        assert(branching(flat_arms(arms, base, cont, ord)) =~= numbered(
            selects_of_arms(arms),
            ord,
        ));
    }
}

/// A step that does not branch leads on to the step behind it, and the last one to where
/// its list rejoins; it is left where its transition holds, and fires its actions as it
/// is entered.
pub proof fn law_a_linear_step_leads_on(
    step: Step,
    more: Seq<Step>,
    base: int,
    cont: int,
    ord: int,
)
    requires
        step.select@.len() == 0,
    ensures
        ({
            let flat = flat_steps(seq![step] + more, base, cont, ord);
            &&& flat.len() > 0
            &&& flat[0].step == step
            &&& flat[0].exits.len() == 1
            &&& more.len() == 0 ==> flat[0].exits[0] == cont
            &&& more.len() > 0 ==> flat[0].exits[0] == base + 1
            &&& flat[0].select is None
            &&& flat[0].condition(0) == step.transition
            &&& flat[0].actions() == step.actions@
            &&& flat.drop_first() == flat_steps(more, base + 1, cont, ord)
        }),
{
    let all = seq![step] + more;
    assert(all[0] == step);
    assert(all.drop_first() =~= more);
    assert(size_arms(step.select@) == 0);
    let flat = flat_steps(all, base, cont, ord);
    assert(flat.drop_first() =~= flat_steps(more, base + 1, cont, ord));
}

/// An arm of a branching step leads to its own first step, and an empty one straight to
/// where the arms rejoin; it is taken where its own guard holds. A branching step fires
/// nothing itself. `j` is any arm, and `at` where it leads.
pub proof fn law_an_arm_leads_to_its_first_step(
    step: Step,
    more: Seq<Step>,
    base: int,
    cont: int,
    ord: int,
    j: int,
)
    requires
        0 <= j < step.select@.len(),
    ensures
        ({
            let flat = flat_steps(seq![step] + more, base, cont, ord);
            let next = base + 1 + size_arms(step.select@);
            let at = flat[0].exits[j];
            &&& flat.len() > 0
            &&& flat[0].step == step
            &&& flat[0].exits.len() == step.select@.len()
            &&& flat[0].select == Some(ord)
            &&& flat[0].condition(j) == step.select@[j].condition
            &&& flat[0].actions().len() == 0
            &&& step.select@[j].steps@.len() == 0 && more.len() == 0 ==> at == cont
            &&& step.select@[j].steps@.len() == 0 && more.len() > 0 ==> at == next
            &&& step.select@[j].steps@.len() > 0 ==> base < at < base + flat.len() && flat[at
                - base].step == step.select@[j].steps@[0]
        }),
{
    let all = seq![step] + more;
    assert(all[0] == step);
    assert(all.drop_first() =~= more);
    let arms = step.select@;
    let next = base + 1 + size_arms(arms);
    let target = if all.len() == 1 {
        cont
    } else {
        next
    };
    lemma_arm_start(arms, base + 1, target, ord + 1, j);
    let inner = flat_arms(arms, base + 1, target, ord + 1);
    let flat = flat_steps(all, base, cont, ord);
    let at = flat[0].exits[j];
    assert(flat[0].exits == arm_targets(arms, base + 1, target));
    if arms[j].steps@.len() > 0 {
        assert(flat[at - base] == inner[at - base - 1]);
    }
}

proof fn lemma_arm_start(arms: Seq<SelectArm>, base: int, cont: int, ord: int, j: int)
    requires
        0 <= j < arms.len(),
    ensures
        ({
            let targets = arm_targets(arms, base, cont);
            let flat = flat_arms(arms, base, cont, ord);
            &&& targets.len() == arms.len()
            &&& arms[j].steps@.len() == 0 ==> targets[j] == cont
            &&& arms[j].steps@.len() > 0 ==> base <= targets[j] < base + flat.len()
                && flat[targets[j] - base].step == arms[j].steps@[0]
        }),
    decreases arms.len(),
{
    let first = arms[0];
    let rest = arms.drop_first();
    let n = size_steps(first.steps@);
    let here = flat_steps(first.steps@, base, cont, ord);
    law_flat_size(first.steps@, base, cont, ord);
    lemma_targets_len(arms, base, cont);
    let more = flat_arms(rest, base + n, cont, ord + selects_in_steps(first.steps@));
    let flat = flat_arms(arms, base, cont, ord);
    assert(flat == here + more);
    if j == 0 {
        if first.steps@.len() > 0 {
            assert(here[0].step == first.steps@[0]);
            assert(flat[0] == here[0]);
        }
    } else {
        lemma_arm_start(rest, base + n, cont, ord + selects_in_steps(first.steps@), j - 1);
        let at = arm_targets(rest, base + n, cont)[j - 1];
        assert(arm_targets(arms, base, cont)[j] == at);
        assert(rest[j - 1] == arms[j]);
        if arms[j].steps@.len() > 0 {
            assert(flat[at - base] == more[at - base - n]);
        }
    }
}

} // verus!
