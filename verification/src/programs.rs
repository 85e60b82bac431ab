//! Programs advancing through their steps within one scan.

use vstd::prelude::*;

use crate::error::{ErrorView, SeqError};
use crate::rollout::{lemma_ready_exit, Program, Rollout, RolloutView};
use crate::seq::Action;
use crate::setup::{kept, lemma_kept_sound};
use crate::world::lemma_same_robots;

verus! {

/// Where a scan comes to.
#[verifier::ext_equal]
pub enum Onward {
    Fails(ErrorView),
    /// The current program has entered a step whose actions fire now. `chain`
    /// counts the steps it has run through in this scan; none while programs
    /// enter their first steps.
    Fires { world: RolloutView, chain: Option<int> },
    /// Every program has had its turn.
    Ends(RolloutView),
}

impl RolloutView {
    /// The actions that the current program's step fires on entry.
    pub open spec fn entry_actions(self) -> Seq<Action> {
        let p = self.programs[self.current as int];
        if p.finished() {
            Seq::empty()
        } else {
            p.flat[p.step as int].actions()
        }
    }

    /// The turn goes to program `p`.
    pub open spec fn turn(self, p: int) -> RolloutView {
        RolloutView { current: p as usize, ..self }
    }

    /// The turn passed to the next program, where there is one.
    pub open spec fn next_turn(self) -> Option<RolloutView> {
        if self.current < usize::MAX && self.current + 1 < self.programs.len() {
            Some(self.turn(self.current + 1))
        } else {
            None
        }
    }

    /// From the current program on: each goes through the steps that are
    /// ready, in declaration order, and closes its scan. A program that has
    /// run through more steps than allowed in one scan is stuck in a loop.
    pub open spec fn onward(self, chain: int) -> Onward
        decreases
            self.programs.len() - self.current,
            self.options.immediate_chain_limit + 1 - chain,
    {
        if self.current >= self.programs.len() {
            Onward::Ends(self)
        } else {
            let c = self.current as int;
            let w = match self.ready() {
                None => self,
                Some(j) => self.took(j),
            };
            if self.ready() is None || w.programs[c].finished() {
                let closed = w.closed_scan(c);
                match closed.next_turn() {
                    Some(next) => next.onward(0),
                    None => Onward::Ends(closed),
                }
            } else if chain + 1 > self.options.immediate_chain_limit {
                Onward::Fails(
                    ErrorView::ImmediateLoop {
                        step: w.cur_step(),
                        name: w.cur_step_name(),
                        limit: self.options.immediate_chain_limit,
                    },
                )
            } else {
                let e = w.entered();
                if e.entry_actions().len() > 0 {
                    Onward::Fires { world: e, chain: Some(chain + 1) }
                } else {
                    e.onward(chain + 1)
                }
            }
        }
    }

    /// Every program enters its first step, in declaration order; then every
    /// program goes through whatever is ready.
    pub open spec fn opening(self) -> Onward
        decreases self.programs.len() - self.current,
    {
        let e = self.entered();
        if self.current >= self.programs.len() {
            Onward::Ends(self)
        } else if e.entry_actions().len() > 0 {
            Onward::Fires { world: e, chain: None }
        } else {
            match e.next_turn() {
                Some(next) => next.opening(),
                None => e.turn(0).onward(0),
            }
        }
    }

    /// Once the current program's first step has fired its actions.
    pub open spec fn opened_on(self) -> Onward {
        match self.next_turn() {
            Some(next) => next.opening(),
            None => self.turn(0).onward(0),
        }
    }
}

impl<'a> Rollout<'a> {
    /// How many actions the current program's step fires on entry.
    pub fn entry_count(&self) -> (r: usize)
        requires
            self.current < self.programs@.len(),
        ensures
            r == self@.entry_actions().len(),
    {
        let p: &Program = &self.programs[self.current];
        assert(self@.programs[self.current as int] == p@);
        if p.finished() {
            return 0;
        }
        assert(p@.flat[p.step as int] == p.flat@[p.step as int]@);
        p.flat[p.step].action_count()
    }

    /// The `i`th action that the current program's step fires on entry.
    pub fn entry_action(&self, i: usize) -> (r: &'a Action)
        requires
            self.current < self.programs@.len(),
            i < self@.entry_actions().len(),
        ensures
            *r == self@.entry_actions()[i as int],
    {
        let p: &Program = &self.programs[self.current];
        assert(self@.programs[self.current as int] == p@);
        assert(p@.flat[p.step as int] == p.flat@[p.step as int]@);
        p.flat[p.step].action(i)
    }

    /// From the current program on: each goes through the steps that are
    /// ready and closes its scan. The chain so far where a step's actions are
    /// to be fired, none where every program has had its turn.
    pub fn scan_on(&mut self, chain: usize) -> (r: Result<Option<usize>, SeqError>)
        requires
            old(self)@.sound(),
            chain <= old(self).options.immediate_chain_limit,
        ensures
            match (r, old(self)@.onward(chain as int)) {
                (Ok(Some(c)), Onward::Fires { world, chain: Some(n) }) => final(self)@ == world && c
                    == n && c <= old(self).options.immediate_chain_limit,
                (Ok(None), Onward::Ends(world)) => final(self)@ == world,
                (Err(e), Onward::Fails(why)) => e@ == why,
                _ => false,
            },
            r is Ok ==> final(self)@.sound(),
            r matches Ok(Some(_)) ==> final(self)@.entry_actions().len() > 0,
            r is Ok ==> final(self)@.options == old(self)@.options && final(self)@.programs.len()
                == old(self)@.programs.len(),
    {
        let ghost first = self@;
        let limit: usize = self.options.immediate_chain_limit;
        let count: usize = self.programs.len();
        let mut links: usize = chain;
        loop
            invariant
                first == old(self)@,
                self@.sound(),
                self@.options == first.options,
                self@.programs.len() == first.programs.len(),
                limit == first.options.immediate_chain_limit,
                links <= limit,
                count == self@.programs.len(),
                first.onward(chain as int) == self@.onward(links as int),
            decreases self@.programs.len() - self@.current, limit + 1 - links,
        {
            let ghost v = self@;
            let c: usize = self.current;
            proof {
                lemma_same_robots(v);
                lemma_ready_exit(
                    v.programs[c as int].flat[v.programs[c as int].step as int],
                    v.scan(),
                    0,
                );
            }
            let moved: bool = self.take_exit();
            let ghost w = self@;
            proof {
                assert(kept(v, w));
                lemma_kept_sound(v, w);
                lemma_same_robots(w);
            }
            assert(self@.programs[c as int] == self.programs@[c as int]@);
            if !moved || self.programs[c].finished() {
                self.close_scan(c);
                proof {
                    assert(kept(w, self@));
                    lemma_kept_sound(w, self@);
                    lemma_same_robots(self@);
                }
                let ghost closed = self@;
                if c + 1 < count {
                    self.current = c + 1;
                    links = 0;
                    assert(self@ == closed.next_turn()->0);
                    proof {
                        assert(kept(closed, self@));
                        lemma_kept_sound(closed, self@);
                    }
                } else {
                    return Ok(None);
                }
            } else {
                if links >= limit {
                    return Err(
                        SeqError::ImmediateLoop {
                            step: self.cur_step(),
                            name: self.cur_step_name(),
                            limit,
                        },
                    );
                }
                links = links + 1;
                self.enter_step();
                proof {
                    assert(kept(w, self@));
                    lemma_kept_sound(w, self@);
                }
                if self.entry_count() > 0 {
                    return Ok(Some(links));
                }
            }
        }
    }

    /// From the current program on: each enters its first step, until one has
    /// actions to fire; then every program goes through whatever is ready.
    pub fn open_on(&mut self) -> (r: Result<Option<Option<usize>>, SeqError>)
        requires
            old(self)@.sound(),
        ensures
            match (r, old(self)@.opening()) {
                (Ok(Some(None)), Onward::Fires { world, chain: None }) => final(self)@ == world,
                (Ok(Some(Some(c))), Onward::Fires { world, chain: Some(n) }) => final(self)@
                    == world && c == n && c <= old(self).options.immediate_chain_limit,
                (Ok(None), Onward::Ends(world)) => final(self)@ == world,
                (Err(e), Onward::Fails(why)) => e@ == why,
                _ => false,
            },
            r is Ok ==> final(self)@.sound(),
            r matches Ok(Some(_)) ==> final(self)@.entry_actions().len() > 0,
            r is Ok ==> final(self)@.options == old(self)@.options && final(self)@.programs.len()
                == old(self)@.programs.len(),
    {
        let ghost first = self@;
        let count: usize = self.programs.len();
        loop
            invariant
                first == old(self)@,
                self@.sound(),
                self@.options == first.options,
                self@.programs.len() == first.programs.len(),
                count == self@.programs.len(),
                first.opening() == self@.opening(),
            decreases self@.programs.len() - self@.current,
        {
            let ghost v = self@;
            let c: usize = self.current;
            self.enter_step();
            let ghost e = self@;
            proof {
                lemma_same_robots(v);
                assert(kept(v, e));
                lemma_kept_sound(v, e);
                lemma_same_robots(e);
            }
            if self.entry_count() > 0 {
                return Ok(Some(None));
            }
            if c + 1 < count {
                self.current = c + 1;
                assert(self@ == e.next_turn()->0);
                proof {
                    assert(kept(e, self@));
                    lemma_kept_sound(e, self@);
                }
            } else {
                self.current = 0;
                assert(self@ == e.turn(0));
                proof {
                    assert(kept(e, self@));
                    lemma_kept_sound(e, self@);
                }
                return match self.scan_on(0) {
                    Ok(Some(chain)) => Ok(Some(Some(chain))),
                    Ok(None) => Ok(None),
                    Err(why) => Err(why),
                };
            }
        }
    }
}

/// A program whose step is not ready passes the turn on, its scan closed; behind the
/// last one the scan ends.
pub proof fn law_a_program_that_waits_passes_the_turn_on(v: RolloutView, chain: int)
    requires
        v.current < v.programs.len(),
        v.programs.len() <= usize::MAX,
        v.ready() is None,
    ensures
        ({
            let c = v.current as int;
            let closed = v.closed_scan(c);
            &&& c + 1 < v.programs.len() ==> v.onward(chain) == (RolloutView {
                current: (c + 1) as usize,
                ..closed
            }).onward(0)
            &&& c + 1 == v.programs.len() ==> v.onward(chain) == Onward::Ends(closed)
        }),
{
}

/// A program whose step is ready takes the exit and enters the step behind it, in the
/// same scan: what that step fires is fired next, and one that fires nothing is judged
/// at once. After as many such steps in one scan as are allowed it fails, and names
/// the step.
pub proof fn law_a_program_that_is_ready_goes_on_at_once(v: RolloutView, chain: int, j: int)
    requires
        v.current < v.programs.len(),
        v.ready() == Some(j),
        !v.took(j).programs[v.current as int].finished(),
    ensures
        ({
            let next = v.took(j).entered();
            &&& chain + 1 > v.options.immediate_chain_limit ==> (v.onward(chain) matches Onward::Fails(
                e,
            ) && (e matches ErrorView::ImmediateLoop { step, limit, .. } && step == v.took(
                j,
            ).programs[v.current as int].step && limit == v.options.immediate_chain_limit))
            &&& chain + 1 <= v.options.immediate_chain_limit && next.entry_actions().len() == 0
                ==> v.onward(chain) == next.onward(chain + 1)
            &&& chain + 1 <= v.options.immediate_chain_limit && next.entry_actions().len() > 0
                ==> v.onward(chain) == (Onward::Fires { world: next, chain: Some(chain + 1) })
        }),
{
}

/// A program that is through when it takes an exit passes the turn on, its scan
/// closed.
pub proof fn law_a_program_that_is_through_passes_the_turn_on(v: RolloutView, chain: int, j: int)
    requires
        v.current < v.programs.len(),
        v.programs.len() <= usize::MAX,
        v.ready() == Some(j),
        v.took(j).programs[v.current as int].finished(),
    ensures
        ({
            let c = v.current as int;
            let closed = v.took(j).closed_scan(c);
            &&& c + 1 < v.programs.len() ==> v.onward(chain) == (RolloutView {
                current: (c + 1) as usize,
                ..closed
            }).onward(0)
            &&& c + 1 == v.programs.len() ==> v.onward(chain) == Onward::Ends(closed)
        }),
{
}

/// At the start every program enters its first step, one after the other, before any
/// of them is judged.
pub proof fn law_every_program_starts_before_any_goes_on(v: RolloutView)
    requires
        v.current < v.programs.len(),
        v.programs.len() <= usize::MAX,
    ensures
        ({
            let c = v.current as int;
            let e = v.entered();
            &&& e.entry_actions().len() > 0 ==> v.opening() == (Onward::Fires {
                world: e,
                chain: None,
            })
            &&& e.entry_actions().len() == 0 && c + 1 < v.programs.len() ==> v.opening() == (
            RolloutView { current: (c + 1) as usize, ..e }).opening()
            &&& e.entry_actions().len() == 0 && c + 1 == v.programs.len() ==> v.opening() == (
            RolloutView { current: 0, ..e }).onward(0)
            &&& c + 1 < v.programs.len() ==> v.opened_on() == (RolloutView {
                current: (c + 1) as usize,
                ..v
            }).opening()
            &&& c + 1 == v.programs.len() ==> v.opened_on() == (RolloutView {
                current: 0,
                ..v
            }).onward(0)
        }),
{
}

} // verus!
