//! The scan loop, as a machine that asks and is answered.
//!
//! What plans, solves or measures stands outside. The machine says by its
//! phase what it asks for; each reply takes it to the next question, until
//! every program is through.

use vstd::prelude::*;

use crate::dispatch::{law_firing_moves_no_cursor, FireReply};
use crate::error::{ErrorView, SeqError};
use crate::finish::TimelineView;
use crate::fire::Fired;
use crate::fixed::{clip, clipped, Pico, Pose, Vec3};
use crate::lanes::lemma_set_all_shape;
use crate::programs::Onward;
use crate::ride::{grips_placed, CarryReply, DeckReply};
use crate::rollout::{Rollout, RolloutOptions, RolloutView};
use crate::scene::Scene;
use crate::sensors::{complete, sensor_writes, update_sensors, Reading};
use crate::seq::{size_steps, Action, Sequence};
use crate::setup::{kept, lemma_kept_sound, start, valid};
use crate::stride::StrideReply;
use crate::tick::{of_vehicles, MoveView, Tick, TickView, VehicleMove};
use crate::timeline::SequenceTimeline;
use crate::views::{copied_names, views};
use crate::world::{
    advected, advected_names, lemma_same_robots, ColliderId, TrackReply,
};

verus! {

/// What the machine asks for.
#[derive(Clone, Copy, Debug, PartialEq, Eq, Structural)]
pub enum Phase {
    /// What every sensor sees; at the start, before any program runs.
    Sense { starting: bool },
    /// What firing the current program's action takes. `chain` counts the
    /// steps that the program has run through in this scan; none while
    /// programs enter their first steps.
    Fire { action: usize, chain: Option<usize> },
    /// What the planned trajectories give at this instant.
    Joints,
    /// Where the bodies are in the frames of the devices' zones.
    Devices,
    /// What is on the decks of the vehicles that move.
    Board,
    /// Where the move of one vehicle takes things.
    Carry { next: usize },
    /// What the vehicles that moved touch.
    Clear,
    /// What the legs of the walking robots do.
    Gaits,
    /// What the robots that track a part do.
    Follow,
    /// What the robots touch.
    Contacts,
    /// Nothing: every program is through.
    Done,
}

/// What the machine is answered.
#[derive(Debug)]
pub enum Reply {
    Sensed(Vec<Reading>),
    Fired(FireReply),
    Sampled(Vec<Vec<Pico>>),
    /// Per device and body: the body's origin in the frame of the device's zone.
    Zones(Vec<Vec<Vec3>>),
    Decks(Vec<DeckReply>),
    Carried(CarryReply),
    Cleared {
        /// Per move: where the load of the machine that walks it then is.
        loads: Vec<Vec<Pose>>,
        meets: Vec<Vec<bool>>,
        touched: Vec<Vec<Option<(String, String)>>>,
    },
    Walked(Vec<Option<StrideReply>>),
    Followed(Vec<TrackReply>),
    Contacts {
        /// Where what is held then is.
        held: Vec<Pose>,
        touched: Vec<Vec<Option<(String, String)>>>,
        pairs: Vec<(ColliderId, ColliderId)>,
    },
}

/// The scan loop of a rollout.
pub struct Run<'a> {
    pub world: Rollout<'a>,
    /// The ticks since the start.
    pub tick: u64,
    pub phase: Phase,
    /// What the devices did this tick.
    pub pending: Tick,
    /// What rides each vehicle that moves this tick.
    pub riders: Vec<Vec<String>>,
    /// The scenario it runs under; none is the scene as it stands.
    pub scenario: Option<String>,
}

#[verifier::ext_equal]
pub struct RunView {
    pub world: RolloutView,
    pub tick: u64,
    pub phase: Phase,
    pub pending: TickView,
    pub riders: Seq<Seq<String>>,
    pub scenario: Option<String>,
}

impl<'a> View for Run<'a> {
    type V = RunView;

    open spec fn view(&self) -> RunView {
        RunView {
            world: self.world@,
            tick: self.tick,
            phase: self.phase,
            pending: self.pending@,
            riders: views(self.riders@),
            scenario: self.scenario,
        }
    }
}

/// A rollout before its first scan.
pub open spec fn begun(
    scene: Scene,
    sequences: Seq<&Sequence>,
    options: RolloutOptions,
    scenario: Option<String>,
) -> RunView {
    RunView {
        world: start(scene, sequences, options),
        tick: 0,
        phase: Phase::Sense { starting: true },
        pending: TickView::nothing(),
        riders: Seq::empty(),
        scenario,
    }
}

/// A sequence that can be run: it has steps, as many as can be counted.
pub open spec fn runnable(sequence: Sequence) -> bool {
    0 < size_steps(sequence.steps@) <= usize::MAX
}

/// Where a reply takes the machine.
#[verifier::ext_equal]
pub enum Next {
    Fails(ErrorView),
    Leads(RunView),
}

/// Everything that rode this tick, deck by deck.
pub open spec fn flat_riders(riders: Seq<Seq<String>>) -> Seq<String>
    decreases riders.len(),
{
    if riders.len() == 0 {
        Seq::empty()
    } else {
        flat_riders(riders.drop_last()) + riders.last()
    }
}

impl RolloutView {
    /// The lanes after the sensors were read.
    pub open spec fn sensed(self, readings: Seq<Reading>) -> RolloutView {
        RolloutView {
            lanes: self.lanes.set_all(
                sensor_writes(
                    self.sensors,
                    self.scene.sensors@,
                    readings,
                    self.obstacles,
                    self.scene.robots@,
                ),
                self.t,
            ),
            ..self
        }
    }

    /// There is a complete reading for every sensor.
    pub open spec fn readings_fit(self, readings: Seq<Reading>) -> bool {
        readings.len() == self.sensors.len() && forall|i: int|
            0 <= i < readings.len() ==> complete(
                #[trigger] readings[i],
                self.obstacles.len(),
                self.scene.robots@.len(),
            )
    }

    /// The first `n` programs' scans closed: what is high at the start is a
    /// level, not an edge.
    pub open spec fn scans_closed(self, n: nat) -> RolloutView
        decreases n,
    {
        if n == 0 {
            self
        } else {
            self.scans_closed((n - 1) as nat).closed_scan(n - 1)
        }
    }

    /// The loads of the first `n` moves put where the machines' bodies are.
    pub open spec fn loads_placed(self, moves: Seq<MoveView>, loads: Seq<Vec<Pose>>, n: nat) -> RolloutView
        decreases n,
    {
        if n == 0 {
            self
        } else {
            let less = self.loads_placed(moves, loads, (n - 1) as nat);
            match less.walker_on(less.mover(moves[n - 1])@, 0) {
                Some(r) => less.placed(r, loads[n - 1]@),
                None => less,
            }
        }
    }

    /// There is a pose for everything that a walked vehicle's machine carries.
    pub open spec fn loads_fit(self, moves: Seq<MoveView>, loads: Seq<Vec<Pose>>) -> bool {
        loads.len() == moves.len() && forall|i: int|
            0 <= i < moves.len() ==> (self.walker_on(self.mover(#[trigger] moves[i])@, 0) matches Some(
                r,
            ) ==> loads[i]@.len() == self.load_of(r))
    }

    /// What stopped settles, and the line is supplied.
    pub open spec fn tick_settled(self, tick: TickView, riders: Seq<Seq<String>>) -> RolloutView {
        self.stops_settled(
            advected(self.obstacles, tick.moved) + flat_riders(riders),
        ).supplied(tick.returned)
    }

    /// The vehicles have moved: their loads are placed, their aisles checked,
    /// what stopped settles, and the line is supplied.
    pub open spec fn cleared(
        self,
        tick: TickView,
        riders: Seq<Seq<String>>,
        loads: Seq<Vec<Pose>>,
        meets: Seq<Seq<bool>>,
        touched: Seq<Vec<Option<(String, String)>>>,
    ) -> Fired {
        match self.loads_placed(tick.moves, loads, tick.moves.len()).moves_checked(
            tick.moves,
            riders,
            meets,
            touched,
        ) {
            Fired::Fails(e) => Fired::Fails(e),
            Fired::Leads(w) => Fired::Leads(w.tick_settled(tick, riders)),
        }
    }

    /// What is held is where the robots hold it, and nothing touches.
    pub open spec fn contacts_checked(
        self,
        held: Seq<Pose>,
        touched: Seq<Vec<Option<(String, String)>>>,
        pairs: Seq<(ColliderId, ColliderId)>,
    ) -> Fired {
        let w = RolloutView {
            obstacles: grips_placed(self.obstacles, self.attachments, held, held.len()),
            ..self
        };
        match w.riders_checked(touched) {
            Fired::Fails(e) => Fired::Fails(e),
            Fired::Leads(x) => match x.robots_meet(pairs) {
                Some(e) => Fired::Fails(e),
                None => Fired::Leads(x),
            },
        }
    }

    /// The contacts speak of what is there.
    pub open spec fn contacts_fit(
        self,
        held: Seq<Pose>,
        touched: Seq<Vec<Option<(String, String)>>>,
        pairs: Seq<(ColliderId, ColliderId)>,
    ) -> bool {
        &&& held.len() == self.attachments.len()
        &&& touched.len() == self.moving.len()
        &&& forall|m: int| 0 <= m < touched.len() ==> (#[trigger] touched[m])@.len()
            == self.scene.robots@.len()
        &&& forall|i: int|
            0 <= i < pairs.len() ==> self.exists_collider((#[trigger] pairs[i]).0)
                && self.exists_collider(pairs[i].1)
    }
}

impl RunView {
    /// Where the scan leaves the machine. When every program has had its turn
    /// and not all are through, the next tick begins; time runs out with the
    /// longest duration allowed.
    pub open spec fn came_to(self, onward: Onward) -> Next {
        match onward {
            Onward::Fails(e) => Next::Fails(e),
            Onward::Fires { world, chain } => Next::Leads(
                RunView {
                    world,
                    phase: Phase::Fire {
                        action: 0,
                        chain: match chain {
                            Some(n) => Some(n as usize),
                            None => None,
                        },
                    },
                    ..self
                },
            ),
            Onward::Ends(world) => if world.finished() {
                Next::Leads(RunView { world, phase: Phase::Done, ..self })
            } else {
                let tick = if self.tick < u64::MAX {
                    (self.tick + 1) as u64
                } else {
                    self.tick
                };
                let w = RolloutView { t: clip(tick * world.options.dt), ..world };
                if w.t > w.options.max_duration {
                    Next::Fails(w.timeout())
                } else {
                    Next::Leads(RunView { world: w, tick, phase: Phase::Joints, ..self })
                }
            },
        }
    }

    /// In the phase `phase`, with the world as `fired` leaves it.
    pub open spec fn on_to(self, fired: Fired, phase: Phase) -> Next {
        match fired {
            Fired::Fails(e) => Next::Fails(e),
            Fired::Leads(world) => Next::Leads(RunView { world, phase, ..self }),
        }
    }

    /// Once an action has been fired: the next one, or, after the last, on
    /// with the scan.
    pub open spec fn fired_on(self, action: usize, chain: Option<usize>, fired: Fired) -> Next {
        match fired {
            Fired::Fails(e) => Next::Fails(e),
            Fired::Leads(w) => if action + 1 < w.entry_actions().len() {
                Next::Leads(
                    RunView {
                        world: w,
                        phase: Phase::Fire { action: (action + 1) as usize, chain },
                        ..self
                    },
                )
            } else {
                self.came_to(
                    match chain {
                        Some(n) => w.onward(n as int),
                        None => w.opened_on(),
                    },
                )
            },
        }
    }

    /// Once a vehicle's move has carried what it carries.
    pub open spec fn carried_on(self, next: usize, reply: CarryReply) -> RunView {
        RunView {
            world: self.world.carried(
                self.pending.moves[next as int],
                self.riders[next as int],
                reply,
            ),
            phase: if next + 1 < self.pending.moves.len() {
                Phase::Carry { next: (next + 1) as usize }
            } else {
                Phase::Clear
            },
            ..self
        }
    }

    /// Whether a reply answers what the machine asks for.
    pub open spec fn asks(self, reply: Reply) -> bool {
        let v = self.world;
        match (self.phase, reply) {
            (Phase::Sense { .. }, Reply::Sensed(readings)) => v.readings_fit(readings@),
            (Phase::Fire { action, .. }, Reply::Fired(reply)) => v.answered(
                v.entry_actions()[action as int],
                reply,
            ),
            (Phase::Joints, Reply::Sampled(samples)) => v.sampled(views(samples@)),
            (Phase::Devices, Reply::Zones(points)) => v.located(views(points@)),
            (Phase::Board, Reply::Decks(replies)) => v.decks_answered(
                self.pending.moves,
                replies@,
            ),
            (Phase::Carry { next }, Reply::Carried(reply)) => v.carry_answered(
                self.pending.moves[next as int],
                self.riders[next as int],
                reply,
            ),
            (Phase::Clear, Reply::Cleared { loads, meets, touched }) => {
                &&& v.loads_fit(self.pending.moves, loads@)
                &&& v.contacts_answered(self.pending.moves, views(meets@), touched@)
            },
            (Phase::Gaits, Reply::Walked(replies)) => v.strides_answered(replies@),
            (Phase::Follow, Reply::Followed(replies)) => v.tracks_answered(replies@),
            (Phase::Contacts, Reply::Contacts { held, touched, pairs }) => v.contacts_fit(
                held@,
                touched@,
                pairs@,
            ),
            _ => false,
        }
    }

    /// Where a reply takes the machine.
    pub open spec fn next(self, reply: Reply) -> Next {
        let v = self.world;
        match (self.phase, reply) {
            (Phase::Sense { starting }, Reply::Sensed(readings)) => {
                let w = v.sensed(readings@);
                self.came_to(
                    if starting {
                        w.scans_closed(w.programs.len()).turn(0).opening()
                    } else {
                        w.turn(0).onward(0)
                    },
                )
            },
            (Phase::Fire { action, chain }, Reply::Fired(reply)) => self.fired_on(
                action,
                chain,
                v.fired(v.entry_actions()[action as int], reply),
            ),
            (Phase::Joints, Reply::Sampled(samples)) => Next::Leads(
                RunView {
                    world: v.joints_advanced(views(samples@)),
                    phase: Phase::Devices,
                    ..self
                },
            ),
            (Phase::Devices, Reply::Zones(points)) => {
                let inside = v.inside(views(points@));
                let w = v.devices_advanced(inside);
                let tick = v.tick(inside);
                if tick.moves.len() == 0 {
                    Next::Leads(
                        RunView {
                            world: RolloutView { moving: Seq::empty(), ..w }.tick_settled(
                                tick,
                                Seq::empty(),
                            ),
                            phase: Phase::Gaits,
                            pending: tick,
                            ..self
                        },
                    )
                } else {
                    Next::Leads(RunView { world: w, phase: Phase::Board, pending: tick, ..self })
                }
            },
            (Phase::Board, Reply::Decks(replies)) => {
                let names = advected(v.obstacles, self.pending.moved);
                let moves = self.pending.moves;
                Next::Leads(
                    RunView {
                        world: v.boarded(moves, names, replies@, moves.len()),
                        riders: v.all_riders(moves, names, replies@),
                        phase: Phase::Carry { next: 0 },
                        ..self
                    },
                )
            },
            (Phase::Carry { next }, Reply::Carried(reply)) => Next::Leads(
                self.carried_on(next, reply),
            ),
            (Phase::Clear, Reply::Cleared { loads, meets, touched }) => self.on_to(
                v.cleared(self.pending, self.riders, loads@, views(meets@), touched@),
                Phase::Gaits,
            ),
            (Phase::Gaits, Reply::Walked(replies)) => self.on_to(
                match v.all_walked(replies@, v.robots.len()) {
                    Fired::Fails(e) => Fired::Fails(e),
                    Fired::Leads(w) => Fired::Leads(w.spins_advanced()),
                },
                Phase::Follow,
            ),
            (Phase::Follow, Reply::Followed(replies)) => self.on_to(
                v.all_tracked(replies@, v.robots.len()),
                Phase::Contacts,
            ),
            (Phase::Contacts, Reply::Contacts { held, touched, pairs }) => self.on_to(
                v.contacts_checked(held@, touched@, pairs@),
                Phase::Sense { starting: false },
            ),
            _ => Next::Leads(self),
        }
    }

    /// The machine's parts fit together, and its phase with them.
    pub open spec fn sound(self) -> bool {
        &&& self.world.sound()
        &&& match self.phase {
            Phase::Fire { action, chain } => action < self.world.entry_actions().len() && (
            chain matches Some(n) ==> n <= self.world.options.immediate_chain_limit),
            Phase::Board => self.world.refers(self.pending) && self.pending.moves.len() > 0,
            Phase::Carry { next } => self.world.refers(self.pending) && next
                < self.pending.moves.len() && self.riders.len() == self.pending.moves.len(),
            Phase::Clear => self.world.refers(self.pending) && self.riders.len()
                == self.pending.moves.len(),
            _ => true,
        }
    }
}

/// Whether a result is what was to come.
pub open spec fn comes_to(r: Result<(), SeqError>, after: RunView, want: Next) -> bool {
    match (r, want) {
        (Ok(_), Next::Leads(v)) => after == v,
        (Err(e), Next::Fails(why)) => e@ == why,
        _ => false,
    }
}

impl<'a> Rollout<'a> {
    /// Evaluates every sensor.
    pub fn sense(&mut self, readings: &Vec<Reading>)
        requires
            old(self)@.sound(),
            old(self)@.readings_fit(readings@),
        ensures
            final(self)@ == old(self)@.sensed(readings@),
            final(self)@.sound(),
    {
        let ghost v = self@;
        let t: Pico = self.t;
        proof {
            assert forall|i: int| 0 <= i < self.sensors@.len() implies (
            #[trigger] self.sensors@[i]).lane < self.lanes.tracks@.len() by {
                assert(v.sensors[i] == self.sensors@[i]@);
            }
            let writes = sensor_writes(
                v.sensors,
                v.scene.sensors@,
                readings@,
                v.obstacles,
                v.scene.robots@,
            );
            assert forall|i: int| 0 <= i < writes.len() implies (#[trigger] writes[i]).0
                < v.lanes.tracks.len() by {
                assert(v.sensors[i].lane < v.lanes.tracks.len());
            }
            lemma_set_all_shape(v.lanes, writes, t);
        }
        update_sensors(
            &mut self.lanes,
            &self.sensors,
            &self.scene.sensors,
            readings,
            &self.obstacles,
            &self.scene.robots,
            t,
        );
        proof {
            assert(self@ =~= v.sensed(readings@));
            lemma_same_robots(v);
            lemma_kept_sound(v, self@);
        }
    }

    /// Closes every program's scan.
    fn close_scans(&mut self)
        requires
            old(self)@.sound(),
        ensures
            final(self)@ == old(self)@.scans_closed(old(self).programs@.len()),
            final(self)@.sound(),
            final(self)@.programs.len() == old(self)@.programs.len(),
            final(self)@.options == old(self)@.options,
    {
        let ghost v = self@;
        let n: usize = self.programs.len();
        let mut p: usize = 0;
        while p < n
            invariant
                p <= n,
                n == self.programs@.len(),
                n == v.programs.len(),
                self@.sound(),
                self@.options == v.options,
                self@ == v.scans_closed(p as nat),
            decreases n - p,
        {
            let ghost before = self@;
            self.close_scan(p);
            proof {
                lemma_same_robots(before);
                assert(kept(before, self@));
                lemma_kept_sound(before, self@);
            }
            p = p + 1;
        }
    }

    fn place_loads(&mut self, moves: &Vec<VehicleMove>, loads: &Vec<Vec<Pose>>)
        requires
            old(self)@.sound(),
            of_vehicles(views(moves@), old(self)@.devices),
            old(self)@.loads_fit(views(moves@), loads@),
        ensures
            final(self)@ == old(self)@.loads_placed(views(moves@), loads@, moves@.len()),
            final(self)@.sound(),
            final(self)@ == (RolloutView { obstacles: final(self)@.obstacles, ..old(self)@ }),
    {
        let ghost v = self@;
        let ghost all = views(moves@);
        let mut n: usize = 0;
        while n < moves.len()
            invariant
                n <= moves.len(),
                all == views(moves@),
                v.loads_fit(all, loads@),
                of_vehicles(all, v.devices),
                self@.sound(),
                self@ == (RolloutView { obstacles: self@.obstacles, ..v }),
                self@ == v.loads_placed(all, loads@, n as nat),
            decreases moves.len() - n,
        {
            let mv: &VehicleMove = &moves[n];
            assert(all[n as int] == mv@);
            assert(mv.device < v.devices.len());
            assert(self@.devices[mv.device as int] == self.devices@[mv.device as int]@);
            proof {
                lemma_walker_alike(v, self@, v.mover(mv@)@, 0);
            }
            match self.walker_on(self.devices[mv.device].name.as_str()) {
                Some(r) => {
                    self.place_carried(r, &loads[n]);
                },
                None => {},
            }
            n = n + 1;
        }
    }

    fn settle_tick(&mut self, tick: &Tick, riders: &Vec<Vec<String>>)
        requires
            old(self)@.sound(),
            old(self)@.refers(tick@),
        ensures
            final(self)@ == old(self)@.tick_settled(tick@, views(riders@)),
            final(self)@.sound(),
    {
        let ghost v = self@;
        let ghost all = views(riders@);
        proof {
            assert forall|i: int| 0 <= i < tick.moved@.len() implies (
            #[trigger] tick.moved@[i]).obstacle < self.obstacles@.len() by {
                assert(tick@.moved[i] == tick.moved@[i]);
            }
            assert forall|i: int| 0 <= i < tick.returned@.len() implies (
            #[trigger] tick.returned@[i]).obstacle < self.obstacles@.len() by {
                assert(tick@.returned[i] == tick.returned@[i]);
            }
        }
        let mut carried: Vec<String> = advected_names(&self.obstacles, &tick.moved);
        let ghost names = carried@;
        let mut i: usize = 0;
        assert(all.take(0) =~= Seq::<Seq<String>>::empty());
        assert(carried@ =~= names + flat_riders(all.take(0)));
        while i < riders.len()
            invariant
                i <= riders.len(),
                all == views(riders@),
                carried@ == names + flat_riders(all.take(i as int)),
            decreases riders.len() - i,
        {
            assert(all.take(i + 1).drop_last() =~= all.take(i as int));
            assert(all.take(i + 1).last() == riders@[i as int]@);
            let mut more: Vec<String> = copied_names(&riders[i]);
            carried.append(&mut more);
            assert(carried@ =~= names + (flat_riders(all.take(i as int)) + riders@[i as int]@));
            i = i + 1;
        }
        assert(all.take(i as int) =~= all);
        self.settle(&carried);
        self.supply(&tick.returned);
    }
}

/// Who walks a vehicle depends on the robots alone.
proof fn lemma_walker_alike(v: RolloutView, w: RolloutView, device: Seq<char>, from: int)
    requires
        w.robots == v.robots,
        w.scene == v.scene,
    ensures
        w.walker_on(device, from) == v.walker_on(device, from),
    decreases v.robots.len() - from,
{
    if 0 <= from < v.robots.len() {
        lemma_walker_alike(v, w, device, from + 1);
    }
}

impl<'a> Run<'a> {
    /// A rollout before its first scan.
    pub fn new(
        scene: &'a Scene,
        sequences: &Vec<&'a Sequence>,
        options: RolloutOptions,
        scenario: Option<String>,
    ) -> (r: Run<'a>)
        requires
            valid(*scene),
            options.dt > 0,
            sequences@.len() > 0,
            forall|i: int| 0 <= i < sequences@.len() ==> runnable(*#[trigger] sequences@[i]),
        ensures
            r@ == begun(*scene, sequences@, options, scenario),
            r@.sound(),
    {
        let pending: Tick = Tick {
            moved: Vec::new(),
            returned: Vec::new(),
            lanes: Vec::new(),
            moves: Vec::new(),
            shifts: Vec::new(),
        };
        assert(pending@ =~= TickView::nothing());
        let riders: Vec<Vec<String>> = Vec::new();
        assert(views(riders@) =~= Seq::<Seq<String>>::empty());
        proof {
            assert forall|i: int| 0 <= i < sequences@.len() implies size_steps(
                (#[trigger] sequences@[i]).steps@,
            ) <= usize::MAX by {
                assert(runnable(*sequences@[i]));
            }
        }
        Run {
            world: Rollout::new(scene, sequences, options),
            tick: 0,
            phase: Phase::Sense { starting: true },
            pending,
            riders,
            scenario,
        }
    }

    /// The next tick, or the end, once every program has had its turn.
    fn tick_over(&mut self) -> (out: Result<(), SeqError>)
        requires
            old(self)@.world.sound(),
        ensures
            comes_to(out, final(self)@, old(self)@.came_to(Onward::Ends(old(self)@.world))),
            out is Ok ==> final(self)@.sound(),
    {
        let ghost first = self@;
        if self.world.finished() {
            self.phase = Phase::Done;
            assert(self@ =~= (RunView { phase: Phase::Done, ..first }));
            return Ok(());
        }
        if self.tick < u64::MAX {
            self.tick = self.tick + 1;
        }
        let dt: Pico = self.world.options.dt;
        assert(0 <= self.tick * dt <= u64::MAX * i64::MAX) by (nonlinear_arith)
            requires
                0 < dt <= i64::MAX,
                0 <= self.tick <= u64::MAX,
        ;
        let t: Pico = clipped(self.tick as i128 * dt as i128);
        let ghost before = self.world@;
        self.world.t = t;
        proof {
            lemma_same_robots(before);
            assert(self.world@ =~= (RolloutView { t, ..before }));
            assert(kept(before, self.world@));
            lemma_kept_sound(before, self.world@);
        }
        if t > self.world.options.max_duration {
            return Err(self.world.timeout());
        }
        self.phase = Phase::Joints;
        Ok(())
    }

    /// Goes on scanning the programs.
    fn scan_on(&mut self, chain: usize) -> (out: Result<(), SeqError>)
        requires
            old(self)@.world.sound(),
            chain <= old(self)@.world.options.immediate_chain_limit,
        ensures
            comes_to(
                out,
                final(self)@,
                old(self)@.came_to(old(self)@.world.onward(chain as int)),
            ),
            out is Ok ==> final(self)@.sound(),
    {
        match self.world.scan_on(chain) {
            Ok(Some(n)) => {
                self.phase = Phase::Fire { action: 0, chain: Some(n) };
                Ok(())
            },
            Ok(None) => self.tick_over(),
            Err(e) => Err(e),
        }
    }

    /// Goes on entering the programs' first steps.
    fn open_on(&mut self) -> (out: Result<(), SeqError>)
        requires
            old(self)@.world.sound(),
        ensures
            comes_to(out, final(self)@, old(self)@.came_to(old(self)@.world.opening())),
            out is Ok ==> final(self)@.sound(),
    {
        match self.world.open_on() {
            Ok(Some(chain)) => {
                self.phase = Phase::Fire { action: 0, chain };
                Ok(())
            },
            Ok(None) => self.tick_over(),
            Err(e) => Err(e),
        }
    }

    fn give_turn(&mut self, p: usize)
        requires
            old(self)@.world.sound(),
            p < old(self)@.world.programs.len(),
        ensures
            final(self)@ == (RunView {
                world: old(self)@.world.turn(p as int),
                ..old(self)@
            }),
            final(self)@.world.sound(),
    {
        let ghost first = self@;
        self.world.current = p;
        proof {
            assert(self@.world =~= first.world.turn(p as int));
            lemma_same_robots(first.world);
            lemma_kept_sound(first.world, self@.world);
        }
    }

    fn sensed(&mut self, starting: bool, readings: &Vec<Reading>) -> (out: Result<(), SeqError>)
        requires
            old(self)@.world.sound(),
            old(self)@.world.readings_fit(readings@),
        ensures
            ({
                let w = old(self)@.world.sensed(readings@);
                comes_to(
                    out,
                    final(self)@,
                    old(self)@.came_to(
                        if starting {
                            w.scans_closed(w.programs.len()).turn(0).opening()
                        } else {
                            w.turn(0).onward(0)
                        },
                    ),
                )
            }),
            out is Ok ==> final(self)@.sound(),
    {
        self.world.sense(readings);
        if starting {
            self.world.close_scans();
            self.give_turn(0);
            self.open_on()
        } else {
            self.give_turn(0);
            self.scan_on(0)
        }
    }

    fn fired(&mut self, action: usize, chain: Option<usize>, reply: FireReply) -> (out: Result<
        (),
        SeqError,
    >)
        requires
            old(self)@.sound(),
            old(self)@.phase == (Phase::Fire { action, chain }),
            old(self)@.world.answered(
                old(self)@.world.entry_actions()[action as int],
                reply,
            ),
        ensures
            comes_to(
                out,
                final(self)@,
                old(self)@.fired_on(
                    action,
                    chain,
                    old(self)@.world.fired(
                        old(self)@.world.entry_actions()[action as int],
                        reply,
                    ),
                ),
            ),
            out is Ok ==> final(self)@.sound(),
    {
        let ghost first = self@;
        let act: &Action = self.world.entry_action(action);
        proof {
            law_firing_moves_no_cursor(first.world, *act, reply);
        }
        match self.world.fire(act, reply) {
            Ok(_) => {},
            Err(e) => {
                return Err(e);
            },
        }
        let ghost w = self.world@;
        let count: usize = self.world.entry_count();
        if count > 0 && action < count - 1 {
            self.phase = Phase::Fire { action: action + 1, chain };
            return Ok(());
        }
        match chain {
            Some(n) => {
                self.scan_on(n)
            },
            None => {
                let c: usize = self.world.current;
                let programs: usize = self.world.programs.len();
                if c + 1 < programs {
                    self.give_turn(c + 1);
                    assert(w.next_turn() == Some(self@.world));
                    self.open_on()
                } else {
                    self.give_turn(0);
                    assert(w.next_turn() is None);
                    self.scan_on(0)
                }
            },
        }
    }

    fn zoned(&mut self, points: &Vec<Vec<Vec3>>)
        requires
            old(self)@.sound(),
            old(self)@.phase == Phase::Devices,
            old(self)@.world.located(views(points@)),
        ensures
            Next::Leads(final(self)@) == old(self)@.next(Reply::Zones(*points)),
            final(self)@.sound(),
    {
        let ghost first = self@;
        let inside: Vec<Vec<bool>> = self.world.find_inside(points);
        let tick: Tick = self.world.advance_devices(&inside);
        if tick.moves.len() == 0 {
            let ghost w = self.world@;
            self.world.moving = Vec::new();
            proof {
                assert(self.world@ =~= (RolloutView { moving: Seq::empty(), ..w }));
                lemma_same_robots(w);
                lemma_kept_sound(w, self.world@);
            }
            let none: Vec<Vec<String>> = Vec::new();
            assert(views(none@) =~= Seq::<Seq<String>>::empty());
            self.world.settle_tick(&tick, &none);
            self.phase = Phase::Gaits;
        } else {
            self.phase = Phase::Board;
        }
        self.pending = tick;
    }

    fn boarded(&mut self, replies: &Vec<DeckReply>)
        requires
            old(self)@.sound(),
            old(self)@.phase == Phase::Board,
            old(self)@.world.decks_answered(old(self)@.pending.moves, replies@),
        ensures
            Next::Leads(final(self)@) == old(self)@.next(Reply::Decks(*replies)),
            final(self)@.sound(),
    {
        let ghost first = self@;
        proof {
            assert forall|i: int| 0 <= i < self.pending.moved@.len() implies (
            #[trigger] self.pending.moved@[i]).obstacle < self.world.obstacles@.len() by {
                assert(first.pending.moved[i] == self.pending.moved@[i]);
            }
        }
        let names: Vec<String> = advected_names(&self.world.obstacles, &self.pending.moved);
        self.riders = self.world.board(&self.pending.moves, &names, replies);
        self.phase = Phase::Carry { next: 0 };
    }

    fn carried(&mut self, next: usize, reply: &CarryReply)
        requires
            old(self)@.sound(),
            old(self)@.phase == (Phase::Carry { next }),
            old(self)@.world.carry_answered(
                old(self)@.pending.moves[next as int],
                old(self)@.riders[next as int],
                *reply,
            ),
        ensures
            final(self)@ == old(self)@.carried_on(next, *reply),
            final(self)@.sound(),
    {
        let ghost first = self@;
        assert(first.pending.moves[next as int] == self.pending.moves@[next as int]@);
        assert(first.riders[next as int] == self.riders@[next as int]@);
        assert(first.world.devices[first.pending.moves[next as int].device as int].state is Vehicle);
        let count: usize = self.pending.moves.len();
        self.world.carry(&self.pending.moves[next], &self.riders[next], reply);
        if next + 1 < count {
            self.phase = Phase::Carry { next: next + 1 };
        } else {
            self.phase = Phase::Clear;
        }
    }

    fn cleared(
        &mut self,
        loads: &Vec<Vec<Pose>>,
        meets: &Vec<Vec<bool>>,
        touched: &Vec<Vec<Option<(String, String)>>>,
    ) -> (out: Result<(), SeqError>)
        requires
            old(self)@.sound(),
            old(self)@.phase == Phase::Clear,
            old(self)@.world.loads_fit(old(self)@.pending.moves, loads@),
            old(self)@.world.contacts_answered(
                old(self)@.pending.moves,
                views(meets@),
                touched@,
            ),
        ensures
            comes_to(
                out,
                final(self)@,
                old(self)@.on_to(
                    old(self)@.world.cleared(
                        old(self)@.pending,
                        old(self)@.riders,
                        loads@,
                        views(meets@),
                        touched@,
                    ),
                    Phase::Gaits,
                ),
            ),
            out is Ok ==> final(self)@.sound(),
    {
        let ghost first = self@;
        self.world.place_loads(&self.pending.moves, loads);
        match self.world.check_moves(&self.pending.moves, &self.riders, meets, touched) {
            Ok(_) => {},
            Err(e) => {
                return Err(e);
            },
        }
        self.world.settle_tick(&self.pending, &self.riders);
        self.phase = Phase::Gaits;
        Ok(())
    }

    fn touched(
        &mut self,
        held: &Vec<Pose>,
        touched: &Vec<Vec<Option<(String, String)>>>,
        pairs: &Vec<(ColliderId, ColliderId)>,
    ) -> (out: Result<(), SeqError>)
        requires
            old(self)@.sound(),
            old(self)@.world.contacts_fit(held@, touched@, pairs@),
        ensures
            comes_to(
                out,
                final(self)@,
                old(self)@.on_to(
                    old(self)@.world.contacts_checked(held@, touched@, pairs@),
                    Phase::Sense { starting: false },
                ),
            ),
            out is Ok ==> final(self)@.sound(),
    {
        let ghost v = self.world@;
        self.world.place_held(held);
        match self.world.check_rider_collisions(touched) {
            Ok(_) => {},
            Err(e) => {
                return Err(e);
            },
        }
        proof {
            assert forall|i: int| 0 <= i < pairs@.len() implies self.world@.exists_collider(
                (#[trigger] pairs@[i]).0,
            ) && self.world@.exists_collider(pairs@[i].1) by {
                assert(v.exists_collider(pairs@[i].0) && v.exists_collider(pairs@[i].1));
            }
        }
        match self.world.check_robot_collisions(pairs) {
            Ok(_) => {},
            Err(e) => {
                return Err(e);
            },
        }
        self.phase = Phase::Sense { starting: false };
        Ok(())
    }

    /// Takes a reply, and goes on to the next question.
    pub fn advance(&mut self, reply: Reply) -> (out: Result<(), SeqError>)
        requires
            old(self)@.sound(),
            old(self)@.asks(reply),
        ensures
            comes_to(out, final(self)@, old(self)@.next(reply)),
            out is Ok ==> final(self)@.sound(),
    {
        let ghost first = self@;
        match (self.phase, reply) {
            (Phase::Sense { starting }, Reply::Sensed(readings)) => self.sensed(
                starting,
                &readings,
            ),
            (Phase::Fire { action, chain }, Reply::Fired(reply)) => self.fired(
                action,
                chain,
                reply,
            ),
            (Phase::Joints, Reply::Sampled(samples)) => {
                self.world.advance_joints(&samples);
                self.phase = Phase::Devices;
                Ok(())
            },
            (Phase::Devices, Reply::Zones(points)) => {
                self.zoned(&points);
                Ok(())
            },
            (Phase::Board, Reply::Decks(replies)) => {
                self.boarded(&replies);
                Ok(())
            },
            (Phase::Carry { next }, Reply::Carried(reply)) => {
                self.carried(next, &reply);
                Ok(())
            },
            (Phase::Clear, Reply::Cleared { loads, meets, touched }) => self.cleared(
                &loads,
                &meets,
                &touched,
            ),
            (Phase::Gaits, Reply::Walked(replies)) => match self.world.advance_gaits(&replies) {
                Ok(_) => {
                    self.world.advance_spins();
                    self.phase = Phase::Follow;
                    Ok(())
                },
                Err(e) => Err(e),
            },
            (Phase::Follow, Reply::Followed(replies)) => {
                match self.world.follow_tracked_parts(&replies) {
                    Ok(_) => {
                        self.phase = Phase::Contacts;
                        Ok(())
                    },
                    Err(e) => Err(e),
                }
            },
            (Phase::Contacts, Reply::Contacts { held, touched, pairs }) => self.touched(
                &held,
                &touched,
                &pairs,
            ),
            _ => Ok(()),
        }
    }

    /// Closes a run that is through into its timeline.
    pub fn finish(self, rests: &Vec<Pose>) -> (r: SequenceTimeline)
        requires
            self@.sound(),
            self@.phase == Phase::Done,
            rests@.len() == self.world.robots@.len(),
        ensures
            r@ == (TimelineView {
                scenario: self@.scenario,
                ..self@.world.timeline(rests@)
            }),
    {
        let mut r: SequenceTimeline = self.world.finish(rests);
        r.scenario = self.scenario;
        r
    }
}

/// A scan that ends with every program through ends the run. Otherwise the next tick
/// begins, one step of time later, unless that is beyond the time allowed: then the
/// run fails.
pub proof fn law_time_goes_on_until_all_are_through(run: RunView, world: RolloutView)
    requires
        run.tick < u64::MAX,
        i64::MIN <= (run.tick + 1) * world.options.dt <= i64::MAX,
    ensures
        ({
            let t = (run.tick + 1) * world.options.dt;
            let next = run.came_to(Onward::Ends(world));
            let through = forall|p: int|
                0 <= p < world.programs.len() ==> (#[trigger] world.programs[p]).step
                    >= world.programs[p].flat.len();
            &&& through ==> next == Next::Leads(RunView { world, phase: Phase::Done, ..run })
            &&& !through && t > world.options.max_duration ==> next is Fails
            &&& !through && t <= world.options.max_duration ==> next == Next::Leads(
                RunView {
                    world: RolloutView { t: t as i64, ..world },
                    tick: (run.tick + 1) as u64,
                    phase: Phase::Joints,
                    ..run
                },
            )
        }),
{
    let through = forall|p: int|
        0 <= p < world.programs.len() ==> (#[trigger] world.programs[p]).step
            >= world.programs[p].flat.len();
    if through {
        assert forall|p: int| 0 <= p < world.programs.len() implies (
        #[trigger] world.programs[p]).finished() by {}
        assert(world.finished());
    } else {
        let p = choose|p: int|
            0 <= p < world.programs.len() && (#[trigger] world.programs[p]).step
                < world.programs[p].flat.len();
        assert(!world.programs[p].finished());
    }
}

/// Within a tick the joints move first, then the devices with what they carry, then
/// the walking machines, then what follows a base; then what touches is checked, and
/// last the sensors are read and the programs scanned. What fails ends the run.
pub proof fn law_a_tick_has_one_order(run: RunView, reply: Reply)
    requires
        run.asks(reply),
    ensures
        match (run.phase, run.next(reply)) {
            (Phase::Joints, Next::Leads(next)) => next.phase is Devices,
            (Phase::Joints, Next::Fails(_)) => false,
            (Phase::Devices, Next::Leads(next)) => next.phase is Board || next.phase is Gaits,
            (Phase::Devices, Next::Fails(_)) => false,
            (Phase::Board, Next::Leads(next)) => next.phase == (Phase::Carry { next: 0 })
                && next.pending == run.pending,
            (Phase::Board, Next::Fails(_)) => false,
            (Phase::Carry { next: i }, Next::Leads(next)) => if i + 1 < run.pending.moves.len() {
                next.phase == (Phase::Carry { next: (i + 1) as usize })
            } else {
                next.phase is Clear
            },
            (Phase::Carry { .. }, Next::Fails(_)) => false,
            (Phase::Clear, Next::Leads(next)) => next.phase is Gaits,
            (Phase::Gaits, Next::Leads(next)) => next.phase is Follow,
            (Phase::Follow, Next::Leads(next)) => next.phase is Contacts,
            (Phase::Contacts, Next::Leads(next)) => next.phase == (Phase::Sense {
                starting: false,
            }),
            _ => true,
        },
{
}

/// Once an action is fired the next one of its step is; behind the last one the scan
/// goes on, from the step or, at the start, with the next program.
pub proof fn law_actions_are_fired_one_after_the_other(
    run: RunView,
    action: usize,
    chain: Option<usize>,
    w: RolloutView,
)
    ensures
        ({
            let next = run.fired_on(action, chain, Fired::Leads(w));
            &&& action + 1 < w.entry_actions().len() ==> next == Next::Leads(
                RunView {
                    world: w,
                    phase: Phase::Fire { action: (action + 1) as usize, chain },
                    ..run
                },
            )
            &&& action + 1 >= w.entry_actions().len() && chain is Some ==> next == run.came_to(
                w.onward(chain->0 as int),
            )
            &&& action + 1 >= w.entry_actions().len() && chain is None ==> next == run.came_to(
                w.opened_on(),
            )
        }),
{
}

/// Reading the sensors writes their lanes and nothing else. `i` is the last sensor on a
/// lane that no fault pins.
pub proof fn law_reading_the_sensors_writes_their_lanes(
    v: RolloutView,
    readings: Seq<Reading>,
    i: int,
)
    requires
        0 <= i < v.sensors.len(),
        forall|k: int|
            0 <= k < v.sensors.len() ==> (#[trigger] v.sensors[k]).lane < v.lanes.tracks.len(),
        !v.lanes.pinned(v.sensors[i].lane as int),
        forall|k: int|
            i < k < v.sensors.len() ==> (#[trigger] v.sensors[k]).lane != v.sensors[i].lane,
    ensures
        ({
            let w = v.sensed(readings);
            &&& w == (RolloutView { lanes: w.lanes, ..v })
            &&& crate::lanes::level(w.lanes.tracks[v.sensors[i].lane as int].edges)
                == crate::sensors::trips(
                v.sensors[i],
                v.scene.sensors@[i].watch,
                readings[i],
                v.obstacles,
                v.scene.robots@,
            )
        }),
{
    let writes = sensor_writes(
        v.sensors,
        v.scene.sensors@,
        readings,
        v.obstacles,
        v.scene.robots@,
    );
    assert forall|k: int| 0 <= k < writes.len() implies (#[trigger] writes[k]).0
        < v.lanes.tracks.len() by {
        assert(v.sensors[k].lane < v.lanes.tracks.len());
    }
    assert forall|k: int| i < k < writes.len() implies (#[trigger] writes[k]).0
        != v.sensors[i].lane by {
        assert(v.sensors[k].lane != v.sensors[i].lane);
    }
    crate::lanes::law_the_last_write_stands(
        v.lanes,
        writes,
        v.t,
        v.sensors[i].lane as int,
        i,
    );
}

/// What rides any deck rides: the riders of all decks, deck by deck.
pub proof fn law_riders_are_told_deck_by_deck(riders: Seq<Seq<String>>, deck: Seq<String>)
    ensures
        flat_riders(seq![]).len() == 0,
        flat_riders(riders.push(deck)) == flat_riders(riders) + deck,
{
    assert(riders.push(deck).drop_last() =~= riders);
    assert(riders.push(deck).last() == deck);
}

/// What is touched at the end of a tick ends the run: first where a rider touches, then
/// where two robots do; otherwise the run goes on with what is held where it is held.
pub proof fn law_contacts_end_the_run(
    v: RolloutView,
    held: Seq<Pose>,
    touched: Seq<Vec<Option<(String, String)>>>,
    pairs: Seq<(ColliderId, ColliderId)>,
)
    ensures
        ({
            let w = RolloutView {
                obstacles: grips_placed(v.obstacles, v.attachments, held, held.len()),
                ..v
            };
            let fine = RolloutView { moving: Seq::empty(), ..w };
            let r = v.contacts_checked(held, touched, pairs);
            &&& w.riders_fault(touched, 0) matches Some(e) ==> r == Fired::Fails(e)
            &&& w.riders_fault(touched, 0) is None ==> (match fine.robots_meet(pairs) {
                Some(e) => r == Fired::Fails(e),
                None => r == Fired::Leads(fine),
            })
        }),
{
}

/// A run starts with a reading of its sensors, and what that finds high is a level and no
/// edge: every program's scan is closed on it before any program enters its first step.
/// Later readings are followed by a scan of the programs, the first one first. `p` is any
/// program.
pub proof fn law_a_run_starts_with_levels(run: RunView, readings: Vec<Reading>, p: int)
    requires
        0 <= p < run.world.programs.len(),
    ensures
        run.phase == (Phase::Sense { starting: true }) ==> {
            let sensed = run.world.sensed(readings@);
            let ready = sensed.scans_closed(sensed.programs.len());
            &&& run.next(Reply::Sensed(readings)) == run.came_to(
                (RolloutView { current: 0, ..ready }).opening(),
            )
            &&& ready.lanes == sensed.lanes
            &&& ready.programs[p].prev_signals == sensed.lanes.levels()
            &&& ready.programs[p].step == run.world.programs[p].step
        },
        run.phase == (Phase::Sense { starting: false }) ==> run.next(Reply::Sensed(readings))
            == run.came_to(
            (RolloutView { current: 0, ..run.world.sensed(readings@) }).onward(0),
        ),
{
    let sensed = run.world.sensed(readings@);
    lemma_closed_scan(sensed, sensed.programs.len(), p);
}

proof fn lemma_closed_scan(v: RolloutView, n: nat, p: int)
    requires
        n <= v.programs.len(),
        0 <= p < v.programs.len(),
    ensures
        ({
            let w = v.scans_closed(n);
            &&& w.programs.len() == v.programs.len()
            &&& w.lanes == v.lanes
            &&& p < n ==> w.programs[p] == (crate::rollout::ProgramView {
                prev_signals: v.lanes.levels(),
                ..v.programs[p]
            })
            &&& p >= n ==> w.programs[p] == v.programs[p]
        }),
    decreases n,
{
    if n > 0 {
        lemma_closed_scan(v, (n - 1) as nat, p);
    }
}

} // verus!
