//! The aisle and the airspace that a travelling vehicle needs.

use vstd::prelude::*;

use crate::error::{ErrorView, SeqError};
use crate::fire::{answers, Fired};
use crate::names::{contains_name, holds_name, index_view};
use crate::rollout::{Moving, MovingView, Rollout, RolloutView};
use crate::scene::{body_index, find_body, held, is_held, Obstacle};
use crate::setup::lemma_kept_sound;
use crate::tick::{of_vehicles, MoveView, VehicleMove};
use crate::views::{copied_names, views};
use crate::world::lemma_same_robots;

verus! {

impl RolloutView {
    /// Whether a vehicle counts a body as carried: part of it, aboard it, or
    /// riding the same lift.
    pub open spec fn counts_carried(self, m: MoveView, riders: Seq<String>, name: Seq<char>) -> bool {
        holds_name(self.mover_body(m), name) || holds_name(riders, name) || holds_name(m.extra, name)
    }

    /// Whether body `k` of a vehicle must clear body `j`. A machine that walks
    /// stands on what can be walked on.
    pub open spec fn must_clear(self, m: MoveView, riders: Seq<String>, k: int, j: int) -> bool {
        let other = self.obstacles[j];
        j != k && other.enabled && !self.counts_carried(m, riders, other.name@) && !(
        self.walker_on(self.mover(m)@, 0) is Some && other.walkable) && !is_held(
            self.attachments,
            other.name@,
        )
    }

    /// The first body, from `from` on, that body `k` of a vehicle runs into.
    pub open spec fn run_into(
        self,
        m: MoveView,
        riders: Seq<String>,
        k: int,
        meets: Seq<bool>,
        from: int,
    ) -> Option<int>
        decreases self.obstacles.len() - from,
    {
        if from < 0 || from >= self.obstacles.len() {
            None
        } else if self.must_clear(m, riders, k, from) && meets[from] {
            Some(from)
        } else {
            self.run_into(m, riders, k, meets, from + 1)
        }
    }

    /// What is wrong with the members of a moving vehicle, from `from` on.
    /// `meets[k][j]` says whether bodies `k` and `j` touch.
    pub open spec fn member_fault(
        self,
        m: MoveView,
        riders: Seq<String>,
        members: Seq<String>,
        meets: Seq<Seq<bool>>,
        from: int,
    ) -> Option<ErrorView>
        decreases members.len() - from,
    {
        if from < 0 || from >= members.len() {
            None
        } else {
            let name = members[from]@;
            let hit = match body_index(self.obstacles, name) {
                Some(k) => if self.obstacles[k].enabled && !is_held(self.attachments, name) {
                    self.run_into(m, riders, k, meets[k], 0)
                } else {
                    None
                },
                None => None,
            };
            match hit {
                Some(j) => Some(
                    ErrorView::VehicleCollision {
                        t: self.t,
                        vehicle: self.mover(m)@,
                        body: name,
                        obstacle: self.obstacles[j].name@,
                    },
                ),
                None => self.member_fault(m, riders, members, meets, from + 1),
            }
        }
    }

    /// What is wrong with the aisles of the vehicles that moved, from `from`
    /// on.
    pub open spec fn aisle_fault(
        self,
        moves: Seq<MoveView>,
        riders: Seq<Seq<String>>,
        meets: Seq<Seq<bool>>,
        from: int,
    ) -> Option<ErrorView>
        decreases moves.len() - from,
    {
        if from < 0 || from >= moves.len() {
            None
        } else {
            let m = moves[from];
            match self.member_fault(m, riders[from], self.mover_body(m) + riders[from], meets, 0) {
                Some(e) => Some(e),
                None => self.aisle_fault(moves, riders, meets, from + 1),
            }
        }
    }

    /// The first robot, from `from` on, that does not ride a vehicle and that
    /// the vehicle touches. `touched[r]` is the link and the body.
    pub open spec fn passer_fault(
        self,
        m: MoveView,
        touched: Seq<Option<(String, String)>>,
        from: int,
    ) -> Option<ErrorView>
        decreases self.scene.robots@.len() - from,
    {
        if from < 0 || from >= self.scene.robots@.len() {
            None
        } else {
            match touched[from] {
                Some((link, body)) if !self.rides(from, self.mover(m)@) => Some(
                    ErrorView::VehicleRobotCollision {
                        t: self.t,
                        vehicle: self.mover(m)@,
                        body: body@,
                        robot: self.scene.robots@[from].name@,
                        link: link@,
                    },
                ),
                _ => self.passer_fault(m, touched, from + 1),
            }
        }
    }

    /// What is wrong with the airspace of the vehicles that moved, from `from`
    /// on. A vehicle that has neither body nor load is in nobody's way.
    pub open spec fn airspace_fault(
        self,
        moves: Seq<MoveView>,
        riders: Seq<Seq<String>>,
        touched: Seq<Vec<Option<(String, String)>>>,
        from: int,
    ) -> Option<ErrorView>
        decreases moves.len() - from,
    {
        if from < 0 || from >= moves.len() {
            None
        } else {
            let m = moves[from];
            let fault = if (self.mover_body(m) + riders[from]).len() == 0 {
                None
            } else {
                self.passer_fault(m, touched[from]@, 0)
            };
            match fault {
                Some(e) => Some(e),
                None => self.airspace_fault(moves, riders, touched, from + 1),
            }
        }
    }

    /// The vehicles that moved, each with what it carries.
    pub open spec fn movers(self, moves: Seq<MoveView>, riders: Seq<Seq<String>>) -> Seq<MovingView> {
        Seq::new(
            moves.len(),
            |i: int|
                MovingView {
                    vehicle: self.mover(moves[i]),
                    carried: self.mover_body(moves[i]) + riders[i] + moves[i].extra,
                },
        )
    }

    /// The vehicles' check: it fails, or what moved is noted.
    pub open spec fn moves_checked(
        self,
        moves: Seq<MoveView>,
        riders: Seq<Seq<String>>,
        meets: Seq<Seq<bool>>,
        touched: Seq<Vec<Option<(String, String)>>>,
    ) -> Fired {
        match self.aisle_fault(moves, riders, meets, 0) {
            Some(e) => Fired::Fails(e),
            None => match self.airspace_fault(moves, riders, touched, 0) {
                Some(e) => Fired::Fails(e),
                None => Fired::Leads(
                    RolloutView { moving: self.movers(moves, riders), ..self },
                ),
            },
        }
    }

    /// There is a contact list of the right size for every body and robot.
    pub open spec fn contacts_answered(
        self,
        moves: Seq<MoveView>,
        meets: Seq<Seq<bool>>,
        touched: Seq<Vec<Option<(String, String)>>>,
    ) -> bool {
        &&& meets.len() == self.obstacles.len()
        &&& forall|k: int| 0 <= k < meets.len() ==> (#[trigger] meets[k]).len()
            == self.obstacles.len()
        &&& touched.len() == moves.len()
        &&& forall|i: int| 0 <= i < touched.len() ==> (#[trigger] touched[i])@.len()
            == self.scene.robots@.len()
    }
}

impl<'a> Rollout<'a> {
    fn find_run_into(
        &self,
        mv: &VehicleMove,
        body: &Vec<String>,
        riders: &Vec<String>,
        k: usize,
        meets: &Vec<bool>,
    ) -> (r: Option<usize>)
        requires
            self@.sound(),
            mv.device < self.devices@.len(),
            body@ == self@.mover_body(mv@),
            meets@.len() == self.obstacles@.len(),
        ensures
            index_view(r) == self@.run_into(mv@, riders@, k as int, meets@, 0),
            r matches Some(j) ==> j < self.obstacles@.len(),
    {
        assert(self@.devices[mv.device as int] == self.devices@[mv.device as int]@);
        let walks: bool = self.walker_on(self.devices[mv.device].name.as_str()).is_some();
        let mut j: usize = 0;
        while j < self.obstacles.len()
            invariant
                j <= self.obstacles.len(),
                body@ == self@.mover_body(mv@),
                meets@.len() == self.obstacles@.len(),
                walks == (self@.walker_on(self@.mover(mv@)@, 0) is Some),
                self@.run_into(mv@, riders@, k as int, meets@, 0) == self@.run_into(
                    mv@,
                    riders@,
                    k as int,
                    meets@,
                    j as int,
                ),
            decreases self.obstacles.len() - j,
        {
            let other: &Obstacle = &self.obstacles[j];
            let name: &str = other.name.as_str();
            let carried: bool = contains_name(body, name) || contains_name(riders, name)
                || contains_name(&mv.extra, name);
            if j != k && other.enabled && !carried && !(walks && other.walkable) && !held(
                &self.attachments,
                name,
            ) && meets[j] {
                return Some(j);
            }
            j = j + 1;
        }
        None
    }

    /// A travelling vehicle's body must clear everything that it does not
    /// carry. The load is checked too, and counts as carried: a part on the
    /// deck may touch the body it rides on, but not the shelf it passes.
    fn check_vehicle_collisions(
        &self,
        moves: &Vec<VehicleMove>,
        riders: &Vec<Vec<String>>,
        meets: &Vec<Vec<bool>>,
    ) -> (e: Option<SeqError>)
        requires
            self@.sound(),
            of_vehicles(views(moves@), self@.devices),
            riders@.len() == moves@.len(),
            meets@.len() == self.obstacles@.len(),
            forall|k: int|
                0 <= k < meets@.len() ==> (#[trigger] meets@[k])@.len() == self.obstacles@.len(),
        ensures
            match e {
                Some(x) => self@.aisle_fault(
                    views(moves@),
                    views(riders@),
                    views(meets@),
                    0,
                ) == Some(x@),
                None => self@.aisle_fault(
                    views(moves@),
                    views(riders@),
                    views(meets@),
                    0,
                ) is None,
            },
    {
        let ghost all = views(moves@);
        let ghost loads = views(riders@);
        let ghost met = views(meets@);
        let mut i: usize = 0;
        while i < moves.len()
            invariant
                i <= moves.len(),
                self@.sound(),
                all == views(moves@),
                loads == views(riders@),
                met == views(meets@),
                of_vehicles(all, self@.devices),
                riders@.len() == moves@.len(),
                meets@.len() == self.obstacles@.len(),
                forall|k: int|
                    0 <= k < meets@.len() ==> (#[trigger] meets@[k])@.len()
                        == self.obstacles@.len(),
                self@.aisle_fault(all, loads, met, 0) == self@.aisle_fault(
                    all,
                    loads,
                    met,
                    i as int,
                ),
            decreases moves.len() - i,
        {
            let mv: &VehicleMove = &moves[i];
            assert(all[i as int] == mv@);
            assert(loads[i as int] == riders@[i as int]@);
            assert(self@.devices[all[i as int].device as int].state is Vehicle);
            assert(self@.devices[mv.device as int] == self.devices@[mv.device as int]@);
            let body: Vec<String> = self.mover_body(mv.device);
            let mut members: Vec<String> = copied_names(&body);
            let mut more: Vec<String> = copied_names(&riders[i]);
            members.append(&mut more);
            let ghost m = mv@;
            let ghost load = riders@[i as int]@;
            assert(members@ == self@.mover_body(m) + load);
            let mut n: usize = 0;
            while n < members.len()
                invariant
                    n <= members.len(),
                    i < moves@.len(),
                    riders@.len() == moves@.len(),
                    self@.sound(),
                    mv.device < self.devices@.len(),
                    m == mv@,
                    load == riders@[i as int]@,
                    met == views(meets@),
                    body@ == self@.mover_body(m),
                    meets@.len() == self.obstacles@.len(),
                    forall|k: int|
                        0 <= k < meets@.len() ==> (#[trigger] meets@[k])@.len()
                            == self.obstacles@.len(),
                    self@.member_fault(m, load, members@, met, 0) == self@.member_fault(
                        m,
                        load,
                        members@,
                        met,
                        n as int,
                    ),
                    self@.aisle_fault(all, loads, met, 0) == self@.aisle_fault(
                        all,
                        loads,
                        met,
                        i as int,
                    ),
                    all[i as int] == m,
                    loads[i as int] == load,
                    all.len() == moves@.len(),
                    members@ == self@.mover_body(m) + load,
                    all == views(moves@),
                    loads == views(riders@),
                decreases members.len() - n,
            {
                let name: &str = members[n].as_str();
                match find_body(&self.obstacles, name) {
                    Some(k) => {
                        if self.obstacles[k].enabled && !held(&self.attachments, name) {
                            assert(met[k as int] == meets@[k as int]@);
                            match self.find_run_into(mv, &body, &riders[i], k, &meets[k]) {
                                Some(j) => {
                                    assert(self@.devices[mv.device as int]
                                        == self.devices@[mv.device as int]@);
                                    return Some(
                                        SeqError::VehicleCollision {
                                            t: self.t,
                                            vehicle: self.devices[mv.device].name.clone(),
                                            body: members[n].clone(),
                                            obstacle: self.obstacles[j].name.clone(),
                                        },
                                    );
                                },
                                None => {},
                            }
                        }
                    },
                    None => {},
                }
                n = n + 1;
            }
            i = i + 1;
        }
        None
    }

    /// A travelling vehicle must also clear every robot that is not its
    /// passenger.
    fn check_vehicle_robot_collisions(
        &self,
        moves: &Vec<VehicleMove>,
        riders: &Vec<Vec<String>>,
        touched: &Vec<Vec<Option<(String, String)>>>,
    ) -> (e: Option<SeqError>)
        requires
            self@.sound(),
            of_vehicles(views(moves@), self@.devices),
            riders@.len() == moves@.len(),
            touched@.len() == moves@.len(),
            forall|i: int|
                0 <= i < touched@.len() ==> (#[trigger] touched@[i])@.len()
                    == self.scene.robots@.len(),
        ensures
            match e {
                Some(x) => self@.airspace_fault(views(moves@), views(riders@), touched@, 0)
                    == Some(x@),
                None => self@.airspace_fault(
                    views(moves@),
                    views(riders@),
                    touched@,
                    0,
                ) is None,
            },
    {
        let ghost all = views(moves@);
        let ghost loads = views(riders@);
        let mut i: usize = 0;
        while i < moves.len()
            invariant
                i <= moves.len(),
                self@.sound(),
                all == views(moves@),
                loads == views(riders@),
                of_vehicles(all, self@.devices),
                riders@.len() == moves@.len(),
                touched@.len() == moves@.len(),
                forall|k: int|
                    0 <= k < touched@.len() ==> (#[trigger] touched@[k])@.len()
                        == self.scene.robots@.len(),
                self@.airspace_fault(all, loads, touched@, 0) == self@.airspace_fault(
                    all,
                    loads,
                    touched@,
                    i as int,
                ),
            decreases moves.len() - i,
        {
            let mv: &VehicleMove = &moves[i];
            assert(all[i as int] == mv@);
            assert(loads[i as int] == riders@[i as int]@);
            assert(self@.devices[all[i as int].device as int].state is Vehicle);
            assert(self@.devices[mv.device as int] == self.devices@[mv.device as int]@);
            assert(touched@[i as int]@.len() == self.scene.robots@.len());
            let body: Vec<String> = self.mover_body(mv.device);
            let ghost m = mv@;
            if body.len() > 0 || riders[i].len() > 0 {
                let mut r: usize = 0;
                while r < self.scene.robots.len()
                    invariant
                        r <= self.scene.robots.len(),
                        i < moves@.len(),
                        touched@.len() == moves@.len(),
                        mv.device < self.devices@.len(),
                        m == mv@,
                        m == all[i as int],
                        all.len() == moves@.len(),
                        (self@.mover_body(m) + loads[i as int]).len() > 0,
                        touched@[i as int]@.len() == self.scene.robots@.len(),
                        self@.airspace_fault(all, loads, touched@, 0) == self@.airspace_fault(
                            all,
                            loads,
                            touched@,
                            i as int,
                        ),
                        self@.passer_fault(m, touched@[i as int]@, 0) == self@.passer_fault(
                            m,
                            touched@[i as int]@,
                            r as int,
                        ),
                        all == views(moves@),
                        loads == views(riders@),
                    decreases self.scene.robots.len() - r,
                {
                    assert(self@.devices[mv.device as int] == self.devices@[mv.device as int]@);
                    match &touched[i][r] {
                        Some((link, hit)) => {
                            if !self.rides(r, self.devices[mv.device].name.as_str()) {
                                return Some(
                                    SeqError::VehicleRobotCollision {
                                        t: self.t,
                                        vehicle: self.devices[mv.device].name.clone(),
                                        body: hit.clone(),
                                        robot: self.scene.robots[r].name.clone(),
                                        link: link.clone(),
                                    },
                                );
                            }
                        },
                        None => {},
                    }
                    r = r + 1;
                }
            }
            i = i + 1;
        }
        None
    }

    /// The aisle and airspace checks of the vehicles that moved this tick, so
    /// a parked vehicle that touches its dock guide is legitimate authoring.
    /// `meets[k][j]` says whether bodies `k` and `j` touch, `touched[i][r]`
    /// what of robot `r` touches what of vehicle `i` or its load.
    pub fn check_moves(
        &mut self,
        moves: &Vec<VehicleMove>,
        riders: &Vec<Vec<String>>,
        meets: &Vec<Vec<bool>>,
        touched: &Vec<Vec<Option<(String, String)>>>,
    ) -> (out: Result<(), SeqError>)
        requires
            old(self)@.sound(),
            of_vehicles(views(moves@), old(self)@.devices),
            riders@.len() == moves@.len(),
            old(self)@.contacts_answered(views(moves@), views(meets@), touched@),
        ensures
            answers(
                out,
                final(self)@,
                old(self)@.moves_checked(
                    views(moves@),
                    views(riders@),
                    views(meets@),
                    touched@,
                ),
            ),
            out is Ok ==> final(self)@.sound(),
    {
        let ghost v = self@;
        let ghost all = views(moves@);
        let ghost loads = views(riders@);
        proof {
            assert forall|k: int| 0 <= k < meets@.len() implies (#[trigger] meets@[k])@.len()
                == self.obstacles@.len() by {
                assert(views(meets@)[k] == meets@[k]@);
            }
        }
        match self.check_vehicle_collisions(moves, riders, meets) {
            Some(e) => {
                return Err(e);
            },
            None => {},
        }
        match self.check_vehicle_robot_collisions(moves, riders, touched) {
            Some(e) => {
                return Err(e);
            },
            None => {},
        }
        let mut moving: Vec<Moving> = Vec::new();
        let mut i: usize = 0;
        while i < moves.len()
            invariant
                i <= moves.len(),
                v == self@,
                all == views(moves@),
                loads == views(riders@),
                of_vehicles(all, v.devices),
                riders@.len() == moves@.len(),
                views(moving@) == v.movers(all, loads).take(i as int),
            decreases moves.len() - i,
        {
            let mv: &VehicleMove = &moves[i];
            assert(all[i as int] == mv@);
            assert(loads[i as int] == riders@[i as int]@);
            assert(v.devices[all[i as int].device as int].state is Vehicle);
            assert(v.devices[mv.device as int] == self.devices@[mv.device as int]@);
            let mut carried: Vec<String> = self.mover_body(mv.device);
            let mut load: Vec<String> = copied_names(&riders[i]);
            let mut extra: Vec<String> = copied_names(&mv.extra);
            carried.append(&mut load);
            carried.append(&mut extra);
            let one: Moving = Moving { vehicle: self.devices[mv.device].name.clone(), carried };
            let ghost before = views(moving@);
            let ghost seen = one@;
            moving.push(one);
            assert(views(moving@) =~= before.push(seen));
            i = i + 1;
            assert(views(moving@) =~= v.movers(all, loads).take(i as int));
        }
        assert(views(moving@) =~= v.movers(all, loads));
        self.moving = moving;
        proof {
            lemma_same_robots(v);
            lemma_kept_sound(v, self@);
        }
        Ok(())
    }
}

/// What a moving vehicle must clear of another body: nothing of itself, of what it
/// carries or shares a lift with, of what is out of play or held, nor, where a machine
/// walks it, of what can be walked on; but everything else.
pub proof fn law_a_vehicle_clears_what_it_does_not_carry(
    v: RolloutView,
    m: MoveView,
    riders: Seq<String>,
    k: int,
    j: int,
)
    ensures
        v.must_clear(m, riders, k, j) <==> {
            let other = v.obstacles[j];
            let body = (v.devices[m.device as int].state->Vehicle_0).body;
            &&& j != k
            &&& other.enabled
            &&& forall|i: int| 0 <= i < body.len() ==> (#[trigger] body[i])@ != other.name@
            &&& forall|i: int| 0 <= i < riders.len() ==> (#[trigger] riders[i])@ != other.name@
            &&& forall|i: int| 0 <= i < m.extra.len() ==> (#[trigger] m.extra[i])@ != other.name@
            &&& forall|i: int|
                0 <= i < v.attachments.len() ==> (#[trigger] v.attachments[i]).object@
                    != other.name@
            &&& !other.walkable || v.walker_on(v.devices[m.device as int].name@, 0) is None
        },
{
    let other = v.obstacles[j];
    crate::names::law_a_name_stands_for_the_first(v.attachments, other.name@, 0);
    let names = crate::names::names_of(v.attachments);
    crate::names::lemma_find(names, other.name@, 0);
    match crate::names::find(names, other.name@) {
        Some(i) => {
            assert(v.attachments[i].object@ == names[i]);
        },
        None => {
            assert forall|i: int| 0 <= i < v.attachments.len() implies (
            #[trigger] v.attachments[i]).object@ != other.name@ by {
                assert(names[i] == v.attachments[i].object@);
            }
        },
    }
}

/// A member of a moving vehicle runs into the first body that it must clear and meets;
/// where there is none it runs into nothing.
pub proof fn law_a_vehicle_runs_into_what_is_in_its_way(
    v: RolloutView,
    m: MoveView,
    riders: Seq<String>,
    k: int,
    meets: Seq<bool>,
    from: int,
    j: int,
)
    requires
        0 <= from,
    ensures
        from <= j < v.obstacles.len() && v.must_clear(m, riders, k, j) && meets[j] && (forall|
            i: int,
        |
            from <= i < j ==> !(#[trigger] v.must_clear(m, riders, k, i) && meets[i]))
            ==> v.run_into(m, riders, k, meets, from) == Some(j),
        (forall|i: int|
            from <= i < v.obstacles.len() ==> !(#[trigger] v.must_clear(m, riders, k, i)
                && meets[i])) ==> v.run_into(m, riders, k, meets, from) is None,
    decreases v.obstacles.len() - from,
{
    if from < v.obstacles.len() {
        let here = v.must_clear(m, riders, k, from);
        law_a_vehicle_runs_into_what_is_in_its_way(v, m, riders, k, meets, from + 1, j);
    }
}

/// The members of a moving vehicle are at fault where one that is in play and held by no
/// robot runs into something, and the first such one is named, with what it ran into.
pub proof fn law_the_first_member_in_the_way_is_named(
    v: RolloutView,
    m: MoveView,
    riders: Seq<String>,
    members: Seq<String>,
    meets: Seq<Seq<bool>>,
    from: int,
    n: int,
    k: int,
    j: int,
)
    requires
        0 <= from <= n < members.len(),
        0 <= k < v.obstacles.len(),
        v.obstacles[k].name@ == members[n]@,
        forall|i: int| 0 <= i < k ==> (#[trigger] v.obstacles[i]).name@ != members[n]@,
        v.obstacles[k].enabled,
        !is_held(v.attachments, members[n]@),
        v.run_into(m, riders, k, meets[k], 0) == Some(j),
        forall|i: int|
            from <= i < n ==> (body_index(v.obstacles, (#[trigger] members[i])@) matches Some(b)
                ==> !v.obstacles[b].enabled || is_held(v.attachments, members[i]@) || v.run_into(
                m,
                riders,
                b,
                meets[b],
                0,
            ) is None),
    ensures
        v.member_fault(m, riders, members, meets, from) matches Some(e) && (e matches ErrorView::VehicleCollision {
            t,
            vehicle,
            body,
            obstacle,
        } && t == v.t && vehicle == v.devices[m.device as int].name@ && body == members[n]@
            && obstacle == v.obstacles[j].name@),
    decreases n - from,
{
    crate::names::law_a_name_stands_for_the_first(v.obstacles, members[n]@, k);
    if from < n {
        let here = members[from];
        law_the_first_member_in_the_way_is_named(
            v,
            m,
            riders,
            members,
            meets,
            from + 1,
            n,
            k,
            j,
        );
    }
}

/// A moving vehicle may touch the robots that ride it, and no other: the first one that
/// it touches and that does not ride it is a fault, and it is named.
pub proof fn law_a_vehicle_touches_no_robot_but_its_riders(
    v: RolloutView,
    m: MoveView,
    touched: Seq<Option<(String, String)>>,
    from: int,
    r: int,
)
    requires
        0 <= from,
    ensures
        ({
            let vehicle = v.devices[m.device as int].name@;
            let n = v.scene.robots@.len();
            &&& from <= r < n && touched[r] is Some && !v.rides(r, vehicle) && (forall|i: int|
                from <= i < r ==> touched[i] is None || #[trigger] v.rides(i, vehicle))
                ==> (v.passer_fault(m, touched, from) matches Some(e) && (e matches ErrorView::VehicleRobotCollision {
                t,
                vehicle: car,
                body,
                robot,
                link,
            } && t == v.t && car == vehicle && robot == v.scene.robots@[r].name@ && link == (
            touched[r]->0).0@ && body == (touched[r]->0).1@))
            &&& (forall|i: int|
                from <= i < n ==> touched[i] is None || #[trigger] v.rides(i, vehicle))
                ==> v.passer_fault(m, touched, from) is None
        }),
    decreases v.scene.robots@.len() - from,
{
    if from < v.scene.robots@.len() {
        let here = v.rides(from, v.devices[m.device as int].name@);
        law_a_vehicle_touches_no_robot_but_its_riders(v, m, touched, from + 1, r);
    }
}

/// The vehicles that moved pass where none of them is at fault, and then each is noted
/// with its body, its riders and what shares its lift. `i` is any of them.
pub proof fn law_a_clear_move_is_noted(
    v: RolloutView,
    moves: Seq<MoveView>,
    riders: Seq<Seq<String>>,
    meets: Seq<Seq<bool>>,
    touched: Seq<Vec<Option<(String, String)>>>,
    i: int,
)
    requires
        0 <= i < moves.len(),
    ensures
        v.moves_checked(moves, riders, meets, touched) is Fails <==> v.aisle_fault(
            moves,
            riders,
            meets,
            0,
        ) is Some || v.airspace_fault(moves, riders, touched, 0) is Some,
        v.moves_checked(moves, riders, meets, touched) matches Fired::Leads(w) ==> {
            &&& w == (RolloutView { moving: w.moving, ..v })
            &&& w.moving.len() == moves.len()
            &&& w.moving[i].vehicle == v.devices[moves[i].device as int].name
            &&& w.moving[i].carried == (v.devices[moves[i].device as int].state->Vehicle_0).body
                + riders[i] + moves[i].extra
            &&& v.member_fault(
                moves[i],
                riders[i],
                (v.devices[moves[i].device as int].state->Vehicle_0).body + riders[i],
                meets,
                0,
            ) is None
            &&& ((v.devices[moves[i].device as int].state->Vehicle_0).body + riders[i]).len() > 0
                ==> v.passer_fault(moves[i], touched[i]@, 0) is None
        },
{
    lemma_no_fault(v, moves, riders, meets, touched, 0, i);
}

proof fn lemma_no_fault(
    v: RolloutView,
    moves: Seq<MoveView>,
    riders: Seq<Seq<String>>,
    meets: Seq<Seq<bool>>,
    touched: Seq<Vec<Option<(String, String)>>>,
    from: int,
    i: int,
)
    requires
        0 <= from <= i < moves.len(),
    ensures
        v.aisle_fault(moves, riders, meets, from) is None ==> v.member_fault(
            moves[i],
            riders[i],
            v.mover_body(moves[i]) + riders[i],
            meets,
            0,
        ) is None,
        v.airspace_fault(moves, riders, touched, from) is None && (v.mover_body(moves[i])
            + riders[i]).len() > 0 ==> v.passer_fault(moves[i], touched[i]@, 0) is None,
    decreases i - from,
{
    if from < i {
        lemma_no_fault(v, moves, riders, meets, touched, from + 1, i);
    }
}

} // verus!
