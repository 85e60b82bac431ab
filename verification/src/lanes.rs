//! Signal lanes: boolean step functions of time, some of them pinned.

use vstd::prelude::*;

use crate::fixed::Pico;
use crate::names::{find, find_named, index_view, names_of, Named};

verus! {

/// Where a signal lane comes from.
#[derive(Clone, Copy, Debug, PartialEq, Eq, Structural)]
pub enum LaneKind {
    /// An internal relay.
    Signal,
    /// A sensor's read-only input.
    Sensor,
    /// A device's running or moving output.
    Device,
}

impl LaneKind {
    /// The kind as the timing chart labels it.
    pub open spec fn label(self) -> Seq<char> {
        match self {
            LaneKind::Signal => "signal"@,
            LaneKind::Sensor => "sensor"@,
            LaneKind::Device => "device"@,
        }
    }

    pub fn as_str(self) -> (r: &'static str)
        ensures
            r@ == self.label(),
    {
        match self {
            LaneKind::Signal => "signal",
            LaneKind::Sensor => "sensor",
            LaneKind::Device => "device",
        }
    }
}

/// A boolean signal as a step function: `(time, new value)` edges, starting
/// with `(0, initial)`.
#[derive(Debug)]
pub struct BoolTrack {
    pub name: String,
    pub edges: Vec<(Pico, bool)>,
    pub kind: LaneKind,
}

/// What a lane says.
#[verifier::ext_equal]
pub struct LaneView {
    pub name: Seq<char>,
    pub edges: Seq<(Pico, bool)>,
    pub kind: LaneKind,
}

impl View for BoolTrack {
    type V = LaneView;

    open spec fn view(&self) -> LaneView {
        LaneView { name: self.name@, edges: self.edges@, kind: self.kind }
    }
}

impl Named for BoolTrack {
    open spec fn named(&self) -> Seq<char> {
        self.name@
    }

    fn get_name(&self) -> (r: &String) {
        &self.name
    }
}

/// How many leading edges have happened by `t` (10^-12 s of slack).
pub open spec fn edges_by(edges: Seq<(Pico, bool)>, t: int) -> nat
    decreases edges.len(),
{
    if edges.len() == 0 || edges[0].0 > t + 1 {
        0
    } else {
        1 + edges_by(edges.drop_first(), t)
    }
}

/// The level at `t`: the value of the last leading edge that has happened,
/// low before the first.
pub open spec fn level_at(edges: Seq<(Pico, bool)>, t: int) -> bool {
    let n = edges_by(edges, t);
    n > 0 && edges[n - 1].1
}

/// The level that the last edge left.
pub open spec fn level(edges: Seq<(Pico, bool)>) -> bool {
    edges.len() > 0 && edges.last().1
}

proof fn lemma_edges_by(edges: Seq<(Pico, bool)>, t: int)
    ensures
        edges_by(edges, t) <= edges.len(),
        forall|i: int| 0 <= i < edges_by(edges, t) ==> edges[i].0 <= t + 1,
        edges_by(edges, t) < edges.len() ==> edges[edges_by(edges, t) as int].0 > t + 1,
    decreases edges.len(),
{
    if edges.len() > 0 && edges[0].0 <= t + 1 {
        lemma_edges_by(edges.drop_first(), t);
        let n = edges_by(edges.drop_first(), t);
        assert forall|i: int| 0 <= i < n + 1 implies edges[i].0 <= t + 1 by {
            if i > 0 {
                assert(edges[i] == edges.drop_first()[i - 1]);
            }
        }
    }
}

impl BoolTrack {
    /// The level at `t`.
    pub fn value_at(&self, t: Pico) -> (r: bool)
        ensures
            r == level_at(self.edges@, t as int),
    {
        let mut i: usize = 0;
        proof {
            lemma_edges_by(self.edges@, t as int);
        }
        while i < self.edges.len()
            invariant
                i <= self.edges@.len(),
                forall|j: int| 0 <= j < i ==> self.edges@[j].0 <= t + 1,
                edges_by(self.edges@, t as int) >= i,
            decreases self.edges.len() - i,
        {
            if self.edges[i].0 as i128 > t as i128 + 1 {
                proof {
                    lemma_edges_by(self.edges@, t as int);
                }
                return i > 0 && self.edges[i - 1].1;
            }
            proof {
                lemma_edges_by(self.edges@, t as int);
            }
            i = i + 1;
        }
        proof {
            lemma_edges_by(self.edges@, t as int);
        }
        i > 0 && self.edges[i - 1].1
    }
}

/// Every signal lane of a run, with the lanes that faults pin.
#[derive(Debug)]
pub struct Lanes {
    pub tracks: Vec<BoolTrack>,
    /// `(lane, value)`: a pinned lane keeps its level whatever writes to it.
    pub forced: Vec<(usize, bool)>,
}

/// What the lanes say.
#[verifier::ext_equal]
pub struct LanesView {
    pub tracks: Seq<LaneView>,
    pub forced: Seq<(usize, bool)>,
}

/// The views of a list of lanes.
pub open spec fn lane_views(tracks: Seq<BoolTrack>) -> Seq<LaneView> {
    Seq::new(tracks.len(), |i: int| tracks[i]@)
}

impl View for Lanes {
    type V = LanesView;

    open spec fn view(&self) -> LanesView {
        LanesView { tracks: lane_views(self.tracks@), forced: self.forced@ }
    }
}

impl LanesView {
    /// Whether a fault pins `lane`.
    pub open spec fn pinned(self, lane: int) -> bool {
        exists|i: int| 0 <= i < self.forced.len() && #[trigger] self.forced[i].0 == lane
    }

    /// The lanes after a write: dropped on a pinned lane, an edge where the
    /// level changes, nothing where it does not.
    pub open spec fn set(self, lane: int, t: Pico, value: bool) -> LanesView {
        if self.pinned(lane) || level(self.tracks[lane].edges) == value {
            self
        } else {
            LanesView {
                tracks: self.tracks.update(
                    lane,
                    LaneView {
                        edges: self.tracks[lane].edges.push((t, value)),
                        ..self.tracks[lane]
                    },
                ),
                ..self
            }
        }
    }

    /// The lanes after several writes, first to last.
    pub open spec fn set_all(self, writes: Seq<(usize, bool)>, t: Pico) -> LanesView
        decreases writes.len(),
    {
        if writes.len() == 0 {
            self
        } else {
            self.set_all(writes.drop_last(), t).set(
                writes.last().0 as int,
                t,
                writes.last().1,
            )
        }
    }

    /// The names of the lanes.
    pub open spec fn names(self) -> Seq<Seq<char>> {
        Seq::new(self.tracks.len(), |i: int| self.tracks[i].name)
    }

    /// The present level of every lane.
    pub open spec fn levels(self) -> Seq<bool> {
        Seq::new(self.tracks.len(), |i: int| level(self.tracks[i].edges))
    }

    /// The present level of the lane named `name`, low where there is none.
    pub open spec fn level_of(self, name: Seq<char>) -> bool {
        match find(self.names(), name) {
            Some(lane) => level(self.tracks[lane].edges),
            None => false,
        }
    }
}

impl Lanes {
    fn is_pinned(&self, lane: usize) -> (r: bool)
        ensures
            r == self@.pinned(lane as int),
    {
        let mut i: usize = 0;
        while i < self.forced.len()
            invariant
                i <= self.forced.len(),
                forall|j: int| 0 <= j < i ==> #[trigger] self.forced@[j].0 != lane,
            decreases self.forced.len() - i,
        {
            if self.forced[i].0 == lane {
                assert(self@.forced[i as int].0 == lane);
                return true;
            }
            i = i + 1;
        }
        false
    }

    /// Writes a lane. Every write goes through here (sensor readings, a
    /// program's `set`, a device's running state), so a pinned lane is
    /// guarded in one place.
    pub fn set_lane(&mut self, lane: usize, t: Pico, value: bool)
        requires
            lane < old(self).tracks@.len(),
        ensures
            final(self)@ == old(self)@.set(lane as int, t, value),
            final(self).tracks@.len() == old(self).tracks@.len(),
    {
        if self.is_pinned(lane) {
            return;
        }
        let current: bool = self.lane_value(lane);
        if current != value {
            let ghost before = self@;
            self.tracks[lane].edges.push((t, value));
            assert(self@.tracks =~= before.set(lane as int, t, value).tracks);
        }
    }

    /// Writes several lanes, first to last.
    pub fn set_lanes(&mut self, writes: &Vec<(usize, bool)>, t: Pico)
        requires
            forall|i: int| 0 <= i < writes@.len() ==> #[trigger] writes@[i].0 < old(
                self,
            ).tracks@.len(),
        ensures
            final(self)@ == old(self)@.set_all(writes@, t),
            final(self).tracks@.len() == old(self).tracks@.len(),
    {
        let ghost start = self@;
        let mut i: usize = 0;
        while i < writes.len()
            invariant
                i <= writes.len(),
                forall|k: int| 0 <= k < writes@.len() ==> #[trigger] writes@[k].0
                    < self.tracks@.len(),
                self@ == start.set_all(writes@.take(i as int), t),
                start.tracks.len() == self.tracks@.len(),
            decreases writes.len() - i,
        {
            self.set_lane(writes[i].0, t, writes[i].1);
            assert(writes@.take(i + 1).drop_last() =~= writes@.take(i as int));
            i = i + 1;
        }
        assert(writes@.take(i as int) =~= writes@);
    }

    /// The first lane named `name`.
    pub fn lane_index(&self, name: &str) -> (r: Option<usize>)
        ensures
            index_view(r) == find(self@.names(), name@),
            r matches Some(lane) ==> lane < self.tracks@.len(),
    {
        assert(names_of(self.tracks@) =~= self@.names());
        find_named(&self.tracks, name)
    }

    /// The present level of a lane.
    pub fn lane_value(&self, lane: usize) -> (r: bool)
        requires
            lane < self.tracks@.len(),
        ensures
            r == level(self@.tracks[lane as int].edges),
    {
        let n: usize = self.tracks[lane].edges.len();
        n > 0 && self.tracks[lane].edges[n - 1].1
    }

    /// The present level of every lane: what a program's edge conditions
    /// compare against on its next scan.
    pub fn snapshot(&self) -> (r: Vec<bool>)
        ensures
            r@ == self@.levels(),
    {
        let mut out: Vec<bool> = Vec::new();
        let mut i: usize = 0;
        while i < self.tracks.len()
            invariant
                i <= self.tracks.len(),
                out@ == self@.levels().take(i as int),
            decreases self.tracks.len() - i,
        {
            let v: bool = self.lane_value(i);
            out.push(v);
            assert(self@.levels().take(i + 1) =~= self@.levels().take(i as int).push(v));
            i = i + 1;
        }
        assert(self@.levels().take(i as int) =~= self@.levels());
        out
    }
}

/// Writing a pinned lane changes nothing.
pub proof fn law_pinned_lane_keeps_its_level(
    lanes: LanesView,
    pinned: int,
    lane: int,
    t: Pico,
    value: bool,
)
    requires
        lanes.pinned(pinned),
        0 <= pinned < lanes.tracks.len(),
        0 <= lane < lanes.tracks.len(),
    ensures
        lanes.set(lane, t, value).tracks[pinned] == lanes.tracks[pinned],
        lanes.set(lane, t, value).pinned(pinned),
{
    let i = choose|i: int| 0 <= i < lanes.forced.len() && #[trigger] lanes.forced[i].0 == pinned;
    assert(lanes.set(lane, t, value).forced[i].0 == pinned);
}

/// A write to an unpinned lane leaves it at the value written, and every
/// other lane as it was.
pub proof fn law_write_reads_back(lanes: LanesView, lane: int, t: Pico, value: bool)
    requires
        0 <= lane < lanes.tracks.len(),
        !lanes.pinned(lane),
    ensures
        level(lanes.set(lane, t, value).tracks[lane].edges) == value,
        forall|k: int|
            0 <= k < lanes.tracks.len() && k != lane ==> lanes.set(lane, t, value).tracks[k]
                == lanes.tracks[k],
{
}

/// A lane that starts with an edge at zero, never runs backwards in time and
/// alternates.
pub open spec fn tidy(edges: Seq<(Pico, bool)>) -> bool {
    &&& edges.len() > 0
    &&& edges[0].0 == 0
    &&& forall|i: int, j: int| 0 <= i <= j < edges.len() ==> edges[i].0 <= edges[j].0
    &&& forall|i: int, j: int|
        #![trigger edges[i], edges[j]]
        0 <= i < edges.len() && j == i + 1 && j < edges.len() ==> edges[i].1 != edges[j].1
}

/// Writes at times that do not run backwards keep a lane tidy.
pub proof fn law_writes_keep_lanes_tidy(lanes: LanesView, lane: int, t: Pico, value: bool)
    requires
        0 <= lane < lanes.tracks.len(),
        tidy(lanes.tracks[lane].edges),
        lanes.tracks[lane].edges.last().0 <= t,
    ensures
        tidy(lanes.set(lane, t, value).tracks[lane].edges),
{
    let e = lanes.tracks[lane].edges;
    let f = lanes.set(lane, t, value).tracks[lane].edges;
    if f != e {
        assert forall|i: int, j: int|
            #![trigger f[i], f[j]]
            0 <= i < f.len() && j == i + 1 && j < f.len() implies f[i].1 != f[j].1 by {
            assert(f[i] == e[i]);
            if j < e.len() {
                assert(f[j] == e[j]);
            }
        }
    }
}

/// On a tidy lane, the level at any time from the last edge on is the level
/// that the edge left.
pub proof fn law_level_at_the_end(edges: Seq<(Pico, bool)>, t: int)
    requires
        tidy(edges),
        edges.last().0 <= t,
    ensures
        level_at(edges, t) == level(edges),
{
    lemma_edges_by(edges, t);
    let n = edges_by(edges, t);
    if n < edges.len() {
        assert(edges[n as int].0 <= edges[edges.len() - 1].0);
    }
}

/// Writes leave the set of lanes and the pinned ones as they are.
pub proof fn lemma_set_all_shape(lanes: LanesView, writes: Seq<(usize, bool)>, t: Pico)
    requires
        forall|i: int| 0 <= i < writes.len() ==> (#[trigger] writes[i]).0 < lanes.tracks.len(),
    ensures
        lanes.set_all(writes, t).tracks.len() == lanes.tracks.len(),
        lanes.set_all(writes, t).forced == lanes.forced,
    decreases writes.len(),
{
    if writes.len() > 0 {
        assert forall|i: int| 0 <= i < writes.drop_last().len() implies (
        #[trigger] writes.drop_last()[i]).0 < lanes.tracks.len() by {
            assert(writes.drop_last()[i] == writes[i]);
        }
        assert(writes.last() == writes[writes.len() - 1]);
        lemma_set_all_shape(lanes, writes.drop_last(), t);
    }
}

/// The level at an instant is what the last edge by then left, 10^-12 s of slack
/// included, and low before the first. `i` is any edge of a lane whose edges do not
/// run backwards.
pub proof fn law_a_lane_has_the_level_of_its_last_edge(edges: Seq<(Pico, bool)>, t: int, i: int)
    requires
        forall|a: int, b: int|
            #![trigger edges[a], edges[b]]
            0 <= a <= b < edges.len() ==> edges[a].0 <= edges[b].0,
    ensures
        edges.len() == 0 || edges[0].0 > t + 1 ==> !level_at(edges, t),
        0 <= i < edges.len() && edges[i].0 <= t + 1 && (i + 1 == edges.len() || edges[i + 1].0 > t
            + 1) ==> level_at(edges, t) == edges[i].1,
{
    lemma_edges_by(edges, t);
    let n = edges_by(edges, t);
    if 0 <= i < edges.len() && edges[i].0 <= t + 1 && (i + 1 == edges.len() || edges[i + 1].0 > t
        + 1) {
        if n < i + 1 {
            assert(edges[n as int].0 <= edges[i].0);
        }
        if n > i + 1 {
            assert(edges[i + 1].0 <= t + 1);
        }
    }
}

/// A write that changes the level of a lane that no fault pins is one more edge, at
/// the instant of the write; one that does not change it leaves no trace. Nothing
/// else about the lanes changes.
pub proof fn law_a_change_is_one_edge(lanes: LanesView, lane: int, t: Pico, value: bool)
    requires
        0 <= lane < lanes.tracks.len(),
    ensures
        ({
            let after = lanes.set(lane, t, value);
            let edges = lanes.tracks[lane].edges;
            let high = edges.len() > 0 && edges[edges.len() - 1].1;
            let free = forall|i: int|
                0 <= i < lanes.forced.len() ==> (#[trigger] lanes.forced[i]).0 != lane;
            &&& !free || high == value ==> after == lanes
            &&& free && high != value ==> {
                &&& after.forced == lanes.forced
                &&& after.tracks.len() == lanes.tracks.len()
                &&& after.tracks[lane] == (LaneView {
                    edges: edges.push((t, value)),
                    ..lanes.tracks[lane]
                })
                &&& forall|k: int|
                    0 <= k < lanes.tracks.len() && k != lane ==> #[trigger] after.tracks[k]
                        == lanes.tracks[k]
            }
        }),
{
}

/// Of several writes to a lane that no fault pins the last one stands; a lane that
/// none of them names stays as it is. `i` is the last write to its lane.
pub proof fn law_the_last_write_stands(
    lanes: LanesView,
    writes: Seq<(usize, bool)>,
    t: Pico,
    lane: int,
    i: int,
)
    requires
        0 <= lane < lanes.tracks.len(),
        forall|k: int| 0 <= k < writes.len() ==> (#[trigger] writes[k]).0 < lanes.tracks.len(),
    ensures
        (forall|k: int| 0 <= k < writes.len() ==> (#[trigger] writes[k]).0 != lane)
            ==> lanes.set_all(writes, t).tracks[lane] == lanes.tracks[lane],
        !lanes.pinned(lane) && 0 <= i < writes.len() && writes[i].0 == lane && (forall|k: int|
            i < k < writes.len() ==> (#[trigger] writes[k]).0 != lane) ==> level(
            lanes.set_all(writes, t).tracks[lane].edges,
        ) == writes[i].1,
    decreases writes.len(),
{
    if writes.len() > 0 {
        let less = writes.drop_last();
        assert forall|k: int| 0 <= k < less.len() implies (#[trigger] less[k]).0
            < lanes.tracks.len() by {
            assert(less[k] == writes[k]);
        }
        lemma_set_all_shape(lanes, less, t);
        law_the_last_write_stands(lanes, less, t, lane, i);
        let n = writes.len() - 1;
        assert(writes.last() == writes[n]);
        let mid = lanes.set_all(less, t);
        assert(mid.pinned(lane) == lanes.pinned(lane));
        assert(lanes.set_all(writes, t) == mid.set(writes[n].0 as int, t, writes[n].1));
        if forall|k: int| 0 <= k < writes.len() ==> (#[trigger] writes[k]).0 != lane {
            assert forall|k: int| 0 <= k < less.len() implies (#[trigger] less[k]).0 != lane by {
                assert(less[k] == writes[k]);
            }
        }
        if !lanes.pinned(lane) && 0 <= i < writes.len() && writes[i].0 == lane && (forall|k: int|
            i < k < writes.len() ==> (#[trigger] writes[k]).0 != lane) {
            if i < n {
                assert(less[i] == writes[i]);
                assert forall|k: int| i < k < less.len() implies (#[trigger] less[k]).0 != lane by {
                    assert(less[k] == writes[k]);
                }
            }
        }
    }
}

/// A name reads the first lane that has it, and reads low where none does.
pub proof fn law_a_name_reads_its_lane(lanes: LanesView, name: Seq<char>, i: int)
    ensures
        0 <= i < lanes.tracks.len() && lanes.tracks[i].name == name && (forall|j: int|
            0 <= j < i ==> (#[trigger] lanes.tracks[j]).name != name) ==> lanes.level_of(name)
            == level(lanes.tracks[i].edges),
        (forall|j: int| 0 <= j < lanes.tracks.len() ==> (#[trigger] lanes.tracks[j]).name != name)
            ==> !lanes.level_of(name),
{
    let names = lanes.names();
    crate::names::lemma_find(names, name, 0);
    match find(names, name) {
        Some(k) => {
            assert(names[k] == lanes.tracks[k].name);
            if 0 <= i < lanes.tracks.len() {
                assert(names[i] == lanes.tracks[i].name);
            }
        },
        None => {
            if 0 <= i < lanes.tracks.len() {
                assert(names[i] == lanes.tracks[i].name);
            }
        },
    }
}

} // verus!
