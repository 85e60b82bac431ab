//! Piecewise world motion of tracked objects.

use vstd::prelude::*;

use crate::fixed::{
    cover, covered, minus, muldiv, scaled, shift, shifted, clip, Pico, Pose, Vec3, NANO, UNIT,
};
use crate::names::{find, find_named, index_view, names_of, Named};

verus! {

/// One stretch of a tracked object's motion. Stretches tile the timeline.
#[derive(Clone, Copy, Debug, PartialEq, Eq, Structural)]
pub enum TrackSpan {
    /// At rest at a fixed world pose.
    Hold { t0: Pico, t1: Pico, pose: Pose },
    /// Rigidly attached to a robot link, `offset` in the link's frame.
    Follow { t0: Pico, t1: Pico, robot: usize, link: usize, offset: Pose },
    /// Held and out of sight: waiting in a magazine, or taken off the line.
    Stowed { t0: Pico, t1: Pico, pose: Pose },
    /// Conveyed at constant velocity from `from`, rotation unchanged.
    Linear { t0: Pico, t1: Pico, from: Pose, velocity: Vec3 },
    /// Turned about the vertical axis through `center` at constant `omega`.
    Pivot { t0: Pico, t1: Pico, from: Pose, center: Vec3, omega: Pico },
}

/// The rigid motion a vehicle makes over one sub-interval of a tick.
#[derive(Clone, Copy, Debug, PartialEq, Eq, Structural)]
pub enum VehiclePiece {
    Lin { velocity: Vec3 },
    Piv { center: Vec3, omega: Pico },
}

/// Where a span puts its object at some instant: at a pose, or at one that
/// the kinematics compose.
#[derive(Clone, Copy, Debug, PartialEq, Eq, Structural)]
pub enum Placement {
    At(Pose),
    /// `link pose of robot ∘ offset`.
    OnLink { robot: usize, link: usize, offset: Pose },
    /// `from` turned by `phi` about the vertical axis through `center`.
    Turned { from: Pose, center: Vec3, phi: Pico },
}

/// A displacement straight up.
pub open spec fn upward(rise: Pico) -> Vec3 {
    Vec3 { x: 0, y: 0, z: rise }
}

impl Placement {
    /// The placement lifted by `rise` in the world. A turn about the vertical
    /// keeps heights, so it is what it starts from that is lifted.
    pub open spec fn lifted(self, rise: Pico) -> Placement {
        match self {
            Placement::At(pose) => Placement::At(shifted(pose, upward(rise))),
            Placement::Turned { from, center, phi } => Placement::Turned {
                from: shifted(from, upward(rise)),
                center,
                phi,
            },
            Placement::OnLink { .. } => self,
        }
    }

    /// The placement lifted by `rise` in the world.
    pub fn lift(self, rise: Pico) -> (r: Placement)
        requires
            self !is OnLink,
        ensures
            r == self.lifted(rise),
    {
        let d: Vec3 = Vec3 { x: 0, y: 0, z: rise };
        match self {
            Placement::At(pose) => Placement::At(shift(pose, d)),
            Placement::Turned { from, center, phi } => Placement::Turned {
                from: shift(from, d),
                center,
                phi,
            },
            Placement::OnLink { .. } => self,
        }
    }
}

/// `t` kept within `[lo, hi]`.
pub open spec fn clamped(t: int, lo: int, hi: int) -> int {
    if t < lo {
        lo
    } else if t > hi {
        hi
    } else {
        t
    }
}

impl TrackSpan {
    pub open spec fn start(self) -> Pico {
        match self {
            TrackSpan::Hold { t0, .. } => t0,
            TrackSpan::Follow { t0, .. } => t0,
            TrackSpan::Stowed { t0, .. } => t0,
            TrackSpan::Linear { t0, .. } => t0,
            TrackSpan::Pivot { t0, .. } => t0,
        }
    }

    pub open spec fn end(self) -> Pico {
        match self {
            TrackSpan::Hold { t1, .. } => t1,
            TrackSpan::Follow { t1, .. } => t1,
            TrackSpan::Stowed { t1, .. } => t1,
            TrackSpan::Linear { t1, .. } => t1,
            TrackSpan::Pivot { t1, .. } => t1,
        }
    }

    /// The same motion up to `t1`.
    pub open spec fn until(self, t1: Pico) -> TrackSpan {
        match self {
            TrackSpan::Hold { t0, pose, .. } => TrackSpan::Hold { t0, t1, pose },
            TrackSpan::Follow { t0, robot, link, offset, .. } => TrackSpan::Follow {
                t0,
                t1,
                robot,
                link,
                offset,
            },
            TrackSpan::Stowed { t0, pose, .. } => TrackSpan::Stowed { t0, t1, pose },
            TrackSpan::Linear { t0, from, velocity, .. } => TrackSpan::Linear {
                t0,
                t1,
                from,
                velocity,
            },
            TrackSpan::Pivot { t0, from, center, omega, .. } => TrackSpan::Pivot {
                t0,
                t1,
                from,
                center,
                omega,
            },
        }
    }

    /// Whether the span moves its object.
    pub open spec fn moving(self) -> bool {
        self is Linear || self is Pivot
    }

    /// Where the span puts its object at `t`.
    pub open spec fn placement(self, t: int) -> Placement {
        match self {
            TrackSpan::Hold { pose, .. } => Placement::At(pose),
            TrackSpan::Stowed { pose, .. } => Placement::At(pose),
            TrackSpan::Follow { robot, link, offset, .. } => Placement::OnLink {
                robot,
                link,
                offset,
            },
            TrackSpan::Linear { t0, t1, from, velocity } => Placement::At(
                shifted(from, covered(velocity, clip(clamped(t, t0 as int, t1 as int) - t0) as int)),
            ),
            TrackSpan::Pivot { t0, t1, from, center, omega } => Placement::Turned {
                from,
                center,
                phi: clip(
                    muldiv(
                        omega as int,
                        clip(clamped(t, t0 as int, t1 as int) - t0) as int,
                        UNIT as int,
                    ),
                ),
            },
        }
    }

    /// `(start, end)`.
    pub fn range(&self) -> (r: (Pico, Pico))
        ensures
            r == (self.start(), self.end()),
    {
        match *self {
            TrackSpan::Hold { t0, t1, .. } => (t0, t1),
            TrackSpan::Follow { t0, t1, .. } => (t0, t1),
            TrackSpan::Stowed { t0, t1, .. } => (t0, t1),
            TrackSpan::Linear { t0, t1, .. } => (t0, t1),
            TrackSpan::Pivot { t0, t1, .. } => (t0, t1),
        }
    }

    /// The span's end, to be moved.
    pub fn end_mut(&mut self) -> (r: &mut Pico)
        ensures
            *r == old(self).end(),
            *final(self) == old(self).until(*final(r)),
    {
        match self {
            TrackSpan::Hold { t1, .. } => t1,
            TrackSpan::Follow { t1, .. } => t1,
            TrackSpan::Stowed { t1, .. } => t1,
            TrackSpan::Linear { t1, .. } => t1,
            TrackSpan::Pivot { t1, .. } => t1,
        }
    }

    pub fn is_moving(&self) -> (r: bool)
        ensures
            r == self.moving(),
    {
        match *self {
            TrackSpan::Linear { .. } => true,
            TrackSpan::Pivot { .. } => true,
            _ => false,
        }
    }

    fn place(&self, t: Pico) -> (r: Placement)
        ensures
            r == self.placement(t as int),
    {
        match *self {
            TrackSpan::Hold { pose, .. } => Placement::At(pose),
            TrackSpan::Stowed { pose, .. } => Placement::At(pose),
            TrackSpan::Follow { robot, link, offset, .. } => Placement::OnLink {
                robot,
                link,
                offset,
            },
            TrackSpan::Linear { t0, t1, from, velocity } => Placement::At(
                shift(from, cover(velocity, minus(clamp(t, t0, t1), t0))),
            ),
            TrackSpan::Pivot { t0, t1, from, center, omega } => Placement::Turned {
                from,
                center,
                phi: scaled(omega, minus(clamp(t, t0, t1), t0), UNIT as i128),
            },
        }
    }
}

/// `t` kept within `[lo, hi]`.
pub fn clamp(t: Pico, lo: Pico, hi: Pico) -> (r: Pico)
    ensures
        r == clamped(t as int, lo as int, hi as int),
{
    if t < lo {
        lo
    } else if t > hi {
        hi
    } else {
        t
    }
}

/// Whether two instants are the same within 10^-9 s.
pub open spec fn same_instant(a: int, b: int) -> bool {
    -NANO < a - b < NANO
}

/// Whether `t` falls in the span, ends included, with 10^-9 s of slack.
pub open spec fn covers(span: TrackSpan, t: int) -> bool {
    span.start() - NANO <= t <= span.end() + NANO
}

/// The first span from `from` on that covers `t`; the last span where none
/// does; none in an empty list.
pub open spec fn span_index(spans: Seq<TrackSpan>, t: int, from: int) -> Option<int>
    decreases spans.len() - from,
{
    if spans.len() == 0 {
        None
    } else if from < 0 || from >= spans.len() {
        Some(spans.len() - 1)
    } else if covers(spans[from], t) {
        Some(from)
    } else {
        span_index(spans, t, from + 1)
    }
}

/// The span that speaks for `t`.
pub open spec fn span_for(spans: Seq<TrackSpan>, t: int) -> Option<TrackSpan> {
    match span_index(spans, t, 0) {
        Some(i) => Some(spans[i]),
        None => None,
    }
}

/// The span that speaks for `t`: the first that covers it, else the last.
pub fn span_at(spans: &Vec<TrackSpan>, t: Pico) -> (r: Option<TrackSpan>)
    ensures
        r == span_for(spans@, t as int),
{
    let mut i: usize = 0;
    while i < spans.len()
        invariant
            i <= spans.len(),
            span_index(spans@, t as int, 0) == span_index(spans@, t as int, i as int),
        decreases spans.len() - i,
    {
        let (t0, t1): (Pico, Pico) = spans[i].range();
        if t0 as i128 - NANO as i128 <= t as i128 && t as i128 <= t1 as i128 + NANO as i128 {
            return Some(spans[i]);
        }
        i = i + 1;
    }
    if spans.len() == 0 {
        None
    } else {
        Some(spans[spans.len() - 1])
    }
}

/// Where a span list puts its object at `t`. Spans tile the timeline; the
/// last one extends past its end.
pub fn span_pose(spans: &Vec<TrackSpan>, t: Pico) -> (r: Option<Placement>)
    ensures
        r == (match span_for(spans@, t as int) {
            Some(span) => Some(span.placement(t as int)),
            None => None,
        }),
{
    match span_at(spans, t) {
        Some(span) => Some(span.place(t)),
        None => None,
    }
}

/// The last span stretched to `t`, where it ends earlier.
pub open spec fn stretched(spans: Seq<TrackSpan>, t: Pico) -> Seq<TrackSpan> {
    if spans.len() > 0 && spans.last().end() < t {
        spans.update(spans.len() - 1, spans.last().until(t))
    } else {
        spans
    }
}

fn stretch(spans: &mut Vec<TrackSpan>, t: Pico)
    ensures
        final(spans)@ == stretched(old(spans)@, t),
{
    let n: usize = spans.len();
    if n > 0 && spans[n - 1].range().1 < t {
        let mut last: TrackSpan = spans[n - 1];
        *last.end_mut() = t;
        spans.set(n - 1, last);
    }
}

/// The motion of one piece as a span.
pub open spec fn piece_span(from: Pose, t0: Pico, t1: Pico, piece: VehiclePiece) -> TrackSpan {
    match piece {
        VehiclePiece::Lin { velocity } => TrackSpan::Linear { t0, t1, from, velocity },
        VehiclePiece::Piv { center, omega } => TrackSpan::Pivot { t0, t1, from, center, omega },
    }
}

/// Whether `piece`, starting at `t0`, goes on with the motion of `span`.
pub open spec fn continues(span: TrackSpan, t0: Pico, piece: VehiclePiece) -> bool {
    match (span, piece) {
        (TrackSpan::Linear { t1, velocity, .. }, VehiclePiece::Lin { velocity: v }) => velocity == v
            && same_instant(t1 as int, t0 as int),
        (TrackSpan::Pivot { t1, center, omega, .. }, VehiclePiece::Piv { center: c, omega: o }) => {
            center == c && omega == o && same_instant(t1 as int, t0 as int)
        },
        _ => false,
    }
}

/// The spans after one vehicle piece: nothing for a piece of no length; a
/// leading rest where the list was empty and the motion starts late; the open
/// span stretched where the piece continues it; else a rest over any gap, and
/// the piece.
pub open spec fn with_piece(
    spans: Seq<TrackSpan>,
    from: Pose,
    t0: Pico,
    t1: Pico,
    piece: VehiclePiece,
) -> Seq<TrackSpan> {
    if t1 <= t0 {
        spans
    } else {
        let seeded = if spans.len() == 0 && t0 > 0 {
            spans.push(TrackSpan::Hold { t0: 0, t1: t0, pose: from })
        } else {
            spans
        };
        if seeded.len() > 0 && continues(seeded.last(), t0, piece) {
            seeded.update(seeded.len() - 1, seeded.last().until(t1))
        } else if seeded.len() > 0 && seeded.last().end() < t0 - 1 {
            seeded.push(
                TrackSpan::Hold { t0: seeded.last().end(), t1: t0, pose: from },
            ).push(piece_span(from, t0, t1, piece))
        } else {
            seeded.push(piece_span(from, t0, t1, piece))
        }
    }
}

fn does_continue(span: &TrackSpan, t0: Pico, piece: &VehiclePiece) -> (r: bool)
    ensures
        r == continues(*span, t0, *piece),
{
    let gap: i128 = span.range().1 as i128 - t0 as i128;
    let adjacent: bool = -(NANO as i128) < gap && gap < NANO as i128;
    match (*span, *piece) {
        (TrackSpan::Linear { velocity, .. }, VehiclePiece::Lin { velocity: v }) => velocity == v
            && adjacent,
        (TrackSpan::Pivot { center, omega, .. }, VehiclePiece::Piv { center: c, omega: o }) => {
            center == c && omega == o && adjacent
        },
        _ => false,
    }
}

/// Appends one vehicle piece to a span list, merging with the open span when
/// it continues it, so a whole leg becomes a single span.
pub fn push_vehicle_span(
    spans: &mut Vec<TrackSpan>,
    from: Pose,
    t0: Pico,
    t1: Pico,
    piece: &VehiclePiece,
)
    ensures
        final(spans)@ == with_piece(old(spans)@, from, t0, t1, *piece),
{
    if t1 <= t0 {
        return;
    }
    if spans.len() == 0 && t0 > 0 {
        spans.push(TrackSpan::Hold { t0: 0, t1: t0, pose: from });
    }
    let n: usize = spans.len();
    if n > 0 && does_continue(&spans[n - 1], t0, piece) {
        let mut last: TrackSpan = spans[n - 1];
        *last.end_mut() = t1;
        spans.set(n - 1, last);
        return;
    }
    if n > 0 {
        // A gap means that the vehicle stood still in between.
        let end: Pico = spans[n - 1].range().1;
        if (end as i128) < t0 as i128 - 1 {
            spans.push(TrackSpan::Hold { t0: end, t1: t0, pose: from });
        }
    }
    spans.push(
        match *piece {
            VehiclePiece::Lin { velocity } => TrackSpan::Linear { t0, t1, from, velocity },
            VehiclePiece::Piv { center, omega } => TrackSpan::Pivot {
                t0,
                t1,
                from,
                center,
                omega,
            },
        },
    );
}

/// `from` after a piece of length `dt`; what a pivot turns it to is `turned`.
pub open spec fn moved_by(from: Pose, piece: VehiclePiece, dt: Pico, turned: Pose) -> Pose {
    match piece {
        VehiclePiece::Lin { velocity } => shifted(from, covered(velocity, dt as int)),
        VehiclePiece::Piv { .. } => turned,
    }
}

/// Advances `from` by one vehicle piece lasting `dt`. A straight piece
/// displaces it; the pose that a pivot turns it to is handed in.
pub fn apply_piece(from: Pose, piece: &VehiclePiece, dt: Pico, turned: Pose) -> (r: Pose)
    ensures
        r == moved_by(from, *piece, dt, turned),
{
    match *piece {
        VehiclePiece::Lin { velocity } => shift(from, cover(velocity, dt)),
        VehiclePiece::Piv { .. } => turned,
    }
}

/// One object's motion over the whole timeline.
#[derive(Debug)]
pub struct ObjectTrack {
    pub name: String,
    pub spans: Vec<TrackSpan>,
}

/// What a track says.
#[verifier::ext_equal]
pub struct TrackView {
    pub name: Seq<char>,
    pub spans: Seq<TrackSpan>,
}

impl View for ObjectTrack {
    type V = TrackView;

    open spec fn view(&self) -> TrackView {
        TrackView { name: self.name@, spans: self.spans@ }
    }
}

impl Named for ObjectTrack {
    open spec fn named(&self) -> Seq<char> {
        self.name@
    }

    fn get_name(&self) -> (r: &String) {
        &self.name
    }
}

/// The tracks of a set of named objects.
#[derive(Debug)]
pub struct Tracks {
    pub list: Vec<ObjectTrack>,
}

impl View for Tracks {
    type V = Seq<TrackView>;

    open spec fn view(&self) -> Seq<TrackView> {
        Seq::new(self.list@.len(), |i: int| self.list@[i]@)
    }
}

/// The names of a list of tracks.
pub open spec fn track_names(tracks: Seq<TrackView>) -> Seq<Seq<char>> {
    Seq::new(tracks.len(), |i: int| tracks[i].name)
}

/// What a track holds when it is opened at `since`: a rest from zero on.
pub open spec fn opening(rest: Pose, since: Pico) -> Seq<TrackSpan> {
    if since > 0 {
        seq![TrackSpan::Hold { t0: 0, t1: since, pose: rest }]
    } else {
        Seq::empty()
    }
}

/// The tracks with one for `name`, opened with a rest up to `since` where
/// there was none.
pub open spec fn opened(
    tracks: Seq<TrackView>,
    name: Seq<char>,
    rest: Pose,
    since: Pico,
) -> Seq<TrackView> {
    if find(track_names(tracks), name) is Some {
        tracks
    } else {
        tracks.push(TrackView { name, spans: opening(rest, since) })
    }
}

/// The index that the track of `name` has once it is open.
pub open spec fn open_index(tracks: Seq<TrackView>, name: Seq<char>) -> int {
    match find(track_names(tracks), name) {
        Some(i) => i,
        None => tracks.len() as int,
    }
}

/// The tracks with the spans of track `i` replaced.
pub open spec fn respanned(tracks: Seq<TrackView>, i: int, spans: Seq<TrackSpan>) -> Seq<TrackView> {
    tracks.update(i, TrackView { spans, ..tracks[i] })
}

/// The tracks after `name` jumps at `t`: its open span is stretched to `t`,
/// and `span` follows.
pub open spec fn jumped(
    tracks: Seq<TrackView>,
    name: Seq<char>,
    rest: Pose,
    t: Pico,
    span: TrackSpan,
) -> Seq<TrackView> {
    let ready = opened(tracks, name, rest, t);
    let i = open_index(tracks, name);
    respanned(ready, i, stretched(ready[i].spans, t).push(span))
}

/// A span list after a tick `[t0, t1]` of motion at `velocity` from `rest`:
/// the open span is stretched where it is that motion, else closed at `t0`
/// and followed by a new one.
pub open spec fn with_ride(
    spans: Seq<TrackSpan>,
    rest: Pose,
    t0: Pico,
    t1: Pico,
    velocity: Vec3,
) -> Seq<TrackSpan> {
    if spans.len() > 0 && continues(spans.last(), t0, VehiclePiece::Lin { velocity }) {
        spans.update(spans.len() - 1, spans.last().until(t1))
    } else {
        stretched(spans, t0).push(TrackSpan::Linear { t0, t1, from: rest, velocity })
    }
}

/// The tracks after `name` rides a device over `[t0, t1]`.
pub open spec fn ridden(
    tracks: Seq<TrackView>,
    name: Seq<char>,
    rest: Pose,
    t0: Pico,
    t1: Pico,
    velocity: Vec3,
) -> Seq<TrackView> {
    let ready = opened(tracks, name, rest, t0);
    let i = open_index(tracks, name);
    respanned(ready, i, with_ride(ready[i].spans, rest, t0, t1, velocity))
}

/// The tracks after `name` makes one vehicle piece.
pub open spec fn pieced(
    tracks: Seq<TrackView>,
    name: Seq<char>,
    from: Pose,
    t0: Pico,
    t1: Pico,
    piece: VehiclePiece,
) -> Seq<TrackView> {
    if t1 <= t0 {
        tracks
    } else {
        let ready = opened(tracks, name, from, t0);
        let i = open_index(tracks, name);
        respanned(ready, i, with_piece(ready[i].spans, from, t0, t1, piece))
    }
}

/// Whether a track's last span is a motion that ended before `t`.
pub open spec fn overdue(spans: Seq<TrackSpan>, t: Pico) -> bool {
    spans.len() > 0 && spans.last().moving() && spans.last().end() < t
}

/// The tracks with every last span ending at `duration`.
pub open spec fn finished(tracks: Seq<TrackView>, duration: Pico) -> Seq<TrackView> {
    Seq::new(
        tracks.len(),
        |i: int|
            if tracks[i].spans.len() == 0 {
                tracks[i]
            } else {
                TrackView {
                    spans: tracks[i].spans.update(
                        tracks[i].spans.len() - 1,
                        tracks[i].spans.last().until(duration),
                    ),
                    ..tracks[i]
                }
            },
    )
}

impl Tracks {
    /// The track of `name`.
    pub fn find(&self, name: &str) -> (r: Option<usize>)
        ensures
            index_view(r) == find(track_names(self@), name@),
            r matches Some(i) ==> i < self.list@.len(),
    {
        assert(names_of(self.list@) =~= track_names(self@));
        find_named(&self.list, name)
    }

    /// The track of `name`, opened with a rest covering `[0, since]` where
    /// there was none, so that spans tile from zero.
    pub fn track_at(&mut self, name: &str, rest: Pose, since: Pico) -> (r: usize)
        ensures
            final(self)@ == opened(old(self)@, name@, rest, since),
            r == open_index(old(self)@, name@),
            r < final(self).list@.len(),
    {
        match self.find(name) {
            Some(i) => i,
            None => {
                let mut spans: Vec<TrackSpan> = Vec::new();
                if since > 0 {
                    spans.push(TrackSpan::Hold { t0: 0, t1: since, pose: rest });
                }
                assert(spans@ =~= opening(rest, since));
                self.list.push(ObjectTrack { name: String::from_str(name), spans });
                assert(self@ =~= opened(old(self)@, name@, rest, since));
                self.list.len() - 1
            },
        }
    }

    /// Records an instantaneous change: whatever span was open closes at `t`
    /// and `span` begins.
    pub fn jump(&mut self, name: &str, rest: Pose, t: Pico, span: TrackSpan)
        ensures
            final(self)@ == jumped(old(self)@, name@, rest, t, span),
    {
        let i: usize = self.track_at(name, rest, t);
        let ghost ready = self@;
        stretch(&mut self.list[i].spans, t);
        self.list[i].spans.push(span);
        assert(self@ =~= respanned(ready, i as int, stretched(ready[i as int].spans, t).push(span)));
    }

    /// Extends, or opens, a constant-velocity span covering `[t0, t1]`.
    pub fn extend_linear_span(
        &mut self,
        name: &str,
        rest: Pose,
        t0: Pico,
        t1: Pico,
        velocity: Vec3,
    )
        ensures
            final(self)@ == ridden(old(self)@, name@, rest, t0, t1, velocity),
    {
        let i: usize = self.track_at(name, rest, t0);
        let ghost ready = self@;
        let n: usize = self.list[i].spans.len();
        let piece: VehiclePiece = VehiclePiece::Lin { velocity };
        if n > 0 && does_continue(&self.list[i].spans[n - 1], t0, &piece) {
            let mut last: TrackSpan = self.list[i].spans[n - 1];
            *last.end_mut() = t1;
            self.list[i].spans.set(n - 1, last);
        } else {
            stretch(&mut self.list[i].spans, t0);
            self.list[i].spans.push(TrackSpan::Linear { t0, t1, from: rest, velocity });
        }
        assert(self@ =~= respanned(
            ready,
            i as int,
            with_ride(ready[i as int].spans, rest, t0, t1, velocity),
        ));
    }

    /// Extends, or opens, the exact sub-tick span of one vehicle piece.
    pub fn extend_vehicle_span(
        &mut self,
        name: &str,
        from: Pose,
        t0: Pico,
        t1: Pico,
        piece: &VehiclePiece,
    )
        ensures
            final(self)@ == pieced(old(self)@, name@, from, t0, t1, *piece),
    {
        if t1 <= t0 {
            return;
        }
        let i: usize = self.track_at(name, from, t0);
        let ghost ready = self@;
        push_vehicle_span(&mut self.list[i].spans, from, t0, t1, piece);
        assert(self@ =~= respanned(
            ready,
            i as int,
            with_piece(ready[i as int].spans, from, t0, t1, *piece),
        ));
    }

    /// Appends a span to track `i`.
    pub fn push_span(&mut self, i: usize, span: TrackSpan)
        requires
            i < old(self).list@.len(),
        ensures
            final(self)@ == respanned(old(self)@, i as int, old(self)@[i as int].spans.push(span)),
    {
        let ghost before = self@;
        self.list[i].spans.push(span);
        assert(self@ =~= respanned(before, i as int, before[i as int].spans.push(span)));
    }

    /// Ends every last span at `duration`.
    pub fn finish(&mut self, duration: Pico)
        ensures
            final(self)@ == finished(old(self)@, duration),
    {
        let ghost before = self@;
        let mut i: usize = 0;
        while i < self.list.len()
            invariant
                i <= self.list@.len(),
                self@.len() == before.len(),
                forall|k: int| 0 <= k < i ==> self@[k] == finished(before, duration)[k],
                forall|k: int| i <= k < before.len() ==> self@[k] == before[k],
            decreases self.list.len() - i,
        {
            let ghost mid = self@;
            let n: usize = self.list[i].spans.len();
            if n > 0 {
                let mut last: TrackSpan = self.list[i].spans[n - 1];
                *last.end_mut() = duration;
                self.list[i].spans.set(n - 1, last);
            }
            assert forall|k: int| 0 <= k < mid.len() && k != i implies self@[k] == mid[k] by {
                assert(self.list@[k]@ == mid[k]);
            }
            assert(self@[i as int].spans =~= finished(before, duration)[i as int].spans);
            i = i + 1;
        }
        assert(self@ =~= finished(before, duration));
    }
}

/// A span list that starts at zero, never runs backwards, and leaves between
/// two spans no more than the slack of 10^-9 s.
pub open spec fn tiles(spans: Seq<TrackSpan>) -> bool {
    &&& spans.len() > 0 ==> spans[0].start() == 0
    &&& forall|i: int| 0 <= i < spans.len() ==> (#[trigger] spans[i]).start() <= spans[i].end()
    &&& forall|i: int, j: int|
        #![trigger spans[i], spans[j]]
        0 <= i < spans.len() && j == i + 1 && j < spans.len() ==> -NANO <= spans[j].start()
            - spans[i].end() <= NANO
}

/// Every track tiles.
pub open spec fn all_tile(tracks: Seq<TrackView>) -> bool {
    forall|i: int| 0 <= i < tracks.len() ==> tiles((#[trigger] tracks[i]).spans)
}

/// Whether the track of `name` has reached no further than `t`.
pub open spec fn not_past(tracks: Seq<TrackView>, name: Seq<char>, t: Pico) -> bool {
    match find(track_names(tracks), name) {
        Some(i) => tracks[i].spans.len() > 0 ==> tracks[i].spans.last().end() <= t,
        None => true,
    }
}

pub proof fn lemma_push_tiles(spans: Seq<TrackSpan>, span: TrackSpan)
    requires
        tiles(spans),
        span.start() <= span.end(),
        if spans.len() == 0 {
            span.start() == 0
        } else {
            -NANO <= span.start() - spans.last().end() <= NANO
        },
    ensures
        tiles(spans.push(span)),
{
    let after = spans.push(span);
    assert forall|i: int, j: int|
        #![trigger after[i], after[j]]
        0 <= i < after.len() && j == i + 1 && j < after.len() implies -NANO <= after[j].start()
        - after[i].end() <= NANO by {
        assert(after[i] == spans[i]);
        if j < spans.len() {
            assert(after[j] == spans[j]);
        }
    }
}

pub proof fn lemma_until_tiles(spans: Seq<TrackSpan>, t: Pico)
    requires
        tiles(spans),
        spans.len() > 0,
        spans.last().start() <= t,
    ensures
        tiles(spans.update(spans.len() - 1, spans.last().until(t))),
        spans.update(spans.len() - 1, spans.last().until(t)).last().end() == t,
{
    let after = spans.update(spans.len() - 1, spans.last().until(t));
    assert forall|i: int, j: int|
        #![trigger after[i], after[j]]
        0 <= i < after.len() && j == i + 1 && j < after.len() implies -NANO <= after[j].start()
        - after[i].end() <= NANO by {
        assert(after[i] == spans[i]);
        assert(after[j].start() == spans[j].start());
    }
}

pub proof fn lemma_stretched_tiles(spans: Seq<TrackSpan>, t: Pico)
    requires
        tiles(spans),
        spans.len() > 0 ==> spans.last().end() <= t,
    ensures
        tiles(stretched(spans, t)),
        spans.len() > 0 ==> stretched(spans, t).last().end() == t,
        stretched(spans, t).len() == spans.len(),
{
    if spans.len() > 0 && spans.last().end() < t {
        lemma_until_tiles(spans, t);
    }
}

proof fn lemma_opened(tracks: Seq<TrackView>, name: Seq<char>, rest: Pose, since: Pico)
    requires
        all_tile(tracks),
        not_past(tracks, name, since),
        since >= 0,
    ensures
        all_tile(opened(tracks, name, rest, since)),
        0 <= open_index(tracks, name) < opened(tracks, name, rest, since).len(),
        ({
            let spans = opened(tracks, name, rest, since)[open_index(tracks, name)].spans;
            (spans.len() > 0 ==> spans.last().end() <= since) && (spans.len() == 0 ==> (since == 0
                || find(track_names(tracks), name) is Some))
        }),
{
    crate::names::lemma_find(track_names(tracks), name, 0);
}

/// A jump at an instant that the object's track has not passed keeps every
/// track tiling: spans always tile from zero.
pub proof fn law_jump_keeps_tiling(
    tracks: Seq<TrackView>,
    name: Seq<char>,
    rest: Pose,
    t: Pico,
    span: TrackSpan,
)
    requires
        all_tile(tracks),
        forall|i: int| 0 <= i < tracks.len() ==> (#[trigger] tracks[i]).spans.len() > 0 || t == 0,
        not_past(tracks, name, t),
        t >= 0,
        span.start() == t,
        span.end() >= t,
    ensures
        all_tile(jumped(tracks, name, rest, t, span)),
{
    crate::names::lemma_find(track_names(tracks), name, 0);
    lemma_opened(tracks, name, rest, t);
    let ready = opened(tracks, name, rest, t);
    let i = open_index(tracks, name);
    lemma_stretched_tiles(ready[i].spans, t);
    lemma_push_tiles(stretched(ready[i].spans, t), span);
}

/// A tick of conveyed motion keeps every track tiling.
pub proof fn law_ride_keeps_tiling(
    tracks: Seq<TrackView>,
    name: Seq<char>,
    rest: Pose,
    t0: Pico,
    t1: Pico,
    velocity: Vec3,
)
    requires
        all_tile(tracks),
        forall|i: int| 0 <= i < tracks.len() ==> (#[trigger] tracks[i]).spans.len() > 0 || t0 == 0,
        not_past(tracks, name, t0),
        0 <= t0 <= t1,
    ensures
        all_tile(ridden(tracks, name, rest, t0, t1, velocity)),
{
    crate::names::lemma_find(track_names(tracks), name, 0);
    lemma_opened(tracks, name, rest, t0);
    let ready = opened(tracks, name, rest, t0);
    let i = open_index(tracks, name);
    let spans = ready[i].spans;
    if spans.len() > 0 && continues(spans.last(), t0, VehiclePiece::Lin { velocity }) {
        lemma_until_tiles(spans, t1);
    } else {
        lemma_stretched_tiles(spans, t0);
        lemma_push_tiles(
            stretched(spans, t0),
            TrackSpan::Linear { t0, t1, from: rest, velocity },
        );
    }
}

/// A vehicle piece that starts where its track has got to keeps the track
/// tiling, a rest standing in any gap.
pub proof fn law_piece_keeps_tiling(
    spans: Seq<TrackSpan>,
    from: Pose,
    t0: Pico,
    t1: Pico,
    piece: VehiclePiece,
)
    requires
        tiles(spans),
        spans.len() > 0 ==> spans.last().end() <= t0,
        0 <= t0,
    ensures
        tiles(with_piece(spans, from, t0, t1, piece)),
{
    if t0 < t1 {
        let rest = TrackSpan::Hold { t0: 0, t1: t0, pose: from };
        let seeded = if spans.len() == 0 && t0 > 0 {
            lemma_push_tiles(spans, rest);
            spans.push(rest)
        } else {
            spans
        };
        if seeded.len() > 0 && continues(seeded.last(), t0, piece) {
            lemma_until_tiles(seeded, t1);
        } else if seeded.len() > 0 && seeded.last().end() < t0 - 1 {
            let gap = TrackSpan::Hold { t0: seeded.last().end(), t1: t0, pose: from };
            lemma_push_tiles(seeded, gap);
            lemma_push_tiles(seeded.push(gap), piece_span(from, t0, t1, piece));
        } else {
            lemma_push_tiles(seeded, piece_span(from, t0, t1, piece));
        }
    }
}

/// Ending the timeline at an instant that no track has passed keeps every
/// track tiling, and makes each that holds a span reach exactly that instant.
pub proof fn law_finished_tracks_tile_the_cycle(tracks: Seq<TrackView>, duration: Pico)
    requires
        all_tile(tracks),
        forall|i: int|
            0 <= i < tracks.len() && (#[trigger] tracks[i]).spans.len() > 0
                ==> tracks[i].spans.last().start() <= duration,
    ensures
        all_tile(finished(tracks, duration)),
        forall|i: int|
            0 <= i < tracks.len() && tracks[i].spans.len() > 0 ==> (#[trigger] finished(
                tracks,
                duration,
            )[i]).spans.last().end() == duration,
{
    assert forall|i: int| 0 <= i < tracks.len() implies tiles(
        (#[trigger] finished(tracks, duration)[i]).spans,
    ) && (tracks[i].spans.len() > 0 ==> finished(tracks, duration)[i].spans.last().end()
        == duration) by {
        assert(tiles(tracks[i].spans));
        if tracks[i].spans.len() > 0 {
            lemma_until_tiles(tracks[i].spans, duration);
        }
    }
}

/// A piece that goes on with the motion it follows is recorded in the span
/// already open: a whole leg, however many ticks it takes, is one span.
pub proof fn law_leg_is_one_span(
    spans: Seq<TrackSpan>,
    from: Pose,
    next: Pose,
    t0: Pico,
    t1: Pico,
    t2: Pico,
    piece: VehiclePiece,
)
    requires
        t0 < t1 < t2,
    ensures
        with_piece(with_piece(spans, from, t0, t1, piece), next, t1, t2, piece) == with_piece(
            spans,
            from,
            t0,
            t2,
            piece,
        ),
{
    let once = with_piece(spans, from, t0, t1, piece);
    let twice = with_piece(once, next, t1, t2, piece);
    let whole = with_piece(spans, from, t0, t2, piece);
    assert(once.len() > 0);
    assert(continues(once.last(), t1, piece));
    assert(twice =~= whole);
}

/// What a track says of an instant is what the first span says that covers it, with
/// 10^-9 s of slack at both ends; where none does the last one goes on. A track with
/// no span says nothing.
pub proof fn law_the_first_span_that_covers_speaks(spans: Seq<TrackSpan>, t: int, i: int)
    ensures
        spans.len() == 0 ==> span_for(spans, t) is None,
        0 <= i < spans.len() && spans[i].start() - 1_000 <= t <= spans[i].end() + 1_000 && (forall|
            j: int,
        |
            0 <= j < i ==> t < (#[trigger] spans[j]).start() - 1_000 || t > spans[j].end() + 1_000)
            ==> span_for(spans, t) == Some(spans[i]),
        spans.len() > 0 && (forall|j: int|
            0 <= j < spans.len() ==> t < (#[trigger] spans[j]).start() - 1_000 || t > spans[j].end()
                + 1_000) ==> span_for(spans, t) == Some(spans[spans.len() - 1]),
{
    lemma_span_index(spans, t, 0, i);
}

proof fn lemma_span_index(spans: Seq<TrackSpan>, t: int, from: int, i: int)
    requires
        0 <= from,
    ensures
        from <= i < spans.len() && covers(spans[i], t) && (forall|j: int|
            from <= j < i ==> !covers(#[trigger] spans[j], t)) ==> span_index(spans, t, from)
            == Some(i),
        spans.len() > 0 && (forall|j: int|
            from <= j < spans.len() ==> !covers(#[trigger] spans[j], t)) ==> span_index(
            spans,
            t,
            from,
        ) == Some(spans.len() - 1),
    decreases spans.len() - from,
{
    if from < spans.len() {
        let here = spans[from];
        lemma_span_index(spans, t, from + 1, i);
    }
}

/// A span that rests keeps its object where it is; one on a link keeps it there; one
/// that moves it takes it, from where it starts, as far as its rate does in the time
/// since its start, and one that turns it turns it so, rounded down. Before its start
/// a span puts its object where it starts, after its end where it ends. `u` is the
/// instant of the span next to `t`.
pub proof fn law_a_span_moves_its_object_at_its_rate(span: TrackSpan, t: int, u: int)
    requires
        span.start() <= span.end(),
        span.end() - span.start() <= i64::MAX,
        span.start() <= t <= span.end() ==> u == t,
        t < span.start() ==> u == span.start(),
        t > span.end() ==> u == span.end(),
        span matches TrackSpan::Linear { from, velocity, .. } ==> crate::fixed::roomy(
            from.at,
            velocity,
            u - span.start(),
        ),
        span matches TrackSpan::Pivot { omega, .. } ==> crate::fixed::roomy_part(
            0,
            omega as int,
            u - span.start(),
        ),
    ensures
        match (span, span.placement(t)) {
            (TrackSpan::Hold { pose, .. }, Placement::At(p)) => p == pose,
            (TrackSpan::Stowed { pose, .. }, Placement::At(p)) => p == pose,
            (TrackSpan::Follow { robot, link, offset, .. }, Placement::OnLink {
                robot: r,
                link: l,
                offset: o,
            }) => r == robot && l == link && o == offset,
            (TrackSpan::Linear { from, velocity, .. }, Placement::At(p)) => {
                &&& crate::fixed::gets_to(from.at, p.at, velocity, u - span.start())
                &&& p == (Pose { at: p.at, ..from })
            },
            (TrackSpan::Pivot { from, center, omega, .. }, Placement::Turned {
                from: f,
                center: c,
                phi,
            }) => {
                &&& f == from
                &&& c == center
                &&& 0 <= omega * (u - span.start()) - 1_000_000_000_000 * phi < 1_000_000_000_000
            },
            _ => false,
        },
{
    match span {
        TrackSpan::Linear { from, velocity, .. } => {
            crate::fixed::law_a_rate_takes_a_body_its_way(from, velocity, u - span.start());
        },
        TrackSpan::Pivot { omega, .. } => {
            crate::fixed::law_quotients_are_rounded_down(
                omega as int,
                u - span.start(),
                UNIT as int,
            );
        },
        _ => {},
    }
}

/// A ride is recorded as one straight span that ends with it. It goes on with the
/// last span where that is a ride at the same velocity that ended less than 10^-9 s
/// away, and starts where it was otherwise; the span before it then lasts until it
/// starts, and does what it did. No earlier span changes.
pub proof fn law_a_ride_is_one_straight_span(
    spans: Seq<TrackSpan>,
    rest: Pose,
    t0: Pico,
    t1: Pico,
    velocity: Vec3,
)
    ensures
        ({
            let after = with_ride(spans, rest, t0, t1, velocity);
            let last = spans[spans.len() - 1];
            let goes_on = spans.len() > 0 && last is Linear && last->Linear_velocity == velocity
                && -1_000 < last.end() - t0 < 1_000;
            &&& goes_on ==> after.len() == spans.len() && after[after.len() - 1] == (
            TrackSpan::Linear {
                t0: last.start(),
                t1,
                from: last->Linear_from,
                velocity,
            }) && forall|j: int| 0 <= j < spans.len() - 1 ==> #[trigger] after[j] == spans[j]
            &&& !goes_on ==> {
                &&& after.len() == spans.len() + 1
                &&& after[after.len() - 1] == (TrackSpan::Linear { t0, t1, from: rest, velocity })
                &&& forall|j: int| 0 <= j < spans.len() - 1 ==> #[trigger] after[j] == spans[j]
                &&& spans.len() > 0 && last.end() >= t0 ==> after[spans.len() - 1] == last
                &&& spans.len() > 0 && last.end() < t0 ==> only_longer(
                    last,
                    after[spans.len() - 1],
                    t0,
                )
            }
        }),
{
}

/// The same motion, but until `t`.
pub open spec fn only_longer(span: TrackSpan, after: TrackSpan, t: Pico) -> bool {
    match (span, after) {
        (TrackSpan::Hold { t0, pose, .. }, TrackSpan::Hold { t0: u0, t1: u1, pose: p }) => u0 == t0
            && u1 == t && p == pose,
        (TrackSpan::Stowed { t0, pose, .. }, TrackSpan::Stowed { t0: u0, t1: u1, pose: p }) => u0
            == t0 && u1 == t && p == pose,
        (TrackSpan::Follow { t0, robot, link, offset, .. }, TrackSpan::Follow {
            t0: u0,
            t1: u1,
            robot: r,
            link: l,
            offset: o,
        }) => u0 == t0 && u1 == t && r == robot && l == link && o == offset,
        (TrackSpan::Linear { t0, from, velocity, .. }, TrackSpan::Linear {
            t0: u0,
            t1: u1,
            from: f,
            velocity: v,
        }) => u0 == t0 && u1 == t && f == from && v == velocity,
        (TrackSpan::Pivot { t0, from, center, omega, .. }, TrackSpan::Pivot {
            t0: u0,
            t1: u1,
            from: f,
            center: c,
            omega: o,
        }) => u0 == t0 && u1 == t && f == from && c == center && o == omega,
        _ => false,
    }
}

/// A jump ends what an object did before: its last span lasts until the jump, and the
/// new one follows; earlier spans stay. An object without a track gets one, which
/// starts at rest. Every other track is as it was. `i` is the object's track.
pub proof fn law_a_jump_ends_what_was_before(
    tracks: Seq<TrackView>,
    name: Seq<char>,
    rest: Pose,
    t: Pico,
    span: TrackSpan,
    i: int,
)
    requires
        0 <= i <= tracks.len(),
        i < tracks.len() ==> tracks[i].name == name,
        forall|j: int| 0 <= j < i ==> (#[trigger] tracks[j]).name != name,
        t >= 0,
    ensures
        ({
            let after = jumped(tracks, name, rest, t, span);
            &&& after[i].name == name
            &&& after[i].spans[after[i].spans.len() - 1] == span
            &&& forall|j: int| 0 <= j < tracks.len() && j != i ==> #[trigger] after[j] == tracks[j]
            &&& i == tracks.len() ==> after.len() == tracks.len() + 1 && (t == 0
                ==> after[i].spans.len() == 1) && (t > 0 ==> after[i].spans.len() == 2
                && after[i].spans[0] == (TrackSpan::Hold { t0: 0, t1: t, pose: rest }))
            &&& i < tracks.len() ==> {
                let old_spans = tracks[i].spans;
                let n = old_spans.len();
                &&& after.len() == tracks.len()
                &&& after[i].spans.len() == n + 1
                &&& forall|j: int| 0 <= j < n - 1 ==> #[trigger] after[i].spans[j] == old_spans[j]
                &&& n > 0 && old_spans[n - 1].end() >= t ==> after[i].spans[n - 1] == old_spans[n
                    - 1]
                &&& n > 0 && old_spans[n - 1].end() < t ==> only_longer(
                    old_spans[n - 1],
                    after[i].spans[n - 1],
                    t,
                )
            }
        }),
{
    let names = track_names(tracks);
    crate::names::lemma_find(names, name, 0);
    if i < tracks.len() {
        assert(names[i] == name);
    }
    match find(names, name) {
        Some(k) => {
            assert(names[k] == tracks[k].name);
        },
        None => {},
    }
    assert(open_index(tracks, name) == i);
}

/// When a cycle ends, what every object did last lasts until its end.
pub proof fn law_what_was_last_lasts_to_the_end(tracks: Seq<TrackView>, duration: Pico, i: int)
    requires
        0 <= i < tracks.len(),
    ensures
        ({
            let after = finished(tracks, duration);
            let n = tracks[i].spans.len();
            &&& after.len() == tracks.len()
            &&& after[i].name == tracks[i].name
            &&& after[i].spans.len() == n
            &&& forall|j: int| 0 <= j < n - 1 ==> #[trigger] after[i].spans[j] == tracks[i].spans[j]
            &&& n > 0 ==> only_longer(tracks[i].spans[n - 1], after[i].spans[n - 1], duration)
        }),
{
}

/// A lift in the world adds to the height and to nothing else, where there is room.
pub proof fn law_a_rise_adds_to_the_height(pose: Pose, center: Vec3, phi: Pico, rise: Pico)
    requires
        i64::MIN <= pose.at.z + rise <= i64::MAX,
    ensures
        ({
            let up = Pose { at: Vec3 { z: (pose.at.z + rise) as i64, ..pose.at }, ..pose };
            &&& Placement::At(pose).lifted(rise) == Placement::At(up)
            &&& (Placement::Turned { from: pose, center, phi }).lifted(rise) == (
            Placement::Turned { from: up, center, phi })
        }),
{
}

} // verus!
