//! Lowering conditions and device commands to digital I/O.

use vstd::prelude::*;

use crate::export::{
    command_view, command_views, lemma_command_pushed, push_wait, simplified, test_view, test_views,
    waited, Command, CommandView, DigitalTest, PlainTests, TestView,
};
use crate::fixed::Pico;
use crate::names::{find, find_named, names_of, same};
use crate::seq::{Condition, DeviceCommand};
use crate::text::{cat3, cat5, cat7, plain, plain_text, texts};

verus! {

/// A digital port, with the polarity of its wire: an inverted input is tested
/// against the opposite level, an inverted output written the opposite way.
#[derive(Clone, Copy, Debug, PartialEq, Eq, Structural)]
pub struct IoPort {
    pub port: u32,
    pub invert: bool,
}

/// Name to digital port wiring for a sequence. `inputs` feed level waits,
/// `outputs` feed coil writes. A name is listed once.
#[derive(Debug)]
pub struct SequenceIo {
    pub inputs: Vec<(String, IoPort)>,
    pub outputs: Vec<(String, IoPort)>,
    /// The robot the program runs on: a wait for it to be idle is one that a
    /// blocking controller has already passed.
    pub self_robot: Option<String>,
}

#[verifier::ext_equal]
pub struct IoView {
    pub inputs: Seq<(String, IoPort)>,
    pub outputs: Seq<(String, IoPort)>,
    pub self_robot: Option<Seq<char>>,
}

impl View for SequenceIo {
    type V = IoView;

    open spec fn view(&self) -> IoView {
        IoView {
            inputs: self.inputs@,
            outputs: self.outputs@,
            self_robot: crate::views::opt(self.self_robot),
        }
    }
}

impl IoView {
    /// Whether the program runs on the named robot.
    pub open spec fn own(self, robot: Seq<char>) -> bool {
        self.self_robot == Some(robot)
    }

    /// The wiring of a program that runs on the named robot.
    pub open spec fn on_robot(self, robot: Seq<char>) -> IoView {
        IoView { self_robot: Some(robot), ..self }
    }
}

fn copied_ports(list: &Vec<(String, IoPort)>) -> (r: Vec<(String, IoPort)>)
    ensures
        r@ == list@,
{
    let mut out: Vec<(String, IoPort)> = Vec::new();
    let mut i: usize = 0;
    while i < list.len()
        invariant
            i <= list.len(),
            out@ == list@.take(i as int),
        decreases list.len() - i,
    {
        out.push((list[i].0.clone(), list[i].1));
        i = i + 1;
        assert(out@ =~= list@.take(i as int));
    }
    assert(list@.take(i as int) =~= list@);
    out
}

/// Ports that are not inverted.
pub open spec fn straight(ports: Seq<(String, u32)>) -> Seq<(String, IoPort)> {
    Seq::new(ports.len(), |i: int| (ports[i].0, IoPort { port: ports[i].1, invert: false }))
}

/// The port that a name is wired to.
pub open spec fn port_of(ports: Seq<(String, IoPort)>, name: Seq<char>) -> Option<IoPort> {
    match find(names_of(ports), name) {
        Some(i) => Some(ports[i].1),
        None => None,
    }
}

/// The port that a name is wired to.
pub fn find_port(ports: &Vec<(String, IoPort)>, name: &str) -> (r: Option<IoPort>)
    ensures
        r == port_of(ports@, name@),
{
    match find_named(ports, name) {
        Some(i) => Some(ports[i].1),
        None => None,
    }
}

fn lift(ports: Vec<(String, u32)>) -> (r: Vec<(String, IoPort)>)
    ensures
        r@ == straight(ports@),
{
    let mut out: Vec<(String, IoPort)> = Vec::new();
    let mut i: usize = 0;
    while i < ports.len()
        invariant
            i <= ports.len(),
            out@ == straight(ports@).take(i as int),
        decreases ports.len() - i,
    {
        out.push((ports[i].0.clone(), IoPort { port: ports[i].1, invert: false }));
        i = i + 1;
        assert(out@ =~= straight(ports@).take(i as int));
    }
    assert(out@ =~= straight(ports@));
    out
}

impl SequenceIo {
    /// Plain name to port lists, no inversion.
    pub fn from_ports(inputs: Vec<(String, u32)>, outputs: Vec<(String, u32)>) -> (r: SequenceIo)
        ensures
            r.inputs@ == straight(inputs@),
            r.outputs@ == straight(outputs@),
            r.self_robot is None,
    {
        SequenceIo { inputs: lift(inputs), outputs: lift(outputs), self_robot: None }
    }

    /// The wiring of a program that runs on the named robot.
    pub fn run_by(&self, robot: &str) -> (r: SequenceIo)
        ensures
            r@ == self@.on_robot(robot@),
    {
        SequenceIo {
            inputs: copied_ports(&self.inputs),
            outputs: copied_ports(&self.outputs),
            self_robot: Some(String::from_str(robot)),
        }
    }

    fn is_own(&self, robot: &str) -> (r: bool)
        ensures
            r == self@.own(robot@),
    {
        match &self.self_robot {
            Some(name) => same(name.as_str(), robot),
            None => false,
        }
    }
}

/// A signal without an input port.
pub open spec fn no_input(label: Seq<char>, name: Seq<char>) -> Seq<char> {
    label + ": signal `"@ + name
        + "` has no input port — bind it on the robot controller node (bind_input) or pass inputs={\""@
        + name + "\": <port>}"@
}

/// A device without an in-position input.
pub open spec fn no_position(label: Seq<char>, device: Seq<char>) -> Seq<char> {
    label + ": device `"@ + device
        + "` has no in-position input — bind it (bind_input) or pass inputs={\""@ + device
        + "\": <port>}"@
}

/// A partner robot without an idle contact.
pub open spec fn no_contact(label: Seq<char>, robot: Seq<char>) -> Seq<char> {
    label + ": `robot_done("@ + robot
        + ")` needs the partner controller's idle contact on an input — bind `"@ + robot
        + ".done` (bind_input) or pass inputs={\""@ + robot + "\": <port>}"@
}

/// A timer where only a snapshot test will do.
pub open spec fn no_timer(label: Seq<char>) -> Seq<char> {
    label
        + ": a timer cannot guard a branch or compound wait in a script — give it its own step, or latch it into a signal"@
}

/// An edge where only a snapshot test will do.
pub open spec fn no_edge(label: Seq<char>) -> Seq<char> {
    label
        + ": an edge cannot guard a branch or compound wait in a script — latch the edge into a signal first, or wait for it in its own step"@
}

fn no_input_text(label: &str, name: &str) -> (r: String)
    ensures
        r@ == no_input(label@, name@),
{
    let mut s: String = cat5(
        label,
        ": signal `",
        name,
        "` has no input port — bind it on the robot controller node (bind_input) or pass inputs={\"",
        name,
    );
    s.append("\": <port>}");
    s
}

fn no_position_text(label: &str, device: &str) -> (r: String)
    ensures
        r@ == no_position(label@, device@),
{
    let mut s: String = cat5(
        label,
        ": device `",
        device,
        "` has no in-position input — bind it (bind_input) or pass inputs={\"",
        device,
    );
    s.append("\": <port>}");
    s
}

fn no_contact_text(label: &str, robot: &str) -> (r: String)
    ensures
        r@ == no_contact(label@, robot@),
{
    let mut s: String = cat7(
        label,
        ": `robot_done(",
        robot,
        ")` needs the partner controller's idle contact on an input — bind `",
        robot,
        ".done` (bind_input) or pass inputs={\"",
        robot,
    );
    s.append("\": <port>}");
    s
}

/// A condition as a test of the inputs at one instant, which is what branch
/// guards and compound level waits lower to.
pub open spec fn test_of(condition: Condition, io: IoView, label: Seq<char>) -> Result<
    TestView,
    Seq<char>,
>
    decreases condition,
{
    match condition {
        Condition::Immediately => Ok(TestView::Always),
        Condition::Done => Ok(TestView::Always),
        Condition::Signal { name, value } => match port_of(io.inputs, name@) {
            Some(p) => Ok(TestView::Input { port: p.port, value: value != p.invert }),
            None => Err(no_input(label, name@)),
        },
        Condition::DeviceDone { device } => match port_of(io.inputs, device@) {
            Some(p) => Ok(TestView::Input { port: p.port, value: !p.invert }),
            None => Err(no_position(label, device@)),
        },
        Condition::RobotDone { robot } => if io.own(robot@) {
            Ok(TestView::Always)
        } else {
            match port_of(io.inputs, robot@) {
                Some(p) => Ok(TestView::Input { port: p.port, value: !p.invert }),
                None => Err(no_contact(label, robot@)),
            }
        },
        Condition::All(cs) => match tests_of(cs@, io, label) {
            Ok(tests) => Ok(TestView::AllOf(tests)),
            Err(e) => Err(e),
        },
        Condition::Any(cs) => match tests_of(cs@, io, label) {
            Ok(tests) => Ok(TestView::AnyOf(tests)),
            Err(e) => Err(e),
        },
        Condition::Elapsed { .. } => Err(no_timer(label)),
        Condition::Rising { .. } => Err(no_edge(label)),
        Condition::Falling { .. } => Err(no_edge(label)),
    }
}

/// Conditions as tests, up to the first that has none.
pub open spec fn tests_of(conditions: Seq<Condition>, io: IoView, label: Seq<char>) -> Result<
    Seq<TestView>,
    Seq<char>,
>
    decreases conditions,
{
    if conditions.len() == 0 {
        Ok(Seq::empty())
    } else {
        match tests_of(conditions.drop_last(), io, label) {
            Err(e) => Err(e),
            Ok(tests) => match test_of(conditions.last(), io, label) {
                Ok(test) => Ok(tests.push(test)),
                Err(e) => Err(e),
            },
        }
    }
}

/// Whether a result is what was to come.
pub open spec fn tests_as(r: Result<DigitalTest, String>, want: Result<TestView, Seq<char>>) -> bool {
    match (r, want) {
        (Ok(test), Ok(w)) => test_view(test) == w,
        (Err(e), Err(w)) => e@ == w,
        _ => false,
    }
}

/// A condition as a test of the inputs at one instant. Timers and edges have
/// no such form and are refused with guidance.
pub fn digital_test(condition: &Condition, io: &SequenceIo, label: &str) -> (r: Result<
    DigitalTest,
    String,
>)
    ensures
        tests_as(r, test_of(*condition, io@, label@)),
    decreases condition,
{
    match condition {
        Condition::Immediately => Ok(DigitalTest::Always),
        Condition::Done => Ok(DigitalTest::Always),
        Condition::Signal { name, value } => match find_port(&io.inputs, name.as_str()) {
            Some(p) => Ok(DigitalTest::Input { port: p.port, value: *value != p.invert }),
            None => Err(no_input_text(label, name.as_str())),
        },
        Condition::DeviceDone { device } => match find_port(&io.inputs, device.as_str()) {
            Some(p) => Ok(DigitalTest::Input { port: p.port, value: !p.invert }),
            None => Err(no_position_text(label, device.as_str())),
        },
        Condition::RobotDone { robot } => if io.is_own(robot.as_str()) {
            Ok(DigitalTest::Always)
        } else {
            match find_port(&io.inputs, robot.as_str()) {
                Some(p) => Ok(DigitalTest::Input { port: p.port, value: !p.invert }),
                None => Err(no_contact_text(label, robot.as_str())),
            }
        },
        Condition::All(cs) => match digital_tests(cs, io, label) {
            Ok(tests) => Ok(DigitalTest::AllOf(tests)),
            Err(e) => Err(e),
        },
        Condition::Any(cs) => match digital_tests(cs, io, label) {
            Ok(tests) => Ok(DigitalTest::AnyOf(tests)),
            Err(e) => Err(e),
        },
        Condition::Elapsed { .. } => Err(timer_text(label)),
        Condition::Rising { .. } => Err(edge_text(label)),
        Condition::Falling { .. } => Err(edge_text(label)),
    }
}

fn timer_text(label: &str) -> (r: String)
    ensures
        r@ == no_timer(label@),
{
    let mut s: String = String::from_str(label);
    s.append(
        ": a timer cannot guard a branch or compound wait in a script — give it its own step, or latch it into a signal",
    );
    s
}

fn edge_text(label: &str) -> (r: String)
    ensures
        r@ == no_edge(label@),
{
    let mut s: String = String::from_str(label);
    s.append(
        ": an edge cannot guard a branch or compound wait in a script — latch the edge into a signal first, or wait for it in its own step",
    );
    s
}

fn digital_tests(conditions: &Vec<Condition>, io: &SequenceIo, label: &str) -> (r: Result<
    Vec<DigitalTest>,
    String,
>)
    ensures
        match (r, tests_of(conditions@, io@, label@)) {
            (Ok(tests), Ok(w)) => test_views(tests@) == w,
            (Err(e), Err(w)) => e@ == w,
            _ => false,
        },
    decreases conditions,
{
    let mut out: Vec<DigitalTest> = Vec::new();
    let mut i: usize = 0;
    while i < conditions.len()
        invariant
            i <= conditions.len(),
            tests_of(conditions@.take(i as int), io@, label@) == Ok::<Seq<TestView>, Seq<char>>(
                test_views(out@),
            ),
        decreases conditions.len() - i,
    {
        assert(conditions@.take(i + 1).drop_last() =~= conditions@.take(i as int));
        assert(conditions@.take(i + 1).last() == conditions@[i as int]);
        let ghost had = out@;
        match digital_test(&conditions[i], io, label) {
            Ok(test) => {
                out.push(test);
                assert(out@.drop_last() =~= had);
            },
            Err(e) => {
                proof {
                    lemma_tests_fail(conditions@, io@, label@, i + 1);
                }
                return Err(e);
            },
        }
        i = i + 1;
    }
    assert(conditions@.take(i as int) =~= conditions@);
    Ok(out)
}

proof fn lemma_tests_fail(conditions: Seq<Condition>, io: IoView, label: Seq<char>, k: int)
    requires
        0 <= k <= conditions.len(),
        tests_of(conditions.take(k), io, label) is Err,
    ensures
        tests_of(conditions, io, label) == tests_of(conditions.take(k), io, label),
    decreases conditions.len(),
{
    if k < conditions.len() {
        assert(conditions.drop_last().take(k) =~= conditions.take(k));
        lemma_tests_fail(conditions.drop_last(), io, label, k);
    } else {
        assert(conditions.take(k) =~= conditions);
    }
}

/// Commands and warnings as they accumulate.
#[verifier::ext_equal]
pub struct Emit {
    pub commands: Seq<CommandView>,
    pub warnings: Seq<Seq<char>>,
}

impl Emit {
    pub open spec fn command(self, c: CommandView) -> Emit {
        Emit { commands: self.commands.push(c), ..self }
    }

    /// A level wait in its plainest form.
    pub open spec fn waiting(self, test: TestView) -> Emit {
        Emit { commands: self.commands + waited(test), ..self }
    }

    /// A warning that something runs after a move that it ran beside.
    pub open spec fn warned(self, started: bool, label: Seq<char>, what: Seq<char>) -> Emit {
        if started {
            Emit { warnings: self.warnings.push(beside(label, what)), ..self }
        } else {
            self
        }
    }
}

/// What was concurrent and is not.
pub open spec fn beside(label: Seq<char>, what: Seq<char>) -> Seq<char> {
    label + ": "@ + what
        + " runs beside the move in simulation but after it in the script — the cycle can run slower than the simulated takt"@
}

pub open spec fn emit_of(commands: Seq<Command>, warnings: Seq<String>) -> Emit {
    Emit { commands: command_views(commands), warnings: texts(warnings) }
}

/// The comment above an edge's two waits.
pub open spec fn edge_comment(name: Seq<char>, rising: bool) -> Seq<char> {
    if rising {
        "rising edge of "@ + name + ": wait low, then high"@
    } else {
        "falling edge of "@ + name + ": wait high, then low"@
    }
}

/// A transition as commands. A blocking move is its own wait for what it
/// started; an edge is the idle level, then the active one; a compound wait is
/// one test, simplified, where every member is one, else, where all have to hold,
/// each in turn.
pub open spec fn waits_for(
    condition: Condition,
    io: IoView,
    plain: Seq<(TestView, TestView)>,
    label: Seq<char>,
    started: bool,
    e: Emit,
) -> Result<Emit, Seq<char>>
    decreases condition,
{
    match condition {
        Condition::Immediately => Ok(e),
        Condition::Done => Ok(e),
        Condition::Elapsed { seconds } => Ok(
            e.warned(started, label, "the timer"@).command(CommandView::Sleep { seconds }),
        ),
        Condition::Signal { name, value } => match port_of(io.inputs, name@) {
            Some(p) => Ok(
                e.warned(started, label, "the signal wait"@).command(
                    CommandView::WaitDigitalIn { port: p.port, value: value != p.invert },
                ),
            ),
            None => Err(no_input(label, name@)),
        },
        Condition::Rising { name } => edge_waits(name@, true, io, label, started, e),
        Condition::Falling { name } => edge_waits(name@, false, io, label, started, e),
        Condition::DeviceDone { device } => match port_of(io.inputs, device@) {
            Some(p) => Ok(
                e.warned(started, label, "the in-position wait"@).command(
                    CommandView::WaitDigitalIn { port: p.port, value: !p.invert },
                ),
            ),
            None => Err(no_position(label, device@)),
        },
        Condition::RobotDone { robot } => if io.own(robot@) {
            Ok(e)
        } else {
            match port_of(io.inputs, robot@) {
                Some(p) => Ok(
                    e.warned(started, label, "the partner wait"@).command(
                        CommandView::WaitDigitalIn { port: p.port, value: !p.invert },
                    ),
                ),
                None => Err(no_contact(label, robot@)),
            }
        },
        Condition::All(cs) => match test_of(condition, io, label) {
            Ok(test) => Ok(
                e.warned(started, label, "the compound wait"@).waiting(
                    simplified(plain, test),
                ),
            ),
            Err(_) => waits_for_each(cs@, io, plain, label, started, e),
        },
        Condition::Any(cs) => if cs@.len() == 1 {
            waits_for(cs@[0], io, plain, label, started, e)
        } else {
            match test_of(condition, io, label) {
                Ok(test) => Ok(
                    e.warned(started, label, "the compound wait"@).waiting(
                        simplified(plain, test),
                    ),
                ),
                Err(why) => Err(why),
            }
        },
    }
}

/// Several transitions, each in turn.
pub open spec fn waits_for_each(
    conditions: Seq<Condition>,
    io: IoView,
    plain: Seq<(TestView, TestView)>,
    label: Seq<char>,
    started: bool,
    e: Emit,
) -> Result<Emit, Seq<char>>
    decreases conditions,
{
    if conditions.len() == 0 {
        Ok(e)
    } else {
        match waits_for_each(conditions.drop_last(), io, plain, label, started, e) {
            Err(why) => Err(why),
            Ok(less) => waits_for(conditions.last(), io, plain, label, started, less),
        }
    }
}

/// The compound tests by which a transition is waited for: those that it takes
/// the plainest form of.
pub open spec fn tests_waited(condition: Condition, io: IoView) -> Seq<TestView>
    decreases condition,
{
    match condition {
        Condition::All(cs) => match test_of(condition, io, Seq::empty()) {
            Ok(test) => seq![test],
            Err(_) => tests_waited_each(cs@, io),
        },
        Condition::Any(cs) => if cs@.len() == 1 {
            tests_waited(cs@[0], io)
        } else {
            tests_guarding(condition, io)
        },
        _ => Seq::empty(),
    }
}

/// The compound tests of several transitions.
pub open spec fn tests_waited_each(conditions: Seq<Condition>, io: IoView) -> Seq<TestView>
    decreases conditions,
{
    if conditions.len() == 0 {
        Seq::empty()
    } else {
        tests_waited_each(conditions.drop_last(), io) + tests_waited(conditions.last(), io)
    }
}

/// The test of a condition as a guard, where it has one.
pub open spec fn tests_guarding(condition: Condition, io: IoView) -> Seq<TestView> {
    match test_of(condition, io, Seq::empty()) {
        Ok(test) => seq![test],
        Err(_) => Seq::empty(),
    }
}

/// Two lists give tests the same plainest form.
pub open spec fn simplify_alike(
    a: Seq<(TestView, TestView)>,
    b: Seq<(TestView, TestView)>,
    tests: Seq<TestView>,
) -> bool {
    forall|i: int|
        0 <= i < tests.len() ==> simplified(a, #[trigger] tests[i]) == simplified(b, tests[i])
}

/// What a condition is as a test does not depend on where it stands.
proof fn lemma_test_unlabelled(condition: Condition, io: IoView, label: Seq<char>)
    ensures
        match (test_of(condition, io, label), test_of(condition, io, Seq::empty())) {
            (Ok(a), Ok(b)) => a == b,
            (Err(_), Err(_)) => true,
            _ => false,
        },
    decreases condition,
{
    match condition {
        Condition::All(cs) => lemma_tests_unlabelled(cs@, io, label),
        Condition::Any(cs) => lemma_tests_unlabelled(cs@, io, label),
        _ => {},
    }
}

proof fn lemma_tests_unlabelled(conditions: Seq<Condition>, io: IoView, label: Seq<char>)
    ensures
        match (tests_of(conditions, io, label), tests_of(conditions, io, Seq::empty())) {
            (Ok(a), Ok(b)) => a == b,
            (Err(_), Err(_)) => true,
            _ => false,
        },
    decreases conditions,
{
    if conditions.len() > 0 {
        lemma_tests_unlabelled(conditions.drop_last(), io, label);
        lemma_test_unlabelled(conditions.last(), io, label);
    }
}

/// How a transition is lowered depends on the simplifier by its compound tests
/// alone.
pub proof fn law_a_wait_needs_its_tests_alone(
    condition: Condition,
    io: IoView,
    a: Seq<(TestView, TestView)>,
    b: Seq<(TestView, TestView)>,
    label: Seq<char>,
    started: bool,
    e: Emit,
)
    requires
        simplify_alike(a, b, tests_waited(condition, io)),
    ensures
        waits_for(condition, io, a, label, started, e) == waits_for(
            condition,
            io,
            b,
            label,
            started,
            e,
        ),
    decreases condition,
{
    lemma_test_unlabelled(condition, io, label);
    match condition {
        Condition::All(cs) => match test_of(condition, io, Seq::empty()) {
            Ok(test) => {
                assert(simplified(a, tests_waited(condition, io)[0]) == simplified(b, test));
            },
            Err(_) => {
                lemma_waits_need_their_tests_alone(cs@, io, a, b, label, started, e);
            },
        },
        Condition::Any(cs) => if cs@.len() == 1 {
            law_a_wait_needs_its_tests_alone(cs@[0], io, a, b, label, started, e);
        } else {
            match test_of(condition, io, Seq::empty()) {
                Ok(test) => {
                    assert(simplified(a, tests_waited(condition, io)[0]) == simplified(b, test));
                },
                Err(_) => {},
            }
        },
        _ => {},
    }
}

proof fn lemma_waits_need_their_tests_alone(
    conditions: Seq<Condition>,
    io: IoView,
    a: Seq<(TestView, TestView)>,
    b: Seq<(TestView, TestView)>,
    label: Seq<char>,
    started: bool,
    e: Emit,
)
    requires
        simplify_alike(a, b, tests_waited_each(conditions, io)),
    ensures
        waits_for_each(conditions, io, a, label, started, e) == waits_for_each(
            conditions,
            io,
            b,
            label,
            started,
            e,
        ),
    decreases conditions,
{
    if conditions.len() > 0 {
        let all = tests_waited_each(conditions, io);
        let less = tests_waited_each(conditions.drop_last(), io);
        let last = tests_waited(conditions.last(), io);
        assert forall|i: int| 0 <= i < less.len() implies simplified(a, #[trigger] less[i])
            == simplified(b, less[i]) by {
            assert(all[i] == less[i]);
        }
        assert forall|i: int| 0 <= i < last.len() implies simplified(a, #[trigger] last[i])
            == simplified(b, last[i]) by {
            assert(all[less.len() + i] == last[i]);
        }
        lemma_waits_need_their_tests_alone(
            conditions.drop_last(),
            io,
            a,
            b,
            label,
            started,
            e,
        );
        match waits_for_each(conditions.drop_last(), io, a, label, started, e) {
            Ok(so_far) => {
                law_a_wait_needs_its_tests_alone(
                    conditions.last(),
                    io,
                    a,
                    b,
                    label,
                    started,
                    so_far,
                );
            },
            Err(_) => {},
        }
    }
}

/// Lists the compound tests by which a transition is waited for.
pub fn list_waited(condition: &Condition, io: &SequenceIo, out: &mut Vec<DigitalTest>)
    ensures
        test_views(final(out)@) == test_views(old(out)@) + tests_waited(*condition, io@),
    decreases condition,
{
    let ghost had = test_views(out@);
    assert(""@ =~= Seq::<char>::empty()) by {
        reveal_strlit("");
    }
    match condition {
        Condition::All(cs) => match digital_test(condition, io, "") {
            Ok(test) => {
                push_test(out, test);
            },
            Err(_) => {
                list_waited_each(cs, io, out);
            },
        },
        Condition::Any(cs) => if cs.len() == 1 {
            list_waited(&cs[0], io, out);
        } else {
            list_guarding(condition, io, out);
        },
        _ => {
            assert(had =~= had + tests_waited(*condition, io@));
        },
    }
}

fn list_waited_each(conditions: &Vec<Condition>, io: &SequenceIo, out: &mut Vec<DigitalTest>)
    ensures
        test_views(final(out)@) == test_views(old(out)@) + tests_waited_each(conditions@, io@),
    decreases conditions,
{
    let ghost had = test_views(out@);
    let mut i: usize = 0;
    assert(test_views(out@) =~= had + tests_waited_each(conditions@.take(0), io@));
    while i < conditions.len()
        invariant
            i <= conditions.len(),
            test_views(out@) == had + tests_waited_each(conditions@.take(i as int), io@),
        decreases conditions.len() - i,
    {
        assert(conditions@.take(i + 1).drop_last() =~= conditions@.take(i as int));
        assert(conditions@.take(i + 1).last() == conditions@[i as int]);
        list_waited(&conditions[i], io, out);
        i = i + 1;
        assert(test_views(out@) =~= had + tests_waited_each(conditions@.take(i as int), io@));
    }
    assert(conditions@.take(i as int) =~= conditions@);
}

/// Lists the test of a condition as a guard, where it has one.
pub fn list_guarding(condition: &Condition, io: &SequenceIo, out: &mut Vec<DigitalTest>)
    ensures
        test_views(final(out)@) == test_views(old(out)@) + tests_guarding(*condition, io@),
{
    assert(""@ =~= Seq::<char>::empty()) by {
        reveal_strlit("");
    }
    match digital_test(condition, io, "") {
        Ok(test) => {
            push_test(out, test);
        },
        Err(_) => {
            assert(test_views(out@) =~= test_views(out@) + tests_guarding(*condition, io@));
        },
    }
}

fn push_test(out: &mut Vec<DigitalTest>, test: DigitalTest)
    ensures
        test_views(final(out)@) == test_views(old(out)@) + seq![test_view(test)],
{
    let ghost had = out@;
    let ghost said = test_view(test);
    out.push(test);
    assert(out@.drop_last() =~= had);
    assert(test_views(out@) =~= test_views(had) + seq![said]);
}

/// What a transition that is refused leaves behind: nothing of an alternative,
/// and nothing of a test; of conditions that are waited for one after the other,
/// the waits before the one that is refused.
pub open spec fn waits_left(
    condition: Condition,
    io: IoView,
    plain: Seq<(TestView, TestView)>,
    label: Seq<char>,
    started: bool,
    e: Emit,
) -> Emit
    decreases condition,
{
    match condition {
        Condition::All(cs) => waits_left_each(cs@, io, plain, label, started, e),
        Condition::Any(cs) => if cs@.len() == 1 {
            waits_left(cs@[0], io, plain, label, started, e)
        } else {
            e
        },
        _ => e,
    }
}

/// What the waits of several conditions, one of which is refused, leave behind.
pub open spec fn waits_left_each(
    conditions: Seq<Condition>,
    io: IoView,
    plain: Seq<(TestView, TestView)>,
    label: Seq<char>,
    started: bool,
    e: Emit,
) -> Emit
    decreases conditions,
{
    if conditions.len() == 0 {
        e
    } else {
        match waits_for_each(conditions.drop_last(), io, plain, label, started, e) {
            Err(_) => waits_left_each(conditions.drop_last(), io, plain, label, started, e),
            Ok(less) => waits_left(conditions.last(), io, plain, label, started, less),
        }
    }
}

/// An edge as commands: the idle level, then the active one.
pub open spec fn edge_waits(
    name: Seq<char>,
    rising: bool,
    io: IoView,
    label: Seq<char>,
    started: bool,
    e: Emit,
) -> Result<Emit, Seq<char>> {
    match port_of(io.inputs, name) {
        Some(p) => Ok(
            e.warned(started, label, "the edge wait"@).command(
                CommandView::Comment { text: edge_comment(name, rising) },
            ).command(
                CommandView::WaitDigitalIn { port: p.port, value: rising == p.invert },
            ).command(CommandView::WaitDigitalIn { port: p.port, value: rising != p.invert }),
        ),
        None => Err(no_input(label, name)),
    }
}

fn warn(warnings: &mut Vec<String>, started: bool, label: &str, what: &str)
    ensures
        texts(final(warnings)@) == (if started {
            texts(old(warnings)@).push(beside(label@, what@))
        } else {
            texts(old(warnings)@)
        }),
{
    if started {
        let ghost had = texts(warnings@);
        let mut s: String = cat3(label, ": ", what);
        s.append(
            " runs beside the move in simulation but after it in the script — the cycle can run slower than the simulated takt",
        );
        warnings.push(s);
        assert(texts(warnings@) =~= had.push(beside(label@, what@)));
    }
}

/// Appends a command.
pub fn push_command(commands: &mut Vec<Command>, c: Command)
    ensures
        command_views(final(commands)@) == command_views(old(commands)@).push(command_view(c)),
{
    proof {
        lemma_command_pushed(commands@, c);
    }
    commands.push(c);
}

/// Whether a result is what was to come.
pub open spec fn emits_as(
    r: Result<(), String>,
    commands: Seq<Command>,
    warnings: Seq<String>,
    want: Result<Emit, Seq<char>>,
) -> bool {
    match (r, want) {
        (Ok(_), Ok(e)) => emit_of(commands, warnings) == e,
        (Err(m), Err(w)) => m@ == w,
        _ => false,
    }
}

fn lower_edge(
    name: &str,
    rising: bool,
    io: &SequenceIo,
    label: &str,
    started: bool,
    commands: &mut Vec<Command>,
    warnings: &mut Vec<String>,
) -> (r: Result<(), String>)
    ensures
        emits_as(
            r,
            final(commands)@,
            final(warnings)@,
            edge_waits(
                name@,
                rising,
                io@,
                label@,
                started,
                emit_of(old(commands)@, old(warnings)@),
            ),
        ),
        r is Err ==> emit_of(final(commands)@, final(warnings)@) == emit_of(
            old(commands)@,
            old(warnings)@,
        ),
{
    match find_port(&io.inputs, name) {
        Some(p) => {
            warn(warnings, started, label, "the edge wait");
            let text: String = if rising {
                cat3("rising edge of ", name, ": wait low, then high")
            } else {
                cat3("falling edge of ", name, ": wait high, then low")
            };
            push_command(commands, Command::Comment { text });
            push_command(
                commands,
                Command::WaitDigitalIn { port: p.port, value: rising == p.invert },
            );
            push_command(
                commands,
                Command::WaitDigitalIn { port: p.port, value: rising != p.invert },
            );
            Ok(())
        },
        None => Err(no_input_text(label, name)),
    }
}

/// Emits a transition. `plain` is what the simplifier makes of the compound tests
/// that [`digital_test`] gives.
pub fn lower_condition(
    condition: &Condition,
    io: &SequenceIo,
    plain: &PlainTests,
    label: &str,
    started: bool,
    commands: &mut Vec<Command>,
    warnings: &mut Vec<String>,
) -> (r: Result<(), String>)
    ensures
        emits_as(
            r,
            final(commands)@,
            final(warnings)@,
            waits_for(
                *condition,
                io@,
                plain@,
                label@,
                started,
                emit_of(old(commands)@, old(warnings)@),
            ),
        ),
        r is Err ==> emit_of(final(commands)@, final(warnings)@) == waits_left(
            *condition,
            io@,
            plain@,
            label@,
            started,
            emit_of(old(commands)@, old(warnings)@),
        ),
    decreases condition,
{
    match condition {
        Condition::Immediately => Ok(()),
        Condition::Done => Ok(()),
        Condition::Elapsed { seconds } => {
            warn(warnings, started, label, "the timer");
            push_command(commands, Command::Sleep { seconds: *seconds });
            Ok(())
        },
        Condition::Signal { name, value } => match find_port(&io.inputs, name.as_str()) {
            Some(p) => {
                warn(warnings, started, label, "the signal wait");
                push_command(
                    commands,
                    Command::WaitDigitalIn { port: p.port, value: *value != p.invert },
                );
                Ok(())
            },
            None => Err(no_input_text(label, name.as_str())),
        },
        Condition::Rising { name } => lower_edge(
            name.as_str(),
            true,
            io,
            label,
            started,
            commands,
            warnings,
        ),
        Condition::Falling { name } => lower_edge(
            name.as_str(),
            false,
            io,
            label,
            started,
            commands,
            warnings,
        ),
        Condition::DeviceDone { device } => match find_port(&io.inputs, device.as_str()) {
            Some(p) => {
                warn(warnings, started, label, "the in-position wait");
                push_command(
                    commands,
                    Command::WaitDigitalIn { port: p.port, value: !p.invert },
                );
                Ok(())
            },
            None => Err(no_position_text(label, device.as_str())),
        },
        Condition::RobotDone { robot } => if io.is_own(robot.as_str()) {
            Ok(())
        } else {
            match find_port(&io.inputs, robot.as_str()) {
                Some(p) => {
                    warn(warnings, started, label, "the partner wait");
                    push_command(
                        commands,
                        Command::WaitDigitalIn { port: p.port, value: !p.invert },
                    );
                    Ok(())
                },
                None => Err(no_contact_text(label, robot.as_str())),
            }
        },
        Condition::All(cs) => match digital_test(condition, io, label) {
            Ok(test) => {
                warn(warnings, started, label, "the compound wait");
                push_wait(plain.simplify(test), commands);
                Ok(())
            },
            Err(_) => lower_each(cs, io, plain, label, started, commands, warnings),
        },
        Condition::Any(cs) => if cs.len() == 1 {
            lower_condition(&cs[0], io, plain, label, started, commands, warnings)
        } else {
            match digital_test(condition, io, label) {
                Ok(test) => {
                    warn(warnings, started, label, "the compound wait");
                    push_wait(plain.simplify(test), commands);
                    Ok(())
                },
                Err(e) => Err(e),
            }
        },
    }
}

fn lower_each(
    conditions: &Vec<Condition>,
    io: &SequenceIo,
    plain: &PlainTests,
    label: &str,
    started: bool,
    commands: &mut Vec<Command>,
    warnings: &mut Vec<String>,
) -> (r: Result<(), String>)
    ensures
        emits_as(
            r,
            final(commands)@,
            final(warnings)@,
            waits_for_each(
                conditions@,
                io@,
                plain@,
                label@,
                started,
                emit_of(old(commands)@, old(warnings)@),
            ),
        ),
        r is Err ==> emit_of(final(commands)@, final(warnings)@) == waits_left_each(
            conditions@,
            io@,
            plain@,
            label@,
            started,
            emit_of(old(commands)@, old(warnings)@),
        ),
    decreases conditions,
{
    let ghost start = emit_of(commands@, warnings@);
    let mut i: usize = 0;
    while i < conditions.len()
        invariant
            i <= conditions.len(),
            start == emit_of(old(commands)@, old(warnings)@),
            waits_for_each(conditions@.take(i as int), io@, plain@, label@, started, start) == Ok::<
                Emit,
                Seq<char>,
            >(emit_of(commands@, warnings@)),
        decreases conditions.len() - i,
    {
        assert(conditions@.take(i + 1).drop_last() =~= conditions@.take(i as int));
        assert(conditions@.take(i + 1).last() == conditions@[i as int]);
        match lower_condition(&conditions[i], io, plain, label, started, commands, warnings) {
            Ok(_) => {},
            Err(e) => {
                proof {
                    lemma_each_fails(conditions@, io@, plain@, label@, started, start, i + 1);
                }
                return Err(e);
            },
        }
        i = i + 1;
    }
    assert(conditions@.take(i as int) =~= conditions@);
    Ok(())
}

proof fn lemma_each_fails(
    conditions: Seq<Condition>,
    io: IoView,
    plain: Seq<(TestView, TestView)>,
    label: Seq<char>,
    started: bool,
    e: Emit,
    k: int,
)
    requires
        0 <= k <= conditions.len(),
        waits_for_each(conditions.take(k), io, plain, label, started, e) is Err,
    ensures
        waits_for_each(conditions, io, plain, label, started, e) == waits_for_each(
            conditions.take(k),
            io,
            plain,
            label,
            started,
            e,
        ),
        waits_left_each(conditions, io, plain, label, started, e) == waits_left_each(
            conditions.take(k),
            io,
            plain,
            label,
            started,
            e,
        ),
    decreases conditions.len(),
{
    if k < conditions.len() {
        assert(conditions.drop_last().take(k) =~= conditions.take(k));
        lemma_each_fails(conditions.drop_last(), io, plain, label, started, e, k);
    } else {
        assert(conditions.take(k) =~= conditions);
    }
}

/// A device command in words.
pub open spec fn described(command: DeviceCommand) -> Seq<char> {
    match command {
        DeviceCommand::Start => "start"@,
        DeviceCommand::Stop => "stop"@,
        DeviceCommand::SetSpeed(v) => "set_speed("@ + plain(v as int) + ")"@,
        DeviceCommand::MoveTo(p) => "move_to("@ + plain(p as int) + ")"@,
        DeviceCommand::Goto { station } => "goto("@ + station@ + ")"@,
        DeviceCommand::MoveToStop(stop) => "move_to("@ + stop@ + ")"@,
        DeviceCommand::Advance(d) => "advance("@ + plain(d as int) + ")"@,
    }
}

fn describe(command: &DeviceCommand) -> (r: String)
    ensures
        r@ == described(*command),
{
    match command {
        DeviceCommand::Start => String::from_str("start"),
        DeviceCommand::Stop => String::from_str("stop"),
        DeviceCommand::SetSpeed(v) => cat3("set_speed(", plain_text(*v).as_str(), ")"),
        DeviceCommand::MoveTo(p) => cat3("move_to(", plain_text(*p).as_str(), ")"),
        DeviceCommand::Goto { station } => cat3("goto(", station.as_str(), ")"),
        DeviceCommand::MoveToStop(stop) => cat3("move_to(", stop.as_str(), ")"),
        DeviceCommand::Advance(d) => cat3("advance(", plain_text(*d).as_str(), ")"),
    }
}

/// The coil that a device command writes, where it is one.
pub open spec fn coil_of(command: DeviceCommand) -> Option<bool> {
    match command {
        DeviceCommand::Start => Some(true),
        DeviceCommand::Stop => Some(false),
        _ => None,
    }
}

/// A device command: a mapped run coil is written; anything else stays with
/// the cell controller, under a warning and a comment.
pub open spec fn device_lowered(
    device: Seq<char>,
    command: DeviceCommand,
    io: IoView,
    label: Seq<char>,
    e: Emit,
) -> Emit {
    let comment = CommandView::Comment {
        text: "device "@ + device + ": "@ + described(command)
            + " (left to the cell controller)"@,
    };
    match (coil_of(command), port_of(io.outputs, device)) {
        (Some(value), Some(p)) => e.command(
            CommandView::SetDigitalOut { port: p.port, value: value != p.invert },
        ),
        (Some(_), None) => Emit {
            warnings: e.warnings.push(
                label + ": device `"@ + device + "` has no output port — the "@ + described(command)
                    + " stays with the cell controller (map it via outputs= to drive it from the robot)"@,
            ),
            ..e
        }.command(comment),
        (None, _) => Emit {
            warnings: e.warnings.push(
                label + ": device command `"@ + device + "."@ + described(command)
                    + "` is not expressible as a digital output — the cell controller keeps that job"@,
            ),
            ..e
        }.command(comment),
    }
}

/// A name is wired to the port of the first entry that bears it, and to none where
/// no entry does.
pub proof fn law_a_name_is_wired_where_it_is_listed(ports: Seq<(String, IoPort)>, name: Seq<char>, k: int)
    ensures
        first_wired(ports, name, k) ==> port_of(ports, name) == Some(ports[k].1),
        unwired(ports, name) ==> port_of(ports, name) is None,
        port_of(ports, name) is None ==> unwired(ports, name),
{
    let names = names_of(ports);
    crate::names::lemma_find(names, name, 0);
    match find(names, name) {
        Some(i) => {
            assert(names[i] == ports[i].0@);
            if 0 <= k < ports.len() {
                assert(names[k] == ports[k].0@);
                if k < i {
                    assert(names[k] != name);
                }
            }
        },
        None => {
            assert forall|j: int| 0 <= j < ports.len() implies (#[trigger] ports[j]).0@ != name by {
                assert(names[j] == ports[j].0@);
            }
        },
    }
}

/// Entry `k` of a wiring is the first that bears a name.
pub open spec fn first_wired(ports: Seq<(String, IoPort)>, name: Seq<char>, k: int) -> bool {
    0 <= k < ports.len() && ports[k].0@ == name && forall|j: int|
        0 <= j < k ==> (#[trigger] ports[j]).0@ != name
}

/// No entry of a wiring bears a name.
pub open spec fn unwired(ports: Seq<(String, IoPort)>, name: Seq<char>) -> bool {
    forall|j: int| 0 <= j < ports.len() ==> (#[trigger] ports[j]).0@ != name
}

/// A start switches the run coil of a wired device on, and a stop switches the same
/// coil off: each writes the one port, once, the high level to a straight one and
/// the low to an inverted one for a start, and the other way about for a stop.
/// Nothing is warned of. `k` is the first output of that name.
pub proof fn law_a_start_switches_the_coil_on_and_a_stop_off(
    device: Seq<char>,
    io: IoView,
    label: Seq<char>,
    e: Emit,
    k: int,
)
    requires
        first_wired(io.outputs, device, k),
    ensures
        ({
            let p = io.outputs[k].1;
            let on = device_lowered(device, DeviceCommand::Start, io, label, e);
            let off = device_lowered(device, DeviceCommand::Stop, io, label, e);
            &&& on.commands == e.commands.push(
                CommandView::SetDigitalOut { port: p.port, value: !p.invert },
            )
            &&& off.commands == e.commands.push(
                CommandView::SetDigitalOut { port: p.port, value: p.invert },
            )
            &&& on.warnings == e.warnings
            &&& off.warnings == e.warnings
        }),
{
    law_a_name_is_wired_where_it_is_listed(io.outputs, device, k);
}

/// What no output can say of a device is left to the cell controller: it writes no
/// output, adds one comment, and is warned of once.
pub proof fn law_what_no_output_says_is_warned_of(
    device: Seq<char>,
    command: DeviceCommand,
    io: IoView,
    label: Seq<char>,
    e: Emit,
)
    requires
        unwired(io.outputs, device) || !(command is Start || command is Stop),
    ensures
        ({
            let after = device_lowered(device, command, io, label, e);
            &&& after.commands.len() == e.commands.len() + 1
            &&& after.commands.take(e.commands.len() as int) =~= e.commands
            &&& after.commands.last() is Comment
            &&& after.warnings.len() == e.warnings.len() + 1
            &&& after.warnings.take(e.warnings.len() as int) =~= e.warnings
        }),
{
    law_a_name_is_wired_where_it_is_listed(io.outputs, device, 0);
}

/// A wait for a signal is one wait for the level of its input that says so: high on
/// a straight port where the signal has to be on, low where it has to be off, and
/// the other way about on an inverted one. A signal without an input is refused.
/// `k` is the first input of that name.
pub proof fn law_a_signal_is_waited_for_at_its_level(
    name: String,
    value: bool,
    io: IoView,
    plain: Seq<(TestView, TestView)>,
    label: Seq<char>,
    started: bool,
    e: Emit,
    k: int,
)
    ensures
        ({
            let r = waits_for(Condition::Signal { name, value }, io, plain, label, started, e);
            &&& unwired(io.inputs, name@) ==> r is Err
            &&& first_wired(io.inputs, name@, k) ==> (r matches Ok(after) && after.commands
                == e.commands.push(
                CommandView::WaitDigitalIn {
                    port: io.inputs[k].1.port,
                    value: if io.inputs[k].1.invert {
                        !value
                    } else {
                        value
                    },
                },
            ) && (!started ==> after.warnings == e.warnings))
        }),
{
    law_a_name_is_wired_where_it_is_listed(io.inputs, name@, k);
}

/// An edge is waited for as the level it leaves and then the level it comes to, at
/// the one input of its signal, under a comment.
pub proof fn law_an_edge_is_waited_for_from_one_level_to_the_other(
    name: String,
    io: IoView,
    plain: Seq<(TestView, TestView)>,
    label: Seq<char>,
    started: bool,
    e: Emit,
    k: int,
)
    requires
        first_wired(io.inputs, name@, k),
    ensures
        ({
            let p = io.inputs[k].1;
            let n = e.commands.len() as int;
            let up = waits_for(Condition::Rising { name }, io, plain, label, started, e);
            let down = waits_for(Condition::Falling { name }, io, plain, label, started, e);
            &&& up matches Ok(u) && u.commands.len() == n + 3 && u.commands.take(n) =~= e.commands
                && u.commands[n] is Comment && u.commands[n + 1] == (CommandView::WaitDigitalIn {
                port: p.port,
                value: p.invert,
            }) && u.commands[n + 2] == (CommandView::WaitDigitalIn {
                port: p.port,
                value: !p.invert,
            })
            &&& down matches Ok(d) && d.commands.len() == n + 3 && d.commands.take(n) =~= e.commands
                && d.commands[n] is Comment && d.commands[n + 1] == (CommandView::WaitDigitalIn {
                port: p.port,
                value: !p.invert,
            }) && d.commands[n + 2] == (CommandView::WaitDigitalIn {
                port: p.port,
                value: p.invert,
            })
        }),
{
    law_a_name_is_wired_where_it_is_listed(io.inputs, name@, k);
}

/// A timer is slept for as long as it runs; what a blocking controller has passed
/// already is not waited for at all, the program's own robot among it.
pub proof fn law_timers_sleep_and_what_is_past_is_not_waited_for(
    seconds: Pico,
    robot: String,
    io: IoView,
    plain: Seq<(TestView, TestView)>,
    label: Seq<char>,
    started: bool,
    e: Emit,
)
    ensures
        waits_for(Condition::Elapsed { seconds }, io, plain, label, started, e) matches Ok(after)
            && after.commands == e.commands.push(CommandView::Sleep { seconds }),
        waits_for(Condition::Immediately, io, plain, label, started, e) == Ok::<Emit, Seq<char>>(e),
        waits_for(Condition::Done, io, plain, label, started, e) == Ok::<Emit, Seq<char>>(e),
        io.self_robot == Some(robot@) ==> waits_for(
            Condition::RobotDone { robot },
            io,
            plain,
            label,
            started,
            e,
        ) == Ok::<Emit, Seq<char>>(e),
{
}

/// What runs beside a move and would not in a script is warned of where a move was
/// started, and nowhere else.
pub proof fn law_only_what_ran_beside_a_move_is_warned_of(
    condition: Condition,
    io: IoView,
    plain: Seq<(TestView, TestView)>,
    label: Seq<char>,
    e: Emit,
)
    requires
        condition is Elapsed || condition is Signal || condition is Rising || condition is Falling
            || condition is DeviceDone,
    ensures
        waits_for(condition, io, plain, label, false, e) matches Ok(after) ==> after.warnings
            == e.warnings,
        waits_for(condition, io, plain, label, true, e) matches Ok(after) ==> after.warnings.len()
            == e.warnings.len() + 1 && after.warnings.take(e.warnings.len() as int) =~= e.warnings,
{
}

/// Whether a test passes on inputs at these levels.
pub open spec fn passes(test: TestView, inputs: spec_fn(u32) -> bool) -> bool
    decreases test,
{
    match test {
        TestView::Always => true,
        TestView::Input { port, value } => inputs(port) == value,
        TestView::AllOf(tests) => all_pass(tests, inputs),
        TestView::AnyOf(tests) => any_passes(tests, inputs),
    }
}

/// Whether every one of several tests passes.
pub open spec fn all_pass(tests: Seq<TestView>, inputs: spec_fn(u32) -> bool) -> bool
    decreases tests,
{
    tests.len() == 0 || (all_pass(tests.drop_last(), inputs) && passes(tests.last(), inputs))
}

/// Whether one of several tests passes.
pub open spec fn any_passes(tests: Seq<TestView>, inputs: spec_fn(u32) -> bool) -> bool
    decreases tests,
{
    tests.len() > 0 && (any_passes(tests.drop_last(), inputs) || passes(tests.last(), inputs))
}

proof fn lemma_all_pass(tests: Seq<TestView>, inputs: spec_fn(u32) -> bool)
    ensures
        all_pass(tests, inputs) == (forall|i: int|
            0 <= i < tests.len() ==> passes(#[trigger] tests[i], inputs)),
        any_passes(tests, inputs) == (exists|i: int|
            0 <= i < tests.len() && passes(#[trigger] tests[i], inputs)),
    decreases tests,
{
    if tests.len() > 0 {
        let less = tests.drop_last();
        let n = tests.len() - 1;
        lemma_all_pass(less, inputs);
        assert(tests.last() == tests[n]);
        if forall|i: int| 0 <= i < tests.len() ==> passes(#[trigger] tests[i], inputs) {
            assert forall|i: int| 0 <= i < less.len() implies passes(#[trigger] less[i], inputs) by {
                assert(passes(tests[i], inputs));
            }
            assert(passes(tests[n], inputs));
        }
        if all_pass(tests, inputs) {
            assert forall|i: int| 0 <= i < tests.len() implies passes(#[trigger] tests[i], inputs) by {
                if i < n {
                    assert(passes(less[i], inputs));
                }
            }
        }
        if any_passes(less, inputs) {
            let i = choose|i: int| 0 <= i < less.len() && passes(#[trigger] less[i], inputs);
            assert(passes(tests[i], inputs));
        }
        if exists|i: int| 0 <= i < tests.len() && passes(#[trigger] tests[i], inputs) {
            let i = choose|i: int| 0 <= i < tests.len() && passes(#[trigger] tests[i], inputs);
            if i < n {
                assert(passes(less[i], inputs));
            }
        }
    }
}

/// Whether a condition holds on signals at these levels, a device and another robot
/// signalling that they are done. Edges and timers are no such matter.
pub open spec fn is_true(condition: Condition, io: IoView, signals: spec_fn(Seq<char>) -> bool) -> bool
    decreases condition,
{
    match condition {
        Condition::Signal { name, value } => signals(name@) == value,
        Condition::DeviceDone { device } => signals(device@),
        Condition::RobotDone { robot } => io.self_robot == Some(robot@) || signals(robot@),
        Condition::All(cs) => forall|i: int|
            0 <= i < cs@.len() ==> is_true(#[trigger] cs@[i], io, signals),
        Condition::Any(cs) => exists|i: int|
            0 <= i < cs@.len() && is_true(#[trigger] cs@[i], io, signals),
        _ => true,
    }
}

/// Inputs that say what the signals are: the level of a wired input is that of its
/// signal, or the other where the wire inverts it.
pub open spec fn says(
    inputs: spec_fn(u32) -> bool,
    io: IoView,
    signals: spec_fn(Seq<char>) -> bool,
) -> bool {
    forall|k: int|
        0 <= k < io.inputs.len() ==> inputs((#[trigger] io.inputs[k]).1.port) == (if io.inputs[k].1.invert {
            !signals(io.inputs[k].0@)
        } else {
            signals(io.inputs[k].0@)
        })
}

/// The test that a condition becomes passes on the wired inputs exactly where the
/// condition holds.
pub proof fn law_a_test_passes_where_its_condition_holds(
    condition: Condition,
    io: IoView,
    label: Seq<char>,
    inputs: spec_fn(u32) -> bool,
    signals: spec_fn(Seq<char>) -> bool,
)
    requires
        says(inputs, io, signals),
    ensures
        test_of(condition, io, label) matches Ok(test) ==> passes(test, inputs) == is_true(
            condition,
            io,
            signals,
        ),
    decreases condition,
{
    match condition {
        Condition::Signal { name, .. } => lemma_wired(io, name@, inputs, signals),
        Condition::DeviceDone { device } => lemma_wired(io, device@, inputs, signals),
        Condition::RobotDone { robot } => lemma_wired(io, robot@, inputs, signals),
        Condition::All(cs) => {
            lemma_tests_pass(cs@, io, label, inputs, signals);
            lemma_all_and_any(condition, cs@, io, label, inputs, signals);
        },
        Condition::Any(cs) => {
            lemma_tests_pass(cs@, io, label, inputs, signals);
            lemma_all_and_any(condition, cs@, io, label, inputs, signals);
        },
        _ => {},
    }
}

proof fn lemma_all_and_any(
    condition: Condition,
    cs: Seq<Condition>,
    io: IoView,
    label: Seq<char>,
    inputs: spec_fn(u32) -> bool,
    signals: spec_fn(Seq<char>) -> bool,
)
    requires
        condition matches Condition::All(v) ==> v@ == cs,
        condition matches Condition::Any(v) ==> v@ == cs,
        condition is All || condition is Any,
        tests_of(cs, io, label) matches Ok(tests) ==> tests.len() == cs.len() && forall|i: int|
            0 <= i < cs.len() ==> passes(#[trigger] tests[i], inputs) == is_true(cs[i], io, signals),
    ensures
        test_of(condition, io, label) matches Ok(test) ==> passes(test, inputs) == is_true(
            condition,
            io,
            signals,
        ),
{
    match tests_of(cs, io, label) {
        Err(_) => {},
        Ok(tests) => {
            lemma_all_pass(tests, inputs);
            if forall|i: int| 0 <= i < cs.len() ==> is_true(#[trigger] cs[i], io, signals) {
                assert forall|i: int| 0 <= i < tests.len() implies passes(
#[trigger] tests[i],
                    inputs,
                ) by {
                    assert(is_true(cs[i], io, signals));
                }
            } else {
                let i = choose|i: int| 0 <= i < cs.len() && !is_true(#[trigger] cs[i], io, signals);
                assert(!passes(tests[i], inputs));
            }
            if exists|i: int| 0 <= i < cs.len() && is_true(#[trigger] cs[i], io, signals) {
                let i = choose|i: int| 0 <= i < cs.len() && is_true(#[trigger] cs[i], io, signals);
                assert(passes(tests[i], inputs));
            } else {
                assert forall|i: int| 0 <= i < tests.len() implies !passes(
#[trigger] tests[i],
                    inputs,
                ) by {
                    assert(!is_true(cs[i], io, signals));
                }
            }
            match condition {
                Condition::All(v) => {
                    assert(test_of(condition, io, label) == Ok::<TestView, Seq<char>>(
                        TestView::AllOf(tests),
                    ));
                    assert(passes(TestView::AllOf(tests), inputs) == (forall|i: int|
                        0 <= i < tests.len() ==> passes(#[trigger] tests[i], inputs)));
                    assert(is_true(condition, io, signals) == (forall|i: int|
                        0 <= i < cs.len() ==> is_true(#[trigger] cs[i], io, signals)));
                },
                Condition::Any(v) => {
                    assert(test_of(condition, io, label) == Ok::<TestView, Seq<char>>(
                        TestView::AnyOf(tests),
                    ));
                    assert(passes(TestView::AnyOf(tests), inputs) == (exists|i: int|
                        0 <= i < tests.len() && passes(#[trigger] tests[i], inputs)));
                    assert(is_true(condition, io, signals) == (exists|i: int|
                        0 <= i < cs.len() && is_true(#[trigger] cs[i], io, signals)));
                },
                _ => {},
            }
        },
    }
}

proof fn lemma_wired(
    io: IoView,
    name: Seq<char>,
    inputs: spec_fn(u32) -> bool,
    signals: spec_fn(Seq<char>) -> bool,
)
    requires
        says(inputs, io, signals),
    ensures
        port_of(io.inputs, name) matches Some(p) ==> inputs(p.port) == (signals(name) != p.invert),
{
    let names = names_of(io.inputs);
    crate::names::lemma_find(names, name, 0);
    match find(names, name) {
        Some(i) => {
            assert(names[i] == io.inputs[i].0@);
        },
        None => {},
    }
}

proof fn lemma_tests_pass(
    conditions: Seq<Condition>,
    io: IoView,
    label: Seq<char>,
    inputs: spec_fn(u32) -> bool,
    signals: spec_fn(Seq<char>) -> bool,
)
    requires
        says(inputs, io, signals),
    ensures
        tests_of(conditions, io, label) matches Ok(tests) ==> tests.len() == conditions.len()
            && forall|i: int|
            0 <= i < conditions.len() ==> passes(#[trigger] tests[i], inputs) == is_true(
                conditions[i],
                io,
                signals,
            ),
    decreases conditions,
{
    if conditions.len() > 0 {
        let less = conditions.drop_last();
        lemma_tests_pass(less, io, label, inputs, signals);
        law_a_test_passes_where_its_condition_holds(
            conditions.last(),
            io,
            label,
            inputs,
            signals,
        );
        match (tests_of(conditions, io, label), tests_of(less, io, label)) {
            (Ok(tests), Ok(fewer)) => {
                assert forall|i: int| 0 <= i < conditions.len() implies passes(
#[trigger] tests[i],
                    inputs,
                ) == is_true(conditions[i], io, signals) by {
                    if i < less.len() {
                        assert(passes(fewer[i], inputs) == is_true(less[i], io, signals));
                    }
                }
            },
            _ => {},
        }
    }
}

/// A condition of levels alone: no edge, no timer.
pub open spec fn of_levels(condition: Condition) -> bool
    decreases condition,
{
    match condition {
        Condition::Elapsed { .. } => false,
        Condition::Rising { .. } => false,
        Condition::Falling { .. } => false,
        Condition::All(cs) => forall|i: int| 0 <= i < cs@.len() ==> of_levels(#[trigger] cs@[i]),
        Condition::Any(cs) => forall|i: int| 0 <= i < cs@.len() ==> of_levels(#[trigger] cs@[i]),
        _ => true,
    }
}

/// A simplifier that changes no test's meaning.
pub open spec fn simplifies_rightly(
    plain: Seq<(TestView, TestView)>,
    inputs: spec_fn(u32) -> bool,
) -> bool {
    forall|i: int|
        0 <= i < plain.len() ==> passes((#[trigger] plain[i]).0, inputs) == passes(
            plain[i].1,
            inputs,
        )
}

/// Whether a program that comes to these commands gets past them on inputs at these
/// levels.
pub open spec fn gets_past(commands: Seq<CommandView>, inputs: spec_fn(u32) -> bool) -> bool {
    forall|i: int|
        0 <= i < commands.len() ==> match #[trigger] commands[i] {
            CommandView::WaitDigitalIn { port, value } => inputs(port) == value,
            CommandView::WaitTest { test } => passes(test, inputs),
            _ => true,
        }
}

/// A program gets past a lowered transition exactly where the transition holds: no
/// wait is lost, and none is added. So it is of every condition of levels, however
/// deep, under any simplifier that changes no test's meaning.
pub proof fn law_a_program_gets_past_a_wait_where_it_holds(
    condition: Condition,
    io: IoView,
    plain: Seq<(TestView, TestView)>,
    label: Seq<char>,
    started: bool,
    e: Emit,
    inputs: spec_fn(u32) -> bool,
    signals: spec_fn(Seq<char>) -> bool,
)
    requires
        of_levels(condition),
        says(inputs, io, signals),
        simplifies_rightly(plain, inputs),
    ensures
        waits_for(condition, io, plain, label, started, e) matches Ok(after)
            ==> e.commands.is_prefix_of(after.commands) && gets_past(
            after.commands.skip(e.commands.len() as int),
            inputs,
        ) == is_true(condition, io, signals),
    decreases condition,
{
    let n = e.commands.len() as int;
    match waits_for(condition, io, plain, label, started, e) {
        Err(_) => {},
        Ok(after) => {
            match condition {
                Condition::Signal { name, .. } => {
                    lemma_wired(io, name@, inputs, signals);
                    lemma_one_more(e.commands, after.commands, inputs);
                },
                Condition::DeviceDone { device } => {
                    lemma_wired(io, device@, inputs, signals);
                    lemma_one_more(e.commands, after.commands, inputs);
                },
                Condition::RobotDone { robot } => {
                    lemma_wired(io, robot@, inputs, signals);
                    if io.self_robot == Some(robot@) {
                        assert(after.commands.skip(n) =~= Seq::<CommandView>::empty());
                    } else {
                        lemma_one_more(e.commands, after.commands, inputs);
                    }
                },
                Condition::All(cs) => match test_of(condition, io, label) {
                    Ok(test) => {
                        law_a_test_passes_where_its_condition_holds(
                            condition,
                            io,
                            label,
                            inputs,
                            signals,
                        );
                        lemma_waiting(e, after, plain, test, inputs);
                    },
                    Err(_) => {
                        lemma_gets_past_each(
                            cs@,
                            io,
                            plain,
                            label,
                            started,
                            e,
                            inputs,
                            signals,
                        );
                    },
                },
                Condition::Any(cs) => if cs@.len() == 1 {
                    assert(of_levels(cs@[0]));
                    law_a_program_gets_past_a_wait_where_it_holds(
                        cs@[0],
                        io,
                        plain,
                        label,
                        started,
                        e,
                        inputs,
                        signals,
                    );
                    if is_true(cs@[0], io, signals) {
                        assert(is_true(condition, io, signals));
                    }
                } else {
                    match test_of(condition, io, label) {
                        Ok(test) => {
                            law_a_test_passes_where_its_condition_holds(
                                condition,
                                io,
                                label,
                                inputs,
                                signals,
                            );
                            lemma_waiting(e, after, plain, test, inputs);
                        },
                        Err(_) => {},
                    }
                },
                _ => {
                    assert(after.commands.skip(n) =~= Seq::<CommandView>::empty());
                },
            }
            assert(e.commands =~= after.commands.take(n));
        },
    }
}

proof fn lemma_one_more(
    before: Seq<CommandView>,
    after: Seq<CommandView>,
    inputs: spec_fn(u32) -> bool,
)
    requires
        after.len() == before.len() + 1,
    ensures
        gets_past(after.skip(before.len() as int), inputs) == (match after.last() {
            CommandView::WaitDigitalIn { port, value } => inputs(port) == value,
            CommandView::WaitTest { test } => passes(test, inputs),
            _ => true,
        }),
{
    let tail = after.skip(before.len() as int);
    assert(tail.len() == 1);
    assert(tail[0] == after.last());
}

proof fn lemma_simplified(
    plain: Seq<(TestView, TestView)>,
    test: TestView,
    inputs: spec_fn(u32) -> bool,
    from: int,
)
    requires
        simplifies_rightly(plain, inputs),
        0 <= from,
    ensures
        passes(crate::export::listed(plain, test, from), inputs) == passes(test, inputs),
        passes(simplified(plain, test), inputs) == passes(test, inputs) || from != 0,
    decreases plain.len() - from,
{
    if from < plain.len() {
        lemma_simplified(plain, test, inputs, from + 1);
        assert(passes(plain[from].0, inputs) == passes(plain[from].1, inputs));
    }
}

proof fn lemma_waiting(
    e: Emit,
    after: Emit,
    plain: Seq<(TestView, TestView)>,
    test: TestView,
    inputs: spec_fn(u32) -> bool,
)
    requires
        simplifies_rightly(plain, inputs),
        after.commands == e.commands + waited(simplified(plain, test)),
    ensures
        gets_past(after.commands.skip(e.commands.len() as int), inputs) == passes(test, inputs),
{
    lemma_simplified(plain, test, inputs, 0);
    let simple = simplified(plain, test);
    let tail = after.commands.skip(e.commands.len() as int);
    assert(tail =~= waited(simple));
    match simple {
        TestView::Always => {},
        _ => {
            assert(tail.len() == 1);
            assert(gets_past(tail, inputs) == (match tail[0] {
                CommandView::WaitDigitalIn { port, value } => inputs(port) == value,
                CommandView::WaitTest { test } => passes(test, inputs),
                _ => true,
            }));
        },
    }
}

proof fn lemma_gets_past_each(
    conditions: Seq<Condition>,
    io: IoView,
    plain: Seq<(TestView, TestView)>,
    label: Seq<char>,
    started: bool,
    e: Emit,
    inputs: spec_fn(u32) -> bool,
    signals: spec_fn(Seq<char>) -> bool,
)
    requires
        forall|i: int| 0 <= i < conditions.len() ==> of_levels(#[trigger] conditions[i]),
        says(inputs, io, signals),
        simplifies_rightly(plain, inputs),
    ensures
        waits_for_each(conditions, io, plain, label, started, e) matches Ok(after)
            ==> e.commands.is_prefix_of(after.commands) && gets_past(
            after.commands.skip(e.commands.len() as int),
            inputs,
        ) == (forall|i: int|
            0 <= i < conditions.len() ==> is_true(#[trigger] conditions[i], io, signals)),
    decreases conditions,
{
    let n = e.commands.len() as int;
    if conditions.len() == 0 {
        assert(e.commands.skip(n) =~= Seq::<CommandView>::empty());
        assert(e.commands =~= e.commands.take(n));
    } else {
        let fewer = conditions.drop_last();
        let last = conditions.last();
        assert(of_levels(conditions[conditions.len() - 1]));
        assert forall|i: int| 0 <= i < fewer.len() implies of_levels(#[trigger] fewer[i]) by {
            assert(of_levels(conditions[i]));
        }
        lemma_gets_past_each(fewer, io, plain, label, started, e, inputs, signals);
        match waits_for_each(fewer, io, plain, label, started, e) {
            Err(_) => {},
            Ok(less) => {
                law_a_program_gets_past_a_wait_where_it_holds(
                    last,
                    io,
                    plain,
                    label,
                    started,
                    less,
                    inputs,
                    signals,
                );
                match waits_for(last, io, plain, label, started, less) {
                    Err(_) => {},
                    Ok(after) => {
                        let m = less.commands.len() as int;
                        let whole = after.commands.skip(n);
                        let first = less.commands.skip(n);
                        let second = after.commands.skip(m);
                        assert(less.commands =~= after.commands.take(m));
                        assert(e.commands =~= less.commands.take(n));
                        assert(whole =~= first + second);
                        lemma_gets_past_both(first, second, inputs);
                        assert(e.commands =~= after.commands.take(n));
                        let all = forall|i: int|
                            0 <= i < conditions.len() ==> is_true(
#[trigger] conditions[i],
                                io,
                                signals,
                            );
                        let most = forall|i: int|
                            0 <= i < fewer.len() ==> is_true(#[trigger] fewer[i], io, signals);
                        if all {
                            assert forall|i: int| 0 <= i < fewer.len() implies is_true(
#[trigger] fewer[i],
                                io,
                                signals,
                            ) by {
                                assert(is_true(conditions[i], io, signals));
                            }
                            assert(is_true(conditions[conditions.len() - 1], io, signals));
                        }
                        if most && is_true(last, io, signals) {
                            assert forall|i: int|
                                0 <= i < conditions.len() implies is_true(
#[trigger] conditions[i],
                                io,
                                signals,
                            ) by {
                                if i < fewer.len() {
                                    assert(is_true(fewer[i], io, signals));
                                }
                            }
                        }
                    },
                }
            },
        }
    }
}

proof fn lemma_gets_past_both(
    first: Seq<CommandView>,
    second: Seq<CommandView>,
    inputs: spec_fn(u32) -> bool,
)
    ensures
        gets_past(first + second, inputs) == (gets_past(first, inputs) && gets_past(
            second,
            inputs,
        )),
{
    let all = first + second;
    if gets_past(all, inputs) {
        assert forall|i: int| 0 <= i < first.len() implies match #[trigger] first[i] {
            CommandView::WaitDigitalIn { port, value } => inputs(port) == value,
            CommandView::WaitTest { test } => passes(test, inputs),
            _ => true,
        } by {
            assert(all[i] == first[i]);
        }
        assert forall|i: int| 0 <= i < second.len() implies match #[trigger] second[i] {
            CommandView::WaitDigitalIn { port, value } => inputs(port) == value,
            CommandView::WaitTest { test } => passes(test, inputs),
            _ => true,
        } by {
            assert(all[first.len() + i] == second[i]);
        }
    }
}

/// Emits a device command.
pub fn lower_device(
    device: &str,
    command: &DeviceCommand,
    io: &SequenceIo,
    label: &str,
    commands: &mut Vec<Command>,
    warnings: &mut Vec<String>,
)
    ensures
        emit_of(final(commands)@, final(warnings)@) == device_lowered(
            device@,
            *command,
            io@,
            label@,
            emit_of(old(commands)@, old(warnings)@),
        ),
{
    let ghost had = texts(warnings@);
    let coil: Option<bool> = match command {
        DeviceCommand::Start => Some(true),
        DeviceCommand::Stop => Some(false),
        _ => None,
    };
    let what: String = describe(command);
    let text: String = cat5(
        "device ",
        device,
        ": ",
        what.as_str(),
        " (left to the cell controller)",
    );
    match coil {
        Some(value) => match find_port(&io.outputs, device) {
            Some(p) => {
                push_command(
                    commands,
                    Command::SetDigitalOut { port: p.port, value: value != p.invert },
                );
            },
            None => {
                let mut warning: String = cat5(
                    label,
                    ": device `",
                    device,
                    "` has no output port — the ",
                    what.as_str(),
                );
                warning.append(
                    " stays with the cell controller (map it via outputs= to drive it from the robot)",
                );
                let ghost seen = warning@;
                warnings.push(warning);
                assert(texts(warnings@) =~= had.push(seen));
                push_command(commands, Command::Comment { text });
            },
        },
        None => {
            let mut warning: String = cat5(
                label,
                ": device command `",
                device,
                ".",
                what.as_str(),
            );
            warning.append(
                "` is not expressible as a digital output — the cell controller keeps that job",
            );
            let ghost seen = warning@;
            warnings.push(warning);
            assert(texts(warnings@) =~= had.push(seen));
            push_command(commands, Command::Comment { text });
        },
    }
}

/// A program that runs on a robot has the robot's wiring, and is the robot's own.
pub proof fn law_a_program_is_its_robots_own(io: IoView, robot: Seq<char>, other: Seq<char>)
    ensures
        io.on_robot(robot).inputs == io.inputs,
        io.on_robot(robot).outputs == io.outputs,
        io.on_robot(robot).own(robot),
        other != robot ==> !io.on_robot(robot).own(other),
{
}

} // verus!
