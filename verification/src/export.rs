//! Controller programs: the commands that a sequence is lowered to.

use vstd::prelude::*;

use crate::fixed::Pico;

verus! {

/// A test of digital inputs at one instant.
#[derive(Debug)]
pub enum DigitalTest {
    Always,
    Input { port: u32, value: bool },
    AllOf(Vec<DigitalTest>),
    AnyOf(Vec<DigitalTest>),
}

pub enum TestView {
    Always,
    Input { port: u32, value: bool },
    AllOf(Seq<TestView>),
    AnyOf(Seq<TestView>),
}

/// What a test says.
pub open spec fn test_view(test: DigitalTest) -> TestView
    decreases test,
{
    match test {
        DigitalTest::Always => TestView::Always,
        DigitalTest::Input { port, value } => TestView::Input { port, value },
        DigitalTest::AllOf(tests) => TestView::AllOf(test_views(tests@)),
        DigitalTest::AnyOf(tests) => TestView::AnyOf(test_views(tests@)),
    }
}

/// What a list of tests says.
pub open spec fn test_views(tests: Seq<DigitalTest>) -> Seq<TestView>
    decreases tests,
{
    if tests.len() == 0 {
        Seq::empty()
    } else {
        test_views(tests.drop_last()).push(test_view(tests.last()))
    }
}

/// One command of a controller program.
#[derive(Debug)]
pub enum Command {
    Comment { text: String },
    MoveJoint { q: Vec<Pico>, velocity: Pico, acceleration: Pico, blend: Pico },
    MoveLinear { q: Vec<Pico>, velocity: Pico, acceleration: Pico, blend: Pico },
    SetDigitalOut { port: u32, value: bool },
    WaitDigitalIn { port: u32, value: bool },
    WaitTest { test: DigitalTest },
    Sleep { seconds: Pico },
    Select { arms: Vec<ProgramArm> },
}

/// One arm of a select command.
#[derive(Debug)]
pub struct ProgramArm {
    pub test: DigitalTest,
    pub body: Vec<Command>,
}

pub enum CommandView {
    Comment { text: Seq<char> },
    MoveJoint { q: Seq<Pico>, velocity: Pico, acceleration: Pico, blend: Pico },
    MoveLinear { q: Seq<Pico>, velocity: Pico, acceleration: Pico, blend: Pico },
    SetDigitalOut { port: u32, value: bool },
    WaitDigitalIn { port: u32, value: bool },
    WaitTest { test: TestView },
    Sleep { seconds: Pico },
    Select { arms: Seq<ArmView> },
}

pub struct ArmView {
    pub test: TestView,
    pub body: Seq<CommandView>,
}

/// What a command says.
pub open spec fn command_view(c: Command) -> CommandView
    decreases c,
{
    match c {
        Command::Comment { text } => CommandView::Comment { text: text@ },
        Command::MoveJoint { q, velocity, acceleration, blend } => CommandView::MoveJoint {
            q: q@,
            velocity,
            acceleration,
            blend,
        },
        Command::MoveLinear { q, velocity, acceleration, blend } => CommandView::MoveLinear {
            q: q@,
            velocity,
            acceleration,
            blend,
        },
        Command::SetDigitalOut { port, value } => CommandView::SetDigitalOut { port, value },
        Command::WaitDigitalIn { port, value } => CommandView::WaitDigitalIn { port, value },
        Command::WaitTest { test } => CommandView::WaitTest { test: test_view(test) },
        Command::Sleep { seconds } => CommandView::Sleep { seconds },
        Command::Select { arms } => CommandView::Select { arms: arm_views(arms@) },
    }
}

/// What a list of commands says.
pub open spec fn command_views(cs: Seq<Command>) -> Seq<CommandView>
    decreases cs,
{
    if cs.len() == 0 {
        Seq::empty()
    } else {
        command_views(cs.drop_last()).push(command_view(cs.last()))
    }
}

/// What a list of arms says.
pub open spec fn arm_views(arms: Seq<ProgramArm>) -> Seq<ArmView>
    decreases arms,
{
    if arms.len() == 0 {
        Seq::empty()
    } else {
        arm_views(arms.drop_last()).push(
            ArmView { test: test_view(arms.last().test), body: command_views(arms.last().body@) },
        )
    }
}

/// Appending to a list appends to what it says.
pub proof fn lemma_command_pushed(cs: Seq<Command>, c: Command)
    ensures
        command_views(cs.push(c)) == command_views(cs).push(command_view(c)),
{
    assert(cs.push(c).drop_last() =~= cs);
}

/// A list says as much as it has entries, each its own.
pub proof fn lemma_command_views(cs: Seq<Command>)
    ensures
        command_views(cs).len() == cs.len(),
        forall|i: int|
            0 <= i < cs.len() ==> (#[trigger] command_views(cs)[i]) == command_view(cs[i]),
    decreases cs.len(),
{
    if cs.len() > 0 {
        lemma_command_views(cs.drop_last());
        assert forall|i: int| 0 <= i < cs.len() implies (#[trigger] command_views(cs)[i])
            == command_view(cs[i]) by {
            if i < cs.len() - 1 {
                assert(command_views(cs.drop_last())[i] == command_view(cs.drop_last()[i]));
            }
        }
    }
}

pub proof fn lemma_test_views(tests: Seq<DigitalTest>)
    ensures
        test_views(tests).len() == tests.len(),
        forall|i: int|
            0 <= i < tests.len() ==> (#[trigger] test_views(tests)[i]) == test_view(tests[i]),
    decreases tests.len(),
{
    if tests.len() > 0 {
        lemma_test_views(tests.drop_last());
        assert forall|i: int| 0 <= i < tests.len() implies (#[trigger] test_views(tests)[i])
            == test_view(tests[i]) by {
            if i < tests.len() - 1 {
                assert(test_views(tests.drop_last())[i] == test_view(tests.drop_last()[i]));
            }
        }
    }
}

/// A level wait in its plainest form: a vacuous test vanishes, a lone input
/// keeps the single-contact wait, anything else waits on the whole test.
pub open spec fn waited(test: TestView) -> Seq<CommandView> {
    match test {
        TestView::Always => Seq::empty(),
        TestView::Input { port, value } => seq![CommandView::WaitDigitalIn { port, value }],
        _ => seq![CommandView::WaitTest { test }],
    }
}

/// Emits a level wait in its plainest form.
pub fn push_wait(test: DigitalTest, commands: &mut Vec<Command>)
    ensures
        command_views(final(commands)@) == command_views(old(commands)@) + waited(
            test_view(test),
        ),
{
    let ghost before = commands@;
    let ghost want = command_views(before) + waited(test_view(test));
    match test {
        DigitalTest::Always => {
            assert(want =~= command_views(before));
        },
        DigitalTest::Input { port, value } => {
            let c: Command = Command::WaitDigitalIn { port, value };
            proof {
                lemma_command_pushed(before, c);
                assert(want =~= command_views(before).push(command_view(c)));
            }
            commands.push(c);
        },
        other => {
            let c: Command = Command::WaitTest { test: other };
            proof {
                lemma_command_pushed(before, c);
                assert(want =~= command_views(before).push(command_view(c)));
            }
            commands.push(c);
        },
    }
}

/// What the simplifier makes of tests: each as it is written, and the plainer
/// one that says the same. A test that is not listed it leaves as it is.
#[derive(Debug)]
pub struct PlainTests {
    pub list: Vec<(DigitalTest, DigitalTest)>,
}

impl View for PlainTests {
    type V = Seq<(TestView, TestView)>;

    open spec fn view(&self) -> Seq<(TestView, TestView)> {
        Seq::new(
            self.list@.len(),
            |i: int| (test_view(self.list@[i].0), test_view(self.list@[i].1)),
        )
    }
}

/// A test in its plainest form. Nothing is plainer than a vacuous test or a lone
/// input.
pub open spec fn simplified(plain: Seq<(TestView, TestView)>, test: TestView) -> TestView {
    match test {
        TestView::Always => test,
        TestView::Input { .. } => test,
        _ => listed(plain, test, 0),
    }
}

/// The first plainer form, from `from` on, that is listed for a test; else the
/// test itself.
pub open spec fn listed(plain: Seq<(TestView, TestView)>, test: TestView, from: int) -> TestView
    decreases plain.len() - from,
{
    if from < 0 || from >= plain.len() {
        test
    } else if plain[from].0 == test {
        plain[from].1
    } else {
        listed(plain, test, from + 1)
    }
}

/// Whether two tests say the same, word for word.
pub fn same_test(a: &DigitalTest, b: &DigitalTest) -> (r: bool)
    ensures
        r == (test_view(*a) == test_view(*b)),
    decreases a,
{
    match (a, b) {
        (DigitalTest::Always, DigitalTest::Always) => true,
        (
            DigitalTest::Input { port: p, value: v },
            DigitalTest::Input { port: q, value: w },
        ) => *p == *q && *v == *w,
        (DigitalTest::AllOf(xs), DigitalTest::AllOf(ys)) => same_tests(xs, ys),
        (DigitalTest::AnyOf(xs), DigitalTest::AnyOf(ys)) => same_tests(xs, ys),
        _ => false,
    }
}

fn same_tests(a: &Vec<DigitalTest>, b: &Vec<DigitalTest>) -> (r: bool)
    ensures
        r == (test_views(a@) == test_views(b@)),
    decreases a,
{
    proof {
        lemma_test_views(a@);
        lemma_test_views(b@);
    }
    if a.len() != b.len() {
        return false;
    }
    let mut i: usize = 0;
    while i < a.len()
        invariant
            i <= a.len(),
            a@.len() == b@.len(),
            test_views(a@).len() == a@.len(),
            test_views(b@).len() == b@.len(),
            forall|k: int|
                0 <= k < a@.len() ==> (#[trigger] test_views(a@)[k]) == test_view(a@[k]),
            forall|k: int|
                0 <= k < b@.len() ==> (#[trigger] test_views(b@)[k]) == test_view(b@[k]),
            forall|k: int| 0 <= k < i ==> (#[trigger] test_views(a@)[k]) == test_views(b@)[k],
        decreases a.len() - i,
    {
        assert(test_views(a@)[i as int] == test_view(a@[i as int]));
        assert(test_views(b@)[i as int] == test_view(b@[i as int]));
        if !same_test(&a[i], &b[i]) {
            return false;
        }
        i = i + 1;
    }
    assert(test_views(a@) =~= test_views(b@));
    true
}

/// A test that says the same as `test`.
pub fn copied_test(test: &DigitalTest) -> (r: DigitalTest)
    ensures
        test_view(r) == test_view(*test),
    decreases test,
{
    match test {
        DigitalTest::Always => DigitalTest::Always,
        DigitalTest::Input { port, value } => DigitalTest::Input { port: *port, value: *value },
        DigitalTest::AllOf(tests) => DigitalTest::AllOf(copied_tests(tests)),
        DigitalTest::AnyOf(tests) => DigitalTest::AnyOf(copied_tests(tests)),
    }
}

fn copied_tests(tests: &Vec<DigitalTest>) -> (r: Vec<DigitalTest>)
    ensures
        test_views(r@) == test_views(tests@),
    decreases tests,
{
    let mut out: Vec<DigitalTest> = Vec::new();
    let mut i: usize = 0;
    while i < tests.len()
        invariant
            i <= tests.len(),
            test_views(out@) == test_views(tests@.take(i as int)),
        decreases tests.len() - i,
    {
        let ghost had = out@;
        out.push(copied_test(&tests[i]));
        i = i + 1;
        assert(out@.drop_last() =~= had);
        assert(tests@.take(i as int).drop_last() =~= tests@.take(i - 1));
        assert(tests@.take(i as int).last() == tests@[i - 1]);
    }
    assert(tests@.take(i as int) =~= tests@);
    out
}

impl PlainTests {
    /// A test in its plainest form.
    pub fn simplify(&self, test: DigitalTest) -> (r: DigitalTest)
        ensures
            test_view(r) == simplified(self@, test_view(test)),
    {
        match test {
            DigitalTest::Always => test,
            DigitalTest::Input { .. } => test,
            _ => {
                let mut i: usize = 0;
                while i < self.list.len()
                    invariant
                        i <= self.list.len(),
                        simplified(self@, test_view(test)) == listed(
                            self@,
                            test_view(test),
                            i as int,
                        ),
                    decreases self.list.len() - i,
                {
                    if same_test(&self.list[i].0, &test) {
                        return copied_test(&self.list[i].1);
                    }
                    i = i + 1;
                }
                test
            },
        }
    }
}

/// A controller program.
#[derive(Debug)]
pub struct Program {
    pub name: String,
    pub joint_names: Vec<String>,
    pub commands: Vec<Command>,
}

/// A wait on a vacuous test is none; one on a lone input is a single-contact wait, and
/// any other waits on the whole test.
pub proof fn law_a_wait_is_as_plain_as_its_test(test: TestView)
    ensures
        test is Always ==> waited(test).len() == 0,
        test matches TestView::Input { port, value } ==> waited(test) == seq![
            CommandView::WaitDigitalIn { port, value },
        ],
        test is AllOf || test is AnyOf ==> waited(test) == seq![CommandView::WaitTest { test }],
{
}

/// A vacuous test and a lone input are as plain as they are; any other test is the first
/// plainer form that is listed for it, or itself. `i` is any entry.
pub proof fn law_a_test_is_its_first_plainer_form(
    plain: Seq<(TestView, TestView)>,
    test: TestView,
    i: int,
)
    ensures
        test is Always || test is Input ==> simplified(plain, test) == test,
        test is AllOf || test is AnyOf ==> (0 <= i < plain.len() && plain[i].0 == test && (forall|
            j: int,
        |
            0 <= j < i ==> (#[trigger] plain[j]).0 != test) ==> simplified(plain, test)
            == plain[i].1),
        (forall|j: int| 0 <= j < plain.len() ==> (#[trigger] plain[j]).0 != test) ==> simplified(
            plain,
            test,
        ) == test,
{
    lemma_listed(plain, test, 0, i);
}

proof fn lemma_listed(plain: Seq<(TestView, TestView)>, test: TestView, from: int, i: int)
    requires
        0 <= from,
    ensures
        from <= i < plain.len() && plain[i].0 == test && (forall|j: int|
            from <= j < i ==> (#[trigger] plain[j]).0 != test) ==> listed(plain, test, from)
            == plain[i].1,
        (forall|j: int| from <= j < plain.len() ==> (#[trigger] plain[j]).0 != test) ==> listed(
            plain,
            test,
            from,
        ) == test,
    decreases plain.len() - from,
{
    if from < plain.len() {
        let here = plain[from];
        lemma_listed(plain, test, from + 1, i);
    }
}

} // verus!
