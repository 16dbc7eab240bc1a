//! The course of a run: which step follows which, and what the run comes to.

use vstd::prelude::*;
use crate::process::check_launch;
use crate::report::{check_exit, exit_check};
use crate::runtime::{ending, Failure, FailureView};
use crate::text::text_of;

verus! {

/// A step of a run.
#[derive(Debug, Clone, Copy, PartialEq, Eq, Structural)]
pub enum Step {
    /// See that the host can run the target.
    CheckHost,
    /// Take the devices.
    Allocate,
    /// Hand the image to the container runtime.
    LoadImage,
    /// Bring in the inputs.
    Stage,
    /// Ask in a container which devices the workload will see.
    Prepare,
    /// Wait until every node of the group is ready.
    Gather,
    /// Start the workload, and wait for its end.
    Launch,
    /// Collect the outputs.
    Collect,
    /// Nothing is left.
    Done,
}

/// A step that only a workload in a container has.
pub open spec fn contained(container: bool, step: Step) -> Seq<Step> {
    if container {
        seq![step]
    } else {
        Seq::empty()
    }
}

/// The steps of a run on one host, once everything was built and the devices were taken.
pub open spec fn run_steps(container: bool) -> Seq<Step> {
    contained(container, Step::Prepare) + seq![Step::Stage, Step::Launch, Step::Collect]
}

/// The steps of a node's part in a run.
pub open spec fn node_steps(container: bool) -> Seq<Step> {
    seq![Step::CheckHost, Step::Allocate] + contained(container, Step::LoadImage) + seq![
        Step::Stage,
    ] + contained(container, Step::Prepare) + seq![Step::Gather, Step::Launch, Step::Collect]
}

/// What came of a step.
#[derive(Debug)]
pub enum Event {
    /// It is done.
    Done,
    /// The workload has ended with this code.
    Exited(i32),
    Failed(Failure),
}

pub enum EventView {
    Done,
    Exited(i32),
    Failed(FailureView),
}

impl View for Event {
    type V = EventView;

    open spec fn view(&self) -> EventView {
        match self {
            Event::Done => EventView::Done,
            Event::Exited(code) => EventView::Exited(*code),
            Event::Failed(f) => EventView::Failed(f@),
        }
    }
}

/// What a step can come to: the workload ends with a code, every other step is done, and any
/// step can fail.
pub open spec fn can_come_of(step: Step, e: EventView) -> bool {
    match e {
        EventView::Done => step != Step::Launch,
        EventView::Exited(_) => step == Step::Launch,
        EventView::Failed(_) => true,
    }
}

/// How far a run has come: the steps that are left, the code of the workload once it has
/// ended, and the result so far.
pub struct CourseView {
    pub left: Seq<Step>,
    pub exit_code: Option<i32>,
    pub result: Result<(), FailureView>,
}

/// A run that has not begun.
pub open spec fn course_of(steps: Seq<Step>) -> CourseView {
    CourseView { left: steps, exit_code: None, result: Ok(()) }
}

/// The next step.
pub open spec fn next_step(v: CourseView) -> Step {
    if v.left.len() == 0 {
        Step::Done
    } else {
        v.left[0]
    }
}

/// A run that ends with a failure.
pub open spec fn stopped(v: CourseView, why: FailureView) -> CourseView {
    CourseView { left: Seq::empty(), result: Err(why), ..v }
}

/// A failure that leaves nothing behind.
pub open spec fn plain_failure(error: Seq<Seq<char>>) -> FailureView {
    FailureView { error, quarantines: false }
}

/// A run that someone may have cancelled: then no workload is started.
pub open spec fn unless_cancelled(v: CourseView, cancelled: bool) -> CourseView {
    if cancelled && next_step(v) == Step::Launch {
        stopped(v, plain_failure(seq!["cancelled before launch"@]))
    } else {
        v
    }
}

/// What a workload's code makes of a run whose outputs are collected.
pub open spec fn result_of(exit_code: Option<i32>) -> Result<(), FailureView> {
    match exit_code {
        None => Ok(()),
        Some(code) => match exit_check(code) {
            Ok(_) => Ok(()),
            Err(error) => Err(plain_failure(error)),
        },
    }
}

/// What an event makes of a run. A workload that fails does not keep its outputs from being
/// collected, but the run has failed.
pub open spec fn proceeded(v: CourseView, e: EventView) -> CourseView {
    if v.left.len() == 0 {
        v
    } else {
        match e {
            EventView::Failed(why) => stopped(v, why),
            EventView::Exited(code) => CourseView {
                left: v.left.skip(1),
                exit_code: Some(code),
                ..v
            },
            EventView::Done => CourseView {
                left: v.left.skip(1),
                result: if v.left[0] == Step::Collect {
                    result_of(v.exit_code)
                } else {
                    v.result
                },
                ..v
            },
        }
    }
}

/// The course of a run.
pub struct Course {
    steps: Vec<Step>,
    at: usize,
    exit_code: Option<i32>,
    result: Result<(), Failure>,
}

impl View for Course {
    type V = CourseView;

    closed spec fn view(&self) -> CourseView {
        CourseView {
            left: self.steps@.skip(self.at as int),
            exit_code: self.exit_code,
            result: ending(self.result),
        }
    }
}

impl Course {
    #[verifier::type_invariant]
    spec fn within(self) -> bool {
        self.at <= self.steps@.len()
    }

    fn new(steps: Vec<Step>) -> (r: Course)
        ensures
            r@ == course_of(steps@),
    {
        let r = Course { steps, at: 0, exit_code: None, result: Ok(()) };
        assert(r@.left =~= steps@);
        r
    }

    /// The course of a run on one host.
    pub fn of_run(container: bool) -> (r: Course)
        ensures
            r@ == course_of(run_steps(container)),
    {
        let mut steps: Vec<Step> = Vec::new();
        if container {
            steps.push(Step::Prepare);
        }
        steps.push(Step::Stage);
        steps.push(Step::Launch);
        steps.push(Step::Collect);
        assert(steps@ =~= run_steps(container));
        Course::new(steps)
    }

    /// The course of a node's part in a run.
    pub fn of_node(container: bool) -> (r: Course)
        ensures
            r@ == course_of(node_steps(container)),
    {
        let mut steps: Vec<Step> = Vec::new();
        steps.push(Step::CheckHost);
        steps.push(Step::Allocate);
        if container {
            steps.push(Step::LoadImage);
        }
        steps.push(Step::Stage);
        if container {
            steps.push(Step::Prepare);
        }
        steps.push(Step::Gather);
        steps.push(Step::Launch);
        steps.push(Step::Collect);
        assert(steps@ =~= node_steps(container));
        Course::new(steps)
    }

    /// Ends the run with a failure.
    fn stop(&mut self, why: Failure)
        ensures
            final(self)@ == stopped(old(self)@, why@),
    {
        let exit_code = self.exit_code;
        *self = Course { steps: Vec::new(), at: 0, exit_code, result: Err(why) };
        assert(self@.left =~= Seq::empty());
    }

    /// The next step, unless the run was cancelled before the workload is started.
    pub fn next(&mut self, cancelled: bool) -> (r: Step)
        ensures
            final(self)@ == unless_cancelled(old(self)@, cancelled),
            r == next_step(final(self)@),
    {
        proof {
            use_type_invariant(&*self);
        }
        if self.at == self.steps.len() {
            return Step::Done;
        }
        let step = self.steps[self.at];
        assert(self@.left[0] == step);
        if step == Step::Launch {
            match check_launch(cancelled) {
                Ok(_) => {},
                Err(e) => {
                    assert(e@ =~= seq!["cancelled before launch"@]);
                    self.stop(Failure::plain(e));
                    return Step::Done;
                },
            }
        }
        step
    }

    /// Takes what came of a step.
    pub fn proceed(&mut self, event: Event)
        requires
            can_come_of(next_step(old(self)@), event@),
        ensures
            final(self)@ == proceeded(old(self)@, event@),
    {
        proof {
            use_type_invariant(&*self);
        }
        if self.at == self.steps.len() {
            return;
        }
        let ghost left = self@.left;
        let at = self.at;
        let step = self.steps[at];
        assert(left[0] == step);
        match event {
            Event::Failed(why) => {
                self.stop(why);
            },
            Event::Exited(code) => {
                self.exit_code = Some(code);
                self.at = at + 1;
                assert(self@.left =~= left.skip(1));
            },
            Event::Done => {
                if step == Step::Collect {
                    if let Some(code) = self.exit_code {
                        self.result = match check_exit(code) {
                            Ok(_) => Ok(()),
                            Err(e) => Err(Failure::plain(e)),
                        };
                    } else {
                        self.result = Ok(());
                    }
                }
                self.at = at + 1;
                assert(self@.left =~= left.skip(1));
            },
        }
    }

    /// What the other nodes are told as soon as the workload of this one has failed.
    pub fn complaint(&self) -> (r: Option<String>)
        ensures
            text_of(r) == match self@.exit_code {
                Some(code) => match exit_check(code) {
                    Ok(_) => None,
                    Err(e) => Some(e[0]),
                },
                None => None,
            },
    {
        match self.exit_code {
            None => None,
            Some(code) => match check_exit(code) {
                Ok(_) => None,
                Err(e) => Some(e.message()),
            },
        }
    }

    /// The code of the workload, once it has ended.
    pub fn exit_code(&self) -> (r: Option<i32>)
        ensures
            r == self@.exit_code,
    {
        self.exit_code
    }

    /// What the run comes to.
    pub fn finish(self) -> (r: Result<(), Failure>)
        requires
            next_step(self@) == Step::Done,
        ensures
            ending(r) == self@.result,
    {
        self.result
    }
}

// ----------------------------------------------------------------- laws

/// How far a run has come after a number of events.
pub open spec fn course_after(steps: Seq<Step>, events: Seq<EventView>) -> CourseView
    decreases events.len(),
{
    if events.len() == 0 {
        course_of(steps)
    } else {
        proceeded(course_after(steps, events.drop_last()), events.last())
    }
}

/// Whether every event came of the step that was next.
pub open spec fn course_valid(steps: Seq<Step>, events: Seq<EventView>) -> bool
    decreases events.len(),
{
    events.len() == 0 || course_valid(steps, events.drop_last()) && can_come_of(
        next_step(course_after(steps, events.drop_last())),
        events.last(),
    )
}

/// Steps are taken in their order, one after the other: as long as a step is left, every step
/// before it was taken and none has failed.
pub proof fn law_steps_are_taken_in_order(steps: Seq<Step>, events: Seq<EventView>)
    requires
        course_valid(steps, events),
        course_after(steps, events).left.len() > 0,
    ensures
        events.len() < steps.len(),
        course_after(steps, events).left == steps.skip(events.len() as int),
        forall|i: int| 0 <= i < events.len() ==> !(#[trigger] events[i] is Failed),
    decreases events.len(),
{
    if events.len() == 0 {
        assert(steps.skip(0) =~= steps);
    } else {
        let front = events.drop_last();
        let before_it = course_after(steps, front);
        assert(before_it.left.len() > 0);
        law_steps_are_taken_in_order(steps, front);
        assert(steps.skip(front.len() as int).skip(1) =~= steps.skip(events.len() as int));
        assert forall|i: int| 0 <= i < events.len() implies !(#[trigger] events[i] is Failed) by {
            if i < front.len() {
                assert(front[i] == events[i]);
            }
        }
    }
}

/// No node starts its workload before its group is ready: the step before the start is to
/// wait for all nodes, and it has succeeded.
pub proof fn law_workloads_start_behind_the_barrier(container: bool, events: Seq<EventView>)
    requires
        course_valid(node_steps(container), events),
        next_step(course_after(node_steps(container), events)) == Step::Launch,
    ensures
        events.len() > 0,
        events.last() is Done,
        next_step(course_after(node_steps(container), events.drop_last())) == Step::Gather,
{
    let steps = node_steps(container);
    law_steps_are_taken_in_order(steps, events);
    let n = events.len() as int;
    assert(steps[n] == Step::Launch);
    let front = events.drop_last();
    assert(events.last() == events[n - 1]);
    assert(course_after(steps, front).left.len() > 0);
    law_steps_are_taken_in_order(steps, front);
    assert(course_after(steps, front).left[0] == steps[n - 1]);
}

/// A run that was cancelled starts no workload any more.
pub proof fn law_cancelled_runs_start_nothing(v: CourseView)
    ensures
        next_step(unless_cancelled(v, true)) != Step::Launch,
        next_step(v) == Step::Launch ==> unless_cancelled(v, true).result is Err,
{
}

/// Only a run whose workload has ended with zero and whose outputs are collected succeeds.
pub proof fn law_success_needs_the_workload(
    container: bool,
    node: bool,
    events: Seq<EventView>,
)
    requires
        ({
            let steps = if node {
                node_steps(container)
            } else {
                run_steps(container)
            };
            &&& course_valid(steps, events)
            &&& course_after(steps, events).left.len() == 0
            &&& course_after(steps, events).result is Ok
        }),
    ensures
        ({
            let steps = if node {
                node_steps(container)
            } else {
                run_steps(container)
            };
            course_after(steps, events).exit_code == Some(0i32)
        }),
    decreases events.len(),
{
    let steps = if node {
        node_steps(container)
    } else {
        run_steps(container)
    };
    reveal_with_fuel(course_valid, 3);
    reveal_with_fuel(course_after, 3);
    let front = events.drop_last();
    let before_it = course_after(steps, front);
    if before_it.left.len() == 0 {
        law_success_needs_the_workload(container, node, front);
    } else {
        law_steps_are_taken_in_order(steps, front);
        let n = front.len() as int;
        assert(before_it.left.skip(1).len() == 0);
        assert(n == steps.len() - 1);
        assert(steps[n] == Step::Collect);
        assert(before_it.left[0] == steps[n]);
        let earlier = front.drop_last();
        assert(front.len() > 0);
        assert(course_after(steps, earlier).left.len() > 0);
        law_steps_are_taken_in_order(steps, earlier);
        assert(course_after(steps, earlier).left[0] == steps[n - 1]);
        assert(steps[n - 1] == Step::Launch);
        assert(before_it.exit_code is Some);
    }
}

/// The steps of a run and of a node, in their order. Only a workload in a container has an image
/// to load and a container to prepare, and only a node of a group waits for the others.
pub proof fn law_the_steps_of_a_course()
    ensures
        run_steps(false) == seq![Step::Stage, Step::Launch, Step::Collect],
        run_steps(true) == seq![Step::Prepare, Step::Stage, Step::Launch, Step::Collect],
        node_steps(false) == seq![
            Step::CheckHost,
            Step::Allocate,
            Step::Stage,
            Step::Gather,
            Step::Launch,
            Step::Collect,
        ],
        node_steps(true) == seq![
            Step::CheckHost,
            Step::Allocate,
            Step::LoadImage,
            Step::Stage,
            Step::Prepare,
            Step::Gather,
            Step::Launch,
            Step::Collect,
        ],
{
    assert(run_steps(false) =~= seq![Step::Stage, Step::Launch, Step::Collect]);
    assert(run_steps(true) =~= seq![Step::Prepare, Step::Stage, Step::Launch, Step::Collect]);
    assert(node_steps(false) =~= seq![
        Step::CheckHost,
        Step::Allocate,
        Step::Stage,
        Step::Gather,
        Step::Launch,
        Step::Collect,
    ]);
    assert(node_steps(true) =~= seq![
        Step::CheckHost,
        Step::Allocate,
        Step::LoadImage,
        Step::Stage,
        Step::Prepare,
        Step::Gather,
        Step::Launch,
        Step::Collect,
    ]);
}

/// A step that is done leads to the next one. One that fails ends the course with that failure,
/// and what the workload ended with stays known. A workload that has ended decides only once its
/// outputs are collected: with zero the run has succeeded, with anything else it has failed.
pub proof fn law_courses_end_as_their_workload_does(
    v: CourseView,
    why: FailureView,
    code: i32,
    cancelled: bool,
)
    requires
        v.left.len() > 0,
    ensures
        proceeded(v, EventView::Failed(why)) == (CourseView {
            left: Seq::empty(),
            exit_code: v.exit_code,
            result: Err(why),
        }),
        v.left[0] != Step::Collect && v.left[0] != Step::Launch ==> proceeded(v, EventView::Done)
            == (CourseView { left: v.left.skip(1), exit_code: v.exit_code, result: v.result }),
        v.left[0] == Step::Launch ==> proceeded(v, EventView::Exited(code)) == (CourseView {
            left: v.left.skip(1),
            exit_code: Some(code),
            result: v.result,
        }),
        v.left == seq![Step::Launch, Step::Collect] ==> {
            let end = proceeded(proceeded(v, EventView::Exited(code)), EventView::Done);
            &&& end.left.len() == 0
            &&& end.exit_code == Some(code)
            &&& end.result is Ok <==> code == 0
            &&& end.result matches Err(f) ==> !f.quarantines
        },
        !cancelled || v.left[0] != Step::Launch ==> unless_cancelled(v, cancelled) == v,
        cancelled && v.left[0] == Step::Launch ==> unless_cancelled(v, cancelled).left.len() == 0
            && unless_cancelled(v, cancelled).result is Err,
        next_step(v) == v.left[0],
{
    if v.left == seq![Step::Launch, Step::Collect] {
        let launched = proceeded(v, EventView::Exited(code));
        assert(launched.left =~= seq![Step::Collect]);
        assert(launched.left.skip(1) =~= Seq::empty());
    }
}

/// A course starts with all of its steps before it, with no failure and nothing run.
pub proof fn law_courses_start_at_the_start(steps: Seq<Step>)
    ensures
        course_of(steps).left == steps,
        course_of(steps).exit_code is None,
        course_of(steps).result is Ok,
{
}

/// A course ends as it stands: with the code of its workload, and with the failure or the success
/// that it came to. What it complains of is a workload that ended with anything but zero.
pub proof fn law_courses_tell_how_they_ended(
    course: &Course,
    code: Option<i32>,
    complaint: Option<String>,
    done: Course,
    r: Result<(), Failure>,
    container: bool,
    run: Course,
    node: Course,
)
    requires
        call_ensures(Course::exit_code, (course,), code),
        call_ensures(Course::complaint, (course,), complaint),
        call_ensures(Course::finish, (done,), r),
        call_ensures(Course::of_run, (container,), run),
        call_ensures(Course::of_node, (container,), node),
    ensures
        code == course@.exit_code,
        complaint is Some <==> course@.exit_code is Some && course@.exit_code != Some(0i32),
        r is Ok <==> done@.result is Ok,
        r matches Err(f) ==> done@.result == Err::<(), FailureView>(f@),
        run@.left.len() == (if container {
            4int
        } else {
            3
        }) && run@.left.last() == Step::Collect && run@.result is Ok && run@.exit_code is None,
        node@.left.len() == (if container {
            8int
        } else {
            6
        }) && node@.left[0] == Step::CheckHost && node@.left[1] == Step::Allocate
            && node@.left.contains(Step::Gather) && node@.left.last() == Step::Collect
            && node@.result is Ok && node@.exit_code is None,
{
    law_the_steps_of_a_course();
    if container {
        assert(node@.left[5] == Step::Gather);
    } else {
        assert(node@.left[3] == Step::Gather);
    }
}

/// A course goes on as what came of its step says, and starts nothing once it is cancelled.
pub proof fn law_courses_go_on(
    course: &mut Course,
    event: Event,
    other: &mut Course,
    cancelled: bool,
    step: Step,
)
    requires
        old(course)@.left.len() > 0,
        call_ensures(Course::proceed, (course, event), ()),
        call_ensures(Course::next, (other, cancelled), step),
    ensures
        event matches Event::Failed(f) ==> final(course)@.left.len() == 0 && final(course)@.result
            == Err::<(), FailureView>(f@),
        event matches Event::Exited(code) ==> final(course)@.exit_code == Some(code) && final(course)@.left == old(course)@.left.skip(1),
        event is Done ==> final(course)@.left == old(course)@.left.skip(1) && final(course)@.exit_code == old(course)@.exit_code,
        !cancelled ==> final(other)@ == old(other)@ && step == next_step(old(other)@),
        cancelled ==> step != Step::Launch,
        old(other)@.left.len() > 0 && !cancelled ==> step == old(other)@.left[0],
        old(other)@.left.len() == 0 ==> step == Step::Done,
{
}

} // verus!
