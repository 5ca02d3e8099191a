//! Timing of named tasks, nested into sub-tasks.

use vstd::prelude::*;
use std::time::{Duration, Instant};

verus! {

#[verifier::external_type_specification]
#[verifier::external_body]
pub struct ExInstant(Instant);

/// `Instant::now`: the current point in time.
#[verifier::external_body]
pub(crate) fn instant_now() -> (t: Instant) {
    Instant::now()
}

/// `Instant::elapsed`: the time passed since `t`.
#[verifier::external_body]
fn instant_elapsed(t: &Instant) -> (d: Duration) {
    t.elapsed()
}

/// `Duration::as_nanos`: a duration in whole nanoseconds.
#[verifier::external_body]
fn duration_as_nanos(d: &Duration) -> (n: u128) {
    d.as_nanos()
}

/// A timed task, with the tasks timed inside it.
#[derive(Debug)]
pub struct Task {
    pub name: String,
    /// The duration in nanoseconds.
    pub duration: u128,
    pub sub_tasks: Option<Vec<Task>>,
}

/// A named series of timed tasks.
pub struct Benchmark {
    pub name: String,
    pub tasks: Vec<Task>,
}

/// A task's mathematical value.
pub struct TaskView {
    pub name: Seq<char>,
    pub duration: nat,
    pub sub_tasks: Option<Seq<TaskView>>,
}

pub open spec fn task_views(s: Seq<Task>) -> Seq<TaskView>
    decreases s,
{
    if s.len() == 0 { Seq::empty() } else { task_views(s.drop_last()).push(s.last().view_task()) }
}

impl Task {
    pub open spec fn view_task(&self) -> TaskView
        decreases self,
    {
        TaskView {
            name: self.name@,
            duration: self.duration as nat,
            sub_tasks: match &self.sub_tasks {
                Some(v) => Some(task_views(v@)),
                None => None,
            },
        }
    }
}

impl View for Task {
    type V = TaskView;

    open spec fn view(&self) -> TaskView {
        self.view_task()
    }
}

/// The task that records a finished benchmark under `name`: its tasks as sub-tasks and
/// their total duration, or `u128::MAX` nanoseconds where the total does not fit.
pub open spec fn finished_task(name: Seq<char>, tasks: Seq<Task>) -> TaskView {
    TaskView {
        name: name,
        duration: if total_duration(tasks) <= u128::MAX { total_duration(tasks) as nat } else { u128::MAX as nat },
        sub_tasks: Some(task_views(tasks)),
    }
}

/// The total duration of a list of tasks.
pub open spec fn total_duration(tasks: Seq<Task>) -> int
    decreases tasks.len(),
{
    if tasks.len() == 0 { 0 } else { total_duration(tasks.drop_last()) + tasks.last().duration }
}

impl Task {
    /// A deep copy.
    pub fn duplicate(&self) -> (t: Self)
        ensures
            t@ == self@,
            t.name@ == self.name@,
            t.duration == self.duration,
        decreases self,
    {
        let sub_tasks = match &self.sub_tasks {
            Some(v) => Some(duplicate_tasks(v)),
            None => None,
        };
        Task { name: self.name.clone(), duration: self.duration, sub_tasks }
    }
}

proof fn lemma_task_views(s: Seq<Task>)
    ensures
        task_views(s).len() == s.len(),
        forall|i: int| 0 <= i < s.len() ==> #[trigger] task_views(s)[i] == s[i]@,
    decreases s.len(),
{
    if s.len() > 0 {
        lemma_task_views(s.drop_last());
        assert forall|i: int| 0 <= i < s.len() implies #[trigger] task_views(s)[i] == s[i]@ by {
            if i < s.len() - 1 {
                assert(s.drop_last()[i] == s[i]);
            }
        }
    }
}

proof fn lemma_total_duration_views(a: Seq<Task>, b: Seq<Task>)
    requires
        a.len() == b.len(),
        forall|i: int| 0 <= i < a.len() ==> #[trigger] a[i].duration == b[i].duration,
    ensures
        total_duration(a) == total_duration(b),
    decreases a.len(),
{
    if a.len() > 0 {
        lemma_total_duration_views(a.drop_last(), b.drop_last());
    }
}

/// A deep copy of a list of tasks.
pub fn duplicate_tasks(v: &Vec<Task>) -> (r: Vec<Task>)
    ensures
        task_views(r@) == task_views(v@),
        total_duration(r@) == total_duration(v@),
    decreases v,
{
    let mut r: Vec<Task> = Vec::new();
    let mut i: usize = 0;
    while i < v.len()
        invariant
            i <= v@.len(),
            task_views(r@) == task_views(v@.take(i as int)),
            total_duration(r@) == total_duration(v@.take(i as int)),
        decreases v.len() - i,
    {
        proof {
            assert(decreases_to!(v => v@[i as int]));
        }
        let t = v[i].duplicate();
        let ghost prev = r@;
        r.push(t);
        proof {
            assert(r@.drop_last() =~= prev);
            assert(v@.take(i + 1).drop_last() =~= v@.take(i as int));
        }
        i = i + 1;
    }
    assert(v@.take(i as int) =~= v@);
    r
}

impl Benchmark {
    /// A benchmark without tasks.
    pub fn new(name: &str) -> (b: Self)
        ensures
            b.name@ == name@,
            b.tasks@.len() == 0,
    {
        Benchmark { name: name.to_owned(), tasks: Vec::new() }
    }

    /// Runs `f` and records the time it took as a task named `name`.
    pub fn benchmark<T, F: FnOnce() -> T>(&mut self, name: &str, f: F) -> (r: T)
        requires
            f.requires(()),
        ensures
            f.ensures((), r),
            final(self).name@ == old(self).name@,
            final(self).tasks@.len() == old(self).tasks@.len() + 1,
            final(self).tasks@.take(old(self).tasks@.len() as int) == old(self).tasks@,
            final(self).tasks@.last().name@ == name@,
            final(self).tasks@.last().sub_tasks is None,
    {
        let t1 = instant_now();
        let result = f();
        let elapsed = instant_elapsed(&t1);
        let duration = duration_as_nanos(&elapsed);
        self.tasks.push(Task { name: name.to_owned(), duration, sub_tasks: None });
        proof {
            assert(self.tasks@.take(old(self).tasks@.len() as int) =~= old(self).tasks@);
        }
        result
    }

    /// Runs `f` with a new benchmark named `name`, and records it as a task with the
    /// tasks that `f` timed in it as sub-tasks (see `finished_task`); the result is `f`'s.
    pub fn bench_with_inner<T, F: FnOnce(&mut Benchmark) -> T>(&mut self, name: &str, f: F) -> (r: T)
        requires
            forall|b: &mut Benchmark| #[trigger] f.requires((b,)),
        ensures
            final(self).name@ == old(self).name@,
            exists|b: &mut Benchmark| {
                &&& b.name@ == name@
                &&& b.tasks@.len() == 0
                &&& f.ensures((b,), r)
                &&& final(self).tasks@.len() == old(self).tasks@.len() + 1
                &&& final(self).tasks@.take(old(self).tasks@.len() as int) == old(self).tasks@
                &&& final(self).tasks@.last()@ == finished_task(name@, final(b).tasks@)
            },
    {
        let mut sub = self.create_sub(name);
        let result = f(&mut sub);
        self.push_finalized(name, sub);
        result
    }

    /// Records `sub` as a task named `name` (see `finished_task`).
    pub fn push_finalized(&mut self, name: &str, sub: Benchmark)
        ensures
            final(self).name@ == old(self).name@,
            final(self).tasks@ == old(self).tasks@.push(final(self).tasks@.last()),
            final(self).tasks@.last()@ == finished_task(name@, sub.tasks@),
    {
        let ghost sub_tasks = sub.tasks@;
        let mut task = if sub.fits() {
            sub.finalize()
        } else {
            Task { name: sub.name, duration: u128::MAX, sub_tasks: Some(sub.tasks) }
        };
        task.name = name.to_owned();
        self.tasks.push(task);
    }

    /// Whether the durations of the tasks add up to at most `u128::MAX` nanoseconds.
    pub fn fits(&self) -> (b: bool)
        ensures
            b == (total_duration(self.tasks@) <= u128::MAX),
    {
        let mut sum: u128 = 0;
        let mut i: usize = 0;
        while i < self.tasks.len()
            invariant
                i <= self.tasks@.len(),
                sum == total_duration(self.tasks@.take(i as int)),
            decreases self.tasks.len() - i,
        {
            proof {
                assert(self.tasks@.take(i + 1).drop_last() =~= self.tasks@.take(i as int));
            }
            let d = self.tasks[i].duration;
            if sum > u128::MAX - d {
                proof {
                    lemma_total_duration_prefix(self.tasks@, i + 1);
                }
                return false;
            }
            sum = sum + d;
            i = i + 1;
        }
        assert(self.tasks@.take(i as int) =~= self.tasks@);
        true
    }

    /// Records the time since `started` as a task named `name`.
    pub(crate) fn record(&mut self, name: &str, started: &Instant)
        ensures
            final(self).name@ == old(self).name@,
            final(self).tasks@.len() == old(self).tasks@.len() + 1,
            final(self).tasks@.take(old(self).tasks@.len() as int) == old(self).tasks@,
            final(self).tasks@.last().name@ == name@,
            final(self).tasks@.last().sub_tasks is None,
    {
        let elapsed = instant_elapsed(started);
        let duration = duration_as_nanos(&elapsed);
        self.tasks.push(Task { name: name.to_owned(), duration, sub_tasks: None });
        proof {
            assert(self.tasks@.take(old(self).tasks@.len() as int) =~= old(self).tasks@);
        }
    }

    fn create_sub(&mut self, name: &str) -> (b: Benchmark)
        ensures
            b.name@ == name@,
            b.tasks@.len() == 0,
            *final(self) == *old(self),
    {
        Benchmark { name: name.to_owned(), tasks: Vec::new() }
    }

    /// The benchmark as one task: its duration is the sum of its tasks' durations, and
    /// its tasks are its sub-tasks.
    pub fn finalize(self) -> (t: Task)
        requires
            total_duration(self.tasks@) <= u128::MAX,
        ensures
            t.name@ == self.name@,
            t.duration == total_duration(self.tasks@),
            t.sub_tasks == Some(self.tasks),
    {
        let mut sum: u128 = 0;
        let mut i: usize = 0;
        while i < self.tasks.len()
            invariant
                i <= self.tasks@.len(),
                sum == total_duration(self.tasks@.take(i as int)),
                total_duration(self.tasks@) <= u128::MAX,
            decreases self.tasks.len() - i,
        {
            proof {
                assert(self.tasks@.take(i + 1).drop_last() =~= self.tasks@.take(i as int));
                lemma_total_duration_prefix(self.tasks@, i + 1);
            }
            sum = sum + self.tasks[i].duration;
            i = i + 1;
        }
        assert(self.tasks@.take(i as int) =~= self.tasks@);
        Task { name: self.name, duration: sum, sub_tasks: Some(self.tasks) }
    }
}

/// The durations of a prefix add up to no more than the whole.
proof fn lemma_total_duration_prefix(tasks: Seq<Task>, n: int)
    requires
        0 <= n <= tasks.len(),
    ensures
        total_duration(tasks.take(n)) <= total_duration(tasks),
    decreases tasks.len(),
{
    if n < tasks.len() {
        assert(tasks.drop_last().take(n) =~= tasks.take(n));
        lemma_total_duration_prefix(tasks.drop_last(), n);
    } else {
        assert(tasks.take(n) =~= tasks);
    }
}

} // verus!
