use milkyapps_core::async_rt::atomic_waker::{AtomicWaker, RegisterOp, RegisterStep};
use milkyapps_core::async_rt::join_handle::{JoinAt, JoinHandle, JoinOp, Joined};
use milkyapps_core::async_rt::queue::{Popped, Queue};
use milkyapps_core::async_rt::runtime::{queue_capacity, Drive, Shutdown, Verdict};
use milkyapps_core::async_rt::task::{
    decode_state, AtomicState, RunEnd, RunOp, RunStart, ScheduleOp, State, Task, YieldNow,
    YieldPoll,
};
use milkyapps_core::sync::atomic_option::AtomicOption;
use milkyapps_core::sync::oneshot::{oneshot, Oneshot};
use std::future::Future;
use std::pin::Pin;
use std::sync::atomic::{AtomicUsize, Ordering};
use std::sync::{Arc, Mutex};
use std::task::{Context, Poll, Wake, Waker};

/// Chooses who acts next.
struct Dice(u64);

impl Dice {
    fn roll(&mut self, n: usize) -> usize {
        self.0 ^= self.0 << 13;
        self.0 ^= self.0 >> 7;
        self.0 ^= self.0 << 17;
        (self.0 % n as u64) as usize
    }
}

type Work = Pin<Box<dyn Future<Output = ()> + Send>>;

/// A task and the queue it is scheduled on.
struct Job {
    task: Mutex<Task<Work, Waker>>,
    queue: Arc<Mutex<Queue<Arc<Job>>>>,
}

impl Job {
    fn schedule(self: &Arc<Job>) {
        if self.task.lock().unwrap().schedule() {
            self.queue.lock().unwrap().push(self.clone());
        }
    }

    fn run(self: Arc<Job>) {
        let mut work = {
            let mut task = self.task.lock().unwrap();
            match task.begin_run() {
                RunStart::Poll => task.future.take(),
                RunStart::Completed => return,
                RunStart::HandedBack(send) => {
                    if send {
                        self.queue.lock().unwrap().push(self.clone());
                    }
                    return;
                }
            }
        };
        let waker = Waker::from(self.clone());
        let ready = match &mut work {
            Some(work) => work
                .as_mut()
                .poll(&mut Context::from_waker(&waker))
                .is_ready(),
            None => true,
        };
        let end = {
            let mut task = self.task.lock().unwrap();
            task.future = work;
            task.end_run(ready)
        };
        match end {
            RunEnd::Completed(Some(waker)) => waker.wake(),
            RunEnd::Completed(None) | RunEnd::Idle => {}
            RunEnd::Send => self.queue.lock().unwrap().push(self.clone()),
        }
    }
}

impl Wake for Job {
    fn wake(self: Arc<Job>) {
        self.schedule();
    }
}

/// The output of a job.
struct Join<T> {
    job: Arc<Job>,
    shared: Arc<Mutex<Oneshot<T>>>,
    handle: JoinHandle<T>,
}

impl<T> Future for Join<T> {
    type Output = T;

    fn poll(self: Pin<&mut Self>, cx: &mut Context<'_>) -> Poll<T> {
        let mut task = self.job.task.lock().unwrap();
        let mut shared = self.shared.lock().unwrap();
        match self
            .handle
            .poll(&mut shared, &mut task.waker, cx.waker().clone())
        {
            Joined::Ready(output) => Poll::Ready(output),
            Joined::Pending => Poll::Pending,
        }
    }
}

/// Runs jobs on the calling thread.
#[derive(Clone)]
struct Executor {
    queue: Arc<Mutex<Queue<Arc<Job>>>>,
}

struct Nobody;

impl Wake for Nobody {
    fn wake(self: Arc<Nobody>) {}
}

impl Executor {
    fn new() -> Executor {
        Executor {
            queue: Arc::new(Mutex::new(Queue::new())),
        }
    }

    fn spawn<F>(&self, future: F) -> Join<F::Output>
    where
        F: Future + Send + 'static,
        F::Output: Send + 'static,
    {
        let (shared, tx, receiver) = oneshot();
        let shared = Arc::new(Mutex::new(shared));
        let output = shared.clone();
        let work = Box::pin(async move {
            let result = future.await;
            tx.send(&mut output.lock().unwrap(), result);
        });
        let job = Arc::new(Job {
            task: Mutex::new(Task::new(work, AtomicOption::default())),
            queue: self.queue.clone(),
        });
        job.schedule();
        Join {
            job,
            shared,
            handle: JoinHandle { receiver },
        }
    }

    fn block_on<F: Future>(&self, future: F) -> F::Output {
        let mut future = Box::pin(future);
        let waker = Waker::from(Arc::new(Nobody));
        let mut drive = Drive::Poll;
        let mut output = None;
        let mut next: Option<Arc<Job>> = None;
        loop {
            let report = match drive {
                Drive::Poll => {
                    let mut cx = Context::from_waker(&waker);
                    if let Poll::Ready(value) = future.as_mut().poll(&mut cx) {
                        output = Some(value);
                    }
                    output.is_some()
                }
                Drive::Look => {
                    next = self.queue.lock().unwrap().try_pop();
                    next.is_some()
                }
                Drive::Run => {
                    next.take().unwrap().run();
                    true
                }
                Drive::Rest => panic!("nothing is left to run"),
                Drive::Done => return output.unwrap(),
            };
            drive.advance(report);
        }
    }
}

/// Yields once.
struct Yield(YieldNow);

impl Future for Yield {
    type Output = ();

    fn poll(mut self: Pin<&mut Self>, cx: &mut Context<'_>) -> Poll<()> {
        match self.0.poll() {
            YieldPoll::Ready => Poll::Ready(()),
            YieldPoll::WakeAndPend => {
                cx.waker().wake_by_ref();
                Poll::Pending
            }
        }
    }
}

fn yield_now() -> Yield {
    Yield(YieldNow::new())
}

#[test]
fn block_on_returns_value() {
    let rt = Executor::new();
    let value = rt.block_on(async { 42 });
    assert_eq!(value, 42);
}

#[test]
fn spawn_and_await() {
    let rt = Executor::new();
    let handle = rt.clone();
    let value = rt.block_on(async move { handle.spawn(async { 7 * 6 }).await });
    assert_eq!(value, 42);
}

#[test]
fn yield_now_interleaves_tasks() {
    let rt = Executor::new();
    let handle = rt.clone();
    let counter = Arc::new(AtomicUsize::new(0));
    let c1 = counter.clone();
    let c2 = counter.clone();
    let value = rt.block_on(async move {
        let a = handle.spawn(async move {
            yield_now().await;
            c1.fetch_add(10, Ordering::SeqCst);
        });
        let b = handle.spawn(async move {
            c2.fetch_add(1, Ordering::SeqCst);
            yield_now().await;
            c2.fetch_add(100, Ordering::SeqCst);
        });
        a.await;
        b.await;
        counter.load(Ordering::SeqCst)
    });
    assert_eq!(value, 111);
}

#[test]
fn many_spawned_tasks_sum_correctly() {
    const N: usize = 100;
    let rt = Executor::new();
    let handle = rt.clone();
    let sum = rt.block_on(async move {
        let mut handles = Vec::with_capacity(N);
        for i in 0..N {
            handles.push(handle.spawn(async move { i }));
        }
        let mut total = 0usize;
        for h in handles {
            total += h.await;
        }
        total
    });
    let expected: usize = (0..N).sum();
    assert_eq!(sum, expected);
}

#[test]
fn zero_worker_threads_runs_on_caller() {
    let rt = Executor::new();
    let value = rt.block_on(async { 99 });
    assert_eq!(value, 99);
    assert_eq!(queue_capacity(0), 1024);
}

#[test]
fn nested_spawn() {
    let rt = Executor::new();
    let handle = rt.clone();
    let handle2 = handle.clone();
    let value = rt.block_on(async move {
        handle
            .spawn(async move { handle2.spawn(async { 21 + 21 }).await })
            .await
    });
    assert_eq!(value, 42);
}

#[test]
fn drop_without_shutdown() {
    let rt = Executor::new();
    let handle = rt.spawn(async { 123 });
    assert_eq!(rt.block_on(handle), 123);
}

#[test]
fn doctest_equivalent() {
    let rt = Executor::new();
    let handle = rt.clone();
    let value = rt.block_on(async move { handle.spawn(async { 42 }).await });
    assert_eq!(value, 42);
}

#[test]
fn room_for_tasks_grows_with_the_workers() {
    assert_eq!(queue_capacity(1), 1024);
    assert_eq!(queue_capacity(3), 3072);
}

#[test]
fn queue_is_first_in_first_out() {
    let mut q = Queue::new();
    assert!(matches!(q.pop(), Popped::Wait));
    q.push(1);
    q.push(2);
    q.push(3);
    assert!(matches!(q.pop(), Popped::Task(1)));
    assert_eq!(q.try_pop(), Some(2));
    q.shutdown();
    assert!(matches!(q.pop(), Popped::Task(3)));
    assert!(matches!(q.pop(), Popped::ShutDown));
    assert_eq!(q.try_pop(), None);
}

#[test]
fn states_are_encoded_as_small_numbers() {
    let all = [
        State::Idle,
        State::Scheduled,
        State::Running,
        State::RunningNotified,
        State::Completed,
    ];
    for (i, s) in all.into_iter().enumerate() {
        let word = AtomicState::new(s);
        assert_eq!(word.inner, i as u8);
        assert_eq!(word.load(), s);
        assert_eq!(decode_state(i as u8), s);
    }
    let mut word = AtomicState::new(State::Idle);
    assert_eq!(
        word.compare_exchange(State::Running, State::Completed),
        Err(State::Idle)
    );
    assert_eq!(
        word.compare_exchange(State::Idle, State::Scheduled),
        Ok(State::Idle)
    );
    assert_eq!(word.load(), State::Scheduled);
    word.store(State::Completed);
    assert_eq!(word.load(), State::Completed);
}

#[test]
fn a_wake_depends_on_the_state() {
    let cases = [
        (State::Idle, true, State::Scheduled),
        (State::Scheduled, false, State::Scheduled),
        (State::Running, false, State::RunningNotified),
        (State::RunningNotified, false, State::RunningNotified),
        (State::Completed, false, State::Completed),
    ];
    for (before, send, after) in cases {
        let mut t: Task<u32, u32> = Task::new(1, AtomicOption::default());
        t.state.store(before);
        assert_eq!(t.schedule(), send);
        assert_eq!(t.state.load(), after);
    }
}

#[test]
fn a_run_begins_only_on_a_scheduled_task() {
    let cases = [
        (State::Idle, RunStart::HandedBack(true), State::Scheduled),
        (State::Scheduled, RunStart::Poll, State::Running),
        (
            State::Running,
            RunStart::HandedBack(false),
            State::RunningNotified,
        ),
        (
            State::RunningNotified,
            RunStart::HandedBack(false),
            State::RunningNotified,
        ),
        (State::Completed, RunStart::Completed, State::Completed),
    ];
    for (before, start, after) in cases {
        let mut t: Task<u32, u32> = Task::new(1, AtomicOption::default());
        t.state.store(before);
        assert_eq!(t.begin_run(), start);
        assert_eq!(t.state.load(), after);
    }
}

#[test]
fn a_run_ends_by_the_result_of_the_poll() {
    let mut t: Task<u32, u32> = Task::new(1, AtomicOption::default());
    t.waker.replace(9);
    assert!(t.schedule());
    assert_eq!(t.begin_run(), RunStart::Poll);
    assert!(matches!(t.end_run(false), RunEnd::Idle));
    assert_eq!(t.state.load(), State::Idle);
    assert_eq!(t.future, Some(1));

    assert!(t.schedule());
    assert_eq!(t.begin_run(), RunStart::Poll);
    assert!(!t.schedule());
    assert!(matches!(t.end_run(false), RunEnd::Send));
    assert_eq!(t.state.load(), State::Scheduled);

    assert_eq!(t.begin_run(), RunStart::Poll);
    assert!(matches!(t.end_run(true), RunEnd::Completed(Some(9))));
    assert_eq!(t.state.load(), State::Completed);
    assert_eq!(t.future, None);
    assert!(!t.schedule());
}

/// Wakes and runs of one task, access by access: after the last wake has done
/// its part, the task is polled once more.
#[test]
fn no_wake_is_lost_between_accesses() {
    for seed in 1..500 {
        let mut dice = Dice(seed);
        let mut state = AtomicState::new(State::Idle);
        let mut queued = 0;
        let mut wakes = vec![ScheduleOp::Load, ScheduleOp::Load, ScheduleOp::Load];
        let mut runs = vec![RunOp::Done, RunOp::Done];
        let mut polls = 0;
        let mut fresh = false;
        let mut polling = 0;
        while queued > 0
            || wakes.iter().any(|w| *w != ScheduleOp::Done)
            || runs.iter().any(|r| *r != RunOp::Done)
        {
            let who = dice.roll(5);
            if who < 3 {
                if wakes[who] == ScheduleOp::Send {
                    queued += 1;
                    wakes[who] = ScheduleOp::Done;
                } else if wakes[who] != ScheduleOp::Done {
                    wakes[who].step(&mut state);
                    if wakes[who] == ScheduleOp::Done || wakes[who] == ScheduleOp::Send {
                        fresh = true;
                    }
                }
            } else {
                let run = &mut runs[who - 3];
                match *run {
                    RunOp::Done => {
                        if queued > 0 {
                            queued -= 1;
                            *run = RunOp::Load;
                        }
                    }
                    RunOp::Send => {
                        queued += 1;
                        *run = RunOp::Done;
                    }
                    RunOp::Polling => {
                        polling -= 1;
                        run.polled(false);
                    }
                    RunOp::HandBack => panic!("the task was taken without being scheduled"),
                    _ => {
                        run.step(&mut state);
                        if *run == RunOp::Polling {
                            polling += 1;
                            assert_eq!(polling, 1, "two polls at the same time");
                            polls += 1;
                            fresh = false;
                        }
                    }
                }
            }
            assert!(queued <= 1, "queued twice");
        }
        assert!(!fresh, "a wake was lost");
        assert!(polls >= 1);
        assert_eq!(state.load(), State::Idle);
    }
}

#[test]
fn yield_now_yields_once() {
    let mut y = YieldNow::new();
    assert_eq!(y.poll(), YieldPoll::WakeAndPend);
    assert_eq!(y.poll(), YieldPoll::Ready);
    assert_eq!(y.poll(), YieldPoll::Ready);
}

#[test]
fn waker_cell_keeps_the_last_waker() {
    let mut cell = AtomicWaker::default();
    assert_eq!(cell.take(), None);
    cell.register(1);
    cell.register(2);
    assert_eq!(cell.take(), Some(2));
    assert_eq!(cell.take(), None);
}

#[test]
fn registrations_write_one_at_a_time() {
    for seed in 1..200 {
        let mut dice = Dice(seed);
        let mut cell = AtomicWaker::default();
        let mut ops: Vec<RegisterOp<usize>> = (0..3).map(RegisterOp::start).collect();
        while ops.iter().any(|op| op.at != RegisterStep::Done) {
            let who = dice.roll(3);
            ops[who].step(&mut cell);
            let writers = ops
                .iter()
                .filter(|op| op.at == RegisterStep::Write || op.at == RegisterStep::Publish)
                .count();
            assert!(writers <= 1);
        }
        assert!(cell.take().is_some());
    }
}

#[test]
fn join_handle_leaves_its_waker_until_the_output_is_there() {
    let (mut shared, tx, receiver) = oneshot();
    let handle = JoinHandle { receiver };
    let mut cell = AtomicOption::default();
    assert!(matches!(
        handle.poll(&mut shared, &mut cell, 5),
        Joined::Pending
    ));
    assert_eq!(cell.take(), Some(5));
    tx.send(&mut shared, "out");
    assert!(matches!(
        handle.poll(&mut shared, &mut cell, 6),
        Joined::Ready("out")
    ));
    assert_eq!(cell.take(), None);
}

/// The end of a task and a poll of its handle, in every order of their steps:
/// the poll has the output, or its waker is woken.
#[test]
fn joiner_is_woken_or_has_the_output() {
    for pattern in 0u32..1 << 6 {
        let (mut shared, tx, receiver) = oneshot();
        let mut tx = Some(tx);
        let mut cell = AtomicOption::default();
        let mut op: JoinOp<u32, u32> = JoinOp::start(7);
        let mut ends = 0;
        let mut woken = None;
        for turn in 0..12 {
            if turn < 6 && pattern >> turn & 1 == 0 || ends == 2 {
                op.step(&receiver, &mut shared, &mut cell);
            } else if let Some(tx) = tx.take() {
                tx.send(&mut shared, 11);
                ends = 1;
            } else {
                woken = cell.take();
                ends = 2;
            }
        }
        match op.at {
            JoinAt::Ready => assert_eq!(op.output, Some(11)),
            JoinAt::Pending => assert_eq!(woken, Some(7)),
            _ => unreachable!(),
        }
    }
}

#[test]
fn root_future_is_polled_until_it_is_ready() {
    let mut drive = Drive::Poll;
    let mut seen = vec![drive];
    for report in [false, true, true, false, false, true, true, true] {
        drive.advance(report);
        seen.push(drive);
    }
    assert_eq!(
        seen,
        vec![
            Drive::Poll,
            Drive::Look,
            Drive::Run,
            Drive::Poll,
            Drive::Look,
            Drive::Rest,
            Drive::Poll,
            Drive::Done,
            Drive::Done,
        ]
    );
}

#[test]
fn shutdown_is_clean_unless_a_thread_is_stuck() {
    let mut s = Shutdown::new();
    assert_eq!(s.decide(false, false), Verdict::Wait);
    assert_eq!(s.decide(true, false), Verdict::Join);
    assert_eq!(s.decide(true, true), Verdict::Join);
    assert!(s.clean);
    assert_eq!(s.decide(false, true), Verdict::Detach);
    assert_eq!(s.decide(true, false), Verdict::Join);
    assert!(!s.clean);
}

#[test]
fn a_handle_may_be_polled_again() {
    let (mut shared, tx, receiver) = oneshot();
    let handle = JoinHandle { receiver };
    let mut cell = AtomicOption::default();
    assert!(matches!(handle.poll(&mut shared, &mut cell, 1u32), Joined::Pending));
    assert!(matches!(handle.poll(&mut shared, &mut cell, 2), Joined::Pending));
    tx.send(&mut shared, 11u32);
    assert_eq!(cell.take(), Some(2));
    assert!(matches!(handle.poll(&mut shared, &mut cell, 3), Joined::Ready(11)));
    assert_eq!(cell.take(), None);
}
