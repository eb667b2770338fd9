//! The work of the supervisor, step by step: after each event it says what is to
//! be done next.
use std::collections::HashMap;

use vstd::prelude::*;

use crate::event::{Event, Signal};
use crate::maps::keys_of;
use crate::process::{are_pids, restart_time, time_after, Child, Process, Socket, TcpPort};
use crate::queue::{due_count, is_sorted, items, with_entry, Queue};
use crate::shutdown::{Shutdown, ShutdownState};
use crate::sockets::{
    are_missing, are_unused, can_pass_sockets, close_unused_sockets, is_fd_plan, is_passable,
    pass_sockets, ports_to_open, used_sockets, with_fds,
};

verus! {

/// What is to be done next.
#[derive(Debug)]
pub enum Action {
    /// To read the clock.
    ReadClock,
    /// To open a socket.
    Open { port: u16, config: TcpPort },
    /// To start the process at hand.
    Spawn,
    /// To close sockets, given by their ports and file descriptors, and to wait
    /// for a signal, until the deadline if there is one.
    Wait { close: Vec<(u16, i32)>, deadline: Option<i128> },
    /// To leave the loop.
    Leave,
    /// To ask these children to terminate, and to leave the loop.
    TerminateAndLeave(Vec<i32>),
    /// To look for children that have ended.
    Reap,
    /// To clean up after a child that has ended, and to look for more. The child
    /// is started again later where `restart` says so.
    Clean { name: String, restart: bool },
    /// To look for more children that have ended: this one was not known.
    Ignore(i32),
    /// The sockets cannot be handed to the process at hand: the supervisor cannot
    /// go on.
    CannotPass,
    /// The event does not fit: nothing has changed.
    Unexpected,
}

/// What an action is.
pub enum ActionView {
    ReadClock,
    Open { port: u16, config: TcpPort },
    Spawn,
    Wait { close: Seq<(u16, i32)>, deadline: Option<i128> },
    Leave,
    TerminateAndLeave(Seq<i32>),
    Reap,
    Clean { name: Seq<char>, restart: bool },
    Ignore(i32),
    CannotPass,
    Unexpected,
}

impl View for Action {
    type V = ActionView;

    open spec fn view(&self) -> ActionView {
        match self {
            Action::ReadClock => ActionView::ReadClock,
            Action::Open { port, config } => ActionView::Open { port: *port, config: *config },
            Action::Spawn => ActionView::Spawn,
            Action::Wait { close, deadline } => ActionView::Wait {
                close: close@,
                deadline: *deadline,
            },
            Action::Leave => ActionView::Leave,
            Action::TerminateAndLeave(pids) => ActionView::TerminateAndLeave(pids@),
            Action::Reap => ActionView::Reap,
            Action::Clean { name, restart } => ActionView::Clean { name: name@, restart: *restart },
            Action::Ignore(pid) => ActionView::Ignore(*pid),
            Action::CannotPass => ActionView::CannotPass,
            Action::Unexpected => ActionView::Unexpected,
        }
    }
}

/// A round of starting processes.
#[derive(Debug)]
pub struct Round {
    /// When the round began.
    pub now: i64,
    /// The processes that are still to be started, in their order.
    pub due: Vec<Process>,
    /// The processes that could not be started, with the times at which to try
    /// again.
    pub failed: Vec<(i128, Process)>,
}

/// What a round is.
pub struct RoundView {
    pub now: i64,
    pub due: Seq<Process>,
    pub failed: Seq<(i128, Process)>,
}

impl View for Round {
    type V = RoundView;

    open spec fn view(&self) -> RoundView {
        RoundView { now: self.now, due: self.due@, failed: self.failed@ }
    }
}

/// What the supervisor waits for.
#[derive(Debug)]
pub enum Phase {
    /// The reading of the clock.
    Clock,
    /// A socket on the last of `ports`, for `process`.
    Opening { round: Round, process: Process, ports: Vec<u16> },
    /// The start of `process`.
    Spawning { round: Round, process: Process },
    /// A signal.
    Waiting,
    /// A child that has ended.
    Reaping,
    /// Nothing more.
    Left,
}

/// What a phase is.
pub enum PhaseView {
    Clock,
    Opening { round: RoundView, process: Process, ports: Seq<u16> },
    Spawning { round: RoundView, process: Process },
    Waiting,
    Reaping,
    Left,
}

impl View for Phase {
    type V = PhaseView;

    open spec fn view(&self) -> PhaseView {
        match self {
            Phase::Clock => PhaseView::Clock,
            Phase::Opening { round, process, ports } => PhaseView::Opening {
                round: round@,
                process: *process,
                ports: ports@,
            },
            Phase::Spawning { round, process } => PhaseView::Spawning {
                round: round@,
                process: *process,
            },
            Phase::Waiting => PhaseView::Waiting,
            Phase::Reaping => PhaseView::Reaping,
            Phase::Left => PhaseView::Left,
        }
    }
}

/// Whether `process` listens on all of `ports`.
pub open spec fn all_wanted(process: Process, ports: Seq<u16>) -> bool {
    forall|i: int|
        0 <= i < ports.len() ==> process.inner_config.tcp_ports@.contains_key(#[trigger] ports[i])
}

/// What the supervisor knows.
pub struct State {
    /// The processes that wait to be started.
    pub queue: Seq<(i128, Process)>,
    /// The children that run, by their pids.
    pub children: Map<i32, Child>,
    /// The sockets that are held, by their ports.
    pub sockets: Map<u16, Socket>,
    pub phase: PhaseView,
}

impl State {
    /// What holds of every state.
    pub open spec fn inv(self) -> bool {
        &&& is_sorted(self.queue)
        &&& self.children.dom().finite()
        &&& match self.phase {
            PhaseView::Opening { process, ports, .. } => all_wanted(process, ports),
            _ => true,
        }
    }
}

/// The queue with the processes that could not be started put back.
pub open spec fn requeued(queue: Seq<(i128, Process)>, failed: Seq<(i128, Process)>) -> Seq<
    (i128, Process),
>
    decreases failed.len(),
{
    if failed.len() == 0 {
        queue
    } else {
        with_entry(requeued(queue, failed.drop_last()), failed.last().0, failed.last().1)
    }
}

/// When the next process of the queue comes due.
pub open spec fn next_deadline(queue: Seq<(i128, Process)>) -> Option<i128> {
    if queue.len() > 0 {
        Some(queue[0].0)
    } else {
        None
    }
}

/// The round ends: the processes that could not be started are queued again, the
/// sockets that no child uses are closed, and the supervisor waits.
pub open spec fn ends_round(
    pre: State,
    round: RoundView,
    post: State,
    action: ActionView,
) -> bool {
    let queue = requeued(pre.queue, round.failed);
    &&& post == (State {
        queue,
        children: pre.children,
        sockets: used_sockets(pre.sockets, pre.children),
        phase: PhaseView::Waiting,
    })
    &&& action matches ActionView::Wait { close, deadline } && are_unused(
        close,
        pre.sockets,
        pre.children,
    ) && deadline == next_deadline(queue)
}

/// The sockets on `ports` are opened for `process`; once they are there, it is
/// started, and gets its sockets.
pub open spec fn prepares(
    pre: State,
    round: RoundView,
    process: Process,
    ports: Seq<u16>,
    post: State,
    action: ActionView,
) -> bool {
    let wanted = process.inner_config.tcp_ports@;
    let same = State { phase: PhaseView::Opening { round, process, ports }, ..pre };
    if ports.len() > 0 {
        &&& post == same
        &&& action == ActionView::Open { port: ports.last(), config: wanted[ports.last()] }
    } else if is_passable(pre.sockets, wanted) {
        &&& action == ActionView::Spawn
        &&& post.phase matches PhaseView::Spawning { round: r, process: ready } && {
            let cmd = ready.cmd;
            &&& post == (State { phase: PhaseView::Spawning { round, process: ready }, ..pre })
            &&& ready == (Process {
                cmd: with_fds(process.cmd, cmd.close_fds, cmd.pass_fds),
                ..process
            })
            &&& is_fd_plan(cmd.close_fds, cmd.pass_fds@, pre.sockets, wanted)
        }
    } else {
        post == same && action == ActionView::CannotPass
    }
}

/// The round goes on with the next process that is due, or ends.
pub open spec fn goes_on(pre: State, round: RoundView, post: State, action: ActionView) -> bool {
    if round.due.len() == 0 {
        ends_round(pre, round, post, action)
    } else {
        let process = round.due[0];
        let rest = RoundView { due: round.due.skip(1), ..round };
        exists|ports: Seq<u16>|
            are_missing(ports, pre.sockets, process.inner_config.tcp_ports@)
                && #[trigger] prepares(pre, rest, process, ports, post, action)
    }
}

/// The round with one more process that could not be started.
pub open spec fn with_failed(round: RoundView, process: Process) -> RoundView {
    RoundView {
        failed: round.failed.push(
            (time_after(round.now, process.inner_config.restart_timeout), process),
        ),
        ..round
    }
}

/// A process that was started in a round: it is not started again before its
/// time.
pub open spec fn started(round: RoundView, process: Process) -> Process {
    Process {
        restart_min: time_after(round.now, process.inner_config.restart_timeout),
        ..process
    }
}

/// What a child that has ended leads to.
pub open spec fn after_exit(pre: State, pid: i32, post: State, action: ActionView) -> bool {
    if pre.children.contains_key(pid) {
        let rest = State { children: pre.children.remove(pid), ..pre };
        match pre.children[pid] {
            Child::Process(process) => {
                &&& post == (State {
                    queue: with_entry(pre.queue, process.restart_min, process),
                    ..rest
                })
                &&& action == ActionView::Clean { name: process.name@, restart: true }
            },
            Child::Unidentified(name) => {
                &&& post == rest
                &&& action == ActionView::Clean { name: name@, restart: false }
            },
        }
    } else {
        post == pre && action == ActionView::Ignore(pid)
    }
}

/// What a signal leads to.
pub open spec fn after_signal(
    pre: State,
    signal: Signal,
    post: State,
    action: ActionView,
) -> bool {
    match signal {
        Signal::Interrupt => {
            &&& post == (State { phase: PhaseView::Left, ..pre })
            &&& action == ActionView::Leave
        },
        Signal::Terminate => {
            &&& post == (State { phase: PhaseView::Left, ..pre })
            &&& action matches ActionView::TerminateAndLeave(pids) && are_pids(pids, pre.children)
        },
        Signal::Child => {
            &&& post == (State { phase: PhaseView::Reaping, ..pre })
            &&& action == ActionView::Reap
        },
        Signal::Other => post == pre && action == ActionView::Unexpected,
    }
}

/// What an event leads to while the supervisor keeps its processes running.
pub open spec fn is_step(pre: State, event: Event, post: State, action: ActionView) -> bool {
    match (pre.phase, event) {
        (PhaseView::Clock, Event::Time(now)) => {
            let n = due_count(pre.queue, now as i128) as int;
            goes_on(
                State { queue: pre.queue.skip(n), ..pre },
                RoundView { now, due: items(pre.queue.take(n)), failed: Seq::empty() },
                post,
                action,
            )
        },
        (PhaseView::Opening { round, process, ports }, Event::Opened(fd)) if ports.len()
            > 0 => prepares(
            State { sockets: pre.sockets.insert(ports.last(), Socket { fd }), ..pre },
            round,
            process,
            ports.drop_last(),
            post,
            action,
        ),
        (PhaseView::Opening { round, process, ports }, Event::OpenFailed) if ports.len()
            > 0 => goes_on(pre, with_failed(round, process), post, action),
        (PhaseView::Spawning { round, process }, Event::Spawned(pid)) => goes_on(
            State {
                children: pre.children.insert(pid, Child::Process(started(round, process))),
                ..pre
            },
            round,
            post,
            action,
        ),
        (PhaseView::Spawning { round, process }, Event::SpawnFailed) => goes_on(
            pre,
            with_failed(round, process),
            post,
            action,
        ),
        (PhaseView::Waiting, Event::Timeout) => {
            &&& post == (State { phase: PhaseView::Clock, ..pre })
            &&& action == ActionView::ReadClock
        },
        (PhaseView::Waiting, Event::Signal(signal)) => after_signal(pre, signal, post, action),
        (PhaseView::Reaping, Event::Exited(pid)) => after_exit(pre, pid, post, action),
        (PhaseView::Reaping, Event::NoMoreExits) => {
            &&& post == (State { phase: PhaseView::Clock, ..pre })
            &&& action == ActionView::ReadClock
        },
        _ => post == pre && action == ActionView::Unexpected,
    }
}

/// How a round goes on does not depend on what was waited for before.
proof fn lemma_any_phase(pre: State, phase: PhaseView)
    ensures
        forall|round: RoundView, post: State, action: ActionView| #[trigger]
            goes_on(State { phase, ..pre }, round, post, action) ==> goes_on(
                pre,
                round,
                post,
                action,
            ),
{
    let other = State { phase, ..pre };
    assert forall|round: RoundView, post: State, action: ActionView| #[trigger]
        goes_on(other, round, post, action) implies goes_on(pre, round, post, action) by {
        if round.due.len() > 0 {
            let process = round.due[0];
            let rest = RoundView { due: round.due.skip(1), ..round };
            let ports = choose|ports: Seq<u16>|
                are_missing(ports, other.sockets, process.inner_config.tcp_ports@)
                    && #[trigger] prepares(other, rest, process, ports, post, action);
            assert(prepares(pre, rest, process, ports, post, action));
        }
    }
}

/// What is left to be done when no process is started any more: nothing where there is
/// no child, else the shutdown of all the children, with all the sockets.
pub open spec fn is_left_with(state: State, rest: Option<ShutdownState>) -> bool {
    match rest {
        Some(shutdown) => state.children.len() > 0 && shutdown.children == state.children
            && shutdown.sockets == state.sockets && !shutdown.reaping,
        None => state.children.len() == 0,
    }
}

/// As long as one child is left, it is waited for, and no child or socket gets lost on
/// the way into the shutdown.
pub proof fn law_no_child_is_left_behind(state: State, rest: Option<ShutdownState>, pid: i32)
    requires
        state.inv(),
        is_left_with(state, rest),
    ensures
        state.children.contains_key(pid) ==> rest is Some && rest->0.children.contains_key(pid)
            && rest->0.children[pid] == state.children[pid],
        rest matches Some(shutdown) ==> shutdown.sockets == state.sockets && shutdown.children
            == state.children && !shutdown.reaping,
        (forall|other: i32| !state.children.contains_key(other)) ==> rest is None,
{
    if state.children.contains_key(pid) {
        assert(state.children.dom().contains(pid));
        assert(state.children.dom().len() > 0);
    }
    if forall|other: i32| !state.children.contains_key(other) {
        assert(state.children.dom() =~= Set::<i32>::empty());
    }
}

/// The supervisor while it keeps its processes running.
#[derive(Debug)]
pub struct Supervisor {
    queue: Queue<Process>,
    children: HashMap<i32, Child>,
    sockets: HashMap<u16, Socket>,
    phase: Phase,
}

impl Supervisor {
    /// What the supervisor knows.
    pub closed spec fn view(&self) -> State {
        State {
            queue: self.queue@,
            children: self.children@,
            sockets: self.sockets@,
            phase: self.phase@,
        }
    }

    /// What holds of every supervisor.
    pub open spec fn inv(&self) -> bool {
        self@.inv()
    }

    /// A supervisor that is about to read the clock.
    pub fn new(
        queue: Queue<Process>,
        children: HashMap<i32, Child>,
        sockets: HashMap<u16, Socket>,
    ) -> (r: Supervisor)
        requires
            queue.inv(),
        ensures
            r.inv(),
            r@ == (State {
                queue: queue@,
                children: children@,
                sockets: sockets@,
                phase: PhaseView::Clock,
            }),
    {
        Supervisor { queue, children, sockets, phase: Phase::Clock }
    }

    /// The process that is being started.
    pub fn at_hand(&self) -> (r: Option<&Process>)
        ensures
            match (self@.phase, r) {
                (PhaseView::Opening { process, .. }, Some(found)) => *found == process,
                (PhaseView::Spawning { process, .. }, Some(found)) => *found == process,
                (PhaseView::Opening { .. }, None) => false,
                (PhaseView::Spawning { .. }, None) => false,
                (_, found) => found is None,
            },
    {
        match &self.phase {
            Phase::Opening { process, .. } => Some(process),
            Phase::Spawning { process, .. } => Some(process),
            _ => None,
        }
    }

    /// Leaves off keeping processes running: none is started any more, and it is
    /// waited for the end of the children, if there are any.
    pub fn leave(self) -> (r: Option<Shutdown>)
        ensures
            is_left_with(self@, match r {
                Some(shutdown) => Some(shutdown@),
                None => None,
            }),
            match r {
                Some(shutdown) => self@.children.dom() != Set::<i32>::empty() && shutdown@ == (
                ShutdownState {
                    children: self@.children,
                    sockets: self@.sockets,
                    reaping: false,
                }),
                None => self@.children.dom() == Set::<i32>::empty(),
            },
    {
        broadcast use vstd::std_specs::hash::group_hash_axioms;

        if self.children.len() > 0 {
            assert(self@.children.dom().len() > 0);
            Some(Shutdown::new(self.children, self.sockets))
        } else {
            assert(self@.children.dom() =~= Set::<i32>::empty());
            None
        }
    }

    fn end_round(self, round: Round) -> (r: (Supervisor, Action))
        requires
            is_sorted(self@.queue),
        ensures
            r.0.inv(),
            ends_round(self@, round@, r.0@, r.1@),
    {
        let mut queue: Queue<Process> = self.queue;
        let mut sockets: HashMap<u16, Socket> = self.sockets;
        let mut failed: Vec<(i128, Process)> = round.failed;
        let ghost all: Seq<(i128, Process)> = failed@;
        let ghost mut done: int = 0;
        assert(all.take(0) =~= Seq::<(i128, Process)>::empty());
        assert(all.skip(0) =~= all);
        while failed.len() > 0
            invariant
                0 <= done <= all.len(),
                failed@ == all.skip(done),
                queue.inv(),
                queue@ == requeued(self.queue@, all.take(done)),
            decreases failed.len(),
        {
            let entry: (i128, Process) = failed.remove(0);
            queue.add(entry.0, entry.1);
            proof {
                let next = all.take(done + 1);
                assert(next.drop_last() =~= all.take(done));
                assert(next.last() == entry);
                done = done + 1;
                assert(failed@ =~= all.skip(done));
            }
        }
        assert(all.take(done) =~= all);
        let close: Vec<(u16, i32)> = close_unused_sockets(&mut sockets, &self.children);
        let deadline: Option<i128> = queue.peek_time();
        (
            Supervisor { queue, children: self.children, sockets, phase: Phase::Waiting },
            Action::Wait { close, deadline },
        )
    }

    fn prepare(self, round: Round, process: Process, ports: Vec<u16>) -> (r: (Supervisor, Action))
        requires
            is_sorted(self@.queue),
            all_wanted(process, ports@),
        ensures
            r.0.inv(),
            prepares(self@, round@, process, ports@, r.0@, r.1@),
    {
        broadcast use vstd::std_specs::hash::group_hash_axioms;

        if ports.len() > 0 {
            let port: u16 = ports[ports.len() - 1];
            match process.inner_config.tcp_ports.get(&port) {
                Some(config) => {
                    let config: TcpPort = config.clone();
                    (
                        Supervisor { phase: Phase::Opening { round, process, ports }, ..self },
                        Action::Open { port, config },
                    )
                },
                // Every port in the list is one of the process's.
                None => (self, Action::Unexpected),
            }
        } else if can_pass_sockets(&self.sockets, &process.inner_config.tcp_ports) {
            let mut ready: Process = process;
            pass_sockets(&mut ready.cmd, &self.sockets, &ready.inner_config.tcp_ports);
            (Supervisor { phase: Phase::Spawning { round, process: ready }, ..self }, Action::Spawn)
        } else {
            (
                Supervisor { phase: Phase::Opening { round, process, ports }, ..self },
                Action::CannotPass,
            )
        }
    }

    fn go_on(self, round: Round) -> (r: (Supervisor, Action))
        requires
            is_sorted(self@.queue),
        ensures
            r.0.inv(),
            goes_on(self@, round@, r.0@, r.1@),
    {
        let mut round: Round = round;
        if round.due.len() == 0 {
            return self.end_round(round);
        }
        let ghost all: RoundView = round@;
        let process: Process = round.due.remove(0);
        let ports: Vec<u16> = ports_to_open(&self.sockets, &process.inner_config.tcp_ports);
        proof {
            assert(round@.due =~= all.due.skip(1));
            assert forall|i: int| 0 <= i < ports.len() implies process.inner_config.tcp_ports@.contains_key(
                #[trigger] ports@[i],
            ) by {
                assert(ports@.contains(ports@[i]));
            }
        }
        self.prepare(round, process, ports)
    }

    fn fail(self, round: Round, process: Process) -> (r: (Supervisor, Action))
        requires
            is_sorted(self@.queue),
        ensures
            r.0.inv(),
            goes_on(self@, with_failed(round@, process), r.0@, r.1@),
    {
        let mut round: Round = round;
        let again: i128 = restart_time(round.now, process.inner_config.restart_timeout);
        round.failed.push((again, process));
        self.go_on(round)
    }

    fn child_exited(self, pid: i32) -> (r: (Supervisor, Action))
        requires
            self.inv(),
            self@.phase == PhaseView::Reaping,
        ensures
            r.0.inv(),
            after_exit(self@, pid, r.0@, r.1@),
    {
        broadcast use vstd::std_specs::hash::group_hash_axioms;

        let mut queue: Queue<Process> = self.queue;
        let mut children: HashMap<i32, Child> = self.children;
        let action: Action = match children.remove(&pid) {
            Some(Child::Process(process)) => {
                let name: String = process.name.clone();
                queue.add(process.restart_min, process);
                Action::Clean { name, restart: true }
            },
            Some(Child::Unidentified(name)) => Action::Clean { name, restart: false },
            None => Action::Ignore(pid),
        };
        proof {
            if !self@.children.contains_key(pid) {
                assert(children@ =~= self@.children);
            }
        }
        (Supervisor { queue, children, sockets: self.sockets, phase: Phase::Reaping }, action)
    }

    fn signalled(self, signal: Signal) -> (r: (Supervisor, Action))
        requires
            self.inv(),
        ensures
            r.0.inv(),
            after_signal(self@, signal, r.0@, r.1@),
    {
        broadcast use vstd::std_specs::hash::group_hash_axioms;

        match signal {
            Signal::Interrupt => (Supervisor { phase: Phase::Left, ..self }, Action::Leave),
            Signal::Terminate => {
                let pids: Vec<i32> = keys_of(&self.children);
                (Supervisor { phase: Phase::Left, ..self }, Action::TerminateAndLeave(pids))
            },
            Signal::Child => (Supervisor { phase: Phase::Reaping, ..self }, Action::Reap),
            Signal::Other => (self, Action::Unexpected),
        }
    }

    /// Takes an event into account, and says what is to be done next.
    pub fn normal_step(self, event: Event) -> (r: (Supervisor, Action))
        requires
            self.inv(),
        ensures
            r.0.inv(),
            is_step(self@, event, r.0@, r.1@),
    {
        broadcast use vstd::std_specs::hash::group_hash_axioms;

        let ghost before: State = self@;
        let Supervisor { queue, children, sockets, phase } = self;
        match (phase, event) {
            (Phase::Clock, Event::Time(now)) => {
                let mut queue: Queue<Process> = queue;
                let due: Vec<Process> = queue.pop_until(now as i128);
                let next = Supervisor { queue, children, sockets, phase: Phase::Clock };
                let round = Round { now, due, failed: Vec::new() };
                assert(round@.failed =~= Seq::<(i128, Process)>::empty());
                next.go_on(round)
            },
            (Phase::Opening { round, process, ports }, Event::Opened(fd)) => {
                let mut ports: Vec<u16> = ports;
                let mut sockets: HashMap<u16, Socket> = sockets;
                let ghost all: Seq<u16> = ports@;
                match ports.pop() {
                    Some(port) => {
                        sockets.insert(port, Socket { fd });
                        proof {
                            assert(ports@ =~= all.drop_last());
                            assert(all_wanted(process, all));
                            assert forall|i: int| 0 <= i < ports@.len() implies (
                            process.inner_config.tcp_ports@.contains_key(#[trigger] ports@[i])) by {
                                assert(ports@[i] == all[i]);
                            }
                        }
                        let next = Supervisor { queue, children, sockets, phase: Phase::Clock };
                        next.prepare(round, process, ports)
                    },
                    None => (
                        Supervisor {
                            queue,
                            children,
                            sockets,
                            phase: Phase::Opening { round, process, ports },
                        },
                        Action::Unexpected,
                    ),
                }
            },
            (Phase::Opening { round, process, ports }, Event::OpenFailed) => {
                if ports.len() > 0 {
                    let next = Supervisor { queue, children, sockets, phase: Phase::Clock };
                    proof {
                        lemma_any_phase(before, PhaseView::Clock);
                    }
                    next.fail(round, process)
                } else {
                    (
                        Supervisor {
                            queue,
                            children,
                            sockets,
                            phase: Phase::Opening { round, process, ports },
                        },
                        Action::Unexpected,
                    )
                }
            },
            (Phase::Spawning { round, process }, Event::Spawned(pid)) => {
                let mut process: Process = process;
                let mut children: HashMap<i32, Child> = children;
                process.restart_min = restart_time(
                    round.now,
                    process.inner_config.restart_timeout,
                );
                children.insert(pid, Child::Process(process));
                let next = Supervisor { queue, children, sockets, phase: Phase::Clock };
                proof {
                    lemma_any_phase(
                        State { children: children@, ..before },
                        PhaseView::Clock,
                    );
                }
                next.go_on(round)
            },
            (Phase::Spawning { round, process }, Event::SpawnFailed) => {
                let next = Supervisor { queue, children, sockets, phase: Phase::Clock };
                proof {
                    lemma_any_phase(before, PhaseView::Clock);
                }
                next.fail(round, process)
            },
            (Phase::Waiting, Event::Timeout) => (
                Supervisor { queue, children, sockets, phase: Phase::Clock },
                Action::ReadClock,
            ),
            (Phase::Waiting, Event::Signal(signal)) => {
                let next = Supervisor { queue, children, sockets, phase: Phase::Waiting };
                next.signalled(signal)
            },
            (Phase::Reaping, Event::Exited(pid)) => {
                let next = Supervisor { queue, children, sockets, phase: Phase::Reaping };
                next.child_exited(pid)
            },
            (Phase::Reaping, Event::NoMoreExits) => (
                Supervisor { queue, children, sockets, phase: Phase::Clock },
                Action::ReadClock,
            ),
            (phase, _) => (
                Supervisor { queue, children, sockets, phase },
                Action::Unexpected,
            ),
        }
    }
}

} // verus!
