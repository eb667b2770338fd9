//! What each event leads to, and what it leaves alone, said of the states before and
//! after it.
use vstd::multiset::Multiset;
use vstd::prelude::*;
use vstd::seq_lib::{to_multiset_build, to_multiset_insert};

use crate::event::{Event, Signal};
use crate::process::{Child, Process, Socket};
use crate::queue::{due_count, is_sorted, items, lemma_due_count, lemma_with_entry_sorted};
use crate::shutdown::{is_shutdown_step, ShutdownAction, ShutdownActionView, ShutdownState};
use crate::sockets::{are_missing, is_fd_plan, is_passable, is_used};
use crate::supervisor::{
    goes_on, is_step, prepares, requeued, started, with_failed, Action, ActionView, Phase,
    PhaseView, RoundView, State,
};

verus! {

/// What waits in a queue, whatever the order.
pub open spec fn waiting(queue: Seq<(i128, Process)>) -> Multiset<(i128, Process)> {
    queue.to_multiset()
}

/// When a child ends that is known, it is cleaned up after under its full name, and
/// is no child any more. A process waits for the end of its rest, beside all that
/// waited before; any other child is gone. Nothing else changes.
pub proof fn law_known_child_ends(pre: State, pid: i32, post: State, action: ActionView)
    requires
        pre.inv(),
        pre.phase is Reaping,
        pre.children.contains_key(pid),
        is_step(pre, Event::Exited(pid), post, action),
    ensures
        action is Clean,
        pre.children[pid] matches Child::Process(process) ==> action->name == process.name@
            && action->restart && waiting(post.queue) == waiting(pre.queue).insert(
            (process.restart_min, process),
        ),
        pre.children[pid] matches Child::Unidentified(name) ==> action->name == name@
            && !action->restart && post.queue == pre.queue,
        forall|other: i32| #[trigger]
            post.children.contains_key(other) <==> pre.children.contains_key(other) && other != pid,
        forall|other: i32| #[trigger]
            post.children.contains_key(other) ==> post.children[other] == pre.children[other],
        post.sockets == pre.sockets,
        post.phase == pre.phase,
{
    if let Child::Process(process) = pre.children[pid] {
        let k = due_count(pre.queue, process.restart_min) as int;
        lemma_due_count(pre.queue, process.restart_min);
        to_multiset_insert(pre.queue, k, (process.restart_min, process));
    }
}

/// The end of a process that is not known changes nothing, and the process is named.
pub proof fn law_unknown_child_ends(pre: State, pid: i32, post: State, action: ActionView)
    requires
        pre.phase is Reaping,
        !pre.children.contains_key(pid),
        is_step(pre, Event::Exited(pid), post, action),
    ensures
        action == ActionView::Ignore(pid),
        post == pre,
{
}

/// Whether two states differ in what is waited for at most.
pub open spec fn differ_in_phase_only(a: State, b: State) -> bool {
    a.queue == b.queue && a.children == b.children && a.sockets == b.sockets
}

/// An interrupt ends the work without a word to the children; a request to terminate
/// ends it too, and is handed on to all the children, to each once; the end of a
/// child is looked into. Neither loses anything.
pub proof fn law_signals(pre: State, signal: Signal, post: State, action: ActionView)
    requires
        pre.phase is Waiting,
        is_step(pre, Event::Signal(signal), post, action),
    ensures
        differ_in_phase_only(pre, post),
        signal == Signal::Interrupt ==> action == ActionView::Leave && post.phase is Left,
        signal == Signal::Terminate ==> action is TerminateAndLeave && post.phase is Left,
        signal == Signal::Terminate ==> forall|pid: i32| #[trigger]
            action->TerminateAndLeave_0.contains(pid) <==> pre.children.contains_key(pid),
        signal == Signal::Terminate ==> action->TerminateAndLeave_0.no_duplicates(),
        signal == Signal::Child ==> action == ActionView::Reap && post.phase is Reaping,
        signal == Signal::Other ==> action == ActionView::Unexpected && post.phase is Waiting,
{
}

/// When the deadline has passed, and when all children that have ended were looked
/// at, the clock is read, and nothing else changes.
pub proof fn law_clock_is_read(pre: State, event: Event, post: State, action: ActionView)
    requires
        pre.phase is Waiting && event is Timeout || pre.phase is Reaping && event is NoMoreExits,
        is_step(pre, event, post, action),
    ensures
        differ_in_phase_only(pre, post),
        post.phase is Clock,
        action == ActionView::ReadClock,
{
}

/// Whether an event is one that is waited for.
pub open spec fn is_awaited(phase: PhaseView, event: Event) -> bool {
    match event {
        Event::Time(_) => phase is Clock,
        Event::Opened(_) => phase is Opening && phase->Opening_ports.len() > 0,
        Event::OpenFailed => phase is Opening && phase->Opening_ports.len() > 0,
        Event::Spawned(_) => phase is Spawning,
        Event::SpawnFailed => phase is Spawning,
        Event::Timeout => phase is Waiting,
        Event::Signal(signal) => phase is Waiting && signal != Signal::Other,
        Event::Exited(_) => phase is Reaping,
        Event::NoMoreExits => phase is Reaping,
    }
}

/// An event that is not waited for changes nothing, and is told as such; no other
/// event is.
pub proof fn law_only_awaited_events_count(
    pre: State,
    event: Event,
    post: State,
    action: ActionView,
)
    requires
        is_step(pre, event, post, action),
    ensures
        !is_awaited(pre.phase, event) ==> post == pre && action == ActionView::Unexpected,
        is_awaited(pre.phase, event) ==> !(action is Unexpected),
{
}

/// Whether the process at hand after a step is `process`, but for the plans for its
/// file descriptors.
pub open spec fn is_at_hand(phase: PhaseView, process: Process, round: RoundView) -> bool {
    match phase {
        PhaseView::Opening { round: r, process: p, .. } => r == round && p == process,
        PhaseView::Spawning { round: r, process: p } => {
            &&& r == round
            &&& p.name == process.name
            &&& p.config == process.config
            &&& p.restart_min == process.restart_min
            &&& p.inner_config == process.inner_config
            &&& p.ports == process.ports
            &&& p.cmd.program == process.cmd.program
            &&& p.cmd.args == process.cmd.args
            &&& p.cmd.env == process.cmd.env
            &&& p.cmd.namespaces == process.cmd.namespaces
        },
        _ => false,
    }
}

/// Whether `port` is one of `process` that the supervisor has to open: none is held
/// for it, and the process does not open it itself.
pub open spec fn is_to_be_opened(
    process: Process,
    sockets: Map<u16, Socket>,
    port: u16,
) -> bool {
    let ports = process.inner_config.tcp_ports@;
    ports.contains_key(port) && !sockets.contains_key(port) && !ports[port].reuse_port
}

/// Whether the supervisor has turned to `process` in `round`: sockets are opened
/// for the ports that lack one, one after the other, each as the process's own
/// configuration asks for it; where none lacks, the process is started.
pub open spec fn turns_to(
    process: Process,
    round: RoundView,
    post: State,
    action: ActionView,
) -> bool {
    &&& is_at_hand(post.phase, process, round)
    &&& action is Open || action is Spawn || action is CannotPass
    &&& action is Open <==> exists|port: u16| #[trigger]
        is_to_be_opened(process, post.sockets, port)
    &&& action matches ActionView::Open { port, config } ==> {
        &&& is_to_be_opened(process, post.sockets, port)
        &&& config == process.inner_config.tcp_ports@[port]
        &&& post.phase matches PhaseView::Opening { ports, .. } && ports.len() > 0 && ports.last()
            == port && ports.no_duplicates() && forall|p: u16| #[trigger]
            ports.contains(p) <==> is_to_be_opened(process, post.sockets, p)
    }
    &&& action is Spawn ==> is_ready(post)
    &&& action is CannotPass ==> !is_passable(post.sockets, process.inner_config.tcp_ports@)
}

/// Whether the process at hand is ready to be started, with the sockets of its
/// ports.
pub open spec fn is_ready(state: State) -> bool {
    state.phase matches PhaseView::Spawning { process, .. } && is_passable(
        state.sockets,
        process.inner_config.tcp_ports@,
    ) && is_fd_plan(
        process.cmd.close_fds,
        process.cmd.pass_fds@,
        state.sockets,
        process.inner_config.tcp_ports@,
    )
}

/// Whether the supervisor waits, with nothing left to be done: `queue` and the
/// processes that `failed` to start wait, the nearest deadline is that of the wait,
/// and of the `sockets` those that no child's process listens on are closed and given
/// up.
pub open spec fn settles(
    queue: Seq<(i128, Process)>,
    failed: Seq<(i128, Process)>,
    sockets: Map<u16, Socket>,
    post: State,
    action: ActionView,
) -> bool {
    &&& post.phase is Waiting
    &&& is_sorted(post.queue)
    &&& waiting(post.queue) == waiting(queue).add(waiting(failed))
    &&& action matches ActionView::Wait { close, deadline } && {
        &&& deadline is None <==> post.queue.len() == 0
        &&& deadline matches Some(time) ==> (exists|i: int|
            0 <= i < post.queue.len() && (#[trigger] post.queue[i]).0 == time) && (forall|i: int|
            0 <= i < post.queue.len() ==> time <= (#[trigger] post.queue[i]).0)
        &&& close.no_duplicates()
        &&& forall|port: u16, fd: i32| #[trigger]
            close.contains((port, fd)) <==> sockets.contains_key(port) && sockets[port].fd == fd
                && !has_listener(post.children, port)
        &&& forall|port: u16| #[trigger]
            post.sockets.contains_key(port) <==> sockets.contains_key(port) && has_listener(
                post.children,
                port,
            )
        &&& forall|port: u16| #[trigger]
            post.sockets.contains_key(port) ==> post.sockets[port] == sockets[port]
    }
}

/// Whether a child is known as a process that listens on `port`.
pub open spec fn has_listener(children: Map<i32, Child>, port: u16) -> bool {
    exists|pid: i32| #[trigger]
        children.contains_key(pid) && (children[pid] matches Child::Process(process)
            && process.ports@.contains(port))
}

proof fn lemma_listeners(children: Map<i32, Child>)
    ensures
        forall|port: u16| #[trigger] is_used(children, port) <==> has_listener(children, port),
{
    assert forall|port: u16| #[trigger] is_used(children, port) <==> has_listener(
        children,
        port,
    ) by {
        if is_used(children, port) {
            let pid = choose|pid: i32| #[trigger]
                children.contains_key(pid) && children[pid].uses(port);
            assert(children.contains_key(pid));
        }
        if has_listener(children, port) {
            let pid = choose|pid: i32| #[trigger]
                children.contains_key(pid) && (children[pid] matches Child::Process(process)
                    && process.ports@.contains(port));
            assert(children[pid].uses(port));
        }
    }
}

proof fn lemma_requeued(queue: Seq<(i128, Process)>, failed: Seq<(i128, Process)>)
    requires
        is_sorted(queue),
    ensures
        is_sorted(requeued(queue, failed)),
        waiting(requeued(queue, failed)) == waiting(queue).add(waiting(failed)),
    decreases failed.len(),
{
    broadcast use vstd::multiset::group_multiset_axioms;

    if failed.len() == 0 {
        assert(failed =~= Seq::empty());
        failed.to_multiset_ensures();
        assert(waiting(failed) =~= Multiset::empty());
        assert(waiting(queue) =~= waiting(queue).add(waiting(failed)));
    } else {
        let front = failed.drop_last();
        let (time, process) = failed.last();
        let before = requeued(queue, front);
        lemma_requeued(queue, front);
        lemma_with_entry_sorted(before, time, process);
        lemma_due_count(before, time);
        to_multiset_insert(before, due_count(before, time) as int, (time, process));
        to_multiset_build(front, failed.last());
        assert(front.push(failed.last()) =~= failed);
        assert(waiting(requeued(queue, failed)) =~= waiting(queue).add(waiting(failed)));
    }
}

/// How a round goes on.
proof fn lemma_goes_on(pre: State, round: RoundView, post: State, action: ActionView)
    requires
        is_sorted(pre.queue),
        goes_on(pre, round, post, action),
    ensures
        post.children == pre.children,
        round.due.len() > 0 ==> turns_to(
            round.due[0],
            RoundView { due: round.due.skip(1), ..round },
            post,
            action,
        ) && post.queue == pre.queue && post.sockets == pre.sockets,
        round.due.len() == 0 ==> settles(pre.queue, round.failed, pre.sockets, post, action),
{
    if round.due.len() == 0 {
        lemma_requeued(pre.queue, round.failed);
        lemma_listeners(pre.children);
        if post.queue.len() > 0 {
            assert forall|i: int| 0 <= i < post.queue.len() implies post.queue[0].0 <= (
            #[trigger] post.queue[i]).0 by {
                if i > 0 {
                    assert(post.queue[0].0 <= post.queue[i].0);
                }
            }
        }
    } else {
        let process = round.due[0];
        let rest = RoundView { due: round.due.skip(1), ..round };
        let wanted = process.inner_config.tcp_ports@;
        let ports = choose|ports: Seq<u16>|
            are_missing(ports, pre.sockets, wanted) && #[trigger] prepares(
                pre,
                rest,
                process,
                ports,
                post,
                action,
            );
        assert forall|port: u16| #[trigger] is_to_be_opened(process, pre.sockets, port)
            <==> ports.contains(port) by {}
        if ports.len() > 0 {
            assert(ports.contains(ports.last()));
            assert(is_to_be_opened(process, post.sockets, ports.last()));
        }
    }
}

/// When the clock is read, the processes whose time has come are turned to, in the
/// order in which they wait, and no others: the first of them at once. What is not
/// due stays in the queue. Where nothing is due, the supervisor settles.
pub proof fn law_round_begins(pre: State, now: i64, post: State, action: ActionView)
    requires
        pre.inv(),
        pre.phase is Clock,
        is_step(pre, Event::Time(now), post, action),
    ensures
        post.children == pre.children,
        (forall|i: int| 0 <= i < pre.queue.len() ==> (#[trigger] pre.queue[i]).0 > now) ==> settles(
            pre.queue,
            Seq::empty(),
            pre.sockets,
            post,
            action,
        ),
        (exists|i: int| 0 <= i < pre.queue.len() && (#[trigger] pre.queue[i]).0 <= now) ==> exists|
            round: RoundView,
        | #[trigger]
            turns_to(pre.queue[0].1, round, post, action) && begins(pre.queue, now, round, post.queue)
                && post.sockets == pre.sockets,
{
    let n = due_count(pre.queue, now as i128) as int;
    lemma_due_count(pre.queue, now as i128);
    let rest = State { queue: pre.queue.skip(n), ..pre };
    assert forall|i: int, j: int| 0 <= i < j < rest.queue.len() implies (
    #[trigger] rest.queue[i]).0 <= (#[trigger] rest.queue[j]).0 by {
        assert(rest.queue[i] == pre.queue[n + i] && rest.queue[j] == pre.queue[n + j]);
    }
    let round = RoundView { now, due: items(pre.queue.take(n)), failed: Seq::empty() };
    lemma_goes_on(rest, round, post, action);
    if forall|i: int| 0 <= i < pre.queue.len() ==> (#[trigger] pre.queue[i]).0 > now {
        assert(n == 0) by {
            if n > 0 {
                assert(pre.queue[0].0 <= now);
            }
        }
        assert(rest.queue =~= pre.queue);
    }
    if exists|i: int| 0 <= i < pre.queue.len() && (#[trigger] pre.queue[i]).0 <= now {
        let i = choose|i: int| 0 <= i < pre.queue.len() && (#[trigger] pre.queue[i]).0 <= now;
        assert(i < n);
        let after = RoundView { due: round.due.skip(1), ..round };
        assert(round.due[0] == pre.queue[0].1);
        assert forall|j: int| 0 <= j < after.due.len() implies #[trigger] after.due[j] == pre.queue[j
            + 1].1 by {}
        assert(begins(pre.queue, now, after, post.queue));
        assert(turns_to(pre.queue[0].1, after, post, action));
    }
}

/// Whether `round` is how a round at `now` begins, once the first process was turned
/// to: all the others whose time has come are in it, in the order in which they
/// waited, and all that are due later are left in the queue.
pub open spec fn begins(
    queue: Seq<(i128, Process)>,
    now: i64,
    round: RoundView,
    left: Seq<(i128, Process)>,
) -> bool {
    let n = round.due.len() + 1;
    &&& round.now == now
    &&& round.failed.len() == 0
    &&& n <= queue.len()
    &&& forall|i: int| 0 <= i < n ==> (#[trigger] queue[i]).0 <= now
    &&& forall|i: int| n <= i < queue.len() ==> (#[trigger] queue[i]).0 > now
    &&& forall|i: int| 0 <= i < n - 1 ==> #[trigger] round.due[i] == queue[i + 1].1
    &&& left == queue.skip(n as int)
}

/// Whether the round goes on after the process at hand: with the next one, or, where
/// there is none, the supervisor settles. `failed` are the processes that could not
/// be started.
pub open spec fn moves_on(
    pre: State,
    round: RoundView,
    failed: Seq<(i128, Process)>,
    post: State,
    action: ActionView,
) -> bool {
    if round.due.len() > 0 {
        &&& turns_to(
            round.due[0],
            RoundView { now: round.now, due: round.due.skip(1), failed },
            post,
            action,
        )
        &&& post.queue == pre.queue
        &&& post.sockets == pre.sockets
    } else {
        settles(pre.queue, failed, pre.sockets, post, action)
    }
}

/// The round that is going on.
pub open spec fn round_of(state: State) -> RoundView {
    match state.phase {
        PhaseView::Opening { round, .. } => round,
        PhaseView::Spawning { round, .. } => round,
        _ => arbitrary(),
    }
}

/// The process that is being started.
pub open spec fn process_of(state: State) -> Process {
    match state.phase {
        PhaseView::Opening { process, .. } => process,
        PhaseView::Spawning { process, .. } => process,
        _ => arbitrary(),
    }
}

/// A process that could not be started, or that a socket could not be opened for,
/// is tried again when its timeout has passed since the round began, exactly; the
/// round goes on with the next one.
pub proof fn law_try_fails(pre: State, event: Event, post: State, action: ActionView)
    requires
        pre.inv(),
        event is OpenFailed && pre.phase is Opening && pre.phase->Opening_ports.len() > 0 || event
            is SpawnFailed && pre.phase is Spawning,
        is_step(pre, event, post, action),
    ensures
        post.children == pre.children,
        exists|time: i128| #[trigger]
            moves_on(
                pre,
                round_of(pre),
                round_of(pre).failed.push((time, process_of(pre))),
                post,
                action,
            ) && time == round_of(pre).now + process_of(pre).inner_config.restart_timeout
                * 1_000_000,
{
    let round = round_of(pre);
    let process = process_of(pre);
    let millis = process.inner_config.restart_timeout;
    let time = (round.now + millis * 1_000_000) as i128;
    assert(i128::MIN <= round.now + millis * 1_000_000 <= i128::MAX);
    let after = with_failed(round, process);
    lemma_goes_on(pre, after, post, action);
    assert(after.failed == round.failed.push((time, process)));
    assert(moves_on(pre, round, round.failed.push((time, process)), post, action));
}

/// A process that was started is a child under its pid, just as it was, but for its
/// rest, which lasts from the beginning of the round for its timeout, exactly; the
/// other children stay, and the round goes on with the next process.
pub proof fn law_try_succeeds(pre: State, pid: i32, post: State, action: ActionView)
    requires
        pre.inv(),
        pre.phase is Spawning,
        is_step(pre, Event::Spawned(pid), post, action),
    ensures
        post.children.contains_key(pid),
        post.children[pid] matches Child::Process(child) && child.restart_min
            == pre.phase->Spawning_round.now + child.inner_config.restart_timeout * 1_000_000
            && child == (Process {
            restart_min: child.restart_min,
            ..pre.phase->Spawning_process
        }),
        forall|other: i32|
            other != pid ==> (#[trigger] post.children.contains_key(other)
                <==> pre.children.contains_key(other)),
        forall|other: i32|
            other != pid && #[trigger] post.children.contains_key(other) ==> post.children[other]
                == pre.children[other],
        moves_on(
            pre,
            pre.phase->Spawning_round,
            pre.phase->Spawning_round.failed,
            post,
            action,
        ),
{
    let round = pre.phase->Spawning_round;
    let process = pre.phase->Spawning_process;
    let child = Child::Process(started(round, process));
    let next = State { children: pre.children.insert(pid, child), ..pre };
    let millis = process.inner_config.restart_timeout;
    assert(i128::MIN <= round.now + millis * 1_000_000 <= i128::MAX);
    lemma_goes_on(next, round, post, action);
    assert(RoundView { due: round.due.skip(1), ..round } == RoundView {
        now: round.now,
        due: round.due.skip(1),
        failed: round.failed,
    });
}

/// A socket that was opened is held for the port that it was opened for, beside those
/// held before. Then the next one is opened, as the process's own configuration asks
/// for it, or, where it was the last one, the process is started with its sockets.
pub proof fn law_socket_is_opened(pre: State, fd: i32, post: State, action: ActionView)
    requires
        pre.phase is Opening,
        pre.phase->Opening_ports.len() > 0,
        is_step(pre, Event::Opened(fd), post, action),
    ensures
        ({
            let round = pre.phase->Opening_round;
            let process = pre.phase->Opening_process;
            let ports = pre.phase->Opening_ports;
            let n = ports.len() as int;
            let wanted = process.inner_config.tcp_ports@;
            &&& post.queue == pre.queue
            &&& post.children == pre.children
            &&& post.sockets.contains_key(ports[n - 1])
            &&& post.sockets[ports[n - 1]].fd == fd
            &&& forall|port: u16|
                port != ports[n - 1] ==> (#[trigger] post.sockets.contains_key(port)
                    <==> pre.sockets.contains_key(port))
            &&& forall|port: u16|
                port != ports[n - 1] && #[trigger] post.sockets.contains_key(port)
                    ==> post.sockets[port] == pre.sockets[port]
            &&& is_at_hand(post.phase, process, round)
            &&& n > 1 ==> action == ActionView::Open {
                port: ports[n - 2],
                config: wanted[ports[n - 2]],
            } && post.phase is Opening && post.phase->Opening_ports == ports.take(n - 1)
            &&& n == 1 && is_passable(post.sockets, wanted) ==> action is Spawn && is_ready(post)
            &&& n == 1 && !is_passable(post.sockets, wanted) ==> action is CannotPass
        }),
{
    let ports = pre.phase->Opening_ports;
    assert(ports.drop_last() =~= ports.take(ports.len() - 1));
}

/// When a child that is known ends during the shutdown, it is cleaned up after under
/// its full name, and is no child any more; the end of another process is named.
/// Nothing else changes.
pub proof fn law_child_ends_in_shutdown(
    pre: ShutdownState,
    pid: i32,
    post: ShutdownState,
    action: ShutdownActionView,
)
    requires
        pre.reaping,
        is_shutdown_step(pre, Event::Exited(pid), post, action),
    ensures
        post.reaping,
        post.sockets == pre.sockets,
        pre.children.contains_key(pid) ==> action is Clean,
        pre.children.contains_key(pid) ==> (pre.children[pid] matches Child::Process(process)
            ==> action->Clean_0 == process.name@),
        pre.children.contains_key(pid) ==> (pre.children[pid] matches Child::Unidentified(name)
            ==> action->Clean_0 == name@),
        !pre.children.contains_key(pid) ==> action == ShutdownActionView::Ignore(pid),
        forall|other: i32| #[trigger]
            post.children.contains_key(other) <==> pre.children.contains_key(other) && other != pid,
        forall|other: i32| #[trigger]
            post.children.contains_key(other) ==> post.children[other] == pre.children[other],
{
}

/// The sockets that an action closes.
pub open spec fn closed_by(action: ShutdownActionView) -> Seq<(u16, i32)> {
    match action {
        ShutdownActionView::Close(list) => list,
        ShutdownActionView::Finish(list) => list,
        _ => Seq::empty(),
    }
}

/// When all children that have ended were looked at, the sockets that no child's
/// process listens on are closed and given up, and the others are kept as they are;
/// the shutdown is over just where no child is left.
pub proof fn law_sockets_close_in_shutdown(
    pre: ShutdownState,
    post: ShutdownState,
    action: ShutdownActionView,
)
    requires
        pre.reaping,
        is_shutdown_step(pre, Event::NoMoreExits, post, action),
    ensures
        !post.reaping,
        post.children == pre.children,
        action is Finish <==> forall|pid: i32| !pre.children.contains_key(pid),
        action is Close <==> exists|pid: i32| pre.children.contains_key(pid),
        closed_by(action).no_duplicates(),
        forall|port: u16, fd: i32| #[trigger]
            closed_by(action).contains((port, fd)) <==> pre.sockets.contains_key(port)
                && pre.sockets[port].fd == fd && !has_listener(pre.children, port),
        forall|port: u16| #[trigger]
            post.sockets.contains_key(port) <==> pre.sockets.contains_key(port) && has_listener(
                pre.children,
                port,
            ),
        forall|port: u16| #[trigger]
            post.sockets.contains_key(port) ==> post.sockets[port] == pre.sockets[port],
{
    lemma_listeners(pre.children);
    if forall|pid: i32| !pre.children.contains_key(pid) {
        assert(pre.children.dom() =~= Set::<i32>::empty());
    } else {
        let pid = choose|pid: i32| pre.children.contains_key(pid);
        assert(pre.children.dom().contains(pid));
    }
}

/// During the shutdown an interrupt is not handed on, a request to terminate is, to
/// each child once, and the end of a child is looked into; none of them changes what
/// is known. Other signals, and events that are not waited for, count for nothing.
pub proof fn law_signals_in_shutdown(
    pre: ShutdownState,
    event: Event,
    post: ShutdownState,
    action: ShutdownActionView,
)
    requires
        is_shutdown_step(pre, event, post, action),
        !pre.reaping || !(event is Exited || event is NoMoreExits),
    ensures
        post.children == pre.children,
        post.sockets == pre.sockets,
        !pre.reaping && event == Event::Signal(Signal::Interrupt) ==> action
            == ShutdownActionView::Wait && !post.reaping,
        !pre.reaping && event == Event::Signal(Signal::Terminate) ==> action is Terminate
            && !post.reaping && action->Terminate_0.no_duplicates() && forall|pid: i32| #[trigger]
            action->Terminate_0.contains(pid) <==> pre.children.contains_key(pid),
        !pre.reaping && event == Event::Signal(Signal::Child) ==> action == ShutdownActionView::Reap
            && post.reaping,
        pre.reaping || !(event is Signal) || event == Event::Signal(Signal::Other) ==> action
            == ShutdownActionView::Unexpected && post == pre,
{
}

/// Nothing of an action is left out of what it is said to be.
pub proof fn law_actions_are_shown_whole(action: Action, last: ShutdownAction)
    ensures
        action matches Action::Open { port, config } ==> action@ == (ActionView::Open {
            port,
            config,
        }),
        action matches Action::Wait { close, deadline } ==> action@ == (ActionView::Wait {
            close: close@,
            deadline,
        }),
        action matches Action::TerminateAndLeave(pids) ==> action@ == ActionView::TerminateAndLeave(
            pids@,
        ),
        action matches Action::Clean { name, restart } ==> action@ == (ActionView::Clean {
            name: name@,
            restart,
        }),
        action matches Action::Ignore(pid) ==> action@ == ActionView::Ignore(pid),
        action is ReadClock <==> action@ is ReadClock,
        action is Spawn <==> action@ is Spawn,
        action is Leave <==> action@ is Leave,
        action is Reap <==> action@ is Reap,
        action is CannotPass <==> action@ is CannotPass,
        action is Unexpected <==> action@ is Unexpected,
        last matches ShutdownAction::Terminate(pids) ==> last@ == ShutdownActionView::Terminate(
            pids@,
        ),
        last matches ShutdownAction::Clean(name) ==> last@ == ShutdownActionView::Clean(name@),
        last matches ShutdownAction::Ignore(pid) ==> last@ == ShutdownActionView::Ignore(pid),
        last matches ShutdownAction::Close(list) ==> last@ == ShutdownActionView::Close(list@),
        last matches ShutdownAction::Finish(list) ==> last@ == ShutdownActionView::Finish(list@),
        last is Wait <==> last@ is Wait,
        last is Reap <==> last@ is Reap,
        last is Unexpected <==> last@ is Unexpected,
{
}

/// Nothing of what is waited for is left out of what it is said to be.
pub proof fn law_phases_are_shown_whole(phase: Phase)
    ensures
        phase matches Phase::Opening { round, process, ports } ==> phase@ == (PhaseView::Opening {
            round: RoundView { now: round.now, due: round.due@, failed: round.failed@ },
            process,
            ports: ports@,
        }),
        phase matches Phase::Spawning { round, process } ==> phase@ == (PhaseView::Spawning {
            round: RoundView { now: round.now, due: round.due@, failed: round.failed@ },
            process,
        }),
        phase is Clock <==> phase@ is Clock,
        phase is Waiting <==> phase@ is Waiting,
        phase is Reaping <==> phase@ is Reaping,
        phase is Left <==> phase@ is Left,
{
}

} // verus!
