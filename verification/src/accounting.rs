//! What stays true from step to step: no process is lost or run twice, none is
//! started before its time, and no socket is kept for nothing.
use vstd::prelude::*;

use crate::command::{Namespace, Word};
use crate::config::{law_every_worker_is_queued, scheduled};
use crate::event::Event;
use crate::process::{known, Child, ContainerConfig, Process, Socket};
use crate::queue::{
    due_count, is_sorted, items, lemma_due_count, lemma_with_entry_sorted, with_entry,
};
use crate::recovery::{is_consistent, is_process_called, NoticeView, Recovery};
use crate::sockets::{are_missing, law_closing_twice_is_closing_once, used_sockets};
use crate::supervisor::{
    goes_on, is_step, next_deadline, prepares, requeued, started, with_failed, ActionView,
    PhaseView, RoundView, State,
};
use crate::table::{as_map, has_name, has_unique_names, lemma_listed};

verus! {

/// A property of processes.
pub type Property = spec_fn(Process) -> bool;

/// Being the process `name`.
pub open spec fn named(name: Seq<char>) -> Property {
    |process: Process| process.name@ == name
}

/// What of a process does not change while it is in the supervisor's care: all but
/// the time before which it is not started again, and the plans for its file
/// descriptors.
pub struct Identity {
    pub name: String,
    pub config: String,
    pub inner_config: ContainerConfig,
    pub ports: Vec<u16>,
    pub program: Word,
    pub args: Vec<Word>,
    pub env: Vec<(String, Word)>,
    pub namespaces: Vec<Namespace>,
}

/// What of `process` does not change.
pub open spec fn identity(process: Process) -> Identity {
    Identity {
        name: process.name,
        config: process.config,
        inner_config: process.inner_config,
        ports: process.ports,
        program: process.cmd.program,
        args: process.cmd.args,
        env: process.cmd.env,
        namespaces: process.cmd.namespaces,
    }
}

/// Being the process that `who` describes.
pub open spec fn described(who: Identity) -> Property {
    |process: Process| identity(process) == who
}

/// Whether `of` speaks only of what does not change.
pub open spec fn is_lasting(of: Property) -> bool {
    forall|a: Process, b: Process|
        #![trigger of(a), of(b)]
        identity(a) == identity(b) ==> of(a) == of(b)
}

/// One for a process with the property, and nothing for others.
pub open spec fn one(process: Process, of: Property) -> nat {
    if of(process) {
        1
    } else {
        0
    }
}

/// How many processes with the property `s` holds.
pub open spec fn count(s: Seq<Process>, of: Property) -> nat
    decreases s.len(),
{
    if s.len() == 0 {
        0
    } else {
        count(s.drop_last(), of) + one(s.last(), of)
    }
}

/// Whether a child is known as a process with the property.
pub open spec fn runs_as(child: Child, of: Property) -> bool {
    child matches Child::Process(process) && of(process)
}

/// The pids under which processes with the property run.
pub open spec fn pids_of(children: Map<i32, Child>, of: Property) -> Set<i32> {
    children.dom().filter(|pid: i32| runs_as(children[pid], of))
}

/// How many processes with the property are held in a round.
pub open spec fn in_round(round: RoundView, of: Property) -> nat {
    count(round.due, of) + count(items(round.failed), of)
}

/// How many processes with the property are held by what is going on.
pub open spec fn in_phase(phase: PhaseView, of: Property) -> nat {
    match phase {
        PhaseView::Opening { round, process, .. } => in_round(round, of) + one(process, of),
        PhaseView::Spawning { round, process } => in_round(round, of) + one(process, of),
        _ => 0,
    }
}

/// How many processes with the property are in the supervisor's care: waiting,
/// about to be started, or running.
pub open spec fn total_of(state: State, of: Property) -> nat {
    count(items(state.queue), of) + pids_of(state.children, of).len() + in_phase(state.phase, of)
}

/// How often the process `name` is in the supervisor's care.
pub open spec fn total(state: State, name: Seq<char>) -> nat {
    total_of(state, named(name))
}

/// Whether the process that `who` describes is in the supervisor's care.
pub open spec fn is_held(state: State, who: Identity) -> bool {
    total_of(state, described(who)) > 0
}

proof fn lemma_count_add(a: Seq<Process>, b: Seq<Process>, of: Property)
    ensures
        count(a + b, of) == count(a, of) + count(b, of),
    decreases b.len(),
{
    if b.len() == 0 {
        assert(a + b =~= a);
    } else {
        lemma_count_add(a, b.drop_last(), of);
        assert((a + b).drop_last() =~= a + b.drop_last());
        assert((a + b).last() == b.last());
    }
}

proof fn lemma_count_one(process: Process, of: Property)
    ensures
        count(seq![process], of) == one(process, of),
{
    assert(seq![process].drop_last() =~= Seq::<Process>::empty());
    assert(count(seq![process].drop_last(), of) == 0);
}

proof fn lemma_count_front(s: Seq<Process>, of: Property)
    requires
        s.len() > 0,
    ensures
        count(s, of) == one(s[0], of) + count(s.skip(1), of),
{
    assert(s =~= seq![s[0]] + s.skip(1));
    lemma_count_add(seq![s[0]], s.skip(1), of);
    lemma_count_one(s[0], of);
}

proof fn lemma_count_split(s: Seq<(i128, Process)>, n: int, of: Property)
    requires
        0 <= n <= s.len(),
    ensures
        count(items(s), of) == count(items(s.take(n)), of) + count(items(s.skip(n)), of),
{
    assert(items(s) =~= items(s.take(n)) + items(s.skip(n)));
    lemma_count_add(items(s.take(n)), items(s.skip(n)), of);
}

proof fn lemma_count_entry(s: Seq<(i128, Process)>, time: i128, process: Process, of: Property)
    requires
        is_sorted(s),
    ensures
        count(items(with_entry(s, time, process)), of) == count(items(s), of) + one(
            process,
            of,
        ),
{
    lemma_due_count(s, time);
    let k = due_count(s, time) as int;
    let t = with_entry(s, time, process);
    lemma_count_split(s, k, of);
    lemma_count_split(t, k, of);
    assert(t.take(k) =~= s.take(k));
    assert(t.skip(k).skip(1) =~= s.skip(k));
    assert(items(t.skip(k)).skip(1) =~= items(s.skip(k)));
    lemma_count_front(items(t.skip(k)), of);
}

proof fn lemma_count_requeued(
    queue: Seq<(i128, Process)>,
    failed: Seq<(i128, Process)>,
    of: Property,
)
    requires
        is_sorted(queue),
    ensures
        is_sorted(requeued(queue, failed)),
        count(items(requeued(queue, failed)), of) == count(items(queue), of) + count(
            items(failed),
            of,
        ),
    decreases failed.len(),
{
    if failed.len() == 0 {
        assert(items(failed) =~= Seq::<Process>::empty());
    } else {
        let front = failed.drop_last();
        lemma_count_requeued(queue, front, of);
        lemma_with_entry_sorted(requeued(queue, front), failed.last().0, failed.last().1);
        lemma_count_entry(requeued(queue, front), failed.last().0, failed.last().1, of);
        assert(items(failed).drop_last() =~= items(front));
    }
}

proof fn lemma_count_failed(round: RoundView, process: Process, of: Property)
    ensures
        in_round(with_failed(round, process), of) == in_round(round, of) + one(process, of),
{
    let after = with_failed(round, process);
    assert(items(after.failed).drop_last() =~= items(round.failed));
}

/// How a round goes on changes no count.
proof fn lemma_round_keeps(
    pre: State,
    round: RoundView,
    post: State,
    action: ActionView,
    of: Property,
)
    requires
        is_lasting(of),
        is_sorted(pre.queue),
        goes_on(pre, round, post, action),
    ensures
        total_of(post, of) == count(items(pre.queue), of) + pids_of(pre.children, of).len()
            + in_round(round, of),
{
    if round.due.len() == 0 {
        lemma_count_requeued(pre.queue, round.failed, of);
    } else {
        lemma_count_front(round.due, of);
    }
}

/// Adding or removing one pid changes a count by one.
proof fn lemma_pids_insert(children: Map<i32, Child>, pid: i32, child: Child, of: Property)
    requires
        children.dom().finite(),
        !children.contains_key(pid),
    ensures
        pids_of(children.insert(pid, child), of).len() == pids_of(children, of).len()
            + if runs_as(child, of) {
            1nat
        } else {
            0nat
        },
{
    let a = pids_of(children, of);
    let b = pids_of(children.insert(pid, child), of);
    if runs_as(child, of) {
        assert(b =~= a.insert(pid));
    } else {
        assert(b =~= a);
    }
}

proof fn lemma_pids_remove(children: Map<i32, Child>, pid: i32, of: Property)
    requires
        children.dom().finite(),
        children.contains_key(pid),
    ensures
        pids_of(children, of).len() == pids_of(children.remove(pid), of).len()
            + if runs_as(children[pid], of) {
            1nat
        } else {
            0nat
        },
{
    assert(children.remove(pid).insert(pid, children[pid]) =~= children);
    lemma_pids_insert(children.remove(pid), pid, children[pid], of);
}

/// With every step, just as many processes with a lasting property are in the
/// supervisor's care as before. A process that is started gets a pid that no child
/// has.
pub proof fn law_every_count_stays(
    pre: State,
    event: Event,
    post: State,
    action: ActionView,
    of: Property,
)
    requires
        is_lasting(of),
        pre.inv(),
        is_step(pre, event, post, action),
        event matches Event::Spawned(pid) ==> !pre.children.contains_key(pid),
    ensures
        total_of(post, of) == total_of(pre, of),
{
    match (pre.phase, event) {
        (PhaseView::Clock, Event::Time(now)) => {
            let n = due_count(pre.queue, now as i128) as int;
            lemma_due_count(pre.queue, now as i128);
            lemma_count_split(pre.queue, n, of);
            let rest = State { queue: pre.queue.skip(n), ..pre };
            let round = RoundView { now, due: items(pre.queue.take(n)), failed: Seq::empty() };
            assert forall|i: int, j: int| 0 <= i < j < rest.queue.len() implies (
            #[trigger] rest.queue[i]).0 <= (#[trigger] rest.queue[j]).0 by {
                assert(rest.queue[i] == pre.queue[n + i] && rest.queue[j] == pre.queue[n + j]);
            }
            assert(items(round.failed) =~= Seq::<Process>::empty());
            lemma_round_keeps(rest, round, post, action, of);
        },
        (PhaseView::Opening { round, process, ports }, Event::OpenFailed) => {
            if ports.len() > 0 {
                lemma_count_failed(round, process, of);
                lemma_round_keeps(pre, with_failed(round, process), post, action, of);
            }
        },
        (PhaseView::Spawning { round, process }, Event::Spawned(pid)) => {
            let child = Child::Process(started(round, process));
            lemma_pids_insert(pre.children, pid, child, of);
            let next = State { children: pre.children.insert(pid, child), ..pre };
            lemma_round_keeps(next, round, post, action, of);
        },
        (PhaseView::Spawning { round, process }, Event::SpawnFailed) => {
            lemma_count_failed(round, process, of);
            lemma_round_keeps(pre, with_failed(round, process), post, action, of);
        },
        (PhaseView::Reaping, Event::Exited(pid)) => {
            if pre.children.contains_key(pid) {
                lemma_pids_remove(pre.children, pid, of);
                if let Child::Process(process) = pre.children[pid] {
                    lemma_count_entry(pre.queue, process.restart_min, process, of);
                }
            }
        },
        _ => {},
    }
}

/// With no step do more processes with a lasting property come into the
/// supervisor's care, not even with one that starts a process under the pid of a
/// child that is still known.
pub proof fn law_no_count_grows(
    pre: State,
    event: Event,
    post: State,
    action: ActionView,
    of: Property,
)
    requires
        is_lasting(of),
        pre.inv(),
        is_step(pre, event, post, action),
    ensures
        total_of(post, of) <= total_of(pre, of),
{
    match (pre.phase, event) {
        (PhaseView::Spawning { round, process }, Event::Spawned(pid)) if pre.children.contains_key(
            pid,
        ) => {
            let child = Child::Process(started(round, process));
            let next = State { children: pre.children.insert(pid, child), ..pre };
            lemma_round_keeps(next, round, post, action, of);
            let a = pids_of(pre.children, of);
            let b = pids_of(next.children, of);
            if of(process) {
                assert(b =~= a.insert(pid));
            } else {
                assert(b =~= a.remove(pid));
            }
        },
        (PhaseView::Spawning { .. }, _) => {
            law_every_count_stays(pre, event, post, action, of);
        },
        (_, Event::Spawned(_)) => {},
        _ => {
            law_every_count_stays(pre, event, post, action, of);
        },
    }
}

/// No process gets lost and none is doubled: with every step, each process is in
/// the supervisor's care just as often as before. A process that is started gets
/// a pid that no child has.
pub proof fn law_no_process_is_lost_or_doubled(
    pre: State,
    event: Event,
    post: State,
    action: ActionView,
    name: Seq<char>,
)
    requires
        pre.inv(),
        is_step(pre, event, post, action),
        event matches Event::Spawned(pid) ==> !pre.children.contains_key(pid),
    ensures
        total(post, name) == total(pre, name),
{
    law_every_count_stays(pre, event, post, action, named(name));
}

/// No step makes more of a process, not even one that starts it under the pid of a
/// child that is still known.
pub proof fn law_no_process_is_multiplied(
    pre: State,
    event: Event,
    post: State,
    action: ActionView,
    name: Seq<char>,
)
    requires
        pre.inv(),
        is_step(pre, event, post, action),
    ensures
        total(post, name) <= total(pre, name),
{
    law_no_count_grows(pre, event, post, action, named(name));
}

/// Whatever happens, what holds of every state goes on to hold.
pub proof fn law_steps_keep_the_invariant(
    pre: State,
    event: Event,
    post: State,
    action: ActionView,
)
    requires
        pre.inv(),
        is_step(pre, event, post, action),
    ensures
        post.inv(),
{
    match (pre.phase, event) {
        (PhaseView::Clock, Event::Time(now)) => {
            let n = due_count(pre.queue, now as i128) as int;
            lemma_due_count(pre.queue, now as i128);
            let rest = State { queue: pre.queue.skip(n), ..pre };
            assert forall|i: int, j: int| 0 <= i < j < rest.queue.len() implies (
            #[trigger] rest.queue[i]).0 <= (#[trigger] rest.queue[j]).0 by {
                assert(rest.queue[i] == pre.queue[n + i] && rest.queue[j] == pre.queue[n + j]);
            }
            let round = RoundView { now, due: items(pre.queue.take(n)), failed: Seq::empty() };
            lemma_round_keeps_inv(rest, round, post, action);
        },
        (PhaseView::Opening { round, process, ports }, Event::Opened(_)) => {
            if ports.len() > 0 {
                assert forall|i: int| 0 <= i < ports.drop_last().len() implies (
                process.inner_config.tcp_ports@.contains_key(#[trigger] ports.drop_last()[i])) by {
                    assert(ports.drop_last()[i] == ports[i]);
                }
            }
        },
        (PhaseView::Opening { round, process, ports }, Event::OpenFailed) => {
            if ports.len() > 0 {
                lemma_round_keeps_inv(pre, with_failed(round, process), post, action);
            }
        },
        (PhaseView::Spawning { round, process }, Event::Spawned(pid)) => {
            let child = Child::Process(started(round, process));
            let next = State { children: pre.children.insert(pid, child), ..pre };
            lemma_round_keeps_inv(next, round, post, action);
        },
        (PhaseView::Spawning { round, process }, Event::SpawnFailed) => {
            lemma_round_keeps_inv(pre, with_failed(round, process), post, action);
        },
        (PhaseView::Reaping, Event::Exited(pid)) => {
            if pre.children.contains_key(pid) {
                if let Child::Process(process) = pre.children[pid] {
                    lemma_with_entry_sorted(pre.queue, process.restart_min, process);
                }
            }
        },
        _ => {},
    }
}

/// How a round goes on keeps what holds of every state.
proof fn lemma_round_keeps_inv(pre: State, round: RoundView, post: State, action: ActionView)
    requires
        is_sorted(pre.queue),
        pre.children.dom().finite(),
        goes_on(pre, round, post, action),
    ensures
        post.inv(),
{
    if round.due.len() == 0 {
        lemma_count_requeued(pre.queue, round.failed, |process: Process| true);
    } else {
        let process = round.due[0];
        let rest = RoundView { due: round.due.skip(1), ..round };
        let wanted = process.inner_config.tcp_ports@;
        let ports = choose|ports: Seq<u16>|
            are_missing(ports, pre.sockets, wanted) && #[trigger] prepares(
                pre,
                rest,
                process,
                ports,
                post,
                action,
            );
        assert forall|i: int| 0 <= i < ports.len() implies wanted.contains_key(
            #[trigger] ports[i],
        ) by {
            assert(ports.contains(ports[i]));
        }
    }
}

/// The processes of a list, without the names that they are listed under.
pub open spec fn listed_processes(entries: Seq<(String, Process)>) -> Seq<Process> {
    Seq::new(entries.len(), |i: int| entries[i].1)
}

/// Queueing changes no count.
proof fn lemma_count_scheduled(
    entries: Seq<(String, Process)>,
    readings: Seq<i64>,
    of: Property,
)
    ensures
        count(items(scheduled(entries, readings)), of) == count(listed_processes(entries), of),
    decreases entries.len(),
{
    if entries.len() == 0 {
        assert(items(scheduled(entries, readings)) =~= listed_processes(entries));
    } else {
        let front = entries.drop_last();
        let time = readings[entries.len() - 1] as i128;
        lemma_count_scheduled(front, readings, of);
        law_every_worker_is_queued(front, readings);
        lemma_count_entry(scheduled(front, readings), time, entries.last().1, of);
        assert(listed_processes(entries).drop_last() =~= listed_processes(front));
    }
}

/// In a list without repeated names that lists each process under its own, a name
/// counts once where it occurs, and else not at all.
proof fn lemma_count_listed(entries: Seq<(String, Process)>, name: Seq<char>)
    requires
        has_unique_names(entries),
        forall|i: int| 0 <= i < entries.len() ==> (#[trigger] entries[i]).0@ == entries[i].1.name@,
    ensures
        count(listed_processes(entries), named(name)) == if has_name(entries, name) {
            1nat
        } else {
            0nat
        },
    decreases entries.len(),
{
    if entries.len() > 0 {
        let front = entries.drop_last();
        let last = entries.len() - 1;
        assert forall|i: int, j: int| 0 <= i < j < front.len() implies (#[trigger] front[i]).0@ != (
        #[trigger] front[j]).0@ by {
            assert(front[i] == entries[i] && front[j] == entries[j]);
        }
        assert forall|i: int| 0 <= i < front.len() implies (#[trigger] front[i]).0@
            == front[i].1.name@ by {
            assert(front[i] == entries[i]);
        }
        lemma_count_listed(front, name);
        assert(listed_processes(entries).drop_last() =~= listed_processes(front));
        assert(entries[last] == entries.last());
        if has_name(front, name) {
            let i = choose|i: int| 0 <= i < front.len() && (#[trigger] front[i]).0@ == name;
            assert(entries[i].0@ == name);
        } else if entries[last].0@ != name {
            if has_name(entries, name) {
                let i = choose|i: int| 0 <= i < entries.len() && (#[trigger] entries[i]).0@ == name;
                assert(front[i].0@ == name);
            }
        }
    }
}

/// When the supervisor begins its work, each process is in its care once at most:
/// what was not taken over is queued once, and what was taken over is not queued.
pub proof fn law_each_process_is_there_once(
    entries: Seq<(String, Process)>,
    readings: Seq<i64>,
    children: Map<i32, Child>,
    sockets: Map<u16, Socket>,
    notices: Seq<NoticeView>,
    name: Seq<char>,
)
    requires
        has_unique_names(entries),
        children.dom().finite(),
        is_consistent(
            Recovery { children: known(children), configs: as_map(entries), notices },
        ),
    ensures
        total(
            State {
                queue: scheduled(entries, readings),
                children,
                sockets,
                phase: PhaseView::Clock,
            },
            name,
        ) <= 1,
{
    let found = Recovery { children: known(children), configs: as_map(entries), notices };
    assert forall|i: int| 0 <= i < entries.len() implies (#[trigger] entries[i]).0@
        == entries[i].1.name@ by {
        lemma_listed(entries, i);
    }
    lemma_count_scheduled(entries, readings, named(name));
    lemma_count_listed(entries, name);
    let pids = pids_of(children, named(name));
    assert forall|pid: i32| #[trigger] pids.contains(pid) implies found.children.contains_key(pid)
        && is_process_called(found.children[pid], name) by {}
    if has_name(entries, name) {
        assert(found.configs.contains_key(name));
        assert(pids =~= Set::<i32>::empty());
    } else if pids.len() > 0 {
        let a = pids.choose();
        assert(pids.contains(a));
        assert(pids =~= Set::<i32>::empty().insert(a)) by {
            assert forall|b: i32| pids.contains(b) implies b == a by {
                assert(is_process_called(found.children[a], name));
                assert(is_process_called(found.children[b], name));
            }
        }
    }
}

/// A process that was started is a child, and is to rest for its restart timeout
/// from the beginning of the round in which it was started.
pub proof fn law_started_process_becomes_a_child(
    pre: State,
    pid: i32,
    post: State,
    action: ActionView,
)
    requires
        pre.phase is Spawning,
        is_step(pre, Event::Spawned(pid), post, action),
    ensures
        post.children.contains_key(pid),
        post.children[pid] matches Child::Process(process) && process.name
            == pre.phase->Spawning_process.name && process.restart_min
            == pre.phase->Spawning_round.now + process.inner_config.restart_timeout * 1_000_000,
{
    let round = pre.phase->Spawning_round;
    let process = pre.phase->Spawning_process;
    let next = State {
        children: pre.children.insert(pid, Child::Process(started(round, process))),
        ..pre
    };
    assert(goes_on(next, round, post, action));
    assert(post.children == next.children);
    let millis = process.inner_config.restart_timeout;
    assert(i128::MIN <= round.now + millis * 1_000_000 <= i128::MAX);
}

/// A process that has ended waits in the queue for the end of its rest.
pub proof fn law_ended_process_waits(pre: State, pid: i32, post: State, action: ActionView)
    requires
        pre.inv(),
        pre.phase is Reaping,
        pre.children.contains_key(pid),
        pre.children[pid] is Process,
        is_step(pre, Event::Exited(pid), post, action),
    ensures
        !post.children.contains_key(pid),
        ({
            let process = pre.children[pid]->Process_0;
            post.queue.contains((process.restart_min, process))
        }),
{
    let process = pre.children[pid]->Process_0;
    lemma_due_count(pre.queue, process.restart_min);
    let k = due_count(pre.queue, process.restart_min) as int;
    assert(post.queue[k] == (process.restart_min, process));
}

/// A child that no configuration asks for is not started again when it ends.
pub proof fn law_unidentified_child_is_not_restarted(
    pre: State,
    pid: i32,
    post: State,
    action: ActionView,
)
    requires
        pre.phase is Reaping,
        pre.children.contains_key(pid),
        pre.children[pid] is Unidentified,
        is_step(pre, Event::Exited(pid), post, action),
    ensures
        post.queue == pre.queue,
        post.children == pre.children.remove(pid),
        post.phase == pre.phase,
{
}

/// What was put back stays in the queue.
proof fn lemma_requeued_keeps(
    queue: Seq<(i128, Process)>,
    failed: Seq<(i128, Process)>,
    entry: (i128, Process),
)
    requires
        is_sorted(queue),
        queue.contains(entry),
    ensures
        is_sorted(requeued(queue, failed)),
        requeued(queue, failed).contains(entry),
    decreases failed.len(),
{
    if failed.len() > 0 {
        let before = requeued(queue, failed.drop_last());
        lemma_requeued_keeps(queue, failed.drop_last(), entry);
        let (time, process) = failed.last();
        lemma_with_entry_sorted(before, time, process);
        lemma_due_count(before, time);
        let k = due_count(before, time) as int;
        let i = choose|i: int| 0 <= i < before.len() && before[i] == entry;
        let after = requeued(queue, failed);
        if i < k {
            assert(after[i] == entry);
        } else {
            assert(after[i + 1] == entry);
        }
    }
}

/// No process is started before its time: when a round begins, what is due later
/// stays in the queue.
pub proof fn law_nothing_is_started_early(
    pre: State,
    now: i64,
    post: State,
    action: ActionView,
    entry: (i128, Process),
)
    requires
        pre.inv(),
        pre.phase is Clock,
        is_step(pre, Event::Time(now), post, action),
        pre.queue.contains(entry),
        entry.0 > now,
    ensures
        post.queue.contains(entry),
{
    let n = due_count(pre.queue, now as i128) as int;
    lemma_due_count(pre.queue, now as i128);
    let i = choose|i: int| 0 <= i < pre.queue.len() && pre.queue[i] == entry;
    let rest = pre.queue.skip(n);
    assert(rest[i - n] == entry);
    assert forall|a: int, b: int| 0 <= a < b < rest.len() implies (#[trigger] rest[a]).0 <= (
    #[trigger] rest[b]).0 by {
        assert(rest[a] == pre.queue[n + a] && rest[b] == pre.queue[n + b]);
    }
    lemma_requeued_keeps(rest, Seq::empty(), entry);
}

/// What is due is started without waiting: when a round begins and a process is
/// due, the supervisor turns to a process that is.
pub proof fn law_what_is_due_is_started(
    pre: State,
    now: i64,
    post: State,
    action: ActionView,
    entry: (i128, Process),
)
    requires
        pre.inv(),
        pre.phase is Clock,
        is_step(pre, Event::Time(now), post, action),
        pre.queue.contains(entry),
        entry.0 <= now,
    ensures
        action is Open || action is Spawn || action is CannotPass,
        post.phase is Opening || post.phase is Spawning,
        !(post.phase is Waiting),
        pre.queue[0].0 <= now,
        in_phase(post.phase, named(pre.queue[0].1.name@)) > 0,
{
    let n = due_count(pre.queue, now as i128) as int;
    lemma_due_count(pre.queue, now as i128);
    let i = choose|i: int| 0 <= i < pre.queue.len() && pre.queue[i] == entry;
    assert(i < n);
    let due = items(pre.queue.take(n));
    assert(due.len() > 0);
    assert(due[0] == pre.queue[0].1);
}

/// The processes that a phase still has to turn to.
pub open spec fn still_due(phase: PhaseView) -> nat {
    match phase {
        PhaseView::Opening { round, .. } => round.due.len(),
        PhaseView::Spawning { round, .. } => round.due.len(),
        _ => 0,
    }
}

/// What is still to be done about the process at hand.
pub open spec fn still_to_do(phase: PhaseView) -> nat {
    match phase {
        PhaseView::Opening { ports, .. } => ports.len() + 1,
        _ => 0,
    }
}

/// A round comes to its end: with every step in it there is less to be done,
/// about the process at hand or about those that are due after it, until the
/// supervisor waits.
pub proof fn law_a_round_comes_to_its_end(
    pre: State,
    event: Event,
    post: State,
    action: ActionView,
)
    requires
        pre.phase is Opening || pre.phase is Spawning,
        is_step(pre, event, post, action),
        !(action is Unexpected),
    ensures
        post.phase is Waiting || post.phase is Opening || post.phase is Spawning,
        post.phase is Waiting || still_due(post.phase) < still_due(pre.phase) || (still_due(
            post.phase,
        ) == still_due(pre.phase) && still_to_do(post.phase) < still_to_do(pre.phase)),
{
}

/// The supervisor waits no longer than until a process comes due.
pub proof fn law_waits_for_the_first_deadline(
    pre: State,
    event: Event,
    post: State,
    action: ActionView,
)
    requires
        is_step(pre, event, post, action),
        action is Wait,
    ensures
        post.phase is Waiting,
        action->deadline == next_deadline(post.queue),
{
}

/// While the supervisor waits for a signal, it holds no socket that no child
/// uses.
pub proof fn law_waiting_holds_used_sockets_only(
    pre: State,
    event: Event,
    post: State,
    action: ActionView,
)
    requires
        is_step(pre, event, post, action),
        pre.phase is Waiting ==> pre.sockets == used_sockets(pre.sockets, pre.children),
    ensures
        post.phase is Waiting ==> post.sockets == used_sockets(post.sockets, post.children),
{
    match (pre.phase, event) {
        (PhaseView::Clock, Event::Time(now)) => {
            let n = due_count(pre.queue, now as i128) as int;
            lemma_round_sockets(
                State { queue: pre.queue.skip(n), ..pre },
                RoundView { now, due: items(pre.queue.take(n)), failed: Seq::empty() },
                post,
                action,
            );
        },
        (PhaseView::Opening { round, process, ports }, Event::OpenFailed) => {
            if ports.len() > 0 {
                lemma_round_sockets(pre, with_failed(round, process), post, action);
            }
        },
        (PhaseView::Spawning { round, process }, Event::Spawned(pid)) => {
            let child = Child::Process(started(round, process));
            lemma_round_sockets(
                State { children: pre.children.insert(pid, child), ..pre },
                round,
                post,
                action,
            );
        },
        (PhaseView::Spawning { round, process }, Event::SpawnFailed) => {
            lemma_round_sockets(pre, with_failed(round, process), post, action);
        },
        _ => {},
    }
}

proof fn lemma_round_sockets(pre: State, round: RoundView, post: State, action: ActionView)
    requires
        goes_on(pre, round, post, action),
    ensures
        post.phase is Waiting ==> post.sockets == used_sockets(post.sockets, post.children),
{
    law_closing_twice_is_closing_once(pre.sockets, pre.children);
}

} // verus!
