//! How far the tries to start a process lie apart, over whole runs of the
//! supervisor.
use vstd::prelude::*;

use crate::accounting::{count, in_phase, in_round, named, pids_of, runs_as, total};
use crate::config::bear_their_names;
use crate::event::Event;
use crate::process::{time_after, Child, ContainerConfig, Process};
use crate::queue::{
    due_count, is_sorted, items, lemma_due_count, lemma_with_entry_sorted, with_entry,
};
use crate::recovery::ProcEntry;
use crate::runs::{is_beginning, law_beginning_has_each_process_once, lemma_run, Run};
use crate::supervisor::{
    goes_on, is_step, requeued, started, with_failed, ActionView, PhaseView, RoundView, State,
};

verus! {

/// The process that is being tried, with the round in which it is.
pub open spec fn trying(state: State) -> Option<(RoundView, Process)> {
    match state.phase {
        PhaseView::Opening { round, process, .. } => Some((round, process)),
        PhaseView::Spawning { round, process } => Some((round, process)),
        _ => None,
    }
}

/// Whether the process `name` is being tried.
pub open spec fn is_tried(state: State, name: Seq<char>) -> bool {
    trying(state) matches Some((_, process)) && process.name@ == name
}

/// When the round began in which a process is being tried.
pub open spec fn try_time(state: State) -> i64 {
    (trying(state)->0).0.now
}

/// The configuration of the process that is being tried.
pub open spec fn tried_config(state: State) -> ContainerConfig {
    (trying(state)->0).1.inner_config
}

/// Whether `process`, if it is `name`, has the configuration `config` and is kept
/// until `until` at least when it is kept until `time`.
pub open spec fn is_kept(
    process: Process,
    time: int,
    name: Seq<char>,
    until: int,
    config: ContainerConfig,
) -> bool {
    process.name@ == name ==> time >= until && process.inner_config == config
}

/// Whether all the entries of a queue are kept.
pub open spec fn are_kept(
    entries: Seq<(i128, Process)>,
    name: Seq<char>,
    until: int,
    config: ContainerConfig,
) -> bool {
    forall|i: int|
        0 <= i < entries.len() ==> is_kept(
            (#[trigger] entries[i]).1,
            entries[i].0 as int,
            name,
            until,
            config,
        )
}

/// Whether all the processes that are due at `now` are kept.
pub open spec fn are_due_late(
    due: Seq<Process>,
    now: i64,
    name: Seq<char>,
    until: int,
    config: ContainerConfig,
) -> bool {
    forall|i: int|
        0 <= i < due.len() ==> is_kept(#[trigger] due[i], now as int, name, until, config)
}

/// Whether all the children are to be kept when they end.
pub open spec fn are_children_kept(
    children: Map<i32, Child>,
    name: Seq<char>,
    until: int,
    config: ContainerConfig,
) -> bool {
    forall|pid: i32| #[trigger]
        children.contains_key(pid) ==> (children[pid] matches Child::Process(process) ==> is_kept(
            process,
            process.restart_min as int,
            name,
            until,
            config,
        ))
}

/// Whether a round turns to `name` at `until` or later only.
pub open spec fn is_round_late(
    round: RoundView,
    name: Seq<char>,
    until: int,
    config: ContainerConfig,
) -> bool {
    are_due_late(round.due, round.now, name, until, config) && are_kept(
        round.failed,
        name,
        until,
        config,
    )
}

/// Whether the process `name` rests until `until`: wherever it is held, it is held
/// until then, and if it is due or tried, that time has come.
pub open spec fn rests(state: State, name: Seq<char>, until: int, config: ContainerConfig) -> bool {
    &&& are_kept(state.queue, name, until, config)
    &&& are_children_kept(state.children, name, until, config)
    &&& trying(state) matches Some((round, process)) ==> is_round_late(round, name, until, config)
        && is_kept(process, round.now as int, name, until, config)
}

proof fn lemma_kept_entry(
    entries: Seq<(i128, Process)>,
    time: i128,
    process: Process,
    name: Seq<char>,
    until: int,
    config: ContainerConfig,
)
    requires
        is_sorted(entries),
        are_kept(entries, name, until, config),
        is_kept(process, time as int, name, until, config),
    ensures
        are_kept(with_entry(entries, time, process), name, until, config),
{
    lemma_due_count(entries, time);
    let k = due_count(entries, time) as int;
    let after = with_entry(entries, time, process);
    assert forall|i: int| 0 <= i < after.len() implies is_kept(
        (#[trigger] after[i]).1,
        after[i].0 as int,
        name,
        until,
        config,
    ) by {
        if i < k {
            assert(after[i] == entries[i]);
        } else if i > k {
            assert(after[i] == entries[i - 1]);
        }
    }
}

proof fn lemma_kept_requeued(
    queue: Seq<(i128, Process)>,
    failed: Seq<(i128, Process)>,
    name: Seq<char>,
    until: int,
    config: ContainerConfig,
)
    requires
        is_sorted(queue),
        are_kept(queue, name, until, config),
        are_kept(failed, name, until, config),
    ensures
        is_sorted(requeued(queue, failed)),
        are_kept(requeued(queue, failed), name, until, config),
    decreases failed.len(),
{
    if failed.len() > 0 {
        let front = failed.drop_last();
        assert forall|i: int| 0 <= i < front.len() implies is_kept(
            (#[trigger] front[i]).1,
            front[i].0 as int,
            name,
            until,
            config,
        ) by {
            assert(front[i] == failed[i]);
        }
        lemma_kept_requeued(queue, front, name, until, config);
        assert(failed[failed.len() - 1] == failed.last());
        lemma_with_entry_sorted(requeued(queue, front), failed.last().0, failed.last().1);
        lemma_kept_entry(
            requeued(queue, front),
            failed.last().0,
            failed.last().1,
            name,
            until,
            config,
        );
    }
}

/// How a round goes on leaves a process at rest.
proof fn lemma_round_rests(
    pre: State,
    round: RoundView,
    post: State,
    action: ActionView,
    name: Seq<char>,
    until: int,
    config: ContainerConfig,
)
    requires
        is_sorted(pre.queue),
        are_kept(pre.queue, name, until, config),
        are_children_kept(pre.children, name, until, config),
        is_round_late(round, name, until, config),
        goes_on(pre, round, post, action),
    ensures
        rests(post, name, until, config),
{
    if round.due.len() == 0 {
        lemma_kept_requeued(pre.queue, round.failed, name, until, config);
    } else {
        let rest = round.due.skip(1);
        assert forall|i: int| 0 <= i < rest.len() implies is_kept(
            #[trigger] rest[i],
            round.now as int,
            name,
            until,
            config,
        ) by {
            assert(rest[i] == round.due[i + 1]);
        }
        assert(is_kept(round.due[0], round.now as int, name, until, config));
    }
}

proof fn lemma_kept_failed(
    round: RoundView,
    process: Process,
    name: Seq<char>,
    until: int,
    config: ContainerConfig,
)
    requires
        is_round_late(round, name, until, config),
        is_kept(
            process,
            time_after(round.now, process.inner_config.restart_timeout) as int,
            name,
            until,
            config,
        ),
    ensures
        is_round_late(with_failed(round, process), name, until, config),
{
    let after = with_failed(round, process).failed;
    assert forall|i: int| 0 <= i < after.len() implies is_kept(
        (#[trigger] after[i]).1,
        after[i].0 as int,
        name,
        until,
        config,
    ) by {
        if i < round.failed.len() {
            assert(after[i] == round.failed[i]);
        }
    }
}

/// As long as it is not tried, a process that rests goes on to rest.
proof fn lemma_rest_goes_on(
    pre: State,
    event: Event,
    post: State,
    action: ActionView,
    name: Seq<char>,
    until: int,
    config: ContainerConfig,
)
    requires
        pre.inv(),
        is_step(pre, event, post, action),
        rests(pre, name, until, config),
        !is_tried(pre, name),
    ensures
        rests(post, name, until, config),
{
    match (pre.phase, event) {
        (PhaseView::Clock, Event::Time(now)) => {
            let n = due_count(pre.queue, now as i128) as int;
            lemma_due_count(pre.queue, now as i128);
            let rest = State { queue: pre.queue.skip(n), ..pre };
            let due = items(pre.queue.take(n));
            assert forall|i: int, j: int| 0 <= i < j < rest.queue.len() implies (
            #[trigger] rest.queue[i]).0 <= (#[trigger] rest.queue[j]).0 by {
                assert(rest.queue[i] == pre.queue[n + i] && rest.queue[j] == pre.queue[n + j]);
            }
            assert forall|i: int| 0 <= i < rest.queue.len() implies is_kept(
                (#[trigger] rest.queue[i]).1,
                rest.queue[i].0 as int,
                name,
                until,
                config,
            ) by {
                assert(rest.queue[i] == pre.queue[n + i]);
            }
            assert forall|i: int| 0 <= i < due.len() implies is_kept(
                #[trigger] due[i],
                now as int,
                name,
                until,
                config,
            ) by {
                assert(due[i] == pre.queue[i].1);
                assert(pre.queue[i].0 <= now);
            }
            let round = RoundView { now, due, failed: Seq::empty() };
            lemma_round_rests(rest, round, post, action, name, until, config);
        },
        (PhaseView::Opening { round, process, ports }, Event::OpenFailed) => {
            if ports.len() > 0 {
                lemma_kept_failed(round, process, name, until, config);
                let after = with_failed(round, process);
                lemma_round_rests(pre, after, post, action, name, until, config);
            }
        },
        (PhaseView::Spawning { round, process }, Event::Spawned(pid)) => {
            let child = Child::Process(started(round, process));
            let next = State { children: pre.children.insert(pid, child), ..pre };
            lemma_round_rests(next, round, post, action, name, until, config);
        },
        (PhaseView::Spawning { round, process }, Event::SpawnFailed) => {
            lemma_kept_failed(round, process, name, until, config);
            let after = with_failed(round, process);
            lemma_round_rests(pre, after, post, action, name, until, config);
        },
        (PhaseView::Reaping, Event::Exited(pid)) => {
            if pre.children.contains_key(pid) {
                if let Child::Process(process) = pre.children[pid] {
                    let time = process.restart_min;
                    lemma_kept_entry(pre.queue, time, process, name, until, config);
                }
            }
        },
        _ => {},
    }
}

/// A list that counts none of a name holds none.
proof fn lemma_count_none(s: Seq<Process>, name: Seq<char>)
    requires
        count(s, named(name)) == 0,
    ensures
        forall|i: int| 0 <= i < s.len() ==> (#[trigger] s[i]).name@ != name,
    decreases s.len(),
{
    if s.len() > 0 {
        let front = s.drop_last();
        lemma_count_none(front, name);
        assert forall|i: int| 0 <= i < s.len() implies (#[trigger] s[i]).name@ != name by {
            if i < front.len() {
                assert(s[i] == front[i]);
            }
        }
    }
}

/// A process that is tried and that there is one of at most is nowhere else.
proof fn lemma_tried_is_nowhere_else(
    state: State,
    name: Seq<char>,
    until: int,
    config: ContainerConfig,
)
    requires
        state.inv(),
        total(state, name) <= 1,
        is_tried(state, name),
    ensures
        are_kept(state.queue, name, until, config),
        are_children_kept(state.children, name, until, config),
        is_round_late((trying(state)->0).0, name, until, config),
        forall|i: int|
            0 <= i < (trying(state)->0).0.due.len() ==> (#[trigger] (trying(state)->0).0.due[i]).name@
                != name,
{
    let round = (trying(state)->0).0;
    assert(in_phase(state.phase, named(name)) == in_round(round, named(name)) + 1);
    lemma_count_none(items(state.queue), name);
    lemma_count_none(round.due, name);
    lemma_count_none(items(round.failed), name);
    assert forall|i: int| 0 <= i < state.queue.len() implies is_kept(
        (#[trigger] state.queue[i]).1,
        state.queue[i].0 as int,
        name,
        until,
        config,
    ) by {
        assert(items(state.queue)[i] == state.queue[i].1);
    }
    assert forall|i: int| 0 <= i < round.failed.len() implies is_kept(
        (#[trigger] round.failed[i]).1,
        round.failed[i].0 as int,
        name,
        until,
        config,
    ) by {
        assert(items(round.failed)[i] == round.failed[i].1);
    }
    let pids = pids_of(state.children, named(name));
    assert(pids.finite() && pids.len() == 0);
    assert forall|pid: i32| #[trigger] state.children.contains_key(pid) implies !runs_as(
        state.children[pid],
        named(name),
    ) by {
        assert(!pids.contains(pid));
    }
}

/// When the try of a process ends, the process rests for its timeout, from the
/// beginning of the round in which it was tried: whether it was started or not.
pub proof fn law_tried_process_rests(
    pre: State,
    event: Event,
    post: State,
    action: ActionView,
    name: Seq<char>,
)
    requires
        pre.inv(),
        total(pre, name) <= 1,
        is_tried(pre, name),
        is_step(pre, event, post, action),
        !is_tried(post, name),
    ensures
        rests(
            post,
            name,
            try_time(pre) + tried_config(pre).restart_timeout * 1_000_000,
            tried_config(pre),
        ),
{
    let (round, process) = trying(pre)->0;
    let config = process.inner_config;
    let until = round.now + config.restart_timeout * 1_000_000;
    assert(i128::MIN <= until <= i128::MAX);
    assert(time_after(round.now, config.restart_timeout) == until);
    lemma_tried_is_nowhere_else(pre, name, until, config);
    match (pre.phase, event) {
        (PhaseView::Opening { ports, .. }, Event::OpenFailed) => {
            if ports.len() > 0 {
                lemma_kept_failed(round, process, name, until, config);
                let after = with_failed(round, process);
                lemma_round_rests(pre, after, post, action, name, until, config);
            }
        },
        (PhaseView::Spawning { .. }, Event::Spawned(pid)) => {
            let child = Child::Process(started(round, process));
            let next = State { children: pre.children.insert(pid, child), ..pre };
            lemma_round_rests(next, round, post, action, name, until, config);
        },
        (PhaseView::Spawning { .. }, Event::SpawnFailed) => {
            lemma_kept_failed(round, process, name, until, config);
            let after = with_failed(round, process);
            lemma_round_rests(pre, after, post, action, name, until, config);
        },
        _ => {},
    }
}

/// As long as a process is being tried, it is one try, in one round.
proof fn lemma_try_goes_on(
    pre: State,
    event: Event,
    post: State,
    action: ActionView,
    name: Seq<char>,
)
    requires
        pre.inv(),
        total(pre, name) <= 1,
        is_tried(pre, name),
        is_step(pre, event, post, action),
        is_tried(post, name),
    ensures
        try_time(post) == try_time(pre),
        tried_config(post) == tried_config(pre),
{
    lemma_tried_is_nowhere_else(pre, name, 0, tried_config(pre));
}

/// A try takes place in one round.
proof fn lemma_one_try(run: Run, name: Seq<char>, first: int, last: int)
    requires
        run.well_formed(),
        total(run.states[0], name) <= 1,
        0 <= first <= last < run.states.len(),
        forall|k: int| first <= k <= last ==> is_tried(#[trigger] run.states[k], name),
    ensures
        try_time(run.states[last]) == try_time(run.states[first]),
        tried_config(run.states[last]) == tried_config(run.states[first]),
    decreases last - first,
{
    if first < last {
        let k = last - 1;
        lemma_one_try(run, name, first, k);
        lemma_run(run, named(name), k);
        assert(is_step(run.states[k], run.events[k], run.states[k + 1], run.actions[k]));
        lemma_try_goes_on(run.states[k], run.events[k], run.states[last], run.actions[k], name);
    }
}

/// After a try the process rests until it is tried again.
proof fn lemma_rests_between(run: Run, name: Seq<char>, last: int, k: int)
    requires
        run.well_formed(),
        total(run.states[0], name) <= 1,
        0 <= last < k < run.states.len(),
        is_tried(run.states[last], name),
        !is_tried(run.states[last + 1], name),
        forall|m: int| last < m < k ==> !is_tried(#[trigger] run.states[m], name),
    ensures
        rests(
            run.states[k],
            name,
            try_time(run.states[last]) + tried_config(run.states[last]).restart_timeout
                * 1_000_000,
            tried_config(run.states[last]),
        ),
    decreases k - last,
{
    let pre = run.states[k - 1];
    let event = run.events[k - 1];
    let post = run.states[k];
    let action = run.actions[k - 1];
    assert(is_step(pre, event, post, action));
    lemma_run(run, named(name), k - 1);
    if k == last + 1 {
        law_tried_process_rests(pre, event, post, action, name);
    } else {
        lemma_rests_between(run, name, last, k - 1);
        let config = tried_config(run.states[last]);
        let until = try_time(run.states[last]) + config.restart_timeout * 1_000_000;
        lemma_rest_goes_on(pre, event, post, action, name, until, config);
    }
}

/// Two tries of a process lie at least its restart timeout apart, over whole runs:
/// whether the process could not be started the first time, or ran and has ended
/// since. What counts are the times at which the rounds of the tries began.
///
/// The process is being tried from the place `first` of the run to the place
/// `last`, and next at the place `next`. It is the only one of its name.
pub proof fn law_tries_lie_apart(run: Run, name: Seq<char>, first: int, last: int, next: int)
    requires
        run.well_formed(),
        total(run.states[0], name) <= 1,
        0 <= first <= last,
        last + 1 < next < run.states.len(),
        forall|k: int| first <= k <= last ==> is_tried(#[trigger] run.states[k], name),
        forall|k: int| last < k < next ==> !is_tried(#[trigger] run.states[k], name),
        is_tried(run.states[next], name),
    ensures
        tried_config(run.states[next]) == tried_config(run.states[first]),
        try_time(run.states[next]) - try_time(run.states[first]) >= tried_config(
            run.states[first],
        ).restart_timeout * 1_000_000,
{
    lemma_one_try(run, name, first, last);
    assert(is_tried(run.states[last], name));
    assert(!is_tried(run.states[last + 1], name));
    lemma_rests_between(run, name, last, next);
}

/// From the beginning of the supervisor's work on, two tries of any process lie at
/// least its restart timeout apart: whatever was configured, was found running, and
/// has happened since.
pub proof fn law_tries_lie_apart_from_the_beginning(
    run: Run,
    processes: Seq<(String, Process)>,
    entries: Seq<ProcEntry>,
    mypid: i32,
    config_file: Seq<char>,
    readings: Seq<i64>,
    name: Seq<char>,
    first: int,
    last: int,
    next: int,
)
    requires
        run.well_formed(),
        bear_their_names(processes),
        is_beginning(run.states[0], processes, entries, mypid, config_file, readings),
        0 <= first <= last,
        last + 1 < next < run.states.len(),
        forall|k: int| first <= k <= last ==> is_tried(#[trigger] run.states[k], name),
        forall|k: int| last < k < next ==> !is_tried(#[trigger] run.states[k], name),
        is_tried(run.states[next], name),
    ensures
        tried_config(run.states[next]) == tried_config(run.states[first]),
        try_time(run.states[next]) - try_time(run.states[first]) >= tried_config(
            run.states[first],
        ).restart_timeout * 1_000_000,
{
    law_beginning_has_each_process_once(
        run.states[0],
        processes,
        entries,
        mypid,
        config_file,
        readings,
        name,
    );
    law_tries_lie_apart(run, name, first, last, next);
}

} // verus!
