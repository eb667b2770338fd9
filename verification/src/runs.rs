//! What stays true over whole runs of the supervisor, and what holds when one
//! begins.
use vstd::prelude::*;
use vstd::set_lib::{lemma_len_subset, lemma_set_disjoint_lens};

use crate::accounting::{
    count, described, is_held, is_lasting, law_each_process_is_there_once, law_every_count_stays,
    law_no_count_grows, law_steps_keep_the_invariant, named, pids_of, total, total_of, Identity,
    Property,
};
use crate::config::{
    bear_their_names, collected, law_every_worker_is_queued,
    law_processes_are_listed_under_their_names, scheduled,
};
use crate::event::Event;
use crate::process::{known, Process};
use crate::queue::items;
use crate::recovery::{after_entries, law_recovery_keeps_consistency, ProcEntry, Recovery};
use crate::supervisor::{is_step, ActionView, PhaseView, State};
use crate::table::{as_map, has_unique_names};

verus! {

/// A run of the supervisor: the states that it goes through, and between each of
/// them and the next an event and the action that it led to.
pub struct Run {
    pub states: Seq<State>,
    pub events: Seq<Event>,
    pub actions: Seq<ActionView>,
}

impl Run {
    /// Whether every state follows from the one before.
    pub open spec fn well_formed(self) -> bool {
        &&& self.states.len() > 0
        &&& self.events.len() == self.states.len() - 1
        &&& self.actions.len() == self.states.len() - 1
        &&& self.states[0].inv()
        &&& forall|k: int|
            0 <= k < self.states.len() - 1 ==> is_step(
                self.states[k],
                #[trigger] self.events[k],
                self.states[k + 1],
                self.actions[k],
            )
    }

    /// Whether every process that is started gets a pid that no child has.
    pub open spec fn has_fresh_pids(self) -> bool {
        forall|k: int|
            0 <= k < self.events.len() ==> (#[trigger] self.events[k] matches Event::Spawned(pid)
                ==> !self.states[k].children.contains_key(pid))
    }
}

/// What holds of every state holds throughout a run, and with no step do more
/// processes with a lasting property come into the supervisor's care.
pub proof fn lemma_run(run: Run, of: Property, k: int)
    requires
        run.well_formed(),
        is_lasting(of),
        0 <= k < run.states.len(),
    ensures
        run.states[k].inv(),
        total_of(run.states[k], of) <= total_of(run.states[0], of),
    decreases k,
{
    if k > 0 {
        lemma_run(run, of, k - 1);
        let pre = run.states[k - 1];
        let event = run.events[k - 1];
        let post = run.states[k];
        let action = run.actions[k - 1];
        assert(is_step(pre, event, post, action));
        law_steps_keep_the_invariant(pre, event, post, action);
        law_no_count_grows(pre, event, post, action, of);
    }
}

proof fn lemma_count_stays(run: Run, of: Property, k: int)
    requires
        run.well_formed(),
        run.has_fresh_pids(),
        is_lasting(of),
        0 <= k < run.states.len(),
    ensures
        total_of(run.states[k], of) == total_of(run.states[0], of),
    decreases k,
{
    if k > 0 {
        lemma_count_stays(run, of, k - 1);
        lemma_run(run, of, k - 1);
        let pre = run.states[k - 1];
        let event = run.events[k - 1];
        let post = run.states[k];
        let action = run.actions[k - 1];
        assert(is_step(pre, event, post, action));
        law_every_count_stays(pre, event, post, action, of);
    }
}

/// No process gets lost and none is doubled in a whole run: each is in the
/// supervisor's care as often at the end as at the beginning.
pub proof fn law_no_process_is_lost_in_a_run(run: Run, name: Seq<char>)
    requires
        run.well_formed(),
        run.has_fresh_pids(),
    ensures
        total(run.states.last(), name) == total(run.states[0], name),
{
    lemma_count_stays(run, named(name), run.states.len() - 1);
}

/// The processes in the supervisor's care at the end of a run are those at its
/// beginning, with the same names, configurations, ports, programs, arguments and
/// environments.
pub proof fn law_processes_stay_themselves(run: Run, who: Identity)
    requires
        run.well_formed(),
        run.has_fresh_pids(),
    ensures
        total_of(run.states.last(), described(who)) == total_of(run.states[0], described(who)),
        is_held(run.states.last(), who) <==> is_held(run.states[0], who),
{
    lemma_count_stays(run, described(who), run.states.len() - 1);
}

/// A process keeps its configuration and its ports in a whole run: what is in the
/// supervisor's care under a name at any time is what was there at the beginning,
/// where that was one process.
pub proof fn law_process_keeps_its_configuration(run: Run, k: int, a: Identity, b: Identity)
    requires
        run.well_formed(),
        0 <= k < run.states.len(),
        total(run.states[0], a.name@) <= 1,
        is_held(run.states[0], a),
        is_held(run.states[k], b),
        a.name@ == b.name@,
    ensures
        b.config == a.config,
        b.inner_config == a.inner_config,
        b.ports == a.ports,
        b == a,
{
    lemma_run(run, described(b), k);
    if a != b {
        lemma_apart(run.states[0], described(a), described(b), named(a.name@));
    }
}

/// Processes with one of two properties that exclude each other are counted
/// together under one that both imply.
proof fn lemma_apart(state: State, a: Property, b: Property, either: Property)
    requires
        state.children.dom().finite(),
        forall|process: Process| !(#[trigger] a(process) && b(process)),
        forall|process: Process| #[trigger] a(process) ==> either(process),
        forall|process: Process| #[trigger] b(process) ==> either(process),
    ensures
        total_of(state, a) + total_of(state, b) <= total_of(state, either),
{
    lemma_count_apart(items(state.queue), a, b, either);
    match state.phase {
        PhaseView::Opening { round, .. } => {
            lemma_count_apart(round.due, a, b, either);
            lemma_count_apart(items(round.failed), a, b, either);
        },
        PhaseView::Spawning { round, .. } => {
            lemma_count_apart(round.due, a, b, either);
            lemma_count_apart(items(round.failed), a, b, either);
        },
        _ => {},
    }
    let x = pids_of(state.children, a);
    let y = pids_of(state.children, b);
    let all = pids_of(state.children, either);
    assert(x.disjoint(y));
    lemma_set_disjoint_lens(x, y);
    assert((x + y).subset_of(all));
    lemma_len_subset(x + y, all);
}

proof fn lemma_count_apart(s: Seq<Process>, a: Property, b: Property, either: Property)
    requires
        forall|process: Process| !(#[trigger] a(process) && b(process)),
        forall|process: Process| #[trigger] a(process) ==> either(process),
        forall|process: Process| #[trigger] b(process) ==> either(process),
    ensures
        count(s, a) + count(s, b) <= count(s, either),
    decreases s.len(),
{
    if s.len() > 0 {
        lemma_count_apart(s.drop_last(), a, b, either);
    }
}

/// Whether `state` is how the supervisor begins its work: `processes` are those of
/// the sandboxes, the children were taken over among the processes that `/proc`
/// shows, and all that was not taken over is queued.
pub open spec fn is_beginning(
    state: State,
    processes: Seq<(String, Process)>,
    entries: Seq<ProcEntry>,
    mypid: i32,
    config_file: Seq<char>,
    readings: Seq<i64>,
) -> bool {
    let found = after_entries(
        Recovery {
            children: Map::empty(),
            configs: collected(processes),
            notices: Seq::empty(),
        },
        entries,
        mypid,
        config_file,
    );
    &&& state.phase == PhaseView::Clock
    &&& state.children.dom().finite()
    &&& known(state.children) == found.children
    &&& exists|workers: Seq<(String, Process)>|
        has_unique_names(workers) && as_map(workers) == found.configs && state.queue
            == #[trigger] scheduled(workers, readings)
}

/// When the supervisor begins its work, whatever it has found, each process is in
/// its care once at most.
pub proof fn law_beginning_has_each_process_once(
    state: State,
    processes: Seq<(String, Process)>,
    entries: Seq<ProcEntry>,
    mypid: i32,
    config_file: Seq<char>,
    readings: Seq<i64>,
    name: Seq<char>,
)
    requires
        bear_their_names(processes),
        is_beginning(state, processes, entries, mypid, config_file, readings),
    ensures
        state.inv(),
        total(state, name) <= 1,
{
    let start = Recovery {
        children: Map::empty(),
        configs: collected(processes),
        notices: Seq::empty(),
    };
    let found = after_entries(start, entries, mypid, config_file);
    assert forall|other: Seq<char>| #[trigger]
        start.configs.contains_key(other) implies start.configs[other].name@ == other by {
        law_processes_are_listed_under_their_names(processes, other);
    }
    law_recovery_keeps_consistency(start, entries, mypid, config_file);
    let workers = choose|workers: Seq<(String, Process)>|
        has_unique_names(workers) && as_map(workers) == found.configs && state.queue
            == #[trigger] scheduled(workers, readings);
    law_every_worker_is_queued(workers, readings);
    law_each_process_is_there_once(
        workers,
        readings,
        state.children,
        state.sockets,
        found.notices,
        name,
    );
}

} // verus!
