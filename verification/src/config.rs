//! From the configuration of the sandboxes to the processes to be run.
use vstd::prelude::*;

use crate::command::{
    child_command, new_child, Binaries, CommandView, Environment, LogOptions, Word, WordView,
};
use crate::maps::keys_of;
use crate::places::{are_places, lemma_one_more_place};
use crate::process::{restart_time, time_after, ContainerConfig, Process};
use crate::queue::{
    due_count, is_sorted, lemma_due_count, lemma_with_entry_sorted, with_entry, Queue,
};
use crate::table::{as_map, has_name, has_unique_names, ProcessTable};
use crate::text::{
    decimal, has_suffix, is_digit, is_free_of, law_prefixes_and_suffixes, lemma_decimal,
    lemma_decimal_injective, push_decimal, strip_suffix,
};

verus! {

/// What runs in a container.
#[derive(Clone, Copy, PartialEq, Eq, Structural, Debug)]
pub enum ContainerKind {
    /// A process that is kept running.
    Daemon,
    /// A command that is run on request.
    Command,
}

/// The configuration of a child of a sandbox.
#[derive(Debug)]
pub struct ChildConfig {
    pub instances: usize,
    pub image: String,
    pub config: String,
    pub kind: ContainerKind,
}

/// What the configuration of a child is.
pub struct ChildConfigView {
    pub instances: usize,
    pub image: Seq<char>,
    pub config: Seq<char>,
    pub kind: ContainerKind,
}

impl View for ChildConfig {
    type V = ChildConfigView;

    open spec fn view(&self) -> ChildConfigView {
        ChildConfigView {
            instances: self.instances,
            image: self.image@,
            config: self.config@,
            kind: self.kind,
        }
    }
}

impl DeepView for ChildConfig {
    type V = ChildConfigView;

    open spec fn deep_view(&self) -> ChildConfigView {
        self@
    }
}

/// The configuration as the child gets to know it: with one instance.
pub open spec fn single_instance(child: ChildConfigView) -> ChildConfigView {
    ChildConfigView { instances: 1, ..child }
}

/// The number of instances does not show in the configuration that a child is
/// started with: two configurations that differ in it only are the same to the
/// child, and to the supervisor that compares them when it takes over.
pub proof fn law_instances_do_not_show(a: ChildConfigView, b: ChildConfigView)
    requires
        a.image == b.image,
        a.config == b.config,
        a.kind == b.kind,
    ensures
        single_instance(a) == single_instance(b),
{
}

/// A daemon of a sandbox, with the number of its instances and the
/// configuration that they are started with.
#[derive(Debug)]
pub struct Daemon {
    pub name: String,
    pub instances: usize,
    pub child: ChildConfig,
}

/// What a daemon is.
pub struct DaemonView {
    pub name: Seq<char>,
    pub instances: usize,
    pub child: ChildConfigView,
}

impl View for Daemon {
    type V = DaemonView;

    open spec fn view(&self) -> DaemonView {
        DaemonView { name: self.name@, instances: self.instances, child: self.child@ }
    }
}

impl DeepView for Daemon {
    type V = DaemonView;

    open spec fn deep_view(&self) -> DaemonView {
        self@
    }
}

/// The daemons among the children of a sandbox, in their order.
pub open spec fn daemons_of(children: Seq<(Seq<char>, ChildConfigView)>) -> Seq<DaemonView>
    decreases children.len(),
{
    if children.len() == 0 {
        Seq::empty()
    } else {
        let front = daemons_of(children.drop_last());
        let (name, child) = children.last();
        if child.kind == ContainerKind::Daemon {
            front.push(
                DaemonView { name, instances: child.instances, child: single_instance(child) },
            )
        } else {
            front
        }
    }
}

/// The daemons among the children of a sandbox, in their order. A child does not
/// need to know how many instances of it run, so its own configuration says one.
pub fn daemons(children: &Vec<(String, ChildConfig)>) -> (r: Vec<Daemon>)
    ensures
        r.deep_view() == daemons_of(children.deep_view()),
{
    let mut out: Vec<Daemon> = Vec::new();
    let mut i: usize = 0;
    assert(children.deep_view().take(0) =~= Seq::<(Seq<char>, ChildConfigView)>::empty());
    assert(out.deep_view() =~= Seq::<DaemonView>::empty());
    while i < children.len()
        invariant
            i <= children.len(),
            out.deep_view() == daemons_of(children.deep_view().take(i as int)),
        decreases children.len() - i,
    {
        let ghost before: Seq<DaemonView> = out.deep_view();
        proof {
            let next = children.deep_view().take(i as int + 1);
            assert(next.drop_last() =~= children.deep_view().take(i as int));
            assert(next.last() == (children[i as int].0@, children[i as int].1@));
        }
        let child: &ChildConfig = &children[i].1;
        if child.kind == ContainerKind::Daemon {
            let daemon = Daemon {
                name: children[i].0.clone(),
                instances: child.instances,
                child: ChildConfig {
                    instances: 1,
                    image: child.image.clone(),
                    config: child.config.clone(),
                    kind: child.kind,
                },
            };
            out.push(daemon);
            assert(out.deep_view() =~= before.push(daemon@));
        }
        i = i + 1;
    }
    assert(children.deep_view().take(i as int) =~= children.deep_view());
    out
}

/// A daemon that is ready to be started, or whose container could not be read.
#[derive(Debug)]
pub struct DaemonSetup {
    pub name: String,
    pub instances: usize,
    /// The configuration that the instances are started with, as text.
    pub config: String,
    pub container: Option<ContainerConfig>,
}

/// The name of an instance of a child of a sandbox.
pub open spec fn instance_name(sandbox: Seq<char>, child: Seq<char>, instance: nat) -> Seq<char> {
    sandbox + seq!['/'] + child + seq!['.'] + decimal(instance)
}

/// The name of an instance of a child of a sandbox.
pub fn process_name(sandbox: &str, child: &str, instance: u64) -> (r: String)
    ensures
        r@ == instance_name(sandbox@, child@, instance as nat),
{
    proof {
        reveal_strlit("/");
        reveal_strlit(".");
        assert("/"@ =~= seq!['/']);
        assert("."@ =~= seq!['.']);
    }
    let mut name: String = sandbox.to_owned();
    name.append("/");
    name.append(child);
    name.append(".");
    push_decimal(&mut name, instance);
    name
}

/// The instances of the daemons that can be started: pairs of a place in the
/// list of daemons and the number of the instance.
pub open spec fn slots(daemons: Seq<DaemonSetup>) -> Seq<(int, int)>
    decreases daemons.len(),
{
    if daemons.len() == 0 {
        Seq::empty()
    } else {
        let front = slots(daemons.drop_last());
        if daemons.last().container is Some {
            front + Seq::new(
                daemons.last().instances as nat,
                |i: int| (daemons.len() - 1, i),
            )
        } else {
            front
        }
    }
}

/// Whether `entry` is the instance number `i` of `daemon`, made at the time `now`.
pub open spec fn is_instance(
    entry: (String, Process),
    sandbox: Seq<char>,
    daemon: DaemonSetup,
    i: int,
    knot: WordView,
    master: WordView,
    options: LogOptions,
    environment: Environment,
    now: i64,
) -> bool {
    let name = instance_name(sandbox, daemon.name@, i as nat);
    let process = entry.1;
    &&& daemon.container matches Some(container) && {
        &&& entry.0@ == name
        &&& process.name@ == name
        &&& process.config@ == daemon.config@
        &&& process.cmd@ == child_command(
            knot,
            name,
            master,
            daemon.config@,
            options,
            environment,
        )
        &&& process.restart_min == time_after(now, container.restart_timeout)
        &&& process.inner_config.restart_timeout == container.restart_timeout
        &&& process.inner_config.tcp_ports@ == container.tcp_ports@
        &&& process.ports@.no_duplicates()
        &&& forall|port: u16| #[trigger]
            process.ports@.contains(port) <==> container.tcp_ports@.contains_key(port)
    }
}

/// Whether `processes` are those of a sandbox, made at the time `now`: the
/// instances of its daemons, in their order.
pub open spec fn is_subtree(
    processes: Seq<(String, Process)>,
    sandbox: Seq<char>,
    daemons: Seq<DaemonSetup>,
    knot: WordView,
    master: WordView,
    options: LogOptions,
    environment: Environment,
    now: i64,
) -> bool {
    &&& processes.len() == slots(daemons).len()
    &&& forall|k: int|
        0 <= k < processes.len() ==> is_instance(
            #[trigger] processes[k],
            sandbox,
            daemons[slots(daemons)[k].0],
            slots(daemons)[k].1,
            knot,
            master,
            options,
            environment,
            now,
        )
}

fn new_process(
    sandbox: &str,
    daemon: &DaemonSetup,
    container: &ContainerConfig,
    instance: usize,
    bin: &Binaries,
    master: &Word,
    options: &LogOptions,
    environment: &Environment,
    now: i64,
) -> (r: (String, Process))
    requires
        daemon.container == Some(*container),
    ensures
        is_instance(
            r,
            sandbox@,
            *daemon,
            instance as int,
            bin.lithos_knot@,
            master@,
            *options,
            *environment,
            now,
        ),
{
    broadcast use vstd::std_specs::hash::group_hash_axioms;

    let name: String = process_name(sandbox, daemon.name.as_str(), instance as u64);
    let cmd = new_child(
        bin,
        name.as_str(),
        master,
        daemon.config.as_str(),
        options,
        environment,
    );
    let ports: Vec<u16> = keys_of(&container.tcp_ports);
    let process = Process {
        restart_min: restart_time(now, container.restart_timeout),
        cmd,
        name: name.clone(),
        config: daemon.config.clone(),
        inner_config: container.copy(),
        ports,
    };
    (name, process)
}

/// The processes of a sandbox: the instances of its daemons, in their order. A
/// daemon whose container could not be read has none.
pub fn read_subtree(
    sandbox: &str,
    daemons: &Vec<DaemonSetup>,
    bin: &Binaries,
    master: &Word,
    options: &LogOptions,
    environment: &Environment,
    now: i64,
) -> (r: Vec<(String, Process)>)
    ensures
        is_subtree(
            r@,
            sandbox@,
            daemons@,
            bin.lithos_knot@,
            master@,
            *options,
            *environment,
            now,
        ),
{
    let mut out: Vec<(String, Process)> = Vec::new();
    let mut d: usize = 0;
    assert(daemons@.take(0) =~= Seq::<DaemonSetup>::empty());
    while d < daemons.len()
        invariant
            d <= daemons.len(),
            out.len() == slots(daemons@.take(d as int)).len(),
            forall|k: int|
                0 <= k < out.len() ==> is_instance(
                    #[trigger] out@[k],
                    sandbox@,
                    daemons@[slots(daemons@.take(d as int))[k].0],
                    slots(daemons@.take(d as int))[k].1,
                    bin.lithos_knot@,
                    master@,
                    *options,
                    *environment,
                    now,
                ),
        decreases daemons.len() - d,
    {
        let daemon: &DaemonSetup = &daemons[d];
        let ghost done: Seq<(int, int)> = slots(daemons@.take(d as int));
        let ghost next: Seq<DaemonSetup> = daemons@.take(d as int + 1);
        proof {
            assert(next.drop_last() =~= daemons@.take(d as int));
            assert(next.last() == *daemon);
        }
        if let Some(container) = &daemon.container {
            let mut i: usize = 0;
            let ghost all: Seq<(int, int)> = slots(next);
            while i < daemon.instances
                invariant
                    i <= daemon.instances,
                    d < daemons.len(),
                    *daemon == daemons@[d as int],
                    daemon.container == Some(*container),
                    all == done + Seq::new(daemon.instances as nat, |i: int| (d as int, i)),
                    out.len() == done.len() + i,
                    forall|k: int|
                        0 <= k < out.len() ==> is_instance(
                            #[trigger] out@[k],
                            sandbox@,
                            daemons@[all[k].0],
                            all[k].1,
                            bin.lithos_knot@,
                            master@,
                            *options,
                            *environment,
                            now,
                        ),
                decreases daemon.instances - i,
            {
                let entry: (String, Process) = new_process(
                    sandbox,
                    daemon,
                    container,
                    i,
                    bin,
                    master,
                    options,
                    environment,
                    now,
                );
                out.push(entry);
                i = i + 1;
            }
        }
        d = d + 1;
    }
    assert(daemons@.take(d as int) =~= daemons@);
    out
}

/// The name of the sandbox that the file `file` configures, where it has the
/// extension `.yaml`.
pub open spec fn sandbox_of(file: Seq<char>) -> Option<Seq<char>> {
    if has_suffix(file, ".yaml"@) {
        Some(file.take(file.len() - 5))
    } else {
        None
    }
}

/// Every file with the extension `.yaml` configures the sandbox whose name stands
/// before the extension, and no other file configures one.
pub proof fn law_sandboxes_are_named_by_their_files(file: Seq<char>, name: Seq<char>)
    ensures
        sandbox_of(name + ".yaml"@) == Some(name),
        sandbox_of(file) == Some(name) ==> file == name + ".yaml"@,
{
    reveal_strlit(".yaml");
    law_prefixes_and_suffixes(file, ".yaml"@, name);
    assert((name + ".yaml"@).take(name.len() as int) =~= name);
}

/// The name of the sandbox that the file `file` configures: the file's name
/// without the extension `.yaml`. A file with no such extension configures none.
pub fn sandbox_name(file: &str) -> (r: Option<String>)
    ensures
        r.deep_view() == sandbox_of(file@),
        match r {
            Some(name) => name@ + ".yaml"@ == file@,
            None => !has_suffix(file@, ".yaml"@),
        },
{
    let name: Option<String> = strip_suffix(file, ".yaml");
    proof {
        reveal_strlit(".yaml");
        if name is Some {
            assert(file@.take(file@.len() - 5) =~= name->0@);
        }
    }
    name
}

/// The file with the processes of a sandbox: the one that the sandbox names, else
/// the one that is named like the sandbox.
pub open spec fn process_file_of(config_file: Option<Word>, sandbox: Seq<char>) -> WordView {
    match config_file {
        Some(file) => file@,
        None => WordView::Text(sandbox + ".yaml"@),
    }
}

/// The file with the processes of a sandbox: the one that the sandbox names, else
/// the one that is named like the sandbox.
pub fn process_file(config_file: &Option<Word>, sandbox: &str) -> (r: Word)
    ensures
        r@ == process_file_of(*config_file, sandbox@),
{
    match config_file {
        Some(file) => file.copy(),
        None => {
            let mut name: String = sandbox.to_owned();
            name.append(".yaml");
            Word::Text(name)
        },
    }
}

/// The name of the file that a sandbox's configurations are logged in.
pub fn config_log_file(sandbox: &str) -> (r: String)
    ensures
        r@ == sandbox@ + ".log"@,
{
    let mut name: String = sandbox.to_owned();
    name.append(".log");
    name
}

/// The line that logs a configuration with the time at which it was read.
pub fn config_log_line(time: &str, config: &str) -> (r: String)
    ensures
        r@ == time@ + " "@ + config@ + "\n"@,
{
    let mut line: String = time.to_owned();
    line.append(" ");
    line.append(config);
    line.append("\n");
    line
}

/// The table that a list of named processes makes: of two with one name, the
/// later one stays.
pub open spec fn collected(processes: Seq<(String, Process)>) -> Map<Seq<char>, Process>
    decreases processes.len(),
{
    if processes.len() == 0 {
        Map::empty()
    } else {
        collected(processes.drop_last()).insert(processes.last().0@, processes.last().1)
    }
}

/// The processes of all the sandboxes, by their names.
pub fn read_sandboxes(processes: Vec<(String, Process)>) -> (r: ProcessTable)
    ensures
        r.inv(),
        r@ == collected(processes@),
{
    let mut table = ProcessTable::new();
    let mut rest: Vec<(String, Process)> = processes;
    let ghost all: Seq<(String, Process)> = rest@;
    assert(all.take(0) =~= Seq::<(String, Process)>::empty());
    assert(all.skip(0) =~= all);
    let ghost mut done: int = 0;
    while rest.len() > 0
        invariant
            0 <= done <= all.len(),
            rest@ == all.skip(done),
            table.inv(),
            table@ == collected(all.take(done)),
        decreases rest.len(),
    {
        let entry: (String, Process) = rest.remove(0);
        table.insert(entry.0, entry.1);
        proof {
            let next = all.take(done + 1);
            assert(next.drop_last() =~= all.take(done));
            assert(next.last() == entry);
            done = done + 1;
            assert(rest@ =~= all.skip(done));
        }
    }
    assert(all.take(done) =~= all);
    table
}

/// Whether every process comes with its own name.
pub open spec fn bear_their_names(processes: Seq<(String, Process)>) -> bool {
    forall|i: int|
        0 <= i < processes.len() ==> (#[trigger] processes[i]).0@ == processes[i].1.name@
}

/// Processes that come with their own names, as those of a sandbox do, are listed
/// under them.
pub proof fn law_processes_are_listed_under_their_names(
    processes: Seq<(String, Process)>,
    name: Seq<char>,
)
    requires
        bear_their_names(processes),
        collected(processes).contains_key(name),
    ensures
        collected(processes)[name].name@ == name,
    decreases processes.len(),
{
    if processes.len() > 0 {
        let front = processes.drop_last();
        assert(processes.last() == processes[processes.len() - 1]);
        if name != processes.last().0@ {
            assert forall|i: int| 0 <= i < front.len() implies (#[trigger] front[i]).0@
                == front[i].1.name@ by {
                assert(front[i] == processes[i]);
            }
            law_processes_are_listed_under_their_names(front, name);
        }
    }
}

/// The queue of new workers: each of them due when it was put in.
pub open spec fn scheduled(
    entries: Seq<(String, Process)>,
    readings: Seq<i64>,
) -> Seq<(i128, Process)>
    decreases entries.len(),
{
    if entries.len() == 0 {
        Seq::empty()
    } else {
        with_entry(
            scheduled(entries.drop_last(), readings),
            readings[entries.len() - 1] as i128,
            entries.last().1,
        )
    }
}

/// Queues every process to be started at once. `readings` are those of the clock
/// at the times when the processes are queued, one after the other.
pub fn schedule_new_workers(configs: ProcessTable, readings: &Vec<i64>) -> (r: Queue<Process>)
    requires
        configs.inv(),
        readings.len() == configs@.len(),
    ensures
        r.inv(),
        exists|entries: Seq<(String, Process)>|
            has_unique_names(entries) && as_map(entries) == configs@ && entries.len()
                == configs@.len() && r@ == #[trigger] scheduled(entries, readings@),
{
    let mut queue: Queue<Process> = Queue::new();
    let mut rest: Vec<(String, Process)> = configs.into_entries();
    let ghost all: Seq<(String, Process)> = rest@;
    assert(all.take(0) =~= Seq::<(String, Process)>::empty());
    assert(all.skip(0) =~= all);
    let mut done: usize = 0;
    while rest.len() > 0
        invariant
            done <= all.len(),
            all.len() == readings.len(),
            rest@ == all.skip(done as int),
            queue.inv(),
            queue@ == scheduled(all.take(done as int), readings@),
        decreases rest.len(),
    {
        let entry: (String, Process) = rest.remove(0);
        queue.add(readings[done] as i128, entry.1);
        proof {
            let next = all.take(done as int + 1);
            assert(next.drop_last() =~= all.take(done as int));
            assert(next.last() == entry);
        }
        done = done + 1;
        assert(rest@ =~= all.skip(done as int));
    }
    assert(all.take(done as int) =~= all);
    queue
}

/// Every process that is handed over is queued, due at the time at which it was
/// put in, and nothing else is.
pub proof fn law_every_worker_is_queued(entries: Seq<(String, Process)>, readings: Seq<i64>)
    ensures
        is_sorted(scheduled(entries, readings)),
        scheduled(entries, readings).len() == entries.len(),
        forall|k: int|
            0 <= k < entries.len() ==> scheduled(entries, readings).contains(
                (readings[k] as i128, (#[trigger] entries[k]).1),
            ),
    decreases entries.len(),
{
    if entries.len() > 0 {
        let front = entries.drop_last();
        let last = entries.len() - 1;
        let (time, process) = (readings[last] as i128, entries[last].1);
        law_every_worker_is_queued(front, readings);
        let before = scheduled(front, readings);
        let after = scheduled(entries, readings);
        lemma_with_entry_sorted(before, time, process);
        lemma_due_count(before, time);
        let at = due_count(before, time) as int;
        assert forall|k: int| 0 <= k < entries.len() implies after.contains(
            (readings[k] as i128, (#[trigger] entries[k]).1),
        ) by {
            let entry = (readings[k] as i128, entries[k].1);
            if k < last {
                assert(front[k] == entries[k]);
                let i = choose|i: int| 0 <= i < before.len() && before[i] == entry;
                if i < at {
                    assert(after[i] == entry);
                } else {
                    assert(after[i + 1] == entry);
                }
            } else {
                assert(after[at] == entry);
            }
        }
    }
}

/// Two instances of children of one sandbox have the same name only where they are
/// the same instance of the same child.
pub proof fn law_instance_names_are_distinct_in_a_sandbox(
    sandbox: Seq<char>,
    child_a: Seq<char>,
    a: nat,
    child_b: Seq<char>,
    b: nat,
)
    requires
        instance_name(sandbox, child_a, a) == instance_name(sandbox, child_b, b),
    ensures
        child_a == child_b,
        a == b,
{
    let name = instance_name(sandbox, child_a, a);
    let m = sandbox.len() as int;
    lemma_decimal(a);
    lemma_decimal(b);
    let x = m + 1 + child_a.len();
    let y = m + 1 + child_b.len();
    assert(name[x] == '.' && name[y] == '.');
    assert forall|i: int| x < i < name.len() implies is_digit(#[trigger] name[i]) by {
        assert(name[i] == decimal(a)[i - x - 1]);
    }
    assert forall|i: int| y < i < name.len() implies is_digit(#[trigger] name[i]) by {
        assert(name[i] == decimal(b)[i - y - 1]);
    }
    assert(x == y);
    assert(child_a =~= name.subrange(m + 1, x));
    assert(child_b =~= name.subrange(m + 1, x));
    assert(decimal(a) =~= name.skip(x + 1));
    assert(decimal(b) =~= name.skip(x + 1));
    lemma_decimal_injective(a, b);
}

/// Two instances have the same name only where they are the same instance of
/// the same child of the same sandbox. The name of a sandbox is that of a file,
/// so there is no slash in it.
pub proof fn law_instance_names_are_distinct(
    sandbox_a: Seq<char>,
    child_a: Seq<char>,
    a: nat,
    sandbox_b: Seq<char>,
    child_b: Seq<char>,
    b: nat,
)
    requires
        is_free_of(sandbox_a, '/'),
        is_free_of(sandbox_b, '/'),
        instance_name(sandbox_a, child_a, a) == instance_name(sandbox_b, child_b, b),
    ensures
        sandbox_a == sandbox_b,
        child_a == child_b,
        a == b,
{
    let name = instance_name(sandbox_a, child_a, a);
    let m = sandbox_a.len() as int;
    let n = sandbox_b.len() as int;
    assert(name[m] == '/' && name[n] == '/');
    assert(m == n) by {
        if m < n {
            assert(sandbox_b[m] == name[m]);
        } else if n < m {
            assert(sandbox_a[n] == name[n]);
        }
    }
    assert(sandbox_a =~= name.take(m));
    assert(sandbox_b =~= name.take(m));
    law_instance_names_are_distinct_in_a_sandbox(sandbox_a, child_a, a, child_b, b);
}

/// Whether no two daemons have the same name.
pub open spec fn have_distinct_names(daemons: Seq<DaemonSetup>) -> bool {
    forall|i: int, j: int|
        0 <= i < j < daemons.len() ==> (#[trigger] daemons[i]).name@ != (#[trigger] daemons[j]).name@
}

/// The instances that can be started are instances of daemons of the list, and
/// none is there twice.
proof fn lemma_slots(daemons: Seq<DaemonSetup>)
    ensures
        forall|k: int|
            0 <= k < slots(daemons).len() ==> 0 <= (#[trigger] slots(daemons)[k]).0 < daemons.len()
                && 0 <= slots(daemons)[k].1,
        slots(daemons).no_duplicates(),
    decreases daemons.len(),
{
    if daemons.len() > 0 {
        let front = slots(daemons.drop_last());
        let all = slots(daemons);
        let last = daemons.len() - 1;
        lemma_slots(daemons.drop_last());
        assert forall|k: int| 0 <= k < all.len() implies 0 <= (#[trigger] all[k]).0 < daemons.len()
            && 0 <= all[k].1 by {
            if k < front.len() {
                assert(all[k] == front[k]);
            } else {
                assert(all[k] == (last, k - front.len()));
            }
        }
        assert forall|k: int, l: int| 0 <= k < all.len() && 0 <= l < all.len() && k != l implies
            all[k] != all[l] by {
            if k < front.len() {
                assert(all[k] == front[k]);
            } else {
                assert(all[k] == (last, k - front.len()));
            }
            if l < front.len() {
                assert(all[l] == front[l]);
            } else {
                assert(all[l] == (last, l - front.len()));
            }
        }
    }
}

/// The processes of a sandbox.
pub struct Subtree {
    pub sandbox: Seq<char>,
    pub daemons: Seq<DaemonSetup>,
    pub processes: Seq<(String, Process)>,
    /// When they were made.
    pub now: i64,
}

impl Subtree {
    /// Whether the processes are what `read_subtree` makes of the daemons, none of
    /// which has the name of another.
    pub open spec fn well_formed(
        self,
        knot: WordView,
        master: WordView,
        options: LogOptions,
        environment: Environment,
    ) -> bool {
        &&& have_distinct_names(self.daemons)
        &&& is_subtree(
            self.processes,
            self.sandbox,
            self.daemons,
            knot,
            master,
            options,
            environment,
            self.now,
        )
    }
}

/// No two processes of a sandbox have the same name, and each bears the name that
/// it comes with.
pub proof fn law_subtree_names_are_distinct(
    subtree: Subtree,
    knot: WordView,
    master: WordView,
    options: LogOptions,
    environment: Environment,
)
    requires
        subtree.well_formed(knot, master, options, environment),
    ensures
        has_unique_names(subtree.processes),
        bear_their_names(subtree.processes),
{
    let processes = subtree.processes;
    let daemons = subtree.daemons;
    lemma_slots(daemons);
    assert forall|k: int, l: int| 0 <= k < l < processes.len() implies (#[trigger] processes[k]).0@
        != (#[trigger] processes[l]).0@ by {
        let (c, i) = slots(daemons)[k];
        let (d, j) = slots(daemons)[l];
        assert(slots(daemons)[k] != slots(daemons)[l]);
        if processes[k].0@ == processes[l].0@ {
            law_instance_names_are_distinct_in_a_sandbox(
                subtree.sandbox,
                daemons[c].name@,
                i as nat,
                daemons[d].name@,
                j as nat,
            );
            assert(c == d) by {
                if c < d {
                    assert(daemons[c].name@ != daemons[d].name@);
                } else if d < c {
                    assert(daemons[d].name@ != daemons[c].name@);
                }
            }
        }
    }
}

/// The processes of all the sandboxes, one sandbox after the other.
pub open spec fn all_processes(subtrees: Seq<Subtree>) -> Seq<(String, Process)>
    decreases subtrees.len(),
{
    if subtrees.len() == 0 {
        Seq::empty()
    } else {
        all_processes(subtrees.drop_last()) + subtrees.last().processes
    }
}

/// Whether the sandboxes are those of different files: their names are not the
/// same, and there is no slash in them.
pub open spec fn are_of_different_files(subtrees: Seq<Subtree>) -> bool {
    &&& forall|t: int| 0 <= t < subtrees.len() ==> is_free_of((#[trigger] subtrees[t]).sandbox, '/')
    &&& forall|t: int, u: int|
        0 <= t < u < subtrees.len() ==> (#[trigger] subtrees[t]).sandbox != (
        #[trigger] subtrees[u]).sandbox
}

/// Every process is that of one of the sandboxes.
proof fn lemma_origin(subtrees: Seq<Subtree>, k: int) -> (r: (int, int))
    requires
        0 <= k < all_processes(subtrees).len(),
    ensures
        0 <= r.0 < subtrees.len(),
        0 <= r.1 < subtrees[r.0].processes.len(),
        all_processes(subtrees)[k] == subtrees[r.0].processes[r.1],
    decreases subtrees.len(),
{
    let front = subtrees.drop_last();
    let before = all_processes(front);
    if k < before.len() {
        let r = lemma_origin(front, k);
        assert(front[r.0] == subtrees[r.0]);
        r
    } else {
        (subtrees.len() - 1, k - before.len())
    }
}

/// No two processes of all the sandboxes have the same name, and each bears the
/// name that it comes with.
pub proof fn law_all_names_are_distinct(
    subtrees: Seq<Subtree>,
    knot: WordView,
    master: WordView,
    options: LogOptions,
    environment: Environment,
)
    requires
        are_of_different_files(subtrees),
        forall|t: int|
            0 <= t < subtrees.len() ==> (#[trigger] subtrees[t]).well_formed(
                knot,
                master,
                options,
                environment,
            ),
    ensures
        has_unique_names(all_processes(subtrees)),
        bear_their_names(all_processes(subtrees)),
    decreases subtrees.len(),
{
    if subtrees.len() > 0 {
        let front = subtrees.drop_last();
        let last = subtrees.len() - 1;
        let before = all_processes(front);
        let added = subtrees[last].processes;
        let all = all_processes(subtrees);
        assert forall|t: int| 0 <= t < front.len() implies (#[trigger] front[t]).well_formed(
            knot,
            master,
            options,
            environment,
        ) && is_free_of(front[t].sandbox, '/') by {
            assert(front[t] == subtrees[t]);
        }
        assert forall|t: int, u: int| 0 <= t < u < front.len() implies (
        #[trigger] front[t]).sandbox != (#[trigger] front[u]).sandbox by {
            assert(front[t] == subtrees[t] && front[u] == subtrees[u]);
        }
        law_all_names_are_distinct(front, knot, master, options, environment);
        assert(subtrees[last].well_formed(knot, master, options, environment));
        law_subtree_names_are_distinct(subtrees[last], knot, master, options, environment);
        assert forall|k: int, l: int| 0 <= k < l < all.len() implies (#[trigger] all[k]).0@ != (
        #[trigger] all[l]).0@ by {
            if l < before.len() {
                assert(all[k] == before[k] && all[l] == before[l]);
            } else if k >= before.len() {
                assert(all[k] == added[k - before.len()] && all[l] == added[l - before.len()]);
            } else {
                let (t, m) = lemma_origin(front, k);
                let n = l - before.len();
                assert(all[k] == front[t].processes[m] && all[l] == added[n]);
                assert(front[t] == subtrees[t]);
                lemma_told_apart(
                    subtrees[t],
                    m,
                    subtrees[last],
                    n,
                    knot,
                    master,
                    options,
                    environment,
                );
            }
        }
        assert forall|k: int| 0 <= k < all.len() implies (#[trigger] all[k]).0@
            == all[k].1.name@ by {
            if k < before.len() {
                assert(all[k] == before[k]);
            } else {
                assert(all[k] == added[k - before.len()]);
            }
        }
    }
}

/// Processes of different sandboxes have different names.
proof fn lemma_told_apart(
    a: Subtree,
    m: int,
    b: Subtree,
    n: int,
    knot: WordView,
    master: WordView,
    options: LogOptions,
    environment: Environment,
)
    requires
        a.well_formed(knot, master, options, environment),
        b.well_formed(knot, master, options, environment),
        is_free_of(a.sandbox, '/'),
        is_free_of(b.sandbox, '/'),
        a.sandbox != b.sandbox,
        0 <= m < a.processes.len(),
        0 <= n < b.processes.len(),
    ensures
        a.processes[m].0@ != b.processes[n].0@,
{
    let (c, i) = slots(a.daemons)[m];
    let (d, j) = slots(b.daemons)[n];
    if a.processes[m].0@ == b.processes[n].0@ {
        law_instance_names_are_distinct(
            a.sandbox,
            a.daemons[c].name@,
            i as nat,
            b.sandbox,
            b.daemons[d].name@,
            j as nat,
        );
    }
}

/// No instance gets lost when the processes of all the sandboxes are collected:
/// there are as many of them in the table as there were, each under its name.
pub proof fn law_every_instance_is_listed(
    subtrees: Seq<Subtree>,
    knot: WordView,
    master: WordView,
    options: LogOptions,
    environment: Environment,
)
    requires
        are_of_different_files(subtrees),
        forall|t: int|
            0 <= t < subtrees.len() ==> (#[trigger] subtrees[t]).well_formed(
                knot,
                master,
                options,
                environment,
            ),
    ensures
        collected(all_processes(subtrees)).len() == all_processes(subtrees).len(),
        forall|k: int|
            0 <= k < all_processes(subtrees).len() ==> collected(
                all_processes(subtrees),
            ).contains_key((#[trigger] all_processes(subtrees)[k]).1.name@) && collected(
                all_processes(subtrees),
            )[all_processes(subtrees)[k].1.name@] == all_processes(subtrees)[k].1,
{
    law_all_names_are_distinct(subtrees, knot, master, options, environment);
    let all = all_processes(subtrees);
    lemma_collected(all);
    assert forall|k: int| 0 <= k < all.len() implies collected(all).contains_key(
        (#[trigger] all[k]).1.name@,
    ) && collected(all)[all[k].1.name@] == all[k].1 by {
        assert(all[k].0@ == all[k].1.name@);
    }
}

/// Processes with different names are all listed.
proof fn lemma_collected(processes: Seq<(String, Process)>)
    requires
        has_unique_names(processes),
    ensures
        collected(processes).dom().finite(),
        collected(processes).len() == processes.len(),
        forall|k: int|
            0 <= k < processes.len() ==> collected(processes).contains_key(
                (#[trigger] processes[k]).0@,
            ) && collected(processes)[processes[k].0@] == processes[k].1,
        forall|name: Seq<char>| #[trigger]
            collected(processes).contains_key(name) ==> has_name(processes, name),
    decreases processes.len(),
{
    if processes.len() > 0 {
        let front = processes.drop_last();
        let last = processes.len() - 1;
        let before = collected(front);
        let after = collected(processes);
        assert forall|k: int, l: int| 0 <= k < l < front.len() implies (#[trigger] front[k]).0@ != (
        #[trigger] front[l]).0@ by {
            assert(front[k] == processes[k] && front[l] == processes[l]);
        }
        lemma_collected(front);
        assert(processes[last] == processes.last());
        assert(!before.contains_key(processes[last].0@)) by {
            if before.contains_key(processes[last].0@) {
                let k = choose|k: int|
                    0 <= k < front.len() && (#[trigger] front[k]).0@ == processes[last].0@;
                assert(front[k] == processes[k]);
            }
        }
        assert forall|k: int| 0 <= k < processes.len() implies after.contains_key(
            (#[trigger] processes[k]).0@,
        ) && after[processes[k].0@] == processes[k].1 by {
            if k < last {
                assert(front[k] == processes[k]);
            }
        }
        assert forall|name: Seq<char>| #[trigger] after.contains_key(name) implies has_name(
            processes,
            name,
        ) by {
            if before.contains_key(name) {
                let k = choose|k: int| 0 <= k < front.len() && (#[trigger] front[k]).0@ == name;
                assert(processes[k].0@ == name);
            } else {
                assert(processes[last].0@ == name);
            }
        }
    }
}

/// Every daemon of the configuration is there, in the order of the configuration,
/// and nothing else: with its own name, number of instances, image, configuration
/// file and kind. Only its own configuration says that there is one instance. The
/// places of the daemons among the children are what comes back.
pub proof fn law_daemons_are_those_configured(children: Seq<(Seq<char>, ChildConfigView)>) -> (places:
    Seq<int>)
    ensures
        are_places(places, children.len() as int),
        daemons_of(children).len() == places.len(),
        forall|j: int|
            0 <= j < places.len() ==> {
                let (name, child) = children[#[trigger] places[j]];
                let daemon = daemons_of(children)[j];
                &&& child.kind == ContainerKind::Daemon
                &&& daemon.name == name
                &&& daemon.instances == child.instances
                &&& daemon.child.instances == 1
                &&& daemon.child.image == child.image
                &&& daemon.child.config == child.config
                &&& daemon.child.kind == child.kind
            },
        forall|i: int|
            0 <= i < children.len() && (#[trigger] children[i]).1.kind == ContainerKind::Daemon
                ==> places.contains(i),
    decreases children.len(),
{
    if children.len() == 0 {
        Seq::empty()
    } else {
        let front = children.drop_last();
        let n = front.len() as int;
        let before = law_daemons_are_those_configured(front);
        lemma_one_more_place(before, n);
        assert(children.last() == children[n]);
        let all = daemons_of(children);
        let places = if children[n].1.kind == ContainerKind::Daemon {
            before.push(n)
        } else {
            before
        };
        assert forall|i: int|
            0 <= i < children.len() && (#[trigger] children[i]).1.kind
                == ContainerKind::Daemon implies places.contains(i) by {
            if i < n {
                assert(front[i] == children[i]);
            }
        }
        assert forall|j: int| 0 <= j < places.len() implies {
            let (name, child) = children[#[trigger] places[j]];
            &&& child.kind == ContainerKind::Daemon
            &&& all[j].name == name
            &&& all[j].instances == child.instances
            &&& all[j].child.instances == 1
            &&& all[j].child.image == child.image
            &&& all[j].child.config == child.config
            &&& all[j].child.kind == child.kind
        } by {
            if j < before.len() {
                assert(places[j] == before[j]);
                assert(front[before[j]] == children[places[j]]);
                assert(all[j] == daemons_of(front)[j]);
            }
        }
        places
    }
}

/// Each instance of each daemon whose container could be read is there once, and no
/// other: ordered by the daemons, and for one daemon by the instances.
pub proof fn law_instances_are_those_configured(daemons: Seq<DaemonSetup>)
    ensures
        forall|d: int, i: int| #[trigger]
            slots(daemons).contains((d, i)) <==> 0 <= d < daemons.len() && daemons[d].container is Some
                && 0 <= i < daemons[d].instances,
        forall|k: int, l: int|
            0 <= k < l < slots(daemons).len() ==> (#[trigger] slots(daemons)[k]).0 < (
            #[trigger] slots(daemons)[l]).0 || (slots(daemons)[k].0 == slots(daemons)[l].0 && slots(
                daemons,
            )[k].1 < slots(daemons)[l].1),
    decreases daemons.len(),
{
    if daemons.len() > 0 {
        let front = slots(daemons.drop_last());
        let all = slots(daemons);
        let last = daemons.len() - 1;
        law_instances_are_those_configured(daemons.drop_last());
        lemma_slots(daemons.drop_last());
        assert forall|d: int, i: int| #[trigger] all.contains((d, i)) <==> 0 <= d < daemons.len()
            && daemons[d].container is Some && 0 <= i < daemons[d].instances by {
            if d < last {
                assert(daemons.drop_last()[d] == daemons[d] || d < 0);
            }
            if all.contains((d, i)) {
                let k = choose|k: int| 0 <= k < all.len() && all[k] == (d, i);
                if k < front.len() {
                    assert(front[k] == (d, i));
                    assert(front.contains((d, i)));
                } else {
                    assert(all[k] == (last, k - front.len()));
                }
            }
            if front.contains((d, i)) {
                let k = choose|k: int| 0 <= k < front.len() && front[k] == (d, i);
                assert(all[k] == (d, i));
            }
            if d == last && daemons[d].container is Some && 0 <= i < daemons[d].instances {
                assert(all[front.len() + i] == (d, i));
            }
        }
        assert forall|k: int, l: int| 0 <= k < l < all.len() implies (#[trigger] all[k]).0 < (
        #[trigger] all[l]).0 || (all[k].0 == all[l].0 && all[k].1 < all[l].1) by {
            if l < front.len() {
                assert(all[k] == front[k] && all[l] == front[l]);
            } else {
                assert(all[l] == (last, l - front.len()));
                if k < front.len() {
                    assert(all[k] == front[k]);
                } else {
                    assert(all[k] == (last, k - front.len()));
                }
            }
        }
    }
}

/// Whether `entry` is the instance number `i` of `daemon` in all that is configured.
pub open spec fn is_as_configured(
    entry: (String, Process),
    subtree: Subtree,
    daemon: DaemonSetup,
    i: int,
) -> bool {
    let process = entry.1;
    &&& daemon.container matches Some(container) && {
        &&& entry.0@ == subtree.sandbox + "/"@ + daemon.name@ + "."@ + decimal(i as nat)
        &&& process.name@ == entry.0@
        &&& process.config@ == daemon.config@
        &&& process.restart_min == subtree.now + container.restart_timeout * 1_000_000
        &&& process.inner_config.restart_timeout == container.restart_timeout
        &&& process.inner_config.tcp_ports@ == container.tcp_ports@
        &&& forall|port: u16| #[trigger]
            process.ports@.contains(port) <==> container.tcp_ports@.contains_key(port)
    }
}

/// Whether `cmd` starts the program `knot` as the process `name`, with `config` as
/// its configuration.
pub open spec fn starts(
    cmd: CommandView,
    knot: WordView,
    name: Seq<char>,
    master: WordView,
    config: Seq<char>,
) -> bool {
    &&& cmd.program == knot
    &&& cmd.args.len() >= 6
    &&& cmd.args[0] == WordView::Text("--name"@)
    &&& cmd.args[1] == WordView::Text(name)
    &&& cmd.args[2] == WordView::Text("--master"@)
    &&& cmd.args[3] == master
    &&& cmd.args[4] == WordView::Text("--config"@)
    &&& cmd.args[5] == WordView::Text(config)
}

/// Whether the instance number `i` of the daemon at `d` is among the processes.
pub open spec fn has_instance(subtree: Subtree, d: int, i: int) -> bool {
    exists|k: int|
        0 <= k < subtree.processes.len() && #[trigger] is_as_configured(
            subtree.processes[k],
            subtree,
            subtree.daemons[d],
            i,
        )
}

/// Whether the process at `k` is an instance of one of the daemons.
pub open spec fn is_instance_of_some(subtree: Subtree, k: int) -> bool {
    exists|d: int, i: int|
        0 <= d < subtree.daemons.len() && 0 <= i < subtree.daemons[d].instances
            && #[trigger] is_as_configured(subtree.processes[k], subtree, subtree.daemons[d], i)
}

/// Every instance of every daemon of a sandbox whose container could be read is
/// there: under the name of the sandbox, the daemon and the instance, with the
/// configuration, the timeout and the ports of its own daemon, and started with its
/// own name and configuration. And nothing else is there.
pub proof fn law_subtree_is_as_configured(
    subtree: Subtree,
    knot: WordView,
    master: WordView,
    options: LogOptions,
    environment: Environment,
)
    requires
        is_subtree(
            subtree.processes,
            subtree.sandbox,
            subtree.daemons,
            knot,
            master,
            options,
            environment,
            subtree.now,
        ),
    ensures
        forall|d: int, i: int|
            0 <= d < subtree.daemons.len() && subtree.daemons[d].container is Some && 0 <= i
                < subtree.daemons[d].instances ==> #[trigger] has_instance(subtree, d, i),
        forall|k: int|
            0 <= k < subtree.processes.len() ==> starts(
                (#[trigger] subtree.processes[k]).1.cmd@,
                knot,
                subtree.processes[k].0@,
                master,
                subtree.processes[k].1.config@,
            ) && subtree.processes[k].1.cmd@ == child_command(
                knot,
                subtree.processes[k].0@,
                master,
                subtree.processes[k].1.config@,
                options,
                environment,
            ) && subtree.processes[k].1.ports@.no_duplicates(),
        forall|k: int|
            0 <= k < subtree.processes.len() ==> #[trigger] is_instance_of_some(subtree, k),
{
    let processes = subtree.processes;
    let daemons = subtree.daemons;
    let all = slots(daemons);
    reveal_strlit("/");
    reveal_strlit(".");
    assert("/"@ =~= seq!['/']);
    assert("."@ =~= seq!['.']);
    law_instances_are_those_configured(daemons);
    assert forall|k: int| 0 <= k < processes.len() implies is_as_configured(
        #[trigger] processes[k],
        subtree,
        daemons[all[k].0],
        all[k].1,
    ) && starts(processes[k].1.cmd@, knot, processes[k].0@, master, processes[k].1.config@)
        && processes[k].1.cmd@ == child_command(
        knot,
        processes[k].0@,
        master,
        processes[k].1.config@,
        options,
        environment,
    ) && processes[k].1.ports@.no_duplicates() by {
        let daemon = daemons[all[k].0];
        assert(all.contains((all[k].0, all[k].1))) by {
            assert(all[k] == (all[k].0, all[k].1));
        }
        let timeout = daemon.container->0.restart_timeout;
        assert(i128::MIN <= subtree.now + timeout * 1_000_000 <= i128::MAX);
    }
    assert forall|d: int, i: int|
        0 <= d < daemons.len() && daemons[d].container is Some && 0 <= i
            < daemons[d].instances implies #[trigger] has_instance(subtree, d, i) by {
        assert(all.contains((d, i)));
        let k = choose|k: int| 0 <= k < all.len() && all[k] == (d, i);
        assert(is_as_configured(processes[k], subtree, daemons[d], i));
    }
    assert forall|k: int| 0 <= k < processes.len() implies #[trigger] is_instance_of_some(
        subtree,
        k,
    ) by {
        let (d, i) = all[k];
        assert(all.contains((d, i)));
        assert(is_as_configured(processes[k], subtree, daemons[d], i));
    }
}

/// Whether the one at `k` is the last of `processes` under `name`.
pub open spec fn is_last_named(
    processes: Seq<(String, Process)>,
    name: Seq<char>,
    k: int,
) -> bool {
    &&& 0 <= k < processes.len()
    &&& processes[k].0@ == name
    &&& forall|l: int| k < l < processes.len() ==> (#[trigger] processes[l]).0@ != name
}

/// A name is in the table just where a process comes under it, and the last one
/// that does is listed under it.
pub proof fn law_last_process_of_a_name_is_listed(
    processes: Seq<(String, Process)>,
    name: Seq<char>,
)
    ensures
        collected(processes).contains_key(name) <==> exists|k: int|
            is_last_named(processes, name, k),
        forall|k: int| #[trigger]
            is_last_named(processes, name, k) ==> collected(processes)[name] == processes[k].1,
        (exists|i: int| 0 <= i < processes.len() && (#[trigger] processes[i]).0@ == name)
            ==> collected(processes).contains_key(name),
    decreases processes.len(),
{
    if processes.len() > 0 {
        let front = processes.drop_last();
        let n = front.len() as int;
        law_last_process_of_a_name_is_listed(front, name);
        assert(processes.last() == processes[n]);
        if processes[n].0@ == name {
            assert(is_last_named(processes, name, n));
            assert forall|k: int| #[trigger] is_last_named(processes, name, k) implies k == n by {
                if k < n {
                    assert(processes[n].0@ != name);
                }
            }
        } else {
            assert forall|k: int| #[trigger] is_last_named(processes, name, k) implies is_last_named(
                front,
                name,
                k,
            ) by {
                assert(front[k] == processes[k]);
                assert forall|l: int| k < l < front.len() implies (#[trigger] front[l]).0@
                    != name by {
                    assert(front[l] == processes[l]);
                }
            }
            assert forall|k: int| #[trigger] is_last_named(front, name, k) implies is_last_named(
                processes,
                name,
                k,
            ) by {
                assert(front[k] == processes[k]);
                assert forall|l: int| k < l < processes.len() implies (#[trigger] processes[l]).0@
                    != name by {
                    if l < n {
                        assert(front[l] == processes[l]);
                    }
                }
            }
            if exists|i: int| 0 <= i < processes.len() && (#[trigger] processes[i]).0@ == name {
                let i = choose|i: int| 0 <= i < processes.len() && (#[trigger] processes[i]).0@ == name;
                assert(front[i] == processes[i]);
            }
            if exists|k: int| is_last_named(front, name, k) {
                let k = choose|k: int| is_last_named(front, name, k);
                assert(is_last_named(processes, name, k));
            }
            if exists|k: int| is_last_named(processes, name, k) {
                let k = choose|k: int| is_last_named(processes, name, k);
                assert(is_last_named(front, name, k));
            }
        }
    }
}

/// The processes of a sandbox are read from the file that it names, and where it
/// names none, from the one that bears its own name.
pub proof fn law_process_file(config_file: Option<Word>, sandbox: Seq<char>)
    ensures
        config_file matches Some(file) ==> process_file_of(config_file, sandbox) == file@,
        config_file is None ==> process_file_of(config_file, sandbox) == WordView::Text(
            sandbox + ".yaml"@,
        ),
{
}

/// The name of an instance is made of the sandbox, the child and the number of the
/// instance.
pub proof fn law_instance_name(sandbox: Seq<char>, child: Seq<char>, instance: nat)
    ensures
        instance_name(sandbox, child, instance) == sandbox + "/"@ + child + "."@ + decimal(instance),
{
    reveal_strlit("/");
    reveal_strlit(".");
    assert("/"@ =~= seq!['/']);
    assert("."@ =~= seq!['.']);
}

/// Nothing of the configuration of a child, or of a daemon, is left out of what it is
/// said to be.
pub proof fn law_configurations_are_shown_whole(child: ChildConfig, daemon: Daemon)
    ensures
        child@.instances == child.instances,
        child@.image == child.image@,
        child@.config == child.config@,
        child@.kind == child.kind,
        child.deep_view() == child@,
        daemon@.name == daemon.name@,
        daemon@.instances == daemon.instances,
        daemon@.child == daemon.child@,
        daemon.deep_view() == daemon@,
{
}

} // verus!
